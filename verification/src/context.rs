//! The layered variable context a render call works against: a stack of
//! scopes over built-in system variables over the immutable external data
//! document.  Lookups search the scopes innermost-first, then the system
//! variables, then the data document.

use crate::chars::spec_find_char;
use crate::chars::str_to_chars;
use crate::chars::string_from_chars;
use crate::value::DataValue;
use crate::value::ValueV;
use crate::value::duplicate;
use crate::value::get_member;
use crate::value::obj_get;
use crate::value::spec_pure_text;
use crate::value::to_pure_string;
use crate::value::value_get;
use crate::value::value_view;
use vstd::prelude::*;

verus! {

/// The key `$now` as characters.
pub open spec fn now_key() -> Seq<char> {
    seq!['$', 'n', 'o', 'w']
}

/// The context a render call starts from: one empty scope open, the render
/// timestamp bound under `$now`, and the data document.
pub open spec fn init_adc(data: ValueV, now: Seq<char>) -> AdcV {
    AdcV {
        scope_stack: seq![ValueV::Object(Seq::<(Seq<char>, ValueV)>::empty())],
        sys: seq![(now_key(), now)],
        data,
    }
}

/// The render-call-local variable context.
pub struct AutoDataContext {
    /// Innermost scope last; every entry is an object.
    pub scope_stack: Vec<DataValue>,
    /// Built-in system variables.
    pub sys: Vec<(String, String)>,
    /// The immutable external data document.
    pub data: DataValue,
}

/// The spec-level value of an `AutoDataContext`.
#[verifier::ext_equal]
pub ghost struct AdcV {
    pub scope_stack: Seq<ValueV>,
    pub sys: Seq<(Seq<char>, Seq<char>)>,
    pub data: ValueV,
}

/// The spec-level value of an `AutoDataContext`.
pub open spec fn adc_view(c: AutoDataContext) -> AdcV {
    AdcV {
        scope_stack: Seq::new(
            c.scope_stack@.len(),
            |i: int|
                if 0 <= i < c.scope_stack@.len() {
                    value_view(c.scope_stack@[i])
                } else {
                    ValueV::Null
                },
        ),
        sys: Seq::new(
            c.sys@.len(),
            |i: int|
                if 0 <= i < c.sys@.len() {
                    (c.sys@[i].0@, c.sys@[i].1@)
                } else {
                    (Seq::empty(), Seq::empty())
                },
        ),
        data: value_view(c.data),
    }
}

/// Every scope is an object.
pub open spec fn adc_wf(v: AdcV) -> bool {
    forall|i: int| 0 <= i < v.scope_stack.len() ==> (#[trigger] v.scope_stack[i]) is Object
}

/// The dotted path's segments, empty segments dropped.
pub open spec fn spec_dot_parts(key: Seq<char>) -> Seq<Seq<char>>
    decreases key.len(),
{
    proof {
        crate::chars::lemma_find_char_some(key, '.', 0);
    }
    if key.len() == 0 {
        Seq::empty()
    } else {
        match spec_find_char(key, '.', 0) {
            Some(i) => if i == 0 {
                spec_dot_parts(key.subrange(1, key.len() as int))
            } else {
                seq![key.subrange(0, i)] + spec_dot_parts(key.subrange(i + 1, key.len() as int))
            },
            None => seq![key],
        }
    }
}

/// Walk a dotted path: each step enters an object member; a missing member
/// or a non-object is a miss.
pub open spec fn spec_path_walk(v: ValueV, parts: Seq<Seq<char>>) -> Option<ValueV>
    decreases parts.len(),
{
    if parts.len() == 0 {
        Some(v)
    } else {
        match v {
            ValueV::Object(_) => match value_get(v, parts[0]) {
                Some(nv) => spec_path_walk(nv, parts.drop_first()),
                None => None,
            },
            _ => None,
        }
    }
}

/// Resolve a key against one value: a plain key is a direct member; a key
/// with dots walks the path.
pub open spec fn spec_get_by_step(v: ValueV, key: Seq<char>) -> Option<ValueV> {
    if spec_find_char(key, '.', 0) is None {
        value_get(v, key)
    } else {
        spec_path_walk(v, spec_dot_parts(key))
    }
}

/// First hit searching the scopes innermost (last) first.
pub open spec fn scopes_lookup(scopes: Seq<ValueV>, key: Seq<char>) -> Option<ValueV>
    decreases scopes.len(),
{
    if scopes.len() == 0 {
        None
    } else {
        match spec_get_by_step(scopes.last(), key) {
            Some(v) => Some(v),
            None => scopes_lookup(scopes.drop_last(), key),
        }
    }
}

/// First system variable under the key.
pub open spec fn sys_lookup(sys: Seq<(Seq<char>, Seq<char>)>, key: Seq<char>) -> Option<Seq<char>>
    decreases sys.len(),
{
    if sys.len() == 0 {
        None
    } else if sys[0].0 == key {
        Some(sys[0].1)
    } else {
        sys_lookup(sys.drop_first(), key)
    }
}

/// A key resolved to display text: scopes first, then system variables,
/// then the data document.
pub open spec fn spec_get_string(adc: AdcV, key: Seq<char>) -> Option<Seq<char>> {
    match scopes_lookup(adc.scope_stack, key) {
        Some(v) => Some(spec_pure_text(v)),
        None => match sys_lookup(adc.sys, key) {
            Some(s) => Some(s),
            None => match spec_get_by_step(adc.data, key) {
                Some(v) => Some(spec_pure_text(v)),
                None => None,
            },
        },
    }
}

/// First array hit searching the scopes innermost first, then the data
/// document; hits of other types are passed over.
pub open spec fn scopes_array_lookup(scopes: Seq<ValueV>, key: Seq<char>) -> Option<Seq<ValueV>>
    decreases scopes.len(),
{
    if scopes.len() == 0 {
        None
    } else {
        match spec_get_by_step(scopes.last(), key) {
            Some(ValueV::Array(items)) => Some(items),
            _ => scopes_array_lookup(scopes.drop_last(), key),
        }
    }
}

/// A key resolved to an array, if any layer holds one.
pub open spec fn spec_get_array(adc: AdcV, key: Seq<char>) -> Option<Seq<ValueV>> {
    match scopes_array_lookup(adc.scope_stack, key) {
        Some(items) => Some(items),
        None => match spec_get_by_step(adc.data, key) {
            Some(ValueV::Array(items)) => Some(items),
            _ => None,
        },
    }
}

/// An object with `key` bound to `val`: the first binding is replaced, or a
/// new one appended.
pub open spec fn obj_set(
    fields: Seq<(Seq<char>, ValueV)>,
    key: Seq<char>,
    val: ValueV,
) -> Seq<(Seq<char>, ValueV)>
    decreases fields.len(),
{
    if fields.len() == 0 {
        seq![(key, val)]
    } else if fields[0].0 == key {
        seq![(key, val)] + fields.drop_first()
    } else {
        seq![fields[0]] + obj_set(fields.drop_first(), key, val)
    }
}

/// The context with `key` bound to `val` in the innermost scope.
pub open spec fn adc_set_scope(adc: AdcV, key: Seq<char>, val: ValueV) -> AdcV {
    if adc.scope_stack.len() == 0 {
        adc
    } else {
        let top = adc.scope_stack.last();
        let top2 = match top {
            ValueV::Object(fields) => ValueV::Object(obj_set(fields, key, val)),
            _ => top,
        };
        AdcV {
            scope_stack: adc.scope_stack.update(adc.scope_stack.len() - 1, top2),
            ..adc
        }
    }
}

/// The spec-level fields of an object's field vector.
pub open spec fn fields_view(fields: Vec<(String, DataValue)>) -> Seq<(Seq<char>, ValueV)> {
    Seq::new(
        fields@.len(),
        |i: int|
            if 0 <= i < fields@.len() {
                (fields@[i].0@, value_view(fields@[i].1))
            } else {
                (Seq::empty(), ValueV::Null)
            },
    )
}

/// An object value's view carries exactly its fields' views.
pub proof fn lemma_object_view(fields: Vec<(String, DataValue)>)
    ensures
        value_view(DataValue::Object(fields)) == ValueV::Object(fields_view(fields)),
{
    assert(value_view(DataValue::Object(fields))->Object_0 =~= fields_view(fields));
    assert(value_view(DataValue::Object(fields)) =~~= ValueV::Object(fields_view(fields)));
}

/// Bind `key` to `val` in an object's fields.
fn obj_set_exec(fields: &mut Vec<(String, DataValue)>, key: &str, val: DataValue)
    ensures
        fields_view(*final(fields)) == obj_set(fields_view(*old(fields)), key@, value_view(val)),
{
    let ghost fv = fields_view(*old(fields));
    let ghost vv0 = value_view(val);
    let mut found: Option<usize> = None;
    let mut i: usize = 0;
    while i < fields.len() && found.is_none()
        invariant
            found is Some || i <= fields@.len(),
            i <= fields@.len(),
            fields@ == old(fields)@,
            fields@.len() == fv.len(),
            fv == fields_view(*fields),
            forall|j: int|
                0 <= j < fv.len() ==> (#[trigger] fv[j]).0 == fields@[j].0@ && fv[j].1 == value_view(
                    fields@[j].1,
                ),
            (match found {
                Some(f) => f < fields@.len() && fv[f as int].0 == key@ && (forall|j: int|
                    0 <= j < f ==> (#[trigger] fv[j]).0 != key@),
                None => forall|j: int| 0 <= j < i ==> (#[trigger] fv[j]).0 != key@,
            }),
        decreases fields@.len() - i, (if found is None { 1int } else { 0int }),
    {
        let matches_key = crate::chars::str_eq(fields[i].0.as_str(), key);
        if matches_key {
            found = Some(i);
        } else {
            i += 1;
        }
    }
    match found {
        Some(f) => {
            let k2 = key.to_owned();
            fields.set(f, (k2, val));
            proof {
                lemma_obj_set_found(fv, key@, fv[f as int].1, f as int);
                assert forall|j: int|
                    0 <= j < fields@.len() implies #[trigger] fields_view(*fields)[j] == fv.update(
                    f as int,
                    (key@, vv0),
                )[j] by {
                    if j != f {
                        assert(fields@[j] == old(fields)@[j]);
                    } else {
                        assert(fields@[j].0@ == key@);
                        assert(value_view(fields@[j].1) == vv0);
                    }
                }
                assert(fields_view(*fields) =~= fv.update(f as int, (key@, vv0)));
                assert(fields_view(*fields) =~~= obj_set(fv, key@, vv0));
            }
        },
        None => {
            let ks = key.to_owned();
            fields.push((ks, val));
            proof {
                lemma_obj_set_missing(fv, key@);
                assert forall|j: int|
                    0 <= j < fields@.len() implies #[trigger] fields_view(*fields)[j] == fv.push(
                    (key@, vv0),
                )[j] by {
                    if j < fv.len() {
                        assert(fields@[j] == old(fields)@[j]);
                    } else {
                        assert(fields@[j].0@ == key@);
                        assert(value_view(fields@[j].1) == vv0);
                    }
                }
                assert(fields_view(*fields) =~= fv.push((key@, vv0)));
                assert(fields_view(*fields) =~~= obj_set(fv, key@, vv0));
            }
        },
    }
}

/// When the key is bound at `i` (and nowhere earlier), `obj_set` replaces
/// exactly that binding.
pub proof fn lemma_obj_set_found(
    fields: Seq<(Seq<char>, ValueV)>,
    key: Seq<char>,
    old_val: ValueV,
    i: int,
)
    requires
        0 <= i < fields.len(),
        fields[i].0 == key,
        forall|j: int| 0 <= j < i ==> (#[trigger] fields[j]).0 != key,
    ensures
        forall|val: ValueV|
            #[trigger] obj_set(fields, key, val) =~= fields.update(i, (key, val)),
    decreases i,
{
    if i == 0 {
        assert forall|val: ValueV|
            #[trigger] obj_set(fields, key, val) =~= fields.update(0, (key, val)) by {
            assert(obj_set(fields, key, val) =~= seq![(key, val)] + fields.drop_first());
        }
    } else {
        lemma_obj_set_found(fields.drop_first(), key, old_val, i - 1);
        assert forall|val: ValueV|
            #[trigger] obj_set(fields, key, val) =~= fields.update(i, (key, val)) by {
            assert(fields.drop_first()[i - 1] == fields[i]);
            assert(obj_set(fields.drop_first(), key, val) =~= fields.drop_first().update(
                i - 1,
                (key, val),
            ));
            assert(obj_set(fields, key, val) =~= seq![fields[0]] + fields.drop_first().update(
                i - 1,
                (key, val),
            ));
        }
    }
}

/// When the key is unbound, `obj_set` appends.
pub proof fn lemma_obj_set_missing(fields: Seq<(Seq<char>, ValueV)>, key: Seq<char>)
    requires
        forall|j: int| 0 <= j < fields.len() ==> (#[trigger] fields[j]).0 != key,
    ensures
        forall|val: ValueV| #[trigger] obj_set(fields, key, val) =~= fields.push((key, val)),
    decreases fields.len(),
{
    if fields.len() > 0 {
        lemma_obj_set_missing(fields.drop_first(), key);
        assert forall|val: ValueV|
            #[trigger] obj_set(fields, key, val) =~= fields.push((key, val)) by {
            assert(obj_set(fields.drop_first(), key, val) =~= fields.drop_first().push(
                (key, val),
            ));
            assert(obj_set(fields, key, val) =~= seq![fields[0]] + fields.drop_first().push(
                (key, val),
            ));
        }
    } else {
        assert forall|val: ValueV|
            #[trigger] obj_set(fields, key, val) =~= fields.push((key, val)) by {
            assert(obj_set(fields, key, val) =~= seq![(key, val)]);
        }
    }
}

impl AutoDataContext {
    /// A fresh context over the optional data document, with the render
    /// timestamp bound and one empty root scope open.
    pub fn new(data: Option<&DataValue>) -> (r: AutoDataContext)
        ensures
            adc_wf(adc_view(r)),
            adc_view(r).scope_stack.len() == 1,
            adc_view(r).scope_stack[0] == ValueV::Object(Seq::<(Seq<char>, ValueV)>::empty()),
            adc_view(r).sys.len() == 1,
            adc_view(r).sys[0].0 == seq!['$', 'n', 'o', 'w'],
            adc_view(r).data == (match data {
                Some(d) => value_view(*d),
                None => ValueV::Null,
            }),
            adc_view(r) == init_adc(adc_view(r).data, adc_view(r).sys[0].1),
    {
        let owned = match data {
            Some(d) => duplicate(d),
            None => DataValue::Null,
        };
        let mut s = AutoDataContext { scope_stack: Vec::new(), sys: Vec::new(), data: owned };
        let now = crate::context::now_timestamp_string();
        let key: Vec<char> = vec!['$', 'n', 'o', 'w'];
        s.sys.push((string_from_chars(&key), now));
        let fields0: Vec<(String, DataValue)> = Vec::new();
        proof {
            assert(fields_view(fields0) =~= Seq::<(Seq<char>, ValueV)>::empty());
            lemma_object_view(fields0);
        }
        let empty_obj = DataValue::Object(fields0);
        let ghost ev = value_view(empty_obj);
        proof {
            assert(ev == ValueV::Object(Seq::<(Seq<char>, ValueV)>::empty()));
        }
        s.scope_stack.push(empty_obj);
        proof {
            assert(key@ =~= seq!['$', 'n', 'o', 'w']);
            assert(adc_view(s).scope_stack =~= seq![ev]);
            assert(adc_view(s).scope_stack =~~= seq![
                ValueV::Object(Seq::<(Seq<char>, ValueV)>::empty()),
            ]);
            assert(adc_view(s).sys[0].0 =~= seq!['$', 'n', 'o', 'w']);
            assert(adc_view(s) =~~= init_adc(adc_view(s).data, adc_view(s).sys[0].1));
        }
        s
    }

    /// Resolve a key to display text.
    pub fn get_string(&self, key: &str) -> (r: Option<String>)
        ensures
            (match r {
                Some(s) => spec_get_string(adc_view(*self), key@) == Some(s@),
                None => spec_get_string(adc_view(*self), key@) is None,
            }),
    {
        let ghost adc = adc_view(*self);
        let mut i: usize = self.scope_stack.len();
        proof {
            assert(adc.scope_stack.subrange(0, i as int) =~= adc.scope_stack);
        }
        while i > 0
            invariant
                i <= adc.scope_stack.len(),
                adc == adc_view(*self),
                adc.scope_stack.len() == self.scope_stack@.len(),
                forall|j: int|
                    0 <= j < adc.scope_stack.len() ==> #[trigger] adc.scope_stack[j] == value_view(
                        self.scope_stack@[j],
                    ),
                scopes_lookup(adc.scope_stack, key@) == scopes_lookup(
                    adc.scope_stack.subrange(0, i as int),
                    key@,
                ),
            decreases i,
        {
            let ghost pre = adc.scope_stack.subrange(0, i as int);
            match get_by_step_in_key(&self.scope_stack[i - 1], key) {
                Some(val) => {
                    proof {
                        assert(pre.last() == adc.scope_stack[i - 1]);
                    }
                    return Some(to_pure_string(val));
                },
                None => {
                    proof {
                        assert(pre.last() == adc.scope_stack[i - 1]);
                        assert(pre.drop_last() =~= adc.scope_stack.subrange(0, i - 1));
                    }
                    i = i - 1;
                },
            }
        }
        proof {
            assert(adc.scope_stack.subrange(0, 0) =~= Seq::<ValueV>::empty());
        }
        let mut k: usize = 0;
        proof {
            assert(adc.sys.subrange(0, adc.sys.len() as int) =~= adc.sys);
            assert(adc.sys.subrange(0 as int, adc.sys.len() as int) =~= adc.sys);
        }
        while k < self.sys.len()
            invariant
                k <= adc.sys.len(),
                adc == adc_view(*self),
                adc.sys.len() == self.sys@.len(),
                forall|j: int|
                    0 <= j < adc.sys.len() ==> (#[trigger] adc.sys[j]).0 == self.sys@[j].0@
                        && adc.sys[j].1 == self.sys@[j].1@,
                scopes_lookup(adc.scope_stack, key@) is None,
                sys_lookup(adc.sys, key@) == sys_lookup(
                    adc.sys.subrange(k as int, adc.sys.len() as int),
                    key@,
                ),
            decreases adc.sys.len() - k,
        {
            let ghost rest = adc.sys.subrange(k as int, adc.sys.len() as int);
            let hit = crate::chars::str_eq(self.sys[k].0.as_str(), key);
            if hit {
                proof {
                    assert(rest[0] == adc.sys[k as int]);
                }
                let out = self.sys[k].1.clone();
                return Some(out);
            }
            proof {
                assert(rest[0] == adc.sys[k as int]);
                assert(rest.drop_first() =~= adc.sys.subrange(k + 1, adc.sys.len() as int));
            }
            k += 1;
        }
        proof {
            assert(adc.sys.subrange(adc.sys.len() as int, adc.sys.len() as int) =~= Seq::<
                (Seq<char>, Seq<char>),
            >::empty());
        }
        match get_by_step_in_key(&self.data, key) {
            Some(val) => Some(to_pure_string(val)),
            None => None,
        }
    }

    /// Resolve a key to an array, passing over hits of other types.
    pub fn get_array(&self, key: &str) -> (r: Option<Vec<DataValue>>)
        ensures
            (match r {
                Some(items) => spec_get_array(adc_view(*self), key@) == Some(
                    Seq::new(
                        items@.len(),
                        |i: int|
                            if 0 <= i < items@.len() {
                                value_view(items@[i])
                            } else {
                                ValueV::Null
                            },
                    ),
                ),
                None => spec_get_array(adc_view(*self), key@) is None,
            }),
    {
        let ghost adc = adc_view(*self);
        let mut i: usize = self.scope_stack.len();
        proof {
            assert(adc.scope_stack.subrange(0, i as int) =~= adc.scope_stack);
        }
        while i > 0
            invariant
                i <= adc.scope_stack.len(),
                adc == adc_view(*self),
                adc.scope_stack.len() == self.scope_stack@.len(),
                forall|j: int|
                    0 <= j < adc.scope_stack.len() ==> #[trigger] adc.scope_stack[j] == value_view(
                        self.scope_stack@[j],
                    ),
                scopes_array_lookup(adc.scope_stack, key@) == scopes_array_lookup(
                    adc.scope_stack.subrange(0, i as int),
                    key@,
                ),
            decreases i,
        {
            let ghost pre = adc.scope_stack.subrange(0, i as int);
            proof {
                assert(pre.last() == adc.scope_stack[i - 1]);
                assert(pre.drop_last() =~= adc.scope_stack.subrange(0, i - 1));
            }
            match get_by_step_in_key(&self.scope_stack[i - 1], key) {
                Some(val) => {
                    match val {
                        DataValue::Array(items) => {
                            let out = duplicate_items(items);
                            return Some(out);
                        },
                        _ => {
                            i = i - 1;
                        },
                    }
                },
                None => {
                    i = i - 1;
                },
            }
        }
        proof {
            assert(adc.scope_stack.subrange(0, 0) =~= Seq::<ValueV>::empty());
        }
        match get_by_step_in_key(&self.data, key) {
            Some(val) => match val {
                DataValue::Array(items) => {
                    let out = duplicate_items(items);
                    Some(out)
                },
                _ => None,
            },
            None => None,
        }
    }

    /// Bind `key` to a string value in the innermost scope.
    pub fn set_scope_with_string(&mut self, key: &str, val: String)
        requires
            adc_wf(adc_view(*old(self))),
            adc_view(*old(self)).scope_stack.len() >= 1,
        ensures
            adc_view(*final(self)) == adc_set_scope(
                adc_view(*old(self)),
                key@,
                ValueV::String(val@),
            ),
            adc_wf(adc_view(*final(self))),
    {
        let v = DataValue::String(val);
        self.set_scope_with_value(key, v);
    }

    /// Bind `key` to a value in the innermost scope.
    pub fn set_scope_with_value(&mut self, key: &str, val: DataValue)
        requires
            adc_wf(adc_view(*old(self))),
            adc_view(*old(self)).scope_stack.len() >= 1,
        ensures
            adc_view(*final(self)) == adc_set_scope(adc_view(*old(self)), key@, value_view(val)),
            adc_wf(adc_view(*final(self))),
    {
        let ghost adc0 = adc_view(*old(self));
        let ghost vv = value_view(val);
        match self.scope_stack.pop() {
            Some(top) => {
                match top {
                    DataValue::Object(mut fields) => {
                        let ghost oldfv = fields_view(fields);
                        proof {
                            lemma_object_view(fields);
                            assert(adc0.scope_stack.last() == ValueV::Object(oldfv));
                        }
                        obj_set_exec(&mut fields, key, val);
                        proof {
                            lemma_object_view(fields);
                        }
                        self.scope_stack.push(DataValue::Object(fields));
                        proof {
                            assert(adc_view(*self).scope_stack =~~= adc0.scope_stack.update(
                                adc0.scope_stack.len() - 1,
                                ValueV::Object(obj_set(oldfv, key@, vv)),
                            ));
                            assert(adc_view(*self) =~~= adc_set_scope(adc0, key@, vv));
                        }
                    },
                    _ => {
                        proof {
                            assert(adc0.scope_stack[adc0.scope_stack.len() - 1] is Object);
                            assert(false);
                        }
                    },
                }
            },
            None => {
                proof {
                    assert(false);
                }
            },
        }
    }

    /// Bind a system variable.
    pub fn set_sys(&mut self, key: &str, val: String)
        ensures
            adc_view(*final(self)).scope_stack == adc_view(*old(self)).scope_stack,
            adc_view(*final(self)).data == adc_view(*old(self)).data,
            sys_lookup(adc_view(*final(self)).sys, key@) == Some(val@),
    {
        let ks = key.to_owned();
        let ghost adc0 = adc_view(*old(self));
        let mut replaced = false;
        let mut k: usize = 0;
        while k < self.sys.len()
            invariant
                k <= self.sys@.len(),
                !replaced,
                self.scope_stack == old(self).scope_stack,
                self.data == old(self).data,
                self.sys@.len() == adc0.sys.len(),
                forall|j: int| 0 <= j < k ==> #[trigger] self.sys@[j].0@ != key@,
                forall|j: int| 0 <= j < adc0.sys.len() ==> self.sys@[j] == old(self).sys@[j],
            decreases self.sys@.len() - k,
        {
            let hit = crate::chars::str_eq(self.sys[k].0.as_str(), key);
            if hit {
                let k2 = self.sys[k].0.clone();
                self.sys.set(k, (k2, val));
                proof {
                    let newsys = adc_view(*self).sys;
                    lemma_sys_lookup_at(newsys, key@, k as int);
                }
                return ;
            }
            k += 1;
        }
        self.sys.push((ks, val));
        proof {
            let newsys = adc_view(*self).sys;
            lemma_sys_lookup_at(newsys, key@, newsys.len() - 1);
        }
    }

    /// Open a fresh innermost scope.
    pub fn push_scope(&mut self)
        ensures
            adc_view(*final(self)).scope_stack == adc_view(*old(self)).scope_stack.push(
                ValueV::Object(Seq::<(Seq<char>, ValueV)>::empty()),
            ),
            adc_view(*final(self)).sys == adc_view(*old(self)).sys,
            adc_view(*final(self)).data == adc_view(*old(self)).data,
    {
        let ghost adc0 = adc_view(*old(self));
        let fields0: Vec<(String, DataValue)> = Vec::new();
        proof {
            assert(fields_view(fields0) =~= Seq::<(Seq<char>, ValueV)>::empty());
            lemma_object_view(fields0);
        }
        let empty_obj = DataValue::Object(fields0);
        let ghost ev = value_view(empty_obj);
        proof {
            assert(ev == ValueV::Object(Seq::<(Seq<char>, ValueV)>::empty()));
        }
        self.scope_stack.push(empty_obj);
        proof {
            assert(adc_view(*self).scope_stack =~= adc0.scope_stack.push(ev));
            assert(adc_view(*self).scope_stack =~~= adc0.scope_stack.push(
                ValueV::Object(Seq::<(Seq<char>, ValueV)>::empty()),
            ));
            assert(adc_view(*self).sys =~= adc0.sys);
        }
    }

    /// Close the innermost scope.
    pub fn pop_scope(&mut self)
        requires
            adc_view(*old(self)).scope_stack.len() >= 1,
        ensures
            adc_view(*final(self)).scope_stack == adc_view(*old(self)).scope_stack.drop_last(),
            adc_view(*final(self)).sys == adc_view(*old(self)).sys,
            adc_view(*final(self)).data == adc_view(*old(self)).data,
    {
        let ghost adc0 = adc_view(*old(self));
        match self.scope_stack.pop() {
            Some(_) => {
                proof {
                    assert(adc_view(*self).scope_stack =~= adc0.scope_stack.drop_last());
                    assert(adc_view(*self).sys =~= adc0.sys);
                }
            },
            None => {
                proof {
                    assert(false);
                }
            },
        }
    }
}

/// When the key sits at `i` and nowhere earlier, the lookup finds it.
pub proof fn lemma_sys_lookup_at(sys: Seq<(Seq<char>, Seq<char>)>, key: Seq<char>, i: int)
    requires
        0 <= i < sys.len(),
        sys[i].0 == key,
        forall|j: int| 0 <= j < i ==> (#[trigger] sys[j]).0 != key,
    ensures
        sys_lookup(sys, key) == Some(sys[i].1),
    decreases i,
{
    if i > 0 {
        lemma_sys_lookup_at(sys.drop_first(), key, i - 1);
    }
}

/// Copies of an array's elements.
fn duplicate_items(items: &Vec<DataValue>) -> (out: Vec<DataValue>)
    ensures
        out@.len() == items@.len(),
        Seq::new(
            out@.len(),
            |i: int|
                if 0 <= i < out@.len() {
                    value_view(out@[i])
                } else {
                    ValueV::Null
                },
        ) == Seq::new(
            items@.len(),
            |i: int|
                if 0 <= i < items@.len() {
                    value_view(items@[i])
                } else {
                    ValueV::Null
                },
        ),
{
    let mut out: Vec<DataValue> = Vec::new();
    let mut i: usize = 0;
    while i < items.len()
        invariant
            i <= items@.len(),
            out@.len() == i,
            forall|j: int| 0 <= j < i ==> value_view(#[trigger] out@[j]) == value_view(items@[j]),
        decreases items@.len() - i,
    {
        let d = duplicate(&items[i]);
        out.push(d);
        i += 1;
    }
    proof {
        assert(Seq::new(
            out@.len(),
            |i: int|
                if 0 <= i < out@.len() {
                    value_view(out@[i])
                } else {
                    ValueV::Null
                },
        ) =~= Seq::new(
            items@.len(),
            |i: int|
                if 0 <= i < items@.len() {
                    value_view(items@[i])
                } else {
                    ValueV::Null
                },
        ));
    }
    out
}

/// Resolve a key against one value, walking a dotted path if the key holds
/// dots.
pub fn get_by_step_in_key<'a>(data: &'a DataValue, key: &str) -> (r: Option<&'a DataValue>)
    ensures
        (match r {
            Some(m) => spec_get_by_step(value_view(*data), key@) == Some(value_view(*m)),
            None => spec_get_by_step(value_view(*data), key@) is None,
        }),
{
    let kc = str_to_chars(key);
    match crate::chars::find_char_in(&kc, 0, kc.len(), '.') {
        None => {
            proof {
                assert(kc@.subrange(0, kc@.len() as int) =~= kc@);
                assert(spec_find_char(key@, '.', 0) is None);
            }
            get_member(data, key)
        },
        Some(_) => {
            proof {
                assert(kc@.subrange(0, kc@.len() as int) =~= kc@);
                assert(spec_find_char(key@, '.', 0) is Some);
            }
            let parts = split_dots(&kc);
            let ghost pv = parts.deep_view();
            let mut target: &DataValue = data;
            let mut i: usize = 0;
            proof {
                assert(pv.subrange(0, pv.len() as int) =~= pv);
            }
            while i < parts.len()
                invariant
                    i <= pv.len(),
                    pv.len() == parts@.len(),
                    forall|j: int| 0 <= j < pv.len() ==> #[trigger] pv[j] == parts@[j]@,
                    spec_find_char(key@, '.', 0) is Some,
                    pv == spec_dot_parts(key@),
                    spec_path_walk(value_view(*data), pv) == spec_path_walk(
                        value_view(*target),
                        pv.subrange(i as int, pv.len() as int),
                    ),
                decreases pv.len() - i,
            {
                let ghost rest = pv.subrange(i as int, pv.len() as int);
                match target {
                    DataValue::Object(_) => {
                        let part = string_from_chars(&parts[i]);
                        match get_member(target, part.as_str()) {
                            Some(nv) => {
                                proof {
                                    assert(rest[0] == pv[i as int]);
                                    assert(rest.drop_first() =~= pv.subrange(
                                        i + 1,
                                        pv.len() as int,
                                    ));
                                }
                                target = nv;
                                i += 1;
                            },
                            None => {
                                proof {
                                    assert(rest[0] == pv[i as int]);
                                }
                                return None;
                            },
                        }
                    },
                    _ => {
                        proof {
                            let rest = pv.subrange(i as int, pv.len() as int);
                            assert(rest.len() > 0);
                            assert(!(value_view(*target) is Object));
                            assert(spec_path_walk(value_view(*target), rest) is None);
                        }
                        return None;
                    },
                }
            }
            proof {
                assert(pv.subrange(pv.len() as int, pv.len() as int) =~= Seq::<Seq<char>>::empty());
            }
            Some(target)
        },
    }
}

/// The dotted path's segments, empty segments dropped.
fn split_dots(kc: &Vec<char>) -> (parts: Vec<Vec<char>>)
    ensures
        parts.deep_view() == spec_dot_parts(kc@),
{
    let mut parts: Vec<Vec<char>> = Vec::new();
    let mut pos: usize = 0;
    proof {
        assert(kc@.subrange(0, kc@.len() as int) =~= kc@);
        assert(parts.deep_view() + spec_dot_parts(kc@) =~= spec_dot_parts(kc@));
    }
    while pos < kc.len()
        invariant
            pos <= kc@.len(),
            spec_dot_parts(kc@) == parts.deep_view() + spec_dot_parts(
                kc@.subrange(pos as int, kc@.len() as int),
            ),
        decreases kc@.len() - pos,
    {
        let ghost sub = kc@.subrange(pos as int, kc@.len() as int);
        let ghost dv0 = parts.deep_view();
        match crate::chars::find_char_in(kc, pos, kc.len(), '.') {
            Some(p) => {
                if p == pos {
                    pos = pos + 1;
                    proof {
                        assert(sub.subrange(1, sub.len() as int) =~= kc@.subrange(
                            pos as int,
                            kc@.len() as int,
                        ));
                        assert(parts.deep_view() + spec_dot_parts(
                            kc@.subrange(pos as int, kc@.len() as int),
                        ) =~~= spec_dot_parts(kc@));
                    }
                } else {
                    let piece = crate::chars::span_chars(kc, pos, p);
                    proof {
                        assert(piece@ =~= sub.subrange(0, p - pos));
                    }
                    parts.push(piece);
                    let ghost pos0 = pos as int;
                    pos = p + 1;
                    proof {
                        assert(parts.deep_view() =~~= dv0.push(sub.subrange(0, p - pos0)));
                        assert(sub.subrange(p - pos0 + 1, sub.len() as int) =~= kc@.subrange(
                            pos as int,
                            kc@.len() as int,
                        ));
                        assert(parts.deep_view() + spec_dot_parts(
                            kc@.subrange(pos as int, kc@.len() as int),
                        ) =~~= spec_dot_parts(kc@));
                    }
                }
            },
            None => {
                let piece = crate::chars::span_chars(kc, pos, kc.len());
                parts.push(piece);
                proof {
                    assert(piece@ =~= sub);
                    assert(parts.deep_view() =~~= dv0.push(sub));
                    assert(spec_dot_parts(sub) =~= seq![sub]);
                    assert(parts.deep_view() =~~= spec_dot_parts(kc@));
                }
                return parts;
            },
        }
    }
    proof {
        assert(kc@.subrange(pos as int, kc@.len() as int) =~= Seq::<char>::empty());
        assert(parts.deep_view() =~~= spec_dot_parts(kc@));
    }
    parts
}

/// Relies on `chrono::Local::now` and its `format`: the render timestamp as
/// `YYYY-MM-DD HH:MM:SS` local time.  The result depends on the clock, so
/// nothing is promised of its text.
#[verifier::external_body]
pub fn now_timestamp_string() -> String {
    chrono::Local::now().format("%Y-%m-%d %H:%M:%S").to_string()
}

} // verus!
