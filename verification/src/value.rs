//! The dynamically typed data document: a JSON-like tagged value, the shape
//! both of the external data handed to a render call and of the values bound
//! in scopes.

use vstd::prelude::*;

verus! {

/// A JSON-like dynamic value.  A number is held as its canonical decimal
/// text.
#[derive(Debug)]
pub enum DataValue {
    Null,
    Bool(bool),
    /// The number's canonical textual form.
    Number(String),
    String(String),
    Array(Vec<DataValue>),
    Object(Vec<(String, DataValue)>),
}

/// The spec-level value of a `DataValue`.
#[verifier::ext_equal]
pub ghost enum ValueV {
    Null,
    Bool(bool),
    Number(Seq<char>),
    String(Seq<char>),
    Array(Seq<ValueV>),
    Object(Seq<(Seq<char>, ValueV)>),
}

/// The spec-level value of a `DataValue`.
pub open spec fn value_view(v: DataValue) -> ValueV
    decreases v,
{
    match v {
        DataValue::Null => ValueV::Null,
        DataValue::Bool(b) => ValueV::Bool(b),
        DataValue::Number(s) => ValueV::Number(s@),
        DataValue::String(s) => ValueV::String(s@),
        DataValue::Array(items) => {
            proof {
                assert forall|i: int| 0 <= i < items@.len() implies decreases_to!(
                    v => items@[i]) by {
                    assert(decreases_to!(v => items));
                    assert(decreases_to!(items => items@));
                    assert(decreases_to!(items@ => items@[i]));
                }
            }
            ValueV::Array(
                Seq::new(
                    items@.len(),
                    |i: int|
                        if 0 <= i < items@.len() {
                            value_view(items@[i])
                        } else {
                            ValueV::Null
                        },
                ),
            )
        },
        DataValue::Object(fields) => {
            proof {
                assert forall|i: int| 0 <= i < fields@.len() implies decreases_to!(
                    v => fields@[i].1) by {
                    assert(decreases_to!(v => fields));
                    assert(decreases_to!(fields => fields@));
                    assert(decreases_to!(fields@ => fields@[i]));
                    assert(decreases_to!(fields@[i] => fields@[i].1));
                }
            }
            ValueV::Object(
                Seq::new(
                    fields@.len(),
                    |i: int|
                        if 0 <= i < fields@.len() {
                            (fields@[i].0@, value_view(fields@[i].1))
                        } else {
                            (Seq::empty(), ValueV::Null)
                        },
                ),
            )
        },
    }
}

/// A deep copy.
pub fn duplicate(v: &DataValue) -> (r: DataValue)
    ensures
        value_view(r) == value_view(*v),
    decreases *v,
{
    match v {
        DataValue::Null => DataValue::Null,
        DataValue::Bool(b) => DataValue::Bool(*b),
        DataValue::Number(s) => DataValue::Number(s.clone()),
        DataValue::String(s) => DataValue::String(s.clone()),
        DataValue::Array(items) => {
            proof {
                assert(decreases_to!(*v => (*v)->Array_0));
                assert forall|j: int| 0 <= j < items@.len() implies decreases_to!(
                    *v => #[trigger] items@[j]) by {
                    assert(decreases_to!(*items => items@));
                    assert(decreases_to!(items@ => items@[j]));
                }
            }
            let mut out: Vec<DataValue> = Vec::new();
            let mut i: usize = 0;
            while i < items.len()
                invariant
                    i <= items@.len(),
                    out@.len() == i,
                    forall|j: int|
                        0 <= j < i ==> value_view(#[trigger] out@[j]) == value_view(items@[j]),
                    forall|j: int|
                        0 <= j < items@.len() ==> decreases_to!(*v => #[trigger] items@[j]),
                decreases items@.len() - i,
            {
                let d = duplicate(&items[i]);
                out.push(d);
                i += 1;
            }
            let r = DataValue::Array(out);
            proof {
                let lhs = value_view(r);
                let rhs = value_view(*v);
                assert forall|j: int|
                    0 <= j < lhs->Array_0.len() implies lhs->Array_0[j] == rhs->Array_0[j] by {
                    assert(value_view(out@[j]) == value_view(items@[j]));
                }
                assert(lhs->Array_0 =~= rhs->Array_0);
                assert(lhs =~~= rhs);
            }
            r
        },
        DataValue::Object(fields) => {
            proof {
                assert(decreases_to!(*v => (*v)->Object_0));
                assert forall|j: int| 0 <= j < fields@.len() implies decreases_to!(
                    *v => #[trigger] fields@[j].1) by {
                    assert(decreases_to!(*fields => fields@));
                    assert(decreases_to!(fields@ => fields@[j]));
                    assert(decreases_to!(fields@[j] => fields@[j].1));
                }
            }
            let mut out: Vec<(String, DataValue)> = Vec::new();
            let mut i: usize = 0;
            while i < fields.len()
                invariant
                    i <= fields@.len(),
                    out@.len() == i,
                    forall|j: int|
                        0 <= j < i ==> (#[trigger] out@[j]).0@ == fields@[j].0@ && value_view(
                            out@[j].1,
                        ) == value_view(fields@[j].1),
                    forall|j: int|
                        0 <= j < fields@.len() ==> decreases_to!(*v => #[trigger] fields@[j].1),
                decreases fields@.len() - i,
            {
                let (k, d) = &fields[i];
                let k2 = k.clone();
                let d2 = duplicate(d);
                out.push((k2, d2));
                i += 1;
            }
            let r = DataValue::Object(out);
            proof {
                let lhs = value_view(r);
                let rhs = value_view(*v);
                assert forall|j: int|
                    0 <= j < lhs->Object_0.len() implies lhs->Object_0[j] == rhs->Object_0[j] by {
                    assert(out@[j].0@ == fields@[j].0@ && value_view(out@[j].1) == value_view(
                        fields@[j].1,
                    ));
                }
                assert(lhs->Object_0 =~= rhs->Object_0);
                assert(lhs =~~= rhs);
            }
            r
        },
    }
}

/// The value under `key` in an object; `None` on anything else.
pub open spec fn obj_get(fields: Seq<(Seq<char>, ValueV)>, key: Seq<char>) -> Option<ValueV>
    decreases fields.len(),
{
    if fields.len() == 0 {
        None
    } else if fields[0].0 == key {
        Some(fields[0].1)
    } else {
        obj_get(fields.drop_first(), key)
    }
}

/// Direct member access: only objects have members.
pub open spec fn value_get(v: ValueV, key: Seq<char>) -> Option<ValueV> {
    match v {
        ValueV::Object(fields) => obj_get(fields, key),
        _ => None,
    }
}

/// Direct member access on a value.
pub fn get_member<'a>(v: &'a DataValue, key: &str) -> (r: Option<&'a DataValue>)
    ensures
        (match r {
            Some(m) => value_get(value_view(*v), key@) == Some(value_view(*m)),
            None => value_get(value_view(*v), key@) is None,
        }),
{
    match v {
        DataValue::Object(fields) => {
            let ghost fv = value_view(*v)->Object_0;
            proof {
                assert(fv.subrange(0, fv.len() as int) =~= fv);
            }
            let mut i: usize = 0;
            while i < fields.len()
                invariant
                    i <= fields@.len(),
                    fv.len() == fields@.len(),
                    value_get(value_view(*v), key@) == obj_get(fv, key@),
                    forall|j: int|
                        0 <= j < fields@.len() ==> (#[trigger] fv[j]).0 == fields@[j].0@ && fv[j].1
                            == value_view(fields@[j].1),
                    obj_get(fv, key@) == obj_get(fv.subrange(i as int, fv.len() as int), key@),
                decreases fields@.len() - i,
            {
                let ghost rest = fv.subrange(i as int, fv.len() as int);
                let (k, val) = &fields[i];
                if crate::chars::str_eq(k.as_str(), key) {
                    proof {
                        assert(rest[0].0 == key@);
                    }
                    return Some(val);
                }
                proof {
                    assert(rest[0].0 != key@);
                    assert(rest.drop_first() =~= fv.subrange(i + 1, fv.len() as int));
                }
                i += 1;
            }
            proof {
                assert(fv.subrange(i as int, fv.len() as int).len() == 0);
            }
            None
        },
        _ => None,
    }
}


/// The low hexadecimal digit of a control character's code point.
pub open spec fn spec_ctrl_low(c: char) -> char {
    if c == '\u{0}' || c == '\u{10}' { '0' }
    else if c == '\u{1}' || c == '\u{11}' { '1' }
    else if c == '\u{2}' || c == '\u{12}' { '2' }
    else if c == '\u{3}' || c == '\u{13}' { '3' }
    else if c == '\u{4}' || c == '\u{14}' { '4' }
    else if c == '\u{5}' || c == '\u{15}' { '5' }
    else if c == '\u{6}' || c == '\u{16}' { '6' }
    else if c == '\u{7}' || c == '\u{17}' { '7' }
    else if c == '\u{8}' || c == '\u{18}' { '8' }
    else if c == '\u{9}' || c == '\u{19}' { '9' }
    else if c == '\u{A}' || c == '\u{1A}' { 'a' }
    else if c == '\u{B}' || c == '\u{1B}' { 'b' }
    else if c == '\u{C}' || c == '\u{1C}' { 'c' }
    else if c == '\u{D}' || c == '\u{1D}' { 'd' }
    else if c == '\u{E}' || c == '\u{1E}' { 'e' }
    else { 'f' }
}

/// How one character reads inside a JSON string: quote and backslash are
/// escaped, the common control characters get their short forms, any other
/// control character a `\u00..` escape.
pub open spec fn spec_json_esc_char(c: char) -> Seq<char> {
    if c == '"' { seq!['\\', '"'] }
    else if c == '\\' { seq!['\\', '\\'] }
    else if c == '\u{8}' { seq!['\\', 'b'] }
    else if c == '\u{9}' { seq!['\\', 't'] }
    else if c == '\u{A}' { seq!['\\', 'n'] }
    else if c == '\u{C}' { seq!['\\', 'f'] }
    else if c == '\u{D}' { seq!['\\', 'r'] }
    else if c <= '\u{1F}' {
        seq![
            '\\',
            'u',
            '0',
            '0',
            if c <= '\u{F}' {
                '0'
            } else {
                '1'
            },
            spec_ctrl_low(c),
        ]
    } else {
        seq![c]
    }
}

/// A string's characters, escaped for JSON.
pub open spec fn spec_json_escaped(s: Seq<char>, i: int) -> Seq<char>
    decreases s.len() - i,
{
    if i < 0 || i >= s.len() {
        Seq::empty()
    } else {
        spec_json_esc_char(s[i]) + spec_json_escaped(s, i + 1)
    }
}

/// Comma-separated continuation of a part list, each part preceded by `,`.
pub open spec fn spec_join_comma_from(parts: Seq<Seq<char>>, i: int) -> Seq<char>
    decreases parts.len() - i,
{
    if i < 0 || i >= parts.len() {
        Seq::empty()
    } else {
        seq![','] + parts[i] + spec_join_comma_from(parts, i + 1)
    }
}

/// Parts joined with commas between them.
pub open spec fn spec_join_comma(parts: Seq<Seq<char>>) -> Seq<char> {
    if parts.len() == 0 {
        Seq::empty()
    } else {
        parts[0] + spec_join_comma_from(parts, 1)
    }
}

/// The JSON texts of an array's elements.
pub open spec fn spec_json_parts(items: Seq<ValueV>) -> Seq<Seq<char>>
    decreases items,
{
    proof {
        assert forall|i: int| 0 <= i < items.len() implies decreases_to!(items => items[i]) by {}
    }
    Seq::new(
        items.len(),
        |i: int|
            if 0 <= i < items.len() {
                spec_json_text(items[i])
            } else {
                Seq::empty()
            },
    )
}

/// The JSON texts of an object's `"key":value` members.
pub open spec fn spec_json_obj_parts(fields: Seq<(Seq<char>, ValueV)>) -> Seq<Seq<char>>
    decreases fields,
{
    proof {
        assert forall|i: int| 0 <= i < fields.len() implies decreases_to!(
            fields => fields[i].1) by {
            assert(decreases_to!(fields => fields[i]));
            assert(decreases_to!(fields[i] => fields[i].1));
        }
    }
    Seq::new(
        fields.len(),
        |i: int|
            if 0 <= i < fields.len() {
                seq!['"'] + spec_json_escaped(fields[i].0, 0) + seq!['"', ':'] + spec_json_text(
                    fields[i].1,
                )
            } else {
                Seq::empty()
            },
    )
}

/// The canonical JSON text of a value: `null`, `true`/`false`, the number's
/// stored text, a double-quoted escaped string, or bracketed children.
pub open spec fn spec_json_text(v: ValueV) -> Seq<char>
    decreases v,
{
    match v {
        ValueV::Null => seq!['n', 'u', 'l', 'l'],
        ValueV::Bool(b) => if b {
            seq!['t', 'r', 'u', 'e']
        } else {
            seq!['f', 'a', 'l', 's', 'e']
        },
        ValueV::Number(s) => s,
        ValueV::String(s) => seq!['"'] + spec_json_escaped(s, 0) + seq!['"'],
        ValueV::Array(items) => {
            proof {
                assert(decreases_to!(v => items));
            }
            seq!['['] + spec_join_comma(spec_json_parts(items)) + seq![']']
        },
        ValueV::Object(fields) => {
            proof {
                assert(decreases_to!(v => fields));
            }
            seq!['{'] + spec_join_comma(spec_json_obj_parts(fields)) + seq!['}']
        },
    }
}

/// The display text of a value: a string passes through, everything else
/// uses its canonical JSON text.
pub open spec fn spec_pure_text(v: ValueV) -> Seq<char> {
    match v {
        ValueV::String(s) => s,
        _ => spec_json_text(v),
    }
}

/// A string's characters, escaped for JSON.
fn json_escaped_chars(s: &Vec<char>) -> (r: Vec<char>)
    ensures
        r@ == spec_json_escaped(s@, 0),
{
    let mut acc: Vec<char> = Vec::new();
    let mut i: usize = 0;
    proof {
        assert(acc@ + spec_json_escaped(s@, 0) =~= spec_json_escaped(s@, 0));
    }
    while i < s.len()
        invariant
            i <= s@.len(),
            spec_json_escaped(s@, 0) == acc@ + spec_json_escaped(s@, i as int),
        decreases s@.len() - i,
    {
        let ghost acc0 = acc@;
        let c = s[i];
        if c == '"' {
            acc.push('\\');
            acc.push('"');
        } else if c == '\\' {
            acc.push('\\');
            acc.push('\\');
        } else if c == '\u{8}' {
            acc.push('\\');
            acc.push('b');
        } else if c == '\u{9}' {
            acc.push('\\');
            acc.push('t');
        } else if c == '\u{A}' {
            acc.push('\\');
            acc.push('n');
        } else if c == '\u{C}' {
            acc.push('\\');
            acc.push('f');
        } else if c == '\u{D}' {
            acc.push('\\');
            acc.push('r');
        } else if c <= '\u{1F}' {
            acc.push('\\');
            acc.push('u');
            acc.push('0');
            acc.push('0');
            if c <= '\u{F}' {
                acc.push('0');
            } else {
                acc.push('1');
            }
            acc.push(control_hex_low(c));
            proof {
                assert(acc@ =~= acc0 + spec_json_esc_char(c));
            }
        } else {
            acc.push(c);
        }
        i += 1;
        proof {
            assert(acc@ =~= acc0 + spec_json_esc_char(s@[i - 1]));
            assert(acc@ + spec_json_escaped(s@, i as int) =~= acc0 + spec_json_escaped(s@, i - 1));
        }
    }
    proof {
        assert(acc@ + spec_json_escaped(s@, i as int) =~= acc@);
    }
    acc
}

/// The low hexadecimal digit of a control character's code point.
fn control_hex_low(c: char) -> (r: char)
    ensures
        r == spec_ctrl_low(c),
{
    if c == '\u{0}' || c == '\u{10}' {
        '0'
    } else if c == '\u{1}' || c == '\u{11}' {
        '1'
    } else if c == '\u{2}' || c == '\u{12}' {
        '2'
    } else if c == '\u{3}' || c == '\u{13}' {
        '3'
    } else if c == '\u{4}' || c == '\u{14}' {
        '4'
    } else if c == '\u{5}' || c == '\u{15}' {
        '5'
    } else if c == '\u{6}' || c == '\u{16}' {
        '6'
    } else if c == '\u{7}' || c == '\u{17}' {
        '7'
    } else if c == '\u{8}' || c == '\u{18}' {
        '8'
    } else if c == '\u{9}' || c == '\u{19}' {
        '9'
    } else if c == '\u{A}' || c == '\u{1A}' {
        'a'
    } else if c == '\u{B}' || c == '\u{1B}' {
        'b'
    } else if c == '\u{C}' || c == '\u{1C}' {
        'c'
    } else if c == '\u{D}' || c == '\u{1D}' {
        'd'
    } else if c == '\u{E}' || c == '\u{1E}' {
        'e'
    } else {
        'f'
    }
}

/// The canonical JSON text of a value.
pub fn value_json_chars(v: &DataValue) -> (r: Vec<char>)
    ensures
        r@ == spec_json_text(value_view(*v)),
    decreases *v,
{
    match v {
        DataValue::Null => {
            let r: Vec<char> = vec!['n', 'u', 'l', 'l'];
            proof {
                assert(r@ =~= spec_json_text(value_view(*v)));
            }
            r
        },
        DataValue::Bool(b) => {
            let r: Vec<char> = if *b {
                vec!['t', 'r', 'u', 'e']
            } else {
                vec!['f', 'a', 'l', 's', 'e']
            };
            proof {
                assert(r@ =~= spec_json_text(value_view(*v)));
            }
            r
        },
        DataValue::Number(s) => {
            let r = crate::chars::str_to_chars(s.as_str());
            r
        },
        DataValue::String(s) => {
            let sc = crate::chars::str_to_chars(s.as_str());
            let esc = json_escaped_chars(&sc);
            let mut r: Vec<char> = Vec::new();
            r.push('"');
            let mut j: usize = 0;
            while j < esc.len()
                invariant
                    j <= esc@.len(),
                    r@ == seq!['"'] + esc@.subrange(0, j as int),
                decreases esc@.len() - j,
            {
                r.push(esc[j]);
                j += 1;
                proof {
                    assert(r@ =~= seq!['"'] + esc@.subrange(0, j as int));
                }
            }
            r.push('"');
            proof {
                assert(esc@.subrange(0, esc@.len() as int) =~= esc@);
                assert(r@ =~= spec_json_text(value_view(*v)));
            }
            r
        },
        DataValue::Array(items) => {
            proof {
                assert(decreases_to!(*v => (*v)->Array_0));
                assert forall|j: int| 0 <= j < items@.len() implies decreases_to!(
                    *v => #[trigger] items@[j]) by {
                    assert(decreases_to!(*items => items@));
                    assert(decreases_to!(items@ => items@[j]));
                }
            }
            let ghost vv = value_view(*v);
            let ghost parts = spec_json_parts(vv->Array_0);
            let mut r: Vec<char> = Vec::new();
            r.push('[');
            let mut i: usize = 0;
            while i < items.len()
                invariant
                    i <= items@.len(),
                    vv == value_view(*v),
                    vv is Array,
                    vv->Array_0.len() == items@.len(),
                    forall|j: int|
                        0 <= j < items@.len() ==> vv->Array_0[j] == value_view(#[trigger] items@[j]),
                    parts == spec_json_parts(vv->Array_0),
                    i == 0 ==> r@ == seq!['['],
                    i > 0 ==> r@ == seq!['['] + parts[0] + spec_join_comma_partial(
                        parts,
                        1,
                        i as int,
                    ),
                    forall|j: int|
                        0 <= j < items@.len() ==> decreases_to!(*v => #[trigger] items@[j]),
                decreases items@.len() - i,
            {
                let ghost r0 = r@;
                if i > 0 {
                    r.push(',');
                }
                let mut piece = value_json_chars(&items[i]);
                r.append(&mut piece);
                i += 1;
                proof {
                    if i == 1 {
                        assert(r@ =~= seq!['['] + parts[0] + spec_join_comma_partial(
                            parts,
                            1,
                            1,
                        ));
                    } else {
                        lemma_join_comma_partial_snoc(parts, 1, i as int);
                        assert(r@ =~= seq!['['] + parts[0] + spec_join_comma_partial(
                            parts,
                            1,
                            i as int,
                        ));
                    }
                }
            }
            r.push(']');
            proof {
                if items@.len() == 0 {
                    assert(spec_join_comma(parts) =~= Seq::<char>::empty());
                    assert(r@ =~= spec_json_text(vv));
                } else {
                    lemma_join_comma_partial_full(parts, 1);
                    assert(r@ =~= spec_json_text(vv));
                }
            }
            r
        },
        DataValue::Object(fields) => {
            proof {
                assert(decreases_to!(*v => (*v)->Object_0));
                assert forall|j: int| 0 <= j < fields@.len() implies decreases_to!(
                    *v => #[trigger] fields@[j].1) by {
                    assert(decreases_to!(*fields => fields@));
                    assert(decreases_to!(fields@ => fields@[j]));
                    assert(decreases_to!(fields@[j] => fields@[j].1));
                }
            }
            let ghost vv = value_view(*v);
            let ghost parts = spec_json_obj_parts(vv->Object_0);
            let mut r: Vec<char> = Vec::new();
            r.push('{');
            let mut i: usize = 0;
            while i < fields.len()
                invariant
                    i <= fields@.len(),
                    vv == value_view(*v),
                    vv is Object,
                    vv->Object_0.len() == fields@.len(),
                    forall|j: int|
                        0 <= j < fields@.len() ==> (#[trigger] vv->Object_0[j]).0 == fields@[j].0@
                            && vv->Object_0[j].1 == value_view(fields@[j].1),
                    parts == spec_json_obj_parts(vv->Object_0),
                    i == 0 ==> r@ == seq!['{'],
                    i > 0 ==> r@ == seq!['{'] + parts[0] + spec_join_comma_partial(
                        parts,
                        1,
                        i as int,
                    ),
                    forall|j: int|
                        0 <= j < fields@.len() ==> decreases_to!(*v => #[trigger] fields@[j].1),
                decreases fields@.len() - i,
            {
                let ghost r0 = r@;
                if i > 0 {
                    r.push(',');
                }
                let (k, d) = &fields[i];
                r.push('"');
                let kc = crate::chars::str_to_chars(k.as_str());
                let mut kesc = json_escaped_chars(&kc);
                r.append(&mut kesc);
                r.push('"');
                r.push(':');
                let mut piece = value_json_chars(d);
                r.append(&mut piece);
                i += 1;
                proof {
                    if i == 1 {
                        assert(r@ =~= seq!['{'] + parts[0] + spec_join_comma_partial(
                            parts,
                            1,
                            1,
                        ));
                    } else {
                        lemma_join_comma_partial_snoc(parts, 1, i as int);
                        assert(r@ =~= seq!['{'] + parts[0] + spec_join_comma_partial(
                            parts,
                            1,
                            i as int,
                        ));
                    }
                }
            }
            r.push('}');
            proof {
                if fields@.len() == 0 {
                    assert(spec_join_comma(parts) =~= Seq::<char>::empty());
                    assert(r@ =~= spec_json_text(vv));
                } else {
                    lemma_join_comma_partial_full(parts, 1);
                    assert(r@ =~= spec_json_text(vv));
                }
            }
            r
        },
    }
}

/// The first `upto - from` comma-prefixed parts.
pub open spec fn spec_join_comma_partial(parts: Seq<Seq<char>>, from: int, upto: int) -> Seq<char>
    decreases upto - from,
{
    if from < 0 || from >= upto || from >= parts.len() {
        Seq::empty()
    } else {
        seq![','] + parts[from] + spec_join_comma_partial(parts, from + 1, upto)
    }
}

/// Appending one more part extends the partial join on the right.
pub proof fn lemma_join_comma_partial_snoc(parts: Seq<Seq<char>>, from: int, upto: int)
    requires
        0 <= from,
        from < upto,
        upto <= parts.len(),
    ensures
        spec_join_comma_partial(parts, from, upto) == spec_join_comma_partial(
            parts,
            from,
            upto - 1,
        ) + seq![','] + parts[upto - 1],
    decreases upto - from,
{
    if from == upto - 1 {
        assert(spec_join_comma_partial(parts, from + 1, upto) =~= Seq::<char>::empty());
        assert(spec_join_comma_partial(parts, from, upto - 1) =~= Seq::<char>::empty());
        assert(spec_join_comma_partial(parts, from, upto) =~= spec_join_comma_partial(
            parts,
            from,
            upto - 1,
        ) + seq![','] + parts[upto - 1]);
    } else {
        lemma_join_comma_partial_snoc(parts, from + 1, upto);
        assert(spec_join_comma_partial(parts, from, upto) =~= spec_join_comma_partial(
            parts,
            from,
            upto - 1,
        ) + seq![','] + parts[upto - 1]);
    }
}

/// The complete partial join is the comma-prefixed tail.
pub proof fn lemma_join_comma_partial_full(parts: Seq<Seq<char>>, from: int)
    requires
        0 <= from,
    ensures
        spec_join_comma_partial(parts, from, parts.len() as int) == spec_join_comma_from(
            parts,
            from,
        ),
    decreases parts.len() - from,
{
    if from < parts.len() {
        lemma_join_comma_partial_full(parts, from + 1);
    }
    assert(spec_join_comma_partial(parts, from, parts.len() as int) =~= spec_join_comma_from(
        parts,
        from,
    ));
}

/// The display text of a value.
pub fn to_pure_string(v: &DataValue) -> (r: String)
    ensures
        r@ == spec_pure_text(value_view(*v)),
{
    match v {
        DataValue::String(s) => {
            let r = s.clone();
            r
        },
        _ => {
            let c = value_json_chars(v);
            crate::chars::string_from_chars(&c)
        },
    }
}

} // verus!
