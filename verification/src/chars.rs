//! Character-level helpers shared by the scanner, the tag grammar and the
//! renderer.  The engine works on the template's characters, indexed by
//! position; spans are half-open `[start, end)` index pairs.

use vstd::prelude::*;

verus! {

/// The Unicode `White_Space` characters, as `char::is_whitespace` documents
/// them.
pub open spec fn spec_is_whitespace(c: char) -> bool {
    ||| c == ' '
    ||| c == '\u{9}'
    ||| c == '\u{A}'
    ||| c == '\u{B}'
    ||| c == '\u{C}'
    ||| c == '\u{D}'
    ||| c == '\u{85}'
    ||| c == '\u{A0}'
    ||| c == '\u{1680}'
    ||| ('\u{2000}' <= c && c <= '\u{200A}')
    ||| c == '\u{2028}'
    ||| c == '\u{2029}'
    ||| c == '\u{202F}'
    ||| c == '\u{205F}'
    ||| c == '\u{3000}'
}

pub fn is_whitespace_char(c: char) -> (r: bool)
    ensures
        r == spec_is_whitespace(c),
{
    c == ' ' || c == '\u{9}' || c == '\u{A}' || c == '\u{B}' || c == '\u{C}' || c == '\u{D}'
        || c == '\u{85}' || c == '\u{A0}' || c == '\u{1680}' || ('\u{2000}' <= c && c
        <= '\u{200A}') || c == '\u{2028}' || c == '\u{2029}' || c == '\u{202F}' || c == '\u{205F}'
        || c == '\u{3000}'
}

/// The characters of a string, as an indexable buffer.
pub fn str_to_chars(s: &str) -> (v: Vec<char>)
    ensures
        v@ == s@,
{
    let n = s.unicode_len();
    let mut v: Vec<char> = Vec::new();
    let mut i: usize = 0;
    while i < n
        invariant
            n == s@.len(),
            i <= n,
            v@ == s@.subrange(0, i as int),
        decreases n - i,
    {
        v.push(s.get_char(i));
        i += 1;
        proof {
            assert(v@ =~= s@.subrange(0, i as int));
        }
    }
    proof {
        assert(v@ =~= s@);
    }
    v
}

/// Relies on `String`'s `FromIterator<char>`: collecting characters yields
/// the string with exactly those characters in order.
#[verifier::external_body]
pub fn string_from_chars(v: &Vec<char>) -> (s: String)
    ensures
        s@ == v@,
{
    v.iter().collect()
}

/// The span `[start, end)` of a character buffer, as an owned vector.
pub fn span_chars(t: &Vec<char>, start: usize, end: usize) -> (v: Vec<char>)
    requires
        start <= end <= t@.len(),
    ensures
        v@ == t@.subrange(start as int, end as int),
{
    let mut v: Vec<char> = Vec::new();
    let mut i: usize = start;
    while i < end
        invariant
            start <= i <= end <= t@.len(),
            v@ == t@.subrange(start as int, i as int),
        decreases end - i,
    {
        v.push(t[i]);
        i += 1;
        proof {
            assert(v@ =~= t@.subrange(start as int, i as int));
        }
    }
    v
}

/// The span `[start, end)` of a character buffer, as an owned string.
pub fn span_to_string(t: &Vec<char>, start: usize, end: usize) -> (s: String)
    requires
        start <= end <= t@.len(),
    ensures
        s@ == t@.subrange(start as int, end as int),
{
    let v = span_chars(t, start, end);
    string_from_chars(&v)
}

/// Index of the first character of `s` at or after `from` that is not
/// whitespace, if any.
pub open spec fn spec_first_non_ws(s: Seq<char>, from: int) -> Option<int>
    decreases s.len() - from,
{
    if from < 0 || from >= s.len() {
        None
    } else if !spec_is_whitespace(s[from]) {
        Some(from)
    } else {
        spec_first_non_ws(s, from + 1)
    }
}

/// Offset, within the span `[start, end)` of `t`, of the span's first
/// non-whitespace character.
pub fn first_non_ws_in(t: &Vec<char>, start: usize, end: usize) -> (r: Option<usize>)
    requires
        start <= end <= t@.len(),
    ensures
        ({
            let sub = t@.subrange(start as int, end as int);
            match r {
                Some(p) => p < end - start && spec_first_non_ws(sub, 0) == Some(p as int),
                None => spec_first_non_ws(sub, 0) is None,
            }
        }),
{
    let ghost sub = t@.subrange(start as int, end as int);
    let mut i: usize = start;
    while i < end
        invariant
            start <= i <= end <= t@.len(),
            sub == t@.subrange(start as int, end as int),
            spec_first_non_ws(sub, 0) == spec_first_non_ws(sub, i - start),
        decreases end - i,
    {
        if !is_whitespace_char(t[i]) {
            proof {
                assert(sub[i - start] == t@[i as int]);
            }
            return Some(i - start);
        }
        proof {
            assert(sub[i - start] == t@[i as int]);
        }
        i += 1;
    }
    None
}

/// Index of the last character of `s` that is not whitespace, if any.
pub open spec fn spec_last_non_ws(s: Seq<char>) -> Option<int>
    decreases s.len(),
{
    if s.len() == 0 {
        None
    } else if !spec_is_whitespace(s.last()) {
        Some(s.len() - 1)
    } else {
        spec_last_non_ws(s.drop_last())
    }
}

/// The text with leading and trailing whitespace removed.
pub open spec fn spec_trim(s: Seq<char>) -> Seq<char> {
    match spec_first_non_ws(s, 0) {
        Some(a) => match spec_last_non_ws(s) {
            Some(b) => s.subrange(a, b + 1),
            None => Seq::empty(),
        },
        None => Seq::empty(),
    }
}

/// If some character is non-whitespace, the last such index is no earlier
/// than the first.
pub proof fn lemma_first_last_non_ws(s: Seq<char>)
    ensures
        (spec_first_non_ws(s, 0) is Some) == (spec_last_non_ws(s) is Some),
        spec_first_non_ws(s, 0) is Some ==> spec_first_non_ws(s, 0).unwrap()
            <= spec_last_non_ws(s).unwrap(),
    decreases s.len(),
{
    lemma_first_non_ws_char(s, 0);
    lemma_last_non_ws_char(s);
}

/// What the first-non-whitespace index means.
pub proof fn lemma_first_non_ws_char(s: Seq<char>, from: int)
    requires
        0 <= from,
    ensures
        match spec_first_non_ws(s, from) {
            Some(a) => from <= a < s.len() && !spec_is_whitespace(s[a]) && (forall|j: int|
                from <= j < a ==> spec_is_whitespace(#[trigger] s[j])),
            None => forall|j: int| from <= j < s.len() ==> spec_is_whitespace(#[trigger] s[j]),
        },
    decreases s.len() - from,
{
    if from < 0 || from >= s.len() {
    } else if !spec_is_whitespace(s[from]) {
    } else {
        lemma_first_non_ws_char(s, from + 1);
        match spec_first_non_ws(s, from + 1) {
            Some(a) => {
                assert forall|j: int| from <= j < a implies spec_is_whitespace(#[trigger] s[j]) by {
                    if j == from {
                        assert(spec_is_whitespace(s[from]));
                    }
                }
            },
            None => {
                assert forall|j: int|
                    from <= j < s.len() implies spec_is_whitespace(#[trigger] s[j]) by {
                    if j == from {
                        assert(spec_is_whitespace(s[from]));
                    }
                }
            },
        }
    }
}

/// What the last-non-whitespace index means.
pub proof fn lemma_last_non_ws_char(s: Seq<char>)
    ensures
        match spec_last_non_ws(s) {
            Some(b) => 0 <= b < s.len() && !spec_is_whitespace(s[b]) && (forall|j: int|
                b < j < s.len() ==> spec_is_whitespace(#[trigger] s[j])),
            None => forall|j: int| 0 <= j < s.len() ==> spec_is_whitespace(#[trigger] s[j]),
        },
    decreases s.len(),
{
    if s.len() > 0 && spec_is_whitespace(s.last()) {
        let dl = s.drop_last();
        lemma_last_non_ws_char(dl);
        match spec_last_non_ws(dl) {
            Some(b) => {
                assert(dl[b] == s[b]);
                assert forall|j: int| b < j < s.len() implies spec_is_whitespace(#[trigger] s[j]) by {
                    if j < s.len() - 1 {
                        assert(spec_is_whitespace(dl[j]));
                        assert(dl[j] == s[j]);
                    } else {
                        assert(spec_is_whitespace(s.last()));
                    }
                }
            },
            None => {
                assert forall|j: int| 0 <= j < s.len() implies spec_is_whitespace(#[trigger] s[j]) by {
                    if j < s.len() - 1 {
                        assert(spec_is_whitespace(dl[j]));
                        assert(dl[j] == s[j]);
                    }
                }
            },
        }
    }
}

/// Index of the last non-whitespace character of `v`, if any.
pub fn last_non_ws_in(v: &Vec<char>) -> (r: Option<usize>)
    ensures
        match r {
            Some(b) => b < v@.len() && spec_last_non_ws(v@) == Some(b as int),
            None => spec_last_non_ws(v@) is None,
        },
{
    let mut b: usize = v.len();
    proof {
        assert(v@.subrange(0, v@.len() as int) =~= v@);
    }
    while b > 0
        invariant
            b <= v@.len(),
            spec_last_non_ws(v@) == spec_last_non_ws(v@.subrange(0, b as int)),
        decreases b,
    {
        proof {
            assert(v@.subrange(0, b as int).last() == v@[b - 1]);
        }
        if !is_whitespace_char(v[b - 1]) {
            proof {
                lemma_last_non_ws_char(v@.subrange(0, b as int));
            }
            return Some(b - 1);
        }
        proof {
            assert(v@.subrange(0, b as int).drop_last() =~= v@.subrange(0, b - 1));
        }
        b = b - 1;
    }
    proof {
        assert(v@.subrange(0, 0) =~= Seq::<char>::empty());
    }
    None
}

/// The text with leading and trailing whitespace removed.
pub fn trim_chars(v: &Vec<char>) -> (r: Vec<char>)
    ensures
        r@ == spec_trim(v@),
{
    proof {
        lemma_first_last_non_ws(v@);
        assert(v@.subrange(0, v@.len() as int) =~= v@);
    }
    let n = v.len();
    let first = first_non_ws_in(v, 0, n);
    let last = last_non_ws_in(v);
    match (first, last) {
        (Some(a), Some(b)) => {
            let r = span_chars(v, a, b + 1);
            proof {
                assert(r@ =~= spec_trim(v@));
            }
            r
        },
        _ => {
            let r: Vec<char> = Vec::new();
            proof {
                assert(r@ =~= spec_trim(v@));
            }
            r
        },
    }
}

/// Index of the first occurrence of `c` in `s` at or after `from`, if any.
pub open spec fn spec_find_char(s: Seq<char>, c: char, from: int) -> Option<int>
    decreases s.len() - from,
{
    if from < 0 || from >= s.len() {
        None
    } else if s[from] == c {
        Some(from)
    } else {
        spec_find_char(s, c, from + 1)
    }
}

/// Index of the first occurrence of `c` in the span `[start, end)` of `t`,
/// if any, counted from the start of `t`.
pub fn find_char_in(t: &Vec<char>, start: usize, end: usize, c: char) -> (r: Option<usize>)
    requires
        start <= end <= t@.len(),
    ensures
        ({
            let sub = t@.subrange(start as int, end as int);
            match r {
                Some(p) => start <= p < end && spec_find_char(sub, c, 0) == Some(p - start),
                None => spec_find_char(sub, c, 0) is None,
            }
        }),
{
    let ghost sub = t@.subrange(start as int, end as int);
    let mut i: usize = start;
    while i < end
        invariant
            start <= i <= end <= t@.len(),
            sub == t@.subrange(start as int, end as int),
            spec_find_char(sub, c, 0) == spec_find_char(sub, c, i - start),
        decreases end - i,
    {
        proof {
            assert(sub[i - start] == t@[i as int]);
        }
        if t[i] == c {
            return Some(i);
        }
        i += 1;
    }
    None
}

/// A found character lies in range and matches.
pub proof fn lemma_find_char_some(s: Seq<char>, c: char, from: int)
    ensures
        spec_find_char(s, c, from) is Some ==> from <= spec_find_char(s, c, from).unwrap()
            < s.len() && 0 <= spec_find_char(s, c, from).unwrap(),
    decreases s.len() - from,
{
    if !(from < 0 || from >= s.len()) && s[from] != c {
        lemma_find_char_some(s, c, from + 1);
    }
}

/// Whether the character is alphabetic, named after `char::is_alphabetic`.
pub uninterp spec fn char_alphabetic(c: char) -> bool;

/// Relies on `char::is_alphabetic`: the result depends on the character
/// alone (the Unicode `Alphabetic` property).
#[verifier::external_body]
pub fn is_alphabetic_char(c: char) -> (r: bool)
    ensures
        r == char_alphabetic(c),
{
    c.is_alphabetic()
}

/// Whether the character is numeric, named after `char::is_numeric`.
pub uninterp spec fn char_numeric(c: char) -> bool;

/// Relies on `char::is_numeric`: the result depends on the character alone
/// (the Unicode `Nd`, `Nl` and `No` categories).
#[verifier::external_body]
pub fn is_numeric_char(c: char) -> (r: bool)
    ensures
        r == char_numeric(c),
{
    c.is_numeric()
}

/// Whether two strings hold the same characters.
pub fn str_eq(a: &str, b: &str) -> (r: bool)
    ensures
        r == (a@ == b@),
{
    let na = a.unicode_len();
    let nb = b.unicode_len();
    if na != nb {
        proof {
            assert(a@ != b@);
        }
        return false;
    }
    let mut i: usize = 0;
    while i < na
        invariant
            i <= na,
            na == a@.len(),
            na == b@.len(),
            forall|j: int| 0 <= j < i ==> a@[j] == b@[j],
        decreases na - i,
    {
        if a.get_char(i) != b.get_char(i) {
            proof {
                assert(a@ != b@);
            }
            return false;
        }
        i += 1;
    }
    proof {
        assert(a@ =~= b@);
    }
    true
}

/// Whether two character buffers hold the same text.
pub fn chars_eq(a: &Vec<char>, b: &Vec<char>) -> (r: bool)
    ensures
        r == (a@ == b@),
{
    if a.len() != b.len() {
        proof {
            assert(a@ != b@);
        }
        return false;
    }
    let mut i: usize = 0;
    while i < a.len()
        invariant
            i <= a@.len(),
            a@.len() == b@.len(),
            forall|j: int| 0 <= j < i ==> a@[j] == b@[j],
        decreases a@.len() - i,
    {
        if a[i] != b[i] {
            proof {
                assert(a@ != b@);
            }
            return false;
        }
        i += 1;
    }
    proof {
        assert(a@ =~= b@);
    }
    true
}

} // verus!
