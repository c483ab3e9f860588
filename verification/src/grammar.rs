//! The tag grammar: the text between `{% %}` delimiters parsed into a `Tag`.
//!
//! Whitespace in a tag body is normalized (runs collapse to one space) before
//! the body is split on spaces; an `if` operand is classified by its shape
//! into a variable reference, a string literal, a number literal or a boolean
//! literal.

use crate::ast::ExpressionType;
use crate::ast::Tag;
use crate::ast::TagV;
use crate::chars::char_alphabetic;
use crate::chars::char_numeric;
use crate::chars::chars_eq;
use crate::chars::find_char_in;
use crate::chars::is_alphabetic_char;
use crate::chars::is_numeric_char;
use crate::chars::is_whitespace_char;
use crate::chars::span_chars;
use crate::chars::spec_find_char;
use crate::chars::spec_is_whitespace;
use crate::chars::spec_trim;
use crate::chars::string_from_chars;
use crate::chars::trim_chars;
use vstd::prelude::*;

verus! {

/// Why a template fails to parse.  Positions are character offsets into the
/// template.
#[derive(Debug, Clone, Copy, PartialEq, Eq, Structural)]
pub enum ParseError {
    /// A `{%`, `{{`, `{$` or `{#` opened at this position never closes.
    UnbalancedDelimiter(usize),
    /// A `{$ ... $}` declaration starting at this position has no `=`.
    EnvMissingEquals(usize),
    /// A `for`/`if` block is still open at the end of the template.
    MissingEndTag,
    /// An `endfor`/`endif` at this position has no matching opener.
    MissingHeadTag(usize),
    /// An `endfor`/`endif` at this position closes a block of the other kind.
    MismatchedEndTag(usize),
    /// A `for` tag does not have the shape `for <item> in <collection>`.
    IllegalForExpression,
    /// An `if` tag does not have the shape `if <expr>` or `if <l> <op> <r>`.
    IllegalIfExpression,
    /// The tag keyword is neither `for`, `if`, `endfor` nor `endif`.
    UnsupportedTag,
    /// An `if` operand is no variable name, string, number or boolean.
    InvalidExpression,
}

/// Collapse every whitespace run in `s` (from `i` on) to a single space;
/// `last_ws` tells whether a run is already open.
pub open spec fn spec_collapse_ws(s: Seq<char>, i: int, last_ws: bool) -> Seq<char>
    decreases s.len() - i,
{
    if i < 0 || i >= s.len() {
        Seq::empty()
    } else if spec_is_whitespace(s[i]) {
        if last_ws {
            spec_collapse_ws(s, i + 1, true)
        } else {
            seq![' '] + spec_collapse_ws(s, i + 1, true)
        }
    } else {
        seq![s[i]] + spec_collapse_ws(s, i + 1, false)
    }
}

/// Whitespace runs collapsed to single spaces, then trimmed.
pub open spec fn spec_normalize_spaces(s: Seq<char>) -> Seq<char> {
    spec_trim(spec_collapse_ws(s, 0, false))
}

/// Collapse every whitespace run to a single space, then trim.
pub fn normalize_spaces(text: &Vec<char>) -> (r: Vec<char>)
    ensures
        r@ == spec_normalize_spaces(text@),
{
    let mut acc: Vec<char> = Vec::new();
    let mut last_ws = false;
    let mut i: usize = 0;
    proof {
        assert(acc@ + spec_collapse_ws(text@, 0, false) =~= spec_collapse_ws(text@, 0, false));
    }
    while i < text.len()
        invariant
            i <= text@.len(),
            spec_collapse_ws(text@, 0, false) == acc@ + spec_collapse_ws(
                text@,
                i as int,
                last_ws,
            ),
        decreases text@.len() - i,
    {
        let ghost acc0 = acc@;
        let ghost lw0 = last_ws;
        let c = text[i];
        if is_whitespace_char(c) {
            if !last_ws {
                acc.push(' ');
            }
            last_ws = true;
        } else {
            acc.push(c);
            last_ws = false;
        }
        i += 1;
        proof {
            assert(acc@ + spec_collapse_ws(text@, i as int, last_ws) =~= acc0 + spec_collapse_ws(
                text@,
                i - 1,
                lw0,
            ));
        }
    }
    proof {
        assert(acc@ + spec_collapse_ws(text@, i as int, last_ws) =~= acc@);
    }
    trim_chars(&acc)
}

/// Split `s` on single spaces into at most `n` parts; the last part keeps
/// any remaining spaces.
pub open spec fn spec_splitn_spaces(s: Seq<char>, n: int) -> Seq<Seq<char>>
    decreases n,
{
    if n <= 1 {
        seq![s]
    } else {
        match spec_find_char(s, ' ', 0) {
            Some(i) => seq![s.subrange(0, i)] + spec_splitn_spaces(
                s.subrange(i + 1, s.len() as int),
                n - 1,
            ),
            None => seq![s],
        }
    }
}

/// Split on spaces into at most four parts, as the tag grammar does.
pub fn splitn_spaces4(v: &Vec<char>) -> (parts: Vec<Vec<char>>)
    ensures
        parts.deep_view() == spec_splitn_spaces(v@, 4),
        1 <= parts@.len() <= 4,
{
    let mut parts: Vec<Vec<char>> = Vec::new();
    let mut pos: usize = 0;
    let mut k: usize = 4;
    proof {
        assert(v@.subrange(0, v@.len() as int) =~= v@);
        assert(parts.deep_view() + spec_splitn_spaces(v@, 4) =~= spec_splitn_spaces(v@, 4));
    }
    while k > 1
        invariant
            1 <= k <= 4,
            pos <= v@.len(),
            parts@.len() == 4 - k,
            spec_splitn_spaces(v@, 4) == parts.deep_view() + spec_splitn_spaces(
                v@.subrange(pos as int, v@.len() as int),
                k as int,
            ),
        decreases k,
    {
        let ghost sub = v@.subrange(pos as int, v@.len() as int);
        let ghost pos0 = pos as int;
        match find_char_in(v, pos, v.len(), ' ') {
            Some(p) => {
                let ghost dv0 = parts.deep_view();
                let piece = span_chars(v, pos, p);
                proof {
                    assert(piece@ =~= sub.subrange(0, p - pos0));
                }
                parts.push(piece);
                pos = p + 1;
                k = k - 1;
                proof {
                    assert(parts.deep_view() =~~= dv0.push(sub.subrange(0, p - pos0)));
                    assert(sub.subrange(p - pos0 + 1, sub.len() as int) =~= v@.subrange(
                        pos as int,
                        v@.len() as int,
                    ));
                    assert(parts.deep_view() + spec_splitn_spaces(
                        v@.subrange(pos as int, v@.len() as int),
                        k as int,
                    ) =~~= spec_splitn_spaces(v@, 4));
                }
            },
            None => {
                let ghost dv0 = parts.deep_view();
                let rest = span_chars(v, pos, v.len());
                parts.push(rest);
                proof {
                    assert(parts.deep_view() =~~= dv0.push(sub));
                    assert(spec_splitn_spaces(sub, k as int) =~= seq![sub]);
                    assert(parts.deep_view() =~~= spec_splitn_spaces(v@, 4));
                }
                return parts;
            },
        }
    }
    let ghost dv0 = parts.deep_view();
    let ghost sub = v@.subrange(pos as int, v@.len() as int);
    let rest = span_chars(v, pos, v.len());
    parts.push(rest);
    proof {
        assert(parts.deep_view() =~~= dv0.push(sub));
        assert(spec_splitn_spaces(sub, k as int) =~= seq![sub]);
        assert(parts.deep_view() =~~= spec_splitn_spaces(v@, 4));
    }
    parts
}

/// An ASCII decimal digit.
pub open spec fn spec_is_ascii_digit(c: char) -> bool {
    '0' <= c && c <= '9'
}

/// A non-empty run of ASCII digits.
pub open spec fn spec_all_digits(s: Seq<char>) -> bool {
    s.len() > 0 && forall|i: int| 0 <= i < s.len() ==> spec_is_ascii_digit(#[trigger] s[i])
}

/// Whether the span `[start, end)` of `v` is a non-empty digit run.
pub fn all_digits_in(v: &Vec<char>, start: usize, end: usize) -> (r: bool)
    requires
        start <= end <= v@.len(),
    ensures
        r == spec_all_digits(v@.subrange(start as int, end as int)),
{
    let ghost sub = v@.subrange(start as int, end as int);
    if start == end {
        return false;
    }
    let mut i: usize = start;
    while i < end
        invariant
            start <= i <= end <= v@.len(),
            sub == v@.subrange(start as int, end as int),
            forall|j: int| 0 <= j < i - start ==> spec_is_ascii_digit(#[trigger] sub[j]),
        decreases end - i,
    {
        let c = v[i];
        proof {
            assert(sub[i - start] == v@[i as int]);
        }
        if !('0' <= c && c <= '9') {
            return false;
        }
        i += 1;
    }
    true
}

/// Case-insensitive match against `inf`, `infinity` or `nan`, the special
/// forms the float grammar accepts.
pub open spec fn spec_ci_eq(c: char, lo: char, up: char) -> bool {
    c == lo || c == up
}

pub open spec fn spec_is_inf_nan(s: Seq<char>) -> bool {
    ||| (s.len() == 3 && spec_ci_eq(s[0], 'i', 'I') && spec_ci_eq(s[1], 'n', 'N') && spec_ci_eq(
        s[2],
        'f',
        'F',
    ))
    ||| (s.len() == 8 && spec_ci_eq(s[0], 'i', 'I') && spec_ci_eq(s[1], 'n', 'N') && spec_ci_eq(
        s[2],
        'f',
        'F',
    ) && spec_ci_eq(s[3], 'i', 'I') && spec_ci_eq(s[4], 'n', 'N') && spec_ci_eq(s[5], 'i', 'I')
        && spec_ci_eq(s[6], 't', 'T') && spec_ci_eq(s[7], 'y', 'Y'))
    ||| (s.len() == 3 && spec_ci_eq(s[0], 'n', 'N') && spec_ci_eq(s[1], 'a', 'A') && spec_ci_eq(
        s[2],
        'n',
        'N',
    ))
}

fn ci_eq(c: char, lo: char, up: char) -> (r: bool)
    ensures
        r == spec_ci_eq(c, lo, up),
{
    c == lo || c == up
}

/// Whether the span `[start, end)` of `v` reads `inf`, `infinity` or `nan`.
fn is_inf_nan_in(v: &Vec<char>, start: usize, end: usize) -> (r: bool)
    requires
        start <= end <= v@.len(),
    ensures
        r == spec_is_inf_nan(v@.subrange(start as int, end as int)),
{
    let ghost sub = v@.subrange(start as int, end as int);
    proof {
        assert forall|j: int| 0 <= j < sub.len() implies sub[j] == v@[start + j] by {}
    }
    let n = end - start;
    if n == 3 {
        (ci_eq(v[start], 'i', 'I') && ci_eq(v[start + 1], 'n', 'N') && ci_eq(v[start + 2], 'f', 'F'))
            || (ci_eq(v[start], 'n', 'N') && ci_eq(v[start + 1], 'a', 'A') && ci_eq(
            v[start + 2],
            'n',
            'N',
        ))
    } else if n == 8 {
        ci_eq(v[start], 'i', 'I') && ci_eq(v[start + 1], 'n', 'N') && ci_eq(v[start + 2], 'f', 'F')
            && ci_eq(v[start + 3], 'i', 'I') && ci_eq(v[start + 4], 'n', 'N') && ci_eq(
            v[start + 5],
            'i',
            'I',
        ) && ci_eq(v[start + 6], 't', 'T') && ci_eq(v[start + 7], 'y', 'Y')
    } else {
        false
    }
}

/// An exponent: digits with an optional sign.
pub open spec fn spec_is_exp_part(s: Seq<char>) -> bool {
    if s.len() > 0 && (s[0] == '+' || s[0] == '-') {
        spec_all_digits(s.subrange(1, s.len() as int))
    } else {
        spec_all_digits(s)
    }
}

/// A mantissa: digits, or digits around a single dot with at least one digit
/// on one side.
pub open spec fn spec_is_mantissa(s: Seq<char>) -> bool {
    match spec_find_char(s, '.', 0) {
        Some(i) => {
            let l = s.subrange(0, i);
            let r = s.subrange(i + 1, s.len() as int);
            (spec_all_digits(l) && (r.len() == 0 || spec_all_digits(r))) || (l.len() == 0
                && spec_all_digits(r))
        },
        None => spec_all_digits(s),
    }
}

/// Position of the exponent marker `e`/`E`, if any.
pub open spec fn spec_exp_pos(s: Seq<char>) -> Option<int> {
    match (spec_find_char(s, 'e', 0), spec_find_char(s, 'E', 0)) {
        (Some(a), Some(b)) => Some(
            if a <= b {
                a
            } else {
                b
            },
        ),
        (Some(a), None) => Some(a),
        (None, Some(b)) => Some(b),
        (None, None) => None,
    }
}

/// A mantissa with an optional exponent.
pub open spec fn spec_is_number_part(s: Seq<char>) -> bool {
    match spec_exp_pos(s) {
        Some(i) => spec_is_mantissa(s.subrange(0, i)) && spec_is_exp_part(
            s.subrange(i + 1, s.len() as int),
        ),
        None => spec_is_mantissa(s),
    }
}

/// The grammar of `f64`'s `FromStr`: an optional sign, then `inf`,
/// `infinity`, `nan` or a decimal number with optional dot and exponent.
pub open spec fn spec_is_f64_literal(s: Seq<char>) -> bool {
    if s.len() > 0 && (s[0] == '+' || s[0] == '-') {
        spec_is_inf_nan(s.subrange(1, s.len() as int)) || spec_is_number_part(
            s.subrange(1, s.len() as int),
        )
    } else {
        spec_is_inf_nan(s) || spec_is_number_part(s)
    }
}

/// Whether the span `[start, end)` of `v` is a well-formed mantissa.
fn is_mantissa_in(v: &Vec<char>, start: usize, end: usize) -> (r: bool)
    requires
        start <= end <= v@.len(),
    ensures
        r == spec_is_mantissa(v@.subrange(start as int, end as int)),
{
    let ghost sub = v@.subrange(start as int, end as int);
    match find_char_in(v, start, end, '.') {
        Some(p) => {
            proof {
                assert(v@.subrange(start as int, p as int) =~= sub.subrange(0, p - start));
                assert(v@.subrange(p + 1, end as int) =~= sub.subrange(
                    p - start + 1,
                    sub.len() as int,
                ));
            }
            let left = all_digits_in(v, start, p);
            let right_empty = p + 1 == end;
            let right = all_digits_in(v, p + 1, end);
            (left && (right_empty || right)) || (start == p && right)
        },
        None => all_digits_in(v, start, end),
    }
}

/// Whether the span `[start, end)` of `v` is a well-formed exponent.
fn is_exp_part_in(v: &Vec<char>, start: usize, end: usize) -> (r: bool)
    requires
        start <= end <= v@.len(),
    ensures
        r == spec_is_exp_part(v@.subrange(start as int, end as int)),
{
    let ghost sub = v@.subrange(start as int, end as int);
    if start < end && (v[start] == '+' || v[start] == '-') {
        proof {
            assert(sub[0] == v@[start as int]);
            assert(v@.subrange(start + 1, end as int) =~= sub.subrange(1, sub.len() as int));
        }
        all_digits_in(v, start + 1, end)
    } else {
        proof {
            if sub.len() > 0 {
                assert(sub[0] == v@[start as int]);
            }
        }
        all_digits_in(v, start, end)
    }
}

/// Whether the whole of `v` matches the float grammar.
pub fn is_f64_literal(v: &Vec<char>) -> (r: bool)
    ensures
        r == spec_is_f64_literal(v@),
{
    let n = v.len();
    proof {
        assert(v@.subrange(0, n as int) =~= v@);
    }
    let start: usize = if n > 0 && (v[0] == '+' || v[0] == '-') {
        1
    } else {
        0
    };
    let ghost body = v@.subrange(start as int, n as int);
    if is_inf_nan_in(v, start, n) {
        return true;
    }
    let e1 = find_char_in(v, start, n, 'e');
    let e2 = find_char_in(v, start, n, 'E');
    let epos: Option<usize> = match (e1, e2) {
        (Some(a), Some(b)) => Some(
            if a <= b {
                a
            } else {
                b
            },
        ),
        (Some(a), None) => Some(a),
        (None, Some(b)) => Some(b),
        (None, None) => None,
    };
    match epos {
        Some(p) => {
            proof {
                assert(v@.subrange(start as int, p as int) =~= body.subrange(0, p - start));
                assert(v@.subrange(p + 1, n as int) =~= body.subrange(
                    p - start + 1,
                    body.len() as int,
                ));
            }
            is_mantissa_in(v, start, p) && is_exp_part_in(v, p + 1, n)
        },
        None => is_mantissa_in(v, start, n),
    }
}

pub open spec fn endfor_chars() -> Seq<char> {
    seq!['e', 'n', 'd', 'f', 'o', 'r']
}

pub open spec fn endif_chars() -> Seq<char> {
    seq!['e', 'n', 'd', 'i', 'f']
}

pub open spec fn true_chars() -> Seq<char> {
    seq!['t', 'r', 'u', 'e']
}

pub open spec fn false_chars() -> Seq<char> {
    seq!['f', 'a', 'l', 's', 'e']
}

pub open spec fn in_chars() -> Seq<char> {
    seq!['i', 'n']
}

pub open spec fn eqeq_chars() -> Seq<char> {
    seq!['=', '=']
}

pub open spec fn noteq_chars() -> Seq<char> {
    seq!['!', '=']
}

pub open spec fn for_kw() -> Seq<char> {
    seq!['f', 'o', 'r', ' ']
}

pub open spec fn if_kw() -> Seq<char> {
    seq!['i', 'f', ' ']
}

pub open spec fn spec_starts_with(s: Seq<char>, p: Seq<char>) -> bool {
    s.len() >= p.len() && s.subrange(0, p.len() as int) == p
}

/// The syntactic kind of an `if` operand: `true`/`false` are booleans, a
/// leading letter, `_` or `$` makes a variable reference, a double-quoted
/// text is a string literal, and a leading numeric character opens a number
/// literal that must match the float grammar.
pub open spec fn spec_assess_expression(s: Seq<char>) -> Result<ExpressionType, ParseError> {
    if s == true_chars() || s == false_chars() {
        Ok(ExpressionType::Boolean)
    } else if s.len() > 0 && (char_alphabetic(s[0]) || s[0] == '_' || s[0] == '$') {
        Ok(ExpressionType::VariableName)
    } else if s.len() >= 2 && s[0] == '"' && s.last() == '"' {
        Ok(ExpressionType::String)
    } else if s.len() > 0 && char_numeric(s[0]) && spec_is_f64_literal(s) {
        Ok(ExpressionType::Number)
    } else {
        Err(ParseError::InvalidExpression)
    }
}

/// Classify an `if` operand by its syntactic shape.
pub fn assess_expression(expr: &Vec<char>) -> (r: Result<ExpressionType, ParseError>)
    ensures
        r == spec_assess_expression(expr@),
{
    let true_kw: Vec<char> = vec!['t', 'r', 'u', 'e'];
    let false_kw: Vec<char> = vec!['f', 'a', 'l', 's', 'e'];
    proof {
        assert(true_kw@ =~= true_chars());
        assert(false_kw@ =~= false_chars());
    }
    if chars_eq(expr, &true_kw) || chars_eq(expr, &false_kw) {
        return Ok(ExpressionType::Boolean);
    }
    if expr.len() > 0 {
        let first = expr[0];
        if is_alphabetic_char(first) || first == '_' || first == '$' {
            return Ok(ExpressionType::VariableName);
        }
        if expr.len() >= 2 && first == '"' && expr[expr.len() - 1] == '"' {
            return Ok(ExpressionType::String);
        }
        if is_numeric_char(first) && is_f64_literal(expr) {
            return Ok(ExpressionType::Number);
        }
    }
    Err(ParseError::InvalidExpression)
}

/// What the tag grammar makes of a `for` body, already normalized.
pub open spec fn for_tag_spec(n: Seq<char>) -> Result<TagV, ParseError> {
    let parts = spec_splitn_spaces(n, 4);
    if parts.len() != 4 || parts[2] != in_chars() {
        Err(ParseError::IllegalForExpression)
    } else {
        Ok(TagV::For(parts[1], parts[3]))
    }
}

/// What the tag grammar makes of an `if` body, already normalized.  The
/// one-operand form `if <expr>` is shorthand for `if <expr> == true`.
pub open spec fn if_tag_spec(n: Seq<char>) -> Result<TagV, ParseError> {
    let parts = spec_splitn_spaces(n, 4);
    if parts.len() == 2 {
        let expr = spec_trim(parts[1]);
        match spec_assess_expression(expr) {
            Ok(k) => {
                if k != ExpressionType::VariableName && k != ExpressionType::Boolean {
                    Err(ParseError::IllegalIfExpression)
                } else {
                    Ok(
                        TagV::If(
                            k,
                            expr,
                            eqeq_chars(),
                            ExpressionType::Boolean,
                            true_chars(),
                        ),
                    )
                }
            },
            Err(e) => Err(e),
        }
    } else if parts.len() == 4 && (parts[2] == eqeq_chars() || parts[2] == noteq_chars()) {
        let l = spec_trim(parts[1]);
        let r = spec_trim(parts[3]);
        match spec_assess_expression(l) {
            Ok(lk) => match spec_assess_expression(r) {
                Ok(rk) => Ok(TagV::If(lk, l, parts[2], rk, r)),
                Err(e) => Err(e),
            },
            Err(e) => Err(e),
        }
    } else {
        Err(ParseError::IllegalIfExpression)
    }
}

/// What the tag grammar makes of the raw text between `{%` and `%}`.
#[verifier::opaque]
pub open spec fn tag_grammar_spec(raw: Seq<char>) -> Result<TagV, ParseError> {
    let t = spec_trim(raw);
    if t == endfor_chars() {
        Ok(TagV::EndFor)
    } else if t == endif_chars() {
        Ok(TagV::EndIf)
    } else {
        let n = spec_normalize_spaces(t);
        if spec_starts_with(n, for_kw()) {
            for_tag_spec(n)
        } else if spec_starts_with(n, if_kw()) {
            if_tag_spec(n)
        } else {
            Err(ParseError::UnsupportedTag)
        }
    }
}

/// Parse the tag text in the span `[start, end)` of the template.
pub fn generate_tag(template_chars: &Vec<char>, start: usize, end: usize) -> (r: Result<
    Tag,
    ParseError,
>)
    requires
        start <= end <= template_chars@.len(),
    ensures
        ({
            let g = tag_grammar_spec(template_chars@.subrange(start as int, end as int));
            match r {
                Ok(tag) => g == Ok::<TagV, ParseError>(tag.deep_view()),
                Err(e) => g == Err::<TagV, ParseError>(e),
            }
        }),
{
    proof {
        reveal(tag_grammar_spec);
    }
    let raw = span_chars(template_chars, start, end);
    let trimmed = trim_chars(&raw);
    let endfor_kw: Vec<char> = vec!['e', 'n', 'd', 'f', 'o', 'r'];
    let endif_kw: Vec<char> = vec!['e', 'n', 'd', 'i', 'f'];
    proof {
        assert(endfor_kw@ =~= endfor_chars());
        assert(endif_kw@ =~= endif_chars());
    }
    if chars_eq(&trimmed, &endfor_kw) {
        return Ok(Tag::EndFor);
    }
    if chars_eq(&trimmed, &endif_kw) {
        return Ok(Tag::EndIf);
    }
    let n = normalize_spaces(&trimmed);
    let is_for = n.len() >= 4 && n[0] == 'f' && n[1] == 'o' && n[2] == 'r' && n[3] == ' ';
    let is_if = n.len() >= 3 && n[0] == 'i' && n[1] == 'f' && n[2] == ' ';
    proof {
        if n@.len() >= 4 {
            assert(n@.subrange(0, 4) =~= seq![n@[0], n@[1], n@[2], n@[3]]);
        }
        if n@.len() >= 3 {
            assert(n@.subrange(0, 3) =~= seq![n@[0], n@[1], n@[2]]);
        }
        assert(is_for == spec_starts_with(n@, for_kw()));
        assert(is_if == spec_starts_with(n@, if_kw()));
    }
    if is_for {
        let parts = splitn_spaces4(&n);
        if parts.len() != 4 {
            return Err(ParseError::IllegalForExpression);
        }
        let in_kw: Vec<char> = vec!['i', 'n'];
        proof {
            assert(in_kw@ =~= in_chars());
            assert(parts@[2]@ == parts.deep_view()[2]);
            assert(parts@[1]@ == parts.deep_view()[1]);
            assert(parts@[3]@ == parts.deep_view()[3]);
        }
        if !chars_eq(&parts[2], &in_kw) {
            return Err(ParseError::IllegalForExpression);
        }
        let item_name = string_from_chars(&parts[1]);
        let collect_name = string_from_chars(&parts[3]);
        Ok(Tag::For(item_name, collect_name))
    } else if is_if {
        let parts = splitn_spaces4(&n);
        if parts.len() == 2 {
            proof {
                assert(parts@[1]@ == parts.deep_view()[1]);
            }
            let expr = trim_chars(&parts[1]);
            match assess_expression(&expr) {
                Ok(k) => {
                    if k != ExpressionType::VariableName && k != ExpressionType::Boolean {
                        return Err(ParseError::IllegalIfExpression);
                    }
                    let eq_op: Vec<char> = vec!['=', '='];
                    let true_kw: Vec<char> = vec!['t', 'r', 'u', 'e'];
                    proof {
                        assert(eq_op@ =~= eqeq_chars());
                        assert(true_kw@ =~= true_chars());
                    }
                    Ok(
                        Tag::If(
                            k,
                            string_from_chars(&expr),
                            string_from_chars(&eq_op),
                            ExpressionType::Boolean,
                            string_from_chars(&true_kw),
                        ),
                    )
                },
                Err(e) => Err(e),
            }
        } else if parts.len() == 4 {
            let eq_op: Vec<char> = vec!['=', '='];
            let ne_op: Vec<char> = vec!['!', '='];
            proof {
                assert(eq_op@ =~= eqeq_chars());
                assert(ne_op@ =~= noteq_chars());
                assert(parts@[1]@ == parts.deep_view()[1]);
                assert(parts@[2]@ == parts.deep_view()[2]);
                assert(parts@[3]@ == parts.deep_view()[3]);
            }
            let op_is_eq = chars_eq(&parts[2], &eq_op);
            let op_is_ne = chars_eq(&parts[2], &ne_op);
            if !(op_is_eq || op_is_ne) {
                return Err(ParseError::IllegalIfExpression);
            }
            let left = trim_chars(&parts[1]);
            let right = trim_chars(&parts[3]);
            match assess_expression(&left) {
                Ok(lk) => match assess_expression(&right) {
                    Ok(rk) => Ok(
                        Tag::If(
                            lk,
                            string_from_chars(&left),
                            string_from_chars(&parts[2]),
                            rk,
                            string_from_chars(&right),
                        ),
                    ),
                    Err(e) => Err(e),
                },
                Err(e) => Err(e),
            }
        } else {
            Err(ParseError::IllegalIfExpression)
        }
    } else {
        Err(ParseError::UnsupportedTag)
    }
}

} // verus!
