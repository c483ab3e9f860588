//! The renderer: walk the parsed table against the layered variable context,
//! emitting literal text, resolving placeholders and executing control
//! blocks, while reconstructing indentation and line terminators.

use crate::ast::SyntaxLine;
use crate::ast::TagExtend;
use crate::ast::TemplateASTable;
use crate::ast::Token;
use crate::ast::TokenContext;
use crate::ast::ExpressionType;
use crate::ast::line_view;
use crate::ast::spans_text;
use crate::ast::table_view;
use crate::ast::table_wf;
use crate::ast::table_wf_rec;
use crate::ast::line_wf_rec;
use crate::ast::token_wf_rec;
use crate::ast::env_in_bounds;
use crate::chars::span_chars;
use crate::chars::span_to_string;
use crate::chars::spec_trim;
use crate::chars::string_from_chars;
use crate::chars::str_to_chars;
use crate::chars::trim_chars;
use crate::chars::find_char_in;
use crate::context::AutoDataContext;
use crate::context::adc_view;
use crate::context::adc_wf;
use crate::context::spec_get_string;
use vstd::prelude::*;

verus! {

/// Escape decoding for declaration values and string literals: `\n`, `\r`,
/// `\t`, `\\`, `\"`, `\'` and `\0` become the characters they name; any
/// other `\` sequence, or a trailing `\`, is malformed and yields `None`.
pub open spec fn spec_unescape(s: Seq<char>, i: int) -> Option<Seq<char>>
    decreases s.len() - i,
{
    if i < 0 || i >= s.len() {
        Some(Seq::empty())
    } else if s[i] != '\\' {
        match spec_unescape(s, i + 1) {
            Some(rest) => Some(seq![s[i]] + rest),
            None => None,
        }
    } else if i + 1 >= s.len() {
        None
    } else {
        let c = s[i + 1];
        let decoded: Option<char> = if c == 'n' {
            Some('\n')
        } else if c == 'r' {
            Some('\r')
        } else if c == 't' {
            Some('\t')
        } else if c == '\\' {
            Some('\\')
        } else if c == '"' {
            Some('"')
        } else if c == '\'' {
            Some('\'')
        } else if c == '0' {
            Some('\u{0}')
        } else {
            None
        };
        match decoded {
            Some(d) => match spec_unescape(s, i + 2) {
                Some(rest) => Some(seq![d] + rest),
                None => None,
            },
            None => None,
        }
    }
}

/// Decode the escape sequences of a value; `None` on a malformed sequence.
pub fn unicode_escape(v: &Vec<char>) -> (r: Option<Vec<char>>)
    ensures
        (match r {
            Some(out) => spec_unescape(v@, 0) == Some(out@),
            None => spec_unescape(v@, 0) is None,
        }),
{
    let mut acc: Vec<char> = Vec::new();
    let mut i: usize = 0;
    proof {
        assert(Seq::<char>::empty() + spec_unescape(v@, 0).unwrap_or(Seq::empty())
            =~= spec_unescape(v@, 0).unwrap_or(Seq::empty()));
    }
    while i < v.len()
        invariant
            i <= v@.len(),
            spec_unescape(v@, 0) is Some ==> spec_unescape(v@, i as int) is Some && spec_unescape(
                v@,
                0,
            ).unwrap() == acc@ + spec_unescape(v@, i as int).unwrap(),
            spec_unescape(v@, 0) is None ==> spec_unescape(v@, i as int) is None,
        decreases v@.len() - i,
    {
        let ghost acc0 = acc@;
        let c = v[i];
        if c != '\\' {
            acc.push(c);
            i += 1;
            proof {
                if spec_unescape(v@, i - 1) is Some {
                    assert(acc@ + spec_unescape(v@, i as int).unwrap() =~= acc0 + spec_unescape(
                        v@,
                        i - 1,
                    ).unwrap());
                }
            }
        } else if i + 1 >= v.len() {
            proof {
                assert(spec_unescape(v@, i as int) is None);
            }
            return None;
        } else {
            let e = v[i + 1];
            let d: Option<char> = if e == 'n' {
                Some('\n')
            } else if e == 'r' {
                Some('\r')
            } else if e == 't' {
                Some('\t')
            } else if e == '\\' {
                Some('\\')
            } else if e == '"' {
                Some('"')
            } else if e == '\'' {
                Some('\'')
            } else if e == '0' {
                Some('\u{0}')
            } else {
                None
            };
            match d {
                Some(dc) => {
                    acc.push(dc);
                    i += 2;
                    proof {
                        if spec_unescape(v@, i - 2) is Some {
                            assert(acc@ + spec_unescape(v@, i as int).unwrap() =~= acc0
                                + spec_unescape(v@, i - 2).unwrap());
                        }
                    }
                },
                None => {
                    proof {
                        assert(spec_unescape(v@, i as int) is None);
                    }
                    return None;
                },
            }
        }
    }
    proof {
        assert(spec_unescape(v@, i as int) == Some(Seq::<char>::empty()));
        if spec_unescape(v@, 0) is Some {
            assert(spec_unescape(v@, 0).unwrap() =~= acc@);
        }
    }
    Some(acc)
}

/// The decimal digit character.
pub open spec fn spec_digit_char(d: int) -> char {
    if d == 0 { '0' } else if d == 1 { '1' } else if d == 2 { '2' } else if d == 3 { '3' }
    else if d == 4 { '4' } else if d == 5 { '5' } else if d == 6 { '6' } else if d == 7 { '7' }
    else if d == 8 { '8' } else { '9' }
}

/// The decimal text of a number.
pub open spec fn spec_dec_digits(n: int) -> Seq<char>
    decreases n,
{
    if n < 10 {
        seq![spec_digit_char(if n < 0 { 0 } else { n })]
    } else {
        spec_dec_digits(n / 10) + seq![spec_digit_char(n % 10)]
    }
}

fn digit_char_of(d: usize) -> (r: char)
    requires
        d < 10,
    ensures
        r == spec_digit_char(d as int),
{
    if d == 0 { '0' } else if d == 1 { '1' } else if d == 2 { '2' } else if d == 3 { '3' }
    else if d == 4 { '4' } else if d == 5 { '5' } else if d == 6 { '6' } else if d == 7 { '7' }
    else if d == 8 { '8' } else { '9' }
}

/// The decimal digits of a number, most significant first.
fn usize_dec_chars(n: usize) -> (r: Vec<char>)
    ensures
        r@ == spec_dec_digits(n as int),
    decreases n,
{
    if n < 10 {
        let mut r: Vec<char> = Vec::new();
        r.push(digit_char_of(n));
        proof {
            assert(r@ =~= spec_dec_digits(n as int));
        }
        r
    } else {
        let mut r = usize_dec_chars(n / 10);
        r.push(digit_char_of(n % 10));
        proof {
            assert(r@ =~= spec_dec_digits(n as int));
        }
        r
    }
}

/// The decimal text of a number.
pub fn usize_to_string(n: usize) -> (r: String)
    ensures
        r@ == spec_dec_digits(n as int),
{
    let v = usize_dec_chars(n);
    string_from_chars(&v)
}

/// The key and value texts of a `key = value` declaration span: the parts
/// before and after the first `=`, both trimmed.
pub open spec fn spec_env_kv(t: Seq<char>, start: int, end: int) -> (Seq<char>, Seq<char>) {
    let span = t.subrange(start, end);
    match crate::chars::spec_find_char(span, '=', 0) {
        Some(p) => (spec_trim(span.subrange(0, p)), spec_trim(span.subrange(p + 1, span.len() as int))),
        None => (Seq::empty(), Seq::empty()),
    }
}

/// Split a declaration span into its trimmed key and value.
pub fn get_kv_from_env_define(template_chars: &Vec<char>, start: usize, end: usize) -> (r: (
    Vec<char>,
    Vec<char>,
))
    requires
        start <= end <= template_chars@.len(),
        crate::chars::spec_find_char(
            template_chars@.subrange(start as int, end as int),
            '=',
            0,
        ) is Some,
    ensures
        (r.0@, r.1@) == spec_env_kv(template_chars@, start as int, end as int),
{
    let ghost span = template_chars@.subrange(start as int, end as int);
    match find_char_in(template_chars, start, end, '=') {
        Some(p) => {
            let kraw = span_chars(template_chars, start, p);
            let vraw = span_chars(template_chars, p + 1, end);
            proof {
                assert(kraw@ =~= span.subrange(0, p - start));
                assert(vraw@ =~= span.subrange(p - start + 1, span.len() as int));
            }
            let k = trim_chars(&kraw);
            let v = trim_chars(&vraw);
            (k, v)
        },
        None => {
            proof {
                assert(false);
            }
            (Vec::new(), Vec::new())
        },
    }
}

/// Evaluate one `if` operand: a variable reference resolves through the
/// context (a leading `$` stripped), a string literal is unescaped, a
/// number or boolean literal is its own text.
pub open spec fn spec_expression_result(
    adc: crate::context::AdcV,
    kind: ExpressionType,
    name: Seq<char>,
) -> Option<Seq<char>> {
    match kind {
        ExpressionType::VariableName => {
            let name2 = if name.len() > 0 && name[0] == '$' {
                name.subrange(1, name.len() as int)
            } else {
                name
            };
            spec_get_string(adc, name2)
        },
        ExpressionType::String => {
            if name.len() >= 2 {
                spec_unescape(name.subrange(1, name.len() - 1), 0)
            } else {
                None
            }
        },
        ExpressionType::Number => Some(name),
        ExpressionType::Boolean => Some(name),
    }
}

/// Evaluate one `if` operand.
pub fn get_expression_result(
    data_ctx: &AutoDataContext,
    expression_type: &ExpressionType,
    expression_name: &str,
) -> (r: Option<String>)
    ensures
        (match r {
            Some(s) => spec_expression_result(
                adc_view(*data_ctx),
                *expression_type,
                expression_name@,
            ) == Some(s@),
            None => spec_expression_result(
                adc_view(*data_ctx),
                *expression_type,
                expression_name@,
            ) is None,
        }),
{
    let nc = str_to_chars(expression_name);
    match expression_type {
        ExpressionType::VariableName => {
            if nc.len() > 0 && nc[0] == '$' {
                let stripped = span_chars(&nc, 1, nc.len());
                proof {
                    assert(stripped@ =~= expression_name@.subrange(
                        1,
                        expression_name@.len() as int,
                    ));
                }
                let key = string_from_chars(&stripped);
                data_ctx.get_string(key.as_str())
            } else {
                data_ctx.get_string(expression_name)
            }
        },
        ExpressionType::String => {
            if nc.len() >= 2 {
                let inner = span_chars(&nc, 1, nc.len() - 1);
                proof {
                    assert(inner@ =~= expression_name@.subrange(1, expression_name@.len() - 1));
                }
                match unicode_escape(&inner) {
                    Some(out) => Some(string_from_chars(&out)),
                    None => None,
                }
            } else {
                None
            }
        },
        ExpressionType::Number => Some(expression_name.to_owned()),
        ExpressionType::Boolean => Some(expression_name.to_owned()),
    }
}

/// Whether a condition holds: under `==` both sides must be present and
/// equal; under `!=` a missing side, or differing texts, satisfy it.
pub open spec fn spec_condition(
    left: Option<Seq<char>>,
    is_eq: bool,
    right: Option<Seq<char>>,
) -> bool {
    if is_eq {
        left is Some && right is Some && left.unwrap() == right.unwrap()
    } else {
        left is None || right is None || left.unwrap() != right.unwrap()
    }
}

/// Evaluate a comparison between two resolved operands.
pub fn get_expression_condition(left: &Option<String>, is_eq: bool, right: &Option<String>) -> (r:
    bool)
    ensures
        r == spec_condition(
            (match left {
                Some(s) => Some(s@),
                None => None,
            }),
            is_eq,
            (match right {
                Some(s) => Some(s@),
                None => None,
            }),
        ),
{
    match (left, right) {
        (Some(l), Some(rr)) => {
            let eq = crate::chars::str_eq(l.as_str(), rr.as_str());
            if is_eq {
                eq
            } else {
                !eq
            }
        },
        _ => !is_eq,
    }
}

/// The key `indent_base` as characters.
pub open spec fn indent_base_key() -> Seq<char> {
    seq!['i', 'n', 'd', 'e', 'n', 't', '_', 'b', 'a', 's', 'e']
}

/// The key `tag_indent` as characters.
pub open spec fn tag_indent_key() -> Seq<char> {
    seq!['t', 'a', 'g', '_', 'i', 'n', 'd', 'e', 'n', 't']
}

/// The policy value `raw` as characters.
pub open spec fn raw_chars() -> Seq<char> {
    seq!['r', 'a', 'w']
}

/// A line's indentation as a nested block emits it.  Under the `raw` policy
/// the source indentation is kept; otherwise the block's minimum indentation
/// is stripped from its front and the enclosing block's resolved indent
/// (`tag_indent`) prepended.
pub open spec fn spec_indent_in_tag(
    t: Seq<char>,
    adc: crate::context::AdcV,
    l: crate::ast::LineV,
    min_indent: int,
) -> Option<Seq<char>> {
    let raw_indent: Option<Seq<char>> = if l.indent.len() > 0 {
        Some(spans_text(t, l.indent))
    } else {
        None
    };
    if spec_get_string(adc, indent_base_key()) == Some(raw_chars()) {
        raw_indent
    } else {
        let tag_indent = spec_get_string(adc, tag_indent_key());
        match raw_indent {
            Some(ri) => {
                let stripped = if min_indent > 0 {
                    if min_indent <= ri.len() {
                        ri.subrange(min_indent, ri.len() as int)
                    } else {
                        Seq::empty()
                    }
                } else {
                    ri
                };
                match tag_indent {
                    Some(ti) => Some(ti + stripped),
                    None => Some(stripped),
                }
            },
            None => tag_indent,
        }
    }
}

/// A line's indentation as a nested block emits it.
pub fn get_indent_in_tag(
    template_chars: &Vec<char>,
    data_ctx: &AutoDataContext,
    line: &SyntaxLine,
    min_indent_len_in_tag: usize,
) -> (r: Option<String>)
    requires
        line_wf_rec(line_view(*line), template_chars@),
        crate::ast::spans_wf(line_view(*line).indent),
    ensures
        (match r {
            Some(s) => spec_indent_in_tag(
                template_chars@,
                adc_view(*data_ctx),
                line_view(*line),
                min_indent_len_in_tag as int,
            ) == Some(s@),
            None => spec_indent_in_tag(
                template_chars@,
                adc_view(*data_ctx),
                line_view(*line),
                min_indent_len_in_tag as int,
            ) is None,
        }),
{
    let base_key: Vec<char> = vec!['i', 'n', 'd', 'e', 'n', 't', '_', 'b', 'a', 's', 'e'];
    let tag_key: Vec<char> = vec!['t', 'a', 'g', '_', 'i', 'n', 'd', 'e', 'n', 't'];
    let raw_kw: Vec<char> = vec!['r', 'a', 'w'];
    proof {
        assert(base_key@ =~= indent_base_key());
        assert(tag_key@ =~= tag_indent_key());
        assert(raw_kw@ =~= raw_chars());
    }
    let base_key_s = string_from_chars(&base_key);
    let indent_base = data_ctx.get_string(base_key_s.as_str());
    let is_raw = match &indent_base {
        Some(s) => {
            let sc = str_to_chars(s.as_str());
            crate::chars::chars_eq(&sc, &raw_kw)
        },
        None => false,
    };
    let raw_indent = line.get_indent(template_chars);
    if is_raw {
        return raw_indent;
    }
    let tag_key_s = string_from_chars(&tag_key);
    let tag_indent = data_ctx.get_string(tag_key_s.as_str());
    match raw_indent {
        Some(ri) => {
            let ric = str_to_chars(ri.as_str());
            let stripped: Vec<char> = if min_indent_len_in_tag > 0 {
                if min_indent_len_in_tag <= ric.len() {
                    span_chars(&ric, min_indent_len_in_tag, ric.len())
                } else {
                    Vec::new()
                }
            } else {
                ric
            };
            proof {
                assert(stripped@ =~= (if min_indent_len_in_tag > 0 {
                    if min_indent_len_in_tag <= ri@.len() {
                        ri@.subrange(min_indent_len_in_tag as int, ri@.len() as int)
                    } else {
                        Seq::<char>::empty()
                    }
                } else {
                    ri@
                }));
            }
            match tag_indent {
                Some(ti) => {
                    let tic = str_to_chars(ti.as_str());
                    let mut out = tic;
                    let mut st = stripped;
                    out.append(&mut st);
                    Some(string_from_chars(&out))
                },
                None => Some(string_from_chars(&stripped)),
            }
        },
        None => tag_indent,
    }
}


/// The key `$index` as characters.
pub open spec fn index_key() -> Seq<char> {
    seq!['$', 'i', 'n', 'd', 'e', 'x']
}

/// The key `$max` as characters.
pub open spec fn max_key() -> Seq<char> {
    seq!['$', 'm', 'a', 'x']
}

/// The key `join_with` as characters.
pub open spec fn join_with_key() -> Seq<char> {
    seq!['j', 'o', 'i', 'n', '_', 'w', 'i', 't', 'h']
}

/// A double-quoted value sheds its quotes.
pub open spec fn strip_quotes(v: Seq<char>) -> Seq<char> {
    if v.len() >= 2 && v[0] == '"' && v[v.len() - 1] == '"' {
        v.subrange(1, v.len() - 1)
    } else {
        v
    }
}

/// The context after one scope declaration: key and value split at the
/// first `=` and trimmed, quotes shed, escapes decoded, a value naming a
/// resolved variable replaced by that variable's text; a malformed escape
/// leaves the context unchanged.
pub open spec fn spec_apply_env(
    t: Seq<char>,
    adc: crate::context::AdcV,
    e: crate::ast::EnvDefine,
) -> crate::context::AdcV {
    let kv = spec_env_kv(t, e.start as int, e.end as int);
    match spec_unescape(strip_quotes(kv.1), 0) {
        Some(dv) => {
            let resolved = match spec_get_string(adc, dv) {
                Some(rv) => rv,
                None => dv,
            };
            crate::context::adc_set_scope(adc, kv.0, crate::value::ValueV::String(resolved))
        },
        None => adc,
    }
}

/// The context after the first `n` scope declarations, in order.
pub open spec fn spec_apply_envs(
    t: Seq<char>,
    envs: Seq<crate::ast::EnvDefine>,
    adc: crate::context::AdcV,
    n: int,
) -> crate::context::AdcV
    decreases n,
{
    if n <= 0 || n > envs.len() {
        adc
    } else {
        spec_apply_env(t, spec_apply_envs(t, envs, adc, n - 1), envs[n - 1])
    }
}

/// Applying declarations changes only scope contents: the stack depth, the
/// system variables, the data document and well-formedness are kept.
pub proof fn lemma_apply_envs_frame(
    t: Seq<char>,
    envs: Seq<crate::ast::EnvDefine>,
    adc: crate::context::AdcV,
    n: int,
)
    requires
        crate::context::adc_wf(adc),
    ensures
        ({
            let a2 = spec_apply_envs(t, envs, adc, n);
            &&& a2.scope_stack.len() == adc.scope_stack.len()
            &&& a2.sys == adc.sys
            &&& a2.data == adc.data
            &&& crate::context::adc_wf(a2)
            &&& a2.scope_stack.drop_last() == adc.scope_stack.drop_last()
        }),
    decreases n,
{
    if n <= 0 || n > envs.len() {
    } else {
        lemma_apply_envs_frame(t, envs, adc, n - 1);
        let a1 = spec_apply_envs(t, envs, adc, n - 1);
        let a2 = spec_apply_env(t, a1, envs[n - 1]);
        assert(a2.scope_stack.len() == a1.scope_stack.len());
        assert forall|i: int| 0 <= i < a2.scope_stack.len() implies (
        #[trigger] a2.scope_stack[i]) is Object by {
            if i < a1.scope_stack.len() - 1 {
                assert(a2.scope_stack[i] == a1.scope_stack[i]);
            }
        }
        assert(a2.scope_stack.drop_last() =~= a1.scope_stack.drop_last());
    }
}

/// A fresh empty scope opened.
pub open spec fn adc_push(adc: crate::context::AdcV) -> crate::context::AdcV {
    crate::context::AdcV {
        scope_stack: adc.scope_stack.push(
            crate::value::ValueV::Object(Seq::<(Seq<char>, crate::value::ValueV)>::empty()),
        ),
        ..adc
    }
}

/// The context after the block-tag indentation is resolved: for the line's
/// first visible token (or the first token of a block-body line) the
/// applicable indentation, if non-empty, is bound as `tag_indent`.
pub open spec fn spec_tag_indent_ctx(
    t: Seq<char>,
    line: crate::ast::LineV,
    token_index: int,
    c: TokenContext,
    min: int,
    adc: crate::context::AdcV,
) -> crate::context::AdcV {
    if c.first_in_line || (c.in_tag && token_index == 0) {
        let ind = if c.in_tag {
            spec_indent_in_tag(t, adc, line, min)
        } else {
            if line.indent.len() > 0 {
                Some(spans_text(t, line.indent))
            } else {
                None
            }
        };
        match ind {
            Some(s) => if s.len() > 0 {
                crate::context::adc_set_scope(
                    adc,
                    tag_indent_key(),
                    crate::value::ValueV::String(s),
                )
            } else {
                adc
            },
            None => adc,
        }
    } else {
        adc
    }
}

/// One token's text: the line's indentation precedes the first token if it
/// is literal text or a placeholder; a control token contributes its block's
/// render.  The flag says whether the token produced output (a control
/// token) or is text-bearing by nature.
pub open spec fn spec_render_token(
    t: Seq<char>,
    line: crate::ast::LineV,
    tok: crate::ast::TokenV,
    j: int,
    indent: Option<Seq<char>>,
    min: int,
    adc: crate::context::AdcV,
) -> (Seq<char>, bool)
    decreases tok, 9int, 0int,
{
    let pre: Seq<char> = if j == 0 {
        match indent {
            Some(s) => s,
            None => Seq::empty(),
        }
    } else {
        Seq::empty()
    };
    match tok {
        crate::ast::TokenV::Text(c) => (pre + t.subrange(c.start as int, c.end as int), true),
        crate::ast::TokenV::Placeholder(c) => (
            pre + spec_placeholder_text(adc, t.subrange(c.start as int, c.end as int)),
            true,
        ),
        crate::ast::TokenV::Tag(c, tg, tb) => {
            proof {
                assert(decreases_to!(tok => tb));
            }
            spec_fill_tag(t, line, j, c, tg, tb, min, adc)
        },
    }
}

/// The first `n` tokens of a line rendered in order, with how many of them
/// produced output.
pub open spec fn spec_render_tokens(
    t: Seq<char>,
    line: crate::ast::LineV,
    indent: Option<Seq<char>>,
    min: int,
    adc: crate::context::AdcV,
    n: int,
) -> (Seq<char>, int)
    decreases line, 1int, n,
{
    if n <= 0 || n > line.tokens.len() {
        (Seq::empty(), 0)
    } else {
        proof {
            assert(decreases_to!(line => line.tokens));
            assert(decreases_to!(line.tokens => line.tokens[n - 1]));
        }
        let prev = spec_render_tokens(t, line, indent, min, adc, n - 1);
        let cur = spec_render_token(t, line, line.tokens[n - 1], n - 1, indent, min, adc);
        (
            prev.0 + cur.0,
            prev.1 + if cur.1 {
                1int
            } else {
                0int
            },
        )
    }
}

/// One line's text: its resolved indentation and tokens, then its
/// terminator — except that a lone control token that produced nothing
/// silences the line, the final line of a block body keeps no terminator,
/// and a line holding only declarations keeps none either.  A token-less
/// line still shows its indentation.
pub open spec fn spec_render_line(
    t: Seq<char>,
    line: crate::ast::LineV,
    is_last: bool,
    is_tag_fill: bool,
    min: int,
    adc: crate::context::AdcV,
) -> Seq<char>
    decreases line, 2int, 0int,
{
    let indent = if is_tag_fill {
        spec_indent_in_tag(t, adc, line, min)
    } else {
        if line.indent.len() > 0 {
            Some(spans_text(t, line.indent))
        } else {
            None
        }
    };
    let toks = spec_render_tokens(t, line, indent, min, adc, line.tokens.len() as int);
    let empty_line_indent: Seq<char> = if line.tokens.len() == 0 && line.env_define_cnt == 0 {
        match indent {
            Some(s) => s,
            None => Seq::empty(),
        }
    } else {
        Seq::empty()
    };
    let feed: Seq<char> = if crate::ast::line_visible_count(line) == 1 && line.tag_token_cnt > 0
        && toks.1 == 0 {
        Seq::empty()
    } else if is_tag_fill && is_last {
        Seq::empty()
    } else if crate::ast::line_should_fill_line_feed(line) {
        match line.line_feed {
            Some(crate::ast::LineFeed::LF) => seq!['\n'],
            Some(crate::ast::LineFeed::CRLF) => seq!['\r', '\n'],
            None => Seq::empty(),
        }
    } else {
        Seq::empty()
    };
    toks.0 + empty_line_indent + feed
}

/// The first `n` lines of a table rendered in order.
pub open spec fn spec_render_lines(
    t: Seq<char>,
    tv: crate::ast::TableV,
    is_tag_fill: bool,
    min: int,
    adc: crate::context::AdcV,
    n: int,
) -> Seq<char>
    decreases tv, 3int, n,
{
    if n <= 0 || n > tv.syntax_lines.len() {
        Seq::empty()
    } else {
        proof {
            assert(decreases_to!(tv => tv.syntax_lines));
            assert(decreases_to!(tv.syntax_lines => tv.syntax_lines[n - 1]));
        }
        spec_render_lines(t, tv, is_tag_fill, min, adc, n - 1) + spec_render_line(
            t,
            tv.syntax_lines[n - 1],
            n - 1 == tv.syntax_lines.len() - 1,
            is_tag_fill,
            min,
            adc,
        )
    }
}

/// A whole table's render: the table's own declarations applied first when
/// asked, then its lines in order against the constant resulting context.
#[verifier::opaque]
pub open spec fn spec_render_table(
    t: Seq<char>,
    tv: crate::ast::TableV,
    adc: crate::context::AdcV,
    is_tag_fill: bool,
    need_env: bool,
) -> Seq<char>
    decreases tv, 4int, 0int,
{
    let adc1 = if need_env {
        spec_apply_envs(t, tv.custom_envs, adc, tv.custom_envs.len() as int)
    } else {
        adc
    };
    let min: int = match tv.min_indent_len {
        None => 0,
        Some(m) => m as int,
    };
    spec_render_lines(t, tv, is_tag_fill, min, adc1, tv.syntax_lines.len() as int)
}

/// The first `n` iterations of a `for` block: each renders the body once in
/// a fresh scope binding `$index` and the item, with `join_with` between
/// consecutive iterations and never after the last.
pub open spec fn spec_for_iters(
    t: Seq<char>,
    tb: crate::ast::TableV,
    item: Seq<char>,
    items: Seq<crate::value::ValueV>,
    join: Option<Seq<char>>,
    adc: crate::context::AdcV,
    n: int,
) -> Seq<char>
    decreases tb, 5int, n,
{
    if n <= 0 || n > items.len() {
        Seq::empty()
    } else {
        let i = n - 1;
        let a1 = crate::context::adc_set_scope(
            adc_push(adc),
            index_key(),
            crate::value::ValueV::String(spec_dec_digits(i)),
        );
        let a2 = crate::context::adc_set_scope(a1, item, items[i]);
        let sep: Seq<char> = if i < items.len() - 1 {
            match join {
                Some(jw) => jw,
                None => Seq::empty(),
            }
        } else {
            Seq::empty()
        };
        spec_for_iters(t, tb, item, items, join, adc, n - 1) + spec_render_table(
            t,
            tb,
            a2,
            true,
            false,
        ) + sep
    }
}

/// A control block's contribution: its tag indentation is resolved in a
/// fresh scope; a `for` renders the body once per element of the resolved
/// collection (binding `$max` once, applying the body's declarations, and
/// joining with `join_with`), an absent or non-array collection renders
/// nothing; an `if` renders the body exactly when its condition holds.  The
/// flag says whether any text was produced.
#[verifier::opaque]
pub open spec fn spec_fill_tag(
    t: Seq<char>,
    line: crate::ast::LineV,
    j: int,
    c: TokenContext,
    tg: crate::ast::TagV,
    tb: crate::ast::TableV,
    min: int,
    adc: crate::context::AdcV,
) -> (Seq<char>, bool)
    decreases tb, 6int, 0int,
{
    let a1 = spec_tag_indent_ctx(t, line, j, c, min, adc_push(adc));
    let out: Seq<char> = match tg {
        crate::ast::TagV::For(item, coll) => {
            match crate::context::spec_get_array(a1, coll) {
                Some(items) => {
                    let a2 = if items.len() > 0 {
                        crate::context::adc_set_scope(
                            a1,
                            max_key(),
                            crate::value::ValueV::String(spec_dec_digits(items.len() - 1)),
                        )
                    } else {
                        a1
                    };
                    let a3 = spec_apply_envs(t, tb.custom_envs, a2, tb.custom_envs.len() as int);
                    let join = spec_get_string(a3, join_with_key());
                    spec_for_iters(t, tb, item, items, join, a3, items.len() as int)
                },
                None => Seq::empty(),
            }
        },
        crate::ast::TagV::If(lk, l, op, rk, r) => {
            let left = spec_expression_result(a1, lk, l);
            let right = spec_expression_result(a1, rk, r);
            if op == crate::grammar::eqeq_chars() || op == crate::grammar::noteq_chars() {
                if spec_condition(left, op == crate::grammar::eqeq_chars(), right) {
                    spec_render_table(t, tb, a1, true, true)
                } else {
                    Seq::empty()
                }
            } else {
                Seq::empty()
            }
        },
        _ => Seq::empty(),
    };
    (out, out.len() > 0)
}

/// Apply each scope declaration in order: split at `=`, trim, shed quotes,
/// decode escapes, resolve a variable-naming value, and bind in the
/// innermost scope; a malformed escape leaves the key unset.
fn apply_envs(
    template_chars: &Vec<char>,
    envs: &Vec<crate::ast::EnvDefine>,
    data_ctx: &mut AutoDataContext,
)
    requires
        forall|i: int| 0 <= i < envs@.len() ==> env_in_bounds(#[trigger] envs@[i], template_chars@),
        adc_wf(adc_view(*old(data_ctx))),
        adc_view(*old(data_ctx)).scope_stack.len() >= 1,
    ensures
        adc_view(*final(data_ctx)) == spec_apply_envs(
            template_chars@,
            envs@,
            adc_view(*old(data_ctx)),
            envs@.len() as int,
        ),
        adc_wf(adc_view(*final(data_ctx))),
        adc_view(*final(data_ctx)).scope_stack.len() == adc_view(*old(data_ctx)).scope_stack.len(),
        adc_view(*final(data_ctx)).data == adc_view(*old(data_ctx)).data,
        adc_view(*final(data_ctx)).sys == adc_view(*old(data_ctx)).sys,
{
    let ghost t = template_chars@;
    let ghost adc0 = adc_view(*old(data_ctx));
    let mut i: usize = 0;
    while i < envs.len()
        invariant
            i <= envs@.len(),
            t == template_chars@,
            forall|j: int|
                0 <= j < envs@.len() ==> env_in_bounds(#[trigger] envs@[j], template_chars@),
            adc0 == adc_view(*old(data_ctx)),
            adc_wf(adc0),
            adc0.scope_stack.len() >= 1,
            adc_view(*data_ctx) == spec_apply_envs(t, envs@, adc0, i as int),
            adc_wf(adc_view(*data_ctx)),
            adc_view(*data_ctx).scope_stack.len() == adc0.scope_stack.len(),
            adc_view(*data_ctx).data == adc0.data,
            adc_view(*data_ctx).sys == adc0.sys,
        decreases envs@.len() - i,
    {
        let ghost prev = adc_view(*data_ctx);
        let e = envs[i];
        let (k, v) = get_kv_from_env_define(template_chars, e.start, e.end);
        let ghost kv = spec_env_kv(t, e.start as int, e.end as int);
        // a double-quoted value sheds its quotes before escape decoding
        let v = if v.len() >= 2 && v[0] == '"' && v[v.len() - 1] == '"' {
            crate::chars::span_chars(&v, 1, v.len() - 1)
        } else {
            v
        };
        proof {
            assert(v@ == strip_quotes(kv.1));
        }
        match unicode_escape(&v) {
            Some(dv) => {
                let ks = string_from_chars(&k);
                let vs = string_from_chars(&dv);
                // a value naming another resolved variable takes its text
                let resolved = match data_ctx.get_string(vs.as_str()) {
                    Some(rv) => rv,
                    None => vs,
                };
                data_ctx.set_scope_with_string(ks.as_str(), resolved);
                proof {
                    assert(adc_view(*data_ctx) == spec_apply_env(t, prev, envs@[i as int]));
                }
            },
            None => {
                proof {
                    assert(adc_view(*data_ctx) == spec_apply_env(t, prev, envs@[i as int]));
                }
            },
        }
        i += 1;
        proof {
            assert(adc_view(*data_ctx) == spec_apply_envs(t, envs@, adc0, i as int));
        }
    }
}

/// Resolve and remember the indentation the block tag itself gets, for its
/// body lines to build on (`tag_indent`).
fn get_tag_indent(
    template_chars: &Vec<char>,
    token_index: usize,
    data_ctx: &mut AutoDataContext,
    token_ctx: &TokenContext,
    line: &SyntaxLine,
    min_indent_len_in_tag: usize,
) -> (r: Option<String>)
    requires
        line_wf_rec(line_view(*line), template_chars@),
        crate::ast::spans_wf(line_view(*line).indent),
        adc_wf(adc_view(*old(data_ctx))),
        adc_view(*old(data_ctx)).scope_stack.len() >= 1,
    ensures
        r is None,
        adc_view(*final(data_ctx)) == spec_tag_indent_ctx(
            template_chars@,
            line_view(*line),
            token_index as int,
            *token_ctx,
            min_indent_len_in_tag as int,
            adc_view(*old(data_ctx)),
        ),
        adc_wf(adc_view(*final(data_ctx))),
        adc_view(*final(data_ctx)).scope_stack.len() == adc_view(*old(data_ctx)).scope_stack.len(),
        adc_view(*final(data_ctx)).data == adc_view(*old(data_ctx)).data,
        adc_view(*final(data_ctx)).sys == adc_view(*old(data_ctx)).sys,
{
    let ghost adc0 = adc_view(*old(data_ctx));
    proof {
        reveal_strlit("tag_indent");
        assert("tag_indent"@ =~= tag_indent_key());
    }
    if token_ctx.first_in_line || token_ctx.in_tag && token_index == 0 {
        if token_ctx.in_tag {
            let indent = get_indent_in_tag(template_chars, data_ctx, line, min_indent_len_in_tag);
            match indent {
                Some(ind) => {
                    if !ind.as_str().is_empty() {
                        data_ctx.set_scope_with_string("tag_indent", ind);
                    }
                },
                None => {},
            }
        } else {
            match line.get_indent(template_chars) {
                Some(ind) => {
                    if !ind.as_str().is_empty() {
                        data_ctx.set_scope_with_string("tag_indent", ind);
                    }
                },
                None => {},
            }
        }
    }
    proof {
        assert(adc_view(*data_ctx) == spec_tag_indent_ctx(
            template_chars@,
            line_view(*line),
            token_index as int,
            *token_ctx,
            min_indent_len_in_tag as int,
            adc0,
        ));
    }
    None
}

/// Render the table against the context: its declarations applied first
/// when asked, then lines in order — each line its indentation, its tokens,
/// then its terminator, unless the line is suppressed as structurally
/// silent.  The output is exactly `spec_render_table` of the table against
/// the incoming context.
#[verifier::rlimit(100)]
#[verifier::spinoff_prover]
pub fn fill(
    template_chars: &Vec<char>,
    template_ast: &TemplateASTable,
    data_ctx: &mut AutoDataContext,
    is_tag_fill: bool,
    is_need_set_env: bool,
) -> (filled: String)
    requires
        table_wf(table_view(*template_ast)),
        table_wf_rec(table_view(*template_ast), template_chars@),
        adc_wf(adc_view(*old(data_ctx))),
        adc_view(*old(data_ctx)).scope_stack.len() >= 1,
    ensures
        filled@ == spec_render_table(
            template_chars@,
            table_view(*template_ast),
            adc_view(*old(data_ctx)),
            is_tag_fill,
            is_need_set_env,
        ),
        adc_view(*final(data_ctx)) == (if is_need_set_env {
            spec_apply_envs(
                template_chars@,
                table_view(*template_ast).custom_envs,
                adc_view(*old(data_ctx)),
                table_view(*template_ast).custom_envs.len() as int,
            )
        } else {
            adc_view(*old(data_ctx))
        }),
        adc_wf(adc_view(*final(data_ctx))),
        adc_view(*final(data_ctx)).scope_stack.len() == adc_view(*old(data_ctx)).scope_stack.len(),
        adc_view(*final(data_ctx)).data == adc_view(*old(data_ctx)).data,
        adc_view(*final(data_ctx)).sys == adc_view(*old(data_ctx)).sys,
    decreases *template_ast,
{
    let ghost t = template_chars@;
    let ghost tv = table_view(*template_ast);
    let ghost adc0 = adc_view(*old(data_ctx));
    if is_need_set_env {
        proof {
            assert forall|j: int|
                0 <= j < template_ast.custom_envs@.len() implies env_in_bounds(
                #[trigger] template_ast.custom_envs@[j],
                t,
            ) by {
                assert(tv.custom_envs[j] == template_ast.custom_envs@[j]);
            }
        }
        apply_envs(template_chars, &template_ast.custom_envs, data_ctx);
    }
    let ghost adc1 = adc_view(*data_ctx);
    proof {
        assert(adc1 == (if is_need_set_env {
            spec_apply_envs(t, tv.custom_envs, adc0, tv.custom_envs.len() as int)
        } else {
            adc0
        }));
    }
    let mut filled = String::new();
    let min_indent_len: usize = match template_ast.min_indent_len {
        None => 0,
        Some(m) => m,
    };
    let ghost min_i = min_indent_len as int;
    proof {
        assert forall|li: int|
            0 <= li < template_ast.syntax_lines@.len() implies decreases_to!(
            *template_ast => #[trigger] template_ast.syntax_lines@[li]) by {
            assert(decreases_to!(*template_ast => template_ast.syntax_lines));
            assert(decreases_to!(template_ast.syntax_lines => template_ast.syntax_lines@));
            assert(decreases_to!(template_ast.syntax_lines@ => template_ast.syntax_lines@[li]));
        }
    }
    let mut line_idx: usize = 0;
    while line_idx < template_ast.syntax_lines.len()
        invariant
            t == template_chars@,
            tv == table_view(*template_ast),
            table_wf(tv),
            table_wf_rec(tv, t),
            min_i == min_indent_len as int,
            min_i == (match tv.min_indent_len {
                None => 0int,
                Some(m) => m as int,
            }),
            line_idx <= template_ast.syntax_lines@.len(),
            adc_view(*data_ctx) == adc1,
            adc_wf(adc1),
            adc1.scope_stack.len() >= 1,
            filled@ == spec_render_lines(t, tv, is_tag_fill, min_i, adc1, line_idx as int),
            forall|li: int|
                0 <= li < template_ast.syntax_lines@.len() ==> decreases_to!(
                    *template_ast => #[trigger] template_ast.syntax_lines@[li]),
        decreases template_ast.syntax_lines@.len() - line_idx,
    {
        let ghost flbase = filled@;
        let line = &template_ast.syntax_lines[line_idx];
        let ghost lvv = line_view(*line);
        proof {
            assert(tv.syntax_lines[line_idx as int] == lvv);
            assert(line_wf_rec(lvv, t));
            assert(crate::ast::line_wf(lvv));
        }
        let indent_filled: Option<String> = if is_tag_fill {
            get_indent_in_tag(template_chars, data_ctx, line, min_indent_len)
        } else {
            line.get_indent(template_chars)
        };
        let ghost indent_spec: Option<Seq<char>> = match &indent_filled {
            Some(s) => Some(s@),
            None => None,
        };
        proof {
            assert(indent_spec == (if is_tag_fill {
                spec_indent_in_tag(t, adc1, lvv, min_i)
            } else {
                if lvv.indent.len() > 0 {
                    Some(spans_text(t, lvv.indent))
                } else {
                    None
                }
            }));
        }
        proof {
            assert forall|ti: int| 0 <= ti < line.tokens@.len() implies decreases_to!(
                *template_ast => #[trigger] line.tokens@[ti]) by {
                assert(decreases_to!(*template_ast => template_ast.syntax_lines@[line_idx as int]));
                assert(template_ast.syntax_lines@[line_idx as int] == *line);
                assert(decreases_to!(*line => line.tokens));
                assert(decreases_to!(line.tokens => line.tokens@));
                assert(decreases_to!(line.tokens@ => line.tokens@[ti]));
            }
        }
        let mut filled_count: usize = 0;
        let mut token_idx: usize = 0;
        while token_idx < line.tokens.len()
            invariant
                t == template_chars@,
                token_idx <= line.tokens@.len(),
                filled_count <= token_idx,
                *line == template_ast.syntax_lines@[line_idx as int],
                lvv == line_view(*line),
                line_wf_rec(lvv, t),
                crate::ast::line_wf(lvv),
                crate::ast::spans_wf(lvv.indent),
                min_i == min_indent_len as int,
                adc_view(*data_ctx) == adc1,
                adc_wf(adc1),
                adc1.scope_stack.len() >= 1,
                indent_spec == (match &indent_filled {
                    Some(s) => Some(s@),
                    None => None,
                }),
                flbase == filled@.subrange(0, flbase.len() as int),
                filled@ == flbase + spec_render_tokens(
                    t,
                    lvv,
                    indent_spec,
                    min_i,
                    adc1,
                    token_idx as int,
                ).0,
                filled_count as int == spec_render_tokens(
                    t,
                    lvv,
                    indent_spec,
                    min_i,
                    adc1,
                    token_idx as int,
                ).1,
                forall|ti: int|
                    0 <= ti < line.tokens@.len() ==> decreases_to!(
                        *template_ast => #[trigger] line.tokens@[ti]),
            decreases line.tokens@.len() - token_idx,
        {
            let token = &line.tokens[token_idx];
            let ghost tokv = crate::ast::token_view(*token);
            proof {
                assert(lvv.tokens[token_idx as int] == tokv);
                assert(token_wf_rec(tokv, t));
            }
            let is_filled: bool = match token {
                Token::Text(token_ctx) => {
                    if token_idx == 0 {
                        match &indent_filled {
                            Some(ind) => {
                                filled.append(ind.as_str());
                            },
                            None => {},
                        }
                    }
                    let piece = span_to_string(template_chars, token_ctx.start, token_ctx.end);
                    filled.append(piece.as_str());
                    proof {
                        assert(filled@ =~= flbase + (spec_render_tokens(
                            t,
                            lvv,
                            indent_spec,
                            min_i,
                            adc1,
                            token_idx as int,
                        ).0 + spec_render_token(
                            t,
                            lvv,
                            tokv,
                            token_idx as int,
                            indent_spec,
                            min_i,
                            adc1,
                        ).0));
                    }
                    true
                },
                Token::Placeholder(token_ctx) => {
                    if token_idx == 0 {
                        match &indent_filled {
                            Some(ind) => {
                                filled.append(ind.as_str());
                            },
                            None => {},
                        }
                    }
                    fill_placeholder(&mut filled, template_chars, data_ctx, token_ctx);
                    proof {
                        assert(filled@ =~= flbase + (spec_render_tokens(
                            t,
                            lvv,
                            indent_spec,
                            min_i,
                            adc1,
                            token_idx as int,
                        ).0 + spec_render_token(
                            t,
                            lvv,
                            tokv,
                            token_idx as int,
                            indent_spec,
                            min_i,
                            adc1,
                        ).0));
                    }
                    true
                },
                Token::Tag(token_ctx, ext) => {
                    proof {
                        assert(decreases_to!(*template_ast => line.tokens@[token_idx as int]));
                        assert(line.tokens@[token_idx as int] == *token);
                        assert(decreases_to!(*token => (*token)->Tag_1));
                        assert((*token)->Tag_1 == *ext);
                        assert((*token)->Tag_0 == *token_ctx);
                        assert(tokv == crate::ast::TokenV::Tag(
                            *token_ctx,
                            ext.tag.deep_view(),
                            table_view(ext.sub_ast),
                        ));
                        assert(table_wf(table_view(ext.sub_ast)));
                        assert(table_wf_rec(table_view(ext.sub_ast), t));
                        assert(ext.tag.deep_view() is For || ext.tag.deep_view() is If);
                    }
                    let tag_filled = fill_tag(
                        &mut filled,
                        template_chars,
                        line,
                        token_idx,
                        data_ctx,
                        token_ctx,
                        ext,
                        min_indent_len,
                    );
                    proof {
                        assert(spec_render_token(
                            t,
                            lvv,
                            tokv,
                            token_idx as int,
                            indent_spec,
                            min_i,
                            adc1,
                        ) == spec_fill_tag(
                            t,
                            lvv,
                            token_idx as int,
                            *token_ctx,
                            ext.tag.deep_view(),
                            table_view(ext.sub_ast),
                            min_i,
                            adc1,
                        ));
                        assert(filled@ =~= flbase + (spec_render_tokens(
                            t,
                            lvv,
                            indent_spec,
                            min_i,
                            adc1,
                            token_idx as int,
                        ).0 + spec_render_token(
                            t,
                            lvv,
                            tokv,
                            token_idx as int,
                            indent_spec,
                            min_i,
                            adc1,
                        ).0));
                    }
                    tag_filled
                },
            };
            if is_filled {
                filled_count = filled_count + 1;
            }
            token_idx += 1;
            proof {
                assert(filled@ == flbase + spec_render_tokens(
                    t,
                    lvv,
                    indent_spec,
                    min_i,
                    adc1,
                    token_idx as int,
                ).0);
                assert(flbase =~= filled@.subrange(0, flbase.len() as int));
            }
        }
        if line.tokens.len() == 0 && line.env_define_cnt == 0 {
            match &indent_filled {
                Some(ind) => {
                    filled.append(ind.as_str());
                },
                None => {},
            }
        }
        let visible = line.visible_token_count();
        if visible == 1 && line.tag_token_cnt > 0 && filled_count == 0 {
            // a lone control token that produced nothing: the line vanishes
        } else if is_tag_fill && line_idx == template_ast.syntax_lines.len() - 1 {
            // the final line of a block body never emits its own terminator
        } else {
            if line.should_fill_line_feed() {
                match &line.line_feed {
                    Some(crate::ast::LineFeed::LF) => {
                        filled.append("\n");
                    },
                    Some(crate::ast::LineFeed::CRLF) => {
                        filled.append("\r\n");
                    },
                    None => {},
                }
            }
        }
        proof {
            reveal_strlit("\n");
            reveal_strlit("\r\n");
            assert(filled@ =~= flbase + spec_render_line(
                t,
                lvv,
                line_idx as int == tv.syntax_lines.len() - 1,
                is_tag_fill,
                min_i,
                adc1,
            ));
        }
        line_idx += 1;
        proof {
            assert(filled@ =~= spec_render_lines(t, tv, is_tag_fill, min_i, adc1, line_idx as int));
        }
    }
    proof {
        reveal(spec_render_table);
        assert(filled@ == spec_render_table(t, tv, adc0, is_tag_fill, is_need_set_env));
    }
    filled
}

/// Append a placeholder's resolution: the trimmed name resolved through the
/// context, or the `{{name: Not found}}` marker on a miss.
pub open spec fn spec_placeholder_text(adc: crate::context::AdcV, raw: Seq<char>) -> Seq<char> {
    let name = spec_trim(raw);
    match spec_get_string(adc, name) {
        Some(v) => v,
        None => seq!['{', '{'] + name + seq![':', ' ', 'N', 'o', 't', ' ', 'f', 'o', 'u', 'n', 'd', '}', '}'],
    }
}

/// Resolve one placeholder and append its text or its miss marker.
fn fill_placeholder(
    filled: &mut String,
    template_chars: &Vec<char>,
    data_ctx: &AutoDataContext,
    token_ctx: &TokenContext,
) -> (r: bool)
    requires
        token_ctx.start <= token_ctx.end <= template_chars@.len(),
    ensures
        r == true,
        final(filled)@ == old(filled)@ + spec_placeholder_text(
            adc_view(*data_ctx),
            template_chars@.subrange(token_ctx.start as int, token_ctx.end as int),
        ),
{
    let raw = span_chars(template_chars, token_ctx.start, token_ctx.end);
    let name = trim_chars(&raw);
    let name_s = string_from_chars(&name);
    match data_ctx.get_string(name_s.as_str()) {
        Some(v) => {
            filled.append(v.as_str());
        },
        None => {
            filled.append("{{");
            filled.append(name_s.as_str());
            filled.append(": Not found}}");
            proof {
                reveal_strlit("{{");
                reveal_strlit(": Not found}}");
                assert(final(filled)@ =~= old(filled)@ + spec_placeholder_text(
                    adc_view(*data_ctx),
                    template_chars@.subrange(token_ctx.start as int, token_ctx.end as int),
                ));
            }
        },
    }
    true
}

/// Execute one control block: a `for` renders its body once per element of
/// the resolved collection (binding `$index` per iteration and `$max` once,
/// with `join_with` between iterations and never after the last); an `if`
/// renders its body exactly when its condition holds.  The appended text is
/// exactly `spec_fill_tag`, the result whether any text was produced, and
/// the context is restored.
#[verifier::rlimit(100)]
#[verifier::spinoff_prover]
fn fill_tag(
    filled: &mut String,
    template_chars: &Vec<char>,
    line: &SyntaxLine,
    token_idx: usize,
    data_ctx: &mut AutoDataContext,
    token_ctx: &TokenContext,
    tag_ext: &TagExtend,
    min_indent_len_in_tag: usize,
) -> (is_filled: bool)
    requires
        table_wf(table_view(tag_ext.sub_ast)),
        table_wf_rec(table_view(tag_ext.sub_ast), template_chars@),
        tag_ext.tag.deep_view() is For || tag_ext.tag.deep_view() is If,
        line_wf_rec(line_view(*line), template_chars@),
        crate::ast::spans_wf(line_view(*line).indent),
        adc_wf(adc_view(*old(data_ctx))),
        adc_view(*old(data_ctx)).scope_stack.len() >= 1,
    ensures
        ({
            let sp = spec_fill_tag(
                template_chars@,
                line_view(*line),
                token_idx as int,
                *token_ctx,
                tag_ext.tag.deep_view(),
                table_view(tag_ext.sub_ast),
                min_indent_len_in_tag as int,
                adc_view(*old(data_ctx)),
            );
            final(filled)@ == old(filled)@ + sp.0 && is_filled == sp.1
        }),
        adc_view(*final(data_ctx)) == adc_view(*old(data_ctx)),
        adc_wf(adc_view(*final(data_ctx))),
    decreases *tag_ext,
{
    let ghost t = template_chars@;
    let ghost adc0 = adc_view(*old(data_ctx));
    let ghost lv = line_view(*line);
    let ghost tbv = table_view(tag_ext.sub_ast);
    let ghost tgv = tag_ext.tag.deep_view();
    let ghost min_i = min_indent_len_in_tag as int;
    let ghost fl0 = filled@;
    data_ctx.push_scope();
    proof {
        assert(adc_view(*data_ctx) =~~= adc_push(adc0));
    }
    get_tag_indent(template_chars, token_idx, data_ctx, token_ctx, line, min_indent_len_in_tag);
    let ghost a1 = adc_view(*data_ctx);
    proof {
        assert(a1 == spec_tag_indent_ctx(t, lv, token_idx as int, *token_ctx, min_i, adc_push(
            adc0,
        )));
        assert(adc_push(adc0).scope_stack.drop_last() =~= adc0.scope_stack);
        assert(a1.scope_stack.drop_last() =~= adc0.scope_stack);
        assert(a1.sys == adc0.sys && a1.data == adc0.data);
        assert(a1.scope_stack.len() == adc0.scope_stack.len() + 1);
    }
    let mut wrote = false;
    match &tag_ext.tag {
        crate::ast::Tag::For(item_name, array_name) => {
            proof {
                assert(tgv == crate::ast::TagV::For(item_name@, array_name@));
            }
            let ghost itemk = item_name@;
            match data_ctx.get_array(array_name.as_str()) {
                Some(array) => {
                    let ghost itemsv = Seq::new(
                        array@.len(),
                        |i: int|
                            if 0 <= i < array@.len() {
                                crate::value::value_view(array@[i])
                            } else {
                                crate::value::ValueV::Null
                            },
                    );
                    proof {
                        assert(crate::context::spec_get_array(a1, array_name@) == Some(itemsv));
                    }
                    if array.len() > 0 {
                        let maxs = usize_to_string(array.len() - 1);
                        proof {
                            reveal_strlit("$max");
                            assert("$max"@ =~= max_key());
                        }
                        data_ctx.set_scope_with_string("$max", maxs);
                    }
                    let ghost a2 = adc_view(*data_ctx);
                    proof {
                        assert(a2 == (if itemsv.len() > 0 {
                            crate::context::adc_set_scope(
                                a1,
                                max_key(),
                                crate::value::ValueV::String(spec_dec_digits(itemsv.len() - 1)),
                            )
                        } else {
                            a1
                        }));
                        assert forall|j: int|
                            0 <= j < tag_ext.sub_ast.custom_envs@.len() implies env_in_bounds(
                            #[trigger] tag_ext.sub_ast.custom_envs@[j],
                            t,
                        ) by {
                            assert(table_view(tag_ext.sub_ast).custom_envs[j]
                                == tag_ext.sub_ast.custom_envs@[j]);
                        }
                    }
                    apply_envs(template_chars, &tag_ext.sub_ast.custom_envs, data_ctx);
                    let ghost a3 = adc_view(*data_ctx);
                    proof {
                        assert(a3 == spec_apply_envs(t, tbv.custom_envs, a2, tbv.custom_envs.len() as int));
                    }
                    proof {
                        reveal_strlit("join_with");
                        assert("join_with"@ =~= join_with_key());
                    }
                    let join_with = data_ctx.get_string("join_with");
                    let ghost joinv: Option<Seq<char>> = match &join_with {
                        Some(s) => Some(s@),
                        None => None,
                    };
                    proof {
                        assert(joinv == spec_get_string(a3, join_with_key()));
                        assert(decreases_to!(*tag_ext => tag_ext.sub_ast));
                    }
                    let mut i: usize = 0;
                    while i < array.len()
                        invariant
                            t == template_chars@,
                            i <= array@.len(),
                            tbv == table_view(tag_ext.sub_ast),
                            table_wf(tbv),
                            table_wf_rec(tbv, t),
                            itemk == item_name@,
                            itemsv.len() == array@.len(),
                            forall|j: int|
                                0 <= j < array@.len() ==> itemsv[j] == crate::value::value_view(
                                    #[trigger] array@[j],
                                ),
                            joinv == (match &join_with {
                                Some(s) => Some(s@),
                                None => None,
                            }),
                            adc_view(*data_ctx) == a3,
                            adc_wf(a3),
                            a3.scope_stack.len() >= 2,
                            filled@ == fl0 + spec_for_iters(t, tbv, itemk, itemsv, joinv, a3, i as int),
                            wrote == (spec_for_iters(t, tbv, itemk, itemsv, joinv, a3, i as int).len() > 0),
                            decreases_to!(*tag_ext => tag_ext.sub_ast),
                        decreases array@.len() - i,
                    {
                        data_ctx.push_scope();
                        let idxs = usize_to_string(i);
                        proof {
                            reveal_strlit("$index");
                            assert("$index"@ =~= index_key());
                        }
                        data_ctx.set_scope_with_string("$index", idxs);
                        let item = crate::value::duplicate(&array[i]);
                        data_ctx.set_scope_with_value(item_name.as_str(), item);
                        let ghost ai2 = adc_view(*data_ctx);
                        proof {
                            assert(adc_push(a3) =~~= crate::context::AdcV {
                                scope_stack: a3.scope_stack.push(
                                    crate::value::ValueV::Object(
                                        Seq::<(Seq<char>, crate::value::ValueV)>::empty(),
                                    ),
                                ),
                                ..a3
                            });
                            assert(ai2 == crate::context::adc_set_scope(
                                crate::context::adc_set_scope(
                                    adc_push(a3),
                                    index_key(),
                                    crate::value::ValueV::String(spec_dec_digits(i as int)),
                                ),
                                itemk,
                                itemsv[i as int],
                            ));
                        }
                        let replaced = fill(template_chars, &tag_ext.sub_ast, data_ctx, true, false);
                        if !replaced.as_str().is_empty() {
                            wrote = true;
                        }
                        filled.append(replaced.as_str());
                        if i < array.len() - 1 {
                            match &join_with {
                                Some(jw) => {
                                    if !jw.as_str().is_empty() {
                                        wrote = true;
                                    }
                                    filled.append(jw.as_str());
                                },
                                None => {},
                            }
                        }
                        data_ctx.pop_scope();
                        i += 1;
                        proof {
                            assert(adc_view(*data_ctx).scope_stack =~= a3.scope_stack);
                            assert(adc_view(*data_ctx) =~~= a3);
                            assert(filled@ =~= fl0 + spec_for_iters(
                                t,
                                tbv,
                                itemk,
                                itemsv,
                                joinv,
                                a3,
                                i as int,
                            ));
                        }
                    }
                    proof {
                        lemma_apply_envs_frame(t, tbv.custom_envs, a2, tbv.custom_envs.len() as int);
                        assert(a2.scope_stack.drop_last() =~= a1.scope_stack.drop_last());
                        assert(adc_view(*data_ctx).scope_stack.drop_last() =~= adc0.scope_stack);
                        reveal(spec_fill_tag);
                        let sp = spec_fill_tag(t, lv, token_idx as int, *token_ctx, tgv, tbv, min_i, adc0);
                        assert(filled@ == fl0 + sp.0);
                        assert(wrote == sp.1);
                        assert(adc_view(*data_ctx).sys == adc0.sys && adc_view(*data_ctx).data
                            == adc0.data && adc_view(*data_ctx).scope_stack.len() >= 1);
                    }
                },
                None => {
                    proof {
                        assert(adc_view(*data_ctx).scope_stack.drop_last() =~= adc0.scope_stack);
                        reveal(spec_fill_tag);
                        let sp = spec_fill_tag(t, lv, token_idx as int, *token_ctx, tgv, tbv, min_i, adc0);
                        assert(filled@ == fl0 + sp.0) by {
                            assert(fl0 + Seq::<char>::empty() =~= fl0);
                        }
                        assert(wrote == sp.1);
                        assert(adc_view(*data_ctx).sys == adc0.sys && adc_view(*data_ctx).data
                            == adc0.data && adc_view(*data_ctx).scope_stack.len() >= 1);
                    }
                },
            }
        },
        crate::ast::Tag::If(lk, l, op, rk, rr) => {
            proof {
                assert(tgv == crate::ast::TagV::If(*lk, l@, op@, *rk, rr@));
            }
            let left = get_expression_result(data_ctx, lk, l.as_str());
            let right = get_expression_result(data_ctx, rk, rr.as_str());
            let opc = str_to_chars(op.as_str());
            let eqv: Vec<char> = vec!['=', '='];
            let nev: Vec<char> = vec!['!', '='];
            proof {
                assert(eqv@ =~= crate::grammar::eqeq_chars());
                assert(nev@ =~= crate::grammar::noteq_chars());
            }
            let is_eq = crate::chars::chars_eq(&opc, &eqv);
            let is_ne = crate::chars::chars_eq(&opc, &nev);
            if is_eq || is_ne {
                let cond = get_expression_condition(&left, is_eq, &right);
                if cond {
                    proof {
                        assert(decreases_to!(*tag_ext => tag_ext.sub_ast));
                    }
                    let replaced = fill(template_chars, &tag_ext.sub_ast, data_ctx, true, true);
                    if !replaced.as_str().is_empty() {
                        wrote = true;
                    }
                    filled.append(replaced.as_str());
                }
            }
            proof {
                lemma_apply_envs_frame(t, tbv.custom_envs, a1, tbv.custom_envs.len() as int);
                assert(adc_view(*data_ctx).scope_stack.drop_last() =~= adc0.scope_stack);
                reveal(spec_fill_tag);
                let sp = spec_fill_tag(t, lv, token_idx as int, *token_ctx, tgv, tbv, min_i, adc0);
                assert(filled@ == fl0 + sp.0) by {
                    assert(fl0 + Seq::<char>::empty() =~= fl0);
                }
                assert(wrote == sp.1);
                assert(adc_view(*data_ctx).sys == adc0.sys && adc_view(*data_ctx).data == adc0.data
                    && adc_view(*data_ctx).scope_stack.len() >= 1);
            }
        },
        _ => {
            proof {
                assert(false);
            }
        },
    }
    data_ctx.pop_scope();
    proof {
        assert(adc_view(*data_ctx).scope_stack =~= adc0.scope_stack);
        assert(adc_view(*data_ctx) =~~= adc0);
    }
    wrote
}

} // verus!
