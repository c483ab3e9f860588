//! Proved laws of the engine: a template with no delimiter pairs renders to
//! exactly its own text — literal text is idempotent and every `\n` / `\r\n`
//! terminator is reproduced in its original position.

use crate::ast::LineFeed;
use crate::ast::LineV;
use crate::ast::TableV;
use crate::ast::line_new_v;
use crate::ast::line_push_token_v;
use crate::ast::spans_text;
use crate::ast::table_finish_v;
use crate::ast::table_new_line_v;
use crate::ast::table_new_v;
use crate::ast::table_push_token_v;
use crate::ast::token_with_eol;
use crate::context::AdcV;
use crate::render::spec_render_line;
use crate::render::spec_render_lines;
use crate::render::spec_render_table;
use crate::render::spec_render_tokens;
use crate::scan::lines_table_spec;
use crate::scan::simple_scan;
use crate::scan::text_tok;
use vstd::prelude::*;

verus! {

/// The characters a recorded terminator contributes.
pub open spec fn feed_chars(lf: Option<LineFeed>) -> Seq<char> {
    match lf {
        Some(LineFeed::LF) => seq!['\n'],
        Some(LineFeed::CRLF) => seq!['\r', '\n'],
        None => Seq::empty(),
    }
}

/// A line as recording closes it: its last token marked line-final and its
/// terminator set.
pub open spec fn closed_line(l: LineV, lf: Option<LineFeed>) -> LineV {
    let l1 = if l.tokens.len() > 0 {
        LineV { tokens: l.tokens.update(l.tokens.len() - 1, token_with_eol(l.tokens.last())), ..l }
    } else {
        l
    };
    LineV { line_feed: lf, ..l1 }
}

/// The line a fresh line becomes after taking the text span `[last, i)`.
pub open spec fn text_line(t: Seq<char>, last: int, i: int) -> LineV {
    if last < i {
        line_push_token_v(line_new_v(), t, text_tok(last, i, false))
    } else {
        line_new_v()
    }
}

/// A line holding one literal text span renders, outside any block, to
/// exactly that span followed by its terminator: the leading whitespace the
/// builder split off is re-emitted as indentation, the rest as text, and a
/// fully blank span comes back as indentation alone.
#[verifier::rlimit(100)]
#[verifier::spinoff_prover]
pub proof fn lemma_text_line_render(
    t: Seq<char>,
    last: int,
    i: int,
    lf: Option<LineFeed>,
    is_last: bool,
    m: int,
    adc: AdcV,
)
    requires
        0 <= last <= i <= t.len(),
        t.len() <= usize::MAX,
    ensures
        spec_render_line(t, closed_line(text_line(t, last, i), lf), is_last, false, m, adc)
            == t.subrange(last, i) + feed_chars(lf),
{
    let l1 = closed_line(text_line(t, last, i), lf);
    if last == i {
        assert(spec_render_tokens(t, l1, None, m, adc, 0) == (Seq::<char>::empty(), 0int));
        assert(spec_render_line(t, l1, is_last, false, m, adc) =~= t.subrange(last, i)
            + feed_chars(lf));
    } else {
        let sub = t.subrange(last, i);
        crate::chars::lemma_first_non_ws_char(sub, 0);
        match crate::chars::spec_first_non_ws(sub, 0) {
            Some(p) => {
                let l0 = text_line(t, last, i);
                if p > 0 {
                    assert(l1.indent =~= seq![((last as usize), ((last + p) as usize))]);
                    assert(l1.indent.len() == 1);
                    assert(l1.indent.last().0 as int == last);
                    assert(l1.indent.last().1 as int == last + p);
                    assert(l1.indent.drop_last() =~= Seq::<(usize, usize)>::empty());
                    assert(spans_text(t, l1.indent.drop_last()) =~= Seq::<char>::empty());
                    assert(spans_text(t, l1.indent) =~= spans_text(t, l1.indent.drop_last())
                        + t.subrange(last, last + p));
                    assert(spans_text(t, l1.indent) =~= t.subrange(last, last + p));
                } else {
                    assert(l1.indent =~= Seq::<(usize, usize)>::empty());
                }
                let indent: Option<Seq<char>> = if l1.indent.len() > 0 {
                    Some(spans_text(t, l1.indent))
                } else {
                    None
                };
                assert(l1.tokens.len() == 1);
                assert(l1.tokens[0] == token_with_eol(l0.tokens[0]));
                let cur = crate::render::spec_render_token(t, l1, l1.tokens[0], 0, indent, m, adc);
                assert(cur.0 =~= t.subrange(last, i) && cur.1) by {
                    if p > 0 {
                        assert(cur.0 =~= t.subrange(last, last + p) + t.subrange(last + p, i));
                        assert(t.subrange(last, last + p) + t.subrange(last + p, i) =~= t.subrange(
                            last,
                            i,
                        ));
                    } else {
                        assert(cur.0 =~= t.subrange(last, i));
                    }
                }
                let toks = spec_render_tokens(t, l1, indent, m, adc, 1);
                assert(spec_render_tokens(t, l1, indent, m, adc, 0) == (Seq::<char>::empty(), 0int));
                assert(toks.0 =~= cur.0);
                assert(toks.0 =~= t.subrange(last, i));
                assert(toks.1 == 1);
                assert(spec_render_line(t, l1, is_last, false, m, adc) =~= t.subrange(last, i)
                    + feed_chars(lf));
            },
            None => {
                assert(l1.indent =~= seq![((last as usize), (i as usize))]);
                assert(l1.indent.len() == 1);
                assert(l1.indent.last().0 as int == last);
                assert(l1.indent.last().1 as int == i);
                assert(l1.indent.drop_last() =~= Seq::<(usize, usize)>::empty());
                assert(spans_text(t, l1.indent.drop_last()) =~= Seq::<char>::empty());
                assert(spans_text(t, l1.indent) =~= spans_text(t, l1.indent.drop_last())
                    + t.subrange(last, i));
                assert(spans_text(t, l1.indent) =~= t.subrange(last, i));
                assert(l1.tokens.len() == 0);
                assert(spec_render_tokens(
                    t,
                    l1,
                    Some(spans_text(t, l1.indent)),
                    m,
                    adc,
                    0,
                ) == (Seq::<char>::empty(), 0int));
                assert(spec_render_line(t, l1, is_last, false, m, adc) =~= t.subrange(last, i)
                    + feed_chars(lf));
            },
        }
    }
}

/// The line-splitting scan only appends lines, never touches declarations,
/// and what the appended lines render to is exactly the unscanned text: each
/// split reproduces its span and its terminator in place.
#[verifier::rlimit(100)]
#[verifier::spinoff_prover]
pub proof fn lemma_simple_scan_render(
    t: Seq<char>,
    i: int,
    last: int,
    tb: TableV,
    m: int,
    adc: AdcV,
)
    requires
        tb.current_line == Some(line_new_v()),
        !tb.is_tag,
        0 <= last <= t.len(),
        last <= i,
        t.len() <= usize::MAX,
    ensures
        ({
            let fin = simple_scan(t, i, last, tb);
            &&& fin.syntax_lines.len() >= tb.syntax_lines.len()
            &&& (forall|j: int|
                0 <= j < tb.syntax_lines.len() ==> fin.syntax_lines[j] == tb.syntax_lines[j])
            &&& fin.custom_envs == tb.custom_envs
            &&& spec_render_lines(t, fin, false, m, adc, fin.syntax_lines.len() as int)
                == spec_render_lines(t, fin, false, m, adc, tb.syntax_lines.len() as int)
                + t.subrange(last, t.len() as int)
        }),
    decreases t.len() - i + 2,
{
    let len: int = if t.len() == 0 {
        0
    } else {
        t.len() - 1
    };
    let fin = simple_scan(t, i, last, tb);
    if i < 0 || i >= len {
        if last < t.len() {
            let tb1 = table_push_token_v(tb, t, text_tok(last, t.len() as int, false));
            assert(tb1.current_line == Some(text_line(t, last, t.len() as int)));
            let cl = text_line(t, last, t.len() as int);
            assert(fin == table_finish_v(tb1));
            assert(cl.tokens.len() > 0 || cl.indent.len() > 0) by {
                let sub = t.subrange(last, t.len() as int);
                crate::chars::lemma_first_non_ws_char(sub, 0);
            }
            assert(fin.syntax_lines =~= tb.syntax_lines.push(closed_line(cl, None)));
            lemma_text_line_render(t, last, t.len() as int, None, true, m, adc);
            lemma_text_line_render(t, last, t.len() as int, None, false, m, adc);
            assert(fin.syntax_lines[fin.syntax_lines.len() - 1] == closed_line(cl, None));
            assert(spec_render_lines(t, fin, false, m, adc, fin.syntax_lines.len() as int)
                =~= spec_render_lines(t, fin, false, m, adc, tb.syntax_lines.len() as int)
                + t.subrange(last, t.len() as int));
        } else {
            assert(fin == table_finish_v(tb));
            assert(fin.syntax_lines =~= tb.syntax_lines);
            assert(t.subrange(last, t.len() as int) =~= Seq::<char>::empty());
            assert(spec_render_lines(t, fin, false, m, adc, fin.syntax_lines.len() as int)
                =~= spec_render_lines(t, fin, false, m, adc, tb.syntax_lines.len() as int)
                + t.subrange(last, t.len() as int));
        }
    } else if t[i] == '\r' && t[i + 1] == '\n' {
        let tb1 = if last < i {
            table_push_token_v(tb, t, text_tok(last, i, false))
        } else {
            tb
        };
        let cl = text_line(t, last, i);
        assert(tb1.current_line == Some(cl));
        let tb2 = table_new_line_v(tb1, Some(LineFeed::CRLF));
        assert(tb2.current_line == Some(line_new_v()));
        assert(tb2.syntax_lines =~= tb.syntax_lines.push(closed_line(cl, Some(LineFeed::CRLF))));
        assert(tb2.custom_envs == tb.custom_envs);
        assert(!tb2.is_tag);
        lemma_simple_scan_render(t, i + 2, i + 2, tb2, m, adc);
        assert(fin == simple_scan(t, i + 2, i + 2, tb2));
        lemma_text_line_render(t, last, i, Some(LineFeed::CRLF), false, m, adc);
        lemma_text_line_render(t, last, i, Some(LineFeed::CRLF), true, m, adc);
        assert(fin.syntax_lines[tb.syntax_lines.len() as int] == closed_line(
            cl,
            Some(LineFeed::CRLF),
        ));
        assert(spec_render_lines(t, fin, false, m, adc, tb2.syntax_lines.len() as int)
            =~= spec_render_lines(t, fin, false, m, adc, tb.syntax_lines.len() as int)
            + (t.subrange(last, i) + feed_chars(Some(LineFeed::CRLF))));
        assert(t.subrange(last, i) + feed_chars(Some(LineFeed::CRLF)) =~= t.subrange(last, i + 2));
        assert(t.subrange(last, i + 2) + t.subrange(i + 2, t.len() as int) =~= t.subrange(
            last,
            t.len() as int,
        ));
        assert(spec_render_lines(t, fin, false, m, adc, fin.syntax_lines.len() as int)
            =~= spec_render_lines(t, fin, false, m, adc, tb.syntax_lines.len() as int)
            + t.subrange(last, t.len() as int));
    } else if t[i] == '\n' {
        let tb1 = if last < i {
            table_push_token_v(tb, t, text_tok(last, i, false))
        } else {
            tb
        };
        let cl = text_line(t, last, i);
        assert(tb1.current_line == Some(cl));
        let tb2 = table_new_line_v(tb1, Some(LineFeed::LF));
        assert(tb2.current_line == Some(line_new_v()));
        assert(tb2.syntax_lines =~= tb.syntax_lines.push(closed_line(cl, Some(LineFeed::LF))));
        assert(tb2.custom_envs == tb.custom_envs);
        assert(!tb2.is_tag);
        lemma_simple_scan_render(t, i + 1, i + 1, tb2, m, adc);
        assert(fin == simple_scan(t, i + 1, i + 1, tb2));
        lemma_text_line_render(t, last, i, Some(LineFeed::LF), false, m, adc);
        lemma_text_line_render(t, last, i, Some(LineFeed::LF), true, m, adc);
        assert(fin.syntax_lines[tb.syntax_lines.len() as int] == closed_line(
            cl,
            Some(LineFeed::LF),
        ));
        assert(spec_render_lines(t, fin, false, m, adc, tb2.syntax_lines.len() as int)
            =~= spec_render_lines(t, fin, false, m, adc, tb.syntax_lines.len() as int)
            + (t.subrange(last, i) + feed_chars(Some(LineFeed::LF))));
        assert(t.subrange(last, i) + feed_chars(Some(LineFeed::LF)) =~= t.subrange(last, i + 1));
        assert(t.subrange(last, i + 1) + t.subrange(i + 1, t.len() as int) =~= t.subrange(
            last,
            t.len() as int,
        ));
        assert(spec_render_lines(t, fin, false, m, adc, fin.syntax_lines.len() as int)
            =~= spec_render_lines(t, fin, false, m, adc, tb.syntax_lines.len() as int)
            + t.subrange(last, t.len() as int));
    } else {
        lemma_simple_scan_render(t, i + 1, last, tb, m, adc);
    }
}

/// Idempotence of literal text, terminators included: the line table of any
/// template renders — outside any block, under any context — to exactly the
/// template's own text.  Since the scanner returns exactly this table when
/// the template holds no delimiter pair, a delimiter-free template fills to
/// itself, every `\n` and `\r\n` in its original position.
pub proof fn lemma_lines_table_render(t: Seq<char>, adc: AdcV)
    requires
        t.len() <= usize::MAX,
    ensures
        spec_render_table(t, lines_table_spec(t), adc, false, true) == t,
{
    let fin = lines_table_spec(t);
    lemma_simple_scan_render(t, 0, 0, table_new_v(false), (match fin.min_indent_len {
        None => 0int,
        Some(m) => m as int,
    }), adc);
    let m: int = match fin.min_indent_len {
        None => 0,
        Some(mm) => mm as int,
    };
    assert(spec_render_lines(t, fin, false, m, adc, 0) == Seq::<char>::empty());
    assert(fin.custom_envs.len() == 0);
    reveal(spec_render_table);
    assert(spec_render_table(t, fin, adc, false, true) =~= t) by {
        assert(crate::render::spec_apply_envs(t, fin.custom_envs, adc, 0) == adc);
        assert(spec_render_lines(t, fin, false, m, adc, fin.syntax_lines.len() as int) =~= t);
    }
}

} // verus!
