//! The template's abstract syntax: tokens, lines and block tables.
//!
//! A parsed template is a `TemplateASTable`: an ordered list of `SyntaxLine`s,
//! each holding the tokens that share one physical line, the line's leading
//! whitespace spans and the terminator that ended it.  A control tag owns a
//! nested table for its body, so the structure is a tree.

use crate::chars::first_non_ws_in;
use crate::chars::spec_first_non_ws;
use crate::chars::span_chars;
use crate::chars::string_from_chars;
use vstd::prelude::*;

verus! {

/// The kind of terminator that ended a physical line.
#[derive(Debug, Clone, Copy, PartialEq, Eq, Structural)]
pub enum LineFeed {
    /// `\n`
    LF,
    /// `\r\n`
    CRLF,
}

/// The syntactic kind of an `if` operand.
#[derive(Debug, Clone, Copy, PartialEq, Eq, Structural)]
pub enum ExpressionType {
    VariableName,
    String,
    Number,
    Boolean,
}

/// Position and line-placement data shared by every token.
#[derive(Debug, Clone, Copy, PartialEq, Eq, Structural)]
pub struct TokenContext {
    /// Character span `[start, end)` into the template.
    pub start: usize,
    pub end: usize,
    /// True if the token lives inside an open control block.
    pub in_tag: bool,
    /// True if the token is the first visible content on its line.
    pub first_in_line: bool,
    /// True if the token is the last on its line.
    pub end_of_line: bool,
}

/// A scope variable declaration: the span of the `key = value` text.
#[derive(Debug, Clone, Copy, PartialEq, Eq, Structural)]
pub struct EnvDefine {
    pub start: usize,
    pub end: usize,
}

impl EnvDefine {
    pub fn new(start: usize, end: usize) -> (r: EnvDefine)
        ensures
            r == (EnvDefine { start, end }),
    {
        EnvDefine { start, end }
    }
}

/// A parsed control tag.
#[derive(Debug)]
pub enum Tag {
    /// `for <item> in <collection>`
    For(String, String),
    EndFor,
    /// `if <left> <operator> <right>`, each operand with its kind.
    If(ExpressionType, String, String, ExpressionType, String),
    EndIf,
}

/// The spec-level value of a `Tag`.
#[verifier::ext_equal]
pub ghost enum TagV {
    For(Seq<char>, Seq<char>),
    EndFor,
    If(ExpressionType, Seq<char>, Seq<char>, ExpressionType, Seq<char>),
    EndIf,
}

impl DeepView for Tag {
    type V = TagV;

    open spec fn deep_view(&self) -> TagV {
        match self {
            Tag::For(item, coll) => TagV::For(item@, coll@),
            Tag::EndFor => TagV::EndFor,
            Tag::If(lk, l, op, rk, r) => TagV::If(*lk, l@, op@, *rk, r@),
            Tag::EndIf => TagV::EndIf,
        }
    }
}

/// A control tag token's payload: the tag and the table for its body.
#[derive(Debug)]
pub struct TagExtend {
    pub tag: Tag,
    pub sub_ast: TemplateASTable,
}

/// One semantic unit of the template.
#[derive(Debug)]
pub enum Token {
    Text(TokenContext),
    Placeholder(TokenContext),
    Tag(TokenContext, TagExtend),
}

/// The spec-level value of a `Token`.
#[verifier::ext_equal]
pub ghost enum TokenV {
    Text(TokenContext),
    Placeholder(TokenContext),
    Tag(TokenContext, TagV, TableV),
}

/// One physical line of a template: its tokens, leading whitespace and
/// terminator.
#[derive(Debug)]
pub struct SyntaxLine {
    /// Spans of the whitespace runs that precede the line's first visible
    /// token; empty when the line has no recorded indentation.
    pub indent: Vec<(usize, usize)>,
    /// Total length of the recorded whitespace.
    pub indent_len: usize,
    pub tokens: Vec<Token>,
    /// The terminator that followed the line; `None` for the final line.
    pub line_feed: Option<LineFeed>,
    pub env_define_cnt: usize,
    pub text_token_cnt: usize,
    pub placeholder_token_cnt: usize,
    pub tag_token_cnt: usize,
}

/// The spec-level value of a `SyntaxLine`.
#[verifier::ext_equal]
pub ghost struct LineV {
    pub indent: Seq<(usize, usize)>,
    pub indent_len: usize,
    pub tokens: Seq<TokenV>,
    pub line_feed: Option<LineFeed>,
    pub env_define_cnt: usize,
    pub text_token_cnt: usize,
    pub placeholder_token_cnt: usize,
    pub tag_token_cnt: usize,
}

/// A template (or block body) as an ordered sequence of lines.
#[derive(Debug)]
pub struct TemplateASTable {
    /// The line currently being built; `None` once the table is finished.
    pub current_line: Option<SyntaxLine>,
    /// The scope variable declarations seen in this table.
    pub custom_envs: Vec<EnvDefine>,
    pub syntax_lines: Vec<SyntaxLine>,
    /// True if this table is the body of a control block.
    pub is_tag: bool,
    /// The least `indent_len` over the recorded lines.
    pub min_indent_len: Option<usize>,
}

/// The spec-level value of a `TemplateASTable`.
#[verifier::ext_equal]
pub ghost struct TableV {
    pub current_line: Option<LineV>,
    pub custom_envs: Seq<EnvDefine>,
    pub syntax_lines: Seq<LineV>,
    pub is_tag: bool,
    pub min_indent_len: Option<usize>,
}

/// The spec-level value of a `Token`.
pub open spec fn token_view(t: Token) -> TokenV
    decreases t,
{
    match t {
        Token::Text(c) => TokenV::Text(c),
        Token::Placeholder(c) => TokenV::Placeholder(c),
        Token::Tag(c, ext) => TokenV::Tag(c, ext.tag.deep_view(), table_view(ext.sub_ast)),
    }
}

/// The spec-level value of a `SyntaxLine`.
pub open spec fn line_view(l: SyntaxLine) -> LineV
    decreases l,
{
    proof {
        assert forall|i: int| 0 <= i < l.tokens@.len() implies decreases_to!(l => l.tokens@[i]) by {
            assert(decreases_to!(l => l.tokens));
            assert(decreases_to!(l.tokens => l.tokens@));
            assert(decreases_to!(l.tokens@ => l.tokens@[i]));
        }
    }
    LineV {
        indent: l.indent@,
        indent_len: l.indent_len,
        tokens: Seq::new(
            l.tokens@.len(),
            |i: int|
                if 0 <= i < l.tokens@.len() {
                    token_view(l.tokens@[i])
                } else {
                    TokenV::Text(arbitrary())
                },
        ),
        line_feed: l.line_feed,
        env_define_cnt: l.env_define_cnt,
        text_token_cnt: l.text_token_cnt,
        placeholder_token_cnt: l.placeholder_token_cnt,
        tag_token_cnt: l.tag_token_cnt,
    }
}

/// The spec-level value of a `TemplateASTable`.
pub open spec fn table_view(t: TemplateASTable) -> TableV
    decreases t,
{
    proof {
        assert forall|i: int| 0 <= i < t.syntax_lines@.len() implies decreases_to!(
            t => t.syntax_lines@[i]) by {
            assert(decreases_to!(t => t.syntax_lines));
            assert(decreases_to!(t.syntax_lines => t.syntax_lines@));
            assert(decreases_to!(t.syntax_lines@ => t.syntax_lines@[i]));
        }
    }
    TableV {
        current_line: match t.current_line {
            Some(l) => Some(line_view(l)),
            None => None,
        },
        custom_envs: t.custom_envs@,
        syntax_lines: Seq::new(
            t.syntax_lines@.len(),
            |i: int|
                if 0 <= i < t.syntax_lines@.len() {
                    line_view(t.syntax_lines@[i])
                } else {
                    arbitrary()
                },
        ),
        is_tag: t.is_tag,
        min_indent_len: t.min_indent_len,
    }
}

/// An empty line, not yet holding any token.
pub open spec fn line_new_v() -> LineV {
    LineV {
        indent: Seq::empty(),
        indent_len: 0,
        tokens: Seq::empty(),
        line_feed: None,
        env_define_cnt: 0,
        text_token_cnt: 0,
        placeholder_token_cnt: 0,
        tag_token_cnt: 0,
    }
}

/// How many visible (text, placeholder or tag) tokens the line holds.
pub open spec fn line_visible_count(l: LineV) -> int {
    l.text_token_cnt + l.placeholder_token_cnt + l.tag_token_cnt
}

/// Whether a line emits its terminator: it does unless it holds only scope
/// variable declarations.
pub open spec fn line_should_fill_line_feed(l: LineV) -> bool {
    line_visible_count(l) > 0 || l.env_define_cnt == 0
}

/// Indentation spans are ordered and each is a well-formed range.
pub open spec fn spans_wf(sp: Seq<(usize, usize)>) -> bool {
    &&& forall|i: int| 0 <= i < sp.len() ==> (#[trigger] sp[i]).0 <= sp[i].1
    &&& forall|i: int| 0 <= i && i + 1 < sp.len() ==> (#[trigger] sp[i]).1 <= sp[i + 1].0
}

/// All spans end within a template of length `tlen`.
pub open spec fn spans_in_bounds(sp: Seq<(usize, usize)>, tlen: int) -> bool {
    forall|i: int| 0 <= i < sp.len() ==> (#[trigger] sp[i]).1 <= tlen
}

/// Total length covered by a list of spans.
pub open spec fn spans_sum(sp: Seq<(usize, usize)>) -> int
    decreases sp.len(),
{
    if sp.len() == 0 {
        0
    } else {
        spans_sum(sp.drop_last()) + sp.last().1 - sp.last().0
    }
}

/// Ordered spans cover no more than up to the end of their last span.
pub proof fn lemma_spans_sum_bound(sp: Seq<(usize, usize)>)
    requires
        spans_wf(sp),
    ensures
        0 <= spans_sum(sp),
        sp.len() > 0 ==> spans_sum(sp) <= sp.last().1,
    decreases sp.len(),
{
    if sp.len() > 0 {
        let dl = sp.drop_last();
        assert(spans_wf(dl));
        lemma_spans_sum_bound(dl);
        if dl.len() > 0 {
            assert(sp[sp.len() - 2].1 <= sp[sp.len() - 1].0);
        }
    }
}

/// The text that a line's indentation spans select from the template.
pub open spec fn spans_text(t: Seq<char>, sp: Seq<(usize, usize)>) -> Seq<char>
    decreases sp.len(),
{
    if sp.len() == 0 {
        Seq::empty()
    } else {
        spans_text(t, sp.drop_last()) + t.subrange(sp.last().0 as int, sp.last().1 as int)
    }
}

/// Where the line's recorded indentation currently ends.
pub open spec fn line_last_indent_end(l: LineV) -> int {
    if l.indent.len() == 0 {
        0
    } else {
        l.indent.last().1 as int
    }
}

/// Structural well-formedness of a line: the token-kind counters add up to
/// the token count, and the indentation record is consistent.
pub open spec fn line_wf(l: LineV) -> bool {
    &&& line_visible_count(l) == l.tokens.len()
    &&& spans_wf(l.indent)
    &&& l.indent_len == spans_sum(l.indent)
}

/// A line extended by one more indentation span.
pub open spec fn line_push_indent_v(l: LineV, start: usize, end: usize) -> LineV {
    LineV {
        indent: l.indent.push((start, end)),
        indent_len: (l.indent_len + (end - start)) as usize,
        ..l
    }
}

/// The token with its context's `first_in_line` set.
pub open spec fn token_as_first_in_line(tok: TokenV) -> TokenV {
    match tok {
        TokenV::Text(c) => TokenV::Text(TokenContext { first_in_line: true, ..c }),
        TokenV::Placeholder(c) => TokenV::Placeholder(TokenContext { first_in_line: true, ..c }),
        TokenV::Tag(c, tg, tb) => TokenV::Tag(TokenContext { first_in_line: true, ..c }, tg, tb),
    }
}

/// The token with its context's `end_of_line` set.
pub open spec fn token_with_eol(tok: TokenV) -> TokenV {
    match tok {
        TokenV::Text(c) => TokenV::Text(TokenContext { end_of_line: true, ..c }),
        TokenV::Placeholder(c) => TokenV::Placeholder(TokenContext { end_of_line: true, ..c }),
        TokenV::Tag(c, tg, tb) => TokenV::Tag(TokenContext { end_of_line: true, ..c }, tg, tb),
    }
}

/// A line after receiving one token.  A text token that opens the line has
/// its leading whitespace split off into the indentation record; a fully
/// blank text token contributes only indentation and is dropped.
pub open spec fn line_push_token_v(l: LineV, t: Seq<char>, tok: TokenV) -> LineV {
    match tok {
        TokenV::Text(c) => {
            if line_visible_count(l) == 0 {
                match spec_first_non_ws(t.subrange(c.start as int, c.end as int), 0) {
                    Some(p) => {
                        let c2 = TokenContext {
                            start: (c.start + p) as usize,
                            first_in_line: true,
                            ..c
                        };
                        let l1 = if p > 0 {
                            line_push_indent_v(l, c.start, (c.start + p) as usize)
                        } else {
                            l
                        };
                        LineV {
                            tokens: l1.tokens.push(TokenV::Text(c2)),
                            text_token_cnt: (l1.text_token_cnt + 1) as usize,
                            ..l1
                        }
                    },
                    None => line_push_indent_v(l, c.start, c.end),
                }
            } else {
                LineV {
                    tokens: l.tokens.push(tok),
                    text_token_cnt: (l.text_token_cnt + 1) as usize,
                    ..l
                }
            }
        },
        TokenV::Placeholder(_) => {
            let tok2 = if line_visible_count(l) == 0 {
                token_as_first_in_line(tok)
            } else {
                tok
            };
            LineV {
                tokens: l.tokens.push(tok2),
                placeholder_token_cnt: (l.placeholder_token_cnt + 1) as usize,
                ..l
            }
        },
        TokenV::Tag(_, _, _) => {
            let tok2 = if line_visible_count(l) == 0 {
                token_as_first_in_line(tok)
            } else {
                tok
            };
            LineV { tokens: l.tokens.push(tok2), tag_token_cnt: (l.tag_token_cnt + 1) as usize, ..l }
        },
    }
}

/// What a caller must guarantee before handing `tok` to a line over template
/// text `t`.
pub open spec fn line_accepts_token(l: LineV, t: Seq<char>, tok: TokenV) -> bool {
    match tok {
        TokenV::Text(c) => line_visible_count(l) == 0 ==> c.start <= c.end <= t.len()
            && line_last_indent_end(l) <= c.start,
        _ => true,
    }
}

impl SyntaxLine {
    pub fn new() -> (r: SyntaxLine)
        ensures
            line_view(r) == line_new_v(),
            line_wf(line_view(r)),
    {
        let r = SyntaxLine {
            indent: Vec::new(),
            indent_len: 0,
            tokens: Vec::new(),
            line_feed: None,
            env_define_cnt: 0,
            text_token_cnt: 0,
            placeholder_token_cnt: 0,
            tag_token_cnt: 0,
        };
        proof {
            assert(line_view(r).tokens =~= Seq::<TokenV>::empty());
            assert(line_view(r).indent =~= Seq::<(usize, usize)>::empty());
            assert(line_view(r) =~~= line_new_v());
        }
        r
    }

    pub fn visible_token_count(&self) -> (r: usize)
        requires
            line_wf(line_view(*self)),
        ensures
            r as int == line_visible_count(line_view(*self)),
    {
        let ghost lv = line_view(*self);
        let n = self.tokens.len();
        proof {
            assert(lv.tokens.len() == n as int);
        }
        self.text_token_cnt + self.placeholder_token_cnt + self.tag_token_cnt
    }

    /// A line emits its terminator unless it holds only scope variable
    /// declarations.
    pub fn should_fill_line_feed(&self) -> (r: bool)
        requires
            line_wf(line_view(*self)),
        ensures
            r == line_should_fill_line_feed(line_view(*self)),
    {
        self.visible_token_count() > 0 || self.env_define_cnt == 0
    }

    fn push_indent(&mut self, indent_start: usize, indent_end: usize)
        requires
            line_wf(line_view(*old(self))),
            indent_start <= indent_end,
            line_last_indent_end(line_view(*old(self))) <= indent_start,
        ensures
            line_view(*final(self)) == line_push_indent_v(
                line_view(*old(self)),
                indent_start,
                indent_end,
            ),
            line_wf(line_view(*final(self))),
    {
        proof {
            lemma_spans_sum_bound(line_view(*old(self)).indent);
        }
        self.indent.push((indent_start, indent_end));
        self.indent_len = self.indent_len + (indent_end - indent_start);
        proof {
            let oldv = line_view(*old(self));
            let newv = line_view(*self);
            assert(newv.tokens =~= oldv.tokens);
            assert(newv =~= line_push_indent_v(oldv, indent_start, indent_end));
            assert(newv.indent.drop_last() =~= oldv.indent);
        }
    }

    pub fn push_token(&mut self, template_chars: &Vec<char>, token: Token)
        requires
            line_wf(line_view(*old(self))),
            line_accepts_token(line_view(*old(self)), template_chars@, token_view(token)),
        ensures
            line_view(*final(self)) == line_push_token_v(
                line_view(*old(self)),
                template_chars@,
                token_view(token),
            ),
            line_wf(line_view(*final(self))),
    {
        let ghost oldv = line_view(*old(self));
        let ghost tv = token_view(token);
        match token {
            Token::Text(mut c) => {
                let visible = self.visible_token_count();
                if visible == 0 {
                    match first_non_ws_in(template_chars, c.start, c.end) {
                        Some(p) => {
                            c.first_in_line = true;
                            if p > 0 {
                                self.push_indent(c.start, c.start + p);
                                c.start = c.start + p;
                            }
                            self.tokens.push(Token::Text(c));
                            let n = self.tokens.len();
                            self.text_token_cnt = self.text_token_cnt + 1;
                            proof {
                                assert(line_view(*self).tokens =~= line_push_token_v(
                                    oldv,
                                    template_chars@,
                                    tv,
                                ).tokens);
                                assert(line_view(*self) =~= line_push_token_v(
                                    oldv,
                                    template_chars@,
                                    tv,
                                ));
                            }
                        },
                        None => {
                            self.push_indent(c.start, c.end);
                        },
                    }
                } else {
                    self.tokens.push(Token::Text(c));
                    let n = self.tokens.len();
                    self.text_token_cnt = self.text_token_cnt + 1;
                    proof {
                        assert(line_view(*self).tokens =~= line_push_token_v(
                            oldv,
                            template_chars@,
                            tv,
                        ).tokens);
                        assert(line_view(*self) =~= line_push_token_v(oldv, template_chars@, tv));
                    }
                }
            },
            Token::Placeholder(mut c) => {
                let visible = self.visible_token_count();
                if visible == 0 {
                    c.first_in_line = true;
                }
                self.tokens.push(Token::Placeholder(c));
                let n = self.tokens.len();
                self.placeholder_token_cnt = self.placeholder_token_cnt + 1;
                proof {
                    assert(line_view(*self).tokens =~= line_push_token_v(
                        oldv,
                        template_chars@,
                        tv,
                    ).tokens);
                    assert(line_view(*self) =~= line_push_token_v(oldv, template_chars@, tv));
                }
            },
            Token::Tag(mut c, ext) => {
                let visible = self.visible_token_count();
                if visible == 0 {
                    c.first_in_line = true;
                }
                self.tokens.push(Token::Tag(c, ext));
                let n = self.tokens.len();
                self.tag_token_cnt = self.tag_token_cnt + 1;
                proof {
                    assert(line_view(*self).tokens =~= line_push_token_v(
                        oldv,
                        template_chars@,
                        tv,
                    ).tokens);
                    assert(line_view(*self) =~= line_push_token_v(oldv, template_chars@, tv));
                }
            },
        }
    }

    /// The line's recorded indentation text, if any was recorded.
    pub fn get_indent(&self, template_chars: &Vec<char>) -> (r: Option<String>)
        requires
            spans_wf(line_view(*self).indent),
            spans_in_bounds(line_view(*self).indent, template_chars@.len() as int),
        ensures
            ({
                let sp = line_view(*self).indent;
                match r {
                    Some(s) => sp.len() > 0 && s@ == spans_text(template_chars@, sp),
                    None => sp.len() == 0,
                }
            }),
    {
        let ghost sp = line_view(*self).indent;
        if self.indent.len() == 0 {
            return None;
        }
        let mut acc: Vec<char> = Vec::new();
        let mut i: usize = 0;
        while i < self.indent.len()
            invariant
                sp == self.indent@,
                spans_wf(sp),
                spans_in_bounds(sp, template_chars@.len() as int),
                i <= sp.len(),
                acc@ == spans_text(template_chars@, sp.subrange(0, i as int)),
            decreases sp.len() - i,
        {
            let (s0, e0) = self.indent[i];
            let mut piece = span_chars(template_chars, s0, e0);
            acc.append(&mut piece);
            i += 1;
            proof {
                assert(sp.subrange(0, i as int).drop_last() =~= sp.subrange(0, i - 1));
                assert(acc@ =~= spans_text(template_chars@, sp.subrange(0, i as int)));
            }
        }
        proof {
            assert(sp.subrange(0, sp.len() as int) =~= sp);
        }
        Some(string_from_chars(&acc))
    }
}

/// An empty table, open on its first line.
pub open spec fn table_new_v(is_tag: bool) -> TableV {
    TableV {
        current_line: Some(line_new_v()),
        custom_envs: Seq::empty(),
        syntax_lines: Seq::empty(),
        is_tag,
        min_indent_len: None,
    }
}

/// A table after closing its current line.  A line closed by a terminator
/// is recorded unless it is an empty first line of a block body; at finish
/// the trailing line is recorded if it holds tokens (or, outside a block,
/// trailing whitespace).  Recording marks the last token as line-final and
/// folds the line's indentation into the running minimum.
pub open spec fn table_push_line_v(tb: TableV, is_finish: bool, lf: Option<LineFeed>) -> TableV {
    match tb.current_line {
        None => tb,
        Some(cl) => {
            if (!is_finish && (tb.syntax_lines.len() > 0 || !tb.is_tag)) || cl.tokens.len() > 0
                || (is_finish && !tb.is_tag && cl.indent.len() > 0) {
                let cl1 = if cl.tokens.len() > 0 {
                    LineV {
                        tokens: cl.tokens.update(
                            cl.tokens.len() - 1,
                            token_with_eol(cl.tokens.last()),
                        ),
                        ..cl
                    }
                } else {
                    cl
                };
                let newmin = if tb.min_indent_len is None || cl.indent_len
                    < tb.min_indent_len.unwrap() {
                    Some(cl.indent_len)
                } else {
                    tb.min_indent_len
                };
                let cl2 = LineV { line_feed: lf, ..cl1 };
                TableV {
                    current_line: None,
                    syntax_lines: tb.syntax_lines.push(cl2),
                    min_indent_len: newmin,
                    ..tb
                }
            } else {
                TableV { current_line: None, ..tb }
            }
        },
    }
}

/// A table after closing its current line and opening a new one.
pub open spec fn table_new_line_v(tb: TableV, lf: Option<LineFeed>) -> TableV {
    TableV { current_line: Some(line_new_v()), ..table_push_line_v(tb, false, lf) }
}

/// A finished table: the trailing line is closed for good.
pub open spec fn table_finish_v(tb: TableV) -> TableV {
    table_push_line_v(tb, true, None)
}

/// A table after recording one scope variable declaration.
pub open spec fn table_push_env_v(tb: TableV, e: EnvDefine) -> TableV {
    match tb.current_line {
        Some(cl) => TableV {
            current_line: Some(LineV { env_define_cnt: (cl.env_define_cnt + 1) as usize, ..cl }),
            custom_envs: tb.custom_envs.push(e),
            ..tb
        },
        None => tb,
    }
}

/// A table after handing one token to its current line.
pub open spec fn table_push_token_v(tb: TableV, t: Seq<char>, tok: TokenV) -> TableV {
    match tb.current_line {
        Some(cl) => TableV { current_line: Some(line_push_token_v(cl, t, tok)), ..tb },
        None => tb,
    }
}

/// Structural well-formedness of a table: its lines are well formed and
/// `min_indent_len` is exactly the least indentation over its lines.
pub open spec fn table_wf(tb: TableV) -> bool {
    &&& match tb.current_line {
        Some(cl) => line_wf(cl) && cl.env_define_cnt <= tb.custom_envs.len(),
        None => true,
    }
    &&& forall|i: int| 0 <= i < tb.syntax_lines.len() ==> line_wf(#[trigger] tb.syntax_lines[i])
    &&& match tb.min_indent_len {
        None => tb.syntax_lines.len() == 0,
        Some(m) => {
            &&& forall|i: int|
                0 <= i < tb.syntax_lines.len() ==> m <= (#[trigger] tb.syntax_lines[i]).indent_len
            &&& exists|i: int|
                0 <= i < tb.syntax_lines.len() && (#[trigger] tb.syntax_lines[i]).indent_len == m
        },
    }
}

/// A scope declaration span lies within the template and holds an `=`.
pub open spec fn env_in_bounds(e: EnvDefine, t: Seq<char>) -> bool {
    &&& e.start <= e.end <= t.len()
    &&& crate::chars::spec_find_char(t.subrange(e.start as int, e.end as int), '=', 0) is Some
}

/// Recursive well-formedness of a token against template text `t`: its span
/// is in bounds, and a control token is a `For`/`If` whose body is itself
/// well formed.
pub open spec fn token_wf_rec(tok: TokenV, t: Seq<char>) -> bool
    decreases tok,
{
    match tok {
        TokenV::Text(c) => c.start <= c.end <= t.len(),
        TokenV::Placeholder(c) => c.start <= c.end <= t.len(),
        TokenV::Tag(c, tg, tb) => c.start <= c.end <= t.len() && (tg is For || tg is If)
            && table_wf(tb) && table_wf_rec(tb, t),
    }
}

/// Recursive well-formedness of a line against template text `t`.
pub open spec fn line_wf_rec(l: LineV, t: Seq<char>) -> bool
    decreases l,
{
    &&& spans_in_bounds(l.indent, t.len() as int)
    &&& forall|i: int| 0 <= i < l.tokens.len() ==> token_wf_rec(#[trigger] l.tokens[i], t)
}

/// Recursive well-formedness of a table against template text `t`: the flat
/// invariant holds and every line, token and declaration is in bounds, down
/// through nested block bodies.
pub open spec fn table_wf_rec(tb: TableV, t: Seq<char>) -> bool
    decreases tb,
{
    &&& match tb.current_line {
        Some(cl) => line_wf_rec(cl, t),
        None => true,
    }
    &&& forall|i: int| 0 <= i < tb.syntax_lines.len() ==> line_wf_rec(#[trigger] tb.syntax_lines[i], t)
    &&& forall|i: int| 0 <= i < tb.custom_envs.len() ==> env_in_bounds(#[trigger] tb.custom_envs[i], t)
}

/// The context flags of a token do not affect its recursive well-formedness.
pub proof fn lemma_token_wf_rec_flags(tok: TokenV, t: Seq<char>)
    ensures
        token_wf_rec(token_as_first_in_line(tok), t) == token_wf_rec(tok, t),
        token_wf_rec(token_with_eol(tok), t) == token_wf_rec(tok, t),
{
}

/// Receiving an in-bounds token keeps a table recursively well formed, and
/// its recorded indentation never ends later than the token does.
pub proof fn lemma_wf_rec_push_token(tb: TableV, t: Seq<char>, tok: TokenV)
    requires
        table_wf_rec(tb, t),
        token_wf_rec(tok, t),
        tb.current_line is Some,
        line_accepts_token(tb.current_line.unwrap(), t, tok),
    ensures
        table_wf_rec(table_push_token_v(tb, t, tok), t),
        ({
            let cl2 = table_push_token_v(tb, t, tok).current_line.unwrap();
            line_last_indent_end(cl2) <= line_last_indent_end(tb.current_line.unwrap())
                || line_last_indent_end(cl2) <= token_ctx_span_end(tok)
        }),
        !(tok is Text) ==> line_last_indent_end(
            table_push_token_v(tb, t, tok).current_line.unwrap(),
        ) == line_last_indent_end(tb.current_line.unwrap()),
{
    let cl = tb.current_line.unwrap();
    let cl2 = line_push_token_v(cl, t, tok);
    match tok {
        TokenV::Text(c) => {
            if line_visible_count(cl) == 0 {
                let sub = t.subrange(c.start as int, c.end as int);
                crate::chars::lemma_first_non_ws_char(sub, 0);
                match spec_first_non_ws(sub, 0) {
                    Some(p) => {
                        let c2 = TokenContext { start: (c.start + p) as usize, first_in_line: true, ..c };
                        let l1 = if p > 0 { line_push_indent_v(cl, c.start, (c.start + p) as usize) } else { cl };
                        assert(spans_in_bounds(l1.indent, t.len() as int));
                        assert forall|i: int| 0 <= i < cl2.tokens.len() implies token_wf_rec(
                            #[trigger] cl2.tokens[i], t) by {
                            if i < l1.tokens.len() {
                                assert(cl2.tokens[i] == cl.tokens[i]);
                            } else {
                                assert(cl2.tokens[i] == TokenV::Text(c2));
                            }
                        }
                        assert(line_wf_rec(cl2, t));
                    },
                    None => {
                        assert(spans_in_bounds(cl2.indent, t.len() as int));
                        assert(line_wf_rec(cl2, t));
                    },
                }
            } else {
                assert forall|i: int| 0 <= i < cl2.tokens.len() implies token_wf_rec(
                    #[trigger] cl2.tokens[i], t) by {
                    if i < cl.tokens.len() {
                        assert(cl2.tokens[i] == cl.tokens[i]);
                    }
                }
                assert(line_wf_rec(cl2, t));
            }
        },
        TokenV::Placeholder(_) => {
            lemma_token_wf_rec_flags(tok, t);
            assert forall|i: int| 0 <= i < cl2.tokens.len() implies token_wf_rec(
                #[trigger] cl2.tokens[i], t) by {
                if i < cl.tokens.len() {
                    assert(cl2.tokens[i] == cl.tokens[i]);
                }
            }
            assert(line_wf_rec(cl2, t));
        },
        TokenV::Tag(_, _, _) => {
            lemma_token_wf_rec_flags(tok, t);
            assert forall|i: int| 0 <= i < cl2.tokens.len() implies token_wf_rec(
                #[trigger] cl2.tokens[i], t) by {
                if i < cl.tokens.len() {
                    assert(cl2.tokens[i] == cl.tokens[i]);
                }
            }
            assert(line_wf_rec(cl2, t));
        },
    }
}

/// The character span covered by a token.
pub open spec fn token_ctx_span_end(tok: TokenV) -> int {
    match tok {
        TokenV::Text(c) => c.end as int,
        TokenV::Placeholder(c) => c.end as int,
        TokenV::Tag(c, _, _) => c.end as int,
    }
}

/// Recording a declaration keeps a table recursively well formed.
pub proof fn lemma_wf_rec_push_env(tb: TableV, t: Seq<char>, e: EnvDefine)
    requires
        table_wf_rec(tb, t),
        env_in_bounds(e, t),
        tb.current_line is Some,
    ensures
        table_wf_rec(table_push_env_v(tb, e), t),
{
}

/// Closing the current line keeps a table recursively well formed.
pub proof fn lemma_wf_rec_push_line(tb: TableV, t: Seq<char>, is_finish: bool, lf: Option<
    LineFeed,
>)
    requires
        table_wf_rec(tb, t),
    ensures
        table_wf_rec(table_push_line_v(tb, is_finish, lf), t),
{
    match tb.current_line {
        None => {},
        Some(cl) => {
            if (!is_finish && (tb.syntax_lines.len() > 0 || !tb.is_tag)) || cl.tokens.len() > 0
                || (is_finish && !tb.is_tag && cl.indent.len() > 0) {
                let cl1 = if cl.tokens.len() > 0 {
                    LineV {
                        tokens: cl.tokens.update(
                            cl.tokens.len() - 1,
                            token_with_eol(cl.tokens.last()),
                        ),
                        ..cl
                    }
                } else {
                    cl
                };
                let cl2 = LineV { line_feed: lf, ..cl1 };
                assert forall|i: int| 0 <= i < cl2.tokens.len() implies token_wf_rec(
                    #[trigger] cl2.tokens[i],
                    t,
                ) by {
                    if i == cl.tokens.len() - 1 {
                        lemma_token_wf_rec_flags(cl.tokens.last(), t);
                    }
                }
                assert(line_wf_rec(cl2, t));
                let tb2 = table_push_line_v(tb, is_finish, lf);
                assert forall|i: int| 0 <= i < tb2.syntax_lines.len() implies line_wf_rec(
                    #[trigger] tb2.syntax_lines[i], t) by {
                    if i < tb.syntax_lines.len() {
                        assert(tb2.syntax_lines[i] == tb.syntax_lines[i]);
                    } else {
                        assert(tb2.syntax_lines[i] == cl2);
                    }
                }
            }
        },
    }
}

/// Opening a new line keeps a table recursively well formed.
pub proof fn lemma_wf_rec_new_line(tb: TableV, t: Seq<char>, lf: Option<LineFeed>)
    requires
        table_wf_rec(tb, t),
    ensures
        table_wf_rec(table_new_line_v(tb, lf), t),
        table_new_line_v(tb, lf).current_line == Some(line_new_v()),
{
    lemma_wf_rec_push_line(tb, t, false, lf);
}

/// Closing the current line keeps the flat table invariant.
#[verifier::rlimit(100)]
#[verifier::spinoff_prover]
pub proof fn lemma_table_wf_push_line(tb: TableV, is_finish: bool, lf: Option<LineFeed>)
    requires
        table_wf(tb),
    ensures
        table_wf(table_push_line_v(tb, is_finish, lf)),
{
    match tb.current_line {
        None => {},
        Some(cl) => {
            if (!is_finish && (tb.syntax_lines.len() > 0 || !tb.is_tag)) || cl.tokens.len() > 0
                || (is_finish && !tb.is_tag && cl.indent.len() > 0) {
                let cl1 = if cl.tokens.len() > 0 {
                    LineV {
                        tokens: cl.tokens.update(
                            cl.tokens.len() - 1,
                            token_with_eol(cl.tokens.last()),
                        ),
                        ..cl
                    }
                } else {
                    cl
                };
                let cl2 = LineV { line_feed: lf, ..cl1 };
                assert(line_wf(cl2));
                let tb2 = table_push_line_v(tb, is_finish, lf);
                assert forall|i: int| 0 <= i < tb2.syntax_lines.len() implies line_wf(
                    #[trigger] tb2.syntax_lines[i],
                ) by {
                    if i < tb.syntax_lines.len() {
                        assert(tb2.syntax_lines[i] == tb.syntax_lines[i]);
                    } else {
                        assert(tb2.syntax_lines[i] == cl2);
                    }
                }
                match tb2.min_indent_len {
                    None => {
                        assert(false);
                    },
                    Some(m) => {
                        assert forall|i: int|
                            0 <= i < tb2.syntax_lines.len() implies m <= (
                        #[trigger] tb2.syntax_lines[i]).indent_len by {
                            if i < tb.syntax_lines.len() {
                                assert(tb2.syntax_lines[i] == tb.syntax_lines[i]);
                            } else {
                                assert(tb2.syntax_lines[i] == cl2);
                            }
                        }
                        if tb.min_indent_len is None || cl.indent_len < tb.min_indent_len.unwrap() {
                            assert(tb2.syntax_lines[tb2.syntax_lines.len() - 1].indent_len == m);
                        } else {
                            let wi = choose|i: int|
                                0 <= i < tb.syntax_lines.len() && (#[trigger] tb.syntax_lines[i]).indent_len
                                    == m;
                            assert(tb2.syntax_lines[wi] == tb.syntax_lines[wi]);
                        }
                    },
                }
            }
        },
    }
}

/// Finishing keeps the flat table invariant.
pub proof fn lemma_table_wf_finish(tb: TableV)
    requires
        table_wf(tb),
    ensures
        table_wf(table_finish_v(tb)),
{
    lemma_table_wf_push_line(tb, true, None);
}

/// Finishing keeps a table recursively well formed.
pub proof fn lemma_wf_rec_finish(tb: TableV, t: Seq<char>)
    requires
        table_wf_rec(tb, t),
    ensures
        table_wf_rec(table_finish_v(tb), t),
{
    lemma_wf_rec_push_line(tb, t, true, None);
}

impl TemplateASTable {
    pub fn new(is_tag: bool) -> (r: Self)
        ensures
            table_view(r) == table_new_v(is_tag),
            table_wf(table_view(r)),
    {
        let mut sf = TemplateASTable {
            current_line: None,
            custom_envs: Vec::new(),
            syntax_lines: Vec::new(),
            is_tag,
            min_indent_len: None,
        };
        proof {
            assert(table_view(sf).syntax_lines =~= Seq::<LineV>::empty());
            assert(table_wf(table_view(sf)));
        }
        sf.new_line(None);
        proof {
            assert(table_view(sf) =~~= table_new_v(is_tag));
        }
        sf
    }

    pub fn push_env(&mut self, env_define: EnvDefine)
        requires
            table_wf(table_view(*old(self))),
            table_view(*old(self)).current_line is Some,
        ensures
            table_view(*final(self)) == table_push_env_v(table_view(*old(self)), env_define),
            table_wf(table_view(*final(self))),
    {
        let ghost oldv = table_view(*old(self));
        self.custom_envs.push(env_define);
        let n = self.custom_envs.len();
        let mut cur: Option<SyntaxLine> = None;
        core::mem::swap(&mut cur, &mut self.current_line);
        match cur {
            Some(mut line) => {
                line.env_define_cnt = line.env_define_cnt + 1;
                self.current_line = Some(line);
                proof {
                    assert(table_view(*self).syntax_lines =~= oldv.syntax_lines);
                    assert(table_view(*self).current_line.unwrap().tokens
                        =~= oldv.current_line.unwrap().tokens);
                    assert(table_view(*self) =~~= table_push_env_v(oldv, env_define));
                }
            },
            None => {
                proof {
                    assert(false);
                }
            },
        }
    }

    /// Close the line that just ended (recording its terminator) and start a
    /// new one.
    pub fn new_line(&mut self, current_line_line_feed: Option<LineFeed>)
        requires
            table_wf(table_view(*old(self))),
        ensures
            table_view(*final(self)) == table_new_line_v(table_view(*old(self)), current_line_line_feed),
            table_wf(table_view(*final(self))),
    {
        self.push_line(false, current_line_line_feed);
        let ghost mid = table_view(*self);
        self.current_line = Some(SyntaxLine::new());
        proof {
            assert(table_view(*self).syntax_lines =~= mid.syntax_lines);
            assert(table_view(*self).current_line == Some(line_new_v()));
            assert(table_view(*self) =~~= table_new_line_v(
                table_view(*old(self)),
                current_line_line_feed,
            ));
        }
    }

    /// Close the trailing line; the table is complete.
    pub fn finish_build(&mut self)
        requires
            table_wf(table_view(*old(self))),
        ensures
            table_view(*final(self)) == table_finish_v(table_view(*old(self))),
            table_wf(table_view(*final(self))),
    {
        self.push_line(true, None)
    }

    fn push_line(&mut self, is_finish: bool, current_line_line_feed: Option<LineFeed>)
        requires
            table_wf(table_view(*old(self))),
        ensures
            table_view(*final(self)) == table_push_line_v(
                table_view(*old(self)),
                is_finish,
                current_line_line_feed,
            ),
            table_wf(table_view(*final(self))),
    {
        let ghost oldv = table_view(*old(self));
        let mut cur: Option<SyntaxLine> = None;
        core::mem::swap(&mut cur, &mut self.current_line);
        match cur {
            None => {
                proof {
                    assert(table_view(*self) =~~= table_push_line_v(
                        oldv,
                        is_finish,
                        current_line_line_feed,
                    ));
                }
            },
            Some(mut current_line) => {
                let ghost clv = line_view(current_line);
                if (!is_finish && (self.syntax_lines.len() > 0 || !self.is_tag))
                    || current_line.tokens.len() > 0 || (is_finish && !self.is_tag
                    && current_line.indent.len() > 0) {
                    if current_line.tokens.len() > 0 {
                        match current_line.tokens.pop() {
                            Some(tok) => {
                                let tok2 = match tok {
                                    Token::Text(mut c) => {
                                        c.end_of_line = true;
                                        Token::Text(c)
                                    },
                                    Token::Placeholder(mut c) => {
                                        c.end_of_line = true;
                                        Token::Placeholder(c)
                                    },
                                    Token::Tag(mut c, ext) => {
                                        c.end_of_line = true;
                                        Token::Tag(c, ext)
                                    },
                                };
                                current_line.tokens.push(tok2);
                                proof {
                                    assert(line_view(current_line).tokens =~= clv.tokens.update(
                                        clv.tokens.len() - 1,
                                        token_with_eol(clv.tokens.last()),
                                    ));
                                }
                            },
                            None => {
                                proof {
                                    assert(false);
                                }
                            },
                        }
                    }
                    let need_min = match self.min_indent_len {
                        None => true,
                        Some(m) => current_line.indent_len < m,
                    };
                    if need_min {
                        self.min_indent_len = Some(current_line.indent_len);
                    }
                    current_line.line_feed = current_line_line_feed;
                    let ghost clv2 = line_view(current_line);
                    self.syntax_lines.push(current_line);
                    proof {
                        let spec = table_push_line_v(oldv, is_finish, current_line_line_feed);
                        assert(clv2.tokens =~= spec.syntax_lines.last().tokens);
                        assert(clv2 =~~= spec.syntax_lines.last());
                        assert forall|i: int|
                            0 <= i < oldv.syntax_lines.len() implies table_view(
                            *self,
                        ).syntax_lines[i] == oldv.syntax_lines[i] by {
                            assert(self.syntax_lines@[i] == old(self).syntax_lines@[i]);
                        }
                        assert(table_view(*self).syntax_lines.last() == clv2);
                        assert(table_view(*self).syntax_lines =~~= spec.syntax_lines);
                        assert(table_view(*self) =~~= spec);
                    }
                } else {
                    proof {
                        assert(table_view(*self) =~~= table_push_line_v(
                            oldv,
                            is_finish,
                            current_line_line_feed,
                        ));
                    }
                }
            },
        }
    }

    pub fn push_token(&mut self, template_chars: &Vec<char>, token: Token)
        requires
            table_wf(table_view(*old(self))),
            table_view(*old(self)).current_line is Some,
            line_accepts_token(
                table_view(*old(self)).current_line.unwrap(),
                template_chars@,
                token_view(token),
            ),
        ensures
            table_view(*final(self)) == table_push_token_v(
                table_view(*old(self)),
                template_chars@,
                token_view(token),
            ),
            table_wf(table_view(*final(self))),
    {
        let ghost oldv = table_view(*old(self));
        let ghost tv = token_view(token);
        let mut cur: Option<SyntaxLine> = None;
        core::mem::swap(&mut cur, &mut self.current_line);
        match cur {
            Some(mut line) => {
                line.push_token(template_chars, token);
                self.current_line = Some(line);
                proof {
                    assert(table_view(*self).syntax_lines =~= oldv.syntax_lines);
                    assert(table_view(*self) =~~= table_push_token_v(oldv, template_chars@, tv));
                }
            },
            None => {
                proof {
                    assert(false);
                }
            },
        }
    }
}

} // verus!
