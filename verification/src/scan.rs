//! The byte scanner and AST builder driver: one left-to-right pass over the
//! template's characters, recognizing delimiter pairs and line breaks and
//! feeding tokens to the table of the innermost open control block.

use crate::ast::EnvDefine;
use crate::ast::LineFeed;
use crate::ast::TableV;
use crate::ast::TagV;
use crate::ast::TemplateASTable;
use crate::ast::Token;
use crate::ast::TokenContext;
use crate::ast::TokenV;
use crate::ast::line_accepts_token;
use crate::ast::line_last_indent_end;
use crate::ast::table_new_line_v;
use crate::ast::table_new_v;
use crate::ast::table_push_env_v;
use crate::ast::table_push_token_v;
use crate::ast::table_finish_v;
use crate::ast::table_view;
use crate::ast::table_wf;
use crate::ast::table_wf_rec;
use crate::ast::token_view;
use crate::ast::token_wf_rec;
use crate::ast::env_in_bounds;
use crate::ast::lemma_wf_rec_push_token;
use crate::ast::lemma_wf_rec_push_env;
use crate::ast::lemma_wf_rec_new_line;
use crate::ast::lemma_wf_rec_finish;
use crate::ast::token_ctx_span_end;
use crate::chars::spec_find_char;
use crate::grammar::ParseError;
use crate::grammar::tag_grammar_spec;
use vstd::prelude::*;

verus! {

/// The kind of delimiter waiting for its closing pair.
#[derive(Debug, Clone, Copy, PartialEq, Eq, Structural)]
pub enum Symbol {
    /// `{% ... %}`
    Logical,
    /// `{$ ... $}`
    Env,
    /// `{{ ... }}`
    Placeholder,
    /// `{# ... #}`
    Raw,
}

/// The scanner's running state: the position where unconsumed text begins,
/// the root table, the raw-region flag and the two stacks — open delimiters
/// and open control-block tokens.
pub struct GenerateTokensContext {
    pub last_start_pos: usize,
    pub template_ast: TemplateASTable,
    pub now_in_raw: bool,
    pub head_symbol_stack: Vec<(Symbol, usize)>,
    pub tag_token_stack: Vec<Token>,
}

/// The spec-level value of the scanner state.
#[verifier::ext_equal]
pub ghost struct CtxV {
    pub last_start_pos: usize,
    pub template_ast: TableV,
    pub now_in_raw: bool,
    pub head_symbol_stack: Seq<(Symbol, usize)>,
    pub tag_token_stack: Seq<TokenV>,
}

/// The spec-level value of a `GenerateTokensContext`.
pub open spec fn ctx_view(c: GenerateTokensContext) -> CtxV {
    CtxV {
        last_start_pos: c.last_start_pos,
        template_ast: table_view(c.template_ast),
        now_in_raw: c.now_in_raw,
        head_symbol_stack: c.head_symbol_stack@,
        tag_token_stack: Seq::new(
            c.tag_token_stack@.len(),
            |i: int|
                if 0 <= i < c.tag_token_stack@.len() {
                    token_view(c.tag_token_stack@[i])
                } else {
                    TokenV::Text(arbitrary())
                },
        ),
    }
}

/// Whether a control block is open.
pub open spec fn in_tag_v(v: CtxV) -> bool {
    v.tag_token_stack.len() > 0
}

/// The body table of an open control-block token.
pub open spec fn tag_sub_table(tok: TokenV) -> TableV {
    match tok {
        TokenV::Tag(_, _, tb) => tb,
        _ => arbitrary(),
    }
}

/// The open control-block token with its body table replaced.
pub open spec fn tag_with_sub(tok: TokenV, tb: TableV) -> TokenV {
    match tok {
        TokenV::Tag(c, tg, _) => TokenV::Tag(c, tg, tb),
        _ => tok,
    }
}

/// The table currently receiving tokens: the innermost open block's body,
/// or the root table.
pub open spec fn ctx_target_table(v: CtxV) -> TableV {
    if in_tag_v(v) {
        tag_sub_table(v.tag_token_stack.last())
    } else {
        v.template_ast
    }
}

/// The state with the target table replaced.
pub open spec fn ctx_with_target(v: CtxV, tb: TableV) -> CtxV {
    if in_tag_v(v) {
        CtxV {
            tag_token_stack: v.tag_token_stack.update(
                v.tag_token_stack.len() - 1,
                tag_with_sub(v.tag_token_stack.last(), tb),
            ),
            ..v
        }
    } else {
        CtxV { template_ast: tb, ..v }
    }
}

/// The state after recording a scope declaration.
pub open spec fn ctx_push_env_v(v: CtxV, e: EnvDefine) -> CtxV {
    ctx_with_target(v, table_push_env_v(ctx_target_table(v), e))
}

/// A tag token handed to an open block has its own body finished first.
pub open spec fn token_finished(tok: TokenV) -> TokenV {
    match tok {
        TokenV::Tag(c, tg, tb) => TokenV::Tag(c, tg, table_finish_v(tb)),
        _ => tok,
    }
}

/// The state after handing one token to the target table.
pub open spec fn ctx_push_token_v(v: CtxV, t: Seq<char>, tok: TokenV) -> CtxV {
    if in_tag_v(v) {
        ctx_with_target(v, table_push_token_v(ctx_target_table(v), t, token_finished(tok)))
    } else {
        ctx_with_target(v, table_push_token_v(ctx_target_table(v), t, tok))
    }
}

/// The state after a line break in the target table.
pub open spec fn ctx_new_line_v(v: CtxV, lf: Option<LineFeed>) -> CtxV {
    ctx_with_target(v, table_new_line_v(ctx_target_table(v), lf))
}

/// An entry of the open-block stack: a `For`/`If` token whose body is still
/// being built.
pub open spec fn stack_entry_open(tok: TokenV) -> bool {
    match tok {
        TokenV::Tag(c, tg, tb) => (tg is For || tg is If) && tb.current_line is Some && table_wf(
            tb,
        ),
        _ => false,
    }
}

/// The structural invariant of the scanner state.
pub open spec fn ctx_wf(v: CtxV) -> bool {
    &&& table_wf(v.template_ast)
    &&& v.template_ast.current_line is Some
    &&& forall|i: int|
        0 <= i < v.tag_token_stack.len() ==> stack_entry_open(#[trigger] v.tag_token_stack[i])
}

/// Recursive well-formedness of every table in the state against `t`.
pub open spec fn ctx_wf_rec(v: CtxV, t: Seq<char>) -> bool {
    &&& table_wf_rec(v.template_ast, t)
    &&& forall|i: int|
        0 <= i < v.tag_token_stack.len() ==> token_wf_rec(#[trigger] v.tag_token_stack[i], t)
}

/// All open lines' recorded indentation ends at or before `b`.
pub open spec fn ctx_indent_bound(v: CtxV, b: int) -> bool {
    &&& (match v.template_ast.current_line {
        Some(cl) => line_last_indent_end(cl) <= b,
        None => true,
    })
    &&& forall|i: int|
        0 <= i < v.tag_token_stack.len() ==> (match tag_sub_table(
            #[trigger] v.tag_token_stack[i],
        ).current_line {
            Some(cl) => line_last_indent_end(cl) <= b,
            None => true,
        })
}

/// What a caller must guarantee before handing `tok` to the scanner state.
pub open spec fn ctx_accepts_token(v: CtxV, t: Seq<char>, tok: TokenV) -> bool {
    match ctx_target_table(v).current_line {
        Some(cl) => line_accepts_token(cl, t, tok),
        None => false,
    }
}

/// A text token over `[start, end)`, as the scanner builds it.
pub open spec fn text_tok(start: int, end: int, in_tag: bool) -> TokenV {
    TokenV::Text(
        TokenContext {
            start: start as usize,
            end: end as usize,
            in_tag,
            first_in_line: false,
            end_of_line: false,
        },
    )
}

/// The scanner state before the first character.
pub open spec fn ctx_new_v() -> CtxV {
    CtxV {
        last_start_pos: 0,
        template_ast: table_new_v(false),
        now_in_raw: false,
        head_symbol_stack: Seq::empty(),
        tag_token_stack: Seq::empty(),
    }
}

/// Pending literal text, if any, handed to the target table.
pub open spec fn flush_text_v(v: CtxV, t: Seq<char>, i: int) -> CtxV {
    if v.last_start_pos < i {
        ctx_push_token_v(v, t, text_tok(v.last_start_pos as int, i, in_tag_v(v)))
    } else {
        v
    }
}

/// Handing a well-formed token to the state keeps every table well formed,
/// and moves no recorded indentation past the token's end.
#[verifier::rlimit(100)]
#[verifier::spinoff_prover]
pub proof fn lemma_ctx_push_token_wf(v: CtxV, t: Seq<char>, tok: TokenV)
    requires
        ctx_wf(v),
        ctx_wf_rec(v, t),
        token_wf_rec(tok, t),
        ctx_accepts_token(v, t, tok),
        ctx_wf(ctx_push_token_v(v, t, tok)),
    ensures
        ctx_wf_rec(ctx_push_token_v(v, t, tok), t),
        forall|b: int|
            ctx_indent_bound(v, b) && token_ctx_span_end(tok) <= b ==> ctx_indent_bound(
                #[trigger] ctx_push_token_v(v, t, tok),
                b,
            ),
        !(tok is Text) ==> forall|b: int|
            ctx_indent_bound(v, b) ==> ctx_indent_bound(#[trigger] ctx_push_token_v(v, t, tok), b),
{
    let tok2 = if in_tag_v(v) {
        token_finished(tok)
    } else {
        tok
    };
    let target = ctx_target_table(v);
    let v2 = ctx_push_token_v(v, t, tok);
    if in_tag_v(v) {
        let n = v.tag_token_stack.len();
        assert(stack_entry_open(v.tag_token_stack[n - 1]));
        assert(token_wf_rec(v.tag_token_stack[n - 1], t));
        match tok {
            TokenV::Tag(c, tg, tb) => {
                lemma_wf_rec_finish(tb, t);
                crate::ast::lemma_table_wf_finish(tb);
            },
            _ => {},
        }
        lemma_wf_rec_push_token(target, t, tok2);
        assert forall|i: int| 0 <= i < v2.tag_token_stack.len() implies token_wf_rec(
            #[trigger] v2.tag_token_stack[i],
            t,
        ) by {
            if i < n - 1 {
                assert(v2.tag_token_stack[i] == v.tag_token_stack[i]);
            } else {
                assert(stack_entry_open(v2.tag_token_stack[i]));
            }
        }
        assert forall|b: int|
            ctx_indent_bound(v, b) && token_ctx_span_end(tok) <= b implies ctx_indent_bound(
            v2,
            b,
        ) by {
            assert forall|i: int|
                0 <= i < v2.tag_token_stack.len() implies (match tag_sub_table(
                #[trigger] v2.tag_token_stack[i],
            ).current_line {
                Some(cl) => line_last_indent_end(cl) <= b,
                None => true,
            }) by {
                if i < n - 1 {
                    assert(v2.tag_token_stack[i] == v.tag_token_stack[i]);
                }
            }
        }
    } else {
        lemma_wf_rec_push_token(target, t, tok2);
    }
    if !(tok is Text) {
        let v2 = ctx_push_token_v(v, t, tok);
        assert forall|b: int| ctx_indent_bound(v, b) implies ctx_indent_bound(v2, b) by {
            if in_tag_v(v) {
                let n = v.tag_token_stack.len();
                assert forall|i: int|
                    0 <= i < v2.tag_token_stack.len() implies (match tag_sub_table(
                    #[trigger] v2.tag_token_stack[i],
                ).current_line {
                    Some(cl) => line_last_indent_end(cl) <= b,
                    None => true,
                }) by {
                    if i < n - 1 {
                        assert(v2.tag_token_stack[i] == v.tag_token_stack[i]);
                    }
                }
            }
        }
    }
}

/// Recording an in-bounds declaration keeps every table well formed.
#[verifier::rlimit(100)]
#[verifier::spinoff_prover]
pub proof fn lemma_ctx_push_env_wf(v: CtxV, t: Seq<char>, e: EnvDefine)
    requires
        ctx_wf(v),
        ctx_wf_rec(v, t),
        env_in_bounds(e, t),
        ctx_target_table(v).current_line is Some,
        ctx_wf(ctx_push_env_v(v, e)),
    ensures
        ctx_wf_rec(ctx_push_env_v(v, e), t),
        forall|b: int|
            ctx_indent_bound(v, b) ==> ctx_indent_bound(#[trigger] ctx_push_env_v(v, e), b),
{
    let target = ctx_target_table(v);
    let v2 = ctx_push_env_v(v, e);
    if in_tag_v(v) {
        let n = v.tag_token_stack.len();
        assert(stack_entry_open(v.tag_token_stack[n - 1]));
        assert(token_wf_rec(v.tag_token_stack[n - 1], t));
        lemma_wf_rec_push_env(target, t, e);
        assert forall|i: int| 0 <= i < v2.tag_token_stack.len() implies token_wf_rec(
            #[trigger] v2.tag_token_stack[i],
            t,
        ) by {
            if i < n - 1 {
                assert(v2.tag_token_stack[i] == v.tag_token_stack[i]);
            } else {
                assert(stack_entry_open(v2.tag_token_stack[i]));
            }
        }
        assert forall|b: int| ctx_indent_bound(v, b) implies ctx_indent_bound(v2, b) by {
            assert forall|i: int|
                0 <= i < v2.tag_token_stack.len() implies (match tag_sub_table(
                #[trigger] v2.tag_token_stack[i],
            ).current_line {
                Some(cl) => line_last_indent_end(cl) <= b,
                None => true,
            }) by {
                if i < n - 1 {
                    assert(v2.tag_token_stack[i] == v.tag_token_stack[i]);
                }
            }
        }
    } else {
        lemma_wf_rec_push_env(target, t, e);
    }
}

/// Breaking the line keeps every table well formed, and the fresh line has
/// no recorded indentation yet.
#[verifier::rlimit(100)]
#[verifier::spinoff_prover]
pub proof fn lemma_ctx_new_line_wf(v: CtxV, t: Seq<char>, lf: Option<LineFeed>)
    requires
        ctx_wf(v),
        ctx_wf_rec(v, t),
        ctx_wf(ctx_new_line_v(v, lf)),
    ensures
        ctx_wf_rec(ctx_new_line_v(v, lf), t),
        forall|b: int|
            ctx_indent_bound(v, b) && b >= 0 ==> ctx_indent_bound(
                #[trigger] ctx_new_line_v(v, lf),
                b,
            ),
{
    let target = ctx_target_table(v);
    let v2 = ctx_new_line_v(v, lf);
    if in_tag_v(v) {
        let n = v.tag_token_stack.len();
        assert(stack_entry_open(v.tag_token_stack[n - 1]));
        assert(token_wf_rec(v.tag_token_stack[n - 1], t));
        lemma_wf_rec_new_line(target, t, lf);
        assert forall|i: int| 0 <= i < v2.tag_token_stack.len() implies token_wf_rec(
            #[trigger] v2.tag_token_stack[i],
            t,
        ) by {
            if i < n - 1 {
                assert(v2.tag_token_stack[i] == v.tag_token_stack[i]);
            } else {
                assert(stack_entry_open(v2.tag_token_stack[i]));
            }
        }
        assert forall|b: int| ctx_indent_bound(v, b) && b >= 0 implies ctx_indent_bound(v2, b) by {
            assert forall|i: int|
                0 <= i < v2.tag_token_stack.len() implies (match tag_sub_table(
                #[trigger] v2.tag_token_stack[i],
            ).current_line {
                Some(cl) => line_last_indent_end(cl) <= b,
                None => true,
            }) by {
                if i < n - 1 {
                    assert(v2.tag_token_stack[i] == v.tag_token_stack[i]);
                }
            }
        }
    } else {
        lemma_wf_rec_new_line(target, t, lf);
    }
}

impl GenerateTokensContext {
    /// A fresh scanner state over an empty root table.
    pub fn new() -> (r: Self)
        ensures
            ctx_view(r) == (CtxV {
                last_start_pos: 0,
                template_ast: table_new_v(false),
                now_in_raw: false,
                head_symbol_stack: Seq::empty(),
                tag_token_stack: Seq::empty(),
            }),
            ctx_wf(ctx_view(r)),
    {
        let r = GenerateTokensContext {
            last_start_pos: 0,
            template_ast: TemplateASTable::new(false),
            now_in_raw: false,
            head_symbol_stack: Vec::new(),
            tag_token_stack: Vec::new(),
        };
        proof {
            assert(ctx_view(r) =~~= (CtxV {
                last_start_pos: 0,
                template_ast: table_new_v(false),
                now_in_raw: false,
                head_symbol_stack: Seq::empty(),
                tag_token_stack: Seq::empty(),
            }));
        }
        r
    }

    /// Whether a control block is open.
    pub fn now_in_tag(&self) -> (r: bool)
        ensures
            r == in_tag_v(ctx_view(*self)),
    {
        !self.tag_token_stack.is_empty()
    }

    /// Record a scope declaration in the innermost open block, or the root.
    #[verifier::rlimit(50)]
    pub fn push_env(&mut self, env: EnvDefine)
        requires
            ctx_wf(ctx_view(*old(self))),
        ensures
            ctx_view(*final(self)) == ctx_push_env_v(ctx_view(*old(self)), env),
            ctx_wf(ctx_view(*final(self))),
    {
        let ghost oldv = ctx_view(*old(self));
        if !self.tag_token_stack.is_empty() {
            match self.tag_token_stack.pop() {
                Some(top) => {
                    let ghost topv = token_view(top);
                    match top {
                        Token::Tag(c, mut ext) => {
                            ext.sub_ast.push_env(env);
                            self.tag_token_stack.push(Token::Tag(c, ext));
                            proof {
                                assert(ctx_view(*self).tag_token_stack =~= oldv.tag_token_stack
                                    .update(
                                    oldv.tag_token_stack.len() - 1,
                                    tag_with_sub(
                                        oldv.tag_token_stack.last(),
                                        table_push_env_v(tag_sub_table(topv), env),
                                    ),
                                ));
                                assert(ctx_view(*self) =~~= ctx_push_env_v(oldv, env));
                            }
                        },
                        _ => {
                            proof {
                                assert(stack_entry_open(
                                    oldv.tag_token_stack[oldv.tag_token_stack.len() - 1],
                                ));
                                assert(false);
                            }
                        },
                    }
                },
                None => {
                    proof {
                        assert(false);
                    }
                },
            }
        } else {
            self.template_ast.push_env(env);
            proof {
                assert(ctx_view(*self).tag_token_stack =~= oldv.tag_token_stack);
                assert(ctx_view(*self) =~~= ctx_push_env_v(oldv, env));
            }
        }
    }

    /// Hand one token to the innermost open block's body, or the root table.
    /// A control token being handed over has its own body finished first.
    #[verifier::rlimit(100)]
    pub fn push_token(&mut self, template_chars: &Vec<char>, token: Token)
        requires
            ctx_wf(ctx_view(*old(self))),
            ctx_accepts_token(ctx_view(*old(self)), template_chars@, token_view(token)),
            (match token_view(token) {
                TokenV::Tag(_, _, tb) => table_wf(tb),
                _ => true,
            }),
        ensures
            ctx_view(*final(self)) == ctx_push_token_v(
                ctx_view(*old(self)),
                template_chars@,
                token_view(token),
            ),
            ctx_wf(ctx_view(*final(self))),
    {
        let ghost oldv = ctx_view(*old(self));
        let ghost tv = token_view(token);
        if !self.tag_token_stack.is_empty() {
            let token2 = match token {
                Token::Tag(c2, mut ext2) => {
                    ext2.sub_ast.finish_build();
                    Token::Tag(c2, ext2)
                },
                other => other,
            };
            proof {
                assert(token_view(token2) == token_finished(tv));
            }
            match self.tag_token_stack.pop() {
                Some(top) => {
                    let ghost topv = token_view(top);
                    match top {
                        Token::Tag(c, mut ext) => {
                            ext.sub_ast.push_token(template_chars, token2);
                            self.tag_token_stack.push(Token::Tag(c, ext));
                            proof {
                                assert(ctx_view(*self).tag_token_stack =~= oldv.tag_token_stack
                                    .update(
                                    oldv.tag_token_stack.len() - 1,
                                    tag_with_sub(
                                        oldv.tag_token_stack.last(),
                                        table_push_token_v(
                                            tag_sub_table(topv),
                                            template_chars@,
                                            token_finished(tv),
                                        ),
                                    ),
                                ));
                                assert(ctx_view(*self) =~~= ctx_push_token_v(
                                    oldv,
                                    template_chars@,
                                    tv,
                                ));
                            }
                        },
                        _ => {
                            proof {
                                assert(stack_entry_open(
                                    oldv.tag_token_stack[oldv.tag_token_stack.len() - 1],
                                ));
                                assert(false);
                            }
                        },
                    }
                },
                None => {
                    proof {
                        assert(false);
                    }
                },
            }
        } else {
            self.template_ast.push_token(template_chars, token);
            proof {
                assert(ctx_view(*self).tag_token_stack =~= oldv.tag_token_stack);
                assert(ctx_view(*self) =~~= ctx_push_token_v(oldv, template_chars@, tv));
            }
        }
    }

    /// Close the line that just ended in the target table and start a new
    /// one there.
    #[verifier::rlimit(50)]
    pub fn new_line(&mut self, current_line_feed: Option<LineFeed>)
        requires
            ctx_wf(ctx_view(*old(self))),
        ensures
            ctx_view(*final(self)) == ctx_new_line_v(ctx_view(*old(self)), current_line_feed),
            ctx_wf(ctx_view(*final(self))),
    {
        let ghost oldv = ctx_view(*old(self));
        if !self.tag_token_stack.is_empty() {
            match self.tag_token_stack.pop() {
                Some(top) => {
                    let ghost topv = token_view(top);
                    match top {
                        Token::Tag(c, mut ext) => {
                            ext.sub_ast.new_line(current_line_feed);
                            self.tag_token_stack.push(Token::Tag(c, ext));
                            proof {
                                assert(ctx_view(*self).tag_token_stack =~= oldv.tag_token_stack
                                    .update(
                                    oldv.tag_token_stack.len() - 1,
                                    tag_with_sub(
                                        oldv.tag_token_stack.last(),
                                        table_new_line_v(tag_sub_table(topv), current_line_feed),
                                    ),
                                ));
                                assert(ctx_view(*self) =~~= ctx_new_line_v(oldv, current_line_feed));
                            }
                        },
                        _ => {
                            proof {
                                assert(stack_entry_open(
                                    oldv.tag_token_stack[oldv.tag_token_stack.len() - 1],
                                ));
                                assert(false);
                            }
                        },
                    }
                },
                None => {
                    proof {
                        assert(false);
                    }
                },
            }
        } else {
            self.template_ast.new_line(current_line_feed);
            proof {
                assert(ctx_view(*self).tag_token_stack =~= oldv.tag_token_stack);
                assert(ctx_view(*self) =~~= ctx_new_line_v(oldv, current_line_feed));
            }
        }
    }
}

/// A lower indentation bound also holds for any higher bound.
pub proof fn lemma_indent_bound_mono(v: CtxV, a: int, b: int)
    requires
        ctx_indent_bound(v, a),
        a <= b,
    ensures
        ctx_indent_bound(v, b),
{
}

/// Hand the pending literal text, if any, to the target table.
fn flush_pending_text(ctx: &mut GenerateTokensContext, template_chars: &Vec<char>, i: usize)
    requires
        ctx_wf(ctx_view(*old(ctx))),
        ctx_wf_rec(ctx_view(*old(ctx)), template_chars@),
        ctx_indent_bound(ctx_view(*old(ctx)), ctx_view(*old(ctx)).last_start_pos as int),
        ctx_view(*old(ctx)).last_start_pos <= i,
        i <= template_chars@.len(),
    ensures
        ctx_view(*final(ctx)) == flush_text_v(ctx_view(*old(ctx)), template_chars@, i as int),
        ctx_wf(ctx_view(*final(ctx))),
        ctx_wf_rec(ctx_view(*final(ctx)), template_chars@),
        ctx_indent_bound(ctx_view(*final(ctx)), i as int),
        ctx_view(*final(ctx)).last_start_pos == ctx_view(*old(ctx)).last_start_pos,
        ctx_view(*final(ctx)).head_symbol_stack == ctx_view(*old(ctx)).head_symbol_stack,
        ctx_view(*final(ctx)).now_in_raw == ctx_view(*old(ctx)).now_in_raw,
{
    let ghost v0 = ctx_view(*old(ctx));
    let ghost ts = template_chars@;
    if ctx.last_start_pos < i {
        let last_pos = ctx.last_start_pos;
        let token = Token::new_text(ctx, last_pos, i);
        let ghost tv = token_view(token);
        proof {
            assert(tv == text_tok(v0.last_start_pos as int, i as int, in_tag_v(v0)));
            if in_tag_v(v0) {
                assert(stack_entry_open(v0.tag_token_stack[v0.tag_token_stack.len() - 1]));
            }
            assert(ctx_accepts_token(v0, ts, tv));
            lemma_indent_bound_mono(v0, v0.last_start_pos as int, i as int);
        }
        ctx.push_token(template_chars, token);
        proof {
            lemma_ctx_push_token_wf(v0, ts, tv);
        }
    }
}

/// Set where unconsumed text begins.
fn set_last_start_pos(ctx: &mut GenerateTokensContext, pos: usize)
    ensures
        ctx_view(*final(ctx)) == (CtxV { last_start_pos: pos, ..ctx_view(*old(ctx)) }),
{
    ctx.last_start_pos = pos;
    proof {
        assert(ctx_view(*ctx) =~~= (CtxV { last_start_pos: pos, ..ctx_view(*old(ctx)) }));
    }
}

/// Leave or enter a raw region.
fn set_now_in_raw(ctx: &mut GenerateTokensContext, b: bool)
    ensures
        ctx_view(*final(ctx)) == (CtxV { now_in_raw: b, ..ctx_view(*old(ctx)) }),
{
    ctx.now_in_raw = b;
    proof {
        assert(ctx_view(*ctx) =~~= (CtxV { now_in_raw: b, ..ctx_view(*old(ctx)) }));
    }
}

/// Remember an opening delimiter.
fn push_head_symbol(ctx: &mut GenerateTokensContext, sym: Symbol, pos: usize)
    ensures
        ctx_view(*final(ctx)) == (CtxV {
            head_symbol_stack: ctx_view(*old(ctx)).head_symbol_stack.push((sym, pos)),
            ..ctx_view(*old(ctx))
        }),
{
    ctx.head_symbol_stack.push((sym, pos));
    proof {
        assert(ctx_view(*ctx) =~~= (CtxV {
            head_symbol_stack: ctx_view(*old(ctx)).head_symbol_stack.push((sym, pos)),
            ..ctx_view(*old(ctx))
        }));
    }
}

/// The innermost open delimiter, if any.
fn peek_head_symbol(ctx: &GenerateTokensContext) -> (r: Option<(Symbol, usize)>)
    ensures
        ({
            let hs = ctx_view(*ctx).head_symbol_stack;
            match r {
                Some(p) => hs.len() > 0 && p == hs.last(),
                None => hs.len() == 0,
            }
        }),
{
    let n = ctx.head_symbol_stack.len();
    if n == 0 {
        None
    } else {
        Some(ctx.head_symbol_stack[n - 1])
    }
}

/// Forget the innermost open delimiter.
fn pop_head_symbol(ctx: &mut GenerateTokensContext)
    requires
        ctx_view(*old(ctx)).head_symbol_stack.len() > 0,
    ensures
        ctx_view(*final(ctx)) == (CtxV {
            head_symbol_stack: ctx_view(*old(ctx)).head_symbol_stack.drop_last(),
            ..ctx_view(*old(ctx))
        }),
{
    let ghost v0 = ctx_view(*old(ctx));
    match ctx.head_symbol_stack.pop() {
        Some(_) => {
            proof {
                assert(ctx_view(*ctx) =~~= (CtxV {
                    head_symbol_stack: v0.head_symbol_stack.drop_last(),
                    ..v0
                }));
            }
        },
        None => {
            proof {
                assert(false);
            }
        },
    }
}

/// Open a control block: its token goes on the stack until its end tag.
fn push_open_tag(ctx: &mut GenerateTokensContext, token: Token)
    ensures
        ctx_view(*final(ctx)) == (CtxV {
            tag_token_stack: ctx_view(*old(ctx)).tag_token_stack.push(token_view(token)),
            ..ctx_view(*old(ctx))
        }),
{
    let ghost v0 = ctx_view(*old(ctx));
    ctx.tag_token_stack.push(token);
    proof {
        assert(ctx_view(*ctx).tag_token_stack =~= v0.tag_token_stack.push(token_view(token)));
        assert(ctx_view(*ctx) =~~= (CtxV {
            tag_token_stack: v0.tag_token_stack.push(token_view(token)),
            ..v0
        }));
    }
}

/// Close a control block: its token comes off the stack.
fn pop_open_tag(ctx: &mut GenerateTokensContext) -> (r: Option<Token>)
    ensures
        ({
            let v0 = ctx_view(*old(ctx));
            match r {
                Some(tok) => v0.tag_token_stack.len() > 0 && token_view(tok)
                    == v0.tag_token_stack.last() && ctx_view(*final(ctx)) == (CtxV {
                    tag_token_stack: v0.tag_token_stack.drop_last(),
                    ..v0
                }),
                None => v0.tag_token_stack.len() == 0 && ctx_view(*final(ctx)) == v0,
            }
        }),
{
    let ghost v0 = ctx_view(*old(ctx));
    let r = ctx.tag_token_stack.pop();
    proof {
        match r {
            Some(_) => {
                assert(ctx_view(*ctx).tag_token_stack =~= v0.tag_token_stack.drop_last());
                assert(ctx_view(*ctx) =~~= (CtxV {
                    tag_token_stack: v0.tag_token_stack.drop_last(),
                    ..v0
                }));
            },
            None => {
                assert(ctx_view(*ctx).tag_token_stack =~= v0.tag_token_stack);
                assert(ctx_view(*ctx) =~~= v0);
            },
        }
    }
    r
}

impl Token {
    /// A text token over the span `[start, end)`.
    pub fn new_text(ctx: &mut GenerateTokensContext, start: usize, end: usize) -> (r: Token)
        ensures
            ctx_view(*final(ctx)) == ctx_view(*old(ctx)),
            r == (Token::Text(
                TokenContext {
                    start,
                    end,
                    in_tag: in_tag_v(ctx_view(*old(ctx))),
                    first_in_line: false,
                    end_of_line: false,
                },
            )),
    {
        let in_tag = ctx.now_in_tag();
        Token::Text(TokenContext { start, end, in_tag, first_in_line: false, end_of_line: false })
    }

    /// A placeholder token over the span `[start, end)`.
    pub fn new_placeholder(ctx: &mut GenerateTokensContext, start: usize, end: usize) -> (r: Token)
        ensures
            ctx_view(*final(ctx)) == ctx_view(*old(ctx)),
            r == (Token::Placeholder(
                TokenContext {
                    start,
                    end,
                    in_tag: in_tag_v(ctx_view(*old(ctx))),
                    first_in_line: false,
                    end_of_line: false,
                },
            )),
    {
        let in_tag = ctx.now_in_tag();
        Token::Placeholder(
            TokenContext { start, end, in_tag, first_in_line: false, end_of_line: false },
        )
    }

    /// A control token over the tag's span, owning a fresh body table.
    pub fn new_tag(ctx: &mut GenerateTokensContext, tag: crate::ast::Tag, start: usize, end: usize) -> (r:
        Token)
        ensures
            ctx_view(*final(ctx)) == ctx_view(*old(ctx)),
            token_view(r) == TokenV::Tag(
                TokenContext {
                    start,
                    end,
                    in_tag: in_tag_v(ctx_view(*old(ctx))),
                    first_in_line: false,
                    end_of_line: false,
                },
                tag.deep_view(),
                table_new_v(true),
            ),
    {
        let in_tag = ctx.now_in_tag();
        Token::Tag(
            TokenContext { start, end, in_tag, first_in_line: false, end_of_line: false },
            crate::ast::TagExtend { tag, sub_ast: TemplateASTable::new(true) },
        )
    }
}





/// What the scan yields once the loop has passed the last delimiter
/// position: unclosed delimiters and blocks are fatal, then any trailing
/// text is recorded and the root table finished.
pub open spec fn scan_finish(t: Seq<char>, v: CtxV) -> Result<TableV, ParseError> {
    if v.now_in_raw || v.head_symbol_stack.len() > 0 {
        Err(
            ParseError::UnbalancedDelimiter(
                if v.head_symbol_stack.len() > 0 {
                    v.head_symbol_stack.last().1
                } else {
                    v.last_start_pos
                },
            ),
        )
    } else if v.tag_token_stack.len() > 0 {
        Err(ParseError::MissingEndTag)
    } else if v.last_start_pos < t.len() {
        Ok(
            table_finish_v(
                table_push_token_v(
                    v.template_ast,
                    t,
                    text_tok(v.last_start_pos as int, t.len() as int, false),
                ),
            ),
        )
    } else {
        Ok(table_finish_v(v.template_ast))
    }
}

/// Closing-tag handling: pop the innermost open block, check its kind,
/// finish its body and hand it to the enclosing table.
pub open spec fn close_block_step(t: Seq<char>, i: int, v: CtxV, expect_for: bool) -> Result<
    CtxV,
    ParseError,
> {
    if v.tag_token_stack.len() == 0 {
        Err(ParseError::MissingHeadTag(i as usize))
    } else {
        match v.tag_token_stack.last() {
            TokenV::Tag(c, tg, tb) => {
                if (expect_for && tg is For) || (!expect_for && tg is If) {
                    let v1 = CtxV { tag_token_stack: v.tag_token_stack.drop_last(), ..v };
                    let head2 = TokenV::Tag(c, tg, table_finish_v(tb));
                    let v2 = ctx_push_token_v(v1, t, head2);
                    Ok(CtxV { last_start_pos: (i + 2) as usize, ..v2 })
                } else {
                    Err(ParseError::MismatchedEndTag(i as usize))
                }
            },
            _ => Err(ParseError::MismatchedEndTag(i as usize)),
        }
    }
}

/// One pass of the scanner from position `i` in state `v`: every delimiter
/// pair and line break becomes an event, everything between them literal
/// text.
#[verifier::opaque]
pub open spec fn scan_from(t: Seq<char>, i: int, v: CtxV) -> Result<TableV, ParseError>
    decreases t.len() - i + 2,
{
    let len = if t.len() == 0 {
        0
    } else {
        t.len() - 1
    };
    if i < 0 || i >= len {
        scan_finish(t, v)
    } else if v.now_in_raw {
        if t[i] == '#' && t[i + 1] == '}' {
            let v1 = if v.head_symbol_stack.len() > 0 && v.head_symbol_stack.last().0 is Raw {
                let start_idx = v.head_symbol_stack.last().1;
                let v2 = CtxV { head_symbol_stack: v.head_symbol_stack.drop_last(), ..v };
                let v3 = ctx_push_token_v(v2, t, text_tok(start_idx as int, i, in_tag_v(v2)));
                CtxV { last_start_pos: (i + 2) as usize, ..v3 }
            } else {
                v
            };
            scan_from(t, i + 2, CtxV { now_in_raw: false, ..v1 })
        } else {
            scan_from(t, i + 1, v)
        }
    } else if t[i] == '{' && t[i + 1] == '%' {
        let v1 = flush_text_v(v, t, i);
        scan_from(
            t,
            i + 2,
            CtxV {
                head_symbol_stack: v1.head_symbol_stack.push((Symbol::Logical, (i + 2) as usize)),
                last_start_pos: (i + 2) as usize,
                ..v1
            },
        )
    } else if t[i] == '%' && t[i + 1] == '}' {
        if v.head_symbol_stack.len() > 0 && v.head_symbol_stack.last().0 is Logical {
            let start_idx = v.head_symbol_stack.last().1 as int;
            let v1 = CtxV { head_symbol_stack: v.head_symbol_stack.drop_last(), ..v };
            match tag_grammar_spec(t.subrange(start_idx, i)) {
                Err(e) => Err(e),
                Ok(tgv) => match tgv {
                    TagV::For(_, _) => scan_from(
                        t,
                        i + 2,
                        CtxV {
                            tag_token_stack: v1.tag_token_stack.push(
                                TokenV::Tag(
                                    TokenContext {
                                        start: start_idx as usize,
                                        end: i as usize,
                                        in_tag: in_tag_v(v1),
                                        first_in_line: false,
                                        end_of_line: false,
                                    },
                                    tgv,
                                    table_new_v(true),
                                ),
                            ),
                            last_start_pos: (i + 2) as usize,
                            ..v1
                        },
                    ),
                    TagV::If(_, _, _, _, _) => scan_from(
                        t,
                        i + 2,
                        CtxV {
                            tag_token_stack: v1.tag_token_stack.push(
                                TokenV::Tag(
                                    TokenContext {
                                        start: start_idx as usize,
                                        end: i as usize,
                                        in_tag: in_tag_v(v1),
                                        first_in_line: false,
                                        end_of_line: false,
                                    },
                                    tgv,
                                    table_new_v(true),
                                ),
                            ),
                            last_start_pos: (i + 2) as usize,
                            ..v1
                        },
                    ),
                    TagV::EndFor => match close_block_step(t, i, v1, true) {
                        Ok(v2) => scan_from(t, i + 2, v2),
                        Err(e) => Err(e),
                    },
                    TagV::EndIf => match close_block_step(t, i, v1, false) {
                        Ok(v2) => scan_from(t, i + 2, v2),
                        Err(e) => Err(e),
                    },
                },
            }
        } else {
            scan_from(t, i + 2, v)
        }
    } else if t[i] == '{' && t[i + 1] == '$' {
        let v1 = flush_text_v(v, t, i);
        scan_from(
            t,
            i + 2,
            CtxV {
                head_symbol_stack: v1.head_symbol_stack.push((Symbol::Env, (i + 2) as usize)),
                last_start_pos: (i + 2) as usize,
                ..v1
            },
        )
    } else if t[i] == '$' && t[i + 1] == '}' {
        if v.head_symbol_stack.len() > 0 && v.head_symbol_stack.last().0 is Env {
            let start_idx = v.head_symbol_stack.last().1 as int;
            let v1 = CtxV { head_symbol_stack: v.head_symbol_stack.drop_last(), ..v };
            if spec_find_char(t.subrange(start_idx, i), '=', 0) is None {
                Err(ParseError::EnvMissingEquals(start_idx as usize))
            } else {
                let v2 = ctx_push_env_v(
                    v1,
                    EnvDefine { start: start_idx as usize, end: i as usize },
                );
                scan_from(t, i + 2, CtxV { last_start_pos: (i + 2) as usize, ..v2 })
            }
        } else {
            scan_from(t, i + 2, v)
        }
    } else if t[i] == '{' && t[i + 1] == '{' {
        let v1 = flush_text_v(v, t, i);
        scan_from(
            t,
            i + 2,
            CtxV {
                head_symbol_stack: v1.head_symbol_stack.push(
                    (Symbol::Placeholder, (i + 2) as usize),
                ),
                last_start_pos: (i + 2) as usize,
                ..v1
            },
        )
    } else if t[i] == '}' && t[i + 1] == '}' {
        if v.head_symbol_stack.len() > 0 && v.head_symbol_stack.last().0 is Placeholder {
            let start_idx = v.head_symbol_stack.last().1 as int;
            let v1 = CtxV { head_symbol_stack: v.head_symbol_stack.drop_last(), ..v };
            let v2 = ctx_push_token_v(
                v1,
                t,
                TokenV::Placeholder(
                    TokenContext {
                        start: start_idx as usize,
                        end: i as usize,
                        in_tag: in_tag_v(v1),
                        first_in_line: false,
                        end_of_line: false,
                    },
                ),
            );
            scan_from(t, i + 2, CtxV { last_start_pos: (i + 2) as usize, ..v2 })
        } else {
            scan_from(t, i + 2, v)
        }
    } else if t[i] == '{' && t[i + 1] == '#' {
        let v1 = flush_text_v(v, t, i);
        scan_from(
            t,
            i + 2,
            CtxV {
                now_in_raw: true,
                head_symbol_stack: v1.head_symbol_stack.push((Symbol::Raw, (i + 2) as usize)),
                last_start_pos: (i + 2) as usize,
                ..v1
            },
        )
    } else if t[i] == '\r' && t[i + 1] == '\n' {
        let v1 = flush_text_v(v, t, i);
        let v2 = ctx_new_line_v(v1, Some(LineFeed::CRLF));
        scan_from(t, i + 2, CtxV { last_start_pos: (i + 2) as usize, ..v2 })
    } else if t[i] == '\n' {
        let v1 = flush_text_v(v, t, i);
        let v2 = ctx_new_line_v(v1, Some(LineFeed::LF));
        scan_from(t, i + 1, CtxV { last_start_pos: (i + 1) as usize, ..v2 })
    } else {
        scan_from(t, i + 1, v)
    }
}

/// The whole template scanned from a fresh state.
pub open spec fn scan_spec(t: Seq<char>) -> Result<TableV, ParseError> {
    scan_from(t, 0, ctx_new_v())
}

/// The scanner loop's invariant over state `v` at position `i`.
pub open spec fn scan_inv(v: CtxV, t: Seq<char>, i: int) -> bool {
    &&& v.last_start_pos <= i
    &&& i <= t.len()
    &&& ctx_wf(v)
    &&& ctx_wf_rec(v, t)
    &&& ctx_indent_bound(v, v.last_start_pos as int)
    &&& forall|j: int|
        0 <= j < v.head_symbol_stack.len() ==> (#[trigger] v.head_symbol_stack[j]).1
            <= v.last_start_pos
    &&& (v.now_in_raw ==> v.head_symbol_stack.len() > 0 && v.head_symbol_stack.last().0 is Raw
        && v.head_symbol_stack.last().1 == v.last_start_pos)
}

/// Two adjacent characters forming a template delimiter.
pub open spec fn spec_is_delim_pair(a: char, b: char) -> bool {
    ||| (a == '{' && (b == '%' || b == '$' || b == '{' || b == '#'))
    ||| ((a == '%' || a == '$' || a == '}' || a == '#') && b == '}')
}

/// No two adjacent characters form a template delimiter.
pub open spec fn no_delims(t: Seq<char>) -> bool {
    forall|i: int| 0 <= i && i + 1 < t.len() ==> !spec_is_delim_pair(#[trigger] t[i], t[i + 1])
}

/// A state in which no delimiter has ever been open: both stacks empty and
/// no raw region active.
pub open spec fn simple_state(v: CtxV) -> bool {
    &&& v.tag_token_stack.len() == 0
    &&& v.head_symbol_stack.len() == 0
    &&& !v.now_in_raw
}

/// What the scanner builds from a template with no delimiters: its lines,
/// split at `\r\n` and `\n`, each holding one text token (or, if blank,
/// only indentation).  A terminator in the final position stays inside the
/// trailing text.
pub open spec fn simple_scan(t: Seq<char>, i: int, last: int, tb: TableV) -> TableV
    decreases t.len() - i + 2,
{
    let len = if t.len() == 0 {
        0
    } else {
        t.len() - 1
    };
    if i < 0 || i >= len {
        if last < t.len() {
            table_finish_v(table_push_token_v(tb, t, text_tok(last, t.len() as int, false)))
        } else {
            table_finish_v(tb)
        }
    } else if t[i] == '\r' && t[i + 1] == '\n' {
        let tb1 = if last < i {
            table_push_token_v(tb, t, text_tok(last, i, false))
        } else {
            tb
        };
        simple_scan(t, i + 2, i + 2, table_new_line_v(tb1, Some(LineFeed::CRLF)))
    } else if t[i] == '\n' {
        let tb1 = if last < i {
            table_push_token_v(tb, t, text_tok(last, i, false))
        } else {
            tb
        };
        simple_scan(t, i + 1, i + 1, table_new_line_v(tb1, Some(LineFeed::LF)))
    } else {
        simple_scan(t, i + 1, last, tb)
    }
}

/// The line table of a template with no delimiters.
pub open spec fn lines_table_spec(t: Seq<char>) -> TableV {
    simple_scan(t, 0, 0, table_new_v(false))
}

/// One step inside a raw region: only `#}` ends it; everything else is
/// passed over.
#[verifier::rlimit(100)]
#[verifier::spinoff_prover]
fn step_raw(ctx: &mut GenerateTokensContext, template_chars: &Vec<char>, i: usize) -> (r: usize)
    requires
        scan_inv(ctx_view(*old(ctx)), template_chars@, i as int),
        i + 1 < template_chars@.len(),
        ctx_view(*old(ctx)).now_in_raw,
    ensures
        i < r <= template_chars@.len(),
        scan_inv(ctx_view(*final(ctx)), template_chars@, r as int),
        scan_from(template_chars@, i as int, ctx_view(*old(ctx))) == scan_from(
            template_chars@,
            r as int,
            ctx_view(*final(ctx)),
        ),
{
    let ghost ts = template_chars@;
    let tlen = template_chars.len();
    proof {
        assert(ts.len() == tlen as int);
    }
    let ghost v0 = ctx_view(*old(ctx));
    let a = template_chars[i];
    let b = template_chars[i + 1];
    if a == '#' && b == '}' {
        match peek_head_symbol(ctx) {
            Some((Symbol::Raw, start_idx)) => {
                pop_head_symbol(ctx);
                let ghost v1 = ctx_view(*ctx);
                let token = Token::new_text(ctx, start_idx, i);
                proof {
                    if in_tag_v(v1) {
                        assert(stack_entry_open(v1.tag_token_stack[v1.tag_token_stack.len() - 1]));
                    }
                    assert(ctx_accepts_token(v1, ts, token_view(token)));
                    lemma_indent_bound_mono(v1, v1.last_start_pos as int, i + 2);
                }
                ctx.push_token(template_chars, token);
                proof {
                    lemma_ctx_push_token_wf(v1, ts, token_view(token));
                }
                set_last_start_pos(ctx, i + 2);
                set_now_in_raw(ctx, false);
                proof {
                    reveal_with_fuel(scan_from, 1);
                    let v3 = ctx_push_token_v(v1, ts, text_tok(start_idx as int, i as int, in_tag_v(v1)));
                    assert(ctx_view(*ctx) =~~= (CtxV {
                        now_in_raw: false,
                        ..(CtxV { last_start_pos: (i + 2) as usize, ..v3 })
                    }));
                    assert(scan_from(ts, i as int, v0) == scan_from(ts, i + 2, ctx_view(*ctx)));
                }
                i + 2
            },
            _ => {
                proof {
                    assert(false);
                }
                i + 2
            },
        }
    } else {
        proof {
            reveal_with_fuel(scan_from, 1);
            assert(scan_from(ts, i as int, v0) == scan_from(ts, i + 1, ctx_view(*ctx)));
        }
        i + 1
    }
}

/// One step at an opening delimiter: pending text is flushed, the opener
/// remembered, and a raw opener suspends scanning.
#[verifier::rlimit(100)]
#[verifier::spinoff_prover]
fn step_open(ctx: &mut GenerateTokensContext, template_chars: &Vec<char>, i: usize, sym: Symbol) -> (r:
    usize)
    requires
        scan_inv(ctx_view(*old(ctx)), template_chars@, i as int),
        i + 1 < template_chars@.len(),
        !ctx_view(*old(ctx)).now_in_raw,
        template_chars@[i as int] == '{',
        (match sym {
            Symbol::Logical => template_chars@[i + 1] == '%',
            Symbol::Env => template_chars@[i + 1] == '$',
            Symbol::Placeholder => template_chars@[i + 1] == '{',
            Symbol::Raw => template_chars@[i + 1] == '#',
        }),
    ensures
        i < r <= template_chars@.len(),
        scan_inv(ctx_view(*final(ctx)), template_chars@, r as int),
        scan_from(template_chars@, i as int, ctx_view(*old(ctx))) == scan_from(
            template_chars@,
            r as int,
            ctx_view(*final(ctx)),
        ),
{
    let ghost ts = template_chars@;
    let tlen = template_chars.len();
    proof {
        assert(ts.len() == tlen as int);
    }
    let ghost v0 = ctx_view(*old(ctx));
    flush_pending_text(ctx, template_chars, i);
    push_head_symbol(ctx, sym, i + 2);
    set_last_start_pos(ctx, i + 2);
    if matches!(sym, Symbol::Raw) {
        set_now_in_raw(ctx, true);
    }
    proof {
        lemma_indent_bound_mono(ctx_view(*ctx), i as int, i + 2);
        reveal_with_fuel(scan_from, 1);
        let v1 = flush_text_v(v0, ts, i as int);
        match sym {
            Symbol::Logical => {
                let target = CtxV {
                    head_symbol_stack: v1.head_symbol_stack.push(
                        (Symbol::Logical, (i + 2) as usize),
                    ),
                    last_start_pos: (i + 2) as usize,
                    ..v1
                };
                assert(ctx_view(*ctx) =~~= target);
                assert(scan_from(ts, i as int, v0) == scan_from(ts, i + 2, target)) by {
                    reveal_with_fuel(scan_from, 1);
                };
                assert(scan_from(ts, i + 2, target) == scan_from(ts, i + 2, ctx_view(*ctx)));
            },
            Symbol::Env => {
                let target = CtxV {
                    head_symbol_stack: v1.head_symbol_stack.push((Symbol::Env, (i + 2) as usize)),
                    last_start_pos: (i + 2) as usize,
                    ..v1
                };
                assert(ctx_view(*ctx) =~~= target);
                assert(scan_from(ts, i as int, v0) == scan_from(ts, i + 2, target)) by {
                    reveal_with_fuel(scan_from, 1);
                };
                assert(scan_from(ts, i + 2, target) == scan_from(ts, i + 2, ctx_view(*ctx)));
            },
            Symbol::Placeholder => {
                let target = CtxV {
                    head_symbol_stack: v1.head_symbol_stack.push(
                        (Symbol::Placeholder, (i + 2) as usize),
                    ),
                    last_start_pos: (i + 2) as usize,
                    ..v1
                };
                assert(ctx_view(*ctx) =~~= target);
                assert(scan_from(ts, i as int, v0) == scan_from(ts, i + 2, target)) by {
                    reveal_with_fuel(scan_from, 1);
                };
                assert(scan_from(ts, i + 2, target) == scan_from(ts, i + 2, ctx_view(*ctx)));
            },
            Symbol::Raw => {
                let target = CtxV {
                    now_in_raw: true,
                    head_symbol_stack: v1.head_symbol_stack.push((Symbol::Raw, (i + 2) as usize)),
                    last_start_pos: (i + 2) as usize,
                    ..v1
                };
                assert(ctx_view(*ctx) =~~= target);
                assert(scan_from(ts, i as int, v0) == scan_from(ts, i + 2, target)) by {
                    reveal_with_fuel(scan_from, 1);
                };
                assert(scan_from(ts, i + 2, target) == scan_from(ts, i + 2, ctx_view(*ctx)));
            },
        }
        assert(scan_from(ts, i as int, v0) == scan_from(ts, i + 2, ctx_view(*ctx)));
    }
    i + 2
}

/// One step at `%}`: the tag text is parsed; `for`/`if` opens a block,
/// `endfor`/`endif` closes the innermost one.
#[verifier::rlimit(100)]
#[verifier::spinoff_prover]
fn step_close_logical(ctx: &mut GenerateTokensContext, template_chars: &Vec<char>, i: usize) -> (r:
    Result<usize, ParseError>)
    requires
        scan_inv(ctx_view(*old(ctx)), template_chars@, i as int),
        i + 1 < template_chars@.len(),
        !ctx_view(*old(ctx)).now_in_raw,
        template_chars@[i as int] == '%',
        template_chars@[i + 1] == '}',
    ensures
        (match r {
            Ok(i2) => i < i2 <= template_chars@.len() && scan_inv(
                ctx_view(*final(ctx)),
                template_chars@,
                i2 as int,
            ) && scan_from(template_chars@, i as int, ctx_view(*old(ctx))) == scan_from(
                template_chars@,
                i2 as int,
                ctx_view(*final(ctx)),
            ),
            Err(e) => scan_from(template_chars@, i as int, ctx_view(*old(ctx))) == Err::<
                TableV,
                ParseError,
            >(e),
        }),
{
    let ghost ts = template_chars@;
    let tlen = template_chars.len();
    proof {
        assert(ts.len() == tlen as int);
    }
    let ghost v0 = ctx_view(*old(ctx));
    let head = peek_head_symbol(ctx);
    match head {
        Some((Symbol::Logical, start_idx)) => {
            pop_head_symbol(ctx);
            let ghost v1 = ctx_view(*ctx);
            match crate::grammar::generate_tag(template_chars, start_idx, i) {
                Err(e) => {
                    proof {
                        reveal_with_fuel(scan_from, 1);
                        assert(v1 =~~= (CtxV {
                            head_symbol_stack: v0.head_symbol_stack.drop_last(),
                            ..v0
                        }));
                        assert(scan_from(ts, i as int, v0) == Err::<TableV, ParseError>(e));
                    }
                    Err(e)
                },
                Ok(tag) => {
                    match tag {
                        crate::ast::Tag::EndFor => {
                            let r2 = close_open_block(ctx, template_chars, i, true);
                            proof {
                                reveal_with_fuel(scan_from, 1);
                                assert(v1 =~~= (CtxV {
                                    head_symbol_stack: v0.head_symbol_stack.drop_last(),
                                    ..v0
                                }));
                                match r2 {
                                    Ok(i2) => {
                                        assert(scan_from(ts, i as int, v0) == scan_from(
                                            ts,
                                            i2 as int,
                                            ctx_view(*ctx),
                                        ));
                                    },
                                    Err(e) => {
                                        assert(scan_from(ts, i as int, v0) == Err::<
                                            TableV,
                                            ParseError,
                                        >(e));
                                    },
                                }
                            }
                            r2
                        },
                        crate::ast::Tag::EndIf => {
                            let r2 = close_open_block(ctx, template_chars, i, false);
                            proof {
                                reveal_with_fuel(scan_from, 1);
                                assert(v1 =~~= (CtxV {
                                    head_symbol_stack: v0.head_symbol_stack.drop_last(),
                                    ..v0
                                }));
                                match r2 {
                                    Ok(i2) => {
                                        assert(scan_from(ts, i as int, v0) == scan_from(
                                            ts,
                                            i2 as int,
                                            ctx_view(*ctx),
                                        ));
                                    },
                                    Err(e) => {
                                        assert(scan_from(ts, i as int, v0) == Err::<
                                            TableV,
                                            ParseError,
                                        >(e));
                                    },
                                }
                            }
                            r2
                        },
                        tag2 => {
                            let ghost tgv = tag2.deep_view();
                            let token = Token::new_tag(ctx, tag2, start_idx, i);
                            push_open_tag(ctx, token);
                            set_last_start_pos(ctx, i + 2);
                            proof {
                                assert(tgv is For || tgv is If);
                                assert(table_wf(table_new_v(true)));
                                assert(table_wf_rec(table_new_v(true), ts));
                                let vf = ctx_view(*ctx);
                                assert forall|j: int|
                                    0 <= j < vf.tag_token_stack.len() implies stack_entry_open(
                                    #[trigger] vf.tag_token_stack[j],
                                ) by {
                                    if j < vf.tag_token_stack.len() - 1 {
                                        assert(vf.tag_token_stack[j] == v1.tag_token_stack[j]);
                                        assert(stack_entry_open(v1.tag_token_stack[j]));
                                    }
                                }
                                assert forall|j: int|
                                    0 <= j < vf.tag_token_stack.len() implies token_wf_rec(
                                    #[trigger] vf.tag_token_stack[j],
                                    ts,
                                ) by {
                                    if j < vf.tag_token_stack.len() - 1 {
                                        assert(vf.tag_token_stack[j] == v1.tag_token_stack[j]);
                                        assert(token_wf_rec(v1.tag_token_stack[j], ts));
                                    }
                                }
                                assert(ctx_indent_bound(vf, i + 2)) by {
                                    assert forall|j: int|
                                        0 <= j < vf.tag_token_stack.len() implies (
                                    match tag_sub_table(
                                        #[trigger] vf.tag_token_stack[j],
                                    ).current_line {
                                        Some(cl) => line_last_indent_end(cl) <= i + 2,
                                        None => true,
                                    }) by {
                                        if j < vf.tag_token_stack.len() - 1 {
                                            assert(vf.tag_token_stack[j] == v1.tag_token_stack[j]);
                                        }
                                    }
                                }
                                reveal_with_fuel(scan_from, 1);
                                assert(v1 =~~= (CtxV {
                                    head_symbol_stack: v0.head_symbol_stack.drop_last(),
                                    ..v0
                                }));
                                let target = CtxV {
                                    tag_token_stack: v1.tag_token_stack.push(
                                        TokenV::Tag(
                                            TokenContext {
                                                start: start_idx,
                                                end: i,
                                                in_tag: in_tag_v(v1),
                                                first_in_line: false,
                                                end_of_line: false,
                                            },
                                            tgv,
                                            table_new_v(true),
                                        ),
                                    ),
                                    last_start_pos: (i + 2) as usize,
                                    ..v1
                                };
                                assert(ctx_view(*ctx) =~~= target);
                                assert(scan_from(ts, i as int, v0) == scan_from(ts, i + 2, target));
                                assert(scan_from(ts, i + 2, target) == scan_from(
                                    ts,
                                    i + 2,
                                    ctx_view(*ctx),
                                ));
                            }
                            Ok(i + 2)
                        },
                    }
                },
            }
        },
        _ => {
            proof {
                reveal_with_fuel(scan_from, 1);
                assert(scan_from(ts, i as int, v0) == scan_from(ts, i + 2, ctx_view(*ctx)));
            }
            Ok(i + 2)
        },
    }
}

/// Close the innermost open block against an `endfor`/`endif` at `i`.
#[verifier::rlimit(100)]
#[verifier::spinoff_prover]
fn close_open_block(
    ctx: &mut GenerateTokensContext,
    template_chars: &Vec<char>,
    i: usize,
    expect_for: bool,
) -> (r: Result<usize, ParseError>)
    requires
        scan_inv(ctx_view(*old(ctx)), template_chars@, i as int),
        i + 1 < template_chars@.len(),
        !ctx_view(*old(ctx)).now_in_raw,
    ensures
        (match r {
            Ok(i2) => i < i2 <= template_chars@.len() && i2 == i + 2 && scan_inv(
                ctx_view(*final(ctx)),
                template_chars@,
                i2 as int,
            ) && close_block_step(template_chars@, i as int, ctx_view(*old(ctx)), expect_for)
                == Ok::<CtxV, ParseError>(ctx_view(*final(ctx))),
            Err(e) => close_block_step(template_chars@, i as int, ctx_view(*old(ctx)), expect_for)
                == Err::<CtxV, ParseError>(e),
        }),
{
    let ghost ts = template_chars@;
    let tlen = template_chars.len();
    proof {
        assert(ts.len() == tlen as int);
    }
    let ghost v0c = ctx_view(*old(ctx));
    match pop_open_tag(ctx) {
        None => Err(ParseError::MissingHeadTag(i)),
        Some(headtok) => {
            let ghost htv = token_view(headtok);
            let ghost v2 = ctx_view(*ctx);
            proof {
                assert(stack_entry_open(htv));
                assert(token_wf_rec(htv, ts));
                assert forall|j: int| 0 <= j < v2.tag_token_stack.len() implies stack_entry_open(
                    #[trigger] v2.tag_token_stack[j],
                ) && token_wf_rec(v2.tag_token_stack[j], ts) by {
                    assert(v2.tag_token_stack[j] == ctx_view(*old(ctx)).tag_token_stack[j]);
                }
            }
            match headtok {
                Token::Tag(c, mut ext) => {
                    let kind_ok = if expect_for {
                        matches!(ext.tag, crate::ast::Tag::For(_, _))
                    } else {
                        matches!(ext.tag, crate::ast::Tag::If(_, _, _, _, _))
                    };
                    if !kind_ok {
                        proof {
                            assert(!((expect_for && htv->Tag_1 is For) || (!expect_for
                                && htv->Tag_1 is If)));
                        }
                        return Err(ParseError::MismatchedEndTag(i));
                    }
                    proof {
                        assert((expect_for && htv->Tag_1 is For) || (!expect_for
                            && htv->Tag_1 is If));
                    }
                    ext.sub_ast.finish_build();
                    let closed = Token::Tag(c, ext);
                    proof {
                        assert(token_view(closed) == TokenV::Tag(
                            htv->Tag_0,
                            htv->Tag_1,
                            table_finish_v(tag_sub_table(htv)),
                        ));
                        lemma_wf_rec_finish(tag_sub_table(htv), ts);
                        if in_tag_v(v2) {
                            assert(stack_entry_open(
                                v2.tag_token_stack[v2.tag_token_stack.len() - 1],
                            ));
                        }
                        assert(ctx_accepts_token(v2, ts, token_view(closed)));
                    }
                    ctx.push_token(template_chars, closed);
                    proof {
                        lemma_ctx_push_token_wf(v2, ts, token_view(closed));
                        assert(ctx_indent_bound(
                            ctx_push_token_v(v2, ts, token_view(closed)),
                            v2.last_start_pos as int,
                        ));
                        lemma_indent_bound_mono(
                            ctx_push_token_v(v2, ts, token_view(closed)),
                            v2.last_start_pos as int,
                            i + 2,
                        );
                    }
                    set_last_start_pos(ctx, i + 2);
                    proof {
                        assert(v2 =~~= (CtxV {
                            tag_token_stack: v0c.tag_token_stack.drop_last(),
                            ..v0c
                        }));
                        assert(ctx_view(*ctx) =~~= (CtxV {
                            last_start_pos: (i + 2) as usize,
                            ..ctx_push_token_v(
                                v2,
                                ts,
                                TokenV::Tag(
                                    htv->Tag_0,
                                    htv->Tag_1,
                                    table_finish_v(tag_sub_table(htv)),
                                ),
                            )
                        }));
                        assert(close_block_step(ts, i as int, v0c, expect_for) == Ok::<
                            CtxV,
                            ParseError,
                        >(ctx_view(*ctx)));
                    }
                    Ok(i + 2)
                },
                _ => {
                    proof {
                        assert(false);
                    }
                    Err(ParseError::MismatchedEndTag(i))
                },
            }
        },
    }
}

/// One step at `$}`: the declaration must hold an `=`; it is recorded in
/// the innermost open block, or the root.
#[verifier::rlimit(100)]
#[verifier::spinoff_prover]
fn step_close_env(ctx: &mut GenerateTokensContext, template_chars: &Vec<char>, i: usize) -> (r:
    Result<usize, ParseError>)
    requires
        scan_inv(ctx_view(*old(ctx)), template_chars@, i as int),
        i + 1 < template_chars@.len(),
        !ctx_view(*old(ctx)).now_in_raw,
        template_chars@[i as int] == '$',
        template_chars@[i + 1] == '}',
    ensures
        (match r {
            Ok(i2) => i < i2 <= template_chars@.len() && scan_inv(
                ctx_view(*final(ctx)),
                template_chars@,
                i2 as int,
            ) && scan_from(template_chars@, i as int, ctx_view(*old(ctx))) == scan_from(
                template_chars@,
                i2 as int,
                ctx_view(*final(ctx)),
            ),
            Err(e) => scan_from(template_chars@, i as int, ctx_view(*old(ctx))) == Err::<
                TableV,
                ParseError,
            >(e),
        }),
{
    let ghost ts = template_chars@;
    let tlen = template_chars.len();
    proof {
        assert(ts.len() == tlen as int);
    }
    let ghost v0 = ctx_view(*old(ctx));
    let head = peek_head_symbol(ctx);
    match head {
        Some((Symbol::Env, start_idx)) => {
            pop_head_symbol(ctx);
            let ghost v1 = ctx_view(*ctx);
            match crate::chars::find_char_in(template_chars, start_idx, i, '=') {
                None => {
                    proof {
                        reveal_with_fuel(scan_from, 1);
                        assert(v1 =~~= (CtxV {
                            head_symbol_stack: v0.head_symbol_stack.drop_last(),
                            ..v0
                        }));
                        assert(scan_from(ts, i as int, v0) == Err::<TableV, ParseError>(
                            ParseError::EnvMissingEquals(start_idx),
                        ));
                    }
                    Err(ParseError::EnvMissingEquals(start_idx))
                },
                Some(_) => {
                    let env = EnvDefine::new(start_idx, i);
                    proof {
                        assert(env_in_bounds(env, ts));
                        if in_tag_v(v1) {
                            assert(stack_entry_open(
                                v1.tag_token_stack[v1.tag_token_stack.len() - 1],
                            ));
                        }
                        lemma_indent_bound_mono(v1, v1.last_start_pos as int, i + 2);
                    }
                    ctx.push_env(env);
                    proof {
                        lemma_ctx_push_env_wf(v1, ts, env);
                    }
                    set_last_start_pos(ctx, i + 2);
                    proof {
                        reveal_with_fuel(scan_from, 1);
                        assert(v1 =~~= (CtxV {
                            head_symbol_stack: v0.head_symbol_stack.drop_last(),
                            ..v0
                        }));
                        let target = CtxV {
                            last_start_pos: (i + 2) as usize,
                            ..ctx_push_env_v(v1, env)
                        };
                        assert(ctx_view(*ctx) =~~= target);
                        assert(scan_from(ts, i as int, v0) == scan_from(ts, i + 2, target));
                        assert(scan_from(ts, i + 2, target) == scan_from(ts, i + 2, ctx_view(*ctx)));
                    }
                    Ok(i + 2)
                },
            }
        },
        _ => {
            proof {
                reveal_with_fuel(scan_from, 1);
                assert(scan_from(ts, i as int, v0) == scan_from(ts, i + 2, ctx_view(*ctx)));
            }
            Ok(i + 2)
        },
    }
}

/// One step at `}}`: the placeholder token is recorded.
#[verifier::rlimit(100)]
#[verifier::spinoff_prover]
fn step_close_placeholder(ctx: &mut GenerateTokensContext, template_chars: &Vec<char>, i: usize) -> (r:
    usize)
    requires
        scan_inv(ctx_view(*old(ctx)), template_chars@, i as int),
        i + 1 < template_chars@.len(),
        !ctx_view(*old(ctx)).now_in_raw,
        template_chars@[i as int] == '}',
        template_chars@[i + 1] == '}',
    ensures
        i < r <= template_chars@.len(),
        scan_inv(ctx_view(*final(ctx)), template_chars@, r as int),
        scan_from(template_chars@, i as int, ctx_view(*old(ctx))) == scan_from(
            template_chars@,
            r as int,
            ctx_view(*final(ctx)),
        ),
{
    let ghost ts = template_chars@;
    let tlen = template_chars.len();
    proof {
        assert(ts.len() == tlen as int);
    }
    let ghost v0 = ctx_view(*old(ctx));
    let head = peek_head_symbol(ctx);
    match head {
        Some((Symbol::Placeholder, start_idx)) => {
            pop_head_symbol(ctx);
            let ghost v1 = ctx_view(*ctx);
            let token = Token::new_placeholder(ctx, start_idx, i);
            proof {
                if in_tag_v(v1) {
                    assert(stack_entry_open(v1.tag_token_stack[v1.tag_token_stack.len() - 1]));
                }
                assert(ctx_accepts_token(v1, ts, token_view(token)));
                lemma_indent_bound_mono(v1, v1.last_start_pos as int, i + 2);
            }
            ctx.push_token(template_chars, token);
            proof {
                lemma_ctx_push_token_wf(v1, ts, token_view(token));
            }
            set_last_start_pos(ctx, i + 2);
            proof {
                reveal_with_fuel(scan_from, 1);
                assert(v1 =~~= (CtxV {
                    head_symbol_stack: v0.head_symbol_stack.drop_last(),
                    ..v0
                }));
                let target = CtxV {
                    last_start_pos: (i + 2) as usize,
                    ..ctx_push_token_v(
                        v1,
                        ts,
                        TokenV::Placeholder(
                            TokenContext {
                                start: start_idx,
                                end: i,
                                in_tag: in_tag_v(v1),
                                first_in_line: false,
                                end_of_line: false,
                            },
                        ),
                    )
                };
                assert(ctx_view(*ctx) =~~= target);
                assert(scan_from(ts, i as int, v0) == scan_from(ts, i + 2, target));
                assert(scan_from(ts, i + 2, target) == scan_from(ts, i + 2, ctx_view(*ctx)));
            }
            i + 2
        },
        _ => {
            proof {
                reveal_with_fuel(scan_from, 1);
                assert(scan_from(ts, i as int, v0) == scan_from(ts, i + 2, ctx_view(*ctx)));
            }
            i + 2
        },
    }
}

/// One step at a line break: pending text is flushed and the target table
/// starts a new line.  On a template with no delimiters the step advances
/// the simple line-splitting scan by exactly one event.
#[verifier::rlimit(100)]
#[verifier::spinoff_prover]
fn step_newline(ctx: &mut GenerateTokensContext, template_chars: &Vec<char>, i: usize, crlf: bool) -> (r:
    usize)
    requires
        scan_inv(ctx_view(*old(ctx)), template_chars@, i as int),
        i + 1 < template_chars@.len(),
        !ctx_view(*old(ctx)).now_in_raw,
        crlf ==> template_chars@[i as int] == '\r' && template_chars@[i + 1] == '\n',
        !crlf ==> template_chars@[i as int] == '\n',
        !crlf ==> !(template_chars@[i as int] == '\r' && template_chars@[i + 1] == '\n'),
    ensures
        i < r <= template_chars@.len(),
        scan_inv(ctx_view(*final(ctx)), template_chars@, r as int),
        scan_from(template_chars@, i as int, ctx_view(*old(ctx))) == scan_from(
            template_chars@,
            r as int,
            ctx_view(*final(ctx)),
        ),
        simple_state(ctx_view(*old(ctx))) ==> simple_state(ctx_view(*final(ctx)))
            && simple_scan(
            template_chars@,
            i as int,
            ctx_view(*old(ctx)).last_start_pos as int,
            ctx_view(*old(ctx)).template_ast,
        ) == simple_scan(
            template_chars@,
            r as int,
            ctx_view(*final(ctx)).last_start_pos as int,
            ctx_view(*final(ctx)).template_ast,
        ),
{
    let ghost ts = template_chars@;
    let tlen = template_chars.len();
    proof {
        assert(ts.len() == tlen as int);
    }
    let ghost v0 = ctx_view(*old(ctx));
    flush_pending_text(ctx, template_chars, i);
    let ghost v1 = ctx_view(*ctx);
    if crlf {
        ctx.new_line(Some(LineFeed::CRLF));
        proof {
            lemma_ctx_new_line_wf(v1, ts, Some(LineFeed::CRLF));
        }
        set_last_start_pos(ctx, i + 2);
        proof {
            reveal_with_fuel(scan_from, 1);
            let target = CtxV {
                last_start_pos: (i + 2) as usize,
                ..ctx_new_line_v(flush_text_v(v0, ts, i as int), Some(LineFeed::CRLF))
            };
            assert(ctx_view(*ctx) =~~= target);
            assert(scan_from(ts, i as int, v0) == scan_from(ts, i + 2, target));
            assert(scan_from(ts, i + 2, target) == scan_from(ts, i + 2, ctx_view(*ctx)));
            if simple_state(v0) {
                assert(simple_scan(ts, i as int, v0.last_start_pos as int, v0.template_ast)
                    == simple_scan(
                    ts,
                    i + 2,
                    i + 2,
                    ctx_view(*ctx).template_ast,
                ));
            }
        }
        i + 2
    } else {
        ctx.new_line(Some(LineFeed::LF));
        proof {
            lemma_ctx_new_line_wf(v1, ts, Some(LineFeed::LF));
        }
        set_last_start_pos(ctx, i + 1);
        proof {
            reveal_with_fuel(scan_from, 1);
            let target = CtxV {
                last_start_pos: (i + 1) as usize,
                ..ctx_new_line_v(flush_text_v(v0, ts, i as int), Some(LineFeed::LF))
            };
            assert(ctx_view(*ctx) =~~= target);
            assert(scan_from(ts, i as int, v0) == scan_from(ts, i + 1, target));
            assert(scan_from(ts, i + 1, target) == scan_from(ts, i + 1, ctx_view(*ctx)));
            if simple_state(v0) {
                assert(simple_scan(ts, i as int, v0.last_start_pos as int, v0.template_ast)
                    == simple_scan(
                    ts,
                    i + 1,
                    i + 1,
                    ctx_view(*ctx).template_ast,
                ));
            }
        }
        i + 1
    }
}

/// Scan the whole template into its abstract syntax table: one pass over
/// the characters, every delimiter pair and line break an event, everything
/// between them literal text.  On a template with no delimiters the result
/// is exactly the line-splitting table.
#[verifier::rlimit(100)]
#[verifier::spinoff_prover]
pub fn generate_tokens(template_chars: &Vec<char>) -> (r: Result<TemplateASTable, ParseError>)
    ensures
        (match r {
            Ok(tb) => scan_spec(template_chars@) == Ok::<TableV, ParseError>(table_view(tb))
                && table_wf(table_view(tb)) && table_wf_rec(table_view(tb), template_chars@),
            Err(e) => scan_spec(template_chars@) == Err::<TableV, ParseError>(e),
        }),
        no_delims(template_chars@) ==> r is Ok && table_view(r.unwrap()) == lines_table_spec(
            template_chars@,
        ),
{
    let ghost ts = template_chars@;
    let mut ctx = GenerateTokensContext::new();
    proof {
        assert(ctx_view(ctx) =~~= ctx_new_v());
        assert(table_wf_rec(ctx_view(ctx).template_ast, ts));
        assert(scan_spec(ts) == scan_from(ts, 0, ctx_view(ctx)));
    }
    let mut i: usize = 0;
    let len: usize = if template_chars.len() == 0 {
        0
    } else {
        template_chars.len() - 1
    };
    while i < len
        invariant
            ts == template_chars@,
            len as int == (if ts.len() == 0 {
                0int
            } else {
                ts.len() - 1
            }),
            i <= ts.len(),
            scan_inv(ctx_view(ctx), ts, i as int),
            no_delims(ts) ==> simple_state(ctx_view(ctx)) && lines_table_spec(ts) == simple_scan(
                ts,
                i as int,
                ctx_view(ctx).last_start_pos as int,
                ctx_view(ctx).template_ast,
            ),
            scan_spec(ts) == scan_from(ts, i as int, ctx_view(ctx)),
        decreases template_chars@.len() - i + 1,
    {
        let ghost v0 = ctx_view(ctx);
        let a = template_chars[i];
        let b = template_chars[i + 1];
        if ctx.now_in_raw {
            proof {
                if no_delims(ts) {
                    assert(false);
                }
            }
            i = step_raw(&mut ctx, template_chars, i);
        } else if a == '{' && b == '%' {
            proof {
                if no_delims(ts) {
                    assert(spec_is_delim_pair(ts[i as int], ts[i + 1]));
                    assert(false);
                }
            }
            i = step_open(&mut ctx, template_chars, i, Symbol::Logical);
        } else if a == '%' && b == '}' {
            proof {
                if no_delims(ts) {
                    assert(spec_is_delim_pair(ts[i as int], ts[i + 1]));
                    assert(false);
                }
            }
            match step_close_logical(&mut ctx, template_chars, i) {
                Ok(i2) => {
                    i = i2;
                },
                Err(e) => {
                    return Err(e);
                },
            }
        } else if a == '{' && b == '$' {
            proof {
                if no_delims(ts) {
                    assert(spec_is_delim_pair(ts[i as int], ts[i + 1]));
                    assert(false);
                }
            }
            i = step_open(&mut ctx, template_chars, i, Symbol::Env);
        } else if a == '$' && b == '}' {
            proof {
                if no_delims(ts) {
                    assert(spec_is_delim_pair(ts[i as int], ts[i + 1]));
                    assert(false);
                }
            }
            match step_close_env(&mut ctx, template_chars, i) {
                Ok(i2) => {
                    i = i2;
                },
                Err(e) => {
                    return Err(e);
                },
            }
        } else if a == '{' && b == '{' {
            proof {
                if no_delims(ts) {
                    assert(spec_is_delim_pair(ts[i as int], ts[i + 1]));
                    assert(false);
                }
            }
            i = step_open(&mut ctx, template_chars, i, Symbol::Placeholder);
        } else if a == '}' && b == '}' {
            proof {
                if no_delims(ts) {
                    assert(spec_is_delim_pair(ts[i as int], ts[i + 1]));
                    assert(false);
                }
            }
            i = step_close_placeholder(&mut ctx, template_chars, i);
        } else if a == '{' && b == '#' {
            proof {
                if no_delims(ts) {
                    assert(spec_is_delim_pair(ts[i as int], ts[i + 1]));
                    assert(false);
                }
            }
            i = step_open(&mut ctx, template_chars, i, Symbol::Raw);
        } else if a == '\r' && b == '\n' {
            i = step_newline(&mut ctx, template_chars, i, true);
        } else if a == '\n' {
            i = step_newline(&mut ctx, template_chars, i, false);
        } else {
            i = i + 1;
            proof {
                reveal_with_fuel(scan_from, 1);
                assert(scan_spec(ts) == scan_from(ts, i as int, ctx_view(ctx)));
                if no_delims(ts) {
                    assert(lines_table_spec(ts) == simple_scan(
                        ts,
                        i as int,
                        ctx_view(ctx).last_start_pos as int,
                        ctx_view(ctx).template_ast,
                    ));
                }
            }
        }
    }
    let ghost vf = ctx_view(ctx);
    proof {
        reveal_with_fuel(scan_from, 1);
        assert(scan_spec(ts) == scan_finish(ts, vf));
    }
    if ctx.now_in_raw || !ctx.head_symbol_stack.is_empty() {
        proof {
            if no_delims(ts) {
                assert(false);
            }
        }
        let pos = match peek_head_symbol(&ctx) {
            Some((_, p)) => p,
            None => ctx.last_start_pos,
        };
        proof {
            assert(scan_spec(ts) == Err::<TableV, ParseError>(
                ParseError::UnbalancedDelimiter(pos),
            ));
        }
        return Err(ParseError::UnbalancedDelimiter(pos));
    }
    if !ctx.tag_token_stack.is_empty() {
        proof {
            if no_delims(ts) {
                assert(false);
            }
        }
        proof {
            assert(scan_spec(ts) == Err::<TableV, ParseError>(ParseError::MissingEndTag));
        }
        return Err(ParseError::MissingEndTag);
    }
    if ctx.last_start_pos < template_chars.len() {
        let last_pos = ctx.last_start_pos;
        let tlen = template_chars.len();
        let token = Token::new_text(&mut ctx, last_pos, tlen);
        proof {
            assert(ctx_accepts_token(vf, ts, token_view(token)));
        }
        ctx.push_token(template_chars, token);
        proof {
            lemma_ctx_push_token_wf(vf, ts, token_view(token));
        }
    }
    let ghost vg = ctx_view(ctx);
    proof {
        lemma_wf_rec_finish(vg.template_ast, ts);
    }
    ctx.template_ast.finish_build();
    proof {
        assert(scan_spec(ts) == Ok::<TableV, ParseError>(table_view(ctx.template_ast)));
        if no_delims(ts) {
            assert(table_view(ctx.template_ast) == lines_table_spec(ts));
        }
    }
    Ok(ctx.template_ast)
}

} // verus!
