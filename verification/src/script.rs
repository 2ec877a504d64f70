//! Token store: owns the finalized token sequence plus a cursor, and
//! exposes one parameterized read across three feature views. `Peek` never
//! mutates the cursor; `Advance` moves it past the returned token. The
//! retokenizer and the construction pipeline live here too.

use crate::lex::{cr_end, lemma_step_end_bounds, lexer, step_end, tok_at, ToScript};
use crate::pos::{col_at, lemma_pos_bounds, line_at};
use crate::token::{
    copy_token, kind_eq, simple_tok_eq, simple_token, tok_eq, toks_sim_eq, wf_token, Table, Token,
};
use vstd::prelude::*;

verus! {

/// How a read iterates.
#[derive(Debug)]
pub enum Mode {
    /// Obtain and advance.
    Next(Feature),
    /// Obtain but not advance.
    Peek(Feature),
}

/// Which tokens a read sees.
#[derive(Debug, PartialEq, Clone, Copy)]
pub enum Feature {
    /// Iterate all tokens.
    Default,
    /// Iterate only the code.
    Code,
    /// Iterate only the code and comments.
    CodeAndCmts,
}

/// Is `t` an end-of-statement token?
pub open spec fn is_eos(t: Token) -> bool {
    t.lexeme is EndOfStmt
}

/// Does the feature view pass over `t` without returning it?
pub open spec fn skip_tok(ft: Feature, t: Token) -> bool {
    match ft {
        Feature::Default => false,
        Feature::Code => t.lexeme is Whitespace || t.lexeme is Cmt,
        Feature::CodeAndCmts => t.lexeme is Whitespace,
    }
}

/// First index at or after `i` that the feature view returns, or the end.
pub open spec fn find_from(toks: Seq<Token>, i: int, ft: Feature) -> int
    decreases toks.len() - i,
{
    if i < 0 {
        i
    } else if i >= toks.len() {
        toks.len() as int
    } else if skip_tok(ft, toks[i]) {
        find_from(toks, i + 1, ft)
    } else {
        i
    }
}

/// What the found index looks like.
pub proof fn lemma_find_from(toks: Seq<Token>, i: int, ft: Feature)
    requires
        0 <= i <= toks.len(),
    ensures
        i <= find_from(toks, i, ft) <= toks.len(),
        forall|j: int| i <= j < find_from(toks, i, ft) ==> skip_tok(ft, #[trigger] toks[j]),
        find_from(toks, i, ft) < toks.len() ==> !skip_tok(ft, toks[find_from(toks, i, ft)]),
    decreases toks.len() - i,
{
    if i < toks.len() && skip_tok(ft, toks[i]) {
        lemma_find_from(toks, i + 1, ft);
    }
}

/// The feature a mode iterates with.
pub open spec fn mode_feature(mode: Mode) -> Feature {
    match mode {
        Mode::Next(ft) => ft,
        Mode::Peek(ft) => ft,
    }
}

/// Does the mode advance the cursor?
pub open spec fn mode_advances(mode: Mode) -> bool {
    mode is Next
}

/// Handle the script by language tokens.
#[derive(Debug)]
pub struct Script {
    tokens: Vec<Token>,
    i: usize,
}

impl Script {
    /// The finalized token sequence.
    pub closed spec fn toks(&self) -> Seq<Token> {
        self.tokens@
    }

    /// The cursor: how many tokens a `Default` iteration has passed.
    pub closed spec fn at(&self) -> int {
        self.i as int
    }

    /// The cursor is inside the sequence and every token is well-formed.
    pub closed spec fn wf(&self) -> bool {
        &&& self.i <= self.tokens@.len()
        &&& forall|k: int| 0 <= k < self.tokens@.len() ==> wf_token(#[trigger] self.tokens@[k])
    }

    /// What well-formedness gives every holder of a store.
    pub proof fn lemma_wf(&self)
        requires
            self.wf(),
        ensures
            0 <= self.at() <= self.toks().len(),
            forall|k: int| 0 <= k < self.toks().len() ==> wf_token(#[trigger] self.toks()[k]),
    {
    }

    /// Build a store from an owned token vector.
    pub(crate) fn from_tokens(tokens: Vec<Token>) -> (r: Self)
        requires
            forall|k: int| 0 <= k < tokens@.len() ==> wf_token(#[trigger] tokens@[k]),
        ensures
            r.wf(),
            r.at() == 0,
            r.toks() == tokens@,
    {
        Self { tokens, i: 0 }
    }

    /// Reset the iterator to the beginning.
    pub fn reset(&mut self)
        ensures
            final(self).toks() == old(self).toks(),
            final(self).at() == 0,
            old(self).wf() ==> final(self).wf(),
    {
        self.i = 0;
    }

    /// Iterate according to the selected mode: return a copy of the first
    /// token the feature view admits, advancing past it under `Next`.
    pub fn token(&mut self, mode: Mode) -> (r: Option<Token>)
        requires
            old(self).wf(),
        ensures
            final(self).wf(),
            final(self).toks() == old(self).toks(),
            ({
                let toks = old(self).toks();
                let f = find_from(toks, old(self).at(), mode_feature(mode));
                &&& (if mode_advances(mode) {
                    final(self).at() == if f < toks.len() {
                        f + 1
                    } else {
                        toks.len() as int
                    }
                } else {
                    final(self).at() == old(self).at()
                })
                &&& (if f < toks.len() {
                    r matches Some(t) && tok_eq(t, toks[f]) && wf_token(t)
                } else {
                    r is None
                })
            }),
    {
        let ghost toks = self.tokens@;
        let ghost i0 = self.i as int;
        let advance = match mode {
            Mode::Next(_) => true,
            Mode::Peek(_) => false,
        };
        let ft = match mode {
            Mode::Next(f) => f,
            Mode::Peek(f) => f,
        };
        let mut i: usize = self.i;
        proof {
            lemma_find_from(toks, i0, ft);
        }
        loop
            invariant
                self.wf(),
                self.toks() == toks,
                toks == old(self).toks(),
                i0 == old(self).at(),
                ft == mode_feature(mode),
                advance == mode_advances(mode),
                i0 <= i as int <= toks.len(),
                find_from(toks, i as int, ft) == find_from(toks, i0, ft),
                if advance {
                    self.at() == i as int
                } else {
                    self.at() == i0
                },
            ensures
                i as int == toks.len(),
                find_from(toks, i0, ft) == toks.len(),
                self.toks() == toks,
                if advance {
                    self.at() == toks.len()
                } else {
                    self.at() == i0
                },
            decreases toks.len() - i,
        {
            if i >= self.tokens.len() {
                break ;
            }
            i = i + 1;
            if advance {
                self.i = self.i + 1;
            }
            let skip = match ft {
                Feature::Code => {
                    self.tokens[i - 1].is(&Table::Whitespace) || self.tokens[i - 1].is(
                        &Table::Cmt(None),
                    )
                },
                Feature::CodeAndCmts => self.tokens[i - 1].is(&Table::Whitespace),
                Feature::Default => false,
            };
            if !skip {
                proof {
                    assert(!skip_tok(ft, toks[i as int - 1]));
                    assert(find_from(toks, i as int - 1, ft) == i as int - 1);
                }
                return Some(copy_token(&self.tokens[i - 1]));
            }
        }
        None
    }
}


/// Is there a code-or-comment token after `j` whose column lies strictly
/// past `indent`? If so, the comment being folded continues there.
pub open spec fn cmt_continues(toks: Seq<Token>, indent: int, j: int) -> bool {
    let m = find_from(toks, j, Feature::CodeAndCmts);
    m < toks.len() && toks[m].pos.grapheme > indent
}

/// One past the last token folded into a comment whose remaining content
/// starts at `k`: folding swallows everything through the first separator
/// that no continuation line follows.
pub open spec fn cmt_end(toks: Seq<Token>, indent: int, k: int) -> int
    decreases toks.len() - k,
{
    if k < 0 {
        k
    } else if k >= toks.len() {
        toks.len() as int
    } else if is_eos(toks[k]) && !cmt_continues(toks, indent, k + 1) {
        k + 1
    } else {
        cmt_end(toks, indent, k + 1)
    }
}

/// Did the folding stop at a separator, rather than running out of input?
pub open spec fn cmt_stopped(toks: Seq<Token>, indent: int, k: int) -> bool
    decreases toks.len() - k,
{
    if k < 0 || k >= toks.len() {
        false
    } else if is_eos(toks[k]) && !cmt_continues(toks, indent, k + 1) {
        true
    } else {
        cmt_stopped(toks, indent, k + 1)
    }
}

/// Where comment folding can end up.
pub proof fn lemma_cmt_end_bounds(toks: Seq<Token>, indent: int, k: int)
    requires
        0 <= k <= toks.len(),
    ensures
        k <= cmt_end(toks, indent, k) <= toks.len(),
        cmt_stopped(toks, indent, k) ==> k < cmt_end(toks, indent, k) && is_eos(
            toks[cmt_end(toks, indent, k) - 1],
        ),
        !cmt_stopped(toks, indent, k) ==> cmt_end(toks, indent, k) == toks.len(),
    decreases toks.len() - k,
{
    if k < toks.len() && !(is_eos(toks[k]) && !cmt_continues(toks, indent, k + 1)) {
        lemma_cmt_end_bounds(toks, indent, k + 1);
    }
}

/// How the retokenized stream `out` relates to the raw stream `toks` from
/// index `i` on: every token is carried over by deep equality, except that
/// a comment marker folds the following tokens into its payload, up to the
/// first separator without a continuation line; that terminating separator
/// stays in the main stream, and a comment with no content keeps its
/// payload-less form.
pub open spec fn retok_from(toks: Seq<Token>, i: int, out: Seq<Token>) -> bool
    decreases toks.len() - i
        when 0 <= i <= toks.len()
        via retok_from_dec
{
    if i >= toks.len() {
        out.len() == 0
    } else if !(toks[i].lexeme is Cmt) {
        out.len() >= 1 && tok_eq(out[0], toks[i]) && retok_from(toks, i + 1, out.skip(1))
    } else {
        let e = cmt_end(toks, toks[i].pos.grapheme as int, i + 1);
        let stopped = cmt_stopped(toks, toks[i].pos.grapheme as int, i + 1);
        let payload = toks.subrange(
            i + 1,
            if stopped {
                e - 1
            } else {
                e
            },
        );
        &&& out.len() >= 1
        &&& out[0].pos == toks[i].pos
        &&& (if payload.len() > 0 {
            out[0].lexeme matches Table::Cmt(Some(v)) && toks_sim_eq(v@, payload)
        } else {
            crate::token::lex_eq(out[0].lexeme, toks[i].lexeme)
        })
        &&& (if stopped {
            &&& out.len() >= 2
            &&& simple_tok_eq(out[1], toks[e - 1])
            &&& retok_from(toks, e, out.skip(2))
        } else {
            retok_from(toks, e, out.skip(1))
        })
    }
}

#[via_fn]
proof fn retok_from_dec(toks: Seq<Token>, i: int, out: Seq<Token>) {
    if 0 <= i < toks.len() && toks[i].lexeme is Cmt {
        lemma_cmt_end_bounds(toks, toks[i].pos.grapheme as int, i + 1);
    }
}

impl Script {
    /// Restructures the most complex tokens: folds the content of every
    /// comment into its marker and keeps the closing separator in the
    /// main stream too. It expects the raw stream, where nothing is
    /// folded yet.
    pub fn retokenizer(&mut self) -> (r: Self)
        requires
            old(self).wf(),
            forall|k: int|
                old(self).at() <= k < old(self).toks().len() ==> simple_token(
                    #[trigger] old(self).toks()[k],
                ),
        ensures
            r.wf(),
            r.at() == 0,
            retok_from(old(self).toks(), old(self).at(), r.toks()),
            final(self).toks() == old(self).toks(),
            final(self).at() == old(self).toks().len(),
    {
        let ghost toks = self.toks();
        let ghost i0 = self.at();
        let mut tokens: Vec<Token> = Vec::new();

        proof {
            assert forall|rest: Seq<Token>| #[trigger]
                retok_from(toks, i0, rest) implies retok_from(toks, i0, tokens@ + rest) by {
                assert(tokens@ + rest =~= rest);
            }
        }

        loop
            invariant
                self.wf(),
                self.toks() == toks,
                toks == old(self).toks(),
                i0 == old(self).at(),
                0 <= i0 <= self.at() <= toks.len(),
                forall|k: int| i0 <= k < toks.len() ==> simple_token(#[trigger] toks[k]),
                forall|j: int| 0 <= j < tokens@.len() ==> wf_token(#[trigger] tokens@[j]),
                forall|rest: Seq<Token>| #[trigger]
                    retok_from(toks, self.at(), rest) ==> retok_from(toks, i0, tokens@ + rest),
            ensures
                self.toks() == toks,
                self.at() == toks.len(),
                forall|j: int| 0 <= j < tokens@.len() ==> wf_token(#[trigger] tokens@[j]),
                retok_from(toks, i0, tokens@),
            decreases toks.len() - self.at(),
        {
            let ghost n0 = self.at();
            let ghost tokens0 = tokens@;
            let tokopt = self.token(Mode::Next(Feature::Default));
            if tokopt.is_none() {
                proof {
                    assert(retok_from(toks, self.at(), Seq::<Token>::empty()));
                    assert(retok_from(toks, i0, tokens@ + Seq::<Token>::empty()));
                    assert(tokens@ + Seq::<Token>::empty() =~= tokens@);
                }
                break ;
            }
            let token = tokopt.unwrap();
            proof {
                assert(tok_eq(token, toks[n0]));
            }

            if token.is(&Table::Cmt(None)) {
                // Move the following tokens belonging to the comment
                // content into its payload.
                let ghost ind = toks[n0].pos.grapheme as int;
                let indent: usize = token.pos.grapheme;
                let mut cmt: Vec<Token> = Vec::new();
                let mut stopped: bool = false;
                let mut end_of_stmt: Token = Token::new();
                proof {
                    assert(toks[n0].lexeme is Cmt);
                    assert(indent as int == ind);
                    assert(toks_sim_eq(cmt@, toks.subrange(n0 + 1, n0 + 1)));
                    lemma_cmt_end_bounds(toks, ind, n0 + 1);
                }

                loop
                    invariant_except_break
                        stopped == false,
                        self.at() <= cmt_end(toks, ind, n0 + 1),
                        cmt_end(toks, ind, self.at()) == cmt_end(toks, ind, n0 + 1),
                        cmt_stopped(toks, ind, self.at()) == cmt_stopped(toks, ind, n0 + 1),
                        toks_sim_eq(cmt@, toks.subrange(n0 + 1, self.at())),
                    invariant
                        self.wf(),
                        self.toks() == toks,
                        toks == old(self).toks(),
                        0 <= n0 < toks.len(),
                        ind == toks[n0].pos.grapheme as int,
                        indent as int == ind,
                        n0 + 1 <= self.at() <= toks.len(),
                        forall|k: int| n0 <= k < toks.len() ==> simple_token(#[trigger] toks[k]),
                        forall|k: int| n0 <= k < toks.len() ==> wf_token(#[trigger] toks[k]),
                        forall|j: int|
                            0 <= j < cmt@.len() ==> wf_token(#[trigger] cmt@[j]) && simple_token(
                                cmt@[j],
                            ),
                    ensures
                        self.toks() == toks,
                        self.at() == cmt_end(toks, ind, n0 + 1),
                        stopped == cmt_stopped(toks, ind, n0 + 1),
                        toks_sim_eq(
                            cmt@,
                            toks.subrange(
                                n0 + 1,
                                if stopped {
                                    self.at() - 1
                                } else {
                                    self.at()
                                },
                            ),
                        ),
                        forall|j: int|
                            0 <= j < cmt@.len() ==> wf_token(#[trigger] cmt@[j]) && simple_token(
                                cmt@[j],
                            ),
                        stopped ==> simple_tok_eq(end_of_stmt, toks[self.at() - 1]) && wf_token(
                            end_of_stmt,
                        ) && simple_token(end_of_stmt) && is_eos(end_of_stmt),
                    decreases toks.len() - self.at(),
                {
                    let ghost q0 = self.at();
                    proof {
                        lemma_cmt_end_bounds(toks, ind, q0);
                    }
                    let t2opt = self.token(Mode::Next(Feature::Default));
                    if t2opt.is_none() {
                        break ;
                    }
                    let t2 = t2opt.unwrap();
                    proof {
                        assert(tok_eq(t2, toks[q0]));
                        lemma_cmt_end_bounds(toks, ind, q0 + 1);
                    }
                    let t2_is_eos = t2.is(&Table::EndOfStmt);
                    let t2pos = t2.pos;

                    if t2_is_eos {
                        // Multiline commentary based on indentation.
                        let mut continues: bool = false;
                        let t3opt = self.token(Mode::Peek(Feature::CodeAndCmts));
                        match t3opt {
                            Some(t3) => {
                                if t3.pos.grapheme > indent {
                                    continues = true;
                                }
                            },
                            None => (),
                        }
                        proof {
                            assert(continues == cmt_continues(toks, ind, q0 + 1)) by {
                                lemma_find_from(toks, q0 + 1, Feature::CodeAndCmts);
                            }
                        }
                        if !continues {
                            // The terminating separator stays in the main
                            // stream; the payload keeps only the content.
                            end_of_stmt = Token { lexeme: Table::EndOfStmt, pos: t2pos };
                            stopped = true;
                            proof {
                                assert(cmt_end(toks, ind, q0) == q0 + 1);
                                assert(cmt_stopped(toks, ind, q0) == true);
                            }
                            break ;
                        }
                        // An absorbed continuation separator is content.
                        cmt.push(t2);
                        proof {
                            assert(toks.subrange(n0 + 1, q0 + 1) =~= toks.subrange(
                                n0 + 1,
                                q0,
                            ).push(toks[q0]));
                            assert(toks_sim_eq(cmt@, toks.subrange(n0 + 1, self.at())));
                        }
                    } else {
                        cmt.push(t2);
                        proof {
                            assert(toks.subrange(n0 + 1, q0 + 1) =~= toks.subrange(
                                n0 + 1,
                                q0,
                            ).push(toks[q0]));
                            assert(toks_sim_eq(cmt@, toks.subrange(n0 + 1, self.at())));
                        }
                    }
                }

                // It is `Some(_)` only if content exists.
                let mut token2 = token;
                if cmt.len() > 0 {
                    let p = token2.pos;
                    token2 = Token { lexeme: Table::Cmt(Some(cmt)), pos: p };
                }
                let ghost tk = token2;
                let ghost eos = end_of_stmt;
                let ghost e = self.at();
                tokens.push(token2);
                if stopped {
                    tokens.push(end_of_stmt);
                }
                proof {
                    let ch = if stopped {
                        seq![tk, eos]
                    } else {
                        seq![tk]
                    };
                    assert(tokens@ =~= tokens0 + ch);
                    assert forall|rest: Seq<Token>| #[trigger]
                        retok_from(toks, self.at(), rest) implies retok_from(
                        toks,
                        i0,
                        tokens@ + rest,
                    ) by {
                        let out = ch + rest;
                        assert(out.len() >= 1 && out[0] == tk);
                        if stopped {
                            assert(out.len() >= 2 && out[1] == eos);
                            assert(out.skip(2) =~= rest);
                        } else {
                            assert(out.skip(1) =~= rest);
                        }
                        assert(retok_from(toks, n0, out));
                        assert(tokens0 + out =~= tokens@ + rest);
                        assert(retok_from(toks, i0, tokens0 + out));
                    }
                }
            } else {
                let ghost tk = token;
                tokens.push(token);
                proof {
                    assert(tokens@ =~= tokens0 + seq![tk]);
                    assert forall|rest: Seq<Token>| #[trigger]
                        retok_from(toks, self.at(), rest) implies retok_from(
                        toks,
                        i0,
                        tokens@ + rest,
                    ) by {
                        let out = seq![tk] + rest;
                        assert(out.len() >= 1 && out[0] == tk);
                        assert(out.skip(1) =~= rest);
                        assert(!(toks[n0].lexeme is Cmt));
                        assert(retok_from(toks, n0, out));
                        assert(tokens0 + out =~= tokens@ + rest);
                        assert(retok_from(toks, i0, tokens0 + out));
                    }
                }
            }
        }

        Script::from_tokens(tokens)
    }
}


/// The indices at which the lexer starts each raw token of `text`, from
/// cursor position `i` on.
pub open spec fn lex_cuts(text: Seq<char>, i: int) -> Seq<int>
    decreases text.len() - i
        when 0 <= i <= text.len()
        via lex_cuts_dec
{
    if cr_end(text, i) >= text.len() {
        Seq::empty()
    } else {
        seq![i] + lex_cuts(text, step_end(text, i))
    }
}

#[via_fn]
proof fn lex_cuts_dec(text: Seq<char>, i: int) {
    lemma_step_end_bounds(text, i);
}

/// `toks` is exactly the raw token sequence the lexer produces for `text`.
pub open spec fn lexed(text: Seq<char>, toks: Seq<Token>) -> bool {
    let cuts = lex_cuts(text, 0);
    &&& toks.len() == cuts.len()
    &&& forall|k: int| 0 <= k < cuts.len() ==> tok_at(text, #[trigger] cuts[k], toks[k])
}

/// `ext` is `raw` with the automatic end of statement appended at the
/// end-of-input position when the input did not end with one.
pub open spec fn separator_added(text: Seq<char>, raw: Seq<Token>, ext: Seq<Token>) -> bool {
    if raw.len() > 0 && !is_eos(raw.last()) {
        &&& ext.len() == raw.len() + 1
        &&& forall|k: int| 0 <= k < raw.len() ==> ext[k] == raw[k]
        &&& ext.last().lexeme is EndOfStmt
        &&& ext.last().pos.line as int == line_at(text, text.len() as int)
        &&& ext.last().pos.grapheme as int == col_at(text, text.len() as int) + 1
    } else {
        ext == raw
    }
}

/// Deep elementwise equality of two token sequences.
pub open spec fn toks_deep_eq(x: Seq<Token>, y: Seq<Token>) -> bool {
    x.len() == y.len() && forall|k: int| 0 <= k < x.len() ==> #[trigger] tok_eq(x[k], y[k])
}

/// The whole construction pipeline: `out` is, up to deep equality, the
/// retokenization of the raw token sequence of `text` with its trailing
/// separator ensured.
pub open spec fn finalized(text: Seq<char>, out: Seq<Token>) -> bool {
    exists|raw: Seq<Token>, ext: Seq<Token>, rt: Seq<Token>|
        {
            &&& #[trigger] lexed(text, raw)
            &&& separator_added(text, raw, ext)
            &&& #[trigger] retok_from(ext, 0, rt)
            &&& toks_deep_eq(out, rt)
        }
}

impl Script {
    /// Filter consecutive special tokens: copy what remains ahead of the
    /// cursor into a fresh store.
    pub fn filter(&mut self) -> (r: Self)
        requires
            old(self).wf(),
        ensures
            r.wf(),
            r.at() == 0,
            toks_deep_eq(r.toks(), old(self).toks().skip(old(self).at())),
            final(self).toks() == old(self).toks(),
            final(self).at() == old(self).toks().len(),
    {
        let ghost toks = self.toks();
        let ghost i0 = self.at();
        let mut tokens: Vec<Token> = Vec::new();

        loop
            invariant
                self.wf(),
                self.toks() == toks,
                toks == old(self).toks(),
                i0 == old(self).at(),
                0 <= i0 <= self.at() <= toks.len(),
                tokens@.len() == self.at() - i0,
                forall|j: int|
                    0 <= j < tokens@.len() ==> #[trigger] tok_eq(tokens@[j], toks[i0 + j])
                        && wf_token(tokens@[j]),
            ensures
                self.toks() == toks,
                self.at() == toks.len(),
                tokens@.len() == toks.len() - i0,
                forall|j: int|
                    0 <= j < tokens@.len() ==> #[trigger] tok_eq(tokens@[j], toks[i0 + j])
                        && wf_token(tokens@[j]),
            decreases toks.len() - self.at(),
        {
            let tokopt = self.token(Mode::Next(Feature::Default));
            match tokopt {
                Some(token) => {
                    tokens.push(token);
                },
                None => {
                    break ;
                },
            }
        }
        proof {
            assert(toks_deep_eq(tokens@, toks.skip(i0))) by {
                assert(toks.skip(i0).len() == toks.len() - i0);
                assert(forall|j: int|
                    0 <= j < tokens@.len() ==> toks.skip(i0)[j] == toks[i0 + j]);
            }
            assert forall|k: int| 0 <= k < tokens@.len() implies wf_token(
                #[trigger] tokens@[k],
            ) by {
                assert(tok_eq(tokens@[k], toks[i0 + k]) && wf_token(tokens@[k]));
            }
        }
        Script::from_tokens(tokens)
    }

    /// Interpret the script by tokens: tokenize the whole text, ensure the
    /// trailing end of statement, retokenize, and store immutably. A
    /// source that holds no character besides carriage returns — the one
    /// character the tokenizer consumes without producing a token —
    /// yields the empty store.
    pub fn script(source: &String) -> (r: Script)
        requires
            source@.len() < usize::MAX,
        ensures
            r.wf(),
            r.at() == 0,
            finalized(source@, r.toks()),
            r.toks().len() > 0 <==> (exists|k: int|
                0 <= k < source@.len() && #[trigger] source@[k] != '\r'),
    {
        let ghost text = source@;
        let ghost cuts = lex_cuts(text, 0);
        let mut script: crate::lex::Script = source.to_script();
        let mut tokens: Vec<Token> = Vec::new();

        loop
            invariant
                script.wf(),
                script.text() == text,
                text == source@,
                0 <= script.at() <= text.len(),
                cuts == lex_cuts(text, 0),
                tokens@.len() <= cuts.len(),
                lex_cuts(text, script.at()) == cuts.skip(tokens@.len() as int),
                forall|k: int|
                    0 <= k < tokens@.len() ==> tok_at(text, #[trigger] cuts[k], tokens@[k]),
                forall|k: int|
                    0 <= k < tokens@.len() ==> wf_token(#[trigger] tokens@[k]) && simple_token(
                        tokens@[k],
                    ),
            ensures
                script.wf(),
                script.text() == text,
                script.at() == text.len(),
                tokens@.len() == cuts.len(),
                lexed(text, tokens@),
                forall|k: int|
                    0 <= k < tokens@.len() ==> wf_token(#[trigger] tokens@[k]) && simple_token(
                        tokens@[k],
                    ),
            decreases text.len() - script.at(),
        {
            let ghost p = script.at();
            let ghost n = tokens@.len() as int;
            match lexer(&mut script) {
                Some(t) => {
                    proof {
                        lemma_step_end_bounds(text, p);
                        assert(lex_cuts(text, p) == seq![p] + lex_cuts(text, step_end(text, p)));
                        assert(cuts.skip(n)[0] == p);
                        assert(cuts[n] == p);
                        assert(lex_cuts(text, script.at()) =~= cuts.skip(n).skip(1));
                        assert(cuts.skip(n).skip(1) =~= cuts.skip(n + 1));
                    }
                    tokens.push(t);
                },
                None => {
                    proof {
                        assert(lex_cuts(text, p) =~= Seq::<int>::empty());
                        assert(cuts.skip(n).len() == 0);
                    }
                    break ;
                },
            }
        }

        let ghost raw = tokens@;
        // Replace `EOF` with `\n` (automatic end of statement), at the
        // end-of-input position.
        if tokens.len() > 0 && !tokens[tokens.len() - 1].is(&Table::EndOfStmt) {
            proof {
                lemma_pos_bounds(text, text.len() as int);
            }
            let mut token: Token = Token::new();
            token.pos = script.position();
            token.pos.grapheme = token.pos.grapheme + 1;
            token.lexeme = Table::EndOfStmt;
            tokens.push(token);
        }
        let ghost ext = tokens@;
        proof {
            assert(separator_added(text, raw, ext));
        }

        let mut store = Script::from_tokens(tokens);
        let mut retokenized = store.retokenizer();
        let result = retokenized.filter();
        proof {
            let rt = retokenized.toks();
            assert(retok_from(ext, 0, rt));
            assert(rt.skip(0) =~= rt);
            assert(toks_deep_eq(result.toks(), rt));
            assert(finalized(text, result.toks()));

            // The store is empty exactly for a source of carriage
            // returns alone.
            crate::lex::lemma_run_end(text, 0, 0, ' ');
            let ce = crate::lex::cr_end(text, 0);
            if ce >= text.len() {
                assert(raw.len() == 0);
                assert(ext.len() == 0);
                assert(rt.len() == 0);
                assert(forall|k: int| 0 <= k < text.len() ==> #[trigger] text[k] == '\r');
            } else {
                assert(text[ce] != '\r');
                assert(raw.len() > 0);
                assert(ext.len() > 0);
                assert(rt.len() > 0);
            }
        }
        result
    }
}

} // verus!
