//! The properties the front end guarantees across its passes, each proved
//! once and for all: the finalized stream ends with exactly one statement
//! separator, token positions never go backwards, tokenization loses no
//! source text, and a folded comment's payload reproduces the source
//! slice it consumed.

use crate::lex::{cr_end, lemma_run_end, lemma_step_end_bounds, run_end, run_pred, step_end, tok_at};
use crate::pos::{col_at, line_at, Pos};
use crate::parse::{measured_len, positions_bounded};
use crate::script::{
    cmt_continues, cmt_end, cmt_stopped, find_from, finalized, is_eos, lemma_cmt_end_bounds,
    lex_cuts, lexed, retok_from, separator_added, toks_deep_eq,
};
use crate::lits::{cmt_chars, fn_chars, kw_extern_chars};
use crate::token::{simple_tok_eq, simple_token, tok_eq, toks_sim_eq, Table, Token};
use vstd::prelude::*;

verus! {

/// The skeleton of the raw tokenization: every cut starts inside the
/// text, the first cut is the cursor itself, every later cut is where the
/// step from the previous one ends, and the step from the last cut leaves
/// nothing but the end of the text.
pub proof fn lemma_lex_cuts_struct(text: Seq<char>, i: int)
    requires
        0 <= i <= text.len(),
    ensures
        ({
            let cs = lex_cuts(text, i);
            &&& (cs.len() == 0 <==> cr_end(text, i) >= text.len())
            &&& cs.len() > 0 ==> cs[0] == i
            &&& forall|k: int|
                0 <= k < cs.len() ==> i <= #[trigger] cs[k] <= text.len() && cr_end(text, cs[k])
                    < text.len()
            &&& forall|k: int|
                0 <= k < cs.len() - 1 ==> cs[k + 1] == step_end(text, #[trigger] cs[k])
            &&& cs.len() > 0 ==> cr_end(text, step_end(text, cs[cs.len() - 1])) >= text.len()
        }),
    decreases text.len() - i,
{
    lemma_step_end_bounds(text, i);
    let cs = lex_cuts(text, i);
    if cr_end(text, i) < text.len() {
        let j = step_end(text, i);
        lemma_lex_cuts_struct(text, j);
        let tail = lex_cuts(text, j);
        assert(cs == seq![i] + tail);
        assert(forall|k: int| 0 <= k < tail.len() ==> cs[k + 1] == #[trigger] tail[k]);
        if tail.len() == 0 {
            assert(cs[cs.len() - 1] == i);
        } else {
            assert(cs[cs.len() - 1] == tail[tail.len() - 1]);
        }
    }
}

/// A token produced at a cut is an end of statement exactly when the
/// character there, past any carriage returns, is a line break.
pub proof fn lemma_tok_at_eos(text: Seq<char>, i: int, t: Token)
    requires
        0 <= i <= text.len(),
        tok_at(text, i, t),
    ensures
        is_eos(t) <==> text[cr_end(text, i)] == '\n',
{
}

/// The lexer never produces two ends of statement in a row: the separator
/// swallows the whole run of line breaks behind it.
pub proof fn lemma_lexed_no_adjacent_eos(text: Seq<char>, raw: Seq<Token>, k: int)
    requires
        lexed(text, raw),
        0 <= k < raw.len() - 1,
        is_eos(raw[k]),
    ensures
        !is_eos(raw[k + 1]),
{
    let cs = lex_cuts(text, 0);
    lemma_lex_cuts_struct(text, 0);
    let i = cs[k];
    let j = cs[k + 1];
    assert(j == step_end(text, i));
    lemma_tok_at_eos(text, i, raw[k]);
    lemma_tok_at_eos(text, j, raw[k + 1]);
    let a = cr_end(text, i);
    lemma_run_end(text, i, 0, ' ');
    assert(text[a] == '\n');
    assert(j == run_end(text, a + 1, 1, ' '));
    lemma_run_end(text, a + 1, 1, ' ');
    assert(cr_end(text, j) < text.len());
    lemma_run_end(text, j, 0, ' ');
    if text[j] == '\r' {
        assert(run_pred(1, ' ', text[j]));
        assert(false);
    }
    assert(cr_end(text, j) == j);
    if text[j] == '\n' {
        assert(run_pred(1, ' ', text[j]));
        assert(false);
    }
}

/// If the remaining input ends with a separator, folding a comment always
/// stops at one rather than running out of tokens.
pub proof fn lemma_cmt_scan_stops(toks: Seq<Token>, indent: int, k: int)
    requires
        0 <= k < toks.len(),
        is_eos(toks[toks.len() - 1]),
    ensures
        cmt_stopped(toks, indent, k),
    decreases toks.len() - k,
{
    if k == toks.len() - 1 {
        assert(find_from(toks, k + 1, crate::script::Feature::CodeAndCmts) == toks.len());
        assert(!cmt_continues(toks, indent, k + 1));
    } else {
        if !(is_eos(toks[k]) && !cmt_continues(toks, indent, k + 1)) {
            lemma_cmt_scan_stops(toks, indent, k + 1);
        }
    }
}

/// What the retokenizer leaves of a stream that ends with one separator
/// and never holds two in a row: the output still ends with exactly one,
/// never holds two in a row, and opens with an end of statement only
/// where the input did.
pub proof fn lemma_retok_totality(toks: Seq<Token>, i: int, out: Seq<Token>)
    requires
        0 <= i <= toks.len(),
        retok_from(toks, i, out),
        i < toks.len() ==> is_eos(toks[toks.len() - 1]),
        forall|k: int| 0 <= k < toks.len() - 1 && is_eos(#[trigger] toks[k]) ==> !is_eos(toks[k + 1]),
    ensures
        out.len() > 0 <==> i < toks.len(),
        i < toks.len() ==> is_eos(out[out.len() - 1]),
        out.len() > 0 ==> (is_eos(out[0]) ==> is_eos(toks[i])),
        forall|j: int| 0 <= j < out.len() - 1 && is_eos(#[trigger] out[j]) ==> !is_eos(out[j + 1]),
    decreases toks.len() - i,
{
    if i >= toks.len() {
        return ;
    }
    if !(toks[i].lexeme is Cmt) {
        let rest = out.skip(1);
        lemma_retok_totality(toks, i + 1, rest);
        assert(forall|j: int| 0 <= j < rest.len() ==> rest[j] == #[trigger] out[j + 1]);
        if i + 1 == toks.len() {
            assert(out.len() == 1);
            assert(is_eos(toks[i]));
            assert(is_eos(out[0]));
        } else {
            assert(out.len() == rest.len() + 1);
            assert(is_eos(out[out.len() - 1]) == is_eos(rest[rest.len() - 1]));
            assert forall|j: int|
                0 <= j < out.len() - 1 && is_eos(#[trigger] out[j]) implies !is_eos(
                out[j + 1],
            ) by {
                if j == 0 {
                    assert(is_eos(toks[i]));
                    assert(!is_eos(toks[i + 1]));
                    if is_eos(out[1]) {
                        assert(is_eos(rest[0]));
                        assert(is_eos(toks[i + 1]));
                    }
                } else {
                    assert(is_eos(rest[j - 1]));
                    assert(!is_eos(rest[j]));
                }
            }
        }
    } else {
        let ind = toks[i].pos.grapheme as int;
        let e = cmt_end(toks, ind, i + 1);
        let stopped = cmt_stopped(toks, ind, i + 1);
        lemma_cmt_end_bounds(toks, ind, i + 1);
        assert(i + 1 <= toks.len());
        if i + 1 == toks.len() {
            assert(is_eos(toks[toks.len() - 1]));
            assert(!(toks[toks.len() - 1].lexeme is Cmt));
            assert(false);
        }
        lemma_cmt_scan_stops(toks, ind, i + 1);
        assert(stopped);
        let rest = out.skip(2);
        lemma_retok_totality(toks, e, rest);
        assert(forall|j: int| 0 <= j < rest.len() ==> rest[j] == #[trigger] out[j + 2]);
        assert(!is_eos(out[0]));
        assert(is_eos(out[1]));
        if e == toks.len() {
            assert(rest.len() == 0);
            assert(out.len() == 2);
        } else {
            assert(rest.len() > 0);
            assert(!is_eos(toks[e]));
            assert(!is_eos(rest[0]));
        }
        assert forall|j: int|
            0 <= j < out.len() - 1 && is_eos(#[trigger] out[j]) implies !is_eos(out[j + 1]) by {
            if j == 0 {
            } else if j == 1 {
                if out.len() > 2 {
                    assert(!is_eos(rest[0]));
                }
            } else {
                assert(is_eos(rest[j - 2]));
                assert(!is_eos(rest[j - 1]));
            }
        }
    }
}

/// **Statement-separator totality.** Every non-empty finalized token
/// sequence ends with exactly one end of statement, whether or not the
/// source ended with a line break.
pub proof fn lemma_separator_totality(
    text: Seq<char>,
    raw: Seq<Token>,
    ext: Seq<Token>,
    rt: Seq<Token>,
    out: Seq<Token>,
)
    requires
        lexed(text, raw),
        separator_added(text, raw, ext),
        retok_from(ext, 0, rt),
        toks_deep_eq(out, rt),
        out.len() > 0,
    ensures
        is_eos(out[out.len() - 1]),
        out.len() >= 2 ==> !is_eos(out[out.len() - 2]),
{
    assert(rt.len() == out.len());
    if raw.len() == 0 {
        assert(ext == raw);
        assert(ext.len() == 0);
        assert(rt.len() == 0);
        assert(false);
    }
    assert(is_eos(ext[ext.len() - 1])) by {
        if !is_eos(raw[raw.len() - 1]) {
        } else {
            assert(ext == raw);
        }
    }
    assert(forall|k: int|
        0 <= k < ext.len() - 1 && is_eos(#[trigger] ext[k]) ==> !is_eos(ext[k + 1])) by {
        assert forall|k: int|
            0 <= k < ext.len() - 1 && is_eos(#[trigger] ext[k]) implies !is_eos(ext[k + 1]) by {
            if raw.len() > 0 && !is_eos(raw[raw.len() - 1]) {
                // A separator was appended after a non-separator.
                if k + 1 < raw.len() {
                    assert(ext[k] == raw[k]);
                    assert(ext[k + 1] == raw[k + 1]);
                    lemma_lexed_no_adjacent_eos(text, raw, k);
                } else {
                    assert(ext[k] == raw[k]);
                    assert(!is_eos(raw[raw.len() - 1]));
                }
            } else {
                assert(ext == raw);
                lemma_lexed_no_adjacent_eos(text, raw, k);
            }
        }
    }
    lemma_retok_totality(ext, 0, rt);
    assert(is_eos(rt[rt.len() - 1]));
    assert(tok_eq(out[out.len() - 1], rt[out.len() - 1]));
    if out.len() >= 2 {
        assert(!is_eos(rt[rt.len() - 2]));
        assert(tok_eq(out[out.len() - 2], rt[out.len() - 2]));
    }
}


/// Position order: later in the text means a later line, or the same
/// line no earlier in it.
pub open spec fn pos_le(a: Pos, b: Pos) -> bool {
    a.line < b.line || (a.line == b.line && a.grapheme <= b.grapheme)
}

/// Lexicographic order on a (line, column) pair.
pub open spec fn key_le(l1: int, c1: int, l2: int, c2: int) -> bool {
    l1 < l2 || (l1 == l2 && c1 <= c2)
}

/// Consuming more text never moves the position backwards, and the
/// column stays monotone while the line does not change.
pub proof fn lemma_key_mono(text: Seq<char>, x: int, y: int)
    requires
        0 <= x <= y,
    ensures
        key_le(line_at(text, x), col_at(text, x), line_at(text, y), col_at(text, y)),
        line_at(text, x) <= line_at(text, y),
        line_at(text, x) == line_at(text, y) ==> col_at(text, x) <= col_at(text, y),
    decreases y - x,
{
    if x < y {
        lemma_key_mono(text, x, y - 1);
    }
}

/// Between a cut and the character the token starts at there are only
/// carriage returns, so the line does not change.
pub proof fn lemma_cr_run_line(text: Seq<char>, i: int, a: int)
    requires
        0 <= i <= a <= text.len(),
        forall|j: int| i <= j < a ==> #[trigger] text[j] == '\r',
    ensures
        line_at(text, a) == line_at(text, i),
        col_at(text, a) >= col_at(text, i),
    decreases a - i,
{
    if i < a {
        lemma_cr_run_line(text, i + 1, a);
    }
}

/// Where the position a token carries lies: at or after the position of
/// its cut, and, for everything but a separator, at or before the
/// position where its step ends. A separator's position lies strictly
/// before the line where the step ends.
pub proof fn lemma_tok_pos_bounds(text: Seq<char>, i: int, t: Token)
    requires
        0 <= i <= text.len(),
        tok_at(text, i, t),
    ensures
        key_le(line_at(text, i), col_at(text, i), t.pos.line as int, t.pos.grapheme as int),
        !is_eos(t) ==> t.pos.line as int == line_at(
            text,
            cr_end(text, i) + 1,
        ) && t.pos.grapheme as int == col_at(text, cr_end(text, i) + 1),
        is_eos(t) ==> (t.pos.line as int) < line_at(text, step_end(text, i)),
{
    let a = cr_end(text, i);
    lemma_run_end(text, i, 0, ' ');
    lemma_cr_run_line(text, i, a);
    let c = text[a];
    if c == '\n' {
        assert(line_at(text, a + 1) == line_at(text, a) + 1);
        lemma_run_end(text, a + 1, 1, ' ');
        lemma_key_mono(text, a + 1, step_end(text, i));
    } else {
        assert(line_at(text, a + 1) == line_at(text, a));
        assert(col_at(text, a + 1) == col_at(text, a) + 1);
    }
}

/// **Position monotonicity**, raw stream: for all adjacent raw tokens the
/// position never goes backwards.
pub proof fn lemma_lexed_monotonic(text: Seq<char>, raw: Seq<Token>, k: int)
    requires
        lexed(text, raw),
        0 <= k < raw.len() - 1,
    ensures
        pos_le(raw[k].pos, raw[k + 1].pos),
{
    let cs = lex_cuts(text, 0);
    lemma_lex_cuts_struct(text, 0);
    let i = cs[k];
    let j = cs[k + 1];
    assert(j == step_end(text, i));
    lemma_step_end_bounds(text, i);
    lemma_tok_pos_bounds(text, i, raw[k]);
    lemma_tok_pos_bounds(text, j, raw[k + 1]);
    lemma_run_end(text, j, 0, ' ');
    lemma_cr_run_line(text, j, cr_end(text, j));
    lemma_key_mono(text, cr_end(text, i) + 1, j);
    lemma_key_mono(text, j, cr_end(text, j) + 1);
    if !is_eos(raw[k]) {
        lemma_key_mono(text, cr_end(text, i) + 1, cr_end(text, j) + 1);
    } else {
        assert((raw[k].pos.line as int) < line_at(text, j));
        assert(line_at(text, j) <= raw[k + 1].pos.line as int);
    }
}

/// Ranges of a monotone stream compare by their ends.
pub proof fn lemma_pos_le_range(toks: Seq<Token>, a: int, b: int)
    requires
        0 <= a <= b < toks.len(),
        forall|k: int| 0 <= k < toks.len() - 1 ==> pos_le(#[trigger] toks[k].pos, toks[k + 1].pos),
    ensures
        pos_le(toks[a].pos, toks[b].pos),
    decreases b - a,
{
    if a < b {
        lemma_pos_le_range(toks, a, b - 1);
        assert(pos_le(toks[b - 1].pos, toks[b].pos));
    }
}

/// The retokenizer keeps positions monotone: folded comments keep their
/// marker's position and re-emitted separators keep their own.
pub proof fn lemma_retok_monotonic(toks: Seq<Token>, i: int, out: Seq<Token>)
    requires
        0 <= i <= toks.len(),
        retok_from(toks, i, out),
        forall|k: int| 0 <= k < toks.len() - 1 ==> pos_le(#[trigger] toks[k].pos, toks[k + 1].pos),
    ensures
        out.len() > 0 ==> i < toks.len() && out[0].pos == toks[i].pos,
        forall|j: int| 0 <= j < out.len() - 1 ==> pos_le(#[trigger] out[j].pos, out[j + 1].pos),
    decreases toks.len() - i,
{
    if i >= toks.len() {
        return ;
    }
    if !(toks[i].lexeme is Cmt) {
        let rest = out.skip(1);
        lemma_retok_monotonic(toks, i + 1, rest);
        assert(forall|j: int| 0 <= j < rest.len() ==> rest[j] == #[trigger] out[j + 1]);
        assert forall|j: int| 0 <= j < out.len() - 1 implies pos_le(
            #[trigger] out[j].pos,
            out[j + 1].pos,
        ) by {
            if j == 0 {
                assert(rest.len() > 0);
                assert(rest[0].pos == toks[i + 1].pos);
                assert(pos_le(toks[i].pos, toks[i + 1].pos));
            } else {
                assert(pos_le(rest[j - 1].pos, rest[j].pos));
            }
        }
    } else {
        let ind = toks[i].pos.grapheme as int;
        let e = cmt_end(toks, ind, i + 1);
        let stopped = cmt_stopped(toks, ind, i + 1);
        lemma_cmt_end_bounds(toks, ind, i + 1);
        if stopped {
            let rest = out.skip(2);
            lemma_retok_monotonic(toks, e, rest);
            assert(forall|j: int| 0 <= j < rest.len() ==> rest[j] == #[trigger] out[j + 2]);
            assert(out[1].pos == toks[e - 1].pos);
            assert forall|j: int| 0 <= j < out.len() - 1 implies pos_le(
                #[trigger] out[j].pos,
                out[j + 1].pos,
            ) by {
                if j == 0 {
                    lemma_pos_le_range(toks, i, e - 1);
                } else if j == 1 {
                    if out.len() > 2 {
                        assert(rest[0].pos == toks[e].pos);
                        lemma_pos_le_range(toks, e - 1, e);
                    }
                } else {
                    assert(pos_le(rest[j - 2].pos, rest[j - 1].pos));
                }
            }
        } else {
            let rest = out.skip(1);
            lemma_retok_monotonic(toks, e, rest);
            assert(forall|j: int| 0 <= j < rest.len() ==> rest[j] == #[trigger] out[j + 1]);
            assert forall|j: int| 0 <= j < out.len() - 1 implies pos_le(
                #[trigger] out[j].pos,
                out[j + 1].pos,
            ) by {
                if j == 0 {
                    assert(rest.len() > 0);
                    assert(rest[0].pos == toks[e].pos);
                    lemma_pos_le_range(toks, i, e);
                } else {
                    assert(pos_le(rest[j - 1].pos, rest[j].pos));
                }
            }
        }
    }
}

/// **Position monotonicity.** For all adjacent tokens of the finalized
/// sequence, the later token stands on a later line, or on the same line
/// at no earlier column.
pub proof fn lemma_position_monotonicity(
    text: Seq<char>,
    raw: Seq<Token>,
    ext: Seq<Token>,
    rt: Seq<Token>,
    out: Seq<Token>,
)
    requires
        lexed(text, raw),
        separator_added(text, raw, ext),
        retok_from(ext, 0, rt),
        toks_deep_eq(out, rt),
    ensures
        forall|k: int| 0 <= k < out.len() - 1 ==> pos_le(#[trigger] out[k].pos, out[k + 1].pos),
{
    assert(forall|k: int|
        0 <= k < raw.len() - 1 ==> pos_le(#[trigger] raw[k].pos, raw[k + 1].pos)) by {
        assert forall|k: int|
            0 <= k < raw.len() - 1 implies pos_le(#[trigger] raw[k].pos, raw[k + 1].pos) by {
            lemma_lexed_monotonic(text, raw, k);
        }
    }
    assert(forall|k: int|
        0 <= k < ext.len() - 1 ==> pos_le(#[trigger] ext[k].pos, ext[k + 1].pos)) by {
        assert forall|k: int|
            0 <= k < ext.len() - 1 implies pos_le(#[trigger] ext[k].pos, ext[k + 1].pos) by {
            if raw.len() > 0 && !is_eos(raw[raw.len() - 1]) {
                if k + 1 < raw.len() {
                } else {
                    // The synthesized separator: same line as the last
                    // token, one column past the end of the input.
                    let last = raw[raw.len() - 1];
                    let cs = lex_cuts(text, 0);
                    lemma_lex_cuts_struct(text, 0);
                    let li = cs[raw.len() - 1];
                    lemma_tok_pos_bounds(text, li, last);
                    lemma_step_end_bounds(text, li);
                    lemma_key_mono(text, cr_end(text, li) + 1, text.len() as int);
                }
            }
        }
    }
    lemma_retok_monotonic(ext, 0, rt);
    assert forall|k: int| 0 <= k < out.len() - 1 implies pos_le(
        #[trigger] out[k].pos,
        out[k + 1].pos,
    ) by {
        assert(tok_eq(out[k], rt[k]));
        assert(tok_eq(out[k + 1], rt[k + 1]));
        assert(pos_le(rt[k].pos, rt[k + 1].pos));
    }
}


/// Does the whole source text use only the one-character forms the token
/// stream can reproduce: no tabs, no carriage returns, no two spaces in a
/// row and no two line breaks in a row?
pub open spec fn clean(text: Seq<char>) -> bool {
    &&& forall|i: int| 0 <= i < text.len() ==> #[trigger] text[i] != '\t' && text[i] != '\r'
    &&& forall|i: int|
        0 <= i < text.len() - 1 ==> !(#[trigger] text[i] == ' ' && text[i + 1] == ' ') && !(
        text[i] == '\n' && text[i + 1] == '\n')
}

/// The source characters an unfolded token stands for: a separator for a
/// line break, a whitespace token for one space, and every other token
/// for its own literal.
pub open spec fn src_simple(t: Token) -> Seq<char> {
    match t.lexeme {
        Table::EndOfStmt => seq!['\n'],
        Table::Whitespace => seq![' '],
        Table::Id(o) => match o {
            Some(v) => v@,
            None => Seq::empty(),
        },
        Table::Fn => fn_chars(),
        Table::KeywordExtern => kw_extern_chars(),
        Table::StringLit(o) => match o {
            Some(v) => v@,
            None => Seq::empty(),
        },
        Table::CharLit(o) => match o {
            Some(v) => v@,
            None => Seq::empty(),
        },
        Table::DivisionSym => seq!['/'],
        Table::Cmt(_) => cmt_chars(),
        Table::Illegal(o) => match o {
            Some(v) => v@,
            None => Seq::empty(),
        },
    }
}

/// The source characters of a run of unfolded tokens.
pub open spec fn concat_src(s: Seq<Token>) -> Seq<char>
    decreases s.len(),
{
    if s.len() == 0 {
        Seq::empty()
    } else {
        src_simple(s[0]) + concat_src(s.drop_first())
    }
}

/// The source characters a finalized token stands for: a folded comment
/// stands for its marker and its payload; the terminating separator is
/// not in the payload and stands for itself in the main stream.
pub open spec fn src_tok(t: Token) -> Seq<char> {
    match t.lexeme {
        Table::Cmt(Some(v)) => cmt_chars() + concat_src(v@),
        _ => src_simple(t),
    }
}

/// The source characters of a finalized token sequence.
pub open spec fn src_all(s: Seq<Token>) -> Seq<char>
    decreases s.len(),
{
    if s.len() == 0 {
        Seq::empty()
    } else {
        src_tok(s[0]) + src_all(s.drop_first())
    }
}

/// Deeply equal unfolded tokens stand for the same source characters.
pub proof fn lemma_src_simple_congruent(a: Token, b: Token)
    requires
        simple_tok_eq(a, b),
    ensures
        src_simple(a) == src_simple(b),
{
    assert(src_simple(a) =~= src_simple(b));
}

/// Deeply equal runs stand for the same source characters.
pub proof fn lemma_concat_src_congruent(x: Seq<Token>, y: Seq<Token>)
    requires
        toks_sim_eq(x, y),
    ensures
        concat_src(x) == concat_src(y),
    decreases x.len(),
{
    if x.len() > 0 {
        assert(simple_tok_eq(x[0], y[0]));
        lemma_src_simple_congruent(x[0], y[0]);
        assert(toks_sim_eq(x.drop_first(), y.drop_first())) by {
            assert(forall|k: int|
                0 <= k < x.drop_first().len() ==> x.drop_first()[k] == x[k + 1]
                    && y.drop_first()[k] == y[k + 1]);
        }
        lemma_concat_src_congruent(x.drop_first(), y.drop_first());
    }
}

/// Deeply equal tokens stand for the same source characters.
pub proof fn lemma_src_tok_congruent(a: Token, b: Token)
    requires
        tok_eq(a, b),
    ensures
        src_tok(a) == src_tok(b),
{
    match (a.lexeme, b.lexeme) {
        (Table::Cmt(Some(v)), Table::Cmt(Some(w))) => {
            lemma_concat_src_congruent(v@, w@);
        },
        _ => {
            assert(src_tok(a) =~= src_tok(b));
        },
    }
}

/// Deeply equal finalized sequences stand for the same source characters.
pub proof fn lemma_src_all_congruent(x: Seq<Token>, y: Seq<Token>)
    requires
        toks_deep_eq(x, y),
    ensures
        src_all(x) == src_all(y),
    decreases x.len(),
{
    if x.len() > 0 {
        assert(tok_eq(x[0], y[0]));
        lemma_src_tok_congruent(x[0], y[0]);
        assert(toks_deep_eq(x.drop_first(), y.drop_first())) by {
            assert(forall|k: int|
                0 <= k < x.drop_first().len() ==> x.drop_first()[k] == x[k + 1]
                    && y.drop_first()[k] == y[k + 1]);
        }
        lemma_src_all_congruent(x.drop_first(), y.drop_first());
    }
}

/// Concatenating runs concatenates their source characters.
pub proof fn lemma_concat_src_cat(a: Seq<Token>, b: Seq<Token>)
    ensures
        concat_src(a + b) == concat_src(a) + concat_src(b),
    decreases a.len(),
{
    if a.len() == 0 {
        assert(a + b =~= b);
        assert(concat_src(a) + concat_src(b) =~= concat_src(b));
    } else {
        assert((a + b).drop_first() =~= a.drop_first() + b);
        lemma_concat_src_cat(a.drop_first(), b);
        assert((a + b)[0] == a[0]);
        assert(src_simple(a[0]) + (concat_src(a.drop_first()) + concat_src(b)) =~= (src_simple(
            a[0],
        ) + concat_src(a.drop_first())) + concat_src(b));
    }
}

/// Splitting a finalized sequence splits its source characters.
pub proof fn lemma_src_all_cat(a: Seq<Token>, b: Seq<Token>)
    ensures
        src_all(a + b) == src_all(a) + src_all(b),
    decreases a.len(),
{
    if a.len() == 0 {
        assert(a + b =~= b);
        assert(src_all(a) + src_all(b) =~= src_all(b));
    } else {
        assert((a + b).drop_first() =~= a.drop_first() + b);
        lemma_src_all_cat(a.drop_first(), b);
        assert((a + b)[0] == a[0]);
        assert(src_tok(a[0]) + (src_all(a.drop_first()) + src_all(b)) =~= (src_tok(a[0]) + src_all(
            a.drop_first(),
        )) + src_all(b));
    }
}

/// On unfolded tokens the finalized rendering is the plain one.
pub proof fn lemma_src_all_simple(s: Seq<Token>)
    requires
        forall|k: int| 0 <= k < s.len() ==> simple_token(#[trigger] s[k]),
    ensures
        src_all(s) == concat_src(s),
    decreases s.len(),
{
    if s.len() > 0 {
        assert(simple_token(s[0]));
        assert(src_tok(s[0]) == src_simple(s[0]));
        assert(forall|k: int|
            0 <= k < s.drop_first().len() ==> s.drop_first()[k] == #[trigger] s[k + 1]);
        lemma_src_all_simple(s.drop_first());
    }
}

/// In clean text, the token produced at a cut stands for exactly the
/// characters its step consumes.
pub proof fn lemma_tok_render(text: Seq<char>, i: int, t: Token)
    requires
        clean(text),
        0 <= i <= text.len(),
        tok_at(text, i, t),
    ensures
        src_tok(t) == text.subrange(i, step_end(text, i)),
{
    let a = cr_end(text, i);
    lemma_run_end(text, i, 0, ' ');
    assert(a == i) by {
        if a > i {
            assert(run_pred(0, ' ', text[i]));
        }
    }
    let e = step_end(text, i);
    let c = text[i];
    if c == '\n' {
        lemma_run_end(text, i + 1, 1, ' ');
        assert(e == run_end(text, i + 1, 1, ' '));
        assert(e == i + 1) by {
            if e > i + 1 {
                assert(run_pred(1, ' ', text[i + 1]));
                assert(text[i + 1] == '\r' || text[i + 1] == '\n');
            }
        }
        assert(src_tok(t) =~= text.subrange(i, i + 1));
    } else if crate::lex::is_space(c) {
        lemma_run_end(text, i + 1, 2, ' ');
        assert(c == ' ');
        assert(e == i + 1) by {
            if e > i + 1 {
                assert(run_pred(2, ' ', text[i + 1]));
            }
        }
        assert(src_tok(t) =~= text.subrange(i, i + 1));
    } else if crate::lex::is_word_start(c) {
        let w = run_end(text, i + 1, 3, ' ');
        assert(e == w);
        if text.subrange(i, w) == fn_chars() {
            assert(src_tok(t) == text.subrange(i, e));
        } else if text.subrange(i, w) == kw_extern_chars() {
            assert(src_tok(t) == text.subrange(i, e));
        } else {
            assert(src_tok(t) =~= text.subrange(i, e));
        }
    } else if c == '"' {
        assert(src_tok(t) =~= text.subrange(i, e));
    } else if c == '\'' {
        assert(src_tok(t) =~= text.subrange(i, e));
    } else if c == '/' {
        if i + 1 < text.len() && text[i + 1] == '/' {
            assert(e == i + 2);
            assert(src_tok(t) =~= text.subrange(i, i + 2));
        } else {
            assert(e == i + 1);
            assert(src_tok(t) =~= text.subrange(i, i + 1));
        }
    } else {
        assert(e == i + 1);
        assert(src_tok(t) =~= text.subrange(i, i + 1));
    }
}

/// In clean text the raw token sequence from any cursor stands for
/// exactly the rest of the text.
pub proof fn lemma_lexed_render(text: Seq<char>, i: int, toks: Seq<Token>)
    requires
        clean(text),
        0 <= i <= text.len(),
        toks.len() == lex_cuts(text, i).len(),
        forall|k: int| 0 <= k < toks.len() ==> tok_at(text, lex_cuts(text, i)[k], toks[k]),
    ensures
        concat_src(toks) == text.subrange(i, text.len() as int),
    decreases text.len() - i,
{
    lemma_step_end_bounds(text, i);
    lemma_run_end(text, i, 0, ' ');
    if cr_end(text, i) >= text.len() {
        assert(cr_end(text, i) == i) by {
            if cr_end(text, i) > i {
                assert(run_pred(0, ' ', text[i]));
            }
        }
        assert(toks.len() == 0);
        assert(concat_src(toks) =~= text.subrange(i, text.len() as int));
    } else {
        let j = step_end(text, i);
        assert(lex_cuts(text, i) == seq![i] + lex_cuts(text, j));
        assert(lex_cuts(text, i)[0] == i);
        assert(tok_at(text, i, toks[0]));
        lemma_tok_render(text, i, toks[0]);
        assert(forall|k: int|
            0 <= k < toks.drop_first().len() ==> lex_cuts(text, j)[k] == lex_cuts(text, i)[k + 1]
                && toks.drop_first()[k] == #[trigger] toks[k + 1]);
        lemma_lexed_render(text, j, toks.drop_first());
        assert(src_simple(toks[0]) == src_tok(toks[0])) by {
            assert(tok_at(text, i, toks[0]));
            assert(!(toks[0].lexeme matches Table::Cmt(Some(_))));
        }
        assert(text.subrange(i, j) + text.subrange(j, text.len() as int) =~= text.subrange(
            i,
            text.len() as int,
        ));
    }
}


/// The retokenizer neither loses nor duplicates source characters: what
/// its output stands for is what the remaining input stands for.
pub proof fn lemma_retok_render(toks: Seq<Token>, i: int, out: Seq<Token>)
    requires
        0 <= i <= toks.len(),
        retok_from(toks, i, out),
        forall|k: int| 0 <= k < toks.len() ==> simple_token(#[trigger] toks[k]),
        i < toks.len() ==> is_eos(toks[toks.len() - 1]),
    ensures
        src_all(out) == concat_src(toks.subrange(i, toks.len() as int)),
    decreases toks.len() - i,
{
    let n = toks.len() as int;
    if i >= n {
        assert(src_all(out) =~= concat_src(toks.subrange(i, n)));
        return ;
    }
    if !(toks[i].lexeme is Cmt) {
        let rest = out.skip(1);
        lemma_retok_render(toks, i + 1, rest);
        lemma_src_tok_congruent(out[0], toks[i]);
        assert(out.drop_first() =~= rest);
        assert(toks.subrange(i, n)[0] == toks[i]);
        assert(toks.subrange(i, n).drop_first() =~= toks.subrange(i + 1, n));
        assert(src_tok(toks[i]) == src_simple(toks[i]));
        assert(src_all(out) == src_tok(out[0]) + src_all(rest));
        assert(concat_src(toks.subrange(i, n)) == src_simple(toks[i]) + concat_src(
            toks.subrange(i + 1, n),
        ));
    } else {
        let ind = toks[i].pos.grapheme as int;
        let e = cmt_end(toks, ind, i + 1);
        lemma_cmt_end_bounds(toks, ind, i + 1);
        if i + 1 == toks.len() {
            assert(is_eos(toks[toks.len() - 1]));
            assert(false);
        }
        lemma_cmt_scan_stops(toks, ind, i + 1);
        assert(cmt_stopped(toks, ind, i + 1));
        assert(i + 2 <= e <= n);
        assert(is_eos(toks[e - 1]));
        let rest = out.skip(2);
        lemma_retok_render(toks, e, rest);

        // The folded comment's payload: the content alone, the
        // terminating separator left in the main stream.
        let pl = toks.subrange(i + 1, e - 1);
        if pl.len() > 0 {
            let v = out[0].lexeme->Cmt_0->Some_0;
            assert(out[0].lexeme matches Table::Cmt(Some(w)) && w == v);
            lemma_concat_src_congruent(v@, pl);
        } else {
            assert(out[0].lexeme matches Table::Cmt(None::<Vec<Token>>));
            assert(concat_src(pl) =~= Seq::<char>::empty());
            assert(cmt_chars() + concat_src(pl) =~= cmt_chars());
        }
        assert(src_tok(out[0]) == cmt_chars() + concat_src(toks.subrange(i + 1, e - 1)));

        // The re-emitted separator.
        assert(simple_tok_eq(out[1], toks[e - 1]));
        lemma_src_simple_congruent(out[1], toks[e - 1]);
        assert(out[1].lexeme is EndOfStmt);
        assert(src_tok(out[1]) == src_simple(toks[e - 1]));

        // Unfold the output twice.
        assert(out.drop_first()[0] == out[1]);
        assert(out.drop_first().drop_first() =~= rest);
        assert(out.drop_first().len() > 0);
        assert(src_all(out.drop_first()) == src_tok(out[1]) + src_all(rest));
        assert(src_all(out) == src_tok(out[0]) + (src_tok(out[1]) + src_all(rest)));

        // Split the input segment at the marker, at the separator and at
        // the end of the fold.
        assert(toks.subrange(i, n)[0] == toks[i]);
        assert(toks.subrange(i, n).drop_first() =~= toks.subrange(i + 1, n));
        assert(concat_src(toks.subrange(i, n)) == src_simple(toks[i]) + concat_src(
            toks.subrange(i + 1, n),
        ));
        assert(toks.subrange(i + 1, n) =~= toks.subrange(i + 1, e - 1) + (seq![toks[e - 1]]
            + toks.subrange(e, n)));
        lemma_concat_src_cat(toks.subrange(i + 1, e - 1), seq![toks[e - 1]] + toks.subrange(e, n));
        lemma_concat_src_cat(seq![toks[e - 1]], toks.subrange(e, n));
        assert(seq![toks[e - 1]].drop_first() =~= Seq::<Token>::empty());
        assert(concat_src(Seq::<Token>::empty()) == Seq::<char>::empty());
        assert(seq![toks[e - 1]][0] == toks[e - 1]);
        assert(concat_src(seq![toks[e - 1]]) =~= src_simple(toks[e - 1]));
        assert(src_simple(toks[i]) == cmt_chars());
        assert(src_all(out) =~= concat_src(toks.subrange(i, n)));
    }
}

/// **Lossless round-trip.** For clean source text — single spaces, single
/// line breaks, no carriage returns, no tabs — whose raw tokenization
/// ends with a separator of its own, the source characters the finalized
/// token sequence stands for are exactly the original text. The inputs
/// left out are those the tokenizer collapses: runs of whitespace or line
/// breaks keep no length, carriage returns vanish, and a missing final
/// break is synthesized.
pub proof fn lemma_lossless_round_trip(
    text: Seq<char>,
    raw: Seq<Token>,
    ext: Seq<Token>,
    rt: Seq<Token>,
    out: Seq<Token>,
)
    requires
        clean(text),
        lexed(text, raw),
        raw.len() > 0 ==> is_eos(raw[raw.len() - 1]),
        separator_added(text, raw, ext),
        retok_from(ext, 0, rt),
        toks_deep_eq(out, rt),
    ensures
        src_all(out) == text,
{
    assert(ext == raw);
    let cs = lex_cuts(text, 0);
    lemma_lex_cuts_struct(text, 0);
    if raw.len() == 0 {
        assert(cr_end(text, 0) >= text.len());
        if text.len() > 0 {
            lemma_run_end(text, 0, 0, ' ');
            assert(run_pred(0, ' ', text[0]));
            assert(false);
        }
        assert(rt.len() == 0);
        assert(out.len() == 0);
        assert(src_all(out) =~= text);
    } else {
        assert(forall|k: int| 0 <= k < raw.len() ==> simple_token(#[trigger] raw[k])) by {
            assert forall|k: int| 0 <= k < raw.len() implies simple_token(#[trigger] raw[k]) by {
                assert(tok_at(text, cs[k], raw[k]));
            }
        }
        lemma_retok_render(raw, 0, rt);
        assert(raw.subrange(0, raw.len() as int) =~= raw);
        lemma_lexed_render(text, 0, raw);
        lemma_src_all_congruent(out, rt);
        assert(text.subrange(0, text.len() as int) =~= text);
    }
}


/// Where the cut after `a` stands: at the next cut, or at the end of
/// the text for the last token.
pub open spec fn cut_after(text: Seq<char>, raw: Seq<Token>, a: int) -> int {
    if a + 1 < raw.len() {
        lex_cuts(text, 0)[a + 1]
    } else {
        text.len() as int
    }
}

/// One raw token of clean text stands for exactly its own span.
pub proof fn lemma_cut_span(text: Seq<char>, raw: Seq<Token>, a: int)
    requires
        clean(text),
        lexed(text, raw),
        0 <= a < raw.len(),
    ensures
        lex_cuts(text, 0)[a] <= cut_after(text, raw, a) <= text.len(),
        src_simple(raw[a]) == text.subrange(lex_cuts(text, 0)[a], cut_after(text, raw, a)),
{
    let cs = lex_cuts(text, 0);
    lemma_lex_cuts_struct(text, 0);
    lemma_tok_render(text, cs[a], raw[a]);
    lemma_step_end_bounds(text, cs[a]);
    assert(src_tok(raw[a]) == src_simple(raw[a])) by {
        assert(tok_at(text, cs[a], raw[a]));
    }
    if a + 1 < raw.len() {
        assert(cs[a + 1] == step_end(text, cs[a]));
    } else {
        let x = step_end(text, cs[a]);
        if x < text.len() {
            lemma_run_end(text, x, 0, ' ');
            assert(cr_end(text, x) >= text.len());
            assert(run_pred(0, ' ', text[x]));
            assert(false);
        }
    }
}

/// In clean text, a run of raw tokens stands for exactly the characters
/// between its first cut and the cut just past it.
pub proof fn lemma_lexed_render_range(text: Seq<char>, raw: Seq<Token>, a: int, b: int)
    requires
        clean(text),
        lexed(text, raw),
        0 <= a <= b <= raw.len(),
    ensures
        concat_src(raw.subrange(a, b)) == text.subrange(
            if a < raw.len() {
                lex_cuts(text, 0)[a]
            } else {
                text.len() as int
            },
            if b < raw.len() {
                lex_cuts(text, 0)[b]
            } else {
                text.len() as int
            },
        ),
    decreases b - a,
{
    let cs = lex_cuts(text, 0);
    let lo = if a < raw.len() {
        cs[a]
    } else {
        text.len() as int
    };
    let hi = if b < raw.len() {
        cs[b]
    } else {
        text.len() as int
    };
    assert(0 <= lo <= text.len()) by {
        if a < raw.len() {
            lemma_cut_in_range(text, raw, a);
        }
    }
    assert(0 <= hi <= text.len()) by {
        if b < raw.len() {
            lemma_cut_in_range(text, raw, b);
        }
    }
    if a == b {
        assert(raw.subrange(a, b) =~= Seq::<Token>::empty());
        assert(concat_src(raw.subrange(a, b)) =~= text.subrange(lo, lo));
    } else {
        lemma_cut_span(text, raw, a);
        lemma_lexed_render_range(text, raw, a + 1, b);
        let mid = cut_after(text, raw, a);
        assert(lo <= mid <= text.len());
        assert(mid <= hi) by {
            if b < raw.len() {
                lemma_cut_order(text, raw, a + 1, b);
            }
        }
        assert(raw.subrange(a, b)[0] == raw[a]);
        assert(raw.subrange(a, b).drop_first() =~= raw.subrange(a + 1, b));
        assert(text.subrange(lo, mid) + text.subrange(mid, hi) =~= text.subrange(lo, hi));
    }
}

/// A cut lies inside the text.
pub proof fn lemma_cut_in_range(text: Seq<char>, raw: Seq<Token>, a: int)
    requires
        lexed(text, raw),
        0 <= a < raw.len(),
    ensures
        0 <= lex_cuts(text, 0)[a] <= text.len(),
{
    lemma_lex_cuts_struct(text, 0);
}

/// Cuts come in order.
pub proof fn lemma_cut_order(text: Seq<char>, raw: Seq<Token>, a: int, b: int)
    requires
        lexed(text, raw),
        0 <= a <= b < raw.len(),
    ensures
        lex_cuts(text, 0)[a] <= lex_cuts(text, 0)[b],
    decreases b - a,
{
    lemma_lex_cuts_struct(text, 0);
    if a < b {
        lemma_cut_order(text, raw, a, b - 1);
        lemma_step_end_bounds(text, lex_cuts(text, 0)[b - 1]);
    }
}

/// Every folded comment of the retokenized stream comes from a marker and
/// a fold of the input: which marker, and where the fold ends.
pub proof fn lemma_retok_payload(toks: Seq<Token>, i: int, out: Seq<Token>, k: int) -> (r: (
    int,
    int,
))
    requires
        0 <= i <= toks.len(),
        retok_from(toks, i, out),
        forall|m: int| 0 <= m < toks.len() ==> simple_token(#[trigger] toks[m]),
        i < toks.len() ==> is_eos(toks[toks.len() - 1]),
        0 <= k < out.len(),
        out[k].lexeme matches Table::Cmt(Some(_)),
    ensures
        i <= r.0,
        r.0 + 2 <= r.1 <= toks.len(),
        toks[r.0].lexeme is Cmt,
        out[k].pos == toks[r.0].pos,
        toks[r.1 - 1].lexeme is EndOfStmt,
        r.1 == cmt_end(toks, toks[r.0].pos.grapheme as int, r.0 + 1),
        out[k].lexeme matches Table::Cmt(Some(v)) ==> toks_sim_eq(
            v@,
            toks.subrange(r.0 + 1, r.1 - 1),
        ),
    decreases toks.len() - i,
{
    assert(i < toks.len());
    if !(toks[i].lexeme is Cmt) {
        let rest = out.skip(1);
        if k == 0 {
            assert(tok_eq(out[0], toks[i]));
            assert(false);
        }
        let r = lemma_retok_payload(toks, i + 1, rest, k - 1);
        assert(rest[k - 1] == out[k]);
        r
    } else {
        let ind = toks[i].pos.grapheme as int;
        let e = cmt_end(toks, ind, i + 1);
        lemma_cmt_end_bounds(toks, ind, i + 1);
        if i + 1 == toks.len() {
            assert(is_eos(toks[toks.len() - 1]));
            assert(false);
        }
        lemma_cmt_scan_stops(toks, ind, i + 1);
        assert(cmt_stopped(toks, ind, i + 1));
        assert(i + 2 <= e <= toks.len());
        assert(is_eos(toks[e - 1]));
        if k == 0 {
            (i, e)
        } else if k == 1 {
            assert(simple_tok_eq(out[1], toks[e - 1]));
            assert(false);
            (0, 2)
        } else {
            let rest = out.skip(2);
            let r = lemma_retok_payload(toks, e, rest, k - 2);
            assert(rest[k - 2] == out[k]);
            r
        }
    }
}

/// **Comment payload round-trip.** Concatenating the source characters of
/// a folded comment's payload reproduces exactly the source slice from
/// just after the marker to just before its terminating separator,
/// continuation lines included; the fold's own separator is rendered by
/// the main stream.
pub proof fn lemma_comment_payload_round_trip(
    text: Seq<char>,
    raw: Seq<Token>,
    ext: Seq<Token>,
    rt: Seq<Token>,
    out: Seq<Token>,
    k: int,
) -> (r: (int, int))
    requires
        clean(text),
        lexed(text, raw),
        raw.len() > 0 ==> is_eos(raw[raw.len() - 1]),
        separator_added(text, raw, ext),
        retok_from(ext, 0, rt),
        toks_deep_eq(out, rt),
        0 <= k < out.len(),
        out[k].lexeme matches Table::Cmt(Some(_)),
    ensures
        0 <= r.0,
        r.0 + 2 <= r.1 <= raw.len(),
        raw[r.0].lexeme is Cmt,
        out[k].pos == raw[r.0].pos,
        raw[r.1 - 1].lexeme is EndOfStmt,
        out[k].lexeme matches Table::Cmt(Some(v)) ==> concat_src(v@) == text.subrange(
            step_end(text, lex_cuts(text, 0)[r.0]),
            lex_cuts(text, 0)[r.1 - 1],
        ),
{
    assert(ext == raw);
    let cs = lex_cuts(text, 0);
    lemma_lex_cuts_struct(text, 0);
    assert(forall|m: int| 0 <= m < raw.len() ==> simple_token(#[trigger] raw[m])) by {
        assert forall|m: int| 0 <= m < raw.len() implies simple_token(#[trigger] raw[m]) by {
            assert(tok_at(text, cs[m], raw[m]));
        }
    }
    assert(tok_eq(out[k], rt[k]));
    assert(rt[k].lexeme matches Table::Cmt(Some(_)));
    let r = lemma_retok_payload(raw, 0, rt, k);
    let j = r.0;
    let e = r.1;
    assert(out[k].pos == rt[k].pos);
    {
        let v = out[k].lexeme->Cmt_0->Some_0;
        assert(out[k].lexeme matches Table::Cmt(Some(vv)) && vv == v);
        let w = rt[k].lexeme->Cmt_0->Some_0;
        assert(rt[k].lexeme matches Table::Cmt(Some(ww)) && ww == w);
        assert(toks_sim_eq(v@, w@));
        assert(toks_sim_eq(w@, raw.subrange(j + 1, e - 1)));
        lemma_concat_src_congruent(v@, w@);
        lemma_concat_src_congruent(w@, raw.subrange(j + 1, e - 1));
        lemma_lexed_render_range(text, raw, j + 1, e - 1);
        assert(cs[j + 1] == step_end(text, cs[j]));
    }
    r
}


/// A token whose position and name length stay within the text length.
pub open spec fn tok_bounded(t: Token, n: int) -> bool {
    &&& t.pos.grapheme as int <= n + 1
    &&& (t.lexeme matches Table::Id(Some(v)) ==> v@.len() <= n)
}

/// Every raw token is bounded by the length of the text it came from.
pub proof fn lemma_lexed_bounded(text: Seq<char>, raw: Seq<Token>, k: int)
    requires
        lexed(text, raw),
        0 <= k < raw.len(),
    ensures
        tok_bounded(raw[k], text.len() as int),
{
    let cs = lex_cuts(text, 0);
    lemma_lex_cuts_struct(text, 0);
    let i = cs[k];
    let a = cr_end(text, i);
    lemma_run_end(text, i, 0, ' ');
    lemma_run_end(text, a + 1, 3, ' ');
    crate::pos::lemma_pos_bounds(text, a);
    crate::pos::lemma_pos_bounds(text, a + 1);
    lemma_tok_pos_bounds(text, i, raw[k]);
    assert(tok_at(text, i, raw[k]));
}

/// The retokenizer hands bounded tokens on.
pub proof fn lemma_retok_bounded(toks: Seq<Token>, i: int, out: Seq<Token>, n: int)
    requires
        0 <= i <= toks.len(),
        retok_from(toks, i, out),
        forall|k: int| 0 <= k < toks.len() ==> tok_bounded(#[trigger] toks[k], n),
    ensures
        forall|j: int| 0 <= j < out.len() ==> tok_bounded(#[trigger] out[j], n),
    decreases toks.len() - i,
{
    if i >= toks.len() {
        return ;
    }
    if !(toks[i].lexeme is Cmt) {
        let rest = out.skip(1);
        lemma_retok_bounded(toks, i + 1, rest, n);
        assert(forall|j: int| 0 <= j < rest.len() ==> rest[j] == #[trigger] out[j + 1]);
        assert forall|j: int| 0 <= j < out.len() implies tok_bounded(#[trigger] out[j], n) by {
            if j == 0 {
                assert(tok_eq(out[0], toks[i]));
                assert(tok_bounded(toks[i], n));
            } else {
                assert(tok_bounded(rest[j - 1], n));
            }
        }
    } else {
        let ind = toks[i].pos.grapheme as int;
        let e = cmt_end(toks, ind, i + 1);
        let stopped = cmt_stopped(toks, ind, i + 1);
        lemma_cmt_end_bounds(toks, ind, i + 1);
        if stopped {
            let rest = out.skip(2);
            lemma_retok_bounded(toks, e, rest, n);
            assert(forall|j: int| 0 <= j < rest.len() ==> rest[j] == #[trigger] out[j + 2]);
            assert forall|j: int| 0 <= j < out.len() implies tok_bounded(#[trigger] out[j], n) by {
                if j == 0 {
                    assert(out[0].pos == toks[i].pos);
                    assert(tok_bounded(toks[i], n));
                } else if j == 1 {
                    assert(simple_tok_eq(out[1], toks[e - 1]));
                    assert(tok_bounded(toks[e - 1], n));
                } else {
                    assert(tok_bounded(rest[j - 2], n));
                }
            }
        } else {
            let rest = out.skip(1);
            lemma_retok_bounded(toks, e, rest, n);
            assert(forall|j: int| 0 <= j < rest.len() ==> rest[j] == #[trigger] out[j + 1]);
            assert forall|j: int| 0 <= j < out.len() implies tok_bounded(#[trigger] out[j], n) by {
                if j == 0 {
                    assert(out[0].pos == toks[i].pos);
                    assert(tok_bounded(toks[i], n));
                } else {
                    assert(tok_bounded(rest[j - 1], n));
                }
            }
        }
    }
}

/// The finalized stream of a text short enough leaves room for all the
/// position arithmetic the parser does: what a verified caller needs to
/// hand a freshly built store to the parser.
pub proof fn lemma_finalized_positions_bounded(text: Seq<char>, out: Seq<Token>)
    requires
        finalized(text, out),
        2 * text.len() + 4 <= usize::MAX as int,
    ensures
        positions_bounded(out),
{
    let n = text.len() as int;
    let (raw, ext, rt) = choose|raw: Seq<Token>, ext: Seq<Token>, rt: Seq<Token>|
        {
            &&& #[trigger] lexed(text, raw)
            &&& separator_added(text, raw, ext)
            &&& #[trigger] retok_from(ext, 0, rt)
            &&& toks_deep_eq(out, rt)
        };
    assert(forall|k: int| 0 <= k < raw.len() ==> tok_bounded(#[trigger] raw[k], n)) by {
        assert forall|k: int| 0 <= k < raw.len() implies tok_bounded(#[trigger] raw[k], n) by {
            lemma_lexed_bounded(text, raw, k);
        }
    }
    assert(forall|k: int| 0 <= k < ext.len() ==> tok_bounded(#[trigger] ext[k], n)) by {
        assert forall|k: int| 0 <= k < ext.len() implies tok_bounded(#[trigger] ext[k], n) by {
            if k < raw.len() {
                assert(ext[k] == raw[k]);
            } else {
                crate::pos::lemma_pos_bounds(text, n);
            }
        }
    }
    lemma_retok_bounded(ext, 0, rt, n);
    assert forall|k: int|
        0 <= k < out.len() implies (#[trigger] out[k].pos.grapheme as int) + measured_len(
        out[k].lexeme,
    ) + 1 <= usize::MAX as int by {
        assert(tok_eq(out[k], rt[k]));
        assert(tok_bounded(rt[k], n));
        assert(out[k].pos.grapheme as int <= n + 1);
        match out[k].lexeme {
            Table::Id(o) => {
                match o {
                    Some(v) => {
                        assert(v@.len() <= n) by {
                            assert(rt[k].lexeme matches Table::Id(Some(w)) && w@ == v@);
                        }
                    },
                    None => {},
                }
            },
            _ => {},
        }
    }
}

} // verus!
