//! Diagnosis of language errors. A grammar violation is carried up as a
//! `Diag` value: the message and the position of the offending token. The
//! renderer turns one into the exact three-line report, rebuilding the
//! offending source line from the token store alone — it never re-reads
//! the file, so it reports exactly what the lexer and parser saw.
//!
//! ---
//! **Format:**
//!
//! `error: message → src/file`<br>
//! &nbsp;&nbsp;&nbsp;&nbsp;&nbsp;&nbsp;&nbsp;&nbsp;&nbsp;&nbsp;&nbsp;
//! `1 | line`<br>
//! &nbsp;&nbsp;&nbsp;&nbsp;&nbsp;&nbsp;&nbsp;&nbsp;&nbsp;&nbsp;&nbsp;&nbsp;
//! `↑ 1`

use crate::pos::Pos;
use crate::script::{find_from, is_eos, lemma_find_from, Feature, Mode, Script};
use crate::strutil::{dec_chars, push_spaces, space_seq, usize_to_string};
use crate::token::{lemma_lit_congruent, lit_chars, tok_eq, Table, Token};
use vstd::prelude::*;
use vstd::string::StrSliceExecFns;
use vstd::string::StringExecFns;

verus! {

/// One fatal language error: what went wrong and where.
#[derive(Debug)]
pub struct Diag {
    pub msg: String,
    pub pos: Pos,
}

/// What `pathdiff::diff_paths` computes for two textual paths: the
/// relative path from the second to the first, rendered as text. It is a
/// function of the two paths alone.
pub uninterp spec fn rel_path_of(path: Seq<char>, base: Seq<char>) -> Option<Seq<char>>;

/// Relies on `pathdiff::diff_paths`: constructs the relative path from
/// `base` to `path`, a pure function of its two arguments; the rare path
/// that cannot be rendered as text is shown empty.
#[verifier::external_body]
fn diff_paths_text(path: &str, base: &str) -> (r: Option<String>)
    ensures
        r is Some <==> rel_path_of(path@, base@) is Some,
        r matches Some(s) ==> rel_path_of(path@, base@) matches Some(cs) && s@ == cs,
{
    match pathdiff::diff_paths(path, base) {
        Some(p) => match p.to_str() {
            Some(s) => Some(s.to_owned()),
            None => Some(String::new()),
        },
        None => None,
    }
}

/// The path a diagnostic displays: the script path relative to the
/// working directory, or the source folder name when no relative path
/// exists.
pub open spec fn shown_path(script: Seq<char>, cwd: Seq<char>) -> Seq<char> {
    match rel_path_of(script, cwd) {
        Some(p) => p,
        None => "src"@,
    }
}

/// The characters a token displays as in a rebuilt line.
pub open spec fn shown(t: Token) -> Seq<char> {
    match lit_chars(t.lexeme) {
        Some(cs) => cs,
        None => Seq::empty(),
    }
}

/// First code-view token at or after `i` that stands on `line`, or the
/// end of the stream.
pub open spec fn find_line(toks: Seq<Token>, i: int, line: int) -> int
    decreases toks.len() - i
        when 0 <= i <= toks.len()
        via find_line_dec
{
    let f = find_from(toks, i, Feature::Code);
    if f >= toks.len() {
        toks.len() as int
    } else if toks[f].pos.line as int == line {
        f
    } else {
        find_line(toks, f + 1, line)
    }
}

#[via_fn]
proof fn find_line_dec(toks: Seq<Token>, i: int, line: int) {
    lemma_find_from(toks, i, Feature::Code);
}

/// Where the scan for the offending line can end up.
pub proof fn lemma_find_line_bounds(toks: Seq<Token>, i: int, line: int)
    requires
        0 <= i <= toks.len(),
    ensures
        i <= find_line(toks, i, line) <= toks.len(),
    decreases toks.len() - i,
{
    lemma_find_from(toks, i, Feature::Code);
    let f = find_from(toks, i, Feature::Code);
    if f < toks.len() && toks[f].pos.line as int != line {
        lemma_find_line_bounds(toks, f + 1, line);
    }
}

/// Does the rebuilding scan stop at this token? It stops at a statement
/// separator or once the line has been passed.
pub open spec fn scan_stop(t: Token, line: int) -> bool {
    is_eos(t) || t.pos.line as int > line
}

/// The tail of the line rebuilding once the offending token was already
/// seen: the literal that still overwrites the offending one, if any
/// further token matches the offending column, and the text shown after
/// it.
pub open spec fn scan_found(toks: Seq<Token>, j: int, pos: Pos) -> (Option<Seq<char>>, Seq<char>)
    decreases toks.len() - j,
{
    if j < 0 || j >= toks.len() || scan_stop(toks[j], pos.line as int) {
        (None, Seq::empty())
    } else if toks[j].pos.grapheme == pos.grapheme {
        let r = scan_found(toks, j + 1, pos);
        (
            Some(
                match r.0 {
                    Some(l) => l,
                    None => shown(toks[j]),
                },
            ),
            r.1,
        )
    } else {
        let r = scan_found(toks, j + 1, pos);
        (r.0, shown(toks[j]) + r.1)
    }
}

/// The line rebuilding before the offending token was seen: the text
/// shown before it, the offending literal if some token matches the
/// offending column, and the text shown after it.
pub open spec fn scan_pre(toks: Seq<Token>, j: int, pos: Pos) -> (
    Seq<char>,
    Option<Seq<char>>,
    Seq<char>,
)
    decreases toks.len() - j,
{
    if j < 0 || j >= toks.len() || scan_stop(toks[j], pos.line as int) {
        (Seq::empty(), None, Seq::empty())
    } else if toks[j].pos.grapheme == pos.grapheme {
        let r = scan_found(toks, j + 1, pos);
        (
            Seq::empty(),
            Some(
                match r.0 {
                    Some(l) => l,
                    None => shown(toks[j]),
                },
            ),
            r.1,
        )
    } else {
        let r = scan_pre(toks, j + 1, pos);
        (shown(toks[j]) + r.0, r.1, r.2)
    }
}

/// The three text chunks of the rebuilt line for the error at `pos`: what
/// stands before the offending token, its own literal, and what follows
/// it. The first token of the line is taken through the code view, so
/// leading indentation is stripped; the rest through the raw view.
pub open spec fn line_chunks(toks: Seq<Token>, pos: Pos) -> (Seq<char>, Option<Seq<char>>, Seq<
    char,
>) {
    let fl = find_line(toks, 0, pos.line as int);
    if fl >= toks.len() {
        (Seq::empty(), None, Seq::empty())
    } else if toks[fl].pos.grapheme == pos.grapheme {
        let r = scan_found(toks, fl + 1, pos);
        (
            Seq::empty(),
            Some(
                match r.0 {
                    Some(l) => l,
                    None => shown(toks[fl]),
                },
            ),
            r.1,
        )
    } else {
        let r = scan_pre(toks, fl + 1, pos);
        (shown(toks[fl]) + r.0, r.1, r.2)
    }
}

/// The caret column after the leading indentation, stripped from the
/// rebuilt line, is subtracted.
pub open spec fn caret_col(toks: Seq<Token>, pos: Pos) -> int {
    let fl = find_line(toks, 0, pos.line as int);
    if fl < toks.len() && toks[fl].pos.grapheme > 1 {
        pos.grapheme - toks[fl].pos.grapheme
    } else {
        pos.grapheme as int
    }
}

/// The spaces standing before the caret on the report's third line.
pub open spec fn caret_pad(toks: Seq<Token>, pos: Pos) -> Seq<char> {
    let i = caret_col(toks, pos);
    space_seq(7) + space_seq(
        3 + dec_chars(pos.line as int).len() + (if i > 1 {
            i - 1
        } else {
            0
        }),
    )
}

/// The three-line report of one diagnostic, split into the pieces a
/// printer may want to emphasize separately.
#[derive(Debug)]
pub struct Report {
    /// The message of the diagnostic.
    pub msg: String,
    /// The displayed path of the script.
    pub path: String,
    /// The offending line number, in decimal.
    pub line: String,
    /// The rebuilt text standing before the offending token.
    pub before: String,
    /// The offending token's own literal.
    pub lit: String,
    /// The rebuilt text standing after the offending token.
    pub after: String,
    /// The spaces standing before the caret on the third line.
    pub pad: String,
    /// The caret column, in decimal.
    pub grapheme: String,
}

/// The exact text of a rendered report.
pub open spec fn report_chars(r: Report) -> Seq<char> {
    r.msg@ + seq![' ', '→', ' '] + r.path@ + seq!['\n'] + space_seq(7) + r.line@ + seq![
        ' ',
        '|',
        ' ',
    ] + r.before@ + r.lit@ + r.after@ + seq!['\n'] + r.pad@ + seq!['↑', ' '] + r.grapheme@
}

impl Report {
    /// Assemble the three lines into one plain text.
    pub fn render(&self) -> (r: String)
        ensures
            r@ == report_chars(*self),
    {
        let mut s = String::new();
        s.append(self.msg.as_str());
        s.append(" → ");
        proof {
            reveal_strlit(" → ");
            assert(" → "@ =~= seq![' ', '→', ' ']);
        }
        s.append(self.path.as_str());
        s.push('\n');
        push_spaces(&mut s, 7);
        s.append(self.line.as_str());
        s.append(" | ");
        proof {
            reveal_strlit(" | ");
            assert(" | "@ =~= seq![' ', '|', ' ']);
        }
        s.append(self.before.as_str());
        s.append(self.lit.as_str());
        s.append(self.after.as_str());
        s.push('\n');
        s.append(self.pad.as_str());
        s.append("↑ ");
        proof {
            reveal_strlit("↑ ");
            assert("↑ "@ =~= seq!['↑', ' ']);
        }
        s.append(self.grapheme.as_str());
        proof {
            assert(s@ =~= report_chars(*self));
        }
        s
    }
}

/// Handles the diagnosis of language errors.
#[derive(Debug)]
pub struct Diagnosis {
    /// Script path.
    script: String,
    /// Working directory the displayed path is relative to.
    cwd: String,
}

impl Diagnosis {
    /// The script path this diagnosis reports on.
    pub closed spec fn script_path(&self) -> Seq<char> {
        self.script@
    }

    /// The working directory the displayed path is relative to.
    pub closed spec fn cwd_path(&self) -> Seq<char> {
        self.cwd@
    }

    /// A diagnosis for the script at `path`, run from `cwd`.
    pub fn new(path: &str, cwd: &str) -> (r: Self)
        ensures
            r.script_path() == path@,
            r.cwd_path() == cwd@,
    {
        Self { script: path.to_owned(), cwd: cwd.to_owned() }
    }

    /// Build the three-line report of an error diagnostic: the message
    /// and displayed path, then the offending source line rebuilt from
    /// the token store, then the caret under the offending column.
    pub fn diagnosis(&self, msg: &str, pos: Pos, script: &mut Script) -> (r: Report)
        requires
            old(script).wf(),
            ({
                let toks = old(script).toks();
                let fl = find_line(toks, 0, pos.line as int);
                fl < toks.len() && toks[fl].pos.grapheme > 1 ==> pos.grapheme >= toks[fl].pos.grapheme
            }),
            pos.grapheme as int + dec_chars(pos.line as int).len() + 3 <= usize::MAX as int,
        ensures
            final(script).wf(),
            final(script).toks() == old(script).toks(),
            r.msg@ == msg@,
            r.path@ == shown_path(self.script_path(), self.cwd_path()),
            r.line@ == dec_chars(pos.line as int),
            ({
                let c = line_chunks(old(script).toks(), pos);
                &&& r.before@ == c.0
                &&& r.lit@ == match c.1 {
                    Some(l) => l,
                    None => Seq::<char>::empty(),
                }
                &&& r.after@ == c.2
            }),
            r.pad@ == caret_pad(old(script).toks(), pos),
            r.grapheme@ == dec_chars(pos.grapheme as int),
    {
        let ghost toks = script.toks();
        proof {
            script.lemma_wf();
        }

        // The report is indented under the printed error prefix and its
        // separator: seven columns.
        let path = match diff_paths_text(self.script.as_str(), self.cwd.as_str()) {
            Some(p) => p,
            None => String::from_str("src"),
        };

        let mut chunk_2 = String::new();
        let mut chunk_3 = String::new();
        let mut lit = String::new();
        // Indicator position (`↑`) of the illegal token.
        let mut i: usize = pos.grapheme;

        script.reset();
        proof {
            lemma_find_line_bounds(toks, 0, pos.line as int);
        }
        let ghost fl = find_line(toks, 0, pos.line as int);

        // Skip the lines before the illegal token line.
        let mut first: Option<Token> = None;
        loop
            invariant_except_break
                first is None,
                find_line(toks, script.at(), pos.line as int) == fl,
            invariant
                script.wf(),
                script.toks() == toks,
                toks == old(script).toks(),
                0 <= script.at() <= toks.len(),
                fl == find_line(toks, 0, pos.line as int),
            ensures
                script.wf(),
                script.toks() == toks,
                (match first {
                    Some(t) => fl < toks.len() && tok_eq(t, toks[fl]) && script.at() == fl + 1,
                    None => fl >= toks.len(),
                }),
            decreases toks.len() - script.at(),
        {
            let ghost p = script.at();
            proof {
                lemma_find_from(toks, p, Feature::Code);
            }
            match script.token(Mode::Next(Feature::Code)) {
                Some(token) => {
                    if token.pos.line == pos.line {
                        first = Some(token);
                        break ;
                    }
                },
                None => {
                    break ;
                },
            }
        }

        match first {
            None => (),
            Some(token) => {
                proof {
                    lemma_lit_congruent(token.lexeme, toks[fl].lexeme);
                }
                // Subtract the indentation from the indicator position,
                // for reasons that the indentation is omitted in the
                // diagnosis.
                if token.pos.grapheme > 1 {
                    i = i - token.pos.grapheme;
                }

                // First token on the line.
                let mut after_illegal_token: bool = false;
                if token.pos.grapheme == pos.grapheme {
                    lit = render_token(&token);
                    after_illegal_token = true;
                } else {
                    let t = render_token(&token);
                    chunk_2.append(t.as_str());
                }
                proof {
                    if after_illegal_token {
                        assert(chunk_3@ + scan_found(toks, fl + 1, pos).1 =~= scan_found(
                            toks,
                            fl + 1,
                            pos,
                        ).1);
                    } else {
                        assert(chunk_2@ + scan_pre(toks, fl + 1, pos).0 =~= shown(toks[fl])
                            + scan_pre(toks, fl + 1, pos).0);
                    }
                }

                loop
                    invariant_except_break
                        ({
                            let total = line_chunks(toks, pos);
                            if after_illegal_token {
                                let r = scan_found(toks, script.at(), pos);
                                &&& total.0 == chunk_2@
                                &&& total.1 == Some(
                                    match r.0 {
                                        Some(l) => l,
                                        None => lit@,
                                    },
                                )
                                &&& total.2 == chunk_3@ + r.1
                            } else {
                                let r = scan_pre(toks, script.at(), pos);
                                &&& total.0 == chunk_2@ + r.0
                                &&& total.1 == r.1
                                &&& total.2 == r.2
                                &&& chunk_3@ == Seq::<char>::empty()
                                &&& lit@ == Seq::<char>::empty()
                            }
                        }),
                    invariant
                        script.wf(),
                        script.toks() == toks,
                        toks == old(script).toks(),
                        0 <= fl < toks.len(),
                        fl + 1 <= script.at() <= toks.len(),
                    ensures
                        script.wf(),
                        script.toks() == toks,
                        ({
                            let total = line_chunks(toks, pos);
                            &&& total.0 == chunk_2@
                            &&& total.1 matches Some(l) ==> lit@ == l
                            &&& total.1 is None ==> lit@ == Seq::<char>::empty()
                            &&& total.2 == chunk_3@
                        }),
                    decreases toks.len() - script.at(),
                {
                    let ghost q = script.at();
                    let ghost was_after = after_illegal_token;
                    let ghost c2 = chunk_2@;
                    let ghost c3 = chunk_3@;
                    match script.token(Mode::Next(Feature::Default)) {
                        None => {
                            proof {
                                if was_after {
                                    assert(c3 + scan_found(toks, q, pos).1 =~= c3);
                                } else {
                                    assert(c2 + scan_pre(toks, q, pos).0 =~= c2);
                                }
                            }
                            break ;
                        },
                        Some(token) => {
                            proof {
                                assert(tok_eq(token, toks[q]));
                                lemma_lit_congruent(token.lexeme, toks[q].lexeme);
                            }
                            // Ends after "printing" the illegal token
                            // line.
                            if token.is(&Table::EndOfStmt) || token.pos.line > pos.line {
                                proof {
                                    assert(scan_stop(toks[q], pos.line as int));
                                    if was_after {
                                        assert(c3 + scan_found(toks, q, pos).1 =~= c3);
                                    } else {
                                        assert(c2 + scan_pre(toks, q, pos).0 =~= c2);
                                    }
                                }
                                break ;
                            }

                            // Illegal token.
                            if token.pos.grapheme == pos.grapheme {
                                after_illegal_token = true;
                                lit = render_token(&token);
                                proof {
                                    assert(!scan_stop(toks[q], pos.line as int));
                                    assert(toks[q].pos.grapheme == pos.grapheme);
                                    assert(shown(token) =~= shown(toks[q]));
                                    if !was_after {
                                        assert(c2 + scan_pre(toks, q, pos).0 =~= c2);
                                        assert(chunk_3@ + scan_found(toks, q + 1, pos).1
                                            =~= scan_found(toks, q + 1, pos).1);
                                    }
                                }
                                continue ;
                            }

                            let t = render_token(&token);
                            proof {
                                assert(!scan_stop(toks[q], pos.line as int));
                                assert(toks[q].pos.grapheme != pos.grapheme);
                                assert(shown(token) =~= shown(toks[q]));
                            }
                            if after_illegal_token {
                                chunk_3.append(t.as_str());
                                proof {
                                    assert(chunk_3@ + scan_found(toks, q + 1, pos).1 =~= c3 + (
                                    shown(toks[q]) + scan_found(toks, q + 1, pos).1));
                                }
                            } else {
                                chunk_2.append(t.as_str());
                                proof {
                                    assert(chunk_2@ + scan_pre(toks, q + 1, pos).0 =~= c2 + (shown(
                                        toks[q],
                                    ) + scan_pre(toks, q + 1, pos).0));
                                }
                            }
                        },
                    }
                }
            },
        }

        // `1 | error line`
        //   ^^^ +3: the caret is padded past the line number column.
        let line = usize_to_string(pos.line);
        let mut pad = String::new();
        push_spaces(&mut pad, 7);
        let more: usize = 3 + line.as_str().unicode_len() + if i > 1 {
            i - 1
        } else {
            0
        };
        push_spaces(&mut pad, more);
        proof {
            assert(pad@ =~= caret_pad(toks, pos));
        }

        Report {
            msg: msg.to_owned(),
            path,
            line,
            before: chunk_2,
            lit,
            after: chunk_3,
            pad,
            grapheme: usize_to_string(pos.grapheme),
        }
    }
}

/// The literal a token displays as; tokens without one display empty.
fn render_token(t: &Token) -> (r: String)
    ensures
        r@ == shown(*t),
{
    match t.lit() {
        Some(l) => l.to_text(),
        None => String::new(),
    }
}

} // verus!
