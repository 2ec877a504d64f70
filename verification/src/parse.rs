//! Syntactic analyzer: indentation-sensitive recursive descent over the
//! token store. Every grammar violation is fatal: the first `Diag` value
//! travels up unchanged and no partial tree is handed out.

use crate::cgen::{Fn, Stmt};
use crate::diagnosis::Diag;
use crate::pos::Pos;
use crate::script::{find_from, is_eos, lemma_find_from, Feature, Mode, Script};
use crate::token::{lemma_lit_congruent, lit_len, tok_eq, Table, Token};
use vstd::prelude::*;
use vstd::string::StringExecFns;

verus! {

/// The length the parser measures on a token when it points a diagnostic
/// past it: the keyword that opens a function declaration, or the name's
/// own characters. Nothing else is measured.
pub open spec fn measured_len(t: Table) -> int {
    match t {
        Table::Fn => 2,
        Table::Id(o) => match o {
            Some(v) => v@.len() as int,
            None => 0,
        },
        _ => 0,
    }
}

/// Every token position leaves room for the arithmetic the parser does on
/// it when it points a diagnostic past a token.
pub open spec fn positions_bounded(toks: Seq<Token>) -> bool {
    forall|k: int|
        0 <= k < toks.len() ==> (#[trigger] toks[k].pos.grapheme as int) + measured_len(
            toks[k].lexeme,
        ) + 1 <= usize::MAX as int
}

/// The message of the illegal-indentation diagnostic raised for a function
/// statement away from the root.
pub open spec fn illegal_indent_msg() -> Seq<char> {
    "illegal indentation"@ + ", the function statement must go in the root"@
}

/// Outcome of the top-level parse, or of the statement parse inside a
/// function body: the parsed function declarations, each its name token
/// and how many placeholder statements its body holds, and the cursor
/// afterwards; or the first diagnostic.
pub enum ParseOut {
    Done { descr: Seq<(Token, int)>, end: int },
    Fatal { msg: Seq<char>, pos: Pos },
}

/// Outcome of a function body walk: how many placeholder statements were
/// appended, and the cursor afterwards; or the first diagnostic.
pub enum BodyOut {
    Done { count: int, end: int },
    Fatal { msg: Seq<char>, pos: Pos },
}

/// Outcome of parsing one function declaration: the name token, the body
/// statement count and the cursor afterwards; the empty outcome when no
/// token remains; or the first diagnostic.
pub enum FnOut {
    Done { name: Token, nbody: int, end: int },
    Empty { end: int },
    Fatal { msg: Seq<char>, pos: Pos },
}

/// What the parser does for a statement inside a function body: stray
/// separators are skipped; a function statement is an indentation error;
/// any other token is illegal; running out of tokens ends the body.
pub open spec fn nested_out(toks: Seq<Token>, i: int) -> ParseOut
    decreases toks.len() - i
        when 0 <= i <= toks.len()
        via nested_out_dec
{
    let f = find_from(toks, i, Feature::Code);
    if f >= toks.len() {
        ParseOut::Done { descr: Seq::empty(), end: i }
    } else if is_eos(toks[f]) {
        nested_out(toks, f + 1)
    } else if toks[f].lexeme is Fn {
        ParseOut::Fatal { msg: illegal_indent_msg(), pos: toks[f].pos }
    } else {
        ParseOut::Fatal { msg: "illegal token"@, pos: toks[f].pos }
    }
}

#[via_fn]
proof fn nested_out_dec(toks: Seq<Token>, i: int) {
    lemma_find_from(toks, i, Feature::Code);
}

/// The statement parse inside a body moves the cursor forward, and past
/// the first code token when it ends well.
pub proof fn lemma_nested_out_bounds(toks: Seq<Token>, i: int)
    requires
        0 <= i <= toks.len(),
    ensures
        nested_out(toks, i) matches ParseOut::Done { descr, end } ==> descr.len() == 0 && i <= end
            <= toks.len() && (find_from(toks, i, Feature::Code) < toks.len() ==> end >= find_from(
            toks,
            i,
            Feature::Code,
        ) + 1),
    decreases toks.len() - i,
{
    lemma_find_from(toks, i, Feature::Code);
    let f = find_from(toks, i, Feature::Code);
    if f < toks.len() && is_eos(toks[f]) {
        lemma_nested_out_bounds(toks, f + 1);
    }
}

/// What one pass over a function body does from cursor `i`: stop at the
/// first code token back at or before the `indent` baseline, refuse a
/// nested function statement, and otherwise parse the statement, keeping a
/// placeholder in the body.
pub open spec fn body_out(toks: Seq<Token>, i: int, indent: int) -> BodyOut
    decreases toks.len() - i
        when 0 <= i <= toks.len()
        via body_out_dec
{
    let f = find_from(toks, i, Feature::Code);
    if f >= toks.len() {
        BodyOut::Done { count: 0, end: i }
    } else if toks[f].pos.grapheme as int <= indent {
        BodyOut::Done { count: 0, end: i }
    } else if toks[f].lexeme is Fn {
        BodyOut::Fatal { msg: illegal_indent_msg(), pos: toks[f].pos }
    } else {
        match nested_out(toks, i) {
            ParseOut::Done { descr, end } => match body_out(toks, end, indent) {
                BodyOut::Done { count, end } => BodyOut::Done { count: count + 1, end },
                BodyOut::Fatal { msg, pos } => BodyOut::Fatal { msg, pos },
            },
            ParseOut::Fatal { msg, pos } => BodyOut::Fatal { msg, pos },
        }
    }
}

#[via_fn]
proof fn body_out_dec(toks: Seq<Token>, i: int, indent: int) {
    lemma_find_from(toks, i, Feature::Code);
    lemma_nested_out_bounds(toks, i);
}

/// A body walk moves the cursor forward.
pub proof fn lemma_body_out_bounds(toks: Seq<Token>, i: int, indent: int)
    requires
        0 <= i <= toks.len(),
    ensures
        body_out(toks, i, indent) matches BodyOut::Done { count, end } ==> i <= end <= toks.len()
            && count >= 0,
    decreases toks.len() - i,
{
    lemma_find_from(toks, i, Feature::Code);
    lemma_nested_out_bounds(toks, i);
    let f = find_from(toks, i, Feature::Code);
    if f < toks.len() && toks[f].pos.grapheme as int > indent && !(toks[f].lexeme is Fn) {
        match nested_out(toks, i) {
            ParseOut::Done { descr, end } => {
                lemma_body_out_bounds(toks, end, indent);
            },
            ParseOut::Fatal { .. } => {},
        }
    }
}

/// What parsing one function declaration from cursor `i` does: consume the
/// `fn` keyword, the function name and the end of statement, each with its
/// own diagnostic when missing, then walk the indented body.
pub open spec fn fn_out(toks: Seq<Token>, i: int) -> FnOut {
    let f = find_from(toks, i, Feature::Code);
    if f >= toks.len() {
        FnOut::Empty { end: i }
    } else if !(toks[f].lexeme is Fn) {
        FnOut::Fatal { msg: "illegal, keyword 'fn' was not found"@, pos: toks[f].pos }
    } else {
        let indent = toks[f].pos.grapheme as int;
        let pos1 = Pos {
            line: toks[f].pos.line,
            grapheme: (toks[f].pos.grapheme + lit_len(toks[f].lexeme) + 1) as usize,
        };
        let g = find_from(toks, f + 1, Feature::Code);
        if g >= toks.len() || is_eos(toks[g]) {
            FnOut::Fatal { msg: "expecting function name"@, pos: pos1 }
        } else if !(toks[g].lexeme is Id) {
            FnOut::Fatal { msg: "illegal function name"@, pos: toks[g].pos }
        } else {
            let pos2 = Pos {
                line: toks[g].pos.line,
                grapheme: (toks[g].pos.grapheme + lit_len(toks[g].lexeme)) as usize,
            };
            let h = find_from(toks, g + 1, Feature::Code);
            if h >= toks.len() || !is_eos(toks[h]) {
                FnOut::Fatal { msg: "expecting newline"@, pos: pos2 }
            } else {
                match body_out(toks, h + 1, indent) {
                    BodyOut::Done { count, end } => FnOut::Done {
                        name: toks[g],
                        nbody: count,
                        end,
                    },
                    BodyOut::Fatal { msg, pos } => FnOut::Fatal { msg, pos },
                }
            }
        }
    }
}

/// Parsing a function declaration that starts inside the text consumes at
/// least one token.
pub proof fn lemma_fn_out_bounds(toks: Seq<Token>, i: int)
    requires
        0 <= i <= toks.len(),
    ensures
        fn_out(toks, i) matches FnOut::Done { name, nbody, end } ==> i < end <= toks.len(),
        fn_out(toks, i) matches FnOut::Empty { end } ==> end == i && find_from(
            toks,
            i,
            Feature::Code,
        ) >= toks.len(),
{
    lemma_find_from(toks, i, Feature::Code);
    let f = find_from(toks, i, Feature::Code);
    if f < toks.len() && toks[f].lexeme is Fn {
        lemma_find_from(toks, f + 1, Feature::Code);
        let g = find_from(toks, f + 1, Feature::Code);
        if g < toks.len() && !is_eos(toks[g]) && toks[g].lexeme is Id {
            lemma_find_from(toks, g + 1, Feature::Code);
            let h = find_from(toks, g + 1, Feature::Code);
            if h < toks.len() && is_eos(toks[h]) {
                lemma_body_out_bounds(toks, h + 1, toks[f].pos.grapheme as int);
            }
        }
    }
}

/// What the top-level parse does from cursor `i`: skip stray separators,
/// parse each function declaration, and refuse any other token.
pub open spec fn top_out(toks: Seq<Token>, i: int) -> ParseOut
    decreases toks.len() - i
        when 0 <= i <= toks.len()
        via top_out_dec
{
    let f = find_from(toks, i, Feature::Code);
    if f >= toks.len() {
        ParseOut::Done { descr: Seq::empty(), end: i }
    } else if is_eos(toks[f]) {
        top_out(toks, f + 1)
    } else if toks[f].lexeme is Fn {
        match fn_out(toks, i) {
            FnOut::Done { name, nbody, end } => match top_out(toks, end) {
                ParseOut::Done { descr, end } => ParseOut::Done {
                    descr: seq![(name, nbody)] + descr,
                    end,
                },
                ParseOut::Fatal { msg, pos } => ParseOut::Fatal { msg, pos },
            },
            FnOut::Empty { end } => ParseOut::Done { descr: Seq::empty(), end },
            FnOut::Fatal { msg, pos } => ParseOut::Fatal { msg, pos },
        }
    } else {
        ParseOut::Fatal { msg: "illegal token"@, pos: toks[f].pos }
    }
}

#[via_fn]
proof fn top_out_dec(toks: Seq<Token>, i: int) {
    lemma_find_from(toks, i, Feature::Code);
    lemma_fn_out_bounds(toks, i);
}

/// A body statement placeholder: what the nested parse hands back for the
/// statements the grammar has no productions for yet.
pub open spec fn is_placeholder(s: Stmt) -> bool {
    s == Stmt::Global(None::<Vec<Stmt>>)
}

/// The parsed tree of one function declaration: the copied name token and
/// a body of placeholders.
pub open spec fn fn_matches(s: Stmt, name: Token, nbody: int) -> bool {
    &&& s matches Stmt::Fn(Some(f))
    &&& tok_eq(f.name, name)
    &&& f.body@.len() == nbody
    &&& forall|j: int| 0 <= j < f.body@.len() ==> is_placeholder(#[trigger] f.body@[j])
}

/// The parsed top-level tree: one function declaration per description
/// entry.
pub open spec fn top_matches(s: Stmt, descr: Seq<(Token, int)>) -> bool {
    &&& s matches Stmt::Global(Some(v))
    &&& v@.len() == descr.len()
    &&& forall|k: int| 0 <= k < descr.len() ==> fn_matches(v@[k], descr[k].0, descr[k].1)
}

/// The trait which extends the illegal-indentation message for the
/// statement combination at hand.
pub trait IllegalIndentAccordingTo {
    /// The characters held before the call.
    spec fn held(&self) -> Seq<char>;

    /// Adds to the error message a custom extension for the respective
    /// statement combination in the illegal indentation.
    fn illegal_indent_according_to(&mut self, parent: &Stmt, child: &Stmt)
        ensures
            final(self).held() == old(self).held() + (if child matches Stmt::Fn(_) {
                ", the function statement must go in the root"@
            } else {
                Seq::<char>::empty()
            }),
    ;
}

impl IllegalIndentAccordingTo for String {
    open spec fn held(&self) -> Seq<char> {
        self@
    }

    fn illegal_indent_according_to(&mut self, parent: &Stmt, child: &Stmt) {
        match (parent, child) {
            // Illegal: indented function.
            (_, Stmt::Fn(_)) => {
                self.append(", the function statement must go in the root");
            },
            // Default.
            _ => {
                proof {
                    assert(self@ + Seq::<char>::empty() =~= self@);
                }
            },
        }
    }
}


/// The top-level parse moves the cursor forward.
pub proof fn lemma_top_out_bounds(toks: Seq<Token>, i: int)
    requires
        0 <= i <= toks.len(),
    ensures
        top_out(toks, i) matches ParseOut::Done { descr, end } ==> i <= end <= toks.len() && (
        find_from(toks, i, Feature::Code) < toks.len() ==> end > i),
    decreases toks.len() - i,
{
    lemma_find_from(toks, i, Feature::Code);
    lemma_fn_out_bounds(toks, i);
    let f = find_from(toks, i, Feature::Code);
    if f < toks.len() {
        if is_eos(toks[f]) {
            lemma_top_out_bounds(toks, f + 1);
        } else if toks[f].lexeme is Fn {
            match fn_out(toks, i) {
                FnOut::Done { name, nbody, end } => {
                    lemma_top_out_bounds(toks, end);
                },
                FnOut::Empty { .. } => {},
                FnOut::Fatal { .. } => {},
            }
        }
    }
}

/// Parse the syntax of the script and obtain the _**cgen data**_.
///
/// A grammar violation comes back as the `Diag` to be rendered; the first
/// one ends the parse.
///
/// ---
/// _**Syntactic Analyzer**_
pub fn parser(script: &mut Script, parent_stmt: &Stmt) -> (r: Result<Stmt, Diag>)
    requires
        old(script).wf(),
        positions_bounded(old(script).toks()),
    ensures
        final(script).wf(),
        final(script).toks() == old(script).toks(),
        old(script).at() <= final(script).at() <= final(script).toks().len(),
        (if parent_stmt matches Stmt::Global(_) {
            match top_out(old(script).toks(), old(script).at()) {
                ParseOut::Done { descr, end } => r matches Ok(s) && top_matches(s, descr)
                    && final(script).at() == end,
                ParseOut::Fatal { msg, pos } => r matches Err(d) && d.msg@ == msg && d.pos == pos,
            }
        } else {
            match nested_out(old(script).toks(), old(script).at()) {
                ParseOut::Done { descr, end } => r matches Ok(s) && s == Stmt::Global(
                    None::<Vec<Stmt>>,
                ) && final(script).at() == end,
                ParseOut::Fatal { msg, pos } => r matches Err(d) && d.msg@ == msg && d.pos == pos,
            }
        }),
    decreases old(script).toks().len() - old(script).at(), 1int,
{
    let ghost toks = script.toks();
    let ghost i0 = script.at();
    proof {
        script.lemma_wf();
    }
    let mut globals: Vec<Stmt> = Vec::new();
    let ghost mut gdescr: Seq<(Token, int)> = Seq::empty();
    let parent_is_global = match parent_stmt {
        Stmt::Global(_) => true,
        _ => false,
    };

    // Child scope.
    //  - The statement without indentation is added in `globals` and
    //    with indentation it is returned.
    loop
        invariant
            script.wf(),
            script.toks() == toks,
            toks == old(script).toks(),
            i0 == old(script).at(),
            positions_bounded(toks),
            0 <= i0 <= script.at() <= toks.len(),
            parent_is_global == (parent_stmt matches Stmt::Global(_)),
            parent_is_global ==> match top_out(toks, script.at()) {
                ParseOut::Done { descr, end } => top_out(toks, i0) == (ParseOut::Done {
                    descr: gdescr + descr,
                    end,
                }),
                ParseOut::Fatal { msg, pos } => top_out(toks, i0) == (ParseOut::Fatal {
                    msg,
                    pos,
                }),
            },
            parent_is_global ==> globals@.len() == gdescr.len() && (forall|k: int|
                0 <= k < gdescr.len() ==> fn_matches(
                    #[trigger] globals@[k],
                    gdescr[k].0,
                    gdescr[k].1,
                )),
            !parent_is_global ==> nested_out(toks, script.at()) == nested_out(toks, i0),
        decreases toks.len() - script.at(),
    {
        let ghost p = script.at();
        proof {
            lemma_find_from(toks, p, Feature::Code);
        }
        let tokopt = script.token(Mode::Peek(Feature::Code));
        match tokopt {
            None => {
                // End of the stream: the global scope is complete.
                if parent_is_global {
                    proof {
                        assert(top_out(toks, p) == (ParseOut::Done {
                            descr: Seq::<(Token, int)>::empty(),
                            end: p,
                        }));
                        assert(gdescr + Seq::<(Token, int)>::empty() =~= gdescr);
                    }
                    return Ok(Stmt::Global(Some(globals)));
                } else {
                    return Ok(Stmt::Global(None));
                }
            },
            Some(token) => {
                let ghost f = find_from(toks, p, Feature::Code);

                // Skip tokens such as:
                //  - The ends of empty statements (the `EndOfStmt` are
                //    automatically added from newlines).
                if token.is(&Table::EndOfStmt) {
                    proof {
                        assert(toks[f].lexeme is EndOfStmt);
                    }
                    script.token(Mode::Next(Feature::Code));
                    continue ;
                }

                // Function statement.
                if token.is(&Table::Fn) {
                    proof {
                        assert(toks[f].lexeme is Fn);
                    }
                    if parent_is_global {
                        let fn_stmt: Stmt = Stmt::Fn(None);
                        proof {
                            lemma_fn_out_bounds(toks, p);
                        }
                        let ghost gd0 = gdescr;
                        let sub = function(script, &fn_stmt);
                        match sub {
                            Ok(s) => {
                                proof {
                                    let fo = fn_out(toks, p);
                                    assert(fo matches FnOut::Done { .. });
                                    gdescr = gdescr.push((fo->Done_name, fo->Done_nbody));
                                }
                                globals.push(s);
                                proof {
                                    let fo = fn_out(toks, p);
                                    let name = fo->Done_name;
                                    let nb = fo->Done_nbody;
                                    match top_out(toks, script.at()) {
                                        ParseOut::Done { descr, end } => {
                                            assert(top_out(toks, p) == (ParseOut::Done {
                                                descr: seq![(name, nb)] + descr,
                                                end,
                                            }));
                                            assert(gd0 + (seq![(name, nb)] + descr) =~= gdescr
                                                + descr);
                                        },
                                        ParseOut::Fatal { msg, pos } => {
                                            assert(top_out(toks, p) == (ParseOut::Fatal {
                                                msg,
                                                pos,
                                            }));
                                        },
                                    }
                                }
                            },
                            Err(d) => {
                                return Err(d);
                            },
                        }
                    } else {
                        // A function statement cannot stand inside
                        // another: fatal illegal indentation.
                        let mut msg = String::from_str("illegal indentation");
                        msg.illegal_indent_according_to(parent_stmt, &Stmt::Fn(None));
                        return Err(Diag { msg, pos: token.pos });
                    }

                    // Illegal token.
                } else {
                    return Err(
                        Diag { msg: String::from_str("illegal token"), pos: token.pos },
                    );
                }
            },
        }
    }
}

/// It recursively parses the function statement and obtains the _**cgen
/// data**_. The context `stmt` decides whether the full declaration or
/// only the prototype form is kept; the global context leaves the result
/// unspecified, as the grammar dispatches function declarations with the
/// function statement context.
pub fn function(script: &mut Script, stmt: &Stmt) -> (r: Result<Stmt, Diag>)
    requires
        old(script).wf(),
        positions_bounded(old(script).toks()),
    ensures
        final(script).wf(),
        final(script).toks() == old(script).toks(),
        old(script).at() <= final(script).at() <= final(script).toks().len(),
        !(stmt matches Stmt::Global(_)) ==> match fn_out(old(script).toks(), old(script).at()) {
            FnOut::Done { name, nbody, end } => r matches Ok(s) && fn_matches(s, name, nbody)
                && final(script).at() == end,
            FnOut::Empty { end } => r matches Ok(s) && s == Stmt::Fn(None::<Fn>)
                && final(script).at() == end,
            FnOut::Fatal { msg, pos } => r matches Err(d) && d.msg@ == msg && d.pos == pos,
        },
    decreases old(script).toks().len() - old(script).at(), 0int,
{
    let ghost toks = script.toks();
    let ghost i0 = script.at();
    proof {
        script.lemma_wf();
    }
    let ghost nonglobal = !(stmt matches Stmt::Global(_));
    let mut fn_stmt: Fn = Fn::new();
    let mut indent: usize = 0;
    let mut pos: Pos = Pos::default();

    // `fn name`
    //  ^^
    proof {
        lemma_find_from(toks, i0, Feature::Code);
    }
    let ghost f = find_from(toks, i0, Feature::Code);
    match script.token(Mode::Peek(Feature::Code)) {
        Some(token) => {
            if token.is(&Table::Fn) {
                proof {
                    assert(toks[f].lexeme is Fn);
                    lemma_lit_congruent(token.lexeme, toks[f].lexeme);
                    assert(lit_len(token.lexeme) == lit_len(toks[f].lexeme));
                    assert(lit_len(toks[f].lexeme) == measured_len(toks[f].lexeme));
                    assert(toks[f].pos.grapheme as int + measured_len(toks[f].lexeme) + 1
                        <= usize::MAX as int);
                }
                indent = token.pos.grapheme;
                pos = token.pos;
                pos.grapheme = pos.grapheme + token.len() + 1;  // `+1` == space
                script.token(Mode::Next(Feature::Code));
            } else {
                return Err(
                    Diag {
                        msg: String::from_str("illegal, keyword 'fn' was not found"),
                        pos: token.pos,
                    },
                );
            }
        },
        None => {
            return Ok(Stmt::Fn(None));
        },
    }

    // `fn name`
    //     ^^^^
    proof {
        lemma_find_from(toks, f + 1, Feature::Code);
    }
    let ghost g = find_from(toks, f + 1, Feature::Code);
    match script.token(Mode::Peek(Feature::Code)) {
        Some(token) => {
            if token.is(&Table::EndOfStmt) {
                return Err(Diag { msg: String::from_str("expecting function name"), pos });
            } else if token.is(&Table::Id(None)) {
                proof {
                    assert(toks[g].lexeme is Id);
                    lemma_lit_congruent(token.lexeme, toks[g].lexeme);
                    assert(lit_len(token.lexeme) == lit_len(toks[g].lexeme));
                    assert(lit_len(toks[g].lexeme) == measured_len(toks[g].lexeme)) by {
                        crate::token::lemma_wf_lit(toks[g]);
                    }
                    assert(toks[g].pos.grapheme as int + measured_len(toks[g].lexeme) + 1
                        <= usize::MAX as int);
                }
                pos = token.pos;
                pos.grapheme = pos.grapheme + token.len();
                fn_stmt.name = token;
                script.token(Mode::Next(Feature::Code));
            } else {
                return Err(Diag { msg: String::from_str("illegal function name"), pos: token.pos });
            }
        },
        None => {
            return Err(Diag { msg: String::from_str("expecting function name"), pos });
        },
    }

    // `fn name`
    //          ^ End of line
    proof {
        lemma_find_from(toks, g + 1, Feature::Code);
    }
    let ghost h = find_from(toks, g + 1, Feature::Code);
    let mut separator_found = false;
    match script.token(Mode::Peek(Feature::Code)) {
        Some(token) => {
            if token.is(&Table::EndOfStmt) {
                script.token(Mode::Next(Feature::Code));
                separator_found = true;
            }
        },
        None => (),
    }
    if !separator_found {
        return Err(Diag { msg: String::from_str("expecting newline"), pos });
    }

    let ghost ind = toks[f].pos.grapheme as int;
    let ghost h1 = h + 1;
    proof {
        assert(script.at() == h1);
    }

    // Recursive indentation.
    loop
        invariant
            script.wf(),
            script.toks() == toks,
            toks == old(script).toks(),
            i0 == old(script).at(),
            positions_bounded(toks),
            0 <= i0 < h1 <= script.at() <= toks.len(),
            nonglobal == !(stmt matches Stmt::Global(_)),
            f == find_from(toks, i0, Feature::Code),
            0 <= f < toks.len(),
            toks[f].lexeme is Fn,
            g == find_from(toks, f + 1, Feature::Code),
            f < g < toks.len(),
            !is_eos(toks[g]),
            toks[g].lexeme is Id,
            h == find_from(toks, g + 1, Feature::Code),
            g < h < toks.len(),
            is_eos(toks[h]),
            h1 == h + 1,
            ind == toks[f].pos.grapheme as int,
            indent as int == ind,
            tok_eq(fn_stmt.name, toks[g]),
            nonglobal ==> forall|j: int|
                0 <= j < fn_stmt.body@.len() ==> is_placeholder(#[trigger] fn_stmt.body@[j]),
            nonglobal ==> match body_out(toks, script.at(), ind) {
                BodyOut::Done { count, end } => body_out(toks, h1, ind) == (BodyOut::Done {
                    count: count + fn_stmt.body@.len(),
                    end,
                }),
                BodyOut::Fatal { msg, pos } => body_out(toks, h1, ind) == (BodyOut::Fatal {
                    msg,
                    pos,
                }),
            },
        ensures
            script.wf(),
            script.toks() == toks,
            i0 < script.at() <= toks.len(),
            tok_eq(fn_stmt.name, toks[g]),
            nonglobal ==> forall|j: int|
                0 <= j < fn_stmt.body@.len() ==> is_placeholder(#[trigger] fn_stmt.body@[j]),
            nonglobal ==> body_out(toks, h1, ind) == (BodyOut::Done {
                count: fn_stmt.body@.len() as int,
                end: script.at(),
            }),
        decreases toks.len() - script.at(),
    {
        let ghost pb = script.at();
        proof {
            lemma_find_from(toks, pb, Feature::Code);
        }
        let tokopt = script.token(Mode::Peek(Feature::Code));
        match tokopt {
            None => {
                proof {
                    if nonglobal {
                        assert(body_out(toks, pb, ind) == (BodyOut::Done { count: 0, end: pb }));
                    }
                }
                break ;
            },
            Some(token) => {
                let ghost fb = find_from(toks, pb, Feature::Code);
                if token.pos.grapheme <= indent {
                    proof {
                        if nonglobal {
                            assert(body_out(toks, pb, ind) == (BodyOut::Done {
                                count: 0,
                                end: pb,
                            }));
                        }
                    }
                    break ;
                }

                // Checks for valid statements within the function.
                if token.is(&Table::Fn) {
                    proof {
                        assert(toks[fb].lexeme is Fn);
                    }
                    let mut msg = String::from_str("illegal indentation");
                    msg.illegal_indent_according_to(stmt, &Stmt::Fn(None));
                    return Err(Diag { msg, pos: token.pos });
                }

                proof {
                    lemma_nested_out_bounds(toks, pb);
                    lemma_top_out_bounds(toks, pb);
                }
                let sub = parser(script, stmt);
                match sub {
                    Ok(s) => {
                        fn_stmt.body.push(s);
                    },
                    Err(d) => {
                        return Err(d);
                    },
                }
            },
        }
    }

    Ok(
        Stmt::Fn(
            match stmt {
                Stmt::Fn(_) => Some(fn_stmt),
                _ => None,
            },
        ),
    )
}

} // verus!
