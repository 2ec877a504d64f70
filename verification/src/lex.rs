//! Lexicographic analyzer: a character cursor over the script and the
//! `lexer` that produces one token per call. The spec model pins down, for
//! every cursor position, exactly which token comes next and where the
//! cursor stands afterwards.

use crate::lits::{fn_chars, kw_extern_chars};
use crate::pos::{col_at, lemma_pos_bounds, line_at, Pos};
use crate::token::{Table, Token};
use vstd::prelude::*;
use vstd::string::StrSliceExecFns;

verus! {

/// A space or a tab.
pub open spec fn is_space(c: char) -> bool {
    c == ' ' || c == '\t'
}

/// A character that may start an identifier.
pub open spec fn is_word_start(c: char) -> bool {
    (97 <= c as u32 && c as u32 <= 122) || (65 <= c as u32 && c as u32 <= 90) || c == '_'
}

/// A character that may continue an identifier.
pub open spec fn is_word_char(c: char) -> bool {
    is_word_start(c) || (48 <= c as u32 && c as u32 <= 57)
}

/// The character class consumed by run `k`: carriage returns, line breaks,
/// whitespace, identifier characters, or everything short of the quote `q`.
pub open spec fn run_pred(k: int, q: char, c: char) -> bool {
    if k == 0 {
        c == '\r'
    } else if k == 1 {
        c == '\r' || c == '\n'
    } else if k == 2 {
        is_space(c)
    } else if k == 3 {
        is_word_char(c)
    } else {
        c != q
    }
}

/// First index at or after `i` whose character leaves class `k`, or the
/// end of the text.
pub open spec fn run_end(text: Seq<char>, i: int, k: int, q: char) -> int
    decreases text.len() - i,
{
    if i < 0 {
        i
    } else if i >= text.len() {
        text.len() as int
    } else if run_pred(k, q, text[i]) {
        run_end(text, i + 1, k, q)
    } else {
        i
    }
}

/// What a maximal run looks like.
pub proof fn lemma_run_end(text: Seq<char>, i: int, k: int, q: char)
    requires
        0 <= i <= text.len(),
    ensures
        i <= run_end(text, i, k, q) <= text.len(),
        forall|j: int| i <= j < run_end(text, i, k, q) ==> run_pred(k, q, #[trigger] text[j]),
        run_end(text, i, k, q) < text.len() ==> !run_pred(k, q, text[run_end(text, i, k, q)]),
    decreases text.len() - i,
{
    if i < text.len() && run_pred(k, q, text[i]) {
        lemma_run_end(text, i + 1, k, q);
    }
}

/// End of the carriage-return run the lexer skips before each token.
pub open spec fn cr_end(text: Seq<char>, i: int) -> int {
    run_end(text, i, 0, ' ')
}

/// Where the cursor stands after the lexer takes one step from `i`.
pub open spec fn step_end(text: Seq<char>, i: int) -> int {
    let a = cr_end(text, i);
    if a >= text.len() {
        text.len() as int
    } else {
        let c = text[a];
        if c == '\n' {
            run_end(text, a + 1, 1, ' ')
        } else if is_space(c) {
            run_end(text, a + 1, 2, ' ')
        } else if is_word_start(c) {
            run_end(text, a + 1, 3, ' ')
        } else if c == '"' {
            let e = run_end(text, a + 1, 4, '"');
            if e < text.len() {
                e + 1
            } else {
                text.len() as int
            }
        } else if c == '\'' {
            let e = run_end(text, a + 1, 4, '\'');
            if e < text.len() {
                e + 1
            } else {
                text.len() as int
            }
        } else if c == '/' {
            if a + 1 < text.len() && text[a + 1] == '/' {
                a + 2
            } else {
                a + 1
            }
        } else {
            a + 1
        }
    }
}

/// The token's position is the one reached after consuming `k` characters.
pub open spec fn pos_at(text: Seq<char>, k: int, t: Token) -> bool {
    t.pos.line as int == line_at(text, k) && t.pos.grapheme as int == col_at(text, k)
}

/// The token the lexer produces when it takes one step from `i`: its kind,
/// its owned characters, and its recorded position, one case per matching
/// rule of the tokenizer.
pub open spec fn tok_at(text: Seq<char>, i: int, t: Token) -> bool {
    let a = cr_end(text, i);
    let e = step_end(text, i);
    a < text.len() && {
        let c = text[a];
        if c == '\n' {
            &&& t.lexeme == Table::EndOfStmt
            &&& t.pos.line as int == line_at(text, a)
            &&& t.pos.grapheme as int == col_at(text, a) + if a == i {
                1int
            } else {
                0int
            }
        } else if is_space(c) {
            t.lexeme == Table::Whitespace && pos_at(text, a + 1, t)
        } else if is_word_start(c) {
            let w = run_end(text, a + 1, 3, ' ');
            &&& pos_at(text, a + 1, t)
            &&& if text.subrange(a, w) == fn_chars() {
                t.lexeme == Table::Fn
            } else if text.subrange(a, w) == kw_extern_chars() {
                t.lexeme == Table::KeywordExtern
            } else {
                t.lexeme matches Table::Id(Some(v)) && v@ == text.subrange(a, w)
            }
        } else if c == '"' {
            &&& pos_at(text, a + 1, t)
            &&& t.lexeme matches Table::StringLit(Some(v)) && v@ == text.subrange(a, e)
        } else if c == '\'' {
            &&& pos_at(text, a + 1, t)
            &&& t.lexeme matches Table::CharLit(Some(v)) && v@ == text.subrange(a, e)
        } else if c == '/' {
            &&& pos_at(text, a + 1, t)
            &&& if a + 1 < text.len() && text[a + 1] == '/' {
                t.lexeme == Table::Cmt(None::<Vec<Token>>)
            } else {
                t.lexeme == Table::DivisionSym
            }
        } else {
            &&& pos_at(text, a + 1, t)
            &&& t.lexeme matches Table::Illegal(Some(v)) && v@ == seq![c]
        }
    }
}

/// One lexer step from inside the text moves the cursor strictly forward.
pub proof fn lemma_step_end_bounds(text: Seq<char>, i: int)
    requires
        0 <= i <= text.len(),
    ensures
        i <= step_end(text, i) <= text.len(),
        cr_end(text, i) < text.len() ==> step_end(text, i) > i,
        cr_end(text, i) < text.len() ==> step_end(text, i) >= cr_end(text, i) + 1,
{
    lemma_run_end(text, i, 0, ' ');
    let a = cr_end(text, i);
    if a < text.len() {
        let c = text[a];
        if c == '\n' {
            lemma_run_end(text, a + 1, 1, ' ');
        } else if is_space(c) {
            lemma_run_end(text, a + 1, 2, ' ');
        } else if is_word_start(c) {
            lemma_run_end(text, a + 1, 3, ' ');
        } else if c == '"' {
            lemma_run_end(text, a + 1, 4, '"');
        } else if c == '\'' {
            lemma_run_end(text, a + 1, 4, '\'');
        }
    }
}

/// Character cursor over the script, with single-character lookahead and a
/// position counter.
#[derive(Debug)]
pub struct Script {
    buf: Vec<char>,
    i: usize,
    pub pos: Pos,
}

impl Script {
    /// The whole text of the script.
    pub closed spec fn text(&self) -> Seq<char> {
        self.buf@
    }

    /// How many characters have been consumed.
    pub closed spec fn at(&self) -> int {
        self.i as int
    }

    /// The cursor is inside the text and the position counter agrees with
    /// the consumed prefix.
    pub closed spec fn wf(&self) -> bool {
        &&& self.i <= self.buf@.len()
        &&& self.buf@.len() < usize::MAX
        &&& self.pos.line as int == line_at(self.buf@, self.i as int)
        &&& self.pos.grapheme as int == col_at(self.buf@, self.i as int)
    }

    /// What well-formedness gives every holder of a cursor.
    pub proof fn lemma_wf(&self)
        requires
            self.wf(),
        ensures
            0 <= self.at() <= self.text().len(),
            self.text().len() < usize::MAX,
    {
    }

    /// The position counter, as reached after the consumed prefix.
    pub fn position(&self) -> (p: Pos)
        requires
            self.wf(),
        ensures
            p.line as int == line_at(self.text(), self.at()),
            p.grapheme as int == col_at(self.text(), self.at()),
    {
        self.pos
    }

    /// Gets the next character from the script but does not advance.
    pub fn peek_char(&self) -> (r: Option<char>)
        ensures
            r == if self.at() < self.text().len() {
                Some(self.text()[self.at()])
            } else {
                None::<char>
            },
    {
        if self.i < self.buf.len() {
            Some(self.buf[self.i])
        } else {
            None
        }
    }

    /// Gets the next character from the script.
    pub fn next_char(&mut self) -> (r: Option<char>)
        requires
            old(self).wf(),
        ensures
            final(self).wf(),
            final(self).text() == old(self).text(),
            old(self).at() < old(self).text().len() ==> r == Some(
                old(self).text()[old(self).at()],
            ) && final(self).at() == old(self).at() + 1,
            old(self).at() >= old(self).text().len() ==> r == None::<char> && final(self).at()
                == old(self).at(),
    {
        if self.i < self.buf.len() {
            let c = self.buf[self.i];
            proof {
                lemma_pos_bounds(self.buf@, self.i as int);
            }
            self.i = self.i + 1;
            self.pos.advance(c);
            Some(c)
        } else {
            None
        }
    }
}

/// Anything that can hand its characters over to a fresh script cursor.
pub trait ToScript {
    /// The characters the cursor will walk.
    spec fn chars(&self) -> Seq<char>;

    /// A fresh cursor over those characters.
    fn to_script(&self) -> (s: Script)
        requires
            self.chars().len() < usize::MAX,
        ensures
            s.wf(),
            s.text() == self.chars(),
            s.at() == 0,
    ;
}

impl ToScript for String {
    open spec fn chars(&self) -> Seq<char> {
        self@
    }

    fn to_script(&self) -> (s: Script) {
        let n = self.as_str().unicode_len();
        let mut buf: Vec<char> = Vec::new();
        let mut k: usize = 0;
        while k < n
            invariant
                k <= n,
                n == self@.len(),
                buf@ == self@.subrange(0, k as int),
            decreases n - k,
        {
            buf.push(self.as_str().get_char(k));
            assert(self@.subrange(0, k as int + 1) =~= self@.subrange(0, k as int).push(
                self@[k as int],
            ));
            k = k + 1;
        }
        assert(buf@ =~= self@);
        Script { buf, i: 0, pos: Pos::default() }
    }
}

fn space_char(c: char) -> (b: bool)
    ensures
        b == is_space(c),
{
    c == ' ' || c == '\t'
}

fn word_start_char(c: char) -> (b: bool)
    ensures
        b == is_word_start(c),
{
    let u = c as u32;
    (97 <= u && u <= 122) || (65 <= u && u <= 90) || c == '_'
}

fn word_char(c: char) -> (b: bool)
    ensures
        b == is_word_char(c),
{
    let u = c as u32;
    word_start_char(c) || (48 <= u && u <= 57)
}

/// Get the following token from the script.
///
/// ---
/// _**Lexicographic Analyzer**_
pub fn lexer(script: &mut Script) -> (r: Option<Token>)
    requires
        old(script).wf(),
    ensures
        final(script).wf(),
        final(script).text() == old(script).text(),
        match r {
            Some(t) => {
                &&& cr_end(old(script).text(), old(script).at()) < old(script).text().len()
                &&& tok_at(old(script).text(), old(script).at(), t)
                &&& final(script).at() == step_end(old(script).text(), old(script).at())
                &&& crate::token::wf_token(t)
                &&& crate::token::simple_token(t)
            },
            None => {
                &&& cr_end(old(script).text(), old(script).at()) == old(script).text().len()
                &&& final(script).at() == old(script).text().len()
            },
        },
{
    let ghost text = old(script).text();
    let ghost i0 = old(script).at();
    let mut prer: bool = false;  // The previous character is `\r`?

    proof {
        lemma_run_end(text, i0, 0, ' ');
    }

    loop
        invariant
            script.wf(),
            script.text() == text,
            text == old(script).text(),
            i0 == old(script).at(),
            0 <= i0 <= script.at() <= cr_end(text, i0),
            cr_end(text, script.at()) == cr_end(text, i0),
            prer == (script.at() > i0),
        decreases text.len() - script.at(),
    {
        let copt = script.peek_char();
        if copt.is_none() {
            proof {
                lemma_run_end(text, script.at(), 0, ' ');
            }
            return None;
        }
        let c = copt.unwrap();

        if c == '\r' {
            // Skip token(s).
            script.next_char();
            proof {
                lemma_run_end(text, script.at(), 0, ' ');
            }
            prer = true;
        } else {
            let ghost a = script.at();
            proof {
                assert(cr_end(text, a) == a);
                lemma_pos_bounds(text, a);
            }

            if c == '\n' {
                // Statement separator(s); collapse the following run of
                // line breaks into this one token.
                let mut tpos = script.pos;
                if !prer {
                    tpos.grapheme = tpos.grapheme + 1;
                }
                script.next_char();
                proof {
                    lemma_run_end(text, a + 1, 1, ' ');
                }
                loop
                    invariant
                        script.wf(),
                        script.text() == text,
                        0 <= a < text.len(),
                        a + 1 <= script.at() <= run_end(text, a + 1, 1, ' '),
                        run_end(text, a + 1, 1, ' ') <= text.len(),
                        run_end(text, script.at(), 1, ' ') == run_end(text, a + 1, 1, ' '),
                    ensures
                        script.wf(),
                        script.text() == text,
                        script.at() == run_end(text, a + 1, 1, ' '),
                    decreases text.len() - script.at(),
                {
                    match script.peek_char() {
                        Some(c2) => {
                            if c2 == '\r' || c2 == '\n' {
                                script.next_char();
                                proof {
                                    lemma_run_end(text, script.at(), 1, ' ');
                                }
                            } else {
                                break ;
                            }
                        },
                        None => {
                            break ;
                        },
                    }
                }
                return Some(Token { lexeme: Table::EndOfStmt, pos: tpos });
            } else if space_char(c) {
                // Whitespaces.
                script.next_char();
                let tpos = script.pos;
                proof {
                    lemma_run_end(text, a + 1, 2, ' ');
                }
                loop
                    invariant
                        script.wf(),
                        script.text() == text,
                        0 <= a < text.len(),
                        a + 1 <= script.at() <= run_end(text, a + 1, 2, ' '),
                        run_end(text, a + 1, 2, ' ') <= text.len(),
                        run_end(text, script.at(), 2, ' ') == run_end(text, a + 1, 2, ' '),
                    ensures
                        script.wf(),
                        script.text() == text,
                        script.at() == run_end(text, a + 1, 2, ' '),
                    decreases text.len() - script.at(),
                {
                    match script.peek_char() {
                        Some(c2) => {
                            if c2 == ' ' || c2 == '\t' {
                                script.next_char();
                                proof {
                                    lemma_run_end(text, script.at(), 2, ' ');
                                }
                            } else {
                                break ;
                            }
                        },
                        None => {
                            break ;
                        },
                    }
                }
                return Some(Token { lexeme: Table::Whitespace, pos: tpos });
            } else if word_start_char(c) {
                // Identifier or name.
                let mut lit: Vec<char> = Vec::new();
                match script.next_char() {
                    Some(ch) => lit.push(ch),
                    None => (),
                }
                let tpos = script.pos;
                proof {
                    lemma_run_end(text, a + 1, 3, ' ');
                    assert(lit@ =~= text.subrange(a, a + 1));
                }
                loop
                    invariant
                        script.wf(),
                        script.text() == text,
                        0 <= a < text.len(),
                        a + 1 <= script.at() <= run_end(text, a + 1, 3, ' '),
                        run_end(text, a + 1, 3, ' ') <= text.len(),
                        run_end(text, script.at(), 3, ' ') == run_end(text, a + 1, 3, ' '),
                        lit@ == text.subrange(a, script.at()),
                    ensures
                        script.wf(),
                        script.text() == text,
                        script.at() == run_end(text, a + 1, 3, ' '),
                        lit@ == text.subrange(a, script.at()),
                    decreases text.len() - script.at(),
                {
                    match script.peek_char() {
                        Some(c2) => {
                            if word_char(c2) {
                                match script.next_char() {
                                    Some(ch) => lit.push(ch),
                                    None => (),
                                }
                                proof {
                                    lemma_run_end(text, script.at(), 3, ' ');
                                    assert(lit@ =~= text.subrange(a, script.at()));
                                }
                            } else {
                                break ;
                            }
                        },
                        None => {
                            break ;
                        },
                    }
                }
                // Keyword or identifier.
                let is_fn = lit.len() == 2 && lit[0] == 'f' && lit[1] == 'n';
                let is_kw_extern = lit.len() == 6 && lit[0] == 'e' && lit[1] == 'x' && lit[2]
                    == 't' && lit[3] == 'e' && lit[4] == 'r' && lit[5] == 'n';
                proof {
                    if is_fn {
                        assert(lit@ =~= fn_chars());
                    } else {
                        if lit@ == fn_chars() {
                            assert(lit@.len() == 2 && lit@[0] == 'f' && lit@[1] == 'n');
                            assert(false);
                        }
                    }
                    if is_kw_extern {
                        assert(lit@ =~= kw_extern_chars());
                    } else {
                        if lit@ == kw_extern_chars() {
                            assert(lit@.len() == 6 && lit@[0] == 'e' && lit@[1] == 'x' && lit@[2]
                                == 't' && lit@[3] == 'e' && lit@[4] == 'r' && lit@[5] == 'n');
                            assert(false);
                        }
                    }
                }
                if is_fn {
                    return Some(Token { lexeme: Table::Fn, pos: tpos });
                } else if is_kw_extern {
                    return Some(Token { lexeme: Table::KeywordExtern, pos: tpos });
                } else {
                    return Some(Token { lexeme: Table::Id(Some(lit)), pos: tpos });
                }
            } else if c == '"' {
                // String literal.
                let t = scan_quoted(script, '"', Ghost(a));
                return Some(Token { lexeme: Table::StringLit(Some(t.0)), pos: t.1 });
            } else if c == '\'' {
                // Character literal.
                let t = scan_quoted(script, '\'', Ghost(a));
                return Some(Token { lexeme: Table::CharLit(Some(t.0)), pos: t.1 });
            } else if c == '/' {
                // Comment or division symbol.
                script.next_char();
                let tpos = script.pos;
                match script.peek_char() {
                    Some(c2) => {
                        if c2 == '/' {
                            // Comment: its content tokens are attached in
                            // the retokenization.
                            script.next_char();
                            return Some(Token { lexeme: Table::Cmt(None), pos: tpos });
                        }
                    },
                    None => (),
                }
                return Some(Token { lexeme: Table::DivisionSym, pos: tpos });
            } else {
                // Illegal token: exactly one grapheme. The position is
                // saved before the grapheme is taken from the script.
                let tpos = Pos { line: script.pos.line, grapheme: script.pos.grapheme + 1 };
                let mut lit: Vec<char> = Vec::new();
                lit.push(c);
                script.next_char();
                proof {
                    assert(lit@ =~= seq![text[a]]);
                }
                return Some(Token { lexeme: Table::Illegal(Some(lit)), pos: tpos });
            }
        }
    }
}

/// Consume through and including the next `q`, the opening quote still
/// pending; returns the owned characters, opening quote included, and the
/// token position recorded just after the opening quote.
fn scan_quoted(script: &mut Script, q: char, start: Ghost<int>) -> (r: (Vec<char>, Pos))
    requires
        old(script).wf(),
        0 <= start@ < old(script).text().len(),
        old(script).at() == start@,
        old(script).text()[start@] == q,
    ensures
        final(script).wf(),
        final(script).text() == old(script).text(),
        ({
            let text = old(script).text();
            let a = start@;
            let close = run_end(text, a + 1, 4, q);
            let e = if close < text.len() {
                close + 1
            } else {
                text.len() as int
            };
            &&& final(script).at() == e
            &&& r.0@ == text.subrange(a, e)
            &&& r.1.line as int == line_at(text, a + 1)
            &&& r.1.grapheme as int == col_at(text, a + 1)
        }),
{
    let ghost text = old(script).text();
    let ghost a = start@;
    let ghost close = run_end(text, a + 1, 4, q);
    let ghost e = if close < text.len() {
        close + 1
    } else {
        text.len() as int
    };
    let mut lit: Vec<char> = Vec::new();
    match script.next_char() {
        Some(ch) => lit.push(ch),
        None => (),
    }
    let tpos = script.pos;
    proof {
        lemma_run_end(text, a + 1, 4, q);
        assert(lit@ =~= text.subrange(a, a + 1));
    }
    loop
        invariant_except_break
            script.at() <= close,
            run_end(text, script.at(), 4, q) == close,
        invariant
            script.wf(),
            script.text() == text,
            0 <= a < text.len(),
            a + 1 <= script.at(),
            close <= text.len(),
            close == run_end(text, a + 1, 4, q),
            e == if close < text.len() {
                close + 1
            } else {
                text.len() as int
            },
            lit@ == text.subrange(a, script.at()),
        ensures
            script.wf(),
            script.text() == text,
            script.at() == e,
            lit@ == text.subrange(a, e),
        decreases text.len() - script.at(),
    {
        proof {
            lemma_run_end(text, script.at(), 4, q);
        }
        match script.next_char() {
            Some(ch) => {
                lit.push(ch);
                proof {
                    assert(lit@ =~= text.subrange(a, script.at()));
                }
                if ch == q {
                    break ;
                } else {
                    proof {
                        lemma_run_end(text, script.at(), 4, q);
                    }
                }
            },
            None => {
                break ;
            },
        }
    }
    (lit, tpos)
}

} // verus!
