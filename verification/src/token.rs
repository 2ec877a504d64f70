//! The token table: the closed set of lexeme kinds, the `Token` carrying a
//! kind and a position, the rendering of a token to its literal, and the
//! deep-equality predicates the contracts of the store and parser speak of.

use crate::lits::{
    cmt_chars, cmt_lit, division_chars, division_symbol_lit, fn_chars, fn_lit, kw_extern_chars,
    kw_extern_lit, semicolon_chars, semicolon_symbol_lit, space_chars, space_lit, Lit, NonReserved,
};
use crate::pos::Pos;
use crate::strutil::copy_chars;
use vstd::prelude::*;

verus! {

/// A lexeme: the kind of a token, together with the characters it owns.
/// Literal-bearing variants own their characters; reserved and structural
/// variants resolve their literal from the static table in `lits`.
#[derive(Debug)]
pub enum Table {
    /// `identifier_name`
    Id(Option<Vec<char>>),
    /// `fn`
    Fn,
    /// the external-declaration keyword
    KeywordExtern,
    /// `"..."`, quotes included
    StringLit(Option<Vec<char>>),
    /// `'...'`, quotes included
    CharLit(Option<Vec<char>>),
    /// `\n`
    EndOfStmt,
    /// `' '` or tab
    Whitespace,
    /// `/`
    DivisionSym,
    /// `//...`, its payload folded in by the retokenizer
    Cmt(Option<Vec<Token>>),
    /// exactly one grapheme that matched no rule
    Illegal(Option<Vec<char>>),
}

/// Smallest lexical unit: a lexeme tagged with its source position.
#[derive(Debug)]
pub struct Token {
    pub lexeme: Table,
    pub pos: Pos,
}

/// Do two lexemes have the same kind, payloads ignored?
pub open spec fn kind_eq(a: Table, b: Table) -> bool {
    match a {
        Table::Id(_) => b is Id,
        Table::Fn => b is Fn,
        Table::KeywordExtern => b is KeywordExtern,
        Table::StringLit(_) => b is StringLit,
        Table::CharLit(_) => b is CharLit,
        Table::EndOfStmt => b is EndOfStmt,
        Table::Whitespace => b is Whitespace,
        Table::DivisionSym => b is DivisionSym,
        Table::Cmt(_) => b is Cmt,
        Table::Illegal(_) => b is Illegal,
    }
}

/// A literal-bearing lexeme actually owns its characters.
pub open spec fn payload_filled(t: Table) -> bool {
    match t {
        Table::Id(o) => o is Some,
        Table::StringLit(o) => o is Some,
        Table::CharLit(o) => o is Some,
        Table::Illegal(o) => o is Some,
        _ => true,
    }
}

/// A token that is not a folded comment.
pub open spec fn simple_token(t: Token) -> bool {
    !(t.lexeme matches Table::Cmt(Some(_)))
}

/// Well-formed lexeme: payloads are filled, and a folded comment holds a
/// non-empty payload of filled, unfolded tokens.
pub open spec fn wf_table(t: Table) -> bool {
    &&& payload_filled(t)
    &&& match t {
        Table::Cmt(Some(v)) => v@.len() > 0 && forall|k: int|
            0 <= k < v@.len() ==> #[trigger] simple_token(v@[k]) && payload_filled(v@[k].lexeme),
        _ => true,
    }
}

/// Well-formed token.
pub open spec fn wf_token(t: Token) -> bool {
    wf_table(t.lexeme)
}

/// Payload equality for two optional character vectors.
pub open spec fn opt_chars_eq(x: Option<Vec<char>>, y: Option<Vec<char>>) -> bool {
    match (x, y) {
        (Some(v), Some(w)) => v@ == w@,
        (None, None) => true,
        _ => false,
    }
}

/// Deep equality of two unfolded lexemes. Folded comments compare unequal
/// to everything here; they are handled one level up by `lex_eq`.
pub open spec fn simple_lex_eq(a: Table, b: Table) -> bool {
    match (a, b) {
        (Table::Id(x), Table::Id(y)) => opt_chars_eq(x, y),
        (Table::Fn, Table::Fn) => true,
        (Table::KeywordExtern, Table::KeywordExtern) => true,
        (Table::StringLit(x), Table::StringLit(y)) => opt_chars_eq(x, y),
        (Table::CharLit(x), Table::CharLit(y)) => opt_chars_eq(x, y),
        (Table::EndOfStmt, Table::EndOfStmt) => true,
        (Table::Whitespace, Table::Whitespace) => true,
        (Table::DivisionSym, Table::DivisionSym) => true,
        (Table::Cmt(None), Table::Cmt(None)) => true,
        (Table::Illegal(x), Table::Illegal(y)) => opt_chars_eq(x, y),
        _ => false,
    }
}

/// Deep equality of two unfolded tokens.
pub open spec fn simple_tok_eq(a: Token, b: Token) -> bool {
    a.pos == b.pos && simple_lex_eq(a.lexeme, b.lexeme)
}

/// Elementwise deep equality of two sequences of unfolded tokens.
pub open spec fn toks_sim_eq(x: Seq<Token>, y: Seq<Token>) -> bool {
    x.len() == y.len() && forall|k: int| 0 <= k < x.len() ==> #[trigger] simple_tok_eq(x[k], y[k])
}

/// Deep equality of two lexemes, folded comments included.
pub open spec fn lex_eq(a: Table, b: Table) -> bool {
    match (a, b) {
        (Table::Cmt(Some(v)), Table::Cmt(Some(w))) => toks_sim_eq(v@, w@),
        _ => simple_lex_eq(a, b),
    }
}

/// Deep equality of two tokens.
pub open spec fn tok_eq(a: Token, b: Token) -> bool {
    a.pos == b.pos && lex_eq(a.lexeme, b.lexeme)
}

/// The literal characters of an unfolded lexeme, if it has any. A folded
/// comment is rendered here as the bare marker; `lit_chars` refines it.
pub open spec fn simple_lit_chars(t: Table) -> Option<Seq<char>> {
    match t {
        Table::Id(o) => match o {
            Some(v) => Some(v@),
            None => None,
        },
        Table::Fn => Some(fn_chars()),
        Table::KeywordExtern => Some(kw_extern_chars()),
        Table::StringLit(o) => match o {
            Some(v) => Some(v@),
            None => None,
        },
        Table::CharLit(o) => match o {
            Some(v) => Some(v@),
            None => None,
        },
        Table::EndOfStmt => Some(semicolon_chars()),
        Table::Whitespace => Some(space_chars()),
        Table::DivisionSym => Some(division_chars()),
        Table::Cmt(_) => Some(cmt_chars()),
        Table::Illegal(o) => match o {
            Some(v) => Some(v@),
            None => None,
        },
    }
}

/// The literal characters of a token of a comment payload: tokens without
/// a literal contribute nothing.
pub open spec fn simple_or_empty(t: Token) -> Seq<char> {
    match simple_lit_chars(t.lexeme) {
        Some(cs) => cs,
        None => Seq::empty(),
    }
}

/// Concatenated literals of a comment payload.
pub open spec fn concat_lits(s: Seq<Token>) -> Seq<char>
    decreases s.len(),
{
    if s.len() == 0 {
        Seq::empty()
    } else {
        simple_or_empty(s[0]) + concat_lits(s.drop_first())
    }
}

/// The literal characters a lexeme renders to, if it has any: what the
/// token table resolves for reserved kinds, the owned characters for
/// literal-bearing kinds, and the marker followed by the payload literals
/// for a folded comment.
pub open spec fn lit_chars(t: Table) -> Option<Seq<char>> {
    match t {
        Table::Cmt(Some(v)) => if v@.len() > 0 {
            Some(cmt_chars() + concat_lits(v@))
        } else {
            Some(cmt_chars())
        },
        _ => simple_lit_chars(t),
    }
}

/// The clean length of a lexeme: the length of its literal, or zero.
pub open spec fn lit_len(t: Table) -> int {
    match lit_chars(t) {
        Some(cs) => cs.len() as int,
        None => 0,
    }
}

/// A well-formed identifier token owns its characters, so its clean
/// length is their count.
pub proof fn lemma_wf_lit(t: Token)
    requires
        wf_token(t),
    ensures
        t.lexeme matches Table::Id(Some(v)) ==> lit_len(t.lexeme) == v@.len(),
        t.lexeme is Id ==> t.lexeme matches Table::Id(Some(_)),
{
}

/// Concatenation distributes over appending one token at the end.
pub proof fn lemma_concat_lits_snoc(s: Seq<Token>, t: Token)
    ensures
        concat_lits(s.push(t)) == concat_lits(s) + simple_or_empty(t),
    decreases s.len(),
{
    if s.len() == 0 {
        assert(s.push(t)[0] == t);
        assert(s.push(t).drop_first() =~= Seq::<Token>::empty());
        assert(concat_lits(Seq::<Token>::empty()) =~= Seq::<char>::empty());
        assert(concat_lits(s.push(t)) =~= simple_or_empty(t));
        assert(concat_lits(s) + simple_or_empty(t) =~= simple_or_empty(t));
    } else {
        assert(s.push(t).drop_first() =~= s.drop_first().push(t));
        lemma_concat_lits_snoc(s.drop_first(), t);
        assert(s.push(t)[0] == s[0]);
        assert(concat_lits(s.push(t)) == simple_or_empty(s[0]) + (concat_lits(s.drop_first())
            + simple_or_empty(t)));
        assert(simple_or_empty(s[0]) + (concat_lits(s.drop_first()) + simple_or_empty(t)) =~= (
        simple_or_empty(s[0]) + concat_lits(s.drop_first())) + simple_or_empty(t));
    }
}

/// Payloads that are deeply equal render to the same characters.
pub proof fn lemma_concat_lits_congruent(x: Seq<Token>, y: Seq<Token>)
    requires
        toks_sim_eq(x, y),
    ensures
        concat_lits(x) == concat_lits(y),
    decreases x.len(),
{
    if x.len() > 0 {
        assert(simple_tok_eq(x[0], y[0]));
        assert(simple_or_empty(x[0]) =~= simple_or_empty(y[0])) by {
            lemma_simple_lit_congruent(x[0].lexeme, y[0].lexeme);
        }
        assert(toks_sim_eq(x.drop_first(), y.drop_first())) by {
            assert(forall|k: int|
                0 <= k < x.drop_first().len() ==> #[trigger] simple_tok_eq(
                    x.drop_first()[k],
                    y.drop_first()[k],
                )) by {
                assert(forall|k: int|
                    0 <= k < x.drop_first().len() ==> x.drop_first()[k] == x[k + 1]
                        && y.drop_first()[k] == y[k + 1]);
            }
        }
        lemma_concat_lits_congruent(x.drop_first(), y.drop_first());
    }
}

/// Deeply equal unfolded lexemes render to the same characters.
pub proof fn lemma_simple_lit_congruent(a: Table, b: Table)
    requires
        simple_lex_eq(a, b),
    ensures
        simple_lit_chars(a) is Some <==> simple_lit_chars(b) is Some,
        simple_lit_chars(a) is Some ==> simple_lit_chars(a)->0 == simple_lit_chars(b)->0,
{
}

/// Deeply equal lexemes render to the same characters.
pub proof fn lemma_lit_congruent(a: Table, b: Table)
    requires
        lex_eq(a, b),
    ensures
        lit_chars(a) is Some <==> lit_chars(b) is Some,
        lit_chars(a) is Some ==> lit_chars(a)->0 == lit_chars(b)->0,
{
    match (a, b) {
        (Table::Cmt(Some(v)), Table::Cmt(Some(w))) => {
            lemma_concat_lits_congruent(v@, w@);
        },
        _ => {
            lemma_simple_lit_congruent(a, b);
        },
    }
}

impl Table {
    /// The lexeme a fresh token starts out as.
    pub fn default() -> (r: Self)
        ensures
            r == Table::Illegal(None::<Vec<char>>),
    {
        Table::Illegal(None)
    }

    /// Check what the token identifier is.
    pub fn is(&self, cmp: &Self) -> (r: bool)
        ensures
            r == kind_eq(*self, *cmp),
    {
        match self {
            Table::Id(_) => match cmp {
                Table::Id(_) => true,
                _ => false,
            },
            Table::Fn => match cmp {
                Table::Fn => true,
                _ => false,
            },
            Table::KeywordExtern => match cmp {
                Table::KeywordExtern => true,
                _ => false,
            },
            Table::EndOfStmt => match cmp {
                Table::EndOfStmt => true,
                _ => false,
            },
            Table::DivisionSym => match cmp {
                Table::DivisionSym => true,
                _ => false,
            },
            Table::CharLit(_) => match cmp {
                Table::CharLit(_) => true,
                _ => false,
            },
            Table::StringLit(_) => match cmp {
                Table::StringLit(_) => true,
                _ => false,
            },
            Table::Whitespace => match cmp {
                Table::Whitespace => true,
                _ => false,
            },
            Table::Cmt(_) => match cmp {
                Table::Cmt(_) => true,
                _ => false,
            },
            Table::Illegal(_) => match cmp {
                Table::Illegal(_) => true,
                _ => false,
            },
        }
    }

    /// Obtain the token literal.
    pub fn lit(&self) -> (r: Option<Lit>)
        ensures
            match r {
                Some(l) => lit_chars(*self) == Some(l.chars()),
                None => lit_chars(*self) is None,
            },
    {
        match self {
            Table::Id(opt) => match opt {
                Some(v) => Some(Lit::NonReserved(NonReserved::Primitive(copy_chars(v)))),
                None => None,
            },
            Table::Illegal(opt) => match opt {
                Some(v) => Some(Lit::NonReserved(NonReserved::Primitive(copy_chars(v)))),
                None => None,
            },
            Table::CharLit(opt) => match opt {
                Some(v) => Some(Lit::NonReserved(NonReserved::Primitive(copy_chars(v)))),
                None => None,
            },
            Table::StringLit(opt) => match opt {
                Some(v) => Some(Lit::NonReserved(NonReserved::Primitive(copy_chars(v)))),
                None => None,
            },
            Table::Fn => Some(Lit::Reserved(fn_lit())),
            Table::KeywordExtern => Some(Lit::Reserved(kw_extern_lit())),
            Table::Whitespace => Some(Lit::Reserved(space_lit())),
            Table::EndOfStmt => Some(Lit::Reserved(semicolon_symbol_lit())),
            Table::DivisionSym => Some(Lit::Reserved(division_symbol_lit())),
            Table::Cmt(opt) => match opt {
                Some(tokens) => {
                    if tokens.len() > 0 {
                        let mut cmt: Vec<char> = Vec::new();
                        cmt.push('/');
                        cmt.push('/');
                        assert(cmt@ =~= cmt_chars());
                        let mut k: usize = 0;
                        while k < tokens.len()
                            invariant
                                k <= tokens.len(),
                                cmt@ == cmt_chars() + concat_lits(tokens@.subrange(0, k as int)),
                            decreases tokens.len() - k,
                        {
                            proof {
                                assert(tokens@.subrange(0, k as int + 1) =~= tokens@.subrange(
                                    0,
                                    k as int,
                                ).push(tokens@[k as int]));
                                lemma_concat_lits_snoc(
                                    tokens@.subrange(0, k as int),
                                    tokens@[k as int],
                                );
                            }
                            simple_lit_push(&tokens[k], &mut cmt);
                            assert(cmt@ =~= cmt_chars() + concat_lits(
                                tokens@.subrange(0, k as int + 1),
                            ));
                            k = k + 1;
                        }
                        assert(tokens@.subrange(0, tokens@.len() as int) =~= tokens@);
                        Some(Lit::NonReserved(NonReserved::Pseudo(cmt)))
                    } else {
                        Some(Lit::Reserved(cmt_lit()))
                    }
                },
                None => Some(Lit::Reserved(cmt_lit())),
            },
        }
    }

    /// Count the clean length of the token.
    pub fn len(&self) -> (r: usize)
        ensures
            r as int == lit_len(*self),
    {
        match self.lit() {
            Some(l) => {
                let v = l.to_chars();
                v.len()
            },
            None => 0,
        }
    }
}

/// Append the literal of an unfolded token, if it has one; a folded comment
/// contributes its bare marker here.
fn simple_lit_push(t: &Token, out: &mut Vec<char>)
    ensures
        final(out)@ == old(out)@ + simple_or_empty(*t),
{
    match &t.lexeme {
        Table::Id(opt) => match opt {
            Some(v) => push_all(out, v),
            None => (),
        },
        Table::Illegal(opt) => match opt {
            Some(v) => push_all(out, v),
            None => (),
        },
        Table::CharLit(opt) => match opt {
            Some(v) => push_all(out, v),
            None => (),
        },
        Table::StringLit(opt) => match opt {
            Some(v) => push_all(out, v),
            None => (),
        },
        Table::Fn => {
            out.push('f');
            out.push('n');
        },
        Table::KeywordExtern => {
            out.push('e');
            out.push('x');
            out.push('t');
            out.push('e');
            out.push('r');
            out.push('n');
        },
        Table::Whitespace => {
            out.push(' ');
        },
        Table::EndOfStmt => {
            out.push(';');
        },
        Table::DivisionSym => {
            out.push('/');
        },
        Table::Cmt(_) => {
            out.push('/');
            out.push('/');
        },
    }
    assert(out@ =~= old(out)@ + simple_or_empty(*t));
}

/// Append every character of `v` at the end of `out`.
fn push_all(out: &mut Vec<char>, v: &Vec<char>)
    ensures
        final(out)@ == old(out)@ + v@,
{
    let mut k: usize = 0;
    while k < v.len()
        invariant
            k <= v.len(),
            out@ == old(out)@ + v@.subrange(0, k as int),
        decreases v.len() - k,
    {
        out.push(v[k]);
        assert(old(out)@ + v@.subrange(0, k as int + 1) =~= (old(out)@ + v@.subrange(
            0,
            k as int,
        )).push(v@[k as int]));
        k = k + 1;
    }
    assert(v@.subrange(0, v@.len() as int) =~= v@);
}

/// Copy an unfolded token. A folded comment comes back as the bare marker;
/// the store never keeps one inside a payload.
pub fn copy_simple_token(t: &Token) -> (r: Token)
    ensures
        simple_token(*t) && payload_filled(t.lexeme) ==> simple_tok_eq(r, *t),
        simple_token(r),
        payload_filled(t.lexeme) ==> payload_filled(r.lexeme),
{
    let lexeme: Table = match &t.lexeme {
        Table::Id(opt) => match opt {
            Some(v) => Table::Id(Some(copy_chars(v))),
            None => Table::Id(None),
        },
        Table::Fn => Table::Fn,
        Table::KeywordExtern => Table::KeywordExtern,
        Table::StringLit(opt) => match opt {
            Some(v) => Table::StringLit(Some(copy_chars(v))),
            None => Table::StringLit(None),
        },
        Table::CharLit(opt) => match opt {
            Some(v) => Table::CharLit(Some(copy_chars(v))),
            None => Table::CharLit(None),
        },
        Table::EndOfStmt => Table::EndOfStmt,
        Table::Whitespace => Table::Whitespace,
        Table::DivisionSym => Table::DivisionSym,
        Table::Cmt(_) => Table::Cmt(None),
        Table::Illegal(opt) => match opt {
            Some(v) => Table::Illegal(Some(copy_chars(v))),
            None => Table::Illegal(None),
        },
    };
    Token { lexeme: lexeme, pos: t.pos }
}

/// Copy a token. A well-formed token comes back deeply equal.
pub fn copy_token(t: &Token) -> (r: Token)
    ensures
        wf_token(*t) ==> tok_eq(r, *t) && wf_token(r),
{
    match &t.lexeme {
        Table::Cmt(opt) => match opt {
            Some(v) => {
                proof {
                    assert(t.lexeme == Table::Cmt(Some(*v)));
                }
                let mut payload: Vec<Token> = Vec::new();
                let mut k: usize = 0;
                while k < v.len()
                    invariant
                        t.lexeme == Table::Cmt(Some(*v)),
                        k <= v.len(),
                        payload@.len() == k,
                        wf_token(*t) ==> forall|j: int|
                            #![trigger payload@[j]]
                            0 <= j < k ==> simple_tok_eq(payload@[j], v@[j]),
                        forall|j: int|
                            #![trigger payload@[j]]
                            0 <= j < k ==> simple_token(payload@[j]) && (wf_token(*t)
                                ==> payload_filled(payload@[j].lexeme)),
                    decreases v.len() - k,
                {
                    proof {
                        if wf_token(*t) {
                            assert(simple_token(v@[k as int]));
                            assert(payload_filled(v@[k as int].lexeme));
                        }
                    }
                    let c = copy_simple_token(&v[k]);
                    payload.push(c);
                    k = k + 1;
                }
                Token { lexeme: Table::Cmt(Some(payload)), pos: t.pos }
            },
            None => Token { lexeme: Table::Cmt(None), pos: t.pos },
        },
        _ => copy_simple_token(t),
    }
}

impl Clone for Token {
    /// A copy of the token: deeply equal whenever the token is
    /// well-formed.
    fn clone(&self) -> (r: Self)
        ensures
            wf_token(*self) ==> tok_eq(r, *self) && wf_token(r),
    {
        copy_token(self)
    }
}

impl Token {
    /// A fresh token: no lexeme yet, at the start of the script.
    pub fn new() -> (r: Self)
        ensures
            r.lexeme == Table::Illegal(None::<Vec<char>>),
            r.pos.line == 1,
            r.pos.grapheme == 0,
    {
        Self { lexeme: Table::default(), pos: Pos::default() }
    }

    /// Check what the token identifier is.
    pub fn is(&self, cmp: &Table) -> (r: bool)
        ensures
            r == kind_eq(self.lexeme, *cmp),
    {
        self.lexeme.is(cmp)
    }

    /// Count the clean length of the token.
    pub fn len(&self) -> (r: usize)
        ensures
            r as int == lit_len(self.lexeme),
    {
        self.lexeme.len()
    }

    /// Obtain the token literal.
    pub fn lit(&self) -> (r: Option<Lit>)
        ensures
            match r {
                Some(l) => lit_chars(self.lexeme) == Some(l.chars()),
                None => lit_chars(self.lexeme) is None,
            },
    {
        self.lexeme.lit()
    }
}

} // verus!
