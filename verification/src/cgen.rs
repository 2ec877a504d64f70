//! The statement tree handed to the code generator, and the generation of
//! target-language text for one function declaration.

use crate::lits::{default_id_chars, default_id_lit};
use crate::pos::Pos;
use crate::token::{lit_chars, Table, Token};
use vstd::prelude::*;
use vstd::string::StringExecFns;

verus! {

/// Transpilation mode.
#[derive(Debug, PartialEq)]
pub enum Mode {
    /// Ready for production.
    Release,
    /// Debugging and/or testing.
    Dev,
}

/// Language statements.
#[derive(Debug)]
pub enum Stmt {
    Global(Option<Vec<Stmt>>),
    Fn(Option<Fn>),
}

/// **Statement:** a function declaration, either in full or, body-less, in
/// prototype form.
#[derive(Debug)]
pub struct Fn {
    pub name: Token,
    pub body: Vec<Stmt>,
}

/// The target-language text generated for one statement of a function
/// body: only nested function declarations produce text.
pub open spec fn stmt_render(s: Stmt) -> Seq<char>
    decreases s, 2int,
{
    match s {
        Stmt::Global(_) => Seq::empty(),
        Stmt::Fn(opt) => match opt {
            Some(f) => fn_render(f),
            None => Seq::empty(),
        },
    }
}

/// The target-language text generated for one function declaration: a
/// space, the function name, and the body within braces.
pub open spec fn fn_render(f: Fn) -> Seq<char>
    decreases f, 1int,
{
    seq![' '] + (match lit_chars(f.name.lexeme) {
        Some(cs) => cs,
        None => default_id_chars(),
    }) + seq!['{'] + body_render(f.body@) + seq!['}']
}

/// The concatenated text of a function body.
pub open spec fn body_render(body: Seq<Stmt>) -> Seq<char>
    decreases body, 0int,
{
    if body.len() == 0 {
        Seq::empty()
    } else {
        stmt_render(body[0]) + body_render(body.drop_first())
    }
}

/// Concatenated body text distributes over appending one statement.
pub proof fn lemma_body_render_snoc(body: Seq<Stmt>, s: Stmt)
    ensures
        body_render(body.push(s)) == body_render(body) + stmt_render(s),
    decreases body.len(),
{
    if body.len() == 0 {
        assert(body.push(s)[0] == s);
        assert(body.push(s).drop_first() =~= Seq::<Stmt>::empty());
        assert(body_render(Seq::<Stmt>::empty()) =~= Seq::<char>::empty());
        assert(body_render(body.push(s)) =~= stmt_render(s));
        assert(body_render(body) + stmt_render(s) =~= stmt_render(s));
    } else {
        assert(body.push(s).drop_first() =~= body.drop_first().push(s));
        lemma_body_render_snoc(body.drop_first(), s);
        assert(body.push(s)[0] == body[0]);
        assert(body_render(body.push(s)) == stmt_render(body[0]) + (body_render(body.drop_first())
            + stmt_render(s)));
        assert(stmt_render(body[0]) + (body_render(body.drop_first()) + stmt_render(s)) =~= (
        stmt_render(body[0]) + body_render(body.drop_first())) + stmt_render(s));
    }
}

impl Fn {
    /// A nameless function declaration with an empty body.
    pub fn new() -> (r: Self)
        ensures
            r.name.lexeme == Table::Illegal(None::<Vec<char>>),
            r.name.pos.line == 1,
            r.name.pos.grapheme == 0,
            r.body@.len() == 0,
    {
        Self { name: Token::new(), body: Vec::new() }
    }

    /// Generate the target-language code of this function declaration,
    /// appended at the end of `cpp_fn`.
    pub fn cgen(&self, cpp_fn: &mut String)
        ensures
            final(cpp_fn)@ == old(cpp_fn)@ + fn_render(*self),
        decreases *self,
    {
        // Function name.
        cpp_fn.push(' ');
        match self.name.lit() {
            Some(lit) => {
                let t = lit.to_text();
                cpp_fn.append(t.as_str());
            },
            None => {
                cpp_fn.append(default_id_lit());
            },
        }

        // Function body.
        cpp_fn.push('{');
        let ghost mid = cpp_fn@;
        let mut k: usize = 0;
        while k < self.body.len()
            invariant
                k <= self.body.len(),
                cpp_fn@ == mid + body_render(self.body@.subrange(0, k as int)),
            decreases self.body.len() - k,
        {
            proof {
                assert(self.body@.subrange(0, k as int + 1) =~= self.body@.subrange(
                    0,
                    k as int,
                ).push(self.body@[k as int]));
                lemma_body_render_snoc(self.body@.subrange(0, k as int), self.body@[k as int]);
            }
            match &self.body[k] {
                Stmt::Fn(opt) => match opt {
                    Some(fn_stmt) => {
                        proof {
                            assert(decreases_to!(*self => self.body));
                            assert(decreases_to!(self.body => self.body@));
                            assert(decreases_to!(self.body@ => self.body@[k as int]));
                        }
                        fn_stmt.cgen(cpp_fn);
                    },
                    None => (),
                },
                Stmt::Global(_) => (),
            }
            k = k + 1;
        }
        cpp_fn.push('}');
        proof {
            assert(self.body@.subrange(0, self.body@.len() as int) =~= self.body@);
            assert(old(cpp_fn)@ + fn_render(*self) =~= cpp_fn@);
        }
    }
}

/// Generate the target-language code of a whole script: the text of each
/// function declaration in order, appended at the end of `cpp`.
pub fn cgen_script(script: &Vec<Stmt>, cpp: &mut String)
    ensures
        final(cpp)@ == old(cpp)@ + body_render(script@),
{
    let mut k: usize = 0;
    while k < script.len()
        invariant
            k <= script.len(),
            cpp@ == old(cpp)@ + body_render(script@.subrange(0, k as int)),
        decreases script.len() - k,
    {
        proof {
            assert(script@.subrange(0, k as int + 1) =~= script@.subrange(0, k as int).push(
                script@[k as int],
            ));
            lemma_body_render_snoc(script@.subrange(0, k as int), script@[k as int]);
        }
        match &script[k] {
            Stmt::Fn(opt) => match opt {
                Some(fn_stmt) => fn_stmt.cgen(cpp),
                None => (),
            },
            Stmt::Global(_) => (),
        }
        k = k + 1;
    }
    proof {
        assert(script@.subrange(0, script@.len() as int) =~= script@);
    }
}

} // verus!
