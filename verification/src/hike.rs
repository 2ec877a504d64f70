//! Which files the source walk accepts: the extension check of the
//! discovery that scans the source folder for scripts. The walk itself is
//! the caller's business; the legality rule lives here.

use crate::cli::lower;
use vstd::prelude::*;

verus! {

/// The file extensions the source walk accepts, compared
/// case-insensitively.
pub open spec fn legal_extension_spec(ext: Seq<char>) -> bool {
    ||| lower(ext) == "t"@
    ||| lower(ext) == "h"@
    ||| lower(ext) == "c"@
    ||| lower(ext) == "cpp"@
    ||| lower(ext) == "c++"@
}

/// Is `ext` an extension of a script the source walk accepts? Any other
/// file inside the source folder is illegal.
pub fn legal_extension(ext: &String) -> (r: bool)
    ensures
        r == legal_extension_spec(ext@),
{
    crate::cli::eq_lower(ext, "t") || crate::cli::eq_lower(ext, "h") || crate::cli::eq_lower(
        ext,
        "c",
    ) || crate::cli::eq_lower(ext, "cpp") || crate::cli::eq_lower(ext, "c++")
}

} // verus!
