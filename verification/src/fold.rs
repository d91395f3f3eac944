//! Case folding: the lowercase form of a text, by which texts are compared
//! when letter case is to be ignored.

use vstd::prelude::*;
use vstd::string::*;

verus! {

/// The lowercase form that the standard library gives for `text`.
///
/// Lowercasing follows the Unicode tables and a rule for the Greek capital
/// sigma that looks at the letters around it, so it is named here and not
/// written out. It depends on the characters of the text alone.
pub uninterp spec fn lowercase(text: Seq<char>) -> Seq<char>;

/// Trusted: `str::to_lowercase` of the standard library. The result is a new
/// string, the lowercase form of `s` as the standard library defines it,
/// named [`lowercase`]. It is built from the characters of `s`, one after the
/// other, so the empty string gives the empty string. Nothing else is
/// claimed of it.
pub assume_specification[ str::to_lowercase ](s: &str) -> (folded: String)
    ensures
        folded@ == lowercase(s@),
        s@.len() == 0 ==> folded@.len() == 0,
;

} // verus!
