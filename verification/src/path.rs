//! Paths of a file system, as texts with slashes.

use vstd::prelude::*;
use vstd::string::*;

use crate::text;
use crate::text::{begins, cat2, cat3, chars_of, ends};

verus! {

/// A path below another one: an absolute path stands for itself.
pub open spec fn below(base: Seq<char>, rel: Seq<char>) -> Seq<char> {
    if text::starts_with(rel, "/"@) {
        rel
    } else if base.len() == 0 || text::ends_with(base, "/"@) {
        base + rel
    } else {
        base + "/"@ + rel
    }
}

/// A path below another one.
pub fn join(base: &str, rel: &str) -> (r: String)
    ensures
        r@ == below(base@, rel@),
{
    let slash = chars_of("/");
    if begins(chars_of(rel).as_slice(), slash.as_slice()) {
        rel.to_string()
    } else if base.is_empty() || ends(chars_of(base).as_slice(), slash.as_slice()) {
        cat2(base, rel)
    } else {
        cat3(base, "/", rel)
    }
}

} // verus!
