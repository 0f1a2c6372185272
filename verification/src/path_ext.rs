//! Lexical resolution as a method on path-like values.

use vstd::prelude::*;

use crate::path::spec_lexical_absolute;

verus! {

/// Path-like values that can be resolved to an absolute form by purely
/// lexical rules, without touching the filesystem.
pub trait ToLexicalAbsolute {
    /// The characters of the path.
    spec fn path_view(&self) -> Seq<char>;

    /// Resolves the path against the working directory `cwd`.
    fn to_lexical_absolute(&self, cwd: &str) -> (r: String)
        ensures
            r@ == spec_lexical_absolute(self.path_view(), cwd@),
    ;
}

impl ToLexicalAbsolute for String {
    open spec fn path_view(&self) -> Seq<char> {
        self@
    }

    fn to_lexical_absolute(&self, cwd: &str) -> (r: String) {
        crate::path::to_lexical_absolute(self.as_str(), cwd)
    }
}

} // verus!
