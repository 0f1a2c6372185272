//! Symbolic-link records and the port through which the reconciliation
//! service creates and inspects links. The service is verified against the
//! port's contract; an in-memory implementation lives here, and an
//! OS-backed one is supplied by the surrounding application.

use vstd::prelude::*;
use vstd::string::StringExecFns;

use crate::error::DotError;
use crate::text::str_eq;

verus! {

/// A symbolic link: `from` is the relocated copy the link points at, `to`
/// is the original location the link occupies.
#[derive(Debug, Clone)]
pub struct SymLink {
    /// The path of the actual file or directory.
    pub from: String,
    /// The path the link occupies.
    pub to: String,
}

impl SymLink {
    /// A link record for the given endpoints.
    pub fn new(from: String, to: String) -> (r: SymLink)
        ensures
            r.from == from,
            r.to == to,
    {
        SymLink { from, to }
    }
}

/// The set of paths at which a symbolic link stands. What is proved
/// against this contract holds of an implementation only as far as the
/// implementation meets it; the OS-backed one supplied by the surrounding
/// application is outside the verifier and keeps the model function at its
/// default.
pub trait SymLinkOperations: Sized {
    /// The paths that are currently symbolic links.
    open spec fn links(&self) -> Set<Seq<char>> {
        Set::<Seq<char>>::empty()
    }

    /// Creates a symbolic link at `to` pointing at `from`. On success the
    /// link set gains `to`; on failure it is unchanged and the error is an
    /// `Io` error of the platform's own.
    fn create_symlink(&mut self, from: &str, to: &str) -> (r: Result<SymLink, DotError>)
        ensures
            r matches Ok(l) ==> final(self).links() == old(self).links().insert(to@)
                && l.from@ == from@ && l.to@ == to@,
            r is Err ==> final(self).links() == old(self).links(),
            r matches Err(e) ==> e is Io,
    ;

    /// Whether a symbolic link stands at `path`; a failure is an `Io`
    /// error of the platform's own.
    fn is_symlink(&self, path: &str) -> (r: Result<bool, DotError>)
        ensures
            r matches Ok(b) ==> b == self.links().contains(path@),
            r matches Err(e) ==> e is Io,
    ;
}

/// The set of views of the given strings.
pub open spec fn set_of_views(s: Seq<String>) -> Set<Seq<char>>
    decreases s.len(),
{
    if s.len() == 0 {
        Set::empty()
    } else {
        set_of_views(s.drop_last()).insert(s.last()@)
    }
}

/// Membership in the view set is membership at some index.
pub proof fn lemma_set_of_views_contains(s: Seq<String>, x: Seq<char>)
    ensures
        set_of_views(s).contains(x) == exists|i: int| 0 <= i < s.len() && s[i]@ == x,
    decreases s.len(),
{
    if s.len() > 0 {
        lemma_set_of_views_contains(s.drop_last(), x);
        if s.last()@ == x {
            assert(s[s.len() - 1]@ == x);
        } else if set_of_views(s.drop_last()).contains(x) {
            let i = choose|i: int| 0 <= i < s.len() - 1 && s.drop_last()[i]@ == x;
            assert(s[i]@ == x);
        } else if exists|i: int| 0 <= i < s.len() && s[i]@ == x {
            let i = choose|i: int| 0 <= i < s.len() && s[i]@ == x;
            assert(i < s.len() - 1 && s.drop_last()[i]@ == x);
        }
    }
}

/// An in-memory link set, used by tests and by the verified laws: creating
/// a link only records its target path.
pub struct InMemorySymLinkOperations {
    links: Vec<String>,
}

impl InMemorySymLinkOperations {
    /// An empty link set.
    pub fn new() -> (r: Self)
        ensures
            r.links() == Set::<Seq<char>>::empty(),
    {
        InMemorySymLinkOperations { links: Vec::new() }
    }

    /// Whether a link has been recorded at `path`.
    pub fn is_tracked(&self, path: &str) -> (r: bool)
        ensures
            r == self.links().contains(path@),
    {
        proof {
            lemma_set_of_views_contains(self.links@, path@);
        }
        let mut i: usize = 0;
        while i < self.links.len()
            invariant
                i <= self.links@.len(),
                forall|j: int| 0 <= j < i ==> self.links@[j]@ != path@,
            decreases self.links@.len() - i,
        {
            if str_eq(self.links[i].as_str(), path) {
                proof {
                    assert(self.links@[i as int]@ == path@);
                    lemma_set_of_views_contains(self.links@, path@);
                }
                return true;
            }
            i = i + 1;
        }
        false
    }

    /// Forgets every recorded link.
    pub fn clear_all(&mut self)
        ensures
            final(self).links() == Set::<Seq<char>>::empty(),
    {
        self.links.clear();
    }
}

impl SymLinkOperations for InMemorySymLinkOperations {
    closed spec fn links(&self) -> Set<Seq<char>> {
        set_of_views(self.links@)
    }

    fn create_symlink(&mut self, from: &str, to: &str) -> (r: Result<SymLink, DotError>) {
        let ghost pre = self.links@;
        self.links.push(String::from_str(to));
        proof {
            assert(self.links@.drop_last() =~= pre);
        }
        Ok(SymLink::new(String::from_str(from), String::from_str(to)))
    }

    fn is_symlink(&self, path: &str) -> (r: Result<bool, DotError>) {
        Ok(self.is_tracked(path))
    }
}

} // verus!
