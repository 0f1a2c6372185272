//! The filesystem port: the capability set the reconciliation service
//! needs from a filesystem, stated over a mapping from paths to file
//! contents. The service is verified against this contract; an in-memory
//! implementation lives here, and an OS-backed one is supplied by the
//! surrounding application.

use vstd::prelude::*;
use vstd::string::StringExecFns;

use crate::config;
use crate::config::map_of;
use crate::error::DotError;

verus! {

/// Filesystem operations, modelled as a mapping from paths to file
/// contents together with a working directory. Symbolic links are not part
/// of this mapping; they go through the symlink port. What is proved
/// against this contract holds of an implementation only as far as the
/// implementation meets it; the OS-backed one supplied by the surrounding
/// application is outside the verifier and keeps the model functions at
/// their defaults.
pub trait FileSystem: Sized {
    /// The files currently present, by path, with their contents.
    open spec fn files(&self) -> Map<Seq<char>, Seq<char>> {
        Map::<Seq<char>, Seq<char>>::empty()
    }

    /// The working directory.
    open spec fn cwd(&self) -> Seq<char> {
        Seq::<char>::empty()
    }

    /// Whether a file is present at `path`.
    fn path_exists(&self, path: &str) -> (r: bool)
        ensures
            r == self.files().dom().contains(path@),
    ;

    /// The contents of the file at `path`; reading may also fail for
    /// reasons of the platform's own, reported as an `Io` error (or as
    /// `NotFound` when nothing is there).
    fn read(&self, path: &str) -> (r: Result<String, DotError>)
        ensures
            r matches Ok(c) ==> self.files().dom().contains(path@) && c@ == self.files()[path@],
            r matches Err(e) ==> (e is Io || e is NotFound),
    ;

    /// Writes `content` at `path`, replacing what was there; a failure of
    /// the platform's own is an `Io` error.
    fn write(&mut self, path: &str, content: &str) -> (r: Result<(), DotError>)
        ensures
            r is Ok ==> final(self).files() == old(self).files().insert(path@, content@)
                && final(self).cwd() == old(self).cwd(),
            r matches Err(e) ==> e is Io,
    ;

    /// Removes the file or directory at `path`; succeeds only when
    /// something was there, and fails with `Io` (or `NotFound`) otherwise.
    fn remove(&mut self, path: &str) -> (r: Result<(), DotError>)
        ensures
            r is Ok ==> old(self).files().dom().contains(path@) && final(self).files() == old(
                self,
            ).files().remove(path@) && final(self).cwd() == old(self).cwd(),
            r matches Err(e) ==> (e is Io || e is NotFound),
    ;

    /// Moves the file at `from` to `to`; succeeds only when `from` was
    /// present, and fails with `Io` (or `NotFound`) otherwise.
    fn rename(&mut self, from: &str, to: &str) -> (r: Result<(), DotError>)
        ensures
            r is Ok ==> old(self).files().dom().contains(from@) && final(self).files() == old(
                self,
            ).files().remove(from@).insert(to@, old(self).files()[from@]) && final(self).cwd()
                == old(self).cwd(),
            r matches Err(e) ==> (e is Io || e is NotFound),
    ;

    /// Creates the parent directories of `path` as needed. Making
    /// directories never alters file contents, so the file mapping is
    /// preserved on every outcome; a failure is an `Io` or `InvalidPath`
    /// error.
    fn create_parent_path(&mut self, path: &str) -> (r: Result<(), DotError>)
        ensures
            final(self).files() == old(self).files(),
            final(self).cwd() == old(self).cwd(),
            r matches Err(e) ==> (e is Io || e is InvalidPath),
    ;

    /// The working directory; a failure is an `Io` or `InvalidPath`
    /// error.
    fn current_dir(&self) -> (r: Result<String, DotError>)
        ensures
            r matches Ok(c) ==> c@ == self.cwd(),
            r matches Err(e) ==> (e is Io || e is InvalidPath),
    ;
}

/// An in-memory filesystem, used by tests and by the verified laws: a flat
/// list of path→contents pairs and a fixed working directory.
pub struct InMemoryFileSystem {
    files: config::Config,
    cwd: String,
}

impl InMemoryFileSystem {
    /// An empty filesystem whose working directory is `/tmp`.
    pub fn new() -> (r: Self)
        ensures
            r.files() == Map::<Seq<char>, Seq<char>>::empty(),
            r.cwd() == "/tmp"@,
    {
        let fs = InMemoryFileSystem { files: Vec::new(), cwd: String::from_str("/tmp") };
        proof {
            assert(fs.files() =~= Map::<Seq<char>, Seq<char>>::empty());
        }
        fs
    }
}

impl FileSystem for InMemoryFileSystem {
    closed spec fn files(&self) -> Map<Seq<char>, Seq<char>> {
        map_of(self.files@)
    }

    closed spec fn cwd(&self) -> Seq<char> {
        self.cwd@
    }

    fn path_exists(&self, path: &str) -> (r: bool) {
        config::has(&self.files, path)
    }

    fn read(&self, path: &str) -> (r: Result<String, DotError>) {
        match config::get(&self.files, path) {
            Some(content) => Ok(content),
            None => Err(DotError::NotFound(String::from_str(path))),
        }
    }

    fn write(&mut self, path: &str, content: &str) -> (r: Result<(), DotError>) {
        let ghost pre = self.files@;
        self.files.push((String::from_str(path), String::from_str(content)));
        proof {
            assert(self.files@.drop_last() =~= pre);
        }
        Ok(())
    }

    fn remove(&mut self, path: &str) -> (r: Result<(), DotError>) {
        if !config::has(&self.files, path) {
            return Err(DotError::NotFound(String::from_str(path)));
        }
        self.files = config::remove(&self.files, path);
        Ok(())
    }

    fn rename(&mut self, from: &str, to: &str) -> (r: Result<(), DotError>) {
        match config::get(&self.files, from) {
            Some(content) => {
                let trimmed = config::remove(&self.files, from);
                let ghost mid = trimmed@;
                self.files = trimmed;
                self.files.push((String::from_str(to), content));
                proof {
                    assert(self.files@.drop_last() =~= mid);
                }
                Ok(())
            },
            None => Err(DotError::NotFound(String::from_str(from))),
        }
    }

    fn create_parent_path(&mut self, _path: &str) -> (r: Result<(), DotError>) {
        Ok(())
    }

    fn current_dir(&self) -> (r: Result<String, DotError>) {
        Ok(self.cwd.clone())
    }
}

} // verus!
