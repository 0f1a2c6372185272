//! The reconciliation engine: the state-changing operations over the
//! manifest and the filesystem and symlink ports, with their idempotency
//! and conflict-detection guarantees. Each tracked entry is, implicitly,
//! in one of four states: untracked, linked (the resolved original
//! location is a symlink), missing-link (nothing stands there), or in
//! conflict (a file that is not a symlink stands there). `sync` creates
//! missing links, never touches conflicts, and is idempotent.

use vstd::prelude::*;
use vstd::string::StringExecFns;

use crate::error::DotError;
use crate::fs::FileSystem;
use crate::manifest::Manifest;
use crate::manifest::serializable;
use crate::manifest::spec_contains;
use crate::manifest::spec_get;
use crate::manifest::spec_insert;
use crate::manifest::spec_remove;
use crate::manifest::spec_serialize;
use crate::manifest::opt_ref_view;
use crate::manifest::pairs_view;
use crate::path::expand_tilde_str;
use crate::path::file_name;
use crate::path::has_tilde_marker;
use crate::path::spec_collapse_tilde;
use crate::path::spec_expand_outcome;
use crate::path::spec_file_name;
use crate::path::spec_has_tilde;
use crate::symlink::SymLinkOperations;
use crate::text::string_views;

verus! {

/// The resolved original location of a stored portable path: the tilde
/// marker replaced by the home directory; nothing when the marker is
/// present but no home directory is.
pub open spec fn spec_resolved(v: Seq<char>, h: Option<Seq<char>>) -> Option<Seq<char>> {
    if spec_has_tilde(v) {
        match h {
            Some(hh) => Some(hh + v.skip(1)),
            None => None,
        }
    } else {
        Some(v)
    }
}

/// Whether every entry's relocated copy is present.
pub open spec fn all_locals_present(
    entries: Seq<(Seq<char>, Seq<char>)>,
    files: Map<Seq<char>, Seq<char>>,
) -> bool {
    forall|i: int| 0 <= i < entries.len() ==> files.dom().contains(entries[i].0)
}

/// Whether every entry's stored location resolves.
pub open spec fn all_resolvable(
    entries: Seq<(Seq<char>, Seq<char>)>,
    h: Option<Seq<char>>,
) -> bool {
    forall|i: int| 0 <= i < entries.len() ==> spec_resolved(entries[i].1, h) is Some
}

/// The link set after one pass over the entries: a link is created at
/// every resolved location where no file stands; everything else is left
/// alone.
pub open spec fn sync_links(
    entries: Seq<(Seq<char>, Seq<char>)>,
    h: Option<Seq<char>>,
    files: Map<Seq<char>, Seq<char>>,
    links: Set<Seq<char>>,
) -> Set<Seq<char>>
    decreases entries.len(),
{
    if entries.len() == 0 {
        links
    } else {
        let step = match spec_resolved(entries.first().1, h) {
            Some(r) => if !files.dom().contains(r) {
                links.insert(r)
            } else {
                links
            },
            None => links,
        };
        sync_links(entries.drop_first(), h, files, step)
    }
}

/// The conflicts one pass reports, in entry order: the resolved locations
/// at which a file stands that is not a symlink.
pub open spec fn sync_conflicts(
    entries: Seq<(Seq<char>, Seq<char>)>,
    h: Option<Seq<char>>,
    files: Map<Seq<char>, Seq<char>>,
    links: Set<Seq<char>>,
) -> Seq<Seq<char>>
    decreases entries.len(),
{
    if entries.len() == 0 {
        Seq::<Seq<char>>::empty()
    } else {
        let rest = sync_conflicts(entries.drop_first(), h, files, links);
        match spec_resolved(entries.first().1, h) {
            Some(r) => if files.dom().contains(r) && !links.contains(r) {
                seq![r] + rest
            } else {
                rest
            },
            None => rest,
        }
    }
}

/// Whether some entry is in the conflict state: a file that is not a
/// symlink stands at its resolved original location.
pub open spec fn has_conflict(
    entries: Seq<(Seq<char>, Seq<char>)>,
    h: Option<Seq<char>>,
    files: Map<Seq<char>, Seq<char>>,
    links: Set<Seq<char>>,
) -> bool {
    exists|i: int|
        0 <= i < entries.len() && match #[trigger] spec_resolved(entries[i].1, h) {
            Some(r) => files.dom().contains(r) && !links.contains(r),
            None => false,
        }
}

/// The service that carries one command invocation: it owns the manifest
/// for the invocation's duration and speaks to the filesystem and symlink
/// ports.
pub struct DotService<F: FileSystem, S: SymLinkOperations> {
    /// The filesystem port.
    pub fs: F,
    /// The symlink port.
    pub symlink_ops: S,
    /// The in-memory manifest.
    pub manifest: Manifest,
    /// The home directory against which portable paths are resolved, as
    /// the environment reported it at startup.
    pub home: Option<String>,
}

impl<F: FileSystem, S: SymLinkOperations> DotService<F, S> {
    /// The home directory's characters, when one is known.
    pub open spec fn home_view(&self) -> Option<Seq<char>> {
        match self.home {
            Some(h) => Some(h@),
            None => None,
        }
    }

    /// Everything observable is as in `other`.
    pub open spec fn same_state(&self, other: &Self) -> bool {
        &&& self.fs.files() == other.fs.files()
        &&& self.fs.cwd() == other.fs.cwd()
        &&& self.symlink_ops.links() == other.symlink_ops.links()
        &&& self.manifest@ == other.manifest@
        &&& self.home == other.home
    }

    /// A service over the given ports, manifest and home directory.
    pub fn new(fs: F, symlink_ops: S, manifest: Manifest, home: Option<String>) -> (r: Self)
        ensures
            r.fs == fs,
            r.symlink_ops == symlink_ops,
            r.manifest == manifest,
            r.home == home,
    {
        DotService { fs, symlink_ops, manifest, home }
    }

    /// Initializes a repository: writes an empty manifest file, and fails
    /// with `AlreadyExists`, changing nothing, when one is present.
    pub fn init(&mut self) -> (r: Result<(), DotError>)
        ensures
            old(self).fs.files().dom().contains(crate::MANIFEST_FILE_NAME@) ==> r is Err
                && r->Err_0 is AlreadyExists
                && r->Err_0->AlreadyExists_0@ == crate::MANIFEST_FILE_NAME@
                && final(self).same_state(old(self)),
            !old(self).fs.files().dom().contains(crate::MANIFEST_FILE_NAME@) && r is Ok ==> final(self).fs.files() == old(self).fs.files().insert(
                crate::MANIFEST_FILE_NAME@,
                Seq::<char>::empty(),
            ) && final(self).fs.cwd() == old(self).fs.cwd(),
            !old(self).fs.files().dom().contains(crate::MANIFEST_FILE_NAME@) ==> (r is Ok
                || r->Err_0 is Io),
            final(self).symlink_ops.links() == old(self).symlink_ops.links(),
            final(self).manifest@ == old(self).manifest@,
            final(self).home == old(self).home,
    {
        if self.fs.path_exists(crate::MANIFEST_FILE_NAME) {
            return Err(DotError::AlreadyExists(String::from_str(crate::MANIFEST_FILE_NAME)));
        }
        proof {
            reveal_strlit("");
            assert(""@ =~= Seq::<char>::empty());
        }
        match self.fs.write(crate::MANIFEST_FILE_NAME, "") {
            Ok(()) => Ok(()),
            Err(e) => Err(e),
        }
    }

    /// Writes the manifest to the manifest file. An entry that cannot be
    /// written out fails with `Serialize` before anything is written;
    /// otherwise only the write itself can fail.
    pub fn save_manifest(&mut self) -> (r: Result<(), DotError>)
        ensures
            r is Ok ==> serializable(old(self).manifest@) && final(self).fs.files() == old(self).fs.files().insert(
                crate::MANIFEST_FILE_NAME@,
                spec_serialize(old(self).manifest@),
            ) && final(self).fs.cwd() == old(self).fs.cwd(),
            !serializable(old(self).manifest@) ==> r == Result::<(), DotError>::Err(
                DotError::Serialize,
            ) && final(self).fs.files() == old(self).fs.files() && final(self).fs.cwd() == old(
                self,
            ).fs.cwd(),
            r is Err ==> (r->Err_0 is Serialize || r->Err_0 is Io),
            r is Err && r->Err_0 is Serialize ==> !serializable(old(self).manifest@),
            final(self).symlink_ops.links() == old(self).symlink_ops.links(),
            final(self).manifest@ == old(self).manifest@,
            final(self).home == old(self).home,
    {
        let text = match self.manifest.serialize() {
            Ok(t) => t,
            Err(e) => {
                return Err(e);
            },
        };
        match self.fs.write(crate::MANIFEST_FILE_NAME, text.as_str()) {
            Ok(()) => Ok(()),
            Err(e) => Err(e),
        }
    }

    /// Tracks a new file: the file at `file_path` is moved into the
    /// repository under its final path component, a symlink is created at
    /// the original location, and the mapping is recorded in portable
    /// form and persisted. Fails with `NotFound`, changing nothing, when
    /// the path has no extractable name, and with `AlreadyTracked`,
    /// changing nothing, when the name is already in the manifest.
    pub fn add(&mut self, file_path: &str) -> (r: Result<(), DotError>)
        ensures
            spec_file_name(file_path@) is None ==> r is Err && r->Err_0 is NotFound
                && r->Err_0->NotFound_0@ == file_path@ && final(self).same_state(old(self)),
            ({
                let name = spec_file_name(file_path@)->Some_0;
                spec_file_name(file_path@) is Some && spec_contains(old(self).manifest@, name)
                    ==> r is Err && r->Err_0 is AlreadyTracked
                    && r->Err_0->AlreadyTracked_0@ == name && final(self).same_state(old(self))
            }),
            ({
                let name = spec_file_name(file_path@)->Some_0;
                spec_file_name(file_path@) is Some && !spec_contains(old(self).manifest@, name)
                    && r is Ok ==> {
                    &&& old(self).home is Some
                    &&& old(self).fs.files().dom().contains(file_path@)
                    &&& final(self).manifest@ == spec_insert(
                        old(self).manifest@,
                        name,
                        spec_collapse_tilde(
                            file_path@,
                            old(self).home_view()->Some_0,
                            old(self).fs.cwd(),
                        ),
                    )
                    &&& final(self).fs.files() == old(self).fs.files().remove(file_path@).insert(
                        name,
                        old(self).fs.files()[file_path@],
                    ).insert(crate::MANIFEST_FILE_NAME@, spec_serialize(final(self).manifest@))
                    &&& final(self).symlink_ops.links() == old(self).symlink_ops.links().insert(
                        file_path@,
                    )
                    &&& final(self).fs.cwd() == old(self).fs.cwd()
                }
            }),
            final(self).manifest@ == old(self).manifest@ || (spec_file_name(file_path@) is Some
                && old(self).home is Some && final(self).manifest@ == spec_insert(
                old(self).manifest@,
                spec_file_name(file_path@)->Some_0,
                spec_collapse_tilde(
                    file_path@,
                    old(self).home_view()->Some_0,
                    old(self).fs.cwd(),
                ),
            )),
            r is Err && r->Err_0 is AlreadyTracked ==> spec_file_name(file_path@) is Some
                && spec_contains(old(self).manifest@, spec_file_name(file_path@)->Some_0),
            r is Err && r->Err_0 is NoHomeDir ==> old(self).home is None,
            final(self).home == old(self).home,
    {
        let name = match file_name(file_path) {
            Some(n) => n,
            None => {
                return Err(DotError::NotFound(String::from_str(file_path)));
            },
        };
        if self.manifest.has_file(name.as_str()) {
            return Err(DotError::AlreadyTracked(name));
        }
        let cwd = match self.fs.current_dir() {
            Ok(c) => c,
            Err(e) => {
                return Err(e);
            },
        };
        match self.fs.rename(file_path, name.as_str()) {
            Ok(()) => {},
            Err(e) => {
                return Err(e);
            },
        }
        let link = match self.symlink_ops.create_symlink(name.as_str(), file_path) {
            Ok(l) => l,
            Err(e) => {
                return Err(e);
            },
        };
        let home_ref: Option<&String> = match &self.home {
            Some(h) => Some(h),
            None => None,
        };
        match self.manifest.insert_symlink(&link, home_ref, cwd.as_str()) {
            Ok(()) => {},
            Err(e) => {
                return Err(e);
            },
        }
        self.save_manifest()
    }

    /// Untracks a file: checked in order, the entry must exist, the local
    /// copy must exist, the resolved original location must exist and
    /// must currently be a symlink — each check failing with `NotFound`
    /// (or `SymlinkNotFound` for the last), changing nothing. Then the
    /// symlink is deleted, the local copy is moved back, and the entry is
    /// removed from the manifest and persisted.
    pub fn remove(&mut self, file_path: &str) -> (r: Result<(), DotError>)
        ensures
            spec_get(old(self).manifest@, file_path@) is None ==> r is Err
                && r->Err_0 is NotFound && r->Err_0->NotFound_0@ == file_path@ && final(self).same_state(old(self)),
            ({
                let stored = spec_get(old(self).manifest@, file_path@)->Some_0;
                spec_get(old(self).manifest@, file_path@) is Some && spec_resolved(
                    stored,
                    old(self).home_view(),
                ) is None ==> r == Result::<(), DotError>::Err(DotError::NoHomeDir) && final(self).same_state(old(self))
            }),
            ({
                let stored = spec_get(old(self).manifest@, file_path@)->Some_0;
                let target = spec_resolved(stored, old(self).home_view())->Some_0;
                spec_get(old(self).manifest@, file_path@) is Some && spec_resolved(
                    stored,
                    old(self).home_view(),
                ) is Some ==> {
                &&& !old(self).fs.files().dom().contains(file_path@) ==> r is Err
                    && r->Err_0 is NotFound && r->Err_0->NotFound_0@ == file_path@ && final(self).same_state(old(self))
                &&& old(self).fs.files().dom().contains(file_path@) && !old(self).fs.files().dom().contains(target) ==> r is Err && r->Err_0 is NotFound
                    && r->Err_0->NotFound_0@ == target && final(self).same_state(old(self))
                &&& old(self).fs.files().dom().contains(file_path@) && old(self).fs.files().dom().contains(target) && !old(self).symlink_ops.links().contains(
                    target,
                ) ==> r is Err && final(self).same_state(old(self)) && (
                r->Err_0 is SymlinkNotFound || r->Err_0 is Io) && (r->Err_0 is SymlinkNotFound
                    ==> r->Err_0->SymlinkNotFound_0@ == target)
                &&& r is Ok ==> file_path@ != target && final(self).manifest@ == spec_remove(
                    old(self).manifest@,
                    file_path@,
                ) && final(self).fs.files() == old(self).fs.files().remove(file_path@).insert(
                    target,
                    old(self).fs.files()[file_path@],
                ).insert(
                    crate::MANIFEST_FILE_NAME@,
                    spec_serialize(final(self).manifest@),
                ) && final(self).symlink_ops.links() == old(self).symlink_ops.links() && final(self).fs.cwd() == old(self).fs.cwd()
                }
            }),
            final(self).manifest@ == old(self).manifest@ || final(self).manifest@ == spec_remove(
                old(self).manifest@,
                file_path@,
            ),
            r is Err && r->Err_0 is NoHomeDir ==> old(self).home is None,
            final(self).home == old(self).home,
    {
        let home_ref: Option<&String> = match &self.home {
            Some(h) => Some(h),
            None => None,
        };
        let destination = match self.manifest.get_symlink_path(file_path, home_ref) {
            Ok(Some(d)) => d,
            Ok(None) => {
                return Err(DotError::NotFound(String::from_str(file_path)));
            },
            Err(e) => {
                proof {
                    let mm = self.manifest@;
                    if spec_get(mm, file_path@) is Some {
                        let st = spec_get(mm, file_path@)->Some_0;
                        assert(opt_ref_view(home_ref) == self.home_view());
                        if spec_resolved(st, self.home_view()) is Some {
                            assert(spec_expand_outcome(st, opt_ref_view(home_ref)) is Ok);
                        }
                    }
                }
                return Err(e);
            },
        };
        if !self.fs.path_exists(file_path) {
            return Err(DotError::NotFound(String::from_str(file_path)));
        }
        if !self.fs.path_exists(destination.as_str()) {
            return Err(DotError::NotFound(destination));
        }
        match self.symlink_ops.is_symlink(destination.as_str()) {
            Ok(true) => {},
            Ok(false) => {
                return Err(DotError::SymlinkNotFound(destination));
            },
            Err(e) => {
                return Err(e);
            },
        }
        match self.fs.remove(destination.as_str()) {
            Ok(()) => {},
            Err(e) => {
                return Err(e);
            },
        }
        match self.fs.rename(file_path, destination.as_str()) {
            Ok(()) => {},
            Err(e) => {
                return Err(e);
            },
        }
        let ghost pre_files = old(self).fs.files();
        proof {
            assert(self.fs.files() =~= pre_files.remove(file_path@).insert(
                destination@,
                pre_files[file_path@],
            ));
        }
        self.manifest.remove_file(file_path);
        self.save_manifest()
    }

    /// Reconciles the filesystem with the manifest, in entry order: fails
    /// fast with `NotFound` when a tracked local copy is missing;
    /// otherwise creates a symlink (with parent directories) at every
    /// resolved original location where nothing stands, leaves locations
    /// that already exist alone, and reports as conflicts those existing
    /// locations that are not symlinks. No file content changes.
    pub fn sync(&mut self) -> (r: Result<Vec<String>, DotError>)
        ensures
            r matches Ok(conflicts) ==> {
                &&& all_locals_present(old(self).manifest@, old(self).fs.files())
                &&& all_resolvable(old(self).manifest@, old(self).home_view())
                &&& final(self).symlink_ops.links() == sync_links(
                    old(self).manifest@,
                    old(self).home_view(),
                    old(self).fs.files(),
                    old(self).symlink_ops.links(),
                )
                &&& string_views(conflicts@) == sync_conflicts(
                    old(self).manifest@,
                    old(self).home_view(),
                    old(self).fs.files(),
                    old(self).symlink_ops.links(),
                )
            },
            old(self).manifest@.len() > 0 && !old(self).fs.files().dom().contains(
                old(self).manifest@[0].0,
            ) ==> r is Err && r->Err_0 is NotFound && r->Err_0->NotFound_0@ == old(
                self,
            ).manifest@[0].0 && final(self).symlink_ops.links() == old(self).symlink_ops.links(),
            final(self).fs.files() == old(self).fs.files(),
            final(self).fs.cwd() == old(self).fs.cwd(),
            final(self).manifest@ == old(self).manifest@,
            r is Err && r->Err_0 is NoHomeDir ==> old(self).home is None,
            final(self).home == old(self).home,
    {
        let ghost m = self.manifest@;
        let ghost h = self.home_view();
        let ghost f0 = self.fs.files();
        let ghost l0 = self.symlink_ops.links();
        let entries = self.manifest.iter_tracked_files();
        let mut conflicts: Vec<String> = Vec::new();
        let mut i: usize = 0;
        proof {
            assert(m.skip(0) =~= m);
            assert(string_views(conflicts@) =~= Seq::<Seq<char>>::empty());
        }
        while i < entries.len()
            invariant
                i <= entries@.len(),
                pairs_view(entries@) == m,
                m == self.manifest@,
                self.manifest@ == old(self).manifest@,
                self.home == old(self).home,
                h == self.home_view(),
                f0 == self.fs.files(),
                self.fs.files() == old(self).fs.files(),
                self.fs.cwd() == old(self).fs.cwd(),
                l0 == old(self).symlink_ops.links(),
                i == 0 ==> self.symlink_ops.links() == l0,
                sync_links(m, h, f0, l0) == sync_links(
                    m.skip(i as int),
                    h,
                    f0,
                    self.symlink_ops.links(),
                ),
                forall|x: Seq<char>|
                    f0.dom().contains(x) ==> self.symlink_ops.links().contains(x) == l0.contains(
                        x,
                    ),
                sync_conflicts(m, h, f0, l0) == string_views(conflicts@) + sync_conflicts(
                    m.skip(i as int),
                    h,
                    f0,
                    l0,
                ),
                forall|j: int| 0 <= j < i ==> f0.dom().contains(m[j].0),
                forall|j: int| 0 <= j < i ==> spec_resolved(m[j].1, h) is Some,
            decreases entries@.len() - i,
        {
            proof {
                assert(m.skip(i as int).first() == m[i as int]);
                assert(m.skip(i as int).drop_first() =~= m.skip(i as int + 1));
                assert(m[i as int] == (entries@[i as int].0@, entries@[i as int].1@));
            }
            let pair = &entries[i];
            if !self.fs.path_exists(pair.0.as_str()) {
                return Err(DotError::NotFound(pair.0.clone()));
            }
            let resolved: String = if has_tilde_marker(pair.1.as_str()) {
                match &self.home {
                    Some(hh) => expand_tilde_str(pair.1.as_str(), hh.as_str()),
                    None => {
                        return Err(DotError::NoHomeDir);
                    },
                }
            } else {
                pair.1.clone()
            };
            proof {
                assert(spec_resolved(m[i as int].1, h) == Some(resolved@));
            }
            if !self.fs.path_exists(resolved.as_str()) {
                match self.fs.create_parent_path(resolved.as_str()) {
                    Ok(()) => {},
                    Err(e) => {
                        return Err(e);
                    },
                }
                match self.symlink_ops.create_symlink(pair.0.as_str(), resolved.as_str()) {
                    Ok(_) => {},
                    Err(e) => {
                        return Err(e);
                    },
                }
            } else {
                match self.symlink_ops.is_symlink(resolved.as_str()) {
                    Ok(true) => {},
                    Ok(false) => {
                        let ghost pre = conflicts@;
                        let ghost rv = resolved@;
                        conflicts.push(resolved);
                        proof {
                            assert(!l0.contains(rv));
                            assert(sync_conflicts(m.skip(i as int), h, f0, l0) == seq![rv]
                                + sync_conflicts(m.skip(i as int + 1), h, f0, l0));
                            assert(string_views(conflicts@) =~= string_views(pre).push(rv));
                            assert(string_views(conflicts@) + sync_conflicts(
                                m.skip(i as int + 1),
                                h,
                                f0,
                                l0,
                            ) =~= string_views(pre) + sync_conflicts(m.skip(i as int), h, f0, l0));
                        }
                    },
                    Err(e) => {
                        return Err(e);
                    },
                }
            }
            i = i + 1;
        }
        proof {
            assert(m.skip(entries@.len() as int).len() == 0);
            assert(string_views(conflicts@) + Seq::<Seq<char>>::empty() =~= string_views(
                conflicts@,
            ));
        }
        Ok(conflicts)
    }

    /// Whether nothing blocks reconciliation: no entry is in the conflict
    /// state. Entries whose resolved original location is absent do not
    /// count — creating those links is `sync`'s job, not a failure.
    pub fn is_up_to_date(&self) -> (r: Result<bool, DotError>)
        ensures
            r matches Ok(b) ==> b == !has_conflict(
                self.manifest@,
                self.home_view(),
                self.fs.files(),
                self.symlink_ops.links(),
            ),
            self.manifest@.len() > 0 && spec_resolved(self.manifest@[0].1, self.home_view())
                is None ==> r == Result::<bool, DotError>::Err(DotError::NoHomeDir),
    {
        let ghost m = self.manifest@;
        let ghost h = self.home_view();
        let entries = self.manifest.iter_tracked_files();
        let mut i: usize = 0;
        while i < entries.len()
            invariant
                i <= entries@.len(),
                pairs_view(entries@) == m,
                m == self.manifest@,
                h == self.home_view(),
                forall|j: int| 0 <= j < i ==> spec_resolved(m[j].1, h) is Some,
                forall|j: int|
                    0 <= j < i ==> match #[trigger] spec_resolved(m[j].1, h) {
                        Some(r) => !(self.fs.files().dom().contains(r)
                            && !self.symlink_ops.links().contains(r)),
                        None => true,
                    },
            decreases entries@.len() - i,
        {
            proof {
                assert(m[i as int] == (entries@[i as int].0@, entries@[i as int].1@));
            }
            let pair = &entries[i];
            let resolved: String = if has_tilde_marker(pair.1.as_str()) {
                match &self.home {
                    Some(hh) => expand_tilde_str(pair.1.as_str(), hh.as_str()),
                    None => {
                        return Err(DotError::NoHomeDir);
                    },
                }
            } else {
                pair.1.clone()
            };
            proof {
                assert(spec_resolved(m[i as int].1, h) == Some(resolved@));
            }
            if self.fs.path_exists(resolved.as_str()) {
                match self.symlink_ops.is_symlink(resolved.as_str()) {
                    Ok(true) => {},
                    Ok(false) => {
                        return Ok(false);
                    },
                    Err(e) => {
                        return Err(e);
                    },
                }
            }
            i = i + 1;
        }
        Ok(true)
    }
}

/// Which paths one pass adds to the link set: exactly the resolved
/// locations of entries where no file stands.
proof fn lemma_sync_links_elems(
    entries: Seq<(Seq<char>, Seq<char>)>,
    h: Option<Seq<char>>,
    files: Map<Seq<char>, Seq<char>>,
    links: Set<Seq<char>>,
    x: Seq<char>,
)
    ensures
        sync_links(entries, h, files, links).contains(x) == (links.contains(x) || exists|i: int|
            0 <= i < entries.len() && spec_resolved(entries[i].1, h) == Some(x)
                && !files.dom().contains(x)),
    decreases entries.len(),
{
    if entries.len() == 0 {
        if exists|i: int|
            0 <= i < entries.len() && spec_resolved(entries[i].1, h) == Some(x)
                && !files.dom().contains(x) {
            let i = choose|i: int|
                0 <= i < entries.len() && spec_resolved(entries[i].1, h) == Some(x)
                    && !files.dom().contains(x);
        }
    } else {
        let rest = entries.drop_first();
        let step = match spec_resolved(entries.first().1, h) {
            Some(r) => if !files.dom().contains(r) {
                links.insert(r)
            } else {
                links
            },
            None => links,
        };
        lemma_sync_links_elems(rest, h, files, step, x);
        if sync_links(entries, h, files, links).contains(x) {
            if !links.contains(x) {
                if step.contains(x) {
                    assert(spec_resolved(entries[0].1, h) == Some(x) && !files.dom().contains(x));
                } else {
                    let i = choose|i: int|
                        0 <= i < rest.len() && spec_resolved(rest[i].1, h) == Some(x)
                            && !files.dom().contains(x);
                    assert(entries[i + 1] == rest[i]);
                    assert(spec_resolved(entries[i + 1].1, h) == Some(x) && !files.dom().contains(
                        x,
                    ));
                }
            }
        }
        if links.contains(x) {
            assert(step.contains(x));
        }
        if exists|i: int|
            0 <= i < entries.len() && spec_resolved(entries[i].1, h) == Some(x)
                && !files.dom().contains(x) {
            let i = choose|i: int|
                0 <= i < entries.len() && spec_resolved(entries[i].1, h) == Some(x)
                    && !files.dom().contains(x);
            if i == 0 {
                assert(step.contains(x));
            } else {
                assert(rest[i - 1] == entries[i]);
                assert(spec_resolved(rest[i - 1].1, h) == Some(x) && !files.dom().contains(x));
            }
        }
    }
}

/// Conflicts depend on the link set only at locations where a file
/// stands.
proof fn lemma_sync_conflicts_agree(
    entries: Seq<(Seq<char>, Seq<char>)>,
    h: Option<Seq<char>>,
    files: Map<Seq<char>, Seq<char>>,
    links1: Set<Seq<char>>,
    links2: Set<Seq<char>>,
)
    requires
        forall|x: Seq<char>| files.dom().contains(x) ==> links1.contains(x) == links2.contains(x),
    ensures
        sync_conflicts(entries, h, files, links1) == sync_conflicts(entries, h, files, links2),
    decreases entries.len(),
{
    if entries.len() > 0 {
        lemma_sync_conflicts_agree(entries.drop_first(), h, files, links1, links2);
    }
}

/// A pass reports some conflict exactly when some entry is in the
/// conflict state — when `is_up_to_date` answers false.
pub proof fn lemma_conflicts_iff_blocked(
    entries: Seq<(Seq<char>, Seq<char>)>,
    h: Option<Seq<char>>,
    files: Map<Seq<char>, Seq<char>>,
    links: Set<Seq<char>>,
)
    ensures
        (sync_conflicts(entries, h, files, links).len() > 0) == has_conflict(
            entries,
            h,
            files,
            links,
        ),
    decreases entries.len(),
{
    if entries.len() == 0 {
    } else {
        let rest = entries.drop_first();
        lemma_conflicts_iff_blocked(rest, h, files, links);
        let first_conflicts = match spec_resolved(entries[0].1, h) {
            Some(r) => files.dom().contains(r) && !links.contains(r),
            None => false,
        };
        if first_conflicts {
            assert(has_conflict(entries, h, files, links));
        } else {
            if has_conflict(rest, h, files, links) {
                let i = choose|i: int|
                    0 <= i < rest.len() && match #[trigger] spec_resolved(rest[i].1, h) {
                        Some(r) => files.dom().contains(r) && !links.contains(r),
                        None => false,
                    };
                assert(entries[i + 1] == rest[i]);
                assert(has_conflict(entries, h, files, links));
            }
            if has_conflict(entries, h, files, links) {
                let i = choose|i: int|
                    0 <= i < entries.len() && match #[trigger] spec_resolved(
                        entries[i].1,
                        h,
                    ) {
                        Some(r) => files.dom().contains(r) && !links.contains(r),
                        None => false,
                    };
                assert(i != 0);
                assert(rest[i - 1] == entries[i]);
                assert(has_conflict(rest, h, files, links));
            }
        }
    }
}

/// Idempotent reconciliation: running a pass on the state a first pass
/// left behind creates no further links and reports the same conflicts.
/// File contents are untouched by a pass, so the filesystem state after
/// the second pass equals the state after the first.
pub proof fn lemma_sync_idempotent(
    entries: Seq<(Seq<char>, Seq<char>)>,
    h: Option<Seq<char>>,
    files: Map<Seq<char>, Seq<char>>,
    links: Set<Seq<char>>,
)
    ensures
        sync_links(entries, h, files, sync_links(entries, h, files, links)) == sync_links(
            entries,
            h,
            files,
            links,
        ),
        sync_conflicts(entries, h, files, sync_links(entries, h, files, links))
            == sync_conflicts(entries, h, files, links),
{
    let l1 = sync_links(entries, h, files, links);
    let l2 = sync_links(entries, h, files, l1);
    assert forall|x: Seq<char>| l2.contains(x) == l1.contains(x) by {
        lemma_sync_links_elems(entries, h, files, links, x);
        lemma_sync_links_elems(entries, h, files, l1, x);
    }
    assert(l2 =~= l1);
    assert forall|x: Seq<char>|
        files.dom().contains(x) implies l1.contains(x) == links.contains(x) by {
        lemma_sync_links_elems(entries, h, files, links, x);
    }
    lemma_sync_conflicts_agree(entries, h, files, l1, links);
}

} // verus!
