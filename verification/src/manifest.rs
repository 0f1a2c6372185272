//! The persisted manifest: an ordered-by-key list of tracked entries, each
//! mapping the relocated copy's name (the key) to the portable form of the
//! original location, together with its text format. The text format is a
//! flat key→value document, one `"key" = "value"` line per entry.

use vstd::prelude::*;
use vstd::string::StrSliceExecFns;
use vstd::string::StringExecFns;

use crate::error::DotError;
use crate::fs::FileSystem;
use crate::path::spec_collapse_tilde;
use crate::path::spec_expand_outcome;
use crate::path::collapse_tilde_str;
use crate::path::expand_tilde_str;
use crate::path::has_tilde_marker;
use crate::symlink::SymLink;
use crate::text::chars_to_string;
use crate::text::find_in;
use crate::text::lemma_find_in_absent;
use crate::text::lemma_find_in_concat;
use crate::text::lemma_split_at_sep;
use crate::text::lex_lt;
use crate::text::lemma_lex_lt_connected;
use crate::text::lemma_lex_lt_irrefl;
use crate::text::lemma_lex_lt_trans;
use crate::text::push_str_chars;
use crate::text::split_on;
use crate::text::split_on_char;
use crate::text::str_eq;
use crate::text::str_lt;
use crate::text::str_to_chars;
use crate::text::subvec_chars;
use crate::text::views_of;

verus! {

/// The entry list a pair vector denotes, as sequences of characters.
pub open spec fn pairs_view(s: Seq<(String, String)>) -> Seq<(Seq<char>, Seq<char>)> {
    Seq::new(s.len(), |i: int| (s[i].0@, s[i].1@))
}

/// Whether an entry list holds a given key.
pub open spec fn spec_contains(m: Seq<(Seq<char>, Seq<char>)>, k: Seq<char>) -> bool {
    exists|i: int| 0 <= i < m.len() && m[i].0 == k
}

/// The value stored for `k`, if any.
pub open spec fn spec_get(m: Seq<(Seq<char>, Seq<char>)>, k: Seq<char>) -> Option<Seq<char>>
    decreases m.len(),
{
    if m.len() == 0 {
        None
    } else if m.first().0 == k {
        Some(m.first().1)
    } else {
        spec_get(m.drop_first(), k)
    }
}

/// The entry list with `k` bound to `v`, placed in key order; an existing
/// binding of `k` is replaced.
pub open spec fn spec_insert(
    m: Seq<(Seq<char>, Seq<char>)>,
    k: Seq<char>,
    v: Seq<char>,
) -> Seq<(Seq<char>, Seq<char>)>
    decreases m.len(),
{
    if m.len() == 0 {
        seq![(k, v)]
    } else if lex_lt(k, m.first().0) {
        seq![(k, v)] + m
    } else if m.first().0 == k {
        seq![(k, v)] + m.drop_first()
    } else {
        seq![m.first()] + spec_insert(m.drop_first(), k, v)
    }
}

/// The entry list with the first binding of `k` removed.
pub open spec fn spec_remove(m: Seq<(Seq<char>, Seq<char>)>, k: Seq<char>) -> Seq<
    (Seq<char>, Seq<char>),
>
    decreases m.len(),
{
    if m.len() == 0 {
        m
    } else if m.first().0 == k {
        m.drop_first()
    } else {
        seq![m.first()] + spec_remove(m.drop_first(), k)
    }
}

/// Well-formedness of an entry list: keys strictly increase, so each key
/// occurs once and the order is canonical.
pub open spec fn wf_entries(m: Seq<(Seq<char>, Seq<char>)>) -> bool {
    forall|i: int, j: int| 0 <= i < j < m.len() ==> lex_lt(m[i].0, m[j].0)
}

/// A key is held exactly when a value is stored for it.
pub proof fn lemma_contains_get(m: Seq<(Seq<char>, Seq<char>)>, k: Seq<char>)
    ensures
        spec_contains(m, k) == (spec_get(m, k) is Some),
    decreases m.len(),
{
    if m.len() == 0 {
    } else if m.first().0 == k {
        assert(m[0].0 == k);
    } else {
        lemma_contains_get(m.drop_first(), k);
        if spec_contains(m, k) {
            let i = choose|i: int| 0 <= i < m.len() && m[i].0 == k;
            assert(i != 0);
            assert(m.drop_first()[i - 1].0 == k);
        }
        if spec_contains(m.drop_first(), k) {
            let i = choose|i: int| 0 <= i < m.drop_first().len() && m.drop_first()[i].0 == k;
            assert(m[i + 1].0 == k);
        }
    }
}

/// Inserting binds `k` in order: the result of `spec_insert` with all
/// smaller keys kept in front.
proof fn lemma_insert_skips_smaller(
    m: Seq<(Seq<char>, Seq<char>)>,
    k: Seq<char>,
    v: Seq<char>,
    i: int,
)
    requires
        0 <= i <= m.len(),
        forall|j: int| 0 <= j < i ==> lex_lt(m[j].0, k),
        i < m.len() ==> !lex_lt(m[i].0, k),
    ensures
        i < m.len() && m[i].0 == k ==> spec_insert(m, k, v) == m.update(i, (k, v)),
        (i == m.len() || m[i].0 != k) ==> spec_insert(m, k, v) == m.insert(i, (k, v)),
    decreases m.len(),
{
    if i == 0 {
        if m.len() == 0 {
            assert(spec_insert(m, k, v) =~= m.insert(0, (k, v)));
        } else if m[0].0 == k {
            lemma_lex_lt_irrefl(k);
            assert(spec_insert(m, k, v) =~= m.update(0, (k, v)));
        } else {
            lemma_lex_lt_connected(k, m[0].0);
            assert(lex_lt(k, m.first().0));
            assert(spec_insert(m, k, v) =~= m.insert(0, (k, v)));
        }
    } else {
        assert(lex_lt(m[0].0, k));
        lemma_lex_lt_irrefl(m[0].0);
        assert(m.first().0 != k);
        assert(!lex_lt(k, m.first().0)) by {
            if lex_lt(k, m.first().0) {
                lemma_lex_lt_trans(m[0].0, k, m[0].0);
            }
        }
        let rest = m.drop_first();
        assert(forall|j: int| 0 <= j < i - 1 ==> rest[j].0 == m[j + 1].0 && lex_lt(rest[j].0, k));
        lemma_insert_skips_smaller(rest, k, v, i - 1);
        if i < m.len() && m[i].0 == k {
            assert(rest[i - 1].0 == k);
            assert(spec_insert(m, k, v) =~= m.update(i, (k, v)));
        } else {
            assert(spec_insert(m, k, v) =~= m.insert(i, (k, v)));
        }
    }
}

/// Inserting a key larger than every present key appends the new entry.
pub proof fn lemma_insert_append(m: Seq<(Seq<char>, Seq<char>)>, k: Seq<char>, v: Seq<char>)
    requires
        forall|j: int| 0 <= j < m.len() ==> lex_lt(m[j].0, k),
    ensures
        spec_insert(m, k, v) == m.push((k, v)),
    decreases m.len(),
{
    lemma_insert_skips_smaller(m, k, v, m.len() as int);
    assert(m.insert(m.len() as int, (k, v)) =~= m.push((k, v)));
}

/// Inserting keeps the entry list well formed.
pub proof fn lemma_insert_wf(m: Seq<(Seq<char>, Seq<char>)>, k: Seq<char>, v: Seq<char>)
    requires
        wf_entries(m),
    ensures
        wf_entries(spec_insert(m, k, v)),
    decreases m.len(),
{
    if m.len() == 0 {
    } else if lex_lt(k, m.first().0) {
        let r = seq![(k, v)] + m;
        assert forall|i: int, j: int| 0 <= i < j < r.len() implies lex_lt(r[i].0, r[j].0) by {
            if i == 0 {
                if j > 1 {
                    lemma_lex_lt_trans(k, m[0].0, m[j - 1].0);
                }
            }
        }
    } else if m.first().0 == k {
        let r = seq![(k, v)] + m.drop_first();
        assert forall|i: int, j: int| 0 <= i < j < r.len() implies lex_lt(r[i].0, r[j].0) by {
            if i == 0 {
                assert(r[j].0 == m[j].0);
            } else {
                assert(r[i].0 == m[i].0 && r[j].0 == m[j].0);
            }
        }
    } else {
        let rest = m.drop_first();
        assert(wf_entries(rest)) by {
            assert(forall|i: int, j: int|
                0 <= i < j < rest.len() ==> rest[i].0 == m[i + 1].0 && rest[j].0 == m[j + 1].0);
        }
        lemma_insert_wf(rest, k, v);
        lemma_lex_lt_connected(k, m.first().0);
        let ri = spec_insert(rest, k, v);
        let r = seq![m.first()] + ri;
        assert forall|i: int, j: int| 0 <= i < j < r.len() implies lex_lt(r[i].0, r[j].0) by {
            if i > 0 {
                assert(r[i].0 == ri[i - 1].0 && r[j].0 == ri[j - 1].0);
            } else {
                assert(r[j].0 == ri[j - 1].0);
                lemma_insert_member_keys(rest, k, v, j - 1);
                if ri[j - 1].0 == k {
                    assert(lex_lt(m.first().0, k));
                } else {
                    let t = choose|t: int|
                        0 <= t < rest.len() && rest[t].0 == ri[j - 1].0;
                    assert(rest[t].0 == m[t + 1].0);
                    assert(lex_lt(m[0].0, m[t + 1].0));
                }
            }
        }
    }
}

/// Every key of an inserted list is the new key or one of the old keys.
proof fn lemma_insert_member_keys(
    m: Seq<(Seq<char>, Seq<char>)>,
    k: Seq<char>,
    v: Seq<char>,
    i: int,
)
    requires
        0 <= i < spec_insert(m, k, v).len(),
    ensures
        spec_insert(m, k, v)[i].0 == k || exists|t: int|
            0 <= t < m.len() && m[t].0 == spec_insert(m, k, v)[i].0,
    decreases m.len(),
{
    let r = spec_insert(m, k, v);
    if m.len() == 0 {
    } else if lex_lt(k, m.first().0) {
        if i > 0 {
            assert(m[i - 1].0 == r[i].0);
        }
    } else if m.first().0 == k {
        if i > 0 {
            assert(m[i].0 == r[i].0);
        }
    } else {
        if i == 0 {
            assert(m[0].0 == r[0].0);
        } else {
            lemma_insert_member_keys(m.drop_first(), k, v, i - 1);
            let ri = spec_insert(m.drop_first(), k, v);
            assert(r[i].0 == ri[i - 1].0);
            if ri[i - 1].0 != k {
                let t = choose|t: int|
                    0 <= t < m.drop_first().len() && m.drop_first()[t].0 == ri[i - 1].0;
                assert(m[t + 1].0 == r[i].0);
            }
        }
    }
}

/// Removing keeps the entry list well formed.
pub proof fn lemma_remove_wf(m: Seq<(Seq<char>, Seq<char>)>, k: Seq<char>)
    requires
        wf_entries(m),
    ensures
        wf_entries(spec_remove(m, k)),
    decreases m.len(),
{
    if m.len() == 0 {
    } else if m.first().0 == k {
        assert(forall|i: int, j: int|
            0 <= i < j < m.drop_first().len() ==> m.drop_first()[i].0 == m[i + 1].0
                && m.drop_first()[j].0 == m[j + 1].0);
    } else {
        let rest = m.drop_first();
        assert(wf_entries(rest)) by {
            assert(forall|i: int, j: int|
                0 <= i < j < rest.len() ==> rest[i].0 == m[i + 1].0 && rest[j].0 == m[j + 1].0);
        }
        lemma_remove_wf(rest, k);
        let rr = spec_remove(rest, k);
        let r = seq![m.first()] + rr;
        assert forall|i: int, j: int| 0 <= i < j < r.len() implies lex_lt(r[i].0, r[j].0) by {
            if i > 0 {
                assert(r[i].0 == rr[i - 1].0 && r[j].0 == rr[j - 1].0);
            } else {
                assert(r[j].0 == rr[j - 1].0);
                lemma_remove_member_keys(rest, k, j - 1);
                let t = choose|t: int| 0 <= t < rest.len() && rest[t].0 == rr[j - 1].0;
                assert(rest[t].0 == m[t + 1].0);
                assert(lex_lt(m[0].0, m[t + 1].0));
            }
        }
    }
}

/// Every key of a shortened list is one of the old keys.
proof fn lemma_remove_member_keys(m: Seq<(Seq<char>, Seq<char>)>, k: Seq<char>, i: int)
    requires
        0 <= i < spec_remove(m, k).len(),
    ensures
        exists|t: int| 0 <= t < m.len() && m[t].0 == spec_remove(m, k)[i].0,
    decreases m.len(),
{
    let r = spec_remove(m, k);
    if m.len() == 0 {
    } else if m.first().0 == k {
        assert(m[i + 1].0 == r[i].0);
    } else {
        if i == 0 {
            assert(m[0].0 == r[0].0);
        } else {
            lemma_remove_member_keys(m.drop_first(), k, i - 1);
            let rr = spec_remove(m.drop_first(), k);
            assert(r[i].0 == rr[i - 1].0);
            let t = choose|t: int|
                0 <= t < m.drop_first().len() && m.drop_first()[t].0 == rr[i - 1].0;
            assert(m[t + 1].0 == r[i].0);
        }
    }
}

/// The persisted mapping of tracked entries, kept in key order.
pub struct Manifest {
    /// The tracked entries: relocated name → portable original location.
    pub entries: Vec<(String, String)>,
}

impl View for Manifest {
    type V = Seq<(Seq<char>, Seq<char>)>;

    open spec fn view(&self) -> Seq<(Seq<char>, Seq<char>)> {
        pairs_view(self.entries@)
    }
}

impl Manifest {
    /// Whether the manifest's entries are in strictly increasing key order.
    pub open spec fn wf(&self) -> bool {
        wf_entries(self@)
    }

    /// An empty manifest.
    pub fn empty() -> (r: Manifest)
        ensures
            r@ == Seq::<(Seq<char>, Seq<char>)>::empty(),
            r.wf(),
    {
        let r = Manifest { entries: Vec::new() };
        proof {
            assert(r@ =~= Seq::<(Seq<char>, Seq<char>)>::empty());
        }
        r
    }

    /// Whether `file` is tracked.
    pub fn has_file(&self, file: &str) -> (r: bool)
        ensures
            r == spec_contains(self@, file@),
    {
        let mut i: usize = 0;
        while i < self.entries.len()
            invariant
                i <= self.entries@.len(),
                forall|j: int| 0 <= j < i ==> self@[j].0 != file@,
            decreases self.entries@.len() - i,
        {
            if str_eq(self.entries[i].0.as_str(), file) {
                proof {
                    assert(self@[i as int].0 == file@);
                }
                return true;
            }
            i = i + 1;
        }
        false
    }

    /// The entries, in key order, as pairs of the relocated name and the
    /// stored portable location.
    pub fn iter_tracked_files(&self) -> (r: Vec<(String, String)>)
        ensures
            pairs_view(r@) == self@,
    {
        crate::config::clone_pairs(&self.entries)
    }

    /// Binds `key` to `value`, keeping key order; an existing binding of
    /// `key` is replaced.
    pub fn insert_entry(&mut self, key: String, value: String)
        ensures
            final(self)@ == spec_insert(old(self)@, key@, value@),
    {
        let ghost m = self@;
        let mut i: usize = 0;
        while i < self.entries.len() && str_lt(self.entries[i].0.as_str(), key.as_str())
            invariant
                i <= self.entries@.len(),
                m == self@,
                forall|j: int| 0 <= j < i ==> lex_lt(m[j].0, key@),
            decreases self.entries@.len() - i,
        {
            i = i + 1;
        }
        if i < self.entries.len() && str_eq(self.entries[i].0.as_str(), key.as_str()) {
            proof {
                lemma_insert_skips_smaller(m, key@, value@, i as int);
            }
            let ghost pre = self.entries@;
            self.entries.remove(i);
            self.entries.insert(i, (key, value));
            proof {
                assert(self.entries@ =~= pre.update(i as int, (key, value)));
                assert(self@ =~= m.update(i as int, (key@, value@)));
            }
        } else {
            proof {
                lemma_insert_skips_smaller(m, key@, value@, i as int);
            }
            let ghost pre = self.entries@;
            self.entries.insert(i, (key, value));
            proof {
                assert(self.entries@ =~= pre.insert(i as int, (key, value)));
                assert(self@ =~= m.insert(i as int, (key@, value@)));
            }
        }
    }

    /// Unbinds `file`; yields whether an entry was present and removed.
    pub fn remove_file(&mut self, file: &str) -> (r: bool)
        ensures
            final(self)@ == spec_remove(old(self)@, file@),
            r == spec_contains(old(self)@, file@),
    {
        let ghost m = self@;
        let mut i: usize = 0;
        while i < self.entries.len()
            invariant
                i <= self.entries@.len(),
                self@ == old(self)@,
                m == self@,
                forall|j: int| 0 <= j < i ==> m[j].0 != file@,
            decreases self.entries@.len() - i,
        {
            if str_eq(self.entries[i].0.as_str(), file) {
                proof {
                    assert(m[i as int].0 == file@);
                    lemma_remove_at(m, file@, i as int);
                }
                let ghost pre = self.entries@;
                self.entries.remove(i);
                proof {
                    assert(self.entries@ =~= pre.remove(i as int));
                    assert(self@ =~= m.remove(i as int));
                }
                return true;
            }
            i = i + 1;
        }
        proof {
            lemma_remove_absent(m, file@);
            if spec_contains(m, file@) {
                let t = choose|t: int| 0 <= t < m.len() && m[t].0 == file@;
            }
        }
        false
    }

    /// The resolved original location for `file`: the stored portable path
    /// with its tilde marker expanded against `home`. Yields `Ok(None)`
    /// for an untracked file and fails with `NoHomeDir` when the stored
    /// path needs a home directory and none is given.
    pub fn get_symlink_path(&self, file: &str, home: Option<&String>) -> (r: Result<
        Option<String>,
        DotError,
    >)
        ensures
            spec_get(self@, file@) is None ==> r == Result::<Option<String>, DotError>::Ok(None),
            spec_get(self@, file@) matches Some(stored) ==> match spec_expand_outcome(
                stored,
                opt_ref_view(home),
            ) {
                Ok(resolved) => r is Ok && r->Ok_0 is Some && r->Ok_0->Some_0@ == resolved,
                Err(e) => r == Result::<Option<String>, DotError>::Err(e),
            },
    {
        let ghost m = self@;
        let mut i: usize = 0;
        proof {
            assert(m.skip(0) =~= m);
        }
        while i < self.entries.len()
            invariant
                i <= self.entries@.len(),
                m == self@,
                spec_get(m, file@) == spec_get(m.skip(i as int), file@),
            decreases self.entries@.len() - i,
        {
            proof {
                assert(m.skip(i as int).first() == m[i as int]);
                assert(m.skip(i as int).drop_first() =~= m.skip(i as int + 1));
            }
            if str_eq(self.entries[i].0.as_str(), file) {
                let stored = &self.entries[i].1;
                proof {
                    assert(spec_get(m, file@) == Some(stored@));
                }
                if has_tilde_marker(stored.as_str()) {
                    match home {
                        Some(h) => {
                            return Ok(Some(expand_tilde_str(stored.as_str(), h.as_str())));
                        },
                        None => {
                            return Err(DotError::NoHomeDir);
                        },
                    }
                } else {
                    return Ok(Some(stored.clone()));
                }
            }
            i = i + 1;
        }
        proof {
            assert(m.skip(self.entries@.len() as int).len() == 0);
        }
        Ok(None)
    }

    /// Records a created link: the link's occupied location is stored in
    /// portable form under the relocated copy's name. Fails with
    /// `NoHomeDir` when no home directory is given, leaving the manifest
    /// unchanged.
    pub fn insert_symlink(&mut self, symlink: &SymLink, home: Option<&String>, cwd: &str) -> (r:
        Result<(), DotError>)
        ensures
            home is None ==> r == Result::<(), DotError>::Err(DotError::NoHomeDir) && final(self)@
                == old(self)@,
            home matches Some(h) ==> r == Result::<(), DotError>::Ok(()) && final(self)@
                == spec_insert(
                old(self)@,
                symlink.from@,
                spec_collapse_tilde(symlink.to@, h@, cwd@),
            ),
    {
        match home {
            Some(h) => {
                let portable = collapse_tilde_str(symlink.to.as_str(), h.as_str(), cwd);
                self.insert_entry(symlink.from.clone(), portable);
                Ok(())
            },
            None => Err(DotError::NoHomeDir),
        }
    }
}

/// Text that can stand inside the quotes of a manifest line: it holds no
/// quote and no line break.
pub open spec fn clean_text(s: Seq<char>) -> bool {
    forall|i: int| 0 <= i < s.len() ==> s[i] != '"' && s[i] != '\n'
}

/// Whether every key and value of the entry list can be written out.
pub open spec fn serializable(m: Seq<(Seq<char>, Seq<char>)>) -> bool {
    forall|i: int| 0 <= i < m.len() ==> clean_text(m[i].0) && clean_text(m[i].1)
}

/// The text of one manifest line, without its line break.
pub open spec fn line_content(k: Seq<char>, v: Seq<char>) -> Seq<char> {
    seq!['"'] + k + seq!['"', ' ', '=', ' ', '"'] + v + seq!['"']
}

/// The manifest text: one line per entry, in entry order, each ended by a
/// line break.
pub open spec fn spec_serialize(m: Seq<(Seq<char>, Seq<char>)>) -> Seq<char>
    decreases m.len(),
{
    if m.len() == 0 {
        Seq::<char>::empty()
    } else {
        line_content(m.first().0, m.first().1) + seq!['\n'] + spec_serialize(m.drop_first())
    }
}

/// The key and value of one manifest line, or nothing when the line is
/// malformed.
pub open spec fn spec_parse_line(l: Seq<char>) -> Option<(Seq<char>, Seq<char>)> {
    if l.len() < 7 || l[0] != '"' {
        None
    } else {
        let j = 1 + find_in(l.skip(1), '"');
        if j + 6 > l.len() {
            None
        } else if l[j + 1] == ' ' && l[j + 2] == '=' && l[j + 3] == ' ' && l[j + 4] == '"'
            && l[l.len() - 1] == '"' && (forall|t: int|
            j + 5 <= t < l.len() - 1 ==> l[t] != '"') {
            Some((l.subrange(1, j), l.subrange(j + 5, l.len() - 1)))
        } else {
            None
        }
    }
}

/// The pairs of the given lines, in order; empty lines are skipped and a
/// malformed line spoils the whole text.
pub open spec fn spec_parse_lines(ls: Seq<Seq<char>>) -> Option<Seq<(Seq<char>, Seq<char>)>>
    decreases ls.len(),
{
    if ls.len() == 0 {
        Some(Seq::<(Seq<char>, Seq<char>)>::empty())
    } else if ls.first().len() == 0 {
        spec_parse_lines(ls.drop_first())
    } else {
        match spec_parse_line(ls.first()) {
            None => None,
            Some(p) => match spec_parse_lines(ls.drop_first()) {
                None => None,
                Some(ps) => Some(seq![p] + ps),
            },
        }
    }
}

/// The parsed pairs folded into an entry list in key order; a repeated key
/// spoils the whole text.
pub open spec fn spec_insert_all(
    ps: Seq<(Seq<char>, Seq<char>)>,
    acc: Seq<(Seq<char>, Seq<char>)>,
) -> Option<Seq<(Seq<char>, Seq<char>)>>
    decreases ps.len(),
{
    if ps.len() == 0 {
        Some(acc)
    } else if spec_contains(acc, ps.first().0) {
        None
    } else {
        spec_insert_all(ps.drop_first(), spec_insert(acc, ps.first().0, ps.first().1))
    }
}

/// The parsed pairs folded on top of `acc`, when there are any.
pub open spec fn spec_fold_parsed(
    o: Option<Seq<(Seq<char>, Seq<char>)>>,
    acc: Seq<(Seq<char>, Seq<char>)>,
) -> Option<Seq<(Seq<char>, Seq<char>)>> {
    match o {
        None => None,
        Some(ps) => spec_insert_all(ps, acc),
    }
}

/// What `Manifest::new` yields for the given text: the entries read from
/// its lines, or nothing when a line is malformed or a key repeats.
pub open spec fn spec_load(s: Seq<char>) -> Option<Seq<(Seq<char>, Seq<char>)>> {
    spec_fold_parsed(spec_parse_lines(split_on(s, '\n')), Seq::<(Seq<char>, Seq<char>)>::empty())
}

/// Whether the string can stand inside the quotes of a manifest line.
fn is_clean(s: &str) -> (r: bool)
    ensures
        r == clean_text(s@),
{
    let n = s.unicode_len();
    let mut i: usize = 0;
    while i < n
        invariant
            i <= n,
            n == s@.len(),
            forall|j: int| 0 <= j < i ==> s@[j] != '"' && s@[j] != '\n',
        decreases n - i,
    {
        let c = s.get_char(i);
        if c == '"' || c == '\n' {
            return false;
        }
        i = i + 1;
    }
    true
}

/// The key and value of one manifest line, or nothing when the line is
/// malformed.
fn parse_line_chars(l: &Vec<char>) -> (r: Option<(String, String)>)
    ensures
        spec_parse_line(l@) is None ==> r is None,
        spec_parse_line(l@) matches Some(p) ==> r is Some && r->Some_0.0@ == p.0
            && r->Some_0.1@ == p.1,
{
    let n = l.len();
    if n < 7 {
        return None;
    }
    if l[0] != '"' {
        return None;
    }
    let mut j: usize = 1;
    while j < n && l[j] != '"'
        invariant
            1 <= j <= n,
            n == l@.len(),
            forall|m: int| 1 <= m < j ==> l@[m] != '"',
        decreases n - j,
    {
        j = j + 1;
    }
    proof {
        if j == n {
            assert(forall|m: int| 0 <= m < l@.skip(1).len() ==> l@.skip(1)[m] == l@[m + 1]);
            lemma_find_in_absent(l@.skip(1), '"');
        } else {
            let p = l@.subrange(1, j as int);
            let q = l@.skip(j as int);
            assert(forall|m: int| 0 <= m < p.len() ==> p[m] == l@[m + 1]);
            assert(q[0] == l@[j as int]);
            assert(p + q =~= l@.skip(1));
            lemma_find_in_concat(p, q, '"');
        }
    }
    if j == n {
        return None;
    }
    if j > n - 6 {
        return None;
    }
    if !(l[j + 1] == ' ' && l[j + 2] == '=' && l[j + 3] == ' ' && l[j + 4] == '"' && l[n - 1]
        == '"') {
        return None;
    }
    let mut t: usize = j + 5;
    while t < n - 1
        invariant
            j + 5 <= t <= n - 1,
            n == l@.len(),
            7 <= n,
            j + 6 <= n,
            l@[0] == '"',
            j == 1 + find_in(l@.skip(1), '"'),
            forall|m: int| j + 5 <= m < t ==> l@[m] != '"',
        decreases n - t,
    {
        if l[t] == '"' {
            return None;
        }
        t = t + 1;
    }
    let key = chars_to_string(&subvec_chars(l, 1, j));
    let val = chars_to_string(&subvec_chars(l, j + 5, n - 1));
    Some((key, val))
}

impl Manifest {
    /// The manifest read from the given text: each non-empty line binds a
    /// key to a stored location, in any order; a malformed line or a
    /// repeated key is a parse error. Empty input yields an empty
    /// manifest.
    pub fn new(buffer: &str) -> (r: Result<Manifest, DotError>)
        ensures
            r matches Ok(man) ==> spec_load(buffer@) == Some(man@) && man.wf(),
            r is Err ==> spec_load(buffer@) is None && r == Result::<Manifest, DotError>::Err(
                DotError::Parse,
            ),
    {
        let v = str_to_chars(buffer);
        let lines = split_on_char(&v, '\n');
        let ghost all_lines = views_of(lines@);
        let mut man = Manifest::empty();
        let mut i: usize = 0;
        proof {
            assert(all_lines.skip(0) =~= all_lines);
        }
        while i < lines.len()
            invariant
                i <= lines@.len(),
                all_lines == views_of(lines@),
                man.wf(),
                spec_load(buffer@) == spec_fold_parsed(
                    spec_parse_lines(all_lines.skip(i as int)),
                    man@,
                ),
            decreases lines@.len() - i,
        {
            let ghost acc = man@;
            proof {
                assert(all_lines.skip(i as int).first() == all_lines[i as int]);
                assert(all_lines.skip(i as int).drop_first() =~= all_lines.skip(i as int + 1));
                assert(all_lines[i as int] == lines@[i as int]@);
            }
            let line = &lines[i];
            if line.len() > 0 {
                match parse_line_chars(line) {
                    None => {
                        proof {
                            assert(spec_parse_lines(all_lines.skip(i as int)) is None);
                        }
                        return Err(DotError::Parse);
                    },
                    Some(pair) => {
                        let ghost p = spec_parse_line(all_lines[i as int])->Some_0;
                        if man.has_file(pair.0.as_str()) {
                            proof {
                                let o = spec_parse_lines(all_lines.skip(i as int + 1));
                                if o is Some {
                                    let ps = seq![p] + o->Some_0;
                                    assert(ps.first() == p);
                                    assert(spec_insert_all(ps, acc) is None);
                                }
                            }
                            return Err(DotError::Parse);
                        }
                        proof {
                            lemma_insert_wf(acc, p.0, p.1);
                        }
                        man.insert_entry(pair.0, pair.1);
                        proof {
                            let o = spec_parse_lines(all_lines.skip(i as int + 1));
                            if o is Some {
                                let ps = seq![p] + o->Some_0;
                                assert(ps.first() == p);
                                assert(ps.drop_first() =~= o->Some_0);
                                assert(spec_insert_all(ps, acc) == spec_insert_all(
                                    o->Some_0,
                                    spec_insert(acc, p.0, p.1),
                                ));
                            }
                        }
                    },
                }
            }
            i = i + 1;
        }
        proof {
            assert(all_lines.skip(lines@.len() as int).len() == 0);
        }
        Ok(man)
    }

    /// The manifest text: one `"key" = "value"` line per entry, in key
    /// order, each ended by a line break. Fails with `Serialize` when an
    /// entry holds a quote or a line break.
    pub fn serialize(&self) -> (r: Result<String, DotError>)
        ensures
            r matches Ok(t) ==> serializable(self@) && t@ == spec_serialize(self@),
            r is Err ==> !serializable(self@) && r == Result::<String, DotError>::Err(
                DotError::Serialize,
            ),
    {
        let ghost m = self@;
        let mut out: Vec<char> = Vec::new();
        let mut i: usize = 0;
        proof {
            assert(m.skip(0) =~= m);
        }
        while i < self.entries.len()
            invariant
                i <= self.entries@.len(),
                m == self@,
                forall|j: int| 0 <= j < i ==> clean_text(m[j].0) && clean_text(m[j].1),
                spec_serialize(m) == out@ + spec_serialize(m.skip(i as int)),
            decreases self.entries@.len() - i,
        {
            let pair = &self.entries[i];
            if !is_clean(pair.0.as_str()) || !is_clean(pair.1.as_str()) {
                proof {
                    assert(!(clean_text(m[i as int].0) && clean_text(m[i as int].1)));
                }
                return Err(DotError::Serialize);
            }
            let ghost pre = out@;
            out.push('"');
            push_str_chars(&mut out, pair.0.as_str());
            out.push('"');
            out.push(' ');
            out.push('=');
            out.push(' ');
            out.push('"');
            push_str_chars(&mut out, pair.1.as_str());
            out.push('"');
            out.push('\n');
            proof {
                assert(m.skip(i as int).first() == m[i as int]);
                assert(m.skip(i as int).drop_first() =~= m.skip(i as int + 1));
                assert(out@ =~= pre + line_content(m[i as int].0, m[i as int].1) + seq!['\n']);
                assert(out@ + spec_serialize(m.skip(i as int + 1)) =~= pre + spec_serialize(
                    m.skip(i as int),
                ));
            }
            i = i + 1;
        }
        proof {
            assert(m.skip(self.entries@.len() as int).len() == 0);
            assert(out@ =~= spec_serialize(m));
        }
        Ok(chars_to_string(&out))
    }

    /// The manifest read from the manifest file through the given
    /// filesystem; a missing file is an empty manifest.
    pub fn from_disk<F: FileSystem>(fs: &F) -> (r: Result<Manifest, DotError>)
        ensures
            !fs.files().dom().contains(crate::MANIFEST_FILE_NAME@) ==> r is Ok && r->Ok_0@
                == Seq::<(Seq<char>, Seq<char>)>::empty() && r->Ok_0.wf(),
            r matches Ok(man) ==> man.wf() && (fs.files().dom().contains(crate::MANIFEST_FILE_NAME@)
                ==> spec_load(fs.files()[crate::MANIFEST_FILE_NAME@]) == Some(man@)),
    {
        if fs.path_exists(crate::MANIFEST_FILE_NAME) {
            match fs.read(crate::MANIFEST_FILE_NAME) {
                Ok(content) => Manifest::new(content.as_str()),
                Err(e) => Err(e),
            }
        } else {
            Ok(Manifest::empty())
        }
    }
}

/// The lines of the serialized entry list, without their line breaks.
spec fn line_seq(m: Seq<(Seq<char>, Seq<char>)>) -> Seq<Seq<char>> {
    Seq::new(m.len(), |i: int| line_content(m[i].0, m[i].1))
}

/// A line built from clean text holds no line break.
proof fn lemma_line_content_no_newline(k: Seq<char>, v: Seq<char>)
    requires
        clean_text(k),
        clean_text(v),
    ensures
        forall|t: int| 0 <= t < line_content(k, v).len() ==> line_content(k, v)[t] != '\n',
{
    let l = line_content(k, v);
    assert(l.len() == k.len() + v.len() + 7);
    assert forall|t: int| 0 <= t < l.len() implies l[t] != '\n' by {
        if 1 <= t < 1 + k.len() {
            assert(l[t] == k[t - 1]);
        } else if 6 + k.len() <= t < 6 + k.len() + v.len() {
            assert(l[t] == v[t - 6 - k.len()]);
        }
    }
}

/// Parsing a line built from clean text gives back its key and value.
proof fn lemma_parse_line_content(k: Seq<char>, v: Seq<char>)
    requires
        clean_text(k),
        clean_text(v),
    ensures
        spec_parse_line(line_content(k, v)) == Some((k, v)),
{
    let l = line_content(k, v);
    let tail = seq!['"', ' ', '=', ' ', '"'] + v + seq!['"'];
    assert(l.len() == k.len() + v.len() + 7);
    assert(l[0] == '"');
    assert(l.skip(1) =~= k + tail);
    assert(tail[0] == '"');
    lemma_find_in_concat(k, tail, '"');
    assert(find_in(l.skip(1), '"') == k.len());
    let j: int = 1 + k.len() as int;
    assert(l[j + 1] == ' ');
    assert(l[j + 2] == '=');
    assert(l[j + 3] == ' ');
    assert(l[j + 4] == '"');
    assert(l[l.len() - 1] == '"');
    assert forall|t: int| j + 5 <= t < l.len() - 1 implies l[t] != '"' by {
        assert(l[t] == v[t - j - 5]);
    }
    assert(l.subrange(1, j) =~= k);
    assert(l.subrange(j + 5, l.len() - 1) =~= v);
}

/// Splitting the serialized text on line breaks gives the entry lines,
/// followed by one empty run from the trailing break.
proof fn lemma_split_serialize(m: Seq<(Seq<char>, Seq<char>)>)
    requires
        serializable(m),
    ensures
        split_on(spec_serialize(m), '\n') == line_seq(m).push(Seq::<char>::empty()),
    decreases m.len(),
{
    if m.len() == 0 {
        assert(split_on(spec_serialize(m), '\n') =~= line_seq(m).push(Seq::<char>::empty()));
    } else {
        let lc = line_content(m.first().0, m.first().1);
        let text = spec_serialize(m);
        let rest = m.drop_first();
        assert(serializable(rest)) by {
            assert(forall|i: int| 0 <= i < rest.len() ==> rest[i] == m[i + 1]);
        }
        lemma_line_content_no_newline(m.first().0, m.first().1);
        assert(text =~= lc + seq!['\n'] + spec_serialize(rest));
        assert(text[lc.len() as int] == '\n');
        assert(forall|t: int| 0 <= t < lc.len() ==> text[t] == lc[t] && text[t] != '\n');
        lemma_split_at_sep(text, '\n', lc.len() as int);
        assert(text.take(lc.len() as int) =~= lc);
        assert(text.skip(lc.len() as int + 1) =~= spec_serialize(rest));
        lemma_split_serialize(rest);
        assert(seq![lc] + (line_seq(rest).push(Seq::<char>::empty())) =~= line_seq(m).push(
            Seq::<char>::empty(),
        ));
    }
}

/// Parsing the entry lines back gives the entries.
proof fn lemma_parse_lines_content(m: Seq<(Seq<char>, Seq<char>)>)
    requires
        serializable(m),
    ensures
        spec_parse_lines(line_seq(m).push(Seq::<char>::empty())) == Some(m),
    decreases m.len(),
{
    let ls = line_seq(m).push(Seq::<char>::empty());
    if m.len() == 0 {
        assert(ls.first().len() == 0);
        assert(ls.drop_first() =~= Seq::<Seq<char>>::empty());
        assert(spec_parse_lines(Seq::<Seq<char>>::empty()) == Some(
            Seq::<(Seq<char>, Seq<char>)>::empty(),
        ));
        assert(spec_parse_lines(ls) == Some(Seq::<(Seq<char>, Seq<char>)>::empty()));
        assert(m =~= Seq::<(Seq<char>, Seq<char>)>::empty());
    } else {
        let rest = m.drop_first();
        assert(serializable(rest)) by {
            assert(forall|i: int| 0 <= i < rest.len() ==> rest[i] == m[i + 1]);
        }
        assert(ls.first() == line_content(m[0].0, m[0].1));
        assert(ls.first().len() == m[0].0.len() + m[0].1.len() + 7);
        lemma_parse_line_content(m[0].0, m[0].1);
        assert(ls.drop_first() =~= line_seq(rest).push(Seq::<char>::empty()));
        lemma_parse_lines_content(rest);
        assert((m[0].0, m[0].1) == m[0]);
        assert(seq![m[0]] + rest =~= m);
    }
}

/// Folding pairs that extend a well-formed list appends them in order.
proof fn lemma_insert_all_sorted(
    ps: Seq<(Seq<char>, Seq<char>)>,
    acc: Seq<(Seq<char>, Seq<char>)>,
)
    requires
        wf_entries(acc + ps),
    ensures
        spec_insert_all(ps, acc) == Some(acc + ps),
    decreases ps.len(),
{
    if ps.len() == 0 {
        assert(acc + ps =~= acc);
    } else {
        let p = ps.first();
        let whole = acc + ps;
        assert(whole[acc.len() as int] == p);
        assert(!spec_contains(acc, p.0)) by {
            if spec_contains(acc, p.0) {
                let t = choose|t: int| 0 <= t < acc.len() && acc[t].0 == p.0;
                assert(whole[t] == acc[t]);
                assert(lex_lt(whole[t].0, whole[acc.len() as int].0));
                lemma_lex_lt_irrefl(p.0);
            }
        }
        assert(spec_insert(acc, p.0, p.1) == acc.push(p)) by {
            assert forall|t: int| 0 <= t < acc.len() implies lex_lt(acc[t].0, p.0) by {
                assert(whole[t] == acc[t]);
                assert(lex_lt(whole[t].0, whole[acc.len() as int].0));
            }
            lemma_insert_append(acc, p.0, p.1);
            assert((p.0, p.1) == p);
        }
        assert(acc.push(p) + ps.drop_first() =~= whole);
        lemma_insert_all_sorted(ps.drop_first(), acc.push(p));
        assert(spec_insert_all(ps, acc) == Some(acc.push(p) + ps.drop_first()));
    }
}

/// Round-trip law: serializing a well-formed, writable manifest and
/// loading the text back yields exactly the same entries, in the same
/// order. Together with the contracts of `Manifest::serialize` and
/// `Manifest::new`, this says `load(serialize(m)) == m` for every manifest
/// that `insert` and `remove` can build and `serialize` accepts.
pub proof fn lemma_load_serialize_roundtrip(m: Seq<(Seq<char>, Seq<char>)>)
    requires
        wf_entries(m),
        serializable(m),
    ensures
        spec_load(spec_serialize(m)) == Some(m),
{
    lemma_split_serialize(m);
    lemma_parse_lines_content(m);
    assert(wf_entries(Seq::<(Seq<char>, Seq<char>)>::empty() + m)) by {
        assert(Seq::<(Seq<char>, Seq<char>)>::empty() + m =~= m);
    }
    lemma_insert_all_sorted(m, Seq::<(Seq<char>, Seq<char>)>::empty());
    assert(Seq::<(Seq<char>, Seq<char>)>::empty() + m =~= m);
}

/// The view of an optional borrowed string.
pub open spec fn opt_ref_view(h: Option<&String>) -> Option<Seq<char>> {
    match h {
        Some(s) => Some(s@),
        None => None,
    }
}

/// Removing an absent key changes nothing.
proof fn lemma_remove_absent(m: Seq<(Seq<char>, Seq<char>)>, k: Seq<char>)
    requires
        forall|j: int| 0 <= j < m.len() ==> m[j].0 != k,
    ensures
        spec_remove(m, k) == m,
    decreases m.len(),
{
    if m.len() > 0 {
        assert(forall|j: int|
            0 <= j < m.drop_first().len() ==> m.drop_first()[j].0 == m[j + 1].0);
        lemma_remove_absent(m.drop_first(), k);
        assert(spec_remove(m, k) =~= m);
    }
}

/// Removing a key whose first occurrence is at `i` deletes that entry.
proof fn lemma_remove_at(m: Seq<(Seq<char>, Seq<char>)>, k: Seq<char>, i: int)
    requires
        0 <= i < m.len(),
        m[i].0 == k,
        forall|j: int| 0 <= j < i ==> m[j].0 != k,
    ensures
        spec_remove(m, k) == m.remove(i),
    decreases i,
{
    if i == 0 {
        assert(spec_remove(m, k) =~= m.remove(0));
    } else {
        let rest = m.drop_first();
        assert(rest[i - 1].0 == k);
        assert(forall|j: int| 0 <= j < i - 1 ==> rest[j].0 == m[j + 1].0 && rest[j].0 != k);
        lemma_remove_at(rest, k, i - 1);
        assert(spec_remove(m, k) =~= m.remove(i));
    }
}

} // verus!

