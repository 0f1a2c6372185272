//! Lexical path handling: resolving a path to an absolute form without
//! touching the filesystem, and converting between absolute paths and the
//! home-relative portable form stored in the manifest.

use vstd::prelude::*;
use vstd::string::StrSliceExecFns;
use vstd::string::StringExecFns;

use crate::error::DotError;
use crate::text::chars_eq;
use crate::text::chars_to_string;
use crate::text::clone_chars;
use crate::text::lemma_views_of_drop_last;
use crate::text::lemma_views_of_push;
use crate::text::lemma_split_concat_sep;
use crate::text::lemma_split_no_sep;
use crate::text::split_on;
use crate::text::split_on_char;
use crate::text::str_to_chars;
use crate::text::views_of;

verus! {

/// Whether the path begins with a separator.
pub open spec fn spec_is_absolute(s: Seq<char>) -> bool {
    s.len() > 0 && s[0] == '/'
}

/// The raw components of `s`: the runs of characters between separators,
/// empty runs included.
pub open spec fn spec_split(s: Seq<char>) -> Seq<Seq<char>> {
    split_on(s, '/')
}

/// A current-directory component.
pub open spec fn seg_is_cur(c: Seq<char>) -> bool {
    c.len() == 1 && c[0] == '.'
}

/// A parent-directory component.
pub open spec fn seg_is_parent(c: Seq<char>) -> bool {
    c.len() == 2 && c[0] == '.' && c[1] == '.'
}

/// One step of lexical collapsing: empty and current-directory components
/// are dropped, a parent-directory component pops the last kept segment
/// (and does nothing when there is none), anything else is kept.
pub open spec fn apply_seg(acc: Seq<Seq<char>>, c: Seq<char>) -> Seq<Seq<char>> {
    if c.len() == 0 || seg_is_cur(c) {
        acc
    } else if seg_is_parent(c) {
        if acc.len() == 0 {
            acc
        } else {
            acc.drop_last()
        }
    } else {
        acc.push(c)
    }
}

/// Lexical collapsing of a component list, left to right, on top of `acc`.
pub open spec fn norm_segs(segs: Seq<Seq<char>>, acc: Seq<Seq<char>>) -> Seq<Seq<char>>
    decreases segs.len(),
{
    if segs.len() == 0 {
        acc
    } else {
        norm_segs(segs.drop_first(), apply_seg(acc, segs.first()))
    }
}

/// The collapsed segments of path text `s`, applied on top of `base`.
pub open spec fn path_segments(s: Seq<char>, base: Seq<Seq<char>>) -> Seq<Seq<char>> {
    norm_segs(spec_split(s), base)
}

/// `/a/b/c` for the segments `a`, `b`, `c`; empty for no segments.
pub open spec fn join_segs(segs: Seq<Seq<char>>) -> Seq<char>
    decreases segs.len(),
{
    if segs.len() == 0 {
        Seq::<char>::empty()
    } else {
        join_segs(segs.drop_last()) + seq!['/'] + segs.last()
    }
}

/// The absolute path text for a collapsed segment list.
pub open spec fn abs_path_of(segs: Seq<Seq<char>>) -> Seq<char> {
    if segs.len() == 0 {
        seq!['/']
    } else {
        join_segs(segs)
    }
}

/// The collapsed segments of `path`, resolved on top of `cwd` when `path`
/// is relative.
pub open spec fn lexical_segments(path: Seq<char>, cwd: Seq<char>) -> Seq<Seq<char>> {
    if spec_is_absolute(path) {
        path_segments(path, Seq::<Seq<char>>::empty())
    } else {
        path_segments(path, path_segments(cwd, Seq::<Seq<char>>::empty()))
    }
}

/// What `to_lexical_absolute` returns: `path` resolved against `cwd` by
/// dropping current-directory components and popping kept segments on
/// parent-directory components, with no filesystem access.
pub open spec fn spec_lexical_absolute(path: Seq<char>, cwd: Seq<char>) -> Seq<char> {
    abs_path_of(lexical_segments(path, cwd))
}

/// Lexical collapsing of the given components on top of `base`.
fn normalize_into(segs: &Vec<Vec<char>>, base: Vec<Vec<char>>) -> (r: Vec<Vec<char>>)
    ensures
        views_of(r@) == norm_segs(views_of(segs@), views_of(base@)),
{
    let ghost target = norm_segs(views_of(segs@), views_of(base@));
    let mut acc = base;
    let mut i: usize = 0;
    proof {
        assert(views_of(segs@).skip(0) =~= views_of(segs@));
    }
    while i < segs.len()
        invariant
            i <= segs@.len(),
            norm_segs(views_of(segs@).skip(i as int), views_of(acc@)) == target,
        decreases segs@.len() - i,
    {
        let ghost ss = views_of(segs@);
        let ghost a0 = views_of(acc@);
        proof {
            assert(ss.skip(i as int).first() == ss[i as int]);
            assert(ss.skip(i as int).drop_first() =~= ss.skip(i as int + 1));
            assert(ss[i as int] == segs@[i as int]@);
        }
        let seg = &segs[i];
        if seg.len() == 0 || (seg.len() == 1 && seg[0] == '.') {
            proof {
                assert(apply_seg(a0, ss[i as int]) == a0);
            }
        } else if seg.len() == 2 && seg[0] == '.' && seg[1] == '.' {
            if acc.len() > 0 {
                let ghost pre = acc@;
                let _ = acc.pop();
                proof {
                    assert(acc@ =~= pre.drop_last());
                    lemma_views_of_drop_last(pre);
                    assert(apply_seg(a0, ss[i as int]) == views_of(acc@));
                }
            } else {
                proof {
                    assert(a0.len() == 0);
                    assert(apply_seg(a0, ss[i as int]) == a0);
                }
            }
        } else {
            let item = clone_chars(seg);
            let ghost pre = acc@;
            acc.push(item);
            proof {
                lemma_views_of_push(pre, item);
                assert(!(ss[i as int].len() == 0) && !seg_is_cur(ss[i as int]) && !seg_is_parent(
                    ss[i as int],
                ));
                assert(apply_seg(a0, ss[i as int]) == views_of(acc@));
            }
        }
        i = i + 1;
    }
    proof {
        assert(views_of(segs@).skip(segs@.len() as int) =~= Seq::<Seq<char>>::empty());
    }
    acc
}

/// Appends `/seg` for each segment of `segs` from position `from` on.
fn push_joined(out: &mut Vec<char>, segs: &Vec<Vec<char>>, from: usize)
    requires
        from <= segs@.len(),
    ensures
        final(out)@ == old(out)@ + join_segs(views_of(segs@).skip(from as int)),
{
    let ghost base = out@;
    let ghost ss = views_of(segs@);
    let mut i: usize = from;
    proof {
        assert(ss.subrange(from as int, from as int) =~= Seq::<Seq<char>>::empty());
        assert(out@ =~= base + join_segs(ss.subrange(from as int, from as int)));
    }
    while i < segs.len()
        invariant
            from <= i <= segs@.len(),
            ss == views_of(segs@),
            out@ == base + join_segs(ss.subrange(from as int, i as int)),
        decreases segs@.len() - i,
    {
        out.push('/');
        let seg = &segs[i];
        let ghost mid = out@;
        let mut k: usize = 0;
        proof {
            assert(seg@.take(0) =~= Seq::<char>::empty());
            assert(out@ =~= mid + seg@.take(0));
        }
        while k < seg.len()
            invariant
                k <= seg@.len(),
                out@ == mid + seg@.take(k as int),
            decreases seg@.len() - k,
        {
            out.push(seg[k]);
            k = k + 1;
            proof {
                assert(out@ =~= mid + seg@.take(k as int));
            }
        }
        proof {
            assert(seg@.take(seg@.len() as int) =~= seg@);
            let sub1 = ss.subrange(from as int, i as int + 1);
            assert(sub1.drop_last() =~= ss.subrange(from as int, i as int));
            assert(sub1.last() == ss[i as int]);
            assert(ss[i as int] == segs@[i as int]@);
            assert(out@ =~= base + (join_segs(ss.subrange(from as int, i as int)) + seq!['/']
                + ss[i as int]));
            assert(out@ =~= base + join_segs(sub1));
        }
        i = i + 1;
    }
    proof {
        assert(ss.subrange(from as int, segs@.len() as int) =~= ss.skip(from as int));
    }
}

/// The absolute path text for the given collapsed segments.
fn join_absolute(segs: &Vec<Vec<char>>) -> (r: String)
    ensures
        r@ == abs_path_of(views_of(segs@)),
{
    if segs.len() == 0 {
        proof {
            reveal_strlit("/");
        }
        let s = String::from_str("/");
        proof {
            assert(s@ =~= seq!['/']);
        }
        return s;
    }
    let mut out: Vec<char> = Vec::new();
    push_joined(&mut out, segs, 0);
    proof {
        assert(views_of(segs@).skip(0) =~= views_of(segs@));
        assert(out@ =~= join_segs(views_of(segs@)));
    }
    chars_to_string(&out)
}

/// The collapsed segments of `path` resolved against `cwd`.
fn lexical_segments_exec(path: &str, cwd: &str) -> (r: Vec<Vec<char>>)
    ensures
        views_of(r@) == lexical_segments(path@, cwd@),
{
    let pv = str_to_chars(path);
    let empty_base: Vec<Vec<char>> = Vec::new();
    proof {
        assert(views_of(empty_base@) =~= Seq::<Seq<char>>::empty());
    }
    if pv.len() > 0 && pv[0] == '/' {
        let psegs = split_on_char(&pv, '/');
        normalize_into(&psegs, empty_base)
    } else {
        let cv = str_to_chars(cwd);
        let csegs = split_on_char(&cv, '/');
        let base = normalize_into(&csegs, empty_base);
        let psegs = split_on_char(&pv, '/');
        normalize_into(&psegs, base)
    }
}

/// Resolves `path` against the working directory `cwd` by purely lexical
/// rules: a current-directory component is dropped, a parent-directory
/// component pops the last kept segment, anything else is appended. No
/// filesystem access is performed.
pub fn to_lexical_absolute(path: &str, cwd: &str) -> (r: String)
    ensures
        r@ == spec_lexical_absolute(path@, cwd@),
{
    let segs = lexical_segments_exec(path, cwd);
    join_absolute(&segs)
}

/// Whether the path is stored in portable form: it is `~` alone or starts
/// with `~/`.
pub open spec fn spec_has_tilde(v: Seq<char>) -> bool {
    v.len() > 0 && v[0] == '~' && (v.len() == 1 || v[1] == '/')
}

/// The tilde marker replaced by the home directory; a path without the
/// marker is returned unchanged.
pub open spec fn spec_expand_tilde(v: Seq<char>, home: Seq<char>) -> Seq<char> {
    if spec_has_tilde(v) {
        home + v.skip(1)
    } else {
        v
    }
}

/// The view of an optional home directory.
pub open spec fn opt_str_view(h: Option<String>) -> Option<Seq<char>> {
    match h {
        Some(s) => Some(s@),
        None => None,
    }
}

/// The view of a string-or-error result.
pub open spec fn result_view(r: Result<String, DotError>) -> Result<Seq<char>, DotError> {
    match r {
        Ok(s) => Ok(s@),
        Err(e) => Err(e),
    }
}

/// What expanding a portable path against an optional home directory must
/// return: the expansion, or `NoHomeDir` when the marker is present but no
/// home directory is.
pub open spec fn spec_expand_outcome(p: Seq<char>, h: Option<Seq<char>>) -> Result<
    Seq<char>,
    DotError,
> {
    if !spec_has_tilde(p) {
        Ok(p)
    } else {
        match h {
            Some(hh) => Ok(hh + p.skip(1)),
            None => Err(DotError::NoHomeDir),
        }
    }
}

/// The last component that names something, read from the end: empty and
/// current-directory components are passed over.
pub open spec fn last_real_seg(cs: Seq<Seq<char>>) -> Option<Seq<char>>
    decreases cs.len(),
{
    if cs.len() == 0 {
        None
    } else if cs.last().len() == 0 || seg_is_cur(cs.last()) {
        last_real_seg(cs.drop_last())
    } else {
        Some(cs.last())
    }
}

/// The final path component, when the path has one that names something:
/// a path ending in a parent-directory component, or naming nothing, has
/// no extractable name.
pub open spec fn spec_file_name(p: Seq<char>) -> Option<Seq<char>> {
    match last_real_seg(spec_split(p)) {
        None => None,
        Some(c) => if seg_is_parent(c) {
            None
        } else {
            Some(c)
        },
    }
}

/// The final path component, when there is one to extract.
pub fn file_name(path: &str) -> (r: Option<String>)
    ensures
        spec_file_name(path@) is None ==> r is None,
        spec_file_name(path@) matches Some(c) ==> r is Some && r->Some_0@ == c,
{
    let pv = str_to_chars(path);
    let segs = split_on_char(&pv, '/');
    let ghost ss = views_of(segs@);
    let mut i: usize = segs.len();
    proof {
        assert(ss.take(ss.len() as int) =~= ss);
    }
    while i > 0
        invariant
            i <= ss.len(),
            ss == views_of(segs@),
            ss == spec_split(path@),
            last_real_seg(ss) == last_real_seg(ss.take(i as int)),
        decreases i,
    {
        i = i - 1;
        let seg = &segs[i];
        proof {
            assert(ss.take(i as int + 1).last() == ss[i as int]);
            assert(ss.take(i as int + 1).drop_last() =~= ss.take(i as int));
            assert(ss[i as int] == segs@[i as int]@);
        }
        if !(seg.len() == 0 || (seg.len() == 1 && seg[0] == '.')) {
            if seg.len() == 2 && seg[0] == '.' && seg[1] == '.' {
                proof {
                    assert(seg_is_parent(ss[i as int]));
                }
                return None;
            }
            return Some(chars_to_string(seg));
        }
    }
    proof {
        assert(ss.take(0).len() == 0);
    }
    None
}

/// Whether the path carries the tilde marker: it is `~` alone or starts
/// with `~/`.
pub fn has_tilde_marker(path: &str) -> (r: bool)
    ensures
        r == spec_has_tilde(path@),
{
    let n = path.unicode_len();
    n > 0 && path.get_char(0) == '~' && (n == 1 || path.get_char(1) == '/')
}

/// Replaces a leading tilde marker by `home`.
pub fn expand_tilde_str(path: &str, home: &str) -> (r: String)
    ensures
        r@ == spec_expand_tilde(path@, home@),
{
    let n = path.unicode_len();
    let tilde = n > 0 && path.get_char(0) == '~' && (n == 1 || path.get_char(1) == '/');
    if !tilde {
        return String::from_str(path);
    }
    let mut out = String::from_str(home);
    let suffix = path.substring_char(1, n);
    out.append(suffix);
    proof {
        assert(path@.subrange(1, n as int) =~= path@.skip(1));
    }
    out
}

/// Expands a leading tilde marker against the given home directory; a path
/// without the marker is returned unchanged, and a path with the marker
/// fails with `NoHomeDir` when no home directory is given.
pub fn expand_tilde_with_home(path: &str, home: Option<String>) -> (r: Result<String, DotError>)
    ensures
        result_view(r) == spec_expand_outcome(path@, opt_str_view(home)),
        !spec_has_tilde(path@) ==> r is Ok && r->Ok_0@ == path@,
{
    let n = path.unicode_len();
    let tilde = n > 0 && path.get_char(0) == '~' && (n == 1 || path.get_char(1) == '/');
    if !tilde {
        return Ok(String::from_str(path));
    }
    match home {
        Some(h) => Ok(expand_tilde_str(path, h.as_str())),
        None => Err(DotError::NoHomeDir),
    }
}

/// Whether the segments `pre` start the segment list `s`.
pub open spec fn is_seg_prefix(pre: Seq<Seq<char>>, s: Seq<Seq<char>>) -> bool {
    pre.len() <= s.len() && pre == s.take(pre.len() as int)
}

/// `~/a/b` for the segments `a`, `b`; `~` alone for no segments.
pub open spec fn tilde_path_of(segs: Seq<Seq<char>>) -> Seq<char> {
    seq!['~'] + join_segs(segs)
}

/// What `collapse_tilde_with_home` stores: the path resolved to absolute
/// form; when the home directory's segments start it, they are replaced by
/// the tilde marker.
pub open spec fn spec_collapse_tilde(path: Seq<char>, home: Seq<char>, cwd: Seq<char>) -> Seq<
    char,
> {
    let a = lexical_segments(path, cwd);
    let h = path_segments(home, Seq::<Seq<char>>::empty());
    if is_seg_prefix(h, a) {
        tilde_path_of(a.skip(h.len() as int))
    } else {
        abs_path_of(a)
    }
}

/// What collapsing against an optional home directory must return.
pub open spec fn spec_collapse_outcome(p: Seq<char>, h: Option<Seq<char>>, cwd: Seq<char>) -> Result<
    Seq<char>,
    DotError,
> {
    match h {
        Some(hh) => Ok(spec_collapse_tilde(p, hh, cwd)),
        None => Err(DotError::NoHomeDir),
    }
}

/// Collapses the home-directory prefix of a path to the tilde marker.
pub fn collapse_tilde_str(path: &str, home: &str, cwd: &str) -> (r: String)
    ensures
        r@ == spec_collapse_tilde(path@, home@, cwd@),
{
    let a = lexical_segments_exec(path, cwd);
    let hv = str_to_chars(home);
    let hraw = split_on_char(&hv, '/');
    let empty_base: Vec<Vec<char>> = Vec::new();
    proof {
        assert(views_of(empty_base@) =~= Seq::<Seq<char>>::empty());
    }
    let hsegs = normalize_into(&hraw, empty_base);
    let ghost hs = views_of(hsegs@);
    let ghost aa = views_of(a@);
    let mut pref = hsegs.len() <= a.len();
    if pref {
        let mut i: usize = 0;
        while i < hsegs.len()
            invariant
                i <= hsegs@.len() <= a@.len(),
                hs == views_of(hsegs@),
                aa == views_of(a@),
                pref ==> forall|t: int| 0 <= t < i ==> hs[t] == aa[t],
                !pref ==> !is_seg_prefix(hs, aa),
            decreases hsegs@.len() - i,
        {
            if pref && !chars_eq(&hsegs[i], &a[i]) {
                pref = false;
                proof {
                    assert(hs[i as int] != aa[i as int]);
                    assert(aa.take(hs.len() as int)[i as int] == aa[i as int]);
                    assert(!is_seg_prefix(hs, aa));
                }
            }
            i = i + 1;
        }
        if pref {
            proof {
                assert forall|t: int| 0 <= t < hs.len() implies hs[t] == aa.take(
                    hs.len() as int,
                )[t] by {
                    assert(aa.take(hs.len() as int)[t] == aa[t]);
                }
                assert(hs =~= aa.take(hs.len() as int));
            }
        }
    } else {
        proof {
            assert(!is_seg_prefix(hs, aa));
        }
    }
    if pref {
        let mut out: Vec<char> = Vec::new();
        out.push('~');
        push_joined(&mut out, &a, hsegs.len());
        proof {
            assert(out@ =~= tilde_path_of(aa.skip(hs.len() as int)));
        }
        chars_to_string(&out)
    } else {
        join_absolute(&a)
    }
}

/// Stores `path` in portable form for the given home directory; fails with
/// `NoHomeDir` when no home directory is given.
pub fn collapse_tilde_with_home(path: &str, home: Option<String>, cwd: &str) -> (r: Result<
    String,
    DotError,
>)
    ensures
        result_view(r) == spec_collapse_outcome(path@, opt_str_view(home), cwd@),
{
    match home {
        Some(h) => Ok(collapse_tilde_str(path, h.as_str(), cwd)),
        None => Err(DotError::NoHomeDir),
    }
}

/// Relies on `dirs::home_dir`: yields the user's home directory when the
/// platform reports one that is valid text; nothing further is assumed of
/// the result.
#[verifier::external_body]
fn home_dir() -> Option<String> {
    dirs::home_dir().and_then(|p| p.into_os_string().into_string().ok())
}

/// Expands a leading tilde marker against the home directory the
/// environment reports, whichever that is.
pub fn expand_tilde(path: &str) -> (r: Result<String, DotError>)
    ensures
        exists|h: Option<Seq<char>>| result_view(r) == spec_expand_outcome(path@, h),
        !spec_has_tilde(path@) ==> r is Ok && r->Ok_0@ == path@,
{
    let home = home_dir();
    let r = expand_tilde_with_home(path, home);
    proof {
        assert(result_view(r) == spec_expand_outcome(path@, opt_str_view(home)));
    }
    r
}

/// Collapses the home-directory prefix reported by the environment,
/// whichever that is, to the tilde marker.
pub fn collapse_tilde(path: &str, cwd: &str) -> (r: Result<String, DotError>)
    ensures
        exists|h: Option<Seq<char>>| result_view(r) == spec_collapse_outcome(path@, h, cwd@),
{
    let home = home_dir();
    let r = collapse_tilde_with_home(path, home, cwd);
    proof {
        assert(result_view(r) == spec_collapse_outcome(path@, opt_str_view(home), cwd@));
    }
    r
}

/// A joined segment list starts with a separator.
proof fn lemma_join_starts_with_slash(segs: Seq<Seq<char>>)
    requires
        segs.len() > 0,
    ensures
        join_segs(segs).len() > 0,
        join_segs(segs)[0] == '/',
    decreases segs.len(),
{
    if segs.len() > 1 {
        lemma_join_starts_with_slash(segs.drop_last());
        assert(join_segs(segs)[0] == (join_segs(segs.drop_last()) + seq!['/'])[0]);
        assert((join_segs(segs.drop_last()) + seq!['/'])[0] == join_segs(segs.drop_last())[0]);
    } else {
        assert(segs.drop_last().len() == 0);
        assert(join_segs(segs.drop_last()).len() == 0);
        assert(join_segs(segs)[0] == (join_segs(segs.drop_last()) + seq!['/'])[0]);
        assert((join_segs(segs.drop_last()) + seq!['/'])[0] == seq!['/'][0]);
    }
}

/// Collapsing a concatenated component list collapses the parts in turn.
proof fn lemma_norm_append(s1: Seq<Seq<char>>, s2: Seq<Seq<char>>, acc: Seq<Seq<char>>)
    ensures
        norm_segs(s1 + s2, acc) == norm_segs(s2, norm_segs(s1, acc)),
    decreases s1.len(),
{
    if s1.len() == 0 {
        assert(s1 + s2 =~= s2);
    } else {
        assert((s1 + s2).first() == s1.first());
        assert((s1 + s2).drop_first() =~= s1.drop_first() + s2);
        lemma_norm_append(s1.drop_first(), s2, apply_seg(acc, s1.first()));
    }
}

/// Stored form of a file directly under the home directory: collapsing
/// `home/name` against an absolute `home` yields the tilde marker
/// followed by `/name`. Together with the contracts of
/// `Manifest::insert_symlink` and `DotService::add`, this says tracking
/// such a file stores exactly `~/name`. (A relative home text could
/// defeat the prefix match; the environment reports absolute homes.)
pub proof fn lemma_collapse_stores_tilde(
    home: Seq<char>,
    name: Seq<char>,
    cwd: Seq<char>,
)
    requires
        spec_is_absolute(home),
        name.len() > 0,
        forall|i: int| 0 <= i < name.len() ==> name[i] != '/',
        !seg_is_cur(name),
        !seg_is_parent(name),
    ensures
        spec_collapse_tilde(home + seq!['/'] + name, home, cwd) == seq!['~', '/'] + name,
{
    let p = home + seq!['/'] + name;
    assert(p[0] == home[0]);
    assert(spec_is_absolute(p));
    let hsegs = path_segments(home, Seq::<Seq<char>>::empty());
    lemma_split_concat_sep(home, name, '/');
    lemma_split_no_sep(name, '/');
    assert(spec_split(p) == spec_split(home) + seq![name]);
    lemma_norm_append(spec_split(home), seq![name], Seq::<Seq<char>>::empty());
    assert(seq![name].first() == name);
    assert(seq![name].drop_first() =~= Seq::<Seq<char>>::empty());
    assert(apply_seg(hsegs, name) == hsegs.push(name));
    assert(norm_segs(Seq::<Seq<char>>::empty(), hsegs.push(name)) == hsegs.push(name));
    assert(norm_segs(seq![name], hsegs) == hsegs.push(name));
    let asegs = lexical_segments(p, cwd);
    assert(asegs == hsegs.push(name));
    assert(asegs.take(hsegs.len() as int) =~= hsegs);
    assert(is_seg_prefix(hsegs, asegs));
    assert(asegs.skip(hsegs.len() as int) =~= seq![name]);
    assert(seq![name].drop_last() =~= Seq::<Seq<char>>::empty());
    assert(join_segs(Seq::<Seq<char>>::empty()) == Seq::<char>::empty());
    assert(seq![name].last() == name);
    assert(join_segs(seq![name]) =~= seq!['/'] + name);
    assert(tilde_path_of(seq![name]) =~= seq!['~', '/'] + name);
    assert(spec_collapse_tilde(p, home, cwd) == tilde_path_of(asegs.skip(hsegs.len() as int)));
}

/// Portability of stored locations: when the home directory's segments
/// start the resolved path, the stored form is the tilde marker followed by
/// the remaining segments, and expanding that form against any other home
/// directory puts the same remaining segments under the other home
/// directory.
pub proof fn lemma_portable_across_homes(
    path: Seq<char>,
    home: Seq<char>,
    home2: Seq<char>,
    cwd: Seq<char>,
)
    requires
        is_seg_prefix(
            path_segments(home, Seq::<Seq<char>>::empty()),
            lexical_segments(path, cwd),
        ),
    ensures
        ({
            let suffix = lexical_segments(path, cwd).skip(
                path_segments(home, Seq::<Seq<char>>::empty()).len() as int,
            );
            let stored = spec_collapse_tilde(path, home, cwd);
            stored == tilde_path_of(suffix) && spec_has_tilde(stored) && spec_expand_tilde(
                stored,
                home2,
            ) == home2 + join_segs(suffix)
        }),
{
    let suffix = lexical_segments(path, cwd).skip(
        path_segments(home, Seq::<Seq<char>>::empty()).len() as int,
    );
    let stored = tilde_path_of(suffix);
    assert(stored[0] == '~');
    if suffix.len() == 0 {
        assert(stored.len() == 1);
    } else {
        lemma_join_starts_with_slash(suffix);
        assert(stored[1] == join_segs(suffix)[0]);
    }
    assert(spec_has_tilde(stored));
    assert(stored.skip(1) =~= join_segs(suffix));
}

} // verus!
