//! Character-level helpers shared by the path and manifest modules: copying
//! between `&str` and `Vec<char>`, equality, and the key order used by the
//! manifest.

use vstd::prelude::*;
use vstd::string::StrSliceExecFns;

verus! {

/// Appends one character to a string.
/// Relies on `String::push`: the character is appended at the end.
#[verifier::external_body]
pub(crate) fn push_char(s: &mut String, c: char)
    ensures
        final(s)@ == old(s)@.push(c),
{
    s.push(c);
}

/// The characters of `s`, in order, as a vector.
pub fn str_to_chars(s: &str) -> (r: Vec<char>)
    ensures
        r@ == s@,
{
    let n: usize = s.unicode_len();
    let mut out: Vec<char> = Vec::new();
    let mut i: usize = 0;
    while i < n
        invariant
            i <= n,
            n == s@.len(),
            out@ == s@.take(i as int),
        decreases n - i,
    {
        out.push(s.get_char(i));
        i = i + 1;
        proof {
            assert(out@ =~= s@.take(i as int));
        }
    }
    proof {
        assert(s@.take(n as int) =~= s@);
    }
    out
}

/// A string holding exactly the given characters.
pub fn chars_to_string(v: &Vec<char>) -> (r: String)
    ensures
        r@ == v@,
{
    let mut out = String::new();
    let mut i: usize = 0;
    while i < v.len()
        invariant
            i <= v.len(),
            out@ == v@.take(i as int),
        decreases v.len() - i,
    {
        push_char(&mut out, v[i]);
        i = i + 1;
        proof {
            assert(out@ =~= v@.take(i as int));
        }
    }
    proof {
        assert(v@.take(v@.len() as int) =~= v@);
    }
    out
}

/// A copy of the characters of `v`.
pub fn clone_chars(v: &Vec<char>) -> (r: Vec<char>)
    ensures
        r@ == v@,
{
    subvec_chars(v, 0, v.len())
}

/// The characters of `v` between `from` (inclusive) and `to` (exclusive).
pub fn subvec_chars(v: &Vec<char>, from: usize, to: usize) -> (r: Vec<char>)
    requires
        from <= to <= v@.len(),
    ensures
        r@ == v@.subrange(from as int, to as int),
{
    let mut out: Vec<char> = Vec::new();
    let mut i: usize = from;
    while i < to
        invariant
            from <= i <= to <= v@.len(),
            out@ == v@.subrange(from as int, i as int),
        decreases to - i,
    {
        out.push(v[i]);
        i = i + 1;
        proof {
            assert(out@ =~= v@.subrange(from as int, i as int));
        }
    }
    out
}

/// The views of a sequence of character vectors.
pub open spec fn views_of(s: Seq<Vec<char>>) -> Seq<Seq<char>> {
    Seq::new(s.len(), |i: int| s[i]@)
}

/// Pushing a vector corresponds to pushing its view.
pub proof fn lemma_views_of_push(s: Seq<Vec<char>>, x: Vec<char>)
    ensures
        views_of(s.push(x)) == views_of(s).push(x@),
{
    assert(views_of(s.push(x)) =~= views_of(s).push(x@));
}

/// Dropping the last vector corresponds to dropping the last view.
pub proof fn lemma_views_of_drop_last(s: Seq<Vec<char>>)
    requires
        s.len() > 0,
    ensures
        views_of(s.drop_last()) == views_of(s).drop_last(),
{
    assert(views_of(s.drop_last()) =~= views_of(s).drop_last());
}

/// The runs of characters between occurrences of `sep`, empty runs
/// included: splitting the empty text yields one empty run.
pub open spec fn split_on(s: Seq<char>, sep: char) -> Seq<Seq<char>>
    decreases s.len(),
{
    if s.len() == 0 {
        seq![Seq::<char>::empty()]
    } else if s[0] == sep {
        seq![Seq::<char>::empty()] + split_on(s.skip(1), sep)
    } else {
        let r = split_on(s.skip(1), sep);
        seq![seq![s[0]] + r.first()] + r.drop_first()
    }
}

/// Splitting a text without the separator yields that text as one run.
pub proof fn lemma_split_no_sep(s: Seq<char>, sep: char)
    requires
        forall|j: int| 0 <= j < s.len() ==> s[j] != sep,
    ensures
        split_on(s, sep) == seq![s],
    decreases s.len(),
{
    if s.len() == 0 {
        assert(s =~= Seq::<char>::empty());
        assert(split_on(s, sep) =~= seq![s]);
    } else {
        lemma_split_no_sep(s.skip(1), sep);
        assert(seq![s[0]] + s.skip(1) =~= s);
        assert(seq![s.skip(1)].drop_first() =~= Seq::<Seq<char>>::empty());
        assert(split_on(s, sep) =~= seq![s]);
    }
}

/// Splitting at the first separator peels off one run.
pub proof fn lemma_split_at_sep(s: Seq<char>, sep: char, k: int)
    requires
        0 <= k < s.len(),
        s[k] == sep,
        forall|j: int| 0 <= j < k ==> s[j] != sep,
    ensures
        split_on(s, sep) == seq![s.take(k)] + split_on(s.skip(k + 1), sep),
    decreases k,
{
    if k == 0 {
        assert(s.take(0) =~= Seq::<char>::empty());
        assert(split_on(s, sep) =~= seq![s.take(0)] + split_on(s.skip(1), sep));
    } else {
        assert(s.skip(1)[k - 1] == s[k]);
        lemma_split_at_sep(s.skip(1), sep, k - 1);
        assert(seq![s[0]] + s.skip(1).take(k - 1) =~= s.take(k));
        assert(s.skip(1).skip(k) =~= s.skip(k + 1));
        let rest = split_on(s.skip(1).skip(k), sep);
        assert((seq![s.skip(1).take(k - 1)] + rest).first() == s.skip(1).take(k - 1));
        assert((seq![s.skip(1).take(k - 1)] + rest).drop_first() =~= rest);
        assert(split_on(s, sep) =~= seq![s.take(k)] + split_on(s.skip(k + 1), sep));
    }
}

/// Splitting always yields at least one run.
pub proof fn lemma_split_len(s: Seq<char>, sep: char)
    ensures
        split_on(s, sep).len() >= 1,
    decreases s.len(),
{
    if s.len() > 0 && s[0] != sep {
        lemma_split_len(s.skip(1), sep);
    }
}

/// Splitting around one separator splits each side on its own.
pub proof fn lemma_split_concat_sep(a: Seq<char>, b: Seq<char>, sep: char)
    ensures
        split_on(a + seq![sep] + b, sep) == split_on(a, sep) + split_on(b, sep),
    decreases a.len(),
{
    let s = a + seq![sep] + b;
    if a.len() == 0 {
        assert(s[0] == sep);
        assert(s.skip(1) =~= b);
        assert(split_on(s, sep) =~= split_on(a, sep) + split_on(b, sep));
    } else {
        assert(s[0] == a[0]);
        assert(s.skip(1) =~= a.skip(1) + seq![sep] + b);
        lemma_split_concat_sep(a.skip(1), b, sep);
        if a[0] == sep {
            assert(split_on(s, sep) =~= split_on(a, sep) + split_on(b, sep));
        } else {
            lemma_split_len(a.skip(1), sep);
            let ra = split_on(a.skip(1), sep);
            let r = split_on(s.skip(1), sep);
            assert(r == ra + split_on(b, sep));
            assert(r.first() == ra.first());
            assert(r.drop_first() =~= ra.drop_first() + split_on(b, sep));
            assert(split_on(s, sep) =~= split_on(a, sep) + split_on(b, sep));
        }
    }
}

/// The runs of characters of `v` between occurrences of `sep`.
pub fn split_on_char(v: &Vec<char>, sep: char) -> (r: Vec<Vec<char>>)
    ensures
        views_of(r@) == split_on(v@, sep),
{
    let n = v.len();
    let mut segs: Vec<Vec<char>> = Vec::new();
    let mut j: usize = 0;
    let mut done = false;
    proof {
        assert(views_of(segs@) =~= Seq::<Seq<char>>::empty());
        assert(v@.skip(0) =~= v@);
    }
    while !done
        invariant
            n == v@.len(),
            j <= n,
            !done ==> split_on(v@, sep) == views_of(segs@) + split_on(v@.skip(j as int), sep),
            done ==> split_on(v@, sep) == views_of(segs@),
        decreases n - j, (if done {
            0int
        } else {
            1int
        }),
    {
        let mut k: usize = j;
        while k < n && v[k] != sep
            invariant
                n == v@.len(),
                j <= k <= n,
                forall|m: int| j <= m < k ==> v@[m] != sep,
            decreases n - k,
        {
            k = k + 1;
        }
        let seg = subvec_chars(v, j, k);
        let ghost pre = segs@;
        segs.push(seg);
        proof {
            lemma_views_of_push(pre, seg);
            let sj = v@.skip(j as int);
            assert(forall|m: int| 0 <= m < k - j ==> sj[m] == v@[j + m] && sj[m] != sep);
            if k == n {
                lemma_split_no_sep(sj, sep);
                assert(sj =~= v@.subrange(j as int, k as int));
                assert(views_of(segs@) =~= views_of(pre) + seq![sj]);
                assert(split_on(v@, sep) == views_of(segs@));
            } else {
                assert(sj[k - j] == v@[k as int]);
                lemma_split_at_sep(sj, sep, k - j);
                assert(sj.take(k - j) =~= v@.subrange(j as int, k as int));
                assert(sj.skip(k - j + 1) =~= v@.skip(k as int + 1));
                assert(views_of(segs@) + split_on(v@.skip(k as int + 1), sep) =~= views_of(pre)
                    + split_on(sj, sep));
                assert(split_on(v@, sep) == views_of(segs@) + split_on(v@.skip(k as int + 1), sep));
            }
        }
        if k == n {
            done = true;
        } else {
            j = k + 1;
        }
    }
    segs
}

/// The views of a sequence of strings.
pub open spec fn string_views(s: Seq<String>) -> Seq<Seq<char>> {
    Seq::new(s.len(), |i: int| s[i]@)
}

/// Whether two character vectors hold the same characters.
pub fn chars_eq(a: &Vec<char>, b: &Vec<char>) -> (r: bool)
    ensures
        r == (a@ == b@),
{
    if a.len() != b.len() {
        return false;
    }
    let mut i: usize = 0;
    while i < a.len()
        invariant
            i <= a@.len(),
            a@.len() == b@.len(),
            forall|j: int| 0 <= j < i ==> a@[j] == b@[j],
        decreases a@.len() - i,
    {
        if a[i] != b[i] {
            return false;
        }
        i = i + 1;
    }
    proof {
        assert(a@ =~= b@);
    }
    true
}

/// Whether two string slices hold the same characters.
pub fn str_eq(a: &str, b: &str) -> (r: bool)
    ensures
        r == (a@ == b@),
{
    let na = a.unicode_len();
    let nb = b.unicode_len();
    if na != nb {
        return false;
    }
    let mut i: usize = 0;
    while i < na
        invariant
            i <= na,
            na == a@.len(),
            na == b@.len(),
            forall|j: int| 0 <= j < i ==> a@[j] == b@[j],
        decreases na - i,
    {
        if a.get_char(i) != b.get_char(i) {
            return false;
        }
        i = i + 1;
    }
    proof {
        assert(a@ =~= b@);
    }
    true
}

/// The index of the first occurrence of `c` in `s`, or the length of `s`
/// when `c` does not occur.
pub open spec fn find_in(s: Seq<char>, c: char) -> int
    decreases s.len(),
{
    if s.len() == 0 {
        0
    } else if s[0] == c {
        0
    } else {
        1 + find_in(s.skip(1), c)
    }
}

/// Everything before the found position differs from `c`, and the found
/// position holds `c` when it is within the text.
pub proof fn lemma_find_in_range(s: Seq<char>, c: char)
    ensures
        0 <= find_in(s, c) <= s.len(),
        find_in(s, c) < s.len() ==> s[find_in(s, c)] == c,
        forall|j: int| 0 <= j < find_in(s, c) ==> s[j] != c,
    decreases s.len(),
{
    if s.len() > 0 && s[0] != c {
        lemma_find_in_range(s.skip(1), c);
        assert forall|j: int| 0 <= j < find_in(s, c) implies s[j] != c by {
            if j > 0 {
                assert(s.skip(1)[j - 1] == s[j]);
            }
        }
    }
}

/// Finding in a concatenation whose first part lacks `c` and whose second
/// part starts with it lands exactly between them.
pub proof fn lemma_find_in_concat(p: Seq<char>, q: Seq<char>, c: char)
    requires
        forall|j: int| 0 <= j < p.len() ==> p[j] != c,
        q.len() > 0,
        q[0] == c,
    ensures
        find_in(p + q, c) == p.len(),
    decreases p.len(),
{
    if p.len() == 0 {
        assert(p + q =~= q);
    } else {
        assert((p + q)[0] == p[0]);
        assert((p + q).skip(1) =~= p.skip(1) + q);
        lemma_find_in_concat(p.skip(1), q, c);
    }
}

/// Finding in a text without `c` runs to the end.
pub proof fn lemma_find_in_absent(s: Seq<char>, c: char)
    requires
        forall|j: int| 0 <= j < s.len() ==> s[j] != c,
    ensures
        find_in(s, c) == s.len(),
    decreases s.len(),
{
    if s.len() > 0 {
        assert(forall|j: int| 0 <= j < s.skip(1).len() ==> s.skip(1)[j] == s[j + 1]);
        lemma_find_in_absent(s.skip(1), c);
    }
}

/// Appends the characters of `s`.
pub fn push_str_chars(out: &mut Vec<char>, s: &str)
    ensures
        final(out)@ == old(out)@ + s@,
{
    let ghost base = out@;
    let n = s.unicode_len();
    let mut i: usize = 0;
    proof {
        assert(out@ =~= base + s@.take(0));
    }
    while i < n
        invariant
            i <= n,
            n == s@.len(),
            out@ == base + s@.take(i as int),
        decreases n - i,
    {
        out.push(s.get_char(i));
        i = i + 1;
        proof {
            assert(out@ =~= base + s@.take(i as int));
        }
    }
    proof {
        assert(s@.take(n as int) =~= s@);
    }
}

/// Strict character-by-character order on strings: the order in which the
/// manifest keeps its keys.
pub open spec fn lex_lt(a: Seq<char>, b: Seq<char>) -> bool
    decreases a.len(),
{
    if b.len() == 0 {
        false
    } else if a.len() == 0 {
        true
    } else if a[0] < b[0] {
        true
    } else if b[0] < a[0] {
        false
    } else {
        lex_lt(a.skip(1), b.skip(1))
    }
}

/// Whether `a` comes strictly before `b` in manifest key order.
pub fn str_lt(a: &str, b: &str) -> (r: bool)
    ensures
        r == lex_lt(a@, b@),
{
    let na = a.unicode_len();
    let nb = b.unicode_len();
    let mut i: usize = 0;
    proof {
        assert(a@.skip(0) =~= a@);
        assert(b@.skip(0) =~= b@);
    }
    loop
        invariant
            i <= na,
            i <= nb,
            na == a@.len(),
            nb == b@.len(),
            lex_lt(a@, b@) == lex_lt(a@.skip(i as int), b@.skip(i as int)),
        decreases na - i,
    {
        if i == nb {
            return false;
        }
        if i == na {
            return true;
        }
        let ca = a.get_char(i);
        let cb = b.get_char(i);
        if ca < cb {
            return true;
        }
        if cb < ca {
            return false;
        }
        proof {
            assert(a@.skip(i as int).skip(1) =~= a@.skip(i as int + 1));
            assert(b@.skip(i as int).skip(1) =~= b@.skip(i as int + 1));
        }
        i = i + 1;
    }
}

/// The key order never puts a string before itself.
pub proof fn lemma_lex_lt_irrefl(a: Seq<char>)
    ensures
        !lex_lt(a, a),
    decreases a.len(),
{
    if a.len() > 0 {
        lemma_lex_lt_irrefl(a.skip(1));
    }
}

/// The key order is transitive.
pub proof fn lemma_lex_lt_trans(a: Seq<char>, b: Seq<char>, c: Seq<char>)
    requires
        lex_lt(a, b),
        lex_lt(b, c),
    ensures
        lex_lt(a, c),
    decreases a.len(),
{
    if a.len() == 0 {
    } else {
        if a[0] == b[0] && b[0] == c[0] {
            lemma_lex_lt_trans(a.skip(1), b.skip(1), c.skip(1));
        }
    }
}

/// Two different strings are ordered one way or the other.
pub proof fn lemma_lex_lt_connected(a: Seq<char>, b: Seq<char>)
    requires
        a != b,
    ensures
        lex_lt(a, b) || lex_lt(b, a),
    decreases a.len(),
{
    if a.len() == 0 {
        if b.len() == 0 {
            assert(a =~= b);
        }
    } else if b.len() == 0 {
    } else if a[0] < b[0] {
    } else if b[0] < a[0] {
    } else {
        assert(a[0] == b[0]);
        if a.skip(1) == b.skip(1) {
            assert(a.skip(1).len() == b.skip(1).len());
            assert(a.len() == b.len());
            assert forall|i: int| 0 <= i < a.len() implies a[i] == b[i] by {
                if i > 0 {
                    assert(a[i] == a.skip(1)[i - 1]);
                    assert(b[i] == b.skip(1)[i - 1]);
                }
            }
            assert(a =~= b);
        }
        lemma_lex_lt_connected(a.skip(1), b.skip(1));
    }
}

} // verus!
