//! A flat key→value store over a vector of string pairs, read as a mapping
//! in which the most recently added pair for a key wins.

use vstd::prelude::*;

use crate::text::str_eq;

verus! {

/// A flat mapping from tracked files to their stored locations.
pub type Config = Vec<(String, String)>;

/// The mapping a pair list denotes: a later pair for the same key wins.
pub open spec fn map_of(s: Seq<(String, String)>) -> Map<Seq<char>, Seq<char>>
    decreases s.len(),
{
    if s.len() == 0 {
        Map::empty()
    } else {
        map_of(s.drop_last()).insert(s.last().0@, s.last().1@)
    }
}

/// The value stored for `k`, scanning from the most recent pair.
pub open spec fn lookup(s: Seq<(String, String)>, k: Seq<char>) -> Option<Seq<char>>
    decreases s.len(),
{
    if s.len() == 0 {
        None
    } else if s.last().0@ == k {
        Some(s.last().1@)
    } else {
        lookup(s.drop_last(), k)
    }
}

/// `lookup` answers exactly as the denoted mapping.
pub proof fn lemma_lookup_map(s: Seq<(String, String)>, k: Seq<char>)
    ensures
        map_of(s).dom().contains(k) == (lookup(s, k) is Some),
        lookup(s, k) matches Some(v) ==> map_of(s)[k] == v,
    decreases s.len(),
{
    if s.len() > 0 {
        lemma_lookup_map(s.drop_last(), k);
    }
}

/// The stored location for `file`, if any.
pub fn get(config: &Config, file: &str) -> (r: Option<String>)
    ensures
        (r is Some) == map_of(config@).dom().contains(file@),
        r matches Some(v) ==> map_of(config@)[file@] == v@,
{
    let ghost all = config@;
    let mut i: usize = config.len();
    proof {
        assert(all.take(all.len() as int) =~= all);
        lemma_lookup_map(all, file@);
    }
    while i > 0
        invariant
            i <= all.len(),
            all == config@,
            lookup(all, file@) == lookup(all.take(i as int), file@),
        decreases i,
    {
        i = i - 1;
        let pair = &config[i];
        if str_eq(pair.0.as_str(), file) {
            proof {
                assert(all.take(i as int + 1).last() == all[i as int]);
                assert(all.take(i as int + 1).last().0@ == file@);
                assert(lookup(all.take(i as int + 1), file@) == Some(all[i as int].1@));
                assert(lookup(all, file@) == Some(all[i as int].1@));
                lemma_lookup_map(all, file@);
                assert(map_of(all).dom().contains(file@));
                assert(map_of(all)[file@] == all[i as int].1@);
            }
            return Some(pair.1.clone());
        }
        proof {
            assert(all.take(i as int + 1).last() == all[i as int]);
            assert(all.take(i as int + 1).drop_last() =~= all.take(i as int));
        }
    }
    proof {
        assert(all.take(0).len() == 0);
    }
    None
}

/// Whether `file` is present in the mapping.
pub fn has(config: &Config, file: &str) -> (r: bool)
    ensures
        r == map_of(config@).dom().contains(file@),
{
    get(config, file).is_some()
}

/// A copy of the given pair list.
pub fn clone_pairs(v: &Vec<(String, String)>) -> (r: Vec<(String, String)>)
    ensures
        r@ == v@,
{
    let mut out: Vec<(String, String)> = Vec::new();
    let mut i: usize = 0;
    while i < v.len()
        invariant
            i <= v@.len(),
            out@ == v@.take(i as int),
        decreases v@.len() - i,
    {
        let pair = &v[i];
        out.push((pair.0.clone(), pair.1.clone()));
        i = i + 1;
        proof {
            assert(out@ =~= v@.take(i as int));
        }
    }
    proof {
        assert(v@.take(v@.len() as int) =~= v@);
    }
    out
}

/// The mapping with `file` bound to `link`; the argument is not changed.
pub fn insert(config: &Config, file: String, link: String) -> (r: Config)
    ensures
        map_of(r@) == map_of(config@).insert(file@, link@),
{
    let mut out = clone_pairs(config);
    out.push((file, link));
    proof {
        assert(out@.drop_last() =~= config@);
    }
    out
}

/// The mapping with `file` unbound; the argument is not changed.
pub fn remove(config: &Config, file: &str) -> (r: Config)
    ensures
        map_of(r@) == map_of(config@).remove(file@),
{
    let ghost all = config@;
    let mut out: Vec<(String, String)> = Vec::new();
    let mut i: usize = 0;
    proof {
        assert(map_of(out@) =~= map_of(all.take(0)).remove(file@));
    }
    while i < config.len()
        invariant
            i <= all.len(),
            all == config@,
            map_of(out@) == map_of(all.take(i as int)).remove(file@),
        decreases all.len() - i,
    {
        let pair = &config[i];
        let ghost pre = out@;
        if !str_eq(pair.0.as_str(), file) {
            out.push((pair.0.clone(), pair.1.clone()));
        }
        i = i + 1;
        proof {
            let prefix = all.take(i as int);
            assert(prefix.last() == all[i as int - 1]);
            assert(prefix.drop_last() =~= all.take(i as int - 1));
            if all[i as int - 1].0@ == file@ {
                assert(map_of(prefix).remove(file@) =~= map_of(prefix.drop_last()).remove(
                    file@,
                ));
            } else {
                assert(out@.drop_last() =~= pre);
                assert(map_of(prefix).remove(file@) =~= map_of(prefix.drop_last()).remove(
                    file@,
                ).insert(all[i as int - 1].0@, all[i as int - 1].1@));
            }
        }
    }
    proof {
        assert(all.take(all.len() as int) =~= all);
    }
    out
}

} // verus!
