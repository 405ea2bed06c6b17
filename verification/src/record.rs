//! Flat records: string keys mapped to string values, read only by key
//! lookup, with a later write for a key shadowing an earlier one.

use vstd::prelude::*;
use crate::node::pairs_view;
use crate::text::str_eq;

verus! {

/// The map that a run of key/value pairs builds up, a later pair for the
/// same key overwriting an earlier one.
pub open spec fn map_of_pairs(ps: Seq<(Seq<char>, Seq<char>)>) -> Map<Seq<char>, Seq<char>>
    decreases ps.len(),
{
    if ps.len() == 0 {
        Map::empty()
    } else {
        map_of_pairs(ps.drop_last()).insert(ps.last().0, ps.last().1)
    }
}

/// A key is in the map of a run of pairs exactly when some pair carries it.
pub proof fn lemma_map_of_pairs_contains(ps: Seq<(Seq<char>, Seq<char>)>, k: Seq<char>)
    ensures
        map_of_pairs(ps).contains_key(k) <==> exists|i: int|
            0 <= i < ps.len() && #[trigger] ps[i].0 == k,
    decreases ps.len(),
{
    if ps.len() > 0 {
        lemma_map_of_pairs_contains(ps.drop_last(), k);
        assert(forall|i: int|
            0 <= i < ps.len() - 1 ==> #[trigger] ps.drop_last()[i].0 == ps[i].0);
        if ps.last().0 == k {
            assert(ps[ps.len() - 1].0 == k);
        } else {
            if exists|i: int| 0 <= i < ps.len() && #[trigger] ps[i].0 == k {
                let i = choose|i: int| 0 <= i < ps.len() && #[trigger] ps[i].0 == k;
                assert(ps.drop_last()[i].0 == k);
            }
        }
    }
}

/// The value under a key is the one of the last pair that carries the key.
pub proof fn lemma_map_of_pairs_lookup(ps: Seq<(Seq<char>, Seq<char>)>, j: int)
    requires
        0 <= j < ps.len(),
        forall|m: int| j < m < ps.len() ==> #[trigger] ps[m].0 != ps[j].0,
    ensures
        map_of_pairs(ps).contains_key(ps[j].0),
        map_of_pairs(ps)[ps[j].0] == ps[j].1,
    decreases ps.len(),
{
    if j == ps.len() - 1 {
    } else {
        assert(forall|m: int|
            j < m < ps.len() - 1 ==> #[trigger] ps.drop_last()[m].0 == ps[m].0);
        assert(ps.drop_last()[j] == ps[j]);
        lemma_map_of_pairs_lookup(ps.drop_last(), j);
        assert(ps.last().0 != ps[j].0);
    }
}

/// A flat record of one document: keys to values, consumed by key lookup.
pub struct FlatRecord {
    pairs: Vec<(String, String)>,
}

impl View for FlatRecord {
    type V = Map<Seq<char>, Seq<char>>;

    closed spec fn view(&self) -> Map<Seq<char>, Seq<char>> {
        map_of_pairs(pairs_view(self.pairs@))
    }
}

impl FlatRecord {
    /// Writes one key/value pair, shadowing any earlier value of the key.
    pub fn insert(&mut self, key: String, value: String)
        ensures
            final(self)@ == old(self)@.insert(key@, value@),
    {
        let ghost kv = key@;
        let ghost vv = value@;
        let ghost before = pairs_view(self.pairs@);
        self.pairs.push((key, value));
        proof {
            assert(pairs_view(self.pairs@).drop_last() =~= before);
            assert(pairs_view(self.pairs@).last() == (kv, vv));
        }
    }

    /// Looks a key up: the value it was last written with, if any.
    pub fn get(&self, key: &str) -> (r: Option<&String>)
        ensures
            match r {
                Some(v) => self@.contains_key(key@) && v@ == self@[key@],
                None => !self@.contains_key(key@),
            },
    {
        let ghost ps = pairs_view(self.pairs@);
        let mut j: usize = self.pairs.len();
        while j > 0
            invariant
                0 <= j <= self.pairs.len(),
                ps == pairs_view(self.pairs@),
                forall|m: int| j <= m < ps.len() ==> #[trigger] ps[m].0 != key@,
            decreases j,
        {
            j = j - 1;
            if str_eq(self.pairs[j].0.as_str(), key) {
                proof {
                    lemma_map_of_pairs_lookup(ps, j as int);
                }
                return Some(&self.pairs[j].1);
            }
        }
        proof {
            lemma_map_of_pairs_contains(ps, key@);
        }
        None
    }

    /// Hands out the keys of the record; every key of the map occurs, and
    /// nothing else (a key may occur more than once).
    pub fn keys(&self) -> (r: Vec<String>)
        ensures
            forall|i: int| 0 <= i < r@.len() ==> self@.contains_key(#[trigger] r@[i]@),
            forall|k: Seq<char>|
                self@.contains_key(k) ==> exists|i: int| 0 <= i < r@.len() && #[trigger] r@[i]@ == k,
    {
        let ghost ps = pairs_view(self.pairs@);
        let mut out: Vec<String> = Vec::new();
        let mut i: usize = 0;
        while i < self.pairs.len()
            invariant
                0 <= i <= self.pairs.len(),
                ps == pairs_view(self.pairs@),
                out@.len() == i,
                forall|m: int| 0 <= m < i ==> #[trigger] out@[m]@ == ps[m].0,
            decreases self.pairs.len() - i,
        {
            out.push(self.pairs[i].0.clone());
            i = i + 1;
        }
        proof {
            assert forall|k: Seq<char>| self@.contains_key(k) implies exists|m: int|
                0 <= m < out@.len() && #[trigger] out@[m]@ == k by {
                lemma_map_of_pairs_contains(ps, k);
                let m = choose|m: int| 0 <= m < ps.len() && #[trigger] ps[m].0 == k;
                assert(out@[m]@ == k);
            }
            assert forall|m: int| 0 <= m < out@.len() implies self@.contains_key(
                #[trigger] out@[m]@,
            ) by {
                lemma_map_of_pairs_contains(ps, out@[m]@);
                assert(ps[m].0 == out@[m]@);
            }
        }
        out
    }
}

/// Builds a record from flattened pairs, a later pair winning over an
/// earlier one with the same key.
pub fn kv_to_hash(kv: Vec<(String, String)>) -> (r: FlatRecord)
    ensures
        r@ == map_of_pairs(pairs_view(kv@)),
{
    FlatRecord { pairs: kv }
}

} // verus!
