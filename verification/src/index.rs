//! Index maps: identifiers numbered densely from zero.

use std::collections::HashMap;
use vstd::prelude::*;
use vstd::set_lib::*;
use vstd::std_specs::hash::*;
use vstd::string::*;
use vstd::utf8::*;
use crate::text::same_text;

verus! {

broadcast use group_hash_axioms;

/// A one-to-one numbering of identifiers by the integers `0..len`.
///
/// The row of a factor matrix that belongs to an identifier is the one at the
/// identifier's position. Positions are found through a table of hashes:
/// each bucket holds the positions of the identifiers with one hash value.
pub struct IndexMap {
    ids: Vec<String>,
    buckets: HashMap<u64, Vec<usize>>,
}

/// The identifiers of a list of strings.
pub open spec fn texts(ids: Seq<String>) -> Seq<Seq<char>> {
    Seq::new(ids.len(), |i: int| ids[i]@)
}

/// What a list of (identifier, position) pairs holds.
pub open spec fn pair_texts(pairs: Seq<(String, usize)>) -> Seq<(Seq<char>, int)> {
    Seq::new(pairs.len(), |i: int| (pairs[i].0@, pairs[i].1 as int))
}

/// The pairs number their identifiers one-to-one by `0..len`: every position
/// is below the number of pairs, and no position and no identifier occurs
/// twice.
pub open spec fn numbers_densely(pairs: Seq<(Seq<char>, int)>) -> bool {
    &&& forall|i: int| 0 <= i < pairs.len() ==> 0 <= (#[trigger] pairs[i]).1 < pairs.len()
    &&& forall|i: int, j: int|
        0 <= i < j < pairs.len() ==> (#[trigger] pairs[i]).1 != (#[trigger] pairs[j]).1
    &&& forall|i: int, j: int|
        0 <= i < j < pairs.len() ==> (#[trigger] pairs[i]).0 != (#[trigger] pairs[j]).0
}

/// The hash of a sequence of bytes: from a fixed start, each byte in turn is
/// mixed in and the result multiplied by a fixed prime, modulo 2^64.
pub open spec fn hash_of(bytes: Seq<u8>) -> u64
    decreases bytes.len(),
{
    if bytes.len() == 0 {
        0xcbf2_9ce4_8422_2325
    } else {
        (hash_of(bytes.drop_last()) ^ (bytes.last() as u64)).wrapping_mul(0x0000_0100_0000_01b3)
    }
}

/// The hash of an identifier: that of its UTF-8 bytes.
pub open spec fn text_hash(id: Seq<char>) -> u64 {
    hash_of(encode_utf8(id))
}

/// Computes the hash of an identifier.
pub fn hash_text(id: &str) -> (h: u64)
    ensures
        h == text_hash(id@),
{
    let bytes = id.as_bytes();
    let mut h: u64 = 0xcbf2_9ce4_8422_2325;
    let mut i: usize = 0;
    assert(bytes@.take(0) =~= Seq::empty());
    while i < bytes.len()
        invariant
            0 <= i <= bytes@.len(),
            h == hash_of(bytes@.take(i as int)),
        decreases bytes@.len() - i,
    {
        assert(bytes@.take(i + 1).drop_last() =~= bytes@.take(i as int));
        h = (h ^ (bytes[i] as u64)).wrapping_mul(0x0000_0100_0000_01b3);
        i += 1;
    }
    assert(bytes@.take(i as int) =~= bytes@);
    h
}

/// Position `i` stands in the bucket of its identifier's hash.
pub open spec fn placed(ids: Seq<String>, table: Map<u64, Vec<usize>>, i: int) -> bool {
    table.contains_key(text_hash(ids[i]@)) && holds(table[text_hash(ids[i]@)]@, i)
}

/// The bucket holds position `i`.
pub open spec fn holds(bucket: Seq<usize>, i: int) -> bool {
    exists|u: int| 0 <= u < bucket.len() && #[trigger] bucket[u] as int == i
}

/// Entry `t` of bucket `k` is a position whose identifier has hash `k`.
pub open spec fn fits(ids: Seq<String>, table: Map<u64, Vec<usize>>, k: u64, t: int) -> bool {
    table[k]@[t] < ids.len() && text_hash(ids[table[k]@[t] as int]@) == k
}

impl IndexMap {
    /// The identifiers in the order of their positions.
    pub closed spec fn view(&self) -> Seq<Seq<char>> {
        texts(self.ids@)
    }

    /// No identifier occurs twice, and the table of hashes holds every
    /// position, each in the bucket of its identifier's hash and in no other.
    pub closed spec fn wf(&self) -> bool {
        &&& texts(self.ids@).no_duplicates()
        &&& forall|i: int| 0 <= i < self.ids@.len() ==> #[trigger] placed(self.ids@, self.buckets@, i)
        &&& forall|k: u64, t: int|
            self.buckets@.contains_key(k) && 0 <= t < self.buckets@[k]@.len() ==> #[trigger] fits(
                self.ids@,
                self.buckets@,
                k,
                t,
            )
    }

    /// The position of `id`, if it has one.
    pub open spec fn position(&self, id: Seq<char>) -> Option<int> {
        if self@.contains(id) {
            Some(self@.index_of(id))
        } else {
            None
        }
    }

    /// A valid map holds no identifier twice.
    pub proof fn lemma_wf(&self)
        requires
            self.wf(),
        ensures
            self@.no_duplicates(),
    {
    }

    /// The empty map.
    pub fn new() -> (m: IndexMap)
        ensures
            m@.len() == 0,
            m.wf(),
    {
        let m = IndexMap { ids: Vec::new(), buckets: HashMap::new() };
        assert(texts(m.ids@) =~= Seq::empty());
        m
    }

    /// Number of identifiers.
    pub fn len(&self) -> (n: usize)
        ensures
            n == self@.len(),
    {
        self.ids.len()
    }

    /// The identifier at position `i`.
    pub fn id_at(&self, i: usize) -> (id: &String)
        requires
            i < self@.len(),
        ensures
            id@ == self@[i as int],
    {
        &self.ids[i]
    }

    /// The position of `id`, or `None` where the map does not hold it.
    pub fn get(&self, id: &str) -> (found: Option<usize>)
        requires
            self.wf(),
        ensures
            found.is_some() == self@.contains(id@),
            found matches Some(i) ==> i < self@.len() && self@[i as int] == id@,
    {
        let h = hash_text(id);
        let bucket = match self.buckets.get(&h) {
            Some(b) => b,
            None => {
                proof {
                    if self@.contains(id@) {
                        let i = choose|i: int| 0 <= i < self@.len() && self@[i] == id@;
                        assert(self.ids@[i]@ == id@);
                        assert(placed(self.ids@, self.buckets@, i));
                    }
                }
                return None;
            },
        };
        let mut t: usize = 0;
        while t < bucket.len()
            invariant
                self.wf(),
                h == text_hash(id@),
                self.buckets@.contains_key(h),
                *bucket == self.buckets@[h],
                0 <= t <= bucket@.len(),
                forall|u: int| 0 <= u < t ==> self@[bucket@[u] as int] != id@,
            decreases bucket@.len() - t,
        {
            let at: usize = bucket[t];
            assert(fits(self.ids@, self.buckets@, h, t as int));
            if same_text(self.ids[at].as_str(), id) {
                assert(texts(self.ids@)[at as int] == id@);
                return Some(at);
            }
            t += 1;
        }
        proof {
            if self@.contains(id@) {
                let i = choose|i: int| 0 <= i < self@.len() && self@[i] == id@;
                assert(self.ids@[i]@ == id@);
                assert(placed(self.ids@, self.buckets@, i));
                let u = choose|u: int| 0 <= u < bucket@.len() && #[trigger] bucket@[u] as int == i;
                assert(self@[bucket@[u] as int] != id@);
            }
        }
        None
    }

    /// The position of `id`, which is added at the end where the map did not
    /// hold it; the other identifiers keep their positions.
    pub fn insert(&mut self, id: &str) -> (at: usize)
        requires
            old(self).wf(),
        ensures
            final(self).wf(),
            old(self)@.contains(id@) ==> final(self)@ == old(self)@,
            !old(self)@.contains(id@) ==> final(self)@ == old(self)@.push(id@),
            at < final(self)@.len(),
            final(self)@[at as int] == id@,
    {
        match self.get(id) {
            Some(i) => i,
            None => {
                let ghost before = texts(self.ids@);
                let ghost table = self.buckets@;
                let ghost count = self.ids@.len();
                let h = hash_text(id);
                let at: usize = self.ids.len();
                self.ids.push(String::from_str(id));
                assert(texts(self.ids@) =~= before.push(id@));
                let mut bucket: Vec<usize> = match self.buckets.remove(&h) {
                    Some(b) => b,
                    None => Vec::new(),
                };
                let ghost earlier = bucket@;
                bucket.push(at);
                assert(bucket@[earlier.len() as int] == at);
                self.buckets.insert(h, bucket);
                proof {
                    assert(table.contains_key(h) ==> earlier == table[h]@);
                    assert(!table.contains_key(h) ==> earlier.len() == 0);
                    assert forall|i: int| 0 <= i < self.ids@.len() implies #[trigger] placed(
                        self.ids@,
                        self.buckets@,
                        i,
                    ) by {
                        let k = text_hash(self.ids@[i]@);
                        if i < count {
                            assert(self.ids@[i] == old(self).ids@[i]);
                            assert(placed(old(self).ids@, table, i));
                            if k == h {
                                let u = choose|u: int|
                                    0 <= u < earlier.len() && #[trigger] earlier[u] as int == i;
                                assert(self.buckets@[h]@[u] as int == i);
                            } else {
                                assert(self.buckets@[k] == table[k]);
                            }
                        } else {
                            assert(self.buckets@[h]@[earlier.len() as int] as int == i);
                        }
                    }
                    assert forall|k: u64, t: int|
                        self.buckets@.contains_key(k) && 0 <= t
                            < self.buckets@[k]@.len() implies #[trigger] fits(
                        self.ids@,
                        self.buckets@,
                        k,
                        t,
                    ) by {
                        if k == h {
                            if t < earlier.len() {
                                assert(fits(old(self).ids@, table, h, t));
                                assert(self.buckets@[k]@[t] == table[h]@[t]);
                                assert(self.ids@[table[h]@[t] as int] == old(self).ids@[table[h]@[t] as int]);
                            }
                        } else {
                            assert(fits(old(self).ids@, table, k, t));
                            assert(self.buckets@[k]@[t] == table[k]@[t]);
                            assert(self.ids@[table[k]@[t] as int] == old(self).ids@[table[k]@[t] as int]);
                        }
                    }
                }
                at
            },
        }
    }

    /// The map as (identifier, position) pairs, in the order of the positions.
    pub fn to_pairs(&self) -> (pairs: Vec<(String, usize)>)
        ensures
            pairs@.len() == self@.len(),
            forall|i: int|
                0 <= i < pairs@.len() ==> (#[trigger] pairs@[i]).0@ == self@[i] && pairs@[i].1 == i,
    {
        let mut pairs: Vec<(String, usize)> = Vec::new();
        let mut i: usize = 0;
        while i < self.ids.len()
            invariant
                0 <= i <= self.ids.len(),
                pairs@.len() == i,
                forall|j: int|
                    0 <= j < i ==> (#[trigger] pairs@[j]).0@ == self.ids@[j]@ && pairs@[j].1 == j,
            decreases self.ids.len() - i,
        {
            pairs.push((self.ids[i].clone(), i));
            i += 1;
        }
        pairs
    }

    /// Builds the map that the pairs describe: `Some` exactly where they
    /// number their identifiers one-to-one by `0..len`, and then every
    /// identifier stands at the position that its pair gives.
    pub fn from_pairs(pairs: &Vec<(String, usize)>) -> (built: Option<IndexMap>)
        ensures
            built.is_some() == numbers_densely(pair_texts(pairs@)),
            built matches Some(m) ==> {
                &&& m.wf()
                &&& m@.len() == pairs@.len()
                &&& forall|i: int|
                    0 <= i < pairs@.len() ==> m@[(#[trigger] pairs@[i]).1 as int] == pairs@[i].0@
            },
    {
        let n: usize = pairs.len();
        let ghost described = pair_texts(pairs@);
        // source[p] is the pair that claims position p, or n while none does.
        let mut source: Vec<usize> = Vec::new();
        let mut p: usize = 0;
        while p < n
            invariant
                0 <= p <= n,
                source@.len() == p,
                forall|q: int| 0 <= q < p ==> source@[q] == n,
            decreases n - p,
        {
            source.push(n);
            p += 1;
        }
        let mut i: usize = 0;
        while i < n
            invariant
                n == pairs@.len(),
                described == pair_texts(pairs@),
                0 <= i <= n,
                source@.len() == n,
                forall|q: int|
                    0 <= q < n && #[trigger] source@[q] != n ==> source@[q] < i
                        && pairs@[source@[q] as int].1 == q,
                forall|j: int|
                    0 <= j < i ==> (#[trigger] pairs@[j]).1 < n && source@[pairs@[j].1 as int] == j,
            decreases n - i,
        {
            let at: usize = pairs[i].1;
            if at >= n {
                assert(!(0 <= described[i as int].1 < described.len()));
                return None;
            }
            if source[at] != n {
                let ghost j = source@[at as int] as int;
                assert(described[j].1 == described[i as int].1);
                return None;
            }
            source.set(at, i);
            i += 1;
        }
        proof {
            // Every position is claimed: n pairs claim n different positions below n.
            let claimed = Seq::new(n as nat, |j: int| pairs@[j].1 as int);
            assert forall|a: int, b: int| 0 <= a < n && 0 <= b < n && a != b implies claimed[a]
                != claimed[b] by {
                assert(source@[pairs@[a].1 as int] == a);
                assert(source@[pairs@[b].1 as int] == b);
            }
            claimed.unique_seq_to_set();
            lemma_int_range(0, n as int);
            assert(claimed.to_set().subset_of(set_int_range(0, n as int))) by {
                assert forall|v: int| claimed.to_set().contains(v) implies 0 <= v < n by {
                    let j = choose|j: int| 0 <= j < claimed.len() && claimed[j] == v;
                    assert(pairs@[j].1 < n);
                }
            }
            lemma_subset_equality(claimed.to_set(), set_int_range(0, n as int));
            assert forall|q: int| 0 <= q < n implies source@[q] != n by {
                assert(set_int_range(0, n as int).contains(q));
                assert(claimed.to_set().contains(q));
                let j = choose|j: int| 0 <= j < claimed.len() && claimed[j] == q;
                assert(source@[pairs@[j].1 as int] == j);
            }
        }
        let mut m = IndexMap::new();
        let mut q: usize = 0;
        while q < n
            invariant
                n == pairs@.len(),
                described == pair_texts(pairs@),
                0 <= q <= n,
                source@.len() == n,
                m.wf(),
                m@.len() == q,
                forall|r: int|
                    0 <= r < n ==> (#[trigger] source@[r]) < n && pairs@[source@[r] as int].1 == r,
                forall|r: int| 0 <= r < q ==> (#[trigger] m@[r]) == pairs@[source@[r] as int].0@,
                forall|a: int| 0 <= a < n ==> source@[(#[trigger] pairs@[a]).1 as int] == a,
            decreases n - q,
        {
            let id: &String = &pairs[source[q]].0;
            if m.get(id.as_str()).is_some() {
                proof {
                    let r = choose|r: int| 0 <= r < m@.len() && m@[r] == id@;
                    let a = source@[r] as int;
                    let b = source@[q as int] as int;
                    assert(pairs@[a].1 == r);
                    assert(pairs@[b].1 == q);
                    assert(described[a].0 == described[b].0);
                }
                return None;
            }
            m.insert(id.as_str());
            q += 1;
        }
        proof {
            m.lemma_wf();
            assert forall|a: int| 0 <= a < n implies 0 <= (#[trigger] described[a]).1
                < described.len() by {
                assert(source@[pairs@[a].1 as int] == a);
            }
            assert forall|a: int, b: int| 0 <= a < b < n implies (#[trigger] described[a]).0 != (
            #[trigger] described[b]).0 by {
                let ra = pairs@[a].1 as int;
                let rb = pairs@[b].1 as int;
                assert(source@[ra] == a);
                assert(source@[rb] == b);
                assert(m@[ra] == pairs@[a].0@);
                assert(m@[rb] == pairs@[b].0@);
            }
            assert forall|a: int, b: int| 0 <= a < b < n implies (#[trigger] described[a]).1 != (
            #[trigger] described[b]).1 by {
                assert(source@[pairs@[a].1 as int] == a);
                assert(source@[pairs@[b].1 as int] == b);
            }
            assert(numbers_densely(described));
            assert forall|i: int| 0 <= i < pairs@.len() implies m@[(#[trigger] pairs@[i]).1 as int]
                == pairs@[i].0@ by {
                assert(source@[pairs@[i].1 as int] == i);
            }
        }
        Some(m)
    }
}

} // verus!
