use vstd::prelude::*;
use vstd::set_lib::{lemma_int_range, lemma_len_subset, lemma_map_size, set_int_range};

use std::collections::HashMap;

use slab::Slab;

use crate::store::{
    compacted, slab_capacity, slab_clear, slab_compact, slab_entries, slab_get, slab_insert, slab_remove,
    slab_reserve, slab_set, slab_shrink_to_fit, slab_with_capacity, SlotData,
};

verus! {

broadcast use vstd::std_specs::hash::group_hash_axioms;

/// The n-th key counted on from `start`, going round past the largest.
pub open spec fn key_after(start: usize, n: int) -> usize {
    ((start + n) % (usize::MAX as int + 1)) as usize
}

proof fn lemma_wrap(x: int)
    requires
        0 <= x < 2 * (usize::MAX as int + 1),
    ensures
        x % (usize::MAX as int + 1) == if x <= usize::MAX { x } else { x - (usize::MAX as int + 1) },
{
    let m = usize::MAX as int + 1;
    if x > usize::MAX {
        vstd::arithmetic::div_mod::lemma_mod_sub_multiples_vanish(x, m);
        vstd::arithmetic::div_mod::lemma_small_mod((x - m) as nat, m as nat);
    } else {
        vstd::arithmetic::div_mod::lemma_small_mod(x as nat, m as nat);
    }
}

proof fn lemma_key_after_step(start: usize, t: int)
    requires
        0 <= t < usize::MAX,
    ensures
        key_after(start, t + 1) == key_after(start, t).wrapping_add(1),
{
    lemma_wrap(start + t);
    lemma_wrap(start + t + 1);
}

/// A finite set of keys leaves one of any `len + 1` keys in a row free.
proof fn lemma_free_key_in_window(taken: Set<usize>, start: usize)
    requires
        taken.finite(),
        taken.len() < usize::MAX,
    ensures
        exists|j: int| 0 <= j <= taken.len() && !taken.contains(key_after(start, j)),
{
    if forall|j: int| 0 <= j <= taken.len() ==> taken.contains(key_after(start, j)) {
        let n = taken.len() as int;
        let window = set_int_range(0, n + 1);
        let f = |j: int| key_after(start, j);
        lemma_int_range(0, n + 1);
        assert(vstd::relations::injective_on(f, window)) by {
            assert forall|a: int, b: int| window.contains(a) && window.contains(b) && #[trigger] f(a) == #[trigger] f(b) implies a == b by {
                lemma_wrap(start + a);
                lemma_wrap(start + b);
            }
        }
        let image = window.map(f);
        lemma_map_size(window, image, f);
        assert(image.subset_of(taken)) by {
            assert forall|x: usize| image.contains(x) implies taken.contains(x) by {
                let j = choose|j: int| window.contains(j) && f(j) == x;
            }
        }
        lemma_len_subset(image, taken);
    }
}

/// Where the index `i` has got to after the first `m` moves of a compaction.
pub open spec fn moved_to(moves: Seq<(usize, usize)>, m: int, i: usize) -> usize {
    if exists|j: int| 0 <= j < m && (#[trigger] moves[j]).0 == i {
        moves[choose|j: int| 0 <= j < m && (#[trigger] moves[j]).0 == i].1
    } else {
        i
    }
}

/// An occupied index that the first `m` moves have not moved from is where it was.
proof fn lemma_moved_unmoved(moves: Seq<(usize, usize)>, m: int, i: usize)
    requires
        0 <= m < moves.len(),
        moves[m].0 == i,
        forall|a: int, b: int| 0 <= a < moves.len() && 0 <= b < moves.len() && a != b ==> (#[trigger] moves[a]).0 != (#[trigger] moves[b]).0,
    ensures
        moved_to(moves, m, i) == i,
        moved_to(moves, m + 1, i) == moves[m].1,
{
    assert(!exists|j: int| 0 <= j < m && (#[trigger] moves[j]).0 == i);
    let j = choose|j: int| 0 <= j < m + 1 && (#[trigger] moves[j]).0 == i;
    assert(j == m);
}

/// A move from elsewhere leaves where `i` has got to as it was.
proof fn lemma_moved_other(moves: Seq<(usize, usize)>, m: int, i: usize)
    requires
        0 <= m < moves.len(),
        moves[m].0 != i,
        forall|a: int, b: int| 0 <= a < moves.len() && 0 <= b < moves.len() && a != b ==> (#[trigger] moves[a]).0 != (#[trigger] moves[b]).0,
    ensures
        moved_to(moves, m + 1, i) == moved_to(moves, m, i),
{
    if exists|j: int| 0 <= j < m + 1 && (#[trigger] moves[j]).0 == i {
        let j1 = choose|j: int| 0 <= j < m + 1 && (#[trigger] moves[j]).0 == i;
        assert(j1 < m);
        assert(exists|j: int| 0 <= j < m && (#[trigger] moves[j]).0 == i);
        let j0 = choose|j: int| 0 <= j < m && (#[trigger] moves[j]).0 == i;
        assert(j0 == j1);
    }
}

/// After all the moves of a compaction, an occupied index has got to where its entry is.
proof fn lemma_moved_all(before: Map<usize, SlotData>, moves: Seq<(usize, usize)>, after: Map<usize, SlotData>, i: usize)
    requires
        compacted(before, moves, after),
        before.contains_key(i),
    ensures
        after.contains_key(moved_to(moves, moves.len() as int, i)),
        after[moved_to(moves, moves.len() as int, i)] == before[i],
{
    if exists|j: int| 0 <= j < moves.len() && (#[trigger] moves[j]).0 == i {
        let j = choose|j: int| 0 <= j < moves.len() && (#[trigger] moves[j]).0 == i;
        assert(after.contains_key(moves[j].1));
    } else {
        assert(!(exists|j: int| 0 <= j < moves.len() && moves[j].0 == i));
    }
}

/// The values of a queue and what it keeps of each, under keys that stay valid when the
/// slab underneath is compacted: `key_map` takes a key to its slab index and `index_map`
/// back.
#[derive(Debug)]
pub struct SlabStorage<T> {
    inner: Slab<SlotData>,
    values: Vec<Option<T>>,
    key_map: HashMap<usize, usize>,
    index_map: HashMap<usize, usize>,
    next_key_index: usize,
}

impl<T> SlabStorage<T> {
    pub closed spec fn slab_map(&self) -> Map<usize, SlotData> {
        slab_entries(self.inner)
    }

    /// What is kept of each key.
    pub closed spec fn data(&self) -> Map<usize, SlotData> {
        Map::new(|k: usize| self.key_map@.contains_key(k), |k: usize| self.slab_map()[self.key_map@[k]])
    }

    /// The value of the key `k`.
    pub closed spec fn value(&self, k: usize) -> T {
        self.values@[self.key_map@[k] as int].unwrap()
    }

    pub closed spec fn wf(&self) -> bool {
        &&& self.slab_map().dom().finite()
        &&& forall|k: usize| #[trigger] self.key_map@.contains_key(k) ==> self.index_map@.contains_key(self.key_map@[k])
            && self.index_map@[self.key_map@[k]] == k
        &&& forall|i: usize| #[trigger] self.index_map@.contains_key(i) <==> self.slab_map().contains_key(i)
        &&& forall|i: usize| #[trigger] self.index_map@.contains_key(i) ==> self.key_map@.contains_key(self.index_map@[i])
            && self.key_map@[self.index_map@[i]] == i
        &&& forall|i: usize| #[trigger] self.slab_map().contains_key(i) ==> i < self.values@.len() && self.values@[i as int].is_some()
    }

    /// Only finitely many keys have an entry.
    pub proof fn lemma_data_finite(&self)
        requires
            self.wf(),
        ensures
            self.data().dom().finite(),
    {
        assert(self.data().dom() =~= self.key_map@.dom());
    }

    /// As many keys have an entry as the slab has occupied indices.
    pub proof fn lemma_len_matches(&self)
        requires
            self.wf(),
        ensures
            self.data().len() == self.slab_map().dom().len(),
    {
        let f = |k: usize| self.key_map@[k];
        let x = self.key_map@.dom();
        let y = self.slab_map().dom();
        assert(self.data().dom() =~= x);
        assert(vstd::relations::injective_on(f, x)) by {
            assert forall|a: usize, b: usize| x.contains(a) && x.contains(b) && #[trigger] f(a) == #[trigger] f(b) implies a == b by {
                assert(self.index_map@[self.key_map@[a]] == a);
                assert(self.index_map@[self.key_map@[b]] == b);
            }
        }
        assert(x.map(f) =~= y) by {
            assert forall|i: usize| y.contains(i) implies x.map(f).contains(i) by {
                assert(self.index_map@.contains_key(i));
                let k = self.index_map@[i];
                assert(x.contains(k) && f(k) == i);
            }
        }
        lemma_map_size(x, y, f);
    }

    pub fn with_capacity(capacity: usize) -> (r: SlabStorage<T>)
        ensures
            r.wf(),
            r.data() =~= Map::<usize, SlotData>::empty(),
    {
        let r = SlabStorage {
            inner: slab_with_capacity(capacity),
            values: Vec::new(),
            key_map: HashMap::new(),
            index_map: HashMap::new(),
            next_key_index: 0,
        };
        proof {
            assert(r.slab_map().dom() =~= Set::<usize>::empty());
        }
        r
    }

    pub fn len(&self) -> (r: usize)
        requires
            self.wf(),
        ensures
            r == self.data().len(),
    {
        proof {
            assert(self.data().dom() =~= self.key_map@.dom());
        }
        self.key_map.len()
    }

    pub fn capacity(&self) -> (r: usize) {
        slab_capacity(&self.inner)
    }

    pub fn contains(&self, k: usize) -> (r: bool)
        requires
            self.wf(),
        ensures
            r == self.data().contains_key(k),
    {
        self.key_map.contains_key(&k)
    }

    /// The slab index of the key `k`.
    fn index_of(&self, k: usize) -> (r: usize)
        requires
            self.wf(),
            self.data().contains_key(k),
        ensures
            r == self.key_map@[k],
            self.slab_map().contains_key(r),
    {
        match self.key_map.get(&k) {
            Some(i) => *i,
            None => {
                proof {
                    assert(false);
                }
                0
            },
        }
    }

    pub fn get(&self, k: usize) -> (r: SlotData)
        requires
            self.wf(),
            self.data().contains_key(k),
        ensures
            r == self.data()[k],
    {
        let i = self.index_of(k);
        slab_get(&self.inner, i)
    }

    pub fn set(&mut self, k: usize, d: SlotData)
        requires
            old(self).wf(),
            old(self).data().contains_key(k),
        ensures
            final(self).wf(),
            final(self).data() == old(self).data().insert(k, d),
            forall|j: usize| #[trigger] final(self).data().contains_key(j) ==> final(self).value(j) == old(self).value(j),
    {
        let i = self.index_of(k);
        slab_set(&mut self.inner, i, d);
        proof {
            assert forall|j: usize| #[trigger] self.data().contains_key(j) implies self.data()[j] == old(self).data().insert(k, d)[j] by {
                if j != k {
                    assert(old(self).index_map@[old(self).key_map@[j]] == j);
                }
            }
            assert(self.data() =~= old(self).data().insert(k, d));
        }
    }

    /// A key that no entry has, from the next one to try on.
    fn create_new_key(&mut self) -> (r: usize)
        requires
            old(self).key_map@.len() < usize::MAX,
        ensures
            !final(self).key_map@.contains_key(r),
            final(self).key_map == old(self).key_map,
            final(self).index_map == old(self).index_map,
            final(self).inner == old(self).inner,
            final(self).values == old(self).values,
    {
        let ghost start = self.next_key_index;
        let n = self.key_map.len();
        proof {
            lemma_free_key_in_window(self.key_map@.dom(), start);
            lemma_wrap(start as int);
        }
        let mut tried: usize = 0;
        while self.key_map.contains_key(&self.next_key_index)
            invariant
                self.key_map == old(self).key_map,
                self.index_map == old(self).index_map,
                self.inner == old(self).inner,
                self.values == old(self).values,
                n == self.key_map@.len(),
                n < usize::MAX,
                tried <= n,
                self.next_key_index == key_after(start, tried as int),
                forall|j: int| 0 <= j < tried ==> self.key_map@.contains_key(key_after(start, j)),
                exists|j: int| 0 <= j <= n && !self.key_map@.dom().contains(key_after(start, j)),
            decreases n - tried,
        {
            let ghost before_step = self.next_key_index;
            proof {
                if tried == n {
                    let j = choose|j: int| 0 <= j <= n && !self.key_map@.dom().contains(key_after(start, j));
                    if j < tried {
                        assert(self.key_map@.contains_key(key_after(start, j)));
                    }
                    assert(false);
                }
            }
            self.next_key_index = self.next_key_index.wrapping_add(1);
            tried = tried + 1;
            proof {
                lemma_key_after_step(start, tried - 1);
            }
        }
        self.next_key_index
    }

    /// Keeps `d` and `value` under a new key, which is returned.
    pub fn insert(&mut self, d: SlotData, value: T) -> (r: usize)
        requires
            old(self).wf(),
            old(self).data().len() < usize::MAX,
        ensures
            final(self).wf(),
            !old(self).data().contains_key(r),
            final(self).data() == old(self).data().insert(r, d),
            final(self).value(r) == value,
            forall|j: usize| #[trigger] old(self).data().contains_key(j) ==> final(self).value(j) == old(self).value(j),
    {
        proof {
            assert(self.data().dom() =~= self.key_map@.dom());
        }
        let i = slab_insert(&mut self.inner, d);
        let ghost v0 = self.values@;
        while self.values.len() <= i
            invariant
                self.values@.len() >= v0.len(),
                forall|j: int| 0 <= j < v0.len() ==> self.values@[j] == v0[j],
                self.key_map == old(self).key_map,
                self.index_map == old(self).index_map,
                self.next_key_index == old(self).next_key_index,
                slab_entries(self.inner) == slab_entries(old(self).inner).insert(i, d),
            decreases i + 1 - self.values@.len(),
        {
            self.values.push(None);
        }
        self.values.set(i, Some(value));
        proof {
            assert(!old(self).index_map@.contains_key(i));
            assert forall|j: usize| #[trigger] self.slab_map().contains_key(j) implies j < self.values@.len() && self.values@[j as int].is_some() by {
                if j != i {
                    assert(old(self).slab_map().contains_key(j));
                }
            }
        }
        let key = if self.key_map.contains_key(&i) {
            self.create_new_key()
        } else {
            i
        };
        self.key_map.insert(key, i);
        self.index_map.insert(i, key);
        proof {
            assert forall|k: usize| #[trigger] self.key_map@.contains_key(k) implies self.index_map@.contains_key(self.key_map@[k])
                && self.index_map@[self.key_map@[k]] == k by {
                if k != key {
                    assert(old(self).key_map@.contains_key(k));
                    assert(old(self).key_map@[k] != i);
                }
            }
            assert forall|j: usize| #[trigger] self.index_map@.contains_key(j) implies self.key_map@.contains_key(self.index_map@[j])
                && self.key_map@[self.index_map@[j]] == j by {
                if j != i {
                    assert(old(self).index_map@.contains_key(j));
                    assert(old(self).index_map@[j] != key);
                }
            }
            assert forall|j: usize| #[trigger] old(self).data().contains_key(j) implies self.value(j) == old(self).value(j) by {
                assert(old(self).key_map@[j] != i);
            }
            assert forall|j: usize| #[trigger] self.data().contains_key(j) implies self.data()[j] == old(self).data().insert(key, d)[j] by {
                if j != key {
                    assert(old(self).key_map@[j] != i);
                }
            }
            assert(self.data() =~= old(self).data().insert(key, d));
        }
        key
    }

    /// Takes the entry of the key `k` out: what was kept of it, and its value.
    pub fn remove(&mut self, k: usize) -> (r: (SlotData, T))
        requires
            old(self).wf(),
            old(self).data().contains_key(k),
        ensures
            final(self).wf(),
            r == (old(self).data()[k], old(self).value(k)),
            final(self).data() == old(self).data().remove(k),
            forall|j: usize| #[trigger] final(self).data().contains_key(j) ==> final(self).value(j) == old(self).value(j),
    {
        let i = self.index_of(k);
        self.key_map.remove(&k);
        self.index_map.remove(&i);
        let d = slab_remove(&mut self.inner, i);
        let mut slot: Option<T> = None;
        self.values.set_and_swap(i, &mut slot);
        proof {
            assert forall|j: usize| #[trigger] self.key_map@.contains_key(j) implies self.index_map@.contains_key(self.key_map@[j])
                && self.index_map@[self.key_map@[j]] == j by {
                assert(old(self).key_map@.contains_key(j));
                assert(old(self).key_map@[j] != i);
            }
            assert forall|j: usize| #[trigger] self.index_map@.contains_key(j) implies self.key_map@.contains_key(self.index_map@[j])
                && self.key_map@[self.index_map@[j]] == j by {
                assert(old(self).index_map@.contains_key(j));
            }
            assert forall|j: usize| #[trigger] self.slab_map().contains_key(j) implies j < self.values@.len() && self.values@[j as int].is_some() by {
                assert(old(self).slab_map().contains_key(j));
            }
            assert forall|j: usize| #[trigger] self.data().contains_key(j) implies self.value(j) == old(self).value(j) && self.data()[j] == old(self).data()[j] by {
                assert(old(self).key_map@[j] != i);
            }
            assert(self.data() =~= old(self).data().remove(k));
        }
        (d, slot.unwrap())
    }

    /// Drops every entry.
    pub fn clear(&mut self)
        ensures
            final(self).wf(),
            final(self).data() =~= Map::<usize, SlotData>::empty(),
    {
        slab_clear(&mut self.inner);
        self.key_map.clear();
        self.index_map.clear();
        self.values = Vec::new();
        proof {
            assert(self.slab_map().dom() =~= Set::<usize>::empty());
        }
    }

    /// Makes room for `additional` more entries.
    pub fn reserve(&mut self, additional: usize)
        requires
            old(self).wf(),
            additional <= 1_073_741_823,
        ensures
            final(self).wf(),
            final(self).data() == old(self).data(),
            forall|j: usize| #[trigger] final(self).data().contains_key(j) ==> final(self).value(j) == old(self).value(j),
    {
        slab_reserve(&mut self.inner, additional);
        proof {
            assert(self.data() =~= old(self).data());
        }
    }

    /// Gives back memory the slab does not use; keys and entries stay as they are.
    pub fn shrink_to_fit(&mut self)
        requires
            old(self).wf(),
        ensures
            final(self).wf(),
            final(self).data() == old(self).data(),
            forall|j: usize| #[trigger] final(self).data().contains_key(j) ==> final(self).value(j) == old(self).value(j),
    {
        slab_shrink_to_fit(&mut self.inner);
        proof {
            assert(self.data() =~= old(self).data());
        }
    }

    /// Packs the slab's entries into the lowest indices; every key keeps its entry and value.
    pub fn compact(&mut self)
        requires
            old(self).wf(),
        ensures
            final(self).wf(),
            final(self).data() == old(self).data(),
            forall|j: usize| #[trigger] final(self).data().contains_key(j) ==> final(self).value(j) == old(self).value(j),
            forall|i: usize| #[trigger] final(self).slab_map().contains_key(i) ==> i < final(self).data().len(),
    {
        let ghost s0 = self.slab_map();
        let ghost km0 = self.key_map@;
        let ghost v0 = self.values@;
        let moves = slab_compact(&mut self.inner);
        let ghost s1 = self.slab_map();
        let ghost mv = moves@;
        proof {
            assert forall|k: usize| #[trigger] km0.contains_key(k) implies moved_to(mv, 0, km0[k]) == km0[k] by {}
            assert forall|i: usize| #[trigger] s0.contains_key(i) implies exists|k: usize| #[trigger] km0.contains_key(k) && km0[k] == i by {
                assert(old(self).index_map@.contains_key(i));
                let k = old(self).index_map@[i];
                assert(km0.contains_key(k) && km0[k] == i);
            }
        }
        proof {
            assert forall|k1: usize, k2: usize| #[trigger] km0.contains_key(k1) && #[trigger] km0.contains_key(k2) && km0[k1]
                == km0[k2] implies k1 == k2 by {
                assert(old(self).index_map@[km0[k1]] == k1);
            }
        }
        let mut m: usize = 0;
        while m < moves.len()
            invariant
                compacted(s0, mv, s1),
                mv == moves@,
                s1 == self.slab_map(),
                m <= mv.len(),
                forall|k: usize| #[trigger] km0.contains_key(k) ==> s0.contains_key(km0[k]) && km0[k] < v0.len() && v0[km0[k] as int].is_some(),
                forall|i: usize| #[trigger] s0.contains_key(i) ==> exists|k: usize| #[trigger] km0.contains_key(k) && km0[k] == i,
                forall|k1: usize, k2: usize| #[trigger] km0.contains_key(k1) && #[trigger] km0.contains_key(k2) && km0[k1] == km0[k2] ==> k1 == k2,
                self.key_map@.dom() == km0.dom(),
                forall|k: usize| #[trigger] km0.contains_key(k) ==> self.key_map@[k] == moved_to(mv, m as int, km0[k]),
                forall|k: usize| #[trigger] km0.contains_key(k) ==> self.index_map@.contains_key(self.key_map@[k]) && self.index_map@[self.key_map@[k]] == k,
                forall|i: usize| #[trigger] self.index_map@.contains_key(i) ==> self.key_map@.contains_key(self.index_map@[i]) && self.key_map@[self.index_map@[i]] == i,
                forall|k: usize| #[trigger] km0.contains_key(k) ==> self.key_map@[k] < self.values@.len() && self.values@[self.key_map@[k] as int] == v0[km0[k] as int],
            decreases mv.len() - m,
        {
            let (from, to) = moves[m];
            let ghost k0 = choose|k: usize| #[trigger] km0.contains_key(k) && km0[k] == from;
            proof {
                assert(mv[m as int] == (from, to));
                assert(s0.contains_key(from));
                assert(!s0.contains_key(to));
                lemma_moved_unmoved(mv, m as int, from);
                assert(self.key_map@[k0] == from);
                assert(self.index_map@[from] == k0);
                // `to` is where no key is yet.
                if self.index_map@.contains_key(to) {
                    let k1 = self.index_map@[to];
                    assert(self.key_map@[k1] == to);
                    if exists|j: int| 0 <= j < m && (#[trigger] mv[j]).0 == km0[k1] {
                        let j = choose|j: int| 0 <= j < m && (#[trigger] mv[j]).0 == km0[k1];
                        assert(mv[j].1 == to);
                        assert(mv[j] != mv[m as int]);
                    }
                    assert(false);
                }
            }
            let ghost km_before = self.key_map@;
            let ghost im_before = self.index_map@;
            let ghost vals_before = self.values@;
            let mut taken: Option<T> = None;
            self.values.set_and_swap(from, &mut taken);
            let ghost vals_swapped = self.values@;
            while self.values.len() <= to
                invariant
                    self.values@.len() >= vals_swapped.len(),
                    forall|j: int| 0 <= j < vals_swapped.len() ==> self.values@[j] == vals_swapped[j],
                    self.key_map@ == km_before,
                    self.index_map@ == im_before,
                    self.slab_map() == s1,
                decreases to + 1 - self.values@.len(),
            {
                self.values.push(None);
            }
            let ghost vals_pushed = self.values@;
            self.values.set(to, taken);
            let key = match self.index_map.remove(&from) {
                Some(key) => key,
                None => from,
            };
            self.index_map.insert(to, key);
            self.key_map.insert(key, to);
            proof {
                assert(key == k0);
                lemma_moved_unmoved(mv, m as int, from);
                assert forall|k: usize| #[trigger] km0.contains_key(k) implies self.key_map@[k] == moved_to(mv, m + 1, km0[k]) by {
                    if k != k0 {
                        assert(km0[k] != from);
                        lemma_moved_other(mv, m as int, km0[k]);
                    }
                }
                assert forall|k: usize| #[trigger] km0.contains_key(k) implies self.index_map@.contains_key(self.key_map@[k])
                    && self.index_map@[self.key_map@[k]] == k && self.key_map@[k] < self.values@.len()
                    && self.values@[self.key_map@[k] as int] == v0[km0[k] as int] by {
                    if k != k0 {
                        let p = km_before[k];
                        assert(im_before[p] == k);
                        assert(p != from);
                        assert(p != to);
                        assert(self.values@[p as int] == vals_pushed[p as int]);
                        assert(vals_pushed[p as int] == vals_swapped[p as int]);
                        assert(self.values@[p as int] == vals_before[p as int]);
                    }
                }
                assert forall|i: usize| #[trigger] self.index_map@.contains_key(i) implies self.key_map@.contains_key(self.index_map@[i])
                    && self.key_map@[self.index_map@[i]] == i by {
                    if i != to {
                        assert(im_before.contains_key(i));
                        assert(i != from);
                        let k = im_before[i];
                        assert(km_before[k] == i);
                        assert(k != k0);
                    }
                }
                assert(self.key_map@.dom() =~= km0.dom());
            }
            m = m + 1;
        }
        proof {
            let n = mv.len() as int;
            assert forall|i: usize| #[trigger] self.index_map@.contains_key(i) <==> self.slab_map().contains_key(i) by {
                if self.index_map@.contains_key(i) {
                    let k = self.index_map@[i];
                    lemma_moved_all(s0, mv, s1, km0[k]);
                }
                if s1.contains_key(i) {
                    if exists|j: int| 0 <= j < n && (#[trigger] mv[j]).1 == i {
                        let j = choose|j: int| 0 <= j < n && (#[trigger] mv[j]).1 == i;
                        let from = mv[j].0;
                        let k = choose|k: usize| #[trigger] km0.contains_key(k) && km0[k] == from;
                        let j2 = choose|j2: int| 0 <= j2 < n && (#[trigger] mv[j2]).0 == from;
                        assert(j2 == j);
                        assert(self.key_map@[k] == i);
                    } else {
                        assert(s0.contains_key(i));
                        if exists|j: int| 0 <= j < n && (#[trigger] mv[j]).0 == i {
                            let j = choose|j: int| 0 <= j < n && (#[trigger] mv[j]).0 == i;
                            assert(!s1.contains_key(mv[j].0));
                        }
                        let k = choose|k: usize| #[trigger] km0.contains_key(k) && km0[k] == i;
                        assert(self.key_map@[k] == i);
                    }
                }
            }
            assert forall|i: usize| #[trigger] self.slab_map().contains_key(i) implies i < self.values@.len() && self.values@[i as int].is_some() by {
                let k = self.index_map@[i];
                assert(self.key_map@[k] == i);
            }
            assert(self.slab_map().dom() =~= self.index_map@.dom());
            assert forall|k: usize| #[trigger] self.data().contains_key(k) implies self.data()[k] == old(self).data()[k]
                && self.value(k) == old(self).value(k) by {
                lemma_moved_all(s0, mv, s1, km0[k]);
            }
            assert(self.data() =~= old(self).data());
            self.lemma_len_matches();
        }
    }
}

} // verus!
