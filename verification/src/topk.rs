//! Fixed-size stores of the nearest items seen so far.

use crate::ieee::{is_nan, lt, place, INFINITY, NEG_INFINITY};
use crate::nearest::{
    farthest, frauds, is_farthest, keep, lemma_all_kept, lemma_farthest, lemma_farthest_unique,
    lemma_nearest_push, nearest_of,
};
use vstd::prelude::*;

verus! {

/// The `N` candidates of smallest quantized distance.
///
/// Slots fill in order of arrival; once full, a nearer candidate takes the slot
/// of the farthest one.
pub struct TopKN<const N: usize> {
    pub dists: [u32; N],
    pub indices: [u32; N],
    pub max_dist: u32,
    pub max_idx: usize,
    pub count: usize,
}

/// A store of fifty candidates.
pub type TopK50 = TopKN<50>;

impl<const N: usize> View for TopKN<N> {
    type V = Seq<(int, int)>;

    /// The candidates kept, slot by slot: distance, then index.
    open spec fn view(&self) -> Seq<(int, int)> {
        Seq::new(self.count as nat, |i: int| (self.dists[i] as int, self.indices[i] as int))
    }
}

impl<const N: usize> TopKN<N> {
    /// The occupied slots fit, and `max_idx` is the slot to give up next.
    pub open spec fn wf(&self) -> bool {
        &&& self.count <= N
        &&& self.count > 0 ==> {
            &&& self.max_idx < self.count
            &&& self.dists[self.max_idx as int] == self.max_dist
            &&& forall|j: int| 0 <= j < self.count ==> (#[trigger] self.dists[j]) <= self.max_dist
            &&& self.max_dist > 0 ==> forall|j: int|
                0 <= j < self.max_idx ==> (#[trigger] self.dists[j]) < self.max_dist
        }
    }

    /// An empty store.
    pub fn new() -> (r: Self)
        ensures
            r.wf(),
            r@ == Seq::<(int, int)>::empty(),
    {
        TopKN {
            dists: [u32::MAX;N],
            indices: [0u32;N],
            max_dist: u32::MAX,
            max_idx: 0,
            count: 0,
        }
    }

    /// Offers the candidate `global_idx` at distance `dist`.
    pub fn push(&mut self, dist: u32, global_idx: u32)
        requires
            old(self).wf(),
            N > 0,
        ensures
            final(self).wf(),
            final(self)@ == keep(old(self)@, N as nat, (dist as int, global_idx as int)),
            old(self).count == N && dist >= old(self).max_dist ==> *final(self) == *old(self),
    {
        if self.count < N {
            let i: usize = self.count;
            self.dists[i] = dist;
            self.indices[i] = global_idx;
            self.count = self.count + 1;
            if dist > self.max_dist || i == 0 {
                self.max_dist = dist;
                self.max_idx = i;
            }
            assert(self@ =~= old(self)@.push((dist as int, global_idx as int)));
            if self.count == N {
                self.find_max();
            }
        } else if dist < self.max_dist {
            let idx: usize = self.max_idx;
            proof {
                assert(is_farthest(self@, idx as int)) by {
                    assert forall|j: int| 0 <= j < self@.len() implies (#[trigger] self@[j]).0
                        <= self@[idx as int].0 by {
                        assert(self.dists[j] <= self.max_dist);
                    }
                    assert forall|j: int| 0 <= j < idx implies (#[trigger] self@[j]).0
                        < self@[idx as int].0 by {
                        assert(self.dists[j] < self.max_dist);
                    }
                }
                lemma_farthest_unique(self@, idx as int);
            }
            self.dists[idx] = dist;
            self.indices[idx] = global_idx;
            assert(self@ =~= old(self)@.update(idx as int, (dist as int, global_idx as int)));
            self.find_max();
        } else {
            proof {
                lemma_farthest(self@);
                let f = farthest(self@);
                assert(self.dists[f] <= self.max_dist);
            }
        }
    }

    /// The indices of the candidates kept, slot by slot.
    pub fn kept(&self) -> (r: Vec<u32>)
        requires
            self.wf(),
        ensures
            r@.len() == self@.len(),
            forall|i: int| 0 <= i < r@.len() ==> (#[trigger] r@[i]) == self@[i].1,
    {
        let mut r: Vec<u32> = Vec::new();
        for i in 0..self.count
            invariant
                self.wf(),
                r@.len() == i,
                forall|j: int| 0 <= j < i ==> (#[trigger] r@[j]) == self@[j].1,
        {
            r.push(self.indices[i]);
        }
        r
    }

    /// Recomputes which slot of a full store is the farthest.
    fn find_max(&mut self)
        requires
            old(self).count == N,
            old(self).max_idx < N,
        ensures
            final(self).wf(),
            final(self).dists == old(self).dists,
            final(self).indices == old(self).indices,
            final(self).count == old(self).count,
    {
        self.max_dist = 0;
        for j in 0..N
            invariant
                self.dists == old(self).dists,
                self.indices == old(self).indices,
                self.count == old(self).count == N,
                self.max_idx < N,
                forall|i: int| 0 <= i < j ==> (#[trigger] self.dists[i]) <= self.max_dist,
                self.max_dist > 0 ==> {
                    &&& self.max_idx < j
                    &&& self.dists[self.max_idx as int] == self.max_dist
                    &&& forall|i: int|
                        0 <= i < self.max_idx ==> (#[trigger] self.dists[i]) < self.max_dist
                },
        {
            if self.dists[j] > self.max_dist {
                self.max_dist = self.dists[j];
                self.max_idx = j;
            }
        }
    }
}

/// The five nearest neighbours, each with its label.
///
/// Distances are single-precision bit patterns. A slot that no neighbour has
/// taken yet is infinitely far and carries label 0.
pub struct TopK5 {
    pub dists: [u32; 5],
    pub labels: [u8; 5],
    pub max_dist: u32,
    pub max_idx: usize,
}

/// Five infinitely far slots with label 0.
pub open spec fn vacant() -> Seq<(int, int)> {
    Seq::new(5, |i: int| (INFINITY as int, 0int))
}

impl View for TopK5 {
    type V = Seq<(int, int)>;

    /// The neighbours kept, slot by slot: place of the distance, then label.
    open spec fn view(&self) -> Seq<(int, int)> {
        Seq::new(5, |i: int| (place(self.dists[i]), self.labels[i] as int))
    }
}

impl TopK5 {
    /// Every distance is a number, and `max_idx` is the slot to give up next.
    pub open spec fn wf(&self) -> bool {
        &&& self.max_idx < 5
        &&& !is_nan(self.max_dist)
        &&& place(self.dists[self.max_idx as int]) == place(self.max_dist)
        &&& forall|j: int|
            0 <= j < 5 ==> !is_nan(#[trigger] self.dists[j]) && place(self.dists[j]) <= place(
                self.max_dist,
            )
        &&& place(self.max_dist) > place(NEG_INFINITY) ==> forall|j: int|
            0 <= j < self.max_idx ==> place(#[trigger] self.dists[j]) < place(self.max_dist)
    }

    /// A store with all slots vacant.
    pub fn new() -> (r: Self)
        ensures
            r.wf(),
            r@ == vacant(),
    {
        let r = TopK5 {
            dists: [INFINITY;5],
            labels: [0u8;5],
            max_dist: INFINITY,
            max_idx: 0,
        };
        assert(r@ =~= vacant());
        r
    }

    /// Offers a neighbour at distance `dist` with the given label.
    pub fn push(&mut self, dist: u32, label: u8)
        requires
            old(self).wf(),
        ensures
            final(self).wf(),
            final(self)@ == keep(old(self)@, 5, (place(dist), label as int)),
            place(dist) >= place(old(self).max_dist) ==> *final(self) == *old(self),
    {
        if lt(dist, self.max_dist) {
            let idx: usize = self.max_idx;
            proof {
                assert(is_farthest(self@, idx as int)) by {
                    assert forall|j: int| 0 <= j < self@.len() implies (#[trigger] self@[j]).0
                        <= self@[idx as int].0 by {
                        assert(place(self.dists[j]) <= place(self.max_dist));
                    }
                    assert forall|j: int| 0 <= j < idx implies (#[trigger] self@[j]).0
                        < self@[idx as int].0 by {
                        assert(place(self.dists[j]) < place(self.max_dist));
                    }
                }
                lemma_farthest_unique(self@, idx as int);
            }
            self.dists[idx] = dist;
            self.labels[idx] = label;
            assert(self@ =~= old(self)@.update(idx as int, (place(dist), label as int)));
            self.max_dist = NEG_INFINITY;
            for i in 0..5usize
                invariant
                    self.dists@ == old(self).dists@.update(idx as int, dist),
                    self.labels@ == old(self).labels@.update(idx as int, label),
                    self.max_idx < 5,
                    !is_nan(self.max_dist),
                    place(self.max_dist) >= place(NEG_INFINITY),
                    forall|j: int| 0 <= j < 5 ==> !is_nan(#[trigger] self.dists[j]),
                    forall|j: int|
                        0 <= j < i ==> place(#[trigger] self.dists[j]) <= place(self.max_dist),
                    place(self.max_dist) > place(NEG_INFINITY) ==> {
                        &&& self.max_idx < i
                        &&& self.dists[self.max_idx as int] == self.max_dist
                        &&& forall|j: int|
                            0 <= j < self.max_idx ==> place(#[trigger] self.dists[j]) < place(
                                self.max_dist,
                            )
                    },
            {
                if lt(self.max_dist, self.dists[i]) {
                    self.max_dist = self.dists[i];
                    self.max_idx = i;
                }
            }
        } else {
            proof {
                lemma_farthest(self@);
                let f = farthest(self@);
                assert(place(self.dists[f]) <= place(self.max_dist));
            }
        }
    }

    /// The fraud score in fifths: how many of the five neighbours are frauds.
    pub fn fraud_score(&self) -> (r: u32)
        ensures
            r == frauds(self@),
            r <= 5,
    {
        let mut count: u32 = 0;
        for i in 0..5usize
            invariant
                count == frauds(self@.take(i as int)),
                count <= i,
        {
            assert(self@.take(i + 1).drop_last() =~= self@.take(i as int));
            if self.labels[i] == 1 {
                count = count + 1;
            }
        }
        assert(self@.take(5) =~= self@);
        count
    }
}

/// A five-slot store that starts vacant holds what a five-slot store keeps of the
/// vacant slots followed by the neighbours offered.
pub proof fn lemma_vacant_first(items: Seq<(int, int)>, item: (int, int))
    ensures
        nearest_of(5, vacant()) == vacant(),
        nearest_of(5, (vacant() + items).push(item)) == keep(
            nearest_of(5, vacant() + items),
            5,
            item,
        ),
{
    lemma_all_kept(5, vacant());
    lemma_nearest_push(5, vacant() + items, item);
}

} // verus!
