//! First centroids: vectors drawn one after the other, each with a probability that
//! grows with its distance from the centroids already drawn.
//!
//! The arithmetic on distances is the caller's; which vector is drawn is decided here.

use crate::chance::{number_below, parallel_map, seeded};
use crate::ieee::{le_double, less, less_or_equal_double, lt, INFINITY};
use rand::rngs::SmallRng;
use vstd::prelude::*;

verus! {

/// The smaller of a distance so far and a new one; a new one that is not a number
/// changes nothing.
pub open spec fn relaxed(so_far: u32, dist: u32) -> u32 {
    if less(dist, so_far) {
        dist
    } else {
        so_far
    }
}

/// Lowers the distances so far to new ones where those are smaller.
pub fn relax(min_dists: &mut Vec<u32>, dists: &Vec<u32>)
    requires
        old(min_dists)@.len() == dists@.len(),
    ensures
        final(min_dists)@ == Seq::new(
            dists@.len(),
            |i: int| relaxed(old(min_dists)@[i], dists@[i]),
        ),
{
    let ghost before = min_dists@;
    for i in 0..dists.len()
        invariant
            before.len() == dists@.len(),
            min_dists@.len() == dists@.len(),
            forall|j: int| 0 <= j < i ==> min_dists@[j] == relaxed(before[j], dists@[j]),
            forall|j: int| i <= j < min_dists@.len() ==> min_dists@[j] == before[j],
    {
        if lt(dists[i], min_dists[i]) {
            min_dists[i] = dists[i];
        }
    }
    assert(min_dists@ =~= Seq::new(dists@.len(), |i: int| relaxed(before[i], dists@[i])));
}

/// `sums` may be the running totals of `values`, from zero.
pub open spec fn is_running<A: Fn(u64, u32) -> u64>(
    add_to: &A,
    values: Seq<u32>,
    sums: Seq<u64>,
) -> bool {
    &&& sums.len() == values.len()
    &&& forall|i: int|
        0 <= i < sums.len() ==> call_ensures(
            *add_to,
            (
                if i == 0 {
                    0u64
                } else {
                    sums[i - 1]
                },
                values[i],
            ),
            #[trigger] sums[i],
        )
}

/// Running totals of the values.
pub fn running_sums<A: Fn(u64, u32) -> u64>(values: &Vec<u32>, add_to: &A) -> (r: Vec<u64>)
    requires
        forall|a: u64, v: u32| call_requires(*add_to, (a, v)),
    ensures
        is_running(add_to, values@, r@),
{
    let mut sums: Vec<u64> = Vec::new();
    let mut sum: u64 = 0;
    for i in 0..values.len()
        invariant
            forall|a: u64, v: u32| call_requires(*add_to, (a, v)),
            sums@.len() == i,
            sum == if i == 0 {
                0u64
            } else {
                sums@[i - 1]
            },
            is_running(add_to, values@.take(i as int), sums@),
    {
        let ghost before = sums@;
        sum = add_to(sum, values[i]);
        sums.push(sum);
        assert forall|j: int| 0 <= j < sums@.len() implies call_ensures(
            *add_to,
            (
                if j == 0 {
                    0u64
                } else {
                    sums@[j - 1]
                },
                values@.take(i + 1)[j],
            ),
            #[trigger] sums@[j],
        ) by {
            if j < i {
                assert(before[j] == sums@[j]);
                assert(values@.take(i as int)[j] == values@.take(i + 1)[j]);
            }
        }
    }
    assert(values@.take(values@.len() as int) =~= values@);
    sums
}

/// Position `r` is the first whose running total is at least the threshold, or the
/// last position if none is.
pub open spec fn is_pick(sums: Seq<u64>, threshold: u64, r: int) -> bool {
    &&& 0 <= r < sums.len()
    &&& forall|j: int| 0 <= j < r ==> !less_or_equal_double(threshold, #[trigger] sums[j])
    &&& less_or_equal_double(threshold, sums[r]) || r == sums.len() - 1
}

/// The running totals and the threshold decide the pick.
pub proof fn law_pick_unique(sums: Seq<u64>, threshold: u64, r: int, other: int)
    requires
        is_pick(sums, threshold, r),
        is_pick(sums, threshold, other),
    ensures
        r == other,
{
    if r < other {
        assert(!less_or_equal_double(threshold, sums[r]));
    } else if other < r {
        assert(!less_or_equal_double(threshold, sums[other]));
    }
}

/// The position that a threshold picks.
pub fn pick(sums: &Vec<u64>, threshold: u64) -> (r: usize)
    requires
        sums@.len() > 0,
    ensures
        is_pick(sums@, threshold, r as int),
{
    for i in 0..sums.len()
        invariant
            forall|j: int| 0 <= j < i ==> !less_or_equal_double(threshold, #[trigger] sums@[j]),
    {
        if le_double(threshold, sums[i]) {
            return i;
        }
    }
    sums.len() - 1
}

/// What one draw goes through.
pub struct Draw {
    /// Distances from the centroid drawn last.
    pub dists: Seq<u32>,
    /// Distances from the nearest centroid drawn so far.
    pub min_dists: Seq<u32>,
    /// Running totals of those.
    pub sums: Seq<u64>,
    /// A number drawn uniformly from zero to one.
    pub share: u64,
    /// That share of the total.
    pub threshold: u64,
    /// The vector that becomes a centroid.
    pub chosen: int,
}

/// The arithmetic of drawing: uniform numbers, distances, sums and shares of a total.
pub struct Drawing<U, D, A, S> {
    /// A number drawn uniformly from zero to one, in double precision.
    pub uniform: U,
    /// Distance of two vectors, in single precision.
    pub dist: D,
    /// Sum of a number in double precision and one in single precision.
    pub add_to: A,
    /// Product of two numbers in double precision.
    pub scale: S,
}

impl<
    U: Fn(&mut SmallRng) -> u64,
    D: Fn(&[u32; 14], &[u32; 14]) -> u32 + Sync,
    A: Fn(u64, u32) -> u64,
    S: Fn(u64, u64) -> u64,
> Drawing<U, D, A, S> {
    /// The arithmetic is defined everywhere.
    pub open spec fn total(&self) -> bool {
        &&& forall|g: &mut SmallRng| call_requires(self.uniform, (g,))
        &&& forall|a: &[u32; 14], b: &[u32; 14]| call_requires(self.dist, (a, b))
        &&& forall|a: u64, v: u32| call_requires(self.add_to, (a, v))
        &&& forall|a: u64, b: u64| call_requires(self.scale, (a, b))
    }

    /// What a drawn share leads to, after the centroid `last` was drawn and left the
    /// distances `before`.
    pub open spec fn is_step(
        &self,
        vectors: Seq<[u32; 14]>,
        last: [u32; 14],
        before: Seq<u32>,
        draw: Draw,
    ) -> bool {
        &&& draw.dists.len() == vectors.len()
        &&& forall|i: int|
            0 <= i < vectors.len() ==> call_ensures(
                self.dist,
                (&vectors[i], &last),
                #[trigger] draw.dists[i],
            )
        &&& draw.min_dists == Seq::new(
            vectors.len(),
            |i: int| relaxed(before[i], draw.dists[i]),
        )
        &&& is_running(&self.add_to, draw.min_dists, draw.sums)
        &&& call_ensures(self.scale, (draw.share, draw.sums.last()), draw.threshold)
        &&& is_pick(draw.sums, draw.threshold, draw.chosen)
    }

    /// One draw: a share that the generator may give, and what it leads to.
    pub open spec fn is_draw(
        &self,
        vectors: Seq<[u32; 14]>,
        last: [u32; 14],
        before: Seq<u32>,
        draw: Draw,
    ) -> bool {
        &&& exists|g: &mut SmallRng| #[trigger] call_ensures(self.uniform, (g,), draw.share)
        &&& self.is_step(vectors, last, before, draw)
    }

    /// Distances from the nearest centroid before draw `c`: infinite at first.
    pub open spec fn before(vectors: Seq<[u32; 14]>, draws: Seq<Draw>, c: int) -> Seq<u32> {
        if c == 0 {
            Seq::new(vectors.len(), |i: int| INFINITY)
        } else {
            draws[c - 1].min_dists
        }
    }

    /// The centroids are the vector `first` and those that the draws chose.
    pub open spec fn is_seeding(
        &self,
        vectors: Seq<[u32; 14]>,
        first: int,
        draws: Seq<Draw>,
        centroids: Seq<[u32; 14]>,
    ) -> bool {
        &&& centroids.len() == draws.len() + 1
        &&& 0 <= first < vectors.len()
        &&& centroids[0] == vectors[first]
        &&& forall|c: int|
            0 <= c < draws.len() ==> self.is_draw(
                vectors,
                centroids[c],
                Self::before(vectors, draws, c),
                #[trigger] draws[c],
            ) && centroids[c + 1] == vectors[draws[c].chosen]
    }

    /// Draws `k` centroids (one, if `k` is zero).
    pub fn kmeans_plus_plus(&self, vectors: &[[u32; 14]], k: usize, seed: u64) -> (r: Vec<
        [u32; 14],
    >)
        requires
            self.total(),
            vectors@.len() > 0,
        ensures
            r@.len() == if k == 0 {
                1
            } else {
                k as int
            },
            exists|first: int, draws: Seq<Draw>| #[trigger]
                self.is_seeding(vectors@, first, draws, r@),
    {
        let n: usize = vectors.len();
        let mut rng: SmallRng = seeded(seed);
        let mut centroids: Vec<[u32; 14]> = Vec::new();
        let first: usize = number_below(&mut rng, n);
        centroids.push(vectors[first]);
        let mut min_dists: Vec<u32> = infinite(n);
        let ghost mut draws: Seq<Draw> = Seq::empty();
        assert(self.is_seeding(vectors@, first as int, draws, centroids@));
        assert(min_dists@ =~= Self::before(vectors@, draws, 0));
        let mut c: usize = 1;
        while c < k
            invariant
                self.total(),
                n == vectors@.len() > 0,
                1 <= c,
                c <= k || c == 1,
                centroids@.len() == c,
                draws.len() == c - 1,
                min_dists@.len() == n,
                min_dists@ == Self::before(vectors@, draws, c - 1),
                self.is_seeding(vectors@, first as int, draws, centroids@),
            decreases k - c,
        {
            let last: [u32; 14] = centroids[c - 1];
            let uniform: &U = &self.uniform;
            let share: u64 = uniform(&mut rng);
            let ghost before = min_dists@;
            let chosen: usize = self.next_seed(vectors, &last, &mut min_dists, share);
            proof {
                let draw = choose|draw: Draw|
                    {
                        &&& #[trigger] self.is_step(vectors@, last, before, draw)
                        &&& draw.share == share
                        &&& draw.chosen == chosen
                        &&& draw.min_dists == min_dists@
                    };
                self.lemma_next_draw(vectors@, first as int, draws, centroids@, draw);
                draws = draws.push(draw);
            }
            centroids.push(vectors[chosen]);
            c = c + 1;
        }
        centroids
    }

    /// The vector that a drawn share chooses after the centroid `last`; the distances
    /// so far go along.
    pub fn next_seed(
        &self,
        vectors: &[[u32; 14]],
        last: &[u32; 14],
        min_dists: &mut Vec<u32>,
        share: u64,
    ) -> (r: usize)
        requires
            self.total(),
            vectors@.len() > 0,
            old(min_dists)@.len() == vectors@.len(),
        ensures
            r < vectors@.len(),
            exists|draw: Draw|
                {
                    &&& #[trigger] self.is_step(vectors@, *last, old(min_dists)@, draw)
                    &&& draw.share == share
                    &&& draw.chosen == r
                    &&& draw.min_dists == final(min_dists)@
                },
    {
        let dists: Vec<u32> = self.dists_from(vectors, last);
        relax(min_dists, &dists);
        let sums: Vec<u64> = running_sums(min_dists, &self.add_to);
        let scale: &S = &self.scale;
        let threshold: u64 = scale(share, sums[vectors.len() - 1]);
        let chosen: usize = pick(&sums, threshold);
        proof {
            let draw = Draw {
                dists: dists@,
                min_dists: min_dists@,
                sums: sums@,
                share,
                threshold,
                chosen: chosen as int,
            };
            assert(self.is_step(vectors@, *last, old(min_dists)@, draw));
        }
        chosen
    }

    /// One more draw adds one more centroid.
    proof fn lemma_next_draw(
        &self,
        vectors: Seq<[u32; 14]>,
        first: int,
        draws: Seq<Draw>,
        centroids: Seq<[u32; 14]>,
        draw: Draw,
    )
        requires
            self.is_seeding(vectors, first, draws, centroids),
            self.is_draw(
                vectors,
                centroids.last(),
                Self::before(vectors, draws, draws.len() as int),
                draw,
            ),
        ensures
            self.is_seeding(
                vectors,
                first,
                draws.push(draw),
                centroids.push(vectors[draw.chosen]),
            ),
    {
        let more = draws.push(draw);
        let next = centroids.push(vectors[draw.chosen]);
        assert forall|i: int| 0 <= i < more.len() implies self.is_draw(
            vectors,
            next[i],
            Self::before(vectors, more, i),
            #[trigger] more[i],
        ) && next[i + 1] == vectors[more[i].chosen] by {
            if i < draws.len() {
                assert(draws[i] == more[i]);
            }
            assert(Self::before(vectors, more, i) == Self::before(vectors, draws, i));
        }
    }

    /// Distances of all vectors from a centroid.
    fn dists_from(&self, vectors: &[[u32; 14]], centroid: &[u32; 14]) -> (r: Vec<u32>)
        requires
            self.total(),
        ensures
            r@.len() == vectors@.len(),
            forall|i: int|
                0 <= i < r@.len() ==> call_ensures(
                    self.dist,
                    (&vectors@[i], centroid),
                    #[trigger] r@[i],
                ),
    {
        let dist: &D = &self.dist;
        let f = |v: &[u32; 14]| -> (d: u32)
            ensures
                call_ensures(*dist, (v, centroid), d),
            { dist(v, centroid) };
        parallel_map(vectors, &f)
    }
}

/// Distances before anything is near: all infinite.
fn infinite(n: usize) -> (r: Vec<u32>)
    ensures
        r@ == Seq::new(n as nat, |i: int| INFINITY),
{
    let mut dists: Vec<u32> = Vec::new();
    for i in 0..n
        invariant
            dists@ == Seq::new(i as nat, |j: int| INFINITY),
    {
        dists.push(INFINITY);
        assert(dists@ =~= Seq::new((i + 1) as nat, |j: int| INFINITY));
    }
    dists
}

} // verus!
