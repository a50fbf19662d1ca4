//! Centroids by repeated assignment and averaging.
//!
//! The arithmetic on vectors is the caller's; assignments, the order of summation and
//! the end of the iteration are decided here.

use crate::chance::parallel_map;
use crate::cluster::{members, members_to};
use crate::fold::{accumulates, lemma_accumulates};
use crate::ieee::{less, lt, INFINITY};
use crate::seeding::{Draw, Drawing};
use rand::rngs::SmallRng;
use vstd::prelude::*;

verus! {

/// Bit pattern of the movement (a hundred-thousandth, in single precision) below
/// which centroids count as settled.
pub const TOLERANCE: u32 = 0x3727_c5ac;

/// Seed of the first centroids.
pub const SEED: u64 = 42;

/// Position `r` is the first with the smallest of the distances that are less than
/// infinity, or 0 if none is.
pub open spec fn is_nearest(dists: Seq<u32>, r: int) -> bool {
    if exists|j: int| 0 <= j < dists.len() && #[trigger] less(dists[j], INFINITY) {
        &&& 0 <= r < dists.len()
        &&& less(dists[r], INFINITY)
        &&& forall|j: int| 0 <= j < dists.len() ==> !less(#[trigger] dists[j], dists[r])
        &&& forall|j: int|
            0 <= j < r ==> !less(#[trigger] dists[j], INFINITY) || less(dists[r], dists[j])
    } else {
        r == 0
    }
}

/// The distances decide which centroid is nearest.
pub proof fn law_nearest_unique(dists: Seq<u32>, r: int, other: int)
    requires
        is_nearest(dists, r),
        is_nearest(dists, other),
    ensures
        r == other,
{
    if exists|j: int| 0 <= j < dists.len() && #[trigger] less(dists[j], INFINITY) {
        if r < other {
            assert(less(dists[other], dists[r]));
        } else if other < r {
            assert(less(dists[r], dists[other]));
        }
    }
}

/// `r` may be the nearest centroid of `v`.
pub open spec fn nearest_to<D: Fn(&[u32; 14], &[u32; 14]) -> u32>(
    dist: &D,
    v: &[u32; 14],
    centroids: Seq<[u32; 14]>,
    r: int,
) -> bool {
    exists|dists: Seq<u32>|
        {
            &&& dists.len() == centroids.len()
            &&& forall|i: int|
                0 <= i < dists.len() ==> call_ensures(
                    *dist,
                    (v, &centroids[i]),
                    #[trigger] dists[i],
                )
            &&& #[trigger] is_nearest(dists, r)
        }
}

/// The centroid nearest to a vector.
pub fn nearest_centroid<D: Fn(&[u32; 14], &[u32; 14]) -> u32>(
    v: &[u32; 14],
    centroids: &[[u32; 14]],
    dist: &D,
) -> (r: usize)
    requires
        forall|a: &[u32; 14], b: &[u32; 14]| call_requires(*dist, (a, b)),
    ensures
        nearest_to(dist, v, centroids@, r as int),
        r < centroids@.len() || r == 0,
{
    let mut best_i: usize = 0;
    let mut best_d: u32 = INFINITY;
    let ghost mut dists: Seq<u32> = Seq::empty();
    for i in 0..centroids.len()
        invariant
            forall|a: &[u32; 14], b: &[u32; 14]| call_requires(*dist, (a, b)),
            dists.len() == i,
            forall|j: int|
                0 <= j < i ==> call_ensures(*dist, (v, &centroids@[j]), #[trigger] dists[j]),
            is_nearest(dists, best_i as int),
            best_i < i || best_i == 0,
            best_d == if exists|j: int| 0 <= j < dists.len() && #[trigger] less(dists[j], INFINITY) {
                dists[best_i as int]
            } else {
                INFINITY
            },
    {
        let d: u32 = dist(v, &centroids[i]);
        let ghost before = dists;
        let ghost old_i = best_i;
        let ghost old_d = best_d;
        if lt(d, best_d) {
            best_d = d;
            best_i = i;
        }
        proof {
            dists = dists.push(d);
            lemma_nearest_push(before, old_i as int, old_d, d, i as int);
        }
    }
    best_i
}

/// One more distance takes over just when it is smaller than the smallest so far.
proof fn lemma_nearest_push(before: Seq<u32>, best_i: int, best_d: u32, d: u32, i: int)
    requires
        i == before.len(),
        is_nearest(before, best_i),
        best_d == if exists|j: int| 0 <= j < before.len() && #[trigger] less(before[j], INFINITY) {
            before[best_i]
        } else {
            INFINITY
        },
    ensures
        less(d, best_d) ==> is_nearest(before.push(d), i) && (exists|j: int|
            0 <= j <= before.len() && #[trigger] less(before.push(d)[j], INFINITY)),
        !less(d, best_d) ==> is_nearest(before.push(d), best_i) && best_d == if exists|j: int|
            0 <= j <= before.len() && #[trigger] less(before.push(d)[j], INFINITY) {
            before.push(d)[best_i]
        } else {
            INFINITY
        },
{
    let after = before.push(d);
    assert(forall|j: int| 0 <= j < before.len() ==> after[j] == before[j]);
    assert(after[i] == d);
    let some_before = exists|j: int| 0 <= j < before.len() && #[trigger] less(before[j], INFINITY);
    if less(d, best_d) {
        assert(less(after[i], INFINITY));
        assert forall|j: int| 0 <= j < after.len() implies !less(#[trigger] after[j], after[i]) by {
            if j < i {
                assert(!less(before[j], INFINITY) || some_before);
            }
        }
        assert forall|j: int| 0 <= j < i implies !less(#[trigger] after[j], INFINITY) || less(
            after[i],
            after[j],
        ) by {
            if less(before[j], INFINITY) {
                assert(some_before);
                assert(!less(before[j], before[best_i]));
            }
        }
    } else if some_before {
        let w = choose|j: int| 0 <= j < before.len() && #[trigger] less(before[j], INFINITY);
        assert(less(after[w], INFINITY));
        assert(!less(after[i], after[best_i]));
    } else {
        assert forall|j: int| 0 <= j < after.len() implies !(#[trigger] less(
            after[j],
            INFINITY,
        )) by {
            if j < i {
                assert(!less(before[j], INFINITY));
            }
        }
    }
}

/// How many positions are assigned differently, of the first `m`.
pub open spec fn changes_to(before: Seq<u32>, after: Seq<u32>, m: int) -> int
    decreases m,
{
    if m <= 0 {
        0
    } else {
        changes_to(before, after, m - 1) + if before[m - 1] != after[m - 1] {
            1int
        } else {
            0
        }
    }
}

/// Counts the positions that are assigned differently.
pub fn count_changes(before: &Vec<u32>, after: &Vec<u32>) -> (r: usize)
    requires
        before@.len() == after@.len(),
    ensures
        r == changes_to(before@, after@, after@.len() as int),
{
    let mut changes: usize = 0;
    for i in 0..after.len()
        invariant
            before@.len() == after@.len(),
            changes <= i,
            changes == changes_to(before@, after@, i as int),
    {
        if before[i] != after[i] {
            changes = changes + 1;
        }
    }
    changes
}

/// The largest movement of the first `m`, from zero; what is not a number is passed
/// over.
pub open spec fn largest_to(deltas: Seq<u32>, m: int) -> u32
    decreases m,
{
    if m <= 0 {
        0
    } else if less(largest_to(deltas, m - 1), deltas[m - 1]) {
        deltas[m - 1]
    } else {
        largest_to(deltas, m - 1)
    }
}

/// Component `d` of the vectors of cluster `c`, in order.
pub open spec fn column(
    vectors: Seq<[u32; 14]>,
    assignments: Seq<u32>,
    c: int,
    d: int,
    m: int,
) -> Seq<u32> {
    members_to(assignments, c, m).map_values(|i: int| vectors[i]@[d])
}

/// One iteration: the assignments, how far each centroid moved, and the centroids
/// after it.
pub struct Iteration {
    pub assignments: Seq<u32>,
    pub deltas: Seq<u32>,
    pub centroids: Seq<[u32; 14]>,
}

impl Iteration {
    /// The largest movement of a centroid.
    pub open spec fn max_delta(self) -> u32 {
        largest_to(self.deltas, self.deltas.len() as int)
    }

    /// No centroid moved by the tolerance or more.
    pub open spec fn settled(self) -> bool {
        less(self.max_delta(), TOLERANCE)
    }
}

/// What an iteration did, for the record: how many vectors changed cluster, and how
/// far the centroid moved that moved farthest.
pub struct Progress {
    pub changes: usize,
    pub max_delta: u32,
}

/// Centroids, the cluster of each vector, and what each iteration did.
pub struct Clustering {
    pub centroids: Vec<[u32; 14]>,
    pub assignments: Vec<u32>,
    pub progress: Vec<Progress>,
}

/// The arithmetic of k-means: that of drawing centroids, averages and roots.
pub struct KMeans<U, D, A, S, M, R> {
    pub drawing: Drawing<U, D, A, S>,
    /// A sum in double precision divided by a count, in single precision.
    pub mean: M,
    /// Square root, in single precision.
    pub root: R,
}

impl<
    U: Fn(&mut SmallRng) -> u64,
    D: Fn(&[u32; 14], &[u32; 14]) -> u32 + Sync,
    A: Fn(u64, u32) -> u64,
    S: Fn(u64, u64) -> u64,
    M: Fn(u64, u64) -> u32,
    R: Fn(u32) -> u32,
> KMeans<U, D, A, S, M, R> {
    /// The arithmetic is defined everywhere.
    pub open spec fn total(&self) -> bool {
        &&& self.drawing.total()
        &&& forall|sum: u64, count: u64| call_requires(self.mean, (sum, count))
        &&& forall|x: u32| call_requires(self.root, (x,))
    }

    /// `centroid` may be the average of cluster `c`: in every component, the mean of a
    /// sum that is taken over the vectors of the cluster in order.
    pub open spec fn is_average(
        &self,
        vectors: Seq<[u32; 14]>,
        assignments: Seq<u32>,
        c: int,
        centroid: [u32; 14],
    ) -> bool {
        forall|d: int|
            0 <= d < 14 ==> self.averages(
                column(vectors, assignments, c, d, assignments.len() as int),
                #[trigger] centroid@[d],
            )
    }

    /// `r` may be the mean of the values.
    pub open spec fn averages(&self, values: Seq<u32>, r: u32) -> bool {
        exists|sum: u64|
            {
                &&& accumulates(&self.drawing.add_to, 0u64, values, sum)
                &&& #[trigger] call_ensures(self.mean, (sum, values.len() as u64), r)
            }
    }

    /// `delta` may be the distance from one place to another.
    pub open spec fn moves(&self, to: &[u32; 14], from: &[u32; 14], delta: u32) -> bool {
        exists|square: u32|
            {
                &&& call_ensures(self.drawing.dist, (to, from), square)
                &&& #[trigger] call_ensures(self.root, (square,), delta)
            }
    }

    /// Cluster `c` gets its new centroid: the average of its vectors, or the old one if
    /// it has none.
    pub open spec fn updates(
        &self,
        vectors: Seq<[u32; 14]>,
        before: Seq<[u32; 14]>,
        it: Iteration,
        c: int,
    ) -> bool {
        if members(it.assignments, c).len() == 0 {
            it.centroids[c] == before[c] && it.deltas[c] == 0
        } else {
            &&& self.is_average(vectors, it.assignments, c, it.centroids[c])
            &&& self.moves(&it.centroids[c], &before[c], it.deltas[c])
        }
    }

    /// One iteration from the centroids `before`: every vector goes to its nearest
    /// centroid, and the centroids are averaged anew.
    pub open spec fn is_iteration(
        &self,
        vectors: Seq<[u32; 14]>,
        before: Seq<[u32; 14]>,
        it: Iteration,
    ) -> bool {
        &&& it.assignments.len() == vectors.len()
        &&& forall|i: int|
            0 <= i < vectors.len() ==> nearest_to(
                &self.drawing.dist,
                &vectors[i],
                before,
                #[trigger] it.assignments[i] as int,
            )
        &&& it.deltas.len() == before.len()
        &&& it.centroids.len() == before.len()
        &&& forall|c: int| 0 <= c < before.len() ==> #[trigger] self.updates(vectors, before, it, c)
    }

    /// Centroids before iteration `t`.
    pub open spec fn centroids_before(
        seeds: Seq<[u32; 14]>,
        its: Seq<Iteration>,
        t: int,
    ) -> Seq<[u32; 14]> {
        if t <= 0 {
            seeds
        } else {
            its[t - 1].centroids
        }
    }

    /// Assignments before iteration `t`: all to the first cluster at first.
    pub open spec fn assignments_before(n: nat, its: Seq<Iteration>, t: int) -> Seq<u32> {
        if t <= 0 {
            Seq::new(n, |i: int| 0u32)
        } else {
            its[t - 1].assignments
        }
    }

    /// The iterations follow one another from the seeds, and none but the last is
    /// settled.
    pub open spec fn is_run(
        &self,
        vectors: Seq<[u32; 14]>,
        seeds: Seq<[u32; 14]>,
        its: Seq<Iteration>,
    ) -> bool {
        &&& forall|t: int|
            0 <= t < its.len() ==> self.is_iteration(
                vectors,
                Self::centroids_before(seeds, its, t),
                #[trigger] its[t],
            )
        &&& forall|t: int| 0 <= t < its.len() - 1 ==> !(#[trigger] its[t]).settled()
    }

    /// The record says of each iteration what it did.
    pub open spec fn records(
        n: nat,
        its: Seq<Iteration>,
        progress: Seq<Progress>,
    ) -> bool {
        &&& progress.len() == its.len()
        &&& forall|t: int|
            0 <= t < its.len() ==> {
                &&& (#[trigger] progress[t]).max_delta == its[t].max_delta()
                &&& progress[t].changes == changes_to(
                    Self::assignments_before(n, its, t),
                    its[t].assignments,
                    n as int,
                )
            }
    }

    /// The nearest centroid of every vector.
    fn assign(&self, vectors: &[[u32; 14]], centroids: &Vec<[u32; 14]>) -> (r: Vec<u32>)
        requires
            self.total(),
            0 < centroids@.len() <= 0x1_0000_0000,
        ensures
            r@.len() == vectors@.len(),
            forall|i: int|
                0 <= i < r@.len() ==> nearest_to(
                    &self.drawing.dist,
                    &vectors@[i],
                    centroids@,
                    #[trigger] r@[i] as int,
                ),
            forall|i: int| 0 <= i < r@.len() ==> #[trigger] r@[i] < centroids@.len(),
    {
        let dist: &D = &self.drawing.dist;
        let list: &[[u32; 14]] = centroids.as_slice();
        let f = |v: &[u32; 14]| -> (r: u32)
            ensures
                nearest_to(dist, v, list@, r as int),
                r < list@.len(),
            { nearest_centroid(v, list, dist) as u32 };
        parallel_map(vectors, &f)
    }

    /// Sum of every component, and count, of the vectors of every cluster.
    fn sum_up(&self, vectors: &[[u32; 14]], assignments: &Vec<u32>, k: usize) -> (r: (
        Vec<[u64; 14]>,
        Vec<u64>,
    ))
        requires
            self.total(),
            vectors@.len() == assignments@.len(),
            forall|i: int| 0 <= i < assignments@.len() ==> #[trigger] assignments@[i] < k,
        ensures
            r.0@.len() == k,
            r.1@.len() == k,
            forall|c: int| 0 <= c < k ==> #[trigger] r.1@[c] == members(assignments@, c).len(),
            forall|c: int, d: int|
                #![trigger r.0@[c]@[d]]
                0 <= c < k && 0 <= d < 14 ==> accumulates(
                    &self.drawing.add_to,
                    0u64,
                    column(vectors@, assignments@, c, d, assignments@.len() as int),
                    r.0@[c]@[d],
                ),
    {
        let add_to: &A = &self.drawing.add_to;
        let mut sums: Vec<[u64; 14]> = Vec::new();
        let mut counts: Vec<u64> = Vec::new();
        for c in 0..k
            invariant
                sums@.len() == c,
                counts@.len() == c,
                forall|j: int| 0 <= j < c ==> #[trigger] counts@[j] == 0,
                forall|j: int, d: int|
                    #![trigger sums@[j]@[d]]
                    0 <= j < c && 0 <= d < 14 ==> sums@[j]@[d] == 0,
        {
            sums.push([0u64;14]);
            counts.push(0);
        }
        assert forall|c: int, d: int| 0 <= c < k && 0 <= d < 14 implies accumulates(
            add_to,
            0u64,
            column(vectors@, assignments@, c, d, 0),
            #[trigger] sums@[c]@[d],
        ) by {
            assert(column(vectors@, assignments@, c, d, 0) =~= Seq::empty());
        }
        for i in 0..vectors.len()
            invariant
                self.total(),
                add_to == &self.drawing.add_to,
                vectors@.len() == assignments@.len(),
                forall|j: int| 0 <= j < assignments@.len() ==> #[trigger] assignments@[j] < k,
                sums@.len() == k,
                counts@.len() == k,
                forall|c: int|
                    0 <= c < k ==> #[trigger] counts@[c] == members_to(
                        assignments@,
                        c,
                        i as int,
                    ).len() && counts@[c] <= i,
                forall|c: int, d: int|
                    #![trigger sums@[c]@[d]]
                    0 <= c < k && 0 <= d < 14 ==> accumulates(
                        add_to,
                        0u64,
                        column(vectors@, assignments@, c, d, i as int),
                        sums@[c]@[d],
                    ),
        {
            let ci: usize = assignments[i] as usize;
            let ghost before = sums@;
            let row: [u64; 14] = self.add_row(&sums[ci], &vectors[i]);
            assert(counts@[ci as int] <= i);
            counts[ci] = counts[ci] + 1;
            sums[ci] = row;
            assert forall|c: int, d: int| 0 <= c < k && 0 <= d < 14 implies accumulates(
                add_to,
                0u64,
                column(vectors@, assignments@, c, d, i + 1),
                #[trigger] sums@[c]@[d],
            ) by {
                assert(accumulates(
                    add_to,
                    0u64,
                    column(vectors@, assignments@, c, d, i as int),
                    before[c]@[d],
                ));
                if c == ci {
                    lemma_accumulates(
                        add_to,
                        0u64,
                        column(vectors@, assignments@, c, d, i as int),
                        before[c]@[d],
                        vectors@[i as int]@[d],
                        row@[d],
                    );
                    assert(column(vectors@, assignments@, c, d, i + 1) =~= column(
                        vectors@,
                        assignments@,
                        c,
                        d,
                        i as int,
                    ).push(vectors@[i as int]@[d]));
                } else {
                    assert(column(vectors@, assignments@, c, d, i + 1) == column(
                        vectors@,
                        assignments@,
                        c,
                        d,
                        i as int,
                    ));
                }
            }
        }
        (sums, counts)
    }

    /// Adds a vector to sums, component by component.
    fn add_row(&self, sums: &[u64; 14], v: &[u32; 14]) -> (r: [u64; 14])
        requires
            self.total(),
        ensures
            forall|d: int|
                0 <= d < 14 ==> call_ensures(
                    self.drawing.add_to,
                    (sums@[d], v@[d]),
                    #[trigger] r@[d],
                ),
    {
        let add_to: &A = &self.drawing.add_to;
        let mut row: [u64; 14] = [0u64;14];
        for d in 0..14usize
            invariant
                self.total(),
                add_to == &self.drawing.add_to,
                forall|j: int|
                    0 <= j < d ==> call_ensures(
                        self.drawing.add_to,
                        (sums@[j], v@[j]),
                        #[trigger] row@[j],
                    ),
        {
            let sum: u64 = add_to(sums[d], v[d]);
            row[d] = sum;
        }
        row
    }

    /// Averages the sums of one cluster.
    fn average(&self, sums: &[u64; 14], count: u64) -> (r: [u32; 14])
        requires
            self.total(),
        ensures
            forall|d: int|
                0 <= d < 14 ==> call_ensures(self.mean, (sums@[d], count), #[trigger] r@[d]),
    {
        let mean: &M = &self.mean;
        let mut centroid: [u32; 14] = [0u32;14];
        for d in 0..14usize
            invariant
                self.total(),
                mean == &self.mean,
                forall|j: int|
                    0 <= j < d ==> call_ensures(
                        self.mean,
                        (sums@[j], count),
                        #[trigger] centroid@[j],
                    ),
        {
            let m: u32 = mean(sums[d], count);
            centroid[d] = m;
        }
        centroid
    }

    /// Replaces each centroid by the average of its cluster; returns the largest
    /// movement and, for proofs, all of them.
    fn update(&self, vectors: &[[u32; 14]], assignments: &Vec<u32>, centroids: &mut Vec<[u32; 14]>)
        -> (r: (u32, Ghost<Seq<u32>>))
        requires
            self.total(),
            vectors@.len() == assignments@.len(),
            forall|i: int|
                0 <= i < assignments@.len() ==> #[trigger] assignments@[i] < old(
                    centroids,
                )@.len(),
        ensures
            final(centroids)@.len() == old(centroids)@.len(),
            r.1@.len() == old(centroids)@.len(),
            r.0 == largest_to(r.1@, r.1@.len() as int),
            forall|c: int|
                0 <= c < old(centroids)@.len() ==> #[trigger] self.updates(
                    vectors@,
                    old(centroids)@,
                    (Iteration {
                        assignments: assignments@,
                        deltas: r.1@,
                        centroids: final(centroids)@,
                    }),
                    c,
                ),
    {
        let k: usize = centroids.len();
        let ghost before = centroids@;
        let ghost mut deltas: Seq<u32> = Seq::empty();
        let (sums, counts): (Vec<[u64; 14]>, Vec<u64>) = self.sum_up(vectors, assignments, k);
        let mut max_delta: u32 = 0;
        for i in 0..k
            invariant
                self.total(),
                k == before.len(),
                centroids@.len() == k,
                sums@.len() == k,
                counts@.len() == k,
                deltas.len() == i,
                max_delta == largest_to(deltas, i as int),
                forall|c: int|
                    0 <= c < k ==> #[trigger] counts@[c] == members(assignments@, c).len(),
                forall|c: int, d: int|
                    #![trigger sums@[c]@[d]]
                    0 <= c < k && 0 <= d < 14 ==> accumulates(
                        &self.drawing.add_to,
                        0u64,
                        column(vectors@, assignments@, c, d, assignments@.len() as int),
                        sums@[c]@[d],
                    ),
                forall|c: int| i <= c < k ==> centroids@[c] == before[c],
                forall|c: int|
                    0 <= c < i ==> #[trigger] self.updates(
                        vectors@,
                        before,
                        (Iteration { assignments: assignments@, deltas, centroids: centroids@ }),
                        c,
                    ),
        {
            let ghost earlier = Iteration {
                assignments: assignments@,
                deltas,
                centroids: centroids@,
            };
            let mut delta: u32 = 0;
            if counts[i] != 0 {
                let new_c: [u32; 14] = self.average(&sums[i], counts[i]);
                delta = self.movement(&new_c, &centroids[i]);
                centroids[i] = new_c;
                proof {
                    self.lemma_average(
                        vectors@,
                        assignments@,
                        i as int,
                        sums@[i as int],
                        counts@[i as int],
                        new_c,
                    );
                }
            }
            if lt(max_delta, delta) {
                max_delta = delta;
            }
            proof {
                let ghost_deltas = deltas.push(delta);
                let now = Iteration {
                    assignments: assignments@,
                    deltas: ghost_deltas,
                    centroids: centroids@,
                };
                lemma_largest_prefix(deltas, ghost_deltas, i as int);
                assert forall|c: int| 0 <= c < i + 1 implies #[trigger] self.updates(
                    vectors@,
                    before,
                    now,
                    c,
                ) by {
                    if c < i {
                        assert(self.updates(vectors@, before, earlier, c));
                        assert(now.centroids[c] == earlier.centroids[c]);
                        assert(now.deltas[c] == earlier.deltas[c]);
                    }
                }
                deltas = ghost_deltas;
            }
        }
        (max_delta, Ghost(deltas))
    }

    /// The distance between two places.
    fn movement(&self, to: &[u32; 14], from: &[u32; 14]) -> (r: u32)
        requires
            self.total(),
        ensures
            self.moves(to, from, r),
    {
        let dist: &D = &self.drawing.dist;
        let root: &R = &self.root;
        let square: u32 = dist(to, from);
        root(square)
    }

    /// Means of the sums of a cluster make up its average.
    proof fn lemma_average(
        &self,
        vectors: Seq<[u32; 14]>,
        assignments: Seq<u32>,
        c: int,
        sums: [u64; 14],
        count: u64,
        centroid: [u32; 14],
    )
        requires
            count == members(assignments, c).len(),
            forall|d: int|
                0 <= d < 14 ==> accumulates(
                    &self.drawing.add_to,
                    0u64,
                    column(vectors, assignments, c, d, assignments.len() as int),
                    #[trigger] sums@[d],
                ),
            forall|d: int|
                0 <= d < 14 ==> call_ensures(
                    self.mean,
                    (sums@[d], count),
                    #[trigger] centroid@[d],
                ),
        ensures
            self.is_average(vectors, assignments, c, centroid),
    {
        assert forall|d: int| 0 <= d < 14 implies self.averages(
            column(vectors, assignments, c, d, assignments.len() as int),
            #[trigger] centroid@[d],
        ) by {
            let values = column(vectors, assignments, c, d, assignments.len() as int);
            assert(values.len() as u64 == count);
            assert(accumulates(&self.drawing.add_to, 0u64, values, sums@[d]));
            assert(call_ensures(self.mean, (sums@[d], values.len() as u64), centroid@[d]));
        }
    }

    /// `r` may come of iterating from the seeds: at most `iterations` times, and no
    /// longer than until the centroids are settled.
    pub open spec fn iterates(
        &self,
        vectors: Seq<[u32; 14]>,
        seeds: Seq<[u32; 14]>,
        iterations: usize,
        r: Clustering,
    ) -> bool {
        exists|its: Seq<Iteration>|
            {
                &&& #[trigger] self.is_run(vectors, seeds, its)
                &&& its.len() <= iterations
                &&& its.len() == iterations || (its.len() > 0 && its.last().settled())
                &&& r.centroids@ == Self::centroids_before(seeds, its, its.len() as int)
                &&& r.assignments@ == Self::assignments_before(
                    vectors.len(),
                    its,
                    its.len() as int,
                )
                &&& Self::records(vectors.len(), its, r.progress@)
            }
    }

    /// Iterates from the given centroids.
    pub fn iterate(&self, vectors: &[[u32; 14]], seeds: Vec<[u32; 14]>, iterations: usize) -> (r:
        Clustering)
        requires
            self.total(),
            0 < seeds@.len() <= 0x1_0000_0000,
        ensures
            self.iterates(vectors@, seeds@, iterations, r),
            r.centroids@.len() == seeds@.len(),
            r.assignments@.len() == vectors@.len(),
            forall|i: int|
                0 <= i < r.assignments@.len() ==> #[trigger] r.assignments@[i] < seeds@.len(),
    {
        let mut centroids: Vec<[u32; 14]> = seeds;
        let n: usize = vectors.len();
        let mut assignments: Vec<u32> = zeros(n);
        let mut progress: Vec<Progress> = Vec::new();
        let ghost mut its: Seq<Iteration> = Seq::empty();
        let mut iter: usize = 0;
        let mut settled: bool = false;
        while iter < iterations && !settled
            invariant
                self.total(),
                n == vectors@.len(),
                iter <= iterations,
                0 < centroids@.len() <= 0x1_0000_0000,
                centroids@.len() == seeds@.len(),
                assignments@.len() == n,
                its.len() == iter,
                self.is_run(vectors@, seeds@, its),
                settled ==> its.len() > 0 && its.last().settled(),
                !settled ==> (its.len() > 0 ==> !its.last().settled()),
                centroids@ == Self::centroids_before(seeds@, its, its.len() as int),
                assignments@ == Self::assignments_before(n as nat, its, its.len() as int),
                Self::records(n as nat, its, progress@),
                forall|i: int|
                    0 <= i < assignments@.len() ==> #[trigger] assignments@[i] < centroids@.len(),
            decreases iterations - iter,
        {
            let new_assignments: Vec<u32> = self.assign(vectors, &centroids);
            let changes: usize = count_changes(&assignments, &new_assignments);
            assignments = new_assignments;
            let (max_delta, Ghost(deltas)): (u32, Ghost<Seq<u32>>) = self.update(
                vectors,
                &assignments,
                &mut centroids,
            );
            progress.push(Progress { changes, max_delta });
            settled = lt(max_delta, TOLERANCE);
            proof {
                let it = Iteration { assignments: assignments@, deltas, centroids: centroids@ };
                self.lemma_next_iteration(vectors@, seeds@, its, it);
                its = its.push(it);
            }
            iter = iter + 1;
        }
        assert(self.is_run(vectors@, seeds@, its));
        Clustering { centroids, assignments, progress }
    }

    /// Finds `k` centroids (one, if `k` is zero) in at most `iterations` iterations,
    /// and stops early once they are settled.
    pub fn run_kmeans(&self, vectors: &[[u32; 14]], k: usize, iterations: usize) -> (r: Clustering)
        requires
            self.total(),
            vectors@.len() > 0,
            k <= 0x1_0000_0000,
            k > 0 || iterations == 0,
        ensures
            exists|first: int, draws: Seq<Draw>, seeds: Seq<[u32; 14]>|
                {
                    &&& #[trigger] self.drawing.is_seeding(vectors@, first, draws, seeds)
                    &&& self.iterates(vectors@, seeds, iterations, r)
                },
            r.centroids@.len() == if k == 0 {
                1
            } else {
                k as int
            },
            r.assignments@.len() == vectors@.len(),
            forall|i: int|
                0 <= i < r.assignments@.len() ==> #[trigger] r.assignments@[i]
                    < r.centroids@.len(),
    {
        let seeds: Vec<[u32; 14]> = self.drawing.kmeans_plus_plus(vectors, k, SEED);
        self.iterate(vectors, seeds, iterations)
    }

    /// One more iteration after iterations that are not settled.
    #[verifier::spinoff_prover]
    proof fn lemma_next_iteration(
        &self,
        vectors: Seq<[u32; 14]>,
        seeds: Seq<[u32; 14]>,
        its: Seq<Iteration>,
        it: Iteration,
    )
        requires
            self.is_run(vectors, seeds, its),
            its.len() > 0 ==> !its.last().settled(),
            self.is_iteration(vectors, Self::centroids_before(seeds, its, its.len() as int), it),
        ensures
            self.is_run(vectors, seeds, its.push(it)),
    {
        let more = its.push(it);
        assert forall|t: int| 0 <= t <= its.len() implies #[trigger] Self::centroids_before(
            seeds,
            more,
            t,
        ) == Self::centroids_before(seeds, its, t) by {
            if t > 0 {
                assert(more[t - 1] == its[t - 1]);
            }
        }
        assert forall|t: int| 0 <= t < more.len() implies self.is_iteration(
            vectors,
            Self::centroids_before(seeds, more, t),
            #[trigger] more[t],
        ) by {
            let from = Self::centroids_before(seeds, its, t);
            assert(Self::centroids_before(seeds, more, t) == from);
            if t < its.len() {
                assert(more[t] == its[t]);
                assert(self.is_iteration(vectors, from, its[t]));
            } else {
                assert(more[t] == it);
                assert(self.is_iteration(vectors, from, it));
            }
        }
        assert forall|t: int| 0 <= t < more.len() - 1 implies !(#[trigger] more[t]).settled() by {
            assert(more[t] == its[t]);
        }
    }
}

/// The largest movement of a prefix does not look beyond it.
proof fn lemma_largest_prefix(deltas: Seq<u32>, more: Seq<u32>, m: int)
    requires
        m <= deltas.len() <= more.len(),
        forall|i: int| 0 <= i < deltas.len() ==> deltas[i] == more[i],
    ensures
        largest_to(deltas, m) == largest_to(more, m),
    decreases m,
{
    if m > 0 {
        lemma_largest_prefix(deltas, more, m - 1);
    }
}

/// Every vector in the first cluster.
fn zeros(n: usize) -> (r: Vec<u32>)
    ensures
        r@ == Seq::new(n as nat, |i: int| 0u32),
{
    let mut v: Vec<u32> = Vec::new();
    for i in 0..n
        invariant
            v@ == Seq::new(i as nat, |j: int| 0u32),
    {
        v.push(0);
        assert(v@ =~= Seq::new((i + 1) as nat, |j: int| 0u32));
    }
    v
}

} // verus!
