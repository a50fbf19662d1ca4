//! What building an index does, said of the vectors, the distances and the centroids
//! themselves.

use crate::cluster::{members, members_to};
use crate::fold::accumulates;
use crate::ieee::{
    is_nan, is_nan_double, less, less_or_equal, less_or_equal_double, place, INFINITY,
};
use crate::kmeans::{
    changes_to, column, is_nearest, largest_to, nearest_to, Clustering, Iteration, KMeans,
};
use crate::seeding::{is_pick, is_running, relaxed, Draw, Drawing};
use rand::rngs::SmallRng;
use vstd::prelude::*;

verus! {

/// The order of numbers in single precision, by their bits: two numbers without a sign
/// compare as their bits do, two with a sign the other way round, and one with a sign is
/// less than one without unless both are zeros; a pattern beyond infinity is no number,
/// and compares with nothing.
pub proof fn law_order(a: u32, b: u32)
    ensures
        is_nan(a) <==> (0x7f80_0000 < a < 0x8000_0000 || 0xff80_0000 < a),
        is_nan(a) || is_nan(b) ==> !less(a, b) && !less_or_equal(a, b),
        a <= 0x7f80_0000 && b <= 0x7f80_0000 ==> (less(a, b) <==> a < b),
        0x8000_0000 <= a <= 0xff80_0000 && 0x8000_0000 <= b <= 0xff80_0000 ==> (less(a, b) <==> b
            < a),
        0x8000_0000 <= a <= 0xff80_0000 && b <= 0x7f80_0000 ==> (less(a, b) <==> a != 0x8000_0000
            || b != 0),
        a <= 0x7f80_0000 && 0x8000_0000 <= b ==> !less(a, b),
        !is_nan(a) && !is_nan(b) ==> (less_or_equal(a, b) <==> !less(b, a)),
        !is_nan(a) && !is_nan(b) ==> (place(a) < place(b) <==> less(a, b)),
        is_nan(a) && !is_nan(b) ==> place(b) < place(a),
        is_nan(a) && is_nan(b) ==> place(a) == place(b),
{
}

/// The order of numbers in double precision, by their bits.
pub proof fn law_order_double(a: u64, b: u64)
    ensures
        is_nan_double(a) <==> (0x7ff0_0000_0000_0000 < a < 0x8000_0000_0000_0000
            || 0xfff0_0000_0000_0000 < a),
        is_nan_double(a) || is_nan_double(b) ==> !less_or_equal_double(a, b),
        a <= 0x7ff0_0000_0000_0000 && b <= 0x7ff0_0000_0000_0000 ==> (less_or_equal_double(a, b)
            <==> a <= b),
        0x8000_0000_0000_0000 <= a <= 0xfff0_0000_0000_0000 && 0x8000_0000_0000_0000 <= b
            <= 0xfff0_0000_0000_0000 ==> (less_or_equal_double(a, b) <==> b <= a),
        0x8000_0000_0000_0000 <= a <= 0xfff0_0000_0000_0000 && b <= 0x7ff0_0000_0000_0000
            ==> less_or_equal_double(a, b),
        a <= 0x7ff0_0000_0000_0000 && 0x8000_0000_0000_0000 <= b <= 0xfff0_0000_0000_0000 ==> (
        less_or_equal_double(a, b) <==> a == 0 && b == 0x8000_0000_0000_0000),
{
}

/// `dists` are distances that `dist` may give between `v` and the places, one for each.
pub open spec fn are_distances<D: Fn(&[u32; 14], &[u32; 14]) -> u32>(
    dist: &D,
    v: &[u32; 14],
    places: Seq<[u32; 14]>,
    dists: Seq<u32>,
) -> bool {
    &&& dists.len() == places.len()
    &&& forall|j: int|
        0 <= j < places.len() ==> call_ensures(*dist, (v, &places[j]), #[trigger] dists[j])
}

/// Nothing is nearer than what stands at position `r`, and what is as near stands
/// later; where no distance is less than infinity, `r` is the first position.
pub open spec fn none_nearer(dists: Seq<u32>, r: int) -> bool {
    &&& forall|j: int|
        0 <= j < dists.len() && less(#[trigger] dists[j], INFINITY) ==> {
            &&& 0 <= r < dists.len()
            &&& less(dists[r], INFINITY)
            &&& !less(dists[j], dists[r])
            &&& j < r ==> less(dists[r], dists[j])
        }
    &&& r == 0 || (0 <= r < dists.len() && less(dists[r], INFINITY))
}

/// Of distances that `dist` may give between `v` and all the places, none is nearer than
/// the one at `r`.
pub open spec fn finds_nearest<D: Fn(&[u32; 14], &[u32; 14]) -> u32>(
    dist: &D,
    v: &[u32; 14],
    places: Seq<[u32; 14]>,
    r: int,
) -> bool {
    exists|dists: Seq<u32>| #[trigger]
        are_distances(dist, v, places, dists) && none_nearer(dists, r)
}

/// The nearest centroid is sought among all of them.
pub proof fn law_nearest_centroid<D: Fn(&[u32; 14], &[u32; 14]) -> u32>(
    dist: &D,
    v: &[u32; 14],
    centroids: Seq<[u32; 14]>,
    r: int,
)
    requires
        nearest_to(dist, v, centroids, r),
    ensures
        finds_nearest(dist, v, centroids, r),
{
    let dists = choose|dists: Seq<u32>|
        {
            &&& dists.len() == centroids.len()
            &&& forall|i: int|
                0 <= i < dists.len() ==> call_ensures(
                    *dist,
                    (v, &centroids[i]),
                    #[trigger] dists[i],
                )
            &&& #[trigger] is_nearest(dists, r)
        };
    assert(are_distances(dist, v, centroids, dists));
    lemma_none_nearer(dists, r);
}

/// Of distances among which one is nearest, none is nearer.
proof fn lemma_none_nearer(dists: Seq<u32>, r: int)
    requires
        is_nearest(dists, r),
    ensures
        none_nearer(dists, r),
{
    if !(exists|j: int| 0 <= j < dists.len() && #[trigger] less(dists[j], INFINITY)) {
        assert forall|j: int| 0 <= j < dists.len() implies !less(#[trigger] dists[j], INFINITY) by {
        }
    }
}

/// Where distances are determined and less than infinity, no centroid is nearer than
/// the one that is found, and of those that are as near none comes before it.
pub proof fn law_no_centroid_nearer<D: Fn(&[u32; 14], &[u32; 14]) -> u32>(
    dist: &D,
    v: &[u32; 14],
    centroids: Seq<[u32; 14]>,
    r: int,
    j: int,
    to_j: u32,
    to_r: u32,
)
    requires
        nearest_to(dist, v, centroids, r),
        0 <= j < centroids.len(),
        call_ensures(*dist, (v, &centroids[j]), to_j),
        call_ensures(*dist, (v, &centroids[r]), to_r),
        forall|i: int, x: u32, y: u32|
            #![trigger call_ensures(*dist, (v, &centroids[i]), x), call_ensures(*dist, (v, &centroids[i]), y)]
            0 <= i < centroids.len() && call_ensures(*dist, (v, &centroids[i]), x) && call_ensures(
                *dist,
                (v, &centroids[i]),
                y,
            ) ==> x == y,
        less(to_j, INFINITY),
    ensures
        0 <= r < centroids.len(),
        !less(to_j, to_r),
        j < r ==> less(to_r, to_j),
{
    law_nearest_centroid(dist, v, centroids, r);
    let dists = choose|dists: Seq<u32>| #[trigger]
        are_distances(dist, v, centroids, dists) && none_nearer(dists, r);
    assert(dists[j] == to_j);
    assert(dists[r] == to_r);
}

/// The positions below `m` that are assigned to cluster `c`, in order.
pub open spec fn own_to(assignments: Seq<u32>, c: int, m: nat) -> Seq<int> {
    Seq::new(m, |i: int| i).filter(|i: int| assignments[i] == c)
}

/// The positions that are assigned to cluster `c`, in order.
pub open spec fn own(assignments: Seq<u32>, c: int) -> Seq<int> {
    own_to(assignments, c, assignments.len())
}

/// The members of a cluster are the positions that are assigned to it, in order.
pub proof fn law_members(assignments: Seq<u32>, c: int)
    ensures
        members(assignments, c) == own(assignments, c),
{
    lemma_members(assignments, c, assignments.len() as int);
}

/// The same of the first `m` positions.
proof fn lemma_members(assignments: Seq<u32>, c: int, m: int)
    requires
        0 <= m,
    ensures
        members_to(assignments, c, m) == own_to(assignments, c, m as nat),
    decreases m,
{
    reveal(Seq::filter);
    let all = Seq::new(m as nat, |i: int| i);
    if m > 0 {
        lemma_members(assignments, c, m - 1);
        assert(all.drop_last() =~= Seq::new((m - 1) as nat, |i: int| i));
        assert(all.last() == m - 1);
    }
}

/// The count of changes is that of the positions where two assignments differ.
pub proof fn law_changes(before: Seq<u32>, after: Seq<u32>, m: int)
    requires
        0 <= m,
    ensures
        changes_to(before, after, m) == Seq::new(m as nat, |i: int| i).filter(
            |i: int| before[i] != after[i],
        ).len(),
    decreases m,
{
    reveal(Seq::filter);
    let all = Seq::new(m as nat, |i: int| i);
    if m > 0 {
        law_changes(before, after, m - 1);
        assert(all.drop_last() =~= Seq::new((m - 1) as nat, |i: int| i));
        assert(all.last() == m - 1);
    }
}

/// The largest movement is zero or one of the movements, and none is larger.
pub proof fn law_largest(deltas: Seq<u32>, m: int)
    requires
        0 <= m <= deltas.len(),
    ensures
        !less(largest_to(deltas, m), 0),
        !is_nan(largest_to(deltas, m)),
        largest_to(deltas, m) == 0 || exists|i: int|
            0 <= i < m && #[trigger] deltas[i] == largest_to(deltas, m),
        forall|i: int| 0 <= i < m ==> !less(largest_to(deltas, m), #[trigger] deltas[i]),
    decreases m,
{
    if m > 0 {
        law_largest(deltas, m - 1);
        let before = largest_to(deltas, m - 1);
        if less(before, deltas[m - 1]) {
            assert forall|i: int| 0 <= i < m implies !less(
                largest_to(deltas, m),
                #[trigger] deltas[i],
            ) by {
                if i < m - 1 {
                    assert(!less(before, deltas[i]));
                }
            }
        } else if before != 0 {
            let i = choose|i: int| 0 <= i < m - 1 && #[trigger] deltas[i] == before;
            assert(deltas[i] == largest_to(deltas, m));
        }
    }
}

/// An iteration is settled where every movement that is a number is less than a
/// hundred-thousandth.
pub proof fn law_settled(it: Iteration)
    ensures
        it.settled() <==> forall|c: int|
            0 <= c < it.deltas.len() ==> is_nan(#[trigger] it.deltas[c]) || less(
                it.deltas[c],
                0x3727_c5ac,
            ),
{
    law_largest(it.deltas, it.deltas.len() as int);
    let most = it.max_delta();
    if it.settled() {
        assert forall|c: int| 0 <= c < it.deltas.len() implies is_nan(#[trigger] it.deltas[c])
            || less(it.deltas[c], 0x3727_c5ac) by {
            assert(!less(most, it.deltas[c]));
        }
    } else if most != 0 {
        let c = choose|c: int| 0 <= c < it.deltas.len() && #[trigger] it.deltas[c] == most;
        assert(!less(it.deltas[c], 0x3727_c5ac));
    }
}

/// A running total is the fold of the addition over the values, in order.
pub proof fn law_total<A, F: Fn(A, u32) -> A>(
    add_to: &F,
    f: spec_fn(A, u32) -> A,
    start: A,
    values: Seq<u32>,
    total: A,
)
    requires
        forall|a: A, v: u32, x: A| #[trigger] call_ensures(*add_to, (a, v), x) ==> x == f(a, v),
        accumulates(add_to, start, values, total),
    ensures
        total == values.fold_left(start, f),
    decreases values.len(),
{
    reveal(Seq::fold_left);
    if values.len() > 0 {
        let before = choose|before: A|
            {
                &&& accumulates(add_to, start, values.drop_last(), before)
                &&& #[trigger] call_ensures(*add_to, (before, values.last()), total)
            };
        law_total(add_to, f, start, values.drop_last(), before);
    }
}

/// `mean` may give `r` for a total of the values and their number.
pub open spec fn means<A: Fn(u64, u32) -> u64, M: Fn(u64, u64) -> u32>(
    add_to: &A,
    mean: &M,
    values: Seq<u32>,
    r: u32,
) -> bool {
    exists|sum: u64| #[trigger]
        call_ensures(*mean, (sum, values.len() as u64), r) && accumulates(add_to, 0u64, values, sum)
}

/// `root` may give `r` for a square that `dist` may give of the two places.
pub open spec fn is_length<D: Fn(&[u32; 14], &[u32; 14]) -> u32, R: Fn(u32) -> u32>(
    dist: &D,
    root: &R,
    to: &[u32; 14],
    from: &[u32; 14],
    r: u32,
) -> bool {
    exists|square: u32| #[trigger]
        call_ensures(*root, (square,), r) && call_ensures(*dist, (to, from), square)
}

/// An iteration assigns every vector to the nearest of all centroids, leaves the
/// centroid of a cluster without vectors where it was, and otherwise puts it at the mean
/// of exactly the vectors that are assigned to the cluster; the movement of a centroid is
/// the root of the squared distance between its new place and its old one.
pub proof fn law_iteration<
    U: Fn(&mut SmallRng) -> u64,
    D: Fn(&[u32; 14], &[u32; 14]) -> u32 + Sync,
    A: Fn(u64, u32) -> u64,
    S: Fn(u64, u64) -> u64,
    M: Fn(u64, u64) -> u32,
    R: Fn(u32) -> u32,
>(
    kmeans: &KMeans<U, D, A, S, M, R>,
    vectors: Seq<[u32; 14]>,
    before: Seq<[u32; 14]>,
    it: Iteration,
)
    requires
        kmeans.is_iteration(vectors, before, it),
    ensures
        it.assignments.len() == vectors.len(),
        it.centroids.len() == before.len(),
        it.deltas.len() == before.len(),
        forall|i: int|
            0 <= i < vectors.len() ==> finds_nearest(
                &kmeans.drawing.dist,
                &vectors[i],
                before,
                #[trigger] it.assignments[i] as int,
            ),
        forall|c: int|
            0 <= c < before.len() && own(it.assignments, c).len() == 0 ==> #[trigger] it.centroids[c]
                == before[c] && it.deltas[c] == 0,
        forall|c: int, d: int|
            #![trigger it.centroids[c]@[d]]
            0 <= c < before.len() && own(it.assignments, c).len() > 0 && 0 <= d < 14 ==> means(
                &kmeans.drawing.add_to,
                &kmeans.mean,
                own(it.assignments, c).map_values(|i: int| vectors[i]@[d]),
                it.centroids[c]@[d],
            ),
        forall|c: int|
            0 <= c < before.len() && own(it.assignments, c).len() > 0 ==> is_length(
                &kmeans.drawing.dist,
                &kmeans.root,
                &it.centroids[c],
                &before[c],
                #[trigger] it.deltas[c],
            ),
{
    assert forall|i: int| 0 <= i < vectors.len() implies finds_nearest(
        &kmeans.drawing.dist,
        &vectors[i],
        before,
        #[trigger] it.assignments[i] as int,
    ) by {
        law_nearest_centroid(
            &kmeans.drawing.dist,
            &vectors[i],
            before,
            it.assignments[i] as int,
        );
    }
    assert forall|c: int| 0 <= c < before.len() && own(it.assignments, c).len() == 0 implies
        #[trigger] it.centroids[c] == before[c] && it.deltas[c] == 0 by {
        law_members(it.assignments, c);
        assert(kmeans.updates(vectors, before, it, c));
    }
    assert forall|c: int, d: int|
        #![trigger it.centroids[c]@[d]]
        0 <= c < before.len() && own(it.assignments, c).len() > 0 && 0 <= d < 14 implies means(
        &kmeans.drawing.add_to,
        &kmeans.mean,
        own(it.assignments, c).map_values(|i: int| vectors[i]@[d]),
        it.centroids[c]@[d],
    ) by {
        law_members(it.assignments, c);
        assert(kmeans.updates(vectors, before, it, c));
        let values = column(vectors, it.assignments, c, d, it.assignments.len() as int);
        assert(values =~= own(it.assignments, c).map_values(|i: int| vectors[i]@[d]));
        assert(kmeans.averages(values, it.centroids[c]@[d]));
    }
    assert forall|c: int|
        0 <= c < before.len() && own(it.assignments, c).len() > 0 implies is_length(
        &kmeans.drawing.dist,
        &kmeans.root,
        &it.centroids[c],
        &before[c],
        #[trigger] it.deltas[c],
    ) by {
        law_members(it.assignments, c);
        assert(kmeans.updates(vectors, before, it, c));
        assert(kmeans.moves(&it.centroids[c], &before[c], it.deltas[c]));
    }
}

/// The iterations lead from the seeds to the result: each starts from the centroids that
/// the one before it left, only the last may be settled, they end early only when
/// settled, and the result is what the last one left. Where there is none, the seeds
/// remain and every vector is in the first cluster. The record counts for each iteration
/// the vectors that changed cluster.
pub proof fn law_run<
    U: Fn(&mut SmallRng) -> u64,
    D: Fn(&[u32; 14], &[u32; 14]) -> u32 + Sync,
    A: Fn(u64, u32) -> u64,
    S: Fn(u64, u64) -> u64,
    M: Fn(u64, u64) -> u32,
    R: Fn(u32) -> u32,
>(
    kmeans: &KMeans<U, D, A, S, M, R>,
    vectors: Seq<[u32; 14]>,
    seeds: Seq<[u32; 14]>,
    iterations: usize,
    r: Clustering,
)
    requires
        kmeans.iterates(vectors, seeds, iterations, r),
    ensures
        exists|its: Seq<Iteration>|
            #![trigger its.len()]
            {
                &&& its.len() <= iterations
                &&& its.len() < iterations ==> its.len() > 0 && its.last().settled()
                &&& forall|t: int|
                    0 <= t < its.len() - 1 ==> !(#[trigger] its[t]).settled()
                &&& its.len() > 0 ==> kmeans.is_iteration(vectors, seeds, its[0])
                &&& forall|t: int|
                    #![trigger its[t]]
                    1 <= t < its.len() ==> kmeans.is_iteration(
                        vectors,
                        its[t - 1].centroids,
                        its[t],
                    )
                &&& its.len() == 0 ==> r.centroids@ == seeds && r.assignments@.len()
                    == vectors.len() && (forall|i: int|
                    0 <= i < vectors.len() ==> #[trigger] r.assignments@[i] == 0)
                &&& its.len() > 0 ==> r.centroids@ == its.last().centroids && r.assignments@
                    == its.last().assignments
                &&& r.progress@.len() == its.len()
                &&& its.len() > 0 ==> r.progress@[0].changes == Seq::new(
                    vectors.len(),
                    |i: int| i,
                ).filter(|i: int| its[0].assignments[i] != 0).len()
                &&& forall|t: int|
                    #![trigger its[t]]
                    1 <= t < its.len() ==> r.progress@[t].changes == Seq::new(
                        vectors.len(),
                        |i: int| i,
                    ).filter(|i: int| its[t - 1].assignments[i] != its[t].assignments[i]).len()
                &&& forall|t: int|
                    0 <= t < its.len() ==> (#[trigger] r.progress@[t]).max_delta == 0 || its[t].deltas.contains(
                        r.progress@[t].max_delta,
                    )
                &&& forall|t: int, c: int|
                    #![trigger its[t].deltas[c]]
                    0 <= t < its.len() && 0 <= c < its[t].deltas.len() ==> !less(
                        r.progress@[t].max_delta,
                        its[t].deltas[c],
                    )
            },
{
    let its = choose|its: Seq<Iteration>|
        {
            &&& #[trigger] kmeans.is_run(vectors, seeds, its)
            &&& its.len() <= iterations
            &&& its.len() == iterations || (its.len() > 0 && its.last().settled())
            &&& r.centroids@ == KMeans::<U, D, A, S, M, R>::centroids_before(
                seeds,
                its,
                its.len() as int,
            )
            &&& r.assignments@ == KMeans::<U, D, A, S, M, R>::assignments_before(
                vectors.len(),
                its,
                its.len() as int,
            )
            &&& KMeans::<U, D, A, S, M, R>::records(vectors.len(), its, r.progress@)
        };
    let n = vectors.len();
    if its.len() > 0 {
        assert(kmeans.is_iteration(vectors, seeds, its[0]));
        let zeros = Seq::new(n, |i: int| 0u32);
        law_changes(zeros, its[0].assignments, n as int);
        lemma_same_positions(
            n,
            |i: int| zeros[i] != its[0].assignments[i],
            |i: int| its[0].assignments[i] != 0,
        );
        assert(r.progress@[0].changes == changes_to(zeros, its[0].assignments, n as int));
    }
    assert forall|t: int| 1 <= t < its.len() implies kmeans.is_iteration(
        vectors,
        its[t - 1].centroids,
        #[trigger] its[t],
    ) by {
        assert(kmeans.is_iteration(
            vectors,
            KMeans::<U, D, A, S, M, R>::centroids_before(seeds, its, t),
            its[t],
        ));
    }
    assert forall|t: int|
        #![trigger its[t]]
        1 <= t < its.len() implies r.progress@[t].changes == Seq::new(n, |i: int| i).filter(
        |i: int| its[t - 1].assignments[i] != its[t].assignments[i],
    ).len() by {
        law_changes(its[t - 1].assignments, its[t].assignments, n as int);
        assert(r.progress@[t].max_delta == its[t].max_delta());
    }
    assert forall|t: int| 0 <= t < its.len() implies (#[trigger] r.progress@[t]).max_delta == 0
        || its[t].deltas.contains(r.progress@[t].max_delta) by {
        law_largest(its[t].deltas, its[t].deltas.len() as int);
    }
    assert forall|t: int, c: int|
        #![trigger its[t].deltas[c]]
        0 <= t < its.len() && 0 <= c < its[t].deltas.len() implies !less(
        r.progress@[t].max_delta,
        its[t].deltas[c],
    ) by {
        law_largest(its[t].deltas, its[t].deltas.len() as int);
        assert(r.progress@[t].max_delta == its[t].max_delta());
    }
}

/// Predicates that agree on positions below `n` select the same of them.
proof fn lemma_same_positions(n: nat, p: spec_fn(int) -> bool, q: spec_fn(int) -> bool)
    requires
        forall|i: int| 0 <= i < n ==> #[trigger] p(i) == q(i),
    ensures
        Seq::new(n, |i: int| i).filter(p) == Seq::new(n, |i: int| i).filter(q),
    decreases n,
{
    reveal(Seq::filter);
    let all = Seq::new(n, |i: int| i);
    if n > 0 {
        lemma_same_positions((n - 1) as nat, p, q);
        assert(all.drop_last() =~= Seq::new((n - 1) as nat, |i: int| i));
        assert(all.last() == n - 1);
        assert(p(n - 1) == q(n - 1));
    }
}

/// The distances that a draw goes by are those from the nearest of all centroids that
/// were drawn before it: none of those is nearer, and one of them is as near, unless all
/// are infinitely far.
pub proof fn law_nearest_drawn<
    U: Fn(&mut SmallRng) -> u64,
    D: Fn(&[u32; 14], &[u32; 14]) -> u32 + Sync,
    A: Fn(u64, u32) -> u64,
    S: Fn(u64, u64) -> u64,
>(
    drawing: &Drawing<U, D, A, S>,
    vectors: Seq<[u32; 14]>,
    first: int,
    draws: Seq<Draw>,
    centroids: Seq<[u32; 14]>,
    c: int,
    i: int,
)
    requires
        drawing.is_seeding(vectors, first, draws, centroids),
        0 <= c < draws.len(),
        0 <= i < vectors.len(),
    ensures
        draws[c].min_dists.len() == vectors.len(),
        forall|e: int|
            0 <= e <= c ==> call_ensures(
                drawing.dist,
                (&vectors[i], &centroids[e]),
                (#[trigger] draws[e]).dists[i],
            ),
        forall|e: int|
            0 <= e <= c ==> !less((#[trigger] draws[e]).dists[i], draws[c].min_dists[i]),
        draws[c].min_dists[i] == INFINITY || exists|e: int|
            0 <= e <= c && draws[c].min_dists[i] == (#[trigger] draws[e]).dists[i],
        !is_nan(draws[c].min_dists[i]),
    decreases c,
{
    assert forall|e: int| 0 <= e <= c implies call_ensures(
        drawing.dist,
        (&vectors[i], &centroids[e]),
        (#[trigger] draws[e]).dists[i],
    ) by {
        assert(drawing.is_draw(
            vectors,
            centroids[e],
            Drawing::<U, D, A, S>::before(vectors, draws, e),
            draws[e],
        ));
    }
    let before = Drawing::<U, D, A, S>::before(vectors, draws, c);
    assert(drawing.is_draw(vectors, centroids[c], before, draws[c]));
    assert(draws[c].min_dists[i] == relaxed(before[i], draws[c].dists[i]));
    if c > 0 {
        law_nearest_drawn(drawing, vectors, first, draws, centroids, c - 1, i);
        assert(before == draws[c - 1].min_dists);
        let so_far = before[i];
        assert forall|e: int| 0 <= e <= c implies !less(
            (#[trigger] draws[e]).dists[i],
            draws[c].min_dists[i],
        ) by {
            if e < c {
                assert(!less(draws[e].dists[i], so_far));
            }
        }
        if draws[c].min_dists[i] != INFINITY && draws[c].min_dists[i] != draws[c].dists[i] {
            let e = choose|e: int| 0 <= e <= c - 1 && so_far == (#[trigger] draws[e]).dists[i];
            assert(draws[c].min_dists[i] == draws[e].dists[i]);
        }
    } else {
        assert(before[i] == INFINITY);
        assert(draws[c].min_dists[i] == INFINITY || draws[c].min_dists[i] == draws[c].dists[i]);
    }
}

/// A draw chooses the first vector at which the running total of the distances reaches
/// the drawn share of the whole total, or the last vector where none does; and the
/// chosen vector is the next centroid.
pub proof fn law_draw<
    U: Fn(&mut SmallRng) -> u64,
    D: Fn(&[u32; 14], &[u32; 14]) -> u32 + Sync,
    A: Fn(u64, u32) -> u64,
    S: Fn(u64, u64) -> u64,
>(
    drawing: &Drawing<U, D, A, S>,
    f: spec_fn(u64, u32) -> u64,
    vectors: Seq<[u32; 14]>,
    first: int,
    draws: Seq<Draw>,
    centroids: Seq<[u32; 14]>,
    c: int,
)
    requires
        drawing.is_seeding(vectors, first, draws, centroids),
        forall|a: u64, v: u32, x: u64| #[trigger]
            call_ensures(drawing.add_to, (a, v), x) ==> x == f(a, v),
        0 <= c < draws.len(),
    ensures
        centroids.len() == draws.len() + 1,
        0 <= first < vectors.len(),
        centroids[0] == vectors[first],
        centroids[c + 1] == vectors[draws[c].chosen],
        0 <= draws[c].chosen < vectors.len(),
        ({
            let total = |m: int| draws[c].min_dists.take(m).fold_left(0u64, f);
            let n = vectors.len() as int;
            &&& call_ensures(drawing.scale, (draws[c].share, total(n)), draws[c].threshold)
            &&& forall|j: int|
                0 <= j < draws[c].chosen ==> !less_or_equal_double(
                    draws[c].threshold,
                    #[trigger] total(j + 1),
                )
            &&& draws[c].chosen < n - 1 ==> less_or_equal_double(
                draws[c].threshold,
                total(draws[c].chosen + 1),
            )
        }),
        exists|g: &mut SmallRng| #[trigger] call_ensures(drawing.uniform, (g,), draws[c].share),
{
    let draw = draws[c];
    let n = vectors.len() as int;
    assert(drawing.is_draw(
        vectors,
        centroids[c],
        Drawing::<U, D, A, S>::before(vectors, draws, c),
        draw,
    ));
    assert(draw.min_dists.len() == n);
    assert forall|m: int| 1 <= m <= n implies draw.sums[m - 1] == #[trigger] draw.min_dists.take(
        m,
    ).fold_left(0u64, f) by {
        lemma_running(&drawing.add_to, f, draw.min_dists, draw.sums, m);
    }
    assert(draw.sums.last() == draw.min_dists.take(n).fold_left(0u64, f));
    assert(is_pick(draw.sums, draw.threshold, draw.chosen));
    assert forall|j: int| 0 <= j < draw.chosen implies !less_or_equal_double(
        draw.threshold,
        #[trigger] draw.min_dists.take(j + 1).fold_left(0u64, f),
    ) by {
        assert(draw.sums[j] == draw.min_dists.take(j + 1).fold_left(0u64, f));
    }
    assert(draw.sums[draw.chosen] == draw.min_dists.take(draw.chosen + 1).fold_left(0u64, f));
}

/// A running total is the fold of the addition over the values up to it.
proof fn lemma_running<A: Fn(u64, u32) -> u64>(
    add_to: &A,
    f: spec_fn(u64, u32) -> u64,
    values: Seq<u32>,
    sums: Seq<u64>,
    m: int,
)
    requires
        forall|a: u64, v: u32, x: u64| #[trigger]
            call_ensures(*add_to, (a, v), x) ==> x == f(a, v),
        is_running(add_to, values, sums),
        1 <= m <= values.len(),
    ensures
        sums[m - 1] == values.take(m).fold_left(0u64, f),
    decreases m,
{
    reveal_with_fuel(Seq::fold_left, 2);
    let part = values.take(m);
    assert(part.drop_last() =~= values.take(m - 1));
    assert(part.last() == values[m - 1]);
    if m > 1 {
        lemma_running(add_to, f, values, sums, m - 1);
    } else {
        assert(part.drop_last() =~= Seq::empty());
    }
    assert(call_ensures(
        *add_to,
        (
            if m - 1 == 0 {
                0u64
            } else {
                sums[m - 1 - 1]
            },
            values[m - 1],
        ),
        sums[m - 1],
    ));
}

} // verus!
