//! Vectors grouped by cluster, so that each cluster lies in one piece.

use vstd::prelude::*;

verus! {

/// Positions below `m` that are assigned to cluster `c`, in order.
pub open spec fn members_to(assignments: Seq<u32>, c: int, m: int) -> Seq<int>
    decreases m,
{
    if m <= 0 {
        Seq::empty()
    } else if assignments[m - 1] == c {
        members_to(assignments, c, m - 1).push(m - 1)
    } else {
        members_to(assignments, c, m - 1)
    }
}

/// Positions that are assigned to cluster `c`, in order.
pub open spec fn members(assignments: Seq<u32>, c: int) -> Seq<int> {
    members_to(assignments, c, assignments.len() as int)
}

/// Positions below `m` that are assigned to the first `k` clusters, cluster by
/// cluster.
pub open spec fn ordering_to(assignments: Seq<u32>, k: int, m: int) -> Seq<int>
    decreases k,
{
    if k <= 0 {
        Seq::empty()
    } else {
        ordering_to(assignments, k - 1, m) + members_to(assignments, k - 1, m)
    }
}

/// Positions that are assigned to the first `k` clusters, cluster by cluster.
pub open spec fn ordering(assignments: Seq<u32>, k: int) -> Seq<int> {
    ordering_to(assignments, k, assignments.len() as int)
}

/// Vectors and labels cluster by cluster, with the place of each cluster.
pub struct Clusters {
    pub offsets: Vec<u32>,
    pub sizes: Vec<u32>,
    pub vectors: Vec<[u32; 14]>,
    pub labels: Vec<u8>,
}

impl Clusters {
    /// The vectors and labels stand in the order of their clusters, and each cluster
    /// is where the ones before it end.
    pub open spec fn groups(
        &self,
        vectors: Seq<[u32; 14]>,
        labels: Seq<u8>,
        assignments: Seq<u32>,
        k: int,
    ) -> bool {
        &&& self.offsets@.len() == k
        &&& self.sizes@.len() == k
        &&& forall|c: int|
            0 <= c < k ==> #[trigger] self.offsets@[c] == ordering(assignments, c).len()
        &&& forall|c: int|
            0 <= c < k ==> #[trigger] self.sizes@[c] == members(assignments, c).len()
        &&& self.vectors@ == ordering(assignments, k).map_values(|i: int| vectors[i])
        &&& self.labels@ == ordering(assignments, k).map_values(|i: int| labels[i])
    }
}

/// Positions of each of the `k` clusters.
fn buckets(assignments: &[u32], k: usize) -> (r: Vec<Vec<usize>>)
    requires
        forall|i: int| 0 <= i < assignments@.len() ==> #[trigger] assignments@[i] < k,
    ensures
        r@.len() == k,
        forall|c: int|
            0 <= c < k ==> (#[trigger] r@[c])@.map_values(|i: usize| i as int) == members(
                assignments@,
                c,
            ),
{
    let mut clusters: Vec<Vec<usize>> = Vec::new();
    for c in 0..k
        invariant
            clusters@.len() == c,
            forall|j: int| 0 <= j < c ==> (#[trigger] clusters@[j])@ == Seq::<usize>::empty(),
    {
        clusters.push(Vec::new());
    }
    assert forall|c: int| 0 <= c < k implies (#[trigger] clusters@[c])@.map_values(
        |i: usize| i as int,
    ) == members_to(assignments@, c, 0) by {
        assert(clusters@[c]@.map_values(|i: usize| i as int) =~= Seq::empty());
    }
    for i in 0..assignments.len()
        invariant
            forall|j: int| 0 <= j < assignments@.len() ==> #[trigger] assignments@[j] < k,
            clusters@.len() == k,
            forall|c: int|
                0 <= c < k ==> (#[trigger] clusters@[c])@.map_values(|j: usize| j as int)
                    == members_to(assignments@, c, i as int),
    {
        let ci: usize = assignments[i] as usize;
        let ghost before = clusters@;
        clusters[ci].push(i);
        assert forall|c: int| 0 <= c < k implies (#[trigger] clusters@[c])@.map_values(
            |j: usize| j as int,
        ) == members_to(assignments@, c, i + 1) by {
            assert(before[c]@.map_values(|j: usize| j as int) == members_to(
                assignments@,
                c,
                i as int,
            ));
            if c == ci {
                assert(clusters@[c]@ == before[c]@.push(i));
                assert(clusters@[c]@.map_values(|j: usize| j as int) =~= before[c]@.map_values(
                    |j: usize| j as int,
                ).push(i as int));
            } else {
                assert(clusters@[c] == before[c]);
            }
        }
    }
    clusters
}

/// Groups vectors and labels by cluster.
pub fn organize(vectors: &[[u32; 14]], labels: &[u8], assignments: &[u32], k: usize) -> (r:
    Clusters)
    requires
        vectors@.len() == assignments@.len(),
        labels@.len() == assignments@.len(),
        assignments@.len() <= u32::MAX,
        forall|i: int| 0 <= i < assignments@.len() ==> #[trigger] assignments@[i] < k,
    ensures
        r.groups(vectors@, labels@, assignments@, k as int),
{
    let clusters: Vec<Vec<usize>> = buckets(assignments, k);
    let mut offsets: Vec<u32> = Vec::new();
    let mut sizes: Vec<u32> = Vec::new();
    let mut sorted_vectors: Vec<[u32; 14]> = Vec::new();
    let mut sorted_labels: Vec<u8> = Vec::new();
    let mut offset: u32 = 0;
    let ghost a = assignments@;
    let ghost pick_vector = |i: int| vectors@[i];
    let ghost pick_label = |i: int| labels@[i];
    assert(ordering(a, 0).map_values(pick_vector) =~= Seq::empty());
    assert(ordering(a, 0).map_values(pick_label) =~= Seq::empty());
    for ci in 0..k
        invariant
            vectors@.len() == a.len(),
            labels@.len() == a.len(),
            a.len() <= u32::MAX,
            a == assignments@,
            forall|i: int| 0 <= i < a.len() ==> #[trigger] a[i] < k,
            clusters@.len() == k,
            forall|c: int|
                0 <= c < k ==> (#[trigger] clusters@[c])@.map_values(|j: usize| j as int)
                    == members(a, c),
            pick_vector == (|i: int| vectors@[i]),
            pick_label == (|i: int| labels@[i]),
            offsets@.len() == ci,
            sizes@.len() == ci,
            offset == ordering(a, ci as int).len(),
            forall|c: int| 0 <= c < ci ==> #[trigger] offsets@[c] == ordering(a, c).len(),
            forall|c: int| 0 <= c < ci ==> #[trigger] sizes@[c] == members(a, c).len(),
            sorted_vectors@ == ordering(a, ci as int).map_values(pick_vector),
            sorted_labels@ == ordering(a, ci as int).map_values(pick_label),
    {
        let cluster: &Vec<usize> = &clusters[ci];
        let ghost ids = members(a, ci as int);
        let ghost done = ordering(a, ci as int);
        proof {
            assert(cluster@.map_values(|j: usize| j as int) == ids);
            lemma_ordering_len(a, ci + 1, a.len() as int);
            assert(ordering(a, ci + 1) == done + ids);
            assert(done.len() + ids.len() <= a.len());
        }
        offsets.push(offset);
        sizes.push(cluster.len() as u32);
        assert(ids.take(0).map_values(pick_vector) =~= Seq::empty());
        assert(ids.take(0).map_values(pick_label) =~= Seq::empty());
        for j in 0..cluster.len()
            invariant
                vectors@.len() == a.len(),
                labels@.len() == a.len(),
                ids == members(a, ci as int),
                cluster@.map_values(|i: usize| i as int) == ids,
                pick_vector == (|i: int| vectors@[i]),
                pick_label == (|i: int| labels@[i]),
                sorted_vectors@ == done.map_values(pick_vector) + ids.take(j as int).map_values(
                    pick_vector,
                ),
                sorted_labels@ == done.map_values(pick_label) + ids.take(j as int).map_values(
                    pick_label,
                ),
        {
            let idx: usize = cluster[j];
            proof {
                assert(cluster@.map_values(|i: usize| i as int)[j as int] == idx);
                lemma_member(a, ci as int, a.len() as int, j as int);
                assert(ids.take(j + 1) =~= ids.take(j as int).push(idx as int));
                assert(ids.take(j + 1).map_values(pick_vector) =~= ids.take(j as int).map_values(
                    pick_vector,
                ).push(vectors@[idx as int]));
                assert(ids.take(j + 1).map_values(pick_label) =~= ids.take(j as int).map_values(
                    pick_label,
                ).push(labels@[idx as int]));
            }
            sorted_vectors.push(vectors[idx]);
            sorted_labels.push(labels[idx]);
            assert(sorted_vectors@ =~= done.map_values(pick_vector) + ids.take(j + 1).map_values(
                pick_vector,
            ));
            assert(sorted_labels@ =~= done.map_values(pick_label) + ids.take(j + 1).map_values(
                pick_label,
            ));
        }
        proof {
            assert(ids.take(ids.len() as int) =~= ids);
            assert((done + ids).map_values(pick_vector) =~= done.map_values(pick_vector)
                + ids.map_values(pick_vector));
            assert((done + ids).map_values(pick_label) =~= done.map_values(pick_label)
                + ids.map_values(pick_label));
            assert(cluster@.len() == ids.len());
        }
        offset = offset + cluster.len() as u32;
    }
    Clusters { offsets, sizes, vectors: sorted_vectors, labels: sorted_labels }
}

/// Smallest and largest size of a cluster (both zero if there is none).
pub fn size_range(sizes: &Vec<u32>) -> (r: (u32, u32))
    ensures
        sizes@.len() == 0 ==> r == (0u32, 0u32),
        sizes@.len() > 0 ==> {
            &&& sizes@.contains(r.0)
            &&& sizes@.contains(r.1)
            &&& forall|c: int| 0 <= c < sizes@.len() ==> r.0 <= #[trigger] sizes@[c] <= r.1
        },
{
    if sizes.len() == 0 {
        return (0, 0);
    }
    let mut low: u32 = sizes[0];
    let mut high: u32 = sizes[0];
    for i in 1..sizes.len()
        invariant
            1 <= i <= sizes@.len(),
            sizes@.contains(low),
            sizes@.contains(high),
            forall|c: int| 0 <= c < i ==> low <= #[trigger] sizes@[c] <= high,
    {
        let size: u32 = sizes[i];
        if size < low {
            low = size;
        }
        if size > high {
            high = size;
        }
    }
    (low, high)
}

/// A member is a position that is assigned to the cluster, and members increase.
proof fn lemma_member(assignments: Seq<u32>, c: int, m: int, j: int)
    requires
        0 <= m <= assignments.len(),
        0 <= j < members_to(assignments, c, m).len(),
    ensures
        0 <= members_to(assignments, c, m)[j] < m,
        assignments[members_to(assignments, c, m)[j]] == c,
        forall|i: int|
            0 <= i < j ==> #[trigger] members_to(assignments, c, m)[i] < members_to(
                assignments,
                c,
                m,
            )[j],
    decreases m,
{
    let before = members_to(assignments, c, m - 1);
    if j < before.len() {
        lemma_member(assignments, c, m - 1, j);
    } else {
        assert forall|i: int| 0 <= i < j implies #[trigger] members_to(assignments, c, m)[i]
            < members_to(assignments, c, m)[j] by {
            lemma_member(assignments, c, m - 1, i);
        }
    }
}

/// A position is a member of the cluster it is assigned to.
pub proof fn lemma_is_member(assignments: Seq<u32>, c: int, m: int, i: int)
    requires
        0 <= i < m <= assignments.len(),
        assignments[i] == c,
    ensures
        members_to(assignments, c, m).contains(i),
    decreases m,
{
    let all = members_to(assignments, c, m);
    if i == m - 1 {
        assert(all[all.len() - 1] == i);
    } else {
        lemma_is_member(assignments, c, m - 1, i);
        let before = members_to(assignments, c, m - 1);
        let j = choose|j: int| 0 <= j < before.len() && before[j] == i;
        assert(all[j] == i);
    }
}

/// One more position that is assigned to one of the first `k` clusters makes their
/// order one longer.
proof fn lemma_ordering_step(assignments: Seq<u32>, k: int, m: int)
    requires
        0 <= k,
        0 < m <= assignments.len(),
    ensures
        ordering_to(assignments, k, m).len() == ordering_to(assignments, k, m - 1).len() + if
        assignments[m - 1] < k {
            1int
        } else {
            0
        },
    decreases k,
{
    if k > 0 {
        lemma_ordering_step(assignments, k - 1, m);
    }
}

/// The first `k` clusters hold no more positions than there are, and all of them if
/// nothing is assigned elsewhere.
proof fn lemma_ordering_len(assignments: Seq<u32>, k: int, m: int)
    requires
        0 <= k,
        0 <= m <= assignments.len(),
    ensures
        ordering_to(assignments, k, m).len() <= m,
        (forall|i: int| 0 <= i < m ==> #[trigger] assignments[i] < k) ==> ordering_to(
            assignments,
            k,
            m,
        ).len() == m,
    decreases m,
{
    if m > 0 {
        lemma_ordering_step(assignments, k, m);
        lemma_ordering_len(assignments, k, m - 1);
    } else {
        lemma_ordering_none(assignments, k);
    }
}

/// Without positions there is no order.
proof fn lemma_ordering_none(assignments: Seq<u32>, k: int)
    ensures
        ordering_to(assignments, k, 0).len() == 0,
    decreases k,
{
    if k > 0 {
        lemma_ordering_none(assignments, k - 1);
    }
}

/// Where a position of the order comes from: the cluster, and the rank in it.
proof fn lemma_place(assignments: Seq<u32>, k: int, j: int) -> (r: (int, int))
    requires
        0 <= j < ordering(assignments, k).len(),
    ensures
        0 <= r.0 < k,
        0 <= r.1 < members(assignments, r.0).len(),
        j == ordering(assignments, r.0).len() + r.1,
        ordering(assignments, k)[j] == members(assignments, r.0)[r.1],
    decreases k,
{
    let before = ordering(assignments, k - 1);
    if j < before.len() {
        lemma_place(assignments, k - 1, j)
    } else {
        (k - 1, j - before.len())
    }
}

/// Each cluster lies in one piece of the order: rank `i` of cluster `c` stands `i`
/// places after the clusters before it end.
pub proof fn law_contiguous(assignments: Seq<u32>, k: int, c: int, i: int)
    requires
        0 <= c < k,
        0 <= i < members(assignments, c).len(),
    ensures
        ordering(assignments, c).len() + i < ordering(assignments, k).len(),
        ordering(assignments, k)[ordering(assignments, c).len() + i] == members(
            assignments,
            c,
        )[i],
        assignments[members(assignments, c)[i]] == c,
    decreases k,
{
    lemma_member(assignments, c, assignments.len() as int, i);
    if c < k - 1 {
        law_contiguous(assignments, k - 1, c, i);
    }
}

/// The clusters fill the order without gaps: each starts where the one before it
/// ends, and all of them lie within the order.
pub proof fn law_no_gaps(assignments: Seq<u32>, k: int, c: int)
    requires
        0 <= c < k,
    ensures
        ordering(assignments, c + 1).len() == ordering(assignments, c).len() + members(
            assignments,
            c,
        ).len(),
        ordering(assignments, c + 1).len() <= ordering(assignments, k).len(),
    decreases k,
{
    if c < k - 1 {
        law_no_gaps(assignments, k - 1, c);
    }
}

/// Grouping loses nothing and repeats nothing: where every position is assigned to
/// one of the `k` clusters, their order holds each position exactly once.
pub proof fn law_ordering_permutation(assignments: Seq<u32>, k: int)
    requires
        0 <= k,
        forall|i: int| 0 <= i < assignments.len() ==> #[trigger] assignments[i] < k,
    ensures
        ordering(assignments, k).len() == assignments.len(),
        ordering(assignments, k).no_duplicates(),
        forall|i: int|
            0 <= i < assignments.len() ==> #[trigger] ordering(assignments, k).contains(i),
        forall|j: int|
            0 <= j < assignments.len() ==> 0 <= #[trigger] ordering(assignments, k)[j]
                < assignments.len(),
{
    let all = ordering(assignments, k);
    let n = assignments.len() as int;
    lemma_ordering_len(assignments, k, n);
    assert forall|j: int| 0 <= j < n implies 0 <= #[trigger] all[j] < n by {
        let p = lemma_place(assignments, k, j);
        lemma_member(assignments, p.0, n, p.1);
    }
    assert forall|i: int| 0 <= i < n implies #[trigger] all.contains(i) by {
        let c = assignments[i] as int;
        lemma_is_member(assignments, c, n, i);
        let m = members(assignments, c);
        let j = choose|j: int| 0 <= j < m.len() && m[j] == i;
        law_contiguous(assignments, k, c, j);
        assert(all[ordering(assignments, c).len() + j] == i);
    }
    assert forall|a: int, b: int| 0 <= a < all.len() && 0 <= b < all.len() && a != b implies all[a]
        != all[b] by {
        let p = lemma_place(assignments, k, a);
        let q = lemma_place(assignments, k, b);
        lemma_member(assignments, p.0, n, p.1);
        lemma_member(assignments, q.0, n, q.1);
        if p.0 == q.0 {
            assert(p.1 != q.1);
            if p.1 < q.1 {
                assert(members(assignments, p.0)[p.1] < members(assignments, p.0)[q.1]);
            } else {
                assert(members(assignments, p.0)[q.1] < members(assignments, p.0)[p.1]);
            }
        }
    }
}

} // verus!
