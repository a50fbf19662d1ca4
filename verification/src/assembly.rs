//! From grouped vectors to an index that can be searched.

use crate::cluster::{
    law_contiguous, law_no_gaps, law_ordering_permutation, members, ordering, Clusters,
};
use crate::encode::{index_bytes, law_load_written, padded};
use crate::index::IvfIndex;
use vstd::prelude::*;

verus! {

/// An index that is written from grouped vectors and loaded again can be searched, and
/// its clusters share no vector. They hold just the references that were assigned to
/// them: the label of the `i`-th vector of cluster `c` is that of the `i`-th reference
/// of the cluster.
pub proof fn law_built_index(
    vectors: Seq<[u32; 14]>,
    labels: Seq<u8>,
    assignments: Seq<u32>,
    clusters: Clusters,
    nprobe: u32,
    centroids: Seq<[u32; 14]>,
    stored: Seq<[u16; 14]>,
    index: IvfIndex,
)
    requires
        vectors.len() == assignments.len(),
        labels.len() == assignments.len(),
        stored.len() == assignments.len(),
        assignments.len() <= u32::MAX,
        centroids.len() <= u32::MAX,
        forall|i: int| 0 <= i < assignments.len() ==> #[trigger] assignments[i] < centroids.len(),
        clusters.groups(vectors, labels, assignments, centroids.len() as int),
        index.decodes(
            index_bytes(
                centroids.len() as u32,
                stored.len() as u32,
                nprobe,
                centroids,
                stored,
                clusters.labels@,
                clusters.offsets@,
                clusters.sizes@,
            ),
        ),
    ensures
        index.searchable(),
        index.disjoint(),
        index.k == centroids.len(),
        index.n == assignments.len(),
        forall|c: int, i: int|
            #![trigger index.members(c)[i]]
            0 <= c < centroids.len() && 0 <= i < members(assignments, c).len() ==> {
                &&& index.members(c).len() == members(assignments, c).len()
                &&& index.labels@[index.members(c)[i]] == labels[members(assignments, c)[i]]
            },
        forall|g: int|
            0 <= g < stored.len() ==> #[trigger] index.row(g) == stored[g]@ + seq![0u16, 0u16],
{
    law_ordering_permutation(assignments, centroids.len() as int);
    assert(clusters.labels@.len() == stored.len());
    law_load_written(
        nprobe,
        centroids,
        stored,
        clusters.labels@,
        clusters.offsets@,
        clusters.sizes@,
        index,
    );
    lemma_places(vectors, labels, assignments, clusters, centroids.len() as int, index);
    lemma_rows(stored, index);
}

/// The clusters of an index that holds grouped vectors lie within it, and their
/// vectors carry the labels of the references.
proof fn lemma_places(
    vectors: Seq<[u32; 14]>,
    labels: Seq<u8>,
    assignments: Seq<u32>,
    clusters: Clusters,
    k: int,
    index: IvfIndex,
)
    requires
        vectors.len() == assignments.len(),
        labels.len() == assignments.len(),
        assignments.len() <= u32::MAX,
        forall|i: int| 0 <= i < assignments.len() ==> #[trigger] assignments[i] < k,
        clusters.groups(vectors, labels, assignments, k),
        index.k == k,
        index.centroids@.len() == k,
        index.cluster_offsets@ == clusters.offsets@,
        index.cluster_sizes@ == clusters.sizes@,
        index.labels@ == clusters.labels@,
        index.vectors@.len() == 16 * assignments.len(),
        index.vectors_u8@.len() == 16 * assignments.len(),
    ensures
        index.searchable(),
        index.disjoint(),
        forall|c: int, i: int|
            #![trigger index.members(c)[i]]
            0 <= c < k && 0 <= i < members(assignments, c).len() ==> {
                &&& index.members(c).len() == members(assignments, c).len()
                &&& index.labels@[index.members(c)[i]] == labels[members(assignments, c)[i]]
            },
{
    let order = ordering(assignments, k);
    law_ordering_permutation(assignments, k);
    assert forall|c: int| 0 <= c < index.clusters() implies {
        let end = #[trigger] index.cluster_offsets@[c] + index.cluster_sizes@[c];
        &&& end <= index.labels@.len()
        &&& end * 16 <= index.vectors@.len()
        &&& end * 16 <= index.vectors_u8@.len()
    } by {
        law_no_gaps(assignments, k, c);
        assert(clusters.offsets@[c] == ordering(assignments, c).len());
        assert(clusters.sizes@[c] == members(assignments, c).len());
    }
    assert(index.disjoint()) by {
        assert forall|a: int, b: int|
            0 <= a < index.clusters() && 0 <= b < index.clusters() && a != b implies {
            ||| #[trigger] index.cluster_offsets@[a] + index.cluster_sizes@[a]
                <= #[trigger] index.cluster_offsets@[b]
            ||| index.cluster_offsets@[b] + index.cluster_sizes@[b] <= index.cluster_offsets@[a]
        } by {
            assert(clusters.offsets@[a] == ordering(assignments, a).len());
            assert(clusters.offsets@[b] == ordering(assignments, b).len());
            assert(clusters.sizes@[a] == members(assignments, a).len());
            assert(clusters.sizes@[b] == members(assignments, b).len());
            if a < b {
                law_no_gaps(assignments, b, a);
            } else {
                law_no_gaps(assignments, a, b);
            }
        }
    }
    assert forall|c: int, i: int|
        #![trigger index.members(c)[i]]
        0 <= c < k && 0 <= i < members(assignments, c).len() implies {
        &&& index.members(c).len() == members(assignments, c).len()
        &&& index.labels@[index.members(c)[i]] == labels[members(assignments, c)[i]]
    } by {
        law_contiguous(assignments, k, c, i);
        assert(clusters.offsets@[c] == ordering(assignments, c).len());
        assert(clusters.sizes@[c] == members(assignments, c).len());
        assert(index.members(c)[i] == clusters.offsets@[c] + i);
        assert(clusters.labels@[clusters.offsets@[c] + i] == labels[order[clusters.offsets@[c]
            + i]]);
    }
}

/// The rows of an index that holds padded vectors are those vectors and two zeros.
proof fn lemma_rows(stored: Seq<[u16; 14]>, index: IvfIndex)
    requires
        index.vectors@ == padded(stored),
    ensures
        forall|g: int|
            0 <= g < stored.len() ==> #[trigger] index.row(g) == stored[g]@ + seq![0u16, 0u16],
{
    assert forall|g: int| 0 <= g < stored.len() implies #[trigger] index.row(g) == stored[g]@
        + seq![0u16, 0u16] by {
        assert forall|j: int| 0 <= j < 16 implies #[trigger] index.row(g)[j] == (stored[g]@
            + seq![0u16, 0u16])[j] by {
            assert((g * 16 + j) / 16 == g && (g * 16 + j) % 16 == j);
            assert(index.row(g)[j] == padded(stored)[g * 16 + j]);
        }
        assert(index.row(g) =~= stored[g]@ + seq![0u16, 0u16]);
    }
}

} // verus!
