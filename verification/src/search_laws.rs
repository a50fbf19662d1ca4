//! What a search finds, said of the index, the distances and the score themselves.

use crate::ieee::{less, place, INFINITY};
use crate::index::IvfIndex;
use crate::nearest::{
    farthest, frauds, law_nearest_kept, law_nearest_len, lemma_farthest, lemma_all_kept,
    nearest_of,
};
use crate::quantize::single_byte;
use crate::rank::{is_ranking, law_ranking_distinct};
use crate::search::{capacity, manhattan, manhattan_to, quantized_query};
use crate::topk::vacant;
use vstd::prelude::*;

verus! {

/// The five slots hold the nearest of the candidates at the given distances: a slot
/// names a candidate at a distance less than infinity, or -1 for none; no candidate is
/// named twice; and no candidate that is left out is nearer than one that is named, nor
/// left out for none at all.
pub open spec fn are_nearest(dists: Seq<u32>, slots: Seq<int>) -> bool {
    &&& slots.len() == 5
    &&& forall|s: int|
        0 <= s < 5 ==> (#[trigger] slots[s] == -1 || (0 <= slots[s] < dists.len() && less(
            dists[slots[s]],
            INFINITY,
        )))
    &&& forall|s: int, t: int|
        0 <= s < t < 5 && #[trigger] slots[s] >= 0 ==> slots[s] != #[trigger] slots[t]
    &&& forall|j: int, s: int|
        #![trigger dists[j], slots[s]]
        0 <= j < dists.len() && less(dists[j], INFINITY) && !slots.contains(j) && 0 <= s < 5
            ==> slots[s] >= 0 && !less(dists[j], dists[slots[s]])
}

/// How many of the named candidates carry label 1.
pub open spec fn marked(slots: Seq<int>, labels: Seq<u8>) -> nat {
    slots.filter(|s: int| s >= 0 && labels[s] == 1).len()
}

/// The item of a slot: that of a candidate, or an infinitely far one with label 0.
spec fn slot_item(items: Seq<(int, int)>, slot: int) -> (int, int) {
    if slot < 0 {
        (INFINITY as int, 0)
    } else {
        items[slot]
    }
}

/// What a store of five that starts vacant holds of the items, slot by slot.
spec fn holds_slots(items: Seq<(int, int)>, kept: Seq<(int, int)>, slots: Seq<int>) -> bool {
    &&& slots.len() == 5
    &&& kept.len() == 5
    &&& forall|s: int|
        0 <= s < 5 ==> (#[trigger] slots[s] == -1 || (0 <= slots[s] < items.len()
            && items[slots[s]].0 < INFINITY))
    &&& forall|s: int| 0 <= s < 5 ==> #[trigger] kept[s] == slot_item(items, slots[s])
    &&& forall|s: int, t: int|
        0 <= s < t < 5 && #[trigger] slots[s] >= 0 ==> slots[s] != #[trigger] slots[t]
    &&& forall|j: int, s: int|
        #![trigger items[j], slots[s]]
        0 <= j < items.len() && items[j].0 < INFINITY && !slots.contains(j) && 0 <= s < 5
            ==> slots[s] >= 0 && items[slots[s]].0 <= items[j].0
}

/// Every store of five that starts vacant has such slots.
proof fn lemma_slots(items: Seq<(int, int)>) -> (slots: Seq<int>)
    ensures
        holds_slots(items, nearest_of(5, vacant() + items), slots),
    decreases items.len(),
{
    let all = vacant() + items;
    let kept = nearest_of(5, all);
    if items.len() == 0 {
        let slots = seq![-1int, -1, -1, -1, -1];
        assert(all =~= vacant());
        lemma_all_kept(5, vacant());
        assert forall|s: int| 0 <= s < 5 implies #[trigger] kept[s] == slot_item(
            items,
            slots[s],
        ) by {}
        slots
    } else {
        let rest = items.drop_last();
        let before = nearest_of(5, vacant() + rest);
        let old_slots = lemma_slots(rest);
        let n = rest.len() as int;
        let item = items.last();
        assert(all.drop_last() =~= vacant() + rest);
        assert(all.last() == item);
        lemma_farthest(before);
        let f = farthest(before);
        assert(before[f] == slot_item(rest, old_slots[f]));
        if item.0 < before[f].0 {
            let slots = old_slots.update(f, n);
            assert(kept == before.update(f, item));
            assert forall|s: int| 0 <= s < 5 implies #[trigger] kept[s] == slot_item(
                items,
                slots[s],
            ) by {
                assert(before[s] == slot_item(rest, old_slots[s]));
                if s != f && old_slots[s] >= 0 {
                    assert(items[old_slots[s]] == rest[old_slots[s]]);
                }
            }
            assert forall|s: int| 0 <= s < 5 implies (#[trigger] slots[s] == -1 || (0 <= slots[s]
                < items.len() && items[slots[s]].0 < INFINITY)) by {
                assert(old_slots[s] == -1 || 0 <= old_slots[s] < rest.len());
                if s != f && old_slots[s] >= 0 {
                    assert(items[old_slots[s]] == rest[old_slots[s]]);
                }
            }
            assert forall|s: int, t: int|
                0 <= s < t < 5 && #[trigger] slots[s] >= 0 implies slots[s]
                != #[trigger] slots[t] by {
                assert(old_slots[s] < n && old_slots[t] < n);
                assert(old_slots[s] >= 0 ==> old_slots[s] != old_slots[t]);
            }
            assert forall|j: int, s: int|
                #![trigger items[j], slots[s]]
                0 <= j < items.len() && items[j].0 < INFINITY && !slots.contains(j) && 0 <= s
                    < 5 implies slots[s] >= 0 && items[slots[s]].0 <= items[j].0 by {
                assert(slots[f] == n);
                assert(j != n);
                assert(items[j] == rest[j]);
                if old_slots.contains(j) {
                    let t = choose|t: int| 0 <= t < 5 && old_slots[t] == j;
                    if t != f {
                        assert(slots[t] == j);
                    }
                    assert(before[f] == rest[j]);
                    assert(before[s].0 <= before[f].0);
                    assert(before[s] == slot_item(rest, old_slots[s]));
                    if s != f {
                        assert(old_slots[s] >= 0);
                        assert(items[old_slots[s]] == rest[old_slots[s]]);
                    }
                } else {
                    assert(old_slots[s] >= 0 && rest[old_slots[s]].0 <= rest[j].0);
                    assert(old_slots[f] >= 0 && rest[old_slots[f]].0 <= rest[j].0);
                    if s != f {
                        assert(items[old_slots[s]] == rest[old_slots[s]]);
                    }
                }
            }
            slots
        } else {
            assert(kept == before);
            assert forall|s: int| 0 <= s < 5 implies #[trigger] kept[s] == slot_item(
                items,
                old_slots[s],
            ) by {
                assert(before[s] == slot_item(rest, old_slots[s]));
                if old_slots[s] >= 0 {
                    assert(items[old_slots[s]] == rest[old_slots[s]]);
                }
            }
            assert forall|s: int| 0 <= s < 5 implies (#[trigger] old_slots[s] == -1 || (0
                <= old_slots[s] < items.len() && items[old_slots[s]].0 < INFINITY)) by {
                if old_slots[s] >= 0 {
                    assert(items[old_slots[s]] == rest[old_slots[s]]);
                }
            }
            assert forall|j: int, s: int|
                #![trigger items[j], old_slots[s]]
                0 <= j < items.len() && items[j].0 < INFINITY && !old_slots.contains(j) && 0 <= s
                    < 5 implies old_slots[s] >= 0 && items[old_slots[s]].0 <= items[j].0 by {
                assert(before[s].0 <= before[f].0);
                assert(before[s] == slot_item(rest, old_slots[s]));
                if j < n {
                    assert(items[j] == rest[j]);
                    assert(old_slots[s] >= 0 && rest[old_slots[s]].0 <= rest[j].0);
                }
                if old_slots[s] >= 0 {
                    assert(items[old_slots[s]] == rest[old_slots[s]]);
                }
            }
            old_slots
        }
    }
}

/// Counting tags is counting the slots that carry them.
proof fn lemma_count(kept: Seq<(int, int)>, slots: Seq<int>, pred: spec_fn(int) -> bool)
    requires
        kept.len() == slots.len(),
        forall|s: int| 0 <= s < kept.len() ==> ((#[trigger] kept[s]).1 == 1 <==> pred(slots[s])),
    ensures
        frauds(kept) == slots.filter(pred).len(),
    decreases kept.len(),
{
    reveal(Seq::filter);
    if kept.len() > 0 {
        lemma_count(kept.drop_last(), slots.drop_last(), pred);
        assert(kept.last() == kept[kept.len() - 1]);
    }
}

/// The frauds among the five nearest items are those among the candidates that the
/// slots name.
pub proof fn lemma_five(dists: Seq<u32>, labels: Seq<u8>, items: Seq<(int, int)>) -> (slots: Seq<
    int,
>)
    requires
        dists.len() == items.len(),
        labels.len() == items.len(),
        forall|i: int|
            0 <= i < items.len() ==> #[trigger] items[i] == (place(dists[i]), labels[i] as int),
    ensures
        are_nearest(dists, slots),
        frauds(nearest_of(5, vacant() + items)) == marked(slots, labels),
{
    let kept = nearest_of(5, vacant() + items);
    let slots = lemma_slots(items);
    assert forall|i: int| 0 <= i < items.len() implies (items[i].0 < INFINITY <==> less(
        #[trigger] dists[i],
        INFINITY,
    )) by {
        assert(items[i] == (place(dists[i]), labels[i] as int));
    }
    assert forall|s: int| 0 <= s < 5 implies (#[trigger] slots[s] == -1 || (0 <= slots[s]
        < dists.len() && less(dists[slots[s]], INFINITY))) by {
        if slots[s] >= 0 {
            assert(items[slots[s]] == (place(dists[slots[s]]), labels[slots[s]] as int));
        }
    }
    assert forall|j: int, s: int|
        #![trigger dists[j], slots[s]]
        0 <= j < dists.len() && less(dists[j], INFINITY) && !slots.contains(j) && 0 <= s
            < 5 implies slots[s] >= 0 && !less(dists[j], dists[slots[s]]) by {
        assert(items[j] == (place(dists[j]), labels[j] as int));
        assert(slots[s] >= 0);
        assert(items[slots[s]] == (place(dists[slots[s]]), labels[slots[s]] as int));
    }
    let pred = |s: int| s >= 0 && labels[s] == 1;
    assert forall|s: int| 0 <= s < kept.len() implies ((#[trigger] kept[s]).1 == 1 <==> pred(
        slots[s],
    )) by {
        assert(kept[s] == slot_item(items, slots[s]));
        if slots[s] >= 0 {
            assert(items[slots[s]] == (place(dists[slots[s]]), labels[slots[s]] as int));
        }
    }
    lemma_count(kept, slots, pred);
    slots
}

/// Ranking candidates looks at every one of them: whatever their number, the five that
/// are counted are the nearest by exact distance.
pub proof fn law_rerank(index: &IvfIndex, candidates: Seq<u32>, dists: Seq<u32>)
    requires
        candidates.len() == dists.len(),
    ensures
        exists|slots: Seq<int>|
            #![trigger are_nearest(dists, slots)]
            {
                &&& are_nearest(dists, slots)
                &&& frauds(nearest_of(5, vacant() + index.neighbours(candidates, dists)))
                    == slots.filter(
                    |s: int| s >= 0 && index.labels@[candidates[s] as int] == 1,
                ).len()
            },
{
    let labels = Seq::new(candidates.len(), |i: int| index.labels@[candidates[i] as int]);
    let slots = lemma_five(dists, labels, index.neighbours(candidates, dists));
    lemma_same_filter(
        slots,
        |s: int| s >= 0 && labels[s] == 1,
        |s: int| s >= 0 && index.labels@[candidates[s] as int] == 1,
    );
}

/// Equal predicates select equally many.
pub proof fn lemma_same_filter(s: Seq<int>, p: spec_fn(int) -> bool, q: spec_fn(int) -> bool)
    requires
        forall|i: int| 0 <= i < s.len() ==> p(#[trigger] s[i]) == q(s[i]),
    ensures
        s.filter(p) == s.filter(q),
    decreases s.len(),
{
    reveal(Seq::filter);
    if s.len() > 0 {
        let rest = s.drop_last();
        assert forall|i: int| 0 <= i < rest.len() implies p(#[trigger] rest[i]) == q(rest[i]) by {
            assert(rest[i] == s[i]);
        }
        lemma_same_filter(rest, p, q);
        assert(s.last() == s[s.len() - 1]);
    }
}

/// Clusters that a search may look at: all, but no more than 1024.
pub open spec fn searched(k: usize) -> int {
    if k < 1024 {
        k as int
    } else {
        1024
    }
}

/// Candidates that a search asks for: 40 or 60 where those are named, 50 otherwise.
pub open spec fn wanted(topk: usize) -> int {
    if topk == 40 || topk == 60 {
        topk as int
    } else {
        50
    }
}

/// The clusters probed are the `nprobe` whose centroids are nearest, or all.
pub open spec fn probes_nearest(k: int, dists: Seq<u32>, nprobe: int, clusters: Seq<usize>) -> bool {
    &&& dists.len() == k
    &&& clusters.len() == if nprobe < k {
        nprobe
    } else {
        k
    }
    &&& clusters.no_duplicates()
    &&& forall|a: int| 0 <= a < clusters.len() ==> #[trigger] clusters[a] < k
    &&& forall|a: int, c: int|
        #![trigger clusters[a], dists[c]]
        0 <= a < clusters.len() && 0 <= c < k && !clusters.contains(c as usize) ==> !less(
            dists[c],
            dists[clusters[a] as int],
        )
}

/// Vector `g` stands in cluster `c` of the index.
pub open spec fn stands_in(index: &IvfIndex, c: int, g: int) -> bool {
    index.cluster_offsets@[c] <= g < index.cluster_offsets@[c] + index.cluster_sizes@[c]
}

/// Quantized distance of the query from vector `g`.
pub open spec fn quick_distance(index: &IvfIndex, query: Seq<u32>, g: int) -> int {
    manhattan(quantized_query(query), index.vectors_u8@.subrange(g * 16, g * 16 + 16))
}

/// The candidates are vectors of the clusters probed, and where one is left out, as many
/// as are asked for were found that are no farther by quantized distance.
pub open spec fn are_candidates(
    index: &IvfIndex,
    query: Seq<u32>,
    clusters: Seq<usize>,
    count: int,
    found: Seq<u32>,
) -> bool {
    &&& found.len() <= count
    &&& forall|i: int|
        0 <= i < found.len() ==> exists|a: int|
            0 <= a < clusters.len() && stands_in(
                index,
                #[trigger] clusters[a] as int,
                #[trigger] found[i] as int,
            )
    &&& forall|a: int, g: int, i: int|
        #![trigger stands_in(index, clusters[a] as int, g), found[i]]
        0 <= a < clusters.len() && stands_in(index, clusters[a] as int, g) && (forall|m: int|
            0 <= m < found.len() ==> #[trigger] found[m] != g) && 0 <= i < found.len()
            ==> quick_distance(index, query, found[i] as int) <= quick_distance(index, query, g)
    &&& forall|a: int, g: int|
        #![trigger stands_in(index, clusters[a] as int, g)]
        0 <= a < clusters.len() && stands_in(index, clusters[a] as int, g) && (forall|m: int|
            0 <= m < found.len() ==> #[trigger] found[m] != g) ==> found.len() == count
}

/// `dist` may give `d` for the query and a vector with the given components.
pub open spec fn gives<G: Fn(&[u32; 16], &[u16; 16]) -> u32>(
    dist: &G,
    query: &[u32; 16],
    components: Seq<u16>,
    d: u32,
) -> bool {
    exists|v: [u16; 16]| v@ == components && #[trigger] call_ensures(*dist, (query, &v), d)
}

/// The places of the vectors of the given clusters, cluster by cluster.
pub open spec fn listed_places(index: &IvfIndex, clusters: Seq<usize>) -> Seq<int> {
    clusters.map_values(
        |c: usize|
            Seq::new(
                index.cluster_sizes@[c as int] as nat,
                |j: int| index.cluster_offsets@[c as int] + j,
            ),
    ).flatten()
}

/// A scan goes through every vector of every cluster it is given, cluster by cluster and
/// in order.
pub proof fn law_all_members(index: &IvfIndex, clusters: Seq<usize>)
    ensures
        index.all_members(clusters) == listed_places(index, clusters),
    decreases clusters.len(),
{
    let lists = clusters.map_values(
        |c: usize|
            Seq::new(
                index.cluster_sizes@[c as int] as nat,
                |j: int| index.cluster_offsets@[c as int] + j,
            ),
    );
    if clusters.len() == 0 {
        assert(lists.flatten() =~= Seq::empty());
    } else {
        let fewer = clusters.drop_last();
        law_all_members(index, fewer);
        lists.lemma_flatten_and_flatten_alt_are_equivalent();
        lists.drop_last().lemma_flatten_and_flatten_alt_are_equivalent();
        assert(lists.drop_last() =~= fewer.map_values(
            |c: usize|
                Seq::new(
                    index.cluster_sizes@[c as int] as nat,
                    |j: int| index.cluster_offsets@[c as int] + j,
                ),
        ));
        assert(lists.last() =~= index.members(clusters.last() as int));
    }
}

/// What a scan offers to its store, in order, and what it lists of what is kept.
pub proof fn law_scan(
    index: &IvfIndex,
    q: Seq<u8>,
    clusters: Seq<usize>,
    topk: usize,
    found: Seq<u32>,
)
    ensures
        index.scanned(q, index.all_members(clusters)) == listed_places(index, clusters).map_values(
            |g: int| (manhattan(q, index.vectors_u8@.subrange(g * 16, g * 16 + 16)), g),
        ),
        index.is_scan(q, clusters, topk, found) <==> {
            let kept = nearest_of(
                wanted(topk) as nat,
                index.scanned(q, index.all_members(clusters)),
            );
            &&& found.len() == kept.len()
            &&& forall|i: int| 0 <= i < found.len() ==> (#[trigger] found[i]) == kept[i].1
        },
{
    law_all_members(index, clusters);
    assert(index.scanned(q, index.all_members(clusters)) =~= listed_places(
        index,
        clusters,
    ).map_values(|g: int| (manhattan(q, index.vectors_u8@.subrange(g * 16, g * 16 + 16)), g)));
}

/// A search ranks the centroids, scans the clusters that rank first, and counts the
/// frauds among the five that are kept of the candidates, offered in order.
pub proof fn law_search(
    index: &IvfIndex,
    q: Seq<u8>,
    nprobe: usize,
    topk: usize,
    centroid_dists: Seq<u32>,
    clusters: Seq<usize>,
    found: Seq<u32>,
    dists: Seq<u32>,
    r: u32,
)
    requires
        index.is_search(q, nprobe, topk, centroid_dists, clusters, found, dists, r),
    ensures
        centroid_dists.len() == searched(index.k),
        is_ranking(centroid_dists, clusters, nprobe as int),
        index.is_scan(q, clusters, topk, found),
        dists.len() == found.len(),
        r == frauds(
            nearest_of(
                5,
                vacant() + Seq::new(
                    found.len(),
                    |i: int| (place(dists[i]), index.labels@[found[i] as int] as int),
                ),
            ),
        ),
{
    assert(index.neighbours(found, dists) =~= Seq::new(
        found.len(),
        |i: int| (place(dists[i]), index.labels@[found[i] as int] as int),
    ));
}

/// An index can be searched where the clusters that are looked at have centroids and lie
/// within the labels and the vectors.
pub proof fn law_searchable(index: &IvfIndex)
    ensures
        index.searchable() <==> {
            let k = searched(index.k);
            &&& k <= index.centroids@.len()
            &&& k <= index.cluster_offsets@.len()
            &&& k <= index.cluster_sizes@.len()
            &&& index.labels@.len() <= 0xffff_ffff
            &&& forall|c: int|
                0 <= c < k ==> {
                    let end = #[trigger] index.cluster_offsets@[c] + index.cluster_sizes@[c];
                    &&& end <= index.labels@.len()
                    &&& 16 * end <= index.vectors@.len()
                    &&& 16 * end <= index.vectors_u8@.len()
                }
        },
{
}

/// What a search does, from the query to the score: it probes the clusters whose
/// centroids are nearest, takes the candidates of smallest quantized distance from all
/// of them, measures every candidate, and counts the frauds among the five nearest.
pub proof fn law_scores<
    F: Fn(&[u32; 16], &[u32; 14]) -> u32,
    G: Fn(&[u32; 16], &[u16; 16]) -> u32,
>(
    index: &IvfIndex,
    query: &[u32; 16],
    nprobe: usize,
    topk: usize,
    centroid_dist: &F,
    vector_dist: &G,
    r: u32,
)
    requires
        index.searchable(),
        index.scores(query, nprobe, topk, centroid_dist, vector_dist, r),
    ensures
        exists|
            centroid_dists: Seq<u32>,
            clusters: Seq<usize>,
            found: Seq<u32>,
            dists: Seq<u32>,
            slots: Seq<int>,
        |
            {
                &&& #[trigger] probes_nearest(
                    searched(index.k),
                    centroid_dists,
                    nprobe as int,
                    clusters,
                )
                &&& forall|c: int|
                    0 <= c < searched(index.k) ==> call_ensures(
                        *centroid_dist,
                        (query, &index.centroids@[c]),
                        #[trigger] centroid_dists[c],
                    )
                &&& #[trigger] are_candidates(
                    index,
                    query@,
                    clusters,
                    wanted(topk),
                    found,
                )
                &&& dists.len() == found.len()
                &&& forall|i: int|
                    0 <= i < found.len() ==> gives(
                        vector_dist,
                        query,
                        index.vectors@.subrange(
                            found[i] as int * 16,
                            found[i] as int * 16 + 16,
                        ),
                        #[trigger] dists[i],
                    )
                &&& #[trigger] are_nearest(dists, slots)
                &&& r == slots.filter(|s: int| s >= 0 && index.labels@[found[s] as int] == 1).len()
            },
{
    let (centroid_dists, clusters, found, dists) = choose|
        centroid_dists: Seq<u32>,
        clusters: Seq<usize>,
        found: Seq<u32>,
        dists: Seq<u32>,
    |
        {
            &&& #[trigger] index.is_search(
                quantized_query(query@),
                nprobe,
                topk,
                centroid_dists,
                clusters,
                found,
                dists,
                r,
            )
            &&& forall|i: int|
                0 <= i < centroid_dists.len() ==> call_ensures(
                    *centroid_dist,
                    (query, &index.centroids@[i]),
                    #[trigger] centroid_dists[i],
                )
            &&& forall|i: int|
                0 <= i < dists.len() ==> index.measures(
                    vector_dist,
                    query,
                    found[i] as int,
                    #[trigger] dists[i],
                )
        };
    lemma_probes(centroid_dists, clusters, nprobe as int);
    lemma_candidates(index, query@, clusters, topk, found);
    law_rerank(index, found, dists);
    let slots = choose|slots: Seq<int>|
        #![trigger are_nearest(dists, slots)]
        {
            &&& are_nearest(dists, slots)
            &&& r == slots.filter(|s: int| s >= 0 && index.labels@[found[s] as int] == 1).len()
        };
    assert forall|i: int| 0 <= i < found.len() implies gives(
        vector_dist,
        query,
        index.vectors@.subrange(found[i] as int * 16, found[i] as int * 16 + 16),
        #[trigger] dists[i],
    ) by {
        assert(index.measures(vector_dist, query, found[i] as int, dists[i]));
    }
    assert(are_candidates(index, query@, clusters, wanted(topk), found));
    assert(probes_nearest(searched(index.k), centroid_dists, nprobe as int, clusters));
    assert(are_nearest(dists, slots));
}

/// A ranking probes the nearest clusters.
proof fn lemma_probes(dists: Seq<u32>, clusters: Seq<usize>, nprobe: int)
    requires
        is_ranking(dists, clusters, nprobe),
    ensures
        probes_nearest(dists.len() as int, dists, nprobe, clusters),
{
    law_ranking_distinct(dists, clusters, nprobe);
}

/// A position that is looked at stands in one of the clusters.
proof fn lemma_stands(index: &IvfIndex, clusters: Seq<usize>, x: int) -> (a: int)
    requires
        0 <= x < index.all_members(clusters).len(),
    ensures
        0 <= a < clusters.len(),
        stands_in(index, clusters[a] as int, index.all_members(clusters)[x]),
    decreases clusters.len(),
{
    let rest = clusters.drop_last();
    let before = index.all_members(rest);
    if x < before.len() {
        let a = lemma_stands(index, rest, x);
        assert(rest[a] == clusters[a]);
        a
    } else {
        clusters.len() - 1
    }
}

/// The first phase finds candidates.
proof fn lemma_candidates(
    index: &IvfIndex,
    query: Seq<u32>,
    clusters: Seq<usize>,
    topk: usize,
    found: Seq<u32>,
)
    requires
        index.is_scan(quantized_query(query), clusters, topk, found),
    ensures
        are_candidates(
            index,
            query,
            clusters,
            wanted(topk),
            found,
        ),
{
    broadcast use vstd::seq_lib::group_to_multiset_ensures;

    let q = quantized_query(query);
    let positions = index.all_members(clusters);
    let items = index.scanned(q, positions);
    let kept = nearest_of(capacity(topk), items);
    law_nearest_len(capacity(topk), items);
    law_nearest_kept(capacity(topk), items);
    assert forall|i: int| 0 <= i < found.len() implies exists|a: int|
        0 <= a < clusters.len() && stands_in(
            index,
            #[trigger] clusters[a] as int,
            #[trigger] found[i] as int,
        ) by {
        assert(kept.contains(kept[i]));
        assert(kept.to_multiset().count(kept[i]) <= items.to_multiset().count(kept[i]));
        assert(items.contains(kept[i]));
        let x = choose|x: int| 0 <= x < items.len() && items[x] == kept[i];
        assert(items[x].1 == positions[x]);
        let a = lemma_stands(index, clusters, x);
        assert(stands_in(index, clusters[a] as int, found[i] as int));
    }
    assert forall|a: int, g: int|
        #![trigger stands_in(index, clusters[a] as int, g)]
        0 <= a < clusters.len() && stands_in(index, clusters[a] as int, g) implies positions.contains(
        g,
    ) by {
        let c = clusters[a] as int;
        let o = g - index.cluster_offsets@[c];
        assert(index.members(c).len() == index.cluster_sizes@[c]);
        assert(index.members(c)[o] == g);
        index.lemma_all_members(clusters, a, o);
    }
    assert forall|a: int, g: int, i: int|
        #![trigger stands_in(index, clusters[a] as int, g), found[i]]
        0 <= a < clusters.len() && stands_in(index, clusters[a] as int, g) && (forall|m: int|
            0 <= m < found.len() ==> #[trigger] found[m] != g) && 0 <= i
            < found.len() implies quick_distance(index, query, found[i] as int) <= quick_distance(
        index,
        query,
        g,
    ) by {
        index.law_scan_nearest(q, clusters, topk, found, g, i);
    }
    assert forall|a: int, g: int|
        #![trigger stands_in(index, clusters[a] as int, g)]
        0 <= a < clusters.len() && stands_in(index, clusters[a] as int, g) && (forall|m: int|
            0 <= m < found.len() ==> #[trigger] found[m] != g) implies found.len() == capacity(
        topk,
    ) by {
        if positions.len() <= capacity(topk) {
            index.law_scan_whole(q, clusters, topk, found);
            let f = found.map_values(|x: u32| x as int);
            assert(f.contains(g));
            let m = choose|m: int| 0 <= m < f.len() && f[m] == g;
            assert(found[m] == g);
        }
    }
}

/// Each byte counts for itself: changing one of the 16 bytes changes the distance by
/// just what the difference of that byte changes.
pub proof fn law_manhattan_each(a: Seq<u8>, b: Seq<u8>, j: int, x: u8)
    requires
        a.len() == 16,
        b.len() == 16,
        0 <= j < 16,
    ensures
        manhattan(a.update(j, x), b) - manhattan(a, b) == (if x < b[j] {
            b[j] - x
        } else {
            x - b[j]
        }) - (if a[j] < b[j] {
            b[j] - a[j]
        } else {
            a[j] - b[j]
        }),
        manhattan(a, a) == 0,
{
    lemma_manhattan_each(a, b, j, x, 16);
    lemma_manhattan_same(a, 16);
}

/// Changing one byte changes the sum of those up to `m` if it is one of them.
proof fn lemma_manhattan_each(a: Seq<u8>, b: Seq<u8>, j: int, x: u8, m: int)
    requires
        a.len() == 16,
        0 <= j < 16,
        m <= 16,
    ensures
        manhattan_to(a.update(j, x), b, m) - manhattan_to(a, b, m) == if j < m {
            (if x < b[j] {
                b[j] - x
            } else {
                x - b[j]
            }) - (if a[j] < b[j] {
                b[j] - a[j]
            } else {
                a[j] - b[j]
            })
        } else {
            0
        },
    decreases m,
{
    if m > 0 {
        lemma_manhattan_each(a, b, j, x, m - 1);
    }
}

/// Equal bytes have no distance.
proof fn lemma_manhattan_same(a: Seq<u8>, m: int)
    ensures
        manhattan_to(a, a, m) == 0,
    decreases m,
{
    if m > 0 {
        lemma_manhattan_same(a, m - 1);
    }
}

/// Every component of a query is quantized for itself.
pub proof fn law_quantized_query(query: Seq<u32>, i: int)
    requires
        0 <= i < 16,
    ensures
        quantized_query(query).len() == 16,
        quantized_query(query)[i] == single_byte(query[i]) as u8,
{
}

} // verus!
