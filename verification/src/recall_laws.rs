//! What grouping by cluster and both searches do, said of the vectors, the places and
//! the distances themselves.

use crate::build_laws::{are_distances, law_members, own};
use crate::cluster::{
    law_contiguous, law_no_gaps, law_ordering_permutation, members, ordering, Clusters,
};
use crate::ieee::{less, place, INFINITY};
use crate::nearest::{frauds, nearest_of};
use crate::rank::{is_ranking, law_ranking_distinct};
use crate::recall::{agreements, frauds_ranked, is_low, measures_all, Corpus};
use crate::search_laws::{are_nearest, lemma_five, lemma_same_filter};
use crate::topk::vacant;
use vstd::prelude::*;

verus! {

/// The places of the vectors of a cluster.
pub open spec fn places_of(clusters: &Clusters, c: int) -> Seq<int> {
    Seq::new(clusters.sizes@[c] as nat, |j: int| clusters.offsets@[c] + j)
}

/// The places of the vectors of the given clusters, cluster by cluster.
pub open spec fn probed(clusters: &Clusters, probes: Seq<usize>) -> Seq<int> {
    probes.map_values(|c: usize| places_of(clusters, c as int)).flatten()
}

/// Probing looks at every vector of every cluster that is probed, and at nothing else:
/// at the places of the first, all of them in order, then at those of the next, and so on.
pub proof fn law_probed(clusters: &Clusters, probes: Seq<usize>)
    ensures
        clusters.all_positions(probes) == probed(clusters, probes),
        forall|a: int, j: int|
            #![trigger places_of(clusters, probes[a] as int)[j]]
            0 <= a < probes.len() && 0 <= j < clusters.sizes@[probes[a] as int]
                ==> clusters.all_positions(probes).contains(
                places_of(clusters, probes[a] as int)[j],
            ),
        forall|i: int|
            0 <= i < clusters.all_positions(probes).len() ==> exists|a: int|
                0 <= a < probes.len() && {
                    let c = #[trigger] probes[a] as int;
                    clusters.offsets@[c] <= #[trigger] clusters.all_positions(probes)[i]
                        < clusters.offsets@[c] + clusters.sizes@[c]
                },
    decreases probes.len(),
{
    let all = clusters.all_positions(probes);
    let lists = probes.map_values(|c: usize| places_of(clusters, c as int));
    if probes.len() == 0 {
        assert(lists.flatten() =~= Seq::empty());
    } else {
        let fewer = probes.drop_last();
        let most = clusters.all_positions(fewer);
        let last = probes.last() as int;
        let some = places_of(clusters, last);
        law_probed(clusters, fewer);
        assert(some =~= clusters.positions(last));
        assert(all == most + some);
        lists.lemma_flatten_and_flatten_alt_are_equivalent();
        lists.drop_last().lemma_flatten_and_flatten_alt_are_equivalent();
        assert(lists.drop_last() =~= fewer.map_values(|c: usize| places_of(clusters, c as int)));
        assert(lists.last() == some);
        assert forall|a: int, j: int|
            #![trigger places_of(clusters, probes[a] as int)[j]]
            0 <= a < probes.len() && 0 <= j < clusters.sizes@[probes[a] as int]
            implies all.contains(places_of(clusters, probes[a] as int)[j]) by {
            let g = places_of(clusters, probes[a] as int)[j];
            if a < fewer.len() {
                assert(fewer[a] == probes[a]);
                assert(most.contains(places_of(clusters, fewer[a] as int)[j]));
                let i = choose|i: int| 0 <= i < most.len() && most[i] == g;
                assert(all[i] == most[i]);
            } else {
                assert(all[most.len() + j] == some[j]);
            }
        }
        assert forall|i: int| 0 <= i < all.len() implies exists|a: int|
            0 <= a < probes.len() && {
                let c = #[trigger] probes[a] as int;
                clusters.offsets@[c] <= #[trigger] all[i] < clusters.offsets@[c]
                    + clusters.sizes@[c]
            } by {
            if i < most.len() {
                let a = choose|a: int|
                    0 <= a < fewer.len() && {
                        let c = #[trigger] fewer[a] as int;
                        clusters.offsets@[c] <= most[i] < clusters.offsets@[c] + clusters.sizes@[c]
                    };
                assert(probes[a] == fewer[a]);
                assert(all[i] == most[i]);
            } else {
                assert(all[i] == some[i - most.len()]);
                assert(probes[probes.len() - 1] as int == last);
            }
        }
    }
}

/// `dists` are distances that `dist` may give between the query and the vectors at the
/// places, one for each place.
pub open spec fn are_measured<D: Fn(&[u32; 14], &[u32; 14]) -> u32>(
    dist: &D,
    query: &[u32; 14],
    vectors: Seq<[u32; 14]>,
    places: Seq<int>,
    dists: Seq<u32>,
) -> bool {
    &&& dists.len() == places.len()
    &&& forall|i: int|
        0 <= i < places.len() ==> call_ensures(
            *dist,
            (query, &vectors[places[i]]),
            #[trigger] dists[i],
        )
}

/// A probe counts the frauds among the five nearest of all vectors of the clusters that
/// are probed.
pub proof fn law_probe<D: Fn(&[u32; 14], &[u32; 14]) -> u32>(
    clusters: &Clusters,
    dist: &D,
    query: &[u32; 14],
    probes: Seq<usize>,
    r: u32,
)
    requires
        clusters.finds(dist, query, probes, r),
    ensures
        exists|places: Seq<int>, dists: Seq<u32>, slots: Seq<int>|
            #![trigger are_measured(dist, query, clusters.vectors@, places, dists), are_nearest(dists, slots)]
            {
                &&& places == probed(clusters, probes)
                &&& are_measured(dist, query, clusters.vectors@, places, dists)
                &&& are_nearest(dists, slots)
                &&& r == slots.filter(|s: int| s >= 0 && clusters.labels@[places[s]] == 1).len()
            },
{
    let places = clusters.all_positions(probes);
    law_probed(clusters, probes);
    let dists = choose|dists: Seq<u32>|
        {
            &&& #[trigger] clusters.measured(dist, query, places, dists)
            &&& r == frauds(nearest_of(5, vacant() + clusters.labelled(places, dists)))
        };
    let labels = Seq::new(places.len(), |i: int| clusters.labels@[places[i]]);
    let slots = lemma_five(dists, labels, clusters.labelled(places, dists));
    assert(are_measured(dist, query, clusters.vectors@, places, dists));
    lemma_same_filter(
        slots,
        |s: int| s >= 0 && labels[s] == 1,
        |s: int| s >= 0 && clusters.labels@[places[s]] == 1,
    );
}

/// What a probe offers to a store of five, in order: every vector of the clusters that
/// are probed, at its distance and with its label.
pub proof fn law_finds<D: Fn(&[u32; 14], &[u32; 14]) -> u32>(
    clusters: &Clusters,
    dist: &D,
    query: &[u32; 14],
    probes: Seq<usize>,
    r: u32,
)
    ensures
        clusters.finds(dist, query, probes, r) <==> exists|dists: Seq<u32>| #[trigger]
            offers(clusters, dist, query, probes, dists, r),
{
    law_probed(clusters, probes);
    let places = probed(clusters, probes);
    assert(places == clusters.all_positions(probes));
    if clusters.finds(dist, query, probes, r) {
        let dists = choose|dists: Seq<u32>|
            {
                &&& #[trigger] clusters.measured(dist, query, places, dists)
                &&& r == frauds(nearest_of(5, vacant() + clusters.labelled(places, dists)))
            };
        assert(clusters.labelled(places, dists) =~= Seq::new(
            places.len(),
            |i: int| (place(dists[i]), clusters.labels@[places[i]] as int),
        ));
        assert(offers(clusters, dist, query, probes, dists, r));
    }
    if exists|dists: Seq<u32>| #[trigger] offers(clusters, dist, query, probes, dists, r) {
        let dists = choose|dists: Seq<u32>| #[trigger]
            offers(clusters, dist, query, probes, dists, r);
        assert(clusters.labelled(places, dists) =~= Seq::new(
            places.len(),
            |i: int| (place(dists[i]), clusters.labels@[places[i]] as int),
        ));
        assert(clusters.measured(dist, query, clusters.all_positions(probes), dists));
    }
}

/// Of the vectors of the clusters at these distances, `r` among the five kept are frauds.
pub open spec fn offers<D: Fn(&[u32; 14], &[u32; 14]) -> u32>(
    clusters: &Clusters,
    dist: &D,
    query: &[u32; 14],
    probes: Seq<usize>,
    dists: Seq<u32>,
    r: u32,
) -> bool {
    let places = probed(clusters, probes);
    &&& are_measured(dist, query, clusters.vectors@, places, dists)
    &&& r == frauds(
        nearest_of(
            5,
            vacant() + Seq::new(
                places.len(),
                |i: int| (place(dists[i]), clusters.labels@[places[i]] as int),
            ),
        ),
    )
}

/// Five different places, and no other place is nearer.
pub open spec fn are_five_nearest(dists: Seq<u32>, found: Seq<usize>) -> bool {
    &&& found.len() == 5
    &&& found.no_duplicates()
    &&& forall|a: int| 0 <= a < 5 ==> (#[trigger] found[a] as int) < dists.len()
    &&& forall|a: int, j: int|
        #![trigger found[a], dists[j]]
        0 <= a < 5 && 0 <= j < dists.len() && !found.contains(j as usize) ==> !less(
            dists[j],
            dists[found[a] as int],
        )
}

/// The exhaustive search counts the frauds among the five nearest of all vectors.
pub proof fn law_exhaustive<D: Fn(&[u32; 14], &[u32; 14]) -> u32>(
    corpus: &Corpus<'_>,
    dist: &D,
    query: &[u32; 14],
    r: u32,
)
    requires
        corpus.exhausts(dist, query, r),
        corpus.vectors@.len() >= 5,
    ensures
        exists|dists: Seq<u32>, found: Seq<usize>|
            #![trigger are_distances(dist, query, corpus.vectors@, dists), are_five_nearest(dists, found)]
            {
                &&& are_distances(dist, query, corpus.vectors@, dists)
                &&& are_five_nearest(dists, found)
                &&& is_ranking(dists, found, 5)
                &&& r == found.filter(|i: usize| corpus.labels@[i as int] == 1).len()
            },
{
    let (dists, ranked) = choose|dists: Seq<u32>, ranked: Seq<usize>|
        {
            &&& measures_all(dist, query, corpus.vectors@, dists)
            &&& #[trigger] is_ranking(dists, ranked, 5)
            &&& r == frauds_ranked(corpus.labels@, ranked, 5)
        };
    assert(are_distances(dist, query, corpus.vectors@, dists));
    law_ranking_distinct(dists, ranked, 5);
    law_frauds_ranked(corpus.labels@, ranked, 5);
    assert(ranked.take(5) =~= ranked);
    assert(are_five_nearest(dists, ranked));
}

/// The frauds among ranked places are those that carry label 1.
pub proof fn law_frauds_ranked(labels: Seq<u8>, ranked: Seq<usize>, m: int)
    requires
        0 <= m <= ranked.len(),
    ensures
        frauds_ranked(labels, ranked, m) == ranked.take(m).filter(
            |i: usize| labels[i as int] == 1,
        ).len(),
    decreases m,
{
    reveal(Seq::filter);
    if m > 0 {
        law_frauds_ranked(labels, ranked, m - 1);
        assert(ranked.take(m).drop_last() =~= ranked.take(m - 1));
        assert(ranked.take(m).last() == ranked[m - 1]);
    }
}

/// Decisions agree where both counts are below three or both are not.
pub proof fn law_agreements(a: Seq<u32>, b: Seq<u32>, m: int)
    requires
        0 <= m,
    ensures
        agreements(a, b, m) == Seq::new(m as nat, |i: int| i).filter(
            |i: int| (a[i] < 3 && b[i] < 3) || (a[i] >= 3 && b[i] >= 3),
        ).len(),
    decreases m,
{
    reveal(Seq::filter);
    let all = Seq::new(m as nat, |i: int| i);
    if m > 0 {
        law_agreements(a, b, m - 1);
        assert(all.drop_last() =~= Seq::new((m - 1) as nat, |i: int| i));
        assert(all.last() == m - 1);
    }
}

/// Recall is low where fewer than 99 in 100 agree.
pub proof fn law_low(matches: int, samples: int)
    ensures
        is_low(matches, samples) <==> 100 * matches < 99 * samples,
{
}

/// Both searches of a sample, and in how many cases they lead to the same decision: each
/// case is searched exhaustively and by probing the clusters whose centroids are nearest.
pub proof fn law_tally<D: Fn(&[u32; 14], &[u32; 14]) -> u32>(
    corpus: &Corpus<'_>,
    dist: &D,
    sampled: Seq<usize>,
    nprobe: usize,
    matches: int,
)
    requires
        corpus.tallies(dist, sampled, nprobe, matches),
    ensures
        exists|exact: Seq<u32>, found: Seq<u32>|
            #![trigger exact.len(), found.len()]
            {
                &&& exact.len() == sampled.len()
                &&& found.len() == sampled.len()
                &&& forall|i: int|
                    0 <= i < sampled.len() ==> corpus.exhausts(
                        dist,
                        &corpus.vectors@[sampled[i] as int],
                        #[trigger] exact[i],
                    )
                &&& forall|i: int|
                    0 <= i < sampled.len() ==> probes_first(
                        corpus,
                        dist,
                        &corpus.vectors@[sampled[i] as int],
                        nprobe,
                        #[trigger] found[i],
                    )
                &&& matches == Seq::new(sampled.len(), |i: int| i).filter(
                    |i: int| (exact[i] < 3 && found[i] < 3) || (exact[i] >= 3 && found[i] >= 3),
                ).len()
            },
{
    let (exact, found) = choose|exact: Seq<u32>, found: Seq<u32>|
        {
            &&& exact.len() == sampled.len()
            &&& found.len() == sampled.len()
            &&& forall|i: int|
                0 <= i < sampled.len() ==> corpus.exhausts(
                    dist,
                    &corpus.vectors@[sampled[i] as int],
                    #[trigger] exact[i],
                )
            &&& forall|i: int|
                0 <= i < sampled.len() ==> corpus.probes(
                    dist,
                    &corpus.vectors@[sampled[i] as int],
                    nprobe,
                    #[trigger] found[i],
                )
            &&& matches == #[trigger] agreements(exact, found, sampled.len() as int)
        };
    law_agreements(exact, found, sampled.len() as int);
    assert forall|i: int| 0 <= i < sampled.len() implies probes_first(
        corpus,
        dist,
        &corpus.vectors@[sampled[i] as int],
        nprobe,
        #[trigger] found[i],
    ) by {
        law_probes(corpus, dist, &corpus.vectors@[sampled[i] as int], nprobe, found[i]);
    }
}

/// `r` may be what probing the `nprobe` clusters finds whose centroids are nearest (all,
/// if there are fewer): they are different, and no other centroid is nearer.
pub open spec fn probes_first<D: Fn(&[u32; 14], &[u32; 14]) -> u32>(
    corpus: &Corpus<'_>,
    dist: &D,
    query: &[u32; 14],
    nprobe: usize,
    r: u32,
) -> bool {
    exists|dists: Seq<u32>, probes: Seq<usize>|
        #![trigger are_distances(dist, query, corpus.centroids@, dists), corpus.clusters.finds(dist, query, probes, r)]
        {
            &&& are_distances(dist, query, corpus.centroids@, dists)
            &&& nprobe <= dists.len() ==> probes.len() == nprobe
            &&& nprobe > dists.len() ==> probes.len() == dists.len()
            &&& probes.no_duplicates()
            &&& forall|a: int| 0 <= a < probes.len() ==> (#[trigger] probes[a] as int) < dists.len()
            &&& forall|a: int, j: int|
                #![trigger probes[a], dists[j]]
                0 <= a < probes.len() && 0 <= j < dists.len() && !probes.contains(j as usize)
                    ==> !less(dists[j], dists[probes[a] as int])
            &&& is_ranking(dists, probes, nprobe as int)
            &&& corpus.clusters.finds(dist, query, probes, r)
        }
}

/// The clusters that are probed are those with the nearest centroids.
pub proof fn law_probes<D: Fn(&[u32; 14], &[u32; 14]) -> u32>(
    corpus: &Corpus<'_>,
    dist: &D,
    query: &[u32; 14],
    nprobe: usize,
    r: u32,
)
    requires
        corpus.probes(dist, query, nprobe, r),
    ensures
        probes_first(corpus, dist, query, nprobe, r),
{
    let (dists, ranked) = choose|dists: Seq<u32>, ranked: Seq<usize>|
        {
            &&& measures_all(dist, query, corpus.centroids@, dists)
            &&& #[trigger] is_ranking(dists, ranked, nprobe as int)
            &&& corpus.clusters.finds(dist, query, ranked, r)
        };
    assert(are_distances(dist, query, corpus.centroids@, dists));
    law_ranking_distinct(dists, ranked, nprobe as int);
}

/// Grouping puts every vector, with its label, at one place of its cluster: `order` says
/// which vector stands where. Each cluster lies in one piece that starts where the one
/// before it ends, and keeps its vectors in the order they had.
pub open spec fn is_grouped(
    clusters: &Clusters,
    vectors: Seq<[u32; 14]>,
    labels: Seq<u8>,
    assignments: Seq<u32>,
    k: int,
    order: Seq<int>,
) -> bool {
    &&& clusters.offsets@.len() == k
    &&& clusters.sizes@.len() == k
    &&& order.len() == assignments.len()
    &&& order.no_duplicates()
    &&& forall|g: int| 0 <= g < order.len() ==> 0 <= #[trigger] order[g] < assignments.len()
    &&& forall|i: int| 0 <= i < assignments.len() ==> #[trigger] order.contains(i)
    &&& clusters.vectors@.len() == order.len()
    &&& clusters.labels@.len() == order.len()
    &&& forall|g: int|
        0 <= g < order.len() ==> #[trigger] clusters.vectors@[g] == vectors[order[g]]
    &&& forall|g: int| 0 <= g < order.len() ==> #[trigger] clusters.labels@[g] == labels[order[g]]
    &&& k > 0 ==> clusters.offsets@[0] == 0
    &&& forall|c: int|
        #![trigger clusters.offsets@[c]]
        0 < c < k ==> clusters.offsets@[c] == clusters.offsets@[c - 1] + clusters.sizes@[c - 1]
    &&& forall|c: int|
        0 <= c < k ==> #[trigger] clusters.sizes@[c] == own(assignments, c).len()
    &&& forall|c: int|
        0 <= c < k ==> #[trigger] clusters.offsets@[c] + clusters.sizes@[c] <= order.len()
    &&& forall|c: int, j: int|
        0 <= c < k && 0 <= j < clusters.sizes@[c] ==> order[#[trigger] places_of(clusters, c)[j]]
            == own(assignments, c)[j]
}

/// Grouping by cluster is what [`is_grouped`] says.
pub proof fn law_grouped(
    clusters: &Clusters,
    vectors: Seq<[u32; 14]>,
    labels: Seq<u8>,
    assignments: Seq<u32>,
    k: int,
)
    requires
        clusters.groups(vectors, labels, assignments, k),
        0 <= k,
        forall|i: int| 0 <= i < assignments.len() ==> #[trigger] assignments[i] < k,
    ensures
        exists|order: Seq<int>| #[trigger]
            is_grouped(clusters, vectors, labels, assignments, k, order),
{
    let order = ordering(assignments, k);
    law_ordering_permutation(assignments, k);
    assert forall|c: int|
        #![trigger clusters.offsets@[c]]
        0 < c < k implies clusters.offsets@[c] == clusters.offsets@[c - 1] + clusters.sizes@[c
        - 1] by {
        law_no_gaps(assignments, k, c - 1);
        assert(clusters.offsets@[c - 1] == ordering(assignments, c - 1).len());
        assert(clusters.sizes@[c - 1] == members(assignments, c - 1).len());
    }
    assert forall|c: int| 0 <= c < k implies #[trigger] clusters.sizes@[c] == own(
        assignments,
        c,
    ).len() by {
        law_members(assignments, c);
    }
    assert forall|c: int| 0 <= c < k implies #[trigger] clusters.offsets@[c] + clusters.sizes@[c]
        <= order.len() by {
        law_no_gaps(assignments, k, c);
    }
    assert forall|c: int, j: int| 0 <= c < k && 0 <= j < clusters.sizes@[c] implies order[
        #[trigger] places_of(clusters, c)[j]] == own(assignments, c)[j] by {
        law_members(assignments, c);
        assert(clusters.offsets@[c] == ordering(assignments, c).len());
        law_contiguous(assignments, k, c, j);
    }
    if k > 0 {
        assert(clusters.offsets@[0] == ordering(assignments, 0).len());
    }
    assert forall|g: int| 0 <= g < order.len() implies #[trigger] clusters.vectors@[g]
        == vectors[order[g]] by {
        assert(order.map_values(|i: int| vectors[i])[g] == vectors[order[g]]);
    }
    assert forall|g: int| 0 <= g < order.len() implies #[trigger] clusters.labels@[g]
        == labels[order[g]] by {
        assert(order.map_values(|i: int| labels[i])[g] == labels[order[g]]);
    }
    assert(clusters.vectors@.len() == order.len());
    assert(clusters.labels@.len() == order.len());
    assert(forall|i: int| 0 <= i < assignments.len() ==> #[trigger] order.contains(i));
    assert(order.no_duplicates());
    assert(is_grouped(clusters, vectors, labels, assignments, k, order));
}

/// Mapping keeps how many are selected, where the selection agrees.
proof fn lemma_mapped_count<T>(
    s: Seq<T>,
    f: spec_fn(T) -> int,
    p: spec_fn(T) -> bool,
    q: spec_fn(int) -> bool,
)
    requires
        forall|i: int| 0 <= i < s.len() ==> p(#[trigger] s[i]) == q(f(s[i])),
    ensures
        s.filter(p).len() == s.map_values(f).filter(q).len(),
    decreases s.len(),
{
    reveal(Seq::filter);
    if s.len() > 0 {
        let rest = s.drop_last();
        assert forall|i: int| 0 <= i < rest.len() implies p(#[trigger] rest[i]) == q(
            f(rest[i]),
        ) by {
            assert(rest[i] == s[i]);
        }
        lemma_mapped_count(rest, f, p, q);
        assert(s.map_values(f).drop_last() =~= rest.map_values(f));
        assert(s.map_values(f).last() == f(s.last()));
        assert(s.last() == s[s.len() - 1]);
    } else {
        assert(s.map_values(f) =~= Seq::empty());
    }
}

/// Taking out one item takes it out of the selection.
proof fn lemma_remove_count(s: Seq<int>, i: int, p: spec_fn(int) -> bool)
    requires
        0 <= i < s.len(),
    ensures
        s.filter(p).len() == s.remove(i).filter(p).len() + if p(s[i]) {
            1int
        } else {
            0
        },
    decreases s.len(),
{
    reveal(Seq::filter);
    if i == s.len() - 1 {
        assert(s.remove(i) =~= s.drop_last());
    } else {
        let rest = s.drop_last();
        lemma_remove_count(rest, i, p);
        assert(s.remove(i).drop_last() =~= rest.remove(i));
        assert(s.remove(i).last() == s.last());
        assert(rest[i] == s[i]);
    }
}

/// The same items in another order: as many are selected.
proof fn lemma_same_count(a: Seq<int>, b: Seq<int>, p: spec_fn(int) -> bool)
    requires
        a.no_duplicates(),
        b.no_duplicates(),
        a.len() == b.len(),
        forall|i: int| 0 <= i < a.len() ==> b.contains(#[trigger] a[i]),
    ensures
        a.filter(p).len() == b.filter(p).len(),
    decreases a.len(),
{
    reveal(Seq::filter);
    if a.len() > 0 {
        let x = a.last();
        assert(b.contains(a[a.len() - 1]));
        let j = choose|j: int| 0 <= j < b.len() && b[j] == x;
        let rest = a.drop_last();
        let other = b.remove(j);
        assert forall|i: int| 0 <= i < rest.len() implies other.contains(#[trigger] rest[i]) by {
            assert(rest[i] == a[i]);
            assert(b.contains(a[i]));
            let m = choose|m: int| 0 <= m < b.len() && b[m] == a[i];
            assert(m != j);
            if m < j {
                assert(other[m] == b[m]);
            } else {
                assert(other[m - 1] == b[m]);
            }
        }
        assert(other.no_duplicates());
        lemma_same_count(rest, other, p);
        lemma_remove_count(b, j, p);
    }
}

/// More different items than there is room for do not fit.
proof fn lemma_no_room(items: Seq<int>, slots: Seq<int>)
    requires
        items.no_duplicates(),
        forall|i: int| 0 <= i < items.len() ==> slots.contains(#[trigger] items[i]),
    ensures
        items.len() <= slots.len(),
    decreases items.len(),
{
    if items.len() > 0 {
        let x = items.last();
        assert(slots.contains(items[items.len() - 1]));
        let j = choose|j: int| 0 <= j < slots.len() && slots[j] == x;
        let rest = items.drop_last();
        let other = slots.remove(j);
        assert forall|i: int| 0 <= i < rest.len() implies other.contains(#[trigger] rest[i]) by {
            assert(rest[i] == items[i]);
            assert(slots.contains(items[i]));
            let m = choose|m: int| 0 <= m < slots.len() && slots[m] == items[i];
            assert(m != j);
            if m < j {
                assert(other[m] == slots[m]);
            } else {
                assert(other[m - 1] == slots[m]);
            }
        }
        lemma_no_room(rest, other);
    }
}

/// Grouped clusters lie apart.
proof fn lemma_apart(
    clusters: &Clusters,
    vectors: Seq<[u32; 14]>,
    labels: Seq<u8>,
    assignments: Seq<u32>,
    k: int,
    order: Seq<int>,
    a: int,
    b: int,
)
    requires
        is_grouped(clusters, vectors, labels, assignments, k, order),
        0 <= a < b < k,
    ensures
        clusters.offsets@[a] + clusters.sizes@[a] <= clusters.offsets@[b],
    decreases b - a,
{
    assert(clusters.offsets@[b] == clusters.offsets@[b - 1] + clusters.sizes@[b - 1]);
    if a < b - 1 {
        lemma_apart(clusters, vectors, labels, assignments, k, order, a, b - 1);
    }
}

/// Different clusters share no place.
proof fn lemma_places_differ(
    clusters: &Clusters,
    vectors: Seq<[u32; 14]>,
    labels: Seq<u8>,
    assignments: Seq<u32>,
    k: int,
    order: Seq<int>,
    probes: Seq<usize>,
)
    requires
        is_grouped(clusters, vectors, labels, assignments, k, order),
        probes.no_duplicates(),
        forall|a: int| 0 <= a < probes.len() ==> (#[trigger] probes[a] as int) < k,
    ensures
        clusters.all_positions(probes).no_duplicates(),
    decreases probes.len(),
{
    let all = clusters.all_positions(probes);
    if probes.len() > 0 {
        let fewer = probes.drop_last();
        let most = clusters.all_positions(fewer);
        let last = probes.last() as int;
        let some = clusters.positions(last);
        assert forall|a: int| 0 <= a < fewer.len() implies (#[trigger] fewer[a] as int) < k by {
            assert(fewer[a] == probes[a]);
        }
        lemma_places_differ(clusters, vectors, labels, assignments, k, order, fewer);
        law_probed(clusters, fewer);
        assert(probes[probes.len() - 1] as int == last);
        assert forall|i: int, j: int| 0 <= i < most.len() && 0 <= j < some.len() implies most[i]
            != some[j] by {
            let a = choose|a: int|
                0 <= a < fewer.len() && {
                    let c = #[trigger] fewer[a] as int;
                    clusters.offsets@[c] <= most[i] < clusters.offsets@[c] + clusters.sizes@[c]
                };
            let c = fewer[a] as int;
            assert(fewer[a] == probes[a]);
            assert(c != last);
            if c < last {
                lemma_apart(clusters, vectors, labels, assignments, k, order, c, last);
            } else {
                lemma_apart(clusters, vectors, labels, assignments, k, order, last, c);
            }
        }
        assert(all == most + some);
        assert forall|i: int, j: int|
            0 <= i < all.len() && 0 <= j < all.len() && i != j implies all[i] != all[j] by {
            if i < most.len() && j < most.len() {
                assert(all[i] == most[i] && all[j] == most[j]);
            } else if i < most.len() {
                assert(all[i] == most[i] && all[j] == some[j - most.len()]);
            } else if j < most.len() {
                assert(all[j] == most[j] && all[i] == some[i - most.len()]);
            } else {
                assert(all[i] == some[i - most.len()] && all[j] == some[j - most.len()]);
            }
        }
    }
}

/// Every vector stands at a place of a probed cluster, where all clusters are probed.
proof fn lemma_everywhere(
    clusters: &Clusters,
    vectors: Seq<[u32; 14]>,
    labels: Seq<u8>,
    assignments: Seq<u32>,
    k: int,
    order: Seq<int>,
    probes: Seq<usize>,
    i: int,
) -> (m: int)
    requires
        is_grouped(clusters, vectors, labels, assignments, k, order),
        forall|c: int| 0 <= c < k ==> #[trigger] probes.contains(c as usize),
        k <= usize::MAX,
        0 <= i < assignments.len(),
        assignments[i] < k,
    ensures
        0 <= m < clusters.all_positions(probes).len(),
        order[clusters.all_positions(probes)[m]] == i,
{
    let c = assignments[i] as int;
    law_members(assignments, c);
    crate::cluster::lemma_is_member(assignments, c, assignments.len() as int, i);
    let j = choose|j: int| 0 <= j < own(assignments, c).len() && own(assignments, c)[j] == i;
    assert(clusters.sizes@[c] == own(assignments, c).len());
    let g = places_of(clusters, c)[j];
    assert(order[g] == i);
    assert(probes.contains(c as usize));
    let a = choose|a: int| 0 <= a < probes.len() && probes[a] == c as usize;
    law_probed(clusters, probes);
    assert(places_of(clusters, probes[a] as int)[j] == g);
    assert(clusters.all_positions(probes).contains(places_of(clusters, probes[a] as int)[j]));
    choose|m: int| 0 <= m < clusters.all_positions(probes).len() && clusters.all_positions(probes)[m] == g
}

/// Probing every cluster is searching exhaustively: where the clusters hold all vectors,
/// and the distances of the query from them are determined, finite and different, both
/// searches count the same frauds.
pub proof fn law_probe_everything<D: Fn(&[u32; 14], &[u32; 14]) -> u32>(
    corpus: &Corpus<'_>,
    assignments: Seq<u32>,
    dist: &D,
    query: &[u32; 14],
    dists: Seq<u32>,
    exact: u32,
    found: u32,
)
    requires
        5 <= corpus.vectors@.len() <= usize::MAX,
        assignments.len() == corpus.vectors@.len(),
        corpus.centroids@.len() <= usize::MAX,
        corpus.clusters.groups(
            corpus.vectors@,
            corpus.labels@,
            assignments,
            corpus.centroids@.len() as int,
        ),
        forall|i: int|
            0 <= i < assignments.len() ==> #[trigger] assignments[i] < corpus.centroids@.len(),
        dists.len() == corpus.vectors@.len(),
        forall|i: int, x: u32|
            0 <= i < dists.len() && #[trigger] call_ensures(
                *dist,
                (query, &corpus.vectors@[i]),
                x,
            ) ==> x == dists[i],
        forall|i: int| 0 <= i < dists.len() ==> less(#[trigger] dists[i], INFINITY),
        forall|i: int, j: int|
            0 <= i < j < dists.len() ==> less(#[trigger] dists[i], #[trigger] dists[j]) || less(
                dists[j],
                dists[i],
            ),
        corpus.exhausts(dist, query, exact),
        corpus.probes(dist, query, corpus.centroids@.len() as usize, found),
    ensures
        exact == found,
{
    let k = corpus.centroids@.len() as int;
    let clusters = corpus.clusters;
    law_grouped(clusters, corpus.vectors@, corpus.labels@, assignments, k);
    let order = choose|order: Seq<int>| #[trigger]
        is_grouped(clusters, corpus.vectors@, corpus.labels@, assignments, k, order);
    law_exhaustive(corpus, dist, query, exact);
    let (near, five) = choose|near: Seq<u32>, five: Seq<usize>|
        #![trigger are_distances(dist, query, corpus.vectors@, near), are_five_nearest(near, five)]
        {
            &&& are_distances(dist, query, corpus.vectors@, near)
            &&& are_five_nearest(near, five)
            &&& exact == five.filter(|i: usize| corpus.labels@[i as int] == 1).len()
        };
    assert(near =~= dists);
    let (centroid_dists, probes) = choose|dists: Seq<u32>, ranked: Seq<usize>|
        {
            &&& measures_all(dist, query, corpus.centroids@, dists)
            &&& #[trigger] is_ranking(dists, ranked, k as usize as int)
            &&& clusters.finds(dist, query, ranked, found)
        };
    assert forall|c: int| 0 <= c < k implies #[trigger] probes.contains(c as usize) by {
        crate::rank::law_ranking_whole(centroid_dists, probes, k, c);
    }
    law_ranking_distinct(centroid_dists, probes, k);
    lemma_places_differ(
        clusters,
        corpus.vectors@,
        corpus.labels@,
        assignments,
        k,
        order,
        probes,
    );
    law_probe(clusters, dist, query, probes, found);
    law_probed(clusters, probes);
    let places = clusters.all_positions(probes);
    let (far, slots) = choose|far: Seq<u32>, slots: Seq<int>|
        #![trigger are_measured(dist, query, clusters.vectors@, places, far), are_nearest(far, slots)]
        {
            &&& are_measured(dist, query, clusters.vectors@, places, far)
            &&& are_nearest(far, slots)
            &&& found == slots.filter(|s: int| s >= 0 && clusters.labels@[places[s]] == 1).len()
        };
    assert forall|m: int| 0 <= m < places.len() implies 0 <= #[trigger] places[m] < order.len() by {
        let a = choose|a: int|
            0 <= a < probes.len() && {
                let c = #[trigger] probes[a] as int;
                clusters.offsets@[c] <= places[m] < clusters.offsets@[c] + clusters.sizes@[c]
            };
        let c = probes[a] as int;
        assert(clusters.offsets@[c] + clusters.sizes@[c] <= order.len());
    }
    assert forall|m: int| 0 <= m < places.len() implies far[m] == dists[order[#[trigger] places[m]]] by {
        assert(clusters.vectors@[places[m]] == corpus.vectors@[order[places[m]]]);
        assert(call_ensures(*dist, (query, &corpus.vectors@[order[places[m]]]), far[m]));
    }
    let at = Seq::new(
        5,
        |a: int|
            choose|m: int| 0 <= m < places.len() && order[#[trigger] places[m]] == five[a],
    );
    assert forall|a: int| 0 <= a < 5 implies 0 <= #[trigger] at[a] < places.len()
        && order[places[at[a]]] == five[a] by {
        let m = lemma_everywhere(
            clusters,
            corpus.vectors@,
            corpus.labels@,
            assignments,
            k,
            order,
            probes,
            five[a] as int,
        );
        assert(order[places[m]] == five[a]);
    }
    lemma_same_five(dists, order, places, far, slots, five, at);
    lemma_same_frauds(corpus, order, places, slots, five, at);
}

/// Both searches keep the same five vectors.
proof fn lemma_same_five(
    dists: Seq<u32>,
    order: Seq<int>,
    places: Seq<int>,
    far: Seq<u32>,
    slots: Seq<int>,
    five: Seq<usize>,
    at: Seq<int>,
)
    requires
        order.len() == dists.len() <= usize::MAX,
        order.no_duplicates(),
        forall|g: int| 0 <= g < order.len() ==> 0 <= #[trigger] order[g] < dists.len(),
        places.no_duplicates(),
        forall|m: int| 0 <= m < places.len() ==> 0 <= #[trigger] places[m] < order.len(),
        far.len() == places.len(),
        forall|m: int| 0 <= m < places.len() ==> far[m] == dists[order[#[trigger] places[m]]],
        forall|i: int| 0 <= i < dists.len() ==> less(#[trigger] dists[i], INFINITY),
        forall|i: int, j: int|
            0 <= i < j < dists.len() ==> less(#[trigger] dists[i], #[trigger] dists[j]) || less(
                dists[j],
                dists[i],
            ),
        are_five_nearest(dists, five),
        are_nearest(far, slots),
        at.len() == 5,
        forall|a: int|
            0 <= a < 5 ==> 0 <= #[trigger] at[a] < places.len() && order[places[at[a]]] == five[a],
    ensures
        at.no_duplicates(),
        slots.no_duplicates(),
        forall|a: int| 0 <= a < 5 ==> slots.contains(#[trigger] at[a]),
{
    assert forall|a: int, b: int| 0 <= a < 5 && 0 <= b < 5 && a != b implies at[a] != at[b] by {
        assert(five[a] != five[b]);
    }
    assert(forall|s: int| 0 <= s < 5 ==> #[trigger] slots[s] >= 0) by {
        assert forall|s: int| 0 <= s < 5 implies #[trigger] slots[s] >= 0 by {
            if slots[s] < 0 {
                let six = at.push(-1);
                assert forall|i: int| 0 <= i < 6 implies slots.contains(#[trigger] six[i]) by {
                    if i < 5 {
                        let m = at[i];
                        assert(less(far[m], INFINITY)) by {
                            assert(far[m] == dists[order[places[m]]]);
                        }
                        if !slots.contains(m) {
                            assert(far[m] == far[m] && slots[s] == slots[s]);
                        }
                    } else {
                        assert(slots[s] == -1);
                    }
                }
                assert(six.no_duplicates());
                lemma_no_room(six, slots);
            }
        }
    }
    assert(slots.no_duplicates()) by {
        assert forall|s: int, t: int|
            0 <= s < slots.len() && 0 <= t < slots.len() && s != t implies slots[s] != slots[t] by {
            if s < t {
                assert(slots[s] >= 0);
            } else {
                assert(slots[t] >= 0);
            }
        }
    }
    assert forall|a: int| 0 <= a < 5 implies slots.contains(#[trigger] at[a]) by {
        if !slots.contains(at[a]) {
            lemma_left_out(dists, order, places, far, slots, five, at, a);
        }
    }
}

/// None of the five nearest is left out.
proof fn lemma_left_out(
    dists: Seq<u32>,
    order: Seq<int>,
    places: Seq<int>,
    far: Seq<u32>,
    slots: Seq<int>,
    five: Seq<usize>,
    at: Seq<int>,
    a: int,
)
    requires
        order.len() == dists.len() <= usize::MAX,
        order.no_duplicates(),
        forall|g: int| 0 <= g < order.len() ==> 0 <= #[trigger] order[g] < dists.len(),
        places.no_duplicates(),
        forall|m: int| 0 <= m < places.len() ==> 0 <= #[trigger] places[m] < order.len(),
        far.len() == places.len(),
        forall|m: int| 0 <= m < places.len() ==> far[m] == dists[order[#[trigger] places[m]]],
        forall|i: int| 0 <= i < dists.len() ==> less(#[trigger] dists[i], INFINITY),
        forall|i: int, j: int|
            0 <= i < j < dists.len() ==> less(#[trigger] dists[i], #[trigger] dists[j]) || less(
                dists[j],
                dists[i],
            ),
        are_five_nearest(dists, five),
        are_nearest(far, slots),
        slots.no_duplicates(),
        forall|s: int| 0 <= s < 5 ==> #[trigger] slots[s] >= 0,
        at.len() == 5,
        at.no_duplicates(),
        forall|b: int|
            0 <= b < 5 ==> 0 <= #[trigger] at[b] < places.len() && order[places[at[b]]] == five[b],
        0 <= a < 5,
    ensures
        slots.contains(at[a]),
{
    if !slots.contains(at[a]) {
        // Some slot holds a place outside `at`: the five slots do not fit into the other
        // four.
        let others = at.remove(a);
        if forall|s: int| 0 <= s < 5 ==> others.contains(#[trigger] slots[s]) {
            lemma_no_room(slots, others);
        }
        let s = choose|s: int| 0 <= s < 5 && !others.contains(#[trigger] slots[s]);
        assert(!at.contains(slots[s])) by {
            if at.contains(slots[s]) {
                let b = choose|b: int| 0 <= b < 5 && at[b] == slots[s];
                assert(b != a) by {
                    assert(slots.contains(slots[s]));
                }
                if b < a {
                    assert(others[b] == at[b]);
                } else {
                    assert(others[b - 1] == at[b]);
                }
            }
        }
        let x = five[a] as int;
        let y = order[places[slots[s]]];
        assert(!five.contains(y as usize)) by {
            if five.contains(y as usize) {
                let b = choose|b: int| 0 <= b < 5 && five[b] == y as usize;
                assert(order[places[at[b]]] == y);
                assert(places[at[b]] == places[slots[s]]);
                assert(at[b] == slots[s]);
            }
        }
        assert(x != y) by {
            assert(five.contains(five[a]));
        }
        assert(!less(dists[y], dists[five[a] as int]));
        assert(less(dists[x], dists[y]));
        assert(far[at[a]] == dists[x]);
        assert(far[slots[s]] == dists[y]);
        assert(less(far[at[a]], INFINITY));
        assert(!less(far[at[a]], far[slots[s]]));
    }
}

/// The same five vectors carry the same labels.
proof fn lemma_same_frauds(
    corpus: &Corpus<'_>,
    order: Seq<int>,
    places: Seq<int>,
    slots: Seq<int>,
    five: Seq<usize>,
    at: Seq<int>,
)
    requires
        five.len() == 5,
        slots.len() == 5,
        at.len() == 5,
        at.no_duplicates(),
        slots.no_duplicates(),
        forall|a: int| 0 <= a < 5 ==> slots.contains(#[trigger] at[a]),
        forall|a: int|
            0 <= a < 5 ==> 0 <= #[trigger] at[a] < places.len() && order[places[at[a]]] == five[a],
        forall|m: int| 0 <= m < places.len() ==> 0 <= #[trigger] places[m] < order.len(),
        corpus.clusters.labels@.len() == order.len(),
        forall|g: int|
            0 <= g < order.len() ==> #[trigger] corpus.clusters.labels@[g]
                == corpus.labels@[order[g]],
    ensures
        five.filter(|i: usize| corpus.labels@[i as int] == 1).len() == slots.filter(
            |s: int| s >= 0 && corpus.clusters.labels@[places[s]] == 1,
        ).len(),
{
    let p = |s: int| s >= 0 && corpus.clusters.labels@[places[s]] == 1;
    lemma_same_count(at, slots, p);
    let q = |i: usize| corpus.labels@[i as int] == 1;
    let r = |i: int| corpus.labels@[i] == 1;
    let f = |i: usize| i as int;
    lemma_mapped_count(five, f, q, r);
    let g = |m: int| order[places[m]];
    assert forall|i: int| 0 <= i < at.len() implies p(#[trigger] at[i]) == r(g(at[i])) by {
        assert(corpus.clusters.labels@[places[at[i]]] == corpus.labels@[order[places[at[i]]]]);
    }
    lemma_mapped_count(at, g, p, r);
    assert(at.map_values(g) =~= five.map_values(f));
}

} // verus!
