//! How often a search by clusters decides as an exhaustive search does.

use crate::chance::{sample, seeded};
use crate::cluster::Clusters;
use crate::ieee::{is_nan, place};
use crate::models::FraudResponse;
use crate::nearest::{frauds, nearest_of};
use crate::rank::{is_ranking, nearest_first};
use crate::topk::{lemma_vacant_first, vacant, TopK5};
use rand::rngs::SmallRng;
use vstd::prelude::*;

verus! {

/// Seed of the sample.
pub const SAMPLE_SEED: u64 = 123;

/// How many of the ranked positions carry the label of a fraud, of the first `m`.
pub open spec fn frauds_ranked(labels: Seq<u8>, ranked: Seq<usize>, m: int) -> int
    decreases m,
{
    if m <= 0 {
        0
    } else {
        frauds_ranked(labels, ranked, m - 1) + if labels[ranked[m - 1] as int] == 1 {
            1int
        } else {
            0
        }
    }
}

/// Frauds among the five nearest of all vectors.
pub fn exhaustive_frauds(dists: &[u32], labels: &[u8]) -> (r: u32)
    requires
        dists@.len() >= 5,
        dists@.len() <= labels@.len(),
    ensures
        r <= 5,
        exists|ranked: Seq<usize>| #[trigger]
            is_ranking(dists@, ranked, 5) && r == frauds_ranked(labels@, ranked, 5),
{
    let ranked: Vec<usize> = nearest_first(dists, 5);
    let mut count: u32 = 0;
    for i in 0..5usize
        invariant
            dists@.len() <= labels@.len(),
            dists@.len() >= 5,
            is_ranking(dists@, ranked@, 5),
            count <= i,
            count == frauds_ranked(labels@, ranked@, i as int),
    {
        if labels[ranked[i]] == 1 {
            count = count + 1;
        }
    }
    count
}

/// Whether two counts of frauds lead to the same decision.
pub fn same_decision(a: u32, b: u32) -> (r: bool)
    requires
        a <= 5,
        b <= 5,
    ensures
        r == ((a < 3) == (b < 3)),
{
    FraudResponse::new(a).approved == FraudResponse::new(b).approved
}

/// How many of the first `m` decisions agree.
pub open spec fn agreements(a: Seq<u32>, b: Seq<u32>, m: int) -> int
    decreases m,
{
    if m <= 0 {
        0
    } else {
        agreements(a, b, m - 1) + if (a[m - 1] < 3) == (b[m - 1] < 3) {
            1int
        } else {
            0
        }
    }
}

/// Fewer than 99 in 100 agree.
pub open spec fn is_low(matches: int, samples: int) -> bool {
    matches * 100 < samples * 99
}

/// Too few decisions agreed for the index to be of use.
#[derive(Debug, Clone, Copy, PartialEq, Eq, Structural)]
pub struct LowRecall {
    /// How many agreed.
    pub matches: usize,
}

/// Whether too few decisions agree.
pub fn recall_is_low(matches: usize, samples: usize) -> (r: bool)
    ensures
        r == is_low(matches as int, samples as int),
{
    (matches as u128) * 100 < (samples as u128) * 99
}

impl Clusters {
    /// Every one of the `k` clusters lies within the vectors and the labels.
    pub open spec fn fits(&self, k: int) -> bool {
        &&& k <= self.offsets@.len()
        &&& k <= self.sizes@.len()
        &&& forall|c: int|
            0 <= c < k ==> {
                let end = #[trigger] self.offsets@[c] + self.sizes@[c];
                &&& end <= self.vectors@.len()
                &&& end <= self.labels@.len()
            }
    }

    /// Positions of the vectors of cluster `c`.
    pub open spec fn positions(&self, c: int) -> Seq<int> {
        Seq::new(self.sizes@[c] as nat, |j: int| self.offsets@[c] + j)
    }

    /// Positions of the vectors of several clusters, one after the other.
    pub open spec fn all_positions(&self, clusters: Seq<usize>) -> Seq<int>
        decreases clusters.len(),
    {
        if clusters.len() == 0 {
            Seq::empty()
        } else {
            self.all_positions(clusters.drop_last()) + self.positions(clusters.last() as int)
        }
    }

    /// The vectors at the given positions, at distances `dists`, with their labels.
    pub open spec fn labelled(&self, positions: Seq<int>, dists: Seq<u32>) -> Seq<(int, int)> {
        Seq::new(
            positions.len(),
            |i: int| (place(dists[i]), self.labels@[positions[i]] as int),
        )
    }

    /// `r` may be the number of frauds among the five nearest vectors of the clusters:
    /// some distances that `dist` may give lead to it.
    pub open spec fn finds<D: Fn(&[u32; 14], &[u32; 14]) -> u32>(
        &self,
        dist: &D,
        query: &[u32; 14],
        clusters: Seq<usize>,
        r: u32,
    ) -> bool {
        exists|dists: Seq<u32>|
            {
                &&& #[trigger] self.measured(dist, query, self.all_positions(clusters), dists)
                &&& r == frauds(
                    nearest_of(5, vacant() + self.labelled(self.all_positions(clusters), dists)),
                )
            }
    }

    /// `dist` may give `dists` for the query and the vectors at the positions.
    pub open spec fn measured<D: Fn(&[u32; 14], &[u32; 14]) -> u32>(
        &self,
        dist: &D,
        query: &[u32; 14],
        positions: Seq<int>,
        dists: Seq<u32>,
    ) -> bool {
        &&& dists.len() == positions.len()
        &&& forall|i: int|
            0 <= i < dists.len() ==> call_ensures(
                *dist,
                (query, &self.vectors@[positions[i]]),
                #[trigger] dists[i],
            )
    }

    /// Frauds among the five nearest vectors of the given clusters.
    pub fn probe<D: Fn(&[u32; 14], &[u32; 14]) -> u32>(
        &self,
        dist: &D,
        query: &[u32; 14],
        clusters: &Vec<usize>,
        k: usize,
    ) -> (r: u32)
        requires
            self.fits(k as int),
            forall|i: int| 0 <= i < clusters@.len() ==> #[trigger] clusters@[i] < k,
            forall|a: &[u32; 14], b: &[u32; 14]| call_requires(*dist, (a, b)),
        ensures
            r <= 5,
            self.finds(dist, query, clusters@, r),
    {
        let mut topk: TopK5 = TopK5::new();
        let ghost mut dists: Seq<u32> = Seq::empty();
        let ghost mut seen: Seq<int> = Seq::empty();
        proof {
            let none = self.labelled(seen, dists);
            lemma_vacant_first(none, (0, 0));
            assert(vacant() + none =~= vacant());
        }
        for idx in 0..clusters.len()
            invariant
                self.fits(k as int),
                forall|i: int| 0 <= i < clusters@.len() ==> #[trigger] clusters@[i] < k,
                forall|a: &[u32; 14], b: &[u32; 14]| call_requires(*dist, (a, b)),
                topk.wf(),
                seen == self.all_positions(clusters@.take(idx as int)),
                self.measured(dist, query, seen, dists),
                topk@ == nearest_of(5, vacant() + self.labelled(seen, dists)),
        {
            let c: usize = clusters[idx];
            let start: u32 = self.offsets[c];
            let size: u32 = self.sizes[c];
            let ghost done = seen;
            assert(seen =~= done + self.positions(c as int).take(0));
            for j in 0..size
                invariant
                    self.fits(k as int),
                    c < k,
                    start == self.offsets@[c as int],
                    size == self.sizes@[c as int],
                    forall|a: &[u32; 14], b: &[u32; 14]| call_requires(*dist, (a, b)),
                    topk.wf(),
                    seen == done + self.positions(c as int).take(j as int),
                    self.measured(dist, query, seen, dists),
                    topk@ == nearest_of(5, vacant() + self.labelled(seen, dists)),
            {
                assert(self.offsets@[c as int] + self.sizes@[c as int] <= self.vectors.len());
                let g: usize = start as usize + j as usize;
                let d: u32 = dist(query, &self.vectors[g]);
                topk.push(d, self.labels[g]);
                proof {
                    let before = self.labelled(seen, dists);
                    let item = (place(d), self.labels@[g as int] as int);
                    lemma_vacant_first(before, item);
                    let more = seen.push(g as int);
                    let more_dists = dists.push(d);
                    assert(self.positions(c as int).take(j + 1) =~= self.positions(c as int).take(
                        j as int,
                    ).push(g as int));
                    assert(done + self.positions(c as int).take(j + 1) =~= more);
                    assert(vacant() + self.labelled(more, more_dists) =~= (vacant() + before).push(
                        item,
                    ));
                    assert forall|i: int| 0 <= i < more_dists.len() implies call_ensures(
                        *dist,
                        (query, &self.vectors@[more[i]]),
                        #[trigger] more_dists[i],
                    ) by {
                        if i < dists.len() {
                            assert(more_dists[i] == dists[i]);
                        }
                    }
                    seen = more;
                    dists = more_dists;
                }
            }
            proof {
                assert(self.positions(c as int).take(size as int) =~= self.positions(c as int));
                assert(clusters@.take(idx + 1).drop_last() =~= clusters@.take(idx as int));
                assert(clusters@.take(idx + 1).last() == c);
            }
        }
        assert(clusters@.take(clusters@.len() as int) =~= clusters@);
        topk.fraud_score()
    }
}

/// `dist` may give `dists` for the query and the vectors.
pub open spec fn measures_all<D: Fn(&[u32; 14], &[u32; 14]) -> u32>(
    dist: &D,
    query: &[u32; 14],
    vectors: Seq<[u32; 14]>,
    dists: Seq<u32>,
) -> bool {
    &&& dists.len() == vectors.len()
    &&& forall|i: int|
        0 <= i < dists.len() ==> call_ensures(*dist, (query, &vectors[i]), #[trigger] dists[i])
}

/// Distances of all vectors from the query.
fn distances<D: Fn(&[u32; 14], &[u32; 14]) -> u32>(
    dist: &D,
    query: &[u32; 14],
    vectors: &[[u32; 14]],
) -> (r: Vec<u32>)
    requires
        forall|a: &[u32; 14], b: &[u32; 14]| call_requires(*dist, (a, b)),
    ensures
        measures_all(dist, query, vectors@, r@),
{
    let mut dists: Vec<u32> = Vec::new();
    for i in 0..vectors.len()
        invariant
            forall|a: &[u32; 14], b: &[u32; 14]| call_requires(*dist, (a, b)),
            dists@.len() == i,
            forall|j: int|
                0 <= j < i ==> call_ensures(*dist, (query, &vectors@[j]), #[trigger] dists@[j]),
    {
        let d: u32 = dist(query, &vectors[i]);
        dists.push(d);
    }
    dists
}

/// What a search is held against: all vectors with their labels, the centroids, and
/// the vectors by cluster.
pub struct Corpus<'a> {
    pub vectors: &'a [[u32; 14]],
    pub labels: &'a [u8],
    pub centroids: &'a [[u32; 14]],
    pub clusters: &'a Clusters,
}

impl<'a> Corpus<'a> {
    /// There are five neighbours to find, every vector has a label, `nprobe` clusters
    /// can be looked at, and each lies within the vectors.
    pub open spec fn valid(&self, nprobe: usize) -> bool {
        &&& self.vectors@.len() >= 5
        &&& self.vectors@.len() <= self.labels@.len()
        &&& nprobe <= self.centroids@.len()
        &&& self.clusters.fits(self.centroids@.len() as int)
    }

    /// Every distance of the query from a vector or a centroid is a number.
    pub open spec fn comparable<D: Fn(&[u32; 14], &[u32; 14]) -> u32>(
        &self,
        dist: &D,
        query: &[u32; 14],
    ) -> bool {
        &&& forall|i: int, d: u32|
            0 <= i < self.vectors@.len() && #[trigger] call_ensures(
                *dist,
                (query, &self.vectors@[i]),
                d,
            ) ==> !is_nan(d)
        &&& forall|i: int, d: u32|
            0 <= i < self.centroids@.len() && #[trigger] call_ensures(
                *dist,
                (query, &self.centroids@[i]),
                d,
            ) ==> !is_nan(d)
    }

    /// Every distance of a vector from a vector or a centroid is a number.
    pub open spec fn all_comparable<D: Fn(&[u32; 14], &[u32; 14]) -> u32>(&self, dist: &D) -> bool {
        forall|q: int|
            0 <= q < self.vectors@.len() ==> self.comparable(dist, &#[trigger] self.vectors@[q])
    }

    /// `r` may be the number of frauds among the five nearest of all vectors.
    pub open spec fn exhausts<D: Fn(&[u32; 14], &[u32; 14]) -> u32>(
        &self,
        dist: &D,
        query: &[u32; 14],
        r: u32,
    ) -> bool {
        exists|dists: Seq<u32>, ranked: Seq<usize>|
            {
                &&& measures_all(dist, query, self.vectors@, dists)
                &&& #[trigger] is_ranking(dists, ranked, 5)
                &&& r == frauds_ranked(self.labels@, ranked, 5)
            }
    }

    /// `r` may be the number of frauds among the five nearest vectors of the `nprobe`
    /// clusters whose centroids are nearest.
    pub open spec fn probes<D: Fn(&[u32; 14], &[u32; 14]) -> u32>(
        &self,
        dist: &D,
        query: &[u32; 14],
        nprobe: usize,
        r: u32,
    ) -> bool {
        exists|dists: Seq<u32>, ranked: Seq<usize>|
            {
                &&& measures_all(dist, query, self.centroids@, dists)
                &&& #[trigger] is_ranking(dists, ranked, nprobe as int)
                &&& self.clusters.finds(dist, query, ranked, r)
            }
    }

    /// `matches` may be how many of the sampled vectors are decided alike by both
    /// searches.
    pub open spec fn tallies<D: Fn(&[u32; 14], &[u32; 14]) -> u32>(
        &self,
        dist: &D,
        sampled: Seq<usize>,
        nprobe: usize,
        matches: int,
    ) -> bool {
        exists|exact: Seq<u32>, found: Seq<u32>|
            {
                &&& exact.len() == sampled.len()
                &&& found.len() == sampled.len()
                &&& forall|i: int|
                    0 <= i < sampled.len() ==> self.exhausts(
                        dist,
                        &self.vectors@[sampled[i] as int],
                        #[trigger] exact[i],
                    )
                &&& forall|i: int|
                    0 <= i < sampled.len() ==> self.probes(
                        dist,
                        &self.vectors@[sampled[i] as int],
                        nprobe,
                        #[trigger] found[i],
                    )
                &&& matches == #[trigger] agreements(exact, found, sampled.len() as int)
            }
    }

    /// Both searches for one query: frauds among the five nearest of all vectors, and
    /// among those of the clusters that are looked at.
    pub fn search_both<D: Fn(&[u32; 14], &[u32; 14]) -> u32>(
        &self,
        dist: &D,
        query: &[u32; 14],
        nprobe: usize,
    ) -> (r: (u32, u32))
        requires
            self.valid(nprobe),
            forall|a: &[u32; 14], b: &[u32; 14]| call_requires(*dist, (a, b)),
            self.comparable(dist, query),
        ensures
            r.0 <= 5,
            r.1 <= 5,
            self.exhausts(dist, query, r.0),
            self.probes(dist, query, nprobe, r.1),
    {
        let dists: Vec<u32> = distances(dist, query, self.vectors);
        let exact: u32 = exhaustive_frauds(dists.as_slice(), self.labels);
        let centroid_dists: Vec<u32> = distances(dist, query, self.centroids);
        let ranked: Vec<usize> = nearest_first(centroid_dists.as_slice(), nprobe);
        let found: u32 = self.clusters.probe(dist, query, &ranked, self.centroids.len());
        assert(is_ranking(centroid_dists@, ranked@, nprobe as int));
        (exact, found)
    }

    /// How many of the sampled vectors are decided alike by both searches.
    pub fn count_matches<D: Fn(&[u32; 14], &[u32; 14]) -> u32>(
        &self,
        dist: &D,
        sampled: &Vec<usize>,
        nprobe: usize,
    ) -> (r: usize)
        requires
            sampled@.len() > 0 ==> self.valid(nprobe),
            forall|i: int| 0 <= i < sampled@.len() ==> #[trigger] sampled@[i] < self.vectors@.len(),
            forall|a: &[u32; 14], b: &[u32; 14]| call_requires(*dist, (a, b)),
            self.all_comparable(dist),
        ensures
            r <= sampled@.len(),
            self.tallies(dist, sampled@, nprobe, r as int),
    {
        let mut matches: usize = 0;
        let mut exact: Vec<u32> = Vec::new();
        let mut found: Vec<u32> = Vec::new();
        for i in 0..sampled.len()
            invariant
                sampled@.len() > 0 ==> self.valid(nprobe),
                forall|j: int|
                    0 <= j < sampled@.len() ==> #[trigger] sampled@[j] < self.vectors@.len(),
                forall|a: &[u32; 14], b: &[u32; 14]| call_requires(*dist, (a, b)),
                self.all_comparable(dist),
                exact@.len() == i,
                found@.len() == i,
                forall|j: int|
                    0 <= j < i ==> self.exhausts(
                        dist,
                        &self.vectors@[sampled@[j] as int],
                        #[trigger] exact@[j],
                    ),
                forall|j: int|
                    0 <= j < i ==> self.probes(
                        dist,
                        &self.vectors@[sampled@[j] as int],
                        nprobe,
                        #[trigger] found@[j],
                    ),
                matches <= i,
                matches == agreements(exact@, found@, i as int),
        {
            let query: [u32; 14] = self.vectors[sampled[i]];
            let (a, b): (u32, u32) = self.search_both(dist, &query, nprobe);
            let ghost exact_before = exact@;
            let ghost found_before = found@;
            exact.push(a);
            found.push(b);
            proof {
                lemma_agreements_prefix(exact_before, found_before, exact@, found@, i as int);
            }
            if same_decision(a, b) {
                matches = matches + 1;
            }
        }
        assert(matches == agreements(exact@, found@, sampled@.len() as int));
        matches
    }

    /// Holds searches for a random sample of the vectors against exhaustive ones, and
    /// counts the decisions that agree; fails where they are fewer than 99 in 100 of
    /// the sample.
    pub fn validate_recall<D: Fn(&[u32; 14], &[u32; 14]) -> u32>(
        &self,
        dist: &D,
        n_samples: usize,
        nprobe: usize,
    ) -> (r: Result<usize, LowRecall>)
        requires
            self.vectors@.len() > 0 && n_samples > 0 ==> self.valid(nprobe),
            self.vectors@.len() <= u32::MAX || n_samples < self.vectors@.len(),
            forall|a: &[u32; 14], b: &[u32; 14]| call_requires(*dist, (a, b)),
            self.all_comparable(dist),
        ensures
            exists|sampled: Seq<usize>|
                {
                    &&& #[trigger] is_sample(sampled, self.vectors@.len(), n_samples as nat)
                    &&& match r {
                        Ok(matches) => {
                            &&& self.tallies(dist, sampled, nprobe, matches as int)
                            &&& !is_low(matches as int, sampled.len() as int)
                        },
                        Err(e) => {
                            &&& self.tallies(dist, sampled, nprobe, e.matches as int)
                            &&& is_low(e.matches as int, sampled.len() as int)
                        },
                    }
                },
    {
        let mut rng: SmallRng = seeded(SAMPLE_SEED);
        let indices: Vec<usize> = count_up(self.vectors.len());
        let sampled: Vec<usize> = sample(&mut rng, indices.as_slice(), n_samples);
        proof {
            lemma_sample(indices@, sampled@, self.vectors@.len(), n_samples as nat);
        }
        let matches: usize = self.count_matches(dist, &sampled, nprobe);
        if recall_is_low(matches, sampled.len()) {
            Err(LowRecall { matches })
        } else {
            Ok(matches)
        }
    }
}

/// `sampled` lists `amount` of the positions below `n`, or all if there are fewer, and
/// none twice.
pub open spec fn is_sample(sampled: Seq<usize>, n: nat, amount: nat) -> bool {
    &&& sampled.len() == if amount < n {
        amount
    } else {
        n
    }
    &&& sampled.no_duplicates()
    &&& forall|i: int| 0 <= i < sampled.len() ==> #[trigger] sampled[i] < n
}

/// A part of the positions below `n` is a sample of them.
proof fn lemma_sample(indices: Seq<usize>, sampled: Seq<usize>, n: nat, amount: nat)
    requires
        indices.len() == n,
        forall|i: int| 0 <= i < n ==> #[trigger] indices[i] == i,
        sampled.len() == if amount < n {
            amount
        } else {
            n
        },
        sampled.to_multiset().subset_of(indices.to_multiset()),
    ensures
        is_sample(sampled, n, amount),
{
    broadcast use vstd::seq_lib::group_to_multiset_ensures;

    indices.lemma_multiset_has_no_duplicates();
    assert forall|x: usize| sampled.to_multiset().contains(x) implies sampled.to_multiset().count(
        x,
    ) == 1 by {
        assert(sampled.to_multiset().count(x) <= indices.to_multiset().count(x));
        assert(indices.to_multiset().contains(x));
    }
    sampled.lemma_multiset_has_no_duplicates_conv();
    assert forall|i: int| 0 <= i < sampled.len() implies #[trigger] sampled[i] < n by {
        assert(sampled.contains(sampled[i]));
        assert(sampled.to_multiset().count(sampled[i]) <= indices.to_multiset().count(sampled[i]));
        assert(indices.contains(sampled[i]));
    }
}

/// The numbers below `n`, in order.
fn count_up(n: usize) -> (r: Vec<usize>)
    ensures
        r@.len() == n,
        forall|i: int| 0 <= i < n ==> #[trigger] r@[i] == i,
{
    let mut v: Vec<usize> = Vec::new();
    for i in 0..n
        invariant
            v@.len() == i,
            forall|j: int| 0 <= j < i ==> #[trigger] v@[j] == j,
    {
        v.push(i);
    }
    v
}

/// Agreements of a prefix do not look beyond it.
proof fn lemma_agreements_prefix(
    a: Seq<u32>,
    b: Seq<u32>,
    more_a: Seq<u32>,
    more_b: Seq<u32>,
    m: int,
)
    requires
        m <= a.len() <= more_a.len(),
        m <= b.len() <= more_b.len(),
        forall|i: int| 0 <= i < m ==> a[i] == more_a[i],
        forall|i: int| 0 <= i < m ==> b[i] == more_b[i],
    ensures
        agreements(a, b, m) == agreements(more_a, more_b, m),
    decreases m,
{
    if m > 0 {
        lemma_agreements_prefix(a, b, more_a, more_b, m - 1);
    }
}

} // verus!
