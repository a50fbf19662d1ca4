//! Two-phase search: a quick scan of the nearest clusters over quantized vectors,
//! then an exact ranking of the candidates that the scan leaves.
//!
//! Distances between single-precision vectors are computed by the functions that
//! the caller passes in; everything that is decided from them is decided here.

use crate::ieee::place;
use crate::index::IvfIndex;
use crate::nearest::{
    frauds, law_frauds_raised, law_nearest_kept, law_tags_passive, lemma_all_kept,
    lemma_nearest_push, nearest_of, raised_at,
};
use crate::quantize::{quantize_single, single_byte};
use crate::rank::{
    is_ranking, law_ranking_distinct, law_ranking_unique, law_ranking_whole, nearest_first,
};
use crate::topk::{lemma_vacant_first, vacant, TopK5, TopKN};
use vstd::prelude::*;

verus! {

/// Clusters that a search looks at.
pub const MAX_CLUSTERS: usize = 1024;

/// The difference of two bytes, without sign.
pub open spec fn gap(x: u8, y: u8) -> int {
    if x < y {
        y - x
    } else {
        x - y
    }
}

/// Sum of the differences of the first `m` bytes.
pub open spec fn manhattan_to(a: Seq<u8>, b: Seq<u8>, m: int) -> int
    decreases m,
{
    if m <= 0 {
        0
    } else {
        manhattan_to(a, b, m - 1) + gap(a[m - 1], b[m - 1])
    }
}

/// Manhattan distance of two quantized vectors.
pub open spec fn manhattan(a: Seq<u8>, b: Seq<u8>) -> int {
    manhattan_to(a, b, 16)
}

/// Manhattan distance of two quantized vectors, byte by byte.
pub fn manhattan_u8_scalar(a: &[u8; 16], b: &[u8; 16]) -> (r: u32)
    ensures
        r == manhattan(a@, b@),
{
    let mut sum: u32 = 0;
    for i in 0..16usize
        invariant
            sum == manhattan_to(a@, b@, i as int),
            sum <= 255 * i,
    {
        let x: u8 = a[i];
        let y: u8 = b[i];
        let d: u8 = if x < y {
            y - x
        } else {
            x - y
        };
        sum = sum + d as u32;
    }
    sum
}

/// Manhattan distance of two quantized vectors.
pub fn manhattan_u8(a: &[u8; 16], b: &[u8; 16]) -> (r: u32)
    ensures
        r == manhattan(a@, b@),
        r <= 16 * 255,
{
    proof {
        law_manhattan_range(a@, b@, 16);
    }
    manhattan_u8_scalar(a, b)
}

/// The distance of quantized vectors is at most 255 for each component.
pub proof fn law_manhattan_range(a: Seq<u8>, b: Seq<u8>, m: int)
    requires
        0 <= m,
    ensures
        0 <= manhattan_to(a, b, m) <= 255 * m,
    decreases m,
{
    if m > 0 {
        law_manhattan_range(a, b, m - 1);
    }
}

/// The distance is symmetric, and zero just for equal vectors.
pub proof fn law_manhattan_metric(a: Seq<u8>, b: Seq<u8>, m: int)
    requires
        0 <= m,
    ensures
        manhattan_to(a, b, m) == manhattan_to(b, a, m),
        manhattan_to(a, b, m) == 0 <==> forall|i: int| 0 <= i < m ==> #[trigger] a[i] == b[i],
    decreases m,
{
    if m > 0 {
        law_manhattan_metric(a, b, m - 1);
        law_manhattan_range(a, b, m - 1);
        if manhattan_to(a, b, m) == 0 {
            assert(a[m - 1] == b[m - 1]);
        } else if forall|i: int| 0 <= i < m ==> #[trigger] a[i] == b[i] {
            assert(a[m - 1] == b[m - 1]);
        }
    }
}

/// Candidates that a search keeps for the exact ranking.
pub open spec fn capacity(topk: usize) -> nat {
    if topk == 40 {
        40
    } else if topk == 60 {
        60
    } else {
        50
    }
}

impl IvfIndex {
    /// Clusters that a search looks at.
    pub open spec fn clusters(&self) -> int {
        if self.k < MAX_CLUSTERS {
            self.k as int
        } else {
            MAX_CLUSTERS as int
        }
    }

    /// The clusters that a search looks at lie within the vectors and the labels.
    pub open spec fn searchable(&self) -> bool {
        &&& self.clusters() <= self.centroids@.len()
        &&& self.clusters() <= self.cluster_offsets@.len()
        &&& self.clusters() <= self.cluster_sizes@.len()
        &&& self.labels@.len() <= u32::MAX
        &&& forall|c: int|
            0 <= c < self.clusters() ==> {
                let end = #[trigger] self.cluster_offsets@[c] + self.cluster_sizes@[c];
                &&& end <= self.labels@.len()
                &&& end * 16 <= self.vectors@.len()
                &&& end * 16 <= self.vectors_u8@.len()
            }
    }

    /// Components of vector `g`.
    pub open spec fn row(&self, g: int) -> Seq<u16> {
        self.vectors@.subrange(g * 16, g * 16 + 16)
    }

    /// Quantized components of vector `g`.
    pub open spec fn row_u8(&self, g: int) -> Seq<u8> {
        self.vectors_u8@.subrange(g * 16, g * 16 + 16)
    }

    /// Positions of the vectors of cluster `c`.
    pub open spec fn members(&self, c: int) -> Seq<int> {
        Seq::new(self.cluster_sizes@[c] as nat, |j: int| self.cluster_offsets@[c] + j)
    }

    /// Positions of the vectors of several clusters, one after the other.
    pub open spec fn all_members(&self, clusters: Seq<usize>) -> Seq<int>
        decreases clusters.len(),
    {
        if clusters.len() == 0 {
            Seq::empty()
        } else {
            self.all_members(clusters.drop_last()) + self.members(clusters.last() as int)
        }
    }

    /// The vectors at the given positions, with their quantized distances from `q`.
    pub open spec fn scanned(&self, q: Seq<u8>, positions: Seq<int>) -> Seq<(int, int)> {
        positions.map_values(|g: int| (manhattan(q, self.row_u8(g)), g))
    }

    /// The candidates at exact distances `dists`, with their labels.
    pub open spec fn neighbours(&self, candidates: Seq<u32>, dists: Seq<u32>) -> Seq<(int, int)> {
        Seq::new(
            candidates.len(),
            |i: int| (place(dists[i]), self.labels@[candidates[i] as int] as int),
        )
    }

    /// Whether the index can be searched (see [`IvfIndex::searchable`]).
    pub fn is_searchable(&self) -> (r: bool)
        ensures
            r == self.searchable(),
    {
        let clusters: usize = if self.k < MAX_CLUSTERS {
            self.k
        } else {
            MAX_CLUSTERS
        };
        if clusters > self.centroids.len() || clusters > self.cluster_offsets.len() || clusters
            > self.cluster_sizes.len() || self.labels.len() as u64 > u32::MAX as u64 {
            return false;
        }
        for c in 0..clusters
            invariant
                clusters == self.clusters(),
                clusters <= self.centroids@.len(),
                clusters <= self.cluster_offsets@.len(),
                clusters <= self.cluster_sizes@.len(),
                self.labels@.len() <= u32::MAX,
                forall|i: int|
                    0 <= i < c ==> {
                        let end = #[trigger] self.cluster_offsets@[i] + self.cluster_sizes@[i];
                        &&& end <= self.labels@.len()
                        &&& end * 16 <= self.vectors@.len()
                        &&& end * 16 <= self.vectors_u8@.len()
                    },
        {
            let end: u64 = self.cluster_offsets[c] as u64 + self.cluster_sizes[c] as u64;
            if end > self.labels.len() as u64 || end * 16 > self.vectors.len() as u64 || end * 16
                > self.vectors_u8.len() as u64 {
                return false;
            }
        }
        true
    }

    /// Copies the quantized components of vector `g`.
    fn copy_row_u8(&self, g: usize) -> (r: [u8; 16])
        requires
            g * 16 + 16 <= self.vectors_u8@.len(),
        ensures
            r@ == self.row_u8(g as int),
    {
        let mut row: [u8; 16] = [0u8;16];
        for i in 0..16usize
            invariant
                g * 16 + 16 <= self.vectors_u8@.len() == self.vectors_u8.len(),
                forall|j: int| 0 <= j < i ==> row@[j] == self.vectors_u8@[g * 16 + j],
        {
            row[i] = self.vectors_u8[g * 16 + i];
        }
        assert(row@ =~= self.row_u8(g as int));
        row
    }

    /// Copies the components of vector `g`.
    fn copy_row(&self, g: usize) -> (r: [u16; 16])
        requires
            g * 16 + 16 <= self.vectors@.len(),
        ensures
            r@ == self.row(g as int),
    {
        let mut row: [u16; 16] = [0u16;16];
        for i in 0..16usize
            invariant
                g * 16 + 16 <= self.vectors@.len() == self.vectors.len(),
                forall|j: int| 0 <= j < i ==> row@[j] == self.vectors@[g * 16 + j],
        {
            row[i] = self.vectors[g * 16 + i];
        }
        assert(row@ =~= self.row(g as int));
        row
    }

    /// First phase: the `N` vectors of the given clusters with the smallest quantized
    /// distance from the query.
    pub fn candidates<const N: usize>(&self, query_u8: &[u8; 16], clusters: &Vec<usize>) -> (r:
        TopKN<N>)
        requires
            N > 0,
            self.searchable(),
            forall|i: int| 0 <= i < clusters@.len() ==> #[trigger] clusters@[i] < self.clusters(),
        ensures
            r.wf(),
            r@ == nearest_of(N as nat, self.scanned(query_u8@, self.all_members(clusters@))),
    {
        let mut cands: TopKN<N> = TopKN::new();
        let ghost mut seen: Seq<int> = Seq::empty();
        assert(self.scanned(query_u8@, seen) =~= Seq::empty());
        for idx in 0..clusters.len()
            invariant
                N > 0,
                self.searchable(),
                forall|i: int|
                    0 <= i < clusters@.len() ==> #[trigger] clusters@[i] < self.clusters(),
                cands.wf(),
                seen == self.all_members(clusters@.take(idx as int)),
                cands@ == nearest_of(N as nat, self.scanned(query_u8@, seen)),
        {
            let c: usize = clusters[idx];
            let start: u32 = self.cluster_offsets[c];
            let size: u32 = self.cluster_sizes[c];
            let ghost done = seen;
            assert(self.members(c as int).take(0) =~= Seq::empty());
            assert(seen =~= done + self.members(c as int).take(0));
            for j in 0..size
                invariant
                    N > 0,
                    self.searchable(),
                    c < self.clusters(),
                    start == self.cluster_offsets@[c as int],
                    size == self.cluster_sizes@[c as int],
                    cands.wf(),
                    seen == done + self.members(c as int).take(j as int),
                    cands@ == nearest_of(N as nat, self.scanned(query_u8@, seen)),
            {
                let global: u32 = start + j;
                let row: [u8; 16] = self.copy_row_u8(global as usize);
                let dist: u32 = manhattan_u8(query_u8, &row);
                cands.push(dist, global);
                proof {
                    let item = (dist as int, global as int);
                    let before = self.scanned(query_u8@, seen);
                    lemma_nearest_push(N as nat, before, item);
                    assert(self.members(c as int).take(j + 1) =~= self.members(c as int).take(
                        j as int,
                    ).push(global as int));
                    assert(done + self.members(c as int).take(j + 1) =~= seen.push(global as int));
                    assert(self.scanned(query_u8@, seen.push(global as int)) =~= before.push(item));
                    seen = seen.push(global as int);
                }
            }
            proof {
                assert(self.members(c as int).take(size as int) =~= self.members(c as int));
                assert(clusters@.take(idx + 1).drop_last() =~= clusters@.take(idx as int));
                assert(clusters@.take(idx + 1).last() == c);
            }
        }
        assert(clusters@.take(clusters@.len() as int) =~= clusters@);
        cands
    }

    /// Second phase: the five candidates nearest by exact distance.
    pub fn rerank(&self, candidates: &Vec<u32>, dists: &Vec<u32>) -> (r: TopK5)
        requires
            candidates@.len() == dists@.len(),
            forall|i: int|
                0 <= i < candidates@.len() ==> #[trigger] candidates@[i] < self.labels@.len(),
        ensures
            r.wf(),
            r@ == nearest_of(5, vacant() + self.neighbours(candidates@, dists@)),
    {
        let mut topk: TopK5 = TopK5::new();
        let ghost all = self.neighbours(candidates@, dists@);
        proof {
            lemma_vacant_first(all.take(0), (0, 0));
            assert(vacant() + all.take(0) =~= vacant());
        }
        for i in 0..candidates.len()
            invariant
                candidates@.len() == dists@.len(),
                forall|j: int|
                    0 <= j < candidates@.len() ==> #[trigger] candidates@[j] < self.labels@.len(),
                all == self.neighbours(candidates@, dists@),
                topk.wf(),
                topk@ == nearest_of(5, vacant() + all.take(i as int)),
        {
            let global: usize = candidates[i] as usize;
            topk.push(dists[i], self.labels[global]);
            proof {
                lemma_vacant_first(all.take(i as int), all[i as int]);
                assert(vacant() + all.take(i + 1) =~= (vacant() + all.take(i as int)).push(
                    all[i as int],
                ));
            }
        }
        assert(all.take(all.len() as int) =~= all);
        topk
    }
}

impl IvfIndex {
    /// First phase of a search that keeps as many candidates as `topk` asks for: the
    /// indices of the candidates.
    pub fn scan(&self, query_u8: &[u8; 16], clusters: &Vec<usize>, topk: usize) -> (r: Vec<u32>)
        requires
            self.searchable(),
            forall|i: int| 0 <= i < clusters@.len() ==> #[trigger] clusters@[i] < self.clusters(),
        ensures
            self.is_scan(query_u8@, clusters@, topk, r@),
    {
        match topk {
            40 => self.candidates::<40>(query_u8, clusters).kept(),
            60 => self.candidates::<60>(query_u8, clusters).kept(),
            _ => self.candidates::<50>(query_u8, clusters).kept(),
        }
    }

    /// `found` lists the indices of the candidates that the first phase keeps.
    pub open spec fn is_scan(
        &self,
        q: Seq<u8>,
        clusters: Seq<usize>,
        topk: usize,
        found: Seq<u32>,
    ) -> bool {
        let kept = nearest_of(capacity(topk), self.scanned(q, self.all_members(clusters)));
        &&& found.len() == kept.len()
        &&& forall|i: int| 0 <= i < found.len() ==> (#[trigger] found[i]) == kept[i].1
    }

    /// The outcome of a search for the quantized query `q`, given the distances of the
    /// centroids and those of the candidates: `r` of the five nearest neighbours are
    /// frauds.
    pub open spec fn is_search(
        &self,
        q: Seq<u8>,
        nprobe: usize,
        topk: usize,
        centroid_dists: Seq<u32>,
        clusters: Seq<usize>,
        found: Seq<u32>,
        dists: Seq<u32>,
        r: u32,
    ) -> bool {
        &&& centroid_dists.len() == self.clusters()
        &&& is_ranking(centroid_dists, clusters, nprobe as int)
        &&& self.is_scan(q, clusters, topk, found)
        &&& dists.len() == found.len()
        &&& r == frauds(nearest_of(5, vacant() + self.neighbours(found, dists)))
    }

    /// `vector_dist` may give `d` for the query and the vector at position `g`.
    pub open spec fn measures<G: Fn(&[u32; 16], &[u16; 16]) -> u32>(
        &self,
        vector_dist: &G,
        query: &[u32; 16],
        g: int,
        d: u32,
    ) -> bool {
        exists|v: [u16; 16]|
            v@ == self.row(g) && #[trigger] call_ensures(*vector_dist, (query, &v), d)
    }

    /// `r` may be the score of the query: some distances that the two functions may
    /// give lead to it.
    pub open spec fn scores<
        F: Fn(&[u32; 16], &[u32; 14]) -> u32,
        G: Fn(&[u32; 16], &[u16; 16]) -> u32,
    >(
        &self,
        query: &[u32; 16],
        nprobe: usize,
        topk: usize,
        centroid_dist: &F,
        vector_dist: &G,
        r: u32,
    ) -> bool {
        exists|
            centroid_dists: Seq<u32>,
            clusters: Seq<usize>,
            found: Seq<u32>,
            dists: Seq<u32>,
        |
            {
                &&& #[trigger] self.is_search(
                    quantized_query(query@),
                    nprobe,
                    topk,
                    centroid_dists,
                    clusters,
                    found,
                    dists,
                    r,
                )
                &&& forall|i: int|
                    0 <= i < centroid_dists.len() ==> call_ensures(
                        *centroid_dist,
                        (query, &self.centroids@[i]),
                        #[trigger] centroid_dists[i],
                    )
                &&& forall|i: int|
                    0 <= i < dists.len() ==> self.measures(
                        vector_dist,
                        query,
                        found[i] as int,
                        #[trigger] dists[i],
                    )
            }
    }

    /// Scores a query: how many of its five nearest neighbours are frauds.
    ///
    /// The `nprobe` clusters whose centroids are nearest by `centroid_dist` are
    /// scanned for candidates, and the candidates ranked by `vector_dist`.
    pub fn search<
        F: Fn(&[u32; 16], &[u32; 14]) -> u32,
        G: Fn(&[u32; 16], &[u16; 16]) -> u32,
    >(
        &self,
        query: &[u32; 16],
        nprobe: usize,
        topk: usize,
        centroid_dist: &F,
        vector_dist: &G,
    ) -> (r: u32)
        requires
            self.searchable(),
            self.k > 0,
            nprobe > 0,
            forall|q: &[u32; 16], c: &[u32; 14]| call_requires(*centroid_dist, (q, c)),
            forall|q: &[u32; 16], v: &[u16; 16]| call_requires(*vector_dist, (q, v)),
        ensures
            r <= 5,
            self.scores(query, nprobe, topk, centroid_dist, vector_dist, r),
    {
        let clusters: usize = if self.k < MAX_CLUSTERS {
            self.k
        } else {
            MAX_CLUSTERS
        };
        let mut centroid_dists: Vec<u32> = Vec::new();
        for i in 0..clusters
            invariant
                self.searchable(),
                clusters == self.clusters(),
                forall|q: &[u32; 16], c: &[u32; 14]| call_requires(*centroid_dist, (q, c)),
                centroid_dists@.len() == i,
                forall|j: int|
                    0 <= j < i ==> call_ensures(
                        *centroid_dist,
                        (query, &self.centroids@[j]),
                        #[trigger] centroid_dists@[j],
                    ),
        {
            let d: u32 = centroid_dist(query, &self.centroids[i]);
            centroid_dists.push(d);
        }
        let probes: Vec<usize> = nearest_first(centroid_dists.as_slice(), nprobe);
        let query_u8: [u8; 16] = quantize_query(query);
        let found: Vec<u32> = self.scan(&query_u8, &probes, topk);
        proof {
            self.lemma_found(query_u8@, probes@, topk, found@);
        }
        let mut dists: Vec<u32> = Vec::new();
        for i in 0..found.len()
            invariant
                forall|q: &[u32; 16], v: &[u16; 16]| call_requires(*vector_dist, (q, v)),
                forall|j: int|
                    0 <= j < found@.len() ==> (#[trigger] found@[j]) * 16 + 16
                        <= self.vectors@.len(),
                dists@.len() == i,
                forall|j: int|
                    0 <= j < i ==> self.measures(
                        vector_dist,
                        query,
                        found@[j] as int,
                        #[trigger] dists@[j],
                    ),
        {
            let row: [u16; 16] = self.copy_row(found[i] as usize);
            let d: u32 = vector_dist(query, &row);
            assert(call_ensures(*vector_dist, (query, &row), d));
            assert(self.measures(vector_dist, query, found@[i as int] as int, d));
            dists.push(d);
        }
        let r: u32 = self.rerank(&found, &dists).fraud_score();
        assert(self.is_search(
            quantized_query(query@),
            nprobe,
            topk,
            centroid_dists@,
            probes@,
            found@,
            dists@,
            r,
        ));
        r
    }

    /// The positions of the vectors of clusters that are looked at lie within the
    /// index.
    proof fn lemma_members(&self, clusters: Seq<usize>)
        requires
            self.searchable(),
            forall|i: int| 0 <= i < clusters.len() ==> #[trigger] clusters[i] < self.clusters(),
        ensures
            forall|j: int|
                0 <= j < self.all_members(clusters).len() ==> {
                    let g = #[trigger] self.all_members(clusters)[j];
                    &&& 0 <= g < self.labels@.len()
                    &&& g * 16 + 16 <= self.vectors@.len()
                },
        decreases clusters.len(),
    {
        if clusters.len() > 0 {
            let rest = clusters.drop_last();
            let c = clusters.last() as int;
            self.lemma_members(rest);
            assert(clusters[clusters.len() - 1] < self.clusters());
            let end = self.cluster_offsets@[c] + self.cluster_sizes@[c];
            assert(end * 16 <= self.vectors@.len());
            assert forall|j: int| 0 <= j < self.all_members(clusters).len() implies {
                let g = #[trigger] self.all_members(clusters)[j];
                &&& 0 <= g < self.labels@.len()
                &&& g * 16 + 16 <= self.vectors@.len()
            } by {
                let m = self.all_members(rest).len();
                if j < m {
                    assert(self.all_members(clusters)[j] == self.all_members(rest)[j]);
                } else {
                    assert(self.all_members(clusters)[j] == self.members(c)[j - m]);
                }
            }
        }
    }

    /// Every candidate of the first phase is a vector of the index.
    proof fn lemma_found(&self, q: Seq<u8>, clusters: Seq<usize>, topk: usize, found: Seq<u32>)
        requires
            self.searchable(),
            forall|i: int| 0 <= i < clusters.len() ==> #[trigger] clusters[i] < self.clusters(),
            self.is_scan(q, clusters, topk, found),
        ensures
            forall|i: int|
                0 <= i < found.len() ==> (#[trigger] found[i]) < self.labels@.len() && found[i] * 16
                    + 16 <= self.vectors@.len(),
    {
        broadcast use vstd::seq_lib::group_to_multiset_ensures;

        let positions = self.all_members(clusters);
        let items = self.scanned(q, positions);
        let kept = nearest_of(capacity(topk), items);
        self.lemma_members(clusters);
        law_nearest_kept(capacity(topk), items);
        assert forall|i: int| 0 <= i < found.len() implies (#[trigger] found[i])
            < self.labels@.len() && found[i] * 16 + 16 <= self.vectors@.len() by {
            assert(kept.contains(kept[i]));
            assert(kept.to_multiset().count(kept[i]) > 0);
            assert(items.to_multiset().count(kept[i]) > 0);
            let j = choose|j: int| 0 <= j < items.len() && items[j] == kept[i];
            assert(items[j].1 == positions[j]);
        }
    }
}

impl IvfIndex {
    /// The distances decide a search: the same distances give the same clusters, the
    /// same candidates and the same score.
    pub proof fn law_search_unique(
        &self,
        q: Seq<u8>,
        nprobe: usize,
        topk: usize,
        centroid_dists: Seq<u32>,
        dists: Seq<u32>,
        clusters: Seq<usize>,
        found: Seq<u32>,
        r: u32,
        other_clusters: Seq<usize>,
        other_found: Seq<u32>,
        other_r: u32,
    )
        requires
            self.is_search(q, nprobe, topk, centroid_dists, clusters, found, dists, r),
            self.is_search(
                q,
                nprobe,
                topk,
                centroid_dists,
                other_clusters,
                other_found,
                dists,
                other_r,
            ),
        ensures
            clusters == other_clusters,
            found == other_found,
            r == other_r,
    {
        law_ranking_unique(centroid_dists, clusters, other_clusters, nprobe as int);
        assert(found =~= other_found);
    }

    /// Where the clusters that are looked at hold no more vectors than a search keeps
    /// candidates, every one of their vectors is a candidate.
    pub proof fn law_scan_whole(
        &self,
        q: Seq<u8>,
        clusters: Seq<usize>,
        topk: usize,
        found: Seq<u32>,
    )
        requires
            self.is_scan(q, clusters, topk, found),
            self.all_members(clusters).len() <= capacity(topk),
        ensures
            found.map_values(|g: u32| g as int) == self.all_members(clusters),
    {
        let positions = self.all_members(clusters);
        lemma_all_kept(capacity(topk), self.scanned(q, positions));
        assert(found.map_values(|g: u32| g as int) =~= positions);
    }

    /// A search that probes as many clusters as there are looks at every vector of
    /// every cluster.
    pub proof fn law_probe_all(
        &self,
        centroid_dists: Seq<u32>,
        clusters: Seq<usize>,
        nprobe: usize,
        c: int,
        i: int,
    )
        requires
            centroid_dists.len() == self.clusters(),
            is_ranking(centroid_dists, clusters, nprobe as int),
            self.clusters() <= nprobe,
            0 <= c < self.clusters(),
            0 <= i < self.members(c).len(),
        ensures
            self.all_members(clusters).contains(self.members(c)[i]),
    {
        law_ranking_whole(centroid_dists, clusters, nprobe as int, c);
        let a = choose|a: int| 0 <= a < clusters.len() && clusters[a] == c as usize;
        self.lemma_all_members(clusters, a, i);
    }

    /// The vectors of a cluster that is looked at are among those that are.
    pub proof fn lemma_all_members(&self, clusters: Seq<usize>, a: int, i: int)
        requires
            0 <= a < clusters.len(),
            0 <= i < self.members(clusters[a] as int).len(),
        ensures
            self.all_members(clusters).contains(self.members(clusters[a] as int)[i]),
        decreases clusters.len(),
    {
        let rest = clusters.drop_last();
        let before = self.all_members(rest);
        let all = self.all_members(clusters);
        let g = self.members(clusters[a] as int)[i];
        if a < rest.len() {
            self.lemma_all_members(rest, a, i);
            let j = choose|j: int| 0 <= j < before.len() && before[j] == g;
            assert(all[j] == g);
        } else {
            assert(all[before.len() + i] == g);
        }
    }

    /// No vector belongs to two of the clusters that a search looks at.
    pub open spec fn disjoint(&self) -> bool {
        forall|a: int, b: int|
            0 <= a < self.clusters() && 0 <= b < self.clusters() && a != b ==> {
                ||| #[trigger] self.cluster_offsets@[a] + self.cluster_sizes@[a]
                    <= #[trigger] self.cluster_offsets@[b]
                ||| self.cluster_offsets@[b] + self.cluster_sizes@[b] <= self.cluster_offsets@[a]
            }
    }

    /// The other index is the same, but that vector `j` is a fraud there.
    pub open spec fn one_more_fraud(&self, other: &IvfIndex, j: int) -> bool {
        &&& other.k == self.k
        &&& other.cluster_offsets@ == self.cluster_offsets@
        &&& other.cluster_sizes@ == self.cluster_sizes@
        &&& other.vectors_u8@ == self.vectors_u8@
        &&& 0 <= j < self.labels@.len()
        &&& self.labels@[j] == 0
        &&& other.labels@ == self.labels@.update(j, 1)
    }

    /// Labels never decide which neighbours are found: where one more vector is a
    /// fraud, the same search finds the same candidates, and the count of frauds is the
    /// same or greater by one.
    pub proof fn law_one_more_fraud(
        &self,
        other: &IvfIndex,
        j: int,
        q: Seq<u8>,
        nprobe: usize,
        topk: usize,
        centroid_dists: Seq<u32>,
        dists: Seq<u32>,
        clusters: Seq<usize>,
        found: Seq<u32>,
        r: u32,
        other_clusters: Seq<usize>,
        other_found: Seq<u32>,
        other_r: u32,
    )
        requires
            self.searchable(),
            self.disjoint(),
            self.one_more_fraud(other, j),
            self.is_search(q, nprobe, topk, centroid_dists, clusters, found, dists, r),
            other.is_search(
                q,
                nprobe,
                topk,
                centroid_dists,
                other_clusters,
                other_found,
                dists,
                other_r,
            ),
        ensures
            clusters == other_clusters,
            found == other_found,
            r <= other_r <= r + 1,
    {
        law_ranking_unique(centroid_dists, clusters, other_clusters, nprobe as int);
        self.lemma_same_members(other, clusters);
        assert(self.scanned(q, self.all_members(clusters)) =~= other.scanned(
            q,
            other.all_members(clusters),
        ));
        assert(found =~= other_found);
        self.lemma_found_once(q, clusters, topk, found, centroid_dists, nprobe as int);
        self.lemma_found(q, clusters, topk, found);
        let a = vacant() + self.neighbours(found, dists);
        let b = vacant() + other.neighbours(found, dists);
        if exists|m: int| 0 <= m < found.len() && #[trigger] found[m] == j {
            let m = choose|m: int| 0 <= m < found.len() && #[trigger] found[m] == j;
            assert forall|i: int| 0 <= i < a.len() && i != 5 + m implies #[trigger] a[i]
                == b[i] by {
                if i >= 5 {
                    assert(found[i - 5] != found[m]);
                }
            }
            assert(raised_at(a, b, 5 + m));
        } else {
            assert forall|i: int| 0 <= i < a.len() implies #[trigger] a[i] == b[i] by {
                if i >= 5 {
                    assert(found[i - 5] != j);
                }
            }
            assert(a =~= b);
        }
        law_tags_passive(5, a, b);
        law_frauds_raised(nearest_of(5, a), nearest_of(5, b));
    }

    /// Two indexes with the same clusters look at the same vectors.
    proof fn lemma_same_members(&self, other: &IvfIndex, clusters: Seq<usize>)
        requires
            other.cluster_offsets@ == self.cluster_offsets@,
            other.cluster_sizes@ == self.cluster_sizes@,
        ensures
            self.all_members(clusters) == other.all_members(clusters),
        decreases clusters.len(),
    {
        if clusters.len() > 0 {
            self.lemma_same_members(other, clusters.drop_last());
            assert(self.members(clusters.last() as int) =~= other.members(clusters.last() as int));
        }
    }

    /// Distinct clusters that share no vector hold each of their vectors once.
    proof fn lemma_members_once(&self, clusters: Seq<usize>)
        requires
            self.disjoint(),
            clusters.no_duplicates(),
            forall|i: int| 0 <= i < clusters.len() ==> #[trigger] clusters[i] < self.clusters(),
        ensures
            self.all_members(clusters).no_duplicates(),
            forall|x: int|
                0 <= x < self.all_members(clusters).len() ==> exists|a: int|
                    0 <= a < clusters.len() && self.in_cluster(
                        #[trigger] clusters[a] as int,
                        #[trigger] self.all_members(clusters)[x],
                    ),
        decreases clusters.len(),
    {
        if clusters.len() > 0 {
            let rest = clusters.drop_last();
            let c = clusters.last() as int;
            let before = self.all_members(rest);
            let all = self.all_members(clusters);
            assert forall|i: int| 0 <= i < rest.len() implies #[trigger] rest[i]
                < self.clusters() by {
                assert(rest[i] == clusters[i]);
            }
            self.lemma_members_once(rest);
            assert(clusters[clusters.len() - 1] == c);
            assert forall|x: int| 0 <= x < all.len() implies exists|a: int|
                0 <= a < clusters.len() && self.in_cluster(
                    #[trigger] clusters[a] as int,
                    #[trigger] all[x],
                ) by {
                if x < before.len() {
                    assert(all[x] == before[x]);
                    let a = choose|a: int|
                        0 <= a < rest.len() && self.in_cluster(#[trigger] rest[a] as int, before[x]);
                    assert(clusters[a] == rest[a]);
                } else {
                    assert(self.in_cluster(clusters[clusters.len() - 1] as int, all[x]));
                }
            }
            assert forall|x: int, y: int|
                0 <= x < all.len() && 0 <= y < all.len() && x != y implies all[x] != all[y] by {
                self.lemma_apart(clusters, x, y);
                self.lemma_apart(clusters, y, x);
            }
        }
    }

    /// Vector `g` belongs to cluster `c`.
    pub open spec fn in_cluster(&self, c: int, g: int) -> bool {
        self.cluster_offsets@[c] <= g < self.cluster_offsets@[c] + self.cluster_sizes@[c]
    }

    /// A vector of the last cluster is none of an earlier one, nor twice in its own.
    proof fn lemma_apart(&self, clusters: Seq<usize>, x: int, y: int)
        requires
            self.disjoint(),
            clusters.len() > 0,
            clusters.no_duplicates(),
            forall|i: int| 0 <= i < clusters.len() ==> #[trigger] clusters[i] < self.clusters(),
            self.all_members(clusters.drop_last()).no_duplicates(),
            forall|x: int|
                0 <= x < self.all_members(clusters.drop_last()).len() ==> exists|a: int|
                    0 <= a < clusters.drop_last().len() && self.in_cluster(
                        #[trigger] clusters.drop_last()[a] as int,
                        #[trigger] self.all_members(clusters.drop_last())[x],
                    ),
            0 <= x < y < self.all_members(clusters).len() || y <= x,
        ensures
            x < y ==> self.all_members(clusters)[x] != self.all_members(clusters)[y],
    {
        if x < y {
            let rest = clusters.drop_last();
            let c = clusters.last() as int;
            let before = self.all_members(rest);
            let all = self.all_members(clusters);
            let last = clusters.len() - 1;
            assert(clusters[last] == c);
            if y < before.len() {
                assert(all[x] == before[x] && all[y] == before[y]);
            } else if x < before.len() {
                assert(all[x] == before[x]);
                let a = choose|a: int|
                    0 <= a < rest.len() && self.in_cluster(#[trigger] rest[a] as int, before[x]);
                assert(rest[a] == clusters[a]);
                assert(clusters[a] != clusters[last]);
                assert(self.in_cluster(c, all[y]));
                assert(self.cluster_offsets@[rest[a] as int] + self.cluster_sizes@[rest[a] as int]
                    <= self.cluster_offsets@[c] || self.cluster_offsets@[c]
                    + self.cluster_sizes@[c] <= self.cluster_offsets@[rest[a] as int]);
            }
        }
    }

    /// No candidate of the first phase is found twice.
    proof fn lemma_found_once(
        &self,
        q: Seq<u8>,
        clusters: Seq<usize>,
        topk: usize,
        found: Seq<u32>,
        centroid_dists: Seq<u32>,
        nprobe: int,
    )
        requires
            self.disjoint(),
            centroid_dists.len() == self.clusters(),
            is_ranking(centroid_dists, clusters, nprobe),
            self.is_scan(q, clusters, topk, found),
        ensures
            found.no_duplicates(),
    {
        broadcast use vstd::seq_lib::group_to_multiset_ensures;

        law_ranking_distinct(centroid_dists, clusters, nprobe);
        self.lemma_members_once(clusters);
        let positions = self.all_members(clusters);
        let items = self.scanned(q, positions);
        let kept = nearest_of(capacity(topk), items);
        law_nearest_kept(capacity(topk), items);
        assert(items.no_duplicates()) by {
            assert forall|x: int, y: int|
                0 <= x < items.len() && 0 <= y < items.len() && x != y implies items[x]
                != items[y] by {
                assert(items[x].1 == positions[x] && items[y].1 == positions[y]);
            }
        }
        items.lemma_multiset_has_no_duplicates();
        assert forall|x: (int, int)| kept.to_multiset().contains(x) implies kept.to_multiset().count(
            x,
        ) == 1 by {
            assert(kept.to_multiset().count(x) <= items.to_multiset().count(x));
            assert(items.to_multiset().contains(x));
        }
        kept.lemma_multiset_has_no_duplicates_conv();
        assert forall|x: int, y: int|
            0 <= x < found.len() && 0 <= y < found.len() && x != y implies found[x] != found[y] by {
            assert(kept.contains(kept[x]) && kept.contains(kept[y]));
            assert(kept.to_multiset().count(kept[x]) <= items.to_multiset().count(kept[x]));
            assert(kept.to_multiset().count(kept[y]) <= items.to_multiset().count(kept[y]));
            assert(items.contains(kept[x]) && items.contains(kept[y]));
            let ix = choose|i: int| 0 <= i < items.len() && items[i] == kept[x];
            let iy = choose|i: int| 0 <= i < items.len() && items[i] == kept[y];
            assert(items[ix] == (manhattan(q, self.row_u8(positions[ix])), positions[ix]));
            assert(items[iy] == (manhattan(q, self.row_u8(positions[iy])), positions[iy]));
            assert(kept[x] != kept[y]);
        }
    }

    /// A search never leaves out a vector of the clusters it looks at for one that is
    /// farther by quantized distance.
    pub proof fn law_scan_nearest(
        &self,
        q: Seq<u8>,
        clusters: Seq<usize>,
        topk: usize,
        found: Seq<u32>,
        g: int,
        i: int,
    )
        requires
            self.is_scan(q, clusters, topk, found),
            self.all_members(clusters).contains(g),
            forall|j: int| 0 <= j < found.len() ==> #[trigger] found[j] != g,
            0 <= i < found.len(),
        ensures
            manhattan(q, self.row_u8(found[i] as int)) <= manhattan(q, self.row_u8(g)),
    {
        broadcast use vstd::seq_lib::group_to_multiset_ensures;

        let positions = self.all_members(clusters);
        let items = self.scanned(q, positions);
        let kept = nearest_of(capacity(topk), items);
        let item = (manhattan(q, self.row_u8(g)), g);
        law_nearest_kept(capacity(topk), items);
        let p = choose|p: int| 0 <= p < positions.len() && positions[p] == g;
        assert(items[p] == item);
        assert(items.contains(item));
        assert(!kept.contains(item)) by {
            if kept.contains(item) {
                let j = choose|j: int| 0 <= j < kept.len() && kept[j] == item;
                assert(found[j] == g);
            }
        }
        assert(items.to_multiset().count(item) > kept.to_multiset().count(item));
        assert(kept.contains(kept[i]));
        let o = choose|o: int| 0 <= o < items.len() && items[o] == kept[i];
        assert(kept.to_multiset().count(kept[i]) <= items.to_multiset().count(kept[i]));
        assert(items.contains(kept[i]));
        assert(items[o].1 == positions[o]);
        assert(kept[i].0 == manhattan(q, self.row_u8(found[i] as int)));
    }
}

/// The bytes of a query.
pub open spec fn quantized_query(query: Seq<u32>) -> Seq<u8> {
    Seq::new(16, |i: int| single_byte(query[i]) as u8)
}

/// Quantizes a query.
pub fn quantize_query(query: &[u32; 16]) -> (r: [u8; 16])
    ensures
        r@ == quantized_query(query@),
{
    let mut q: [u8; 16] = [0u8;16];
    for i in 0..16usize
        invariant
            forall|j: int| 0 <= j < i ==> q@[j] == single_byte(query@[j]) as u8,
    {
        q[i] = quantize_single(query[i]);
    }
    assert(q@ =~= quantized_query(query@));
    q
}

} // verus!
