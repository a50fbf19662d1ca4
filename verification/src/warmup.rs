//! Warming up: the whole index is touched and searched before requests arrive.

use crate::index::IvfIndex;
use vstd::prelude::*;

verus! {

/// Components that lie between two that are touched.
pub const PAGE: usize = 4096;

/// Searches that a warm-up aims at.
pub const SEARCHES: usize = 32;

/// Sum of the components at the first `pages` multiples of the page size.
pub open spec fn touched<T>(values: Seq<T>, number: spec_fn(T) -> int, pages: int) -> int
    decreases pages,
{
    if pages <= 0 {
        0
    } else {
        touched(values, number, pages - 1) + number(values[(pages - 1) * PAGE])
    }
}

/// Pages that `len` components take.
pub open spec fn pages(len: nat) -> int {
    (len + PAGE - 1) / PAGE as int
}

/// Reads one quantized component of every page and sums them up.
pub fn touch_bytes(values: &Vec<u8>) -> (r: u128)
    ensures
        r == touched(values@, |x: u8| x as int, pages(values@.len())),
{
    let mut sum: u128 = 0;
    let mut i: usize = 0;
    let ghost mut p: int = 0;
    while i < values.len()
        invariant
            0 <= p <= i,
            i == values@.len() || i == p * PAGE,
            i <= values@.len() == values.len(),
            (p - 1) * PAGE < values@.len(),
            values@.len() <= i ==> p == pages(values@.len()),
            sum == touched(values@, |x: u8| x as int, p),
            sum <= 255 * p,
        decreases values@.len() - i,
    {
        sum = sum + values[i] as u128;
        i = if values.len() - i > PAGE {
            i + PAGE
        } else {
            values.len()
        };
        proof {
            p = p + 1;
        }
    }
    sum
}

/// Reads one component of every page and sums them up.
pub fn touch_words(values: &Vec<u16>) -> (r: u128)
    ensures
        r == touched(values@, |x: u16| x as int, pages(values@.len())),
{
    let mut sum: u128 = 0;
    let mut i: usize = 0;
    let ghost mut p: int = 0;
    while i < values.len()
        invariant
            0 <= p <= i,
            i == values@.len() || i == p * PAGE,
            i <= values@.len() == values.len(),
            (p - 1) * PAGE < values@.len(),
            values@.len() <= i ==> p == pages(values@.len()),
            sum == touched(values@, |x: u16| x as int, p),
            sum <= 0xffff * p,
        decreases values@.len() - i,
    {
        sum = sum + values[i] as u128;
        i = if values.len() - i > PAGE {
            i + PAGE
        } else {
            values.len()
        };
        proof {
            p = p + 1;
        }
    }
    sum
}

/// A centroid as a query: two zeros fill it up.
pub open spec fn padded_query(centroid: Seq<u32>) -> Seq<u32> {
    centroid + seq![0u32, 0u32]
}

/// Turns a centroid into a query.
fn pad_query(centroid: &[u32; 14]) -> (r: [u32; 16])
    ensures
        r@ == padded_query(centroid@),
{
    let mut q: [u32; 16] = [0u32;16];
    for i in 0..14usize
        invariant
            forall|j: int| 0 <= j < i ==> q@[j] == centroid@[j],
            forall|j: int| i <= j < 16 ==> q@[j] == 0,
    {
        q[i] = centroid[i];
    }
    assert(q@ =~= padded_query(centroid@));
    q
}

impl IvfIndex {
    /// Centroids from one that a warm-up searches for to the next.
    pub open spec fn warmup_step(&self) -> int {
        if self.k / SEARCHES == 0 {
            1
        } else {
            self.k as int / SEARCHES as int
        }
    }

    /// `queries` are the centroids that a warm-up searches for: the first and every
    /// one that is a multiple of the step further on.
    pub open spec fn is_warmup(&self, queries: Seq<[u32; 16]>) -> bool {
        let step = self.warmup_step();
        &&& queries.len() == (self.centroids@.len() + step - 1) / step
        &&& forall|i: int|
            0 <= i < queries.len() ==> (#[trigger] queries[i])@ == padded_query(
                self.centroids@[i * step]@,
            )
    }

    /// The queries of a warm-up.
    pub fn warmup_queries(&self) -> (r: Vec<[u32; 16]>)
        ensures
            self.is_warmup(r@),
    {
        let step: usize = if self.k / SEARCHES == 0 {
            1
        } else {
            self.k / SEARCHES
        };
        let mut queries: Vec<[u32; 16]> = Vec::new();
        let mut i: usize = 0;
        assert((0 - 1) * step == -step) by (nonlinear_arith);
        while i < self.centroids.len()
            invariant
                step == self.warmup_step(),
                step > 0,
                i <= self.centroids@.len() == self.centroids.len(),
                i == self.centroids@.len() || i == queries@.len() * step,
                (queries@.len() - 1) * step < self.centroids@.len(),
                self.centroids@.len() <= i ==> self.centroids@.len() <= queries@.len() * step,
                forall|j: int|
                    0 <= j < queries@.len() ==> (#[trigger] queries@[j])@ == padded_query(
                        self.centroids@[j * step]@,
                    ),
            decreases self.centroids@.len() - i,
        {
            let ghost count = queries@.len() as int;
            queries.push(pad_query(&self.centroids[i]));
            assert((count + 1) * step == count * step + step) by (nonlinear_arith);
            i = if self.centroids.len() - i > step {
                i + step
            } else {
                self.centroids.len()
            };
        }
        proof {
            lemma_steps(self.centroids@.len() as int, step as int, queries@.len() as int);
        }
        queries
    }

    /// Touches every page of the vectors and searches for the warm-up queries. The
    /// scores come back in the order of [`IvfIndex::warmup_queries`].
    pub fn warmup<
        F: Fn(&[u32; 16], &[u32; 14]) -> u32,
        G: Fn(&[u32; 16], &[u16; 16]) -> u32,
    >(&self, nprobe: usize, topk: usize, centroid_dist: &F, vector_dist: &G) -> (r: Vec<u32>)
        requires
            self.searchable(),
            self.centroids@.len() > 0 ==> self.k > 0 && nprobe > 0,
            forall|q: &[u32; 16], c: &[u32; 14]| call_requires(*centroid_dist, (q, c)),
            forall|q: &[u32; 16], v: &[u16; 16]| call_requires(*vector_dist, (q, v)),
        ensures
            exists|queries: Seq<[u32; 16]>|
                #![trigger self.is_warmup(queries)]
                {
                    &&& self.is_warmup(queries)
                    &&& r@.len() == queries.len()
                    &&& forall|i: int|
                        0 <= i < r@.len() ==> self.scores(
                            &queries[i],
                            nprobe,
                            topk,
                            centroid_dist,
                            vector_dist,
                            #[trigger] r@[i],
                        )
                },
    {
        let _: u128 = touch_bytes(&self.vectors_u8);
        let _: u128 = touch_words(&self.vectors);
        let queries: Vec<[u32; 16]> = self.warmup_queries();
        proof {
            if queries@.len() > 0 && self.centroids@.len() == 0 {
                lemma_steps_none(self.warmup_step());
            }
        }
        let mut scores: Vec<u32> = Vec::new();
        for i in 0..queries.len()
            invariant
                self.searchable(),
                queries@.len() > 0 ==> self.k > 0 && nprobe > 0,
                forall|q: &[u32; 16], c: &[u32; 14]| call_requires(*centroid_dist, (q, c)),
                forall|q: &[u32; 16], v: &[u16; 16]| call_requires(*vector_dist, (q, v)),
                scores@.len() == i,
                forall|j: int|
                    0 <= j < i ==> self.scores(
                        &queries@[j],
                        nprobe,
                        topk,
                        centroid_dist,
                        vector_dist,
                        #[trigger] scores@[j],
                    ),
        {
            let r: u32 = self.search(&queries[i], nprobe, topk, centroid_dist, vector_dist);
            scores.push(r);
        }
        assert(self.is_warmup(queries@));
        scores
    }
}

/// `count` is how many multiples of `step` lie below `len`.
proof fn lemma_steps(len: int, step: int, count: int)
    requires
        step > 0,
        0 <= len,
        (count - 1) * step < len <= count * step,
    ensures
        count == (len + step - 1) / step,
{
    let r = len + step - 1 - count * step;
    assert((count - 1) * step == count * step - step) by (nonlinear_arith);
    vstd::arithmetic::div_mod::lemma_fundamental_div_mod_converse(len + step - 1, step, count, r);
}

/// No multiple of `step` lies below zero.
proof fn lemma_steps_none(step: int)
    requires
        step > 0,
    ensures
        (step - 1) / step == 0,
{
    vstd::arithmetic::div_mod::lemma_basic_div(step - 1, step);
}

} // verus!
