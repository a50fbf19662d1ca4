//! What is kept of a stream, how positions rank, and what a warm-up goes through, said
//! of the items, the distances and the centroids themselves.

use crate::ieee::{is_nan, less, place, INFINITY};
use crate::index::IvfIndex;
use crate::nearest::{
    farthest, frauds, keep, lemma_farthest, lemma_nearest_push, nearest_of,
};
use crate::rank::is_ranking;
use crate::recall::is_sample;
use crate::topk::{vacant, TopK5, TopKN};
use crate::warmup::{pages, touched};
use vstd::prelude::*;

verus! {

/// One more item at a store: a free slot takes it; in a full store it takes the place of
/// the first of the farthest items if it is nearer than that, and is dropped otherwise,
/// also where it is as far.
pub proof fn law_keep(kept: Seq<(int, int)>, capacity: nat, item: (int, int))
    ensures
        kept.len() < capacity ==> keep(kept, capacity, item) == kept.push(item),
        kept.len() >= capacity && (forall|j: int|
            0 <= j < kept.len() ==> (#[trigger] kept[j]).0 <= item.0) ==> keep(kept, capacity, item)
            == kept,
        kept.len() >= capacity && (exists|j: int|
            0 <= j < kept.len() && (#[trigger] kept[j]).0 > item.0) ==> exists|i: int|
            {
                &&& 0 <= i < kept.len()
                &&& keep(kept, capacity, item) == #[trigger] kept.update(i, item)
                &&& kept[i].0 > item.0
                &&& forall|j: int| 0 <= j < kept.len() ==> (#[trigger] kept[j]).0 <= kept[i].0
                &&& forall|j: int| 0 <= j < i ==> (#[trigger] kept[j]).0 < kept[i].0
            },
{
    if kept.len() >= capacity && kept.len() > 0 {
        lemma_farthest(kept);
        let f = farthest(kept);
        if exists|j: int| 0 <= j < kept.len() && (#[trigger] kept[j]).0 > item.0 {
            let j = choose|j: int| 0 <= j < kept.len() && (#[trigger] kept[j]).0 > item.0;
            assert(kept[j].0 <= kept[f].0);
            assert(keep(kept, capacity, item) == kept.update(f, item));
        }
    }
}

/// A stream is kept item by item, from nothing.
pub proof fn law_stream(capacity: nat, items: Seq<(int, int)>, item: (int, int))
    ensures
        nearest_of(capacity, Seq::empty()) == Seq::<(int, int)>::empty(),
        nearest_of(capacity, items.push(item)) == keep(
            nearest_of(capacity, items),
            capacity,
            item,
        ),
{
    lemma_nearest_push(capacity, items, item);
}

/// The frauds among items are those with tag 1.
pub proof fn law_frauds(items: Seq<(int, int)>)
    ensures
        frauds(items) == items.filter(|x: (int, int)| x.1 == 1).len(),
    decreases items.len(),
{
    reveal(Seq::filter);
    if items.len() > 0 {
        law_frauds(items.drop_last());
    }
}

/// A store of five starts with five infinitely far items that are no frauds.
pub proof fn law_vacant(i: int)
    requires
        0 <= i < 5,
    ensures
        vacant().len() == 5,
        vacant()[i].0 == place(INFINITY),
        vacant()[i].1 == 0,
{
}

/// What a store of candidates holds, slot by slot.
pub proof fn law_candidates_held<const N: usize>(store: TopKN<N>, i: int)
    requires
        0 <= i < store.count,
    ensures
        store@.len() == store.count,
        store@[i].0 == store.dists[i],
        store@[i].1 == store.indices[i],
{
}

/// What a store of five neighbours holds, slot by slot.
pub proof fn law_neighbours_held(store: TopK5, i: int)
    requires
        0 <= i < 5,
    ensures
        store@.len() == 5,
        store@[i].0 == place(store.dists[i]),
        store@[i].1 == store.labels[i],
{
}

/// Positions rank by distance, what is no number last, and those that are as far in the
/// order of the positions; as many are ranked as asked for, or all.
pub proof fn law_ranks(dists: Seq<u32>, ranked: Seq<usize>, count: int, a: int, b: int)
    requires
        is_ranking(dists, ranked, count),
        0 <= a < b < ranked.len(),
    ensures
        ranked[a] < dists.len(),
        ranked[b] < dists.len(),
        ranked[a] != ranked[b],
        !less(dists[ranked[b] as int], dists[ranked[a] as int]),
        is_nan(dists[ranked[a] as int]) ==> is_nan(dists[ranked[b] as int]),
        !less(dists[ranked[a] as int], dists[ranked[b] as int]) && !(is_nan(
            dists[ranked[b] as int],
        ) && !is_nan(dists[ranked[a] as int])) ==> ranked[a] < ranked[b],
{
    assert(crate::rank::before(dists, ranked[a] as int, ranked[b] as int));
}

/// No position is left out for one that it ranks before.
pub proof fn law_left_out(dists: Seq<u32>, ranked: Seq<usize>, count: int, a: int, j: usize)
    requires
        is_ranking(dists, ranked, count),
        0 <= a < ranked.len(),
        j < dists.len() <= usize::MAX,
        !ranked.contains(j),
    ensures
        ranked.len() == count,
        !less(dists[j as int], dists[ranked[a] as int]),
        is_nan(dists[ranked[a] as int]) ==> is_nan(dists[j as int]),
        !less(dists[ranked[a] as int], dists[j as int]) && !(is_nan(dists[j as int]) && !is_nan(
            dists[ranked[a] as int],
        )) ==> ranked[a] < j,
{
    assert(dists[j as int] == dists[j as int]);
    assert(crate::rank::before(dists, ranked[a] as int, j as int));
    if ranked.len() == dists.len() {
        crate::rank::law_ranking_whole(dists, ranked, count, j as int);
    }
}

/// Every 4096th component is touched: the sum is that of the components at the multiples
/// of 4096 that lie within.
pub proof fn law_touched<T>(values: Seq<T>, number: spec_fn(T) -> int, m: int)
    requires
        0 <= m,
    ensures
        4096 * (pages(values.len()) - 1) < values.len() <= 4096 * pages(values.len()),
        touched(values, number, m) == Seq::new(m as nat, |p: int| number(values[4096 * p])).fold_left(
            0int,
            |a: int, b: int| a + b,
        ),
    decreases m,
{
    reveal(Seq::fold_left);
    let terms = Seq::new(m as nat, |p: int| number(values[4096 * p]));
    if m > 0 {
        law_touched(values, number, m - 1);
        assert(terms.drop_last() =~= Seq::new((m - 1) as nat, |p: int| number(values[4096 * p])));
        assert(terms.last() == number(values[4096 * (m - 1)]));
        assert((m - 1) * 4096 == 4096 * (m - 1));
    }
}

/// A warm-up searches for the first centroid and those at the multiples of a step that
/// lie within: a step of one below 64 clusters, a thirty-second of their number from
/// there on. Two zeros fill up each query.
pub proof fn law_warmup(index: &IvfIndex, queries: Seq<[u32; 16]>, i: int)
    requires
        index.is_warmup(queries),
        0 <= i,
    ensures
        ({
            let step = if index.k < 64 {
                1
            } else {
                index.k as int / 32
            };
            &&& i < queries.len() <==> i * step < index.centroids@.len()
            &&& i < queries.len() ==> forall|j: int|
                0 <= j < 14 ==> (#[trigger] queries[i]@[j]) == index.centroids@[i * step]@[j]
            &&& i < queries.len() ==> queries[i]@[14] == 0 && queries[i]@[15] == 0
        }),
{
    let step = index.warmup_step();
    let n = index.centroids@.len() as int;
    let q = queries.len() as int;
    let simple = if index.k < 64 {
        1
    } else {
        index.k as int / 32
    };
    assert(step == simple);
    assert(q == (n + step - 1) / step);
    vstd::arithmetic::div_mod::lemma_fundamental_div_mod(n + step - 1, step);
    let rest = (n + step - 1) % step;
    vstd::arithmetic::div_mod::lemma_mod_bound(n + step - 1, step);
    assert(i < q <==> i * step < n) by (nonlinear_arith)
        requires
            n + step - 1 == step * q + rest,
            0 <= rest < step,
            step > 0,
    ;
    if i < q {
        let c = index.centroids@[i * step]@;
        assert(queries[i]@ == c + seq![0u32, 0u32]);
        assert forall|j: int| 0 <= j < 14 implies (#[trigger] queries[i]@[j]) == c[j] by {}
        assert(queries[i]@[14] == seq![0u32, 0u32][0]);
        assert(queries[i]@[15] == seq![0u32, 0u32][1]);
    }
}

/// A sample lists different positions below `n`: as many as asked for, or all.
pub proof fn law_sample(sampled: Seq<usize>, n: nat, amount: nat)
    requires
        is_sample(sampled, n, amount),
    ensures
        amount <= n ==> sampled.len() == amount,
        amount >= n ==> sampled.len() == n,
        forall|i: int, j: int|
            0 <= i < j < sampled.len() ==> #[trigger] sampled[i] != #[trigger] sampled[j],
        forall|i: int| 0 <= i < sampled.len() ==> #[trigger] sampled[i] < n,
{
}

} // verus!
