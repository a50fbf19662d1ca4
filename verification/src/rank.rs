//! Ranking positions by the distances that stand there.

use crate::ieee::{place, place_of};
use vstd::prelude::*;
use vstd::set_lib::{lemma_int_range, lemma_subset_equality, set_int_range};

verus! {

/// Position `i` ranks before position `j`: it is nearer, or as near and earlier.
pub open spec fn before(dists: Seq<u32>, i: int, j: int) -> bool {
    place(dists[i]) < place(dists[j]) || (place(dists[i]) == place(dists[j]) && i < j)
}

/// `ranked` lists the `count` positions that rank first (all, if there are fewer),
/// in order of rank.
pub open spec fn is_ranking(dists: Seq<u32>, ranked: Seq<usize>, count: int) -> bool {
    &&& ranked.len() == if dists.len() < count {
        dists.len() as int
    } else {
        count
    }
    &&& forall|a: int| 0 <= a < ranked.len() ==> 0 <= #[trigger] ranked[a] < dists.len()
    &&& forall|a: int, b: int|
        0 <= a < b < ranked.len() ==> before(
            dists,
            #[trigger] ranked[a] as int,
            #[trigger] ranked[b] as int,
        )
    &&& forall|a: int, j: int|
        #![trigger ranked[a], dists[j]]
        0 <= a < ranked.len() && 0 <= j < dists.len() && !ranked.contains(j as usize) ==> before(
            dists,
            ranked[a] as int,
            j,
        )
}

/// There is only one ranking of given distances.
pub proof fn law_ranking_unique(dists: Seq<u32>, a: Seq<usize>, b: Seq<usize>, count: int)
    requires
        is_ranking(dists, a, count),
        is_ranking(dists, b, count),
    ensures
        a == b,
{
    lemma_ranking_prefix(dists, a, b, count, a.len() as int);
    assert(a =~= b);
}

/// A ranking lists no position twice.
pub proof fn law_ranking_distinct(dists: Seq<u32>, ranked: Seq<usize>, count: int)
    requires
        is_ranking(dists, ranked, count),
    ensures
        ranked.no_duplicates(),
        forall|a: int| 0 <= a < ranked.len() ==> #[trigger] ranked[a] < dists.len(),
{
    assert forall|a: int, b: int|
        0 <= a < ranked.len() && 0 <= b < ranked.len() && a != b implies ranked[a]
        != ranked[b] by {
        if a < b {
            assert(before(dists, ranked[a] as int, ranked[b] as int));
        } else {
            assert(before(dists, ranked[b] as int, ranked[a] as int));
        }
    }
}

/// A ranking of all positions lists each of them.
pub proof fn law_ranking_whole(dists: Seq<u32>, ranked: Seq<usize>, count: int, j: int)
    requires
        is_ranking(dists, ranked, count),
        dists.len() <= count,
        0 <= j < dists.len(),
        dists.len() <= usize::MAX,
    ensures
        ranked.contains(j as usize),
{
    let n = dists.len() as int;
    let places = ranked.map_values(|p: usize| p as int);
    assert(places.no_duplicates()) by {
        assert forall|a: int, b: int|
            0 <= a < places.len() && 0 <= b < places.len() && a != b implies places[a]
            != places[b] by {
            if a < b {
                assert(before(dists, ranked[a] as int, ranked[b] as int));
            } else {
                assert(before(dists, ranked[b] as int, ranked[a] as int));
            }
        }
    }
    places.unique_seq_to_set();
    lemma_int_range(0, n);
    assert(places.to_set().subset_of(set_int_range(0, n))) by {
        assert forall|x: int| places.to_set().contains(x) implies 0 <= x < n by {
            let a = choose|a: int| 0 <= a < places.len() && places[a] == x;
            assert(0 <= ranked[a] < n);
        }
    }
    lemma_subset_equality(places.to_set(), set_int_range(0, n));
    assert(places.to_set().contains(j));
    let a = choose|a: int| 0 <= a < places.len() && places[a] == j;
    assert(ranked[a] == j as usize);
}

/// Two rankings agree on every rank below `m`.
proof fn lemma_ranking_prefix(dists: Seq<u32>, a: Seq<usize>, b: Seq<usize>, count: int, m: int)
    requires
        is_ranking(dists, a, count),
        is_ranking(dists, b, count),
        0 <= m <= a.len(),
    ensures
        forall|i: int| 0 <= i < m ==> a[i] == b[i],
    decreases m,
{
    if m > 0 {
        lemma_ranking_prefix(dists, a, b, count, m - 1);
        lemma_not_before(dists, a, b, count, m - 1);
        lemma_not_before(dists, b, a, count, m - 1);
        assert(0 <= a[m - 1] < dists.len() && 0 <= b[m - 1] < dists.len());
    }
}

/// Where two rankings agree up to a rank, neither names a later position there.
proof fn lemma_not_before(dists: Seq<u32>, a: Seq<usize>, b: Seq<usize>, count: int, m: int)
    requires
        is_ranking(dists, a, count),
        is_ranking(dists, b, count),
        0 <= m < a.len(),
        forall|i: int| 0 <= i < m ==> a[i] == b[i],
    ensures
        !before(dists, a[m] as int, b[m] as int),
{
    if before(dists, a[m] as int, b[m] as int) {
        if b.contains(a[m]) {
            let i = choose|i: int| 0 <= i < b.len() && b[i] == a[m];
            if i < m {
                assert(before(dists, a[i] as int, a[m] as int));
            } else if i > m {
                assert(before(dists, b[m] as int, b[i] as int));
            }
        } else {
            assert(0 <= a[m] < dists.len());
            assert(dists[a[m] as int] == dists[a[m] as int]);
            assert(before(dists, b[m] as int, a[m] as int));
        }
        assert(false);
    }
}

/// State of the ranking after the first `i` positions have been placed.
spec fn is_partial(dists: Seq<u32>, ranked: Seq<usize>, count: int, i: int) -> bool {
    &&& ranked.len() == if i < count {
        i
    } else {
        count
    }
    &&& forall|a: int| 0 <= a < ranked.len() ==> 0 <= #[trigger] ranked[a] < i
    &&& forall|a: int, b: int|
        0 <= a < b < ranked.len() ==> before(
            dists,
            #[trigger] ranked[a] as int,
            #[trigger] ranked[b] as int,
        )
    &&& ranked.len() < count ==> forall|j: int|
        0 <= j < i ==> ranked.contains(#[trigger] (j as usize))
    &&& forall|a: int, j: int|
        #![trigger ranked[a], dists[j]]
        0 <= a < ranked.len() && 0 <= j < i && !ranked.contains(j as usize) ==> before(
            dists,
            ranked[a] as int,
            j,
        )
}

/// Placing position `i` at rank `p` keeps the ranking, with the last one dropped if
/// there is one too many.
proof fn lemma_place(dists: Seq<u32>, ranked: Seq<usize>, count: int, i: usize, p: int)
    requires
        is_partial(dists, ranked, count, i as int),
        i < dists.len(),
        dists.len() <= usize::MAX,
        0 <= p <= ranked.len(),
        forall|a: int| 0 <= a < p ==> place(dists[#[trigger] ranked[a] as int]) <= place(dists[i as int]),
        p < ranked.len() ==> place(dists[i as int]) < place(dists[ranked[p] as int]),
        count > 0,
    ensures
        ({
            let grown = ranked.insert(p, i);
            let kept = if grown.len() > count {
                grown.drop_last()
            } else {
                grown
            };
            is_partial(dists, kept, count, i + 1)
        }),
{
    let grown = ranked.insert(p, i);
    let kept = if grown.len() > count {
        grown.drop_last()
    } else {
        grown
    };
    assert forall|a: int| 0 <= a < grown.len() implies 0 <= #[trigger] grown[a] < i + 1 by {
        if a < p {
            assert(grown[a] == ranked[a]);
        } else if a > p {
            assert(grown[a] == ranked[a - 1]);
        }
    }
    assert forall|a: int, b: int| 0 <= a < b < grown.len() implies before(
        dists,
        #[trigger] grown[a] as int,
        #[trigger] grown[b] as int,
    ) by {
        let ra = if a < p {
            ranked[a]
        } else {
            ranked[a - 1]
        };
        let rb = if b < p {
            ranked[b]
        } else {
            ranked[b - 1]
        };
        if a == p {
            assert(before(dists, ranked[p] as int, rb as int) || p == b - 1);
        } else if b == p {
            assert(place(dists[ranked[a] as int]) <= place(dists[i as int]));
        }
    }
    assert forall|j: int| 0 <= j < i + 1 && (j == i || ranked.contains(j as usize)) implies grown.contains(
        #[trigger] (j as usize),
    ) by {
        if j == i {
            assert(grown[p] == i);
        } else {
            let a = choose|a: int| 0 <= a < ranked.len() && ranked[a] == j as usize;
            if a < p {
                assert(grown[a] == j as usize);
            } else {
                assert(grown[a + 1] == j as usize);
            }
        }
    }
    assert forall|a: int, j: int|
        #![trigger kept[a], dists[j]]
        0 <= a < kept.len() && 0 <= j < i + 1 && !kept.contains(j as usize) implies before(
        dists,
        kept[a] as int,
        j,
    ) by {
        assert(kept[a] == grown[a]);
        let last = grown.last();
        if grown.len() > count {
            if grown.contains(j as usize) {
                let b = choose|b: int| 0 <= b < grown.len() && grown[b] == j as usize;
                if b < grown.len() - 1 {
                    assert(kept[b] == j as usize);
                }
                assert(j as usize == last);
                assert(before(dists, grown[a] as int, grown[grown.len() - 1] as int));
            } else {
                assert(j != i && !ranked.contains(j as usize));
                if a < p {
                    assert(grown[a] == ranked[a]);
                } else if a == p {
                    assert(before(dists, ranked[p] as int, j));
                } else {
                    assert(grown[a] == ranked[a - 1]);
                }
            }
        } else {
            assert(ranked.len() < count);
            assert(j == i || ranked.contains(j as usize));
        }
    }
}

/// The `count` positions that rank first, in order of rank.
pub fn nearest_first(dists: &[u32], count: usize) -> (r: Vec<usize>)
    ensures
        is_ranking(dists@, r@, count as int),
{
    let mut ranked: Vec<usize> = Vec::new();
    if count == 0 {
        return ranked;
    }
    for i in 0..dists.len()
        invariant
            count > 0,
            is_partial(dists@, ranked@, count as int, i as int),
    {
        let here: i64 = place_of(dists[i]);
        let mut p: usize = ranked.len();
        while p > 0 && here < place_of(dists[ranked[p - 1]])
            invariant
                0 <= i < dists@.len(),
                here == place(dists@[i as int]),
                p <= ranked@.len(),
                is_partial(dists@, ranked@, count as int, i as int),
                p < ranked@.len() ==> here < place(dists@[ranked@[p as int] as int]),
            decreases p,
        {
            p = p - 1;
        }
        proof {
            assert forall|a: int| 0 <= a < p implies place(dists@[#[trigger] ranked@[a] as int])
                <= here by {
                assert(ranked@[p - 1] < i);
                if a < p - 1 {
                    assert(before(dists@, ranked@[a] as int, ranked@[p - 1] as int));
                }
            }
            lemma_place(dists@, ranked@, count as int, i, p as int);
        }
        let ghost grown = ranked@.insert(p as int, i);
        ranked.insert(p, i);
        if ranked.len() > count {
            ranked.pop();
            assert(ranked@ =~= grown.drop_last());
        }
    }
    ranked
}

} // verus!
