//! What it means to keep the nearest of a stream of items.
//!
//! An item is a pair: the distance by which items are ranked (an integer that
//! orders as the distance does) and a tag that travels with it.

use vstd::prelude::*;
use vstd::seq_lib::group_to_multiset_ensures;

verus! {

/// Slot `i` holds the farthest item kept, and no earlier slot is as far.
pub open spec fn is_farthest(kept: Seq<(int, int)>, i: int) -> bool {
    &&& 0 <= i < kept.len()
    &&& forall|j: int| 0 <= j < kept.len() ==> (#[trigger] kept[j]).0 <= kept[i].0
    &&& forall|j: int| 0 <= j < i ==> (#[trigger] kept[j]).0 < kept[i].0
}

/// The first slot that holds the farthest item kept.
pub open spec fn farthest(kept: Seq<(int, int)>) -> int {
    choose|i: int| is_farthest(kept, i)
}

/// What is kept after one more item arrives at a store of `capacity` slots:
/// a free slot takes it; a full store trades its farthest item for a nearer one.
pub open spec fn keep(kept: Seq<(int, int)>, capacity: nat, item: (int, int)) -> Seq<(int, int)> {
    if kept.len() < capacity {
        kept.push(item)
    } else if kept.len() > 0 && item.0 < kept[farthest(kept)].0 {
        kept.update(farthest(kept), item)
    } else {
        kept
    }
}

/// What is kept of a whole stream, which arrives in order at an empty store.
pub open spec fn nearest_of(capacity: nat, items: Seq<(int, int)>) -> Seq<(int, int)>
    decreases items.len(),
{
    if items.len() == 0 {
        Seq::empty()
    } else {
        keep(nearest_of(capacity, items.drop_last()), capacity, items.last())
    }
}

/// How many of the items carry the tag of a fraud.
pub open spec fn frauds(items: Seq<(int, int)>) -> int
    decreases items.len(),
{
    if items.len() == 0 {
        0
    } else {
        frauds(items.drop_last()) + if items.last().1 == 1 {
            1int
        } else {
            0
        }
    }
}

/// A store that is not empty has exactly one farthest slot in the sense of
/// [`is_farthest`].
pub proof fn lemma_farthest(kept: Seq<(int, int)>)
    requires
        kept.len() > 0,
    ensures
        is_farthest(kept, farthest(kept)),
    decreases kept.len(),
{
    if kept.len() == 1 {
        assert(is_farthest(kept, 0));
    } else {
        let rest = kept.drop_last();
        lemma_farthest(rest);
        let f = farthest(rest);
        assert(forall|j: int| 0 <= j < rest.len() ==> rest[j] == kept[j]);
        if kept.last().0 > kept[f].0 {
            assert(is_farthest(kept, kept.len() - 1));
        } else {
            assert(is_farthest(kept, f));
        }
    }
}

/// A slot known to be the farthest is the one that [`farthest`] names.
pub proof fn lemma_farthest_unique(kept: Seq<(int, int)>, i: int)
    requires
        is_farthest(kept, i),
    ensures
        farthest(kept) == i,
{
    let f = farthest(kept);
    assert(is_farthest(kept, f));
    assert(kept[f].0 <= kept[i].0 && kept[i].0 <= kept[f].0);
}

/// Appending to the stream keeps one more item.
pub proof fn lemma_nearest_push(capacity: nat, items: Seq<(int, int)>, item: (int, int))
    ensures
        nearest_of(capacity, items.push(item)) == keep(
            nearest_of(capacity, items),
            capacity,
            item,
        ),
{
    assert(items.push(item).drop_last() =~= items);
}

/// A store never holds more than its capacity, and is full once as many items
/// have arrived.
pub proof fn law_nearest_len(capacity: nat, items: Seq<(int, int)>)
    ensures
        nearest_of(capacity, items).len() == if items.len() < capacity {
            items.len()
        } else {
            capacity
        },
    decreases items.len(),
{
    if items.len() > 0 {
        let before = nearest_of(capacity, items.drop_last());
        law_nearest_len(capacity, items.drop_last());
        if before.len() > 0 {
            lemma_farthest(before);
        }
    }
}

/// What is kept came from the stream (counting repetitions), and an item of the
/// stream that is not kept, or not as often as it arrived, is at least as far as
/// everything that is kept.
pub proof fn law_nearest_kept(capacity: nat, items: Seq<(int, int)>)
    ensures
        nearest_of(capacity, items).to_multiset().subset_of(items.to_multiset()),
        forall|item: (int, int), j: int|
            #![trigger items.to_multiset().count(item), nearest_of(capacity, items)[j]]
            items.to_multiset().count(item) > nearest_of(capacity, items).to_multiset().count(item)
                && 0 <= j < nearest_of(capacity, items).len()
                ==> nearest_of(capacity, items)[j].0 <= item.0,
    decreases items.len(),
{
    broadcast use group_to_multiset_ensures;

    let kept = nearest_of(capacity, items);
    if items.len() > 0 {
        let rest = items.drop_last();
        let before = nearest_of(capacity, rest);
        let item = items.last();
        law_nearest_kept(capacity, rest);
        law_nearest_len(capacity, rest);
        assert(rest.push(item) =~= items);
        assert(items.to_multiset() =~= rest.to_multiset().insert(item));
        if before.len() < capacity {
            assert(kept.to_multiset() =~= before.to_multiset().insert(item));
            lemma_all_kept(capacity, rest);
            assert(before =~= rest);
            assert(kept =~= items);
        } else if before.len() > 0 && item.0 < before[farthest(before)].0 {
            let f = farthest(before);
            let gone = before[f];
            lemma_farthest(before);
            vstd::seq_lib::to_multiset_update(before, f, item);
            assert forall|other: (int, int), j: int|
                #![trigger items.to_multiset().count(other), kept[j]]
                items.to_multiset().count(other) > kept.to_multiset().count(other) && 0 <= j
                    < kept.len() implies kept[j].0 <= other.0 by {
                assert(before[j].0 <= gone.0);
                assert(kept[j].0 <= gone.0);
                if other != gone {
                    assert(rest.to_multiset().count(other) > before.to_multiset().count(other));
                    assert(before[f].0 <= other.0);
                }
            }
        } else {
            assert(kept == before);
            assert forall|other: (int, int), j: int|
                #![trigger items.to_multiset().count(other), kept[j]]
                items.to_multiset().count(other) > kept.to_multiset().count(other) && 0 <= j
                    < kept.len() implies kept[j].0 <= other.0 by {
                lemma_farthest(before);
                assert(before[j].0 <= before[farthest(before)].0);
                if rest.to_multiset().count(other) > before.to_multiset().count(other) {
                    assert(before[j].0 <= other.0);
                } else {
                    assert(other == item);
                }
            }
        }
    }
}

/// A stream no longer than the capacity is kept whole and in order.
pub proof fn lemma_all_kept(capacity: nat, items: Seq<(int, int)>)
    requires
        items.len() <= capacity,
    ensures
        nearest_of(capacity, items) == items,
    decreases items.len(),
{
    if items.len() > 0 {
        lemma_all_kept(capacity, items.drop_last());
        assert(items.drop_last().push(items.last()) =~= items);
    }
}

/// The items of `b` are those of `a`, but for slot `s`, whose tag is 1 in place of 0.
pub open spec fn raised_at(a: Seq<(int, int)>, b: Seq<(int, int)>, s: int) -> bool {
    &&& a.len() == b.len()
    &&& 0 <= s < a.len()
    &&& a[s].0 == b[s].0
    &&& a[s].1 == 0
    &&& b[s].1 == 1
    &&& forall|i: int| 0 <= i < a.len() && i != s ==> #[trigger] a[i] == b[i]
}

/// The items of `b` are those of `a`, but that at most one tag is 1 in place of 0.
pub open spec fn raised(a: Seq<(int, int)>, b: Seq<(int, int)>) -> bool {
    a == b || exists|s: int| raised_at(a, b, s)
}

/// Tags do not decide which slot is the farthest.
proof fn lemma_farthest_untagged(a: Seq<(int, int)>, b: Seq<(int, int)>)
    requires
        a.len() == b.len(),
        a.len() > 0,
        forall|i: int| 0 <= i < a.len() ==> (#[trigger] a[i]).0 == b[i].0,
    ensures
        farthest(a) == farthest(b),
{
    lemma_farthest(a);
    let f = farthest(a);
    assert forall|i: int| 0 <= i < b.len() implies (#[trigger] b[i]).0 <= b[f].0 by {
        assert(a[i].0 <= a[f].0);
    }
    assert forall|i: int| 0 <= i < f implies (#[trigger] b[i]).0 < b[f].0 by {
        assert(a[i].0 < a[f].0);
    }
    lemma_farthest_unique(b, f);
}

/// One more item leaves stores alike that differ in one tag at most.
proof fn lemma_keep_raised(a: Seq<(int, int)>, b: Seq<(int, int)>, capacity: nat, item: (int, int))
    requires
        raised(a, b),
    ensures
        raised(keep(a, capacity, item), keep(b, capacity, item)),
{
    if a != b {
        let s = choose|s: int| raised_at(a, b, s);
        assert forall|i: int| 0 <= i < a.len() implies (#[trigger] a[i]).0 == b[i].0 by {
            if i != s {
                assert(a[i] == b[i]);
            }
        }
        lemma_farthest_untagged(a, b);
        lemma_farthest(a);
        let f = farthest(a);
        let ka = keep(a, capacity, item);
        let kb = keep(b, capacity, item);
        assert(a[f].0 == b[f].0);
        if a.len() < capacity {
            assert(raised_at(ka, kb, s));
        } else if item.0 < a[f].0 {
            if f == s {
                assert(ka =~= kb);
            } else {
                assert(raised_at(ka, kb, s));
            }
        }
    }
}

/// Tags never decide which items are kept: where one tag of a stream is 1 in place of
/// 0, so is at most one of those kept, and everything else that is kept is the same.
pub proof fn law_tags_passive(capacity: nat, a: Seq<(int, int)>, b: Seq<(int, int)>)
    requires
        raised(a, b),
    ensures
        raised(nearest_of(capacity, a), nearest_of(capacity, b)),
    decreases a.len(),
{
    if a != b {
        let s = choose|s: int| raised_at(a, b, s);
        let ra = a.drop_last();
        let rb = b.drop_last();
        if s == a.len() - 1 {
            assert(ra =~= rb);
            let before = nearest_of(capacity, ra);
            let ka = keep(before, capacity, a.last());
            let kb = keep(before, capacity, b.last());
            if before.len() < capacity {
                assert(raised_at(ka, kb, before.len() as int));
            } else if before.len() > 0 {
                lemma_farthest(before);
                if a.last().0 < before[farthest(before)].0 {
                    assert(raised_at(ka, kb, farthest(before)));
                }
            }
        } else {
            assert(raised_at(ra, rb, s));
            law_tags_passive(capacity, ra, rb);
            lemma_keep_raised(nearest_of(capacity, ra), nearest_of(capacity, rb), capacity, a.last());
        }
    }
}

/// One more fraud raises the count of frauds by one, or by nothing where it is not
/// among the items.
pub proof fn law_frauds_raised(a: Seq<(int, int)>, b: Seq<(int, int)>)
    requires
        raised(a, b),
    ensures
        frauds(b) == frauds(a) + if a == b {
            0int
        } else {
            1
        },
    decreases a.len(),
{
    if a != b {
        let s = choose|s: int| raised_at(a, b, s);
        let ra = a.drop_last();
        let rb = b.drop_last();
        if s == a.len() - 1 {
            assert(ra =~= rb);
        } else {
            assert(raised_at(ra, rb, s));
            assert(ra[s] != rb[s]);
            law_frauds_raised(ra, rb);
        }
    }
}

} // verus!
