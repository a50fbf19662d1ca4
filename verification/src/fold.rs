//! Running totals whose addition is the caller's.

use vstd::prelude::*;

verus! {

/// Adding `values` one after the other to `start` may give `total`.
pub open spec fn accumulates<A, F: Fn(A, u32) -> A>(
    add_to: &F,
    start: A,
    values: Seq<u32>,
    total: A,
) -> bool
    decreases values.len(),
{
    if values.len() == 0 {
        total == start
    } else {
        exists|before: A|
            {
                &&& accumulates(add_to, start, values.drop_last(), before)
                &&& #[trigger] call_ensures(*add_to, (before, values.last()), total)
            }
    }
}

/// One more value is added to a running total.
pub proof fn lemma_accumulates<A, F: Fn(A, u32) -> A>(
    add_to: &F,
    start: A,
    values: Seq<u32>,
    before: A,
    value: u32,
    total: A,
)
    requires
        accumulates(add_to, start, values, before),
        call_ensures(*add_to, (before, value), total),
    ensures
        accumulates(add_to, start, values.push(value), total),
{
    assert(values.push(value).drop_last() =~= values);
    assert(values.push(value).last() == value);
}

/// Where the addition gives one result only, so does a running total.
pub proof fn law_total_unique<A, F: Fn(A, u32) -> A>(
    add_to: &F,
    start: A,
    values: Seq<u32>,
    total: A,
    other: A,
)
    requires
        forall|a: A, v: u32, x: A, y: A|
            #![trigger call_ensures(*add_to, (a, v), x), call_ensures(*add_to, (a, v), y)]
            call_ensures(*add_to, (a, v), x) && call_ensures(*add_to, (a, v), y) ==> x == y,
        accumulates(add_to, start, values, total),
        accumulates(add_to, start, values, other),
    ensures
        total == other,
    decreases values.len(),
{
    if values.len() > 0 {
        let rest = values.drop_last();
        let a = choose|before: A|
            {
                &&& accumulates(add_to, start, rest, before)
                &&& #[trigger] call_ensures(*add_to, (before, values.last()), total)
            };
        let b = choose|before: A|
            {
                &&& accumulates(add_to, start, rest, before)
                &&& #[trigger] call_ensures(*add_to, (before, values.last()), other)
            };
        law_total_unique(add_to, start, rest, a, b);
    }
}

} // verus!
