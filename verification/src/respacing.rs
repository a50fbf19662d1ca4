//! White space between the tokens of a request means nothing.

use crate::scan::{
    after_array, after_key, after_string, array_at, array_start, decimal, decimal_run, has_key,
    is_true, law_run, law_string_end, lemma_after_string, run_end, string_at, string_end, Class,
};
use crate::spacing::{
    between, is_distinct, lemma_list, lemma_literal, lemma_names, lemma_no_key, lemma_outside,
    lemma_seek, lemma_string, lemma_word, moved, outside, plain, separates, shifted, spaced,
    strings_only, Expects,
};
use crate::vectorize::{
    after_bool, features_of, is_dated, is_known, last_at, layout, number_at, request_at, request_of,
    FeatureView, Layout,
};
use vstd::prelude::*;
use vstd::string::*;

verus! {

/// A string stands at `v`, outside other strings, and is closed.
pub open spec fn is_string(d: Seq<u8>, v: int) -> bool {
    &&& 0 <= v < d.len()
    &&& d[v] == 34
    &&& outside(d, 0, v)
    &&& string_end(d, v + 1) < d.len()
}

/// A list of strings stands at `v`, outside strings, and is closed.
pub open spec fn is_list(d: Seq<u8>, v: int) -> bool {
    &&& 0 <= v < d.len()
    &&& d[v] == 91
    &&& outside(d, 0, v)
    &&& strings_only(d, v + 1, Expects::First)
}

/// Whether `false` stands at `p`.
pub open spec fn is_false(d: Seq<u8>, p: int) -> bool {
    p + 5 <= d.len() && d.subrange(p, p + 5) == "false".spec_bytes()
}

/// A truth value stands at `v`.
pub open spec fn is_bool(d: Seq<u8>, v: int) -> bool {
    0 <= v && (is_true(d, v) || is_false(d, v))
}

/// The last transaction, if a body has one, has its fields.
pub open spec fn last_in_schema(d: Seq<u8>, p: int) -> bool {
    let l = after_key(d, p, "last_transaction".spec_bytes());
    has_key(d, p, "last_transaction".spec_bytes()) && l < d.len() && d[l] != 110 ==> {
        let t = after_key(d, l, "timestamp".spec_bytes());
        &&& has_key(d, l, "timestamp".spec_bytes())
        &&& is_string(d, t)
        &&& has_key(d, after_string(d, t), "km_from_current".spec_bytes())
    }
}

/// The fields up to the list of merchants are there, in order.
pub open spec fn first_fields(d: Seq<u8>, l: Layout) -> bool {
    &&& has_key(d, 0, "amount".spec_bytes())
    &&& has_key(d, run_end(d, l.amount, Class::Number), "installments".spec_bytes())
    &&& has_key(d, run_end(d, l.installments, Class::Digit), "requested_at".spec_bytes())
    &&& is_string(d, l.requested_at)
    &&& has_key(d, after_string(d, l.requested_at), "avg_amount".spec_bytes())
    &&& has_key(d, run_end(d, l.average, Class::Number), "tx_count_24h".spec_bytes())
    &&& has_key(d, run_end(d, l.count, Class::Digit), "known_merchants".spec_bytes())
    &&& is_list(d, l.known)
}

/// The fields after the list of merchants are there, in order.
pub open spec fn later_fields(d: Seq<u8>, l: Layout) -> bool {
    &&& has_key(d, after_array(d, l.known), "id".spec_bytes())
    &&& is_string(d, l.id)
    &&& has_key(d, after_string(d, l.id), "mcc".spec_bytes())
    &&& is_string(d, l.mcc)
    &&& has_key(d, after_string(d, l.mcc), "avg_amount".spec_bytes())
    &&& has_key(d, run_end(d, l.merchant_average, Class::Number), "is_online".spec_bytes())
    &&& is_bool(d, l.online)
    &&& has_key(d, after_bool(d, l.online), "card_present".spec_bytes())
    &&& is_bool(d, l.card)
    &&& has_key(d, after_bool(d, l.card), "km_from_home".spec_bytes())
    &&& last_in_schema(d, run_end(d, l.km, Class::Number))
}

/// A body has all fields in the order of the schema, strings, lists of strings and
/// truth values where the schema has them.
pub open spec fn in_schema(d: Seq<u8>) -> bool {
    first_fields(d, layout(d)) && later_fields(d, layout(d))
}

/// The features of a body, if it can be read.
pub open spec fn body_features(d: Seq<u8>) -> Option<Seq<FeatureView>> {
    match request_of(d) {
        Some(r) => Some(features_of(r)),
        None => None,
    }
}

/// Putting `blanks` blanks into `d`, one after the other and each between two tokens,
/// gives `e`.
pub open spec fn respaced(d: Seq<u8>, e: Seq<u8>, blanks: nat) -> bool
    decreases blanks,
{
    if blanks == 0 {
        d == e
    } else {
        exists|m: Seq<u8>, i: int| #[trigger]
            spaced(d, m, i) && between(d, i) && respaced(m, e, (blanks - 1) as nat)
    }
}

/// The names of the fields hold no blanks and no punctuation.
proof fn lemma_plain(s: &str)
    requires
        is_ascii(s),
        forall|j: int| 0 <= j < s@.len() ==> !separates(#[trigger] s@[j] as u8),
    ensures
        plain(s.spec_bytes()),
{
    is_ascii_spec_bytes(s);
}

/// All names that the scanner looks for.
proof fn lemma_names_plain()
    ensures
        plain("amount".spec_bytes()),
        plain("installments".spec_bytes()),
        plain("requested_at".spec_bytes()),
        plain("avg_amount".spec_bytes()),
        plain("tx_count_24h".spec_bytes()),
        plain("known_merchants".spec_bytes()),
        plain("id".spec_bytes()),
        plain("mcc".spec_bytes()),
        plain("is_online".spec_bytes()),
        plain("card_present".spec_bytes()),
        plain("km_from_home".spec_bytes()),
        plain("last_transaction".spec_bytes()),
        plain("timestamp".spec_bytes()),
        plain("km_from_current".spec_bytes()),
{
    reveal_strlit("amount");
    reveal_strlit("installments");
    reveal_strlit("requested_at");
    reveal_strlit("avg_amount");
    reveal_strlit("tx_count_24h");
    reveal_strlit("known_merchants");
    reveal_strlit("id");
    reveal_strlit("mcc");
    reveal_strlit("is_online");
    reveal_strlit("card_present");
    reveal_strlit("km_from_home");
    reveal_strlit("last_transaction");
    reveal_strlit("timestamp");
    reveal_strlit("km_from_current");
    lemma_plain("amount");
    lemma_plain("installments");
    lemma_plain("requested_at");
    lemma_plain("avg_amount");
    lemma_plain("tx_count_24h");
    lemma_plain("known_merchants");
    lemma_plain("id");
    lemma_plain("mcc");
    lemma_plain("is_online");
    lemma_plain("card_present");
    lemma_plain("km_from_home");
    lemma_plain("last_transaction");
    lemma_plain("timestamp");
    lemma_plain("km_from_current");
}

/// Equal digits write equal numbers.
proof fn lemma_decimal(d: Seq<u8>, a: int, b: int, e: Seq<u8>, x: int)
    requires
        0 <= a <= b <= d.len(),
        0 <= x,
        x + (b - a) <= e.len(),
        d.subrange(a, b) == e.subrange(x, x + (b - a)),
    ensures
        decimal(d, a, b) == decimal(e, x, x + (b - a)),
    decreases b - a,
{
    if a < b {
        let s = d.subrange(a, b);
        let t = e.subrange(x, x + (b - a));
        assert(s[b - 1 - a] == t[b - 1 - a]);
        assert(d.subrange(a, b - 1) =~= s.subrange(0, b - 1 - a));
        assert(e.subrange(x, x + (b - 1 - a)) =~= t.subrange(0, b - 1 - a));
        lemma_decimal(d, a, b - 1, e, x);
    }
}

/// A string value moves as a whole, and stays one.
proof fn lemma_is_string(d: Seq<u8>, e: Seq<u8>, i: int, v: int)
    requires
        spaced(d, e, i),
        between(d, i),
        is_string(d, v),
    ensures
        is_string(e, moved(i, v)),
        string_at(e, moved(i, v)) == string_at(d, v),
        shifted(i, after_string(d, v), after_string(e, moved(i, v))),
        v < after_string(d, v) <= d.len(),
{
    lemma_string(d, e, i, v);
    lemma_outside(d, e, i, v);
    lemma_after_string(d, v);
    law_string_end(d, v + 1);
}

/// A count moves as a whole.
proof fn lemma_count(d: Seq<u8>, e: Seq<u8>, i: int, v: int)
    requires
        spaced(d, e, i),
        between(d, i),
        0 <= v <= d.len(),
    ensures
        decimal_run(e, moved(i, v)) == decimal_run(d, v),
        shifted(i, run_end(d, v, Class::Digit), run_end(e, moved(i, v), Class::Digit)),
        v <= run_end(d, v, Class::Digit) <= d.len(),
{
    law_run(d, v, Class::Digit);
    lemma_word(d, e, i, v, Class::Digit);
    lemma_decimal(d, v, run_end(d, v, Class::Digit), e, moved(i, v));
}

/// A number moves as a whole.
proof fn lemma_number(d: Seq<u8>, e: Seq<u8>, i: int, v: int)
    requires
        spaced(d, e, i),
        between(d, i),
        0 <= v <= d.len(),
    ensures
        number_at(e, moved(i, v)) == number_at(d, v),
        shifted(i, run_end(d, v, Class::Number), run_end(e, moved(i, v), Class::Number)),
        v <= run_end(d, v, Class::Number) <= d.len(),
{
    law_run(d, v, Class::Number);
    lemma_word(d, e, i, v, Class::Number);
}

/// A truth value moves as a whole.
proof fn lemma_truth(d: Seq<u8>, e: Seq<u8>, i: int, v: int)
    requires
        spaced(d, e, i),
        between(d, i),
        is_bool(d, v),
    ensures
        is_bool(e, moved(i, v)),
        is_true(e, moved(i, v)) == is_true(d, v),
        shifted(i, after_bool(d, v), after_bool(e, moved(i, v))),
        v < after_bool(d, v) <= d.len(),
        after_bool(e, moved(i, v)) <= e.len(),
{
    reveal_strlit("true");
    reveal_strlit("false");
    lemma_plain("true");
    lemma_plain("false");
    is_ascii_spec_bytes("true");
    is_ascii_spec_bytes("false");
    let w = moved(i, v);
    if is_true(d, v) {
        lemma_literal(d, e, i, v, "true".spec_bytes());
    } else {
        lemma_literal(d, e, i, v, "false".spec_bytes());
        if is_true(e, w) {
            assert(e.subrange(w, w + 4)[0] == e.subrange(w, w + 5)[0]);
        }
    }
}

/// The fields up to the list of merchants move along.
proof fn lemma_first(d: Seq<u8>, e: Seq<u8>, i: int)
    requires
        spaced(d, e, i),
        between(d, i),
        first_fields(d, layout(d)),
    ensures
        first_fields(e, layout(e)),
        0 <= layout(d).amount <= d.len(),
        0 <= layout(d).installments <= d.len(),
        0 <= layout(d).average <= d.len(),
        0 <= layout(d).count <= d.len(),
        layout(e).amount == moved(i, layout(d).amount),
        layout(e).installments == moved(i, layout(d).installments),
        layout(e).requested_at == moved(i, layout(d).requested_at),
        layout(e).average == moved(i, layout(d).average),
        layout(e).count == moved(i, layout(d).count),
        layout(e).known == moved(i, layout(d).known),
        shifted(i, after_array(d, layout(d).known), after_array(e, layout(e).known)),
        0 <= after_array(d, layout(d).known) <= d.len(),
{
    let l = layout(d);
    let m = layout(e);
    lemma_names_plain();
    lemma_seek(d, e, i, 0, 0, "amount".spec_bytes());
    lemma_number(d, e, i, l.amount);
    lemma_seek(
        d,
        e,
        i,
        run_end(d, l.amount, Class::Number),
        run_end(e, m.amount, Class::Number),
        "installments".spec_bytes(),
    );
    lemma_count(d, e, i, l.installments);
    lemma_seek(
        d,
        e,
        i,
        run_end(d, l.installments, Class::Digit),
        run_end(e, m.installments, Class::Digit),
        "requested_at".spec_bytes(),
    );
    lemma_is_string(d, e, i, l.requested_at);
    lemma_seek(
        d,
        e,
        i,
        after_string(d, l.requested_at),
        after_string(e, m.requested_at),
        "avg_amount".spec_bytes(),
    );
    lemma_number(d, e, i, l.average);
    lemma_seek(
        d,
        e,
        i,
        run_end(d, l.average, Class::Number),
        run_end(e, m.average, Class::Number),
        "tx_count_24h".spec_bytes(),
    );
    lemma_count(d, e, i, l.count);
    lemma_seek(
        d,
        e,
        i,
        run_end(d, l.count, Class::Digit),
        run_end(e, m.count, Class::Digit),
        "known_merchants".spec_bytes(),
    );
    lemma_list(d, e, i, l.known);
    lemma_outside(d, e, i, l.known);
    assert(array_start(d, l.known) == l.known + 1);
    assert(array_start(e, m.known) == m.known + 1);
}

/// The last transaction moves along.
proof fn lemma_last(d: Seq<u8>, e: Seq<u8>, i: int, p: int, r: int)
    requires
        spaced(d, e, i),
        between(d, i),
        0 <= p <= d.len(),
        shifted(i, p, r),
        last_in_schema(d, p),
    ensures
        last_in_schema(e, r),
        last_at(e, r) == last_at(d, p),
{
    lemma_names_plain();
    let key = "last_transaction".spec_bytes();
    if has_key(d, p, key) {
        lemma_seek(d, e, i, p, r, key);
        let l = after_key(d, p, key);
        if l < d.len() {
            assert(e[moved(i, l)] == d[l]);
        }
        if l < d.len() && d[l] != 110 {
            lemma_seek(d, e, i, l, moved(i, l), "timestamp".spec_bytes());
            let t = after_key(d, l, "timestamp".spec_bytes());
            lemma_is_string(d, e, i, t);
            lemma_seek(
                d,
                e,
                i,
                after_string(d, t),
                after_string(e, moved(i, t)),
                "km_from_current".spec_bytes(),
            );
            lemma_number(
                d,
                e,
                i,
                after_key(d, after_string(d, t), "km_from_current".spec_bytes()),
            );
        }
    } else {
        lemma_no_key(d, e, i, p, r, key);
    }
}

/// The fields after the list of merchants move along.
proof fn lemma_later(d: Seq<u8>, e: Seq<u8>, i: int)
    requires
        spaced(d, e, i),
        between(d, i),
        later_fields(d, layout(d)),
        layout(e).known == moved(i, layout(d).known),
        shifted(i, after_array(d, layout(d).known), after_array(e, layout(e).known)),
        0 <= after_array(d, layout(d).known) <= d.len(),
    ensures
        later_fields(e, layout(e)),
        0 <= layout(d).merchant_average <= d.len(),
        0 <= layout(d).km <= d.len(),
        layout(e).id == moved(i, layout(d).id),
        layout(e).mcc == moved(i, layout(d).mcc),
        layout(e).merchant_average == moved(i, layout(d).merchant_average),
        layout(e).online == moved(i, layout(d).online),
        layout(e).card == moved(i, layout(d).card),
        layout(e).km == moved(i, layout(d).km),
        last_at(e, run_end(e, layout(e).km, Class::Number)) == last_at(
            d,
            run_end(d, layout(d).km, Class::Number),
        ),
{
    let l = layout(d);
    let m = layout(e);
    lemma_names_plain();
    lemma_seek(d, e, i, after_array(d, l.known), after_array(e, m.known), "id".spec_bytes());
    lemma_is_string(d, e, i, l.id);
    lemma_seek(d, e, i, after_string(d, l.id), after_string(e, m.id), "mcc".spec_bytes());
    lemma_is_string(d, e, i, l.mcc);
    lemma_seek(d, e, i, after_string(d, l.mcc), after_string(e, m.mcc), "avg_amount".spec_bytes());
    lemma_number(d, e, i, l.merchant_average);
    lemma_seek(
        d,
        e,
        i,
        run_end(d, l.merchant_average, Class::Number),
        run_end(e, m.merchant_average, Class::Number),
        "is_online".spec_bytes(),
    );
    lemma_truth(d, e, i, l.online);
    lemma_seek(
        d,
        e,
        i,
        after_bool(d, l.online),
        after_bool(e, m.online),
        "card_present".spec_bytes(),
    );
    lemma_truth(d, e, i, l.card);
    lemma_seek(d, e, i, after_bool(d, l.card), after_bool(e, m.card), "km_from_home".spec_bytes());
    lemma_number(d, e, i, l.km);
    lemma_last(
        d,
        e,
        i,
        run_end(d, l.km, Class::Number),
        run_end(e, m.km, Class::Number),
    );
}

/// Whether the merchant is known does not change.
proof fn lemma_known(d: Seq<u8>, e: Seq<u8>, i: int, known: int, id: int)
    requires
        spaced(d, e, i),
        between(d, i),
        is_list(d, known),
        is_string(d, id),
        is_distinct(string_at(d, id)),
    ensures
        is_known(array_at(e, moved(i, known)), string_at(e, moved(i, id))) == is_known(
            array_at(d, known),
            string_at(d, id),
        ),
{
    let name = string_at(d, id);
    lemma_is_string(d, e, i, id);
    lemma_list(d, e, i, known);
    law_string_end(d, id + 1);
    assert(array_start(d, known) == known + 1);
    assert(array_start(e, moved(i, known)) == moved(i, known) + 1);
    if name.len() > 0 {
        let n = string_end(d, id + 1) - (id + 1);
        assert(name == d.subrange(id + 1, id + 1 + n));
        lemma_names(d, e, i, known, id + 1, n);
    }
}

/// One blank more changes no feature, and leaves the body in the schema.
proof fn lemma_one_blank(d: Seq<u8>, e: Seq<u8>, i: int)
    requires
        spaced(d, e, i),
        between(d, i),
        in_schema(d),
        is_distinct(string_at(d, layout(d).id)),
    ensures
        in_schema(e),
        string_at(e, layout(e).id) == string_at(d, layout(d).id),
        body_features(e) == body_features(d),
{
    let l = layout(d);
    let m = layout(e);
    lemma_first(d, e, i);
    lemma_later(d, e, i);
    lemma_number(d, e, i, l.amount);
    lemma_count(d, e, i, l.installments);
    lemma_is_string(d, e, i, l.requested_at);
    lemma_number(d, e, i, l.average);
    lemma_count(d, e, i, l.count);
    lemma_known(d, e, i, l.known, l.id);
    lemma_is_string(d, e, i, l.id);
    lemma_is_string(d, e, i, l.mcc);
    lemma_number(d, e, i, l.merchant_average);
    lemma_truth(d, e, i, l.online);
    lemma_truth(d, e, i, l.card);
    lemma_number(d, e, i, l.km);
    let r = request_at(d, l);
    let s = request_at(e, m);
    assert(is_dated(r) == is_dated(s));
    assert(array_start(d, l.known) == l.known + 1);
    assert(array_start(e, m.known) == m.known + 1);
    assert(request_of(d) is Some == request_of(e) is Some);
    assert(features_of(r) =~= features_of(s));
}

/// White space between tokens changes nothing: a body with all fields in the order of
/// the schema has the same features however many blanks are put between its tokens.
///
/// A merchant whose name is one comma among blanks is left out: such a name is found in
/// the list of known merchants where just that stands between two names.
pub proof fn law_white_space(d: Seq<u8>, e: Seq<u8>, blanks: nat)
    requires
        in_schema(d),
        is_distinct(string_at(d, layout(d).id)),
        respaced(d, e, blanks),
    ensures
        in_schema(e),
        body_features(e) == body_features(d),
    decreases blanks,
{
    if blanks > 0 {
        let (m, i) = choose|m: Seq<u8>, i: int| #[trigger]
            spaced(d, m, i) && between(d, i) && respaced(m, e, (blanks - 1) as nat);
        lemma_one_blank(d, m, i);
        law_white_space(m, e, (blanks - 1) as nat);
    }
}

} // verus!
