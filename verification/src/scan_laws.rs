//! What the scanner reads of any body, said of its bytes themselves.

use crate::calendar::is_timestamp;
use crate::scan::{
    after_array, after_key, after_string, array_at, array_end, array_start, colon_of, decimal,
    decimal_run, field_at, find_key, has_key, has_quoted, is_true, key_at, law_find_key, law_run,
    law_string_end, lemma_after_key, lemma_after_string, lemma_array_end, past, run_end, string_at,
    string_end, Class,
};
use crate::vectorize::{
    after_bool, is_dated, is_known, last_at, layout, number_at, request_at, request_of,
};
use crate::written::{is_blank, is_numeric, is_text, lemma_key_at, quoted};
use vstd::prelude::*;
use vstd::string::*;

verus! {

/// A decimal digit.
pub open spec fn is_digit(b: u8) -> bool {
    48 <= b <= 57
}

/// The longest run of bytes of a kind from `p` on ends at `e`.
pub open spec fn runs_to(d: Seq<u8>, p: int, e: int, kind: spec_fn(u8) -> bool) -> bool {
    &&& p <= e
    &&& e <= d.len() || e == p
    &&& forall|i: int| p <= i < e ==> kind(#[trigger] d[i])
    &&& e < d.len() ==> !kind(d[e])
}

/// The key stands at `q` in quotation marks, and a colon stands at `c`, with nothing but
/// white space between them.
pub open spec fn names_field(d: Seq<u8>, q: int, key: Seq<u8>, c: int) -> bool {
    &&& 0 <= q
    &&& q + key.len() + 2 <= c < d.len()
    &&& d.subrange(q, q + key.len() + 2) == quoted(key)
    &&& d[c] == 58
    &&& forall|i: int| q + key.len() + 2 <= i < c ==> is_blank(#[trigger] d[i])
}

/// Looking for a key from `p` on ends at `v`: behind the white space behind the colon of
/// the first field of that name; or, where there is none, where the body has no room for
/// the key.
pub open spec fn leads_to(d: Seq<u8>, p: int, key: Seq<u8>, v: int) -> bool {
    ||| exists|q: int, c: int|
        {
            &&& p <= q
            &&& #[trigger] names_field(d, q, key, c)
            &&& forall|x: int, y: int| p <= x < q ==> !#[trigger] names_field(d, x, key, y)
            &&& runs_to(d, c + 1, v, |b: u8| is_blank(b))
        }
    ||| {
        &&& forall|x: int, y: int| p <= x ==> !#[trigger] names_field(d, x, key, y)
        &&& p + key.len() + 2 > d.len() ==> v == p
        &&& p + key.len() + 2 <= d.len() ==> v == d.len() - key.len() - 1
    }
}

/// A run of a class is one of its bytes.
pub proof fn law_run_kinds(d: Seq<u8>, p: int)
    requires
        0 <= p,
    ensures
        runs_to(d, p, run_end(d, p, Class::Space), |b: u8| is_blank(b)),
        runs_to(d, p, run_end(d, p, Class::Digit), |b: u8| is_digit(b)),
        runs_to(d, p, run_end(d, p, Class::Number), |b: u8| is_numeric(b)),
{
    law_run(d, p, Class::Space);
    law_run(d, p, Class::Digit);
    law_run(d, p, Class::Number);
}

/// A field stands just where its key and a colon do.
pub proof fn law_field(d: Seq<u8>, q: int, key: Seq<u8>)
    requires
        0 <= q,
    ensures
        field_at(d, q, key) ==> names_field(d, q, key, colon_of(d, q, key)),
        forall|c: int| #[trigger] names_field(d, q, key, c) ==> field_at(d, q, key) && c
            == colon_of(d, q, key),
{
    if q + key.len() + 2 <= d.len() {
        lemma_key_at(d, q, key);
        let p = q + key.len() + 2;
        law_run(d, p, Class::Space);
        assert forall|c: int| #[trigger] names_field(d, q, key, c) implies field_at(d, q, key) && c
            == colon_of(d, q, key) by {
            let e = run_end(d, p, Class::Space);
            if e < c {
                assert(is_blank(d[e]));
            } else if c < e {
                assert(crate::scan::of_class(Class::Space, d[c]));
            }
        }
    }
}

/// Looking for a key ends as [`leads_to`] says, and finds it just where there is one.
pub proof fn law_after_key(d: Seq<u8>, p: int, key: Seq<u8>)
    requires
        0 <= p,
    ensures
        leads_to(d, p, key, after_key(d, p, key)),
        has_key(d, p, key) <==> exists|q: int, c: int| p <= q && #[trigger] names_field(d, q, key, c),
{
    law_find_key(d, p, key);
    let f = find_key(d, p, key);
    if has_key(d, p, key) {
        let c = colon_of(d, f, key);
        law_field(d, f, key);
        law_run(d, f + key.len() + 2, Class::Space);
        law_run_kinds(d, c + 1);
        assert(names_field(d, f, key, c));
        assert forall|x: int, y: int| p <= x < f implies !#[trigger] names_field(d, x, key, y) by {
            law_field(d, x, key);
        }
    } else {
        assert forall|x: int, y: int| p <= x implies !#[trigger] names_field(d, x, key, y) by {
            law_field(d, x, key);
            assert(!field_at(d, x, key));
        }
        lemma_gives_up(d, p, key);
    }
}

/// Where the search gives up.
proof fn lemma_gives_up(d: Seq<u8>, p: int, key: Seq<u8>)
    requires
        0 <= p,
        !has_key(d, p, key),
    ensures
        p + key.len() + 2 > d.len() ==> find_key(d, p, key) == p,
        p + key.len() + 2 <= d.len() ==> find_key(d, p, key) == d.len() - key.len() - 1,
        !field_at(d, find_key(d, p, key), key),
    decreases d.len() - p,
{
    law_find_key(d, p, key);
    if p + key.len() + 2 <= d.len() {
        assert(!field_at(d, p, key));
        assert(!has_key(d, p + 1, key)) by {
            if has_key(d, p + 1, key) {
                let q = choose|q: int| p + 1 <= q && #[trigger] field_at(d, q, key);
                assert(p <= q && field_at(d, q, key));
            }
        }
        lemma_gives_up(d, p + 1, key);
    }
}

/// A name stands in quotation marks just where its bytes do, between two of them.
pub proof fn law_quoted(d: Seq<u8>, name: Seq<u8>)
    ensures
        has_quoted(d, name) <==> exists|q: int|
            0 <= q && q + name.len() + 2 <= d.len() && #[trigger] d.subrange(
                q,
                q + name.len() + 2,
            ) == quoted(name),
{
    if has_quoted(d, name) {
        let q = choose|q: int| #[trigger] key_at(d, q, name);
        lemma_key_at(d, q, name);
        assert(d.subrange(q, q + name.len() + 2) == quoted(name));
    }
    if exists|q: int|
        0 <= q && q + name.len() + 2 <= d.len() && #[trigger] d.subrange(q, q + name.len() + 2)
            == quoted(name) {
        let q = choose|q: int|
            0 <= q && q + name.len() + 2 <= d.len() && #[trigger] d.subrange(
                q,
                q + name.len() + 2,
            ) == quoted(name);
        lemma_key_at(d, q, name);
    }
}

/// A merchant is known where its name is not empty and stands in the list in quotation
/// marks.
pub proof fn law_known_anywhere(list: Seq<u8>, id: Seq<u8>)
    ensures
        is_known(list, id) <==> id.len() > 0 && exists|q: int|
            0 <= q && q + id.len() + 2 <= list.len() && #[trigger] list.subrange(
                q,
                q + id.len() + 2,
            ) == quoted(id),
{
    law_quoted(list, id);
}

/// The number that decimal digits write.
pub open spec fn value(digits: Seq<u8>) -> int {
    digits.fold_left(0int, |n: int, b: u8| 10 * n + (b - 48))
}

/// Digits from `a` to `b` write the number that [`value`] gives.
pub proof fn law_decimal(d: Seq<u8>, a: int, b: int)
    requires
        0 <= a <= b <= d.len(),
    ensures
        decimal(d, a, b) == value(d.subrange(a, b)),
    decreases b - a,
{
    reveal(Seq::fold_left);
    let part = d.subrange(a, b);
    if a < b {
        law_decimal(d, a, b - 1);
        assert(part.drop_last() =~= d.subrange(a, b - 1));
        assert(part.last() == d[b - 1]);
    }
}

/// The string at `p` holds the bytes from `a` to `x` and ends before `e`: it starts
/// behind a quotation mark, if there is one, and goes up to the first that is not
/// escaped, or to the end of the body.
pub open spec fn holds_string(d: Seq<u8>, p: int, a: int, x: int, e: int) -> bool {
    &&& p < d.len() && d[p] == 34 ==> a == p + 1
    &&& p >= d.len() || d[p] != 34 ==> a == p
    &&& a <= x <= d.len()
    &&& x < d.len() ==> d[x] == 34 && is_text(d.subrange(a, x)) && e == x + 1
    &&& x == d.len() ==> e == x
    &&& forall|y: int|
        a <= y < x && #[trigger] d[y] == 34 ==> !is_text(d.subrange(a, y))
}

/// A string is read as [`holds_string`] says.
pub proof fn law_string(d: Seq<u8>, p: int)
    requires
        0 <= p <= d.len(),
    ensures
        ({
            let a = past(d, p, 34);
            let x = string_end(d, a);
            &&& holds_string(d, p, a, x, after_string(d, p))
            &&& string_at(d, p) == d.subrange(a, x)
        }),
{
    let a = past(d, p, 34);
    law_string_end(d, a);
    let x = string_end(d, a);
    if x < d.len() {
        lemma_closed(d, a);
    }
    assert forall|y: int| a <= y < x && #[trigger] d[y] == 34 implies !is_text(
        d.subrange(a, y),
    ) by {
        lemma_not_closed(d, a, y);
    }
}

/// What a closed string holds is the contents of a string.
proof fn lemma_closed(d: Seq<u8>, a: int)
    requires
        0 <= a <= d.len(),
        string_end(d, a) < d.len(),
    ensures
        is_text(d.subrange(a, string_end(d, a))),
    decreases d.len() - a,
{
    let x = string_end(d, a);
    let part = d.subrange(a, x);
    if a < d.len() && d[a] != 34 {
        if d[a] == 92 && a + 1 < d.len() {
            law_string_end(d, a + 2);
            lemma_closed(d, a + 2);
            assert(part.skip(2) =~= d.subrange(a + 2, x));
        } else {
            law_string_end(d, a + 1);
            lemma_closed(d, a + 1);
            assert(part.skip(1) =~= d.subrange(a + 1, x));
        }
    }
}

/// A string does not end later than at the first quotation mark behind contents of a
/// string.
proof fn lemma_not_closed(d: Seq<u8>, a: int, y: int)
    requires
        0 <= a <= y < string_end(d, a),
        y < d.len(),
        d[y] == 34,
    ensures
        !is_text(d.subrange(a, y)),
    decreases y - a,
{
    let part = d.subrange(a, y);
    if a < y {
        assert(part[0] == d[a]);
        if d[a] == 92 {
            if a + 2 <= y {
                assert(part.skip(2) =~= d.subrange(a + 2, y));
                lemma_not_closed(d, a + 2, y);
            }
        } else if d[a] != 34 {
            assert(part.skip(1) =~= d.subrange(a + 1, y));
            lemma_not_closed(d, a + 1, y);
        }
    }
}

/// How an array is left: brackets outside strings open and close it, strings are passed
/// over whole, and nothing else counts.
pub proof fn law_array_end(d: Seq<u8>, p: int, open: int)
    requires
        0 <= p,
    ensures
        p >= d.len() || open <= 0 ==> array_end(d, p, open) == p,
        p < d.len() && open > 0 && d[p] == 34 ==> array_end(d, p, open) == array_end(
            d,
            after_string(d, p),
            open,
        ),
        p < d.len() && open > 0 && d[p] == 91 ==> array_end(d, p, open) == array_end(
            d,
            p + 1,
            open + 1,
        ),
        p < d.len() && open > 0 && d[p] == 93 ==> array_end(d, p, open) == array_end(
            d,
            p + 1,
            open - 1,
        ),
        p < d.len() && open > 0 && d[p] != 34 && d[p] != 91 && d[p] != 93 ==> array_end(d, p, open)
            == array_end(d, p + 1, open),
        p < d.len() && d[p] == 91 ==> array_start(d, p) == p + 1,
        p >= d.len() || d[p] != 91 ==> array_start(d, p) == p,
        after_array(d, p) == array_end(d, array_start(d, p), 1),
        array_at(d, p) == d.subrange(array_start(d, p), after_array(d, p) - 1),
{
}

/// A truth value is true where the four bytes of `true` stand, and takes five otherwise.
pub proof fn law_bool(d: Seq<u8>, p: int)
    requires
        0 <= p,
    ensures
        is_true(d, p) <==> p + 4 <= d.len() && d[p] == 116 && d[p + 1] == 114 && d[p + 2] == 117
            && d[p + 3] == 101,
        is_true(d, p) ==> after_bool(d, p) == p + 4,
        !is_true(d, p) ==> after_bool(d, p) == p + 5,
{
    reveal_strlit("true");
    is_ascii_spec_bytes("true");
    let t = "true".spec_bytes();
    assert(t =~= seq![116u8, 114, 117, 101]);
    if p + 4 <= d.len() {
        let part = d.subrange(p, p + 4);
        assert(part[0] == d[p] && part[1] == d[p + 1] && part[2] == d[p + 2] && part[3] == d[p + 3]);
        if d[p] == 116 && d[p + 1] == 114 && d[p + 2] == 117 && d[p + 3] == 101 {
            assert(part =~= t);
        }
    }
}

/// The number at `p` is `text`, and ends before `e`.
pub open spec fn holds_number(d: Seq<u8>, p: int, text: Seq<u8>, e: int) -> bool {
    runs_to(d, p, e, |b: u8| is_numeric(b)) && text == d.subrange(p, e)
}

/// The digits at `p` write `n`, and end before `e`.
pub open spec fn holds_count(d: Seq<u8>, p: int, n: int, e: int) -> bool {
    runs_to(d, p, e, |b: u8| is_digit(b)) && n == value(d.subrange(p, e))
}

/// The string at `p` is `text`, and ends before `e`.
pub open spec fn holds_text(d: Seq<u8>, p: int, text: Seq<u8>, e: int) -> bool {
    exists|a: int, x: int| #[trigger] holds_string(d, p, a, x, e) && text == d.subrange(a, x)
}

/// Numbers and counts are read as they stand.
proof fn lemma_holds_number(d: Seq<u8>, p: int)
    requires
        0 <= p <= d.len(),
    ensures
        holds_number(d, p, number_at(d, p), run_end(d, p, Class::Number)),
        holds_count(d, p, decimal_run(d, p), run_end(d, p, Class::Digit)),
        run_end(d, p, Class::Number) <= d.len(),
        run_end(d, p, Class::Digit) <= d.len(),
{
    law_run_kinds(d, p);
    law_run(d, p, Class::Number);
    law_run(d, p, Class::Digit);
    law_decimal(d, p, run_end(d, p, Class::Digit));
}

/// Strings are read as they stand.
proof fn lemma_holds_text(d: Seq<u8>, p: int)
    requires
        0 <= p <= d.len(),
    ensures
        holds_text(d, p, string_at(d, p), after_string(d, p)),
        after_string(d, p) <= d.len(),
{
    law_string(d, p);
    lemma_after_string(d, p);
    let a = past(d, p, 34);
    assert(holds_string(d, p, a, string_end(d, a), after_string(d, p)));
}

/// The first fields of a body are looked for one after the other, each behind the value
/// of the one before it, and hold what the request says.
pub proof fn law_transaction(d: Seq<u8>)
    ensures
        ({
            let l = layout(d);
            let r = request_at(d, l);
            &&& leads_to(d, 0, "amount".spec_bytes(), l.amount)
            &&& exists|e: int|
                #![trigger holds_number(d, l.amount, r.amount, e)]
                holds_number(d, l.amount, r.amount, e) && leads_to(
                    d,
                    e,
                    "installments".spec_bytes(),
                    l.installments,
                )
            &&& exists|n: int, e: int|
                #![trigger holds_count(d, l.installments, n, e)]
                holds_count(d, l.installments, n, e) && (request_of(d) is Some ==> n
                    == r.installments) && leads_to(
                    d,
                    e,
                    "requested_at".spec_bytes(),
                    l.requested_at,
                )
            &&& exists|e: int|
                #![trigger holds_text(d, l.requested_at, r.requested_at, e)]
                holds_text(d, l.requested_at, r.requested_at, e) && leads_to(
                    d,
                    e,
                    "avg_amount".spec_bytes(),
                    l.average,
                )
        }),
{
    let l = layout(d);
    let r = request_at(d, l);
    lemma_bounds(d);
    law_after_key(d, 0, "amount".spec_bytes());
    lemma_holds_number(d, l.amount);
    law_after_key(d, run_end(d, l.amount, Class::Number), "installments".spec_bytes());
    assert(holds_number(d, l.amount, r.amount, run_end(d, l.amount, Class::Number)));
    lemma_holds_number(d, l.installments);
    law_after_key(d, run_end(d, l.installments, Class::Digit), "requested_at".spec_bytes());
    assert(holds_count(
        d,
        l.installments,
        decimal_run(d, l.installments),
        run_end(d, l.installments, Class::Digit),
    ));
    lemma_value_nonnegative(d, l.installments);
    lemma_holds_text(d, l.requested_at);
    law_after_key(d, after_string(d, l.requested_at), "avg_amount".spec_bytes());
    assert(holds_text(d, l.requested_at, r.requested_at, after_string(d, l.requested_at)));
}

/// A run of digits writes no negative number.
proof fn lemma_value_nonnegative(d: Seq<u8>, p: int)
    requires
        0 <= p <= d.len(),
    ensures
        0 <= decimal_run(d, p),
{
    law_run(d, p, Class::Digit);
    lemma_decimal_nonnegative(d, p, run_end(d, p, Class::Digit));
}

/// Digits write no negative number.
proof fn lemma_decimal_nonnegative(d: Seq<u8>, a: int, b: int)
    requires
        0 <= a <= b <= d.len(),
        forall|i: int| a <= i < b ==> crate::scan::of_class(Class::Digit, #[trigger] d[i]),
    ensures
        0 <= decimal(d, a, b),
    decreases b - a,
{
    if a < b {
        lemma_decimal_nonnegative(d, a, b - 1);
        assert(crate::scan::of_class(Class::Digit, d[b - 1]));
    }
}

/// The first six values stand within the body.
proof fn lemma_bounds(d: Seq<u8>)
    ensures
        ({
            let l = layout(d);
            &&& 0 <= l.amount <= d.len()
            &&& 0 <= l.installments <= d.len()
            &&& 0 <= l.requested_at <= d.len()
            &&& 0 <= l.average <= d.len()
            &&& 0 <= l.count <= d.len()
            &&& 0 <= l.known <= d.len()
        }),
{
    let l = layout(d);
    lemma_after_key(d, 0, "amount".spec_bytes());
    law_run(d, l.amount, Class::Number);
    lemma_after_key(d, run_end(d, l.amount, Class::Number), "installments".spec_bytes());
    law_run(d, l.installments, Class::Digit);
    lemma_after_key(d, run_end(d, l.installments, Class::Digit), "requested_at".spec_bytes());
    lemma_after_string(d, l.requested_at);
    lemma_after_key(d, after_string(d, l.requested_at), "avg_amount".spec_bytes());
    law_run(d, l.average, Class::Number);
    lemma_after_key(d, run_end(d, l.average, Class::Number), "tx_count_24h".spec_bytes());
    law_run(d, l.count, Class::Digit);
    lemma_after_key(d, run_end(d, l.count, Class::Digit), "known_merchants".spec_bytes());
}

/// The values up to the category code stand within the body, where there are names.
proof fn lemma_more_bounds(d: Seq<u8>)
    ensures
        ({
            let l = layout(d);
            &&& 0 <= l.id <= d.len()
            &&& 0 <= l.mcc <= d.len()
            &&& 0 <= l.merchant_average <= d.len()
            &&& 0 <= l.online <= d.len()
            &&& 0 <= after_array(d, l.known) <= d.len()
        }),
{
    let l = layout(d);
    lemma_bounds(d);
    lemma_array_end(d, array_start(d, l.known), 1);
    lemma_after_key(d, after_array(d, l.known), "id".spec_bytes());
    lemma_after_string(d, l.id);
    lemma_after_key(d, after_string(d, l.id), "mcc".spec_bytes());
    lemma_after_string(d, l.mcc);
    lemma_after_key(d, after_string(d, l.mcc), "avg_amount".spec_bytes());
    law_run(d, l.merchant_average, Class::Number);
    lemma_after_key(d, run_end(d, l.merchant_average, Class::Number), "is_online".spec_bytes());
}

/// The fields of the customer are looked for behind the transaction, and hold what the
/// request says.
pub proof fn law_customer(d: Seq<u8>)
    ensures
        ({
            let l = layout(d);
            let r = request_at(d, l);
            &&& exists|e: int|
                #![trigger holds_number(d, l.average, r.customer_avg_amount, e)]
                holds_number(d, l.average, r.customer_avg_amount, e) && leads_to(
                    d,
                    e,
                    "tx_count_24h".spec_bytes(),
                    l.count,
                )
            &&& exists|n: int, e: int|
                #![trigger holds_count(d, l.count, n, e)]
                holds_count(d, l.count, n, e) && (request_of(d) is Some ==> n == r.tx_count_24h)
                    && leads_to(d, e, "known_merchants".spec_bytes(), l.known)
            &&& r.known_merchants == array_at(d, l.known)
            &&& leads_to(d, after_array(d, l.known), "id".spec_bytes(), l.id)
        }),
{
    let l = layout(d);
    let r = request_at(d, l);
    lemma_bounds(d);
    lemma_more_bounds(d);
    lemma_holds_number(d, l.average);
    law_after_key(d, run_end(d, l.average, Class::Number), "tx_count_24h".spec_bytes());
    assert(holds_number(
        d,
        l.average,
        r.customer_avg_amount,
        run_end(d, l.average, Class::Number),
    ));
    lemma_holds_number(d, l.count);
    law_after_key(d, run_end(d, l.count, Class::Digit), "known_merchants".spec_bytes());
    assert(holds_count(d, l.count, decimal_run(d, l.count), run_end(d, l.count, Class::Digit)));
    lemma_value_nonnegative(d, l.count);
    law_after_key(d, after_array(d, l.known), "id".spec_bytes());
}

/// The fields of the merchant are looked for behind the customer, and hold what the
/// request says.
pub proof fn law_merchant(d: Seq<u8>)
    ensures
        ({
            let l = layout(d);
            let r = request_at(d, l);
            &&& exists|e: int|
                #![trigger holds_text(d, l.id, r.merchant_id, e)]
                holds_text(d, l.id, r.merchant_id, e) && leads_to(
                    d,
                    e,
                    "mcc".spec_bytes(),
                    l.mcc,
                )
            &&& exists|e: int|
                #![trigger holds_text(d, l.mcc, r.mcc, e)]
                holds_text(d, l.mcc, r.mcc, e) && leads_to(
                    d,
                    e,
                    "avg_amount".spec_bytes(),
                    l.merchant_average,
                )
            &&& exists|e: int|
                #![trigger holds_number(d, l.merchant_average, r.merchant_avg_amount, e)]
                holds_number(d, l.merchant_average, r.merchant_avg_amount, e) && leads_to(
                    d,
                    e,
                    "is_online".spec_bytes(),
                    l.online,
                )
        }),
{
    let l = layout(d);
    let r = request_at(d, l);
    lemma_more_bounds(d);
    lemma_holds_text(d, l.id);
    law_after_key(d, after_string(d, l.id), "mcc".spec_bytes());
    assert(holds_text(d, l.id, r.merchant_id, after_string(d, l.id)));
    lemma_holds_text(d, l.mcc);
    law_after_key(d, after_string(d, l.mcc), "avg_amount".spec_bytes());
    assert(holds_text(d, l.mcc, r.mcc, after_string(d, l.mcc)));
    lemma_holds_number(d, l.merchant_average);
    law_after_key(d, run_end(d, l.merchant_average, Class::Number), "is_online".spec_bytes());
    assert(holds_number(
        d,
        l.merchant_average,
        r.merchant_avg_amount,
        run_end(d, l.merchant_average, Class::Number),
    ));
}

/// The fields of the terminal are looked for behind the merchant, and hold what the
/// request says; the last transaction is looked for behind them.
pub proof fn law_terminal(d: Seq<u8>)
    requires
        after_bool(d, layout(d).online) <= d.len(),
        after_bool(d, layout(d).card) <= d.len(),
    ensures
        ({
            let l = layout(d);
            let r = request_at(d, l);
            &&& r.is_online == is_true(d, l.online)
            &&& leads_to(d, after_bool(d, l.online), "card_present".spec_bytes(), l.card)
            &&& r.card_present == is_true(d, l.card)
            &&& leads_to(d, after_bool(d, l.card), "km_from_home".spec_bytes(), l.km)
            &&& exists|e: int|
                #![trigger holds_number(d, l.km, r.km_from_home, e)]
                holds_number(d, l.km, r.km_from_home, e) && r.last_transaction == last_at(d, e)
        }),
{
    let l = layout(d);
    let r = request_at(d, l);
    lemma_more_bounds(d);
    law_after_key(d, after_bool(d, l.online), "card_present".spec_bytes());
    lemma_after_key(d, after_bool(d, l.online), "card_present".spec_bytes());
    law_after_key(d, after_bool(d, l.card), "km_from_home".spec_bytes());
    lemma_after_key(d, after_bool(d, l.card), "km_from_home".spec_bytes());
    lemma_holds_number(d, l.km);
    assert(holds_number(d, l.km, r.km_from_home, run_end(d, l.km, Class::Number)));
}

/// A last transaction is there where its field is and its value starts with anything but
/// the letter n; its time and its distance are then looked for one after the other.
pub proof fn law_last(d: Seq<u8>, p: int, l: int)
    requires
        0 <= p <= d.len(),
        leads_to(d, p, "last_transaction".spec_bytes(), l),
    ensures
        last_at(d, p) is Some <==> (exists|q: int, c: int|
            p <= q && #[trigger] names_field(d, q, "last_transaction".spec_bytes(), c)) && l
            < d.len() && d[l] != 110,
        last_at(d, p) is Some ==> exists|t: int, e: int, k: int, f: int|
            {
                &&& leads_to(d, l, "timestamp".spec_bytes(), t)
                &&& #[trigger] holds_text(d, t, last_at(d, p).unwrap().timestamp, e)
                &&& leads_to(d, e, "km_from_current".spec_bytes(), k)
                &&& #[trigger] holds_number(d, k, last_at(d, p).unwrap().km_from_current, f)
            },
{
    let key = "last_transaction".spec_bytes();
    let v = after_key(d, p, key);
    law_after_key(d, p, key);
    lemma_after_key(d, p, key);
    lemma_leads_once(d, p, key, l, v);
    if last_at(d, p) is Some {
        let t = after_key(d, l, "timestamp".spec_bytes());
        law_after_key(d, l, "timestamp".spec_bytes());
        lemma_after_key(d, l, "timestamp".spec_bytes());
        lemma_holds_text(d, t);
        let e = after_string(d, t);
        let k = after_key(d, e, "km_from_current".spec_bytes());
        law_after_key(d, e, "km_from_current".spec_bytes());
        lemma_after_string(d, t);
        lemma_after_key(d, e, "km_from_current".spec_bytes());
        lemma_holds_number(d, k);
        assert(holds_text(d, t, last_at(d, p).unwrap().timestamp, e));
        assert(holds_number(
            d,
            k,
            last_at(d, p).unwrap().km_from_current,
            run_end(d, k, Class::Number),
        ));
    }
}

/// The search for a key ends at one place.
proof fn lemma_leads_once(d: Seq<u8>, p: int, key: Seq<u8>, v: int, w: int)
    requires
        0 <= p <= d.len(),
        leads_to(d, p, key, v),
        leads_to(d, p, key, w),
    ensures
        v == w,
{
    if exists|x: int, y: int| p <= x && #[trigger] names_field(d, x, key, y) {
        let (q, c) = choose|q: int, c: int|
            {
                &&& p <= q
                &&& #[trigger] names_field(d, q, key, c)
                &&& forall|x: int, y: int| p <= x < q ==> !#[trigger] names_field(d, x, key, y)
                &&& runs_to(d, c + 1, v, |b: u8| is_blank(b))
            };
        let (r, e) = choose|q: int, c: int|
            {
                &&& p <= q
                &&& #[trigger] names_field(d, q, key, c)
                &&& forall|x: int, y: int| p <= x < q ==> !#[trigger] names_field(d, x, key, y)
                &&& runs_to(d, c + 1, w, |b: u8| is_blank(b))
            };
        assert(q == r);
        law_field(d, q, key);
        assert(c == e);
        if v < w {
            assert(is_blank(d[v]));
        } else if w < v {
            assert(is_blank(d[w]));
        }
    }
}

/// A body is read just when both counts fit in 32 bits, the list of merchants has a first
/// byte, both truth values lie within the body, and the times are timestamps; and then it
/// says what its fields hold.
pub proof fn law_request(d: Seq<u8>)
    ensures
        ({
            let l = layout(d);
            let r = request_at(d, l);
            &&& request_of(d) is Some <==> {
                &&& decimal_run(d, l.installments) <= 0xffff_ffff
                &&& decimal_run(d, l.count) <= 0xffff_ffff
                &&& array_start(d, l.known) < d.len()
                &&& after_bool(d, l.online) <= d.len()
                &&& after_bool(d, l.card) <= d.len()
                &&& is_timestamp(r.requested_at)
                &&& r.last_transaction is Some ==> is_timestamp(
                    r.last_transaction.unwrap().timestamp,
                )
            }
            &&& request_of(d) is Some ==> request_of(d) == Some(r) && is_dated(r)
            &&& is_dated(r) <==> is_timestamp(r.requested_at) && (r.last_transaction is Some
                ==> is_timestamp(r.last_transaction.unwrap().timestamp))
        }),
{
}

} // verus!
