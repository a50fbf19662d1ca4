//! White space between tokens, and how the scanner's positions move with it.
//!
//! A body with one blank more has the same bytes, those from the blank on one position
//! later. What the scanner finds moves along, as long as the blank splits no token.

use crate::scan::{
    after_key, after_string, array_end, colon_of, field_at, find_key, has_key, has_quoted, key_at,
    law_find_key, law_run, law_string_end, lemma_after_string, lemma_array_end, of_class, run_end,
    string_end, Class,
};
use vstd::prelude::*;

verus! {

/// Blanks and the punctuation of JSON: no word or number contains them.
pub open spec fn separates(b: u8) -> bool {
    of_class(Class::Space, b) || b == 44 || b == 58 || b == 91 || b == 93 || b == 123 || b == 125
}

/// Reading from `p` on, with strings read as a whole, arrives at `i`.
pub open spec fn outside(d: Seq<u8>, p: int, i: int) -> bool
    decreases d.len() - p,
    via outside_decreases
{
    if p < 0 || p >= i || p >= d.len() {
        p == i
    } else if d[p] == 34 {
        outside(d, after_string(d, p), i)
    } else {
        outside(d, p + 1, i)
    }
}

#[via_fn]
proof fn outside_decreases(d: Seq<u8>, p: int, i: int) {
    if 0 <= p < d.len() && d[p] == 34 {
        lemma_after_string(d, p);
    }
}

/// Position `i` is between two tokens: not within a string, and next to a blank, to
/// punctuation, or to an end of the body. (Of two tokens of JSON that follow one
/// another, one is punctuation.)
pub open spec fn between(d: Seq<u8>, i: int) -> bool {
    &&& 0 <= i <= d.len()
    &&& outside(d, 0, i)
    &&& i == 0 || i == d.len() || separates(d[i - 1]) || separates(d[i])
}

/// `e` is `d` with one blank more, at position `i`.
pub open spec fn spaced(d: Seq<u8>, e: Seq<u8>, i: int) -> bool {
    &&& 0 <= i <= d.len()
    &&& e.len() == d.len() + 1
    &&& of_class(Class::Space, e[i])
    &&& forall|j: int| #![trigger e[j]] 0 <= j < i ==> e[j] == d[j]
    &&& forall|j: int| #![trigger e[j]] i < j < e.len() ==> e[j] == d[j - 1]
}

/// Where position `p` is once a blank stands at `i`.
pub open spec fn moved(i: int, p: int) -> int {
    if p < i {
        p
    } else {
        p + 1
    }
}

/// Position `p` has become `r`: just where the blank stands, it may be before or after
/// the blank.
pub open spec fn shifted(i: int, p: int, r: int) -> bool {
    (r == p && p <= i) || (r == p + 1 && p >= i)
}

/// No byte of the key separates tokens.
pub open spec fn plain(key: Seq<u8>) -> bool {
    forall|j: int| 0 <= j < key.len() ==> !separates(#[trigger] key[j])
}

/// A run past the blank moves along.
proof fn lemma_run_later(d: Seq<u8>, e: Seq<u8>, i: int, p: int, class: Class)
    requires
        spaced(d, e, i),
        i <= p,
    ensures
        run_end(e, p + 1, class) == run_end(d, p, class) + 1,
    decreases d.len() - p,
{
    if p < d.len() {
        assert(e[p + 1] == d[p]);
        if of_class(class, d[p]) {
            lemma_run_later(d, e, i, p + 1, class);
        }
    }
}

/// White space grows by the blank, and ends where it ended.
proof fn lemma_blanks(d: Seq<u8>, e: Seq<u8>, i: int, p: int, r: int)
    requires
        spaced(d, e, i),
        0 <= p,
        shifted(i, p, r),
    ensures
        run_end(e, r, Class::Space) == moved(i, run_end(d, p, Class::Space)),
    decreases d.len() - p,
{
    law_run(d, p, Class::Space);
    if r == p + 1 {
        lemma_run_later(d, e, i, p, Class::Space);
    } else if p == i {
        lemma_run_later(d, e, i, p, Class::Space);
        assert(run_end(e, i, Class::Space) == run_end(e, i + 1, Class::Space));
    } else {
        assert(e[p] == d[p]);
        if of_class(Class::Space, d[p]) {
            lemma_blanks(d, e, i, p + 1, r + 1);
        }
    }
}

/// A number is not split: it moves as a whole.
pub proof fn lemma_word(d: Seq<u8>, e: Seq<u8>, i: int, p: int, class: Class)
    requires
        spaced(d, e, i),
        between(d, i),
        0 <= p <= d.len(),
        class != Class::Space,
    ensures
        run_end(e, moved(i, p), class) == run_end(d, p, class) + (moved(i, p) - p),
        shifted(i, run_end(d, p, class), run_end(e, moved(i, p), class)),
        d.subrange(p, run_end(d, p, class)) == e.subrange(
            moved(i, p),
            run_end(e, moved(i, p), class),
        ),
{
    law_run(d, p, class);
    let a = run_end(d, p, class);
    let q = moved(i, p);
    if p >= i {
        lemma_run_later(d, e, i, p, class);
    } else {
        if a > i {
            assert(of_class(class, d[i - 1]) && of_class(class, d[i]));
        }
        lemma_run_before(d, e, i, p, class);
    }
    let x = d.subrange(p, a);
    let y = e.subrange(q, run_end(e, q, class));
    assert forall|j: int| 0 <= j < x.len() implies x[j] == y[j] by {
        assert(e[q + j] == d[p + j]);
    }
    assert(x =~= y);
}

/// A run that ends before the blank, or just there, stays.
proof fn lemma_run_before(d: Seq<u8>, e: Seq<u8>, i: int, p: int, class: Class)
    requires
        spaced(d, e, i),
        0 <= p <= i,
        run_end(d, p, class) <= i,
        class != Class::Space,
    ensures
        run_end(e, p, class) == run_end(d, p, class),
    decreases d.len() - p,
{
    law_run(d, p, class);
    if p < i {
        assert(e[p] == d[p]);
        if of_class(class, d[p]) {
            lemma_run_before(d, e, i, p + 1, class);
        }
    }
}

/// A quoted key is not split: it moves as a whole.
proof fn lemma_key_kept(d: Seq<u8>, e: Seq<u8>, i: int, q: int, key: Seq<u8>)
    requires
        spaced(d, e, i),
        between(d, i),
        plain(key),
        key_at(d, q, key),
    ensures
        i <= q || q + key.len() + 2 <= i,
        key_at(e, moved(i, q), key),
{
    let n = key.len() as int;
    let w = d.subrange(q + 1, q + 1 + n);
    if q < i < q + n + 2 {
        if q + 1 < i {
            assert(d[i - 1] == w[i - 1 - (q + 1)]);
            assert(!separates(key[i - 1 - (q + 1)]));
        }
        if i < q + n + 1 {
            assert(d[i] == w[i - (q + 1)]);
            assert(!separates(key[i - (q + 1)]));
        }
    }
    lemma_name_moved(d, e, i, q, key);
}

/// The blank makes no key: one that stands in `e` stands in `d`.
proof fn lemma_key_was(d: Seq<u8>, e: Seq<u8>, i: int, r: int, key: Seq<u8>) -> (q: int)
    requires
        spaced(d, e, i),
        plain(key),
        key_at(e, r, key),
    ensures
        r == moved(i, q),
        key_at(d, q, key),
{
    let n = key.len() as int;
    let w = e.subrange(r + 1, r + 1 + n);
    if r <= i < r + n + 2 {
        if r < i < r + n + 1 {
            assert(e[i] == w[i - (r + 1)]);
            assert(!separates(key[i - (r + 1)]));
        }
    }
    let q = if r < i {
        r
    } else {
        r - 1
    };
    lemma_name_moved_back(d, e, i, q, key);
    q
}

/// A field stays a field, and its colon moves along.
proof fn lemma_field(d: Seq<u8>, e: Seq<u8>, i: int, q: int, key: Seq<u8>)
    requires
        spaced(d, e, i),
        between(d, i),
        plain(key),
        key_at(d, q, key),
    ensures
        colon_of(e, moved(i, q), key) == moved(i, colon_of(d, q, key)),
        field_at(e, moved(i, q), key) == field_at(d, q, key),
        q + key.len() + 2 <= colon_of(d, q, key),
{
    lemma_key_kept(d, e, i, q, key);
    let s = q + key.len() + 2;
    law_run(d, s, Class::Space);
    lemma_blanks(d, e, i, s, moved(i, q) + key.len() + 2);
    let c = colon_of(d, q, key);
    if c < d.len() {
        assert(e[moved(i, c)] == d[c]);
    }
}

/// A search that finds nothing still finds nothing.
pub proof fn lemma_no_key(d: Seq<u8>, e: Seq<u8>, i: int, p: int, r: int, key: Seq<u8>)
    requires
        spaced(d, e, i),
        between(d, i),
        plain(key),
        0 <= p,
        shifted(i, p, r),
        !has_key(d, p, key),
    ensures
        !has_key(e, r, key),
{
    if has_key(e, r, key) {
        let g = choose|g: int| r <= g && #[trigger] field_at(e, g, key);
        let q = lemma_key_was(d, e, i, g, key);
        lemma_field(d, e, i, q, key);
        assert(field_at(d, q, key));
        assert(p <= q);
    }
}

/// A search that finds a value still finds it, where it has moved to.
pub proof fn lemma_seek(d: Seq<u8>, e: Seq<u8>, i: int, p: int, r: int, key: Seq<u8>)
    requires
        spaced(d, e, i),
        between(d, i),
        plain(key),
        0 <= p,
        shifted(i, p, r),
        has_key(d, p, key),
    ensures
        has_key(e, r, key),
        after_key(e, r, key) == moved(i, after_key(d, p, key)),
        p < after_key(d, p, key),
        after_key(d, p, key) <= d.len(),
{
    law_find_key(d, p, key);
    law_find_key(e, r, key);
    let f = find_key(d, p, key);
    let g = find_key(e, r, key);
    lemma_field(d, e, i, f, key);
    assert(field_at(e, moved(i, f), key));
    assert(r <= moved(i, f));
    assert(g <= moved(i, f));
    let q = lemma_key_was(d, e, i, g, key);
    lemma_field(d, e, i, q, key);
    assert(field_at(d, q, key));
    assert(p <= q);
    assert(f <= q);
    let c = colon_of(d, f, key);
    law_run(d, f + key.len() + 2, Class::Space);
    law_run(d, c + 1, Class::Space);
    lemma_blanks(d, e, i, c + 1, moved(i, c) + 1);
}

/// Contents of a string past the blank move along.
proof fn lemma_string_later(d: Seq<u8>, e: Seq<u8>, i: int, p: int)
    requires
        spaced(d, e, i),
        i <= p <= d.len(),
    ensures
        string_end(e, p + 1) == string_end(d, p) + 1,
    decreases d.len() - p,
{
    if p < d.len() {
        assert(e[p + 1] == d[p]);
        if d[p] != 34 {
            if d[p] == 92 && p + 1 < d.len() {
                lemma_string_later(d, e, i, p + 2);
            } else {
                lemma_string_later(d, e, i, p + 1);
            }
        }
    }
}

/// Contents of a string that ends before the blank stay.
proof fn lemma_string_before(d: Seq<u8>, e: Seq<u8>, i: int, p: int)
    requires
        spaced(d, e, i),
        0 <= p,
        string_end(d, p) < i,
        p <= d.len(),
    ensures
        string_end(e, p) == string_end(d, p),
    decreases d.len() - p,
{
    law_string_end(d, p);
    if p < d.len() {
        assert(e[p] == d[p]);
        if d[p] != 34 {
            if d[p] == 92 && p + 1 < d.len() {
                law_string_end(d, p + 2);
                lemma_string_before(d, e, i, p + 2);
            } else {
                law_string_end(d, p + 1);
                lemma_string_before(d, e, i, p + 1);
            }
        }
    }
}

/// Reading arrives at no position before it starts.
proof fn lemma_outside_order(d: Seq<u8>, p: int, i: int)
    requires
        outside(d, p, i),
    ensures
        p <= i,
    decreases d.len() - p,
{
    if 0 <= p < i && p < d.len() {
        if d[p] == 34 {
            lemma_after_string(d, p);
            lemma_outside_order(d, after_string(d, p), i);
        } else {
            lemma_outside_order(d, p + 1, i);
        }
    }
}

/// What is arrived at after `v` is arrived at from `v`.
proof fn lemma_outside_from(d: Seq<u8>, p: int, v: int, i: int)
    requires
        0 <= p,
        outside(d, p, v),
        outside(d, p, i),
        v <= i,
    ensures
        outside(d, v, i),
    decreases d.len() - p,
{
    lemma_outside_order(d, p, v);
    if p < v && p < d.len() {
        if d[p] == 34 {
            lemma_after_string(d, p);
            lemma_outside_from(d, after_string(d, p), v, i);
        } else {
            lemma_outside_from(d, p + 1, v, i);
        }
    }
}

/// A string is not split: it moves as a whole.
pub proof fn lemma_string(d: Seq<u8>, e: Seq<u8>, i: int, v: int)
    requires
        spaced(d, e, i),
        between(d, i),
        0 <= v < d.len(),
        d[v] == 34,
        outside(d, 0, v),
        string_end(d, v + 1) < d.len(),
    ensures
        i <= v || after_string(d, v) <= i,
        e[moved(i, v)] == 34,
        string_end(e, moved(i, v) + 1) == string_end(d, v + 1) + (moved(i, v) - v),
        shifted(i, after_string(d, v), after_string(e, moved(i, v))),
        d.subrange(v + 1, string_end(d, v + 1)) == e.subrange(
            moved(i, v) + 1,
            string_end(e, moved(i, v) + 1),
        ),
{
    law_string_end(d, v + 1);
    let a = string_end(d, v + 1);
    let w = moved(i, v);
    assert(e[w] == d[v]);
    if i <= v {
        lemma_string_later(d, e, i, v + 1);
    } else {
        lemma_outside_from(d, 0, v, i);
        lemma_outside_order(d, after_string(d, v), i);
        lemma_string_before(d, e, i, v + 1);
    }
    let b = string_end(e, w + 1);
    assert(e[b] == d[a]);
    let x = d.subrange(v + 1, a);
    let y = e.subrange(w + 1, b);
    assert forall|j: int| 0 <= j < x.len() implies x[j] == y[j] by {
        assert(e[w + 1 + j] == d[v + 1 + j]);
    }
    assert(x =~= y);
}

/// Reading goes on from where it has arrived.
proof fn lemma_outside_chain(d: Seq<u8>, p: int, v: int, i: int)
    requires
        0 <= p,
        outside(d, p, v),
        outside(d, v, i),
    ensures
        outside(d, p, i),
    decreases d.len() - p,
{
    lemma_outside_order(d, p, v);
    lemma_outside_order(d, v, i);
    if p < v && p < d.len() {
        if d[p] == 34 {
            lemma_after_string(d, p);
            lemma_outside_chain(d, after_string(d, p), v, i);
        } else {
            lemma_outside_chain(d, p + 1, v, i);
        }
    }
}

/// A string past the blank moves along.
proof fn lemma_after_later(d: Seq<u8>, e: Seq<u8>, i: int, p: int)
    requires
        spaced(d, e, i),
        i <= p < d.len(),
        d[p] == 34,
    ensures
        e[p + 1] == 34,
        after_string(e, p + 1) == after_string(d, p) + 1,
{
    law_string_end(d, p + 1);
    assert(e[p + 1] == d[p]);
    lemma_string_later(d, e, i, p + 1);
    let a = string_end(d, p + 1);
    if a < d.len() {
        assert(e[a + 1] == d[a]);
    }
}

/// A string that ends before the blank stays.
proof fn lemma_after_before(d: Seq<u8>, e: Seq<u8>, i: int, p: int)
    requires
        spaced(d, e, i),
        0 <= p < d.len(),
        d[p] == 34,
        string_end(d, p + 1) < i,
    ensures
        e[p] == 34,
        after_string(e, p) == after_string(d, p) == string_end(d, p + 1) + 1,
{
    law_string_end(d, p + 1);
    assert(e[p] == d[p]);
    lemma_string_before(d, e, i, p + 1);
    let a = string_end(d, p + 1);
    assert(e[a] == d[a]);
}

/// Reading up to the blank arrives where it did.
proof fn lemma_outside_before(d: Seq<u8>, e: Seq<u8>, i: int, p: int, v: int)
    requires
        spaced(d, e, i),
        0 <= p,
        v <= i,
        v < d.len(),
        outside(d, p, v),
    ensures
        outside(e, p, v),
    decreases d.len() - p,
{
    lemma_outside_order(d, p, v);
    if p < v {
        assert(e[p] == d[p]);
        if d[p] == 34 {
            lemma_after_string(d, p);
            lemma_outside_order(d, after_string(d, p), v);
            law_string_end(d, p + 1);
            lemma_after_before(d, e, i, p);
            lemma_outside_before(d, e, i, after_string(d, p), v);
        } else {
            lemma_outside_before(d, e, i, p + 1, v);
        }
    }
}

/// Reading past the blank arrives one position later.
proof fn lemma_outside_later(d: Seq<u8>, e: Seq<u8>, i: int, p: int, v: int)
    requires
        spaced(d, e, i),
        i <= p,
        outside(d, p, v),
    ensures
        outside(e, p + 1, v + 1),
    decreases d.len() - p,
{
    if p < v && p < d.len() {
        assert(e[p + 1] == d[p]);
        if d[p] == 34 {
            lemma_after_string(d, p);
            lemma_after_later(d, e, i, p);
            lemma_outside_later(d, e, i, after_string(d, p), v);
        } else {
            lemma_outside_later(d, e, i, p + 1, v);
        }
    }
}

/// What was outside strings still is, where it has moved to.
pub proof fn lemma_outside(d: Seq<u8>, e: Seq<u8>, i: int, v: int)
    requires
        spaced(d, e, i),
        between(d, i),
        0 <= v < d.len(),
        outside(d, 0, v),
    ensures
        outside(e, 0, moved(i, v)),
{
    if v < i {
        lemma_outside_before(d, e, i, 0, v);
    } else {
        lemma_outside_before(d, e, i, 0, i);
        lemma_outside_from(d, 0, i, v);
        lemma_outside_later(d, e, i, i, v);
        assert(outside(e, i, v + 1));
        lemma_outside_chain(e, 0, i, v + 1);
    }
}

/// Blanks and commas: what stands between the strings of a list.
pub open spec fn lists(b: u8) -> bool {
    of_class(Class::Space, b) || b == 44
}

/// How many commas there are.
pub open spec fn commas(s: Seq<u8>) -> int
    decreases s.len(),
{
    if s.len() == 0 {
        0
    } else {
        commas(s.drop_first()) + if s[0] == 44 {
            1int
        } else {
            0
        }
    }
}

/// The name is not one comma among blanks, as what stands between two strings of a
/// list is.
pub open spec fn is_distinct(name: Seq<u8>) -> bool {
    commas(name) != 1 || exists|k: int| 0 <= k < name.len() && !lists(#[trigger] name[k])
}

/// What a list may go on with.
pub enum Expects {
    /// Its first string, or its end.
    First,
    /// A comma, or its end.
    Comma,
    /// Another string.
    Another,
}

/// The list of strings that goes on at `p` is well formed and closed.
pub open spec fn strings_only(d: Seq<u8>, p: int, state: Expects) -> bool
    decreases d.len() - p,
    via strings_only_decreases
{
    if p < 0 || p >= d.len() {
        false
    } else if d[p] == 34 {
        &&& state !is Comma
        &&& string_end(d, p + 1) < d.len()
        &&& strings_only(d, after_string(d, p), Expects::Comma)
    } else if d[p] == 93 {
        state !is Another
    } else if d[p] == 44 {
        state is Comma && strings_only(d, p + 1, Expects::Another)
    } else {
        of_class(Class::Space, d[p]) && strings_only(d, p + 1, state)
    }
}

#[via_fn]
proof fn strings_only_decreases(d: Seq<u8>, p: int, state: Expects) {
    if 0 <= p < d.len() && d[p] == 34 {
        lemma_after_string(d, p);
    }
}

/// A list past the blank moves along.
proof fn lemma_list_later(d: Seq<u8>, e: Seq<u8>, i: int, p: int, state: Expects)
    requires
        spaced(d, e, i),
        i <= p,
        strings_only(d, p, state),
    ensures
        strings_only(e, p + 1, state),
        array_end(e, p + 1, 1) == array_end(d, p, 1) + 1,
    decreases d.len() - p,
{
    assert(e[p + 1] == d[p]);
    if d[p] == 34 {
        lemma_after_string(d, p);
        lemma_after_later(d, e, i, p);
        lemma_string_later(d, e, i, p + 1);
        lemma_list_later(d, e, i, after_string(d, p), Expects::Comma);
    } else if d[p] == 44 {
        lemma_list_later(d, e, i, p + 1, Expects::Another);
    } else if d[p] != 93 {
        lemma_list_later(d, e, i, p + 1, state);
    } else {
        assert(array_end(d, p + 1, 0) == p + 1);
        assert(array_end(e, p + 2, 0) == p + 2);
    }
}

/// A list that starts before the blank stays, and is longer by the blank if the blank
/// stands in it.
proof fn lemma_list_before(d: Seq<u8>, e: Seq<u8>, i: int, p: int, state: Expects)
    requires
        spaced(d, e, i),
        0 <= p <= i,
        outside(d, p, i),
        strings_only(d, p, state),
    ensures
        strings_only(e, p, state),
        array_end(e, p, 1) == array_end(d, p, 1) + if array_end(d, p, 1) <= i {
            0int
        } else {
            1
        },
    decreases d.len() - p,
{
    lemma_array_end(d, p, 1);
    if p == i {
        lemma_list_later(d, e, i, p, state);
        assert(array_end(e, i, 1) == array_end(e, i + 1, 1));
    } else {
        assert(e[p] == d[p]);
        if d[p] == 34 {
            lemma_after_string(d, p);
            law_string_end(d, p + 1);
            lemma_outside_order(d, after_string(d, p), i);
            lemma_after_before(d, e, i, p);
            lemma_string_before(d, e, i, p + 1);
            lemma_list_before(d, e, i, after_string(d, p), Expects::Comma);
        } else if d[p] == 44 {
            lemma_list_before(d, e, i, p + 1, Expects::Another);
        } else if d[p] != 93 {
            lemma_list_before(d, e, i, p + 1, state);
        } else {
            assert(array_end(d, p + 1, 0) == p + 1);
            assert(array_end(e, p + 1, 0) == p + 1);
        }
    }
}

/// Equal bytes end a string alike.
proof fn lemma_same_end(d: Seq<u8>, x: int, e: Seq<u8>, y: int, n: int)
    requires
        0 <= x,
        0 <= y,
        0 <= n,
        x + n < d.len(),
        y + n < e.len(),
        forall|k: int| 0 <= k <= n ==> d[x + k] == #[trigger] e[y + k],
        string_end(d, x) == x + n,
    ensures
        string_end(e, y) == y + n,
    decreases n,
{
    law_string_end(d, x);
    assert(e[y + 0] == d[x + 0]);
    if d[x] != 34 {
        if d[x] == 92 && x + 1 < d.len() {
            law_string_end(d, x + 2);
            assert forall|k: int| 0 <= k <= n - 2 implies d[x + 2 + k] == #[trigger] e[y + 2
                + k] by {
                assert(d[x + (k + 2)] == e[y + (k + 2)]);
            }
            lemma_same_end(d, x + 2, e, y + 2, n - 2);
        } else {
            law_string_end(d, x + 1);
            assert forall|k: int| 0 <= k <= n - 1 implies d[x + 1 + k] == #[trigger] e[y + 1
                + k] by {
                assert(d[x + (k + 1)] == e[y + (k + 1)]);
            }
            lemma_same_end(d, x + 1, e, y + 1, n - 1);
        }
    }
}

/// A quotation mark within a string is escaped, so what follows it ends the same.
proof fn lemma_escaped(d: Seq<u8>, x: int, q: int)
    requires
        0 <= x <= q < string_end(d, x),
        x <= d.len(),
        d[q] == 34,
        string_end(d, x) < d.len(),
    ensures
        string_end(d, q + 1) == string_end(d, x),
    decreases d.len() - x,
{
    if d[x] == 92 && x + 1 < d.len() {
        if q > x + 1 {
            lemma_escaped(d, x + 2, q);
        }
    } else {
        lemma_escaped(d, x + 1, q);
    }
}

/// From outside a string to the next quotation mark a list holds blanks, and one comma
/// where it expects one.
proof fn lemma_gap(d: Seq<u8>, x: int, y: int, state: Expects)
    requires
        0 <= x,
        strings_only(d, x, state),
        string_end(d, x) == y,
        y < array_end(d, x, 1) - 1,
        y < d.len(),
    ensures
        x <= y,
        forall|k: int| x <= k < y ==> lists(#[trigger] d[k]),
        commas(d.subrange(x, y)) == if state is Comma {
            1int
        } else {
            0
        },
    decreases d.len() - x,
{
    law_string_end(d, x);
    if d[x] == 93 {
        assert(array_end(d, x + 1, 0) == x + 1);
    } else if d[x] != 34 {
        let s = d.subrange(x, y);
        if d[x] == 44 {
            lemma_gap(d, x + 1, y, Expects::Another);
        } else {
            lemma_gap(d, x + 1, y, state);
        }
        assert(s.drop_first() =~= d.subrange(x + 1, y));
    }
}

/// A name that is not one comma among blanks stands in quotation marks within one
/// string of a list, never across two.
proof fn lemma_name_whole(d: Seq<u8>, p: int, state: Expects, q: int, name: Seq<u8>, j: int)
    requires
        0 <= p <= q,
        strings_only(d, p, state),
        key_at(d, q, name),
        q + name.len() + 2 <= array_end(d, p, 1) - 1,
        string_end(d, q + 1) == q + 1 + name.len(),
        is_distinct(name),
        outside(d, p, j),
    ensures
        j <= q || q + name.len() + 2 <= j,
    decreases d.len() - p,
{
    let n = name.len() as int;
    let w = d.subrange(q + 1, q + 1 + n);
    if j <= q || q + n + 2 <= j {
    } else if p == q {
        assert(after_string(d, q) == q + n + 2);
        lemma_outside_order(d, q + n + 2, j);
    } else if d[p] == 93 {
        assert(array_end(d, p + 1, 0) == p + 1);
    } else if d[p] == 44 {
        lemma_name_whole(d, p + 1, Expects::Another, q, name, j);
    } else if d[p] != 34 {
        lemma_name_whole(d, p + 1, state, q, name, j);
    } else {
        lemma_after_string(d, p);
        law_string_end(d, p + 1);
        let t = after_string(d, p);
        let a = string_end(d, p + 1);
        if t <= q {
            lemma_name_whole(d, t, Expects::Comma, q, name, j);
        } else if q == a {
            lemma_gap(d, t, q + 1 + n, Expects::Comma);
            assert(commas(name) == 1);
            let k = choose|k: int| 0 <= k < name.len() && !lists(#[trigger] name[k]);
            assert(name[k] == w[k]);
            assert(lists(d[q + 1 + k]));
        } else {
            lemma_escaped(d, p + 1, q);
            lemma_outside_order(d, t, j);
        }
    }
}

/// Quoted names in a part of the body.
proof fn lemma_key_part(d: Seq<u8>, a: int, b: int, q: int, name: Seq<u8>)
    requires
        0 <= a <= b <= d.len(),
    ensures
        key_at(d.subrange(a, b), q, name) == (0 <= q && q + name.len() + 2 <= b - a && key_at(
            d,
            a + q,
            name,
        )),
{
    let s = d.subrange(a, b);
    let n = name.len() as int;
    if 0 <= q && q + n + 2 <= b - a {
        assert(s.subrange(q + 1, q + 1 + n) =~= d.subrange(a + q + 1, a + q + 1 + n));
    }
}

/// A list moves along, and stays a list.
pub proof fn lemma_list(d: Seq<u8>, e: Seq<u8>, i: int, v: int)
    requires
        spaced(d, e, i),
        between(d, i),
        0 <= v < d.len(),
        d[v] == 91,
        outside(d, 0, v),
        strings_only(d, v + 1, Expects::First),
    ensures
        e[moved(i, v)] == 91,
        strings_only(e, moved(i, v) + 1, Expects::First),
        v + 1 < array_end(d, v + 1, 1) <= d.len(),
        array_end(e, moved(i, v) + 1, 1) == array_end(d, v + 1, 1) + if array_end(d, v + 1, 1)
            <= i {
            0int
        } else {
            1
        },
        v < i ==> outside(d, v + 1, i),
{
    lemma_array_end(d, v + 1, 1);
    assert(e[moved(i, v)] == d[v]);
    if i <= v {
        lemma_list_later(d, e, i, v + 1, Expects::First);
    } else {
        lemma_outside_from(d, 0, v, i);
        lemma_list_before(d, e, i, v + 1, Expects::First);
    }
}

/// A list holds the same quoted names, but for one comma among blanks.
pub proof fn lemma_names(d: Seq<u8>, e: Seq<u8>, i: int, v: int, x: int, n: int)
    requires
        spaced(d, e, i),
        between(d, i),
        0 <= v < d.len(),
        d[v] == 91,
        outside(d, 0, v),
        strings_only(d, v + 1, Expects::First),
        0 <= x,
        0 <= n,
        x + n < d.len(),
        string_end(d, x) == x + n,
        is_distinct(d.subrange(x, x + n)),
    ensures
        ({
            let name = d.subrange(x, x + n);
            let w = moved(i, v);
            has_quoted(d.subrange(v + 1, array_end(d, v + 1, 1) - 1), name) == has_quoted(
                e.subrange(w + 1, array_end(e, w + 1, 1) - 1),
                name,
            )
        }),
{
    let name = d.subrange(x, x + n);
    let w = moved(i, v);
    let a = v + 1;
    let end = array_end(d, a, 1);
    let b = w + 1;
    let stop = array_end(e, b, 1);
    let list = d.subrange(a, end - 1);
    let other = e.subrange(b, stop - 1);
    lemma_list(d, e, i, v);
    lemma_array_end(e, b, 1);
    law_string_end(d, x);
    if i <= v || end <= i {
        assert forall|j: int| 0 <= j < list.len() implies list[j] == other[j] by {
            assert(e[b + j] == d[a + j]);
        }
        assert(list =~= other);
    } else {
        if has_quoted(list, name) {
            let o = choose|o: int| key_at(list, o, name);
            lemma_key_part(d, a, end - 1, o, name);
            let q = a + o;
            lemma_name_bytes(d, q, name);
            lemma_same_end(d, x, d, q + 1, n);
            lemma_name_whole(d, a, Expects::First, q, name, i);
            let r = moved(i, q);
            lemma_name_moved(d, e, i, q, name);
            lemma_key_part(e, b, stop - 1, r - b, name);
            assert(key_at(other, r - b, name));
        }
        if has_quoted(other, name) {
            let o = choose|o: int| key_at(other, o, name);
            lemma_key_part(e, b, stop - 1, o, name);
            let r = b + o;
            lemma_name_bytes(e, r, name);
            lemma_same_end(d, x, e, r + 1, n);
            lemma_outside_list(d, e, i, a);
            lemma_name_whole(e, b, Expects::First, r, name, i);
            let q = if r < i {
                r
            } else {
                r - 1
            };
            lemma_name_moved_back(d, e, i, q, name);
            lemma_key_part(d, a, end - 1, q - a, name);
            assert(key_at(list, q - a, name));
        }
    }
}

/// The bytes of a quoted name and of its closing mark.
proof fn lemma_name_bytes(d: Seq<u8>, q: int, name: Seq<u8>)
    requires
        key_at(d, q, name),
    ensures
        forall|k: int| 0 <= k < name.len() ==> #[trigger] d[q + 1 + k] == name[k],
        d[q + 1 + name.len()] == 34,
{
    let w = d.subrange(q + 1, q + 1 + name.len());
    assert forall|k: int| 0 <= k < name.len() implies #[trigger] d[q + 1 + k] == name[k] by {
        assert(w[k] == name[k]);
    }
}

/// Up to the blank, reading a list arrives where it did.
proof fn lemma_outside_list(d: Seq<u8>, e: Seq<u8>, i: int, p: int)
    requires
        spaced(d, e, i),
        0 <= p <= i,
        outside(d, p, i),
        i < array_end(d, p, 1) <= d.len(),
    ensures
        outside(e, p, i),
{
    lemma_outside_before(d, e, i, p, i);
}

/// A quoted name that the blank does not split moves as a whole.
proof fn lemma_name_moved(d: Seq<u8>, e: Seq<u8>, i: int, q: int, name: Seq<u8>)
    requires
        spaced(d, e, i),
        key_at(d, q, name),
        i <= q || q + name.len() + 2 <= i,
    ensures
        key_at(e, moved(i, q), name),
{
    let n = name.len() as int;
    let r = moved(i, q);
    let w = d.subrange(q + 1, q + 1 + n);
    let x = e.subrange(r + 1, r + 1 + n);
    assert forall|j: int| 0 <= j < n implies x[j] == w[j] by {
        assert(e[r + 1 + j] == d[q + 1 + j]);
    }
    assert(x =~= w);
    assert(e[r] == d[q]);
    assert(e[r + 1 + n] == d[q + 1 + n]);
}

/// A quoted name that does not hold the blank was there before it.
proof fn lemma_name_moved_back(d: Seq<u8>, e: Seq<u8>, i: int, q: int, name: Seq<u8>)
    requires
        spaced(d, e, i),
        0 <= q,
        key_at(e, moved(i, q), name),
        i <= q || q + name.len() + 2 <= i,
    ensures
        key_at(d, q, name),
{
    let n = name.len() as int;
    let r = moved(i, q);
    let w = d.subrange(q + 1, q + 1 + n);
    let x = e.subrange(r + 1, r + 1 + n);
    assert forall|j: int| 0 <= j < n implies x[j] == w[j] by {
        assert(e[r + 1 + j] == d[q + 1 + j]);
    }
    assert(x =~= w);
    assert(e[r] == d[q]);
    assert(e[r + 1 + n] == d[q + 1 + n]);
}

/// A literal is not split: it moves as a whole.
pub proof fn lemma_literal(d: Seq<u8>, e: Seq<u8>, i: int, v: int, literal: Seq<u8>)
    requires
        spaced(d, e, i),
        between(d, i),
        plain(literal),
        0 <= v,
        v + literal.len() <= d.len(),
        d.subrange(v, v + literal.len()) == literal,
    ensures
        moved(i, v) + literal.len() <= e.len(),
        e.subrange(moved(i, v), moved(i, v) + literal.len()) == literal,
        shifted(i, v + literal.len(), moved(i, v) + literal.len()),
{
    let n = literal.len() as int;
    let r = moved(i, v);
    let w = d.subrange(v, v + n);
    if v < i < v + n {
        assert(d[i - 1] == w[i - 1 - v]);
        assert(d[i] == w[i - v]);
        assert(!separates(literal[i - 1 - v]));
        assert(!separates(literal[i - v]));
    }
    let x = e.subrange(r, r + n);
    assert forall|j: int| 0 <= j < n implies x[j] == w[j] by {
        assert(e[r + j] == d[v + j]);
    }
    assert(x =~= w);
}

} // verus!
