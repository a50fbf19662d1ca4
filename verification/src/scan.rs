//! Forward scanning of a JSON body, without building a tree.
//!
//! Every function reads `d` from a position that it moves forward. Positions may
//! lie beyond the end of the body; nothing is found there.

use vstd::prelude::*;
use vstd::string::*;

verus! {

/// Kinds of bytes that the scanner runs over.
#[derive(Clone, Copy)]
pub enum Class {
    /// White space.
    Space,
    /// Decimal digits.
    Digit,
    /// Bytes that occur in a JSON number.
    Number,
}

/// Whether a byte is of a class.
pub open spec fn of_class(class: Class, b: u8) -> bool {
    match class {
        Class::Space => b == 32 || b == 9 || b == 10 || b == 13,
        Class::Digit => 48 <= b <= 57,
        Class::Number => 48 <= b <= 57 || b == 46 || b == 101 || b == 69 || b == 43 || b == 45,
    }
}

/// End of the run of bytes of a class that starts at `p`: the first position from
/// `p` on that is past the end or holds a byte of another class.
pub open spec fn run_end(d: Seq<u8>, p: int, class: Class) -> int
    decreases d.len() - p,
{
    if 0 <= p < d.len() && of_class(class, d[p]) {
        run_end(d, p + 1, class)
    } else {
        p
    }
}

/// Whether `"key"`, quotation marks included, stands at `q`.
pub open spec fn key_at(d: Seq<u8>, q: int, key: Seq<u8>) -> bool {
    &&& 0 <= q
    &&& q + key.len() + 2 <= d.len()
    &&& d[q] == 34
    &&& d.subrange(q + 1, q + 1 + key.len()) == key
    &&& d[q + 1 + key.len()] == 34
}

/// Where the colon after a quoted key at `q` stands, if there is one: past the white
/// space that follows the key.
pub open spec fn colon_of(d: Seq<u8>, q: int, key: Seq<u8>) -> int {
    run_end(d, q + key.len() + 2, Class::Space)
}

/// Whether `"key":` stands at `q`, with any white space before the colon.
pub open spec fn field_at(d: Seq<u8>, q: int, key: Seq<u8>) -> bool {
    &&& key_at(d, q, key)
    &&& colon_of(d, q, key) < d.len()
    &&& d[colon_of(d, q, key)] == 58
}

/// First position from `p` on where `"key":` stands, or where too little of the body
/// is left for the key.
pub open spec fn find_key(d: Seq<u8>, p: int, key: Seq<u8>) -> int
    decreases d.len() - p,
{
    if p + key.len() + 2 > d.len() || field_at(d, p, key) {
        p
    } else {
        find_key(d, p + 1, key)
    }
}

/// Whether `"key":` stands anywhere from `p` on.
pub open spec fn has_key(d: Seq<u8>, p: int, key: Seq<u8>) -> bool {
    exists|q: int| p <= q && #[trigger] field_at(d, q, key)
}

/// Position after looking for a key from `p` on: at its value, past the colon and
/// white space, if it was found; where the search gave up otherwise.
pub open spec fn after_key(d: Seq<u8>, p: int, key: Seq<u8>) -> int {
    let q = find_key(d, p, key);
    if field_at(d, q, key) {
        run_end(d, colon_of(d, q, key) + 1, Class::Space)
    } else {
        q
    }
}

/// Whether `"name"`, quotation marks included, stands anywhere.
pub open spec fn has_quoted(d: Seq<u8>, name: Seq<u8>) -> bool {
    exists|q: int| #[trigger] key_at(d, q, name)
}

/// Number that the decimal digits from `a` to `b` write.
pub open spec fn decimal(d: Seq<u8>, a: int, b: int) -> int
    decreases b - a,
{
    if b <= a {
        0
    } else {
        decimal(d, a, b - 1) * 10 + (d[b - 1] - 48)
    }
}

/// Number that the run of digits at `p` writes; 0 if there is none.
pub open spec fn decimal_run(d: Seq<u8>, p: int) -> int {
    decimal(d, p, run_end(d, p, Class::Digit))
}

/// Whether `true` stands at `p`.
pub open spec fn is_true(d: Seq<u8>, p: int) -> bool {
    p + 4 <= d.len() && d.subrange(p, p + 4) == "true".spec_bytes()
}

/// Past the byte `b` if it stands at `p`.
pub open spec fn past(d: Seq<u8>, p: int, b: u8) -> int {
    if 0 <= p < d.len() && d[p] == b {
        p + 1
    } else {
        p
    }
}

/// Where the string ends whose contents go on at `p`: at the first quotation mark that
/// no backslash escapes, or at the end of the body.
pub open spec fn string_end(d: Seq<u8>, p: int) -> int
    decreases d.len() - p,
{
    if p < 0 || p >= d.len() || d[p] == 34 {
        p
    } else if d[p] == 92 && p + 1 < d.len() {
        string_end(d, p + 2)
    } else {
        string_end(d, p + 1)
    }
}

/// Contents of the string at `p`, without its quotation marks.
pub open spec fn string_at(d: Seq<u8>, p: int) -> Seq<u8> {
    let a = past(d, p, 34);
    d.subrange(a, string_end(d, a))
}

/// Position after the string at `p`.
pub open spec fn after_string(d: Seq<u8>, p: int) -> int {
    past(d, string_end(d, past(d, p, 34)), 34)
}

/// First position from `p` on that is outside an array, or the end of the body, when
/// `p` lies `open` brackets deep in it. Brackets in strings do not count.
pub open spec fn array_end(d: Seq<u8>, p: int, open: int) -> int
    decreases d.len() - p,
    via array_end_decreases
{
    if p < 0 || p >= d.len() || open <= 0 {
        p
    } else if d[p] == 34 {
        array_end(d, after_string(d, p), open)
    } else if d[p] == 91 {
        array_end(d, p + 1, open + 1)
    } else if d[p] == 93 {
        array_end(d, p + 1, open - 1)
    } else {
        array_end(d, p + 1, open)
    }
}

#[via_fn]
proof fn array_end_decreases(d: Seq<u8>, p: int, open: int) {
    if 0 <= p < d.len() && open > 0 && d[p] == 34 {
        law_string_end(d, p + 1);
    }
}

/// Where the items of the array at `p` start.
pub open spec fn array_start(d: Seq<u8>, p: int) -> int {
    past(d, p, 91)
}

/// The items of the array at `p`, without the brackets: everything up to the byte
/// before [`array_end`].
pub open spec fn array_at(d: Seq<u8>, p: int) -> Seq<u8> {
    let a = array_start(d, p);
    d.subrange(a, array_end(d, a, 1) - 1)
}

/// Position after the array at `p`.
pub open spec fn after_array(d: Seq<u8>, p: int) -> int {
    array_end(d, array_start(d, p), 1)
}

/// A run starts where it is looked for, holds only bytes of its class, and ends at
/// another byte or at the end of the body.
pub proof fn law_run(d: Seq<u8>, p: int, class: Class)
    requires
        0 <= p,
    ensures
        p <= run_end(d, p, class),
        p <= d.len() ==> run_end(d, p, class) <= d.len(),
        p > d.len() ==> run_end(d, p, class) == p,
        forall|i: int| p <= i < run_end(d, p, class) ==> of_class(class, #[trigger] d[i]),
        run_end(d, p, class) < d.len() ==> !of_class(class, d[run_end(d, p, class)]),
    decreases d.len() - p,
{
    if p < d.len() && of_class(class, d[p]) {
        law_run(d, p + 1, class);
    }
}

/// A string ends at a quotation mark or at the end of the body, not before its start.
pub proof fn law_string_end(d: Seq<u8>, p: int)
    requires
        0 <= p <= d.len(),
    ensures
        p <= string_end(d, p) <= d.len(),
        string_end(d, p) < d.len() ==> d[string_end(d, p)] == 34,
    decreases d.len() - p,
{
    if p < d.len() && d[p] != 34 {
        if d[p] == 92 && p + 1 < d.len() {
            law_string_end(d, p + 2);
        } else {
            law_string_end(d, p + 1);
        }
    }
}

/// The position past a string lies within the body, and past its opening mark.
pub proof fn lemma_after_string(d: Seq<u8>, p: int)
    requires
        0 <= p <= d.len(),
    ensures
        p <= after_string(d, p) <= d.len(),
        p < d.len() && d[p] == 34 ==> p < after_string(d, p),
{
    law_string_end(d, past(d, p, 34));
}

/// The search for a key finds its first occurrence with a colon, and finds one
/// whenever there is one.
pub proof fn law_find_key(d: Seq<u8>, p: int, key: Seq<u8>)
    requires
        0 <= p,
    ensures
        p <= find_key(d, p, key),
        p <= d.len() ==> find_key(d, p, key) <= d.len(),
        field_at(d, find_key(d, p, key), key) == has_key(d, p, key),
        forall|q: int| p <= q < find_key(d, p, key) ==> !#[trigger] field_at(d, q, key),
    decreases d.len() - p,
{
    if p + key.len() + 2 <= d.len() && !field_at(d, p, key) {
        law_find_key(d, p + 1, key);
        assert forall|q: int| p <= q && #[trigger] field_at(d, q, key) implies has_key(
            d,
            p + 1,
            key,
        ) by {
            assert(q != p);
        }
    }
}

/// Looking for a key moves forward, and not past the end of the body.
pub proof fn lemma_after_key(d: Seq<u8>, p: int, key: Seq<u8>)
    requires
        0 <= p,
    ensures
        p <= after_key(d, p, key),
        p <= d.len() ==> after_key(d, p, key) <= d.len(),
{
    law_find_key(d, p, key);
    let q = find_key(d, p, key);
    if field_at(d, q, key) {
        law_run(d, q + key.len() + 2, Class::Space);
        law_run(d, colon_of(d, q, key) + 1, Class::Space);
    }
}

/// More digits write a number at least as large.
proof fn lemma_decimal_grows(d: Seq<u8>, a: int, b: int, c: int)
    requires
        0 <= a <= b <= c <= d.len(),
        forall|i: int| a <= i < c ==> of_class(Class::Digit, #[trigger] d[i]),
    ensures
        0 <= decimal(d, a, b) <= decimal(d, a, c),
    decreases c - a, c - b,
{
    if b < c {
        lemma_decimal_grows(d, a, b, c - 1);
        assert(of_class(Class::Digit, d[c - 1]));
    } else if a < b {
        lemma_decimal_grows(d, a, a, b - 1);
        assert(of_class(Class::Digit, d[b - 1]));
    }
}

/// The end of an array lies within the body, and past every position inside it.
pub proof fn lemma_array_end(d: Seq<u8>, p: int, open: int)
    requires
        0 <= p <= d.len(),
    ensures
        p <= array_end(d, p, open) <= d.len(),
        p < d.len() && open > 0 ==> p < array_end(d, p, open),
    decreases d.len() - p,
{
    if p < d.len() && open > 0 {
        if d[p] == 34 {
            lemma_after_string(d, p);
            lemma_array_end(d, after_string(d, p), open);
        } else if d[p] == 91 {
            lemma_array_end(d, p + 1, open + 1);
        } else if d[p] == 93 {
            lemma_array_end(d, p + 1, open - 1);
        } else {
            lemma_array_end(d, p + 1, open);
        }
    }
}

/// Whether two byte strings are equal.
pub fn bytes_equal(a: &[u8], b: &[u8]) -> (r: bool)
    ensures
        r == (a@ == b@),
{
    if a.len() != b.len() {
        return false;
    }
    for i in 0..a.len()
        invariant
            a@.len() == b@.len(),
            forall|j: int| 0 <= j < i ==> a@[j] == b@[j],
    {
        if a[i] != b[i] {
            assert(a@[i as int] != b@[i as int]);
            return false;
        }
    }
    assert(a@ =~= b@);
    true
}

/// Whether a byte is of a class.
fn is_of(class: Class, b: u8) -> (r: bool)
    ensures
        r == of_class(class, b),
{
    match class {
        Class::Space => b == 32 || b == 9 || b == 10 || b == 13,
        Class::Digit => 48 <= b && b <= 57,
        Class::Number => (48 <= b && b <= 57) || b == 46 || b == 101 || b == 69 || b == 43 || b
            == 45,
    }
}

/// Moves `p` past a run of bytes of a class.
fn skip_run(d: &[u8], p: &mut usize, class: Class)
    ensures
        *final(p) == run_end(d@, *old(p) as int, class),
{
    while *p < d.len() && is_of(class, d[*p])
        invariant
            run_end(d@, *p as int, class) == run_end(d@, *old(p) as int, class),
        decreases d@.len() - *p,
    {
        *p = *p + 1;
    }
}

/// Moves `p` past white space.
pub fn skip_ws(d: &[u8], p: &mut usize)
    ensures
        *final(p) == run_end(d@, *old(p) as int, Class::Space),
{
    skip_run(d, p, Class::Space);
}

/// Whether the quoted key stands at `q`, which leaves room for it.
fn at_key(d: &[u8], q: usize, key: &[u8]) -> (r: bool)
    requires
        q + key@.len() + 2 <= d@.len(),
    ensures
        r == key_at(d@, q as int, key@),
{
    d[q] == 34 && d[q + 1 + key.len()] == 34 && bytes_equal(&d[q + 1..q + 1 + key.len()], key)
}

/// Moves `pos` to the value of the next `"key":` and tells whether there is one.
pub fn seek(d: &[u8], pos: &mut usize, key: &[u8]) -> (r: bool)
    ensures
        r == has_key(d@, *old(pos) as int, key@),
        *final(pos) == after_key(d@, *old(pos) as int, key@),
{
    let klen: usize = key.len();
    proof {
        law_find_key(d@, *pos as int, key@);
    }
    while *pos <= d.len() && d.len() - *pos >= 2 && d.len() - *pos - 2 >= klen
        invariant
            klen == key@.len(),
            find_key(d@, *pos as int, key@) == find_key(d@, *old(pos) as int, key@),
            field_at(d@, find_key(d@, *old(pos) as int, key@), key@) == has_key(
                d@,
                *old(pos) as int,
                key@,
            ),
        decreases d@.len() - *pos,
    {
        if at_key(d, *pos, key) {
            let mut colon: usize = *pos + (klen + 2);
            skip_ws(d, &mut colon);
            if colon < d.len() && d[colon] == 58 {
                *pos = colon + 1;
                skip_ws(d, pos);
                return true;
            }
        }
        *pos = *pos + 1;
    }
    false
}

/// Whether the name stands anywhere in quotation marks.
pub fn holds_quoted(d: &[u8], name: &[u8]) -> (r: bool)
    ensures
        r == has_quoted(d@, name@),
{
    let n: usize = name.len();
    let mut q: usize = 0;
    while q <= d.len() && d.len() - q >= 2 && d.len() - q - 2 >= n
        invariant
            n == name@.len(),
            forall|j: int| 0 <= j < q ==> !#[trigger] key_at(d@, j, name@),
        decreases d@.len() - q,
    {
        if at_key(d, q, name) {
            return true;
        }
        q = q + 1;
    }
    false
}

/// The run of bytes at `pos` that may write a number. Moves `pos` past it.
pub fn number_slice<'a>(d: &'a [u8], pos: &mut usize) -> (r: &'a [u8])
    requires
        *old(pos) <= d@.len(),
    ensures
        *final(pos) == run_end(d@, *old(pos) as int, Class::Number),
        r@ == d@.subrange(*old(pos) as int, *final(pos) as int),
{
    let start: usize = *pos;
    proof {
        law_run(d@, start as int, Class::Number);
    }
    skip_run(d, pos, Class::Number);
    &d[start..*pos]
}

/// Reads the digits at `pos` as a number, unless it is too large. Moves `pos` past
/// the digits.
pub fn scan_u32(d: &[u8], pos: &mut usize) -> (r: Option<u32>)
    ensures
        *final(pos) == run_end(d@, *old(pos) as int, Class::Digit),
        decimal_run(d@, *old(pos) as int) <= u32::MAX ==> r == Some(
            decimal_run(d@, *old(pos) as int) as u32,
        ),
        decimal_run(d@, *old(pos) as int) > u32::MAX ==> r is None,
{
    let ghost start = *pos as int;
    let ghost end = run_end(d@, start, Class::Digit);
    let mut n: Option<u32> = Some(0);
    proof {
        law_run(d@, start, Class::Digit);
    }
    while *pos < d.len() && is_of(Class::Digit, d[*pos])
        invariant
            start == *old(pos),
            end == run_end(d@, start, Class::Digit),
            start <= *pos <= end,
            start <= d@.len() ==> end <= d@.len(),
            forall|i: int| start <= i < end ==> of_class(Class::Digit, #[trigger] d@[i]),
            run_end(d@, *pos as int, Class::Digit) == end,
            decimal(d@, start, *pos as int) >= 0,
            match n {
                Some(v) => v == decimal(d@, start, *pos as int),
                None => decimal(d@, start, *pos as int) > u32::MAX,
            },
        decreases d@.len() - *pos,
    {
        proof {
            law_run(d@, *pos as int + 1, Class::Digit);
        }
        let digit: u32 = (d[*pos] - 48) as u32;
        n = match n {
            Some(v) => match v.checked_mul(10) {
                Some(t) => t.checked_add(digit),
                None => None,
            },
            None => None,
        };
        *pos = *pos + 1;
    }
    n
}

/// Reads the digits at `pos` as a number. Moves `pos` past them.
pub fn parse_u32(d: &[u8], pos: &mut usize) -> (r: u32)
    requires
        decimal_run(d@, *old(pos) as int) <= u32::MAX,
    ensures
        r == decimal_run(d@, *old(pos) as int),
        *final(pos) == run_end(d@, *old(pos) as int, Class::Digit),
{
    proof {
        law_run(d@, *pos as int, Class::Digit);
        if *pos <= d@.len() {
            let end = run_end(d@, *pos as int, Class::Digit);
            lemma_decimal_grows(d@, *pos as int, end, end);
        }
    }
    scan_u32(d, pos).unwrap()
}

/// Whether `true` stands at `pos`. Moves `pos` past it, or past the five bytes of
/// `false` whatever stands there.
pub fn parse_bool(d: &[u8], pos: &mut usize) -> (r: bool)
    requires
        *old(pos) + 5 <= usize::MAX,
    ensures
        r == is_true(d@, *old(pos) as int),
        *final(pos) == *old(pos) + if r {
            4int
        } else {
            5
        },
{
    if *pos + 4 <= d.len() && bytes_equal(&d[*pos..*pos + 4], "true".as_bytes()) {
        *pos = *pos + 4;
        true
    } else {
        *pos = *pos + 5;
        false
    }
}

/// Moves `p` to the end of a string's contents.
fn skip_string(d: &[u8], p: &mut usize)
    requires
        *old(p) <= d@.len(),
    ensures
        *final(p) == string_end(d@, *old(p) as int),
        *final(p) <= d@.len(),
{
    while *p < d.len() && d[*p] != 34
        invariant
            *p <= d@.len() == d.len(),
            string_end(d@, *p as int) == string_end(d@, *old(p) as int),
        decreases d@.len() - *p,
    {
        if d[*p] == 92 && d.len() - *p > 1 {
            *p = *p + 2;
        } else {
            *p = *p + 1;
        }
    }
}

/// Contents of the string at `pos`, without its quotation marks. Moves `pos` past
/// it.
pub fn str_slice<'a>(d: &'a [u8], pos: &mut usize) -> (r: &'a [u8])
    requires
        *old(pos) <= d@.len(),
    ensures
        r@ == string_at(d@, *old(pos) as int),
        *final(pos) == after_string(d@, *old(pos) as int),
{
    if *pos < d.len() && d[*pos] == 34 {
        *pos = *pos + 1;
    }
    let start: usize = *pos;
    proof {
        law_string_end(d@, start as int);
    }
    skip_string(d, pos);
    let end: usize = *pos;
    if *pos < d.len() {
        *pos = *pos + 1;
    }
    &d[start..end]
}

/// The items of the array at `pos`, without the brackets. Moves `pos` past it.
pub fn array_slice<'a>(d: &'a [u8], pos: &mut usize) -> (r: &'a [u8])
    requires
        array_start(d@, *old(pos) as int) < d@.len(),
    ensures
        r@ == array_at(d@, *old(pos) as int),
        *final(pos) == after_array(d@, *old(pos) as int),
{
    if *pos < d.len() && d[*pos] == 91 {
        *pos = *pos + 1;
    }
    let start: usize = *pos;
    let mut open: i128 = 1;
    proof {
        lemma_array_end(d@, start as int, 1);
    }
    while *pos < d.len() && open > 0
        invariant
            start == array_start(d@, *old(pos) as int),
            start <= *pos <= d@.len() == d.len(),
            open <= *pos - start + 1,
            start < *pos || open > 0,
            array_end(d@, *pos as int, open as int) == after_array(d@, *old(pos) as int),
        decreases d@.len() - *pos,
    {
        if d[*pos] == 34 {
            proof {
                lemma_after_string(d@, *pos as int);
            }
            str_slice(d, pos);
        } else {
            if d[*pos] == 91 {
                open = open + 1;
            } else if d[*pos] == 93 {
                open = open - 1;
            }
            *pos = *pos + 1;
        }
    }
    &d[start..*pos - 1]
}

} // verus!
