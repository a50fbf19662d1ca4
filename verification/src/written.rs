//! Requests as text: how a request may be written, and that reading gives back what was
//! written.

use crate::calendar::is_timestamp;
use crate::models::{LastView, RequestView};
use crate::scan::{
    after_array, after_key, after_string, array_at, array_end, array_start, colon_of, decimal,
    decimal_run, field_at, find_key, has_key, is_true, key_at, law_find_key, law_run,
    of_class, run_end, string_at, string_end, Class,
};
use crate::vectorize::{
    after_bool, last_at, layout, number_at, request_at, request_of,
};
use vstd::prelude::*;
use vstd::string::*;

verus! {

/// White space: a blank, a tab or the end of a line.
pub open spec fn is_blank(b: u8) -> bool {
    b == 32 || b == 9 || b == 10 || b == 13
}

/// A byte that a number may be written with: a digit, a point, `e`, `E`, or a sign.
pub open spec fn is_numeric(b: u8) -> bool {
    48 <= b <= 57 || b == 46 || b == 101 || b == 69 || b == 43 || b == 45
}

/// The text in quotation marks.
pub open spec fn quoted(text: Seq<u8>) -> Seq<u8> {
    seq![34u8] + text + seq![34u8]
}

/// The decimal digits of a number.
pub open spec fn digits(n: nat) -> Seq<u8>
    decreases n,
{
    if n < 10 {
        seq![(48 + n) as u8]
    } else {
        digits(n / 10).push((48 + n % 10) as u8)
    }
}

/// Contents of a string: no quotation mark without a backslash before it, and no
/// backslash at the end.
pub open spec fn is_text(s: Seq<u8>) -> bool
    decreases s.len(),
{
    if s.len() == 0 {
        true
    } else if s[0] == 92 {
        s.len() >= 2 && is_text(s.skip(2))
    } else {
        s[0] != 34 && is_text(s.skip(1))
    }
}

/// Names in quotation marks, with commas between them.
pub open spec fn listed(names: Seq<Seq<u8>>) -> Seq<u8>
    decreases names.len(),
{
    if names.len() == 0 {
        Seq::empty()
    } else if names.len() == 1 {
        quoted(names[0])
    } else {
        listed(names.drop_last()) + seq![44u8] + quoted(names.last())
    }
}

/// `true` or `false`.
pub open spec fn truth(b: bool) -> Seq<u8> {
    if b {
        seq![116u8, 114, 117, 101]
    } else {
        seq![102u8, 97, 108, 115, 101]
    }
}

/// What stands before the value of a field: something, the key in quotation marks, white
/// space, a colon, and white space.
pub struct Lead {
    pub before: Seq<u8>,
    pub gap: Seq<u8>,
    pub space: Seq<u8>,
}

impl Lead {
    /// The bytes for a key.
    pub open spec fn bytes(self, key: Seq<u8>) -> Seq<u8> {
        self.before + (quoted(key) + (self.gap + (seq![58u8] + self.space)))
    }

    /// The key does not stand earlier, nothing that could go on a number comes first, and
    /// the white space is white.
    pub open spec fn leads(self, key: Seq<u8>) -> bool {
        &&& forall|q: int|
            0 <= q < self.before.len() ==> #[trigger] (self.before + quoted(key)).subrange(
                q,
                q + key.len() + 2,
            ) != quoted(key)
        &&& self.before.len() > 0 ==> !is_numeric(self.before[0])
        &&& forall|i: int| 0 <= i < self.gap.len() ==> is_blank(#[trigger] self.gap[i])
        &&& forall|i: int| 0 <= i < self.space.len() ==> is_blank(#[trigger] self.space[i])
    }
}

/// A number as text: one byte at least.
pub open spec fn is_number(s: Seq<u8>) -> bool {
    s.len() > 0 && forall|i: int| 0 <= i < s.len() ==> is_numeric(#[trigger] s[i])
}

/// A run of bytes ends before the first byte of another class.
proof fn lemma_run_of(d: Seq<u8>, p: int, class: Class, n: int)
    requires
        0 <= p,
        0 <= n,
        p + n <= d.len(),
        forall|i: int| p <= i < p + n ==> of_class(class, #[trigger] d[i]),
        p + n < d.len() ==> !of_class(class, d[p + n]),
    ensures
        run_end(d, p, class) == p + n,
{
    law_run(d, p, class);
    let e = run_end(d, p, class);
    if e < p + n {
        assert(of_class(class, d[e]));
    } else if e > p + n {
        assert(of_class(class, d[p + n]));
    }
}

/// Where the parts of a lead stand.
proof fn lemma_lead_parts(d: Seq<u8>, head: Seq<u8>, lead: Lead, key: Seq<u8>, rest: Seq<u8>)
    requires
        d == head + (lead.bytes(key) + rest),
    ensures
        ({
            let p = head.len() as int;
            let at = p + lead.before.len();
            let after = at + key.len() + 2;
            let colon = after + lead.gap.len();
            let end = colon + 1 + lead.space.len();
            &&& end == p + lead.bytes(key).len()
            &&& d.len() == end + rest.len()
            &&& d.subrange(p, after) == lead.before + quoted(key)
            &&& d.subrange(after, colon) == lead.gap
            &&& d[colon] == 58
            &&& d.subrange(colon + 1, end) == lead.space
            &&& d.subrange(end, d.len() as int) == rest
        }),
{
    let p = head.len() as int;
    let at = p + lead.before.len();
    let after = at + key.len() + 2;
    let colon = after + lead.gap.len();
    let end = colon + 1 + lead.space.len();
    let bytes = lead.bytes(key);
    assert(quoted(key).len() == key.len() + 2);
    assert(bytes.len() == end - p);
    assert(d.subrange(p, end) =~= bytes);
    assert(d.subrange(end, d.len() as int) =~= rest);
    assert(bytes.subrange(0, after - p) =~= lead.before + quoted(key));
    assert(bytes.subrange(after - p, colon - p) =~= lead.gap);
    assert(bytes[colon - p] == 58);
    assert(bytes.subrange(colon + 1 - p, end - p) =~= lead.space);
    assert(d[colon] == d.subrange(p, end)[colon - p]);
    assert(d.subrange(p, after) =~= d.subrange(p, end).subrange(0, after - p));
    assert(d.subrange(after, colon) =~= d.subrange(p, end).subrange(after - p, colon - p));
    assert(d.subrange(colon + 1, end) =~= d.subrange(p, end).subrange(colon + 1 - p, end - p));
}

/// The key in quotation marks stands where the key is.
pub proof fn lemma_key_at(d: Seq<u8>, q: int, key: Seq<u8>)
    requires
        0 <= q,
        q + key.len() + 2 <= d.len(),
    ensures
        key_at(d, q, key) <==> d.subrange(q, q + key.len() + 2) == quoted(key),
{
    let part = d.subrange(q, q + key.len() + 2);
    let n = key.len() as int;
    assert(part[0] == d[q]);
    assert(part[n + 1] == d[q + 1 + n]);
    assert(part.subrange(1, n + 1) =~= d.subrange(q + 1, q + 1 + n));
    assert(quoted(key).subrange(1, n + 1) =~= key);
    assert(quoted(key)[0] == 34 && quoted(key)[n + 1] == 34);
    if key_at(d, q, key) {
        assert(part =~= quoted(key)) by {
            assert forall|i: int| 0 <= i < n + 2 implies part[i] == quoted(key)[i] by {
                if 1 <= i < n + 1 {
                    assert(part.subrange(1, n + 1)[i - 1] == key[i - 1]);
                }
            }
        }
    }
}

/// The key does not stand before the lead ends.
proof fn lemma_no_earlier(d: Seq<u8>, p: int, lead: Lead, key: Seq<u8>, q: int)
    requires
        0 <= p <= q < p + lead.before.len(),
        p + lead.before.len() + key.len() + 2 <= d.len(),
        d.subrange(p, p + lead.before.len() + key.len() + 2) == lead.before + quoted(key),
        lead.leads(key),
    ensures
        !field_at(d, q, key),
{
    let whole = d.subrange(p, p + lead.before.len() + key.len() + 2);
    lemma_key_at(d, q, key);
    assert(whole.subrange(q - p, q - p + key.len() + 2) =~= d.subrange(q, q + key.len() + 2));
    assert((lead.before + quoted(key)).subrange(q - p, q - p + key.len() + 2) != quoted(key));
}

/// The search for a key ends at the value that its lead stands before.
proof fn lemma_lead(d: Seq<u8>, head: Seq<u8>, lead: Lead, key: Seq<u8>, rest: Seq<u8>)
    requires
        d == head + (lead.bytes(key) + rest),
        lead.leads(key),
        rest.len() > 0,
        !is_blank(rest[0]),
    ensures
        after_key(d, head.len() as int, key) == head.len() + lead.bytes(key).len(),
        has_key(d, head.len() as int, key),
{
    let p = head.len() as int;
    let at = p + lead.before.len();
    let after = at + key.len() + 2;
    let colon = after + lead.gap.len();
    let end = colon + 1 + lead.space.len();
    lemma_lead_parts(d, head, lead, key, rest);
    lemma_key_at(d, at, key);
    assert(d.subrange(at, after) =~= quoted(key)) by {
        assert(d.subrange(p, after).subrange(at - p, after - p) =~= d.subrange(at, after));
        assert((lead.before + quoted(key)).subrange(at - p, after - p) =~= quoted(key));
    }
    assert forall|i: int| after <= i < colon implies of_class(Class::Space, #[trigger] d[i]) by {
        assert(d.subrange(after, colon)[i - after] == lead.gap[i - after]);
    }
    lemma_run_of(d, after, Class::Space, lead.gap.len() as int);
    assert(colon_of(d, at, key) == colon);
    assert(field_at(d, at, key));
    assert forall|i: int| colon + 1 <= i < end implies of_class(Class::Space, #[trigger] d[i]) by {
        assert(d.subrange(colon + 1, end)[i - colon - 1] == lead.space[i - colon - 1]);
    }
    assert(d[end] == d.subrange(end, d.len() as int)[0]);
    lemma_run_of(d, colon + 1, Class::Space, lead.space.len() as int);
    assert forall|q: int| p <= q < at implies !#[trigger] field_at(d, q, key) by {
        lemma_no_earlier(d, p, lead, key, q);
    }
    law_find_key(d, p, key);
    assert(find_key(d, p, key) == at);
}

/// A number is read up to its end.
proof fn lemma_number(d: Seq<u8>, head: Seq<u8>, number: Seq<u8>, rest: Seq<u8>)
    requires
        d == head + (number + rest),
        is_number(number),
        rest.len() > 0 ==> !is_numeric(rest[0]),
    ensures
        run_end(d, head.len() as int, Class::Number) == head.len() + number.len(),
        number_at(d, head.len() as int) == number,
{
    let p = head.len() as int;
    assert forall|i: int| p <= i < p + number.len() implies of_class(
        Class::Number,
        #[trigger] d[i],
    ) by {
        assert(d[i] == number[i - p]);
    }
    if rest.len() > 0 {
        assert(d[p + number.len()] == rest[0]);
    }
    lemma_run_of(d, p, Class::Number, number.len() as int);
    assert(d.subrange(p, p + number.len()) =~= number);
}

/// The digits of a number are digits, and stand for it.
proof fn lemma_digits(d: Seq<u8>, a: int, n: nat)
    requires
        0 <= a,
        a + digits(n).len() <= d.len(),
        d.subrange(a, a + digits(n).len()) == digits(n),
    ensures
        digits(n).len() > 0,
        forall|i: int| a <= i < a + digits(n).len() ==> 48 <= #[trigger] d[i] <= 57,
        decimal(d, a, a + digits(n).len()) == n,
    decreases n,
{
    let b = a + digits(n).len();
    if n < 10 {
        assert(b == a + 1);
        assert(d[a] == d.subrange(a, b)[0]);
        assert(decimal(d, a, a) == 0);
    } else {
        assert(d.subrange(a, b - 1) =~= digits(n / 10)) by {
            assert(d.subrange(a, b).drop_last() =~= digits(n / 10));
            assert(d.subrange(a, b).drop_last() =~= d.subrange(a, b - 1));
        }
        lemma_digits(d, a, n / 10);
        assert(d[b - 1] == d.subrange(a, b).last());
        assert(decimal(d, a, b) == decimal(d, a, b - 1) * 10 + (d[b - 1] - 48));
    }
}

/// A count that is written in decimal is read as what was written.
proof fn lemma_count_read(d: Seq<u8>, head: Seq<u8>, n: nat, rest: Seq<u8>)
    requires
        d == head + (digits(n) + rest),
        rest.len() > 0 ==> !is_numeric(rest[0]),
    ensures
        digits(n).len() > 0,
        !is_blank(digits(n)[0]),
        run_end(d, head.len() as int, Class::Digit) == head.len() + digits(n).len(),
        decimal_run(d, head.len() as int) == n,
{
    let p = head.len() as int;
    assert(d.subrange(p, p + digits(n).len()) =~= digits(n));
    lemma_digits(d, p, n);
    assert(d[p] == digits(n)[0]);
    assert forall|i: int| p <= i < p + digits(n).len() implies of_class(
        Class::Digit,
        #[trigger] d[i],
    ) by {}
    if rest.len() > 0 {
        assert(d[p + digits(n).len()] == rest[0]);
    }
    lemma_run_of(d, p, Class::Digit, digits(n).len() as int);
}

/// The contents of a string end at the closing quotation mark.
proof fn lemma_text_end(d: Seq<u8>, p: int, s: Seq<u8>)
    requires
        0 <= p,
        p + s.len() < d.len(),
        d.subrange(p, p + s.len()) == s,
        d[p + s.len()] == 34,
        is_text(s),
    ensures
        string_end(d, p) == p + s.len(),
    decreases s.len(),
{
    if s.len() > 0 {
        assert(d[p] == s[0]);
        if s[0] == 92 {
            assert(d.subrange(p + 2, p + s.len()) =~= s.skip(2)) by {
                assert(d.subrange(p, p + s.len()).skip(2) =~= d.subrange(p + 2, p + s.len()));
            }
            lemma_text_end(d, p + 2, s.skip(2));
        } else {
            assert(d.subrange(p + 1, p + s.len()) =~= s.skip(1)) by {
                assert(d.subrange(p, p + s.len()).skip(1) =~= d.subrange(p + 1, p + s.len()));
            }
            lemma_text_end(d, p + 1, s.skip(1));
        }
    }
}

/// A string is read as what stands between its quotation marks.
proof fn lemma_text(d: Seq<u8>, head: Seq<u8>, s: Seq<u8>, rest: Seq<u8>)
    requires
        d == head + (quoted(s) + rest),
        is_text(s),
    ensures
        string_at(d, head.len() as int) == s,
        after_string(d, head.len() as int) == head.len() + s.len() + 2,
{
    let p = head.len() as int;
    assert(d.subrange(p, p + s.len() + 2) =~= quoted(s));
    assert(d[p] == d.subrange(p, p + s.len() + 2)[0]);
    assert(d[p + 1 + s.len()] == d.subrange(p, p + s.len() + 2)[s.len() as int + 1]);
    assert(d.subrange(p + 1, p + 1 + s.len()) =~= s) by {
        assert forall|i: int| 0 <= i < s.len() implies d[p + 1 + i] == s[i] by {
            assert(d.subrange(p, p + s.len() + 2)[i + 1] == s[i]);
        }
    }
    lemma_text_end(d, p + 1, s);
}

/// A truth value is read as what was written.
proof fn lemma_truth(d: Seq<u8>, head: Seq<u8>, b: bool, rest: Seq<u8>)
    requires
        d == head + (truth(b) + rest),
    ensures
        is_true(d, head.len() as int) == b,
        after_bool(d, head.len() as int) == head.len() + truth(b).len(),
        after_bool(d, head.len() as int) <= d.len(),
{
    let p = head.len() as int;
    reveal_strlit("true");
    is_ascii_spec_bytes("true");
    let t = "true".spec_bytes();
    assert(t.len() == 4);
    assert(t[0] == 116 && t[1] == 114 && t[2] == 117 && t[3] == 101);
    assert(d[p] == truth(b)[0]);
    if b {
        assert(d.subrange(p, p + 4) =~= t) by {
            assert(d[p + 1] == truth(b)[1] && d[p + 2] == truth(b)[2] && d[p + 3] == truth(b)[3]);
        }
    } else {
        assert(d.subrange(p, p + 4)[0] == 102);
    }
}

/// Inside an array, what lists names leads to the same end from behind it.
proof fn lemma_listed_end(d: Seq<u8>, p: int, names: Seq<Seq<u8>>)
    requires
        0 <= p,
        p + listed(names).len() < d.len(),
        d.subrange(p, p + listed(names).len()) == listed(names),
        forall|i: int| 0 <= i < names.len() ==> is_text(#[trigger] names[i]),
    ensures
        array_end(d, p, 1) == array_end(d, p + listed(names).len(), 1),
    decreases names.len(),
{
    let all = listed(names);
    if names.len() == 1 {
        lemma_listed_one(d, p, names[0]);
    } else if names.len() > 1 {
        let most = listed(names.drop_last());
        let one = names.last();
        let m = p + most.len();
        assert(all =~= most + (seq![44u8] + quoted(one)));
        assert(d.subrange(p, m) =~= most) by {
            assert(d.subrange(p, p + all.len()).take(most.len() as int) =~= most);
            assert(d.subrange(p, p + all.len()).take(most.len() as int) =~= d.subrange(p, m));
        }
        assert forall|i: int| 0 <= i < names.drop_last().len() implies is_text(
            #[trigger] names.drop_last()[i],
        ) by {
            assert(names.drop_last()[i] == names[i]);
        }
        lemma_listed_end(d, p, names.drop_last());
        assert(d[m] == 44) by {
            assert(d.subrange(p, p + all.len())[most.len() as int] == 44);
        }
        assert(d.subrange(m + 1, m + 1 + one.len() + 2) =~= quoted(one)) by {
            assert(d.subrange(p, p + all.len()).skip(most.len() as int + 1) =~= quoted(one));
            assert(d.subrange(p, p + all.len()).skip(most.len() as int + 1) =~= d.subrange(
                m + 1,
                p + all.len(),
            ));
        }
        assert(names[names.len() - 1] == one);
        lemma_listed_one(d, m + 1, one);
        assert(array_end(d, m, 1) == array_end(d, m + 1, 1));
    }
}

/// A quoted name leads to the same end of an array from behind it.
proof fn lemma_listed_one(d: Seq<u8>, p: int, name: Seq<u8>)
    requires
        0 <= p,
        p + name.len() + 2 <= d.len(),
        d.subrange(p, p + name.len() + 2) == quoted(name),
        is_text(name),
    ensures
        array_end(d, p, 1) == array_end(d, p + name.len() + 2, 1),
{
    let head = d.take(p);
    let rest = d.skip(p + name.len() + 2);
    assert(d =~= head + (quoted(name) + rest)) by {
        assert forall|i: int| 0 <= i < d.len() implies d[i] == (head + (quoted(name) + rest))[i] by {
            if p <= i < p + name.len() + 2 {
                assert(d.subrange(p, p + name.len() + 2)[i - p] == d[i]);
            }
        }
    }
    lemma_text(d, head, name, rest);
    assert(d[p] == d.subrange(p, p + name.len() + 2)[0]);
}

/// A list of names is read as what stands between the brackets.
proof fn lemma_names(d: Seq<u8>, head: Seq<u8>, names: Seq<Seq<u8>>, rest: Seq<u8>)
    requires
        d == head + ((seq![91u8] + listed(names) + seq![93u8]) + rest),
        forall|i: int| 0 <= i < names.len() ==> is_text(#[trigger] names[i]),
    ensures
        array_start(d, head.len() as int) == head.len() + 1,
        array_start(d, head.len() as int) < d.len(),
        array_at(d, head.len() as int) == listed(names),
        after_array(d, head.len() as int) == head.len() + listed(names).len() + 2,
{
    let p = head.len() as int;
    let list = listed(names);
    let whole = seq![91u8] + list + seq![93u8];
    assert(d.subrange(p, p + list.len() + 2) =~= whole);
    assert(d[p] == d.subrange(p, p + list.len() + 2)[0]);
    let q = p + 1 + list.len();
    assert(d[q] == d.subrange(p, p + list.len() + 2)[list.len() as int + 1]);
    assert(d.subrange(p + 1, q) =~= list) by {
        assert forall|i: int| 0 <= i < list.len() implies d[p + 1 + i] == list[i] by {
            assert(d.subrange(p, p + list.len() + 2)[i + 1] == list[i]);
        }
    }
    lemma_listed_end(d, p + 1, names);
    assert(array_end(d, q, 1) == array_end(d, q + 1, 0));
    assert(array_end(d, q + 1, 0) == q + 1);
}

/// A field with a number is read, and reading goes on behind it.
proof fn step_number(d: Seq<u8>, head: Seq<u8>, lead: Lead, key: Seq<u8>, number: Seq<u8>, rest: Seq<u8>) -> (more:
    Seq<u8>)
    requires
        d == head + (lead.bytes(key) + (number + rest)),
        lead.leads(key),
        is_number(number),
        rest.len() > 0 ==> !is_numeric(rest[0]),
    ensures
        d == more + rest,
        has_key(d, head.len() as int, key),
        number_at(d, after_key(d, head.len() as int, key)) == number,
        run_end(d, after_key(d, head.len() as int, key), Class::Number) == more.len(),
{
    let middle = head + lead.bytes(key);
    assert(d =~= middle + (number + rest));
    let more = middle + number;
    assert(d =~= more + rest);
    lemma_number(d, middle, number, rest);
    assert((number + rest)[0] == number[0]);
    lemma_lead(d, head, lead, key, number + rest);
    more
}

/// A field with a count is read, and reading goes on behind it.
proof fn step_count(d: Seq<u8>, head: Seq<u8>, lead: Lead, key: Seq<u8>, n: nat, rest: Seq<u8>) -> (more:
    Seq<u8>)
    requires
        d == head + (lead.bytes(key) + (digits(n) + rest)),
        lead.leads(key),
        rest.len() > 0 ==> !is_numeric(rest[0]),
    ensures
        d == more + rest,
        has_key(d, head.len() as int, key),
        decimal_run(d, after_key(d, head.len() as int, key)) == n,
        run_end(d, after_key(d, head.len() as int, key), Class::Digit) == more.len(),
{
    let middle = head + lead.bytes(key);
    assert(d =~= middle + (digits(n) + rest));
    let more = middle + digits(n);
    assert(d =~= more + rest);
    lemma_count_read(d, middle, n, rest);
    assert((digits(n) + rest)[0] == digits(n)[0]);
    lemma_lead(d, head, lead, key, digits(n) + rest);
    more
}

/// A field with a string is read, and reading goes on behind it.
proof fn step_text(d: Seq<u8>, head: Seq<u8>, lead: Lead, key: Seq<u8>, text: Seq<u8>, rest: Seq<u8>) -> (more:
    Seq<u8>)
    requires
        d == head + (lead.bytes(key) + (quoted(text) + rest)),
        lead.leads(key),
        is_text(text),
    ensures
        d == more + rest,
        has_key(d, head.len() as int, key),
        string_at(d, after_key(d, head.len() as int, key)) == text,
        after_string(d, after_key(d, head.len() as int, key)) == more.len(),
{
    let middle = head + lead.bytes(key);
    assert(d =~= middle + (quoted(text) + rest));
    let more = middle + quoted(text);
    assert(d =~= more + rest);
    lemma_text(d, middle, text, rest);
    assert((quoted(text) + rest)[0] == 34);
    lemma_lead(d, head, lead, key, quoted(text) + rest);
    more
}

/// A field with a list of names is read, and reading goes on behind it.
proof fn step_names(d: Seq<u8>, head: Seq<u8>, lead: Lead, key: Seq<u8>, names: Seq<Seq<u8>>, rest: Seq<u8>) -> (more:
    Seq<u8>)
    requires
        d == head + (lead.bytes(key) + ((seq![91u8] + listed(names) + seq![93u8]) + rest)),
        lead.leads(key),
        forall|i: int| 0 <= i < names.len() ==> is_text(#[trigger] names[i]),
    ensures
        d == more + rest,
        has_key(d, head.len() as int, key),
        array_start(d, after_key(d, head.len() as int, key)) < d.len(),
        array_at(d, after_key(d, head.len() as int, key)) == listed(names),
        after_array(d, after_key(d, head.len() as int, key)) == more.len(),
{
    let middle = head + lead.bytes(key);
    assert(d =~= middle + ((seq![91u8] + listed(names) + seq![93u8]) + rest));
    let more = middle + (seq![91u8] + listed(names) + seq![93u8]);
    assert(d =~= more + rest);
    lemma_names(d, middle, names, rest);
    assert(((seq![91u8] + listed(names) + seq![93u8]) + rest)[0] == 91);
    lemma_lead(d, head, lead, key, (seq![91u8] + listed(names) + seq![93u8]) + rest);
    more
}

/// A field with a truth value is read, and reading goes on behind it.
proof fn step_truth(d: Seq<u8>, head: Seq<u8>, lead: Lead, key: Seq<u8>, b: bool, rest: Seq<u8>) -> (more:
    Seq<u8>)
    requires
        d == head + (lead.bytes(key) + (truth(b) + rest)),
        lead.leads(key),
    ensures
        d == more + rest,
        has_key(d, head.len() as int, key),
        is_true(d, after_key(d, head.len() as int, key)) == b,
        after_bool(d, after_key(d, head.len() as int, key)) == more.len(),
        after_bool(d, after_key(d, head.len() as int, key)) <= d.len(),
{
    let middle = head + lead.bytes(key);
    assert(d =~= middle + (truth(b) + rest));
    let more = middle + truth(b);
    assert(d =~= more + rest);
    lemma_truth(d, middle, b, rest);
    assert((truth(b) + rest)[0] == truth(b)[0]);
    lemma_lead(d, head, lead, key, truth(b) + rest);
    more
}

/// How the last transaction may be written.
pub enum LastWritten {
    /// Not at all: only the end of the body is left.
    Missing { end: Seq<u8> },
    /// As `null`.
    Null { lead: Lead, end: Seq<u8> },
    /// With its time and its distance.
    Given {
        lead: Lead,
        timestamp_lead: Lead,
        timestamp: Seq<u8>,
        km_lead: Lead,
        km_from_current: Seq<u8>,
        end: Seq<u8>,
    },
}

impl LastWritten {
    /// The bytes from the last transaction to the end of the body.
    pub open spec fn text(self) -> Seq<u8> {
        match self {
            LastWritten::Missing { end } => end,
            LastWritten::Null { lead, end } => lead.bytes("last_transaction".spec_bytes()) + (
            seq![110u8, 117, 108, 108] + end),
            LastWritten::Given {
                lead,
                timestamp_lead,
                timestamp,
                km_lead,
                km_from_current,
                end,
            } => lead.bytes("last_transaction".spec_bytes()) + (timestamp_lead.bytes(
                "timestamp".spec_bytes(),
            ) + (quoted(timestamp) + (km_lead.bytes("km_from_current".spec_bytes()) + (
            km_from_current + end)))),
        }
    }

    /// The fields can be told apart.
    pub open spec fn valid(self) -> bool {
        match self {
            LastWritten::Missing { end } => {
                let key = quoted("last_transaction".spec_bytes());
                &&& end.len() > 0 ==> !is_numeric(end[0])
                &&& forall|q: int|
                    0 <= q && q + key.len() <= end.len() ==> #[trigger] end.subrange(
                        q,
                        q + key.len(),
                    ) != key
            },
            LastWritten::Null { lead, .. } => lead.leads("last_transaction".spec_bytes()),
            LastWritten::Given {
                lead,
                timestamp_lead,
                timestamp,
                km_lead,
                km_from_current,
                end,
            } => {
                &&& lead.leads("last_transaction".spec_bytes())
                &&& timestamp_lead.leads("timestamp".spec_bytes())
                &&& timestamp_lead.before.len() > 0 ==> timestamp_lead.before[0] != 110
                    && !is_blank(timestamp_lead.before[0])
                &&& is_text(timestamp)
                &&& km_lead.leads("km_from_current".spec_bytes())
                &&& is_number(km_from_current)
                &&& end.len() > 0 ==> !is_numeric(end[0])
            },
        }
    }

    /// What is written.
    pub open spec fn said(self) -> Option<LastView> {
        match self {
            LastWritten::Given { timestamp, km_from_current, .. } => Some(
                LastView { timestamp, km_from_current },
            ),
            _ => None,
        }
    }
}

/// A request, and how it is written.
pub struct Written {
    pub amount_lead: Lead,
    pub amount: Seq<u8>,
    pub installments_lead: Lead,
    pub installments: nat,
    pub requested_at_lead: Lead,
    pub requested_at: Seq<u8>,
    pub average_lead: Lead,
    pub average: Seq<u8>,
    pub count_lead: Lead,
    pub count: nat,
    pub known_lead: Lead,
    pub known: Seq<Seq<u8>>,
    pub id_lead: Lead,
    pub id: Seq<u8>,
    pub mcc_lead: Lead,
    pub mcc: Seq<u8>,
    pub merchant_average_lead: Lead,
    pub merchant_average: Seq<u8>,
    pub online_lead: Lead,
    pub online: bool,
    pub card_lead: Lead,
    pub card: bool,
    pub km_lead: Lead,
    pub km: Seq<u8>,
    pub last: LastWritten,
}

impl Written {
    /// The bytes from `amount` on.
    #[verifier::opaque]
    pub open spec fn from_amount(self) -> Seq<u8> {
        self.amount_lead.bytes("amount".spec_bytes()) + (self.amount + self.from_installments())
    }

    /// The bytes from `installments` on.
    #[verifier::opaque]
    pub open spec fn from_installments(self) -> Seq<u8> {
        self.installments_lead.bytes("installments".spec_bytes()) + (digits(self.installments) + self.from_requested_at())
    }

    /// The bytes from `requested_at` on.
    #[verifier::opaque]
    pub open spec fn from_requested_at(self) -> Seq<u8> {
        self.requested_at_lead.bytes("requested_at".spec_bytes()) + (quoted(self.requested_at) + self.from_average())
    }

    /// The bytes from `avg_amount` on.
    #[verifier::opaque]
    pub open spec fn from_average(self) -> Seq<u8> {
        self.average_lead.bytes("avg_amount".spec_bytes()) + (self.average + self.from_count())
    }

    /// The bytes from `tx_count_24h` on.
    #[verifier::opaque]
    pub open spec fn from_count(self) -> Seq<u8> {
        self.count_lead.bytes("tx_count_24h".spec_bytes()) + (digits(self.count) + self.from_known())
    }

    /// The bytes from `known_merchants` on.
    #[verifier::opaque]
    pub open spec fn from_known(self) -> Seq<u8> {
        self.known_lead.bytes("known_merchants".spec_bytes()) + ((seq![91u8] + listed(self.known) + seq![93u8]) + self.from_id())
    }

    /// The bytes from `id` on.
    #[verifier::opaque]
    pub open spec fn from_id(self) -> Seq<u8> {
        self.id_lead.bytes("id".spec_bytes()) + (quoted(self.id) + self.from_mcc())
    }

    /// The bytes from `mcc` on.
    #[verifier::opaque]
    pub open spec fn from_mcc(self) -> Seq<u8> {
        self.mcc_lead.bytes("mcc".spec_bytes()) + (quoted(self.mcc) + self.from_merchant_average())
    }

    /// The bytes from `avg_amount` on.
    #[verifier::opaque]
    pub open spec fn from_merchant_average(self) -> Seq<u8> {
        self.merchant_average_lead.bytes("avg_amount".spec_bytes()) + (self.merchant_average + self.from_online())
    }

    /// The bytes from `is_online` on.
    #[verifier::opaque]
    pub open spec fn from_online(self) -> Seq<u8> {
        self.online_lead.bytes("is_online".spec_bytes()) + (truth(self.online) + self.from_card())
    }

    /// The bytes from `card_present` on.
    #[verifier::opaque]
    pub open spec fn from_card(self) -> Seq<u8> {
        self.card_lead.bytes("card_present".spec_bytes()) + (truth(self.card) + self.from_km())
    }

    /// The bytes from `km_from_home` on.
    #[verifier::opaque]
    pub open spec fn from_km(self) -> Seq<u8> {
        self.km_lead.bytes("km_from_home".spec_bytes()) + (self.km + self.last.text())
    }

    /// The fields can be told apart, and their values are numbers, strings and lists.
    pub open spec fn valid(self) -> bool {
        &&& self.amount_lead.leads("amount".spec_bytes())
        &&& self.installments_lead.leads("installments".spec_bytes())
        &&& self.requested_at_lead.leads("requested_at".spec_bytes())
        &&& self.average_lead.leads("avg_amount".spec_bytes())
        &&& self.count_lead.leads("tx_count_24h".spec_bytes())
        &&& self.known_lead.leads("known_merchants".spec_bytes())
        &&& self.id_lead.leads("id".spec_bytes())
        &&& self.mcc_lead.leads("mcc".spec_bytes())
        &&& self.merchant_average_lead.leads("avg_amount".spec_bytes())
        &&& self.online_lead.leads("is_online".spec_bytes())
        &&& self.card_lead.leads("card_present".spec_bytes())
        &&& self.km_lead.leads("km_from_home".spec_bytes())
        &&& is_number(self.amount)
        &&& is_number(self.average)
        &&& is_number(self.merchant_average)
        &&& is_number(self.km)
        &&& is_text(self.requested_at)
        &&& is_text(self.id)
        &&& is_text(self.mcc)
        &&& forall|i: int| 0 <= i < self.known.len() ==> is_text(#[trigger] self.known[i])
        &&& self.last.valid()
    }

    /// What is written.
    pub open spec fn said(self) -> RequestView {
        RequestView {
            amount: self.amount,
            installments: self.installments as u32,
            requested_at: self.requested_at,
            customer_avg_amount: self.average,
            tx_count_24h: self.count as u32,
            known_merchants: listed(self.known),
            merchant_id: self.id,
            mcc: self.mcc,
            merchant_avg_amount: self.merchant_average,
            is_online: self.online,
            card_present: self.card,
            km_from_home: self.km,
            last_transaction: self.last.said(),
        }
    }
}

/// A lead does not go on a number.
proof fn lemma_first(lead: Lead, key: Seq<u8>, rest: Seq<u8>)
    requires
        lead.leads(key),
    ensures
        (lead.bytes(key) + rest).len() > 0,
        !is_numeric((lead.bytes(key) + rest)[0]),
        lead.before.len() > 0 ==> (lead.bytes(key) + rest)[0] == lead.before[0],
        lead.before.len() == 0 ==> (lead.bytes(key) + rest)[0] == 34,
{
    if lead.before.len() == 0 {
        assert(lead.bytes(key)[0] == quoted(key)[0]);
    }
}

/// The last transaction is read as it is written.
proof fn lemma_last_read(d: Seq<u8>, head: Seq<u8>, last: LastWritten)
    requires
        d == head + last.text(),
        last.valid(),
    ensures
        last_at(d, head.len() as int) == last.said(),
{
    let p = head.len() as int;
    let key = "last_transaction".spec_bytes();
    match last {
        LastWritten::Missing { end } => {
            assert forall|q: int| p <= q implies !#[trigger] field_at(d, q, key) by {
                if key_at(d, q, key) {
                    lemma_key_at(d, q, key);
                    let n = quoted(key).len() as int;
                    assert(end.subrange(q - p, q - p + n) =~= d.subrange(q, q + n));
                }
            }
        },
        LastWritten::Null { lead, end } => {
            let rest = seq![110u8, 117, 108, 108] + end;
            assert(rest[0] == 110);
            lemma_lead(d, head, lead, key, rest);
            assert(d[p + lead.bytes(key).len()] == rest[0]);
        },
        LastWritten::Given {
            lead,
            timestamp_lead,
            timestamp,
            km_lead,
            km_from_current,
            end,
        } => {
            let time = "timestamp".spec_bytes();
            let km = "km_from_current".spec_bytes();
            let behind = km_lead.bytes(km) + (km_from_current + end);
            let inner = timestamp_lead.bytes(time) + (quoted(timestamp) + behind);
            lemma_first(timestamp_lead, time, quoted(timestamp) + behind);
            lemma_lead(d, head, lead, key, inner);
            let middle = head + lead.bytes(key);
            assert(d =~= middle + inner);
            assert(d[middle.len() as int] == inner[0]);
            let more = step_text(d, middle, timestamp_lead, time, timestamp, behind);
            let after = step_number(d, more, km_lead, km, km_from_current, end);
        },
    }
}

/// The field `amount` is read.
proof fn lemma_read_amount(d: Seq<u8>, head: Seq<u8>, w: Written) -> (more: Seq<u8>)
    requires
        w.valid(),
        d == head + w.from_amount(),
    ensures
        d == more + w.from_installments(),
        number_at(d, after_key(d, head.len() as int, "amount".spec_bytes())) == w.amount,
        run_end(d, after_key(d, head.len() as int, "amount".spec_bytes()), Class::Number) == more.len(),
{
    reveal(Written::from_amount);
    reveal(Written::from_installments);
    lemma_first(w.installments_lead, "installments".spec_bytes(), digits(w.installments) + w.from_requested_at());
    step_number(d, head, w.amount_lead, "amount".spec_bytes(), w.amount, w.from_installments())
}

/// The field `installments` is read.
proof fn lemma_read_installments(d: Seq<u8>, head: Seq<u8>, w: Written) -> (more: Seq<u8>)
    requires
        w.valid(),
        d == head + w.from_installments(),
    ensures
        d == more + w.from_requested_at(),
        decimal_run(d, after_key(d, head.len() as int, "installments".spec_bytes())) == w.installments,
        run_end(d, after_key(d, head.len() as int, "installments".spec_bytes()), Class::Digit) == more.len(),
{
    reveal(Written::from_installments);
    reveal(Written::from_requested_at);
    lemma_first(w.requested_at_lead, "requested_at".spec_bytes(), quoted(w.requested_at) + w.from_average());
    step_count(d, head, w.installments_lead, "installments".spec_bytes(), w.installments, w.from_requested_at())
}

/// The field `requested_at` is read.
proof fn lemma_read_requested_at(d: Seq<u8>, head: Seq<u8>, w: Written) -> (more: Seq<u8>)
    requires
        w.valid(),
        d == head + w.from_requested_at(),
    ensures
        d == more + w.from_average(),
        string_at(d, after_key(d, head.len() as int, "requested_at".spec_bytes())) == w.requested_at,
        after_string(d, after_key(d, head.len() as int, "requested_at".spec_bytes())) == more.len(),
{
    reveal(Written::from_requested_at);
    step_text(d, head, w.requested_at_lead, "requested_at".spec_bytes(), w.requested_at, w.from_average())
}

/// The field `avg_amount` is read.
proof fn lemma_read_average(d: Seq<u8>, head: Seq<u8>, w: Written) -> (more: Seq<u8>)
    requires
        w.valid(),
        d == head + w.from_average(),
    ensures
        d == more + w.from_count(),
        number_at(d, after_key(d, head.len() as int, "avg_amount".spec_bytes())) == w.average,
        run_end(d, after_key(d, head.len() as int, "avg_amount".spec_bytes()), Class::Number) == more.len(),
{
    reveal(Written::from_average);
    reveal(Written::from_count);
    lemma_first(w.count_lead, "tx_count_24h".spec_bytes(), digits(w.count) + w.from_known());
    step_number(d, head, w.average_lead, "avg_amount".spec_bytes(), w.average, w.from_count())
}

/// The field `tx_count_24h` is read.
proof fn lemma_read_count(d: Seq<u8>, head: Seq<u8>, w: Written) -> (more: Seq<u8>)
    requires
        w.valid(),
        d == head + w.from_count(),
    ensures
        d == more + w.from_known(),
        decimal_run(d, after_key(d, head.len() as int, "tx_count_24h".spec_bytes())) == w.count,
        run_end(d, after_key(d, head.len() as int, "tx_count_24h".spec_bytes()), Class::Digit) == more.len(),
{
    reveal(Written::from_count);
    reveal(Written::from_known);
    lemma_first(w.known_lead, "known_merchants".spec_bytes(), (seq![91u8] + listed(w.known) + seq![93u8]) + w.from_id());
    step_count(d, head, w.count_lead, "tx_count_24h".spec_bytes(), w.count, w.from_known())
}

/// The field `known_merchants` is read.
proof fn lemma_read_known(d: Seq<u8>, head: Seq<u8>, w: Written) -> (more: Seq<u8>)
    requires
        w.valid(),
        d == head + w.from_known(),
    ensures
        d == more + w.from_id(),
        array_start(d, after_key(d, head.len() as int, "known_merchants".spec_bytes())) < d.len(),
        array_at(d, after_key(d, head.len() as int, "known_merchants".spec_bytes())) == listed(w.known),
        after_array(d, after_key(d, head.len() as int, "known_merchants".spec_bytes())) == more.len(),
{
    reveal(Written::from_known);
    step_names(d, head, w.known_lead, "known_merchants".spec_bytes(), w.known, w.from_id())
}

/// The field `id` is read.
proof fn lemma_read_id(d: Seq<u8>, head: Seq<u8>, w: Written) -> (more: Seq<u8>)
    requires
        w.valid(),
        d == head + w.from_id(),
    ensures
        d == more + w.from_mcc(),
        string_at(d, after_key(d, head.len() as int, "id".spec_bytes())) == w.id,
        after_string(d, after_key(d, head.len() as int, "id".spec_bytes())) == more.len(),
{
    reveal(Written::from_id);
    step_text(d, head, w.id_lead, "id".spec_bytes(), w.id, w.from_mcc())
}

/// The field `mcc` is read.
proof fn lemma_read_mcc(d: Seq<u8>, head: Seq<u8>, w: Written) -> (more: Seq<u8>)
    requires
        w.valid(),
        d == head + w.from_mcc(),
    ensures
        d == more + w.from_merchant_average(),
        string_at(d, after_key(d, head.len() as int, "mcc".spec_bytes())) == w.mcc,
        after_string(d, after_key(d, head.len() as int, "mcc".spec_bytes())) == more.len(),
{
    reveal(Written::from_mcc);
    step_text(d, head, w.mcc_lead, "mcc".spec_bytes(), w.mcc, w.from_merchant_average())
}

/// The field `avg_amount` is read.
proof fn lemma_read_merchant_average(d: Seq<u8>, head: Seq<u8>, w: Written) -> (more: Seq<u8>)
    requires
        w.valid(),
        d == head + w.from_merchant_average(),
    ensures
        d == more + w.from_online(),
        number_at(d, after_key(d, head.len() as int, "avg_amount".spec_bytes())) == w.merchant_average,
        run_end(d, after_key(d, head.len() as int, "avg_amount".spec_bytes()), Class::Number) == more.len(),
{
    reveal(Written::from_merchant_average);
    reveal(Written::from_online);
    lemma_first(w.online_lead, "is_online".spec_bytes(), truth(w.online) + w.from_card());
    step_number(d, head, w.merchant_average_lead, "avg_amount".spec_bytes(), w.merchant_average, w.from_online())
}

/// The field `is_online` is read.
proof fn lemma_read_online(d: Seq<u8>, head: Seq<u8>, w: Written) -> (more: Seq<u8>)
    requires
        w.valid(),
        d == head + w.from_online(),
    ensures
        d == more + w.from_card(),
        is_true(d, after_key(d, head.len() as int, "is_online".spec_bytes())) == w.online,
        after_bool(d, after_key(d, head.len() as int, "is_online".spec_bytes())) == more.len(),
        after_bool(d, after_key(d, head.len() as int, "is_online".spec_bytes())) <= d.len(),
{
    reveal(Written::from_online);
    step_truth(d, head, w.online_lead, "is_online".spec_bytes(), w.online, w.from_card())
}

/// The field `card_present` is read.
proof fn lemma_read_card(d: Seq<u8>, head: Seq<u8>, w: Written) -> (more: Seq<u8>)
    requires
        w.valid(),
        d == head + w.from_card(),
    ensures
        d == more + w.from_km(),
        is_true(d, after_key(d, head.len() as int, "card_present".spec_bytes())) == w.card,
        after_bool(d, after_key(d, head.len() as int, "card_present".spec_bytes())) == more.len(),
        after_bool(d, after_key(d, head.len() as int, "card_present".spec_bytes())) <= d.len(),
{
    reveal(Written::from_card);
    step_truth(d, head, w.card_lead, "card_present".spec_bytes(), w.card, w.from_km())
}

/// The field `km_from_home` is read.
proof fn lemma_read_km(d: Seq<u8>, head: Seq<u8>, w: Written) -> (more: Seq<u8>)
    requires
        w.valid(),
        d == head + w.from_km(),
    ensures
        d == more + w.last.text(),
        number_at(d, after_key(d, head.len() as int, "km_from_home".spec_bytes())) == w.km,
        run_end(d, after_key(d, head.len() as int, "km_from_home".spec_bytes()), Class::Number) == more.len(),
{
    reveal(Written::from_km);
    lemma_last_first(w.last);
    step_number(d, head, w.km_lead, "km_from_home".spec_bytes(), w.km, w.last.text())
}

/// Reading undoes writing: whatever stands between the fields, however much white space
/// there is around the colons, and whatever the values are, a written request is read as
/// what was written if the counts fit in 32 bits and the times are timestamps, and is not
/// read otherwise.
pub proof fn law_read_written(w: Written)
    requires
        w.valid(),
    ensures
        request_of(w.from_amount()) == if w.installments <= u32::MAX && w.count <= u32::MAX
            && is_timestamp(w.requested_at) && (w.last.said() is Some ==> is_timestamp(
            w.last.said().unwrap().timestamp,
        )) {
            Some(w.said())
        } else {
            None
        },
{
    let d = w.from_amount();
    let none = Seq::<u8>::empty();
    assert(d =~= none + d);
    let after_amount = lemma_read_amount(d, none, w);
    let after_installments = lemma_read_installments(d, after_amount, w);
    let after_requested_at = lemma_read_requested_at(d, after_installments, w);
    let after_average = lemma_read_average(d, after_requested_at, w);
    let after_count = lemma_read_count(d, after_average, w);
    let after_known = lemma_read_known(d, after_count, w);
    let after_id = lemma_read_id(d, after_known, w);
    let after_mcc = lemma_read_mcc(d, after_id, w);
    let after_merchant_average = lemma_read_merchant_average(d, after_mcc, w);
    let after_online = lemma_read_online(d, after_merchant_average, w);
    let after_card = lemma_read_card(d, after_online, w);
    let after_km = lemma_read_km(d, after_card, w);
    lemma_last_read(d, after_km, w.last);
    let r = request_at(d, layout(d));
    assert(r.last_transaction == w.last.said());
    assert(w.installments <= u32::MAX && w.count <= u32::MAX ==> r == w.said());
}

/// The last transaction does not go on a number.
proof fn lemma_last_first(last: LastWritten)
    requires
        last.valid(),
    ensures
        last.text().len() > 0 ==> !is_numeric(last.text()[0]),
{
    let key = "last_transaction".spec_bytes();
    match last {
        LastWritten::Missing { end } => {},
        LastWritten::Null { lead, end } => {
            lemma_first(lead, key, seq![110u8, 117, 108, 108] + end);
        },
        LastWritten::Given {
            lead,
            timestamp_lead,
            timestamp,
            km_lead,
            km_from_current,
            end,
        } => {
            lemma_first(
                lead,
                key,
                timestamp_lead.bytes("timestamp".spec_bytes()) + (quoted(timestamp) + (
                km_lead.bytes("km_from_current".spec_bytes()) + (km_from_current + end))),
            );
        },
    }
}

} // verus!
