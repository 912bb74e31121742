//! Values exchanged with clients and their encoding on the wire.
//!
//! A value is written as a RESP3-style frame: a marker byte (with, for an
//! integer, a second byte naming its width and signedness), a decimal
//! header, and `\r\n`; a string is followed by its UTF-8 bytes and `\r\n`,
//! an array by the frames of its members in order, and a set by the frames
//! of its members sorted byte-wise, so that the order in which a set lists
//! its members does not show. Every variant has its own lead bytes, so the
//! encoding tells any two different values apart.

use vstd::prelude::*;
use vstd::utf8::{encode_utf8, encode_utf8_decode_utf8};
use vstd::relations::{sorted_by, total_ordering};
use vstd::seq_lib::{lemma_sorted_unique, group_to_multiset_ensures};

verus! {

/// A value a client can store or fetch.
pub enum MinxValue {
    Bool(bool),
    UInt8(u8),
    Int8(i8),
    UInt16(u16),
    Int16(i16),
    UInt32(u32),
    Int32(i32),
    UInt64(u64),
    Int64(i64),
    String(String),
    Array(Vec<MinxValue>),
    /// The members of a set; a well-formed set holds no value twice.
    HashSet(Vec<MinxValue>),
}

/// The line terminator of every frame header.
pub open spec fn crlf() -> Seq<u8> {
    seq![13u8, 10u8]
}

/// The ASCII decimal digits of a natural number, most significant first.
pub open spec fn dec_bytes(n: nat) -> Seq<u8>
    decreases n,
{
    if n < 10 {
        seq![(48 + n) as u8]
    } else {
        dec_bytes(n / 10).push((48 + n % 10) as u8)
    }
}

/// The ASCII decimal rendering of an integer, with `-` when negative.
pub open spec fn int_bytes(n: int) -> Seq<u8> {
    if n < 0 {
        seq![45u8] + dec_bytes((-n) as nat)
    } else {
        dec_bytes(n as nat)
    }
}

/// A frame: its lead bytes, decimal `n`, `\r\n`, then `body`.
pub open spec fn frame(lead: Seq<u8>, n: int, body: Seq<u8>) -> Seq<u8> {
    lead + int_bytes(n) + crlf() + body
}

/// The lead bytes of an integer frame: `:` and a letter for the width,
/// lower case for unsigned and upper case for signed (`b`yte, `w`ord,
/// `d`ouble word, `q`uad word).
pub open spec fn int_lead(tag: u8) -> Seq<u8> {
    seq![58u8, tag]
}

/// The RESP3-style encoding of a value. Booleans are `#t` or `#f`;
/// integers are `:` frames whose second byte names the variant; strings
/// are `$` frames holding their UTF-8 bytes; arrays are `*` frames
/// followed by the encodings of their members in order, and sets `~` frames
/// followed by the encodings of their members sorted byte-wise.
pub open spec fn encode(v: MinxValue) -> Seq<u8>
    decreases v, 0int,
{
    match v {
        MinxValue::Bool(b) => seq![35u8, if b { 116u8 } else { 102u8 }] + crlf(),
        MinxValue::UInt8(n) => frame(int_lead(98u8), n as int, Seq::empty()),
        MinxValue::Int8(n) => frame(int_lead(66u8), n as int, Seq::empty()),
        MinxValue::UInt16(n) => frame(int_lead(119u8), n as int, Seq::empty()),
        MinxValue::Int16(n) => frame(int_lead(87u8), n as int, Seq::empty()),
        MinxValue::UInt32(n) => frame(int_lead(100u8), n as int, Seq::empty()),
        MinxValue::Int32(n) => frame(int_lead(68u8), n as int, Seq::empty()),
        MinxValue::UInt64(n) => frame(int_lead(113u8), n as int, Seq::empty()),
        MinxValue::Int64(n) => frame(int_lead(81u8), n as int, Seq::empty()),
        MinxValue::String(s) => frame(
            seq![36u8],
            encode_utf8(s@).len() as int,
            encode_utf8(s@) + crlf(),
        ),
        MinxValue::Array(items) => frame(seq![42u8], items@.len() as int, encode_all(items@)),
        MinxValue::HashSet(items) => frame(
            seq![126u8],
            items@.len() as int,
            canonical(encodings(items@)).flatten(),
        ),
    }
}

/// The encoding of each of `items`, in order.
pub open spec fn encodings(items: Seq<MinxValue>) -> Seq<Seq<u8>>
    decreases items, 1int,
{
    if items.len() == 0 {
        Seq::empty()
    } else {
        seq![encode(items[0])] + encodings(items.drop_first())
    }
}

/// `a` comes no later than `b` in byte-wise lexicographic order.
pub open spec fn bytes_leq(a: Seq<u8>, b: Seq<u8>) -> bool
    decreases a.len(),
{
    if a.len() == 0 {
        true
    } else if b.len() == 0 {
        false
    } else if a[0] < b[0] {
        true
    } else if a[0] > b[0] {
        false
    } else {
        bytes_leq(a.drop_first(), b.drop_first())
    }
}

/// The order in which the members of a set are written.
pub open spec fn byte_order() -> spec_fn(Seq<u8>, Seq<u8>) -> bool {
    |x: Seq<u8>, y: Seq<u8>| bytes_leq(x, y)
}

/// Member encodings in the order a set writes them: sorted byte-wise, so
/// that the order in which a set lists its members does not show.
pub open spec fn canonical(es: Seq<Seq<u8>>) -> Seq<Seq<u8>> {
    es.sort_by(byte_order())
}

/// The encodings of `items`, one after another.
pub open spec fn encode_all(items: Seq<MinxValue>) -> Seq<u8>
    decreases items, 1int,
{
    if items.len() == 0 {
        Seq::empty()
    } else {
        encode(items[0]) + encode_all(items.drop_first())
    }
}

/// `a` and `b` are the same value: the same variant holding the same
/// number or the same text, arrays whose members are pairwise the same
/// values, or sets each of whose members is the same value as some member
/// of the other.
pub open spec fn same_value(a: MinxValue, b: MinxValue) -> bool
    decreases a, 0int, 0int,
{
    match a {
        MinxValue::Bool(x) => b matches MinxValue::Bool(y) && x == y,
        MinxValue::UInt8(x) => b matches MinxValue::UInt8(y) && x == y,
        MinxValue::Int8(x) => b matches MinxValue::Int8(y) && x == y,
        MinxValue::UInt16(x) => b matches MinxValue::UInt16(y) && x == y,
        MinxValue::Int16(x) => b matches MinxValue::Int16(y) && x == y,
        MinxValue::UInt32(x) => b matches MinxValue::UInt32(y) && x == y,
        MinxValue::Int32(x) => b matches MinxValue::Int32(y) && x == y,
        MinxValue::UInt64(x) => b matches MinxValue::UInt64(y) && x == y,
        MinxValue::Int64(x) => b matches MinxValue::Int64(y) && x == y,
        MinxValue::String(x) => b matches MinxValue::String(y) && x@ == y@,
        MinxValue::Array(x) => b matches MinxValue::Array(y) && same_values(x@, y@),
        MinxValue::HashSet(x) => b matches MinxValue::HashSet(y) && all_matched(x@, y@)
            && all_reached(x@, y@),
    }
}

/// `sa` and `sb` have the same length and the same values, in order.
pub open spec fn same_values(sa: Seq<MinxValue>, sb: Seq<MinxValue>) -> bool
    decreases sa, 1int, 0int,
{
    if sa.len() != sb.len() {
        false
    } else if sa.len() == 0 {
        true
    } else {
        same_value(sa[0], sb[0]) && same_values(sa.drop_first(), sb.drop_first())
    }
}

/// `v` is the same value as some member of `y`.
pub open spec fn member_of(v: MinxValue, y: Seq<MinxValue>) -> bool
    decreases v, 1int, y.len(),
{
    if y.len() == 0 {
        false
    } else {
        same_value(v, y[0]) || member_of(v, y.drop_first())
    }
}

/// Some member of `x` is the same value as `w`.
pub open spec fn has_member(x: Seq<MinxValue>, w: MinxValue) -> bool
    decreases x, 1int, 0int,
{
    if x.len() == 0 {
        false
    } else {
        same_value(x[0], w) || has_member(x.drop_first(), w)
    }
}

/// Each of `x` is the same value as some member of `y`.
pub open spec fn all_matched(x: Seq<MinxValue>, y: Seq<MinxValue>) -> bool
    decreases x, 2int, 0int,
{
    if x.len() == 0 {
        true
    } else {
        member_of(x[0], y) && all_matched(x.drop_first(), y)
    }
}

/// Each of `y` is the same value as some member of `x`.
pub open spec fn all_reached(x: Seq<MinxValue>, y: Seq<MinxValue>) -> bool
    decreases x, 3int, y.len(),
{
    if y.len() == 0 {
        true
    } else {
        has_member(x, y[0]) && all_reached(x, y.drop_first())
    }
}

proof fn lemma_member_of(v: MinxValue, y: Seq<MinxValue>)
    ensures
        member_of(v, y) <==> exists|j: int| 0 <= j < y.len() && same_value(v, #[trigger] y[j]),
    decreases y.len(),
{
    if y.len() > 0 {
        lemma_member_of(v, y.drop_first());
        if exists|j: int| 0 <= j < y.len() && same_value(v, #[trigger] y[j]) {
            let j = choose|j: int| 0 <= j < y.len() && same_value(v, #[trigger] y[j]);
            if j > 0 {
                assert(y.drop_first()[j - 1] == y[j]);
            }
        }
        if member_of(v, y.drop_first()) {
            let j = choose|j: int| 0 <= j < y.drop_first().len() && same_value(v, #[trigger] y.drop_first()[j]);
            assert(y[j + 1] == y.drop_first()[j]);
        }
    }
}

proof fn lemma_has_member(x: Seq<MinxValue>, w: MinxValue)
    ensures
        has_member(x, w) <==> exists|i: int| 0 <= i < x.len() && same_value(#[trigger] x[i], w),
    decreases x.len(),
{
    if x.len() > 0 {
        lemma_has_member(x.drop_first(), w);
        if exists|i: int| 0 <= i < x.len() && same_value(#[trigger] x[i], w) {
            let i = choose|i: int| 0 <= i < x.len() && same_value(#[trigger] x[i], w);
            if i > 0 {
                assert(x.drop_first()[i - 1] == x[i]);
            }
        }
        if has_member(x.drop_first(), w) {
            let i = choose|i: int| 0 <= i < x.drop_first().len() && same_value(#[trigger] x.drop_first()[i], w);
            assert(x[i + 1] == x.drop_first()[i]);
        }
    }
}

/// The members of `x` and `y` match each other, said member by member.
proof fn lemma_sets_match(x: Seq<MinxValue>, y: Seq<MinxValue>)
    ensures
        all_matched(x, y) <==> forall|i: int|
            0 <= i < x.len() ==> exists|j: int| 0 <= j < y.len() && same_value(#[trigger] x[i], y[j]),
        all_reached(x, y) <==> forall|j: int|
            0 <= j < y.len() ==> exists|i: int| 0 <= i < x.len() && same_value(x[i], #[trigger] y[j]),
{
    lemma_all_matched(x, y);
    lemma_all_reached(x, y);
    assert forall|i: int| 0 <= i < x.len() implies (member_of(#[trigger] x[i], y) <==> exists|j: int|
        0 <= j < y.len() && same_value(x[i], y[j])) by {
        lemma_member_of(x[i], y);
    }
    assert forall|j: int| 0 <= j < y.len() implies (has_member(x, #[trigger] y[j]) <==> exists|i: int|
        0 <= i < x.len() && same_value(x[i], y[j])) by {
        lemma_has_member(x, y[j]);
    }
}

proof fn lemma_all_matched(x: Seq<MinxValue>, y: Seq<MinxValue>)
    ensures
        all_matched(x, y) <==> forall|i: int| 0 <= i < x.len() ==> member_of(#[trigger] x[i], y),
    decreases x.len(),
{
    if x.len() > 0 {
        lemma_all_matched(x.drop_first(), y);
        if forall|i: int| 0 <= i < x.len() ==> member_of(#[trigger] x[i], y) {
            assert forall|i: int| 0 <= i < x.drop_first().len() implies member_of(
                #[trigger] x.drop_first()[i],
                y,
            ) by {
                assert(x.drop_first()[i] == x[i + 1]);
            }
        }
        if all_matched(x, y) {
            assert forall|i: int| 0 <= i < x.len() implies member_of(#[trigger] x[i], y) by {
                if i > 0 {
                    assert(x.drop_first()[i - 1] == x[i]);
                }
            }
        }
    }
}

proof fn lemma_all_reached(x: Seq<MinxValue>, y: Seq<MinxValue>)
    ensures
        all_reached(x, y) <==> forall|j: int| 0 <= j < y.len() ==> has_member(x, #[trigger] y[j]),
    decreases y.len(),
{
    if y.len() > 0 {
        lemma_all_reached(x, y.drop_first());
        if forall|j: int| 0 <= j < y.len() ==> has_member(x, #[trigger] y[j]) {
            assert forall|j: int| 0 <= j < y.drop_first().len() implies has_member(
                x,
                #[trigger] y.drop_first()[j],
            ) by {
                assert(y.drop_first()[j] == y[j + 1]);
            }
        }
        if all_reached(x, y) {
            assert forall|j: int| 0 <= j < y.len() implies has_member(x, #[trigger] y[j]) by {
                if j > 0 {
                    assert(y.drop_first()[j - 1] == y[j]);
                }
            }
        }
    }
}

/// No byte of `s` is a carriage return.
pub open spec fn no_cr(s: Seq<u8>) -> bool {
    forall|i: int| 0 <= i < s.len() ==> #[trigger] s[i] != 13u8
}

/// Every byte of `s` is an ASCII digit.
pub open spec fn digit_bytes(s: Seq<u8>) -> bool {
    forall|i: int| 0 <= i < s.len() ==> 48 <= #[trigger] s[i] <= 57
}

/// The value of a string of ASCII digits.
pub open spec fn bytes_value(s: Seq<u8>) -> int
    decreases s.len(),
{
    if s.len() == 0 {
        0
    } else {
        10 * bytes_value(s.drop_last()) + (s.last() - 48)
    }
}

proof fn lemma_dec_bytes(n: nat)
    ensures
        dec_bytes(n).len() >= 1,
        digit_bytes(dec_bytes(n)),
        bytes_value(dec_bytes(n)) == n,
    decreases n,
{
    let d = dec_bytes(n);
    if n >= 10 {
        lemma_dec_bytes(n / 10);
        assert(d.drop_last() =~= dec_bytes(n / 10));
        assert(10 * (n / 10) + n % 10 == n);
    } else {
        assert(d.drop_last() =~= Seq::<u8>::empty());
        assert(bytes_value(d.drop_last()) == 0);
    }
}

proof fn lemma_int_bytes(n: int)
    ensures
        int_bytes(n).len() >= 1,
        no_cr(int_bytes(n)),
        (int_bytes(n)[0] == 45u8) == (n < 0),
{
    if n < 0 {
        lemma_dec_bytes((-n) as nat);
        let d = dec_bytes((-n) as nat);
        assert forall|i: int| 0 <= i < int_bytes(n).len() implies #[trigger] int_bytes(n)[i] != 13u8 by {
            if i > 0 {
                assert(int_bytes(n)[i] == d[i - 1]);
            }
        }
    } else {
        lemma_dec_bytes(n as nat);
        let d = dec_bytes(n as nat);
        assert(48 <= d[0] <= 57);
        assert forall|i: int| 0 <= i < d.len() implies #[trigger] d[i] != 13u8 by {
            assert(48 <= d[i] <= 57);
        }
    }
}

/// Different integers are written differently.
proof fn lemma_int_bytes_injective(n: int, m: int)
    requires
        int_bytes(n) == int_bytes(m),
    ensures
        n == m,
{
    lemma_int_bytes(n);
    lemma_int_bytes(m);
    if n < 0 {
        lemma_dec_bytes((-n) as nat);
        lemma_dec_bytes((-m) as nat);
        assert(int_bytes(n).drop_first() =~= dec_bytes((-n) as nat));
        assert(int_bytes(m).drop_first() =~= dec_bytes((-m) as nat));
    } else {
        lemma_dec_bytes(n as nat);
        lemma_dec_bytes(m as nat);
    }
}

/// Two byte strings cut at their first carriage return agree before and
/// after it.
proof fn lemma_split_at_cr(x: Seq<u8>, y: Seq<u8>, p: Seq<u8>, q: Seq<u8>)
    requires
        no_cr(x),
        no_cr(y),
        x + seq![13u8] + p == y + seq![13u8] + q,
    ensures
        x == y,
        p == q,
{
    let l = x + seq![13u8] + p;
    let r = y + seq![13u8] + q;
    if x.len() < y.len() {
        assert(l[x.len() as int] == 13u8);
        assert(r[x.len() as int] == y[x.len() as int]);
    } else if y.len() < x.len() {
        assert(r[y.len() as int] == 13u8);
        assert(l[y.len() as int] == x[y.len() as int]);
    }
    assert(x =~= l.subrange(0, x.len() as int));
    assert(y =~= r.subrange(0, y.len() as int));
    assert(p =~= l.subrange(x.len() as int + 1, l.len() as int));
    assert(q =~= r.subrange(y.len() as int + 1, r.len() as int));
}

/// Two frames with lead bytes of one length agree in lead, number and body.
proof fn lemma_frame(l1: Seq<u8>, n1: int, b1: Seq<u8>, l2: Seq<u8>, n2: int, b2: Seq<u8>)
    requires
        l1.len() == l2.len(),
        no_cr(l1),
        no_cr(l2),
        frame(l1, n1, b1) == frame(l2, n2, b2),
    ensures
        l1 == l2,
        n1 == n2,
        b1 == b2,
{
    lemma_int_bytes(n1);
    lemma_int_bytes(n2);
    let x1 = l1 + int_bytes(n1);
    let x2 = l2 + int_bytes(n2);
    assert forall|i: int| 0 <= i < x1.len() implies #[trigger] x1[i] != 13u8 by {
        if i >= l1.len() {
            assert(x1[i] == int_bytes(n1)[i - l1.len()]);
        }
    }
    assert forall|i: int| 0 <= i < x2.len() implies #[trigger] x2[i] != 13u8 by {
        if i >= l2.len() {
            assert(x2[i] == int_bytes(n2)[i - l2.len()]);
        }
    }
    assert(frame(l1, n1, b1) =~= x1 + seq![13u8] + (seq![10u8] + b1));
    assert(frame(l2, n2, b2) =~= x2 + seq![13u8] + (seq![10u8] + b2));
    lemma_split_at_cr(x1, x2, seq![10u8] + b1, seq![10u8] + b2);
    assert(l1 =~= x1.subrange(0, l1.len() as int));
    assert(l2 =~= x2.subrange(0, l2.len() as int));
    assert(int_bytes(n1) =~= x1.subrange(l1.len() as int, x1.len() as int));
    assert(int_bytes(n2) =~= x2.subrange(l2.len() as int, x2.len() as int));
    lemma_int_bytes_injective(n1, n2);
    assert(b1 =~= (seq![10u8] + b1).drop_first());
    assert(b2 =~= (seq![10u8] + b2).drop_first());
}

proof fn lemma_bytes_leq_refl(a: Seq<u8>)
    ensures
        bytes_leq(a, a),
    decreases a.len(),
{
    if a.len() > 0 {
        lemma_bytes_leq_refl(a.drop_first());
    }
}

proof fn lemma_bytes_leq_antisym(a: Seq<u8>, b: Seq<u8>)
    requires
        bytes_leq(a, b),
        bytes_leq(b, a),
    ensures
        a == b,
    decreases a.len(),
{
    if a.len() > 0 && b.len() > 0 {
        lemma_bytes_leq_antisym(a.drop_first(), b.drop_first());
        assert(a =~= seq![a[0]] + a.drop_first());
        assert(b =~= seq![b[0]] + b.drop_first());
    } else {
        assert(a =~= b);
    }
}

proof fn lemma_bytes_leq_trans(a: Seq<u8>, b: Seq<u8>, c: Seq<u8>)
    requires
        bytes_leq(a, b),
        bytes_leq(b, c),
    ensures
        bytes_leq(a, c),
    decreases a.len(),
{
    if a.len() > 0 && b.len() > 0 && c.len() > 0 {
        if a[0] == b[0] && b[0] == c[0] {
            lemma_bytes_leq_trans(a.drop_first(), b.drop_first(), c.drop_first());
        }
    }
}

proof fn lemma_bytes_leq_total(a: Seq<u8>, b: Seq<u8>)
    ensures
        bytes_leq(a, b) || bytes_leq(b, a),
    decreases a.len(),
{
    if a.len() > 0 && b.len() > 0 {
        lemma_bytes_leq_total(a.drop_first(), b.drop_first());
    }
}

/// Byte-wise lexicographic order is a total order.
proof fn lemma_byte_order_total()
    ensures
        total_ordering(byte_order()),
{
    let r = byte_order();
    assert forall|x: Seq<u8>| #[trigger] r(x, x) by {
        lemma_bytes_leq_refl(x);
    }
    assert forall|x: Seq<u8>, y: Seq<u8>| #[trigger] r(x, y) && #[trigger] r(y, x) implies x == y by {
        lemma_bytes_leq_antisym(x, y);
    }
    assert forall|x: Seq<u8>, y: Seq<u8>, z: Seq<u8>| #[trigger] r(x, y) && #[trigger] r(y, z) implies r(x, z) by {
        lemma_bytes_leq_trans(x, y, z);
    }
    assert forall|x: Seq<u8>, y: Seq<u8>| #[trigger] r(x, y) || #[trigger] r(y, x) by {
        lemma_bytes_leq_total(x, y);
    }
}

/// The encodings of a list are its members' encodings, position by position.
proof fn lemma_encodings(s: Seq<MinxValue>)
    ensures
        encodings(s).len() == s.len(),
        forall|j: int| 0 <= j < s.len() ==> #[trigger] encodings(s)[j] == encode(s[j]),
    decreases s.len(),
{
    if s.len() > 0 {
        lemma_encodings(s.drop_first());
        assert forall|j: int| 0 <= j < s.len() implies #[trigger] encodings(s)[j] == encode(s[j]) by {
            if j > 0 {
                assert(encodings(s)[j] == encodings(s.drop_first())[j - 1]);
            }
        }
    }
}

/// A set writes each member's encoding once per member, and nothing else.
proof fn lemma_canonical(s: Seq<MinxValue>)
    ensures
        canonical(encodings(s)).len() == s.len(),
        canonical(encodings(s)).to_multiset() == encodings(s).to_multiset(),
        sorted_by(canonical(encodings(s)), byte_order()),
        forall|k: int|
            0 <= k < s.len() ==> exists|j: int|
                0 <= j < s.len() && #[trigger] canonical(encodings(s))[k] == encode(s[j]),
        forall|j: int| 0 <= j < s.len() ==> canonical(encodings(s)).contains(#[trigger] encode(s[j])),
{
    broadcast use group_to_multiset_ensures;

    let e = encodings(s);
    let c = canonical(e);
    lemma_encodings(s);
    lemma_byte_order_total();
    e.lemma_sort_by_ensures(byte_order());
    assert(c.len() == e.len()) by {
        assert(c.to_multiset().len() == e.to_multiset().len());
    }
    assert forall|k: int| 0 <= k < s.len() implies exists|j: int|
        0 <= j < s.len() && #[trigger] c[k] == encode(s[j]) by {
        assert(c.to_multiset().count(c[k]) > 0);
        assert(e.contains(c[k]));
        let j = choose|j: int| 0 <= j < e.len() && e[j] == c[k];
        assert(c[k] == encode(s[j]));
    }
    assert forall|j: int| 0 <= j < s.len() implies c.contains(#[trigger] encode(s[j])) by {
        assert(e[j] == encode(s[j]));
        assert(e.contains(encode(s[j])));
        assert(e.to_multiset().count(encode(s[j])) > 0);
    }
}

/// The first bytes of a value's encoding: two for a boolean or an
/// integer, one otherwise.
pub open spec fn lead(v: MinxValue) -> Seq<u8> {
    match v {
        MinxValue::Bool(b) => seq![35u8, if b { 116u8 } else { 102u8 }],
        MinxValue::UInt8(_) => int_lead(98u8),
        MinxValue::Int8(_) => int_lead(66u8),
        MinxValue::UInt16(_) => int_lead(119u8),
        MinxValue::Int16(_) => int_lead(87u8),
        MinxValue::UInt32(_) => int_lead(100u8),
        MinxValue::Int32(_) => int_lead(68u8),
        MinxValue::UInt64(_) => int_lead(113u8),
        MinxValue::Int64(_) => int_lead(81u8),
        MinxValue::String(_) => seq![36u8],
        MinxValue::Array(_) => seq![42u8],
        MinxValue::HashSet(_) => seq![126u8],
    }
}

proof fn lemma_lead(v: MinxValue)
    ensures
        encode(v).len() >= lead(v).len(),
        encode(v).subrange(0, lead(v).len() as int) == lead(v),
        no_cr(lead(v)),
{
    assert(encode(v).subrange(0, lead(v).len() as int) =~= lead(v));
}

/// Encodings that agree as far as the longer runs agree in their lead bytes.
proof fn lemma_same_lead(a: MinxValue, b: MinxValue, ra: Seq<u8>, rb: Seq<u8>)
    requires
        encode(a) + ra == encode(b) + rb,
    ensures
        lead(a) == lead(b),
{
    let x = encode(a) + ra;
    lemma_lead(a);
    lemma_lead(b);
    let la = lead(a);
    let lb = lead(b);
    assert(x[0] == la[0]) by {
        assert(x[0] == encode(a)[0]);
        assert(encode(a)[0] == encode(a).subrange(0, la.len() as int)[0]);
    }
    assert(x[0] == lb[0]) by {
        assert((encode(b) + rb)[0] == encode(b)[0]);
        assert(encode(b)[0] == encode(b).subrange(0, lb.len() as int)[0]);
    }
    if la.len() == 2 && lb.len() == 2 {
        assert(x[1] == la[1]) by {
            assert(x[1] == encode(a)[1]);
            assert(encode(a)[1] == encode(a).subrange(0, 2)[1]);
        }
        assert(x[1] == lb[1]) by {
            assert((encode(b) + rb)[1] == encode(b)[1]);
            assert(encode(b)[1] == encode(b).subrange(0, 2)[1]);
        }
        assert(la =~= lb);
    } else if la.len() == 1 && lb.len() == 1 {
        assert(la =~= lb);
    }
}

proof fn lemma_prefix_free_scalar(a: MinxValue, b: MinxValue, ra: Seq<u8>, rb: Seq<u8>)
    requires
        encode(a) + ra == encode(b) + rb,
        lead(a) == lead(b),
        !(a is String),
        !(a is Array),
        !(a is HashSet),
    ensures
        same_value(a, b),
        ra == rb,
{
    let la = lead(a);
    lemma_lead(a);
    if a is Bool {
        let x = encode(a) + ra;
        assert(encode(a) =~= encode(b));
        assert(ra =~= x.subrange(4, x.len() as int));
        assert(rb =~= (encode(b) + rb).subrange(4, x.len() as int));
    } else {
        let na = int_value(a);
        let nb = int_value(b);
        assert(encode(a) + ra =~= frame(la, na, ra));
        assert(encode(b) + rb =~= frame(la, nb, rb));
        lemma_frame(la, na, ra, la, nb, rb);
    }
}

proof fn lemma_prefix_free_string(s: String, t: String, ra: Seq<u8>, rb: Seq<u8>)
    requires
        encode(MinxValue::String(s)) + ra == encode(MinxValue::String(t)) + rb,
    ensures
        s@ == t@,
        ra == rb,
{
    let l = seq![36u8];
    let ua = encode_utf8(s@);
    let ub = encode_utf8(t@);
    assert(encode(MinxValue::String(s)) + ra =~= frame(l, ua.len() as int, ua + crlf() + ra));
    assert(encode(MinxValue::String(t)) + rb =~= frame(l, ub.len() as int, ub + crlf() + rb));
    lemma_frame(l, ua.len() as int, ua + crlf() + ra, l, ub.len() as int, ub + crlf() + rb);
    let w = ua + crlf() + ra;
    assert(ua =~= w.subrange(0, ua.len() as int));
    assert(ub =~= (ub + crlf() + rb).subrange(0, ub.len() as int));
    assert(ra =~= w.subrange(ua.len() as int + 2, w.len() as int));
    assert(rb =~= (ub + crlf() + rb).subrange(ub.len() as int + 2, w.len() as int));
    encode_utf8_decode_utf8(s@);
    encode_utf8_decode_utf8(t@);
}

/// The encodings of two values agree only where the values are the same
/// value and what follows them agrees too: the encoding is prefix-free.
proof fn lemma_encode_prefix_free(a: MinxValue, b: MinxValue, ra: Seq<u8>, rb: Seq<u8>)
    requires
        encode(a) + ra == encode(b) + rb,
    ensures
        same_value(a, b),
        ra == rb,
    decreases a, 0int, 0int,
{
    lemma_same_lead(a, b, ra, rb);
    let la = lead(a);
    match a {
        MinxValue::String(s) => {
            assert(lead(b).len() == 1 && lead(b)[0] == 36u8);
            if let MinxValue::String(t) = b {
                lemma_prefix_free_string(s, t, ra, rb);
            }
        },
        MinxValue::Array(ia) => {
            assert(lead(b).len() == 1 && lead(b)[0] == 42u8);
            if let MinxValue::Array(ib) = b {
                assert(encode(a) + ra =~= frame(la, ia@.len() as int, encode_all(ia@) + ra));
                assert(encode(b) + rb =~= frame(la, ib@.len() as int, encode_all(ib@) + rb));
                lemma_frame(la, ia@.len() as int, encode_all(ia@) + ra, la, ib@.len() as int, encode_all(ib@) + rb);
                lemma_encode_all_prefix_free(ia@, ib@, ra, rb);
            }
        },
        MinxValue::HashSet(ia) => {
            assert(lead(b).len() == 1 && lead(b)[0] == 126u8);
            if let MinxValue::HashSet(ib) = b {
                assert(encode(a) + ra =~= frame(la, ia@.len() as int, canonical(encodings(ia@)).flatten() + ra));
                assert(encode(b) + rb =~= frame(la, ib@.len() as int, canonical(encodings(ib@)).flatten() + rb));
                lemma_frame(
                    la,
                    ia@.len() as int,
                    canonical(encodings(ia@)).flatten() + ra,
                    la,
                    ib@.len() as int,
                    canonical(encodings(ib@)).flatten() + rb,
                );
                lemma_prefix_free_members(ia@, ib@, ra, rb);
            }
        },
        _ => {
            lemma_prefix_free_scalar(a, b, ra, rb);
        },
    }
}

/// The number an integer value holds.
pub open spec fn int_value(v: MinxValue) -> int {
    match v {
        MinxValue::UInt8(n) => n as int,
        MinxValue::Int8(n) => n as int,
        MinxValue::UInt16(n) => n as int,
        MinxValue::Int16(n) => n as int,
        MinxValue::UInt32(n) => n as int,
        MinxValue::Int32(n) => n as int,
        MinxValue::UInt64(n) => n as int,
        MinxValue::Int64(n) => n as int,
        _ => 0,
    }
}

proof fn lemma_encode_all_prefix_free(sa: Seq<MinxValue>, sb: Seq<MinxValue>, ra: Seq<u8>, rb: Seq<u8>)
    requires
        sa.len() == sb.len(),
        encode_all(sa) + ra == encode_all(sb) + rb,
    ensures
        same_values(sa, sb),
        ra == rb,
    decreases sa, 1int, 0int,
{
    if sa.len() == 0 {
        assert(ra =~= encode_all(sa) + ra);
        assert(rb =~= encode_all(sb) + rb);
    } else {
        let ta = encode_all(sa.drop_first()) + ra;
        let tb = encode_all(sb.drop_first()) + rb;
        assert(encode_all(sa) + ra =~= encode(sa[0]) + ta);
        assert(encode_all(sb) + rb =~= encode(sb[0]) + tb);
        lemma_encode_prefix_free(sa[0], sb[0], ta, tb);
        lemma_encode_all_prefix_free(sa.drop_first(), sb.drop_first(), ra, rb);
    }
}

/// The members of two sets written alike match each other.
proof fn lemma_prefix_free_members(ia: Seq<MinxValue>, ib: Seq<MinxValue>, ra: Seq<u8>, rb: Seq<u8>)
    requires
        ia.len() == ib.len(),
        canonical(encodings(ia)).flatten() + ra == canonical(encodings(ib)).flatten() + rb,
    ensures
        all_matched(ia, ib),
        all_reached(ia, ib),
        ra == rb,
    decreases ia, 2int, 0int,
{
    let ca = canonical(encodings(ia));
    let cb = canonical(encodings(ib));
    lemma_canonical(ia);
    lemma_canonical(ib);
    lemma_sorted_prefix_free(ia, ib, ca, cb, ra, rb);
    lemma_sets_match(ia, ib);
    assert forall|i: int| 0 <= i < ia.len() implies exists|j: int|
        0 <= j < ib.len() && same_value(#[trigger] ia[i], ib[j]) by {
        assert(cb.contains(encode(ia[i])));
        let k = choose|k: int| 0 <= k < cb.len() && cb[k] == encode(ia[i]);
        let j = choose|j: int| 0 <= j < ib.len() && #[trigger] cb[k] == encode(ib[j]);
        assert(encode(ia[i]) + Seq::<u8>::empty() =~= encode(ib[j]) + Seq::<u8>::empty());
        lemma_encode_prefix_free(ia[i], ib[j], Seq::empty(), Seq::empty());
    }
    assert forall|j: int| 0 <= j < ib.len() implies exists|i: int|
        0 <= i < ia.len() && same_value(ia[i], #[trigger] ib[j]) by {
        assert(ca.contains(encode(ib[j])));
        let k = choose|k: int| 0 <= k < ca.len() && ca[k] == encode(ib[j]);
        let i = choose|i: int| 0 <= i < ia.len() && #[trigger] ca[k] == encode(ia[i]);
        assert(encode(ia[i]) + Seq::<u8>::empty() =~= encode(ib[j]) + Seq::<u8>::empty());
        lemma_encode_prefix_free(ia[i], ib[j], Seq::empty(), Seq::empty());
    }
}

/// Two runs of member encodings, each drawn from a list of values, that
/// agree as written agree member by member.
proof fn lemma_sorted_prefix_free(
    ia: Seq<MinxValue>,
    ib: Seq<MinxValue>,
    ca: Seq<Seq<u8>>,
    cb: Seq<Seq<u8>>,
    ra: Seq<u8>,
    rb: Seq<u8>,
)
    requires
        ca.len() == cb.len(),
        forall|k: int|
            0 <= k < ca.len() ==> exists|j: int| 0 <= j < ia.len() && #[trigger] ca[k] == encode(ia[j]),
        forall|k: int|
            0 <= k < cb.len() ==> exists|j: int| 0 <= j < ib.len() && #[trigger] cb[k] == encode(ib[j]),
        ca.flatten() + ra == cb.flatten() + rb,
    ensures
        ca == cb,
        ra == rb,
    decreases ia, 1int, ca.len(),
{
    if ca.len() == 0 {
        assert(ra =~= ca.flatten() + ra);
        assert(rb =~= cb.flatten() + rb);
        assert(ca =~= cb);
    } else {
        let j = choose|j: int| 0 <= j < ia.len() && #[trigger] ca[0] == encode(ia[j]);
        let k = choose|k: int| 0 <= k < ib.len() && #[trigger] cb[0] == encode(ib[k]);
        let ta = ca.drop_first().flatten() + ra;
        let tb = cb.drop_first().flatten() + rb;
        assert(ca.flatten() + ra =~= encode(ia[j]) + ta);
        assert(cb.flatten() + rb =~= encode(ib[k]) + tb);
        lemma_encode_prefix_free(ia[j], ib[k], ta, tb);
        let w = encode(ia[j]) + ta;
        assert(encode(ia[j]) =~= w.subrange(0, w.len() - ta.len()));
        assert(encode(ib[k]) =~= (encode(ib[k]) + tb).subrange(0, w.len() - tb.len()));
        assert forall|q: int| 0 <= q < ca.drop_first().len() implies exists|j2: int|
            0 <= j2 < ia.len() && #[trigger] ca.drop_first()[q] == encode(ia[j2]) by {
            assert(ca.drop_first()[q] == ca[q + 1]);
        }
        assert forall|q: int| 0 <= q < cb.drop_first().len() implies exists|j2: int|
            0 <= j2 < ib.len() && #[trigger] cb.drop_first()[q] == encode(ib[j2]) by {
            assert(cb.drop_first()[q] == cb[q + 1]);
        }
        lemma_sorted_prefix_free(ia, ib, ca.drop_first(), cb.drop_first(), ra, rb);
        assert(ca =~= seq![ca[0]] + ca.drop_first());
        assert(cb =~= seq![cb[0]] + cb.drop_first());
    }
}

/// Two values written alike are the same value, so a receiver can always
/// tell apart values that differ in variant, number, text or members; and
/// two well-formed values that are the same value are written alike,
/// whatever order their sets list their members in.
pub proof fn lemma_encode_injective(a: MinxValue, b: MinxValue)
    ensures
        encode(a) == encode(b) ==> same_value(a, b),
        well_formed(a) && well_formed(b) && same_value(a, b) ==> encode(a) == encode(b),
{
    if encode(a) == encode(b) {
        assert(encode(a) + Seq::<u8>::empty() =~= encode(b) + Seq::<u8>::empty());
        lemma_encode_prefix_free(a, b, Seq::empty(), Seq::empty());
    }
    if well_formed(a) && well_formed(b) && same_value(a, b) {
        lemma_same_value_encodes_alike(a, b);
    }
}

/// In a well-formed set no two members are written alike.
proof fn lemma_member_encodings_distinct(s: Seq<MinxValue>)
    requires
        forall|i: int, j: int| 0 <= i < j < s.len() ==> !same_value(#[trigger] s[i], #[trigger] s[j]),
    ensures
        encodings(s).no_duplicates(),
{
    lemma_encodings(s);
    let e = encodings(s);
    assert forall|i: int, j: int| 0 <= i < e.len() && 0 <= j < e.len() && i != j implies e[i] != e[j] by {
        if e[i] == e[j] {
            let (p, q) = if i < j { (i, j) } else { (j, i) };
            assert(encode(s[p]) + Seq::<u8>::empty() =~= encode(s[q]) + Seq::<u8>::empty());
            lemma_encode_prefix_free(s[p], s[q], Seq::empty(), Seq::empty());
        }
    }
}

/// Two lists without repeats that hold the same elements hold them the same
/// number of times.
proof fn lemma_same_elements_same_multiset(x: Seq<Seq<u8>>, y: Seq<Seq<u8>>)
    requires
        x.no_duplicates(),
        y.no_duplicates(),
        forall|e: Seq<u8>| x.contains(e) <==> y.contains(e),
    ensures
        x.to_multiset() == y.to_multiset(),
{
    broadcast use group_to_multiset_ensures;

    x.lemma_multiset_has_no_duplicates();
    y.lemma_multiset_has_no_duplicates();
    assert forall|e: Seq<u8>| x.to_multiset().count(e) == y.to_multiset().count(e) by {
        if x.contains(e) {
            assert(x.to_multiset().count(e) > 0);
            assert(y.to_multiset().count(e) > 0);
        } else {
            assert(x.to_multiset().count(e) == 0);
            assert(y.to_multiset().count(e) == 0);
        }
    }
    assert(x.to_multiset() =~= y.to_multiset());
}

proof fn lemma_same_value_encodes_alike(a: MinxValue, b: MinxValue)
    requires
        well_formed(a),
        well_formed(b),
        same_value(a, b),
    ensures
        encode(a) == encode(b),
    decreases a, 0int,
{
    match a {
        MinxValue::Array(ia) => {
            if let MinxValue::Array(ib) = b {
                lemma_same_values_encode_alike(ia@, ib@);
                lemma_same_values_pointwise(ia@, ib@);
            }
        },
        MinxValue::HashSet(ia) => {
            if let MinxValue::HashSet(ib) = b {
                assert(all_well_formed(ia@) && all_well_formed(ib@));
                assert(all_matched(ia@, ib@) && all_reached(ia@, ib@));
                lemma_members_encode_alike(ia@, ib@);
                assert(encode(a) == frame(seq![126u8], ia@.len() as int, canonical(encodings(ia@)).flatten()));
                assert(encode(b) == frame(seq![126u8], ib@.len() as int, canonical(encodings(ib@)).flatten()));
            }
        },
        _ => {},
    }
}

/// Two well-formed sets whose members match each other write the same
/// member encodings, in the same order, after headers of the same count.
proof fn lemma_members_encode_alike(ia: Seq<MinxValue>, ib: Seq<MinxValue>)
    requires
        all_well_formed(ia),
        all_well_formed(ib),
        forall|i: int, j: int| 0 <= i < j < ia.len() ==> !same_value(#[trigger] ia[i], #[trigger] ia[j]),
        forall|i: int, j: int| 0 <= i < j < ib.len() ==> !same_value(#[trigger] ib[i], #[trigger] ib[j]),
        all_matched(ia, ib),
        all_reached(ia, ib),
    ensures
        ia.len() == ib.len(),
        canonical(encodings(ia)) == canonical(encodings(ib)),
    decreases ia, 2int,
{
    broadcast use group_to_multiset_ensures;

    lemma_sets_match(ia, ib);
    let ea = encodings(ia);
    let eb = encodings(ib);
    lemma_encodings(ia);
    lemma_encodings(ib);
    lemma_all_well_formed_pointwise(ia);
    lemma_all_well_formed_pointwise(ib);
    lemma_member_encodings_distinct(ia);
    lemma_member_encodings_distinct(ib);
    assert forall|e: Seq<u8>| ea.contains(e) implies eb.contains(e) by {
        let i = choose|i: int| 0 <= i < ea.len() && ea[i] == e;
        assert(exists|j: int| 0 <= j < ib.len() && same_value(ia[i], ib[j]));
        let j = choose|j: int| 0 <= j < ib.len() && same_value(ia[i], ib[j]);
        assert(well_formed(ia[i]) && well_formed(ib[j]));
        lemma_same_value_encodes_alike(ia[i], ib[j]);
        assert(eb[j] == e);
    }
    assert forall|e: Seq<u8>| eb.contains(e) implies ea.contains(e) by {
        let j = choose|j: int| 0 <= j < eb.len() && eb[j] == e;
        assert(exists|i: int| 0 <= i < ia.len() && same_value(ia[i], ib[j]));
        let i = choose|i: int| 0 <= i < ia.len() && same_value(ia[i], ib[j]);
        assert(well_formed(ia[i]) && well_formed(ib[j]));
        lemma_same_value_encodes_alike(ia[i], ib[j]);
        assert(ea[i] == e);
    }
    lemma_same_elements_same_multiset(ea, eb);
    lemma_canonical(ia);
    lemma_canonical(ib);
    lemma_byte_order_total();
    lemma_sorted_unique(canonical(ea), canonical(eb), byte_order());
    assert(ea.to_multiset().len() == eb.to_multiset().len());
}

proof fn lemma_same_values_encode_alike(sa: Seq<MinxValue>, sb: Seq<MinxValue>)
    requires
        all_well_formed(sa),
        all_well_formed(sb),
        same_values(sa, sb),
    ensures
        encode_all(sa) == encode_all(sb),
    decreases sa, 1int,
{
    if sa.len() > 0 {
        lemma_same_value_encodes_alike(sa[0], sb[0]);
        lemma_same_values_encode_alike(sa.drop_first(), sb.drop_first());
    }
}

/// Appending a member appends its encoding.
proof fn lemma_encode_all_push(s: Seq<MinxValue>, v: MinxValue)
    ensures
        encode_all(s.push(v)) == encode_all(s) + encode(v),
    decreases s.len(),
{
    if s.len() == 0 {
        assert(s.push(v).drop_first() =~= Seq::<MinxValue>::empty());
        assert(s.push(v)[0] == v);
        assert(encode_all(Seq::<MinxValue>::empty()) == Seq::<u8>::empty());
        assert(encode_all(s) == Seq::<u8>::empty());
        assert(encode_all(s.push(v)) =~= encode(v) + encode_all(Seq::<MinxValue>::empty()));
    } else {
        assert(s.push(v).drop_first() =~= s.drop_first().push(v));
        lemma_encode_all_push(s.drop_first(), v);
        assert(encode_all(s.push(v)) =~= encode_all(s) + encode(v));
    }
}

/// The members of every set inside `v` are pairwise different values.
pub open spec fn well_formed(v: MinxValue) -> bool
    decreases v, 0int,
{
    match v {
        MinxValue::Array(items) => all_well_formed(items@),
        MinxValue::HashSet(items) => all_well_formed(items@) && forall|i: int, j: int|
            0 <= i < j < items@.len() ==> !same_value(#[trigger] items@[i], #[trigger] items@[j]),
        _ => true,
    }
}

/// Every value of `items` is well formed.
pub open spec fn all_well_formed(items: Seq<MinxValue>) -> bool
    decreases items, 1int,
{
    if items.len() == 0 {
        true
    } else {
        well_formed(items[0]) && all_well_formed(items.drop_first())
    }
}

/// Appends the ASCII decimal digits of `n`.
fn push_dec_bytes(out: &mut Vec<u8>, n: u64)
    ensures
        final(out)@ == old(out)@ + dec_bytes(n as nat),
    decreases n,
{
    let ghost start = out@;
    if n >= 10 {
        push_dec_bytes(out, n / 10);
    }
    out.push((48 + n % 10) as u8);
    proof {
        if n >= 10 {
            assert(out@ =~= start + dec_bytes(n as nat));
        } else {
            assert(dec_bytes(n as nat) == seq![(48 + n) as u8]);
            assert(out@ =~= start + dec_bytes(n as nat));
        }
    }
}

/// Appends decimal `n` and `\r\n`: the rest of a frame after its lead.
fn push_number_line(out: &mut Vec<u8>, n: i128)
    requires
        -0x1_0000_0000_0000_0000 < n < 0x1_0000_0000_0000_0000,
    ensures
        final(out)@ == old(out)@ + int_bytes(n as int) + crlf(),
{
    let ghost start = out@;
    if n < 0 {
        out.push(45u8);
        push_dec_bytes(out, (-n) as u64);
    } else {
        push_dec_bytes(out, n as u64);
    }
    out.push(13u8);
    out.push(10u8);
    assert(out@ =~= start + int_bytes(n as int) + crlf());
}

/// Appends an integer frame with width letter `tag`.
fn push_int_frame(out: &mut Vec<u8>, tag: u8, n: i128)
    requires
        -0x1_0000_0000_0000_0000 < n < 0x1_0000_0000_0000_0000,
    ensures
        final(out)@ == old(out)@ + frame(int_lead(tag), n as int, Seq::empty()),
{
    let ghost start = out@;
    out.push(58u8);
    out.push(tag);
    push_number_line(out, n);
    assert(out@ =~= start + frame(int_lead(tag), n as int, Seq::empty()));
}

impl MinxValue {
    /// The encoding of this value.
    pub fn serilize(&self) -> (res: Vec<u8>)
        requires
            well_formed(*self),
        ensures
            res@ == encode(*self),
    {
        let mut out: Vec<u8> = Vec::new();
        self.write_to(&mut out);
        assert(out@ =~= encode(*self));
        out
    }

    /// Appends the encoding of this value to `out`.
    fn write_to(&self, out: &mut Vec<u8>)
        ensures
            final(out)@ == old(out)@ + encode(*self),
        decreases self,
    {
        let ghost start = out@;
        match self {
            MinxValue::Bool(b) => {
                out.push(35u8);
                out.push(if *b { 116u8 } else { 102u8 });
                out.push(13u8);
                out.push(10u8);
            },
            MinxValue::UInt8(n) => push_int_frame(out, 98u8, *n as i128),
            MinxValue::Int8(n) => push_int_frame(out, 66u8, *n as i128),
            MinxValue::UInt16(n) => push_int_frame(out, 119u8, *n as i128),
            MinxValue::Int16(n) => push_int_frame(out, 87u8, *n as i128),
            MinxValue::UInt32(n) => push_int_frame(out, 100u8, *n as i128),
            MinxValue::Int32(n) => push_int_frame(out, 68u8, *n as i128),
            MinxValue::UInt64(n) => push_int_frame(out, 113u8, *n as i128),
            MinxValue::Int64(n) => push_int_frame(out, 81u8, *n as i128),
            MinxValue::String(s) => {
                let bytes = s.as_str().as_bytes();
                out.push(36u8);
                push_number_line(out, bytes.len() as i128);
                let ghost mid = out@;
                let mut i: usize = 0;
                while i < bytes.len()
                    invariant
                        i <= bytes@.len(),
                        out@ == mid + bytes@.take(i as int),
                    decreases bytes@.len() - i,
                {
                    out.push(bytes[i]);
                    assert(bytes@.take(i as int + 1) =~= bytes@.take(i as int).push(bytes@[i as int]));
                    i = i + 1;
                }
                assert(bytes@.take(bytes@.len() as int) =~= bytes@);
                out.push(13u8);
                out.push(10u8);
            },
            MinxValue::Array(items) => {
                out.push(42u8);
                push_number_line(out, items.len() as i128);
                Self::write_all(items, out);
            },
            MinxValue::HashSet(items) => {
                out.push(126u8);
                push_number_line(out, items.len() as i128);
                let sorted = Self::sorted_encodings(items);
                let ghost mid = out@;
                let ghost v = byte_views(sorted@);
                let mut j: usize = 0;
                assert(v.take(0).flatten() =~= Seq::<u8>::empty());
                while j < sorted.len()
                    invariant
                        j <= sorted@.len(),
                        v == byte_views(sorted@),
                        out@ == mid + v.take(j as int).flatten(),
                    decreases sorted@.len() - j,
                {
                    push_bytes(out, &sorted[j]);
                    proof {
                        let jj = j as int;
                        assert(v[jj] == sorted@[jj]@);
                        assert(v.take(jj + 1).drop_last() =~= v.take(jj));
                        v.take(jj).lemma_flatten_and_flatten_alt_are_equivalent();
                        v.take(jj + 1).lemma_flatten_and_flatten_alt_are_equivalent();
                        assert(out@ =~= mid + v.take(jj + 1).flatten());
                    }
                    j = j + 1;
                }
                assert(v.take(sorted@.len() as int) =~= v);
            },
        }
        assert(out@ =~= start + encode(*self));
    }

    /// Appends the encodings of `items`, one after another, to `out`.
    fn write_all(items: &Vec<MinxValue>, out: &mut Vec<u8>)
        ensures
            final(out)@ == old(out)@ + encode_all(items@),
        decreases items,
    {
        let ghost start = out@;
        let mut i: usize = 0;
        assert(items@.take(0) =~= Seq::<MinxValue>::empty());
        while i < items.len()
            invariant
                i <= items@.len(),
                out@ == start + encode_all(items@.take(i as int)),
            decreases items@.len() - i,
        {
            items[i].write_to(out);
            proof {
                assert(items@.take(i as int + 1) =~= items@.take(i as int).push(items@[i as int]));
                lemma_encode_all_push(items@.take(i as int), items@[i as int]);
            }
            assert(out@ =~= start + encode_all(items@.take(i as int + 1)));
            i = i + 1;
        }
        assert(items@.take(items@.len() as int) =~= items@);
    }
}

/// The byte strings held in `v`, each by its view.
spec fn byte_views(v: Seq<Vec<u8>>) -> Seq<Seq<u8>> {
    v.map_values(|e: Vec<u8>| e@)
}

/// Appends the bytes of `bytes`.
fn push_bytes(out: &mut Vec<u8>, bytes: &Vec<u8>)
    ensures
        final(out)@ == old(out)@ + bytes@,
{
    let ghost start = out@;
    let mut i: usize = 0;
    while i < bytes.len()
        invariant
            i <= bytes@.len(),
            out@ == start + bytes@.take(i as int),
        decreases bytes@.len() - i,
    {
        out.push(bytes[i]);
        assert(bytes@.take(i as int + 1) =~= bytes@.take(i as int).push(bytes@[i as int]));
        i = i + 1;
    }
    assert(bytes@.take(bytes@.len() as int) =~= bytes@);
}

/// Whether `a` comes no later than `b` in byte-wise lexicographic order.
fn bytes_le(a: &Vec<u8>, b: &Vec<u8>) -> (res: bool)
    ensures
        res == bytes_leq(a@, b@),
{
    let mut i: usize = 0;
    assert(a@.skip(0) =~= a@ && b@.skip(0) =~= b@);
    while i < a.len()
        invariant
            i <= a@.len(),
            i <= b@.len(),
            bytes_leq(a@, b@) == bytes_leq(a@.skip(i as int), b@.skip(i as int)),
        decreases a@.len() - i,
    {
        if i == b.len() {
            return false;
        }
        if a[i] < b[i] {
            return true;
        }
        if a[i] > b[i] {
            return false;
        }
        assert(a@.skip(i as int).drop_first() =~= a@.skip(i as int + 1));
        assert(b@.skip(i as int).drop_first() =~= b@.skip(i as int + 1));
        i = i + 1;
    }
    true
}

/// Putting `x` after the members no greater than it and before the rest
/// keeps a sorted list sorted.
proof fn lemma_insert_sorted(s: Seq<Seq<u8>>, k: int, x: Seq<u8>)
    requires
        0 <= k <= s.len(),
        sorted_by(s, byte_order()),
        forall|t: int| 0 <= t < k ==> bytes_leq(#[trigger] s[t], x),
        k < s.len() ==> !bytes_leq(s[k], x),
    ensures
        sorted_by(s.insert(k, x), byte_order()),
{
    let r = s.insert(k, x);
    if k < s.len() {
        lemma_bytes_leq_total(s[k], x);
    }
    assert forall|a: int, b: int| 0 <= a < b < r.len() implies #[trigger] byte_order()(r[a], r[b]) by {
        if b < k {
            assert(byte_order()(s[a], s[b]));
        } else if b == k {
            assert(bytes_leq(s[a], x));
        } else if a == k {
            if b - 1 > k {
                assert(byte_order()(s[k], s[b - 1]));
                lemma_bytes_leq_trans(x, s[k], s[b - 1]);
            }
        } else if a < k {
            assert(byte_order()(s[a], s[b - 1]));
        } else {
            assert(byte_order()(s[a - 1], s[b - 1]));
        }
    }
}

/// Putting `x` into a list adds one `x` to its multiset.
proof fn lemma_insert_multiset(s: Seq<Seq<u8>>, k: int, x: Seq<u8>)
    requires
        0 <= k <= s.len(),
    ensures
        s.insert(k, x).to_multiset() == s.to_multiset().insert(x),
{
    broadcast use group_to_multiset_ensures;
    broadcast use vstd::multiset::group_multiset_axioms;

    let t = s.insert(k, x);
    assert(t.remove(k) =~= s);
    assert(t[k] == x);
    assert(t.remove(k).to_multiset() == t.to_multiset().remove(x));
    assert(t.contains(x));
    assert(t.to_multiset().count(x) > 0);
    assert(t.to_multiset() =~= s.to_multiset().insert(x));
}

impl MinxValue {
    /// The encodings of the members of `items`, sorted byte-wise.
    fn sorted_encodings(items: &Vec<MinxValue>) -> (res: Vec<Vec<u8>>)
        ensures
            byte_views(res@) == canonical(encodings(items@)),
        decreases items,
    {
        let mut sorted: Vec<Vec<u8>> = Vec::new();
        let mut i: usize = 0;
        proof {
            lemma_encodings(items@);
        }
        assert(byte_views(sorted@) =~= encodings(items@).take(0));
        while i < items.len()
            invariant
                i <= items@.len(),
                encodings(items@).len() == items@.len(),
                forall|j: int| 0 <= j < items@.len() ==> #[trigger] encodings(items@)[j] == encode(items@[j]),
                sorted_by(byte_views(sorted@), byte_order()),
                byte_views(sorted@).to_multiset() == encodings(items@).take(i as int).to_multiset(),
            decreases items@.len() - i,
        {
            let mut e: Vec<u8> = Vec::new();
            items[i].write_to(&mut e);
            let ghost before = byte_views(sorted@);
            let mut k: usize = 0;
            while k < sorted.len()
                invariant
                    k <= sorted@.len(),
                    byte_views(sorted@) == before,
                    forall|t: int| 0 <= t < k ==> bytes_leq(#[trigger] before[t], e@),
                ensures
                    k <= sorted@.len(),
                    byte_views(sorted@) == before,
                    forall|t: int| 0 <= t < k ==> bytes_leq(#[trigger] before[t], e@),
                    k < sorted@.len() ==> !bytes_leq(before[k as int], e@),
                decreases sorted@.len() - k,
            {
                assert(before[k as int] == sorted@[k as int]@);
                if !bytes_le(&sorted[k], &e) {
                    break;
                }
                k = k + 1;
            }
            let ghost ev = e@;
            let ghost old_sorted = sorted@;
            sorted.insert(k, e);
            proof {
                broadcast use group_to_multiset_ensures;

                assert(byte_views(sorted@) =~= before.insert(k as int, ev)) by {
                    assert(sorted@ == old_sorted.insert(k as int, e));
                }
                lemma_insert_sorted(before, k as int, ev);
                lemma_insert_multiset(before, k as int, ev);
                assert(ev == encodings(items@)[i as int]);
                assert(encodings(items@).take(i as int + 1) =~= encodings(items@).take(i as int).push(ev));
            }
            i = i + 1;
        }
        proof {
            assert(encodings(items@).take(items@.len() as int) =~= encodings(items@));
            lemma_canonical(items@);
            lemma_byte_order_total();
            lemma_sorted_unique(byte_views(sorted@), canonical(encodings(items@)), byte_order());
        }
        sorted
    }
}

proof fn lemma_same_value_refl(v: MinxValue)
    ensures
        same_value(v, v),
    decreases v, 0int,
{
    match v {
        MinxValue::Array(items) => lemma_same_values_refl(items@),
        MinxValue::HashSet(items) => lemma_members_match_themselves(items@),
        _ => {},
    }
}

proof fn lemma_members_match_themselves(x: Seq<MinxValue>)
    ensures
        all_matched(x, x),
        all_reached(x, x),
    decreases x, 2int,
{
    lemma_all_matched(x, x);
    lemma_all_reached(x, x);
    assert forall|i: int| 0 <= i < x.len() implies member_of(#[trigger] x[i], x) by {
        lemma_same_value_refl(x[i]);
        lemma_member_of(x[i], x);
    }
    assert forall|j: int| 0 <= j < x.len() implies has_member(x, #[trigger] x[j]) by {
        lemma_same_value_refl(x[j]);
        lemma_has_member(x, x[j]);
    }
}

proof fn lemma_same_values_refl(s: Seq<MinxValue>)
    ensures
        same_values(s, s),
    decreases s, 1int,
{
    if s.len() > 0 {
        lemma_same_value_refl(s[0]);
        lemma_same_values_refl(s.drop_first());
    }
}

/// Two lists hold the same values exactly when they agree position by
/// position.
proof fn lemma_same_values_pointwise(sa: Seq<MinxValue>, sb: Seq<MinxValue>)
    ensures
        same_values(sa, sb) <==> (sa.len() == sb.len() && forall|i: int|
            0 <= i < sa.len() ==> same_value(#[trigger] sa[i], sb[i])),
    decreases sa.len(),
{
    if sa.len() == sb.len() && sa.len() > 0 {
        lemma_same_values_pointwise(sa.drop_first(), sb.drop_first());
        if forall|i: int| 0 <= i < sa.len() ==> same_value(#[trigger] sa[i], sb[i]) {
            assert forall|i: int| 0 <= i < sa.len() - 1 implies same_value(
                #[trigger] sa.drop_first()[i],
                sb.drop_first()[i],
            ) by {
                assert(same_value(sa[i + 1], sb[i + 1]));
            }
        }
        if same_values(sa, sb) {
            assert forall|i: int| 0 <= i < sa.len() implies same_value(#[trigger] sa[i], sb[i]) by {
                if i > 0 {
                    assert(same_value(sa.drop_first()[i - 1], sb.drop_first()[i - 1]));
                }
            }
        }
    }
}

/// A list is well formed exactly when each of its values is.
proof fn lemma_all_well_formed_pointwise(s: Seq<MinxValue>)
    ensures
        all_well_formed(s) <==> forall|i: int| 0 <= i < s.len() ==> well_formed(#[trigger] s[i]),
    decreases s.len(),
{
    if s.len() > 0 {
        lemma_all_well_formed_pointwise(s.drop_first());
        if forall|i: int| 0 <= i < s.len() ==> well_formed(#[trigger] s[i]) {
            assert forall|i: int| 0 <= i < s.len() - 1 implies well_formed(#[trigger] s.drop_first()[i]) by {
                assert(well_formed(s[i + 1]));
            }
        }
        if all_well_formed(s) {
            assert forall|i: int| 0 <= i < s.len() implies well_formed(#[trigger] s[i]) by {
                if i > 0 {
                    assert(well_formed(s.drop_first()[i - 1]));
                }
            }
        }
    }
}

/// Some member of `m` is the same value as `v`.
pub open spec fn has_same(m: Seq<MinxValue>, v: MinxValue) -> bool {
    exists|j: int| 0 <= j < m.len() && same_value(#[trigger] m[j], v)
}

impl MinxValue {
    /// Whether this value and `other` are the same value.
    pub fn same(&self, other: &MinxValue) -> (res: bool)
        ensures
            res == same_value(*self, *other),
        decreases self,
    {
        match (self, other) {
            (MinxValue::Bool(x), MinxValue::Bool(y)) => *x == *y,
            (MinxValue::UInt8(x), MinxValue::UInt8(y)) => *x == *y,
            (MinxValue::Int8(x), MinxValue::Int8(y)) => *x == *y,
            (MinxValue::UInt16(x), MinxValue::UInt16(y)) => *x == *y,
            (MinxValue::Int16(x), MinxValue::Int16(y)) => *x == *y,
            (MinxValue::UInt32(x), MinxValue::UInt32(y)) => *x == *y,
            (MinxValue::Int32(x), MinxValue::Int32(y)) => *x == *y,
            (MinxValue::UInt64(x), MinxValue::UInt64(y)) => *x == *y,
            (MinxValue::Int64(x), MinxValue::Int64(y)) => *x == *y,
            (MinxValue::String(x), MinxValue::String(y)) => *x == *y,
            (MinxValue::Array(x), MinxValue::Array(y)) => Self::same_all(x, y),
            (MinxValue::HashSet(x), MinxValue::HashSet(y)) => Self::same_members(x, y),
            _ => false,
        }
    }

    /// Whether `xs` and `ys` hold the same values in order.
    fn same_all(xs: &Vec<MinxValue>, ys: &Vec<MinxValue>) -> (res: bool)
        ensures
            res == same_values(xs@, ys@),
        decreases xs,
    {
        proof {
            lemma_same_values_pointwise(xs@, ys@);
        }
        if xs.len() != ys.len() {
            return false;
        }
        let mut i: usize = 0;
        while i < xs.len()
            invariant
                xs@.len() == ys@.len(),
                i <= xs@.len(),
                forall|j: int| 0 <= j < i ==> same_value(#[trigger] xs@[j], ys@[j]),
            decreases xs@.len() - i,
        {
            if !xs[i].same(&ys[i]) {
                proof {
                    lemma_same_values_pointwise(xs@, ys@);
                }
                return false;
            }
            i = i + 1;
        }
        true
    }

    /// Whether each of `xs` is the same value as some member of `ys`, and
    /// each of `ys` the same value as some member of `xs`.
    fn same_members(xs: &Vec<MinxValue>, ys: &Vec<MinxValue>) -> (res: bool)
        ensures
            res == (all_matched(xs@, ys@) && all_reached(xs@, ys@)),
        decreases xs,
    {
        proof {
            lemma_sets_match(xs@, ys@);
        }
        let mut i: usize = 0;
        while i < xs.len()
            invariant
                i <= xs@.len(),
                forall|a: int| 0 <= a < i ==> exists|b: int|
                    0 <= b < ys@.len() && same_value(#[trigger] xs@[a], ys@[b]),
            decreases xs@.len() - i,
        {
            let mut found = false;
            let mut j: usize = 0;
            while j < ys.len()
                invariant
                    i < xs@.len(),
                    j <= ys@.len(),
                    found ==> exists|b: int| 0 <= b < ys@.len() && same_value(xs@[i as int], #[trigger] ys@[b]),
                    !found ==> forall|b: int| 0 <= b < j ==> !same_value(xs@[i as int], #[trigger] ys@[b]),
                decreases ys@.len() - j,
            {
                if xs[i].same(&ys[j]) {
                    found = true;
                }
                j = j + 1;
            }
            if !found {
                assert(!(exists|b: int| 0 <= b < ys@.len() && same_value(xs@[i as int], #[trigger] ys@[b])));
                proof {
                    lemma_sets_match(xs@, ys@);
                }
                return false;
            }
            i = i + 1;
        }
        let mut j: usize = 0;
        while j < ys.len()
            invariant
                xs@.len() == i,
                forall|a: int| 0 <= a < xs@.len() ==> exists|b: int|
                    0 <= b < ys@.len() && same_value(#[trigger] xs@[a], ys@[b]),
                j <= ys@.len(),
                forall|b: int| 0 <= b < j ==> exists|a: int|
                    0 <= a < xs@.len() && same_value(xs@[a], #[trigger] ys@[b]),
            decreases ys@.len() - j,
        {
            let mut found = false;
            let mut a: usize = 0;
            while a < xs.len()
                invariant
                    j < ys@.len(),
                    a <= xs@.len(),
                    found ==> exists|t: int| 0 <= t < xs@.len() && same_value(#[trigger] xs@[t], ys@[j as int]),
                    !found ==> forall|t: int| 0 <= t < a ==> !same_value(#[trigger] xs@[t], ys@[j as int]),
                decreases xs@.len() - a,
            {
                if xs[a].same(&ys[j]) {
                    found = true;
                }
                a = a + 1;
            }
            if !found {
                assert(!(exists|t: int| 0 <= t < xs@.len() && same_value(#[trigger] xs@[t], ys@[j as int])));
                proof {
                    lemma_sets_match(xs@, ys@);
                }
                return false;
            }
            j = j + 1;
        }
        true
    }

    /// The set of the given values: each value once, at its first
    /// occurrence, later repeats of a value dropped.
    pub fn set_of(items: Vec<MinxValue>) -> (res: MinxValue)
        ensures
            match res {
                MinxValue::HashSet(m) => {
                    &&& forall|i: int, j: int|
                        0 <= i < j < m@.len() ==> !same_value(#[trigger] m@[i], #[trigger] m@[j])
                    &&& forall|i: int| 0 <= i < items@.len() ==> has_same(m@, #[trigger] items@[i])
                    &&& forall|j: int| 0 <= j < m@.len() ==> items@.contains(#[trigger] m@[j])
                    &&& (forall|i: int| 0 <= i < items@.len() ==> well_formed(#[trigger] items@[i]))
                        ==> well_formed(res)
                },
                _ => false,
            },
    {
        let ghost orig = items@;
        let mut rest = items;
        let mut kept: Vec<MinxValue> = Vec::new();
        let ghost mut k: int = 0;
        while rest.len() > 0
            invariant
                0 <= k <= orig.len(),
                rest@ == orig.skip(k),
                forall|i: int, j: int|
                    0 <= i < j < kept@.len() ==> !same_value(#[trigger] kept@[i], #[trigger] kept@[j]),
                forall|i: int| 0 <= i < k ==> has_same(kept@, #[trigger] orig[i]),
                forall|j: int| 0 <= j < kept@.len() ==> orig.take(k).contains(#[trigger] kept@[j]),
            decreases rest@.len(),
        {
            let x = rest.remove(0);
            let ghost before = kept@;
            assert(x == orig[k]);
            let mut dup = false;
            let mut j: usize = 0;
            while j < kept.len()
                invariant
                    j <= kept@.len(),
                    kept@ == before,
                    dup ==> has_same(kept@, x),
                    !dup ==> forall|t: int| 0 <= t < j ==> !same_value(#[trigger] kept@[t], x),
                decreases kept@.len() - j,
            {
                if kept[j].same(&x) {
                    dup = true;
                }
                j = j + 1;
            }
            assert forall|j2: int| 0 <= j2 < kept@.len() implies orig.take(k + 1).contains(
                #[trigger] kept@[j2],
            ) by {
                let t = choose|t: int| 0 <= t < orig.take(k).len() && orig.take(k)[t] == kept@[j2];
                assert(orig.take(k + 1)[t] == kept@[j2]);
            }
            if !dup {
                kept.push(x);
                proof {
                    lemma_same_value_refl(x);
                    let n = before.len() as int;
                    assert(same_value(kept@[n], x));
                    assert(orig.take(k + 1)[k] == x);
                    assert forall|i: int| 0 <= i < k + 1 implies has_same(kept@, #[trigger] orig[i]) by {
                        if i < k {
                            let t = choose|t: int| 0 <= t < before.len() && same_value(#[trigger] before[t], orig[i]);
                            assert(same_value(kept@[t], orig[i]));
                        } else {
                            assert(same_value(kept@[n], orig[i]));
                        }
                    }
                    assert forall|j2: int| 0 <= j2 < kept@.len() implies orig.take(k + 1).contains(
                        #[trigger] kept@[j2],
                    ) by {
                        if j2 < n {
                            assert(kept@[j2] == before[j2]);
                        } else {
                            assert(orig.take(k + 1)[k] == kept@[j2]);
                        }
                    }
                    assert forall|a: int, b: int|
                        0 <= a < b < kept@.len() implies !same_value(#[trigger] kept@[a], #[trigger] kept@[b]) by {
                        if b < n {
                            assert(kept@[a] == before[a] && kept@[b] == before[b]);
                        } else {
                            assert(kept@[a] == before[a]);
                            assert(!same_value(before[a], x));
                        }
                    }
                }
            }
            proof {
                k = k + 1;
                assert(rest@ =~= orig.skip(k));
            }
        }
        proof {
            assert(orig.take(k) =~= orig);
        }
        let ghost m = kept@;
        let res = MinxValue::HashSet(kept);
        proof {
            if forall|i: int| 0 <= i < orig.len() ==> well_formed(#[trigger] orig[i]) {
                assert forall|j2: int| 0 <= j2 < m.len() implies well_formed(#[trigger] m[j2]) by {
                    assert(orig.contains(m[j2]));
                    let t = choose|t: int| 0 <= t < orig.len() && orig[t] == m[j2];
                    assert(well_formed(orig[t]));
                }
                lemma_all_well_formed_pointwise(m);
            }
        }
        res
    }
}

} // verus!
