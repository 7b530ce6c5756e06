//! How values are ordered, and what a map holds under its keys.
use core::cmp::Ordering;
use vstd::arithmetic::power2::{lemma_pow2_unfold, pow2};
use vstd::prelude::*;
use vstd::utf8::encode_utf8;

use crate::entries::{
    keys_ascending, lemma_position, lemma_position_of_entry, lemma_slot_from,
    lemma_with_ascending, position, slot_from, value_at, with, Entries,
};
use crate::float::{magnitude_units, Float};
use crate::order::{
    below, lemma_relate_equal, relate, relate_bytes, relate_entries, relate_values, Relation,
};
use crate::value::ValueView;

verus! {

/// Values of different kinds are ordered by kind.
pub proof fn lemma_kinds_ordered(a: ValueView, b: ValueView)
    ensures
        a is Null && !(b is Null) ==> relate(a, b) == Relation::Less,
        a is Bool && (b is Integer || b is Float || b is Bytes || b is Text || b is Array
            || b is Mapping) ==> relate(a, b) == Relation::Less,
        a is Integer && (b is Float || b is Bytes || b is Text || b is Array || b is Mapping)
            ==> relate(a, b) == Relation::Less,
        a is Float && (b is Bytes || b is Text || b is Array || b is Mapping) ==> relate(a, b)
            == Relation::Less,
        a is Bytes && (b is Text || b is Array || b is Mapping) ==> relate(a, b) == Relation::Less,
        a is Text && (b is Array || b is Mapping) ==> relate(a, b) == Relation::Less,
        a is Array && b is Mapping ==> relate(a, b) == Relation::Less,
{
}

/// `false` stands below `true`, and integers are ordered as numbers.
pub proof fn lemma_scalars_ordered(i: int, j: int)
    ensures
        relate(ValueView::Bool(false), ValueView::Bool(true)) == Relation::Less,
        relate(ValueView::Integer(i), ValueView::Integer(j)) == Relation::Less <==> i < j,
{
}

/// Floating-point patterns without a sign are ordered as they are; those with one stand below them,
/// in the opposite order.
pub proof fn lemma_floats_ordered(a: Float, b: Float)
    ensures
        relate(ValueView::Float(a), ValueView::Float(b)) == Relation::Less <==> {
            let top: u64 = 0x8000_0000_0000_0000;
            if a.bits < top && b.bits < top {
                a.bits < b.bits
            } else if a.bits >= top && b.bits >= top {
                a.bits > b.bits
            } else {
                a.bits >= top
            }
        },
{
}

/// Byte strings are ordered by their first difference, and a part before the whole.
pub proof fn lemma_bytes_ordered(x: Seq<u8>, y: Seq<u8>, i: int)
    requires
        0 <= i <= x.len(),
        i <= y.len(),
        forall|j: int| 0 <= j < i ==> #[trigger] x[j] == y[j],
    ensures
        i == x.len() && i < y.len() ==> relate(ValueView::Bytes(x), ValueView::Bytes(y))
            == Relation::Less,
        i < x.len() && i < y.len() && x[i] < y[i] ==> relate(
            ValueView::Bytes(x),
            ValueView::Bytes(y),
        ) == Relation::Less,
{
    lemma_bytes_from(x, y, 0, i);
}

proof fn lemma_bytes_from(x: Seq<u8>, y: Seq<u8>, k: int, i: int)
    requires
        0 <= k <= i <= x.len(),
        i <= y.len(),
        forall|j: int| 0 <= j < i ==> #[trigger] x[j] == y[j],
    ensures
        relate_bytes(x, y, k) == relate_bytes(x, y, i),
    decreases i - k,
{
    if k < i {
        assert(x[k] == y[k]);
        lemma_bytes_from(x, y, k + 1, i);
    }
}

/// Text is ordered as its bytes in UTF-8 are.
pub proof fn lemma_text_ordered(x: Seq<char>, y: Seq<char>)
    ensures
        relate(ValueView::Text(x), ValueView::Text(y)) == relate(
            ValueView::Bytes(encode_utf8(x)),
            ValueView::Bytes(encode_utf8(y)),
        ),
{
}

/// Arrays are ordered by their first difference, and a part before the whole.
pub proof fn lemma_arrays_ordered(x: Seq<ValueView>, y: Seq<ValueView>, i: int)
    requires
        0 <= i <= x.len(),
        i <= y.len(),
        forall|j: int| 0 <= j < i ==> #[trigger] x[j] == y[j],
    ensures
        i == x.len() && i < y.len() ==> relate(ValueView::Array(x), ValueView::Array(y))
            == Relation::Less,
        i < x.len() && i < y.len() && relate(x[i], y[i]) == Relation::Less ==> relate(
            ValueView::Array(x),
            ValueView::Array(y),
        ) == Relation::Less,
{
    lemma_values_from(x, y, 0, i);
    assert(relate(ValueView::Array(x), ValueView::Array(y)) == relate_values(x, y, 0));
}

proof fn lemma_values_from(x: Seq<ValueView>, y: Seq<ValueView>, k: int, i: int)
    requires
        0 <= k <= i <= x.len(),
        i <= y.len(),
        forall|j: int| 0 <= j < i ==> #[trigger] x[j] == y[j],
    ensures
        relate_values(x, y, k) == relate_values(x, y, i),
    decreases i - k,
{
    if k < i {
        assert(x[k] == y[k]);
        lemma_relate_equal(x[k], y[k]);
        lemma_values_from(x, y, k + 1, i);
    }
}

/// Maps are ordered by their first different entry, by key and then by value, and a part before the
/// whole.
pub proof fn lemma_maps_ordered(x: Entries, y: Entries, i: int)
    requires
        0 <= i <= x.len(),
        i <= y.len(),
        forall|j: int| 0 <= j < i ==> #[trigger] x[j] == y[j],
    ensures
        i == x.len() && i < y.len() ==> relate(ValueView::Mapping(x), ValueView::Mapping(y))
            == Relation::Less,
        i < x.len() && i < y.len() && relate(x[i].0, y[i].0) == Relation::Less ==> relate(
            ValueView::Mapping(x),
            ValueView::Mapping(y),
        ) == Relation::Less,
        i < x.len() && i < y.len() && x[i].0 == y[i].0 && relate(x[i].1, y[i].1) == Relation::Less
            ==> relate(ValueView::Mapping(x), ValueView::Mapping(y)) == Relation::Less,
{
    lemma_entries_from(x, y, 0, i);
    assert(relate(ValueView::Mapping(x), ValueView::Mapping(y)) == relate_entries(x, y, 0));
    if i < x.len() && i < y.len() {
        lemma_relate_equal(x[i].0, y[i].0);
    }
}

proof fn lemma_entries_from(x: Entries, y: Entries, k: int, i: int)
    requires
        0 <= k <= i <= x.len(),
        i <= y.len(),
        forall|j: int| 0 <= j < i ==> #[trigger] x[j] == y[j],
    ensures
        relate_entries(x, y, k) == relate_entries(x, y, i),
    decreases i - k,
{
    if k < i {
        assert(x[k] == y[k]);
        lemma_relate_equal(x[k].0, y[k].0);
        lemma_relate_equal(x[k].1, y[k].1);
        lemma_entries_from(x, y, k + 1, i);
    }
}

/// In a map each key stands above those before it.
pub proof fn lemma_map_order(s: Entries, i: int, j: int)
    requires
        keys_ascending(s),
        0 <= i < j < s.len(),
    ensures
        relate(s[i].0, s[j].0) == Relation::Less,
{
    reveal(below);
    assert(below(s[i].0, s[j].0));
}

/// Under the key of an entry stands its value, and under any other key nothing.
pub proof fn lemma_lookup(s: Entries, key: ValueView)
    requires
        keys_ascending(s),
    ensures
        forall|i: int|
            0 <= i < s.len() && (#[trigger] s[i]).0 == key ==> value_at(s, key) == Some(s[i].1)
                && position(s, key) == i,
        (forall|i: int| 0 <= i < s.len() ==> (#[trigger] s[i]).0 != key) ==> value_at(s, key)
            is None && position(s, key) == s.len(),
{
    lemma_position(s, key);
    assert forall|i: int| 0 <= i < s.len() && (#[trigger] s[i]).0 == key implies value_at(s, key)
        == Some(s[i].1) && position(s, key) == i by {
        lemma_position_of_entry(s, i);
    }
}

/// Putting a value under a key leaves what stands under the others.
pub proof fn lemma_with_other(s: Entries, key: ValueView, value: ValueView, other: ValueView)
    requires
        keys_ascending(s),
        key != other,
    ensures
        value_at(with(s, key, value), other) == value_at(s, other),
        value_at(with(s, key, value), key) == Some(value),
{
    let t = with(s, key, value);
    lemma_with_ascending(s, key, value);
    lemma_lookup(s, other);
    lemma_lookup(t, other);
    lemma_slot_from(s, key, 0);
    let p = slot_from(s, key, 0);
    let q = position(s, other);
    lemma_position(s, other);
    lemma_position(t, other);
    if q < s.len() {
        let i = if t.len() == s.len() || q < p {
            q
        } else {
            q + 1
        };
        assert(t[i] == s[q]);
    } else {
        assert forall|i: int| 0 <= i < t.len() implies (#[trigger] t[i]).0 != other by {
            if i != p {
                let j = if t.len() == s.len() || i < p {
                    i
                } else {
                    i - 1
                };
                assert(t[i] == s[j]);
            }
        }
    }
}

/// Small patterns stand for themselves, in units of the smallest positive number; and one step of
/// the exponent doubles the number.
pub proof fn lemma_units_grow(m: nat)
    ensures
        m < 0x20_0000_0000_0000 ==> magnitude_units(m) == m,
        m >= 0x10_0000_0000_0000 ==> magnitude_units(m + 0x10_0000_0000_0000) == 2
            * magnitude_units(m),
{
    let one: nat = 0x10_0000_0000_0000;
    let e = m / one;
    let f = m % one;
    if m < one {
        assert(e == 0 && f == m);
    } else {
        assert(e >= 1);
        assert((m + one) / one == e + 1 && (m + one) % one == f) by (nonlinear_arith)
            requires
                one == 0x10_0000_0000_0000,
                e == m / one,
                f == m % one,
        ;
        lemma_pow2_unfold(e);
        let p = pow2((e - 1) as nat);
        assert((one + f) * (2 * p) == 2 * ((one + f) * p)) by (nonlinear_arith);
        if m < 2 * one {
            assert(e == 1 && f == m - one);
            vstd::arithmetic::power2::lemma2_to64();
            assert((one + f) * 1 == one + f);
        }
    }
}

/// The sign bit makes a number negative, and a pattern above the infinities is no number.
pub proof fn lemma_float_signs(a: Float, b: Float)
    ensures
        a.bits < 0x8000_0000_0000_0000 ==> a.units() == magnitude_units(a.bits as nat),
        a.bits < 0x8000_0000_0000_0000 && b.bits == a.bits + 0x8000_0000_0000_0000 ==> b.units()
            == -a.units() && (b.is_nan() <==> a.is_nan()),
        a.bits < 0x8000_0000_0000_0000 ==> (a.is_nan() <==> a.bits > 0x7ff0_0000_0000_0000),
{
}

/// Numbers are ordered by what they stand for; what is no number has no place among them.
pub proof fn lemma_numbers_ordered(a: Float, b: Float)
    ensures
        a.is_nan() || b.is_nan() ==> a.numeric_order(b) is None,
        !a.is_nan() && !b.is_nan() && a.units() < b.units() ==> a.numeric_order(b) == Some(
            Ordering::Less,
        ),
        !a.is_nan() && !b.is_nan() && a.units() == b.units() ==> a.numeric_order(b) == Some(
            Ordering::Equal,
        ),
        !a.is_nan() && !b.is_nan() && a.units() > b.units() ==> a.numeric_order(b) == Some(
            Ordering::Greater,
        ),
        a.precedes(b) <==> !a.is_nan() && !b.is_nan() && a.units() < b.units(),
        a.equals(b) <==> !a.is_nan() && !b.is_nan() && a.units() == b.units(),
{
}

/// The place of a pattern among all patterns: its bits, or what they lack to the greatest of those
/// without a sign.
pub proof fn lemma_total_order_places(a: Float)
    ensures
        a.bits < 0x8000_0000_0000_0000 ==> a.total_order_key() == a.bits,
        a.bits >= 0x8000_0000_0000_0000 ==> a.total_order_key() == 0x7fff_ffff_ffff_ffff - a.bits,
{
}

} // verus!
