//! The total order on values, by which the keys of a map are arranged.
use vstd::prelude::*;
use vstd::utf8::*;

use crate::value::ValueView;

verus! {

/// How one value stands to another.
#[derive(Debug, Clone, Copy, PartialEq, Eq, Structural)]
pub enum Relation {
    Less,
    Equal,
    Greater,
}

/// The relation read from the other side.
pub open spec fn flip(r: Relation) -> Relation {
    match r {
        Relation::Less => Relation::Greater,
        Relation::Equal => Relation::Equal,
        Relation::Greater => Relation::Less,
    }
}

/// The order of the integers.
pub open spec fn relate_ints(a: int, b: int) -> Relation {
    if a < b {
        Relation::Less
    } else if a == b {
        Relation::Equal
    } else {
        Relation::Greater
    }
}

/// The place of each kind of value in the order: kinds never mix.
pub open spec fn kind_rank(v: ValueView) -> int {
    match v {
        ValueView::Null => 0,
        ValueView::Bool(_) => 1,
        ValueView::Integer(_) => 2,
        ValueView::Float(_) => 3,
        ValueView::Bytes(_) => 4,
        ValueView::Text(_) => 5,
        ValueView::Array(_) => 6,
        ValueView::Mapping(_) => 7,
    }
}

/// The total order of the values: first by kind, then within the kind. Sequences are ordered
/// lexicographically, and text by its UTF-8 bytes.
pub open spec fn relate(a: ValueView, b: ValueView) -> Relation
    decreases a, 0int,
{
    match (a, b) {
        (ValueView::Null, ValueView::Null) => Relation::Equal,
        (ValueView::Bool(x), ValueView::Bool(y)) => relate_ints(
            if x { 1 } else { 0 },
            if y { 1 } else { 0 },
        ),
        (ValueView::Integer(x), ValueView::Integer(y)) => relate_ints(x, y),
        (ValueView::Float(x), ValueView::Float(y)) => relate_ints(
            x.total_order_key(),
            y.total_order_key(),
        ),
        (ValueView::Bytes(x), ValueView::Bytes(y)) => relate_bytes(x, y, 0),
        (ValueView::Text(x), ValueView::Text(y)) => relate_bytes(encode_utf8(x), encode_utf8(y), 0),
        (ValueView::Array(x), ValueView::Array(y)) => relate_values(x, y, 0),
        (ValueView::Mapping(x), ValueView::Mapping(y)) => relate_entries(x, y, 0),
        _ => relate_ints(kind_rank(a), kind_rank(b)),
    }
}

/// Whether a value stands below another.
#[verifier::opaque]
pub open spec fn below(a: ValueView, b: ValueView) -> bool {
    relate(a, b) == Relation::Less
}

/// The lexicographic order of two byte strings, read from index `i` on.
pub open spec fn relate_bytes(x: Seq<u8>, y: Seq<u8>, i: int) -> Relation
    decreases x.len() - i,
{
    if i < 0 || i >= x.len() || i >= y.len() {
        relate_ints(x.len() as int, y.len() as int)
    } else {
        match relate_ints(x[i] as int, y[i] as int) {
            Relation::Equal => relate_bytes(x, y, i + 1),
            r => r,
        }
    }
}

/// The lexicographic order of two arrays, read from index `i` on.
pub open spec fn relate_values(x: Seq<ValueView>, y: Seq<ValueView>, i: int) -> Relation
    decreases x, x.len() - i,
{
    if i < 0 || i >= x.len() || i >= y.len() {
        relate_ints(x.len() as int, y.len() as int)
    } else {
        match relate(x[i], y[i]) {
            Relation::Equal => relate_values(x, y, i + 1),
            r => r,
        }
    }
}

/// The lexicographic order of the entries of two maps, read from index `i` on.
pub open spec fn relate_entries(
    x: Seq<(ValueView, ValueView)>,
    y: Seq<(ValueView, ValueView)>,
    i: int,
) -> Relation
    decreases x, x.len() - i,
{
    if i < 0 || i >= x.len() || i >= y.len() {
        relate_ints(x.len() as int, y.len() as int)
    } else {
        match relate(x[i].0, y[i].0) {
            Relation::Equal => match relate(x[i].1, y[i].1) {
                Relation::Equal => relate_entries(x, y, i + 1),
                r => r,
            },
            r => r,
        }
    }
}

/// Two values stand as equals in the order exactly when they are the same value.
pub proof fn lemma_relate_equal(a: ValueView, b: ValueView)
    ensures
        relate(a, b) == Relation::Equal <==> a == b,
    decreases a, 0int,
{
    match (a, b) {
        (ValueView::Bytes(x), ValueView::Bytes(y)) => {
            lemma_bytes_equal(x, y, 0);
        },
        (ValueView::Text(x), ValueView::Text(y)) => {
            lemma_bytes_equal(encode_utf8(x), encode_utf8(y), 0);
            encode_utf8_decode_utf8(x);
            encode_utf8_decode_utf8(y);
        },
        (ValueView::Array(x), ValueView::Array(y)) => {
            lemma_values_equal(x, y, 0);
        },
        (ValueView::Mapping(x), ValueView::Mapping(y)) => {
            lemma_entries_equal(x, y, 0);
        },
        _ => {},
    }
}

proof fn lemma_bytes_equal(x: Seq<u8>, y: Seq<u8>, i: int)
    requires
        0 <= i,
        forall|j: int| 0 <= j < i && j < x.len() && j < y.len() ==> x[j] == y[j],
    ensures
        relate_bytes(x, y, i) == Relation::Equal <==> x =~= y,
    decreases x.len() - i,
{
    if i < x.len() && i < y.len() && x[i] == y[i] {
        lemma_bytes_equal(x, y, i + 1);
    }
}

proof fn lemma_values_equal(x: Seq<ValueView>, y: Seq<ValueView>, i: int)
    requires
        0 <= i,
        forall|j: int| 0 <= j < i && j < x.len() && j < y.len() ==> x[j] == y[j],
    ensures
        relate_values(x, y, i) == Relation::Equal <==> x =~= y,
    decreases x, x.len() - i,
{
    if i < x.len() && i < y.len() {
        lemma_relate_equal(x[i], y[i]);
        if x[i] == y[i] {
            lemma_values_equal(x, y, i + 1);
        }
    }
}

proof fn lemma_entries_equal(
    x: Seq<(ValueView, ValueView)>,
    y: Seq<(ValueView, ValueView)>,
    i: int,
)
    requires
        0 <= i,
        forall|j: int| 0 <= j < i && j < x.len() && j < y.len() ==> x[j] == y[j],
    ensures
        relate_entries(x, y, i) == Relation::Equal <==> x =~= y,
    decreases x, x.len() - i,
{
    if i < x.len() && i < y.len() {
        lemma_relate_equal(x[i].0, y[i].0);
        lemma_relate_equal(x[i].1, y[i].1);
        if x[i] == y[i] {
            lemma_entries_equal(x, y, i + 1);
        }
    }
}

/// Exchanging the two values flips the relation.
pub proof fn lemma_relate_flip(a: ValueView, b: ValueView)
    ensures
        relate(b, a) == flip(relate(a, b)),
    decreases a, 0int,
{
    match (a, b) {
        (ValueView::Bytes(x), ValueView::Bytes(y)) => {
            lemma_bytes_flip(x, y, 0);
        },
        (ValueView::Text(x), ValueView::Text(y)) => {
            lemma_bytes_flip(encode_utf8(x), encode_utf8(y), 0);
        },
        (ValueView::Array(x), ValueView::Array(y)) => {
            lemma_values_flip(x, y, 0);
        },
        (ValueView::Mapping(x), ValueView::Mapping(y)) => {
            lemma_entries_flip(x, y, 0);
        },
        _ => {},
    }
}

proof fn lemma_bytes_flip(x: Seq<u8>, y: Seq<u8>, i: int)
    ensures
        relate_bytes(y, x, i) == flip(relate_bytes(x, y, i)),
    decreases x.len() - i,
{
    if 0 <= i < x.len() && i < y.len() {
        lemma_bytes_flip(x, y, i + 1);
    }
}

proof fn lemma_values_flip(x: Seq<ValueView>, y: Seq<ValueView>, i: int)
    ensures
        relate_values(y, x, i) == flip(relate_values(x, y, i)),
    decreases x, x.len() - i,
{
    if 0 <= i < x.len() && i < y.len() {
        lemma_relate_flip(x[i], y[i]);
        lemma_values_flip(x, y, i + 1);
    }
}

proof fn lemma_entries_flip(
    x: Seq<(ValueView, ValueView)>,
    y: Seq<(ValueView, ValueView)>,
    i: int,
)
    ensures
        relate_entries(y, x, i) == flip(relate_entries(x, y, i)),
    decreases x, x.len() - i,
{
    if 0 <= i < x.len() && i < y.len() {
        lemma_relate_flip(x[i].0, y[i].0);
        lemma_relate_flip(x[i].1, y[i].1);
        lemma_entries_flip(x, y, i + 1);
    }
}

/// The order is transitive.
pub proof fn lemma_relate_transitive(a: ValueView, b: ValueView, c: ValueView)
    requires
        relate(a, b) == Relation::Less,
        relate(b, c) == Relation::Less,
    ensures
        relate(a, c) == Relation::Less,
    decreases a, 0int,
{
    match (a, b, c) {
        (ValueView::Bytes(x), ValueView::Bytes(y), ValueView::Bytes(z)) => {
            lemma_bytes_transitive(x, y, z, 0);
        },
        (ValueView::Text(x), ValueView::Text(y), ValueView::Text(z)) => {
            lemma_bytes_transitive(encode_utf8(x), encode_utf8(y), encode_utf8(z), 0);
        },
        (ValueView::Array(x), ValueView::Array(y), ValueView::Array(z)) => {
            lemma_values_transitive(x, y, z, 0);
        },
        (ValueView::Mapping(x), ValueView::Mapping(y), ValueView::Mapping(z)) => {
            lemma_entries_transitive(x, y, z, 0);
        },
        _ => {},
    }
}

proof fn lemma_bytes_transitive(x: Seq<u8>, y: Seq<u8>, z: Seq<u8>, i: int)
    requires
        relate_bytes(x, y, i) == Relation::Less,
        relate_bytes(y, z, i) == Relation::Less,
    ensures
        relate_bytes(x, z, i) == Relation::Less,
    decreases x.len() - i,
{
    if 0 <= i < x.len() && i < y.len() && i < z.len() && x[i] == y[i] && y[i] == z[i] {
        lemma_bytes_transitive(x, y, z, i + 1);
    }
}

proof fn lemma_values_transitive(
    x: Seq<ValueView>,
    y: Seq<ValueView>,
    z: Seq<ValueView>,
    i: int,
)
    requires
        relate_values(x, y, i) == Relation::Less,
        relate_values(y, z, i) == Relation::Less,
    ensures
        relate_values(x, z, i) == Relation::Less,
    decreases x, x.len() - i,
{
    if 0 <= i < x.len() && i < y.len() && i < z.len() {
        lemma_relate_equal(x[i], y[i]);
        lemma_relate_equal(y[i], z[i]);
        if x[i] == y[i] && y[i] == z[i] {
            lemma_values_transitive(x, y, z, i + 1);
        } else if x[i] != y[i] && y[i] != z[i] {
            lemma_relate_transitive(x[i], y[i], z[i]);
        }
    }
}

proof fn lemma_entries_transitive(
    x: Seq<(ValueView, ValueView)>,
    y: Seq<(ValueView, ValueView)>,
    z: Seq<(ValueView, ValueView)>,
    i: int,
)
    requires
        relate_entries(x, y, i) == Relation::Less,
        relate_entries(y, z, i) == Relation::Less,
    ensures
        relate_entries(x, z, i) == Relation::Less,
    decreases x, x.len() - i,
{
    if 0 <= i < x.len() && i < y.len() && i < z.len() {
        let (x0, y0, z0) = (x[i].0, y[i].0, z[i].0);
        let (x1, y1, z1) = (x[i].1, y[i].1, z[i].1);
        lemma_relate_equal(x0, y0);
        lemma_relate_equal(y0, z0);
        lemma_relate_equal(x1, y1);
        lemma_relate_equal(y1, z1);
        if x0 != y0 && y0 != z0 {
            lemma_relate_transitive(x0, y0, z0);
        } else if x0 == y0 && y0 == z0 {
            if x1 == y1 && y1 == z1 {
                lemma_entries_transitive(x, y, z, i + 1);
            } else if x1 != y1 && y1 != z1 {
                lemma_relate_transitive(x1, y1, z1);
            }
        }
    }
}

/// Of two values exactly one of three holds: the first stands below the second, they are the
/// same, or the second stands below the first.
pub proof fn lemma_below_trichotomy(a: ValueView, b: ValueView)
    ensures
        below(a, b) || a == b || below(b, a),
        below(a, b) ==> a != b && !below(b, a),
        below(b, a) ==> a != b,
{
    reveal(below);
    lemma_relate_equal(a, b);
    lemma_relate_flip(a, b);
}

/// A value that stands below a second stands below all that the second stands below.
pub proof fn lemma_below_transitive(a: ValueView, b: ValueView, c: ValueView)
    requires
        below(a, b),
        below(b, c),
    ensures
        below(a, c),
{
    reveal(below);
    lemma_relate_transitive(a, b, c);
}

} // verus!
