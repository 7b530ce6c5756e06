//! What the text of messages says.
use vstd::prelude::*;

use crate::ivt::{Literal, Node, Occur, OccurLimit, PreludeType, Range};
use crate::text::{
    decimal, digit, hex_digit, hex_from, limit_text, list_text, literal_text, node_text,
    occur_text, prelude_text, range_text, signed_decimal,
};

verus! {

/// The number that decimal digits stand for.
pub open spec fn number_of(digits: Seq<char>) -> int
    decreases digits.len(),
{
    if digits.len() == 0 {
        0
    } else {
        number_of(digits.drop_last()) * 10 + (digits.last() as int - '0' as int)
    }
}

/// A number is written in digits that stand for it, without a zero before them.
pub proof fn lemma_decimal_reads_back(n: nat)
    ensures
        number_of(decimal(n)) == n,
        decimal(n).len() > 0,
        forall|i: int|
            0 <= i < decimal(n).len() ==> '0' as int <= #[trigger] decimal(n)[i] as int
                <= '9' as int,
        n > 0 ==> decimal(n)[0] != '0',
        n == 0 ==> decimal(n) == seq!['0'],
    decreases n,
{
    if n < 10 {
        assert(decimal(n).drop_last() =~= Seq::<char>::empty());
        assert(number_of(Seq::<char>::empty()) == 0);
    } else {
        let q = n / 10;
        lemma_decimal_reads_back(q);
        assert(decimal(n).drop_last() =~= decimal(q));
        assert(decimal(n).last() == digit(n % 10));
        assert forall|i: int| 0 <= i < decimal(n).len() implies '0' as int <= #[trigger] decimal(
            n,
        )[i] as int <= '9' as int by {
            if i < decimal(q).len() {
                assert(decimal(n)[i] == decimal(q)[i]);
            }
        }
        assert(decimal(n)[0] == decimal(q)[0]);
    }
}

/// Different numbers are written differently.
pub proof fn lemma_decimal_tells_apart(m: nat, n: nat)
    requires
        decimal(m) == decimal(n),
    ensures
        m == n,
{
    lemma_decimal_reads_back(m);
    lemma_decimal_reads_back(n);
}

/// A negative integer is written as the number without its sign, after a minus sign.
pub proof fn lemma_signed_decimal(i: int)
    ensures
        i >= 0 ==> signed_decimal(i) == decimal(i as nat),
        i < 0 ==> signed_decimal(i) == seq!['-'] + decimal((-i) as nat),
{
}

/// A byte is written in two hexadecimal digits, the greater first, and bytes one after the other.
pub proof fn lemma_hex(b: Seq<u8>, i: int)
    requires
        0 <= i < b.len(),
    ensures
        hex_from(b, b.len() as int).len() == 0,
        hex_from(b, i) == seq![
            hex_digit((b[i] / 16) as nat),
            hex_digit((b[i] % 16) as nat),
        ] + hex_from(b, i + 1),
        forall|n: nat|
            n < 16 ==> #[trigger] hex_digit(n) == "0123456789abcdef"@[n as int],
{
    reveal_strlit("0123456789abcdef");
    assert forall|n: nat| n < 16 implies #[trigger] hex_digit(n) == "0123456789abcdef"@[
        n as int
    ] by {}
}

/// Literals are written as a schema writes them.
pub proof fn lemma_literal_text(l: Literal)
    ensures
        l == Literal::Bool(true) ==> literal_text(l) == "true"@,
        l == Literal::Bool(false) ==> literal_text(l) == "false"@,
        l matches Literal::Int(i) ==> literal_text(l) == signed_decimal(i as int),
        l matches Literal::Float(f) ==> literal_text(l) == f.text@,
        l matches Literal::Text(t) ==> literal_text(l) == "\""@ + t@ + "\""@,
        l matches Literal::Bytes(b) ==> literal_text(l) == "h'"@ + hex_from(b@, 0) + "'"@,
{
}

/// Types are written by their names.
pub proof fn lemma_prelude_text()
    ensures
        prelude_text(PreludeType::Any) == "any"@,
        prelude_text(PreludeType::Nil) == "nil"@,
        prelude_text(PreludeType::Bool) == "bool"@,
        prelude_text(PreludeType::Int) == "int"@,
        prelude_text(PreludeType::Uint) == "uint"@,
        prelude_text(PreludeType::Nint) == "nint"@,
        prelude_text(PreludeType::Float) == "float"@,
        prelude_text(PreludeType::Tstr) == "tstr"@,
        prelude_text(PreludeType::Bstr) == "bstr"@,
{
}

/// Occurrences are written as their mark and what occurs.
pub proof fn lemma_occur_text(o: Occur)
    ensures
        occur_text(o) == limit_text(o.limit) + node_text(*o.node),
        o.limit is Optional ==> limit_text(o.limit) == "? "@,
        o.limit is ZeroOrMore ==> limit_text(o.limit) == "* "@,
        o.limit is OneOrMore ==> limit_text(o.limit) == "+ "@,
        o.limit matches OccurLimit::Numbered(lower, upper) ==> limit_text(o.limit) == decimal(
            lower as nat,
        ) + "*"@ + decimal(upper as nat) + " "@,
{
}

/// Ranges are written as their bounds, with two dots between them if the end is included and three
/// if not.
pub proof fn lemma_range_text(r: Range)
    ensures
        r.inclusive ==> range_text(r) == node_text(*r.start) + ".."@ + node_text(*r.end),
        !r.inclusive ==> range_text(r) == node_text(*r.start) + "..."@ + node_text(*r.end),
{
}

/// Nodes are written by what they hold.
pub proof fn lemma_node_text(n: Node)
    ensures
        n matches Node::Literal(l) ==> node_text(n) == literal_text(l),
        n matches Node::PreludeType(p) ==> node_text(n) == prelude_text(p),
        n matches Node::Rule(r) ==> node_text(n) == r.name@,
        n matches Node::Unwrap(r) ==> node_text(n) == "~"@ + r.name@,
        n matches Node::Occur(o) ==> node_text(n) == occur_text(o),
        n matches Node::Range(r) ==> node_text(n) == range_text(r),
        n matches Node::Choice(c) ==> node_text(n) == list_text(c.options@, " / "@, 0),
        n matches Node::Mapping(m) ==> node_text(n) == "{"@ + list_text(m.members@, ", "@, 0)
            + "}"@,
        n matches Node::Array(a) ==> node_text(n) == "["@ + list_text(a.members@, ", "@, 0) + "]"@,
        n matches Node::Group(g) ==> node_text(n) == "("@ + list_text(g.members@, ", "@, 0) + ")"@,
        n matches Node::KeyValue(kv) && kv.cut ==> node_text(n) == node_text(
            *n->KeyValue_0.key,
        ) + ": "@ + node_text(*n->KeyValue_0.value),
        n matches Node::KeyValue(kv) && !kv.cut ==> node_text(n) == node_text(
            *n->KeyValue_0.key,
        ) + " => "@ + node_text(*n->KeyValue_0.value),
{
}

/// A list is its nodes with separators between them: one node stands alone, and each further one
/// follows a separator.
pub proof fn lemma_list_text(nodes: Seq<Node>, separator: Seq<char>)
    ensures
        nodes.len() == 0 ==> list_text(nodes, separator, 0).len() == 0,
        nodes.len() == 1 ==> list_text(nodes, separator, 0) == node_text(nodes[0]),
        nodes.len() > 1 ==> list_text(nodes, separator, 0) == list_text(
            nodes.drop_last(),
            separator,
            0,
        ) + separator + node_text(nodes.last()),
{
    if nodes.len() == 1 {
        assert(list_text(nodes, separator, 1) =~= Seq::<char>::empty());
        assert(list_text(nodes, separator, 0) =~= node_text(nodes[0]));
    } else if nodes.len() > 1 {
        lemma_list_text_from(nodes, separator, 0);
    }
}

proof fn lemma_list_text_from(nodes: Seq<Node>, separator: Seq<char>, i: int)
    requires
        0 <= i < nodes.len(),
        nodes.len() > 1,
    ensures
        list_text(nodes, separator, i) == list_text(nodes.drop_last(), separator, i) + separator
            + node_text(nodes.last()),
    decreases nodes.len() - i,
{
    let front = nodes.drop_last();
    if i + 1 < nodes.len() {
        lemma_list_text_from(nodes, separator, i + 1);
        assert(front[i] == nodes[i]);
        assert(list_text(nodes, separator, i) =~= list_text(front, separator, i) + separator
            + node_text(nodes.last()));
    } else {
        assert(list_text(nodes, separator, i + 1) =~= Seq::<char>::empty());
        assert(list_text(front, separator, i) =~= Seq::<char>::empty());
        assert(list_text(nodes, separator, i) =~= separator + node_text(nodes[i]));
    }
}

} // verus!
