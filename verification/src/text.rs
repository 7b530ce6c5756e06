//! The text by which messages quote a schema.
use vstd::prelude::*;
use vstd::string::StringExecFns;

use crate::ivt::{Literal, Node, OccurLimit, Occur, PreludeType, Range};

verus! {

/// The decimal digit of a number below ten.
pub open spec fn digit(n: nat) -> char {
    (n + 48) as char
}

/// A number in decimal.
pub open spec fn decimal(n: nat) -> Seq<char>
    decreases n,
{
    if n < 10 {
        seq![digit(n)]
    } else {
        decimal(n / 10).push(digit(n % 10))
    }
}

/// An integer in decimal, with a minus sign before a negative one.
pub open spec fn signed_decimal(i: int) -> Seq<char> {
    if i < 0 {
        seq!['-'] + decimal((-i) as nat)
    } else {
        decimal(i as nat)
    }
}

/// The hexadecimal digit of a number below sixteen.
pub open spec fn hex_digit(n: nat) -> char {
    if n < 10 {
        (n + 48) as char
    } else {
        (n + 87) as char
    }
}

/// Bytes in hexadecimal, two digits each, from index `i` on.
pub open spec fn hex_from(b: Seq<u8>, i: int) -> Seq<char>
    decreases b.len() - i,
{
    if i < 0 || i >= b.len() {
        Seq::empty()
    } else {
        seq![hex_digit((b[i] / 16) as nat), hex_digit((b[i] % 16) as nat)] + hex_from(b, i + 1)
    }
}

/// A literal as a schema writes it.
pub open spec fn literal_text(l: Literal) -> Seq<char> {
    match l {
        Literal::Bool(b) => if b {
            "true"@
        } else {
            "false"@
        },
        Literal::Int(i) => signed_decimal(i as int),
        Literal::Float(f) => f.text@,
        Literal::Text(t) => "\""@ + t@ + "\""@,
        Literal::Bytes(b) => "h'"@ + hex_from(b@, 0) + "'"@,
    }
}

/// The name of a type that needs no definition.
pub open spec fn prelude_text(p: PreludeType) -> Seq<char> {
    match p {
        PreludeType::Any => "any"@,
        PreludeType::Nil => "nil"@,
        PreludeType::Bool => "bool"@,
        PreludeType::Int => "int"@,
        PreludeType::Uint => "uint"@,
        PreludeType::Nint => "nint"@,
        PreludeType::Float => "float"@,
        PreludeType::Tstr => "tstr"@,
        PreludeType::Bstr => "bstr"@,
    }
}

/// The mark of an occurrence, before what occurs.
pub open spec fn limit_text(limit: OccurLimit) -> Seq<char> {
    match limit {
        OccurLimit::Optional => "? "@,
        OccurLimit::ZeroOrMore => "* "@,
        OccurLimit::OneOrMore => "+ "@,
        OccurLimit::Numbered(lower, upper) => decimal(lower as nat) + "*"@ + decimal(upper as nat)
            + " "@,
    }
}

/// A node as a schema writes it.
pub open spec fn node_text(n: Node) -> Seq<char>
    decreases n, 0int,
{
    match n {
        Node::Literal(l) => literal_text(l),
        Node::PreludeType(p) => prelude_text(p),
        Node::Rule(r) => r.name@,
        Node::Choice(c) => list_text(c.options@, " / "@, 0),
        Node::Mapping(m) => "{"@ + list_text(m.members@, ", "@, 0) + "}"@,
        Node::Array(a) => "["@ + list_text(a.members@, ", "@, 0) + "]"@,
        Node::Group(g) => "("@ + list_text(g.members@, ", "@, 0) + ")"@,
        Node::KeyValue(kv) => node_text(*kv.key) + (if kv.cut {
            ": "@
        } else {
            " => "@
        }) + node_text(*kv.value),
        Node::Occur(o) => occur_text(o),
        Node::Unwrap(r) => "~"@ + r.name@,
        Node::Range(r) => range_text(r),
    }
}

/// An occurrence as a schema writes it.
pub open spec fn occur_text(o: Occur) -> Seq<char>
    decreases o, 0int,
{
    limit_text(o.limit) + node_text(*o.node)
}

/// A range as a schema writes it.
pub open spec fn range_text(r: Range) -> Seq<char>
    decreases r, 0int,
{
    node_text(*r.start) + (if r.inclusive {
        ".."@
    } else {
        "..."@
    }) + node_text(*r.end)
}

/// The nodes of a list from index `i` on, each but the first after a separator.
pub open spec fn list_text(nodes: Seq<Node>, separator: Seq<char>, i: int) -> Seq<char>
    decreases nodes, nodes.len() - i,
{
    if i < 0 || i >= nodes.len() {
        Seq::empty()
    } else {
        (if i == 0 {
            Seq::empty()
        } else {
            separator
        }) + node_text(nodes[i]) + list_text(nodes, separator, i + 1)
    }
}

/// Appends a digit, in base ten or sixteen.
fn append_digit(out: &mut String, n: u8)
    requires
        n < 16,
    ensures
        final(out)@ == old(out)@.push(hex_digit(n as nat)),
{
    let digits = "0123456789abcdef";
    proof {
        reveal_strlit("0123456789abcdef");
    }
    let i: usize = n as usize;
    let one = digits.substring_ascii(i, i + 1);
    out.append(one);
}

/// Appends a number in decimal.
fn append_decimal(out: &mut String, n: u128)
    ensures
        final(out)@ == old(out)@ + decimal(n as nat),
    decreases n,
{
    if n >= 10 {
        append_decimal(out, n / 10);
    }
    append_digit(out, (n % 10) as u8);
}

/// Appends bytes in hexadecimal.
fn append_hex(out: &mut String, b: &Vec<u8>)
    ensures
        final(out)@ == old(out)@ + hex_from(b@, 0),
{
    let ghost before = out@;
    for i in 0..b.len()
        invariant
            before + hex_from(b@, 0) =~= out@ + hex_from(b@, i as int),
    {
        append_digit(out, b[i] / 16);
        append_digit(out, b[i] % 16);
    }
}

impl Literal {
    /// The literal as a schema writes it.
    pub fn text(&self) -> (r: String)
        ensures
            r@ == literal_text(*self),
    {
        match self {
            Literal::Bool(b) => if *b {
                "true".to_owned()
            } else {
                "false".to_owned()
            },
            Literal::Int(i) => {
                let mut out = String::new();
                if *i < 0 {
                    proof {
                        reveal_strlit("-");
                    }
                    out.append("-");
                    assert(out@ =~= seq!['-']);
                    append_decimal(&mut out, (-(*i + 1)) as u128 + 1);
                } else {
                    append_decimal(&mut out, *i as u128);
                }
                out
            },
            Literal::Float(f) => f.text.clone(),
            Literal::Text(t) => "\"".to_owned().concat(t.as_str()).concat("\""),
            Literal::Bytes(b) => {
                let mut out = "h'".to_owned();
                append_hex(&mut out, b);
                out.concat("'")
            },
        }
    }
}

impl PreludeType {
    /// The name of the type.
    pub fn text(self) -> (r: String)
        ensures
            r@ == prelude_text(self),
    {
        let name = match self {
            PreludeType::Any => "any",
            PreludeType::Nil => "nil",
            PreludeType::Bool => "bool",
            PreludeType::Int => "int",
            PreludeType::Uint => "uint",
            PreludeType::Nint => "nint",
            PreludeType::Float => "float",
            PreludeType::Tstr => "tstr",
            PreludeType::Bstr => "bstr",
        };
        name.to_owned()
    }
}

impl OccurLimit {
    /// The mark of the occurrence, before what occurs.
    fn text(self) -> (r: String)
        ensures
            r@ == limit_text(self),
    {
        match self {
            OccurLimit::Optional => "? ".to_owned(),
            OccurLimit::ZeroOrMore => "* ".to_owned(),
            OccurLimit::OneOrMore => "+ ".to_owned(),
            OccurLimit::Numbered(lower, upper) => {
                let mut out = count_text(lower);
                out.append("*");
                append_decimal(&mut out, upper as u128);
                out.concat(" ")
            },
        }
    }
}

/// A number in decimal.
pub fn count_text(n: usize) -> (r: String)
    ensures
        r@ == decimal(n as nat),
{
    let mut out = String::new();
    append_decimal(&mut out, n as u128);
    out
}

impl Node {
    /// The node as a schema writes it.
    pub fn text(&self) -> (r: String)
        ensures
            r@ == node_text(*self),
        decreases self,
    {
        match self {
            Node::Literal(l) => l.text(),
            Node::PreludeType(p) => p.text(),
            Node::Rule(r) => r.name.clone(),
            Node::Choice(c) => joined(&c.options, " / "),
            Node::Mapping(m) => "{".to_owned().concat(joined(&m.members, ", ").as_str()).concat(
                "}",
            ),
            Node::Array(a) => "[".to_owned().concat(joined(&a.members, ", ").as_str()).concat("]"),
            Node::Group(g) => "(".to_owned().concat(joined(&g.members, ", ").as_str()).concat(")"),
            Node::KeyValue(kv) => {
                let arrow = if kv.cut {
                    ": "
                } else {
                    " => "
                };
                kv.key.text().concat(arrow).concat(kv.value.text().as_str())
            },
            Node::Occur(o) => o.text(),
            Node::Unwrap(r) => "~".to_owned().concat(r.name.as_str()),
            Node::Range(r) => r.text(),
        }
    }
}

impl Occur {
    /// The occurrence as a schema writes it.
    pub fn text(&self) -> (r: String)
        ensures
            r@ == occur_text(*self),
        decreases self,
    {
        self.limit.text().concat(self.node.text().as_str())
    }
}

impl Range {
    /// The range as a schema writes it.
    pub fn text(&self) -> (r: String)
        ensures
            r@ == range_text(*self),
        decreases self,
    {
        let dots = if self.inclusive {
            ".."
        } else {
            "..."
        };
        self.start.text().concat(dots).concat(self.end.text().as_str())
    }
}

/// The nodes of a list, with a separator between them.
fn joined(nodes: &Vec<Node>, separator: &str) -> (r: String)
    ensures
        r@ == list_text(nodes@, separator@, 0),
    decreases nodes,
{
    let mut out = String::new();
    for i in 0..nodes.len()
        invariant
            list_text(nodes@, separator@, 0) =~= out@ + list_text(nodes@, separator@, i as int),
    {
        if i > 0 {
            out.append(separator);
        }
        out.append(nodes[i].text().as_str());
    }
    out
}

} // verus!
