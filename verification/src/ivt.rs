//! The intermediate validation tree: the shape that data is held against.
use vstd::prelude::*;

use crate::float::Float;

verus! {

/// A number of a floating-point type as it stands in a schema: the number, and the text by which
/// messages quote it.
#[derive(Debug)]
pub struct FloatLiteral {
    pub value: Float,
    pub text: String,
}

/// A value that stands in a schema.
#[derive(Debug)]
pub enum Literal {
    Bool(bool),
    Int(i128),
    Float(FloatLiteral),
    Text(String),
    Bytes(Vec<u8>),
}

/// A type that needs no definition.
#[derive(Debug, Clone, Copy, PartialEq, Eq, Structural)]
pub enum PreludeType {
    /// Any type at all.
    Any,
    Nil,
    Bool,
    Int,
    Uint,
    Nint,
    Float,
    Tstr,
    Bstr,
}

/// A reference to a rule by its name.
#[derive(Debug)]
pub struct Rule {
    pub name: String,
}

/// A list of alternatives, tried first to last.
#[derive(Debug)]
pub struct Choice {
    pub options: Vec<Node>,
}

/// A key and the value that belongs to it. In a map, `cut` makes a key that matches settle
/// the matter even where the value does not.
#[derive(Debug)]
pub struct KeyValue {
    pub key: Box<Node>,
    pub value: Box<Node>,
    pub cut: bool,
}

/// How often something may occur.
#[derive(Debug, Clone, Copy, PartialEq, Eq, Structural)]
pub enum OccurLimit {
    /// At most once.
    Optional,
    ZeroOrMore,
    OneOrMore,
    /// Between a lower and an upper bound, both included.
    Numbered(usize, usize),
}

/// Something that may occur more or less than once.
#[derive(Debug)]
pub struct Occur {
    pub limit: OccurLimit,
    pub node: Box<Node>,
}

/// The members of a map.
#[derive(Debug)]
pub struct Mapping {
    pub members: Vec<Node>,
}

/// The members of an array.
#[derive(Debug)]
pub struct Array {
    pub members: Vec<Node>,
}

/// Members that belong together in the map or the array around them.
#[derive(Debug)]
pub struct Group {
    pub members: Vec<Node>,
}

/// The numbers from `start` to `end`; `end` itself belongs to them if `inclusive` is set.
#[derive(Debug)]
pub struct Range {
    pub start: Box<Node>,
    pub end: Box<Node>,
    pub inclusive: bool,
}

/// A node of the tree.
#[derive(Debug)]
pub enum Node {
    Literal(Literal),
    PreludeType(PreludeType),
    Rule(Rule),
    Choice(Choice),
    Mapping(Mapping),
    Array(Array),
    Group(Group),
    KeyValue(KeyValue),
    Occur(Occur),
    Unwrap(Rule),
    Range(Range),
}

/// The least and the greatest number of times.
pub open spec fn limit_bounds(limit: OccurLimit) -> (usize, usize) {
    match limit {
        OccurLimit::Optional => (0, 1),
        OccurLimit::ZeroOrMore => (0, usize::MAX),
        OccurLimit::OneOrMore => (1, usize::MAX),
        OccurLimit::Numbered(lower, upper) => (lower, upper),
    }
}

impl Occur {
    /// The least and the greatest number of times.
    pub fn limits(&self) -> (r: (usize, usize))
        ensures
            r == limit_bounds(self.limit),
    {
        match self.limit {
            OccurLimit::Optional => (0, 1),
            OccurLimit::ZeroOrMore => (0, usize::MAX),
            OccurLimit::OneOrMore => (1, usize::MAX),
            OccurLimit::Numbered(lower, upper) => (lower, upper),
        }
    }
}

} // verus!
