use vstd::prelude::*;
use crate::utils::unescape;

verus! {

/// An object key, a declared id or a path segment: a bare identifier, or the
/// body of a quoted string with its escapes still in it.
pub enum Name {
    Bare(Vec<char>),
    Quoted(Vec<char>),
}

/// One run of a template string as written.
pub enum TemplatePart {
    Text(Vec<char>),
    Interpolation(Node),
}

/// The syntax tree of a document, before references are resolved.
pub enum Node {
    /// A decimal literal: its digits without the point, how many of them
    /// follow the point, and its sign.
    Decimal { negative: bool, digits: Vec<char>, fraction_len: usize },
    /// The digits of a `0x` literal.
    Hex(Vec<char>),
    /// `Infinity`, or `-Infinity` when the flag is set.
    Infinity(bool),
    /// The body of a single- or double-quoted string, escapes still in it.
    Text(Vec<char>),
    Template(Vec<TemplatePart>),
    Boolean(bool),
    Null,
    NaN,
    /// `#id` or `#"id"`.
    Reference(Name),
    /// `#/seg/seg/...`.
    PathReference(Vec<Name>),
    /// `#{ #id: ...; #value: ...; }`.
    Declaration { id: Name, value: Box<Node> },
    Object(Vec<(Name, Node)>),
    Array(Vec<Node>),
}

/// The text that a name stands for.
pub open spec fn name_text(n: Name) -> Seq<char> {
    match n {
        Name::Bare(s) => s@,
        Name::Quoted(s) => unescape(s@),
    }
}

} // verus!
