//! The Fluent syntax tree, as plain data: what the importer reads, what the
//! placeholder extractor walks and what the writer hands to the serializer.
use vstd::prelude::*;

verus! {

/// A sequence of text and placeables: the value of a message, term, attribute or variant.
#[derive(Debug, PartialEq, Eq)]
pub struct Pattern {
    pub elements: Vec<PatternElement>,
}

#[derive(Debug, PartialEq, Eq)]
pub enum PatternElement {
    TextElement { value: String },
    Placeable { expression: Expression },
}

#[derive(Debug, PartialEq, Eq)]
pub enum Expression {
    Select { selector: InlineExpression, variants: Vec<Variant> },
    Inline(InlineExpression),
}

#[derive(Debug, PartialEq, Eq)]
pub enum InlineExpression {
    StringLiteral { value: String },
    NumberLiteral { value: String },
    FunctionReference { id: String, arguments: CallArguments },
    MessageReference { id: String, attribute: Option<String> },
    TermReference { id: String, attribute: Option<String>, arguments: Option<CallArguments> },
    VariableReference { id: String },
    Placeable { expression: Box<Expression> },
}

#[derive(Debug, PartialEq, Eq)]
pub struct Variant {
    pub key: VariantKey,
    pub value: Pattern,
    pub default: bool,
}

#[derive(Debug, PartialEq, Eq)]
pub enum VariantKey {
    Identifier { name: String },
    NumberLiteral { value: String },
}

#[derive(Debug, PartialEq, Eq)]
pub struct CallArguments {
    pub positional: Vec<InlineExpression>,
    pub named: Vec<NamedArgument>,
}

#[derive(Debug, PartialEq, Eq)]
pub struct NamedArgument {
    pub name: String,
    pub value: InlineExpression,
}

#[derive(Debug, PartialEq, Eq)]
pub struct Attribute {
    pub id: String,
    pub value: Pattern,
}

/// A comment: its lines, without the leading `#`.
#[derive(Debug, PartialEq, Eq)]
pub struct Comment {
    pub content: Vec<String>,
}

#[derive(Debug, PartialEq, Eq)]
pub struct Message {
    pub id: String,
    pub value: Option<Pattern>,
    pub attributes: Vec<Attribute>,
    pub comment: Option<Comment>,
}

/// A term, written `-id = ...`; its id is kept without the dash.
#[derive(Debug, PartialEq, Eq)]
pub struct Term {
    pub id: String,
    pub value: Pattern,
    pub attributes: Vec<Attribute>,
    pub comment: Option<Comment>,
}

/// One top-level entry of a Fluent file.
#[derive(Debug, PartialEq, Eq)]
pub enum FluentEntry {
    Message(Message),
    Term(Term),
    Comment(Comment),
    GroupComment(Comment),
    ResourceComment(Comment),
    Junk(String),
}

} // verus!
