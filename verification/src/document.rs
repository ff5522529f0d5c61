//! Documents: values that describe themselves as scalars, sequences, keyed
//! records, maps and tagged variants.

use crate::json::{
    json_clone, json_from_bool, json_from_char, json_from_i64, json_from_str, json_from_u64,
    json_from_unit, json_view, Json,
};
use vstd::prelude::*;

verus! {

/// A value without parts, as a document hands it over.
#[derive(Debug, Clone, Copy, PartialEq)]
pub enum Primitive<'a> {
    Unit,
    Bool(bool),
    Signed(i64),
    Unsigned(u64),
    Char(char),
    Text(&'a str),
    /// A value that is JSON already.
    Json(&'a serde_json::Value),
}

impl<'a> Primitive<'a> {
    /// The JSON value that stands for the primitive.
    pub open spec fn json(self) -> Json {
        match self {
            Primitive::Unit => Json::Null,
            Primitive::Bool(v) => Json::Bool(v),
            Primitive::Signed(v) => Json::Number(v as int),
            Primitive::Unsigned(v) => Json::Number(v as int),
            Primitive::Char(v) => Json::Text(seq![v]),
            Primitive::Text(v) => Json::Text(v@),
            Primitive::Json(v) => json_view(*v),
        }
    }

    /// Converts the primitive to JSON.
    pub fn to_json(&self) -> (r: Result<serde_json::Value, serde_json::Error>)
        ensures
            r is Ok,
            json_view(r->Ok_0) == self.json(),
    {
        match self {
            Primitive::Unit => json_from_unit(),
            Primitive::Bool(v) => json_from_bool(*v),
            Primitive::Signed(v) => json_from_i64(*v),
            Primitive::Unsigned(v) => json_from_u64(*v),
            Primitive::Char(v) => json_from_char(*v),
            Primitive::Text(v) => json_from_str(v),
            Primitive::Json(v) => Ok(json_clone(v)),
        }
    }
}

/// A document: what a value tells of itself when it is traversed.
#[derive(Debug, PartialEq)]
pub enum Document {
    /// The unit value, or a struct without fields.
    Unit,
    Bool(bool),
    Signed(i64),
    Unsigned(u64),
    Char(char),
    Text(String),
    /// A scalar that is JSON already, such as a floating point number.
    Json(serde_json::Value),
    /// An optional value that is absent.
    Absent,
    /// An optional value that is present.
    Present(Box<Document>),
    /// A variant without payload.
    UnitVariant(String),
    /// A struct that wraps one value.
    Newtype(Box<Document>),
    /// A variant that wraps one value.
    NewtypeVariant(String, Box<Document>),
    /// A sequence, a tuple or a tuple struct.
    Sequence(Vec<Document>),
    /// A variant that holds a tuple.
    TupleVariant(String, Vec<Document>),
    /// A map, as pairs of key and value.
    Mapping(Vec<(Document, Document)>),
    /// A struct, as pairs of field name and value.
    Struct(Vec<(String, Document)>),
    /// A variant that holds named fields.
    StructVariant(String, Vec<(String, Document)>),
    /// A value that fails to describe itself, with its complaint.
    Unrepresentable(String),
}

/// Mathematical model of a [`Document`]: its shape as the traversal sees it.
/// Optional values and wrapping structs do not show in it.
pub enum Tree {
    /// A value without parts that is no string.
    Scalar(Json),
    /// A string, which may serve as a key.
    Text(Seq<char>),
    /// A sequence of values.
    List(Seq<Tree>),
    /// Named fields, in their order.
    Record(Seq<(Seq<char>, Tree)>),
    /// Pairs of key and value, in their order.
    Dict(Seq<(Tree, Tree)>),
    /// A named case with its payload.
    Variant(Seq<char>, Box<Tree>),
    /// A value that fails to describe itself.
    Broken(Seq<char>),
}

/// The model of a document.
pub open spec fn tree_of(doc: Document) -> Tree
    decreases doc,
{
    match doc {
        Document::Unit => Tree::Scalar(Json::Null),
        Document::Bool(v) => Tree::Scalar(Json::Bool(v)),
        Document::Signed(v) => Tree::Scalar(Json::Number(v as int)),
        Document::Unsigned(v) => Tree::Scalar(Json::Number(v as int)),
        Document::Char(v) => Tree::Scalar(Json::Text(seq![v])),
        Document::Text(v) => Tree::Text(v@),
        Document::Json(v) => Tree::Scalar(json_view(v)),
        Document::Absent => Tree::Scalar(Json::Null),
        Document::Present(inner) => tree_of(*inner),
        Document::UnitVariant(name) => Tree::Text(name@),
        Document::Newtype(inner) => tree_of(*inner),
        Document::NewtypeVariant(name, inner) => Tree::Variant(name@, Box::new(tree_of(*inner))),
        Document::Sequence(items) => Tree::List(trees_of(items@)),
        Document::TupleVariant(name, items) => Tree::Variant(
            name@,
            Box::new(Tree::List(trees_of(items@))),
        ),
        Document::Mapping(entries) => Tree::Dict(entries_of(entries@)),
        Document::Struct(fields) => Tree::Record(fields_of(fields@)),
        Document::StructVariant(name, fields) => Tree::Variant(
            name@,
            Box::new(Tree::Record(fields_of(fields@))),
        ),
        Document::Unrepresentable(complaint) => Tree::Broken(complaint@),
    }
}

/// The models of the items of a sequence.
pub open spec fn trees_of(items: Seq<Document>) -> Seq<Tree>
    decreases items,
{
    Seq::new(
        items.len(),
        |i: int|
            if 0 <= i < items.len() {
                tree_of(items[i])
            } else {
                Tree::Scalar(Json::Null)
            },
    )
}

/// The models of the entries of a map.
pub open spec fn entries_of(entries: Seq<(Document, Document)>) -> Seq<(Tree, Tree)>
    decreases entries,
{
    Seq::new(
        entries.len(),
        |i: int|
            if 0 <= i < entries.len() {
                (tree_of(entries[i].0), tree_of(entries[i].1))
            } else {
                (Tree::Scalar(Json::Null), Tree::Scalar(Json::Null))
            },
    )
}

/// The models of the fields of a struct.
pub open spec fn fields_of(fields: Seq<(String, Document)>) -> Seq<(Seq<char>, Tree)>
    decreases fields,
{
    Seq::new(
        fields.len(),
        |i: int|
            if 0 <= i < fields.len() {
                (fields[i].0@, tree_of(fields[i].1))
            } else {
                (Seq::empty(), Tree::Scalar(Json::Null))
            },
    )
}

impl View for Document {
    type V = Tree;

    open spec fn view(&self) -> Tree {
        tree_of(*self)
    }
}

impl Document {
    /// The string that the document is, if it is one: only a string can be
    /// the key of a map entry.
    pub fn key_text(&self) -> (key: Option<&str>)
        ensures
            match self@ {
                Tree::Text(text) => key is Some && key->Some_0@ == text,
                _ => key is None,
            },
        decreases self,
    {
        match self {
            Document::Text(text) => Some(text.as_str()),
            Document::UnitVariant(name) => Some(name.as_str()),
            Document::Present(inner) => inner.key_text(),
            Document::Newtype(inner) => inner.key_text(),
            _ => None,
        }
    }
}

} // verus!
