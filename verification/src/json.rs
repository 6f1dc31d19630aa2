//! JSON values carried through the library without being inspected.
use vstd::prelude::*;

verus! {

/// `serde_json::Value`, carried opaquely (property values, parameter values).
#[verifier::external_type_specification]
#[verifier::external_body]
pub struct ExJsonValue(serde_json::Value);

/// `serde_json::Value::clone`: the derived `Clone` of `Value` yields an equal value.
pub assume_specification[ <serde_json::Value as Clone>::clone ](v: &serde_json::Value) -> (r: serde_json::Value)
    ensures
        r == *v,
;


/// What `serde_json::from_str::<serde_json::Map<String, Value>>` gives `text`:
/// the object's entries in the map's order, or the error's message.
pub uninterp spec fn json_object(text: Seq<char>) -> Result<Seq<(Seq<char>, serde_json::Value)>, Seq<char>>;

/// Parses `text` as a JSON object with `serde_json::from_str`; the error is
/// given by its `Display` text.
#[verifier::external_body]
pub(crate) fn parse_json_object(text: &str) -> (r: Result<Vec<(String, serde_json::Value)>, String>)
    ensures
        match r {
            Ok(v) => json_object(text@) == Ok::<Seq<(Seq<char>, serde_json::Value)>, Seq<char>>(
                v@.map_values(|p: (String, serde_json::Value)| (p.0@, p.1)),
            ),
            Err(e) => json_object(text@) == Err::<Seq<(Seq<char>, serde_json::Value)>, Seq<char>>(e@),
        },
{
    match serde_json::from_str::<serde_json::Map<String, serde_json::Value>>(text) {
        Ok(m) => Ok(m.into_iter().collect()),
        Err(e) => Err(e.to_string()),
    }
}

/// What `serde_json::from_str::<serde_json::Value>` gives `text`: the value,
/// or the error's message.
pub uninterp spec fn json_value(text: Seq<char>) -> Result<serde_json::Value, Seq<char>>;

/// Parses `text` as any JSON value with `serde_json::from_str`; the error is
/// given by its `Display` text.
#[verifier::external_body]
pub(crate) fn parse_json_value(text: &str) -> (r: Result<serde_json::Value, String>)
    ensures
        match r {
            Ok(v) => json_value(text@) == Ok::<serde_json::Value, Seq<char>>(v),
            Err(e) => json_value(text@) == Err::<serde_json::Value, Seq<char>>(e@),
        },
{
    match serde_json::from_str::<serde_json::Value>(text) {
        Ok(v) => Ok(v),
        Err(e) => Err(e.to_string()),
    }
}

/// A JSON value told apart as an array (its items), an object (its entries,
/// in the map's order) or anything else (kept whole).
#[derive(Debug)]
pub enum JsonShape {
    Array(Vec<serde_json::Value>),
    Object(Vec<(String, serde_json::Value)>),
    Scalar(serde_json::Value),
}

pub enum JsonShapeView {
    Array(Seq<serde_json::Value>),
    Object(Seq<(Seq<char>, serde_json::Value)>),
    Scalar(serde_json::Value),
}

impl View for JsonShape {
    type V = JsonShapeView;

    open spec fn view(&self) -> JsonShapeView {
        match self {
            JsonShape::Array(items) => JsonShapeView::Array(items@),
            JsonShape::Object(es) => JsonShapeView::Object(
                es@.map_values(|p: (String, serde_json::Value)| (p.0@, p.1)),
            ),
            JsonShape::Scalar(v) => JsonShapeView::Scalar(*v),
        }
    }
}

/// The shape of a JSON value: an array's items, an object's entries as the
/// `serde_json::Map` walks them, or the value itself.
pub uninterp spec fn json_shape_of(v: serde_json::Value) -> JsonShapeView;

/// Opens a `serde_json::Value` that is an array or an object: one arm per
/// variant, moving the payload; any other value is carried unchanged.
#[verifier::external_body]
pub(crate) fn json_shape(v: serde_json::Value) -> (r: JsonShape)
    ensures
        r@ == json_shape_of(v),
        r matches JsonShape::Scalar(w) ==> w == v,
{
    match v {
        serde_json::Value::Array(items) => JsonShape::Array(items),
        serde_json::Value::Object(m) => JsonShape::Object(m.into_iter().collect()),
        serde_json::Value::Null => JsonShape::Scalar(serde_json::Value::Null),
        serde_json::Value::Bool(b) => JsonShape::Scalar(serde_json::Value::Bool(b)),
        serde_json::Value::Number(n) => JsonShape::Scalar(serde_json::Value::Number(n)),
        serde_json::Value::String(t) => JsonShape::Scalar(serde_json::Value::String(t)),
    }
}

/// A JSON value told apart by its variant: strings, booleans and numbers (with
/// the number's text) opened, `null` and arrays or objects kept whole.
#[derive(Debug)]
pub enum JsonLeaf {
    Text(String),
    Boolean(bool),
    Number(String, serde_json::Value),
    Null(serde_json::Value),
    Other(serde_json::Value),
}

pub enum JsonLeafView {
    Text(Seq<char>),
    Boolean(bool),
    Number(Seq<char>, serde_json::Value),
    Null(serde_json::Value),
    Other(serde_json::Value),
}

impl View for JsonLeaf {
    type V = JsonLeafView;

    open spec fn view(&self) -> JsonLeafView {
        match self {
            JsonLeaf::Text(s) => JsonLeafView::Text(s@),
            JsonLeaf::Boolean(b) => JsonLeafView::Boolean(*b),
            JsonLeaf::Number(t, v) => JsonLeafView::Number(t@, *v),
            JsonLeaf::Null(v) => JsonLeafView::Null(*v),
            JsonLeaf::Other(v) => JsonLeafView::Other(*v),
        }
    }
}

/// The variant of a JSON value, and for a number the text that
/// `serde_json::Number`'s `Display` gives.
pub uninterp spec fn json_leaf_of(v: serde_json::Value) -> JsonLeafView;

/// Opens a `serde_json::Value` by its variant: one arm per variant, moving the
/// payload; a number's text comes from `Number::to_string`. A number or a
/// value kept whole is carried unchanged.
#[verifier::external_body]
pub(crate) fn json_leaf(v: serde_json::Value) -> (r: JsonLeaf)
    ensures
        r@ == json_leaf_of(v),
        r matches JsonLeaf::Number(_, w) ==> w == v,
        r matches JsonLeaf::Null(w) ==> w == v,
        r matches JsonLeaf::Other(w) ==> w == v,
{
    match v {
        serde_json::Value::String(s) => JsonLeaf::Text(s),
        serde_json::Value::Bool(b) => JsonLeaf::Boolean(b),
        serde_json::Value::Number(n) => JsonLeaf::Number(n.to_string(), serde_json::Value::Number(n)),
        serde_json::Value::Null => JsonLeaf::Null(serde_json::Value::Null),
        serde_json::Value::Array(a) => JsonLeaf::Other(serde_json::Value::Array(a)),
        serde_json::Value::Object(o) => JsonLeaf::Other(serde_json::Value::Object(o)),
    }
}

/// `serde_json::Value::Null`, which `json_leaf` tells apart as `null`.
#[verifier::external_body]
pub(crate) fn json_null() -> (r: serde_json::Value)
    ensures
        json_leaf_of(r) matches JsonLeafView::Null(_),
{
    serde_json::Value::Null
}

/// The JSON text of a value, as its `Display` writes it.
pub uninterp spec fn json_text(v: serde_json::Value) -> Seq<char>;

/// `serde_json::Value::to_string` (its `Display`); the contract only names the
/// text.
#[verifier::external_body]
pub(crate) fn json_to_text(v: &serde_json::Value) -> (r: String)
    ensures
        r@ == json_text(*v),
{
    v.to_string()
}

} // verus!
