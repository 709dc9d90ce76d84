//! The top level of a YAML document, as the frontmatter reader sees it.
//!
//! Parsing is `serde_yaml_ng`'s. What comes back is reduced to plain values:
//! a mapping's entries, each value either a scalar or a list of scalars.

use vstd::prelude::*;

verus! {

/// A YAML scalar. Anything that is not a string, a number or a boolean —
/// null, a nested collection, a tagged value — is `Other`.
#[derive(Debug)]
pub enum Scalar {
    Str(String),
    /// A number, as YAML renders it.
    Number(String),
    Bool(bool),
    Other,
}

/// A top-level mapping value: a sequence of scalars, or a single scalar.
#[derive(Debug)]
pub enum Field {
    One(Scalar),
    List(Vec<Scalar>),
}

/// A scalar with its text as characters.
pub enum ScalarView {
    Str(Seq<char>),
    Number(Seq<char>),
    Bool(bool),
    Other,
}

/// A top-level value with its text as characters.
pub enum FieldView {
    One(ScalarView),
    List(Seq<ScalarView>),
}

pub open spec fn scalar_view(s: Scalar) -> ScalarView {
    match s {
        Scalar::Str(t) => ScalarView::Str(t@),
        Scalar::Number(t) => ScalarView::Number(t@),
        Scalar::Bool(b) => ScalarView::Bool(b),
        Scalar::Other => ScalarView::Other,
    }
}

pub open spec fn field_view(f: Field) -> FieldView {
    match f {
        Field::One(s) => FieldView::One(scalar_view(s)),
        Field::List(items) => FieldView::List(items@.map_values(|s: Scalar| scalar_view(s))),
    }
}

pub open spec fn entries_view(m: Seq<(Scalar, Field)>) -> Seq<(ScalarView, FieldView)> {
    m.map_values(|e: (Scalar, Field)| (scalar_view(e.0), field_view(e.1)))
}

/// What a YAML document is at its top level: `None` when it does not parse,
/// `Some(None)` when it parses to something other than a mapping, and
/// `Some(Some(entries))` for a mapping, entries in document order.
pub open spec fn document_view(d: Option<Option<Vec<(Scalar, Field)>>>) -> Option<
    Option<Seq<(ScalarView, FieldView)>>,
> {
    match d {
        None => None,
        Some(None) => Some(None),
        Some(Some(m)) => Some(Some(entries_view(m@))),
    }
}

/// What `serde_yaml_ng` reads from a document, reduced as above. It depends on
/// the text alone.
pub uninterp spec fn yaml_top_level(text: Seq<char>) -> Option<Option<Seq<(ScalarView, FieldView)>>>;

/// `serde_yaml_ng::Value`, carried through unopened.
#[verifier::external_type_specification]
#[verifier::external_body]
pub struct ExYamlValue(serde_yaml_ng::Value);

/// A YAML value reduced to a scalar.
#[verifier::external_body]
fn scalar_of(value: &serde_yaml_ng::Value) -> Scalar {
    match value {
        serde_yaml_ng::Value::String(s) => Scalar::Str(s.clone()),
        serde_yaml_ng::Value::Number(n) => Scalar::Number(n.to_string()),
        serde_yaml_ng::Value::Bool(b) => Scalar::Bool(*b),
        _ => Scalar::Other,
    }
}

/// A YAML value reduced to a field: a sequence becomes a list of scalars.
#[verifier::external_body]
fn field_of(value: &serde_yaml_ng::Value) -> Field {
    match value {
        serde_yaml_ng::Value::Sequence(items) => Field::List(items.iter().map(scalar_of).collect()),
        other => Field::One(scalar_of(other)),
    }
}

/// Parse `text` with `serde_yaml_ng::from_str` into a `serde_yaml_ng::Value`
/// and reduce its top level to plain values. The contract claims only that
/// the outcome is a function of the text, named `yaml_top_level`.
#[verifier::external_body]
pub(crate) fn parse_top_level(text: &str) -> (r: Option<Option<Vec<(Scalar, Field)>>>)
    ensures
        document_view(r) == yaml_top_level(text@),
{
    match serde_yaml_ng::from_str::<serde_yaml_ng::Value>(text) {
        Ok(value) => Some(
            value.as_mapping().map(|m| m.iter().map(|(k, v)| (scalar_of(k), field_of(v))).collect()),
        ),
        Err(_) => None,
    }
}

} // verus!
