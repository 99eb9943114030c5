//! JSON objects, as the payloads of events and the bodies of errors.

use crate::text::copy_optional;
use vstd::prelude::*;

verus! {

/// A value in an object.
pub enum Scalar {
    Null,
    Text(String),
    Number(i64),
}

/// The mathematical reading of a [`Scalar`].
pub enum ScalarModel {
    Null,
    Text(Seq<char>),
    Number(int),
}

/// A key of an object and its value.
pub struct Field {
    pub key: String,
    pub value: Scalar,
}

impl View for Field {
    type V = (Seq<char>, ScalarModel);

    open spec fn view(&self) -> (Seq<char>, ScalarModel) {
        (
            self.key@,
            match self.value {
                Scalar::Null => ScalarModel::Null,
                Scalar::Text(s) => ScalarModel::Text(s@),
                Scalar::Number(n) => ScalarModel::Number(n as int),
            },
        )
    }
}

/// The fields, one by one.
pub open spec fn field_models(v: Seq<Field>) -> Seq<(Seq<char>, ScalarModel)> {
    Seq::new(v.len(), |i: int| v[i]@)
}

/// The text that `serde_json` writes for an object with these fields.
pub uninterp spec fn json_object(fields: Seq<(Seq<char>, ScalarModel)>) -> Seq<char>;

/// `serde_json::Value::to_string`, on an object that holds `fields`. The
/// contract says that the text depends on the fields alone and names it
/// [`json_object`]; it says nothing of how the text is laid out.
#[verifier::external_body]
pub(crate) fn object_text(fields: &Vec<Field>) -> (r: String)
    ensures
        r@ == json_object(field_models(fields@)),
{
    let convert = |f: &Field| {
        let value = match &f.value {
            Scalar::Null => serde_json::Value::Null,
            Scalar::Text(s) => serde_json::Value::from(s.as_str()),
            Scalar::Number(n) => serde_json::Value::from(*n),
        };
        (f.key.clone(), value)
    };
    serde_json::Value::Object(fields.iter().map(convert).collect()).to_string()
}

/// A string field.
pub open spec fn text_field(key: Seq<char>, value: Seq<char>) -> (Seq<char>, ScalarModel) {
    (key, ScalarModel::Text(value))
}

/// A string field that may be null.
pub open spec fn optional_field(key: Seq<char>, value: Option<Seq<char>>) -> (
    Seq<char>,
    ScalarModel,
) {
    (
        key,
        match value {
            Some(s) => ScalarModel::Text(s),
            None => ScalarModel::Null,
        },
    )
}

/// A number field.
pub open spec fn number_field(key: Seq<char>, value: int) -> (Seq<char>, ScalarModel) {
    (key, ScalarModel::Number(value))
}

pub(crate) fn text(key: &str, value: &str) -> (f: Field)
    ensures
        f@ == text_field(key@, value@),
{
    Field { key: key.to_owned(), value: Scalar::Text(value.to_owned()) }
}

pub(crate) fn optional_text(key: &str, value: &Option<String>) -> (f: Field)
    ensures
        f@ == optional_field(key@, crate::text::optional(*value)),
{
    match copy_optional(value) {
        Some(s) => Field { key: key.to_owned(), value: Scalar::Text(s) },
        None => Field { key: key.to_owned(), value: Scalar::Null },
    }
}

pub(crate) fn number(key: &str, value: i64) -> (f: Field)
    ensures
        f@ == number_field(key@, value as int),
{
    Field { key: key.to_owned(), value: Scalar::Number(value) }
}

/// A field is its key and its value; an optional text that is missing is null.
pub proof fn law_fields(key: Seq<char>, value: Seq<char>, n: int, v: Seq<Field>, i: int)
    ensures
        text_field(key, value) == (key, ScalarModel::Text(value)),
        optional_field(key, Some(value)) == (key, ScalarModel::Text(value)),
        optional_field(key, None) == (key, ScalarModel::Null),
        number_field(key, n) == (key, ScalarModel::Number(n)),
        field_models(v).len() == v.len(),
        0 <= i < v.len() ==> field_models(v)[i] == v[i]@,
{
}

} // verus!
