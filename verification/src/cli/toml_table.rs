//! Tables of a TOML document.

use vstd::prelude::*;

verus! {

/// A table of a TOML document.
#[verifier::external_type_specification]
#[verifier::external_body]
#[verifier::reject_recursive_types(K)]
#[verifier::reject_recursive_types(V)]
pub struct ExMap<K, V>(toml::map::Map<K, V>);

/// A value of a TOML document.
#[verifier::external_type_specification]
#[verifier::external_body]
pub struct ExValue(toml::Value);

/// What a TOML value says, as far as settings go.
pub enum SettingModel {
    Text(Seq<char>),
    Integer(i64),
    Table(Map<Seq<char>, SettingModel>),
    Other,
}

/// What is looked up in a table.
#[derive(Debug, PartialEq, Eq)]
pub enum Found<T> {
    Missing,
    /// There is something else.
    WrongType,
    Value(T),
}

/// The values of a table, by their keys.
pub uninterp spec fn settings(t: toml::map::Map<String, toml::Value>) -> Map<
    Seq<char>,
    SettingModel,
>;

/// The top-level table of a TOML document, or what is wrong with the document.
pub uninterp spec fn document(text: Seq<char>) -> core::result::Result<
    Map<Seq<char>, SettingModel>,
    Seq<char>,
>;

/// `toml::from_str`, for a document of which nothing is expected but that it
/// has a top-level table, with an error turned into its text. What comes out
/// depends on the text alone.
#[verifier::external_body]
pub(crate) fn parse_toml(text: &str) -> (r: core::result::Result<
    toml::map::Map<String, toml::Value>,
    String,
>)
    ensures
        match r {
            Ok(t) => document(text@) == Ok::<Map<Seq<char>, SettingModel>, Seq<char>>(settings(t)),
            Err(e) => document(text@) == Err::<Map<Seq<char>, SettingModel>, Seq<char>>(e@),
        },
{
    match toml::from_str(text) {
        Ok(table) => Ok(table),
        Err(e) => Err(e.to_string()),
    }
}

/// `toml::map::Map::get` and `toml::Value::as_str`.
#[verifier::external_body]
pub(crate) fn get_text(t: &toml::map::Map<String, toml::Value>, key: &str) -> (r: Found<String>)
    ensures
        match r {
            Found::Missing => !settings(*t).dom().contains(key@),
            Found::WrongType => settings(*t).dom().contains(key@) && !(settings(*t)[key@] is Text),
            Found::Value(s) => settings(*t).dom().contains(key@) && settings(*t)[key@]
                == SettingModel::Text(s@),
        },
{
    match t.get(key) {
        None => Found::Missing,
        Some(value) => match value.as_str() {
            None => Found::WrongType,
            Some(s) => Found::Value(s.to_owned()),
        },
    }
}

/// `toml::map::Map::get` and `toml::Value::as_integer`.
#[verifier::external_body]
pub(crate) fn get_integer(t: &toml::map::Map<String, toml::Value>, key: &str) -> (r: Found<i64>)
    ensures
        match r {
            Found::Missing => !settings(*t).dom().contains(key@),
            Found::WrongType => settings(*t).dom().contains(key@) && !(settings(
                *t,
            )[key@] is Integer),
            Found::Value(i) => settings(*t).dom().contains(key@) && settings(*t)[key@]
                == SettingModel::Integer(i),
        },
{
    match t.get(key) {
        None => Found::Missing,
        Some(value) => match value.as_integer() {
            None => Found::WrongType,
            Some(i) => Found::Value(i),
        },
    }
}

/// `toml::map::Map::get` and `toml::Value::as_table`.
#[verifier::external_body]
pub(crate) fn get_table<'a>(t: &'a toml::map::Map<String, toml::Value>, key: &str) -> (r: Found<
    &'a toml::map::Map<String, toml::Value>,
>)
    ensures
        match r {
            Found::Missing => !settings(*t).dom().contains(key@),
            Found::WrongType => settings(*t).dom().contains(key@) && !(settings(*t)[key@] is Table),
            Found::Value(sub) => settings(*t).dom().contains(key@) && settings(*t)[key@]
                == SettingModel::Table(settings(*sub)),
        },
{
    match t.get(key) {
        None => Found::Missing,
        Some(value) => match value.as_table() {
            None => Found::WrongType,
            Some(sub) => Found::Value(sub),
        },
    }
}

} // verus!
