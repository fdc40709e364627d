//! The value library: how the `toml` crate writes and reads a string.

use vstd::prelude::*;

verus! {

/// The text that the `toml` crate writes for the string `s`: `s` between
/// quotes, with the quotes and the escapes that the crate picks for it.
pub uninterp spec fn toml_string_text(s: Seq<char>) -> Seq<char>;

/// The string that the `toml` crate reads from `text`, where `text` is one
/// value and that value is a string.
pub uninterp spec fn toml_string_value(text: Seq<char>) -> Option<Seq<char>>;

/// Calls `Display` of `toml::Value` on a `toml::Value::String` that holds
/// `s`. The crate serialises the string into a buffer and hands the buffer
/// on; for a string this cannot fail. The result depends on `s` alone.
#[verifier::external_body]
pub(crate) fn quote_string(s: &str) -> (text: String)
    ensures
        text@ == toml_string_text(s@),
{
    toml::Value::String(String::from(s)).to_string()
}

/// Calls `FromStr` of `toml::Value` on `text`, which parses `text` as one
/// value and reports what it cannot parse as an error. Gives the string
/// where the value is one, and nothing where parsing fails or the value is
/// of another type. The result depends on `text` alone.
#[verifier::external_body]
pub(crate) fn unquote_string(text: &str) -> (value: Option<String>)
    ensures
        match value {
            Some(s) => toml_string_value(text@) == Some(s@),
            None => toml_string_value(text@) is None,
        },
{
    match text.parse::<toml::Value>() {
        Ok(toml::Value::String(s)) => Some(s),
        Ok(_) => None,
        Err(_) => None,
    }
}

} // verus!
