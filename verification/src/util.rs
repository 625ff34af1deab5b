//! Helpers shared by the rest of the crate.
pub mod dependencies;
pub mod fs;
pub mod hash;
pub mod search;
pub mod text;
pub mod transaction;
use vstd::prelude::*;
use vstd::string::StringExecFns;
use crate::error::{LError, LErrorClass, LErrorView};
use crate::util::text::{parse_number, parse_number_spec};

verus! {

/// Ensures a directory exists: says whether `dir` has to be created, which
/// is the case exactly where it does not exist.
pub fn ensure_dir(dir: &str, exists: bool) -> (r: Option<String>)
    ensures
        exists ==> r is None,
        !exists ==> r is Some && r->Some_0@ == dir@,
{
    if exists {
        None
    } else {
        Some(String::from_str(dir))
    }
}

/// A number as catalogs write it: as a number, or as the text of one.
#[derive(Debug)]
pub enum StringOrInt {
    String(String),
    Number(u64),
}

/// The error for a text that is no number.
pub open spec fn number_error(text: Seq<char>) -> LErrorView {
    LErrorView { class: LErrorClass::JSON, messages: seq!["Invalid number: "@ + text] }
}

/// Reads a number that is given as a number or as text: a number is taken
/// as it is, a text has to be an unsigned decimal number of 64 bits.
pub fn deserialize_number_from_string(value: &StringOrInt) -> (r: Result<u64, LError>)
    ensures
        match value {
            StringOrInt::Number(n) => r == Ok::<u64, LError>(*n),
            StringOrInt::String(s) => match parse_number_spec(s@) {
                Some(n) => r == Ok::<u64, LError>(n),
                None => r is Err && r->Err_0@ == number_error(s@),
            },
        },
{
    match value {
        StringOrInt::Number(n) => Ok(*n),
        StringOrInt::String(s) => match parse_number(s.as_str()) {
            Some(n) => Ok(n),
            None => {
                let mut text = String::from_str("Invalid number: ");
                text.append(s.as_str());
                Err(LError::new(LErrorClass::JSON, text.as_str()))
            },
        },
    }
}

} // verus!
