//! The schema file of a store, which has to be the one that goes with the configuration.
use vstd::prelude::*;

use crate::config;
use crate::error::{self, Error, ErrorModel};
use crate::text;
use crate::yaml;

verus! {

/// Why bytes are no JSON document: the parser's words, and the line and column at which it
/// stopped.
#[derive(Debug)]
pub struct JsonFault {
    pub message: String,
    pub line: usize,
    pub column: usize,
}

/// What `serde_json::from_slice` makes of bytes: the value, written without whitespace, or the
/// words and the place of the error.
pub uninterp spec fn json_read(bytes: Seq<u8>) -> Result<Seq<char>, (Seq<char>, usize, usize)>;

/// What a fault is.
pub open spec fn fault_parts(fault: JsonFault) -> (Seq<char>, usize, usize) {
    (fault.message@, fault.line, fault.column)
}

/// `serde_json::from_slice` on the given bytes. The grammar of JSON is not stated.
#[verifier::external_body]
pub(crate) fn read_json(bytes: &[u8]) -> (r: Result<serde_json::Value, JsonFault>)
    ensures
        r is Ok <==> json_read(bytes@) is Ok,
        r matches Ok(value) ==> yaml::json_text(value) == json_read(bytes@)->Ok_0,
        r matches Err(fault) ==> fault_parts(fault) == json_read(bytes@)->Err_0,
{
    serde_json::from_slice::<serde_json::Value>(bytes).map_err(
        |error| JsonFault {
            message: error.to_string(),
            line: error.line(),
            column: error.column(),
        },
    )
}

/// The number, from 0 and at most 64 bits wide, that a JSON object has under a key, by the text
/// of the object.
pub uninterp spec fn json_number(value: Seq<char>, key: Seq<char>) -> Option<u64>;

/// `Value::get` with a text, then `Value::as_u64`: the number under a key.
#[verifier::external_body]
pub(crate) fn number_at(value: &serde_json::Value, key: &str) -> (r: Option<u64>)
    ensures
        r == json_number(yaml::json_text(*value), key@),
{
    value.get(key).and_then(serde_json::Value::as_u64)
}

/// Whether two JSON values are equal, by their texts.
pub uninterp spec fn json_equal(a: Seq<char>, b: Seq<char>) -> bool;

/// `Value::eq`: whether two values are equal. Values that are written alike are.
#[verifier::external_body]
pub(crate) fn are_equal(a: &serde_json::Value, b: &serde_json::Value) -> (r: bool)
    ensures
        r == json_equal(yaml::json_text(*a), yaml::json_text(*b)),
        yaml::json_text(*a) == yaml::json_text(*b) ==> r,
{
    a == b
}

/// The key under which a schema has its version.
pub const VERSION_KEY: &'static str = "x-obsidian-todo-schema-version";

/// The error for a schema file that is no JSON.
pub open spec fn syntax_error(message: Seq<char>, line: usize, column: usize) -> ErrorModel {
    ErrorModel::validation("invalid_schema_file"@, "schema.json is invalid JSON: "@ + message)
        .with_path(".todo/schema.json"@).with_location(line, column)
}

/// The error for a schema that does not go with the configuration.
pub open spec fn mismatch() -> ErrorModel {
    ErrorModel::unsupported(
        "schema_version_mismatch"@,
        "schema.json does not match the configured schema version"@,
    ).with_path(".todo/schema.json"@)
}

/// Whether the schema that was read goes with the configuration: it has its version, and is the
/// one that is expected.
pub open spec fn check_read(
    found: Result<Seq<char>, (Seq<char>, usize, usize)>,
    expected: Result<Seq<char>, (Seq<char>, usize, usize)>,
    version: u32,
) -> Result<(), ErrorModel> {
    match found {
        Err((message, line, column)) => Err(syntax_error(message, line, column)),
        Ok(found) => match expected {
            Err((message, _, _)) => Err(
                ErrorModel::validation(
                    "invalid_embedded_schema"@,
                    "The schema embedded in this build is invalid JSON: "@ + message,
                ),
            ),
            Ok(expected) => if json_number(found, VERSION_KEY@) == Some(version as u64)
                && json_equal(found, expected) {
                Ok(())
            } else {
                Err(mismatch())
            },
        },
    }
}

/// The outcome of reading a value, as values.
pub open spec fn read_outcome(r: Result<serde_json::Value, JsonFault>) -> Result<
    Seq<char>,
    (Seq<char>, usize, usize),
> {
    match r {
        Ok(value) => Ok(yaml::json_text(value)),
        Err(fault) => Err(fault_parts(fault)),
    }
}

/// Fail where the schema that was read does not go with the configuration. See [`check_read`].
pub fn compare(
    found: Result<serde_json::Value, JsonFault>,
    expected: Result<serde_json::Value, JsonFault>,
    version: u32,
) -> (r: Result<(), Error>)
    ensures
        error::outcome(r) == check_read(read_outcome(found), read_outcome(expected), version),
{
    let found = match found {
        Ok(found) => found,
        Err(fault) => {
            return Err(
                Error::validation(
                    "invalid_schema_file",
                    text::join2("schema.json is invalid JSON: ", fault.message.as_str()).as_str(),
                ).with_path(config::SCHEMA_PATH).with_location(fault.line, fault.column),
            );
        },
    };
    let expected = match expected {
        Ok(expected) => expected,
        Err(fault) => {
            return Err(
                Error::validation(
                    "invalid_embedded_schema",
                    text::join2(
                        "The schema embedded in this build is invalid JSON: ",
                        fault.message.as_str(),
                    ).as_str(),
                ),
            );
        },
    };
    if let Some(number) = number_at(&found, VERSION_KEY) {
        if number == version as u64 && are_equal(&found, &expected) {
            return Ok(());
        }
    }
    Err(
        Error::unsupported(
            "schema_version_mismatch",
            "schema.json does not match the configured schema version",
        ).with_path(config::SCHEMA_PATH),
    )
}

/// Fail where the bytes of a schema file are not those of the expected schema, with the version
/// of the configuration.
pub fn validate_schema(bytes: &[u8], expected: &str, version: u32) -> (r: Result<(), Error>)
    ensures
        error::outcome(r) == check_read(
            json_read(bytes@),
            json_read(vstd::utf8::encode_utf8(expected@)),
            version,
        ),
{
    compare(read_json(bytes), read_json(expected.as_bytes()), version)
}

/// The schemas of the versions that are supported, as JSON.
#[derive(Debug)]
pub struct Schemas {
    pub first: String,
    pub second: String,
}

/// The schemas, as texts.
pub struct SchemasModel {
    pub first: Seq<char>,
    pub second: Seq<char>,
}

impl View for Schemas {
    type V = SchemasModel;

    open spec fn view(&self) -> SchemasModel {
        SchemasModel { first: self.first@, second: self.second@ }
    }
}

impl SchemasModel {
    /// The schema of a version, where it is supported.
    pub open spec fn of(self, version: u32) -> Result<Seq<char>, ErrorModel> {
        if version == 1 {
            Ok(self.first)
        } else if version == 2 {
            Ok(self.second)
        } else {
            Err(config::version_error(version as int))
        }
    }
}

/// The result of picking a schema, as values.
pub open spec fn pick_outcome(r: Result<&str, Error>) -> Result<Seq<char>, ErrorModel> {
    match r {
        Ok(s) => Ok(s@),
        Err(e) => Err(e@),
    }
}

impl Schemas {
    /// The schema of a version, where it is supported.
    pub fn embedded_schema(&self, version: u32) -> (r: Result<&str, Error>)
        ensures
            pick_outcome(r) == self@.of(version),
    {
        if version == 1 {
            Ok(self.first.as_str())
        } else if version == 2 {
            Ok(self.second.as_str())
        } else {
            Err(config::unsupported_version(version as i64))
        }
    }
}

} // verus!
