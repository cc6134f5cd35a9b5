//! Protocol templates: the description of a binary message layout that the
//! interpreter follows and the compiler turns into bytecode.

use vstd::prelude::*;
use crate::json::JsonValue;

verus! {

/// Byte order of multi-byte fields.
#[derive(Debug, Clone, Copy, PartialEq, Eq, Structural)]
pub enum Endian {
    Little,
    Big,
}

impl Default for Endian {
    /// Big-endian, network order.
    fn default() -> (r: Self)
        ensures
            r == Endian::Big,
    {
        Endian::Big
    }
}

/// The type of a scalar field.
#[derive(Debug, Clone, Copy, PartialEq, Eq, Structural)]
pub enum FieldType {
    U8,
    U16,
    U32,
    U64,
    I8,
    I16,
    I32,
    I64,
    F32,
    F64,
    Bytes,
    String,
}

/// A test on a field parsed earlier: every operator given must hold.
#[derive(Debug)]
pub struct Condition {
    pub field: String,
    pub eq: Option<JsonValue>,
    pub ne: Option<JsonValue>,
    pub gt: Option<JsonValue>,
    pub lt: Option<JsonValue>,
    pub ge: Option<JsonValue>,
    pub le: Option<JsonValue>,
    pub in_list: Option<Vec<JsonValue>>,
}

/// One element of a template.
#[derive(Debug)]
pub enum Field {
    /// A single value; `length` or `length_field` gives the size of bytes
    /// and strings, which otherwise take the rest of the data.
    Scalar {
        name: String,
        data_type: FieldType,
        endian: Option<Endian>,
        length: Option<usize>,
        length_field: Option<String>,
        encoding: Option<String>,
    },
    /// A group of fields, nested under `name` or merged into the enclosing object.
    Struct { name: Option<String>, fields: Vec<Field> },
    /// The fields of the first branch whose condition holds, else the default ones.
    Conditional {
        name: Option<String>,
        conditions: Vec<ConditionalBranch>,
        default: Option<Vec<Field>>,
    },
    /// Repetitions of `element`: a fixed count, the count held by an earlier
    /// field, or until the data ends.
    Array {
        name: String,
        element: Box<Field>,
        count: Option<usize>,
        count_field: Option<String>,
        until_eof: bool,
    },
}

/// A branch of a conditional field.
#[derive(Debug)]
pub struct ConditionalBranch {
    pub when: Option<Condition>,
    pub fields: Vec<Field>,
}

/// Bytes that a payload must hold at a given offset, written in hexadecimal.
#[derive(Debug)]
pub struct TemplateSignature {
    pub offset: usize,
    pub bytes: String,
}

/// A whole template.
#[derive(Debug)]
pub struct ProtocolTemplate {
    pub name: Option<String>,
    pub endian: Endian,
    pub signature: Option<TemplateSignature>,
    pub fields: Vec<Field>,
}

/// The text formats a template file can be written in.
#[derive(Debug, Clone, Copy, PartialEq, Eq, Structural)]
pub enum TemplateFormat {
    Yaml,
    Json,
}

/// Why a template file name gives no format.
#[derive(Debug)]
pub enum TemplateFileError {
    UnsupportedFormat(String),
    NoExtension,
}

/// The format a template file is read in, from its file-name extension.
pub open spec fn format_for_extension(ext: Option<Seq<char>>) -> Option<TemplateFormat> {
    match ext {
        Some(e) => if e == "yaml"@ || e == "yml"@ {
            Some(TemplateFormat::Yaml)
        } else if e == "json"@ {
            Some(TemplateFormat::Json)
        } else {
            None
        },
        None => None,
    }
}

/// Chooses how to read a template file from its extension: `yaml` and `yml`
/// are YAML, `json` is JSON, anything else is refused.
pub fn template_format(ext: Option<&str>) -> (r: Result<TemplateFormat, TemplateFileError>)
    ensures
        match ext {
            Some(e) => match format_for_extension(Some(e@)) {
                Some(f) => r == Ok::<TemplateFormat, TemplateFileError>(f),
                None => r matches Err(TemplateFileError::UnsupportedFormat(x)) && x@ == e@,
            },
            None => r matches Err(TemplateFileError::NoExtension),
        },
{
    match ext {
        Some(e) => {
            proof {
                reveal_strlit("yaml");
                reveal_strlit("yml");
                reveal_strlit("json");
            }
            if crate::json::compare_keys(e, "yaml") == crate::json::KeyOrder::Equal
                || crate::json::compare_keys(e, "yml") == crate::json::KeyOrder::Equal {
                Ok(TemplateFormat::Yaml)
            } else if crate::json::compare_keys(e, "json") == crate::json::KeyOrder::Equal {
                Ok(TemplateFormat::Json)
            } else {
                Err(TemplateFileError::UnsupportedFormat(e.to_owned()))
            }
        },
        None => Err(TemplateFileError::NoExtension),
    }
}

} // verus!
