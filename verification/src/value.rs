use vstd::prelude::*;

verus! {

/// The generic tree value standing between XML text and native structures.
///
/// A number is held as its decimal text, so that the tree carries plain
/// values only; the boundary that talks to a host language converts between
/// that text and its native floating-point type.
///
/// A map is held as a vector of key/value entries in insertion order; keys
/// are meant to be unique within one map, and the decoder only ever builds
/// maps with unique keys.
#[derive(Debug, PartialEq, Eq)]
pub enum Value {
    Null,
    Bool(bool),
    Number(String),
    Text(String),
    List(Vec<Value>),
    Object(Vec<(String, Value)>),
}

/// The mathematical model of a tree value, used by every contract.
#[verifier::ext_equal]
pub enum Tree {
    Null,
    Bool(bool),
    Number(Seq<char>),
    Text(Seq<char>),
    List(Seq<Tree>),
    Object(Seq<(Seq<char>, Tree)>),
}

impl Value {
    /// The model of this value: the same tree over sequences of characters.
    pub open spec fn model(self) -> Tree
        decreases self,
    {
        match self {
            Value::Null => Tree::Null,
            Value::Bool(b) => Tree::Bool(b),
            Value::Number(s) => Tree::Number(s@),
            Value::Text(s) => Tree::Text(s@),
            Value::List(items) => Tree::List(
                Seq::new(
                    items@.len(),
                    |i: int|
                        if 0 <= i < items@.len() {
                            items@[i].model()
                        } else {
                            Tree::Null
                        },
                ),
            ),
            Value::Object(entries) => Tree::Object(
                Seq::new(
                    entries@.len(),
                    |i: int|
                        if 0 <= i < entries@.len() {
                            (entries@[i].0@, entries@[i].1.model())
                        } else {
                            (Seq::empty(), Tree::Null)
                        },
                ),
            ),
        }
    }
}

/// Why a conversion failed.
#[derive(Debug, PartialEq, Eq)]
pub enum XmlError {
    /// The XML reader reported a syntax problem at the given byte position.
    MalformedXml { position: u64, message: String },
    /// The document held no root element.
    EmptyDocument,
    /// The value handed to the encoder is not representable: its top level
    /// is not a string-keyed map.
    UnsupportedValueType,
    /// The assembled output is not valid text in the declared encoding.
    EncodingError,
}

/// The mathematical model of a conversion failure.
#[verifier::ext_equal]
pub enum Fault {
    MalformedXml { position: u64, message: Seq<char> },
    EmptyDocument,
    UnsupportedValueType,
    EncodingError,
}

impl XmlError {
    /// The model of this error.
    pub open spec fn model(self) -> Fault {
        match self {
            XmlError::MalformedXml { position, message } => Fault::MalformedXml {
                position,
                message: message@,
            },
            XmlError::EmptyDocument => Fault::EmptyDocument,
            XmlError::UnsupportedValueType => Fault::UnsupportedValueType,
            XmlError::EncodingError => Fault::EncodingError,
        }
    }
}

/// The model of a whole conversion result.
pub open spec fn outcome_model(r: Result<Value, XmlError>) -> Result<Tree, Fault> {
    match r {
        Ok(v) => Ok(v.model()),
        Err(e) => Err(e.model()),
    }
}

} // verus!
