//! Plain-value stand-ins for the wire-level scalar types a document field can
//! hold. Each carries exactly the data the mapping layer reads; producing or
//! parsing their wire encodings is the database boundary's business.

use vstd::prelude::*;
use crate::document::{Bson, Document};

verus! {

/// A 12-byte object identifier, held as its 96-bit big-endian value.
#[derive(Debug, Clone, Copy, PartialEq, Eq, Structural, Hash)]
pub struct ObjectId(pub u128);

/// A regular expression: its pattern and its option flags.
#[derive(Debug, Clone, PartialEq, Eq, Hash)]
pub struct Regex {
    pub pattern: String,
    pub options: String,
}

/// A stored piece of JavaScript source.
#[derive(Debug, Clone, PartialEq, Eq, Hash)]
pub struct JavaScriptCode(pub String);

/// JavaScript source together with the document that provides its scope.
#[derive(Debug, PartialEq)]
pub struct JavaScriptCodeWithScope {
    pub code: String,
    pub scope: Document,
}

/// A 32-bit integer field value.
#[derive(Debug, Clone, Copy, PartialEq, Eq, Structural, Hash)]
pub struct Int32(pub i32);

/// A 64-bit integer field value.
#[derive(Debug, Clone, Copy, PartialEq, Eq, Structural, Hash)]
pub struct Int64(pub i64);

/// An internal timestamp: seconds since the epoch and an ordinal within the
/// second.
#[derive(Debug, Clone, Copy, PartialEq, Eq, Structural, Hash)]
pub struct Timestamp {
    pub time: u32,
    pub increment: u32,
}

/// A binary blob with its subtype tag.
#[derive(Debug, Clone, PartialEq, Eq, Hash)]
pub struct Binary {
    pub subtype: u8,
    pub bytes: Vec<u8>,
}

/// A point in time, in milliseconds relative to the epoch.
#[derive(Debug, Clone, Copy, PartialEq, Eq, Structural, Hash)]
pub struct DateTime(pub i64);

/// A 128-bit decimal, held as its raw bit pattern; the mapping layer never
/// interprets it.
#[derive(Debug, Clone, Copy, PartialEq, Eq, Structural, Hash)]
pub struct Decimal128(pub u128);

impl ObjectId {
    /// The value as a document field.
    pub fn to_bson(&self) -> (r: Bson)
        ensures
            r@ == crate::document::SpecBson::Oid(*self),
    {
        Bson::Oid(*self)
    }
}

impl Int32 {
    /// The value as a document field.
    pub fn to_bson(&self) -> (r: Bson)
        ensures
            r@ == crate::document::SpecBson::Int32(self.0),
    {
        Bson::Int32(self.0)
    }
}

impl Int64 {
    /// The value as a document field.
    pub fn to_bson(&self) -> (r: Bson)
        ensures
            r@ == crate::document::SpecBson::Int64(self.0),
    {
        Bson::Int64(self.0)
    }
}

impl DateTime {
    /// The value as a document field.
    pub fn to_bson(&self) -> (r: Bson)
        ensures
            r@ == crate::document::SpecBson::Date(*self),
    {
        Bson::Date(*self)
    }
}

impl Timestamp {
    /// The value as a document field.
    pub fn to_bson(&self) -> (r: Bson)
        ensures
            r@ == crate::document::SpecBson::Stamp(*self),
    {
        Bson::Stamp(*self)
    }
}

impl Decimal128 {
    /// The value as a document field.
    pub fn to_bson(&self) -> (r: Bson)
        ensures
            r@ == crate::document::SpecBson::Decimal(*self),
    {
        Bson::Decimal(*self)
    }
}

impl Regex {
    /// The value as a document field.
    pub fn to_bson(&self) -> (r: Bson)
        ensures
            r@ == crate::document::SpecBson::Re(self.pattern@, self.options@),
    {
        Bson::Re(Regex { pattern: self.pattern.clone(), options: self.options.clone() })
    }
}

impl JavaScriptCode {
    /// The value as a document field.
    pub fn to_bson(&self) -> (r: Bson)
        ensures
            r@ == crate::document::SpecBson::Code(self.0@),
    {
        Bson::Code(JavaScriptCode(self.0.clone()))
    }
}

impl Binary {
    /// The value as a document field.
    pub fn to_bson(&self) -> (r: Bson)
        ensures
            r@ == crate::document::SpecBson::Bin(self.subtype, self.bytes@),
    {
        Bson::Bin(
            Binary {
                subtype: self.subtype,
                bytes: crate::document::bytes_clone(&self.bytes),
            },
        )
    }
}

impl JavaScriptCodeWithScope {
    /// The value as a document field.
    pub fn to_bson(&self) -> (r: Bson)
        ensures
            r@ == crate::document::SpecBson::CodeWithScope(
                self.code@,
                crate::document::doc_view(self.scope),
            ),
    {
        Bson::CodeWithScope(
            JavaScriptCodeWithScope {
                code: self.code.clone(),
                scope: crate::document::doc_clone(&self.scope),
            },
        )
    }
}

} // verus!
