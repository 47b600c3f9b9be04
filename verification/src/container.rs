//! Container tag decoding, done by the exif crate behind one trusted
//! wrapper.

use vstd::prelude::*;
use crate::fields::{ExifField, FieldV};
use exif::{Error, Reader};
use std::io::{Cursor, ErrorKind};

verus! {

/// Outcome of running the container tag decoder on a byte buffer.
pub enum ContainerTags {
    /// Decoding succeeded; the records in decoder order.
    Records(Vec<ExifField>),
    /// The container holds no tag data; callers treat this as zero
    /// records.
    NoTagData,
    /// The bytes are not in a well-formed container format; carries the
    /// decoder's message.
    InvalidFormat(String),
    /// The data ended unexpectedly while decoding.
    TruncatedInput,
    /// Any other decoding failure, with its message.
    OtherFailure(String),
}

/// Mathematical model of a decode outcome.
pub ghost enum ContainerTagsV {
    Records(Seq<FieldV>),
    NoTagData,
    InvalidFormat(Seq<char>),
    TruncatedInput,
    OtherFailure(Seq<char>),
}

impl View for ContainerTags {
    type V = ContainerTagsV;

    open spec fn view(&self) -> ContainerTagsV {
        match self {
            ContainerTags::Records(v) => ContainerTagsV::Records(v.deep_view()),
            ContainerTags::NoTagData => ContainerTagsV::NoTagData,
            ContainerTags::InvalidFormat(m) => ContainerTagsV::InvalidFormat(m@),
            ContainerTags::TruncatedInput => ContainerTagsV::TruncatedInput,
            ContainerTags::OtherFailure(m) => ContainerTagsV::OtherFailure(m@),
        }
    }
}

/// What the exif crate's container decoding yields on the given bytes: a
/// function of the bytes alone.
pub uninterp spec fn container_outcome(data: Seq<u8>) -> ContainerTagsV;

/// Relies on the exif crate: `Reader::read_from_container` decodes the
/// tag records of a TIFF/JPEG/HEIF/PNG/WebP container, reading only the
/// given bytes, so the outcome is a function of them alone; `Exif::fields`
/// yields the records in decoder order, and each record's tag, directory
/// and unit-annotated value are rendered by the crate's `Display` and
/// `Debug` impls. The error arms mirror `exif::Error`'s variants; an I/O
/// error over this in-memory reader can only be an end-of-data condition.
#[verifier::external_body]
pub(crate) fn decode_container_tags(data: &[u8]) -> (r: ContainerTags)
    ensures
        r@ == container_outcome(data@),
{
    let mut cursor = Cursor::new(data);
    match Reader::new().read_from_container(&mut cursor) {
        Ok(x) => ContainerTags::Records(x.fields().map(|f| ExifField {
            tag: f.tag.to_string(),
            ifd: format!("{:?}", f.ifd_num),
            value: f.display_value().with_unit(&x).to_string(),
        }).collect()),
        Err(Error::NotFound(_)) => ContainerTags::NoTagData,
        Err(Error::InvalidFormat(m)) => ContainerTags::InvalidFormat(m.to_string()),
        Err(Error::Io(e)) if e.kind() == ErrorKind::UnexpectedEof => ContainerTags::TruncatedInput,
        Err(Error::Io(e)) => ContainerTags::OtherFailure(e.to_string()),
        Err(other) => ContainerTags::OtherFailure(other.to_string()),
    }
}

} // verus!
