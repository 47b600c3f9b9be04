//! Single-buffer metadata collection: container tag records and PNG
//! textual chunks, merged and sorted.

use vstd::prelude::*;
use crate::container::{container_outcome, decode_container_tags, ContainerTags, ContainerTagsV};
use crate::fields::{sort_fields, ExifField, FieldV};
use crate::png::{parse_png_text_chunks, png_text_fields};

verus! {

/// User-facing message for an unrecognized container format.
pub open spec fn unsupported_format_msg() -> Seq<char> {
    "The selected file format is not supported."@
}

/// User-facing message for data that ends while decoding.
pub open spec fn truncated_msg() -> Seq<char> {
    "The selected file appears to be truncated or corrupted."@
}

/// The decoder's own message for an unrecognized format, which is the one
/// replaced by `unsupported_format_msg`.
pub open spec fn unknown_format_raw_msg() -> Seq<char> {
    "Unknown image format"@
}

/// What collection yields on a byte buffer: the sorted merge of the
/// container records and the PNG textual fields, or the first hard
/// decoding error, mapped to a user-facing message.
pub open spec fn spec_collect(data: Seq<u8>) -> Result<Seq<FieldV>, Seq<char>> {
    match container_outcome(data) {
        ContainerTagsV::Records(rs) => Ok(sort_fields(rs + png_text_fields(data))),
        ContainerTagsV::NoTagData => Ok(sort_fields(png_text_fields(data))),
        ContainerTagsV::InvalidFormat(m) => Err(
            if m == unknown_format_raw_msg() {
                unsupported_format_msg()
            } else {
                m
            },
        ),
        ContainerTagsV::TruncatedInput => Err(truncated_msg()),
        ContainerTagsV::OtherFailure(m) => Err(m),
    }
}

/// Collects every metadata field of a byte buffer: the container tag
/// records (none when the container has no tag data) and the PNG textual
/// fields, sorted by section and tag. Fails exactly when the container
/// decoder reports a hard error, with its user-facing message.
pub fn collect_fields_from_bytes(data: &[u8]) -> (r: Result<Vec<ExifField>, String>)
    ensures
        match r {
            Ok(fields) => spec_collect(data@) == Ok::<Seq<FieldV>, Seq<char>>(fields.deep_view()),
            Err(m) => spec_collect(data@) == Err::<Seq<FieldV>, Seq<char>>(m@),
        },
{
    let mut fields: Vec<ExifField> = match decode_container_tags(data) {
        ContainerTags::Records(v) => v,
        ContainerTags::NoTagData => Vec::new(),
        ContainerTags::InvalidFormat(m) => {
            let unknown: String = "Unknown image format".to_owned();
            if m == unknown {
                return Err("The selected file format is not supported.".to_owned());
            } else {
                return Err(m);
            }
        },
        ContainerTags::TruncatedInput => {
            return Err("The selected file appears to be truncated or corrupted.".to_owned());
        },
        ContainerTags::OtherFailure(m) => {
            return Err(m);
        },
    };
    let ghost container_part = fields.deep_view();
    proof {
        assert(match container_outcome(data@) {
            ContainerTagsV::Records(rs) => rs == container_part,
            ContainerTagsV::NoTagData => container_part =~= Seq::<FieldV>::empty(),
            _ => false,
        });
    }
    let mut png_fields = parse_png_text_chunks(data);
    let ghost png_part = png_fields.deep_view();
    fields.append(&mut png_fields);
    proof {
        assert(fields.deep_view() =~= container_part + png_part);
    }
    let sorted = crate::fields::sort_exif_fields(fields);
    proof {
        if container_outcome(data@) is NoTagData {
            assert(container_part + png_part =~= png_part);
        }
    }
    Ok(sorted)
}

/// Every successful collection is sorted: adjacent fields are ordered by
/// section, then by tag.
pub proof fn lemma_collect_sorted(data: Seq<u8>)
    ensures
        spec_collect(data) matches Ok(fs) ==> crate::fields::fields_sorted(fs),
{
    match container_outcome(data) {
        ContainerTagsV::Records(rs) => {
            crate::fields::lemma_sort_fields_ensures(rs + png_text_fields(data));
        },
        ContainerTagsV::NoTagData => {
            crate::fields::lemma_sort_fields_ensures(png_text_fields(data));
        },
        _ => {},
    }
}

/// Collection is a function of the bytes alone: identical buffers yield
/// identical field sequences (and identical errors).
pub proof fn lemma_collect_deterministic(d1: Seq<u8>, d2: Seq<u8>)
    requires
        d1 == d2,
    ensures
        spec_collect(d1) == spec_collect(d2),
        png_text_fields(d1) == png_text_fields(d2),
{
}

} // verus!
