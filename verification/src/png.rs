//! PNG textual chunk extraction.
//!
//! Walks the chunk stream of a PNG byte buffer and emits one field per
//! well-formed `tEXt`, `zTXt` or `iTXt` chunk. Malformed chunks are
//! skipped; a malformed stream ends the walk early. Nothing here fails:
//! arbitrary bytes yield a (possibly empty) field list.

use vstd::prelude::*;
use crate::fields::{ExifField, FieldV};
use crate::text::{decode_latin1, latin1_of, utf8_lossy, utf8_lossy_of};
use vstd::string::StringExecFns;

verus! {

/// The fixed eight-byte PNG signature.
pub open spec fn png_signature() -> Seq<u8> {
    seq![0x89u8, 0x50u8, 0x4Eu8, 0x47u8, 0x0Du8, 0x0Au8, 0x1Au8, 0x0Au8]
}

/// Chunk type `tEXt`.
pub open spec fn text_chunk_type() -> Seq<u8> {
    seq![0x74u8, 0x45u8, 0x58u8, 0x74u8]
}

/// Chunk type `zTXt`.
pub open spec fn ztxt_chunk_type() -> Seq<u8> {
    seq![0x7Au8, 0x54u8, 0x58u8, 0x74u8]
}

/// Chunk type `iTXt`.
pub open spec fn itxt_chunk_type() -> Seq<u8> {
    seq![0x69u8, 0x54u8, 0x58u8, 0x74u8]
}

/// Chunk type `IEND`, which ends the walk.
pub open spec fn iend_chunk_type() -> Seq<u8> {
    seq![0x49u8, 0x45u8, 0x4Eu8, 0x44u8]
}

/// Index of the first NUL byte, if any.
pub open spec fn first_nul(s: Seq<u8>) -> Option<int>
    decreases s.len(),
{
    if s.len() == 0 {
        None
    } else if s[0] == 0 {
        Some(0int)
    } else {
        match first_nul(s.drop_first()) {
            Some(i) => Some(i + 1),
            None => None,
        }
    }
}

/// `first_nul` finds the first NUL: the byte there is NUL and no earlier
/// byte is.
pub proof fn lemma_first_nul(s: Seq<u8>)
    ensures
        match first_nul(s) {
            Some(i) => 0 <= i < s.len() && s[i] == 0 && forall|j: int| 0 <= j < i ==> s[j] != 0,
            None => forall|j: int| 0 <= j < s.len() ==> s[j] != 0,
        },
    decreases s.len(),
{
    if s.len() > 0 && s[0] != 0 {
        lemma_first_nul(s.drop_first());
        assert forall|j: int| 1 <= j < s.len() implies s[j] == s.drop_first()[j - 1] by {}
    }
}

/// Finds the first NUL byte of a slice.
fn find_nul(data: &[u8]) -> (r: Option<usize>)
    ensures
        match r {
            Some(i) => first_nul(data@) == Some(i as int),
            None => first_nul(data@) is None,
        },
{
    let mut i: usize = 0;
    while i < data.len()
        invariant
            i <= data@.len(),
            forall|j: int| 0 <= j < i ==> data@[j] != 0,
        decreases data@.len() - i,
    {
        if data[i] == 0 {
            proof {
                lemma_first_nul(data@);
            }
            return Some(i);
        }
        i = i + 1;
    }
    proof {
        lemma_first_nul(data@);
    }
    None
}

/// What zlib inflation yields on the given stream: `None` when the stream
/// is rejected, the decompressed bytes otherwise; a function of the input
/// alone.
pub uninterp spec fn inflated(input: Seq<u8>) -> Option<Seq<u8>>;

/// Relies on flate2's `read::ZlibDecoder`: reading it to the end either
/// fails or decompresses the zlib stream, with a result determined by the
/// input bytes alone.
#[verifier::external_body]
pub(crate) fn zlib_inflate(input: &[u8]) -> (r: Option<Vec<u8>>)
    ensures
        match r {
            Some(v) => inflated(input@) == Some(v@),
            None => inflated(input@) is None,
        },
{
    let mut decoder = flate2::read::ZlibDecoder::new(input);
    let mut decoded = Vec::new();
    match std::io::Read::read_to_end(&mut decoder, &mut decoded) {
        Ok(_) => Some(decoded),
        Err(_) => None,
    }
}

/// The field emitted for a `tEXt` chunk payload: keyword and text split at
/// the first NUL, both read as Latin-1; nothing when the NUL is missing or
/// the keyword is empty.
pub open spec fn text_chunk_fields(payload: Seq<u8>, ifd: Seq<char>) -> Seq<FieldV> {
    match first_nul(payload) {
        None => seq![],
        Some(sep) => {
            if sep == 0 {
                seq![]
            } else {
                seq![
                    (FieldV {
                        tag: latin1_of(payload.take(sep)),
                        ifd: ifd,
                        value: latin1_of(payload.skip(sep + 1)),
                    }),
                ]
            }
        },
    }
}

/// Appends one field for a PNG text keyword/value pair; an empty keyword
/// is dropped.
pub fn add_png_text_field(fields: &mut Vec<ExifField>, keyword: &[u8], value: String, ifd: &str)
    ensures
        final(fields).deep_view() == if keyword@.len() == 0 {
            old(fields).deep_view()
        } else {
            old(fields).deep_view().push(
                (FieldV { tag: latin1_of(keyword@), ifd: ifd@, value: value@ }),
            )
        },
{
    if keyword.is_empty() {
        return ;
    }
    let tag = decode_latin1(keyword);
    let ghost pre = fields.deep_view();
    fields.push(ExifField { tag, ifd: ifd.to_owned(), value });
    proof {
        assert(fields.deep_view() =~= pre.push(
            (FieldV { tag: latin1_of(keyword@), ifd: ifd@, value: value@ }),
        ));
    }
}

/// The field emitted for a `zTXt` chunk payload: keyword up to the first
/// NUL, a compression-method byte that must be zero, then a zlib stream
/// whose inflation is the text; nothing when any of that is missing, the
/// stream is rejected, or the keyword is empty.
pub open spec fn ztxt_chunk_fields(payload: Seq<u8>) -> Seq<FieldV> {
    match first_nul(payload) {
        None => seq![],
        Some(sep) => {
            if sep + 1 >= payload.len() {
                seq![]
            } else if payload[sep + 1] != 0 {
                seq![]
            } else {
                match inflated(payload.skip(sep + 2)) {
                    None => seq![],
                    Some(text) => {
                        if sep == 0 {
                            seq![]
                        } else {
                            seq![
                                (FieldV {
                                    tag: latin1_of(payload.take(sep)),
                                    ifd: "PNG zTXt"@,
                                    value: latin1_of(text),
                                }),
                            ]
                        }
                    },
                }
            }
        },
    }
}

/// Parses a `zTXt` chunk payload and appends its field, if well formed.
pub fn parse_png_ztxt_chunk(chunk_data: &[u8], fields: &mut Vec<ExifField>)
    ensures
        final(fields).deep_view() == old(fields).deep_view() + ztxt_chunk_fields(chunk_data@),
{
    let ghost pre = fields.deep_view();
    let ghost goal = pre + ztxt_chunk_fields(chunk_data@);
    match find_nul(chunk_data) {
        None => {
            assert(goal =~= pre);
        },
        Some(sep) => {
            let n = chunk_data.len();
            proof {
                lemma_first_nul(chunk_data@);
                assert(sep < n);
            }
            if sep + 1 >= n {
                assert(goal =~= pre);
                return ;
            }
            let method = chunk_data[sep + 1];
            if method != 0 {
                assert(goal =~= pre);
                return ;
            }
            let compressed = vstd::slice::slice_subrange(chunk_data, sep + 2, n);
            match zlib_inflate(compressed) {
                None => {
                    assert(goal =~= pre);
                },
                Some(decoded) => {
                    let value = decode_latin1(decoded.as_slice());
                    let keyword = vstd::slice::slice_subrange(chunk_data, 0, sep);
                    add_png_text_field(fields, keyword, value, "PNG zTXt");
                    proof {
                        assert(fields.deep_view() =~= goal);
                    }
                },
            }
        },
    }
}

/// The value of an `iTXt` field: the text, then one line naming the
/// language tag and one naming the translated keyword, each only when
/// non-empty.
pub open spec fn itxt_value(text: Seq<u8>, lang: Seq<u8>, trans: Seq<u8>) -> Seq<char> {
    let base = utf8_lossy_of(text);
    let with_lang = if lang.len() > 0 {
        base + "\nLanguage tag: "@ + utf8_lossy_of(lang)
    } else {
        base
    };
    if trans.len() > 0 {
        with_lang + "\nTranslated keyword: "@ + utf8_lossy_of(trans)
    } else {
        with_lang
    }
}

/// The field emitted for an `iTXt` chunk payload: a NUL-terminated
/// keyword, a compression flag and method, NUL-terminated language tag and
/// translated keyword, then the text, inflated when the flag says so;
/// nothing when the layout is violated, the method is unsupported, or the
/// stream is rejected.
pub open spec fn itxt_chunk_fields(payload: Seq<u8>) -> Seq<FieldV> {
    match first_nul(payload) {
        None => seq![],
        Some(ke) => {
            if ke == 0 || ke + 3 > payload.len() {
                seq![]
            } else {
                let flag = payload[ke + 1];
                let method = payload[ke + 2];
                let rest1 = payload.skip(ke + 3);
                match first_nul(rest1) {
                    None => seq![],
                    Some(le) => {
                        let lang = rest1.take(le);
                        let rest2 = rest1.skip(le + 1);
                        match first_nul(rest2) {
                            None => seq![],
                            Some(te) => {
                                let trans = rest2.take(te);
                                let text = rest2.skip(te + 1);
                                let decoded = if flag == 1 {
                                    if method != 0 {
                                        None
                                    } else {
                                        inflated(text)
                                    }
                                } else {
                                    Some(text)
                                };
                                match decoded {
                                    None => seq![],
                                    Some(t) => seq![
                                        (FieldV {
                                            tag: latin1_of(payload.take(ke)),
                                            ifd: "PNG iTXt"@,
                                            value: itxt_value(t, lang, trans),
                                        }),
                                    ],
                                }
                            },
                        }
                    },
                }
            }
        },
    }
}

/// Parses an `iTXt` chunk payload and appends its field, if well formed.
pub fn parse_png_itxt_chunk(chunk_data: &[u8], fields: &mut Vec<ExifField>)
    ensures
        final(fields).deep_view() == old(fields).deep_view() + itxt_chunk_fields(chunk_data@),
{
    let ghost pre = fields.deep_view();
    let ghost goal = pre + itxt_chunk_fields(chunk_data@);
    let ke = match find_nul(chunk_data) {
        Some(p) => p,
        None => {
            assert(goal =~= pre);
            return ;
        },
    };
    let n = chunk_data.len();
    proof {
        lemma_first_nul(chunk_data@);
        assert(ke < n);
    }
    if ke == 0 || n - ke < 3 {
        assert(goal =~= pre);
        return ;
    }
    let flag = chunk_data[ke + 1];
    let method = chunk_data[ke + 2];
    let rest1 = vstd::slice::slice_subrange(chunk_data, ke + 3, n);
    let le = match find_nul(rest1) {
        Some(p) => p,
        None => {
            assert(goal =~= pre);
            return ;
        },
    };
    let n1 = rest1.len();
    proof {
        lemma_first_nul(rest1@);
        assert(le < n1);
    }
    let lang = vstd::slice::slice_subrange(rest1, 0, le);
    let rest2 = vstd::slice::slice_subrange(rest1, le + 1, n1);
    let te = match find_nul(rest2) {
        Some(p) => p,
        None => {
            assert(rest2@ == rest1@.skip(le + 1));
            assert(goal =~= pre);
            return ;
        },
    };
    let n2 = rest2.len();
    proof {
        lemma_first_nul(rest2@);
        assert(te < n2);
        assert(rest2@ == rest1@.skip(le + 1));
    }
    let trans = vstd::slice::slice_subrange(rest2, 0, te);
    let text = vstd::slice::slice_subrange(rest2, te + 1, n2);
    let ghost tmodel: Seq<u8>;
    let mut value: String;
    if flag == 1 {
        if method != 0 {
            assert(goal =~= pre);
            return ;
        }
        match zlib_inflate(text) {
            Some(d) => {
                value = utf8_lossy(d.as_slice());
                proof {
                    tmodel = d@;
                }
            },
            None => {
                assert(goal =~= pre);
                return ;
            },
        }
    } else {
        value = utf8_lossy(text);
        proof {
            tmodel = text@;
        }
    }
    if lang.len() > 0 {
        value.append("\nLanguage tag: ");
        let lang_text = utf8_lossy(lang);
        value.append(lang_text.as_str());
    }
    if trans.len() > 0 {
        value.append("\nTranslated keyword: ");
        let trans_text = utf8_lossy(trans);
        value.append(trans_text.as_str());
    }
    proof {
        assert(value@ =~= itxt_value(tmodel, lang@, trans@));
    }
    let keyword = vstd::slice::slice_subrange(chunk_data, 0, ke);
    add_png_text_field(fields, keyword, value, "PNG iTXt");
    proof {
        assert(fields.deep_view() =~= goal);
    }
}

/// A four-byte big-endian integer.
pub open spec fn be32_of(b0: u8, b1: u8, b2: u8, b3: u8) -> int {
    b0 * 0x1000000 + b1 * 0x10000 + b2 * 0x100 + b3
}

/// The fields of one chunk, by its type.
pub open spec fn chunk_fields_of(t: Seq<u8>, payload: Seq<u8>) -> Seq<FieldV> {
    if t == text_chunk_type() {
        text_chunk_fields(payload, "PNG tEXt"@)
    } else if t == ztxt_chunk_type() {
        ztxt_chunk_fields(payload)
    } else if t == itxt_chunk_type() {
        itxt_chunk_fields(payload)
    } else {
        seq![]
    }
}

/// The fields of the chunk stream from offset `o` on: each chunk is a
/// four-byte big-endian length, a four-byte type, the payload, and a CRC
/// (read, not checked). The walk stops before a truncated chunk and after
/// `IEND`.
pub open spec fn chunks_fields(data: Seq<u8>, o: int) -> Seq<FieldV>
    decreases data.len() - o,
{
    if o < 0 || o + 8 > data.len() {
        seq![]
    } else {
        let len = be32_of(data[o], data[o + 1], data[o + 2], data[o + 3]);
        let t = data.subrange(o + 4, o + 8);
        if o + 8 + len > data.len() || o + 12 + len > data.len() {
            seq![]
        } else {
            let here = chunk_fields_of(t, data.subrange(o + 8, o + 8 + len));
            if t == iend_chunk_type() {
                here
            } else {
                here + chunks_fields(data, o + 12 + len)
            }
        }
    }
}

/// All textual fields of a PNG buffer: nothing unless the signature is
/// present, else the fields of the chunk stream starting at offset 8.
pub open spec fn png_text_fields(data: Seq<u8>) -> Seq<FieldV> {
    if data.len() < 8 || data.take(8) != png_signature() {
        seq![]
    } else {
        chunks_fields(data, 8)
    }
}

/// Whether the chunk walk from `o` on meets a `tEXt`, `zTXt` or `iTXt`
/// chunk.
pub open spec fn walk_has_text_chunk(data: Seq<u8>, o: int) -> bool
    decreases data.len() - o,
{
    if o < 0 || o + 8 > data.len() {
        false
    } else {
        let len = be32_of(data[o], data[o + 1], data[o + 2], data[o + 3]);
        let t = data.subrange(o + 4, o + 8);
        if o + 8 + len > data.len() || o + 12 + len > data.len() {
            false
        } else {
            let here = t == text_chunk_type() || t == ztxt_chunk_type() || t
                == itxt_chunk_type();
            if t == iend_chunk_type() {
                here
            } else {
                here || walk_has_text_chunk(data, o + 12 + len)
            }
        }
    }
}

/// Whether a buffer is a PNG whose chunk walk meets a textual chunk.
pub open spec fn has_png_text_chunk(data: Seq<u8>) -> bool {
    data.len() >= 8 && data.take(8) == png_signature() && walk_has_text_chunk(data, 8)
}

proof fn lemma_walk_no_text_empty(data: Seq<u8>, o: int)
    requires
        !walk_has_text_chunk(data, o),
    ensures
        chunks_fields(data, o) == Seq::<FieldV>::empty(),
    decreases data.len() - o,
{
    if o < 0 || o + 8 > data.len() {
        assert(chunks_fields(data, o) =~= Seq::<FieldV>::empty());
    } else {
        let len = be32_of(data[o], data[o + 1], data[o + 2], data[o + 3]);
        let t = data.subrange(o + 4, o + 8);
        if o + 8 + len > data.len() || o + 12 + len > data.len() {
            assert(chunks_fields(data, o) =~= Seq::<FieldV>::empty());
        } else {
            assert(chunk_fields_of(t, data.subrange(o + 8, o + 8 + len)) =~= Seq::<
                FieldV,
            >::empty());
            if t == iend_chunk_type() {
            } else {
                lemma_walk_no_text_empty(data, o + 12 + len);
                assert(chunks_fields(data, o) =~= Seq::<FieldV>::empty());
            }
        }
    }
}

/// A buffer without textual chunks — not a PNG at all, or a PNG whose
/// walk meets no `tEXt`, `zTXt` or `iTXt` chunk — yields no fields.
pub proof fn lemma_no_text_chunks_empty(data: Seq<u8>)
    requires
        !has_png_text_chunk(data),
    ensures
        png_text_fields(data) == Seq::<FieldV>::empty(),
{
    if data.len() >= 8 && data.take(8) == png_signature() {
        lemma_walk_no_text_empty(data, 8);
    }
}

/// Extracts every textual-chunk field of a PNG byte buffer, in chunk
/// order. Returns nothing for buffers that do not start with the PNG
/// signature; never fails.
pub fn parse_png_text_chunks(data: &[u8]) -> (fields: Vec<ExifField>)
    ensures
        fields.deep_view() == png_text_fields(data@),
{
    let mut fields: Vec<ExifField> = Vec::new();
    proof {
        assert(fields.deep_view() =~= Seq::<FieldV>::empty());
    }
    let n = data.len();
    if n < 8 {
        return fields;
    }
    let sig_ok = data[0] == 0x89 && data[1] == 0x50 && data[2] == 0x4E && data[3] == 0x47
        && data[4] == 0x0D && data[5] == 0x0A && data[6] == 0x1A && data[7] == 0x0A;
    proof {
        assert forall|j: int| 0 <= j < 8 implies data@.take(8)[j] == data@[j] by {}
        if sig_ok {
            assert(data@.take(8) =~= png_signature());
        } else {
            assert(data@.take(8) != png_signature()) by {
                if data@.take(8) == png_signature() {
                    assert(data@[0] == 0x89 && data@[1] == 0x50 && data@[2] == 0x4E && data@[3]
                        == 0x47 && data@[4] == 0x0D && data@[5] == 0x0A && data@[6] == 0x1A
                        && data@[7] == 0x0A);
                }
            }
        }
    }
    if !sig_ok {
        return fields;
    }
    let mut o: usize = 8;
    loop
        invariant
            8 <= o <= n,
            n == data@.len(),
            data@.take(8) == png_signature(),
            png_text_fields(data@) == fields.deep_view() + chunks_fields(data@, o as int),
        ensures
            fields.deep_view() == png_text_fields(data@),
        decreases n - o,
    {
        let rem = n - o;
        if rem < 8 {
            proof {
                assert(chunks_fields(data@, o as int) =~= Seq::<FieldV>::empty());
                assert(fields.deep_view() + chunks_fields(data@, o as int)
                    =~= fields.deep_view());
            }
            break;
        }
        let b0 = data[o];
        let b1 = data[o + 1];
        let b2 = data[o + 2];
        let b3 = data[o + 3];
        let length_u32: u32 = (b0 as u32) * 0x1000000 + (b1 as u32) * 0x10000 + (b2 as u32)
            * 0x100 + (b3 as u32);
        let length = length_u32 as usize;
        let t0 = data[o + 4];
        let t1 = data[o + 5];
        let t2 = data[o + 6];
        let t3 = data[o + 7];
        let ghost tv = data@.subrange(o + 4, o + 8);
        proof {
            assert(tv[0] == t0 && tv[1] == t1 && tv[2] == t2 && tv[3] == t3);
            assert(length == be32_of(data@[o as int], data@[o + 1], data@[o + 2], data@[o + 3]));
        }
        if length > rem - 8 || rem - 8 - length < 4 {
            proof {
                assert(chunks_fields(data@, o as int) =~= Seq::<FieldV>::empty());
                assert(fields.deep_view() + chunks_fields(data@, o as int)
                    =~= fields.deep_view());
            }
            break;
        }
        let payload = vstd::slice::slice_subrange(data, o + 8, o + 8 + length);
        let is_text = t0 == 0x74 && t1 == 0x45 && t2 == 0x58 && t3 == 0x74;
        let is_ztxt = t0 == 0x7A && t1 == 0x54 && t2 == 0x58 && t3 == 0x74;
        let is_itxt = t0 == 0x69 && t1 == 0x54 && t2 == 0x58 && t3 == 0x74;
        let is_iend = t0 == 0x49 && t1 == 0x45 && t2 == 0x4E && t3 == 0x44;
        proof {
            if is_text {
                assert(tv =~= text_chunk_type());
            } else {
                assert(tv != text_chunk_type()) by {
                    if tv == text_chunk_type() {
                        assert(t0 == 0x74 && t1 == 0x45 && t2 == 0x58 && t3 == 0x74);
                    }
                }
            }
            if is_ztxt {
                assert(tv =~= ztxt_chunk_type());
            } else {
                assert(tv != ztxt_chunk_type()) by {
                    if tv == ztxt_chunk_type() {
                        assert(t0 == 0x7A && t1 == 0x54 && t2 == 0x58 && t3 == 0x74);
                    }
                }
            }
            if is_itxt {
                assert(tv =~= itxt_chunk_type());
            } else {
                assert(tv != itxt_chunk_type()) by {
                    if tv == itxt_chunk_type() {
                        assert(t0 == 0x69 && t1 == 0x54 && t2 == 0x58 && t3 == 0x74);
                    }
                }
            }
            if is_iend {
                assert(tv =~= iend_chunk_type());
            } else {
                assert(tv != iend_chunk_type()) by {
                    if tv == iend_chunk_type() {
                        assert(t0 == 0x49 && t1 == 0x45 && t2 == 0x4E && t3 == 0x44);
                    }
                }
            }
        }
        let ghost pre = fields.deep_view();
        if is_text {
            parse_png_text_chunk(payload, "PNG tEXt", &mut fields);
        } else if is_ztxt {
            parse_png_ztxt_chunk(payload, &mut fields);
        } else if is_itxt {
            parse_png_itxt_chunk(payload, &mut fields);
        }
        proof {
            assert(fields.deep_view() == pre + chunk_fields_of(tv, payload@)) by {
                if !is_text && !is_ztxt && !is_itxt {
                    assert(pre + chunk_fields_of(tv, payload@) =~= pre);
                }
            }
        }
        if is_iend {
            proof {
                assert(chunks_fields(data@, o as int) == chunk_fields_of(tv, payload@));
            }
            break;
        }
        proof {
            assert(chunks_fields(data@, o as int) == chunk_fields_of(tv, payload@)
                + chunks_fields(data@, o + 12 + length));
            assert(fields.deep_view() + chunks_fields(data@, o + 12 + length)
                =~= pre + chunks_fields(data@, o as int));
        }
        o = o + 12 + length;
    }
    fields
}

/// Parses a `tEXt` chunk payload and appends its field, if well formed.
pub fn parse_png_text_chunk(chunk_data: &[u8], ifd: &str, fields: &mut Vec<ExifField>)
    ensures
        final(fields).deep_view() == old(fields).deep_view() + text_chunk_fields(
            chunk_data@,
            ifd@,
        ),
{
    let ghost pre = fields.deep_view();
    match find_nul(chunk_data) {
        None => {
            assert(pre + text_chunk_fields(chunk_data@, ifd@) =~= pre);
        },
        Some(sep) => {
            if sep == 0 {
                assert(pre + text_chunk_fields(chunk_data@, ifd@) =~= pre);
                return ;
            }
            let n = chunk_data.len();
            proof {
                lemma_first_nul(chunk_data@);
                assert(sep < n);
            }
            let keyword = vstd::slice::slice_subrange(chunk_data, 0, sep);
            let text = vstd::slice::slice_subrange(chunk_data, sep + 1, n);
            let value = decode_latin1(text);
            add_png_text_field(fields, keyword, value, ifd);
            proof {
                assert(keyword@ == chunk_data@.take(sep as int));
                assert(text@ == chunk_data@.skip(sep + 1));
                assert(fields.deep_view() =~= pre + text_chunk_fields(chunk_data@, ifd@));
            }
        },
    }
}

} // verus!
