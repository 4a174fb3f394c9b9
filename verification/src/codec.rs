//! The binary message codec: one packet payload carries one tagged message.
//!
//! The wire form is deterministic: a one-byte tag for the message kind, then
//! the fields in order — integers little-endian and fixed width, byte and
//! string fields length-prefixed, strings in UTF-8.  `msg_parse` accepts
//! exactly the well-formed encodings and is proved to invert `msg_encoding`;
//! a buffer that does not parse is dropped by the reader, the same policy the
//! framing layer applies to a body that is not base64.

use vstd::prelude::*;

use crate::api::AcceptTransfer;
use crate::api::Chunk;
use crate::api::ChunkV;
use crate::api::CloseFile;
use crate::api::CloseTransfer;
use crate::api::Content;
use crate::api::ContentV;
use crate::api::Disconnect;
use crate::api::FileInfo;
use crate::api::FileInfoV;
use crate::api::FileOpened;
use crate::api::FileOpenedV;
use crate::api::Init;
use crate::api::InitV;
use crate::api::OpenFile;
use crate::api::OpenFileV;
use crate::api::ReceiveRequest;
use crate::api::ReceiveRequestV;
use crate::api::RejectTransfer;
use crate::api::SendRequest;
use crate::api::SendRequestV;
use vstd::utf8::decode_utf8;
use vstd::utf8::encode_utf8;
use vstd::utf8::encode_utf8_decode_utf8;
use vstd::utf8::encode_utf8_valid_utf8;
use vstd::utf8::valid_utf8;

verus! {

/// The eight little-endian bytes of a 64-bit value.
pub open spec fn le64(x: u64) -> Seq<u8> {
    seq![
        (x & 0xff) as u8,
        ((x >> 8) & 0xff) as u8,
        ((x >> 16) & 0xff) as u8,
        ((x >> 24) & 0xff) as u8,
        ((x >> 32) & 0xff) as u8,
        ((x >> 40) & 0xff) as u8,
        ((x >> 48) & 0xff) as u8,
        ((x >> 56) & 0xff) as u8,
    ]
}

/// The value read back from eight little-endian bytes.
pub open spec fn le64_val(b: Seq<u8>) -> u64
    recommends
        b.len() >= 8,
{
    ((b[0] as u64) | ((b[1] as u64) << 8) | ((b[2] as u64) << 16) | ((b[3] as u64) << 24) | ((
    b[4] as u64) << 32) | ((b[5] as u64) << 40) | ((b[6] as u64) << 48) | ((b[7] as u64) << 56))
}

/// The four little-endian bytes of a 32-bit value.
pub open spec fn le32(x: u32) -> Seq<u8> {
    seq![(x & 0xff) as u8, ((x >> 8) & 0xff) as u8, ((x >> 16) & 0xff) as u8, ((x >> 24) & 0xff) as u8]
}

/// The value read back from four little-endian bytes.
pub open spec fn le32_val(b: Seq<u8>) -> u32
    recommends
        b.len() >= 4,
{
    ((b[0] as u32) | ((b[1] as u32) << 8) | ((b[2] as u32) << 16) | ((b[3] as u32) << 24))
}

/// Whether a length fits the 64-bit length prefix.
pub open spec fn fits_u64(n: int) -> bool {
    n < 0x1_0000_0000_0000_0000
}

pub proof fn lemma_le64_roundtrip(x: u64)
    ensures
        le64_val(le64(x)) == x,
{
    assert((((x & 0xff) as u8) as u64) | ((((x >> 8) & 0xff) as u8) as u64) << 8 | ((((x >> 16)
        & 0xff) as u8) as u64) << 16 | ((((x >> 24) & 0xff) as u8) as u64) << 24 | ((((x >> 32)
        & 0xff) as u8) as u64) << 32 | ((((x >> 40) & 0xff) as u8) as u64) << 40 | ((((x >> 48)
        & 0xff) as u8) as u64) << 48 | ((((x >> 56) & 0xff) as u8) as u64) << 56 == x)
        by (bit_vector);
}

pub proof fn lemma_le32_roundtrip(x: u32)
    ensures
        le32_val(le32(x)) == x,
{
    assert((((x & 0xff) as u8) as u32) | ((((x >> 8) & 0xff) as u8) as u32) << 8 | ((((x >> 16)
        & 0xff) as u8) as u32) << 16 | ((((x >> 24) & 0xff) as u8) as u32) << 24 == x)
        by (bit_vector);
}

/// Parse a 64-bit little-endian value; the remainder follows it.
pub open spec fn parse_u64(s: Seq<u8>) -> Option<(u64, Seq<u8>)> {
    if s.len() < 8 {
        None
    } else {
        Some((le64_val(s), s.skip(8)))
    }
}

/// Parse a 32-bit little-endian value; the remainder follows it.
pub open spec fn parse_u32(s: Seq<u8>) -> Option<(u32, Seq<u8>)> {
    if s.len() < 4 {
        None
    } else {
        Some((le32_val(s), s.skip(4)))
    }
}

/// Parse one boolean byte, `0` or `1`.
pub open spec fn parse_bool(s: Seq<u8>) -> Option<(bool, Seq<u8>)> {
    if s.len() < 1 {
        None
    } else if s[0] == 0 {
        Some((false, s.skip(1)))
    } else if s[0] == 1 {
        Some((true, s.skip(1)))
    } else {
        None
    }
}

/// A length-prefixed byte field.
pub open spec fn bytes_encoding(d: Seq<u8>) -> Seq<u8> {
    le64(d.len() as u64) + d
}

/// Parse a length-prefixed byte field.
pub open spec fn parse_bytes(s: Seq<u8>) -> Option<(Seq<u8>, Seq<u8>)> {
    match parse_u64(s) {
        Some(p) => {
            let n = p.0 as int;
            if p.1.len() < n {
                None
            } else {
                Some((p.1.take(n), p.1.skip(n)))
            }
        },
        None => None,
    }
}

/// A length-prefixed UTF-8 string field.
pub open spec fn string_encoding(name: Seq<char>) -> Seq<u8> {
    bytes_encoding(encode_utf8(name))
}

/// Parse a length-prefixed UTF-8 string field.
pub open spec fn parse_string(s: Seq<u8>) -> Option<(Seq<char>, Seq<u8>)> {
    match parse_bytes(s) {
        Some(p) => {
            if valid_utf8(p.0) {
                Some((decode_utf8(p.0), p.1))
            } else {
                None
            }
        },
        None => None,
    }
}

/// A run of string fields, in order.
pub open spec fn strings_encoding(fs: Seq<Seq<char>>) -> Seq<u8>
    decreases fs.len(),
{
    if fs.len() == 0 {
        Seq::empty()
    } else {
        string_encoding(fs[0]) + strings_encoding(fs.drop_first())
    }
}

/// Parse `n` string fields.
pub open spec fn parse_strings(s: Seq<u8>, n: u64) -> Option<(Seq<Seq<char>>, Seq<u8>)>
    decreases n,
{
    if n == 0 {
        Some((Seq::empty(), s))
    } else {
        match parse_string(s) {
            Some(p) => {
                match parse_strings(p.1, (n - 1) as u64) {
                    Some(q) => Some((seq![p.0] + q.0, q.1)),
                    None => None,
                }
            },
            None => None,
        }
    }
}

/// An optional file description: a presence byte, then the name, size and
/// mode.
pub open spec fn opt_fi_encoding(o: Option<FileInfoV>) -> Seq<u8> {
    match o {
        None => seq![0u8],
        Some(fi) => seq![1u8] + string_encoding(fi.name) + le64(fi.size) + le32(fi.mode),
    }
}

/// Parse an optional file description.
pub open spec fn parse_opt_fi(s: Seq<u8>) -> Option<(Option<FileInfoV>, Seq<u8>)> {
    if s.len() < 1 {
        None
    } else if s[0] == 0 {
        Some((None, s.skip(1)))
    } else if s[0] == 1 {
        match parse_string(s.skip(1)) {
            Some(p) => {
                match parse_u64(p.1) {
                    Some(q) => {
                        match parse_u32(q.1) {
                            Some(r) => Some(
                                (
                                    Some(FileInfoV { name: p.0, size: q.0, mode: r.0 }),
                                    r.1,
                                ),
                            ),
                            None => None,
                        }
                    },
                    None => None,
                }
            },
            None => None,
        }
    } else {
        None
    }
}

/// Lengths in a message fit its 64-bit length prefixes.  Views of the
/// executable message types always do.
pub open spec fn content_wf(c: ContentV) -> bool {
    match c {
        ContentV::Init(i) => fits_u64(i.features.len() as int) && (forall|j: int|
            0 <= j < i.features.len() ==> fits_u64(encode_utf8(#[trigger] i.features[j]).len() as int)),
        ContentV::SendRequest(m) => match m.file_info {
            Some(fi) => fits_u64(encode_utf8(fi.name).len() as int),
            None => true,
        },
        ContentV::OpenFile(m) => match m.file_info {
            Some(fi) => fits_u64(encode_utf8(fi.name).len() as int),
            None => true,
        },
        ContentV::Chunk(ch) => fits_u64(ch.data.len() as int),
        _ => true,
    }
}

/// The encoding of one message.
pub open spec fn msg_encoding(c: ContentV) -> Seq<u8> {
    match c {
        ContentV::Init(i) => seq![1u8] + le32(i.version) + le64(i.features.len() as u64)
            + strings_encoding(i.features),
        ContentV::Disconnect => seq![2u8],
        ContentV::ReceiveRequest(m) => seq![3u8] + seq![
            if m.allow_directories {
                1u8
            } else {
                0u8
            },
            if m.allow_multiple {
                1u8
            } else {
                0u8
            },
        ],
        ContentV::SendRequest(m) => seq![4u8] + opt_fi_encoding(m.file_info),
        ContentV::AcceptTransfer => seq![5u8],
        ContentV::RejectTransfer => seq![6u8],
        ContentV::OpenFile(m) => seq![7u8] + opt_fi_encoding(m.file_info),
        ContentV::FileOpened(m) => seq![8u8] + le64(m.continue_from),
        ContentV::Chunk(ch) => seq![9u8] + le64(ch.offset) + bytes_encoding(ch.data),
        ContentV::CloseFile => seq![10u8],
        ContentV::CloseTransfer => seq![11u8],
    }
}

/// Parse one message; the whole buffer must be consumed.
pub open spec fn msg_parse(s: Seq<u8>) -> Option<ContentV> {
    if s.len() < 1 {
        None
    } else {
        let body = s.skip(1);
        if s[0] == 1 {
            match parse_u32(body) {
                Some(p) => {
                    match parse_u64(p.1) {
                        Some(q) => {
                            match parse_strings(q.1, q.0) {
                                Some(r) => {
                                    if r.1.len() == 0 {
                                        Some(
                                            ContentV::Init(
                                                InitV { version: p.0, features: r.0 },
                                            ),
                                        )
                                    } else {
                                        None
                                    }
                                },
                                None => None,
                            }
                        },
                        None => None,
                    }
                },
                None => None,
            }
        } else if s[0] == 2 {
            if body.len() == 0 {
                Some(ContentV::Disconnect)
            } else {
                None
            }
        } else if s[0] == 3 {
            match parse_bool(body) {
                Some(p) => {
                    match parse_bool(p.1) {
                        Some(q) => {
                            if q.1.len() == 0 {
                                Some(
                                    ContentV::ReceiveRequest(
                                        ReceiveRequestV {
                                            allow_directories: p.0,
                                            allow_multiple: q.0,
                                        },
                                    ),
                                )
                            } else {
                                None
                            }
                        },
                        None => None,
                    }
                },
                None => None,
            }
        } else if s[0] == 4 {
            match parse_opt_fi(body) {
                Some(p) => {
                    if p.1.len() == 0 {
                        Some(ContentV::SendRequest(SendRequestV { file_info: p.0 }))
                    } else {
                        None
                    }
                },
                None => None,
            }
        } else if s[0] == 5 {
            if body.len() == 0 {
                Some(ContentV::AcceptTransfer)
            } else {
                None
            }
        } else if s[0] == 6 {
            if body.len() == 0 {
                Some(ContentV::RejectTransfer)
            } else {
                None
            }
        } else if s[0] == 7 {
            match parse_opt_fi(body) {
                Some(p) => {
                    if p.1.len() == 0 {
                        Some(ContentV::OpenFile(OpenFileV { file_info: p.0 }))
                    } else {
                        None
                    }
                },
                None => None,
            }
        } else if s[0] == 8 {
            match parse_u64(body) {
                Some(p) => {
                    if p.1.len() == 0 {
                        Some(ContentV::FileOpened(FileOpenedV { continue_from: p.0 }))
                    } else {
                        None
                    }
                },
                None => None,
            }
        } else if s[0] == 9 {
            match parse_u64(body) {
                Some(p) => {
                    match parse_bytes(p.1) {
                        Some(q) => {
                            if q.1.len() == 0 {
                                Some(ContentV::Chunk(ChunkV { offset: p.0, data: q.0 }))
                            } else {
                                None
                            }
                        },
                        None => None,
                    }
                },
                None => None,
            }
        } else if s[0] == 10 {
            if body.len() == 0 {
                Some(ContentV::CloseFile)
            } else {
                None
            }
        } else if s[0] == 11 {
            if body.len() == 0 {
                Some(ContentV::CloseTransfer)
            } else {
                None
            }
        } else {
            None
        }
    }
}

proof fn lemma_parse_u64_of(x: u64, rest: Seq<u8>)
    ensures
        parse_u64(le64(x) + rest) == Some((x, rest)),
{
    let s = le64(x) + rest;
    lemma_le64_roundtrip(x);
    assert(le64_val(s) == le64_val(le64(x)));
    assert(s.skip(8) =~= rest);
}

proof fn lemma_parse_u32_of(x: u32, rest: Seq<u8>)
    ensures
        parse_u32(le32(x) + rest) == Some((x, rest)),
{
    let s = le32(x) + rest;
    lemma_le32_roundtrip(x);
    assert(le32_val(s) == le32_val(le32(x)));
    assert(s.skip(4) =~= rest);
}

proof fn lemma_parse_bytes_of(d: Seq<u8>, rest: Seq<u8>)
    requires
        fits_u64(d.len() as int),
    ensures
        parse_bytes(bytes_encoding(d) + rest) == Some((d, rest)),
{
    let s = bytes_encoding(d) + rest;
    assert(s =~= le64(d.len() as u64) + (d + rest));
    lemma_parse_u64_of(d.len() as u64, d + rest);
    assert((d + rest).take(d.len() as int) =~= d);
    assert((d + rest).skip(d.len() as int) =~= rest);
}

proof fn lemma_parse_string_of(name: Seq<char>, rest: Seq<u8>)
    requires
        fits_u64(encode_utf8(name).len() as int),
    ensures
        parse_string(string_encoding(name) + rest) == Some((name, rest)),
{
    lemma_parse_bytes_of(encode_utf8(name), rest);
    encode_utf8_valid_utf8(name);
    encode_utf8_decode_utf8(name);
}

proof fn lemma_parse_strings_of(fs: Seq<Seq<char>>, rest: Seq<u8>)
    requires
        fits_u64(fs.len() as int),
        forall|j: int| 0 <= j < fs.len() ==> fits_u64(encode_utf8(#[trigger] fs[j]).len() as int),
    ensures
        parse_strings(strings_encoding(fs) + rest, fs.len() as u64) == Some((fs, rest)),
    decreases fs.len(),
{
    if fs.len() == 0 {
        assert(strings_encoding(fs) + rest =~= rest);
        assert(fs =~= Seq::<Seq<char>>::empty());
    } else {
        let s = strings_encoding(fs) + rest;
        assert(s =~= string_encoding(fs[0]) + (strings_encoding(fs.drop_first()) + rest));
        lemma_parse_string_of(fs[0], strings_encoding(fs.drop_first()) + rest);
        lemma_parse_strings_of(fs.drop_first(), rest);
        assert(seq![fs[0]] + fs.drop_first() =~= fs);
    }
}

proof fn lemma_parse_opt_fi_of(o: Option<FileInfoV>, rest: Seq<u8>)
    requires
        match o {
            Some(fi) => fits_u64(encode_utf8(fi.name).len() as int),
            None => true,
        },
    ensures
        parse_opt_fi(opt_fi_encoding(o) + rest) == Some((o, rest)),
{
    match o {
        None => {
            assert((opt_fi_encoding(o) + rest).skip(1) =~= rest);
        },
        Some(fi) => {
            let s = opt_fi_encoding(o) + rest;
            assert(s[0] == 1);
            assert(s.skip(1) =~= string_encoding(fi.name) + (le64(fi.size) + (le32(fi.mode)
                + rest)));
            lemma_parse_string_of(fi.name, le64(fi.size) + (le32(fi.mode) + rest));
            lemma_parse_u64_of(fi.size, le32(fi.mode) + rest);
            lemma_parse_u32_of(fi.mode, rest);
        },
    }
}

/// Codec round trip: parsing an encoding yields back the message.
pub proof fn lemma_codec_round_trip(c: ContentV)
    requires
        content_wf(c),
    ensures
        msg_parse(msg_encoding(c)) == Some(c),
{
    let s = msg_encoding(c);
    let empty = Seq::<u8>::empty();
    match c {
        ContentV::Init(i) => {
            assert(s[0] == 1);
            assert(s.skip(1) =~= le32(i.version) + (le64(i.features.len() as u64)
                + strings_encoding(i.features)));
            lemma_parse_u32_of(i.version, le64(i.features.len() as u64) + strings_encoding(
                i.features,
            ));
            assert(le64(i.features.len() as u64) + strings_encoding(i.features) =~= le64(
                i.features.len() as u64,
            ) + (strings_encoding(i.features) + empty));
            lemma_parse_u64_of(i.features.len() as u64, strings_encoding(i.features) + empty);
            lemma_parse_strings_of(i.features, empty);
        },
        ContentV::Disconnect => {
            assert(s.skip(1).len() == 0);
        },
        ContentV::ReceiveRequest(m) => {
            assert(s[0] == 3);
            let b0: u8 = if m.allow_directories {
                1
            } else {
                0
            };
            let b1: u8 = if m.allow_multiple {
                1
            } else {
                0
            };
            assert(s.skip(1) =~= seq![b0, b1]);
            assert(seq![b0, b1].skip(1) =~= seq![b1]);
            assert(seq![b1].skip(1) =~= empty);
        },
        ContentV::SendRequest(m) => {
            assert(s[0] == 4);
            assert(s.skip(1) =~= opt_fi_encoding(m.file_info) + empty);
            lemma_parse_opt_fi_of(m.file_info, empty);
        },
        ContentV::AcceptTransfer => {
            assert(s.skip(1).len() == 0);
        },
        ContentV::RejectTransfer => {
            assert(s.skip(1).len() == 0);
        },
        ContentV::OpenFile(m) => {
            assert(s[0] == 7);
            assert(s.skip(1) =~= opt_fi_encoding(m.file_info) + empty);
            lemma_parse_opt_fi_of(m.file_info, empty);
        },
        ContentV::FileOpened(m) => {
            assert(s[0] == 8);
            assert(s.skip(1) =~= le64(m.continue_from) + empty);
            lemma_parse_u64_of(m.continue_from, empty);
        },
        ContentV::Chunk(ch) => {
            assert(s[0] == 9);
            assert(s.skip(1) =~= le64(ch.offset) + (bytes_encoding(ch.data) + empty));
            lemma_parse_u64_of(ch.offset, bytes_encoding(ch.data) + empty);
            lemma_parse_bytes_of(ch.data, empty);
        },
        ContentV::CloseFile => {
            assert(s.skip(1).len() == 0);
        },
        ContentV::CloseTransfer => {
            assert(s.skip(1).len() == 0);
        },
    }
}

proof fn lemma_strings_encoding_snoc(fs: Seq<Seq<char>>, x: Seq<char>)
    ensures
        strings_encoding(fs.push(x)) == strings_encoding(fs) + string_encoding(x),
    decreases fs.len(),
{
    if fs.len() == 0 {
        assert(fs.push(x)[0] == x);
        assert(fs.push(x).drop_first() =~= Seq::<Seq<char>>::empty());
        assert(strings_encoding(fs.push(x).drop_first()) == Seq::<u8>::empty());
        assert(strings_encoding(fs.push(x)) =~= strings_encoding(fs) + string_encoding(x));
    } else {
        assert(fs.push(x)[0] == fs[0]);
        assert(fs.push(x).drop_first() =~= fs.drop_first().push(x));
        lemma_strings_encoding_snoc(fs.drop_first(), x);
        assert(strings_encoding(fs.push(x)) =~= strings_encoding(fs) + string_encoding(x));
    }
}

/// Append the eight little-endian bytes of `x`.
fn push_le64(out: &mut Vec<u8>, x: u64)
    ensures
        final(out)@ == old(out)@ + le64(x),
{
    let ghost before = out@;
    out.push((x & 0xff) as u8);
    out.push(((x >> 8) & 0xff) as u8);
    out.push(((x >> 16) & 0xff) as u8);
    out.push(((x >> 24) & 0xff) as u8);
    out.push(((x >> 32) & 0xff) as u8);
    out.push(((x >> 40) & 0xff) as u8);
    out.push(((x >> 48) & 0xff) as u8);
    out.push(((x >> 56) & 0xff) as u8);
    proof {
        assert(out@ =~= before + le64(x));
    }
}

/// Append the four little-endian bytes of `x`.
fn push_le32(out: &mut Vec<u8>, x: u32)
    ensures
        final(out)@ == old(out)@ + le32(x),
{
    let ghost before = out@;
    out.push((x & 0xff) as u8);
    out.push(((x >> 8) & 0xff) as u8);
    out.push(((x >> 16) & 0xff) as u8);
    out.push(((x >> 24) & 0xff) as u8);
    proof {
        assert(out@ =~= before + le32(x));
    }
}

/// Append a length-prefixed byte field.
fn push_bytes(out: &mut Vec<u8>, d: &Vec<u8>)
    ensures
        final(out)@ == old(out)@ + bytes_encoding(d@),
{
    let ghost before = out@;
    push_le64(out, d.len() as u64);
    out.extend_from_slice(d.as_slice());
    proof {
        assert(out@ =~= before + bytes_encoding(d@));
    }
}

/// Append a length-prefixed UTF-8 string field.
fn push_string(out: &mut Vec<u8>, s: &String)
    ensures
        final(out)@ == old(out)@ + string_encoding(s@),
{
    let ghost before = out@;
    let bs = s.as_str().as_bytes();
    push_le64(out, bs.len() as u64);
    out.extend_from_slice(bs);
    proof {
        assert(out@ =~= before + string_encoding(s@));
    }
}

/// Append an optional file description.
fn push_opt_fi(out: &mut Vec<u8>, o: &Option<FileInfo>)
    ensures
        final(out)@ == old(out)@ + opt_fi_encoding(match o {
            Some(fi) => Some(fi@),
            None => None,
        }),
{
    let ghost before = out@;
    match o {
        None => {
            out.push(0);
            proof {
                assert(out@ =~= before + seq![0u8]);
            }
        },
        Some(fi) => {
            out.push(1);
            push_string(out, &fi.name);
            push_le64(out, fi.size);
            push_le32(out, fi.mode);
            proof {
                assert(out@ =~= before + opt_fi_encoding(Some(fi@)));
            }
        },
    }
}

/// Encode one message into the payload of one packet.
pub fn encode_message(m: &Content) -> (r: Vec<u8>)
    ensures
        r@ == msg_encoding(m@),
{
    let mut out: Vec<u8> = Vec::new();
    match m {
        Content::Init(i) => {
            out.push(1);
            push_le32(&mut out, i.version);
            push_le64(&mut out, i.features.len() as u64);
            let ghost head = out@;
            let mut j: usize = 0;
            while j < i.features.len()
                invariant
                    j <= i.features@.len(),
                    out@ == head + strings_encoding(i.features.deep_view().take(j as int)),
                decreases i.features@.len() - j,
            {
                push_string(&mut out, &i.features[j]);
                proof {
                    lemma_strings_encoding_snoc(
                        i.features.deep_view().take(j as int),
                        i.features@[j as int]@,
                    );
                    assert(i.features.deep_view().take(j + 1) =~= i.features.deep_view().take(
                        j as int,
                    ).push(i.features@[j as int]@));
                }
                j = j + 1;
            }
            proof {
                assert(i.features.deep_view().take(i.features@.len() as int)
                    =~= i.features.deep_view());
                assert(out@ =~= msg_encoding(m@));
            }
        },
        Content::Disconnect(_) => {
            out.push(2);
            proof {
                assert(out@ =~= msg_encoding(m@));
            }
        },
        Content::ReceiveRequest(rr) => {
            out.push(3);
            out.push(if rr.allow_directories { 1 } else { 0 });
            out.push(if rr.allow_multiple { 1 } else { 0 });
            proof {
                assert(out@ =~= msg_encoding(m@));
            }
        },
        Content::SendRequest(sr) => {
            out.push(4);
            push_opt_fi(&mut out, &sr.file_info);
            proof {
                assert(out@ =~= msg_encoding(m@));
            }
        },
        Content::AcceptTransfer(_) => {
            out.push(5);
            proof {
                assert(out@ =~= msg_encoding(m@));
            }
        },
        Content::RejectTransfer(_) => {
            out.push(6);
            proof {
                assert(out@ =~= msg_encoding(m@));
            }
        },
        Content::OpenFile(of) => {
            out.push(7);
            push_opt_fi(&mut out, &of.file_info);
            proof {
                assert(out@ =~= msg_encoding(m@));
            }
        },
        Content::FileOpened(fo) => {
            out.push(8);
            push_le64(&mut out, fo.continue_from);
            proof {
                assert(out@ =~= msg_encoding(m@));
            }
        },
        Content::Chunk(ch) => {
            out.push(9);
            push_le64(&mut out, ch.offset);
            push_bytes(&mut out, &ch.data);
            proof {
                assert(out@ =~= msg_encoding(m@));
            }
        },
        Content::CloseFile(_) => {
            out.push(10);
            proof {
                assert(out@ =~= msg_encoding(m@));
            }
        },
        Content::CloseTransfer(_) => {
            out.push(11);
            proof {
                assert(out@ =~= msg_encoding(m@));
            }
        },
    }
    out
}

/// Relies on `String::from_utf8`: it succeeds exactly on valid UTF-8, and
/// the returned string's UTF-8 bytes are the input bytes.
#[verifier::external_body]
fn bytes_to_string(v: Vec<u8>) -> (r: Option<String>)
    ensures
        match r {
            Some(s) => valid_utf8(v@) && encode_utf8(s@) == v@,
            None => !valid_utf8(v@),
        },
{
    match String::from_utf8(v) {
        Ok(s) => Some(s),
        Err(_) => None,
    }
}

/// Copy `data[from..to]` into a fresh vector.
fn copy_slice_range(data: &[u8], from: usize, to: usize) -> (r: Vec<u8>)
    requires
        from <= to <= data@.len(),
    ensures
        r@ == data@.subrange(from as int, to as int),
{
    let mut r: Vec<u8> = Vec::new();
    let mut i: usize = from;
    while i < to
        invariant
            from <= i <= to <= data@.len(),
            r@ == data@.subrange(from as int, i as int),
        decreases to - i,
    {
        r.push(data[i]);
        proof {
            assert(r@ =~= data@.subrange(from as int, i + 1));
        }
        i = i + 1;
    }
    r
}

/// Read a 64-bit little-endian value at `i`.
fn read_u64(data: &[u8], i: usize) -> (r: Option<(u64, usize)>)
    requires
        i <= data@.len(),
    ensures
        match r {
            Some(p) => i <= p.1 <= data@.len() && parse_u64(data@.skip(i as int)) == Some(
                (p.0, data@.skip(p.1 as int)),
            ),
            None => parse_u64(data@.skip(i as int)) is None,
        },
{
    if data.len() - i < 8 {
        return None;
    }
    let x = (data[i] as u64) | ((data[i + 1] as u64) << 8) | ((data[i + 2] as u64) << 16) | ((
    data[i + 3] as u64) << 24) | ((data[i + 4] as u64) << 32) | ((data[i + 5] as u64) << 40) | ((
    data[i + 6] as u64) << 48) | ((data[i + 7] as u64) << 56);
    proof {
        let t = data@.skip(i as int);
        assert(t[0] == data@[i as int] && t[1] == data@[i + 1] && t[2] == data@[i + 2] && t[3]
            == data@[i + 3] && t[4] == data@[i + 4] && t[5] == data@[i + 5] && t[6] == data@[i
            + 6] && t[7] == data@[i + 7]);
        assert(x == le64_val(t));
        assert(t.skip(8) =~= data@.skip(i + 8));
    }
    Some((x, i + 8))
}

/// Read a 32-bit little-endian value at `i`.
fn read_u32(data: &[u8], i: usize) -> (r: Option<(u32, usize)>)
    requires
        i <= data@.len(),
    ensures
        match r {
            Some(p) => i <= p.1 <= data@.len() && parse_u32(data@.skip(i as int)) == Some(
                (p.0, data@.skip(p.1 as int)),
            ),
            None => parse_u32(data@.skip(i as int)) is None,
        },
{
    if data.len() - i < 4 {
        return None;
    }
    let x = (data[i] as u32) | ((data[i + 1] as u32) << 8) | ((data[i + 2] as u32) << 16) | ((
    data[i + 3] as u32) << 24);
    proof {
        let t = data@.skip(i as int);
        assert(t[0] == data@[i as int] && t[1] == data@[i + 1] && t[2] == data@[i + 2] && t[3]
            == data@[i + 3]);
        assert(x == le32_val(t));
        assert(t.skip(4) =~= data@.skip(i + 4));
    }
    Some((x, i + 4))
}

/// Read one boolean byte at `i`.
fn read_bool(data: &[u8], i: usize) -> (r: Option<(bool, usize)>)
    requires
        i <= data@.len(),
    ensures
        match r {
            Some(p) => i <= p.1 <= data@.len() && parse_bool(data@.skip(i as int)) == Some(
                (p.0, data@.skip(p.1 as int)),
            ),
            None => parse_bool(data@.skip(i as int)) is None,
        },
{
    if data.len() - i < 1 {
        return None;
    }
    let b = data[i];
    proof {
        let t = data@.skip(i as int);
        assert(t[0] == data@[i as int]);
        assert(t.skip(1) =~= data@.skip(i + 1));
    }
    if b == 0 {
        Some((false, i + 1))
    } else if b == 1 {
        Some((true, i + 1))
    } else {
        None
    }
}

/// Read a length-prefixed byte field at `i`.
fn read_bytes(data: &[u8], i: usize) -> (r: Option<(Vec<u8>, usize)>)
    requires
        i <= data@.len(),
    ensures
        match r {
            Some(p) => i <= p.1 <= data@.len() && parse_bytes(data@.skip(i as int)) == Some(
                (p.0@, data@.skip(p.1 as int)),
            ),
            None => parse_bytes(data@.skip(i as int)) is None,
        },
{
    match read_u64(data, i) {
        Some((n, j)) => {
            if n > (data.len() - j) as u64 {
                proof {
                    assert(data@.skip(j as int).len() < n);
                }
                return None;
            }
            let m = n as usize;
            let v = copy_slice_range(data, j, j + m);
            proof {
                let t = data@.skip(j as int);
                assert(t.take(n as int) =~= data@.subrange(j as int, j + m));
                assert(t.skip(n as int) =~= data@.skip(j + m));
            }
            Some((v, j + m))
        },
        None => None,
    }
}

/// Read a length-prefixed UTF-8 string at `i`.
fn read_string(data: &[u8], i: usize) -> (r: Option<(String, usize)>)
    requires
        i <= data@.len(),
    ensures
        match r {
            Some(p) => i <= p.1 <= data@.len() && parse_string(data@.skip(i as int)) == Some(
                (p.0@, data@.skip(p.1 as int)),
            ),
            None => parse_string(data@.skip(i as int)) is None,
        },
{
    match read_bytes(data, i) {
        Some((v, j)) => {
            let ghost bytes = v@;
            match bytes_to_string(v) {
                Some(s) => {
                    proof {
                        encode_utf8_decode_utf8(s@);
                    }
                    Some((s, j))
                },
                None => None,
            }
        },
        None => None,
    }
}

/// Read `n` string fields at `i`.
fn read_strings(data: &[u8], i: usize, n: u64) -> (r: Option<(Vec<String>, usize)>)
    requires
        i <= data@.len(),
    ensures
        match r {
            Some(p) => i <= p.1 <= data@.len() && parse_strings(data@.skip(i as int), n) == Some(
                (p.0.deep_view(), data@.skip(p.1 as int)),
            ),
            None => parse_strings(data@.skip(i as int), n) is None,
        },
{
    let mut v: Vec<String> = Vec::new();
    let mut cur = i;
    let mut c: u64 = 0;
    proof {
        assert(v.deep_view() =~= Seq::<Seq<char>>::empty());
    }
    while c < n
        invariant
            i <= cur <= data@.len(),
            c <= n,
            parse_strings(data@.skip(i as int), n) == (match parse_strings(
                data@.skip(cur as int),
                (n - c) as u64,
            ) {
                Some(q) => Some((v.deep_view() + q.0, q.1)),
                None => None::<(Seq<Seq<char>>, Seq<u8>)>,
            }),
        decreases n - c,
    {
        match read_string(data, cur) {
            Some((s, j)) => {
                let ghost prev = v.deep_view();
                v.push(s);
                proof {
                    assert(v.deep_view() =~= prev.push(s@));
                    assert forall|q0: Seq<Seq<char>>|
                        prev + (seq![s@] + q0) =~= v.deep_view() + q0 by {
                    }
                }
                cur = j;
            },
            None => {
                return None;
            },
        }
        c = c + 1;
    }
    proof {
        assert(parse_strings(data@.skip(cur as int), 0) == Some(
            (Seq::<Seq<char>>::empty(), data@.skip(cur as int)),
        ));
        assert(v.deep_view() + Seq::<Seq<char>>::empty() =~= v.deep_view());
    }
    Some((v, cur))
}

/// Read an optional file description at `i`.
fn read_opt_fi(data: &[u8], i: usize) -> (r: Option<(Option<FileInfo>, usize)>)
    requires
        i <= data@.len(),
    ensures
        match r {
            Some(p) => i <= p.1 <= data@.len() && parse_opt_fi(data@.skip(i as int)) == Some(
                (
                    match p.0 {
                        Some(ref fi) => Some(fi@),
                        None => None::<FileInfoV>,
                    },
                    data@.skip(p.1 as int),
                ),
            ),
            None => parse_opt_fi(data@.skip(i as int)) is None,
        },
{
    if data.len() - i < 1 {
        return None;
    }
    let b = data[i];
    proof {
        let t = data@.skip(i as int);
        assert(t[0] == data@[i as int]);
        assert(t.skip(1) =~= data@.skip(i + 1));
    }
    if b == 0 {
        return Some((None, i + 1));
    }
    if b != 1 {
        return None;
    }
    proof {
        assert(data@.skip(i + 1) =~= data@.skip(i as int).skip(1));
    }
    match read_string(data, i + 1) {
        Some((name, j)) => {
            match read_u64(data, j) {
                Some((size, j2)) => {
                    match read_u32(data, j2) {
                        Some((mode, j3)) => {
                            Some((Some(FileInfo { name, size, mode }), j3))
                        },
                        None => None,
                    }
                },
                None => None,
            }
        },
        None => None,
    }
}

/// Decode one packet payload into a message; `None` means the payload is
/// dropped.
pub fn decode_message(data: &[u8]) -> (r: Option<Content>)
    ensures
        match r {
            Some(c) => msg_parse(data@) == Some(c@),
            None => msg_parse(data@) is None,
        },
{
    if data.len() == 0 {
        return None;
    }
    let tag = data[0];
    proof {
        assert(data@.skip(1) == data@.skip(0int).skip(1) || true);
        assert(data@[0] == tag);
    }
    if tag == 1 {
        match read_u32(data, 1) {
            Some((version, j)) => {
                match read_u64(data, j) {
                    Some((count, j2)) => {
                        match read_strings(data, j2, count) {
                            Some((features, j3)) => {
                                if j3 == data.len() {
                                    proof {
                                        assert(data@.skip(j3 as int).len() == 0);
                                        assert(data@.skip(j3 as int)
                                            =~= Seq::<u8>::empty());
                                    }
                                    Some(Content::Init(Init { version, features }))
                                } else {
                                    None
                                }
                            },
                            None => None,
                        }
                    },
                    None => None,
                }
            },
            None => None,
        }
    } else if tag == 2 {
        if data.len() == 1 {
            Some(Content::Disconnect(Disconnect {}))
        } else {
            None
        }
    } else if tag == 3 {
        match read_bool(data, 1) {
            Some((allow_directories, j)) => {
                match read_bool(data, j) {
                    Some((allow_multiple, j2)) => {
                        if j2 == data.len() {
                            proof {
                                assert(data@.skip(j2 as int) =~= Seq::<u8>::empty());
                            }
                            Some(Content::ReceiveRequest(ReceiveRequest {
                                allow_directories,
                                allow_multiple,
                            }))
                        } else {
                            None
                        }
                    },
                    None => None,
                }
            },
            None => None,
        }
    } else if tag == 4 {
        match read_opt_fi(data, 1) {
            Some((file_info, j)) => {
                if j == data.len() {
                    proof {
                        assert(data@.skip(j as int) =~= Seq::<u8>::empty());
                    }
                    Some(Content::SendRequest(SendRequest { file_info }))
                } else {
                    None
                }
            },
            None => None,
        }
    } else if tag == 5 {
        if data.len() == 1 {
            Some(Content::AcceptTransfer(AcceptTransfer {}))
        } else {
            None
        }
    } else if tag == 6 {
        if data.len() == 1 {
            Some(Content::RejectTransfer(RejectTransfer {}))
        } else {
            None
        }
    } else if tag == 7 {
        match read_opt_fi(data, 1) {
            Some((file_info, j)) => {
                if j == data.len() {
                    proof {
                        assert(data@.skip(j as int) =~= Seq::<u8>::empty());
                    }
                    Some(Content::OpenFile(OpenFile { file_info }))
                } else {
                    None
                }
            },
            None => None,
        }
    } else if tag == 8 {
        match read_u64(data, 1) {
            Some((continue_from, j)) => {
                if j == data.len() {
                    proof {
                        assert(data@.skip(j as int) =~= Seq::<u8>::empty());
                    }
                    Some(Content::FileOpened(FileOpened { continue_from }))
                } else {
                    None
                }
            },
            None => None,
        }
    } else if tag == 9 {
        match read_u64(data, 1) {
            Some((offset, j)) => {
                match read_bytes(data, j) {
                    Some((chunk_data, j2)) => {
                        if j2 == data.len() {
                            proof {
                                assert(data@.skip(j2 as int) =~= Seq::<u8>::empty());
                            }
                            Some(Content::Chunk(Chunk { offset, data: chunk_data }))
                        } else {
                            None
                        }
                    },
                    None => None,
                }
            },
            None => None,
        }
    } else if tag == 10 {
        if data.len() == 1 {
            Some(Content::CloseFile(CloseFile {}))
        } else {
            None
        }
    } else if tag == 11 {
        if data.len() == 1 {
            Some(Content::CloseTransfer(CloseTransfer {}))
        } else {
            None
        }
    } else {
        None
    }
}

} // verus!
