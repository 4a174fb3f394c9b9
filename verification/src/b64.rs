//! Standard (padded) base64, with a full functional specification.
//!
//! The framing layer relies on two facts proved here: encoding is injective
//! (so decoding the body of a packet recovers exactly the payload), and the
//! output alphabet contains neither the ESC byte that opens a packet prefix
//! nor the BEL byte that terminates a packet.

use vstd::prelude::*;

verus! {

/// The base64 character (as a byte) for a six-bit value.
pub open spec fn sextet_char(v: u8) -> u8
    recommends
        v < 64,
{
    if v < 26 {
        (v + 65) as u8
    } else if v < 52 {
        (v + 71) as u8
    } else if v < 62 {
        (v - 4) as u8
    } else if v == 62 {
        43u8
    } else {
        47u8
    }
}

/// A byte of the base64 alphabet proper (excluding the `=` pad, byte 61).
pub open spec fn is_b64_byte(c: u8) -> bool {
    (65 <= c <= 90) || (97 <= c <= 122) || (48 <= c <= 57) || c == 43 || c == 47
}

/// The four characters encoding one full three-byte group.
pub open spec fn b64_group3(b0: u8, b1: u8, b2: u8) -> Seq<u8> {
    seq![
        sextet_char(b0 >> 2),
        sextet_char(((b0 & 3) << 4) | (b1 >> 4)),
        sextet_char(((b1 & 15) << 2) | (b2 >> 6)),
        sextet_char(b2 & 63),
    ]
}

/// The padded base64 encoding of a byte sequence.
pub open spec fn b64_of(s: Seq<u8>) -> Seq<u8>
    decreases s.len(),
{
    if s.len() == 0 {
        Seq::empty()
    } else if s.len() == 1 {
        seq![sextet_char(s[0] >> 2), sextet_char((s[0] & 3) << 4), 61u8, 61u8]
    } else if s.len() == 2 {
        seq![
            sextet_char(s[0] >> 2),
            sextet_char(((s[0] & 3) << 4) | (s[1] >> 4)),
            sextet_char((s[1] & 15) << 2),
            61u8,
        ]
    } else {
        b64_group3(s[0], s[1], s[2]) + b64_of(s.skip(3))
    }
}

/// Decoding is the partial inverse of encoding: `Some` exactly on sequences
/// that are the encoding of some payload.
pub open spec fn b64_parse(s: Seq<u8>) -> Option<Seq<u8>> {
    if exists|p: Seq<u8>| b64_of(p) == s {
        Some(choose|p: Seq<u8>| b64_of(p) == s)
    } else {
        None::<Seq<u8>>
    }
}

pub proof fn lemma_sextet_char_is_b64(v: u8)
    requires
        v < 64,
    ensures
        is_b64_byte(sextet_char(v)),
{
}

pub proof fn lemma_sextet_char_inj(x: u8, y: u8)
    requires
        x < 64,
        y < 64,
        sextet_char(x) == sextet_char(y),
    ensures
        x == y,
{
}

pub proof fn lemma_b64_of_len(s: Seq<u8>)
    ensures
        b64_of(s).len() == 4 * ((s.len() + 2) / 3),
    decreases s.len(),
{
    if s.len() >= 3 {
        lemma_b64_of_len(s.skip(3));
    }
}

/// Splitting off whole three-byte groups splits the encoding.
pub proof fn lemma_b64_of_append_full(a: Seq<u8>, b: Seq<u8>)
    requires
        a.len() % 3 == 0,
    ensures
        b64_of(a + b) == b64_of(a) + b64_of(b),
    decreases a.len(),
{
    if a.len() == 0 {
        assert(a + b =~= b);
        assert(b64_of(a) + b64_of(b) =~= b64_of(b));
    } else {
        let ab = a + b;
        assert(ab.len() >= 3);
        assert(ab[0] == a[0] && ab[1] == a[1] && ab[2] == a[2]);
        assert(ab.skip(3) =~= a.skip(3) + b);
        lemma_b64_of_append_full(a.skip(3), b);
        assert(b64_of(a + b) =~= b64_of(a) + b64_of(b));
    }
}

/// Where the alphabet bytes and the `=` pads fall in an encoding, by the
/// length of the payload modulo three.
pub proof fn lemma_b64_shape(p: Seq<u8>)
    ensures
        b64_of(p).len() == 4 * ((p.len() + 2) / 3),
        p.len() % 3 == 0 ==> forall|j: int|
            0 <= j < b64_of(p).len() ==> is_b64_byte(#[trigger] b64_of(p)[j]),
        p.len() % 3 == 1 ==> (forall|j: int|
            0 <= j < b64_of(p).len() - 2 ==> is_b64_byte(#[trigger] b64_of(p)[j]))
            && b64_of(p)[b64_of(p).len() - 2] == 61 && b64_of(p)[b64_of(p).len() - 1] == 61,
        p.len() % 3 == 2 ==> (forall|j: int|
            0 <= j < b64_of(p).len() - 1 ==> is_b64_byte(#[trigger] b64_of(p)[j]))
            && b64_of(p)[b64_of(p).len() - 1] == 61,
    decreases p.len(),
{
    lemma_b64_of_len(p);
    if p.len() == 0 {
    } else if p.len() == 1 {
        let b0 = p[0];
        assert(b0 >> 2 < 64 && (b0 & 3) << 4 < 64) by (bit_vector);
        lemma_sextet_char_is_b64(b0 >> 2);
        lemma_sextet_char_is_b64((b0 & 3) << 4);
    } else if p.len() == 2 {
        let b0 = p[0];
        let b1 = p[1];
        assert(b0 >> 2 < 64 && ((b0 & 3) << 4) | (b1 >> 4) < 64 && (b1 & 15) << 2 < 64)
            by (bit_vector);
        lemma_sextet_char_is_b64(b0 >> 2);
        lemma_sextet_char_is_b64(((b0 & 3) << 4) | (b1 >> 4));
        lemma_sextet_char_is_b64((b1 & 15) << 2);
    } else {
        let b0 = p[0];
        let b1 = p[1];
        let b2 = p[2];
        assert(b0 >> 2 < 64 && ((b0 & 3) << 4) | (b1 >> 4) < 64 && ((b1 & 15) << 2) | (b2 >> 6)
            < 64 && b2 & 63 < 64) by (bit_vector);
        lemma_sextet_char_is_b64(b0 >> 2);
        lemma_sextet_char_is_b64(((b0 & 3) << 4) | (b1 >> 4));
        lemma_sextet_char_is_b64(((b1 & 15) << 2) | (b2 >> 6));
        lemma_sextet_char_is_b64(b2 & 63);
        lemma_b64_shape(p.skip(3));
        assert(p.skip(3).len() % 3 == p.len() % 3);
        assert(forall|j: int|
            4 <= j < b64_of(p).len() ==> b64_of(p)[j] == #[trigger] b64_of(p.skip(3))[j - 4]);
    }
}

/// No byte of an encoding is ESC (27) or BEL (7): packets cannot contain a
/// nested frame boundary.
pub proof fn lemma_b64_of_tame(p: Seq<u8>)
    ensures
        forall|j: int| 0 <= j < b64_of(p).len() ==> #[trigger] b64_of(p)[j] != 7,
        forall|j: int| 0 <= j < b64_of(p).len() ==> #[trigger] b64_of(p)[j] != 27,
        forall|j: int| 0 <= j < b64_of(p).len() ==> #[trigger] b64_of(p)[j] > 40,
{
    lemma_b64_shape(p);
    assert forall|j: int| 0 <= j < b64_of(p).len() implies #[trigger] b64_of(p)[j] > 40 by {
        let c = b64_of(p)[j];
        assert(is_b64_byte(c) || c == 61);
    }
}

/// Encoding is injective.
pub proof fn lemma_b64_of_inj(p1: Seq<u8>, p2: Seq<u8>)
    requires
        b64_of(p1) == b64_of(p2),
    ensures
        p1 == p2,
    decreases p1.len(),
{
    lemma_b64_shape(p1);
    lemma_b64_shape(p2);
    let s = b64_of(p1);
    if p1.len() == 0 {
        assert(p2.len() == 0);
        assert(p1 =~= p2);
    } else if p1.len() == 1 {
        // the encoding ends "==", which only payloads of length 3k+1 produce
        assert(s.len() == 4);
        assert(s[2] == 61);
        assert(p2.len() % 3 == 1) by {
            if p2.len() % 3 == 0 {
                assert(is_b64_byte(s[2]));
            }
            if p2.len() % 3 == 2 {
                assert(is_b64_byte(s[2]));
            }
        }
        assert(p2.len() == 1);
        let x = p1[0];
        let y = p2[0];
        assert(x >> 2 < 64 && (x & 3) << 4 < 64 && y >> 2 < 64 && (y & 3) << 4 < 64)
            by (bit_vector);
        lemma_sextet_char_inj(x >> 2, y >> 2);
        lemma_sextet_char_inj((x & 3) << 4, (y & 3) << 4);
        assert(x >> 2 == y >> 2 && (x & 3) << 4 == (y & 3) << 4 ==> x == y) by (bit_vector);
        assert(p1 =~= p2);
    } else if p1.len() == 2 {
        assert(s.len() == 4);
        assert(s[3] == 61 && is_b64_byte(s[2]));
        assert(p2.len() % 3 == 2) by {
            if p2.len() % 3 == 0 {
                assert(is_b64_byte(s[3]));
            }
            if p2.len() % 3 == 1 {
                assert(s[2] == 61);
            }
        }
        assert(p2.len() == 2);
        let x0 = p1[0];
        let x1 = p1[1];
        let y0 = p2[0];
        let y1 = p2[1];
        assert(x0 >> 2 < 64 && ((x0 & 3) << 4) | (x1 >> 4) < 64 && (x1 & 15) << 2 < 64)
            by (bit_vector);
        assert(y0 >> 2 < 64 && ((y0 & 3) << 4) | (y1 >> 4) < 64 && (y1 & 15) << 2 < 64)
            by (bit_vector);
        assert(sextet_char(x0 >> 2) == s[0] && sextet_char(((x0 & 3) << 4) | (x1 >> 4)) == s[1]
            && sextet_char((x1 & 15) << 2) == s[2]);
        assert(sextet_char(y0 >> 2) == s[0] && sextet_char(((y0 & 3) << 4) | (y1 >> 4)) == s[1]
            && sextet_char((y1 & 15) << 2) == s[2]);
        lemma_sextet_char_inj(x0 >> 2, y0 >> 2);
        lemma_sextet_char_inj(((x0 & 3) << 4) | (x1 >> 4), ((y0 & 3) << 4) | (y1 >> 4));
        lemma_sextet_char_inj((x1 & 15) << 2, (y1 & 15) << 2);
        assert(x0 >> 2 == y0 >> 2 && ((x0 & 3) << 4) | (x1 >> 4) == ((y0 & 3) << 4) | (y1 >> 4)
            && (x1 & 15) << 2 == (y1 & 15) << 2 ==> x0 == y0 && x1 == y1) by (bit_vector);
        assert(p1 =~= p2);
    } else {
        assert(s[3] != 61 && is_b64_byte(s[2]) && is_b64_byte(s[3])) by {
            assert(b64_of(p1) == b64_group3(p1[0], p1[1], p1[2]) + b64_of(p1.skip(3)));
            let b0 = p1[0];
            let b1 = p1[1];
            let b2 = p1[2];
            assert(((b1 & 15) << 2) | (b2 >> 6) < 64 && b2 & 63 < 64) by (bit_vector);
            lemma_sextet_char_is_b64(((b1 & 15) << 2) | (b2 >> 6));
            lemma_sextet_char_is_b64(b2 & 63);
        }
        assert(p2.len() >= 3) by {
            if p2.len() == 1 {
                assert(s[3] == 61);
            }
            if p2.len() == 2 {
                assert(s[3] == 61);
            }
        }
        let x0 = p1[0];
        let x1 = p1[1];
        let x2 = p1[2];
        let y0 = p2[0];
        let y1 = p2[1];
        let y2 = p2[2];
        assert(x0 >> 2 < 64 && ((x0 & 3) << 4) | (x1 >> 4) < 64 && ((x1 & 15) << 2) | (x2 >> 6)
            < 64 && x2 & 63 < 64) by (bit_vector);
        assert(y0 >> 2 < 64 && ((y0 & 3) << 4) | (y1 >> 4) < 64 && ((y1 & 15) << 2) | (y2 >> 6)
            < 64 && y2 & 63 < 64) by (bit_vector);
        assert(b64_of(p1) == b64_group3(x0, x1, x2) + b64_of(p1.skip(3)));
        assert(b64_of(p2) == b64_group3(y0, y1, y2) + b64_of(p2.skip(3)));
        assert(sextet_char(x0 >> 2) == s[0] && sextet_char(((x0 & 3) << 4) | (x1 >> 4)) == s[1]
            && sextet_char(((x1 & 15) << 2) | (x2 >> 6)) == s[2] && sextet_char(x2 & 63) == s[3]);
        assert(sextet_char(y0 >> 2) == s[0] && sextet_char(((y0 & 3) << 4) | (y1 >> 4)) == s[1]
            && sextet_char(((y1 & 15) << 2) | (y2 >> 6)) == s[2] && sextet_char(y2 & 63) == s[3]);
        lemma_sextet_char_inj(x0 >> 2, y0 >> 2);
        lemma_sextet_char_inj(((x0 & 3) << 4) | (x1 >> 4), ((y0 & 3) << 4) | (y1 >> 4));
        lemma_sextet_char_inj(((x1 & 15) << 2) | (x2 >> 6), ((y1 & 15) << 2) | (y2 >> 6));
        lemma_sextet_char_inj(x2 & 63, y2 & 63);
        assert(x0 >> 2 == y0 >> 2 && ((x0 & 3) << 4) | (x1 >> 4) == ((y0 & 3) << 4) | (y1 >> 4)
            && ((x1 & 15) << 2) | (x2 >> 6) == ((y1 & 15) << 2) | (y2 >> 6) && x2 & 63 == y2 & 63
            ==> x0 == y0 && x1 == y1 && x2 == y2) by (bit_vector);
        assert(b64_of(p1.skip(3)) == b64_of(p2.skip(3))) by {
            let r1 = b64_of(p1.skip(3));
            let r2 = b64_of(p2.skip(3));
            lemma_b64_of_len(p1.skip(3));
            lemma_b64_of_len(p2.skip(3));
            assert(r1.len() == r2.len());
            assert forall|i: int| 0 <= i < r1.len() implies r1[i] == r2[i] by {
                assert(r1[i] == (b64_group3(x0, x1, x2) + r1)[i + 4]);
                assert(r2[i] == (b64_group3(y0, y1, y2) + r2)[i + 4]);
            }
            assert(r1 =~= r2);
        }
        lemma_b64_of_inj(p1.skip(3), p2.skip(3));
        assert(p1.len() == p2.len()) by {
            assert(p1.skip(3).len() == p2.skip(3).len());
        }
        assert forall|j: int| 0 <= j < p1.len() implies p1[j] == p2[j] by {
            if j >= 3 {
                assert(p1[j] == p1.skip(3)[j - 3]);
                assert(p2[j] == p2.skip(3)[j - 3]);
            }
        }
        assert(p1 =~= p2);
    }
}

/// Decoding an encoding yields back the payload.
pub proof fn lemma_b64_roundtrip(p: Seq<u8>)
    ensures
        b64_parse(b64_of(p)) == Some(p),
{
    let s = b64_of(p);
    assert(exists|q: Seq<u8>| b64_of(q) == s);
    let q = choose|q: Seq<u8>| b64_of(q) == s;
    lemma_b64_of_inj(q, p);
}

fn sextet_to_char(v: u8) -> (c: u8)
    requires
        v < 64,
    ensures
        c == sextet_char(v),
{
    if v < 26 {
        v + 65
    } else if v < 52 {
        v + 71
    } else if v < 62 {
        v - 4
    } else if v == 62 {
        43
    } else {
        47
    }
}

fn char_to_sextet(c: u8) -> (r: Option<u8>)
    ensures
        match r {
            Some(v) => v < 64 && sextet_char(v) == c,
            None => !is_b64_byte(c),
        },
{
    if 65 <= c && c <= 90 {
        Some(c - 65)
    } else if 97 <= c && c <= 122 {
        Some(c - 97 + 26)
    } else if 48 <= c && c <= 57 {
        Some(c - 48 + 52)
    } else if c == 43 {
        Some(62)
    } else if c == 47 {
        Some(63)
    } else {
        None
    }
}

/// Encode a byte sequence as padded base64.
pub fn b64_encode(data: &[u8]) -> (r: Vec<u8>)
    ensures
        r@ == b64_of(data@),
{
    let mut out: Vec<u8> = Vec::new();
    let mut i: usize = 0;
    while data.len() - i >= 3
        invariant
            i % 3 == 0,
            i <= data.len(),
            out@ == b64_of(data@.take(i as int)),
        decreases data.len() - i,
    {
        let b0 = data[i];
        let b1 = data[i + 1];
        let b2 = data[i + 2];
        proof {
            assert(b0 >> 2 < 64 && ((b0 & 3) << 4) | (b1 >> 4) < 64 && ((b1 & 15) << 2) | (b2
                >> 6) < 64 && b2 & 63 < 64) by (bit_vector);
        }
        out.push(sextet_to_char(b0 >> 2));
        out.push(sextet_to_char(((b0 & 3) << 4) | (b1 >> 4)));
        out.push(sextet_to_char(((b1 & 15) << 2) | (b2 >> 6)));
        out.push(sextet_to_char(b2 & 63));
        proof {
            let a = data@.take(i as int);
            let g = data@.subrange(i as int, i + 3);
            lemma_b64_of_append_full(a, g);
            assert(a + g =~= data@.take(i + 3));
            assert(g.len() == 3 && g[0] == b0 && g[1] == b1 && g[2] == b2);
            assert(g.skip(3) =~= Seq::<u8>::empty());
            assert(b64_of(g.skip(3)) == Seq::<u8>::empty());
            assert(b64_of(g) =~= b64_group3(b0, b1, b2));
            assert(out@ =~= b64_of(data@.take(i + 3)));
        }
        i = i + 3;
    }
    let ghost head = data@.take(i as int);
    if data.len() - i == 1 {
        let b0 = data[i];
        proof {
            assert(b0 >> 2 < 64 && (b0 & 3) << 4 < 64) by (bit_vector);
        }
        out.push(sextet_to_char(b0 >> 2));
        out.push(sextet_to_char((b0 & 3) << 4));
        out.push(61);
        out.push(61);
        proof {
            let t = data@.skip(i as int);
            lemma_b64_of_append_full(head, t);
            assert(head + t =~= data@);
            assert(t.len() == 1 && t[0] == b0);
            assert(out@ =~= b64_of(data@));
        }
    } else if data.len() - i == 2 {
        let b0 = data[i];
        let b1 = data[i + 1];
        proof {
            assert(b0 >> 2 < 64 && ((b0 & 3) << 4) | (b1 >> 4) < 64 && (b1 & 15) << 2 < 64)
                by (bit_vector);
        }
        out.push(sextet_to_char(b0 >> 2));
        out.push(sextet_to_char(((b0 & 3) << 4) | (b1 >> 4)));
        out.push(sextet_to_char((b1 & 15) << 2));
        out.push(61);
        proof {
            let t = data@.skip(i as int);
            lemma_b64_of_append_full(head, t);
            assert(head + t =~= data@);
            assert(t.len() == 2 && t[0] == b0 && t[1] == b1);
            assert(out@ =~= b64_of(data@));
        }
    } else {
        proof {
            assert(data@.take(i as int) =~= data@);
        }
    }
    out
}

/// A non-alphabet, non-pad byte at the second-to-last position rules out any
/// preimage.
proof fn last_two_not_b64(s: Seq<u8>)
    requires
        s.len() >= 2,
        !is_b64_byte(s[s.len() - 2]),
        s[s.len() - 2] != 61,
    ensures
        forall|p: Seq<u8>| b64_of(p) != s,
{
    assert forall|p: Seq<u8>| b64_of(p) != s by {
        if b64_of(p) == s {
            lemma_b64_shape(p);
            if p.len() % 3 == 1 {
                assert(s[s.len() - 2] == 61);
            } else {
                assert(is_b64_byte(s[s.len() - 2]));
            }
        }
    }
}

/// A non-alphabet, non-pad byte at the last position rules out any preimage.
proof fn last_one_not_b64(s: Seq<u8>)
    requires
        s.len() >= 1,
        !is_b64_byte(s[s.len() - 1]),
        s[s.len() - 1] != 61,
    ensures
        forall|p: Seq<u8>| b64_of(p) != s,
{
    assert forall|p: Seq<u8>| b64_of(p) != s by {
        if b64_of(p) == s {
            lemma_b64_shape(p);
            if p.len() % 3 == 0 {
                assert(is_b64_byte(s[s.len() - 1]));
            } else {
                assert(s[s.len() - 1] == 61);
            }
        }
    }
}

/// A pad at the second-to-last position demands a pad at the last one.
proof fn bad_pad_no_preimage(s: Seq<u8>)
    requires
        s.len() >= 2,
        s[s.len() - 2] == 61,
        s[s.len() - 1] != 61,
    ensures
        forall|p: Seq<u8>| b64_of(p) != s,
{
    assert forall|p: Seq<u8>| b64_of(p) != s by {
        if b64_of(p) == s {
            lemma_b64_shape(p);
            if p.len() % 3 == 1 {
                assert(s[s.len() - 1] == 61);
            } else {
                assert(is_b64_byte(s[s.len() - 2]));
            }
        }
    }
}

/// With a double pad, the second character of the final group carries only
/// the top two bits of the final payload byte; dangling low bits rule out
/// any preimage.
proof fn dangling_pad2_no_preimage(s: Seq<u8>, s1: u8)
    requires
        s.len() >= 4,
        s[s.len() - 2] == 61,
        s[s.len() - 1] == 61,
        s1 < 64,
        sextet_char(s1) == s[s.len() - 3],
        s1 & 15 != 0,
    ensures
        forall|p: Seq<u8>| b64_of(p) != s,
{
    assert forall|p: Seq<u8>| b64_of(p) != s by {
        if b64_of(p) == s {
            lemma_b64_shape(p);
            if p.len() % 3 != 1 {
                assert(is_b64_byte(s[s.len() - 2]));
            }
            assert(p.len() % 3 == 1);
            let k = p.len() - 1;
            let head = p.take(k);
            let q = p.skip(k);
            lemma_b64_of_append_full(head, q);
            assert(head + q =~= p);
            lemma_b64_of_len(head);
            assert(q.len() == 1);
            let v = q[0];
            assert(b64_of(q) == seq![
                sextet_char(v >> 2),
                sextet_char((v & 3) << 4),
                61u8,
                61u8,
            ]);
            assert(b64_of(head).len() == s.len() - 4);
            assert(b64_of(q)[1] == (b64_of(head) + b64_of(q))[s.len() - 3]);
            assert(sextet_char((v & 3) << 4) == s[s.len() - 3]);
            assert((v & 3) << 4 < 64) by (bit_vector);
            lemma_sextet_char_inj((v & 3) << 4, s1);
            assert(((v & 3) << 4) & 15 == 0) by (bit_vector);
        }
    }
}

/// With a single pad, the third character of the final group carries only
/// the top four bits of the final payload byte; dangling low bits rule out
/// any preimage.
proof fn dangling_pad1_no_preimage(s: Seq<u8>, s2: u8)
    requires
        s.len() >= 4,
        s[s.len() - 2] != 61,
        s[s.len() - 1] == 61,
        s2 < 64,
        sextet_char(s2) == s[s.len() - 2],
        s2 & 3 != 0,
    ensures
        forall|p: Seq<u8>| b64_of(p) != s,
{
    assert forall|p: Seq<u8>| b64_of(p) != s by {
        if b64_of(p) == s {
            lemma_b64_shape(p);
            if p.len() % 3 == 0 {
                assert(is_b64_byte(s[s.len() - 1]));
            }
            if p.len() % 3 == 1 {
                assert(s[s.len() - 2] == 61);
            }
            assert(p.len() % 3 == 2);
            let k = p.len() - 2;
            let head = p.take(k);
            let q = p.skip(k);
            lemma_b64_of_append_full(head, q);
            assert(head + q =~= p);
            lemma_b64_of_len(head);
            assert(q.len() == 2);
            let v = q[1];
            assert(b64_of(q) == seq![
                sextet_char(q[0] >> 2),
                sextet_char(((q[0] & 3) << 4) | (v >> 4)),
                sextet_char((v & 15) << 2),
                61u8,
            ]);
            assert(b64_of(head).len() == s.len() - 4);
            assert(b64_of(q)[2] == (b64_of(head) + b64_of(q))[s.len() - 2]);
            assert(sextet_char((v & 15) << 2) == s[s.len() - 2]);
            assert((v & 15) << 2 < 64) by (bit_vector);
            lemma_sextet_char_inj((v & 15) << 2, s2);
            assert(((v & 15) << 2) & 3 == 0) by (bit_vector);
        }
    }
}

/// A non-alphabet byte strictly before the last two positions rules out any
/// preimage.
proof fn mid_group_not_b64(s: Seq<u8>, j: int)
    requires
        0 <= j < s.len() - 2,
        !is_b64_byte(s[j]),
    ensures
        forall|p: Seq<u8>| b64_of(p) != s,
{
    assert forall|p: Seq<u8>| b64_of(p) != s by {
        if b64_of(p) == s {
            lemma_b64_shape(p);
            assert(is_b64_byte(s[j]));
        }
    }
}

/// Decode padded base64 strictly: `Some` exactly on canonical encodings.
#[verifier::rlimit(60)]
pub fn b64_decode(data: &[u8]) -> (r: Option<Vec<u8>>)
    ensures
        match r {
            Some(v) => b64_parse(data@) == Some(v@) && b64_of(v@) == data@,
            None => b64_parse(data@) is None,
        },
{
    if data.len() == 0 {
        let out: Vec<u8> = Vec::new();
        proof {
            assert(b64_of(out@) =~= data@);
            lemma_b64_roundtrip(out@);
        }
        return Some(out);
    }
    if data.len() % 4 != 0 {
        proof {
            assert forall|p: Seq<u8>| b64_of(p) != data@ by {
                lemma_b64_of_len(p);
            }
        }
        return None;
    }
    let mut out: Vec<u8> = Vec::new();
    let mut pos: usize = 0;
    while data.len() - pos >= 8
        invariant
            pos % 4 == 0,
            pos + 4 <= data@.len(),
            data@.len() % 4 == 0,
            data@.len() >= 4,
            out@.len() % 3 == 0,
            b64_of(out@) == data@.take(pos as int),
        decreases data@.len() - pos,
    {
        let c0 = data[pos];
        let c1 = data[pos + 1];
        let c2 = data[pos + 2];
        let c3 = data[pos + 3];
        let s0 = match char_to_sextet(c0) {
            Some(v) => v,
            None => {
                proof {
                    mid_group_not_b64(data@, pos as int);
                }
                return None;
            },
        };
        let s1 = match char_to_sextet(c1) {
            Some(v) => v,
            None => {
                proof {
                    mid_group_not_b64(data@, pos + 1);
                }
                return None;
            },
        };
        let s2 = match char_to_sextet(c2) {
            Some(v) => v,
            None => {
                proof {
                    mid_group_not_b64(data@, pos + 2);
                }
                return None;
            },
        };
        let s3 = match char_to_sextet(c3) {
            Some(v) => v,
            None => {
                proof {
                    mid_group_not_b64(data@, pos + 3);
                }
                return None;
            },
        };
        let b0 = (s0 << 2) | (s1 >> 4);
        let b1 = ((s1 & 15) << 4) | (s2 >> 2);
        let b2 = ((s2 & 3) << 6) | s3;
        let ghost prev = out@;
        out.push(b0);
        out.push(b1);
        out.push(b2);
        proof {
            assert(s0 < 64 && s1 < 64 && s2 < 64 && s3 < 64 ==> ((s0 << 2) | (s1 >> 4)) >> 2 == s0
                && ((((s0 << 2) | (s1 >> 4)) & 3) << 4) | ((((s1 & 15) << 4) | (s2 >> 2)) >> 4)
                    == s1
                && (((((s1 & 15) << 4) | (s2 >> 2)) & 15) << 2) | ((((s2 & 3) << 6) | s3) >> 6)
                    == s2
                && (((s2 & 3) << 6) | s3) & 63 == s3) by (bit_vector);
            let tail3 = seq![b0, b1, b2];
            lemma_b64_of_append_full(prev, tail3);
            assert(tail3.skip(3) =~= Seq::<u8>::empty());
            assert(b64_of(tail3.skip(3)) == Seq::<u8>::empty());
            assert(b64_of(tail3) =~= b64_group3(b0, b1, b2));
            assert(b64_group3(b0, b1, b2) =~= data@.subrange(pos as int, pos + 4));
            assert(prev + tail3 =~= out@);
            assert(data@.take(pos as int) + data@.subrange(pos as int, pos + 4) =~= data@.take(
                pos + 4,
            ));
        }
        pos = pos + 4;
    }
    // exactly one group remains; it may carry padding
    proof {
        assert(pos == data@.len() - 4);
    }
    let c0 = data[pos];
    let c1 = data[pos + 1];
    let c2 = data[pos + 2];
    let c3 = data[pos + 3];
    let s0 = match char_to_sextet(c0) {
        Some(v) => v,
        None => {
            proof {
                mid_group_not_b64(data@, pos as int);
            }
            return None;
        },
    };
    let s1 = match char_to_sextet(c1) {
        Some(v) => v,
        None => {
            proof {
                mid_group_not_b64(data@, pos + 1);
            }
            return None;
        },
    };
    if c2 == 61 {
        if c3 != 61 {
            proof {
                bad_pad_no_preimage(data@);
            }
            return None;
        }
        if s1 & 15 != 0 {
            proof {
                dangling_pad2_no_preimage(data@, s1);
            }
            return None;
        }
        let b0 = (s0 << 2) | (s1 >> 4);
        let ghost prev = out@;
        out.push(b0);
        proof {
            assert(s0 < 64 && s1 < 64 && s1 & 15 == 0 ==> ((s0 << 2) | (s1 >> 4)) >> 2 == s0
                && (((s0 << 2) | (s1 >> 4)) & 3) << 4 == s1) by (bit_vector);
            let tail1 = seq![b0];
            lemma_b64_of_append_full(prev, tail1);
            assert(b64_of(tail1) =~= data@.subrange(pos as int, pos + 4));
            assert(prev + tail1 =~= out@);
            assert(data@.take(pos as int) + data@.subrange(pos as int, pos + 4) =~= data@);
            assert(b64_of(out@) == data@);
            lemma_b64_roundtrip(out@);
        }
        return Some(out);
    }
    let s2 = match char_to_sextet(c2) {
        Some(v) => v,
        None => {
            proof {
                last_two_not_b64(data@);
            }
            return None;
        },
    };
    if c3 == 61 {
        if s2 & 3 != 0 {
            proof {
                dangling_pad1_no_preimage(data@, s2);
            }
            return None;
        }
        let b0 = (s0 << 2) | (s1 >> 4);
        let b1 = ((s1 & 15) << 4) | (s2 >> 2);
        let ghost prev = out@;
        out.push(b0);
        out.push(b1);
        proof {
            assert(s0 < 64 && s1 < 64 && s2 < 64 && s2 & 3 == 0 ==> ((s0 << 2) | (s1 >> 4)) >> 2
                == s0 && ((((s0 << 2) | (s1 >> 4)) & 3) << 4) | ((((s1 & 15) << 4) | (s2 >> 2))
                >> 4) == s1 && ((((s1 & 15) << 4) | (s2 >> 2)) & 15) << 2 == s2) by (bit_vector);
            let tail2 = seq![b0, b1];
            lemma_b64_of_append_full(prev, tail2);
            assert(b64_of(tail2) =~= data@.subrange(pos as int, pos + 4));
            assert(prev + tail2 =~= out@);
            assert(data@.take(pos as int) + data@.subrange(pos as int, pos + 4) =~= data@);
            assert(b64_of(out@) == data@);
            lemma_b64_roundtrip(out@);
        }
        return Some(out);
    }
    let s3 = match char_to_sextet(c3) {
        Some(v) => v,
        None => {
            proof {
                last_one_not_b64(data@);
            }
            return None;
        },
    };
    let b0 = (s0 << 2) | (s1 >> 4);
    let b1 = ((s1 & 15) << 4) | (s2 >> 2);
    let b2 = ((s2 & 3) << 6) | s3;
    let ghost prev = out@;
    out.push(b0);
    out.push(b1);
    out.push(b2);
    proof {
        assert(s0 < 64 && s1 < 64 && s2 < 64 && s3 < 64 ==> ((s0 << 2) | (s1 >> 4)) >> 2 == s0
            && ((((s0 << 2) | (s1 >> 4)) & 3) << 4) | ((((s1 & 15) << 4) | (s2 >> 2)) >> 4) == s1
            && (((((s1 & 15) << 4) | (s2 >> 2)) & 15) << 2) | ((((s2 & 3) << 6) | s3) >> 6) == s2
            && (((s2 & 3) << 6) | s3) & 63 == s3) by (bit_vector);
        let tail3 = seq![b0, b1, b2];
        lemma_b64_of_append_full(prev, tail3);
        assert(tail3.skip(3) =~= Seq::<u8>::empty());
        assert(b64_of(tail3.skip(3)) == Seq::<u8>::empty());
        assert(b64_of(tail3) =~= b64_group3(b0, b1, b2));
        assert(b64_group3(b0, b1, b2) =~= data@.subrange(pos as int, pos + 4));
        assert(prev + tail3 =~= out@);
        assert(data@.take(pos as int) + data@.subrange(pos as int, pos + 4) =~= data@);
        assert(b64_of(out@) == data@);
        lemma_b64_roundtrip(out@);
    }
    Some(out)
}

} // verus!
