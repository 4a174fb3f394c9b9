//! The stream laws of the framing layer.
//!
//! A scanned byte stream denotes a sequence of atoms: each passthrough byte
//! on its own, and each recognised packet as a whole.  Over that denotation
//! the laws say: a framed packet fed to the reader yields exactly that
//! packet; a stream without the packet prefix passes through; scanning is
//! invariant under splitting the input; and packets interleave with
//! passthrough exactly as they were written.

use vstd::prelude::*;

use crate::b64::b64_of;
use crate::b64::b64_parse;
use crate::b64::lemma_b64_of_tame;
use crate::b64::lemma_b64_roundtrip;
use crate::transport::find_byte;
use crate::transport::find_prefix;
use crate::transport::frame_bytes;
use crate::transport::is_prefix_at;
use crate::transport::keep_len;
use crate::transport::lemma_find_byte_from_first;
use crate::transport::lemma_find_byte_spec;
use crate::transport::lemma_find_prefix_from_first;
use crate::transport::lemma_find_prefix_spec;
use crate::transport::lemma_keep_len_from_spec;
use crate::transport::lemma_prefix_bytes;
use crate::transport::protocol_prefix;
use crate::transport::protocol_suffix;
use crate::transport::scan;
use crate::transport::Frame;

verus! {

/// One atom of the denoted stream: a passthrough byte or a whole packet.
pub enum StreamAtom {
    Byte(u8),
    Packet(Seq<u8>),
}

/// The atoms of a passthrough byte sequence.
pub open spec fn bytes_atoms(d: Seq<u8>) -> Seq<StreamAtom> {
    d.map_values(|b: u8| StreamAtom::Byte(b))
}

/// The atoms of one frame.
pub open spec fn frame_atoms(f: Frame) -> Seq<StreamAtom> {
    match f {
        Frame::Passthrough(d) => bytes_atoms(d),
        Frame::Packet(p) => seq![StreamAtom::Packet(p)],
    }
}

/// The denotation of a frame sequence: how a consumer that merely
/// concatenates passthrough bytes sees it.
pub open spec fn denote(fs: Seq<Frame>) -> Seq<StreamAtom>
    decreases fs.len(),
{
    if fs.len() == 0 {
        Seq::empty()
    } else {
        frame_atoms(fs[0]) + denote(fs.drop_first())
    }
}

/// The frames produced by one packet body, by whether it decodes.
pub open spec fn packet_frames(body: Seq<u8>) -> Seq<Frame> {
    match b64_parse(body) {
        Some(p) => seq![Frame::Packet(p)],
        None => Seq::empty(),
    }
}

pub proof fn lemma_bytes_atoms_append(a: Seq<u8>, b: Seq<u8>)
    ensures
        bytes_atoms(a + b) == bytes_atoms(a) + bytes_atoms(b),
{
    assert(bytes_atoms(a + b) =~= bytes_atoms(a) + bytes_atoms(b));
}

pub proof fn lemma_denote_one(f: Frame)
    ensures
        denote(seq![f]) == frame_atoms(f),
{
    assert(seq![f].drop_first() =~= Seq::<Frame>::empty());
    assert(denote(seq![f].drop_first()) == Seq::<StreamAtom>::empty());
    assert(denote(seq![f]) =~= frame_atoms(f));
}

pub proof fn lemma_denote_append(a: Seq<Frame>, b: Seq<Frame>)
    ensures
        denote(a + b) == denote(a) + denote(b),
    decreases a.len(),
{
    if a.len() == 0 {
        assert(a + b =~= b);
        assert(denote(a) + denote(b) =~= denote(b));
    } else {
        assert((a + b).drop_first() =~= a.drop_first() + b);
        lemma_denote_append(a.drop_first(), b);
        assert((a + b)[0] == a[0]);
        assert(denote(a + b) =~= denote(a) + denote(b));
    }
}

/// A prefix occurrence wholly inside the left part of a concatenation is an
/// occurrence of the left part, and vice versa; likewise on the right.
proof fn lemma_prefix_at_concat(a: Seq<u8>, b: Seq<u8>, p: int)
    ensures
        0 <= p && p + 13 <= a.len() ==> (is_prefix_at(a + b, p) <==> is_prefix_at(a, p)),
        p >= a.len() ==> (is_prefix_at(a + b, p) <==> is_prefix_at(b, p - a.len())),
{
    if 0 <= p && p + 13 <= a.len() {
        assert((a + b).subrange(p, p + 13) =~= a.subrange(p, p + 13));
    }
    if a.len() <= p && p + 13 <= a.len() + b.len() {
        assert((a + b).subrange(p, p + 13) =~= b.subrange(p - a.len(), p - a.len() + 13));
    }
}

/// Scanning a concatenation whose left half can hold no packet start emits
/// the left half as passthrough bytes and then scans the right half.
///
/// The two hypotheses say exactly that no decision the scanner takes can
/// reach into the left half: no prefix occurrence begins there, and if no
/// prefix occurs at all, the tail kept for a partial prefix lies within the
/// right half.
proof fn lemma_scan_prepend_inert(h: Seq<u8>, t: Seq<u8>)
    requires
        forall|p: int| p < h.len() ==> !is_prefix_at(h + t, p),
        find_prefix(h + t) is None ==> keep_len(h + t) <= t.len(),
    ensures
        denote(scan(h + t).frames) == bytes_atoms(h) + denote(scan(t).frames),
        scan(h + t).rest == scan(t).rest,
{
    let s = h + t;
    if h.len() == 0 {
        assert(s =~= t);
        assert(bytes_atoms(h) + denote(scan(t).frames) =~= denote(scan(t).frames));
        return ;
    }
    lemma_find_prefix_spec(s);
    lemma_find_prefix_spec(t);
    match find_prefix(s) {
        Some(p) => {
            assert(p >= h.len());
            let q = p - h.len();
            assert(is_prefix_at(t, q)) by {
                assert(t.subrange(q, q + 13) =~= s.subrange(p, p + 13));
            }
            assert forall|w: int| 0 <= w < q implies !is_prefix_at(t, w) by {
                if is_prefix_at(t, w) {
                    lemma_prefix_at_concat(h, t, w + h.len());
                    assert(is_prefix_at(s, w + h.len()));
                }
            }
            lemma_find_prefix_from_first(t, q);
            if q == 0 {
                assert(s.take(p) =~= h);
                assert(s.skip(p) =~= t);
                assert(scan(s).frames == seq![Frame::Passthrough(h)] + scan(t).frames);
                assert(scan(s).rest == scan(t).rest);
                lemma_denote_append(seq![Frame::Passthrough(h)], scan(t).frames);
                lemma_denote_one(Frame::Passthrough(h));
            } else {
                assert(s.take(p) =~= h + t.take(q));
                assert(s.skip(p) =~= t.skip(q));
                assert(scan(s).frames == seq![Frame::Passthrough(h + t.take(q))] + scan(
                    t.skip(q),
                ).frames);
                assert(scan(t).frames == seq![Frame::Passthrough(t.take(q))] + scan(
                    t.skip(q),
                ).frames);
                assert(scan(s).rest == scan(t).rest);
                lemma_denote_append(seq![Frame::Passthrough(h + t.take(q))], scan(
                    t.skip(q),
                ).frames);
                lemma_denote_append(seq![Frame::Passthrough(t.take(q))], scan(t.skip(q)).frames);
                lemma_denote_one(Frame::Passthrough(h + t.take(q)));
                lemma_denote_one(Frame::Passthrough(t.take(q)));
                lemma_bytes_atoms_append(h, t.take(q));
                assert(denote(scan(s).frames) =~= bytes_atoms(h) + denote(scan(t).frames));
            }
        },
        None => {
            assert(find_prefix(t) is None) by {
                match find_prefix(t) {
                    Some(w) => {
                        lemma_prefix_at_concat(h, t, w + h.len());
                        assert(is_prefix_at(s, w + h.len()));
                        assert(false);
                    },
                    None => {},
                }
            }
            let k1 = keep_len(s);
            let k2 = keep_len(t);
            lemma_keep_len_from_spec(s, 12);
            lemma_keep_len_from_spec(t, 12);
            assert(k1 <= t.len());
            assert(k1 <= k2) by {
                if k1 > 0 {
                    assert(t.subrange(t.len() - k1, t.len() as int) =~= s.subrange(
                        s.len() - k1,
                        s.len() as int,
                    ));
                    if k1 > k2 {
                        assert(t.subrange(t.len() - k1, t.len() as int)
                            != protocol_prefix().take(k1));
                    }
                }
            }
            assert(k2 <= k1) by {
                if k2 > 0 {
                    assert(s.subrange(s.len() - k2, s.len() as int) =~= t.subrange(
                        t.len() - k2,
                        t.len() as int,
                    ));
                    if k2 > k1 {
                        assert(s.subrange(s.len() - k2, s.len() as int)
                            != protocol_prefix().take(k2));
                    }
                }
            }
            assert(k1 == k2);
            assert(k1 < s.len());
            if k2 == t.len() {
                assert(s.take(s.len() - k1) =~= h);
                assert(s.skip(s.len() - k1) =~= t);
                assert(scan(s).frames == seq![Frame::Passthrough(h)]);
                assert(scan(s).rest == t);
                assert(scan(t).frames == Seq::<Frame>::empty());
                assert(scan(t).rest == t);
                lemma_denote_one(Frame::Passthrough(h));
                assert(denote(scan(s).frames) =~= bytes_atoms(h) + denote(scan(t).frames));
            } else {
                assert(s.take(s.len() - k1) =~= h + t.take(t.len() - k2));
                assert(s.skip(s.len() - k1) =~= t.skip(t.len() - k2));
                assert(scan(s).frames == seq![Frame::Passthrough(h + t.take(t.len() - k2))]);
                assert(scan(t).frames == seq![Frame::Passthrough(t.take(t.len() - k2))]);
                assert(scan(s).rest == scan(t).rest);
                lemma_denote_one(Frame::Passthrough(h + t.take(t.len() - k2)));
                lemma_denote_one(Frame::Passthrough(t.take(t.len() - k2)));
                lemma_bytes_atoms_append(h, t.take(t.len() - k2));
                assert(denote(scan(s).frames) =~= bytes_atoms(h) + denote(scan(t).frames));
            }
        },
    }
}

/// Scanning a stream that opens with a complete packet envelope recognises
/// that packet and continues with the remainder.
proof fn lemma_scan_packet(body: Seq<u8>, rest: Seq<u8>)
    requires
        forall|j: int| 0 <= j < body.len() ==> #[trigger] body[j] != 7,
    ensures
        scan(protocol_prefix() + body + seq![protocol_suffix()] + rest).frames == packet_frames(
            body,
        ) + scan(rest).frames,
        scan(protocol_prefix() + body + seq![protocol_suffix()] + rest).rest == scan(rest).rest,
{
    let s = protocol_prefix() + body + seq![protocol_suffix()] + rest;
    lemma_prefix_bytes();
    assert(is_prefix_at(s, 0)) by {
        assert(s.subrange(0, 13) =~= protocol_prefix());
    }
    lemma_find_prefix_from_first(s, 0);
    let e: int = 13 + body.len() as int;
    assert(s[e] == protocol_suffix());
    assert forall|j: int| 0 <= j < e implies s[j] != protocol_suffix() by {
        if j < 13 {
            assert(s[j] == protocol_prefix()[j]);
        } else {
            assert(s[j] == body[j - 13]);
        }
    }
    lemma_find_byte_from_first(s, protocol_suffix(), e);
    assert(s.subrange(13, e) =~= body);
    assert(s.skip(e + 1) =~= rest);
    match b64_parse(body) {
        Some(p) => {
            assert(scan(s).frames == seq![Frame::Packet(p)] + scan(rest).frames);
            assert(packet_frames(body) + scan(rest).frames =~= seq![Frame::Packet(p)] + scan(
                rest,
            ).frames);
        },
        None => {
            assert(scan(s).frames == scan(rest).frames);
            assert(packet_frames(body) + scan(rest).frames =~= scan(rest).frames);
        },
    }
}

/// Framing round trip: feeding the reader one written packet yields exactly
/// that packet and leaves the buffer empty.
pub proof fn lemma_round_trip(p: Seq<u8>)
    ensures
        scan(frame_bytes(p)).frames == seq![Frame::Packet(p)],
        scan(frame_bytes(p)).rest == Seq::<u8>::empty(),
{
    lemma_b64_of_tame(p);
    lemma_b64_roundtrip(p);
    assert(frame_bytes(p) =~= protocol_prefix() + b64_of(p) + seq![protocol_suffix()]
        + Seq::<u8>::empty());
    lemma_scan_packet(b64_of(p), Seq::empty());
    assert(scan(Seq::<u8>::empty()).frames == Seq::<Frame>::empty());
    assert(packet_frames(b64_of(p)) == seq![Frame::Packet(p)]);
    assert(scan(frame_bytes(p)).frames =~= seq![Frame::Packet(p)]);
    assert(scan(Seq::<u8>::empty()).rest =~= Seq::<u8>::empty());
}

/// A carrier stream without the packet prefix passes through whole, except
/// for a trailing partial prefix, which stays buffered.
pub proof fn lemma_passthrough_only(c: Seq<u8>)
    requires
        forall|p: int| !is_prefix_at(c, p),
    ensures
        scan(c).rest == c.skip(c.len() - keep_len(c)),
        keep_len(c) == c.len() ==> scan(c).frames == Seq::<Frame>::empty(),
        keep_len(c) < c.len() ==> scan(c).frames == seq![Frame::Passthrough(
            c.take(c.len() - keep_len(c)),
        )],
{
    lemma_find_prefix_spec(c);
    lemma_keep_len_from_spec(c, 12);
    if c.len() == 0 {
        assert(c.skip(0) =~= c);
    } else {
        match find_prefix(c) {
            Some(i) => {
                assert(!is_prefix_at(c, i));
                assert(false);
            },
            None => {},
        }
    }
}

/// Split invariance: feeding the stream in two pieces denotes the same atom
/// stream, and leaves the same residual buffer, as feeding it at once.
pub proof fn lemma_split_invariance(buffered: Seq<u8>, a: Seq<u8>, b: Seq<u8>)
    ensures
        denote(scan(buffered + (a + b)).frames) == denote(scan(buffered + a).frames) + denote(
            scan(scan(buffered + a).rest + b).frames,
        ),
        scan(buffered + (a + b)).rest == scan(scan(buffered + a).rest + b).rest,
{
    lemma_scan_extend(buffered + a, b);
    assert((buffered + a) + b =~= buffered + (a + b));
}

/// Appending bytes to a scanned stream extends its denotation by the scan of
/// the residual buffer followed by the new bytes.
pub proof fn lemma_scan_extend(s: Seq<u8>, e: Seq<u8>)
    ensures
        denote(scan(s + e).frames) == denote(scan(s).frames) + denote(
            scan(scan(s).rest + e).frames,
        ),
        scan(s + e).rest == scan(scan(s).rest + e).rest,
    decreases s.len(),
{
    lemma_find_prefix_spec(s);
    if s.len() == 0 {
        assert(scan(s).rest == s);
        assert(s + e =~= scan(s).rest + e);
        assert(denote(scan(s).frames) + denote(scan(scan(s).rest + e).frames) =~= denote(
            scan(scan(s).rest + e).frames,
        ));
        return ;
    }
    match find_prefix(s) {
        Some(i) => {
            if i > 0 {
                assert(is_prefix_at(s + e, i)) by {
                    assert((s + e).subrange(i, i + 13) =~= s.subrange(i, i + 13));
                }
                assert forall|j: int| 0 <= j < i implies !is_prefix_at(s + e, j) by {
                    assert(j + 13 <= s.len());
                    lemma_prefix_at_concat(s, e, j);
                }
                lemma_find_prefix_from_first(s + e, i);
                assert((s + e).take(i) =~= s.take(i));
                assert((s + e).skip(i) =~= s.skip(i) + e);
                lemma_scan_extend(s.skip(i), e);
                assert(scan(s + e).frames == seq![Frame::Passthrough(s.take(i))] + scan(
                    s.skip(i) + e,
                ).frames);
                assert(scan(s).frames == seq![Frame::Passthrough(s.take(i))] + scan(
                    s.skip(i),
                ).frames);
                assert(scan(s).rest == scan(s.skip(i)).rest);
                lemma_denote_append(seq![Frame::Passthrough(s.take(i))], scan(
                    s.skip(i) + e,
                ).frames);
                lemma_denote_append(seq![Frame::Passthrough(s.take(i))], scan(s.skip(i)).frames);
                assert(denote(scan(s + e).frames) =~= denote(scan(s).frames) + denote(
                    scan(scan(s).rest + e).frames,
                ));
            } else {
                lemma_find_byte_spec(s, protocol_suffix());
                assert(is_prefix_at(s + e, 0)) by {
                    assert((s + e).subrange(0, 13) =~= s.subrange(0, 13));
                }
                lemma_find_prefix_from_first(s + e, 0);
                match find_byte(s, protocol_suffix()) {
                    Some(b) => {
                        assert((s + e)[b] == s[b]);
                        assert forall|j: int| 0 <= j < b implies (s + e)[j] != protocol_suffix()
                            by {
                            assert((s + e)[j] == s[j]);
                        }
                        lemma_find_byte_from_first(s + e, protocol_suffix(), b);
                        assert((s + e).subrange(13, b) =~= s.subrange(13, b));
                        assert((s + e).skip(b + 1) =~= s.skip(b + 1) + e);
                        lemma_scan_extend(s.skip(b + 1), e);
                        let body = s.subrange(13, b);
                        assert(scan(s + e).frames == packet_frames(body) + scan(
                            s.skip(b + 1) + e,
                        ).frames) by {
                            match b64_parse(body) {
                                Some(p) => {
                                    assert(packet_frames(body) + scan(s.skip(b + 1) + e).frames
                                        =~= seq![Frame::Packet(p)] + scan(
                                        s.skip(b + 1) + e,
                                    ).frames);
                                },
                                None => {
                                    assert(packet_frames(body) + scan(s.skip(b + 1) + e).frames
                                        =~= scan(s.skip(b + 1) + e).frames);
                                },
                            }
                        }
                        assert(scan(s).frames == packet_frames(body) + scan(
                            s.skip(b + 1),
                        ).frames) by {
                            match b64_parse(body) {
                                Some(p) => {
                                    assert(packet_frames(body) + scan(s.skip(b + 1)).frames
                                        =~= seq![Frame::Packet(p)] + scan(s.skip(b + 1)).frames);
                                },
                                None => {
                                    assert(packet_frames(body) + scan(s.skip(b + 1)).frames
                                        =~= scan(s.skip(b + 1)).frames);
                                },
                            }
                        }
                        assert(scan(s).rest == scan(s.skip(b + 1)).rest);
                        lemma_denote_append(packet_frames(body), scan(s.skip(b + 1) + e).frames);
                        lemma_denote_append(packet_frames(body), scan(s.skip(b + 1)).frames);
                        assert(denote(scan(s + e).frames) =~= denote(scan(s).frames) + denote(
                            scan(scan(s).rest + e).frames,
                        ));
                    },
                    None => {
                        assert(scan(s).frames == Seq::<Frame>::empty());
                        assert(scan(s).rest == s);
                        assert(denote(scan(s).frames) + denote(scan(scan(s).rest + e).frames)
                            =~= denote(scan(s + e).frames));
                    },
                }
            }
        },
        None => {
            let k = keep_len(s);
            lemma_keep_len_from_spec(s, 12);
            if k == s.len() {
                assert(scan(s).frames == Seq::<Frame>::empty());
                assert(scan(s).rest == s);
                assert(denote(scan(s).frames) + denote(scan(scan(s).rest + e).frames) =~= denote(
                    scan(s + e).frames,
                ));
            } else {
                let head = s.take(s.len() - k);
                let tail = s.skip(s.len() - k);
                assert(scan(s).frames == seq![Frame::Passthrough(head)]);
                assert(scan(s).rest == tail);
                assert(head + (tail + e) =~= s + e);
                assert forall|p: int| p < head.len() implies !is_prefix_at(
                    head + (tail + e),
                    p,
                ) by {
                    if is_prefix_at(head + (tail + e), p) {
                        assert(is_prefix_at(s + e, p));
                        if p + 13 <= s.len() {
                            lemma_prefix_at_concat(s, e, p);
                            assert(is_prefix_at(s, p));
                        } else {
                            let j0 = s.len() - p;
                            assert(k < j0 < 13);
                            assert(s.subrange(s.len() - j0, s.len() as int)
                                == protocol_prefix().take(j0)) by {
                                assert forall|w: int| 0 <= w < j0 implies s.subrange(
                                    s.len() - j0,
                                    s.len() as int,
                                )[w] == protocol_prefix().take(j0)[w] by {
                                    assert(s[p + w] == (s + e)[p + w]);
                                    assert((s + e).subrange(p, p + 13)[w]
                                        == protocol_prefix()[w]);
                                }
                                assert(s.subrange(s.len() - j0, s.len() as int)
                                    =~= protocol_prefix().take(j0));
                            }
                        }
                    }
                }
                assert(find_prefix(head + (tail + e)) is None ==> keep_len(head + (tail + e))
                    <= (tail + e).len()) by {
                    let st = head + (tail + e);
                    assert(st =~= s + e);
                    let kp = keep_len(s + e);
                    lemma_keep_len_from_spec(s + e, 12);
                    if kp > k + e.len() {
                        let j0 = kp - e.len();
                        assert(k < j0 <= 12);
                        assert(j0 <= s.len());
                        assert(s.subrange(s.len() - j0, s.len() as int) == protocol_prefix().take(
                            j0,
                        )) by {
                            assert forall|w: int| 0 <= w < j0 implies s.subrange(
                                s.len() - j0,
                                s.len() as int,
                            )[w] == protocol_prefix().take(j0)[w] by {
                                let ll = s.len() + e.len();
                                assert((s + e).subrange(ll - kp, ll as int)[w]
                                    == protocol_prefix().take(kp)[w]);
                                assert((s + e)[ll - kp + w] == s[s.len() - j0 + w]);
                            }
                            assert(s.subrange(s.len() - j0, s.len() as int)
                                =~= protocol_prefix().take(j0));
                        }
                        assert(false);
                    }
                    assert(keep_len(st) == kp);
                }
                lemma_scan_prepend_inert(head, tail + e);
                lemma_denote_one(Frame::Passthrough(head));
                assert(denote(scan(s + e).frames) == denote(scan(head + (tail + e)).frames));
                assert(denote(scan(s).frames) =~= bytes_atoms(head));
                assert(denote(scan(s + e).frames) =~= denote(scan(s).frames) + denote(
                    scan(scan(s).rest + e).frames,
                ));
                assert(scan(s + e).rest == scan(scan(s).rest + e).rest);
            }
        },
    }
}

/// Scanning passthrough bytes followed by one framed packet emits those
/// bytes, then that packet, then whatever the remainder yields.
proof fn lemma_scan_inert_then_packet(x: Seq<u8>, p: Seq<u8>, rest: Seq<u8>)
    requires
        forall|j: int| !is_prefix_at(x, j),
    ensures
        denote(scan(x + frame_bytes(p) + rest).frames) == bytes_atoms(x) + seq![
            StreamAtom::Packet(p),
        ] + denote(scan(rest).frames),
        scan(x + frame_bytes(p) + rest).rest == scan(rest).rest,
{
    let t = frame_bytes(p) + rest;
    lemma_prefix_bytes();
    lemma_b64_of_tame(p);
    lemma_b64_roundtrip(p);
    assert(t[0] == 27);
    assert forall|q: int| q < x.len() implies !is_prefix_at(x + t, q) by {
        if is_prefix_at(x + t, q) {
            if q + 13 <= x.len() {
                lemma_prefix_at_concat(x, t, q);
                assert(is_prefix_at(x, q));
            } else {
                // the occurrence would have to put ESC somewhere past the
                // start of the prefix
                assert((x + t)[x.len() as int] == t[0]);
                assert((x + t).subrange(q, q + 13)[x.len() - q] == protocol_prefix()[x.len()
                    - q]);
                assert(protocol_prefix()[x.len() - q] == 27);
            }
        }
    }
    assert(is_prefix_at(x + t, x.len() as int)) by {
        assert((x + t).subrange(x.len() as int, x.len() as int + 13) =~= protocol_prefix());
    }
    assert(find_prefix(x + t) is Some) by {
        lemma_find_prefix_spec(x + t);
        match find_prefix(x + t) {
            Some(i) => {},
            None => {
                assert(!is_prefix_at(x + t, x.len() as int));
                assert(false);
            },
        }
    }
    lemma_scan_prepend_inert(x, t);
    assert(t =~= protocol_prefix() + b64_of(p) + seq![protocol_suffix()] + rest);
    lemma_scan_packet(b64_of(p), rest);
    assert(packet_frames(b64_of(p)) == seq![Frame::Packet(p)]);
    lemma_denote_append(packet_frames(b64_of(p)), scan(rest).frames);
    lemma_denote_one(Frame::Packet(p));
    assert(x + frame_bytes(p) + rest =~= x + t);
    assert(denote(scan(x + frame_bytes(p) + rest).frames) =~= bytes_atoms(x) + seq![
        StreamAtom::Packet(p),
    ] + denote(scan(rest).frames));
}

/// Interleaving: packets written between stretches of prefix-free carrier
/// bytes are recognised in order, with every carrier byte delivered in
/// place.
pub proof fn lemma_interleaving(
    x1: Seq<u8>,
    p1: Seq<u8>,
    x2: Seq<u8>,
    p2: Seq<u8>,
    x3: Seq<u8>,
)
    requires
        forall|j: int| !is_prefix_at(x1, j),
        forall|j: int| !is_prefix_at(x2, j),
        forall|j: int| !is_prefix_at(x3, j),
    ensures
        denote(scan(x1 + frame_bytes(p1) + x2 + frame_bytes(p2) + x3).frames) == bytes_atoms(x1)
            + seq![StreamAtom::Packet(p1)] + bytes_atoms(x2) + seq![StreamAtom::Packet(p2)]
            + denote(scan(x3).frames),
        scan(x1 + frame_bytes(p1) + x2 + frame_bytes(p2) + x3).rest == scan(x3).rest,
{
    let inner = x2 + frame_bytes(p2) + x3;
    lemma_scan_inert_then_packet(x2, p2, x3);
    lemma_scan_inert_then_packet(x1, p1, inner);
    assert(x1 + frame_bytes(p1) + x2 + frame_bytes(p2) + x3 =~= x1 + frame_bytes(p1) + inner);
    assert(denote(scan(x1 + frame_bytes(p1) + x2 + frame_bytes(p2) + x3).frames) =~= bytes_atoms(
        x1,
    ) + seq![StreamAtom::Packet(p1)] + bytes_atoms(x2) + seq![StreamAtom::Packet(p2)] + denote(
        scan(x3).frames,
    ));
}

} // verus!
