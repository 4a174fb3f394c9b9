//! Packet framing inside an arbitrary terminal byte stream.
//!
//! A packet travels as `PREFIX || base64(payload) || BEL`, where `PREFIX` is
//! an OSC-like escape sequence that terminals ignore.  Every byte outside an
//! envelope is passthrough and is surfaced verbatim.  The reader keeps a
//! buffer across calls so that envelopes split over several reads are still
//! recognised; its behaviour is specified by the [`scan`] function, and the
//! stream laws proved in [`crate::transport_laws`] all reduce to it.

use vstd::prelude::*;

use crate::b64::b64_decode;
use crate::b64::b64_encode;
use crate::b64::b64_of;
use crate::b64::b64_parse;

verus! {

/// The escape sequence `ESC ] 1 3 3 7 ; S H I F T ;` that opens a packet.
pub open spec fn protocol_prefix() -> Seq<u8> {
    seq![27u8, 93u8, 49u8, 51u8, 51u8, 55u8, 59u8, 83u8, 72u8, 73u8, 70u8, 84u8, 59u8]
}

/// The BEL byte that closes a packet.
pub open spec fn protocol_suffix() -> u8 {
    7u8
}

/// Facts about the prefix bytes that the scanning proofs lean on: ESC opens
/// it and occurs nowhere else, and BEL does not occur at all.
pub proof fn lemma_prefix_bytes()
    ensures
        protocol_prefix().len() == 13,
        protocol_prefix()[0] == 27,
        forall|k: int| 1 <= k < 13 ==> #[trigger] protocol_prefix()[k] != 27,
        forall|k: int| 0 <= k < 13 ==> #[trigger] protocol_prefix()[k] != 7,
{
    assert forall|k: int| 1 <= k < 13 implies #[trigger] protocol_prefix()[k] != 27 by {
        if k == 1 || k == 2 || k == 3 || k == 4 || k == 5 || k == 6 || k == 7 || k == 8 || k == 9
            || k == 10 || k == 11 || k == 12 {
            assert(protocol_prefix()[k] != 27);
        }
    }
    assert forall|k: int| 0 <= k < 13 implies #[trigger] protocol_prefix()[k] != 7 by {
        if k == 0 || k == 1 || k == 2 || k == 3 || k == 4 || k == 5 || k == 6 || k == 7 || k == 8
            || k == 9 || k == 10 || k == 11 || k == 12 {
            assert(protocol_prefix()[k] != 7);
        }
    }
}

/// A full prefix occurrence starting at position `i`.
pub open spec fn is_prefix_at(s: Seq<u8>, i: int) -> bool {
    0 <= i && i + 13 <= s.len() && s.subrange(i, i + 13) == protocol_prefix()
}

/// The position of the first prefix occurrence, if any.
pub open spec fn find_prefix(s: Seq<u8>) -> Option<int>
    decreases s.len(),
{
    if s.len() < 13 {
        None
    } else if s.subrange(0, 13) == protocol_prefix() {
        Some(0int)
    } else {
        match find_prefix(s.skip(1)) {
            Some(i) => Some(i + 1),
            None => None,
        }
    }
}

/// The position of the first occurrence of byte `b`, if any.
pub open spec fn find_byte(s: Seq<u8>, b: u8) -> Option<int>
    decreases s.len(),
{
    if s.len() == 0 {
        None
    } else if s[0] == b {
        Some(0int)
    } else {
        match find_byte(s.skip(1), b) {
            Some(i) => Some(i + 1),
            None => None,
        }
    }
}

/// The longest strict prefix of the packet prefix that ends the buffer,
/// trying lengths from `k` down.
pub open spec fn keep_len_from(s: Seq<u8>, k: int) -> int
    decreases k,
{
    if k <= 0 {
        0
    } else if k <= s.len() && s.subrange(s.len() - k, s.len() as int) == protocol_prefix().take(k) {
        k
    } else {
        keep_len_from(s, k - 1)
    }
}

/// How many trailing bytes must stay buffered because they might grow into a
/// packet prefix.
pub open spec fn keep_len(s: Seq<u8>) -> int {
    keep_len_from(s, 12)
}

/// One item of the reader's output stream, at the specification level.
pub enum Frame {
    Passthrough(Seq<u8>),
    Packet(Seq<u8>),
}

/// What scanning a buffer yields: the frames recognised so far and the bytes
/// that must stay buffered.
pub struct ScanResult {
    pub frames: Seq<Frame>,
    pub rest: Seq<u8>,
}

/// The frames recognised in `s` by a single exhaustive scan, together with
/// the residual buffer.  This is the complete specification of
/// [`TransportReader::feed`].
pub open spec fn scan(s: Seq<u8>) -> ScanResult
    decreases s.len(),
    via scan_decreases
{
    if s.len() == 0 {
        ScanResult { frames: Seq::empty(), rest: s }
    } else {
        match find_prefix(s) {
            Some(i) => {
                if i > 0 {
                    let tail = scan(s.skip(i));
                    ScanResult {
                        frames: seq![Frame::Passthrough(s.take(i))] + tail.frames,
                        rest: tail.rest,
                    }
                } else {
                    match find_byte(s, protocol_suffix()) {
                        Some(e) => {
                            let body = s.subrange(13, e);
                            let tail = scan(s.skip(e + 1));
                            let frames = match b64_parse(body) {
                                Some(p) => seq![Frame::Packet(p)] + tail.frames,
                                None => tail.frames,
                            };
                            ScanResult { frames, rest: tail.rest }
                        },
                        None => ScanResult { frames: Seq::empty(), rest: s },
                    }
                }
            },
            None => {
                let k = keep_len(s);
                if k == s.len() {
                    ScanResult { frames: Seq::empty(), rest: s }
                } else {
                    ScanResult {
                        frames: seq![Frame::Passthrough(s.take(s.len() - k))],
                        rest: s.skip(s.len() - k),
                    }
                }
            },
        }
    }
}

#[via_fn]
proof fn scan_decreases(s: Seq<u8>) {
    lemma_find_prefix_spec(s);
    lemma_find_byte_spec(s, protocol_suffix());
}

/// One item of the reader's output stream: bytes passed through verbatim, or
/// the decoded payload of one packet.
#[derive(Debug, PartialEq)]
pub enum TransportOutput {
    Passthrough(Vec<u8>),
    Packet(Vec<u8>),
}

impl View for TransportOutput {
    type V = Frame;

    open spec fn view(&self) -> Frame {
        match self {
            TransportOutput::Passthrough(d) => Frame::Passthrough(d@),
            TransportOutput::Packet(p) => Frame::Packet(p@),
        }
    }
}

/// The views of a vector of outputs, as a sequence of frames.
pub open spec fn frames_of(s: Seq<TransportOutput>) -> Seq<Frame> {
    s.map_values(|o: TransportOutput| o@)
}

/// The prefix and suffix bytes of the packet envelope.
pub struct TransportConfig {
    pub prefix: Vec<u8>,
    pub suffix: Vec<u8>,
}

impl TransportConfig {
    /// The configuration holds exactly the protocol's envelope bytes.
    pub open spec fn wf(&self) -> bool {
        self.prefix@ == protocol_prefix() && self.suffix@ == seq![protocol_suffix()]
    }

    /// The envelope of the tunnelling protocol.
    pub fn new() -> (c: TransportConfig)
        ensures
            c.wf(),
    {
        let mut prefix: Vec<u8> = Vec::new();
        prefix.push(27);
        prefix.push(93);
        prefix.push(49);
        prefix.push(51);
        prefix.push(51);
        prefix.push(55);
        prefix.push(59);
        prefix.push(83);
        prefix.push(72);
        prefix.push(73);
        prefix.push(70);
        prefix.push(84);
        prefix.push(59);
        let mut suffix: Vec<u8> = Vec::new();
        suffix.push(7);
        proof {
            assert(prefix@ =~= protocol_prefix());
            assert(suffix@ =~= seq![protocol_suffix()]);
        }
        TransportConfig { prefix, suffix }
    }
}

/// Copy `v[from..to]` into a fresh vector.
fn copy_range(v: &Vec<u8>, from: usize, to: usize) -> (r: Vec<u8>)
    requires
        from <= to <= v@.len(),
    ensures
        r@ == v@.subrange(from as int, to as int),
{
    let mut r: Vec<u8> = Vec::new();
    let mut i: usize = from;
    while i < to
        invariant
            from <= i <= to <= v@.len(),
            r@ == v@.subrange(from as int, i as int),
        decreases to - i,
    {
        r.push(v[i]);
        proof {
            assert(r@ =~= v@.subrange(from as int, i + 1));
        }
        i = i + 1;
    }
    r
}

/// Whether the full packet prefix starts at `at`.
fn prefix_match_at(buf: &Vec<u8>, at: usize) -> (r: bool)
    requires
        at + 13 <= buf@.len(),
    ensures
        r == is_prefix_at(buf@, at as int),
{
    let config = TransportConfig::new();
    let n = buf.len();
    let mut j: usize = 0;
    while j < 13
        invariant
            j <= 13,
            n == buf@.len(),
            at + 13 <= n,
            config.wf(),
            forall|k: int| 0 <= k < j ==> buf@[at + k] == protocol_prefix()[k],
        decreases 13 - j,
    {
        if buf[at + j] != config.prefix[j] {
            proof {
                assert(buf@.subrange(at as int, at + 13)[j as int] != protocol_prefix()[j as int]);
            }
            return false;
        }
        j = j + 1;
    }
    proof {
        assert(buf@.subrange(at as int, at + 13) =~= protocol_prefix());
    }
    true
}

/// The characterisation of [`find_prefix`]: it yields the first occurrence.
pub proof fn lemma_find_prefix_spec(s: Seq<u8>)
    ensures
        match find_prefix(s) {
            Some(i) => is_prefix_at(s, i) && forall|j: int| 0 <= j < i ==> !is_prefix_at(s, j),
            None => forall|j: int| !is_prefix_at(s, j),
        },
    decreases s.len(),
{
    if s.len() < 13 {
        assert(forall|j: int| !is_prefix_at(s, j));
    } else if s.subrange(0, 13) == protocol_prefix() {
        assert(is_prefix_at(s, 0));
    } else {
        let t = s.skip(1);
        lemma_find_prefix_spec(t);
        assert forall|j: int| 1 <= j && j + 13 <= s.len() implies (is_prefix_at(s, j)
            <==> is_prefix_at(t, j - 1)) by {
            assert(s.subrange(j, j + 13) =~= t.subrange(j - 1, j + 12));
        }
        assert(!is_prefix_at(s, 0));
        match find_prefix(t) {
            Some(i) => {
                assert(is_prefix_at(t, i));
                assert(is_prefix_at(s, i + 1));
                assert forall|j: int| 0 <= j < i + 1 implies !is_prefix_at(s, j) by {
                    if j >= 1 {
                        assert(!is_prefix_at(t, j - 1));
                    }
                }
            },
            None => {
                assert forall|j: int| !is_prefix_at(s, j) by {
                    if 1 <= j && j + 13 <= s.len() {
                        assert(!is_prefix_at(t, j - 1));
                    }
                }
            },
        }
    }
}

/// A first occurrence determines the value of [`find_prefix`].
pub proof fn lemma_find_prefix_from_first(s: Seq<u8>, i: int)
    requires
        is_prefix_at(s, i),
        forall|j: int| 0 <= j < i ==> !is_prefix_at(s, j),
    ensures
        find_prefix(s) == Some(i),
{
    lemma_find_prefix_spec(s);
    match find_prefix(s) {
        Some(i2) => {
            if i2 < i {
                assert(!is_prefix_at(s, i2));
            }
            if i < i2 {
                assert(!is_prefix_at(s, i));
            }
        },
        None => {
            assert(!is_prefix_at(s, i));
        },
    }
}

/// The characterisation of [`find_byte`]: it yields the first occurrence.
pub proof fn lemma_find_byte_spec(s: Seq<u8>, b: u8)
    ensures
        match find_byte(s, b) {
            Some(i) => 0 <= i < s.len() && s[i] == b && forall|j: int| 0 <= j < i ==> s[j] != b,
            None => forall|j: int| 0 <= j < s.len() ==> s[j] != b,
        },
    decreases s.len(),
{
    if s.len() == 0 {
    } else if s[0] == b {
    } else {
        let t = s.skip(1);
        lemma_find_byte_spec(t, b);
        assert(forall|j: int| 1 <= j < s.len() ==> s[j] == #[trigger] t[j - 1]);
        match find_byte(t, b) {
            Some(i) => {
                assert(s[i + 1] == t[i]);
                assert forall|j: int| 0 <= j < i + 1 implies s[j] != b by {
                    if j >= 1 {
                        assert(t[j - 1] != b);
                    }
                }
            },
            None => {
                assert forall|j: int| 0 <= j < s.len() implies s[j] != b by {
                    if j >= 1 {
                        assert(t[j - 1] != b);
                    }
                }
            },
        }
    }
}

/// A first occurrence determines the value of [`find_byte`].
pub proof fn lemma_find_byte_from_first(s: Seq<u8>, b: u8, i: int)
    requires
        0 <= i < s.len(),
        s[i] == b,
        forall|j: int| 0 <= j < i ==> s[j] != b,
    ensures
        find_byte(s, b) == Some(i),
{
    lemma_find_byte_spec(s, b);
    match find_byte(s, b) {
        Some(i2) => {
            if i2 < i {
                assert(s[i2] != b);
            }
            if i < i2 {
                assert(s[i] != b);
            }
        },
        None => {
            assert(s[i] != b);
        },
    }
}

/// The characterisation of [`keep_len_from`]: the longest admissible tail at
/// most `k`.
pub proof fn lemma_keep_len_from_spec(s: Seq<u8>, k: int)
    requires
        0 <= k,
    ensures
        0 <= keep_len_from(s, k),
        keep_len_from(s, k) <= k,
        keep_len_from(s, k) <= s.len(),
        keep_len_from(s, k) > 0 ==> s.subrange(s.len() - keep_len_from(s, k), s.len() as int)
            == protocol_prefix().take(keep_len_from(s, k)),
        forall|j: int|
            keep_len_from(s, k) < j <= k && j <= s.len() ==> s.subrange(
                s.len() - j,
                s.len() as int,
            ) != protocol_prefix().take(j),
    decreases k,
{
    if k <= 0 {
    } else if k <= s.len() && s.subrange(s.len() - k, s.len() as int) == protocol_prefix().take(
        k,
    ) {
    } else {
        lemma_keep_len_from_spec(s, k - 1);
    }
}

/// A buffer that is itself a strict prefix of the packet prefix is kept
/// whole.
pub proof fn lemma_keep_len_of_prefix(s: Seq<u8>)
    requires
        s.len() <= 12,
        s == protocol_prefix().take(s.len() as int),
    ensures
        keep_len(s) == s.len(),
{
    lemma_keep_len_from_spec(s, 12);
    if keep_len(s) < s.len() {
        assert(s.subrange(0, s.len() as int) =~= s);
    }
}

/// Whether the last `k` bytes of the buffer are the first `k` bytes of the
/// packet prefix.
fn tail_matches(buf: &Vec<u8>, k: usize) -> (r: bool)
    requires
        1 <= k <= buf@.len(),
        k <= 13,
    ensures
        r == (buf@.subrange(buf@.len() - k, buf@.len() as int) == protocol_prefix().take(
            k as int,
        )),
{
    let config = TransportConfig::new();
    let n = buf.len();
    let start = n - k;
    let mut j: usize = 0;
    while j < k
        invariant
            j <= k,
            n == buf@.len(),
            1 <= k <= n,
            k <= 13,
            start == n - k,
            config.wf(),
            forall|w: int| 0 <= w < j ==> buf@[start + w] == protocol_prefix()[w],
        decreases k - j,
    {
        if buf[start + j] != config.prefix[j] {
            proof {
                assert(buf@.subrange(buf@.len() - (k as int), buf@.len() as int)[j as int]
                    != protocol_prefix().take(k as int)[j as int]);
            }
            return false;
        }
        j = j + 1;
    }
    proof {
        assert(buf@.subrange(buf@.len() - (k as int), buf@.len() as int)
            =~= protocol_prefix().take(k as int));
    }
    true
}

/// Compute [`keep_len`] of the buffer.
fn keep_len_exec(buf: &Vec<u8>) -> (r: usize)
    ensures
        r as int == keep_len(buf@),
        r <= buf@.len(),
        r <= 12,
{
    let mut k: usize = 12;
    while k > 0
        invariant
            k <= 12,
            keep_len(buf@) == keep_len_from(buf@, k as int),
        decreases k,
    {
        if k <= buf.len() && tail_matches(buf, k) {
            return k;
        }
        k = k - 1;
    }
    0
}

/// Find the first full prefix occurrence in the buffer.
fn find_prefix_exec(buf: &Vec<u8>) -> (r: Option<usize>)
    ensures
        match r {
            Some(i) => find_prefix(buf@) == Some(i as int) && is_prefix_at(buf@, i as int)
                && i + 13 <= buf@.len(),
            None => find_prefix(buf@) is None,
        },
{
    if buf.len() < 13 {
        return None;
    }
    let mut i: usize = 0;
    while i <= buf.len() - 13
        invariant
            13 <= buf@.len(),
            i <= buf@.len() - 12,
            forall|j: int| 0 <= j < i ==> !is_prefix_at(buf@, j),
        decreases buf@.len() - i,
    {
        if prefix_match_at(buf, i) {
            proof {
                lemma_find_prefix_from_first(buf@, i as int);
            }
            return Some(i);
        }
        i = i + 1;
    }
    proof {
        assert forall|j: int| !is_prefix_at(buf@, j) by {
            if j + 13 <= buf@.len() && 0 <= j {
                assert(j < i);
            }
        }
        lemma_find_prefix_spec(buf@);
        match find_prefix(buf@) {
            Some(i0) => {
                assert(!is_prefix_at(buf@, i0));
                assert(false);
            },
            None => {},
        }
    }
    None
}

/// Find the first BEL in the buffer.
fn find_suffix_exec(buf: &Vec<u8>) -> (r: Option<usize>)
    ensures
        match r {
            Some(i) => find_byte(buf@, protocol_suffix()) == Some(i as int) && i < buf@.len(),
            None => find_byte(buf@, protocol_suffix()) is None,
        },
{
    let mut i: usize = 0;
    while i < buf.len()
        invariant
            i <= buf@.len(),
            forall|j: int| 0 <= j < i ==> buf@[j] != protocol_suffix(),
        decreases buf@.len() - i,
    {
        if buf[i] == 7 {
            proof {
                lemma_find_byte_from_first(buf@, protocol_suffix(), i as int);
            }
            return Some(i);
        }
        i = i + 1;
    }
    proof {
        lemma_find_byte_spec(buf@, protocol_suffix());
        match find_byte(buf@, protocol_suffix()) {
            Some(i0) => {
                assert(buf@[i0] != protocol_suffix());
                assert(false);
            },
            None => {},
        }
    }
    None
}

/// Appending one output appends its view to the frame sequence.
proof fn lemma_frames_push(s: Seq<TransportOutput>, o: TransportOutput)
    ensures
        frames_of(s.push(o)) == frames_of(s) + seq![o@],
{
    assert(frames_of(s.push(o)) =~= frames_of(s) + seq![o@]);
}

/// The stateful reader side of the framing layer.
///
/// `feed` hands in the next bytes read from the carrier; everything else is
/// specified by [`scan`] over the bytes buffered so far.
pub struct TransportReader {
    config: TransportConfig,
    buffer: Vec<u8>,
}

impl TransportReader {
    /// The reader carries the protocol's envelope configuration.
    pub closed spec fn wf(&self) -> bool {
        self.config.wf()
    }

    /// The bytes held across calls: a partial prefix or an unterminated
    /// packet.
    pub closed spec fn buffered(&self) -> Seq<u8> {
        self.buffer@
    }

    pub fn new(config: TransportConfig) -> (r: TransportReader)
        requires
            config.wf(),
        ensures
            r.wf(),
            r.buffered() == Seq::<u8>::empty(),
    {
        TransportReader { config, buffer: Vec::new() }
    }

    /// Feed carrier bytes to the reader and collect the frames that become
    /// complete, exactly as [`scan`] describes on the concatenation of the
    /// buffered bytes and the new data.
    pub fn feed(&mut self, data: &[u8]) -> (out: Vec<TransportOutput>)
        requires
            old(self).wf(),
        ensures
            final(self).wf(),
            frames_of(out@) == scan(old(self).buffered() + data@).frames,
            final(self).buffered() == scan(old(self).buffered() + data@).rest,
    {
        self.buffer.extend_from_slice(data);
        proof {
            assert(self.buffer@ =~= old(self).buffer@ + data@);
        }
        let ghost whole = self.buffer@;
        let mut out: Vec<TransportOutput> = Vec::new();
        proof {
            assert(frames_of(out@) =~= Seq::<Frame>::empty());
        }
        loop
            invariant_except_break
                self.wf(),
                scan(whole).frames == frames_of(out@) + scan(self.buffer@).frames,
                scan(whole).rest == scan(self.buffer@).rest,
            ensures
                self.wf(),
                scan(whole).frames == frames_of(out@),
                scan(whole).rest == self.buffer@,
            decreases self.buffer@.len(),
        {
            let ghost cur = self.buffer@;
            if self.buffer.len() == 0 {
                proof {
                    assert(scan(cur).frames =~= Seq::<Frame>::empty());
                    assert(frames_of(out@) + scan(cur).frames =~= frames_of(out@));
                }
                break;
            }
            match find_prefix_exec(&self.buffer) {
                Some(i) => {
                    if i == 0 {
                        // a packet starts the buffer: wait for its BEL
                        match find_suffix_exec(&self.buffer) {
                            Some(e) => {
                                proof {
                                    lemma_find_prefix_spec(cur);
                                    lemma_find_byte_spec(cur, protocol_suffix());
                                    lemma_prefix_bytes();
                                    assert(e >= 13) by {
                                        if e < 13 {
                                            assert(cur.subrange(0, 13)[e as int]
                                                == protocol_prefix()[e as int]);
                                        }
                                    }
                                }
                                let body = copy_range(&self.buffer, 13, e);
                                let rest = copy_range(&self.buffer, e + 1, self.buffer.len());
                                let decoded = b64_decode(body.as_slice());
                                self.buffer = rest;
                                proof {
                                    assert(cur.skip(e + 1) =~= self.buffer@);
                                    assert(scan(cur).rest == scan(self.buffer@).rest);
                                }
                                match decoded {
                                    Some(p) => {
                                        let ghost prev = out@;
                                        out.push(TransportOutput::Packet(p));
                                        proof {
                                            lemma_frames_push(prev, TransportOutput::Packet(p));
                                            assert(scan(cur).frames == seq![Frame::Packet(p@)]
                                                + scan(self.buffer@).frames);
                                            assert(frames_of(prev) + (seq![Frame::Packet(p@)]
                                                + scan(self.buffer@).frames) =~= frames_of(out@)
                                                + scan(self.buffer@).frames);
                                        }
                                    },
                                    None => {
                                        proof {
                                            assert(scan(cur).frames == scan(
                                                self.buffer@,
                                            ).frames);
                                        }
                                    },
                                }
                            },
                            None => {
                                // no BEL yet: keep everything buffered
                                proof {
                                    assert(scan(cur).frames =~= Seq::<Frame>::empty());
                                    assert(frames_of(out@) + scan(cur).frames =~= frames_of(
                                        out@,
                                    ));
                                }
                                break;
                            },
                        }
                    } else {
                        // passthrough up to the prefix
                        let pass = copy_range(&self.buffer, 0, i);
                        let rest = copy_range(&self.buffer, i, self.buffer.len());
                        self.buffer = rest;
                        let ghost prev = out@;
                        out.push(TransportOutput::Passthrough(pass));
                        proof {
                            assert(cur.skip(i as int) =~= self.buffer@);
                            assert(cur.take(i as int) == pass@);
                            lemma_frames_push(prev, TransportOutput::Passthrough(pass));
                            assert(scan(cur).frames == seq![Frame::Passthrough(pass@)] + scan(
                                self.buffer@,
                            ).frames);
                            assert(frames_of(prev) + (seq![Frame::Passthrough(pass@)] + scan(
                                self.buffer@,
                            ).frames) =~= frames_of(out@) + scan(self.buffer@).frames);
                        }
                    }
                },
                None => {
                    let k = keep_len_exec(&self.buffer);
                    if k == self.buffer.len() {
                        // the whole buffer may still grow into a prefix
                        proof {
                            assert(scan(cur).frames =~= Seq::<Frame>::empty());
                            assert(frames_of(out@) + scan(cur).frames =~= frames_of(out@));
                        }
                        break;
                    }
                    // passthrough all but a possible partial prefix at the end
                    let cut = self.buffer.len() - k;
                    let pass = copy_range(&self.buffer, 0, cut);
                    let rest = copy_range(&self.buffer, cut, self.buffer.len());
                    self.buffer = rest;
                    let ghost prev = out@;
                    out.push(TransportOutput::Passthrough(pass));
                    proof {
                        lemma_keep_len_from_spec(cur, 12);
                        assert(cur.skip(cut as int) =~= self.buffer@);
                        assert(cur.take(cut as int) == pass@);
                        lemma_frames_push(prev, TransportOutput::Passthrough(pass));
                        assert(scan(cur).frames == seq![Frame::Passthrough(pass@)]);
                        assert(scan(cur).rest == self.buffer@);
                        if k > 0 {
                            assert(self.buffer@ == protocol_prefix().take(k as int));
                            lemma_keep_len_of_prefix(self.buffer@);
                        }
                        assert(scan(self.buffer@).frames =~= Seq::<Frame>::empty());
                        assert(scan(self.buffer@).rest == self.buffer@);
                        assert(frames_of(prev) + seq![Frame::Passthrough(pass@)] =~= frames_of(
                            out@,
                        ));
                    }
                    break;
                },
            }
        }
        out
    }
}

/// The wire form of one packet: prefix, base64 body, BEL.
pub open spec fn frame_bytes(p: Seq<u8>) -> Seq<u8> {
    protocol_prefix() + b64_of(p) + seq![protocol_suffix()]
}

/// The writer side of the framing layer.  Frames are appended to an output
/// buffer that the caller drains and hands to the carrier in one write, so
/// that each envelope reaches the stream contiguously.
pub struct TransportWriter {
    config: TransportConfig,
    out: Vec<u8>,
}

impl TransportWriter {
    pub closed spec fn wf(&self) -> bool {
        self.config.wf()
    }

    /// The bytes framed so far and not yet drained.
    pub closed spec fn pending(&self) -> Seq<u8> {
        self.out@
    }

    pub fn new(config: TransportConfig) -> (r: TransportWriter)
        requires
            config.wf(),
        ensures
            r.wf(),
            r.pending() == Seq::<u8>::empty(),
    {
        TransportWriter { config, out: Vec::new() }
    }

    /// Append one framed packet carrying `data`.
    pub fn write(&mut self, data: &[u8])
        requires
            old(self).wf(),
        ensures
            final(self).wf(),
            final(self).pending() == old(self).pending() + frame_bytes(data@),
    {
        let encoded = b64_encode(data);
        let ghost before = self.out@;
        self.out.extend_from_slice(self.config.prefix.as_slice());
        self.out.extend_from_slice(encoded.as_slice());
        self.out.push(7);
        proof {
            assert(self.out@ =~= before + frame_bytes(data@));
        }
    }

    /// Drain the framed bytes for the carrier.
    pub fn take_output(&mut self) -> (r: Vec<u8>)
        requires
            old(self).wf(),
        ensures
            final(self).wf(),
            r@ == old(self).pending(),
            final(self).pending() == Seq::<u8>::empty(),
    {
        let mut drained: Vec<u8> = Vec::new();
        core::mem::swap(&mut self.out, &mut drained);
        drained
    }
}

} // verus!
