//! Typed messages over the framing layer.
//!
//! The reader turns carrier bytes into passthrough stretches and decoded
//! messages; a packet whose payload does not parse is dropped silently.  The
//! writer frames one encoded message per packet and collects the wire bytes
//! for the caller to hand to the carrier.

use vstd::prelude::*;

use crate::api::Content;
use crate::api::ContentV;
use crate::codec::decode_message;
use crate::codec::encode_message;
use crate::codec::msg_encoding;
use crate::codec::msg_parse;
use crate::transport::frame_bytes;
use crate::transport::frames_of;
use crate::transport::scan;
use crate::transport::Frame;
use crate::transport::TransportConfig;
use crate::transport::TransportOutput;
use crate::transport::TransportReader;
use crate::transport::TransportWriter;

verus! {

/// Model of [`MessageOutput`].
pub enum MsgFrame {
    Passthrough(Seq<u8>),
    Message(ContentV),
}

/// One item of the message reader's output: carrier bytes to surface
/// verbatim, or one decoded protocol message.
pub enum MessageOutput {
    Passthrough(Vec<u8>),
    Message(Content),
}

impl View for MessageOutput {
    type V = MsgFrame;

    open spec fn view(&self) -> MsgFrame {
        match self {
            MessageOutput::Passthrough(d) => MsgFrame::Passthrough(d@),
            MessageOutput::Message(m) => MsgFrame::Message(m@),
        }
    }
}

/// The views of a vector of message outputs.
pub open spec fn msg_frames_of(s: Seq<MessageOutput>) -> Seq<MsgFrame> {
    s.map_values(|o: MessageOutput| o@)
}

/// What decoding does to a sequence of transport frames: passthrough stays,
/// a packet becomes a message or is dropped.
pub open spec fn decode_frames(fs: Seq<Frame>) -> Seq<MsgFrame>
    decreases fs.len(),
{
    if fs.len() == 0 {
        Seq::empty()
    } else {
        let head = match fs[0] {
            Frame::Passthrough(d) => seq![MsgFrame::Passthrough(d)],
            Frame::Packet(p) => match msg_parse(p) {
                Some(c) => seq![MsgFrame::Message(c)],
                None => Seq::empty(),
            },
        };
        head + decode_frames(fs.drop_first())
    }
}

proof fn lemma_decode_frames_snoc(fs: Seq<Frame>, f: Frame)
    ensures
        decode_frames(fs.push(f)) == decode_frames(fs) + decode_frames(seq![f]),
    decreases fs.len(),
{
    if fs.len() == 0 {
        assert(fs.push(f)[0] == f);
        assert(fs.push(f).drop_first() =~= Seq::<Frame>::empty());
        assert(decode_frames(fs.push(f).drop_first()) == Seq::<MsgFrame>::empty());
        assert(decode_frames(seq![f].drop_first()) == Seq::<MsgFrame>::empty());
        assert(decode_frames(fs.push(f)) =~= decode_frames(fs) + decode_frames(seq![f]));
    } else {
        assert(fs.push(f)[0] == fs[0]);
        assert(fs.push(f).drop_first() =~= fs.drop_first().push(f));
        lemma_decode_frames_snoc(fs.drop_first(), f);
        assert(decode_frames(fs.push(f)) =~= decode_frames(fs) + decode_frames(seq![f]));
    }
}

/// The stateful reader: framing and message decoding in one step.
pub struct MessageReader {
    reader: TransportReader,
}

impl MessageReader {
    pub closed spec fn wf(&self) -> bool {
        self.reader.wf()
    }

    /// The bytes buffered across calls by the framing layer.
    pub closed spec fn buffered(&self) -> Seq<u8> {
        self.reader.buffered()
    }

    pub fn new(config: TransportConfig) -> (r: MessageReader)
        requires
            config.wf(),
        ensures
            r.wf(),
            r.buffered() == Seq::<u8>::empty(),
    {
        MessageReader { reader: TransportReader::new(config) }
    }

    /// Feed carrier bytes; collect passthrough stretches and the messages of
    /// the packets that became complete and decoded.
    pub fn feed(&mut self, data: &[u8]) -> (out: Vec<MessageOutput>)
        requires
            old(self).wf(),
        ensures
            final(self).wf(),
            msg_frames_of(out@) == decode_frames(
                scan(old(self).buffered() + data@).frames,
            ),
            final(self).buffered() == scan(old(self).buffered() + data@).rest,
    {
        let mut frames = self.reader.feed(data);
        let ghost all = frames_of(frames@);
        let mut out: Vec<MessageOutput> = Vec::new();
        let mut done: usize = 0;
        proof {
            assert(msg_frames_of(out@) =~= Seq::<MsgFrame>::empty());
            assert(all.take(0) =~= Seq::<Frame>::empty());
        }
        while done < frames.len()
            invariant
                done <= frames@.len(),
                all == frames_of(frames@),
                msg_frames_of(out@) == decode_frames(all.take(done as int)),
            decreases frames@.len() - done,
        {
            let ghost prev = out@;
            match &frames[done] {
                TransportOutput::Passthrough(d) => {
                    let copied = vstd::slice::slice_to_vec(d.as_slice());
                    out.push(MessageOutput::Passthrough(copied));
                    proof {
                        assert(msg_frames_of(out@) =~= msg_frames_of(prev) + seq![
                            MsgFrame::Passthrough(d@),
                        ]);
                    }
                },
                TransportOutput::Packet(p) => {
                    match decode_message(p.as_slice()) {
                        Some(m) => {
                            out.push(MessageOutput::Message(m));
                            proof {
                                assert(msg_frames_of(out@) =~= msg_frames_of(prev) + seq![
                                    MsgFrame::Message(m@),
                                ]);
                            }
                        },
                        None => {},
                    }
                },
            }
            proof {
                let f = all[done as int];
                assert(f == frames@[done as int]@);
                lemma_decode_frames_snoc(all.take(done as int), f);
                assert(all.take(done + 1) =~= all.take(done as int).push(f));
                assert(seq![f].drop_first() =~= Seq::<Frame>::empty());
                assert(decode_frames(seq![f].drop_first()) == Seq::<MsgFrame>::empty());
                match f {
                    Frame::Passthrough(d) => {
                        assert(decode_frames(seq![f]) =~= seq![MsgFrame::Passthrough(d)]);
                    },
                    Frame::Packet(p) => {
                        match msg_parse(p) {
                            Some(c) => {
                                assert(decode_frames(seq![f]) =~= seq![MsgFrame::Message(c)]);
                            },
                            None => {
                                assert(decode_frames(seq![f]) =~= Seq::<MsgFrame>::empty());
                                assert(msg_frames_of(out@) =~= msg_frames_of(prev));
                            },
                        }
                    },
                }
                assert(msg_frames_of(out@) =~= decode_frames(all.take(done + 1)));
            }
            done = done + 1;
        }
        proof {
            assert(all.take(frames@.len() as int) =~= all);
        }
        out
    }
}

/// The writer: each message becomes one framed packet appended to the
/// pending wire bytes.
pub struct MessageWriter {
    writer: TransportWriter,
}

impl MessageWriter {
    pub closed spec fn wf(&self) -> bool {
        self.writer.wf()
    }

    /// The wire bytes framed so far and not yet drained.
    pub closed spec fn pending(&self) -> Seq<u8> {
        self.writer.pending()
    }

    pub fn new(writer: TransportWriter) -> (r: MessageWriter)
        requires
            writer.wf(),
        ensures
            r.wf(),
            r.pending() == writer.pending(),
    {
        MessageWriter { writer }
    }

    /// Frame one message onto the pending wire bytes.
    pub fn write(&mut self, msg: &Content)
        requires
            old(self).wf(),
        ensures
            final(self).wf(),
            final(self).pending() == old(self).pending() + frame_bytes(msg_encoding(msg@)),
    {
        let payload = encode_message(msg);
        self.writer.write(payload.as_slice());
    }

    /// Drain the pending wire bytes for the carrier.
    pub fn take_output(&mut self) -> (r: Vec<u8>)
        requires
            old(self).wf(),
        ensures
            final(self).wf(),
            r@ == old(self).pending(),
            final(self).pending() == Seq::<u8>::empty(),
    {
        self.writer.take_output()
    }
}

/// Message round trip: one written message, fed back through the framing
/// and the codec, yields exactly that message and leaves nothing buffered.
pub proof fn lemma_message_round_trip(c: ContentV)
    requires
        crate::codec::content_wf(c),
    ensures
        decode_frames(scan(frame_bytes(msg_encoding(c))).frames) == seq![MsgFrame::Message(c)],
        scan(frame_bytes(msg_encoding(c))).rest == Seq::<u8>::empty(),
{
    crate::transport_laws::lemma_round_trip(msg_encoding(c));
    crate::codec::lemma_codec_round_trip(c);
    let fs = scan(frame_bytes(msg_encoding(c))).frames;
    assert(fs == seq![Frame::Packet(msg_encoding(c))]);
    assert(fs.drop_first() =~= Seq::<Frame>::empty());
    assert(decode_frames(fs.drop_first()) == Seq::<MsgFrame>::empty());
    assert(decode_frames(fs) =~= seq![MsgFrame::Message(c)]);
}

} // verus!
