//! The protocol state machine: a deterministic transducer from local calls
//! and incoming messages to outbound messages and events.
//!
//! Every transition is specified by the pure function [`step`]; the
//! executable [`Client`] is proved to follow it exactly.  The machine laws —
//! determinism over input sequences, that no transition leaves
//! `Disconnected`, and that inbound and outbound file transfers exclude each
//! other — are proved at the end of this module.

use vstd::prelude::*;

use crate::api::AcceptTransfer;
use crate::api::Chunk;
use crate::api::ChunkV;
use crate::api::CloseFile;
use crate::api::CloseTransfer;
use crate::api::Content;
use crate::api::ContentV;
use crate::api::Disconnect;
use crate::api::FileInfo;
use crate::api::FileInfoV;
use crate::api::FileOpened;
use crate::api::FileOpenedV;
use crate::api::Init;
use crate::api::InitV;
use crate::api::ReceiveRequest;
use crate::api::ReceiveRequestV;
use crate::api::RejectTransfer;
use crate::api::SendRequest;
use crate::api::SendRequestV;
use crate::codec::msg_encoding;
use crate::message::MessageWriter;
use crate::transport::frame_bytes;

verus! {

/// Model of [`OpenFile`]: the file the running transfer has open.
pub struct OpenFileV {
    pub info: FileInfoV,
}

/// The file the running transfer has open, with its description.
#[derive(Debug)]
pub struct OpenFile {
    pub info: FileInfo,
}

impl View for OpenFile {
    type V = OpenFileV;

    open spec fn view(&self) -> OpenFileV {
        OpenFileV { info: self.info@ }
    }
}

impl Clone for OpenFile {
    fn clone(&self) -> (r: Self)
        ensures
            r@ == self@,
    {
        OpenFile { info: self.info.clone() }
    }
}

/// Model of [`Input`].
pub enum InputV {
    Start,
    IncomingMessage(ContentV),
    RequestInboundTransfer(ReceiveRequestV),
    AcceptTransfer,
    RejectTransfer,
    RequestOutboundTransfer(SendRequestV),
    OpenFile(crate::api::OpenFileV),
    ConfirmFileOpened(FileOpenedV),
    SendChunk(ChunkV),
    CloseFile,
    CloseTransfer,
    Disconnect,
}

/// One input to the machine: a local call or an incoming message.
#[derive(Debug)]
pub enum Input {
    Start,
    IncomingMessage(Content),
    RequestInboundTransfer(ReceiveRequest),
    AcceptTransfer,
    RejectTransfer,
    RequestOutboundTransfer(SendRequest),
    OpenFile(crate::api::OpenFile),
    ConfirmFileOpened(FileOpened),
    SendChunk(Chunk),
    CloseFile,
    CloseTransfer,
    Disconnect,
}

impl View for Input {
    type V = InputV;

    open spec fn view(&self) -> InputV {
        match self {
            Input::Start => InputV::Start,
            Input::IncomingMessage(m) => InputV::IncomingMessage(m@),
            Input::RequestInboundTransfer(r) => InputV::RequestInboundTransfer(r@),
            Input::AcceptTransfer => InputV::AcceptTransfer,
            Input::RejectTransfer => InputV::RejectTransfer,
            Input::RequestOutboundTransfer(r) => InputV::RequestOutboundTransfer(r@),
            Input::OpenFile(f) => InputV::OpenFile(f@),
            Input::ConfirmFileOpened(f) => InputV::ConfirmFileOpened(f@),
            Input::SendChunk(c) => InputV::SendChunk(c@),
            Input::CloseFile => InputV::CloseFile,
            Input::CloseTransfer => InputV::CloseTransfer,
            Input::Disconnect => InputV::Disconnect,
        }
    }
}

/// Model of [`State`].
pub enum StateV {
    Initial,
    Connecting,
    Idle,
    InboundTransferRequested(ReceiveRequestV),
    InboundTransferOffered(SendRequestV),
    InboundTransfer(SendRequestV, Option<crate::api::OpenFileV>),
    InboundFileTransfer(SendRequestV, Option<OpenFileV>),
    OutboundTransferRequested(SendRequestV),
    OutboundTransfer(SendRequestV, Option<crate::api::OpenFileV>),
    OutboundFileTransfer(SendRequestV, Option<OpenFileV>),
    Disconnected,
}

/// The connection's state: handshake, idle, one running transfer with at
/// most one open file, or torn down.
#[derive(Debug)]
pub enum State {
    Initial,
    Connecting,
    Idle,
    InboundTransferRequested(ReceiveRequest),
    InboundTransferOffered(SendRequest),
    InboundTransfer(SendRequest, Option<crate::api::OpenFile>),
    InboundFileTransfer(SendRequest, Option<OpenFile>),
    OutboundTransferRequested(SendRequest),
    OutboundTransfer(SendRequest, Option<crate::api::OpenFile>),
    OutboundFileTransfer(SendRequest, Option<OpenFile>),
    Disconnected,
}

impl View for State {
    type V = StateV;

    open spec fn view(&self) -> StateV {
        match self {
            State::Initial => StateV::Initial,
            State::Connecting => StateV::Connecting,
            State::Idle => StateV::Idle,
            State::InboundTransferRequested(r) => StateV::InboundTransferRequested(r@),
            State::InboundTransferOffered(t) => StateV::InboundTransferOffered(t@),
            State::InboundTransfer(t, f) => StateV::InboundTransfer(
                t@,
                match f {
                    Some(x) => Some(x@),
                    None => None,
                },
            ),
            State::InboundFileTransfer(t, f) => StateV::InboundFileTransfer(
                t@,
                match f {
                    Some(x) => Some(x@),
                    None => None,
                },
            ),
            State::OutboundTransferRequested(t) => StateV::OutboundTransferRequested(t@),
            State::OutboundTransfer(t, f) => StateV::OutboundTransfer(
                t@,
                match f {
                    Some(x) => Some(x@),
                    None => None,
                },
            ),
            State::OutboundFileTransfer(t, f) => StateV::OutboundFileTransfer(
                t@,
                match f {
                    Some(x) => Some(x@),
                    None => None,
                },
            ),
            State::Disconnected => StateV::Disconnected,
        }
    }
}

impl Clone for State {
    fn clone(&self) -> (r: Self)
        ensures
            r@ == self@,
    {
        match self {
            State::Initial => State::Initial,
            State::Connecting => State::Connecting,
            State::Idle => State::Idle,
            State::InboundTransferRequested(r) => State::InboundTransferRequested(*r),
            State::InboundTransferOffered(t) => State::InboundTransferOffered(t.clone()),
            State::InboundTransfer(t, f) => State::InboundTransfer(
                t.clone(),
                match f {
                    Some(x) => Some(x.clone()),
                    None => None,
                },
            ),
            State::InboundFileTransfer(t, f) => State::InboundFileTransfer(
                t.clone(),
                match f {
                    Some(x) => Some(x.clone()),
                    None => None,
                },
            ),
            State::OutboundTransferRequested(t) => State::OutboundTransferRequested(t.clone()),
            State::OutboundTransfer(t, f) => State::OutboundTransfer(
                t.clone(),
                match f {
                    Some(x) => Some(x.clone()),
                    None => None,
                },
            ),
            State::OutboundFileTransfer(t, f) => State::OutboundFileTransfer(
                t.clone(),
                match f {
                    Some(x) => Some(x.clone()),
                    None => None,
                },
            ),
            State::Disconnected => State::Disconnected,
        }
    }
}

/// Model of [`ClientEvent`].
pub enum ClientEventV {
    Connected,
    Disconnected,
    InboundTransferOffered(SendRequestV),
    OutboundTransferOffered(ReceiveRequestV),
    TransferAccepted,
    TransferRejected,
    InboundFileOpening(SendRequestV, crate::api::OpenFileV),
    FileTransferStarted(OpenFileV, FileOpenedV),
    Chunk(ChunkV),
    FileClosed(OpenFileV),
    TransferClosed,
}

/// One event surfaced to the orchestrator, in transition order.
#[derive(Debug)]
pub enum ClientEvent {
    Connected,
    Disconnected,
    InboundTransferOffered(SendRequest),
    OutboundTransferOffered(ReceiveRequest),
    TransferAccepted,
    TransferRejected,
    InboundFileOpening(SendRequest, crate::api::OpenFile),
    FileTransferStarted(OpenFile, FileOpened),
    Chunk(Chunk),
    FileClosed(OpenFile),
    TransferClosed,
}

impl View for ClientEvent {
    type V = ClientEventV;

    open spec fn view(&self) -> ClientEventV {
        match self {
            ClientEvent::Connected => ClientEventV::Connected,
            ClientEvent::Disconnected => ClientEventV::Disconnected,
            ClientEvent::InboundTransferOffered(t) => ClientEventV::InboundTransferOffered(t@),
            ClientEvent::OutboundTransferOffered(r) => ClientEventV::OutboundTransferOffered(r@),
            ClientEvent::TransferAccepted => ClientEventV::TransferAccepted,
            ClientEvent::TransferRejected => ClientEventV::TransferRejected,
            ClientEvent::InboundFileOpening(t, f) => ClientEventV::InboundFileOpening(t@, f@),
            ClientEvent::FileTransferStarted(f, fo) => ClientEventV::FileTransferStarted(
                f@,
                fo@,
            ),
            ClientEvent::Chunk(c) => ClientEventV::Chunk(c@),
            ClientEvent::FileClosed(f) => ClientEventV::FileClosed(f@),
            ClientEvent::TransferClosed => ClientEventV::TransferClosed,
        }
    }
}

/// Why the machine refused an input.
#[derive(Debug)]
pub enum ClientError {
    InvalidTransitionError { state: State, input: Input },
    InvalidStateError(&'static str),
}

/// The kind of refusal, at the model level.
pub enum StepErr {
    InvalidTransition,
    InvalidState,
}

/// The full effect of one transition: the next state, at most one outbound
/// message, at most one event, and whether the input was refused.
pub struct StepV {
    pub next: StateV,
    pub write: Option<ContentV>,
    pub event: Option<ClientEventV>,
    pub error: Option<StepErr>,
}

/// The handshake message this side sends.
pub open spec fn init_message() -> ContentV {
    ContentV::Init(InitV { version: 1, features: Seq::empty() })
}

/// The transition function.  Refused inputs leave the state unchanged; the
/// one partial refusal is a `ConfirmFileOpened` or incoming `FileOpened`
/// whose pending open request carries no file description.
pub open spec fn step(s: StateV, i: InputV) -> StepV {
    match (s, i) {
        (StateV::Initial, InputV::Start) => StepV {
            next: StateV::Connecting,
            write: Some(init_message()),
            event: None,
            error: None,
        },
        (StateV::Initial, InputV::IncomingMessage(ContentV::Init(_))) => StepV {
            next: StateV::Idle,
            write: Some(init_message()),
            event: Some(ClientEventV::Connected),
            error: None,
        },
        (StateV::Connecting, InputV::IncomingMessage(ContentV::Init(_))) => StepV {
            next: StateV::Idle,
            write: None,
            event: Some(ClientEventV::Connected),
            error: None,
        },
        (_, InputV::IncomingMessage(ContentV::Disconnect)) => StepV {
            next: StateV::Disconnected,
            write: None,
            event: Some(ClientEventV::Disconnected),
            error: None,
        },
        (_, InputV::Disconnect) => StepV {
            next: StateV::Disconnected,
            write: Some(ContentV::Disconnect),
            event: Some(ClientEventV::Disconnected),
            error: None,
        },
        (StateV::Idle, InputV::RequestInboundTransfer(r)) => StepV {
            next: StateV::InboundTransferRequested(r),
            write: Some(ContentV::ReceiveRequest(r)),
            event: None,
            error: None,
        },
        (StateV::Idle, InputV::IncomingMessage(ContentV::SendRequest(t))) => StepV {
            next: StateV::InboundTransferOffered(t),
            write: None,
            event: Some(ClientEventV::InboundTransferOffered(t)),
            error: None,
        },
        (
            StateV::InboundTransferRequested(_),
            InputV::IncomingMessage(ContentV::SendRequest(t)),
        ) => StepV {
            next: StateV::InboundTransferOffered(t),
            write: None,
            event: Some(ClientEventV::InboundTransferOffered(t)),
            error: None,
        },
        (StateV::InboundTransferOffered(t), InputV::AcceptTransfer) => StepV {
            next: StateV::InboundTransfer(t, None),
            write: Some(ContentV::AcceptTransfer),
            event: None,
            error: None,
        },
        (StateV::InboundTransferOffered(_), InputV::RejectTransfer) => StepV {
            next: StateV::Idle,
            write: Some(ContentV::RejectTransfer),
            event: None,
            error: None,
        },
        (
            StateV::InboundTransfer(t, _),
            InputV::IncomingMessage(ContentV::OpenFile(f)),
        ) => StepV {
            next: StateV::InboundTransfer(t, Some(f)),
            write: None,
            event: Some(ClientEventV::InboundFileOpening(t, f)),
            error: None,
        },
        (StateV::InboundTransfer(t, Some(rf)), InputV::ConfirmFileOpened(fo)) => {
            match rf.file_info {
                Some(info) => StepV {
                    next: StateV::InboundFileTransfer(t, Some(OpenFileV { info })),
                    write: Some(ContentV::FileOpened(fo)),
                    event: None,
                    error: None,
                },
                None => StepV {
                    next: s,
                    write: Some(ContentV::FileOpened(fo)),
                    event: None,
                    error: Some(StepErr::InvalidState),
                },
            }
        },
        (StateV::Idle, InputV::IncomingMessage(ContentV::ReceiveRequest(r))) => StepV {
            next: StateV::Idle,
            write: None,
            event: Some(ClientEventV::OutboundTransferOffered(r)),
            error: None,
        },
        (StateV::Idle, InputV::RequestOutboundTransfer(t)) => StepV {
            next: StateV::OutboundTransferRequested(t),
            write: Some(ContentV::SendRequest(t)),
            event: None,
            error: None,
        },
        (
            StateV::OutboundTransferRequested(t),
            InputV::IncomingMessage(ContentV::AcceptTransfer),
        ) => StepV {
            next: StateV::OutboundTransfer(t, None),
            write: None,
            event: Some(ClientEventV::TransferAccepted),
            error: None,
        },
        (
            StateV::OutboundTransferRequested(_),
            InputV::IncomingMessage(ContentV::RejectTransfer),
        ) => StepV {
            next: StateV::Idle,
            write: None,
            event: Some(ClientEventV::TransferRejected),
            error: None,
        },
        (StateV::OutboundTransfer(t, _), InputV::OpenFile(f)) => StepV {
            next: StateV::OutboundTransfer(t, Some(f)),
            write: Some(ContentV::OpenFile(f)),
            event: None,
            error: None,
        },
        (
            StateV::OutboundTransfer(t, Some(rf)),
            InputV::IncomingMessage(ContentV::FileOpened(fo)),
        ) => {
            match rf.file_info {
                Some(info) => StepV {
                    next: StateV::OutboundFileTransfer(t, Some(OpenFileV { info })),
                    write: None,
                    event: Some(
                        ClientEventV::FileTransferStarted(OpenFileV { info }, fo),
                    ),
                    error: None,
                },
                None => StepV { next: s, write: None, event: None, error: Some(
                    StepErr::InvalidState,
                ) },
            }
        },
        (StateV::OutboundFileTransfer(_, _), InputV::SendChunk(c)) => StepV {
            next: s,
            write: Some(ContentV::Chunk(c)),
            event: None,
            error: None,
        },
        (
            StateV::InboundFileTransfer(_, _),
            InputV::IncomingMessage(ContentV::Chunk(c)),
        ) => StepV { next: s, write: None, event: Some(ClientEventV::Chunk(c)), error: None },
        (StateV::OutboundFileTransfer(t, Some(f)), InputV::CloseFile) => StepV {
            next: StateV::OutboundTransfer(t, None),
            write: Some(ContentV::CloseFile),
            event: Some(ClientEventV::FileClosed(f)),
            error: None,
        },
        (
            StateV::InboundFileTransfer(t, Some(f)),
            InputV::IncomingMessage(ContentV::CloseFile),
        ) => StepV {
            next: StateV::InboundTransfer(t, None),
            write: None,
            event: Some(ClientEventV::FileClosed(f)),
            error: None,
        },
        (
            StateV::InboundFileTransfer(_, _)
            | StateV::InboundTransfer(_, _)
            | StateV::OutboundFileTransfer(_, _)
            | StateV::OutboundTransfer(_, _),
            InputV::CloseTransfer,
        ) => StepV {
            next: StateV::Idle,
            write: Some(ContentV::CloseTransfer),
            event: Some(ClientEventV::TransferClosed),
            error: None,
        },
        (
            StateV::InboundFileTransfer(_, _)
            | StateV::InboundTransfer(_, _)
            | StateV::OutboundFileTransfer(_, _)
            | StateV::OutboundTransfer(_, _),
            InputV::IncomingMessage(ContentV::CloseTransfer),
        ) => StepV {
            next: StateV::Idle,
            write: None,
            event: Some(ClientEventV::TransferClosed),
            error: None,
        },
        (
            _,
            InputV::CloseTransfer
            | InputV::CloseFile
            | InputV::IncomingMessage(ContentV::CloseTransfer)
            | InputV::IncomingMessage(ContentV::CloseFile),
        ) => StepV { next: s, write: None, event: None, error: None },
        (_, _) => StepV {
            next: s,
            write: None,
            event: None,
            error: Some(StepErr::InvalidTransition),
        },
    }
}

/// The event sequence one transition appends.
pub open spec fn opt_event_seq(e: Option<ClientEventV>) -> Seq<ClientEventV> {
    match e {
        Some(ev) => seq![ev],
        None => Seq::empty(),
    }
}

/// The wire bytes one transition appends.
pub open spec fn opt_msg_bytes(w: Option<ContentV>) -> Seq<u8> {
    match w {
        Some(c) => frame_bytes(msg_encoding(c)),
        None => Seq::empty(),
    }
}

/// What one call of the machine guarantees: the state, event queue and
/// pending output move exactly as [`step`] says, and the result reports the
/// refusal, if any, with the state it found.
pub open spec fn post_step(
    pre: Client,
    post: Client,
    i: InputV,
    r: Result<(), ClientError>,
) -> bool {
    let st = step(pre.state_view(), i);
    &&& post.wf()
    &&& post.state_view() == st.next
    &&& post.events_view() == pre.events_view() + opt_event_seq(st.event)
    &&& post.outgoing() == pre.outgoing() + opt_msg_bytes(st.write)
    &&& (r is Ok <==> st.error is None)
    &&& match r {
        Ok(_) => true,
        Err(ClientError::InvalidTransitionError { state: s0, input: _ }) => st.error == Some(
            StepErr::InvalidTransition,
        ) && s0@ == pre.state_view(),
        Err(ClientError::InvalidStateError(_)) => st.error == Some(StepErr::InvalidState),
    }
}

/// The machine: the current state, the event FIFO that the orchestrator
/// drains, and the writer whose pending bytes go to the carrier.
pub struct Client {
    events: Vec<ClientEvent>,
    state: State,
    writer: MessageWriter,
}

impl Client {
    pub closed spec fn wf(&self) -> bool {
        self.writer.wf()
    }

    /// The model of the current state.
    pub closed spec fn state_view(&self) -> StateV {
        self.state@
    }

    /// The models of the queued events, oldest first.
    pub closed spec fn events_view(&self) -> Seq<ClientEventV> {
        self.events@.map_values(|e: ClientEvent| e@)
    }

    /// The wire bytes written and not yet drained.
    pub closed spec fn outgoing(&self) -> Seq<u8> {
        self.writer.pending()
    }

    pub fn new(writer: MessageWriter) -> (r: Client)
        requires
            writer.wf(),
        ensures
            r.wf(),
            r.state_view() == StateV::Initial,
            r.events_view() == Seq::<ClientEventV>::empty(),
            r.outgoing() == writer.pending(),
    {
        let r = Client { events: Vec::new(), state: State::Initial, writer };
        proof {
            assert(r.events_view() =~= Seq::<ClientEventV>::empty());
        }
        r
    }

    fn transition(&mut self, state: State)
        ensures
            final(self).state == state,
            final(self).events == old(self).events,
            final(self).writer == old(self).writer,
    {
        self.state = state;
    }

    fn push_event(&mut self, event: ClientEvent)
        ensures
            final(self).state == old(self).state,
            final(self).writer == old(self).writer,
            final(self).events_view() == old(self).events_view() + seq![event@],
    {
        let ghost prev = self.events@;
        self.events.push(event);
        proof {
            assert(self.events_view() =~= prev.map_values(|e: ClientEvent| e@) + seq![event@]);
        }
    }

    fn consume(&mut self, input: Input) -> (r: Result<(), ClientError>)
        requires
            old(self).wf(),
        ensures
            post_step(*old(self), *final(self), input@, r),
    {
        match (&self.state, input) {
            (State::Initial, Input::Start) => {
                self.writer.write(&Content::Init(Init { version: 1, features: Vec::new() }));
                self.transition(State::Connecting);
                Ok(())
            },
            (State::Initial, Input::IncomingMessage(Content::Init(_))) => {
                self.writer.write(&Content::Init(Init { version: 1, features: Vec::new() }));
                self.push_event(ClientEvent::Connected);
                self.transition(State::Idle);
                Ok(())
            },
            (State::Connecting, Input::IncomingMessage(Content::Init(_))) => {
                self.push_event(ClientEvent::Connected);
                self.transition(State::Idle);
                Ok(())
            },
            (_, Input::IncomingMessage(Content::Disconnect(_))) => {
                self.push_event(ClientEvent::Disconnected);
                self.transition(State::Disconnected);
                Ok(())
            },
            (_, Input::Disconnect) => {
                self.push_event(ClientEvent::Disconnected);
                self.writer.write(&Content::Disconnect(Disconnect {}));
                self.transition(State::Disconnected);
                Ok(())
            },
            (State::Idle, Input::RequestInboundTransfer(transfer)) => {
                self.transition(State::InboundTransferRequested(transfer));
                self.writer.write(&Content::ReceiveRequest(transfer));
                Ok(())
            },
            (
                State::Idle | State::InboundTransferRequested(_),
                Input::IncomingMessage(Content::SendRequest(transfer)),
            ) => {
                self.push_event(ClientEvent::InboundTransferOffered(transfer.clone()));
                self.transition(State::InboundTransferOffered(transfer));
                Ok(())
            },
            (State::InboundTransferOffered(transfer), Input::AcceptTransfer) => {
                let transfer = transfer.clone();
                self.writer.write(&Content::AcceptTransfer(AcceptTransfer {}));
                self.transition(State::InboundTransfer(transfer, None));
                Ok(())
            },
            (State::InboundTransferOffered(_), Input::RejectTransfer) => {
                self.writer.write(&Content::RejectTransfer(RejectTransfer {}));
                self.transition(State::Idle);
                Ok(())
            },
            (
                State::InboundTransfer(transfer, _),
                Input::IncomingMessage(Content::OpenFile(file)),
            ) => {
                let transfer = transfer.clone();
                self.push_event(
                    ClientEvent::InboundFileOpening(transfer.clone(), file.clone()),
                );
                self.transition(State::InboundTransfer(transfer, Some(file)));
                Ok(())
            },
            (
                State::InboundTransfer(transfer, Some(requested_file)),
                Input::ConfirmFileOpened(file),
            ) => {
                let transfer = transfer.clone();
                let requested_file = requested_file.clone();
                self.writer.write(&Content::FileOpened(file));
                match requested_file.file_info {
                    Some(info) => {
                        self.transition(
                            State::InboundFileTransfer(transfer, Some(OpenFile { info })),
                        );
                        Ok(())
                    },
                    None => Err(ClientError::InvalidStateError(
                        "Missing open file information",
                    )),
                }
            },
            (State::Idle, Input::IncomingMessage(Content::ReceiveRequest(request))) => {
                self.push_event(ClientEvent::OutboundTransferOffered(request));
                Ok(())
            },
            (State::Idle, Input::RequestOutboundTransfer(transfer)) => {
                self.transition(State::OutboundTransferRequested(transfer.clone()));
                self.writer.write(&Content::SendRequest(transfer));
                Ok(())
            },
            (
                State::OutboundTransferRequested(requested_transfer),
                Input::IncomingMessage(Content::AcceptTransfer(_)),
            ) => {
                let requested_transfer = requested_transfer.clone();
                self.push_event(ClientEvent::TransferAccepted);
                self.transition(State::OutboundTransfer(requested_transfer, None));
                Ok(())
            },
            (
                State::OutboundTransferRequested(_),
                Input::IncomingMessage(Content::RejectTransfer(_)),
            ) => {
                self.push_event(ClientEvent::TransferRejected);
                self.transition(State::Idle);
                Ok(())
            },
            (State::OutboundTransfer(transfer, _), Input::OpenFile(file)) => {
                let transfer = transfer.clone();
                self.writer.write(&Content::OpenFile(file.clone()));
                self.transition(State::OutboundTransfer(transfer, Some(file)));
                Ok(())
            },
            (
                State::OutboundTransfer(transfer, Some(requested_file)),
                Input::IncomingMessage(Content::FileOpened(file)),
            ) => {
                let transfer = transfer.clone();
                let requested_file = requested_file.clone();
                match requested_file.file_info {
                    Some(info) => {
                        let open_file = OpenFile { info };
                        self.push_event(
                            ClientEvent::FileTransferStarted(open_file.clone(), file),
                        );
                        self.transition(
                            State::OutboundFileTransfer(transfer, Some(open_file)),
                        );
                        Ok(())
                    },
                    None => Err(ClientError::InvalidStateError(
                        "Missing file info in request",
                    )),
                }
            },
            (State::OutboundFileTransfer(_, _), Input::SendChunk(chunk)) => {
                self.writer.write(&Content::Chunk(chunk));
                Ok(())
            },
            (
                State::InboundFileTransfer(_, _),
                Input::IncomingMessage(Content::Chunk(chunk)),
            ) => {
                self.push_event(ClientEvent::Chunk(chunk));
                Ok(())
            },
            (State::OutboundFileTransfer(transfer, Some(file)), Input::CloseFile) => {
                let transfer = transfer.clone();
                let file = file.clone();
                self.transition(State::OutboundTransfer(transfer, None));
                self.writer.write(&Content::CloseFile(CloseFile {}));
                self.push_event(ClientEvent::FileClosed(file));
                Ok(())
            },
            (
                State::InboundFileTransfer(transfer, Some(file)),
                Input::IncomingMessage(Content::CloseFile(_)),
            ) => {
                let transfer = transfer.clone();
                let file = file.clone();
                self.transition(State::InboundTransfer(transfer, None));
                self.push_event(ClientEvent::FileClosed(file));
                Ok(())
            },
            (
                State::InboundFileTransfer(_, _)
                | State::InboundTransfer(_, _)
                | State::OutboundFileTransfer(_, _)
                | State::OutboundTransfer(_, _),
                Input::CloseTransfer,
            ) => {
                self.transition(State::Idle);
                self.writer.write(&Content::CloseTransfer(CloseTransfer {}));
                self.push_event(ClientEvent::TransferClosed);
                Ok(())
            },
            (
                State::InboundFileTransfer(_, _)
                | State::InboundTransfer(_, _)
                | State::OutboundFileTransfer(_, _)
                | State::OutboundTransfer(_, _),
                Input::IncomingMessage(Content::CloseTransfer(_)),
            ) => {
                self.transition(State::Idle);
                self.push_event(ClientEvent::TransferClosed);
                Ok(())
            },
            (
                _,
                Input::CloseTransfer
                | Input::CloseFile
                | Input::IncomingMessage(Content::CloseTransfer(_))
                | Input::IncomingMessage(Content::CloseFile(_)),
            ) => Ok(()),
            (_, input) => Err(ClientError::InvalidTransitionError {
                state: self.state.clone(),
                input,
            }),
        }
    }

    /// Drain the queued events, oldest first.
    pub fn take_events(&mut self) -> (r: Vec<ClientEvent>)
        requires
            old(self).wf(),
        ensures
            final(self).wf(),
            r@.map_values(|e: ClientEvent| e@) == old(self).events_view(),
            final(self).events_view() == Seq::<ClientEventV>::empty(),
            final(self).state_view() == old(self).state_view(),
            final(self).outgoing() == old(self).outgoing(),
    {
        let mut events: Vec<ClientEvent> = Vec::new();
        core::mem::swap(&mut self.events, &mut events);
        proof {
            assert(self.events_view() =~= Seq::<ClientEventV>::empty());
        }
        events
    }

    /// Drain the wire bytes written so far.
    pub fn take_output(&mut self) -> (r: Vec<u8>)
        requires
            old(self).wf(),
        ensures
            final(self).wf(),
            r@ == old(self).outgoing(),
            final(self).outgoing() == Seq::<u8>::empty(),
            final(self).state_view() == old(self).state_view(),
            final(self).events_view() == old(self).events_view(),
    {
        self.writer.take_output()
    }

    pub fn start(&mut self) -> (r: Result<(), ClientError>)
        requires
            old(self).wf(),
        ensures
            post_step(*old(self), *final(self), InputV::Start, r),
    {
        self.consume(Input::Start)
    }

    pub fn disconnect(&mut self) -> (r: Result<(), ClientError>)
        requires
            old(self).wf(),
        ensures
            post_step(*old(self), *final(self), InputV::Disconnect, r),
    {
        self.consume(Input::Disconnect)
    }

    pub fn feed_message(&mut self, msg: Content) -> (r: Result<(), ClientError>)
        requires
            old(self).wf(),
        ensures
            post_step(*old(self), *final(self), InputV::IncomingMessage(msg@), r),
    {
        self.consume(Input::IncomingMessage(msg))
    }

    pub fn request_inbound_transfer(&mut self, request: ReceiveRequest) -> (r: Result<
        (),
        ClientError,
    >)
        requires
            old(self).wf(),
        ensures
            post_step(*old(self), *final(self), InputV::RequestInboundTransfer(request@), r),
    {
        self.consume(Input::RequestInboundTransfer(request))
    }

    pub fn request_outbound_transfer(&mut self, request: SendRequest) -> (r: Result<
        (),
        ClientError,
    >)
        requires
            old(self).wf(),
        ensures
            post_step(*old(self), *final(self), InputV::RequestOutboundTransfer(request@), r),
    {
        self.consume(Input::RequestOutboundTransfer(request))
    }

    pub fn accept_transfer(&mut self) -> (r: Result<(), ClientError>)
        requires
            old(self).wf(),
        ensures
            post_step(*old(self), *final(self), InputV::AcceptTransfer, r),
    {
        self.consume(Input::AcceptTransfer)
    }

    pub fn reject_transfer(&mut self) -> (r: Result<(), ClientError>)
        requires
            old(self).wf(),
        ensures
            post_step(*old(self), *final(self), InputV::RejectTransfer, r),
    {
        self.consume(Input::RejectTransfer)
    }

    pub fn open_file(&mut self, request: crate::api::OpenFile) -> (r: Result<(), ClientError>)
        requires
            old(self).wf(),
        ensures
            post_step(*old(self), *final(self), InputV::OpenFile(request@), r),
    {
        self.consume(Input::OpenFile(request))
    }

    pub fn confirm_file_opened(&mut self, file: FileOpened) -> (r: Result<(), ClientError>)
        requires
            old(self).wf(),
        ensures
            post_step(*old(self), *final(self), InputV::ConfirmFileOpened(file@), r),
    {
        self.consume(Input::ConfirmFileOpened(file))
    }

    pub fn send_chunk(&mut self, chunk: Chunk) -> (r: Result<(), ClientError>)
        requires
            old(self).wf(),
        ensures
            post_step(*old(self), *final(self), InputV::SendChunk(chunk@), r),
    {
        self.consume(Input::SendChunk(chunk))
    }

    pub fn close_file(&mut self) -> (r: Result<(), ClientError>)
        requires
            old(self).wf(),
        ensures
            post_step(*old(self), *final(self), InputV::CloseFile, r),
    {
        self.consume(Input::CloseFile)
    }

    pub fn close_transfer(&mut self) -> (r: Result<(), ClientError>)
        requires
            old(self).wf(),
        ensures
            post_step(*old(self), *final(self), InputV::CloseTransfer, r),
    {
        self.consume(Input::CloseTransfer)
    }
}

/// The outcome of running the machine over a whole input sequence: final
/// state, all events in order, all wire bytes in order.
pub struct RunV {
    pub state: StateV,
    pub events: Seq<ClientEventV>,
    pub output: Seq<u8>,
}

/// Fold [`step`] over an input sequence.  Refused inputs contribute the
/// effects `step` gives them and leave the state as `step` says.
pub open spec fn run_from(s: StateV, inputs: Seq<InputV>) -> RunV
    decreases inputs.len(),
{
    if inputs.len() == 0 {
        RunV { state: s, events: Seq::empty(), output: Seq::empty() }
    } else {
        let st = step(s, inputs[0]);
        let rest = run_from(st.next, inputs.drop_first());
        RunV {
            state: rest.state,
            events: opt_event_seq(st.event) + rest.events,
            output: opt_msg_bytes(st.write) + rest.output,
        }
    }
}

/// A run from the initial state.
pub open spec fn run(inputs: Seq<InputV>) -> RunV {
    run_from(StateV::Initial, inputs)
}

/// Unfolding a run at its end: the effects of the last input append to the
/// effects of the run before it.  This lets the per-call guarantees of
/// [`Client`] be chained into facts about whole input sequences.
pub proof fn lemma_run_from_snoc(s: StateV, inputs: Seq<InputV>, i: InputV)
    ensures
        run_from(s, inputs.push(i)).state == step(run_from(s, inputs).state, i).next,
        run_from(s, inputs.push(i)).events == run_from(s, inputs).events + opt_event_seq(
            step(run_from(s, inputs).state, i).event,
        ),
        run_from(s, inputs.push(i)).output == run_from(s, inputs).output + opt_msg_bytes(
            step(run_from(s, inputs).state, i).write,
        ),
    decreases inputs.len(),
{
    if inputs.len() == 0 {
        assert(inputs.push(i)[0] == i);
        assert(inputs.push(i).drop_first() =~= Seq::<InputV>::empty());
        let st = step(s, i);
        let rest = run_from(st.next, inputs.push(i).drop_first());
        assert(rest.events == Seq::<ClientEventV>::empty());
        assert(rest.output == Seq::<u8>::empty());
        assert(run_from(s, inputs).events == Seq::<ClientEventV>::empty());
        assert(run_from(s, inputs).output == Seq::<u8>::empty());
        assert(run_from(s, inputs.push(i)).events =~= run_from(s, inputs).events
            + opt_event_seq(st.event));
        assert(run_from(s, inputs.push(i)).output =~= run_from(s, inputs).output
            + opt_msg_bytes(st.write));
    } else {
        assert(inputs.push(i)[0] == inputs[0]);
        assert(inputs.push(i).drop_first() =~= inputs.drop_first().push(i));
        let st0 = step(s, inputs[0]);
        lemma_run_from_snoc(st0.next, inputs.drop_first(), i);
        let stl = step(run_from(s, inputs).state, i);
        assert(run_from(s, inputs.push(i)).events =~= run_from(s, inputs).events
            + opt_event_seq(stl.event));
        assert(run_from(s, inputs.push(i)).output =~= run_from(s, inputs).output
            + opt_msg_bytes(stl.write));
    }
}

/// Determinism: identical input sequences from the initial state produce
/// identical final state, events and output.  The machine is a pure function
/// of its inputs; this lemma records it.
pub proof fn lemma_machine_deterministic(a: Seq<InputV>, b: Seq<InputV>)
    requires
        a == b,
    ensures
        run(a) == run(b),
{
}

/// Safety: no input moves the machine out of `Disconnected`.
pub proof fn lemma_disconnected_is_final(i: InputV)
    ensures
        step(StateV::Disconnected, i).next == StateV::Disconnected,
{
}

/// A disconnected machine stays disconnected over any further inputs.
pub proof fn lemma_run_stays_disconnected(inputs: Seq<InputV>)
    ensures
        run_from(StateV::Disconnected, inputs).state == StateV::Disconnected,
    decreases inputs.len(),
{
    if inputs.len() > 0 {
        lemma_disconnected_is_final(inputs[0]);
        lemma_run_stays_disconnected(inputs.drop_first());
    }
}

/// An inbound file transfer is active.
pub open spec fn inbound_file_active(s: StateV) -> bool {
    s is InboundFileTransfer
}

/// An outbound file transfer is active.
pub open spec fn outbound_file_active(s: StateV) -> bool {
    s is OutboundFileTransfer
}

/// Mutual exclusion: the machine holds a single state, so an inbound and an
/// outbound file transfer can never be active at once; this lemma records
/// it for every reachable or unreachable state alike.
pub proof fn lemma_file_transfer_exclusive(s: StateV)
    ensures
        !(inbound_file_active(s) && outbound_file_active(s)),
{
}

} // verus!
