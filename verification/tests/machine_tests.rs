use shift::api::Content;
use shift::api::FileInfo;
use shift::api::OpenFile;
use shift::api::Init;
use shift::api::SendRequest;
use shift::machine::Client;
use shift::machine::ClientError;
use shift::machine::ClientEvent;
use shift::message::MessageWriter;
use shift::transport::TransportConfig;
use shift::transport::TransportWriter;

fn fresh_client() -> Client {
    Client::new(MessageWriter::new(TransportWriter::new(TransportConfig::new())))
}

fn incoming_init() -> Content {
    Content::Init(Init { version: 1, features: Vec::new() })
}

fn send_request(name: &str, size: u64) -> SendRequest {
    SendRequest {
        file_info: Some(FileInfo { name: name.to_string(), size, mode: 0o644 }),
    }
}

#[test]
fn test_handshake_events() {
    let mut a = fresh_client();
    assert!(a.start().is_ok());
    assert!(a.take_events().is_empty());
    // the peer's Init completes the handshake
    assert!(a.feed_message(incoming_init()).is_ok());
    let events = a.take_events();
    assert_eq!(events.len(), 1);
    assert!(matches!(events[0], ClientEvent::Connected));
    // the other role: answering an Init from the initial state
    let mut b = fresh_client();
    assert!(b.feed_message(incoming_init()).is_ok());
    let events = b.take_events();
    assert_eq!(events.len(), 1);
    assert!(matches!(events[0], ClientEvent::Connected));
    assert!(!b.take_output().is_empty());
}

#[test]
fn test_reject_returns_to_idle() {
    // the receiving side of a rejected offer comes back to Idle
    let mut b = fresh_client();
    assert!(b.feed_message(incoming_init()).is_ok());
    b.take_events();
    assert!(b.feed_message(Content::SendRequest(send_request("a.txt", 3))).is_ok());
    let events = b.take_events();
    assert_eq!(events.len(), 1);
    assert!(matches!(events[0], ClientEvent::InboundTransferOffered(_)));
    assert!(b.reject_transfer().is_ok());
    // Idle again: a new inbound offer is accepted by the machine
    assert!(b.feed_message(Content::SendRequest(send_request("b.txt", 4))).is_ok());
    let events = b.take_events();
    assert_eq!(events.len(), 1);
    assert!(matches!(events[0], ClientEvent::InboundTransferOffered(_)));
}

#[test]
fn test_invalid_transition_reported() {
    let mut a = fresh_client();
    match a.accept_transfer() {
        Err(ClientError::InvalidTransitionError { .. }) => {}
        _ => panic!("accepting from the initial state must be refused"),
    }
    // the refused input left no trace
    assert!(a.take_events().is_empty());
    assert!(a.take_output().is_empty());
}

#[test]
fn test_close_messages_ignored_when_unmatched() {
    let mut a = fresh_client();
    assert!(a.close_file().is_ok());
    assert!(a.close_transfer().is_ok());
    assert!(a.take_events().is_empty());
    assert!(a.take_output().is_empty());
}

#[test]
fn test_disconnected_is_final() {
    let mut a = fresh_client();
    assert!(a.disconnect().is_ok());
    let events = a.take_events();
    assert_eq!(events.len(), 1);
    assert!(matches!(events[0], ClientEvent::Disconnected));
    // no input moves a disconnected machine anywhere
    assert!(a.start().is_err());
    assert!(a.feed_message(incoming_init()).is_err());
    assert!(a.close_transfer().is_ok());
    assert!(a.take_events().is_empty());
}

#[test]
fn test_determinism_concrete() {
    // the same input sequence produces the same events and output
    let run = || {
        let mut c = fresh_client();
        let mut refused = 0;
        if c.start().is_err() {
            refused += 1;
        }
        if c.feed_message(incoming_init()).is_err() {
            refused += 1;
        }
        if c.feed_message(Content::SendRequest(send_request("x", 1))).is_err() {
            refused += 1;
        }
        if c.accept_transfer().is_err() {
            refused += 1;
        }
        if c.accept_transfer().is_err() {
            refused += 1;
        }
        let events: Vec<String> = c.take_events().iter().map(|e| format!("{:?}", name_of(e))).collect();
        (refused, events, c.take_output())
    };
    let first = run();
    let second = run();
    assert_eq!(first, second);
}

fn name_of(e: &ClientEvent) -> &'static str {
    match e {
        ClientEvent::Connected => "Connected",
        ClientEvent::Disconnected => "Disconnected",
        ClientEvent::InboundTransferOffered(_) => "InboundTransferOffered",
        ClientEvent::OutboundTransferOffered(_) => "OutboundTransferOffered",
        ClientEvent::TransferAccepted => "TransferAccepted",
        ClientEvent::TransferRejected => "TransferRejected",
        ClientEvent::InboundFileOpening(_, _) => "InboundFileOpening",
        ClientEvent::FileTransferStarted(_, _) => "FileTransferStarted",
        ClientEvent::Chunk(_) => "Chunk",
        ClientEvent::FileClosed(_) => "FileClosed",
        ClientEvent::TransferClosed => "TransferClosed",
    }
}

#[test]
fn test_missing_file_info_is_state_error() {
    let mut b = fresh_client();
    assert!(b.feed_message(incoming_init()).is_ok());
    b.take_events();
    assert!(b.feed_message(Content::SendRequest(send_request("x", 1))).is_ok());
    assert!(b.accept_transfer().is_ok());
    // a peer that opens a file without describing it
    assert!(b.feed_message(Content::OpenFile(OpenFile { file_info: None })).is_ok());
    b.take_events();
    match b.confirm_file_opened(shift::api::FileOpened { continue_from: 0 }) {
        Err(ClientError::InvalidStateError(_)) => {}
        _ => panic!("confirming an undescribed file must be refused"),
    }
}

#[test]
fn test_file_transfer_sides_exclusive() {
    // while an inbound file is open, the machine refuses to stream
    // outbound chunks; the two directions cannot be active at once
    let mut b = fresh_client();
    b.feed_message(incoming_init()).unwrap();
    b.take_events();
    b.feed_message(Content::SendRequest(send_request("x", 3))).unwrap();
    b.accept_transfer().unwrap();
    b.feed_message(Content::OpenFile(OpenFile {
        file_info: Some(FileInfo { name: "x".to_string(), size: 3, mode: 0o644 }),
    }))
    .unwrap();
    b.confirm_file_opened(shift::api::FileOpened { continue_from: 0 }).unwrap();
    assert!(b
        .send_chunk(shift::api::Chunk { offset: 0, data: vec![1] })
        .is_err());
    assert!(b
        .feed_message(Content::Chunk(shift::api::Chunk { offset: 0, data: vec![1] }))
        .is_ok());
}
