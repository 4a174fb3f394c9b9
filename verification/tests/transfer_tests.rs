use std::collections::HashMap;

use shift::api::Chunk;
use shift::api::FileInfo;
use shift::machine::ClientEvent;
use shift::message::MessageOutput;
use shift::message::MessageReader;
use shift::transfer::next_chunk;
use shift::transfer::FileClient;
use shift::transfer::TransferError;
use shift::transfer::FileEntry;
use shift::transport::TransportConfig;

/// Deliver everything one side wrote to the other side's machine; collect
/// passthrough bytes.
fn pump(from: &mut FileClient, reader: &mut MessageReader, to: &mut FileClient) -> Vec<u8> {
    let wire = from.client.take_output();
    let mut passthrough = Vec::new();
    for out in reader.feed(&wire) {
        match out {
            MessageOutput::Message(m) => to.client.feed_message(m).expect("peer accepts"),
            MessageOutput::Passthrough(d) => passthrough.extend_from_slice(&d),
        }
    }
    passthrough
}

fn handshake(
    s: &mut FileClient,
    r: &mut FileClient,
    to_r: &mut MessageReader,
    to_s: &mut MessageReader,
) {
    s.client.start().unwrap();
    pump(s, to_r, r);
    let events = r.client.take_events();
    assert!(matches!(events[0], ClientEvent::Connected));
    pump(r, to_s, s);
    let events = s.client.take_events();
    assert!(matches!(events[0], ClientEvent::Connected));
}

/// Stream a file's bytes from `from` in chunks, then close the file, as the
/// sender task does.
fn stream_file(s: &mut FileClient, content: &[u8], from: u64) -> u64 {
    let mut transmitted = 0u64;
    let mut pos = from;
    while let Some((offset, len)) = next_chunk(pos, content.len() as u64, 524288) {
        let data = content[offset as usize..(offset + len) as usize].to_vec();
        s.client.send_chunk(Chunk { offset, data }).unwrap();
        transmitted += len;
        pos = offset + len;
    }
    s.client.close_file().unwrap();
    transmitted
}

struct Receiver {
    files: HashMap<String, Vec<u8>>,
    dirs: Vec<String>,
    open: Option<String>,
}

impl Receiver {
    fn new() -> Receiver {
        Receiver { files: HashMap::new(), dirs: Vec::new(), open: None }
    }

    /// Handle one receiver-side event batch as the event loop does: accept
    /// offers, open files (seeded with whatever is already on disk), verify
    /// and append chunks.
    fn handle_events(&mut self, r: &mut FileClient) -> (bool, bool) {
        let mut file_closed = false;
        let mut transfer_closed = false;
        for ev in r.client.take_events() {
            match ev {
                ClientEvent::InboundTransferOffered(_) => {
                    r.client.accept_transfer().unwrap();
                }
                ClientEvent::InboundFileOpening(_, file) => {
                    let info = file.file_info.expect("offered file is described");
                    if info.mode & 0o40000 != 0 {
                        self.dirs.push(info.name.clone());
                        r.confirm_directory().unwrap();
                    } else {
                        let on_disk =
                            self.files.entry(info.name.clone()).or_insert_with(Vec::new);
                        r.begin_receiving_file(on_disk.len() as u64).unwrap();
                        self.open = Some(info.name.clone());
                    }
                }
                ClientEvent::Chunk(chunk) => {
                    let wrote = r.apply_chunk(&chunk).expect("chunk in position");
                    assert!(wrote);
                    let name = self.open.clone().expect("a file is open");
                    self.files.get_mut(&name).unwrap().extend_from_slice(&chunk.data);
                }
                ClientEvent::FileClosed(f) => {
                    r.note_file_closed(&f);
                    self.open = None;
                    file_closed = true;
                }
                ClientEvent::TransferClosed => {
                    r.note_transfer_closed();
                    transfer_closed = true;
                }
                _ => {}
            }
        }
        (file_closed, transfer_closed)
    }
}

#[test]
fn test_single_file_hello() {
    // sender offers one file with bytes "hi\n"; receiver accepts and ends
    // with exactly those bytes
    let mut s = FileClient::new();
    let mut r = FileClient::new();
    let mut to_r = MessageReader::new(TransportConfig::new());
    let mut to_s = MessageReader::new(TransportConfig::new());
    handshake(&mut s, &mut r, &mut to_r, &mut to_s);

    let content = "hi\n".as_bytes();
    s.send(
        FileInfo { name: "a.txt".to_string(), size: 3, mode: 0o644 },
        Vec::new(),
        false,
    )
    .unwrap();
    pump(&mut s, &mut to_r, &mut r);
    let mut recv = Receiver::new();
    recv.handle_events(&mut r);
    pump(&mut r, &mut to_s, &mut s);

    let events = s.client.take_events();
    assert!(matches!(events[0], ClientEvent::TransferAccepted));
    let next = s.maybe_send_next_file().unwrap().expect("one file to send");
    assert_eq!(next, ".");
    s.open_next_file(next, 3, 0o644).unwrap();
    pump(&mut s, &mut to_r, &mut r);
    recv.handle_events(&mut r);
    pump(&mut r, &mut to_s, &mut s);

    let events = s.client.take_events();
    match &events[0] {
        ClientEvent::FileTransferStarted(_, fo) => assert_eq!(fo.continue_from, 0),
        _ => panic!("expected the transfer to start"),
    }
    stream_file(&mut s, content, 0);
    pump(&mut s, &mut to_r, &mut r);
    recv.handle_events(&mut r);

    for ev in s.client.take_events() {
        if let ClientEvent::FileClosed(f) = ev {
            s.note_file_closed(&f);
        }
    }
    assert_eq!(s.total_bytes_sent, 3);
    assert!(s.maybe_send_next_file().unwrap().is_none());
    pump(&mut s, &mut to_r, &mut r);
    let (_, closed) = recv.handle_events(&mut r);
    assert!(closed);
    assert_eq!(recv.files.get("."), Some(&"hi\n".as_bytes().to_vec()));
}

#[test]
fn test_resume_sends_only_the_tail() {
    // the receiver already has 600,000 bytes; exactly 400,000 travel
    let mut s = FileClient::new();
    let mut r = FileClient::new();
    let mut to_r = MessageReader::new(TransportConfig::new());
    let mut to_s = MessageReader::new(TransportConfig::new());
    handshake(&mut s, &mut r, &mut to_r, &mut to_s);

    let mut content = Vec::with_capacity(1_000_000);
    for i in 0..1_000_000usize {
        content.push((i % 251) as u8);
    }
    let mut recv = Receiver::new();
    recv.files.insert(".".to_string(), content[..600_000].to_vec());

    s.send(
        FileInfo { name: "big".to_string(), size: 1_000_000, mode: 0o644 },
        Vec::new(),
        false,
    )
    .unwrap();
    pump(&mut s, &mut to_r, &mut r);
    recv.handle_events(&mut r);
    pump(&mut r, &mut to_s, &mut s);
    s.client.take_events();
    let next = s.maybe_send_next_file().unwrap().expect("one file");
    s.open_next_file(next, 1_000_000, 0o644).unwrap();
    pump(&mut s, &mut to_r, &mut r);
    recv.handle_events(&mut r);
    pump(&mut r, &mut to_s, &mut s);

    let mut resume_from = None;
    for ev in s.client.take_events() {
        if let ClientEvent::FileTransferStarted(_, fo) = ev {
            resume_from = Some(fo.continue_from);
        }
    }
    assert_eq!(resume_from, Some(600_000));
    let transmitted = stream_file(&mut s, &content, 600_000);
    assert_eq!(transmitted, 400_000);
    pump(&mut s, &mut to_r, &mut r);
    recv.handle_events(&mut r);
    let got = recv.files.get(".").unwrap();
    assert_eq!(got.len(), 1_000_000);
    assert_eq!(got, &content);
}

#[test]
fn test_directory_tree() {
    // a directory with a file, a nested file and an empty directory arrives
    // as the same relative tree, and progress is monotone up to 30 bytes
    let mut s = FileClient::new();
    let mut r = FileClient::new();
    let mut to_r = MessageReader::new(TransportConfig::new());
    let mut to_s = MessageReader::new(TransportConfig::new());
    handshake(&mut s, &mut r, &mut to_r, &mut to_s);

    let mut contents: HashMap<String, (Vec<u8>, u32)> = HashMap::new();
    contents.insert("a".to_string(), (vec![b'a'; 10], 0o644));
    contents.insert("sub/b".to_string(), (vec![b'b'; 20], 0o600));
    contents.insert("sub2".to_string(), (Vec::new(), 0o40755));
    let entries = vec![
        FileEntry { rel_path: "a".to_string(), size: 10 },
        FileEntry { rel_path: "sub/b".to_string(), size: 20 },
        FileEntry { rel_path: "sub2".to_string(), size: 0 },
    ];

    s.send(
        FileInfo { name: "d".to_string(), size: 0, mode: 0o40755 },
        entries,
        true,
    )
    .unwrap();
    pump(&mut s, &mut to_r, &mut r);
    let mut recv = Receiver::new();
    recv.handle_events(&mut r);
    pump(&mut r, &mut to_s, &mut s);
    s.client.take_events();

    let mut progress: Vec<u64> = vec![0];
    loop {
        match s.maybe_send_next_file().unwrap() {
            Some(rel) => {
                let (data, mode) = contents.get(&rel).expect("walked entry").clone();
                s.open_next_file(rel, data.len() as u64, mode).unwrap();
                pump(&mut s, &mut to_r, &mut r);
                recv.handle_events(&mut r);
                pump(&mut r, &mut to_s, &mut s);
                let mut started_dir = false;
                let mut started_file = false;
                for ev in s.client.take_events() {
                    if let ClientEvent::FileTransferStarted(of, _) = ev {
                        if of.info.mode & 0o40000 != 0 {
                            started_dir = true;
                        } else {
                            started_file = true;
                        }
                    }
                }
                if started_dir {
                    // a directory entry carries no bytes
                    s.client.close_file().unwrap();
                } else {
                    assert!(started_file);
                    let (data, _) = contents
                        .get(s.current_file_path.as_ref().unwrap())
                        .unwrap()
                        .clone();
                    stream_file(&mut s, &data, 0);
                }
                pump(&mut s, &mut to_r, &mut r);
                recv.handle_events(&mut r);
                for ev in s.client.take_events() {
                    if let ClientEvent::FileClosed(f) = ev {
                        s.note_file_closed(&f);
                    }
                }
                progress.push(s.total_bytes_sent);
            }
            None => break,
        }
    }
    pump(&mut s, &mut to_r, &mut r);
    let (_, closed) = recv.handle_events(&mut r);
    assert!(closed);

    // monotone progress reaching the 30 payload bytes
    for w in progress.windows(2) {
        assert!(w[0] <= w[1]);
    }
    assert_eq!(*progress.last().unwrap(), 30);
    // the same relative tree arrived
    assert_eq!(recv.dirs, vec!["sub2".to_string()]);
    assert_eq!(recv.files.get("a"), Some(&vec![b'a'; 10]));
    assert_eq!(recv.files.get("sub/b"), Some(&vec![b'b'; 20]));
    assert_eq!(recv.files.len(), 2);
}

#[test]
fn test_chunk_offset_mismatch_is_hard_error() {
    let mut r = FileClient::new();
    r.client.feed_message(shift::api::Content::Init(shift::api::Init {
        version: 1,
        features: Vec::new(),
    }))
    .unwrap();
    r.client.take_events();
    // skip the negotiation: drive only the receiver-side bookkeeping
    assert!(r.begin_receiving_file(100).is_err());
    // out of protocol: the machine refuses ConfirmFileOpened outside a
    // transfer, and the chunk gate never opens
    let chunk = Chunk { offset: 0, data: vec![1, 2, 3] };
    assert_eq!(r.apply_chunk(&chunk), Ok(false));
}

#[test]
fn test_chunk_out_of_position_rejected() {
    let mut r = FileClient::new();
    r.receiver_open = true;
    r.receiver_position = 5;
    let late = Chunk { offset: 7, data: vec![9] };
    assert_eq!(r.apply_chunk(&late), Err(TransferError::ChunkOffsetMismatch));
    let in_place = Chunk { offset: 5, data: vec![9, 9] };
    assert_eq!(r.apply_chunk(&in_place), Ok(true));
    let replay = Chunk { offset: 5, data: vec![9, 9] };
    assert_eq!(r.apply_chunk(&replay), Err(TransferError::ChunkOffsetMismatch));
}
