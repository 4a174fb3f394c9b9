use shift::transport::TransportConfig;
use shift::transport::TransportOutput;
use shift::transport::TransportReader;
use shift::transport::TransportWriter;

fn config() -> TransportConfig {
    TransportConfig::new()
}

#[test]
fn test_reader_single() {
    let transport = config();
    let mut buf: Vec<u8> = Vec::new();
    buf.extend_from_slice("passthrough".as_bytes());
    buf.extend_from_slice(&transport.prefix);
    buf.extend_from_slice("dGVzdA==".as_bytes());
    buf.extend_from_slice(&transport.suffix);
    buf.extend_from_slice("passthrough".as_bytes());
    let mut reader = TransportReader::new(config());
    let result = reader.feed(&buf);
    assert_eq!(result.len(), 3);
    assert_eq!(
        result[0],
        TransportOutput::Passthrough("passthrough".as_bytes().to_vec())
    );
    assert_eq!(result[1], TransportOutput::Packet("test".as_bytes().to_vec()));
    assert_eq!(
        result[2],
        TransportOutput::Passthrough("passthrough".as_bytes().to_vec())
    );
}

#[test]
fn test_reader_split() {
    let transport = config();
    let mut reader = TransportReader::new(config());
    assert_eq!(reader.feed(&transport.prefix).len(), 0);
    assert_eq!(reader.feed("dGVzdH".as_bytes()).len(), 0);
    assert_eq!(reader.feed("Rlc3Q=".as_bytes()).len(), 0);

    let result = reader.feed(&transport.suffix);
    assert_eq!(result.len(), 1);
    assert_eq!(result[0], TransportOutput::Packet("testtest".as_bytes().to_vec()));
}

#[test]
fn test_reader_mutiple() {
    let transport = config();
    let mut buf: Vec<u8> = Vec::new();
    buf.extend_from_slice(&transport.prefix);
    buf.extend_from_slice("dGVzdA==".as_bytes());
    buf.extend_from_slice(&transport.suffix);
    buf.extend_from_slice(&transport.prefix);
    buf.extend_from_slice("dGV".as_bytes());
    let mut reader = TransportReader::new(config());
    let result = reader.feed(&buf);
    assert_eq!(result[0], TransportOutput::Packet("test".as_bytes().to_vec()));

    let mut buf: Vec<u8> = Vec::new();
    buf.extend_from_slice("zdA==".as_bytes());
    buf.extend_from_slice(&transport.suffix);
    let result = reader.feed(&buf);
    assert_eq!(result[0], TransportOutput::Packet("test".as_bytes().to_vec()));
}

#[test]
fn test_writer_round_trip() {
    let mut writer = TransportWriter::new(config());
    writer.write(&[0u8, 1, 2, 250, 251, 252]);
    let wire = writer.take_output();
    let mut reader = TransportReader::new(config());
    let result = reader.feed(&wire);
    assert_eq!(result.len(), 1);
    assert_eq!(result[0], TransportOutput::Packet(vec![0u8, 1, 2, 250, 251, 252]));
}

#[test]
fn test_writer_empty_payload() {
    let mut writer = TransportWriter::new(config());
    writer.write(&[]);
    let wire = writer.take_output();
    let mut reader = TransportReader::new(config());
    let result = reader.feed(&wire);
    assert_eq!(result.len(), 1);
    assert_eq!(result[0], TransportOutput::Packet(Vec::new()));
}

#[test]
fn test_reader_bad_base64_dropped() {
    let transport = config();
    let mut buf: Vec<u8> = Vec::new();
    buf.extend_from_slice(&transport.prefix);
    buf.extend_from_slice("!!!!".as_bytes());
    buf.extend_from_slice(&transport.suffix);
    buf.extend_from_slice("after".as_bytes());
    let mut reader = TransportReader::new(config());
    let result = reader.feed(&buf);
    assert_eq!(result.len(), 1);
    assert_eq!(result[0], TransportOutput::Passthrough("after".as_bytes().to_vec()));
}

#[test]
fn test_reader_partial_prefix_held_back() {
    let transport = config();
    let mut reader = TransportReader::new(config());
    // a trailing ESC could open a prefix, so it must stay buffered
    let mut buf: Vec<u8> = Vec::new();
    buf.extend_from_slice("hello".as_bytes());
    buf.push(0x1b);
    let result = reader.feed(&buf);
    assert_eq!(result.len(), 1);
    assert_eq!(result[0], TransportOutput::Passthrough("hello".as_bytes().to_vec()));
    // the held byte was not part of a prefix after all
    let result = reader.feed("world".as_bytes());
    assert_eq!(result.len(), 1);
    let mut expected: Vec<u8> = Vec::new();
    expected.push(0x1b);
    expected.extend_from_slice("world".as_bytes());
    assert_eq!(result[0], TransportOutput::Passthrough(expected));
    // a held partial prefix can still complete into a packet
    let mut start: Vec<u8> = Vec::new();
    start.extend_from_slice("x".as_bytes());
    start.extend_from_slice(&transport.prefix[..6]);
    let result = reader.feed(&start);
    assert_eq!(result.len(), 1);
    assert_eq!(result[0], TransportOutput::Passthrough("x".as_bytes().to_vec()));
    let mut end: Vec<u8> = Vec::new();
    end.extend_from_slice(&transport.prefix[6..]);
    end.extend_from_slice("dGVzdA==".as_bytes());
    end.extend_from_slice(&transport.suffix);
    let result = reader.feed(&end);
    assert_eq!(result.len(), 1);
    assert_eq!(result[0], TransportOutput::Packet("test".as_bytes().to_vec()));
}

#[test]
fn test_torn_frame_recovers() {
    // a prefix without a suffix stalls emission; a later suffix releases
    // the packet
    let transport = config();
    let mut reader = TransportReader::new(config());
    let mut buf: Vec<u8> = Vec::new();
    buf.extend_from_slice(&transport.prefix);
    buf.extend_from_slice("aGVsbG8h".as_bytes());
    assert_eq!(reader.feed(&buf).len(), 0);
    assert_eq!(reader.feed(&[]).len(), 0);
    let result = reader.feed(&transport.suffix);
    assert_eq!(result.len(), 1);
    assert_eq!(result[0], TransportOutput::Packet("hello!".as_bytes().to_vec()));
}

#[test]
fn test_passthrough_fidelity_bulk() {
    // 1 MiB of pseudo-random carrier bytes with no ESC, interleaved with
    // packets, must pass through byte-exact and in order
    let transport = config();
    let mut noise: Vec<u8> = Vec::with_capacity(1 << 20);
    let mut x: u32 = 0x2545f491;
    for _ in 0..(1 << 20) {
        x = x.wrapping_mul(1664525).wrapping_add(1013904223);
        let mut b = (x >> 24) as u8;
        if b == 0x1b {
            b = 0x2b;
        }
        noise.push(b);
    }
    let mut writer = TransportWriter::new(config());
    writer.write("mid-stream packet".as_bytes());
    let packet = writer.take_output();

    let half = noise.len() / 2;
    let mut wire: Vec<u8> = Vec::new();
    wire.extend_from_slice(&noise[..half]);
    wire.extend_from_slice(&packet);
    wire.extend_from_slice(&noise[half..]);

    let mut reader = TransportReader::new(config());
    let mut passed: Vec<u8> = Vec::new();
    let mut packets: Vec<Vec<u8>> = Vec::new();
    let mut boundary_at: Option<usize> = None;
    for out in reader.feed(&wire) {
        match out {
            TransportOutput::Passthrough(d) => passed.extend_from_slice(&d),
            TransportOutput::Packet(p) => {
                boundary_at = Some(passed.len());
                packets.push(p);
            }
        }
    }
    assert_eq!(passed, noise);
    assert_eq!(packets.len(), 1);
    assert_eq!(packets[0], "mid-stream packet".as_bytes().to_vec());
    // the packet arrived exactly between the two noise halves
    assert_eq!(boundary_at, Some(half));
    let _ = transport;
}

#[test]
fn test_split_invariance_concrete() {
    // feeding a stream in two pieces yields the same bytes and packets as
    // feeding it at once, wherever the cut falls
    let transport = config();
    let mut wire: Vec<u8> = Vec::new();
    wire.extend_from_slice("abc".as_bytes());
    let mut writer = TransportWriter::new(config());
    writer.write("payload".as_bytes());
    wire.extend_from_slice(&writer.take_output());
    wire.extend_from_slice("tail\x1b]13".as_bytes());
    let _ = transport;

    let mut whole_reader = TransportReader::new(config());
    let whole = flatten(whole_reader.feed(&wire));

    for cut in 0..=wire.len() {
        let mut reader = TransportReader::new(config());
        let mut outs = reader.feed(&wire[..cut]);
        outs.extend(reader.feed(&wire[cut..]));
        assert_eq!(flatten(outs), whole);
    }
}

fn flatten(outs: Vec<TransportOutput>) -> Vec<(bool, Vec<u8>)> {
    // normalize: merge adjacent passthrough stretches, drop empties
    let mut r: Vec<(bool, Vec<u8>)> = Vec::new();
    for o in outs {
        match o {
            TransportOutput::Passthrough(d) => {
                if d.is_empty() {
                    continue;
                }
                if let Some((false, last)) = r.last_mut() {
                    last.extend_from_slice(&d);
                } else {
                    r.push((false, d));
                }
            }
            TransportOutput::Packet(p) => r.push((true, p)),
        }
    }
    r
}
