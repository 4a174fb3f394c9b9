use shift::api::Chunk;
use shift::api::Content;
use shift::api::Disconnect;
use shift::api::FileInfo;
use shift::api::FileOpened;
use shift::api::Init;
use shift::api::OpenFile;
use shift::api::ReceiveRequest;
use shift::api::SendRequest;
use shift::codec::decode_message;
use shift::codec::encode_message;

fn round_trip(m: &Content) -> Content {
    let bytes = encode_message(m);
    decode_message(&bytes).expect("a fresh encoding must decode")
}

#[test]
fn test_codec_init() {
    let m = Content::Init(Init {
        version: 1,
        features: vec!["resume".to_string(), "dirs".to_string()],
    });
    match round_trip(&m) {
        Content::Init(i) => {
            assert_eq!(i.version, 1);
            assert_eq!(i.features, vec!["resume".to_string(), "dirs".to_string()]);
        }
        _ => panic!("wrong variant"),
    }
}

#[test]
fn test_codec_file_info_variants() {
    let m = Content::SendRequest(SendRequest {
        file_info: Some(FileInfo {
            name: "a/b c.txt".to_string(),
            size: 123456789012345,
            mode: 0o644,
        }),
    });
    match round_trip(&m) {
        Content::SendRequest(s) => {
            let fi = s.file_info.expect("file info kept");
            assert_eq!(fi.name, "a/b c.txt");
            assert_eq!(fi.size, 123456789012345);
            assert_eq!(fi.mode, 0o644);
        }
        _ => panic!("wrong variant"),
    }
    let m = Content::OpenFile(OpenFile { file_info: None });
    match round_trip(&m) {
        Content::OpenFile(o) => assert!(o.file_info.is_none()),
        _ => panic!("wrong variant"),
    }
}

#[test]
fn test_codec_chunk() {
    let m = Content::Chunk(Chunk {
        offset: 600000,
        data: vec![0u8, 7, 27, 255, 128],
    });
    match round_trip(&m) {
        Content::Chunk(c) => {
            assert_eq!(c.offset, 600000);
            assert_eq!(c.data, vec![0u8, 7, 27, 255, 128]);
        }
        _ => panic!("wrong variant"),
    }
}

#[test]
fn test_codec_plain_variants() {
    assert!(matches!(
        round_trip(&Content::Disconnect(Disconnect {})),
        Content::Disconnect(_)
    ));
    assert!(matches!(
        round_trip(&Content::FileOpened(FileOpened { continue_from: 600000 })),
        Content::FileOpened(FileOpened { continue_from: 600000 })
    ));
    let m = Content::ReceiveRequest(ReceiveRequest {
        allow_directories: false,
        allow_multiple: true,
    });
    match round_trip(&m) {
        Content::ReceiveRequest(r) => {
            assert!(!r.allow_directories);
            assert!(r.allow_multiple);
        }
        _ => panic!("wrong variant"),
    }
}

#[test]
fn test_codec_rejects_malformed() {
    // empty buffer
    assert!(decode_message(&[]).is_none());
    // unknown tag
    assert!(decode_message(&[0u8]).is_none());
    assert!(decode_message(&[12u8]).is_none());
    // trailing garbage after a complete message
    let mut bytes = encode_message(&Content::Disconnect(Disconnect {}));
    bytes.push(0);
    assert!(decode_message(&bytes).is_none());
    // truncated field
    let bytes = encode_message(&Content::FileOpened(FileOpened { continue_from: 9 }));
    assert!(decode_message(&bytes[..bytes.len() - 1]).is_none());
    // a name that is not UTF-8
    let mut bad: Vec<u8> = Vec::new();
    bad.push(4); // SendRequest
    bad.push(1); // file info present
    bad.extend_from_slice(&2u64.to_le_bytes());
    bad.extend_from_slice(&[0xff, 0xfe]);
    bad.extend_from_slice(&0u64.to_le_bytes());
    bad.extend_from_slice(&0u32.to_le_bytes());
    assert!(decode_message(&bad).is_none());
}
