use shift::b64::b64_decode;
use shift::b64::b64_encode;

#[test]
fn test_b64_known_vectors() {
    assert_eq!(b64_encode("test".as_bytes()), "dGVzdA==".as_bytes().to_vec());
    assert_eq!(b64_encode("testtest".as_bytes()), "dGVzdHRlc3Q=".as_bytes().to_vec());
    assert_eq!(b64_encode("a".as_bytes()), "YQ==".as_bytes().to_vec());
    assert_eq!(b64_encode("ab".as_bytes()), "YWI=".as_bytes().to_vec());
    assert_eq!(b64_encode("abc".as_bytes()), "YWJj".as_bytes().to_vec());
    assert_eq!(b64_encode(&[]), Vec::<u8>::new());
    assert_eq!(b64_encode(&[251, 239, 190]), "++++".as_bytes().to_vec());
    assert_eq!(b64_encode(&[255, 255, 255]), "////".as_bytes().to_vec());
}

#[test]
fn test_b64_decode_known_vectors() {
    assert_eq!(b64_decode("dGVzdA==".as_bytes()), Some("test".as_bytes().to_vec()));
    assert_eq!(b64_decode("YQ==".as_bytes()), Some("a".as_bytes().to_vec()));
    assert_eq!(b64_decode("YWI=".as_bytes()), Some("ab".as_bytes().to_vec()));
    assert_eq!(b64_decode("YWJj".as_bytes()), Some("abc".as_bytes().to_vec()));
    assert_eq!(b64_decode(&[]), Some(Vec::new()));
}

#[test]
fn test_b64_round_trip_all_lengths() {
    for n in 0..48usize {
        let mut data: Vec<u8> = Vec::new();
        for i in 0..n {
            data.push((i * 37 + n * 11) as u8);
        }
        let encoded = b64_encode(&data);
        assert_eq!(encoded.len() % 4, 0);
        assert_eq!(b64_decode(&encoded), Some(data));
    }
}

#[test]
fn test_b64_decode_rejects_malformed() {
    // not a multiple of four
    assert_eq!(b64_decode("dGV".as_bytes()), None);
    // a byte outside the alphabet
    assert_eq!(b64_decode("dG!z".as_bytes()), None);
    // pad in the middle
    assert_eq!(b64_decode("dG=zdA==".as_bytes()), None);
    // pad at second-to-last but not last
    assert_eq!(b64_decode("dG=z".as_bytes()), None);
    // non-canonical: dangling low bits under a double pad
    assert_eq!(b64_decode("aR==".as_bytes()), None);
    // non-canonical: dangling low bits under a single pad
    assert_eq!(b64_decode("YWJ=".as_bytes()), None);
}
