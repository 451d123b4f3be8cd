use codec::bits::Bits;
use codec::lzw::LZW;
use codec::rle::RLE;

#[test]
fn lzw_encode_decode() {
    let tests = vec![
        "".to_string(),
        "abc".to_string(),
        "aabccd".to_string(),
        "aab0bb0012".to_string(),
        "λaé".to_string(),
        "a".repeat(1000),
    ];
    for test in tests.iter() {
        let roundtrip = LZW.decode(LZW.encode(test.to_string()));
        assert!(roundtrip.is_ok());
        assert_eq!(roundtrip.unwrap(), test.to_string());
    }
}

#[test]
fn bits_fmt() {
    assert_eq!(
        Bits {
            bits: vec![(1, 2), (3, 5)]
        }
        .to_binary_string(),
        "0100011"
    );
    assert_eq!(
        Bits {
            bits: vec![(1, 2), (3, 5), (7, 3)]
        }
        .to_binary_string(),
        "0100011111"
    );
}

#[test]
fn bits_to_bytes() {
    let bits = Bits {
        bits: vec![(1, 2), (3, 5)],
    };
    assert_eq!(bits.into_bytes(), vec![35]);
    let bits = Bits {
        bits: vec![(1, 2), (3, 5), (7, 3)],
    };
    assert_eq!(bits.into_bytes(), vec![71, 3]);
}

#[test]
fn rle_encode_decode() {
    let tests = vec![
        "".to_string(),
        "abc".to_string(),
        "aabccd".to_string(),
        "aab0bb0012".to_string(),
        "λaé".to_string(),
        "a".repeat(1000),
    ];
    for test in tests.iter() {
        let roundtrip = RLE.decode(RLE.encode(test.to_string()));
        assert!(roundtrip.is_ok());
        assert_eq!(roundtrip.unwrap(), test.to_string());
    }
}
