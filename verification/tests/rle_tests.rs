use codec::error::{CompressError, DecodeError, EncodeError};
use codec::rle::{runs, Run, RLE};

#[test]
fn rle_record_format() {
    // "aab": a run of two 'a' bytes, then one 'b', nine bytes each.
    let enc = RLE.encode("aab".to_string());
    assert_eq!(
        enc,
        vec![0, 0, 0, 0, 0, 0, 0, 2, 97, 0, 0, 0, 0, 0, 0, 0, 1, 98]
    );
}

#[test]
fn rle_empty_roundtrip() {
    let enc = RLE.encode("".to_string());
    assert_eq!(enc, Vec::<u8>::new());
    assert_eq!(RLE.decode(enc).unwrap(), "".to_string());
}

#[test]
fn rle_rejects_partial_record() {
    assert!(RLE.decode(vec![1, 2, 3]).is_err());
    assert!(RLE.decode(vec![0, 0, 0, 0, 0, 0, 0, 1]).is_err());
}

#[test]
fn rle_rejects_invalid_utf8() {
    assert!(RLE.decode(vec![0, 0, 0, 0, 0, 0, 0, 1, 0xFF]).is_err());
}

#[test]
fn runs_are_maximal() {
    let rs = runs(&vec![1u8, 1, 2, 2, 2, 3]);
    assert_eq!(rs.len(), 3);
    assert_eq!((rs[0].val, rs[0].len), (1, 2));
    assert_eq!((rs[1].val, rs[1].len), (2, 3));
    assert_eq!((rs[2].val, rs[2].len), (3, 1));
    assert!(runs(&Vec::new()).is_empty());
}

#[test]
fn run_into_bytes_repeats() {
    let run = Run { val: 7, len: 3 };
    assert_eq!(run.into_bytes(), vec![7u8, 7, 7]);
}

#[test]
fn run_record_roundtrip() {
    let rec = Run { val: 65, len: 5 }.into_record();
    assert_eq!(rec, vec![0, 0, 0, 0, 0, 0, 0, 5, 65]);
    let back = Run::from_record(rec.as_slice()).unwrap();
    assert_eq!((back.val, back.len), (65, 5));
    assert!(Run::from_record(&[1, 2]).is_err());
}

#[test]
fn compress_error_wraps_both_sides() {
    assert!(matches!(
        CompressError::from(DecodeError),
        CompressError::DecodeError(_)
    ));
    assert!(matches!(
        CompressError::from(EncodeError),
        CompressError::EncodeError(_)
    ));
}
