use codec::lzw::{bits, LZWDict, LZW};

#[test]
fn lzw_empty_input_is_terminator_only() {
    // A fresh dictionary has max_code 256, so the initial width is 9 bits:
    // the terminator alone packs into two bytes of zeros.
    let enc = LZW.encode("".to_string());
    assert_eq!(enc, vec![0, 0]);
    let dec = LZW.decode(enc);
    assert_eq!(dec.unwrap(), "".to_string());
}

#[test]
fn lzw_aab_roundtrip() {
    let dec = LZW.decode(LZW.encode("aab".to_string()));
    assert_eq!(dec.unwrap(), "aab".to_string());
}

#[test]
fn lzw_repeats_compress() {
    // Ten repeated bytes must come out as fewer than ten emitted codes.
    let dict = LZWDict::new(LZW::alph());
    let data = vec![b'a'; 10];
    let acc = bits(data.as_slice(), dict);
    // Every pair but the final terminator carries a data code.
    assert!(acc.bits.len() - 1 < 10);
}

#[test]
fn lzw_terminator_ends_stream() {
    let dict = LZWDict::new(LZW::alph());
    let data = vec![b'a', b'b', b'c'];
    let acc = bits(data.as_slice(), dict);
    let last = acc.bits[acc.bits.len() - 1];
    assert_eq!(last, (0usize, 9usize));
}

#[test]
fn lzw_kwk_case_roundtrips() {
    // "aaaa" makes the encoder emit a code the decoder has not inserted yet.
    let dec = LZW.decode(LZW.encode("aaaa".to_string()));
    assert_eq!(dec.unwrap(), "aaaa".to_string());
}

#[test]
fn lzw_rejects_code_beyond_max() {
    // First 9 bits read as 258, one past the largest acceptable code 257.
    let res = LZW.decode(vec![0b10000001, 0]);
    assert!(res.is_err());
}

#[test]
fn lzw_rejects_invalid_utf8() {
    // Code 256 is the single byte 0xFF, which alone is not valid UTF-8.
    let res = LZW.decode(vec![0b10000000, 0, 0]);
    assert!(res.is_err());
}

#[test]
fn dict_widths() {
    assert_eq!(LZWDict::_nbits(256), 9);
    assert_eq!(LZWDict::_nbits(511), 9);
    assert_eq!(LZWDict::_nbits(512), 10);
    assert_eq!(LZWDict::_nbits(0), 0);
    let dict = LZWDict::new(LZW::alph());
    assert_eq!(dict.nbits(), 9);
    assert_eq!(dict.nbits_next(), 9);
}

#[test]
fn dict_insert_and_lookup() {
    let mut dict = LZWDict::new(LZW::alph());
    assert_eq!(dict.max_code, 256);
    assert!(dict.contains_key(&[7u8]));
    assert!(!dict.contains_key(&[7u8, 8u8]));
    assert_eq!(dict.code_of(&[0u8]), 1);
    assert_eq!(dict.code_of(&[255u8]), 256);
    dict.insert(vec![7u8, 8u8]);
    assert_eq!(dict.max_code, 257);
    assert!(dict.contains_key(&[7u8, 8u8]));
    assert_eq!(dict.code_of(&[7u8, 8u8]), 257);
}

#[test]
fn rev_dict_insert_and_lookup() {
    let mut dict = LZWDict::new(LZW::alph());
    assert!(dict.reversed.contains_key(&1));
    assert!(dict.reversed.contains_key(&256));
    assert!(!dict.reversed.contains_key(&0));
    assert!(!dict.reversed.contains_key(&257));
    assert_eq!(dict.reversed.phrase_of(256), vec![255u8]);
    dict.rinsert(vec![1u8, 2u8]);
    assert!(dict.reversed.contains_key(&257));
    assert_eq!(dict.reversed.phrase_of(257), vec![1u8, 2u8]);
}

#[test]
fn alph_is_single_bytes() {
    let a = LZW::alph();
    assert_eq!(a.len(), 256);
    assert_eq!(a[0], vec![0u8]);
    assert_eq!(a[255], vec![255u8]);
}

#[test]
fn lzw_widths_never_decrease() {
    let dict = LZWDict::new(LZW::alph());
    let data: Vec<u8> = "aab0bb0012".bytes().collect();
    let acc = bits(data.as_slice(), dict);
    for w in acc.bits.windows(2) {
        assert!(w[0].1 <= w[1].1);
    }
}

#[test]
fn dictionaries_stay_synchronized() {
    // Driven over the same phrases, the forward map of one dictionary and
    // the reverse map of another assign the same codes; the decoder's insert
    // mirrors each phrase into both of its own maps at once.
    let mut enc_dict = LZWDict::new(LZW::alph());
    let mut dec_dict = LZWDict::new(LZW::alph());
    let phrases: Vec<Vec<u8>> = vec![vec![97, 97], vec![97, 98], vec![98, 48]];
    for p in phrases.iter() {
        enc_dict.insert(p.clone());
        dec_dict.rinsert(p.clone());
    }
    assert_eq!(enc_dict.max_code, dec_dict.max_code);
    for p in phrases.iter() {
        let code = enc_dict.code_of(p.as_slice());
        assert_eq!(dec_dict.reversed.phrase_of(code), p.clone());
        assert_eq!(dec_dict.code_of(p.as_slice()), code);
        assert!(dec_dict.contains_key(p.as_slice()));
    }
}

#[test]
fn lzw_aab_exact_stream() {
    // Codes 98 ('a'), 98 ('a'), 99 ('b'), 0, each 9 bits wide, packed
    // most-significant bit first with the final four bits right-aligned.
    let enc = LZW.encode("aab".to_string());
    assert_eq!(enc, vec![49, 24, 140, 96, 0]);
    assert_eq!(LZW.decode(enc).unwrap(), "aab".to_string());
}

#[test]
fn lzw_ignores_appended_zero_bytes() {
    let mut enc = LZW.encode("aab".to_string());
    enc.push(0);
    enc.push(0);
    assert_eq!(LZW.decode(enc).unwrap(), "aab".to_string());
}
