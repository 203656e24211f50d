use stream_salvage::alphabet::is_base64_char;
use stream_salvage::decode::{
    decode_with, is_well_padded, permissive_decode, DecodeFailure, DecodePolicy, PaddingPolicy,
};
use stream_salvage::sanitize::sanitize;

fn chars(s: &str) -> Vec<char> {
    s.chars().collect()
}

#[test]
fn sanitizer_keeps_only_data_symbols() {
    assert_eq!(sanitize("Ab+/ 9=\n\té-x"), chars("Ab+/9x"));
    assert_eq!(sanitize(""), Vec::<char>::new());
    assert_eq!(sanitize("== \r\n"), Vec::<char>::new());
}

#[test]
fn sanitizing_twice_is_sanitizing_once() {
    for text in ["SGVs bG8=\n", "a\u{e9}b=c", "", "+/+/ =="] {
        let once = sanitize(text);
        let once_text: String = once.iter().collect();
        assert_eq!(sanitize(&once_text), once);
    }
}

#[test]
fn alphabet_membership() {
    for c in ['A', 'Z', 'a', 'z', '0', '9', '+', '/'] {
        assert!(is_base64_char(c));
    }
    for c in ['=', ' ', '\n', '-', '_', '\u{e9}', '\u{ff21}'] {
        assert!(!is_base64_char(c));
    }
}

#[test]
fn padding_is_optional() {
    let padded = permissive_decode(&chars("QUI=")).unwrap();
    assert_eq!(padded, b"AB".to_vec());
    assert_eq!(permissive_decode(&chars("QUI")).unwrap(), padded);
    let two = permissive_decode(&chars("QQ==")).unwrap();
    assert_eq!(two, b"A".to_vec());
    assert_eq!(permissive_decode(&chars("QQ=")).unwrap(), two);
    assert_eq!(permissive_decode(&chars("QQ")).unwrap(), two);
}

#[test]
fn trailing_bits_are_dropped() {
    assert_eq!(permissive_decode(&chars("QR")).unwrap(), b"A".to_vec());
    assert_eq!(permissive_decode(&chars("QUJ")).unwrap(), b"AB".to_vec());
}

#[test]
fn full_groups_decode() {
    assert_eq!(permissive_decode(&chars("QUJD")).unwrap(), b"ABC".to_vec());
    assert_eq!(permissive_decode(&chars("/+/+")).unwrap(), vec![0xff, 0xef, 0xfe]);
    assert_eq!(permissive_decode(&chars("")).unwrap(), Vec::<u8>::new());
}

#[test]
fn lone_final_symbol_is_invalid_length() {
    assert_eq!(permissive_decode(&chars("QUJDR")), Err(DecodeFailure::InvalidLength { length: 5 }));
    assert_eq!(permissive_decode(&chars("Q")), Err(DecodeFailure::InvalidLength { length: 1 }));
}

#[test]
fn misplaced_padding_or_foreign_characters_are_refused() {
    assert_eq!(permissive_decode(&chars("QQ=A")), Err(DecodeFailure::NotBase64));
    assert_eq!(permissive_decode(&chars("QUJD=")), Err(DecodeFailure::NotBase64));
    assert_eq!(permissive_decode(&chars("QUI==")), Err(DecodeFailure::NotBase64));
    assert_eq!(permissive_decode(&chars("QU I")), Err(DecodeFailure::NotBase64));
    assert!(!is_well_padded(&chars("Q=")));
    assert!(is_well_padded(&chars("QQ==")));
    assert!(is_well_padded(&chars("")));
}

fn policy(allow_trailing_bits: bool, padding: PaddingPolicy) -> DecodePolicy {
    DecodePolicy { allow_trailing_bits, padding }
}

#[test]
fn permissive_policy_is_indifferent_and_tolerant() {
    assert_eq!(DecodePolicy::permissive(), policy(true, PaddingPolicy::Indifferent));
}

#[test]
fn canonical_padding_policy() {
    let p = policy(true, PaddingPolicy::Canonical);
    assert_eq!(decode_with(&chars("QQ=="), p), Ok(b"A".to_vec()));
    assert_eq!(decode_with(&chars("QQ="), p), Err(DecodeFailure::InvalidPadding));
    assert_eq!(decode_with(&chars("QQ"), p), Err(DecodeFailure::InvalidPadding));
    assert_eq!(decode_with(&chars("QUJD"), p), Ok(b"ABC".to_vec()));
    assert_eq!(decode_with(&chars(""), p), Ok(Vec::new()));
}

#[test]
fn absent_padding_policy() {
    let p = policy(true, PaddingPolicy::Absent);
    assert_eq!(decode_with(&chars("QQ"), p), Ok(b"A".to_vec()));
    assert_eq!(decode_with(&chars("QQ=="), p), Err(DecodeFailure::InvalidPadding));
    assert_eq!(decode_with(&chars("QUI="), p), Err(DecodeFailure::InvalidPadding));
}

#[test]
fn strict_trailing_bits() {
    let p = policy(false, PaddingPolicy::Indifferent);
    assert_eq!(decode_with(&chars("QR"), p), Err(DecodeFailure::InvalidLastSymbol { offset: 1, byte: b'R' }));
    assert_eq!(decode_with(&chars("QUJ"), p), Err(DecodeFailure::InvalidLastSymbol { offset: 2, byte: b'J' }));
    assert_eq!(decode_with(&chars("QQ"), p), Ok(b"A".to_vec()));
    assert_eq!(decode_with(&chars("QUI="), p), Ok(b"AB".to_vec()));
    let strict = policy(false, PaddingPolicy::Canonical);
    assert_eq!(decode_with(&chars("QR=="), strict), Err(DecodeFailure::InvalidLastSymbol { offset: 1, byte: b'R' }));
    assert_eq!(decode_with(&chars("QR"), strict), Err(DecodeFailure::InvalidPadding));
}

#[test]
fn length_is_checked_first() {
    let strict = policy(false, PaddingPolicy::Canonical);
    assert_eq!(decode_with(&chars("Q"), strict), Err(DecodeFailure::InvalidLength { length: 1 }));
    assert_eq!(decode_with(&chars("QUJDR"), strict), Err(DecodeFailure::InvalidLength { length: 5 }));
    assert_eq!(decode_with(&chars("QQ=A"), strict), Err(DecodeFailure::NotBase64));
}
