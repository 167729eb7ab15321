use rpow_miner::hex::{hex_splits_character, hex_to_bytes};

#[test]
fn pairs_of_digits_become_bytes() {
    assert_eq!(hex_to_bytes(""), Ok(vec![]));
    assert_eq!(hex_to_bytes("00ff"), Ok(vec![0x00, 0xff]));
    assert_eq!(hex_to_bytes("DeadBEef"), Ok(vec![0xde, 0xad, 0xbe, 0xef]));
}

#[test]
fn plus_sign_may_stand_for_the_first_digit() {
    assert_eq!(hex_to_bytes("+f"), Ok(vec![15]));
    assert!(hex_to_bytes("f+").is_err());
    assert!(hex_to_bytes("-1").is_err());
    assert!(hex_to_bytes("++").is_err());
}

#[test]
fn odd_length_is_refused() {
    assert_eq!(hex_to_bytes("abc"), Err("Hex length ganjil: 3".to_string()));
    assert_eq!(
        hex_to_bytes("zzzzzzzzzzz"),
        Err("Hex length ganjil: 11".to_string())
    );
    // One character of three bytes.
    assert_eq!(
        hex_to_bytes("\u{20ac}"),
        Err("Hex length ganjil: 3".to_string())
    );
}

#[test]
fn first_bad_pair_is_named() {
    assert_eq!(
        hex_to_bytes("00112g33zz"),
        Err("Hex invalid di pos 4: invalid digit found in string".to_string())
    );
    assert_eq!(
        hex_to_bytes(" 1"),
        Err("Hex invalid di pos 0: invalid digit found in string".to_string())
    );
    // A character of two bytes makes up a pair of its own.
    assert_eq!(
        hex_to_bytes("00\u{e9}"),
        Err("Hex invalid di pos 2: invalid digit found in string".to_string())
    );
}

#[test]
fn pairs_agree_with_the_standard_library() {
    for a in 0u8..128 {
        for b in 0u8..128 {
            let text = String::from_utf8(vec![a, b]).unwrap();
            let expected = match u8::from_str_radix(&text, 16) {
                Ok(byte) => Ok(vec![byte]),
                Err(e) => Err(format!("Hex invalid di pos 0: {}", e)),
            };
            assert_eq!(hex_to_bytes(&text), expected);
        }
    }
}

#[test]
fn split_characters_are_noticed() {
    assert!(!hex_splits_character("00ff"));
    assert!(!hex_splits_character("\u{e9}"));
    assert!(!hex_splits_character("a\u{e9}"));
    assert!(hex_splits_character("a\u{e9}b"));
    assert!(hex_splits_character("00a\u{e9}b"));
    // An earlier bad pair comes first.
    assert!(!hex_splits_character("zza\u{e9}b"));
    assert!(hex_splits_character("\u{20ac}0"));
}

#[test]
fn spelled_bytes_decode() {
    for byte in 0u8..=255 {
        assert_eq!(hex_to_bytes(&format!("{:02x}", byte)), Ok(vec![byte]));
        assert_eq!(hex_to_bytes(&format!("{:02X}", byte)), Ok(vec![byte]));
    }
}
