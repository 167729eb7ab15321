use rpow_miner::pow::{digest_solves, message_solves, trailing_zero_bits, write_nonce};
use sha2::{Digest, Sha256};

#[test]
fn no_bytes_have_no_zero_bits() {
    assert_eq!(trailing_zero_bits(&[]), 0);
}

#[test]
fn zero_bits_are_counted_from_the_last_byte() {
    assert_eq!(trailing_zero_bits(&[0xff]), 0);
    assert_eq!(trailing_zero_bits(&[0x00, 0x01]), 0);
    assert_eq!(trailing_zero_bits(&[0x80]), 7);
    assert_eq!(trailing_zero_bits(&[0x01, 0x04, 0x00]), 10);
    assert_eq!(trailing_zero_bits(&[0x01, 0x00, 0x00]), 16);
    assert_eq!(trailing_zero_bits(&[0x00, 0x00]), 16);
    assert_eq!(trailing_zero_bits(&[0u8; 32]), 256);
}

#[test]
fn zero_bits_are_divisibility_by_powers_of_two() {
    for value in [1u32, 2, 3, 12, 256, 768, 40960, 0x8000_0000, 0x0001_0000] {
        let zeros = trailing_zero_bits(&value.to_be_bytes());
        for d in 0..32 {
            assert_eq!(zeros >= d, value % (1u32 << d) == 0);
        }
    }
}

#[test]
fn nonce_is_written_in_little_endian_order() {
    let mut buf = vec![0xaa, 0xbb, 0, 0, 0, 0, 0, 0, 0, 0];
    write_nonce(&mut buf, 0x0102_0304_0506_0708);
    assert_eq!(buf, vec![0xaa, 0xbb, 8, 7, 6, 5, 4, 3, 2, 1]);
    write_nonce(&mut buf, u64::MAX);
    assert_eq!(&buf[..2], &[0xaa, 0xbb]);
    assert_eq!(&buf[2..], &[0xff; 8]);
}

#[test]
fn different_nonces_give_different_messages() {
    let mut a = vec![0u8; 9];
    let mut b = vec![0u8; 9];
    write_nonce(&mut a, 255);
    write_nonce(&mut b, 256);
    assert_ne!(a, b);
}

#[test]
fn digest_is_held_against_the_difficulty() {
    assert!(digest_solves(&[1, 0], 8));
    assert!(!digest_solves(&[1, 0], 9));
    assert!(digest_solves(&[1], 0));
}

#[test]
fn message_is_hashed_before_its_zero_bits_are_counted() {
    // SHA-256 of "abc" ends in 0xad, that of the empty message in 0x55.
    assert!(message_solves(b"abc", 0));
    assert!(!message_solves(b"abc", 1));
    assert!(!message_solves(b"", 1));
    // The message itself ends in zero bits; its digest does not.
    assert!(!message_solves(&[0u8; 8], 20));
    let mut message = vec![0xde, 0xad, 0xbe, 0xef, 0, 0, 0, 0, 0, 0, 0, 0];
    write_nonce(&mut message, 7295);
    assert!(message_solves(&message, 12));
    assert_eq!(
        message_solves(&message, 13),
        trailing_zero_bits(&Sha256::digest(&message)) >= 13
    );
}

#[test]
fn solutions_solve_easier_challenges() {
    let mut message = vec![0xde, 0xad, 0xbe, 0xef, 0, 0, 0, 0, 0, 0, 0, 0];
    write_nonce(&mut message, 7295);
    for easier in 0..=12 {
        assert!(message_solves(&message, easier));
    }
    assert!(!message_solves(&message, 257));
}
