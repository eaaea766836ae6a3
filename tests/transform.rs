use decaesar::{decode_caesar, shift_byte, DecaesarError};

#[test]
fn encode_hello_world_with_three() {
    let input = b"hello world";
    let mut out = [0u8; 11];
    assert_eq!(decode_caesar(input, &mut out, 3), Ok(()));
    assert_eq!(&out, b"khoor zruog");
}

#[test]
fn decode_keeps_case_and_non_letters() {
    let input = b"Zebra, 42!";
    let mut out = [0u8; 10];
    assert_eq!(decode_caesar(input, &mut out, 1), Ok(()));
    assert_eq!(&out, b"Afcsb, 42!");
}

#[test]
fn decode_round_trip() {
    let input = b"The Quick Brown Fox";
    for k in 1u8..26 {
        let mut once = [0u8; 19];
        let mut twice = [0u8; 19];
        assert_eq!(decode_caesar(input, &mut once, k), Ok(()));
        assert_eq!(decode_caesar(&once, &mut twice, 26 - k), Ok(()));
        assert_eq!(&twice, input);
    }
}

#[test]
fn rotate_byte_round_trip() {
    for b in 0u8..=255 {
        for k in 0u8..26 {
            assert_eq!(shift_byte(shift_byte(b, k), (26 - k) % 26), b);
        }
    }
}

#[test]
fn shift_byte_examples() {
    assert_eq!(shift_byte(b'a', 0), b'a');
    assert_eq!(shift_byte(b'z', 1), b'a');
    assert_eq!(shift_byte(b'Y', 3), b'B');
    assert_eq!(shift_byte(b'5', 7), b'5');
}

#[test]
fn decode_empty_input() {
    let mut out = [0u8; 4];
    assert_eq!(decode_caesar(b"", &mut out, 3), Err(DecaesarError::EmptyInput));
}

#[test]
fn decode_output_too_small() {
    let mut out = [7u8; 3];
    assert_eq!(
        decode_caesar(b"hello", &mut out, 3),
        Err(DecaesarError::OutputTooSmall { required: 5, provided: 3 })
    );
    assert_eq!(out, [7u8; 3]);
}

#[test]
fn decode_shift_bounds() {
    let mut out = [0u8; 3];
    assert_eq!(decode_caesar(b"abc", &mut out, 26), Err(DecaesarError::InvalidShift(26)));
    assert_eq!(decode_caesar(b"abc", &mut out, 25), Ok(()));
    assert_eq!(&out, b"zab");
}

#[test]
fn decode_leaves_extra_output() {
    let mut out = [b'#'; 6];
    assert_eq!(decode_caesar(b"abc", &mut out, 2), Ok(()));
    assert_eq!(&out, b"cde###");
}
