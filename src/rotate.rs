use vstd::prelude::*;

verus! {

/// The ways in which a decode call can be refused.
#[derive(Debug, Clone, Copy, PartialEq, Eq, Structural)]
pub enum DecaesarError {
    EmptyInput,
    OutputTooSmall { required: usize, provided: usize },
    InvalidShift(u8),
}

/// ASCII `a` (97) to `z` (122).
pub open spec fn is_lower(b: u8) -> bool {
    97 <= b && b <= 122
}

/// ASCII `A` (65) to `Z` (90).
pub open spec fn is_upper(b: u8) -> bool {
    65 <= b && b <= 90
}

/// One byte rotated forward by `k` places in the alphabet, keeping its case;
/// bytes that are not ASCII letters stay as they are.
pub open spec fn rotate(b: u8, k: u8) -> u8 {
    if is_lower(b) {
        ((b - 97 + k) % 26 + 97) as u8
    } else if is_upper(b) {
        ((b - 65 + k) % 26 + 65) as u8
    } else {
        b
    }
}

/// Every byte of `s` rotated by `k`.
pub open spec fn rotate_all(s: Seq<u8>, k: u8) -> Seq<u8> {
    s.map_values(|b: u8| rotate(b, k))
}

/// What a decode of `input_len` bytes into a buffer of `output_len` bytes
/// with shift `shift` answers.
pub open spec fn decode_outcome(input_len: usize, output_len: usize, shift: u8) -> Result<
    (),
    DecaesarError,
> {
    if input_len == 0 {
        Err(DecaesarError::EmptyInput)
    } else if output_len < input_len {
        Err(DecaesarError::OutputTooSmall { required: input_len, provided: output_len })
    } else if shift > 25 {
        Err(DecaesarError::InvalidShift(shift))
    } else {
        Ok(())
    }
}

proof fn lemma_rotate_byte_round_trip(b: u8, k: u8)
    requires
        k <= 25,
    ensures
        rotate(rotate(b, k), ((26 - k) % 26) as u8) == b,
{
    let back = ((26 - k) % 26) as u8;
    if is_lower(b) {
        let c = rotate(b, k);
        assert(is_lower(c));
        assert((((b - 97 + k) % 26) + back) % 26 == b - 97);
    } else if is_upper(b) {
        let c = rotate(b, k);
        assert(is_upper(c));
        assert((((b - 65 + k) % 26) + back) % 26 == b - 65);
    }
}

/// Rotating by `k` and then by `26 - k` (mod 26) gives every byte back.
pub proof fn lemma_rotate_round_trip(s: Seq<u8>, k: u8)
    requires
        k <= 25,
    ensures
        rotate_all(rotate_all(s, k), ((26 - k) % 26) as u8) == s,
{
    assert forall|i: int| 0 <= i < s.len() implies rotate_all(rotate_all(s, k), ((26 - k) % 26) as u8)[i]
        == s[i] by {
        lemma_rotate_byte_round_trip(s[i], k);
    }
    assert(rotate_all(rotate_all(s, k), ((26 - k) % 26) as u8) =~= s);
}

/// Decoding a non-empty input with shift `k` from 1 to 25, then decoding the
/// result with `26 - k`, succeeds both times on large enough buffers and gives
/// the input back.
pub proof fn lemma_decode_round_trip(s: Seq<u8>, k: u8, first_len: usize, second_len: usize)
    requires
        s.len() > 0,
        1 <= k <= 25,
        first_len >= s.len(),
        second_len >= s.len(),
    ensures
        decode_outcome(s.len() as usize, first_len, k) is Ok,
        decode_outcome(rotate_all(s, k).len() as usize, second_len, (26 - k) as u8) is Ok,
        rotate_all(rotate_all(s, k), (26 - k) as u8) == s,
{
    lemma_rotate_round_trip(s, k);
    assert(((26 - k) % 26) as u8 == (26 - k) as u8);
}

/// One byte rotated forward by `shift` places, case kept; other bytes unchanged.
pub fn shift_byte(b: u8, shift: u8) -> (r: u8)
    ensures
        r == rotate(b, shift),
{
    if 97 <= b && b <= 122 {
        (((b - 97) as u16 + shift as u16) % 26) as u8 + 97
    } else if 65 <= b && b <= 90 {
        (((b - 65) as u16 + shift as u16) % 26) as u8 + 65
    } else {
        b
    }
}

/// Writes every byte of `input` rotated by `shift` into the front of `output`.
/// The input must be non-empty, the output at least as long, and the shift at
/// most 25; otherwise nothing is written and the first failing condition is
/// reported.
pub fn decode_caesar(input: &[u8], output: &mut [u8], shift: u8) -> (r: Result<(), DecaesarError>)
    ensures
        r == decode_outcome(input@.len() as usize, old(output)@.len() as usize, shift),
        final(output)@.len() == old(output)@.len(),
        r is Ok ==> final(output)@ == rotate_all(input@, shift) + old(output)@.subrange(
            input@.len() as int,
            old(output)@.len() as int,
        ),
        r is Err ==> final(output)@ == old(output)@,
{
    if input.len() == 0 {
        return Err(DecaesarError::EmptyInput);
    }
    if output.len() < input.len() {
        return Err(DecaesarError::OutputTooSmall { required: input.len(), provided: output.len() });
    }
    if shift > 25 {
        return Err(DecaesarError::InvalidShift(shift));
    }
    let ghost before = output@;
    let mut i: usize = 0;
    while i < input.len()
        invariant
            i <= input@.len() <= output@.len(),
            output@.len() == before.len(),
            forall|j: int| 0 <= j < i ==> output@[j] == rotate(input@[j], shift),
            forall|j: int| i <= j < output@.len() ==> output@[j] == before[j],
        decreases input@.len() - i,
    {
        output[i] = shift_byte(input[i], shift);
        i += 1;
    }
    assert(output@ =~= rotate_all(input@, shift) + before.subrange(
        input@.len() as int,
        before.len() as int,
    ));
    Ok(())
}

} // verus!
