use vstd::prelude::*;

verus! {

/// Bonus, in hundredths, for a common letter pair.
pub const BIGRAM_BONUS: u64 = 2000;

/// Relative frequency of each letter `a` to `z` in English text, in hundredths
/// of a point.
pub open spec fn letter_weights() -> Seq<u64> {
    seq![
        812, 149, 271, 432, 1202, 230, 203, 592, 731, 10, 69, 398, 261,
        695, 768, 182, 11, 602, 628, 910, 288, 111, 209, 17, 211, 7,
    ]
}

/// Twenty frequent ordered letter pairs of English, as lowercase ASCII codes.
pub open spec fn common_bigrams() -> Seq<(u8, u8)> {
    seq![
        (116, 104), // th
        (104, 101), // he
        (105, 110), // in
        (101, 114), // er
        (97, 110),  // an
        (114, 101), // re
        (111, 110), // on
        (97, 116),  // at
        (101, 110), // en
        (110, 100), // nd
        (115, 116), // st
        (116, 111), // to
        (101, 115), // es
        (111, 102), // of
        (105, 115), // is
        (105, 116), // it
        (97, 115),  // as
        (97, 108),  // al
        (97, 114),  // ar
        (108, 101), // le
    ]
}

/// The weight of the lowercase letter with code `l`.
pub fn letter_weight(l: u8) -> (w: u64)
    requires
        97 <= l <= 122,
    ensures
        w == letter_weights()[l - 97],
{
    let table: [u64; 26] = [
        812, 149, 271, 432, 1202, 230, 203, 592, 731, 10, 69, 398, 261,
        695, 768, 182, 11, 602, 628, 910, 288, 111, 209, 17, 211, 7,
    ];
    assert(table@ =~= letter_weights());
    table[(l - 97) as usize]
}

/// The table of common pairs, in its fixed order.
pub fn bigram_table() -> (t: [(u8, u8); 20])
    ensures
        t@ == common_bigrams(),
{
    let t: [(u8, u8); 20] = [
        (116, 104), (104, 101), (105, 110), (101, 114), (97, 110),
        (114, 101), (111, 110), (97, 116), (101, 110), (110, 100),
        (115, 116), (116, 111), (101, 115), (111, 102), (105, 115),
        (105, 116), (97, 115), (97, 108), (97, 114), (108, 101),
    ];
    assert(t@ =~= common_bigrams());
    t
}

} // verus!
