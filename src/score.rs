use vstd::prelude::*;
use crate::frequency::{bigram_table, common_bigrams, letter_weight, letter_weights, BIGRAM_BONUS};
use crate::rotate::{is_lower, is_upper, rotate, shift_byte};

verus! {

/// A plausibility measure for a candidate shift of a byte sequence: the
/// higher, the more the rotated text looks like the language modelled.
pub trait ScoreFunction {
    /// The score of `input` under `shift`, as a number.
    spec fn score_of(&self, input: Seq<u8>, shift: u8) -> nat;

    fn score(&self, input: &[u8], shift: u8) -> (r: u128)
        ensures
            r == self.score_of(input@, shift),
    ;
}

/// Scores against English letter frequencies and common letter pairs.
pub struct DefaultScorer;

pub open spec fn to_lower(b: u8) -> u8 {
    if is_upper(b) {
        (b + 32) as u8
    } else {
        b
    }
}

pub open spec fn to_upper(b: u8) -> u8 {
    if is_lower(b) {
        (b - 32) as u8
    } else {
        b
    }
}

/// The letter that byte `b` becomes under shift `k`, case folded.
pub open spec fn shifted_at(b: u8, k: u8) -> u8 {
    rotate(to_lower(b), k)
}

/// The letter remembered for pair matching after `s`, or 0 when `s` is empty
/// or ends in something that is not a letter.
pub open spec fn prev_after(s: Seq<u8>, k: u8) -> u8 {
    if s.len() == 0 {
        0
    } else if is_lower(shifted_at(s.last(), k)) {
        shifted_at(s.last(), k)
    } else {
        0
    }
}

pub open spec fn bigram_bonus(prev: u8, cur: u8) -> nat {
    if common_bigrams().contains((prev, cur)) {
        BIGRAM_BONUS as nat
    } else {
        0
    }
}

pub open spec fn letter_score(c: u8) -> nat {
    if is_lower(c) {
        letter_weights()[c - 97] as nat
    } else {
        0
    }
}

/// The English score of `s` under shift `k`: for each byte, the bonus of a
/// common pair it closes with the previous letter, plus its letter weight.
pub open spec fn english_score(s: Seq<u8>, k: u8) -> nat
    decreases s.len(),
{
    if s.len() == 0 {
        0
    } else {
        let c = shifted_at(s.last(), k);
        english_score(s.drop_last(), k) + bigram_bonus(prev_after(s.drop_last(), k), c)
            + letter_score(c)
    }
}

/// Every byte of `s` in upper case.
pub open spec fn uppercase(s: Seq<u8>) -> Seq<u8> {
    s.map_values(|b: u8| to_upper(b))
}

proof fn lemma_english_score_bound(s: Seq<u8>, k: u8)
    ensures
        english_score(s, k) <= 3202 * s.len(),
    decreases s.len(),
{
    if s.len() > 0 {
        lemma_english_score_bound(s.drop_last(), k);
        let c = shifted_at(s.last(), k);
        if is_lower(c) {
            assert(letter_weights()[c - 97] <= 1202);
        }
    }
}

/// Scoring does not see case: a text and its upper-case form score alike
/// under every shift.
pub proof fn lemma_score_ignores_case(s: Seq<u8>, k: u8)
    ensures
        english_score(uppercase(s), k) == english_score(s, k),
    decreases s.len(),
{
    if s.len() > 0 {
        let u = uppercase(s);
        assert(u.drop_last() =~= uppercase(s.drop_last()));
        lemma_score_ignores_case(s.drop_last(), k);
        assert(to_lower(to_upper(s.last())) == to_lower(s.last()));
        assert(shifted_at(u.last(), k) == shifted_at(s.last(), k));
        if s.len() > 1 {
            assert(u.drop_last().last() == to_upper(s.drop_last().last()));
            assert(to_lower(to_upper(s.drop_last().last())) == to_lower(s.drop_last().last()));
        }
        assert(prev_after(u.drop_last(), k) == prev_after(s.drop_last(), k));
    }
}

fn pair_bonus(prev: u8, cur: u8) -> (r: u64)
    ensures
        r == bigram_bonus(prev, cur),
{
    let table = bigram_table();
    let mut i: usize = 0;
    while i < 20
        invariant
            i <= 20,
            table@ == common_bigrams(),
            forall|j: int| 0 <= j < i ==> table@[j] != (prev, cur),
        decreases 20 - i,
    {
        let (a, b) = table[i];
        if a == prev && b == cur {
            assert(common_bigrams()[i as int] == (prev, cur));
            return BIGRAM_BONUS;
        }
        i += 1;
    }
    assert(!common_bigrams().contains((prev, cur)));
    0
}

impl ScoreFunction for DefaultScorer {
    open spec fn score_of(&self, input: Seq<u8>, shift: u8) -> nat {
        english_score(input, shift)
    }

    fn score(&self, input: &[u8], shift: u8) -> (r: u128) {
        let mut score: u128 = 0;
        let mut prev: u8 = 0;
        let mut i: usize = 0;
        while i < input.len()
            invariant
                i <= input@.len(),
                score == english_score(input@.subrange(0, i as int), shift),
                prev == prev_after(input@.subrange(0, i as int), shift),
                score <= 3202 * i,
            decreases input@.len() - i,
        {
            let ghost s0 = input@.subrange(0, i as int);
            let ghost s1 = input@.subrange(0, i + 1);
            let b = input[i];
            let lower = if 65 <= b && b <= 90 {
                b + 32
            } else {
                b
            };
            let shifted = shift_byte(lower, shift);
            score = score + pair_bonus(prev, shifted) as u128;
            if 97 <= shifted && shifted <= 122 {
                score = score + letter_weight(shifted) as u128;
                prev = shifted;
            } else {
                prev = 0;
            }
            assert(s1.drop_last() =~= s0);
            proof {
                lemma_english_score_bound(s1, shift);
            }
            i += 1;
        }
        assert(input@.subrange(0, input@.len() as int) =~= input@);
        score
    }
}

} // verus!
