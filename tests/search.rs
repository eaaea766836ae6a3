use decaesar::{Decaesar, DecaesarError, DecipherResult, DefaultScorer, ScoreFunction};

#[test]
fn break_empty_input() {
    let d = Decaesar::new(DefaultScorer);
    assert_eq!(d.break_caesar(b"").err(), Some(DecaesarError::EmptyInput));
}

#[test]
fn break_hello_world() {
    let d = Decaesar::new(DefaultScorer);
    let r = d.break_caesar(b"khoor zruog").unwrap();
    // The search reports the shift that turns the text back into English.
    assert_eq!(r.best().shift, 23);
    assert_eq!(r.best().score, 7767);
    let mut plain = [0u8; 11];
    assert_eq!(decaesar::decode_caesar(b"khoor zruog", &mut plain, r.best().shift), Ok(()));
    assert_eq!(&plain, b"hello world");
    let r = d.break_caesar(b"ebiil tloia").unwrap();
    assert_eq!(r.best().shift, 3);
}

#[test]
fn break_non_letters_scores_zero() {
    let d = Decaesar::new(DefaultScorer);
    let r = d.break_caesar(b"12345").unwrap();
    for i in 0..26 {
        assert_eq!(r.results[i].shift as usize, i);
        assert_eq!(r.results[i].score, 0);
    }
    assert_eq!(r.best().shift, 0);
    assert_eq!(r.best().score, 0);
}

#[test]
fn break_results_shape() {
    let d = Decaesar::new(DefaultScorer);
    let r = d.break_caesar(b"Attack at dawn!").unwrap();
    assert_eq!(r.results.len(), 26);
    let max = r.results.iter().map(|x| x.score).max().unwrap();
    let first = r.results.iter().position(|x| x.score == max).unwrap();
    for i in 0..26 {
        assert_eq!(r.results[i].shift as usize, i);
    }
    assert_eq!(r.best.score, max);
    assert_eq!(r.best.shift as usize, first);
}

#[test]
fn best_n_top_three() {
    let d = Decaesar::new(DefaultScorer);
    let r = d
        .break_caesar(b"ymj vznhp gwtbs ktc ozrux tajw ymj qfed itl")
        .unwrap();
    let mut out = [DecipherResult { shift: 99, score: 1 }; 5];
    r.best_n(&mut out, 3);
    assert_eq!(out[0], DecipherResult { shift: 21, score: 27099 });
    assert_eq!(out[1], DecipherResult { shift: 20, score: 20700 });
    assert_eq!(out[2], DecipherResult { shift: 11, score: 18869 });
    assert_eq!(out[3], DecipherResult { shift: 99, score: 1 });
    assert_eq!(out[4], DecipherResult { shift: 99, score: 1 });
    let r = d
        .break_caesar(b"ocz lpdxf wmjri ajs ephkn jqzm ocz gvut yjb")
        .unwrap();
    r.best_n(&mut out, 3);
    assert_eq!(out[0].shift, 5);
    assert!(out[0].score >= out[1].score && out[1].score >= out[2].score);
}

#[test]
fn best_n_truncates_to_output() {
    let d = Decaesar::new(DefaultScorer);
    let r = d.break_caesar(b"hello").unwrap();
    let mut small = [DecipherResult::default(); 2];
    r.best_n(&mut small, 10);
    assert_eq!(small[0], r.best());
    assert!(small[0].score >= small[1].score);
    let mut big = [DecipherResult { shift: 77, score: 3 }; 30];
    r.best_n(&mut big, 100);
    for i in 1..26 {
        assert!(big[i - 1].score >= big[i].score);
    }
    let mut shifts: Vec<u8> = big[..26].iter().map(|x| x.shift).collect();
    shifts.sort();
    assert_eq!(shifts, (0u8..26).collect::<Vec<u8>>());
    for i in 26..30 {
        assert_eq!(big[i], DecipherResult { shift: 77, score: 3 });
    }
}

#[test]
fn best_n_ties_keep_shift_order() {
    let d = Decaesar::new(DefaultScorer);
    let r = d.break_caesar(b"!!").unwrap();
    let mut out = [DecipherResult::default(); 4];
    r.best_n(&mut out, 4);
    for i in 0..4 {
        assert_eq!(out[i], DecipherResult { shift: i as u8, score: 0 });
    }
}

#[test]
fn score_examples() {
    let s = DefaultScorer;
    assert_eq!(s.score(b"", 5), 0);
    assert_eq!(s.score(b"ab", 0), 961);
    assert_eq!(s.score(b"th", 0), 3502);
    assert_eq!(s.score(b"t h", 0), 1502);
    assert_eq!(s.score(b"hello", 0), 5358);
}

#[test]
fn score_ignores_case() {
    let s = DefaultScorer;
    for k in 0u8..26 {
        assert_eq!(s.score(b"Hello, World", k), s.score(b"HELLO, WORLD", k));
        assert_eq!(s.score(b"hello, world", k), s.score(b"HELLO, WORLD", k));
    }
}
