use casemend::codec::{decode_guess, DecodeErrorKind, DecodeOutcome};
use casemend::corpus::Corpus;
use casemend::debugstr::debug_bytestring;
use casemend::search::{
    decay_p_flip, mutate, Driver, Search, SearchError, P_FLIP_FLOOR, P_FLIP_INIT,
    P_INHERIT_DEFAULT,
};

fn words(ws: &[&str]) -> Vec<Vec<u8>> {
    ws.iter().map(|w| w.as_bytes().to_vec()).collect()
}

#[test]
fn decode_guess_accepts_valid_input() {
    match decode_guess(&b"aGk=".to_vec()) {
        DecodeOutcome::Decoded(v) => assert_eq!(v, b"hi".to_vec()),
        _ => panic!("expected a successful decode"),
    }
}

#[test]
fn malformed_final_group_is_the_recoverable_path() {
    // The final symbol of "ab==" carries non-zero unused bits.
    let r = decode_guess(&b"ab==".to_vec());
    assert!(matches!(r, DecodeOutcome::InvalidTail));
}

#[test]
fn non_alphabet_byte_elsewhere_is_the_fatal_path() {
    let r = decode_guess(&b"a!aa".to_vec());
    assert!(matches!(r, DecodeOutcome::Fatal));
}

#[test]
fn driver_new_reports_decode_errors() {
    let c = Corpus::from_words(words(&["hi"]));
    match Driver::new(b"a!aa".to_vec(), &c, 4, P_INHERIT_DEFAULT) {
        Err(SearchError::Decode(DecodeErrorKind::Other, hay)) => {
            assert_eq!(hay, b"a!aa".to_vec());
        }
        _ => panic!("expected the fatal decode error"),
    }
    match Driver::new(b"ab==".to_vec(), &c, 4, P_INHERIT_DEFAULT) {
        Err(SearchError::Decode(DecodeErrorKind::InvalidLastSymbol, _)) => (),
        _ => panic!("expected the invalid-last-symbol error"),
    }
}

#[test]
fn mutation_with_zero_probabilities_is_identity() {
    let head = Search { haystack: b"aGVsbG8=".to_vec(), guess: Vec::new(), score: 0 };
    let heads = vec![head];
    let mut buf = b"aGVsbG8=".to_vec();
    mutate(&mut buf, &heads, 0, 0);
    assert_eq!(buf, b"aGVsbG8=".to_vec());
}

#[test]
fn mutation_keeps_length_and_alphabet_shape() {
    let head = Search { haystack: b"aGVsbG8=".to_vec(), guess: Vec::new(), score: 0 };
    let heads = vec![head];
    let mut buf = b"aGVsbG8=".to_vec();
    mutate(&mut buf, &heads, 0, u32::MAX);
    assert_eq!(buf.len(), 8);
    for (i, b) in buf.iter().enumerate() {
        let orig = b"aGVsbG8="[i];
        assert!(*b == orig || *b == orig ^ 0x20);
    }
}

#[test]
fn flip_probability_decays_toward_its_floor() {
    assert_eq!(decay_p_flip(P_FLIP_INIT), (P_FLIP_INIT as u64 * 65519 / 65536) as u32);
    assert!(decay_p_flip(P_FLIP_INIT) < P_FLIP_INIT);
    assert_eq!(decay_p_flip(P_FLIP_FLOOR), P_FLIP_FLOOR);
    assert_eq!(decay_p_flip(0), P_FLIP_FLOOR);
}

#[test]
fn search_state_clear_and_copy() {
    let mut s = Search { haystack: b"abc".to_vec(), guess: b"xy".to_vec(), score: 7 };
    s.clear();
    assert!(s.haystack.is_empty());
    assert!(s.guess.is_empty());
    assert_eq!(s.score, i64::MIN);
    let other = Search { haystack: b"QUJD".to_vec(), guess: b"ABC".to_vec(), score: 42 };
    s.copy_from(&other);
    assert_eq!(s.haystack, other.haystack);
    assert_eq!(s.guess, other.guess);
    assert_eq!(s.score, other.score);
}

#[test]
fn driver_keeps_best_at_least_every_head() {
    let c = Corpus::build(&b"hello\nworld\n".to_vec());
    // "hello world" in standard base64.
    let hay = b"aGVsbG8gd29ybGQ=".to_vec();
    let mut d = Driver::new(hay, &c, 4, P_INHERIT_DEFAULT).unwrap();
    let initial: Vec<i64> = d.heads.iter().map(|h| h.score).collect();
    let initial_best = d.best.score;
    for _ in 0..200 {
        match d.step(&c) {
            Ok(_) => (),
            Err(SearchError::Decode(_, _)) => {
                panic!("case flips cannot leave the alphabet")
            },
            Err(_) => panic!("unexpected step failure"),
        }
        for (k, h) in d.heads.iter().enumerate() {
            assert!(d.best.score >= h.score);
            assert!(h.score >= initial[k]);
        }
        assert!(d.best.score >= initial_best);
    }
}

#[test]
fn step_reports_trial_and_improvement() {
    let c = Corpus::build(&b"hi\n".to_vec());
    let mut d = Driver::new(b"aGk=".to_vec(), &c, 2, 0).unwrap();
    for _ in 0..50 {
        let rep = d.step(&c).unwrap();
        assert_eq!(rep.trial.haystack.len(), 4);
        if rep.improved {
            assert_eq!(d.best.score, rep.trial.score);
        }
        if rep.skipped {
            assert!(rep.trial.guess.is_empty());
            assert_eq!(rep.trial.score, i64::MIN);
        }
    }
}

#[test]
fn debug_bytestring_escapes_non_graphic_bytes() {
    assert_eq!(debug_bytestring(b"hi there"), "b\"hi there\"");
    assert_eq!(debug_bytestring(b"a\x01z"), "b\"a\\x01z\"");
    assert_eq!(debug_bytestring(&[0xff, 0x00]), "b\"\\xff\\x00\"");
    assert_eq!(debug_bytestring(b""), "b\"\"");
}
