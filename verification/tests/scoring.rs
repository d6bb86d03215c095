use casemend::corpus::Corpus;
use casemend::score::score;
use casemend::trigram::Trigram;

fn words(ws: &[&str]) -> Vec<Vec<u8>> {
    ws.iter().map(|w| w.as_bytes().to_vec()).collect()
}

#[test]
fn trigram_windows() {
    let ts = Trigram::trigrams(b"quick");
    assert_eq!(ts.len(), 3);
    assert_eq!(ts[0].0, [b'q', b'u', b'i']);
    assert_eq!(ts[1].0, [b'u', b'i', b'c']);
    assert_eq!(ts[2].0, [b'i', b'c', b'k']);
    assert!(Trigram::trigrams(b"ab").is_empty());
}

#[test]
fn trigram_try_from() {
    assert_eq!(Trigram::try_from(b"abc".as_slice()), Some(Trigram([b'a', b'b', b'c'])));
    assert_eq!(Trigram::try_from(b"ab".as_slice()), None);
    assert_eq!(Trigram::try_from(b"abcd".as_slice()), None);
}

#[test]
fn corpus_totals_are_window_counts() {
    // One window for "the", three for "quick", three for "brown", one for "fox".
    let c = Corpus::from_words(words(&["the", "quick", "brown", "fox"]));
    assert_eq!(c.trigrams.total, 8);
    // The total equals the sum of the stored counts.
    let sum: u64 = c.trigrams.freqs.iter().map(|e| e.1).sum();
    assert_eq!(sum, c.trigrams.total);
    assert_eq!(c.freq(&Trigram([b't', b'h', b'e'])), 1);
    assert_eq!(c.freq(&Trigram([b'x', b'y', b'z'])), 0);
}

#[test]
fn corpus_counts_every_occurrence() {
    // "aaaa" has two "aaa" windows; a repeated word is counted again.
    let c = Corpus::from_words(words(&["aaaa", "aaa", "aaa"]));
    assert_eq!(c.freq(&Trigram([b'a', b'a', b'a'])), 4);
    assert_eq!(c.trigrams.total, 4);
}

#[test]
fn build_lowercases_splits_and_drops_empty_lines() {
    let bytes = b"The\n\nQUICK\nfox\n".to_vec();
    let c = Corpus::build(&bytes);
    assert!(c.contains_word(b"the"));
    assert!(c.contains_word(b"quick"));
    assert!(c.contains_word(b"fox"));
    assert!(!c.contains_word(b"The"));
    assert!(!c.contains_word(b""));
    assert_eq!(c.words.len(), 3);
    assert_eq!(c.trigrams.total, 1 + 3 + 1);
}

#[test]
fn score_empty_is_zero() {
    let c = Corpus::from_words(words(&[]));
    assert_eq!(score(b"", &c), 0);
}

#[test]
fn score_exact_single_word() {
    // class 3*10, word bonus 50*3, one trigram window worth 10/1.
    let c = Corpus::from_words(words(&["abc"]));
    assert_eq!(score(b"abc", &c), 30 + 150 + 10);
}

#[test]
fn score_is_pure() {
    let c = Corpus::from_words(words(&["the", "fox"]));
    let a = score(b"the fox", &c);
    let b = score(b"the fox", &c);
    assert_eq!(a, b);
    assert_eq!(c.trigrams.total, 2);
    assert_eq!(c.words.len(), 2);
}

#[test]
fn score_ignores_letter_case() {
    let c = Corpus::from_words(words(&["hello", "world"]));
    assert_eq!(score(b"HeLLo WoRLd", &c), score(b"hello world", &c));
}

#[test]
fn control_byte_changes_class_under_flip() {
    // Flipping bit 0x20 of a control byte can change its class, so raw
    // bit-flips are not score-invariant: 0x0a (whitespace) vs 0x2a ('*').
    let c = Corpus::from_words(words(&[]));
    assert_ne!(score(&[0x0a], &c), score(&[0x2a], &c));
}

#[test]
fn spaces_and_word_matches_beat_concatenation() {
    let c = Corpus::from_words(words(&["the", "fox"]));
    assert!(score(b"the fox", &c) > score(b"thefox", &c));
}

#[test]
fn control_byte_costs_at_least_100() {
    let c = Corpus::from_words(words(&[]));
    let with_control = score(b"a\x01c", &c);
    let with_letter = score(b"abc", &c);
    assert_eq!(with_control, 10 - 100 + 10);
    assert_eq!(with_letter, 30);
    assert!(with_control <= with_letter - 100);
}

#[test]
fn full_scenario_beats_random_bytes() {
    let c = Corpus::from_words(words(&["the", "quick", "brown", "fox"]));
    let good = score(b"the quick brown fox", &c);
    // 16 letters at +10, 3 spaces at +5, word bonus (3+5+5+3)*50,
    // trigram terms nonnegative.
    assert!(good >= 16 * 10 + 3 * 5 + 800);
    let noise: Vec<u8> = (0..19u8).collect();
    let bad = score(&noise, &c);
    assert!(bad < good);
    assert!(bad < 0);
}

#[test]
fn table_holds_only_occurring_trigrams() {
    // "ab" is too short for a window; only "xyz" contributes an entry,
    // and no entry ever carries a zero count.
    let c = Corpus::from_words(words(&["ab", "xyz"]));
    assert_eq!(c.trigrams.freqs.len(), 1);
    assert!(c.trigrams.freqs.iter().all(|e| e.1 >= 1));
    assert_eq!(c.freq(&Trigram([b'x', b'y', b'z'])), 1);
}
