use fuzzy::characters::{begins_word, is_word_boundary, len_utf8};
use fuzzy::embedding::find_latest;
use fuzzy::lowering::{lower, sum_before, LoweredText};
use fuzzy::weights::{weigh_apart, weigh_distance};
use fuzzy::{Binary64, Matcher, Overrun};
use std::collections::BTreeMap;

fn value(number: Binary64) -> f64 {
    f64::from_bits(number.code())
}

#[test]
fn texts_are_lowered_character_by_character() {
    let lowered = lower("İAb\u{1E9E}");
    assert_eq!(lowered.chars, vec!['İ', 'A', 'b', '\u{1E9E}']);
    assert_eq!(lowered.lowercase_chars, vec!['i', '\u{307}', 'a', 'b', 'ß']);
    assert_eq!(lowered.extra, BTreeMap::from([(0, 1)]));
    let lowered = lower("");
    assert!(lowered.chars.is_empty() && lowered.lowercase_chars.is_empty());
    assert!(lowered.extra.is_empty());
}

#[test]
fn extra_characters_are_summed_below_a_bound() {
    let extra = BTreeMap::from([(1, 1), (4, 2), (9, 1)]);
    assert_eq!(sum_before(&extra, 0), 0);
    assert_eq!(sum_before(&extra, 1), 0);
    assert_eq!(sum_before(&extra, 2), 1);
    assert_eq!(sum_before(&extra, 5), 3);
    assert_eq!(sum_before(&extra, 100), 4);
}

#[test]
fn words_are_found_as_late_as_possible() {
    let word = ['a', 'b'];
    let mut positions = vec![7, 7];
    assert!(find_latest(&word, &['a', 'a'], &['b', 'a', 'b', 'a'], &mut positions));
    assert_eq!(positions, vec![3, 4]);
    assert!(find_latest(&word, &['x', 'a', 'b'], &['a'], &mut positions));
    assert_eq!(positions, vec![1, 2]);
    let mut positions = vec![7, 7];
    assert!(!find_latest(&word, &['b'], &['b', 'a', 'c'], &mut positions));
    // The last character was found, the one before it was not.
    assert_eq!(positions, vec![7, 1]);
}

#[test]
fn words_begin_at_boundaries() {
    for c in ['-', '_', ' '] {
        assert!(begins_word(c, false, false));
        assert!(is_word_boundary(c, 'a'));
    }
    assert!(begins_word('x', true, false));
    assert!(begins_word('x', false, true));
    assert!(!begins_word('x', false, false));
    assert!(is_word_boundary('7', 'a'));
    assert!(is_word_boundary('a', 'B'));
    assert!(!is_word_boundary('a', 'b'));
    assert!(!is_word_boundary('A', 'B'));
    assert!(!is_word_boundary('A', 'b'));
    assert!(!is_word_boundary('.', 'B'));
    assert!(!is_word_boundary('/', 'B'));
}

#[test]
fn characters_take_one_to_four_bytes() {
    for c in ['a', '\u{7f}', '\u{80}', 'é', '\u{7ff}', '\u{800}', '京', '\u{ffff}', '🆒'] {
        assert_eq!(len_utf8(c), c.len_utf8());
    }
}

#[test]
fn weights_go_by_the_first_reason_that_holds() {
    assert_eq!(value(weigh_apart('/', '/', true, true, true, 3)), 0.9);
    assert_eq!(value(weigh_apart('-', '/', true, true, true, 3)), 1.2);
    assert_eq!(value(weigh_apart('-', '/', true, false, true, 3)), 0.8);
    assert_eq!(value(weigh_apart('.', '/', false, false, true, 3)), 0.7);
    assert_eq!(value(weigh_apart('x', '/', false, true, true, 3)), 0.6);
    assert_eq!(value(weigh_apart('x', '/', false, true, false, 3)), 0.6 - 3.0 * 0.05);
    assert_eq!(value(weigh_distance(0)), 0.6);
    assert_eq!(value(weigh_distance(8)), 0.2f64.max(0.6 - 8.0 * 0.05));
    assert_eq!(value(weigh_distance(usize::MAX)), 0.2);
}

#[test]
fn lowered_texts_are_matched_as_they_are() {
    let query = ['A', 'b'];
    let lowercase_query = ['a', 'b'];
    let mut matcher =
        Matcher::with_platform(&query, &lowercase_query, (), true, false, false, '/', false);
    // The two forms need not belong together.
    let lowered = LoweredText {
        chars: vec!['A', 'q'],
        lowercase_chars: vec!['a', 'b'],
        extra: BTreeMap::new(),
    };
    let score = matcher.match_lowered(&[], &[], &lowered).unwrap();
    assert_eq!(score.map(value), Some(0.001 * 2.0));
    assert_eq!(matcher.match_positions, vec![0, 1]);
    let lowered = LoweredText {
        chars: vec!['A', 'b'],
        lowercase_chars: vec!['a', 'x', 'b'],
        extra: BTreeMap::from([(0, 1)]),
    };
    let score = matcher.match_lowered(&[], &[], &lowered).unwrap();
    assert_eq!(score.map(value), Some(0.6 * 2.0));
    assert_eq!(matcher.match_positions, vec![0, 1]);
    let lowered = LoweredText {
        chars: vec!['A', 'b'],
        lowercase_chars: vec!['x', 'a', 'b'],
        extra: BTreeMap::from([(0, 1)]),
    };
    assert_eq!(matcher.match_lowered(&[], &[], &lowered).map(|_| ()), Err(Overrun));
}
