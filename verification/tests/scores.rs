use fuzzy::{Binary64, MatchCandidate, Matcher, MatchingMode, Overrun};
use std::borrow::Cow;
use std::sync::atomic::{AtomicBool, Ordering};

/// A string that answers every question about its characters as it was told to.
struct Item {
    text: String,
    admitted: bool,
}

impl MatchCandidate<u8> for Item {
    fn has_chars(&self, bag: u8) -> bool {
        assert_eq!(bag, 7);
        self.admitted
    }

    fn to_string(&self) -> Cow<'_, str> {
        assert!(self.admitted);
        Cow::Owned(self.text.clone())
    }
}

fn items(texts: &[&str]) -> Vec<Item> {
    texts
        .iter()
        .map(|text| Item { text: text.to_string(), admitted: true })
        .collect()
}

fn chars(text: &str) -> Vec<char> {
    text.chars().collect()
}

fn lowered(text: &str) -> Vec<char> {
    text.to_lowercase().chars().collect()
}

fn value(number: Binary64) -> f64 {
    f64::from_bits(number.code())
}

#[derive(Clone, Copy)]
struct Settings {
    smart_case: bool,
    penalize_length: bool,
    boost: bool,
    separator: char,
    windows: bool,
}

const PLAIN: Settings =
    Settings { smart_case: false, penalize_length: false, boost: false, separator: '/', windows: false };
const SMART: Settings =
    Settings { smart_case: true, penalize_length: false, boost: false, separator: '/', windows: false };
const SHORT: Settings =
    Settings { smart_case: false, penalize_length: true, boost: false, separator: '/', windows: false };
const BOOST: Settings =
    Settings { smart_case: false, penalize_length: false, boost: true, separator: '/', windows: false };
const WINDOWS: Settings =
    Settings { smart_case: false, penalize_length: true, boost: false, separator: '\\', windows: true };

/// Matches a text, and gives its score and the positions.
fn matched(settings: Settings, query: &str, text: &str) -> Option<(f64, Vec<usize>)> {
    let query_chars = chars(query);
    let lowercase_query = lowered(query);
    let mut matcher = Matcher::with_platform(
        &query_chars,
        &lowercase_query,
        7u8,
        settings.smart_case,
        settings.penalize_length,
        settings.boost,
        settings.separator,
        settings.windows,
    );
    let score = matcher.match_text(&[], &[], text).expect("the search stays in its tables");
    score.map(|score| (value(score), matcher.match_positions.clone()))
}

/// The results for several texts, in their order.
fn run(
    matcher: &mut Matcher<'_, u8>,
    prefix: &str,
    candidates: &[Item],
    cancelled: bool,
) -> (Result<(), Overrun>, Vec<(String, f64, Vec<usize>)>) {
    let prefix_chars = chars(prefix);
    let lowercase_prefix = lowered(prefix);
    let flag = AtomicBool::new(false);
    flag.store(cancelled, Ordering::Relaxed);
    let mut results = vec![("before".to_string(), 0.0, Vec::new())];
    let outcome = matcher.match_candidates(
        &prefix_chars,
        &lowercase_prefix,
        candidates,
        &mut results,
        &flag,
        |item: &Item, score: Binary64, positions: &Vec<usize>| {
            (item.text.clone(), value(score), positions.clone())
        },
    );
    assert_eq!(results.remove(0).0, "before");
    (outcome, results)
}

#[test]
fn adjacent_characters_weigh_one() {
    assert_eq!(matched(PLAIN, "abc", "abc"), Some((3.0, vec![0, 1, 2])));
    assert_eq!(matched(PLAIN, "abc", "abcd"), Some((3.0, vec![0, 1, 2])));
    assert_eq!(matched(PLAIN, "abc", "ab"), None);
    assert_eq!(matched(PLAIN, "abc", "acb"), None);
}

#[test]
fn places_weigh_by_what_stands_before_them() {
    assert_eq!(matched(PLAIN, "a", "x/a"), Some((0.9, vec![2])));
    for text in ["x-a", "x_a", "x a", "x1a"] {
        assert_eq!(matched(PLAIN, "a", text), Some((0.8, vec![2])));
    }
    assert_eq!(matched(PLAIN, "a", "xA"), Some((0.8, vec![1])));
    assert_eq!(matched(PLAIN, "a", "XA"), Some((0.6, vec![1])));
    assert_eq!(matched(PLAIN, "a", "x.a"), Some((0.7, vec![2])));
    assert_eq!(matched(PLAIN, "a", "xa"), Some((0.6, vec![1])));
    // Digits outside ASCII, and letters with a case outside ASCII.
    assert_eq!(matched(PLAIN, "a", "\u{0663}a"), Some((0.8, vec![2])));
    assert_eq!(matched(PLAIN, "ж", "яЖ"), Some((0.8, vec![2])));
    assert_eq!(matched(PLAIN, "ж", "ЯЖ"), Some((0.6, vec![2])));
}

#[test]
fn gaps_weigh_by_their_width() {
    assert_eq!(matched(PLAIN, "ab", "axb"), Some((0.6 * 2.0, vec![0, 2])));
    assert_eq!(matched(PLAIN, "ab", "axxb"), Some(((0.6 - 1.0 * 0.05) * 2.0, vec![0, 3])));
    assert_eq!(matched(PLAIN, "ab", "axxxb"), Some(((0.6 - 2.0 * 0.05) * 2.0, vec![0, 4])));
    let mut before = 2.0;
    for gap in 0..40usize {
        let text = format!("a{}b", "x".repeat(gap + 1));
        let weight = 0.2f64.max(0.6 - gap as f64 * 0.05);
        let score = weight * 2.0;
        assert_eq!(matched(PLAIN, "ab", &text), Some((score, vec![0, gap + 2])));
        assert!(score <= before);
        before = score;
    }
    assert_eq!(before, 0.4);
}

#[test]
fn differences_are_penalized() {
    assert_eq!(matched(SMART, "A", "a"), Some((0.001, vec![0])));
    assert_eq!(matched(SMART, "A", "A"), Some((1.0, vec![0])));
    assert_eq!(matched(SMART, "a", "A"), Some((0.001, vec![0])));
    assert_eq!(matched(PLAIN, "a", "A"), Some((1.0, vec![0])));
    // The farthest place in the same case goes before the nearest in another.
    assert_eq!(matched(SMART, "xA", "xaqqqqqqqqqqqqqA").map(|found| found.1), Some(vec![0, 15]));
    // An underscore may stand for a separator, at a price, also where case does not count. The
    // underscore has to be there for the query to be found.
    assert_eq!(matched(PLAIN, "_", "/_"), Some((0.9, vec![1])));
    assert_eq!(matched(PLAIN, "a_b", "a/b_b").map(|found| found.1), Some(vec![0, 3, 4]));
    assert_eq!(matched(PLAIN, "_b", "/b_b").map(|found| found.1), Some(vec![2, 3]));
    assert_eq!(matched(PLAIN, "a_", "a/"), None);
}

#[test]
fn length_after_the_last_separator_counts() {
    assert_eq!(matched(SHORT, "abc", "abcd"), Some((1.0 / 4.0 * 3.0, vec![0, 1, 2])));
    assert_eq!(matched(SHORT, "b", "a/b"), Some((0.9 / 2.0, vec![2])));
    assert_eq!(matched(SHORT, "b", "a/bc"), Some((0.9 / 3.0, vec![2])));
    assert_eq!(matched(SHORT, "b", "aa/b"), Some((0.9 / 2.0, vec![3])));
    let scores: Vec<f64> = (1..30)
        .map(|length| matched(SHORT, "a", &format!("a{}", "x".repeat(length))).unwrap().0)
        .collect();
    assert!(scores.windows(2).all(|pair| pair[1] < pair[0]));
}

#[test]
fn the_boost_rewards_words_and_file_names() {
    // All of it in the file name, all of it at its words, in their order.
    let best = 1.2 * 1.2 * 1.0;
    assert_eq!(
        matched(BOOST, "SCS", "SimulatedChatService.rs"),
        Some((best * 3.0 * (1.0 + 1.0 * 0.5) * (1.0 + 1.0 * 1.5), vec![0, 9, 13]))
    );
    // Half of it in the file name.
    assert_eq!(
        matched(BOOST, "ab", "a/b"),
        Some((0.9 * 2.0 * (1.0 + 0.5 * 0.5) * (1.0 + 0.0 * 1.5), vec![0, 2]))
    );
    // In the file name, but after its first word.
    assert_eq!(
        matched(BOOST, "b", "a_b"),
        Some((1.2 * 1.0 * (1.0 + 1.0 * 0.5) * (1.0 + 0.0 * 1.5), vec![2]))
    );
}

#[test]
fn the_boost_never_lowers_a_score() {
    for (query, text) in [("ab", "a/b"), ("b", "xb"), ("abc", "abc"), ("rs", "src/main.rs")] {
        let (plain, _) = matched(PLAIN, query, text).unwrap();
        let (boosted, _) = matched(BOOST, query, text).unwrap();
        assert!(boosted >= plain, "{query} in {text}");
    }
}

#[test]
fn a_score_of_one_ends_the_search() {
    // The underscore would give the second place a weight of 1.2.
    assert_eq!(matched(BOOST, "a", "a_a"), Some((1.0 * 1.5 * 2.5, vec![0])));
}

/// The best product of factors over all placements of the query in a text of ASCII letters,
/// separators and underscores.
fn best_placement(query: &[char], text: &[char], q: usize, p: usize) -> f64 {
    if q == query.len() {
        return 1.0;
    }
    let mut best = 0.0f64;
    for j in p..text.len() {
        if text[j].to_ascii_lowercase() == query[q] {
            let weight = if j == p {
                1.0
            } else if text[j - 1] == '/' {
                0.9
            } else if text[j - 1] == '_'
                || text[j - 1].is_ascii_lowercase() && text[j].is_ascii_uppercase()
            {
                0.8
            } else if q == 0 {
                0.6
            } else {
                0.2f64.max(0.6 - (j - p - 1) as f64 * 0.05)
            };
            best = best.max(best_placement(query, text, q + 1, j + 1) * weight);
        }
    }
    best
}

fn is_subsequence(word: &[char], text: &[char]) -> bool {
    let mut rest = text.iter();
    word.iter().all(|c| rest.any(|d| d.to_ascii_lowercase() == *c))
}

/// Texts made of a small alphabet.
fn texts() -> Vec<String> {
    let alphabet = ['a', 'b', 'A', 'B', '/', '_'];
    let mut all = Vec::new();
    let mut state: u64 = 0x2545_F491_4F6C_DD1D;
    for length in 0..10usize {
        for _ in 0..30 {
            let mut text = String::new();
            for _ in 0..length {
                state ^= state << 13;
                state ^= state >> 7;
                state ^= state << 17;
                text.push(alphabet[(state >> 33) as usize % alphabet.len()]);
            }
            all.push(text);
        }
    }
    all
}

#[test]
fn no_placement_is_better_than_the_match() {
    for query in ["a", "ab", "aba", "bb", "abab"] {
        for text in texts() {
            let word = chars(query);
            let best = best_placement(&word, &chars(&text), 0, 0);
            match matched(PLAIN, query, &text) {
                None => assert!(!is_subsequence(&word, &chars(&text)), "{query} in {text}"),
                Some((score, positions)) => {
                    assert!(is_subsequence(&word, &chars(&text)), "{query} in {text}");
                    assert_eq!(score, best * query.len() as f64, "{query} in {text}");
                    assert!(score <= query.len() as f64);
                    assert_eq!(positions.len(), query.len());
                    assert!(positions.windows(2).all(|pair| pair[0] < pair[1]));
                    for (c, at) in word.iter().zip(&positions) {
                        assert_eq!(text.as_bytes()[*at].to_ascii_lowercase() as char, *c);
                    }
                }
            }
        }
    }
}

#[test]
fn case_is_ignored_unless_it_counts() {
    for text in texts() {
        for settings in [PLAIN, SHORT, BOOST] {
            assert_eq!(matched(settings, "AbA", &text), matched(settings, "aba", &text));
        }
    }
    assert_ne!(matched(SMART, "AbA", "aba"), matched(SMART, "aba", "aba"));
}

#[test]
fn earlier_matches_make_no_difference() {
    let query = chars("ab");
    let mut matcher = Matcher::with_platform(&query, &query, 7u8, false, true, true, '/', false);
    for text in texts() {
        let again = matcher.match_text(&[], &[], &text).unwrap().map(value);
        let settings =
            Settings { smart_case: false, penalize_length: true, boost: true, separator: '/', windows: false };
        assert_eq!(again, matched(settings, "ab", &text).map(|found| found.0));
    }
}

#[test]
fn an_empty_query_matches_nothing() {
    assert_eq!(matched(PLAIN, "", ""), None);
    assert_eq!(matched(BOOST, "", "abc"), None);
}

#[test]
fn a_long_query_can_lose_its_score() {
    let smart = |length: usize| matched(SMART, &"A".repeat(length), &"a".repeat(length));
    assert!(smart(73).is_some());
    assert!(smart(110).is_none());
}

#[test]
fn positions_count_bytes() {
    assert_eq!(matched(PLAIN, "жb", "éжéb").map(|found| found.1), Some(vec![2, 6]));
    assert_eq!(matched(PLAIN, "b", "🆒b").map(|found| found.1), Some(vec![4]));
    assert_eq!(matched(PLAIN, "b", "京b").map(|found| found.1), Some(vec![3]));
    assert_eq!(matched(PLAIN, "σ", "aΣ").map(|found| found.1), Some(vec![1]));
}

#[test]
fn candidates_keep_their_order() {
    let query = chars("ab");
    let mut matcher = Matcher::new(&query, &query, 7u8, false, false, false);
    let (outcome, results) =
        run(&mut matcher, "", &items(&["axxb", "b", "ab", "ba", "axb"]), false);
    assert_eq!(outcome, Ok(()));
    assert_eq!(
        results,
        vec![
            ("axxb".to_string(), (0.6 - 0.05) * 2.0, vec![0, 3]),
            ("ab".to_string(), 2.0, vec![0, 1]),
            ("axb".to_string(), 1.2, vec![0, 2]),
        ]
    );
}

#[test]
fn candidates_that_lack_the_characters_are_passed_over() {
    let query = chars("a");
    let mut matcher = Matcher::new(&query, &query, 7u8, false, false, false);
    let mut candidates = items(&["a", "a", "ba"]);
    candidates[1].admitted = false;
    let (outcome, results) = run(&mut matcher, "", &candidates, false);
    assert_eq!(outcome, Ok(()));
    assert_eq!(
        results,
        vec![("a".to_string(), 1.0, vec![0]), ("ba".to_string(), 0.6, vec![1])]
    );
}

#[test]
fn a_cancelled_search_ends() {
    let query = chars("a");
    let mut matcher = Matcher::new(&query, &query, 7u8, false, false, false);
    let (outcome, results) = run(&mut matcher, "", &items(&["a", "ab"]), true);
    assert_eq!(outcome, Ok(()));
    assert!(results.is_empty());
}

#[test]
fn the_prefix_is_part_of_the_text() {
    let query = chars("sm");
    let mut matcher = Matcher::with_platform(&query, &query, 7u8, false, true, true, '/', false);
    let (outcome, results) = run(&mut matcher, "Src/", &items(&["main.rs", "lib.rs"]), false);
    assert_eq!(outcome, Ok(()));
    // The first character stands at the beginning, the second after a separator; only the second
    // is in the file name.
    let best = 0.9 * (1.0 / 11.0);
    assert_eq!(
        results,
        vec![("main.rs".to_string(), best * 2.0 * (1.0 + 0.5 * 0.5) * (1.0 + 0.0 * 1.5), vec![0, 4])]
    );
}

#[test]
fn longer_lowercase_characters_can_lead_out_of_the_tables() {
    let query = chars("code");
    let mut matcher = Matcher::with_platform(&query, &query, 7u8, false, true, false, '/', false);
    assert!(matcher.match_text(&[], &[], "İstanbul/code") == Err(Overrun));
    let (outcome, results) =
        run(&mut matcher, "", &items(&["code", "İstanbul/code", "code"]), false);
    assert_eq!(outcome, Err(Overrun));
    assert_eq!(results, vec![("code".to_string(), 1.0, vec![0, 1, 2, 3])]);
}

#[test]
fn lowercase_forms_that_are_too_short_lead_out_of_the_text() {
    let query = chars("b");
    let mut matcher = Matcher::with_platform(&query, &query, 7u8, false, true, false, '/', false);
    assert!(matcher.match_text(&['a', 'c'], &['a'], "xb") == Err(Overrun));
    assert!(matcher.match_text(&['a', 'c'], &['a', 'c'], "xb").is_ok());
    let longer = chars("bx");
    let mut matcher = Matcher::with_platform(&longer, &query, 7u8, false, true, false, '/', false);
    assert!(matcher.match_text(&[], &[], "bx") == Err(Overrun));
}

#[test]
fn a_backslash_stands_for_everything_but_on_windows() {
    let windows = Settings { penalize_length: false, ..WINDOWS };
    assert_eq!(matched(PLAIN, "\\", "xy\\"), Some((1.0, vec![0])));
    assert_eq!(matched(windows, "\\", "xy\\"), Some((0.6, vec![2])));
    // Backslashes alone do not make a path one of Windows.
    let other = Settings { windows: false, ..windows };
    assert_eq!(matched(other, "\\", "xy\\"), Some((1.0, vec![0])));
    assert_eq!(matched(PLAIN, "\\", "xy"), None);
}

#[test]
fn match_path_entries_separated_by_backslashes() {
    let paths = [
        "",
        "a",
        "ab",
        "abC",
        "abcd",
        "alphabravocharlie",
        "AlphaBravoCharlie",
        "thisisatestdir",
        "\\\\\\\\\\ThisIsATestDir",
        "\\this\\is\\a\\test\\dir",
        "\\test\\tiatd",
    ];
    let ranked = |query: &str| {
        let mut found: Vec<(f64, &str, Vec<usize>)> = paths
            .iter()
            .filter_map(|path| {
                matched(WINDOWS, query, path).map(|(score, positions)| (score, *path, positions))
            })
            .collect();
        found.sort_by(|a, b| b.0.partial_cmp(&a.0).unwrap().then_with(|| b.1.cmp(a.1)));
        found.into_iter().map(|(_, path, positions)| (path, positions)).collect::<Vec<_>>()
    };
    assert_eq!(
        ranked("abc"),
        vec![
            ("abC", vec![0, 1, 2]),
            ("abcd", vec![0, 1, 2]),
            ("AlphaBravoCharlie", vec![0, 5, 10]),
            ("alphabravocharlie", vec![4, 5, 10]),
        ]
    );
    assert_eq!(
        ranked("t\\i\\a\\t\\d"),
        vec![("\\this\\is\\a\\test\\dir", vec![1, 5, 6, 8, 9, 10, 11, 15, 16])]
    );
    assert_eq!(
        ranked("tiatd"),
        vec![
            ("\\test\\tiatd", vec![6, 7, 8, 9, 10]),
            ("\\this\\is\\a\\test\\dir", vec![1, 6, 9, 11, 16]),
            ("\\\\\\\\\\ThisIsATestDir", vec![5, 9, 11, 12, 16]),
            ("thisisatestdir", vec![0, 2, 6, 7, 11]),
        ]
    );
}

#[test]
fn a_new_matcher_goes_by_the_platform() {
    let query = chars("Ab");
    let lowercase_query = chars("ab");
    let matcher = Matcher::new(&query, &lowercase_query, 7u8, true, false, true);
    assert_eq!(matcher.separator, std::path::MAIN_SEPARATOR);
    assert_eq!(matcher.windows, std::path::Path::new("C:\\").is_absolute());
    assert_eq!(matcher.min_score.code(), 0);
    assert_eq!(matcher.query, &query[..]);
    assert_eq!(matcher.lowercase_query, &lowercase_query[..]);
    assert!(matcher.smart_case && !matcher.penalize_length && matcher.word_boundary_boost);
    assert_eq!(matcher.match_positions, vec![0, 0]);
    assert_eq!(matcher.last_positions, vec![0, 0]);
}

#[test]
fn matching_mode_has_a_default() {
    assert_eq!(MatchingMode::default(), MatchingMode::Default);
    assert_ne!(MatchingMode::default(), MatchingMode::WordBoundaryBoosted);
}

#[test]
fn positions_are_left_alone_without_a_match() {
    let query = chars("ab");
    let mut matcher = Matcher::with_platform(&query, &query, 7u8, false, true, false, '/', false);
    assert!(matcher.match_text(&[], &[], "xab").unwrap().is_some());
    assert_eq!(matcher.match_positions, vec![1, 2]);
    assert!(matcher.match_text(&[], &[], "xba").unwrap().is_none());
    assert_eq!(matcher.match_positions, vec![1, 2]);
    // Found, but lost to rounding.
    let upper = chars(&"A".repeat(110));
    let lower = chars(&"a".repeat(110));
    let mut matcher = Matcher::with_platform(&upper, &lower, 7u8, true, false, false, '/', false);
    matcher.match_positions = (5..115).collect();
    assert!(matcher.match_text(&[], &[], &"a".repeat(110)).unwrap().is_none());
    assert_eq!(matcher.match_positions, (5..115).collect::<Vec<usize>>());
}

#[test]
fn candidates_are_independent() {
    let query = chars("ab");
    let all = texts();
    let strings: Vec<&str> = all.iter().map(|text| text.as_str()).collect();
    let mut matcher = Matcher::new(&query, &query, 7u8, false, true, true);
    let together = run(&mut matcher, "", &items(&strings), false).1;
    let (first, second) = strings.split_at(strings.len() / 2);
    let mut apart = run(&mut matcher, "", &items(first), false).1;
    let mut fresh = Matcher::new(&query, &query, 7u8, false, true, true);
    apart.extend(run(&mut fresh, "", &items(second), false).1);
    assert!(!together.is_empty());
    assert_eq!(together, apart);
}

#[test]
fn cancelling_is_looked_at_for_each_candidate() {
    let query = chars("a");
    let mut matcher = Matcher::new(&query, &query, 7u8, false, false, false);
    let mut candidates = items(&["a", "a", "ab", "a"]);
    candidates[1].admitted = false;
    let flag = AtomicBool::new(false);
    let mut results: Vec<String> = Vec::new();
    // The first match cancels the rest.
    let outcome = matcher.match_candidates(
        &[],
        &[],
        &candidates,
        &mut results,
        &flag,
        |item: &Item, _score: Binary64, _positions: &Vec<usize>| {
            flag.store(true, Ordering::Relaxed);
            item.text.clone()
        },
    );
    assert_eq!(outcome, Ok(()));
    assert_eq!(results, vec!["a".to_string()]);
}

#[test]
fn a_reading_of_the_flag_decides() {
    let query = chars("a");
    let mut matcher = Matcher::new(&query, &query, 7u8, false, false, false);
    let item = Item { text: "ba".to_string(), admitted: true };
    let build = |_item: &Item, score: Binary64, _positions: &Vec<usize>| value(score);
    let mut results = Vec::new();
    assert_eq!(matcher.take_up(&[], &[], &item, true, &mut results, &build), Ok(false));
    assert!(results.is_empty());
    assert_eq!(matcher.take_up(&[], &[], &item, false, &mut results, &build), Ok(true));
    assert_eq!(results, vec![0.6]);
    let flag = AtomicBool::new(true);
    let refused = Item { text: "a".to_string(), admitted: false };
    let next = matcher.match_candidate(&[], &[], &refused, &mut results, &flag, &build);
    assert_eq!(next, Ok(true));
    let next = matcher.match_candidate(&[], &[], &item, &mut results, &flag, &build);
    assert_eq!(next, Ok(false));
    flag.store(false, Ordering::Relaxed);
    let next = matcher.match_candidate(&[], &[], &item, &mut results, &flag, &build);
    assert_eq!(next, Ok(true));
    assert_eq!(results, vec![0.6, 0.6]);
}

#[test]
fn the_division_of_a_text_makes_no_difference() {
    for text in texts() {
        for settings in [PLAIN, SHORT, SMART] {
            let whole = matched(settings, "aB", &text);
            for at in 0..=text.len() {
                let query = chars("aB");
                let lowercase_query = chars("ab");
                let mut matcher = Matcher::with_platform(
                    &query,
                    &lowercase_query,
                    7u8,
                    settings.smart_case,
                    settings.penalize_length,
                    false,
                    '/',
                    false,
                );
                let (prefix, rest) = text.split_at(at);
                let score =
                    matcher.match_text(&chars(prefix), &lowered(prefix), rest).unwrap().map(value);
                let divided = score.map(|score| (score, matcher.match_positions.clone()));
                assert_eq!(divided, whole, "{prefix}|{rest}");
            }
        }
    }
}

#[test]
fn strict_settings_only_lower_scores() {
    let strictest = Settings { penalize_length: true, ..SMART };
    for text in texts() {
        for (strict, loose) in [(SMART, PLAIN), (SHORT, PLAIN), (strictest, SMART)] {
            match (matched(strict, "aBa", &text), matched(loose, "aBa", &text)) {
                (None, None) => {}
                (Some(lower), Some(higher)) => assert!(lower.0 <= higher.0, "{text}"),
                _ => panic!("{text}"),
            }
        }
    }
}

#[test]
fn a_second_search_finds_the_score_in_the_table() {
    let query = chars("ab");
    let text = chars("xaxab");
    let none = std::collections::BTreeMap::new();
    let mut matcher = Matcher::with_platform(&query, &query, 7u8, false, true, false, '/', false);
    assert!(matcher.find_last_positions(&[], &text));
    matcher.score_matrix = vec![None; 10];
    matcher.best_position_matrix = vec![0; 10];
    let cur = Binary64::of_integer(2);
    let score =
        matcher.recursive_score_match(&text, &text, &[], &[], 0, 0, cur, &none).map(value);
    assert_eq!(score, Some(0.6 / 5.0));
    let cells = |matcher: &Matcher<'_, u8>| -> Vec<Option<f64>> {
        matcher.score_matrix.iter().map(|cell| cell.map(value)).collect()
    };
    let scores = cells(&matcher);
    let places = matcher.best_position_matrix.clone();
    assert_eq!(scores[0], score);
    assert_eq!(places[0], 3);
    let cur = Binary64::of_integer(77);
    let again =
        matcher.recursive_score_match(&text, &text, &[], &[], 0, 0, cur, &none).map(value);
    assert_eq!(again, score);
    assert_eq!(cells(&matcher), scores);
    assert_eq!(matcher.best_position_matrix, places);
    // What came before makes no difference to a new search either.
    matcher.score_matrix = vec![None; 10];
    matcher.best_position_matrix = vec![0; 10];
    let cur = Binary64::of_integer(0);
    let anew = matcher.recursive_score_match(&text, &text, &[], &[], 0, 0, cur, &none).map(value);
    assert_eq!(anew, score);
    assert_eq!(cells(&matcher), scores);
    assert_eq!(matcher.best_position_matrix, places);
}

#[test]
fn placements_below_the_minimum_are_cut_off() {
    let query = chars("ab");
    let mut matcher = Matcher::with_platform(&query, &query, 7u8, false, false, false, '/', false);
    matcher.min_score = Binary64::from_code(1.2f64.to_bits());
    assert_eq!(matcher.match_text(&[], &[], "axb").unwrap().map(value), Some(0.6 * 2.0));
    assert_eq!(matcher.match_positions, vec![0, 2]);
    // Two times 0.6 falls short: next to nothing is left.
    matcher.min_score = Binary64::from_code(1.5f64.to_bits());
    assert_eq!(matcher.match_text(&[], &[], "axb").unwrap().map(value), Some(1e-18 * 2.0));
}

#[test]
fn a_prepared_search_gives_score_and_positions() {
    let query = chars("B");
    let lowercase_query = chars("b");
    let text = chars("aéb");
    let none = std::collections::BTreeMap::new();
    let mut matcher =
        Matcher::with_platform(&query, &lowercase_query, 7u8, false, false, false, '/', false);
    assert!(matcher.find_last_positions(&[], &text));
    matcher.score_matrix = vec![None; 3];
    matcher.best_position_matrix = vec![0; 3];
    assert_eq!(matcher.score_match(&text, &text, &[], &[], &none).map(value), Some(0.6));
    assert_eq!(matcher.match_positions, vec![3]);
    // The tables hold what the search has found.
    let scores: Vec<Option<f64>> =
        matcher.score_matrix.iter().map(|cell| cell.map(value)).collect();
    assert_eq!(scores, vec![Some(0.6), None, None]);
    assert_eq!(matcher.best_position_matrix, vec![2, 0, 0]);
    // Without tables there is nowhere to write.
    matcher.score_matrix = Vec::new();
    matcher.best_position_matrix = Vec::new();
    assert!(matcher.score_match(&text, &text, &[], &[], &none).is_none());
}

#[test]
fn a_search_leaves_its_tables_behind() {
    let query = chars("ab");
    let mut matcher = Matcher::with_platform(&query, &query, 7u8, false, false, false, '/', false);
    assert!(matcher.match_text(&[], &[], "axb").unwrap().is_some());
    assert_eq!(matcher.last_positions, vec![0, 2]);
    let cells = |matcher: &Matcher<'_, u8>| -> Vec<Option<f64>> {
        matcher.score_matrix.iter().map(|cell| cell.map(value)).collect()
    };
    let scores = vec![Some(0.6), None, None, None, Some(0.6), None];
    assert_eq!(cells(&matcher), scores);
    assert_eq!(matcher.best_position_matrix, vec![0, 0, 0, 0, 2, 0]);
    // Where the query is not found the tables are left alone.
    assert!(matcher.match_text(&[], &[], "qqb").unwrap().is_none());
    assert_eq!(matcher.last_positions, vec![0, 2]);
    assert_eq!(cells(&matcher), scores);
    assert_eq!(matcher.best_position_matrix, vec![0, 0, 0, 0, 2, 0]);
}
