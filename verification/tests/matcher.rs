use fuzzy::{Binary64, MatchCandidate, Matcher, Overrun};
use std::borrow::Cow;
use std::sync::atomic::AtomicBool;

/// A set of the ASCII letters and digits that occur in a text.
#[derive(Clone, Copy, Debug, PartialEq, Eq)]
struct CharBag(u64);

impl CharBag {
    fn is_superset(self, other: CharBag) -> bool {
        self.0 & other.0 == other.0
    }
}

impl From<&[char]> for CharBag {
    fn from(chars: &[char]) -> Self {
        let mut bits = 0u64;
        for c in chars {
            if c.is_ascii_lowercase() {
                bits |= 1 << (*c as u32 - 'a' as u32);
            } else if c.is_ascii_digit() {
                bits |= 1 << (26 + *c as u32 - '0' as u32);
            }
        }
        CharBag(bits)
    }
}

struct PathMatchCandidate<'a> {
    char_bag: CharBag,
    path: &'a str,
}

impl<'a> MatchCandidate<CharBag> for PathMatchCandidate<'a> {
    fn has_chars(&self, bag: CharBag) -> bool {
        self.char_bag.is_superset(bag)
    }

    fn to_string(&self) -> Cow<'_, str> {
        Cow::Borrowed(self.path)
    }
}

struct PathMatch<'a> {
    score: f64,
    positions: Vec<usize>,
    path: &'a str,
}

fn score_of(number: Binary64) -> f64 {
    f64::from_bits(number.code())
}

fn lowered(text: &str) -> Vec<char> {
    text.to_lowercase().chars().collect()
}

fn candidates<'a>(paths: &[&'a str]) -> Vec<PathMatchCandidate<'a>> {
    paths
        .iter()
        .map(|path| PathMatchCandidate {
            char_bag: CharBag::from(lowered(path).as_slice()),
            path,
        })
        .collect()
}

fn match_with<'a>(
    matcher: &mut Matcher<'_, CharBag>,
    prefix: &str,
    paths: &[&'a str],
) -> Result<Vec<PathMatch<'a>>, Overrun> {
    let path_entries = candidates(paths);
    let cancel_flag = AtomicBool::new(false);
    let mut results = Vec::new();
    let prefix_chars: Vec<char> = prefix.chars().collect();
    let lowercase_prefix: Vec<char> = lowered(prefix);
    matcher.match_candidates(
        &prefix_chars,
        &lowercase_prefix,
        &path_entries,
        &mut results,
        &cancel_flag,
        |candidate: &PathMatchCandidate<'a>, score: Binary64, positions: &Vec<usize>| PathMatch {
            score: score_of(score),
            positions: positions.clone(),
            path: candidate.path,
        },
    )?;
    Ok(results)
}

fn match_single_path_query_scored<'a>(
    query: &str,
    smart_case: bool,
    word_boundary_boost: bool,
    paths: &[&'a str],
) -> Vec<(&'a str, Vec<usize>, f64)> {
    let lowercase_query = lowered(query);
    let query = query.chars().collect::<Vec<_>>();
    let query_chars = CharBag::from(&lowercase_query[..]);
    let mut matcher = Matcher::new(
        &query,
        &lowercase_query,
        query_chars,
        smart_case,
        true,
        word_boundary_boost,
    );
    let mut results = match_with(&mut matcher, "", paths).expect("the search stays in its tables");
    results.sort_by(|a, b| {
        b.score
            .partial_cmp(&a.score)
            .unwrap()
            .then_with(|| b.path.cmp(a.path))
    });
    results
        .into_iter()
        .map(|result| (result.path, result.positions, result.score))
        .collect()
}

fn match_single_path_query<'a>(
    query: &str,
    smart_case: bool,
    paths: &[&'a str],
) -> Vec<(&'a str, Vec<usize>)> {
    match_single_path_query_scored(query, smart_case, false, paths)
        .into_iter()
        .map(|(path, positions, _)| (path, positions))
        .collect()
}

#[test]
fn test_get_last_positions() {
    let mut query: &[char] = &['d', 'c'];
    let mut matcher: Matcher<'_, CharBag> =
        Matcher::new(query, query, query.into(), false, true, false);
    let result = matcher.find_last_positions(&['a', 'b', 'c'], &['b', 'd', 'e', 'f']);
    assert!(!result);

    query = &['c', 'd'];
    let mut matcher: Matcher<'_, CharBag> =
        Matcher::new(query, query, query.into(), false, true, false);
    let result = matcher.find_last_positions(&['a', 'b', 'c'], &['b', 'd', 'e', 'f']);
    assert!(result);
    assert_eq!(matcher.last_positions, vec![2, 4]);

    query = &['z', '/', 'z', 'f'];
    let mut matcher: Matcher<'_, CharBag> =
        Matcher::new(query, query, query.into(), false, true, false);
    let result = matcher.find_last_positions(&['z', 'e', 'd', '/'], &['z', 'e', 'd', '/', 'f']);
    assert!(result);
    assert_eq!(matcher.last_positions, vec![0, 3, 4, 8]);
}

#[test]
fn matcher_test_match_path_entries() {
    let paths = vec![
        "",
        "a",
        "ab",
        "abC",
        "abcd",
        "alphabravocharlie",
        "AlphaBravoCharlie",
        "thisisatestdir",
        "/////ThisIsATestDir",
        "/this/is/a/test/dir",
        "/test/tiatd",
    ];

    assert_eq!(
        match_single_path_query("abc", false, &paths),
        vec![
            ("abC", vec![0, 1, 2]),
            ("abcd", vec![0, 1, 2]),
            ("AlphaBravoCharlie", vec![0, 5, 10]),
            ("alphabravocharlie", vec![4, 5, 10]),
        ]
    );
    assert_eq!(
        match_single_path_query("t/i/a/t/d", false, &paths),
        vec![("/this/is/a/test/dir", vec![1, 5, 6, 8, 9, 10, 11, 15, 16]),]
    );

    assert_eq!(
        match_single_path_query("tiatd", false, &paths),
        vec![
            ("/test/tiatd", vec![6, 7, 8, 9, 10]),
            ("/this/is/a/test/dir", vec![1, 6, 9, 11, 16]),
            ("/////ThisIsATestDir", vec![5, 9, 11, 12, 16]),
            ("thisisatestdir", vec![0, 2, 6, 7, 11]),
        ]
    );
}

#[test]
fn test_lowercase_longer_than_uppercase() {
    // This character has more chars in lower-case than in upper-case.
    let paths = vec!["\u{0130}"];
    let query = "\u{0130}";
    assert_eq!(
        match_single_path_query(query, false, &paths),
        vec![("\u{0130}", vec![0])]
    );

    // Path is the lower-case version of the query
    let paths = vec!["i\u{307}"];
    let query = "\u{0130}";
    assert_eq!(
        match_single_path_query(query, false, &paths),
        vec![("i\u{307}", vec![0])]
    );
}

#[test]
fn test_match_multibyte_path_entries() {
    let paths = vec![
        "aαbβ/cγdδ",
        "αβγδ/bcde",
        "c1️⃣2️⃣3️⃣/d4️⃣5️⃣6️⃣/e7️⃣8️⃣9️⃣/f",
        "/d/🆒/h",
    ];
    assert_eq!("1️⃣".len(), 7);
    assert_eq!(
        match_single_path_query("bcd", false, &paths),
        vec![
            ("αβγδ/bcde", vec![9, 10, 11]),
            ("aαbβ/cγdδ", vec![3, 7, 10]),
        ]
    );
    assert_eq!(
        match_single_path_query("cde", false, &paths),
        vec![
            ("αβγδ/bcde", vec![10, 11, 12]),
            ("c1️⃣2️⃣3️⃣/d4️⃣5️⃣6️⃣/e7️⃣8️⃣9️⃣/f", vec![0, 23, 46]),
        ]
    );
}

#[test]
fn match_unicode_path_entries() {
    let mixed_unicode_paths = vec![
        "İolu/oluş",
        "İstanbul/code",
        "Athens/Şanlıurfa",
        "Çanakkale/scripts",
        "paris/Düzce_İl",
        "Berlin_Önemli_Ğündem",
        "KİTAPLIK/london/dosya",
        "tokyo/kyoto/fuji",
        "new_york/san_francisco",
    ];

    assert_eq!(
        match_single_path_query("İo/oluş", false, &mixed_unicode_paths),
        vec![("İolu/oluş", vec![0, 2, 4, 6, 8, 10, 12])]
    );

    assert_eq!(
        match_single_path_query("İst/code", false, &mixed_unicode_paths),
        vec![("İstanbul/code", vec![0, 2, 4, 6, 8, 10, 12, 14])]
    );

    assert_eq!(
        match_single_path_query("athens/şa", false, &mixed_unicode_paths),
        vec![("Athens/Şanlıurfa", vec![0, 1, 2, 3, 4, 5, 6, 7, 9])]
    );

    assert_eq!(
        match_single_path_query("BerlinÖĞ", false, &mixed_unicode_paths),
        vec![("Berlin_Önemli_Ğündem", vec![0, 1, 2, 3, 4, 5, 7, 15])]
    );

    assert_eq!(
        match_single_path_query("tokyo/fuji", false, &mixed_unicode_paths),
        vec![("tokyo/kyoto/fuji", vec![0, 1, 2, 3, 4, 5, 12, 13, 14, 15])]
    );

    let mixed_script_paths = vec![
        "résumé_Москва",
        "naïve_київ_implementation",
        "café_北京_app",
        "東京_über_driver",
        "déjà_vu_cairo",
        "seoul_piñata_game",
        "voilà_istanbul_result",
    ];

    assert_eq!(
        match_single_path_query("résmé", false, &mixed_script_paths),
        vec![("résumé_Москва", vec![0, 1, 3, 5, 6])]
    );

    assert_eq!(
        match_single_path_query("café北京", false, &mixed_script_paths),
        vec![("café_北京_app", vec![0, 1, 2, 3, 6, 9])]
    );

    assert_eq!(
        match_single_path_query("ista", false, &mixed_script_paths),
        vec![("voilà_istanbul_result", vec![7, 8, 9, 10])]
    );

    let complex_paths = vec![
        "document_📚_library",
        "project_👨‍👩‍👧‍👦_family",
        "flags_🇯🇵🇺🇸🇪🇺_world",
        "code_😀😃😄😁_happy",
        "photo_👩‍👩‍👧‍👦_album",
    ];

    assert_eq!(
        match_single_path_query("doc📚lib", false, &complex_paths),
        vec![("document_📚_library", vec![0, 1, 2, 9, 14, 15, 16])]
    );

    assert_eq!(
        match_single_path_query("codehappy", false, &complex_paths),
        vec![("code_😀😃😄😁_happy", vec![0, 1, 2, 3, 22, 23, 24, 25, 26])]
    );
}

#[test]
fn test_word_boundary_boost_camel_case() {
    let paths = vec![
        "src/SimulatedChatService.rs",
        "src/SCSManager.rs",
    ];

    let results = match_single_path_query_scored("SCS", false, true, &paths);
    assert_eq!(results.len(), 2);

    let scs_manager_score = results
        .iter()
        .find(|(p, _, _)| p.contains("SCSManager"))
        .map(|(_, _, s)| *s)
        .expect("SCSManager should match");
    let simulated_score = results
        .iter()
        .find(|(p, _, _)| p.contains("SimulatedChatService"))
        .map(|(_, _, s)| *s)
        .expect("SimulatedChatService should match");

    assert!(
        simulated_score > scs_manager_score,
        "Hump match score ({simulated_score}) should beat prefix match ({scs_manager_score})"
    );
}

#[test]
fn test_word_boundary_boost_hybrid_hump_prefix() {
    let paths = vec![
        "src/SimulatedChatService.rs",
        "src/SomeOtherFile.rs",
    ];

    let results = match_single_path_query_scored("SCService", false, true, &paths);
    let simulated = results
        .iter()
        .find(|(p, _, _)| p.contains("SimulatedChatService"));
    assert!(
        simulated.is_some(),
        "SCService should match SimulatedChatService"
    );
}

#[test]
fn test_word_boundary_boost_snake_case() {
    let paths = vec![
        "src/simulated_chat_service.rs",
        "src/simulated-chat-service.rs",
    ];

    let results = match_single_path_query_scored("scs", false, true, &paths);
    assert_eq!(results.len(), 2, "scs should match both snake_case and kebab-case");
}

#[test]
fn test_word_boundary_boost_hump_beats_prefix() {
    let paths = vec![
        "src/SimulatedChatService.rs",
        "src/SCSManager.rs",
    ];

    let results = match_single_path_query_scored("SCS", false, true, &paths);
    assert_eq!(results[0].0, "src/SimulatedChatService.rs",
        "Perfect hump match should rank first");
}
