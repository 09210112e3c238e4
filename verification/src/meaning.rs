//! What a match means, said of the characters of query and text alone.
use vstd::prelude::*;
use crate::binary64;
use crate::characters;
use crate::embedding;
use crate::laws;
use crate::lowering;
use crate::matcher::Matcher;
use crate::scoring;
use crate::scoring::Scoring;
use crate::weights;

verus! {

/// The character of the lowercase text at a place: of the lowercase prefix as far as the prefix
/// goes, then of the lowercase candidate.
pub open spec fn lowercase_at(s: Scoring, j: int) -> char {
    if j < s.prefix.len() {
        s.lowercase_prefix[j]
    } else {
        s.lowercase_path[j - s.prefix.len()]
    }
}

/// A query character is looked for at a place exactly where the two characters are equal in
/// lowercase, where an underscore meets the separator, or where it is a backslash, but not on
/// Windows.
pub proof fn law_characters_match_when_equal(s: Scoring, q: nat, j: nat)
    ensures
        s.matches(q, j) <==> {
            ||| s.lowercase_query[q as int] == lowercase_at(s, j as int)
            ||| s.lowercase_query[q as int] == '_' && lowercase_at(s, j as int) == s.separator
            ||| s.lowercase_query[q as int] == '\\' && !s.windows
        },
{
}

/// A difference is penalized with 0.001, wherever it stands: where case counts every difference
/// between the query and the text, otherwise only that to a separator. Nothing else is penalized.
pub proof fn law_differences_cost_a_thousandth(s: Scoring, q: nat, p: nat, j: nat)
    ensures
        ({
            let wanted = s.query[q as int];
            let here = (s.prefix + s.path)[s.regular(j) as int];
            let weight = s.placement_weight(q, p, j);
            &&& wanted == here ==> s.character_weight(q, p, j) == weight
            &&& wanted != here && s.smart_case ==> s.character_weight(q, p, j)
                == binary64::product(weight, binary64::fraction(1, 1000))
            &&& wanted != here && here == s.separator ==> s.character_weight(q, p, j)
                == binary64::product(weight, binary64::fraction(1, 1000))
            &&& wanted != here && !s.smart_case && here != s.separator ==> s.character_weight(
                q,
                p,
                j,
            ) == weight
        }),
{
}

/// What a place weighs: one right where the search goes on; else 0.9 after a separator; else 0.8,
/// or 1.2 with the boost, at the beginning of a word; else 0.7 after a dot; else 0.6 for the first
/// character; else 0.6 less 0.05 for each character in between, but 0.2 or more.
pub proof fn law_places_weigh_by_what_is_before(s: Scoring, q: nat, p: nat, j: nat)
    requires
        p <= j,
    ensures
        ({
            let text = s.prefix + s.path;
            let here = text[s.regular(j) as int];
            let before = text[s.regular(j) - 1];
            let at_word = before == '-' || before == '_' || before == ' ' || characters::numeric(
                before,
            ) || (characters::lowercase(before) && characters::uppercase(here));
            let weight = s.placement_weight(q, p, j);
            let reduction = binary64::product(
                binary64::fraction((j - p - 1) as nat, 1),
                binary64::fraction(5, 100),
            );
            &&& j == p ==> weight == binary64::fraction(1, 1)
            &&& j > p && before == s.separator ==> weight == binary64::fraction(9, 10)
            &&& j > p && before != s.separator && at_word && s.word_boundary_boost ==> weight
                == binary64::fraction(12, 10)
            &&& j > p && before != s.separator && at_word && !s.word_boundary_boost ==> weight
                == binary64::fraction(8, 10)
            &&& j > p && before != s.separator && !at_word && before == '.' ==> weight
                == binary64::fraction(7, 10)
            &&& j > p && before != s.separator && !at_word && before != '.' && q == 0 ==> weight
                == binary64::fraction(6, 10)
            &&& j > p && before != s.separator && !at_word && before != '.' && q > 0 ==> {
                &&& weight >= binary64::fraction(2, 10)
                &&& reduction >= binary64::fraction(6, 10) ==> weight == binary64::fraction(2, 10)
                &&& reduction < binary64::fraction(6, 10) ==> {
                    let reduced = binary64::difference(binary64::fraction(6, 10), reduction);
                    &&& weight >= reduced
                    &&& weight == reduced || weight == binary64::fraction(2, 10)
                }
            }
        }),
{
}

/// Place `k` holds the last separator among the places from `p` to `j`.
pub open spec fn last_separator_at(s: Scoring, p: int, j: int, k: int) -> bool {
    &&& p <= k <= j
    &&& lowercase_at(s, k) == s.separator
    &&& forall|m: int| k < m <= j ==> #[trigger] lowercase_at(s, m) != s.separator
}

/// There is no separator among the places from `p` to `j`.
pub open spec fn no_separator(s: Scoring, p: int, j: int) -> bool {
    forall|m: int| p <= m <= j ==> #[trigger] lowercase_at(s, m) != s.separator
}

/// What counts as the last separator of the places looked at is the last one, or the beginning of
/// the text where there is none.
pub proof fn lemma_last_slash_is_last(s: Scoring, p: nat, j: nat)
    ensures
        (exists|k: int| #[trigger] last_separator_at(s, p as int, j as int, k) && s.last_slash(p, j)
            == s.regular(k as nat)) || (no_separator(s, p as int, j as int) && s.last_slash(p, j)
            == 0),
    decreases j,
{
    if j >= p {
        assert(s.lowercase_char(j) == lowercase_at(s, j as int));
        if lowercase_at(s, j as int) == s.separator {
            assert(last_separator_at(s, p as int, j as int, j as int));
        } else if j > 0 {
            lemma_last_slash_is_last(s, p, (j - 1) as nat);
            if exists|k: int| #[trigger]
                last_separator_at(s, p as int, j - 1, k) && s.last_slash(p, (j - 1) as nat)
                    == s.regular(k as nat) {
                let k = choose|k: int| #[trigger]
                    last_separator_at(s, p as int, j - 1, k) && s.last_slash(p, (j - 1) as nat)
                        == s.regular(k as nat);
                assert(last_separator_at(s, p as int, j as int, k));
            }
        }
    }
}

/// Where length counts, the first factor is the weight divided by the length of the text less the
/// place of the last separator at or before the match, or by the whole length where there is none.
/// No other factor is divided, nor is any where length does not count.
pub proof fn law_length_counts_from_the_last_separator(s: Scoring, q: nat, p: nat, j: nat)
    ensures
        ({
            let weight = s.character_weight(q, p, j);
            let length = (s.prefix + s.path).len();
            &&& s.penalize_length && q == 0 ==> {
                ||| exists|k: int| #[trigger]
                    last_separator_at(s, p as int, j as int, k) && s.factor(q, p, j)
                        == binary64::quotient(
                        weight,
                        binary64::fraction((length - s.regular(k as nat)) as nat, 1),
                    )
                ||| no_separator(s, p as int, j as int) && s.factor(q, p, j) == binary64::quotient(
                    weight,
                    binary64::fraction(length, 1),
                )
            }
            &&& !s.penalize_length || q > 0 ==> s.factor(q, p, j) == weight
        }),
{
    lemma_last_slash_is_last(s, p, j);
    if exists|k: int| #[trigger]
        last_separator_at(s, p as int, j as int, k) && s.last_slash(p, j) == s.regular(k as nat) {
        let k = choose|k: int| #[trigger]
            last_separator_at(s, p as int, j as int, k) && s.last_slash(p, j) == s.regular(
                k as nat,
            );
        assert(last_separator_at(s, p as int, j as int, k));
    }
}

/// The last path component begins at the first character of the candidate, or right after a
/// separator of the candidate; and from there on the candidate holds no separator.
pub proof fn law_file_name_follows_the_last_separator(s: Scoring)
    ensures
        ({
            let start = s.filename_start() - s.prefix.len();
            &&& 0 <= start <= s.path.len()
            &&& start == 0 || s.path[start - 1] == s.separator
            &&& forall|k: int| start <= k < s.path.len() ==> #[trigger] s.path[k] != s.separator
        }),
{
    lemma_after_last(s.path, s.separator);
}

proof fn lemma_after_last(text: Seq<char>, c: char)
    ensures
        scoring::after_last(text, c) <= text.len(),
        scoring::after_last(text, c) == 0 || text[scoring::after_last(text, c) - 1] == c,
        forall|k: int| scoring::after_last(text, c) <= k < text.len() ==> #[trigger] text[k] != c,
    decreases text.len(),
{
    if text.len() > 0 && text.last() != c {
        let rest = text.drop_last();
        lemma_after_last(rest, c);
        assert forall|k: int| scoring::after_last(text, c) <= k < text.len() implies #[trigger] text[k]
            != c by {
            if k < rest.len() {
                assert(rest[k] == text[k]);
            }
        }
    }
}

/// A word begins at place `k` of a text, right after a hyphen, an underscore, a space or a numeric
/// character, or where an uppercase character follows a lowercase one.
pub open spec fn begins_after_boundary(text: Seq<char>, k: int) -> bool {
    let before = text[k - 1];
    ||| before == '-'
    ||| before == '_'
    ||| before == ' '
    ||| characters::numeric(before)
    ||| characters::lowercase(before) && characters::uppercase(text[k])
}

/// The list of word beginnings holds, in increasing order, the first place of the last path
/// component and every later place of it at which a word begins, and no other.
pub proof fn law_word_starts_are_the_words(s: Scoring)
    requires
        (s.prefix + s.path).len() <= usize::MAX,
    ensures
        ({
            let text = s.prefix + s.path;
            let start = s.filename_start();
            let starts = s.word_starts(text.len());
            &&& starts.len() > 0 && starts[0] == start
            &&& forall|a: int, b: int| 0 <= a < b < starts.len() ==> starts[a] < starts[b]
            &&& forall|a: int|
                0 < a < starts.len() ==> start < #[trigger] starts[a] < text.len()
                    && begins_after_boundary(text, starts[a] as int)
            &&& forall|k: int|
                start < k < text.len() && #[trigger] begins_after_boundary(text, k)
                    ==> starts.contains(k as usize)
        }),
{
    lemma_after_last(s.path, s.separator);
    lemma_word_starts(s, (s.prefix + s.path).len());
}

proof fn lemma_word_starts(s: Scoring, end: nat)
    requires
        end <= (s.prefix + s.path).len() <= usize::MAX,
        s.filename_start() <= (s.prefix + s.path).len(),
    ensures
        ({
            let text = s.prefix + s.path;
            let start = s.filename_start();
            let starts = s.word_starts(end);
            &&& starts.len() > 0 && starts[0] == start
            &&& forall|a: int, b: int| 0 <= a < b < starts.len() ==> starts[a] < starts[b]
            &&& forall|a: int|
                0 < a < starts.len() ==> start < #[trigger] starts[a] < end
                    && begins_after_boundary(text, starts[a] as int)
            &&& forall|k: int|
                start < k < end && #[trigger] begins_after_boundary(text, k) ==> starts.contains(
                    k as usize,
                )
        }),
    decreases end,
{
    let text = s.prefix + s.path;
    let start = s.filename_start();
    let starts = s.word_starts(end);
    if end > start + 1 {
        let rest = s.word_starts((end - 1) as nat);
        lemma_word_starts(s, (end - 1) as nat);
        let last = (end - 1) as usize;
        assert forall|k: int|
            start < k < end && #[trigger] begins_after_boundary(
                text,
                k,
            ) implies starts.contains(k as usize) by {
            if k < end - 1 {
                assert(rest.contains(k as usize));
                let a = choose|a: int| 0 <= a < rest.len() && rest[a] == k as usize;
                assert(starts[a] == k as usize);
            } else {
                assert(starts == rest.push(last));
                assert(starts[rest.len() as int] == k as usize);
            }
        }
        assert forall|a: int, b: int| 0 <= a < b < starts.len() implies starts[a] < starts[b] by {
            if b == rest.len() && a > 0 {
                assert(start < rest[a] < end - 1);
            }
        }
        assert forall|a: int| 0 < a < starts.len() implies start < #[trigger] starts[a] < end
            && begins_after_boundary(text, starts[a] as int) by {
            if a < rest.len() {
                assert(starts[a] == rest[a]);
            }
        }
    }
}

/// Of places that come one after the other, those in the last path component are counted.
pub proof fn law_file_name_matches_are_counted(s: Scoring, places: Seq<usize>)
    requires
        forall|a: int, b: int| 0 <= a < b < places.len() ==> places[a] < places[b],
    ensures
        s.filename_matches(places) <= places.len(),
        forall|i: int|
            0 <= i < places.len() ==> (#[trigger] places[i] >= s.filename_start() <==> i
                >= places.len() - s.filename_matches(places)),
    decreases places.len(),
{
    if places.len() > 0 {
        let rest = places.drop_last();
        law_file_name_matches_are_counted(s, rest);
        assert forall|i: int| 0 <= i < places.len() implies (#[trigger] places[i]
            >= s.filename_start() <==> i >= places.len() - s.filename_matches(places)) by {
            if i < rest.len() {
                assert(rest[i] == places[i]);
                assert(places[i] < places[places.len() - 1]);
                if s.filename_matches(rest) > 0 {
                    assert(rest[rest.len() - 1] >= s.filename_start());
                    assert(places[rest.len() - 1] < places[places.len() - 1]);
                }
            } else if rest.len() > 0 && s.filename_matches(rest) > 0 {
                assert(rest[rest.len() - 1] >= s.filename_start());
                assert(places[rest.len() - 1] < places[places.len() - 1]);
            }
        }
    }
}

/// The places that are the beginnings of the words of the same numbers are counted, from the first
/// one on, up to the first that is not.
pub proof fn law_leading_words_are_counted(places: Seq<usize>, starts: Seq<usize>)
    ensures
        ({
            let hits = scoring::leading_hits(places, starts, 0);
            &&& hits <= places.len()
            &&& hits <= starts.len()
            &&& forall|i: int| 0 <= i < hits ==> #[trigger] places[i] == starts[i]
            &&& hits == places.len() || hits == starts.len() || places[hits as int]
                != starts[hits as int]
        }),
{
    lemma_leading_hits(places, starts, 0);
}

proof fn lemma_leading_hits(places: Seq<usize>, starts: Seq<usize>, from: int)
    requires
        0 <= from,
        from <= places.len(),
        from <= starts.len(),
    ensures
        ({
            let end = from + scoring::leading_hits(places, starts, from);
            &&& end <= places.len()
            &&& end <= starts.len()
            &&& forall|i: int| from <= i < end ==> #[trigger] places[i] == starts[i]
            &&& end == places.len() || end == starts.len() || places[end] != starts[end]
        }),
    decreases places.len() - from,
{
    if from < places.len() && from < starts.len() && places[from] == starts[from] {
        lemma_leading_hits(places, starts, from + 1);
    }
}

/// The score of a match: the best product times the length of the query; and with the boost that
/// times one and half the share of characters in the last path component, times one and one and
/// a half the share of characters that follow its words.
pub proof fn law_total_is_boosted(s: Scoring, best: nat, places: Seq<usize>)
    ensures
        ({
            let n = binary64::fraction(s.query.len(), 1);
            let one = binary64::fraction(1, 1);
            let base = binary64::product(best, n);
            let inside = binary64::quotient(
                binary64::fraction(s.filename_matches(places), 1),
                n,
            );
            let hits = scoring::leading_hits(places, s.word_starts((s.prefix + s.path).len()), 0);
            let at_words = binary64::quotient(binary64::fraction(hits, 1), n);
            &&& !s.word_boundary_boost ==> s.total(best, places) == base
            &&& s.word_boundary_boost && s.query.len() > 0 ==> s.total(best, places)
                == binary64::product(
                binary64::product(
                    base,
                    binary64::sum(one, binary64::product(inside, binary64::fraction(5, 10))),
                ),
                binary64::sum(one, binary64::product(at_words, binary64::fraction(15, 10))),
            )
        }),
{
}

/// The places are a way to place the query in a text: one for each of its characters, one after
/// the other, each with the character that is wanted there in lowercase, or with the separator for
/// an underscore, or with anything for a backslash, but not on Windows; and none of them later
/// than where the character stands when the whole lowercase query is found in the text.
pub open spec fn placed<Bag>(
    matcher: &Matcher<Bag>,
    text: Seq<char>,
    lowercase: Seq<char>,
    places: Seq<usize>,
) -> bool {
    &&& places.len() == matcher.query@.len()
    &&& forall|a: int, b: int| 0 <= a < b < places.len() ==> places[a] < places[b]
    &&& forall|i: int|
        0 <= i < places.len() ==> #[trigger] places[i] < text.len() && {
            let wanted = matcher.lowercase_query@[i];
            let found = lowercase[places[i] as int];
            ||| wanted == found
            ||| wanted == '_' && found == matcher.separator
            ||| wanted == '\\' && !matcher.windows
        }
    &&& forall|i: int|
        #![trigger places[i]]
        0 <= i < places.len() ==> exists|found: Seq<usize>|
            #![trigger embedding::embeds(lowercase, matcher.lowercase_query@, found)]
            embedding::embeds(lowercase, matcher.lowercase_query@, found) && places[i] <= found[i]
}

/// Where the last separator at or before a place stands; the beginning where there is none.
pub open spec fn separated_at(lowercase: Seq<char>, separator: char, at: int, k: int) -> bool {
    ||| 0 <= k <= at && lowercase[k] == separator && forall|m: int|
        k < m <= at ==> #[trigger] lowercase[m] != separator
    ||| k == 0 && forall|m: int| 0 <= m <= at ==> #[trigger] lowercase[m] != separator
}

/// The factor that character `i` of the query earns at its place.
pub open spec fn earns<Bag>(
    matcher: &Matcher<Bag>,
    text: Seq<char>,
    lowercase: Seq<char>,
    places: Seq<usize>,
    i: int,
    factor: nat,
) -> bool {
    let at = places[i] as int;
    let free = if i == 0 {
        0int
    } else {
        places[i - 1] + 1
    };
    let here = text[at];
    let before = text[at - 1];
    let at_word = begins_after_boundary(text, at);
    let reduction = binary64::product(
        binary64::fraction((at - free - 1) as nat, 1),
        binary64::fraction(5, 100),
    );
    let reduced = binary64::difference(binary64::fraction(6, 10), reduction);
    let weight = if at == free {
        binary64::fraction(1, 1)
    } else if before == matcher.separator {
        binary64::fraction(9, 10)
    } else if at_word && matcher.word_boundary_boost {
        binary64::fraction(12, 10)
    } else if at_word {
        binary64::fraction(8, 10)
    } else if before == '.' {
        binary64::fraction(7, 10)
    } else if i == 0 {
        binary64::fraction(6, 10)
    } else if reduction < binary64::fraction(6, 10) && reduced >= binary64::fraction(2, 10) {
        reduced
    } else {
        binary64::fraction(2, 10)
    };
    let penalized = if matcher.query@[i] != here && (matcher.smart_case || here
        == matcher.separator) {
        binary64::product(weight, binary64::fraction(1, 1000))
    } else {
        weight
    };
    if matcher.penalize_length && i == 0 {
        exists|k: int| #[trigger]
            separated_at(lowercase, matcher.separator, at, k) && factor == binary64::quotient(
                penalized,
                binary64::fraction((text.len() - k) as nat, 1),
            )
    } else {
        factor == penalized
    }
}

/// A way to place the query, with the factors that its characters earn.
pub open spec fn way<Bag>(
    matcher: &Matcher<Bag>,
    text: Seq<char>,
    lowercase: Seq<char>,
    places: Seq<usize>,
    factors: Seq<nat>,
) -> bool {
    &&& placed(matcher, text, lowercase, places)
    &&& factors.len() == places.len()
    &&& forall|i: int|
        0 <= i < places.len() ==> earns(matcher, text, lowercase, places, i, #[trigger] factors[i])
}

/// The product of the factors from number `i` on, multiplied from the last one back.
pub open spec fn product_from(factors: Seq<nat>, i: nat) -> nat
    decreases factors.len() - i,
{
    if i >= factors.len() {
        binary64::fraction(1, 1)
    } else {
        binary64::product(product_from(factors, i + 1), factors[i as int])
    }
}

/// Without the boost, or where no way to place the query has a product that comes to exactly one
/// from any of its characters on.
pub open spec fn unstopped<Bag>(
    matcher: &Matcher<Bag>,
    text: Seq<char>,
    lowercase: Seq<char>,
) -> bool {
    !matcher.word_boundary_boost || forall|places: Seq<usize>, factors: Seq<nat>, q: nat|
        #[trigger] way(matcher, text, lowercase, places, factors) && q < factors.len()
            ==> #[trigger] product_from(factors, q) != binary64::fraction(1, 1)
}

/// The last path component of a text begins at `start`: at the first place after the prefix, or
/// right after a separator that is not in the prefix; and it holds no separator.
pub open spec fn name_begins(text: Seq<char>, prefix_len: nat, separator: char, start: int) -> bool {
    &&& prefix_len <= start <= text.len()
    &&& start == prefix_len || text[start - 1] == separator
    &&& forall|k: int| start <= k < text.len() ==> #[trigger] text[k] != separator
}

/// The beginnings of the words of a last path component that begins at `start`.
pub open spec fn words_begin(text: Seq<char>, start: int, starts: Seq<usize>) -> bool {
    &&& starts.len() > 0 && starts[0] == start
    &&& forall|a: int, b: int| 0 <= a < b < starts.len() ==> starts[a] < starts[b]
    &&& forall|a: int|
        0 < a < starts.len() ==> start < #[trigger] starts[a] < text.len() && begins_after_boundary(
            text,
            starts[a] as int,
        )
    &&& forall|k: int|
        start < k < text.len() && #[trigger] begins_after_boundary(text, k) ==> starts.contains(
            k as usize,
        )
}

/// Of the places, the last `inside` lie in the last path component, and no others.
pub open spec fn lie_inside(places: Seq<usize>, start: int, inside: nat) -> bool {
    &&& inside <= places.len()
    &&& forall|i: int|
        0 <= i < places.len() ==> (#[trigger] places[i] >= start <==> i >= places.len() - inside)
}

/// The first `hits` places are the beginnings of the words of the same numbers, and the next is
/// not.
pub open spec fn follow_words(places: Seq<usize>, starts: Seq<usize>, hits: nat) -> bool {
    &&& hits <= places.len()
    &&& hits <= starts.len()
    &&& forall|i: int| 0 <= i < hits ==> #[trigger] places[i] == starts[i]
    &&& hits == places.len() || hits == starts.len() || places[hits as int] != starts[hits as int]
}

/// One, and `most` times the share that `count` is of `whole`.
pub open spec fn one_and_share(count: nat, whole: nat, most: nat) -> nat {
    binary64::sum(
        binary64::fraction(1, 1),
        binary64::product(
            binary64::quotient(binary64::fraction(count, 1), binary64::fraction(whole, 1)),
            most,
        ),
    )
}

/// The score with the boost for what lies in the last path component and for what follows its
/// words.
pub open spec fn boosted(
    text: Seq<char>,
    prefix_len: nat,
    separator: char,
    places: Seq<usize>,
    base: nat,
    score: nat,
) -> bool {
    exists|start: int, starts: Seq<usize>, inside: nat, hits: nat|
        {
            &&& name_begins(text, prefix_len, separator, start)
            &&& #[trigger] words_begin(text, start, starts)
            &&& #[trigger] lie_inside(places, start, inside)
            &&& #[trigger] follow_words(places, starts, hits)
            &&& score == binary64::product(
                binary64::product(
                    base,
                    one_and_share(inside, places.len(), binary64::fraction(5, 10)),
                ),
                one_and_share(hits, places.len(), binary64::fraction(15, 10)),
            )
        }
}

/// What the search sees of a plain text.
proof fn lemma_plain_sight<Bag>(
    matcher: &Matcher<Bag>,
    prefix: Seq<char>,
    lowercase_prefix: Seq<char>,
    text: Seq<char>,
    j: nat,
)
    requires
        laws::plain_input(matcher, prefix, lowercase_prefix, text),
        laws::fits_memory(matcher, prefix, text),
        j < prefix.len() + text.len(),
    ensures
        ({
            let s = matcher.text_scoring(prefix, lowercase_prefix, text);
            &&& s.plain()
            &&& s.regular(j) == j
            &&& s.lowercase_len() == prefix.len() + text.len()
            &&& s.text() == prefix + text
            &&& (lowercase_prefix + lowering::lowercase_text(text)).len() == s.text().len()
            &&& lowercase_at(s, j as int) == (lowercase_prefix + lowering::lowercase_text(
                text,
            ))[j as int]
        }),
{
    laws::lemma_plain_lowercase(text);
    let s = matcher.text_scoring(prefix, lowercase_prefix, text);
    s.lemma_plain_places(j);
}

/// The factor that is earned in a plain text is the one that the search goes by.
proof fn lemma_earned<Bag>(
    matcher: &Matcher<Bag>,
    prefix: Seq<char>,
    lowercase_prefix: Seq<char>,
    text: Seq<char>,
    places: Seq<usize>,
    i: int,
    factor: nat,
)
    requires
        laws::plain_input(matcher, prefix, lowercase_prefix, text),
        laws::fits_memory(matcher, prefix, text),
        0 <= i < places.len(),
        places[i] < prefix.len() + text.len(),
        i > 0 ==> places[i - 1] < places[i],
    ensures
        ({
            let s = matcher.text_scoring(prefix, lowercase_prefix, text);
            earns(
                matcher,
                prefix + text,
                lowercase_prefix + lowering::lowercase_text(text),
                places,
                i,
                factor,
            ) <==> factor == s.factor(
                i as nat,
                s.place_after(places.take(i)),
                places[i] as nat,
            )
        }),
{
    let s = matcher.text_scoring(prefix, lowercase_prefix, text);
    let lowercase = lowercase_prefix + lowering::lowercase_text(text);
    let q = i as nat;
    let p = s.place_after(places.take(i));
    let j = places[i] as nat;
    lemma_plain_sight(matcher, prefix, lowercase_prefix, text, j);
    assert(p == if i == 0 {
        0int
    } else {
        places[i - 1] + 1
    });
    law_places_weigh_by_what_is_before(s, q, p, j);
    law_differences_cost_a_thousandth(s, q, p, j);
    law_length_counts_from_the_last_separator(s, q, p, j);
    if matcher.penalize_length && i == 0 {
        assert forall|m: int| 0 <= m <= j implies #[trigger] lowercase_at(s, m) == lowercase[m]
            && s.regular(m as nat) == m by {
            lemma_plain_sight(matcher, prefix, lowercase_prefix, text, m as nat);
        }
        if no_separator(s, 0, j as int) {
            assert forall|m: int| 0 <= m <= j implies #[trigger] lowercase[m]
                != matcher.separator by {
                assert(lowercase_at(s, m) == lowercase[m]);
            }
            assert(separated_at(lowercase, matcher.separator, j as int, 0));
        } else {
            let k = choose|k: int| #[trigger]
                last_separator_at(s, 0, j as int, k) && s.factor(q, p, j) == binary64::quotient(
                    s.character_weight(q, p, j),
                    binary64::fraction(((prefix + text).len() - s.regular(k as nat)) as nat, 1),
                );
            assert(lowercase_at(s, k) == lowercase[k]);
            assert forall|m: int| k < m <= j implies #[trigger] lowercase[m] != matcher.separator by {
                assert(lowercase_at(s, m) == lowercase[m]);
            }
            assert(separated_at(lowercase, matcher.separator, j as int, k));
        }
        assert forall|k: int, l: int|
            #[trigger] separated_at(lowercase, matcher.separator, j as int, k)
                && #[trigger] separated_at(lowercase, matcher.separator, j as int, l) implies k
            == l by {
            assert(lowercase[k] == lowercase[k] && lowercase[l] == lowercase[l]);
        }
    }
}

/// The ways to place the query in a plain text are those that the search goes by.
proof fn lemma_placed_fits<Bag>(
    matcher: &Matcher<Bag>,
    prefix: Seq<char>,
    lowercase_prefix: Seq<char>,
    text: Seq<char>,
    places: Seq<usize>,
)
    requires
        laws::plain_input(matcher, prefix, lowercase_prefix, text),
        laws::fits_memory(matcher, prefix, text),
        embedding::is_subsequence(
            lowercase_prefix + lowering::lowercase_text(text),
            matcher.lowercase_query@,
        ),
    ensures
        placed(
            matcher,
            prefix + text,
            lowercase_prefix + lowering::lowercase_text(text),
            places,
        ) <==> matcher.text_scoring(prefix, lowercase_prefix, text).fits(places),
{
    let s = matcher.text_scoring(prefix, lowercase_prefix, text);
    let lowercase = lowercase_prefix + lowering::lowercase_text(text);
    laws::lemma_plain_input_is_ready(matcher, prefix, lowercase_prefix, text);
    laws::lemma_plain_lowercase(text);
    embedding::lemma_latest_exists(lowercase, matcher.lowercase_query@);
    if places.len() == matcher.query@.len() {
        assert forall|i: int| 0 <= i < places.len() implies s.limit(i as nat)
            == s.last_positions[i] by {
            s.lemma_ready_limit(i as nat);
        }
        assert forall|i: int| 0 <= i < places.len() && places[i] < (prefix + text).len() implies (
        s.matches(i as nat, places[i] as nat) <==> {
            let wanted = matcher.lowercase_query@[i];
            let found = lowercase[places[i] as int];
            ||| wanted == found
            ||| wanted == '_' && found == matcher.separator
            ||| wanted == '\\' && !matcher.windows
        }) by {
            lemma_plain_sight(matcher, prefix, lowercase_prefix, text, places[i] as nat);
            law_characters_match_when_equal(s, i as nat, places[i] as nat);
        }
        if s.fits(places) {
            assert(placed(matcher, prefix + text, lowercase, places));
        }
        if placed(matcher, prefix + text, lowercase, places) {
            assert forall|i: int| 0 <= i < places.len() implies #[trigger] places[i] <= s.limit(
                i as nat,
            ) && places[i] < s.lowercase_len() && s.matches(i as nat, places[i] as nat) by {
                let found = choose|found: Seq<usize>|
                    #![trigger embedding::embeds(lowercase, matcher.lowercase_query@, found)]
                    embedding::embeds(lowercase, matcher.lowercase_query@, found) && places[i]
                        <= found[i];
                assert(found[i] <= s.last_positions[i]);
            }
        }
    }
}

/// The factors that a way to place the query earns, as the search has them.
spec fn factors_of(s: Scoring, places: Seq<usize>) -> Seq<nat> {
    Seq::new(
        places.len(),
        |i: int| s.factor(i as nat, s.place_after(places.take(i)), places[i] as nat),
    )
}

/// Their product is the one that the search goes by.
proof fn lemma_product_is_placed_score(s: Scoring, places: Seq<usize>, i: nat)
    ensures
        product_from(factors_of(s, places), i) == s.placed_score(places, i),
    decreases places.len() - i,
{
    if i < places.len() {
        lemma_product_is_placed_score(s, places, i + 1);
    }
}

/// Every way to place the query in a plain text is one that the search goes by, and its factors
/// are those that it goes by.
proof fn lemma_way<Bag>(
    matcher: &Matcher<Bag>,
    prefix: Seq<char>,
    lowercase_prefix: Seq<char>,
    text: Seq<char>,
    places: Seq<usize>,
    factors: Seq<nat>,
)
    requires
        laws::plain_input(matcher, prefix, lowercase_prefix, text),
        laws::fits_memory(matcher, prefix, text),
        embedding::is_subsequence(
            lowercase_prefix + lowering::lowercase_text(text),
            matcher.lowercase_query@,
        ),
    ensures
        ({
            let s = matcher.text_scoring(prefix, lowercase_prefix, text);
            way(
                matcher,
                prefix + text,
                lowercase_prefix + lowering::lowercase_text(text),
                places,
                factors,
            ) <==> s.fits(places) && factors == factors_of(s, places)
        }),
{
    let s = matcher.text_scoring(prefix, lowercase_prefix, text);
    let lowercase = lowercase_prefix + lowering::lowercase_text(text);
    lemma_placed_fits(matcher, prefix, lowercase_prefix, text, places);
    if placed(matcher, prefix + text, lowercase, places) && factors.len() == places.len() {
        assert forall|i: int| 0 <= i < places.len() implies (earns(
            matcher,
            prefix + text,
            lowercase,
            places,
            i,
            #[trigger] factors[i],
        ) <==> factors[i] == factors_of(s, places)[i]) by {
            assert(places[i] < (prefix + text).len());
            lemma_earned(matcher, prefix, lowercase_prefix, text, places, i, factors[i]);
        }
        if way(matcher, prefix + text, lowercase, places, factors) {
            assert(factors =~= factors_of(s, places));
        }
    }
}

/// Where no product comes to exactly one, no search after the places of a way ends early.
proof fn lemma_unstopped<Bag>(
    matcher: &Matcher<Bag>,
    prefix: Seq<char>,
    lowercase_prefix: Seq<char>,
    text: Seq<char>,
    places: Seq<usize>,
)
    requires
        laws::plain_input(matcher, prefix, lowercase_prefix, text),
        laws::fits_memory(matcher, prefix, text),
        embedding::is_subsequence(
            lowercase_prefix + lowering::lowercase_text(text),
            matcher.lowercase_query@,
        ),
        unstopped(matcher, prefix + text, lowercase_prefix + lowering::lowercase_text(text)),
        matcher.text_scoring(prefix, lowercase_prefix, text).fits(places),
    ensures
        matcher.text_scoring(prefix, lowercase_prefix, text).exhaustive_after(places),
{
    let s = matcher.text_scoring(prefix, lowercase_prefix, text);
    laws::lemma_plain_input_is_ready(matcher, prefix, lowercase_prefix, text);
    weights::lemma_weight_codes();
    if s.word_boundary_boost {
        assert forall|q: nat| q < s.query.len() implies s.best(
            q,
            s.place_after(#[trigger] places.take(q as int)),
        ).0 != binary64::fraction(1, 1) by {
            let head = places.take(q as int);
            let p = s.place_after(head);
            if s.best(q, p).0 == binary64::fraction(1, 1) {
                assert forall|i: int| 0 <= i < q implies #[trigger] head[i] <= s.limit(i as nat)
                    && head[i] < s.lowercase_len() && s.matches(i as nat, head[i] as nat) by {
                    assert(head[i] == places[i]);
                }
                s.lemma_best_onward(head, q, p);
                let full = head + s.best_onward(q, p);
                let factors = factors_of(s, full);
                lemma_way(matcher, prefix, lowercase_prefix, text, full, factors);
                lemma_product_is_placed_score(s, full, q);
                assert(way(
                    matcher,
                    prefix + text,
                    lowercase_prefix + lowering::lowercase_text(text),
                    full,
                    factors,
                ));
                assert(product_from(factors, q) == binary64::fraction(1, 1));
            }
        }
    }
}

/// What a match of a plain text is. There is a way to place the query whose places, counted in
/// bytes, are the positions, and the score comes from the product of the factors that it earns. No
/// way has a larger product; and of two that go the same way up to some character, and no worse
/// from there on, the one that goes on earlier is marked. (With the boost a search that comes to
/// exactly one looks no further.)
pub proof fn law_match_is_the_best_way<Bag>(
    matcher: &Matcher<Bag>,
    prefix: Seq<char>,
    lowercase_prefix: Seq<char>,
    text: Seq<char>,
)
    requires
        laws::plain_input(matcher, prefix, lowercase_prefix, text),
        laws::fits_memory(matcher, prefix, text),
        matcher.outcome(prefix, lowercase_prefix, text) is Matched,
    ensures
        ({
            let all = prefix + text;
            let lowercase = lowercase_prefix + lowering::lowercase_text(text);
            let score = matcher.outcome(prefix, lowercase_prefix, text)->score;
            let positions = matcher.outcome(prefix, lowercase_prefix, text)->positions;
            exists|places: Seq<usize>, factors: Seq<nat>|
                {
                    let base = binary64::product(
                        product_from(factors, 0),
                        binary64::fraction(matcher.query@.len(), 1),
                    );
                    &&& #[trigger] way(matcher, all, lowercase, places, factors)
                    &&& positions.len() == places.len()
                    &&& forall|i: int|
                        0 <= i < places.len() ==> #[trigger] positions[i] == scoring::byte_length(
                            all.take(places[i] as int),
                        )
                    &&& base > 0
                    &&& !matcher.word_boundary_boost ==> score == base
                    &&& matcher.word_boundary_boost ==> boosted(
                        all,
                        prefix.len(),
                        matcher.separator,
                        places,
                        base,
                        score,
                    )
                    &&& unstopped(matcher, all, lowercase) ==> forall|
                        others: Seq<usize>,
                        earned: Seq<nat>,
                    | #[trigger]
                        way(matcher, all, lowercase, others, earned) ==> product_from(earned, 0)
                            <= product_from(factors, 0)
                    &&& unstopped(matcher, all, lowercase) ==> forall|
                        others: Seq<usize>,
                        earned: Seq<nat>,
                        i: int,
                    |
                        #[trigger] way(matcher, all, lowercase, others, earned) && 0 <= i
                            < others.len() && others.take(i) == places.take(i)
                            && #[trigger] others[i] < places[i] ==> product_from(earned, i as nat)
                            < product_from(factors, i as nat)
                }
        }),
{
    let s = matcher.text_scoring(prefix, lowercase_prefix, text);
    let n = s.query.len();
    let all = prefix + text;
    let lowercase = lowercase_prefix + lowering::lowercase_text(text);
    let places = s.best_places(n);
    let factors = factors_of(s, places);
    laws::law_plain_text(matcher, prefix, lowercase_prefix, text);
    laws::law_match_is_placed(matcher, prefix, lowercase_prefix, text);
    laws::lemma_plain_input_is_ready(matcher, prefix, lowercase_prefix, text);
    laws::lemma_found_is_short(s);
    weights::lemma_integer_code(n);
    laws::lemma_zero_product(binary64::fraction(n, 1));
    assert(s.text() == all);
    lemma_way(matcher, prefix, lowercase_prefix, text, places, factors);
    lemma_product_is_placed_score(s, places, 0);
    s.lemma_best_places_reach(0);
    s.lemma_plain_is_mapped();
    let best = product_from(factors, 0);
    let base = binary64::product(best, binary64::fraction(n, 1));
    let score = matcher.outcome(prefix, lowercase_prefix, text)->score;
    law_total_is_boosted(s, best, places);
    if matcher.word_boundary_boost {
        let starts = s.word_starts(all.len());
        let start = s.filename_start() as int;
        if n == 0 {
            laws::law_empty_query_matches_nothing(matcher, prefix, lowercase_prefix, text);
        }
        law_file_name_follows_the_last_separator(s);
        assert forall|k: int| start <= k < all.len() implies #[trigger] all[k]
            != matcher.separator by {
            assert(all[k] == s.path[k - prefix.len()]);
        }
        assert(start == prefix.len() || all[start - 1] == s.path[start - prefix.len() - 1]);
        law_word_starts_are_the_words(s);
        law_file_name_matches_are_counted(s, places);
        law_leading_words_are_counted(places, starts);
        assert(name_begins(all, prefix.len(), matcher.separator, start));
        assert(words_begin(all, start, starts));
        assert(lie_inside(places, start, s.filename_matches(places)));
        assert(follow_words(places, starts, scoring::leading_hits(places, starts, 0)));
        assert(boosted(all, prefix.len(), matcher.separator, places, base, score));
    }
    if unstopped(matcher, all, lowercase) {
        assert forall|others: Seq<usize>, earned: Seq<nat>| #[trigger]
            way(matcher, all, lowercase, others, earned) implies product_from(earned, 0)
            <= product_from(factors, 0) by {
            lemma_way(matcher, prefix, lowercase_prefix, text, others, earned);
            lemma_unstopped(matcher, prefix, lowercase_prefix, text, others);
            lemma_product_is_placed_score(s, others, 0);
            s.lemma_best_is_maximum(others, 0);
        }
        assert forall|others: Seq<usize>, earned: Seq<nat>, i: int|
            #[trigger] way(matcher, all, lowercase, others, earned) && 0 <= i < others.len()
                && others.take(i) == places.take(i) && #[trigger] others[i]
                < places[i] implies product_from(earned, i as nat) < product_from(
            factors,
            i as nat,
        ) by {
            lemma_way(matcher, prefix, lowercase_prefix, text, others, earned);
            lemma_unstopped(matcher, prefix, lowercase_prefix, text, others);
            lemma_earlier_is_worse(s, others, i as nat);
            lemma_product_is_placed_score(s, others, i as nat);
            lemma_product_is_placed_score(s, places, i as nat);
        }
    }
    assert(way(matcher, all, lowercase, places, factors));
}

/// What goes on earlier than the best places is worse from there on.
proof fn lemma_earlier_is_worse(s: Scoring, others: Seq<usize>, i: nat)
    requires
        s.plain(),
        s.consistent(),
        s.best(0, 0).0 > 0,
        s.fits(others),
        s.exhaustive_after(others),
        i < s.query.len(),
        others.take(i as int) == s.best_places(s.query.len()).take(i as int),
        others[i as int] < s.best_places(s.query.len())[i as int],
    ensures
        s.placed_score(others, i) < s.placed_score(s.best_places(s.query.len()), i),
{
    let n = s.query.len();
    let places = s.best_places(n);
    let p = s.place_after(others.take(i as int));
    let k = others[i as int] as nat;
    s.lemma_plain_is_mapped();
    s.lemma_best_places_grow(i, n);
    s.lemma_best_places_grow(i + 1, n);
    s.lemma_best_places_reach(i);
    s.lemma_best_place_tried(i);
    assert(places[i as int] == places.take((i + 1) as int)[i as int]);
    let place = s.best(i, p).1;
    assert(s.best_places(i + 1) == s.best_places(i).push(place));
    assert(places[i as int] == place);
    assert(p <= k) by {
        if i > 0 {
            assert(others[i - 1] < others[i as int]);
        }
    }
    s.lemma_best_from_is_first(i, p, p, 0, 0);
    assert(s.score_at(i, p, k) < s.best(i, p).0);
    s.lemma_best_is_maximum(others, i + 1);
    assert(s.place_after(others.take((i + 1) as int)) == k + 1);
    s.lemma_mapped_factor_range(i, p, k);
    binary64::lemma_product_monotone(
        s.placed_score(others, i + 1),
        s.best(i + 1, k + 1).0,
        s.factor(i, p, k),
    );
}

/// What does not match among plain texts: no search of one fails, and where one does not match the
/// query is not found in it, or every way to place it earns so little that nothing is left of it.
/// Where the query is not found the text does not match.
pub proof fn law_only_the_worthless_is_unmatched<Bag>(
    matcher: &Matcher<Bag>,
    prefix: Seq<char>,
    lowercase_prefix: Seq<char>,
    text: Seq<char>,
)
    requires
        laws::plain_input(matcher, prefix, lowercase_prefix, text),
        laws::fits_memory(matcher, prefix, text),
    ensures
        ({
            let all = prefix + text;
            let lowercase = lowercase_prefix + lowering::lowercase_text(text);
            let found = exists|places: Seq<usize>| #[trigger]
                embedding::embeds(lowercase, matcher.lowercase_query@, places);
            &&& !(matcher.outcome(prefix, lowercase_prefix, text) is Overrun)
            &&& !found ==> matcher.outcome(prefix, lowercase_prefix, text) is Unmatched
            &&& found && matcher.outcome(prefix, lowercase_prefix, text) is Unmatched && unstopped(
                matcher,
                all,
                lowercase,
            ) ==> forall|others: Seq<usize>, earned: Seq<nat>| #[trigger]
                way(matcher, all, lowercase, others, earned) ==> binary64::product(
                    product_from(earned, 0),
                    binary64::fraction(matcher.query@.len(), 1),
                ) == 0
        }),
{
    let s = matcher.text_scoring(prefix, lowercase_prefix, text);
    let n = s.query.len();
    let all = prefix + text;
    let lowercase = lowercase_prefix + lowering::lowercase_text(text);
    laws::law_plain_text(matcher, prefix, lowercase_prefix, text);
    laws::lemma_plain_lowercase(text);
    if embedding::is_subsequence(lowercase, matcher.lowercase_query@) {
        laws::lemma_plain_input_is_ready(matcher, prefix, lowercase_prefix, text);
        laws::lemma_found_is_short(s);
        weights::lemma_integer_code(n);
        s.lemma_plain_is_mapped();
        if matcher.outcome(prefix, lowercase_prefix, text) is Unmatched && unstopped(
            matcher,
            all,
            lowercase,
        ) {
            assert forall|others: Seq<usize>, earned: Seq<nat>| #[trigger]
                way(matcher, all, lowercase, others, earned) implies binary64::product(
                product_from(earned, 0),
                binary64::fraction(n, 1),
            ) == 0 by {
                lemma_way(matcher, prefix, lowercase_prefix, text, others, earned);
                lemma_unstopped(matcher, prefix, lowercase_prefix, text, others);
                lemma_product_is_placed_score(s, others, 0);
                s.lemma_best_is_maximum(others, 0);
                binary64::lemma_product_monotone(
                    product_from(earned, 0),
                    s.best(0, 0).0,
                    binary64::fraction(n, 1),
                );
            }
        }
    }
}

/// A place can be looked at where it is not moved to before the beginning, where the lowercase
/// prefix has a character if the prefix has; and where it matches behind where the search goes on,
/// also where the text has a character before it.
pub proof fn law_places_are_readable_in_both_texts(s: Scoring, q: nat, p: nat, j: nat)
    ensures
        s.readable(q, p, j) <==> {
            &&& s.extra_before(j) <= j
            &&& j >= s.prefix.len() || j < s.lowercase_prefix.len()
            &&& !s.matches(q, j) || j <= p || j > s.extra_before(j)
        },
{
}

/// A character is looked for up to the last place at which it was found, and no further than the
/// lowercase text goes.
pub proof fn law_search_goes_to_the_last_position(s: Scoring, q: nat)
    requires
        0 < s.prefix.len() + s.lowercase_path.len(),
    ensures
        s.limit(q) <= s.last_positions[q as int],
        s.limit(q) < s.prefix.len() + s.lowercase_path.len(),
        s.limit(q) == s.last_positions[q as int] || s.limit(q) == s.prefix.len()
            + s.lowercase_path.len() - 1,
{
}

/// The places from `from` on have been tried for query character `q`, one after the other, each
/// with the table that the one before left: where the character matches, the score is that of the
/// rest of the query from the next place on, times the factor; where it does not, it is nothing.
pub open spec fn tried(
    s: Scoring,
    q: nat,
    p: nat,
    from: nat,
    tables: Seq<scoring::Table>,
    scores: Seq<nat>,
) -> bool {
    &&& tables.len() == scores.len() + 1
    &&& forall|t: int|
        0 <= t < scores.len() ==> tried_at(
            s,
            q,
            p,
            (from + t) as nat,
            tables[t],
            tables[t + 1],
            #[trigger] scores[t],
        )
}

/// Place `j` has been tried for query character `q`.
pub open spec fn tried_at(
    s: Scoring,
    q: nat,
    p: nat,
    j: nat,
    before: scoring::Table,
    after: scoring::Table,
    score: nat,
) -> bool {
    &&& j <= s.limit(q)
    &&& j < s.lowercase_len()
    &&& s.readable(q, p, j)
    &&& s.matches(q, j) ==> exists|rest: nat|
        s.visit(q + 1, j + 1, binary64::fraction(1, 1), before) == Some((rest, after)) && score
            == #[trigger] binary64::product(rest, s.factor(q, p, j))
    &&& !s.matches(q, j) ==> after == before && score == 0
}

/// The score and the place are the best of what was known before and of what has been tried; of
/// equal ones, the first.
pub open spec fn first_best(
    s: Scoring,
    from: nat,
    scores: Seq<nat>,
    known: nat,
    known_at: usize,
    best: nat,
    at: usize,
) -> bool {
    &&& best >= known
    &&& forall|t: int| 0 <= t < scores.len() ==> #[trigger] scores[t] <= best
    &&& best == known ==> at == known_at
    &&& best > known ==> exists|t: int|
        {
            &&& 0 <= t < scores.len()
            &&& #[trigger] scores[t] == best
            &&& at == s.regular((from + t) as nat) as usize
            &&& forall|u: int| 0 <= u < t ==> #[trigger] scores[u] < best
        }
}

/// Only the last of the scores may be one and better than all before it.
pub open spec fn ended_by_one(scores: Seq<nat>, known: nat) -> bool {
    forall|t: int|
        0 <= t < scores.len() - 1 && #[trigger] scores[t] == binary64::fraction(1, 1) ==> known
            >= binary64::fraction(1, 1) || exists|u: int|
            0 <= u < t && #[trigger] scores[u] >= binary64::fraction(1, 1)
}

/// One place more at the front, which does not end the search.
proof fn lemma_ended_one_more(score: nat, scores: Seq<nat>, known: nat, kept: nat)
    requires
        ended_by_one(scores, kept),
        kept == known || kept == score,
        score == binary64::fraction(1, 1) ==> score <= known,
    ensures
        ended_by_one(seq![score] + scores, known),
{
    let more = seq![score] + scores;
    assert forall|t: int|
        0 <= t < more.len() - 1 && #[trigger] more[t] == binary64::fraction(1, 1) implies known
        >= binary64::fraction(1, 1) || exists|u: int|
        0 <= u < t && #[trigger] more[u] >= binary64::fraction(1, 1) by {
        if t > 0 {
            assert(scores[t - 1] == more[t]);
            if kept >= binary64::fraction(1, 1) {
                assert(more[0] == score);
            } else {
                let u = choose|u: int|
                    0 <= u < t - 1 && #[trigger] scores[u] >= binary64::fraction(1, 1);
                assert(more[u + 1] == scores[u]);
            }
        }
    }
}

/// In any text, where nothing is cut off, the search for a character tries the places one after the
/// other, to the last or to the first that comes to one and is better than those before, and gives
/// the first of the best.
pub proof fn law_search_takes_the_first_best(
    s: Scoring,
    q: nat,
    p: nat,
    from: nat,
    carried: nat,
    known: nat,
    known_at: usize,
    table: scoring::Table,
)
    requires
        s.min_score == 0,
        q < s.query.len(),
        s.scan(q, p, from, carried, known, known_at, table) is Some,
    ensures
        ({
            let (best, at, after) = s.scan(q, p, from, carried, known, known_at, table)->0;
            exists|tables: Seq<scoring::Table>, scores: Seq<nat>|
                {
                    &&& #[trigger] tried(s, q, p, from, tables, scores)
                    &&& tables[0] == table
                    &&& tables.last() == after
                    &&& first_best(s, from, scores, known, known_at, best, at)
                    &&& ended_by_one(scores, known)
                    &&& from + scores.len() <= s.limit(q) && from + scores.len()
                        < s.lowercase_len() ==> scores.len() > 0 && scores.last()
                        == binary64::fraction(1, 1)
                }
        }),
    decreases s.limit(q) + 1 - from,
{
    let (best, at, after) = s.scan(q, p, from, carried, known, known_at, table)->0;
    if from > s.limit(q) || from >= s.lowercase_len() {
        assert(tried(s, q, p, from, seq![table], Seq::<nat>::empty()));
    } else {
        let one = binary64::fraction(1, 1);
        let here = s.regular(from) as usize;
        if s.matches(q, from) {
            let (rest, next) = s.visit(q + 1, from + 1, one, table)->0;
            let score = binary64::product(rest, s.factor(q, p, from));
            if score > known && score == one {
                let tables = seq![table, next];
                let scores = seq![score];
                assert(tried_at(s, q, p, from, table, next, score));
                assert forall|t: int| 0 <= t < scores.len() implies tried_at(
                    s,
                    q,
                    p,
                    (from + t) as nat,
                    tables[t],
                    tables[t + 1],
                    #[trigger] scores[t],
                ) by {
                    assert(t == 0);
                }
                assert(tried(s, q, p, from, tables, scores));
                assert(scores[0] == best);
                assert(first_best(s, from, scores, known, known_at, best, at));
            } else {
                let (kept, kept_at) = if score > known {
                    (score, here)
                } else {
                    (known, known_at)
                };
                law_search_takes_the_first_best(s, q, p, from + 1, carried, kept, kept_at, next);
                let (tables, scores) = choose|tables: Seq<scoring::Table>, scores: Seq<nat>|
                    {
                        &&& #[trigger] tried(s, q, p, from + 1, tables, scores)
                        &&& tables[0] == next
                        &&& tables.last() == after
                        &&& first_best(s, from + 1, scores, kept, kept_at, best, at)
                        &&& ended_by_one(scores, kept)
                        &&& from + 1 + scores.len() <= s.limit(q) && from + 1 + scores.len()
                            < s.lowercase_len() ==> scores.len() > 0 && scores.last() == one
                    };
                assert(tried_at(s, q, p, from, table, next, score));
                lemma_tried_one_more(s, q, p, from, table, tables, score, scores);
                lemma_first_best_one_more(s, from, score, scores, known, known_at, best, at);
                lemma_ended_one_more(score, scores, known, kept);
                assert((seq![table] + tables).last() == after);
            }
        } else {
            law_search_takes_the_first_best(s, q, p, from + 1, carried, known, known_at, table);
            let (tables, scores) = choose|tables: Seq<scoring::Table>, scores: Seq<nat>|
                {
                    &&& #[trigger] tried(s, q, p, from + 1, tables, scores)
                    &&& tables[0] == table
                    &&& tables.last() == after
                    &&& first_best(s, from + 1, scores, known, known_at, best, at)
                    &&& ended_by_one(scores, known)
                    &&& from + 1 + scores.len() <= s.limit(q) && from + 1 + scores.len()
                        < s.lowercase_len() ==> scores.len() > 0 && scores.last() == one
                };
            assert(tried_at(s, q, p, from, table, table, 0));
            lemma_tried_one_more(s, q, p, from, table, tables, 0, scores);
            lemma_first_best_one_more(s, from, 0, scores, known, known_at, best, at);
            weights::lemma_weight_codes();
            lemma_ended_one_more(0, scores, known, known);
            assert((seq![table] + tables).last() == after);
        }
    }
}

/// One place more at the front.
proof fn lemma_tried_one_more(
    s: Scoring,
    q: nat,
    p: nat,
    from: nat,
    table: scoring::Table,
    tables: Seq<scoring::Table>,
    score: nat,
    scores: Seq<nat>,
)
    requires
        tried(s, q, p, from + 1, tables, scores),
        tried_at(s, q, p, from, table, tables[0], score),
    ensures
        tried(s, q, p, from, seq![table] + tables, seq![score] + scores),
{
    let all = seq![table] + tables;
    let more = seq![score] + scores;
    assert forall|t: int| 0 <= t < more.len() implies tried_at(
        s,
        q,
        p,
        (from + t) as nat,
        all[t],
        all[t + 1],
        #[trigger] more[t],
    ) by {
        if t > 0 {
            assert(more[t] == scores[t - 1]);
            assert(all[t] == tables[t - 1] && all[t + 1] == tables[t]);
            assert(from + t == from + 1 + (t - 1));
        }
    }
}

/// One place more at the front, taken where it is better than what was known.
proof fn lemma_first_best_one_more(
    s: Scoring,
    from: nat,
    score: nat,
    scores: Seq<nat>,
    known: nat,
    known_at: usize,
    best: nat,
    at: usize,
)
    requires
        score > known ==> first_best(
            s,
            from + 1,
            scores,
            score,
            s.regular(from) as usize,
            best,
            at,
        ),
        score <= known ==> first_best(s, from + 1, scores, known, known_at, best, at),
    ensures
        first_best(s, from, seq![score] + scores, known, known_at, best, at),
{
    let more = seq![score] + scores;
    assert forall|t: int| 0 <= t < more.len() implies #[trigger] more[t] <= best by {
        if t > 0 {
            assert(more[t] == scores[t - 1]);
        }
    }
    if best > known {
        if score > known && best == score {
            assert(more[0] == best);
            assert(from + 0 == from);
        } else {
            let t = choose|t: int|
                {
                    &&& 0 <= t < scores.len()
                    &&& #[trigger] scores[t] == best
                    &&& at == s.regular((from + 1 + t) as nat) as usize
                    &&& forall|u: int| 0 <= u < t ==> #[trigger] scores[u] < best
                };
            assert(more[t + 1] == best);
            assert forall|u: int| 0 <= u < t + 1 implies #[trigger] more[u] < best by {
                if u > 0 {
                    assert(more[u] == scores[u - 1]);
                }
            }
            assert(from + 1 + t == from + (t + 1));
        }
    }
}

/// In any text, the places of a match are read off the table one after the other: each is what the
/// table holds for its character, looked for from the place after the one before.
pub proof fn law_places_are_read_off_in_order(s: Scoring, positions: Seq<usize>, count: nat)
    requires
        s.matched_places(positions, count) is Some,
    ensures
        ({
            let places = s.matched_places(positions, count)->0;
            &&& places.len() == count
            &&& forall|i: int|
                0 <= i < count ==> #[trigger] places[i] == positions[i * (s.prefix + s.path).len()
                    + (if i == 0 {
                    0int
                } else {
                    places[i - 1] + 1
                })] && places[i] < (s.prefix + s.path).len()
        }),
    decreases count,
{
    if count > 0 {
        law_places_are_read_off_in_order(s, positions, (count - 1) as nat);
        let earlier = s.matched_places(positions, (count - 1) as nat)->0;
        let places = s.matched_places(positions, count)->0;
        assert forall|i: int| 0 <= i < count implies #[trigger] places[i] == positions[i * (s.prefix
            + s.path).len() + (if i == 0 {
            0int
        } else {
            places[i - 1] + 1
        })] && places[i] < (s.prefix + s.path).len() by {
            if i < count - 1 {
                assert(places[i] == earlier[i]);
                if i > 0 {
                    assert(places[i - 1] == earlier[i - 1]);
                }
            }
        }
    }
}

/// In any text, what comes of a search is a match where the best product, times the length of the
/// query, is more than nothing; with the total and the byte positions of the places read off.
pub proof fn law_matches_are_read_off(s: Scoring, table: scoring::Table)
    requires
        s.outcome(table) is Matched,
    ensures
        ({
            let n = binary64::fraction(s.query.len(), 1);
            let (best, after) = s.visit(0, 0, n, table)->0;
            let places = s.matched_places(after.positions, s.query.len())->0;
            &&& s.visit(0, 0, n, table) is Some
            &&& s.matched_places(after.positions, s.query.len()) is Some
            &&& binary64::product(best, n) > 0
            &&& s.outcome(table)->score == s.total(best, places)
            &&& s.outcome(table)->positions.len() == places.len()
            &&& forall|i: int|
                0 <= i < places.len() ==> #[trigger] s.outcome(table)->positions[i]
                    == s.byte_position(places, i) as usize
        }),
{
}

/// A placement is cut off where a least score is set and the product of the factors so far falls
/// below it.
pub proof fn law_only_what_falls_short_is_cut_off(s: Scoring, carried: nat, q: nat, p: nat, j: nat)
    ensures
        s.cut_off(carried, q, p, j) <==> s.min_score > 0 && binary64::product(
            carried,
            s.factor(q, p, j),
        ) < s.min_score,
{
}

/// In any text, a search that finds nothing in its cell tries the places from where it goes on,
/// and writes what it found into that cell and no other: the score, and the place unless it is the
/// first of the text.
pub proof fn law_searches_write_one_cell(
    s: Scoring,
    q: nat,
    p: nat,
    carried: nat,
    table: scoring::Table,
)
    requires
        q < s.query.len() && q < s.lowercase_query.len(),
        q * (s.prefix + s.path).len() + p < table.scores.len(),
        table.scores[(q * (s.prefix + s.path).len() + p) as int] is None,
    ensures
        ({
            let cell = (q * (s.prefix + s.path).len() + p) as int;
            let found = s.scan(q, p, p, carried, 0, 0, table);
            &&& s.visit(q, p, carried, table) is Some <==> found is Some
            &&& found is Some ==> {
                let (best, at, after) = found->0;
                let (score, written) = s.visit(q, p, carried, table)->0;
                &&& score == best
                &&& written.scores == after.scores.update(cell, Some(best))
                &&& at != 0 ==> written.positions == after.positions.update(cell, at)
                &&& at == 0 ==> written.positions == after.positions
            }
        }),
{
}

/// In any text, behind the last character of the query nothing is left to find: the score is one,
/// and the table stays as it is. A search whose cell lies outside the table fails.
pub proof fn law_searches_end_with_the_query(
    s: Scoring,
    q: nat,
    p: nat,
    carried: nat,
    table: scoring::Table,
)
    ensures
        q >= s.query.len() ==> s.visit(q, p, carried, table) == Some(
            (binary64::fraction(1, 1), table),
        ),
        q < s.query.len() && q * (s.prefix + s.path).len() + p >= table.scores.len() ==> s.visit(
            q,
            p,
            carried,
            table,
        ) is None,
{
}

/// In any text, the byte position of the first place is its offset; and that of any other place
/// lies after the one before it by the bytes of the character there and of those in between.
pub proof fn law_positions_count_bytes(s: Scoring, places: Seq<usize>, i: int)
    requires
        0 <= i < places.len(),
    ensures
        ({
            let text = s.prefix + s.path;
            let here = places[i] as int;
            let before = places[i - 1] as int;
            &&& i == 0 ==> s.byte_position(places, i) == scoring::byte_length(text.take(here))
            &&& i > 0 && before < here < text.len() ==> s.byte_position(places, i)
                == s.byte_position(places, i - 1) + scoring::byte_length(
                text.subrange(before, here),
            )
            &&& i > 0 && here <= before < text.len() ==> s.byte_position(places, i)
                == s.byte_position(places, i - 1) + scoring::byte_length(seq![text[before]])
        }),
{
    let text = s.prefix + s.path;
    let here = places[i] as int;
    let before = places[i - 1] as int;
    if i > 0 && before < text.len() {
        let one = seq![text[before]];
        assert(one =~= Seq::<char>::empty().push(text[before]));
        scoring::lemma_byte_length_push(Seq::empty(), text[before]);
        assert(scoring::byte_length(Seq::<char>::empty()) == 0);
        if before < here < text.len() {
            assert(text.subrange(before, here) =~= one + text.subrange(before + 1, here));
            scoring::lemma_byte_length_adds(one, text.subrange(before + 1, here));
            if before + 1 == here {
                assert(text.subrange(before + 1, here) =~= Seq::<char>::empty());
            }
        }
    }
}

/// What comes of any text whose size can be handled and in which the query is found is what comes
/// of a search of the text, in its lowercase form, with nothing in the tables.
pub proof fn law_any_text_is_searched<Bag>(
    matcher: &Matcher<Bag>,
    prefix: Seq<char>,
    lowercase_prefix: Seq<char>,
    text: Seq<char>,
)
    requires
        prefix.len() + lowering::lowercase_text(text).len() <= usize::MAX,
        lowercase_prefix.len() + lowering::lowercase_text(text).len() <= usize::MAX,
        !crate::matcher::oversized(matcher.query@.len() * (prefix.len() + text.len())),
    ensures
        ({
            let lowercase = lowering::lowercase_text(text);
            let places = embedding::latest(lowercase_prefix + lowercase, matcher.lowercase_query@);
            let outcome = matcher.outcome(prefix, lowercase_prefix, text);
            let cells = matcher.query@.len() * (prefix.len() + text.len());
            let found = exists|found: Seq<usize>| #[trigger]
                embedding::embeds(lowercase_prefix + lowercase, matcher.lowercase_query@, found);
            &&& !found ==> outcome is Unmatched
            &&& found ==> outcome == (Scoring {
                query: matcher.query@,
                lowercase_query: matcher.lowercase_query@,
                last_positions: places,
                prefix,
                lowercase_prefix,
                path: text,
                lowercase_path: lowercase,
                extra: Map::new(
                    |i: usize|
                        i < text.len() && characters::lowercase_mapping(text[i as int]).len() > 1,
                    |i: usize| (characters::lowercase_mapping(text[i as int]).len() - 1) as usize,
                ),
                smart_case: matcher.smart_case,
                penalize_length: matcher.penalize_length,
                word_boundary_boost: matcher.word_boundary_boost,
                min_score: matcher.min_score@,
                separator: matcher.separator,
                windows: matcher.windows,
            }).outcome(
                scoring::Table {
                    scores: Seq::new(cells, |i: int| None::<nat>),
                    positions: Seq::new(cells, |i: int| 0usize),
                },
            )
        }),
{
    let cells = matcher.query@.len() * (prefix.len() + text.len());
    assert(scoring::Table::blank(cells).scores =~= Seq::new(cells, |i: int| None::<nat>));
    assert(scoring::Table::blank(cells).positions =~= Seq::new(cells, |i: int| 0usize));
    assert(lowering::extra_widths(text) =~= Map::new(
        |i: usize| i < text.len() && characters::lowercase_mapping(text[i as int]).len() > 1,
        |i: usize| (characters::lowercase_mapping(text[i as int]).len() - 1) as usize,
    ));
}

} // verus!
