//! What holds of matching as a whole.
use vstd::prelude::*;
use std::sync::atomic::AtomicBool;
use crate::binary64;
use crate::binary64::Binary64;
use crate::characters;
use crate::embedding;
use crate::lowering;
use crate::matcher;
use crate::matcher::Match;
use crate::matcher::MatchCandidate;
use crate::matcher::Matcher;
use crate::matcher::Reply;
use crate::scoring;
use crate::scoring::Scoring;
use crate::weights;

verus! {

/// No character of the text is longer in lowercase, neither is the prefix, the lowercase query is
/// not shorter than the query, and nothing is cut off.
pub open spec fn plain_input<Bag>(
    matcher: &Matcher<Bag>,
    prefix: Seq<char>,
    lowercase_prefix: Seq<char>,
    text: Seq<char>,
) -> bool {
    &&& forall|i: int|
        0 <= i < text.len() ==> (#[trigger] characters::lowercase_mapping(text[i])).len() == 1
    &&& lowercase_prefix.len() == prefix.len()
    &&& matcher.query@.len() <= matcher.lowercase_query@.len()
    &&& matcher.min_score@ == 0
}

/// The text and the tables of the search are no larger than memory can be.
pub open spec fn fits_memory<Bag>(
    matcher: &Matcher<Bag>,
    prefix: Seq<char>,
    text: Seq<char>,
) -> bool {
    &&& prefix.len() + text.len() <= isize::MAX
    &&& !matcher::oversized(matcher.query@.len() * (prefix.len() + text.len()))
}

/// The lowercase text in which the query is looked for.
pub open spec fn searched_text(lowercase_prefix: Seq<char>, text: Seq<char>) -> Seq<char> {
    lowercase_prefix + lowering::lowercase_text(text)
}

/// A text whose characters keep their length has as many characters in lowercase.
pub proof fn lemma_plain_lowercase(text: Seq<char>)
    requires
        forall|i: int|
            0 <= i < text.len() ==> (#[trigger] characters::lowercase_mapping(text[i])).len() == 1,
    ensures
        lowering::lowercase_text(text).len() == text.len(),
        lowering::extra_widths(text) == Map::<usize, usize>::empty(),
    decreases text.len(),
{
    assert(lowering::extra_widths(text) =~= Map::<usize, usize>::empty());
    if text.len() > 0 {
        let rest = text.drop_last();
        assert forall|i: int| 0 <= i < rest.len() implies (#[trigger] characters::lowercase_mapping(
            rest[i],
        )).len() == 1 by {
            assert(rest[i] == text[i]);
        }
        lemma_plain_lowercase(rest);
        assert(characters::lowercase_mapping(text[text.len() - 1]).len() == 1);
    }
}

/// Where the query is found in a plain text, the search is ready.
pub proof fn lemma_plain_input_is_ready<Bag>(
    matcher: &Matcher<Bag>,
    prefix: Seq<char>,
    lowercase_prefix: Seq<char>,
    text: Seq<char>,
)
    requires
        plain_input(matcher, prefix, lowercase_prefix, text),
        fits_memory(matcher, prefix, text),
        embedding::is_subsequence(searched_text(lowercase_prefix, text), matcher.lowercase_query@),
    ensures
        matcher.text_scoring(prefix, lowercase_prefix, text).ready(),
{
    lemma_plain_lowercase(text);
    lowering::lemma_extra_gap(Map::<usize, usize>::empty(), 0, text.len());
    embedding::lemma_latest_exists(
        searched_text(lowercase_prefix, text),
        matcher.lowercase_query@,
    );
}

/// The byte positions of places that come one after the other are their offsets in the text.
pub proof fn lemma_byte_positions_are_offsets(s: Scoring, places: Seq<usize>, i: int)
    requires
        0 <= i < places.len(),
        forall|a: int, b: int| 0 <= a < b < places.len() ==> places[a] < places[b],
        forall|a: int| 0 <= a < places.len() ==> #[trigger] places[a] < s.text().len(),
    ensures
        s.byte_position(places, i) == scoring::byte_length(s.text().take(places[i] as int)),
    decreases i,
{
    if i > 0 {
        lemma_byte_positions_are_offsets(s, places, i - 1);
        let text = s.text();
        let before = places[i - 1] as int;
        let here = places[i] as int;
        let head = text.take(before);
        assert(text.take(before + 1) =~= head.push(text[before]));
        scoring::lemma_byte_length_push(head, text[before]);
        if before + 1 < here {
            assert(text.take(here) =~= text.take(before + 1) + text.subrange(before + 1, here));
            scoring::lemma_byte_length_adds(text.take(before + 1), text.subrange(before + 1, here));
        } else {
            assert(text.take(here) == text.take(before + 1));
        }
    }
}

/// What comes of matching a plain text: the search never fails; the query matches where it is
/// found in the text and the best product of factors is not lost to rounding; and then each of
/// its characters stands, one after the other, at the place that gives the best score after the
/// one before, and is marked by the offset of that place in bytes.
pub proof fn law_plain_text<Bag>(
    matcher: &Matcher<Bag>,
    prefix: Seq<char>,
    lowercase_prefix: Seq<char>,
    text: Seq<char>,
)
    requires
        plain_input(matcher, prefix, lowercase_prefix, text),
        fits_memory(matcher, prefix, text),
    ensures
        ({
            let s = matcher.text_scoring(prefix, lowercase_prefix, text);
            let places = s.best_places(s.query.len());
            let best = s.best(0, 0).0;
            match matcher.outcome(prefix, lowercase_prefix, text) {
                scoring::Outcome::Overrun => false,
                scoring::Outcome::Unmatched => !embedding::is_subsequence(
                    searched_text(lowercase_prefix, text),
                    matcher.lowercase_query@,
                ) || binary64::product(best, binary64::fraction(s.query.len(), 1)) == 0,
                scoring::Outcome::Matched { score, positions } => {
                    &&& embedding::is_subsequence(
                        searched_text(lowercase_prefix, text),
                        matcher.lowercase_query@,
                    )
                    &&& binary64::product(best, binary64::fraction(s.query.len(), 1)) > 0
                    &&& score == s.total(best, places)
                    &&& places.len() == s.query.len()
                    &&& forall|i: int, j: int|
                        0 <= i < j < places.len() ==> places[i] < places[j]
                    &&& forall|i: int|
                        0 <= i < places.len() ==> #[trigger] places[i] < s.text().len() && s.matches(
                            i as nat,
                            places[i] as nat,
                        )
                    &&& positions.len() == places.len()
                    &&& forall|i: int|
                        0 <= i < places.len() ==> #[trigger] positions[i] == scoring::byte_length(
                            s.text().take(places[i] as int),
                        )
                },
            }
        }),
{
    let s = matcher.text_scoring(prefix, lowercase_prefix, text);
    let n = s.query.len();
    lemma_plain_lowercase(text);
    if embedding::is_subsequence(searched_text(lowercase_prefix, text), matcher.lowercase_query@) {
        lemma_plain_input_is_ready(matcher, prefix, lowercase_prefix, text);
        let size = n * s.text().len();
        let blank = scoring::Table::blank(size);
        s.lemma_ready_is_aligned();
        s.lemma_blank_is_sound();
        let count = binary64::fraction(n, 1);
        s.lemma_visit_stays(0, 0, count, blank);
        s.lemma_visit_is_best(0, 0, count, blank);
        let (best, table) = s.visit(0, 0, count, blank)->0;
        if binary64::product(best, count) > 0 {
            lemma_found_is_short(s);
            weights::lemma_integer_code(n);
            lemma_zero_product(count);
            assert(best > 0);
            s.lemma_places_read_off(table, n);
            let places = s.best_places(n);
            assert forall|i: int| 0 <= i < places.len() implies #[trigger] s.byte_positions(
                places,
            )[i] == scoring::byte_length(s.text().take(places[i] as int)) by {
                lemma_byte_positions_are_offsets(s, places, i);
                assert(places[i] < s.text().len());
                scoring::lemma_byte_length_bound(s.text().take(places[i] as int));
                matcher::lemma_not_oversized(n * s.text().len());
                assert(s.text().len() <= n * s.text().len()) by (nonlinear_arith)
                    requires
                        n > 0,
                ;
            }
        }
    }
}

/// A query that has been found is no longer than the text.
pub proof fn lemma_found_is_short(s: Scoring)
    requires
        s.ready(),
    ensures
        s.query.len() <= s.text().len(),
{
    s.lemma_plain_places(0);
    embedding::lemma_embedding_is_short(
        s.lowercase_prefix + s.lowercase_path,
        s.lowercase_query,
        s.last_positions,
    );
}

/// Zero times a finite number is zero.
pub proof fn lemma_zero_product(b: nat)
    requires
        b < binary64::INFINITY_CODE,
    ensures
        binary64::product(0, b) == 0,
{
    assert(binary64::units(0) == 0);
    assert(0 * binary64::units(b) == 0);
    vstd::arithmetic::power2::lemma_pow2_pos(1074);
    binary64::lemma_rounded_zero(binary64::one_units());
}

/// Whatever matches holds the characters of the lowercase query in their order.
pub proof fn law_matches_hold_the_query<Bag>(
    matcher: &Matcher<Bag>,
    prefix: Seq<char>,
    lowercase_prefix: Seq<char>,
    text: Seq<char>,
)
    requires
        matcher.outcome(prefix, lowercase_prefix, text) is Matched,
    ensures
        embedding::is_subsequence(searched_text(lowercase_prefix, text), matcher.lowercase_query@),
{
}

/// A query of 1 to 73 characters matches exactly the plain texts that hold its characters in
/// their order. (The score of a longer one may be lost to rounding.)
pub proof fn law_short_query_matches_what_holds_it<Bag>(
    matcher: &Matcher<Bag>,
    prefix: Seq<char>,
    lowercase_prefix: Seq<char>,
    text: Seq<char>,
)
    requires
        plain_input(matcher, prefix, lowercase_prefix, text),
        fits_memory(matcher, prefix, text),
        0 < matcher.query@.len() <= 73,
    ensures
        matcher.outcome(prefix, lowercase_prefix, text) is Matched <==> embedding::is_subsequence(
            searched_text(lowercase_prefix, text),
            matcher.lowercase_query@,
        ),
{
    law_plain_text(matcher, prefix, lowercase_prefix, text);
    if embedding::is_subsequence(searched_text(lowercase_prefix, text), matcher.lowercase_query@) {
        let s = matcher.text_scoring(prefix, lowercase_prefix, text);
        lemma_plain_input_is_ready(matcher, prefix, lowercase_prefix, text);
        s.lemma_ready_limit(0);
        s.lemma_best_floor(0, 0);
        let best = s.best(0, 0).0;
        let n = s.query.len();
        weights::lemma_integer_code(n);
        weights::lemma_weight_codes();
        weights::lemma_power_product(best, binary64::fraction(n, 1), s.depth(0), 0);
    }
}

/// An empty query matches nothing.
pub proof fn law_empty_query_matches_nothing<Bag>(
    matcher: &Matcher<Bag>,
    prefix: Seq<char>,
    lowercase_prefix: Seq<char>,
    text: Seq<char>,
)
    requires
        matcher.query@.len() == 0,
    ensures
        !(matcher.outcome(prefix, lowercase_prefix, text) is Matched),
{
    weights::lemma_weight_codes();
    weights::lemma_integer_code(0);
    let one = weights::ONE as nat;
    assert(binary64::units(0) == 0);
    assert(binary64::units(one) * 0 == 0);
    vstd::arithmetic::power2::lemma_pow2_pos(1074);
    binary64::lemma_rounded_zero(binary64::one_units());
}

/// Where a plain text matches, the marked places are a way to place the query, and the score comes
/// from the product of their factors.
pub proof fn law_match_is_placed<Bag>(
    matcher: &Matcher<Bag>,
    prefix: Seq<char>,
    lowercase_prefix: Seq<char>,
    text: Seq<char>,
)
    requires
        plain_input(matcher, prefix, lowercase_prefix, text),
        fits_memory(matcher, prefix, text),
        matcher.outcome(prefix, lowercase_prefix, text) is Matched,
    ensures
        ({
            let s = matcher.text_scoring(prefix, lowercase_prefix, text);
            let places = s.best_places(s.query.len());
            &&& s.fits(places)
            &&& matcher.outcome(prefix, lowercase_prefix, text)->score == s.total(
                s.placed_score(places, 0),
                places,
            )
        }),
{
    let s = matcher.text_scoring(prefix, lowercase_prefix, text);
    law_plain_text(matcher, prefix, lowercase_prefix, text);
    lemma_plain_input_is_ready(matcher, prefix, lowercase_prefix, text);
    lemma_found_is_short(s);
    weights::lemma_integer_code(s.query.len());
    lemma_zero_product(binary64::fraction(s.query.len(), 1));
    s.lemma_best_places_fit(s.query.len());
    s.lemma_best_places_reach(0);
}

/// Where a plain text matches, no other way to place the query has a larger product of factors
/// than the one that is marked. With the boost a search that comes to exactly one stops there, and
/// something better may lie ahead.
pub proof fn law_no_better_placement<Bag>(
    matcher: &Matcher<Bag>,
    prefix: Seq<char>,
    lowercase_prefix: Seq<char>,
    text: Seq<char>,
    others: Seq<usize>,
)
    requires
        plain_input(matcher, prefix, lowercase_prefix, text),
        fits_memory(matcher, prefix, text),
        matcher.outcome(prefix, lowercase_prefix, text) is Matched,
        matcher.text_scoring(prefix, lowercase_prefix, text).exhaustive(),
        matcher.text_scoring(prefix, lowercase_prefix, text).fits(others),
    ensures
        ({
            let s = matcher.text_scoring(prefix, lowercase_prefix, text);
            s.placed_score(others, 0) <= s.placed_score(s.best_places(s.query.len()), 0)
        }),
{
    let s = matcher.text_scoring(prefix, lowercase_prefix, text);
    law_plain_text(matcher, prefix, lowercase_prefix, text);
    lemma_plain_input_is_ready(matcher, prefix, lowercase_prefix, text);
    lemma_found_is_short(s);
    weights::lemma_integer_code(s.query.len());
    lemma_zero_product(binary64::fraction(s.query.len(), 1));
    s.lemma_best_places_reach(0);
    s.lemma_plain_is_mapped();
    s.lemma_best_is_maximum(others, 0);
}

/// Where a difference in case counts, or where a separator stands for another character, the
/// character weighs less than any that agrees.
pub proof fn law_difference_weighs_less(
    s: Scoring,
    q: nat,
    p: nat,
    j: nat,
    t: Scoring,
    other_q: nat,
    other_p: nat,
    other_j: nat,
)
    requires
        s.penalized(q, j),
        !t.penalized(other_q, other_j),
    ensures
        s.character_weight(q, p, j) < t.character_weight(other_q, other_p, other_j),
{
    weights::lemma_weight_codes();
    s.lemma_placement_weight_range(q, p, j);
    t.lemma_placement_weight_range(other_q, other_p, other_j);
    weights::lemma_penalty_range(s.placement_weight(q, p, j));
}

/// Without the boost no place weighs more than the one right after the character before.
pub proof fn law_adjacent_weighs_most(s: Scoring, q: nat, p: nat, j: nat)
    requires
        !s.word_boundary_boost,
    ensures
        s.placement_weight(q, p, j) <= s.placement_weight(q, p, p),
{
    weights::lemma_weight_codes();
    s.lemma_placement_weight_range(q, p, j);
}

/// The wider the gap to the character before, the less a place weighs, or the same.
pub proof fn law_gaps_weigh_less(gap: nat, wider: nat)
    requires
        gap <= wider <= usize::MAX,
    ensures
        weights::distance_weight(wider) <= weights::distance_weight(gap),
{
    weights::lemma_distance_weight_falls(gap, wider);
}

/// Where length counts, more text after the last separator makes the factor of the first
/// character smaller, or leaves it the same.
pub proof fn law_length_weighs_less(s: Scoring, p: nat, j: nat, t: Scoring, other_p: nat, other_j: nat)
    requires
        s.penalize_length,
        t.penalize_length,
        s.character_weight(0, p, j) == t.character_weight(0, other_p, other_j),
        0 < s.text().len() - s.last_slash(p, j) <= t.text().len() - t.last_slash(other_p, other_j)
            <= usize::MAX,
    ensures
        t.factor(0, other_p, other_j) <= s.factor(0, p, j),
{
    let short = (s.text().len() - s.last_slash(p, j)) as nat;
    let long = (t.text().len() - t.last_slash(other_p, other_j)) as nat;
    weights::lemma_integer_code(short);
    binary64::lemma_fraction_ordered(short, long);
    let weight = s.character_weight(0, p, j);
    binary64::lemma_quotient_ordered(
        weight,
        weight,
        binary64::fraction(long, 1),
        binary64::fraction(short, 1),
    );
}

/// The more characters lie in the last path component, and the more follow its words from the
/// first one on, the larger the total is, or it stays the same.
pub proof fn law_boost_rewards_abbreviations(s: Scoring, best: nat, fewer: Seq<usize>, more: Seq<usize>)
    requires
        fewer.len() == s.query.len() <= usize::MAX,
        more.len() == s.query.len(),
        s.filename_matches(fewer) <= s.filename_matches(more),
        scoring::leading_hits(fewer, s.word_starts(s.text().len()), 0) <= scoring::leading_hits(
            more,
            s.word_starts(s.text().len()),
            0,
        ),
    ensures
        s.total(best, fewer) <= s.total(best, more),
{
    let n = s.query.len();
    weights::lemma_weight_codes();
    weights::lemma_integer_code(n);
    let score = binary64::product(best, binary64::fraction(n, 1));
    binary64::lemma_product_in_range(best, binary64::fraction(n, 1));
    if s.word_boundary_boost && n > 0 {
        let starts = s.word_starts(s.text().len());
        let half = weights::ONE_HALF as nat;
        let thrice = weights::THREE_HALVES as nat;
        let a = s.share(s.filename_matches(fewer));
        let b = s.share(s.filename_matches(more));
        let c = s.share(scoring::leading_hits(fewer, starts, 0));
        let d = s.share(scoring::leading_hits(more, starts, 0));
        s.lemma_filename_matches_bound(more);
        scoring::lemma_leading_hits_bound(more, starts, 0);
        lemma_share_ordered(s.filename_matches(fewer), s.filename_matches(more), n);
        lemma_share_ordered(
            scoring::leading_hits(fewer, starts, 0),
            scoring::leading_hits(more, starts, 0),
            n,
        );
        weights::lemma_boost_grows(a, b, half);
        weights::lemma_boost_grows(c, d, thrice);
        weights::lemma_boost_range(a, half);
        weights::lemma_boost_range(b, half);
        weights::lemma_boost_range(c, thrice);
        weights::lemma_boost_range(d, thrice);
        let one = weights::ONE as nat;
        let x = binary64::sum(one, binary64::product(a, half));
        let y = binary64::sum(one, binary64::product(b, half));
        let z = binary64::sum(one, binary64::product(c, thrice));
        let w = binary64::sum(one, binary64::product(d, thrice));
        binary64::lemma_product_ordered(score, score, x, y);
        binary64::lemma_product_ordered(
            binary64::product(score, x),
            binary64::product(score, y),
            z,
            w,
        );
    }
}

/// A larger count is a larger share.
proof fn lemma_share_ordered(count: nat, larger: nat, whole: nat)
    requires
        count <= larger <= whole <= usize::MAX,
        0 < whole,
    ensures
        binary64::quotient(binary64::fraction(count, 1), binary64::fraction(whole, 1))
            <= binary64::quotient(binary64::fraction(larger, 1), binary64::fraction(whole, 1))
            <= weights::ONE,
{
    weights::lemma_integer_code(whole);
    weights::lemma_share_range(larger, whole);
    binary64::lemma_fraction_ordered(count, larger);
    binary64::lemma_quotient_ordered(
        binary64::fraction(count, 1),
        binary64::fraction(larger, 1),
        binary64::fraction(whole, 1),
        binary64::fraction(whole, 1),
    );
}

/// Where case does not count, the case of the query makes no difference.
pub proof fn law_case_is_ignored<Bag>(
    matcher: &Matcher<Bag>,
    other: &Matcher<Bag>,
    prefix: Seq<char>,
    lowercase_prefix: Seq<char>,
    text: Seq<char>,
)
    requires
        !matcher.smart_case,
        !other.smart_case,
        matcher.lowercase_query@ == other.lowercase_query@,
        matcher.penalize_length == other.penalize_length,
        matcher.word_boundary_boost == other.word_boundary_boost,
        matcher.min_score@ == other.min_score@,
        matcher.separator == other.separator,
        matcher.windows == other.windows,
        matcher.query@.len() == other.query@.len(),
        forall|q: int|
            0 <= q < matcher.query@.len() ==> (#[trigger] other.query@[q] == matcher.separator
                <==> matcher.query@[q] == matcher.separator),
    ensures
        matcher.outcome(prefix, lowercase_prefix, text) == other.outcome(
            prefix,
            lowercase_prefix,
            text,
        ),
{
    let s = matcher.text_scoring(prefix, lowercase_prefix, text);
    let t = other.text_scoring(prefix, lowercase_prefix, text);
    law_case_is_ignored_in_scores(
        s,
        t,
        scoring::Table::blank(s.query.len() * s.text().len()),
    );
}

/// The same query but for its case, against the same text, where case does not count.
pub open spec fn same_but_case(s: Scoring, t: Scoring) -> bool {
    &&& t == (Scoring { query: t.query, ..s })
    &&& !s.smart_case
    &&& t.query.len() == s.query.len()
    &&& forall|q: int|
        0 <= q < s.query.len() ==> (#[trigger] t.query[q] == s.separator <==> s.query[q]
            == s.separator)
}

/// Where case does not count, the case of the query makes no difference to a search, whatever its
/// tables hold.
pub proof fn law_case_is_ignored_in_scores(s: Scoring, t: Scoring, table: scoring::Table)
    requires
        same_but_case(s, t),
    ensures
        s.outcome(table) == t.outcome(table),
{
    assert forall|q: nat, j: nat|
        q < s.query.len() && j < s.lowercase_len() implies #[trigger] t.penalized(q, j)
        == s.penalized(q, j) by {
        assert(t.query[q as int] == s.separator <==> s.query[q as int] == s.separator);
    }
    s.lemma_alike_outcome(t, table);
}

/// The matches are those of the candidates that match, each of them once, in the order of the
/// candidates.
pub proof fn law_matches_keep_the_order<Bag>(
    matcher: &Matcher<Bag>,
    prefix: Seq<char>,
    lowercase_prefix: Seq<char>,
    replies: Seq<Reply>,
)
    ensures
        ({
            let found = matcher.matches_among(prefix, lowercase_prefix, replies);
            &&& forall|i: int, j: int|
                0 <= i < j < found.len() ==> found[i].candidate < found[j].candidate
            &&& forall|i: int|
                0 <= i < found.len() ==> 0 <= (#[trigger] found[i]).candidate < replies.len()
                    && matcher.outcome_of(prefix, lowercase_prefix, replies[found[i].candidate])
                    == (scoring::Outcome::Matched {
                    score: found[i].score,
                    positions: found[i].positions,
                })
            &&& forall|k: int|
                0 <= k < replies.len() && matcher.outcome_of(
                    prefix,
                    lowercase_prefix,
                    #[trigger] replies[k],
                ) is Matched ==> exists|i: int|
                    0 <= i < found.len() && (#[trigger] found[i]).candidate == k
        }),
    decreases replies.len(),
{
    if replies.len() > 0 {
        let rest = replies.drop_last();
        let last = replies.len() - 1;
        let earlier = matcher.matches_among(prefix, lowercase_prefix, rest);
        let found = matcher.matches_among(prefix, lowercase_prefix, replies);
        law_matches_keep_the_order(matcher, prefix, lowercase_prefix, rest);
        assert forall|i: int| 0 <= i < earlier.len() implies #[trigger] found[i] == earlier[i]
            && replies[earlier[i].candidate] == rest[earlier[i].candidate] by {}
        assert forall|k: int|
            0 <= k < replies.len() && matcher.outcome_of(
                prefix,
                lowercase_prefix,
                #[trigger] replies[k],
            ) is Matched implies exists|i: int|
            0 <= i < found.len() && (#[trigger] found[i]).candidate == k by {
            if k < last {
                assert(rest[k] == replies[k]);
                let i = choose|i: int|
                    0 <= i < earlier.len() && (#[trigger] earlier[i]).candidate == k;
                assert(found[i].candidate == k);
            } else {
                assert(found[earlier.len() as int].candidate == k);
            }
        }
    }
}

/// The same matches, with their candidates numbered from further up.
pub open spec fn moved_up(found: Seq<Match>, by: int) -> Seq<Match> {
    Seq::new(
        found.len(),
        |i: int|
            Match {
                candidate: found[i].candidate + by,
                score: found[i].score,
                positions: found[i].positions,
            },
    )
}

/// Candidates do not depend on one another: the matches of two lists put together are those of the
/// first, followed by those that another matcher with the same settings finds in the second.
pub proof fn law_candidates_are_independent<Bag>(
    matcher: &Matcher<Bag>,
    other: &Matcher<Bag>,
    prefix: Seq<char>,
    lowercase_prefix: Seq<char>,
    first: Seq<Reply>,
    second: Seq<Reply>,
)
    requires
        matcher.same_settings(other),
    ensures
        matcher.matches_among(prefix, lowercase_prefix, first + second) == matcher.matches_among(
            prefix,
            lowercase_prefix,
            first,
        ) + moved_up(
            other.matches_among(prefix, lowercase_prefix, second),
            first.len() as int,
        ),
    decreases second.len(),
{
    let by = first.len() as int;
    let head = matcher.matches_among(prefix, lowercase_prefix, first);
    if second.len() == 0 {
        assert(first + second =~= first);
        assert(moved_up(other.matches_among(prefix, lowercase_prefix, second), by) =~= Seq::<
            Match,
        >::empty());
        assert(head + Seq::<Match>::empty() =~= head);
    } else {
        let rest = second.drop_last();
        law_candidates_are_independent(matcher, other, prefix, lowercase_prefix, first, rest);
        assert((first + second).drop_last() =~= first + rest);
        assert((first + second).last() == second.last());
        matcher.lemma_same_outcome(other, prefix, lowercase_prefix, second.last().text);
        let earlier = other.matches_among(prefix, lowercase_prefix, rest);
        let found = other.matches_among(prefix, lowercase_prefix, second);
        assert(matcher.matches_among(prefix, lowercase_prefix, first + second) =~= head
            + moved_up(found, by)) by {
            assert(moved_up(found, by).take(earlier.len() as int) =~= moved_up(earlier, by));
        }
    }
}

/// A call on one list of candidates, followed by a call on another with the same settings, makes
/// of both what one call makes of the two lists put together.
pub proof fn law_calls_join<Bag, C: MatchCandidate<Bag>, R, F: Fn(&C, Binary64, &Vec<usize>) -> R>(
    matcher: &Matcher<Bag>,
    other: &Matcher<Bag>,
    prefix: Seq<char>,
    lowercase_prefix: Seq<char>,
    candidates: Seq<C>,
    more: Seq<C>,
    cancel_flag: &AtomicBool,
    build_match: F,
    replies: Seq<Reply>,
    built: Seq<R>,
    more_replies: Seq<Reply>,
    more_built: Seq<R>,
    stuck: bool,
)
    requires
        matcher.same_settings(other),
        matcher.handled(
            prefix,
            lowercase_prefix,
            candidates,
            cancel_flag,
            build_match,
            replies,
            built,
            false,
        ),
        replies.len() == candidates.len(),
        replies.len() > 0 ==> !replies.last().stops(),
        other.handled(
            prefix,
            lowercase_prefix,
            more,
            cancel_flag,
            build_match,
            more_replies,
            more_built,
            stuck,
        ),
    ensures
        matcher.handled(
            prefix,
            lowercase_prefix,
            candidates + more,
            cancel_flag,
            build_match,
            replies + more_replies,
            built + more_built,
            stuck,
        ),
{
    let joined = replies + more_replies;
    let all = candidates + more;
    let by = replies.len() as int;
    let found = matcher.matches_among(prefix, lowercase_prefix, joined);
    let head = matcher.matches_among(prefix, lowercase_prefix, replies);
    let tail = other.matches_among(prefix, lowercase_prefix, more_replies);
    law_candidates_are_independent(
        matcher,
        other,
        prefix,
        lowercase_prefix,
        replies,
        more_replies,
    );
    law_matches_keep_the_order(matcher, prefix, lowercase_prefix, replies);
    law_matches_keep_the_order(other, prefix, lowercase_prefix, more_replies);
    assert forall|i: int| 0 <= i < joined.len() implies matcher::replied(
        all[i],
        matcher.query_char_bag,
        cancel_flag,
        #[trigger] joined[i],
    ) by {
        if i < by {
            assert(joined[i] == replies[i] && all[i] == candidates[i]);
        } else {
            assert(joined[i] == more_replies[i - by] && all[i] == more[i - by]);
        }
    }
    assert forall|i: int| 0 <= i < joined.len() - 1 implies !(#[trigger] joined[i]).stops() by {
        if i < by {
            assert(joined[i] == replies[i]);
        } else {
            assert(joined[i] == more_replies[i - by]);
        }
    }
    assert forall|i: int| 0 <= i < joined.len() implies (matcher.outcome_of(
        prefix,
        lowercase_prefix,
        #[trigger] joined[i],
    ) is Overrun <==> stuck && i == joined.len() - 1) by {
        if i < by {
            assert(joined[i] == replies[i]);
        } else {
            assert(joined[i] == more_replies[i - by]);
            matcher.lemma_same_outcome(other, prefix, lowercase_prefix, joined[i].text);
        }
    }
    let all_built = built + more_built;
    assert forall|i: int| 0 <= i < found.len() implies matcher::built_from(
        all[found[i].candidate],
        build_match,
        found[i],
        #[trigger] all_built[i],
    ) by {
        if i < head.len() {
            assert(found[i] == head[i] && all_built[i] == built[i]);
            assert(all[head[i].candidate] == candidates[head[i].candidate]);
        } else {
            let k = i - head.len();
            assert(all_built[i] == more_built[k]);
            assert(found[i] == moved_up(tail, by)[k]);
            assert(matcher::built_from(
                more[tail[k].candidate],
                build_match,
                tail[k],
                more_built[k],
            ));
            assert(all[found[i].candidate] == more[tail[k].candidate]);
            let (score, positions) = choose|score: Binary64, positions: Vec<usize>|
                #[trigger] call_ensures(
                    build_match,
                    (&more[tail[k].candidate], score, &positions),
                    more_built[k],
                ) && score@ == tail[k].score && positions@ == tail[k].positions;
            assert(call_ensures(
                build_match,
                (&all[found[i].candidate], score, &positions),
                all_built[i],
            ));
        }
    }
}

/// A call that was cancelled has made of the candidates before the one that it stopped at what a
/// call that is never cancelled makes of those alone.
pub proof fn law_cancelling_cuts_short<
    Bag,
    C: MatchCandidate<Bag>,
    R,
    F: Fn(&C, Binary64, &Vec<usize>) -> R,
>(
    matcher: &Matcher<Bag>,
    prefix: Seq<char>,
    lowercase_prefix: Seq<char>,
    candidates: Seq<C>,
    cancel_flag: &AtomicBool,
    build_match: F,
    replies: Seq<Reply>,
    built: Seq<R>,
)
    requires
        matcher.handled(
            prefix,
            lowercase_prefix,
            candidates,
            cancel_flag,
            build_match,
            replies,
            built,
            false,
        ),
        replies.len() > 0,
        replies.last().stops(),
    ensures
        matcher.handled(
            prefix,
            lowercase_prefix,
            candidates.take(replies.len() - 1),
            cancel_flag,
            build_match,
            replies.drop_last(),
            built,
            false,
        ),
        forall|i: int| 0 <= i < replies.len() - 1 ==> !(#[trigger] replies[i]).stops(),
        replies.len() == 1 ==> built.len() == 0,
{
    let rest = replies.drop_last();
    let before = candidates.take(replies.len() - 1);
    let found = matcher.matches_among(prefix, lowercase_prefix, replies);
    assert(found == matcher.matches_among(prefix, lowercase_prefix, rest));
    law_matches_keep_the_order(matcher, prefix, lowercase_prefix, rest);
    assert forall|i: int| 0 <= i < rest.len() implies matcher::replied(
        before[i],
        matcher.query_char_bag,
        cancel_flag,
        #[trigger] rest[i],
    ) && !rest[i].stops() && !(matcher.outcome_of(prefix, lowercase_prefix, rest[i])
        is Overrun) by {
        assert(rest[i] == replies[i] && before[i] == candidates[i]);
    }
    assert forall|i: int| 0 <= i < found.len() implies matcher::built_from(
        before[found[i].candidate],
        build_match,
        found[i],
        #[trigger] built[i],
    ) by {
        assert(before[found[i].candidate] == candidates[found[i].candidate]);
    }
}

/// The same query against the same text, divided otherwise into prefix and candidate. Neither
/// prefix is longer or shorter in lowercase, and with the boost the last path component begins at
/// the same place.
pub open spec fn divided_otherwise(s: Scoring, t: Scoring) -> bool {
    &&& t == (Scoring {
        prefix: t.prefix,
        lowercase_prefix: t.lowercase_prefix,
        path: t.path,
        lowercase_path: t.lowercase_path,
        ..s
    })
    &&& t.prefix + t.path == s.prefix + s.path
    &&& t.lowercase_prefix + t.lowercase_path == s.lowercase_prefix + s.lowercase_path
    &&& t.lowercase_prefix.len() == t.prefix.len()
    &&& s.lowercase_prefix.len() == s.prefix.len()
    &&& s.word_boundary_boost ==> t.filename_start() == s.filename_start()
}

/// Where a text is divided into prefix and candidate makes no difference to a search, whatever its
/// tables hold.
pub proof fn law_division_is_ignored_in_scores(s: Scoring, t: Scoring, table: scoring::Table)
    requires
        divided_otherwise(s, t),
    ensures
        s.outcome(table) == t.outcome(table),
{
    let lowercase = s.lowercase_prefix + s.lowercase_path;
    assert((t.lowercase_prefix + t.lowercase_path).len() == lowercase.len());
    assert forall|j: nat| j < s.lowercase_len() implies #[trigger] t.lowercase_char(j)
        == s.lowercase_char(j) by {
        assert(s.lowercase_char(j) == lowercase[j as int]);
        assert(t.lowercase_char(j) == (t.lowercase_prefix + t.lowercase_path)[j as int]);
    }
    s.lemma_alike_outcome(t, table);
}

/// Where a text whose characters keep their length in lowercase is divided into prefix and
/// candidate makes no difference; with the boost, as long as the last path component begins at the
/// same place.
pub proof fn law_division_is_ignored<Bag>(
    matcher: &Matcher<Bag>,
    prefix: Seq<char>,
    text: Seq<char>,
    other_prefix: Seq<char>,
    other_text: Seq<char>,
)
    requires
        prefix + text == other_prefix + other_text,
        forall|i: int|
            0 <= i < (prefix + text).len() ==> (#[trigger] characters::lowercase_mapping(
                (prefix + text)[i],
            )).len() == 1,
        matcher.word_boundary_boost ==> prefix.len() + scoring::after_last(text, matcher.separator)
            == other_prefix.len() + scoring::after_last(other_text, matcher.separator),
    ensures
        matcher.outcome(prefix, lowering::lowercase_text(prefix), text) == matcher.outcome(
            other_prefix,
            lowering::lowercase_text(other_prefix),
            other_text,
        ),
{
    let s = matcher.text_scoring(prefix, lowering::lowercase_text(prefix), text);
    let t = matcher.text_scoring(
        other_prefix,
        lowering::lowercase_text(other_prefix),
        other_text,
    );
    let table = scoring::Table::blank(s.query.len() * (prefix.len() + text.len()));
    lemma_divided_lowercase(prefix, text);
    lemma_divided_lowercase(other_prefix, other_text);
    assert((other_prefix + other_text).len() == (prefix + text).len());
    law_division_is_ignored_in_scores(s, t, table);
}

/// The lowercase form of a divided text whose characters keep their length.
proof fn lemma_divided_lowercase(prefix: Seq<char>, text: Seq<char>)
    requires
        forall|i: int|
            0 <= i < (prefix + text).len() ==> (#[trigger] characters::lowercase_mapping(
                (prefix + text)[i],
            )).len() == 1,
    ensures
        lowering::lowercase_text(prefix) + lowering::lowercase_text(text)
            == lowering::lowercase_text(prefix + text),
        lowering::lowercase_text(prefix).len() == prefix.len(),
        lowering::lowercase_text(text).len() == text.len(),
        lowering::extra_widths(text) == Map::<usize, usize>::empty(),
{
    assert forall|i: int| 0 <= i < prefix.len() implies (#[trigger] characters::lowercase_mapping(
        prefix[i],
    )).len() == 1 by {
        assert(prefix[i] == (prefix + text)[i]);
    }
    assert forall|i: int| 0 <= i < text.len() implies (#[trigger] characters::lowercase_mapping(
        text[i],
    )).len() == 1 by {
        assert(text[i] == (prefix + text)[prefix.len() + i]);
    }
    lemma_plain_lowercase(prefix);
    lemma_plain_lowercase(text);
    lowering::lemma_lowercase_adds(prefix, text);
}

/// That case or length counts never raises the best product of factors, from no character of the
/// query and from no place on; with the boost, unless a search comes to exactly one and stops
/// there.
pub proof fn law_strictness_lowers_scores(s: Scoring, t: Scoring, q: nat, p: nat)
    requires
        s.stricter(t),
        s.plain(),
        s.consistent(),
        t.exhaustive(),
    ensures
        s.best(q, p).0 <= t.best(q, p).0,
{
    s.lemma_plain_is_mapped();
    s.lemma_stricter_best(t, q, p);
}

/// That case or length counts never raises the score of a plain text without the boost, nor makes
/// one match. For queries of up to 73 characters it does not keep one from matching either.
pub proof fn law_strictness_lowers_matches<Bag>(
    matcher: &Matcher<Bag>,
    other: &Matcher<Bag>,
    prefix: Seq<char>,
    lowercase_prefix: Seq<char>,
    text: Seq<char>,
)
    requires
        plain_input(matcher, prefix, lowercase_prefix, text),
        fits_memory(matcher, prefix, text),
        matcher.query@ == other.query@,
        matcher.lowercase_query@ == other.lowercase_query@,
        other.smart_case ==> matcher.smart_case,
        other.penalize_length ==> matcher.penalize_length,
        !matcher.word_boundary_boost,
        !other.word_boundary_boost,
        other.min_score@ == 0,
        matcher.separator == other.separator,
        matcher.windows == other.windows,
    ensures
        matcher.outcome(prefix, lowercase_prefix, text) matches scoring::Outcome::Matched {
            score,
            ..
        } ==> {
            &&& other.outcome(prefix, lowercase_prefix, text) is Matched
            &&& score <= other.outcome(prefix, lowercase_prefix, text)->score
        },
        matcher.query@.len() <= 73 ==> (matcher.outcome(
            prefix,
            lowercase_prefix,
            text,
        ) is Matched <==> other.outcome(prefix, lowercase_prefix, text) is Matched),
{
    let s = matcher.text_scoring(prefix, lowercase_prefix, text);
    let t = other.text_scoring(prefix, lowercase_prefix, text);
    let n = s.query.len();
    law_plain_text(matcher, prefix, lowercase_prefix, text);
    law_plain_text(other, prefix, lowercase_prefix, text);
    if n == 0 {
        law_empty_query_matches_nothing(matcher, prefix, lowercase_prefix, text);
        law_empty_query_matches_nothing(other, prefix, lowercase_prefix, text);
    } else if n <= 73 {
        law_short_query_matches_what_holds_it(matcher, prefix, lowercase_prefix, text);
        law_short_query_matches_what_holds_it(other, prefix, lowercase_prefix, text);
    }
    if embedding::is_subsequence(searched_text(lowercase_prefix, text), matcher.lowercase_query@) {
        lemma_plain_input_is_ready(matcher, prefix, lowercase_prefix, text);
        lemma_plain_input_is_ready(other, prefix, lowercase_prefix, text);
        lemma_found_is_short(s);
        weights::lemma_integer_code(n);
        weights::lemma_weight_codes();
        law_strictness_lowers_scores(s, t, 0, 0);
        t.lemma_plain_is_mapped();
        t.lemma_best_at_most_one(0, 0);
        binary64::lemma_product_monotone(
            s.best(0, 0).0,
            t.best(0, 0).0,
            binary64::fraction(n, 1),
        );
    }
}

/// A search leaves its score in the table, so that a second one finds it there, whatever the
/// characters before have come to: it returns the same and changes nothing.
pub proof fn law_second_search_changes_nothing(
    s: Scoring,
    q: nat,
    p: nat,
    carried: nat,
    other: nat,
    table: scoring::Table,
)
    requires
        q < s.query.len(),
        s.visit(q, p, carried, table) is Some,
    ensures
        ({
            let (score, after) = s.visit(q, p, carried, table)->0;
            &&& after.scores[s.cell(q, p)] == Some(score)
            &&& s.visit(q, p, other, after) == Some((score, after))
        }),
{
    s.lemma_visit_keeps_size(q, p, carried, table);
}

/// Where nothing is cut off, what the characters before have come to makes no difference to a
/// search.
pub proof fn law_earlier_factors_make_no_difference(
    s: Scoring,
    q: nat,
    p: nat,
    carried: nat,
    other: nat,
    table: scoring::Table,
)
    requires
        s.min_score == 0,
    ensures
        s.visit(q, p, carried, table) == s.visit(q, p, other, table),
{
    s.lemma_carried_is_unused(q, p, carried, other, table);
}

/// What became known of a candidate decides what comes of it: one that was not admitted, or that
/// was not searched because the search was cancelled, does not match; what comes of any other is
/// what comes of its text.
pub proof fn law_only_searched_candidates_match<Bag>(
    matcher: &Matcher<Bag>,
    prefix: Seq<char>,
    lowercase_prefix: Seq<char>,
    reply: Reply,
)
    ensures
        !reply.admitted ==> matcher.outcome_of(prefix, lowercase_prefix, reply) is Unmatched,
        reply.cancelled ==> matcher.outcome_of(prefix, lowercase_prefix, reply) is Unmatched,
        reply.admitted && !reply.cancelled ==> matcher.outcome_of(prefix, lowercase_prefix, reply)
            == matcher.outcome(prefix, lowercase_prefix, reply.text),
{
}

/// The value was built from candidate `k`, which said that it may hold the characters, was taken
/// up after the flag was read as not set, and gave a text that matches, with the score and the
/// positions of that match.
pub open spec fn came_of<
    Bag,
    C: MatchCandidate<Bag>,
    R,
    F: Fn(&C, Binary64, &Vec<usize>) -> R,
>(
    matcher: &Matcher<Bag>,
    prefix: Seq<char>,
    lowercase_prefix: Seq<char>,
    candidate: C,
    cancel_flag: &AtomicBool,
    build_match: F,
    text: Seq<char>,
    value: R,
) -> bool {
    let outcome = matcher.outcome(prefix, lowercase_prefix, text);
    &&& call_ensures(C::has_chars, (&candidate, matcher.query_char_bag), true)
    &&& matcher::read_from(cancel_flag, false)
    &&& exists|string: std::borrow::Cow<'_, str>| #[trigger]
        call_ensures(C::to_string, (&candidate,), string) && string@ == text
    &&& outcome is Matched
    &&& exists|score: Binary64, positions: Vec<usize>| #[trigger]
        call_ensures(build_match, (&candidate, score, &positions), value) && score@
            == outcome->score && positions@ == outcome->positions
}

/// The values were built from the candidates of these numbers, in their order.
pub open spec fn all_came_of<
    Bag,
    C: MatchCandidate<Bag>,
    R,
    F: Fn(&C, Binary64, &Vec<usize>) -> R,
>(
    matcher: &Matcher<Bag>,
    prefix: Seq<char>,
    lowercase_prefix: Seq<char>,
    candidates: Seq<C>,
    cancel_flag: &AtomicBool,
    build_match: F,
    replies: Seq<Reply>,
    built: Seq<R>,
    which: Seq<int>,
) -> bool {
    &&& which.len() == built.len()
    &&& forall|a: int, b: int| 0 <= a < b < which.len() ==> which[a] < which[b]
    &&& forall|a: int|
        0 <= a < which.len() ==> 0 <= #[trigger] which[a] < replies.len() && came_of(
            matcher,
            prefix,
            lowercase_prefix,
            candidates[which[a]],
            cancel_flag,
            build_match,
            replies[which[a]].text,
            built[a],
        )
}

/// What a call adds to the results was built in the order of the candidates; and of the candidates
/// that were asked, each that was admitted, was not cancelled and matches has its part in it.
pub proof fn law_calls_build_what_matches<
    Bag,
    C: MatchCandidate<Bag>,
    R,
    F: Fn(&C, Binary64, &Vec<usize>) -> R,
>(
    matcher: &Matcher<Bag>,
    prefix: Seq<char>,
    lowercase_prefix: Seq<char>,
    candidates: Seq<C>,
    cancel_flag: &AtomicBool,
    build_match: F,
    replies: Seq<Reply>,
    built: Seq<R>,
    stuck: bool,
)
    requires
        matcher.handled(
            prefix,
            lowercase_prefix,
            candidates,
            cancel_flag,
            build_match,
            replies,
            built,
            stuck,
        ),
    ensures
        replies.len() <= candidates.len(),
        forall|k: int|
            0 <= k < replies.len() ==> call_ensures(
                C::has_chars,
                (&candidates[k], matcher.query_char_bag),
                (#[trigger] replies[k]).admitted,
            ) && (replies[k].admitted ==> matcher::read_from(cancel_flag, replies[k].cancelled)),
        forall|k: int|
            0 <= k < replies.len() && (#[trigger] replies[k]).admitted && replies[k].cancelled
                ==> k == replies.len() - 1,
        forall|k: int|
            0 <= k < replies.len() && (#[trigger] replies[k]).admitted && !replies[k].cancelled
                && matcher.outcome(prefix, lowercase_prefix, replies[k].text) is Overrun ==> stuck
                && k == replies.len() - 1,
        stuck ==> replies.len() > 0 && replies.last().admitted && !replies.last().cancelled
            && matcher.outcome(prefix, lowercase_prefix, replies.last().text) is Overrun,
        exists|which: Seq<int>|
            #[trigger] all_came_of(
                matcher,
                prefix,
                lowercase_prefix,
                candidates,
                cancel_flag,
                build_match,
                replies,
                built,
                which,
            ) && forall|k: int|
                0 <= k < replies.len() && (#[trigger] replies[k]).admitted && !replies[k].cancelled
                    && matcher.outcome(prefix, lowercase_prefix, replies[k].text) is Matched
                    ==> which.contains(k),
{
    let found = matcher.matches_among(prefix, lowercase_prefix, replies);
    law_matches_keep_the_order(matcher, prefix, lowercase_prefix, replies);
    assert forall|k: int| 0 <= k < replies.len() implies call_ensures(
        C::has_chars,
        (&candidates[k], matcher.query_char_bag),
        (#[trigger] replies[k]).admitted,
    ) && (replies[k].admitted ==> matcher::read_from(cancel_flag, replies[k].cancelled)) by {
        assert(matcher::replied(candidates[k], matcher.query_char_bag, cancel_flag, replies[k]));
    }
    assert forall|k: int|
        0 <= k < replies.len() && (#[trigger] replies[k]).admitted && !replies[k].cancelled
            && matcher.outcome(
            prefix,
            lowercase_prefix,
            replies[k].text,
        ) is Overrun implies stuck && k == replies.len() - 1 by {
        assert(matcher.outcome_of(prefix, lowercase_prefix, replies[k]) is Overrun);
    }
    if stuck {
        let last = replies[replies.len() - 1];
        assert(matcher.outcome_of(prefix, lowercase_prefix, last) is Overrun);
    }
    let which = Seq::new(found.len(), |a: int| found[a].candidate);
    assert forall|a: int| 0 <= a < which.len() implies 0 <= #[trigger] which[a] < replies.len()
        && came_of(
        matcher,
        prefix,
        lowercase_prefix,
        candidates[which[a]],
        cancel_flag,
        build_match,
        replies[which[a]].text,
        built[a],
    ) by {
        let k = found[a].candidate;
        assert(which[a] == k);
        assert(matcher::replied(candidates[k], matcher.query_char_bag, cancel_flag, replies[k]));
        assert(matcher::built_from(candidates[k], build_match, found[a], built[a]));
    }
    assert forall|k: int|
        0 <= k < replies.len() && (#[trigger] replies[k]).admitted && !replies[k].cancelled
            && matcher.outcome(
            prefix,
            lowercase_prefix,
            replies[k].text,
        ) is Matched implies which.contains(k) by {
        let a = choose|a: int| 0 <= a < found.len() && (#[trigger] found[a]).candidate == k;
        assert(which[a] == k);
    }
    assert(all_came_of(
        matcher,
        prefix,
        lowercase_prefix,
        candidates,
        cancel_flag,
        build_match,
        replies,
        built,
        which,
    ));
}

/// What is answered of a text is what came of it: a score if and only if it matches, with the
/// positions of the match noted; nothing if and only if it does not, with the positions left as
/// they were; an error otherwise.
pub proof fn law_answers_report_the_outcome<Bag>(
    matcher: &Matcher<Bag>,
    before: &Matcher<Bag>,
    outcome: scoring::Outcome,
    answer: Result<Option<Binary64>, matcher::Overrun>,
)
    requires
        matcher.reports(before, outcome, answer),
    ensures
        outcome is Overrun <==> answer is Err,
        outcome is Unmatched <==> answer is Ok && answer->Ok_0 is None,
        outcome is Matched <==> answer is Ok && answer->Ok_0 is Some,
        outcome is Matched ==> answer->Ok_0->0@ == outcome->score && matcher.match_positions@
            == outcome->positions,
        outcome is Unmatched ==> matcher.match_positions@ == before.match_positions@,
{
}

/// The search is refused for its size only where one of its tables would take more bytes than an
/// allocation can have.
pub proof fn law_only_oversized_tables_are_refused(cells: nat)
    ensures
        matcher::oversized(cells) <==> cells * vstd::layout::size_of::<Option<Binary64>>()
            > isize::MAX || cells * vstd::layout::size_of::<usize>() > isize::MAX,
{
}

/// The lowercase form of a text is made of the lowercase mappings of its characters, one after
/// the other.
pub proof fn law_lowercase_is_by_character(text: Seq<char>, more: Seq<char>, c: char)
    ensures
        lowering::lowercase_text(Seq::empty()) == Seq::<char>::empty(),
        lowering::lowercase_text(seq![c]) == characters::lowercase_mapping(c),
        lowering::lowercase_text(text + more) == lowering::lowercase_text(text)
            + lowering::lowercase_text(more),
{
    lowering::lemma_lowercase_adds(text, more);
    let one = seq![c];
    assert(one.drop_last() =~= Seq::<char>::empty());
    reveal_with_fuel(lowering::lowercase_text, 2);
    assert(lowering::lowercase_text(one) =~= characters::lowercase_mapping(c));
}

/// A place of the lowercase text goes with the place of the text that lies before it by as many
/// characters as those at smaller numbers are longer: none before the first place, and each entry
/// of the table counts for every place after its number.
pub proof fn law_places_move_by_what_is_longer(s: Scoring, j: nat)
    requires
        j < usize::MAX,
    ensures
        s.extra_before(0) == 0,
        !s.extra.contains_key(j as usize) ==> s.extra_before(j + 1) == s.extra_before(j),
        s.extra.contains_key(j as usize) ==> s.extra_before(j + 1) == s.extra_before(j)
            + s.extra[j as usize],
        s.extra_before(j) <= j ==> s.regular(j) + s.extra_before(j) == j,
{
}

/// A word is found in a text where its characters stand there in the same order, and found latest
/// where no way to find it puts any of them later.
pub proof fn law_words_are_found_in_order(text: Seq<char>, word: Seq<char>, positions: Seq<usize>)
    ensures
        embedding::embeds(text, word, positions) <==> {
            &&& positions.len() == word.len()
            &&& forall|i: int, j: int| 0 <= i < j < word.len() ==> positions[i] < positions[j]
            &&& forall|i: int|
                0 <= i < word.len() ==> (#[trigger] positions[i]) < text.len()
                    && text[positions[i] as int] == word[i]
        },
        embedding::is_subsequence(text, word) <==> exists|found: Seq<usize>| #[trigger]
            embedding::embeds(text, word, found),
        embedding::latest_embedding(text, word, positions) ==> embedding::embeds(
            text,
            word,
            positions,
        ),
        embedding::latest_embedding(text, word, positions) ==> forall|found: Seq<usize>, i: int|
            #[trigger] embedding::embeds(text, word, found) && 0 <= i < word.len()
                ==> #[trigger] found[i] <= positions[i],
{
}

/// Numbers are rounded to the nearest: no other number lies nearer to the exact quotient than the
/// one it is rounded to, as long as that is finite.
pub proof fn law_rounding_is_to_the_nearest(num: nat, den: nat, code: nat)
    requires
        den > 0,
        binary64::rounded(num, den) < binary64::INFINITY_CODE,
    ensures
        ({
            let nearest = binary64::units(binary64::rounded(num, den)) * den;
            let other = binary64::units(code) * den;
            (if nearest >= num {
                nearest - num
            } else {
                num - nearest
            }) <= (if other >= num {
                other - num
            } else {
                num - other
            })
        }),
{
    let r = binary64::rounded(num, den);
    binary64::lemma_rounded(num, den);
    let here = binary64::units(r);
    let there = binary64::units(code);
    if code > r {
        let next = binary64::units(r + 1);
        binary64::lemma_units_ordered(r + 1, code);
        assert((here + next) * den == here * den + next * den) by (nonlinear_arith);
        vstd::arithmetic::mul::lemma_mul_inequality(next as int, there as int, den as int);
        binary64::lemma_units_ordered(r, r + 1);
        vstd::arithmetic::mul::lemma_mul_inequality(here as int, next as int, den as int);
    } else if code < r {
        let previous = binary64::units((r - 1) as nat);
        binary64::lemma_units_ordered(code, (r - 1) as nat);
        assert((previous + here) * den == previous * den + here * den) by (nonlinear_arith);
        vstd::arithmetic::mul::lemma_mul_inequality(there as int, previous as int, den as int);
        binary64::lemma_units_ordered((r - 1) as nat, r);
        vstd::arithmetic::mul::lemma_mul_inequality(previous as int, here as int, den as int);
    }
}

/// What is done with one candidate: the search goes on after it, unless it was admitted and the
/// flag was read as set, or unless its text leads out of the tables; and a value is built if and
/// only if it was searched and matches.
pub proof fn law_candidates_are_dealt_with<C, Bag, R, F: Fn(&C, Binary64, &Vec<usize>) -> R>(
    matcher: &Matcher<Bag>,
    prefix: Seq<char>,
    lowercase_prefix: Seq<char>,
    candidate: C,
    build_match: F,
    reply: Reply,
    built: Seq<R>,
    result: Result<bool, matcher::Overrun>,
)
    requires
        matcher.answered(
            prefix,
            lowercase_prefix,
            candidate,
            build_match,
            reply,
            built,
            result,
        ),
    ensures
        ({
            let outcome = matcher.outcome(prefix, lowercase_prefix, reply.text);
            let searched = reply.admitted && !reply.cancelled;
            &&& result is Err <==> searched && outcome is Overrun
            &&& result is Ok ==> (result->Ok_0 <==> !(reply.admitted && reply.cancelled))
            &&& built.len() == if searched && outcome is Matched {
                1nat
            } else {
                0
            }
            &&& searched && outcome is Matched ==> exists|score: Binary64, positions: Vec<usize>|
                #[trigger] call_ensures(
                    build_match,
                    (&candidate, score, &positions),
                    built[0],
                ) && score@ == outcome->score && positions@ == outcome->positions
        }),
{
    if reply.admitted && !reply.cancelled && matcher.outcome(
        prefix,
        lowercase_prefix,
        reply.text,
    ) is Matched {
        let outcome = matcher.outcome(prefix, lowercase_prefix, reply.text);
        assert(matcher::built_from(
            candidate,
            build_match,
            Match { candidate: 0, score: outcome->score, positions: outcome->positions },
            built[0],
        ));
    }
}

/// Arithmetic on finite numbers is that of their values, rounded once. A value is a whole number
/// of units, and one has 2^1074 of them.
pub proof fn law_arithmetic_is_rounded_once(a: nat, b: nat, num: nat, den: nat)
    requires
        a < binary64::INFINITY_CODE,
        b < binary64::INFINITY_CODE,
    ensures
        ({
            let one = vstd::arithmetic::power2::pow2(1074);
            let x = binary64::units(a);
            let y = binary64::units(b);
            &&& binary64::product(a, b) == binary64::rounded(x * y, one)
            &&& binary64::quotient(a, b) == binary64::rounded(x * one, y)
            &&& binary64::sum(a, b) == binary64::rounded(x + y, 1)
            &&& y <= x ==> binary64::difference(a, b) == binary64::rounded((x - y) as nat, 1)
            &&& binary64::fraction(num, den) == binary64::rounded(num * one, den)
        }),
{
}

/// Two matchers made with the same arguments, for platforms that write paths in the same way, find
/// the same in every text; and they have the settings that they were made with.
pub proof fn law_matchers_have_their_settings<'a, Bag>(
    query: &'a [char],
    lowercase_query: &'a [char],
    bag: Bag,
    smart_case: bool,
    penalize_length: bool,
    word_boundary_boost: bool,
    separator: char,
    windows: bool,
    here: Matcher<'a, Bag>,
    anywhere: Matcher<'a, Bag>,
)
    requires
        call_ensures(
            Matcher::<'a, Bag>::new,
            (
                query,
                lowercase_query,
                bag,
                smart_case,
                penalize_length,
                word_boundary_boost,
            ),
            here,
        ),
        call_ensures(
            Matcher::<'a, Bag>::with_platform,
            (
                query,
                lowercase_query,
                bag,
                smart_case,
                penalize_length,
                word_boundary_boost,
                separator,
                windows,
            ),
            anywhere,
        ),
    ensures
        anywhere.query@ == query@ && here.query@ == query@,
        anywhere.lowercase_query@ == lowercase_query@ && here.lowercase_query@ == lowercase_query@,
        anywhere.query_char_bag == bag && here.query_char_bag == bag,
        anywhere.smart_case == smart_case && here.smart_case == smart_case,
        anywhere.penalize_length == penalize_length && here.penalize_length == penalize_length,
        anywhere.word_boundary_boost == word_boundary_boost && here.word_boundary_boost
            == word_boundary_boost,
        anywhere.min_score@ == 0 && here.min_score@ == 0,
        anywhere.separator == separator && anywhere.windows == windows,
        characters::platform(here.separator, here.windows),
        here.separator == separator && here.windows == windows ==> here.same_settings(&anywhere),
        here.wf() && anywhere.wf(),
{
}

/// What is answered of a text is what comes of it, and the positions are those of the match.
pub proof fn law_texts_are_answered<'a, Bag>(
    matcher: &mut Matcher<'a, Bag>,
    prefix: &[char],
    lowercase_prefix: &[char],
    text: &str,
    answer: Result<Option<Binary64>, matcher::Overrun>,
)
    requires
        call_ensures(
            Matcher::<'a, Bag>::match_text,
            (old(matcher), prefix, lowercase_prefix, text),
            answer,
        ),
    ensures
        ({
            let outcome = old(matcher).outcome(prefix@, lowercase_prefix@, text@);
            &&& answer is Err <==> outcome is Overrun
            &&& answer is Ok && answer->Ok_0 is None <==> outcome is Unmatched
            &&& answer is Ok && answer->Ok_0 is Some ==> outcome == (scoring::Outcome::Matched {
                score: answer->Ok_0->0@,
                positions: final(matcher).match_positions@,
            })
        }),
{
    law_answers_report_the_outcome(
        final(matcher),
        old(matcher),
        old(matcher).outcome(prefix@, lowercase_prefix@, text@),
        answer,
    );
}

/// The query is found if and only if its lowercase characters stand in the two texts, one after the
/// other, in their order; and then each is noted at a place where it stands, and none of the ways
/// to find them has any of them later.
pub proof fn law_last_positions_are_the_latest<'a, Bag>(
    matcher: &mut Matcher<'a, Bag>,
    lowercase_prefix: &[char],
    lowercase_candidate: &[char],
    found: bool,
)
    requires
        call_ensures(
            Matcher::<'a, Bag>::find_last_positions,
            (old(matcher), lowercase_prefix, lowercase_candidate),
            found,
        ),
    ensures
        ({
            let text = lowercase_prefix@ + lowercase_candidate@;
            let word = old(matcher).lowercase_query@;
            let noted = final(matcher).last_positions@;
            &&& found <==> exists|places: Seq<usize>| #[trigger]
                embedding::embeds(text, word, places)
            &&& found ==> noted.len() == word.len()
            &&& found ==> forall|i: int, j: int| 0 <= i < j < word.len() ==> noted[i] < noted[j]
            &&& found ==> forall|i: int|
                0 <= i < word.len() ==> (#[trigger] noted[i]) < text.len() && text[noted[i] as int]
                    == word[i]
            &&& forall|places: Seq<usize>, i: int|
                found && #[trigger] embedding::embeds(text, word, places) && 0 <= i < word.len()
                    ==> #[trigger] places[i] <= noted[i]
        }),
{
    law_words_are_found_in_order(
        lowercase_prefix@ + lowercase_candidate@,
        old(matcher).lowercase_query@,
        final(matcher).last_positions@,
    );
}

/// What a call on candidates adds to the results: one value for each candidate that was admitted,
/// was taken up after the flag was read as not set, and matches; in the order of the candidates.
/// All candidates have had their turn, unless the flag was read as set for one that was admitted,
/// or unless the text of one leads out of the tables, which alone gives an error.
pub proof fn law_calls_give_the_matches_in_order<
    'a,
    Bag: Copy,
    C: MatchCandidate<Bag>,
    R,
    F: Fn(&C, Binary64, &Vec<usize>) -> R,
>(
    matcher: &mut Matcher<'a, Bag>,
    prefix: &[char],
    lowercase_prefix: &[char],
    candidates: &[C],
    results: &mut Vec<R>,
    cancel_flag: &AtomicBool,
    build_match: F,
    answer: Result<(), matcher::Overrun>,
)
    requires
        call_ensures(
            Matcher::<'a, Bag>::match_candidates::<C, R, F>,
            (
                old(matcher),
                prefix,
                lowercase_prefix,
                candidates,
                old(results),
                cancel_flag,
                build_match,
            ),
            answer,
        ),
    ensures
        exists|replies: Seq<Reply>, built: Seq<R>, which: Seq<int>|
            {
                &&& #[trigger] all_came_of(
                    old(matcher),
                    prefix@,
                    lowercase_prefix@,
                    candidates@,
                    cancel_flag,
                    build_match,
                    replies,
                    built,
                    which,
                )
                &&& final(results)@ == old(results)@ + built
                &&& replies.len() <= candidates@.len()
                &&& forall|k: int|
                    0 <= k < replies.len() ==> call_ensures(
                        C::has_chars,
                        (&candidates@[k], old(matcher).query_char_bag),
                        (#[trigger] replies[k]).admitted,
                    )
                &&& forall|k: int|
                    0 <= k < replies.len() && (#[trigger] replies[k]).admitted
                        && !replies[k].cancelled && old(matcher).outcome(
                        prefix@,
                        lowercase_prefix@,
                        replies[k].text,
                    ) is Matched ==> which.contains(k)
                &&& answer is Ok && replies.len() < candidates@.len() ==> replies.len() > 0
                    && replies.last().admitted && replies.last().cancelled && matcher::read_from(
                    cancel_flag,
                    true,
                )
                &&& answer is Err ==> replies.len() > 0 && replies.last().admitted
                    && !replies.last().cancelled && old(matcher).outcome(
                    prefix@,
                    lowercase_prefix@,
                    replies.last().text,
                ) is Overrun
            },
{
    let before = *old(matcher);
    if answer is Ok {
        let (replies, built) = choose|replies: Seq<Reply>, built: Seq<R>|
            {
                &&& #[trigger] before.handled(
                    prefix@,
                    lowercase_prefix@,
                    candidates@,
                    cancel_flag,
                    build_match,
                    replies,
                    built,
                    false,
                )
                &&& final(results)@ == old(results)@ + built
                &&& replies.len() < candidates@.len() ==> replies.len() > 0
                    && replies.last().stops()
            };
        law_calls_build_what_matches(
            &before,
            prefix@,
            lowercase_prefix@,
            candidates@,
            cancel_flag,
            build_match,
            replies,
            built,
            false,
        );
        if replies.len() > 0 {
            assert(replies.last() == replies[replies.len() - 1]);
        }
    } else {
        let (replies, built) = choose|replies: Seq<Reply>, built: Seq<R>|
            {
                &&& #[trigger] before.handled(
                    prefix@,
                    lowercase_prefix@,
                    candidates@,
                    cancel_flag,
                    build_match,
                    replies,
                    built,
                    true,
                )
                &&& final(results)@ == old(results)@ + built
            };
        law_calls_build_what_matches(
            &before,
            prefix@,
            lowercase_prefix@,
            candidates@,
            cancel_flag,
            build_match,
            replies,
            built,
            true,
        );
    }
}

} // verus!
