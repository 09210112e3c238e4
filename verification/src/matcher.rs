//! The matcher.
use vstd::prelude::*;
use std::borrow::Cow;
use std::collections::BTreeMap;
use std::sync::atomic::AtomicBool;
use crate::binary64;
use crate::binary64::Binary64;
use crate::characters;
use crate::embedding;
use crate::lowering;
use crate::scoring;
use crate::scoring::Scoring;
use crate::weights;

verus! {

/// Matches one query against candidates, and keeps the memory that this takes.
pub struct Matcher<'a, Bag> {
    /// The characters of the query.
    pub query: &'a [char],
    /// The characters of the query in lowercase.
    pub lowercase_query: &'a [char],
    /// What candidates are asked about the characters of the query.
    pub query_char_bag: Bag,
    /// A difference in case counts against a match.
    pub smart_case: bool,
    /// Long texts count against a match.
    pub penalize_length: bool,
    /// The beginnings of words count for a match.
    pub word_boundary_boost: bool,
    /// Placements whose factors fall below this are cut off, unless it is zero.
    pub min_score: Binary64,
    /// The separator of path components.
    pub separator: char,
    /// Paths are written as on Windows: a backslash in the query is no more than a backslash.
    pub windows: bool,
    /// The byte positions of the last match.
    pub match_positions: Vec<usize>,
    /// The last places at which the characters of the lowercase query may be found.
    pub last_positions: Vec<usize>,
    /// For each query character and each place that it was searched for from: the best score.
    pub score_matrix: Vec<Option<Binary64>>,
    /// For each query character and each place that it was searched for from: where it is best
    /// placed.
    pub best_position_matrix: Vec<usize>,
}

/// The search for a match left the text or its tables.
#[derive(Clone, Copy, Debug, PartialEq, Eq, Structural)]
pub struct Overrun;

/// A string that can be matched. `Bag` summarises which characters are asked for, so that a
/// candidate can turn a query down without being searched.
pub trait MatchCandidate<Bag> {
    /// Whether the candidate may hold the characters of the bag.
    fn has_chars(&self, bag: Bag) -> bool;

    /// The candidate as a string.
    fn to_string(&self) -> Cow<'_, str>;
}

/// What became known of a candidate.
pub struct Reply {
    /// The candidate may hold the characters of the query.
    pub admitted: bool,
    /// If so, what was then read from the flag.
    pub cancelled: bool,
    /// If it was not set, the text of the candidate.
    pub text: Seq<char>,
}

impl Reply {
    /// The candidate is not searched, nor is any after it.
    pub open spec fn stops(self) -> bool {
        self.admitted && self.cancelled
    }
}

/// A match that has been found.
pub struct Match {
    /// The number of the candidate.
    pub candidate: int,
    pub score: nat,
    pub positions: Seq<usize>,
}

/// The candidate may give its text in this way.
pub open spec fn gives_text<Bag, C: MatchCandidate<Bag>>(candidate: C, text: Seq<char>) -> bool {
    exists|string: Cow<'_, str>|
        #[trigger] call_ensures(C::to_string, (&candidate,), string) && string@ == text
}

/// This may become known of the candidate: it is asked about the bag; where it is admitted the
/// flag is read; and where that is not set it is asked for its text.
pub open spec fn replied<Bag, C: MatchCandidate<Bag>>(
    candidate: C,
    bag: Bag,
    cancel_flag: &AtomicBool,
    reply: Reply,
) -> bool {
    &&& call_ensures(C::has_chars, (&candidate, bag), reply.admitted)
    &&& reply.admitted ==> read_from(cancel_flag, reply.cancelled)
    &&& reply.admitted && !reply.cancelled ==> gives_text::<Bag, C>(candidate, reply.text)
}

/// The value may have been built from the match.
pub open spec fn built_from<C, R, F: Fn(&C, Binary64, &Vec<usize>) -> R>(
    candidate: C,
    build_match: F,
    found: Match,
    value: R,
) -> bool {
    exists|score: Binary64, positions: Vec<usize>|
        #[trigger] call_ensures(build_match, (&candidate, score, &positions), value) && score@
            == found.score && positions@ == found.positions
}

/// This may be read from the flag.
pub open spec fn read_from(flag: &AtomicBool, set: bool) -> bool {
    call_ensures(AtomicBool::load, (flag, std::sync::atomic::Ordering::Relaxed), set)
}

/// Reads a flag that another thread may set at any time.
fn is_set(flag: &AtomicBool) -> (set: bool)
    ensures
        read_from(flag, set),
{
    flag.load(std::sync::atomic::Ordering::Relaxed)
}

/// Tables of this many cells would take more bytes than an allocation can have.
pub open spec fn oversized(cells: nat) -> bool {
    ||| cells * vstd::layout::size_of::<Option<Binary64>>() > isize::MAX
    ||| cells * vstd::layout::size_of::<usize>() > isize::MAX
}

/// Tables that are not too large leave four bytes or more for each cell.
pub proof fn lemma_not_oversized(cells: nat)
    requires
        !oversized(cells),
    ensures
        4 * cells <= isize::MAX,
{
    broadcast use vstd::layout::layout_of_primitives;

    let width = vstd::layout::size_of::<usize>();
    assert(width >= 4);
    assert(4 * cells <= cells * width) by (nonlinear_arith)
        requires
            4 <= width,
    ;
}

/// Whether cells of this width would take more bytes than an allocation can have.
fn exceeds_memory(cells: usize, width: usize) -> (answer: bool)
    ensures
        answer == (cells * width > isize::MAX),
{
    match cells.checked_mul(width) {
        Some(bytes) => bytes > isize::MAX as usize,
        None => true,
    }
}

/// Whether tables of this many cells would take more bytes than an allocation can have.
fn is_oversized(cells: usize) -> (answer: bool)
    ensures
        answer == oversized(cells as nat),
{
    exceeds_memory(cells, std::mem::size_of::<Option<Binary64>>()) || exceeds_memory(
        cells,
        std::mem::size_of::<usize>(),
    )
}

/// The character at a place of the text made of two parts.
fn char_at(prefix: &[char], path: &[char], at: usize) -> (c: char)
    requires
        at < prefix@.len() + path@.len(),
    ensures
        c == (prefix@ + path@)[at as int],
{
    if at < prefix.len() {
        prefix[at]
    } else {
        path[at - prefix.len()]
    }
}

/// The place at which the last path component begins.
fn filename_start(path: &[char], prefix_len: usize, separator: char) -> (start: usize)
    requires
        prefix_len + path@.len() <= usize::MAX,
    ensures
        start == prefix_len + scoring::after_last(path@, separator),
{
    let mut i: usize = path.len();
    assert(path@.take(i as int) =~= path@);
    while i > 0 && path[i - 1] != separator
        invariant
            i <= path@.len(),
            prefix_len + path@.len() <= usize::MAX,
            scoring::after_last(path@, separator) == scoring::after_last(
                path@.take(i as int),
                separator,
            ),
        decreases i,
    {
        assert(path@.take(i as int).drop_last() =~= path@.take(i - 1));
        i = i - 1;
    }
    prefix_len + i
}

/// The beginnings of words in the last path component.
fn word_starts(path: &[char], prefix: &[char], start: usize, Ghost(s): Ghost<Scoring>) -> (starts:
    Vec<usize>)
    requires
        s.prefix == prefix@,
        s.path == path@,
        start == s.filename_start(),
        prefix@.len() + path@.len() <= usize::MAX,
    ensures
        starts@ == s.word_starts(s.text().len()),
{
    let path_len: usize = prefix.len() + path.len();
    let mut starts: Vec<usize> = Vec::new();
    starts.push(start);
    assert(starts@ =~= seq![start]);
    if start >= path_len {
        return starts;
    }
    let mut pos: usize = start + 1;
    while pos < path_len
        invariant
            s.prefix == prefix@,
            s.path == path@,
            start == s.filename_start(),
            path_len == s.text().len(),
            start + 1 <= pos <= path_len,
            starts@ == s.word_starts(pos as nat),
        decreases path_len - pos,
    {
        if characters::is_word_boundary(char_at(prefix, path, pos - 1), char_at(prefix, path, pos)) {
            starts.push(pos);
        }
        pos = pos + 1;
    }
    starts
}

/// The number of places that lie in the last path component.
fn count_from(places: &Vec<usize>, start: usize, Ghost(s): Ghost<Scoring>) -> (count: usize)
    requires
        start == s.filename_start(),
    ensures
        count == s.filename_matches(places@),
        count <= places@.len(),
{
    let mut count: usize = 0;
    let mut i: usize = 0;
    while i < places.len()
        invariant
            start == s.filename_start(),
            i <= places@.len(),
            count <= i,
            count == s.filename_matches(places@.take(i as int)),
        decreases places@.len() - i,
    {
        assert(places@.take(i + 1).drop_last() =~= places@.take(i as int));
        if places[i] >= start {
            count = count + 1;
        }
        i = i + 1;
    }
    assert(places@.take(i as int) =~= places@);
    count
}

/// How many places, from the first one on, are the beginning of the word of the same number.
fn count_hits(places: &Vec<usize>, starts: &Vec<usize>) -> (count: usize)
    ensures
        count == scoring::leading_hits(places@, starts@, 0),
        count <= places@.len(),
{
    let mut i: usize = 0;
    while i < places.len() && i < starts.len() && places[i] == starts[i]
        invariant
            i <= places@.len(),
            scoring::leading_hits(places@, starts@, 0) == i + scoring::leading_hits(
                places@,
                starts@,
                i as int,
            ),
        decreases places@.len() - i,
    {
        i = i + 1;
    }
    i
}

/// The bytes that the characters between two places take.
spec fn byte_length_between(text: Seq<char>, from: int, to: int) -> nat {
    if from < to {
        scoring::byte_length(text.subrange(from, to))
    } else {
        0
    }
}

/// One character further.
proof fn lemma_byte_length_between_step(text: Seq<char>, from: int, to: int)
    requires
        0 <= from <= to < text.len(),
    ensures
        byte_length_between(text, from, to + 1) == byte_length_between(text, from, to)
            + characters::utf8_width(text[to]),
        byte_length_between(text, from, to + 1) <= 4 * (to + 1 - from),
{
    let longer = text.subrange(from, to + 1);
    assert(longer =~= text.subrange(from, to).push(text[to]));
    scoring::lemma_byte_length_push(text.subrange(from, to), text[to]);
    if from == to {
        assert(scoring::byte_length(text.subrange(from, to)) == 0);
    }
    scoring::lemma_byte_length_bound(longer);
}

impl<'a, Bag> Matcher<'a, Bag> {
    /// There is a position for each character.
    pub open spec fn wf(&self) -> bool {
        &&& self.match_positions@.len() == self.query@.len()
        &&& self.last_positions@.len() == self.lowercase_query@.len()
    }

    /// The two matchers have the same query and the same settings.
    pub open spec fn same_settings(&self, other: &Self) -> bool {
        &&& self.query == other.query
        &&& self.lowercase_query == other.lowercase_query
        &&& self.query_char_bag == other.query_char_bag
        &&& self.smart_case == other.smart_case
        &&& self.penalize_length == other.penalize_length
        &&& self.word_boundary_boost == other.word_boundary_boost
        &&& self.min_score@ == other.min_score@
        &&& self.separator == other.separator
        &&& self.windows == other.windows
    }

    /// What the score of a candidate depends on.
    pub open spec fn scoring(
        &self,
        prefix: Seq<char>,
        lowercase_prefix: Seq<char>,
        path: Seq<char>,
        lowercase_path: Seq<char>,
        extra: Map<usize, usize>,
    ) -> Scoring {
        Scoring {
            query: self.query@,
            lowercase_query: self.lowercase_query@,
            last_positions: self.last_positions@,
            prefix,
            lowercase_prefix,
            path,
            lowercase_path,
            extra,
            smart_case: self.smart_case,
            penalize_length: self.penalize_length,
            word_boundary_boost: self.word_boundary_boost,
            min_score: self.min_score@,
            separator: self.separator,
            windows: self.windows,
        }
    }

    /// The memory of the search.
    pub open spec fn table(&self) -> scoring::Table {
        scoring::table_of(self.score_matrix@, self.best_position_matrix@)
    }

    /// The factor that a placement contributes to a score.
    fn factor(
        &self,
        path: &[char],
        prefix: &[char],
        query_idx: usize,
        path_idx: usize,
        j: usize,
        j_regular: usize,
        last_slash: usize,
        Ghost(s): Ghost<Scoring>,
    ) -> (factor: Binary64)
        requires
            s.prefix == prefix@,
            s.path == path@,
            s.query == self.query@,
            s.smart_case == self.smart_case,
            s.penalize_length == self.penalize_length,
            s.word_boundary_boost == self.word_boundary_boost,
            s.separator == self.separator,
            query_idx < self.query@.len(),
            path_idx <= j,
            j_regular == s.regular(j as nat),
            j_regular < s.text().len() <= usize::MAX,
            path_idx < j ==> 0 < j_regular,
            query_idx == 0 ==> last_slash == s.last_slash(path_idx as nat, j as nat),
            query_idx == 0 ==> last_slash < s.text().len(),
        ensures
            factor@ == s.factor(query_idx as nat, path_idx as nat, j as nat),
    {
        let ghost q = query_idx as nat;
        let ghost p = path_idx as nat;
        proof {
            weights::lemma_weight_codes();
            s.lemma_placement_weight_range(q, p, j as nat);
            s.lemma_character_weight_range(q, p, j as nat);
        }
        let curr: char = char_at(prefix, path, j_regular);
        let mut char_score: Binary64 = Binary64::from_code(weights::ONE);
        if j > path_idx {
            let last: char = char_at(prefix, path, j_regular - 1);
            char_score = weights::weigh_apart(
                last,
                self.separator,
                characters::is_word_boundary(last, curr),
                self.word_boundary_boost,
                query_idx == 0,
                j - path_idx - 1,
            );
        }
        assert(char_score@ == s.placement_weight(q, p, j as nat));
        // A severe penalty where the characters differ.
        if (self.smart_case || curr == self.separator) && self.query[query_idx] != curr {
            char_score = char_score.times(&Binary64::from_code(weights::ONE_THOUSANDTH));
        }
        assert(char_score@ == s.character_weight(q, p, j as nat));
        if self.penalize_length && query_idx == 0 {
            let rest: usize = prefix.len() + path.len() - last_slash;
            proof {
                weights::lemma_integer_code(rest as nat);
            }
            char_score.over(&Binary64::of_integer(rest as u64))
        } else {
            char_score
        }
    }

    /// The best score of the query from character `query_idx` on, found in the text from place
    /// `path_idx` on, where the characters before have come to `cur_score`. Nothing where the
    /// search leaves the text or the tables.
    #[verifier::spinoff_prover]
    #[verifier::rlimit(60)]
    pub fn recursive_score_match(
        &mut self,
        path: &[char],
        path_lowercased: &[char],
        prefix: &[char],
        lowercase_prefix: &[char],
        query_idx: usize,
        path_idx: usize,
        cur_score: Binary64,
        extra_lowercase_chars: &BTreeMap<usize, usize>,
    ) -> (result: Option<Binary64>)
        requires
            old(self).scoring(
                prefix@,
                lowercase_prefix@,
                path@,
                path_lowercased@,
                extra_lowercase_chars@,
            ).consistent(),
            old(self).query@.len() * (prefix@.len() + path@.len()) <= usize::MAX,
            old(self).score_matrix@.len() == old(self).best_position_matrix@.len(),
            query_idx <= old(self).query@.len(),
        ensures
            final(self).same_settings(old(self)),
            final(self).match_positions == old(self).match_positions,
            final(self).last_positions == old(self).last_positions,
            final(self).score_matrix@.len() == old(self).score_matrix@.len(),
            final(self).best_position_matrix@.len() == old(self).best_position_matrix@.len(),
            match old(self).scoring(
                prefix@,
                lowercase_prefix@,
                path@,
                path_lowercased@,
                extra_lowercase_chars@,
            ).visit(query_idx as nat, path_idx as nat, cur_score@, old(self).table()) {
                None => result is None,
                Some((score, table)) => result is Some && result->0@ == score
                    && final(self).table() == table,
            },
            result is Some && query_idx < old(self).query@.len() ==> final(self).table().scores[(
            query_idx * (prefix@.len() + path@.len()) + path_idx) as int] == Some(result->0@),
        decreases old(self).query@.len() - query_idx,
    {
        let ghost s = self.scoring(
            prefix@,
            lowercase_prefix@,
            path@,
            path_lowercased@,
            extra_lowercase_chars@,
        );
        let ghost q = query_idx as nat;
        let ghost p = path_idx as nat;
        proof {
            weights::lemma_weight_codes();
        }
        let query_len: usize = self.query.len();
        if query_idx == query_len {
            return Some(Binary64::from_code(weights::ONE));
        }
        let path_len: usize = prefix.len() + path.len();
        assert(query_idx * path_len <= self.query@.len() * path_len) by (nonlinear_arith)
            requires
                query_idx <= self.query@.len(),
        ;
        let row: usize = query_idx * path_len;
        if row >= self.score_matrix.len() || path_idx >= self.score_matrix.len() - row {
            return None;
        }
        let cell: usize = row + path_idx;
        if let Some(memoized) = self.score_matrix[cell] {
            return Some(memoized);
        }
        if query_idx >= self.lowercase_query.len() {
            return None;
        }
        let lowercase_len: usize = prefix.len() + path_lowercased.len();
        let limit: usize = self.last_positions[query_idx];
        let max_valid_index: usize = if lowercase_len == 0 { 0 } else { lowercase_len - 1 };
        let safe_limit: usize = if limit < max_valid_index { limit } else { max_valid_index };
        let query_char: char = self.lowercase_query[query_idx];
        let ghost goal = s.scan(q, p, p, cur_score@, 0, 0, old(self).table());
        let mut score: Binary64 = Binary64::from_code(0);
        let mut best_position: usize = 0;
        let mut last_slash: usize = 0;
        let mut j: usize = path_idx;
        let mut perfect: bool = false;
        while !perfect && j <= safe_limit && j < lowercase_len
            invariant
                s == old(self).scoring(
                    prefix@,
                    lowercase_prefix@,
                    path@,
                    path_lowercased@,
                    extra_lowercase_chars@,
                ),
                s.consistent(),
                q == query_idx,
                p == path_idx,
                query_idx < self.query@.len(),
                self.query@.len() == query_len,
                query_idx < self.lowercase_query@.len(),
                query_char == self.lowercase_query@[query_idx as int],
                self.same_settings(old(self)),
                self.match_positions == old(self).match_positions,
                self.last_positions == old(self).last_positions,
                self.score_matrix@.len() == old(self).score_matrix@.len(),
                self.best_position_matrix@.len() == old(self).best_position_matrix@.len(),
                self.score_matrix@.len() == self.best_position_matrix@.len(),
                old(self).query@.len() * (prefix@.len() + path@.len()) <= usize::MAX,
                lowercase_len == s.lowercase_len(),
                safe_limit == s.limit(q),
                path_idx <= j,
                forall|k: nat| p <= k < j ==> #[trigger] s.extra_before(k) <= k,
                query_idx == 0 && j > path_idx ==> last_slash == s.last_slash(p, (j - 1) as nat),
                query_idx == 0 && j == path_idx ==> last_slash == 0,
                goal is None ==> s.visit(q, p, cur_score@, old(self).table()) is None,
                perfect ==> goal == Some((score@, best_position, self.table())),
                !perfect ==> goal == s.scan(
                    q,
                    p,
                    j as nat,
                    cur_score@,
                    score@,
                    best_position,
                    self.table(),
                ),
            decreases lowercase_len - j,
        {
            proof {
                weights::lemma_weight_codes();
                if j == path_idx && j > 0 {
                    assert(s.last_slash(p, (j - 1) as nat) == 0);
                }
                if j > s.path.len() {
                    lowering::lemma_extra_gap(s.extra, s.path.len(), j as nat);
                } else {
                    lowering::lemma_extra_grows(s.extra, j as nat, s.path.len());
                }
            }
            let extra: usize = lowering::sum_before(extra_lowercase_chars, j);
            if extra > j {
                return None;
            }
            let j_regular: usize = j - extra;
            let path_char: char = if j < prefix.len() {
                if j >= lowercase_prefix.len() {
                    return None;
                }
                lowercase_prefix[j]
            } else {
                path_lowercased[j - prefix.len()]
            };
            assert(path_char == s.lowercase_char(j as nat));
            let is_path_sep: bool = path_char == self.separator;
            if query_idx == 0 && is_path_sep {
                last_slash = j_regular;
            }
            let need_to_score: bool = query_char == path_char || (is_path_sep && query_char == '_')
                || (!self.windows && query_char == '\\');
            if need_to_score {
                if j > path_idx && j_regular == 0 {
                    return None;
                }
                proof {
                    s.lemma_regular_in_text(j as nat);
                    s.lemma_last_slash_in_text(p, j as nat);
                    s.lemma_factor_range(q, p, j as nat);
                }
                let multiplier: Binary64 = self.factor(
                    path,
                    prefix,
                    query_idx,
                    path_idx,
                    j,
                    j_regular,
                    last_slash,
                    Ghost(s),
                );
                let mut next_score: Binary64 = Binary64::from_code(weights::ONE);
                let mut cut_off: bool = false;
                if self.min_score.code() > 0 {
                    next_score = cur_score.times(&multiplier);
                    cut_off = self.min_score.exceeds(&next_score);
                }
                if cut_off {
                    // A score that is not zero, so that it shows in the table.
                    if score.code() == 0 {
                        score = Binary64::from_code(weights::NEXT_TO_NOTHING);
                    }
                } else {
                    let rest: Binary64 = match self.recursive_score_match(
                        path,
                        path_lowercased,
                        prefix,
                        lowercase_prefix,
                        query_idx + 1,
                        j + 1,
                        next_score,
                        extra_lowercase_chars,
                    ) {
                        Some(rest) => rest,
                        None => {
                            return None;
                        },
                    };
                    let new_score: Binary64 = rest.times(&multiplier);
                    if new_score.exceeds(&score) {
                        score = new_score;
                        best_position = j_regular;
                        // Nothing better is looked for.
                        if new_score.code() == weights::ONE {
                            perfect = true;
                        }
                    }
                }
            }
            j = j + 1;
        }
        let ghost before = self.table();
        if best_position != 0 {
            self.best_position_matrix.set(cell, best_position);
        }
        self.score_matrix.set(cell, Some(score));
        proof {
            let expected = before.record(cell as int, score@, best_position);
            assert(self.table().scores =~= expected.scores);
            assert(self.table().positions =~= expected.positions);
        }
        Some(score)
    }

    /// The places at which the query characters are matched, read off the tables, and with them
    /// the byte positions. Nothing where this leaves the text or the tables.
    fn trace_positions(&mut self, path: &[char], prefix: &[char], Ghost(s): Ghost<Scoring>) -> (
    result: Option<Vec<usize>>)
        requires
            s.prefix == prefix@,
            s.path == path@,
            s.query == old(self).query@,
            old(self).match_positions@.len() == old(self).query@.len(),
            prefix@.len() + path@.len() <= usize::MAX,
            4 * (old(self).query@.len() * s.text().len()) <= usize::MAX,
        ensures
            final(self).same_settings(old(self)),
            final(self).last_positions == old(self).last_positions,
            final(self).score_matrix == old(self).score_matrix,
            final(self).best_position_matrix == old(self).best_position_matrix,
            final(self).match_positions@.len() == old(self).match_positions@.len(),
            match s.matched_places(old(self).best_position_matrix@, s.query.len()) {
                None => result is None,
                Some(places) => result is Some && result->0@ == places && places.len()
                    == s.query.len() && final(self).match_positions@ == s.byte_positions(places),
            },
    {
        let path_len: usize = prefix.len() + path.len();
        let query_len: usize = self.query.len();
        let ghost text = s.text();
        let ghost table = self.best_position_matrix@;
        let mut places: Vec<usize> = Vec::new();
        let mut cur_start: usize = 0;
        let mut byte_ix: usize = 0;
        let mut char_ix: usize = 0;
        let mut i: usize = 0;
        while i < query_len
            invariant
                s.prefix == prefix@,
                s.path == path@,
                text == s.text(),
                text.len() == path_len,
                table == old(self).best_position_matrix@,
                query_len == s.query.len(),
                s.query == self.query@,
                self.same_settings(old(self)),
                self.last_positions == old(self).last_positions,
                self.score_matrix == old(self).score_matrix,
                self.best_position_matrix == old(self).best_position_matrix,
                self.match_positions@.len() == query_len,
                old(self).match_positions@.len() == query_len,
                4 * (query_len * path_len) <= usize::MAX,
                i <= query_len,
                places@.len() == i,
                s.matched_places(table, i as nat) == Some(places@),
                forall|k: int| 0 <= k < i ==> places@[k] < path_len,
                forall|k: int|
                    0 <= k < i ==> self.match_positions@[k] == s.byte_position(places@, k),
                char_ix == cur_start,
                i == 0 ==> char_ix == 0 && byte_ix == 0,
                i > 0 ==> char_ix == places@[i - 1] + 1,
                i > 0 ==> byte_ix == s.byte_position(places@, i - 1) + characters::utf8_width(
                    text[places@[i - 1] as int],
                ),
                byte_ix <= 4 * (i * path_len),
            decreases query_len - i,
        {
            assert(i * path_len + path_len <= query_len * path_len) by (nonlinear_arith)
                requires
                    i + 1 <= query_len,
            ;
            let row: usize = i * path_len;
            let ghost seen = places@;
            if row >= self.best_position_matrix.len() || cur_start
                >= self.best_position_matrix.len() - row {
                proof {
                    s.lemma_trace_stuck(table, (i + 1) as nat, query_len as nat);
                }
                return None;
            }
            let match_char_ix: usize = self.best_position_matrix[row + cur_start];
            if match_char_ix >= path_len {
                proof {
                    s.lemma_trace_stuck(table, (i + 1) as nat, query_len as nat);
                }
                return None;
            }
            let ghost from = char_ix as int;
            let ghost start = byte_ix as nat;
            while char_ix < match_char_ix
                invariant
                    s.prefix == prefix@,
                    s.path == path@,
                    text == s.text(),
                    text.len() == path_len,
                    match_char_ix < path_len,
                    0 <= from <= char_ix,
                    from < match_char_ix ==> char_ix <= match_char_ix,
                    from >= match_char_ix ==> char_ix == from,
                    byte_ix == start + byte_length_between(text, from, char_ix as int),
                    byte_length_between(text, from, char_ix as int) <= 4 * (char_ix - from),
                    start <= 4 * (i * path_len),
                    i * path_len + path_len <= query_len * path_len,
                    4 * (query_len * path_len) <= usize::MAX,
                decreases match_char_ix - char_ix,
            {
                let c: char = char_at(prefix, path, char_ix);
                proof {
                    lemma_byte_length_between_step(text, from, char_ix as int);
                }
                byte_ix = byte_ix + characters::len_utf8(c);
                char_ix = char_ix + 1;
            }
            let ghost settled = self.match_positions@;
            self.match_positions.set(i, byte_ix);
            places.push(match_char_ix);
            proof {
                assert((i + 1) * path_len == i * path_len + path_len) by (nonlinear_arith);
                assert(text.subrange(0, match_char_ix as int) =~= text.take(match_char_ix as int));
                if match_char_ix == 0 {
                    assert(scoring::byte_length(text.take(0)) == 0);
                }
                assert forall|k: int| 0 <= k < i + 1 implies self.match_positions@[k]
                    == s.byte_position(places@, k) by {
                    if k < i {
                        s.lemma_byte_position_kept(seen, match_char_ix, k);
                        assert(settled[k] == s.byte_position(seen, k));
                    } else if i > 0 {
                        s.lemma_byte_position_kept(seen, match_char_ix, i - 1);
                    }
                }
            }
            let matched: char = char_at(prefix, path, match_char_ix);
            byte_ix = byte_ix + characters::len_utf8(matched);
            cur_start = match_char_ix + 1;
            char_ix = match_char_ix + 1;
            i = i + 1;
        }
        proof {
            assert(self.match_positions@ =~= s.byte_positions(places@));
        }
        Some(places)
    }

    /// The factor that a share of the query's characters adds to a score: one, and up to `most`
    /// more.
    fn boost(count: usize, whole: usize, most: Binary64) -> (factor: Binary64)
        requires
            count <= whole,
            0 < whole,
            most@ <= weights::THREE_HALVES,
        ensures
            factor@ == binary64::sum(
                binary64::fraction(1, 1),
                binary64::product(
                    binary64::quotient(
                        binary64::fraction(count as nat, 1),
                        binary64::fraction(whole as nat, 1),
                    ),
                    most@,
                ),
            ),
            weights::ONE <= factor@ < binary64::INFINITY_CODE,
    {
        proof {
            weights::lemma_weight_codes();
            weights::lemma_integer_code(count as nat);
            weights::lemma_integer_code(whole as nat);
            weights::lemma_share_range(count as nat, whole as nat);
        }
        let share: Binary64 = Binary64::of_integer(count as u64).over(
            &Binary64::of_integer(whole as u64),
        );
        proof {
            weights::lemma_boost_range(share@, most@);
        }
        Binary64::from_code(weights::ONE).plus(&share.times(&most))
    }

    /// Scores a candidate and notes where the query is found in it. The score is zero where the
    /// candidate does not match, and missing where the search leaves the text or the tables.
    pub fn score_match(
        &mut self,
        path: &[char],
        path_lowercased: &[char],
        prefix: &[char],
        lowercase_prefix: &[char],
        extra_lowercase_chars: &BTreeMap<usize, usize>,
    ) -> (result: Option<Binary64>)
        requires
            old(self).match_positions@.len() == old(self).query@.len(),
            old(self).scoring(
                prefix@,
                lowercase_prefix@,
                path@,
                path_lowercased@,
                extra_lowercase_chars@,
            ).consistent(),
            4 * (old(self).query@.len() * (prefix@.len() + path@.len())) <= usize::MAX,
            old(self).score_matrix@.len() == old(self).best_position_matrix@.len(),
        ensures
            final(self).same_settings(old(self)),
            final(self).last_positions == old(self).last_positions,
            final(self).match_positions@.len() == old(self).match_positions@.len(),
            match old(self).scoring(
                prefix@,
                lowercase_prefix@,
                path@,
                path_lowercased@,
                extra_lowercase_chars@,
            ).outcome(old(self).table()) {
                scoring::Outcome::Overrun => result is None,
                scoring::Outcome::Unmatched => result is Some && result->0@ == 0
                    && final(self).match_positions == old(self).match_positions,
                scoring::Outcome::Matched { score, positions } => result is Some && result->0@
                    == score && score > 0 && final(self).match_positions@ == positions,
            },
            result is Some ==> final(self).table() == (old(self).scoring(
                prefix@,
                lowercase_prefix@,
                path@,
                path_lowercased@,
                extra_lowercase_chars@,
            ).visit(
                0,
                0,
                binary64::fraction(old(self).query@.len(), 1),
                old(self).table(),
            )->0).1,
    {
        let ghost s = self.scoring(
            prefix@,
            lowercase_prefix@,
            path@,
            path_lowercased@,
            extra_lowercase_chars@,
        );
        let query_len: usize = self.query.len();
        let best: Binary64 = match self.recursive_score_match(
            path,
            path_lowercased,
            prefix,
            lowercase_prefix,
            0,
            0,
            Binary64::of_integer(query_len as u64),
            extra_lowercase_chars,
        ) {
            Some(best) => best,
            None => {
                return None;
            },
        };
        proof {
            weights::lemma_weight_codes();
            weights::lemma_integer_code(query_len as nat);
        }
        let score: Binary64 = best.times(&Binary64::of_integer(query_len as u64));
        if score.code() == 0 {
            return Some(score);
        }
        let places: Vec<usize> = match self.trace_positions(path, prefix, Ghost(s)) {
            Some(places) => places,
            None => {
                return None;
            },
        };
        proof {
            s.lemma_total_grows(best@, places@);
        }
        if self.word_boundary_boost && query_len > 0 {
            let start: usize = filename_start(path, prefix.len(), self.separator);
            let boundaries: Vec<usize> = word_starts(path, prefix, start, Ghost(s));
            let in_filename: usize = count_from(&places, start, Ghost(s));
            let at_words: usize = count_hits(&places, &boundaries);
            let filename_boost: Binary64 = Self::boost(
                in_filename,
                query_len,
                Binary64::from_code(weights::ONE_HALF),
            );
            let word_boost: Binary64 = Self::boost(
                at_words,
                query_len,
                Binary64::from_code(weights::THREE_HALVES),
            );
            Some(score.times(&filename_boost).times(&word_boost))
        } else {
            Some(score)
        }
    }

    /// A matcher for a query on this platform.
    pub fn new(
        query: &'a [char],
        lowercase_query: &'a [char],
        query_char_bag: Bag,
        smart_case: bool,
        penalize_length: bool,
        word_boundary_boost: bool,
    ) -> (matcher: Self)
        ensures
            matcher.wf(),
            matcher.query == query,
            matcher.lowercase_query == lowercase_query,
            matcher.query_char_bag == query_char_bag,
            matcher.smart_case == smart_case,
            matcher.penalize_length == penalize_length,
            matcher.word_boundary_boost == word_boundary_boost,
            matcher.min_score@ == 0,
            characters::platform(matcher.separator, matcher.windows),
            matcher.match_positions@ == Seq::new(query@.len(), |i: int| 0usize),
            matcher.last_positions@ == Seq::new(lowercase_query@.len(), |i: int| 0usize),
            matcher.score_matrix@.len() == 0,
            matcher.best_position_matrix@.len() == 0,
    {
        let (separator, windows): (char, bool) = characters::this_platform();
        Self::with_platform(
            query,
            lowercase_query,
            query_char_bag,
            smart_case,
            penalize_length,
            word_boundary_boost,
            separator,
            windows,
        )
    }

    /// A matcher for a query on a platform whose path components are separated by the given
    /// character, in paths like those of Windows or not.
    pub fn with_platform(
        query: &'a [char],
        lowercase_query: &'a [char],
        query_char_bag: Bag,
        smart_case: bool,
        penalize_length: bool,
        word_boundary_boost: bool,
        separator: char,
        windows: bool,
    ) -> (matcher: Self)
        ensures
            matcher.wf(),
            matcher.query == query,
            matcher.lowercase_query == lowercase_query,
            matcher.query_char_bag == query_char_bag,
            matcher.smart_case == smart_case,
            matcher.penalize_length == penalize_length,
            matcher.word_boundary_boost == word_boundary_boost,
            matcher.min_score@ == 0,
            matcher.separator == separator,
            matcher.windows == windows,
            matcher.match_positions@ == Seq::new(query@.len(), |i: int| 0usize),
            matcher.last_positions@ == Seq::new(lowercase_query@.len(), |i: int| 0usize),
            matcher.score_matrix@.len() == 0,
            matcher.best_position_matrix@.len() == 0,
    {
        let match_positions: Vec<usize> = vec![0; query.len()];
        let last_positions: Vec<usize> = vec![0; lowercase_query.len()];
        assert(match_positions@ =~= Seq::new(query@.len(), |i: int| 0usize));
        assert(last_positions@ =~= Seq::new(lowercase_query@.len(), |i: int| 0usize));
        Matcher {
            query,
            lowercase_query,
            query_char_bag,
            smart_case,
            penalize_length,
            word_boundary_boost,
            min_score: Binary64::from_code(0),
            separator,
            windows,
            match_positions,
            last_positions,
            score_matrix: Vec::new(),
            best_position_matrix: Vec::new(),
        }
    }

    /// Looks for the lowercase query in the lowercase prefix and candidate, each character as
    /// late as possible, and notes where. Answers whether it is there at all.
    pub fn find_last_positions(
        &mut self,
        lowercase_prefix: &[char],
        lowercase_candidate: &[char],
    ) -> (found: bool)
        requires
            old(self).wf(),
            lowercase_prefix@.len() + lowercase_candidate@.len() <= usize::MAX,
        ensures
            final(self).wf(),
            final(self).same_settings(old(self)),
            final(self).match_positions == old(self).match_positions,
            final(self).score_matrix == old(self).score_matrix,
            final(self).best_position_matrix == old(self).best_position_matrix,
            found == embedding::is_subsequence(
                lowercase_prefix@ + lowercase_candidate@,
                old(self).lowercase_query@,
            ),
            found ==> embedding::latest_embedding(
                lowercase_prefix@ + lowercase_candidate@,
                old(self).lowercase_query@,
                final(self).last_positions@,
            ),
            !found ==> embedding::gave_up(
                lowercase_prefix@ + lowercase_candidate@,
                old(self).lowercase_query@,
                old(self).last_positions@,
                final(self).last_positions@,
            ),
    {
        embedding::find_latest(
            self.lowercase_query,
            lowercase_prefix,
            lowercase_candidate,
            &mut self.last_positions,
        )
    }

    /// What the score of a text after a prefix depends on, where the query is found there.
    pub open spec fn lowered_scoring(
        &self,
        prefix: Seq<char>,
        lowercase_prefix: Seq<char>,
        path: Seq<char>,
        lowercase_path: Seq<char>,
        extra: Map<usize, usize>,
    ) -> Scoring {
        Scoring {
            query: self.query@,
            lowercase_query: self.lowercase_query@,
            last_positions: embedding::latest(
                lowercase_prefix + lowercase_path,
                self.lowercase_query@,
            ),
            prefix,
            lowercase_prefix,
            path,
            lowercase_path,
            extra,
            smart_case: self.smart_case,
            penalize_length: self.penalize_length,
            word_boundary_boost: self.word_boundary_boost,
            min_score: self.min_score@,
            separator: self.separator,
            windows: self.windows,
        }
    }

    /// What comes of matching the query against a text after a prefix, given the text in both
    /// its forms.
    pub open spec fn lowered_outcome(
        &self,
        prefix: Seq<char>,
        lowercase_prefix: Seq<char>,
        path: Seq<char>,
        lowercase_path: Seq<char>,
        extra: Map<usize, usize>,
    ) -> scoring::Outcome {
        let size = self.query@.len() * (prefix.len() + path.len());
        if lowercase_prefix.len() + lowercase_path.len() > usize::MAX || prefix.len()
            + lowercase_path.len() > usize::MAX {
            scoring::Outcome::Overrun
        } else if !embedding::is_subsequence(
            lowercase_prefix + lowercase_path,
            self.lowercase_query@,
        ) {
            scoring::Outcome::Unmatched
        } else if oversized(size) {
            scoring::Outcome::Overrun
        } else {
            self.lowered_scoring(prefix, lowercase_prefix, path, lowercase_path, extra).outcome(
                scoring::Table::blank(size),
            )
        }
    }

    /// What the score of a text after a prefix depends on.
    pub open spec fn text_scoring(
        &self,
        prefix: Seq<char>,
        lowercase_prefix: Seq<char>,
        text: Seq<char>,
    ) -> Scoring {
        self.lowered_scoring(
            prefix,
            lowercase_prefix,
            text,
            lowering::lowercase_text(text),
            lowering::extra_widths(text),
        )
    }

    /// What comes of matching the query against a text after a prefix.
    pub open spec fn outcome(
        &self,
        prefix: Seq<char>,
        lowercase_prefix: Seq<char>,
        text: Seq<char>,
    ) -> scoring::Outcome {
        self.lowered_outcome(
            prefix,
            lowercase_prefix,
            text,
            lowering::lowercase_text(text),
            lowering::extra_widths(text),
        )
    }

    /// This is what comes of a match: an error where the search leaves the text or its tables,
    /// nothing where there is no match, with the positions left alone, otherwise the score, with
    /// the positions noted.
    pub open spec fn reports(
        &self,
        before: &Self,
        outcome: scoring::Outcome,
        result: Result<Option<Binary64>, Overrun>,
    ) -> bool {
        match outcome {
            scoring::Outcome::Overrun => result is Err,
            scoring::Outcome::Unmatched => result == Ok::<Option<Binary64>, Overrun>(None)
                && self.match_positions@ == before.match_positions@,
            scoring::Outcome::Matched { score, positions } => result is Ok && result->Ok_0 is Some
                && result->Ok_0->0@ == score && score > 0 && self.match_positions@ == positions,
        }
    }

    /// What a search that came to its end leaves behind: where the query is not found, how far it
    /// was; otherwise its last places, and the tables as the search has filled them.
    pub open spec fn searched(
        &self,
        before: &Self,
        prefix: Seq<char>,
        lowercase_prefix: Seq<char>,
        path: Seq<char>,
        lowercase_path: Seq<char>,
        extra: Map<usize, usize>,
    ) -> bool {
        let places = lowercase_prefix + lowercase_path;
        let size = before.query@.len() * (prefix.len() + path.len());
        if embedding::is_subsequence(places, before.lowercase_query@) {
            &&& self.last_positions@ == embedding::latest(places, before.lowercase_query@)
            &&& self.table() == (before.lowered_scoring(
                prefix,
                lowercase_prefix,
                path,
                lowercase_path,
                extra,
            ).visit(
                0,
                0,
                binary64::fraction(before.query@.len(), 1),
                scoring::Table::blank(size),
            )->0).1
        } else {
            &&& embedding::gave_up(
                places,
                before.lowercase_query@,
                before.last_positions@,
                self.last_positions@,
            )
            &&& self.table() == before.table()
        }
    }

    /// What comes of matching a text does not depend on what was matched before.
    pub proof fn lemma_same_outcome(
        &self,
        other: &Self,
        prefix: Seq<char>,
        lowercase_prefix: Seq<char>,
        text: Seq<char>,
    )
        requires
            self.same_settings(other),
        ensures
            self.outcome(prefix, lowercase_prefix, text) == other.outcome(
                prefix,
                lowercase_prefix,
                text,
            ),
    {
    }

    /// Matches the query against a text after a prefix. A match comes with its score, and its
    /// byte positions are noted. Without the boost no score exceeds the length of the query.
    pub fn match_text(
        &mut self,
        prefix: &[char],
        lowercase_prefix: &[char],
        text: &str,
    ) -> (result: Result<Option<Binary64>, Overrun>)
        requires
            old(self).wf(),
        ensures
            final(self).wf(),
            final(self).same_settings(old(self)),
            final(self).reports(
                old(self),
                old(self).outcome(prefix@, lowercase_prefix@, text@),
                result,
            ),
            result is Ok ==> final(self).searched(
                old(self),
                prefix@,
                lowercase_prefix@,
                text@,
                lowering::lowercase_text(text@),
                lowering::extra_widths(text@),
            ),
            !old(self).word_boundary_boost ==> (result matches Ok(Some(score)) ==> score@
                <= binary64::fraction(old(self).query@.len(), 1)),
    {
        let lowered: lowering::LoweredText = lowering::lower(text);
        self.match_lowered(prefix, lowercase_prefix, &lowered)
    }

    /// Matches the query against a text after a prefix, given the text in both its forms.
    pub fn match_lowered(
        &mut self,
        prefix: &[char],
        lowercase_prefix: &[char],
        lowered: &lowering::LoweredText,
    ) -> (result: Result<Option<Binary64>, Overrun>)
        requires
            old(self).wf(),
            lowered.wf(),
        ensures
            final(self).wf(),
            final(self).same_settings(old(self)),
            final(self).reports(
                old(self),
                old(self).lowered_outcome(
                    prefix@,
                    lowercase_prefix@,
                    lowered.chars@,
                    lowered.lowercase_chars@,
                    lowered.extra@,
                ),
                result,
            ),
            result is Ok ==> final(self).searched(
                old(self),
                prefix@,
                lowercase_prefix@,
                lowered.chars@,
                lowered.lowercase_chars@,
                lowered.extra@,
            ),
            !old(self).word_boundary_boost ==> (result matches Ok(Some(score)) ==> score@
                <= binary64::fraction(old(self).query@.len(), 1)),
    {
        let ghost places = lowercase_prefix@ + lowered.lowercase_chars@;
        if lowered.lowercase_chars.len() > usize::MAX - lowercase_prefix.len()
            || lowered.lowercase_chars.len() > usize::MAX - prefix.len() {
            return Err(Overrun);
        }
        if !self.find_last_positions(lowercase_prefix, &lowered.lowercase_chars) {
            return Ok(None);
        }
        let path_len: usize = prefix.len() + lowered.chars.len();
        let matrix_len: usize = match self.query.len().checked_mul(path_len) {
            Some(matrix_len) => matrix_len,
            None => {
                proof {
                    if !oversized(self.query@.len() * path_len as nat) {
                        lemma_not_oversized(self.query@.len() * path_len as nat);
                    }
                }
                return Err(Overrun);
            },
        };
        if is_oversized(matrix_len) {
            return Err(Overrun);
        }
        proof {
            lemma_not_oversized(matrix_len as nat);
        }
        self.score_matrix.clear();
        self.score_matrix.resize(matrix_len, None);
        self.best_position_matrix.clear();
        self.best_position_matrix.resize(matrix_len, 0);
        proof {
            assert(self.table().scores =~= scoring::Table::blank(matrix_len as nat).scores);
            assert(self.table().positions =~= scoring::Table::blank(matrix_len as nat).positions);
            embedding::lemma_latest(places, self.lowercase_query@, self.last_positions@);
            if !self.word_boundary_boost {
                self.lowered_scoring(
                    prefix@,
                    lowercase_prefix@,
                    lowered.chars@,
                    lowered.lowercase_chars@,
                    lowered.extra@,
                ).lemma_total_within_length(matrix_len as nat);
            }
        }
        match self.score_match(
            &lowered.chars,
            &lowered.lowercase_chars,
            prefix,
            lowercase_prefix,
            &lowered.extra,
        ) {
            None => Err(Overrun),
            Some(score) => if score.code() > 0 {
                Ok(Some(score))
            } else {
                Ok(None)
            },
        }
    }

    /// The matches among the replies of the first candidates, in the order of the candidates.
    pub open spec fn matches_among(
        &self,
        prefix: Seq<char>,
        lowercase_prefix: Seq<char>,
        replies: Seq<Reply>,
    ) -> Seq<Match>
        decreases replies.len(),
    {
        if replies.len() == 0 {
            Seq::empty()
        } else {
            let earlier = self.matches_among(prefix, lowercase_prefix, replies.drop_last());
            match self.outcome_of(prefix, lowercase_prefix, replies.last()) {
                scoring::Outcome::Matched { score, positions } => earlier.push(
                    Match { candidate: replies.len() - 1, score, positions },
                ),
                _ => earlier,
            }
        }
    }

    /// What comes of a candidate with this reply.
    pub open spec fn outcome_of(
        &self,
        prefix: Seq<char>,
        lowercase_prefix: Seq<char>,
        reply: Reply,
    ) -> scoring::Outcome {
        if reply.admitted && !reply.cancelled {
            self.outcome(prefix, lowercase_prefix, reply.text)
        } else {
            scoring::Outcome::Unmatched
        }
    }

    /// What is done with a candidate of this reply: a match is built and the search goes on, it
    /// goes on without one, it is cancelled, or it leaves the text or its tables.
    pub open spec fn answered<C, R, F: Fn(&C, Binary64, &Vec<usize>) -> R>(
        &self,
        prefix: Seq<char>,
        lowercase_prefix: Seq<char>,
        candidate: C,
        build_match: F,
        reply: Reply,
        built: Seq<R>,
        result: Result<bool, Overrun>,
    ) -> bool {
        match self.outcome_of(prefix, lowercase_prefix, reply) {
            scoring::Outcome::Overrun => result is Err && built.len() == 0,
            scoring::Outcome::Unmatched => result == Ok::<bool, Overrun>(!reply.stops())
                && built.len() == 0,
            scoring::Outcome::Matched { score, positions } => {
                &&& result == Ok::<bool, Overrun>(true)
                &&& built.len() == 1
                &&& built_from(
                    candidate,
                    build_match,
                    Match { candidate: 0, score, positions },
                    built[0],
                )
            },
        }
    }

    /// The first candidates have been asked and their matches have been built, in order. If one
    /// of them stopped the search it is the last of them. Where `stuck` is set the search of the
    /// last of them left the text or its tables, otherwise none did.
    pub open spec fn handled<C: MatchCandidate<Bag>, R, F: Fn(&C, Binary64, &Vec<usize>) -> R>(
        &self,
        prefix: Seq<char>,
        lowercase_prefix: Seq<char>,
        candidates: Seq<C>,
        cancel_flag: &AtomicBool,
        build_match: F,
        replies: Seq<Reply>,
        built: Seq<R>,
        stuck: bool,
    ) -> bool {
        let found = self.matches_among(prefix, lowercase_prefix, replies);
        &&& replies.len() <= candidates.len()
        &&& forall|i: int|
            0 <= i < replies.len() ==> replied(
                candidates[i],
                self.query_char_bag,
                cancel_flag,
                #[trigger] replies[i],
            )
        &&& forall|i: int| 0 <= i < replies.len() - 1 ==> !(#[trigger] replies[i]).stops()
        &&& forall|i: int|
            0 <= i < replies.len() ==> (self.outcome_of(
                prefix,
                lowercase_prefix,
                #[trigger] replies[i],
            ) is Overrun <==> stuck && i == replies.len() - 1)
        &&& stuck ==> replies.len() > 0
        &&& built.len() == found.len()
        &&& forall|i: int|
            0 <= i < found.len() ==> built_from(
                candidates[found[i].candidate],
                build_match,
                found[i],
                #[trigger] built[i],
            )
    }

    /// Searches a candidate that was admitted, unless the search has been cancelled. What
    /// `build_match` makes of a match is added to the results. Answers whether to go on.
    pub fn take_up<C: MatchCandidate<Bag>, R, F: Fn(&C, Binary64, &Vec<usize>) -> R>(
        &mut self,
        prefix: &[char],
        lowercase_prefix: &[char],
        candidate: &C,
        cancelled: bool,
        results: &mut Vec<R>,
        build_match: &F,
    ) -> (result: Result<bool, Overrun>)
        requires
            old(self).wf(),
            forall|candidate: &C, score: Binary64, positions: &Vec<usize>|
                call_requires(*build_match, (candidate, score, positions)),
        ensures
            final(self).wf(),
            final(self).same_settings(old(self)),
            cancelled ==> *final(self) == *old(self),
            exists|reply: Reply, built: Seq<R>|
                {
                    &&& #[trigger] old(self).answered(
                        prefix@,
                        lowercase_prefix@,
                        *candidate,
                        *build_match,
                        reply,
                        built,
                        result,
                    )
                    &&& reply.admitted
                    &&& reply.cancelled == cancelled
                    &&& !cancelled ==> gives_text::<Bag, C>(*candidate, reply.text)
                    &&& final(results)@ == old(results)@ + built
                },
    {
        let ghost nothing = Seq::<R>::empty();
        if cancelled {
            proof {
                let reply = Reply { admitted: true, cancelled, text: Seq::empty() };
                assert(self.answered(
                    prefix@,
                    lowercase_prefix@,
                    *candidate,
                    *build_match,
                    reply,
                    nothing,
                    Ok(false),
                ));
                assert(results@ =~= old(results)@ + nothing);
            }
            return Ok(false);
        }
        let string: Cow<'_, str> = candidate.to_string();
        let text: &str = match &string {
            Cow::Borrowed(text) => text,
            Cow::Owned(text) => text.as_str(),
        };
        let matched: Result<Option<Binary64>, Overrun> = self.match_text(
            prefix,
            lowercase_prefix,
            text,
        );
        let ghost reply = Reply { admitted: true, cancelled, text: text@ };
        assert(gives_text::<Bag, C>(*candidate, text@));
        match matched {
            Err(overrun) => {
                proof {
                    assert(old(self).answered(
                        prefix@,
                        lowercase_prefix@,
                        *candidate,
                        *build_match,
                        reply,
                        nothing,
                        Err(overrun),
                    ));
                    assert(results@ =~= old(results)@ + nothing);
                }
                Err(overrun)
            },
            Ok(None) => {
                proof {
                    assert(old(self).answered(
                        prefix@,
                        lowercase_prefix@,
                        *candidate,
                        *build_match,
                        reply,
                        nothing,
                        Ok(true),
                    ));
                    assert(results@ =~= old(results)@ + nothing);
                }
                Ok(true)
            },
            Ok(Some(score)) => {
                let value: R = build_match(candidate, score, &self.match_positions);
                results.push(value);
                proof {
                    assert(old(self).answered(
                        prefix@,
                        lowercase_prefix@,
                        *candidate,
                        *build_match,
                        reply,
                        seq![value],
                        Ok(true),
                    ));
                    assert(results@ =~= old(results)@ + seq![value]);
                }
                Ok(true)
            },
        }
    }

    /// Asks a candidate whether it may hold the characters of the query, and searches it if so,
    /// unless the flag is set. What `build_match` makes of a match is added to the results.
    /// Answers whether to go on.
    pub fn match_candidate<C: MatchCandidate<Bag>, R, F: Fn(&C, Binary64, &Vec<usize>) -> R>(
        &mut self,
        prefix: &[char],
        lowercase_prefix: &[char],
        candidate: &C,
        results: &mut Vec<R>,
        cancel_flag: &AtomicBool,
        build_match: &F,
    ) -> (result: Result<bool, Overrun>) where Bag: Copy
        requires
            old(self).wf(),
            forall|candidate: &C, score: Binary64, positions: &Vec<usize>|
                call_requires(*build_match, (candidate, score, positions)),
        ensures
            final(self).wf(),
            final(self).same_settings(old(self)),
            exists|reply: Reply, built: Seq<R>|
                {
                    &&& #[trigger] old(self).answered(
                        prefix@,
                        lowercase_prefix@,
                        *candidate,
                        *build_match,
                        reply,
                        built,
                        result,
                    )
                    &&& replied(*candidate, old(self).query_char_bag, cancel_flag, reply)
                    &&& final(results)@ == old(results)@ + built
                },
    {
        if candidate.has_chars(self.query_char_bag) {
            let cancelled: bool = is_set(cancel_flag);
            self.take_up(prefix, lowercase_prefix, candidate, cancelled, results, build_match)
        } else {
            proof {
                let reply = Reply { admitted: false, cancelled: false, text: Seq::empty() };
                assert(self.answered(
                    prefix@,
                    lowercase_prefix@,
                    *candidate,
                    *build_match,
                    reply,
                    Seq::<R>::empty(),
                    Ok(true),
                ));
                assert(results@ =~= old(results)@ + Seq::<R>::empty());
            }
            Ok(true)
        }
    }

    /// Filters and scores candidates. What `build_match` makes of the matches is added to the
    /// results, in the order of the candidates. Setting the flag ends this early, at the next
    /// candidate that is not turned down right away.
    pub fn match_candidates<C: MatchCandidate<Bag>, R, F: Fn(&C, Binary64, &Vec<usize>) -> R>(
        &mut self,
        prefix: &[char],
        lowercase_prefix: &[char],
        candidates: &[C],
        results: &mut Vec<R>,
        cancel_flag: &AtomicBool,
        build_match: F,
    ) -> (result: Result<(), Overrun>) where Bag: Copy
        requires
            old(self).wf(),
            forall|candidate: &C, score: Binary64, positions: &Vec<usize>|
                call_requires(build_match, (candidate, score, positions)),
        ensures
            final(self).wf(),
            final(self).same_settings(old(self)),
            match result {
                Ok(()) => exists|replies: Seq<Reply>, built: Seq<R>|
                    {
                        &&& #[trigger] old(self).handled(
                            prefix@,
                            lowercase_prefix@,
                            candidates@,
                            cancel_flag,
                            build_match,
                            replies,
                            built,
                            false,
                        )
                        &&& final(results)@ == old(results)@ + built
                        &&& replies.len() < candidates@.len() ==> replies.len() > 0
                            && replies.last().stops()
                    },
                Err(_) => exists|replies: Seq<Reply>, built: Seq<R>|
                    {
                        &&& #[trigger] old(self).handled(
                            prefix@,
                            lowercase_prefix@,
                            candidates@,
                            cancel_flag,
                            build_match,
                            replies,
                            built,
                            true,
                        )
                        &&& final(results)@ == old(results)@ + built
                    },
            },
    {
        let ghost mut replies: Seq<Reply> = Seq::empty();
        let ghost mut built: Seq<R> = Seq::empty();
        assert(results@ =~= old(results)@ + built);
        let mut i: usize = 0;
        while i < candidates.len()
            invariant
                self.wf(),
                self.same_settings(old(self)),
                i <= candidates@.len(),
                replies.len() == i,
                old(self).handled(
                    prefix@,
                    lowercase_prefix@,
                    candidates@,
                    cancel_flag,
                    build_match,
                    replies,
                    built,
                    false,
                ),
                forall|k: int| 0 <= k < replies.len() ==> !(#[trigger] replies[k]).stops(),
                results@ == old(results)@ + built,
                forall|candidate: &C, score: Binary64, positions: &Vec<usize>|
                    call_requires(build_match, (candidate, score, positions)),
            decreases candidates@.len() - i,
        {
            let candidate: &C = &candidates[i];
            let ghost before = *self;
            let ghost earlier = replies;
            let ghost earlier_built = built;
            let ghost earlier_results = results@;
            let result: Result<bool, Overrun> = self.match_candidate(
                prefix,
                lowercase_prefix,
                candidate,
                results,
                cancel_flag,
                &build_match,
            );
            proof {
                let (reply, more) = choose|reply: Reply, more: Seq<R>|
                    {
                        &&& #[trigger] before.answered(
                            prefix@,
                            lowercase_prefix@,
                            *candidate,
                            build_match,
                            reply,
                            more,
                            result,
                        )
                        &&& replied(*candidate, before.query_char_bag, cancel_flag, reply)
                        &&& results@ == earlier_results + more
                    };
                old(self).lemma_same_outcome(&before, prefix@, lowercase_prefix@, reply.text);
                replies = earlier.push(reply);
                built = earlier_built + more;
                assert(replies.drop_last() =~= earlier);
                assert(results@ =~= old(results)@ + built);
                assert(old(self).handled(
                    prefix@,
                    lowercase_prefix@,
                    candidates@,
                    cancel_flag,
                    build_match,
                    replies,
                    built,
                    result is Err,
                ));
            }
            match result {
                Err(overrun) => {
                    return Err(overrun);
                },
                Ok(go_on) => {
                    if !go_on {
                        return Ok(());
                    }
                },
            }
            i = i + 1;
        }
        Ok(())
    }
}

} // verus!
