//! What the score of a candidate is.
//!
//! The query is found in the lowercase text, character by character, and each character is given
//! a factor that says how well it is placed. The score of a placement is the product of its
//! factors, and the score of the candidate is the best that the search comes across.
use vstd::prelude::*;
use crate::binary64;
use crate::binary64::Binary64;
use crate::characters;
use crate::lowering;
use crate::weights;

verus! {

/// A query and a candidate, with all that the score depends on.
pub struct Scoring {
    /// The characters of the query.
    pub query: Seq<char>,
    /// The characters of the query in lowercase.
    pub lowercase_query: Seq<char>,
    /// For each character of the lowercase query, the last place in the lowercase text at which
    /// it may be found.
    pub last_positions: Seq<usize>,
    /// The characters that stand before those of the candidate.
    pub prefix: Seq<char>,
    /// The same in lowercase.
    pub lowercase_prefix: Seq<char>,
    /// The characters of the candidate.
    pub path: Seq<char>,
    /// The same in lowercase.
    pub lowercase_path: Seq<char>,
    /// For each character of the candidate that is longer in lowercase: how much longer.
    pub extra: Map<usize, usize>,
    /// A difference in case counts against a match.
    pub smart_case: bool,
    /// Long texts count against a match.
    pub penalize_length: bool,
    /// The beginnings of words count for a match.
    pub word_boundary_boost: bool,
    /// Placements whose factors fall below this are cut off, unless it is zero.
    pub min_score: nat,
    /// The separator of path components.
    pub separator: char,
    /// Paths are written as on Windows: a backslash in the query is no more than a backslash.
    pub windows: bool,
}

/// The memory of the search: for each character of the query and each place from which it has
/// been searched for, the best score and the place that gives it.
pub struct Table {
    pub scores: Seq<Option<nat>>,
    pub positions: Seq<usize>,
}

impl Table {
    /// The table with nothing in it.
    pub open spec fn blank(size: nat) -> Table {
        Table {
            scores: Seq::new(size, |i: int| None::<nat>),
            positions: Seq::new(size, |i: int| 0usize),
        }
    }

    /// The table with a result written down. Place 0 is what an empty cell holds already, so it
    /// is not written.
    pub open spec fn record(self, cell: int, score: nat, position: usize) -> Table {
        Table {
            scores: self.scores.update(cell, Some(score)),
            positions: if position != 0 {
                self.positions.update(cell, position)
            } else {
                self.positions
            },
        }
    }
}

/// What comes of matching a query against a candidate.
pub enum Outcome {
    /// The search leaves the text or its tables. It can where some character is longer in
    /// lowercase, or where a lowercase form that was given is too short; and where the tables
    /// would be larger than memory it does not begin.
    Overrun,
    /// The query does not match.
    Unmatched,
    /// The query matches, with this score, at these byte positions.
    Matched { score: nat, positions: Seq<usize> },
}

impl Scoring {
    /// The text that is searched: the prefix and the candidate.
    pub open spec fn text(self) -> Seq<char> {
        self.prefix + self.path
    }

    /// The number of places in the lowercase text.
    pub open spec fn lowercase_len(self) -> nat {
        self.prefix.len() + self.lowercase_path.len()
    }

    /// The lowercase text and the table of longer characters are those of one text.
    pub open spec fn consistent(self) -> bool {
        &&& self.last_positions.len() == self.lowercase_query.len()
        &&& forall|i: usize| #[trigger] self.extra.contains_key(i) ==> i < self.path.len()
        &&& self.lowercase_path.len() == self.path.len() + lowering::extra_before(
            self.extra,
            self.path.len(),
        )
        &&& self.lowercase_len() <= usize::MAX
    }

    /// How much longer the lowercase text is before place `j`.
    pub open spec fn extra_before(self, j: nat) -> nat {
        lowering::extra_before(self.extra, j)
    }

    /// The place in the text that goes with place `j` of the lowercase text.
    pub open spec fn regular(self, j: nat) -> nat {
        (j - self.extra_before(j)) as nat
    }

    /// The character at place `j` of the lowercase text.
    pub open spec fn lowercase_char(self, j: nat) -> char {
        if j < self.prefix.len() {
            self.lowercase_prefix[j as int]
        } else {
            self.lowercase_path[j - self.prefix.len()]
        }
    }

    /// The last place at which query character `q` is looked for.
    pub open spec fn limit(self, q: nat) -> nat {
        let last = if self.lowercase_len() == 0 {
            0
        } else {
            (self.lowercase_len() - 1) as nat
        };
        if self.last_positions[q as int] < last {
            self.last_positions[q as int] as nat
        } else {
            last
        }
    }

    /// Query character `q` matches place `j`. An underscore also matches a separator. A backslash
    /// matches everything, but not on Windows.
    pub open spec fn matches(self, q: nat, j: nat) -> bool {
        let wanted = self.lowercase_query[q as int];
        let found = self.lowercase_char(j);
        ||| wanted == found
        ||| found == self.separator && wanted == '_'
        ||| !self.windows && wanted == '\\'
    }

    /// Place `j`, which is looked at for query character `q` from place `p` on, has a character
    /// in either text, and so has the place before it where that is needed.
    pub open spec fn readable(self, q: nat, p: nat, j: nat) -> bool {
        &&& self.extra_before(j) <= j
        &&& j < self.prefix.len() ==> j < self.lowercase_prefix.len()
        &&& self.matches(q, j) && p < j ==> 0 < self.regular(j)
    }

    /// The last separator at or after place `p` and at or before place `j`, or 0.
    pub open spec fn last_slash(self, p: nat, j: nat) -> nat
        decreases j,
    {
        if j < p {
            0
        } else if self.lowercase_char(j) == self.separator {
            self.regular(j)
        } else if j == 0 {
            0
        } else {
            self.last_slash(p, (j - 1) as nat)
        }
    }

    /// How well place `j` goes with a match that ends before place `p`: best right there, else by
    /// what stands before it.
    pub open spec fn placement_weight(self, q: nat, p: nat, j: nat) -> nat {
        let at = self.regular(j);
        let here = self.text()[at as int];
        let before = self.text()[at - 1];
        if j <= p {
            binary64::fraction(1, 1)
        } else {
            weights::apart_weight(
                before,
                self.separator,
                characters::word_boundary(before, here),
                self.word_boundary_boost,
                q == 0,
                (j - p - 1) as nat,
            )
        }
    }

    /// Query character `q` differs from the character at place `j` where that is not forgiven.
    pub open spec fn penalized(self, q: nat, j: nat) -> bool {
        let here = self.text()[self.regular(j) as int];
        (self.smart_case || here == self.separator) && self.query[q as int] != here
    }

    /// The weight of a placement, with the penalty for a difference.
    pub open spec fn character_weight(self, q: nat, p: nat, j: nat) -> nat {
        if self.penalized(q, j) {
            binary64::product(self.placement_weight(q, p, j), binary64::fraction(1, 1000))
        } else {
            self.placement_weight(q, p, j)
        }
    }

    /// The factor that placing query character `q` at place `j` contributes to a score. The first
    /// one is also divided by the length of the text after the last separator.
    pub open spec fn factor(self, q: nat, p: nat, j: nat) -> nat {
        if self.penalize_length && q == 0 {
            binary64::quotient(
                self.character_weight(q, p, j),
                binary64::fraction((self.text().len() - self.last_slash(p, j)) as nat, 1),
            )
        } else {
            self.character_weight(q, p, j)
        }
    }

    /// The cell for query character `q` searched for from place `p` on.
    pub open spec fn cell(self, q: nat, p: nat) -> int {
        (q * self.text().len() + p) as int
    }

    /// What the characters up to `q` have come to, where character `q` is placed at `j` and those
    /// before it came to `carried`. It is followed only where something can be cut off.
    pub open spec fn carry(self, carried: nat, q: nat, p: nat, j: nat) -> nat {
        if self.min_score > 0 {
            binary64::product(carried, self.factor(q, p, j))
        } else {
            binary64::fraction(1, 1)
        }
    }

    /// The placement of query character `q` at `j` is cut off.
    pub open spec fn cut_off(self, carried: nat, q: nat, p: nat, j: nat) -> bool {
        self.min_score > 0 && self.carry(carried, q, p, j) < self.min_score
    }

    /// The best score of query characters `q` and onward from place `p` on, and the table after
    /// the search; nothing where the search leaves the text or the table. The characters before
    /// have come to `carried`.
    pub open spec fn visit(self, q: nat, p: nat, carried: nat, table: Table) -> Option<(nat, Table)>
        decreases self.query.len() - q, 1int, 0int,
    {
        if q >= self.query.len() {
            Some((binary64::fraction(1, 1), table))
        } else if self.cell(q, p) >= table.scores.len() {
            None
        } else if let Some(score) = table.scores[self.cell(q, p)] {
            Some((score, table))
        } else if q >= self.lowercase_query.len() {
            None
        } else {
            match self.scan(q, p, p, carried, 0, 0, table) {
                None => None,
                Some((score, position, after)) => Some(
                    (score, after.record(self.cell(q, p), score, position)),
                ),
            }
        }
    }

    /// The places from `j` on tried for query character `q`, given the best score so far and its
    /// place. A score of one ends the search. A place that is cut off leaves a score that is next
    /// to nothing, where there is none yet.
    pub open spec fn scan(
        self,
        q: nat,
        p: nat,
        j: nat,
        carried: nat,
        score: nat,
        position: usize,
        table: Table,
    ) -> Option<(nat, usize, Table)>
        decreases self.query.len() - q, 0int, self.limit(q) + 1 - j,
    {
        if q >= self.query.len() || j > self.limit(q) || j >= self.lowercase_len() {
            Some((score, position, table))
        } else if !self.readable(q, p, j) {
            None
        } else if !self.matches(q, j) {
            self.scan(q, p, j + 1, carried, score, position, table)
        } else if self.cut_off(carried, q, p, j) {
            self.scan(q, p, j + 1, carried, or_next_to_nothing(score), position, table)
        } else {
            match self.visit(q + 1, j + 1, self.carry(carried, q, p, j), table) {
                None => None,
                Some((rest, after)) => {
                    let new_score = binary64::product(rest, self.factor(q, p, j));
                    let at = self.regular(j) as usize;
                    if new_score > score {
                        if new_score == binary64::fraction(1, 1) {
                            Some((new_score, at, after))
                        } else {
                            self.scan(q, p, j + 1, carried, new_score, at, after)
                        }
                    } else {
                        self.scan(q, p, j + 1, carried, score, position, after)
                    }
                },
            }
        }
    }

    /// The places at which the first `count` query characters are matched, read off the table:
    /// each is looked up from the place after the one before.
    pub open spec fn matched_places(self, positions: Seq<usize>, count: nat) -> Option<Seq<usize>>
        decreases count,
    {
        if count == 0 {
            Some(Seq::empty())
        } else {
            match self.matched_places(positions, (count - 1) as nat) {
                None => None,
                Some(places) => {
                    let from: nat = if places.len() == 0 {
                        0
                    } else {
                        (places.last() + 1) as nat
                    };
                    let cell = self.cell((count - 1) as nat, from);
                    if cell < positions.len() && positions[cell] < self.text().len() {
                        Some(places.push(positions[cell]))
                    } else {
                        None
                    }
                },
            }
        }
    }

    /// Where query character `i` is marked: right after the one before it, and as many bytes
    /// further as the characters in between take.
    pub open spec fn byte_position(self, places: Seq<usize>, i: int) -> nat
        decreases i,
    {
        if i <= 0 {
            byte_length(self.text().take(places[0] as int))
        } else {
            let before = places[i - 1] as int;
            let here = places[i] as int;
            self.byte_position(places, i - 1) + characters::utf8_width(self.text()[before]) + (if before
                + 1 < here {
                byte_length(self.text().subrange(before + 1, here))
            } else {
                0
            })
        }
    }

    /// Where the query characters are marked.
    pub open spec fn byte_positions(self, places: Seq<usize>) -> Seq<usize> {
        Seq::new(places.len(), |i: int| self.byte_position(places, i) as usize)
    }

    /// Where the last path component begins.
    pub open spec fn filename_start(self) -> nat {
        self.prefix.len() + after_last(self.path, self.separator)
    }

    /// The beginnings of words in the last path component, as far as they lie before `end`; the
    /// component itself begins with one.
    pub open spec fn word_starts(self, end: nat) -> Seq<usize>
        decreases end,
    {
        if end <= self.filename_start() + 1 {
            seq![self.filename_start() as usize]
        } else {
            let rest = self.word_starts((end - 1) as nat);
            if characters::word_boundary(self.text()[end - 2], self.text()[end - 1]) {
                rest.push((end - 1) as usize)
            } else {
                rest
            }
        }
    }

    /// The number of places that lie in the last path component.
    pub open spec fn filename_matches(self, places: Seq<usize>) -> nat
        decreases places.len(),
    {
        if places.len() == 0 {
            0
        } else {
            self.filename_matches(places.drop_last()) + (if places.last() >= self.filename_start() {
                1nat
            } else {
                0
            })
        }
    }

    /// The count as a share of the query's length.
    pub open spec fn share(self, count: nat) -> nat {
        binary64::quotient(
            binary64::fraction(count, 1),
            binary64::fraction(self.query.len(), 1),
        )
    }

    /// The score of a match, from the best product of factors: times the length of the query, and
    /// with the boost for what lies in the last path component and for what follows its words
    /// from the first one on.
    pub open spec fn total(self, best: nat, places: Seq<usize>) -> nat {
        let score = binary64::product(best, binary64::fraction(self.query.len(), 1));
        if self.word_boundary_boost && self.query.len() > 0 {
            let in_filename = self.share(self.filename_matches(places));
            let at_words = self.share(leading_hits(places, self.word_starts(self.text().len()), 0));
            binary64::product(
                binary64::product(
                    score,
                    binary64::sum(
                        binary64::fraction(1, 1),
                        binary64::product(in_filename, binary64::fraction(5, 10)),
                    ),
                ),
                binary64::sum(
                    binary64::fraction(1, 1),
                    binary64::product(at_words, binary64::fraction(15, 10)),
                ),
            )
        } else {
            score
        }
    }

    /// What comes of the search with the given table.
    pub open spec fn outcome(self, table: Table) -> Outcome {
        match self.visit(0, 0, binary64::fraction(self.query.len(), 1), table) {
            None => Outcome::Overrun,
            Some((best, after)) => {
                if binary64::product(best, binary64::fraction(self.query.len(), 1)) == 0 {
                    Outcome::Unmatched
                } else {
                    match self.matched_places(after.positions, self.query.len()) {
                        None => Outcome::Overrun,
                        Some(places) => Outcome::Matched {
                            score: self.total(best, places),
                            positions: self.byte_positions(places),
                        },
                    }
                }
            },
        }
    }
}

impl Scoring {
    /// A place of the lowercase text has a place of the text that goes with it.
    pub proof fn lemma_regular_in_text(self, j: nat)
        requires
            self.consistent(),
            j < self.lowercase_len(),
            self.extra_before(j) <= j,
        ensures
            self.regular(j) < self.text().len(),
    {
        if j < self.path.len() {
        } else {
            lowering::lemma_extra_gap(self.extra, self.path.len(), j);
        }
    }

    /// The last separator lies in the text.
    pub proof fn lemma_last_slash_in_text(self, p: nat, j: nat)
        requires
            self.consistent(),
            j < self.lowercase_len(),
            forall|k: nat| p <= k <= j ==> #[trigger] self.extra_before(k) <= k,
        ensures
            self.last_slash(p, j) < self.text().len(),
        decreases j,
    {
        assert(self.text().len() > 0) by {
            if self.path.len() == 0 {
                assert(lowering::extra_before(self.extra, 0) == 0);
            }
        }
        if j >= p {
            assert(self.extra_before(j) <= j);
            self.lemma_regular_in_text(j);
            if self.lowercase_char(j) != self.separator && j > 0 {
                self.lemma_last_slash_in_text(p, (j - 1) as nat);
            }
        }
    }

    /// The range of a placement's weight.
    pub proof fn lemma_placement_weight_range(self, q: nat, p: nat, j: nat)
        ensures
            weights::ONE_FIFTH <= self.placement_weight(q, p, j) <= weights::SIX_FIFTHS,
            !self.word_boundary_boost ==> self.placement_weight(q, p, j) <= weights::ONE,
    {
        weights::lemma_weight_codes();
        if p < j {
            weights::lemma_distance_weight_range((j - p - 1) as nat);
        }
    }

    /// The range of a character's weight.
    pub proof fn lemma_character_weight_range(self, q: nat, p: nat, j: nat)
        ensures
            weights::TWO_TO_MINUS_13 <= self.character_weight(q, p, j) <= weights::SIX_FIFTHS,
            !self.word_boundary_boost ==> self.character_weight(q, p, j) <= weights::ONE,
    {
        weights::lemma_weight_codes();
        self.lemma_placement_weight_range(q, p, j);
        weights::lemma_penalty_range(self.placement_weight(q, p, j));
    }

    /// The range of a factor.
    pub proof fn lemma_factor_range(self, q: nat, p: nat, j: nat)
        requires
            self.text().len() <= usize::MAX,
            self.last_slash(p, j) < self.text().len(),
        ensures
            weights::TWO_TO_MINUS_77 <= self.factor(q, p, j) <= weights::SIX_FIFTHS,
            q > 0 ==> weights::TWO_TO_MINUS_13 <= self.factor(q, p, j),
            !self.word_boundary_boost ==> self.factor(q, p, j) <= weights::ONE,
    {
        self.lemma_character_weight_range(q, p, j);
        let rest = (self.text().len() - self.last_slash(p, j)) as nat;
        weights::lemma_integer_code(rest);
        weights::lemma_length_penalty_range(
            self.character_weight(q, p, j),
            binary64::fraction(rest, 1),
        );
    }
}

impl Scoring {
    /// Where the places cannot be read off to the end, they cannot be read off further.
    pub proof fn lemma_trace_stuck(self, positions: Seq<usize>, count: nat, more: nat)
        requires
            self.matched_places(positions, count) is None,
            count <= more,
        ensures
            self.matched_places(positions, more) is None,
        decreases more,
    {
        if count < more {
            self.lemma_trace_stuck(positions, count, (more - 1) as nat);
        }
    }

    /// Later places do not move earlier positions.
    pub proof fn lemma_byte_position_kept(self, places: Seq<usize>, more: usize, i: int)
        requires
            0 <= i < places.len(),
        ensures
            self.byte_position(places.push(more), i) == self.byte_position(places, i),
        decreases i,
    {
        if i > 0 {
            self.lemma_byte_position_kept(places, more, i - 1);
        }
    }

    /// Places are counted at most once each.
    pub proof fn lemma_filename_matches_bound(self, places: Seq<usize>)
        ensures
            self.filename_matches(places) <= places.len(),
        decreases places.len(),
    {
        if places.len() > 0 {
            self.lemma_filename_matches_bound(places.drop_last());
        }
    }

    /// The boost never makes a score smaller.
    pub proof fn lemma_total_grows(self, best: nat, places: Seq<usize>)
        requires
            places.len() == self.query.len() <= usize::MAX,
        ensures
            binary64::product(best, binary64::fraction(self.query.len(), 1)) <= self.total(
                best,
                places,
            ) <= binary64::INFINITY_CODE,
    {
        let n = self.query.len();
        weights::lemma_weight_codes();
        weights::lemma_integer_code(n);
        weights::lemma_one_units();
        let score = binary64::product(best, binary64::fraction(n, 1));
        binary64::lemma_product_in_range(best, binary64::fraction(n, 1));
        if self.word_boundary_boost && n > 0 {
            let count = self.filename_matches(places);
            let hits = leading_hits(places, self.word_starts(self.text().len()), 0);
            self.lemma_filename_matches_bound(places);
            lemma_leading_hits_bound(places, self.word_starts(self.text().len()), 0);
            weights::lemma_share_range(count, n);
            weights::lemma_share_range(hits, n);
            weights::lemma_boost_range(self.share(count), weights::ONE_HALF as nat);
            weights::lemma_boost_range(self.share(hits), weights::THREE_HALVES as nat);
            let a = binary64::sum(
                binary64::fraction(1, 1),
                binary64::product(self.share(count), binary64::fraction(5, 10)),
            );
            let b = binary64::sum(
                binary64::fraction(1, 1),
                binary64::product(self.share(hits), binary64::fraction(15, 10)),
            );
            binary64::lemma_units_ordered(weights::ONE as nat, a);
            binary64::lemma_units_ordered(weights::ONE as nat, b);
            binary64::lemma_product_grows(score, a);
            binary64::lemma_product_grows(binary64::product(score, a), b);
        }
    }
}

/// There are no more hits than places.
pub proof fn lemma_leading_hits_bound(places: Seq<usize>, starts: Seq<usize>, i: int)
    requires
        0 <= i <= places.len(),
    ensures
        leading_hits(places, starts, i) <= places.len() - i,
    decreases places.len() - i,
{
    if i < places.len() && i < starts.len() && places[i] == starts[i] {
        lemma_leading_hits_bound(places, starts, i + 1);
    }
}

/// The number of bytes that a text takes in UTF-8.
pub open spec fn byte_length(text: Seq<char>) -> nat {
    vstd::utf8::encode_utf8(text).len()
}

/// The bytes of a text are those of its parts.
pub proof fn lemma_byte_length_adds(a: Seq<char>, b: Seq<char>)
    ensures
        byte_length(a + b) == byte_length(a) + byte_length(b),
    decreases a.len(),
{
    if a.len() == 0 {
        assert(a + b =~= b);
    } else {
        assert((a + b).drop_first() =~= a.drop_first() + b);
        lemma_byte_length_adds(a.drop_first(), b);
    }
}

/// One more character takes as many more bytes.
pub proof fn lemma_byte_length_push(text: Seq<char>, c: char)
    ensures
        byte_length(text.push(c)) == byte_length(text) + characters::utf8_width(c),
{
    let one = seq![c];
    assert(text.push(c) =~= text + one);
    lemma_byte_length_adds(text, one);
    assert(one.drop_first() =~= Seq::<char>::empty());
    reveal_with_fuel(vstd::utf8::encode_utf8, 2);
    assert(vstd::utf8::encode_utf8(one) == vstd::utf8::encode_scalar(c as u32)
        + vstd::utf8::encode_utf8(Seq::<char>::empty()));
}

/// A character takes four bytes at most.
pub proof fn lemma_byte_length_bound(text: Seq<char>)
    ensures
        byte_length(text) <= 4 * text.len(),
    decreases text.len(),
{
    if text.len() > 0 {
        lemma_byte_length_bound(text.drop_last());
        assert(text =~= text.drop_last().push(text.last()));
        lemma_byte_length_push(text.drop_last(), text.last());
    }
}

/// A score that is not zero: 1e-18 in place of zero.
pub open spec fn or_next_to_nothing(score: nat) -> nat {
    if score == 0 {
        binary64::fraction(1, 1_000_000_000_000_000_000)
    } else {
        score
    }
}

/// The place after the last occurrence of a character, or 0.
pub open spec fn after_last(text: Seq<char>, c: char) -> nat
    decreases text.len(),
{
    if text.len() == 0 {
        0
    } else if text.last() == c {
        text.len()
    } else {
        after_last(text.drop_last(), c)
    }
}

/// How many places in a row, from number `i` on, are the beginning of the word of the same number.
pub open spec fn leading_hits(places: Seq<usize>, starts: Seq<usize>, i: int) -> nat
    decreases places.len() - i,
{
    if 0 <= i < places.len() && i < starts.len() && places[i] == starts[i] {
        1 + leading_hits(places, starts, i + 1)
    } else {
        0
    }
}

/// A cell of the table in its executable form.
pub open spec fn cell_code(cell: Option<Binary64>) -> Option<nat> {
    match cell {
        Some(score) => Some(score@),
        None => None,
    }
}

/// The table in its executable form.
pub open spec fn table_of(scores: Seq<Option<Binary64>>, positions: Seq<usize>) -> Table {
    Table { scores: Seq::new(scores.len(), |i: int| cell_code(scores[i])), positions }
}

} // verus!
