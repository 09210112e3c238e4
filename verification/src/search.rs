//! What the search comes to: the table is a memory and nothing more.
use vstd::prelude::*;
use vstd::arithmetic::mul::*;
use crate::binary64;
use crate::embedding;
use crate::lowering;
use crate::scoring;
use crate::scoring::Outcome;
use crate::scoring::Scoring;
use crate::scoring::Table;
use crate::weights;

verus! {

impl Scoring {
    /// The best score of query characters `q` and onward from place `p` on, and the place in the
    /// text that gives it to character `q`.
    pub open spec fn best(self, q: nat, p: nat) -> (nat, usize)
        decreases self.query.len() - q, 1int, 0int,
    {
        if q >= self.query.len() {
            (binary64::fraction(1, 1), 0)
        } else {
            self.best_from(q, p, p, 0, 0)
        }
    }

    /// The score of query characters `q` and onward with character `q` at place `j`.
    pub open spec fn score_at(self, q: nat, p: nat, j: nat) -> nat
        decreases self.query.len() - q, 0int, 0int,
    {
        if q >= self.query.len() {
            0
        } else {
            binary64::product(self.best(q + 1, j + 1).0, self.factor(q, p, j))
        }
    }

    /// The best of what is known and of the places from `j` on; a score of one is not improved
    /// upon.
    pub open spec fn best_from(self, q: nat, p: nat, j: nat, score: nat, place: usize) -> (nat, usize)
        decreases self.query.len() - q, 0int, self.limit(q) + 2 - j,
    {
        if q >= self.query.len() || j > self.limit(q) || j >= self.lowercase_len() {
            (score, place)
        } else if self.matches(q, j) && self.score_at(q, p, j) > score {
            if self.score_at(q, p, j) == binary64::fraction(1, 1) {
                (self.score_at(q, p, j), self.regular(j) as usize)
            } else {
                self.best_from(q, p, j + 1, self.score_at(q, p, j), self.regular(j) as usize)
            }
        } else {
            self.best_from(q, p, j + 1, score, place)
        }
    }

    /// Every place that the search can go on from has a cell of its own, and nothing is cut off.
    pub open spec fn aligned(self) -> bool {
        &&& self.consistent()
        &&& self.min_score == 0
        &&& self.query.len() <= self.lowercase_query.len()
        &&& self.query.len() > 0 ==> self.text().len() > 0
        &&& forall|q: nat| q + 1 < self.query.len() ==> #[trigger] self.limit(q) + 1 < self.text().len()
    }

    /// No character is longer in lowercase.
    pub open spec fn plain(self) -> bool {
        &&& self.extra == Map::<usize, usize>::empty()
        &&& self.lowercase_prefix.len() == self.prefix.len()
        &&& self.lowercase_path.len() == self.path.len()
    }

    /// What the table holds is right: the best scores and their places, and where the text is
    /// plain also those that they rest on.
    pub open spec fn sound(self, table: Table) -> bool {
        &&& table.scores.len() == self.query.len() * self.text().len()
        &&& table.positions.len() == table.scores.len()
        &&& forall|q: nat, p: nat|
            q < self.query.len() && p < self.text().len() ==> self.sound_at(table, q, p)
    }

    /// What one cell of the table holds is right.
    pub open spec fn sound_at(self, table: Table, q: nat, p: nat) -> bool {
        match table.scores[self.cell(q, p)] {
            None => table.positions[self.cell(q, p)] == 0,
            Some(score) => {
                &&& score == self.best(q, p).0
                &&& table.positions[self.cell(q, p)] == self.best(q, p).1
                &&& self.rests_on(table, q, score, self.best(q, p).1)
            },
        }
    }

    /// Where query character `q` has been placed, the best score of the next one from there on is
    /// known.
    pub open spec fn rests_on(self, table: Table, q: nat, score: nat, place: usize) -> bool {
        self.plain() && score > 0 && q + 1 < self.query.len() ==> {
            &&& place + 1 < self.text().len()
            &&& table.scores[self.cell(q + 1, (place + 1) as nat)] is Some
        }
    }
}

/// Nothing known is forgotten.
pub open spec fn extends(before: Table, after: Table) -> bool {
    forall|i: int|
        0 <= i < before.scores.len() && (#[trigger] before.scores[i]) is Some
            ==> after.scores[i] is Some
}

impl Scoring {
    /// Cells are numbered row by row.
    proof fn lemma_cell_in_table(self, q: nat, p: nat)
        requires
            q < self.query.len(),
            p < self.text().len(),
        ensures
            0 <= self.cell(q, p) < self.query.len() * self.text().len(),
    {
        let len = self.text().len();
        assert(q * len + len <= self.query.len() * len) by (nonlinear_arith)
            requires
                q + 1 <= self.query.len(),
        ;
    }

    /// Different places have different cells.
    proof fn lemma_cell_injective(self, q1: nat, p1: nat, q2: nat, p2: nat)
        requires
            p1 < self.text().len(),
            p2 < self.text().len(),
            self.cell(q1, p1) == self.cell(q2, p2),
        ensures
            q1 == q2,
            p1 == p2,
    {
        let len = self.text().len();
        if q1 < q2 {
            assert(q1 * len + len <= q2 * len) by (nonlinear_arith)
                requires
                    q1 + 1 <= q2,
            ;
        } else if q2 < q1 {
            assert(q2 * len + len <= q1 * len) by (nonlinear_arith)
                requires
                    q2 + 1 <= q1,
            ;
        }
    }

    /// An empty table is sound.
    pub proof fn lemma_blank_is_sound(self)
        ensures
            self.sound(Table::blank(self.query.len() * self.text().len())),
    {
        let table = Table::blank(self.query.len() * self.text().len());
        assert forall|q: nat, p: nat| q < self.query.len() && p < self.text().len() implies self.sound_at(
            table,
            q,
            p,
        ) by {
            self.lemma_cell_in_table(q, p);
        }
    }

    /// What rests on a cell still does when more is known.
    proof fn lemma_rests_on_kept(self, before: Table, after: Table, q: nat, score: nat, place: usize)
        requires
            extends(before, after),
            before.scores.len() == self.query.len() * self.text().len(),
            self.rests_on(before, q, score, place),
        ensures
            self.rests_on(after, q, score, place),
    {
        if self.plain() && score > 0 && q + 1 < self.query.len() {
            self.lemma_cell_in_table(q + 1, (place + 1) as nat);
        }
    }

    /// Writing down a right result keeps the table sound.
    proof fn lemma_record_is_sound(self, table: Table, q: nat, p: nat)
        requires
            self.sound(table),
            q < self.query.len(),
            p < self.text().len(),
            self.rests_on(table, q, self.best(q, p).0, self.best(q, p).1),
        ensures
            self.sound(table.record(self.cell(q, p), self.best(q, p).0, self.best(q, p).1)),
            extends(table, table.record(self.cell(q, p), self.best(q, p).0, self.best(q, p).1)),
            table.record(self.cell(q, p), self.best(q, p).0, self.best(q, p).1).scores[self.cell(
                q,
                p,
            )] is Some,
    {
        let cell = self.cell(q, p);
        let after = table.record(cell, self.best(q, p).0, self.best(q, p).1);
        self.lemma_cell_in_table(q, p);
        assert(extends(table, after));
        assert(self.sound_at(table, q, p));
        assert forall|q2: nat, p2: nat|
            q2 < self.query.len() && p2 < self.text().len() implies self.sound_at(after, q2, p2) by {
            self.lemma_cell_in_table(q2, p2);
            assert(self.sound_at(table, q2, p2));
            if self.cell(q2, p2) == cell {
                self.lemma_cell_injective(q, p, q2, p2);
                self.lemma_rests_on_kept(table, after, q, self.best(q, p).0, self.best(q, p).1);
            } else if table.scores[self.cell(q2, p2)] is Some {
                self.lemma_rests_on_kept(table, after, q2, self.best(q2, p2).0, self.best(q2, p2).1);
            }
        }
    }

    /// The search with a sound table gives the best score, and leaves the table sound.
    pub proof fn lemma_visit_is_best(self, q: nat, p: nat, carried: nat, table: Table)
        requires
            self.aligned(),
            self.sound(table),
            q < self.query.len() ==> p < self.text().len(),
            self.visit(q, p, carried, table) is Some,
        ensures
            ({
                let (score, after) = self.visit(q, p, carried, table)->0;
                &&& score == self.best(q, p).0
                &&& self.sound(after)
                &&& extends(table, after)
                &&& q < self.query.len() ==> after.scores[self.cell(q, p)] is Some
            }),
        decreases self.query.len() - q, 1int, 0int,
    {
        if q < self.query.len() {
            self.lemma_cell_in_table(q, p);
            assert(self.sound_at(table, q, p));
            if table.scores[self.cell(q, p)] is None {
                self.lemma_scan_is_best(q, p, p, carried, 0, 0, table);
                let (score, place, after) = self.scan(q, p, p, carried, 0, 0, table)->0;
                self.lemma_record_is_sound(after, q, p);
            }
        }
    }

    proof fn lemma_scan_is_best(
        self,
        q: nat,
        p: nat,
        j: nat,
        carried: nat,
        score: nat,
        place: usize,
        table: Table,
    )
        requires
            self.aligned(),
            self.sound(table),
            q < self.query.len(),
            p < self.text().len(),
            p <= j,
            self.rests_on(table, q, score, place),
            self.scan(q, p, j, carried, score, place, table) is Some,
        ensures
            ({
                let (best, at, after) = self.scan(q, p, j, carried, score, place, table)->0;
                &&& (best, at) == self.best_from(q, p, j, score, place)
                &&& self.sound(after)
                &&& extends(table, after)
                &&& self.rests_on(after, q, best, at)
            }),
        decreases self.query.len() - q, 0int, self.limit(q) + 1 - j,
    {
        if j <= self.limit(q) && j < self.lowercase_len() {
            if !self.matches(q, j) {
                self.lemma_scan_is_best(q, p, j + 1, carried, score, place, table);
            } else {
                assert(self.readable(q, p, j));
                assert(q + 1 < self.query.len() ==> j + 1 < self.text().len());
                let next = self.carry(carried, q, p, j);
                self.lemma_visit_is_best(q + 1, j + 1, next, table);
                let (rest, after) = self.visit(q + 1, j + 1, next, table)->0;
                let new_score = binary64::product(rest, self.factor(q, p, j));
                assert(new_score == self.score_at(q, p, j));
                self.lemma_regular_in_text(j);
                let at = self.regular(j) as usize;
                assert(self.plain() ==> at == j) by {
                    if self.plain() {
                        lowering::lemma_extra_gap(self.extra, 0, j);
                    }
                }
                assert(self.rests_on(after, q, new_score, at));
                self.lemma_rests_on_kept(table, after, q, score, place);
                if new_score > score {
                    if new_score != binary64::fraction(1, 1) {
                        self.lemma_scan_is_best(q, p, j + 1, carried, new_score, at, after);
                    }
                } else {
                    self.lemma_scan_is_best(q, p, j + 1, carried, score, place, after);
                }
            }
        }
    }
}

impl Scoring {
    /// The text is plain, the query has been found in it, and nothing is cut off.
    pub open spec fn ready(self) -> bool {
        &&& self.plain()
        &&& self.min_score == 0
        &&& self.consistent()
        &&& self.query.len() <= self.lowercase_query.len()
        &&& embedding::embeds(
            self.lowercase_prefix + self.lowercase_path,
            self.lowercase_query,
            self.last_positions,
        )
    }

    /// In a plain text places are the same in lowercase.
    pub proof fn lemma_plain_places(self, j: nat)
        requires
            self.plain(),
            j <= usize::MAX,
        ensures
            self.extra_before(j) == 0,
            self.regular(j) == j,
    {
        lowering::lemma_extra_gap(self.extra, 0, j);
    }

    /// Where the query has been found, each character may be looked for up to where it was found.
    pub proof fn lemma_ready_limit(self, q: nat)
        requires
            self.ready(),
            q < self.query.len(),
        ensures
            self.limit(q) == self.last_positions[q as int],
            self.limit(q) < self.text().len(),
            self.lowercase_len() == self.text().len(),
            self.matches(q, self.limit(q)),
            q + 1 < self.query.len() ==> self.limit(q) < self.limit(q + 1),
    {
        let text = self.lowercase_prefix + self.lowercase_path;
        assert(self.last_positions[q as int] < text.len());
        if q + 1 < self.query.len() {
            assert(self.last_positions[q as int + 1] < text.len());
            assert(self.last_positions[q as int] < self.last_positions[q as int + 1]);
        }
    }

    /// Where the query has been found in a plain text, every place has a cell of its own.
    pub proof fn lemma_ready_is_aligned(self)
        requires
            self.ready(),
        ensures
            self.aligned(),
    {
        if self.query.len() > 0 {
            self.lemma_ready_limit(0);
        }
        assert forall|q: nat| q + 1 < self.query.len() implies #[trigger] self.limit(q) + 1
            < self.text().len() by {
            self.lemma_ready_limit(q);
            self.lemma_ready_limit(q + 1);
        }
    }

    /// Where the query has been found in a plain text, the search leaves neither the text nor the
    /// table.
    pub proof fn lemma_visit_stays(self, q: nat, p: nat, carried: nat, table: Table)
        requires
            self.ready(),
            table.scores.len() == self.query.len() * self.text().len(),
            q <= self.query.len(),
            q < self.query.len() ==> p <= self.limit(q),
        ensures
            self.visit(q, p, carried, table) is Some,
            (self.visit(q, p, carried, table)->0).1.scores.len() == table.scores.len(),
        decreases self.query.len() - q, 1int, 0int,
    {
        if q < self.query.len() {
            self.lemma_ready_limit(q);
            self.lemma_cell_in_table(q, p);
            if table.scores[self.cell(q, p)] is None {
                self.lemma_scan_stays(q, p, p, carried, 0, 0, table);
            }
        }
    }

    proof fn lemma_scan_stays(
        self,
        q: nat,
        p: nat,
        j: nat,
        carried: nat,
        score: nat,
        place: usize,
        table: Table,
    )
        requires
            self.ready(),
            table.scores.len() == self.query.len() * self.text().len(),
            q < self.query.len(),
            p <= j,
        ensures
            self.scan(q, p, j, carried, score, place, table) is Some,
            (self.scan(q, p, j, carried, score, place, table)->0).2.scores.len() == table.scores.len(),
        decreases self.query.len() - q, 0int, self.limit(q) + 1 - j,
    {
        if j <= self.limit(q) && j < self.lowercase_len() {
            self.lemma_ready_limit(q);
            self.lemma_plain_places(j);
            assert(self.readable(q, p, j));
            if !self.matches(q, j) {
                self.lemma_scan_stays(q, p, j + 1, carried, score, place, table);
            } else if self.cut_off(carried, q, p, j) {
                let kept = scoring::or_next_to_nothing(score);
                self.lemma_scan_stays(q, p, j + 1, carried, kept, place, table);
            } else {
                let next = self.carry(carried, q, p, j);
                self.lemma_visit_stays(q + 1, j + 1, next, table);
                let (rest, after) = self.visit(q + 1, j + 1, next, table)->0;
                let new_score = binary64::product(rest, self.factor(q, p, j));
                if new_score > score {
                    if new_score != binary64::fraction(1, 1) {
                        self.lemma_scan_stays(
                            q,
                            p,
                            j + 1,
                            carried,
                            new_score,
                            self.regular(j) as usize,
                            after,
                        );
                    }
                } else {
                    self.lemma_scan_stays(q, p, j + 1, carried, score, place, after);
                }
            }
        }
    }

    /// All places of the lowercase text have places in the text that go with them.
    pub open spec fn mapped(self) -> bool {
        &&& self.consistent()
        &&& forall|j: nat| j < self.lowercase_len() ==> #[trigger] self.extra_before(j) <= j
    }

    /// Plain texts are mapped.
    pub proof fn lemma_plain_is_mapped(self)
        requires
            self.plain(),
            self.consistent(),
        ensures
            self.mapped(),
    {
        assert forall|j: nat| j < self.lowercase_len() implies #[trigger] self.extra_before(j) <= j by {
            self.lemma_plain_places(j);
        }
    }

    /// The range of a factor within the text.
    pub proof fn lemma_mapped_factor_range(self, q: nat, p: nat, j: nat)
        requires
            self.mapped(),
            j < self.lowercase_len(),
        ensures
            weights::TWO_TO_MINUS_77 <= self.factor(q, p, j) <= weights::SIX_FIFTHS,
            q > 0 ==> weights::TWO_TO_MINUS_13 <= self.factor(q, p, j),
            !self.word_boundary_boost ==> self.factor(q, p, j) <= weights::ONE,
    {
        self.lemma_last_slash_in_text(p, j);
        self.lemma_factor_range(q, p, j);
    }

    /// A score above zero comes from a place that was tried.
    proof fn lemma_best_from_place(self, q: nat, p: nat, j: nat, score: nat, place: usize)
        requires
            q < self.query.len(),
            p <= j,
        ensures
            self.best_from(q, p, j, score, place) == (score, place) || exists|k: nat|
                j <= k <= self.limit(q) && k < self.lowercase_len() && self.matches(q, k)
                    && self.best_from(q, p, j, score, place) == (
                    #[trigger] self.score_at(q, p, k),
                    self.regular(k) as usize,
                ),
            self.best_from(q, p, j, score, place).0 >= score,
        decreases self.limit(q) + 1 - j,
    {
        if j <= self.limit(q) && j < self.lowercase_len() {
            let new_score = self.score_at(q, p, j);
            if self.matches(q, j) && new_score > score {
                if new_score != binary64::fraction(1, 1) {
                    self.lemma_best_from_place(q, p, j + 1, new_score, self.regular(j) as usize);
                }
            } else {
                self.lemma_best_from_place(q, p, j + 1, score, place);
            }
        }
    }

    /// In a plain text a score above zero is that of the place noted with it, and so is the score
    /// of what follows.
    pub proof fn lemma_best_place(self, q: nat, p: nat)
        requires
            self.plain(),
            self.consistent(),
            q < self.query.len(),
            self.best(q, p).0 > 0,
        ensures
            ({
                let place = self.best(q, p).1 as nat;
                &&& p <= place <= self.limit(q)
                &&& place < self.lowercase_len()
                &&& self.matches(q, place)
                &&& self.best(q, p).0 == self.score_at(q, p, place)
                &&& self.best(q + 1, place + 1).0 > 0
            }),
    {
        self.lemma_best_from_place(q, p, p, 0, 0);
        let k = choose|k: nat|
            p <= k <= self.limit(q) && k < self.lowercase_len() && self.matches(q, k)
                && self.best_from(q, p, p, 0, 0) == (
                #[trigger] self.score_at(q, p, k),
                self.regular(k) as usize,
            );
        self.lemma_plain_places(k);
        self.lemma_plain_is_mapped();
        self.lemma_mapped_factor_range(q, p, k);
        if self.best(q + 1, k + 1).0 == 0 {
            assert(binary64::units(0) == 0);
            assert(0 * binary64::units(self.factor(q, p, k)) == 0);
            vstd::arithmetic::power2::lemma_pow2_pos(1074);
            binary64::lemma_rounded_zero(binary64::one_units());
        }
    }

    /// The places of a match in a plain text: each query character stands where it gives the best
    /// score after the one before it.
    pub open spec fn best_places(self, count: nat) -> Seq<usize>
        decreases count,
    {
        if count == 0 {
            Seq::empty()
        } else {
            let before = self.best_places((count - 1) as nat);
            before.push(self.best((count - 1) as nat, self.place_after(before)).1)
        }
    }

    /// Where the search goes on after these places.
    pub open spec fn place_after(self, places: Seq<usize>) -> nat {
        if places.len() == 0 {
            0
        } else {
            (places.last() + 1) as nat
        }
    }

    /// What is read off the table of a plain text are the best places. They come one after the
    /// other, and each of them matches.
    pub proof fn lemma_places_read_off(self, table: Table, count: nat)
        requires
            self.ready(),
            self.sound(table),
            self.best(0, 0).0 > 0,
            self.query.len() > 0 ==> table.scores[self.cell(0, 0)] is Some,
            count <= self.query.len(),
        ensures
            self.matched_places(table.positions, count) == Some(self.best_places(count)),
            self.best_places(count).len() == count,
            forall|i: int, j: int|
                0 <= i < j < count ==> self.best_places(count)[i] < self.best_places(count)[j],
            forall|i: int|
                0 <= i < count ==> #[trigger] self.best_places(count)[i] < self.text().len()
                    && self.matches(i as nat, self.best_places(count)[i] as nat),
            self.best(count, self.place_after(self.best_places(count))).0 > 0,
            count < self.query.len() ==> {
                &&& self.place_after(self.best_places(count)) < self.text().len()
                &&& table.scores[self.cell(count, self.place_after(self.best_places(count)))] is Some
            },
        decreases count,
    {
        if count == 0 {
            if self.query.len() > 0 {
                self.lemma_ready_limit(0);
            }
        } else {
            let q = (count - 1) as nat;
            self.lemma_places_read_off(table, q);
            let before = self.best_places(q);
            let p = self.place_after(before);
            self.lemma_best_place(q, p);
            self.lemma_cell_in_table(q, p);
            assert(self.sound_at(table, q, p));
            let place = self.best(q, p).1;
            let places = self.best_places(count);
            assert(places == before.push(place));
            assert forall|i: int, j: int| 0 <= i < j < count implies places[i] < places[j] by {
                if j == q && i < q {
                    assert(before[i] <= before.last());
                }
            }
            assert forall|i: int| 0 <= i < count implies #[trigger] places[i] < self.text().len()
                && self.matches(i as nat, places[i] as nat) by {
                if i < q {
                    assert(places[i] == before[i]);
                }
            }
        }
    }

    /// Without the boost no score exceeds one.
    pub proof fn lemma_best_at_most_one(self, q: nat, p: nat)
        requires
            self.mapped(),
            !self.word_boundary_boost,
        ensures
            self.best(q, p).0 <= weights::ONE,
        decreases self.query.len() - q, 1int, 0int,
    {
        weights::lemma_weight_codes();
        if q < self.query.len() {
            self.lemma_best_from_at_most_one(q, p, p, 0, 0);
        }
    }

    /// Without the boost no score of a placement exceeds one.
    pub proof fn lemma_score_at_most_one(self, q: nat, p: nat, j: nat)
        requires
            self.mapped(),
            !self.word_boundary_boost,
            j < self.lowercase_len(),
        ensures
            self.score_at(q, p, j) <= weights::ONE,
        decreases self.query.len() - q, 0int, 0int,
    {
        if q < self.query.len() {
            self.lemma_best_at_most_one(q + 1, j + 1);
            self.lemma_mapped_factor_range(q, p, j);
            weights::lemma_one_units();
            binary64::lemma_units_ordered(self.factor(q, p, j), weights::ONE as nat);
            binary64::lemma_product_shrinks(self.best(q + 1, j + 1).0, self.factor(q, p, j));
        }
    }

    proof fn lemma_best_from_at_most_one(self, q: nat, p: nat, j: nat, score: nat, place: usize)
        requires
            self.mapped(),
            !self.word_boundary_boost,
            q < self.query.len(),
            score <= weights::ONE,
        ensures
            self.best_from(q, p, j, score, place).0 <= weights::ONE,
        decreases self.query.len() - q, 0int, self.limit(q) + 2 - j,
    {
        if j <= self.limit(q) && j < self.lowercase_len() {
            let new_score = self.score_at(q, p, j);
            self.lemma_score_at_most_one(q, p, j);
            if self.matches(q, j) && new_score > score {
                if new_score != binary64::fraction(1, 1) {
                    self.lemma_best_from_at_most_one(
                        q,
                        p,
                        j + 1,
                        new_score,
                        self.regular(j) as usize,
                    );
                }
            } else {
                self.lemma_best_from_at_most_one(q, p, j + 1, score, place);
            }
        }
    }

    /// The search does not pass over a place, unless for a score of one.
    proof fn lemma_best_from_reaches(self, q: nat, p: nat, j: nat, score: nat, place: usize, k: nat)
        requires
            q < self.query.len(),
            p <= j <= k <= self.limit(q),
            k < self.lowercase_len(),
            self.matches(q, k),
        ensures
            self.best_from(q, p, j, score, place).0 >= self.score_at(q, p, k) || self.best_from(
                q,
                p,
                j,
                score,
                place,
            ).0 == binary64::fraction(1, 1),
        decreases k - j,
    {
        let new_score = self.score_at(q, p, j);
        let at = self.regular(j) as usize;
        if self.matches(q, j) && new_score > score {
            if new_score != binary64::fraction(1, 1) {
                if j < k {
                    self.lemma_best_from_reaches(q, p, j + 1, new_score, at, k);
                } else {
                    self.lemma_best_from_place(q, p, j + 1, new_score, at);
                }
            }
        } else if j < k {
            self.lemma_best_from_reaches(q, p, j + 1, score, place, k);
        } else {
            self.lemma_best_from_place(q, p, j + 1, score, place);
        }
    }

    /// A way to place the query: its characters stand one after the other where they match, and
    /// none later than it can be for the rest to be found.
    pub open spec fn fits(self, places: Seq<usize>) -> bool {
        &&& places.len() == self.query.len()
        &&& forall|i: int, j: int| 0 <= i < j < places.len() ==> places[i] < places[j]
        &&& forall|i: int|
            0 <= i < places.len() ==> #[trigger] places[i] <= self.limit(i as nat) && places[i]
                < self.lowercase_len() && self.matches(i as nat, places[i] as nat)
    }

    /// The product of the factors of query characters `q` and onward at these places.
    pub open spec fn placed_score(self, places: Seq<usize>, q: nat) -> nat
        decreases places.len() - q,
    {
        if q >= places.len() {
            binary64::fraction(1, 1)
        } else {
            binary64::product(
                self.placed_score(places, q + 1),
                self.factor(q, self.place_after(places.take(q as int)), places[q as int] as nat),
            )
        }
    }

    /// No search ends early with something better ahead: without the boost there is nothing
    /// better than one, and with it no search comes to one.
    pub open spec fn exhaustive(self) -> bool {
        !self.word_boundary_boost || forall|q: nat, p: nat|
            q < self.query.len() ==> (#[trigger] self.best(q, p)).0 != binary64::fraction(1, 1)
    }

    /// No search for the rest of the query after these places ends early with something better
    /// ahead.
    pub open spec fn exhaustive_after(self, places: Seq<usize>) -> bool {
        !self.word_boundary_boost || forall|q: nat|
            q < self.query.len() ==> self.best(
                q,
                self.place_after(#[trigger] places.take(q as int)),
            ).0 != binary64::fraction(1, 1)
    }

    /// No way to place the query is better than the best.
    pub proof fn lemma_best_is_maximum(self, places: Seq<usize>, q: nat)
        requires
            self.mapped(),
            self.exhaustive_after(places),
            self.fits(places),
            q <= self.query.len(),
        ensures
            self.placed_score(places, q) <= self.best(
                q,
                self.place_after(places.take(q as int)),
            ).0 <= binary64::INFINITY_CODE,
        decreases self.query.len() - q,
    {
        weights::lemma_weight_codes();
        if q < self.query.len() {
            let p = self.place_after(places.take(q as int));
            let k = places[q as int] as nat;
            assert(p <= k) by {
                if q > 0 {
                    assert(places[q - 1] < places[q as int]);
                }
            }
            self.lemma_best_is_maximum(places, q + 1);
            assert(self.place_after(places.take((q + 1) as int)) == k + 1);
            self.lemma_mapped_factor_range(q, p, k);
            binary64::lemma_product_monotone(
                self.placed_score(places, q + 1),
                self.best(q + 1, k + 1).0,
                self.factor(q, p, k),
            );
            self.lemma_best_from_reaches(q, p, p, 0, 0, k);
            self.lemma_best_in_range(q, p, p, 0, 0);
            if !self.word_boundary_boost {
                self.lemma_score_at_most_one(q, p, k);
            }
        }
    }

    /// Of equally good places the first is taken.
    pub proof fn lemma_best_from_is_first(self, q: nat, p: nat, j: nat, score: nat, place: usize)
        requires
            self.plain(),
            self.consistent(),
            q < self.query.len(),
        ensures
            self.best_from(q, p, j, score, place) == (score, place) || self.best_from(
                q,
                p,
                j,
                score,
                place,
            ).0 > score,
            self.best_from(q, p, j, score, place) != (score, place) ==> forall|k: nat|
                j <= k < self.best_from(q, p, j, score, place).1 && self.matches(q, k)
                    ==> #[trigger] self.score_at(q, p, k) < self.best_from(
                    q,
                    p,
                    j,
                    score,
                    place,
                ).0,
        decreases self.limit(q) + 1 - j,
    {
        if j <= self.limit(q) && j < self.lowercase_len() {
            let new_score = self.score_at(q, p, j);
            self.lemma_plain_places(j);
            if self.matches(q, j) && new_score > score {
                if new_score != binary64::fraction(1, 1) {
                    self.lemma_best_from_is_first(q, p, j + 1, new_score, self.regular(j) as usize);
                }
            } else {
                self.lemma_best_from_is_first(q, p, j + 1, score, place);
            }
        }
    }

    /// The best places for query characters `q` and onward from place `p` on.
    pub open spec fn best_onward(self, q: nat, p: nat) -> Seq<usize>
        decreases self.query.len() - q,
    {
        if q >= self.query.len() {
            Seq::empty()
        } else {
            let place = self.best(q, p).1;
            seq![place] + self.best_onward(q + 1, (place + 1) as nat)
        }
    }

    /// In a plain text the best places onward come one after the other, match, and reach the best
    /// score.
    pub proof fn lemma_best_onward(self, head: Seq<usize>, q: nat, p: nat)
        requires
            self.plain(),
            self.consistent(),
            q <= self.query.len(),
            self.best(q, p).0 > 0,
            head.len() == q,
            self.place_after(head) == p,
            forall|i: int, j: int| 0 <= i < j < q ==> head[i] < head[j],
            forall|i: int|
                0 <= i < q ==> #[trigger] head[i] <= self.limit(i as nat) && head[i]
                    < self.lowercase_len() && self.matches(i as nat, head[i] as nat),
        ensures
            self.fits(head + self.best_onward(q, p)),
            self.placed_score(head + self.best_onward(q, p), q) == self.best(q, p).0,
            (head + self.best_onward(q, p)).take(q as int) == head,
        decreases self.query.len() - q,
    {
        let full = head + self.best_onward(q, p);
        assert(full.take(q as int) =~= head);
        if q == self.query.len() {
            assert(full =~= head);
            assert forall|i: int| 0 <= i < full.len() implies #[trigger] full[i] <= self.limit(
                i as nat,
            ) && full[i] < self.lowercase_len() && self.matches(i as nat, full[i] as nat) by {
                assert(full[i] == head[i]);
            }
        } else {
            self.lemma_best_place(q, p);
            let place = self.best(q, p).1;
            let longer = head.push(place);
            assert forall|i: int, j: int| 0 <= i < j < q + 1 implies longer[i] < longer[j] by {
                if j == q {
                    assert(head[i] <= head.last());
                }
            }
            assert forall|i: int| 0 <= i < q + 1 implies #[trigger] longer[i] <= self.limit(
                i as nat,
            ) && longer[i] < self.lowercase_len() && self.matches(i as nat, longer[i] as nat) by {
                if i < q {
                    assert(longer[i] == head[i]);
                }
            }
            self.lemma_best_onward(longer, q + 1, (place + 1) as nat);
            assert(full =~= longer + self.best_onward(q + 1, (place + 1) as nat));
            assert(full[q as int] == place);
        }
    }

    /// Scores are numbers.
    proof fn lemma_best_in_range(self, q: nat, p: nat, j: nat, score: nat, place: usize)
        requires
            q < self.query.len(),
            score <= binary64::INFINITY_CODE,
        ensures
            self.best_from(q, p, j, score, place).0 <= binary64::INFINITY_CODE,
        decreases self.limit(q) + 2 - j,
    {
        if j <= self.limit(q) && j < self.lowercase_len() {
            let new_score = self.score_at(q, p, j);
            binary64::lemma_product_in_range(self.best(q + 1, j + 1).0, self.factor(q, p, j));
            if self.matches(q, j) && new_score > score {
                if new_score != binary64::fraction(1, 1) {
                    self.lemma_best_in_range(q, p, j + 1, new_score, self.regular(j) as usize);
                }
            } else {
                self.lemma_best_in_range(q, p, j + 1, score, place);
            }
        }
    }

    /// The first of the best places.
    pub proof fn lemma_best_places_grow(self, count: nat, more: nat)
        requires
            count <= more,
        ensures
            self.best_places(more).len() == more,
            self.best_places(more).take(count as int) == self.best_places(count),
        decreases more,
    {
        if count < more {
            self.lemma_best_places_grow(count, (more - 1) as nat);
            assert(self.best_places(more).take(count as int) =~= self.best_places(
                (more - 1) as nat,
            ).take(count as int));
        } else if more > 0 {
            self.lemma_best_places_grow((more - 1) as nat, (more - 1) as nat);
            assert(self.best_places(more).take(count as int) =~= self.best_places(count));
        } else {
            assert(self.best_places(more).take(count as int) =~= self.best_places(count));
        }
    }

    /// In a plain text in which the query has a score, the best places reach the best score.
    pub proof fn lemma_best_places_reach(self, q: nat)
        requires
            self.plain(),
            self.consistent(),
            self.best(0, 0).0 > 0,
            q <= self.query.len(),
        ensures
            self.placed_score(self.best_places(self.query.len()), q) == self.best(
                q,
                self.place_after(self.best_places(q)),
            ).0,
        decreases self.query.len() - q,
    {
        let n = self.query.len();
        let places = self.best_places(n);
        self.lemma_best_places_grow(q, n);
        if q < n {
            let p = self.place_after(self.best_places(q));
            self.lemma_best_places_reach(q + 1);
            self.lemma_best_places_grow(q + 1, n);
            self.lemma_best_place_tried(q);
            let place = self.best(q, p).1;
            assert(self.best_places(q + 1) == self.best_places(q).push(place));
            assert(places[q as int] == places.take((q + 1) as int)[q as int]);
            assert(self.place_after(self.best_places(q + 1)) == place + 1);
        }
    }

    /// Each of the best places is the one that gives the best score.
    pub proof fn lemma_best_place_tried(self, q: nat)
        requires
            self.plain(),
            self.consistent(),
            self.best(0, 0).0 > 0,
            q < self.query.len(),
        ensures
            ({
                let p = self.place_after(self.best_places(q));
                let place = self.best(q, p).1 as nat;
                &&& p <= place <= self.limit(q)
                &&& place < self.lowercase_len()
                &&& self.matches(q, place)
                &&& self.best(q, p).0 == self.score_at(q, p, place)
                &&& self.best(q, p).0 > 0
                &&& self.best(q + 1, place + 1).0 > 0
            }),
        decreases q,
    {
        self.lemma_best_places_grow(q, q);
        if q > 0 {
            self.lemma_best_place_tried((q - 1) as nat);
            self.lemma_best_places_grow((q - 1) as nat, (q - 1) as nat);
        }
        self.lemma_best_place(q, self.place_after(self.best_places(q)));
    }

    /// In a plain text in which the query has a score, the best places are a way to place it.
    pub proof fn lemma_best_places_fit(self, count: nat)
        requires
            self.plain(),
            self.consistent(),
            self.best(0, 0).0 > 0,
            count <= self.query.len(),
        ensures
            self.best_places(count).len() == count,
            forall|i: int, j: int|
                0 <= i < j < count ==> self.best_places(count)[i] < self.best_places(count)[j],
            forall|i: int|
                0 <= i < count ==> #[trigger] self.best_places(count)[i] <= self.limit(i as nat)
                    && self.best_places(count)[i] < self.lowercase_len() && self.matches(
                    i as nat,
                    self.best_places(count)[i] as nat,
                ),
        decreases count,
    {
        if count > 0 {
            let q = (count - 1) as nat;
            self.lemma_best_places_fit(q);
            self.lemma_best_place_tried(q);
            let before = self.best_places(q);
            let places = self.best_places(count);
            let place = self.best(q, self.place_after(before)).1;
            assert(places == before.push(place));
            assert forall|i: int, j: int| 0 <= i < j < count implies places[i] < places[j] by {
                if j == q {
                    assert(before[i] <= before.last());
                }
            }
            assert forall|i: int| 0 <= i < count implies #[trigger] places[i] <= self.limit(
                i as nat,
            ) && places[i] < self.lowercase_len() && self.matches(i as nat, places[i] as nat) by {
                if i < q {
                    assert(places[i] == before[i]);
                }
            }
        }
    }

    /// How far the score of query characters `q` and onward can fall: to 2 to the power of minus
    /// this.
    pub open spec fn depth(self, q: nat) -> nat {
        (13 * (self.query.len() - q) + (if q == 0 && self.query.len() > 0 {
            64int
        } else {
            0
        })) as nat
    }

    /// Where the query has been found in a plain text, its score does not fall further than that.
    pub proof fn lemma_best_floor(self, q: nat, p: nat)
        requires
            self.ready(),
            q <= self.query.len() <= 73,
            q < self.query.len() ==> p <= self.limit(q),
        ensures
            weights::power_code(self.depth(q)) <= self.best(q, p).0,
        decreases self.query.len() - q,
    {
        weights::lemma_weight_codes();
        if q < self.query.len() {
            let k = self.limit(q);
            self.lemma_ready_limit(q);
            self.lemma_best_floor(q + 1, k + 1);
            self.lemma_plain_is_mapped();
            self.lemma_mapped_factor_range(q, p, k);
            let rest = self.best(q + 1, k + 1).0;
            let drop: nat = if q == 0 {
                77
            } else {
                13
            };
            weights::lemma_power_product(rest, self.factor(q, p, k), self.depth(q + 1), drop);
            self.lemma_best_from_reaches(q, p, p, 0, 0, k);
        }
    }

    /// All scores that the table holds are one or less.
    pub open spec fn within_one(self, table: Table) -> bool {
        forall|i: int|
            0 <= i < table.scores.len() && (#[trigger] table.scores[i]) is Some
                ==> table.scores[i]->0 <= weights::ONE
    }

    /// Without the boost the search finds no score above one, whatever its text.
    pub proof fn lemma_visit_within_one(self, q: nat, p: nat, carried: nat, table: Table)
        requires
            self.consistent(),
            !self.word_boundary_boost,
            self.within_one(table),
            self.visit(q, p, carried, table) is Some,
        ensures
            (self.visit(q, p, carried, table)->0).0 <= weights::ONE,
            self.within_one((self.visit(q, p, carried, table)->0).1),
            (self.visit(q, p, carried, table)->0).1.scores.len() == table.scores.len(),
        decreases self.query.len() - q, 1int, 0int,
    {
        weights::lemma_weight_codes();
        if q < self.query.len() && table.scores[self.cell(q, p)] is None {
            self.lemma_scan_within_one(q, p, p, carried, 0, 0, table);
        }
    }

    proof fn lemma_scan_within_one(
        self,
        q: nat,
        p: nat,
        j: nat,
        carried: nat,
        score: nat,
        place: usize,
        table: Table,
    )
        requires
            self.consistent(),
            !self.word_boundary_boost,
            self.within_one(table),
            q < self.query.len(),
            p <= j,
            forall|k: nat| p <= k < j ==> #[trigger] self.extra_before(k) <= k,
            score <= weights::ONE,
            self.scan(q, p, j, carried, score, place, table) is Some,
        ensures
            (self.scan(q, p, j, carried, score, place, table)->0).0 <= weights::ONE,
            self.within_one((self.scan(q, p, j, carried, score, place, table)->0).2),
            (self.scan(q, p, j, carried, score, place, table)->0).2.scores.len() == table.scores.len(),
        decreases self.query.len() - q, 0int, self.limit(q) + 1 - j,
    {
        weights::lemma_weight_codes();
        if j <= self.limit(q) && j < self.lowercase_len() {
            assert(self.readable(q, p, j));
            if !self.matches(q, j) {
                self.lemma_scan_within_one(q, p, j + 1, carried, score, place, table);
            } else if self.cut_off(carried, q, p, j) {
                let kept = scoring::or_next_to_nothing(score);
                self.lemma_scan_within_one(q, p, j + 1, carried, kept, place, table);
            } else {
                let next = self.carry(carried, q, p, j);
                self.lemma_visit_within_one(q + 1, j + 1, next, table);
                let (rest, after) = self.visit(q + 1, j + 1, next, table)->0;
                self.lemma_last_slash_in_text(p, j);
                self.lemma_factor_range(q, p, j);
                weights::lemma_one_units();
                binary64::lemma_units_ordered(self.factor(q, p, j), weights::ONE as nat);
                binary64::lemma_product_shrinks(rest, self.factor(q, p, j));
                let new_score = binary64::product(rest, self.factor(q, p, j));
                if new_score > score {
                    if new_score != binary64::fraction(1, 1) {
                        self.lemma_scan_within_one(
                            q,
                            p,
                            j + 1,
                            carried,
                            new_score,
                            self.regular(j) as usize,
                            after,
                        );
                    }
                } else {
                    self.lemma_scan_within_one(q, p, j + 1, carried, score, place, after);
                }
            }
        }
    }

    /// Without the boost no score exceeds the length of the query, whatever the text.
    pub proof fn lemma_total_within_length(self, size: nat)
        requires
            self.consistent(),
            !self.word_boundary_boost,
            self.query.len() <= usize::MAX,
        ensures
            self.outcome(Table::blank(size)) matches Outcome::Matched { score, .. } ==> score
                <= binary64::fraction(self.query.len(), 1),
    {
        let n = binary64::fraction(self.query.len(), 1);
        if let Outcome::Matched { score, .. } = self.outcome(Table::blank(size)) {
            self.lemma_visit_within_one(0, 0, n, Table::blank(size));
            let best = (self.visit(0, 0, n, Table::blank(size))->0).0;
            weights::lemma_integer_code(self.query.len());
            weights::lemma_one_units();
            binary64::lemma_units_ordered(best, weights::ONE as nat);
            binary64::lemma_product_shrinks(n, best);
            lemma_mul_is_commutative(binary64::units(best) as int, binary64::units(n) as int);
        }
    }
}

impl Scoring {
    /// Nothing that the search looks at is different.
    pub open spec fn alike(self, other: Scoring) -> bool {
        &&& other.query.len() == self.query.len()
        &&& other.lowercase_query == self.lowercase_query
        &&& other.last_positions == self.last_positions
        &&& other.text() == self.text()
        &&& other.lowercase_len() == self.lowercase_len()
        &&& other.extra == self.extra
        &&& other.penalize_length == self.penalize_length
        &&& other.word_boundary_boost == self.word_boundary_boost
        &&& other.min_score == self.min_score
        &&& other.separator == self.separator
        &&& other.windows == self.windows
        &&& forall|j: nat|
            j < self.lowercase_len() ==> #[trigger] other.lowercase_char(j) == self.lowercase_char(
                j,
            ) && (j < other.prefix.len() ==> j < other.lowercase_prefix.len()) == (j
                < self.prefix.len() ==> j < self.lowercase_prefix.len())
        &&& forall|q: nat, j: nat|
            q < self.query.len() && j < self.lowercase_len() ==> #[trigger] other.penalized(q, j)
                == self.penalized(q, j)
        &&& self.word_boundary_boost ==> other.filename_start() == self.filename_start()
    }

    /// Places match alike.
    proof fn lemma_alike_place(self, other: Scoring, q: nat, p: nat, j: nat)
        requires
            self.alike(other),
            q < self.query.len(),
            j < self.lowercase_len(),
        ensures
            self.regular(j) == other.regular(j),
            self.limit(q) == other.limit(q),
            self.matches(q, j) == other.matches(q, j),
            self.readable(q, p, j) == other.readable(q, p, j),
            self.factor(q, p, j) == other.factor(q, p, j),
    {
        assert(other.lowercase_char(j) == self.lowercase_char(j));
        assert(other.penalized(q, j) == self.penalized(q, j));
        assert(self.placement_weight(q, p, j) == other.placement_weight(q, p, j));
        self.lemma_alike_last_slash(other, p, j);
    }

    proof fn lemma_alike_last_slash(self, other: Scoring, p: nat, j: nat)
        requires
            self.alike(other),
            j < self.lowercase_len(),
        ensures
            self.last_slash(p, j) == other.last_slash(p, j),
        decreases j,
    {
        assert(other.lowercase_char(j) == self.lowercase_char(j));
        if j > 0 {
            self.lemma_alike_last_slash(other, p, (j - 1) as nat);
        }
    }

    /// Searches that look at the same go the same way.
    pub proof fn lemma_alike_visit(
        self,
        other: Scoring,
        q: nat,
        p: nat,
        carried: nat,
        table: Table,
    )
        requires
            self.alike(other),
        ensures
            self.visit(q, p, carried, table) == other.visit(q, p, carried, table),
        decreases self.query.len() - q, 1int, 0int,
    {
        assert(self.cell(q, p) == other.cell(q, p));
        if q < self.query.len() {
            self.lemma_alike_scan(other, q, p, p, carried, 0, 0, table);
        }
    }

    proof fn lemma_alike_scan(
        self,
        other: Scoring,
        q: nat,
        p: nat,
        j: nat,
        carried: nat,
        score: nat,
        place: usize,
        table: Table,
    )
        requires
            self.alike(other),
            q < self.query.len(),
        ensures
            self.scan(q, p, j, carried, score, place, table) == other.scan(
                q,
                p,
                j,
                carried,
                score,
                place,
                table,
            ),
        decreases self.query.len() - q, 0int, self.limit(q) + 1 - j,
    {
        assert(self.limit(q) == other.limit(q));
        if j <= self.limit(q) && j < self.lowercase_len() {
            self.lemma_alike_place(other, q, p, j);
            let next = self.carry(carried, q, p, j);
            let at = self.regular(j) as usize;
            let kept = scoring::or_next_to_nothing(score);
            if !self.matches(q, j) {
                self.lemma_alike_scan(other, q, p, j + 1, carried, score, place, table);
            } else if self.cut_off(carried, q, p, j) {
                self.lemma_alike_scan(other, q, p, j + 1, carried, kept, place, table);
            } else {
                self.lemma_alike_visit(other, q + 1, j + 1, next, table);
                if let Some((rest, after)) = self.visit(q + 1, j + 1, next, table) {
                    let new_score = binary64::product(rest, self.factor(q, p, j));
                    self.lemma_alike_scan(other, q, p, j + 1, carried, new_score, at, after);
                    self.lemma_alike_scan(other, q, p, j + 1, carried, score, place, after);
                }
            }
        }
    }

    /// What is read off a table is the same.
    proof fn lemma_alike_places(self, other: Scoring, positions: Seq<usize>, count: nat)
        requires
            self.alike(other),
        ensures
            self.matched_places(positions, count) == other.matched_places(positions, count),
        decreases count,
    {
        if count > 0 {
            self.lemma_alike_places(other, positions, (count - 1) as nat);
        }
    }

    proof fn lemma_alike_byte_position(self, other: Scoring, places: Seq<usize>, i: int)
        requires
            self.alike(other),
        ensures
            self.byte_position(places, i) == other.byte_position(places, i),
        decreases i,
    {
        if i > 0 {
            self.lemma_alike_byte_position(other, places, i - 1);
        }
    }

    proof fn lemma_alike_filename_matches(self, other: Scoring, places: Seq<usize>)
        requires
            self.filename_start() == other.filename_start(),
        ensures
            self.filename_matches(places) == other.filename_matches(places),
        decreases places.len(),
    {
        if places.len() > 0 {
            self.lemma_alike_filename_matches(other, places.drop_last());
        }
    }

    proof fn lemma_alike_word_starts(self, other: Scoring, end: nat)
        requires
            self.filename_start() == other.filename_start(),
            self.text() == other.text(),
        ensures
            self.word_starts(end) == other.word_starts(end),
        decreases end,
    {
        if end > self.filename_start() + 1 {
            self.lemma_alike_word_starts(other, (end - 1) as nat);
        }
    }

    /// What comes of searches that look at the same is the same.
    pub proof fn lemma_alike_outcome(self, other: Scoring, table: Table)
        requires
            self.alike(other),
        ensures
            self.outcome(table) == other.outcome(table),
    {
        let n = self.query.len();
        self.lemma_alike_visit(other, 0, 0, binary64::fraction(n, 1), table);
        if let Some((best, after)) = self.visit(0, 0, binary64::fraction(n, 1), table) {
            self.lemma_alike_places(other, after.positions, n);
            if let Some(places) = self.matched_places(after.positions, n) {
                assert forall|i: int| 0 <= i < places.len() implies self.byte_position(places, i)
                    == other.byte_position(places, i) by {
                    self.lemma_alike_byte_position(other, places, i);
                }
                assert(self.byte_positions(places) =~= other.byte_positions(places));
                if self.word_boundary_boost {
                    self.lemma_alike_filename_matches(other, places);
                    self.lemma_alike_word_starts(other, self.text().len());
                }
                assert(self.total(best, places) == other.total(best, places));
            }
        }
    }
}

impl Scoring {
    /// The search neither adds cells to the table nor takes any away, and leaves its score there.
    pub proof fn lemma_visit_keeps_size(self, q: nat, p: nat, carried: nat, table: Table)
        requires
            self.visit(q, p, carried, table) is Some,
        ensures
            (self.visit(q, p, carried, table)->0).1.scores.len() == table.scores.len(),
            q < self.query.len() ==> (self.visit(q, p, carried, table)->0).1.scores[self.cell(
                q,
                p,
            )] == Some((self.visit(q, p, carried, table)->0).0),
        decreases self.query.len() - q, 1int, 0int,
    {
        if q < self.query.len() && table.scores[self.cell(q, p)] is None {
            self.lemma_scan_keeps_size(q, p, p, carried, 0, 0, table);
        }
    }

    proof fn lemma_scan_keeps_size(
        self,
        q: nat,
        p: nat,
        j: nat,
        carried: nat,
        score: nat,
        place: usize,
        table: Table,
    )
        requires
            q < self.query.len(),
            self.scan(q, p, j, carried, score, place, table) is Some,
        ensures
            (self.scan(q, p, j, carried, score, place, table)->0).2.scores.len()
                == table.scores.len(),
        decreases self.query.len() - q, 0int, self.limit(q) + 1 - j,
    {
        if j <= self.limit(q) && j < self.lowercase_len() {
            if !self.matches(q, j) {
                self.lemma_scan_keeps_size(q, p, j + 1, carried, score, place, table);
            } else if self.cut_off(carried, q, p, j) {
                let kept = scoring::or_next_to_nothing(score);
                self.lemma_scan_keeps_size(q, p, j + 1, carried, kept, place, table);
            } else {
                let next = self.carry(carried, q, p, j);
                self.lemma_visit_keeps_size(q + 1, j + 1, next, table);
                let (rest, after) = self.visit(q + 1, j + 1, next, table)->0;
                let new_score = binary64::product(rest, self.factor(q, p, j));
                let at = self.regular(j) as usize;
                if new_score > score {
                    if new_score != binary64::fraction(1, 1) {
                        self.lemma_scan_keeps_size(q, p, j + 1, carried, new_score, at, after);
                    }
                } else {
                    self.lemma_scan_keeps_size(q, p, j + 1, carried, score, place, after);
                }
            }
        }
    }

    /// Where nothing is cut off it does not matter what the characters before have come to.
    pub proof fn lemma_carried_is_unused(
        self,
        q: nat,
        p: nat,
        carried: nat,
        other: nat,
        table: Table,
    )
        requires
            self.min_score == 0,
        ensures
            self.visit(q, p, carried, table) == self.visit(q, p, other, table),
    {
        if q < self.query.len() {
            self.lemma_carried_is_unused_in_scan(q, p, p, carried, other, 0, 0, table);
        }
    }

    proof fn lemma_carried_is_unused_in_scan(
        self,
        q: nat,
        p: nat,
        j: nat,
        carried: nat,
        other: nat,
        score: nat,
        place: usize,
        table: Table,
    )
        requires
            self.min_score == 0,
            q < self.query.len(),
        ensures
            self.scan(q, p, j, carried, score, place, table) == self.scan(
                q,
                p,
                j,
                other,
                score,
                place,
                table,
            ),
        decreases self.limit(q) + 1 - j,
    {
        if j <= self.limit(q) && j < self.lowercase_len() {
            if !self.matches(q, j) {
                self.lemma_carried_is_unused_in_scan(
                    q,
                    p,
                    j + 1,
                    carried,
                    other,
                    score,
                    place,
                    table,
                );
            } else {
                let next = self.carry(carried, q, p, j);
                if let Some((rest, after)) = self.visit(q + 1, j + 1, next, table) {
                    let new_score = binary64::product(rest, self.factor(q, p, j));
                    let at = self.regular(j) as usize;
                    let (kept, kept_at) = if new_score > score {
                        (new_score, at)
                    } else {
                        (score, place)
                    };
                    self.lemma_carried_is_unused_in_scan(
                        q,
                        p,
                        j + 1,
                        carried,
                        other,
                        kept,
                        kept_at,
                        after,
                    );
                }
            }
        }
    }

    /// The other search differs only in that case or length counts less.
    pub open spec fn stricter(self, other: Scoring) -> bool {
        &&& other == (Scoring {
            smart_case: other.smart_case,
            penalize_length: other.penalize_length,
            ..self
        })
        &&& other.smart_case ==> self.smart_case
        &&& other.penalize_length ==> self.penalize_length
    }

    proof fn lemma_stricter_last_slash(self, other: Scoring, p: nat, j: nat)
        requires
            self.stricter(other),
        ensures
            self.last_slash(p, j) == other.last_slash(p, j),
        decreases j,
    {
        assert(self.lowercase_char(j) == other.lowercase_char(j));
        assert(self.regular(j) == other.regular(j));
        if j > 0 {
            self.lemma_stricter_last_slash(other, p, (j - 1) as nat);
        }
    }

    /// Where case or length counts, no factor is larger for it.
    pub proof fn lemma_stricter_factor(self, other: Scoring, q: nat, p: nat, j: nat)
        requires
            self.stricter(other),
            self.mapped(),
            j < self.lowercase_len(),
        ensures
            self.factor(q, p, j) <= other.factor(q, p, j),
    {
        let weight = self.character_weight(q, p, j);
        let other_weight = other.character_weight(q, p, j);
        assert(self.placement_weight(q, p, j) == other.placement_weight(q, p, j));
        assert(other.penalized(q, j) ==> self.penalized(q, j));
        weights::lemma_weight_codes();
        self.lemma_placement_weight_range(q, p, j);
        weights::lemma_penalty_range(self.placement_weight(q, p, j));
        assert(weight <= other_weight);
        self.lemma_character_weight_range(q, p, j);
        self.lemma_stricter_last_slash(other, p, j);
        self.lemma_last_slash_in_text(p, j);
        let rest = (self.text().len() - self.last_slash(p, j)) as nat;
        let length = binary64::fraction(rest, 1);
        assert(self.text() == other.text());
        weights::lemma_integer_code(rest);
        weights::lemma_length_penalty_range(weight, length);
        binary64::lemma_quotient_ordered(weight, other_weight, length, length);
    }

    /// Where case or length counts, no best score is larger for it, unless a search ends early.
    pub proof fn lemma_stricter_best(self, other: Scoring, q: nat, p: nat)
        requires
            self.stricter(other),
            self.mapped(),
            other.exhaustive(),
        ensures
            self.best(q, p).0 <= other.best(q, p).0,
        decreases self.query.len() - q,
    {
        if q < self.query.len() {
            self.lemma_best_from_place(q, p, p, 0, 0);
            if self.best(q, p) != (0nat, 0usize) {
                let k = choose|k: nat|
                    p <= k <= self.limit(q) && k < self.lowercase_len() && self.matches(q, k)
                        && self.best_from(q, p, p, 0, 0) == (
                        #[trigger] self.score_at(q, p, k),
                        self.regular(k) as usize,
                    );
                assert(other.mapped()) by {
                    assert forall|j: nat|
                        j < other.lowercase_len() implies #[trigger] other.extra_before(j) <= j by {
                        assert(self.extra_before(j) <= j);
                    }
                }
                self.lemma_stricter_best(other, q + 1, k + 1);
                self.lemma_stricter_factor(other, q, p, k);
                other.lemma_mapped_factor_range(q, p, k);
                if q + 1 < self.query.len() {
                    other.lemma_best_in_range(q + 1, k + 1, k + 1, 0, 0);
                }
                weights::lemma_weight_codes();
                binary64::lemma_product_ordered(
                    self.best(q + 1, k + 1).0,
                    other.best(q + 1, k + 1).0,
                    self.factor(q, p, k),
                    other.factor(q, p, k),
                );
                assert(other.matches(q, k));
                other.lemma_best_from_reaches(q, p, p, 0, 0, k);
                if !other.word_boundary_boost {
                    other.lemma_score_at_most_one(q, p, k);
                }
            }
        }
    }
}

} // verus!
