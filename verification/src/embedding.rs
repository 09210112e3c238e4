//! Where the characters of a word occur, in order, in a text.
use vstd::prelude::*;

verus! {

/// `positions` leads from the characters of `word`, in order, to equal characters of `text`.
pub open spec fn embeds(text: Seq<char>, word: Seq<char>, positions: Seq<usize>) -> bool {
    &&& positions.len() == word.len()
    &&& forall|i: int, j: int| 0 <= i < j < positions.len() ==> positions[i] < positions[j]
    &&& forall|i: int|
        0 <= i < positions.len() ==> #[trigger] positions[i] < text.len() && text[positions[i] as int]
            == word[i]
}

/// The characters of `word` occur in `text` in the same order.
pub open spec fn is_subsequence(text: Seq<char>, word: Seq<char>) -> bool {
    exists|positions: Seq<usize>| embeds(text, word, positions)
}

/// Among all ways to find `word` in `text`, `positions` puts every character as late as any of
/// them does.
pub open spec fn latest_embedding(text: Seq<char>, word: Seq<char>, positions: Seq<usize>) -> bool {
    &&& embeds(text, word, positions)
    &&& forall|other: Seq<usize>, i: int|
        #![trigger embeds(text, word, other), other[i]]
        embeds(text, word, other) && 0 <= i < positions.len() ==> other[i] <= positions[i]
}

/// The latest embedding, where there is one.
pub open spec fn latest(text: Seq<char>, word: Seq<char>) -> Seq<usize> {
    choose|positions: Seq<usize>| latest_embedding(text, word, positions)
}

/// What a search from the end leaves behind: the positions of all characters from `settled` on
/// are the latest ones, the others are as they were before.
pub open spec fn searched_back_to(
    text: Seq<char>,
    word: Seq<char>,
    before: Seq<usize>,
    after: Seq<usize>,
    settled: int,
) -> bool {
    &&& 0 <= settled <= word.len()
    &&& before.len() == word.len()
    &&& after.len() == word.len()
    &&& latest_embedding(text, word.skip(settled), after.skip(settled))
    &&& forall|i: int| 0 <= i < settled ==> after[i] == before[i]
}

/// What a search from the end leaves behind that has come to a character that is not there.
pub open spec fn gave_up(
    text: Seq<char>,
    word: Seq<char>,
    before: Seq<usize>,
    after: Seq<usize>,
) -> bool {
    exists|settled: int|
        0 < settled && #[trigger] searched_back_to(text, word, before, after, settled)
            && !is_subsequence(text, word.skip(settled - 1))
}

/// The tail of a subsequence is a subsequence.
pub proof fn lemma_subsequence_tail(text: Seq<char>, word: Seq<char>, from: int)
    requires
        is_subsequence(text, word),
        0 <= from <= word.len(),
    ensures
        is_subsequence(text, word.skip(from)),
{
    let positions = choose|positions: Seq<usize>| embeds(text, word, positions);
    let tail = positions.skip(from);
    assert forall|i: int| 0 <= i < tail.len() implies #[trigger] tail[i] < text.len()
        && text[tail[i] as int] == word.skip(from)[i] by {
        assert(tail[i] == positions[from + i]);
    }
    assert(embeds(text, word.skip(from), tail));
}

/// A word that is found in a text is no longer than the text.
pub proof fn lemma_embedding_is_short(text: Seq<char>, word: Seq<char>, positions: Seq<usize>)
    requires
        embeds(text, word, positions),
    ensures
        word.len() <= text.len(),
    decreases word.len(),
{
    if word.len() > 0 {
        let last = positions.last() as int;
        assert(last < text.len());
        let head = positions.drop_last();
        assert(embeds(text.take(last), word.drop_last(), head)) by {
            assert forall|i: int| 0 <= i < head.len() implies #[trigger] head[i] < text.take(
                last,
            ).len() && text.take(last)[head[i] as int] == word.drop_last()[i] by {
                assert(head[i] == positions[i]);
                assert(positions[i] < positions[positions.len() - 1]);
            }
        }
        lemma_embedding_is_short(text.take(last), word.drop_last(), head);
    }
}

/// Two latest embeddings are the same.
pub proof fn lemma_latest_is_unique(text: Seq<char>, word: Seq<char>, a: Seq<usize>, b: Seq<usize>)
    requires
        latest_embedding(text, word, a),
        latest_embedding(text, word, b),
    ensures
        a == b,
{
    assert forall|i: int| 0 <= i < a.len() implies a[i] == b[i] by {
        assert(b[i] <= a[i]);
        assert(a[i] <= b[i]);
    }
    assert(a =~= b);
}

/// A latest embedding is the one that `latest` gives.
pub proof fn lemma_latest(text: Seq<char>, word: Seq<char>, positions: Seq<usize>)
    requires
        latest_embedding(text, word, positions),
    ensures
        latest(text, word) == positions,
{
    lemma_latest_is_unique(text, word, latest(text, word), positions);
}

/// Where a word is found at all, it is found latest.
pub proof fn lemma_latest_exists(text: Seq<char>, word: Seq<char>)
    requires
        is_subsequence(text, word),
        text.len() <= usize::MAX,
    ensures
        latest_embedding(text, word, latest(text, word)),
{
    let positions = lemma_latest_tail(text, word, 0);
    assert(word.skip(0) =~= word);
    assert(latest_embedding(text, word, positions));
}

/// The latest embedding of the tail of a word.
proof fn lemma_latest_tail(text: Seq<char>, word: Seq<char>, from: int) -> (positions: Seq<usize>)
    requires
        is_subsequence(text, word),
        text.len() <= usize::MAX,
        0 <= from <= word.len(),
    ensures
        latest_embedding(text, word.skip(from), positions),
    decreases word.len() - from,
{
    if from == word.len() {
        let none = Seq::<usize>::empty();
        assert(embeds(text, word.skip(from), none));
        none
    } else {
        let rest = lemma_latest_tail(text, word, from + 1);
        let bound = if from + 1 < word.len() {
            rest[0] as int
        } else {
            text.len() as int
        };
        lemma_subsequence_tail(text, word, from);
        let other = choose|other: Seq<usize>| embeds(text, word.skip(from), other);
        lemma_tail_embeds(text, word, from + 1, other);
        assert(other[0] < text.len() && text[other[0] as int] == word.skip(from)[0]);
        if from + 1 < word.len() {
            assert(other.skip(1)[0] == other[1]);
            assert(other.skip(1)[0] <= rest[0]);
            assert(rest[0] < text.len());
        }
        let at = lemma_last_occurrence(text, word[from], bound, other[0]);
        let blank = Seq::new(from as nat, |i: int| 0usize);
        let after = blank + seq![at] + rest;
        assert(after.skip(from + 1) =~= rest);
        lemma_search_step(text, word, after, from + 1, bound, at);
        after.skip(from)
    }
}

/// The last occurrence of a character before a bound.
proof fn lemma_last_occurrence(text: Seq<char>, c: char, bound: int, some: usize) -> (at: usize)
    requires
        some < bound <= text.len() <= usize::MAX,
        text[some as int] == c,
    ensures
        at < bound,
        text[at as int] == c,
        forall|i: int| at < i < bound ==> text[i] != c,
    decreases bound,
{
    if text[bound - 1] == c {
        (bound - 1) as usize
    } else {
        lemma_last_occurrence(text, c, bound - 1, some)
    }
}

/// The last occurrence of a character among the first `end` ones.
fn rposition(chars: &[char], end: usize, wanted: char) -> (found: Option<usize>)
    requires
        end <= chars@.len(),
    ensures
        match found {
            Some(at) => at < end && chars@[at as int] == wanted && forall|i: int|
                at < i < end ==> chars@[i] != wanted,
            None => forall|i: int| 0 <= i < end ==> chars@[i] != wanted,
        },
{
    let mut i: usize = end;
    while i > 0
        invariant
            i <= end <= chars@.len(),
            forall|k: int| i <= k < end ==> chars@[k] != wanted,
        decreases i,
    {
        i = i - 1;
        if chars[i] == wanted {
            return Some(i);
        }
    }
    None
}

/// One step of the search from the end: `at` is the last occurrence of the character before those
/// that have been settled.
proof fn lemma_search_step(
    text: Seq<char>,
    word: Seq<char>,
    after: Seq<usize>,
    settled: int,
    bound: int,
    at: usize,
)
    requires
        0 < settled <= word.len(),
        after.len() == word.len(),
        latest_embedding(text, word.skip(settled), after.skip(settled)),
        bound == if settled < word.len() { after[settled] as int } else { text.len() as int },
        at < bound,
        text[at as int] == word[settled - 1],
        after[settled - 1] == at,
        forall|i: int| at < i < bound ==> text[i] != word[settled - 1],
    ensures
        latest_embedding(text, word.skip(settled - 1), after.skip(settled - 1)),
{
    let tail = word.skip(settled);
    let old_positions = after.skip(settled);
    let word1 = word.skip(settled - 1);
    let positions = after.skip(settled - 1);
    if settled < word.len() {
        assert(old_positions[0] == after[settled]);
    }
    assert forall|i: int, j: int| 0 <= i < j < positions.len() implies positions[i]
        < positions[j] by {
        assert(positions[j] == old_positions[j - 1]);
        if i == 0 {
            assert(old_positions[0] <= old_positions[j - 1]);
        } else {
            assert(positions[i] == old_positions[i - 1]);
        }
    }
    assert forall|i: int| 0 <= i < positions.len() implies #[trigger] positions[i] < text.len()
        && text[positions[i] as int] == word1[i] by {
        if i > 0 {
            assert(positions[i] == old_positions[i - 1]);
            assert(word1[i] == tail[i - 1]);
        } else if settled < word.len() {
            assert(old_positions[0] < text.len());
        }
    }
    assert(embeds(text, word1, positions));
    assert forall|other: Seq<usize>, i: int|
        #![trigger embeds(text, word1, other), other[i]]
        embeds(text, word1, other) && 0 <= i < positions.len() implies other[i] <= positions[i] by {
        lemma_tail_embeds(text, word, settled, other);
        let rest = other.skip(1);
        if i > 0 {
            assert(rest[i - 1] == other[i]);
            assert(rest[i - 1] <= old_positions[i - 1]);
        } else {
            if settled < word.len() {
                assert(rest[0] == other[1]);
                assert(rest[0] <= old_positions[0]);
            }
            assert(other[0] < text.len() && text[other[0] as int] == word1[0]);
            assert(other[0] < bound);
        }
    }
}

/// Leaving the first character out of an embedding.
proof fn lemma_tail_embeds(text: Seq<char>, word: Seq<char>, settled: int, other: Seq<usize>)
    requires
        0 < settled <= word.len(),
        embeds(text, word.skip(settled - 1), other),
    ensures
        embeds(text, word.skip(settled), other.skip(1)),
{
    let rest = other.skip(1);
    let tail = word.skip(settled);
    assert forall|i: int| 0 <= i < rest.len() implies #[trigger] rest[i] < text.len()
        && text[rest[i] as int] == tail[i] by {
        assert(rest[i] == other[i + 1]);
        assert(tail[i] == word.skip(settled - 1)[i + 1]);
    }
}

/// Where the next character does not occur early enough, the tail is not in the text.
proof fn lemma_search_fails(
    text: Seq<char>,
    word: Seq<char>,
    after: Seq<usize>,
    settled: int,
    bound: int,
)
    requires
        0 < settled <= word.len(),
        after.len() == word.len(),
        latest_embedding(text, word.skip(settled), after.skip(settled)),
        bound == if settled < word.len() { after[settled] as int } else { text.len() as int },
        forall|i: int| 0 <= i < bound ==> text[i] != word[settled - 1],
    ensures
        !is_subsequence(text, word.skip(settled - 1)),
        !is_subsequence(text, word),
{
    let word1 = word.skip(settled - 1);
    if is_subsequence(text, word1) {
        let other = choose|positions: Seq<usize>| embeds(text, word1, positions);
        lemma_tail_embeds(text, word, settled, other);
        let rest = other.skip(1);
        assert(other[0] < text.len() && text[other[0] as int] == word1[0]);
        if settled < word.len() {
            assert(rest[0] == other[1]);
            assert(rest[0] <= after.skip(settled)[0]);
        }
        assert(false);
    }
    if is_subsequence(text, word) {
        lemma_subsequence_tail(text, word, settled - 1);
    }
}

/// Finds the word in the text that the prefix and the candidate make up, each character as late
/// as possible, and writes down where. Answers whether it is there at all.
pub fn find_latest(
    word: &[char],
    prefix: &[char],
    candidate: &[char],
    positions: &mut Vec<usize>,
) -> (found: bool)
    requires
        old(positions)@.len() == word@.len(),
        prefix@.len() + candidate@.len() <= usize::MAX,
    ensures
        found == is_subsequence(prefix@ + candidate@, word@),
        found ==> latest_embedding(prefix@ + candidate@, word@, final(positions)@),
        !found ==> gave_up(prefix@ + candidate@, word@, old(positions)@, final(positions)@),
{
    let ghost text = prefix@ + candidate@;
    let ghost before = positions@;
    let mut candidate_end: usize = candidate.len();
    let mut prefix_end: usize = prefix.len();
    let mut i: usize = word.len();
    proof {
        assert(embeds(text, word@.skip(i as int), before.skip(i as int)));
    }
    while i > 0
        invariant
            before == old(positions)@,
            text == prefix@ + candidate@,
            text.len() <= usize::MAX,
            candidate_end <= candidate@.len(),
            prefix_end <= prefix@.len(),
            candidate_end > 0 ==> prefix_end == prefix@.len(),
            i <= word@.len(),
            positions@.len() == word@.len(),
            searched_back_to(text, word@, before, positions@, i as int),
            i < word@.len() ==> positions@[i as int] == if candidate_end > 0 {
                prefix@.len() + candidate_end
            } else {
                prefix_end as int
            },
            i == word@.len() ==> text.len() == if candidate_end > 0 {
                prefix@.len() + candidate_end
            } else {
                prefix_end as int
            },
        decreases i,
    {
        let ghost bound: int = if candidate_end > 0 {
            prefix@.len() + candidate_end
        } else {
            prefix_end as int
        };
        let ghost settled = i as int;
        let ghost earlier = positions@;
        let wanted: char = word[i - 1];
        let place: usize;
        match rposition(candidate, candidate_end, wanted) {
            Some(at) => {
                place = at + prefix.len();
                candidate_end = at;
                proof {
                    assert(text[place as int] == candidate@[at as int]);
                    assert forall|k: int| place < k < bound implies text[k] != wanted by {
                        assert(text[k] == candidate@[k - prefix@.len()]);
                    }
                }
            },
            None => {
                proof {
                    assert forall|k: int| prefix@.len() <= k < bound implies text[k] != wanted by {
                        assert(text[k] == candidate@[k - prefix@.len()]);
                    }
                }
                candidate_end = 0;
                match rposition(prefix, prefix_end, wanted) {
                    Some(at) => {
                        place = at;
                        prefix_end = at;
                        proof {
                            assert forall|k: int| place < k < bound implies text[k] != wanted by {
                                if k < prefix@.len() {
                                    assert(text[k] == prefix@[k]);
                                }
                            }
                        }
                    },
                    None => {
                        proof {
                            assert forall|k: int| 0 <= k < bound implies text[k] != wanted by {
                                if k < prefix@.len() {
                                    assert(text[k] == prefix@[k]);
                                }
                            }
                            lemma_search_fails(text, word@, positions@, settled, bound);
                            assert(searched_back_to(text, word@, before, positions@, settled));
                        }
                        return false;
                    },
                }
            },
        }
        positions.set(i - 1, place);
        proof {
            assert(positions@.skip(settled) =~= earlier.skip(settled));
            lemma_search_step(text, word@, positions@, settled, bound, place);
        }
        i = i - 1;
    }
    proof {
        assert(word@.skip(0) =~= word@);
        assert(positions@.skip(0) =~= positions@);
    }
    true
}

} // verus!
