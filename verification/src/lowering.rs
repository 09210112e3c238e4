//! The lowercase form of a text, and how its positions relate to those of the text.
use vstd::prelude::*;
use std::collections::BTreeMap;
use crate::characters;

verus! {

/// The lowercase mappings of all characters of a text, one after the other.
pub open spec fn lowercase_text(text: Seq<char>) -> Seq<char>
    decreases text.len(),
{
    if text.len() == 0 {
        Seq::empty()
    } else {
        lowercase_text(text.drop_last()) + characters::lowercase_mapping(text.last())
    }
}

/// For each character of a text whose lowercase mapping holds more than one character: how many
/// more.
pub open spec fn extra_widths(text: Seq<char>) -> Map<usize, usize> {
    Map::new(
        |i: usize| i < text.len() && characters::lowercase_mapping(text[i as int]).len() > 1,
        |i: usize| (characters::lowercase_mapping(text[i as int]).len() - 1) as usize,
    )
}

/// The lowercase form of two texts put together.
pub proof fn lemma_lowercase_adds(a: Seq<char>, b: Seq<char>)
    ensures
        lowercase_text(a + b) == lowercase_text(a) + lowercase_text(b),
    decreases b.len(),
{
    if b.len() == 0 {
        assert(a + b =~= a);
        assert(lowercase_text(a) + lowercase_text(b) =~= lowercase_text(a));
    } else {
        lemma_lowercase_adds(a, b.drop_last());
        assert((a + b).drop_last() =~= a + b.drop_last());
        assert(lowercase_text(a + b) =~= lowercase_text(a) + lowercase_text(b));
    }
}

/// The sum of the values of all keys below `end`.
pub open spec fn extra_before(extra: Map<usize, usize>, end: nat) -> nat
    decreases end,
{
    if end == 0 {
        0
    } else {
        let rest = extra_before(extra, (end - 1) as nat);
        if extra.contains_key((end - 1) as usize) {
            rest + extra[(end - 1) as usize] as nat
        } else {
            rest
        }
    }
}

/// Where no key lies between two bounds both have the same sum below them.
pub proof fn lemma_extra_gap(extra: Map<usize, usize>, from: nat, to: nat)
    requires
        from <= to <= usize::MAX,
        forall|k: usize| from <= k < to ==> !extra.contains_key(k),
    ensures
        extra_before(extra, from) == extra_before(extra, to),
    decreases to - from,
{
    if from < to {
        lemma_extra_gap(extra, from, (to - 1) as nat);
        assert(!extra.contains_key((to - 1) as usize));
    }
}

/// The sum grows with the bound.
pub proof fn lemma_extra_grows(extra: Map<usize, usize>, from: nat, to: nat)
    requires
        from <= to,
    ensures
        extra_before(extra, from) <= extra_before(extra, to),
    decreases to - from,
{
    if from < to {
        lemma_extra_grows(extra, from, (to - 1) as nat);
    }
}

/// Maps that agree below a bound have the same sum below it.
pub proof fn lemma_extra_agrees(a: Map<usize, usize>, b: Map<usize, usize>, end: nat)
    requires
        end <= usize::MAX,
        forall|k: usize| k < end ==> a.contains_key(k) == b.contains_key(k),
        forall|k: usize| k < end && a.contains_key(k) ==> a[k] == b[k],
    ensures
        extra_before(a, end) == extra_before(b, end),
    decreases end,
{
    if end > 0 {
        lemma_extra_agrees(a, b, (end - 1) as nat);
    }
}

/// What the order in which a map hands out its keys means for integers.
proof fn lemma_keys_increase(keys: Seq<usize>)
    requires
        vstd::std_specs::btree::increasing_seq(keys),
    ensures
        forall|i: int, j: int| 0 <= i < j < keys.len() ==> keys[i] < keys[j],
{
    broadcast use vstd::std_specs::btree::group_btree_axioms;
    broadcast use vstd::laws_cmp::group_laws_cmp;

    assert forall|i: int, j: int| 0 <= i < j < keys.len() implies keys[i] < keys[j] by {
        assert(vstd::std_specs::cmp::OrdSpec::cmp_spec(&keys[i], &keys[j]) is Less);
    }
}

/// The sum of the values of all keys below `end`.
pub fn sum_before(extra: &BTreeMap<usize, usize>, end: usize) -> (total: usize)
    requires
        extra_before(extra@, end as nat) <= usize::MAX,
    ensures
        total == extra_before(extra@, end as nat),
{
    broadcast use vstd::std_specs::btree::group_btree_axioms;

    let mut total: usize = 0;
    // All keys below this one have been counted.
    let ghost mut counted: nat = 0;
    let iter = extra.iter();
    let ghost pairs = vstd::std_specs::iter::IteratorSpec::remaining(&iter);
    assert forall|i: int, j: int| 0 <= i < j < pairs.len() implies *(#[trigger] pairs[i]).0 < *(
    #[trigger] pairs[j]).0 by {
        let keys = pairs.map_values(|pair: (&usize, &usize)| *pair.0);
        lemma_keys_increase(keys);
        assert(keys[i] == *pairs[i].0);
        assert(keys[j] == *pairs[j].0);
    }
    for entry in entries: iter
        invariant
            extra_before(extra@, end as nat) <= usize::MAX,
            forall|i: int|
                0 <= i < entries.seq().len() ==> extra@.contains_key(*(#[trigger] entries.seq()[i]).0)
                    && extra@[*entries.seq()[i].0] == *entries.seq()[i].1,
            forall|i: int, j: int|
                0 <= i < j < entries.seq().len() ==> *(#[trigger] entries.seq()[i]).0 < *(
                #[trigger] entries.seq()[j]).0,
            forall|k: usize| #[trigger]
                extra@.contains_key(k) ==> k < counted || exists|i: int|
                    entries.index() <= i < entries.seq().len() && *(#[trigger] entries.seq()[i]).0
                        == k,
            forall|i: int|
                entries.index() <= i < entries.seq().len() ==> counted <= *(
                #[trigger] entries.seq()[i]).0,
            counted <= end,
            total == extra_before(extra@, counted),
    {
        let (at, width) = entry;
        assert(entries.seq()[entries.index()] == entry);
        assert forall|k: usize| counted <= k < *at implies !extra@.contains_key(k) by {
            if extra@.contains_key(k) {
                let i = choose|i: int|
                    entries.index() <= i < entries.seq().len() && *(#[trigger] entries.seq()[i]).0
                        == k;
            }
        }
        if *at >= end {
            proof {
                lemma_extra_gap(extra@, counted, end as nat);
            }
            return total;
        }
        proof {
            lemma_extra_gap(extra@, counted, *at as nat);
            lemma_extra_grows(extra@, (*at + 1) as nat, end as nat);
            counted = (*at + 1) as nat;
        }
        total = total + *width;
    }
    proof {
        lemma_extra_gap(extra@, counted, end as nat);
    }
    total
}

/// A text is as much longer in lowercase as its characters are.
pub proof fn lemma_lowercase_length(text: Seq<char>)
    requires
        lowercase_text(text).len() <= usize::MAX,
        text.len() <= usize::MAX,
        forall|i: int|
            0 <= i < text.len() ==> (#[trigger] characters::lowercase_mapping(text[i])).len() >= 1,
    ensures
        lowercase_text(text).len() == text.len() + extra_before(extra_widths(text), text.len()),
    decreases text.len(),
{
    if text.len() > 0 {
        let rest = text.drop_last();
        let last = (text.len() - 1) as usize;
        assert forall|i: int| 0 <= i < rest.len() implies (#[trigger] characters::lowercase_mapping(
            rest[i],
        )).len() >= 1 by {
            assert(rest[i] == text[i]);
        }
        lemma_lowercase_length(rest);
        lemma_extra_agrees(extra_widths(rest), extra_widths(text), rest.len());
        assert(characters::lowercase_mapping(text[last as int]).len() >= 1);
    }
}

/// A text in its two forms.
pub struct LoweredText {
    /// The characters of the text.
    pub chars: Vec<char>,
    /// The characters of its lowercase form.
    pub lowercase_chars: Vec<char>,
    /// For each character that is longer in lowercase: how many characters longer.
    pub extra: BTreeMap<usize, usize>,
}

impl LoweredText {
    /// The lowercase form is as much longer as the characters are.
    pub open spec fn wf(&self) -> bool {
        &&& forall|i: usize| #[trigger] self.extra@.contains_key(i) ==> i < self.chars@.len()
        &&& self.lowercase_chars@.len() == self.chars@.len() + extra_before(
            self.extra@,
            self.chars@.len(),
        )
    }
}

/// Takes a text apart into characters and lowers each of them.
pub fn lower(text: &str) -> (lowered: LoweredText)
    ensures
        lowered.wf(),
        lowered.chars@ == text@,
        lowered.lowercase_chars@ == lowercase_text(text@),
        lowered.extra@ == extra_widths(text@),
{
    let mut chars: Vec<char> = Vec::new();
    let mut lowercase_chars: Vec<char> = Vec::new();
    let mut extra: BTreeMap<usize, usize> = BTreeMap::new();
    for c in all: text.chars()
        invariant
            all.seq() == text@,
            chars@ == text@.take(all.index()),
            lowercase_chars@ == lowercase_text(chars@),
            extra@ == extra_widths(chars@),
            forall|i: int|
                0 <= i < chars@.len() ==> (#[trigger] characters::lowercase_mapping(
                    chars@[i],
                )).len() >= 1,
    {
        let mut mapped: Vec<char> = characters::to_lowercase(c);
        if mapped.len() > 1 {
            extra.insert(chars.len(), mapped.len() - 1);
        }
        lowercase_chars.append(&mut mapped);
        chars.push(c);
        assert(chars@.drop_last() =~= text@.take(all.index()));
    }
    proof {
        assert(chars@ =~= text@);
        assert(lowercase_chars.len() == lowercase_chars@.len());
        assert(chars.len() == chars@.len());
        lemma_lowercase_length(text@);
    }
    LoweredText { chars, lowercase_chars, extra }
}

} // verus!
