# fuzzy

Fuzzy matching of a query against candidate strings, such as the paths of a project, written and
proved in Verus.

A query matches a candidate whose text holds the characters of the query in their order. Every
character is given a factor that says how well it is placed: best right after the character before
it, else by what stands in front of it, or by how far away it is. A difference in case, and a long
text, can count against a match, and the beginnings of words can count for it. The score is the
best product of factors that the search finds, times the length of the query, and boosted where
the query follows the words of the last path component. The search tries all places, but ends
where it comes to a product of exactly one; only with the boost can something better lie ahead. A
match comes with the byte positions of its characters.

## Layout

- `src/binary64.rs`: the numbers that scores are made of: IEEE 754 binary64, rounded to nearest
  with ties to even, on integers.
- `src/characters.rs`: what is asked of single characters. The few items that rest on the standard
  library's tables are here.
- `src/lowering.rs`: a text in lowercase, and how much longer its characters are there.
- `src/embedding.rs`: where the characters of a word occur, in order, in a text.
- `src/weights.rs`: the weights of placements and their ranges.
- `src/scoring.rs`: what the score of a candidate is.
- `src/search.rs`: what the search for the best placement comes to.
- `src/matcher.rs`: `Matcher` and the trait `MatchCandidate`.
- `src/laws.rs`: what holds of matching as a whole.
- `app/`: the same matcher for callers that want candidates from any iterator and scores as `f64`.
