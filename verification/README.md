# fuzzy_rank

Typo-tolerant matching and ranking of search results, verified with Verus.

- `src/edit.rs`: keyboard-aware substitution costs and a banded
  Damerau-Levenshtein (optimal string alignment) distance with an operation
  profile as tie-break, proved equal to the exact alignment cost up to the limit.
- `src/text.rs`: lowercasing and splitting text into search tokens.
- `src/message.rs`: message queries, match statistics (phrases, adjacent runs,
  covering spans, occurrences), the signal pre-check and a stable sort of matches.
- `src/ranking.rs`: the orders of ranks, search results and typo sort keys.
- `src/order.rs`: integer, boolean and string orders shared by the comparators.
- `app/lib.rs`: the forms that take scores as `f64`; scores enter the library
  as integer keys that order them as `f64::total_cmp` does.
