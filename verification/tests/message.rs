use fuzzy_rank::message::{
    contains_query_signal, sort_matches, MessageCandidate, MessageQuery,
    PreparedMessageCandidate,
};

/// The key by which `f64::total_cmp` orders scores.
fn score_key(score: f64) -> i64 {
    let bits = score.to_bits() as i64;
    bits ^ ((((bits >> 63) as u64) >> 1) as i64)
}

fn matched_keys<'a>(query: &str, candidates: &'a [PreparedMessageCandidate<'a>]) -> Vec<&'a str> {
    let query = MessageQuery::new(query).unwrap();
    let mut matches = candidates
        .iter()
        .filter_map(|candidate| query.search_rank_prepared(candidate))
        .collect::<Vec<_>>();
    sort_matches(&mut matches);
    matches.into_iter().map(|matched| matched.key).collect()
}

fn prepare<'a>(key: &'a str, text: &'a str, score: f64) -> PreparedMessageCandidate<'a> {
    MessageCandidate { key, text, score_key: score_key(score) }.prepare()
}

#[test]
fn phrase_match_beats_non_phrase_match() {
    let candidates = [
        prepare("phrase", "word1 word2 together", 0.0),
        prepare("split", "word1 between other word2", 0.0),
    ];

    assert_eq!(
        matched_keys("word1 word2", &candidates),
        vec!["phrase", "split"]
    );
}

#[test]
fn full_coverage_beats_partial_with_more_occurrences() {
    let candidates = [
        prepare("both", "word1 word2", 0.0),
        prepare(
            "one-many",
            "word1 word1 word1 word1 word1 word1 word1 word1 word1 word1",
            0.0,
        ),
    ];

    assert_eq!(
        matched_keys("word1 word2", &candidates),
        vec!["both", "one-many"]
    );
}

#[test]
fn full_coverage_beats_partial_phrase() {
    let candidates = [
        prepare("all", "word1 far away word2 and then word3", 0.0),
        prepare("partial-phrase", "word1 word2 word1 word2", 10.0),
    ];

    assert_eq!(
        matched_keys("word1 word2 word3", &candidates),
        vec!["all", "partial-phrase"]
    );
}

#[test]
fn more_occurrences_break_ties_within_same_coverage() {
    let candidates = [
        prepare("many", "word1 word2 word1 word2", 0.0),
        prepare("few", "word1 word2", 0.0),
    ];

    assert_eq!(
        matched_keys("word1 word2", &candidates),
        vec!["many", "few"]
    );
}

#[test]
fn smaller_covering_span_beats_more_occurrences() {
    let candidates = [
        prepare(
            "frequent-scattered",
            "word1 word1 word1 many unrelated words before word2 and then word3",
            10.0,
        ),
        prepare("close", "word1 word2 word3", 0.0),
    ];

    assert_eq!(
        matched_keys("word1 word2 word3", &candidates),
        vec!["close", "frequent-scattered"]
    );
}

#[test]
fn earlier_covering_span_breaks_equal_span_ties() {
    let candidates = [
        prepare("later", "intro words word1 word2 word3", 10.0),
        prepare("earlier", "word1 word2 word3 later words", 0.0),
    ];

    assert_eq!(
        matched_keys("word1 word2 word3", &candidates),
        vec!["earlier", "later"]
    );
}

#[test]
fn more_occurrences_of_single_matched_word_break_partial_ties() {
    let candidates = [
        prepare("many-word1", "word1 word1 word1", 0.0),
        prepare("one-word1", "word1", 0.0),
    ];

    assert_eq!(
        matched_keys("word1 word2", &candidates),
        vec!["many-word1", "one-word1"]
    );
}

#[test]
fn score_breaks_remaining_ties() {
    let candidates = [
        prepare("lower", "word1 word2", 1.0),
        prepare("higher", "word1 word2", 2.0),
    ];

    assert_eq!(
        matched_keys("word1 word2", &candidates),
        vec!["higher", "lower"]
    );
}

#[test]
fn token_prefixes_count_as_term_hits() {
    let candidates = [
        prepare("full", "assistant cachyos", 0.0),
        prepare("partial", "cachyos only", 10.0),
    ];

    assert_eq!(
        matched_keys("cachyos ass", &candidates),
        vec!["full", "partial"]
    );
}

#[test]
fn prefix_phrase_match_beats_split_prefix_match() {
    let candidates = [
        prepare("phrase", "assistant cachyos", 0.0),
        prepare("split", "assistant between cachyos", 0.0),
    ];

    assert_eq!(
        matched_keys("ass cach", &candidates),
        vec!["phrase", "split"]
    );
}

#[test]
fn earlier_phrase_beats_later_phrase() {
    let candidates = [
        prepare(
            "later",
            "cachyos mentioned early before many words and then cachyos assumptions",
            10.0,
        ),
        prepare("earlier", "cachyos assumptions near the start", 0.0),
    ];

    assert_eq!(
        matched_keys("cachyos as", &candidates),
        vec!["earlier", "later"]
    );
}

#[test]
fn adjacent_query_subphrase_beats_scattered_full_coverage() {
    let candidates = [
        prepare(
            "scattered",
            "cachyos appears before a developer note about an assistant",
            10.0,
        ),
        prepare("adjacent", "cachyos ~/Dev/assistant", 0.0),
    ];

    assert_eq!(
        matched_keys("cachy /dev/assistant", &candidates),
        vec!["adjacent", "scattered"]
    );
}

#[test]
fn signal_check_is_exact_token_or_fast_substring_hit() {
    let query = MessageQuery::new("word1 word2").unwrap();
    let matching = prepare("matching", "word2 appears here", 0.0);
    let partial = prepare("partial", "this contains word1x only", 0.0);

    assert!(contains_query_signal(&query, &matching));
    assert!(contains_query_signal(&query, &partial));
}

#[test]
fn queries_are_lowercased_split_and_deduplicated() {
    assert_eq!(MessageQuery::new("Foo, foo BAR!"), MessageQuery::new("foo bar"));
    assert_ne!(MessageQuery::new("foo bar"), MessageQuery::new("bar foo"));
    assert_eq!(MessageQuery::new("  -- ~/ "), None);
    assert_eq!(MessageQuery::new(""), None);
    assert_eq!(MessageQuery::from_lowered("foo bar"), MessageQuery::new("FOO bar"));
}

#[test]
fn match_statistics_of_a_message() {
    let query = MessageQuery::new("word1 word2").unwrap();
    let candidate = MessageCandidate {
        key: "k",
        text: "x word1 word2 y word1 word2x",
        score_key: score_key(1.5),
    };
    let found = query.search_rank(candidate).unwrap();
    assert_eq!(found.key, "k");
    assert_eq!(found.text, "x word1 word2 y word1 word2x");
    assert_eq!(found.score_key, score_key(1.5));
    assert_eq!(found.matched_terms, 2);
    assert_eq!(found.total_occurrences, 4);
    assert_eq!(found.phrase_occurrences, 2);
    assert_eq!(found.phrase_position, Some(1));
    assert_eq!(found.adjacent_run_len, 2);
    assert_eq!(found.adjacent_run_position, Some(1));
    assert_eq!(found.covering_span_len, Some(2));
    assert_eq!(found.covering_span_position, Some(1));
}

#[test]
fn partial_match_statistics() {
    let query = MessageQuery::new("alpha beta gamma").unwrap();
    let candidate = MessageCandidate { key: "k", text: "gamma delta alpha", score_key: 0 };
    let found = query.search_rank(candidate).unwrap();
    assert_eq!(found.matched_terms, 2);
    assert_eq!(found.total_occurrences, 2);
    assert_eq!(found.phrase_occurrences, 0);
    assert_eq!(found.phrase_position, None);
    assert_eq!(found.adjacent_run_len, 0);
    assert_eq!(found.adjacent_run_position, None);
    assert_eq!(found.covering_span_len, None);
    assert_eq!(found.covering_span_position, None);
}

#[test]
fn shortest_then_first_covering_span() {
    let query = MessageQuery::new("a b").unwrap();
    let candidate = MessageCandidate { key: "k", text: "a x b a b", score_key: 0 };
    let found = query.search_rank(candidate).unwrap();
    assert_eq!(found.covering_span_len, Some(2));
    assert_eq!(found.covering_span_position, Some(2));
    // "b a" at 2 is covered before "a b" at 3; the phrase "a b" is at 3.
    assert_eq!(found.phrase_position, Some(3));
    assert_eq!(found.adjacent_run_position, Some(3));
}

#[test]
fn messages_without_a_hit_do_not_match() {
    let query = MessageQuery::new("zebra").unwrap();
    let missing = MessageCandidate { key: "k", text: "horse pony", score_key: 0 };
    assert!(query.search_rank(missing).is_none());
    let empty = MessageCandidate { key: "k", text: "", score_key: 0 };
    assert!(query.search_rank(empty).is_none());
}

#[test]
fn signal_check_fails_without_any_hit() {
    let query = MessageQuery::new("word1 word2").unwrap();
    let unrelated = prepare("unrelated", "nothing to see", 0.0);
    assert!(!contains_query_signal(&query, &unrelated));
    let inside = prepare("inside", "xxword1yy", 0.0);
    assert!(contains_query_signal(&query, &inside));
}

#[test]
fn sorting_keeps_every_match() {
    let candidates = [
        prepare("b", "word1", 0.0),
        prepare("a", "word1", 0.0),
        prepare("c", "word1 word2", 0.0),
    ];
    assert_eq!(matched_keys("word1 word2", &candidates), vec!["c", "a", "b"]);
}

#[test]
fn sorting_is_stable_for_tied_matches() {
    let query = MessageQuery::new("word1").unwrap();
    let first = MessageCandidate { key: "same", text: "word1 first", score_key: 0 };
    let second = MessageCandidate { key: "same", text: "word1 second", score_key: 0 };
    let better = MessageCandidate { key: "b", text: "word1 word1", score_key: 0 };
    let mut matches = vec![
        query.search_rank(first).unwrap(),
        query.search_rank(second).unwrap(),
        query.search_rank(better).unwrap(),
    ];
    sort_matches(&mut matches);
    let texts: Vec<&str> = matches.iter().map(|m| m.text).collect();
    assert_eq!(texts, vec!["word1 word1", "word1 first", "word1 second"]);
}

#[test]
fn every_match_passes_the_signal_check() {
    let query = MessageQuery::new("cach ass").unwrap();
    for text in ["assistant cachyos", "cachyos only", "an assistant"] {
        let prepared = prepare("k", text, 0.0);
        assert!(query.search_rank_prepared(&prepared).is_some());
        assert!(contains_query_signal(&query, &prepared));
    }
}

#[test]
fn cloned_queries_and_candidates_rank_alike() {
    let query = MessageQuery::new("word1 word2").unwrap();
    let copy = query.clone();
    assert_eq!(copy, query);
    let prepared = prepare("k", "word1 word2", 0.5);
    let prepared_copy = prepared.clone();
    let a = copy.search_rank_prepared(&prepared_copy).unwrap();
    let b = query.search_rank_prepared(&prepared).unwrap();
    assert_eq!((a.key, a.total_occurrences, a.phrase_position), (b.key, b.total_occurrences, b.phrase_position));
    assert!(contains_query_signal(&copy, &prepared_copy));
}
