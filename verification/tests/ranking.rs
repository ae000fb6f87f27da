use std::cmp::Ordering;

use fuzzy_rank::edit::OperationProfile;
use fuzzy_rank::ranking::{
    compare_path_typo_sort_keys, compare_search_results, compare_typo_sort_keys,
    path_typo_keys_are_ambiguous, ratio_milli, typo_keys_are_ambiguous, AbbreviationRank,
    DistanceRank, MatchProvenance, PathTypoSortKey, SearchRank, StructuralRank, TypoSortKey,
};

fn score_key(score: f64) -> i64 {
    let bits = score.to_bits() as i64;
    bits ^ ((((bits >> 63) as u64) >> 1) as i64)
}

fn structural(field_priority: u8, start_idx: usize, matched_char_len: usize) -> StructuralRank {
    StructuralRank {
        field_priority,
        position_class: 0,
        token_index: 0,
        token_span_delta: 0,
        start_idx,
        matched_char_len,
        field_len: 10,
    }
}

fn distance(distance: usize, variant_scope: u8) -> DistanceRank {
    DistanceRank {
        distance,
        ratio_milli: 100,
        keyboard_distance: 0,
        field_priority: 1,
        variant_scope,
        position_class: 0,
        token_index: 2,
        token_span_delta: 0,
        start_idx: 3,
        matched_char_len: 4,
        field_len: 5,
    }
}

fn abbreviation(gap_span: usize) -> AbbreviationRank {
    AbbreviationRank {
        field_priority: 0,
        variant_scope: 1,
        position_class: 0,
        token_index: 0,
        gap_span,
        gap_count: 0,
        start_idx: 0,
        matched_char_len: 3,
        field_len: 7,
    }
}

#[test]
fn structural_ranks_compare_field_by_field() {
    assert_eq!(structural(0, 5, 1).cmp(&structural(1, 0, 1)), Ordering::Less);
    assert_eq!(structural(1, 2, 1).cmp(&structural(1, 1, 1)), Ordering::Greater);
    // The matched length plays no part.
    assert_eq!(structural(1, 1, 1).cmp(&structural(1, 1, 9)), Ordering::Equal);
}

#[test]
fn distance_and_abbreviation_ranks_compare_field_by_field() {
    assert_eq!(distance(1, 9).cmp(&distance(2, 0)), Ordering::Less);
    assert_eq!(distance(1, 3).cmp(&distance(1, 2)), Ordering::Greater);
    assert_eq!(abbreviation(1).cmp(&abbreviation(2)), Ordering::Less);
    assert_eq!(abbreviation(2).cmp(&abbreviation(2)), Ordering::Equal);
}

#[test]
fn search_ranks_order_kinds_of_match() {
    let s = SearchRank::Structured(structural(9, 9, 9));
    let a = SearchRank::Abbreviation(abbreviation(0));
    let f = SearchRank::Fuzzy(distance(0, 0));
    let t = SearchRank::Typo(distance(0, 0));
    assert_eq!(s.cmp(&a), Ordering::Less);
    assert_eq!(a.cmp(&f), Ordering::Less);
    assert_eq!(f.cmp(&t), Ordering::Less);
    assert_eq!(t.cmp(&s), Ordering::Greater);
    assert_eq!(
        SearchRank::Typo(distance(1, 0)).cmp(&SearchRank::Typo(distance(2, 0))),
        Ordering::Less
    );
}

#[test]
fn provenance_reports_where_the_match_is() {
    let s = SearchRank::Structured(structural(2, 4, 6));
    assert_eq!(
        s.provenance(),
        MatchProvenance {
            field_priority: 2,
            variant_scope: None,
            token_index: 0,
            start_idx: 4,
            matched_char_len: 6,
            field_len: 10,
        }
    );
    let t = SearchRank::Typo(distance(1, 7));
    assert_eq!(
        t.provenance(),
        MatchProvenance {
            field_priority: 1,
            variant_scope: Some(7),
            token_index: 2,
            start_idx: 3,
            matched_char_len: 4,
            field_len: 5,
        }
    );
    let a = SearchRank::Abbreviation(abbreviation(0));
    assert_eq!(a.provenance().variant_scope, Some(1));
    assert_eq!(a.provenance().field_len, 7);
}

#[test]
fn search_results_by_rank_then_score_then_key() {
    let better = SearchRank::Fuzzy(distance(1, 0));
    let worse = SearchRank::Fuzzy(distance(2, 0));
    assert_eq!(
        compare_search_results(&better, score_key(0.0), "z", &worse, score_key(9.0), "a"),
        Ordering::Less
    );
    assert_eq!(
        compare_search_results(&better, score_key(2.0), "z", &better, score_key(1.0), "a"),
        Ordering::Less
    );
    assert_eq!(
        compare_search_results(&better, score_key(-1.0), "a", &better, score_key(1.0), "a"),
        Ordering::Greater
    );
    assert_eq!(
        compare_search_results(&better, score_key(1.0), "ab", &better, score_key(1.0), "b"),
        Ordering::Less
    );
    assert_eq!(
        compare_search_results(&better, score_key(1.0), "é", &better, score_key(1.0), "z"),
        Ordering::Greater
    );
}

fn typo_key<'a>(distance: usize, substitutions: usize, ratio: usize, score: f64, key: &'a str) -> TypoSortKey<'a> {
    TypoSortKey {
        distance,
        operations: OperationProfile {
            substitutions,
            insert_delete: 0,
            transpositions: 0,
            keyboard_distance: 0,
        },
        ratio_milli: ratio,
        position: 0,
        structure: 0,
        score_key: score_key(score),
        secondary: 0,
        key,
    }
}

#[test]
fn typo_sort_keys_compare_in_order() {
    assert_eq!(
        compare_typo_sort_keys(&typo_key(1, 5, 0, 0.0, "b"), &typo_key(2, 0, 0, 9.0, "a")),
        Ordering::Less
    );
    assert_eq!(
        compare_typo_sort_keys(&typo_key(1, 1, 0, 0.0, "a"), &typo_key(1, 0, 0, 0.0, "a")),
        Ordering::Greater
    );
    assert_eq!(
        compare_typo_sort_keys(&typo_key(1, 0, 0, 3.0, "b"), &typo_key(1, 0, 0, 2.0, "a")),
        Ordering::Less
    );
    assert_eq!(
        compare_typo_sort_keys(&typo_key(1, 0, 0, 2.0, "a"), &typo_key(1, 0, 0, 2.0, "a")),
        Ordering::Equal
    );
}

#[test]
fn typo_keys_are_ambiguous_within_twenty_per_mille() {
    assert!(typo_keys_are_ambiguous(&typo_key(1, 0, 100, 1.0, "a"), &typo_key(1, 3, 120, 1.0, "b")));
    assert!(!typo_keys_are_ambiguous(&typo_key(1, 0, 100, 1.0, "a"), &typo_key(1, 0, 121, 1.0, "a")));
    assert!(!typo_keys_are_ambiguous(&typo_key(1, 0, 100, 1.0, "a"), &typo_key(1, 0, 100, 1.5, "a")));
    assert!(!typo_keys_are_ambiguous(&typo_key(1, 0, 100, 1.0, "a"), &typo_key(2, 0, 100, 1.0, "a")));
}

fn path_key<'a>(score: f64, structure: usize, path_depth: usize, key: &'a str) -> PathTypoSortKey<'a> {
    PathTypoSortKey {
        distance: 1,
        operations: OperationProfile::default(),
        ratio_milli: 50,
        position: 0,
        structure,
        score_key: score_key(score),
        path_depth,
        key,
    }
}

#[test]
fn path_typo_sort_keys_put_score_before_structure() {
    assert_eq!(
        compare_path_typo_sort_keys(&path_key(2.0, 9, 0, "a"), &path_key(1.0, 0, 0, "a")),
        Ordering::Less
    );
    assert_eq!(
        compare_path_typo_sort_keys(&path_key(1.0, 0, 3, "a"), &path_key(1.0, 0, 2, "a")),
        Ordering::Greater
    );
    assert!(path_typo_keys_are_ambiguous(&path_key(1.0, 0, 3, "a"), &path_key(1.0, 0, 9, "z")));
    assert!(!path_typo_keys_are_ambiguous(&path_key(1.0, 0, 3, "a"), &path_key(1.0, 1, 3, "a")));
}

#[test]
fn ratio_is_per_mille_of_the_compared_length() {
    assert_eq!(ratio_milli(1, 4), 250);
    assert_eq!(ratio_milli(2, 3), 666);
    assert_eq!(ratio_milli(3, 0), 3000);
    assert_eq!(ratio_milli(0, 0), 0);
}

#[test]
fn rank_orders_are_antisymmetric() {
    let ranks = [
        SearchRank::Structured(structural(0, 1, 1)),
        SearchRank::Structured(structural(0, 2, 1)),
        SearchRank::Abbreviation(abbreviation(1)),
        SearchRank::Fuzzy(distance(1, 0)),
        SearchRank::Typo(distance(1, 0)),
    ];
    for a in &ranks {
        assert_eq!(a.cmp(a), Ordering::Equal);
        for b in &ranks {
            assert_eq!(a.cmp(b), b.cmp(a).reverse());
        }
    }
}
