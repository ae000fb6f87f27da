use fuzzy_rank::edit::{
    bounded_damerau_levenshtein, keyboard_substitution_cost, max_typos, OperationProfile,
};

#[test]
fn transpositions_are_cheaper_than_substitutions_as_a_tiebreak() {
    let swapped = bounded_damerau_levenshtein("abdc", "abcd", 2).unwrap();
    let substituted = bounded_damerau_levenshtein("abxd", "abcd", 2).unwrap();
    assert_eq!(swapped.0, substituted.0);
    assert!(swapped.1 < substituted.1);
}

#[test]
fn nearby_key_substitutions_are_cheaper_than_distant_ones() {
    let nearby = bounded_damerau_levenshtein("gilm", "film", 1).unwrap();
    let distant = bounded_damerau_levenshtein("pilm", "film", 1).unwrap();
    assert_eq!(nearby.0, distant.0);
    assert!(nearby.1 < distant.1);
}

fn profile(s: usize, id: usize, t: usize, k: usize) -> OperationProfile {
    OperationProfile { substitutions: s, insert_delete: id, transpositions: t, keyboard_distance: k }
}

#[test]
fn keyboard_cost_of_equal_characters_is_zero() {
    assert_eq!(keyboard_substitution_cost('a', 'a'), 0);
    assert_eq!(keyboard_substitution_cost('%', '%'), 0);
}

#[test]
fn keyboard_cost_is_manhattan_distance_on_the_grid() {
    // g is at (2 + 4*2, 2*2 + 1) = (10, 5); f at (8, 5).
    assert_eq!(keyboard_substitution_cost('g', 'f'), 2);
    // q at (1, 2); p at (1 + 18, 2).
    assert_eq!(keyboard_substitution_cost('q', 'p'), 18);
    // 1 at (0, 0); m at (3 + 12, 9).
    assert_eq!(keyboard_substitution_cost('1', 'm'), 24);
    // p at (19, 2); f at (8, 5).
    assert_eq!(keyboard_substitution_cost('p', 'f'), 14);
}

#[test]
fn keyboard_cost_ignores_ascii_case() {
    assert_eq!(keyboard_substitution_cost('G', 'f'), 2);
    assert_eq!(keyboard_substitution_cost('a', 'A'), 0);
}

#[test]
fn keyboard_cost_off_the_grid_is_one_hundred() {
    assert_eq!(keyboard_substitution_cost('a', '-'), 100);
    assert_eq!(keyboard_substitution_cost('é', 'e'), 100);
}

#[test]
fn max_typos_is_half_the_length() {
    assert_eq!(max_typos(0), 0);
    assert_eq!(max_typos(7), 3);
    assert_eq!(max_typos(8), 4);
}

#[test]
fn identical_strings_cost_nothing() {
    assert_eq!(bounded_damerau_levenshtein("film", "film", 0), Some((0, profile(0, 0, 0, 0))));
}

#[test]
fn profiles_record_each_kind_of_operation() {
    assert_eq!(bounded_damerau_levenshtein("abdc", "abcd", 2), Some((1, profile(0, 0, 1, 0))));
    assert_eq!(bounded_damerau_levenshtein("gilm", "film", 1), Some((1, profile(1, 0, 0, 2))));
    assert_eq!(bounded_damerau_levenshtein("flm", "film", 1), Some((1, profile(0, 1, 0, 0))));
    assert_eq!(bounded_damerau_levenshtein("", "abc", 3), Some((3, profile(0, 3, 0, 0))));
}

#[test]
fn distance_beyond_the_limit_gives_none() {
    assert_eq!(bounded_damerau_levenshtein("abc", "xyz", 2), None);
    assert_eq!(bounded_damerau_levenshtein("a", "abcd", 2), None);
    assert_eq!(bounded_damerau_levenshtein("abc", "xyz", 3).map(|r| r.0), Some(3));
}

#[test]
fn empty_right_side_with_nonempty_left_gives_none() {
    assert_eq!(bounded_damerau_levenshtein("a", "", 5), None);
    assert_eq!(bounded_damerau_levenshtein("", "", 0), Some((0, profile(0, 0, 0, 0))));
}

#[test]
fn larger_limits_keep_the_result() {
    let tight = bounded_damerau_levenshtein("kitten", "sitting", 3);
    let loose = bounded_damerau_levenshtein("kitten", "sitting", 10);
    assert_eq!(tight.map(|r| r.0), Some(3));
    assert_eq!(tight, loose);
}

#[test]
fn profile_methods_count_operations() {
    let p = OperationProfile::default()
        .with_substitution('g', 'f')
        .with_insert_delete()
        .with_transposition();
    assert_eq!(p, profile(1, 1, 1, 2));
}

#[test]
fn distance_and_profile_do_not_depend_on_argument_order() {
    for (a, b) in [("kitten", "sitting"), ("abdc", "abcd"), ("flm", "film"), ("pilm", "film")] {
        assert_eq!(bounded_damerau_levenshtein(a, b, 5), bounded_damerau_levenshtein(b, a, 5));
    }
}

#[test]
fn distance_is_at_least_the_length_difference() {
    assert_eq!(bounded_damerau_levenshtein("ab", "abcde", 3).map(|r| r.0), Some(3));
    assert_eq!(bounded_damerau_levenshtein("ab", "abcde", 2), None);
}

#[test]
fn keyboard_cost_laws_on_examples() {
    assert_eq!(keyboard_substitution_cost('Q', 'P'), keyboard_substitution_cost('q', 'p'));
    assert_eq!(keyboard_substitution_cost('p', 'q'), keyboard_substitution_cost('q', 'p'));
    // The corners of the grid are 24 apart.
    assert_eq!(keyboard_substitution_cost('0', 'Z'), 24);
    assert_eq!(keyboard_substitution_cost('A', 'a'), 0);
}
