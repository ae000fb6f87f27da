use std::cmp::Ordering;
use vstd::prelude::*;

use crate::edit::{abs_diff, gap, OperationProfile};
use crate::order::{
    lemma_str_order_laws,
    compare_i64, compare_str, compare_u8, compare_usize, flip, i64_order, not_after, str_order,
    u8_order, usize_order, then_order,
};

verus! {

/// `first`, unless it is `Equal`; then `next`.
pub fn then(first: Ordering, next: Ordering) -> (o: Ordering)
    ensures
        o == then_order(first, next),
{
    match first {
        Ordering::Equal => next,
        _ => first,
    }
}

/// Rank of a match found in the structure of a field (a prefix, a token, ...).
#[derive(Clone, Debug, PartialEq, Eq)]
pub struct StructuralRank {
    pub field_priority: u8,
    pub position_class: u8,
    pub token_index: usize,
    pub token_span_delta: usize,
    pub start_idx: usize,
    pub matched_char_len: usize,
    pub field_len: usize,
}

impl StructuralRank {
    /// Field priority, then position class, token index, token span delta,
    /// start index and field length; the matched length plays no part.
    pub open spec fn order(self, other: Self) -> Ordering {
        then_order(
            u8_order(self.field_priority, other.field_priority),
            then_order(
                u8_order(self.position_class, other.position_class),
                then_order(
                    usize_order(self.token_index, other.token_index),
                    then_order(
                        usize_order(self.token_span_delta, other.token_span_delta),
                        then_order(
                            usize_order(self.start_idx, other.start_idx),
                            usize_order(self.field_len, other.field_len),
                        ),
                    ),
                ),
            ),
        )
    }

    /// Compares two ranks; the smaller one is the better match.
    pub fn cmp(&self, other: &Self) -> (o: Ordering)
        ensures
            o == self.order(*other),
    {
        then(
            compare_u8(self.field_priority, other.field_priority),
            then(
                compare_u8(self.position_class, other.position_class),
                then(
                    compare_usize(self.token_index, other.token_index),
                    then(
                        compare_usize(self.token_span_delta, other.token_span_delta),
                        then(
                            compare_usize(self.start_idx, other.start_idx),
                            compare_usize(self.field_len, other.field_len),
                        ),
                    ),
                ),
            ),
        )
    }
}

/// Rank of a match found by edit distance (fuzzy or typo-tolerant).
#[derive(Clone, Debug, PartialEq, Eq)]
pub struct DistanceRank {
    pub distance: usize,
    pub ratio_milli: usize,
    pub keyboard_distance: usize,
    pub field_priority: u8,
    pub variant_scope: u8,
    pub position_class: u8,
    pub token_index: usize,
    pub token_span_delta: usize,
    pub start_idx: usize,
    pub matched_char_len: usize,
    pub field_len: usize,
}

impl DistanceRank {
    /// Distance, then ratio, keyboard distance, field priority, variant scope,
    /// position class, token index, token span delta, start index and field
    /// length; the matched length plays no part.
    pub open spec fn order(self, other: Self) -> Ordering {
        then_order(
            usize_order(self.distance, other.distance),
            then_order(
                usize_order(self.ratio_milli, other.ratio_milli),
                then_order(
                    usize_order(self.keyboard_distance, other.keyboard_distance),
                    then_order(
                        u8_order(self.field_priority, other.field_priority),
                        then_order(
                            u8_order(self.variant_scope, other.variant_scope),
                            then_order(
                                u8_order(self.position_class, other.position_class),
                                then_order(
                                    usize_order(self.token_index, other.token_index),
                                    then_order(
                                        usize_order(self.token_span_delta, other.token_span_delta),
                                        then_order(
                                            usize_order(self.start_idx, other.start_idx),
                                            usize_order(self.field_len, other.field_len),
                                        ),
                                    ),
                                ),
                            ),
                        ),
                    ),
                ),
            ),
        )
    }

    /// Compares two ranks; the smaller one is the better match.
    pub fn cmp(&self, other: &Self) -> (o: Ordering)
        ensures
            o == self.order(*other),
    {
        then(
            compare_usize(self.distance, other.distance),
            then(
                compare_usize(self.ratio_milli, other.ratio_milli),
                then(
                    compare_usize(self.keyboard_distance, other.keyboard_distance),
                    then(
                        compare_u8(self.field_priority, other.field_priority),
                        then(
                            compare_u8(self.variant_scope, other.variant_scope),
                            then(
                                compare_u8(self.position_class, other.position_class),
                                then(
                                    compare_usize(self.token_index, other.token_index),
                                    then(
                                        compare_usize(self.token_span_delta, other.token_span_delta),
                                        then(
                                            compare_usize(self.start_idx, other.start_idx),
                                            compare_usize(self.field_len, other.field_len),
                                        ),
                                    ),
                                ),
                            ),
                        ),
                    ),
                ),
            ),
        )
    }
}

/// Rank of a match of the query as an abbreviation of a field.
#[derive(Clone, Debug, PartialEq, Eq)]
pub struct AbbreviationRank {
    pub field_priority: u8,
    pub variant_scope: u8,
    pub position_class: u8,
    pub token_index: usize,
    pub gap_span: usize,
    pub gap_count: usize,
    pub start_idx: usize,
    pub matched_char_len: usize,
    pub field_len: usize,
}

impl AbbreviationRank {
    /// Field priority, then variant scope, position class, token index, gap
    /// span, gap count, start index and field length; the matched length plays
    /// no part.
    pub open spec fn order(self, other: Self) -> Ordering {
        then_order(
            u8_order(self.field_priority, other.field_priority),
            then_order(
                u8_order(self.variant_scope, other.variant_scope),
                then_order(
                    u8_order(self.position_class, other.position_class),
                    then_order(
                        usize_order(self.token_index, other.token_index),
                        then_order(
                            usize_order(self.gap_span, other.gap_span),
                            then_order(
                                usize_order(self.gap_count, other.gap_count),
                                then_order(
                                    usize_order(self.start_idx, other.start_idx),
                                    usize_order(self.field_len, other.field_len),
                                ),
                            ),
                        ),
                    ),
                ),
            ),
        )
    }

    /// Compares two ranks; the smaller one is the better match.
    pub fn cmp(&self, other: &Self) -> (o: Ordering)
        ensures
            o == self.order(*other),
    {
        then(
            compare_u8(self.field_priority, other.field_priority),
            then(
                compare_u8(self.variant_scope, other.variant_scope),
                then(
                    compare_u8(self.position_class, other.position_class),
                    then(
                        compare_usize(self.token_index, other.token_index),
                        then(
                            compare_usize(self.gap_span, other.gap_span),
                            then(
                                compare_usize(self.gap_count, other.gap_count),
                                then(
                                    compare_usize(self.start_idx, other.start_idx),
                                    compare_usize(self.field_len, other.field_len),
                                ),
                            ),
                        ),
                    ),
                ),
            ),
        )
    }
}

/// The rank of a search result: the kind of match, with its own rank.
#[derive(Clone, Debug, PartialEq, Eq)]
pub enum SearchRank {
    Structured(StructuralRank),
    Abbreviation(AbbreviationRank),
    Fuzzy(DistanceRank),
    Typo(DistanceRank),
}

/// Where in a record a match was found.
#[derive(Clone, Copy, Debug, PartialEq, Eq)]
pub struct MatchProvenance {
    pub field_priority: u8,
    pub variant_scope: Option<u8>,
    pub token_index: usize,
    pub start_idx: usize,
    pub matched_char_len: usize,
    pub field_len: usize,
}

impl SearchRank {
    /// Kinds of match, from best to worst: structural, abbreviation, fuzzy, typo.
    pub open spec fn kind(self) -> usize {
        match self {
            SearchRank::Structured(_) => 0,
            SearchRank::Abbreviation(_) => 1,
            SearchRank::Fuzzy(_) => 2,
            SearchRank::Typo(_) => 3,
        }
    }

    /// By kind of match first; two matches of the same kind by their own ranks.
    pub open spec fn order(self, other: Self) -> Ordering {
        match (self, other) {
            (SearchRank::Structured(a), SearchRank::Structured(b)) => a.order(b),
            (SearchRank::Abbreviation(a), SearchRank::Abbreviation(b)) => a.order(b),
            (SearchRank::Fuzzy(a), SearchRank::Fuzzy(b)) => a.order(b),
            (SearchRank::Typo(a), SearchRank::Typo(b)) => a.order(b),
            _ => usize_order(self.kind(), other.kind()),
        }
    }

    /// Compares two ranks; the smaller one is the better match.
    pub fn cmp(&self, other: &Self) -> (o: Ordering)
        ensures
            o == self.order(*other),
    {
        match (self, other) {
            (SearchRank::Structured(a), SearchRank::Structured(b)) => a.cmp(b),
            (SearchRank::Structured(_), _) => Ordering::Less,
            (_, SearchRank::Structured(_)) => Ordering::Greater,
            (SearchRank::Abbreviation(a), SearchRank::Abbreviation(b)) => a.cmp(b),
            (SearchRank::Abbreviation(_), _) => Ordering::Less,
            (_, SearchRank::Abbreviation(_)) => Ordering::Greater,
            (SearchRank::Fuzzy(a), SearchRank::Fuzzy(b)) => a.cmp(b),
            (SearchRank::Fuzzy(_), SearchRank::Typo(_)) => Ordering::Less,
            (SearchRank::Typo(_), SearchRank::Fuzzy(_)) => Ordering::Greater,
            (SearchRank::Typo(a), SearchRank::Typo(b)) => a.cmp(b),
        }
    }

    /// Where the match was found: the location fields of the inner rank, with
    /// the variant scope of abbreviation, fuzzy and typo matches.
    pub fn provenance(&self) -> (p: MatchProvenance)
        ensures
            match *self {
                SearchRank::Structured(r) => p == MatchProvenance {
                    field_priority: r.field_priority,
                    variant_scope: None,
                    token_index: r.token_index,
                    start_idx: r.start_idx,
                    matched_char_len: r.matched_char_len,
                    field_len: r.field_len,
                },
                SearchRank::Abbreviation(r) => p == MatchProvenance {
                    field_priority: r.field_priority,
                    variant_scope: Some(r.variant_scope),
                    token_index: r.token_index,
                    start_idx: r.start_idx,
                    matched_char_len: r.matched_char_len,
                    field_len: r.field_len,
                },
                SearchRank::Fuzzy(r) | SearchRank::Typo(r) => p == MatchProvenance {
                    field_priority: r.field_priority,
                    variant_scope: Some(r.variant_scope),
                    token_index: r.token_index,
                    start_idx: r.start_idx,
                    matched_char_len: r.matched_char_len,
                    field_len: r.field_len,
                },
            },
    {
        match self {
            SearchRank::Structured(rank) => MatchProvenance {
                field_priority: rank.field_priority,
                variant_scope: None,
                token_index: rank.token_index,
                start_idx: rank.start_idx,
                matched_char_len: rank.matched_char_len,
                field_len: rank.field_len,
            },
            SearchRank::Abbreviation(rank) => MatchProvenance {
                field_priority: rank.field_priority,
                variant_scope: Some(rank.variant_scope),
                token_index: rank.token_index,
                start_idx: rank.start_idx,
                matched_char_len: rank.matched_char_len,
                field_len: rank.field_len,
            },
            SearchRank::Fuzzy(rank) | SearchRank::Typo(rank) => MatchProvenance {
                field_priority: rank.field_priority,
                variant_scope: Some(rank.variant_scope),
                token_index: rank.token_index,
                start_idx: rank.start_idx,
                matched_char_len: rank.matched_char_len,
                field_len: rank.field_len,
            },
        }
    }
}

/// The order of `DistanceRank` is a total order.
pub proof fn lemma_distance_rank_order(a: DistanceRank, b: DistanceRank, c: DistanceRank)
    ensures
        a.order(b) == flip(b.order(a)),
        a.order(a) == Ordering::Equal,
        not_after(a.order(b)) && not_after(b.order(c)) ==> not_after(a.order(c)),
        a.order(b) == Ordering::Less && not_after(b.order(c)) ==> a.order(c) == Ordering::Less,
        not_after(a.order(b)) && b.order(c) == Ordering::Less ==> a.order(c) == Ordering::Less,
{
}

/// The order of `StructuralRank` is a total order.
pub proof fn lemma_structural_rank_order(a: StructuralRank, b: StructuralRank, c: StructuralRank)
    ensures
        a.order(b) == flip(b.order(a)),
        a.order(a) == Ordering::Equal,
        not_after(a.order(b)) && not_after(b.order(c)) ==> not_after(a.order(c)),
        a.order(b) == Ordering::Less && not_after(b.order(c)) ==> a.order(c) == Ordering::Less,
        not_after(a.order(b)) && b.order(c) == Ordering::Less ==> a.order(c) == Ordering::Less,
{
}

/// The order of `AbbreviationRank` is a total order.
pub proof fn lemma_abbreviation_rank_order(
    a: AbbreviationRank,
    b: AbbreviationRank,
    c: AbbreviationRank,
)
    ensures
        a.order(b) == flip(b.order(a)),
        a.order(a) == Ordering::Equal,
        not_after(a.order(b)) && not_after(b.order(c)) ==> not_after(a.order(c)),
        a.order(b) == Ordering::Less && not_after(b.order(c)) ==> a.order(c) == Ordering::Less,
        not_after(a.order(b)) && b.order(c) == Ordering::Less ==> a.order(c) == Ordering::Less,
{
}

/// The order of `SearchRank` is a total order: every structural match comes
/// before every abbreviation match, which comes before every fuzzy match, which
/// comes before every typo match.
pub proof fn lemma_search_rank_order(a: SearchRank, b: SearchRank, c: SearchRank)
    ensures
        a.order(b) == flip(b.order(a)),
        a.order(a) == Ordering::Equal,
        not_after(a.order(b)) && not_after(b.order(c)) ==> not_after(a.order(c)),
        a.order(b) == Ordering::Less && not_after(b.order(c)) ==> a.order(c) == Ordering::Less,
        not_after(a.order(b)) && b.order(c) == Ordering::Less ==> a.order(c) == Ordering::Less,
        a.kind() < b.kind() ==> a.order(b) == Ordering::Less,
{
    match (a, b, c) {
        (SearchRank::Structured(x), SearchRank::Structured(y), SearchRank::Structured(z)) => {
            lemma_structural_rank_order(x, y, z);
        },
        (SearchRank::Abbreviation(x), SearchRank::Abbreviation(y), SearchRank::Abbreviation(z)) => {
            lemma_abbreviation_rank_order(x, y, z);
        },
        (SearchRank::Fuzzy(x), SearchRank::Fuzzy(y), SearchRank::Fuzzy(z)) => {
            lemma_distance_rank_order(x, y, z);
        },
        (SearchRank::Typo(x), SearchRank::Typo(y), SearchRank::Typo(z)) => {
            lemma_distance_rank_order(x, y, z);
        },
        _ => {
            match a {
                SearchRank::Structured(x) => lemma_structural_rank_order(x, x, x),
                SearchRank::Abbreviation(x) => lemma_abbreviation_rank_order(x, x, x),
                SearchRank::Fuzzy(x) => lemma_distance_rank_order(x, x, x),
                SearchRank::Typo(x) => lemma_distance_rank_order(x, x, x),
            }
            match (a, b) {
                (SearchRank::Structured(x), SearchRank::Structured(y)) => lemma_structural_rank_order(x, y, y),
                (SearchRank::Abbreviation(x), SearchRank::Abbreviation(y)) => lemma_abbreviation_rank_order(x, y, y),
                (SearchRank::Fuzzy(x), SearchRank::Fuzzy(y)) => lemma_distance_rank_order(x, y, y),
                (SearchRank::Typo(x), SearchRank::Typo(y)) => lemma_distance_rank_order(x, y, y),
                _ => {},
            }
            match (b, c) {
                (SearchRank::Structured(x), SearchRank::Structured(y)) => lemma_structural_rank_order(x, y, y),
                (SearchRank::Abbreviation(x), SearchRank::Abbreviation(y)) => lemma_abbreviation_rank_order(x, y, y),
                (SearchRank::Fuzzy(x), SearchRank::Fuzzy(y)) => lemma_distance_rank_order(x, y, y),
                (SearchRank::Typo(x), SearchRank::Typo(y)) => lemma_distance_rank_order(x, y, y),
                _ => {},
            }
            match (a, c) {
                (SearchRank::Structured(x), SearchRank::Structured(y)) => lemma_structural_rank_order(x, y, y),
                (SearchRank::Abbreviation(x), SearchRank::Abbreviation(y)) => lemma_abbreviation_rank_order(x, y, y),
                (SearchRank::Fuzzy(x), SearchRank::Fuzzy(y)) => lemma_distance_rank_order(x, y, y),
                (SearchRank::Typo(x), SearchRank::Typo(y)) => lemma_distance_rank_order(x, y, y),
                _ => {},
            }
        },
    }
}

/// Operation profiles in the order of their derived `Ord`: substitutions, then
/// insertions and deletions, transpositions and keyboard distance.
pub open spec fn profile_order(a: OperationProfile, b: OperationProfile) -> Ordering {
    then_order(
        usize_order(a.substitutions, b.substitutions),
        then_order(
            usize_order(a.insert_delete, b.insert_delete),
            then_order(
                usize_order(a.transpositions, b.transpositions),
                usize_order(a.keyboard_distance, b.keyboard_distance),
            ),
        ),
    )
}

/// Compares two operation profiles; the smaller one is the more plausible typo.
pub fn compare_profiles(a: &OperationProfile, b: &OperationProfile) -> (o: Ordering)
    ensures
        o == profile_order(*a, *b),
{
    then(
        compare_usize(a.substitutions, b.substitutions),
        then(
            compare_usize(a.insert_delete, b.insert_delete),
            then(
                compare_usize(a.transpositions, b.transpositions),
                compare_usize(a.keyboard_distance, b.keyboard_distance),
            ),
        ),
    )
}

/// The order of profiles is the one the alignment search minimises.
pub proof fn lemma_profile_order_is_model_order(a: OperationProfile, b: OperationProfile)
    ensures
        (profile_order(a, b) == Ordering::Less) == a@.lt(b@),
        (profile_order(a, b) == Ordering::Equal) == (a == b),
{
}

/// The order of operation profiles is a total order.
pub proof fn lemma_profile_order(a: OperationProfile, b: OperationProfile, c: OperationProfile)
    ensures
        profile_order(a, b) == flip(profile_order(b, a)),
        profile_order(a, a) == Ordering::Equal,
        not_after(profile_order(a, b)) && not_after(profile_order(b, c)) ==> not_after(
            profile_order(a, c),
        ),
        profile_order(a, b) == Ordering::Less && not_after(profile_order(b, c)) ==> profile_order(
            a,
            c,
        ) == Ordering::Less,
        not_after(profile_order(a, b)) && profile_order(b, c) == Ordering::Less ==> profile_order(
            a,
            c,
        ) == Ordering::Less,
{
}

/// The order of search results: by rank, then by score (higher first), then by
/// key. A score is given by its order key: an `i64` that orders scores as
/// `f64::total_cmp` does.
pub open spec fn search_result_order(
    left_rank: SearchRank,
    left_score: i64,
    left_key: Seq<char>,
    right_rank: SearchRank,
    right_score: i64,
    right_key: Seq<char>,
) -> Ordering {
    then_order(
        left_rank.order(right_rank),
        then_order(i64_order(right_score, left_score), str_order(left_key, right_key)),
    )
}

/// Compares two search results; the smaller one is listed first.
pub fn compare_search_results(
    left_rank: &SearchRank,
    left_score: i64,
    left_key: &str,
    right_rank: &SearchRank,
    right_score: i64,
    right_key: &str,
) -> (o: Ordering)
    ensures
        o == search_result_order(
            *left_rank,
            left_score,
            left_key@,
            *right_rank,
            right_score,
            right_key@,
        ),
{
    then(
        left_rank.cmp(right_rank),
        then(compare_i64(right_score, left_score), compare_str(left_key, right_key)),
    )
}

/// What typo-tolerant results are sorted by. The score is given by its order
/// key: an `i64` that orders scores as `f64::total_cmp` does.
#[derive(Clone, Copy, Debug, PartialEq, Eq)]
pub struct TypoSortKey<'a> {
    pub distance: usize,
    pub operations: OperationProfile,
    pub ratio_milli: usize,
    pub position: usize,
    pub structure: usize,
    pub score_key: i64,
    pub secondary: usize,
    pub key: &'a str,
}

impl<'a> TypoSortKey<'a> {
    /// Distance, then operations, ratio, position, structure, score (higher
    /// first), secondary and key.
    pub open spec fn order(self, other: Self) -> Ordering {
        then_order(
            usize_order(self.distance, other.distance),
            then_order(
                profile_order(self.operations, other.operations),
                then_order(
                    usize_order(self.ratio_milli, other.ratio_milli),
                    then_order(
                        usize_order(self.position, other.position),
                        then_order(
                            usize_order(self.structure, other.structure),
                            then_order(
                                i64_order(other.score_key, self.score_key),
                                then_order(
                                    usize_order(self.secondary, other.secondary),
                                    str_order(self.key@, other.key@),
                                ),
                            ),
                        ),
                    ),
                ),
            ),
        )
    }
}

/// Compares two typo sort keys; the smaller one is listed first.
pub fn compare_typo_sort_keys(left: &TypoSortKey<'_>, right: &TypoSortKey<'_>) -> (o: Ordering)
    ensures
        o == left.order(*right),
{
    then(
        compare_usize(left.distance, right.distance),
        then(
            compare_profiles(&left.operations, &right.operations),
            then(
                compare_usize(left.ratio_milli, right.ratio_milli),
                then(
                    compare_usize(left.position, right.position),
                    then(
                        compare_usize(left.structure, right.structure),
                        then(
                            compare_i64(right.score_key, left.score_key),
                            then(
                                compare_usize(left.secondary, right.secondary),
                                compare_str(left.key, right.key),
                            ),
                        ),
                    ),
                ),
            ),
        ),
    )
}

/// What typo-tolerant path results are sorted by. The score is given by its
/// order key: an `i64` that orders scores as `f64::total_cmp` does.
#[derive(Clone, Copy, Debug, PartialEq, Eq)]
pub struct PathTypoSortKey<'a> {
    pub distance: usize,
    pub operations: OperationProfile,
    pub ratio_milli: usize,
    pub position: usize,
    pub structure: usize,
    pub score_key: i64,
    pub path_depth: usize,
    pub key: &'a str,
}

impl<'a> PathTypoSortKey<'a> {
    /// Distance, then operations, ratio, position, score (higher first),
    /// structure, path depth and key.
    pub open spec fn order(self, other: Self) -> Ordering {
        then_order(
            usize_order(self.distance, other.distance),
            then_order(
                profile_order(self.operations, other.operations),
                then_order(
                    usize_order(self.ratio_milli, other.ratio_milli),
                    then_order(
                        usize_order(self.position, other.position),
                        then_order(
                            i64_order(other.score_key, self.score_key),
                            then_order(
                                usize_order(self.structure, other.structure),
                                then_order(
                                    usize_order(self.path_depth, other.path_depth),
                                    str_order(self.key@, other.key@),
                                ),
                            ),
                        ),
                    ),
                ),
            ),
        )
    }
}

/// Compares two path typo sort keys; the smaller one is listed first.
pub fn compare_path_typo_sort_keys(
    left: &PathTypoSortKey<'_>,
    right: &PathTypoSortKey<'_>,
) -> (o: Ordering)
    ensures
        o == left.order(*right),
{
    then(
        compare_usize(left.distance, right.distance),
        then(
            compare_profiles(&left.operations, &right.operations),
            then(
                compare_usize(left.ratio_milli, right.ratio_milli),
                then(
                    compare_usize(left.position, right.position),
                    then(
                        compare_i64(right.score_key, left.score_key),
                        then(
                            compare_usize(left.structure, right.structure),
                            then(
                                compare_usize(left.path_depth, right.path_depth),
                                compare_str(left.key, right.key),
                            ),
                        ),
                    ),
                ),
            ),
        ),
    )
}

/// Two typo sort keys that only a closer look can tell apart: same distance,
/// position and structure, ratios within 20 per mille, and the same score.
pub fn typo_keys_are_ambiguous(left: &TypoSortKey<'_>, right: &TypoSortKey<'_>) -> (b: bool)
    ensures
        b == (left.distance == right.distance && left.position == right.position
            && left.structure == right.structure && abs_diff(
            left.ratio_milli as int,
            right.ratio_milli as int,
        ) <= 20 && left.score_key == right.score_key),
{
    left.distance == right.distance && left.position == right.position && left.structure
        == right.structure && gap(left.ratio_milli, right.ratio_milli) <= 20 && left.score_key
        == right.score_key
}

/// Two path typo sort keys that only a closer look can tell apart: same
/// distance, position and structure, ratios within 20 per mille, and the same score.
pub fn path_typo_keys_are_ambiguous(
    left: &PathTypoSortKey<'_>,
    right: &PathTypoSortKey<'_>,
) -> (b: bool)
    ensures
        b == (left.distance == right.distance && left.position == right.position
            && left.structure == right.structure && abs_diff(
            left.ratio_milli as int,
            right.ratio_milli as int,
        ) <= 20 && left.score_key == right.score_key),
{
    left.distance == right.distance && left.position == right.position && left.structure
        == right.structure && gap(left.ratio_milli, right.ratio_milli) <= 20 && left.score_key
        == right.score_key
}

/// The distance per thousand characters compared, rounded down; an empty
/// comparison counts as one character.
pub fn ratio_milli(distance: usize, compared_len: usize) -> (r: usize)
    requires
        distance * 1000 <= usize::MAX,
    ensures
        r == distance * 1000 / (if compared_len == 0 {
            1
        } else {
            compared_len as int
        }),
{
    let divisor = if compared_len > 1 {
        compared_len
    } else {
        1
    };
    distance * 1000 / divisor
}

/// The order of typo sort keys is a total order.
pub proof fn lemma_typo_sort_key_order(a: TypoSortKey, b: TypoSortKey, c: TypoSortKey)
    ensures
        a.order(b) == flip(b.order(a)),
        a.order(a) == Ordering::Equal,
        not_after(a.order(b)) && not_after(b.order(c)) ==> not_after(a.order(c)),
        a.order(b) == Ordering::Less && not_after(b.order(c)) ==> a.order(c) == Ordering::Less,
        not_after(a.order(b)) && b.order(c) == Ordering::Less ==> a.order(c) == Ordering::Less,
{
    lemma_str_order_laws(a.key@, b.key@, c.key@);
    lemma_profile_order(a.operations, b.operations, c.operations);
    lemma_profile_order_is_model_order(a.operations, b.operations);
    lemma_profile_order_is_model_order(b.operations, c.operations);
    lemma_profile_order_is_model_order(a.operations, c.operations);
}

/// The order of path typo sort keys is a total order.
pub proof fn lemma_path_typo_sort_key_order(
    a: PathTypoSortKey,
    b: PathTypoSortKey,
    c: PathTypoSortKey,
)
    ensures
        a.order(b) == flip(b.order(a)),
        a.order(a) == Ordering::Equal,
        not_after(a.order(b)) && not_after(b.order(c)) ==> not_after(a.order(c)),
        a.order(b) == Ordering::Less && not_after(b.order(c)) ==> a.order(c) == Ordering::Less,
        not_after(a.order(b)) && b.order(c) == Ordering::Less ==> a.order(c) == Ordering::Less,
{
    lemma_str_order_laws(a.key@, b.key@, c.key@);
    lemma_profile_order(a.operations, b.operations, c.operations);
    lemma_profile_order_is_model_order(a.operations, b.operations);
    lemma_profile_order_is_model_order(b.operations, c.operations);
    lemma_profile_order_is_model_order(a.operations, c.operations);
}

/// The order of search results is a total order.
pub proof fn lemma_search_result_order(
    ar: SearchRank,
    ascore: i64,
    akey: Seq<char>,
    br: SearchRank,
    bscore: i64,
    bkey: Seq<char>,
    cr: SearchRank,
    cscore: i64,
    ckey: Seq<char>,
)
    ensures
        search_result_order(ar, ascore, akey, br, bscore, bkey) == flip(
            search_result_order(br, bscore, bkey, ar, ascore, akey),
        ),
        search_result_order(ar, ascore, akey, ar, ascore, akey) == Ordering::Equal,
        not_after(search_result_order(ar, ascore, akey, br, bscore, bkey)) && not_after(
            search_result_order(br, bscore, bkey, cr, cscore, ckey),
        ) ==> not_after(search_result_order(ar, ascore, akey, cr, cscore, ckey)),
{
    lemma_str_order_laws(akey, bkey, ckey);
    lemma_search_rank_order(ar, br, cr);
}

/// Structural ranks are ordered field by field, smaller first: the first of
/// field priority, position class, token index, token span delta, start index
/// and field length in which two ranks differ decides, and ranks equal in all
/// of them compare `Equal` whatever their matched lengths.
pub proof fn lemma_structural_rank_decides(a: StructuralRank, b: StructuralRank)
    ensures
        (a.field_priority < b.field_priority)
            ==> a.order(b) == Ordering::Less,
        (a.field_priority == b.field_priority
            && a.position_class < b.position_class)
            ==> a.order(b) == Ordering::Less,
        (a.field_priority == b.field_priority
            && a.position_class == b.position_class
            && a.token_index < b.token_index)
            ==> a.order(b) == Ordering::Less,
        (a.field_priority == b.field_priority
            && a.position_class == b.position_class
            && a.token_index == b.token_index
            && a.token_span_delta < b.token_span_delta)
            ==> a.order(b) == Ordering::Less,
        (a.field_priority == b.field_priority
            && a.position_class == b.position_class
            && a.token_index == b.token_index
            && a.token_span_delta == b.token_span_delta
            && a.start_idx < b.start_idx)
            ==> a.order(b) == Ordering::Less,
        (a.field_priority == b.field_priority
            && a.position_class == b.position_class
            && a.token_index == b.token_index
            && a.token_span_delta == b.token_span_delta
            && a.start_idx == b.start_idx
            && a.field_len < b.field_len)
            ==> a.order(b) == Ordering::Less,
        (a.field_priority == b.field_priority
            && a.position_class == b.position_class
            && a.token_index == b.token_index
            && a.token_span_delta == b.token_span_delta
            && a.start_idx == b.start_idx
            && a.field_len == b.field_len)
            ==> a.order(b) == Ordering::Equal,
{
}

/// Distance ranks are ordered field by field, smaller first: the first of
/// distance, typo ratio, keyboard distance, field priority, variant scope,
/// position class, token index, token span delta, start index and field length
/// in which two ranks differ decides, so at equal distance and ratio the typo
/// on nearer keys ranks first; ranks equal in all of them compare `Equal`.
pub proof fn lemma_distance_rank_decides(a: DistanceRank, b: DistanceRank)
    ensures
        (a.distance < b.distance)
            ==> a.order(b) == Ordering::Less,
        (a.distance == b.distance
            && a.ratio_milli < b.ratio_milli)
            ==> a.order(b) == Ordering::Less,
        (a.distance == b.distance
            && a.ratio_milli == b.ratio_milli
            && a.keyboard_distance < b.keyboard_distance)
            ==> a.order(b) == Ordering::Less,
        (a.distance == b.distance
            && a.ratio_milli == b.ratio_milli
            && a.keyboard_distance == b.keyboard_distance
            && a.field_priority < b.field_priority)
            ==> a.order(b) == Ordering::Less,
        (a.distance == b.distance
            && a.ratio_milli == b.ratio_milli
            && a.keyboard_distance == b.keyboard_distance
            && a.field_priority == b.field_priority
            && a.variant_scope < b.variant_scope)
            ==> a.order(b) == Ordering::Less,
        (a.distance == b.distance
            && a.ratio_milli == b.ratio_milli
            && a.keyboard_distance == b.keyboard_distance
            && a.field_priority == b.field_priority
            && a.variant_scope == b.variant_scope
            && a.position_class < b.position_class)
            ==> a.order(b) == Ordering::Less,
        (a.distance == b.distance
            && a.ratio_milli == b.ratio_milli
            && a.keyboard_distance == b.keyboard_distance
            && a.field_priority == b.field_priority
            && a.variant_scope == b.variant_scope
            && a.position_class == b.position_class
            && a.token_index < b.token_index)
            ==> a.order(b) == Ordering::Less,
        (a.distance == b.distance
            && a.ratio_milli == b.ratio_milli
            && a.keyboard_distance == b.keyboard_distance
            && a.field_priority == b.field_priority
            && a.variant_scope == b.variant_scope
            && a.position_class == b.position_class
            && a.token_index == b.token_index
            && a.token_span_delta < b.token_span_delta)
            ==> a.order(b) == Ordering::Less,
        (a.distance == b.distance
            && a.ratio_milli == b.ratio_milli
            && a.keyboard_distance == b.keyboard_distance
            && a.field_priority == b.field_priority
            && a.variant_scope == b.variant_scope
            && a.position_class == b.position_class
            && a.token_index == b.token_index
            && a.token_span_delta == b.token_span_delta
            && a.start_idx < b.start_idx)
            ==> a.order(b) == Ordering::Less,
        (a.distance == b.distance
            && a.ratio_milli == b.ratio_milli
            && a.keyboard_distance == b.keyboard_distance
            && a.field_priority == b.field_priority
            && a.variant_scope == b.variant_scope
            && a.position_class == b.position_class
            && a.token_index == b.token_index
            && a.token_span_delta == b.token_span_delta
            && a.start_idx == b.start_idx
            && a.field_len < b.field_len)
            ==> a.order(b) == Ordering::Less,
        (a.distance == b.distance
            && a.ratio_milli == b.ratio_milli
            && a.keyboard_distance == b.keyboard_distance
            && a.field_priority == b.field_priority
            && a.variant_scope == b.variant_scope
            && a.position_class == b.position_class
            && a.token_index == b.token_index
            && a.token_span_delta == b.token_span_delta
            && a.start_idx == b.start_idx
            && a.field_len == b.field_len)
            ==> a.order(b) == Ordering::Equal,
{
}

/// Abbreviation ranks are ordered field by field, smaller first: the first of
/// field priority, variant scope, position class, token index, gap span, gap
/// count, start index and field length in which two ranks differ decides; ranks
/// equal in all of them compare `Equal`.
pub proof fn lemma_abbreviation_rank_decides(a: AbbreviationRank, b: AbbreviationRank)
    ensures
        (a.field_priority < b.field_priority)
            ==> a.order(b) == Ordering::Less,
        (a.field_priority == b.field_priority
            && a.variant_scope < b.variant_scope)
            ==> a.order(b) == Ordering::Less,
        (a.field_priority == b.field_priority
            && a.variant_scope == b.variant_scope
            && a.position_class < b.position_class)
            ==> a.order(b) == Ordering::Less,
        (a.field_priority == b.field_priority
            && a.variant_scope == b.variant_scope
            && a.position_class == b.position_class
            && a.token_index < b.token_index)
            ==> a.order(b) == Ordering::Less,
        (a.field_priority == b.field_priority
            && a.variant_scope == b.variant_scope
            && a.position_class == b.position_class
            && a.token_index == b.token_index
            && a.gap_span < b.gap_span)
            ==> a.order(b) == Ordering::Less,
        (a.field_priority == b.field_priority
            && a.variant_scope == b.variant_scope
            && a.position_class == b.position_class
            && a.token_index == b.token_index
            && a.gap_span == b.gap_span
            && a.gap_count < b.gap_count)
            ==> a.order(b) == Ordering::Less,
        (a.field_priority == b.field_priority
            && a.variant_scope == b.variant_scope
            && a.position_class == b.position_class
            && a.token_index == b.token_index
            && a.gap_span == b.gap_span
            && a.gap_count == b.gap_count
            && a.start_idx < b.start_idx)
            ==> a.order(b) == Ordering::Less,
        (a.field_priority == b.field_priority
            && a.variant_scope == b.variant_scope
            && a.position_class == b.position_class
            && a.token_index == b.token_index
            && a.gap_span == b.gap_span
            && a.gap_count == b.gap_count
            && a.start_idx == b.start_idx
            && a.field_len < b.field_len)
            ==> a.order(b) == Ordering::Less,
        (a.field_priority == b.field_priority
            && a.variant_scope == b.variant_scope
            && a.position_class == b.position_class
            && a.token_index == b.token_index
            && a.gap_span == b.gap_span
            && a.gap_count == b.gap_count
            && a.start_idx == b.start_idx
            && a.field_len == b.field_len)
            ==> a.order(b) == Ordering::Equal,
{
}

/// Operation profiles are ordered field by field, smaller first: the first of
/// substitutions, insertions and deletions, transpositions and keyboard
/// distance in which two profiles differ decides.
pub proof fn lemma_profile_order_decides(a: OperationProfile, b: OperationProfile)
    ensures
        (a.substitutions < b.substitutions)
            ==> profile_order(a, b) == Ordering::Less,
        (a.substitutions == b.substitutions
            && a.insert_delete < b.insert_delete)
            ==> profile_order(a, b) == Ordering::Less,
        (a.substitutions == b.substitutions
            && a.insert_delete == b.insert_delete
            && a.transpositions < b.transpositions)
            ==> profile_order(a, b) == Ordering::Less,
        (a.substitutions == b.substitutions
            && a.insert_delete == b.insert_delete
            && a.transpositions == b.transpositions
            && a.keyboard_distance < b.keyboard_distance)
            ==> profile_order(a, b) == Ordering::Less,
        (a.substitutions == b.substitutions
            && a.insert_delete == b.insert_delete
            && a.transpositions == b.transpositions
            && a.keyboard_distance == b.keyboard_distance)
            ==> profile_order(a, b) == Ordering::Equal,
{
}

/// Typo sort keys are ordered field by field: the first in which two keys
/// differ decides, smaller first for the distance, each count of the operation
/// profile (substitutions, insertions and deletions, transpositions, keyboard
/// distance), the typo ratio, the position, the structure and the secondary
/// key, and higher first for the score; keys equal in all of them are ordered
/// by their key strings. So one typo in a long word sorts before one in a
/// short word.
pub proof fn lemma_typo_sort_key_decides(a: TypoSortKey, b: TypoSortKey)
    ensures
        (a.distance < b.distance)
            ==> a.order(b) == Ordering::Less,
        (a.distance == b.distance
            && a.operations.substitutions < b.operations.substitutions)
            ==> a.order(b) == Ordering::Less,
        (a.distance == b.distance
            && a.operations.substitutions == b.operations.substitutions
            && a.operations.insert_delete < b.operations.insert_delete)
            ==> a.order(b) == Ordering::Less,
        (a.distance == b.distance
            && a.operations.substitutions == b.operations.substitutions
            && a.operations.insert_delete == b.operations.insert_delete
            && a.operations.transpositions < b.operations.transpositions)
            ==> a.order(b) == Ordering::Less,
        (a.distance == b.distance
            && a.operations.substitutions == b.operations.substitutions
            && a.operations.insert_delete == b.operations.insert_delete
            && a.operations.transpositions == b.operations.transpositions
            && a.operations.keyboard_distance < b.operations.keyboard_distance)
            ==> a.order(b) == Ordering::Less,
        (a.distance == b.distance
            && a.operations.substitutions == b.operations.substitutions
            && a.operations.insert_delete == b.operations.insert_delete
            && a.operations.transpositions == b.operations.transpositions
            && a.operations.keyboard_distance == b.operations.keyboard_distance
            && a.ratio_milli < b.ratio_milli)
            ==> a.order(b) == Ordering::Less,
        (a.distance == b.distance
            && a.operations.substitutions == b.operations.substitutions
            && a.operations.insert_delete == b.operations.insert_delete
            && a.operations.transpositions == b.operations.transpositions
            && a.operations.keyboard_distance == b.operations.keyboard_distance
            && a.ratio_milli == b.ratio_milli
            && a.position < b.position)
            ==> a.order(b) == Ordering::Less,
        (a.distance == b.distance
            && a.operations.substitutions == b.operations.substitutions
            && a.operations.insert_delete == b.operations.insert_delete
            && a.operations.transpositions == b.operations.transpositions
            && a.operations.keyboard_distance == b.operations.keyboard_distance
            && a.ratio_milli == b.ratio_milli
            && a.position == b.position
            && a.structure < b.structure)
            ==> a.order(b) == Ordering::Less,
        (a.distance == b.distance
            && a.operations.substitutions == b.operations.substitutions
            && a.operations.insert_delete == b.operations.insert_delete
            && a.operations.transpositions == b.operations.transpositions
            && a.operations.keyboard_distance == b.operations.keyboard_distance
            && a.ratio_milli == b.ratio_milli
            && a.position == b.position
            && a.structure == b.structure
            && a.score_key > b.score_key)
            ==> a.order(b) == Ordering::Less,
        (a.distance == b.distance
            && a.operations.substitutions == b.operations.substitutions
            && a.operations.insert_delete == b.operations.insert_delete
            && a.operations.transpositions == b.operations.transpositions
            && a.operations.keyboard_distance == b.operations.keyboard_distance
            && a.ratio_milli == b.ratio_milli
            && a.position == b.position
            && a.structure == b.structure
            && a.score_key == b.score_key
            && a.secondary < b.secondary)
            ==> a.order(b) == Ordering::Less,
        (a.distance == b.distance
            && a.operations.substitutions == b.operations.substitutions
            && a.operations.insert_delete == b.operations.insert_delete
            && a.operations.transpositions == b.operations.transpositions
            && a.operations.keyboard_distance == b.operations.keyboard_distance
            && a.ratio_milli == b.ratio_milli
            && a.position == b.position
            && a.structure == b.structure
            && a.score_key == b.score_key
            && a.secondary == b.secondary)
            ==> a.order(b) == str_order(a.key@, b.key@),
{
}

/// Path typo sort keys are ordered field by field: the first in which two keys
/// differ decides, smaller first for the distance, each count of the operation
/// profile, the typo ratio and the position, then higher first for the score,
/// then smaller first for the structure and the path depth; keys equal in all
/// of them are ordered by their key strings.
pub proof fn lemma_path_typo_sort_key_decides(a: PathTypoSortKey, b: PathTypoSortKey)
    ensures
        (a.distance < b.distance)
            ==> a.order(b) == Ordering::Less,
        (a.distance == b.distance
            && a.operations.substitutions < b.operations.substitutions)
            ==> a.order(b) == Ordering::Less,
        (a.distance == b.distance
            && a.operations.substitutions == b.operations.substitutions
            && a.operations.insert_delete < b.operations.insert_delete)
            ==> a.order(b) == Ordering::Less,
        (a.distance == b.distance
            && a.operations.substitutions == b.operations.substitutions
            && a.operations.insert_delete == b.operations.insert_delete
            && a.operations.transpositions < b.operations.transpositions)
            ==> a.order(b) == Ordering::Less,
        (a.distance == b.distance
            && a.operations.substitutions == b.operations.substitutions
            && a.operations.insert_delete == b.operations.insert_delete
            && a.operations.transpositions == b.operations.transpositions
            && a.operations.keyboard_distance < b.operations.keyboard_distance)
            ==> a.order(b) == Ordering::Less,
        (a.distance == b.distance
            && a.operations.substitutions == b.operations.substitutions
            && a.operations.insert_delete == b.operations.insert_delete
            && a.operations.transpositions == b.operations.transpositions
            && a.operations.keyboard_distance == b.operations.keyboard_distance
            && a.ratio_milli < b.ratio_milli)
            ==> a.order(b) == Ordering::Less,
        (a.distance == b.distance
            && a.operations.substitutions == b.operations.substitutions
            && a.operations.insert_delete == b.operations.insert_delete
            && a.operations.transpositions == b.operations.transpositions
            && a.operations.keyboard_distance == b.operations.keyboard_distance
            && a.ratio_milli == b.ratio_milli
            && a.position < b.position)
            ==> a.order(b) == Ordering::Less,
        (a.distance == b.distance
            && a.operations.substitutions == b.operations.substitutions
            && a.operations.insert_delete == b.operations.insert_delete
            && a.operations.transpositions == b.operations.transpositions
            && a.operations.keyboard_distance == b.operations.keyboard_distance
            && a.ratio_milli == b.ratio_milli
            && a.position == b.position
            && a.score_key > b.score_key)
            ==> a.order(b) == Ordering::Less,
        (a.distance == b.distance
            && a.operations.substitutions == b.operations.substitutions
            && a.operations.insert_delete == b.operations.insert_delete
            && a.operations.transpositions == b.operations.transpositions
            && a.operations.keyboard_distance == b.operations.keyboard_distance
            && a.ratio_milli == b.ratio_milli
            && a.position == b.position
            && a.score_key == b.score_key
            && a.structure < b.structure)
            ==> a.order(b) == Ordering::Less,
        (a.distance == b.distance
            && a.operations.substitutions == b.operations.substitutions
            && a.operations.insert_delete == b.operations.insert_delete
            && a.operations.transpositions == b.operations.transpositions
            && a.operations.keyboard_distance == b.operations.keyboard_distance
            && a.ratio_milli == b.ratio_milli
            && a.position == b.position
            && a.score_key == b.score_key
            && a.structure == b.structure
            && a.path_depth < b.path_depth)
            ==> a.order(b) == Ordering::Less,
        (a.distance == b.distance
            && a.operations.substitutions == b.operations.substitutions
            && a.operations.insert_delete == b.operations.insert_delete
            && a.operations.transpositions == b.operations.transpositions
            && a.operations.keyboard_distance == b.operations.keyboard_distance
            && a.ratio_milli == b.ratio_milli
            && a.position == b.position
            && a.score_key == b.score_key
            && a.structure == b.structure
            && a.path_depth == b.path_depth)
            ==> a.order(b) == str_order(a.key@, b.key@),
{
}

/// Every structural match ranks before every match of another kind, every
/// abbreviation match before every fuzzy or typo match, and every fuzzy match
/// before every typo match; two matches of one kind are ordered by their own
/// ranks.
pub proof fn lemma_search_rank_kinds(a: SearchRank, b: SearchRank)
    ensures
        (a is Structured && !(b is Structured)) ==> a.order(b) == Ordering::Less,
        (a is Abbreviation && (b is Fuzzy || b is Typo)) ==> a.order(b) == Ordering::Less,
        (a is Fuzzy && b is Typo) ==> a.order(b) == Ordering::Less,
        (a is Structured && b is Structured) ==> a.order(b) == a->Structured_0.order(
            b->Structured_0,
        ),
        (a is Abbreviation && b is Abbreviation) ==> a.order(b) == a->Abbreviation_0.order(
            b->Abbreviation_0,
        ),
        (a is Fuzzy && b is Fuzzy) ==> a.order(b) == a->Fuzzy_0.order(b->Fuzzy_0),
        (a is Typo && b is Typo) ==> a.order(b) == a->Typo_0.order(b->Typo_0),
{
}

/// Search results are ordered by rank first; at equal ranks the higher score
/// comes first, and at equal scores the key decides.
pub proof fn lemma_search_result_decides(
    ar: SearchRank,
    ascore: i64,
    akey: Seq<char>,
    br: SearchRank,
    bscore: i64,
    bkey: Seq<char>,
)
    ensures
        ar.order(br) == Ordering::Less ==> search_result_order(ar, ascore, akey, br, bscore, bkey)
            == Ordering::Less,
        (ar.order(br) == Ordering::Equal && ascore > bscore) ==> search_result_order(
            ar,
            ascore,
            akey,
            br,
            bscore,
            bkey,
        ) == Ordering::Less,
        (ar.order(br) == Ordering::Equal && ascore == bscore) ==> search_result_order(
            ar,
            ascore,
            akey,
            br,
            bscore,
            bkey,
        ) == str_order(akey, bkey),
{
}

} // verus!
