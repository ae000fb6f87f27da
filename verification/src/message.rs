use std::cmp::Ordering;
use vstd::prelude::*;

use crate::order::{
    bool_order, compare_bool, compare_i64, compare_str, compare_usize, flip, i64_order,
    lemma_str_order_laws, not_after, str_order, then_order, usize_order,
};
use crate::ranking::then;

use crate::text::{lemma_search_tokens_shape, total_chars, chars_of, search_tokens, split_search_tokens, to_lowercase, token_seqs, unicode_lowercase};

verus! {

/// `token` begins with `prefix`.
pub open spec fn starts_with(token: Seq<char>, prefix: Seq<char>) -> bool {
    prefix.len() <= token.len() && token.take(prefix.len() as int) == prefix
}

/// `i` is the smallest non-negative integer of which `p` holds.
pub open spec fn is_least(p: spec_fn(int) -> bool, i: int) -> bool {
    &&& 0 <= i
    &&& p(i)
    &&& forall|j: int| 0 <= j < i ==> !#[trigger] p(j)
}

/// The smallest non-negative integer of which `p` holds, if any.
pub open spec fn least(p: spec_fn(int) -> bool) -> Option<int> {
    if exists|i: int| is_least(p, i) {
        Some(choose|i: int| is_least(p, i))
    } else {
        None
    }
}

pub proof fn lemma_least_is(p: spec_fn(int) -> bool, i: int)
    requires
        is_least(p, i),
    ensures
        least(p) == Some(i),
{
    let j = choose|j: int| is_least(p, j);
    assert(is_least(p, j));
    if j < i {
        assert(!p(j));
    } else if i < j {
        assert(!p(i));
    }
}

pub proof fn lemma_least_none(p: spec_fn(int) -> bool)
    requires
        forall|i: int| 0 <= i ==> !#[trigger] p(i),
    ensures
        least(p) is None,
{
}

/// Whether `token` begins with `prefix`.
pub fn token_starts_with(token: &Vec<char>, prefix: &Vec<char>) -> (b: bool)
    ensures
        b == starts_with(token@, prefix@),
{
    if prefix.len() > token.len() {
        return false;
    }
    let mut k: usize = 0;
    while k < prefix.len()
        invariant
            prefix@.len() <= token@.len(),
            k <= prefix@.len(),
            forall|t: int| 0 <= t < k ==> token@[t] == prefix@[t],
        decreases prefix@.len() - k,
    {
        if token[k] != prefix[k] {
            assert(token@.take(prefix@.len() as int)[k as int] != prefix@[k as int]);
            return false;
        }
        k += 1;
    }
    assert(token@.take(prefix@.len() as int) =~= prefix@);
    true
}

/// How many of `tokens` begin with `prefix`.
pub open spec fn prefixed_count(prefix: Seq<char>, tokens: Seq<Seq<char>>) -> nat
    decreases tokens.len(),
{
    if tokens.len() == 0 {
        0
    } else {
        prefixed_count(prefix, tokens.drop_last()) + if starts_with(tokens.last(), prefix) {
            1nat
        } else {
            0nat
        }
    }
}

/// How many candidate tokens begin with the query token.
fn count_token_prefix_occurrences(query_token: &Vec<char>, candidate_tokens: &Vec<Vec<char>>) -> (n:
    usize)
    ensures
        n == prefixed_count(query_token@, token_seqs(candidate_tokens@)),
{
    let mut n: usize = 0;
    let mut i: usize = 0;
    while i < candidate_tokens.len()
        invariant
            i <= candidate_tokens@.len(),
            n == prefixed_count(query_token@, token_seqs(candidate_tokens@).take(i as int)),
            n <= i,
        decreases candidate_tokens@.len() - i,
    {
        let ghost seen = token_seqs(candidate_tokens@).take(i + 1);
        assert(seen.drop_last() =~= token_seqs(candidate_tokens@).take(i as int));
        if token_starts_with(&candidate_tokens[i], query_token) {
            n += 1;
        }
        i += 1;
    }
    assert(token_seqs(candidate_tokens@).take(i as int) =~= token_seqs(candidate_tokens@));
    n
}

/// The query tokens, in order, begin the candidate tokens from position `at` on.
pub open spec fn window_matches(query: Seq<Seq<char>>, candidate: Seq<Seq<char>>, at: int) -> bool {
    &&& 0 <= at
    &&& at + query.len() <= candidate.len()
    &&& forall|k: int| 0 <= k < query.len() ==> starts_with(candidate[at + k], #[trigger] query[k])
}

/// How many positions below `upto` the query matches at.
pub open spec fn phrase_count(query: Seq<Seq<char>>, candidate: Seq<Seq<char>>, upto: int) -> nat
    decreases upto,
{
    if upto <= 0 {
        0
    } else {
        phrase_count(query, candidate, upto - 1) + if window_matches(query, candidate, upto - 1) {
            1nat
        } else {
            0nat
        }
    }
}

/// Occurrences of the query as a phrase (each query token beginning the
/// candidate token at the same offset), and the first position of one.
/// An empty query, or one longer than the candidate, has none.
pub open spec fn phrase_summary(query: Seq<Seq<char>>, candidate: Seq<Seq<char>>) -> (
    nat,
    Option<int>,
) {
    if query.len() == 0 || query.len() > candidate.len() {
        (0, None)
    } else {
        (
            phrase_count(query, candidate, candidate.len() - query.len() + 1),
            least(|at: int| window_matches(query, candidate, at)),
        )
    }
}

/// Whether the query tokens begin the candidate tokens from position `at` on.
fn window_matches_at(query: &Vec<Vec<char>>, candidate: &Vec<Vec<char>>, at: usize) -> (b: bool)
    requires
        at + query@.len() <= candidate@.len(),
    ensures
        b == window_matches(token_seqs(query@), token_seqs(candidate@), at as int),
{
    let total = candidate.len();
    let mut k: usize = 0;
    while k < query.len()
        invariant
            at + query@.len() <= candidate@.len(),
            candidate@.len() == total,
            k <= query@.len(),
            forall|t: int|
                0 <= t < k ==> starts_with(
                    token_seqs(candidate@)[at + t],
                    #[trigger] token_seqs(query@)[t],
                ),
        decreases query@.len() - k,
    {
        if !token_starts_with(&candidate[at + k], &query[k]) {
            assert(!starts_with(token_seqs(candidate@)[at + k], token_seqs(query@)[k as int]));
            return false;
        }
        k += 1;
    }
    true
}

/// Occurrences of the query as a phrase in the candidate, and the first position of one.
fn phrase_stats(query_tokens: &Vec<Vec<char>>, candidate_tokens: &Vec<Vec<char>>) -> (stats: (
    usize,
    Option<usize>,
))
    ensures
        stats.0 == phrase_summary(token_seqs(query_tokens@), token_seqs(candidate_tokens@)).0,
        match stats.1 {
            Some(p) => phrase_summary(token_seqs(query_tokens@), token_seqs(candidate_tokens@)).1
                == Some(p as int),
            None => phrase_summary(token_seqs(query_tokens@), token_seqs(candidate_tokens@)).1
                is None,
        },
{
    let ghost q = token_seqs(query_tokens@);
    let ghost c = token_seqs(candidate_tokens@);
    if query_tokens.len() == 0 || query_tokens.len() > candidate_tokens.len() {
        return (0, None);
    }
    let last = candidate_tokens.len() - query_tokens.len();
    let mut count: usize = 0;
    let mut first_position: Option<usize> = None;
    let mut idx: usize = 0;
    while idx <= last
        invariant
            q == token_seqs(query_tokens@),
            c == token_seqs(candidate_tokens@),
            last + query_tokens@.len() == candidate_tokens@.len(),
            query_tokens@.len() >= 1,
            candidate_tokens@.len() <= usize::MAX,
            idx <= last + 1,
            count == phrase_count(q, c, idx as int),
            count <= idx,
            match first_position {
                Some(p) => is_least(|at: int| window_matches(q, c, at), p as int),
                None => forall|at: int| 0 <= at < idx ==> !window_matches(q, c, at),
            },
        decreases last + 1 - idx,
    {
        if window_matches_at(query_tokens, candidate_tokens, idx) {
            count += 1;
            if first_position.is_none() {
                first_position = Some(idx);
            }
        }
        idx += 1;
    }
    proof {
        match first_position {
            Some(p) => lemma_least_is(|at: int| window_matches(q, c, at), p as int),
            None => lemma_least_none(|at: int| window_matches(q, c, at)),
        }
    }
    (count, first_position)
}

/// Query token `qi + k` begins candidate token `ci + k`.
pub open spec fn run_step(
    query: Seq<Seq<char>>,
    candidate: Seq<Seq<char>>,
    qi: int,
    ci: int,
    k: int,
) -> bool {
    starts_with(candidate[ci + k], query[qi + k])
}

/// The `len` query tokens from `qi` on begin, in order, the candidate tokens from `ci` on.
pub open spec fn run_matches(
    query: Seq<Seq<char>>,
    candidate: Seq<Seq<char>>,
    len: int,
    qi: int,
    ci: int,
) -> bool {
    &&& 0 <= qi
    &&& qi + len <= query.len()
    &&& 0 <= ci
    &&& ci + len <= candidate.len()
    &&& forall|k: int| 0 <= k < len ==> #[trigger] run_step(query, candidate, qi, ci, k)
}

/// Some run of `len` consecutive query tokens matches at candidate position `ci`.
pub open spec fn run_at(query: Seq<Seq<char>>, candidate: Seq<Seq<char>>, len: int, ci: int) -> bool {
    exists|qi: int| run_matches(query, candidate, len, qi, ci)
}

/// The longest run of at least two and at most `len` consecutive query tokens
/// that matches somewhere, with the first candidate position where a run of
/// that length matches; `(0, None)` when there is none.
pub open spec fn adjacent_from(query: Seq<Seq<char>>, candidate: Seq<Seq<char>>, len: int) -> (
    int,
    Option<int>,
)
    decreases len,
{
    if len < 2 {
        (0, None)
    } else {
        match least(|ci: int| run_at(query, candidate, len, ci)) {
            Some(p) => (len, Some(p)),
            None => adjacent_from(query, candidate, len - 1),
        }
    }
}

/// The longest adjacent run of query tokens found in the candidate, and its
/// first position.
pub open spec fn adjacent_summary(query: Seq<Seq<char>>, candidate: Seq<Seq<char>>) -> (
    int,
    Option<int>,
) {
    adjacent_from(
        query,
        candidate,
        if query.len() < candidate.len() {
            query.len() as int
        } else {
            candidate.len() as int
        },
    )
}

/// Some non-negative integer satisfies `p`, so a least one does.
pub proof fn lemma_least_exists(p: spec_fn(int) -> bool, i: int)
    requires
        0 <= i,
        p(i),
    ensures
        least(p) is Some,
        is_least(p, least(p)->0),
    decreases i,
{
    if exists|j: int| 0 <= j < i && #[trigger] p(j) {
        let j = choose|j: int| 0 <= j < i && #[trigger] p(j);
        lemma_least_exists(p, j);
    } else {
        assert(is_least(p, i));
        lemma_least_is(p, i);
    }
}

proof fn lemma_adjacent_from_longest(query: Seq<Seq<char>>, candidate: Seq<Seq<char>>, len: int)
    requires
        forall|l: int, qi: int, ci: int|
            l > len ==> !#[trigger] run_matches(query, candidate, l, qi, ci),
    ensures
        match adjacent_from(query, candidate, len) {
            (found, Some(p)) => {
                &&& 2 <= found <= len
                &&& exists|qi: int| run_matches(query, candidate, found, qi, p)
                &&& forall|ci: int| 0 <= ci < p ==> !#[trigger] run_at(query, candidate, found, ci)
                &&& forall|l: int, qi: int, ci: int|
                    l > found ==> !#[trigger] run_matches(query, candidate, l, qi, ci)
            },
            (found, None) => {
                &&& found == 0
                &&& forall|l: int, qi: int, ci: int|
                    l >= 2 ==> !#[trigger] run_matches(query, candidate, l, qi, ci)
            },
        },
    decreases len,
{
    if len >= 2 {
        let pred = |ci: int| run_at(query, candidate, len, ci);
        match least(pred) {
            Some(p) => {
                assert(is_least(pred, p));
                assert(run_at(query, candidate, len, p));
                assert forall|ci: int| 0 <= ci < p implies !#[trigger] run_at(
                    query,
                    candidate,
                    len,
                    ci,
                ) by {
                    assert(!pred(ci));
                }
            },
            None => {
                assert forall|l: int, qi: int, ci: int|
                    l > len - 1 implies !#[trigger] run_matches(query, candidate, l, qi, ci) by {
                    if l == len && run_matches(query, candidate, l, qi, ci) {
                        assert(pred(ci));
                        lemma_least_exists(pred, ci);
                    }
                }
                lemma_adjacent_from_longest(query, candidate, len - 1);
            },
        }
    }
}

/// The adjacent run reported is the longest: some run of `len` (at least two)
/// consecutive query tokens begins `len` consecutive candidate tokens at the
/// reported position, no run does at an earlier position, and no longer run
/// matches anywhere. When none is reported, no run of two or more matches.
pub proof fn lemma_adjacent_summary_longest(query: Seq<Seq<char>>, candidate: Seq<Seq<char>>)
    ensures
        match adjacent_summary(query, candidate) {
            (len, Some(p)) => {
                &&& 2 <= len
                &&& 0 <= p && p + len <= candidate.len()
                &&& exists|qi: int|
                    #![trigger run_matches(query, candidate, len, qi, p)]
                    run_matches(query, candidate, len, qi, p) && 0 <= qi && qi + len <= query.len()
                        && forall|k: int|
                        0 <= k < len ==> starts_with(#[trigger] candidate[p + k], query[qi + k])
                &&& forall|ci: int| 0 <= ci < p ==> !#[trigger] run_at(query, candidate, len, ci)
                &&& forall|l: int, qi: int, ci: int|
                    l > len ==> !#[trigger] run_matches(query, candidate, l, qi, ci)
            },
            (len, None) => {
                &&& len == 0
                &&& forall|l: int, qi: int, ci: int|
                    l >= 2 ==> !#[trigger] run_matches(query, candidate, l, qi, ci)
            },
        },
{
    let top = if query.len() < candidate.len() {
        query.len() as int
    } else {
        candidate.len() as int
    };
    lemma_adjacent_from_longest(query, candidate, top);
    match adjacent_summary(query, candidate) {
        (len, Some(p)) => {
            let qi = choose|qi: int| run_matches(query, candidate, len, qi, p);
            assert forall|k: int| 0 <= k < len implies starts_with(
                #[trigger] candidate[p + k],
                query[qi + k],
            ) by {
                assert(run_step(query, candidate, qi, p, k));
            }
        },
        _ => {},
    }
}

/// Whether the `len` query tokens from `qi` on begin the candidate tokens from `ci` on.
fn run_matches_at(
    query: &Vec<Vec<char>>,
    candidate: &Vec<Vec<char>>,
    len: usize,
    qi: usize,
    ci: usize,
) -> (b: bool)
    requires
        qi + len <= query@.len(),
        ci + len <= candidate@.len(),
    ensures
        b == run_matches(token_seqs(query@), token_seqs(candidate@), len as int, qi as int, ci as int),
{
    let query_total = query.len();
    let candidate_total = candidate.len();
    let mut k: usize = 0;
    while k < len
        invariant
            qi + len <= query@.len(),
            ci + len <= candidate@.len(),
            query_total == query@.len(),
            candidate_total == candidate@.len(),
            k <= len,
            forall|t: int|
                0 <= t < k ==> #[trigger] run_step(
                    token_seqs(query@),
                    token_seqs(candidate@),
                    qi as int,
                    ci as int,
                    t,
                ),
        decreases len - k,
    {
        if !token_starts_with(&candidate[ci + k], &query[qi + k]) {
            assert(!run_step(
                token_seqs(query@),
                token_seqs(candidate@),
                qi as int,
                ci as int,
                k as int,
            ));
            return false;
        }
        k += 1;
    }
    true
}

/// The longest adjacent run (of at least two) of query tokens found in the
/// candidate, and the first candidate position of a run of that length.
fn adjacent_run_stats(query_tokens: &Vec<Vec<char>>, candidate_tokens: &Vec<Vec<char>>) -> (stats: (
    usize,
    Option<usize>,
))
    ensures
        stats.0 == adjacent_summary(token_seqs(query_tokens@), token_seqs(candidate_tokens@)).0,
        match stats.1 {
            Some(p) => adjacent_summary(token_seqs(query_tokens@), token_seqs(candidate_tokens@)).1
                == Some(p as int),
            None => adjacent_summary(token_seqs(query_tokens@), token_seqs(candidate_tokens@)).1
                is None,
        },
{
    let ghost q = token_seqs(query_tokens@);
    let ghost c = token_seqs(candidate_tokens@);
    let query_len = query_tokens.len();
    let candidate_len = candidate_tokens.len();
    let mut len = if query_len < candidate_len {
        query_len
    } else {
        candidate_len
    };
    while len >= 2
        invariant
            q == token_seqs(query_tokens@),
            c == token_seqs(candidate_tokens@),
            query_len == query_tokens@.len(),
            candidate_len == candidate_tokens@.len(),
            len <= query_len,
            len <= candidate_len,
            adjacent_summary(q, c) == adjacent_from(q, c, len as int),
        decreases len,
    {
        let mut ci: usize = 0;
        while ci <= candidate_len - len
            invariant
                q == token_seqs(query_tokens@),
                c == token_seqs(candidate_tokens@),
                query_len == query_tokens@.len(),
                candidate_len == candidate_tokens@.len(),
                2 <= len <= query_len,
                len <= candidate_len,
                ci <= candidate_len,
                adjacent_summary(q, c) == adjacent_from(q, c, len as int),
                forall|cj: int| 0 <= cj < ci ==> !#[trigger] run_at(q, c, len as int, cj),
            decreases candidate_len - ci,
        {
            let mut qi: usize = 0;
            while qi <= query_len - len
                invariant
                    q == token_seqs(query_tokens@),
                    c == token_seqs(candidate_tokens@),
                    query_len == query_tokens@.len(),
                    candidate_len == candidate_tokens@.len(),
                    2 <= len <= query_len,
                    ci + len <= candidate_len,
                    qi <= query_len,
                    adjacent_summary(q, c) == adjacent_from(q, c, len as int),
                    forall|cj: int| 0 <= cj < ci ==> !#[trigger] run_at(q, c, len as int, cj),
                    forall|qj: int|
                        0 <= qj < qi ==> !#[trigger] run_matches(q, c, len as int, qj, ci as int),
                decreases query_len - qi,
            {
                if run_matches_at(query_tokens, candidate_tokens, len, qi, ci) {
                    proof {
                        assert(run_at(q, c, len as int, ci as int));
                        lemma_least_is(|cj: int| run_at(q, c, len as int, cj), ci as int);
                    }
                    return (len, Some(ci));
                }
                qi += 1;
            }
            assert(!run_at(q, c, len as int, ci as int));
            ci += 1;
        }
        proof {
            lemma_least_none(|cj: int| run_at(q, c, len as int, cj));
        }
        len -= 1;
    }
    (0, None)
}

/// Query token `k` begins some candidate token at a position from `s` to `e`.
pub open spec fn token_covered(
    query: Seq<Seq<char>>,
    candidate: Seq<Seq<char>>,
    k: int,
    s: int,
    e: int,
) -> bool {
    exists|t: int| s <= t <= e && starts_with(candidate[t], query[k])
}

/// The candidate tokens from `s` to `e` cover every query token: each query
/// token begins one of them.
pub open spec fn covers(query: Seq<Seq<char>>, candidate: Seq<Seq<char>>, s: int, e: int) -> bool {
    &&& 0 <= s <= e < candidate.len()
    &&& forall|k: int| 0 <= k < query.len() ==> #[trigger] token_covered(query, candidate, k, s, e)
}

/// The covering window of `len` tokens at `start` is a shortest one, and the
/// first among the shortest.
pub open spec fn is_best_cover(
    query: Seq<Seq<char>>,
    candidate: Seq<Seq<char>>,
    len: int,
    start: int,
) -> bool {
    &&& covers(query, candidate, start, start + len - 1)
    &&& forall|s2: int, e2: int|
        #[trigger] covers(query, candidate, s2, e2) ==> e2 - s2 + 1 > len || (e2 - s2 + 1 == len
            && s2 >= start)
}

/// The length and start of the shortest (then first) window of candidate
/// tokens that covers the query; none for an empty query or one with more
/// tokens than the candidate.
pub open spec fn covering_summary(query: Seq<Seq<char>>, candidate: Seq<Seq<char>>) -> Option<
    (int, int),
> {
    if query.len() == 0 || query.len() > candidate.len() {
        None
    } else if exists|len: int, start: int| is_best_cover(query, candidate, len, start) {
        Some(choose|len: int, start: int| is_best_cover(query, candidate, len, start))
    } else {
        None
    }
}

proof fn lemma_best_cover_unique(
    query: Seq<Seq<char>>,
    candidate: Seq<Seq<char>>,
    len: int,
    start: int,
)
    requires
        query.len() > 0,
        query.len() <= candidate.len(),
        is_best_cover(query, candidate, len, start),
    ensures
        covering_summary(query, candidate) == Some((len, start)),
{
    let (l2, s2) = choose|l: int, s: int| is_best_cover(query, candidate, l, s);
    assert(is_best_cover(query, candidate, l2, s2));
    assert(covers(query, candidate, s2, s2 + l2 - 1));
    assert(covers(query, candidate, start, start + len - 1));
}

/// Whenever some window of candidate tokens covers a non-empty query of no
/// more tokens than the candidate, a covering span is reported, and it is a
/// shortest covering window, the first among the shortest; when none is
/// reported, no window covers the query.
pub proof fn lemma_covering_summary_found(query: Seq<Seq<char>>, candidate: Seq<Seq<char>>)
    ensures
        (0 < query.len() <= candidate.len() && exists|s: int, e: int| covers(query, candidate, s, e))
            ==> covering_summary(query, candidate) is Some,
        match covering_summary(query, candidate) {
            Some((len, start)) => is_best_cover(query, candidate, len, start),
            None => query.len() == 0 || query.len() > candidate.len() || forall|s: int, e: int|
                !#[trigger] covers(query, candidate, s, e),
        },
{
    if 0 < query.len() <= candidate.len() && exists|s: int, e: int| covers(query, candidate, s, e) {
        let (s, e) = choose|s: int, e: int| covers(query, candidate, s, e);
        let by_len = |l: int| exists|s2: int| #[trigger] covers(query, candidate, s2, s2 + l - 1);
        assert(covers(query, candidate, s, s + (e - s + 1) - 1));
        assert(by_len(e - s + 1));
        lemma_least_exists(by_len, e - s + 1);
        let len = least(by_len)->0;
        assert(is_least(by_len, len));
        let s1 = choose|s2: int| #[trigger] covers(query, candidate, s2, s2 + len - 1);
        let by_start = |st: int| covers(query, candidate, st, st + len - 1);
        assert(by_start(s1));
        lemma_least_exists(by_start, s1);
        let start = least(by_start)->0;
        assert(is_least(by_start, start));
        assert forall|s2: int, e2: int| #[trigger] covers(query, candidate, s2, e2) implies e2 - s2
            + 1 > len || (e2 - s2 + 1 == len && s2 >= start) by {
            assert(covers(query, candidate, s2, s2 + (e2 - s2 + 1) - 1));
            if e2 - s2 + 1 < len {
                assert(by_len(e2 - s2 + 1));
            }
            if e2 - s2 + 1 == len && s2 < start {
                assert(by_start(s2));
            }
        }
        assert(is_best_cover(query, candidate, len, start));
        lemma_best_cover_unique(query, candidate, len, start);
    } else {
        match covering_summary(query, candidate) {
            Some((len, start)) => {
                let (l2, s2) = choose|l: int, s: int| is_best_cover(query, candidate, l, s);
                assert(is_best_cover(query, candidate, l2, s2));
                assert(covers(query, candidate, s2, s2 + l2 - 1));
            },
            None => {},
        }
    }
}

/// Whether every flag is set.
fn all_set(flags: &Vec<bool>) -> (b: bool)
    ensures
        b == forall|k: int| 0 <= k < flags@.len() ==> #[trigger] flags@[k],
{
    let mut k: usize = 0;
    while k < flags.len()
        invariant
            k <= flags@.len(),
            forall|t: int| 0 <= t < k ==> #[trigger] flags@[t],
        decreases flags@.len() - k,
    {
        if !flags[k] {
            return false;
        }
        k += 1;
    }
    true
}

/// The length and start of the shortest (then first) window of candidate
/// tokens that covers every query token.
fn covering_span_stats(query_tokens: &Vec<Vec<char>>, candidate_tokens: &Vec<Vec<char>>) -> (stats: (
    Option<usize>,
    Option<usize>,
))
    ensures
        match covering_summary(token_seqs(query_tokens@), token_seqs(candidate_tokens@)) {
            Some((len, start)) => stats.0 == Some(len as usize) && stats.1 == Some(start as usize)
                && 0 <= len && 0 <= start && len + start <= candidate_tokens@.len(),
            None => stats.0 is None && stats.1 is None,
        },
{
    let ghost q = token_seqs(query_tokens@);
    let ghost c = token_seqs(candidate_tokens@);
    let query_len = query_tokens.len();
    let candidate_len = candidate_tokens.len();
    if query_len == 0 || query_len > candidate_len {
        return (None, None);
    }
    let mut best: Option<(usize, usize)> = None;
    let mut start: usize = 0;
    while start < candidate_len
        invariant
            q == token_seqs(query_tokens@),
            c == token_seqs(candidate_tokens@),
            query_len == query_tokens@.len(),
            candidate_len == candidate_tokens@.len(),
            0 < query_len <= candidate_len,
            start <= candidate_len,
            match best {
                Some((l, st)) => {
                    &&& covers(q, c, st as int, st + l - 1)
                    &&& l >= 1
                    &&& st < start
                    &&& forall|s2: int, e2: int|
                        s2 < start && #[trigger] covers(q, c, s2, e2) ==> e2 - s2 + 1 > l || (e2 - s2
                            + 1 == l && s2 >= st)
                },
                None => forall|s2: int, e2: int| s2 < start ==> !#[trigger] covers(q, c, s2, e2),
            },
        decreases candidate_len - start,
    {
        let mut matched: Vec<bool> = vec![false; query_len];
        let mut end: usize = start;
        let mut span: Option<usize> = None;
        while end < candidate_len
            invariant_except_break
                forall|k: int|
                    0 <= k < query_len ==> #[trigger] matched@[k] == token_covered(
                        q,
                        c,
                        k,
                        start as int,
                        end - 1,
                    ),
                span is None,
            invariant
                q == token_seqs(query_tokens@),
                c == token_seqs(candidate_tokens@),
                query_len == query_tokens@.len(),
                candidate_len == candidate_tokens@.len(),
                0 < query_len <= candidate_len,
                start < candidate_len,
                start <= end <= candidate_len,
                matched@.len() == query_len,
                forall|e2: int| start <= e2 < end ==> !#[trigger] covers(q, c, start as int, e2),
            ensures
                span matches Some(l) ==> l == end - start + 1 && end < candidate_len && covers(
                    q,
                    c,
                    start as int,
                    end as int,
                ),
                span is None ==> end == candidate_len,
            decreases candidate_len - end,
        {
            let mut qi: usize = 0;
            while qi < query_len
                invariant
                    q == token_seqs(query_tokens@),
                    c == token_seqs(candidate_tokens@),
                    query_len == query_tokens@.len(),
                    candidate_len == candidate_tokens@.len(),
                    start <= end < candidate_len,
                    qi <= query_len,
                    matched@.len() == query_len,
                    forall|k: int|
                        0 <= k < qi ==> #[trigger] matched@[k] == token_covered(
                            q,
                            c,
                            k,
                            start as int,
                            end as int,
                        ),
                    forall|k: int|
                        qi <= k < query_len ==> #[trigger] matched@[k] == token_covered(
                            q,
                            c,
                            k,
                            start as int,
                            end - 1,
                        ),
                decreases query_len - qi,
            {
                let ghost was = matched@[qi as int];
                if !matched[qi] && token_starts_with(&candidate_tokens[end], &query_tokens[qi]) {
                    matched[qi] = true;
                }
                proof {
                    if starts_with(c[end as int], q[qi as int]) {
                        assert(token_covered(q, c, qi as int, start as int, end as int));
                    }
                    if was {
                        let t = choose|t: int|
                            start <= t <= end - 1 && starts_with(c[t], q[qi as int]);
                        assert(token_covered(q, c, qi as int, start as int, end as int));
                    }
                    if token_covered(q, c, qi as int, start as int, end as int) {
                        let t = choose|t: int|
                            start <= t <= end && starts_with(c[t], q[qi as int]);
                        if t < end {
                            assert(token_covered(q, c, qi as int, start as int, end - 1));
                        }
                    }
                }
                qi += 1;
            }
            if all_set(&matched) {
                assert forall|k: int| 0 <= k < q.len() implies #[trigger] token_covered(
                    q,
                    c,
                    k,
                    start as int,
                    end as int,
                ) by {
                    assert(matched@[k]);
                }
                assert(covers(q, c, start as int, end as int));
                span = Some(end - start + 1);
                break ;
            }
            assert(!covers(q, c, start as int, end as int)) by {
                let k = choose|k: int| 0 <= k < matched@.len() && !matched@[k];
                assert(!token_covered(q, c, k, start as int, end as int));
            }
            end += 1;
        }
        match span {
            Some(span_len) => {
                let ghost e = start + span_len - 1;
                assert(covers(q, c, start as int, e));
                assert forall|e2: int| #[trigger] covers(q, c, start as int, e2) implies e2 >= e by {
                    if e2 < e {
                        assert(start <= e2 < end);
                    }
                }
                let replace = match best {
                    Some((l, _)) => span_len < l,
                    None => true,
                };
                if replace {
                    best = Some((span_len, start));
                }
            },
            None => {
                assert forall|e2: int| !#[trigger] covers(q, c, start as int, e2) by {
                    if start <= e2 < candidate_len {
                        assert(start <= e2 < end);
                    }
                }
            },
        }
        start += 1;
    }
    match best {
        Some((l, st)) => {
            assert forall|s2: int, e2: int| #[trigger] covers(q, c, s2, e2) implies e2 - s2 + 1 > l
                || (e2 - s2 + 1 == l && s2 >= st) by {
                assert(s2 < start);
            }
            proof {
                lemma_best_cover_unique(q, c, l as int, st as int);
            }
            (Some(l), Some(st))
        },
        None => {
            assert forall|len: int, st: int| !is_best_cover(q, c, len, st) by {
                if is_best_cover(q, c, len, st) {
                    assert(covers(q, c, st, st + len - 1));
                }
            }
            (None, None)
        },
    }
}

/// `tokens` without repetitions, each kept where it first occurs.
pub open spec fn dedup(tokens: Seq<Seq<char>>) -> Seq<Seq<char>>
    decreases tokens.len(),
{
    if tokens.len() == 0 {
        tokens
    } else {
        let kept = dedup(tokens.drop_last());
        if kept.contains(tokens.last()) {
            kept
        } else {
            kept.push(tokens.last())
        }
    }
}

/// Removing repetitions keeps something whenever there is something.
pub proof fn lemma_dedup_empty(tokens: Seq<Seq<char>>)
    ensures
        (dedup(tokens).len() == 0) == (tokens.len() == 0),
    decreases tokens.len(),
{
    if tokens.len() > 0 {
        lemma_dedup_empty(tokens.drop_last());
        let kept = dedup(tokens.drop_last());
        if kept.contains(tokens.last()) {
            assert(kept.len() > 0);
        }
    }
}

/// What removing repetitions gives holds no repetition, and only tokens of the input.
pub proof fn lemma_dedup_distinct(tokens: Seq<Seq<char>>)
    ensures
        dedup(tokens).no_duplicates(),
        forall|x: Seq<char>| dedup(tokens).contains(x) ==> tokens.contains(x),
    decreases tokens.len(),
{
    if tokens.len() > 0 {
        let rest = tokens.drop_last();
        lemma_dedup_distinct(rest);
        assert forall|x: Seq<char>| rest.contains(x) implies tokens.contains(x) by {
            let i = choose|i: int| 0 <= i < rest.len() && rest[i] == x;
            assert(tokens[i] == x);
        }
        let kept = dedup(rest);
        if !kept.contains(tokens.last()) {
            let after = kept.push(tokens.last());
            assert forall|i: int, j: int| 0 <= i < after.len() && 0 <= j < after.len() && i != j
                implies after[i] != after[j] by {
                if i == kept.len() {
                    assert(kept.contains(after[j]) || j == kept.len());
                } else if j == kept.len() {
                    assert(kept.contains(after[i]));
                }
            }
            assert forall|x: Seq<char>| after.contains(x) implies tokens.contains(x) by {
                let i = choose|i: int| 0 <= i < after.len() && after[i] == x;
                if i < kept.len() {
                    assert(kept.contains(x));
                } else {
                    assert(tokens[tokens.len() - 1] == x);
                }
            }
        }
    }
}

/// Removing repetitions loses no token: every token of the input is kept.
pub proof fn lemma_dedup_complete(tokens: Seq<Seq<char>>)
    ensures
        forall|x: Seq<char>| tokens.contains(x) ==> dedup(tokens).contains(x),
    decreases tokens.len(),
{
    if tokens.len() > 0 {
        let rest = tokens.drop_last();
        lemma_dedup_complete(rest);
        let kept = dedup(rest);
        assert forall|x: Seq<char>| tokens.contains(x) implies dedup(tokens).contains(x) by {
            let i = choose|i: int| 0 <= i < tokens.len() && tokens[i] == x;
            if i < rest.len() {
                assert(rest[i] == x);
                assert(rest.contains(x));
                assert(kept.contains(x));
                if !kept.contains(tokens.last()) {
                    let j = choose|j: int| 0 <= j < kept.len() && kept[j] == x;
                    assert(kept.push(tokens.last())[j] == x);
                }
            } else {
                if !kept.contains(tokens.last()) {
                    assert(kept.push(tokens.last())[kept.len() as int] == x);
                }
            }
        }
    }
}

/// How many of the query tokens begin `token`.
pub open spec fn hits(query: Seq<Seq<char>>, token: Seq<char>) -> nat
    decreases query.len(),
{
    if query.len() == 0 {
        0
    } else {
        hits(query.drop_last(), token) + if starts_with(token, query.last()) {
            1nat
        } else {
            0nat
        }
    }
}

/// How many of the query tokens equal `token`.
pub open spec fn equal_count(query: Seq<Seq<char>>, token: Seq<char>) -> nat
    decreases query.len(),
{
    if query.len() == 0 {
        0
    } else {
        equal_count(query.drop_last(), token) + if query.last() == token {
            1nat
        } else {
            0nat
        }
    }
}

/// The number of candidate tokens each query token begins, summed over the query.
pub open spec fn total_occurrences(query: Seq<Seq<char>>, candidate: Seq<Seq<char>>) -> nat
    decreases query.len(),
{
    if query.len() == 0 {
        0
    } else {
        total_occurrences(query.drop_last(), candidate) + prefixed_count(query.last(), candidate)
    }
}

/// How many query tokens begin at least one candidate token.
pub open spec fn matched_terms(query: Seq<Seq<char>>, candidate: Seq<Seq<char>>) -> nat
    decreases query.len(),
{
    if query.len() == 0 {
        0
    } else {
        matched_terms(query.drop_last(), candidate) + if prefixed_count(query.last(), candidate)
            > 0 {
            1nat
        } else {
            0nat
        }
    }
}

/// `hits` summed over the candidate tokens.
pub open spec fn hits_total(query: Seq<Seq<char>>, candidate: Seq<Seq<char>>) -> nat
    decreases candidate.len(),
{
    if candidate.len() == 0 {
        0
    } else {
        hits_total(query, candidate.drop_last()) + hits(query, candidate.last())
    }
}

proof fn lemma_total_occurrences_step(query: Seq<Seq<char>>, candidate: Seq<Seq<char>>)
    requires
        candidate.len() > 0,
    ensures
        total_occurrences(query, candidate) == total_occurrences(query, candidate.drop_last())
            + hits(query, candidate.last()),
    decreases query.len(),
{
    if query.len() > 0 {
        lemma_total_occurrences_step(query.drop_last(), candidate);
    }
}

/// Counting per query token or per candidate token gives the same total.
proof fn lemma_total_occurrences_by_candidate(query: Seq<Seq<char>>, candidate: Seq<Seq<char>>)
    ensures
        total_occurrences(query, candidate) == hits_total(query, candidate),
    decreases candidate.len(),
{
    if candidate.len() == 0 {
        lemma_total_occurrences_empty(query, candidate);
    } else {
        lemma_total_occurrences_step(query, candidate);
        lemma_total_occurrences_by_candidate(query, candidate.drop_last());
    }
}

proof fn lemma_total_occurrences_empty(query: Seq<Seq<char>>, candidate: Seq<Seq<char>>)
    requires
        candidate.len() == 0,
    ensures
        total_occurrences(query, candidate) == 0,
    decreases query.len(),
{
    if query.len() > 0 {
        lemma_total_occurrences_empty(query.drop_last(), candidate);
    }
}

proof fn lemma_equal_count_distinct(query: Seq<Seq<char>>, token: Seq<char>)
    requires
        query.no_duplicates(),
    ensures
        equal_count(query, token) <= 1,
        !query.contains(token) ==> equal_count(query, token) == 0,
    decreases query.len(),
{
    if query.len() > 0 {
        let rest = query.drop_last();
        assert(rest.no_duplicates());
        lemma_equal_count_distinct(rest, token);
        if query.last() == token {
            assert(!rest.contains(token)) by {
                if rest.contains(token) {
                    let i = choose|i: int| 0 <= i < rest.len() && rest[i] == token;
                    assert(query[i] == query[query.len() - 1]);
                }
            }
        }
        if !query.contains(token) {
            assert(!rest.contains(token)) by {
                if rest.contains(token) {
                    let i = choose|i: int| 0 <= i < rest.len() && rest[i] == token;
                    assert(query[i] == token);
                }
            }
            assert(query[query.len() - 1] != token);
        }
    }
}

proof fn lemma_hits_step(query: Seq<Seq<char>>, token: Seq<char>)
    requires
        token.len() > 0,
    ensures
        hits(query, token) <= hits(query, token.drop_last()) + equal_count(query, token),
    decreases query.len(),
{
    if query.len() > 0 {
        lemma_hits_step(query.drop_last(), token);
        let x = query.last();
        if starts_with(token, x) && x != token {
            assert(x.len() < token.len()) by {
                if x.len() == token.len() {
                    assert(token.take(x.len() as int) =~= token);
                }
            }
            assert(token.drop_last().take(x.len() as int) =~= token.take(x.len() as int));
        }
    }
}

/// A token begins with at most as many distinct non-empty query tokens as it has characters.
proof fn lemma_hits_bounded(query: Seq<Seq<char>>, token: Seq<char>)
    requires
        query.no_duplicates(),
        forall|i: int| 0 <= i < query.len() ==> #[trigger] query[i].len() > 0,
    ensures
        hits(query, token) <= token.len(),
    decreases token.len(),
{
    if token.len() == 0 {
        lemma_hits_empty(query, token);
    } else {
        lemma_hits_bounded(query, token.drop_last());
        lemma_hits_step(query, token);
        lemma_equal_count_distinct(query, token);
    }
}

proof fn lemma_hits_empty(query: Seq<Seq<char>>, token: Seq<char>)
    requires
        token.len() == 0,
        forall|i: int| 0 <= i < query.len() ==> #[trigger] query[i].len() > 0,
    ensures
        hits(query, token) == 0,
    decreases query.len(),
{
    if query.len() > 0 {
        let rest = query.drop_last();
        assert forall|i: int| 0 <= i < rest.len() implies #[trigger] rest[i].len() > 0 by {
            assert(rest[i] == query[i]);
        }
        lemma_hits_empty(rest, token);
        assert(query[query.len() - 1].len() > 0);
    }
}

/// The total number of occurrences is at most the number of characters of the candidate tokens.
proof fn lemma_total_occurrences_bounded(query: Seq<Seq<char>>, candidate: Seq<Seq<char>>)
    requires
        query.no_duplicates(),
        forall|i: int| 0 <= i < query.len() ==> #[trigger] query[i].len() > 0,
    ensures
        total_occurrences(query, candidate) <= total_chars(candidate),
    decreases candidate.len(),
{
    lemma_total_occurrences_by_candidate(query, candidate);
    lemma_hits_total_bounded(query, candidate);
}

proof fn lemma_hits_total_bounded(query: Seq<Seq<char>>, candidate: Seq<Seq<char>>)
    requires
        query.no_duplicates(),
        forall|i: int| 0 <= i < query.len() ==> #[trigger] query[i].len() > 0,
    ensures
        hits_total(query, candidate) <= total_chars(candidate),
    decreases candidate.len(),
{
    if candidate.len() > 0 {
        lemma_hits_total_bounded(query, candidate.drop_last());
        lemma_hits_bounded(query, candidate.last());
    }
}

/// Whether two tokens are equal.
pub fn tokens_equal(a: &Vec<char>, b: &Vec<char>) -> (eq: bool)
    ensures
        eq == (a@ == b@),
{
    if a.len() != b.len() {
        return false;
    }
    let mut k: usize = 0;
    while k < a.len()
        invariant
            a@.len() == b@.len(),
            k <= a@.len(),
            forall|t: int| 0 <= t < k ==> a@[t] == b@[t],
        decreases a@.len() - k,
    {
        if a[k] != b[k] {
            return false;
        }
        k += 1;
    }
    assert(a@ =~= b@);
    true
}

/// Whether `token` is one of `tokens`.
fn holds_token(tokens: &Vec<Vec<char>>, token: &Vec<char>) -> (found: bool)
    ensures
        found == token_seqs(tokens@).contains(token@),
{
    let mut k: usize = 0;
    while k < tokens.len()
        invariant
            k <= tokens@.len(),
            forall|t: int| 0 <= t < k ==> token_seqs(tokens@)[t] != token@,
        decreases tokens@.len() - k,
    {
        if tokens_equal(&tokens[k], token) {
            assert(token_seqs(tokens@)[k as int] == token@);
            return true;
        }
        k += 1;
    }
    false
}

/// A search query over messages: the distinct search tokens of the lowercased
/// query, in order of first occurrence; never empty.
#[derive(Debug, Eq, PartialEq)]
pub struct MessageQuery {
    tokens: Vec<Vec<char>>,
}

/// A copy of `token`.
fn copy_token(token: &Vec<char>) -> (copy: Vec<char>)
    ensures
        copy@ == token@,
{
    let mut copy: Vec<char> = Vec::new();
    let mut k: usize = 0;
    while k < token.len()
        invariant
            k <= token@.len(),
            copy@ == token@.take(k as int),
        decreases token@.len() - k,
    {
        copy.push(token[k]);
        k += 1;
        assert(copy@ =~= token@.take(k as int));
    }
    assert(token@.take(k as int) =~= token@);
    copy
}

/// A copy of every token, in order.
fn copy_tokens(tokens: &Vec<Vec<char>>) -> (copy: Vec<Vec<char>>)
    ensures
        token_seqs(copy@) == token_seqs(tokens@),
{
    let mut copy: Vec<Vec<char>> = Vec::new();
    let mut i: usize = 0;
    while i < tokens.len()
        invariant
            i <= tokens@.len(),
            token_seqs(copy@) == token_seqs(tokens@).take(i as int),
        decreases tokens@.len() - i,
    {
        let ghost before = copy@;
        copy.push(copy_token(&tokens[i]));
        i += 1;
        assert(token_seqs(copy@) =~= token_seqs(before).push(tokens@[i - 1]@));
        assert(token_seqs(copy@) =~= token_seqs(tokens@).take(i as int));
    }
    assert(token_seqs(tokens@).take(i as int) =~= token_seqs(tokens@));
    copy
}

impl Clone for MessageQuery {
    fn clone(&self) -> (copy: Self)
        ensures
            copy.tokens() == self.tokens(),
    {
        proof {
            use_type_invariant(self);
        }
        MessageQuery { tokens: copy_tokens(&self.tokens) }
    }
}

impl MessageQuery {
    /// Every query is well formed.
    #[verifier::type_invariant]
    spec fn well_formed(self) -> bool {
        self.wf()
    }

    /// The query tokens.
    pub closed spec fn tokens(self) -> Seq<Seq<char>> {
        token_seqs(self.tokens@)
    }

    /// A query holds at least one token, no empty token and no token twice.
    pub open spec fn wf(self) -> bool {
        &&& self.tokens().len() > 0
        &&& self.tokens().no_duplicates()
        &&& forall|i: int| 0 <= i < self.tokens().len() ==> #[trigger] self.tokens()[i].len() > 0
    }

    /// The query of an already lowercased text: its distinct search tokens,
    /// or `None` when it has none.
    pub fn from_lowered(lowered: &str) -> (query: Option<Self>)
        ensures
            match query {
                Some(q) => q.tokens() == dedup(search_tokens(lowered@)) && q.wf(),
                None => search_tokens(lowered@).len() == 0,
            },
    {
        let chars = chars_of(lowered);
        let split = split_search_tokens(&chars);
        let mut tokens: Vec<Vec<char>> = Vec::new();
        let mut i: usize = 0;
        while i < split.len()
            invariant
                i <= split@.len(),
                token_seqs(tokens@) == dedup(token_seqs(split@).take(i as int)),
            decreases split@.len() - i,
        {
            let ghost seen = token_seqs(split@).take(i + 1);
            assert(seen.drop_last() =~= token_seqs(split@).take(i as int));
            if !holds_token(&tokens, &split[i]) {
                let ghost before = tokens@;
                tokens.push(split[i].clone());
                assert(token_seqs(tokens@) =~= token_seqs(before).push(split@[i as int]@));
            }
            i += 1;
        }
        assert(token_seqs(split@).take(split@.len() as int) =~= token_seqs(split@));
        proof {
            let all = token_seqs(split@);
            lemma_dedup_empty(all);
            lemma_dedup_distinct(all);
            lemma_search_tokens_shape(chars@);
            let kept = token_seqs(tokens@);
            assert forall|i: int| 0 <= i < kept.len() implies #[trigger] kept[i].len() > 0 by {
                assert(kept.contains(kept[i]));
                assert(all.contains(kept[i]));
            }
        }
        if tokens.len() == 0 {
            None
        } else {
            Some(MessageQuery { tokens })
        }
    }

    /// The query of a text: the distinct search tokens of its lowercase form,
    /// or `None` when it has none.
    pub fn new(query: &str) -> (q: Option<Self>)
        ensures
            match q {
                Some(q) => q.tokens() == dedup(search_tokens(unicode_lowercase(query@))) && q.wf(),
                None => search_tokens(unicode_lowercase(query@)).len() == 0,
            },
    {
        let lowered = to_lowercase(query);
        Self::from_lowered(lowered.as_str())
    }
}

/// A message to rank: its key, its text, and the order key of its score (an
/// `i64` that orders scores as `f64::total_cmp` does).
#[derive(Clone, Copy, Debug)]
pub struct MessageCandidate<'a> {
    pub key: &'a str,
    pub text: &'a str,
    pub score_key: i64,
}

/// A message prepared for ranking: its lowercase text and the search tokens of it.
#[derive(Debug)]
pub struct PreparedMessageCandidate<'a> {
    pub key: &'a str,
    pub text: &'a str,
    pub score_key: i64,
    lowered: Vec<char>,
    tokens: Vec<Vec<char>>,
}

impl<'a> Clone for PreparedMessageCandidate<'a> {
    fn clone(&self) -> (copy: Self)
        ensures
            copy.key() == self.key(),
            copy.text() == self.text(),
            copy.score_key() == self.score_key(),
            copy.lowered() == self.lowered(),
            copy.tokens() == self.tokens(),
    {
        PreparedMessageCandidate {
            key: self.key,
            text: self.text,
            score_key: self.score_key,
            lowered: copy_token(&self.lowered),
            tokens: copy_tokens(&self.tokens),
        }
    }
}

impl<'a> PreparedMessageCandidate<'a> {
    /// The key of the message.
    pub closed spec fn key(self) -> &'a str {
        self.key
    }

    /// The text of the message.
    pub closed spec fn text(self) -> &'a str {
        self.text
    }

    /// The order key of the score of the message.
    pub closed spec fn score_key(self) -> i64 {
        self.score_key
    }

    /// The lowercased text.
    pub closed spec fn lowered(self) -> Seq<char> {
        self.lowered@
    }

    /// The search tokens of the lowercased text.
    pub closed spec fn tokens(self) -> Seq<Seq<char>> {
        token_seqs(self.tokens@)
    }

    /// The tokens are those of the lowercased text.
    pub open spec fn wf(self) -> bool {
        self.tokens() == search_tokens(self.lowered())
    }
}

impl<'a> MessageCandidate<'a> {
    /// Prepares the message for ranking, given its text already lowercased.
    pub fn prepare_lowered(self, lowered: &str) -> (prepared: PreparedMessageCandidate<'a>)
        ensures
            prepared.key() == self.key,
            prepared.text() == self.text,
            prepared.score_key() == self.score_key,
            prepared.lowered() == lowered@,
            prepared.wf(),
    {
        let lowered_chars = chars_of(lowered);
        let tokens = split_search_tokens(&lowered_chars);
        PreparedMessageCandidate {
            key: self.key,
            text: self.text,
            score_key: self.score_key,
            lowered: lowered_chars,
            tokens,
        }
    }

    /// Prepares the message for ranking: lowercases its text and splits it
    /// into search tokens.
    pub fn prepare(self) -> (prepared: PreparedMessageCandidate<'a>)
        ensures
            prepared.key() == self.key,
            prepared.text() == self.text,
            prepared.score_key() == self.score_key,
            prepared.lowered() == unicode_lowercase(self.text@),
            prepared.wf(),
    {
        let lowered = to_lowercase(self.text);
        self.prepare_lowered(lowered.as_str())
    }
}

/// How a message matched a query.
#[derive(Clone, Copy, Debug)]
pub struct MessageMatch<'a> {
    pub key: &'a str,
    pub text: &'a str,
    pub score_key: i64,
    pub phrase_occurrences: usize,
    pub phrase_position: Option<usize>,
    pub adjacent_run_len: usize,
    pub adjacent_run_position: Option<usize>,
    pub covering_span_len: Option<usize>,
    pub covering_span_position: Option<usize>,
    pub matched_terms: usize,
    pub total_occurrences: usize,
}

/// A position as an integer.
pub open spec fn position_of(p: Option<usize>) -> Option<int> {
    match p {
        Some(x) => Some(x as int),
        None => None,
    }
}

/// The query tokens match the candidate tokens at all: there are candidate
/// tokens, and some query token begins one of them.
pub open spec fn is_match(query: Seq<Seq<char>>, candidate: Seq<Seq<char>>) -> bool {
    candidate.len() > 0 && matched_terms(query, candidate) > 0
}

impl<'a> MessageMatch<'a> {
    /// The statistics of the match are those of the query tokens against the
    /// candidate tokens.
    pub open spec fn measures(self, query: Seq<Seq<char>>, candidate: Seq<Seq<char>>) -> bool {
        &&& self.matched_terms == matched_terms(query, candidate)
        &&& self.total_occurrences == total_occurrences(query, candidate)
        &&& self.phrase_occurrences == phrase_summary(query, candidate).0
        &&& position_of(self.phrase_position) == phrase_summary(query, candidate).1
        &&& self.adjacent_run_len == adjacent_summary(query, candidate).0
        &&& position_of(self.adjacent_run_position) == adjacent_summary(query, candidate).1
        &&& match covering_summary(query, candidate) {
            Some((len, start)) => position_of(self.covering_span_len) == Some(len) && position_of(
                self.covering_span_position,
            ) == Some(start),
            None => self.covering_span_len is None && self.covering_span_position is None,
        }
    }
}

impl MessageQuery {
    fn rank_from_parts<'a>(
        &self,
        key: &'a str,
        text: &'a str,
        score_key: i64,
        candidate_tokens: &Vec<Vec<char>>,
    ) -> (found: Option<MessageMatch<'a>>)
        requires
            self.wf(),
            total_chars(token_seqs(candidate_tokens@)) <= usize::MAX,
        ensures
            match found {
                Some(m) => {
                    &&& is_match(self.tokens(), token_seqs(candidate_tokens@))
                    &&& m.key == key
                    &&& m.text == text
                    &&& m.score_key == score_key
                    &&& m.measures(self.tokens(), token_seqs(candidate_tokens@))
                },
                None => !is_match(self.tokens(), token_seqs(candidate_tokens@)),
            },
    {
        let ghost q = self.tokens();
        let ghost c = token_seqs(candidate_tokens@);
        if candidate_tokens.len() == 0 {
            return None;
        }
        let mut matched: usize = 0;
        let mut total: usize = 0;
        let mut k: usize = 0;
        while k < self.tokens.len()
            invariant
                q == self.tokens(),
                q == token_seqs(self.tokens@),
                c == token_seqs(candidate_tokens@),
                self.wf(),
                total_chars(c) <= usize::MAX,
                k <= q.len(),
                matched == matched_terms(q.take(k as int), c),
                total == total_occurrences(q.take(k as int), c),
                matched <= k,
            decreases q.len() - k,
        {
            let count = count_token_prefix_occurrences(&self.tokens[k], candidate_tokens);
            let ghost upto = q.take(k + 1);
            assert(upto.drop_last() =~= q.take(k as int));
            proof {
                assert(upto.no_duplicates()) by {
                    assert forall|a: int, b: int|
                        0 <= a < upto.len() && 0 <= b < upto.len() && a != b implies upto[a]
                        != upto[b] by {
                        assert(upto[a] == q[a] && upto[b] == q[b]);
                    }
                }
                assert forall|i: int| 0 <= i < upto.len() implies #[trigger] upto[i].len() > 0 by {
                    assert(upto[i] == q[i]);
                }
                lemma_total_occurrences_bounded(upto, c);
            }
            if count > 0 {
                matched += 1;
            }
            total += count;
            k += 1;
        }
        assert(q.take(q.len() as int) =~= q);
        if matched == 0 {
            return None;
        }
        let (phrase_occurrences, phrase_position) = phrase_stats(&self.tokens, candidate_tokens);
        let (adjacent_run_len, adjacent_run_position) = adjacent_run_stats(
            &self.tokens,
            candidate_tokens,
        );
        let (covering_span_len, covering_span_position) = covering_span_stats(
            &self.tokens,
            candidate_tokens,
        );
        Some(
            MessageMatch {
                key,
                text,
                score_key,
                phrase_occurrences,
                phrase_position,
                adjacent_run_len,
                adjacent_run_position,
                covering_span_len,
                covering_span_position,
                matched_terms: matched,
                total_occurrences: total,
            },
        )
    }

    /// Ranks a message against the query: `None` when no query token begins
    /// any token of the message, else the statistics of the match.
    pub fn search_rank<'a>(&self, candidate: MessageCandidate<'a>) -> (found: Option<
        MessageMatch<'a>,
    >)
        ensures
            match found {
                Some(m) => {
                    &&& is_match(self.tokens(), search_tokens(unicode_lowercase(candidate.text@)))
                    &&& m.key == candidate.key
                    &&& m.text == candidate.text
                    &&& m.score_key == candidate.score_key
                    &&& m.measures(self.tokens(), search_tokens(unicode_lowercase(candidate.text@)))
                },
                None => !is_match(self.tokens(), search_tokens(unicode_lowercase(candidate.text@))),
            },
    {
        let prepared = candidate.prepare();
        self.search_rank_prepared(&prepared)
    }

    /// Ranks a prepared message against the query: `None` when no query token
    /// begins any token of the message, else the statistics of the match.
    pub fn search_rank_prepared<'a>(&self, candidate: &PreparedMessageCandidate<'a>) -> (found:
        Option<MessageMatch<'a>>)
        requires
            candidate.wf(),
        ensures
            match found {
                Some(m) => {
                    &&& is_match(self.tokens(), candidate.tokens())
                    &&& m.key == candidate.key()
                    &&& m.text == candidate.text()
                    &&& m.score_key == candidate.score_key()
                    &&& m.measures(self.tokens(), candidate.tokens())
                },
                None => !is_match(self.tokens(), candidate.tokens()),
            },
    {
        proof {
            use_type_invariant(self);
            lemma_search_tokens_shape(candidate.lowered@);
            assert(candidate.lowered@.len() == candidate.lowered.len());
        }
        self.rank_from_parts(candidate.key, candidate.text, candidate.score_key, &candidate.tokens)
    }
}

/// `needle` occurs in `haystack` as a run of consecutive characters.
pub open spec fn occurs_in(haystack: Seq<char>, needle: Seq<char>) -> bool {
    exists|i: int|
        0 <= i && i + needle.len() <= haystack.len() && #[trigger] haystack.subrange(
            i,
            i + needle.len(),
        ) == needle
}

/// Whether `needle` occurs in `haystack`.
fn contains_run(haystack: &Vec<char>, needle: &Vec<char>) -> (found: bool)
    ensures
        found == occurs_in(haystack@, needle@),
{
    let n = haystack.len();
    let m = needle.len();
    if m > n {
        assert forall|i: int|
            0 <= i && i + m <= n implies #[trigger] haystack@.subrange(i, i + m) != needle@ by {}
        return false;
    }
    let mut i: usize = 0;
    while i <= n - m
        invariant
            n == haystack@.len(),
            m == needle@.len(),
            m <= n,
            i <= n - m + 1,
            forall|p: int| 0 <= p < i ==> #[trigger] haystack@.subrange(p, p + m) != needle@,
        decreases n - m + 1 - i,
    {
        let mut k: usize = 0;
        let mut same = true;
        while k < m
            invariant
                n == haystack@.len(),
                m == needle@.len(),
                i + m <= n,
                k <= m,
                same == forall|t: int| 0 <= t < k ==> haystack@[i + t] == needle@[t],
            decreases m - k,
        {
            if haystack[i + k] != needle[k] {
                same = false;
            }
            k += 1;
        }
        if same {
            assert(haystack@.subrange(i as int, i + m) =~= needle@);
            return true;
        }
        assert(haystack@.subrange(i as int, i + m) != needle@) by {
            let t = choose|t: int| 0 <= t < m && haystack@[i + t] != needle@[t];
            assert(haystack@.subrange(i as int, i + m)[t] == haystack@[i + t]);
        }
        i += 1;
    }
    false
}

proof fn lemma_prefixed_count_witness(prefix: Seq<char>, tokens: Seq<Seq<char>>)
    requires
        prefixed_count(prefix, tokens) > 0,
    ensures
        exists|j: int| 0 <= j < tokens.len() && starts_with(tokens[j], prefix),
    decreases tokens.len(),
{
    if !starts_with(tokens.last(), prefix) {
        lemma_prefixed_count_witness(prefix, tokens.drop_last());
        let j = choose|j: int|
            0 <= j < tokens.drop_last().len() && starts_with(tokens.drop_last()[j], prefix);
        assert(tokens[j] == tokens.drop_last()[j]);
    } else {
        assert(starts_with(tokens[tokens.len() - 1], prefix));
    }
}

proof fn lemma_matched_terms_witness(query: Seq<Seq<char>>, candidate: Seq<Seq<char>>)
    requires
        matched_terms(query, candidate) > 0,
    ensures
        exists|k: int| 0 <= k < query.len() && prefixed_count(query[k], candidate) > 0,
    decreases query.len(),
{
    if prefixed_count(query.last(), candidate) == 0 {
        lemma_matched_terms_witness(query.drop_last(), candidate);
        let k = choose|k: int|
            0 <= k < query.drop_last().len() && prefixed_count(query.drop_last()[k], candidate) > 0;
        assert(query[k] == query.drop_last()[k]);
    } else {
        assert(prefixed_count(query[query.len() - 1], candidate) > 0);
    }
}

proof fn lemma_prefixed_count_positive(prefix: Seq<char>, tokens: Seq<Seq<char>>, j: int)
    requires
        0 <= j < tokens.len(),
        starts_with(tokens[j], prefix),
    ensures
        prefixed_count(prefix, tokens) > 0,
    decreases tokens.len(),
{
    if j < tokens.len() - 1 {
        assert(tokens.drop_last()[j] == tokens[j]);
        lemma_prefixed_count_positive(prefix, tokens.drop_last(), j);
    }
}

proof fn lemma_all_terms_matched(query: Seq<Seq<char>>, candidate: Seq<Seq<char>>)
    requires
        forall|k: int| 0 <= k < query.len() ==> #[trigger] prefixed_count(query[k], candidate) > 0,
    ensures
        matched_terms(query, candidate) == query.len(),
    decreases query.len(),
{
    if query.len() > 0 {
        let rest = query.drop_last();
        assert forall|k: int| 0 <= k < rest.len() implies #[trigger] prefixed_count(
            rest[k],
            candidate,
        ) > 0 by {
            assert(rest[k] == query[k]);
            assert(prefixed_count(query[k], candidate) > 0);
        }
        lemma_all_terms_matched(rest, candidate);
        assert(prefixed_count(query[query.len() - 1], candidate) > 0);
    }
}

proof fn lemma_phrase_count_witness(query: Seq<Seq<char>>, candidate: Seq<Seq<char>>, upto: int)
    requires
        phrase_count(query, candidate, upto) > 0,
    ensures
        exists|at: int| window_matches(query, candidate, at),
    decreases upto,
{
    if !window_matches(query, candidate, upto - 1) {
        lemma_phrase_count_witness(query, candidate, upto - 1);
    }
}

/// A message that holds the query as a phrase matches every query term.
pub proof fn lemma_phrase_matches_every_term(query: Seq<Seq<char>>, candidate: Seq<Seq<char>>)
    requires
        phrase_summary(query, candidate).0 > 0,
    ensures
        matched_terms(query, candidate) == query.len(),
        is_match(query, candidate),
{
    lemma_phrase_count_witness(query, candidate, candidate.len() - query.len() + 1);
    let at = choose|at: int| window_matches(query, candidate, at);
    assert forall|k: int| 0 <= k < query.len() implies #[trigger] prefixed_count(
        query[k],
        candidate,
    ) > 0 by {
        assert(starts_with(candidate[at + k], query[k]));
        lemma_prefixed_count_positive(query[k], candidate, at + k);
    }
    lemma_all_terms_matched(query, candidate);
}

proof fn lemma_phrase_count_positive(
    query: Seq<Seq<char>>,
    candidate: Seq<Seq<char>>,
    upto: int,
    at: int,
)
    requires
        0 <= at < upto,
        window_matches(query, candidate, at),
    ensures
        phrase_count(query, candidate, upto) > 0,
    decreases upto,
{
    if at < upto - 1 {
        lemma_phrase_count_positive(query, candidate, upto - 1, at);
    }
}

/// The phrase is counted exactly when it is found: a message has phrase
/// occurrences if and only if a first phrase position is reported, and that
/// position is the first at which every query token, in order, begins the
/// candidate token at the same offset.
pub proof fn lemma_phrase_summary_consistent(query: Seq<Seq<char>>, candidate: Seq<Seq<char>>)
    ensures
        (phrase_summary(query, candidate).0 > 0) == (phrase_summary(query, candidate).1 is Some),
        (phrase_summary(query, candidate).1 is Some) == (query.len() > 0 && exists|at: int|
            window_matches(query, candidate, at)),
        match phrase_summary(query, candidate).1 {
            Some(p) => {
                &&& 0 <= p && p + query.len() <= candidate.len()
                &&& forall|k: int|
                    0 <= k < query.len() ==> starts_with(candidate[p + k], #[trigger] query[k])
                &&& forall|q: int| 0 <= q < p ==> !#[trigger] window_matches(query, candidate, q)
            },
            None => true,
        },
{
    let pred = |at: int| window_matches(query, candidate, at);
    if query.len() > 0 && exists|at: int| window_matches(query, candidate, at) {
        let at = choose|at: int| window_matches(query, candidate, at);
        assert(pred(at));
        lemma_least_exists(pred, at);
        let p = least(pred)->0;
        assert(is_least(pred, p));
        assert forall|q: int| 0 <= q < p implies !#[trigger] window_matches(query, candidate, q) by {
            assert(!pred(q));
        }
        lemma_phrase_count_positive(query, candidate, candidate.len() - query.len() + 1, at);
    } else if query.len() > 0 && query.len() <= candidate.len() {
        lemma_least_none(pred);
        if phrase_summary(query, candidate).0 > 0 {
            lemma_phrase_count_witness(query, candidate, candidate.len() - query.len() + 1);
        }
    }
}

/// A message matches exactly when it has tokens and some query token begins
/// one of them.
pub proof fn lemma_is_match_iff(query: Seq<Seq<char>>, candidate: Seq<Seq<char>>)
    ensures
        is_match(query, candidate) == (candidate.len() > 0 && exists|k: int, j: int|
            0 <= k < query.len() && 0 <= j < candidate.len() && starts_with(
                #[trigger] candidate[j],
                #[trigger] query[k],
            )),
{
    if is_match(query, candidate) {
        lemma_matched_terms_witness(query, candidate);
        let k = choose|k: int| 0 <= k < query.len() && prefixed_count(query[k], candidate) > 0;
        lemma_prefixed_count_witness(query[k], candidate);
        let j = choose|j: int| 0 <= j < candidate.len() && starts_with(candidate[j], query[k]);
        assert(starts_with(candidate[j], query[k]));
    }
    if candidate.len() > 0 && exists|k: int, j: int|
        0 <= k < query.len() && 0 <= j < candidate.len() && starts_with(
            #[trigger] candidate[j],
            #[trigger] query[k],
        ) {
        let (k, j) = choose|k: int, j: int|
            0 <= k < query.len() && 0 <= j < candidate.len() && starts_with(
                #[trigger] candidate[j],
                #[trigger] query[k],
            );
        lemma_prefixed_count_positive(query[k], candidate, j);
        lemma_matched_terms_positive(query, candidate, k);
    }
}

proof fn lemma_matched_terms_positive(query: Seq<Seq<char>>, candidate: Seq<Seq<char>>, k: int)
    requires
        0 <= k < query.len(),
        prefixed_count(query[k], candidate) > 0,
    ensures
        matched_terms(query, candidate) > 0,
    decreases query.len(),
{
    if k < query.len() - 1 {
        assert(query.drop_last()[k] == query[k]);
        lemma_matched_terms_positive(query.drop_last(), candidate, k);
    }
}

/// Whether some query token is a candidate token or begins one, or the first
/// query token occurs anywhere in the lowercased text.
pub open spec fn has_query_signal(
    query: Seq<Seq<char>>,
    candidate: Seq<Seq<char>>,
    lowered: Seq<char>,
) -> bool {
    ||| exists|k: int, j: int|
        0 <= k < query.len() && 0 <= j < candidate.len() && (candidate[j] == query[k] || starts_with(
            #[trigger] candidate[j],
            #[trigger] query[k],
        ))
    ||| query.len() > 0 && occurs_in(lowered, query[0])
}

/// The signal check never turns away a message that matches: every message
/// that search ranking accepts passes it.
pub proof fn lemma_match_has_signal(
    query: Seq<Seq<char>>,
    candidate: Seq<Seq<char>>,
    lowered: Seq<char>,
)
    requires
        is_match(query, candidate),
    ensures
        has_query_signal(query, candidate, lowered),
{
    lemma_matched_terms_witness(query, candidate);
    let k = choose|k: int| 0 <= k < query.len() && prefixed_count(query[k], candidate) > 0;
    lemma_prefixed_count_witness(query[k], candidate);
    let j = choose|j: int| 0 <= j < candidate.len() && starts_with(candidate[j], query[k]);
    assert(starts_with(candidate[j], query[k]));
}

/// A fast check of whether a message can match the query at all: some query
/// token is one of its tokens or begins one, or the first query token occurs
/// in its lowercased text.
pub fn contains_query_signal(query: &MessageQuery, candidate: &PreparedMessageCandidate<'_>) -> (b:
    bool)
    ensures
        b == has_query_signal(query.tokens(), candidate.tokens(), candidate.lowered()),
{
    proof {
        use_type_invariant(query);
    }
    let ghost q = query.tokens();
    let ghost c = candidate.tokens();
    let mut k: usize = 0;
    while k < query.tokens.len()
        invariant
            q == query.tokens(),
            q == token_seqs(query.tokens@),
            c == token_seqs(candidate.tokens@),
            k <= q.len(),
            forall|a: int, j: int|
                0 <= a < k && 0 <= j < c.len() ==> !(c[j] == q[a] || starts_with(
                    #[trigger] c[j],
                    #[trigger] q[a],
                )),
        decreases q.len() - k,
    {
        let token = &query.tokens[k];
        if holds_token(&candidate.tokens, token) {
            let ghost j = choose|j: int| 0 <= j < c.len() && c[j] == q[k as int];
            assert(c[j] == q[k as int]);
            return true;
        }
        let mut j: usize = 0;
        while j < candidate.tokens.len()
            invariant
                q == token_seqs(query.tokens@),
                c == token_seqs(candidate.tokens@),
                k < q.len(),
                j <= c.len(),
                token@ == q[k as int],
                !c.contains(q[k as int]),
                forall|t: int| 0 <= t < j ==> !starts_with(#[trigger] c[t], q[k as int]),
            decreases c.len() - j,
        {
            if token_starts_with(&candidate.tokens[j], token) {
                assert(starts_with(c[j as int], q[k as int]));
                return true;
            }
            j += 1;
        }
        assert forall|t: int| 0 <= t < c.len() implies !(c[t] == q[k as int] || starts_with(
            #[trigger] c[t],
            q[k as int],
        )) by {
            if c[t] == q[k as int] {
                assert(c.contains(q[k as int]));
            }
        }
        k += 1;
    }
    contains_run(&candidate.lowered, &query.tokens[0])
}

/// An absent length or position counts as the largest one.
pub open spec fn or_largest(o: Option<usize>) -> usize {
    match o {
        Some(x) => x,
        None => usize::MAX,
    }
}

fn unwrap_or_largest(o: Option<usize>) -> (x: usize)
    ensures
        x == or_largest(o),
{
    match o {
        Some(x) => x,
        None => usize::MAX,
    }
}

/// The order of message matches, best first: more matched terms; a phrase
/// occurrence; a longer adjacent run; a shorter covering span; an earlier
/// covering span; more occurrences; a higher score; then the key.
pub open spec fn match_order(left: MessageMatch, right: MessageMatch) -> Ordering {
    then_order(
        usize_order(right.matched_terms, left.matched_terms),
        then_order(
            bool_order(right.phrase_occurrences > 0, left.phrase_occurrences > 0),
            then_order(
                usize_order(right.adjacent_run_len, left.adjacent_run_len),
                then_order(
                    usize_order(or_largest(left.covering_span_len), or_largest(right.covering_span_len)),
                    then_order(
                        usize_order(
                            or_largest(left.covering_span_position),
                            or_largest(right.covering_span_position),
                        ),
                        then_order(
                            usize_order(right.total_occurrences, left.total_occurrences),
                            then_order(
                                i64_order(right.score_key, left.score_key),
                                str_order(left.key@, right.key@),
                            ),
                        ),
                    ),
                ),
            ),
        ),
    )
}

fn compare_matches(left: &MessageMatch<'_>, right: &MessageMatch<'_>) -> (o: Ordering)
    ensures
        o == match_order(*left, *right),
{
    then(
        compare_usize(right.matched_terms, left.matched_terms),
        then(
            compare_bool(right.phrase_occurrences > 0, left.phrase_occurrences > 0),
            then(
                compare_usize(right.adjacent_run_len, left.adjacent_run_len),
                then(
                    compare_usize(
                        unwrap_or_largest(left.covering_span_len),
                        unwrap_or_largest(right.covering_span_len),
                    ),
                    then(
                        compare_usize(
                            unwrap_or_largest(left.covering_span_position),
                            unwrap_or_largest(right.covering_span_position),
                        ),
                        then(
                            compare_usize(right.total_occurrences, left.total_occurrences),
                            then(
                                compare_i64(right.score_key, left.score_key),
                                compare_str(left.key, right.key),
                            ),
                        ),
                    ),
                ),
            ),
        ),
    )
}

/// The order of message matches is a total preorder: antisymmetric, reflexive
/// and transitive.
pub proof fn lemma_match_order(a: MessageMatch, b: MessageMatch, c: MessageMatch)
    ensures
        match_order(a, b) == flip(match_order(b, a)),
        match_order(a, a) == Ordering::Equal,
        not_after(match_order(a, b)) && not_after(match_order(b, c)) ==> not_after(
            match_order(a, c),
        ),
        match_order(a, b) == Ordering::Less && not_after(match_order(b, c)) ==> match_order(a, c)
            == Ordering::Less,
{
    lemma_str_order_laws(a.key@, b.key@, c.key@);
}

/// Message matches are ordered best first by the first of these in which two
/// differ: more matched terms; a phrase occurrence against none; a longer
/// adjacent run; a shorter covering span; an earlier covering span; more
/// occurrences; a higher score. A missing covering span counts as longer, and
/// later, than any other. Matches equal in all of them are ordered by key.
/// So of two matches equal in terms, phrase and adjacent run, the one whose
/// terms lie closer together comes first.
pub proof fn lemma_match_order_decides(a: MessageMatch, b: MessageMatch)
    ensures
        (a.matched_terms > b.matched_terms)
            ==> match_order(a, b) == Ordering::Less,
        (a.matched_terms == b.matched_terms
            && a.phrase_occurrences > 0 && b.phrase_occurrences == 0)
            ==> match_order(a, b) == Ordering::Less,
        (a.matched_terms == b.matched_terms
            && (a.phrase_occurrences > 0) == (b.phrase_occurrences > 0)
            && a.adjacent_run_len > b.adjacent_run_len)
            ==> match_order(a, b) == Ordering::Less,
        (a.matched_terms == b.matched_terms
            && (a.phrase_occurrences > 0) == (b.phrase_occurrences > 0)
            && a.adjacent_run_len == b.adjacent_run_len
            && ((a.covering_span_len is Some && b.covering_span_len is Some && a.covering_span_len->0 < b.covering_span_len->0)
                || (a.covering_span_len is Some && b.covering_span_len is None && a.covering_span_len->0 < usize::MAX)))
            ==> match_order(a, b) == Ordering::Less,
        (a.matched_terms == b.matched_terms
            && (a.phrase_occurrences > 0) == (b.phrase_occurrences > 0)
            && a.adjacent_run_len == b.adjacent_run_len
            && a.covering_span_len == b.covering_span_len
            && ((a.covering_span_position is Some && b.covering_span_position is Some && a.covering_span_position->0 < b.covering_span_position->0)
                || (a.covering_span_position is Some && b.covering_span_position is None && a.covering_span_position->0 < usize::MAX)))
            ==> match_order(a, b) == Ordering::Less,
        (a.matched_terms == b.matched_terms
            && (a.phrase_occurrences > 0) == (b.phrase_occurrences > 0)
            && a.adjacent_run_len == b.adjacent_run_len
            && a.covering_span_len == b.covering_span_len
            && a.covering_span_position == b.covering_span_position
            && a.total_occurrences > b.total_occurrences)
            ==> match_order(a, b) == Ordering::Less,
        (a.matched_terms == b.matched_terms
            && (a.phrase_occurrences > 0) == (b.phrase_occurrences > 0)
            && a.adjacent_run_len == b.adjacent_run_len
            && a.covering_span_len == b.covering_span_len
            && a.covering_span_position == b.covering_span_position
            && a.total_occurrences == b.total_occurrences
            && a.score_key > b.score_key)
            ==> match_order(a, b) == Ordering::Less,
        (a.matched_terms == b.matched_terms
            && (a.phrase_occurrences > 0) == (b.phrase_occurrences > 0)
            && a.adjacent_run_len == b.adjacent_run_len
            && a.covering_span_len == b.covering_span_len
            && a.covering_span_position == b.covering_span_position
            && a.total_occurrences == b.total_occurrences
            && a.score_key == b.score_key)
            ==> match_order(a, b) == str_order(a.key@, b.key@),
{
}


/// `left` may come before `right`: it is not worse.
pub open spec fn match_before(left: MessageMatch, right: MessageMatch) -> bool {
    not_after(match_order(left, right))
}

/// Whether `left` may come before `right`.
fn in_order(left: &MessageMatch<'_>, right: &MessageMatch<'_>) -> (b: bool)
    ensures
        b == match_before(*left, *right),
{
    match compare_matches(left, right) {
        Ordering::Greater => false,
        _ => true,
    }
}

/// "May come before" is a total preorder.
pub proof fn lemma_match_before(a: MessageMatch, b: MessageMatch, c: MessageMatch)
    ensures
        match_before(a, a),
        match_before(a, b) || match_before(b, a),
        match_before(a, b) && match_before(b, c) ==> match_before(a, c),
{
    lemma_match_order(a, b, c);
}

/// The matches from `lo` up to `hi` are in order.
pub open spec fn sorted_between(s: Seq<MessageMatch>, lo: int, hi: int) -> bool {
    forall|a: int, b: int| lo <= a < b < hi ==> match_before(#[trigger] s[a], #[trigger] s[b])
}

/// Neither match is better than the other.
pub open spec fn tied(a: MessageMatch, b: MessageMatch) -> bool {
    match_before(a, b) && match_before(b, a)
}

/// `after` holds the matches of `before` rearranged by `perm` (position `k` of
/// `after` holds position `perm[k]` of `before`), and tied matches keep their
/// relative order.
pub open spec fn stable_rearrangement(
    before: Seq<MessageMatch>,
    after: Seq<MessageMatch>,
    perm: Seq<int>,
) -> bool {
    &&& perm.len() == before.len()
    &&& after.len() == before.len()
    &&& forall|k: int| 0 <= k < perm.len() ==> 0 <= #[trigger] perm[k] < before.len()
    &&& forall|a: int, b: int|
        0 <= a < perm.len() && 0 <= b < perm.len() && a != b ==> #[trigger] perm[a]
            != #[trigger] perm[b]
    &&& forall|k: int| 0 <= k < after.len() ==> #[trigger] after[k] == before[perm[k]]
    &&& forall|a: int, b: int|
        0 <= a < b < after.len() && tied(#[trigger] after[a], #[trigger] after[b]) ==> perm[a]
            < perm[b]
}

/// Sorts matches best first (see `match_order`); the sort is stable: tied
/// matches keep their relative order.
pub fn sort_matches(matches: &mut [MessageMatch<'_>])
    ensures
        final(matches)@.to_multiset() == old(matches)@.to_multiset(),
        sorted_between(final(matches)@, 0, final(matches)@.len() as int),
        exists|perm: Seq<int>| stable_rearrangement(old(matches)@, final(matches)@, perm),
{
    broadcast use vstd::seq_lib::to_multiset_update;

    let n = matches.len();
    let ghost original = matches@;
    let ghost mut perm: Seq<int> = Seq::new(n as nat, |k: int| k);
    if n == 0 {
        assert(stable_rearrangement(original, matches@, perm));
        return ;
    }
    let mut i: usize = 1;
    while i < n
        invariant
            n == matches@.len(),
            original == old(matches)@,
            1 <= i <= n,
            matches@.to_multiset() == original.to_multiset(),
            sorted_between(matches@, 0, i as int),
            perm.len() == n,
            forall|k: int| 0 <= k < n ==> 0 <= #[trigger] perm[k] < n,
            forall|k: int| 0 <= k < i ==> #[trigger] perm[k] < i,
            forall|k: int| i <= k < n ==> #[trigger] perm[k] == k,
            forall|a: int, b: int|
                0 <= a < n && 0 <= b < n && a != b ==> #[trigger] perm[a] != #[trigger] perm[b],
            forall|k: int| 0 <= k < n ==> #[trigger] matches@[k] == original[perm[k]],
            forall|a: int, b: int|
                0 <= a < b < i && tied(#[trigger] matches@[a], #[trigger] matches@[b]) ==> perm[a]
                    < perm[b],
        decreases n - i,
    {
        let mut j: usize = i;
        while j > 0 && !in_order(&matches[j - 1], &matches[j])
            invariant
                n == matches@.len(),
                original == old(matches)@,
                0 <= j <= i < n,
                matches@.to_multiset() == original.to_multiset(),
                sorted_between(matches@, 0, j as int),
                sorted_between(matches@, j as int, i + 1),
                forall|a: int, b: int|
                    0 <= a < j < b <= i ==> match_before(
                        #[trigger] matches@[a],
                        #[trigger] matches@[b],
                    ),
                perm.len() == n,
                perm[j as int] == i,
                forall|k: int| 0 <= k < n ==> 0 <= #[trigger] perm[k] < n,
                forall|k: int| 0 <= k <= i && k != j ==> #[trigger] perm[k] < i,
                forall|k: int| i < k < n ==> #[trigger] perm[k] == k,
                forall|a: int, b: int|
                    0 <= a < n && 0 <= b < n && a != b ==> #[trigger] perm[a] != #[trigger] perm[b],
                forall|k: int| 0 <= k < n ==> #[trigger] matches@[k] == original[perm[k]],
                forall|b: int| j < b <= i ==> !match_before(#[trigger] matches@[b], matches@[j as int]),
                forall|a: int, b: int|
                    0 <= a < b <= i && a != j && b != j && tied(
                        #[trigger] matches@[a],
                        #[trigger] matches@[b],
                    ) ==> perm[a] < perm[b],
            decreases j,
        {
            let x = matches[j];
            let y = matches[j - 1];
            proof {
                lemma_match_before(y, x, x);
            }
            let ghost before = matches@;
            let ghost perm_before = perm;
            matches[j] = y;
            matches[j - 1] = x;
            proof {
                perm = perm_before.update(j as int, perm_before[j - 1]).update(
                    j - 1,
                    perm_before[j as int],
                );
                let middle = before.update(j as int, y);
                assert(matches@ == middle.update(j - 1, x));
                vstd::seq_lib::to_multiset_update(before, j as int, y);
                vstd::seq_lib::to_multiset_update(middle, j - 1, x);
                assert(middle.to_multiset() == before.to_multiset().insert(y).remove(x));
                assert(matches@.to_multiset() == middle.to_multiset().insert(x).remove(y));
                assert(before.to_multiset().count(x) > 0) by {
                    assert(before.contains(x));
                    vstd::seq_lib::to_multiset_contains(before, x);
                }
                assert(matches@.to_multiset() =~= before.to_multiset());
                assert forall|a: int, b: int| j - 1 <= a < b < i + 1 implies match_before(
                    #[trigger] matches@[a],
                    #[trigger] matches@[b],
                ) by {
                    if a == j - 1 && b == j {
                    } else if a == j - 1 {
                        assert(match_before(before[j as int], before[b]));
                    } else if a == j {
                        assert(match_before(before[j - 1], before[b]));
                    } else {
                        assert(match_before(before[a], before[b]));
                    }
                }
                assert forall|a: int, b: int| 0 <= a < j - 1 < b <= i implies match_before(
                    #[trigger] matches@[a],
                    #[trigger] matches@[b],
                ) by {
                    if b == j {
                        assert(match_before(before[a], before[j - 1]));
                    } else {
                        assert(match_before(before[a], before[b]));
                    }
                }
                assert forall|k: int| 0 <= k < n implies #[trigger] matches@[k] == original[perm[k]] by {
                    if k == j {
                        assert(matches@[k] == before[j - 1]);
                    } else if k == j - 1 {
                        assert(matches@[k] == before[j as int]);
                    } else {
                        assert(matches@[k] == before[k]);
                    }
                }
                assert forall|a: int, b: int|
                    0 <= a < n && 0 <= b < n && a != b implies #[trigger] perm[a] != #[trigger] perm[b] by {
                    let pa = if a == j { j - 1 } else if a == j - 1 { j as int } else { a };
                    let pb = if b == j { j - 1 } else if b == j - 1 { j as int } else { b };
                    assert(perm[a] == perm_before[pa]);
                    assert(perm[b] == perm_before[pb]);
                }
                assert forall|b: int| j - 1 < b <= i implies !match_before(
                    #[trigger] matches@[b],
                    matches@[j - 1],
                ) by {
                    if b == j {
                    } else {
                        assert(!match_before(before[b], before[j as int]));
                    }
                }
                assert forall|a: int, b: int|
                    0 <= a < b <= i && a != j - 1 && b != j - 1 && tied(
                        #[trigger] matches@[a],
                        #[trigger] matches@[b],
                    ) implies perm[a] < perm[b] by {
                    let pa = if a == j { j - 1 } else { a };
                    let pb = if b == j { j - 1 } else { b };
                    assert(matches@[a] == before[pa]);
                    assert(matches@[b] == before[pb]);
                    assert(perm[a] == perm_before[pa]);
                    assert(perm[b] == perm_before[pb]);
                }
            }
            j -= 1;
        }
        proof {
            assert forall|a: int, b: int| 0 <= a < b < i + 1 implies match_before(
                #[trigger] matches@[a],
                #[trigger] matches@[b],
            ) by {
                if a < j && b == j {
                    lemma_match_before(matches@[a], matches@[j - 1], matches@[j as int]);
                    if a < j - 1 {
                        assert(match_before(matches@[a], matches@[j - 1]));
                    }
                }
            }
            assert forall|a: int, b: int|
                0 <= a < b < i + 1 && tied(
                    #[trigger] matches@[a],
                    #[trigger] matches@[b],
                ) implies perm[a] < perm[b] by {
                if b == j {
                    assert(perm[a] < i);
                } else if a == j {
                    assert(!match_before(matches@[b], matches@[j as int]));
                }
            }
        }
        i += 1;
    }
    assert(stable_rearrangement(original, matches@, perm));
}

} // verus!
