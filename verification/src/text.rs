use vstd::prelude::*;

verus! {

/// The characters of `s`, in order.
pub fn chars_of(s: &str) -> (v: Vec<char>)
    ensures
        v@ == s@,
{
    let mut v: Vec<char> = Vec::new();
    proof {
        broadcast use vstd::string::axiom_spec_iter;

    }
    for c in it: s.chars()
        invariant
            it.seq() == s@,
            v@ == s@.take(it.index()),
    {
        v.push(c);
    }
    assert(v@ =~= s@);
    v
}

/// The Unicode lowercase mapping of a string, as `str::to_lowercase` computes it.
pub uninterp spec fn unicode_lowercase(s: Seq<char>) -> Seq<char>;

/// Whether a character is alphabetic or numeric in Unicode, as
/// `char::is_alphanumeric` decides it.
pub uninterp spec fn unicode_alphanumeric(c: char) -> bool;

/// Calls `str::to_lowercase`. Its contract only names the result: the Unicode
/// lowercase mapping of the input, a function of the input alone (it depends on
/// no locale). What that mapping is for each character is left unsaid.
#[verifier::external_body]
pub(crate) fn to_lowercase(s: &str) -> (lowered: String)
    ensures
        lowered@ == unicode_lowercase(s@),
{
    s.to_lowercase()
}

/// Calls `char::is_alphanumeric`. Its contract only names the result, a function
/// of the character alone; which characters are alphanumeric is left unsaid.
#[verifier::external_body]
pub(crate) fn is_alphanumeric(c: char) -> (b: bool)
    ensures
        b == unicode_alphanumeric(c),
{
    c.is_alphanumeric()
}

/// The mathematical values of a list of character vectors.
pub open spec fn token_seqs(v: Seq<Vec<char>>) -> Seq<Seq<char>> {
    v.map_values(|t: Vec<char>| t@)
}

/// Whether each character of `s` is alphanumeric.
pub open spec fn alphanumeric_marks(s: Seq<char>) -> Seq<bool> {
    Seq::new(s.len(), |i: int| unicode_alphanumeric(s[i]))
}

/// The maximal runs of marked characters of `s`, in order, where `marks[i]`
/// tells whether `s[i]` is marked.
pub open spec fn marked_runs(s: Seq<char>, marks: Seq<bool>) -> Seq<Seq<char>>
    decreases s.len(),
{
    if s.len() == 0 {
        Seq::empty()
    } else {
        let before = marked_runs(s.drop_last(), marks);
        let c = s.last();
        let i = s.len() - 1;
        if !marks[i] {
            before
        } else if i >= 1 && marks[i - 1] {
            before.update(before.len() - 1, before.last().push(c))
        } else {
            before.push(seq![c])
        }
    }
}

/// The search tokens of `s`: its maximal runs of alphanumeric characters, in order.
pub open spec fn search_tokens(s: Seq<char>) -> Seq<Seq<char>> {
    marked_runs(s, alphanumeric_marks(s))
}

/// How many characters `tokens` hold together.
pub open spec fn total_chars(tokens: Seq<Seq<char>>) -> nat
    decreases tokens.len(),
{
    if tokens.len() == 0 {
        0
    } else {
        total_chars(tokens.drop_last()) + tokens.last().len()
    }
}

/// A text whose last character is marked ends in a run.
pub proof fn lemma_marked_runs_nonempty(s: Seq<char>, marks: Seq<bool>)
    requires
        s.len() > 0,
        marks.len() >= s.len(),
        marks[s.len() - 1],
    ensures
        marked_runs(s, marks).len() > 0,
    decreases s.len(),
{
    if s.len() >= 2 && marks[s.len() - 2] {
        lemma_marked_runs_nonempty(s.drop_last(), marks);
    }
}

/// Runs are never empty, and together hold no more characters than the text.
pub proof fn lemma_marked_runs_shape(s: Seq<char>, marks: Seq<bool>)
    requires
        marks.len() >= s.len(),
    ensures
        forall|i: int|
            0 <= i < marked_runs(s, marks).len() ==> #[trigger] marked_runs(s, marks)[i].len() > 0,
        total_chars(marked_runs(s, marks)) <= s.len(),
    decreases s.len(),
{
    if s.len() > 0 {
        lemma_marked_runs_shape(s.drop_last(), marks);
        let before = marked_runs(s.drop_last(), marks);
        let i = s.len() - 1;
        if marks[i] && i >= 1 && marks[i - 1] {
            lemma_marked_runs_nonempty(s.drop_last(), marks);
            let after = before.update(before.len() - 1, before.last().push(s.last()));
            assert(after.drop_last() =~= before.drop_last());
        } else if marks[i] {
            let after = before.push(seq![s.last()]);
            assert(after.drop_last() =~= before);
        }
    }
}

/// Search tokens are never empty, and together hold no more characters than the text.
pub proof fn lemma_search_tokens_shape(s: Seq<char>)
    ensures
        forall|i: int|
            0 <= i < search_tokens(s).len() ==> #[trigger] search_tokens(s)[i].len() > 0,
        total_chars(search_tokens(s)) <= s.len(),
{
    lemma_marked_runs_shape(s, alphanumeric_marks(s));
}

/// The characters of `s` from `st` up to `en` form a maximal run of marked
/// characters: all of them are marked, and neither the character before nor
/// the one after is.
pub open spec fn is_marked_run(s: Seq<char>, marks: Seq<bool>, st: int, en: int) -> bool {
    &&& 0 <= st < en <= s.len()
    &&& forall|t: int| st <= t < en ==> #[trigger] marks[t]
    &&& st == 0 || !marks[st - 1]
    &&& en == s.len() || !marks[en]
}

/// How many of the first `n` positions begin a run: a marked position that is
/// the first or follows an unmarked one.
pub open spec fn run_start_count(marks: Seq<bool>, n: int) -> nat
    decreases n,
{
    if n <= 0 {
        0
    } else {
        run_start_count(marks, n - 1) + if marks[n - 1] && (n == 1 || !marks[n - 2]) {
            1nat
        } else {
            0nat
        }
    }
}

/// The runs are exactly the maximal runs of marked characters, in order: each
/// is the text between a returned start and its end, a maximal run; each ends
/// before the next begins; and there are as many runs as positions that begin
/// one. A text whose last character is marked ends with a run.
pub proof fn lemma_marked_runs_maximal(s: Seq<char>, marks: Seq<bool>) -> (starts: Seq<int>)
    requires
        marks.len() >= s.len(),
    ensures
        starts.len() == marked_runs(s, marks).len(),
        marked_runs(s, marks).len() == run_start_count(marks, s.len() as int),
        forall|k: int|
            0 <= k < starts.len() ==> {
                &&& is_marked_run(s, marks, starts[k], starts[k] + marked_runs(s, marks)[k].len())
                &&& #[trigger] marked_runs(s, marks)[k] == s.subrange(
                    starts[k],
                    starts[k] + marked_runs(s, marks)[k].len(),
                )
            },
        forall|k: int, l: int|
            0 <= k < l < starts.len() ==> #[trigger] starts[k] + marked_runs(s, marks)[k].len()
                < #[trigger] starts[l],
        (s.len() > 0 && marks[s.len() - 1]) ==> starts.len() > 0 && starts.last()
            + marked_runs(s, marks).last().len() == s.len(),
    decreases s.len(),
{
    if s.len() == 0 {
        Seq::empty()
    } else {
        let p = s.drop_last();
        let before = marked_runs(p, marks);
        let old_starts = lemma_marked_runs_maximal(p, marks);
        let runs = marked_runs(s, marks);
        let i = s.len() - 1;
        let c = s.last();
        if !marks[i] {
            assert forall|k: int| 0 <= k < old_starts.len() implies {
                &&& is_marked_run(s, marks, old_starts[k], old_starts[k] + runs[k].len())
                &&& #[trigger] runs[k] == s.subrange(old_starts[k], old_starts[k] + runs[k].len())
            } by {
                assert(before[k] == p.subrange(old_starts[k], old_starts[k] + before[k].len()));
                assert(s.subrange(old_starts[k], old_starts[k] + runs[k].len()) =~= p.subrange(
                    old_starts[k],
                    old_starts[k] + before[k].len(),
                ));
            }
            old_starts
        } else if i >= 1 && marks[i - 1] {
            let n = before.len();
            assert(runs == before.update(n - 1, before.last().push(c)));
            assert forall|k: int| 0 <= k < old_starts.len() implies {
                &&& is_marked_run(s, marks, old_starts[k], old_starts[k] + runs[k].len())
                &&& #[trigger] runs[k] == s.subrange(old_starts[k], old_starts[k] + runs[k].len())
            } by {
                assert(before[k] == p.subrange(old_starts[k], old_starts[k] + before[k].len()));
                if k < n - 1 {
                    assert(old_starts[k] + before[k].len() < old_starts[n - 1]);
                    assert(s.subrange(old_starts[k], old_starts[k] + runs[k].len()) =~= p.subrange(
                        old_starts[k],
                        old_starts[k] + before[k].len(),
                    ));
                } else {
                    assert(s.subrange(old_starts[k], old_starts[k] + runs[k].len()) =~= p.subrange(
                        old_starts[k],
                        old_starts[k] + before[k].len(),
                    ).push(c));
                }
            }
            assert forall|k: int, l: int|
                0 <= k < l < old_starts.len() implies #[trigger] old_starts[k] + runs[k].len()
                < #[trigger] old_starts[l] by {
                assert(old_starts[k] + before[k].len() < old_starts[l]);
            }
            old_starts
        } else {
            let starts = old_starts.push(i);
            assert(runs == before.push(seq![c]));
            assert forall|k: int| 0 <= k < starts.len() implies {
                &&& is_marked_run(s, marks, starts[k], starts[k] + runs[k].len())
                &&& #[trigger] runs[k] == s.subrange(starts[k], starts[k] + runs[k].len())
            } by {
                if k < old_starts.len() {
                    assert(before[k] == p.subrange(old_starts[k], old_starts[k] + before[k].len()));
                    assert(is_marked_run(p, marks, old_starts[k], old_starts[k] + before[k].len()));
                    if old_starts[k] + before[k].len() == i {
                        assert(marks[i - 1]);
                    }
                    assert(s.subrange(old_starts[k], old_starts[k] + runs[k].len()) =~= p.subrange(
                        old_starts[k],
                        old_starts[k] + before[k].len(),
                    ));
                } else {
                    assert(s.subrange(i, i + 1) =~= seq![c]);
                }
            }
            assert forall|k: int, l: int|
                0 <= k < l < starts.len() implies #[trigger] starts[k] + runs[k].len()
                < #[trigger] starts[l] by {
                if l < old_starts.len() {
                    assert(old_starts[k] + before[k].len() < old_starts[l]);
                } else {
                    assert(is_marked_run(p, marks, old_starts[k], old_starts[k] + before[k].len()));
                    if old_starts[k] + before[k].len() == i {
                        assert(marks[i - 1]);
                    }
                }
            }
            starts
        }
    }
}

/// Search tokens are exactly the maximal runs of alphanumeric characters of
/// the text, in order (see `lemma_marked_runs_maximal`).
pub proof fn lemma_search_tokens_maximal(s: Seq<char>) -> (starts: Seq<int>)
    ensures
        starts.len() == search_tokens(s).len(),
        search_tokens(s).len() == run_start_count(alphanumeric_marks(s), s.len() as int),
        forall|k: int|
            0 <= k < starts.len() ==> {
                &&& is_marked_run(
                    s,
                    alphanumeric_marks(s),
                    starts[k],
                    starts[k] + search_tokens(s)[k].len(),
                )
                &&& #[trigger] search_tokens(s)[k] == s.subrange(
                    starts[k],
                    starts[k] + search_tokens(s)[k].len(),
                )
            },
        forall|k: int, l: int|
            0 <= k < l < starts.len() ==> #[trigger] starts[k] + search_tokens(s)[k].len()
                < #[trigger] starts[l],
{
    lemma_marked_runs_maximal(s, alphanumeric_marks(s))
}

/// Only the marks of the characters themselves matter.
proof fn lemma_marked_runs_prefix(s: Seq<char>, marks: Seq<bool>, other: Seq<bool>)
    requires
        marks.len() >= s.len(),
        other.len() >= s.len(),
        forall|i: int| 0 <= i < s.len() ==> marks[i] == other[i],
    ensures
        marked_runs(s, marks) == marked_runs(s, other),
    decreases s.len(),
{
    if s.len() > 0 {
        lemma_marked_runs_prefix(s.drop_last(), marks, other);
    }
}

/// Splits `text` into the maximal runs of characters whose mark is set.
pub fn split_marked(text: &Vec<char>, marks: &Vec<bool>) -> (runs: Vec<Vec<char>>)
    requires
        marks@.len() == text@.len(),
    ensures
        token_seqs(runs@) == marked_runs(text@, marks@),
{
    let mut out: Vec<Vec<char>> = Vec::new();
    let mut current: Vec<char> = Vec::new();
    let mut i: usize = 0;
    while i < text.len()
        invariant
            marks@.len() == text@.len(),
            i <= text@.len(),
            current@.len() > 0 ==> token_seqs(out@).push(current@) == marked_runs(
                text@.take(i as int),
                marks@,
            ),
            current@.len() > 0 ==> i > 0 && marks@[i - 1],
            current@.len() == 0 ==> token_seqs(out@) == marked_runs(text@.take(i as int), marks@),
            current@.len() == 0 ==> i == 0 || !marks@[i - 1],
        decreases text@.len() - i,
    {
        let c = text[i];
        let ghost prefix = text@.take(i + 1);
        assert(prefix.drop_last() =~= text@.take(i as int));
        if marks[i] {
            let ghost before = current@;
            current.push(c);
            proof {
                if before.len() > 0 {
                    assert(prefix.last() == c);
                    let t = token_seqs(out@).push(before);
                    assert(marked_runs(prefix, marks@) == t.update(t.len() - 1, t.last().push(c)));
                    assert(token_seqs(out@).push(current@) =~= marked_runs(prefix, marks@));
                } else {
                    assert(prefix.last() == c);
                    assert(current@ =~= seq![c]);
                    assert(token_seqs(out@).push(current@) =~= marked_runs(prefix, marks@));
                }
            }
        } else if current.len() > 0 {
            let ghost before_out = out@;
            let ghost finished = current@;
            out.push(current);
            current = Vec::new();
            assert(token_seqs(out@) =~= token_seqs(before_out).push(finished));
        }
        i += 1;
    }
    assert(text@.take(text@.len() as int) =~= text@);
    if current.len() > 0 {
        let ghost before_out = out@;
        let ghost finished = current@;
        out.push(current);
        assert(token_seqs(out@) =~= token_seqs(before_out).push(finished));
    }
    out
}

/// Splits `text` into its search tokens: its maximal runs of alphanumeric characters.
pub fn split_search_tokens(text: &Vec<char>) -> (tokens: Vec<Vec<char>>)
    ensures
        token_seqs(tokens@) == search_tokens(text@),
{
    let mut marks: Vec<bool> = Vec::new();
    let mut i: usize = 0;
    while i < text.len()
        invariant
            i <= text@.len(),
            marks@.len() == i,
            forall|k: int| 0 <= k < i ==> #[trigger] marks@[k] == unicode_alphanumeric(text@[k]),
        decreases text@.len() - i,
    {
        marks.push(is_alphanumeric(text[i]));
        i += 1;
    }
    proof {
        lemma_marked_runs_prefix(text@, marks@, alphanumeric_marks(text@));
    }
    split_marked(text, &marks)
}

} // verus!
