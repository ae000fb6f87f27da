use std::cmp::Ordering;
use vstd::prelude::*;

verus! {

/// The order of two `usize` values.
pub open spec fn usize_order(a: usize, b: usize) -> Ordering {
    if a < b {
        Ordering::Less
    } else if a > b {
        Ordering::Greater
    } else {
        Ordering::Equal
    }
}

/// The order of two `u8` values.
pub open spec fn u8_order(a: u8, b: u8) -> Ordering {
    if a < b {
        Ordering::Less
    } else if a > b {
        Ordering::Greater
    } else {
        Ordering::Equal
    }
}

/// The order of two `i64` values.
pub open spec fn i64_order(a: i64, b: i64) -> Ordering {
    if a < b {
        Ordering::Less
    } else if a > b {
        Ordering::Greater
    } else {
        Ordering::Equal
    }
}

/// The order of two `bool` values (`false` before `true`).
pub open spec fn bool_order(a: bool, b: bool) -> Ordering {
    if !a && b {
        Ordering::Less
    } else if a && !b {
        Ordering::Greater
    } else {
        Ordering::Equal
    }
}

/// `first`, unless it is `Equal`; then `next`.
pub open spec fn then_order(first: Ordering, next: Ordering) -> Ordering {
    match first {
        Ordering::Equal => next,
        _ => first,
    }
}

/// The opposite order.
pub open spec fn flip(o: Ordering) -> Ordering {
    match o {
        Ordering::Less => Ordering::Greater,
        Ordering::Equal => Ordering::Equal,
        Ordering::Greater => Ordering::Less,
    }
}

/// The order of two characters, by code point.
pub open spec fn char_order(a: char, b: char) -> Ordering {
    if a < b {
        Ordering::Less
    } else if a > b {
        Ordering::Greater
    } else {
        Ordering::Equal
    }
}

/// Lexicographic order of two strings, by code point; a proper prefix comes first.
pub open spec fn str_order(a: Seq<char>, b: Seq<char>) -> Ordering
    decreases a.len(),
{
    if a.len() == 0 {
        if b.len() == 0 {
            Ordering::Equal
        } else {
            Ordering::Less
        }
    } else if b.len() == 0 {
        Ordering::Greater
    } else {
        then_order(char_order(a[0], b[0]), str_order(a.drop_first(), b.drop_first()))
    }
}

/// `a` comes no later than `b`.
pub open spec fn not_after(o: Ordering) -> bool {
    o != Ordering::Greater
}

/// The first `k` characters of `s`.
pub open spec fn head(s: Seq<char>, k: usize) -> Seq<char> {
    s.take(k as int)
}

/// `s` without its first `k` characters.
pub open spec fn tail(s: Seq<char>, k: usize) -> Seq<char> {
    s.skip(k as int)
}

proof fn lemma_tail_step(s: Seq<char>, k: usize)
    requires
        k < s.len(),
        k + 1 <= usize::MAX,
    ensures
        tail(s, k).len() > 0,
        tail(s, k)[0] == s[k as int],
        tail(s, k).drop_first() == tail(s, (k + 1) as usize),
{
    assert(tail(s, k).drop_first() =~= tail(s, (k + 1) as usize));
}

proof fn lemma_head_step(s: Seq<char>, k: usize)
    requires
        k < s.len(),
        k + 1 <= usize::MAX,
    ensures
        head(s, (k + 1) as usize) == head(s, k).push(s[k as int]),
{
    assert(head(s, (k + 1) as usize) =~= head(s, k).push(s[k as int]));
}

pub fn compare_usize(a: usize, b: usize) -> (o: Ordering)
    ensures
        o == usize_order(a, b),
{
    if a < b {
        Ordering::Less
    } else if a > b {
        Ordering::Greater
    } else {
        Ordering::Equal
    }
}

pub fn compare_u8(a: u8, b: u8) -> (o: Ordering)
    ensures
        o == u8_order(a, b),
{
    if a < b {
        Ordering::Less
    } else if a > b {
        Ordering::Greater
    } else {
        Ordering::Equal
    }
}

pub fn compare_i64(a: i64, b: i64) -> (o: Ordering)
    ensures
        o == i64_order(a, b),
{
    if a < b {
        Ordering::Less
    } else if a > b {
        Ordering::Greater
    } else {
        Ordering::Equal
    }
}

pub fn compare_bool(a: bool, b: bool) -> (o: Ordering)
    ensures
        o == bool_order(a, b),
{
    if !a && b {
        Ordering::Less
    } else if a && !b {
        Ordering::Greater
    } else {
        Ordering::Equal
    }
}

/// Lexicographic comparison of two character sequences.
pub fn compare_chars(a: &Vec<char>, b: &Vec<char>) -> (o: Ordering)
    ensures
        o == str_order(a@, b@),
{
    let mut k: usize = 0;
    assert(tail(a@, 0) =~= a@);
    assert(tail(b@, 0) =~= b@);
    while k < a.len() && k < b.len()
        invariant
            k <= a@.len(),
            k <= b@.len(),
            head(a@, k) == head(b@, k),
            str_order(a@, b@) == str_order(tail(a@, k), tail(b@, k)),
        decreases a@.len() - k,
    {
        let x = a[k];
        let y = b[k];
        proof {
            lemma_tail_step(a@, k);
            lemma_tail_step(b@, k);
        }
        if x < y {
            return Ordering::Less;
        } else if x > y {
            return Ordering::Greater;
        }
        proof {
            lemma_head_step(a@, k);
            lemma_head_step(b@, k);
        }
        k += 1;
    }
    if k < a.len() {
        Ordering::Greater
    } else if k < b.len() {
        Ordering::Less
    } else {
        Ordering::Equal
    }
}

/// Lexicographic comparison of two strings by code point (the order of `str::cmp`).
pub fn compare_str(a: &str, b: &str) -> (o: Ordering)
    ensures
        o == str_order(a@, b@),
{
    let x = crate::text::chars_of(a);
    let y = crate::text::chars_of(b);
    compare_chars(&x, &y)
}

proof fn lemma_str_order_reflexive(a: Seq<char>)
    ensures
        str_order(a, a) == Ordering::Equal,
    decreases a.len(),
{
    if a.len() > 0 {
        lemma_str_order_reflexive(a.drop_first());
    }
}

proof fn lemma_str_order_antisymmetric(a: Seq<char>, b: Seq<char>)
    ensures
        str_order(a, b) == flip(str_order(b, a)),
        str_order(a, b) == Ordering::Equal ==> a == b,
    decreases a.len(),
{
    if a.len() > 0 && b.len() > 0 {
        lemma_str_order_antisymmetric(a.drop_first(), b.drop_first());
        if str_order(a, b) == Ordering::Equal {
            assert(a =~= seq![a[0]] + a.drop_first());
            assert(b =~= seq![b[0]] + b.drop_first());
        }
    }
}

proof fn lemma_str_order_transitive(a: Seq<char>, b: Seq<char>, c: Seq<char>)
    ensures
        not_after(str_order(a, b)) && not_after(str_order(b, c)) ==> not_after(str_order(a, c)),
        str_order(a, b) == Ordering::Less && not_after(str_order(b, c)) ==> str_order(a, c)
            == Ordering::Less,
        not_after(str_order(a, b)) && str_order(b, c) == Ordering::Less ==> str_order(a, c)
            == Ordering::Less,
    decreases a.len(),
{
    if a.len() > 0 && b.len() > 0 && c.len() > 0 {
        lemma_str_order_transitive(a.drop_first(), b.drop_first(), c.drop_first());
    }
}

/// String order is a total order: antisymmetric, reflexive, and transitive,
/// with only equal strings comparing `Equal`.
pub proof fn lemma_str_order_laws(a: Seq<char>, b: Seq<char>, c: Seq<char>)
    ensures
        str_order(a, b) == flip(str_order(b, a)),
        str_order(a, a) == Ordering::Equal,
        str_order(a, b) == Ordering::Equal <==> a == b,
        not_after(str_order(a, b)) && not_after(str_order(b, c)) ==> not_after(str_order(a, c)),
        str_order(a, b) == Ordering::Less && not_after(str_order(b, c)) ==> str_order(a, c)
            == Ordering::Less,
        not_after(str_order(a, b)) && str_order(b, c) == Ordering::Less ==> str_order(a, c)
            == Ordering::Less,
{
    lemma_str_order_reflexive(a);
    lemma_str_order_antisymmetric(a, b);
    lemma_str_order_transitive(a, b, c);
}

/// Strings are ordered by their first difference: where `a` and `b` agree on
/// their first `i` characters and `a` has the smaller character at `i`, or `a`
/// ends there and `b` goes on, `a` comes first.
pub proof fn lemma_str_order_first_difference(a: Seq<char>, b: Seq<char>, i: int)
    requires
        0 <= i <= a.len(),
        i <= b.len(),
        a.take(i) == b.take(i),
    ensures
        (i < a.len() && i < b.len() && a[i] < b[i]) ==> str_order(a, b) == Ordering::Less,
        (i == a.len() && i < b.len()) ==> str_order(a, b) == Ordering::Less,
    decreases i,
{
    if i > 0 {
        assert(a[0] == a.take(i)[0]);
        assert(b[0] == b.take(i)[0]);
        assert(a.drop_first().take(i - 1) =~= a.take(i).drop_first());
        assert(b.drop_first().take(i - 1) =~= b.take(i).drop_first());
        lemma_str_order_first_difference(a.drop_first(), b.drop_first(), i - 1);
        if i < a.len() && i < b.len() {
            assert(a.drop_first()[i - 1] == a[i]);
            assert(b.drop_first()[i - 1] == b[i]);
        }
    }
}

} // verus!
