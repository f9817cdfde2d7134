//! Searching and trimming sequences of characters.

use crate::text::{is_whitespace, slice_of, whitespace};
use vstd::prelude::*;

verus! {

/// The index of the first occurrence of `c` in `s`, or `s.len()` if there is none.
pub open spec fn find(s: Seq<char>, c: char) -> int
    decreases s.len(),
{
    if s.len() == 0 || s[0] == c {
        0
    } else {
        1 + find(s.drop_first(), c)
    }
}

/// The part of `s` before the first occurrence of `c`; all of `s` if there is none.
pub open spec fn take_until(s: Seq<char>, c: char) -> Seq<char> {
    s.take(find(s, c))
}

/// The part of `s` after the first occurrence of `c`; nothing if there is none.
pub open spec fn skip_past(s: Seq<char>, c: char) -> Seq<char> {
    if find(s, c) < s.len() {
        s.skip(find(s, c) + 1)
    } else {
        Seq::empty()
    }
}

/// `s` without its leading characters that satisfy `p`.
pub open spec fn strip_start(s: Seq<char>, p: spec_fn(char) -> bool) -> Seq<char>
    decreases s.len(),
{
    if s.len() > 0 && p(s[0]) {
        strip_start(s.drop_first(), p)
    } else {
        s
    }
}

/// `s` without its trailing characters that satisfy `p`.
pub open spec fn strip_end(s: Seq<char>, p: spec_fn(char) -> bool) -> Seq<char>
    decreases s.len(),
{
    if s.len() > 0 && p(s.last()) {
        strip_end(s.drop_last(), p)
    } else {
        s
    }
}

/// `s` without its leading and trailing characters that satisfy `p`.
pub open spec fn strip(s: Seq<char>, p: spec_fn(char) -> bool) -> Seq<char> {
    strip_end(strip_start(s, p), p)
}

/// The class of whitespace characters.
pub open spec fn blank() -> spec_fn(char) -> bool {
    |c: char| is_whitespace(c)
}

/// The class that holds `q` alone.
pub open spec fn just(q: char) -> spec_fn(char) -> bool {
    |c: char| c == q
}

/// `s` without leading and trailing whitespace.
pub open spec fn trim(s: Seq<char>) -> Seq<char> {
    strip(s, blank())
}

/// `s` without its leading and trailing occurrences of `q`.
pub open spec fn trim_matches(s: Seq<char>, q: char) -> Seq<char> {
    strip(s, just(q))
}

/// `find` stays within the sequence, passes over no occurrence, and stops on one.
pub proof fn lemma_find_first(s: Seq<char>, c: char)
    ensures
        0 <= find(s, c) <= s.len(),
        forall|j: int| 0 <= j < find(s, c) ==> s[j] != c,
        find(s, c) < s.len() ==> s[find(s, c)] == c,
        find(s, c) == s.len() <==> !s.contains(c),
    decreases s.len(),
{
    if s.len() == 0 || s[0] == c {
    } else {
        let t = s.drop_first();
        lemma_find_first(t, c);
        assert forall|j: int| 0 <= j < find(s, c) implies s[j] != c by {
            if j > 0 {
                assert(s[j] == t[j - 1]);
            }
        }
        if find(s, c) == s.len() {
            assert forall|j: int| 0 <= j < s.len() implies s[j] != c by {}
        } else {
            assert(s[find(s, c)] == t[find(t, c)]);
        }
    }
}

/// An index that no occurrence precedes, and that is the end or an occurrence, is `find`.
pub proof fn lemma_find_is(s: Seq<char>, c: char, i: int)
    requires
        0 <= i <= s.len(),
        forall|j: int| 0 <= j < i ==> s[j] != c,
        i < s.len() ==> s[i] == c,
    ensures
        find(s, c) == i,
    decreases s.len(),
{
    if i > 0 {
        let t = s.drop_first();
        assert(s[0] != c);
        assert forall|j: int| 0 <= j < i - 1 implies t[j] != c by {
            assert(t[j] == s[j + 1]);
        }
        lemma_find_is(t, c, i - 1);
    }
}

/// Leading characters that satisfy `p` do not alter what `strip_start` leaves.
pub proof fn lemma_strip_start_skip(s: Seq<char>, p: spec_fn(char) -> bool, n: int)
    requires
        0 <= n <= s.len(),
        forall|j: int| 0 <= j < n ==> p(s[j]),
    ensures
        strip_start(s, p) == strip_start(s.skip(n), p),
    decreases n,
{
    if n == 0 {
        assert(s.skip(0) =~= s);
    } else {
        let t = s.drop_first();
        assert(p(s[0]));
        assert forall|j: int| 0 <= j < n - 1 implies p(t[j]) by {
            assert(t[j] == s[j + 1]);
        }
        lemma_strip_start_skip(t, p, n - 1);
        assert(t.skip(n - 1) =~= s.skip(n));
    }
}

/// Trailing characters that satisfy `p` do not alter what `strip_end` leaves.
pub proof fn lemma_strip_end_take(s: Seq<char>, p: spec_fn(char) -> bool, n: int)
    requires
        0 <= n <= s.len(),
        forall|j: int| n <= j < s.len() ==> p(s[j]),
    ensures
        strip_end(s, p) == strip_end(s.take(n), p),
    decreases s.len() - n,
{
    if n == s.len() {
        assert(s.take(n) =~= s);
    } else {
        let t = s.drop_last();
        assert(p(s.last()));
        lemma_strip_end_take(t, p, n);
        assert(t.take(n) =~= s.take(n));
    }
}

/// The index of the first occurrence of `c` in `s`, or the length of `s`.
pub fn index_of(s: &Vec<char>, c: char) -> (i: usize)
    ensures
        i == find(s@, c),
        i <= s.len(),
{
    let mut i: usize = 0;
    while i < s.len() && s[i] != c
        invariant
            i <= s.len(),
            forall|j: int| 0 <= j < i ==> s@[j] != c,
        decreases s.len() - i,
    {
        i += 1;
    }
    proof {
        lemma_find_is(s@, c, i as int);
    }
    i
}

/// The index of the first occurrence of `c` in `s` at or after `from`, or the length of `s`.
pub fn index_from(s: &Vec<char>, from: usize, c: char) -> (i: usize)
    requires
        from <= s.len(),
    ensures
        from <= i <= s.len(),
        i - from == find(s@.skip(from as int), c),
{
    let mut i: usize = from;
    while i < s.len() && s[i] != c
        invariant
            from <= i <= s.len(),
            forall|j: int| from <= j < i ==> s@[j] != c,
        decreases s.len() - i,
    {
        i += 1;
    }
    proof {
        lemma_find_is(s@.skip(from as int), c, i - from);
    }
    i
}

/// The characters of `s` before the first `c`.
pub fn prefix_until(s: &Vec<char>, c: char) -> (r: Vec<char>)
    ensures
        r@ == take_until(s@, c),
{
    let n = index_of(s, c);
    slice_of(s, 0, n)
}

/// `s` without leading and trailing whitespace.
pub fn trimmed(s: &Vec<char>) -> (r: Vec<char>)
    ensures
        r@ == trim(s@),
{
    let ghost p = blank();
    let mut a: usize = 0;
    while a < s.len() && whitespace(s[a])
        invariant
            a <= s.len(),
            forall|j: int| 0 <= j < a ==> is_whitespace(s@[j]),
        decreases s.len() - a,
    {
        a += 1;
    }
    let mut b: usize = s.len();
    while b > a && whitespace(s[b - 1])
        invariant
            a <= b <= s.len(),
            forall|j: int| b <= j < s.len() ==> is_whitespace(s@[j]),
        decreases b,
    {
        b -= 1;
    }
    proof {
        let t = s@.skip(a as int);
        lemma_strip_start_skip(s@, p, a as int);
        assert(strip_start(s@, p) == t);
        lemma_strip_end_take(t, p, b - a);
        assert(t.take(b - a) =~= s@.subrange(a as int, b as int));
        assert(strip_end(t, p) == t.take(b - a));
    }
    slice_of(s, a, b)
}

/// `s` without its leading and trailing occurrences of `q`.
pub fn trimmed_of(s: &Vec<char>, q: char) -> (r: Vec<char>)
    ensures
        r@ == trim_matches(s@, q),
{
    let ghost p = just(q);
    let mut a: usize = 0;
    while a < s.len() && s[a] == q
        invariant
            a <= s.len(),
            forall|j: int| 0 <= j < a ==> s@[j] == q,
        decreases s.len() - a,
    {
        a += 1;
    }
    let mut b: usize = s.len();
    while b > a && s[b - 1] == q
        invariant
            a <= b <= s.len(),
            forall|j: int| b <= j < s.len() ==> s@[j] == q,
        decreases b,
    {
        b -= 1;
    }
    proof {
        let t = s@.skip(a as int);
        lemma_strip_start_skip(s@, p, a as int);
        assert(strip_start(s@, p) == t);
        lemma_strip_end_take(t, p, b - a);
        assert(t.take(b - a) =~= s@.subrange(a as int, b as int));
        assert(strip_end(t, p) == t.take(b - a));
    }
    slice_of(s, a, b)
}

} // verus!
