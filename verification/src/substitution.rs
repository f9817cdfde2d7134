//! Substitution inside a mapping: each value has its `$NAME` references
//! replaced, over and over, until none is left.

use crate::expand::{lemma_name_len_is, name_len};
use crate::mapping::{lemma_position_is, to_map, Mapping};
use crate::scan::{find, index_of, lemma_find_first};
use crate::text::{chars_of, extend, is_name_char, name_char, slice_of, string_of};
use vstd::prelude::*;

verus! {

/// Where the first reference of `value` stands: the index behind its first
/// `$`, and the length of the name that follows. `(0, 0)` where `value` holds no `$`.
pub open spec fn first_reference(value: Seq<char>) -> (int, int) {
    let p = find(value, '$');
    if p < value.len() {
        (p + 1, name_len(value.skip(p + 1)))
    } else {
        (0, 0)
    }
}

/// The value of `key` in `vars`, or the empty text.
pub open spec fn lookup(vars: Map<Seq<char>, Seq<char>>, key: Seq<char>) -> Seq<char> {
    if vars.contains_key(key) {
        vars[key]
    } else {
        Seq::empty()
    }
}

/// `val` with its first reference replaced by what `vars` holds for the name.
pub open spec fn replace_first(val: Seq<char>, vars: Map<Seq<char>, Seq<char>>) -> Seq<char> {
    let (start, count) = first_reference(val);
    if start == 0 && count == 0 {
        val
    } else {
        val.take(start - 1) + lookup(vars, val.subrange(start, start + count)) + val.skip(
            start + count,
        )
    }
}

/// `val` after its references were replaced one at a time, the first one
/// first, until no `$` was left; `None` if more than `fuel + 1` rounds are needed.
pub open spec fn build(val: Seq<char>, vars: Map<Seq<char>, Seq<char>>, fuel: nat) -> Option<
    Seq<char>,
>
    decreases fuel,
{
    let next = replace_first(val, vars);
    if !next.contains('$') {
        Some(next)
    } else if fuel == 0 {
        None
    } else {
        build(next, vars, (fuel - 1) as nat)
    }
}

/// The pairs after the first `n` of them had their turn: each in order has
/// its value built against the mapping as it then stands, and put back under
/// its key. `None` if some value needs more than `fuel + 1` rounds.
pub open spec fn substitute_pairs(pairs: Seq<(Seq<char>, Seq<char>)>, n: nat, fuel: nat) -> Option<
    Seq<(Seq<char>, Seq<char>)>,
>
    decreases n,
{
    if n == 0 {
        Some(pairs)
    } else {
        match substitute_pairs(pairs, (n - 1) as nat, fuel) {
            Some(now) => match build(pairs[n - 1].1, to_map(now), fuel) {
                Some(value) => Some(now.update(n - 1, (pairs[n - 1].0, value))),
                None => None,
            },
            None => None,
        }
    }
}

/// Whether substitution comes to an end on `pairs`. It does not where the
/// values refer to one another in a circle.
pub open spec fn resolves(pairs: Seq<(Seq<char>, Seq<char>)>) -> bool {
    exists|fuel: nat| substitute_pairs(pairs, pairs.len(), fuel) is Some
}

/// A number of rounds that is enough for `pairs`, where there is one.
pub open spec fn enough(pairs: Seq<(Seq<char>, Seq<char>)>) -> nat {
    choose|fuel: nat| substitute_pairs(pairs, pairs.len(), fuel) is Some
}

/// What substitution makes of `pairs`, where it comes to an end.
pub open spec fn substituted(pairs: Seq<(Seq<char>, Seq<char>)>) -> Seq<(Seq<char>, Seq<char>)> {
    substitute_pairs(pairs, pairs.len(), enough(pairs))->0
}

/// Two numbers of rounds that are both enough for a value build the same text.
pub proof fn lemma_build_fuel(val: Seq<char>, vars: Map<Seq<char>, Seq<char>>, f: nat, g: nat)
    requires
        build(val, vars, f) is Some,
        build(val, vars, g) is Some,
    ensures
        build(val, vars, f) == build(val, vars, g),
    decreases f,
{
    let next = replace_first(val, vars);
    if next.contains('$') {
        lemma_build_fuel(next, vars, (f - 1) as nat, (g - 1) as nat);
    }
}

/// Two numbers of rounds that are both enough for the pairs give the same pairs.
pub proof fn lemma_substitute_fuel(pairs: Seq<(Seq<char>, Seq<char>)>, n: nat, f: nat, g: nat)
    requires
        substitute_pairs(pairs, n, f) is Some,
        substitute_pairs(pairs, n, g) is Some,
    ensures
        substitute_pairs(pairs, n, f) == substitute_pairs(pairs, n, g),
    decreases n,
{
    if n > 0 {
        lemma_substitute_fuel(pairs, (n - 1) as nat, f, g);
        let now = substitute_pairs(pairs, (n - 1) as nat, f)->0;
        lemma_build_fuel(pairs[n - 1].1, to_map(now), f, g);
    }
}

/// Where substitution comes to an end after `n` pairs, it does so after
/// fewer, and leaves the keys and the pairs behind the first `m` as they were.
pub proof fn lemma_substitute_prefix(pairs: Seq<(Seq<char>, Seq<char>)>, n: nat, m: nat, fuel: nat)
    requires
        m <= n <= pairs.len(),
        substitute_pairs(pairs, n, fuel) is Some,
    ensures
        substitute_pairs(pairs, m, fuel) matches Some(now) && now.len() == pairs.len() && (forall|
            i: int,
        |
            0 <= i < pairs.len() ==> (#[trigger] now[i]).0 == pairs[i].0) && (forall|i: int|
            m <= i < pairs.len() ==> #[trigger] now[i] == pairs[i]),
    decreases n,
{
    if m < n {
        lemma_substitute_prefix(pairs, (n - 1) as nat, m, fuel);
    } else if n > 0 {
        lemma_substitute_prefix(pairs, (n - 1) as nat, (n - 1) as nat, fuel);
    }
}

/// Replaces the references in the values of a mapping.
pub struct Substitution<'a> {
    pub vars: &'a mut Mapping,
}

impl<'a> Substitution<'a> {
    /// A substitution that works on `vars`.
    pub fn new(vars: &'a mut Mapping) -> (s: Self)
        ensures
            *s.vars == *old(vars),
            *final(s.vars) == *final(vars),
    {
        Self { vars }
    }

    /// Finds the first reference of `value`: see `first_reference`.
    pub fn get_position(&self, value: &str) -> (r: (usize, usize))
        ensures
            (r.0 as int, r.1 as int) == first_reference(value@),
    {
        Self::reference_in(&chars_of(value))
    }

    fn reference_in(chars: &Vec<char>) -> (r: (usize, usize))
        ensures
            (r.0 as int, r.1 as int) == first_reference(chars@),
            r.0 + r.1 <= chars.len(),
            r.0 > 0 <==> find(chars@, '$') < chars.len(),
    {
        let pos = index_of(chars, '$');
        if pos == chars.len() {
            return (0, 0);
        }
        let start = pos + 1;
        let mut end = start;
        while end < chars.len() && name_char(chars[end])
            invariant
                start <= end <= chars.len(),
                forall|k: int| start <= k < end ==> is_name_char(chars@[k]),
            decreases chars.len() - end,
        {
            end += 1;
        }
        proof {
            lemma_name_len_is(chars@.skip(start as int), end - start);
        }
        (start, end - start)
    }

    /// Replaces the first reference of `val`.
    fn replace_with(vars: &Mapping, val: &Vec<char>) -> (r: Vec<char>)
        ensures
            r@ == replace_first(val@, vars@),
    {
        let (start, count) = Self::reference_in(val);
        if start == 0 && count == 0 {
            return slice_of(val, 0, val.len());
        }
        let key = string_of(&slice_of(val, start, start + count));
        let mut r = slice_of(val, 0, start - 1);
        match vars.get(key.as_str()) {
            Some(found) => {
                extend(&mut r, &chars_of(found.as_str()));
            },
            None => {
                assert(r@ + Seq::<char>::empty() =~= r@);
            },
        }
        extend(&mut r, &slice_of(val, start + count, val.len()));
        r
    }

    /// Replaces the references of `val` until none is left.
    fn build_value(&self, val: String, Ghost(fuel): Ghost<nat>) -> (r: String)
        requires
            build(val@, self.vars@, fuel) is Some,
        ensures
            Some(r@) == build(val@, old(self.vars)@, fuel),
    {
        let mut now = Self::replace_with(&*self.vars, &chars_of(val.as_str()));
        let ghost mut left = fuel;
        proof {
            lemma_find_first(now@, '$');
        }
        while index_of(&now, '$') < now.len()
            invariant
                build(val@, self.vars@, fuel) == if now@.contains('$') {
                    if left == 0 {
                        None
                    } else {
                        build(now@, self.vars@, (left - 1) as nat)
                    }
                } else {
                    Some(now@)
                },
                build(val@, self.vars@, fuel) is Some,
            decreases left,
        {
            proof {
                lemma_find_first(now@, '$');
                left = (left - 1) as nat;
            }
            now = Self::replace_with(&*self.vars, &now);
            proof {
                lemma_find_first(now@, '$');
            }
        }
        proof {
            lemma_find_first(now@, '$');
        }
        string_of(&now)
    }

    /// Replaces the references of `val` until none is left, or gives up
    /// after `limit + 1` rounds.
    fn build_within(vars: &Mapping, val: &Vec<char>, limit: usize) -> (r: Option<Vec<char>>)
        ensures
            match r {
                Some(v) => build(val@, vars@, limit as nat) == Some(v@),
                None => build(val@, vars@, limit as nat) is None,
            },
    {
        let mut now = Self::replace_with(vars, val);
        let mut left = limit;
        loop
            invariant
                build(val@, vars@, limit as nat) == if now@.contains('$') {
                    if left == 0 {
                        None
                    } else {
                        build(now@, vars@, (left - 1) as nat)
                    }
                } else {
                    Some(now@)
                },
            decreases left,
        {
            proof {
                lemma_find_first(now@, '$');
            }
            if index_of(&now, '$') == now.len() {
                return Some(now);
            }
            if left == 0 {
                return None;
            }
            left -= 1;
            now = Self::replace_with(vars, &now);
        }
    }

    /// Tells whether substitution comes to an end when no value is given
    /// more than `limit + 1` rounds.
    pub fn resolves_within(&self, limit: usize) -> (b: bool)
        ensures
            b == (substitute_pairs(
                old(self.vars).pairs(),
                old(self.vars).pairs().len(),
                limit as nat,
            ) is Some),
            b ==> resolves(old(self.vars).pairs()),
    {
        let ghost pairs = self.vars.pairs();
        let mut work = self.vars.duplicate();
        let n = work.len();
        let mut i: usize = 0;
        while i < n
            invariant
                i <= n == pairs.len(),
                pairs == self.vars.pairs(),
                Some(work.pairs()) == substitute_pairs(pairs, i as nat, limit as nat),
            decreases n - i,
        {
            let ghost now = work.pairs();
            proof {
                lemma_substitute_prefix(pairs, i as nat, i as nat, limit as nat);
            }
            let (k, v) = work.entry(i);
            let key = k.clone();
            match Self::build_within(&work, &chars_of(v.as_str()), limit) {
                Some(value) => {
                    proof {
                        lemma_position_is(now, key@, i as int);
                    }
                    work.insert(key, string_of(&value));
                },
                None => {
                    proof {
                        if substitute_pairs(pairs, pairs.len(), limit as nat) is Some {
                            lemma_substitute_prefix(
                                pairs,
                                pairs.len(),
                                (i + 1) as nat,
                                limit as nat,
                            );
                        }
                    }
                    return false;
                },
            }
            i += 1;
        }
        true
    }

    /// Replaces the references in every value as `substitute` does, where
    /// that comes to an end when no value is given more than `limit + 1`
    /// rounds. Otherwise the mapping stays as it is, and the answer is `false`.
    pub fn substitute_within(&mut self, limit: usize) -> (done: bool)
        ensures
            done == (substitute_pairs(
                old(self).vars.pairs(),
                old(self).vars.pairs().len(),
                limit as nat,
            ) is Some),
            done ==> final(self).vars.pairs() == substituted(old(self).vars.pairs()),
            !done ==> final(self).vars.pairs() == old(self).vars.pairs(),
            *final(final(self).vars) == *final(old(self).vars),
    {
        if self.resolves_within(limit) {
            self.substitute();
            true
        } else {
            false
        }
    }

    /// Replaces the references in every value, one pair after the other in
    /// the order of the mapping. A value is built against the mapping as it
    /// stands when its turn comes: the pairs before it hold their new values
    /// by then.
    pub fn substitute(&mut self)
        requires
            resolves(old(self).vars.pairs()),
        ensures
            final(self).vars.pairs() == substituted(old(self).vars.pairs()),
            *final(final(self).vars) == *final(old(self).vars),
    {
        let ghost pairs = self.vars.pairs();
        let ghost fuel = enough(pairs);
        let n = self.vars.len();
        let mut i: usize = 0;
        while i < n
            invariant
                i <= n == pairs.len(),
                substitute_pairs(pairs, pairs.len(), fuel) is Some,
                Some(self.vars.pairs()) == substitute_pairs(pairs, i as nat, fuel),
                *final(self.vars) == *final(old(self).vars),
            decreases n - i,
        {
            let ghost now = self.vars.pairs();
            proof {
                lemma_substitute_prefix(pairs, pairs.len(), i as nat, fuel);
                lemma_substitute_prefix(pairs, pairs.len(), (i + 1) as nat, fuel);
            }
            let (k, v) = self.vars.entry(i);
            let key = k.clone();
            let val = v.clone();
            let value = self.build_value(val, Ghost(fuel));
            proof {
                lemma_position_is(now, key@, i as int);
            }
            self.vars.insert(key, value);
            i += 1;
        }
    }
}

} // verus!
