//! The resolved mapping: each key once, with its value.

use vstd::prelude::*;

verus! {

/// The map that a sequence of key-value pairs folds into: of two pairs with
/// the same key the later one decides.
pub open spec fn to_map(pairs: Seq<(Seq<char>, Seq<char>)>) -> Map<Seq<char>, Seq<char>>
    decreases pairs.len(),
{
    if pairs.len() == 0 {
        Map::empty()
    } else {
        to_map(pairs.drop_last()).insert(pairs.last().0, pairs.last().1)
    }
}

/// Whether no key occurs twice in `pairs`.
pub open spec fn distinct_keys(pairs: Seq<(Seq<char>, Seq<char>)>) -> bool {
    forall|i: int, j: int| 0 <= i < j < pairs.len() ==> pairs[i].0 != pairs[j].0
}

/// The index of the pair of `pairs` that holds `key`, or `pairs.len()` if none does.
pub open spec fn position(pairs: Seq<(Seq<char>, Seq<char>)>, key: Seq<char>) -> int
    decreases pairs.len(),
{
    if pairs.len() == 0 || pairs[0].0 == key {
        0
    } else {
        1 + position(pairs.drop_first(), key)
    }
}

/// `pairs` after `key` was given `value`: in the place that `key` already had,
/// or at the end if it had none.
pub open spec fn put(pairs: Seq<(Seq<char>, Seq<char>)>, key: Seq<char>, value: Seq<char>) -> Seq<
    (Seq<char>, Seq<char>),
> {
    if position(pairs, key) < pairs.len() {
        pairs.update(position(pairs, key), (key, value))
    } else {
        pairs.push((key, value))
    }
}

/// `position` stays within the pairs, passes over no pair with the key, and stops on one.
pub proof fn lemma_position(pairs: Seq<(Seq<char>, Seq<char>)>, key: Seq<char>)
    ensures
        0 <= position(pairs, key) <= pairs.len(),
        forall|j: int| 0 <= j < position(pairs, key) ==> pairs[j].0 != key,
        position(pairs, key) < pairs.len() ==> pairs[position(pairs, key)].0 == key,
    decreases pairs.len(),
{
    if pairs.len() == 0 || pairs[0].0 == key {
    } else {
        let t = pairs.drop_first();
        lemma_position(t, key);
        assert forall|j: int| 0 <= j < position(pairs, key) implies pairs[j].0 != key by {
            if j > 0 {
                assert(pairs[j] == t[j - 1]);
            }
        }
        if position(pairs, key) < pairs.len() {
            assert(pairs[position(pairs, key)] == t[position(t, key)]);
        }
    }
}

/// An index that no pair with the key precedes, and that is the end or such a pair, is `position`.
pub proof fn lemma_position_is(pairs: Seq<(Seq<char>, Seq<char>)>, key: Seq<char>, i: int)
    requires
        0 <= i <= pairs.len(),
        forall|j: int| 0 <= j < i ==> pairs[j].0 != key,
        i < pairs.len() ==> pairs[i].0 == key,
    ensures
        position(pairs, key) == i,
    decreases pairs.len(),
{
    if i > 0 {
        let t = pairs.drop_first();
        assert(pairs[0].0 != key);
        assert forall|j: int| 0 <= j < i - 1 implies t[j].0 != key by {
            assert(t[j] == pairs[j + 1]);
        }
        lemma_position_is(t, key, i - 1);
    }
}

/// The map holds exactly the keys of the pairs.
pub proof fn lemma_to_map_domain(pairs: Seq<(Seq<char>, Seq<char>)>, key: Seq<char>)
    ensures
        to_map(pairs).contains_key(key) <==> exists|i: int| 0 <= i < pairs.len() && pairs[i].0 == key,
    decreases pairs.len(),
{
    if pairs.len() > 0 {
        let t = pairs.drop_last();
        lemma_to_map_domain(t, key);
        if to_map(pairs).contains_key(key) {
            if pairs.last().0 == key {
                assert(pairs[pairs.len() - 1].0 == key);
            } else {
                let i = choose|i: int| 0 <= i < t.len() && t[i].0 == key;
                assert(pairs[i].0 == key);
            }
        }
        if exists|i: int| 0 <= i < pairs.len() && pairs[i].0 == key {
            let i = choose|i: int| 0 <= i < pairs.len() && pairs[i].0 == key;
            if i < t.len() {
                assert(t[i].0 == key);
            }
        }
    }
}

/// Where no key occurs twice, each pair's key maps to that pair's value.
pub proof fn lemma_to_map_value(pairs: Seq<(Seq<char>, Seq<char>)>, i: int)
    requires
        distinct_keys(pairs),
        0 <= i < pairs.len(),
    ensures
        to_map(pairs).contains_key(pairs[i].0),
        to_map(pairs)[pairs[i].0] == pairs[i].1,
    decreases pairs.len(),
{
    let t = pairs.drop_last();
    if i < pairs.len() - 1 {
        assert(distinct_keys(t)) by {
            assert forall|a: int, b: int| 0 <= a < b < t.len() implies t[a].0 != t[b].0 by {
                assert(t[a] == pairs[a] && t[b] == pairs[b]);
            }
        }
        lemma_to_map_value(t, i);
        assert(t[i] == pairs[i]);
        assert(pairs[i].0 != pairs[pairs.len() - 1].0);
    }
}

/// Where no key occurs twice, the map has as many keys as there are pairs.
pub proof fn lemma_to_map_len(pairs: Seq<(Seq<char>, Seq<char>)>)
    requires
        distinct_keys(pairs),
    ensures
        to_map(pairs).dom().finite(),
        to_map(pairs).len() == pairs.len(),
    decreases pairs.len(),
{
    if pairs.len() > 0 {
        let t = pairs.drop_last();
        assert(distinct_keys(t)) by {
            assert forall|a: int, b: int| 0 <= a < b < t.len() implies t[a].0 != t[b].0 by {
                assert(t[a] == pairs[a] && t[b] == pairs[b]);
            }
        }
        lemma_to_map_len(t);
        lemma_to_map_domain(t, pairs.last().0);
        if to_map(t).contains_key(pairs.last().0) {
            let i = choose|i: int| 0 <= i < t.len() && t[i].0 == pairs.last().0;
            assert(pairs[i].0 == pairs[pairs.len() - 1].0);
        }
        assert(to_map(pairs).dom() =~= to_map(t).dom().insert(pairs.last().0));
    }
}

/// Giving a key a value through `put` is `Map::insert` on the folded map, and
/// leaves the keys distinct.
pub proof fn lemma_put(pairs: Seq<(Seq<char>, Seq<char>)>, key: Seq<char>, value: Seq<char>)
    requires
        distinct_keys(pairs),
    ensures
        distinct_keys(put(pairs, key, value)),
        to_map(put(pairs, key, value)) == to_map(pairs).insert(key, value),
    decreases pairs.len(),
{
    let p = position(pairs, key);
    let after = put(pairs, key, value);
    lemma_position(pairs, key);
    if p < pairs.len() {
        assert(distinct_keys(after)) by {
            assert forall|a: int, b: int| 0 <= a < b < after.len() implies after[a].0
                != after[b].0 by {
                assert(after[a].0 == pairs[a].0 && after[b].0 == pairs[b].0);
            }
        }
        let t = pairs.drop_last();
        assert(distinct_keys(t)) by {
            assert forall|a: int, b: int| 0 <= a < b < t.len() implies t[a].0 != t[b].0 by {
                assert(t[a] == pairs[a] && t[b] == pairs[b]);
            }
        }
        if p == pairs.len() - 1 {
            assert(after.drop_last() =~= t);
            assert(to_map(after) =~= to_map(pairs).insert(key, value));
        } else {
            lemma_position_is(t, key, p);
            lemma_put(t, key, value);
            assert(after.drop_last() =~= put(t, key, value));
            assert(after.last() == pairs.last());
            assert(pairs.last().0 != key);
            assert(to_map(after) =~= to_map(pairs).insert(key, value));
        }
    } else {
        assert(after.drop_last() =~= pairs);
        assert(distinct_keys(after)) by {
            assert forall|a: int, b: int| 0 <= a < b < after.len() implies after[a].0
                != after[b].0 by {
                if b < pairs.len() {
                    assert(after[a] == pairs[a] && after[b] == pairs[b]);
                } else {
                    assert(after[a] == pairs[a]);
                }
            }
        }
    }
}

/// A mapping from keys to values in which each key occurs once. The pairs keep
/// the order in which their keys first came in.
pub struct Mapping {
    entries: Vec<(String, String)>,
}

impl View for Mapping {
    type V = Map<Seq<char>, Seq<char>>;

    open spec fn view(&self) -> Map<Seq<char>, Seq<char>> {
        to_map(self.pairs())
    }
}

impl Mapping {
    /// The pairs of the mapping, in order.
    pub closed spec fn pairs(&self) -> Seq<(Seq<char>, Seq<char>)> {
        Seq::new(self.entries@.len(), |i: int| (self.entries@[i].0@, self.entries@[i].1@))
    }

    #[verifier::type_invariant]
    spec fn well_formed(&self) -> bool {
        distinct_keys(self.pairs())
    }

    /// An empty mapping.
    pub fn new() -> (m: Mapping)
        ensures
            m@ == Map::<Seq<char>, Seq<char>>::empty(),
            m.pairs() == Seq::<(Seq<char>, Seq<char>)>::empty(),
    {
        let m = Mapping { entries: Vec::new() };
        assert(m.pairs() =~= Seq::<(Seq<char>, Seq<char>)>::empty());
        m
    }

    /// The number of keys.
    pub fn len(&self) -> (n: usize)
        ensures
            n == self.pairs().len(),
            n == self@.len(),
            distinct_keys(self.pairs()),
    {
        proof {
            use_type_invariant(self);
            lemma_to_map_len(self.pairs());
        }
        self.entries.len()
    }

    /// Whether the mapping holds no key.
    pub fn is_empty(&self) -> (b: bool)
        ensures
            b == (self.pairs().len() == 0),
            b == (self@.len() == 0),
    {
        self.len() == 0
    }

    /// The keys with their values, in the order of the mapping.
    pub fn into_pairs(self) -> (r: Vec<(String, String)>)
        ensures
            r@.len() == self.pairs().len(),
            forall|i: int| 0 <= i < r@.len() ==> (r@[i].0@, r@[i].1@) == self.pairs()[i],
            distinct_keys(self.pairs()),
    {
        proof {
            use_type_invariant(&self);
        }
        self.entries
    }

    /// A mapping with the same pairs.
    pub fn duplicate(&self) -> (m: Mapping)
        ensures
            m.pairs() == self.pairs(),
    {
        let mut entries: Vec<(String, String)> = Vec::new();
        let mut i: usize = 0;
        while i < self.entries.len()
            invariant
                i <= self.entries.len(),
                entries@.len() == i,
                forall|j: int|
                    0 <= j < i ==> (#[trigger] entries@[j]).0@ == self.entries@[j].0@
                        && entries@[j].1@ == self.entries@[j].1@,
            decreases self.entries.len() - i,
        {
            entries.push((self.entries[i].0.clone(), self.entries[i].1.clone()));
            i += 1;
        }
        proof {
            use_type_invariant(self);
            assert(Seq::new(entries@.len(), |i: int| (entries@[i].0@, entries@[i].1@))
                =~= self.pairs());
        }
        Mapping { entries }
    }

    /// The index of the pair that holds `key`, or `len()` if there is none.
    fn locate(&self, key: &String) -> (i: usize)
        ensures
            i == position(self.pairs(), key@),
            i <= self.pairs().len(),
    {
        let mut i: usize = 0;
        while i < self.entries.len() && !(self.entries[i].0 == *key)
            invariant
                i <= self.entries.len(),
                forall|j: int| 0 <= j < i ==> self.pairs()[j].0 != key@,
            decreases self.entries.len() - i,
        {
            i += 1;
        }
        proof {
            lemma_position_is(self.pairs(), key@, i as int);
        }
        i
    }

    /// The value of `key`, if it has one.
    pub fn get(&self, key: &str) -> (r: Option<&String>)
        ensures
            match r {
                Some(v) => self@.contains_key(key@) && v@ == self@[key@],
                None => !self@.contains_key(key@),
            },
    {
        let owned = key.to_owned();
        let i = self.locate(&owned);
        proof {
            use_type_invariant(self);
            lemma_position(self.pairs(), key@);
            lemma_to_map_domain(self.pairs(), key@);
        }
        if i < self.entries.len() {
            proof {
                lemma_to_map_value(self.pairs(), i as int);
            }
            Some(&self.entries[i].1)
        } else {
            None
        }
    }

    /// Whether `key` has a value.
    pub fn contains_key(&self, key: &str) -> (b: bool)
        ensures
            b == self@.contains_key(key@),
    {
        self.get(key).is_some()
    }

    /// Gives `key` the value `value`, in place of the one it had, if any.
    pub fn insert(&mut self, key: String, value: String)
        ensures
            final(self)@ == old(self)@.insert(key@, value@),
            final(self).pairs() == put(old(self).pairs(), key@, value@),
    {
        let i = self.locate(&key);
        proof {
            use_type_invariant(&*self);
            lemma_put(self.pairs(), key@, value@);
        }
        let ghost before = self.pairs();
        let mut entries: Vec<(String, String)> = Vec::new();
        std::mem::swap(&mut self.entries, &mut entries);
        if i < entries.len() {
            entries.set(i, (key, value));
        } else {
            entries.push((key, value));
        }
        assert(Seq::new(entries@.len(), |i: int| (entries@[i].0@, entries@[i].1@)) =~= put(
            before,
            key@,
            value@,
        ));
        std::mem::swap(&mut self.entries, &mut entries);
    }

    /// The key and the value of the pair at index `i`.
    pub fn entry(&self, i: usize) -> (r: (&String, &String))
        requires
            i < self.pairs().len(),
        ensures
            (r.0@, r.1@) == self.pairs()[i as int],
            forall|j: int| 0 <= j < self.pairs().len() && j != i ==> self.pairs()[j].0 != r.0@,
    {
        proof {
            use_type_invariant(self);
        }
        (&self.entries[i].0, &self.entries[i].1)
    }
}

} // verus!
