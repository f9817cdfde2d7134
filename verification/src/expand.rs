//! Substitution of `$NAME` and `${NAME}` references inside a value.

use crate::mapping::Mapping;
use crate::scan::{index_from, lemma_find_first, lemma_find_is, skip_past, take_until};
use crate::text::{chars_of, extend, is_name_char, name_char, slice_of, string_of};
use vstd::prelude::*;

verus! {

/// The length of the longest prefix of `s` made of name characters.
pub open spec fn name_len(s: Seq<char>) -> int
    decreases s.len(),
{
    if s.len() > 0 && is_name_char(s[0]) {
        1 + name_len(s.drop_first())
    } else {
        0
    }
}

/// What a reference to `name` stands for: its value in `vars`, else its value
/// in `env`, else the empty text.
pub open spec fn resolve(
    name: Seq<char>,
    vars: Map<Seq<char>, Seq<char>>,
    env: Map<Seq<char>, Seq<char>>,
) -> Seq<char> {
    if vars.contains_key(name) {
        vars[name]
    } else if env.contains_key(name) {
        env[name]
    } else {
        Seq::empty()
    }
}

/// The value `v` with its references resolved, scanning from left to right.
///
/// `${` opens a name that runs up to the next `}`, or to the end where there
/// is none. Any other `$` is followed by the longest run of name characters;
/// the character that ends the run is copied after the substituted text and
/// is not itself looked at again. What a reference stands for is not scanned
/// for further references.
pub open spec fn expand_value(
    v: Seq<char>,
    vars: Map<Seq<char>, Seq<char>>,
    env: Map<Seq<char>, Seq<char>>,
) -> Seq<char>
    decreases v.len(),
    via expand_value_decreases
{
    if v.len() == 0 {
        Seq::empty()
    } else if v[0] != '$' {
        seq![v[0]] + expand_value(v.skip(1), vars, env)
    } else if v.len() > 1 && v[1] == '{' {
        let body = v.skip(2);
        resolve(take_until(body, '}'), vars, env) + expand_value(skip_past(body, '}'), vars, env)
    } else {
        let rest = v.skip(1);
        let n = name_len(rest);
        let found = resolve(rest.take(n), vars, env);
        if n < rest.len() {
            found + seq![rest[n]] + expand_value(rest.skip(n + 1), vars, env)
        } else {
            found
        }
    }
}

#[via_fn]
proof fn expand_value_decreases(
    v: Seq<char>,
    vars: Map<Seq<char>, Seq<char>>,
    env: Map<Seq<char>, Seq<char>>,
) {
    if v.len() > 0 && v[0] == '$' {
        if v.len() > 1 && v[1] == '{' {
            lemma_find_first(v.skip(2), '}');
        } else {
            lemma_name_len(v.skip(1));
        }
    }
}

/// `name_len` stays within the sequence, covers name characters only, and
/// stops at the end or on a character that is none.
pub proof fn lemma_name_len(s: Seq<char>)
    ensures
        0 <= name_len(s) <= s.len(),
        forall|j: int| 0 <= j < name_len(s) ==> is_name_char(s[j]),
        name_len(s) < s.len() ==> !is_name_char(s[name_len(s)]),
    decreases s.len(),
{
    if s.len() > 0 && is_name_char(s[0]) {
        let t = s.drop_first();
        lemma_name_len(t);
        assert forall|j: int| 0 <= j < name_len(s) implies is_name_char(s[j]) by {
            if j > 0 {
                assert(s[j] == t[j - 1]);
            }
        }
        if name_len(s) < s.len() {
            assert(s[name_len(s)] == t[name_len(t)]);
        }
    }
}

/// A prefix of name characters that ends at the end, or on a character that
/// is none, is the longest one.
pub proof fn lemma_name_len_is(s: Seq<char>, n: int)
    requires
        0 <= n <= s.len(),
        forall|j: int| 0 <= j < n ==> is_name_char(s[j]),
        n < s.len() ==> !is_name_char(s[n]),
    ensures
        name_len(s) == n,
    decreases s.len(),
{
    if n > 0 {
        let t = s.drop_first();
        assert(is_name_char(s[0]));
        assert forall|j: int| 0 <= j < n - 1 implies is_name_char(t[j]) by {
            assert(t[j] == s[j + 1]);
        }
        if n < s.len() {
            assert(t[n - 1] == s[n]);
        }
        lemma_name_len_is(t, n - 1);
    }
}

/// A value without a `$` expands to itself.
pub proof fn lemma_expand_plain(
    v: Seq<char>,
    vars: Map<Seq<char>, Seq<char>>,
    env: Map<Seq<char>, Seq<char>>,
)
    requires
        !v.contains('$'),
    ensures
        expand_value(v, vars, env) == v,
    decreases v.len(),
{
    if v.len() > 0 {
        let tail = v.skip(1);
        assert(v[0] != '$');
        assert forall|i: int| 0 <= i < tail.len() implies tail[i] != '$' by {
            assert(tail[i] == v[i + 1]);
        }
        lemma_expand_plain(tail, vars, env);
        assert(seq![v[0]] + tail =~= v);
    }
}

/// Text without a `$` is copied, and what follows it expands as if it stood alone.
pub proof fn lemma_expand_copy(
    prefix: Seq<char>,
    tail: Seq<char>,
    vars: Map<Seq<char>, Seq<char>>,
    env: Map<Seq<char>, Seq<char>>,
)
    requires
        !prefix.contains('$'),
    ensures
        expand_value(prefix + tail, vars, env) == prefix + expand_value(tail, vars, env),
    decreases prefix.len(),
{
    if prefix.len() == 0 {
        assert(prefix + tail =~= tail);
        assert(prefix + expand_value(tail, vars, env) =~= expand_value(tail, vars, env));
    } else {
        let v = prefix + tail;
        let rest = prefix.skip(1);
        assert(v[0] == prefix[0] && prefix[0] != '$');
        assert forall|i: int| 0 <= i < rest.len() implies rest[i] != '$' by {
            assert(rest[i] == prefix[i + 1]);
        }
        lemma_expand_copy(rest, tail, vars, env);
        assert(v.skip(1) =~= rest + tail);
        assert(seq![v[0]] + (rest + expand_value(tail, vars, env)) =~= prefix + expand_value(
            tail,
            vars,
            env,
        ));
    }
}

/// `${name}` stands for what `name` resolves to, and what follows the
/// closing brace expands as if it stood alone.
pub proof fn lemma_expand_braces(
    name: Seq<char>,
    tail: Seq<char>,
    vars: Map<Seq<char>, Seq<char>>,
    env: Map<Seq<char>, Seq<char>>,
)
    requires
        !name.contains('}'),
    ensures
        expand_value(seq!['$', '{'] + name + seq!['}'] + tail, vars, env) == resolve(
            name,
            vars,
            env,
        ) + expand_value(tail, vars, env),
{
    let v = seq!['$', '{'] + name + seq!['}'] + tail;
    let body = v.skip(2);
    assert(v[0] == '$' && v[1] == '{');
    assert(body =~= name + seq!['}'] + tail);
    assert(body[name.len() as int] == '}');
    assert forall|j: int| 0 <= j < name.len() implies body[j] != '}' by {
        assert(body[j] == name[j]);
    }
    lemma_find_is(body, '}', name.len() as int);
    assert(take_until(body, '}') =~= name);
    assert(skip_past(body, '}') =~= tail);
}

/// `${name` without a closing brace stands for what `name` resolves to.
pub proof fn lemma_expand_open_braces(
    name: Seq<char>,
    vars: Map<Seq<char>, Seq<char>>,
    env: Map<Seq<char>, Seq<char>>,
)
    requires
        !name.contains('}'),
    ensures
        expand_value(seq!['$', '{'] + name, vars, env) == resolve(name, vars, env),
{
    let v = seq!['$', '{'] + name;
    let body = v.skip(2);
    assert(v[0] == '$' && v[1] == '{');
    assert(body =~= name);
    lemma_find_first(body, '}');
    assert(take_until(body, '}') =~= name);
    assert(skip_past(body, '}') =~= Seq::<char>::empty());
    assert(resolve(name, vars, env) + expand_value(Seq::<char>::empty(), vars, env) =~= resolve(
        name,
        vars,
        env,
    ));
}

/// `$name`, where `name` is made of name characters and no name character
/// follows, stands for what `name` resolves to. The character that follows
/// is copied, and what comes after it expands as if it stood alone.
pub proof fn lemma_expand_bare(
    name: Seq<char>,
    tail: Seq<char>,
    vars: Map<Seq<char>, Seq<char>>,
    env: Map<Seq<char>, Seq<char>>,
)
    requires
        forall|i: int| 0 <= i < name.len() ==> is_name_char(#[trigger] name[i]),
        tail.len() > 0 ==> !is_name_char(tail[0]),
        (name + tail).len() > 0 ==> (name + tail)[0] != '{',
    ensures
        expand_value(seq!['$'] + name + tail, vars, env) == if tail.len() == 0 {
            resolve(name, vars, env)
        } else {
            resolve(name, vars, env) + seq![tail[0]] + expand_value(tail.skip(1), vars, env)
        },
{
    let v = seq!['$'] + name + tail;
    let rest = v.skip(1);
    assert(v[0] == '$');
    assert(rest =~= name + tail);
    if v.len() > 1 {
        assert(v[1] == rest[0]);
    }
    assert forall|j: int| 0 <= j < name.len() implies is_name_char(rest[j]) by {
        assert(rest[j] == name[j]);
    }
    if tail.len() > 0 {
        assert(rest[name.len() as int] == tail[0]);
    }
    lemma_name_len_is(rest, name.len() as int);
    assert(rest.take(name.len() as int) =~= name);
    if tail.len() > 0 {
        assert(rest.skip(name.len() as int + 1) =~= tail.skip(1));
    }
}

/// Looks `name` up in `vars`, then in `env`.
pub fn resolved(name: &Vec<char>, vars: &Mapping, env: &Mapping) -> (r: Vec<char>)
    ensures
        r@ == resolve(name@, vars@, env@),
{
    let key = string_of(name);
    match vars.get(key.as_str()) {
        Some(found) => chars_of(found.as_str()),
        None => match env.get(key.as_str()) {
            Some(found) => chars_of(found.as_str()),
            None => Vec::new(),
        },
    }
}

/// Resolves the references of `v`.
pub fn expanded(v: &Vec<char>, vars: &Mapping, env: &Mapping) -> (r: Vec<char>)
    ensures
        r@ == expand_value(v@, vars@, env@),
{
    let mut r: Vec<char> = Vec::new();
    let mut i: usize = 0;
    assert(v@.skip(0) =~= v@);
    assert(r@ + expand_value(v@, vars@, env@) =~= expand_value(v@, vars@, env@));
    while i < v.len()
        invariant
            i <= v.len(),
            r@ + expand_value(v@.skip(i as int), vars@, env@) == expand_value(v@, vars@, env@),
        decreases v.len() - i,
    {
        let ghost t = v@.skip(i as int);
        let ghost before = r@;
        let c = v[i];
        assert(t[0] == c);
        if c != '$' {
            r.push(c);
            i += 1;
            proof {
                let tail = expand_value(t.skip(1), vars@, env@);
                assert(t.skip(1) =~= v@.skip(i as int));
                assert(r@ + tail =~= before + (seq![c] + tail));
            }
        } else if i + 1 < v.len() && v[i + 1] == '{' {
            let close = index_from(v, i + 2, '}');
            let name = slice_of(v, i + 2, close);
            let found = resolved(&name, vars, env);
            extend(&mut r, &found);
            let ghost body = t.skip(2);
            proof {
                assert(t[1] == '{');
                assert(body =~= v@.skip(i + 2));
                lemma_find_first(body, '}');
                assert(name@ =~= take_until(body, '}'));
            }
            if close < v.len() {
                i = close + 1;
            } else {
                i = v.len();
            }
            proof {
                let tail = expand_value(skip_past(body, '}'), vars@, env@);
                assert(skip_past(body, '}') =~= v@.skip(i as int));
                assert(r@ + tail =~= before + (found@ + tail));
            }
        } else {
            let ghost rest = t.skip(1);
            let mut j: usize = i + 1;
            while j < v.len() && name_char(v[j])
                invariant
                    i + 1 <= j <= v.len(),
                    forall|k: int| i + 1 <= k < j ==> is_name_char(v@[k]),
                decreases v.len() - j,
            {
                j += 1;
            }
            let name = slice_of(v, i + 1, j);
            let found = resolved(&name, vars, env);
            extend(&mut r, &found);
            proof {
                assert(rest =~= v@.skip(i + 1));
                lemma_name_len_is(rest, j - (i + 1));
                assert(name@ =~= rest.take(name_len(rest)));
                if t.len() > 1 {
                    assert(t[1] == v@[i + 1]);
                }
            }
            if j < v.len() {
                r.push(v[j]);
                i = j + 1;
                proof {
                    let n = name_len(rest);
                    let tail = expand_value(rest.skip(n + 1), vars@, env@);
                    assert(rest[n] == v@[j as int]);
                    assert(rest.skip(n + 1) =~= v@.skip(i as int));
                    assert(r@ + tail =~= before + (found@ + seq![rest[n]] + tail));
                }
            } else {
                i = v.len();
                proof {
                    let tail = expand_value(v@.skip(i as int), vars@, env@);
                    assert(v@.skip(i as int) =~= Seq::<char>::empty());
                    assert(r@ + tail =~= before + found@);
                }
            }
        }
    }
    assert(v@.skip(i as int) =~= Seq::<char>::empty());
    assert(r@ + Seq::<char>::empty() =~= r@);
    r
}

} // verus!
