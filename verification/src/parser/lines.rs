//! The document: the key-value lines of a file, in order.

use crate::expand::{expand_value, expanded};
use crate::mapping::{distinct_keys, lemma_put, put, to_map, Mapping};
use crate::parser::line::{line_of, parse_line, Entry, KeyVal, Line, LineView, Quote};
use crate::scan::{find, index_from, lemma_find_first, skip_past, take_until};
use crate::text::{chars_of, slice_of, string_of};
use vstd::prelude::*;

verus! {

/// `l` without the carriage return at its end, if it has one.
pub open spec fn strip_cr(l: Seq<char>) -> Seq<char> {
    if l.len() > 0 && l.last() == '\r' {
        l.drop_last()
    } else {
        l
    }
}

/// The lines of `s`. A line ends with a line feed, or with a carriage return
/// and a line feed; neither belongs to the line. The last line needs no line
/// ending, and no empty line follows a final line ending.
pub open spec fn split_lines(s: Seq<char>) -> Seq<Seq<char>>
    decreases s.len(),
    via split_lines_decreases
{
    if s.len() == 0 {
        Seq::empty()
    } else if find(s, '\n') < s.len() {
        seq![strip_cr(take_until(s, '\n'))] + split_lines(skip_past(s, '\n'))
    } else {
        seq![s]
    }
}

#[via_fn]
proof fn split_lines_decreases(s: Seq<char>) {
    lemma_find_first(s, '\n');
}

/// The entries among `lines`, in order.
pub open spec fn key_values(lines: Seq<LineView>) -> Seq<Entry>
    decreases lines.len(),
{
    if lines.len() == 0 {
        Seq::empty()
    } else {
        match lines.last() {
            LineView::KeyVal(e) => key_values(lines.drop_last()).push(e),
            LineView::Empty => key_values(lines.drop_last()),
        }
    }
}

/// The document that the text of a file holds: one entry for each of its
/// lines that parses to a key and a value.
pub open spec fn assemble(text: Seq<char>) -> Seq<Entry> {
    key_values(split_lines(text).map_values(|l: Seq<char>| parse_line(l)))
}

/// The mapping that a document folds into: the last entry of a key decides its value.
pub open spec fn fold(doc: Seq<Entry>) -> Map<Seq<char>, Seq<char>>
    decreases doc.len(),
{
    if doc.len() == 0 {
        Map::empty()
    } else {
        fold(doc.drop_last()).insert(doc.last().key, doc.last().value)
    }
}

/// The pairs that a document folds into: each key stands where it first
/// occurred, with the value of its last entry.
pub open spec fn collect(doc: Seq<Entry>) -> Seq<(Seq<char>, Seq<char>)>
    decreases doc.len(),
{
    if doc.len() == 0 {
        Seq::empty()
    } else {
        put(collect(doc.drop_last()), doc.last().key, doc.last().value)
    }
}

/// Whether the value of `e` is open to substitution. With `all` set every
/// entry is; otherwise only a double-quoted one.
pub open spec fn eligible(e: Entry, all: bool) -> bool {
    all || e.quote == Quote::Double
}

/// The mapping after the first `n` entries of `doc` had their turn: starting
/// from the folded document, each eligible entry in order has its value
/// expanded against the mapping as it then stands, with `env` to fall back
/// on, and the result put in the mapping under its key.
pub open spec fn expand_prefix(
    doc: Seq<Entry>,
    n: nat,
    env: Map<Seq<char>, Seq<char>>,
    all: bool,
) -> Map<Seq<char>, Seq<char>>
    decreases n,
{
    if n == 0 {
        fold(doc)
    } else {
        let vars = expand_prefix(doc, (n - 1) as nat, env, all);
        let e = doc[n - 1];
        if eligible(e, all) {
            vars.insert(e.key, expand_value(e.value, vars, env))
        } else {
            vars
        }
    }
}

/// The pairs of the mapping after the first `n` entries of `doc` had their turn.
pub open spec fn expand_pairs(
    doc: Seq<Entry>,
    n: nat,
    env: Map<Seq<char>, Seq<char>>,
    all: bool,
) -> Seq<(Seq<char>, Seq<char>)>
    decreases n,
{
    if n == 0 {
        collect(doc)
    } else {
        let pairs = expand_pairs(doc, (n - 1) as nat, env, all);
        let e = doc[n - 1];
        if eligible(e, all) {
            put(pairs, e.key, expand_value(e.value, to_map(pairs), env))
        } else {
            pairs
        }
    }
}

/// The resolved mapping of a document: its fold, with the double-quoted
/// values expanded from top to bottom.
pub open spec fn expansion(doc: Seq<Entry>, env: Map<Seq<char>, Seq<char>>) -> Map<
    Seq<char>,
    Seq<char>,
> {
    expand_prefix(doc, doc.len(), env, false)
}

/// The pairs of a folded document hold each key once, and make up its fold.
pub proof fn lemma_collect(doc: Seq<Entry>)
    ensures
        distinct_keys(collect(doc)),
        to_map(collect(doc)) == fold(doc),
    decreases doc.len(),
{
    if doc.len() > 0 {
        lemma_collect(doc.drop_last());
        lemma_put(collect(doc.drop_last()), doc.last().key, doc.last().value);
    }
}

/// The pairs of an expansion hold each key once, and make up the expanded mapping.
pub proof fn lemma_expand_pairs(
    doc: Seq<Entry>,
    n: nat,
    env: Map<Seq<char>, Seq<char>>,
    all: bool,
)
    requires
        n <= doc.len(),
    ensures
        distinct_keys(expand_pairs(doc, n, env, all)),
        to_map(expand_pairs(doc, n, env, all)) == expand_prefix(doc, n, env, all),
    decreases n,
{
    if n == 0 {
        lemma_collect(doc);
    } else {
        let pairs = expand_pairs(doc, (n - 1) as nat, env, all);
        let e = doc[n - 1];
        lemma_expand_pairs(doc, (n - 1) as nat, env, all);
        if eligible(e, all) {
            lemma_put(pairs, e.key, expand_value(e.value, to_map(pairs), env));
        }
    }
}

/// No line of a text holds a line feed.
pub proof fn lemma_split_lines(s: Seq<char>, i: int)
    requires
        0 <= i < split_lines(s).len(),
    ensures
        !split_lines(s)[i].contains('\n'),
    decreases s.len(),
{
    lemma_find_first(s, '\n');
    if find(s, '\n') < s.len() {
        if i == 0 {
            let line = strip_cr(take_until(s, '\n'));
            assert forall|j: int| 0 <= j < line.len() implies line[j] != '\n' by {
                assert(line[j] == s[j]);
            }
        } else {
            let rest = split_lines(skip_past(s, '\n'));
            assert(split_lines(s)[i] == rest[i - 1]);
            lemma_split_lines(skip_past(s, '\n'), i - 1);
        }
    }
}

/// A folded document holds exactly the keys of its entries.
pub proof fn lemma_fold_keys(doc: Seq<Entry>, key: Seq<char>)
    ensures
        fold(doc).contains_key(key) <==> exists|i: int| 0 <= i < doc.len() && doc[i].key == key,
    decreases doc.len(),
{
    if doc.len() > 0 {
        let init = doc.drop_last();
        lemma_fold_keys(init, key);
        if fold(doc).contains_key(key) {
            if doc.last().key == key {
                assert(doc[doc.len() - 1].key == key);
            } else {
                let i = choose|i: int| 0 <= i < init.len() && init[i].key == key;
                assert(doc[i].key == key);
            }
        }
        if exists|i: int| 0 <= i < doc.len() && doc[i].key == key {
            let i = choose|i: int| 0 <= i < doc.len() && doc[i].key == key;
            if i < init.len() {
                assert(init[i].key == key);
            }
        }
    }
}

/// In a folded document a key has the value of its last entry.
pub proof fn lemma_fold_last(doc: Seq<Entry>, i: int)
    requires
        0 <= i < doc.len(),
        forall|j: int| i < j < doc.len() ==> doc[j].key != doc[i].key,
    ensures
        fold(doc).contains_key(doc[i].key),
        fold(doc)[doc[i].key] == doc[i].value,
    decreases doc.len(),
{
    if i < doc.len() - 1 {
        let init = doc.drop_last();
        assert(init[i] == doc[i]);
        assert forall|j: int| i < j < init.len() implies init[j].key != init[i].key by {
            assert(init[j] == doc[j]);
        }
        lemma_fold_last(init, i);
        assert(doc[doc.len() - 1].key != doc[i].key);
    }
}

/// Expansion gives values to the keys of the folded document and to no others.
pub proof fn lemma_expand_keys(doc: Seq<Entry>, n: nat, env: Map<Seq<char>, Seq<char>>, all: bool)
    requires
        n <= doc.len(),
    ensures
        expand_prefix(doc, n, env, all).dom() == fold(doc).dom(),
    decreases n,
{
    if n > 0 {
        let vars = expand_prefix(doc, (n - 1) as nat, env, all);
        let e = doc[n - 1];
        lemma_expand_keys(doc, (n - 1) as nat, env, all);
        lemma_fold_keys(doc, e.key);
        assert(vars.dom().contains(e.key));
        assert(vars.dom().insert(e.key) =~= vars.dom());
        assert(expand_prefix(doc, n, env, all).dom() =~= vars.dom());
    }
}

/// A document without a double-quoted value expands to its fold.
pub proof fn lemma_expand_none(doc: Seq<Entry>, n: nat, env: Map<Seq<char>, Seq<char>>)
    requires
        n <= doc.len(),
        forall|i: int| 0 <= i < doc.len() ==> doc[i].quote != Quote::Double,
    ensures
        expand_prefix(doc, n, env, false) == fold(doc),
    decreases n,
{
    if n > 0 {
        lemma_expand_none(doc, (n - 1) as nat, env);
    }
}

/// Two documents assembled from the same text are equal, entry by entry.
pub proof fn lemma_assemble_again(text: Seq<char>, first: Lines, second: Lines)
    requires
        first@ == assemble(text),
        second@ == assemble(text),
    ensures
        first@ == second@,
        first@.len() == second@.len(),
        forall|i: int| 0 <= i < first@.len() ==> first@[i] == second@[i],
{
}

/// `Lines` is used to parse the sequence of lines
#[derive(Debug, PartialEq)]
pub struct Lines {
    lines: Vec<KeyVal>,
}

impl View for Lines {
    type V = Seq<Entry>;

    closed spec fn view(&self) -> Seq<Entry> {
        self.lines@.map_values(|kv: KeyVal| kv@)
    }
}

/// Parses the lines of `text` and keeps the entries.
pub fn entries_of(text: &Vec<char>) -> (r: Vec<KeyVal>)
    ensures
        r@.map_values(|kv: KeyVal| kv@) == assemble(text@),
{
    let ghost parse = |l: Seq<char>| parse_line(l);
    let ghost view = |kv: KeyVal| kv@;
    let mut r: Vec<KeyVal> = Vec::new();
    let mut pos: usize = 0;
    let ghost mut done: Seq<Seq<char>> = Seq::empty();
    proof {
        assert(text@.skip(0) =~= text@);
        assert(done + split_lines(text@) =~= split_lines(text@));
        assert(r@.map_values(view) =~= key_values(done.map_values(parse)));
    }
    while pos < text.len()
        invariant
            pos <= text.len(),
            parse == (|l: Seq<char>| parse_line(l)),
            view == (|kv: KeyVal| kv@),
            done + split_lines(text@.skip(pos as int)) == split_lines(text@),
            r@.map_values(view) == key_values(done.map_values(parse)),
        decreases text.len() - pos,
    {
        let ghost rest = text@.skip(pos as int);
        let ghost before = r@;
        let end = index_from(text, pos, '\n');
        let mut stop = end;
        if end < text.len() && end > pos && text[end - 1] == '\r' {
            stop = end - 1;
        }
        let line = slice_of(text, pos, stop);
        let ghost next: Seq<char>;
        proof {
            lemma_find_first(rest, '\n');
            if end < text.len() {
                assert(take_until(rest, '\n') =~= text@.subrange(pos as int, end as int));
                assert(line@ =~= strip_cr(take_until(rest, '\n')));
                next = skip_past(rest, '\n');
                assert(next =~= text@.skip(end + 1));
            } else {
                assert(line@ =~= rest);
                next = Seq::empty();
                assert(next =~= text@.skip(end as int));
            }
            assert(done.push(line@) + split_lines(next) =~= done + split_lines(rest));
            let parsed = done.push(line@).map_values(parse);
            assert(parsed.drop_last() =~= done.map_values(parse));
            assert(parsed.last() == parse_line(line@));
            done = done.push(line@);
        }
        match line_of(&line) {
            Line::KeyVal(kv) => {
                r.push(kv);
                assert(r@.map_values(view) =~= before.map_values(view).push(kv@));
            },
            Line::Empty => {},
        }
        if end < text.len() {
            pos = end + 1;
        } else {
            pos = end;
        }
    }
    proof {
        assert(text@.skip(pos as int) =~= Seq::<char>::empty());
        assert(done + Seq::<Seq<char>>::empty() =~= done);
    }
    r
}

impl Lines {
    /// Create `Lines` from a vec of [`Line`]. Can be useful if you manually parsing individual lines
    pub fn new(lines: Vec<Line>) -> (r: Lines)
        ensures
            r@ == key_values(lines@.map_values(|l: Line| l@)),
    {
        let ghost view = |l: Line| l@;
        let ghost given = lines@;
        let mut kept: Vec<KeyVal> = Vec::new();
        assert(kept@.map_values(|kv: KeyVal| kv@) =~= key_values(given.take(0).map_values(view)));
        for l in it: lines
            invariant
                view == (|l: Line| l@),
                it.seq() == given,
                kept@.map_values(|kv: KeyVal| kv@) == key_values(
                    given.take(it.index()).map_values(view),
                ),
        {
            let ghost before = kept@;
            proof {
                let upto = given.take(it.index() + 1).map_values(view);
                assert(upto.drop_last() =~= given.take(it.index()).map_values(view));
                assert(upto.last() == l@);
            }
            match l {
                Line::KeyVal(kv) => {
                    kept.push(kv);
                    assert(kept@.map_values(|kv: KeyVal| kv@) =~= before.map_values(
                        |kv: KeyVal| kv@,
                    ).push(kv@));
                },
                Line::Empty => {},
            }
        }
        assert(given.take(given.len() as int) =~= given);
        Lines { lines: kept }
    }

    /// The number of entries.
    pub fn len(&self) -> (n: usize)
        ensures
            n == self@.len(),
    {
        self.lines.len()
    }

    /// The entry at index `i`, if there is one.
    pub fn get(&self, i: usize) -> (r: Option<&KeyVal>)
        ensures
            match r {
                Some(kv) => i < self@.len() && kv@ == self@[i as int],
                None => i >= self@.len(),
            },
    {
        if i < self.lines.len() {
            Some(&self.lines[i])
        } else {
            None
        }
    }

    /// Parses the lines and converts into a mapping
    pub fn to_hash_map(&self) -> (m: Mapping)
        ensures
            m@ == fold(self@),
            m.pairs() == collect(self@),
    {
        let mut m = Mapping::new();
        let mut i: usize = 0;
        assert(self@.take(0) =~= Seq::<Entry>::empty());
        while i < self.lines.len()
            invariant
                i <= self.lines.len(),
                m.pairs() == collect(self@.take(i as int)),
            decreases self.lines.len() - i,
        {
            let kv = &self.lines[i];
            proof {
                let upto = self@.take(i + 1);
                assert(upto.drop_last() =~= self@.take(i as int));
                assert(upto.last() == kv@);
            }
            m.insert(kv.k.clone(), kv.v.clone());
            i += 1;
        }
        proof {
            assert(self@.take(i as int) =~= self@);
            lemma_collect(self@);
        }
        m
    }

    /// Parses the lines and does variable substitution then converts into a
    /// mapping: the document is folded, and then, from top to bottom, each
    /// double-quoted value is expanded against the mapping as it stands and
    /// put back under its key. A name that the mapping lacks is looked up in `env`.
    pub fn expand(&self, env: &Mapping) -> (m: Mapping)
        ensures
            m@ == expansion(self@, env@),
            m.pairs() == expand_pairs(self@, self@.len(), env@, false),
    {
        let mut m = self.to_hash_map();
        let mut i: usize = 0;
        while i < self.lines.len()
            invariant
                i <= self.lines.len(),
                m.pairs() == expand_pairs(self@, i as nat, env@, false),
            decreases self.lines.len() - i,
        {
            let kv = &self.lines[i];
            assert(kv@ == self@[i as int]);
            match kv.q {
                Quote::Double => {
                    let value = expanded(&chars_of(kv.v.as_str()), &m, env);
                    m.insert(kv.k.clone(), string_of(&value));
                },
                _ => {},
            }
            i += 1;
        }
        proof {
            lemma_expand_pairs(self@, self@.len(), env@, false);
        }
        m
    }
}

impl<'l> From<&'l str> for Lines {
    /// Parses the text of a file.
    fn from(lines: &'l str) -> (r: Lines)
        ensures
            r@ == assemble(lines@),
    {
        Lines { lines: entries_of(&chars_of(lines)) }
    }
}

/// `from` is held to its own contract, stated over views. No `Lines` can be
/// written down for `from_spec`: a specification cannot build a `String`.
impl<'l> vstd::std_specs::convert::FromSpecImpl<&'l str> for Lines {
    open spec fn obeys_from_spec() -> bool {
        false
    }

    open spec fn from_spec(v: &'l str) -> Lines {
        arbitrary()
    }
}

} // verus!
