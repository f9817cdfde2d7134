//! Lines and documents that keep a key and a value and no record of the quoting.

use crate::expand::expanded;
use crate::mapping::Mapping;
use crate::parser::line::{
    closed, escape_char, normalize, normalized, parse_line, retain, Entry, LineView, Quote,
};
use crate::parser::lines::{
    assemble, collect, entries_of, expand_pairs, expand_prefix, fold, lemma_collect,
    lemma_expand_pairs,
};
use crate::scan::{prefix_until, trimmed};
use crate::text::{chars_of, string_of};
use vstd::prelude::*;

verus! {

/// The result of parsing one line: a key and a value, or nothing.
#[derive(Debug, PartialEq)]
pub enum Line {
    KeyVal(String, String),
    Empty,
}

impl View for Line {
    type V = Option<(Seq<char>, Seq<char>)>;

    open spec fn view(&self) -> Option<(Seq<char>, Seq<char>)> {
        match self {
            Line::KeyVal(k, v) => Some((k@, v@)),
            Line::Empty => None,
        }
    }
}

/// The key and the value of a parsed line.
pub open spec fn pair_of(l: LineView) -> Option<(Seq<char>, Seq<char>)> {
    match l {
        LineView::KeyVal(e) => Some((e.key, e.value)),
        LineView::Empty => None,
    }
}

/// The entry that a key and a value make when nothing is known of the quoting.
pub open spec fn entry_of(p: (Seq<char>, Seq<char>)) -> Entry {
    Entry { key: p.0, value: p.1, quote: Quote::No }
}

/// The key and the value of an entry.
pub open spec fn bare(e: Entry) -> (Seq<char>, Seq<char>) {
    (e.key, e.value)
}

/// The key and the value that a line holds; two empty texts for an empty line.
pub open spec fn content(l: Line) -> (Seq<char>, Seq<char>) {
    match l {
        Line::KeyVal(k, v) => (k@, v@),
        Line::Empty => (Seq::empty(), Seq::empty()),
    }
}

impl Line {
    /// Resolves the backslash escapes of the inside of a double-quoted value.
    pub fn replace_lf(line: &str) -> (r: String)
        ensures
            r@ == normalize(line@),
    {
        string_of(&normalized(&chars_of(line)))
    }

    /// Shows one character of a value: a line feed escaped, anything else as it is.
    pub fn escape_lf(x: char) -> (r: String)
        ensures
            r@ == escape_char(x),
    {
        crate::parser::line::Line::escape_lf(x)
    }

    /// Keeps `after` where the quote that opens `orgnl` is closed; otherwise
    /// falls back to the raw text of `orgnl`, cut at the first `#` and trimmed.
    pub fn retain_quote(orgnl: String, after: String) -> (r: String)
        ensures
            r@ == retain(orgnl@, after@, Quote::No).0,
    {
        let raw = chars_of(orgnl.as_str());
        if closed(&raw) {
            after
        } else {
            string_of(&trimmed(&prefix_until(&raw, '#')))
        }
    }
}

impl From<&str> for Line {
    /// Parses one line of text.
    fn from(line: &str) -> (ret: Line)
        ensures
            ret@ == pair_of(parse_line(line@)),
    {
        match crate::parser::line::Line::from(line) {
            crate::parser::line::Line::KeyVal(kv) => Line::KeyVal(kv.k, kv.v),
            crate::parser::line::Line::Empty => Line::Empty,
        }
    }
}

/// `from` is held to its own contract, stated over views. No `Line` can be
/// written down for `from_spec`: a specification cannot build a `String`.
impl vstd::std_specs::convert::FromSpecImpl<&str> for Line {
    open spec fn obeys_from_spec() -> bool {
        false
    }

    open spec fn from_spec(v: &str) -> Line {
        arbitrary()
    }
}

/// The key-value lines of a file, in order. It holds no empty line.
#[derive(Debug, PartialEq)]
pub struct Lines {
    lines: Vec<Line>,
}

impl View for Lines {
    type V = Seq<(Seq<char>, Seq<char>)>;

    closed spec fn view(&self) -> Seq<(Seq<char>, Seq<char>)> {
        self.lines@.map_values(|l: Line| content(l))
    }
}

impl Lines {
    #[verifier::type_invariant]
    spec fn well_formed(&self) -> bool {
        forall|i: int| 0 <= i < self.lines@.len() ==> self.lines@[i] is KeyVal
    }

    /// The document with every value taken as unquoted.
    pub open spec fn entries(&self) -> Seq<Entry> {
        self@.map_values(|p: (Seq<char>, Seq<char>)| entry_of(p))
    }

    /// The number of lines.
    pub fn len(&self) -> (n: usize)
        ensures
            n == self@.len(),
    {
        self.lines.len()
    }

    /// The line at index `i`, if there is one.
    pub fn get(&self, i: usize) -> (r: Option<&Line>)
        ensures
            match r {
                Some(l) => i < self@.len() && l@ == Some(self@[i as int]),
                None => i >= self@.len(),
            },
    {
        proof {
            use_type_invariant(self);
        }
        if i < self.lines.len() {
            Some(&self.lines[i])
        } else {
            None
        }
    }

    /// Folds the lines into a mapping: the last line of a key decides its value.
    pub fn to_hash_map(&self) -> (m: Mapping)
        ensures
            m@ == fold(self.entries()),
            m.pairs() == collect(self.entries()),
    {
        let ghost doc = self.entries();
        let mut m = Mapping::new();
        let mut i: usize = 0;
        assert(doc.take(0) =~= Seq::<Entry>::empty());
        while i < self.lines.len()
            invariant
                i <= self.lines.len(),
                doc == self.entries(),
                m.pairs() == collect(doc.take(i as int)),
            decreases self.lines.len() - i,
        {
            proof {
                use_type_invariant(self);
                let upto = doc.take(i + 1);
                assert(upto.drop_last() =~= doc.take(i as int));
                assert(upto.last() == entry_of(content(self.lines@[i as int])));
            }
            match &self.lines[i] {
                Line::KeyVal(k, v) => {
                    m.insert(k.clone(), v.clone());
                },
                Line::Empty => {},
            }
            i += 1;
        }
        proof {
            assert(doc.take(i as int) =~= doc);
            lemma_collect(doc);
        }
        m
    }

    /// Folds the lines into a mapping and then, from top to bottom, replaces
    /// the references in each value by what the mapping holds for them at
    /// that moment. A name that the mapping lacks stands for nothing.
    pub fn expand(&self) -> (m: Mapping)
        ensures
            m@ == expand_prefix(self.entries(), self@.len(), Map::empty(), true),
            m.pairs() == expand_pairs(self.entries(), self@.len(), Map::empty(), true),
    {
        let ghost doc = self.entries();
        let ghost nothing = Map::<Seq<char>, Seq<char>>::empty();
        let env = Mapping::new();
        let mut m = self.to_hash_map();
        let mut i: usize = 0;
        while i < self.lines.len()
            invariant
                i <= self.lines.len(),
                doc == self.entries(),
                env@ == nothing,
                m.pairs() == expand_pairs(doc, i as nat, nothing, true),
            decreases self.lines.len() - i,
        {
            proof {
                use_type_invariant(self);
                assert(doc[i as int] == entry_of(content(self.lines@[i as int])));
            }
            match &self.lines[i] {
                Line::KeyVal(k, v) => {
                    let value = expanded(&chars_of(v.as_str()), &m, &env);
                    m.insert(k.clone(), string_of(&value));
                },
                Line::Empty => {},
            }
            i += 1;
        }
        proof {
            lemma_expand_pairs(doc, self@.len(), nothing, true);
        }
        m
    }
}

impl From<String> for Lines {
    /// Parses the text of a file.
    fn from(lines: String) -> (r: Lines)
        ensures
            r@ == assemble(lines@).map_values(|e: Entry| bare(e)),
    {
        let parsed = entries_of(&chars_of(lines.as_str()));
        let ghost doc = parsed@.map_values(|kv: crate::parser::line::KeyVal| kv@);
        let mut kept: Vec<Line> = Vec::new();
        for kv in it: parsed
            invariant
                it.seq().map_values(|kv: crate::parser::line::KeyVal| kv@) == doc,
                forall|i: int| 0 <= i < kept@.len() ==> kept@[i] is KeyVal,
                kept@.len() == it.index(),
                kept@.map_values(|l: Line| content(l)) =~= doc.take(it.index()).map_values(
                    |e: Entry| bare(e),
                ),
        {
            let ghost before = kept@;
            let ghost e = kv@;
            proof {
                assert(doc[it.index()] == e);
            }
            kept.push(Line::KeyVal(kv.k, kv.v));
            proof {
                let lines = kept@.map_values(|l: Line| content(l));
                let pairs = doc.take(it.index() + 1).map_values(|e: Entry| bare(e));
                assert(lines.len() == pairs.len());
                assert forall|i: int| 0 <= i < lines.len() implies lines[i] == pairs[i] by {
                    if i < before.len() {
                        assert(kept@[i] == before[i]);
                        assert(before.map_values(|l: Line| content(l))[i] == doc.take(
                            it.index(),
                        ).map_values(|e: Entry| bare(e))[i]);
                    } else {
                        assert(content(kept@[i]) == bare(e));
                    }
                }
                assert(lines =~= pairs);
            }
        }
        assert(doc.take(doc.len() as int) =~= doc);
        Lines { lines: kept }
    }
}

/// `from` is held to its own contract, stated over views. No `Lines` can be
/// written down for `from_spec`: a specification cannot build a `String`.
impl vstd::std_specs::convert::FromSpecImpl<String> for Lines {
    open spec fn obeys_from_spec() -> bool {
        false
    }

    open spec fn from_spec(v: String) -> Lines {
        arbitrary()
    }
}

} // verus!
