//! Loads `KEY=value` pairs from the text of a `.env` file, with optional
//! substitution of `$NAME` and `${NAME}` references.
//!
//! The text of a file is split into lines, each line is parsed into a key, a
//! value and the quoting of the value ([`parser::line`]), and the lines that
//! hold a pair make up the document ([`parser::lines`]). The document folds
//! into a [`mapping::Mapping`], in which the last value of a key stands; on
//! request the double-quoted values are expanded first ([`expand`]).
//!
//! Every function states what it returns over sequences of characters, and
//! is proved to return it. Two things are taken on trust, both in [`text`]:
//! that `String::push` appends a character, and that `char::is_alphanumeric`
//! gives a character one answer. Reading the file and the environment of the
//! process is left to the caller.

use crate::mapping::Mapping;
use crate::parser::lines::{assemble, collect, expand_pairs, expansion, fold};
use vstd::prelude::*;

pub mod cli;
pub mod expand;
pub mod lines;
pub mod mapping;
pub mod parser;
pub mod replacer;
pub mod scan;
pub mod substitution;
pub mod text;

pub use parser::line::{KeyVal, Line, Quote};
pub use parser::lines::Lines;

verus! {

/// What to load and how: the path of the file, and whether its values are expanded.
#[derive(Debug)]
pub struct Zenv {
    path: String,
    expand: bool,
}

/// The mapping that the text of a file resolves to: its folded document,
/// expanded against itself and `env` where `expand` is set.
pub open spec fn resolve_text(text: Seq<char>, env: Map<Seq<char>, Seq<char>>, expand: bool) -> Map<
    Seq<char>,
    Seq<char>,
> {
    if expand {
        expansion(assemble(text), env)
    } else {
        fold(assemble(text))
    }
}

/// The pairs of the mapping that the text of a file resolves to: each key
/// stands where the text first has it.
pub open spec fn resolve_pairs(text: Seq<char>, env: Map<Seq<char>, Seq<char>>, expand: bool) -> Seq<
    (Seq<char>, Seq<char>),
> {
    if expand {
        expand_pairs(assemble(text), assemble(text).len(), env, false)
    } else {
        collect(assemble(text))
    }
}

impl Zenv {
    /// The path of the file to load.
    pub closed spec fn spec_path(&self) -> Seq<char> {
        self.path@
    }

    /// Whether the values are expanded.
    pub closed spec fn spec_expand(&self) -> bool {
        self.expand
    }

    /// Create a new instance of Zenv with the provided file path
    pub fn new(path: &str, expand: bool) -> (z: Self)
        ensures
            z.spec_path() == path@,
            z.spec_expand() == expand,
    {
        Self { path: path.to_owned(), expand }
    }

    /// The path of the file to load.
    pub fn path(&self) -> (p: &str)
        ensures
            p@ == self.spec_path(),
    {
        self.path.as_str()
    }

    /// Whether the values are expanded.
    pub fn expand(&self) -> (b: bool)
        ensures
            b == self.spec_expand(),
    {
        self.expand
    }

    /// Parses the text of the file into a mapping. Where expansion is on, a
    /// name that the file does not define is looked up in `env`, which stands
    /// for the environment of the process.
    pub fn parse(&self, text: &str, env: &Mapping) -> (m: Mapping)
        ensures
            m@ == resolve_text(text@, env@, self.spec_expand()),
            m.pairs() == resolve_pairs(text@, env@, self.spec_expand()),
    {
        let lines = Lines::from(text);
        if self.expand {
            lines.expand(env)
        } else {
            lines.to_hash_map()
        }
    }
}

} // verus!
