//! Parsers for the lines of a `.env` file.

use crate::replacer::{replace_escaped, replace_into, NLINE};
use crate::scan::{index_of, lemma_find_first, skip_past, take_until, trim, trim_matches, trimmed, trimmed_of};
use crate::text::{chars_of, slice_of, string_of};
use vstd::prelude::*;
use vstd::string::StringExecFns;

pub mod line;
pub mod lines;

verus! {

/// Parses a line into a key and a value, with no record of the quoting.
///
/// A value counts as quoted where it both starts and ends with the same
/// quote character.
pub struct LineParser;

/// Whether `v` starts and ends with the quote character `q`.
pub open spec fn is_wrapped(v: Seq<char>, q: char) -> bool {
    v.len() >= 2 && v[0] == q && v.last() == q
}

/// The value that the raw text `v` behind the `=` stands for: between double
/// quotes, the text with its escape sequences `\n` turned into line feeds;
/// between single quotes, the text as it is; otherwise `v` trimmed. All the
/// quote characters at either end go, not only the outermost.
pub open spec fn plain_value(v: Seq<char>) -> Seq<char> {
    if is_wrapped(v, '"') {
        replace_escaped(trim_matches(v, '"'), seq![NLINE])
    } else if is_wrapped(v, '\'') {
        trim_matches(v, '\'')
    } else {
        trim(v)
    }
}

/// The key and the value of `line`, or `None` for an empty line, a comment
/// and a line without `=`.
pub open spec fn parse_pair(line: Seq<char>) -> Option<(Seq<char>, Seq<char>)> {
    if line.len() == 0 || line[0] == '#' || !line.contains('=') {
        None
    } else {
        Some((trim(take_until(line, '=')), plain_value(skip_past(line, '='))))
    }
}

/// Decodes the raw text behind the `=`.
fn plain_value_of(v: &Vec<char>) -> (r: Vec<char>)
    ensures
        r@ == plain_value(v@),
{
    let n = v.len();
    if n >= 2 && v[0] == '"' && v[n - 1] == '"' {
        let mut out: Vec<char> = Vec::new();
        let mut to: Vec<char> = Vec::new();
        to.push(NLINE);
        assert(to@ =~= seq![NLINE]);
        replace_into(&trimmed_of(v, '"'), &mut out, &to);
        assert(out@ =~= replace_escaped(trim_matches(v@, '"'), seq![NLINE]));
        out
    } else if n >= 2 && v[0] == '\'' && v[n - 1] == '\'' {
        trimmed_of(v, '\'')
    } else {
        trimmed(v)
    }
}

impl LineParser {
    /// Appends to `builder` the text of `line` with each escape sequence `\n`
    /// that no backslash precedes replaced by `to`.
    pub fn replacer(line: &str, builder: &mut String, to: &str)
        ensures
            final(builder)@ == old(builder)@ + replace_escaped(line@, to@),
    {
        let mut out: Vec<char> = Vec::new();
        replace_into(&chars_of(line), &mut out, &chars_of(to));
        assert(out@ =~= replace_escaped(line@, to@));
        builder.append(string_of(&out).as_str());
    }

    /// The text of `line` with each `\n` that no backslash precedes turned into a line feed.
    pub fn replace_new_line(line: &str) -> (r: String)
        ensures
            r@ == replace_escaped(line@, seq![NLINE]),
    {
        let mut builder = String::new();
        proof {
            reveal_strlit("\n");
            assert("\n"@ =~= seq![NLINE]);
        }
        Self::replacer(line, &mut builder, "\n");
        assert(builder@ =~= replace_escaped(line@, seq![NLINE]));
        builder
    }

    /// Parses one line into its key and its value.
    pub fn parse_line(line: &str) -> (r: Option<(String, String)>)
        ensures
            match r {
                Some((k, v)) => parse_pair(line@) == Some((k@, v@)),
                None => parse_pair(line@) is None,
            },
    {
        let chars = chars_of(line);
        if chars.len() == 0 || chars[0] == '#' {
            return None;
        }
        let eq = index_of(&chars, '=');
        proof {
            lemma_find_first(chars@, '=');
        }
        if eq == chars.len() {
            return None;
        }
        let key = trimmed(&slice_of(&chars, 0, eq));
        let raw = slice_of(&chars, eq + 1, chars.len());
        assert(raw@ =~= skip_past(chars@, '='));
        let value = plain_value_of(&raw);
        Some((string_of(&key), string_of(&value)))
    }
}

} // verus!
