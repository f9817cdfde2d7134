//! Turns the escape sequence `\n` into a line feed, unless a backslash stands before it.

use crate::text::{chars_of, extend, slice_of, string_of};
use vstd::prelude::*;
use vstd::string::StringExecFns;

verus! {

/// The line feed that an escape sequence stands for.
pub const NLINE: char = '\n';

/// Whether the escape sequence `\n` stands at index `j` of `s`.
pub open spec fn escape_at(s: Seq<char>, j: int) -> bool {
    0 <= j && j + 1 < s.len() && s[j] == '\\' && s[j + 1] == 'n'
}

/// The index of the first `\` of `s` that an `n` follows, or `s.len()` if there is none.
pub open spec fn find_escape(s: Seq<char>) -> int
    decreases s.len(),
{
    if s.len() < 2 {
        s.len() as int
    } else if s[0] == '\\' && s[1] == 'n' {
        0
    } else {
        1 + find_escape(s.drop_first())
    }
}

/// `s` with each escape sequence `\n` replaced by `to`, from left to right.
/// A sequence that directly follows a backslash is kept as it is, together
/// with what stands before it. The search then goes on behind the sequence:
/// the backslash before a sequence is looked for only in what was not yet
/// passed over.
pub open spec fn replace_escaped(s: Seq<char>, to: Seq<char>) -> Seq<char>
    decreases s.len(),
    via replace_escaped_decreases
{
    let p = find_escape(s);
    if p >= s.len() {
        s
    } else if p > 0 && s[p - 1] == '\\' {
        s.take(p + 2) + replace_escaped(s.skip(p + 2), to)
    } else {
        s.take(p) + to + replace_escaped(s.skip(p + 2), to)
    }
}

#[via_fn]
proof fn replace_escaped_decreases(s: Seq<char>, to: Seq<char>) {
    lemma_find_escape(s);
}

/// `find_escape` stops on the first escape sequence, or at the end.
pub proof fn lemma_find_escape(s: Seq<char>)
    ensures
        0 <= find_escape(s) <= s.len(),
        find_escape(s) < s.len() ==> escape_at(s, find_escape(s)),
        forall|j: int| 0 <= j < find_escape(s) ==> !escape_at(s, j),
    decreases s.len(),
{
    if s.len() < 2 {
    } else if s[0] == '\\' && s[1] == 'n' {
    } else {
        let t = s.drop_first();
        lemma_find_escape(t);
        let p = find_escape(t);
        if p < t.len() {
            assert(s[p + 1] == t[p] && s[p + 2] == t[p + 1]);
        }
        assert forall|j: int| 0 <= j < find_escape(s) implies !escape_at(s, j) by {
            if j > 0 {
                assert(!escape_at(t, j - 1));
                if j + 1 < s.len() {
                    assert(s[j] == t[j - 1] && s[j + 1] == t[j]);
                }
            }
        }
    }
}

/// An index that no escape sequence precedes, and that is the end or the
/// start of one, is `find_escape`.
pub proof fn lemma_find_escape_is(s: Seq<char>, i: int)
    requires
        0 <= i <= s.len(),
        forall|j: int| 0 <= j < i ==> !escape_at(s, j),
        i < s.len() ==> escape_at(s, i),
    ensures
        find_escape(s) == i,
    decreases s.len(),
{
    if s.len() < 2 {
    } else if i > 0 {
        let t = s.drop_first();
        assert(!escape_at(s, 0));
        assert forall|j: int| 0 <= j < i - 1 implies !escape_at(t, j) by {
            assert(!escape_at(s, j + 1));
            if j + 1 < t.len() {
                assert(t[j] == s[j + 1] && t[j + 1] == s[j + 2]);
            }
        }
        if i < s.len() {
            assert(t[i - 1] == s[i] && t[i] == s[i + 1]);
        }
        lemma_find_escape_is(t, i - 1);
    }
}

/// The index of the first escape sequence of `s` at or after `from`, or the length of `s`.
fn escape_from(s: &Vec<char>, from: usize) -> (i: usize)
    requires
        from <= s.len(),
    ensures
        from <= i <= s.len(),
        i - from == find_escape(s@.skip(from as int)),
{
    let mut i: usize = from;
    while i < s.len() && !(s[i] == '\\' && i + 1 < s.len() && s[i + 1] == 'n')
        invariant
            from <= i <= s.len(),
            forall|j: int| from <= j < i ==> !escape_at(s@, j),
        decreases s.len() - i,
    {
        i += 1;
    }
    proof {
        let t = s@.skip(from as int);
        assert forall|j: int| 0 <= j < i - from implies !escape_at(t, j) by {
            assert(!escape_at(s@, j + from));
            if j + 1 < t.len() {
                assert(t[j] == s@[j + from] && t[j + 1] == s@[j + from + 1]);
            }
        }
        if i < s.len() {
            assert(t[i - from] == s@[i as int] && t[i - from + 1] == s@[i + 1]);
        }
        lemma_find_escape_is(t, i - from);
    }
    i
}

/// Appends to `out` the text of `line` with its escape sequences replaced by `to`.
pub fn replace_into(line: &Vec<char>, out: &mut Vec<char>, to: &Vec<char>)
    ensures
        final(out)@ == old(out)@ + replace_escaped(line@, to@),
{
    let mut start: usize = 0;
    let ghost goal = old(out)@ + replace_escaped(line@, to@);
    assert(line@.skip(0) =~= line@);
    loop
        invariant_except_break
            start <= line.len(),
            out@ + replace_escaped(line@.skip(start as int), to@) == goal,
        ensures
            out@ == goal,
        decreases line.len() - start,
    {
        let ghost rest = line@.skip(start as int);
        let ghost before = out@;
        let pos = escape_from(line, start);
        proof {
            lemma_find_escape(rest);
        }
        if pos >= line.len() {
            extend(out, &slice_of(line, start, line.len()));
            assert(line@.subrange(start as int, line.len() as int) =~= rest);
            break;
        }
        let ghost p = pos - start;
        let ghost tail = replace_escaped(rest.skip(p + 2), to@);
        assert(rest.skip(p + 2) =~= line@.skip(pos + 2));
        if pos > start && line[pos - 1] == '\\' {
            extend(out, &slice_of(line, start, pos + 2));
            proof {
                assert(rest[p - 1] == line@[pos - 1]);
                assert(line@.subrange(start as int, pos + 2) =~= rest.take(p + 2));
                assert(out@ + tail =~= before + (rest.take(p + 2) + tail));
            }
        } else {
            extend(out, &slice_of(line, start, pos));
            extend(out, to);
            proof {
                if p > 0 {
                    assert(rest[p - 1] == line@[pos - 1]);
                }
                assert(line@.subrange(start as int, pos as int) =~= rest.take(p));
                assert(out@ + tail =~= before + (rest.take(p) + to@ + tail));
            }
        }
        start = pos + 2;
    }
}

/// Appends to `builder` the text of `line` with its escape sequences replaced by a line feed.
pub fn replacer(line: &str, builder: &mut String)
    ensures
        final(builder)@ == old(builder)@ + replace_escaped(line@, seq![NLINE]),
{
    let mut out: Vec<char> = Vec::new();
    let mut to: Vec<char> = Vec::new();
    to.push(NLINE);
    assert(to@ =~= seq![NLINE]);
    replace_into(&chars_of(line), &mut out, &to);
    assert(out@ =~= replace_escaped(line@, seq![NLINE]));
    builder.append(string_of(&out).as_str());
}

/// The text of `line` with each `\n` that no backslash precedes turned into a line feed.
pub fn replace_new_line(line: &str) -> (r: String)
    ensures
        r@ == replace_escaped(line@, seq![NLINE]),
{
    let mut builder = String::new();
    replacer(line, &mut builder);
    assert(builder@ =~= replace_escaped(line@, seq![NLINE]));
    builder
}

} // verus!
