//! One line of a `.env` file: empty, or a key, a value and the quoting of the value.

use crate::scan::{
    index_of, lemma_find_first, lemma_find_is, prefix_until, skip_past, take_until, trim, trimmed,
};
use crate::text::{chars_of, is_whitespace, slice_of, string_of};
use vstd::prelude::*;

verus! {

/// Type of the quote
#[derive(Debug, PartialEq, Eq, Clone, Copy)]
pub enum Quote {
    /// When the value is single quoted i.e. `'`
    Single,
    /// When the value is double quoted i.e. `"`
    Double,
    /// When the value is not quoted
    No,
}

/// To collect the info about the current line
#[derive(Debug, PartialEq)]
pub struct KeyVal {
    /// `key` of the variable
    pub k: String,
    /// `value` of the variable
    pub v: String,
    /// Whether the value is quoted or not
    pub q: Quote,
}

/// The result of parsing one line
#[derive(Debug, PartialEq)]
pub enum Line {
    /// When the current line is a `key=val` pair
    KeyVal(KeyVal),
    /// When the current line is empty
    Empty,
}

/// What a `KeyVal` stands for: a key, a decoded value, and how the value was quoted.
pub struct Entry {
    pub key: Seq<char>,
    pub value: Seq<char>,
    pub quote: Quote,
}

/// What a `Line` stands for.
pub enum LineView {
    KeyVal(Entry),
    Empty,
}

impl View for KeyVal {
    type V = Entry;

    open spec fn view(&self) -> Entry {
        Entry { key: self.k@, value: self.v@, quote: self.q }
    }
}

impl View for Line {
    type V = LineView;

    open spec fn view(&self) -> LineView {
        match self {
            Line::KeyVal(kv) => LineView::KeyVal(kv@),
            Line::Empty => LineView::Empty,
        }
    }
}

/// The text of a double-quoted value with its escapes resolved: `\n` stands for
/// a line feed and `\\` for one backslash; any other backslash stands for itself.
pub open spec fn normalize(s: Seq<char>) -> Seq<char>
    decreases s.len(),
{
    if s.len() == 0 {
        Seq::empty()
    } else if s[0] != '\\' {
        seq![s[0]] + normalize(s.skip(1))
    } else if s.len() == 1 {
        seq!['\\']
    } else if s[1] == 'n' {
        seq!['\n'] + normalize(s.skip(2))
    } else if s[1] == '\\' {
        seq!['\\'] + normalize(s.skip(2))
    } else {
        seq!['\\', s[1]] + normalize(s.skip(2))
    }
}

/// How one character of a value is shown: a line feed as the two characters
/// `\` and `n`, any other character as itself.
pub open spec fn escape_char(c: char) -> Seq<char> {
    if c == '\n' {
        seq!['\\', 'n']
    } else {
        seq![c]
    }
}

/// `s` with every line feed replaced by the two characters `\` and `n`.
pub open spec fn escape_newlines(s: Seq<char>) -> Seq<char>
    decreases s.len(),
{
    if s.len() == 0 {
        Seq::empty()
    } else {
        escape_newlines(s.drop_last()) + escape_char(s.last())
    }
}

/// Whether `v` opens with a quote that a later character closes.
pub open spec fn is_closed(v: Seq<char>) -> bool {
    v.len() > 0 && v.drop_first().contains(v[0])
}

/// The value and quoting that `decoded` ends up with, where `raw` is the text
/// it was decoded from, opening quote included. A quote that is never closed
/// is kept as a literal character of an unquoted value.
pub open spec fn retain(raw: Seq<char>, decoded: Seq<char>, q: Quote) -> (Seq<char>, Quote) {
    if is_closed(raw) {
        (decoded, q)
    } else {
        (trim(take_until(raw, '#')), Quote::No)
    }
}

/// The decoded value and the quoting of the raw text `v` behind the `=`.
pub open spec fn parse_value(v: Seq<char>) -> (Seq<char>, Quote) {
    if v.len() > 0 && v[0] == '"' {
        retain(v, normalize(take_until(v.drop_first(), '"')), Quote::Double)
    } else if v.len() > 0 && v[0] == '\'' {
        retain(v, escape_newlines(take_until(v.drop_first(), '\'')), Quote::Single)
    } else {
        (trim(escape_newlines(take_until(v, '#'))), Quote::No)
    }
}

/// What one line of text parses to.
pub open spec fn parse_line(line: Seq<char>) -> LineView {
    if line.len() == 0 || line[0] == '#' || !line.contains('=') {
        LineView::Empty
    } else {
        let (value, quote) = parse_value(skip_past(line, '='));
        LineView::KeyVal(Entry { key: trim(take_until(line, '=')), value, quote })
    }
}

/// A text without a line feed is its own escaped form.
pub proof fn lemma_escape_plain(s: Seq<char>)
    requires
        !s.contains('\n'),
    ensures
        escape_newlines(s) == s,
    decreases s.len(),
{
    if s.len() > 0 {
        let init = s.drop_last();
        assert(s.last() == s[s.len() - 1]);
        assert forall|i: int| 0 <= i < init.len() implies init[i] != '\n' by {
            assert(init[i] == s[i]);
        }
        lemma_escape_plain(init);
        assert(init + seq![s.last()] =~= s);
    }
}

/// A text without a backslash is its own normal form.
pub proof fn lemma_normalize_plain(s: Seq<char>)
    requires
        !s.contains('\\'),
    ensures
        normalize(s) == s,
    decreases s.len(),
{
    if s.len() > 0 {
        let tail = s.skip(1);
        assert(s[0] != '\\');
        assert forall|i: int| 0 <= i < tail.len() implies tail[i] != '\\' by {
            assert(tail[i] == s[i + 1]);
        }
        lemma_normalize_plain(tail);
        assert(seq![s[0]] + tail =~= s);
    }
}

/// Where `k` holds no `=`, the line `k=v` splits into `k` and `v`.
pub proof fn lemma_split(k: Seq<char>, v: Seq<char>)
    requires
        !k.contains('='),
    ensures
        (k + seq!['='] + v).contains('='),
        take_until(k + seq!['='] + v, '=') == k,
        skip_past(k + seq!['='] + v, '=') == v,
{
    let line = k + seq!['='] + v;
    assert(line[k.len() as int] == '=');
    assert forall|j: int| 0 <= j < k.len() implies line[j] != '=' by {
        assert(line[j] == k[j]);
    }
    lemma_find_is(line, '=', k.len() as int);
    assert(line.take(k.len() as int) =~= k);
    assert(line.skip(k.len() as int + 1) =~= v);
}

/// The line `k=v` with an unquoted value: where `k` holds no `=`, the line
/// does not start with `#`, and `v` does not start with a quote, the key is
/// `k` trimmed and the value is `v` cut at its first `#`, its line feeds
/// escaped, and trimmed. A `v` without a line feed is only cut and trimmed.
pub proof fn lemma_unquoted_line(k: Seq<char>, v: Seq<char>)
    requires
        !k.contains('='),
        k.len() > 0 ==> k[0] != '#',
        v.len() > 0 ==> v[0] != '"' && v[0] != '\'',
    ensures
        parse_line(k + seq!['='] + v) == LineView::KeyVal(
            Entry {
                key: trim(k),
                value: trim(escape_newlines(take_until(v, '#'))),
                quote: Quote::No,
            },
        ),
        !v.contains('\n') ==> parse_line(k + seq!['='] + v) == LineView::KeyVal(
            Entry { key: trim(k), value: trim(take_until(v, '#')), quote: Quote::No },
        ),
{
    let line = k + seq!['='] + v;
    lemma_split(k, v);
    if k.len() > 0 {
        assert(line[0] == k[0]);
    }
    if !v.contains('\n') {
        let cut = take_until(v, '#');
        lemma_find_first(v, '#');
        assert forall|i: int| 0 <= i < cut.len() implies cut[i] != '\n' by {
            assert(cut[i] == v[i]);
        }
        lemma_escape_plain(cut);
    }
}

/// The line `k='body'rest`: where `body` holds no single quote, the value is
/// `body` with its line feeds escaped, neither trimmed nor cut at a `#`, and
/// whatever follows the closing quote is dropped.
pub proof fn lemma_single_quoted_line(k: Seq<char>, body: Seq<char>, rest: Seq<char>)
    requires
        !k.contains('='),
        k.len() > 0 ==> k[0] != '#',
        !body.contains('\''),
    ensures
        parse_line(k + seq!['=', '\''] + body + seq!['\''] + rest) == LineView::KeyVal(
            Entry { key: trim(k), value: escape_newlines(body), quote: Quote::Single },
        ),
        !body.contains('\n') ==> escape_newlines(body) == body,
{
    if !body.contains('\n') {
        lemma_escape_plain(body);
    }
    let v = seq!['\''] + body + seq!['\''] + rest;
    let line = k + seq!['=', '\''] + body + seq!['\''] + rest;
    assert(line =~= k + seq!['='] + v);
    lemma_split(k, v);
    if k.len() > 0 {
        assert(line[0] == k[0]);
    }
    lemma_quoted(body, rest, '\'');
}

/// The line `k="body"rest`: where `body` holds no double quote, the value is
/// `body` with its escapes resolved, neither trimmed nor cut at a `#`, and
/// whatever follows the closing quote is dropped.
pub proof fn lemma_double_quoted_line(k: Seq<char>, body: Seq<char>, rest: Seq<char>)
    requires
        !k.contains('='),
        k.len() > 0 ==> k[0] != '#',
        !body.contains('"'),
    ensures
        parse_line(k + seq!['=', '"'] + body + seq!['"'] + rest) == LineView::KeyVal(
            Entry { key: trim(k), value: normalize(body), quote: Quote::Double },
        ),
        !body.contains('\\') ==> normalize(body) == body,
{
    if !body.contains('\\') {
        lemma_normalize_plain(body);
    }
    let v = seq!['"'] + body + seq!['"'] + rest;
    let line = k + seq!['=', '"'] + body + seq!['"'] + rest;
    assert(line =~= k + seq!['='] + v);
    lemma_split(k, v);
    if k.len() > 0 {
        assert(line[0] == k[0]);
    }
    lemma_quoted(body, rest, '"');
}

/// In `q body q rest`, where `body` holds no `q`, the quote is closed and `body` is what it holds.
proof fn lemma_quoted(body: Seq<char>, rest: Seq<char>, q: char)
    requires
        !body.contains(q),
    ensures
        is_closed(seq![q] + body + seq![q] + rest),
        take_until((seq![q] + body + seq![q] + rest).drop_first(), q) == body,
{
    let v = seq![q] + body + seq![q] + rest;
    let inner = v.drop_first();
    assert(inner =~= body + seq![q] + rest);
    assert(inner[body.len() as int] == q);
    assert forall|j: int| 0 <= j < body.len() implies inner[j] != q by {
        assert(inner[j] == body[j]);
    }
    lemma_find_is(inner, q, body.len() as int);
    assert(inner.take(body.len() as int) =~= body);
}

/// The line `k=v` whose value opens a quote that nothing closes: the quote
/// is kept as a character of the value, which is `v` cut at its first `#`
/// and trimmed, and counts as unquoted.
pub proof fn lemma_unclosed_line(k: Seq<char>, v: Seq<char>)
    requires
        !k.contains('='),
        k.len() > 0 ==> k[0] != '#',
        v.len() > 0,
        v[0] == '"' || v[0] == '\'',
        !v.drop_first().contains(v[0]),
    ensures
        parse_line(k + seq!['='] + v) == LineView::KeyVal(
            Entry { key: trim(k), value: trim(take_until(v, '#')), quote: Quote::No },
        ),
{
    let line = k + seq!['='] + v;
    lemma_split(k, v);
    if k.len() > 0 {
        assert(line[0] == k[0]);
    }
}

/// A line parses to nothing exactly when it is empty, starts with `#` or holds no `=`.
pub proof fn lemma_empty_line(line: Seq<char>)
    ensures
        parse_line(line) == LineView::Empty <==> line.len() == 0 || line[0] == '#'
            || !line.contains('='),
{
}

/// A line that holds only whitespace parses to nothing.
pub proof fn lemma_blank_line(line: Seq<char>)
    requires
        forall|i: int| 0 <= i < line.len() ==> is_whitespace(#[trigger] line[i]),
    ensures
        parse_line(line) == LineView::Empty,
{
    if line.contains('=') {
        let i = choose|i: int| 0 <= i < line.len() && line[i] == '=';
        assert(!is_whitespace(line[i]));
    }
}

/// Resolves the escapes of `s`.
pub fn normalized(s: &Vec<char>) -> (r: Vec<char>)
    ensures
        r@ == normalize(s@),
{
    let mut r: Vec<char> = Vec::new();
    let mut i: usize = 0;
    assert(s@.skip(0) =~= s@);
    assert(r@ + normalize(s@) =~= normalize(s@));
    while i < s.len()
        invariant
            i <= s.len(),
            r@ + normalize(s@.skip(i as int)) == normalize(s@),
        decreases s.len() - i,
    {
        let ghost t = s@.skip(i as int);
        let ghost before = r@;
        let c = s[i];
        assert(t[0] == c);
        if c != '\\' || i + 1 == s.len() {
            r.push(c);
            i += 1;
            proof {
                assert(t.skip(1) =~= s@.skip(i as int));
                if c != '\\' {
                    assert(r@ + normalize(t.skip(1)) =~= before + (seq![c] + normalize(t.skip(1))));
                } else {
                    assert(normalize(t.skip(1)) =~= Seq::<char>::empty());
                    assert(r@ + normalize(t.skip(1)) =~= before + seq!['\\']);
                }
            }
        } else {
            let n = s[i + 1];
            assert(t[1] == n);
            if n == 'n' {
                r.push('\n');
            } else if n == '\\' {
                r.push('\\');
            } else {
                r.push(c);
                r.push(n);
            }
            i += 2;
            proof {
                let rest = normalize(t.skip(2));
                assert(t.skip(2) =~= s@.skip(i as int));
                if n == 'n' {
                    assert(r@ + rest =~= before + (seq!['\n'] + rest));
                } else if n == '\\' {
                    assert(r@ + rest =~= before + (seq!['\\'] + rest));
                } else {
                    assert(r@ + rest =~= before + (seq!['\\', n] + rest));
                }
            }
        }
    }
    assert(s@.skip(i as int) =~= Seq::<char>::empty());
    assert(r@ + Seq::<char>::empty() =~= r@);
    r
}

/// Replaces every line feed of `s` by the two characters `\` and `n`.
pub fn escaped(s: &Vec<char>) -> (r: Vec<char>)
    ensures
        r@ == escape_newlines(s@),
{
    let mut r: Vec<char> = Vec::new();
    let mut i: usize = 0;
    while i < s.len()
        invariant
            i <= s.len(),
            r@ == escape_newlines(s@.take(i as int)),
        decreases s.len() - i,
    {
        let c = s[i];
        proof {
            let t = s@.take(i + 1);
            assert(t.drop_last() =~= s@.take(i as int));
            assert(t.last() == c);
        }
        if c == '\n' {
            r.push('\\');
            r.push('n');
        } else {
            r.push(c);
        }
        i += 1;
        assert(r@ =~= escape_newlines(s@.take(i as int)));
    }
    assert(s@.take(i as int) =~= s@);
    r
}

/// Tells whether the quote that opens `v` is closed later on.
pub fn closed(v: &Vec<char>) -> (b: bool)
    ensures
        b == is_closed(v@),
{
    if v.len() == 0 {
        return false;
    }
    let body = slice_of(v, 1, v.len());
    let close = index_of(&body, v[0]);
    proof {
        assert(body@ =~= v@.drop_first());
        lemma_find_first(body@, v@[0]);
    }
    close < body.len()
}

/// Decides between a decoded value and its raw text: see `retain`.
pub fn retained(raw: &Vec<char>, decoded: Vec<char>, q: Quote) -> (r: (Vec<char>, Quote))
    ensures
        (r.0@, r.1) == retain(raw@, decoded@, q),
{
    if closed(raw) {
        (decoded, q)
    } else {
        (trimmed(&prefix_until(raw, '#')), Quote::No)
    }
}

/// Decodes the raw text behind the `=`.
pub fn value_of(v: &Vec<char>) -> (r: (Vec<char>, Quote))
    ensures
        (r.0@, r.1) == parse_value(v@),
{
    if v.len() > 0 && (v[0] == '"' || v[0] == '\'') {
        let body = slice_of(v, 1, v.len());
        assert(body@ =~= v@.drop_first());
        let inner = prefix_until(&body, v[0]);
        if v[0] == '"' {
            retained(v, normalized(&inner), Quote::Double)
        } else {
            retained(v, escaped(&inner), Quote::Single)
        }
    } else {
        (trimmed(&escaped(&prefix_until(v, '#'))), Quote::No)
    }
}

/// Parses the characters of one line.
pub fn line_of(line: &Vec<char>) -> (r: Line)
    ensures
        r@ == parse_line(line@),
{
    if line.len() == 0 || line[0] == '#' {
        return Line::Empty;
    }
    let eq = index_of(line, '=');
    proof {
        lemma_find_first(line@, '=');
    }
    if eq == line.len() {
        return Line::Empty;
    }
    let key = trimmed(&slice_of(line, 0, eq));
    let raw = slice_of(line, eq + 1, line.len());
    assert(raw@ =~= skip_past(line@, '='));
    let (value, q) = value_of(&raw);
    Line::KeyVal(KeyVal { k: string_of(&key), v: string_of(&value), q })
}

impl Line {
    /// Resolves the backslash escapes of the inside of a double-quoted value.
    pub fn replace_lf(line: &str) -> (r: String)
        ensures
            r@ == normalize(line@),
    {
        string_of(&normalized(&chars_of(line)))
    }

    /// Shows one character of a value: a line feed escaped, anything else as it is.
    pub fn escape_lf(x: char) -> (r: String)
        ensures
            r@ == escape_char(x),
    {
        let mut r = String::new();
        if x == '\n' {
            r.push('\\');
            r.push('n');
        } else {
            r.push(x);
        }
        assert(r@ =~= escape_char(x));
        r
    }

    /// Keeps `after` with the quoting `q` where the quote that opens `orgnl`
    /// is closed; otherwise falls back to the raw text of `orgnl`, cut at the
    /// first `#`, trimmed and unquoted.
    pub fn retain_quote(orgnl: String, after: String, q: Quote) -> (r: (String, Quote))
        ensures
            (r.0@, r.1) == retain(orgnl@, after@, q),
    {
        let raw = chars_of(orgnl.as_str());
        if closed(&raw) {
            (after, q)
        } else {
            (string_of(&trimmed(&prefix_until(&raw, '#'))), Quote::No)
        }
    }
}

impl From<&str> for Line {
    /// Parses one line of text.
    fn from(line: &str) -> (ret: Line)
        ensures
            ret@ == parse_line(line@),
    {
        line_of(&chars_of(line))
    }
}

/// `from` is held to its own contract, stated over views. No `Line` can be
/// written down for `from_spec`: a specification cannot build a `String`.
impl vstd::std_specs::convert::FromSpecImpl<&str> for Line {
    open spec fn obeys_from_spec() -> bool {
        false
    }

    open spec fn from_spec(v: &str) -> Line {
        arbitrary()
    }
}

} // verus!
