//! Parsing of `#@` plugin annotations from Dolfin comments.
//!
//! Annotations are regular comments whose text begins with `@`. Any parser
//! that does not recognise an annotation simply ignores the comment: the
//! core language is unaffected.
//!
//! # Syntax
//!
//! ```text
//! #@ sparnatural
//! concept Person:
//!   has name: string
//!
//!   #@ sparnatural:
//!   #@   widget list
//!   has employer: Organization
//! ```

use vstd::prelude::*;

use crate::comment::Comment;
use crate::text::{
    byte_len, chars_of, find_char, find_char_exec, lemma_byte_len_concat, lemma_byte_len_push,
    lemma_run_end, run_end, run_end_exec, slice_chars, str_eq, string_from_chars, trim, trim_bounds,
    trim_end, trim_end_bounds, trim_end_matches, trim_end_matches_bounds, trim_matches, trim_start,
    trim_start_bounds, trim_start_matches, trim_start_matches_bounds, char_width_exec, CharClass,
};

verus! {

/// Arguments as character sequences: `(key, value)` pairs.
pub type ArgsView = Seq<(Seq<char>, Seq<char>)>;

/// A structured annotation parsed from a `#@` comment.
#[derive(Debug, Clone, PartialEq)]
pub struct ParsedAnnotation {
    /// The annotation name (e.g. `"sparnatural"`).
    pub name: String,
    /// Key-value arguments (e.g. `[("widget", "list")]`).
    /// Empty when the annotation carries no arguments.
    pub args: Vec<(String, String)>,
}

/// The arguments of an annotation as character sequences.
pub open spec fn args_view(args: Seq<(String, String)>) -> ArgsView {
    args.map_values(|p: (String, String)| (p.0@, p.1@))
}

/// Value of the first argument at or after index `i` whose key is `key`.
pub open spec fn lookup_from(args: ArgsView, key: Seq<char>, i: int) -> Option<Seq<char>>
    decreases args.len() - i,
{
    if i < 0 || i >= args.len() {
        None
    } else if args[i].0 == key {
        Some(args[i].1)
    } else {
        lookup_from(args, key, i + 1)
    }
}

/// Value of the first argument whose key is `key`.
pub open spec fn lookup(args: ArgsView, key: Seq<char>) -> Option<Seq<char>> {
    lookup_from(args, key, 0)
}

/// Value of the first key of `keys[j..]` that has a value.
pub open spec fn lookup_alt_from(args: ArgsView, keys: Seq<Seq<char>>, j: int) -> Option<
    Seq<char>,
>
    decreases keys.len() - j,
{
    if j < 0 || j >= keys.len() {
        None
    } else {
        match lookup(args, keys[j]) {
            Some(v) => Some(v),
            None => lookup_alt_from(args, keys, j + 1),
        }
    }
}

impl ParsedAnnotation {
    /// Look up the value of an argument by key.
    pub fn arg(&self, key: &str) -> (r: Option<&str>)
        ensures
            r matches Some(v) ==> lookup(args_view(self.args@), key@) == Some(v@),
            r is None ==> lookup(args_view(self.args@), key@) is None,
    {
        let ghost av = args_view(self.args@);
        let mut i: usize = 0;
        while i < self.args.len()
            invariant
                0 <= i <= self.args@.len(),
                av == args_view(self.args@),
                lookup(av, key@) == lookup_from(av, key@, i as int),
            decreases self.args@.len() - i,
        {
            if str_eq(self.args[i].0.as_str(), key) {
                return Some(self.args[i].1.as_str());
            }
            i = i + 1;
        }
        None
    }

    /// Look up the value of an argument by key, if not found then tries the other keys of the list one by one.
    /// Stop at the first key that return a value, or return None if none are found.
    pub fn arg_with_alt(&self, keys: &[&str]) -> (r: Option<&str>)
        ensures
            r matches Some(v) ==> lookup_alt_from(
                args_view(self.args@),
                keys@.map_values(|k: &str| k@),
                0,
            ) == Some(v@),
            r is None ==> lookup_alt_from(
                args_view(self.args@),
                keys@.map_values(|k: &str| k@),
                0,
            ) is None,
    {
        let ghost kv = keys@.map_values(|k: &str| k@);
        let mut j: usize = 0;
        while j < keys.len()
            invariant
                0 <= j <= keys@.len(),
                kv == keys@.map_values(|k: &str| k@),
                lookup_alt_from(args_view(self.args@), kv, 0) == lookup_alt_from(
                    args_view(self.args@),
                    kv,
                    j as int,
                ),
            decreases keys@.len() - j,
        {
            let found = self.arg(keys[j]);
            if found.is_some() {
                return found;
            }
            j = j + 1;
        }
        None
    }

    /// Returns `true` when the annotation has no arguments.
    pub fn is_bare(&self) -> (r: bool)
        ensures
            r == (self.args@.len() == 0),
    {
        self.args.len() == 0
    }
}

// ----------------------------------------------------------------------------
// Specification of the annotation grammar
// ----------------------------------------------------------------------------

/// `t` without one trailing backslash, if it has one.
pub open spec fn strip_backslash(t: Seq<char>) -> Seq<char> {
    if t.len() > 0 && t.last() == '\\' {
        t.drop_last()
    } else {
        t
    }
}

/// Folds one raw line of an argument block into the joined lines.
///
/// A line whose indentation (whitespace after the leading `@`s, in UTF-8 bytes)
/// is strictly larger than that of the previous key line continues that line's
/// value, joined with a space.
pub open spec fn join_step(acc: Seq<(Seq<char>, int)>, raw: Seq<char>) -> Seq<(Seq<char>, int)> {
    let after_at = trim_start_matches(raw, '@');
    let trimmed = trim_start(after_at);
    if trimmed.len() == 0 {
        acc
    } else {
        let indent = byte_len(after_at) - byte_len(trimmed);
        let content = trim_end(strip_backslash(trimmed));
        if acc.len() > 0 && indent > acc.last().1 {
            acc.update(acc.len() - 1, (acc.last().0 + seq![' '] + content, acc.last().1))
        } else {
            acc.push((content, indent))
        }
    }
}

/// Folds the `\n`-separated lines of `text[pos..]` into `acc`.
pub open spec fn join_from(acc: Seq<(Seq<char>, int)>, text: Seq<char>, pos: int) -> Seq<
    (Seq<char>, int),
>
    decreases text.len() - pos,
{
    if pos < 0 || pos > text.len() {
        acc
    } else {
        match find_char(text, pos, text.len() as int, '\n') {
            Some(k) => {
                proof {
                    lemma_run_end(text, pos, text.len() as int, CharClass::Not('\n'));
                }
                join_from(join_step(acc, text.subrange(pos, k)), text, k + 1)
            },
            None => join_step(acc, text.subrange(pos, text.len() as int)),
        }
    }
}

/// One joined line as a `key=value`, `key value` or bare `flag` argument.
pub open spec fn pair_of(line: Seq<char>) -> Option<(Seq<char>, Seq<char>)> {
    let l = trim(line);
    if l.len() == 0 {
        None
    } else {
        match find_char(l, 0, l.len() as int, '=') {
            Some(e) => Some((trim(l.subrange(0, e)), trim_matches(trim(l.subrange(e + 1, l.len() as int)), '"'))),
            None => {
                let w = run_end(l, 0, l.len() as int, CharClass::NotWhitespace);
                if w < l.len() {
                    Some((trim(l.subrange(0, w)), trim_matches(trim(l.subrange(w + 1, l.len() as int)), '"')))
                } else {
                    Some((l, "true"@))
                }
            },
        }
    }
}

/// The arguments of the joined lines, in order.
pub open spec fn pairs(lines: Seq<(Seq<char>, int)>) -> ArgsView
    decreases lines.len(),
{
    if lines.len() == 0 {
        seq![]
    } else {
        let rest = pairs(lines.drop_last());
        match pair_of(lines.last().0) {
            Some(p) => rest.push(p),
            None => rest,
        }
    }
}

/// The arguments written in an argument block.
pub open spec fn args_of(text: Seq<char>) -> ArgsView {
    if text.len() == 0 {
        seq![]
    } else {
        pairs(join_from(seq![], text, 0))
    }
}

/// Name and arguments of the text that follows the leading `@`.
pub open spec fn annotation_text(text: Seq<char>) -> (Seq<char>, ArgsView) {
    match find_char(text, 0, text.len() as int, '\n') {
        Some(nl) => (
            trim(trim_end_matches(trim(text.subrange(0, nl)), ':')),
            args_of(trim(trim_end_matches(text.subrange(nl + 1, text.len() as int), '\n'))),
        ),
        None => match find_char(text, 0, text.len() as int, ':') {
            Some(c) => (
                trim(text.subrange(0, c)),
                args_of(trim(trim_end_matches(text.subrange(c + 1, text.len() as int), '\n'))),
            ),
            None => (trim(text), seq![]),
        },
    }
}

/// The annotation carried by a comment text, if it is one.
pub open spec fn annotation_of(text: Seq<char>) -> Option<(Seq<char>, ArgsView)> {
    let t = trim(text);
    if t.len() > 0 && t[0] == '@' {
        let rest = trim_start(t.drop_first());
        if rest.len() == 0 {
            None
        } else {
            Some(annotation_text(rest))
        }
    } else {
        None
    }
}

// ----------------------------------------------------------------------------
// Implementation
// ----------------------------------------------------------------------------

/// Try to parse a `#@` comment into a [`ParsedAnnotation`].
///
/// Returns `None` if the comment is not a `#@` annotation (i.e. its trimmed
/// text does not start with `@`).
///
/// The `Comment.text` field contains everything after the leading `#`, so a
/// comment written as `#@ sparnatural` has `text == "@ sparnatural"`.
pub fn parse_annotation(comment: &Comment) -> (r: Option<ParsedAnnotation>)
    ensures
        r matches Some(a) ==> annotation_of(comment.text@) == Some((a.name@, args_view(a.args@))),
        r is None ==> annotation_of(comment.text@) is None,
{
    let chars = chars_of(comment.text.as_str());
    let s = chars.as_slice();
    let (a, b) = trim_bounds(s, 0, s.len());
    if a < b && s[a] == '@' {
        let r = trim_start_bounds(s, a + 1, b);
        proof {
            assert(s@.subrange(0, s@.len() as int) =~= comment.text@);
            assert(s@.subrange(a as int, b as int).drop_first() =~= s@.subrange(a + 1, b as int));
        }
        if r == b {
            return None;
        }
        let rest = slice_chars(s, r, b);
        Some(annotation_from_chars(rest.as_slice()))
    } else {
        proof {
            assert(s@.subrange(0, s@.len() as int) =~= comment.text@);
        }
        None
    }
}

/// Parse the portion of a `#@` comment that follows the leading `@`.
///
/// Handles both the bare form (`sparnatural`) and the block form, where the
/// name is followed by `:` and/or a newline and by one argument per line.
pub fn parse_annotation_text(text: &str) -> (r: ParsedAnnotation)
    ensures
        (r.name@, args_view(r.args@)) == annotation_text(text@),
{
    let chars = chars_of(text);
    annotation_from_chars(chars.as_slice())
}

fn annotation_from_chars(s: &[char]) -> (r: ParsedAnnotation)
    ensures
        (r.name@, args_view(r.args@)) == annotation_text(s@),
{
    let n = s.len();
    proof {
        assert(s@.subrange(0, n as int) =~= s@);
    }
    match find_char_exec(s, 0, n, '\n') {
        Some(nl) => {
            let (a, b) = trim_bounds(s, 0, nl);
            let e = trim_end_matches_bounds(s, a, b, ':');
            let (a2, b2) = trim_bounds(s, a, e);
            let name = string_from_chars(slice_chars(s, a2, b2).as_slice());
            let e2 = trim_end_matches_bounds(s, nl + 1, n, '\n');
            let (c, d) = trim_bounds(s, nl + 1, e2);
            let args = args_from_chars(slice_chars(s, c, d).as_slice());
            proof {
                assert(name@ =~= annotation_text(s@).0);
            }
            ParsedAnnotation { name, args }
        },
        None => match find_char_exec(s, 0, n, ':') {
            Some(col) => {
                let (a, b) = trim_bounds(s, 0, col);
                let name = string_from_chars(slice_chars(s, a, b).as_slice());
                let e2 = trim_end_matches_bounds(s, col + 1, n, '\n');
                let (c, d) = trim_bounds(s, col + 1, e2);
                let args = args_from_chars(slice_chars(s, c, d).as_slice());
                ParsedAnnotation { name, args }
            },
            None => {
                let (a, b) = trim_bounds(s, 0, n);
                let name = string_from_chars(slice_chars(s, a, b).as_slice());
                let args: Vec<(String, String)> = Vec::new();
                proof {
                    assert(args_view(args@) =~= seq![]);
                }
                ParsedAnnotation { name, args }
            },
        },
    }
}

/// Parse a newline-separated list of `key=value` (or `key value`) pairs.
///
/// Values may optionally be surrounded by double quotes, which are stripped.
///
/// A line with strictly more indentation (spaces after `@`) than the previous
/// key-level line is treated as a continuation of that key's value and joined
/// with a space.  A trailing `\` is stripped from any line if present, but is
/// not required to trigger continuation: indentation alone is sufficient.
pub fn parse_args(text: &str) -> (r: Vec<(String, String)>)
    ensures
        args_view(r@) == args_of(text@),
{
    let chars = chars_of(text);
    args_from_chars(chars.as_slice())
}

/// View of the joined lines kept as parallel vectors.
pub open spec fn joined_view(contents: Seq<Vec<char>>, indents: Seq<u128>) -> Seq<(Seq<char>, int)> {
    Seq::new(contents.len(), |i: int| (contents[i]@, indents[i] as int))
}

fn args_from_chars(s: &[char]) -> (r: Vec<(String, String)>)
    ensures
        args_view(r@) == args_of(s@),
{
    let n = s.len();
    if n == 0 {
        let r: Vec<(String, String)> = Vec::new();
        proof {
            assert(args_view(r@) =~= seq![]);
        }
        return r;
    }
    let mut contents: Vec<Vec<char>> = Vec::new();
    let mut indents: Vec<u128> = Vec::new();
    let mut pos: usize = 0;
    proof {
        assert(joined_view(contents@, indents@) =~= seq![]);
    }
    loop
        invariant_except_break
            0 <= pos <= n,
            n == s@.len(),
            contents@.len() == indents@.len(),
            forall|i: int| 0 <= i < indents@.len() ==> indents@[i] <= 4 * n,
            join_from(seq![], s@, 0) == join_from(joined_view(contents@, indents@), s@, pos as int),
        ensures
            contents@.len() == indents@.len(),
            join_from(seq![], s@, 0) == joined_view(contents@, indents@),
        decreases n - pos,
    {
        match find_char_exec(s, pos, n, '\n') {
            Some(k) => {
                proof {
                    lemma_run_end(s@, pos as int, n as int, CharClass::Not('\n'));
                }
                join_line(s, pos, k, &mut contents, &mut indents);
                pos = k + 1;
            },
            None => {
                join_line(s, pos, n, &mut contents, &mut indents);
                break ;
            },
        }
    }
    let ghost joined = joined_view(contents@, indents@);
    let mut out: Vec<(String, String)> = Vec::new();
    let mut i: usize = 0;
    while i < contents.len()
        invariant
            0 <= i <= contents@.len(),
            contents@.len() == indents@.len(),
            joined == joined_view(contents@, indents@),
            args_view(out@) == pairs(joined.subrange(0, i as int)),
        decreases contents@.len() - i,
    {
        let p = pair_from_chars(contents[i].as_slice());
        proof {
            assert(joined.subrange(0, i + 1).drop_last() =~= joined.subrange(0, i as int));
            assert(joined.subrange(0, i + 1).last().0 == contents@[i as int]@);
        }
        match p {
            Some((k, v)) => {
                out.push((k, v));
                proof {
                    assert(args_view(out@) =~= pairs(joined.subrange(0, i + 1)));
                }
            },
            None => {},
        }
        i = i + 1;
    }
    proof {
        assert(joined.subrange(0, contents@.len() as int) =~= joined);
    }
    out
}

/// Executes `join_step` for the line `s[lo..hi]`.
fn join_line(
    s: &[char],
    lo: usize,
    hi: usize,
    contents: &mut Vec<Vec<char>>,
    indents: &mut Vec<u128>,
)
    requires
        lo <= hi <= s@.len(),
        old(contents)@.len() == old(indents)@.len(),
        forall|i: int| 0 <= i < old(indents)@.len() ==> old(indents)@[i] <= 4 * s@.len(),
    ensures
        final(contents)@.len() == final(indents)@.len(),
        forall|i: int| 0 <= i < final(indents)@.len() ==> final(indents)@[i] <= 4 * s@.len(),
        joined_view(final(contents)@, final(indents)@) == join_step(
            joined_view(old(contents)@, old(indents)@),
            s@.subrange(lo as int, hi as int),
        ),
{
    let ghost raw = s@.subrange(lo as int, hi as int);
    let at = trim_start_matches_bounds(s, lo, hi, '@');
    let t0 = trim_start_bounds(s, at, hi);
    let ghost after_at = s@.subrange(at as int, hi as int);
    let ghost trimmed = s@.subrange(t0 as int, hi as int);
    assert(after_at == trim_start_matches(raw, '@'));
    assert(trimmed == trim_start(after_at));
    if t0 == hi {
        return ;
    }
    let indent = ws_bytes(s, at, t0);
    proof {
        lemma_byte_len_concat(s@.subrange(at as int, t0 as int), trimmed);
        assert(s@.subrange(at as int, t0 as int) + trimmed =~= after_at);
    }
    let kk = if s[hi - 1] == '\\' {
        hi - 1
    } else {
        hi
    };
    let e = trim_end_bounds(s, t0, kk);
    proof {
        assert(s@.subrange(t0 as int, kk as int) =~= strip_backslash(trimmed));
    }
    let content = slice_chars(s, t0, e);
    let ghost acc = joined_view(contents@, indents@);
    let ghost old_contents = contents@;
    if contents.len() > 0 && indent > indents[indents.len() - 1] {
        let mut last = contents.pop().unwrap();
        let ghost old_last = last@;
        assert(old_last == acc.last().0);
        last.push(' ');
        assert(last@ =~= old_last + seq![' ']);
        let mut k = t0;
        let ghost base = last@;
        while k < e
            invariant
                t0 <= k <= e <= s@.len(),
                last@ == base + s@.subrange(t0 as int, k as int),
            decreases e - k,
        {
            last.push(s[k]);
            k = k + 1;
            assert(last@ =~= base + s@.subrange(t0 as int, k as int));
        }
        assert(last@ =~= acc.last().0 + seq![' '] + content@);
        contents.push(last);
        proof {
            assert(contents@ =~= old_contents.drop_last().push(last));
            assert(joined_view(contents@, indents@) =~= acc.update(
                acc.len() - 1,
                (acc.last().0 + seq![' '] + content@, acc.last().1),
            ));
        }
    } else {
        contents.push(content);
        indents.push(indent);
        proof {
            assert(joined_view(contents@, indents@) =~= acc.push((content@, indent as int)));
        }
    }
}

/// UTF-8 byte length of the whitespace run `s[a..b]`.
fn ws_bytes(s: &[char], a: usize, b: usize) -> (r: u128)
    requires
        a <= b <= s@.len(),
    ensures
        r == byte_len(s@.subrange(a as int, b as int)),
        r <= 4 * (b - a),
{
    let mut n: u128 = 0;
    let mut k = a;
    while k < b
        invariant
            a <= k <= b <= s@.len(),
            n == byte_len(s@.subrange(a as int, k as int)),
            n <= 4 * (k - a),
        decreases b - k,
    {
        let w = char_width_exec(s[k]);
        proof {
            assert(s@.subrange(a as int, k + 1) =~= s@.subrange(a as int, k as int).push(s@[k as int]));
            lemma_byte_len_push(s@.subrange(a as int, k as int), s@[k as int]);
        }
        n = n + w as u128;
        k = k + 1;
    }
    n
}

/// One joined line as an argument pair.
fn pair_from_chars(s: &[char]) -> (r: Option<(String, String)>)
    ensures
        r matches Some(p) ==> pair_of(s@) == Some((p.0@, p.1@)),
        r is None ==> pair_of(s@) is None,
{
    let n = s.len();
    let (a, b) = trim_bounds(s, 0, n);
    proof {
        assert(s@.subrange(0, n as int) =~= s@);
    }
    if a == b {
        return None;
    }
    let l = slice_chars(s, a, b);
    let ls = l.as_slice();
    let m = ls.len();
    match find_char_exec(ls, 0, m, '=') {
        Some(eq) => {
            let (ka, kb) = trim_bounds(ls, 0, eq);
            let (va, vb) = trim_bounds(ls, eq + 1, m);
            let va2 = trim_start_matches_bounds(ls, va, vb, '"');
            let vb2 = trim_end_matches_bounds(ls, va2, vb, '"');
            let key = string_from_chars(slice_chars(ls, ka, kb).as_slice());
            let val = string_from_chars(slice_chars(ls, va2, vb2).as_slice());
            proof {
                assert(ls@.subrange(va2 as int, vb as int) =~= trim_start_matches(
                    ls@.subrange(va as int, vb as int),
                    '"',
                ));
            }
            Some((key, val))
        },
        None => {
            let w = run_end_exec(ls, 0, m, CharClass::NotWhitespace);
            if w < m {
                let (ka, kb) = trim_bounds(ls, 0, w);
                let (va, vb) = trim_bounds(ls, w + 1, m);
                let va2 = trim_start_matches_bounds(ls, va, vb, '"');
                let vb2 = trim_end_matches_bounds(ls, va2, vb, '"');
                let key = string_from_chars(slice_chars(ls, ka, kb).as_slice());
                let val = string_from_chars(slice_chars(ls, va2, vb2).as_slice());
                Some((key, val))
            } else {
                let key = string_from_chars(ls);
                let val = String::from_str("true");
                Some((key, val))
            }
        },
    }
}

} // verus!
