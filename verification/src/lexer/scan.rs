//! The token rules of Dolfin: which raw token starts at a given position.
//!
//! The rules are those of a maximal-munch lexer: at each position the longest
//! match of any rule wins, and keywords win over identifiers of the same
//! length. Whitespace (`[ \t\f]+`) is skipped; a position where no rule
//! matches is an error covering what the rules could still have consumed.

use vstd::prelude::*;

use crate::ast::TemporalKind;
use crate::lexer::token::{raw_to_token, RawKind, RawToken, Token};
use crate::text::{
    chars_eq, chars_of, find_char, find_char_exec, in_class, is_ascii_digit, is_ascii_letter,
    is_ident_char, lemma_run_end, run_end, run_end_exec, slice_chars, string_from_chars, trim,
    trim_bounds, lemma_run_end_to, CharClass,
};

verus! {

/// What a token rule matched at a position.
#[derive(Debug, Clone, Copy, PartialEq, Eq, Structural)]
pub enum Lexeme {
    /// Whitespace to be skipped.
    Skip,
    /// No rule matches: an error.
    Fail,
    /// A raw token of the given kind.
    Token(RawKind),
}

/// `s[i..]` starts with `lit`.
pub open spec fn starts_with_at(s: Seq<char>, i: int, lit: Seq<char>) -> bool {
    0 <= i && i + lit.len() <= s.len() && s.subrange(i, i + lit.len()) == lit
}

/// `s[a..b] == lit`
pub fn lit_eq(s: &[char], a: usize, b: usize, lit: &str) -> (r: bool)
    requires
        a <= b <= s@.len(),
    ensures
        r == (s@.subrange(a as int, b as int) == lit@),
{
    let l = chars_of(lit);
    let w = slice_chars(s, a, b);
    chars_eq(w.as_slice(), l.as_slice())
}

/// Exec version of [`starts_with_at`].
pub fn starts_with_at_exec(s: &[char], i: usize, lit: &str) -> (r: bool)
    requires
        i <= s@.len(),
    ensures
        r == starts_with_at(s@, i as int, lit@),
{
    let l = chars_of(lit);
    if l.len() > s.len() - i {
        return false;
    }
    let w = slice_chars(s, i, i + l.len());
    chars_eq(w.as_slice(), l.as_slice())
}

/// Number of leading characters of `lit` that `s[i..]` matches, counting from `k`.
pub open spec fn prefix_len(s: Seq<char>, i: int, lit: Seq<char>, k: int) -> int
    decreases lit.len() - k,
{
    if 0 <= k < lit.len() && 0 <= i + k < s.len() && s[i + k] == lit[k] {
        prefix_len(s, i, lit, k + 1)
    } else {
        k
    }
}

proof fn lemma_prefix_len(s: Seq<char>, i: int, lit: Seq<char>, k: int)
    requires
        0 <= k <= lit.len(),
        0 <= i,
    ensures
        k <= prefix_len(s, i, lit, k) <= lit.len(),
        i + prefix_len(s, i, lit, k) <= s.len() || prefix_len(s, i, lit, k) == k,
    decreases lit.len() - k,
{
    if 0 <= k < lit.len() && 0 <= i + k < s.len() && s[i + k] == lit[k] {
        lemma_prefix_len(s, i, lit, k + 1);
    }
}

fn prefix_len_exec(s: &[char], i: usize, lit: &str) -> (r: usize)
    requires
        i <= s@.len(),
    ensures
        r == prefix_len(s@, i as int, lit@, 0),
        r <= lit@.len(),
        i + r <= s@.len(),
{
    let l = chars_of(lit);
    let mut k: usize = 0;
    while k < l.len() && k < s.len() - i && s[i + k] == l[k]
        invariant
            0 <= k <= l@.len(),
            i + k <= s@.len(),
            l@ == lit@,
            prefix_len(s@, i as int, lit@, 0) == prefix_len(s@, i as int, lit@, k as int),
        decreases l@.len() - k,
    {
        k = k + 1;
    }
    k
}

// ----------------------------------------------------------------------------
// Identifier-like words
// ----------------------------------------------------------------------------

/// Keywords made of two words separated by one space, matched when the first
/// word is exactly `s[i..r]`.
pub open spec fn multiword(s: Seq<char>, i: int, r: int) -> Option<(RawKind, int)> {
    let w = s.subrange(i, r);
    if w == "one"@ && starts_with_at(s, r, " of"@) {
        Some((RawKind::OneOf, r + " of"@.len()))
    } else if w == "group"@ && starts_with_at(s, r, " by"@) {
        Some((RawKind::GroupBy, r + " by"@.len()))
    } else if w == "inverse"@ && starts_with_at(s, r, " of"@) {
        Some((RawKind::InverseOf, r + " of"@.len()))
    } else if w == "equivalent"@ && starts_with_at(s, r, " to"@) {
        Some((RawKind::EquivalentTo, r + " to"@.len()))
    } else if w == "at"@ && starts_with_at(s, r, " least"@) {
        Some((RawKind::AtLeast, r + " least"@.len()))
    } else if w == "at"@ && starts_with_at(s, r, " most"@) {
        Some((RawKind::AtMost, r + " most"@.len()))
    } else {
        None
    }
}

fn multiword_exec(s: &[char], i: usize, r: usize) -> (res: Option<(RawKind, usize)>)
    requires
        i <= r <= s@.len(),
    ensures
        res matches Some((k, e)) ==> multiword(s@, i as int, r as int) == Some((k, e as int)),
        res is None ==> multiword(s@, i as int, r as int) is None,
        res matches Some((k, e)) ==> r < e <= s@.len(),
{
    let _n = s.len();
    proof {
        reveal_strlit(" of");
        reveal_strlit(" by");
        reveal_strlit(" to");
        reveal_strlit(" least");
        reveal_strlit(" most");
    }
    if lit_eq(s, i, r, "one") && starts_with_at_exec(s, r, " of") {
        let l = chars_of(" of");
        proof {
            assert(r + l@.len() <= s@.len());
        }
        return Some((RawKind::OneOf, r + l.len()));
    }
    if lit_eq(s, i, r, "group") && starts_with_at_exec(s, r, " by") {
        let l = chars_of(" by");
        proof {
            assert(r + l@.len() <= s@.len());
        }
        return Some((RawKind::GroupBy, r + l.len()));
    }
    if lit_eq(s, i, r, "inverse") && starts_with_at_exec(s, r, " of") {
        let l = chars_of(" of");
        proof {
            assert(r + l@.len() <= s@.len());
        }
        return Some((RawKind::InverseOf, r + l.len()));
    }
    if lit_eq(s, i, r, "equivalent") && starts_with_at_exec(s, r, " to") {
        let l = chars_of(" to");
        proof {
            assert(r + l@.len() <= s@.len());
        }
        return Some((RawKind::EquivalentTo, r + l.len()));
    }
    if lit_eq(s, i, r, "at") && starts_with_at_exec(s, r, " least") {
        let l = chars_of(" least");
        proof {
            assert(r + l@.len() <= s@.len());
        }
        return Some((RawKind::AtLeast, r + l.len()));
    }
    if lit_eq(s, i, r, "at") && starts_with_at_exec(s, r, " most") {
        let l = chars_of(" most");
        proof {
            assert(r + l@.len() <= s@.len());
        }
        return Some((RawKind::AtMost, r + l.len()));
    }
    proof {
        reveal_strlit(" of");
        reveal_strlit(" by");
        reveal_strlit(" to");
        reveal_strlit(" least");
        reveal_strlit(" most");
    }
    None
}

/// The temporal kind named by a constructor word.
pub open spec fn temporal_word(w: Seq<char>) -> Option<TemporalKind> {
    if w == "date"@ {
        Some(TemporalKind::Date)
    } else if w == "time"@ {
        Some(TemporalKind::Time)
    } else if w == "date_time"@ {
        Some(TemporalKind::DateTime)
    } else if w == "duration"@ {
        Some(TemporalKind::Duration)
    } else {
        None
    }
}

fn temporal_word_exec(s: &[char], a: usize, b: usize) -> (r: Option<TemporalKind>)
    requires
        a <= b <= s@.len(),
    ensures
        r == temporal_word(s@.subrange(a as int, b as int)),
{
    if lit_eq(s, a, b, "date") {
        Some(TemporalKind::Date)
    } else if lit_eq(s, a, b, "time") {
        Some(TemporalKind::Time)
    } else if lit_eq(s, a, b, "date_time") {
        Some(TemporalKind::DateTime)
    } else if lit_eq(s, a, b, "duration") {
        Some(TemporalKind::Duration)
    } else {
        None
    }
}

/// Index of the `)` closing a temporal literal whose content starts at `j`:
/// the content holds neither `)` nor a newline.
pub open spec fn temporal_close(s: Seq<char>, j: int) -> Option<int> {
    let k = run_end(s, j, s.len() as int, CharClass::NotEither(')', '\n'));
    if k < s.len() && s[k] == ')' {
        Some(k)
    } else {
        None
    }
}

/// End of a quantity literal whose content starts at `j`: plain characters
/// (not parentheses, not newlines) and parenthesised groups of plain
/// characters, up to the closing `)`.
pub open spec fn quantity_end(s: Seq<char>, j: int) -> Option<int>
    decreases s.len() - j,
{
    if j < 0 || j >= s.len() {
        None
    } else if s[j] == ')' {
        Some(j + 1)
    } else if s[j] == '\n' {
        None
    } else if s[j] == '(' {
        let k = run_end(s, j + 1, s.len() as int, CharClass::NotAnyOf('(', ')', '\n'));
        proof {
            lemma_run_end(s, j + 1, s.len() as int, CharClass::NotAnyOf('(', ')', '\n'));
        }
        if k < s.len() && s[k] == ')' {
            quantity_end(s, k + 1)
        } else {
            None
        }
    } else {
        quantity_end(s, j + 1)
    }
}

fn quantity_end_exec(s: &[char], j0: usize) -> (r: Option<usize>)
    requires
        j0 <= s@.len(),
    ensures
        r matches Some(e) ==> quantity_end(s@, j0 as int) == Some(e as int) && j0 < e <= s@.len(),
        r is None ==> quantity_end(s@, j0 as int) is None,
{
    let n = s.len();
    let mut j = j0;
    while j < n
        invariant
            j0 <= j <= n == s@.len(),
            quantity_end(s@, j0 as int) == quantity_end(s@, j as int),
        decreases n - j,
    {
        if s[j] == ')' {
            return Some(j + 1);
        } else if s[j] == '\n' {
            return None;
        } else if s[j] == '(' {
            let k = run_end_exec(s, j + 1, n, CharClass::NotAnyOf('(', ')', '\n'));
            if k < n && s[k] == ')' {
                j = k + 1;
            } else {
                return None;
            }
        } else {
            j = j + 1;
        }
    }
    None
}

/// The raw token starting with the ASCII letter at `i`.
pub open spec fn scan_word(s: Seq<char>, i: int) -> (Lexeme, int) {
    let n = s.len() as int;
    let r = run_end(s, i, n, CharClass::IdentChar);
    let w = s.subrange(i, r);
    if r + 1 < n && s[r] == ':' && is_ascii_letter(s[r + 1]) {
        (Lexeme::Token(RawKind::PrefixedName), run_end(s, r + 1, n, CharClass::IdentChar))
    } else if r < n && s[r] == '(' && temporal_word(w) is Some && temporal_close(s, r + 1) is Some {
        (Lexeme::Token(RawKind::TemporalLit), temporal_close(s, r + 1).unwrap() + 1)
    } else if r < n && s[r] == '(' && w == "quantity"@ && quantity_end(s, r + 1) is Some {
        (Lexeme::Token(RawKind::QuantityLit), quantity_end(s, r + 1).unwrap())
    } else {
        match multiword(s, i, r) {
            Some((k, e)) => (Lexeme::Token(k), e),
            None => match word_kind(w) {
                Some(k) => (Lexeme::Token(k), r),
                None => (Lexeme::Token(RawKind::Name), r),
            },
        }
    }
}

fn scan_word_exec(s: &[char], i: usize) -> (res: (Lexeme, usize))
    requires
        i < s@.len(),
        is_ascii_letter(s@[i as int]),
    ensures
        (res.0, res.1 as int) == scan_word(s@, i as int),
        i < res.1 <= s@.len(),
{
    let n = s.len();
    let r = run_end_exec(s, i, n, CharClass::IdentChar);
    proof {
        lemma_run_end(s@, i as int, n as int, CharClass::IdentChar);
    }
    if r < n - 1 && s[r] == ':' && is_ascii_letter_exec(s[r + 1]) {
        let e = run_end_exec(s, r + 1, n, CharClass::IdentChar);
        return (Lexeme::Token(RawKind::PrefixedName), e);
    }
    if r < n && s[r] == '(' {
        let tw = temporal_word_exec(s, i, r);
        if tw.is_some() {
            let k = run_end_exec(s, r + 1, n, CharClass::NotEither(')', '\n'));
            if k < n && s[k] == ')' {
                return (Lexeme::Token(RawKind::TemporalLit), k + 1);
            }
        }
        if lit_eq(s, i, r, "quantity") {
            if let Some(e) = quantity_end_exec(s, r + 1) {
                return (Lexeme::Token(RawKind::QuantityLit), e);
            }
        }
    }
    match multiword_exec(s, i, r) {
        Some((k, e)) => (Lexeme::Token(k), e),
        None => match word_kind_exec(s, i, r) {
            Some(k) => (Lexeme::Token(k), r),
            None => (Lexeme::Token(RawKind::Name), r),
        },
    }
}

use crate::text::is_ascii_letter_exec;

// ----------------------------------------------------------------------------
// Numbers
// ----------------------------------------------------------------------------

/// End of an optional exponent `[eE][+-]?[0-9]+` at `f` (`f` itself if there is none).
pub open spec fn exponent_end(s: Seq<char>, f: int) -> int {
    let n = s.len() as int;
    if f < n && (s[f] == 'e' || s[f] == 'E') {
        let j = if f + 1 < n && (s[f + 1] == '+' || s[f + 1] == '-') {
            f + 2
        } else {
            f + 1
        };
        if j < n && is_ascii_digit(s[j]) {
            run_end(s, j, n, CharClass::Digit)
        } else {
            f
        }
    } else {
        f
    }
}

/// The raw token starting with the digit at `i`: `[0-9][0-9_]*` (Int) or
/// `[0-9][0-9_]*\.[0-9][0-9_]*([eE][+-]?[0-9]+)?` (Float).
pub open spec fn scan_number(s: Seq<char>, i: int) -> (Lexeme, int) {
    let n = s.len() as int;
    let d = run_end(s, i, n, CharClass::DigitOrUnderscore);
    if d + 1 < n && s[d] == '.' && is_ascii_digit(s[d + 1]) {
        let f = run_end(s, d + 1, n, CharClass::DigitOrUnderscore);
        (Lexeme::Token(RawKind::Float), exponent_end(s, f))
    } else {
        (Lexeme::Token(RawKind::Int), d)
    }
}

fn scan_number_exec(s: &[char], i: usize) -> (res: (Lexeme, usize))
    requires
        i < s@.len(),
        is_ascii_digit(s@[i as int]),
    ensures
        (res.0, res.1 as int) == scan_number(s@, i as int),
        i < res.1 <= s@.len(),
{
    let n = s.len();
    let d = run_end_exec(s, i, n, CharClass::DigitOrUnderscore);
    proof {
        lemma_run_end(s@, i as int, n as int, CharClass::DigitOrUnderscore);
    }
    if d < n - 1 && s[d] == '.' && '0' <= s[d + 1] && s[d + 1] <= '9' {
        let f = run_end_exec(s, d + 1, n, CharClass::DigitOrUnderscore);
        let mut e = f;
        if f < n && (s[f] == 'e' || s[f] == 'E') {
            let j = if f + 1 < n && (s[f + 1] == '+' || s[f + 1] == '-') {
                f + 2
            } else {
                f + 1
            };
            if j < n && '0' <= s[j] && s[j] <= '9' {
                e = run_end_exec(s, j, n, CharClass::Digit);
            }
        }
        (Lexeme::Token(RawKind::Float), e)
    } else {
        (Lexeme::Token(RawKind::Int), d)
    }
}

// ----------------------------------------------------------------------------
// Strings, newlines, directives
// ----------------------------------------------------------------------------

/// Scans the body of a string literal from `j`: `Ok` end (after the closing
/// quote) or `Err` position where the rule can go no further.
pub open spec fn string_scan(s: Seq<char>, j: int) -> Result<int, int>
    decreases s.len() - j,
{
    if j < 0 || j >= s.len() {
        Err(s.len() as int)
    } else if s[j] == '"' {
        Ok(j + 1)
    } else if s[j] == '\\' {
        if j + 1 >= s.len() {
            Err(s.len() as int)
        } else if s[j + 1] == '\n' {
            Err(j + 1)
        } else {
            string_scan(s, j + 2)
        }
    } else {
        string_scan(s, j + 1)
    }
}

fn string_scan_exec(s: &[char], j0: usize) -> (r: Result<usize, usize>)
    requires
        0 < j0 <= s@.len(),
    ensures
        r matches Ok(e) ==> string_scan(s@, j0 as int) == Ok::<int, int>(e as int) && j0 < e <= s@.len(),
        r matches Err(d) ==> string_scan(s@, j0 as int) == Err::<int, int>(d as int) && j0 <= d <= s@.len(),
{
    let n = s.len();
    let mut j = j0;
    while j < n
        invariant
            j0 <= j <= n == s@.len(),
            string_scan(s@, j0 as int) == string_scan(s@, j as int),
        decreases n - j,
    {
        if s[j] == '"' {
            return Ok(j + 1);
        } else if s[j] == '\\' {
            if j + 1 >= n {
                return Err(n);
            } else if s[j + 1] == '\n' {
                return Err(j + 1);
            } else {
                j = j + 2;
            }
        } else {
            j = j + 1;
        }
    }
    Err(n)
}

/// End of a run of line breaks `(\r?\n[ \t]*)+` continued from `j`.
pub open spec fn newline_end(s: Seq<char>, j: int) -> int
    decreases s.len() - j,
{
    let n = s.len() as int;
    if 0 <= j < n && s[j] == '\n' {
        proof {
            lemma_run_end(s, j + 1, n, CharClass::SpaceTab);
        }
        newline_end(s, run_end(s, j + 1, n, CharClass::SpaceTab))
    } else if 0 <= j && j + 1 < n && s[j] == '\r' && s[j + 1] == '\n' {
        proof {
            lemma_run_end(s, j + 2, n, CharClass::SpaceTab);
        }
        newline_end(s, run_end(s, j + 2, n, CharClass::SpaceTab))
    } else {
        j
    }
}

fn newline_end_exec(s: &[char], j0: usize) -> (r: usize)
    requires
        j0 <= s@.len(),
    ensures
        r == newline_end(s@, j0 as int),
        j0 <= r <= s@.len(),
{
    let n = s.len();
    let mut j = j0;
    loop
        invariant
            j0 <= j <= n == s@.len(),
            newline_end(s@, j0 as int) == newline_end(s@, j as int),
        decreases n - j,
    {
        if j < n && s[j] == '\n' {
            proof {
                lemma_run_end(s@, j + 1, n as int, CharClass::SpaceTab);
            }
            j = run_end_exec(s, j + 1, n, CharClass::SpaceTab);
        } else if j < n && n - j > 1 && s[j] == '\r' && s[j + 1] == '\n' {
            proof {
                lemma_run_end(s@, j + 2, n as int, CharClass::SpaceTab);
            }
            j = run_end_exec(s, j + 2, n, CharClass::SpaceTab);
        } else {
            return j;
        }
    }
}

/// A `@keyword` followed by `[ \t]+` and the rest of the line.
pub open spec fn directive_match(s: Seq<char>, i: int, kw: Seq<char>) -> bool {
    prefix_len(s, i, kw, 0) == kw.len() && i + kw.len() < s.len() && (s[i + kw.len()] == ' '
        || s[i + kw.len()] == '\t')
}

/// The raw token starting with `@` at `i`.
pub open spec fn scan_at_sign(s: Seq<char>, i: int) -> (Lexeme, int) {
    let n = s.len() as int;
    let p1 = prefix_len(s, i, "@iri_name"@, 0);
    let p2 = prefix_len(s, i, "@locale"@, 0);
    let p3 = prefix_len(s, i, "@timezone"@, 0);
    if p1 == "@iri_name"@.len() {
        (Lexeme::Token(RawKind::IriName), i + p1)
    } else if directive_match(s, i, "@locale"@) {
        (Lexeme::Token(RawKind::LocaleDirective), run_end(s, i + p2, n, CharClass::Not('\n')))
    } else if directive_match(s, i, "@timezone"@) {
        (Lexeme::Token(RawKind::TimezoneDirective), run_end(s, i + p3, n, CharClass::Not('\n')))
    } else {
        let m = if p1 >= p2 && p1 >= p3 {
            p1
        } else if p2 >= p3 {
            p2
        } else {
            p3
        };
        (Lexeme::Fail, i + m)
    }
}

fn scan_at_sign_exec(s: &[char], i: usize) -> (res: (Lexeme, usize))
    requires
        i < s@.len(),
        s@[i as int] == '@',
    ensures
        (res.0, res.1 as int) == scan_at_sign(s@, i as int),
        i < res.1 <= s@.len(),
{
    let n = s.len();
    let p1 = prefix_len_exec(s, i, "@iri_name");
    let p2 = prefix_len_exec(s, i, "@locale");
    let p3 = prefix_len_exec(s, i, "@timezone");
    let l1 = chars_of("@iri_name");
    let l2 = chars_of("@locale");
    let l3 = chars_of("@timezone");
    proof {
        reveal_strlit("@iri_name");
        reveal_strlit("@locale");
        reveal_strlit("@timezone");
        assert(prefix_len(s@, i as int, "@iri_name"@, 0) >= 1) by {
            lemma_prefix_len(s@, i as int, "@iri_name"@, 1);
        }
        assert(prefix_len(s@, i as int, "@locale"@, 0) >= 1) by {
            lemma_prefix_len(s@, i as int, "@locale"@, 1);
        }
        assert(prefix_len(s@, i as int, "@timezone"@, 0) >= 1) by {
            lemma_prefix_len(s@, i as int, "@timezone"@, 1);
        }
    }
    if p1 == l1.len() {
        return (Lexeme::Token(RawKind::IriName), i + p1);
    }
    if p2 == l2.len() && i + p2 < n && (s[i + p2] == ' ' || s[i + p2] == '\t') {
        let e = run_end_exec(s, i + p2, n, CharClass::Not('\n'));
        return (Lexeme::Token(RawKind::LocaleDirective), e);
    }
    if p3 == l3.len() && i + p3 < n && (s[i + p3] == ' ' || s[i + p3] == '\t') {
        let e = run_end_exec(s, i + p3, n, CharClass::Not('\n'));
        return (Lexeme::Token(RawKind::TimezoneDirective), e);
    }
    let m = if p1 >= p2 && p1 >= p3 {
        p1
    } else if p2 >= p3 {
        p2
    } else {
        p3
    };
    (Lexeme::Fail, i + m)
}

// ----------------------------------------------------------------------------
// Punctuation
// ----------------------------------------------------------------------------

/// The raw token starting with a punctuation character at `i` (or an error).
pub open spec fn scan_punct(s: Seq<char>, i: int) -> (Lexeme, int) {
    let c = s[i];
    let next_is = |d: char| i + 1 < s.len() && s[i + 1] == d;
    if c == '-' {
        if next_is('>') {
            (Lexeme::Token(RawKind::Arrow), i + 2)
        } else {
            (Lexeme::Token(RawKind::Minus), i + 1)
        }
    } else if c == '.' {
        if next_is('.') {
            (Lexeme::Token(RawKind::DoubleDot), i + 2)
        } else {
            (Lexeme::Token(RawKind::Dot), i + 1)
        }
    } else if c == '!' {
        if next_is('=') {
            (Lexeme::Token(RawKind::NotEqual), i + 2)
        } else {
            (Lexeme::Fail, i + 1)
        }
    } else if c == '>' {
        if next_is('=') {
            (Lexeme::Token(RawKind::GreaterEqual), i + 2)
        } else {
            (Lexeme::Token(RawKind::GreaterThan), i + 1)
        }
    } else if c == '^' {
        if next_is('^') {
            (Lexeme::Token(RawKind::DoubleCaret), i + 2)
        } else {
            (Lexeme::Token(RawKind::Hat), i + 1)
        }
    } else if c == ':' {
        (Lexeme::Token(RawKind::Colon), i + 1)
    } else if c == ',' {
        (Lexeme::Token(RawKind::Comma), i + 1)
    } else if c == '*' {
        (Lexeme::Token(RawKind::Star), i + 1)
    } else if c == '|' {
        (Lexeme::Token(RawKind::Pipe), i + 1)
    } else if c == '[' {
        (Lexeme::Token(RawKind::LBracket), i + 1)
    } else if c == ']' {
        (Lexeme::Token(RawKind::RBracket), i + 1)
    } else if c == '=' {
        (Lexeme::Token(RawKind::Equal), i + 1)
    } else if c == '+' {
        (Lexeme::Token(RawKind::Plus), i + 1)
    } else if c == '/' {
        (Lexeme::Token(RawKind::Slash), i + 1)
    } else if c == '(' {
        (Lexeme::Token(RawKind::LParen), i + 1)
    } else if c == ')' {
        (Lexeme::Token(RawKind::RParen), i + 1)
    } else {
        (Lexeme::Fail, i + 1)
    }
}

fn scan_punct_exec(s: &[char], i: usize) -> (res: (Lexeme, usize))
    requires
        i < s@.len(),
    ensures
        (res.0, res.1 as int) == scan_punct(s@, i as int),
        i < res.1 <= s@.len(),
{
    let c = s[i];
    let nx = if i + 1 < s.len() {
        s[i + 1]
    } else {
        '\n'
    };
    let has_next = i + 1 < s.len();
    if c == '-' {
        if has_next && nx == '>' {
            (Lexeme::Token(RawKind::Arrow), i + 2)
        } else {
            (Lexeme::Token(RawKind::Minus), i + 1)
        }
    } else if c == '.' {
        if has_next && nx == '.' {
            (Lexeme::Token(RawKind::DoubleDot), i + 2)
        } else {
            (Lexeme::Token(RawKind::Dot), i + 1)
        }
    } else if c == '!' {
        if has_next && nx == '=' {
            (Lexeme::Token(RawKind::NotEqual), i + 2)
        } else {
            (Lexeme::Fail, i + 1)
        }
    } else if c == '>' {
        if has_next && nx == '=' {
            (Lexeme::Token(RawKind::GreaterEqual), i + 2)
        } else {
            (Lexeme::Token(RawKind::GreaterThan), i + 1)
        }
    } else if c == '^' {
        if has_next && nx == '^' {
            (Lexeme::Token(RawKind::DoubleCaret), i + 2)
        } else {
            (Lexeme::Token(RawKind::Hat), i + 1)
        }
    } else if c == ':' {
        (Lexeme::Token(RawKind::Colon), i + 1)
    } else if c == ',' {
        (Lexeme::Token(RawKind::Comma), i + 1)
    } else if c == '*' {
        (Lexeme::Token(RawKind::Star), i + 1)
    } else if c == '|' {
        (Lexeme::Token(RawKind::Pipe), i + 1)
    } else if c == '[' {
        (Lexeme::Token(RawKind::LBracket), i + 1)
    } else if c == ']' {
        (Lexeme::Token(RawKind::RBracket), i + 1)
    } else if c == '=' {
        (Lexeme::Token(RawKind::Equal), i + 1)
    } else if c == '+' {
        (Lexeme::Token(RawKind::Plus), i + 1)
    } else if c == '/' {
        (Lexeme::Token(RawKind::Slash), i + 1)
    } else if c == '(' {
        (Lexeme::Token(RawKind::LParen), i + 1)
    } else if c == ')' {
        (Lexeme::Token(RawKind::RParen), i + 1)
    } else {
        (Lexeme::Fail, i + 1)
    }
}

// ----------------------------------------------------------------------------
// The token rules
// ----------------------------------------------------------------------------

/// What the token rules match at `i` (`0 <= i < s.len()`), and where the match ends.
pub open spec fn scan(s: Seq<char>, i: int) -> (Lexeme, int) {
    let n = s.len() as int;
    let c = s[i];
    if is_ascii_letter(c) {
        scan_word(s, i)
    } else if is_ascii_digit(c) {
        scan_number(s, i)
    } else if c == ' ' || c == '\t' {
        let t = run_end(s, i, n, CharClass::SpaceTab);
        if t < n && s[t] == '#' {
            (Lexeme::Token(RawKind::Comment), run_end(s, t + 1, n, CharClass::Not('\n')))
        } else {
            (Lexeme::Skip, run_end(s, i, n, CharClass::Blank))
        }
    } else if c == '\u{c}' {
        (Lexeme::Skip, run_end(s, i, n, CharClass::Blank))
    } else if c == '#' {
        (Lexeme::Token(RawKind::Comment), run_end(s, i + 1, n, CharClass::Not('\n')))
    } else if c == '\n' || (c == '\r' && i + 1 < n && s[i + 1] == '\n') {
        (Lexeme::Token(RawKind::Newline), newline_end(s, i))
    } else if c == '"' {
        match string_scan(s, i + 1) {
            Ok(e) => (Lexeme::Token(RawKind::String), e),
            Err(d) => (Lexeme::Fail, d),
        }
    } else if c == '?' {
        if i + 1 < n && (is_ascii_letter(s[i + 1]) || s[i + 1] == '_') {
            (Lexeme::Token(RawKind::Variable), run_end(s, i + 2, n, CharClass::IdentChar))
        } else {
            (Lexeme::Fail, i + 1)
        }
    } else if c == '<' {
        let k = run_end(s, i + 1, n, CharClass::Not('>'));
        if k > i + 1 && k < n {
            (Lexeme::Token(RawKind::Iri), k + 1)
        } else if i + 1 < n && s[i + 1] == '=' {
            (Lexeme::Token(RawKind::LessEqual), i + 2)
        } else {
            (Lexeme::Token(RawKind::LessThan), i + 1)
        }
    } else if c == '@' {
        scan_at_sign(s, i)
    } else {
        scan_punct(s, i)
    }
}

/// What the token rules match at `i`, and where the match ends.
pub fn scan_at(s: &[char], i: usize) -> (res: (Lexeme, usize))
    requires
        i < s@.len(),
    ensures
        (res.0, res.1 as int) == scan(s@, i as int),
        i < res.1 <= s@.len(),
{
    let n = s.len();
    let c = s[i];
    if is_ascii_letter_exec(c) {
        scan_word_exec(s, i)
    } else if '0' <= c && c <= '9' {
        scan_number_exec(s, i)
    } else if c == ' ' || c == '\t' {
        let t = run_end_exec(s, i, n, CharClass::SpaceTab);
        proof {
            lemma_run_end(s@, i as int, n as int, CharClass::SpaceTab);
            lemma_run_end(s@, i as int, n as int, CharClass::Blank);
        }
        if t < n && s[t] == '#' {
            let e = run_end_exec(s, t + 1, n, CharClass::Not('\n'));
            (Lexeme::Token(RawKind::Comment), e)
        } else {
            let e = run_end_exec(s, i, n, CharClass::Blank);
            (Lexeme::Skip, e)
        }
    } else if c == '\u{c}' {
        proof {
            lemma_run_end(s@, i as int, n as int, CharClass::Blank);
        }
        let e = run_end_exec(s, i, n, CharClass::Blank);
        (Lexeme::Skip, e)
    } else if c == '#' {
        let e = run_end_exec(s, i + 1, n, CharClass::Not('\n'));
        (Lexeme::Token(RawKind::Comment), e)
    } else if c == '\n' || (c == '\r' && i + 1 < n && s[i + 1] == '\n') {
        let j1 = if c == '\n' {
            run_end_exec(s, i + 1, n, CharClass::SpaceTab)
        } else {
            run_end_exec(s, i + 2, n, CharClass::SpaceTab)
        };
        let e = newline_end_exec(s, j1);
        (Lexeme::Token(RawKind::Newline), e)
    } else if c == '"' {
        match string_scan_exec(s, i + 1) {
            Ok(e) => (Lexeme::Token(RawKind::String), e),
            Err(d) => (Lexeme::Fail, d),
        }
    } else if c == '?' {
        if i + 1 < n && (is_ascii_letter_exec(s[i + 1]) || s[i + 1] == '_') {
            let e = run_end_exec(s, i + 2, n, CharClass::IdentChar);
            (Lexeme::Token(RawKind::Variable), e)
        } else {
            (Lexeme::Fail, i + 1)
        }
    } else if c == '<' {
        let k = run_end_exec(s, i + 1, n, CharClass::Not('>'));
        if k > i + 1 && k < n {
            (Lexeme::Token(RawKind::Iri), k + 1)
        } else if i + 1 < n && s[i + 1] == '=' {
            (Lexeme::Token(RawKind::LessEqual), i + 2)
        } else {
            (Lexeme::Token(RawKind::LessThan), i + 1)
        }
    } else if c == '@' {
        scan_at_sign_exec(s, i)
    } else {
        scan_punct_exec(s, i)
    }
}

/// The keyword that a whole identifier-like word stands for, if any.
pub open spec fn word_kind(w: Seq<char>) -> Option<RawKind> {
    if w == "package"@ {
        Some(RawKind::Package)
    } else if w == "prefix"@ {
        Some(RawKind::Prefix)
    } else if w == "as"@ {
        Some(RawKind::As)
    } else if w == "concept"@ {
        Some(RawKind::Concept)
    } else if w == "property"@ {
        Some(RawKind::Property)
    } else if w == "rule"@ {
        Some(RawKind::Rule)
    } else if w == "match"@ {
        Some(RawKind::Match)
    } else if w == "then"@ {
        Some(RawKind::Then)
    } else if w == "sub"@ {
        Some(RawKind::Sub)
    } else if w == "has"@ {
        Some(RawKind::Has)
    } else if w == "key"@ {
        Some(RawKind::Key)
    } else if w == "a"@ {
        Some(RawKind::Is)
    } else if w == "fact"@ {
        Some(RawKind::Fact)
    } else if w == "query"@ {
        Some(RawKind::Query)
    } else if w == "return"@ {
        Some(RawKind::Return)
    } else if w == "either"@ {
        Some(RawKind::Either)
    } else if w == "or"@ {
        Some(RawKind::Or)
    } else if w == "is"@ {
        Some(RawKind::IsInverse)
    } else if w == "transitive"@ {
        Some(RawKind::Transitive)
    } else if w == "symmetric"@ {
        Some(RawKind::Symmetric)
    } else if w == "reflexive"@ {
        Some(RawKind::Reflexive)
    } else if w == "unitdef"@ {
        Some(RawKind::Unit)
    } else if w == "family"@ {
        Some(RawKind::Family)
    } else if w == "nominal"@ {
        Some(RawKind::Nominal)
    } else if w == "scale"@ {
        Some(RawKind::Scale)
    } else if w == "all"@ {
        Some(RawKind::All)
    } else if w == "none"@ {
        Some(RawKind::NoneKw)
    } else if w == "at_least"@ {
        Some(RawKind::AtLeast)
    } else if w == "at_most"@ {
        Some(RawKind::AtMost)
    } else if w == "exactly"@ {
        Some(RawKind::Exactly)
    } else if w == "of"@ {
        Some(RawKind::Of)
    } else if w == "one"@ {
        Some(RawKind::One)
    } else if w == "any"@ {
        Some(RawKind::Any)
    } else if w == "some"@ {
        Some(RawKind::SomeKw)
    } else if w == "optional"@ {
        Some(RawKind::Optional)
    } else if w == "string"@ {
        Some(RawKind::TString)
    } else if w == "int"@ {
        Some(RawKind::TInt)
    } else if w == "float"@ {
        Some(RawKind::TFloat)
    } else if w == "boolean"@ {
        Some(RawKind::TBoolean)
    } else if w == "date"@ {
        Some(RawKind::TDate)
    } else if w == "date_time"@ {
        Some(RawKind::TDateTime)
    } else if w == "time"@ {
        Some(RawKind::TTime)
    } else if w == "duration"@ {
        Some(RawKind::TDuration)
    } else if w == "true"@ {
        Some(RawKind::True)
    } else if w == "false"@ {
        Some(RawKind::False)
    } else {
        None
    }
}

/// A keyword is shown as it is written: the token that a keyword word gives
/// displays as that very word (`at_least` and `at_most` aside, whose tokens
/// are shown as `at least` and `at most`).
pub proof fn lemma_keyword_shown_as_written(w: Seq<char>)
    requires
        word_kind(w) is Some,
        w != "at_least"@,
        w != "at_most"@,
    ensures
        raw_to_token(unit_raw(word_kind(w)->0)).spec_text() == w,
{
}

/// The words `at_least` and `at_most` give the tokens shown as `at least`
/// and `at most`.
pub proof fn lemma_bound_keywords()
    ensures
        word_kind("at_least"@) == Some(RawKind::AtLeast),
        raw_to_token(unit_raw(RawKind::AtLeast)).spec_text() == "at least"@,
        word_kind("at_most"@) == Some(RawKind::AtMost),
        raw_to_token(unit_raw(RawKind::AtMost)).spec_text() == "at most"@,
{
    reveal_strlit("package");
    reveal_strlit("prefix");
    reveal_strlit("as");
    reveal_strlit("concept");
    reveal_strlit("property");
    reveal_strlit("rule");
    reveal_strlit("match");
    reveal_strlit("then");
    reveal_strlit("sub");
    reveal_strlit("has");
    reveal_strlit("key");
    reveal_strlit("a");
    reveal_strlit("fact");
    reveal_strlit("query");
    reveal_strlit("return");
    reveal_strlit("either");
    reveal_strlit("or");
    reveal_strlit("is");
    reveal_strlit("transitive");
    reveal_strlit("symmetric");
    reveal_strlit("reflexive");
    reveal_strlit("unitdef");
    reveal_strlit("family");
    reveal_strlit("nominal");
    reveal_strlit("scale");
    reveal_strlit("all");
    reveal_strlit("none");
    reveal_strlit("at_least");
    reveal_strlit("at_most");
    assert("at_least"@.len() != "package"@.len());
    assert("at_least"@.len() != "prefix"@.len());
    assert("at_least"@.len() != "as"@.len());
    assert("at_least"@.len() != "concept"@.len());
    assert("at_least"@[0] != "property"@[0]);
    assert("at_least"@.len() != "rule"@.len());
    assert("at_least"@.len() != "match"@.len());
    assert("at_least"@.len() != "then"@.len());
    assert("at_least"@.len() != "sub"@.len());
    assert("at_least"@.len() != "has"@.len());
    assert("at_least"@.len() != "key"@.len());
    assert("at_least"@.len() != "a"@.len());
    assert("at_least"@.len() != "fact"@.len());
    assert("at_least"@.len() != "query"@.len());
    assert("at_least"@.len() != "return"@.len());
    assert("at_least"@.len() != "either"@.len());
    assert("at_least"@.len() != "or"@.len());
    assert("at_least"@.len() != "is"@.len());
    assert("at_least"@.len() != "transitive"@.len());
    assert("at_least"@.len() != "symmetric"@.len());
    assert("at_least"@.len() != "reflexive"@.len());
    assert("at_least"@.len() != "unitdef"@.len());
    assert("at_least"@.len() != "family"@.len());
    assert("at_least"@.len() != "nominal"@.len());
    assert("at_least"@.len() != "scale"@.len());
    assert("at_least"@.len() != "all"@.len());
    assert("at_least"@.len() != "none"@.len());
    assert("at_most"@[0] != "package"@[0]);
    assert("at_most"@.len() != "prefix"@.len());
    assert("at_most"@.len() != "as"@.len());
    assert("at_most"@[0] != "concept"@[0]);
    assert("at_most"@.len() != "property"@.len());
    assert("at_most"@.len() != "rule"@.len());
    assert("at_most"@.len() != "match"@.len());
    assert("at_most"@.len() != "then"@.len());
    assert("at_most"@.len() != "sub"@.len());
    assert("at_most"@.len() != "has"@.len());
    assert("at_most"@.len() != "key"@.len());
    assert("at_most"@.len() != "a"@.len());
    assert("at_most"@.len() != "fact"@.len());
    assert("at_most"@.len() != "query"@.len());
    assert("at_most"@.len() != "return"@.len());
    assert("at_most"@.len() != "either"@.len());
    assert("at_most"@.len() != "or"@.len());
    assert("at_most"@.len() != "is"@.len());
    assert("at_most"@.len() != "transitive"@.len());
    assert("at_most"@.len() != "symmetric"@.len());
    assert("at_most"@.len() != "reflexive"@.len());
    assert("at_most"@[0] != "unitdef"@[0]);
    assert("at_most"@.len() != "family"@.len());
    assert("at_most"@[0] != "nominal"@[0]);
    assert("at_most"@.len() != "scale"@.len());
    assert("at_most"@.len() != "all"@.len());
    assert("at_most"@.len() != "none"@.len());
    assert("at_most"@.len() != "at_least"@.len());

}

/// The token that a keyword lexes to is the keyword's own: for the text
/// `s[i..e]` that the rules read as a keyword, the token shows that text.
pub proof fn lemma_keyword_token_text(s: Seq<char>, i: int, e: int, t: Token)
    requires
        word_kind(s.subrange(i, e)) is Some,
        s.subrange(i, e) != "at_least"@,
        s.subrange(i, e) != "at_most"@,
        token_matches_kind(s, i, word_kind(s.subrange(i, e))->0, e, t),
    ensures
        t.spec_text() == s.subrange(i, e),
{
    let k = word_kind(s.subrange(i, e))->0;
    let rt = choose|rt: RawToken| raw_token_ok(s, i, k, e, Some(rt)) && raw_to_token(rt) == t;
    lemma_keyword_shown_as_written(s.subrange(i, e));
    assert(rt == unit_raw(k));
}

/// `t` is the token that the rule `k` gives for the text `s[i..e]`.
pub open spec fn token_matches_kind(s: Seq<char>, i: int, k: RawKind, e: int, t: Token) -> bool {
    exists|rt: RawToken| raw_token_ok(s, i, k, e, Some(rt)) && raw_to_token(rt) == t
}

/// Exec version of [`word_kind`] for the word `s[a..b]`.
pub fn word_kind_exec(s: &[char], a: usize, b: usize) -> (r: Option<RawKind>)
    requires
        a <= b <= s@.len(),
    ensures
        r == word_kind(s@.subrange(a as int, b as int)),
{
    if lit_eq(s, a, b, "package") {
        return Some(RawKind::Package);
    }
    if lit_eq(s, a, b, "prefix") {
        return Some(RawKind::Prefix);
    }
    if lit_eq(s, a, b, "as") {
        return Some(RawKind::As);
    }
    if lit_eq(s, a, b, "concept") {
        return Some(RawKind::Concept);
    }
    if lit_eq(s, a, b, "property") {
        return Some(RawKind::Property);
    }
    if lit_eq(s, a, b, "rule") {
        return Some(RawKind::Rule);
    }
    if lit_eq(s, a, b, "match") {
        return Some(RawKind::Match);
    }
    if lit_eq(s, a, b, "then") {
        return Some(RawKind::Then);
    }
    if lit_eq(s, a, b, "sub") {
        return Some(RawKind::Sub);
    }
    if lit_eq(s, a, b, "has") {
        return Some(RawKind::Has);
    }
    if lit_eq(s, a, b, "key") {
        return Some(RawKind::Key);
    }
    if lit_eq(s, a, b, "a") {
        return Some(RawKind::Is);
    }
    if lit_eq(s, a, b, "fact") {
        return Some(RawKind::Fact);
    }
    if lit_eq(s, a, b, "query") {
        return Some(RawKind::Query);
    }
    if lit_eq(s, a, b, "return") {
        return Some(RawKind::Return);
    }
    if lit_eq(s, a, b, "either") {
        return Some(RawKind::Either);
    }
    if lit_eq(s, a, b, "or") {
        return Some(RawKind::Or);
    }
    if lit_eq(s, a, b, "is") {
        return Some(RawKind::IsInverse);
    }
    if lit_eq(s, a, b, "transitive") {
        return Some(RawKind::Transitive);
    }
    if lit_eq(s, a, b, "symmetric") {
        return Some(RawKind::Symmetric);
    }
    if lit_eq(s, a, b, "reflexive") {
        return Some(RawKind::Reflexive);
    }
    if lit_eq(s, a, b, "unitdef") {
        return Some(RawKind::Unit);
    }
    if lit_eq(s, a, b, "family") {
        return Some(RawKind::Family);
    }
    if lit_eq(s, a, b, "nominal") {
        return Some(RawKind::Nominal);
    }
    if lit_eq(s, a, b, "scale") {
        return Some(RawKind::Scale);
    }
    if lit_eq(s, a, b, "all") {
        return Some(RawKind::All);
    }
    if lit_eq(s, a, b, "none") {
        return Some(RawKind::NoneKw);
    }
    if lit_eq(s, a, b, "at_least") {
        return Some(RawKind::AtLeast);
    }
    if lit_eq(s, a, b, "at_most") {
        return Some(RawKind::AtMost);
    }
    if lit_eq(s, a, b, "exactly") {
        return Some(RawKind::Exactly);
    }
    if lit_eq(s, a, b, "of") {
        return Some(RawKind::Of);
    }
    if lit_eq(s, a, b, "one") {
        return Some(RawKind::One);
    }
    if lit_eq(s, a, b, "any") {
        return Some(RawKind::Any);
    }
    if lit_eq(s, a, b, "some") {
        return Some(RawKind::SomeKw);
    }
    if lit_eq(s, a, b, "optional") {
        return Some(RawKind::Optional);
    }
    if lit_eq(s, a, b, "string") {
        return Some(RawKind::TString);
    }
    if lit_eq(s, a, b, "int") {
        return Some(RawKind::TInt);
    }
    if lit_eq(s, a, b, "float") {
        return Some(RawKind::TFloat);
    }
    if lit_eq(s, a, b, "boolean") {
        return Some(RawKind::TBoolean);
    }
    if lit_eq(s, a, b, "date") {
        return Some(RawKind::TDate);
    }
    if lit_eq(s, a, b, "date_time") {
        return Some(RawKind::TDateTime);
    }
    if lit_eq(s, a, b, "time") {
        return Some(RawKind::TTime);
    }
    if lit_eq(s, a, b, "duration") {
        return Some(RawKind::TDuration);
    }
    if lit_eq(s, a, b, "true") {
        return Some(RawKind::True);
    }
    if lit_eq(s, a, b, "false") {
        return Some(RawKind::False);
    }
    None
}

/// The raw token of a payload-free kind.
pub open spec fn unit_raw(k: RawKind) -> RawToken {
    match k {
        RawKind::Package => RawToken::Package,
        RawKind::OneOf => RawToken::OneOf,
        RawKind::Prefix => RawToken::Prefix,
        RawKind::As => RawToken::As,
        RawKind::IriName => RawToken::IriName,
        RawKind::Concept => RawToken::Concept,
        RawKind::Property => RawToken::Property,
        RawKind::Rule => RawToken::Rule,
        RawKind::Match => RawToken::Match,
        RawKind::Then => RawToken::Then,
        RawKind::Sub => RawToken::Sub,
        RawKind::Has => RawToken::Has,
        RawKind::Key => RawToken::Key,
        RawKind::Is => RawToken::Is,
        RawKind::Fact => RawToken::Fact,
        RawKind::Query => RawToken::Query,
        RawKind::Return => RawToken::Return,
        RawKind::Either => RawToken::Either,
        RawKind::Or => RawToken::Or,
        RawKind::GroupBy => RawToken::GroupBy,
        RawKind::IsInverse => RawToken::IsInverse,
        RawKind::InverseOf => RawToken::InverseOf,
        RawKind::EquivalentTo => RawToken::EquivalentTo,
        RawKind::Transitive => RawToken::Transitive,
        RawKind::Symmetric => RawToken::Symmetric,
        RawKind::Reflexive => RawToken::Reflexive,
        RawKind::Unit => RawToken::Unit,
        RawKind::Family => RawToken::Family,
        RawKind::Nominal => RawToken::Nominal,
        RawKind::Scale => RawToken::Scale,
        RawKind::All => RawToken::All,
        RawKind::NoneKw => RawToken::NoneKw,
        RawKind::AtLeast => RawToken::AtLeast,
        RawKind::AtMost => RawToken::AtMost,
        RawKind::Exactly => RawToken::Exactly,
        RawKind::Of => RawToken::Of,
        RawKind::One => RawToken::One,
        RawKind::Any => RawToken::Any,
        RawKind::SomeKw => RawToken::SomeKw,
        RawKind::Optional => RawToken::Optional,
        RawKind::TString => RawToken::TString,
        RawKind::TInt => RawToken::TInt,
        RawKind::TFloat => RawToken::TFloat,
        RawKind::TBoolean => RawToken::TBoolean,
        RawKind::TDate => RawToken::TDate,
        RawKind::TDateTime => RawToken::TDateTime,
        RawKind::TTime => RawToken::TTime,
        RawKind::TDuration => RawToken::TDuration,
        RawKind::True => RawToken::True,
        RawKind::False => RawToken::False,
        RawKind::Arrow => RawToken::Arrow,
        RawKind::DoubleDot => RawToken::DoubleDot,
        RawKind::NotEqual => RawToken::NotEqual,
        RawKind::LessEqual => RawToken::LessEqual,
        RawKind::GreaterEqual => RawToken::GreaterEqual,
        RawKind::Colon => RawToken::Colon,
        RawKind::Comma => RawToken::Comma,
        RawKind::Dot => RawToken::Dot,
        RawKind::Star => RawToken::Star,
        RawKind::Pipe => RawToken::Pipe,
        RawKind::LBracket => RawToken::LBracket,
        RawKind::RBracket => RawToken::RBracket,
        RawKind::Equal => RawToken::Equal,
        RawKind::LessThan => RawToken::LessThan,
        RawKind::GreaterThan => RawToken::GreaterThan,
        RawKind::DoubleCaret => RawToken::DoubleCaret,
        RawKind::Hat => RawToken::Hat,
        RawKind::Plus => RawToken::Plus,
        RawKind::Minus => RawToken::Minus,
        RawKind::Slash => RawToken::Slash,
        RawKind::LParen => RawToken::LParen,
        RawKind::RParen => RawToken::RParen,
        _ => RawToken::Comment,
    }
}

/// Exec version of [`unit_raw`].
pub fn unit_raw_exec(k: RawKind) -> (r: RawToken)
    ensures
        r == unit_raw(k),
{
    match k {
        RawKind::Package => RawToken::Package,
        RawKind::OneOf => RawToken::OneOf,
        RawKind::Prefix => RawToken::Prefix,
        RawKind::As => RawToken::As,
        RawKind::IriName => RawToken::IriName,
        RawKind::Concept => RawToken::Concept,
        RawKind::Property => RawToken::Property,
        RawKind::Rule => RawToken::Rule,
        RawKind::Match => RawToken::Match,
        RawKind::Then => RawToken::Then,
        RawKind::Sub => RawToken::Sub,
        RawKind::Has => RawToken::Has,
        RawKind::Key => RawToken::Key,
        RawKind::Is => RawToken::Is,
        RawKind::Fact => RawToken::Fact,
        RawKind::Query => RawToken::Query,
        RawKind::Return => RawToken::Return,
        RawKind::Either => RawToken::Either,
        RawKind::Or => RawToken::Or,
        RawKind::GroupBy => RawToken::GroupBy,
        RawKind::IsInverse => RawToken::IsInverse,
        RawKind::InverseOf => RawToken::InverseOf,
        RawKind::EquivalentTo => RawToken::EquivalentTo,
        RawKind::Transitive => RawToken::Transitive,
        RawKind::Symmetric => RawToken::Symmetric,
        RawKind::Reflexive => RawToken::Reflexive,
        RawKind::Unit => RawToken::Unit,
        RawKind::Family => RawToken::Family,
        RawKind::Nominal => RawToken::Nominal,
        RawKind::Scale => RawToken::Scale,
        RawKind::All => RawToken::All,
        RawKind::NoneKw => RawToken::NoneKw,
        RawKind::AtLeast => RawToken::AtLeast,
        RawKind::AtMost => RawToken::AtMost,
        RawKind::Exactly => RawToken::Exactly,
        RawKind::Of => RawToken::Of,
        RawKind::One => RawToken::One,
        RawKind::Any => RawToken::Any,
        RawKind::SomeKw => RawToken::SomeKw,
        RawKind::Optional => RawToken::Optional,
        RawKind::TString => RawToken::TString,
        RawKind::TInt => RawToken::TInt,
        RawKind::TFloat => RawToken::TFloat,
        RawKind::TBoolean => RawToken::TBoolean,
        RawKind::TDate => RawToken::TDate,
        RawKind::TDateTime => RawToken::TDateTime,
        RawKind::TTime => RawToken::TTime,
        RawKind::TDuration => RawToken::TDuration,
        RawKind::True => RawToken::True,
        RawKind::False => RawToken::False,
        RawKind::Arrow => RawToken::Arrow,
        RawKind::DoubleDot => RawToken::DoubleDot,
        RawKind::NotEqual => RawToken::NotEqual,
        RawKind::LessEqual => RawToken::LessEqual,
        RawKind::GreaterEqual => RawToken::GreaterEqual,
        RawKind::Colon => RawToken::Colon,
        RawKind::Comma => RawToken::Comma,
        RawKind::Dot => RawToken::Dot,
        RawKind::Star => RawToken::Star,
        RawKind::Pipe => RawToken::Pipe,
        RawKind::LBracket => RawToken::LBracket,
        RawKind::RBracket => RawToken::RBracket,
        RawKind::Equal => RawToken::Equal,
        RawKind::LessThan => RawToken::LessThan,
        RawKind::GreaterThan => RawToken::GreaterThan,
        RawKind::DoubleCaret => RawToken::DoubleCaret,
        RawKind::Hat => RawToken::Hat,
        RawKind::Plus => RawToken::Plus,
        RawKind::Minus => RawToken::Minus,
        RawKind::Slash => RawToken::Slash,
        RawKind::LParen => RawToken::LParen,
        RawKind::RParen => RawToken::RParen,
        _ => RawToken::Comment,
    }
}
// ----------------------------------------------------------------------------
// Token payloads
// ----------------------------------------------------------------------------

/// `d` without its `_` digit separators.
pub open spec fn without_underscores(d: Seq<char>) -> Seq<char>
    decreases d.len(),
{
    if d.len() == 0 {
        seq![]
    } else if d.last() == '_' {
        without_underscores(d.drop_last())
    } else {
        without_underscores(d.drop_last()).push(d.last())
    }
}

/// Value of a sequence of decimal digits.
pub open spec fn dec_value(d: Seq<char>) -> int
    decreases d.len(),
{
    if d.len() == 0 {
        0
    } else {
        dec_value(d.drop_last()) * 10 + (d.last() as int - '0' as int)
    }
}

/// The contents of a string literal with its escapes resolved: `\n`, `\t`,
/// `\r`, `\\` and `\"` stand for one character; any other escaped character
/// keeps its backslash; a final lone backslash stays.
pub open spec fn unescape(t: Seq<char>) -> Seq<char>
    decreases t.len(),
{
    if t.len() == 0 {
        seq![]
    } else if t[0] == '\\' {
        if t.len() == 1 {
            seq!['\\']
        } else {
            let e = t[1];
            let m = if e == 'n' {
                seq!['\n']
            } else if e == 't' {
                seq!['\t']
            } else if e == 'r' {
                seq!['\r']
            } else if e == '\\' {
                seq!['\\']
            } else if e == '"' {
                seq!['"']
            } else {
                seq!['\\', e]
            };
            m + unescape(t.subrange(2, t.len() as int))
        }
    } else {
        seq![t[0]] + unescape(t.subrange(1, t.len() as int))
    }
}

/// The argument of a `@keyword <arg>` directive line: the text after the
/// keyword, trimmed, up to a `#` comment, trimmed again; none when empty.
pub open spec fn directive_arg_spec(slice: Seq<char>, keyword: Seq<char>) -> Option<Seq<char>> {
    if keyword.len() <= slice.len() && slice.subrange(0, keyword.len() as int) == keyword {
        let a = trim(slice.subrange(keyword.len() as int, slice.len() as int));
        let h = run_end(a, 0, a.len() as int, CharClass::Not('#'));
        let b = trim(a.subrange(0, h));
        if b.len() == 0 {
            None
        } else {
            Some(b)
        }
    } else {
        None
    }
}

/// The raw token that the text `s[i..e]` matched by a rule of kind `k` gives;
/// `None` where the rule's conversion rejects the text (an integer beyond
/// `i64`, an empty directive argument).
pub open spec fn raw_token_ok(s: Seq<char>, i: int, k: RawKind, e: int, r: Option<RawToken>) -> bool {
    let slice = s.subrange(i, e);
    match k {
        RawKind::Name => r matches Some(RawToken::Name(x)) && x@ == slice,
        RawKind::Variable => r matches Some(RawToken::Variable(x)) && x@ == slice,
        RawKind::PrefixedName => {
            let c = find_char(s, i, e, ':').unwrap();
            r matches Some(RawToken::PrefixedName(p, l)) && p@ == s.subrange(i, c) && l@
                == s.subrange(c + 1, e)
        },
        RawKind::Int => {
            let v = dec_value(without_underscores(slice));
            if v <= i64::MAX {
                r matches Some(RawToken::Int(x)) && x == v
            } else {
                r is None
            }
        },
        RawKind::Float => r matches Some(RawToken::Float(x)) && x@ == without_underscores(slice),
        RawKind::String => r matches Some(RawToken::String(x)) && x@ == unescape(
            s.subrange(i + 1, e - 1),
        ),
        RawKind::Iri => r matches Some(RawToken::Iri(x)) && x@ == s.subrange(i + 1, e - 1),
        RawKind::TemporalLit => {
            let o = find_char(s, i, e, '(').unwrap();
            r matches Some(RawToken::TemporalLit(tk, c)) && Some(tk) == temporal_word(
                s.subrange(i, o),
            ) && c@ == trim(s.subrange(o + 1, e - 1))
        },
        RawKind::QuantityLit => {
            let o = find_char(s, i, e, '(').unwrap();
            r matches Some(RawToken::QuantityLit(c)) && c@ == trim(s.subrange(o + 1, e - 1))
        },
        RawKind::LocaleDirective => match directive_arg_spec(slice, "@locale"@) {
            Some(a) => r matches Some(RawToken::LocaleDirective(x)) && x@ == a,
            None => r is None,
        },
        RawKind::TimezoneDirective => match directive_arg_spec(slice, "@timezone"@) {
            Some(a) => r matches Some(RawToken::TimezoneDirective(x)) && x@ == a,
            None => r is None,
        },
        RawKind::Newline => r matches Some(RawToken::Newline(x)) && x@ == slice,
        RawKind::Comment => r == Some(RawToken::Comment),
        _ => r == Some(unit_raw(k)),
    }
}

/// `d` without `_`, for `d = s[a..b]`.
fn without_underscores_exec(s: &[char], a: usize, b: usize) -> (r: Vec<char>)
    requires
        a <= b <= s@.len(),
    ensures
        r@ == without_underscores(s@.subrange(a as int, b as int)),
{
    let mut r: Vec<char> = Vec::new();
    let mut k = a;
    while k < b
        invariant
            a <= k <= b <= s@.len(),
            r@ == without_underscores(s@.subrange(a as int, k as int)),
        decreases b - k,
    {
        proof {
            assert(s@.subrange(a as int, k + 1).drop_last() =~= s@.subrange(a as int, k as int));
        }
        if s[k] != '_' {
            r.push(s[k]);
        }
        k = k + 1;
    }
    r
}

proof fn lemma_dec_value_nonneg(d: Seq<char>)
    requires
        forall|j: int| 0 <= j < d.len() ==> is_ascii_digit(#[trigger] d[j]),
    ensures
        dec_value(d) >= 0,
    decreases d.len(),
{
    if d.len() > 0 {
        lemma_dec_value_nonneg(d.drop_last());
    }
}

proof fn lemma_dec_value_prefix(d: Seq<char>, k: int)
    requires
        0 <= k <= d.len(),
        forall|j: int| 0 <= j < d.len() ==> is_ascii_digit(#[trigger] d[j]),
    ensures
        dec_value(d.subrange(0, k)) <= dec_value(d),
    decreases d.len() - k,
{
    if k < d.len() {
        lemma_dec_value_prefix(d, k + 1);
        assert(d.subrange(0, k + 1).drop_last() =~= d.subrange(0, k));
        lemma_dec_value_nonneg(d.subrange(0, k));
    } else {
        assert(d.subrange(0, k) =~= d);
    }
}

proof fn lemma_without_underscores_digits(d: Seq<char>)
    requires
        forall|j: int| 0 <= j < d.len() ==> (is_ascii_digit(#[trigger] d[j]) || d[j] == '_'),
    ensures
        forall|j: int|
            0 <= j < without_underscores(d).len() ==> is_ascii_digit(
                #[trigger] without_underscores(d)[j],
            ),
    decreases d.len(),
{
    if d.len() > 0 {
        lemma_without_underscores_digits(d.drop_last());
        let w = without_underscores(d.drop_last());
        if d.last() != '_' {
            assert forall|j: int| 0 <= j < w.push(d.last()).len() implies is_ascii_digit(
                #[trigger] w.push(d.last())[j],
            ) by {
                if j < w.len() {
                    assert(w.push(d.last())[j] == w[j]);
                }
            }
        }
    }
}

/// Value of the digits `d`, or `None` beyond `i64::MAX`.
fn parse_int_digits(d: &[char]) -> (r: Option<i64>)
    requires
        forall|j: int| 0 <= j < d@.len() ==> is_ascii_digit(#[trigger] d@[j]),
    ensures
        r matches Some(v) ==> v == dec_value(d@),
        r is None ==> dec_value(d@) > i64::MAX,
{
    let mut v: i64 = 0;
    let mut k: usize = 0;
    while k < d.len()
        invariant
            0 <= k <= d@.len(),
            forall|j: int| 0 <= j < d@.len() ==> is_ascii_digit(#[trigger] d@[j]),
            v == dec_value(d@.subrange(0, k as int)),
            v >= 0,
        decreases d@.len() - k,
    {
        proof {
            assert(d@.subrange(0, k + 1).drop_last() =~= d@.subrange(0, k as int));
        }
        let c = d[k];
        let dig: i64 = (c as u32 - '0' as u32) as i64;
        if v > (i64::MAX - dig) / 10 {
            proof {
                lemma_dec_value_prefix(d@, k + 1);
            }
            return None;
        }
        v = v * 10 + dig;
        k = k + 1;
    }
    proof {
        assert(d@.subrange(0, d@.len() as int) =~= d@);
    }
    Some(v)
}

/// Resolve the escapes of `s[a..b]`.
fn unescape_exec(s: &[char], a: usize, b: usize) -> (r: Vec<char>)
    requires
        a <= b <= s@.len(),
    ensures
        r@ == unescape(s@.subrange(a as int, b as int)),
{
    let mut r: Vec<char> = Vec::new();
    let mut k = a;
    while k < b
        invariant
            a <= k <= b <= s@.len(),
            unescape(s@.subrange(a as int, b as int)) == r@ + unescape(s@.subrange(k as int, b as int)),
        decreases b - k,
    {
        let t = Ghost(s@.subrange(k as int, b as int));
        if s[k] == '\\' {
            if k + 1 >= b {
                r.push('\\');
                k = k + 1;
                proof {
                    assert(s@.subrange(k as int, b as int) =~= Seq::<char>::empty());
                }
            } else {
                let e = s[k + 1];
                if e == 'n' {
                    r.push('\n');
                } else if e == 't' {
                    r.push('\t');
                } else if e == 'r' {
                    r.push('\r');
                } else if e == '\\' {
                    r.push('\\');
                } else if e == '"' {
                    r.push('"');
                } else {
                    r.push('\\');
                    r.push(e);
                }
                proof {
                    assert(t@.subrange(2, t@.len() as int) =~= s@.subrange(k + 2, b as int));
                }
                k = k + 2;
            }
        } else {
            r.push(s[k]);
            proof {
                assert(t@.subrange(1, t@.len() as int) =~= s@.subrange(k + 1, b as int));
            }
            k = k + 1;
        }
    }
    proof {
        assert(s@.subrange(b as int, b as int) =~= Seq::<char>::empty());
        assert(r@ + Seq::<char>::empty() =~= r@);
    }
    r
}

/// Extract the argument of a `@directive <arg>` line, stripping the keyword and
/// any trailing `# comment`.
pub fn directive_arg(slice: &str, keyword: &str) -> (r: Option<String>)
    ensures
        r matches Some(a) ==> directive_arg_spec(slice@, keyword@) == Some(a@),
        r is None ==> directive_arg_spec(slice@, keyword@) is None,
{
    let s = chars_of(slice);
    let kw = chars_of(keyword);
    proof {
        assert(s@.subrange(0, s@.len() as int) =~= slice@);
    }
    directive_arg_chars(s.as_slice(), 0, s.len(), kw.as_slice())
}

fn directive_arg_chars(s: &[char], i: usize, e: usize, kw: &[char]) -> (r: Option<String>)
    requires
        i <= e <= s@.len(),
    ensures
        r matches Some(a) ==> directive_arg_spec(s@.subrange(i as int, e as int), kw@) == Some(a@),
        r is None ==> directive_arg_spec(s@.subrange(i as int, e as int), kw@) is None,
{
    let ghost slice = s@.subrange(i as int, e as int);
    if kw.len() > e - i {
        return None;
    }
    let head = slice_chars(s, i, i + kw.len());
    proof {
        assert(head@ =~= slice.subrange(0, kw@.len() as int));
    }
    if !chars_eq(head.as_slice(), kw) {
        return None;
    }
    let (a0, a1) = trim_bounds(s, i + kw.len(), e);
    proof {
        assert(s@.subrange(i + kw@.len(), e as int) =~= slice.subrange(kw@.len() as int, slice.len() as int));
    }
    let ghost a = s@.subrange(a0 as int, a1 as int);
    let h = run_end_exec(s, a0, a1, CharClass::Not('#'));
    proof {
        crate::text::lemma_run_end_shift(s@, a0 as int, a1 as int, CharClass::Not('#'));
        assert(a =~= s@.subrange(a0 as int, a1 as int).subrange(0, a1 - a0));
    }
    let (b0, b1) = trim_bounds(s, a0, h);
    proof {
        assert(s@.subrange(a0 as int, h as int) =~= a.subrange(0, h - a0));
    }
    if b0 == b1 {
        return None;
    }
    Some(string_from_chars(slice_chars(s, b0, b1).as_slice()))
}

/// The raw token for the text `s[i..e]` matched by the rule of kind `k`.
pub fn make_raw_token(s: &[char], i: usize, k: RawKind, e: usize) -> (r: Option<RawToken>)
    requires
        i < e <= s@.len(),
        scan(s@, i as int) == (Lexeme::Token(k), e as int),
    ensures
        raw_token_ok(s@, i as int, k, e as int, r),
{
    match k {
        RawKind::Name => Some(RawToken::Name(string_from_chars(slice_chars(s, i, e).as_slice()))),
        RawKind::Variable => Some(
            RawToken::Variable(string_from_chars(slice_chars(s, i, e).as_slice())),
        ),
        RawKind::PrefixedName => {
            let c = find_char_exec(s, i, e, ':');
            proof {
                lemma_prefixed_colon(s@, i as int);
            }
            let c = c.unwrap();
            let p = string_from_chars(slice_chars(s, i, c).as_slice());
            let l = string_from_chars(slice_chars(s, c + 1, e).as_slice());
            Some(RawToken::PrefixedName(p, l))
        },
        RawKind::Int => {
            let d = without_underscores_exec(s, i, e);
            proof {
                lemma_number_chars(s@, i as int);
                lemma_without_underscores_digits(s@.subrange(i as int, e as int));
            }
            match parse_int_digits(d.as_slice()) {
                Some(v) => Some(RawToken::Int(v)),
                None => None,
            }
        },
        RawKind::Float => {
            let d = without_underscores_exec(s, i, e);
            Some(RawToken::Float(string_from_chars(d.as_slice())))
        },
        RawKind::String => {
            proof {
                lemma_string_bounds(s@, i as int);
            }
            let u = unescape_exec(s, i + 1, e - 1);
            Some(RawToken::String(string_from_chars(u.as_slice())))
        },
        RawKind::Iri => {
            proof {
                lemma_iri_bounds(s@, i as int);
            }
            Some(RawToken::Iri(string_from_chars(slice_chars(s, i + 1, e - 1).as_slice())))
        },
        RawKind::TemporalLit => {
            proof {
                lemma_paren_literal(s@, i as int);
            }
            let o = find_char_exec(s, i, e, '(').unwrap();
            let tk = temporal_word_exec(s, i, o).unwrap();
            let (c0, c1) = trim_bounds(s, o + 1, e - 1);
            let c = string_from_chars(slice_chars(s, c0, c1).as_slice());
            Some(RawToken::TemporalLit(tk, c))
        },
        RawKind::QuantityLit => {
            proof {
                lemma_paren_literal(s@, i as int);
            }
            let o = find_char_exec(s, i, e, '(').unwrap();
            let (c0, c1) = trim_bounds(s, o + 1, e - 1);
            let c = string_from_chars(slice_chars(s, c0, c1).as_slice());
            Some(RawToken::QuantityLit(c))
        },
        RawKind::LocaleDirective => {
            let kw = chars_of("@locale");
            match directive_arg_chars(s, i, e, kw.as_slice()) {
                Some(a) => Some(RawToken::LocaleDirective(a)),
                None => None,
            }
        },
        RawKind::TimezoneDirective => {
            let kw = chars_of("@timezone");
            match directive_arg_chars(s, i, e, kw.as_slice()) {
                Some(a) => Some(RawToken::TimezoneDirective(a)),
                None => None,
            }
        },
        RawKind::Newline => Some(
            RawToken::Newline(string_from_chars(slice_chars(s, i, e).as_slice())),
        ),
        RawKind::Comment => Some(RawToken::Comment),
        _ => Some(unit_raw_exec(k)),
    }
}

/// A prefixed name holds its `:` right after the first identifier run.
proof fn lemma_prefixed_colon(s: Seq<char>, i: int)
    requires
        0 <= i < s.len(),
        scan(s, i).0 == Lexeme::Token(RawKind::PrefixedName),
    ensures
        find_char(s, i, scan(s, i).1, ':') is Some,
{
    let n = s.len() as int;
    let r = run_end(s, i, n, CharClass::IdentChar);
    lemma_run_end(s, i, n, CharClass::IdentChar);
    let e = scan(s, i).1;
    lemma_run_end(s, r + 1, n, CharClass::IdentChar);
    assert forall|k: int| i <= k < r implies in_class(s[k], CharClass::Not(':')) by {
        assert(in_class(s[k], CharClass::IdentChar));
    }
    lemma_run_end_to(s, i, r, e, CharClass::Not(':'));
}

/// An integer literal is made of digits and `_`.
proof fn lemma_number_chars(s: Seq<char>, i: int)
    requires
        0 <= i < s.len(),
        scan(s, i).0 == Lexeme::Token(RawKind::Int),
    ensures
        forall|k: int|
            0 <= k < scan(s, i).1 - i ==> (is_ascii_digit(#[trigger] s.subrange(i, scan(s, i).1)[k])
                || s.subrange(i, scan(s, i).1)[k] == '_'),
{
    let n = s.len() as int;
    lemma_run_end(s, i, n, CharClass::DigitOrUnderscore);
}

proof fn lemma_string_scan(s: Seq<char>, j: int)
    requires
        0 <= j <= s.len(),
    ensures
        string_scan(s, j) matches Ok(e) ==> j + 1 <= e <= s.len(),
    decreases s.len() - j,
{
    if j < s.len() && s[j] != '"' {
        if s[j] == '\\' {
            if j + 1 < s.len() && s[j + 1] != '\n' {
                lemma_string_scan(s, j + 2);
            }
        } else {
            lemma_string_scan(s, j + 1);
        }
    }
}

proof fn lemma_string_bounds(s: Seq<char>, i: int)
    requires
        0 <= i < s.len(),
        scan(s, i).0 == Lexeme::Token(RawKind::String),
    ensures
        i + 2 <= scan(s, i).1,
{
    lemma_string_scan(s, i + 1);
}

proof fn lemma_iri_bounds(s: Seq<char>, i: int)
    requires
        0 <= i < s.len(),
        scan(s, i).0 == Lexeme::Token(RawKind::Iri),
    ensures
        i + 2 <= scan(s, i).1,
{
}

proof fn lemma_quantity_end(s: Seq<char>, j: int)
    requires
        0 <= j <= s.len(),
    ensures
        quantity_end(s, j) matches Some(e) ==> j + 1 <= e <= s.len(),
    decreases s.len() - j,
{
    if j < s.len() && s[j] != ')' && s[j] != '\n' {
        if s[j] == '(' {
            let k = run_end(s, j + 1, s.len() as int, CharClass::NotAnyOf('(', ')', '\n'));
            lemma_run_end(s, j + 1, s.len() as int, CharClass::NotAnyOf('(', ')', '\n'));
            if k < s.len() && s[k] == ')' {
                lemma_quantity_end(s, k + 1);
            }
        } else {
            lemma_quantity_end(s, j + 1);
        }
    }
}

/// A temporal or quantity literal is a word, `(`, content and `)`.
proof fn lemma_paren_literal(s: Seq<char>, i: int)
    requires
        0 <= i < s.len(),
        scan(s, i).0 == Lexeme::Token(RawKind::TemporalLit) || scan(s, i).0 == Lexeme::Token(
            RawKind::QuantityLit,
        ),
    ensures
        ({
            let r = run_end(s, i, s.len() as int, CharClass::IdentChar);
            &&& find_char(s, i, scan(s, i).1, '(') == Some(r)
            &&& r + 1 <= scan(s, i).1 - 1
            &&& scan(s, i).0 == Lexeme::Token(RawKind::TemporalLit) ==> temporal_word(
                s.subrange(i, r),
            ) is Some
        }),
{
    let n = s.len() as int;
    let r = run_end(s, i, n, CharClass::IdentChar);
    lemma_run_end(s, i, n, CharClass::IdentChar);
    lemma_run_end(s, r + 1, n, CharClass::NotEither(')', '\n'));
    lemma_quantity_end(s, r + 1);
    let e = scan(s, i).1;
    assert forall|k: int| i <= k < r implies in_class(s[k], CharClass::Not('(')) by {
        assert(in_class(s[k], CharClass::IdentChar));
    }
    lemma_run_end_to(s, i, r, e, CharClass::Not('('));
}
proof fn lemma_newline_end(s: Seq<char>, j: int)
    requires
        0 <= j <= s.len(),
    ensures
        j <= newline_end(s, j) <= s.len(),
    decreases s.len() - j,
{
    let n = s.len() as int;
    if 0 <= j < n && s[j] == '\n' {
        lemma_run_end(s, j + 1, n, CharClass::SpaceTab);
        lemma_newline_end(s, run_end(s, j + 1, n, CharClass::SpaceTab));
    } else if 0 <= j && j + 1 < n && s[j] == '\r' && s[j + 1] == '\n' {
        lemma_run_end(s, j + 2, n, CharClass::SpaceTab);
        lemma_newline_end(s, run_end(s, j + 2, n, CharClass::SpaceTab));
    }
}

/// Every rule match (or error) consumes at least one character and stays in bounds.
pub proof fn lemma_scan_advances(s: Seq<char>, i: int)
    requires
        0 <= i < s.len(),
    ensures
        i < scan(s, i).1 <= s.len(),
{
    let n = s.len() as int;
    let c = s[i];
    if is_ascii_letter(c) {
        let r = run_end(s, i, n, CharClass::IdentChar);
        lemma_run_end(s, i, n, CharClass::IdentChar);
        if r + 1 < n {
            lemma_run_end(s, r + 1, n, CharClass::IdentChar);
        }
        if r < n {
            lemma_run_end(s, r + 1, n, CharClass::NotEither(')', '\n'));
            lemma_quantity_end(s, r + 1);
        }
        let w = s.subrange(i, r);
        if multiword(s, i, r) is Some {
            reveal_strlit(" of");
            reveal_strlit(" by");
            reveal_strlit(" to");
            reveal_strlit(" least");
            reveal_strlit(" most");
        }
    } else if is_ascii_digit(c) {
        let d = run_end(s, i, n, CharClass::DigitOrUnderscore);
        lemma_run_end(s, i, n, CharClass::DigitOrUnderscore);
        if d + 1 < n {
            let f = run_end(s, d + 1, n, CharClass::DigitOrUnderscore);
            lemma_run_end(s, d + 1, n, CharClass::DigitOrUnderscore);
            if f + 2 < n {
                lemma_run_end(s, f + 2, n, CharClass::Digit);
            }
            if f + 1 < n {
                lemma_run_end(s, f + 1, n, CharClass::Digit);
            }
        }
    } else if c == ' ' || c == '\t' {
        let t = run_end(s, i, n, CharClass::SpaceTab);
        lemma_run_end(s, i, n, CharClass::SpaceTab);
        lemma_run_end(s, i, n, CharClass::Blank);
        if t < n {
            lemma_run_end(s, t + 1, n, CharClass::Not('\n'));
        }
    } else if c == '\u{c}' {
        lemma_run_end(s, i, n, CharClass::Blank);
    } else if c == '#' {
        lemma_run_end(s, i + 1, n, CharClass::Not('\n'));
    } else if c == '\n' || (c == '\r' && i + 1 < n && s[i + 1] == '\n') {
        if c == '\n' {
            lemma_run_end(s, i + 1, n, CharClass::SpaceTab);
            lemma_newline_end(s, run_end(s, i + 1, n, CharClass::SpaceTab));
        } else {
            lemma_run_end(s, i + 2, n, CharClass::SpaceTab);
            lemma_newline_end(s, run_end(s, i + 2, n, CharClass::SpaceTab));
        }
    } else if c == '"' {
        lemma_string_scan_err(s, i + 1);
        lemma_string_scan(s, i + 1);
    } else if c == '?' {
        if i + 1 < n {
            lemma_run_end(s, i + 2, n, CharClass::IdentChar);
        }
    } else if c == '<' {
        lemma_run_end(s, i + 1, n, CharClass::Not('>'));
    } else if c == '@' {
        reveal_strlit("@iri_name");
        reveal_strlit("@locale");
        reveal_strlit("@timezone");
        lemma_prefix_len(s, i, "@iri_name"@, 1);
        lemma_prefix_len(s, i, "@locale"@, 1);
        lemma_prefix_len(s, i, "@timezone"@, 1);
        lemma_prefix_len(s, i, "@iri_name"@, 0);
        lemma_prefix_len(s, i, "@locale"@, 0);
        lemma_prefix_len(s, i, "@timezone"@, 0);
        let p2 = prefix_len(s, i, "@locale"@, 0);
        let p3 = prefix_len(s, i, "@timezone"@, 0);
        if i + p2 <= n {
            lemma_run_end(s, i + p2, n, CharClass::Not('\n'));
        }
        if i + p3 <= n {
            lemma_run_end(s, i + p3, n, CharClass::Not('\n'));
        }
    }
}

proof fn lemma_string_scan_err(s: Seq<char>, j: int)
    requires
        0 < j <= s.len(),
    ensures
        string_scan(s, j) matches Err(d) ==> j <= d <= s.len(),
    decreases s.len() - j,
{
    if j < s.len() && s[j] != '"' {
        if s[j] == '\\' {
            if j + 1 < s.len() && s[j + 1] != '\n' {
                lemma_string_scan_err(s, j + 2);
            }
        } else {
            lemma_string_scan_err(s, j + 1);
        }
    }
}

} // verus!
