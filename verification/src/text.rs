//! Character-level text utilities with specifications.
//!
//! Strings are handled as sequences of `char`; the functions here mirror the
//! `str` methods that the rest of the library relies on (`trim`, `find`,
//! `split`, ...), each stated over `Seq<char>`.

use vstd::prelude::*;

verus! {

/// Unicode `White_Space` property, as used by `char::is_whitespace` and `str::trim`.
pub open spec fn is_ws(c: char) -> bool {
    ||| ('\u{9}' <= c && c <= '\u{d}')
    ||| c == ' '
    ||| c == '\u{85}'
    ||| c == '\u{a0}'
    ||| c == '\u{1680}'
    ||| ('\u{2000}' <= c && c <= '\u{200a}')
    ||| c == '\u{2028}'
    ||| c == '\u{2029}'
    ||| c == '\u{202f}'
    ||| c == '\u{205f}'
    ||| c == '\u{3000}'
}

pub open spec fn is_ascii_letter(c: char) -> bool {
    ('a' <= c && c <= 'z') || ('A' <= c && c <= 'Z')
}

pub open spec fn is_ascii_digit(c: char) -> bool {
    '0' <= c && c <= '9'
}

pub open spec fn is_ident_char(c: char) -> bool {
    is_ascii_letter(c) || is_ascii_digit(c) || c == '_'
}

/// A class of characters over which a maximal run can be taken.
#[derive(Clone, Copy, Debug)]
pub enum CharClass {
    /// Unicode whitespace.
    Whitespace,
    /// `[ \t]`
    SpaceTab,
    /// `[ \t\f]`
    Blank,
    /// `[a-zA-Z0-9_]`
    IdentChar,
    /// `[0-9_]`
    DigitOrUnderscore,
    /// `[0-9]`
    Digit,
    /// Exactly this character.
    Is(char),
    /// Any character but this one.
    Not(char),
    /// Any character but these two.
    NotEither(char, char),
    /// Any character but these three.
    NotAnyOf(char, char, char),
    /// Any character that is not Unicode whitespace.
    NotWhitespace,
}

pub open spec fn in_class(c: char, cls: CharClass) -> bool {
    match cls {
        CharClass::Whitespace => is_ws(c),
        CharClass::SpaceTab => c == ' ' || c == '\t',
        CharClass::Blank => c == ' ' || c == '\t' || c == '\u{c}',
        CharClass::IdentChar => is_ident_char(c),
        CharClass::DigitOrUnderscore => is_ascii_digit(c) || c == '_',
        CharClass::Digit => is_ascii_digit(c),
        CharClass::Is(d) => c == d,
        CharClass::Not(d) => c != d,
        CharClass::NotEither(d, e) => c != d && c != e,
        CharClass::NotAnyOf(d, e, f) => c != d && c != e && c != f,
        CharClass::NotWhitespace => !is_ws(c),
    }
}

pub fn in_class_exec(c: char, cls: CharClass) -> (r: bool)
    ensures
        r == in_class(c, cls),
{
    match cls {
        CharClass::Whitespace => is_whitespace(c),
        CharClass::SpaceTab => c == ' ' || c == '\t',
        CharClass::Blank => c == ' ' || c == '\t' || c == '\u{c}',
        CharClass::IdentChar => is_ident_char_exec(c),
        CharClass::DigitOrUnderscore => ('0' <= c && c <= '9') || c == '_',
        CharClass::Digit => '0' <= c && c <= '9',
        CharClass::Is(d) => c == d,
        CharClass::Not(d) => c != d,
        CharClass::NotEither(d, e) => c != d && c != e,
        CharClass::NotAnyOf(d, e, f) => c != d && c != e && c != f,
        CharClass::NotWhitespace => !is_whitespace(c),
    }
}

pub fn is_whitespace(c: char) -> (r: bool)
    ensures
        r == is_ws(c),
{
    ('\u{9}' <= c && c <= '\u{d}') || c == ' ' || c == '\u{85}' || c == '\u{a0}' || c
        == '\u{1680}' || ('\u{2000}' <= c && c <= '\u{200a}') || c == '\u{2028}' || c
        == '\u{2029}' || c == '\u{202f}' || c == '\u{205f}' || c == '\u{3000}'
}

pub fn is_ascii_letter_exec(c: char) -> (r: bool)
    ensures
        r == is_ascii_letter(c),
{
    ('a' <= c && c <= 'z') || ('A' <= c && c <= 'Z')
}

pub fn is_ident_char_exec(c: char) -> (r: bool)
    ensures
        r == is_ident_char(c),
{
    ('a' <= c && c <= 'z') || ('A' <= c && c <= 'Z') || ('0' <= c && c <= '9') || c == '_'
}

/// The end of the maximal run of `cls` characters starting at `i`, bounded by `end`.
pub open spec fn run_end(s: Seq<char>, i: int, end: int, cls: CharClass) -> int
    decreases end - i,
{
    if i < end && in_class(s[i], cls) {
        run_end(s, i + 1, end, cls)
    } else {
        i
    }
}

/// The start of the maximal run of `cls` characters ending at `j`, bounded below by `lo`.
pub open spec fn run_start(s: Seq<char>, lo: int, j: int, cls: CharClass) -> int
    decreases j - lo,
{
    if lo < j && in_class(s[j - 1], cls) {
        run_start(s, lo, j - 1, cls)
    } else {
        j
    }
}

pub proof fn lemma_run_end(s: Seq<char>, i: int, end: int, cls: CharClass)
    requires
        0 <= i <= end <= s.len(),
    ensures
        i <= run_end(s, i, end, cls) <= end,
        forall|k: int| i <= k < run_end(s, i, end, cls) ==> in_class(#[trigger] s[k], cls),
        run_end(s, i, end, cls) < end ==> !in_class(s[run_end(s, i, end, cls)], cls),
    decreases end - i,
{
    if i < end && in_class(s[i], cls) {
        lemma_run_end(s, i + 1, end, cls);
    }
}

pub proof fn lemma_run_start(s: Seq<char>, lo: int, j: int, cls: CharClass)
    requires
        0 <= lo <= j <= s.len(),
    ensures
        lo <= run_start(s, lo, j, cls) <= j,
        forall|k: int| run_start(s, lo, j, cls) <= k < j ==> in_class(#[trigger] s[k], cls),
        run_start(s, lo, j, cls) > lo ==> !in_class(s[run_start(s, lo, j, cls) - 1], cls),
    decreases j - lo,
{
    if lo < j && in_class(s[j - 1], cls) {
        lemma_run_start(s, lo, j - 1, cls);
    }
}

/// Index of the first character after the run of `cls` starting at `i`.
pub fn run_end_exec(s: &[char], i: usize, end: usize, cls: CharClass) -> (r: usize)
    requires
        i <= end <= s@.len(),
    ensures
        r == run_end(s@, i as int, end as int, cls),
        i <= r <= end,
{
    let mut k = i;
    while k < end && in_class_exec(s[k], cls)
        invariant
            i <= k <= end <= s@.len(),
            run_end(s@, i as int, end as int, cls) == run_end(s@, k as int, end as int, cls),
        decreases end - k,
    {
        k = k + 1;
    }
    proof {
        lemma_run_end(s@, i as int, end as int, cls);
    }
    k
}

/// Index of the first character of the run of `cls` ending at `j`.
pub fn run_start_exec(s: &[char], lo: usize, j: usize, cls: CharClass) -> (r: usize)
    requires
        lo <= j <= s@.len(),
    ensures
        r == run_start(s@, lo as int, j as int, cls),
        lo <= r <= j,
{
    let mut k = j;
    while lo < k && in_class_exec(s[k - 1], cls)
        invariant
            lo <= k <= j <= s@.len(),
            run_start(s@, lo as int, j as int, cls) == run_start(s@, lo as int, k as int, cls),
        decreases k - lo,
    {
        k = k - 1;
    }
    proof {
        lemma_run_start(s@, lo as int, j as int, cls);
    }
    k
}

/// `str::trim_start` over characters.
pub open spec fn trim_start(s: Seq<char>) -> Seq<char> {
    s.subrange(run_end(s, 0, s.len() as int, CharClass::Whitespace), s.len() as int)
}

/// `str::trim_end` over characters.
pub open spec fn trim_end(s: Seq<char>) -> Seq<char> {
    s.subrange(0, run_start(s, 0, s.len() as int, CharClass::Whitespace))
}

/// `str::trim` over characters.
pub open spec fn trim(s: Seq<char>) -> Seq<char> {
    trim_end(trim_start(s))
}

/// `str::trim_start_matches(c)` for a single character.
pub open spec fn trim_start_matches(s: Seq<char>, c: char) -> Seq<char> {
    s.subrange(run_end(s, 0, s.len() as int, CharClass::Is(c)), s.len() as int)
}

/// `str::trim_end_matches(c)` for a single character.
pub open spec fn trim_end_matches(s: Seq<char>, c: char) -> Seq<char> {
    s.subrange(0, run_start(s, 0, s.len() as int, CharClass::Is(c)))
}

/// `str::trim_matches(c)` for a single character.
pub open spec fn trim_matches(s: Seq<char>, c: char) -> Seq<char> {
    trim_end_matches(trim_start_matches(s, c), c)
}

/// The characters of `s[a..b]` as a vector.
pub fn slice_chars(s: &[char], a: usize, b: usize) -> (r: Vec<char>)
    requires
        a <= b <= s@.len(),
    ensures
        r@ == s@.subrange(a as int, b as int),
{
    let mut r: Vec<char> = Vec::new();
    let mut k = a;
    while k < b
        invariant
            a <= k <= b <= s@.len(),
            r@ == s@.subrange(a as int, k as int),
        decreases b - k,
    {
        r.push(s[k]);
        k = k + 1;
        assert(r@ =~= s@.subrange(a as int, k as int));
    }
    r
}

/// Bounds `(a, b)` such that `s[a..b]` is `trim(s[lo..hi])`.
pub fn trim_bounds(s: &[char], lo: usize, hi: usize) -> (r: (usize, usize))
    requires
        lo <= hi <= s@.len(),
    ensures
        lo <= r.0 <= r.1 <= hi,
        s@.subrange(r.0 as int, r.1 as int) == trim(s@.subrange(lo as int, hi as int)),
{
    let a = run_end_exec(s, lo, hi, CharClass::Whitespace);
    let b = run_start_exec(s, a, hi, CharClass::Whitespace);
    proof {
        let t = s@.subrange(lo as int, hi as int);
        lemma_run_end_shift(s@, lo as int, hi as int, CharClass::Whitespace);
        let ts = trim_start(t);
        assert(ts =~= s@.subrange(a as int, hi as int));
        lemma_run_start_shift(s@, a as int, hi as int, CharClass::Whitespace);
    }
    (a, b)
}

/// `run_end` is invariant under taking the subrange that starts at `lo`.
pub proof fn lemma_run_end_shift(s: Seq<char>, lo: int, hi: int, cls: CharClass)
    requires
        0 <= lo <= hi <= s.len(),
    ensures
        run_end(s.subrange(lo, hi), 0, hi - lo, cls) + lo == run_end(s, lo, hi, cls),
{
    lemma_run_end_shift_from(s, lo, hi, lo, cls);
}

proof fn lemma_run_end_shift_from(s: Seq<char>, lo: int, hi: int, i: int, cls: CharClass)
    requires
        0 <= lo <= i <= hi <= s.len(),
    ensures
        run_end(s.subrange(lo, hi), i - lo, hi - lo, cls) + lo == run_end(s, i, hi, cls),
    decreases hi - i,
{
    if i < hi {
        assert(s.subrange(lo, hi)[i - lo] == s[i]);
        lemma_run_end_shift_from(s, lo, hi, i + 1, cls);
    }
}

/// `run_start` is invariant under taking the subrange that starts at `lo`.
pub proof fn lemma_run_start_shift(s: Seq<char>, lo: int, hi: int, cls: CharClass)
    requires
        0 <= lo <= hi <= s.len(),
    ensures
        run_start(s.subrange(lo, hi), 0, hi - lo, cls) + lo == run_start(s, lo, hi, cls),
{
    lemma_run_start_shift_from(s, lo, hi, hi, cls);
}

proof fn lemma_run_start_shift_from(s: Seq<char>, lo: int, hi: int, j: int, cls: CharClass)
    requires
        0 <= lo <= j <= hi <= s.len(),
    ensures
        run_start(s.subrange(lo, hi), 0, j - lo, cls) + lo == run_start(s, lo, j, cls),
    decreases j - lo,
{
    if lo < j {
        assert(s.subrange(lo, hi)[j - 1 - lo] == s[j - 1]);
        lemma_run_start_shift_from(s, lo, hi, j - 1, cls);
    }
}

/// Index of the first occurrence of `c` in `s[lo..hi]`, if any.
pub open spec fn find_char(s: Seq<char>, lo: int, hi: int, c: char) -> Option<int> {
    let k = run_end(s, lo, hi, CharClass::Not(c));
    if k < hi {
        Some(k)
    } else {
        None
    }
}

pub fn find_char_exec(s: &[char], lo: usize, hi: usize, c: char) -> (r: Option<usize>)
    requires
        lo <= hi <= s@.len(),
    ensures
        r matches Some(k) ==> find_char(s@, lo as int, hi as int, c) == Some(k as int),
        r matches Some(k) ==> lo <= k < hi && s@[k as int] == c,
        r is None ==> find_char(s@, lo as int, hi as int, c) is None,
{
    let k = run_end_exec(s, lo, hi, CharClass::Not(c));
    proof {
        lemma_run_end(s@, lo as int, hi as int, CharClass::Not(c));
    }
    if k < hi {
        Some(k)
    } else {
        None
    }
}

/// The characters of a `str`.
pub fn chars_of(s: &str) -> (r: Vec<char>)
    ensures
        r@ == s@,
{
    let mut r: Vec<char> = Vec::new();
    broadcast use vstd::string::group_string_axioms;
    for c in it: s.chars()
        invariant
            it.seq() == s@,
            r@ == it.seq().take(it.index() as int),
    {
        r.push(c);
    }
    assert(r@ =~= s@);
    r
}

/// The `String` holding exactly the given characters.
#[verifier::external_body]
pub fn string_from_chars(v: &[char]) -> (r: String)
    ensures
        r@ == v@,
{
    v.iter().collect()
}

/// Number of bytes in the UTF-8 encoding of `c`.
pub open spec fn char_width(c: char) -> nat {
    if (c as u32) < 0x80 {
        1
    } else if (c as u32) < 0x800 {
        2
    } else if (c as u32) < 0x10000 {
        3
    } else {
        4
    }
}

/// Number of bytes in the UTF-8 encoding of `s`.
pub open spec fn byte_len(s: Seq<char>) -> nat
    decreases s.len(),
{
    if s.len() == 0 {
        0
    } else {
        byte_len(s.drop_last()) + char_width(s.last())
    }
}

pub fn char_width_exec(c: char) -> (r: usize)
    ensures
        r == char_width(c),
        1 <= r <= 4,
{
    let u = c as u32;
    if u < 0x80 {
        1
    } else if u < 0x800 {
        2
    } else if u < 0x10000 {
        3
    } else {
        4
    }
}

pub proof fn lemma_byte_len_bounds(s: Seq<char>)
    ensures
        s.len() <= byte_len(s) <= 4 * s.len(),
    decreases s.len(),
{
    if s.len() > 0 {
        lemma_byte_len_bounds(s.drop_last());
    }
}

pub proof fn lemma_byte_len_push(s: Seq<char>, c: char)
    ensures
        byte_len(s.push(c)) == byte_len(s) + char_width(c),
{
    assert(s.push(c).drop_last() =~= s);
}

/// Number of bytes in the UTF-8 encoding of `s[a..b]`; `None` if it does not fit in a `usize`.
pub fn byte_len_exec(s: &[char], a: usize, b: usize) -> (r: Option<usize>)
    requires
        a <= b <= s@.len(),
    ensures
        r matches Some(n) ==> n == byte_len(s@.subrange(a as int, b as int)),
        r is None ==> byte_len(s@.subrange(a as int, b as int)) > usize::MAX,
{
    let mut n: usize = 0;
    let mut k = a;
    while k < b
        invariant
            a <= k <= b <= s@.len(),
            n == byte_len(s@.subrange(a as int, k as int)),
        decreases b - k,
    {
        let w = char_width_exec(s[k]);
        proof {
            assert(s@.subrange(a as int, k + 1) =~= s@.subrange(a as int, k as int).push(s@[k as int]));
            lemma_byte_len_push(s@.subrange(a as int, k as int), s@[k as int]);
        }
        if n > usize::MAX - w {
            proof {
                lemma_byte_len_prefix_monotone(s@.subrange(a as int, b as int), (k + 1 - a) as int);
                assert(s@.subrange(a as int, b as int).subrange(0, (k + 1 - a) as int) =~= s@.subrange(a as int, k + 1));
            }
            return None;
        }
        n = n + w;
        k = k + 1;
    }
    Some(n)
}

pub proof fn lemma_byte_len_prefix_monotone(s: Seq<char>, k: int)
    requires
        0 <= k <= s.len(),
    ensures
        byte_len(s.subrange(0, k)) <= byte_len(s),
    decreases s.len() - k,
{
    if k < s.len() {
        lemma_byte_len_prefix_monotone(s, k + 1);
        assert(s.subrange(0, k + 1) =~= s.subrange(0, k).push(s[k]));
        lemma_byte_len_push(s.subrange(0, k), s[k]);
    } else {
        assert(s.subrange(0, k) =~= s);
    }
}

/// Character sequences are equal.
pub fn chars_eq(a: &[char], b: &[char]) -> (r: bool)
    ensures
        r == (a@ == b@),
{
    if a.len() != b.len() {
        return false;
    }
    let mut k: usize = 0;
    while k < a.len()
        invariant
            a@.len() == b@.len(),
            0 <= k <= a@.len(),
            forall|j: int| 0 <= j < k ==> a@[j] == b@[j],
        decreases a@.len() - k,
    {
        if a[k] != b[k] {
            return false;
        }
        k = k + 1;
    }
    assert(a@ =~= b@);
    true
}

/// Two strings hold the same characters.
pub fn str_eq(a: &str, b: &str) -> (r: bool)
    ensures
        r == (a@ == b@),
{
    let x = chars_of(a);
    let y = chars_of(b);
    chars_eq(x.as_slice(), y.as_slice())
}

/// Pieces of `s[pos..]` between occurrences of `c` (`str::split(c)` semantics).
pub open spec fn split_from(s: Seq<char>, c: char, pos: int) -> Seq<Seq<char>>
    decreases s.len() - pos,
{
    if pos < 0 || pos > s.len() {
        seq![]
    } else {
        match find_char(s, pos, s.len() as int, c) {
            Some(k) => {
                proof {
                    lemma_run_end(s, pos, s.len() as int, CharClass::Not(c));
                }
                seq![s.subrange(pos, k)] + split_from(s, c, k + 1)
            },
            None => seq![s.subrange(pos, s.len() as int)],
        }
    }
}

/// `str::split(c)` over characters.
pub open spec fn split(s: Seq<char>, c: char) -> Seq<Seq<char>> {
    split_from(s, c, 0)
}

/// `s[r..hi] == trim_start(s[lo..hi])`
pub fn trim_start_bounds(s: &[char], lo: usize, hi: usize) -> (r: usize)
    requires
        lo <= hi <= s@.len(),
    ensures
        lo <= r <= hi,
        s@.subrange(r as int, hi as int) == trim_start(s@.subrange(lo as int, hi as int)),
{
    let a = run_end_exec(s, lo, hi, CharClass::Whitespace);
    proof {
        lemma_run_end_shift(s@, lo as int, hi as int, CharClass::Whitespace);
        assert(s@.subrange(a as int, hi as int) =~= trim_start(s@.subrange(lo as int, hi as int)));
    }
    a
}

/// `s[lo..r] == trim_end(s[lo..hi])`
pub fn trim_end_bounds(s: &[char], lo: usize, hi: usize) -> (r: usize)
    requires
        lo <= hi <= s@.len(),
    ensures
        lo <= r <= hi,
        s@.subrange(lo as int, r as int) == trim_end(s@.subrange(lo as int, hi as int)),
{
    let b = run_start_exec(s, lo, hi, CharClass::Whitespace);
    proof {
        lemma_run_start_shift(s@, lo as int, hi as int, CharClass::Whitespace);
        assert(s@.subrange(lo as int, b as int) =~= trim_end(s@.subrange(lo as int, hi as int)));
    }
    b
}

/// `s[r..hi] == trim_start_matches(s[lo..hi], c)`
pub fn trim_start_matches_bounds(s: &[char], lo: usize, hi: usize, c: char) -> (r: usize)
    requires
        lo <= hi <= s@.len(),
    ensures
        lo <= r <= hi,
        s@.subrange(r as int, hi as int) == trim_start_matches(s@.subrange(lo as int, hi as int), c),
{
    let a = run_end_exec(s, lo, hi, CharClass::Is(c));
    proof {
        lemma_run_end_shift(s@, lo as int, hi as int, CharClass::Is(c));
        assert(s@.subrange(a as int, hi as int) =~= trim_start_matches(s@.subrange(lo as int, hi as int), c));
    }
    a
}

/// `s[lo..r] == trim_end_matches(s[lo..hi], c)`
pub fn trim_end_matches_bounds(s: &[char], lo: usize, hi: usize, c: char) -> (r: usize)
    requires
        lo <= hi <= s@.len(),
    ensures
        lo <= r <= hi,
        s@.subrange(lo as int, r as int) == trim_end_matches(s@.subrange(lo as int, hi as int), c),
{
    let b = run_start_exec(s, lo, hi, CharClass::Is(c));
    proof {
        lemma_run_start_shift(s@, lo as int, hi as int, CharClass::Is(c));
        assert(s@.subrange(lo as int, b as int) =~= trim_end_matches(s@.subrange(lo as int, hi as int), c));
    }
    b
}

/// `find_char` on a subrange is `find_char` on the whole, shifted.
pub proof fn lemma_find_char_shift(s: Seq<char>, lo: int, hi: int, c: char)
    requires
        0 <= lo <= hi <= s.len(),
    ensures
        find_char(s.subrange(lo, hi), 0, hi - lo, c) == (match find_char(s, lo, hi, c) {
            Some(k) => Some(k - lo),
            None => None,
        }),
{
    lemma_run_end_shift(s, lo, hi, CharClass::Not(c));
}

/// A maximal run ending at `j` may be found from any start inside the run.
pub proof fn lemma_run_end_inside(s: Seq<char>, i: int, j: int, end: int, cls: CharClass)
    requires
        0 <= i <= j <= run_end(s, i, end, cls),
        end <= s.len(),
    ensures
        run_end(s, j, end, cls) == run_end(s, i, end, cls),
    decreases j - i,
{
    if i < j {
        lemma_run_end_inside(s, i + 1, j, end, cls);
    }
}

/// Byte length is additive over concatenation.
pub proof fn lemma_byte_len_concat(a: Seq<char>, b: Seq<char>)
    ensures
        byte_len(a + b) == byte_len(a) + byte_len(b),
    decreases b.len(),
{
    if b.len() == 0 {
        assert(a + b =~= a);
    } else {
        lemma_byte_len_concat(a, b.drop_last());
        assert((a + b).drop_last() =~= a + b.drop_last());
        assert((a + b).last() == b.last());
    }
}

/// The decimal digit character for `d` (`0 <= d < 10`).
pub open spec fn digit_char(d: int) -> char {
    if d == 0 {
        '0'
    } else if d == 1 {
        '1'
    } else if d == 2 {
        '2'
    } else if d == 3 {
        '3'
    } else if d == 4 {
        '4'
    } else if d == 5 {
        '5'
    } else if d == 6 {
        '6'
    } else if d == 7 {
        '7'
    } else if d == 8 {
        '8'
    } else {
        '9'
    }
}

/// Decimal representation of a natural number, without leading zeros.
pub open spec fn nat_text(n: nat) -> Seq<char>
    decreases n,
{
    if n < 10 {
        seq![digit_char(n as int)]
    } else {
        nat_text(n / 10).push(digit_char((n % 10) as int))
    }
}

/// Decimal representation of a signed integer.
pub open spec fn i64_text(v: i64) -> Seq<char> {
    if v < 0 {
        seq!['-'] + nat_text((-v) as nat)
    } else {
        nat_text(v as nat)
    }
}

fn digit_exec(d: u64) -> (r: char)
    requires
        d < 10,
    ensures
        r == digit_char(d as int),
{
    if d == 0 {
        '0'
    } else if d == 1 {
        '1'
    } else if d == 2 {
        '2'
    } else if d == 3 {
        '3'
    } else if d == 4 {
        '4'
    } else if d == 5 {
        '5'
    } else if d == 6 {
        '6'
    } else if d == 7 {
        '7'
    } else if d == 8 {
        '8'
    } else {
        '9'
    }
}

/// Decimal digits of `n`.
pub fn nat_to_chars(n: u64) -> (r: Vec<char>)
    ensures
        r@ == nat_text(n as nat),
    decreases n,
{
    if n < 10 {
        let mut v: Vec<char> = Vec::new();
        v.push(digit_exec(n));
        proof {
            assert(v@ =~= seq![digit_char(n as int)]);
        }
        v
    } else {
        let mut v = nat_to_chars(n / 10);
        v.push(digit_exec(n % 10));
        v
    }
}

/// Decimal digits of `v`, with a leading `-` when negative.
pub fn i64_to_chars(v: i64) -> (r: Vec<char>)
    ensures
        r@ == i64_text(v),
{
    if v < 0 {
        let m: u64 = (-(v as i128)) as u64;
        let mut r: Vec<char> = Vec::new();
        r.push('-');
        let mut d = nat_to_chars(m);
        r.append(&mut d);
        proof {
            assert(r@ =~= seq!['-'] + nat_text((-v) as nat));
        }
        r
    } else {
        nat_to_chars(v as u64)
    }
}

/// Decimal text of a `usize`.
pub fn usize_to_string(n: usize) -> (r: String)
    ensures
        r@ == nat_text(n as nat),
{
    let v = nat_to_chars(n as u64);
    string_from_chars(v.as_slice())
}

/// A run that stops at a character outside the class ends there.
pub proof fn lemma_run_end_to(s: Seq<char>, i: int, r: int, e: int, cls: CharClass)
    requires
        0 <= i <= r < e <= s.len(),
        forall|k: int| i <= k < r ==> in_class(#[trigger] s[k], cls),
        !in_class(s[r], cls),
    ensures
        run_end(s, i, e, cls) == r,
    decreases r - i,
{
    if i < r {
        lemma_run_end_to(s, i + 1, r, e, cls);
    }
}

/// The lowercase hexadecimal digit for `d` (`0 <= d < 16`).
pub open spec fn hex_digit(d: int) -> char {
    if d < 10 {
        digit_char(d)
    } else if d == 10 {
        'a'
    } else if d == 11 {
        'b'
    } else if d == 12 {
        'c'
    } else if d == 13 {
        'd'
    } else if d == 14 {
        'e'
    } else {
        'f'
    }
}

/// Lowercase hexadecimal representation of a natural number, without leading zeros.
pub open spec fn hex_text(n: nat) -> Seq<char>
    decreases n,
{
    if n < 16 {
        seq![hex_digit(n as int)]
    } else {
        hex_text(n / 16).push(hex_digit((n % 16) as int))
    }
}

fn hex_digit_exec(d: u32) -> (r: char)
    requires
        d < 16,
    ensures
        r == hex_digit(d as int),
{
    if d < 10 {
        digit_exec(d as u64)
    } else if d == 10 {
        'a'
    } else if d == 11 {
        'b'
    } else if d == 12 {
        'c'
    } else if d == 13 {
        'd'
    } else if d == 14 {
        'e'
    } else {
        'f'
    }
}

fn hex_chars(n: u32) -> (r: Vec<char>)
    ensures
        r@ == hex_text(n as nat),
    decreases n,
{
    if n < 16 {
        let mut v: Vec<char> = Vec::new();
        v.push(hex_digit_exec(n));
        proof {
            assert(v@ =~= seq![hex_digit(n as int)]);
        }
        v
    } else {
        let mut v = hex_chars(n / 16);
        v.push(hex_digit_exec(n % 16));
        v
    }
}

/// `char::escape_default`: the character as it would be written in a Rust
/// character literal.
pub open spec fn escape_char(c: char) -> Seq<char> {
    if c == '\t' {
        seq!['\\', 't']
    } else if c == '\r' {
        seq!['\\', 'r']
    } else if c == '\n' {
        seq!['\\', 'n']
    } else if c == '\\' {
        seq!['\\', '\\']
    } else if c == '\'' {
        seq!['\\', '\'']
    } else if c == '"' {
        seq!['\\', '"']
    } else if ' ' <= c && c <= '~' {
        seq![c]
    } else {
        seq!['\\', 'u', '{'] + hex_text(c as u32 as nat) + seq!['}']
    }
}

/// `str::escape_default` over characters.
pub open spec fn escape_seq(s: Seq<char>) -> Seq<char>
    decreases s.len(),
{
    if s.len() == 0 {
        seq![]
    } else {
        escape_seq(s.drop_last()) + escape_char(s.last())
    }
}

/// Appends the escaped form of `s[a..b]` to `out`.
pub fn push_escaped(out: &mut Vec<char>, s: &[char], a: usize, b: usize)
    requires
        a <= b <= s@.len(),
    ensures
        final(out)@ == old(out)@ + escape_seq(s@.subrange(a as int, b as int)),
{
    let ghost base = out@;
    let mut k = a;
    proof {
        assert(s@.subrange(a as int, a as int) =~= Seq::<char>::empty());
        assert(out@ =~= base + escape_seq(s@.subrange(a as int, k as int)));
    }
    while k < b
        invariant
            a <= k <= b <= s@.len(),
            out@ == base + escape_seq(s@.subrange(a as int, k as int)),
        decreases b - k,
    {
        let c = s[k];
        let ghost before = out@;
        if c == '\t' {
            out.push('\\');
            out.push('t');
        } else if c == '\r' {
            out.push('\\');
            out.push('r');
        } else if c == '\n' {
            out.push('\\');
            out.push('n');
        } else if c == '\\' {
            out.push('\\');
            out.push('\\');
        } else if c == '\'' {
            out.push('\\');
            out.push('\'');
        } else if c == '"' {
            out.push('\\');
            out.push('"');
        } else if ' ' <= c && c <= '~' {
            out.push(c);
        } else {
            out.push('\\');
            out.push('u');
            out.push('{');
            let mut h = hex_chars(c as u32);
            out.append(&mut h);
            out.push('}');
        }
        proof {
            assert(out@ =~= before + escape_char(c));
            assert(s@.subrange(a as int, k + 1).drop_last() =~= s@.subrange(a as int, k as int));
        }
        k = k + 1;
    }
}

/// Appends the characters of `s` to `out`.
pub fn push_str(out: &mut Vec<char>, s: &str)
    ensures
        final(out)@ == old(out)@ + s@,
{
    let mut v = chars_of(s);
    out.append(&mut v);
}

/// Appends `n` copies of `c` to `out`.
pub fn push_repeat(out: &mut Vec<char>, c: char, n: usize)
    ensures
        final(out)@ == old(out)@ + Seq::new(n as nat, |_i: int| c),
{
    let ghost base = out@;
    let mut k: usize = 0;
    while k < n
        invariant
            0 <= k <= n,
            out@ == base + Seq::new(k as nat, |_i: int| c),
        decreases n - k,
    {
        out.push(c);
        k = k + 1;
        proof {
            assert(out@ =~= base + Seq::new(k as nat, |_i: int| c));
        }
    }
}

/// The lines of `s[pos..]` as `str::lines` gives them: pieces between line
/// feeds, a carriage return before a line feed dropped, no empty last line
/// after a final line feed.
pub open spec fn lines_from(s: Seq<char>, pos: int) -> Seq<Seq<char>>
    decreases s.len() - pos,
{
    if pos < 0 || pos >= s.len() {
        seq![]
    } else {
        match find_char(s, pos, s.len() as int, '\n') {
            Some(k) => {
                proof {
                    lemma_run_end(s, pos, s.len() as int, CharClass::Not('\n'));
                }
                seq![strip_cr(s.subrange(pos, k))] + lines_from(s, k + 1)
            },
            None => seq![s.subrange(pos, s.len() as int)],
        }
    }
}

/// `s` without one final carriage return.
pub open spec fn strip_cr(s: Seq<char>) -> Seq<char> {
    if s.len() > 0 && s.last() == '\r' {
        s.drop_last()
    } else {
        s
    }
}

/// `str::lines` over characters.
pub open spec fn lines(s: Seq<char>) -> Seq<Seq<char>> {
    lines_from(s, 0)
}

/// The line at index `idx` of `s`, if `s` has that many lines.
pub fn nth_line(s: &[char], idx: usize) -> (r: Option<Vec<char>>)
    ensures
        idx < lines(s@).len() ==> (r matches Some(l) && l@ == lines(s@)[idx as int]),
        idx >= lines(s@).len() ==> r is None,
{
    let n = s.len();
    let mut pos: usize = 0;
    let mut k: usize = 0;
    let ghost before: Seq<Seq<char>> = seq![];
    while k < idx
        invariant
            pos <= n == s@.len(),
            k <= idx,
            before.len() == k,
            lines(s@) == before + lines_from(s@, pos as int),
        decreases idx - k,
    {
        if pos >= n {
            proof {
                assert(before + lines_from(s@, pos as int) =~= before);
            }
            return None;
        }
        match find_char_exec(s, pos, n, '\n') {
            Some(j) => {
                proof {
                    lemma_run_end(s@, pos as int, n as int, CharClass::Not('\n'));
                    let l = strip_cr(s@.subrange(pos as int, j as int));
                    assert(lines(s@) =~= before.push(l) + lines_from(s@, j + 1));
                    before = before.push(l);
                }
                pos = j + 1;
            },
            None => {
                proof {
                    let l = s@.subrange(pos as int, n as int);
                    assert(lines_from(s@, n as int) =~= Seq::<Seq<char>>::empty());
                    assert(lines(s@) =~= before.push(l) + lines_from(s@, n as int));
                    before = before.push(l);
                }
                pos = n;
            },
        }
        k = k + 1;
    }
    if pos >= n {
        proof {
            assert(before + lines_from(s@, pos as int) =~= before);
        }
        return None;
    }
    match find_char_exec(s, pos, n, '\n') {
        Some(j) => {
            proof {
                lemma_run_end(s@, pos as int, n as int, CharClass::Not('\n'));
            }
            let mut b = j;
            if b > pos && s[b - 1] == '\r' {
                b = b - 1;
            }
            let l = slice_chars(s, pos, b);
            proof {
                assert(l@ =~= strip_cr(s@.subrange(pos as int, j as int)));
                assert((before + lines_from(s@, pos as int))[idx as int] == lines_from(s@, pos as int)[0]);
            }
            Some(l)
        },
        None => {
            let l = slice_chars(s, pos, n);
            proof {
                assert((before + lines_from(s@, pos as int))[idx as int] == lines_from(s@, pos as int)[0]);
            }
            Some(l)
        },
    }
}

/// The bytes of a piece of `s` are at most the bytes of `s`.
pub proof fn lemma_byte_len_subrange(s: Seq<char>, a: int, b: int)
    requires
        0 <= a <= b <= s.len(),
    ensures
        byte_len(s.subrange(a, b)) <= byte_len(s),
{
    lemma_byte_len_concat(s.subrange(0, a), s.subrange(a, b));
    lemma_byte_len_concat(s.subrange(0, b), s.subrange(b, s.len() as int));
    assert(s.subrange(0, a) + s.subrange(a, b) =~= s.subrange(0, b));
    assert(s.subrange(0, b) + s.subrange(b, s.len() as int) =~= s);
}

/// All the lines of `s`, as `str::lines` gives them.
pub fn split_lines(s: &[char]) -> (r: Vec<Vec<char>>)
    ensures
        r@.len() == lines(s@).len(),
        forall|k: int| 0 <= k < r@.len() ==> (#[trigger] r@[k])@ == lines(s@)[k],
        forall|k: int| 0 <= k < r@.len() ==> byte_len((#[trigger] r@[k])@) <= byte_len(s@),
{
    let n = s.len();
    let mut out: Vec<Vec<char>> = Vec::new();
    let mut pos: usize = 0;
    let ghost acc: Seq<Seq<char>> = seq![];
    while pos < n
        invariant
            pos <= n == s@.len(),
            out@.len() == acc.len(),
            forall|k: int| 0 <= k < out@.len() ==> (#[trigger] out@[k])@ == acc[k],
            forall|k: int| 0 <= k < out@.len() ==> byte_len((#[trigger] out@[k])@) <= byte_len(s@),
            lines(s@) == acc + lines_from(s@, pos as int),
        decreases n - pos,
    {
        match find_char_exec(s, pos, n, '\n') {
            Some(j) => {
                proof {
                    lemma_run_end(s@, pos as int, n as int, CharClass::Not('\n'));
                }
                let mut b = j;
                if b > pos && s[b - 1] == '\r' {
                    b = b - 1;
                }
                let l = slice_chars(s, pos, b);
                proof {
                    let t = strip_cr(s@.subrange(pos as int, j as int));
                    assert(l@ =~= t);
                    lemma_byte_len_subrange(s@, pos as int, b as int);
                    assert(lines(s@) =~= acc.push(t) + lines_from(s@, j + 1));
                    acc = acc.push(t);
                }
                out.push(l);
                pos = j + 1;
            },
            None => {
                let l = slice_chars(s, pos, n);
                proof {
                    let t = s@.subrange(pos as int, n as int);
                    lemma_byte_len_subrange(s@, pos as int, n as int);
                    assert(lines_from(s@, n as int) =~= Seq::<Seq<char>>::empty());
                    assert(lines(s@) =~= acc.push(t) + lines_from(s@, n as int));
                    acc = acc.push(t);
                }
                out.push(l);
                pos = n;
            },
        }
    }
    proof {
        assert(acc + lines_from(s@, pos as int) =~= acc);
    }
    out
}

/// `pat` occurs in `s`.
pub open spec fn contains_seq(s: Seq<char>, pat: Seq<char>) -> bool {
    exists|i: int| 0 <= i && i + pat.len() <= s.len() && #[trigger] s.subrange(i, i + pat.len()) == pat
}

/// Whether `pat` occurs in `s`.
pub fn contains_str(s: &str, pat: &str) -> (r: bool)
    ensures
        r == contains_seq(s@, pat@),
{
    let c = chars_of(s);
    let p = chars_of(pat);
    if p.len() > c.len() {
        return false;
    }
    if p.len() == 0 {
        proof {
            assert(s@.subrange(0, 0 + pat@.len() as int) =~= pat@);
        }
        return true;
    }
    let mut i: usize = 0;
    let pl = p.len();
    let last = c.len() - pl;
    while i <= last
        invariant
            p@.len() <= c@.len(),
            last == c@.len() - p@.len(),
            pl == p@.len(),
            c@.len() <= usize::MAX,
            c@ == s@,
            p@ == pat@,
            p@.len() > 0,
            0 <= i <= last + 1,
            forall|j: int| 0 <= j < i ==> #[trigger] c@.subrange(j, j + p@.len()) != p@,
        decreases last + 1 - i,
    {
        let w = slice_chars(c.as_slice(), i, i + pl);
        if chars_eq(w.as_slice(), p.as_slice()) {
            return true;
        }
        i = i + 1;
    }
    false
}

} // verus!
