//! The token stream that a source text stands for, stated over the token rules.
//!
//! Walking the rules from the start of the text gives a sequence of lexemes.
//! Whitespace, comments and line breaks carry no token of their own in this
//! sequence (line breaks become layout tokens), a position where no rule
//! matches is an error, and a rule whose text is rejected by its conversion
//! (an integer beyond `i64`, an empty directive) is an error as well. Lexing
//! resumes after each error.

use vstd::prelude::*;

use crate::error::Location;
use crate::lexer::scan::{lemma_scan_advances, raw_token_ok, scan, Lexeme};
use crate::lexer::source::{
    byte_offsets, lemma_byte_offsets_ok, lemma_newline_offsets_bounds, lemma_offsets_grow, location_in,
    newline_offsets_in,
};
use crate::text::byte_len;
use crate::lexer::token::{raw_to_token, RawKind, RawToken, Token};

verus! {

/// The conversion of the rule `k` accepts the text `s[i..e]` it matched.
pub open spec fn payload_ok(s: Seq<char>, i: int, k: RawKind, e: int) -> bool {
    !raw_token_ok(s, i, k, e, None)
}

/// The rule `k` matched at `s[i..e]` yields a token of its own.
pub open spec fn yields_token(s: Seq<char>, i: int, k: RawKind, e: int) -> bool {
    k != RawKind::Comment && k != RawKind::Newline && payload_ok(s, i, k, e)
}

/// The kinds and extents `(kind, start, end)` of the tokens that the text
/// yields from position `i` on, in order.
pub open spec fn spans_from(s: Seq<char>, i: int) -> Seq<(RawKind, int, int)>
    decreases s.len() - i,
{
    if i < 0 || i >= s.len() {
        seq![]
    } else {
        let (lx, e) = scan(s, i);
        if e <= i || e > s.len() {
            seq![]
        } else {
            match lx {
                Lexeme::Token(k) => if yields_token(s, i, k, e) {
                    seq![(k, i, e)] + spans_from(s, e)
                } else {
                    spans_from(s, e)
                },
                _ => spans_from(s, e),
            }
        }
    }
}

/// The lexeme at `i` is an error: no rule matches, or the matched text is rejected.
pub open spec fn lexeme_fails(s: Seq<char>, i: int) -> bool {
    match scan(s, i).0 {
        Lexeme::Fail => true,
        Lexeme::Token(k) => !payload_ok(s, i, k, scan(s, i).1),
        Lexeme::Skip => false,
    }
}

/// The text lexes without error from position `i` on.
pub open spec fn lex_ok(s: Seq<char>, i: int) -> bool
    decreases s.len() - i,
{
    if i < 0 || i >= s.len() {
        true
    } else {
        let e = scan(s, i).1;
        if e <= i || e > s.len() {
            true
        } else {
            !lexeme_fails(s, i) && lex_ok(s, e)
        }
    }
}

/// `t` is the token that the rule `k` gives for the text `s[i..e]`.
pub open spec fn token_matches(s: Seq<char>, span: (RawKind, int, int), t: Token) -> bool {
    exists|rt: RawToken| #[trigger]
        raw_token_ok(s, span.1, span.0, span.2, Some(rt)) && raw_to_token(rt) == t
}

/// The tokens `ts` are, one for one, the tokens of the extents `sp`.
pub open spec fn tokens_match(s: Seq<char>, sp: Seq<(RawKind, int, int)>, ts: Seq<Token>) -> bool {
    sp.len() == ts.len() && forall|k: int| 0 <= k < sp.len() ==> token_matches(s, #[trigger] sp[k], ts[k])
}

/// The tokens other than the layout tokens (`NEWLINE`, `INDENT`, `DEDENT`), in order.
pub open spec fn non_layout(ts: Seq<Token>) -> Seq<Token>
    decreases ts.len(),
{
    if ts.len() == 0 {
        seq![]
    } else if ts.last().is_layout() {
        non_layout(ts.drop_last())
    } else {
        non_layout(ts.drop_last()).push(ts.last())
    }
}

/// The tokens of a sequence of spanned tokens.
pub open spec fn tokens_of<L>(v: Seq<(L, Token, L)>) -> Seq<Token> {
    v.map_values(|x: (L, Token, L)| x.1)
}

/// One step of the walk: what the lexeme at `i` contributes.
pub proof fn lemma_spans_step(s: Seq<char>, i: int)
    requires
        0 <= i < s.len(),
    ensures
        i < scan(s, i).1 <= s.len(),
        scan(s, i).0 matches Lexeme::Token(k) ==> (yields_token(s, i, k, scan(s, i).1) ==> spans_from(s, i)
            == seq![(k, i, scan(s, i).1)] + spans_from(s, scan(s, i).1)),
        scan(s, i).0 matches Lexeme::Token(k) ==> (!yields_token(s, i, k, scan(s, i).1) ==> spans_from(s, i)
            == spans_from(s, scan(s, i).1)),
        !(scan(s, i).0 is Token) ==> spans_from(s, i) == spans_from(s, scan(s, i).1),
        lex_ok(s, i) == (!lexeme_fails(s, i) && lex_ok(s, scan(s, i).1)),
{
    lemma_scan_advances(s, i);
}

/// `non_layout` distributes over concatenation.
pub proof fn lemma_non_layout_concat(a: Seq<Token>, b: Seq<Token>)
    ensures
        non_layout(a + b) == non_layout(a) + non_layout(b),
    decreases b.len(),
{
    if b.len() == 0 {
        assert(a + b =~= a);
        assert(non_layout(b) =~= Seq::<Token>::empty());
        assert(non_layout(a) + non_layout(b) =~= non_layout(a));
    } else {
        lemma_non_layout_concat(a, b.drop_last());
        assert((a + b).drop_last() =~= a + b.drop_last());
        assert((a + b).last() == b.last());
        if b.last().is_layout() {
        } else {
            assert(non_layout(a) + non_layout(b.drop_last()).push(b.last()) =~= (non_layout(a)
                + non_layout(b.drop_last())).push(b.last()));
        }
    }
}

/// `non_layout` of a single token.
pub proof fn lemma_non_layout_one(t: Token)
    ensures
        non_layout(seq![t]) == (if t.is_layout() { Seq::<Token>::empty() } else { seq![t] }),
{
    assert(seq![t].drop_last() =~= Seq::<Token>::empty());
    assert(seq![t].last() == t);
    assert(non_layout(Seq::<Token>::empty()) == Seq::<Token>::empty());
    if !t.is_layout() {
        assert(Seq::<Token>::empty().push(t) =~= seq![t]);
    }
}

/// A sequence of layout tokens has no non-layout token.
pub proof fn lemma_non_layout_all_layout(ts: Seq<Token>)
    requires
        forall|k: int| 0 <= k < ts.len() ==> (#[trigger] ts[k]).is_layout(),
    ensures
        non_layout(ts) == Seq::<Token>::empty(),
    decreases ts.len(),
{
    if ts.len() > 0 {
        lemma_non_layout_all_layout(ts.drop_last());
    }
}

/// The byte offsets of the line feeds of the line-break lexemes of the walk
/// from position `i` on, in order.
pub open spec fn breaks_from(s: Seq<char>, i: int) -> Seq<usize>
    decreases s.len() - i,
{
    if i < 0 || i >= s.len() {
        seq![]
    } else {
        let (lx, e) = scan(s, i);
        if e <= i || e > s.len() {
            seq![]
        } else {
            match lx {
                Lexeme::Token(RawKind::Newline) => newline_offsets_in(s, byte_offsets(s), i, e) + breaks_from(s, e),
                _ => breaks_from(s, e),
            }
        }
    }
}

/// The location of position `i` of `s`: its line counts the line feeds of
/// the line-break lexemes before it, its column the bytes since the last one.
pub open spec fn loc_at(s: Seq<char>, i: int) -> Location {
    location_in(breaks_from(s, 0), byte_offsets(s)[i])
}

/// The tokens `ts` start and end, one for one, where the extents `sp` start and end.
pub open spec fn located_match(s: Seq<char>, sp: Seq<(RawKind, int, int)>, ts: Seq<(Location, Token, Location)>) -> bool {
    &&& sp.len() == ts.len()
    &&& forall|k: int|
        0 <= k < sp.len() ==> (#[trigger] ts[k]).0 == loc_at(s, sp[k].1) && ts[k].2 == loc_at(s, sp[k].2)
}

/// One step of the walk of line breaks.
pub proof fn lemma_breaks_step(s: Seq<char>, i: int)
    requires
        0 <= i < s.len(),
    ensures
        scan(s, i).0 == Lexeme::Token(RawKind::Newline) ==> breaks_from(s, i) == newline_offsets_in(
            s,
            byte_offsets(s),
            i,
            scan(s, i).1,
        ) + breaks_from(s, scan(s, i).1),
        scan(s, i).0 != Lexeme::Token(RawKind::Newline) ==> breaks_from(s, i) == breaks_from(s, scan(s, i).1),
{
    lemma_scan_advances(s, i);
}

/// The line breaks from `i` on lie at or after the byte offset of `i`.
pub proof fn lemma_breaks_after(s: Seq<char>, i: int)
    requires
        0 <= i <= s.len(),
        byte_len(s) <= usize::MAX,
    ensures
        forall|k: int| 0 <= k < breaks_from(s, i).len() ==> #[trigger] breaks_from(s, i)[k] >= byte_offsets(s)[i],
    decreases s.len() - i,
{
    if i < s.len() {
        lemma_scan_advances(s, i);
        let e = scan(s, i).1;
        lemma_breaks_after(s, e);
        lemma_byte_offsets_ok(s);
        lemma_offsets_grow(s, byte_offsets(s), i, e);
        let rest = breaks_from(s, e);
        if scan(s, i).0 == Lexeme::Token(RawKind::Newline) {
            let here = newline_offsets_in(s, byte_offsets(s), i, e);
            lemma_newline_offsets_bounds(s, byte_offsets(s), i, e);
            assert forall|k: int| 0 <= k < breaks_from(s, i).len() implies #[trigger] breaks_from(s, i)[k] >= byte_offsets(s)[i] by {
                if k < here.len() {
                    assert(breaks_from(s, i)[k] == here[k]);
                } else {
                    assert(breaks_from(s, i)[k] == rest[k - here.len()]);
                }
            }
        }
    }
}

/// No line feed lies inside a lexeme other than a line break, from position
/// `i` on (in particular, none inside a string or IRI literal).
pub open spec fn feeds_in_breaks(s: Seq<char>, i: int) -> bool
    decreases s.len() - i,
{
    if i < 0 || i >= s.len() {
        true
    } else {
        let (lx, e) = scan(s, i);
        if e <= i || e > s.len() {
            true
        } else {
            &&& (lx == Lexeme::Token(RawKind::Newline) || forall|k: int| i <= k < e ==> s[k] != '\n')
            &&& feeds_in_breaks(s, e)
        }
    }
}

/// The line feeds of `s[a..c]` are those of `s[a..b]`, then those of `s[b..c]`.
proof fn lemma_feeds_concat(s: Seq<char>, offs: Seq<usize>, a: int, b: int, c: int)
    requires
        a <= b <= c,
    ensures
        newline_offsets_in(s, offs, a, c) == newline_offsets_in(s, offs, a, b) + newline_offsets_in(s, offs, b, c),
    decreases c - b,
{
    if c == b {
        assert(newline_offsets_in(s, offs, a, b) + Seq::<usize>::empty() =~= newline_offsets_in(s, offs, a, b));
    } else {
        lemma_feeds_concat(s, offs, a, b, c - 1);
        if s[c - 1] == '\n' {
            assert(newline_offsets_in(s, offs, a, b) + newline_offsets_in(s, offs, b, c - 1).push(offs[c - 1])
                =~= (newline_offsets_in(s, offs, a, b) + newline_offsets_in(s, offs, b, c - 1)).push(offs[c - 1]));
        }
    }
}

/// A text without a line feed has none to record.
proof fn lemma_feeds_none(s: Seq<char>, offs: Seq<usize>, a: int, b: int)
    requires
        forall|k: int| a <= k < b ==> s[k] != '\n',
    ensures
        newline_offsets_in(s, offs, a, b) == Seq::<usize>::empty(),
    decreases b - a,
{
    if b > a {
        lemma_feeds_none(s, offs, a, b - 1);
    }
}

/// Where no line feed lies outside the line breaks, the line breaks of the
/// walk from `i` on are all the line feeds from `i` on.
proof fn lemma_breaks_are_feeds(s: Seq<char>, i: int)
    requires
        0 <= i <= s.len(),
        feeds_in_breaks(s, i),
    ensures
        breaks_from(s, i) == newline_offsets_in(s, byte_offsets(s), i, s.len() as int),
    decreases s.len() - i,
{
    if i < s.len() {
        lemma_scan_advances(s, i);
        let (lx, e) = scan(s, i);
        lemma_breaks_are_feeds(s, e);
        lemma_feeds_concat(s, byte_offsets(s), i, e, s.len() as int);
        if lx != Lexeme::Token(RawKind::Newline) {
            lemma_feeds_none(s, byte_offsets(s), i, e);
            assert(Seq::<usize>::empty() + breaks_from(s, e) =~= breaks_from(s, e));
        }
    }
}

/// Locations count every line feed: where no line feed lies inside a lexeme
/// other than a line break (none inside a string or IRI literal), the line
/// of a position is one more than the number of line feeds before it, and
/// its column is one more than the number of bytes since the last of them.
pub proof fn lemma_locations_count_line_feeds(s: Seq<char>, i: int)
    requires
        feeds_in_breaks(s, 0),
        0 <= i <= s.len(),
    ensures
        loc_at(s, i) == location_in(newline_offsets_in(s, byte_offsets(s), 0, s.len() as int), byte_offsets(s)[i]),
{
    lemma_breaks_are_feeds(s, 0);
}

} // verus!
