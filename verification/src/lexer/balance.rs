//! The INDENT and DEDENT tokens that the lexer hands out balance.

use vstd::prelude::*;

use crate::error::Location;
use crate::lexer::layout::{
    compact_from, compacted, dedents, indent_stack_ok, indent_width, indentation, lemma_indent_from_bound,
    lemma_levels_at_most, levels_at_most, with_newline,
};
use crate::lexer::layout::{lemma_spanned_back, lemma_spanned_one, spanned_non_layout};
use crate::lexer::scan::{lemma_scan_advances, newline_end, raw_token_ok, scan, Lexeme};
use crate::lexer::source::lemma_chars_within_bytes;
use crate::lexer::stream::{lex_ok, lexeme_fails, loc_at, payload_ok, token_matches};
use crate::lexer::token::{raw_to_token, RawKind, RawToken, Token};
use crate::lexer::{
    comment_follows, initial_state, lemma_accepted, lex_done, lex_step, lex_trace, lexes_to, line_break_queue,
    ok_items, scan_until, LexState, ScanEnd, Spanned,
};
use crate::text::byte_len;
use crate::text::{lemma_run_end, run_end, CharClass};

verus! {

/// How a token moves the depth of blocks: up for INDENT, down for DEDENT.
pub open spec fn depth_step(t: Token) -> int {
    match t {
        Token::Indent => 1,
        Token::Dedent => -1,
        _ => 0,
    }
}

/// The depth of blocks that the tokens `v` reach: one up for each INDENT,
/// one down for each DEDENT.
pub open spec fn depth(v: Seq<Spanned<Token>>) -> int
    decreases v.len(),
{
    if v.len() == 0 {
        0
    } else {
        depth(v.drop_last()) + depth_step(v.last().1)
    }
}

/// No prefix of `v` goes below the depth `lo`.
pub open spec fn never_below(v: Seq<Spanned<Token>>, lo: int) -> bool {
    forall|k: int| 0 <= k <= v.len() ==> depth(#[trigger] v.subrange(0, k)) >= lo
}

/// No form feed of the text starts a line: none comes after a line break
/// with only spaces and tabs between them.
pub open spec fn no_line_start_form_feed(s: Seq<char>) -> bool {
    forall|m: int, i: int|
        #![trigger s[m], s[i]]
        0 <= m < i < s.len() && s[m] == '\n' && s[i] == '\u{c}' ==> exists|x: int|
            m < x < i && #[trigger] s[x] != ' ' && s[x] != '\t'
}

/// Every token of `v` is a DEDENT.
pub open spec fn all_dedent(v: Seq<Spanned<Token>>) -> bool {
    forall|i: int| 0 <= i < v.len() ==> (#[trigger] v[i]).1 is Dedent
}

/// DEDENT tokens, after a NEWLINE or not.
pub open spec fn nl_dedents(b: Seq<Spanned<Token>>) -> bool {
    forall|i: int| 0 <= i < b.len() ==> ((#[trigger] b[i]).1 is Dedent || (i == 0 && b[i].1 is Newline))
}

/// One INDENT, after a NEWLINE or not.
pub open spec fn nl_indent(b: Seq<Spanned<Token>>) -> bool {
    ||| (b.len() == 1 && b[0].1 is Indent)
    ||| (b.len() == 2 && b[0].1 is Newline && b[1].1 is Indent)
}

/// An INDENT, then at least one DEDENT.
pub open spec fn indent_dedents(b: Seq<Spanned<Token>>) -> bool {
    b.len() >= 2 && b[0].1 is Indent && all_dedent(b.drop_first())
}

/// The shapes of a queue between calls: layout tokens of one line break,
/// or those of the end of the text, then the token they come before.
pub open spec fn settled(q: Seq<Spanned<Token>>) -> bool {
    &&& q.len() >= 1
    &&& !q.last().1.is_layout()
    &&& (nl_dedents(q.drop_last()) || nl_indent(q.drop_last()) || (indent_dedents(q.drop_last()) && q.last().1 is Eof))
}

/// `depth` distributes over concatenation.
pub proof fn lemma_depth_concat(a: Seq<Spanned<Token>>, b: Seq<Spanned<Token>>)
    ensures
        depth(a + b) == depth(a) + depth(b),
    decreases b.len(),
{
    if b.len() == 0 {
        assert(a + b =~= a);
    } else {
        lemma_depth_concat(a, b.drop_last());
        assert((a + b).drop_last() =~= a + b.drop_last());
    }
}

/// The depth of one token.
pub proof fn lemma_depth_one(x: Spanned<Token>)
    ensures
        depth(seq![x]) == depth_step(x.1),
{
    assert(seq![x].drop_last() =~= Seq::<Spanned<Token>>::empty());
    assert(depth(Seq::<Spanned<Token>>::empty()) == 0);
    assert(seq![x].last() == x);
}

/// A sequence stays above `lo` exactly when its first part does and the
/// second stays above `lo` less the depth of the first.
pub proof fn lemma_never_below_concat(a: Seq<Spanned<Token>>, b: Seq<Spanned<Token>>, lo: int)
    ensures
        never_below(a + b, lo) <==> (never_below(a, lo) && never_below(b, lo - depth(a))),
{
    if never_below(a + b, lo) {
        assert forall|k: int| 0 <= k <= a.len() implies depth(#[trigger] a.subrange(0, k)) >= lo by {
            assert((a + b).subrange(0, k) =~= a.subrange(0, k));
        }
        assert forall|k: int| 0 <= k <= b.len() implies depth(#[trigger] b.subrange(0, k)) >= lo - depth(a) by {
            assert((a + b).subrange(0, a.len() + k) =~= a + b.subrange(0, k));
            lemma_depth_concat(a, b.subrange(0, k));
        }
    }
    if never_below(a, lo) && never_below(b, lo - depth(a)) {
        assert forall|k: int| 0 <= k <= (a + b).len() implies depth(#[trigger] (a + b).subrange(0, k)) >= lo by {
            if k <= a.len() {
                assert((a + b).subrange(0, k) =~= a.subrange(0, k));
            } else {
                assert((a + b).subrange(0, k) =~= a + b.subrange(0, k - a.len()));
                lemma_depth_concat(a, b.subrange(0, k - a.len()));
            }
        }
    }
}

/// DEDENT tokens right after a DEDENT, or after a NEWLINE with no block
/// opened in the pass, are kept as they are.
proof fn lemma_compact_dedents(
    new: Seq<Spanned<Token>>,
    d: Seq<Spanned<Token>>,
    rest: Seq<Spanned<Token>>,
    stack: Seq<usize>,
)
    requires
        new.len() > 0,
        new.last().1 is Dedent || (new.last().1 is Newline && stack.len() == 0),
        all_dedent(d),
    ensures
        compact_from(new, d + rest, stack) == compact_from(new + d, rest, stack),
    decreases d.len(),
{
    if d.len() == 0 {
        assert(d + rest =~= rest);
        assert(new + d =~= new);
    } else {
        let p = d + rest;
        assert(p[0] == d[0]);
        assert(p.drop_first() =~= d.drop_first() + rest);
        assert(new.drop_last().push(new.last()).push(p[0]) =~= new.push(d[0]));
        assert(compact_from(new, p, stack) == compact_from(new.push(d[0]), d.drop_first() + rest, stack));
        lemma_compact_dedents(new.push(d[0]), d.drop_first(), rest, stack);
        assert(new.push(d[0]) + d.drop_first() =~= new + d);
    }
}

/// A last token other than a layout token is kept after a layout token.
proof fn lemma_compact_tail(new: Seq<Spanned<Token>>, t: Spanned<Token>, stack: Seq<usize>)
    requires
        new.len() > 0,
        new.last().1.is_layout(),
        !t.1.is_layout(),
    ensures
        compact_from(new, seq![t], stack) == new.push(t),
{
    let e = Seq::<Spanned<Token>>::empty();
    assert(seq![t].drop_first() =~= e);
    assert(new.drop_last().push(new.last()) =~= new);
    assert(seq![t][0] == t);
    let top = new.last();
    let here = new.drop_last().len() as usize;
    let st = if stack.len() == 0 || stack.last() != here {
        stack.push(here)
    } else {
        stack
    };
    assert(compact_from(new.push(t), e, stack) == new.push(t));
    assert(compact_from(new.push(t), e, st) == new.push(t));
    match top.1 {
        Token::Indent => {
            assert(compact_from(new, seq![t], stack) == compact_from(new.drop_last().push(top).push(t), e, st));
        },
        _ => {
            assert(compact_from(new, seq![t], stack) == compact_from(new.drop_last().push(top).push(t), e, stack));
        },
    }
}

/// A settled queue compacts into a settled queue without a block folded
/// back, with the same depth, the same last token, staying above the same
/// depths.
pub proof fn lemma_settled_compacted(q: Seq<Spanned<Token>>, lo: int)
    requires
        settled(q),
    ensures
        settled(compacted(q)),
        nl_dedents(compacted(q).drop_last()) || nl_indent(compacted(q).drop_last()),
        compacted(q).last() == q.last(),
        depth(compacted(q)) == depth(q),
        never_below(q, lo) ==> never_below(compacted(q), lo),
{
    let b = q.drop_last();
    let t = q.last();
    assert(q =~= b.push(t));
    if q.len() <= 1 {
        assert(b.len() == 0);
        assert(nl_dedents(b));
    } else if nl_dedents(b) {
        let d = b.drop_first();
        assert(all_dedent(d)) by {
            assert forall|i: int| 0 <= i < d.len() implies (#[trigger] d[i]).1 is Dedent by {
                assert(d[i] == b[i + 1]);
            }
        }
        assert(q.drop_first() =~= d + seq![t]);
        lemma_compact_dedents(seq![q[0]], d, seq![t], Seq::<usize>::empty());
        let n2 = seq![q[0]] + d;
        assert(n2.last().1.is_layout()) by {
            if d.len() > 0 {
                assert(n2.last() == d[d.len() - 1]);
            }
        }
        lemma_compact_tail(n2, t, Seq::<usize>::empty());
        assert(n2.push(t) =~= q);
    } else if nl_indent(b) {
        if b.len() == 1 {
            assert(q.drop_first() =~= seq![t]);
            lemma_compact_tail(seq![q[0]], t, Seq::<usize>::empty());
            assert(seq![q[0]].push(t) =~= q);
        } else {
            assert(q.drop_first() =~= seq![q[1], t]);
            let p = q.drop_first();
            assert(p[0] == q[1]);
            assert(p.drop_first() =~= seq![t]);
            assert(seq![q[0]].drop_last().push(q[0]).push(q[1]) =~= seq![q[0], q[1]]);
            assert(compact_from(seq![q[0]], p, Seq::<usize>::empty()) == compact_from(
                seq![q[0], q[1]],
                seq![t],
                Seq::<usize>::empty(),
            ));
            lemma_compact_tail(seq![q[0], q[1]], t, Seq::<usize>::empty());
            assert(seq![q[0], q[1]].push(t) =~= q);
        }
    } else {
        let d = b.drop_first();
        let d2 = d.drop_first();
        let nl = (q[0].0, Token::Newline, d[0].2);
        assert(q.drop_first() =~= d + seq![t]);
        let p = q.drop_first();
        assert(p[0] == d[0]);
        assert(p.drop_first() =~= d2 + seq![t]);
        assert(compact_from(seq![q[0]], p, Seq::<usize>::empty()) == compact_from(
            seq![q[0]].drop_last(),
            seq![nl] + (d2 + seq![t]),
            Seq::<usize>::empty(),
        ));
        let p2 = seq![nl] + (d2 + seq![t]);
        assert(seq![q[0]].drop_last() =~= Seq::<Spanned<Token>>::empty());
        assert(p2[0] == nl);
        assert(p2.drop_first() =~= d2 + seq![t]);
        assert(compact_from(Seq::<Spanned<Token>>::empty(), p2, Seq::<usize>::empty()) == compact_from(
            seq![nl],
            d2 + seq![t],
            Seq::<usize>::empty(),
        ));
        assert(all_dedent(d2)) by {
            assert forall|i: int| 0 <= i < d2.len() implies (#[trigger] d2[i]).1 is Dedent by {
                assert(d2[i] == d[i + 1]);
            }
        }
        lemma_compact_dedents(seq![nl], d2, seq![t], Seq::<usize>::empty());
        let n2 = seq![nl] + d2;
        assert(n2.last().1.is_layout()) by {
            if d2.len() > 0 {
                assert(n2.last() == d2[d2.len() - 1]);
            }
        }
        lemma_compact_tail(n2, t, Seq::<usize>::empty());
        let c = n2.push(t);
        assert(compacted(q) == c);
        assert(c.drop_last() =~= n2);
        assert(nl_dedents(n2)) by {
            assert forall|i: int| 0 <= i < n2.len() implies ((#[trigger] n2[i]).1 is Dedent || (i == 0
                && n2[i].1 is Newline)) by {
                if i > 0 {
                    assert(n2[i] == d2[i - 1]);
                }
            }
        }
        // depths: q = [IND, d[0]] + d2 + [t]; c = [nl] + d2 + [t]
        assert(q =~= seq![q[0], d[0]] + (d2 + seq![t]));
        assert(c =~= seq![nl] + (d2 + seq![t]));
        lemma_depth_concat(seq![q[0], d[0]], d2 + seq![t]);
        lemma_depth_concat(seq![nl], d2 + seq![t]);
        lemma_depth_concat(seq![q[0]], seq![d[0]]);
        assert(seq![q[0]] + seq![d[0]] =~= seq![q[0], d[0]]);
        lemma_depth_one(q[0]);
        lemma_depth_one(d[0]);
        lemma_depth_one(nl);
        if never_below(q, lo) {
            lemma_never_below_concat(seq![q[0], d[0]], d2 + seq![t], lo);
            assert(seq![q[0], d[0]].subrange(0, 0) =~= Seq::<Spanned<Token>>::empty());
            assert(depth(seq![q[0], d[0]].subrange(0, 0)) >= lo);
            assert(never_below(seq![nl], lo)) by {
                assert forall|k: int| 0 <= k <= 1 implies depth(#[trigger] seq![nl].subrange(0, k)) >= lo by {
                    if k == 0 {
                        assert(seq![nl].subrange(0, 0) =~= Seq::<Spanned<Token>>::empty());
                    } else {
                        assert(seq![nl].subrange(0, 1) =~= seq![nl]);
                    }
                }
            }
            lemma_never_below_concat(seq![nl], d2 + seq![t], lo);
        }
    }
}

/// Handing out the first token of a queue: the depth moves to the rest.
pub proof fn lemma_pop_depth(h: Seq<Spanned<Token>>, q: Seq<Spanned<Token>>)
    requires
        q.len() > 0,
        never_below(h, 0),
        never_below(q, -depth(h)),
    ensures
        depth(h.push(q[0])) + depth(q.drop_first()) == depth(h) + depth(q),
        never_below(h.push(q[0]), 0),
        never_below(q.drop_first(), -depth(h.push(q[0]))),
{
    assert(q =~= seq![q[0]] + q.drop_first());
    assert(h.push(q[0]) =~= h + seq![q[0]]);
    lemma_depth_concat(seq![q[0]], q.drop_first());
    lemma_depth_concat(h, seq![q[0]]);
    lemma_never_below_concat(seq![q[0]], q.drop_first(), -depth(h));
    lemma_never_below_concat(h, seq![q[0]], 0);
}

/// A lexeme that passes over whitespace, a comment or a line break starts
/// with a blank, a `#` or a line break.
proof fn lemma_lexeme_start(s: Seq<char>, i: int)
    requires
        0 <= i < s.len(),
    ensures
        scan(s, i).0 is Skip ==> s[i] == ' ' || s[i] == '\t' || s[i] == '\u{c}',
        scan(s, i).0 == Lexeme::Token(RawKind::Comment) ==> s[i] == ' ' || s[i] == '\t' || s[i] == '#',
        scan(s, i).0 == Lexeme::Token(RawKind::Newline) ==> s[i] == '\n' || (s[i] == '\r' && i + 1 < s.len()
            && s[i + 1] == '\n'),
{
}

/// A run of line breaks ends before a character that is no blank of a line
/// and no line break.
proof fn lemma_newline_end(s: Seq<char>, j: int)
    requires
        0 <= j <= s.len(),
    ensures
        j <= newline_end(s, j) <= s.len(),
        newline_end(s, j) < s.len() ==> {
            let r = newline_end(s, j);
            &&& s[r] != '\n'
            &&& !(s[r] == '\r' && r + 1 < s.len() && s[r + 1] == '\n')
            &&& (r > j ==> s[r] != ' ' && s[r] != '\t')
        },
        newline_end(s, j) > j ==> exists|m: int|
            #![trigger s[m]]
            j <= m < newline_end(s, j) && s[m] == '\n' && forall|x: int|
                m < x < newline_end(s, j) ==> #[trigger] s[x] == ' ' || s[x] == '\t',
    decreases s.len() - j,
{
    let n = s.len() as int;
    if 0 <= j < n && s[j] == '\n' {
        let r1 = run_end(s, j + 1, n, CharClass::SpaceTab);
        lemma_run_end(s, j + 1, n, CharClass::SpaceTab);
        lemma_newline_end(s, r1);
        if newline_end(s, r1) == r1 {
            assert(forall|x: int| j < x < r1 ==> #[trigger] s[x] == ' ' || s[x] == '\t');
            assert(s[j] == '\n');
        }
    } else if 0 <= j && j + 1 < n && s[j] == '\r' && s[j + 1] == '\n' {
        let r1 = run_end(s, j + 2, n, CharClass::SpaceTab);
        lemma_run_end(s, j + 2, n, CharClass::SpaceTab);
        lemma_newline_end(s, r1);
        if newline_end(s, r1) == r1 {
            assert(forall|x: int| j + 1 < x < r1 ==> #[trigger] s[x] == ' ' || s[x] == '\t');
            assert(s[j + 1] == '\n');
        }
    }
}

/// `m` DEDENT tokens go `m` levels down, one at a time.
proof fn lemma_dedents_depth(m: nat, loc: Location)
    ensures
        depth(dedents(m, loc)) == -m,
        never_below(dedents(m, loc), -m),
        all_dedent(dedents(m, loc)),
    decreases m,
{
    let d = dedents(m, loc);
    if m == 0 {
        assert(d =~= Seq::<Spanned<Token>>::empty());
        assert(d.subrange(0, 0) =~= d);
    } else {
        let d0 = dedents((m - 1) as nat, loc);
        lemma_dedents_depth((m - 1) as nat, loc);
        assert(d =~= d0.push((loc, Token::Dedent, loc)));
        assert(d.drop_last() =~= d0);
        assert forall|k: int| 0 <= k <= d.len() implies depth(#[trigger] d.subrange(0, k)) >= -m by {
            if k < d.len() {
                assert(d.subrange(0, k) =~= d0.subrange(0, k));
            } else {
                assert(d.subrange(0, k) =~= d);
            }
        }
    }
}

/// A queue of one NEWLINE, then the INDENT or DEDENT tokens of one line
/// break; or nothing.
pub open spec fn scan_queue(p: Seq<Spanned<Token>>) -> bool {
    p.len() == 0 || (p[0].1 is Newline && (nl_dedents(p) || (p.len() == 2 && p[1].1 is Indent)))
}

/// After a line break not followed by a comment, in a text without form
/// feeds that lexes without error, the scan stops at once: at the end of the
/// text or at a token.
proof fn lemma_scan_stops(s: Seq<char>, e: int, q: Seq<Spanned<Token>>, st: Seq<usize>)
    requires
        0 <= e <= s.len(),
        lex_ok(s, e),
        !comment_follows(s, e),
        e < s.len() ==> {
            &&& s[e] != '\u{c}'
            &&& s[e] != '\n'
            &&& !(s[e] == '\r' && e + 1 < s.len() && s[e + 1] == '\n')
            &&& s[e] != ' '
            &&& s[e] != '\t'
        },
    ensures
        ({
            let r = scan_until(s, e, q, st, true);
            &&& r.0 == e
            &&& r.1 == q
            &&& r.2 == st
            &&& r.3
            &&& (r.4 is Finish ==> e == s.len())
            &&& !(r.4 is Fault)
            &&& (r.4 matches ScanEnd::Tok(k, i, e2) ==> k != RawKind::Comment && k != RawKind::Newline
                && payload_ok(s, i, k, e2) && i == e && e < e2 <= s.len() && lex_ok(s, e2))
        }),
{
    if e < s.len() {
        lemma_scan_advances(s, e);
        lemma_lexeme_start(s, e);
        let (lx, e2) = scan(s, e);
        match lx {
            Lexeme::Token(k) => {
                if k == RawKind::Comment {
                    assert(comment_follows(s, e));
                }
            },
            _ => {},
        }
    }
}

/// The scan for a token, from an empty queue or one NEWLINE, in a text
/// where no form feed starts a line, lexing without error: it leaves a queue of one
/// NEWLINE and the INDENT or DEDENT tokens of one line break (or nothing),
/// whose depth is the change of the levels and which goes no lower than the
/// bottom level; it stops at the end of the text or at a token.
proof fn lemma_scan_shape(s: Seq<char>, pos: int, p: Seq<Spanned<Token>>, st: Seq<usize>, als: bool)
    requires
        no_line_start_form_feed(s),
        2 * s.len() < usize::MAX,
        0 <= pos <= s.len(),
        lex_ok(s, pos),
        indent_stack_ok(st),
        p.len() == 0 || (p.len() == 1 && p[0].1 is Newline && als),
    ensures
        ({
            let r = scan_until(s, pos, p, st, als);
            &&& pos <= r.0
            &&& indent_stack_ok(r.2)
            &&& scan_queue(r.1)
            &&& (r.1.len() > 0 ==> r.3)
            &&& depth(r.1) == r.2.len() - st.len()
            &&& never_below(r.1, 1 - st.len())
            &&& (r.1.len() == 2 && r.1[1].1 is Indent ==> r.2.len() == st.len() + 1)
            &&& (r.4 is Finish ==> r.0 == s.len())
            &&& !(r.4 is Fault)
            &&& (r.4 matches ScanEnd::Tok(k, i, e2) ==> k != RawKind::Comment && k != RawKind::Newline
                && payload_ok(s, i, k, e2) && r.0 == i && i < e2 <= s.len() && lex_ok(s, e2))
        }),
    decreases s.len() - pos,
{
    let e0 = Seq::<Spanned<Token>>::empty();
    if p.len() == 0 {
        assert(p.subrange(0, 0) =~= p);
        assert(never_below(p, 1 - st.len()));
        assert(depth(p) == 0);
    } else {
        assert(p.subrange(0, 0) =~= e0);
        assert(p.subrange(0, 1) =~= p);
        lemma_depth_one(p[0]);
        assert(p =~= seq![p[0]]);
        assert(never_below(p, 1 - st.len()));
        assert(nl_dedents(p));
    }
    if pos < s.len() {
        lemma_scan_advances(s, pos);
        let (lx, e) = scan(s, pos);
        assert(!lexeme_fails(s, pos) && lex_ok(s, e));
        match lx {
            Lexeme::Skip => {
                lemma_scan_shape(s, e, p, st, als);
            },
            Lexeme::Fail => {},
            Lexeme::Token(RawKind::Comment) => {
                lemma_scan_shape(s, e, p, st, als);
            },
            Lexeme::Token(RawKind::Newline) => {
                lemma_lexeme_start(s, pos);
                lemma_newline_end(s, pos);
                let start = loc_at(s, pos);
                let end = loc_at(s, e);
                let q0 = with_newline(p, start, end);
                assert(q0.len() == 1 && q0[0].1 is Newline);
                if comment_follows(s, e) {
                    assert(line_break_queue(p, st, s, pos, e, start, end) == (st, q0));
                    assert(compacted(q0) == q0);
                    lemma_scan_shape(s, e, q0, st, true);
                } else {
                    let w = indent_width(s.subrange(pos, e));
                    lemma_indent_from_bound(s.subrange(pos, e), 0, 0);
                    assert(0 <= w <= 2 * s.len());
                    let (st2, ts) = indentation(st, w, end);
                    let q = q0 + ts;
                    assert(line_break_queue(p, st, s, pos, e, start, end) == (st2, q));
                    lemma_depth_one(q0[0]);
                    assert(q0 =~= seq![q0[0]]);
                    assert(never_below(q0, 0)) by {
                        assert forall|k: int| 0 <= k <= q0.len() implies depth(#[trigger] q0.subrange(0, k)) >= 0 by {
                            if k == 0 {
                                assert(q0.subrange(0, 0) =~= e0);
                            } else {
                                assert(q0.subrange(0, 1) =~= q0);
                            }
                        }
                    }
                    lemma_depth_concat(q0, ts);
                    lemma_never_below_concat(q0, ts, 1 - st.len());
                    if w > st.last() {
                        assert(ts == seq![(end, Token::Indent, end)]);
                        assert(q =~= seq![q0[0], ts[0]]);
                        assert(q.drop_first() =~= seq![ts[0]]);
                        assert(seq![q[0]].drop_last().push(q[0]).push(ts[0]) =~= q);
                        assert(seq![ts[0]].drop_first() =~= e0);
                        assert(compact_from(seq![q[0]], q.drop_first(), Seq::<usize>::empty()) == compact_from(
                            q,
                            e0,
                            Seq::<usize>::empty(),
                        ));
                        assert(compacted(q) == q);
                        lemma_depth_one(ts[0]);
                        assert(never_below(ts, 0)) by {
                            assert forall|k: int| 0 <= k <= ts.len() implies depth(#[trigger] ts.subrange(0, k)) >= 0 by {
                                if k == 0 {
                                    assert(ts.subrange(0, 0) =~= e0);
                                } else {
                                    assert(ts.subrange(0, 1) =~= ts);
                                }
                            }
                        }
                        assert(st2 == st.push(w as usize));
                        assert(indent_stack_ok(st2)) by {
                            assert forall|a: int, b: int| 0 <= a < b < st2.len() implies st2[a] < st2[b] by {
                                assert(st2[st.len() as int] == w);
                                if b < st.len() {
                                } else {
                                    assert(st[a] <= st.last());
                                }
                            }
                        }
                    } else {
                        let j = levels_at_most(st, w);
                        lemma_levels_at_most(st, w);
                        lemma_dedents_depth((st.len() - j) as nat, end);
                        if q.len() > 1 {
                            assert(q.drop_first() =~= ts + e0);
                            assert(q[0] == q0[0]);
                            lemma_compact_dedents(seq![q[0]], ts, e0, Seq::<usize>::empty());
                            assert(seq![q[0]] + ts =~= q);
                        }
                        assert(compacted(q) == q);
                        assert(nl_dedents(q)) by {
                            assert forall|i: int| 0 <= i < q.len() implies ((#[trigger] q[i]).1 is Dedent || (i == 0
                                && q[i].1 is Newline)) by {
                                if i > 0 {
                                    assert(q[i] == ts[i - 1]);
                                }
                            }
                        }
                        assert(indent_stack_ok(st2));
                    }
                    if e < s.len() && s[e] == '\u{c}' {
                        let m = choose|m: int|
                            #![trigger s[m]]
                            pos <= m < e && s[m] == '\n' && forall|x: int| m < x < e ==> #[trigger] s[x] == ' ' || s[x] == '\t';
                        assert(s[m] == '\n' && s[e] == '\u{c}');
                        let x = choose|x: int| m < x < e && #[trigger] s[x] != ' ' && s[x] != '\t';
                        assert(false);
                    }
                    lemma_scan_stops(s, e, q, st2);
                }
            },
            Lexeme::Token(k) => {},
        }
    }
}

/// A settled queue holds a token other than a layout token.
proof fn lemma_settled_counts(q: Seq<Spanned<Token>>)
    requires
        settled(q),
    ensures
        spanned_non_layout(q).len() > 0,
{
    lemma_spanned_back(q);
    lemma_spanned_one(q.last());
}

/// What is left of a settled queue, without a folded block, once its first
/// token is handed out is settled again, or nothing.
proof fn lemma_settled_drop(q: Seq<Spanned<Token>>)
    requires
        settled(q),
        nl_dedents(q.drop_last()) || nl_indent(q.drop_last()),
    ensures
        q.len() == 1 || settled(q.drop_first()),
{
    if q.len() > 1 {
        let r = q.drop_first();
        let b = q.drop_last();
        assert(r.last() == q.last());
        assert(r.drop_last() =~= b.drop_first());
        if nl_dedents(b) {
            assert forall|i: int| 0 <= i < r.drop_last().len() implies ((#[trigger] r.drop_last()[i]).1 is Dedent || (i
                == 0 && r.drop_last()[i].1 is Newline)) by {
                assert(r.drop_last()[i] == b[i + 1]);
            }
        } else if b.len() == 2 {
            assert(r.drop_last()[0] == b[1]);
        }
    }
}

/// The state `st` of a lexer for `s`, with `h` handed out so far: the levels
/// are sound, the position is in the text (with the rest lexing without
/// error before the end), neither `h` nor `h` followed by the queue ever
/// goes below depth zero, together they are as deep as the open levels
/// (none at the end), and the queue is settled or empty.
pub open spec fn balanced_state(s: Seq<char>, st: LexState, h: Seq<Spanned<Token>>) -> bool {
    &&& indent_stack_ok(st.2)
    &&& 0 <= st.0 <= s.len()
    &&& (!st.4 ==> lex_ok(s, st.0))
    &&& never_below(h, 0)
    &&& never_below(st.1, -depth(h))
    &&& depth(h) + depth(st.1) == (if st.4 {
        0
    } else {
        st.2.len() - 1
    })
    &&& (st.1.len() == 0 || settled(st.1))
}

/// Handing out the first token of the compacted queue keeps the state balanced.
proof fn lemma_step_pop(s: Seq<char>, st: LexState, st2: LexState, t: Spanned<Token>, h: Seq<Spanned<Token>>)
    requires
        balanced_state(s, st, h),
        spanned_non_layout(st.1).len() > 0,
        st2 == (st.0, compacted(st.1).drop_first(), st.2, st.3, st.4),
        t == compacted(st.1)[0],
    ensures
        balanced_state(s, st2, h.push(t)),
{
    if st.1.len() == 0 {
        assert(spanned_non_layout(st.1) =~= Seq::<Token>::empty());
    }
    let q = compacted(st.1);
    lemma_settled_compacted(st.1, -depth(h));
    lemma_settled_drop(q);
    lemma_pop_depth(h, q);
}

/// Reaching the end of the text keeps the state balanced.
proof fn lemma_step_finish(s: Seq<char>, st: LexState, st2: LexState, t: Spanned<Token>, h: Seq<Spanned<Token>>)
    requires
        no_line_start_form_feed(s),
        2 * s.len() < usize::MAX,
        balanced_state(s, st, h),
        st.1.len() == 0,
        !st.4,
        scan_until(s, st.0, st.1, st.2, st.3).4 is Finish,
        ({
            let r = scan_until(s, st.0, st.1, st.2, st.3);
            let loc = loc_at(s, s.len() as int);
            let q2 = (if r.3 {
                r.1
            } else {
                r.1.push((loc, Token::Newline, loc))
            }) + dedents((r.2.len() - 1) as nat, loc) + seq![(loc, Token::Eof, loc)];
            &&& st2 == (s.len() as int, q2.drop_first(), r.2.subrange(0, 1), r.3, true)
            &&& t == q2[0]
        }),
    ensures
        balanced_state(s, st2, h.push(t)),
{
    let e0 = Seq::<Spanned<Token>>::empty();
    let L = st.2.len();
    lemma_scan_shape(s, st.0, st.1, st.2, st.3);
    let r = scan_until(s, st.0, st.1, st.2, st.3);
    let p = r.1;
    let L2 = r.2.len();
    let loc = loc_at(s, s.len() as int);
    let nl = (loc, Token::Newline, loc);
    let eof = (loc, Token::Eof, loc);
    let a = if r.3 {
        p
    } else {
        p.push(nl)
    };
    let d = dedents((L2 - 1) as nat, loc);
    let q2 = a + d + seq![eof];
    lemma_depth_one(nl);
    lemma_depth_one(eof);
    lemma_dedents_depth((L2 - 1) as nat, loc);
    assert(never_below(seq![nl], 0) && never_below(seq![eof], 0)) by {
        assert(seq![nl].subrange(0, 0) =~= e0);
        assert(seq![nl].subrange(0, 1) =~= seq![nl]);
        assert(seq![eof].subrange(0, 0) =~= e0);
        assert(seq![eof].subrange(0, 1) =~= seq![eof]);
    }
    if !r.3 {
        assert(p.push(nl) =~= p + seq![nl]);
        lemma_depth_concat(p, seq![nl]);
        lemma_never_below_concat(p, seq![nl], 1 - L);
    }
    lemma_depth_concat(a, d);
    lemma_depth_concat(a + d, seq![eof]);
    lemma_never_below_concat(a, d, 1 - L);
    lemma_never_below_concat(a + d, seq![eof], 1 - L);
    lemma_pop_depth(h, q2);
    assert(q2.last() == eof);
    assert(q2.drop_last() =~= a + d);
    if p.len() == 2 && p[1].1 is Indent {
        let r2 = q2.drop_first();
        assert(r2.last() == eof);
        assert(r2.drop_last() =~= seq![p[1]] + d);
        assert(r2.drop_last().drop_first() =~= d);
        assert(settled(r2));
    } else {
        assert(nl_dedents(a + d)) by {
            assert forall|i: int| 0 <= i < (a + d).len() implies ((#[trigger] (a + d)[i]).1 is Dedent || (i == 0 && (a
                + d)[i].1 is Newline)) by {
                if i >= a.len() {
                    assert((a + d)[i] == d[i - a.len()]);
                } else {
                    assert((a + d)[i] == a[i]);
                    if p.len() > 0 {
                        assert(nl_dedents(p));
                        assert(a[i] == p[i]);
                    }
                }
            }
        }
        assert(settled(q2));
        lemma_settled_drop(q2);
    }
}

/// Reading a token keeps the state balanced.
proof fn lemma_step_token(
    s: Seq<char>,
    st: LexState,
    st2: LexState,
    t: Spanned<Token>,
    h: Seq<Spanned<Token>>,
    k: RawKind,
    i: int,
    e: int,
    tt: Token,
)
    requires
        no_line_start_form_feed(s),
        2 * s.len() < usize::MAX,
        balanced_state(s, st, h),
        st.1.len() == 0,
        !st.4,
        scan_until(s, st.0, st.1, st.2, st.3).4 == ScanEnd::Tok(k, i, e),
        token_matches(s, (k, i, e), tt),
        ({
            let r = scan_until(s, st.0, st.1, st.2, st.3);
            let q2 = r.1.push((loc_at(s, i), tt, loc_at(s, e)));
            &&& st2 == (e, q2.drop_first(), r.2, false, false)
            &&& t == q2[0]
        }),
    ensures
        balanced_state(s, st2, h.push(t)),
{
    let e0 = Seq::<Spanned<Token>>::empty();
    let L = st.2.len();
    lemma_scan_shape(s, st.0, st.1, st.2, st.3);
    let r = scan_until(s, st.0, st.1, st.2, st.3);
    let p = r.1;
    let rt = choose|rt: RawToken| #[trigger] raw_token_ok(s, i, k, e, Some(rt)) && raw_to_token(rt) == tt;
    lemma_accepted(s, i, k, e, rt);
    let x = (loc_at(s, i), tt, loc_at(s, e));
    let q2 = p.push(x);
    lemma_depth_one(x);
    assert(never_below(seq![x], 0)) by {
        assert(seq![x].subrange(0, 0) =~= e0);
        assert(seq![x].subrange(0, 1) =~= seq![x]);
    }
    assert(q2 =~= p + seq![x]);
    lemma_depth_concat(p, seq![x]);
    lemma_never_below_concat(p, seq![x], 1 - L);
    assert(q2.drop_last() =~= p);
    assert(q2.last() == x);
    if p.len() > 0 && !nl_dedents(p) {
        assert(nl_indent(p));
    }
    if p.len() == 0 {
        assert(nl_dedents(p));
    }
    assert(settled(q2));
    lemma_settled_drop(q2);
    assert(depth(st.1) == 0);
    assert(depth(h) == L - 1);
    assert(never_below(q2, -depth(h)));
    lemma_pop_depth(h, q2);
}

/// One call of the lexer keeps the state balanced.
proof fn lemma_balanced_step(s: Seq<char>, st: LexState, st2: LexState, t: Spanned<Token>, h: Seq<Spanned<Token>>)
    requires
        no_line_start_form_feed(s),
        2 * s.len() < usize::MAX,
        balanced_state(s, st, h),
        lex_step(s, st, st2, Ok(t)),
    ensures
        balanced_state(s, st2, h.push(t)),
{
    if spanned_non_layout(st.1).len() > 0 {
        lemma_step_pop(s, st, st2, t, h);
    } else {
        if st.1.len() > 0 {
            lemma_settled_counts(st.1);
        }
        assert(compacted(st.1) == st.1);
        lemma_scan_shape(s, st.0, st.1, st.2, st.3);
        let r = scan_until(s, st.0, st.1, st.2, st.3);
        match r.4 {
            ScanEnd::Finish => {
                lemma_step_finish(s, st, st2, t, h);
            },
            ScanEnd::Fault(i, e) => {},
            ScanEnd::Tok(k, i, e) => {
                let tt = choose|tt: Token|
                    #![trigger token_matches(s, (k, i, e), tt)]
                    {
                        let q2 = r.1.push((loc_at(s, i), tt, loc_at(s, e)));
                        &&& token_matches(s, (k, i, e), tt)
                        &&& st2 == (e, q2.drop_first(), r.2, false, false)
                        &&& Ok::<Spanned<Token>, (crate::error::ErrorCode, Seq<char>, Location)>(t) == Ok::<
                            Spanned<Token>,
                            (crate::error::ErrorCode, Seq<char>, Location),
                        >(q2[0])
                    };
                lemma_step_token(s, st, st2, t, h, k, i, e, tt);
            },
        }
    }
}

/// Every state of a trace of a text where no form feed starts a line, lexing without
/// error is balanced with what was handed out before it.
proof fn lemma_trace_balanced(s: Seq<char>, states: Seq<LexState>, ts: Seq<Spanned<Token>>, k: int)
    requires
        no_line_start_form_feed(s),
        2 * s.len() < usize::MAX,
        lex_ok(s, 0),
        lex_trace(s, states, ok_items(ts)),
        0 <= k <= ts.len(),
    ensures
        balanced_state(s, states[k], ts.subrange(0, k)),
    decreases k,
{
    let e0 = Seq::<Spanned<Token>>::empty();
    if k == 0 {
        assert(ts.subrange(0, 0) =~= e0);
        assert(e0.subrange(0, 0) =~= e0);
        assert(indent_stack_ok(seq![0usize]));
    } else {
        lemma_trace_balanced(s, states, ts, k - 1);
        let items = ok_items(ts);
        assert(items[k - 1] == Ok::<Spanned<Token>, (crate::error::ErrorCode, Seq<char>, Location)>(ts[k - 1]));
        assert(lex_step(s, states[k - 1], states[k], items[k - 1]));
        lemma_balanced_step(s, states[k - 1], states[k], ts[k - 1], ts.subrange(0, k - 1));
        assert(ts.subrange(0, k - 1).push(ts[k - 1]) =~= ts.subrange(0, k));
    }
}

/// INDENT and DEDENT balance: in the tokens that a text where no form feed starts a line
/// gives when it lexes without error, there are as many DEDENT tokens as
/// INDENT tokens, and no prefix holds more DEDENT tokens than INDENT tokens.
pub proof fn lemma_indents_balance(s: Seq<char>, ts: Seq<Spanned<Token>>)
    requires
        no_line_start_form_feed(s),
        byte_len(s) <= isize::MAX,
        lex_ok(s, 0),
        lexes_to(s, ok_items(ts)),
    ensures
        depth(ts) == 0,
        never_below(ts, 0),
{
    lemma_chars_within_bytes(s);
    let states = choose|states: Seq<LexState>| #[trigger] lex_trace(s, states, ok_items(ts)) && lex_done(states.last());
    assert(ok_items(ts).len() == ts.len());
    lemma_trace_balanced(s, states, ts, ts.len() as int);
    assert(ts.subrange(0, ts.len() as int) =~= ts);
    let last = states[ts.len() as int];
    assert(states.last() == last);
    if last.1.len() > 0 {
        lemma_settled_counts(last.1);
    }
    assert(last.1 =~= Seq::<Spanned<Token>>::empty());
}

} // verus!
