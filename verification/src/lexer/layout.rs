//! Indentation: the width of a line's indentation, the INDENT and DEDENT tokens
//! that a change of width gives, and the compaction of queued layout tokens.

use vstd::prelude::*;

use std::collections::VecDeque;

use crate::error::Location;
use crate::lexer::stream::{lemma_non_layout_concat, lemma_non_layout_one, non_layout, tokens_of};
use crate::lexer::token::Token;
use crate::lexer::Spanned;

verus! {

/// Every token but the last is a layout token.
pub open spec fn layout_then_last(v: Seq<Token>) -> bool {
    forall|k: int| 0 <= k < v.len() - 1 ==> (#[trigger] v[k]).is_layout()
}

/// The non-layout tokens of a sequence of spanned tokens.
pub open spec fn spanned_non_layout(v: Seq<Spanned<Token>>) -> Seq<Token> {
    non_layout(tokens_of(v))
}

/// The non-layout tokens of a sequence of spanned tokens, with their locations.
pub open spec fn nl_full(v: Seq<Spanned<Token>>) -> Seq<Spanned<Token>>
    decreases v.len(),
{
    if v.len() == 0 {
        seq![]
    } else if v.last().1.is_layout() {
        nl_full(v.drop_last())
    } else {
        nl_full(v.drop_last()).push(v.last())
    }
}

/// `nl_full` distributes over concatenation.
proof fn lemma_full_concat(a: Seq<Spanned<Token>>, b: Seq<Spanned<Token>>)
    ensures
        nl_full(a + b) == nl_full(a) + nl_full(b),
    decreases b.len(),
{
    if b.len() == 0 {
        assert(a + b =~= a);
        assert(nl_full(a) + nl_full(b) =~= nl_full(a));
    } else {
        lemma_full_concat(a, b.drop_last());
        assert((a + b).drop_last() =~= a + b.drop_last());
        assert((a + b).last() == b.last());
        if !b.last().1.is_layout() {
            assert(nl_full(a) + nl_full(b.drop_last()).push(b.last()) =~= (nl_full(a) + nl_full(b.drop_last())).push(
                b.last(),
            ));
        }
    }
}

/// The tokens of `nl_full` are the non-layout tokens.
pub proof fn lemma_full_tokens(v: Seq<Spanned<Token>>)
    ensures
        tokens_of(nl_full(v)) == spanned_non_layout(v),
    decreases v.len(),
{
    if v.len() > 0 {
        lemma_full_tokens(v.drop_last());
        assert(tokens_of(v.drop_last()) =~= tokens_of(v).drop_last());
        assert(tokens_of(nl_full(v.drop_last()).push(v.last())) =~= tokens_of(nl_full(v.drop_last())).push(v.last().1));
    } else {
        assert(tokens_of(nl_full(v)) =~= Seq::<Token>::empty());
        assert(tokens_of(v) =~= Seq::<Token>::empty());
    }
}

/// `spanned_non_layout` distributes over concatenation.
pub proof fn lemma_spanned_concat(a: Seq<Spanned<Token>>, b: Seq<Spanned<Token>>)
    ensures
        spanned_non_layout(a + b) == spanned_non_layout(a) + spanned_non_layout(b),
        tokens_of(a + b) == tokens_of(a) + tokens_of(b),
        nl_full(a + b) == nl_full(a) + nl_full(b),
{
    assert(tokens_of(a + b) =~= tokens_of(a) + tokens_of(b));
    lemma_non_layout_concat(tokens_of(a), tokens_of(b));
    lemma_full_concat(a, b);
}

/// `spanned_non_layout` of one spanned token.
pub proof fn lemma_spanned_one(x: Spanned<Token>)
    ensures
        spanned_non_layout(seq![x]) == (if x.1.is_layout() { Seq::<Token>::empty() } else { seq![x.1] }),
        tokens_of(seq![x]) == seq![x.1],
        nl_full(seq![x]) == (if x.1.is_layout() { Seq::<Spanned<Token>>::empty() } else { seq![x] }),
{
    assert(tokens_of(seq![x]) =~= seq![x.1]);
    lemma_non_layout_one(x.1);
    let e = Seq::<Spanned<Token>>::empty();
    assert(seq![x].drop_last() =~= e);
    assert(nl_full(e) == e);
    assert(seq![x].last() == x);
    if !x.1.is_layout() {
        assert(nl_full(seq![x]) == nl_full(e).push(x));
        assert(e.push(x) =~= seq![x]);
    }
}

/// Splits off the first element of a non-empty sequence.
proof fn lemma_spanned_front(v: Seq<Spanned<Token>>)
    requires
        v.len() > 0,
    ensures
        spanned_non_layout(v) == spanned_non_layout(seq![v[0]]) + spanned_non_layout(v.subrange(1, v.len() as int)),
        nl_full(v) == nl_full(seq![v[0]]) + nl_full(v.subrange(1, v.len() as int)),
{
    assert(v =~= seq![v[0]] + v.subrange(1, v.len() as int));
    lemma_spanned_concat(seq![v[0]], v.subrange(1, v.len() as int));
}

/// Splits off the last element of a non-empty sequence.
pub proof fn lemma_spanned_back(v: Seq<Spanned<Token>>)
    requires
        v.len() > 0,
    ensures
        spanned_non_layout(v) == spanned_non_layout(v.subrange(0, v.len() - 1)) + spanned_non_layout(seq![v.last()]),
        nl_full(v) == nl_full(v.subrange(0, v.len() - 1)) + nl_full(seq![v.last()]),
{
    assert(v =~= v.subrange(0, v.len() - 1) + seq![v.last()]);
    lemma_spanned_concat(v.subrange(0, v.len() - 1), seq![v.last()]);
}

/// A sequence of layout tokens has no non-layout token.
proof fn lemma_spanned_all_layout(v: Seq<Spanned<Token>>)
    requires
        forall|k: int| 0 <= k < v.len() ==> (#[trigger] v[k]).1.is_layout(),
    ensures
        spanned_non_layout(v) == Seq::<Token>::empty(),
        nl_full(v) == Seq::<Spanned<Token>>::empty(),
    decreases v.len(),
{
    if v.len() > 0 {
        lemma_spanned_back(v);
        lemma_spanned_all_layout(v.subrange(0, v.len() - 1));
        lemma_spanned_one(v.last());
    } else {
        assert(tokens_of(v) =~= Seq::<Token>::empty());
    }
}

/// In a queue whose tokens but the last are layout tokens, a token other
/// than a layout token can only be the last one.
pub proof fn lemma_only_last_counts(v: Seq<Spanned<Token>>)
    requires
        layout_then_last(tokens_of(v)),
        nl_full(v).len() > 0,
    ensures
        v.len() > 0,
        !v.last().1.is_layout(),
        nl_full(v) == seq![v.last()],
{
    if v.len() == 0 {
        assert(nl_full(v) =~= Seq::<Spanned<Token>>::empty());
    }
    lemma_spanned_back(v);
    let d = v.subrange(0, v.len() - 1);
    assert forall|k: int| 0 <= k < d.len() implies (#[trigger] d[k]).1.is_layout() by {
        assert(tokens_of(v)[k] == v[k].1);
    }
    lemma_spanned_all_layout(d);
    lemma_spanned_one(v.last());
    assert(nl_full(v) =~= nl_full(seq![v.last()]));
}

/// The compaction of the queue `pending`, with `new` the tokens kept so far
/// (its last one still open to merging) and `stack` the positions in `new`
/// of the INDENT tokens that opened a block in the queue. One step looks at
/// the last kept token and the next queued one:
/// - NEWLINE then NEWLINE: one NEWLINE, from the start of the first to the
///   end of the second;
/// - NEWLINE then DEDENT: with no block opened in the queue, both are kept;
///   otherwise the kept tokens from the INDENT of the innermost such block
///   on are dropped, with the DEDENT, and a NEWLINE from the start of that
///   INDENT (or of the NEWLINE, when nothing is dropped) to the end of the
///   DEDENT is queued again;
/// - INDENT then DEDENT: both go, and a NEWLINE from the start of the INDENT
///   to the end of the DEDENT is queued again;
/// - INDENT then NEWLINE: the NEWLINE goes;
/// - INDENT then another token: both are kept, and the INDENT's position is
///   recorded as opening a block unless it is recorded already;
/// - otherwise both are kept.
/// Where a fold leaves nothing kept, the next queued token (the NEWLINE that
/// the fold queued again) is kept in its place.
pub open spec fn compact_from(
    new: Seq<Spanned<Token>>,
    pending: Seq<Spanned<Token>>,
    stack: Seq<usize>,
) -> Seq<Spanned<Token>>
    decreases 2 * pending.len() + new.len(),
{
    if pending.len() == 0 {
        new
    } else if new.len() == 0 {
        compact_from(seq![pending[0]], pending.drop_first(), stack)
    } else {
        let top = new.last();
        let rest = new.drop_last();
        let p = pending[0];
        let ps = pending.drop_first();
        match top.1 {
            Token::Newline => match p.1 {
                Token::Newline => compact_from(rest.push((top.0, Token::Newline, p.2)), ps, stack),
                Token::Dedent => if stack.len() == 0 {
                    compact_from(rest.push(top).push(p), ps, stack)
                } else {
                    let last = stack.last() as int;
                    let keep = if rest.len() > last { last } else { rest.len() as int };
                    let first = if rest.len() > last { rest[last].0 } else { top.0 };
                    compact_from(rest.subrange(0, keep), seq![(first, Token::Newline, p.2)] + ps, stack.drop_last())
                },
                _ => compact_from(rest.push(top).push(p), ps, stack),
            },
            Token::Indent => match p.1 {
                Token::Dedent => compact_from(rest, seq![(top.0, Token::Newline, p.2)] + ps, stack),
                Token::Newline => compact_from(rest.push(top), ps, stack),
                _ => {
                    let here = rest.len() as usize;
                    let st = if stack.len() == 0 || stack.last() != here {
                        stack.push(here)
                    } else {
                        stack
                    };
                    compact_from(rest.push(top).push(p), ps, st)
                },
            },
            _ => compact_from(rest.push(top).push(p), ps, stack),
        }
    }
}

/// The compaction of a queue: a queue of at most one token stays as it is;
/// otherwise its first token is kept and the others are taken in turn (see
/// [`compact_from`]). It keeps the tokens other than layout tokens, with
/// their locations, and never lengthens the queue (see
/// [`lemma_compacted_keeps`]).
pub open spec fn compacted(q: Seq<Spanned<Token>>) -> Seq<Spanned<Token>> {
    if q.len() <= 1 {
        q
    } else {
        compact_from(seq![q[0]], q.drop_first(), Seq::<usize>::empty())
    }
}

/// One pass of compaction keeps the tokens other than layout tokens, with
/// their locations, after every layout token, and lengthens nothing.
proof fn lemma_compact_from_keeps(new: Seq<Spanned<Token>>, pending: Seq<Spanned<Token>>, stack: Seq<usize>)
    requires
        layout_then_last(tokens_of(pending)),
        layout_then_last(tokens_of(new)),
        pending.len() > 0 ==> forall|k: int| 0 <= k < new.len() ==> (#[trigger] new[k]).1.is_layout(),
    ensures
        nl_full(compact_from(new, pending, stack)) == nl_full(new) + nl_full(pending),
        layout_then_last(tokens_of(compact_from(new, pending, stack))),
        compact_from(new, pending, stack).len() <= new.len() + pending.len(),
    decreases 2 * pending.len() + new.len(),
{
    let e = Seq::<Spanned<Token>>::empty();
    if pending.len() == 0 {
        assert(nl_full(pending) == e);
        assert(nl_full(new) + e =~= nl_full(new));
    } else {
        let p = pending[0];
        let ps = pending.drop_first();
        lemma_spanned_front(pending);
        lemma_spanned_one(p);
        assert(pending.subrange(1, pending.len() as int) =~= ps);
        assert(tokens_of(ps) =~= tokens_of(pending).subrange(1, pending.len() as int));
        assert(layout_then_last(tokens_of(ps)));
        if ps.len() > 0 {
            assert(tokens_of(pending)[0] == p.1);
        }
        lemma_spanned_all_layout(new);
        if new.len() == 0 {
            assert(tokens_of(seq![p]) =~= seq![p.1]);
            lemma_compact_from_keeps(seq![p], ps, stack);
        } else {
            let top = new.last();
            let rest = new.drop_last();
            assert(new =~= rest.push(top));
            assert(forall|k: int| 0 <= k < rest.len() ==> (#[trigger] rest[k]).1.is_layout() && rest[k] == new[k]);
            assert(top.1.is_layout());
            let pushed = rest.push(top).push(p);
            assert(forall|k: int| 0 <= k < pushed.len() - 1 ==> (#[trigger] pushed[k]).1.is_layout()) by {
                assert forall|k: int| 0 <= k < pushed.len() - 1 implies (#[trigger] pushed[k]).1.is_layout() by {
                    if k < new.len() {
                        assert(pushed[k] == new[k]);
                    }
                }
            }
            assert(tokens_of(pushed).len() == pushed.len());
            assert(layout_then_last(tokens_of(pushed))) by {
                assert forall|k: int| 0 <= k < tokens_of(pushed).len() - 1 implies (#[trigger] tokens_of(pushed)[k]).is_layout() by {
                    assert(tokens_of(pushed)[k] == pushed[k].1);
                }
            }
            if ps.len() > 0 {
                assert(p.1.is_layout());
                assert forall|k: int| 0 <= k < pushed.len() implies (#[trigger] pushed[k]).1.is_layout() by {
                    if k < new.len() {
                        assert(pushed[k] == new[k]);
                    }
                }
            }
            lemma_spanned_concat(new, seq![p]);
            assert(pushed =~= new + seq![p]);
            match top.1 {
                Token::Newline => match p.1 {
                    Token::Newline => {
                        let n2 = rest.push((top.0, Token::Newline, p.2));
                        assert forall|k: int| 0 <= k < n2.len() implies (#[trigger] n2[k]).1.is_layout() by {
                            if k < rest.len() {
                                assert(n2[k] == rest[k]);
                            }
                        }
                        lemma_spanned_all_layout(n2);
                        assert(layout_then_last(tokens_of(n2))) by {
                            assert forall|k: int| 0 <= k < tokens_of(n2).len() - 1 implies (#[trigger] tokens_of(n2)[k]).is_layout() by {
                                assert(tokens_of(n2)[k] == n2[k].1);
                            }
                        }
                        lemma_compact_from_keeps(n2, ps, stack);
                    },
                    Token::Dedent => if stack.len() == 0 {
                        lemma_compact_from_keeps(pushed, ps, stack);
                    } else {
                        let last = stack.last() as int;
                        let keep = if rest.len() > last {
                            last
                        } else {
                            rest.len() as int
                        };
                        let first = if rest.len() > last {
                            rest[last].0
                        } else {
                            top.0
                        };
                        let n2 = rest.subrange(0, keep);
                        let p2 = seq![(first, Token::Newline, p.2)] + ps;
                        assert forall|k: int| 0 <= k < n2.len() implies (#[trigger] n2[k]).1.is_layout() by {
                            assert(n2[k] == rest[k]);
                        }
                        lemma_spanned_all_layout(n2);
                        assert(layout_then_last(tokens_of(n2))) by {
                            assert forall|k: int| 0 <= k < tokens_of(n2).len() - 1 implies (#[trigger] tokens_of(n2)[k]).is_layout() by {
                                assert(tokens_of(n2)[k] == n2[k].1);
                            }
                        }
                        lemma_spanned_front(p2);
                        lemma_spanned_one((first, Token::Newline, p.2));
                        assert(p2.subrange(1, p2.len() as int) =~= ps);
                        assert(layout_then_last(tokens_of(p2))) by {
                            assert forall|k: int| 0 <= k < tokens_of(p2).len() - 1 implies (#[trigger] tokens_of(p2)[k]).is_layout() by {
                                if k > 0 {
                                    assert(tokens_of(p2)[k] == tokens_of(ps)[k - 1]);
                                }
                            }
                        }
                        lemma_compact_from_keeps(n2, p2, stack.drop_last());
                    },
                    _ => {
                        lemma_compact_from_keeps(pushed, ps, stack);
                    },
                },
                Token::Indent => match p.1 {
                    Token::Dedent => {
                        let p2 = seq![(top.0, Token::Newline, p.2)] + ps;
                        lemma_spanned_all_layout(rest);
                        assert(layout_then_last(tokens_of(rest))) by {
                            assert forall|k: int| 0 <= k < tokens_of(rest).len() - 1 implies (#[trigger] tokens_of(rest)[k]).is_layout() by {
                                assert(tokens_of(rest)[k] == rest[k].1);
                            }
                        }
                        lemma_spanned_front(p2);
                        lemma_spanned_one((top.0, Token::Newline, p.2));
                        assert(p2.subrange(1, p2.len() as int) =~= ps);
                        assert(layout_then_last(tokens_of(p2))) by {
                            assert forall|k: int| 0 <= k < tokens_of(p2).len() - 1 implies (#[trigger] tokens_of(p2)[k]).is_layout() by {
                                if k > 0 {
                                    assert(tokens_of(p2)[k] == tokens_of(ps)[k - 1]);
                                }
                            }
                        }
                        lemma_compact_from_keeps(rest, p2, stack);
                    },
                    Token::Newline => {
                        lemma_compact_from_keeps(new, ps, stack);
                    },
                    _ => {
                        let here = rest.len() as usize;
                        let st = if stack.len() == 0 || stack.last() != here {
                            stack.push(here)
                        } else {
                            stack
                        };
                        lemma_compact_from_keeps(pushed, ps, st);
                    },
                },
                _ => {
                    lemma_compact_from_keeps(pushed, ps, stack);
                },
            }
        }
    }
}

/// Compaction keeps the tokens other than layout tokens, with their
/// locations, keeps them after every layout token, and never lengthens the
/// queue.
pub proof fn lemma_compacted_keeps(q: Seq<Spanned<Token>>)
    requires
        layout_then_last(tokens_of(q)),
    ensures
        nl_full(compacted(q)) == nl_full(q),
        spanned_non_layout(compacted(q)) == spanned_non_layout(q),
        layout_then_last(tokens_of(compacted(q))),
        compacted(q).len() <= q.len(),
{
    if q.len() > 1 {
        let f = seq![q[0]];
        lemma_spanned_front(q);
        lemma_spanned_one(q[0]);
        assert(tokens_of(q)[0] == q[0].1);
        assert(tokens_of(f) =~= seq![q[0].1]);
        assert(q.subrange(1, q.len() as int) =~= q.drop_first());
        assert(tokens_of(q.drop_first()) =~= tokens_of(q).subrange(1, q.len() as int));
        lemma_compact_from_keeps(f, q.drop_first(), Seq::<usize>::empty());
    }
    lemma_full_tokens(compacted(q));
    lemma_full_tokens(q);
}

/// Tidies the queued tokens: runs of NEWLINE merge into one, an INDENT that
/// a DEDENT follows at once becomes a NEWLINE, an INDENT followed by a NEWLINE
/// drops the NEWLINE, and a NEWLINE followed by the DEDENT that closes a block
/// opened in the queue folds the block back into one NEWLINE.
pub fn compact_pending_tokens(pending: &mut VecDeque<Spanned<Token>>)
    requires
        layout_then_last(tokens_of(old(pending)@)),
    ensures
        final(pending)@ == compacted(old(pending)@),
        spanned_non_layout(final(pending)@) == spanned_non_layout(old(pending)@),
        nl_full(final(pending)@) == nl_full(old(pending)@),
        final(pending)@.len() <= old(pending)@.len(),
        layout_then_last(tokens_of(final(pending)@)),
{
    if pending.len() <= 1 {
        return;
    }
    let ghost orig = pending@;
    let mut stack: Vec<usize> = Vec::new();
    let mut new_pending: VecDeque<Spanned<Token>> = VecDeque::new();
    let front = pending.pop_front().unwrap();
    proof {
        lemma_spanned_front(orig);
        assert(seq![front] =~= Seq::<Spanned<Token>>::empty().push(front));
        assert(tokens_of(pending@) =~= tokens_of(orig).subrange(1, orig.len() as int));
    }
    new_pending.push_back(front);
    proof {
        assert(new_pending@ =~= seq![front]);
        lemma_spanned_one(front);
        assert(tokens_of(orig)[0].is_layout());
        assert(new_pending@[0] == front);
    }
    proof {
        assert(pending@ =~= orig.drop_first());
        assert(stack@ =~= Seq::<usize>::empty());
    }
    while pending.len() > 0
        invariant
            compact_from(new_pending@, pending@, stack@) == compacted(orig),
            layout_then_last(tokens_of(pending@)),
            layout_then_last(tokens_of(new_pending@)),
            pending@.len() > 0 ==> forall|k: int|
                0 <= k < new_pending@.len() ==> (#[trigger] new_pending@[k]).1.is_layout(),
            spanned_non_layout(new_pending@) + spanned_non_layout(pending@) == spanned_non_layout(orig),
            nl_full(new_pending@) + nl_full(pending@) == nl_full(orig),
            new_pending@.len() + pending@.len() <= orig.len(),
            orig.len() > 1,
            orig == old(pending)@,
        decreases 2 * pending@.len() + new_pending@.len(),
    {
        let ghost np0 = new_pending@;
        let ghost p0 = pending@;
        let ghost st0 = stack@;
        let ghost rest = np0.drop_last();
        proof {
            lemma_spanned_all_layout(np0);
            lemma_spanned_front(p0);
            assert(tokens_of(p0.subrange(1, p0.len() as int)) =~= tokens_of(p0).subrange(1, p0.len() as int));
            assert(tokens_of(p0)[0] == p0[0].1);
            lemma_spanned_one(p0[0]);
        }
        let top = new_pending.pop_back();
        proof {
            if new_pending@.len() > 0 || top is Some {
                assert(new_pending@ == np0.subrange(0, np0.len() - 1));
            }
        }
        match top {
            Some((start, Token::Newline, end)) => match pending.pop_front() {
                Some((_, Token::Newline, nend)) => {
                    new_pending.push_back((start, Token::Newline, nend));
                    proof {
                        lemma_spanned_one((start, Token::Newline, nend));
                        lemma_spanned_concat(np0.subrange(0, np0.len() - 1), seq![(start, Token::Newline, nend)]);
                        assert(new_pending@ =~= np0.subrange(0, np0.len() - 1) + seq![(start, Token::Newline, nend)]);
                        lemma_spanned_all_layout(new_pending@);
                        assert(new_pending@ =~= rest.push((np0.last().0, Token::Newline, p0[0].2)));
                        assert(pending@ =~= p0.drop_first());
                        assert(compact_from(new_pending@, pending@, stack@) == compact_from(np0, p0, st0));
                    }
                },
                Some((nstart, Token::Dedent, nend)) => {
                    if stack.len() == 0 {
                        new_pending.push_back((start, Token::Newline, end));
                        new_pending.push_back((nstart, Token::Dedent, nend));
                        proof {
                            lemma_spanned_all_layout(new_pending@);
                            assert(new_pending@ =~= rest.push(np0.last()).push(p0[0]));
                            assert(pending@ =~= p0.drop_first());
                            assert(compact_from(new_pending@, pending@, stack@) == compact_from(np0, p0, st0));
                        }
                    } else {
                        let last = stack.pop().unwrap();
                        let mut first = start;
                        proof {
                            assert(new_pending@ =~= rest.subrange(0, rest.len() as int));
                        }
                        while new_pending.len() > last
                            invariant
                                forall|k: int|
                                    0 <= k < new_pending@.len() ==> (#[trigger] new_pending@[k]).1.is_layout(),
                                new_pending@.len() < np0.len(),
                                new_pending@.len() <= rest.len(),
                                new_pending@ == rest.subrange(0, new_pending@.len() as int),
                                rest.len() > last ==> new_pending@.len() >= last,
                                rest.len() <= last ==> new_pending@.len() == rest.len(),
                                first == (if new_pending@.len() < rest.len() {
                                    rest[new_pending@.len() as int].0
                                } else {
                                    np0.last().0
                                }),
                            decreases new_pending@.len(),
                        {
                            let ghost n0 = new_pending@;
                            let dropped = new_pending.pop_back().unwrap();
                            first = dropped.0;
                            proof {
                                assert(new_pending@ =~= rest.subrange(0, new_pending@.len() as int));
                                assert(dropped == rest[new_pending@.len() as int]);
                            }
                        }
                        pending.push_front((first, Token::Newline, nend));
                        proof {
                            assert(stack@ == st0.drop_last());
                            assert(last == st0.last());
                            if rest.len() > last {
                                assert(new_pending@.len() == last);
                                assert(new_pending@ =~= rest.subrange(0, last as int));
                            } else {
                                assert(new_pending@ =~= rest.subrange(0, rest.len() as int));
                            }
                            assert(pending@ =~= seq![(first, Token::Newline, p0[0].2)] + p0.drop_first());
                            assert(compact_from(new_pending@, pending@, stack@) == compact_from(np0, p0, st0));
                            lemma_spanned_all_layout(new_pending@);
                            lemma_spanned_front(pending@);
                            lemma_spanned_one((first, Token::Newline, nend));
                            assert(pending@.subrange(1, pending@.len() as int) =~= p0.subrange(1, p0.len() as int));
                            assert(tokens_of(pending@)[0].is_layout());
                            assert forall|k: int| 0 <= k < tokens_of(pending@).len() - 1 implies (#[trigger] tokens_of(pending@)[k]).is_layout() by {
                                if k > 0 {
                                    assert(tokens_of(pending@)[k] == tokens_of(p0)[k]);
                                }
                            }
                        }
                    }
                },
                Some(value) => {
                    new_pending.push_back((start, Token::Newline, end));
                    new_pending.push_back(value);
                    proof {
                        assert(new_pending@ =~= rest.push(np0.last()).push(p0[0]));
                        assert(pending@ =~= p0.drop_first());
                        assert(compact_from(new_pending@, pending@, stack@) == compact_from(np0, p0, st0));
                        let base = np0.subrange(0, np0.len() - 1);
                        assert(new_pending@ =~= base + seq![(start, Token::Newline, end)] + seq![value]);
                        lemma_spanned_concat(base + seq![(start, Token::Newline, end)], seq![value]);
                        lemma_spanned_concat(base, seq![(start, Token::Newline, end)]);
                        lemma_spanned_one((start, Token::Newline, end));
                        lemma_spanned_all_layout(base);
                        assert forall|k: int| 0 <= k < tokens_of(new_pending@).len() - 1 implies (#[trigger] tokens_of(new_pending@)[k]).is_layout() by {
                            assert(tokens_of(new_pending@)[k] == new_pending@[k].1);
                        }
                        if pending@.len() > 0 {
                            assert(tokens_of(p0)[0].is_layout());
                        }
                    }
                },
                None => {
                    assert(false);
                },
            },
            Some((start, Token::Indent, end)) => match pending.pop_front() {
                Some((_, Token::Dedent, nend)) => {
                    pending.push_front((start, Token::Newline, nend));
                    proof {
                        assert(new_pending@ =~= rest);
                        assert(pending@ =~= seq![(np0.last().0, Token::Newline, p0[0].2)] + p0.drop_first());
                        assert(compact_from(new_pending@, pending@, stack@) == compact_from(np0, p0, st0));
                        lemma_spanned_all_layout(new_pending@);
                        lemma_spanned_front(pending@);
                        lemma_spanned_one((start, Token::Newline, nend));
                        assert(pending@.subrange(1, pending@.len() as int) =~= p0.subrange(1, p0.len() as int));
                        assert forall|k: int| 0 <= k < tokens_of(pending@).len() - 1 implies (#[trigger] tokens_of(pending@)[k]).is_layout() by {
                            if k > 0 {
                                assert(tokens_of(pending@)[k] == tokens_of(p0)[k]);
                            }
                        }
                    }
                },
                Some((_, Token::Newline, _)) => {
                    new_pending.push_back((start, Token::Indent, end));
                    proof {
                        assert(new_pending@ =~= np0);
                        assert(new_pending@ =~= rest.push(np0.last()));
                        assert(pending@ =~= p0.drop_first());
                        assert(compact_from(new_pending@, pending@, stack@) == compact_from(np0, p0, st0));
                    }
                },
                Some(t) => {
                    let here = new_pending.len();
                    if stack.len() == 0 || stack[stack.len() - 1] != here {
                        stack.push(here);
                    }
                    new_pending.push_back((start, Token::Indent, end));
                    new_pending.push_back(t);
                    proof {
                        assert(here == rest.len());
                        assert(new_pending@ =~= rest.push(np0.last()).push(p0[0]));
                        assert(pending@ =~= p0.drop_first());
                        assert(compact_from(new_pending@, pending@, stack@) == compact_from(np0, p0, st0));
                        let base = np0.subrange(0, np0.len() - 1);
                        assert(new_pending@ =~= base + seq![(start, Token::Indent, end)] + seq![t]);
                        lemma_spanned_concat(base + seq![(start, Token::Indent, end)], seq![t]);
                        lemma_spanned_concat(base, seq![(start, Token::Indent, end)]);
                        lemma_spanned_one((start, Token::Indent, end));
                        lemma_spanned_all_layout(base);
                        assert forall|k: int| 0 <= k < tokens_of(new_pending@).len() - 1 implies (#[trigger] tokens_of(new_pending@)[k]).is_layout() by {
                            assert(tokens_of(new_pending@)[k] == new_pending@[k].1);
                        }
                        if pending@.len() > 0 {
                            assert(tokens_of(p0)[0].is_layout());
                        }
                    }
                },
                None => {
                    assert(false);
                },
            },
            Some(t) => match pending.pop_front() {
                Some(t2) => {
                    new_pending.push_back(t);
                    new_pending.push_back(t2);
                    proof {
                        assert(new_pending@ =~= rest.push(np0.last()).push(p0[0]));
                        assert(pending@ =~= p0.drop_first());
                        assert(compact_from(new_pending@, pending@, stack@) == compact_from(np0, p0, st0));
                        let base = np0.subrange(0, np0.len() - 1);
                        assert(new_pending@ =~= base + seq![t] + seq![t2]);
                        assert(np0 =~= base + seq![t]);
                        lemma_spanned_concat(base + seq![t], seq![t2]);
                        assert forall|k: int| 0 <= k < tokens_of(new_pending@).len() - 1 implies (#[trigger] tokens_of(new_pending@)[k]).is_layout() by {
                            assert(tokens_of(new_pending@)[k] == new_pending@[k].1);
                        }
                        if pending@.len() > 0 {
                            assert(tokens_of(p0)[0].is_layout());
                        }
                    }
                },
                None => {
                    assert(false);
                },
            },
            None => {
                let t = pending.pop_front().unwrap();
                new_pending.push_back(t);
                proof {
                    assert(np0.len() == 0);
                    assert(new_pending@ =~= seq![p0[0]]);
                    assert(pending@ =~= p0.drop_first());
                    assert(compact_from(new_pending@, pending@, stack@) == compact_from(np0, p0, st0));
                    lemma_spanned_one(t);
                    assert(p0 =~= seq![p0[0]] + p0.subrange(1, p0.len() as int));
                    if pending@.len() > 0 {
                        assert(tokens_of(p0)[0].is_layout());
                    }
                    assert forall|k: int| 0 <= k < tokens_of(pending@).len() - 1 implies (#[trigger] tokens_of(pending@)[k]).is_layout() by {
                        assert(tokens_of(pending@)[k] == tokens_of(p0)[k + 1]);
                    }
                }
            },
        }
    }
    *pending = new_pending;
}

/// The indentation width at the end of a run of line breaks `t[k..]`, counting
/// from `acc`: a space counts one, a tab two, a line break starts again from
/// zero, and any other character ends the count.
pub open spec fn indent_from(t: Seq<char>, k: int, acc: int) -> int
    decreases t.len() - k,
{
    if k < 0 || k >= t.len() {
        acc
    } else if t[k] == ' ' {
        indent_from(t, k + 1, acc + 1)
    } else if t[k] == '\t' {
        indent_from(t, k + 1, acc + 2)
    } else if t[k] == '\n' || t[k] == '\r' {
        indent_from(t, k + 1, 0)
    } else {
        acc
    }
}

/// The indentation width that the line-break text `t` ends with.
pub open spec fn indent_width(t: Seq<char>) -> int {
    indent_from(t, 0, 0)
}

pub proof fn lemma_indent_from_bound(t: Seq<char>, k: int, acc: int)
    requires
        0 <= k <= t.len(),
        0 <= acc <= 2 * k,
    ensures
        0 <= indent_from(t, k, acc) <= 2 * t.len(),
    decreases t.len() - k,
{
    if k < t.len() {
        if t[k] == ' ' {
            lemma_indent_from_bound(t, k + 1, acc + 1);
        } else if t[k] == '\t' {
            lemma_indent_from_bound(t, k + 1, acc + 2);
        } else if t[k] == '\n' || t[k] == '\r' {
            lemma_indent_from_bound(t, k + 1, 0);
        }
    }
}

/// The indentation width of the line-break text `s[a..b]`.
pub fn calculate_indent(s: &[char], a: usize, b: usize) -> (r: usize)
    requires
        a <= b <= s@.len(),
        2 * s@.len() < usize::MAX,
    ensures
        r == indent_width(s@.subrange(a as int, b as int)),
        r <= 2 * (b - a),
{
    let ghost t = s@.subrange(a as int, b as int);
    let mut indent: usize = 0;
    let mut k = a;
    while k < b
        invariant
            a <= k <= b <= s@.len(),
            2 * s@.len() < usize::MAX,
            t == s@.subrange(a as int, b as int),
            indent <= 2 * (k - a),
            indent_from(t, k - a, indent as int) == indent_width(t),
        decreases b - k,
    {
        let c = s[k];
        assert(t[k - a] == c);
        if c == ' ' {
            indent = indent + 1;
        } else if c == '\t' {
            indent = indent + 2;
        } else if c == '\n' || c == '\r' {
            indent = 0;
        } else {
            proof {
                lemma_indent_from_bound(t, 0, 0);
            }
            return indent;
        }
        k = k + 1;
    }
    indent
}

/// How many levels of the stack are at most `x`, for a stack that grows.
pub open spec fn levels_at_most(st: Seq<usize>, x: int) -> nat
    decreases st.len(),
{
    if st.len() == 0 {
        0
    } else if st.last() <= x {
        st.len()
    } else {
        levels_at_most(st.drop_last(), x)
    }
}

/// The stack grows strictly from a bottom level of zero.
pub open spec fn indent_stack_ok(st: Seq<usize>) -> bool {
    &&& st.len() >= 1
    &&& st[0] == 0
    &&& forall|i: int, j: int| 0 <= i < j < st.len() ==> st[i] < st[j]
}

pub proof fn lemma_levels_at_most(st: Seq<usize>, x: int)
    requires
        indent_stack_ok(st),
        x >= 0,
    ensures
        1 <= levels_at_most(st, x) <= st.len(),
        forall|i: int| 0 <= i < levels_at_most(st, x) ==> st[i] <= x,
        forall|i: int| levels_at_most(st, x) <= i < st.len() ==> st[i] > x,
    decreases st.len(),
{
    if st.last() > x {
        assert(st.len() > 1);
        let d = st.drop_last();
        assert(indent_stack_ok(d));
        lemma_levels_at_most(d, x);
        assert forall|i: int| 0 <= i < levels_at_most(st, x) implies st[i] <= x by {
            assert(d[i] == st[i]);
        }
        assert forall|i: int| levels_at_most(st, x) <= i < st.len() implies st[i] > x by {
            if i < d.len() {
                assert(d[i] == st[i]);
            }
        }
    } else {
        assert forall|i: int| 0 <= i < levels_at_most(st, x) implies st[i] <= x by {
            if i < st.len() - 1 {
                assert(st[i] < st[st.len() - 1]);
            }
        }
    }
}

/// `n` DEDENT tokens at `loc`.
pub open spec fn dedents(n: nat, loc: Location) -> Seq<Spanned<Token>> {
    Seq::new(n, |_i: int| (loc, Token::Dedent, loc))
}

/// The queue after a line break from `start` to `end`: a NEWLINE that ends
/// the queue is stretched to `end`; otherwise a NEWLINE from `start` to
/// `end` is added.
pub open spec fn with_newline(p: Seq<Spanned<Token>>, start: Location, end: Location) -> Seq<Spanned<Token>> {
    if p.len() > 0 && p.last().1 is Newline {
        p.drop_last().push((p.last().0, Token::Newline, end))
    } else {
        p.push((start, Token::Newline, end))
    }
}

/// The stack of levels and the tokens at `loc` for a line indented by `w`:
/// a deeper line opens a level with one INDENT; otherwise each level deeper
/// than `w` is closed with one DEDENT.
pub open spec fn indentation(st: Seq<usize>, w: int, loc: Location) -> (Seq<usize>, Seq<Spanned<Token>>) {
    if w > st.last() {
        (st.push(w as usize), seq![(loc, Token::Indent, loc)])
    } else {
        let j = levels_at_most(st, w);
        (st.subrange(0, j as int), dedents((st.len() - j) as nat, loc))
    }
}

/// Queues the INDENT or DEDENT tokens for a line indented by `new_indent`:
/// one INDENT when it is deeper than the current level, one DEDENT for each
/// level left when it is shallower, nothing when it is the same.
pub fn emit_indentation_tokens(
    indent_stack: &mut Vec<usize>,
    pending: &mut VecDeque<Spanned<Token>>,
    new_indent: usize,
    loc: Location,
)
    requires
        indent_stack_ok(old(indent_stack)@),
    ensures
        indent_stack_ok(final(indent_stack)@),
        ({
            let st = old(indent_stack)@;
            let j = levels_at_most(st, new_indent as int);
            if new_indent > st.last() {
                &&& final(indent_stack)@ == st.push(new_indent)
                &&& final(pending)@ == old(pending)@.push((loc, Token::Indent, loc))
            } else {
                &&& final(indent_stack)@ == st.subrange(0, j as int)
                &&& final(pending)@ == old(pending)@ + dedents((st.len() - j) as nat, loc)
            }
        }),
{
    let ghost st = indent_stack@;
    let ghost p0 = pending@;
    let current = indent_stack[indent_stack.len() - 1];
    if new_indent > current {
        indent_stack.push(new_indent);
        pending.push_back((loc, Token::Indent, loc));
        proof {
            assert forall|i: int, j: int| 0 <= i < j < indent_stack@.len() implies indent_stack@[i] < indent_stack@[j] by {
                if j < st.len() {
                } else {
                    assert(st[i] <= st.last());
                }
            }
        }
    } else {
        proof {
            lemma_levels_at_most(st, new_indent as int);
            assert(p0 + dedents(0, loc) =~= p0);
        }
        let ghost j = levels_at_most(st, new_indent as int);
        while indent_stack[indent_stack.len() - 1] > new_indent
            invariant
                j <= indent_stack@.len() <= st.len(),
                1 <= j,
                indent_stack@ == st.subrange(0, indent_stack@.len() as int),
                forall|i: int| 0 <= i < j ==> st[i] <= new_indent,
                forall|i: int| j <= i < st.len() ==> st[i] > new_indent,
                pending@ == p0 + dedents((st.len() - indent_stack@.len()) as nat, loc),
            decreases indent_stack@.len(),
        {
            let ghost before = pending@;
            indent_stack.pop();
            pending.push_back((loc, Token::Dedent, loc));
            proof {
                assert(pending@ =~= p0 + dedents((st.len() - indent_stack@.len()) as nat, loc));
            }
        }
        proof {
            assert(indent_stack@.len() == j);
        }
    }
}

/// Whether the queue holds a token other than a layout token; the queue is
/// compacted on the way.
pub fn should_emit_tokens(pending: &mut VecDeque<Spanned<Token>>) -> (r: bool)
    requires
        layout_then_last(tokens_of(old(pending)@)),
    ensures
        final(pending)@ == compacted(old(pending)@),
        spanned_non_layout(final(pending)@) == spanned_non_layout(old(pending)@),
        nl_full(final(pending)@) == nl_full(old(pending)@),
        final(pending)@.len() <= old(pending)@.len(),
        layout_then_last(tokens_of(final(pending)@)),
        r == (spanned_non_layout(old(pending)@).len() > 0),
{
    let mut found = false;
    let mut k: usize = 0;
    while k < pending.len()
        invariant
            0 <= k <= pending@.len(),
            found == exists|i: int| 0 <= i < k && !(#[trigger] pending@[i]).1.is_layout(),
        decreases pending@.len() - k,
    {
        if !pending[k].1.layout() {
            found = true;
        }
        k = k + 1;
    }
    proof {
        lemma_spanned_non_layout_empty(pending@);
    }
    compact_pending_tokens(pending);
    found
}

/// A sequence has a non-layout token exactly when one of its tokens is not a layout token.
pub proof fn lemma_spanned_non_layout_empty(v: Seq<Spanned<Token>>)
    ensures
        (spanned_non_layout(v).len() > 0) == exists|i: int| 0 <= i < v.len() && !(#[trigger] v[i]).1.is_layout(),
    decreases v.len(),
{
    if v.len() > 0 {
        let d = v.subrange(0, v.len() - 1);
        lemma_spanned_back(v);
        lemma_spanned_non_layout_empty(d);
        lemma_spanned_one(v.last());
        if exists|i: int| 0 <= i < v.len() && !(#[trigger] v[i]).1.is_layout() {
            let i = choose|i: int| 0 <= i < v.len() && !(#[trigger] v[i]).1.is_layout();
            if i < v.len() - 1 {
                assert(d[i] == v[i]);
            }
        }
        if exists|i: int| 0 <= i < d.len() && !(#[trigger] d[i]).1.is_layout() {
            let i = choose|i: int| 0 <= i < d.len() && !(#[trigger] d[i]).1.is_layout();
            assert(v[i] == d[i]);
        }
    } else {
        assert(tokens_of(v) =~= Seq::<Token>::empty());
    }
}

/// Closes every open level down to the bottom one, queueing one DEDENT per level.
pub fn close_all_levels(
    indent_stack: &mut Vec<usize>,
    pending: &mut VecDeque<Spanned<Token>>,
    loc: Location,
)
    requires
        indent_stack_ok(old(indent_stack)@),
    ensures
        final(indent_stack)@ == old(indent_stack)@.subrange(0, 1),
        indent_stack_ok(final(indent_stack)@),
        final(pending)@ == old(pending)@ + dedents((old(indent_stack)@.len() - 1) as nat, loc),
{
    let ghost st = indent_stack@;
    let ghost p0 = pending@;
    proof {
        assert(p0 + dedents(0, loc) =~= p0);
    }
    while indent_stack.len() > 1
        invariant
            1 <= indent_stack@.len() <= st.len(),
            indent_stack_ok(st),
            indent_stack@ == st.subrange(0, indent_stack@.len() as int),
            pending@ == p0 + dedents((st.len() - indent_stack@.len()) as nat, loc),
        decreases indent_stack@.len(),
    {
        indent_stack.pop();
        pending.push_back((loc, Token::Dedent, loc));
        proof {
            assert(pending@ =~= p0 + dedents((st.len() - indent_stack@.len()) as nat, loc));
        }
    }
    proof {
        assert(indent_stack@ =~= st.subrange(0, 1));
    }
}

} // verus!
