//! Lexer for Dolfin that handles indentation-based syntax.
//!
//! This lexer produces INDENT and DEDENT tokens based on indentation changes,
//! similar to Python's lexer.

pub mod balance;
pub mod layout;
pub mod scan;
pub mod source;
pub mod stream;
pub mod token;

use vstd::prelude::*;

use std::collections::VecDeque;

use crate::comment::{add_view, comment_view, comment_views, Comment, CommentSink, CommentView};
use crate::error::{ErrorCode, LexerError, Location, Span};
use crate::lexer::balance::{depth, lemma_indents_balance, never_below, no_line_start_form_feed};
use crate::lexer::layout::{
    calculate_indent, close_all_levels, compacted, dedents, emit_indentation_tokens, indent_stack_ok,
    indent_width, indentation, layout_then_last, with_newline,
    lemma_full_tokens, lemma_only_last_counts, lemma_spanned_back, lemma_spanned_concat, lemma_spanned_non_layout_empty, lemma_spanned_one, nl_full,
    should_emit_tokens, spanned_non_layout,
};
use crate::lexer::scan::{make_raw_token, raw_token_ok, scan, scan_at, Lexeme};
use crate::lexer::source::{
    ascending, byte_offsets, char_offsets, lemma_chars_within_bytes, lemma_location_in_prefix,
    lemma_offsets_are_bytes, lemma_offsets_grow, location_from_offset, location_in, newline_offsets_in,
    offsets_ok, record_newlines,
};
use crate::lexer::stream::{
    breaks_from, lemma_breaks_after, lemma_breaks_step, lemma_spans_step, lex_ok, lexeme_fails, loc_at,
    located_match, non_layout, payload_ok, spans_from, token_matches, tokens_match, tokens_of,
    yields_token,
};
use crate::lexer::token::{convert_raw_token, raw_to_token, RawKind, RawToken, Token};
use crate::text::{
    byte_len, chars_of, escape_seq, push_escaped, slice_chars, string_from_chars, trim_start,
    trim_start_bounds, trim_start_matches, trim_start_matches_bounds,
};

verus! {

/// A token with the locations where it starts and ends.
pub type Spanned<T> = (Location, T, Location);

/// The text of a comment: the raw text with leading whitespace, the leading
/// `#` characters and the whitespace after them removed.
pub open spec fn comment_text(raw: Seq<char>) -> Seq<char> {
    trim_start(trim_start_matches(trim_start(raw), '#'))
}

/// The comment for the text `s[i..e]` that starts at `start` and ends at `end`.
pub fn make_comment(s: &[char], i: usize, e: usize, start: Location, end: Location) -> (r: Comment)
    requires
        i <= e <= s@.len(),
    ensures
        r.text@ == comment_text(s@.subrange(i as int, e as int)),
        r.raw@ == s@.subrange(i as int, e as int).push('\n'),
        r.span == (Span { start, end }),
        r.line == start.line,
        r.column == start.column,
{
    let a = trim_start_bounds(s, i, e);
    let b = trim_start_matches_bounds(s, a, e, '#');
    let c = trim_start_bounds(s, b, e);
    let text = string_from_chars(slice_chars(s, c, e).as_slice());
    let mut raw = slice_chars(s, i, e);
    raw.push('\n');
    let raw = string_from_chars(raw.as_slice());
    Comment { text, raw, span: Span::new(start, end), line: start.line, column: start.column }
}

/// The comment that the comment lexeme `s[i..e]` gives, by value.
pub open spec fn comment_at(s: Seq<char>, i: int, e: int) -> CommentView {
    (
        comment_text(s.subrange(i, e)),
        s.subrange(i, e).push('\n'),
        Span { start: loc_at(s, i), end: loc_at(s, e) },
        loc_at(s, i).line,
        loc_at(s, i).column,
    )
}

/// The comments collected by the walk from position `i` on, starting from
/// the comments `vs`, `prev` telling whether the last lexeme that counts was
/// a comment: a comment is added, merged into the previous one when it
/// comes right after a comment and continues it; a token ends a run of
/// comments; line breaks, whitespace and errors leave the run as it is.
pub open spec fn comments_walk(s: Seq<char>, i: int, vs: Seq<CommentView>, prev: bool) -> Seq<CommentView>
    decreases s.len() - i,
{
    if i < 0 || i >= s.len() {
        vs
    } else {
        let (lx, e) = scan(s, i);
        if e <= i || e > s.len() {
            vs
        } else {
            match lx {
                Lexeme::Token(RawKind::Comment) => comments_walk(s, e, add_view(vs, comment_at(s, i, e), prev), true),
                Lexeme::Token(k) => if k != RawKind::Newline && payload_ok(s, i, k, e) {
                    comments_walk(s, e, vs, false)
                } else {
                    comments_walk(s, e, vs, prev)
                },
                _ => comments_walk(s, e, vs, prev),
            }
        }
    }
}

/// The stack of levels and the queue after the line break `s[i..e]` that
/// runs from `start` to `end`: the NEWLINE is added to the queue `p`; then,
/// unless a comment comes next, the levels and layout tokens of the next
/// line's indentation.
pub open spec fn line_break_queue(
    p: Seq<Spanned<Token>>,
    st: Seq<usize>,
    s: Seq<char>,
    i: int,
    e: int,
    start: Location,
    end: Location,
) -> (Seq<usize>, Seq<Spanned<Token>>) {
    let q = with_newline(p, start, end);
    if comment_follows(s, e) {
        (st, q)
    } else {
        let (st2, ts) = indentation(st, indent_width(s.subrange(i, e)), end);
        (st2, q + ts)
    }
}

/// The part of the lexer's state that decides what it hands out: the
/// position in the text, the queued tokens, the stack of indentation levels,
/// whether no token was read since the last line break, and whether the end
/// of the text was reached.
pub type LexState = (int, Seq<Spanned<Token>>, Seq<usize>, bool, bool);

/// What one call of the lexer hands out, by value: a token with the
/// locations where it starts and ends, or an error's code, message and location.
pub type LexItem = Result<Spanned<Token>, (ErrorCode, Seq<char>, Location)>;

/// What a call hands out, by value.
pub open spec fn item_view(r: Result<Spanned<Token>, LexerError>) -> LexItem {
    match r {
        Ok(t) => Ok(t),
        Err(e) => Err((e.code, e.message@, e.location)),
    }
}

/// The state of a lexer made for a text: at its start, nothing queued, one
/// level of indentation zero, at the start of a line.
pub open spec fn initial_state() -> LexState {
    (0, Seq::empty(), seq![0usize], true, false)
}

/// Where the scan for the next token stops.
pub enum ScanEnd {
    /// The end of the text.
    Finish,
    /// The text `s[i..e]`, which no rule accepts.
    Fault(int, int),
    /// The token of kind `k` for the text `s[i..e]`.
    Tok(RawKind, int, int),
}

/// The scan for the next token from position `pos`, with the queue `p`, the
/// levels `st` and the flag `als` telling that no token was read since the
/// last line break: whitespace and comments are passed over; a line break
/// queues its NEWLINE and the layout tokens of the next line (see
/// [`line_break_queue`]), the queue is compacted and the flag set; the scan
/// stops at the end of the text, at text that no rule accepts, or at a token.
/// The result is the position, queue, levels and flag where it stops, and why.
pub open spec fn scan_until(s: Seq<char>, pos: int, p: Seq<Spanned<Token>>, st: Seq<usize>, als: bool) -> (
    int,
    Seq<Spanned<Token>>,
    Seq<usize>,
    bool,
    ScanEnd,
)
    decreases s.len() - pos,
{
    if pos < 0 || pos >= s.len() {
        (pos, p, st, als, ScanEnd::Finish)
    } else {
        let (lx, e) = scan(s, pos);
        if e <= pos || e > s.len() {
            (pos, p, st, als, ScanEnd::Finish)
        } else {
            match lx {
                Lexeme::Skip => scan_until(s, e, p, st, als),
                Lexeme::Fail => (pos, p, st, als, ScanEnd::Fault(pos, e)),
                Lexeme::Token(RawKind::Comment) => scan_until(s, e, p, st, als),
                Lexeme::Token(RawKind::Newline) => {
                    let (st2, q) = line_break_queue(p, st, s, pos, e, loc_at(s, pos), loc_at(s, e));
                    scan_until(s, e, compacted(q), st2, true)
                },
                Lexeme::Token(k) => if payload_ok(s, pos, k, e) {
                    (pos, p, st, als, ScanEnd::Tok(k, pos, e))
                } else {
                    (pos, p, st, als, ScanEnd::Fault(pos, e))
                },
            }
        }
    }
}

/// A call that scans, from the state `st` (its queue holding layout tokens
/// only, the end not reached), hands out `item` and leaves the state `st2`.
/// The scan (see [`scan_until`]) runs; then
/// - at the end of the text: a NEWLINE is queued unless no token was read
///   since the last line break, then one DEDENT per open level and EOF, all
///   located at the end of the text, and the first queued token is handed out;
/// - at text that no rule accepts: its error is handed out, located where the
///   text starts, and lexing goes on after it;
/// - at a token: it is queued, located where its text starts and ends, and
///   the first queued token is handed out.
pub open spec fn scan_event(s: Seq<char>, st: LexState, st2: LexState, item: LexItem) -> bool {
    let (pos, p, levels, als, end) = scan_until(s, st.0, st.1, st.2, st.3);
    match end {
        ScanEnd::Finish => {
            let loc = loc_at(s, s.len() as int);
            let q = (if als {
                p
            } else {
                p.push((loc, Token::Newline, loc))
            }) + dedents((levels.len() - 1) as nat, loc) + seq![(loc, Token::Eof, loc)];
            &&& st2 == (s.len() as int, q.drop_first(), levels.subrange(0, 1), als, true)
            &&& item == Ok::<Spanned<Token>, (ErrorCode, Seq<char>, Location)>(q[0])
        },
        ScanEnd::Fault(i, e) => {
            &&& st2 == (e, p, levels, als, false)
            &&& item == Err::<Spanned<Token>, (ErrorCode, Seq<char>, Location)>(
                (ErrorCode::InvalidCharacter, unrecognized_message(s.subrange(i, e)), loc_at(s, i)),
            )
        },
        ScanEnd::Tok(k, i, e) => exists|t: Token|
            #![trigger token_matches(s, (k, i, e), t)]
            {
                let q = p.push((loc_at(s, i), t, loc_at(s, e)));
                &&& token_matches(s, (k, i, e), t)
                &&& st2 == (e, q.drop_first(), levels, false, false)
                &&& item == Ok::<Spanned<Token>, (ErrorCode, Seq<char>, Location)>(q[0])
            },
    }
}

/// One call of the lexer from the state `st` hands out `item` and leaves the
/// state `st2`: the queue is compacted (see [`compacted`]); when it holds a
/// token other than a layout token, its first token is handed out; otherwise,
/// before the end of the text, the scan runs (see [`scan_event`]).
pub open spec fn lex_step(s: Seq<char>, st: LexState, st2: LexState, item: LexItem) -> bool {
    let q = compacted(st.1);
    if spanned_non_layout(st.1).len() > 0 {
        &&& st2 == (st.0, q.drop_first(), st.2, st.3, st.4)
        &&& item == Ok::<Spanned<Token>, (ErrorCode, Seq<char>, Location)>(q[0])
    } else {
        !st.4 && scan_event(s, (st.0, q, st.2, st.3, st.4), st2, item)
    }
}

/// The lexer hands out nothing more from the state `st`: the end of the text
/// was reached and no token other than a layout token is queued.
pub open spec fn lex_done(st: LexState) -> bool {
    st.4 && spanned_non_layout(st.1).len() == 0
}

/// The lexer made for `s` hands out `items`, call by call, going through the
/// states `states`.
pub open spec fn lex_trace(s: Seq<char>, states: Seq<LexState>, items: Seq<LexItem>) -> bool {
    &&& states.len() == items.len() + 1
    &&& states[0] == initial_state()
    &&& forall|k: int| #![trigger items[k]] 0 <= k < items.len() ==> lex_step(s, states[k], states[k + 1], items[k])
}

/// The lexer made for `s` hands out `items`, call by call, and then nothing.
pub open spec fn lexes_to(s: Seq<char>, items: Seq<LexItem>) -> bool {
    exists|states: Seq<LexState>| #[trigger] lex_trace(s, states, items) && lex_done(states.last())
}

/// Once the lexer hands out nothing, it hands out nothing more: a state
/// from which nothing is handed out has no step.
pub proof fn lemma_done_is_final(s: Seq<char>, st: LexState, st2: LexState, item: LexItem)
    requires
        lex_done(st),
    ensures
        !lex_step(s, st, st2, item),
{
}

/// A line break before a comment does not change the indentation levels:
/// it queues its NEWLINE only, whatever the comment line's indentation.
pub proof fn lemma_comment_line_keeps_levels(
    p: Seq<Spanned<Token>>,
    st: Seq<usize>,
    s: Seq<char>,
    i: int,
    e: int,
    start: Location,
    end: Location,
)
    requires
        comment_follows(s, e),
    ensures
        line_break_queue(p, st, s, i, e, start, end) == (st, with_newline(p, start, end)),
{
}

/// The tokens `ts`, each handed out as a token.
pub open spec fn ok_items(ts: Seq<Spanned<Token>>) -> Seq<LexItem> {
    ts.map_values(|t: Spanned<Token>| Ok::<Spanned<Token>, (ErrorCode, Seq<char>, Location)>(t))
}

/// The message for text that no token rule accepts.
pub open spec fn unrecognized_message(bad: Seq<char>) -> Seq<char> {
    "Unrecognized character: '"@ + escape_seq(bad) + "'"@
}

/// The error for the text `s[i..d]` that no token rule accepts, found at `loc`.
pub fn unrecognized(s: &[char], i: usize, d: usize, loc: Location) -> (r: LexerError)
    requires
        i <= d <= s@.len(),
    ensures
        r.message@ == unrecognized_message(s@.subrange(i as int, d as int)),
        r.location == loc,
        r.code == ErrorCode::InvalidCharacter,
{
    let mut m = chars_of("Unrecognized character: '");
    push_escaped(&mut m, s, i, d);
    m.push('\'');
    proof {
        reveal_strlit("'");
        assert(m@ =~= unrecognized_message(s@.subrange(i as int, d as int)));
    }
    LexerError::new(string_from_chars(m.as_slice()), loc, ErrorCode::InvalidCharacter)
}

/// The error is the lexer's for text of `s` that no rule accepts.
pub open spec fn lexer_message_ok(s: Seq<char>, e: LexerError) -> bool {
    e.code == ErrorCode::InvalidCharacter && !lex_ok(s, 0) && exists|i: int, d: int|
        #![trigger s.subrange(i, d)]
        0 <= i < d <= s.len() && lexeme_fails(s, i) && scan(s, i).1 == d && e.message@
            == unrecognized_message(s.subrange(i, d)) && e.location == loc_at(s, i)
}

/// A comment comes next at `j`, past any whitespace.
pub open spec fn comment_follows(s: Seq<char>, j: int) -> bool
    decreases s.len() - j,
{
    if j < 0 || j >= s.len() {
        false
    } else {
        let e = scan(s, j).1;
        if e <= j || e > s.len() {
            false
        } else {
            match scan(s, j).0 {
                Lexeme::Skip => comment_follows(s, e),
                Lexeme::Token(k) => k == RawKind::Comment,
                Lexeme::Fail => false,
            }
        }
    }
}

fn comment_follows_exec(s: &[char], j0: usize) -> (r: bool)
    requires
        j0 <= s@.len(),
    ensures
        r == comment_follows(s@, j0 as int),
{
    let mut j = j0;
    while j < s.len()
        invariant
            j0 <= j <= s@.len(),
            comment_follows(s@, j0 as int) == comment_follows(s@, j as int),
        decreases s@.len() - j,
    {
        let (lx, e) = scan_at(s, j);
        match lx {
            Lexeme::Skip => {
                j = e;
            },
            Lexeme::Token(k) => {
                return match k {
                    RawKind::Comment => true,
                    _ => false,
                };
            },
            Lexeme::Fail => {
                return false;
            },
        }
    }
    false
}

/// An accepted token is not a layout token, and its text is accepted.
pub(crate) proof fn lemma_accepted(s: Seq<char>, i: int, k: RawKind, e: int, raw: RawToken)
    requires
        raw_token_ok(s, i, k, e, Some(raw)),
        k != RawKind::Comment,
        k != RawKind::Newline,
    ensures
        payload_ok(s, i, k, e),
        !raw_to_token(raw).is_layout(),
        !(raw_to_token(raw) is Eof),
        token_matches(s, (k, i, e), raw_to_token(raw)),
{
    assert(raw_token_ok(s, (k, i, e).1, (k, i, e).0, (k, i, e).2, Some(raw)) && raw_to_token(raw)
        == raw_to_token(raw));
}

/// Where the line breaks before `pos` are `nls`, the location of a position
/// `k` from `pos` on, before any later line break, is found from `nls` alone.
proof fn lemma_loc_from_recorded(s: Seq<char>, offsets: Seq<usize>, nls: Seq<usize>, pos: int, k: int)
    requires
        offsets_ok(s, offsets),
        0 <= pos <= k <= s.len(),
        breaks_from(s, 0) == nls + breaks_from(s, pos),
        forall|j: int| 0 <= j < breaks_from(s, pos).len() ==> #[trigger] breaks_from(s, pos)[j] >= offsets[k],
    ensures
        location_in(nls, offsets[k]) == loc_at(s, k),
{
    lemma_offsets_are_bytes(s, offsets);
    lemma_location_in_prefix(nls, breaks_from(s, pos), offsets[k]);
}

/// The lexer: it turns a source text into tokens, with INDENT and DEDENT tokens
/// for changes of indentation and NEWLINE tokens for line breaks, and collects
/// the comments on the side.
pub struct Lexer {
    chars: Vec<char>,
    offsets: Vec<usize>,
    pos: usize,
    indent_stack: Vec<usize>,
    pending_tokens: VecDeque<Spanned<Token>>,
    newline_offsets: Vec<usize>,
    at_line_start: bool,
    finished: bool,
    comment_sink: CommentSink,
    previous_token_was_comment: bool,
    consumed: Ghost<Seq<(RawKind, int, int)>>,
    emitted: Ghost<Seq<Token>>,
    located: Ghost<Seq<Spanned<Token>>>,
    start_comments: Ghost<Seq<Comment>>,
    clean: Ghost<bool>,
}

impl Lexer {
    /// The source text.
    pub closed spec fn source(&self) -> Seq<char> {
        self.chars@
    }

    /// The tokens other than layout tokens that were handed out so far.
    pub closed spec fn emitted(&self) -> Seq<Token> {
        self.emitted@
    }

    /// The tokens other than layout tokens that were handed out so far, with
    /// their locations.
    pub closed spec fn located(&self) -> Seq<Spanned<Token>> {
        self.located@
    }

    /// The end of the text was reached.
    pub closed spec fn is_finished(&self) -> bool {
        self.finished
    }

    /// The part of the state that decides what the lexer hands out.
    pub closed spec fn state(&self) -> LexState {
        (self.pos as int, self.pending_tokens@, self.indent_stack@, self.at_line_start, self.finished)
    }

    /// No lexeme read so far was an error.
    pub closed spec fn is_clean(&self) -> bool {
        self.clean@
    }

    /// The comments collected so far.
    pub closed spec fn comments(&self) -> Seq<Comment> {
        self.comment_sink.view()
    }

    /// The comments that the sink held when the lexer was made.
    pub closed spec fn initial_comments(&self) -> Seq<Comment> {
        self.start_comments@
    }

    /// A bound on the number of calls of `next_token` that can still return something.
    pub closed spec fn measure(&self) -> nat {
        (5 * (self.chars@.len() - self.pos) + self.pending_tokens@.len() + 2 * self.indent_stack@.len() + (
        if self.finished {
            0int
        } else {
            2int
        }) + 1) as nat
    }

    spec fn wf_base(&self) -> bool {
        let s = self.chars@;
        &&& offsets_ok(s, self.offsets@)
        &&& byte_len(s) <= isize::MAX
        &&& self.pos <= s.len()
        &&& self.finished ==> self.pos == s.len()
        &&& indent_stack_ok(self.indent_stack@)
        &&& self.newline_offsets@.len() <= self.pos
        &&& ascending(self.newline_offsets@)
        &&& forall|k: int|
            0 <= k < self.newline_offsets@.len() ==> self.newline_offsets@[k] < self.offsets@[self.pos as int]
    }

    spec fn stream_ok(&self) -> bool {
        let s = self.chars@;
        let done = self.emitted@ + spanned_non_layout(self.pending_tokens@);
        let full = self.located@ + nl_full(self.pending_tokens@);
        &&& spans_from(s, 0) == self.consumed@ + spans_from(s, self.pos as int)
        &&& lex_ok(s, 0) == (self.clean@ && lex_ok(s, self.pos as int))
        &&& breaks_from(s, 0) == self.newline_offsets@ + breaks_from(s, self.pos as int)
        &&& tokens_of(self.located@) == self.emitted@
        &&& comments_walk(s, 0, comment_views(self.start_comments@), false) == comments_walk(
            s,
            self.pos as int,
            comment_views(self.comment_sink.view()),
            self.previous_token_was_comment,
        )
        &&& if self.finished {
            &&& done.len() == self.consumed@.len() + 1
            &&& done.last() is Eof
            &&& tokens_match(s, self.consumed@, done.drop_last())
            &&& located_match(s, self.consumed@, full.drop_last())
            &&& full.last().0 == loc_at(s, s.len() as int)
            &&& full.last().2 == loc_at(s, s.len() as int)
        } else {
            &&& tokens_match(s, self.consumed@, done)
            &&& located_match(s, self.consumed@, full)
        }
    }

    /// The lexer's state is consistent.
    pub closed spec fn wf(&self) -> bool {
        &&& self.wf_base()
        &&& layout_then_last(tokens_of(self.pending_tokens@))
        &&& self.stream_ok()
        &&& self.finished && self.pending_tokens@.len() > 0 ==> self.pending_tokens@.last().1 is Eof
        &&& !self.finished && self.pending_tokens@.len() > 0 ==> !(self.pending_tokens@.last().1 is Eof)
    }

    spec fn scanning(&self) -> bool {
        &&& self.wf()
        &&& !self.finished
        &&& spanned_non_layout(self.pending_tokens@).len() == 0
    }

    /// Create a new lexer for the given source code
    pub fn new(source: &str) -> (r: Self)
        requires
            byte_len(source@) <= isize::MAX,
        ensures
            r.wf(),
            r.source() == source@,
            r.emitted() == Seq::<Token>::empty(),
            r.located() == Seq::<Spanned<Token>>::empty(),
            r.is_clean(),
            !r.is_finished(),
            r.state() == initial_state(),
            r.comments() == Seq::<Comment>::empty(),
            r.initial_comments() == Seq::<Comment>::empty(),
    {
        Self::with_comment_sink(source, CommentSink::new())
    }

    /// Create a new lexer that adds the comments it meets to `sink`.
    pub fn with_comment_sink(source: &str, sink: CommentSink) -> (r: Self)
        requires
            byte_len(source@) <= isize::MAX,
        ensures
            r.wf(),
            r.source() == source@,
            r.emitted() == Seq::<Token>::empty(),
            r.located() == Seq::<Spanned<Token>>::empty(),
            r.is_clean(),
            !r.is_finished(),
            r.state() == initial_state(),
            r.comments() == sink.view(),
            r.initial_comments() == sink.view(),
    {
        let chars = chars_of(source);
        let offsets = char_offsets(chars.as_slice());
        let mut indent_stack: Vec<usize> = Vec::new();
        indent_stack.push(0);
        let r = Self {
            chars,
            offsets,
            pos: 0,
            indent_stack,
            pending_tokens: VecDeque::new(),
            newline_offsets: Vec::new(),
            at_line_start: true,
            finished: false,
            comment_sink: sink,
            previous_token_was_comment: false,
            consumed: Ghost(Seq::empty()),
            emitted: Ghost(Seq::empty()),
            located: Ghost(Seq::empty()),
            start_comments: Ghost(sink.view()),
            clean: Ghost(true),
        };
        proof {
            assert(r.newline_offsets@ + breaks_from(r.chars@, 0) =~= breaks_from(r.chars@, 0));
            assert(tokens_of(r.located@) =~= Seq::<Token>::empty());
            assert(r.located@ + nl_full(r.pending_tokens@) =~= Seq::<Spanned<Token>>::empty());
            assert(r.consumed@ + spans_from(r.chars@, 0) =~= spans_from(r.chars@, 0));
            assert(tokens_of(r.pending_tokens@) =~= Seq::<Token>::empty());
            assert(r.emitted@ + spanned_non_layout(r.pending_tokens@) =~= Seq::<Token>::empty());
            assert(r.pending_tokens@ =~= Seq::<Spanned<Token>>::empty());
            assert(r.indent_stack@ =~= seq![0usize]);
        }
        r
    }

    /// Consume the lexer and return the collected comments.
    pub fn into_comments(self) -> (r: CommentSink)
        ensures
            r.view() == self.comments(),
    {
        self.comment_sink
    }

    /// Borrow the collected comments.
    pub fn comment_sink(&self) -> (r: &CommentSink)
        ensures
            r.view() == self.comments(),
    {
        &self.comment_sink
    }

    /// The location of the character at index `k`.
    fn location_at(&self, k: usize) -> (r: Location)
        requires
            self.wf_base(),
            k <= self.chars@.len(),
        ensures
            r == location_in(self.newline_offsets@, self.offsets@[k as int]),
    {
        proof {
            lemma_offsets_grow(self.chars@, self.offsets@, k as int, self.chars@.len() as int);
            assert(self.chars@.subrange(0, self.chars@.len() as int) =~= self.chars@);
            lemma_chars_within_bytes(self.chars@);
        }
        location_from_offset(self.newline_offsets.as_slice(), self.offsets[k])
    }

    /// `self` continues the scan of `before`: same text and results, further on.
    spec fn advanced_from(&self, before: &Self) -> bool {
        &&& self.scanning()
        &&& self.chars@ == before.chars@
        &&& self.pos > before.pos
        &&& self.measure() < before.measure()
        &&& self.emitted@ == before.emitted@
        &&& self.located@ == before.located@
        &&& self.start_comments@ == before.start_comments@
        &&& self.clean@ == before.clean@
    }

    /// Moves past whitespace.
    fn skip_to(&mut self, e: usize)
        requires
            old(self).scanning(),
            old(self).pos < e <= old(self).chars@.len(),
            scan(old(self).chars@, old(self).pos as int) == (Lexeme::Skip, e as int),
        ensures
            final(self).advanced_from(old(self)),
            final(self).state() == (e as int, old(self).pending_tokens@, old(self).indent_stack@, old(self).at_line_start, false),
    {
        proof {
            lemma_spans_step(self.chars@, self.pos as int);
            lemma_offsets_grow(self.chars@, self.offsets@, self.pos as int, e as int);
        }
        self.pos = e;
    }

    /// Reports the text `s[i..d]` that no rule accepts, and moves past it.
    fn fail_at(&mut self, d: usize) -> (r: LexerError)
        requires
            old(self).scanning(),
            old(self).pos < d <= old(self).chars@.len(),
            scan(old(self).chars@, old(self).pos as int).1 == d,
            lexeme_fails(old(self).chars@, old(self).pos as int),
        ensures
            final(self).start_comments@ == old(self).start_comments@,
            final(self).scanning(),
            final(self).chars@ == old(self).chars@,
            final(self).measure() < old(self).measure(),
            final(self).emitted@ == old(self).emitted@,
            !final(self).clean@,
            !lex_ok(final(self).chars@, 0),
            r.code == ErrorCode::InvalidCharacter,
            r.message@ == unrecognized_message(old(self).chars@.subrange(old(self).pos as int, d as int)),
            r.location == loc_at(old(self).chars@, old(self).pos as int),
            final(self).located@ == old(self).located@,
            final(self).state() == (d as int, old(self).pending_tokens@, old(self).indent_stack@, old(self).at_line_start, false),
    {
        let i = self.pos;
        let loc = self.location_at(i);
        proof {
            lemma_breaks_after(self.chars@, i as int);
            lemma_offsets_are_bytes(self.chars@, self.offsets@);
            lemma_loc_from_recorded(self.chars@, self.offsets@, self.newline_offsets@, i as int, i as int);
        }
        let err = unrecognized(self.chars.as_slice(), i, d, loc);
        proof {
            lemma_spans_step(self.chars@, self.pos as int);
            lemma_offsets_grow(self.chars@, self.offsets@, self.pos as int, d as int);
        }
        self.pos = d;
        self.clean = Ghost(false);
        err
    }

    /// Collects the comment `s[pos..e]`.
    fn lex_comment(&mut self, e: usize)
        requires
            old(self).scanning(),
            old(self).pos < e <= old(self).chars@.len(),
            scan(old(self).chars@, old(self).pos as int) == (Lexeme::Token(RawKind::Comment), e as int),
        ensures
            final(self).advanced_from(old(self)),
            final(self).state() == (e as int, old(self).pending_tokens@, old(self).indent_stack@, old(self).at_line_start, false),
    {
        let i = self.pos;
        let start_loc = self.location_at(i);
        let end_loc = self.location_at(e);
        let comment = make_comment(self.chars.as_slice(), i, e, start_loc, end_loc);
        proof {
            let s = self.chars@;
            lemma_breaks_step(s, i as int);
            lemma_breaks_after(s, i as int);
            lemma_breaks_after(s, e as int);
            lemma_offsets_are_bytes(s, self.offsets@);
            lemma_loc_from_recorded(s, self.offsets@, self.newline_offsets@, i as int, i as int);
            lemma_loc_from_recorded(s, self.offsets@, self.newline_offsets@, i as int, e as int);
            assert(comment_view(comment) == comment_at(s, i as int, e as int));
        }
        if self.previous_token_was_comment {
            self.comment_sink.push_and_merge(comment);
        } else {
            self.comment_sink.push(comment);
        }
        self.previous_token_was_comment = true;
        proof {
            lemma_spans_step(self.chars@, self.pos as int);
            lemma_offsets_grow(self.chars@, self.offsets@, self.pos as int, e as int);
        }
        self.pos = e;
    }

    /// Queues the token `raw` for the text `s[pos..e]` and hands out the first queued token.
    fn lex_token(&mut self, k: RawKind, e: usize, raw: RawToken) -> (r: Spanned<Token>)
        requires
            old(self).scanning(),
            old(self).pos < e <= old(self).chars@.len(),
            scan(old(self).chars@, old(self).pos as int) == (Lexeme::Token(k), e as int),
            k != RawKind::Comment,
            k != RawKind::Newline,
            raw_token_ok(old(self).chars@, old(self).pos as int, k, e as int, Some(raw)),
        ensures
            final(self).start_comments@ == old(self).start_comments@,
            final(self).wf(),
            !final(self).finished,
            final(self).chars@ == old(self).chars@,
            final(self).measure() < old(self).measure(),
            final(self).emitted@ == old(self).emitted@ + non_layout(seq![r.1]),
            final(self).located@ == old(self).located@ + nl_full(seq![r]),
            final(self).clean@ == old(self).clean@,
            ({
                let s = old(self).chars@;
                let i = old(self).pos as int;
                let q = old(self).pending_tokens@.push((loc_at(s, i), raw_to_token(raw), loc_at(s, e as int)));
                &&& final(self).state() == (e as int, q.drop_first(), old(self).indent_stack@, false, false)
                &&& r == q[0]
            }),
            !(r.1 is Eof),
    {
        let i = self.pos;
        self.previous_token_was_comment = false;
        let start_loc = self.location_at(i);
        let end_loc = self.location_at(e);
        self.at_line_start = false;
        let ghost p0 = self.pending_tokens@;
        let token = convert_raw_token(raw);
        self.pending_tokens.push_back((start_loc, token, end_loc));
        proof {
            let s = self.chars@;
            lemma_accepted(s, i as int, k, e as int, raw);
            lemma_spans_step(s, i as int);
            lemma_offsets_grow(s, self.offsets@, i as int, e as int);
            lemma_spanned_concat(p0, seq![(start_loc, token, end_loc)]);
            lemma_spanned_one((start_loc, token, end_loc));
            assert(self.pending_tokens@ =~= p0 + seq![(start_loc, token, end_loc)]);
            let c0 = self.consumed@;
            let span = (k, i as int, e as int);
            self.consumed@ = c0.push(span);
            assert(spans_from(s, 0) =~= self.consumed@ + spans_from(s, e as int));
            let done = self.emitted@ + spanned_non_layout(self.pending_tokens@);
            assert(done =~= self.emitted@.push(token));
            assert forall|j: int| 0 <= j < self.consumed@.len() implies token_matches(s, #[trigger] self.consumed@[j], done[j]) by {
                if j < c0.len() {
                    assert(self.consumed@[j] == c0[j]);
                    assert(done[j] == (self.emitted@ + spanned_non_layout(p0))[j]);
                }
            }
            assert forall|j: int| 0 <= j < tokens_of(self.pending_tokens@).len() - 1 implies (#[trigger] tokens_of(self.pending_tokens@)[j]).is_layout() by {
                assert(tokens_of(self.pending_tokens@)[j] == tokens_of(p0)[j]);
                lemma_spanned_non_layout_empty(p0);
                if !p0[j].1.is_layout() {
                    assert(spanned_non_layout(p0).len() > 0);
                }
            }
            let nls = self.newline_offsets@;
            lemma_breaks_step(s, i as int);
            lemma_breaks_after(s, i as int);
            lemma_breaks_after(s, e as int);
            lemma_offsets_are_bytes(s, self.offsets@);
            lemma_loc_from_recorded(s, self.offsets@, nls, i as int, i as int);
            lemma_loc_from_recorded(s, self.offsets@, nls, i as int, e as int);
            lemma_full_tokens(p0);
            assert(nl_full(p0).len() == 0);
            let full0 = self.located@ + nl_full(p0);
            let full1 = self.located@ + nl_full(self.pending_tokens@);
            assert(full1 =~= full0.push((start_loc, token, end_loc)));
            assert forall|j: int| 0 <= j < self.consumed@.len() implies (#[trigger] full1[j]).0 == loc_at(s, self.consumed@[j].1)
                && full1[j].2 == loc_at(s, self.consumed@[j].2) by {
                if j < c0.len() {
                    assert(self.consumed@[j] == c0[j]);
                    assert(full1[j] == full0[j]);
                }
            }
            assert(start_loc == loc_at(s, i as int));
            assert(end_loc == loc_at(s, e as int));
            if p0.len() > 0 {
                lemma_spanned_non_layout_empty(p0);
                assert(!(exists|j: int| 0 <= j < p0.len() && !(#[trigger] p0[j]).1.is_layout()));
                assert(p0[0].1.is_layout());
            }
            assert(self.pending_tokens@[0] == (if p0.len() > 0 { p0[0] } else { (start_loc, token, end_loc) }));
        }
        self.pos = e;
        self.pop_pending()
    }

    /// Records the line break `s[pos..e]` and queues its NEWLINE and the
    /// INDENT or DEDENT tokens of the next line, unless a comment comes next,
    /// and compacts the queue.
    fn lex_newline(&mut self, e: usize)
        requires
            old(self).scanning(),
            old(self).pos < e <= old(self).chars@.len(),
            scan(old(self).chars@, old(self).pos as int) == (Lexeme::Token(RawKind::Newline), e as int),
        ensures
            final(self).advanced_from(old(self)),
            ({
                let s = old(self).chars@;
                let i = old(self).pos as int;
                let (st, q) = line_break_queue(
                    old(self).pending_tokens@,
                    old(self).indent_stack@,
                    s,
                    i,
                    e as int,
                    loc_at(s, i),
                    loc_at(s, e as int),
                );
                final(self).state() == (e as int, compacted(q), st, true, false)
            }),
    {
        let i = self.pos;
        let ghost s = self.chars@;
        let ghost p0 = self.pending_tokens@;
        let ghost st = self.indent_stack@;
        let start_loc = self.location_at(i);
        let ghost nls0 = self.newline_offsets@;
        proof {
            lemma_breaks_after(s, i as int);
            lemma_offsets_are_bytes(s, self.offsets@);
            lemma_loc_from_recorded(s, self.offsets@, nls0, i as int, i as int);
        }
        record_newlines(&mut self.newline_offsets, self.chars.as_slice(), self.offsets.as_slice(), i, e);
        proof {
            lemma_breaks_step(s, i as int);
            lemma_offsets_are_bytes(s, self.offsets@);
            assert(breaks_from(s, 0) =~= self.newline_offsets@ + breaks_from(s, e as int));
            lemma_full_tokens(p0);
            assert(nl_full(p0).len() == 0);
            lemma_spans_step(s, i as int);
            lemma_offsets_grow(s, self.offsets@, i as int, e as int);
            lemma_chars_within_bytes(s);
        }
        self.pos = e;
        let end_loc = self.location_at(e);
        proof {
            lemma_breaks_after(s, e as int);
            lemma_loc_from_recorded(s, self.offsets@, self.newline_offsets@, e as int, e as int);
        }
        let new_indent = calculate_indent(self.chars.as_slice(), i, e);
        proof {
            lemma_spanned_non_layout_empty(p0);
        }
        let previous = self.pending_tokens.pop_back();
        match previous {
            Some((p_start, Token::Newline, _)) => {
                self.pending_tokens.push_back((p_start, Token::Newline, end_loc));
            },
            Some(prev) => {
                self.pending_tokens.push_back(prev);
                self.pending_tokens.push_back((start_loc, Token::Newline, end_loc));
            },
            None => {
                self.pending_tokens.push_back((start_loc, Token::Newline, end_loc));
            },
        }
        let ghost p1 = self.pending_tokens@;
        proof {
            assert(p1 =~= with_newline(p0, start_loc, end_loc));
            assert(p1.len() <= p0.len() + 1);
            assert forall|k: int| 0 <= k < p1.len() implies (#[trigger] p1[k]).1.is_layout() by {
                if k < p0.len() - 1 || (k < p0.len() && !(previous matches Some((_, Token::Newline, _)))) {
                    assert(p1[k] == p0[k]);
                    if !p0[k].1.is_layout() {
                        assert(exists|j: int| 0 <= j < p0.len() && !(#[trigger] p0[j]).1.is_layout());
                    }
                }
            }
        }
        let next_is_comment = comment_follows_exec(self.chars.as_slice(), e);
        if !next_is_comment {
            emit_indentation_tokens(&mut self.indent_stack, &mut self.pending_tokens, new_indent, end_loc);
        }
        let ghost p2 = self.pending_tokens@;
        proof {
            let (st_q, q) = line_break_queue(p0, st, s, i as int, e as int, start_loc, end_loc);
            if !next_is_comment {
                let (st2, ts) = indentation(st, new_indent as int, end_loc);
                assert(p2 =~= p1 + ts);
            }
            assert(p2 == q);
            assert(self.indent_stack@ == st_q);
            let j = crate::lexer::layout::levels_at_most(st, new_indent as int);
            assert forall|k: int| 0 <= k < p2.len() implies (#[trigger] p2[k]).1.is_layout() by {
                if k < p1.len() {
                    assert(p2[k] == p1[k]);
                } else if !next_is_comment && new_indent <= st.last() {
                    assert(p2[k] == dedents((st.len() - j) as nat, end_loc)[k - p1.len()]);
                }
            }
            lemma_spanned_non_layout_empty(p2);
            assert(tokens_of(p2).len() == p2.len());
            assert forall|k: int| 0 <= k < tokens_of(p2).len() - 1 implies (#[trigger] tokens_of(p2)[k]).is_layout() by {
                assert(tokens_of(p2)[k] == p2[k].1);
            }
            if !next_is_comment {
                if new_indent > st.last() {
                    assert(p2.len() == p1.len() + 1);
                } else {
                    crate::lexer::layout::lemma_levels_at_most(st, new_indent as int);
                    assert(p2.len() == p1.len() + st.len() - j);
                }
            }
        }
        self.at_line_start = true;
        proof {
            lemma_full_tokens(p2);
            assert(nl_full(p2).len() == 0);
        }
        let _ = should_emit_tokens(&mut self.pending_tokens);
        proof {
            assert(self.located@ + nl_full(self.pending_tokens@) =~= self.located@ + nl_full(p0));
        }
    }

    /// At the end of the text: queues a NEWLINE when the last line has no line
    /// break, one DEDENT per open level and EOF, and hands out the first queued token.
    fn finish(&mut self) -> (r: Spanned<Token>)
        requires
            old(self).scanning(),
            old(self).pos == old(self).chars@.len(),
        ensures
            final(self).start_comments@ == old(self).start_comments@,
            final(self).wf(),
            final(self).finished,
            final(self).chars@ == old(self).chars@,
            final(self).measure() < old(self).measure(),
            final(self).emitted@ == old(self).emitted@ + non_layout(seq![r.1]),
            final(self).located@ == old(self).located@ + nl_full(seq![r]),
            final(self).clean@ == old(self).clean@,
            ({
                let s = old(self).chars@;
                let loc = loc_at(s, s.len() as int);
                let p = old(self).pending_tokens@;
                let levels = old(self).indent_stack@;
                let als = old(self).at_line_start;
                let q = (if als {
                    p
                } else {
                    p.push((loc, Token::Newline, loc))
                }) + dedents((levels.len() - 1) as nat, loc) + seq![(loc, Token::Eof, loc)];
                &&& final(self).state() == (s.len() as int, q.drop_first(), levels.subrange(0, 1), als, true)
                &&& r == q[0]
            }),
            r.1 is Eof <==> final(self).pending_tokens@.len() == 0,
    {
        let ghost s = self.chars@;
        let ghost p0 = self.pending_tokens@;
        let ghost st = self.indent_stack@;
        self.finished = true;
        let n = self.chars.len();
        let loc = self.location_at(n);
        if !self.at_line_start {
            self.pending_tokens.push_back((loc, Token::Newline, loc));
        }
        let ghost p1 = self.pending_tokens@;
        close_all_levels(&mut self.indent_stack, &mut self.pending_tokens, loc);
        let ghost p2 = self.pending_tokens@;
        self.pending_tokens.push_back((loc, Token::Eof, loc));
        proof {
            let p3 = self.pending_tokens@;
            lemma_spanned_non_layout_empty(p0);
            assert forall|k: int| 0 <= k < p2.len() implies (#[trigger] p2[k]).1.is_layout() by {
                if k < p1.len() {
                    assert(p2[k] == p1[k]);
                    if k < p0.len() {
                        assert(p1[k] == p0[k]);
                        if !p0[k].1.is_layout() {
                            assert(exists|j: int| 0 <= j < p0.len() && !(#[trigger] p0[j]).1.is_layout());
                        }
                    }
                } else {
                    assert(p2[k] == dedents((st.len() - 1) as nat, loc)[k - p1.len()]);
                }
            }
            lemma_spanned_non_layout_empty(p2);
            assert(p3 =~= p2 + seq![(loc, Token::Eof, loc)]);
            lemma_spanned_concat(p2, seq![(loc, Token::Eof, loc)]);
            lemma_spanned_one((loc, Token::Eof, loc));
            assert(spanned_non_layout(p2) =~= Seq::<Token>::empty());
            assert(spanned_non_layout(p3) =~= seq![Token::Eof]);
            assert forall|k: int| 0 <= k < tokens_of(p3).len() - 1 implies (#[trigger] tokens_of(p3)[k]).is_layout() by {
                assert(tokens_of(p3)[k] == p2[k].1);
            }
            assert(spans_from(s, n as int) =~= Seq::<(RawKind, int, int)>::empty());
            assert(self.consumed@ + spans_from(s, n as int) =~= self.consumed@);
            let done = self.emitted@ + spanned_non_layout(p3);
            assert(done =~= self.emitted@.push(Token::Eof));
            assert(done.drop_last() =~= self.emitted@ + spanned_non_layout(p0));
            lemma_full_tokens(p0);
            lemma_full_tokens(p2);
            assert(nl_full(p0).len() == 0);
            assert(nl_full(p2).len() == 0);
            assert(nl_full(p3) =~= seq![(loc, Token::Eof, loc)]);
            assert(breaks_from(s, n as int) =~= Seq::<usize>::empty());
            lemma_loc_from_recorded(s, self.offsets@, self.newline_offsets@, n as int, n as int);
            let full = self.located@ + nl_full(p3);
            assert(full.drop_last() =~= self.located@ + nl_full(p0));
            assert(full.last() == (loc, Token::Eof, loc));
            assert(loc == loc_at(s, s.len() as int));
            let q = (if self.at_line_start {
                p0
            } else {
                p0.push((loc, Token::Newline, loc))
            }) + dedents((st.len() - 1) as nat, loc) + seq![(loc, Token::Eof, loc)];
            assert(p1 == (if self.at_line_start {
                p0
            } else {
                p0.push((loc, Token::Newline, loc))
            }));
            assert(p3 =~= q);
            if p3.len() > 1 {
                assert(tokens_of(p3)[0] == p3[0].1);
                assert(p3[0].1.is_layout());
            }
        }
        self.pop_pending()
    }

    /// Reads lexemes until one gives a token to hand out or an error.
    fn scan_next(&mut self) -> (r: Result<Spanned<Token>, LexerError>)
        requires
            old(self).scanning(),
        ensures
            final(self).start_comments@ == old(self).start_comments@,
            final(self).wf(),
            final(self).chars@ == old(self).chars@,
            final(self).measure() < old(self).measure(),
            scan_event(old(self).chars@, old(self).state(), final(self).state(), item_view(r)),
            r matches Ok(t) ==> (t.1 is Eof <==> final(self).finished && final(self).pending_tokens@.len() == 0),
            r matches Ok(t) ==> final(self).emitted@ == old(self).emitted@ + non_layout(seq![t.1])
                && final(self).located@ == old(self).located@ + nl_full(seq![t])
                && final(self).clean@ == old(self).clean@,
            r matches Err(e) ==> final(self).located@ == old(self).located@,
            r matches Err(e) ==> final(self).emitted@ == old(self).emitted@ && !final(self).clean@
                && lexer_message_ok(final(self).chars@, e),
    {
        let ghost m0 = self.measure();
        let ghost e0 = self.emitted@;
        let ghost l0 = self.located@;
        let ghost c0 = self.clean@;
        let ghost s = self.chars@;
        let ghost goal = scan_until(s, self.pos as int, self.pending_tokens@, self.indent_stack@, self.at_line_start);
        loop
            invariant
                self.scanning(),
                s == old(self).chars@,
                m0 == old(self).measure(),
                e0 == old(self).emitted@,
                l0 == old(self).located@,
                c0 == old(self).clean@,
                goal == scan_until(s, old(self).pos as int, old(self).pending_tokens@, old(self).indent_stack@, old(self).at_line_start),
                goal == scan_until(s, self.pos as int, self.pending_tokens@, self.indent_stack@, self.at_line_start),
                self.start_comments@ == old(self).start_comments@,
                self.chars@ == s,
                self.measure() <= m0,
                self.emitted@ == e0,
                self.located@ == l0,
                self.clean@ == c0,
            decreases self.chars@.len() - self.pos,
        {
            let n = self.chars.len();
            if self.pos >= n {
                let t = self.finish();
                return Ok(t);
            }
            let i = self.pos;
            let (lx, e) = scan_at(self.chars.as_slice(), i);
            proof {
                crate::lexer::scan::lemma_scan_advances(s, i as int);
            }
            match lx {
                Lexeme::Skip => {
                    self.skip_to(e);
                },
                Lexeme::Fail => {
                    let err = self.fail_at(e);
                    proof {
                        assert(s.subrange(i as int, e as int) == s.subrange(i as int, e as int));
                    }
                    return Err(err);
                },
                Lexeme::Token(k) => {
                    match k {
                        RawKind::Comment => {
                            self.lex_comment(e);
                        },
                        RawKind::Newline => {
                            self.lex_newline(e);
                        },
                        _ => {
                            match make_raw_token(self.chars.as_slice(), i, k, e) {
                                None => {
                                    let err = self.fail_at(e);
                                    proof {
                                        assert(s.subrange(i as int, e as int) == s.subrange(i as int, e as int));
                                    }
                                    return Err(err);
                                },
                                Some(raw) => {
                                    proof {
                                        lemma_accepted(s, i as int, k, e as int, raw);
                                    }
                                    let t = self.lex_token(k, e, raw);
                                    return Ok(t);
                                },
                            }
                        },
                    }
                },
            }
        }
    }

    /// The next token or error, or `None` once the end of the text was handed out.
    ///
    /// Queued tokens come first; otherwise lexemes are read until one gives a
    /// token. An error does not stop the lexer, which goes on after the text
    /// it rejected. What each call hands out, layout tokens included, is
    /// [`lex_step`] from the lexer's state.
    pub fn next_token(&mut self) -> (r: Option<Result<Spanned<Token>, LexerError>>)
        requires
            old(self).wf(),
        ensures
            final(self).wf(),
            final(self).source() == old(self).source(),
            final(self).initial_comments() == old(self).initial_comments(),
            r is Some ==> final(self).measure() < old(self).measure(),
            r is None ==> final(self).measure() <= old(self).measure(),
            r matches Some(x) ==> lex_step(old(self).source(), old(self).state(), final(self).state(), item_view(x)),
            r is None <==> lex_done(old(self).state()),
            r is None ==> lex_done(final(self).state()),
            r matches Some(Ok(t)) ==> (final(self).state().4 && final(self).state().1.len() == 0 <==> t.1 is Eof),
            r matches Some(Ok(t)) ==> {
                &&& final(self).emitted() == old(self).emitted() + non_layout(seq![t.1])
                &&& final(self).located() == old(self).located() + nl_full(seq![t])
                &&& final(self).is_clean() == old(self).is_clean()
            },
            r matches Some(Err(e)) ==> final(self).located() == old(self).located(),
            r matches Some(Err(e)) ==> final(self).emitted() == old(self).emitted() && !final(self).is_clean()
                && lexer_message_ok(final(self).source(), e),
            r is None ==> {
                &&& final(self).emitted() == old(self).emitted()
                &&& final(self).located() == old(self).located()
                &&& final(self).is_clean() == old(self).is_clean()
                &&& final(self).is_finished()
                &&& lex_ok(final(self).source(), 0) == final(self).is_clean()
                &&& final(self).emitted().len() >= 1
                &&& final(self).emitted().last() is Eof
                &&& tokens_match(
                    final(self).source(),
                    spans_from(final(self).source(), 0),
                    final(self).emitted().drop_last(),
                )
                &&& tokens_of(final(self).located()) == final(self).emitted()
                &&& located_match(
                    final(self).source(),
                    spans_from(final(self).source(), 0),
                    final(self).located().drop_last(),
                )
                &&& final(self).located().last() == (
                    loc_at(final(self).source(), final(self).source().len() as int),
                    Token::Eof,
                    loc_at(final(self).source(), final(self).source().len() as int),
                )
                &&& comment_views(final(self).comments()) == comments_walk(
                    final(self).source(),
                    0,
                    comment_views(final(self).initial_comments()),
                    false,
                )
            },
    {
        let ghost p0 = self.pending_tokens@;
        if should_emit_tokens(&mut self.pending_tokens) {
            proof {
                if self.pending_tokens@.len() == 0 {
                    assert(tokens_of(self.pending_tokens@) =~= Seq::<Token>::empty());
                }
                lemma_full_tokens(p0);
                lemma_full_tokens(self.pending_tokens@);
                assert(nl_full(p0).len() > 0);
                lemma_only_last_counts(p0);
                lemma_only_last_counts(self.pending_tokens@);
                assert(self.pending_tokens@.last() == p0.last());
                let q = self.pending_tokens@;
                if q.len() > 1 {
                    assert(tokens_of(q)[0] == q[0].1);
                    assert(q[0].1.is_layout());
                }
            }
            let t = self.pop_pending();
            return Some(Ok(t));
        }
        if self.finished {
            proof {
                if p0.len() > 0 {
                    lemma_spanned_back(p0);
                    lemma_spanned_one(p0.last());
                    assert(false);
                }
                assert(self.pending_tokens@.len() == 0);
                let s = self.chars@;
                assert(spans_from(s, s.len() as int) =~= Seq::<(RawKind, int, int)>::empty());
                assert(self.consumed@ + spans_from(s, s.len() as int) =~= self.consumed@);
                assert(self.emitted@ + spanned_non_layout(self.pending_tokens@) =~= self.emitted@);
                lemma_full_tokens(self.pending_tokens@);
                assert(self.located@ + nl_full(self.pending_tokens@) =~= self.located@);
            }
            return None;
        }
        match self.scan_next() {
            Ok(t) => Some(Ok(t)),
            Err(e) => Some(Err(e)),
        }
    }

    /// Hands out the first queued token.
    fn pop_pending(&mut self) -> (r: Spanned<Token>)
        requires
            old(self).wf(),
            old(self).pending_tokens@.len() > 0,
        ensures
            final(self).start_comments@ == old(self).start_comments@,
            final(self).wf(),
            final(self).chars@ == old(self).chars@,
            final(self).finished == old(self).finished,
            final(self).clean@ == old(self).clean@,
            final(self).emitted@ == old(self).emitted@ + non_layout(seq![r.1]),
            final(self).located@ == old(self).located@ + nl_full(seq![r]),
            final(self).measure() + 1 == old(self).measure(),
            r == old(self).pending_tokens@[0],
            final(self).state() == (
                old(self).pos as int,
                old(self).pending_tokens@.drop_first(),
                old(self).indent_stack@,
                old(self).at_line_start,
                old(self).finished,
            ),
    {
        let ghost p0 = self.pending_tokens@;
        let t = self.pending_tokens.pop_front().unwrap();
        proof {
            assert(self.pending_tokens@ =~= p0.drop_first());
            assert(p0 =~= seq![t] + self.pending_tokens@);
            lemma_spanned_concat(seq![t], self.pending_tokens@);
            lemma_spanned_one(t);
            crate::lexer::stream::lemma_non_layout_one(t.1);
            let l0 = self.located@;
            self.located@ = self.located@ + nl_full(seq![t]);
            assert(tokens_of(self.located@) =~= tokens_of(l0) + tokens_of(nl_full(seq![t])));
            assert(self.located@ + nl_full(self.pending_tokens@) =~= l0 + nl_full(p0));
            self.emitted@ = self.emitted@ + non_layout(seq![t.1]);
            assert(self.emitted@ + spanned_non_layout(self.pending_tokens@) =~= old(self).emitted@
                + spanned_non_layout(p0));
            assert forall|k: int| 0 <= k < tokens_of(self.pending_tokens@).len() - 1 implies (#[trigger] tokens_of(self.pending_tokens@)[k]).is_layout() by {
                assert(tokens_of(self.pending_tokens@)[k] == tokens_of(p0)[k + 1]);
            }
        }
        t
    }
}

/// Lexes a whole text: its tokens with their locations, layout tokens
/// included, up to and including EOF, or the first error met.
///
/// The tokens are what a lexer made for the text hands out, call by call,
/// until it hands out nothing (see [`lexes_to`] and [`lex_step`]). The text
/// lexes without error exactly when this succeeds. Its tokens other than the
/// layout tokens are then, in order, the tokens that the token rules give
/// for it, each located at the start and end of its text, followed by EOF
/// located at the end of the text. In a text where no form feed starts a
/// line, INDENT and
/// DEDENT balance: as many of each, and never more DEDENT than INDENT tokens
/// so far (see [`lemma_indents_balance`]). An error for text that no rule accepts is
/// located where that text starts, and it is what the lexer hands out after
/// the tokens before it.
pub fn tokenize(source: &str) -> (r: Result<Vec<Spanned<Token>>, LexerError>)
    requires
        byte_len(source@) <= isize::MAX,
    ensures
        lex_ok(source@, 0) <==> r is Ok,
        r matches Ok(ts) ==> lexes_to(source@, ok_items(ts@)),
        r matches Ok(ts) ==> ts@.len() >= 1 && ts@.last() == (
            loc_at(source@, source@.len() as int),
            Token::Eof,
            loc_at(source@, source@.len() as int),
        ) && loc_at(source@, source@.len() as int).offset == byte_len(source@),
        r matches Ok(ts) ==> forall|k: int| 0 <= k < ts@.len() - 1 ==> !((#[trigger] ts@[k]).1 is Eof),
        r matches Ok(ts) ==> (no_line_start_form_feed(source@) ==> depth(ts@) == 0 && never_below(ts@, 0)),
        r matches Ok(ts) ==> {
            let nl = spanned_non_layout(ts@);
            let nf = nl_full(ts@);
            &&& nl.len() >= 1
            &&& nl.last() is Eof
            &&& tokens_match(source@, spans_from(source@, 0), nl.drop_last())
            &&& tokens_of(nf) == nl
            &&& located_match(source@, spans_from(source@, 0), nf.drop_last())
            &&& nf.last() == (loc_at(source@, source@.len() as int), Token::Eof, loc_at(source@, source@.len() as int))
        },
        r matches Err(e) ==> lexer_message_ok(source@, e),
        r matches Err(e) ==> exists|states: Seq<LexState>, ts: Seq<Spanned<Token>>|
            #[trigger] lex_trace(source@, states, ok_items(ts).push(item_view(Err(e)))),
{
    let mut lexer = Lexer::new(source);
    let mut out: Vec<Spanned<Token>> = Vec::new();
    let ghost mut states: Seq<LexState> = seq![lexer.state()];
    proof {
        assert(tokens_of(out@) =~= Seq::<Token>::empty());
        assert(ok_items(out@) =~= Seq::<LexItem>::empty());
    }
    loop
        invariant
            lexer.wf(),
            lexer.source() == source@,
            lexer.is_clean(),
            spanned_non_layout(out@) == lexer.emitted(),
            nl_full(out@) == lexer.located(),
            lex_trace(source@, states, ok_items(out@)),
            states.last() == lexer.state(),
            lexer.state().4 && lexer.state().1.len() == 0 ==> out@.len() > 0 && out@.last().1 is Eof,
            forall|k: int|
                #![trigger out@[k]]
                0 <= k < out@.len() && out@[k].1 is Eof ==> k == out@.len() - 1 && lexer.state().4
                    && lexer.state().1.len() == 0,
        decreases lexer.measure(),
    {
        let ghost o0 = out@;
        let ghost st0 = states;
        let ghost sto = lexer.state();
        match lexer.next_token() {
            Some(Ok(t)) => {
                out.push(t);
                proof {
                    lemma_spanned_concat(o0, seq![t]);
                    lemma_spanned_one(t);
                    assert(out@ =~= o0 + seq![t]);
                    assert forall|k: int|
                        #![trigger out@[k]]
                        0 <= k < out@.len() && out@[k].1 is Eof implies k == out@.len() - 1 && lexer.state().4
                            && lexer.state().1.len() == 0 by {
                        if k < o0.len() {
                            assert(out@[k] == o0[k]);
                            assert(sto.1.len() == 0 && sto.4);
                            assert(tokens_of(sto.1) =~= Seq::<Token>::empty());
                            assert(lex_done(sto));
                        } else {
                            assert(out@[k] == t);
                        }
                    }
                    states = st0.push(lexer.state());
                    assert(ok_items(out@) =~= ok_items(o0).push(item_view(Ok(t))));
                    assert forall|k: int| #![trigger ok_items(out@)[k]] 0 <= k < ok_items(out@).len() implies lex_step(
                        source@,
                        states[k],
                        states[k + 1],
                        ok_items(out@)[k],
                    ) by {
                        if k < o0.len() {
                            assert(ok_items(out@)[k] == ok_items(o0)[k]);
                            assert(states[k] == st0[k] && states[k + 1] == st0[k + 1]);
                        }
                    }
                }
            },
            Some(Err(e)) => {
                proof {
                    let its = ok_items(o0).push(item_view(Err(e)));
                    let sts = st0.push(lexer.state());
                    assert forall|k: int| #![trigger its[k]] 0 <= k < its.len() implies lex_step(
                        source@,
                        sts[k],
                        sts[k + 1],
                        its[k],
                    ) by {
                        if k < o0.len() {
                            assert(its[k] == ok_items(o0)[k]);
                            assert(sts[k] == st0[k] && sts[k + 1] == st0[k + 1]);
                        }
                    }
                    assert(lex_trace(source@, sts, its));
                }
                return Err(e);
            },
            None => {
                proof {
                    lemma_full_tokens(out@);
                    assert(lex_trace(source@, states, ok_items(out@)) && lex_done(states.last()));
                    assert(nl_full(out@) == nl_full(out@.drop_last()).push(out@.last()));
                    assert(source@.subrange(0, source@.len() as int) =~= source@);
                    if no_line_start_form_feed(source@) {
                        lemma_indents_balance(source@, out@);
                    }
                }
                return Ok(out);
            },
        }
    }
}

/// The displayed texts of the tokens of a whole text, layout tokens
/// included and EOF left out, or the message of the first error.
pub fn token_texts(source: &str) -> (r: Result<Vec<String>, String>)
    requires
        byte_len(source@) <= isize::MAX,
    ensures
        lex_ok(source@, 0) <==> r is Ok,
        r matches Ok(v) ==> exists|ts: Seq<Spanned<Token>>|
            #![trigger lexes_to(source@, ok_items(ts))]
            {
                &&& lexes_to(source@, ok_items(ts))
                &&& v@.len() == ts.len() - 1
                &&& ts.len() >= 1
                &&& ts.last().1 is Eof
                &&& forall|k: int| 0 <= k < v@.len() ==> (#[trigger] v@[k])@ == ts[k].1.spec_text()
            },
        r matches Err(m) ==> exists|e: LexerError| #[trigger] lexer_message_ok(source@, e) && e.message == m,
{
    match tokenize(source) {
        Ok(ts) => {
            let mut v: Vec<String> = Vec::new();
            let mut k: usize = 0;
            while k < ts.len() - 1
                invariant
                    ts@.len() >= 1,
                    0 <= k <= ts@.len() - 1,
                    v@.len() == k,
                    forall|j: int| 0 <= j < k ==> (#[trigger] v@[j])@ == ts@[j].1.spec_text(),
                decreases ts@.len() - k,
            {
                v.push(ts[k].1.text());
                k = k + 1;
            }
            proof {
                assert(lexes_to(source@, ok_items(ts@)));
                assert(v@.len() == ts@.len() - 1);
            }
            Ok(v)
        },
        Err(e) => {
            proof {
                assert(lexer_message_ok(source@, e));
            }
            Err(e.message)
        },
    }
}
} // verus!
