//! Comments collected from Dolfin sources, and their attachment to AST nodes.

use vstd::prelude::*;

use crate::ast::{Declaration, OntologyFile, TypeRef};
use crate::error::Span;
use crate::text::{chars_of, string_from_chars};

verus! {

/// A single comment from the source.
#[derive(Debug, Clone, PartialEq)]
pub struct Comment {
    /// The text content, without the leading `#` and without trailing newline.
    pub text: String,
    /// The raw text, including the `#`.
    pub raw: String,
    /// Position in source.
    pub span: Span,
    /// Line number (1-based) where this comment appears.
    pub line: usize,
    /// Column where the `#` starts (1-based).
    pub column: usize,
}

impl Comment {
    /// A copy of the comment.
    pub fn copy(&self) -> (r: Comment)
        ensures
            r == *self,
    {
        Comment {
            text: self.text.clone(),
            raw: self.raw.clone(),
            span: self.span,
            line: self.line,
            column: self.column,
        }
    }
}

/// A copy of a list of comments.
pub fn copy_comments(v: &Vec<Comment>) -> (r: Vec<Comment>)
    ensures
        r@ == v@,
{
    let mut r: Vec<Comment> = Vec::new();
    let mut i: usize = 0;
    while i < v.len()
        invariant
            0 <= i <= v@.len(),
            r@ == v@.subrange(0, i as int),
        decreases v@.len() - i,
    {
        r.push(v[i].copy());
        i = i + 1;
        assert(r@ =~= v@.subrange(0, i as int));
    }
    assert(r@ =~= v@);
    r
}

/// Where a comment sits relative to a code node.
#[derive(Debug, Clone, Copy, PartialEq, Eq, Structural)]
pub enum CommentPlacement {
    /// Comment on a line before the node, at the same or deeper indentation.
    ///
    /// ```text
    /// # This describes Person
    /// concept Person:
    /// ```
    Leading,
    /// Comment on the same line, after the code.
    ///
    /// ```text
    /// has name: string  # required field
    /// ```
    Trailing,
    /// Comment at the beginning of a block, that
    /// can't be seen at Leading nor Trailing.
    ///
    /// ```text
    /// has name: string
    ///   # anything here
    /// ```
    Inside,
    /// Comment inside an empty block, or between nodes where
    /// it doesn't clearly belong to either.
    ///
    /// ```text
    /// concept Empty:
    ///   # members to come
    /// ```
    Dangling,
}

/// A comment attached to a specific AST node.
#[derive(Debug, Clone)]
pub struct AttachedComment {
    pub comment: Comment,
    pub placement: CommentPlacement,
}

/// Comments that continue each other: `c` starts on the line after `prev` ends,
/// at the same column.
pub open spec fn continues(prev: Comment, c: Comment) -> bool {
    prev.span.end.line + 1 == c.line && prev.column == c.column
}

/// What a comment holds, by value: its text, its raw text, its span, its
/// line and its column.
pub type CommentView = (Seq<char>, Seq<char>, Span, usize, usize);

/// The view of a comment.
pub open spec fn comment_view(c: Comment) -> CommentView {
    (c.text@, c.raw@, c.span, c.line, c.column)
}

/// The views of a list of comments.
pub open spec fn comment_views(cs: Seq<Comment>) -> Seq<CommentView> {
    cs.map_values(|c: Comment| comment_view(c))
}

/// The comment viewed as `c` continues the one viewed as `p`: it starts on
/// the line after `p` ends, at the same column.
pub open spec fn view_continues(p: CommentView, c: CommentView) -> bool {
    p.2.end.line + 1 == c.3 && p.4 == c.4
}

/// `p` and `c` merged into one: texts joined by a newline, raw texts
/// concatenated, spans merged, the position of `p` kept.
pub open spec fn merge_views(p: CommentView, c: CommentView) -> CommentView {
    (p.0 + seq!['\n'] + c.0, p.1 + c.1, p.2.spec_merge(c.2), p.3, p.4)
}

/// The views after adding `c`: merged into the last one when `merge` is asked
/// and `c` continues it, else added at the end.
pub open spec fn add_view(vs: Seq<CommentView>, c: CommentView, merge: bool) -> Seq<CommentView> {
    if merge && vs.len() > 0 && view_continues(vs.last(), c) {
        vs.drop_last().push(merge_views(vs.last(), c))
    } else {
        vs.push(c)
    }
}

/// The comments collected while lexing, in source order.
#[derive(Debug, Clone, Default)]
pub struct CommentSink {
    inner: Vec<Comment>,
}

impl CommentSink {
    /// The collected comments.
    pub closed spec fn view(&self) -> Seq<Comment> {
        self.inner@
    }

    pub fn new() -> (r: Self)
        ensures
            r.view() == Seq::<Comment>::empty(),
    {
        Self { inner: Vec::new() }
    }

    /// Add a comment at the end.
    pub fn push(&mut self, comment: Comment)
        ensures
            final(self).view() == old(self).view().push(comment),
            comment_views(final(self).view()) == add_view(comment_views(old(self).view()), comment_view(comment), false),
    {
        self.inner.push(comment);
        proof {
            assert(comment_views(self.inner@) =~= comment_views(old(self).inner@).push(comment_view(comment)));
        }
    }

    /// Add a comment at the end, merging it into the last one when it continues it
    /// (next line, same column): texts joined by a newline, raw texts concatenated,
    /// spans merged, position of the first kept.
    pub fn push_and_merge(&mut self, comment: Comment)
        ensures
            old(self).view().len() > 0 && continues(old(self).view().last(), comment) ==> {
                let prev = old(self).view().last();
                &&& final(self).view().len() == old(self).view().len()
                &&& final(self).view().drop_last() == old(self).view().drop_last()
                &&& final(self).view().last().text@ == prev.text@ + seq!['\n'] + comment.text@
                &&& final(self).view().last().raw@ == prev.raw@ + comment.raw@
                &&& final(self).view().last().span == prev.span.spec_merge(comment.span)
                &&& final(self).view().last().line == prev.line
                &&& final(self).view().last().column == prev.column
            },
            !(old(self).view().len() > 0 && continues(old(self).view().last(), comment))
                ==> final(self).view() == old(self).view().push(comment),
            comment_views(final(self).view()) == add_view(comment_views(old(self).view()), comment_view(comment), true),
    {
        if self.inner.len() > 0 {
            let previous = self.inner.pop().unwrap();
            if comment.line >= 1 && previous.span.end.line == comment.line - 1 && previous.column
                == comment.column {
                let mut t = chars_of(previous.text.as_str());
                t.push('\n');
                let mut t2 = chars_of(comment.text.as_str());
                t.append(&mut t2);
                let mut r = chars_of(previous.raw.as_str());
                let mut r2 = chars_of(comment.raw.as_str());
                r.append(&mut r2);
                let new_comment = Comment {
                    text: string_from_chars(t.as_slice()),
                    raw: string_from_chars(r.as_slice()),
                    span: previous.span.merge(&comment.span),
                    line: previous.line,
                    column: previous.column,
                };
                proof {
                    assert(new_comment.text@ =~= previous.text@ + seq!['\n'] + comment.text@);
                    assert(new_comment.raw@ =~= previous.raw@ + comment.raw@);
                    assert(comment_view(new_comment) == merge_views(comment_view(previous), comment_view(comment)));
                }
                self.inner.push(new_comment);
            } else {
                self.inner.push(previous);
                self.inner.push(comment);
            }
        } else {
            self.inner.push(comment);
        }
        proof {
            let o = comment_views(old(self).inner@);
            if old(self).inner@.len() > 0 && continues(old(self).inner@.last(), comment) {
                assert(comment_views(self.inner@) =~= o.drop_last().push(merge_views(o.last(), comment_view(comment))));
            } else {
                assert(comment_views(self.inner@) =~= o.push(comment_view(comment)));
            }
        }
    }

    /// Extract all collected comments, leaving the sink empty.
    pub fn take(&mut self) -> (r: Vec<Comment>)
        ensures
            r@ == old(self).view(),
            final(self).view() == Seq::<Comment>::empty(),
    {
        let mut out: Vec<Comment> = Vec::new();
        std::mem::swap(&mut out, &mut self.inner);
        out
    }

    /// A copy of the collected comments.
    pub fn comments(&self) -> (r: Vec<Comment>)
        ensures
            r@ == self.view(),
    {
        copy_comments(&self.inner)
    }
}

/// Map from AST node spans to their attached comments.
#[derive(Debug, Clone)]
pub struct CommentMap {
    /// Leading comments: appear on lines before the node.
    pub leading: Vec<(Span, Vec<Comment>)>,
    /// Trailing comments: appear on the same line after the node.
    pub trailing: Vec<(Span, Vec<Comment>)>,
    /// Inside comments: appear at the beginning of a indented block,
    /// being neither leading nor trailing.
    pub inside: Vec<(Span, Vec<Comment>)>,
    /// Dangling comments: inside empty blocks or unattachable.
    pub dangling: Vec<Comment>,
}

impl CommentMap {
    /// An empty map.
    pub fn new() -> (r: Self)
        ensures
            r.leading@.len() == 0,
            r.trailing@.len() == 0,
            r.inside@.len() == 0,
            r.dangling@.len() == 0,
    {
        CommentMap { leading: Vec::new(), trailing: Vec::new(), inside: Vec::new(), dangling: Vec::new() }
    }
}

// ============================================================================
// NODE SPANS
// ============================================================================

/// The span, if there is one, as a sequence.
pub open spec fn opt_span(s: Option<Span>) -> Seq<Span> {
    match s {
        Some(x) => seq![x],
        None => seq![],
    }
}

/// The spans of a type reference.
pub open spec fn type_ref_span(t: TypeRef) -> Option<Span> {
    match t {
        TypeRef::Named { span, .. } => span,
        TypeRef::Primitive { span, .. } => span,
    }
}

/// The spans that a sequence of optional spans holds, in order.
pub open spec fn flatten_spans(v: Seq<Option<Span>>) -> Seq<Span>
    decreases v.len(),
{
    if v.len() == 0 {
        seq![]
    } else {
        flatten_spans(v.drop_last()) + opt_span(v.last())
    }
}

/// The node spans of a declaration: for a concept its own span, then those
/// of its `has` declarations, of its parents and of its `one of` variants;
/// for a property or a rule its own span; nothing for the other declarations.
pub open spec fn declaration_spans(d: Declaration) -> Seq<Span> {
    match d {
        Declaration::Concept(c) => opt_span(c.span) + flatten_spans(
            c.has_declarations@.map_values(|h: crate::ast::HasDeclaration| h.span),
        ) + flatten_spans(c.parents@.map_values(|t: TypeRef| type_ref_span(t))) + match c.one_of {
            Some(v) => flatten_spans(v@.map_values(|o: crate::ast::OneOfVariant| o.span)),
            None => Seq::<Span>::empty(),
        },
        Declaration::Property(p) => opt_span(p.span),
        Declaration::Rule(r) => opt_span(r.span),
        _ => Seq::<Span>::empty(),
    }
}

/// The node spans of a list of declarations, in order.
pub open spec fn declarations_spans(ds: Seq<Declaration>) -> Seq<Span>
    decreases ds.len(),
{
    if ds.len() == 0 {
        seq![]
    } else {
        declarations_spans(ds.drop_last()) + declaration_spans(ds.last())
    }
}

/// All node spans of an ontology: its own span, its prefixes' spans, then
/// those of its declarations.
pub open spec fn ontology_spans(o: OntologyFile) -> Seq<Span> {
    opt_span(o.span) + flatten_spans(o.prefixes@.map_values(|p: crate::ast::PrefixDecl| p.span))
        + declarations_spans(o.declarations@)
}

/// Appends the span, if there is one.
fn push_opt(out: &mut Vec<Span>, s: Option<Span>)
    ensures
        final(out)@ == old(out)@ + opt_span(s),
{
    match s {
        Some(x) => {
            out.push(x);
            proof {
                assert(final(out)@ =~= old(out)@ + opt_span(s));
            }
        },
        None => {
            proof {
                assert(old(out)@ + opt_span(s) =~= old(out)@);
            }
        },
    }
}

/// Appends `flatten_spans` of the spans `v[k].span`.
fn push_spans_of_has(out: &mut Vec<Span>, v: &Vec<crate::ast::HasDeclaration>)
    ensures
        final(out)@ == old(out)@ + flatten_spans(v@.map_values(|h: crate::ast::HasDeclaration| h.span)),
{
    let ghost o0 = out@;
    let mut i: usize = 0;
    while i < v.len()
        invariant
            0 <= i <= v@.len(),
            out@ == o0 + flatten_spans(v@.subrange(0, i as int).map_values(|h: crate::ast::HasDeclaration| h.span)),
        decreases v@.len() - i,
    {
        proof {
            let a = v@.subrange(0, i + 1).map_values(|h: crate::ast::HasDeclaration| h.span);
            assert(a.drop_last() =~= v@.subrange(0, i as int).map_values(|h: crate::ast::HasDeclaration| h.span));
        }
        push_opt(out, v[i].span);
        i = i + 1;
    }
    proof {
        assert(v@.subrange(0, v@.len() as int) =~= v@);
    }
}

fn push_spans_of_parents(out: &mut Vec<Span>, v: &Vec<TypeRef>)
    ensures
        final(out)@ == old(out)@ + flatten_spans(v@.map_values(|t: TypeRef| type_ref_span(t))),
{
    let ghost o0 = out@;
    let mut i: usize = 0;
    while i < v.len()
        invariant
            0 <= i <= v@.len(),
            out@ == o0 + flatten_spans(v@.subrange(0, i as int).map_values(|t: TypeRef| type_ref_span(t))),
        decreases v@.len() - i,
    {
        proof {
            let a = v@.subrange(0, i + 1).map_values(|t: TypeRef| type_ref_span(t));
            assert(a.drop_last() =~= v@.subrange(0, i as int).map_values(|t: TypeRef| type_ref_span(t)));
        }
        let sp = match &v[i] {
            TypeRef::Named { span, .. } => *span,
            TypeRef::Primitive { span, .. } => *span,
        };
        push_opt(out, sp);
        i = i + 1;
    }
    proof {
        assert(v@.subrange(0, v@.len() as int) =~= v@);
    }
}

fn push_spans_of_variants(out: &mut Vec<Span>, v: &Vec<crate::ast::OneOfVariant>)
    ensures
        final(out)@ == old(out)@ + flatten_spans(v@.map_values(|o: crate::ast::OneOfVariant| o.span)),
{
    let ghost o0 = out@;
    let mut i: usize = 0;
    while i < v.len()
        invariant
            0 <= i <= v@.len(),
            out@ == o0 + flatten_spans(v@.subrange(0, i as int).map_values(|o: crate::ast::OneOfVariant| o.span)),
        decreases v@.len() - i,
    {
        proof {
            let a = v@.subrange(0, i + 1).map_values(|o: crate::ast::OneOfVariant| o.span);
            assert(a.drop_last() =~= v@.subrange(0, i as int).map_values(|o: crate::ast::OneOfVariant| o.span));
        }
        push_opt(out, v[i].span);
        i = i + 1;
    }
    proof {
        assert(v@.subrange(0, v@.len() as int) =~= v@);
    }
}

fn push_spans_of_prefixes(out: &mut Vec<Span>, v: &Vec<crate::ast::PrefixDecl>)
    ensures
        final(out)@ == old(out)@ + flatten_spans(v@.map_values(|p: crate::ast::PrefixDecl| p.span)),
{
    let ghost o0 = out@;
    let mut i: usize = 0;
    while i < v.len()
        invariant
            0 <= i <= v@.len(),
            out@ == o0 + flatten_spans(v@.subrange(0, i as int).map_values(|p: crate::ast::PrefixDecl| p.span)),
        decreases v@.len() - i,
    {
        proof {
            let a = v@.subrange(0, i + 1).map_values(|p: crate::ast::PrefixDecl| p.span);
            assert(a.drop_last() =~= v@.subrange(0, i as int).map_values(|p: crate::ast::PrefixDecl| p.span));
        }
        push_opt(out, v[i].span);
        i = i + 1;
    }
    proof {
        assert(v@.subrange(0, v@.len() as int) =~= v@);
    }
}

/// Appends the node spans of a declaration.
pub fn collect_declaration_spans(decl: &Declaration, out: &mut Vec<Span>)
    ensures
        final(out)@ == old(out)@ + declaration_spans(*decl),
{
    let ghost o0 = out@;
    match decl {
        Declaration::Concept(concept_def) => {
            push_opt(out, concept_def.span);
            push_spans_of_has(out, &concept_def.has_declarations);
            push_spans_of_parents(out, &concept_def.parents);
            match &concept_def.one_of {
                Some(one_of) => push_spans_of_variants(out, one_of),
                None => {},
            }
            proof {
                assert(out@ =~= o0 + declaration_spans(*decl));
            }
        },
        Declaration::Property(property_def) => {
            push_opt(out, property_def.span);
        },
        Declaration::Rule(rule_def) => {
            push_opt(out, rule_def.span);
        },
        _ => {
            proof {
                assert(o0 + declaration_spans(*decl) =~= o0);
            }
        },
    }
}

/// Walk the AST and collect all node spans.
pub fn collect_spans(ontology: &OntologyFile, out: &mut Vec<Span>)
    ensures
        final(out)@ == old(out)@ + ontology_spans(*ontology),
{
    let ghost o0 = out@;
    push_opt(out, ontology.span);
    push_spans_of_prefixes(out, &ontology.prefixes);
    let ghost o1 = out@;
    let mut i: usize = 0;
    while i < ontology.declarations.len()
        invariant
            0 <= i <= ontology.declarations@.len(),
            out@ == o1 + declarations_spans(ontology.declarations@.subrange(0, i as int)),
        decreases ontology.declarations@.len() - i,
    {
        proof {
            assert(ontology.declarations@.subrange(0, i + 1).drop_last() =~= ontology.declarations@.subrange(0, i as int));
        }
        collect_declaration_spans(&ontology.declarations[i], out);
        i = i + 1;
        proof {
            assert(out@ =~= o1 + declarations_spans(ontology.declarations@.subrange(0, i as int)));
        }
    }
    proof {
        assert(ontology.declarations@.subrange(0, ontology.declarations@.len() as int) =~= ontology.declarations@);
        assert(out@ =~= o0 + ontology_spans(*ontology));
    }
}

// ============================================================================
// SORTING BY SPAN
// ============================================================================

/// `s` with `x` inserted after every element whose key is not after `x`'s:
/// one step of a stable insertion sort.
pub open spec fn insert_by_span<T>(s: Seq<T>, x: T, key: spec_fn(T) -> Span) -> Seq<T>
    decreases s.len(),
{
    if s.len() == 0 {
        seq![x]
    } else if key(x).spec_lt(key(s.last())) {
        insert_by_span(s.drop_last(), x, key).push(s.last())
    } else {
        s.push(x)
    }
}

/// `s` stably sorted by span (start offset, then end offset).
pub open spec fn sort_by_span<T>(s: Seq<T>, key: spec_fn(T) -> Span) -> Seq<T>
    decreases s.len(),
{
    if s.len() == 0 {
        seq![]
    } else {
        insert_by_span(sort_by_span(s.drop_last(), key), s.last(), key)
    }
}

proof fn lemma_insert_tail<T>(s: Seq<T>, x: T, key: spec_fn(T) -> Span, pos: int)
    requires
        0 <= pos <= s.len(),
        forall|k: int| pos <= k < s.len() ==> key(x).spec_lt(key(#[trigger] s[k])),
    ensures
        insert_by_span(s, x, key) == insert_by_span(s.subrange(0, pos), x, key) + s.subrange(pos, s.len() as int),
    decreases s.len() - pos,
{
    if pos < s.len() {
        let d = s.drop_last();
        assert forall|k: int| pos <= k < d.len() implies key(x).spec_lt(key(#[trigger] d[k])) by {
            assert(d[k] == s[k]);
        }
        lemma_insert_tail(d, x, key, pos);
        assert(d.subrange(0, pos) =~= s.subrange(0, pos));
        assert((insert_by_span(s.subrange(0, pos), x, key) + d.subrange(pos, d.len() as int)).push(s.last())
            =~= insert_by_span(s.subrange(0, pos), x, key) + s.subrange(pos, s.len() as int));
    } else {
        assert(s.subrange(0, pos) =~= s);
        assert(insert_by_span(s, x, key) + s.subrange(pos, s.len() as int) =~= insert_by_span(s, x, key));
    }
}

/// The position where a stable insertion puts `x` in `s`.
fn insertion_point(s: &Vec<Span>, x: Span) -> (pos: usize)
    ensures
        pos <= s@.len(),
        forall|k: int| pos <= k < s@.len() ==> x.spec_lt(#[trigger] s@[k]),
        pos > 0 ==> !x.spec_lt(s@[pos - 1]),
{
    let mut pos = s.len();
    while pos > 0 && x.lt(&s[pos - 1])
        invariant
            pos <= s@.len(),
            forall|k: int| pos <= k < s@.len() ==> x.spec_lt(#[trigger] s@[k]),
        decreases pos,
    {
        pos = pos - 1;
    }
    pos
}

/// The spans stably sorted.
pub fn sort_spans(v: Vec<Span>) -> (r: Vec<Span>)
    ensures
        r@ == sort_by_span(v@, |s: Span| s),
{
    let mut out: Vec<Span> = Vec::new();
    let mut i: usize = 0;
    while i < v.len()
        invariant
            0 <= i <= v@.len(),
            out@ == sort_by_span(v@.subrange(0, i as int), |s: Span| s),
        decreases v@.len() - i,
    {
        let x = v[i];
        let pos = insertion_point(&out, x);
        proof {
            let key = |s: Span| s;
            lemma_insert_tail(out@, x, key, pos as int);
            let pre = out@.subrange(0, pos as int);
            if pos > 0 {
                assert(pre.last() == out@[pos - 1]);
                assert(pre.drop_last().len() == pos - 1);
            }
            assert(v@.subrange(0, i + 1).drop_last() =~= v@.subrange(0, i as int));
            assert(v@.subrange(0, i + 1).last() == x);
        }
        let ghost o0 = out@;
        out.insert(pos, x);
        proof {
            let key = |s: Span| s;
            let pre = o0.subrange(0, pos as int);
            if pos == 0 {
                assert(insert_by_span(pre, x, key) =~= seq![x]);
            } else {
                assert(insert_by_span(pre, x, key) == pre.push(x));
            }
            assert(out@ =~= insert_by_span(pre, x, key) + o0.subrange(pos as int, o0.len() as int));
        }
        i = i + 1;
    }
    proof {
        assert(v@.subrange(0, v@.len() as int) =~= v@);
    }
    out
}

/// The position where a stable insertion puts a comment with span `x` in `s`.
fn comment_insertion_point(s: &Vec<Comment>, x: Span) -> (pos: usize)
    ensures
        pos <= s@.len(),
        forall|k: int| pos <= k < s@.len() ==> x.spec_lt((#[trigger] s@[k]).span),
        pos > 0 ==> !x.spec_lt(s@[pos - 1].span),
{
    let mut pos = s.len();
    while pos > 0 && x.lt(&s[pos - 1].span)
        invariant
            pos <= s@.len(),
            forall|k: int| pos <= k < s@.len() ==> x.spec_lt((#[trigger] s@[k]).span),
        decreases pos,
    {
        pos = pos - 1;
    }
    pos
}

/// The comments stably sorted by span.
pub fn sort_comments(v: Vec<Comment>) -> (r: Vec<Comment>)
    ensures
        r@ == sort_by_span(v@, |c: Comment| c.span),
{
    let ghost all = v@;
    let _n = v.len();
    let mut rest = v;
    let mut out: Vec<Comment> = Vec::new();
    let mut i: usize = 0;
    while rest.len() > 0
        invariant
            i + rest@.len() == all.len(),
            all.len() <= usize::MAX,
            rest@ == all.subrange(i as int, all.len() as int),
            out@ == sort_by_span(all.subrange(0, i as int), |c: Comment| c.span),
        decreases rest@.len(),
    {
        let x = rest.remove(0);
        proof {
            assert(x == all[i as int]);
            assert(rest@ =~= all.subrange(i + 1, all.len() as int));
        }
        let pos = comment_insertion_point(&out, x.span);
        proof {
            let key = |c: Comment| c.span;
            assert forall|k: int| pos <= k < out@.len() implies key(x).spec_lt(key(#[trigger] out@[k])) by {}
            lemma_insert_tail(out@, x, key, pos as int);
            assert(all.subrange(0, i + 1).drop_last() =~= all.subrange(0, i as int));
            assert(all.subrange(0, i + 1).last() == x);
        }
        let ghost o0 = out@;
        out.insert(pos, x);
        proof {
            let key = |c: Comment| c.span;
            let pre = o0.subrange(0, pos as int);
            if pos == 0 {
                assert(insert_by_span(pre, x, key) =~= seq![x]);
            } else {
                assert(pre.last() == o0[pos - 1]);
                assert(insert_by_span(pre, x, key) == pre.push(x));
            }
            assert(out@ =~= insert_by_span(pre, x, key) + o0.subrange(pos as int, o0.len() as int));
        }
        i = i + 1;
    }
    proof {
        assert(all.subrange(0, all.len() as int) =~= all);
    }
    out
}

// ============================================================================
// CLASSIFICATION
// ============================================================================

/// No span lies strictly between `a` and `b` in the span order.
pub open spec fn none_between(spans: Seq<Span>, a: Span, b: Span) -> bool {
    forall|k: int| 0 <= k < spans.len() ==> !(a.spec_lt(#[trigger] spans[k]) && spans[k].spec_lt(b))
}

/// No span starts after `a` starts, ends within `a`, and comes before `b`.
pub open spec fn none_within(spans: Seq<Span>, a: Span, b: Span) -> bool {
    forall|k: int|
        0 <= k < spans.len() ==> !(a.start.offset < (#[trigger] spans[k]).start.offset && spans[k].end.offset
            <= a.end.offset && spans[k].spec_lt(b))
}

/// A node the comment trails: one that ends on the comment's line before it,
/// or one that ends before it with no node in between and whose end column is
/// at most four columns before the comment's start column.
pub open spec fn trailing_candidate(c: Comment, spans: Seq<Span>, s: Span) -> bool {
    ||| (s.end.line == c.line && s.end.offset <= c.span.start.offset)
    ||| (s.end.offset <= c.span.start.offset && none_between(spans, s, c.span) && s.end.column + 4
        >= c.span.start.column && s.end.column <= c.span.start.column)
}

/// A node the comment is inside: one that ends before it with no node in
/// between, or one that contains it with no inner node before it; in both
/// cases starting at a column before the comment's.
pub open spec fn inside_candidate(c: Comment, spans: Seq<Span>, s: Span) -> bool {
    ||| (s.end.offset <= c.span.start.offset && none_between(spans, s, c.span) && s.start.column
        < c.span.start.column)
    ||| (s.start.offset <= c.span.start.offset && c.span.end.offset <= s.end.offset && none_within(
        spans,
        s,
        c.span,
    ) && s.start.column < c.span.start.column)
}

/// The number of line feeds in a text.
pub open spec fn newline_count(t: Seq<char>) -> nat
    decreases t.len(),
{
    if t.len() == 0 {
        0
    } else {
        newline_count(t.drop_last()) + if t.last() == '\n' {
            1nat
        } else {
            0nat
        }
    }
}

/// `a - b`, or zero when `b > a`.
pub open spec fn gap(a: int, b: int) -> int {
    if a >= b {
        a - b
    } else {
        0
    }
}

/// The last node, among the first `k`, that the comment trails.
pub open spec fn last_trailing(c: Comment, spans: Seq<Span>, k: int) -> Option<int>
    decreases k,
{
    if k <= 0 {
        None
    } else if trailing_candidate(c, spans, spans[k - 1]) {
        Some(k - 1)
    } else {
        last_trailing(c, spans, k - 1)
    }
}

/// The first node, from index `k` on, that starts after `off`.
pub open spec fn first_after(spans: Seq<Span>, off: int, k: int) -> Option<int>
    decreases spans.len() - k,
{
    if k < 0 || k >= spans.len() {
        None
    } else if spans[k].start.offset > off {
        Some(k)
    } else {
        first_after(spans, off, k + 1)
    }
}

/// The first node, from index `k` on, that the comment is inside.
pub open spec fn first_inside(c: Comment, spans: Seq<Span>, k: int) -> Option<int>
    decreases spans.len() - k,
{
    if k < 0 || k >= spans.len() {
        None
    } else if inside_candidate(c, spans, spans[k]) {
        Some(k)
    } else {
        first_inside(c, spans, k + 1)
    }
}

/// The first node, from index `k` on, whose span strictly contains `off`.
pub open spec fn first_containing(spans: Seq<Span>, off: int, k: int) -> Option<int>
    decreases spans.len() - k,
{
    if k < 0 || k >= spans.len() {
        None
    } else if spans[k].start.offset < off && off < spans[k].end.offset {
        Some(k)
    } else {
        first_containing(spans, off, k + 1)
    }
}

/// The last node, among the first `k`, that ends at or before `off`.
pub open spec fn last_ending_before(spans: Seq<Span>, off: int, k: int) -> Option<int>
    decreases k,
{
    if k <= 0 {
        None
    } else if spans[k - 1].end.offset <= off {
        Some(k - 1)
    } else {
        last_ending_before(spans, off, k - 1)
    }
}

/// Where a comment belongs relative to the (sorted) node spans:
/// 1. trailing the last node it trails;
/// 2. leading the first node after it when that node starts right after the
///    comment's lines;
/// 3. inside the first node it is inside;
/// 4. leading the first node after it when one blank line separates them;
/// 5. dangling in the first node whose span strictly contains its start;
/// 6. trailing the last node that ends before it, when that node ends on the
///    comment's line or the line before;
/// otherwise nowhere.
pub open spec fn classify(c: Comment, spans: Seq<Span>) -> Option<(CommentPlacement, Span)> {
    let c_off = c.span.start.offset as int;
    let c_end = c.span.end.offset as int;
    match last_trailing(c, spans, spans.len() as int) {
        Some(i) => Some((CommentPlacement::Trailing, spans[i])),
        None => {
            let count = newline_count(c.text@) + 1;
            let next = first_after(spans, c_end, 0);
            let g = match next {
                Some(i) => gap(spans[i].start.line as int, c.line as int),
                None => -1,
            };
            if next is Some && g == count {
                Some((CommentPlacement::Leading, spans[next->0]))
            } else {
                match first_inside(c, spans, 0) {
                    Some(i) => Some((CommentPlacement::Inside, spans[i])),
                    None => if next is Some && g == 1 + count {
                        Some((CommentPlacement::Leading, spans[next->0]))
                    } else {
                        match first_containing(spans, c_off, 0) {
                            Some(i) => Some((CommentPlacement::Dangling, spans[i])),
                            None => match last_ending_before(spans, c_off, spans.len() as int) {
                                Some(i) => if gap(c.line as int, spans[i].end.line as int) <= 1 {
                                    Some((CommentPlacement::Trailing, spans[i]))
                                } else {
                                    None
                                },
                                None => None,
                            },
                        }
                    },
                }
            }
        },
    }
}

proof fn lemma_search_bounds(c: Comment, spans: Seq<Span>, off: int, k: int)
    ensures
        last_trailing(c, spans, k) matches Some(i) ==> 0 <= i < k,
        last_ending_before(spans, off, k) matches Some(i) ==> 0 <= i < k,
        first_after(spans, off, k) matches Some(i) ==> k <= i < spans.len(),
        first_inside(c, spans, k) matches Some(i) ==> k <= i < spans.len(),
        first_containing(spans, off, k) matches Some(i) ==> k <= i < spans.len(),
    decreases spans.len() + if k > 0 { k } else { 0 } - k + if k > 0 { k } else { 0 },
{
    if k > 0 {
        lemma_search_bounds_back(c, spans, off, k);
    }
    if 0 <= k < spans.len() {
        lemma_search_bounds_front(c, spans, off, k);
    }
}

proof fn lemma_search_bounds_back(c: Comment, spans: Seq<Span>, off: int, k: int)
    ensures
        last_trailing(c, spans, k) matches Some(i) ==> 0 <= i < k,
        last_ending_before(spans, off, k) matches Some(i) ==> 0 <= i < k,
    decreases k,
{
    if k > 0 {
        lemma_search_bounds_back(c, spans, off, k - 1);
    }
}

proof fn lemma_search_bounds_front(c: Comment, spans: Seq<Span>, off: int, k: int)
    ensures
        first_after(spans, off, k) matches Some(i) ==> k <= i < spans.len(),
        first_inside(c, spans, k) matches Some(i) ==> k <= i < spans.len(),
        first_containing(spans, off, k) matches Some(i) ==> k <= i < spans.len(),
    decreases spans.len() - k,
{
    if 0 <= k < spans.len() {
        lemma_search_bounds_front(c, spans, off, k + 1);
    }
}

fn none_between_exec(spans: &Vec<Span>, a: &Span, b: &Span) -> (r: bool)
    ensures
        r == none_between(spans@, *a, *b),
{
    let mut k: usize = 0;
    while k < spans.len()
        invariant
            0 <= k <= spans@.len(),
            forall|j: int| 0 <= j < k ==> !(a.spec_lt(#[trigger] spans@[j]) && spans@[j].spec_lt(*b)),
        decreases spans@.len() - k,
    {
        if a.lt(&spans[k]) && spans[k].lt(b) {
            return false;
        }
        k = k + 1;
    }
    true
}

fn none_within_exec(spans: &Vec<Span>, a: &Span, b: &Span) -> (r: bool)
    ensures
        r == none_within(spans@, *a, *b),
{
    let mut k: usize = 0;
    while k < spans.len()
        invariant
            0 <= k <= spans@.len(),
            forall|j: int|
                0 <= j < k ==> !(a.start.offset < (#[trigger] spans@[j]).start.offset && spans@[j].end.offset
                    <= a.end.offset && spans@[j].spec_lt(*b)),
        decreases spans@.len() - k,
    {
        if a.start.offset < spans[k].start.offset && spans[k].end.offset <= a.end.offset && spans[k].lt(b) {
            return false;
        }
        k = k + 1;
    }
    true
}

fn newline_count_exec(t: &str) -> (r: usize)
    ensures
        r == newline_count(t@),
{
    let c = chars_of(t);
    let mut n: usize = 0;
    let mut k: usize = 0;
    while k < c.len()
        invariant
            0 <= k <= c@.len(),
            c@ == t@,
            n == newline_count(c@.subrange(0, k as int)),
            n <= k,
        decreases c@.len() - k,
    {
        proof {
            assert(c@.subrange(0, k + 1).drop_last() =~= c@.subrange(0, k as int));
        }
        if c[k] == '\n' {
            n = n + 1;
        }
        k = k + 1;
    }
    proof {
        assert(c@.subrange(0, c@.len() as int) =~= c@);
    }
    n
}

proof fn lemma_last_trailing_facts(c: Comment, spans: Seq<Span>, k: int)
    requires
        k <= spans.len(),
    ensures
        last_trailing(c, spans, k) matches Some(i) ==> 0 <= i < k && trailing_candidate(c, spans, spans[i]),
        (forall|j: int| 0 <= j < k ==> !trailing_candidate(c, spans, #[trigger] spans[j])) ==> last_trailing(
            c,
            spans,
            k,
        ) is None,
    decreases k,
{
    if k > 0 {
        lemma_last_trailing_facts(c, spans, k - 1);
    }
}

proof fn lemma_first_after_facts(spans: Seq<Span>, off: int, k: int)
    requires
        0 <= k,
    ensures
        first_after(spans, off, k) matches Some(i) ==> k <= i < spans.len() && spans[i].start.offset > off
            && forall|j: int| k <= j < i ==> (#[trigger] spans[j]).start.offset <= off,
        (exists|i: int| k <= i < spans.len() && (#[trigger] spans[i]).start.offset > off) ==> first_after(
            spans,
            off,
            k,
        ) is Some,
    decreases spans.len() - k,
{
    if k < spans.len() {
        lemma_first_after_facts(spans, off, k + 1);
    }
}

proof fn lemma_other_searches(c: Comment, spans: Seq<Span>, off: int, k: int)
    requires
        0 <= k,
    ensures
        first_inside(c, spans, k) matches Some(i) ==> k <= i < spans.len() && inside_candidate(c, spans, spans[i]),
        first_containing(spans, off, k) matches Some(i) ==> k <= i < spans.len() && spans[i].start.offset < off
            && off < spans[i].end.offset,
    decreases spans.len() - k,
{
    if k < spans.len() {
        lemma_other_searches(c, spans, off, k + 1);
    }
}

proof fn lemma_last_ending_facts(spans: Seq<Span>, off: int, k: int)
    requires
        k <= spans.len(),
    ensures
        last_ending_before(spans, off, k) matches Some(i) ==> 0 <= i < k && spans[i].end.offset <= off,
    decreases k,
{
    if k > 0 {
        lemma_last_ending_facts(spans, off, k - 1);
    }
}

/// Each placement puts a comment on the right side of its node: a comment
/// trails a node that ends before it starts; it leads the first node that
/// starts after it ends; it is inside a node that starts at a column before
/// the comment's; it dangles in a node whose span holds its start. The node
/// is always one of the given nodes.
pub proof fn lemma_placement_sides(c: Comment, spans: Seq<Span>)
    ensures
        classify(c, spans) matches Some((p, sp)) ==> spans.contains(sp),
        classify(c, spans) matches Some((CommentPlacement::Trailing, sp)) ==> sp.end.offset
            <= c.span.start.offset,
        classify(c, spans) matches Some((CommentPlacement::Leading, sp)) ==> exists|k: int|
            0 <= k < spans.len() && spans[k] == sp && sp.start.offset > c.span.end.offset && forall|j: int|
                0 <= j < k ==> (#[trigger] spans[j]).start.offset <= c.span.end.offset,
        classify(c, spans) matches Some((CommentPlacement::Inside, sp)) ==> sp.start.column
            < c.span.start.column,
        classify(c, spans) matches Some((CommentPlacement::Dangling, sp)) ==> sp.start.offset
            < c.span.start.offset && c.span.start.offset < sp.end.offset,
{
    let n = spans.len() as int;
    let c_off = c.span.start.offset as int;
    let c_end = c.span.end.offset as int;
    lemma_last_trailing_facts(c, spans, n);
    lemma_first_after_facts(spans, c_end, 0);
    lemma_other_searches(c, spans, c_off, 0);
    lemma_last_ending_facts(spans, c_off, n);
    match last_trailing(c, spans, n) {
        Some(i) => {
            assert(spans[i] == spans[i]);
        },
        None => {
            match first_after(spans, c_end, 0) {
                Some(i) => {
                    assert(spans[i] == spans[i]);
                },
                None => {},
            }
            match first_inside(c, spans, 0) {
                Some(i) => {
                    assert(spans[i] == spans[i]);
                },
                None => {},
            }
            match first_containing(spans, c_off, 0) {
                Some(i) => {
                    assert(spans[i] == spans[i]);
                },
                None => {},
            }
            match last_ending_before(spans, c_off, n) {
                Some(i) => {
                    assert(spans[i] == spans[i]);
                },
                None => {},
            }
        },
    }
}

/// A comment that no node trails leads into the first node that starts after
/// it, when that node starts on the line right after the comment's lines.
pub proof fn lemma_comment_leads_next_node(c: Comment, spans: Seq<Span>, k: int)
    requires
        forall|j: int| 0 <= j < spans.len() ==> !trailing_candidate(c, spans, #[trigger] spans[j]),
        0 <= k < spans.len(),
        spans[k].start.offset > c.span.end.offset,
        forall|j: int| 0 <= j < k ==> (#[trigger] spans[j]).start.offset <= c.span.end.offset,
        gap(spans[k].start.line as int, c.line as int) == newline_count(c.text@) + 1,
    ensures
        classify(c, spans) == Some((CommentPlacement::Leading, spans[k])),
{
    let n = spans.len() as int;
    let c_end = c.span.end.offset as int;
    lemma_last_trailing_facts(c, spans, n);
    lemma_first_after_facts(spans, c_end, 0);
    let i = first_after(spans, c_end, 0)->0;
    if i < k {
        assert(spans[i].start.offset <= c.span.end.offset);
    }
    if i > k {
        assert(spans[k].start.offset <= c_end);
    }
    assert(i == k);
}

/// Determine where a comment belongs relative to the known node spans.
#[verifier::loop_isolation(false)]
pub fn classify_comment(comment: &Comment, node_spans: &Vec<Span>) -> (r: Option<(CommentPlacement, Span)>)
    ensures
        r == classify(*comment, node_spans@),
{
    let ghost spans = node_spans@;
    let n = node_spans.len();
    let comment_line = comment.line;
    let comment_offset = comment.span.start.offset;
    let comment_end_offset = comment.span.end.offset;
    let comment_column = comment.span.start.column;
    proof {
        lemma_search_bounds(*comment, spans, comment_end_offset as int, 0);
        lemma_search_bounds(*comment, spans, comment_offset as int, 0);
        lemma_search_bounds(*comment, spans, comment_offset as int, n as int);
    }
    // 1. Trailing: the last node the comment trails.
    let mut k = n;
    while k > 0
        invariant
            k <= n == spans.len(),
            spans == node_spans@,
            comment_line == comment.line,
            comment_offset == comment.span.start.offset,
            comment_column == comment.span.start.column,
            last_trailing(*comment, spans, n as int) == last_trailing(*comment, spans, k as int),
        decreases k,
    {
        let span = node_spans[k - 1];
        let t = (span.end.line == comment_line && span.end.offset <= comment_offset) || (span.end.offset
            <= comment_offset && none_between_exec(node_spans, &span, &comment.span) && (span.end.column as u128)
            + 4 >= comment_column as u128 && span.end.column <= comment_column);
        if t {
            return Some((CommentPlacement::Trailing, span));
        }
        k = k - 1;
    }
    // 2. Leading: the first node that starts after the comment.
    let comment_lines_count: u128 = newline_count_exec(comment.text.as_str()) as u128 + 1;
    let mut i: usize = 0;
    while i < n && node_spans[i].start.offset <= comment_end_offset
        invariant
            0 <= i <= n == spans.len(),
            spans == node_spans@,
            first_after(spans, comment_end_offset as int, 0) == first_after(spans, comment_end_offset as int, i as int),
        decreases n - i,
    {
        i = i + 1;
    }
    let next: Option<usize> = if i < n {
        Some(i)
    } else {
        None
    };
    let mut postponed: Option<(CommentPlacement, Span)> = None;
    match next {
        Some(m) => {
            let nx = node_spans[m];
            let line_gap = if nx.start.line >= comment_line {
                nx.start.line - comment_line
            } else {
                0
            };
            if line_gap as u128 == comment_lines_count {
                return Some((CommentPlacement::Leading, nx));
            }
            if line_gap as u128 == 1 + comment_lines_count {
                postponed = Some((CommentPlacement::Leading, nx));
            }
        },
        None => {},
    }
    // 3. Inside: the first node the comment is inside.
    let mut j: usize = 0;
    while j < n
        invariant
            0 <= j <= n == spans.len(),
            spans == node_spans@,
            comment_offset == comment.span.start.offset,
            comment_end_offset == comment.span.end.offset,
            comment_column == comment.span.start.column,
            first_inside(*comment, spans, 0) == first_inside(*comment, spans, j as int),
        decreases n - j,
    {
        let span = node_spans[j];
        let a = span.end.offset <= comment_offset && none_between_exec(node_spans, &span, &comment.span)
            && span.start.column < comment_column;
        let b = span.start.offset <= comment_offset && comment_end_offset <= span.end.offset
            && none_within_exec(node_spans, &span, &comment.span) && span.start.column < comment_column;
        if a || b {
            return Some((CommentPlacement::Inside, span));
        }
        j = j + 1;
    }
    // 4. The postponed leading node.
    match postponed {
        Some(p) => {
            return Some(p);
        },
        None => {},
    }
    // 5. Dangling: the first node that strictly contains the comment's start.
    let mut d: usize = 0;
    while d < n
        invariant
            0 <= d <= n == spans.len(),
            spans == node_spans@,
            first_containing(spans, comment_offset as int, 0) == first_containing(spans, comment_offset as int, d as int),
        decreases n - d,
    {
        let span = node_spans[d];
        if span.start.offset < comment_offset && comment_offset < span.end.offset {
            return Some((CommentPlacement::Dangling, span));
        }
        d = d + 1;
    }
    // 6. Trailing the last node that ends before the comment.
    let mut q = n;
    while q > 0
        invariant
            q <= n == spans.len(),
            spans == node_spans@,
            last_ending_before(spans, comment_offset as int, n as int) == last_ending_before(spans, comment_offset as int, q as int),
        decreases q,
    {
        let prev = node_spans[q - 1];
        if prev.end.offset <= comment_offset {
            let line_gap = if comment_line >= prev.end.line {
                comment_line - prev.end.line
            } else {
                0
            };
            if line_gap <= 1 {
                return Some((CommentPlacement::Trailing, prev));
            }
            return None;
        }
        q = q - 1;
    }
    None
}

// ============================================================================
// THE COMMENT MAP
// ============================================================================

/// The index of the first entry of a bucket list whose span is `sp`.
pub open spec fn find_bucket(list: Seq<(Span, Vec<Comment>)>, sp: Span) -> Option<int>
    decreases list.len(),
{
    if list.len() == 0 {
        None
    } else {
        match find_bucket(list.drop_last(), sp) {
            Some(i) => Some(i),
            None => if list.last().0 == sp {
                Some(list.len() - 1)
            } else {
                None
            },
        }
    }
}

/// The comments of the first entry for `sp`; none when there is no entry.
pub open spec fn bucket(list: Seq<(Span, Vec<Comment>)>, sp: Span) -> Seq<Comment> {
    match find_bucket(list, sp) {
        Some(i) => list[i].1@,
        None => seq![],
    }
}

proof fn lemma_find_bucket_bounds(list: Seq<(Span, Vec<Comment>)>, sp: Span)
    ensures
        find_bucket(list, sp) matches Some(i) ==> 0 <= i < list.len() && list[i].0 == sp,
        find_bucket(list, sp) is None ==> forall|k: int| 0 <= k < list.len() ==> (#[trigger] list[k]).0 != sp,
    decreases list.len(),
{
    if list.len() > 0 {
        lemma_find_bucket_bounds(list.drop_last(), sp);
        if find_bucket(list.drop_last(), sp) is None {
            assert forall|k: int| 0 <= k < list.len() - 1 implies (#[trigger] list[k]).0 != sp by {
                assert(list.drop_last()[k] == list[k]);
            }
        }
    }
}

/// Replacing an entry by one with the same span keeps every lookup's index.
proof fn lemma_find_bucket_update(list: Seq<(Span, Vec<Comment>)>, i: int, e: (Span, Vec<Comment>), sp: Span)
    requires
        0 <= i < list.len(),
        e.0 == list[i].0,
    ensures
        find_bucket(list.update(i, e), sp) == find_bucket(list, sp),
    decreases list.len(),
{
    if list.len() > 0 {
        if i < list.len() - 1 {
            lemma_find_bucket_update(list.drop_last(), i, e, sp);
            assert(list.update(i, e).drop_last() =~= list.drop_last().update(i, e));
        } else {
            assert(list.update(i, e).drop_last() =~= list.drop_last());
        }
    }
}

/// Adds `c` to the bucket of `sp`, creating the bucket when there is none.
fn add_to_bucket(list: &mut Vec<(Span, Vec<Comment>)>, sp: Span, c: Comment)
    ensures
        forall|s: Span| #[trigger] bucket(final(list)@, s) == if s == sp {
            bucket(old(list)@, s).push(c)
        } else {
            bucket(old(list)@, s)
        },
{
    let ghost l0 = list@;
    let mut i: usize = 0;
    while i < list.len()
        invariant
            0 <= i <= list@.len(),
            list@ == l0,
            l0 == old(list)@,
            forall|k: int| 0 <= k < i ==> (#[trigger] list@[k]).0 != sp,
        decreases list@.len() - i,
    {
        if list[i].0 == sp {
            proof {
                lemma_find_bucket_bounds(l0, sp);
                lemma_find_bucket_first(l0, sp, i as int);
                assert(find_bucket(l0, sp) == Some(i as int));
            }
            let mut entry = list.remove(i);
            entry.1.push(c);
            list.insert(i, entry);
            proof {
                assert(list@ =~= l0.update(i as int, entry));
                assert forall|s: Span| #[trigger] bucket(list@, s) == if s == sp {
                    bucket(l0, s).push(c)
                } else {
                    bucket(l0, s)
                } by {
                    lemma_find_bucket_update(l0, i as int, entry, s);
                    lemma_find_bucket_bounds(l0, s);
                    match find_bucket(l0, s) {
                        Some(j) => {
                            if j == i {
                                assert(s == sp);
                            } else {
                                assert(list@[j] == l0[j]);
                            }
                        },
                        None => {},
                    }
                }
            }
            return;
        }
        i = i + 1;
    }
    let mut v: Vec<Comment> = Vec::new();
    v.push(c);
    list.push((sp, v));
    proof {
        lemma_find_bucket_bounds(l0, sp);
        assert(list@.drop_last() =~= l0);
        assert forall|s: Span| #[trigger] bucket(list@, s) == if s == sp {
            bucket(l0, s).push(c)
        } else {
            bucket(l0, s)
        } by {
            lemma_find_bucket_bounds(l0, s);
            if s == sp {
                assert(find_bucket(l0, s) is None);
                assert(find_bucket(list@, s) == Some(l0.len() as int));
                assert(bucket(l0, s).push(c) =~= seq![c]);
            } else {
                match find_bucket(l0, s) {
                    Some(j) => {
                        assert(list@[j] == l0[j]);
                    },
                    None => {},
                }
            }
        }
    }
}

/// The comments (in order) that `classify` places as `p` at `sp`.
pub open spec fn placed(cs: Seq<Comment>, spans: Seq<Span>, p: CommentPlacement, sp: Span) -> Seq<Comment>
    decreases cs.len(),
{
    if cs.len() == 0 {
        seq![]
    } else if classify(cs.last(), spans) == Some((p, sp)) {
        placed(cs.drop_last(), spans, p, sp).push(cs.last())
    } else {
        placed(cs.drop_last(), spans, p, sp)
    }
}

/// The comments (in order) that `classify` places as dangling, whatever the node.
pub open spec fn dangling_of(cs: Seq<Comment>, spans: Seq<Span>) -> Seq<Comment>
    decreases cs.len(),
{
    if cs.len() == 0 {
        seq![]
    } else if classify(cs.last(), spans) matches Some((CommentPlacement::Dangling, _)) {
        dangling_of(cs.drop_last(), spans).push(cs.last())
    } else {
        dangling_of(cs.drop_last(), spans)
    }
}

/// The comments (in order) that `classify` places nowhere.
pub open spec fn unattached_of(cs: Seq<Comment>, spans: Seq<Span>) -> Seq<Comment>
    decreases cs.len(),
{
    if cs.len() == 0 {
        seq![]
    } else if classify(cs.last(), spans) is None {
        unattached_of(cs.drop_last(), spans).push(cs.last())
    } else {
        unattached_of(cs.drop_last(), spans)
    }
}

/// The comments within a span.
pub open spec fn within(cs: Seq<Comment>, sp: Span) -> Seq<Comment>
    decreases cs.len(),
{
    if cs.len() == 0 {
        seq![]
    } else if sp.start.offset <= cs.last().span.start.offset && cs.last().span.end.offset <= sp.end.offset {
        within(cs.drop_last(), sp).push(cs.last())
    } else {
        within(cs.drop_last(), sp)
    }
}

/// `m` is the comment map of `ontology` with the comments `comments`: the
/// comments, sorted by span, are each placed by `classify` against the
/// sorted spans of the AST's nodes; the dangling comments come first, then
/// those that could not be placed.
pub open spec fn built_from(m: CommentMap, ontology: OntologyFile, comments: Seq<Comment>) -> bool {
    let cs = sort_by_span(comments, |c: Comment| c.span);
    let spans = sort_by_span(ontology_spans(ontology), |s: Span| s);
    &&& forall|sp: Span| #[trigger] bucket(m.leading@, sp) == placed(cs, spans, CommentPlacement::Leading, sp)
    &&& forall|sp: Span| #[trigger] bucket(m.trailing@, sp) == placed(cs, spans, CommentPlacement::Trailing, sp)
    &&& forall|sp: Span| #[trigger] bucket(m.inside@, sp) == placed(cs, spans, CommentPlacement::Inside, sp)
    &&& m.dangling@ == dangling_of(cs, spans) + unattached_of(cs, spans)
}

impl CommentMap {
    /// Build the comment map from an AST and collected comments: the comments,
    /// sorted by span, are each placed by `classify` against the sorted spans
    /// of the AST's nodes; the dangling comments come first, then those that
    /// could not be placed.
    pub fn build(ontology: &OntologyFile, comments: Vec<Comment>) -> (r: Self)
        ensures
            built_from(r, *ontology, comments@),
    {
        let sorted = sort_comments(comments);
        let mut node_spans: Vec<Span> = Vec::new();
        collect_spans(ontology, &mut node_spans);
        proof {
            assert(node_spans@ =~= ontology_spans(*ontology));
        }
        let node_spans = sort_spans(node_spans);
        let ghost cs = sorted@;
        let ghost spans = node_spans@;
        let mut map = CommentMap::new();
        let mut unattached: Vec<Comment> = Vec::new();
        let mut rest = sorted;
        let mut k: usize = 0;
        let _n = rest.len();
        proof {
            let c0 = cs.subrange(0, 0);
            assert(c0 =~= Seq::<Comment>::empty());
            assert forall|sp: Span| #[trigger] bucket(map.leading@, sp) == placed(c0, spans, CommentPlacement::Leading, sp) by {
                assert(find_bucket(map.leading@, sp) is None);
            }
            assert forall|sp: Span| #[trigger] bucket(map.trailing@, sp) == placed(c0, spans, CommentPlacement::Trailing, sp) by {
                assert(find_bucket(map.trailing@, sp) is None);
            }
            assert forall|sp: Span| #[trigger] bucket(map.inside@, sp) == placed(c0, spans, CommentPlacement::Inside, sp) by {
                assert(find_bucket(map.inside@, sp) is None);
            }
            assert(map.dangling@ =~= dangling_of(c0, spans));
            assert(unattached@ =~= unattached_of(c0, spans));
        }
        while rest.len() > 0
            invariant
                k + rest@.len() == cs.len(),
                cs.len() <= usize::MAX,
                rest@ == cs.subrange(k as int, cs.len() as int),
                spans == node_spans@,
                forall|sp: Span| #[trigger] bucket(map.leading@, sp) == placed(cs.subrange(0, k as int), spans, CommentPlacement::Leading, sp),
                forall|sp: Span| #[trigger] bucket(map.trailing@, sp) == placed(cs.subrange(0, k as int), spans, CommentPlacement::Trailing, sp),
                forall|sp: Span| #[trigger] bucket(map.inside@, sp) == placed(cs.subrange(0, k as int), spans, CommentPlacement::Inside, sp),
                map.dangling@ == dangling_of(cs.subrange(0, k as int), spans),
                unattached@ == unattached_of(cs.subrange(0, k as int), spans),
            decreases rest@.len(),
        {
            let comment = rest.remove(0);
            let ghost pre = cs.subrange(0, k as int);
            let ghost next = cs.subrange(0, k + 1);
            proof {
                assert(comment == cs[k as int]);
                assert(rest@ =~= cs.subrange(k + 1, cs.len() as int));
                assert(next.drop_last() =~= pre);
                assert(next.last() == comment);
            }
            let placement = classify_comment(&comment, &node_spans);
            let ghost l0 = map.leading@;
            let ghost t0 = map.trailing@;
            let ghost i0 = map.inside@;
            match placement {
                Some((CommentPlacement::Leading, node_span)) => {
                    add_to_bucket(&mut map.leading, node_span, comment);
                },
                Some((CommentPlacement::Trailing, node_span)) => {
                    add_to_bucket(&mut map.trailing, node_span, comment);
                },
                Some((CommentPlacement::Inside, node_span)) => {
                    add_to_bucket(&mut map.inside, node_span, comment);
                },
                Some((CommentPlacement::Dangling, _)) => {
                    map.dangling.push(comment);
                },
                None => {
                    unattached.push(comment);
                },
            }
            proof {
                assert forall|sp: Span| #[trigger] bucket(map.leading@, sp) == placed(next, spans, CommentPlacement::Leading, sp) by {
                    assert(bucket(l0, sp) == placed(pre, spans, CommentPlacement::Leading, sp));
                }
                assert forall|sp: Span| #[trigger] bucket(map.trailing@, sp) == placed(next, spans, CommentPlacement::Trailing, sp) by {
                    assert(bucket(t0, sp) == placed(pre, spans, CommentPlacement::Trailing, sp));
                }
                assert forall|sp: Span| #[trigger] bucket(map.inside@, sp) == placed(next, spans, CommentPlacement::Inside, sp) by {
                    assert(bucket(i0, sp) == placed(pre, spans, CommentPlacement::Inside, sp));
                }
            }
            k = k + 1;
        }
        proof {
            assert(cs.subrange(0, cs.len() as int) =~= cs);
        }
        let ghost d0 = map.dangling@;
        map.dangling.append(&mut unattached);
        map
    }

    /// The leading comments of the node with span `span`.
    pub fn leading_comments(&self, span: &Span) -> (r: &[Comment])
        ensures
            r@ == bucket(self.leading@, *span),
    {
        bucket_slice(&self.leading, span)
    }

    /// The trailing comments of the node with span `span`.
    pub fn trailing_comments(&self, span: &Span) -> (r: &[Comment])
        ensures
            r@ == bucket(self.trailing@, *span),
    {
        bucket_slice(&self.trailing, span)
    }

    /// The comments inside the node with span `span`.
    pub fn inside_comments(&self, span: &Span) -> (r: &[Comment])
        ensures
            r@ == bucket(self.inside@, *span),
    {
        bucket_slice(&self.inside, span)
    }

    /// The dangling comments that lie within `span`.
    pub fn dangling_comments(&self, span: &Span) -> (r: Vec<Comment>)
        ensures
            r@ == within(self.dangling@, *span),
    {
        let mut out: Vec<Comment> = Vec::new();
        let mut i: usize = 0;
        while i < self.dangling.len()
            invariant
                0 <= i <= self.dangling@.len(),
                out@ == within(self.dangling@.subrange(0, i as int), *span),
            decreases self.dangling@.len() - i,
        {
            proof {
                assert(self.dangling@.subrange(0, i + 1).drop_last() =~= self.dangling@.subrange(0, i as int));
            }
            let c = &self.dangling[i];
            if span.start.offset <= c.span.start.offset && c.span.end.offset <= span.end.offset {
                out.push(c.copy());
            }
            i = i + 1;
        }
        proof {
            assert(self.dangling@.subrange(0, self.dangling@.len() as int) =~= self.dangling@);
        }
        out
    }
}

/// The comments of the bucket of `sp`.
fn bucket_slice<'a>(list: &'a Vec<(Span, Vec<Comment>)>, sp: &Span) -> (r: &'a [Comment])
    ensures
        r@ == bucket(list@, *sp),
{
    let mut i: usize = 0;
    while i < list.len()
        invariant
            0 <= i <= list@.len(),
            forall|k: int| 0 <= k < i ==> (#[trigger] list@[k]).0 != *sp,
        decreases list@.len() - i,
    {
        if list[i].0 == *sp {
            proof {
                lemma_find_bucket_bounds(list@, *sp);
                match find_bucket(list@, *sp) {
                    Some(j) => {
                        if j > i {
                            lemma_find_bucket_first(list@, *sp, i as int);
                        }
                    },
                    None => {},
                }
            }
            return list[i].1.as_slice();
        }
        i = i + 1;
    }
    proof {
        lemma_find_bucket_bounds(list@, *sp);
    }
    empty_comments()
}

proof fn lemma_find_bucket_first(list: Seq<(Span, Vec<Comment>)>, sp: Span, i: int)
    requires
        0 <= i < list.len(),
        list[i].0 == sp,
    ensures
        find_bucket(list, sp) matches Some(j) && j <= i,
    decreases list.len(),
{
    if i < list.len() - 1 {
        lemma_find_bucket_first(list.drop_last(), sp, i);
    } else {
        lemma_find_bucket_bounds(list.drop_last(), sp);
    }
}

/// No comments.
fn empty_comments<'a>() -> (r: &'a [Comment])
    ensures
        r@ == Seq::<Comment>::empty(),
{
    &[]
}

} // verus!
