//! Building a hierarchical outline of a markdown document from its stream
//! of heading events.
//!
//! The event stream comes from the markup parser; the outline builder
//! consumes it in a single forward pass, first accumulating each
//! heading's inline text into a flat heading list, then nesting the flat
//! list with an explicit stack: a new heading of level `L` closes every
//! open heading of level `>= L`, attaching each closed heading as the
//! last child of the heading below it, or to the top-level forest.

use vstd::prelude::*;

use crate::position::Range;
use crate::position::offset_to_position;
use crate::position::range_of;

verus! {

/// The category a heading symbol is reported under, by heading depth.
#[derive(Clone, Copy, PartialEq, Eq, Structural, Debug)]
pub enum SymbolKind {
    File,
    Module,
    Namespace,
    Str,
}

/// The symbol category of a heading of level `l`.
pub open spec fn kind_of_level(l: int) -> SymbolKind {
    if l == 1 {
        SymbolKind::File
    } else if l == 2 {
        SymbolKind::Module
    } else if l == 3 {
        SymbolKind::Namespace
    } else {
        SymbolKind::Str
    }
}

/// One event of the heading stream: a heading opens at some level with
/// its source span, inline text accumulates into the open heading, and
/// the heading closes.
pub enum HeadingEvent {
    Start { level: usize, start: usize, end: usize },
    Text { content: String },
    End,
}

/// The stream of heading events that the markup parser emits for a text;
/// a function of the text alone. Spans are character offsets.
pub uninterp spec fn heading_events_of(t: Seq<char>) -> Seq<HeadingEvent>;

/// Well-formed heading stream from offset watermark `lo`, given whether
/// a heading is open: heading start and end events alternate and the
/// stream closes its last heading; levels lie in `1 ..= 6`; every
/// heading span is ordered, within a text of length `n`, and starts at
/// or after the previous heading's start.
pub open spec fn events_wf_from(events: Seq<HeadingEvent>, open: bool, lo: int, n: int) -> bool
    decreases events.len(),
{
    if events.len() == 0 {
        !open
    } else {
        match events[0] {
            HeadingEvent::Start { level, start, end } => {
                &&& !open
                &&& 1 <= level <= 6
                &&& lo <= start
                &&& start <= end <= n
                &&& events_wf_from(events.drop_first(), true, start as int, n)
            },
            HeadingEvent::Text { content } => events_wf_from(events.drop_first(), open, lo, n),
            HeadingEvent::End => open && events_wf_from(events.drop_first(), false, lo, n),
        }
    }
}

/// Well-formed heading stream for a text of length `n`: balanced
/// heading start and end events, levels in `1 ..= 6`, spans ordered,
/// within the text, and in document order.
pub open spec fn events_wf(events: Seq<HeadingEvent>, n: int) -> bool {
    events_wf_from(events, false, 0, n)
}

/// Relies on pulldown_cmark::Parser: CommonMark parsing events in
/// document order, of which the heading start (with its level and
/// span), inline text, and heading end events are kept, spans converted
/// from byte to character offsets. The well-formedness clause relies on
/// the parser's block structure: heading blocks hold only inline
/// content, so heading start and end events alternate; the event walk
/// is a preorder traversal of the parse tree, so spans are ordered,
/// within the source, and in source order.
#[verifier::external_body]
pub(crate) fn heading_events(text: &str) -> (r: Vec<HeadingEvent>)
    ensures
        r@ == heading_events_of(text@),
        events_wf(r@, text@.len() as int),
{
    let mut out = Vec::new();
    let to_char = |b: usize| text.char_indices().take_while(|(i, _)| *i < b).count();
    let parser = pulldown_cmark::Parser::new_ext(text, pulldown_cmark::Options::empty());
    for (ev, range) in parser.into_offset_iter() {
        match ev {
            pulldown_cmark::Event::Start(pulldown_cmark::Tag::Heading { level, .. }) =>
                out.push(HeadingEvent::Start { level: level as usize, start: to_char(range.start), end: to_char(range.end) }),
            pulldown_cmark::Event::Text(t) => out.push(HeadingEvent::Text { content: t.into_string() }),
            pulldown_cmark::Event::End(pulldown_cmark::TagEnd::Heading(_)) => out.push(HeadingEvent::End),
            _ => {},
        }
    }
    out
}

/// A completed heading: its accumulated inline text, depth, and source
/// span in character offsets.
pub struct Heading {
    pub name: String,
    pub level: usize,
    pub start: usize,
    pub end: usize,
}

/// Mathematical model of a completed heading.
pub ghost struct HeadingV {
    pub name: Seq<char>,
    pub level: int,
    pub start: int,
    pub end: int,
}

impl View for Heading {
    type V = HeadingV;

    open spec fn view(&self) -> HeadingV {
        HeadingV { name: self.name@, level: self.level as int, start: self.start as int, end: self.end as int }
    }
}

/// The flat heading list denoted by an event stream, given the heading
/// currently open (if any): heading text accumulates all inline text
/// events until the heading-end event, runs concatenated without
/// separators; a heading left open at the end of the stream is emitted
/// with the text accumulated so far.
pub open spec fn headings_of(events: Seq<HeadingEvent>, cur: Option<HeadingV>) -> Seq<HeadingV>
    decreases events.len(),
{
    if events.len() == 0 {
        match cur {
            Some(h) => seq![h],
            None => Seq::empty(),
        }
    } else {
        let rest = events.drop_first();
        match events[0] {
            HeadingEvent::Start { level, start, end } => headings_of(
                rest,
                Some(
                    HeadingV {
                        name: Seq::empty(),
                        level: level as int,
                        start: start as int,
                        end: end as int,
                    },
                ),
            ),
            HeadingEvent::Text { content } => match cur {
                Some(h) => headings_of(
                    rest,
                    Some(HeadingV { name: h.name + content@, level: h.level, start: h.start, end: h.end }),
                ),
                None => headings_of(rest, None),
            },
            HeadingEvent::End => match cur {
                Some(h) => seq![h] + headings_of(rest, None),
                None => headings_of(rest, None),
            },
        }
    }
}

/// Extracts the flat list of completed headings from an event stream.
pub fn headings_from_events(events: &Vec<HeadingEvent>) -> (r: Vec<Heading>)
    ensures
        r@.map_values(|h: Heading| h@) == headings_of(events@, None),
{
    let n = events.len();
    let mut out: Vec<Heading> = Vec::new();
    let mut cur: Option<Heading> = None;
    let mut i: usize = 0;
    proof {
        assert(events@.subrange(0, n as int) =~= events@);
        assert(out@.map_values(|h: Heading| h@) + headings_of(events@, None) =~= headings_of(
            events@,
            None,
        ));
    }
    while i < n
        invariant
            i <= n,
            n == events@.len(),
            headings_of(events@, None) == out@.map_values(|h: Heading| h@) + headings_of(
                events@.subrange(i as int, n as int),
                match cur {
                    Some(h) => Some(h@),
                    None => None,
                },
            ),
        decreases n - i,
    {
        proof {
            assert(events@.subrange(i as int, n as int).drop_first() =~= events@.subrange(
                i + 1,
                n as int,
            ));
            assert(events@.subrange(i as int, n as int)[0] == events@[i as int]);
        }
        let ev = &events[i];
        match ev {
            HeadingEvent::Start { level, start, end } => {
                cur = Some(
                    Heading { name: String::new(), level: *level, start: *start, end: *end },
                );
            },
            HeadingEvent::Text { content } => {
                match cur {
                    Some(mut h) => {
                        h.name.append(content.as_str());
                        cur = Some(h);
                    },
                    None => {
                        cur = None;
                    },
                }
            },
            HeadingEvent::End => {
                match cur {
                    Some(h) => {
                        let ghost prev = out@;
                        out.push(h);
                        proof {
                            assert(out@.map_values(|x: Heading| x@) =~= prev.map_values(
                                |x: Heading| x@,
                            ) + seq![h@]);
                        }
                        cur = None;
                    },
                    None => {
                        cur = None;
                    },
                }
            },
        }
        i = i + 1;
    }
    proof {
        assert(events@.subrange(n as int, n as int) =~= Seq::<HeadingEvent>::empty());
    }
    match cur {
        Some(h) => {
            let ghost prev = out@;
            proof {
                assert(headings_of(events@, None) == prev.map_values(|x: Heading| x@) + seq![h@]);
            }
            out.push(h);
            proof {
                assert(out@.map_values(|x: Heading| x@) =~= prev.map_values(|x: Heading| x@)
                    + seq![h@]);
            }
            out
        },
        None => {
            proof {
                assert(headings_of(events@, None) =~= out@.map_values(|x: Heading| x@));
            }
            out
        },
    }
}

/// One heading and its subtree in the document outline. The span is
/// carried both as character offsets and as (line, column) coordinates,
/// which agree through the position translator.
#[derive(Debug)]
pub struct DocumentSymbol {
    pub name: String,
    pub detail: Option<String>,
    pub kind: SymbolKind,
    pub level: usize,
    pub range: Range,
    pub selection_range: Range,
    pub span_start: usize,
    pub span_end: usize,
    pub children: Vec<DocumentSymbol>,
}

/// Mathematical model of an outline node.
pub ghost struct OutlineNodeV {
    pub name: Seq<char>,
    pub detail: Option<Seq<char>>,
    pub kind: SymbolKind,
    pub level: int,
    pub range: Range,
    pub selection_range: Range,
    pub span_start: int,
    pub span_end: int,
    pub children: Seq<OutlineNodeV>,
}

/// The model of an outline node, children included.
pub open spec fn sym_view(s: DocumentSymbol) -> OutlineNodeV
    decreases s,
{
    OutlineNodeV {
        name: s.name@,
        detail: match s.detail {
            Some(d) => Some(d@),
            None => None,
        },
        kind: s.kind,
        level: s.level as int,
        range: s.range,
        selection_range: s.selection_range,
        span_start: s.span_start as int,
        span_end: s.span_end as int,
        children: Seq::new(
            s.children@.len(),
            |i: int|
                if 0 <= i < s.children@.len() {
                    sym_view(s.children@[i])
                } else {
                    arbitrary()
                },
        ),
    }
}

/// The models of a sequence of outline nodes.
pub open spec fn sym_views(v: Seq<DocumentSymbol>) -> Seq<OutlineNodeV> {
    v.map_values(|s: DocumentSymbol| sym_view(s))
}

/// A fresh outline node for heading `h` of text `t`, without children.
pub open spec fn node_of(t: Seq<char>, h: HeadingV) -> OutlineNodeV {
    OutlineNodeV {
        name: h.name,
        detail: None,
        kind: kind_of_level(h.level),
        level: h.level,
        range: range_of(t, h.start, h.end),
        selection_range: range_of(t, h.start, h.end),
        span_start: h.start,
        span_end: h.end,
        children: Seq::empty(),
    }
}

/// `n` with `c` appended as its last child.
pub open spec fn with_child(n: OutlineNodeV, c: OutlineNodeV) -> OutlineNodeV {
    OutlineNodeV {
        name: n.name,
        detail: n.detail,
        kind: n.kind,
        level: n.level,
        range: n.range,
        selection_range: n.selection_range,
        span_start: n.span_start,
        span_end: n.span_end,
        children: n.children.push(c),
    }
}

/// The state of the single-pass outline construction: the completed
/// top-level forest so far, and the stack of open headings ordered from
/// shallowest to deepest, each holding the children attached to it so
/// far.
pub ghost struct BuildState {
    pub done: Seq<OutlineNodeV>,
    pub stack: Seq<OutlineNodeV>,
}

/// Closes the deepest open heading: it becomes the last child of the
/// heading below it, or, with nothing below, the next completed
/// top-level node.
pub open spec fn attach_last(st: BuildState) -> BuildState
    recommends
        st.stack.len() > 0,
{
    let completed = st.stack.last();
    let rest = st.stack.drop_last();
    if rest.len() == 0 {
        BuildState { done: st.done.push(completed), stack: rest }
    } else {
        BuildState {
            done: st.done,
            stack: rest.drop_last().push(with_child(rest.last(), completed)),
        }
    }
}

/// Closes every open heading of level `>= level`, deepest first.
pub open spec fn pop_ge(st: BuildState, level: int) -> BuildState
    decreases st.stack.len(),
{
    if st.stack.len() == 0 {
        st
    } else if st.stack.last().level >= level {
        pop_ge(attach_last(st), level)
    } else {
        st
    }
}

/// Processes one heading: headings at the same or a deeper level close
/// first, then the new heading opens.
pub open spec fn push_heading(t: Seq<char>, st: BuildState, h: HeadingV) -> BuildState {
    let popped = pop_ge(st, h.level);
    BuildState { done: popped.done, stack: popped.stack.push(node_of(t, h)) }
}

/// Closes all remaining open headings at the end of the heading stream.
pub open spec fn drain(st: BuildState) -> Seq<OutlineNodeV>
    decreases st.stack.len(),
{
    if st.stack.len() == 0 {
        st.done
    } else {
        drain(attach_last(st))
    }
}

/// The construction state after consuming the whole heading list.
pub open spec fn run_build(t: Seq<char>, hs: Seq<HeadingV>) -> BuildState
    decreases hs.len(),
{
    if hs.len() == 0 {
        BuildState { done: Seq::empty(), stack: Seq::empty() }
    } else {
        push_heading(t, run_build(t, hs.drop_last()), hs.last())
    }
}

/// The outline forest of a flat heading list: each heading is nested
/// under the nearest preceding heading of a shallower level.
pub open spec fn outline_spec(t: Seq<char>, hs: Seq<HeadingV>) -> Seq<OutlineNodeV> {
    drain(run_build(t, hs))
}

proof fn lemma_views_push(v: Seq<DocumentSymbol>, x: DocumentSymbol)
    ensures
        sym_views(v.push(x)) == sym_views(v).push(sym_view(x)),
{
    assert(sym_views(v.push(x)) =~= sym_views(v).push(sym_view(x)));
}

proof fn lemma_views_drop_last(v: Seq<DocumentSymbol>)
    requires
        v.len() > 0,
    ensures
        sym_views(v.drop_last()) == sym_views(v).drop_last(),
        sym_views(v).last() == sym_view(v.last()),
{
    assert(sym_views(v.drop_last()) =~= sym_views(v).drop_last());
}

/// The model of a node after pushing a child onto its `children`.
proof fn lemma_view_with_child(parent: DocumentSymbol, child: DocumentSymbol, parent2: DocumentSymbol)
    requires
        parent2.name == parent.name,
        parent2.detail == parent.detail,
        parent2.kind == parent.kind,
        parent2.level == parent.level,
        parent2.range == parent.range,
        parent2.selection_range == parent.selection_range,
        parent2.span_start == parent.span_start,
        parent2.span_end == parent.span_end,
        parent2.children@ == parent.children@.push(child),
    ensures
        sym_view(parent2) == with_child(sym_view(parent), sym_view(child)),
{
    assert(sym_view(parent2).children =~= sym_view(parent).children.push(sym_view(child)));
}

/// Nests a flat, document-ordered heading list into an outline forest in
/// one forward pass with an explicit stack: a heading of level `L`
/// closes every open heading of level `>= L`, attaching each closed
/// heading as the last child of the heading below it, or to the
/// top-level forest; headings still open at the end of the list close
/// the same way.
pub fn build_outline(text: &str, headings: &Vec<Heading>) -> (r: Vec<DocumentSymbol>)
    ensures
        sym_views(r@) == outline_spec(text@, headings@.map_values(|h: Heading| h@)),
{
    let ghost hs = headings@.map_values(|h: Heading| h@);
    let mut done: Vec<DocumentSymbol> = Vec::new();
    let mut stack: Vec<DocumentSymbol> = Vec::new();
    let mut i: usize = 0;
    proof {
        assert(hs.subrange(0, 0) =~= Seq::<HeadingV>::empty());
        assert(sym_views(done@) =~= Seq::<OutlineNodeV>::empty());
        assert(sym_views(stack@) =~= Seq::<OutlineNodeV>::empty());
    }
    while i < headings.len()
        invariant
            i <= headings@.len(),
            hs == headings@.map_values(|h: Heading| h@),
            (BuildState { done: sym_views(done@), stack: sym_views(stack@) } == run_build(
                text@,
                hs.subrange(0, i as int),
            )),
        decreases headings@.len() - i,
    {
        let ghost st0 = run_build(text@, hs.subrange(0, i as int));
        let h = &headings[i];
        assert(hs[i as int] == h@);
        pop_to_level(text, &mut done, &mut stack, h.level, Ghost(st0));
        let node = DocumentSymbol {
            name: h.name.clone(),
            detail: None,
            kind: kind_of_symbol_level(h.level),
            level: h.level,
            range: span_range(text, h.start, h.end),
            selection_range: span_range(text, h.start, h.end),
            span_start: h.start,
            span_end: h.end,
            children: Vec::new(),
        };
        proof {
            assert(sym_view(node).children =~= Seq::<OutlineNodeV>::empty());
            assert(sym_view(node) == node_of(text@, h@));
            lemma_views_push(stack@, node);
        }
        stack.push(node);
        proof {
            assert(hs.subrange(0, i + 1).drop_last() =~= hs.subrange(0, i as int));
            assert(hs.subrange(0, i + 1).last() == hs[i as int]);
        }
        i = i + 1;
    }
    proof {
        assert(hs.subrange(0, hs.len() as int) =~= hs);
    }
    while stack.len() > 0
        invariant
            (drain(BuildState { done: sym_views(done@), stack: sym_views(stack@) }) == drain(
                run_build(text@, hs),
            )),
        decreases stack@.len(),
    {
        attach_top(&mut done, &mut stack);
    }
    done
}

/// Closes every open heading of level `>= level` on the stack.
fn pop_to_level(
    text: &str,
    done: &mut Vec<DocumentSymbol>,
    stack: &mut Vec<DocumentSymbol>,
    level: usize,
    Ghost(st0): Ghost<BuildState>,
)
    requires
        (BuildState { done: sym_views(old(done)@), stack: sym_views(old(stack)@) } == st0),
    ensures
        (BuildState { done: sym_views(final(done)@), stack: sym_views(final(stack)@) } == pop_ge(
            st0,
            level as int,
        )),
{
    loop
        invariant
            (pop_ge(
                BuildState { done: sym_views(done@), stack: sym_views(stack@) },
                level as int,
            ) == pop_ge(st0, level as int)),
        ensures
            (BuildState { done: sym_views(done@), stack: sym_views(stack@) } == pop_ge(
                st0,
                level as int,
            )),
        decreases stack@.len(),
    {
        if stack.len() == 0 {
            break;
        }
        let top_level = stack[stack.len() - 1].level;
        proof {
            lemma_views_drop_last(stack@);
        }
        if top_level < level {
            break;
        }
        attach_top(done, stack);
    }
}

/// Closes the deepest open heading on the stack.
fn attach_top(done: &mut Vec<DocumentSymbol>, stack: &mut Vec<DocumentSymbol>)
    requires
        old(stack)@.len() > 0,
    ensures
        (BuildState { done: sym_views(final(done)@), stack: sym_views(final(stack)@) }
            == attach_last(
            BuildState { done: sym_views(old(done)@), stack: sym_views(old(stack)@) },
        )),
        final(stack)@.len() == old(stack)@.len() - 1,
{
    proof {
        lemma_views_drop_last(stack@);
    }
    let completed = stack.pop().unwrap();
    if stack.len() == 0 {
        proof {
            lemma_views_push(done@, completed);
        }
        done.push(completed);
    } else {
        proof {
            lemma_views_drop_last(stack@);
        }
        let mut parent = stack.pop().unwrap();
        let ghost parent0 = parent;
        parent.children.push(completed);
        proof {
            lemma_view_with_child(parent0, completed, parent);
            lemma_views_push(stack@, parent);
        }
        stack.push(parent);
    }
}

/// Executable form of `kind_of_level`.
pub fn kind_of_symbol_level(l: usize) -> (k: SymbolKind)
    ensures
        k == kind_of_level(l as int),
{
    if l == 1 {
        SymbolKind::File
    } else if l == 2 {
        SymbolKind::Module
    } else if l == 3 {
        SymbolKind::Namespace
    } else {
        SymbolKind::Str
    }
}

/// The coordinate span of the offset range `[start, end]` of `text`.
pub(crate) fn span_range(text: &str, start: usize, end: usize) -> (r: Range)
    ensures
        r == range_of(text@, start as int, end as int),
{
    Range {
        start: offset_to_position(text, start),
        end: offset_to_position(text, end),
    }
}

/// Sibling lists keep non-decreasing document order of spans.
pub open spec fn spans_ordered(ns: Seq<OutlineNodeV>) -> bool {
    forall|i: int, j: int|
        0 <= i <= j < ns.len() ==> (#[trigger] ns[i]).span_start <= (#[trigger] ns[j]).span_start
}

/// The nesting invariant of an outline node: every child is strictly
/// deeper than the node, children stand in document order, and every
/// child is itself well formed.
pub open spec fn node_wf(n: OutlineNodeV) -> bool
    decreases n,
{
    &&& spans_ordered(n.children)
    &&& forall|i: int|
        0 <= i < n.children.len() ==> (#[trigger] n.children[i]).level > n.level && node_wf(
            n.children[i],
        )
}

/// A well-formed forest: ordered top-level nodes, each well formed.
pub open spec fn forest_wf(ns: Seq<OutlineNodeV>) -> bool {
    spans_ordered(ns) && forall|i: int| 0 <= i < ns.len() ==> node_wf(#[trigger] ns[i])
}

/// Headings in non-decreasing document order of their spans.
pub open spec fn headings_sorted(hs: Seq<HeadingV>) -> bool {
    forall|i: int, j: int|
        0 <= i <= j < hs.len() ==> (#[trigger] hs[i]).start <= (#[trigger] hs[j]).start
}

spec fn levels_increasing(stack: Seq<OutlineNodeV>) -> bool {
    forall|i: int, j: int|
        0 <= i < j < stack.len() ==> (#[trigger] stack[i]).level < (#[trigger] stack[j]).level
}

spec fn stack_ordered(stack: Seq<OutlineNodeV>, bound: int) -> bool {
    &&& forall|i: int, j: int|
        0 <= i <= j < stack.len() ==> (#[trigger] stack[i]).span_start <= (
        #[trigger] stack[j]).span_start
    &&& forall|i: int| 0 <= i < stack.len() ==> (#[trigger] stack[i]).span_start <= bound
}

spec fn next_bound(stack: Seq<OutlineNodeV>, bound: int, i: int) -> int {
    if i + 1 < stack.len() {
        stack[i + 1].span_start
    } else {
        bound
    }
}

spec fn children_bounded(stack: Seq<OutlineNodeV>, bound: int) -> bool {
    forall|i: int, c: int|
        0 <= i < stack.len() && 0 <= c < stack[i].children.len() ==> (
        #[trigger] stack[i].children[c]).span_start <= next_bound(stack, bound, i)
}

spec fn stack_wf(stack: Seq<OutlineNodeV>) -> bool {
    forall|i: int| 0 <= i < stack.len() ==> node_wf(#[trigger] stack[i])
}

spec fn done_bounded(done: Seq<OutlineNodeV>, stack: Seq<OutlineNodeV>, bound: int) -> bool {
    forall|i: int|
        0 <= i < done.len() ==> (#[trigger] done[i]).span_start <= (if stack.len() > 0 {
            stack[0].span_start
        } else {
            bound
        })
}

/// The invariant of the construction state: the forest built so far is
/// well formed, the stack is strictly increasing in level and
/// non-decreasing in span, and every span in the state lies at or
/// before `bound`, the span of the last heading consumed.
spec fn state_inv(st: BuildState, bound: int) -> bool {
    &&& forest_wf(st.done)
    &&& done_bounded(st.done, st.stack, bound)
    &&& stack_wf(st.stack)
    &&& levels_increasing(st.stack)
    &&& stack_ordered(st.stack, bound)
    &&& children_bounded(st.stack, bound)
}

proof fn lemma_attach_inv(st: BuildState, bound: int)
    requires
        state_inv(st, bound),
        st.stack.len() > 0,
    ensures
        state_inv(attach_last(st), bound),
        attach_last(st).stack.len() == st.stack.len() - 1,
        forall|i: int|
            0 <= i < st.stack.len() - 1 ==> (#[trigger] attach_last(st).stack[i]).level
                == st.stack[i].level && attach_last(st).stack[i].span_start
                == st.stack[i].span_start,
{
    let completed = st.stack.last();
    let rest = st.stack.drop_last();
    let st2 = attach_last(st);
    if rest.len() == 0 {
        assert(st2.done == st.done.push(completed));
        assert forall|i: int, j: int| 0 <= i <= j < st2.done.len() implies (
        #[trigger] st2.done[i]).span_start <= (#[trigger] st2.done[j]).span_start by {
            if j < st.done.len() {
            } else {
                assert(st2.done[j] == completed);
                if i < st.done.len() {
                    assert(st.done[i].span_start <= st.stack[0].span_start);
                }
            }
        }
        assert forall|i: int| 0 <= i < st2.done.len() implies node_wf(#[trigger] st2.done[i]) by {
            if i < st.done.len() {
            } else {
                assert(st2.done[i] == completed);
                assert(node_wf(st.stack[st.stack.len() - 1]));
            }
        }
    } else {
        let p = rest.last();
        let p2 = with_child(p, completed);
        let k = st.stack.len() - 2;
        assert(p == st.stack[k]);
        assert(completed == st.stack[k + 1]);
        assert(node_wf(st.stack[k]));
        assert(node_wf(st.stack[k + 1]));
        assert(st.stack[k].level < st.stack[k + 1].level);
        assert forall|c: int| 0 <= c < p.children.len() implies (
        #[trigger] p.children[c]).span_start <= completed.span_start by {
            assert(st.stack[k].children[c].span_start <= next_bound(st.stack, bound, k));
        }
        assert forall|i: int, j: int| 0 <= i <= j < p2.children.len() implies (
        #[trigger] p2.children[i]).span_start <= (#[trigger] p2.children[j]).span_start by {
            if j < p.children.len() {
            } else {
                assert(p2.children[j] == completed);
                if i < p.children.len() {
                    assert(p.children[i].span_start <= completed.span_start);
                } else {
                    assert(p2.children[i] == completed);
                }
            }
        }
        assert forall|i: int|
            0 <= i < p2.children.len() implies (#[trigger] p2.children[i]).level > p2.level
                && node_wf(p2.children[i]) by {
            if i < p.children.len() {
                assert(p.children[i].level > p.level && node_wf(p.children[i]));
            } else {
                assert(p2.children[i] == completed);
            }
        }
        assert(node_wf(p2));
        assert(st2.stack == rest.drop_last().push(p2));
        assert(st2.stack.len() == k + 1);
        assert forall|i: int| 0 <= i < st2.stack.len() implies (#[trigger] st2.stack[i]).level
            == st.stack[i].level && st2.stack[i].span_start == st.stack[i].span_start by {
            if i < k {
                assert(st2.stack[i] == st.stack[i]);
            } else {
                assert(st2.stack[i] == p2);
            }
        }
        assert forall|i: int| 0 <= i < st2.stack.len() implies node_wf(#[trigger] st2.stack[i]) by {
            if i < k {
                assert(st2.stack[i] == st.stack[i]);
                assert(node_wf(st.stack[i]));
            } else {
                assert(st2.stack[i] == p2);
            }
        }
        assert forall|i: int, c: int|
            0 <= i < st2.stack.len() && 0 <= c < st2.stack[i].children.len() implies (
        #[trigger] st2.stack[i].children[c]).span_start <= next_bound(st2.stack, bound, i) by {
            if i < k {
                assert(st2.stack[i] == st.stack[i]);
                assert(st.stack[i].children[c].span_start <= next_bound(st.stack, bound, i));
                if i + 1 < st2.stack.len() {
                    assert(next_bound(st2.stack, bound, i) == st2.stack[i + 1].span_start);
                }
            } else {
                assert(st2.stack[i] == p2);
                assert(next_bound(st2.stack, bound, i) == bound);
                if c < p.children.len() {
                    assert(st.stack[k].children[c].span_start <= next_bound(st.stack, bound, k));
                    assert(next_bound(st.stack, bound, k) == completed.span_start);
                    assert(completed.span_start <= bound);
                } else {
                    assert(p2.children[c] == completed);
                    assert(completed.span_start <= bound);
                }
            }
        }
        assert forall|i: int| 0 <= i < st2.done.len() implies (
        #[trigger] st2.done[i]).span_start <= (if st2.stack.len() > 0 {
            st2.stack[0].span_start
        } else {
            bound
        }) by {
            assert(st2.stack[0].span_start == st.stack[0].span_start);
        }
    }
}

proof fn lemma_pop_ge_inv(st: BuildState, bound: int, level: int)
    requires
        state_inv(st, bound),
    ensures
        state_inv(pop_ge(st, level), bound),
        pop_ge(st, level).stack.len() > 0 ==> pop_ge(st, level).stack.last().level < level,
    decreases st.stack.len(),
{
    if st.stack.len() == 0 {
    } else if st.stack.last().level >= level {
        lemma_attach_inv(st, bound);
        lemma_pop_ge_inv(attach_last(st), bound, level);
    }
}

proof fn lemma_inv_weaken(st: BuildState, b1: int, b2: int)
    requires
        state_inv(st, b1),
        b1 <= b2,
    ensures
        state_inv(st, b2),
{
    assert forall|i: int, c: int|
        0 <= i < st.stack.len() && 0 <= c < st.stack[i].children.len() implies (
    #[trigger] st.stack[i].children[c]).span_start <= next_bound(st.stack, b2, i) by {
        assert(st.stack[i].children[c].span_start <= next_bound(st.stack, b1, i));
    }
}

proof fn lemma_push_inv(t: Seq<char>, st: BuildState, h: HeadingV, bound: int)
    requires
        state_inv(st, bound),
        bound <= h.start,
    ensures
        state_inv(push_heading(t, st, h), h.start),
{
    lemma_pop_ge_inv(st, bound, h.level);
    let popped = pop_ge(st, h.level);
    lemma_inv_weaken(popped, bound, h.start);
    let n = node_of(t, h);
    let st2 = push_heading(t, st, h);
    assert(st2.stack == popped.stack.push(n));
    assert(n.children.len() == 0);
    assert(node_wf(n));
    let m = popped.stack.len();
    assert forall|i: int, j: int| 0 <= i < j < st2.stack.len() implies (
    #[trigger] st2.stack[i]).level < (#[trigger] st2.stack[j]).level by {
        if j < m {
            assert(st2.stack[i] == popped.stack[i]);
            assert(st2.stack[j] == popped.stack[j]);
        } else {
            assert(st2.stack[j] == n);
            assert(st2.stack[i] == popped.stack[i]);
            assert(popped.stack.last().level < h.level);
            if i < m - 1 {
                assert(popped.stack[i].level < popped.stack[m - 1].level);
            }
        }
    }
    assert forall|i: int, j: int| 0 <= i <= j < st2.stack.len() implies (
    #[trigger] st2.stack[i]).span_start <= (#[trigger] st2.stack[j]).span_start by {
        if j < m {
            assert(st2.stack[i] == popped.stack[i]);
            assert(st2.stack[j] == popped.stack[j]);
        } else {
            assert(st2.stack[j] == n);
            if i < m {
                assert(popped.stack[i].span_start <= h.start);
            }
        }
    }
    assert forall|i: int, c: int|
        0 <= i < st2.stack.len() && 0 <= c < st2.stack[i].children.len() implies (
    #[trigger] st2.stack[i].children[c]).span_start <= next_bound(st2.stack, h.start, i) by {
        if i < m {
            assert(st2.stack[i] == popped.stack[i]);
            assert(popped.stack[i].children[c].span_start <= next_bound(popped.stack, h.start, i));
            if i + 1 < m {
                assert(next_bound(st2.stack, h.start, i) == st2.stack[i + 1].span_start);
                assert(st2.stack[i + 1] == popped.stack[i + 1]);
            } else {
                assert(next_bound(popped.stack, h.start, i) == h.start);
                assert(next_bound(st2.stack, h.start, i) == n.span_start);
            }
        } else {
            assert(st2.stack[i] == n);
        }
    }
    assert forall|i: int| 0 <= i < st2.done.len() implies (#[trigger] st2.done[i]).span_start <= (
    if st2.stack.len() > 0 {
        st2.stack[0].span_start
    } else {
        h.start
    }) by {
        if m > 0 {
            assert(st2.stack[0] == popped.stack[0]);
            assert(popped.done[i].span_start <= popped.stack[0].span_start);
        } else {
            assert(st2.stack[0] == n);
            assert(popped.done[i].span_start <= h.start);
        }
    }
    assert forall|i: int| 0 <= i < st2.stack.len() implies node_wf(#[trigger] st2.stack[i]) by {
        if i < m {
            assert(st2.stack[i] == popped.stack[i]);
            assert(node_wf(popped.stack[i]));
        } else {
            assert(st2.stack[i] == n);
        }
    }
}

proof fn lemma_run_build_inv(t: Seq<char>, hs: Seq<HeadingV>, bound: int)
    requires
        headings_sorted(hs),
        forall|i: int| 0 <= i < hs.len() ==> (#[trigger] hs[i]).start <= bound,
    ensures
        state_inv(run_build(t, hs), bound),
    decreases hs.len(),
{
    if hs.len() == 0 {
        let st = run_build(t, hs);
        assert(st.done.len() == 0);
        assert(st.stack.len() == 0);
    } else {
        let h = hs.last();
        let butlast = hs.drop_last();
        lemma_run_build_inv(t, butlast, h.start);
        lemma_push_inv(t, run_build(t, butlast), h, h.start);
        lemma_inv_weaken(run_build(t, hs), h.start, bound);
    }
}

proof fn lemma_drain_wf(st: BuildState, bound: int)
    requires
        state_inv(st, bound),
    ensures
        forest_wf(drain(st)),
    decreases st.stack.len(),
{
    if st.stack.len() > 0 {
        lemma_attach_inv(st, bound);
        lemma_drain_wf(attach_last(st), bound);
    }
}

/// Outline nesting law: for a heading list in document order, every
/// node of the resulting outline forest has only children of a strictly
/// greater level, and every sibling list — the top-level forest and each
/// node's children — stands in non-decreasing document order of spans.
pub proof fn lemma_outline_nesting(t: Seq<char>, hs: Seq<HeadingV>)
    requires
        headings_sorted(hs),
    ensures
        forest_wf(outline_spec(t, hs)),
{
    if hs.len() == 0 {
        lemma_run_build_inv(t, hs, 0);
        lemma_drain_wf(run_build(t, hs), 0);
    } else {
        let bound = hs.last().start;
        lemma_run_build_inv(t, hs, bound);
        lemma_drain_wf(run_build(t, hs), bound);
    }
}

proof fn lemma_run_build_flat(t: Seq<char>, hs: Seq<HeadingV>)
    requires
        hs.len() > 0,
        forall|i: int| 0 <= i < hs.len() ==> (#[trigger] hs[i]).level == hs[0].level,
    ensures
        run_build(t, hs) == (BuildState {
            done: hs.drop_last().map_values(|h: HeadingV| node_of(t, h)),
            stack: seq![node_of(t, hs.last())],
        }),
    decreases hs.len(),
{
    if hs.len() == 1 {
        let st = run_build(t, hs);
        assert(hs.drop_last().len() == 0);
        assert(hs.drop_last().map_values(|h: HeadingV| node_of(t, h)) =~= Seq::<
            OutlineNodeV,
        >::empty());
        assert(run_build(t, hs.drop_last()).stack.len() == 0);
        assert(pop_ge(run_build(t, hs.drop_last()), hs.last().level) == run_build(
            t,
            hs.drop_last(),
        ));
        assert(st.stack =~= seq![node_of(t, hs.last())]);
        assert(st.done =~= Seq::<OutlineNodeV>::empty());
    } else {
        let butlast = hs.drop_last();
        assert(forall|i: int|
            0 <= i < butlast.len() ==> (#[trigger] butlast[i]).level == butlast[0].level);
        lemma_run_build_flat(t, butlast);
        let st = run_build(t, butlast);
        let h = hs.last();
        assert(butlast.last().level == h.level);
        let top = node_of(t, butlast.last());
        assert(st.stack.last() == top);
        assert(top.level >= h.level);
        let st_a = attach_last(st);
        assert(st.stack.drop_last().len() == 0);
        assert(st_a.done == st.done.push(top));
        assert(st_a.stack =~= Seq::<OutlineNodeV>::empty());
        assert(pop_ge(st, h.level) == pop_ge(st_a, h.level));
        assert(pop_ge(st_a, h.level) == st_a);
        assert(run_build(t, hs).done == st.done.push(top));
        assert(st.done.push(top) =~= hs.drop_last().map_values(|x: HeadingV| node_of(t, x)));
        assert(run_build(t, hs).stack =~= seq![node_of(t, h)]);
    }
}

/// Flat outline law: a heading list whose headings all share one level
/// yields a flat top-level forest, one childless node per heading, in
/// document order, regardless of count.
pub proof fn lemma_flat_outline(t: Seq<char>, hs: Seq<HeadingV>)
    requires
        forall|i: int| 0 <= i < hs.len() ==> (#[trigger] hs[i]).level == hs[0].level,
    ensures
        outline_spec(t, hs) == hs.map_values(|h: HeadingV| node_of(t, h)),
{
    if hs.len() == 0 {
        assert(run_build(t, hs).stack.len() == 0);
        assert(outline_spec(t, hs) =~= hs.map_values(|h: HeadingV| node_of(t, h)));
    } else {
        lemma_run_build_flat(t, hs);
        let st = run_build(t, hs);
        let st_a = attach_last(st);
        assert(st.stack.drop_last().len() == 0);
        assert(st_a.stack =~= Seq::<OutlineNodeV>::empty());
        assert(drain(st) == drain(st_a));
        assert(drain(st_a) == st_a.done);
        assert(st_a.done == st.done.push(node_of(t, hs.last())));
        assert(st.done.push(node_of(t, hs.last())) =~= hs.map_values(|h: HeadingV| node_of(t, h)));
    }
}

/// The (level, span start, span end) entry of each heading-start event,
/// in stream order.
pub open spec fn start_entries(events: Seq<HeadingEvent>) -> Seq<(int, int, int)>
    decreases events.len(),
{
    if events.len() == 0 {
        Seq::empty()
    } else {
        let rest = start_entries(events.drop_first());
        match events[0] {
            HeadingEvent::Start { level, start, end } => seq![
                (level as int, start as int, end as int),
            ] + rest,
            HeadingEvent::Text { content } => rest,
            HeadingEvent::End => rest,
        }
    }
}

/// The (level, span start, span end) entry of each heading.
pub open spec fn heading_entries(hs: Seq<HeadingV>) -> Seq<(int, int, int)> {
    hs.map_values(|h: HeadingV| (h.level, h.start, h.end))
}

proof fn lemma_headings_wf_from(events: Seq<HeadingEvent>, cur: Option<HeadingV>, lo: int, n: int)
    requires
        events_wf_from(events, cur is Some, lo, n),
        0 <= lo <= n,
        cur is Some ==> cur->0.start == lo && cur->0.start <= cur->0.end <= n && 1 <= cur->0.level
            <= 6,
    ensures
        ({
            let hs = headings_of(events, cur);
            &&& heading_entries(hs) == (match cur {
                Some(h) => seq![(h.level, h.start, h.end)],
                None => Seq::<(int, int, int)>::empty(),
            }) + start_entries(events)
            &&& headings_sorted(hs)
            &&& forall|k: int|
                0 <= k < hs.len() ==> lo <= (#[trigger] hs[k]).start && hs[k].start <= hs[k].end
                    <= n && 1 <= hs[k].level <= 6
        }),
    decreases events.len(),
{
    let hs = headings_of(events, cur);
    if events.len() == 0 {
        match cur {
            Some(h) => {
                assert(heading_entries(seq![h]) =~= seq![(h.level, h.start, h.end)]
                    + start_entries(events));
            },
            None => {
                assert(heading_entries(hs) =~= start_entries(events));
            },
        }
    } else {
        let rest = events.drop_first();
        match events[0] {
            HeadingEvent::Start { level, start, end } => {
                let h2 = HeadingV {
                    name: Seq::empty(),
                    level: level as int,
                    start: start as int,
                    end: end as int,
                };
                lemma_headings_wf_from(rest, Some(h2), start as int, n);
                assert(heading_entries(hs) =~= Seq::<(int, int, int)>::empty() + start_entries(
                    events,
                ));
                assert forall|k: int| 0 <= k < hs.len() implies lo <= (
                #[trigger] hs[k]).start && hs[k].start <= hs[k].end <= n && 1 <= hs[k].level
                    <= 6 by {
                    assert(start as int <= hs[k].start);
                }
            },
            HeadingEvent::Text { content } => {
                match cur {
                    Some(h) => {
                        let h2 = HeadingV {
                            name: h.name + content@,
                            level: h.level,
                            start: h.start,
                            end: h.end,
                        };
                        lemma_headings_wf_from(rest, Some(h2), lo, n);
                        assert(heading_entries(hs) == seq![(h.level, h.start, h.end)]
                            + start_entries(rest));
                        assert(start_entries(events) =~= start_entries(rest));
                    },
                    None => {
                        lemma_headings_wf_from(rest, None::<HeadingV>, lo, n);
                        assert(start_entries(events) =~= start_entries(rest));
                    },
                }
            },
            HeadingEvent::End => {
                let h = cur->0;
                lemma_headings_wf_from(rest, None::<HeadingV>, lo, n);
                let tail = headings_of(rest, None);
                assert(hs == seq![h] + tail);
                assert(heading_entries(hs) =~= seq![(h.level, h.start, h.end)] + heading_entries(
                    tail,
                ));
                assert(start_entries(events) =~= start_entries(rest));
                assert forall|i: int, j: int| 0 <= i <= j < hs.len() implies (
                #[trigger] hs[i]).start <= (#[trigger] hs[j]).start by {
                    if i == 0 {
                        if j > 0 {
                            assert(hs[j] == tail[j - 1]);
                            assert(lo <= tail[j - 1].start);
                        }
                    } else {
                        assert(hs[i] == tail[i - 1] && hs[j] == tail[j - 1]);
                    }
                }
                assert forall|k: int| 0 <= k < hs.len() implies lo <= (
                #[trigger] hs[k]).start && hs[k].start <= hs[k].end <= n && 1 <= hs[k].level
                    <= 6 by {
                    if k > 0 {
                        assert(hs[k] == tail[k - 1]);
                    }
                }
            },
        }
    }
}

/// One heading per heading-start event: for a well-formed stream the
/// flat heading list carries exactly the (level, span) of each start
/// event, in stream order, with spans ordered, within the text, and in
/// document order, and levels in `1 ..= 6`.
pub proof fn lemma_headings_cover_starts(events: Seq<HeadingEvent>, n: int)
    requires
        events_wf(events, n),
        0 <= n,
    ensures
        heading_entries(headings_of(events, None)) == start_entries(events),
        headings_sorted(headings_of(events, None)),
        forall|k: int|
            0 <= k < headings_of(events, None).len() ==> {
                let h = #[trigger] headings_of(events, None)[k];
                0 <= h.start && h.start <= h.end <= n && 1 <= h.level <= 6
            },
{
    lemma_headings_wf_from(events, None::<HeadingV>, 0, n);
    assert(Seq::<(int, int, int)>::empty() + start_entries(events) =~= start_entries(events));
}

/// Outline nesting for a well-formed heading stream: the forest built
/// from the stream's headings satisfies the nesting law, with no
/// further hypothesis — the stream's document order supplies the
/// heading order.
pub proof fn lemma_outline_nesting_of_events(t: Seq<char>, events: Seq<HeadingEvent>)
    requires
        events_wf(events, t.len() as int),
    ensures
        forest_wf(outline_spec(t, headings_of(events, None))),
{
    lemma_headings_cover_starts(events, t.len() as int);
    lemma_outline_nesting(t, headings_of(events, None));
}

/// The (level, span start, span end) entries of a forest in pre-order:
/// each node before its children, children before later siblings.
pub open spec fn preorder_entries(ns: Seq<OutlineNodeV>) -> Seq<(int, int, int)>
    decreases ns,
{
    if ns.len() == 0 {
        Seq::empty()
    } else {
        seq![(ns[0].level, ns[0].span_start, ns[0].span_end)] + preorder_entries(ns[0].children)
            + preorder_entries(ns.drop_first())
    }
}

/// The pre-order entries of one node's subtree.
pub open spec fn node_entries(n: OutlineNodeV) -> Seq<(int, int, int)> {
    seq![(n.level, n.span_start, n.span_end)] + preorder_entries(n.children)
}

proof fn lemma_preorder_push(ns: Seq<OutlineNodeV>, x: OutlineNodeV)
    ensures
        preorder_entries(ns.push(x)) == preorder_entries(ns) + node_entries(x),
    decreases ns.len(),
{
    if ns.len() == 0 {
        assert(ns.push(x)[0] == x);
        assert(ns.push(x).drop_first() =~= Seq::<OutlineNodeV>::empty());
        assert(preorder_entries(Seq::<OutlineNodeV>::empty()) == Seq::<(int, int, int)>::empty());
        assert(preorder_entries(ns.push(x)) =~= node_entries(x));
        assert(preorder_entries(ns) + node_entries(x) =~= node_entries(x));
    } else {
        assert(ns.push(x)[0] == ns[0]);
        assert(ns.push(x).drop_first() =~= ns.drop_first().push(x));
        lemma_preorder_push(ns.drop_first(), x);
        assert(seq![(ns[0].level, ns[0].span_start, ns[0].span_end)] + preorder_entries(
            ns[0].children,
        ) + (preorder_entries(ns.drop_first()) + node_entries(x)) =~= (seq![
            (ns[0].level, ns[0].span_start, ns[0].span_end),
        ] + preorder_entries(ns[0].children) + preorder_entries(ns.drop_first()))
            + node_entries(x));
    }
}

proof fn lemma_node_entries_with_child(p: OutlineNodeV, c: OutlineNodeV)
    ensures
        node_entries(with_child(p, c)) == node_entries(p) + node_entries(c),
{
    lemma_preorder_push(p.children, c);
    assert(seq![(p.level, p.span_start, p.span_end)] + (preorder_entries(p.children)
        + node_entries(c)) =~= (seq![(p.level, p.span_start, p.span_end)] + preorder_entries(
        p.children,
    )) + node_entries(c));
}

proof fn lemma_attach_entries(st: BuildState)
    requires
        st.stack.len() > 0,
    ensures
        (preorder_entries(attach_last(st).done) + preorder_entries(attach_last(st).stack)
            == preorder_entries(st.done) + preorder_entries(st.stack)),
{
    let completed = st.stack.last();
    let rest = st.stack.drop_last();
    assert(st.stack =~= rest.push(completed));
    lemma_preorder_push(rest, completed);
    if rest.len() == 0 {
        lemma_preorder_push(st.done, completed);
        assert(preorder_entries(rest) =~= Seq::<(int, int, int)>::empty());
        assert((preorder_entries(st.done) + node_entries(completed)) + preorder_entries(rest)
            =~= preorder_entries(st.done) + (preorder_entries(rest) + node_entries(completed)));
    } else {
        let p = rest.last();
        let p2 = with_child(p, completed);
        let rd = rest.drop_last();
        assert(rest =~= rd.push(p));
        lemma_preorder_push(rd, p);
        lemma_preorder_push(rd, p2);
        lemma_node_entries_with_child(p, completed);
        assert(preorder_entries(rd) + (node_entries(p) + node_entries(completed)) =~= (
        preorder_entries(rd) + node_entries(p)) + node_entries(completed));
        assert(preorder_entries(attach_last(st).stack) == preorder_entries(rd.push(p2)));
    }
}

proof fn lemma_pop_entries(st: BuildState, level: int)
    ensures
        (preorder_entries(pop_ge(st, level).done) + preorder_entries(pop_ge(st, level).stack)
            == preorder_entries(st.done) + preorder_entries(st.stack)),
    decreases st.stack.len(),
{
    if st.stack.len() > 0 && st.stack.last().level >= level {
        lemma_attach_entries(st);
        lemma_pop_entries(attach_last(st), level);
    }
}

proof fn lemma_push_entries(t: Seq<char>, st: BuildState, h: HeadingV)
    ensures
        (preorder_entries(push_heading(t, st, h).done) + preorder_entries(
            push_heading(t, st, h).stack,
        ) == preorder_entries(st.done) + preorder_entries(st.stack) + seq![
            (h.level, h.start, h.end),
        ]),
{
    lemma_pop_entries(st, h.level);
    let popped = pop_ge(st, h.level);
    let n = node_of(t, h);
    lemma_preorder_push(popped.stack, n);
    assert(preorder_entries(n.children) =~= Seq::<(int, int, int)>::empty());
    assert(node_entries(n) =~= seq![(h.level, h.start, h.end)]);
    assert(preorder_entries(popped.done) + (preorder_entries(popped.stack) + node_entries(n)) =~= (
    preorder_entries(popped.done) + preorder_entries(popped.stack)) + node_entries(n));
    assert((preorder_entries(st.done) + preorder_entries(st.stack)) + node_entries(n)
        =~= preorder_entries(st.done) + preorder_entries(st.stack) + seq![
        (h.level, h.start, h.end),
    ]);
}

proof fn lemma_run_entries(t: Seq<char>, hs: Seq<HeadingV>)
    ensures
        (preorder_entries(run_build(t, hs).done) + preorder_entries(run_build(t, hs).stack)
            == heading_entries(hs)),
    decreases hs.len(),
{
    if hs.len() == 0 {
        assert(run_build(t, hs).done.len() == 0);
        assert(run_build(t, hs).stack.len() == 0);
        assert(preorder_entries(run_build(t, hs).done) + preorder_entries(run_build(t, hs).stack)
            =~= heading_entries(hs));
    } else {
        lemma_run_entries(t, hs.drop_last());
        lemma_push_entries(t, run_build(t, hs.drop_last()), hs.last());
        assert(heading_entries(hs) =~= heading_entries(hs.drop_last()) + seq![
            (hs.last().level, hs.last().start, hs.last().end),
        ]);
    }
}

proof fn lemma_drain_entries(st: BuildState)
    ensures
        (preorder_entries(drain(st)) == preorder_entries(st.done) + preorder_entries(st.stack)),
    decreases st.stack.len(),
{
    if st.stack.len() == 0 {
        assert(preorder_entries(st.stack) =~= Seq::<(int, int, int)>::empty());
        assert(preorder_entries(st.done) + preorder_entries(st.stack) =~= preorder_entries(
            st.done,
        ));
    } else {
        lemma_attach_entries(st);
        lemma_drain_entries(attach_last(st));
    }
}

/// One outline node per heading: the pre-order traversal of the
/// outline forest lists exactly the headings' (level, span) entries, in
/// document order — no heading is dropped, duplicated or reordered.
pub proof fn lemma_outline_preorder(t: Seq<char>, hs: Seq<HeadingV>)
    ensures
        preorder_entries(outline_spec(t, hs)) == heading_entries(hs),
{
    lemma_run_entries(t, hs);
    lemma_drain_entries(run_build(t, hs));
}

/// One outline node per heading-start event: for a well-formed heading
/// stream, the pre-order traversal of the built outline forest lists
/// exactly the (level, span) of each heading-start event, in stream
/// order.
pub proof fn lemma_outline_covers_starts(t: Seq<char>, events: Seq<HeadingEvent>)
    requires
        events_wf(events, t.len() as int),
    ensures
        preorder_entries(outline_spec(t, headings_of(events, None))) == start_entries(events),
{
    lemma_headings_cover_starts(events, t.len() as int);
    lemma_outline_preorder(t, headings_of(events, None));
}

/// Builds the nested outline of a markdown document from the heading
/// events of its text: one node per heading, each nested under the
/// nearest preceding heading of a shallower level.
pub fn collect_symbols(text: &str) -> (r: Vec<DocumentSymbol>)
    ensures
        sym_views(r@) == outline_spec(
            text@,
            headings_of(heading_events_of(text@), None),
        ),
{
    let events = heading_events(text);
    let hs = headings_from_events(&events);
    build_outline(text, &hs)
}

} // verus!
