//! Flat symbol listings of a document, annotated with the document's
//! identity, as used by workspace-wide symbol search.

use vstd::prelude::*;

use crate::outline::HeadingEvent;
use crate::outline::HeadingV;
use crate::outline::events_wf;
use crate::outline::lemma_headings_cover_starts;
use crate::outline::OutlineNodeV;
use crate::outline::SymbolKind;
use crate::outline::heading_events_of;
use crate::outline::headings_of;
use crate::outline::headings_from_events;
use crate::outline::kind_of_level;
use crate::outline::sym_view;
use crate::outline::sym_views;
use crate::parser::parse_markdown_symbols;
use crate::parser::parse_symbols_spec;
use crate::position::Range;
use crate::position::lemma_range_of_ordered;
use crate::position::pos_le;
use crate::position::range_of;

verus! {

/// One heading occurrence across the workspace: the heading symbol with
/// the identity of the document it came from.
pub struct SymbolInformation {
    pub name: String,
    pub kind: SymbolKind,
    pub uri: String,
    pub range: Range,
    pub container_name: Option<String>,
}

/// Mathematical model of a workspace symbol.
pub ghost struct SymbolInfoV {
    pub name: Seq<char>,
    pub kind: SymbolKind,
    pub uri: Seq<char>,
    pub range: Range,
    pub container_name: Option<Seq<char>>,
}

impl View for SymbolInformation {
    type V = SymbolInfoV;

    open spec fn view(&self) -> SymbolInfoV {
        SymbolInfoV {
            name: self.name@,
            kind: self.kind,
            uri: self.uri@,
            range: self.range,
            container_name: match self.container_name {
                Some(c) => Some(c@),
                None => None,
            },
        }
    }
}

/// The workspace symbol of heading `h` of the document `uri` with text
/// `t`.
pub open spec fn info_of_heading(t: Seq<char>, uri: Seq<char>, h: HeadingV) -> SymbolInfoV {
    SymbolInfoV {
        name: h.name,
        kind: kind_of_level(h.level),
        uri,
        range: range_of(t, h.start, h.end),
        container_name: None,
    }
}

/// The workspace symbol of flat outline node `n` of the document `uri`
/// contained in `container`.
pub open spec fn info_of_node(uri: Seq<char>, container: Seq<char>, n: OutlineNodeV) -> SymbolInfoV {
    SymbolInfoV {
        name: n.name,
        kind: n.kind,
        uri,
        range: n.range,
        container_name: Some(container),
    }
}

/// Extracts flat heading symbols through the markup parser's heading
/// events.
pub struct MarkdownSymbolExtractor;

impl MarkdownSymbolExtractor {
    /// Lists every heading of `content` as a flat workspace symbol
    /// carrying the document identity `file_path`: one symbol per
    /// heading event pair, in document order, its span translated to
    /// (line, column) coordinates.
    pub fn extract_symbols(content: &str, file_path: &str) -> (r: Vec<SymbolInformation>)
        ensures
            r@.map_values(|s: SymbolInformation| s@) == headings_of(
                heading_events_of(content@),
                None,
            ).map_values(|h: HeadingV| info_of_heading(content@, file_path@, h)),
    {
        let events = crate::outline::heading_events(content);
        let headings = headings_from_events(&events);
        let ghost hs = headings@.map_values(|h: crate::outline::Heading| h@);
        let mut out: Vec<SymbolInformation> = Vec::new();
        let mut i: usize = 0;
        proof {
            assert(out@.map_values(|s: SymbolInformation| s@) =~= hs.subrange(0, 0).map_values(
                |h: HeadingV| info_of_heading(content@, file_path@, h),
            ));
        }
        while i < headings.len()
            invariant
                i <= headings@.len(),
                hs == headings@.map_values(|h: crate::outline::Heading| h@),
                out@.map_values(|s: SymbolInformation| s@) == hs.subrange(0, i as int).map_values(
                    |h: HeadingV| info_of_heading(content@, file_path@, h),
                ),
            decreases headings@.len() - i,
        {
            let h = &headings[i];
            let info = SymbolInformation {
                name: h.name.clone(),
                kind: crate::outline::kind_of_symbol_level(h.level),
                uri: file_path.to_owned(),
                range: crate::outline::span_range(content, h.start, h.end),
                container_name: None,
            };
            let ghost prev = out@;
            proof {
                assert(hs[i as int] == h@);
                assert(info@ == info_of_heading(content@, file_path@, hs[i as int]));
            }
            out.push(info);
            proof {
                assert(out@.map_values(|s: SymbolInformation| s@) =~= prev.map_values(
                    |s: SymbolInformation| s@,
                ) + seq![info@]);
                assert(hs.subrange(0, i + 1).map_values(
                    |h: HeadingV| info_of_heading(content@, file_path@, h),
                ) =~= hs.subrange(0, i as int).map_values(
                    |h: HeadingV| info_of_heading(content@, file_path@, h),
                ) + seq![info_of_heading(content@, file_path@, hs[i as int])]);
            }
            i = i + 1;
        }
        proof {
            assert(hs.subrange(0, hs.len() as int) =~= hs);
        }
        out
    }
}

/// Lists every heading line of `content` as a workspace symbol of the
/// document `uri` contained in `file_name`, through the line-based
/// heading parse.
pub fn workspace_symbols_from_content(content: &str, uri: &str, file_name: &str) -> (r: Vec<
    SymbolInformation,
>)
    ensures
        r@.map_values(|s: SymbolInformation| s@) == parse_symbols_spec(
            content@,
            0,
            0,
        ).map_values(|n: OutlineNodeV| info_of_node(uri@, file_name@, n)),
{
    let syms = parse_markdown_symbols(content);
    let ghost ns = sym_views(syms@);
    let mut out: Vec<SymbolInformation> = Vec::new();
    let mut i: usize = 0;
    proof {
        assert(out@.map_values(|s: SymbolInformation| s@) =~= ns.subrange(0, 0).map_values(
            |n: OutlineNodeV| info_of_node(uri@, file_name@, n),
        ));
    }
    while i < syms.len()
        invariant
            i <= syms@.len(),
            ns == sym_views(syms@),
            out@.map_values(|s: SymbolInformation| s@) == ns.subrange(0, i as int).map_values(
                |n: OutlineNodeV| info_of_node(uri@, file_name@, n),
            ),
        decreases syms@.len() - i,
    {
        let s = &syms[i];
        let info = SymbolInformation {
            name: s.name.clone(),
            kind: s.kind,
            uri: uri.to_owned(),
            range: s.range,
            container_name: Some(file_name.to_owned()),
        };
        let ghost prev = out@;
        proof {
            assert(ns[i as int] == sym_view(syms@[i as int]));
            assert(info@ == info_of_node(uri@, file_name@, ns[i as int]));
        }
        out.push(info);
        proof {
            assert(out@.map_values(|s2: SymbolInformation| s2@) =~= prev.map_values(
                |s2: SymbolInformation| s2@,
            ) + seq![info@]);
            assert(ns.subrange(0, i + 1).map_values(
                |n: OutlineNodeV| info_of_node(uri@, file_name@, n),
            ) =~= ns.subrange(0, i as int).map_values(
                |n: OutlineNodeV| info_of_node(uri@, file_name@, n),
            ) + seq![info_of_node(uri@, file_name@, ns[i as int])]);
        }
        i = i + 1;
    }
    proof {
        assert(ns.subrange(0, ns.len() as int) =~= ns);
    }
    out
}

/// Ordered symbol ranges: for a well-formed heading stream of the
/// document, every workspace symbol listed for it has its range start
/// at or before its range end.
pub proof fn lemma_symbol_ranges_ordered(t: Seq<char>, events: Seq<HeadingEvent>, uri: Seq<char>)
    requires
        events_wf(events, t.len() as int),
        t.len() <= usize::MAX,
    ensures
        ({
            let infos = headings_of(events, None).map_values(
                |h: HeadingV| info_of_heading(t, uri, h),
            );
            forall|k: int|
                0 <= k < infos.len() ==> pos_le(
                    (#[trigger] infos[k]).range.start,
                    infos[k].range.end,
                )
        }),
{
    lemma_headings_cover_starts(events, t.len() as int);
    let hs = headings_of(events, None);
    let infos = hs.map_values(|h: HeadingV| info_of_heading(t, uri, h));
    assert forall|k: int| 0 <= k < infos.len() implies pos_le(
        (#[trigger] infos[k]).range.start,
        infos[k].range.end,
    ) by {
        assert(infos[k] == info_of_heading(t, uri, hs[k]));
        lemma_range_of_ordered(t, hs[k].start, hs[k].end);
    }
}

} // verus!
