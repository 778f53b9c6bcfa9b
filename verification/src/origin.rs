//! Copies of base definitions for map overrides.
//!
//! A map that overrides a definition of the base game merges its fields over
//! it. The fixes here insert the base definition, to start from.

use vstd::prelude::*;
use vstd::string::*;

use crate::actions::{end_span, fix_views, span_at_end, Fix, FixView};
use crate::analyzer::{Analyzer, SchemaOpeners, Span};
use crate::ast::Block;
use crate::checks::{diagnostic_views, Diagnostic, DiagnosticView};
use crate::diagnostics::{base_site, defined_kind, is_override_layer, override_layer};
use crate::facts::item_views;
use crate::index::{location_views, rebase, IndexView, Location, LocationView, WorkspaceIndex};
use crate::kind::SyntaxKind;
use crate::outline::node_span;
use crate::parser::{child_views, parse_text, ChildView, Parse};
use crate::schema::{RefKind, Schema};
use crate::suggest::{meets, meets_range};
use crate::text::{blen, cat3, cat5, last_char, lower, same, same_ignoring_case};
use crate::tree::{elements_text, node_text, ElementView, NodeView, SyntaxElement, SyntaxNode};
use crate::uri::{parse_uri, parsed_uri, path_name, short_name};

verus! {

/// A base definition to copy: its name as the override writes it, and the file
/// that holds it.
#[derive(Debug)]
pub struct CopyRequest {
    pub name: String,
    pub file: String,
}

#[verifier::ext_equal]
pub struct RequestView {
    pub name: Seq<char>,
    pub file: Seq<char>,
}

impl View for CopyRequest {
    type V = RequestView;

    open spec fn view(&self) -> RequestView {
        RequestView { name: self.name@, file: self.file@ }
    }
}

/// The first top-level block from `i` on that holds a range.
pub open spec fn block_around(children: Seq<ChildView>, span: Span, i: int) -> Option<NodeView>
    decreases children.len() - i,
{
    if i < 0 || i >= children.len() {
        None
    } else {
        match children[i].element {
            ElementView::Node(node) => {
                let at = node_span(node, children[i].offset);
                if node.kind == SyntaxKind::BLOCK && at.start <= span.start && span.end <= at.end {
                    Some(node)
                } else {
                    block_around(children, span, i + 1)
                }
            },
            _ => block_around(children, span, i + 1),
        }
    }
}

/// The requests so far, and the names asked for in lower case.
#[verifier::ext_equal]
pub struct RequestState {
    pub out: Seq<RequestView>,
    pub seen: Seq<Seq<char>>,
}

/// The requests after one more diagnostic. An override that meets the range asks
/// for the first definition outside the override layers, once for each name.
pub open spec fn request_step(
    schema: Schema,
    index: IndexView,
    children: Seq<ChildView>,
    range: Span,
    diagnostic: DiagnosticView,
    state: RequestState,
) -> RequestState {
    if diagnostic.code != "overrides"@ || !meets(diagnostic.span, range) {
        state
    } else {
        match block_around(children, diagnostic.span, 0) {
            None => state,
            Some(node) => match (defined_kind(schema, node), node.second_word()) {
                (Some(kind), Some(name)) => if state.seen.contains(lower(name.text)) {
                    state
                } else {
                    RequestState {
                        seen: state.seen.push(lower(name.text)),
                        out: match base_site(index.locations_of(kind, name.text)) {
                            Some(site) => state.out.push(
                                RequestView { name: name.text, file: site.file },
                            ),
                            None => state.out,
                        },
                    }
                },
                _ => state,
            },
        }
    }
}

/// The base definitions to copy for a list of diagnostics.
pub open spec fn requests_of(
    schema: Schema,
    index: IndexView,
    children: Seq<ChildView>,
    range: Span,
    diagnostics: Seq<DiagnosticView>,
) -> RequestState
    decreases diagnostics.len(),
{
    if diagnostics.len() == 0 {
        RequestState { out: Seq::empty(), seen: Seq::empty() }
    } else {
        request_step(
            schema,
            index,
            children,
            range,
            diagnostics.last(),
            requests_of(schema, index, children, range, diagnostics.drop_last()),
        )
    }
}

fn find_block<'a>(parse: &'a Parse, span: Span) -> (out: Option<&'a SyntaxNode>)
    ensures
        match out {
            Some(node) => block_around(child_views(parse.children@), span, 0) == Some(node.view()),
            None => block_around(child_views(parse.children@), span, 0) is None,
        },
{
    let ghost all = child_views(parse.children@);
    let mut i: usize = 0;
    while i < parse.children.len()
        invariant
            i <= parse.children@.len(),
            all == child_views(parse.children@),
            block_around(all, span, 0) == block_around(all, span, i as int),
        decreases parse.children@.len() - i,
    {
        let child = &parse.children[i];
        assert(all[i as int] == child.view());
        if let SyntaxElement::Node(node) = &*child.element {
            let at = rebase(child.offset, node.start, node.end);
            if node.kind == SyntaxKind::BLOCK && at.start <= span.start && span.end <= at.end {
                return Some(node);
            }
        }
        i += 1;
    }
    None
}

fn first_base<'a>(sites: &'a [Location]) -> (out: Option<&'a Location>)
    ensures
        match out {
            Some(site) => base_site(location_views(sites@)) == Some(site.view()),
            None => base_site(location_views(sites@)) is None,
        },
{
    let ghost all = location_views(sites@);
    let mut i: usize = 0;
    assert(all.skip(0) =~= all);
    while i < sites.len()
        invariant
            i <= sites@.len(),
            all == location_views(sites@),
            base_site(all) == base_site(all.skip(i as int)),
        decreases sites@.len() - i,
    {
        proof {
            assert(all.skip(i as int).drop_first() =~= all.skip(i + 1));
            assert(all.skip(i as int)[0] == sites@[i as int].view());
        }
        if !is_override_layer(sites[i].file.as_str()) {
            return Some(&sites[i]);
        }
        i += 1;
    }
    None
}

fn text_listed(texts: &Vec<String>, text: &str) -> (found: bool)
    ensures
        found == item_views(texts@).contains(text@),
{
    let ghost all = item_views(texts@);
    let mut i: usize = 0;
    while i < texts.len()
        invariant
            i <= texts.len(),
            all == item_views(texts@),
            forall|j: int| 0 <= j < i ==> #[trigger] all[j] != text@,
        decreases texts.len() - i,
    {
        assert(all[i as int] == texts@[i as int]@);
        if same(&texts[i], text) {
            return true;
        }
        i += 1;
    }
    false
}

/// The base definitions to copy for the overrides that meet `range`.
pub fn copy_requests(
    analyzer: &Analyzer,
    parse: &Parse,
    range: Span,
    diagnostics: &Vec<Diagnostic>,
    index: &WorkspaceIndex,
) -> (out: Vec<CopyRequest>)
    ensures
        item_views(out@) == requests_of(
            analyzer.schema,
            index.view(),
            child_views(parse.children@),
            range,
            diagnostic_views(diagnostics@),
        ).out,
{
    let ghost schema = analyzer.schema;
    let ghost children = child_views(parse.children@);
    let ghost all = diagnostic_views(diagnostics@);
    let mut out: Vec<CopyRequest> = Vec::new();
    let mut seen: Vec<String> = Vec::new();
    let mut i: usize = 0;
    assert(all.take(0) =~= Seq::<DiagnosticView>::empty());
    assert(item_views(out@) =~= Seq::<RequestView>::empty());
    assert(item_views(seen@) =~= Seq::<Seq<char>>::empty());
    while i < diagnostics.len()
        invariant
            i <= diagnostics.len(),
            schema == analyzer.schema,
            children == child_views(parse.children@),
            all == diagnostic_views(diagnostics@),
            (RequestState { out: item_views(out@), seen: item_views(seen@) }) == requests_of(
                schema,
                index.view(),
                children,
                range,
                all.take(i as int),
            ),
        decreases diagnostics.len() - i,
    {
        let diagnostic = &diagnostics[i];
        let ghost state = RequestState { out: item_views(out@), seen: item_views(seen@) };
        proof {
            assert(all.take(i + 1).drop_last() =~= all.take(i as int));
            assert(all.take(i + 1).last() == diagnostic.view());
        }
        if same(diagnostic.code, "overrides") && meets_range(diagnostic.span, range) {
            if let Some(node) = find_block(parse, diagnostic.span) {
                let block = Block(node);
                let kind: Option<RefKind> = match block.keyword() {
                    Some(keyword) => match analyzer.block(&keyword.text) {
                        Some(known) => known.defines,
                        None => None,
                    },
                    None => None,
                };
                assert(kind == defined_kind(schema, node.view()));
                if let (Some(kind), Some(name)) = (kind, block.name()) {
                    let folded = name.text.as_str().to_ascii_lowercase();
                    if !text_listed(&seen, &folded) {
                        let ghost key = folded@;
                        seen.push(folded);
                        assert(item_views(seen@) =~= state.seen.push(key));
                        if let Some(site) = first_base(index.locations(kind, &name.text)) {
                            let request = CopyRequest {
                                name: name.text.clone(),
                                file: site.file.clone(),
                            };
                            let ghost view = request@;
                            out.push(request);
                            assert(item_views(out@) =~= state.out.push(view));
                        }
                    }
                }
            }
        }
        assert((RequestState { out: item_views(out@), seen: item_views(seen@) }) =~= request_step(
            schema,
            index.view(),
            children,
            range,
            diagnostic.view(),
            state,
        ));
        i += 1;
    }
    assert(all.take(i as int) =~= all);
    out
}

// ---------------------------------------------------------------------------
// Copies
// ---------------------------------------------------------------------------
/// The text of the first block of a name, in whatever case, from `i` on.
pub open spec fn block_text(children: Seq<ChildView>, name: Seq<char>, i: int) -> Option<Seq<char>>
    decreases children.len() - i,
{
    if i < 0 || i >= children.len() {
        None
    } else {
        match children[i].element {
            ElementView::Node(node) => if node.kind == SyntaxKind::BLOCK && (
            node.second_word() matches Some(word) && same_ignoring_case(word.text, name)) {
                Some(elements_text(node.children))
            } else {
                block_text(children, name, i + 1)
            },
            _ => block_text(children, name, i + 1),
        }
    }
}

/// The fix that inserts a copy of a definition at the end of a text.
pub open spec fn copy_fix(
    text: Seq<char>,
    name: Seq<char>,
    short: Seq<char>,
    block: Seq<char>,
) -> FixView {
    let lead = if text.len() == 0 || text.last() == '\n' {
        ""@
    } else {
        "\n"@
    };
    FixView {
        title: "Insert reference copy of `"@ + name + "` from "@ + short,
        span: end_span(text),
        new_text: lead + "\n; === Reference copy of "@ + name + " from "@ + short + (
        " ===\n; Remove the fields and modules you don't need.\n"@ + block + "\n"@),
    }
}

fn find_block_text(parse: &Parse, name: &str) -> (out: Option<String>)
    ensures
        match out {
            Some(text) => block_text(child_views(parse.children@), name@, 0) == Some(text@),
            None => block_text(child_views(parse.children@), name@, 0) is None,
        },
{
    let ghost all = child_views(parse.children@);
    let mut i: usize = 0;
    while i < parse.children.len()
        invariant
            i <= parse.children@.len(),
            all == child_views(parse.children@),
            block_text(all, name@, 0) == block_text(all, name@, i as int),
        decreases parse.children@.len() - i,
    {
        let child = &parse.children[i];
        assert(all[i as int] == child.view());
        if let SyntaxElement::Node(node) = &*child.element {
            if node.kind == SyntaxKind::BLOCK {
                if let Some(word) = Block(node).name() {
                    if word.text.as_str().eq_ignore_ascii_case(name) {
                        return Some(node_text(node));
                    }
                }
            }
        }
        i += 1;
    }
    None
}

/// The fix that copies a definition out of `base_text`, the source of a file
/// called `short`; `None` if it is not there.
pub fn copy_definition(
    analyzer: &Analyzer,
    text: &str,
    name: &str,
    base_text: &str,
    short: &str,
) -> (out: Option<Fix>)
    requires
        blen(text@) <= u32::MAX,
        blen(base_text@) <= u32::MAX,
    ensures
        ({
            let children = parse_text(analyzer.openers, base_text@).children;
            match block_text(children, name@, 0) {
                Some(block) => out is Some && (out->0).view() == copy_fix(
                    text@,
                    name@,
                    short@,
                    block,
                ),
                None => out is None,
            }
        }),
{
    let parse = analyzer.parse(base_text);
    match find_block_text(&parse, name) {
        None => None,
        Some(block) => {
            let lead = match last_char(text) {
                None => "",
                Some(c) => if c == '\n' {
                    ""
                } else {
                    "\n"
                },
            };
            let mut new_text = cat5(lead, "\n; === Reference copy of ", name, " from ", short);
            let rest = cat3(
                " ===\n; Remove the fields and modules you don't need.\n",
                &block,
                "\n",
            );
            new_text.append(&rest);
            let mut title = cat3("Insert reference copy of `", name, "` from ");
            title.append(short);
            Some(Fix { title, span: span_at_end(text), new_text })
        },
    }
}

/// The fixes for the first `n` requests, given the source of each file as far as
/// it could be read. A file whose name is no URI is passed over.
pub open spec fn copy_fixes(
    openers: SchemaOpeners,
    text: Seq<char>,
    requests: Seq<RequestView>,
    sources: Seq<Option<String>>,
    n: nat,
) -> Seq<FixView>
    decreases n,
{
    if n == 0 {
        Seq::empty()
    } else {
        let rest = copy_fixes(openers, text, requests, sources, (n - 1) as nat);
        let request = requests[n - 1];
        match (parsed_uri(request.file), sources[n - 1]) {
            (Some((_, path, _)), Some(source)) => match block_text(
                parse_text(openers, source@).children,
                request.name,
                0,
            ) {
                Some(block) => rest.push(copy_fix(text, request.name, short_name(path), block)),
                None => rest,
            },
            _ => rest,
        }
    }
}

/// The fixes that insert the base definitions of overrides, given the source of
/// each requested file as far as it could be read.
pub fn origin_copy_fixes(
    analyzer: &Analyzer,
    text: &str,
    requests: &Vec<CopyRequest>,
    sources: &Vec<Option<String>>,
) -> (out: Vec<Fix>)
    requires
        blen(text@) <= u32::MAX,
        sources.len() == requests.len(),
        forall|i: int|
            0 <= i < sources.len() ==> ((#[trigger] sources[i]) matches Some(source) ==> blen(
                source@,
            ) <= u32::MAX),
    ensures
        fix_views(out@) == copy_fixes(
            analyzer.openers,
            text@,
            item_views(requests@),
            sources@,
            requests@.len(),
        ),
{
    let ghost all = item_views(requests@);
    let mut out: Vec<Fix> = Vec::new();
    let mut i: usize = 0;
    assert(fix_views(out@) =~= Seq::<FixView>::empty());
    while i < requests.len()
        invariant
            i <= requests.len(),
            sources.len() == requests.len(),
            all == item_views(requests@),
            blen(text@) <= u32::MAX,
            forall|i: int|
                0 <= i < sources.len() ==> ((#[trigger] sources[i]) matches Some(source) ==> blen(
                    source@,
                ) <= u32::MAX),
            fix_views(out@) == copy_fixes(analyzer.openers, text@, all, sources@, i as nat),
        decreases requests.len() - i,
    {
        let request = &requests[i];
        assert(all[i as int] == request@);
        let ghost before = fix_views(out@);
        if let Some(parts) = parse_uri(&request.file) {
            if let Some(source) = &sources[i] {
                assert(blen(source@) <= u32::MAX);
                if let Some(fix) = copy_definition(
                    analyzer,
                    text,
                    &request.name,
                    source,
                    &path_name(&parts.path),
                ) {
                    let ghost view = fix.view();
                    out.push(fix);
                    assert(fix_views(out@) =~= before.push(view));
                }
            }
        }
        i += 1;
    }
    out
}

// ---------------------------------------------------------------------------
// Laws
// ---------------------------------------------------------------------------
/// Names that were asked for, and no request for a name that was not.
proof fn lemma_requests(
    schema: Schema,
    index: IndexView,
    children: Seq<ChildView>,
    range: Span,
    diagnostics: Seq<DiagnosticView>,
)
    ensures
        ({
            let state = requests_of(schema, index, children, range, diagnostics);
            &&& forall|i: int|
                0 <= i < state.out.len() ==> state.seen.contains(
                    lower((#[trigger] state.out[i]).name),
                )
            &&& forall|i: int, j: int| #![trigger state.out[i], state.out[j]]
                0 <= i < j < state.out.len() ==> lower(state.out[i].name) != lower(
                    state.out[j].name,
                )
        }),
    decreases diagnostics.len(),
{
    if diagnostics.len() > 0 {
        lemma_requests(schema, index, children, range, diagnostics.drop_last());
        let before = requests_of(schema, index, children, range, diagnostics.drop_last());
        let after = requests_of(schema, index, children, range, diagnostics);
        if after != before {
            let key = after.seen.last();
            assert(after.seen =~= before.seen.push(key));
            assert forall|i: int| 0 <= i < after.out.len() implies after.seen.contains(
                lower((#[trigger] after.out[i]).name),
            ) by {
                if i < before.out.len() {
                    assert(after.out[i] == before.out[i]);
                    let k = choose|k: int|
                        0 <= k < before.seen.len() && before.seen[k] == lower(before.out[i].name);
                    assert(after.seen[k] == lower(after.out[i].name));
                } else {
                    assert(after.seen[before.seen.len() as int] == lower(after.out[i].name));
                }
            }
            assert forall|i: int, j: int| #![trigger after.out[i], after.out[j]]
                0 <= i < j < after.out.len() implies lower(after.out[i].name) != lower(
                after.out[j].name,
            ) by {
                assert(after.out[i] == before.out[i]);
                if j < before.out.len() {
                    assert(after.out[j] == before.out[j]);
                }
            }
        }
    }
}

/// Law: no definition is asked for twice, in whatever case.
pub proof fn requests_differ(
    schema: Schema,
    index: IndexView,
    children: Seq<ChildView>,
    range: Span,
    diagnostics: Seq<DiagnosticView>,
    i: int,
    j: int,
)
    requires
        0 <= i < j < requests_of(schema, index, children, range, diagnostics).out.len(),
    ensures
        !same_ignoring_case(
            requests_of(schema, index, children, range, diagnostics).out[i].name,
            requests_of(schema, index, children, range, diagnostics).out[j].name,
        ),
{
    lemma_requests(schema, index, children, range, diagnostics);
}

/// Law: nothing is copied out of an override layer.
pub proof fn base_site_is_no_override(sites: Seq<LocationView>)
    ensures
        base_site(sites) matches Some(site) ==> !override_layer(site.file) && sites.contains(site),
    decreases sites.len(),
{
    if sites.len() > 0 && override_layer(sites[0].file) {
        base_site_is_no_override(sites.drop_first());
        if let Some(site) = base_site(sites.drop_first()) {
            let k = choose|k: int|
                0 <= k < sites.drop_first().len() && sites.drop_first()[k] == site;
            assert(sites[k + 1] == site);
        }
    }
}

} // verus!
