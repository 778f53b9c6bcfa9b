//! Diagnostics: validates a parsed document against the schema (and, when
//! available, the cross-file index).
//!
//! A file can opt out of specific codes with a file-scope pragma comment:
//!
//! ```ini
//! ; zerosyntax-disable: unresolved-reference, unreachable-set
//! ```

use std::sync::Arc;

use vstd::prelude::*;
use vstd::string::*;

use crate::analyzer::{has_slot, Analyzer, Span};
use crate::ast::{leaf_views, nodes_in, opt_leaf, Block, Field, Module};
use crate::checks::{
    diagnostic_views, finding, name_set, report, validate_value, value_findings, Ctx, Diagnostic,
    DiagnosticView, EnvView, Severity,
};
use crate::index::{
    location_views, rebase, span_at, IndexView, Location, LocationView, WorkspaceIndex,
};
use crate::kind::SyntaxKind;
use crate::model::{
    block_scope, module_fits_slot, scope_of, scope_schema, share_name, slot_named, ScopeSchema,
    ScopeView,
};
use crate::pragma::{keep, kept, suppressions_in, suppressions_of, Suppressions};
use crate::parser::{opt_text, child_views, Child, ChildView, Parse, SyntaxError};
use crate::schema::{block_named, module_named, RefKind, Schema};
use crate::text::{
    cat3, cat5, debug_list, debug_text, has_text, last_segment, same, same_ignoring_case,
    short_file, string_views, trim_modifiers, unsigned_flag,
};
use crate::tree::{
    share, shared, views, ElementView, LeafView, NodeView, SyntaxElement, SyntaxNode, SyntaxToken,
};

verus! {

// ---------------------------------------------------------------------------
// Fields and modules
// ---------------------------------------------------------------------------
/// The findings so far and the module tags seen in the current block.
#[verifier::ext_equal]
pub struct WalkView {
    pub out: Seq<DiagnosticView>,
    pub tags: Seq<Seq<char>>,
}

/// Adds a finding.
pub open spec fn noted(
    st: WalkView,
    token: LeafView,
    severity: Severity,
    code: Seq<char>,
    message: Seq<char>,
) -> WalkView {
    WalkView { out: st.out.push(finding(token, severity, code, message)), ..st }
}

/// Whether one of the nodes is a field with the given key.
pub open spec fn has_field(nodes: Seq<NodeView>, name: Seq<char>) -> bool
    decreases nodes.len(),
{
    nodes.len() > 0 && (has_field(nodes.drop_last(), name) || (nodes.last().kind
        == SyntaxKind::FIELD && nodes.last().head_word() is Some
        && nodes.last().head_word()->0.text == name))
}

/// The findings for a field line.
pub open spec fn field_step(
    env: EnvView,
    node: NodeView,
    scope: ScopeView,
    st: WalkView,
) -> WalkView {
    match node.head_word() {
        None => st,
        Some(key) => match scope.field(key.text) {
            Some(field) => WalkView {
                out: value_findings(env, key, node.values(), field.value_type, st.out),
                ..st
            },
            None => if scope.has_fields() && !has_slot(scope.slots(), key.text) {
                noted(
                    st,
                    key,
                    Severity::Warning,
                    "unknown-field"@,
                    "unknown field `"@ + key.text + "` in "@ + scope.label(),
                )
            } else {
                st
            },
        },
    }
}

/// Module tags that the map editor gives every new object.
pub open spec fn editor_default(tag: Seq<char>) -> bool {
    ||| same_ignoring_case("ModuleTag_DefaultDestroyDie"@, tag)
    ||| same_ignoring_case("ModuleTag_DefaultInactiveBody"@, tag)
    ||| same_ignoring_case("ModuleTag_DefaultW3DDefaultDraw"@, tag)
}

/// The findings for the tag of a module.
pub open spec fn tag_step(
    env: EnvView,
    name: LeafView,
    tag: Option<LeafView>,
    st: WalkView,
) -> WalkView {
    match tag {
        Some(tag) => {
            let unique = if st.tags.contains(tag.text) {
                noted(
                    st,
                    tag,
                    Severity::Warning,
                    "duplicate-module-tag"@,
                    "module tag `"@ + tag.text
                        + "` is used more than once; tags must be unique within an object (the engine cannot remove a module by tag if duplicates exist)"@,
                )
            } else {
                WalkView { tags: st.tags.push(tag.text), ..st }
            };
            if env.map_layer && editor_default(tag.text) {
                noted(
                    unique,
                    tag,
                    Severity::Hint,
                    "editor-default-module"@,
                    "World Builder adds `"@ + tag.text
                        + "` to every new object; consider removing it with `RemoveModule "@
                        + tag.text + "`"@,
                )
            } else {
                unique
            }
        },
        None => noted(
            st,
            name,
            Severity::Warning,
            "missing-module-tag"@,
            "module `"@ + name.text + "` has no module tag (e.g. `ModuleTag_01`)"@,
        ),
    }
}

/// The findings for the header of a node in a module slot, and its scope.
pub open spec fn slot_step(
    env: EnvView,
    node: NodeView,
    parent: ScopeView,
    slot: LeafView,
    st: WalkView,
) -> (WalkView, ScopeView) {
    match node.after_equals(0) {
        None => (st, ScopeView::Unknown),
        Some(name) => match module_named(env.schema.modules@, name.text) {
            None => (
                noted(
                    st,
                    name,
                    Severity::Warning,
                    "unknown-module"@,
                    "unknown module `"@ + name.text + "`"@,
                ),
                ScopeView::Unknown,
            ),
            Some(module) => {
                let accepted = slot_named(parent.slots(), slot.text)->0;
                let fits = if share_name(module.interfaces@, accepted.accepts@) {
                    st
                } else {
                    noted(
                        st,
                        name,
                        Severity::Error,
                        "module-wrong-slot"@,
                        "module `"@ + name.text + "` cannot be placed in a `"@ + accepted.keyword@
                            + "` slot; it implements "@ + debug_text(
                            string_views(module.interfaces@),
                        ) + " but the slot accepts "@ + debug_text(
                            string_views(accepted.accepts@),
                        ),
                    )
                };
                (
                    tag_step(env, name, node.after_equals(1), fits),
                    scope_of(env.schema, parent, node),
                )
            },
        },
    }
}

/// The findings for the header of a module or sub-block, and its scope. A node
/// is a module only when the parent has a slot for its keyword; otherwise it
/// is a sub-block, and what follows `=` is an argument.
pub open spec fn module_header(
    env: EnvView,
    node: NodeView,
    parent: ScopeView,
    st: WalkView,
) -> (WalkView, ScopeView) {
    match node.head_word() {
        Some(slot) => if has_slot(parent.slots(), slot.text) {
            slot_step(env, node, parent, slot, st)
        } else {
            (st, scope_of(env.schema, parent, node))
        },
        None => (st, scope_of(env.schema, parent, node)),
    }
}

/// A `WeaponSet` without `Conditions` silently becomes the default set.
pub open spec fn condition_step(node: NodeView, inner: ScopeView, st: WalkView) -> WalkView {
    match (inner, node.head_word()) {
        (ScopeView::SubBlock(sub), Some(slot)) => if sub.keyword@ == "WeaponSet"@ && !has_field(
            node.nodes(),
            "Conditions"@,
        ) {
            noted(
                st,
                slot,
                Severity::Warning,
                "missing-condition"@,
                "`WeaponSet` has no `Conditions` field, making it the default set; use `Conditions = None` if that is intended"@,
            )
        } else {
            st
        },
        _ => st,
    }
}

/// The findings for a node inside a scope.
pub open spec fn node_step(
    env: EnvView,
    node: NodeView,
    scope: ScopeView,
    st: WalkView,
) -> WalkView
    decreases node,
{
    if node.kind == SyntaxKind::FIELD {
        field_step(env, node, scope, st)
    } else if node.kind == SyntaxKind::MODULE {
        let (headed, inner) = module_header(env, node, scope, st);
        walk(env, node.children, inner, condition_step(node, inner, headed))
    } else if node.kind == SyntaxKind::BLOCK {
        walk(env, node.children, block_scope(env.schema, node), st)
    } else {
        st
    }
}

/// The findings for the children of a scope.
pub open spec fn walk(
    env: EnvView,
    children: Seq<ElementView>,
    scope: ScopeView,
    st: WalkView,
) -> WalkView
    decreases children,
{
    if children.len() == 0 {
        st
    } else {
        let before = walk(env, children.drop_last(), scope, st);
        match children.last() {
            ElementView::Node(node) => node_step(env, node, scope, before),
            ElementView::Token(_) => before,
        }
    }
}

/// The findings and the tags as the walk holds them.
spec fn walked(out: Seq<Diagnostic>, tags: Seq<String>) -> WalkView {
    WalkView { out: diagnostic_views(out), tags: string_views(tags) }
}

/// Whether `node` directly contains a field with the given key.
pub fn has_direct_field(node: &SyntaxNode, name: &str) -> (found: bool)
    ensures
        found == has_field(node.view().nodes(), name@),
{
    let nodes = nodes_in(node);
    let ghost all = node.view().nodes();
    let mut found = false;
    let mut i: usize = 0;
    assert(all.take(0) =~= Seq::<NodeView>::empty());
    while i < nodes.len()
        invariant
            i <= nodes@.len(),
            all == crate::ast::node_views(nodes@),
            found == has_field(all.take(i as int), name@),
        decreases nodes@.len() - i,
    {
        proof {
            assert(all.take(i + 1).drop_last() =~= all.take(i as int));
            assert(all.take(i + 1).last() == nodes@[i as int].view());
        }
        if let Some(field) = Field::cast(nodes[i]) {
            if let Some(key) = field.key() {
                if same(key.text.as_str(), name) {
                    found = true;
                }
            }
        }
        i += 1;
    }
    assert(all.take(i as int) =~= all);
    found
}

fn check_field(ctx: &Ctx, node: &SyntaxNode, scope: ScopeSchema, out: &mut Vec<Diagnostic>)
    ensures
        forall|tags: Seq<Seq<char>>|
            (WalkView { out: diagnostic_views(final(out)@), tags }) == #[trigger] field_step(
                ctx.env(),
                node.view(),
                scope.view(),
                WalkView { out: diagnostic_views(old(out)@), tags },
            ),
{
    let field = Field(node);
    if let Some(key) = field.key() {
        let name = key.text.as_str();
        match scope.field(name) {
            Some(schema_field) => {
                let tokens = field.value_tokens();
                validate_value(ctx, key, &tokens, &schema_field.value_type, out);
            },
            None => {
                if scope.has_field_schema() && scope.slot(name).is_none() {
                    let label = scope.label();
                    let mut message = cat3("unknown field `", name, "` in ");
                    message.append(label.as_str());
                    report(out, key, Severity::Warning, "unknown-field", message);
                }
            },
        }
    }
}

fn is_editor_default(tag: &str) -> (yes: bool)
    ensures
        yes == editor_default(tag@),
{
    "ModuleTag_DefaultDestroyDie".eq_ignore_ascii_case(tag)
        || "ModuleTag_DefaultInactiveBody".eq_ignore_ascii_case(tag)
        || "ModuleTag_DefaultW3DDefaultDraw".eq_ignore_ascii_case(tag)
}

fn check_tag(
    ctx: &Ctx,
    name: &SyntaxToken,
    tag: Option<&SyntaxToken>,
    out: &mut Vec<Diagnostic>,
    tags: &mut Vec<String>,
)
    ensures
        walked(final(out)@, final(tags)@) == tag_step(
            ctx.env(),
            name.view(),
            opt_leaf(tag),
            walked(old(out)@, old(tags)@),
        ),
{
    match tag {
        Some(tag) => {
            let text = tag.text.as_str();
            if has_text(tags, text) {
                let message = cat3(
                    "module tag `",
                    text,
                    "` is used more than once; tags must be unique within an object (the engine cannot remove a module by tag if duplicates exist)",
                );
                report(out, tag, Severity::Warning, "duplicate-module-tag", message);
            } else {
                let ghost before = string_views(tags@);
                tags.push(text.to_owned());
                assert(string_views(tags@) =~= before.push(text@));
            }
            // The map editor inserts these module tags into every new object
            // it creates; in a map layer they should almost always go.
            if ctx.map_layer && is_editor_default(text) {
                let message = cat5(
                    "World Builder adds `",
                    text,
                    "` to every new object; consider removing it with `RemoveModule ",
                    text,
                    "`",
                );
                report(out, tag, Severity::Hint, "editor-default-module", message);
            }
        },
        None => {
            let message = cat3(
                "module `",
                name.text.as_str(),
                "` has no module tag (e.g. `ModuleTag_01`)",
            );
            report(out, name, Severity::Warning, "missing-module-tag", message);
        },
    }
}

fn check_slot<'a>(
    ctx: &Ctx<'a>,
    node: &SyntaxNode,
    parent: ScopeSchema<'a>,
    slot: &SyntaxToken,
    out: &mut Vec<Diagnostic>,
    tags: &mut Vec<String>,
) -> (inner: ScopeSchema<'a>)
    requires
        has_slot(parent.view().slots(), slot.view().text),
    ensures
        (walked(final(out)@, final(tags)@), inner.view()) == slot_step(
            ctx.env(),
            node.view(),
            parent.view(),
            slot.view(),
            walked(old(out)@, old(tags)@),
        ),
{
    let module = Module(node);
    let name = match module.module_name() {
        Some(name) => name,
        None => {
            return ScopeSchema::Unknown;
        },
    };
    match ctx.analyzer.module(name.text.as_str()) {
        Some(module_type) => {
            // The module has to implement an interface the slot accepts.
            let accepted = parent.slot(slot.text.as_str()).unwrap();
            if !module_fits_slot(module_type, accepted) {
                let implements = debug_list(&module_type.interfaces);
                let accepts = debug_list(&accepted.accepts);
                let mut message = cat5(
                    "module `",
                    name.text.as_str(),
                    "` cannot be placed in a `",
                    accepted.keyword.as_str(),
                    "` slot; it implements ",
                );
                message.append(implements.as_str());
                message.append(" but the slot accepts ");
                message.append(accepts.as_str());
                report(out, name, Severity::Error, "module-wrong-slot", message);
            }
            check_tag(ctx, name, module.tag(), out, tags);
            scope_schema(ctx.analyzer, parent, node)
        },
        None => {
            let message = cat3("unknown module `", name.text.as_str(), "`");
            report(out, name, Severity::Warning, "unknown-module", message);
            ScopeSchema::Unknown
        },
    }
}

fn check_condition(node: &SyntaxNode, inner: ScopeSchema, out: &mut Vec<Diagnostic>)
    ensures
        forall|tags: Seq<Seq<char>>|
            (WalkView { out: diagnostic_views(final(out)@), tags }) == #[trigger] condition_step(
                node.view(),
                inner.view(),
                WalkView { out: diagnostic_views(old(out)@), tags },
            ),
{
    if let ScopeSchema::SubBlock(sub) = inner {
        if let Some(slot) = Module(node).slot() {
            if same(sub.keyword.as_str(), "WeaponSet") && !has_direct_field(node, "Conditions") {
                report(
                    out,
                    slot,
                    Severity::Warning,
                    "missing-condition",
                    "`WeaponSet` has no `Conditions` field, making it the default set; use `Conditions = None` if that is intended".to_owned(),
                );
            }
        }
    }
}

/// Validates a field or nested scope inside `scope`.
fn check_node<'a>(
    ctx: &Ctx<'a>,
    node: &SyntaxNode,
    scope: ScopeSchema<'a>,
    out: &mut Vec<Diagnostic>,
    tags: &mut Vec<String>,
)
    ensures
        walked(final(out)@, final(tags)@) == node_step(
            ctx.env(),
            node.view(),
            scope.view(),
            walked(old(out)@, old(tags)@),
        ),
    decreases node, 1int,
{
    match node.kind {
        SyntaxKind::FIELD => {
            check_field(ctx, node, scope, out);
        },
        SyntaxKind::MODULE => {
            let slot = Module(node).slot();
            let inner = match slot {
                Some(slot) => if scope.slot(slot.text.as_str()).is_some() {
                    check_slot(ctx, node, scope, slot, out, tags)
                } else {
                    scope_schema(ctx.analyzer, scope, node)
                },
                None => scope_schema(ctx.analyzer, scope, node),
            };
            check_condition(node, inner, out);
            check_children(ctx, node, inner, out, tags);
        },
        SyntaxKind::BLOCK => {
            let inner = scope_schema(ctx.analyzer, scope, node);
            check_children(ctx, node, inner, out, tags);
        },
        _ => {},
    }
}

/// Validates every field and nested scope directly inside `node`, whose schema
/// is `scope`.
fn check_children<'a>(
    ctx: &Ctx<'a>,
    node: &SyntaxNode,
    scope: ScopeSchema<'a>,
    out: &mut Vec<Diagnostic>,
    tags: &mut Vec<String>,
)
    ensures
        walked(final(out)@, final(tags)@) == walk(
            ctx.env(),
            node.view().children,
            scope.view(),
            walked(old(out)@, old(tags)@),
        ),
    decreases node, 0int,
{
    let ghost all = views(node.children@);
    let ghost start = walked(out@, tags@);
    let mut i: usize = 0;
    assert(all.take(0) =~= Seq::<ElementView>::empty());
    while i < node.children.len()
        invariant
            i <= node.children@.len(),
            all == views(node.children@),
            walked(out@, tags@) == walk(ctx.env(), all.take(i as int), scope.view(), start),
        decreases node.children@.len() - i,
    {
        proof {
            assert(all.take(i + 1).drop_last() =~= all.take(i as int));
            assert(all.take(i + 1).last() == node.children@[i as int].view());
            assert(decreases_to!(node => node.children));
            assert(decreases_to!(node.children@ => node.children@[i as int]));
        }
        if let SyntaxElement::Node(child) = &node.children[i] {
            assert(decreases_to!(node.children@[i as int] => node.children@[i as int]->Node_0));
            check_node(ctx, child, scope, out, tags);
        }
        i += 1;
    }
    assert(all.take(i as int) =~= all);
}

// ---------------------------------------------------------------------------
// Redefinitions
// ---------------------------------------------------------------------------
/// Files the engine loads as overrides: map-shipped `map.ini` and `solo.ini`.
/// A block there that redefines a name is merged over the existing definition.
pub open spec fn override_layer(file: Seq<char>) -> bool {
    ||| same_ignoring_case(last_segment(file), "map.ini"@)
    ||| same_ignoring_case(last_segment(file), "solo.ini"@)
}

/// Whether a file is loaded as a map override.
pub fn is_override_layer(file: &str) -> (yes: bool)
    ensures
        yes == override_layer(file@),
{
    let name = short_file(file);
    name.eq_ignore_ascii_case("map.ini") || name.eq_ignore_ascii_case("solo.ini")
}

/// The locations other than `span` in `file`.
pub open spec fn sites_elsewhere(
    sites: Seq<LocationView>,
    file: Seq<char>,
    span: Span,
) -> Seq<LocationView>
    decreases sites.len(),
{
    if sites.len() == 0 {
        Seq::empty()
    } else if sites.last().file != file || sites.last().span != span {
        sites_elsewhere(sites.drop_last(), file, span).push(sites.last())
    } else {
        sites_elsewhere(sites.drop_last(), file, span)
    }
}

/// The first location outside the override layers.
pub open spec fn base_site(sites: Seq<LocationView>) -> Option<LocationView>
    decreases sites.len(),
{
    if sites.len() == 0 {
        None
    } else if !override_layer(sites[0].file) {
        Some(sites[0])
    } else {
        base_site(sites.drop_first())
    }
}

/// What redefining a name of `kind` at other sites means: the finding, if any,
/// and whether the block overrides an existing definition.
pub open spec fn redefinition_step(
    file: Seq<char>,
    kind: RefKind,
    name: LeafView,
    others: Seq<LocationView>,
    acc: Seq<DiagnosticView>,
) -> (Seq<DiagnosticView>, bool) {
    if others.len() == 0 {
        (acc, false)
    } else if override_layer(file) {
        let site = match base_site(others) {
            Some(site) => site,
            None => others[0],
        };
        (
            acc.push(
                finding(
                    name,
                    Severity::Hint,
                    "overrides"@,
                    "overrides `"@ + name.text + "` defined in "@ + last_segment(site.file)
                        + " (map override: merged over the existing definition)"@,
                ),
            ),
            true,
        )
    } else if kind == RefKind::Object && base_site(others) is Some {
        (
            acc.push(
                finding(
                    name,
                    Severity::Warning,
                    "duplicate-definition"@,
                    "`"@ + name.text + "` is already defined in "@ + last_segment(
                        base_site(others)->0.file,
                    )
                        + " — the engine rejects duplicate object definitions outside map overrides"@,
                ),
            ),
            false,
        )
    } else {
        (acc, false)
    }
}

/// The kind that a block defines, by its keyword.
pub open spec fn defined_kind(schema: Schema, node: NodeView) -> Option<RefKind> {
    match node.head_word() {
        Some(keyword) => match block_named(schema.blocks@, keyword.text) {
            Some(block) => block.defines,
            None => None,
        },
        None => None,
    }
}

/// The findings about a block's header: an unknown keyword, or a name that is
/// defined elsewhere. The flag is whether the block overrides an existing
/// definition.
pub open spec fn header_findings(
    schema: Schema,
    index: Option<IndexView>,
    file: Option<Seq<char>>,
    node: NodeView,
    offset: int,
) -> (Seq<DiagnosticView>, bool) {
    let none = Seq::<DiagnosticView>::empty();
    match node.head_word() {
        None => (none, false),
        Some(keyword) => {
            let acc = if block_named(schema.blocks@, keyword.text) is None {
                none.push(
                    finding(
                        keyword,
                        Severity::Error,
                        "unknown-block"@,
                        "unknown block type `"@ + keyword.text + "`"@,
                    ),
                )
            } else {
                none
            };
            match (index, file, defined_kind(schema, node), node.second_word()) {
                (Some(index), Some(file), Some(kind), Some(name)) => redefinition_step(
                    file,
                    kind,
                    name,
                    sites_elsewhere(
                        index.locations_of(kind, name.text),
                        file,
                        span_at(offset as u32, name.start as u32, name.end as u32),
                    ),
                    acc,
                ),
                _ => (acc, false),
            }
        },
    }
}

fn other_sites<'a>(sites: &'a [Location], file: &str, span: Span) -> (out: Vec<&'a Location>)
    ensures
        site_views(out@) == sites_elsewhere(location_views(sites@), file@, span),
{
    let ghost all = location_views(sites@);
    let mut out: Vec<&'a Location> = Vec::new();
    let mut i: usize = 0;
    assert(site_views(out@) =~= sites_elsewhere(all.take(0), file@, span));
    while i < sites.len()
        invariant
            i <= sites@.len(),
            all == location_views(sites@),
            site_views(out@) == sites_elsewhere(all.take(i as int), file@, span),
        decreases sites@.len() - i,
    {
        let site = &sites[i];
        proof {
            assert(all.take(i + 1).drop_last() =~= all.take(i as int));
            assert(all.take(i + 1).last() == site.view());
        }
        let ghost before = site_views(out@);
        if site.span != span || !same(site.file.as_str(), file) {
            out.push(site);
            assert(site_views(out@) =~= before.push(site.view()));
        }
        i += 1;
    }
    assert(all.take(i as int) =~= all);
    out
}

pub open spec fn site_views(s: Seq<&Location>) -> Seq<LocationView> {
    Seq::new(s.len(), |i: int| s[i].view())
}

#[verifier::loop_isolation(false)]
fn find_base_site<'a>(sites: &Vec<&'a Location>) -> (out: Option<&'a Location>)
    ensures
        match out {
            Some(site) => base_site(site_views(sites@)) == Some(site.view()),
            None => base_site(site_views(sites@)) is None,
        },
{
    let ghost all = site_views(sites@);
    let mut i: usize = 0;
    assert(all.skip(0) =~= all);
    while i < sites.len()
        invariant
            i <= sites@.len(),
            base_site(all) == base_site(all.skip(i as int)),
        decreases sites@.len() - i,
    {
        proof {
            assert(all.skip(i as int).drop_first() =~= all.skip(i + 1));
            assert(all.skip(i as int)[0] == sites@[i as int].view());
        }
        if !is_override_layer(sites[i].file.as_str()) {
            return Some(sites[i]);
        }
        i += 1;
    }
    None
}

fn check_redefinition(
    file: &str,
    kind: RefKind,
    name: &SyntaxToken,
    others: &Vec<&Location>,
    out: &mut Vec<Diagnostic>,
) -> (overrides: bool)
    ensures
        (diagnostic_views(final(out)@), overrides) == redefinition_step(
            file@,
            kind,
            name.view(),
            site_views(others@),
            diagnostic_views(old(out)@),
        ),
{
    if others.len() == 0 {
        return false;
    }
    let base = find_base_site(others);
    if is_override_layer(file) {
        // Name the base-game site when one exists.
        let site = match base {
            Some(site) => site,
            None => others[0],
        };
        let message = cat5(
            "overrides `",
            name.text.as_str(),
            "` defined in ",
            short_file(site.file.as_str()),
            " (map override: merged over the existing definition)",
        );
        report(out, name, Severity::Hint, "overrides", message);
        return true;
    }
    // Outside override mode the engine rejects duplicate object templates;
    // other stores have laxer last-wins semantics, so only objects are flagged.
    if kind == RefKind::Object {
        if let Some(site) = base {
            let message = cat5(
                "`",
                name.text.as_str(),
                "` is already defined in ",
                short_file(site.file.as_str()),
                " — the engine rejects duplicate object definitions outside map overrides",
            );
            report(out, name, Severity::Warning, "duplicate-definition", message);
        }
    }
    false
}

/// The contents of an optional index.
pub open spec fn opt_index_view(index: Option<&WorkspaceIndex>) -> Option<IndexView> {
    match index {
        Some(index) => Some(index.view()),
        None => None,
    }
}

/// Checks a block's header; the result is whether the block overrides an
/// existing definition.
fn check_header(
    analyzer: &Analyzer,
    index: Option<&WorkspaceIndex>,
    file: Option<&str>,
    node: &SyntaxNode,
    offset: u32,
    out: &mut Vec<Diagnostic>,
) -> (overrides: bool)
    requires
        old(out)@.len() == 0,
    ensures
        (diagnostic_views(final(out)@), overrides) == header_findings(
            analyzer.schema,
            opt_index_view(index),
            crate::parser::opt_text(file),
            node.view(),
            offset as int,
        ),
{
    assert(diagnostic_views(out@) =~= Seq::<DiagnosticView>::empty());
    let block = Block(node);
    let keyword = match block.keyword() {
        Some(keyword) => keyword,
        None => {
            return false;
        },
    };
    let kind = match analyzer.block(keyword.text.as_str()) {
        Some(schema_block) => schema_block.defines,
        None => {
            let message = cat3("unknown block type `", keyword.text.as_str(), "`");
            report(out, keyword, Severity::Error, "unknown-block", message);
            None
        },
    };
    match (index, file, kind, block.name()) {
        (Some(index), Some(file), Some(kind), Some(name)) => {
            let span = rebase(offset, name.start, name.end);
            let others = other_sites(index.locations(kind, name.text.as_str()), file, span);
            check_redefinition(file, kind, name, &others, out)
        },
        _ => false,
    }
}

// ---------------------------------------------------------------------------
// Reachability of upgrade sets
// ---------------------------------------------------------------------------
/// The first flag of a list that equals `cond`, ignoring case and a `+` prefix.
pub open spec fn condition_in(tokens: Seq<LeafView>, cond: Seq<char>) -> Option<LeafView>
    decreases tokens.len(),
{
    if tokens.len() == 0 {
        None
    } else if condition_in(tokens.drop_last(), cond) is Some {
        condition_in(tokens.drop_last(), cond)
    } else if same_ignoring_case(unsigned_flag(tokens.last().text, false), cond) {
        Some(tokens.last())
    } else {
        None
    }
}

/// The first value of a direct `Conditions` field that equals `cond`.
pub open spec fn direct_condition(nodes: Seq<NodeView>, cond: Seq<char>) -> Option<LeafView>
    decreases nodes.len(),
{
    if nodes.len() == 0 {
        None
    } else if direct_condition(nodes.drop_last(), cond) is Some {
        direct_condition(nodes.drop_last(), cond)
    } else if nodes.last().kind == SyntaxKind::FIELD && nodes.last().head_word() is Some
        && nodes.last().head_word()->0.text == "Conditions"@ {
        condition_in(nodes.last().values(), cond)
    } else {
        None
    }
}

/// What the modules of an object say about its upgrade-conditioned sets.
#[verifier::ext_equal]
pub struct SetsView {
    /// The names of its modules.
    pub modules: Seq<LeafView>,
    /// The `PLAYER_UPGRADE` conditions of its sets; the flag is whether the
    /// set is a `WeaponSet` (and not an `ArmorSet`).
    pub sets: Seq<(bool, LeafView)>,
    /// The object is a partial definition that adds or replaces modules.
    pub patch: bool,
}

pub open spec fn sets_step(st: SetsView, node: NodeView) -> SetsView {
    if node.kind != SyntaxKind::MODULE || node.head_word() is None {
        st
    } else {
        let slot = node.head_word()->0.text;
        if slot == "AddModule"@ || slot == "ReplaceModule"@ {
            SetsView { patch: true, ..st }
        } else if slot == "WeaponSet"@ || slot == "ArmorSet"@ {
            match direct_condition(node.nodes(), "PLAYER_UPGRADE"@) {
                Some(token) => SetsView {
                    sets: st.sets.push((slot == "WeaponSet"@, token)),
                    ..st
                },
                None => st,
            }
        } else {
            match node.after_equals(0) {
                Some(name) => SetsView { modules: st.modules.push(name), ..st },
                None => st,
            }
        }
    }
}

pub open spec fn sets_of(nodes: Seq<NodeView>, patch: bool) -> SetsView
    decreases nodes.len(),
{
    if nodes.len() == 0 {
        SetsView { modules: Seq::empty(), sets: Seq::empty(), patch }
    } else {
        sets_step(sets_of(nodes.drop_last(), patch), nodes.last())
    }
}

/// Modules that can set the upgrade condition of their object's weapon sets.
pub open spec fn weapon_trigger(name: Seq<char>) -> bool {
    ||| name == "WeaponSetUpgrade"@
    ||| name == "TransportContain"@
    ||| name == "HelixContain"@
    ||| name == "InternetHackContain"@
    ||| name == "OverlordContain"@
    ||| name == "RailedTransportContain"@
    ||| name == "RiderChangeContain"@
}

/// Modules that can set the upgrade condition of their object's armor sets.
pub open spec fn armor_trigger(name: Seq<char>) -> bool {
    name == "ArmorUpgrade"@
}

pub open spec fn has_trigger(modules: Seq<LeafView>, weapon: bool) -> bool {
    exists|i: int| #![trigger modules[i]]
        0 <= i < modules.len() && if weapon {
            weapon_trigger(modules[i].text)
        } else {
            armor_trigger(modules[i].text)
        }
}

/// The findings for sets that no module can activate.
pub open spec fn dead_sets(
    modules: Seq<LeafView>,
    sets: Seq<(bool, LeafView)>,
    acc: Seq<DiagnosticView>,
) -> Seq<DiagnosticView>
    decreases sets.len(),
{
    if sets.len() == 0 {
        acc
    } else {
        let before = dead_sets(modules, sets.drop_last(), acc);
        let (weapon, token) = sets.last();
        if has_trigger(modules, weapon) {
            before
        } else {
            before.push(
                finding(
                    token,
                    Severity::Warning,
                    "unreachable-set"@,
                    if weapon {
                        "this `WeaponSet` requires the `PLAYER_UPGRADE` condition, but no module on this object can set it (e.g. `WeaponSetUpgrade`) — the set can never be selected"@
                    } else {
                        "this `ArmorSet` requires the `PLAYER_UPGRADE` condition, but no module on this object can set it (e.g. `ArmorUpgrade`) — the set can never be selected"@
                    },
                ),
            )
        }
    }
}

pub open spec fn has_set(sets: Seq<(bool, LeafView)>, weapon: bool) -> bool {
    exists|i: int| 0 <= i < sets.len() && (#[trigger] sets[i]).0 == weapon
}

/// The findings for upgrade modules without a set to activate.
pub open spec fn idle_upgrades(
    modules: Seq<LeafView>,
    sets: Seq<(bool, LeafView)>,
    acc: Seq<DiagnosticView>,
) -> Seq<DiagnosticView>
    decreases modules.len(),
{
    if modules.len() == 0 {
        acc
    } else {
        let before = idle_upgrades(modules.drop_last(), sets, acc);
        let name = modules.last();
        if name.text == "WeaponSetUpgrade"@ && !has_set(sets, true) {
            before.push(
                finding(
                    name,
                    Severity::Warning,
                    "unreachable-set"@,
                    "this `WeaponSetUpgrade` sets the `PLAYER_UPGRADE` condition, but no `WeaponSet` on this object requires it — the upgrade has no effect"@,
                ),
            )
        } else if name.text == "ArmorUpgrade"@ && !has_set(sets, false) {
            before.push(
                finding(
                    name,
                    Severity::Warning,
                    "unreachable-set"@,
                    "this `ArmorUpgrade` sets the `PLAYER_UPGRADE` condition, but no `ArmorSet` on this object requires it — the upgrade has no effect"@,
                ),
            )
        } else {
            before
        }
    }
}

/// The findings about an object's upgrade-conditioned sets. Partial
/// definitions (`AddModule`, `RemoveModule`, `ReplaceModule`) are not checked.
pub open spec fn reachability_findings(
    node: NodeView,
    acc: Seq<DiagnosticView>,
) -> Seq<DiagnosticView> {
    let found = sets_of(node.nodes(), has_field(node.nodes(), "RemoveModule"@));
    if found.patch {
        acc
    } else {
        idle_upgrades(found.modules, found.sets, dead_sets(found.modules, found.sets, acc))
    }
}

#[verifier::loop_isolation(false)]
fn direct_condition_token<'a>(node: &'a SyntaxNode, cond: &str) -> (out: Option<&'a SyntaxToken>)
    ensures
        opt_leaf(out) == direct_condition(node.view().nodes(), cond@),
{
    let nodes = nodes_in(node);
    let ghost all = node.view().nodes();
    let mut found: Option<&'a SyntaxToken> = None;
    let mut i: usize = 0;
    assert(all.take(0) =~= Seq::<NodeView>::empty());
    while i < nodes.len()
        invariant
            i <= nodes@.len(),
            all == crate::ast::node_views(nodes@),
            opt_leaf(found) == direct_condition(all.take(i as int), cond@),
        decreases nodes@.len() - i,
    {
        proof {
            assert(all.take(i + 1).drop_last() =~= all.take(i as int));
            assert(all.take(i + 1).last() == nodes@[i as int].view());
        }
        if found.is_none() {
            if let Some(field) = Field::cast(nodes[i]) {
                if let Some(key) = field.key() {
                    if same(key.text.as_str(), "Conditions") {
                        found = find_condition(&field.value_tokens(), cond);
                    }
                }
            }
        }
        i += 1;
    }
    assert(all.take(i as int) =~= all);
    found
}

#[verifier::loop_isolation(false)]
fn find_condition<'a>(tokens: &Vec<&'a SyntaxToken>, cond: &str) -> (out: Option<&'a SyntaxToken>)
    ensures
        opt_leaf(out) == condition_in(leaf_views(tokens@), cond@),
{
    let ghost all = leaf_views(tokens@);
    let mut found: Option<&'a SyntaxToken> = None;
    let mut i: usize = 0;
    assert(all.take(0) =~= Seq::<LeafView>::empty());
    while i < tokens.len()
        invariant
            i <= tokens@.len(),
            opt_leaf(found) == condition_in(all.take(i as int), cond@),
        decreases tokens@.len() - i,
    {
        proof {
            assert(all.take(i + 1).drop_last() =~= all.take(i as int));
            assert(all.take(i + 1).last() == tokens@[i as int].view());
        }
        if found.is_none() && trim_modifiers(tokens[i].text.as_str(), false).eq_ignore_ascii_case(
            cond,
        ) {
            found = Some(tokens[i]);
        }
        i += 1;
    }
    assert(all.take(i as int) =~= all);
    found
}

fn is_weapon_trigger(name: &str) -> (yes: bool)
    ensures
        yes == weapon_trigger(name@),
{
    same(name, "WeaponSetUpgrade") || same(name, "TransportContain") || same(name, "HelixContain")
        || same(name, "InternetHackContain") || same(name, "OverlordContain") || same(
        name,
        "RailedTransportContain",
    ) || same(name, "RiderChangeContain")
}

fn any_trigger(modules: &Vec<&SyntaxToken>, weapon: bool) -> (found: bool)
    ensures
        found == has_trigger(leaf_views(modules@), weapon),
{
    let ghost all = leaf_views(modules@);
    let mut i: usize = 0;
    while i < modules.len()
        invariant
            i <= modules@.len(),
            all == leaf_views(modules@),
            forall|k: int| #![trigger all[k]]
                0 <= k < i ==> !(if weapon {
                    weapon_trigger(all[k].text)
                } else {
                    armor_trigger(all[k].text)
                }),
        decreases modules@.len() - i,
    {
        let name = modules[i].text.as_str();
        let hit = if weapon {
            is_weapon_trigger(name)
        } else {
            same(name, "ArmorUpgrade")
        };
        assert(all[i as int].text == name@);
        if hit {
            return true;
        }
        i += 1;
    }
    false
}

spec fn set_views(sets: Seq<(bool, &SyntaxToken)>) -> Seq<(bool, LeafView)> {
    Seq::new(sets.len(), |i: int| (sets[i].0, sets[i].1.view()))
}

fn any_set(sets: &Vec<(bool, &SyntaxToken)>, weapon: bool) -> (found: bool)
    ensures
        found == has_set(set_views(sets@), weapon),
{
    let ghost all = set_views(sets@);
    let mut i: usize = 0;
    while i < sets.len()
        invariant
            i <= sets@.len(),
            all == set_views(sets@),
            forall|k: int| 0 <= k < i ==> (#[trigger] all[k]).0 != weapon,
        decreases sets@.len() - i,
    {
        if sets[i].0 == weapon {
            assert(all[i as int].0 == weapon);
            return true;
        }
        i += 1;
    }
    false
}

/// The modules of an object, its upgrade-conditioned sets, and whether it is a
/// partial definition.
struct Sets<'a> {
    modules: Vec<&'a SyntaxToken>,
    sets: Vec<(bool, &'a SyntaxToken)>,
    patch: bool,
}

impl<'a> Sets<'a> {
    spec fn view(&self) -> SetsView {
        SetsView {
            modules: leaf_views(self.modules@),
            sets: set_views(self.sets@),
            patch: self.patch,
        }
    }
}

fn collect_sets<'a>(node: &'a SyntaxNode) -> (out: Sets<'a>)
    ensures
        out.view() == sets_of(
            node.view().nodes(),
            has_field(node.view().nodes(), "RemoveModule"@),
        ),
{
    let nodes = nodes_in(node);
    let ghost all = node.view().nodes();
    let patch = has_direct_field(node, "RemoveModule");
    let mut found = Sets { modules: Vec::new(), sets: Vec::new(), patch };
    let mut i: usize = 0;
    proof {
        assert(all.take(0) =~= Seq::<NodeView>::empty());
        assert(leaf_views(found.modules@) =~= Seq::<LeafView>::empty());
        assert(set_views(found.sets@) =~= Seq::<(bool, LeafView)>::empty());
    }
    while i < nodes.len()
        invariant
            i <= nodes@.len(),
            all == crate::ast::node_views(nodes@),
            found.view() == sets_of(all.take(i as int), patch),
        decreases nodes@.len() - i,
    {
        proof {
            assert(all.take(i + 1).drop_last() =~= all.take(i as int));
            assert(all.take(i + 1).last() == nodes@[i as int].view());
        }
        let ghost before = found.view();
        if let Some(module) = Module::cast(nodes[i]) {
            if let Some(slot) = module.slot() {
                let keyword = slot.text.as_str();
                if same(keyword, "AddModule") || same(keyword, "ReplaceModule") {
                    found.patch = true;
                } else if same(keyword, "WeaponSet") || same(keyword, "ArmorSet") {
                    if let Some(token) = direct_condition_token(nodes[i], "PLAYER_UPGRADE") {
                        found.sets.push((same(keyword, "WeaponSet"), token));
                        assert(set_views(found.sets@) =~= before.sets.push(
                            (keyword@ == "WeaponSet"@, token.view()),
                        ));
                    }
                } else if let Some(name) = module.module_name() {
                    found.modules.push(name);
                    assert(leaf_views(found.modules@) =~= before.modules.push(name.view()));
                }
            }
        }
        i += 1;
    }
    assert(all.take(i as int) =~= all);
    found
}

fn check_set_reachability(node: &SyntaxNode, out: &mut Vec<Diagnostic>)
    ensures
        diagnostic_views(final(out)@) == reachability_findings(
            node.view(),
            diagnostic_views(old(out)@),
        ),
{
    let found = collect_sets(node);
    if found.patch {
        return ;
    }
    let ghost view = found.view();
    let ghost start = diagnostic_views(out@);
    let mut i: usize = 0;
    assert(view.sets.take(0) =~= Seq::<(bool, LeafView)>::empty());
    while i < found.sets.len()
        invariant
            i <= found.sets@.len(),
            view == found.view(),
            diagnostic_views(out@) == dead_sets(view.modules, view.sets.take(i as int), start),
        decreases found.sets@.len() - i,
    {
        proof {
            assert(view.sets.take(i + 1).drop_last() =~= view.sets.take(i as int));
            assert(view.sets.take(i + 1).last() == (
                found.sets@[i as int].0,
                found.sets@[i as int].1.view(),
            ));
        }
        let weapon = found.sets[i].0;
        if !any_trigger(&found.modules, weapon) {
            let message = if weapon {
                "this `WeaponSet` requires the `PLAYER_UPGRADE` condition, but no module on this object can set it (e.g. `WeaponSetUpgrade`) — the set can never be selected".to_owned()
            } else {
                "this `ArmorSet` requires the `PLAYER_UPGRADE` condition, but no module on this object can set it (e.g. `ArmorUpgrade`) — the set can never be selected".to_owned()
            };
            report(out, found.sets[i].1, Severity::Warning, "unreachable-set", message);
        }
        i += 1;
    }
    proof {
        assert(view.sets.take(i as int) =~= view.sets);
        assert(view.modules.take(0) =~= Seq::<LeafView>::empty());
    }
    let ghost middle = diagnostic_views(out@);
    let weapon_set = any_set(&found.sets, true);
    let armor_set = any_set(&found.sets, false);
    let mut j: usize = 0;
    while j < found.modules.len()
        invariant
            j <= found.modules@.len(),
            view == found.view(),
            weapon_set == has_set(view.sets, true),
            armor_set == has_set(view.sets, false),
            diagnostic_views(out@) == idle_upgrades(
                view.modules.take(j as int),
                view.sets,
                middle,
            ),
        decreases found.modules@.len() - j,
    {
        proof {
            assert(view.modules.take(j + 1).drop_last() =~= view.modules.take(j as int));
            assert(view.modules.take(j + 1).last() == found.modules@[j as int].view());
        }
        let name = found.modules[j];
        if same(name.text.as_str(), "WeaponSetUpgrade") && !weapon_set {
            report(
                out,
                name,
                Severity::Warning,
                "unreachable-set",
                "this `WeaponSetUpgrade` sets the `PLAYER_UPGRADE` condition, but no `WeaponSet` on this object requires it — the upgrade has no effect".to_owned(),
            );
        } else if same(name.text.as_str(), "ArmorUpgrade") && !armor_set {
            report(
                out,
                name,
                Severity::Warning,
                "unreachable-set",
                "this `ArmorUpgrade` sets the `PLAYER_UPGRADE` condition, but no `ArmorSet` on this object requires it — the upgrade has no effect".to_owned(),
            );
        }
        j += 1;
    }
    assert(view.modules.take(j as int) =~= view.modules);
}

// ---------------------------------------------------------------------------
// Top-level elements
// ---------------------------------------------------------------------------
/// The findings in a block's body. Only plain objects are checked for
/// unreachable sets: a reskin inherits its parent's modules, and an override
/// the base object's.
pub open spec fn block_body(env: EnvView, node: NodeView, overrides: bool) -> Seq<DiagnosticView> {
    let none = Seq::<DiagnosticView>::empty();
    let reachable = if node.head_word() is Some && node.head_word()->0.text == "Object"@
        && !overrides {
        reachability_findings(node, none)
    } else {
        none
    };
    walk(
        env,
        node.children,
        block_scope(env.schema, node),
        WalkView { out: reachable, tags: Seq::empty() },
    ).out
}

/// The findings for a field line at file scope: it is meaningless unless it is
/// a single-line directive.
pub open spec fn stray_field(schema: Schema, node: NodeView) -> Seq<DiagnosticView> {
    let none = Seq::<DiagnosticView>::empty();
    match node.head_word() {
        None => none,
        Some(key) => match block_named(schema.blocks@, key.text) {
            Some(block) => if block.terminated {
                none.push(stray_finding(key))
            } else {
                none
            },
            None => none.push(stray_finding(key)),
        },
    }
}

pub open spec fn stray_finding(key: LeafView) -> DiagnosticView {
    finding(
        key,
        Severity::Error,
        "stray-field"@,
        "`"@ + key.text + "` is not inside a block"@,
    )
}

/// The findings in the body of a top-level element.
pub open spec fn body_findings(
    env: EnvView,
    element: ElementView,
    overrides: bool,
) -> Seq<DiagnosticView> {
    match element {
        ElementView::Node(node) => if node.kind == SyntaxKind::BLOCK {
            block_body(env, node, overrides)
        } else if node.kind == SyntaxKind::FIELD {
            stray_field(env.schema, node)
        } else {
            Seq::empty()
        },
        ElementView::Token(_) => Seq::empty(),
    }
}

/// The findings about the header of a top-level element.
pub open spec fn element_header(
    schema: Schema,
    index: Option<IndexView>,
    file: Option<Seq<char>>,
    child: ChildView,
) -> (Seq<DiagnosticView>, bool) {
    match child.element {
        ElementView::Node(node) => if node.kind == SyntaxKind::BLOCK {
            header_findings(schema, index, file, node, child.offset)
        } else {
            (Seq::empty(), false)
        },
        ElementView::Token(_) => (Seq::empty(), false),
    }
}

fn check_body(ctx: &Ctx, element: &SyntaxElement, overrides: bool) -> (out: Vec<Diagnostic>)
    ensures
        diagnostic_views(out@) == body_findings(ctx.env(), element.view(), overrides),
{
    let mut out: Vec<Diagnostic> = Vec::new();
    assert(diagnostic_views(out@) =~= Seq::<DiagnosticView>::empty());
    if let SyntaxElement::Node(node) = element {
        match node.kind {
            SyntaxKind::BLOCK => {
                if let Some(keyword) = Block(node).keyword() {
                    if same(keyword.text.as_str(), "Object") && !overrides {
                        check_set_reachability(node, &mut out);
                    }
                }
                let mut tags: Vec<String> = Vec::new();
                assert(string_views(tags@) =~= Seq::<Seq<char>>::empty());
                let scope = scope_schema(ctx.analyzer, ScopeSchema::Unknown, node);
                check_children(ctx, node, scope, &mut out, &mut tags);
            },
            SyntaxKind::FIELD => {
                if let Some(key) = Field(node).key() {
                    let inline = match ctx.analyzer.block(key.text.as_str()) {
                        Some(block) => !block.terminated,
                        None => false,
                    };
                    if !inline {
                        let message = cat3("`", key.text.as_str(), "` is not inside a block");
                        report(&mut out, key, Severity::Error, "stray-field", message);
                    }
                }
            },
            _ => {},
        }
    }
    out
}

/// Findings inside a top-level element, as findings of the document.
pub open spec fn rebased(found: Seq<DiagnosticView>, offset: int) -> Seq<DiagnosticView> {
    Seq::new(
        found.len(),
        |i: int|
            DiagnosticView {
                span: span_at(offset as u32, found[i].span.start, found[i].span.end),
                ..found[i]
            },
    )
}

/// What the checks of a document depend on.
pub open spec fn env_of(
    schema: Schema,
    index: Option<IndexView>,
    file: Option<Seq<char>>,
) -> EnvView {
    EnvView {
        schema,
        names: match index {
            Some(index) => Some(name_set(index)),
            None => None,
        },
        map_layer: match file {
            Some(file) => override_layer(file),
            None => false,
        },
    }
}

/// The findings of one top-level element: those about its header, then those
/// in its body. They depend only on the element, the schema and the index,
/// never on other elements.
pub open spec fn element_findings(
    schema: Schema,
    index: Option<IndexView>,
    file: Option<Seq<char>>,
    child: ChildView,
) -> Seq<DiagnosticView> {
    let (head, overrides) = element_header(schema, index, file, child);
    rebased(head, child.offset) + rebased(
        body_findings(env_of(schema, index, file), child.element, overrides),
        child.offset,
    )
}

pub open spec fn elements_findings(
    schema: Schema,
    index: Option<IndexView>,
    file: Option<Seq<char>>,
    children: Seq<ChildView>,
) -> Seq<DiagnosticView>
    decreases children.len(),
{
    if children.len() == 0 {
        Seq::empty()
    } else {
        elements_findings(schema, index, file, children.drop_last()) + element_findings(
            schema,
            index,
            file,
            children.last(),
        )
    }
}

/// The structural errors of the parser, as findings.
pub open spec fn error_findings(errors: Seq<SyntaxError>) -> Seq<DiagnosticView> {
    Seq::new(
        errors.len(),
        |i: int|
            DiagnosticView {
                span: Span { start: errors[i].start as u32, end: errors[i].end as u32 },
                severity: Severity::Error,
                code: "syntax"@,
                message: errors[i].message@,
            },
    )
}

/// The diagnostics of a document: structural errors, the findings of each
/// top-level element and hints about pragmas, without the suppressed codes.
pub open spec fn diagnosed(
    schema: Schema,
    index: Option<IndexView>,
    file: Option<Seq<char>>,
    parse: Parse,
) -> Seq<DiagnosticView> {
    let children = child_views(parse.children@);
    let pragmas = suppressions_of(children);
    kept(
        error_findings(parse.errors@) + elements_findings(schema, index, file, children)
            + pragmas.hints,
        pragmas.codes,
    )
}

/// Adds findings of a top-level element, moved by its offset, unless their
/// codes are suppressed.
fn keep_rebased(
    out: &mut Vec<Diagnostic>,
    found: &Vec<Diagnostic>,
    offset: u32,
    codes: &Vec<String>,
    Ghost(all): Ghost<Seq<DiagnosticView>>,
)
    requires
        diagnostic_views(old(out)@) == kept(all, string_views(codes@)),
    ensures
        diagnostic_views(final(out)@) == kept(
            all + rebased(diagnostic_views(found@), offset as int),
            string_views(codes@),
        ),
{
    let ghost moved = rebased(diagnostic_views(found@), offset as int);
    let mut i: usize = 0;
    assert(all + moved.take(0) =~= all);
    while i < found.len()
        invariant
            i <= found@.len(),
            moved == rebased(diagnostic_views(found@), offset as int),
            diagnostic_views(out@) == kept(all + moved.take(i as int), string_views(codes@)),
        decreases found@.len() - i,
    {
        let d = &found[i];
        let copy = Diagnostic {
            span: rebase(offset, d.span.start, d.span.end),
            severity: d.severity,
            code: d.code,
            message: d.message.clone(),
        };
        proof {
            assert(copy.view() == moved[i as int]);
            assert((all + moved.take(i as int)).push(copy.view()) =~= all + moved.take(i + 1));
        }
        keep(out, copy, codes, Ghost(all + moved.take(i as int)));
        i += 1;
    }
    assert(moved.take(i as int) =~= moved);
}

/// The structural errors of the parser that are not suppressed.
fn keep_errors(errors: &Vec<SyntaxError>, codes: &Vec<String>) -> (out: Vec<Diagnostic>)
    ensures
        diagnostic_views(out@) == kept(error_findings(errors@), string_views(codes@)),
{
    let ghost all = error_findings(errors@);
    let mut out: Vec<Diagnostic> = Vec::new();
    let mut i: usize = 0;
    assert(diagnostic_views(out@) =~= kept(all.take(0), string_views(codes@)));
    while i < errors.len()
        invariant
            i <= errors@.len(),
            all == error_findings(errors@),
            diagnostic_views(out@) == kept(all.take(i as int), string_views(codes@)),
        decreases errors@.len() - i,
    {
        let error = &errors[i];
        let d = Diagnostic {
            span: Span { start: error.start as u32, end: error.end as u32 },
            severity: Severity::Error,
            code: "syntax",
            message: error.message.clone(),
        };
        proof {
            assert(d.view() == all[i as int]);
            assert(all.take(i as int).push(d.view()) =~= all.take(i + 1));
        }
        keep(&mut out, d, codes, Ghost(all.take(i as int)));
        i += 1;
    }
    assert(all.take(i as int) =~= all);
    out
}

/// Adds the hints about pragmas that are not themselves suppressed.
fn keep_hints(
    out: &mut Vec<Diagnostic>,
    pragmas: &Suppressions,
    Ghost(all): Ghost<Seq<DiagnosticView>>,
)
    requires
        diagnostic_views(old(out)@) == kept(all, string_views(pragmas.codes@)),
    ensures
        diagnostic_views(final(out)@) == kept(
            all + diagnostic_views(pragmas.hints@),
            string_views(pragmas.codes@),
        ),
{
    keep_rebased(out, &pragmas.hints, 0, &pragmas.codes, Ghost(all));
    assert(rebased(diagnostic_views(pragmas.hints@), 0) =~= diagnostic_views(pragmas.hints@));
}

fn in_override_layer(file: Option<&str>) -> (yes: bool)
    ensures
        yes == match opt_text(file) {
            Some(file) => override_layer(file),
            None => false,
        },
{
    match file {
        Some(file) => is_override_layer(file),
        None => false,
    }
}

/// Checks the header of a top-level element.
fn element_header_of(
    analyzer: &Analyzer,
    index: Option<&WorkspaceIndex>,
    file: Option<&str>,
    child: &Child,
) -> (out: (Vec<Diagnostic>, bool))
    ensures
        (diagnostic_views(out.0@), out.1) == element_header(
            analyzer.schema,
            opt_index_view(index),
            opt_text(file),
            child.view(),
        ),
{
    let mut out: Vec<Diagnostic> = Vec::new();
    assert(diagnostic_views(out@) =~= Seq::<DiagnosticView>::empty());
    let element: &SyntaxElement = &child.element;
    if let SyntaxElement::Node(node) = element {
        if node.kind == SyntaxKind::BLOCK {
            let overrides = check_header(analyzer, index, file, node, child.offset, &mut out);
            return (out, overrides);
        }
    }
    (out, false)
}

/// Run all diagnostics over `parse`. `index` enables cross-file reference
/// checks (pass `None` to skip them, e.g. for single-file analysis). `file` is
/// the document's name as it appears in the index; with both present,
/// redefinitions of names defined elsewhere are recognized.
pub fn diagnose(
    analyzer: &Analyzer,
    parse: &Parse,
    index: Option<&WorkspaceIndex>,
    file: Option<&str>,
) -> (out: Vec<Diagnostic>)
    ensures
        diagnostic_views(out@) == diagnosed(
            analyzer.schema,
            opt_index_view(index),
            opt_text(file),
            *parse,
        ),
{
    let pragmas = suppressions_in(&parse.children);
    let ctx = Ctx { analyzer, index, map_layer: in_override_layer(file) };
    let ghost all = child_views(parse.children@);
    let ghost errors = error_findings(parse.errors@);
    let mut out = keep_errors(&parse.errors, &pragmas.codes);
    let ghost mut found: Seq<DiagnosticView> = Seq::empty();
    let mut i: usize = 0;
    proof {
        assert(all.take(0) =~= Seq::<ChildView>::empty());
        assert(errors + found =~= errors);
    }
    while i < parse.children.len()
        invariant
            i <= parse.children@.len(),
            all == child_views(parse.children@),
            ctx.env() == env_of(analyzer.schema, opt_index_view(index), opt_text(file)),
            found == elements_findings(
                analyzer.schema,
                opt_index_view(index),
                opt_text(file),
                all.take(i as int),
            ),
            diagnostic_views(out@) == kept(errors + found, string_views(pragmas.codes@)),
        decreases parse.children@.len() - i,
    {
        let child = &parse.children[i];
        proof {
            assert(all.take(i + 1).drop_last() =~= all.take(i as int));
            assert(all.take(i + 1).last() == child.view());
        }
        let (head, overrides) = element_header_of(analyzer, index, file, child);
        let body = check_body(&ctx, &child.element, overrides);
        let ghost head_found = rebased(diagnostic_views(head@), child.offset as int);
        let ghost body_found = rebased(diagnostic_views(body@), child.offset as int);
        keep_rebased(&mut out, &head, child.offset, &pragmas.codes, Ghost(errors + found));
        keep_rebased(
            &mut out,
            &body,
            child.offset,
            &pragmas.codes,
            Ghost(errors + found + head_found),
        );
        proof {
            assert(errors + found + head_found + body_found =~= errors + (found + (head_found
                + body_found)));
            found = found + (head_found + body_found);
        }
        i += 1;
    }
    assert(all.take(i as int) =~= all);
    keep_hints(&mut out, &pragmas, Ghost(errors + found));
    out
}

// ---------------------------------------------------------------------------
// Cached diagnostics
// ---------------------------------------------------------------------------
/// The findings in the body of a top-level element, relative to its start. The
/// handle keeps the element alive, so that a shared allocation is the same
/// element.
struct CacheEntry {
    element: Arc<SyntaxElement>,
    overrides: bool,
    found: Arc<Vec<Diagnostic>>,
}

impl CacheEntry {
    spec fn fits(&self, env: EnvView) -> bool {
        diagnostic_views(self.found@) == body_findings(env, self.element.view(), self.overrides)
    }
}

/// A per-document cache of block-level diagnostics, keyed on the identity of
/// top-level elements. After an incremental reparse, unchanged elements keep
/// their allocation, so their diagnostics are reused and rebased to the
/// element's new offset.
///
/// Reference diagnostics depend on the [`WorkspaceIndex`], so the cache is
/// cleared whenever the index generation changes.
pub struct DiagnosticsCache {
    generation: Option<u64>,
    entries: Vec<CacheEntry>,
    hits: u64,
    misses: u64,
}

/// The number of nodes among top-level elements.
pub open spec fn node_count(children: Seq<ChildView>) -> nat
    decreases children.len(),
{
    if children.len() == 0 {
        0
    } else {
        node_count(children.drop_last()) + if children.last().element is Node {
            1nat
        } else {
            0nat
        }
    }
}

proof fn lemma_node_count(children: Seq<ChildView>, i: int)
    requires
        0 <= i <= children.len(),
    ensures
        node_count(children.take(i)) <= i,
    decreases i,
{
    if i > 0 {
        lemma_node_count(children, i - 1);
        assert(children.take(i).drop_last() =~= children.take(i - 1));
    }
}

impl DiagnosticsCache {
    /// The index generation that the entries were computed for.
    pub closed spec fn generation(&self) -> Option<int> {
        match self.generation {
            Some(generation) => Some(generation as int),
            None => None,
        }
    }

    /// The number of elements whose diagnostics were reused.
    pub closed spec fn hits(&self) -> u64 {
        self.hits
    }

    /// The number of elements whose diagnostics were computed.
    pub closed spec fn misses(&self) -> u64 {
        self.misses
    }

    /// Every entry holds the findings of its element under `env`.
    pub closed spec fn fits(&self, env: EnvView) -> bool {
        forall|i: int| 0 <= i < self.entries@.len() ==> (#[trigger] self.entries@[i]).fits(env)
    }

    /// Nothing has been computed yet, so whatever is held fits anything.
    pub open spec fn is_new(&self) -> bool {
        &&& self.generation() is None
        &&& self.hits() == 0
        &&& self.misses() == 0
        &&& forall|env: EnvView| #[trigger] self.fits(env)
    }

    pub fn new() -> (cache: Self)
        ensures
            cache.is_new(),
    {
        DiagnosticsCache { generation: None, entries: Vec::new(), hits: 0, misses: 0 }
    }

    /// Cumulative (hits, misses) over the cache's lifetime.
    pub fn stats(&self) -> (out: (u64, u64))
        ensures
            out == (self.hits(), self.misses()),
    {
        (self.hits, self.misses)
    }
}

/// The generation of an optional index.
pub open spec fn opt_generation(index: Option<&WorkspaceIndex>) -> Option<int> {
    match index {
        Some(index) => Some(index.view().generation),
        None => None,
    }
}

fn same_generation(a: Option<u64>, b: Option<u64>) -> (equal: bool)
    ensures
        equal == (a == b),
{
    match (a, b) {
        (Some(x), Some(y)) => x == y,
        (None, None) => true,
        _ => false,
    }
}

/// The first place from `i` to before `end` that `hits` marks.
pub open spec fn marked_from(hits: Seq<bool>, i: int, end: int) -> Option<int>
    decreases end - i,
{
    if i < 0 || i >= end || end > hits.len() {
        None
    } else if hits[i] {
        Some(i)
    } else {
        marked_from(hits, i + 1, end)
    }
}

/// The first place that `hits` marks, searched from `from` on, then from the start.
pub open spec fn first_marked(hits: Seq<bool>, from: int) -> Option<int> {
    let rest = marked_from(hits, from, hits.len() as int);
    if rest is Some {
        rest
    } else {
        marked_from(
            hits,
            0,
            if from < hits.len() {
                from
            } else {
                hits.len() as int
            },
        )
    }
}

/// The first place that `hits` marks, searched from `from` on, then from the start.
pub fn first_hit(hits: &Vec<bool>, from: usize) -> (out: Option<usize>)
    ensures
        match out {
            Some(i) => first_marked(hits@, from as int) == Some(i as int),
            None => first_marked(hits@, from as int) is None,
        },
{
    let len = hits.len();
    let mut i: usize = from;
    while i < len
        invariant
            len == hits@.len(),
            marked_from(hits@, from as int, len as int) == marked_from(
                hits@,
                i as int,
                len as int,
            ),
        decreases len - i,
    {
        if hits[i] {
            return Some(i);
        }
        i += 1;
    }
    let end: usize = if from < len {
        from
    } else {
        len
    };
    let mut j: usize = 0;
    while j < end
        invariant
            len == hits@.len(),
            end == if from < len {
                from
            } else {
                len
            },
            marked_from(hits@, from as int, len as int) is None,
            marked_from(hits@, 0, end as int) == marked_from(hits@, j as int, end as int),
        decreases end - j,
    {
        if hits[j] {
            return Some(j);
        }
        j += 1;
    }
    None
}

/// The entries that `hits` marks hold the element, computed under `overrides`.
spec fn marks_entries(
    hits: Seq<bool>,
    entries: Seq<CacheEntry>,
    element: Arc<SyntaxElement>,
    overrides: bool,
) -> bool {
    &&& hits.len() == entries.len()
    &&& forall|i: int|
        0 <= i < hits.len() && #[trigger] hits[i] ==> entries[i].element == element
            && entries[i].overrides == overrides
}

proof fn lemma_marked_from(hits: Seq<bool>, i: int, end: int)
    requires
        0 <= i,
    ensures
        marked_from(hits, i, end) matches Some(at) ==> i <= at < end && end <= hits.len()
            && hits[at],
    decreases end - i,
{
    if i < end <= hits.len() && !hits[i] {
        lemma_marked_from(hits, i + 1, end);
    }
}

/// The entry for an element, searched from `from` on, then from the start. Which
/// entries share the element's allocation is for the comparison of handles to say;
/// [`first_hit`] picks among those that it marks.
fn find_cached(
    entries: &Vec<CacheEntry>,
    element: &Arc<SyntaxElement>,
    overrides: bool,
    from: usize,
) -> (out: Option<usize>)
    ensures
        match out {
            Some(i) => i < entries@.len() && entries@[i as int].element == *element
                && entries@[i as int].overrides == overrides,
            None => true,
        },
        exists|hits: Seq<bool>|
            marks_entries(hits, entries@, *element, overrides) && match out {
                Some(i) => #[trigger] first_marked(hits, from as int) == Some(i as int),
                None => first_marked(hits, from as int) is None,
            },
{
    // Unchanged elements come in the order of the last run.
    if from < entries.len() && entries[from].overrides == overrides && shared(
        &entries[from].element,
        element,
    ) {
        proof {
            let hits = Seq::new(entries@.len(), |i: int| i == from);
            assert(marks_entries(hits, entries@, *element, overrides));
            assert(first_marked(hits, from as int) == Some(from as int));
        }
        return Some(from);
    }
    let mut hits: Vec<bool> = Vec::new();
    let mut i: usize = 0;
    while i < entries.len()
        invariant
            i <= entries@.len(),
            hits@.len() == i,
            marks_entries(hits@, entries@.take(i as int), *element, overrides),
        decreases entries@.len() - i,
    {
        let hit = entries[i].overrides == overrides && shared(&entries[i].element, element);
        hits.push(hit);
        i += 1;
    }
    assert(entries@.take(i as int) =~= entries@);
    let out = first_hit(&hits, from);
    proof {
        let len = hits@.len() as int;
        lemma_marked_from(hits@, from as int, len);
        lemma_marked_from(
            hits@,
            0,
            if from < len {
                from as int
            } else {
                len
            },
        );
        assert(marks_entries(hits@, entries@, *element, overrides));
        assert(match out {
            Some(i) => first_marked(hits@, from as int) == Some(i as int),
            None => first_marked(hits@, from as int) is None,
        });
    }
    out
}

/// Like [`diagnose`], but reuses results from `cache` for top-level elements
/// that are unchanged. Always returns exactly what [`diagnose`] would; the
/// cache only saves work. One cache serves one document: entries of an equal
/// index generation must have been computed for the same names, schema and
/// file.
pub fn diagnose_with_cache(
    analyzer: &Analyzer,
    parse: &Parse,
    index: Option<&WorkspaceIndex>,
    file: Option<&str>,
    cache: &mut DiagnosticsCache,
) -> (out: Vec<Diagnostic>)
    requires
        old(cache).generation() == opt_generation(index) ==> old(cache).fits(
            env_of(analyzer.schema, opt_index_view(index), opt_text(file)),
        ),
        old(cache).hits() + parse.children@.len() <= u64::MAX,
        old(cache).misses() + parse.children@.len() <= u64::MAX,
    ensures
        diagnostic_views(out@) == diagnosed(
            analyzer.schema,
            opt_index_view(index),
            opt_text(file),
            *parse,
        ),
        final(cache).generation() == opt_generation(index),
        final(cache).fits(env_of(analyzer.schema, opt_index_view(index), opt_text(file))),
        old(cache).hits() <= final(cache).hits(),
        old(cache).misses() <= final(cache).misses(),
        old(cache).generation() != opt_generation(index) ==> final(cache).hits() == old(
            cache,
        ).hits(),
        final(cache).hits() + final(cache).misses() == old(cache).hits() + old(cache).misses()
            + node_count(child_views(parse.children@)),
{
    let ghost env = env_of(analyzer.schema, opt_index_view(index), opt_text(file));
    let generation = match index {
        Some(index) => Some(index.generation()),
        None => None,
    };
    let cleared = !same_generation(cache.generation, generation);
    if cleared {
        cache.entries = Vec::new();
        cache.generation = generation;
    }
    let pragmas = suppressions_in(&parse.children);
    let ctx = Ctx { analyzer, index, map_layer: in_override_layer(file) };
    let ghost all = child_views(parse.children@);
    let ghost errors = error_findings(parse.errors@);
    let mut out = keep_errors(&parse.errors, &pragmas.codes);
    let mut next: Vec<CacheEntry> = Vec::new();
    let mut cursor: usize = 0;
    let ghost mut found: Seq<DiagnosticView> = Seq::empty();
    let mut i: usize = 0;
    proof {
        assert(all.take(0) =~= Seq::<ChildView>::empty());
        assert(errors + found =~= errors);
    }
    while i < parse.children.len()
        invariant
            i <= parse.children@.len(),
            all == child_views(parse.children@),
            ctx.env() == env,
            env == env_of(analyzer.schema, opt_index_view(index), opt_text(file)),
            cache.fits(env),
            cache.generation == generation,
            forall|k: int| 0 <= k < next@.len() ==> (#[trigger] next@[k]).fits(env),
            cleared ==> cache.entries@.len() == 0 && cache.hits == old(cache).hits,
            old(cache).hits <= cache.hits <= old(cache).hits + i,
            old(cache).misses <= cache.misses <= old(cache).misses + i,
            cache.hits + cache.misses == old(cache).hits + old(cache).misses + node_count(
                all.take(i as int),
            ),
            old(cache).hits + parse.children@.len() <= u64::MAX,
            old(cache).misses + parse.children@.len() <= u64::MAX,
            found == elements_findings(
                analyzer.schema,
                opt_index_view(index),
                opt_text(file),
                all.take(i as int),
            ),
            diagnostic_views(out@) == kept(errors + found, string_views(pragmas.codes@)),
        decreases parse.children@.len() - i,
    {
        let child = &parse.children[i];
        proof {
            assert(all.take(i + 1).drop_last() =~= all.take(i as int));
            assert(all.take(i + 1).last() == child.view());
            lemma_node_count(all, i + 1);
        }
        let (head, overrides) = element_header_of(analyzer, index, file, child);
        let ghost head_found = rebased(diagnostic_views(head@), child.offset as int);
        keep_rebased(&mut out, &head, child.offset, &pragmas.codes, Ghost(errors + found));
        let body = if child.element.is_node() {
            let body = match find_cached(&cache.entries, &child.element, overrides, cursor) {
                Some(at) => {
                    let count = cache.entries.len();
                    assert(at < count);
                    cursor = at + 1;
                    cache.hits = cache.hits + 1;
                    share(&cache.entries[at].found)
                },
                None => {
                    cache.misses = cache.misses + 1;
                    Arc::new(check_body(&ctx, &child.element, overrides))
                },
            };
            next.push(
                CacheEntry { element: share(&child.element), overrides, found: share(&body) },
            );
            body
        } else {
            Arc::new(Vec::new())
        };
        let ghost body_found = rebased(diagnostic_views(body@), child.offset as int);
        keep_rebased(
            &mut out,
            &body,
            child.offset,
            &pragmas.codes,
            Ghost(errors + found + head_found),
        );
        proof {
            assert(diagnostic_views(body@) =~= body_findings(
                env,
                child.element.view(),
                overrides,
            ));
            assert(errors + found + head_found + body_found =~= errors + (found + (head_found
                + body_found)));
            found = found + (head_found + body_found);
        }
        i += 1;
    }
    assert(all.take(i as int) =~= all);
    // Entries for elements no longer in the tree are dropped here.
    cache.entries = next;
    keep_hints(&mut out, &pragmas, Ghost(errors + found));
    out
}

} // verus!
