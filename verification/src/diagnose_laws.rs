//! Laws of the findings about a document: what is reported of its blocks, lines and
//! modules, in terms of how they are written and of what the schema declares.

use vstd::prelude::*;
use vstd::string::*;

use crate::analyzer::has_slot;
use crate::check_laws::{findings_add_up, found, is_on};
use crate::checks::{DiagnosticView, EnvView, Severity};
use crate::diagnostics::{
    body_findings, condition_step, diagnosed, editor_default, element_findings, element_header,
    elements_findings, env_of, error_findings, field_step, module_header, node_step,
    reachability_findings, rebased, stray_finding, walk, WalkView,
};
use crate::index::IndexView;
use crate::kind::SyntaxKind;
use crate::lines::{
    argument_at, argument_follows_the_equals, block_type_is, counts_block, counts_field,
    counts_module, declared, first_field_counts, head_word_is_the_key, holds_node, in_slot, key_at,
    last_module_type_counts, leaf_at, lemma_block_type, lemma_in_slot, lemma_line_type,
    lemma_module_type, line_has_type, module_type_is, tag_at, tag_follows_the_argument,
    unknown_block_types_have_no_entry, unknown_fields_have_no_entry,
    unknown_module_types_have_no_entry, untagged, untagged_nodes_have_no_tag,
};
use crate::model::{block_scope, module_scope, share_name, slot_named, ScopeView};
use crate::parser::{child_views, holds_text, ChildView, Parse};
use crate::pragma::{suppression_is_by_code, suppressions_of};
use crate::schema::{block_named, BlockType, ModuleSlot, ModuleType, Schema, ValueType};
use crate::text::lower;
use crate::tree::{ElementView, LeafView, NodeView};

verus! {

/// Findings are added to others, which stay.
pub open spec fn grows(before: Seq<DiagnosticView>, after: Seq<DiagnosticView>) -> bool {
    before.len() <= after.len() && after.take(before.len() as int) == before
}

/// One finding is added, of a code, on a token.
pub open spec fn adds_one(
    before: Seq<DiagnosticView>,
    after: Seq<DiagnosticView>,
    token: LeafView,
    severity: Severity,
    code: Seq<char>,
) -> bool {
    &&& after.len() == before.len() + 1
    &&& grows(before, after)
    &&& is_on(after[before.len() as int], token, severity, code)
}

proof fn lemma_grows_on(a: Seq<DiagnosticView>, b: Seq<DiagnosticView>, c: Seq<DiagnosticView>)
    requires
        grows(a, b),
        grows(b, c),
    ensures
        grows(a, c),
{
    assert forall|i: int| 0 <= i < a.len() implies c[i] == #[trigger] a[i] by {
        assert(b.take(a.len() as int)[i] == b[i]);
        assert(c.take(b.len() as int)[i] == c[i]);
    }
    assert(c.take(a.len() as int) =~= a);
}

// ---------------------------------------------------------------------------
// Lines
// ---------------------------------------------------------------------------
/// Law: the values of a field are checked by the type that is declared for it.
pub proof fn fields_are_checked_by_type(
    env: EnvView,
    node: NodeView,
    scope: ScopeView,
    st: WalkView,
    k: int,
    f: int,
)
    requires
        node.kind == SyntaxKind::FIELD,
        key_at(node, k),
        counts_field(scope.fields(), f),
        scope.fields()[f].name@ == leaf_at(node, k).text,
    ensures
        node_step(env, node, scope, st).out == st.out + found(
            env,
            leaf_at(node, k),
            node.values(),
            scope.fields()[f].value_type,
        ),
        node_step(env, node, scope, st).tags == st.tags,
{
    head_word_is_the_key(node, k);
    first_field_counts(scope.fields(), f);
    findings_add_up(env, leaf_at(node, k), node.values(), scope.fields()[f].value_type, st.out);
}

/// Law: a key that its scope declares neither as a field nor as a slot is an unknown
/// field, where the scope declares any fields. Nothing is said of it elsewhere.
pub proof fn unknown_fields_are_found(
    env: EnvView,
    node: NodeView,
    scope: ScopeView,
    st: WalkView,
    k: int,
)
    requires
        node.kind == SyntaxKind::FIELD,
        key_at(node, k),
        forall|f: int|
            0 <= f < scope.fields().len() ==> (#[trigger] scope.fields()[f]).name@ != leaf_at(
                node,
                k,
            ).text,
    ensures
        ({
            let after = node_step(env, node, scope, st);
            let slots = scope.slots();
            let is_slot = exists|s: int|
                0 <= s < slots.len() && (#[trigger] slots[s]).keyword@ == leaf_at(node, k).text;
            &&& after.tags == st.tags
            &&& if scope.fields().len() > 0 && !is_slot {
                adds_one(
                    st.out,
                    after.out,
                    leaf_at(node, k),
                    Severity::Warning,
                    "unknown-field"@,
                )
            } else {
                after.out == st.out
            }
        }),
{
    head_word_is_the_key(node, k);
    unknown_fields_have_no_entry(scope.fields(), leaf_at(node, k).text);
    let after = node_step(env, node, scope, st);
    assert(grows(st.out, after.out)) by {
        assert(after.out.take(st.out.len() as int) =~= st.out);
    }
}

// ---------------------------------------------------------------------------
// Modules
// ---------------------------------------------------------------------------
/// The entry that counts among the slots of a keyword is the first.
pub open spec fn counts_slot(slots: Seq<ModuleSlot>, s: int) -> bool {
    &&& 0 <= s < slots.len()
    &&& forall|c: int| 0 <= c < s ==> (#[trigger] slots[c]).keyword@ != slots[s].keyword@
}

pub proof fn lemma_slot(slots: Seq<ModuleSlot>, s: int)
    requires
        counts_slot(slots, s),
    ensures
        slot_named(slots, slots[s].keyword@) == Some(slots[s]),
        has_slot(slots, slots[s].keyword@),
    decreases slots.len(),
{
    if s > 0 {
        let rest = slots.drop_first();
        assert(rest[s - 1] == slots[s]);
        assert forall|c: int| 0 <= c < s - 1 implies (#[trigger] rest[c]).keyword@ != rest[s
            - 1].keyword@ by {
            assert(slots[c + 1].keyword@ != slots[s].keyword@);
        }
        lemma_slot(rest, s - 1);
        assert(slots[0].keyword@ != slots[s].keyword@);
    }
}

/// A slot accepts an interface that a module has.
pub open spec fn suits(module: ModuleType, slot: ModuleSlot) -> bool {
    exists|i: int, j: int|
        #![trigger module.interfaces@[i], slot.accepts@[j]]
        0 <= i < module.interfaces@.len() && 0 <= j < slot.accepts@.len()
            && module.interfaces@[i]@ == slot.accepts@[j]@
}

proof fn lemma_suits(module: ModuleType, slot: ModuleSlot)
    ensures
        suits(module, slot) == share_name(module.interfaces@, slot.accepts@),
{
    let (own, accepts) = (module.interfaces@, slot.accepts@);
    if suits(module, slot) {
        let (i, j) = choose|i: int, j: int|
            #![trigger module.interfaces@[i], slot.accepts@[j]]
            0 <= i < module.interfaces@.len() && 0 <= j < slot.accepts@.len()
                && module.interfaces@[i]@ == slot.accepts@[j]@;
        assert(accepts[j]@ == own[i]@);
        assert(holds_text(accepts, own[i]@));
    }
    if share_name(own, accepts) {
        let i = choose|i: int| 0 <= i < own.len() && holds_text(accepts, #[trigger] own[i]@);
        let j = choose|j: int| 0 <= j < accepts.len() && (#[trigger] accepts[j])@ == own[i]@;
        assert(module.interfaces@[i]@ == slot.accepts@[j]@);
    }
}

/// Tags that the map editor gives to the modules of every new object.
pub open spec fn is_default_tag(tag: Seq<char>) -> bool {
    ||| lower(tag) == lower("ModuleTag_DefaultDestroyDie"@)
    ||| lower(tag) == lower("ModuleTag_DefaultInactiveBody"@)
    ||| lower(tag) == lower("ModuleTag_DefaultW3DDefaultDraw"@)
}

/// A module that holds no lines.
pub open spec fn is_bare(node: NodeView) -> bool {
    forall|i: int| 0 <= i < node.children.len() ==> (#[trigger] node.children[i]) is Token
}

/// Law: a module that no module type has is unknown; nothing else is said of its
/// header.
pub proof fn unknown_modules_are_found(
    env: EnvView,
    node: NodeView,
    scope: ScopeView,
    st: WalkView,
    k: int,
    s: int,
    a: int,
)
    requires
        node.kind == SyntaxKind::MODULE,
        key_at(node, k),
        counts_slot(scope.slots(), s),
        scope.slots()[s].keyword@ == leaf_at(node, k).text,
        argument_at(node, a),
        forall|m: int|
            0 <= m < env.schema.modules@.len() ==> (#[trigger] env.schema.modules@[m]).name@
                != leaf_at(node, a).text,
    ensures
        ({
            let after = node_step(env, node, scope, st);
            &&& grows(st.out, after.out)
            &&& after.out.len() > st.out.len()
            &&& is_on(
                after.out[st.out.len() as int],
                leaf_at(node, a),
                Severity::Warning,
                "unknown-module"@,
            )
            &&& is_bare(node) ==> after.out.len() == st.out.len() + 1
        }),
{
    head_word_is_the_key(node, k);
    lemma_slot(scope.slots(), s);
    argument_follows_the_equals(node, a);
    unknown_module_types_have_no_entry(env.schema.modules@, leaf_at(node, a).text);
    let (headed, inner) = module_header(env, node, scope, st);
    assert(grows(st.out, headed.out)) by {
        assert(headed.out.take(st.out.len() as int) =~= st.out);
    }
    lemma_walk_grows(env, node.children, inner, headed);
    let after = node_step(env, node, scope, st);
    lemma_grows_on(st.out, headed.out, after.out);
    assert(after.out.take(headed.out.len() as int)[st.out.len() as int]
        == headed.out[st.out.len() as int]);
    if is_bare(node) {
        lemma_bare_walk(env, node.children, inner, headed);
    }
}

/// What is found about the header of a module: whether it is on the tag (and not on
/// the name), how severe it is and of which code.
pub open spec fn header_codes(
    wrong: bool,
    tagged: bool,
    seen: bool,
    default: bool,
) -> Seq<(bool, Severity, Seq<char>)> {
    let none = Seq::<(bool, Severity, Seq<char>)>::empty();
    let placed = if wrong {
        none.push((false, Severity::Error, "module-wrong-slot"@))
    } else {
        none
    };
    if !tagged {
        placed.push((false, Severity::Warning, "missing-module-tag"@))
    } else {
        let unique = if seen {
            placed.push((true, Severity::Warning, "duplicate-module-tag"@))
        } else {
            placed
        };
        if default {
            unique.push((true, Severity::Hint, "editor-default-module"@))
        } else {
            unique
        }
    }
}

/// Law: a module is misplaced in a slot that accepts none of its interfaces. Its tag
/// is owed, is not used again within the object, and is no default tag of the editor
/// in a map.
pub proof fn modules_are_checked(
    env: EnvView,
    node: NodeView,
    scope: ScopeView,
    st: WalkView,
    k: int,
    s: int,
    a: int,
    m: int,
    t: Option<int>,
)
    requires
        node.kind == SyntaxKind::MODULE,
        key_at(node, k),
        counts_slot(scope.slots(), s),
        scope.slots()[s].keyword@ == leaf_at(node, k).text,
        argument_at(node, a),
        counts_module(env.schema.modules@, m),
        env.schema.modules@[m].name@ == leaf_at(node, a).text,
        match t {
            Some(t) => tag_at(node, t),
            None => untagged(node, a),
        },
    ensures
        ({
            let after = node_step(env, node, scope, st);
            let tag = leaf_at(node, t->0);
            let codes = header_codes(
                !suits(env.schema.modules@[m], scope.slots()[s]),
                t is Some,
                st.tags.contains(tag.text),
                env.map_layer && is_default_tag(tag.text),
            );
            let n = st.out.len() as int;
            &&& grows(st.out, after.out)
            &&& after.out.len() >= n + codes.len()
            &&& forall|i: int|
                0 <= i < codes.len() ==> is_on(
                    after.out[n + i],
                    if (#[trigger] codes[i]).0 {
                        tag
                    } else {
                        leaf_at(node, a)
                    },
                    codes[i].1,
                    codes[i].2,
                )
            &&& is_bare(node) ==> after.out.len() == n + codes.len()
            &&& is_bare(node) ==> after.tags == if t is Some && !st.tags.contains(tag.text) {
                st.tags.push(tag.text)
            } else {
                st.tags
            }
        }),
{
    head_word_is_the_key(node, k);
    lemma_slot(scope.slots(), s);
    argument_follows_the_equals(node, a);
    last_module_type_counts(env.schema.modules@, m);
    lemma_suits(env.schema.modules@[m], scope.slots()[s]);
    match t {
        Some(t) => {
            tag_follows_the_argument(node, t);
        },
        None => {
            untagged_nodes_have_no_tag(node, a);
        },
    }
    let (headed, inner) = module_header(env, node, scope, st);
    let tag = leaf_at(node, t->0);
    let codes = header_codes(
        !suits(env.schema.modules@[m], scope.slots()[s]),
        t is Some,
        st.tags.contains(tag.text),
        env.map_layer && is_default_tag(tag.text),
    );
    let n = st.out.len() as int;
    assert(headed.out.len() == n + codes.len());
    assert(headed.out.take(n) =~= st.out);
    assert(inner == module_scope(env.schema, node));
    assert(condition_step(node, inner, headed) == headed);
    lemma_walk_grows(env, node.children, inner, headed);
    let after = node_step(env, node, scope, st);
    lemma_grows_on(st.out, headed.out, after.out);
    assert forall|i: int| 0 <= i < codes.len() implies is_on(
        after.out[n + i],
        if (#[trigger] codes[i]).0 {
            tag
        } else {
            leaf_at(node, a)
        },
        codes[i].1,
        codes[i].2,
    ) by {
        assert(after.out.take(headed.out.len() as int)[n + i] == headed.out[n + i]);
    }
    if is_bare(node) {
        lemma_bare_walk(env, node.children, inner, headed);
    }
}

proof fn lemma_bare_walk(
    env: EnvView,
    children: Seq<ElementView>,
    scope: ScopeView,
    st: WalkView,
)
    requires
        forall|i: int| 0 <= i < children.len() ==> (#[trigger] children[i]) is Token,
    ensures
        walk(env, children, scope, st) == st,
    decreases children.len(),
{
    if children.len() > 0 {
        let rest = children.drop_last();
        assert(children.last() == children[children.len() - 1]);
        assert forall|i: int| 0 <= i < rest.len() implies (#[trigger] rest[i]) is Token by {
            assert(children[i] is Token);
        }
        lemma_bare_walk(env, rest, scope, st);
    }
}

// ---------------------------------------------------------------------------
// Findings stay
// ---------------------------------------------------------------------------
proof fn lemma_field_grows(env: EnvView, node: NodeView, scope: ScopeView, st: WalkView)
    ensures
        grows(st.out, field_step(env, node, scope, st).out),
{
    let after = field_step(env, node, scope, st).out;
    if let Some(key) = node.head_word() {
        if let Some(field) = scope.field(key.text) {
            findings_add_up(env, key, node.values(), field.value_type, st.out);
        }
    }
    assert(after.take(st.out.len() as int) =~= st.out);
}

proof fn lemma_header_grows(env: EnvView, node: NodeView, scope: ScopeView, st: WalkView)
    ensures
        ({
            let (headed, inner) = module_header(env, node, scope, st);
            grows(st.out, condition_step(node, inner, headed).out)
        }),
{
    let (headed, inner) = module_header(env, node, scope, st);
    let after = condition_step(node, inner, headed).out;
    assert(headed.out.take(st.out.len() as int) =~= st.out);
    assert(after.take(st.out.len() as int) =~= st.out);
}

proof fn lemma_node_grows(env: EnvView, node: NodeView, scope: ScopeView, st: WalkView)
    ensures
        grows(st.out, node_step(env, node, scope, st).out),
    decreases node,
{
    if node.kind == SyntaxKind::FIELD {
        lemma_field_grows(env, node, scope, st);
    } else if node.kind == SyntaxKind::MODULE {
        let (headed, inner) = module_header(env, node, scope, st);
        let noted = condition_step(node, inner, headed);
        lemma_header_grows(env, node, scope, st);
        lemma_walk_grows(env, node.children, inner, noted);
        lemma_grows_on(st.out, noted.out, node_step(env, node, scope, st).out);
    } else if node.kind == SyntaxKind::BLOCK {
        lemma_walk_grows(env, node.children, block_scope(env.schema, node), st);
    } else {
        assert(st.out.take(st.out.len() as int) =~= st.out);
    }
}

pub proof fn lemma_walk_grows(
    env: EnvView,
    children: Seq<ElementView>,
    scope: ScopeView,
    st: WalkView,
)
    ensures
        grows(st.out, walk(env, children, scope, st).out),
    decreases children,
{
    if children.len() == 0 {
        assert(st.out.take(st.out.len() as int) =~= st.out);
    } else {
        let before = walk(env, children.drop_last(), scope, st);
        lemma_walk_grows(env, children.drop_last(), scope, st);
        if let ElementView::Node(node) = children.last() {
            lemma_node_grows(env, node, scope, before);
            lemma_grows_on(st.out, before.out, node_step(env, node, scope, before).out);
        }
    }
}

/// What is found at one node of a list stays in what is found in the list.
proof fn lemma_walk_reaches(
    env: EnvView,
    children: Seq<ElementView>,
    scope: ScopeView,
    st: WalkView,
    p: int,
) -> (at: WalkView)
    requires
        0 <= p < children.len(),
        children[p] is Node,
    ensures
        grows(st.out, at.out),
        grows(
            node_step(env, children[p]->Node_0, scope, at).out,
            walk(env, children, scope, st).out,
        ),
        at == walk(env, children.take(p), scope, st),
    decreases children.len(),
{
    let rest = children.drop_last();
    let before = walk(env, rest, scope, st);
    lemma_walk_grows(env, rest, scope, st);
    if p == children.len() - 1 {
        assert(children.take(p) =~= rest);
        let out = walk(env, children, scope, st).out;
        assert(out.take(out.len() as int) =~= out);
        before
    } else {
        assert(rest[p] == children[p]);
        let at = lemma_walk_reaches(env, rest, scope, st, p);
        assert(children.take(p) =~= rest.take(p));
        let inner = node_step(env, children[p]->Node_0, scope, at).out;
        if let ElementView::Node(node) = children.last() {
            lemma_node_grows(env, node, scope, before);
            lemma_grows_on(inner, before.out, walk(env, children, scope, st).out);
        }
        at
    }
}

// ---------------------------------------------------------------------------
// Documents
// ---------------------------------------------------------------------------
/// A finding is another one, moved to where its element begins.
pub open spec fn is_moved(d: DiagnosticView, from: DiagnosticView, offset: int) -> bool {
    &&& d.code == from.code
    &&& d.severity == from.severity
    &&& d.message == from.message
    &&& d.span.start == offset + from.span.start
    &&& d.span.end == offset + from.span.end
}

/// A finding is reported, moved to where its element begins.
pub open spec fn reports(all: Seq<DiagnosticView>, d: DiagnosticView, offset: int) -> bool {
    exists|i: int| 0 <= i < all.len() && #[trigger] is_moved(all[i], d, offset)
}

/// A finding fits into a document whose offsets are of 32 bits.
pub open spec fn fits_at(d: DiagnosticView, offset: int) -> bool {
    0 <= offset && offset + d.span.start <= u32::MAX && offset + d.span.end <= u32::MAX
}

proof fn lemma_reported(
    schema: Schema,
    index: Option<IndexView>,
    file: Option<Seq<char>>,
    children: Seq<ChildView>,
    c: int,
    d: DiagnosticView,
)
    requires
        0 <= c < children.len(),
        fits_at(d, children[c].offset),
        ({
            let (head, overrides) = element_header(schema, index, file, children[c]);
            head.contains(d) || body_findings(
                env_of(schema, index, file),
                children[c].element,
                overrides,
            ).contains(d)
        }),
    ensures
        reports(elements_findings(schema, index, file, children), d, children[c].offset),
    decreases children.len(),
{
    let all = elements_findings(schema, index, file, children);
    let rest = children.drop_last();
    let before = elements_findings(schema, index, file, rest);
    let offset = children[c].offset;
    if c < rest.len() {
        assert(rest[c] == children[c]);
        lemma_reported(schema, index, file, rest, c, d);
        let i = choose|i: int| 0 <= i < before.len() && #[trigger] is_moved(before[i], d, offset);
        assert(all[i] == before[i]);
        assert(is_moved(all[i], d, offset));
    } else {
        let (head, overrides) = element_header(schema, index, file, children[c]);
        let body = body_findings(env_of(schema, index, file), children[c].element, overrides);
        let own = element_findings(schema, index, file, children[c]);
        if head.contains(d) {
            let h = choose|h: int| 0 <= h < head.len() && head[h] == d;
            assert(own[h] == rebased(head, offset)[h]);
            assert(all[before.len() + h] == own[h]);
            assert(is_moved(all[before.len() + h], d, offset));
        } else {
            let h = choose|h: int| 0 <= h < body.len() && body[h] == d;
            assert(own[head.len() + h] == rebased(body, offset)[h]);
            assert(all[before.len() + head.len() + h] == own[head.len() + h]);
            assert(is_moved(all[before.len() + head.len() + h], d, offset));
        }
    }
}

proof fn lemma_contains_grown(
    before: Seq<DiagnosticView>,
    after: Seq<DiagnosticView>,
    d: DiagnosticView,
)
    requires
        grows(before, after),
        before.contains(d),
    ensures
        after.contains(d),
{
    let i = choose|i: int| 0 <= i < before.len() && before[i] == d;
    assert(after.take(before.len() as int)[i] == after[i]);
}

proof fn lemma_block_walked(env: EnvView, block: NodeView, overrides: bool) -> (st: WalkView)
    requires
        block.kind == SyntaxKind::BLOCK,
    ensures
        body_findings(env, ElementView::Node(block), overrides) == walk(
            env,
            block.children,
            block_scope(env.schema, block),
            st,
        ).out,
        st.tags.len() == 0,
{
    let none = Seq::<DiagnosticView>::empty();
    WalkView {
        out: if block.head_word() is Some && block.head_word()->0.text == "Object"@ && !overrides {
            reachability_findings(block, none)
        } else {
            none
        },
        tags: Seq::empty(),
    }
}

/// Law: what is wrong with the values of a line is reported of the document.
pub proof fn wrong_values_are_reported(
    schema: Schema,
    index: Option<IndexView>,
    file: Option<Seq<char>>,
    children: Seq<ChildView>,
    c: int,
    block: NodeView,
    inner: Option<NodeView>,
    line: NodeView,
    ty: ValueType,
    k: int,
    d: DiagnosticView,
)
    requires
        line_has_type(schema, children, c, block, inner, line, ty),
        key_at(line, k),
        found(env_of(schema, index, file), leaf_at(line, k), line.values(), ty).contains(d),
        fits_at(d, children[c].offset),
    ensures
        reports(elements_findings(schema, index, file, children), d, children[c].offset),
{
    let env = env_of(schema, index, file);
    let (_, overrides) = element_header(schema, index, file, children[c]);
    lemma_line_type(schema, children, c, block, inner, line, ty);
    head_word_is_the_key(line, k);
    let scope = block_scope(schema, block);
    let st = lemma_block_walked(env, block, overrides);
    let body = walk(env, block.children, scope, st).out;
    match inner {
        None => {
            let p = choose|p: int|
                0 <= p < block.children.len() && #[trigger] block.children[p] == ElementView::Node(
                    line,
                );
            let at = lemma_walk_reaches(env, block.children, scope, st, p);
            lemma_line_found(env, line, scope, at, ty, d);
            lemma_contains_grown(node_step(env, line, scope, at).out, body, d);
        },
        Some(module) => {
            let p = choose|p: int|
                0 <= p < block.children.len() && #[trigger] block.children[p] == ElementView::Node(
                    module,
                );
            let q = choose|q: int|
                0 <= q < module.children.len() && #[trigger] module.children[q]
                    == ElementView::Node(line);
            let b = choose|b: int| #[trigger]
                block_type_is(schema, block, b) && in_slot(schema, b, module);
            let m = choose|m: int| #[trigger]
                module_type_is(schema, module, m) && declared(
                    schema.modules@[m].fields@,
                    line,
                    ty,
                );
            lemma_block_type(schema, block, b);
            lemma_in_slot(schema, b, module);
            lemma_module_type(schema, module, m);
            let at = lemma_walk_reaches(env, block.children, scope, st, p);
            let (headed, within) = module_header(env, module, scope, at);
            let noted = condition_step(module, within, headed);
            assert(within == module_scope(schema, module));
            let deep = lemma_walk_reaches(env, module.children, within, noted, q);
            lemma_line_found(env, line, within, deep, ty, d);
            lemma_contains_grown(
                node_step(env, line, within, deep).out,
                node_step(env, module, scope, at).out,
                d,
            );
            lemma_contains_grown(node_step(env, module, scope, at).out, body, d);
        },
    }
    lemma_reported(schema, index, file, children, c, d);
}

proof fn lemma_line_found(
    env: EnvView,
    line: NodeView,
    scope: ScopeView,
    st: WalkView,
    ty: ValueType,
    d: DiagnosticView,
)
    requires
        line.kind == SyntaxKind::FIELD,
        line.head_word() is Some,
        scope.field(line.head_word()->0.text) is Some,
        scope.field(line.head_word()->0.text)->0.value_type == ty,
        found(env, line.head_word()->0, line.values(), ty).contains(d),
    ensures
        node_step(env, line, scope, st).out.contains(d),
{
    let key = line.head_word()->0;
    let new = found(env, key, line.values(), ty);
    findings_add_up(env, key, line.values(), ty, st.out);
    let i = choose|i: int| 0 <= i < new.len() && new[i] == d;
    let out = node_step(env, line, scope, st).out;
    assert(out[st.out.len() + i] == d);
}

/// A finding of a code on a token is reported of a document, in an element.
pub open spec fn reports_on(
    all: Seq<DiagnosticView>,
    token: LeafView,
    severity: Severity,
    code: Seq<char>,
    offset: int,
) -> bool {
    exists|d: DiagnosticView| #[trigger] is_on(d, token, severity, code) && reports(all, d, offset)
}

/// A token lies within a document whose offsets are of 32 bits.
pub open spec fn token_fits(token: LeafView, offset: int) -> bool {
    &&& 0 <= offset
    &&& 0 <= token.start <= token.end
    &&& offset + token.end <= u32::MAX
}

/// Law: a line of a known block whose key is neither a field nor a slot of the block
/// is reported as an unknown field, where the block declares any fields.
pub proof fn unknown_fields_are_reported(
    schema: Schema,
    index: Option<IndexView>,
    file: Option<Seq<char>>,
    children: Seq<ChildView>,
    c: int,
    block: NodeView,
    b: int,
    line: NodeView,
    k: int,
)
    requires
        0 <= c < children.len(),
        children[c].element == ElementView::Node(block),
        block.kind == SyntaxKind::BLOCK,
        block_type_is(schema, block, b),
        holds_node(block, line),
        line.kind == SyntaxKind::FIELD,
        key_at(line, k),
        schema.blocks@[b].fields@.len() > 0,
        forall|f: int|
            0 <= f < schema.blocks@[b].fields@.len() ==> (
            #[trigger] schema.blocks@[b].fields@[f]).name@ != leaf_at(line, k).text,
        forall|s: int|
            0 <= s < schema.blocks@[b].module_slots@.len() ==> (
            #[trigger] schema.blocks@[b].module_slots@[s]).keyword@ != leaf_at(line, k).text,
        token_fits(leaf_at(line, k), children[c].offset),
    ensures
        reports_on(
            elements_findings(schema, index, file, children),
            leaf_at(line, k),
            Severity::Warning,
            "unknown-field"@,
            children[c].offset,
        ),
{
    let env = env_of(schema, index, file);
    let (_, overrides) = element_header(schema, index, file, children[c]);
    let scope = block_scope(schema, block);
    lemma_block_type(schema, block, b);
    let st = lemma_block_walked(env, block, overrides);
    let body = walk(env, block.children, scope, st).out;
    let p = choose|p: int|
        0 <= p < block.children.len() && #[trigger] block.children[p] == ElementView::Node(line);
    let at = lemma_walk_reaches(env, block.children, scope, st, p);
    unknown_fields_are_found(env, line, scope, at, k);
    let after = node_step(env, line, scope, at).out;
    let d = after[at.out.len() as int];
    assert(is_on(d, leaf_at(line, k), Severity::Warning, "unknown-field"@));
    assert(after.contains(d));
    lemma_contains_grown(after, body, d);
    lemma_reported(schema, index, file, children, c, d);
}

/// The blocks and modules of the schema name this tag for a module: the module is in
/// a slot, its type is known, and the tag follows its name.
pub open spec fn has_tag(schema: Schema, b: int, module: NodeView, m: int, t: int) -> bool {
    &&& module.kind == SyntaxKind::MODULE
    &&& in_slot(schema, b, module)
    &&& module_type_is(schema, module, m)
    &&& tag_at(module, t)
}

proof fn lemma_tag_seen(
    env: EnvView,
    b: int,
    module: NodeView,
    m: int,
    t: int,
    scope: ScopeView,
    st: WalkView,
)
    requires
        has_tag(env.schema, b, module, m, t),
        scope == ScopeView::Block(env.schema.blocks@[b]),
    ensures
        ({
            let (headed, inner) = module_header(env, module, scope, st);
            let tag = leaf_at(module, t);
            &&& condition_step(module, inner, headed) == headed
            &&& headed.tags.contains(tag.text)
            &&& st.tags.contains(tag.text) ==> exists|d: DiagnosticView|
                #[trigger] is_on(d, tag, Severity::Warning, "duplicate-module-tag"@)
                    && headed.out.contains(d)
        }),
{
    lemma_in_slot(env.schema, b, module);
    lemma_module_type(env.schema, module, m);
    tag_follows_the_argument(module, t);
    let (headed, inner) = module_header(env, module, scope, st);
    assert(inner == module_scope(env.schema, module));
    let tag = leaf_at(module, t);
    let n = st.tags.len() as int;
    if st.tags.contains(tag.text) {
        let last = headed.out.len() - if env.map_layer && editor_default(tag.text) {
            2int
        } else {
            1int
        };
        let d = headed.out[last];
        assert(is_on(d, tag, Severity::Warning, "duplicate-module-tag"@));
        assert(headed.out.contains(d));
    } else {
        assert(headed.tags[n] == tag.text);
    }
}

proof fn lemma_tags_stay_node(
    env: EnvView,
    node: NodeView,
    scope: ScopeView,
    st: WalkView,
    tag: Seq<char>,
)
    requires
        st.tags.contains(tag),
    ensures
        node_step(env, node, scope, st).tags.contains(tag),
    decreases node,
{
    if node.kind == SyntaxKind::MODULE {
        let (headed, inner) = module_header(env, node, scope, st);
        let i = choose|i: int| 0 <= i < st.tags.len() && st.tags[i] == tag;
        assert(headed.tags[i] == tag);
        assert(headed.tags.contains(tag));
        lemma_tags_stay(env, node.children, inner, condition_step(node, inner, headed), tag);
    } else if node.kind == SyntaxKind::BLOCK {
        lemma_tags_stay(env, node.children, block_scope(env.schema, node), st, tag);
    }
}

proof fn lemma_tags_stay(
    env: EnvView,
    children: Seq<ElementView>,
    scope: ScopeView,
    st: WalkView,
    tag: Seq<char>,
)
    requires
        st.tags.contains(tag),
    ensures
        walk(env, children, scope, st).tags.contains(tag),
    decreases children,
{
    if children.len() > 0 {
        lemma_tags_stay(env, children.drop_last(), scope, st, tag);
        if let ElementView::Node(node) = children.last() {
            lemma_tags_stay_node(
                env,
                node,
                scope,
                walk(env, children.drop_last(), scope, st),
                tag,
            );
        }
    }
}

proof fn lemma_walk_split(
    env: EnvView,
    children: Seq<ElementView>,
    scope: ScopeView,
    st: WalkView,
    p: int,
    q: int,
)
    requires
        0 <= p <= q <= children.len(),
    ensures
        walk(env, children.take(q), scope, st) == walk(
            env,
            children.subrange(p, q),
            scope,
            walk(env, children.take(p), scope, st),
        ),
    decreases q - p,
{
    if p == q {
        assert(children.subrange(p, q) =~= Seq::<ElementView>::empty());
    } else {
        lemma_walk_split(env, children, scope, st, p, q - 1);
        assert(children.take(q).drop_last() =~= children.take(q - 1));
        assert(children.subrange(p, q).drop_last() =~= children.subrange(p, q - 1));
        assert(children.take(q).last() == children[q - 1]);
        assert(children.subrange(p, q).last() == children[q - 1]);
    }
}

/// Law: a tag that a module of a block has is found at every later module of the
/// block that has it too.
pub proof fn repeated_tags_are_reported(
    schema: Schema,
    index: Option<IndexView>,
    file: Option<Seq<char>>,
    children: Seq<ChildView>,
    c: int,
    block: NodeView,
    b: int,
    p: int,
    m: int,
    t: int,
    q: int,
    n: int,
    u: int,
)
    requires
        0 <= c < children.len(),
        children[c].element == ElementView::Node(block),
        block.kind == SyntaxKind::BLOCK,
        block_type_is(schema, block, b),
        0 <= p < q < block.children.len(),
        block.children[p] is Node,
        block.children[q] is Node,
        has_tag(schema, b, block.children[p]->Node_0, m, t),
        has_tag(schema, b, block.children[q]->Node_0, n, u),
        leaf_at(block.children[p]->Node_0, t).text == leaf_at(block.children[q]->Node_0, u).text,
        token_fits(leaf_at(block.children[q]->Node_0, u), children[c].offset),
    ensures
        reports_on(
            elements_findings(schema, index, file, children),
            leaf_at(block.children[q]->Node_0, u),
            Severity::Warning,
            "duplicate-module-tag"@,
            children[c].offset,
        ),
{
    let env = env_of(schema, index, file);
    let (_, overrides) = element_header(schema, index, file, children[c]);
    let scope = block_scope(schema, block);
    let (first, second) = (block.children[p]->Node_0, block.children[q]->Node_0);
    let tag = leaf_at(second, u);
    lemma_block_type(schema, block, b);
    let st = lemma_block_walked(env, block, overrides);
    let body = walk(env, block.children, scope, st).out;
    let one = walk(env, block.children.take(p), scope, st);
    lemma_tag_seen(env, b, first, m, t, scope, one);
    let (headed, inner) = module_header(env, first, scope, one);
    lemma_tags_stay(env, first.children, inner, headed, tag.text);
    assert(block.children.take(p + 1).drop_last() =~= block.children.take(p));
    assert(block.children.take(p + 1).last() == block.children[p]);
    let two = walk(env, block.children.take(p + 1), scope, st);
    assert(two == node_step(env, first, scope, one));
    lemma_walk_split(env, block.children, scope, st, p + 1, q);
    lemma_tags_stay(env, block.children.subrange(p + 1, q), scope, two, tag.text);
    let at = lemma_walk_reaches(env, block.children, scope, st, q);
    lemma_tag_seen(env, b, second, n, u, scope, at);
    let (again, within) = module_header(env, second, scope, at);
    let d = choose|d: DiagnosticView|
        #[trigger] is_on(d, tag, Severity::Warning, "duplicate-module-tag"@)
            && again.out.contains(d);
    lemma_walk_grows(env, second.children, within, again);
    lemma_contains_grown(again.out, node_step(env, second, scope, at).out, d);
    lemma_contains_grown(node_step(env, second, scope, at).out, body, d);
    lemma_reported(schema, index, file, children, c, d);
}

/// Law: a block that no block type has is reported on its keyword. Nothing is said
/// of the header of another block, where there is no index.
pub proof fn unknown_blocks_are_reported(
    schema: Schema,
    file: Option<Seq<char>>,
    children: Seq<ChildView>,
    c: int,
    block: NodeView,
    k: int,
)
    requires
        0 <= c < children.len(),
        children[c].element == ElementView::Node(block),
        block.kind == SyntaxKind::BLOCK,
        key_at(block, k),
        token_fits(leaf_at(block, k), children[c].offset),
    ensures
        ({
            let known = exists|b: int|
                0 <= b < schema.blocks@.len() && (#[trigger] schema.blocks@[b]).name@ == leaf_at(
                    block,
                    k,
                ).text;
            let head = element_header(schema, None, file, children[c]).0;
            if known {
                head.len() == 0
            } else {
                head.len() == 1 && forall|index: Option<IndexView>|
                    reports_on(
                        #[trigger] elements_findings(schema, index, file, children),
                        leaf_at(block, k),
                        Severity::Error,
                        "unknown-block"@,
                        children[c].offset,
                    )
            }
        }),
{
    head_word_is_the_key(block, k);
    unknown_block_types_have_no_entry(schema.blocks@, leaf_at(block, k).text);
    if block_named(schema.blocks@, leaf_at(block, k).text) is None {
        assert forall|index: Option<IndexView>| reports_on(
            #[trigger] elements_findings(schema, index, file, children),
            leaf_at(block, k),
            Severity::Error,
            "unknown-block"@,
            children[c].offset,
        ) by {
            let head = element_header(schema, index, file, children[c]).0;
            let d = head[0];
            assert(is_on(d, leaf_at(block, k), Severity::Error, "unknown-block"@));
            assert(head.contains(d));
            lemma_reported(schema, index, file, children, c, d);
        }
    }
}

/// Law: a line outside of all blocks is reported, but where its key names a block
/// that has no end of its own.
pub proof fn stray_lines_are_found(
    schema: Schema,
    index: Option<IndexView>,
    file: Option<Seq<char>>,
    child: ChildView,
    line: NodeView,
    k: int,
)
    requires
        child.element == ElementView::Node(line),
        line.kind == SyntaxKind::FIELD,
        key_at(line, k),
        token_fits(leaf_at(line, k), child.offset),
    ensures
        ({
            let own = element_findings(schema, index, file, child);
            let open = exists|b: int| #[trigger]
                block_type_is(schema, line, b) && !schema.blocks@[b].terminated;
            if open {
                own.len() == 0
            } else {
                own.len() == 1 && reports_on(
                    own,
                    leaf_at(line, k),
                    Severity::Error,
                    "stray-field"@,
                    child.offset,
                )
            }
        }),
{
    head_word_is_the_key(line, k);
    let key = leaf_at(line, k);
    let own = element_findings(schema, index, file, child);
    unknown_block_types_have_no_entry(schema.blocks@, key.text);
    if exists|b: int| #[trigger] block_type_is(schema, line, b) && !schema.blocks@[b].terminated {
        let b = choose|b: int| #[trigger]
            block_type_is(schema, line, b) && !schema.blocks@[b].terminated;
        lemma_block_type(schema, line, b);
    } else {
        if let Some(block) = block_named(schema.blocks@, key.text) {
            let b = lemma_block_place(schema.blocks@, key.text);
            assert(key_at(line, k) && leaf_at(line, k).text == schema.blocks@[b].name@);
            assert(block_type_is(schema, line, b));
        }
        let d = stray_finding(key);
        let body = body_findings(env_of(schema, index, file), child.element, false);
        assert(body[0] == d);
        assert(is_on(d, key, Severity::Error, "stray-field"@));
        assert(is_moved(own[0], d, child.offset));
    }
}

proof fn lemma_block_place(blocks: Seq<BlockType>, name: Seq<char>) -> (b: int)
    requires
        block_named(blocks, name) is Some,
    ensures
        counts_block(blocks, b),
        blocks[b].name@ == name,
        block_named(blocks, name) == Some(blocks[b]),
    decreases blocks.len(),
{
    let rest = blocks.drop_last();
    let n = blocks.len() - 1;
    if blocks.last().name@ == name {
        n
    } else {
        let b = lemma_block_place(rest, name);
        assert(blocks[b] == rest[b]);
        assert forall|c: int| b < c < blocks.len() implies (#[trigger] blocks[c]).name@
            != blocks[b].name@ by {
            if c < n {
                assert(rest[c].name@ != rest[b].name@);
            }
        }
        b
    }
}

/// Law: every error of the parser is a finding at its place, and so is everything
/// that is found in the elements; only the codes that a pragma names are left out.
pub proof fn findings_are_reported(
    schema: Schema,
    index: Option<IndexView>,
    file: Option<Seq<char>>,
    parse: Parse,
    d: DiagnosticView,
)
    ensures
        ({
            let children = child_views(parse.children@);
            let pragmas = suppressions_of(children);
            let of_parser = exists|e: int|
                0 <= e < parse.errors@.len() && d.span.start == (
                #[trigger] parse.errors@[e]).start as u32 && d.span.end
                    == parse.errors@[e].end as u32 && d.severity == Severity::Error && d.code
                    == "syntax"@ && d.message == parse.errors@[e].message@;
            diagnosed(schema, index, file, parse).contains(d) <==> !pragmas.codes.contains(
                d.code,
            ) && (of_parser || elements_findings(schema, index, file, children).contains(d)
                || pragmas.hints.contains(d))
        }),
{
    let children = child_views(parse.children@);
    let pragmas = suppressions_of(children);
    let errors = error_findings(parse.errors@);
    let own = elements_findings(schema, index, file, children);
    let all = errors + own + pragmas.hints;
    suppression_is_by_code(all, pragmas.codes, d);
    if all.contains(d) {
        let i = choose|i: int| 0 <= i < all.len() && all[i] == d;
        if i < errors.len() {
            assert(errors[i] == d);
            assert(parse.errors@[i].message@ == d.message);
        } else if i < errors.len() + own.len() {
            assert(own[i - errors.len()] == d);
        } else {
            assert(pragmas.hints[i - errors.len() - own.len()] == d);
        }
    }
    if errors.contains(d) {
        let i = choose|i: int| 0 <= i < errors.len() && errors[i] == d;
        assert(all[i] == d);
    }
    if own.contains(d) {
        let i = choose|i: int| 0 <= i < own.len() && own[i] == d;
        assert(all[errors.len() + i] == d);
    }
    if pragmas.hints.contains(d) {
        let i = choose|i: int| 0 <= i < pragmas.hints.len() && pragmas.hints[i] == d;
        assert(all[errors.len() + own.len() + i] == d);
    }
    if exists|e: int|
        0 <= e < parse.errors@.len() && d.span.start == (#[trigger] parse.errors@[e]).start as u32
            && d.span.end == parse.errors@[e].end as u32 && d.severity == Severity::Error && d.code
            == "syntax"@ && d.message == parse.errors@[e].message@ {
        let e = choose|e: int|
            0 <= e < parse.errors@.len() && d.span.start == (
            #[trigger] parse.errors@[e]).start as u32 && d.span.end == parse.errors@[e].end as u32
                && d.severity == Severity::Error && d.code == "syntax"@ && d.message
                == parse.errors@[e].message@;
        assert(errors[e] == d);
        assert(all[e] == d);
    }
}

/// A line is in order: its key is a declared field, and nothing is wrong with its
/// values.
pub open spec fn is_clean(env: EnvView, scope: ScopeView, line: NodeView) -> bool {
    &&& line.kind == SyntaxKind::FIELD
    &&& exists|k: int, f: int|
        #![trigger key_at(line, k), scope.fields()[f]]
        key_at(line, k) && counts_field(scope.fields(), f) && scope.fields()[f].name@ == leaf_at(
            line,
            k,
        ).text && found(
            env,
            leaf_at(line, k),
            line.values(),
            scope.fields()[f].value_type,
        ).len() == 0
}

proof fn lemma_clean_walk(
    env: EnvView,
    children: Seq<ElementView>,
    scope: ScopeView,
    st: WalkView,
)
    requires
        forall|i: int|
            0 <= i < children.len() && (#[trigger] children[i]) is Node ==> is_clean(
                env,
                scope,
                children[i]->Node_0,
            ),
    ensures
        walk(env, children, scope, st).out == st.out,
    decreases children.len(),
{
    if children.len() > 0 {
        let rest = children.drop_last();
        let before = walk(env, rest, scope, st);
        assert forall|i: int| 0 <= i < rest.len() && (#[trigger] rest[i]) is Node implies is_clean(
            env,
            scope,
            rest[i]->Node_0,
        ) by {
            assert(children[i] == rest[i]);
        }
        lemma_clean_walk(env, rest, scope, st);
        assert(children.last() == children[children.len() - 1]);
        if let ElementView::Node(line) = children.last() {
            assert(is_clean(env, scope, line));
            let (k, f) = choose|k: int, f: int|
                #![trigger key_at(line, k), scope.fields()[f]]
                key_at(line, k) && counts_field(scope.fields(), f) && scope.fields()[f].name@
                    == leaf_at(line, k).text && found(
                    env,
                    leaf_at(line, k),
                    line.values(),
                    scope.fields()[f].value_type,
                ).len() == 0;
            fields_are_checked_by_type(env, line, scope, before, k, f);
            assert(node_step(env, line, scope, before).out =~= before.out);
        }
    }
}

/// Law: nothing is found inside a block whose lines are all in order, if it is no
/// object or overrides another.
pub proof fn clean_blocks_have_no_findings(
    env: EnvView,
    block: NodeView,
    b: int,
    overrides: bool,
)
    requires
        block.kind == SyntaxKind::BLOCK,
        block_type_is(env.schema, block, b),
        is_no_object(env.schema, b) || overrides,
        forall|i: int|
            0 <= i < block.children.len() && (#[trigger] block.children[i]) is Node ==> is_clean(
                env,
                ScopeView::Block(env.schema.blocks@[b]),
                block.children[i]->Node_0,
            ),
    ensures
        body_findings(env, ElementView::Node(block), overrides).len() == 0,
{
    lemma_block_type(env.schema, block, b);
    let st = WalkView { out: Seq::empty(), tags: Seq::empty() };
    lemma_clean_walk(env, block.children, block_scope(env.schema, block), st);
}

/// A type of block is not that of objects.
pub open spec fn is_no_object(schema: Schema, b: int) -> bool {
    schema.blocks@[b].name@ != "Object"@
}

} // verus!
