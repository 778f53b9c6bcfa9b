//! Laws of the findings about definitions: which definitions override or repeat
//! others, and which sets of an object can never be chosen.

use vstd::prelude::*;
use vstd::string::*;

use crate::analyzer::Span;
use crate::ast::child_nodes;
use crate::check_laws::is_on;
use crate::checks::{DiagnosticView, EnvView, Severity};
use crate::diagnose_laws::{adds_one, grows, lemma_walk_grows};
use crate::diagnostics::{
    base_site, body_findings, condition_in, condition_step, dead_sets, direct_condition, has_field,
    has_set, has_trigger, idle_upgrades, override_layer, reachability_findings, redefinition_step,
    sets_of, sites_elsewhere, WalkView,
};
use crate::index::LocationView;
use crate::kind::SyntaxKind;
use crate::lines::{
    head_word_has_a_place, head_word_is_the_key, holds_node, key_at, key_is, leaf_at, value_at,
    values_follow_the_key, values_hold_what_follows_the_key,
};
use crate::model::{block_scope, nested_scope, sub_block_named, ScopeView};
use crate::schema::{RefKind, Schema, SubBlock};
use crate::text::{last_segment, lower, separator, unsigned_flag};
use crate::tree::{ElementView, LeafView, NodeView};

verus! {

// ---------------------------------------------------------------------------
// Overrides
// ---------------------------------------------------------------------------
/// The name of a file is the end of its path.
pub open spec fn is_called(file: Seq<char>, name: Seq<char>) -> bool {
    exists|cut: int|
        0 <= cut <= file.len() && lower(#[trigger] file.skip(cut)) == lower(name) && (cut == 0
            || separator(file[cut - 1])) && forall|i: int|
            cut <= i < file.len() ==> !separator(#[trigger] file[i])
}

proof fn lemma_last_segment(s: Seq<char>) -> (cut: int)
    ensures
        0 <= cut <= s.len(),
        last_segment(s) == s.skip(cut),
        cut == 0 || separator(s[cut - 1]),
        forall|i: int| cut <= i < s.len() ==> !separator(#[trigger] s[i]),
    decreases s.len(),
{
    if s.len() == 0 {
        assert(s.skip(0) =~= Seq::<char>::empty());
        0
    } else if separator(s.last()) {
        assert(s.skip(s.len() as int) =~= Seq::<char>::empty());
        s.len() as int
    } else {
        let rest = s.drop_last();
        let cut = lemma_last_segment(rest);
        assert(rest.skip(cut).push(s.last()) =~= s.skip(cut));
        assert forall|i: int| cut <= i < s.len() implies !separator(#[trigger] s[i]) by {
            if i < rest.len() {
                assert(!separator(rest[i]));
            }
        }
        assert(cut > 0 ==> s[cut - 1] == if cut - 1 < rest.len() {
            rest[cut - 1]
        } else {
            s.last()
        });
        cut
    }
}

/// Law: a file overrides others if it is called `map.ini` or `solo.ini`, in any case.
pub proof fn map_files_override(file: Seq<char>)
    ensures
        override_layer(file) <==> is_called(file, "map.ini"@) || is_called(file, "solo.ini"@),
{
    let cut = lemma_last_segment(file);
    assert(file.skip(cut) == last_segment(file));
    lemma_called(file, "map.ini"@, cut);
    lemma_called(file, "solo.ini"@, cut);
}

proof fn lemma_called(file: Seq<char>, name: Seq<char>, cut: int)
    requires
        0 <= cut <= file.len(),
        cut == 0 || separator(file[cut - 1]),
        forall|i: int| cut <= i < file.len() ==> !separator(#[trigger] file[i]),
    ensures
        is_called(file, name) <==> lower(file.skip(cut)) == lower(name),
{
    if is_called(file, name) {
        let other = choose|other: int|
            0 <= other <= file.len() && lower(#[trigger] file.skip(other)) == lower(name) && (other
                == 0 || separator(file[other - 1])) && forall|i: int|
                other <= i < file.len() ==> !separator(#[trigger] file[i]);
        if other < cut {
            assert(!separator(file[cut - 1]));
        } else if cut < other {
            assert(!separator(file[other - 1]));
        }
    }
}

proof fn lemma_elsewhere(sites: Seq<LocationView>, file: Seq<char>, span: Span)
    ensures
        forall|l: LocationView|
            #[trigger] sites_elsewhere(sites, file, span).contains(l) <==> sites.contains(l) && !(
            l.file == file && l.span == span),
    decreases sites.len(),
{
    let all = sites_elsewhere(sites, file, span);
    if sites.len() > 0 {
        let rest = sites.drop_last();
        let before = sites_elsewhere(rest, file, span);
        lemma_elsewhere(rest, file, span);
        assert forall|l: LocationView| #[trigger] all.contains(l) <==> sites.contains(l) && !(l.file
            == file && l.span == span) by {
            assert(before.contains(l) <==> rest.contains(l) && !(l.file == file && l.span == span));
            if before.contains(l) {
                let i = choose|i: int| 0 <= i < before.len() && before[i] == l;
                assert(all[i] == l);
            }
            if rest.contains(l) {
                let i = choose|i: int| 0 <= i < rest.len() && rest[i] == l;
                assert(sites[i] == l);
            }
            if all.contains(l) && !before.contains(l) {
                let i = choose|i: int| 0 <= i < all.len() && all[i] == l;
                if i < before.len() {
                    assert(before[i] == l);
                }
                assert(sites[sites.len() - 1] == l);
            }
            if sites.contains(l) && !rest.contains(l) {
                let i = choose|i: int| 0 <= i < sites.len() && sites[i] == l;
                if i < rest.len() {
                    assert(rest[i] == l);
                }
                if !(l.file == file && l.span == span) {
                    assert(all[before.len() as int] == l);
                }
            }
        }
    }
}

proof fn lemma_base_site(sites: Seq<LocationView>)
    ensures
        base_site(sites) is Some <==> exists|i: int|
            0 <= i < sites.len() && !override_layer((#[trigger] sites[i]).file),
    decreases sites.len(),
{
    if sites.len() > 0 {
        let rest = sites.drop_first();
        lemma_base_site(rest);
        if base_site(rest) is Some {
            let i = choose|i: int| 0 <= i < rest.len() && !override_layer((#[trigger] rest[i]).file);
            assert(sites[i + 1] == rest[i]);
        }
        if exists|i: int| 0 <= i < sites.len() && !override_layer((#[trigger] sites[i]).file) {
            let i = choose|i: int|
                0 <= i < sites.len() && !override_layer((#[trigger] sites[i]).file);
            if i > 0 {
                assert(rest[i - 1] == sites[i]);
            }
        }
    }
}

/// A name is defined at another place than this one.
pub open spec fn is_elsewhere(sites: Seq<LocationView>, file: Seq<char>, span: Span) -> bool {
    exists|l: LocationView| #[trigger] sites.contains(l) && !(l.file == file && l.span == span)
}

/// A name is defined at another place than this one, in a file that overrides nothing.
pub open spec fn is_in_base(sites: Seq<LocationView>, file: Seq<char>, span: Span) -> bool {
    exists|l: LocationView| #[trigger] sites.contains(l) && !(l.file == file && l.span == span)
        && !override_layer(l.file)
}

/// Law: in a file that overrides others, a hint says that a name is defined
/// elsewhere. In another file, a second definition of an object is a warning, if the
/// first is not in a file that overrides others. Nothing is said otherwise.
pub proof fn second_definitions_are_found(
    file: Seq<char>,
    kind: RefKind,
    name: LeafView,
    sites: Seq<LocationView>,
    span: Span,
    acc: Seq<DiagnosticView>,
)
    ensures
        ({
            let (after, overrides) = redefinition_step(
                file,
                kind,
                name,
                sites_elsewhere(sites, file, span),
                acc,
            );
            &&& overrides == (override_layer(file) && is_elsewhere(sites, file, span))
            &&& if override_layer(file) && is_elsewhere(sites, file, span) {
                adds_one(acc, after, name, Severity::Hint, "overrides"@)
            } else if !override_layer(file) && kind == RefKind::Object && is_in_base(
                sites,
                file,
                span,
            ) {
                adds_one(acc, after, name, Severity::Warning, "duplicate-definition"@)
            } else {
                after == acc
            }
        }),
{
    let others = sites_elsewhere(sites, file, span);
    let (after, overrides) = redefinition_step(file, kind, name, others, acc);
    lemma_elsewhere(sites, file, span);
    lemma_base_site(others);
    if others.len() > 0 {
        assert(others.contains(others[0]));
        assert(sites.contains(others[0]));
    }
    if is_elsewhere(sites, file, span) {
        let l = choose|l: LocationView| #[trigger]
            sites.contains(l) && !(l.file == file && l.span == span);
        assert(others.contains(l));
        assert(others.len() > 0);
    }
    if base_site(others) is Some {
        let i = choose|i: int| 0 <= i < others.len() && !override_layer((#[trigger] others[i]).file);
        assert(others.contains(others[i]));
        assert(sites.contains(others[i]));
    }
    if is_in_base(sites, file, span) {
        let l = choose|l: LocationView| #[trigger]
            sites.contains(l) && !(l.file == file && l.span == span) && !override_layer(l.file);
        assert(others.contains(l));
        let i = choose|i: int| 0 <= i < others.len() && others[i] == l;
        assert(!override_layer(others[i].file));
    }
    assert(after.take(acc.len() as int) =~= acc);
}

// ---------------------------------------------------------------------------
// Sub-blocks
// ---------------------------------------------------------------------------
/// The entry that counts among the sub-blocks of a keyword is the first.
pub open spec fn counts_sub(subs: Seq<SubBlock>, s: int) -> bool {
    &&& 0 <= s < subs.len()
    &&& forall|c: int| 0 <= c < s ==> (#[trigger] subs[c]).keyword@ != subs[s].keyword@
}

pub proof fn lemma_sub(subs: Seq<SubBlock>, s: int)
    requires
        counts_sub(subs, s),
    ensures
        sub_block_named(subs, subs[s].keyword@) == Some(subs[s]),
    decreases subs.len(),
{
    if s > 0 {
        let rest = subs.drop_first();
        assert(rest[s - 1] == subs[s]);
        assert forall|c: int| 0 <= c < s - 1 implies (#[trigger] rest[c]).keyword@ != rest[s
            - 1].keyword@ by {
            assert(subs[c + 1].keyword@ != subs[s].keyword@);
        }
        lemma_sub(rest, s - 1);
        assert(subs[0].keyword@ != subs[s].keyword@);
    }
}

/// Law: inside a sub-block that its scope declares, and that is no slot, the fields
/// of the sub-block hold; or those of the scope, if the sub-block goes on with them.
pub proof fn sub_blocks_are_scopes(schema: Schema, parent: ScopeView, node: NodeView, s: int)
    requires
        counts_sub(parent.sub_blocks(), s),
        key_is(node, parent.sub_blocks()[s].keyword@),
        forall|i: int|
            0 <= i < parent.slots().len() ==> (#[trigger] parent.slots()[i]).keyword@
                != parent.sub_blocks()[s].keyword@,
    ensures
        nested_scope(schema, parent, node) == if parent.sub_blocks()[s].reenters_parent {
            parent
        } else {
            ScopeView::SubBlock(parent.sub_blocks()[s])
        },
{
    let k = choose|k: int|
        #[trigger] key_at(node, k) && leaf_at(node, k).text == parent.sub_blocks()[s].keyword@;
    head_word_is_the_key(node, k);
    lemma_sub(parent.sub_blocks(), s);
}

pub proof fn lemma_nodes(children: Seq<ElementView>, node: NodeView)
    ensures
        child_nodes(children).contains(node) <==> exists|i: int|
            0 <= i < children.len() && #[trigger] children[i] == ElementView::Node(node),
    decreases children.len(),
{
    if children.len() > 0 {
        let rest = children.drop_last();
        let before = child_nodes(rest);
        let all = child_nodes(children);
        lemma_nodes(rest, node);
        assert(children.last() == children[children.len() - 1]);
        if before.contains(node) {
            let j = choose|j: int| 0 <= j < before.len() && before[j] == node;
            assert(all[j] == node);
            let i = choose|i: int|
                0 <= i < rest.len() && #[trigger] rest[i] == ElementView::Node(node);
            assert(children[i] == rest[i]);
        } else if all.contains(node) {
            let j = choose|j: int| 0 <= j < all.len() && all[j] == node;
            if j < before.len() {
                assert(before[j] == node);
            }
        }
        if exists|i: int|
            0 <= i < children.len() && #[trigger] children[i] == ElementView::Node(node) {
            let i = choose|i: int|
                0 <= i < children.len() && #[trigger] children[i] == ElementView::Node(node);
            if i < rest.len() {
                assert(rest[i] == children[i]);
            } else {
                assert(all[before.len() as int] == node);
            }
        }
    }
}

/// A node holds a line with this key.
pub open spec fn has_line(node: NodeView, key: Seq<char>) -> bool {
    exists|line: NodeView| #[trigger]
        holds_node(node, line) && line.kind == SyntaxKind::FIELD && key_is(line, key)
}

proof fn lemma_key_of(line: NodeView, key: Seq<char>)
    ensures
        key_is(line, key) <==> line.head_word() is Some && line.head_word()->0.text == key,
{
    if key_is(line, key) {
        let k = choose|k: int| #[trigger] key_at(line, k) && leaf_at(line, k).text == key;
        head_word_is_the_key(line, k);
    }
    if line.head_word() is Some {
        let k = head_word_has_a_place(line);
        assert(key_at(line, k));
    }
}

proof fn lemma_has_field(nodes: Seq<NodeView>, name: Seq<char>)
    ensures
        has_field(nodes, name) <==> exists|i: int|
            0 <= i < nodes.len() && (#[trigger] nodes[i]).kind == SyntaxKind::FIELD && key_is(
                nodes[i],
                name,
            ),
    decreases nodes.len(),
{
    if nodes.len() > 0 {
        let rest = nodes.drop_last();
        let n = nodes.len() - 1;
        lemma_has_field(rest, name);
        lemma_key_of(nodes[n], name);
        if has_field(rest, name) {
            let i = choose|i: int|
                0 <= i < rest.len() && (#[trigger] rest[i]).kind == SyntaxKind::FIELD && key_is(
                    rest[i],
                    name,
                );
            assert(nodes[i] == rest[i]);
        }
        if exists|i: int|
            0 <= i < nodes.len() && (#[trigger] nodes[i]).kind == SyntaxKind::FIELD && key_is(
                nodes[i],
                name,
            ) {
            let i = choose|i: int|
                0 <= i < nodes.len() && (#[trigger] nodes[i]).kind == SyntaxKind::FIELD && key_is(
                    nodes[i],
                    name,
                );
            if i < n {
                assert(rest[i] == nodes[i]);
            }
        }
    }
}

proof fn lemma_has_line(node: NodeView, key: Seq<char>)
    ensures
        has_line(node, key) == has_field(node.nodes(), key),
{
    let nodes = node.nodes();
    lemma_has_field(nodes, key);
    if has_line(node, key) {
        let line = choose|line: NodeView| #[trigger]
            holds_node(node, line) && line.kind == SyntaxKind::FIELD && key_is(line, key);
        lemma_nodes(node.children, line);
        let i = choose|i: int| 0 <= i < nodes.len() && nodes[i] == line;
        assert(nodes[i].kind == SyntaxKind::FIELD);
    }
    if has_field(nodes, key) {
        let i = choose|i: int|
            0 <= i < nodes.len() && (#[trigger] nodes[i]).kind == SyntaxKind::FIELD && key_is(
                nodes[i],
                key,
            );
        assert(nodes.contains(nodes[i]));
        lemma_nodes(node.children, nodes[i]);
        assert(holds_node(node, nodes[i]));
    }
}

/// Law: a set of weapons without a line of conditions is reported on its keyword, and
/// no other sub-block is.
pub proof fn weapon_sets_need_conditions(
    node: NodeView,
    sub: SubBlock,
    k: int,
    st: WalkView,
)
    requires
        key_at(node, k),
    ensures
        ({
            let after = condition_step(node, ScopeView::SubBlock(sub), st);
            &&& after.tags == st.tags
            &&& if sub.keyword@ == "WeaponSet"@ && !has_line(node, "Conditions"@) {
                adds_one(
                    st.out,
                    after.out,
                    leaf_at(node, k),
                    Severity::Warning,
                    "missing-condition"@,
                )
            } else {
                after.out == st.out
            }
        }),
{
    head_word_is_the_key(node, k);
    lemma_has_line(node, "Conditions"@);
    let after = condition_step(node, ScopeView::SubBlock(sub), st);
    assert(after.out.take(st.out.len() as int) =~= st.out);
}

// ---------------------------------------------------------------------------
// Sets that an upgrade chooses
// ---------------------------------------------------------------------------
/// A set needs the upgrade of its player: one of its conditions says so, the token.
pub open spec fn needs_upgrade(set: NodeView, token: LeafView) -> bool {
    exists|line: NodeView, i: int|
        #![trigger holds_node(set, line), value_at(line, i)]
        holds_node(set, line) && line.kind == SyntaxKind::FIELD && key_is(line, "Conditions"@)
            && value_at(line, i) && leaf_at(line, i) == token && lower(
            unsigned_flag(token.text, false),
        ) == lower("PLAYER_UPGRADE"@)
}

proof fn lemma_condition_in(tokens: Seq<LeafView>, cond: Seq<char>)
    ensures
        condition_in(tokens, cond) is Some <==> exists|i: int|
            0 <= i < tokens.len() && lower(unsigned_flag((#[trigger] tokens[i]).text, false))
                == lower(cond),
        condition_in(tokens, cond) matches Some(token) ==> tokens.contains(token) && lower(
            unsigned_flag(token.text, false),
        ) == lower(cond),
    decreases tokens.len(),
{
    if tokens.len() > 0 {
        let rest = tokens.drop_last();
        let n = tokens.len() - 1;
        lemma_condition_in(rest, cond);
        if let Some(token) = condition_in(rest, cond) {
            let i = choose|i: int| 0 <= i < rest.len() && rest[i] == token;
            assert(tokens[i] == token);
            assert(lower(unsigned_flag(tokens[i].text, false)) == lower(cond));
        } else {
            if exists|i: int|
                0 <= i < tokens.len() && lower(unsigned_flag((#[trigger] tokens[i]).text, false))
                    == lower(cond) {
                let i = choose|i: int|
                    0 <= i < tokens.len() && lower(
                        unsigned_flag((#[trigger] tokens[i]).text, false),
                    ) == lower(cond);
                if i < n {
                    assert(rest[i] == tokens[i]);
                }
            }
            assert(tokens[n] == tokens.last());
        }
    }
}

proof fn lemma_direct_condition(nodes: Seq<NodeView>, cond: Seq<char>)
    ensures
        direct_condition(nodes, cond) is Some <==> exists|i: int|
            0 <= i < nodes.len() && (#[trigger] nodes[i]).kind == SyntaxKind::FIELD && key_is(
                nodes[i],
                "Conditions"@,
            ) && condition_in(nodes[i].values(), cond) is Some,
        direct_condition(nodes, cond) matches Some(token) ==> exists|i: int|
            0 <= i < nodes.len() && (#[trigger] nodes[i]).kind == SyntaxKind::FIELD && key_is(
                nodes[i],
                "Conditions"@,
            ) && condition_in(nodes[i].values(), cond) == Some(token),
    decreases nodes.len(),
{
    if nodes.len() > 0 {
        let rest = nodes.drop_last();
        let n = nodes.len() - 1;
        lemma_direct_condition(rest, cond);
        lemma_key_of(nodes[n], "Conditions"@);
        if let Some(token) = direct_condition(rest, cond) {
            let i = choose|i: int|
                0 <= i < rest.len() && (#[trigger] rest[i]).kind == SyntaxKind::FIELD && key_is(
                    rest[i],
                    "Conditions"@,
                ) && condition_in(rest[i].values(), cond) == Some(token);
            assert(nodes[i] == rest[i]);
        } else {
            if exists|i: int|
                0 <= i < nodes.len() && (#[trigger] nodes[i]).kind == SyntaxKind::FIELD && key_is(
                    nodes[i],
                    "Conditions"@,
                ) && condition_in(nodes[i].values(), cond) is Some {
                let i = choose|i: int|
                    0 <= i < nodes.len() && (#[trigger] nodes[i]).kind == SyntaxKind::FIELD
                        && key_is(nodes[i], "Conditions"@) && condition_in(nodes[i].values(), cond)
                        is Some;
                if i < n {
                    assert(rest[i] == nodes[i]);
                }
            }
            if let Some(token) = direct_condition(nodes, cond) {
                assert(nodes[n].kind == SyntaxKind::FIELD);
            }
        }
    }
}

proof fn lemma_needs_upgrade(set: NodeView)
    ensures
        direct_condition(set.nodes(), "PLAYER_UPGRADE"@) is Some <==> exists|token: LeafView|
            #[trigger] needs_upgrade(set, token),
        direct_condition(set.nodes(), "PLAYER_UPGRADE"@) matches Some(token) ==> needs_upgrade(
            set,
            token,
        ),
{
    let nodes = set.nodes();
    let cond = "PLAYER_UPGRADE"@;
    lemma_direct_condition(nodes, cond);
    if let Some(token) = direct_condition(nodes, cond) {
        let n = choose|i: int|
            0 <= i < nodes.len() && (#[trigger] nodes[i]).kind == SyntaxKind::FIELD && key_is(
                nodes[i],
                "Conditions"@,
            ) && condition_in(nodes[i].values(), cond) == Some(token);
        let line = nodes[n];
        assert(nodes.contains(line));
        lemma_nodes(set.children, line);
        lemma_condition_in(line.values(), cond);
        let p = choose|p: int| 0 <= p < line.values().len() && line.values()[p] == token;
        let i = values_follow_the_key(line, p);
        assert(holds_node(set, line) && value_at(line, i));
        assert(needs_upgrade(set, token));
    }
    if exists|token: LeafView| #[trigger] needs_upgrade(set, token) {
        let token = choose|token: LeafView| #[trigger] needs_upgrade(set, token);
        let (line, i) = choose|line: NodeView, i: int|
            #![trigger holds_node(set, line), value_at(line, i)]
            holds_node(set, line) && line.kind == SyntaxKind::FIELD && key_is(line, "Conditions"@)
                && value_at(line, i) && leaf_at(line, i) == token && lower(
                unsigned_flag(token.text, false),
            ) == lower("PLAYER_UPGRADE"@);
        let p = values_hold_what_follows_the_key(line, i);
        lemma_condition_in(line.values(), cond);
        assert(lower(unsigned_flag(line.values()[p].text, false)) == lower(cond));
        lemma_nodes(set.children, line);
        let n = choose|n: int| 0 <= n < nodes.len() && nodes[n] == line;
        assert(nodes[n].kind == SyntaxKind::FIELD);
    }
}

/// A node is a module or a set, under a key.
pub open spec fn is_part(node: NodeView, key: Seq<char>) -> bool {
    node.kind == SyntaxKind::MODULE && key_is(node, key)
}

/// An object only adds to another: it adds, replaces or removes modules.
pub open spec fn is_patch(object: NodeView) -> bool {
    ||| has_line(object, "RemoveModule"@)
    ||| exists|part: NodeView| #[trigger]
        holds_node(object, part) && (is_part(part, "AddModule"@) || is_part(
            part,
            "ReplaceModule"@,
        ))
}

/// A node is a set of weapons (or of armor) that the upgrade chooses.
pub open spec fn is_upgrade_set(object: NodeView, weapon: bool, set: NodeView) -> bool {
    &&& holds_node(object, set)
    &&& is_part(
        set,
        if weapon {
            "WeaponSet"@
        } else {
            "ArmorSet"@
        },
    )
    &&& exists|token: LeafView| #[trigger] needs_upgrade(set, token)
}

/// An object has a set of weapons (or of armor) that the upgrade chooses.
pub open spec fn has_upgrade_set(object: NodeView, weapon: bool) -> bool {
    exists|set: NodeView| #[trigger] is_upgrade_set(object, weapon, set)
}

/// An object has a module, by this name.
pub open spec fn has_module(object: NodeView, name: LeafView) -> bool {
    exists|module: NodeView| #[trigger] holds_node(object, module) && names_module(module, name)
}

/// An object has a module that lets the upgrade choose sets.
pub open spec fn has_chooser(object: NodeView, weapon: bool) -> bool {
    exists|name: LeafView| #[trigger] has_module(object, name) && chooses(name.text, weapon)
}

/// Modules that let the upgrade choose sets of weapons or of armor.
pub open spec fn chooses(name: Seq<char>, weapon: bool) -> bool {
    if weapon {
        ||| name == "WeaponSetUpgrade"@
        ||| name == "TransportContain"@
        ||| name == "HelixContain"@
        ||| name == "InternetHackContain"@
        ||| name == "OverlordContain"@
        ||| name == "RailedTransportContain"@
        ||| name == "RiderChangeContain"@
    } else {
        name == "ArmorUpgrade"@
    }
}

proof fn lemma_sets_of(nodes: Seq<NodeView>, patch: bool)
    ensures
        ({
            let found = sets_of(nodes, patch);
            &&& found.patch == (patch || exists|i: int|
                0 <= i < nodes.len() && (is_part(#[trigger] nodes[i], "AddModule"@) || is_part(
                    nodes[i],
                    "ReplaceModule"@,
                )))
            &&& forall|weapon: bool, token: LeafView|
                #[trigger] found.sets.contains((weapon, token)) <==> exists|i: int|
                    0 <= i < nodes.len() && is_part(
                        #[trigger] nodes[i],
                        if weapon {
                            "WeaponSet"@
                        } else {
                            "ArmorSet"@
                        },
                    ) && direct_condition(nodes[i].nodes(), "PLAYER_UPGRADE"@) == Some(token)
            &&& forall|name: LeafView|
                #[trigger] found.modules.contains(name) <==> exists|i: int|
                    0 <= i < nodes.len() && names_module(#[trigger] nodes[i], name)
        }),
    decreases nodes.len(),
{
    lemma_keywords_differ();
    let found = sets_of(nodes, patch);
    if nodes.len() > 0 {
        let rest = nodes.drop_last();
        let last = nodes.last();
        let n = nodes.len() - 1;
        let before = sets_of(rest, patch);
        lemma_sets_of(rest, patch);
        lemma_key_of(last, "AddModule"@);
        lemma_key_of(last, "ReplaceModule"@);
        lemma_key_of(last, "WeaponSet"@);
        lemma_key_of(last, "ArmorSet"@);
        assert(nodes[n] == last);
        if before.patch && !patch {
            let i = choose|i: int|
                0 <= i < rest.len() && (is_part(#[trigger] rest[i], "AddModule"@) || is_part(
                    rest[i],
                    "ReplaceModule"@,
                ));
            assert(nodes[i] == rest[i]);
        }
        if exists|i: int|
            0 <= i < nodes.len() && (is_part(#[trigger] nodes[i], "AddModule"@) || is_part(
                nodes[i],
                "ReplaceModule"@,
            )) {
            let i = choose|i: int|
                0 <= i < nodes.len() && (is_part(#[trigger] nodes[i], "AddModule"@) || is_part(
                    nodes[i],
                    "ReplaceModule"@,
                ));
            if i < n {
                assert(rest[i] == nodes[i]);
            }
        }
        assert forall|weapon: bool, token: LeafView|
            #[trigger] found.sets.contains((weapon, token)) <==> exists|i: int|
                0 <= i < nodes.len() && is_part(
                    #[trigger] nodes[i],
                    if weapon {
                        "WeaponSet"@
                    } else {
                        "ArmorSet"@
                    },
                ) && direct_condition(nodes[i].nodes(), "PLAYER_UPGRADE"@) == Some(token) by {
            let key = if weapon {
                "WeaponSet"@
            } else {
                "ArmorSet"@
            };
            let old = before.sets.contains((weapon, token));
            if old {
                let j = choose|j: int| 0 <= j < before.sets.len() && before.sets[j] == (
                    weapon,
                    token,
                );
                assert(found.sets[j] == (weapon, token));
                let i = choose|i: int|
                    0 <= i < rest.len() && is_part(#[trigger] rest[i], key) && direct_condition(
                        rest[i].nodes(),
                        "PLAYER_UPGRADE"@,
                    ) == Some(token);
                assert(nodes[i] == rest[i]);
            } else {
                if found.sets.contains((weapon, token)) {
                    let j = choose|j: int| 0 <= j < found.sets.len() && found.sets[j] == (
                        weapon,
                        token,
                    );
                    if j < before.sets.len() {
                        assert(before.sets[j] == found.sets[j]);
                    }
                    assert(is_part(nodes[n], key));
                }
                if exists|i: int|
                    0 <= i < nodes.len() && is_part(#[trigger] nodes[i], key) && direct_condition(
                        nodes[i].nodes(),
                        "PLAYER_UPGRADE"@,
                    ) == Some(token) {
                    let i = choose|i: int|
                        0 <= i < nodes.len() && is_part(#[trigger] nodes[i], key)
                            && direct_condition(nodes[i].nodes(), "PLAYER_UPGRADE"@) == Some(token);
                    if i < n {
                        assert(is_part(rest[i], key));
                    }
                    assert(found.sets[before.sets.len() as int] == (weapon, token));
                }
            }
        }
        assert forall|name: LeafView| #[trigger] found.modules.contains(name) <==> exists|i: int|
            0 <= i < nodes.len() && names_module(#[trigger] nodes[i], name) by {
            if before.modules.contains(name) {
                let j = choose|j: int| 0 <= j < before.modules.len() && before.modules[j] == name;
                assert(found.modules[j] == name);
                let i = choose|i: int| 0 <= i < rest.len() && names_module(#[trigger] rest[i], name);
                assert(nodes[i] == rest[i]);
            } else {
                if found.modules.contains(name) {
                    let j = choose|j: int| 0 <= j < found.modules.len() && found.modules[j] == name;
                    if j < before.modules.len() {
                        assert(before.modules[j] == name);
                    }
                    assert(names_module(nodes[n], name));
                }
                if exists|i: int| 0 <= i < nodes.len() && names_module(#[trigger] nodes[i], name) {
                    let i = choose|i: int|
                        0 <= i < nodes.len() && names_module(#[trigger] nodes[i], name);
                    if i < n {
                        assert(names_module(rest[i], name));
                    }
                    assert(found.modules[before.modules.len() as int] == name);
                }
            }
        }
    }
}

/// A node is a module of an object, by this name.
pub open spec fn names_module(node: NodeView, name: LeafView) -> bool {
    &&& node.kind == SyntaxKind::MODULE
    &&& node.head_word() is Some
    &&& node.after_equals(0) == Some(name)
    &&& !is_part(node, "AddModule"@)
    &&& !is_part(node, "ReplaceModule"@)
    &&& !is_part(node, "WeaponSet"@)
    &&& !is_part(node, "ArmorSet"@)
}

proof fn lemma_keywords_differ()
    ensures
        "AddModule"@ != "WeaponSet"@,
        "AddModule"@ != "ArmorSet"@,
        "ReplaceModule"@ != "WeaponSet"@,
        "ReplaceModule"@ != "ArmorSet"@,
        "WeaponSet"@ != "ArmorSet"@,
        "WeaponSetUpgrade"@ != "ArmorUpgrade"@,
{
    reveal_strlit("AddModule");
    reveal_strlit("ReplaceModule");
    reveal_strlit("WeaponSet");
    reveal_strlit("ArmorSet");
    reveal_strlit("WeaponSetUpgrade");
    reveal_strlit("ArmorUpgrade");
    assert("AddModule"@[0] != "WeaponSet"@[0]);
    assert("AddModule"@[1] != "ArmorSet"@[1]);
    assert("ReplaceModule"@[0] != "WeaponSet"@[0]);
    assert("ReplaceModule"@[0] != "ArmorSet"@[0]);
    assert("WeaponSet"@[0] != "ArmorSet"@[0]);
    assert("WeaponSetUpgrade"@[0] != "ArmorUpgrade"@[0]);
}

/// A finding of a list is on a token, as a set or an upgrade that has no effect.
pub open spec fn is_unreachable(found: Seq<DiagnosticView>, token: LeafView) -> bool {
    exists|d: DiagnosticView| #[trigger]
        found.contains(d) && is_on(d, token, Severity::Warning, "unreachable-set"@)
}

proof fn lemma_dead_sets(
    modules: Seq<LeafView>,
    sets: Seq<(bool, LeafView)>,
    acc: Seq<DiagnosticView>,
)
    ensures
        ({
            let all = dead_sets(modules, sets, acc);
            &&& grows(acc, all)
            &&& forall|i: int|
                0 <= i < sets.len() && !has_trigger(modules, (#[trigger] sets[i]).0)
                    ==> is_unreachable(all, sets[i].1)
            &&& forall|d: DiagnosticView| #[trigger]
                all.contains(d) ==> acc.contains(d) || exists|i: int|
                    0 <= i < sets.len() && !has_trigger(modules, (#[trigger] sets[i]).0) && is_on(
                        d,
                        sets[i].1,
                        Severity::Warning,
                        "unreachable-set"@,
                    )
        }),
    decreases sets.len(),
{
    let all = dead_sets(modules, sets, acc);
    if sets.len() == 0 {
        assert(acc.take(acc.len() as int) =~= acc);
    } else {
        let rest = sets.drop_last();
        let n = sets.len() - 1;
        let before = dead_sets(modules, rest, acc);
        lemma_dead_sets(modules, rest, acc);
        assert forall|i: int| 0 <= i < acc.len() implies all[i] == #[trigger] acc[i] by {
            assert(before.take(acc.len() as int)[i] == before[i]);
        }
        assert(all.take(acc.len() as int) =~= acc);
        assert forall|i: int|
            0 <= i < sets.len() && !has_trigger(modules, (#[trigger] sets[i]).0) implies is_unreachable(
            all,
            sets[i].1,
        ) by {
            if i < n {
                assert(rest[i] == sets[i]);
                let d = choose|d: DiagnosticView| #[trigger]
                    before.contains(d) && is_on(
                        d,
                        sets[i].1,
                        Severity::Warning,
                        "unreachable-set"@,
                    );
                let j = choose|j: int| 0 <= j < before.len() && before[j] == d;
                assert(all[j] == d);
                assert(all.contains(d));
            } else {
                let d = all[before.len() as int];
                assert(all.contains(d));
                assert(is_on(d, sets[i].1, Severity::Warning, "unreachable-set"@));
            }
        }
        assert forall|d: DiagnosticView| #[trigger] all.contains(d) implies acc.contains(d)
            || exists|i: int|
            0 <= i < sets.len() && !has_trigger(modules, (#[trigger] sets[i]).0) && is_on(
                d,
                sets[i].1,
                Severity::Warning,
                "unreachable-set"@,
            ) by {
            let j = choose|j: int| 0 <= j < all.len() && all[j] == d;
            if j < before.len() {
                assert(before[j] == d);
                assert(before.contains(d));
                if !acc.contains(d) {
                    let i = choose|i: int|
                        0 <= i < rest.len() && !has_trigger(modules, (#[trigger] rest[i]).0)
                            && is_on(d, rest[i].1, Severity::Warning, "unreachable-set"@);
                    assert(sets[i] == rest[i]);
                }
            } else {
                assert(!has_trigger(modules, sets[n].0));
            }
        }
    }
}

/// A module is an upgrade that no set of its object needs.
spec fn is_idle(name: LeafView, sets: Seq<(bool, LeafView)>) -> bool {
    ||| name.text == "WeaponSetUpgrade"@ && !has_set(sets, true)
    ||| name.text == "ArmorUpgrade"@ && !has_set(sets, false)
}

proof fn lemma_idle(
    modules: Seq<LeafView>,
    sets: Seq<(bool, LeafView)>,
    acc: Seq<DiagnosticView>,
)
    ensures
        ({
            let all = idle_upgrades(modules, sets, acc);
            &&& grows(acc, all)
            &&& forall|i: int|
                0 <= i < modules.len() && is_idle(#[trigger] modules[i], sets) ==> is_unreachable(
                    all,
                    modules[i],
                )
            &&& forall|d: DiagnosticView| #[trigger]
                all.contains(d) ==> acc.contains(d) || exists|i: int|
                    0 <= i < modules.len() && is_idle(#[trigger] modules[i], sets) && is_on(
                        d,
                        modules[i],
                        Severity::Warning,
                        "unreachable-set"@,
                    )
        }),
    decreases modules.len(),
{
    let all = idle_upgrades(modules, sets, acc);
    if modules.len() == 0 {
        assert(acc.take(acc.len() as int) =~= acc);
    } else {
        let rest = modules.drop_last();
        let n = modules.len() - 1;
        let before = idle_upgrades(rest, sets, acc);
        lemma_idle(rest, sets, acc);
        assert forall|i: int| 0 <= i < acc.len() implies all[i] == #[trigger] acc[i] by {
            assert(before.take(acc.len() as int)[i] == before[i]);
        }
        assert(all.take(acc.len() as int) =~= acc);
        assert forall|i: int|
            0 <= i < modules.len() && is_idle(#[trigger] modules[i], sets) implies is_unreachable(
            all,
            modules[i],
        ) by {
            if i < n {
                assert(rest[i] == modules[i]);
                let d = choose|d: DiagnosticView| #[trigger]
                    before.contains(d) && is_on(
                        d,
                        modules[i],
                        Severity::Warning,
                        "unreachable-set"@,
                    );
                let j = choose|j: int| 0 <= j < before.len() && before[j] == d;
                assert(all[j] == d);
                assert(all.contains(d));
            } else {
                let d = all[before.len() as int];
                assert(all.contains(d));
                assert(is_on(d, modules[i], Severity::Warning, "unreachable-set"@));
            }
        }
        assert forall|d: DiagnosticView| #[trigger] all.contains(d) implies acc.contains(d)
            || exists|i: int|
            0 <= i < modules.len() && is_idle(#[trigger] modules[i], sets) && is_on(
                d,
                modules[i],
                Severity::Warning,
                "unreachable-set"@,
            ) by {
            let j = choose|j: int| 0 <= j < all.len() && all[j] == d;
            if j < before.len() {
                assert(before[j] == d);
                assert(before.contains(d));
                if !acc.contains(d) {
                    let i = choose|i: int|
                        0 <= i < rest.len() && is_idle(#[trigger] rest[i], sets) && is_on(
                            d,
                            rest[i],
                            Severity::Warning,
                            "unreachable-set"@,
                        );
                    assert(modules[i] == rest[i]);
                }
            } else {
                assert(is_idle(modules[n], sets));
            }
        }
    }
}

proof fn lemma_part_places(object: NodeView, node: NodeView)
    ensures
        holds_node(object, node) <==> object.nodes().contains(node),
{
    lemma_nodes(object.children, node);
}

proof fn lemma_object(object: NodeView)
    ensures
        ({
            let found = sets_of(object.nodes(), has_field(object.nodes(), "RemoveModule"@));
            &&& found.patch == is_patch(object)
            &&& forall|name: LeafView| #[trigger]
                found.modules.contains(name) <==> has_module(object, name)
            &&& forall|weapon: bool| #[trigger]
                has_set(found.sets, weapon) <==> has_upgrade_set(object, weapon)
            &&& forall|weapon: bool| #[trigger]
                has_trigger(found.modules, weapon) <==> has_chooser(object, weapon)
        }),
{
    let nodes = object.nodes();
    let found = sets_of(nodes, has_field(nodes, "RemoveModule"@));
    lemma_sets_of(nodes, has_field(nodes, "RemoveModule"@));
    lemma_has_line(object, "RemoveModule"@);
    assert forall|node: NodeView| #[trigger] holds_node(object, node) <==> nodes.contains(node) by {
        lemma_part_places(object, node);
    }
    if exists|i: int|
        0 <= i < nodes.len() && (is_part(#[trigger] nodes[i], "AddModule"@) || is_part(
            nodes[i],
            "ReplaceModule"@,
        )) {
        let i = choose|i: int|
            0 <= i < nodes.len() && (is_part(#[trigger] nodes[i], "AddModule"@) || is_part(
                nodes[i],
                "ReplaceModule"@,
            ));
        assert(nodes.contains(nodes[i]));
        assert(holds_node(object, nodes[i]));
    }
    if is_patch(object) && !has_line(object, "RemoveModule"@) {
        let part = choose|part: NodeView| #[trigger]
            holds_node(object, part) && (is_part(part, "AddModule"@) || is_part(
                part,
                "ReplaceModule"@,
            ));
        let i = choose|i: int| 0 <= i < nodes.len() && nodes[i] == part;
        assert(is_part(nodes[i], "AddModule"@) || is_part(nodes[i], "ReplaceModule"@));
    }
    assert forall|name: LeafView| #[trigger] found.modules.contains(name) <==> has_module(
        object,
        name,
    ) by {
        if found.modules.contains(name) {
            let i = choose|i: int| 0 <= i < nodes.len() && names_module(#[trigger] nodes[i], name);
            assert(nodes.contains(nodes[i]));
            assert(holds_node(object, nodes[i]));
        }
        if has_module(object, name) {
            let module = choose|module: NodeView| #[trigger]
                holds_node(object, module) && names_module(module, name);
            let i = choose|i: int| 0 <= i < nodes.len() && nodes[i] == module;
            assert(names_module(nodes[i], name));
        }
    }
    assert forall|weapon: bool| #[trigger] has_set(found.sets, weapon) <==> has_upgrade_set(
        object,
        weapon,
    ) by {
        let key = if weapon {
            "WeaponSet"@
        } else {
            "ArmorSet"@
        };
        if has_set(found.sets, weapon) {
            let j = choose|j: int| 0 <= j < found.sets.len() && (#[trigger] found.sets[j]).0
                == weapon;
            let token = found.sets[j].1;
            assert(found.sets.contains((weapon, token)));
            let i = choose|i: int|
                0 <= i < nodes.len() && is_part(#[trigger] nodes[i], key) && direct_condition(
                    nodes[i].nodes(),
                    "PLAYER_UPGRADE"@,
                ) == Some(token);
            lemma_needs_upgrade(nodes[i]);
            assert(nodes.contains(nodes[i]));
            assert(holds_node(object, nodes[i]));
            assert(is_upgrade_set(object, weapon, nodes[i]));
        }
        if has_upgrade_set(object, weapon) {
            let set = choose|set: NodeView| #[trigger] is_upgrade_set(object, weapon, set);
            lemma_needs_upgrade(set);
            let token = direct_condition(set.nodes(), "PLAYER_UPGRADE"@)->0;
            let i = choose|i: int| 0 <= i < nodes.len() && nodes[i] == set;
            assert(is_part(nodes[i], key));
            assert(found.sets.contains((weapon, token)));
            let j = choose|j: int| 0 <= j < found.sets.len() && found.sets[j] == (weapon, token);
            assert(found.sets[j].0 == weapon);
        }
    }
    assert forall|weapon: bool| #[trigger] has_trigger(found.modules, weapon) <==> has_chooser(
        object,
        weapon,
    ) by {
        if has_trigger(found.modules, weapon) {
            let i = choose|i: int|
                #![trigger found.modules[i]]
                0 <= i < found.modules.len() && chooses(found.modules[i].text, weapon);
            assert(found.modules.contains(found.modules[i]));
            assert(has_module(object, found.modules[i]));
        }
        if has_chooser(object, weapon) {
            let name = choose|name: LeafView| #[trigger]
                has_module(object, name) && chooses(name.text, weapon);
            assert(found.modules.contains(name));
            let i = choose|i: int| 0 <= i < found.modules.len() && found.modules[i] == name;
            assert(chooses(found.modules[i].text, weapon));
        }
    }
}

/// Law: a set that needs the upgrade of its player is reported, on such a condition,
/// if no module of the object lets the upgrade choose it; and an upgrade is, on its
/// name, if no set needs it. Nothing is said of an object that only adds to another.
pub proof fn dead_sets_and_idle_upgrades_are_found(object: NodeView)
    ensures
        ({
            let all = reachability_findings(object, Seq::empty());
            &&& is_patch(object) ==> all.len() == 0
            &&& !is_patch(object) ==> forall|weapon: bool, set: NodeView| #[trigger]
                is_upgrade_set(object, weapon, set) && !has_chooser(object, weapon)
                    ==> exists|token: LeafView| #[trigger]
                    needs_upgrade(set, token) && is_unreachable(all, token)
            &&& !is_patch(object) ==> forall|name: LeafView| #[trigger]
                has_module(object, name) && (name.text == "WeaponSetUpgrade"@ && !has_upgrade_set(
                    object,
                    true,
                ) || name.text == "ArmorUpgrade"@ && !has_upgrade_set(object, false))
                    ==> is_unreachable(all, name)
            &&& forall|d: DiagnosticView| #[trigger]
                all.contains(d) ==> {
                    ||| exists|weapon: bool, set: NodeView, token: LeafView|
                        #![trigger is_upgrade_set(object, weapon, set), needs_upgrade(set, token)]
                        is_upgrade_set(object, weapon, set) && !has_chooser(object, weapon)
                            && needs_upgrade(set, token) && is_on(
                            d,
                            token,
                            Severity::Warning,
                            "unreachable-set"@,
                        )
                    ||| exists|name: LeafView| #[trigger]
                        has_module(object, name) && (name.text == "WeaponSetUpgrade"@
                            && !has_upgrade_set(object, true) || name.text == "ArmorUpgrade"@
                            && !has_upgrade_set(object, false)) && is_on(
                            d,
                            name,
                            Severity::Warning,
                            "unreachable-set"@,
                        )
                }
        }),
{
    let none = Seq::<DiagnosticView>::empty();
    let nodes = object.nodes();
    let found = sets_of(nodes, has_field(nodes, "RemoveModule"@));
    let all = reachability_findings(object, none);
    let first = dead_sets(found.modules, found.sets, none);
    lemma_object(object);
    lemma_sets_of(nodes, has_field(nodes, "RemoveModule"@));
    lemma_dead_sets(found.modules, found.sets, none);
    lemma_idle(found.modules, found.sets, first);
    if !is_patch(object) {
        assert forall|weapon: bool, set: NodeView| #[trigger]
            is_upgrade_set(object, weapon, set) && !has_chooser(
                object,
                weapon,
            ) implies exists|token: LeafView| #[trigger]
            needs_upgrade(set, token) && is_unreachable(all, token) by {
            lemma_needs_upgrade(set);
            lemma_part_places(object, set);
            let token = direct_condition(set.nodes(), "PLAYER_UPGRADE"@)->0;
            let i = choose|i: int| 0 <= i < nodes.len() && nodes[i] == set;
            assert(is_part(
                nodes[i],
                if weapon {
                    "WeaponSet"@
                } else {
                    "ArmorSet"@
                },
            ));
            assert(found.sets.contains((weapon, token)));
            let j = choose|j: int| 0 <= j < found.sets.len() && found.sets[j] == (weapon, token);
            assert(!has_trigger(found.modules, found.sets[j].0));
            let d = choose|d: DiagnosticView| #[trigger]
                first.contains(d) && is_on(d, token, Severity::Warning, "unreachable-set"@);
            let h = choose|h: int| 0 <= h < first.len() && first[h] == d;
            assert(all.take(first.len() as int)[h] == all[h]);
            assert(all.contains(d));
            assert(needs_upgrade(set, token));
        }
        assert forall|name: LeafView| #[trigger]
            has_module(object, name) && (name.text == "WeaponSetUpgrade"@ && !has_upgrade_set(
                object,
                true,
            ) || name.text == "ArmorUpgrade"@ && !has_upgrade_set(
                object,
                false,
            )) implies is_unreachable(all, name) by {
            assert(found.modules.contains(name));
            let i = choose|i: int| 0 <= i < found.modules.len() && found.modules[i] == name;
            assert(has_set(found.sets, true) == has_upgrade_set(object, true));
            assert(has_set(found.sets, false) == has_upgrade_set(object, false));
            assert(is_idle(found.modules[i], found.sets));
        }
        assert forall|d: DiagnosticView| #[trigger] all.contains(d) implies {
            ||| exists|weapon: bool, set: NodeView, token: LeafView|
                #![trigger is_upgrade_set(object, weapon, set), needs_upgrade(set, token)]
                is_upgrade_set(object, weapon, set) && !has_chooser(object, weapon)
                    && needs_upgrade(set, token) && is_on(
                    d,
                    token,
                    Severity::Warning,
                    "unreachable-set"@,
                )
            ||| exists|name: LeafView| #[trigger]
                has_module(object, name) && (name.text == "WeaponSetUpgrade"@ && !has_upgrade_set(
                    object,
                    true,
                ) || name.text == "ArmorUpgrade"@ && !has_upgrade_set(object, false)) && is_on(
                    d,
                    name,
                    Severity::Warning,
                    "unreachable-set"@,
                )
        } by {
            if first.contains(d) {
                assert(!none.contains(d));
                let j = choose|j: int|
                    0 <= j < found.sets.len() && !has_trigger(
                        found.modules,
                        (#[trigger] found.sets[j]).0,
                    ) && is_on(d, found.sets[j].1, Severity::Warning, "unreachable-set"@);
                let (weapon, token) = found.sets[j];
                assert(found.sets.contains((weapon, token)));
                let i = choose|i: int|
                    0 <= i < nodes.len() && is_part(
                        #[trigger] nodes[i],
                        if weapon {
                            "WeaponSet"@
                        } else {
                            "ArmorSet"@
                        },
                    ) && direct_condition(nodes[i].nodes(), "PLAYER_UPGRADE"@) == Some(token);
                lemma_needs_upgrade(nodes[i]);
                assert(nodes.contains(nodes[i]));
                lemma_part_places(object, nodes[i]);
                assert(has_trigger(found.modules, weapon) == has_chooser(object, weapon));
                assert(is_upgrade_set(object, weapon, nodes[i]) && needs_upgrade(nodes[i], token));
            } else {
                let i = choose|i: int|
                    0 <= i < found.modules.len() && is_idle(
                        #[trigger] found.modules[i],
                        found.sets,
                    ) && is_on(d, found.modules[i], Severity::Warning, "unreachable-set"@);
                assert(found.modules.contains(found.modules[i]));
                assert(has_set(found.sets, true) == has_upgrade_set(object, true));
                assert(has_set(found.sets, false) == has_upgrade_set(object, false));
                assert(has_module(object, found.modules[i]));
            }
        }
    }
}

/// Law: what is found about the sets of an object is found about the object, unless
/// it overrides another.
pub proof fn objects_report_their_sets(env: EnvView, object: NodeView, d: DiagnosticView)
    requires
        object.kind == SyntaxKind::BLOCK,
        key_is(object, "Object"@),
        reachability_findings(object, Seq::empty()).contains(d),
    ensures
        body_findings(env, ElementView::Node(object), false).contains(d),
{
    lemma_key_of(object, "Object"@);
    let first = reachability_findings(object, Seq::empty());
    let st = WalkView { out: first, tags: Seq::empty() };
    lemma_walk_grows(env, object.children, block_scope(env.schema, object), st);
    let all = body_findings(env, ElementView::Node(object), false);
    let i = choose|i: int| 0 <= i < first.len() && first[i] == d;
    assert(all.take(first.len() as int)[i] == all[i]);
}

} // verus!
