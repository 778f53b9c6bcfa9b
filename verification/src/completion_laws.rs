//! Laws of completion: what is offered at a cursor, in terms of the line that it
//! stands on, of what the schema declares and of what the workspace defines.

use vstd::prelude::*;
use vstd::string::*;

use crate::analyzer::builtin_names_of;
use crate::check_laws::{counts_set, last_value_set_counts};
use crate::completion::{
    asset_completions, block_completions, completions_of, field_completions, key_completions,
    module_completions, named, slot_completions, sub_block_completions, type_completions,
    CompletionKind, CompletionView,
};
use crate::cursor::{
    ended_by, equals_before, last_of_kind, module_position, on_header, position_of, scope_depth,
    PosView,
};
use crate::diagnose_laws::{counts_slot, lemma_slot};
use crate::facts::{all_items, lists_name, model_names_of, FactsView, ModelView};
use crate::index::{displays, EntryView, IndexView};
use crate::kind::SyntaxKind;
use crate::layout::{
    document_tiled, extent, lemma_document_at, lemma_tiled_at, parse_tiles_the_text, tiled,
};
use crate::lines::{
    around, block_type_is, equals_at, head_word_is_the_key, holds_node, key_at, key_is, leaf_at,
    lemma_block_type, lemma_line_type, line_has_type, on_line, value_places, values_come_in_order,
};
use crate::model::{path_scope, share_name, slot_named, ScopeView};
use crate::nav_laws::{lemma_chain, lemma_document_chain};
use crate::parser::{holds_text, parse_text, ChildView, OpenerOracle};
use crate::position::{element_path, path_of, pick, pick_child, Bias, PathView};
use crate::schema::{
    BlockType, BuiltinDef, Field as FieldType, ModuleSlot, ModuleType, RefKind, Schema, SubBlock,
    ValueType,
};
use crate::semantic_laws::{lemma_line_tiled, lemma_places_differ};
use crate::set_laws::{counts_sub, lemma_sub};
use crate::text::{blen, lower, same_ignoring_case};
use crate::tree::{ElementView, LeafView, NodeView};

verus! {

/// Something with this label is offered, in this role.
pub open spec fn offers(
    items: Seq<CompletionView>,
    label: Seq<char>,
    kind: CompletionKind,
) -> bool {
    exists|i: int|
        0 <= i < items.len() && (#[trigger] items[i]).label == label && items[i].kind == kind
}

// ---------------------------------------------------------------------------
// Names
// ---------------------------------------------------------------------------
pub proof fn lemma_named(
    names: Seq<Seq<char>>,
    kind: CompletionKind,
    detail: Seq<char>,
    acc: Seq<CompletionView>,
)
    ensures
        named(names, kind, detail, acc).len() == acc.len() + names.len(),
        forall|i: int|
            0 <= i < acc.len() ==> #[trigger] named(names, kind, detail, acc)[i] == acc[i],
        forall|i: int|
            #![trigger names[i]]
            0 <= i < names.len() ==> named(names, kind, detail, acc)[acc.len() + i].label
                == names[i] && named(names, kind, detail, acc)[acc.len() + i].kind == kind
                && named(names, kind, detail, acc)[acc.len() + i].insert is None,
    decreases names.len(),
{
    if names.len() > 0 {
        lemma_named(names.drop_last(), kind, detail, acc);
        let all = named(names, kind, detail, acc);
        let rest = named(names.drop_last(), kind, detail, acc);
        assert forall|i: int|
            #![trigger names[i]]
            0 <= i < names.len() implies all[acc.len() + i].label == names[i] && all[acc.len()
            + i].kind == kind && all[acc.len() + i].insert is None by {
            if i < names.len() - 1 {
                assert(names.drop_last()[i] == names[i]);
                assert(all[acc.len() + i] == rest[acc.len() + i]);
            }
        }
        assert forall|i: int| 0 <= i < acc.len() implies #[trigger] all[i] == acc[i] by {
            assert(all[i] == rest[i]);
        }
    }
}

proof fn lemma_displays(entries: Seq<EntryView>, kind: RefKind, name: Seq<char>)
    ensures
        displays(entries, kind).contains(name) <==> exists|e: int|
            0 <= e < entries.len() && (#[trigger] entries[e]).kind == kind && entries[e].display
                == name,
    decreases entries.len(),
{
    if entries.len() > 0 {
        let rest = entries.drop_last();
        let before = displays(rest, kind);
        let all = displays(entries, kind);
        lemma_displays(rest, kind, name);
        assert(entries[entries.len() - 1] == entries.last());
        if before.contains(name) {
            let i = choose|i: int| 0 <= i < before.len() && before[i] == name;
            assert(all[i] == name);
            let e = choose|e: int|
                0 <= e < rest.len() && (#[trigger] rest[e]).kind == kind && rest[e].display == name;
            assert(entries[e] == rest[e]);
        } else if all.contains(name) {
            let i = choose|i: int| 0 <= i < all.len() && all[i] == name;
            if i < before.len() {
                assert(before[i] == name);
            }
        }
        if exists|e: int|
            0 <= e < entries.len() && (#[trigger] entries[e]).kind == kind && entries[e].display
                == name {
            let e = choose|e: int|
                0 <= e < entries.len() && (#[trigger] entries[e]).kind == kind
                    && entries[e].display == name;
            if e < rest.len() {
                assert(rest[e] == entries[e]);
            } else {
                assert(all[before.len() as int] == name);
            }
        }
    }
}

proof fn lemma_builtins(builtins: Seq<BuiltinDef>, kind: RefKind, name: Seq<char>)
    ensures
        builtin_names_of(builtins, kind).contains(name) <==> exists|b: int|
            0 <= b < builtins.len() && (#[trigger] builtins[b]).ref_kind == kind
                && builtins[b].name@ == name,
    decreases builtins.len(),
{
    if builtins.len() > 0 {
        let rest = builtins.drop_last();
        let before = builtin_names_of(rest, kind);
        let all = builtin_names_of(builtins, kind);
        lemma_builtins(rest, kind, name);
        assert(builtins[builtins.len() - 1] == builtins.last());
        if before.contains(name) {
            let i = choose|i: int| 0 <= i < before.len() && before[i] == name;
            assert(all[i] == name);
            let b = choose|b: int|
                0 <= b < rest.len() && (#[trigger] rest[b]).ref_kind == kind && rest[b].name@
                    == name;
            assert(builtins[b] == rest[b]);
        } else if all.contains(name) {
            let i = choose|i: int| 0 <= i < all.len() && all[i] == name;
            if i < before.len() {
                assert(before[i] == name);
            }
        }
        if exists|b: int|
            0 <= b < builtins.len() && (#[trigger] builtins[b]).ref_kind == kind
                && builtins[b].name@ == name {
            let b = choose|b: int|
                0 <= b < builtins.len() && (#[trigger] builtins[b]).ref_kind == kind
                    && builtins[b].name@ == name;
            if b < rest.len() {
                assert(rest[b] == builtins[b]);
            } else {
                assert(all[before.len() as int] == name);
            }
        }
    }
}

/// The workspace defines a name as a definition of a kind.
pub open spec fn is_defined_as(index: Option<IndexView>, kind: RefKind, name: Seq<char>) -> bool {
    index is Some && exists|e: int|
        0 <= e < index->0.entries.len() && (#[trigger] index->0.entries[e]).kind == kind
            && index->0.entries[e].display == name
}

/// The engine has a name as a definition of a kind.
pub open spec fn is_built_in(schema: Schema, kind: RefKind, name: Seq<char>) -> bool {
    exists|b: int|
        0 <= b < schema.builtins@.len() && (#[trigger] schema.builtins@[b]).ref_kind == kind
            && schema.builtins@[b].name@ == name
}

/// Exactly the names of a kind are offered, those that the workspace defines and
/// those that the engine has, as references that are inserted as they are.
pub open spec fn offers_names_of(
    items: Seq<CompletionView>,
    schema: Schema,
    kind: RefKind,
    index: Option<IndexView>,
) -> bool {
    &&& forall|name: Seq<char>|
        (#[trigger] is_defined_as(index, kind, name)) ==> offers(
            items,
            name,
            CompletionKind::Reference,
        )
    &&& forall|name: Seq<char>|
        (#[trigger] is_built_in(schema, kind, name)) ==> offers(
            items,
            name,
            CompletionKind::Reference,
        )
    &&& forall|i: int|
        0 <= i < items.len() ==> (#[trigger] items[i]).kind == CompletionKind::Reference
            && items[i].insert is None && (is_defined_as(index, kind, items[i].label)
            || is_built_in(schema, kind, items[i].label))
}

/// Law: where a definition of a kind is referred to, exactly the names of that kind
/// are offered.
pub proof fn references_offer_every_name(
    schema: Schema,
    kind: RefKind,
    index: Option<IndexView>,
    value_index: int,
)
    ensures
        offers_names_of(
            type_completions(schema, ValueType::Reference { ref_kind: kind }, value_index, index),
            schema,
            kind,
            index,
        ),
        offers_names_of(
            type_completions(
                schema,
                ValueType::ReferenceList { ref_kind: kind },
                value_index,
                index,
            ),
            schema,
            kind,
            index,
        ),
{
    let items = type_completions(schema, ValueType::Reference { ref_kind: kind }, value_index, index);
    let none = Seq::<CompletionView>::empty();
    let detail = crate::schema::kind_name(kind);
    let names = match index {
        Some(index) => index.names_of(kind),
        None => Seq::empty(),
    };
    let defined = named(names, CompletionKind::Reference, detail, none);
    let builtins = builtin_names_of(schema.builtins@, kind);
    let more = detail + " (engine builtin)"@;
    assert(items == named(builtins, CompletionKind::Reference, more, defined));
    lemma_named(names, CompletionKind::Reference, detail, none);
    lemma_named(builtins, CompletionKind::Reference, more, defined);
    assert forall|name: Seq<char>| #[trigger] is_defined_as(index, kind, name) implies offers(
        items,
        name,
        CompletionKind::Reference,
    ) by {
        lemma_displays(index->0.entries, kind, name);
        let i = choose|i: int| 0 <= i < names.len() && names[i] == name;
        assert(names[i] == name);
        assert(items[i] == defined[i]);
    }
    assert forall|name: Seq<char>| #[trigger] is_built_in(schema, kind, name) implies offers(
        items,
        name,
        CompletionKind::Reference,
    ) by {
        lemma_builtins(schema.builtins@, kind, name);
        let i = choose|i: int| 0 <= i < builtins.len() && builtins[i] == name;
        assert(builtins[i] == name);
        assert(items[defined.len() + i].label == name);
    }
    assert forall|i: int| 0 <= i < items.len() implies (#[trigger] items[i]).kind
        == CompletionKind::Reference && items[i].insert is None && (is_defined_as(
        index,
        kind,
        items[i].label,
    ) || is_built_in(schema, kind, items[i].label)) by {
        if i < defined.len() {
            assert(items[i] == defined[i]);
            assert(names[i] == items[i].label);
            lemma_displays(index->0.entries, kind, items[i].label);
        } else {
            let b = i - defined.len();
            assert(builtins[b] == items[i].label);
            lemma_builtins(schema.builtins@, kind, items[i].label);
        }
    }
}

/// Law: where a member of a set is asked for, one or several, the members of the set
/// are offered, in their order, and nothing else.
pub proof fn sets_offer_their_members(
    schema: Schema,
    value_set: String,
    s: int,
    index: Option<IndexView>,
    value_index: int,
)
    requires
        counts_set(schema.value_sets@, s),
        schema.value_sets@[s].id@ == value_set@,
    ensures
        ({
            let members = schema.value_sets@[s].members@;
            let one = type_completions(schema, ValueType::Enum { value_set }, value_index, index);
            let some = type_completions(
                schema,
                ValueType::BitFlags { value_set },
                value_index,
                index,
            );
            &&& one == some
            &&& one.len() == members.len()
            &&& forall|i: int|
                #![trigger members[i]]
                0 <= i < members.len() ==> one[i].label == members[i].name@ && one[i].kind
                    == CompletionKind::EnumMember && one[i].insert is None
        }),
{
    last_value_set_counts(schema.value_sets@, s);
}

/// Law: for a yes-or-no value, these two words are offered, in this order.
pub proof fn bools_offer_yes_and_no(schema: Schema, index: Option<IndexView>, value_index: int)
    ensures
        ({
            let items = type_completions(schema, ValueType::Bool, value_index, index);
            &&& items.len() == 2
            &&& items[0].label == "Yes"@ && items[1].label == "No"@
            &&& items[0].kind == CompletionKind::Value && items[1].kind == CompletionKind::Value
            &&& items[0].insert is None && items[1].insert is None
        }),
{
}

/// Law: value `p` of a sequence of types is completed as a value of its own type is.
/// Only in front of the first of several, the whole sequence is offered too.
pub proof fn sequences_offer_each_type(
    schema: Schema,
    tokens: Vec<ValueType>,
    p: int,
    index: Option<IndexView>,
)
    requires
        0 <= p,
    ensures
        ({
            let items = type_completions(schema, ValueType::TokenList { tokens }, p, index);
            if p >= tokens@.len() {
                items.len() == 0
            } else {
                let own = type_completions(schema, tokens@[p], 0, index);
                if p == 0 && tokens@.len() > 1 {
                    items.len() == own.len() + 1 && items[0].kind == CompletionKind::Value
                        && items.drop_first() == own
                } else {
                    items == own
                }
            }
        }),
{
    let items = type_completions(schema, ValueType::TokenList { tokens }, p, index);
    if p == 0 && tokens@.len() > 1 {
        assert(items.drop_first() =~= type_completions(schema, tokens@[p], 0, index));
    }
}

/// Types for which there is nothing to offer.
pub open spec fn is_free(ty: ValueType) -> bool {
    ||| ty is Int || ty is UInt || ty is Real || ty is PositiveReal || ty is AngleReal
    ||| ty is Percent || ty is Duration || ty is Velocity || ty is Acceleration
    ||| ty is AsciiString || ty is QuotedString || ty is AsciiStringList || ty is W3dModel
    ||| ty is W3dModelMember || ty is Prefixed || ty is Unknown
}

/// Law: for numbers, names and strings nothing is offered; for a color or a
/// coordinate its form is, as one item.
pub proof fn free_values_offer_nothing(
    schema: Schema,
    ty: ValueType,
    index: Option<IndexView>,
    value_index: int,
)
    ensures
        is_free(ty) ==> type_completions(schema, ty, value_index, index).len() == 0,
        ty is Color || ty is Coord2D || ty is Coord3D ==> {
            let items = type_completions(schema, ty, value_index, index);
            &&& items.len() == 1
            &&& items[0].kind == CompletionKind::Value
            &&& items[0].label == if ty is Color {
                "R: G: B:"@
            } else if ty is Coord2D {
                "X: Y:"@
            } else {
                "X: Y: Z:"@
            }
            &&& items[0].insert is Some
        },
{
}

// ---------------------------------------------------------------------------
// Keys and modules
// ---------------------------------------------------------------------------
proof fn lemma_fields(fields: Seq<FieldType>, acc: Seq<CompletionView>)
    ensures
        field_completions(fields, acc).len() == acc.len() + fields.len(),
        forall|i: int|
            0 <= i < acc.len() ==> #[trigger] field_completions(fields, acc)[i] == acc[i],
        forall|i: int|
            #![trigger fields[i]]
            0 <= i < fields.len() ==> {
                let item = field_completions(fields, acc)[acc.len() + i];
                item.label == fields[i].name@ && item.kind == CompletionKind::Field
                    && item.insert is None
            },
    decreases fields.len(),
{
    if fields.len() > 0 {
        let rest = fields.drop_last();
        lemma_fields(rest, acc);
        let all = field_completions(fields, acc);
        let before = field_completions(rest, acc);
        assert forall|i: int|
            #![trigger fields[i]]
            0 <= i < fields.len() implies {
            let item = all[acc.len() + i];
            item.label == fields[i].name@ && item.kind == CompletionKind::Field
                && item.insert is None
        } by {
            if i < rest.len() {
                assert(rest[i] == fields[i]);
                assert(all[acc.len() + i] == before[acc.len() + i]);
            }
        }
        assert forall|i: int| 0 <= i < acc.len() implies #[trigger] all[i] == acc[i] by {
            assert(all[i] == before[i]);
        }
    }
}

proof fn lemma_slots(slots: Seq<ModuleSlot>, acc: Seq<CompletionView>)
    ensures
        slot_completions(slots, acc).len() == acc.len() + slots.len(),
        forall|i: int|
            0 <= i < acc.len() ==> #[trigger] slot_completions(slots, acc)[i] == acc[i],
        forall|i: int|
            #![trigger slots[i]]
            0 <= i < slots.len() ==> {
                let item = slot_completions(slots, acc)[acc.len() + i];
                item.label == slots[i].keyword@ && item.kind == CompletionKind::Field
                    && item.insert is Some
            },
    decreases slots.len(),
{
    if slots.len() > 0 {
        let rest = slots.drop_last();
        lemma_slots(rest, acc);
        let all = slot_completions(slots, acc);
        let before = slot_completions(rest, acc);
        assert forall|i: int|
            #![trigger slots[i]]
            0 <= i < slots.len() implies {
            let item = all[acc.len() + i];
            item.label == slots[i].keyword@ && item.kind == CompletionKind::Field
                && item.insert is Some
        } by {
            if i < rest.len() {
                assert(rest[i] == slots[i]);
                assert(all[acc.len() + i] == before[acc.len() + i]);
            }
        }
        assert forall|i: int| 0 <= i < acc.len() implies #[trigger] all[i] == acc[i] by {
            assert(all[i] == before[i]);
        }
    }
}

proof fn lemma_subs(subs: Seq<SubBlock>, acc: Seq<CompletionView>)
    ensures
        sub_block_completions(subs, acc).len() == acc.len() + subs.len(),
        forall|i: int|
            0 <= i < acc.len() ==> #[trigger] sub_block_completions(subs, acc)[i] == acc[i],
        forall|i: int|
            #![trigger subs[i]]
            0 <= i < subs.len() ==> {
                let item = sub_block_completions(subs, acc)[acc.len() + i];
                item.label == subs[i].keyword@ && item.kind == CompletionKind::Block
                    && item.insert is Some
            },
    decreases subs.len(),
{
    if subs.len() > 0 {
        let rest = subs.drop_last();
        lemma_subs(rest, acc);
        let all = sub_block_completions(subs, acc);
        let before = sub_block_completions(rest, acc);
        assert forall|i: int|
            #![trigger subs[i]]
            0 <= i < subs.len() implies {
            let item = all[acc.len() + i];
            item.label == subs[i].keyword@ && item.kind == CompletionKind::Block
                && item.insert is Some
        } by {
            if i < rest.len() {
                assert(rest[i] == subs[i]);
                assert(all[acc.len() + i] == before[acc.len() + i]);
            }
        }
        assert forall|i: int| 0 <= i < acc.len() implies #[trigger] all[i] == acc[i] by {
            assert(all[i] == before[i]);
        }
    }
}

/// What can be written as a key inside a block is offered: its fields, its slots and
/// its sub-blocks, in this order, and nothing else.
pub open spec fn offers_keys(
    items: Seq<CompletionView>,
    fields: Seq<FieldType>,
    slots: Seq<ModuleSlot>,
    subs: Seq<SubBlock>,
) -> bool {
    &&& items.len() == fields.len() + slots.len() + subs.len()
    &&& forall|i: int|
        #![trigger fields[i]]
        0 <= i < fields.len() ==> items[i].label == fields[i].name@ && items[i].kind
            == CompletionKind::Field && items[i].insert is None
    &&& forall|i: int|
        #![trigger slots[i]]
        0 <= i < slots.len() ==> items[fields.len() + i].label == slots[i].keyword@
            && items[fields.len() + i].kind == CompletionKind::Field && items[fields.len()
            + i].insert is Some
    &&& forall|i: int|
        #![trigger subs[i]]
        0 <= i < subs.len() ==> items[fields.len() + slots.len() + i].label == subs[i].keyword@
            && items[fields.len() + slots.len() + i].kind == CompletionKind::Block
            && items[fields.len() + slots.len() + i].insert is Some
}

/// Law: as a key inside a block everything is offered that the block declares.
pub proof fn blocks_offer_their_keys(block: BlockType)
    ensures
        offers_keys(
            key_completions(ScopeView::Block(block)),
            block.fields@,
            block.module_slots@,
            block.sub_blocks@,
        ),
{
    lemma_keys(ScopeView::Block(block));
}

/// Law: as a key inside a module everything is offered that the module declares.
pub proof fn modules_offer_their_keys(module: ModuleType)
    ensures
        offers_keys(
            key_completions(ScopeView::Module(module)),
            module.fields@,
            Seq::empty(),
            module.sub_blocks@,
        ),
{
    lemma_keys(ScopeView::Module(module));
}

proof fn lemma_keys(scope: ScopeView)
    ensures
        offers_keys(key_completions(scope), scope.fields(), scope.slots(), scope.sub_blocks()),
{
    let none = Seq::<CompletionView>::empty();
    let (fields, slots, subs) = (scope.fields(), scope.slots(), scope.sub_blocks());
    let first = field_completions(fields, none);
    let second = slot_completions(slots, first);
    let items = key_completions(scope);
    lemma_fields(fields, none);
    lemma_slots(slots, first);
    lemma_subs(subs, second);
    assert forall|i: int|
        #![trigger fields[i]]
        0 <= i < fields.len() implies items[i].label == fields[i].name@ && items[i].kind
        == CompletionKind::Field && items[i].insert is None by {
        assert(items[i] == second[i]);
        assert(second[i] == first[i]);
    }
    assert forall|i: int|
        #![trigger slots[i]]
        0 <= i < slots.len() implies items[fields.len() + i].label == slots[i].keyword@
        && items[fields.len() + i].kind == CompletionKind::Field && items[fields.len()
        + i].insert is Some by {
        assert(items[fields.len() + i] == second[fields.len() + i]);
    }
}

/// Law: at the top of a file the blocks of the schema are offered, in their order, and
/// nothing else.
pub proof fn files_offer_every_block(blocks: Seq<BlockType>)
    ensures
        block_completions(blocks).len() == blocks.len(),
        forall|i: int|
            #![trigger blocks[i]]
            0 <= i < blocks.len() ==> block_completions(blocks)[i].label == blocks[i].name@
                && block_completions(blocks)[i].kind == CompletionKind::Block && (
            block_completions(blocks)[i].insert is Some <==> blocks[i].terminated),
{
}

/// A module can fill a slot: the slot accepts one of its interfaces, or everything.
pub open spec fn can_fill(module: ModuleType, accepts: Seq<String>) -> bool {
    accepts.len() == 0 || exists|i: int, j: int|
        #![trigger module.interfaces@[i], accepts[j]]
        0 <= i < module.interfaces@.len() && 0 <= j < accepts.len() && module.interfaces@[i]@
            == accepts[j]@
}

proof fn lemma_share(module: ModuleType, accepts: Seq<String>)
    ensures
        can_fill(module, accepts) == (accepts.len() == 0 || share_name(
            module.interfaces@,
            accepts,
        )),
{
    let own = module.interfaces@;
    if accepts.len() > 0 {
        if can_fill(module, accepts) {
            let (i, j) = choose|i: int, j: int|
                #![trigger module.interfaces@[i], accepts[j]]
                0 <= i < module.interfaces@.len() && 0 <= j < accepts.len()
                    && module.interfaces@[i]@ == accepts[j]@;
            assert(accepts[j]@ == own[i]@);
            assert(holds_text(accepts, own[i]@));
        }
        if share_name(own, accepts) {
            let i = choose|i: int| 0 <= i < own.len() && holds_text(accepts, #[trigger] own[i]@);
            let j = choose|j: int| 0 <= j < accepts.len() && (#[trigger] accepts[j])@ == own[i]@;
            assert(module.interfaces@[i]@ == accepts[j]@);
        }
    }
}

/// Law: in a slot exactly the modules are offered that can fill it.
pub proof fn slots_offer_fitting_modules(
    modules: Seq<ModuleType>,
    accepts: Seq<String>,
    name: Seq<char>,
)
    ensures
        ({
            let items = module_completions(modules, accepts);
            &&& offers(items, name, CompletionKind::Module) <==> exists|m: int|
                0 <= m < modules.len() && (#[trigger] modules[m]).name@ == name && can_fill(
                    modules[m],
                    accepts,
                )
            &&& forall|i: int|
                0 <= i < items.len() ==> (#[trigger] items[i]).kind == CompletionKind::Module
                    && items[i].insert is Some
        }),
    decreases modules.len(),
{
    let items = module_completions(modules, accepts);
    if modules.len() > 0 {
        let rest = modules.drop_last();
        let last = modules.last();
        let before = module_completions(rest, accepts);
        slots_offer_fitting_modules(rest, accepts, name);
        lemma_share(last, accepts);
        assert(modules[modules.len() - 1] == last);
        if offers(before, name, CompletionKind::Module) {
            let i = choose|i: int|
                0 <= i < before.len() && (#[trigger] before[i]).label == name && before[i].kind
                    == CompletionKind::Module;
            assert(items[i] == before[i]);
            let m = choose|m: int|
                0 <= m < rest.len() && (#[trigger] rest[m]).name@ == name && can_fill(
                    rest[m],
                    accepts,
                );
            assert(modules[m] == rest[m]);
        } else if offers(items, name, CompletionKind::Module) {
            let i = choose|i: int|
                0 <= i < items.len() && (#[trigger] items[i]).label == name && items[i].kind
                    == CompletionKind::Module;
            if i < before.len() {
                assert(before[i] == items[i]);
            }
        }
        if exists|m: int|
            0 <= m < modules.len() && (#[trigger] modules[m]).name@ == name && can_fill(
                modules[m],
                accepts,
            ) {
            let m = choose|m: int|
                0 <= m < modules.len() && (#[trigger] modules[m]).name@ == name && can_fill(
                    modules[m],
                    accepts,
                );
            if m < rest.len() {
                assert(rest[m] == modules[m]);
            } else {
                assert(items[before.len() as int].label == name);
            }
        }
        assert forall|i: int| 0 <= i < items.len() implies (#[trigger] items[i]).kind
            == CompletionKind::Module && items[i].insert is Some by {
            if i < before.len() {
                assert(items[i] == before[i]);
            }
        }
    }
}

// ---------------------------------------------------------------------------
// At the cursor
// ---------------------------------------------------------------------------
proof fn lemma_pick_left(elements: Seq<ElementView>, start: int, end: int, at: int, i: int, j: int)
    requires
        tiled(elements, start, end),
        0 <= j <= i < elements.len(),
        extent(elements[i]).0 < at <= extent(elements[i]).1,
    ensures
        pick(elements, at, Bias::Left, j) == i,
    decreases i - j,
{
    if j < i {
        lemma_chain(elements, start, end, j, i);
        lemma_pick_left(elements, start, end, at, i, j + 1);
    }
}

proof fn lemma_pick_child_left(children: Seq<ChildView>, end: int, at: int, i: int, j: int)
    requires
        document_tiled(children, end),
        0 <= j <= i < children.len(),
        children[i].offset < at <= children[i].offset + extent(children[i].element).1,
    ensures
        pick_child(children, at, Bias::Left, j) == i,
    decreases i - j,
{
    if j < i {
        lemma_document_chain(children, end, j, i);
        lemma_pick_child_left(children, end, at, i, j + 1);
    }
}

proof fn lemma_in_child_left(parent: NodeView, i: int, at: int, acc: PathView)
    requires
        tiled(parent.children, parent.start, parent.end),
        0 <= i < parent.children.len(),
        extent(parent.children[i]).0 < at <= extent(parent.children[i]).1,
    ensures
        element_path(ElementView::Node(parent), at, Bias::Left, acc) == element_path(
            parent.children[i],
            at,
            Bias::Left,
            PathView { nodes: acc.nodes.push(parent), ..acc },
        ),
{
    lemma_pick_left(parent.children, parent.start, parent.end, at, i, 0);
}

/// The cursor stands in or behind token `i` of a line.
pub open spec fn cursor_in(children: Seq<ChildView>, c: int, node: NodeView, i: int, cursor: int) -> bool {
    &&& on_line(node, i)
    &&& children[c].offset + leaf_at(node, i).start < cursor <= children[c].offset + leaf_at(
        node,
        i,
    ).end
}

proof fn lemma_cursor_line<O: OpenerOracle>(
    oracle: O,
    text: Seq<char>,
    schema: Schema,
    c: int,
    block: NodeView,
    inner: Option<NodeView>,
    line: NodeView,
    ty: ValueType,
    i: int,
    cursor: int,
)
    requires
        line_has_type(schema, parse_text(oracle, text).children, c, block, inner, line, ty),
        cursor_in(parse_text(oracle, text).children, c, line, i, cursor),
    ensures
        path_of(parse_text(oracle, text).children, blen(text) as int, cursor, Bias::Left) == (
        PathView {
            offset: parse_text(oracle, text).children[c].offset,
            nodes: around(block, inner).push(line),
            token: Some(leaf_at(line, i)),
        }),
{
    let children = parse_text(oracle, text).children;
    let len = blen(text) as int;
    let offset = children[c].offset;
    let at = cursor - offset;
    parse_tiles_the_text(oracle, text);
    lemma_line_tiled(oracle, text, schema, c, block, inner, line, ty);
    lemma_document_at(children, len, c);
    lemma_tiled_at(line.children, line.start, line.end, i);
    let none = PathView { offset, nodes: Seq::empty(), token: None };
    match inner {
        None => {
            let p = choose|p: int|
                0 <= p < block.children.len() && #[trigger] block.children[p] == ElementView::Node(
                    line,
                );
            lemma_tiled_at(block.children, block.start, block.end, p);
            lemma_pick_child_left(children, len, cursor, c, 0);
            lemma_in_child_left(block, p, at, none);
            let one = PathView { nodes: none.nodes.push(block), ..none };
            lemma_in_child_left(line, i, at, one);
            assert(none.nodes.push(block).push(line) =~= around(block, inner).push(line));
        },
        Some(module) => {
            let p = choose|p: int|
                0 <= p < block.children.len() && #[trigger] block.children[p] == ElementView::Node(
                    module,
                );
            lemma_tiled_at(block.children, block.start, block.end, p);
            let q = choose|q: int|
                0 <= q < module.children.len() && #[trigger] module.children[q]
                    == ElementView::Node(line);
            lemma_tiled_at(module.children, module.start, module.end, q);
            lemma_pick_child_left(children, len, cursor, c, 0);
            lemma_in_child_left(block, p, at, none);
            let one = PathView { nodes: none.nodes.push(block), ..none };
            lemma_in_child_left(module, q, at, one);
            let two = PathView { nodes: one.nodes.push(module), ..one };
            lemma_in_child_left(line, i, at, two);
            assert(two.nodes.push(line) =~= around(block, inner).push(line));
        },
    }
}

proof fn lemma_equals_found(node: NodeView, e: int, at: int, i: int)
    requires
        equals_at(node, e),
        leaf_at(node, e).end <= at,
        0 <= i <= e,
    ensures
        equals_before(node.children, at, i),
    decreases e - i,
{
    assert(node.children[i] is Token);
    if i < e {
        lemma_equals_found(node, e, at, i + 1);
    }
}

proof fn lemma_equals_missing(node: NodeView, at: int, i: int)
    requires
        0 <= i,
        forall|e: int| #[trigger] equals_at(node, e) ==> leaf_at(node, e).end > at,
        forall|j: int|
            i <= j < node.children.len() && #[trigger] node.children[j] is Token
                && node.children[j]->Token_0.kind == SyntaxKind::EQUALS ==> on_line(node, j)
                || node.children[j]->Token_0.end > at,
    ensures
        !equals_before(node.children, at, i),
    decreases node.children.len() - i,
{
    if i < node.children.len() {
        if let ElementView::Token(leaf) = node.children[i] {
            if leaf.kind == SyntaxKind::EQUALS && on_line(node, i) {
                assert(equals_at(node, i));
            }
            lemma_equals_missing(node, at, i + 1);
        }
    }
}

proof fn lemma_ended(values: Seq<LeafView>, at: int, p: nat)
    requires
        p <= values.len(),
        forall|q: int| 0 <= q < p ==> (#[trigger] values[q]).end <= at,
        forall|q: int| p <= q < values.len() ==> (#[trigger] values[q]).end > at,
    ensures
        ended_by(values, at) == p,
    decreases values.len(),
{
    if values.len() > 0 {
        let rest = values.drop_last();
        let n = values.len() - 1;
        assert(values.last() == values[n]);
        assert forall|q: int| 0 <= q < rest.len() && q < p implies (#[trigger] rest[q]).end
            <= at by {
            assert(values[q].end <= at);
        }
        assert forall|q: int| p <= q < rest.len() implies (#[trigger] rest[q]).end > at by {
            assert(values[q].end > at);
        }
        if p == values.len() {
            assert(values[n].end <= at);
            lemma_ended(rest, at, (p - 1) as nat);
        } else {
            assert(values[n].end > at);
            lemma_ended(rest, at, p);
        }
    }
}

/// The cursor stands behind the `=` of a line, with `p` of its values in front of it.
pub open spec fn cursor_at_value(
    children: Seq<ChildView>,
    c: int,
    line: NodeView,
    places: Seq<int>,
    p: int,
    cursor: int,
) -> bool {
    let at = cursor - children[c].offset;
    &&& exists|i: int| #[trigger] cursor_in(children, c, line, i, cursor)
    &&& exists|e: int| #[trigger] equals_at(line, e) && leaf_at(line, e).end <= at
    &&& value_places(line, places)
    &&& 0 <= p <= places.len()
    &&& forall|q: int| 0 <= q < p ==> leaf_at(line, #[trigger] places[q]).end <= at
    &&& forall|q: int| p <= q < places.len() ==> leaf_at(line, #[trigger] places[q]).end > at
}

/// Keys whose values are completed by what is in the workspace besides definitions.
pub open spec fn is_special(key: Seq<char>) -> bool {
    ||| same_ignoring_case(key, "RemoveModule"@)
    ||| same_ignoring_case(key, "ReplaceModule"@)
    ||| same_ignoring_case(key, "DisplayName"@)
}

/// The type of value `p`.
pub open spec fn own_type(ty: ValueType, p: int) -> ValueType {
    match ty {
        ValueType::TokenList { tokens } if 0 <= p < tokens@.len() => tokens@[p],
        _ => ty,
    }
}

/// Law: behind the `=` of a field, what is offered is what fits the declared type of
/// the field, for the value at the cursor.
pub proof fn cursors_offer_the_declared_type<O: OpenerOracle>(
    oracle: O,
    text: Seq<char>,
    schema: Schema,
    c: int,
    block: NodeView,
    inner: Option<NodeView>,
    line: NodeView,
    ty: ValueType,
    places: Seq<int>,
    p: int,
    key: Seq<char>,
    cursor: int,
    index: Option<IndexView>,
    facts: Option<FactsView>,
    file: Option<Seq<char>>,
)
    requires
        line_has_type(schema, parse_text(oracle, text).children, c, block, inner, line, ty),
        cursor_at_value(parse_text(oracle, text).children, c, line, places, p, cursor),
        key_is(line, key),
        !is_special(key),
        !(own_type(ty, p) is W3dModel),
        !(own_type(ty, p) is W3dModelMember),
    ensures
        completions_of(
            schema,
            path_of(parse_text(oracle, text).children, blen(text) as int, cursor, Bias::Left),
            cursor,
            index,
            facts,
            file,
        ) == type_completions(schema, ty, p, index),
{
    lemma_at_value(oracle, text, schema, c, block, inner, line, ty, places, p, key, cursor);
    lemma_line_type(
        schema,
        parse_text(oracle, text).children,
        c,
        block,
        inner,
        line,
        ty,
    );
    lemma_key(line, key);
}

proof fn lemma_key(line: NodeView, key: Seq<char>)
    requires
        key_is(line, key),
    ensures
        line.head_word() is Some,
        line.head_word()->0.text == key,
{
    let k = choose|k: int| #[trigger] key_at(line, k) && leaf_at(line, k).text == key;
    head_word_is_the_key(line, k);
}

pub proof fn lemma_at_value<O: OpenerOracle>(
    oracle: O,
    text: Seq<char>,
    schema: Schema,
    c: int,
    block: NodeView,
    inner: Option<NodeView>,
    line: NodeView,
    ty: ValueType,
    places: Seq<int>,
    p: int,
    key: Seq<char>,
    cursor: int,
)
    requires
        line_has_type(schema, parse_text(oracle, text).children, c, block, inner, line, ty),
        cursor_at_value(parse_text(oracle, text).children, c, line, places, p, cursor),
        key_is(line, key),
    ensures
        ({
            let path = path_of(
                parse_text(oracle, text).children,
                blen(text) as int,
                cursor,
                Bias::Left,
            );
            let n = around(block, inner).len();
            &&& position_of(schema, path, cursor) == (PosView::FieldValue {
                depth: n as int,
                key,
                value_index: p as nat,
            })
            &&& path.nodes.take(n as int) == around(block, inner)
        }),
{
    let children = parse_text(oracle, text).children;
    let i = choose|i: int| #[trigger] cursor_in(children, c, line, i, cursor);
    let e = choose|e: int|
        #[trigger] equals_at(line, e) && leaf_at(line, e).end <= cursor - children[c].offset;
    lemma_cursor_line(oracle, text, schema, c, block, inner, line, ty, i, cursor);
    lemma_key(line, key);
    let path = path_of(children, blen(text) as int, cursor, Bias::Left);
    let at = cursor - path.offset;
    let nodes = path.nodes;
    let n = around(block, inner).len() as int;
    assert(nodes.last() == line);
    assert(last_of_kind(nodes, SyntaxKind::FIELD) == n);
    assert(nodes.take(n) =~= around(block, inner));
    assert(scope_depth(nodes.take(n)) == n);
    lemma_equals_found(line, e, at, 0);
    values_come_in_order(line, places);
    let values = line.values();
    assert forall|q: int| 0 <= q < p implies (#[trigger] values[q]).end <= at by {
        assert(values[q] == leaf_at(line, places[q]));
    }
    assert forall|q: int| p <= q < values.len() implies (#[trigger] values[q]).end > at by {
        assert(values[q] == leaf_at(line, places[q]));
    }
    lemma_ended(values, at, p as nat);
}

/// Law: in the key of a field, what is offered is what can be written as a key there.
pub proof fn cursors_offer_keys<O: OpenerOracle>(
    oracle: O,
    text: Seq<char>,
    schema: Schema,
    c: int,
    block: NodeView,
    inner: Option<NodeView>,
    line: NodeView,
    ty: ValueType,
    k: int,
    cursor: int,
    index: Option<IndexView>,
    facts: Option<FactsView>,
    file: Option<Seq<char>>,
)
    requires
        line_has_type(schema, parse_text(oracle, text).children, c, block, inner, line, ty),
        cursor_in(parse_text(oracle, text).children, c, line, k, cursor),
        forall|e: int| #[trigger] equals_at(line, e) ==> k < e,
    ensures
        completions_of(
            schema,
            path_of(parse_text(oracle, text).children, blen(text) as int, cursor, Bias::Left),
            cursor,
            index,
            facts,
            file,
        ) == key_completions(path_scope(schema, around(block, inner))),
{
    let children = parse_text(oracle, text).children;
    lemma_cursor_line(oracle, text, schema, c, block, inner, line, ty, k, cursor);
    lemma_line_tiled(oracle, text, schema, c, block, inner, line, ty);
    let path = path_of(children, blen(text) as int, cursor, Bias::Left);
    let at = cursor - path.offset;
    let nodes = path.nodes;
    let n = around(block, inner).len() as int;
    assert(nodes.last() == line);
    assert(last_of_kind(nodes, SyntaxKind::FIELD) == n);
    assert(nodes.take(n) =~= around(block, inner));
    assert(scope_depth(nodes.take(n)) == n);
    lemma_tiled_at(line.children, line.start, line.end, k);
    assert forall|e: int| #[trigger] equals_at(line, e) implies leaf_at(line, e).end > at by {
        lemma_places_differ(line, k, e);
        lemma_tiled_at(line.children, line.start, line.end, e);
    }
    assert forall|j: int|
        0 <= j < line.children.len() && #[trigger] line.children[j] is Token
            && line.children[j]->Token_0.kind == SyntaxKind::EQUALS implies on_line(line, j)
        || line.children[j]->Token_0.end > at by {
        lemma_tiled_at(line.children, line.start, line.end, j);
        if j < k {
            assert(on_line(line, j)) by {
                assert forall|h: int| 0 <= h <= j implies (#[trigger] line.children[h]) is Token
                    && line.children[h]->Token_0.kind != SyntaxKind::NEWLINE by {}
            }
        } else if j > k {
            lemma_chain(line.children, line.start, line.end, k, j);
        }
    }
    lemma_equals_missing(line, at, 0);
}

/// Law: in the keyword of a top-level block, the blocks of the schema are offered.
pub proof fn cursors_offer_blocks<O: OpenerOracle>(
    oracle: O,
    text: Seq<char>,
    schema: Schema,
    c: int,
    block: NodeView,
    k: int,
    cursor: int,
    index: Option<IndexView>,
    facts: Option<FactsView>,
    file: Option<Seq<char>>,
)
    requires
        0 <= c < parse_text(oracle, text).children.len(),
        parse_text(oracle, text).children[c].element == ElementView::Node(block),
        block.kind == SyntaxKind::BLOCK,
        key_at(block, k),
        cursor_in(parse_text(oracle, text).children, c, block, k, cursor),
        forall|e: int| #[trigger] equals_at(block, e) ==> k < e,
    ensures
        completions_of(
            schema,
            path_of(parse_text(oracle, text).children, blen(text) as int, cursor, Bias::Left),
            cursor,
            index,
            facts,
            file,
        ) == block_completions(schema.blocks@),
{
    let children = parse_text(oracle, text).children;
    let len = blen(text) as int;
    let offset = children[c].offset;
    let at = cursor - offset;
    parse_tiles_the_text(oracle, text);
    lemma_document_at(children, len, c);
    lemma_tiled_at(block.children, block.start, block.end, k);
    lemma_pick_child_left(children, len, cursor, c, 0);
    let none = PathView { offset, nodes: Seq::empty(), token: None };
    lemma_in_child_left(block, k, at, none);
    let path = path_of(children, len, cursor, Bias::Left);
    assert(path.nodes =~= seq![block]);
    reveal_with_fuel(last_of_kind, 3);
    assert(path.nodes.drop_last() =~= Seq::<NodeView>::empty());
    head_word_is_the_key(block, k);
    assert forall|e: int| #[trigger] equals_at(block, e) implies leaf_at(block, e).end > at by {
        lemma_places_differ(block, k, e);
        lemma_tiled_at(block.children, block.start, block.end, e);
    }
    assert forall|j: int|
        0 <= j < block.children.len() && #[trigger] block.children[j] is Token
            && block.children[j]->Token_0.kind == SyntaxKind::EQUALS implies on_line(block, j)
        || block.children[j]->Token_0.end > at by {
        lemma_tiled_at(block.children, block.start, block.end, j);
        if j < k {
            assert(on_line(block, j)) by {
                assert forall|h: int| 0 <= h <= j implies (#[trigger] block.children[h]) is Token
                    && block.children[h]->Token_0.kind != SyntaxKind::NEWLINE by {}
            }
        } else if j > k {
            lemma_chain(block.children, block.start, block.end, k, j);
        }
    }
    lemma_equals_missing(block, at, 0);
    lemma_on_header(block, k, at, 0);
}

proof fn lemma_on_header(node: NodeView, k: int, at: int, i: int)
    requires
        tiled(node.children, node.start, node.end),
        on_line(node, k),
        at <= leaf_at(node, k).end,
        0 <= i,
    ensures
        on_header(node.children, at, i),
    decreases node.children.len() - i,
{
    if i < node.children.len() {
        if let ElementView::Token(leaf) = node.children[i] {
            if leaf.kind == SyntaxKind::NEWLINE {
                if i <= k {
                    assert(node.children[i]->Token_0.kind != SyntaxKind::NEWLINE);
                }
                lemma_chain(node.children, node.start, node.end, k, i);
            } else {
                lemma_on_header(node, k, at, i + 1);
            }
        }
    }
}

/// Law: behind the `=` of a slot, the modules are offered that can fill it.
pub proof fn cursors_offer_modules<O: OpenerOracle>(
    oracle: O,
    text: Seq<char>,
    schema: Schema,
    c: int,
    block: NodeView,
    b: int,
    module: NodeView,
    k: int,
    s: int,
    i: int,
    e: int,
    cursor: int,
    index: Option<IndexView>,
    facts: Option<FactsView>,
    file: Option<Seq<char>>,
)
    requires
        0 <= c < parse_text(oracle, text).children.len(),
        parse_text(oracle, text).children[c].element == ElementView::Node(block),
        block.kind == SyntaxKind::BLOCK,
        block_type_is(schema, block, b),
        holds_node(block, module),
        module.kind == SyntaxKind::MODULE,
        key_at(module, k),
        counts_slot(schema.blocks@[b].module_slots@, s),
        schema.blocks@[b].module_slots@[s].keyword@ == leaf_at(module, k).text,
        cursor_in(parse_text(oracle, text).children, c, module, i, cursor),
        equals_at(module, e),
        leaf_at(module, e).end <= cursor - parse_text(oracle, text).children[c].offset,
    ensures
        completions_of(
            schema,
            path_of(parse_text(oracle, text).children, blen(text) as int, cursor, Bias::Left),
            cursor,
            index,
            facts,
            file,
        ) == module_completions(schema.modules@, schema.blocks@[b].module_slots@[s].accepts@),
{
    let children = parse_text(oracle, text).children;
    let at = cursor - children[c].offset;
    lemma_module_header(oracle, text, schema, c, block, b, module, k, i, cursor);
    lemma_slot(schema.blocks@[b].module_slots@, s);
    lemma_equals_found(module, e, at, 0);
}

/// Law: behind the keyword of a sub-block, what is offered is what fits its argument.
pub proof fn cursors_offer_arguments<O: OpenerOracle>(
    oracle: O,
    text: Seq<char>,
    schema: Schema,
    c: int,
    block: NodeView,
    b: int,
    module: NodeView,
    k: int,
    s: int,
    ty: ValueType,
    i: int,
    cursor: int,
    index: Option<IndexView>,
    facts: Option<FactsView>,
    file: Option<Seq<char>>,
)
    requires
        0 <= c < parse_text(oracle, text).children.len(),
        parse_text(oracle, text).children[c].element == ElementView::Node(block),
        block.kind == SyntaxKind::BLOCK,
        block_type_is(schema, block, b),
        holds_node(block, module),
        module.kind == SyntaxKind::MODULE,
        key_at(module, k),
        counts_sub(schema.blocks@[b].sub_blocks@, s),
        schema.blocks@[b].sub_blocks@[s].keyword@ == leaf_at(module, k).text,
        schema.blocks@[b].sub_blocks@[s].argument_type == Some(ty),
        forall|t: int|
            0 <= t < schema.blocks@[b].module_slots@.len() ==> (
            #[trigger] schema.blocks@[b].module_slots@[t]).keyword@ != leaf_at(module, k).text,
        cursor_in(parse_text(oracle, text).children, c, module, i, cursor),
        leaf_at(module, k).end <= cursor - parse_text(oracle, text).children[c].offset,
    ensures
        completions_of(
            schema,
            path_of(parse_text(oracle, text).children, blen(text) as int, cursor, Bias::Left),
            cursor,
            index,
            facts,
            file,
        ) == type_completions(schema, ty, 0, index),
{
    lemma_module_header(oracle, text, schema, c, block, b, module, k, i, cursor);
    lemma_sub(schema.blocks@[b].sub_blocks@, s);
    lemma_no_slot(schema.blocks@[b].module_slots@, leaf_at(module, k).text);
}

proof fn lemma_no_slot(slots: Seq<ModuleSlot>, keyword: Seq<char>)
    requires
        forall|t: int| 0 <= t < slots.len() ==> (#[trigger] slots[t]).keyword@ != keyword,
    ensures
        slot_named(slots, keyword) is None,
    decreases slots.len(),
{
    if slots.len() > 0 {
        let rest = slots.drop_first();
        assert forall|t: int| 0 <= t < rest.len() implies (#[trigger] rest[t]).keyword@
            != keyword by {
            assert(slots[t + 1].keyword@ != keyword);
        }
        lemma_no_slot(rest, keyword);
        assert(slots[0].keyword@ != keyword);
    }
}

proof fn lemma_module_header<O: OpenerOracle>(
    oracle: O,
    text: Seq<char>,
    schema: Schema,
    c: int,
    block: NodeView,
    b: int,
    module: NodeView,
    k: int,
    i: int,
    cursor: int,
)
    requires
        0 <= c < parse_text(oracle, text).children.len(),
        parse_text(oracle, text).children[c].element == ElementView::Node(block),
        block.kind == SyntaxKind::BLOCK,
        block_type_is(schema, block, b),
        holds_node(block, module),
        module.kind == SyntaxKind::MODULE,
        key_at(module, k),
        cursor_in(parse_text(oracle, text).children, c, module, i, cursor),
    ensures
        ({
            let path = path_of(
                parse_text(oracle, text).children,
                blen(text) as int,
                cursor,
                Bias::Left,
            );
            let at = cursor - parse_text(oracle, text).children[c].offset;
            &&& path.offset == parse_text(oracle, text).children[c].offset
            &&& path.nodes == seq![block, module]
            &&& position_of(schema, path, cursor) == module_position(schema, path.nodes, 1, at)
            &&& path_scope(schema, path.nodes.take(1)) == ScopeView::Block(schema.blocks@[b])
            &&& module.head_word() == Some(leaf_at(module, k))
            &&& on_header(module.children, at, 0)
        }),
{
    let children = parse_text(oracle, text).children;
    let len = blen(text) as int;
    let offset = children[c].offset;
    let at = cursor - offset;
    let p = choose|p: int|
        0 <= p < block.children.len() && #[trigger] block.children[p] == ElementView::Node(module);
    parse_tiles_the_text(oracle, text);
    lemma_document_at(children, len, c);
    lemma_tiled_at(block.children, block.start, block.end, p);
    lemma_tiled_at(module.children, module.start, module.end, i);
    lemma_pick_child_left(children, len, cursor, c, 0);
    let none = PathView { offset, nodes: Seq::empty(), token: None };
    lemma_in_child_left(block, p, at, none);
    let one = PathView { nodes: none.nodes.push(block), ..none };
    lemma_in_child_left(module, i, at, one);
    let path = path_of(children, len, cursor, Bias::Left);
    assert(path.nodes =~= seq![block, module]);
    reveal_with_fuel(last_of_kind, 3);
    assert(path.nodes.drop_last() =~= seq![block]);
    assert(seq![block].drop_last() =~= Seq::<NodeView>::empty());
    reveal_with_fuel(path_scope, 2);
    assert(path.nodes.take(1) =~= seq![block]);
    lemma_block_type(schema, block, b);
    head_word_is_the_key(module, k);
    lemma_on_header(module, i, at, 0);
}

// ---------------------------------------------------------------------------
// Models
// ---------------------------------------------------------------------------
proof fn lemma_model_names(models: Seq<ModelView>, name: Seq<char>)
    ensures
        lists_name(model_names_of(models), name) <==> exists|m: int|
            0 <= m < models.len() && lower((#[trigger] models[m]).name) == lower(name),
    decreases models.len(),
{
    if models.len() > 0 {
        let rest = models.drop_last();
        let last = models.last();
        let before = model_names_of(rest);
        let all = model_names_of(models);
        lemma_model_names(rest, name);
        assert(models[models.len() - 1] == last);
        if lists_name(before, name) {
            let i = choose|i: int|
                0 <= i < before.len() && same_ignoring_case(#[trigger] before[i], name);
            assert(all[i] == before[i]);
            let m = choose|m: int|
                0 <= m < rest.len() && lower((#[trigger] rest[m]).name) == lower(name);
            assert(models[m] == rest[m]);
        } else if lists_name(all, name) {
            let i = choose|i: int|
                0 <= i < all.len() && same_ignoring_case(#[trigger] all[i], name);
            if i < before.len() {
                assert(before[i] == all[i]);
            }
        }
        if exists|m: int| 0 <= m < models.len() && lower((#[trigger] models[m]).name) == lower(name) {
            let m = choose|m: int|
                0 <= m < models.len() && lower((#[trigger] models[m]).name) == lower(name);
            if m < rest.len() {
                assert(rest[m] == models[m]);
            } else if lists_name(before, last.name) {
                let i = choose|i: int|
                    0 <= i < before.len() && same_ignoring_case(#[trigger] before[i], last.name);
                assert(same_ignoring_case(all[i], name));
            } else {
                assert(same_ignoring_case(all[before.len() as int], name));
            }
        }
    }
}

/// Law: where a model is asked for and the workspace has models, exactly their names
/// are offered, each in some case.
pub proof fn models_are_offered(
    schema: Schema,
    path: Seq<NodeView>,
    ty: ValueType,
    p: int,
    facts: FactsView,
    name: Seq<char>,
)
    requires
        own_type(ty, p) is W3dModel,
        all_items(facts.models).len() > 0,
    ensures
        ({
            let models = all_items(facts.models);
            &&& asset_completions(schema, path, ty, p, Some(facts)) matches Some(items)
            &&& (exists|i: int|
                0 <= i < items.len() && lower((#[trigger] items[i]).label) == lower(name)
                    && items[i].kind == CompletionKind::Reference) <==> (exists|m: int|
                0 <= m < models.len() && lower((#[trigger] models[m]).name) == lower(name))
        }),
{
    let models = all_items(facts.models);
    let names = model_names_of(models);
    let none = Seq::<CompletionView>::empty();
    lemma_named(names, CompletionKind::Reference, "W3D model"@, none);
    lemma_model_names(models, name);
    let items = asset_completions(schema, path, ty, p, Some(facts))->0;
    if lists_name(names, name) {
        let i = choose|i: int| 0 <= i < names.len() && same_ignoring_case(#[trigger] names[i], name);
        assert(items[none.len() + i].label == names[i]);
        assert(lower(items[i].label) == lower(name));
    }
    if exists|i: int|
        0 <= i < items.len() && lower((#[trigger] items[i]).label) == lower(name) && items[i].kind
            == CompletionKind::Reference {
        let i = choose|i: int|
            0 <= i < items.len() && lower((#[trigger] items[i]).label) == lower(name)
                && items[i].kind == CompletionKind::Reference;
        assert(names[i] == items[none.len() + i].label);
        assert(same_ignoring_case(names[i], name));
    }
}

} // verus!
