//! The [`Analyzer`] owns the engine [`Schema`] and what is derived from it: the
//! name lookups and the oracle that decides which lines open scopes.

use vstd::prelude::*;
use vstd::string::*;

use crate::incremental::{edit_applies, reparse, splices, Edit, Strategy};
use crate::parser::{contains_text, holds_text, parse, parse_text, OpenerOracle, Parse};
use crate::schema::{
    block_named, module_named, opt_value, value_set_named, BlockType, BuiltinDef, ModuleSlot,
    ModuleType, RefKind, Schema, SubBlock, ValueSet,
};
use crate::text::{blen, same, same_ignoring_case};

verus! {

/// A half-open byte range `[start, end)` into the source text.
#[derive(Debug, Clone, Copy, PartialEq, Eq, Structural)]
pub struct Span {
    pub start: u32,
    pub end: u32,
}

impl Span {
    pub fn new(start: u32, end: u32) -> (span: Self)
        ensures
            span == (Span { start, end }),
    {
        Span { start, end }
    }
}

/// A keyword that opens a nested scope inside the scopes headed by another.
#[derive(Debug)]
pub struct ScopeChild {
    pub scope: String,
    pub head: String,
}

/// Whether `head` is listed as opening a scope inside `scope`.
pub open spec fn lists_child(
    children: Seq<ScopeChild>,
    scope: Seq<char>,
    head: Seq<char>,
) -> bool {
    exists|i: int| #![trigger children[i]]
        0 <= i < children.len() && children[i].scope@ == scope && children[i].head@ == head
}

/// Whether sub-blocks declared in the scope `parent` make `head` open a scope
/// inside `scope`: a sub-block opens inside its parent, and its own sub-blocks
/// open inside it.
pub open spec fn sub_blocks_open(
    parent: Seq<char>,
    subs: Seq<SubBlock>,
    scope: Seq<char>,
    head: Seq<char>,
) -> bool
    decreases subs,
{
    subs.len() > 0 && {
        ||| sub_blocks_open(parent, subs.drop_last(), scope, head)
        ||| (parent == scope && subs.last().keyword@ == head)
        ||| sub_blocks_open(subs.last().keyword@, subs.last().sub_blocks@, scope, head)
    }
}

/// Whether one of the slots has the given keyword.
pub open spec fn has_slot(slots: Seq<ModuleSlot>, keyword: Seq<char>) -> bool {
    exists|i: int| 0 <= i < slots.len() && (#[trigger] slots[i]).keyword@ == keyword
}

/// Whether some block of the schema declares a slot with the given keyword.
pub open spec fn is_slot_keyword(blocks: Seq<BlockType>, keyword: Seq<char>) -> bool {
    exists|i: int|
        0 <= i < blocks.len() && has_slot((#[trigger] blocks[i]).module_slots@, keyword)
}

/// Whether a block declares that `head` opens a scope inside `scope`.
pub open spec fn block_opens(block: BlockType, scope: Seq<char>, head: Seq<char>) -> bool {
    ||| (block.name@ == scope && has_slot(block.module_slots@, head))
    ||| sub_blocks_open(block.name@, block.sub_blocks@, scope, head)
}

/// Whether a module declares that `head` opens a scope inside `scope`. Module
/// sub-blocks open inside module scopes, which are headed by a slot keyword.
pub open spec fn module_opens(
    blocks: Seq<BlockType>,
    module: ModuleType,
    scope: Seq<char>,
    head: Seq<char>,
) -> bool {
    exists|slot: Seq<char>| #[trigger]
        is_slot_keyword(blocks, slot) && sub_blocks_open(
            slot,
            module.sub_blocks@,
            scope,
            head,
        )
}

/// Whether the schema declares that `head` opens a scope inside `scope`.
pub open spec fn schema_opens(schema: Schema, scope: Seq<char>, head: Seq<char>) -> bool {
    ||| exists|i: int|
        0 <= i < schema.blocks@.len() && block_opens(#[trigger] schema.blocks@[i], scope, head)
    ||| exists|i: int|
        0 <= i < schema.modules@.len() && module_opens(
            schema.blocks@,
            #[trigger] schema.modules@[i],
            scope,
            head,
        )
}

/// Sub-block keywords the engine parses as nested scopes inside any scope.
pub open spec fn curated(head: Seq<char>) -> bool {
    ||| head == "ConditionState"@
    ||| head == "DefaultConditionState"@
    ||| head == "TransitionState"@
    ||| head == "AnimationState"@
    ||| head == "DefaultAnimationState"@
    ||| head == "IdleAnimationState"@
    ||| head == "ArmorSet"@
    ||| head == "WeaponSet"@
    ||| head == "AttackContactPoint"@
    ||| head == "InheritableModule"@
    ||| head == "OverrideableByLikeKind"@
    ||| head == "AttackAreaDecal"@
    ||| head == "TargetingReticleDecal"@
    ||| head == "DeliveryDecal"@
    ||| head == "GridDecalTemplate"@
}

fn is_curated(head: &str) -> (yes: bool)
    ensures
        yes == curated(head@),
{
    same(head, "ConditionState") || same(head, "DefaultConditionState") || same(
        head,
        "TransitionState",
    ) || same(head, "AnimationState") || same(head, "DefaultAnimationState") || same(
        head,
        "IdleAnimationState",
    ) || same(head, "ArmorSet") || same(head, "WeaponSet") || same(head, "AttackContactPoint")
        || same(head, "InheritableModule") || same(head, "OverrideableByLikeKind") || same(
        head,
        "AttackAreaDecal",
    ) || same(head, "TargetingReticleDecal") || same(head, "DeliveryDecal") || same(
        head,
        "GridDecalTemplate",
    )
}

/// Whether some block with the given keyword is a single-line directive.
pub open spec fn is_inline_block(blocks: Seq<BlockType>, name: Seq<char>) -> bool {
    exists|i: int|
        0 <= i < blocks.len() && !(#[trigger] blocks[i]).terminated && blocks[i].name@ == name
}

/// An [`OpenerOracle`] backed by the schema. Scope-opening is context-aware: a
/// line opens a nested scope only when its head keyword is a valid child of
/// the current scope (a module slot or sub-block that the schema declares for
/// it) or one of a curated set of sub-block keywords. This prevents a field
/// whose first token happens to equal a block keyword from being mistaken for
/// a new block.
#[derive(Debug)]
pub struct SchemaOpeners {
    /// The keywords that open nested scopes, with the scope they open in.
    pub children: Vec<ScopeChild>,
    /// Block keywords that are single-line directives.
    pub inline_blocks: Vec<String>,
}

fn find_child(children: &Vec<ScopeChild>, scope: &str, head: &str) -> (found: bool)
    ensures
        found == lists_child(children@, scope@, head@),
{
    let mut i: usize = 0;
    while i < children.len()
        invariant
            i <= children@.len(),
            forall|j: int| #![trigger children@[j]]
                0 <= j < i ==> !(children@[j].scope@ == scope@ && children@[j].head@ == head@),
        decreases children@.len() - i,
    {
        if same(children[i].head.as_str(), head) && same(children[i].scope.as_str(), scope) {
            return true;
        }
        i += 1;
    }
    false
}

/// Lists `head` as opening a scope inside `scope`.
fn add_child(children: &mut Vec<ScopeChild>, scope: &str, head: &str)
    ensures
        forall|s: Seq<char>, h: Seq<char>| #[trigger]
            lists_child(final(children)@, s, h) == (lists_child(old(children)@, s, h) || (s
                == scope@ && h == head@)),
{
    if find_child(children, scope, head) {
        return ;
    }
    let ghost before = children@;
    children.push(ScopeChild { scope: scope.to_owned(), head: head.to_owned() });
    proof {
        assert forall|s: Seq<char>, h: Seq<char>| #[trigger]
            lists_child(children@, s, h) == (lists_child(before, s, h) || (s == scope@ && h
                == head@)) by {
            if lists_child(before, s, h) {
                let i = choose|i: int| #![trigger before[i]]
                    0 <= i < before.len() && before[i].scope@ == s && before[i].head@ == h;
                assert(children@[i] == before[i]);
            }
            if s == scope@ && h == head@ {
                assert(children@[before.len() as int].scope@ == s);
            }
            if lists_child(children@, s, h) {
                let i = choose|i: int| #![trigger children@[i]]
                    0 <= i < children@.len() && children@[i].scope@ == s && children@[i].head@
                        == h;
                if i < before.len() {
                    assert(before[i] == children@[i]);
                }
            }
        }
    }
}

fn add_sub_blocks(children: &mut Vec<ScopeChild>, parent: &str, subs: &Vec<SubBlock>)
    ensures
        forall|s: Seq<char>, h: Seq<char>| #[trigger]
            lists_child(final(children)@, s, h) == (lists_child(old(children)@, s, h)
                || sub_blocks_open(parent@, subs@, s, h)),
    decreases subs,
{
    let ghost before = children@;
    let mut i: usize = 0;
    while i < subs.len()
        invariant
            i <= subs@.len(),
            forall|s: Seq<char>, h: Seq<char>| #[trigger]
                lists_child(children@, s, h) == (lists_child(before, s, h) || sub_blocks_open(
                    parent@,
                    subs@.take(i as int),
                    s,
                    h,
                )),
        decreases subs@.len() - i,
    {
        let sub = &subs[i];
        proof {
            assert(subs@.take(i + 1).drop_last() =~= subs@.take(i as int));
            assert(subs@.take(i + 1).last() == *sub);
            assert(decreases_to!(subs => subs@));
            assert(decreases_to!(subs@ => subs@[i as int]));
        }
        add_child(children, parent, sub.keyword.as_str());
        add_sub_blocks(children, sub.keyword.as_str(), &sub.sub_blocks);
        i += 1;
    }
    assert(subs@.take(i as int) =~= subs@);
}

fn add_slots(children: &mut Vec<ScopeChild>, scope: &str, slots: &Vec<ModuleSlot>)
    ensures
        forall|s: Seq<char>, h: Seq<char>| #[trigger]
            lists_child(final(children)@, s, h) == (lists_child(old(children)@, s, h) || (s
                == scope@ && has_slot(slots@, h))),
{
    let ghost before = children@;
    let mut i: usize = 0;
    while i < slots.len()
        invariant
            i <= slots@.len(),
            forall|s: Seq<char>, h: Seq<char>| #[trigger]
                lists_child(children@, s, h) == (lists_child(before, s, h) || (s == scope@
                    && has_slot(slots@.take(i as int), h))),
        decreases slots@.len() - i,
    {
        add_child(children, scope, slots[i].keyword.as_str());
        proof {
            assert forall|h: Seq<char>| #[trigger]
                has_slot(slots@.take(i + 1), h) == (has_slot(slots@.take(i as int), h)
                    || slots@[i as int].keyword@ == h) by {
                lemma_has_slot_step(slots@, i as int, h);
            }
        }
        i += 1;
    }
    assert(slots@.take(i as int) =~= slots@);
}

proof fn lemma_has_slot_step(slots: Seq<ModuleSlot>, i: int, h: Seq<char>)
    requires
        0 <= i < slots.len(),
    ensures
        has_slot(slots.take(i + 1), h) == (has_slot(slots.take(i), h) || slots[i].keyword@ == h),
{
    let (a, b) = (slots.take(i), slots.take(i + 1));
    if has_slot(a, h) {
        let k = choose|k: int| 0 <= k < a.len() && (#[trigger] a[k]).keyword@ == h;
        assert(b[k].keyword@ == h);
    }
    if slots[i].keyword@ == h {
        assert(b[i].keyword@ == h);
    }
    if has_slot(b, h) {
        let k = choose|k: int| 0 <= k < b.len() && (#[trigger] b[k]).keyword@ == h;
        if k < i {
            assert(a[k].keyword@ == h);
        }
    }
}

/// The keywords of all slots that blocks declare, each once.
fn slot_keywords(blocks: &Vec<BlockType>) -> (out: Vec<String>)
    ensures
        forall|k: Seq<char>| #[trigger] holds_text(out@, k) == is_slot_keyword(blocks@, k),
{
    let mut out: Vec<String> = Vec::new();
    let mut i: usize = 0;
    while i < blocks.len()
        invariant
            i <= blocks@.len(),
            forall|k: Seq<char>| #[trigger]
                holds_text(out@, k) == is_slot_keyword(blocks@.take(i as int), k),
        decreases blocks@.len() - i,
    {
        let slots = &blocks[i].module_slots;
        let ghost before = out@;
        let mut j: usize = 0;
        while j < slots.len()
            invariant
                j <= slots@.len(),
                forall|k: Seq<char>| #[trigger]
                    holds_text(out@, k) == (holds_text(before, k) || has_slot(
                        slots@.take(j as int),
                        k,
                    )),
            decreases slots@.len() - j,
        {
            let keyword = slots[j].keyword.as_str();
            let ghost had = out@;
            if !contains_text(&out, keyword) {
                out.push(keyword.to_owned());
                assert(out@.drop_last() =~= had);
            }
            proof {
                assert forall|k: Seq<char>| #[trigger]
                    holds_text(out@, k) == (holds_text(before, k) || has_slot(
                        slots@.take(j + 1),
                        k,
                    )) by {
                    lemma_has_slot_step(slots@, j as int, k);
                    lemma_holds_text_push(had, out@, keyword@, k);
                }
            }
            j += 1;
        }
        proof {
            assert(slots@.take(j as int) =~= slots@);
            assert forall|k: Seq<char>| #[trigger]
                holds_text(out@, k) == is_slot_keyword(blocks@.take(i + 1), k) by {
                let (a, b) = (blocks@.take(i as int), blocks@.take(i + 1));
                assert(holds_text(before, k) == is_slot_keyword(a, k));
                if is_slot_keyword(a, k) {
                    let n = choose|n: int|
                        0 <= n < a.len() && has_slot((#[trigger] a[n]).module_slots@, k);
                    assert(has_slot(b[n].module_slots@, k));
                }
                if has_slot(slots@, k) {
                    assert(has_slot(b[i as int].module_slots@, k));
                }
                if is_slot_keyword(b, k) {
                    let n = choose|n: int|
                        0 <= n < b.len() && has_slot((#[trigger] b[n]).module_slots@, k);
                    if n < i {
                        assert(has_slot(a[n].module_slots@, k));
                    }
                }
            }
        }
        i += 1;
    }
    assert(blocks@.take(i as int) =~= blocks@);
    out
}

proof fn lemma_holds_text_push(
    before: Seq<String>,
    after: Seq<String>,
    name: Seq<char>,
    k: Seq<char>,
)
    requires
        after == before && holds_text(before, name) || (after.len() == before.len() + 1
            && after.drop_last() == before && after.last()@ == name),
    ensures
        holds_text(after, k) == (holds_text(before, k) || k == name),
{
    if after != before {
        if holds_text(before, k) {
            let i = choose|i: int| 0 <= i < before.len() && (#[trigger] before[i])@ == k;
            assert(after[i] == after.drop_last()[i]);
            assert(after[i]@ == k);
        }
        if k == name {
            assert(after[after.len() - 1]@ == k);
        }
        if holds_text(after, k) {
            let i = choose|i: int| 0 <= i < after.len() && (#[trigger] after[i])@ == k;
            if i < before.len() {
                assert(before[i] == after.drop_last()[i]);
                assert(before[i]@ == k);
            }
        }
    }
}

impl SchemaOpeners {
    /// The openers hold exactly what the schema declares.
    pub open spec fn describes(&self, schema: Schema) -> bool {
        &&& forall|s: Seq<char>, h: Seq<char>| #[trigger]
            lists_child(self.children@, s, h) == schema_opens(schema, s, h)
        &&& forall|name: Seq<char>| #[trigger]
            holds_text(self.inline_blocks@, name) == is_inline_block(schema.blocks@, name)
    }

    pub fn from_schema(schema: &Schema) -> (openers: Self)
        ensures
            openers.describes(*schema),
    {
        let mut children: Vec<ScopeChild> = Vec::new();
        let mut i: usize = 0;
        while i < schema.blocks.len()
            invariant
                i <= schema.blocks@.len(),
                forall|s: Seq<char>, h: Seq<char>| #[trigger]
                    lists_child(children@, s, h) == exists|k: int|
                        0 <= k < i && block_opens(#[trigger] schema.blocks@[k], s, h),
            decreases schema.blocks@.len() - i,
        {
            let block = &schema.blocks[i];
            let ghost before = children@;
            add_slots(&mut children, block.name.as_str(), &block.module_slots);
            add_sub_blocks(&mut children, block.name.as_str(), &block.sub_blocks);
            proof {
                assert forall|s: Seq<char>, h: Seq<char>| #[trigger]
                    lists_child(children@, s, h) == exists|k: int|
                        0 <= k < i + 1 && block_opens(#[trigger] schema.blocks@[k], s, h) by {
                    assert(lists_child(children@, s, h) == (lists_child(before, s, h)
                        || block_opens(*block, s, h)));
                    if block_opens(*block, s, h) {
                        assert(block_opens(schema.blocks@[i as int], s, h));
                    }
                }
            }
            i += 1;
        }
        let slots = slot_keywords(&schema.blocks);
        let ghost from_blocks = children@;
        let mut m: usize = 0;
        while m < schema.modules.len()
            invariant
                m <= schema.modules@.len(),
                forall|k: Seq<char>| #[trigger]
                    holds_text(slots@, k) == is_slot_keyword(schema.blocks@, k),
                forall|s: Seq<char>, h: Seq<char>| #[trigger]
                    lists_child(children@, s, h) == (lists_child(from_blocks, s, h) || exists|k: int|
                        0 <= k < m && module_opens(
                            schema.blocks@,
                            #[trigger] schema.modules@[k],
                            s,
                            h,
                        )),
            decreases schema.modules@.len() - m,
        {
            let module = &schema.modules[m];
            let ghost before = children@;
            let mut j: usize = 0;
            while j < slots.len()
                invariant
                    j <= slots@.len(),
                    forall|s: Seq<char>, h: Seq<char>| #[trigger]
                        lists_child(children@, s, h) == (lists_child(before, s, h) || exists|k: int|
                            0 <= k < j && sub_blocks_open(
                                (#[trigger] slots@[k])@,
                                module.sub_blocks@,
                                s,
                                h,
                            )),
                decreases slots@.len() - j,
            {
                let ghost had = children@;
                add_sub_blocks(&mut children, slots[j].as_str(), &module.sub_blocks);
                proof {
                    assert forall|s: Seq<char>, h: Seq<char>| #[trigger]
                        lists_child(children@, s, h) == (lists_child(before, s, h) || exists|k: int|
                            0 <= k < j + 1 && sub_blocks_open(
                                (#[trigger] slots@[k])@,
                                module.sub_blocks@,
                                s,
                                h,
                            )) by {
                        assert(lists_child(children@, s, h) == (lists_child(had, s, h)
                            || sub_blocks_open(slots@[j as int]@, module.sub_blocks@, s, h)));
                    }
                }
                j += 1;
            }
            proof {
                assert forall|s: Seq<char>, h: Seq<char>| #[trigger]
                    lists_child(children@, s, h) == (lists_child(from_blocks, s, h) || exists|k: int|
                        0 <= k < m + 1 && module_opens(
                            schema.blocks@,
                            #[trigger] schema.modules@[k],
                            s,
                            h,
                        )) by {
                    lemma_slots_module(slots@, schema.blocks@, *module, s, h);
                    assert(lists_child(children@, s, h) == (lists_child(before, s, h)
                        || module_opens(schema.blocks@, *module, s, h)));
                    if module_opens(schema.blocks@, *module, s, h) {
                        assert(module_opens(schema.blocks@, schema.modules@[m as int], s, h));
                    }
                }
            }
            m += 1;
        }
        let mut inline_blocks: Vec<String> = Vec::new();
        let mut b: usize = 0;
        while b < schema.blocks.len()
            invariant
                b <= schema.blocks@.len(),
                forall|name: Seq<char>| #[trigger]
                    holds_text(inline_blocks@, name) == is_inline_block(
                        schema.blocks@.take(b as int),
                        name,
                    ),
            decreases schema.blocks@.len() - b,
        {
            let ghost had = inline_blocks@;
            if !schema.blocks[b].terminated {
                inline_blocks.push(schema.blocks[b].name.clone());
            }
            proof {
                let block = schema.blocks@[b as int];
                let (x, y) = (schema.blocks@.take(b as int), schema.blocks@.take(b + 1));
                assert forall|name: Seq<char>| #[trigger]
                    holds_text(inline_blocks@, name) == is_inline_block(y, name) by {
                    assert(holds_text(had, name) == is_inline_block(x, name));
                    if !block.terminated {
                        assert(inline_blocks@.drop_last() =~= had);
                        lemma_holds_text_push(had, inline_blocks@, block.name@, name);
                    }
                    if is_inline_block(x, name) {
                        let n = choose|n: int|
                            0 <= n < x.len() && !(#[trigger] x[n]).terminated && x[n].name@
                                == name;
                        assert(!y[n].terminated && y[n].name@ == name);
                    }
                    if !block.terminated && block.name@ == name {
                        assert(!y[b as int].terminated && y[b as int].name@ == name);
                    }
                    if is_inline_block(y, name) {
                        let n = choose|n: int|
                            0 <= n < y.len() && !(#[trigger] y[n]).terminated && y[n].name@
                                == name;
                        if n < b {
                            assert(!x[n].terminated && x[n].name@ == name);
                        }
                    }
                }
            }
            b += 1;
        }
        assert(schema.blocks@.take(b as int) =~= schema.blocks@);
        SchemaOpeners { children, inline_blocks }
    }
}

proof fn lemma_slots_module(
    slots: Seq<String>,
    blocks: Seq<BlockType>,
    module: ModuleType,
    s: Seq<char>,
    h: Seq<char>,
)
    requires
        forall|k: Seq<char>| #[trigger] holds_text(slots, k) == is_slot_keyword(blocks, k),
    ensures
        module_opens(blocks, module, s, h) == exists|k: int|
            0 <= k < slots.len() && sub_blocks_open(
                (#[trigger] slots[k])@,
                module.sub_blocks@,
                s,
                h,
            ),
{
    if module_opens(blocks, module, s, h) {
        let slot = choose|slot: Seq<char>| #[trigger]
            is_slot_keyword(blocks, slot) && sub_blocks_open(slot, module.sub_blocks@, s, h);
        assert(holds_text(slots, slot));
        let k = choose|k: int| 0 <= k < slots.len() && (#[trigger] slots[k])@ == slot;
        assert(sub_blocks_open(slots[k]@, module.sub_blocks@, s, h));
    }
    if exists|k: int|
        0 <= k < slots.len() && sub_blocks_open((#[trigger] slots[k])@, module.sub_blocks@, s, h) {
        let k = choose|k: int|
            0 <= k < slots.len() && sub_blocks_open(
                (#[trigger] slots[k])@,
                module.sub_blocks@,
                s,
                h,
            );
        assert(holds_text(slots, slots[k]@));
        assert(is_slot_keyword(blocks, slots[k]@));
    }
}

impl OpenerOracle for SchemaOpeners {
    open spec fn opens(
        &self,
        enclosing: Option<Seq<char>>,
        head: Seq<char>,
        has_equals: bool,
    ) -> bool {
        match enclosing {
            Some(scope) => curated(head) || lists_child(self.children@, scope, head),
            None => false,
        }
    }

    open spec fn opens_file(&self, head: Seq<char>) -> bool {
        !holds_text(self.inline_blocks@, head)
    }

    fn opens_scope(&self, enclosing: Option<&str>, head: &str, _has_equals: bool) -> (opens: bool) {
        match enclosing {
            // File scope is decided by `opens_at_file_scope`.
            None => false,
            Some(scope) => is_curated(head) || find_child(&self.children, scope, head),
        }
    }

    fn opens_at_file_scope(&self, head: &str) -> (opens: bool) {
        !contains_text(&self.inline_blocks, head)
    }
}

/// A schema plus the opener oracle derived from it. Build once and reuse
/// across documents.
#[derive(Debug)]
pub struct Analyzer {
    pub schema: Schema,
    pub openers: SchemaOpeners,
}

/// Whether the engine synthesizes a definition of `kind` called `name`.
pub open spec fn has_builtin(builtins: Seq<BuiltinDef>, kind: RefKind, name: Seq<char>) -> bool {
    exists|i: int| #![trigger builtins[i]]
        0 <= i < builtins.len() && builtins[i].ref_kind == kind && same_ignoring_case(
            builtins[i].name@,
            name,
        )
}

/// The synthesized definition names of one kind.
pub open spec fn builtin_names_of(builtins: Seq<BuiltinDef>, kind: RefKind) -> Seq<Seq<char>>
    decreases builtins.len(),
{
    if builtins.len() == 0 {
        Seq::empty()
    } else if builtins.last().ref_kind == kind {
        builtin_names_of(builtins.drop_last(), kind).push(builtins.last().name@)
    } else {
        builtin_names_of(builtins.drop_last(), kind)
    }
}

/// The texts of a list of strings.
pub open spec fn str_views(s: Seq<&str>) -> Seq<Seq<char>> {
    Seq::new(s.len(), |i: int| s[i]@)
}

impl Analyzer {
    /// The oracle holds what the schema declares.
    pub open spec fn wf(&self) -> bool {
        self.openers.describes(self.schema)
    }

    /// Build an analyzer from a schema.
    pub fn new(schema: Schema) -> (analyzer: Self)
        ensures
            analyzer.schema == schema,
            analyzer.wf(),
    {
        let openers = SchemaOpeners::from_schema(&schema);
        Analyzer { schema, openers }
    }

    pub fn schema(&self) -> (schema: &Schema)
        ensures
            *schema == self.schema,
    {
        &self.schema
    }

    /// Parse `src` using the schema-derived opener oracle.
    pub fn parse(&self, src: &str) -> (out: Parse)
        requires
            blen(src@) <= u32::MAX,
        ensures
            out.holds(parse_text(self.openers, src@)),
    {
        parse(src, &self.openers)
    }

    /// Incrementally reparse after an edit: splices the reparsed region into
    /// `old` when possible, falling back to a full parse. Identical to
    /// `self.parse(new_text)`.
    pub fn reparse(&self, old: &Parse, old_text: &str, new_text: &str, edit: Edit) -> (out: (
        Parse,
        Strategy,
    ))
        requires
            old.holds(parse_text(self.openers, old_text@)),
            blen(old_text@) <= u32::MAX,
            blen(new_text@) <= u32::MAX,
        ensures
            edit_applies(old_text.spec_bytes(), new_text.spec_bytes(), edit) ==> out.0.holds(
                parse_text(self.openers, new_text@),
            ),
            out.1 == Strategy::Full ==> out.0.holds(parse_text(self.openers, new_text@)),
            (out.1 == Strategy::Spliced) == splices(
                self.openers,
                old_text.spec_bytes(),
                new_text.spec_bytes(),
                parse_text(self.openers, old_text@),
                edit,
            ),
    {
        reparse(old, old_text, new_text, edit, &self.openers)
    }

    pub fn block(&self, name: &str) -> (out: Option<&BlockType>)
        ensures
            opt_value(out) == block_named(self.schema.blocks@, name@),
    {
        self.schema.index().block(name)
    }

    pub fn module(&self, name: &str) -> (out: Option<&ModuleType>)
        ensures
            opt_value(out) == module_named(self.schema.modules@, name@),
    {
        self.schema.index().module(name)
    }

    pub fn value_set(&self, id: &str) -> (out: Option<&ValueSet>)
        ensures
            opt_value(out) == value_set_named(self.schema.value_sets@, id@),
    {
        self.schema.index().value_set(id)
    }

    /// All top-level block keywords.
    pub fn block_names(&self) -> (out: Vec<&str>)
        ensures
            out@.len() == self.schema.blocks@.len(),
            forall|i: int| 0 <= i < out@.len() ==> (#[trigger] out@[i])@ == self.schema.blocks@[i].name@,
    {
        let mut out: Vec<&str> = Vec::new();
        let mut i: usize = 0;
        while i < self.schema.blocks.len()
            invariant
                i <= self.schema.blocks@.len(),
                out@.len() == i,
                forall|j: int| 0 <= j < i ==> (#[trigger] out@[j])@ == self.schema.blocks@[j].name@,
            decreases self.schema.blocks@.len() - i,
        {
            out.push(self.schema.blocks[i].name.as_str());
            i += 1;
        }
        out
    }

    /// Is `name` an engine-synthesized definition of `kind` (case-insensitive)?
    pub fn is_builtin(&self, kind: RefKind, name: &str) -> (found: bool)
        ensures
            found == has_builtin(self.schema.builtins@, kind, name@),
    {
        let builtins = &self.schema.builtins;
        let mut i: usize = 0;
        while i < builtins.len()
            invariant
                builtins@ == self.schema.builtins@,
                i <= builtins@.len(),
                forall|j: int| #![trigger builtins@[j]]
                    0 <= j < i ==> !(builtins@[j].ref_kind == kind && same_ignoring_case(
                        builtins@[j].name@,
                        name@,
                    )),
            decreases builtins@.len() - i,
        {
            if builtins[i].ref_kind == kind && builtins[i].name.as_str().eq_ignore_ascii_case(name) {
                return true;
            }
            i += 1;
        }
        false
    }

    /// Engine-synthesized definition names of `kind`.
    pub fn builtin_names(&self, kind: RefKind) -> (out: Vec<&str>)
        ensures
            str_views(out@) == builtin_names_of(self.schema.builtins@, kind),
    {
        let builtins = &self.schema.builtins;
        let mut out: Vec<&str> = Vec::new();
        let mut i: usize = 0;
        proof {
            assert(builtins@.take(0) =~= Seq::<BuiltinDef>::empty());
            assert(str_views(out@) =~= Seq::<Seq<char>>::empty());
        }
        while i < builtins.len()
            invariant
                builtins@ == self.schema.builtins@,
                i <= builtins@.len(),
                str_views(out@) == builtin_names_of(builtins@.take(i as int), kind),
            decreases builtins@.len() - i,
        {
            let ghost before = str_views(out@);
            proof {
                assert(builtins@.take(i + 1).drop_last() =~= builtins@.take(i as int));
            }
            if builtins[i].ref_kind == kind {
                out.push(builtins[i].name.as_str());
                assert(str_views(out@) =~= before.push(builtins@[i as int].name@));
            }
            i += 1;
        }
        assert(builtins@.take(i as int) =~= builtins@);
        out
    }
}

} // verus!
