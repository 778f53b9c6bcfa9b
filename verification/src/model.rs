//! Bridges the syntax tree to the schema: which schema entity a scope node (a
//! block, module or sub-block) is, and what fields and slots it has.

use vstd::prelude::*;
use vstd::string::*;

use crate::analyzer::{has_slot, Analyzer};
use crate::ast::{Block, Module};
use crate::kind::SyntaxKind;
use crate::parser::{contains_text, holds_text};
use crate::schema::{
    block_named, module_named, opt_value, BlockType, Field, ModuleSlot, ModuleType, Schema,
    SubBlock,
};
use crate::text::same;
use crate::tree::{NodeView, SyntaxNode};

verus! {

/// What schema entity a scope node corresponds to.
#[derive(Debug, Clone, Copy)]
pub enum ScopeSchema<'a> {
    /// A top-level block with a known schema.
    Block(&'a BlockType),
    /// A nested module with a known schema.
    Module(&'a ModuleType),
    /// A sub-block that its enclosing scope declares.
    SubBlock(&'a SubBlock),
    /// A scope without a schema. Validation is lenient here: fields are not
    /// flagged as unknown.
    Unknown,
}

/// The schema entity of a scope.
pub enum ScopeView {
    Block(BlockType),
    Module(ModuleType),
    SubBlock(SubBlock),
    Unknown,
}

impl ScopeView {
    pub open spec fn fields(self) -> Seq<Field> {
        match self {
            ScopeView::Block(b) => b.fields@,
            ScopeView::Module(m) => m.fields@,
            ScopeView::SubBlock(s) => s.fields@,
            ScopeView::Unknown => Seq::empty(),
        }
    }

    pub open spec fn slots(self) -> Seq<ModuleSlot> {
        match self {
            ScopeView::Block(b) => b.module_slots@,
            _ => Seq::empty(),
        }
    }

    pub open spec fn sub_blocks(self) -> Seq<SubBlock> {
        match self {
            ScopeView::Block(b) => b.sub_blocks@,
            ScopeView::Module(m) => m.sub_blocks@,
            ScopeView::SubBlock(s) => s.sub_blocks@,
            ScopeView::Unknown => Seq::empty(),
        }
    }

    /// The field called `name`.
    pub open spec fn field(self, name: Seq<char>) -> Option<Field> {
        field_named(self.fields(), name)
    }

    /// Whether the scope has a field schema at all.
    pub open spec fn has_fields(self) -> bool {
        self.fields().len() > 0
    }

    /// A human label, e.g. ``block `Weapon` ``.
    pub open spec fn label(self) -> Seq<char> {
        match self {
            ScopeView::Block(b) => "block `"@ + b.name@ + "`"@,
            ScopeView::Module(m) => "module `"@ + m.name@ + "`"@,
            ScopeView::SubBlock(s) => "sub-block `"@ + s.keyword@ + "`"@,
            ScopeView::Unknown => "this block"@,
        }
    }
}

/// The first field called `name`.
pub open spec fn field_named(fields: Seq<Field>, name: Seq<char>) -> Option<Field>
    decreases fields.len(),
{
    if fields.len() == 0 {
        None
    } else if fields[0].name@ == name {
        Some(fields[0])
    } else {
        field_named(fields.drop_first(), name)
    }
}

/// The first slot with the given keyword.
pub open spec fn slot_named(slots: Seq<ModuleSlot>, keyword: Seq<char>) -> Option<ModuleSlot>
    decreases slots.len(),
{
    if slots.len() == 0 {
        None
    } else if slots[0].keyword@ == keyword {
        Some(slots[0])
    } else {
        slot_named(slots.drop_first(), keyword)
    }
}

/// The first sub-block with the given keyword.
pub open spec fn sub_block_named(subs: Seq<SubBlock>, keyword: Seq<char>) -> Option<SubBlock>
    decreases subs.len(),
{
    if subs.len() == 0 {
        None
    } else if subs[0].keyword@ == keyword {
        Some(subs[0])
    } else {
        sub_block_named(subs.drop_first(), keyword)
    }
}

/// The scope of a block, by its keyword.
pub open spec fn block_scope(schema: Schema, node: NodeView) -> ScopeView {
    match node.head_word() {
        Some(keyword) => match block_named(schema.blocks@, keyword.text) {
            Some(block) => ScopeView::Block(block),
            None => ScopeView::Unknown,
        },
        None => ScopeView::Unknown,
    }
}

/// The scope of a module, by the name after its `=`.
pub open spec fn module_scope(schema: Schema, node: NodeView) -> ScopeView {
    match node.after_equals(0) {
        Some(name) => match module_named(schema.modules@, name.text) {
            Some(module) => ScopeView::Module(module),
            None => ScopeView::Unknown,
        },
        None => ScopeView::Unknown,
    }
}

/// The scope of a node nested in a scope: a module if the parent has a slot
/// for it, a declared sub-block if the parent declares one (which may re-enter
/// the parent), and otherwise whatever module is named after its `=`.
pub open spec fn nested_scope(schema: Schema, parent: ScopeView, node: NodeView) -> ScopeView {
    match node.head_word() {
        Some(slot) => if !has_slot(parent.slots(), slot.text) && sub_block_named(
            parent.sub_blocks(),
            slot.text,
        ) is Some {
            let sub = sub_block_named(parent.sub_blocks(), slot.text)->0;
            if sub.reenters_parent {
                parent
            } else {
                ScopeView::SubBlock(sub)
            }
        } else {
            module_scope(schema, node)
        },
        None => module_scope(schema, node),
    }
}

/// The scope of a node inside `parent`.
pub open spec fn scope_of(schema: Schema, parent: ScopeView, node: NodeView) -> ScopeView {
    if node.kind == SyntaxKind::BLOCK {
        block_scope(schema, node)
    } else if node.kind == SyntaxKind::MODULE {
        nested_scope(schema, parent, node)
    } else {
        ScopeView::Unknown
    }
}

impl<'a> ScopeSchema<'a> {
    pub open spec fn view(&self) -> ScopeView {
        match self {
            ScopeSchema::Block(b) => ScopeView::Block(**b),
            ScopeSchema::Module(m) => ScopeView::Module(**m),
            ScopeSchema::SubBlock(s) => ScopeView::SubBlock(**s),
            ScopeSchema::Unknown => ScopeView::Unknown,
        }
    }

    /// The declared fields of this scope, or empty when unknown.
    pub fn fields(&self) -> (out: &'a [Field])
        ensures
            out@ == self.view().fields(),
    {
        match self {
            ScopeSchema::Block(b) => b.fields.as_slice(),
            ScopeSchema::Module(m) => m.fields.as_slice(),
            ScopeSchema::SubBlock(s) => s.fields.as_slice(),
            ScopeSchema::Unknown => &[],
        }
    }

    /// Look up a field by name.
    #[verifier::loop_isolation(false)]
    pub fn field(&self, name: &str) -> (out: Option<&'a Field>)
        ensures
            opt_value(out) == self.view().field(name@),
    {
        let fields = self.fields();
        let mut i: usize = 0;
        assert(fields@.skip(0) =~= fields@);
        while i < fields.len()
            invariant
                i <= fields@.len(),
                field_named(fields@, name@) == field_named(fields@.skip(i as int), name@),
            decreases fields@.len() - i,
        {
            assert(fields@.skip(i as int).drop_first() =~= fields@.skip(i + 1));
            if same(fields[i].name.as_str(), name) {
                return Some(&fields[i]);
            }
            i += 1;
        }
        None
    }

    /// Module slots exposed by this scope (only blocks have them).
    pub fn module_slots(&self) -> (out: &'a [ModuleSlot])
        ensures
            out@ == self.view().slots(),
    {
        match self {
            ScopeSchema::Block(b) => b.module_slots.as_slice(),
            _ => &[],
        }
    }

    /// Sub-blocks declared by this scope.
    pub fn sub_blocks(&self) -> (out: &'a [SubBlock])
        ensures
            out@ == self.view().sub_blocks(),
    {
        match self {
            ScopeSchema::Block(b) => b.sub_blocks.as_slice(),
            ScopeSchema::Module(m) => m.sub_blocks.as_slice(),
            ScopeSchema::SubBlock(s) => s.sub_blocks.as_slice(),
            ScopeSchema::Unknown => &[],
        }
    }

    /// Look up a module slot by keyword.
    #[verifier::loop_isolation(false)]
    pub fn slot(&self, keyword: &str) -> (out: Option<&'a ModuleSlot>)
        ensures
            opt_value(out) == slot_named(self.view().slots(), keyword@),
            out is Some == has_slot(self.view().slots(), keyword@),
    {
        let slots = self.module_slots();
        let mut i: usize = 0;
        assert(slots@.skip(0) =~= slots@);
        while i < slots.len()
            invariant
                i <= slots@.len(),
                slot_named(slots@, keyword@) == slot_named(slots@.skip(i as int), keyword@),
                forall|j: int| 0 <= j < i ==> (#[trigger] slots@[j]).keyword@ != keyword@,
            decreases slots@.len() - i,
        {
            assert(slots@.skip(i as int).drop_first() =~= slots@.skip(i + 1));
            if same(slots[i].keyword.as_str(), keyword) {
                return Some(&slots[i]);
            }
            i += 1;
        }
        None
    }

    /// Look up a declared sub-block by keyword.
    #[verifier::loop_isolation(false)]
    pub fn sub_block(&self, keyword: &str) -> (out: Option<&'a SubBlock>)
        ensures
            opt_value(out) == sub_block_named(self.view().sub_blocks(), keyword@),
    {
        let subs = self.sub_blocks();
        let mut i: usize = 0;
        assert(subs@.skip(0) =~= subs@);
        while i < subs.len()
            invariant
                i <= subs@.len(),
                sub_block_named(subs@, keyword@) == sub_block_named(subs@.skip(i as int), keyword@),
            decreases subs@.len() - i,
        {
            assert(subs@.skip(i as int).drop_first() =~= subs@.skip(i + 1));
            if same(subs[i].keyword.as_str(), keyword) {
                return Some(&subs[i]);
            }
            i += 1;
        }
        None
    }

    /// Whether there is a field schema at all (drives unknown-field diagnostics).
    pub fn has_field_schema(&self) -> (yes: bool)
        ensures
            yes == self.view().has_fields(),
    {
        self.fields().len() > 0
    }

    /// A human label for diagnostics, e.g. ``block `Weapon` ``.
    pub fn label(&self) -> (out: String)
        ensures
            out@ == self.view().label(),
    {
        match self {
            ScopeSchema::Block(b) => crate::text::cat3("block `", b.name.as_str(), "`"),
            ScopeSchema::Module(m) => crate::text::cat3("module `", m.name.as_str(), "`"),
            ScopeSchema::SubBlock(s) => crate::text::cat3("sub-block `", s.keyword.as_str(), "`"),
            ScopeSchema::Unknown => "this block".to_owned(),
        }
    }
}

/// Resolve the schema for a `BLOCK` or `MODULE` node inside `parent`.
pub fn scope_schema<'a>(analyzer: &'a Analyzer, parent: ScopeSchema<'a>, node: &SyntaxNode) -> (out:
    ScopeSchema<'a>)
    ensures
        out.view() == scope_of(analyzer.schema, parent.view(), node.view()),
{
    match node.kind {
        SyntaxKind::BLOCK => {
            match Block(node).keyword() {
                Some(keyword) => match analyzer.block(keyword.text.as_str()) {
                    Some(block) => ScopeSchema::Block(block),
                    None => ScopeSchema::Unknown,
                },
                None => ScopeSchema::Unknown,
            }
        },
        SyntaxKind::MODULE => {
            let module = Module(node);
            if let Some(slot) = module.slot() {
                if parent.slot(slot.text.as_str()).is_none() {
                    if let Some(sub) = parent.sub_block(slot.text.as_str()) {
                        return if sub.reenters_parent {
                            parent
                        } else {
                            ScopeSchema::SubBlock(sub)
                        };
                    }
                }
            }
            match module.module_name() {
                Some(name) => match analyzer.module(name.text.as_str()) {
                    Some(module) => ScopeSchema::Module(module),
                    None => ScopeSchema::Unknown,
                },
                None => ScopeSchema::Unknown,
            }
        },
        _ => ScopeSchema::Unknown,
    }
}

/// The scopes of a path of nested nodes, outermost first.
pub open spec fn path_scope(schema: Schema, path: Seq<NodeView>) -> ScopeView
    decreases path.len(),
{
    if path.len() == 0 {
        ScopeView::Unknown
    } else if path.last().kind == SyntaxKind::BLOCK || path.last().kind == SyntaxKind::MODULE {
        scope_of(schema, path_scope(schema, path.drop_last()), path.last())
    } else {
        path_scope(schema, path.drop_last())
    }
}

/// The scopes of the block and module nodes on a path, innermost first.
pub open spec fn path_scopes(schema: Schema, path: Seq<NodeView>) -> Seq<ScopeView>
    decreases path.len(),
{
    if path.len() == 0 {
        Seq::empty()
    } else if path.last().kind == SyntaxKind::BLOCK || path.last().kind == SyntaxKind::MODULE {
        seq![path_scope(schema, path)] + path_scopes(schema, path.drop_last())
    } else {
        path_scopes(schema, path.drop_last())
    }
}

/// The scope of the innermost block or module on a path, outermost first.
#[verifier::loop_isolation(false)]
pub fn scope_at<'a>(analyzer: &'a Analyzer, path: &Vec<&SyntaxNode>) -> (out: ScopeSchema<'a>)
    ensures
        out.view() == path_scope(analyzer.schema, crate::ast::node_views(path@)),
{
    let ghost nodes = crate::ast::node_views(path@);
    let mut scope = ScopeSchema::Unknown;
    let mut i: usize = 0;
    while i < path.len()
        invariant
            i <= path@.len(),
            scope.view() == path_scope(analyzer.schema, nodes.take(i as int)),
        decreases path@.len() - i,
    {
        let node = path[i];
        proof {
            assert(nodes.take(i + 1).drop_last() =~= nodes.take(i as int));
            assert(nodes.take(i + 1).last() == node.view());
        }
        if node.kind == SyntaxKind::BLOCK || node.kind == SyntaxKind::MODULE {
            scope = scope_schema(analyzer, scope, node);
        }
        i += 1;
    }
    assert(nodes.take(i as int) =~= nodes);
    scope
}

pub open spec fn scope_views(scopes: Seq<ScopeSchema<'_>>) -> Seq<ScopeView> {
    Seq::new(scopes.len(), |i: int| scopes[i].view())
}

/// The chain of scope schemas of a path of nested nodes (outermost node
/// first), innermost scope first.
#[verifier::loop_isolation(false)]
pub fn enclosing_scopes<'a>(analyzer: &'a Analyzer, path: &Vec<&SyntaxNode>) -> (out: Vec<
    ScopeSchema<'a>,
>)
    ensures
        scope_views(out@) == path_scopes(analyzer.schema, crate::ast::node_views(path@)),
{
    let ghost nodes = crate::ast::node_views(path@);
    let mut out: Vec<ScopeSchema<'a>> = Vec::new();
    let mut scope = ScopeSchema::Unknown;
    let mut i: usize = 0;
    assert(scope_views(out@) =~= path_scopes(analyzer.schema, nodes.take(0)));
    while i < path.len()
        invariant
            i <= path@.len(),
            scope.view() == path_scope(analyzer.schema, nodes.take(i as int)),
            scope_views(out@) == path_scopes(analyzer.schema, nodes.take(i as int)),
        decreases path@.len() - i,
    {
        let node = path[i];
        proof {
            assert(nodes.take(i + 1).drop_last() =~= nodes.take(i as int));
            assert(nodes.take(i + 1).last() == node.view());
        }
        if node.kind == SyntaxKind::BLOCK || node.kind == SyntaxKind::MODULE {
            scope = scope_schema(analyzer, scope, node);
            let ghost before = scope_views(out@);
            out.insert(0, scope);
            assert(scope_views(out@) =~= seq![scope.view()] + before);
        }
        i += 1;
    }
    assert(nodes.take(i as int) =~= nodes);
    out
}

/// Whether two lists of names share an entry.
pub open spec fn share_name(a: Seq<String>, b: Seq<String>) -> bool {
    exists|i: int| 0 <= i < a.len() && holds_text(b, #[trigger] a[i]@)
}

/// Whether a module is valid in a slot: it implements an accepted interface.
pub fn module_fits_slot(module: &ModuleType, slot: &ModuleSlot) -> (fits: bool)
    ensures
        fits == share_name(module.interfaces@, slot.accepts@),
{
    names_overlap(&module.interfaces, &slot.accepts)
}

/// Whether two lists of names share an entry.
pub fn names_overlap(a: &Vec<String>, b: &Vec<String>) -> (overlap: bool)
    ensures
        overlap == share_name(a@, b@),
{
    let mut i: usize = 0;
    while i < a.len()
        invariant
            i <= a@.len(),
            forall|j: int| 0 <= j < i ==> !holds_text(b@, #[trigger] a@[j]@),
        decreases a@.len() - i,
    {
        if contains_text(b, a[i].as_str()) {
            assert(holds_text(b@, a@[i as int]@));
            return true;
        }
        i += 1;
    }
    false
}

} // verus!
