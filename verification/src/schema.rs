//! Data model for the Generals: Zero Hour INI schema: how the game engine
//! interprets INI files.
//!
//! The schema is a flat, self-contained document: blocks and modules reference
//! value sets and each other by name. Where a name occurs more than once, the
//! last entry counts.

use vstd::prelude::*;
use vstd::string::*;

use crate::text::{same, same_ignoring_case};

verus! {

/// The complete engine schema.
#[derive(Debug)]
pub struct Schema {
    /// Schema format version, bumped on breaking changes.
    pub format_version: u32,
    /// Identifier of the engine source snapshot this schema describes.
    pub engine_revision: String,
    /// Top-level block types, keyed by their INI keyword.
    pub blocks: Vec<BlockType>,
    /// Nested module types that appear inside blocks under a [`ModuleSlot`].
    pub modules: Vec<ModuleType>,
    /// Named value sets used by enum / bitflag fields, keyed by id.
    pub value_sets: Vec<ValueSet>,
    /// Definitions the engine synthesizes at runtime: valid reference targets
    /// that exist in no file.
    pub builtins: Vec<BuiltinDef>,
}

/// An engine-synthesized definition.
#[derive(Debug, Clone)]
pub struct BuiltinDef {
    pub ref_kind: RefKind,
    pub name: String,
    pub doc: Option<String>,
}

/// A top-level INI block, e.g. `Object GLATankMarauder` ... `End`.
#[derive(Debug)]
pub struct BlockType {
    /// The INI keyword that introduces the block.
    pub name: String,
    /// The engine parse function this block dispatches to.
    pub parse_fn: String,
    /// Whether the block is named (`Object Foo`) or anonymous (`GameData`).
    pub named: bool,
    /// Whether the block is `End`-terminated or a single-line directive.
    pub terminated: bool,
    /// The kind of symbol a named block of this type defines.
    pub defines: Option<RefKind>,
    /// Fields legal directly inside this block.
    pub fields: Vec<Field>,
    /// Module slots this block exposes.
    pub module_slots: Vec<ModuleSlot>,
    /// Structural sub-block scopes parsed recursively inside this block.
    pub sub_blocks: Vec<SubBlock>,
    pub doc: Option<String>,
}

/// A structural sub-block scope. Sub-blocks nest.
#[derive(Debug)]
pub struct SubBlock {
    /// The keyword opening the scope.
    pub keyword: String,
    /// Fields legal inside this sub-block (empty = lenient).
    pub fields: Vec<Field>,
    /// Sub-blocks nested inside this one.
    pub sub_blocks: Vec<SubBlock>,
    /// The scope re-enters the parent's field table: everything legal in the
    /// parent is legal here.
    pub reenters_parent: bool,
    /// Type of the header argument that follows the keyword.
    pub argument_type: Option<ValueType>,
    pub doc: Option<String>,
}

/// A slot inside a block that hosts nested modules, e.g. `Behavior = <Module> <Tag>`.
#[derive(Debug, Clone)]
pub struct ModuleSlot {
    /// The field keyword introducing the slot.
    pub keyword: String,
    /// The module interfaces that are accepted in this slot.
    pub accepts: Vec<String>,
    pub doc: Option<String>,
}

/// A nested module definition, e.g. `Draw = W3DModelDraw ModuleTag_01` ... `End`.
#[derive(Debug)]
pub struct ModuleType {
    /// Module name as written in INI.
    pub name: String,
    /// Interfaces this module implements.
    pub interfaces: Vec<String>,
    /// Fields legal inside this module.
    pub fields: Vec<Field>,
    /// Structural sub-block scopes inside this module.
    pub sub_blocks: Vec<SubBlock>,
    pub doc: Option<String>,
}

/// A single `Key = value [value...]` field within a block or module.
#[derive(Debug)]
pub struct Field {
    /// The field keyword (left-hand side of `=`).
    pub name: String,
    /// The value type, determining validation of the right-hand side.
    pub value_type: ValueType,
    /// The engine parse function name.
    pub parse_fn: String,
    pub doc: Option<String>,
}

/// The type of a field's value, derived from its engine parse function.
#[derive(Debug, PartialEq, Eq)]
pub enum ValueType {
    /// `Yes` / `No`.
    Bool,
    /// Signed integer.
    Int,
    /// Unsigned integer.
    UInt,
    /// Real number.
    Real,
    /// Real constrained > 0.
    PositiveReal,
    /// Angle in degrees.
    AngleReal,
    /// Percentage literal (e.g. `50%`).
    Percent,
    /// Duration in milliseconds.
    Duration,
    /// Velocity (dist/sec).
    Velocity,
    /// Acceleration (dist/sec^2).
    Acceleration,
    /// A bare (unquoted, single-token) ASCII string.
    AsciiString,
    /// A quoted ASCII string.
    QuotedString,
    /// A list of ASCII strings (variadic).
    AsciiStringList,
    /// A W3D model asset name.
    W3dModel,
    /// A bone, subobject, mesh, or other member of a W3D model asset.
    W3dModelMember,
    /// `R:r G:g B:b [A:a]` color.
    Color,
    /// `X:x Y:y` coordinate.
    Coord2D,
    /// `X:x Y:y Z:z` coordinate.
    Coord3D,
    /// One name drawn from a value set (an enum).
    Enum { value_set: String },
    /// One or more flag names from a value set, with optional `+`/`-` modifiers
    /// and the special `NONE` / `ALL` tokens.
    BitFlags { value_set: String },
    /// A reference to a named definition elsewhere.
    Reference { ref_kind: RefKind },
    /// One or more references of the same kind.
    ReferenceList { ref_kind: RefKind },
    /// A fixed sequence of individually-typed tokens. Each listed token is
    /// required; tokens beyond the list are ignored.
    TokenList { tokens: Vec<ValueType> },
    /// A value tagged `Prefix:value`, written in one token or two.
    Prefixed { prefix: String, value_type: Box<ValueType> },
    /// Anything not mapped precisely; treated leniently.
    Unknown { parse_fn: String },
}

/// The kind of named definition a reference points at (or a block defines).
#[derive(Debug, Clone, Copy, PartialEq, Eq, Hash, Structural)]
pub enum RefKind {
    Object,
    Weapon,
    Armor,
    DamageFx,
    FxList,
    ObjectCreationList,
    ParticleSystem,
    Locomotor,
    Upgrade,
    Science,
    CommandButton,
    CommandSet,
    SpecialPower,
    MappedImage,
    Anim2D,
    PlayerTemplate,
    /// A named audio event (`AudioEvent` / `DialogEvent` / `MusicTrack`).
    AudioEvent,
}

/// A named set of enum / bitflag members.
#[derive(Debug, Clone)]
pub struct ValueSet {
    /// Stable id referenced by enum and bitflag value types.
    pub id: String,
    pub members: Vec<ValueMember>,
}

#[derive(Debug, Clone)]
pub struct ValueMember {
    pub name: String,
    pub value: i64,
}

/// The last block type called `name`.
pub open spec fn block_named(blocks: Seq<BlockType>, name: Seq<char>) -> Option<BlockType>
    decreases blocks.len(),
{
    if blocks.len() == 0 {
        None
    } else if blocks.last().name@ == name {
        Some(blocks.last())
    } else {
        block_named(blocks.drop_last(), name)
    }
}

/// The last module type called `name`.
pub open spec fn module_named(modules: Seq<ModuleType>, name: Seq<char>) -> Option<ModuleType>
    decreases modules.len(),
{
    if modules.len() == 0 {
        None
    } else if modules.last().name@ == name {
        Some(modules.last())
    } else {
        module_named(modules.drop_last(), name)
    }
}

/// The last value set with the given id.
pub open spec fn value_set_named(sets: Seq<ValueSet>, id: Seq<char>) -> Option<ValueSet>
    decreases sets.len(),
{
    if sets.len() == 0 {
        None
    } else if sets.last().id@ == id {
        Some(sets.last())
    } else {
        value_set_named(sets.drop_last(), id)
    }
}

/// The value behind an optional reference.
pub open spec fn opt_value<A>(r: Option<&A>) -> Option<A> {
    match r {
        Some(v) => Some(*v),
        None => None,
    }
}

/// Name lookups over a [`Schema`].
#[derive(Debug, Clone, Copy)]
pub struct SchemaIndex<'a> {
    pub schema: &'a Schema,
}

impl Schema {
    /// Name lookups over this schema.
    pub fn index(&self) -> (index: SchemaIndex<'_>)
        ensures
            *index.schema == *self,
    {
        SchemaIndex { schema: self }
    }
}

impl<'a> SchemaIndex<'a> {
    /// The block type with the given keyword.
    #[verifier::loop_isolation(false)]
    pub fn block(&self, name: &str) -> (out: Option<&'a BlockType>)
        ensures
            opt_value(out) == block_named(self.schema.blocks@, name@),
    {
        let blocks = &self.schema.blocks;
        let mut i: usize = blocks.len();
        proof {
            assert(blocks@.take(i as int) =~= blocks@);
        }
        while i > 0
            invariant
                i <= blocks@.len(),
                block_named(blocks@, name@) == block_named(blocks@.take(i as int), name@),
            decreases i,
        {
            proof {
                assert(blocks@.take(i as int).drop_last() =~= blocks@.take(i - 1));
            }
            i -= 1;
            if same(blocks[i].name.as_str(), name) {
                return Some(&blocks[i]);
            }
        }
        None
    }

    /// The module type with the given name.
    #[verifier::loop_isolation(false)]
    pub fn module(&self, name: &str) -> (out: Option<&'a ModuleType>)
        ensures
            opt_value(out) == module_named(self.schema.modules@, name@),
    {
        let modules = &self.schema.modules;
        let mut i: usize = modules.len();
        proof {
            assert(modules@.take(i as int) =~= modules@);
        }
        while i > 0
            invariant
                i <= modules@.len(),
                module_named(modules@, name@) == module_named(modules@.take(i as int), name@),
            decreases i,
        {
            proof {
                assert(modules@.take(i as int).drop_last() =~= modules@.take(i - 1));
            }
            i -= 1;
            if same(modules[i].name.as_str(), name) {
                return Some(&modules[i]);
            }
        }
        None
    }

    /// The value set with the given id.
    #[verifier::loop_isolation(false)]
    pub fn value_set(&self, id: &str) -> (out: Option<&'a ValueSet>)
        ensures
            opt_value(out) == value_set_named(self.schema.value_sets@, id@),
    {
        let sets = &self.schema.value_sets;
        let mut i: usize = sets.len();
        proof {
            assert(sets@.take(i as int) =~= sets@);
        }
        while i > 0
            invariant
                i <= sets@.len(),
                value_set_named(sets@, id@) == value_set_named(sets@.take(i as int), id@),
            decreases i,
        {
            proof {
                assert(sets@.take(i as int).drop_last() =~= sets@.take(i - 1));
            }
            i -= 1;
            if same(sets[i].id.as_str(), id) {
                return Some(&sets[i]);
            }
        }
        None
    }
}

/// Whether a set has a member with the given name, in any case.
pub open spec fn has_member(members: Seq<ValueMember>, name: Seq<char>) -> bool {
    exists|i: int|
        0 <= i < members.len() && same_ignoring_case(#[trigger] members[i].name@, name)
}

impl ValueSet {
    /// Whether the set has a member with the given name, in any case.
    pub fn contains(&self, name: &str) -> (found: bool)
        ensures
            found == has_member(self.members@, name@),
    {
        let mut i: usize = 0;
        while i < self.members.len()
            invariant
                i <= self.members@.len(),
                forall|j: int|
                    0 <= j < i ==> !same_ignoring_case(#[trigger] self.members@[j].name@, name@),
            decreases self.members@.len() - i,
        {
            if self.members[i].name.as_str().eq_ignore_ascii_case(name) {
                assert(same_ignoring_case(self.members@[i as int].name@, name@));
                return true;
            }
            i += 1;
        }
        false
    }
}

/// The name of a reference kind, as shown to the user.
pub open spec fn kind_name(kind: RefKind) -> Seq<char> {
    match kind {
        RefKind::Object => "Object"@,
        RefKind::Weapon => "Weapon"@,
        RefKind::Armor => "Armor"@,
        RefKind::DamageFx => "DamageFx"@,
        RefKind::FxList => "FxList"@,
        RefKind::ObjectCreationList => "ObjectCreationList"@,
        RefKind::ParticleSystem => "ParticleSystem"@,
        RefKind::Locomotor => "Locomotor"@,
        RefKind::Upgrade => "Upgrade"@,
        RefKind::Science => "Science"@,
        RefKind::CommandButton => "CommandButton"@,
        RefKind::CommandSet => "CommandSet"@,
        RefKind::SpecialPower => "SpecialPower"@,
        RefKind::MappedImage => "MappedImage"@,
        RefKind::Anim2D => "Anim2D"@,
        RefKind::PlayerTemplate => "PlayerTemplate"@,
        RefKind::AudioEvent => "AudioEvent"@,
    }
}

impl RefKind {
    /// The name of the kind, as shown to the user.
    pub fn name(self) -> (out: &'static str)
        ensures
            out@ == kind_name(self),
    {
        match self {
            RefKind::Object => "Object",
            RefKind::Weapon => "Weapon",
            RefKind::Armor => "Armor",
            RefKind::DamageFx => "DamageFx",
            RefKind::FxList => "FxList",
            RefKind::ObjectCreationList => "ObjectCreationList",
            RefKind::ParticleSystem => "ParticleSystem",
            RefKind::Locomotor => "Locomotor",
            RefKind::Upgrade => "Upgrade",
            RefKind::Science => "Science",
            RefKind::CommandButton => "CommandButton",
            RefKind::CommandSet => "CommandSet",
            RefKind::SpecialPower => "SpecialPower",
            RefKind::MappedImage => "MappedImage",
            RefKind::Anim2D => "Anim2D",
            RefKind::PlayerTemplate => "PlayerTemplate",
            RefKind::AudioEvent => "AudioEvent",
        }
    }
}

} // verus!
