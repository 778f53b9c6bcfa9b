//! Context-aware completions.
//!
//! Resolves what is valid at a byte offset and returns candidate items:
//! * file scope: top-level block keywords;
//! * inside a block or module, at the start of a line: field names, module
//!   slots and sub-blocks;
//! * after `=`: enum/bitflag members, `Yes`/`No`, module names, or (with the
//!   workspace index) names of the referenced definition kind.

use vstd::prelude::*;
use vstd::string::*;

use crate::analyzer::{builtin_names_of, str_views, Analyzer};
use crate::ast::{node_views, nodes_in, Block, Field};
use crate::cursor::{classify_position, position_of, scope_of_first, PosContext, PosView};
use crate::diagnostics::opt_index_view;
use crate::facts::{
    all_items, lists_name, members_of, model_names_of, name_listed, record_position, tags_of,
    FactsView,
};
use crate::index::{IndexView, WorkspaceIndex};
use crate::kind::SyntaxKind;
use crate::model::{path_scope, share_name, names_overlap, ScopeSchema, ScopeView};
use crate::numbers::{decimal, to_decimal};
use crate::parser::{child_views, opt_text, Parse};
use crate::position::{path_at, path_of, Bias, PathView};
use crate::schema::{
    kind_name, value_set_named, BlockType, Field as FieldType, ModuleSlot, ModuleType, RefKind,
    Schema, SubBlock, ValueMember, ValueType,
};
use crate::semantic::field_type;
use crate::text::{cat2, cat4, cat5, quotes_trimmed, same, same_ignoring_case, trim_quotes};
use crate::tree::{NodeView, SyntaxNode};

verus! {

/// The role of a completion item.
#[derive(Debug, Clone, Copy, PartialEq, Eq, Structural)]
pub enum CompletionKind {
    Block,
    Field,
    Module,
    EnumMember,
    Value,
    Reference,
}

/// A single completion candidate.
#[derive(Debug)]
pub struct Completion {
    pub label: String,
    pub kind: CompletionKind,
    pub detail: Option<String>,
    /// Optional snippet to insert instead of the label. `$0` marks the final
    /// cursor position; `${N:placeholder}` marks tab-stops.
    pub insert: Option<String>,
}

#[verifier::ext_equal]
pub struct CompletionView {
    pub label: Seq<char>,
    pub kind: CompletionKind,
    pub detail: Option<Seq<char>>,
    pub insert: Option<Seq<char>>,
}

pub open spec fn opt_string(s: Option<String>) -> Option<Seq<char>> {
    match s {
        Some(s) => Some(s@),
        None => None,
    }
}

impl Completion {
    pub open spec fn view(&self) -> CompletionView {
        CompletionView {
            label: self.label@,
            kind: self.kind,
            detail: opt_string(self.detail),
            insert: opt_string(self.insert),
        }
    }
}

pub open spec fn completion_views(s: Seq<Completion>) -> Seq<CompletionView> {
    Seq::new(s.len(), |i: int| s[i].view())
}

/// Adds a candidate.
fn offer(
    out: &mut Vec<Completion>,
    label: &str,
    kind: CompletionKind,
    detail: Option<String>,
    insert: Option<String>,
)
    ensures
        completion_views(final(out)@) == completion_views(old(out)@).push(
            CompletionView {
                label: label@,
                kind,
                detail: opt_string(detail),
                insert: opt_string(insert),
            },
        ),
{
    let ghost before = completion_views(out@);
    out.push(Completion { label: label.to_owned(), kind, detail, insert });
    assert(completion_views(out@) =~= before.push(
        CompletionView {
            label: label@,
            kind,
            detail: opt_string(detail),
            insert: opt_string(insert),
        },
    ));
}

/// Candidates that are names with one kind and detail, after `acc`.
pub open spec fn named(
    names: Seq<Seq<char>>,
    kind: CompletionKind,
    detail: Seq<char>,
    acc: Seq<CompletionView>,
) -> Seq<CompletionView>
    decreases names.len(),
{
    if names.len() == 0 {
        acc
    } else {
        named(names.drop_last(), kind, detail, acc).push(
            CompletionView { label: names.last(), kind, detail: Some(detail), insert: None },
        )
    }
}

fn offer_names(out: &mut Vec<Completion>, names: &Vec<&str>, kind: CompletionKind, detail: &str)
    ensures
        completion_views(final(out)@) == named(
            str_views(names@),
            kind,
            detail@,
            completion_views(old(out)@),
        ),
{
    let ghost all = str_views(names@);
    let ghost start = completion_views(out@);
    let mut i: usize = 0;
    assert(all.take(0) =~= Seq::<Seq<char>>::empty());
    while i < names.len()
        invariant
            i <= names@.len(),
            all == str_views(names@),
            completion_views(out@) == named(all.take(i as int), kind, detail@, start),
        decreases names@.len() - i,
    {
        proof {
            assert(all.take(i + 1).drop_last() =~= all.take(i as int));
            assert(all.take(i + 1).last() == names@[i as int]@);
        }
        offer(out, names[i], kind, Some(detail.to_owned()), None);
        i += 1;
    }
    assert(all.take(i as int) =~= all);
}

// ---------------------------------------------------------------------------
// File scope
// ---------------------------------------------------------------------------
/// What accepting a block keyword inserts: a whole block, unless it is a
/// single-line directive.
pub open spec fn block_snippet(block: BlockType) -> Option<Seq<char>> {
    if !block.terminated {
        None
    } else if block.named {
        Some(block.name@ + " ${1:Name}\n\t$0\nEnd"@)
    } else {
        Some(block.name@ + "\n\t$0\nEnd"@)
    }
}

pub open spec fn block_completions(blocks: Seq<BlockType>) -> Seq<CompletionView> {
    Seq::new(
        blocks.len(),
        |i: int|
            CompletionView {
                label: blocks[i].name@,
                kind: CompletionKind::Block,
                detail: Some("block"@),
                insert: block_snippet(blocks[i]),
            },
    )
}

fn top_level_completions(analyzer: &Analyzer) -> (out: Vec<Completion>)
    ensures
        completion_views(out@) == block_completions(analyzer.schema.blocks@),
{
    let blocks = &analyzer.schema.blocks;
    let ghost all = block_completions(blocks@);
    let mut out: Vec<Completion> = Vec::new();
    let mut i: usize = 0;
    assert(completion_views(out@) =~= all.take(0));
    while i < blocks.len()
        invariant
            i <= blocks@.len(),
            all == block_completions(blocks@),
            completion_views(out@) == all.take(i as int),
        decreases blocks@.len() - i,
    {
        let block = &blocks[i];
        let insert = if !block.terminated {
            None
        } else if block.named {
            Some(cat2(block.name.as_str(), " ${1:Name}\n\t$0\nEnd"))
        } else {
            Some(cat2(block.name.as_str(), "\n\t$0\nEnd"))
        };
        offer(
            &mut out,
            block.name.as_str(),
            CompletionKind::Block,
            Some("block".to_owned()),
            insert,
        );
        assert(all.take(i + 1) =~= all.take(i as int).push(all[i as int]));
        i += 1;
    }
    assert(all.take(i as int) =~= all);
    out
}

// ---------------------------------------------------------------------------
// Keys
// ---------------------------------------------------------------------------
/// A short description of a value type.
pub open spec fn type_text(ty: ValueType) -> Seq<char> {
    match ty {
        ValueType::Bool => "Yes/No"@,
        ValueType::Enum { value_set } => "enum "@ + value_set@,
        ValueType::BitFlags { value_set } => "flags "@ + value_set@,
        ValueType::Reference { ref_kind } => "ref "@ + kind_name(ref_kind),
        ValueType::W3dModel => "w3d model"@,
        ValueType::W3dModelMember => "w3d model member"@,
        ValueType::Int => "int"@,
        ValueType::UInt => "uint"@,
        ValueType::Real => "real"@,
        ValueType::PositiveReal => "positivereal"@,
        ValueType::AngleReal => "anglereal"@,
        ValueType::Percent => "percent"@,
        ValueType::Duration => "duration"@,
        ValueType::Velocity => "velocity"@,
        ValueType::Acceleration => "acceleration"@,
        ValueType::AsciiString => "asciistring"@,
        ValueType::QuotedString => "quotedstring"@,
        ValueType::AsciiStringList => "asciistringlist"@,
        ValueType::Color => "color"@,
        ValueType::Coord2D => "coord2d"@,
        ValueType::Coord3D => "coord3d"@,
        ValueType::ReferenceList { .. } => "referencelist"@,
        ValueType::TokenList { .. } => "tokenlist"@,
        ValueType::Prefixed { .. } => "prefixed"@,
        ValueType::Unknown { .. } => "unknown"@,
    }
}

/// A short description of a value type.
pub fn type_label(ty: &ValueType) -> (out: String)
    ensures
        out@ == type_text(*ty),
{
    match ty {
        ValueType::Bool => "Yes/No".to_owned(),
        ValueType::Enum { value_set } => cat2("enum ", value_set.as_str()),
        ValueType::BitFlags { value_set } => cat2("flags ", value_set.as_str()),
        ValueType::Reference { ref_kind } => cat2("ref ", ref_kind.name()),
        ValueType::W3dModel => "w3d model".to_owned(),
        ValueType::W3dModelMember => "w3d model member".to_owned(),
        ValueType::Int => "int".to_owned(),
        ValueType::UInt => "uint".to_owned(),
        ValueType::Real => "real".to_owned(),
        ValueType::PositiveReal => "positivereal".to_owned(),
        ValueType::AngleReal => "anglereal".to_owned(),
        ValueType::Percent => "percent".to_owned(),
        ValueType::Duration => "duration".to_owned(),
        ValueType::Velocity => "velocity".to_owned(),
        ValueType::Acceleration => "acceleration".to_owned(),
        ValueType::AsciiString => "asciistring".to_owned(),
        ValueType::QuotedString => "quotedstring".to_owned(),
        ValueType::AsciiStringList => "asciistringlist".to_owned(),
        ValueType::Color => "color".to_owned(),
        ValueType::Coord2D => "coord2d".to_owned(),
        ValueType::Coord3D => "coord3d".to_owned(),
        ValueType::ReferenceList { .. } => "referencelist".to_owned(),
        ValueType::TokenList { .. } => "tokenlist".to_owned(),
        ValueType::Prefixed { .. } => "prefixed".to_owned(),
        ValueType::Unknown { .. } => "unknown".to_owned(),
    }
}

/// Whether the argument of a sub-block follows its keyword without `=`.
pub open spec fn spaced_argument(keyword: Seq<char>) -> bool {
    keyword == "SideInfo"@ || keyword == "SkirmishBuildList"@ || keyword == "Structure"@
}

/// Whether the argument of a sub-block follows its keyword without `=`.
pub fn space_separated_sub_block_arg(keyword: &str) -> (yes: bool)
    ensures
        yes == spaced_argument(keyword@),
{
    same(keyword, "SideInfo") || same(keyword, "SkirmishBuildList") || same(keyword, "Structure")
}

/// A sample argument of a type.
pub open spec fn argument_sample(ty: ValueType) -> Seq<char> {
    match ty {
        ValueType::Enum { value_set } => if value_set@ == "ai_side"@ {
            "America"@
        } else {
            "NONE"@
        },
        ValueType::Reference { ref_kind } => kind_name(ref_kind),
        _ => "NONE"@,
    }
}

fn argument_placeholder(ty: &ValueType) -> (out: &'static str)
    ensures
        out@ == argument_sample(*ty),
{
    match ty {
        ValueType::Enum { value_set } => if same(value_set.as_str(), "ai_side") {
            "America"
        } else {
            "NONE"
        },
        ValueType::Reference { ref_kind } => ref_kind.name(),
        _ => "NONE",
    }
}

/// What accepting a sub-block keyword inserts: the scope with its argument.
pub open spec fn sub_block_snippet(sub: SubBlock) -> Seq<char> {
    match sub.argument_type {
        Some(ty) => if spaced_argument(sub.keyword@) {
            sub.keyword@ + " ${1:"@ + argument_sample(ty) + "}\n\t$0\nEnd"@
        } else {
            sub.keyword@ + " = ${1:"@ + argument_sample(ty) + "}\n\t$0\nEnd"@
        },
        None => sub.keyword@ + "\n\t$0\nEnd"@,
    }
}

pub open spec fn field_completions(fields: Seq<FieldType>, acc: Seq<CompletionView>) -> Seq<
    CompletionView,
>
    decreases fields.len(),
{
    if fields.len() == 0 {
        acc
    } else {
        field_completions(fields.drop_last(), acc).push(
            CompletionView {
                label: fields.last().name@,
                kind: CompletionKind::Field,
                detail: Some(type_text(fields.last().value_type)),
                insert: None,
            },
        )
    }
}

pub open spec fn slot_completions(slots: Seq<ModuleSlot>, acc: Seq<CompletionView>) -> Seq<
    CompletionView,
>
    decreases slots.len(),
{
    if slots.len() == 0 {
        acc
    } else {
        slot_completions(slots.drop_last(), acc).push(
            CompletionView {
                label: slots.last().keyword@,
                kind: CompletionKind::Field,
                detail: Some("module slot"@),
                insert: Some(slots.last().keyword@ + " = $0"@),
            },
        )
    }
}

pub open spec fn sub_block_completions(subs: Seq<SubBlock>, acc: Seq<CompletionView>) -> Seq<
    CompletionView,
>
    decreases subs.len(),
{
    if subs.len() == 0 {
        acc
    } else {
        sub_block_completions(subs.drop_last(), acc).push(
            CompletionView {
                label: subs.last().keyword@,
                kind: CompletionKind::Block,
                detail: Some("sub-block"@),
                insert: Some(sub_block_snippet(subs.last())),
            },
        )
    }
}

/// The candidates for a key inside a scope.
pub open spec fn key_completions(scope: ScopeView) -> Seq<CompletionView> {
    sub_block_completions(
        scope.sub_blocks(),
        slot_completions(scope.slots(), field_completions(scope.fields(), Seq::empty())),
    )
}

fn field_key_completions(scope: ScopeSchema) -> (out: Vec<Completion>)
    ensures
        completion_views(out@) == key_completions(scope.view()),
{
    let fields = scope.fields();
    let slots = scope.module_slots();
    let subs = scope.sub_blocks();
    let mut out: Vec<Completion> = Vec::new();
    let ghost none = Seq::<CompletionView>::empty();
    let mut i: usize = 0;
    proof {
        assert(fields@.take(0) =~= Seq::empty());
        assert(completion_views(out@) =~= none);
    }
    while i < fields.len()
        invariant
            i <= fields@.len(),
            completion_views(out@) == field_completions(fields@.take(i as int), none),
        decreases fields@.len() - i,
    {
        assert(fields@.take(i + 1).drop_last() =~= fields@.take(i as int));
        let field = &fields[i];
        offer(
            &mut out,
            field.name.as_str(),
            CompletionKind::Field,
            Some(type_label(&field.value_type)),
            None,
        );
        i += 1;
    }
    let ghost keys = completion_views(out@);
    let mut j: usize = 0;
    proof {
        assert(fields@.take(i as int) =~= fields@);
        assert(slots@.take(0) =~= Seq::empty());
    }
    while j < slots.len()
        invariant
            j <= slots@.len(),
            completion_views(out@) == slot_completions(slots@.take(j as int), keys),
        decreases slots@.len() - j,
    {
        assert(slots@.take(j + 1).drop_last() =~= slots@.take(j as int));
        let keyword = slots[j].keyword.as_str();
        offer(
            &mut out,
            keyword,
            CompletionKind::Field,
            Some("module slot".to_owned()),
            Some(cat2(keyword, " = $0")),
        );
        j += 1;
    }
    let ghost slotted = completion_views(out@);
    let mut k: usize = 0;
    proof {
        assert(slots@.take(j as int) =~= slots@);
        assert(subs@.take(0) =~= Seq::empty());
    }
    while k < subs.len()
        invariant
            k <= subs@.len(),
            completion_views(out@) == sub_block_completions(subs@.take(k as int), slotted),
        decreases subs@.len() - k,
    {
        assert(subs@.take(k + 1).drop_last() =~= subs@.take(k as int));
        let sub = &subs[k];
        let keyword = sub.keyword.as_str();
        let insert = match &sub.argument_type {
            Some(ty) => {
                let sample = argument_placeholder(ty);
                if space_separated_sub_block_arg(keyword) {
                    cat4(keyword, " ${1:", sample, "}\n\t$0\nEnd")
                } else {
                    cat4(keyword, " = ${1:", sample, "}\n\t$0\nEnd")
                }
            },
            None => cat2(keyword, "\n\t$0\nEnd"),
        };
        offer(
            &mut out,
            keyword,
            CompletionKind::Block,
            Some("sub-block".to_owned()),
            Some(insert),
        );
        k += 1;
    }
    assert(subs@.take(k as int) =~= subs@);
    out
}

// ---------------------------------------------------------------------------
// Module names
// ---------------------------------------------------------------------------
/// The modules that a slot accepts; a slot without interfaces accepts all.
pub open spec fn module_completions(modules: Seq<ModuleType>, accepts: Seq<String>) -> Seq<
    CompletionView,
>
    decreases modules.len(),
{
    if modules.len() == 0 {
        Seq::empty()
    } else {
        let rest = module_completions(modules.drop_last(), accepts);
        let last = modules.last();
        if accepts.len() == 0 || share_name(last.interfaces@, accepts) {
            rest.push(
                CompletionView {
                    label: last.name@,
                    kind: CompletionKind::Module,
                    detail: Some("module"@),
                    insert: Some(last.name@ + " ${1:ModuleTag_01}\n\t$0\nEnd"@),
                },
            )
        } else {
            rest
        }
    }
}

fn module_name_completions(analyzer: &Analyzer, accepts: &Vec<String>) -> (out: Vec<Completion>)
    ensures
        completion_views(out@) == module_completions(analyzer.schema.modules@, accepts@),
{
    let modules = &analyzer.schema.modules;
    let mut out: Vec<Completion> = Vec::new();
    let mut i: usize = 0;
    assert(completion_views(out@) =~= module_completions(modules@.take(0), accepts@));
    while i < modules.len()
        invariant
            i <= modules@.len(),
            completion_views(out@) == module_completions(modules@.take(i as int), accepts@),
        decreases modules@.len() - i,
    {
        assert(modules@.take(i + 1).drop_last() =~= modules@.take(i as int));
        let module = &modules[i];
        if accepts.len() == 0 || names_overlap(&module.interfaces, accepts) {
            offer(
                &mut out,
                module.name.as_str(),
                CompletionKind::Module,
                Some("module".to_owned()),
                Some(cat2(module.name.as_str(), " ${1:ModuleTag_01}\n\t$0\nEnd")),
            );
        }
        i += 1;
    }
    assert(modules@.take(i as int) =~= modules@);
    out
}

// ---------------------------------------------------------------------------
// Values
// ---------------------------------------------------------------------------
/// The placeholder text for one token of a type.
pub open spec fn placeholder(ty: ValueType) -> Seq<char> {
    match ty {
        ValueType::Bool => "Yes"@,
        ValueType::Int => "0"@,
        ValueType::UInt => "0"@,
        ValueType::Real => "0"@,
        ValueType::PositiveReal => "0"@,
        ValueType::AngleReal => "0"@,
        ValueType::Velocity => "0"@,
        ValueType::Acceleration => "0"@,
        ValueType::Percent => "100%"@,
        ValueType::Duration => "1000"@,
        ValueType::Enum { .. } => "NONE"@,
        ValueType::BitFlags { .. } => "NONE"@,
        ValueType::Reference { ref_kind } => kind_name(ref_kind),
        ValueType::ReferenceList { ref_kind } => kind_name(ref_kind),
        ValueType::AsciiString => "Value"@,
        ValueType::AsciiStringList => "Value"@,
        ValueType::QuotedString => "Value"@,
        ValueType::W3dModel => "Model"@,
        ValueType::W3dModelMember => "Bone"@,
        _ => "?"@,
    }
}

fn type_snippet_placeholder(ty: &ValueType) -> (out: &'static str)
    ensures
        out@ == placeholder(*ty),
{
    match ty {
        ValueType::Bool => "Yes",
        ValueType::Int
        | ValueType::UInt
        | ValueType::Real
        | ValueType::PositiveReal
        | ValueType::AngleReal
        | ValueType::Velocity
        | ValueType::Acceleration => "0",
        ValueType::Percent => "100%",
        ValueType::Duration => "1000",
        ValueType::Enum { .. } | ValueType::BitFlags { .. } => "NONE",
        ValueType::Reference { ref_kind } => ref_kind.name(),
        ValueType::ReferenceList { ref_kind } => ref_kind.name(),
        ValueType::AsciiString | ValueType::AsciiStringList | ValueType::QuotedString => "Value",
        ValueType::W3dModel => "Model",
        ValueType::W3dModelMember => "Bone",
        _ => "?",
    }
}

/// The snippet for a whole token list: one tab-stop per token.
pub open spec fn sequence_snippet(tokens: Seq<ValueType>) -> Seq<char>
    decreases tokens.len(),
{
    if tokens.len() == 0 {
        Seq::empty()
    } else {
        let rest = sequence_snippet(tokens.drop_last());
        let lead = if tokens.len() > 1 {
            rest + " "@
        } else {
            rest
        };
        lead + ("${"@ + decimal(tokens.len()) + ":"@ + placeholder(tokens.last()) + "}"@)
    }
}

fn sequence_text(tokens: &Vec<ValueType>) -> (out: String)
    ensures
        out@ == sequence_snippet(tokens@),
{
    let mut out = String::new();
    let mut i: usize = 0;
    assert(tokens@.take(0) =~= Seq::empty());
    while i < tokens.len()
        invariant
            i <= tokens@.len(),
            out@ == sequence_snippet(tokens@.take(i as int)),
        decreases tokens@.len() - i,
    {
        let count = tokens.len();
        assert(tokens@.take(i + 1).drop_last() =~= tokens@.take(i as int));
        if i > 0 {
            out.append(" ");
        }
        let n = to_decimal(i as u128 + 1);
        let stop = cat5("${", n.as_str(), ":", type_snippet_placeholder(&tokens[i]), "}");
        out.append(stop.as_str());
        i += 1;
    }
    assert(tokens@.take(i as int) =~= tokens@);
    out
}

/// The members of a value set, each with the set as detail.
pub open spec fn member_completions(members: Seq<ValueMember>, set: Seq<char>) -> Seq<
    CompletionView,
> {
    Seq::new(
        members.len(),
        |i: int|
            CompletionView {
                label: members[i].name@,
                kind: CompletionKind::EnumMember,
                detail: Some(set),
                insert: None,
            },
    )
}

pub open spec fn value_completion(label: Seq<char>) -> CompletionView {
    CompletionView { label, kind: CompletionKind::Value, detail: None, insert: None }
}

pub open spec fn snippet_completion(
    label: Seq<char>,
    detail: Seq<char>,
    insert: Seq<char>,
) -> CompletionView {
    CompletionView {
        label,
        kind: CompletionKind::Value,
        detail: Some(detail),
        insert: Some(insert),
    }
}

/// The names that a reference may take: those that the workspace defines, then
/// those that the engine synthesizes.
pub open spec fn reference_completions(
    schema: Schema,
    kind: RefKind,
    index: Option<IndexView>,
) -> Seq<CompletionView> {
    let defined = match index {
        Some(index) => named(
            index.names_of(kind),
            CompletionKind::Reference,
            kind_name(kind),
            Seq::empty(),
        ),
        None => Seq::empty(),
    };
    named(
        builtin_names_of(schema.builtins@, kind),
        CompletionKind::Reference,
        kind_name(kind) + " (engine builtin)"@,
        defined,
    )
}

/// The candidates for value token `value_index` of a type.
pub open spec fn type_completions(
    schema: Schema,
    ty: ValueType,
    value_index: int,
    index: Option<IndexView>,
) -> Seq<CompletionView>
    decreases ty,
{
    match ty {
        ValueType::TokenList { tokens } => {
            let own = if 0 <= value_index < tokens@.len() {
                proof {
                    assert(decreases_to!(ty => tokens));
                    assert(decreases_to!(tokens => tokens@));
                    assert(decreases_to!(tokens@ => tokens@[value_index]));
                }
                type_completions(schema, tokens@[value_index], 0, index)
            } else {
                Seq::empty()
            };
            if value_index == 0 && tokens@.len() > 1 {
                seq![
                    snippet_completion(
                        "<full sequence>"@,
                        decimal(tokens@.len()) + " tokens"@,
                        sequence_snippet(tokens@),
                    ),
                ] + own
            } else {
                own
            }
        },
        ValueType::Color => seq![
            snippet_completion("R: G: B:"@, "color"@, "R:${1:255} G:${2:255} B:${3:255}"@),
        ],
        ValueType::Coord2D => seq![
            snippet_completion("X: Y:"@, "2D coordinate"@, "X:${1:0} Y:${2:0}"@),
        ],
        ValueType::Coord3D => seq![
            snippet_completion("X: Y: Z:"@, "3D coordinate"@, "X:${1:0} Y:${2:0} Z:${3:0}"@),
        ],
        ValueType::Bool => seq![value_completion("Yes"@), value_completion("No"@)],
        ValueType::Enum { value_set } => set_completions(schema, value_set@),
        ValueType::BitFlags { value_set } => set_completions(schema, value_set@),
        ValueType::Reference { ref_kind } => reference_completions(schema, ref_kind, index),
        ValueType::ReferenceList { ref_kind } => reference_completions(schema, ref_kind, index),
        _ => Seq::empty(),
    }
}

pub open spec fn set_completions(schema: Schema, set: Seq<char>) -> Seq<CompletionView> {
    match value_set_named(schema.value_sets@, set) {
        Some(known) => member_completions(known.members@, set),
        None => Seq::empty(),
    }
}

fn set_candidates(analyzer: &Analyzer, set: &str) -> (out: Vec<Completion>)
    ensures
        completion_views(out@) == set_completions(analyzer.schema, set@),
{
    let mut out: Vec<Completion> = Vec::new();
    assert(completion_views(out@) =~= Seq::<CompletionView>::empty());
    if let Some(known) = analyzer.value_set(set) {
        let members = &known.members;
        let ghost all = member_completions(members@, set@);
        let mut i: usize = 0;
        assert(completion_views(out@) =~= all.take(0));
        while i < members.len()
            invariant
                i <= members@.len(),
                all == member_completions(members@, set@),
                completion_views(out@) == all.take(i as int),
            decreases members@.len() - i,
        {
            offer(
                &mut out,
                members[i].name.as_str(),
                CompletionKind::EnumMember,
                Some(set.to_owned()),
                None,
            );
            assert(all.take(i + 1) =~= all.take(i as int).push(all[i as int]));
            i += 1;
        }
        assert(all.take(i as int) =~= all);
    }
    out
}

fn reference_candidates(analyzer: &Analyzer, kind: RefKind, index: Option<&WorkspaceIndex>) -> (out:
    Vec<Completion>)
    ensures
        completion_views(out@) == reference_completions(
            analyzer.schema,
            kind,
            opt_index_view(index),
        ),
{
    let mut out: Vec<Completion> = Vec::new();
    assert(completion_views(out@) =~= Seq::<CompletionView>::empty());
    if let Some(index) = index {
        offer_names(&mut out, &index.names(kind), CompletionKind::Reference, kind.name());
    }
    // Engine-synthesized names are valid targets that appear in no file.
    let detail = cat2(kind.name(), " (engine builtin)");
    offer_names(
        &mut out,
        &analyzer.builtin_names(kind),
        CompletionKind::Reference,
        detail.as_str(),
    );
    out
}

fn one_snippet(label: &str, detail: &str, insert: &str) -> (out: Vec<Completion>)
    ensures
        completion_views(out@) == seq![snippet_completion(label@, detail@, insert@)],
{
    let mut out: Vec<Completion> = Vec::new();
    assert(completion_views(out@) =~= Seq::<CompletionView>::empty());
    offer(
        &mut out,
        label,
        CompletionKind::Value,
        Some(detail.to_owned()),
        Some(insert.to_owned()),
    );
    assert(completion_views(out@) =~= seq![snippet_completion(label@, detail@, insert@)]);
    out
}

fn completions_for_type(
    analyzer: &Analyzer,
    ty: &ValueType,
    value_index: usize,
    index: Option<&WorkspaceIndex>,
) -> (out: Vec<Completion>)
    ensures
        completion_views(out@) == type_completions(
            analyzer.schema,
            *ty,
            value_index as int,
            opt_index_view(index),
        ),
    decreases ty,
{
    match ty {
        ValueType::TokenList { tokens } => {
            let mut out: Vec<Completion> = Vec::new();
            assert(completion_views(out@) =~= Seq::<CompletionView>::empty());
            if value_index < tokens.len() {
                proof {
                    assert(decreases_to!(ty => tokens));
                    assert(decreases_to!(tokens => tokens@));
                    assert(decreases_to!(tokens@ => tokens@[value_index as int]));
                }
                out = completions_for_type(analyzer, &tokens[value_index], 0, index);
            }
            // At the first token, also offer the whole sequence.
            if value_index == 0 && tokens.len() > 1 {
                let ghost own = completion_views(out@);
                let count = to_decimal(tokens.len() as u128);
                let whole = Completion {
                    label: "<full sequence>".to_owned(),
                    kind: CompletionKind::Value,
                    detail: Some(cat2(count.as_str(), " tokens")),
                    insert: Some(sequence_text(tokens)),
                };
                let ghost view = whole.view();
                out.insert(0, whole);
                assert(completion_views(out@) =~= seq![view] + own);
            }
            out
        },
        ValueType::Color => one_snippet("R: G: B:", "color", "R:${1:255} G:${2:255} B:${3:255}"),
        ValueType::Coord2D => one_snippet("X: Y:", "2D coordinate", "X:${1:0} Y:${2:0}"),
        ValueType::Coord3D => one_snippet(
            "X: Y: Z:",
            "3D coordinate",
            "X:${1:0} Y:${2:0} Z:${3:0}",
        ),
        ValueType::Bool => {
            let mut out: Vec<Completion> = Vec::new();
            assert(completion_views(out@) =~= Seq::<CompletionView>::empty());
            offer(&mut out, "Yes", CompletionKind::Value, None, None);
            offer(&mut out, "No", CompletionKind::Value, None, None);
            assert(completion_views(out@) =~= seq![
                value_completion("Yes"@),
                value_completion("No"@),
            ]);
            out
        },
        ValueType::Enum { value_set } => set_candidates(analyzer, value_set.as_str()),
        ValueType::BitFlags { value_set } => set_candidates(analyzer, value_set.as_str()),
        ValueType::Reference { ref_kind } => reference_candidates(analyzer, *ref_kind, index),
        ValueType::ReferenceList { ref_kind } => reference_candidates(analyzer, *ref_kind, index),
        _ => {
            let out: Vec<Completion> = Vec::new();
            assert(completion_views(out@) =~= Seq::<CompletionView>::empty());
            out
        },
    }
}

// ---------------------------------------------------------------------------
// W3D models
// ---------------------------------------------------------------------------
/// The type of value token `value_index`, where a token list has one.
pub open spec fn value_type_at(ty: ValueType, value_index: int) -> ValueType {
    match ty {
        ValueType::TokenList { tokens } => if 0 <= value_index < tokens@.len() {
            tokens@[value_index]
        } else {
            ty
        },
        _ => ty,
    }
}

fn token_value_type<'a>(ty: &'a ValueType, value_index: usize) -> (out: &'a ValueType)
    ensures
        *out == value_type_at(*ty, value_index as int),
{
    match ty {
        ValueType::TokenList { tokens } => if value_index < tokens.len() {
            &tokens[value_index]
        } else {
            ty
        },
        _ => ty,
    }
}

/// The name of a model member as INI files write it: without the number at its
/// end (`Cargo01` is written `Cargo`).
pub open spec fn ini_name(member: Seq<char>) -> Seq<char>
    decreases member.len(),
{
    if member.len() > 0 && '0' <= member.last() <= '9' {
        ini_name(member.drop_last())
    } else {
        member
    }
}

/// The name of a model member as INI files write it.
pub fn model_member_ini_name<'a>(member: &'a str) -> (out: &'a str)
    ensures
        out@ == ini_name(member@),
{
    let mut out = member;
    loop
        invariant
            ini_name(member@) == ini_name(out@),
        ensures
            out@ == ini_name(member@),
        decreases out@.len(),
    {
        match crate::text::last_char(out) {
            Some(c) => {
                if '0' <= c && c <= '9' {
                    out = crate::text::drop_last_char(out);
                } else {
                    break;
                }
            },
            None => {
                break;
            },
        }
    }
    out
}

/// The models that the fields among `nodes` name, after `acc`.
pub open spec fn model_fields(scope: ScopeView, nodes: Seq<NodeView>, acc: Seq<Seq<char>>) -> Seq<
    Seq<char>,
>
    decreases nodes.len(),
{
    if nodes.len() == 0 {
        acc
    } else {
        let rest = model_fields(scope, nodes.drop_last(), acc);
        let last = nodes.last();
        if last.kind == SyntaxKind::FIELD && field_type(scope, last) == Some(ValueType::W3dModel)
            && last.values().len() > 0 {
            rest.push(quotes_trimmed(last.values()[0].text))
        } else {
            rest
        }
    }
}

/// The models that apply inside a scope: those that its own fields name, then
/// those that the scopes around it name, innermost first.
pub open spec fn scope_models(schema: Schema, path: Seq<NodeView>, acc: Seq<Seq<char>>) -> Seq<
    Seq<char>,
>
    decreases path.len(),
{
    if path.len() == 0 {
        acc
    } else {
        scope_models(
            schema,
            path.drop_last(),
            model_fields(path_scope(schema, path), path.last().nodes(), acc),
        )
    }
}

#[verifier::loop_isolation(false)]
fn models_of_scope(scope: ScopeSchema, node: &SyntaxNode, out: &mut Vec<String>)
    ensures
        crate::text::string_views(final(out)@) == model_fields(
            scope.view(),
            node.view().nodes(),
            crate::text::string_views(old(out)@),
        ),
{
    let nodes = nodes_in(node);
    let ghost all = node.view().nodes();
    let ghost start = crate::text::string_views(out@);
    let mut i: usize = 0;
    assert(all.take(0) =~= Seq::<NodeView>::empty());
    while i < nodes.len()
        invariant
            i <= nodes@.len(),
            all == node_views(nodes@),
            crate::text::string_views(out@) == model_fields(
                scope.view(),
                all.take(i as int),
                start,
            ),
        decreases nodes@.len() - i,
    {
        proof {
            assert(all.take(i + 1).drop_last() =~= all.take(i as int));
            assert(all.take(i + 1).last() == nodes@[i as int].view());
        }
        let ghost before = crate::text::string_views(out@);
        if let Some(field) = Field::cast(nodes[i]) {
            if let Some(key) = field.key() {
                if let Some(declared) = scope.field(key.text.as_str()) {
                    if let ValueType::W3dModel = &declared.value_type {
                        let values = field.value_tokens();
                        if values.len() > 0 {
                            let name = trim_quotes(values[0].text.as_str());
                            out.push(name.to_owned());
                            assert(crate::text::string_views(out@) =~= before.push(name@));
                        }
                    }
                }
            }
        }
        i += 1;
    }
    assert(all.take(i as int) =~= all);
}

/// The models that apply inside the scope that the first `depth` path nodes
/// lead to.
fn models_in_scope(analyzer: &Analyzer, nodes: &Vec<&SyntaxNode>, depth: usize) -> (out: Vec<String>)
    requires
        depth <= nodes@.len(),
    ensures
        crate::text::string_views(out@) == scope_models(
            analyzer.schema,
            node_views(nodes@).take(depth as int),
            Seq::empty(),
        ),
{
    let ghost all = node_views(nodes@);
    let mut out: Vec<String> = Vec::new();
    let mut i: usize = depth;
    assert(crate::text::string_views(out@) =~= Seq::<Seq<char>>::empty());
    while i > 0
        invariant
            i <= depth <= nodes@.len(),
            all == node_views(nodes@),
            scope_models(
                analyzer.schema,
                all.take(i as int),
                crate::text::string_views(out@),
            ) == scope_models(analyzer.schema, all.take(depth as int), Seq::empty()),
        decreases i,
    {
        proof {
            assert(all.take(i as int).drop_last() =~= all.take(i - 1));
            assert(all.take(i as int).last() == nodes@[i - 1].view());
        }
        let scope = scope_of_first(analyzer, nodes, i);
        models_of_scope(scope, nodes[i - 1], &mut out);
        i -= 1;
    }
    out
}

/// The names of the members, as INI files write them, that are not in `acc`
/// yet, after `acc`.
pub open spec fn fresh_members(members: Seq<Seq<char>>, acc: Seq<Seq<char>>) -> Seq<Seq<char>>
    decreases members.len(),
{
    if members.len() == 0 {
        acc
    } else {
        let rest = fresh_members(members.drop_last(), acc);
        let name = ini_name(members.last());
        if lists_name(rest, name) {
            rest
        } else {
            rest.push(name)
        }
    }
}

/// The names of the members of models, each once.
pub open spec fn member_names(facts: FactsView, models: Seq<Seq<char>>) -> Seq<Seq<char>>
    decreases models.len(),
{
    if models.len() == 0 {
        Seq::empty()
    } else {
        fresh_members(
            members_of(all_items(facts.models), models.last()),
            member_names(facts, models.drop_last()),
        )
    }
}

fn collect_members<'a>(index: &'a WorkspaceIndex, models: &Vec<String>) -> (out: Vec<&'a str>)
    ensures
        str_views(out@) == member_names(index.facts(), crate::text::string_views(models@)),
{
    let ghost names = crate::text::string_views(models@);
    let mut out: Vec<&'a str> = Vec::new();
    let mut i: usize = 0;
    assert(str_views(out@) =~= member_names(index.facts(), names.take(0)));
    while i < models.len()
        invariant
            i <= models@.len(),
            names == crate::text::string_views(models@),
            str_views(out@) == member_names(index.facts(), names.take(i as int)),
        decreases models@.len() - i,
    {
        proof {
            assert(names.take(i + 1).drop_last() =~= names.take(i as int));
            assert(names.take(i + 1).last() == models@[i as int]@);
        }
        let members = index.model_members(models[i].as_str());
        let ghost all = str_views(members@);
        let ghost start = str_views(out@);
        let mut j: usize = 0;
        assert(all.take(0) =~= Seq::<Seq<char>>::empty());
        while j < members.len()
            invariant
                j <= members@.len(),
                all == str_views(members@),
                str_views(out@) == fresh_members(all.take(j as int), start),
            decreases members@.len() - j,
        {
            proof {
                assert(all.take(j + 1).drop_last() =~= all.take(j as int));
                assert(all.take(j + 1).last() == members@[j as int]@);
            }
            let ghost before = str_views(out@);
            let member: &'a str = members[j];
            let name = model_member_ini_name(member);
            if !name_listed(&out, name) {
                out.push(name);
                assert(str_views(out@) =~= before.push(name@));
            }
            j += 1;
        }
        assert(all.take(j as int) =~= all);
        i += 1;
    }
    assert(names.take(i as int) =~= names);
    out
}

/// The candidates for a value that names a W3D model or one of its members,
/// where the workspace knows models.
pub open spec fn asset_completions(
    schema: Schema,
    path: Seq<NodeView>,
    ty: ValueType,
    value_index: int,
    facts: Option<FactsView>,
) -> Option<Seq<CompletionView>> {
    match facts {
        None => None,
        Some(facts) => if all_items(facts.models).len() == 0 {
            None
        } else {
            match value_type_at(ty, value_index) {
                ValueType::W3dModel => Some(
                    named(
                        model_names_of(all_items(facts.models)),
                        CompletionKind::Reference,
                        "W3D model"@,
                        Seq::empty(),
                    ),
                ),
                ValueType::W3dModelMember => Some(
                    named(
                        member_names(facts, scope_models(schema, path, Seq::empty())),
                        CompletionKind::Reference,
                        "W3D model member"@,
                        Seq::empty(),
                    ),
                ),
                _ => None,
            }
        },
    }
}

pub open spec fn opt_facts(index: Option<&WorkspaceIndex>) -> Option<FactsView> {
    match index {
        Some(index) => Some(index.facts()),
        None => None,
    }
}

fn model_asset_completions(
    analyzer: &Analyzer,
    nodes: &Vec<&SyntaxNode>,
    depth: usize,
    ty: &ValueType,
    value_index: usize,
    index: Option<&WorkspaceIndex>,
) -> (out: Option<Vec<Completion>>)
    requires
        depth <= nodes@.len(),
    ensures
        match out {
            Some(found) => asset_completions(
                analyzer.schema,
                node_views(nodes@).take(depth as int),
                *ty,
                value_index as int,
                opt_facts(index),
            ) == Some(completion_views(found@)),
            None => asset_completions(
                analyzer.schema,
                node_views(nodes@).take(depth as int),
                *ty,
                value_index as int,
                opt_facts(index),
            ) is None,
        },
{
    let index = match index {
        Some(index) => index,
        None => {
            return None;
        },
    };
    if !index.has_model_assets() {
        return None;
    }
    let mut out: Vec<Completion> = Vec::new();
    assert(completion_views(out@) =~= Seq::<CompletionView>::empty());
    match token_value_type(ty, value_index) {
        ValueType::W3dModel => {
            offer_names(&mut out, &index.model_names(), CompletionKind::Reference, "W3D model");
            Some(out)
        },
        ValueType::W3dModelMember => {
            let models = models_in_scope(analyzer, nodes, depth);
            offer_names(
                &mut out,
                &collect_members(index, &models),
                CompletionKind::Reference,
                "W3D model member",
            );
            Some(out)
        },
        _ => None,
    }
}

// ---------------------------------------------------------------------------
// Field values
// ---------------------------------------------------------------------------
/// The module tags that a field which edits another object's modules may name.
pub open spec fn tag_completions(
    path: Seq<NodeView>,
    key: Seq<char>,
    facts: Option<FactsView>,
) -> Seq<CompletionView> {
    let edits = same_ignoring_case(key, "RemoveModule"@) || same_ignoring_case(
        key,
        "ReplaceModule"@,
    );
    match facts {
        Some(facts) => if edits && path.len() > 0 && path.last().second_word() is Some {
            named(
                tags_of(all_items(facts.tags), path.last().second_word()->0.text),
                CompletionKind::Reference,
                "module tag"@,
                Seq::empty(),
            )
        } else {
            Seq::empty()
        },
        None => Seq::empty(),
    }
}

/// The string-table keys beside an INI file.
pub open spec fn keys_beside(facts: FactsView, file: Seq<char>) -> Seq<Seq<char>> {
    let i = record_position(facts.keys, file, 0);
    if i < facts.keys.len() {
        facts.keys[i].items
    } else {
        Seq::empty()
    }
}

/// The candidates for a field value inside the scope that `path` leads to.
pub open spec fn value_completions(
    schema: Schema,
    path: Seq<NodeView>,
    key: Seq<char>,
    value_index: int,
    index: Option<IndexView>,
    facts: Option<FactsView>,
    file: Option<Seq<char>>,
) -> Seq<CompletionView> {
    let tags = tag_completions(path, key, facts);
    if tags.len() > 0 {
        tags
    } else {
        let base = match path_scope(schema, path).field(key) {
            Some(field) => match asset_completions(
                schema,
                path,
                field.value_type,
                value_index,
                facts,
            ) {
                Some(assets) => assets,
                None => type_completions(schema, field.value_type, value_index, index),
            },
            None => Seq::empty(),
        };
        match (facts, file) {
            (Some(facts), Some(file)) => if same_ignoring_case(key, "DisplayName"@) {
                named(keys_beside(facts, file), CompletionKind::Value, "string key"@, base)
            } else {
                base
            },
            _ => base,
        }
    }
}

fn tag_candidates(
    nodes: &Vec<&SyntaxNode>,
    depth: usize,
    key: &str,
    index: Option<&WorkspaceIndex>,
) -> (out: Vec<Completion>)
    requires
        depth <= nodes@.len(),
    ensures
        completion_views(out@) == tag_completions(
            node_views(nodes@).take(depth as int),
            key@,
            opt_facts(index),
        ),
{
    let mut out: Vec<Completion> = Vec::new();
    assert(completion_views(out@) =~= Seq::<CompletionView>::empty());
    if key.eq_ignore_ascii_case("RemoveModule") || key.eq_ignore_ascii_case("ReplaceModule") {
        if let Some(index) = index {
            if depth > 0 {
                assert(node_views(nodes@).take(depth as int).last() == nodes@[depth - 1].view());
                if let Some(name) = Block(nodes[depth - 1]).name() {
                    offer_names(
                        &mut out,
                        &index.module_tags_for_object(name.text.as_str()),
                        CompletionKind::Reference,
                        "module tag",
                    );
                }
            }
        }
    }
    out
}

fn field_value_completions(
    analyzer: &Analyzer,
    nodes: &Vec<&SyntaxNode>,
    depth: usize,
    key: &str,
    value_index: usize,
    index: Option<&WorkspaceIndex>,
    file: Option<&str>,
) -> (out: Vec<Completion>)
    requires
        depth <= nodes@.len(),
    ensures
        completion_views(out@) == value_completions(
            analyzer.schema,
            node_views(nodes@).take(depth as int),
            key@,
            value_index as int,
            opt_index_view(index),
            opt_facts(index),
            opt_text(file),
        ),
{
    let tags = tag_candidates(nodes, depth, key, index);
    assert(completion_views(tags@).len() == tags@.len());
    if tags.len() > 0 {
        return tags;
    }
    let scope = scope_of_first(analyzer, nodes, depth);
    let mut out = match scope.field(key) {
        Some(field) => match model_asset_completions(
            analyzer,
            nodes,
            depth,
            &field.value_type,
            value_index,
            index,
        ) {
            Some(assets) => assets,
            None => completions_for_type(analyzer, &field.value_type, value_index, index),
        },
        None => {
            let none: Vec<Completion> = Vec::new();
            assert(completion_views(none@) =~= Seq::<CompletionView>::empty());
            none
        },
    };
    if key.eq_ignore_ascii_case("DisplayName") {
        if let (Some(index), Some(file)) = (index, file) {
            offer_names(
                &mut out,
                &index.string_keys_for_ini(file),
                CompletionKind::Value,
                "string key",
            );
        }
    }
    out
}

/// The candidates at byte `offset`, which `path` leads to.
pub open spec fn completions_of(
    schema: Schema,
    path: PathView,
    offset: int,
    index: Option<IndexView>,
    facts: Option<FactsView>,
    file: Option<Seq<char>>,
) -> Seq<CompletionView> {
    match position_of(schema, path, offset) {
        PosView::TopLevel => block_completions(schema.blocks@),
        PosView::FieldKey { depth } => key_completions(path_scope(schema, path.nodes.take(depth))),
        PosView::FieldValue { depth, key, value_index } => value_completions(
            schema,
            path.nodes.take(depth),
            key,
            value_index as int,
            index,
            facts,
            file,
        ),
        PosView::ModuleName { accepts } => module_completions(schema.modules@, accepts),
        PosView::SubBlockArg { ty } => type_completions(schema, ty, 0, index),
    }
}

/// Compute completions at byte `offset`. `file` is the current document's URI,
/// used for string-key lookup from string tables beside it.
pub fn complete(
    analyzer: &Analyzer,
    parse: &Parse,
    offset: u32,
    index: Option<&WorkspaceIndex>,
    file: Option<&str>,
) -> (out: Vec<Completion>)
    ensures
        completion_views(out@) == completions_of(
            analyzer.schema,
            path_of(
                child_views(parse.children@),
                parse.len as int,
                offset as int,
                Bias::Left,
            ),
            offset as int,
            opt_index_view(index),
            opt_facts(index),
            opt_text(file),
        ),
{
    let path = path_at(parse, offset, Bias::Left);
    match classify_position(analyzer, &path, offset) {
        PosContext::TopLevel => top_level_completions(analyzer),
        PosContext::FieldKey { depth } => field_key_completions(
            scope_of_first(analyzer, &path.nodes, depth),
        ),
        PosContext::FieldValue { depth, key, value_index } => field_value_completions(
            analyzer,
            &path.nodes,
            depth,
            key.as_str(),
            value_index,
            index,
            file,
        ),
        PosContext::ModuleName { slot } => module_name_completions(analyzer, &slot.accepts),
        PosContext::SubBlockArg { ty } => completions_for_type(analyzer, ty, 0, index),
    }
}

} // verus!
