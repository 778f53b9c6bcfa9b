//! What hovering over a block or a field shows.

use vstd::prelude::*;
use vstd::string::*;

use crate::analyzer::{Analyzer, Span};
use crate::nav::{HoverInfo, HoverView};
use crate::schema::{block_named, kind_name, Schema, ValueType};
use crate::text::{cat2, cat3, cat5, cat7, quote, quoted_text};

verus! {

/// A value type as `{:?}` writes it.
pub open spec fn type_debug(ty: ValueType) -> Seq<char>
    decreases ty,
{
    match ty {
        ValueType::Bool => "Bool"@,
        ValueType::Int => "Int"@,
        ValueType::UInt => "UInt"@,
        ValueType::Real => "Real"@,
        ValueType::PositiveReal => "PositiveReal"@,
        ValueType::AngleReal => "AngleReal"@,
        ValueType::Percent => "Percent"@,
        ValueType::Duration => "Duration"@,
        ValueType::Velocity => "Velocity"@,
        ValueType::Acceleration => "Acceleration"@,
        ValueType::AsciiString => "AsciiString"@,
        ValueType::QuotedString => "QuotedString"@,
        ValueType::AsciiStringList => "AsciiStringList"@,
        ValueType::W3dModel => "W3dModel"@,
        ValueType::W3dModelMember => "W3dModelMember"@,
        ValueType::Color => "Color"@,
        ValueType::Coord2D => "Coord2D"@,
        ValueType::Coord3D => "Coord3D"@,
        ValueType::Enum { value_set } => "Enum { value_set: "@ + quoted_text(value_set@) + " }"@,
        ValueType::BitFlags { value_set } => "BitFlags { value_set: "@ + quoted_text(value_set@)
            + " }"@,
        ValueType::Reference { ref_kind } => "Reference { ref_kind: "@ + kind_name(ref_kind)
            + " }"@,
        ValueType::ReferenceList { ref_kind } => "ReferenceList { ref_kind: "@ + kind_name(ref_kind)
            + " }"@,
        ValueType::TokenList { tokens } => "TokenList { tokens: ["@ + types_debug(tokens@)
            + "] }"@,
        ValueType::Prefixed { prefix, value_type } => "Prefixed { prefix: "@ + quoted_text(prefix@)
            + ", value_type: "@ + type_debug(*value_type) + " }"@,
        ValueType::Unknown { parse_fn } => "Unknown { parse_fn: "@ + quoted_text(parse_fn@)
            + " }"@,
    }
}

/// Value types as `{:?}` writes them, with commas between them.
pub open spec fn types_debug(types: Seq<ValueType>) -> Seq<char>
    decreases types,
{
    if types.len() == 0 {
        Seq::empty()
    } else if types.len() == 1 {
        type_debug(types[0])
    } else {
        types_debug(types.drop_last()) + ", "@ + type_debug(types.last())
    }
}

fn write_types(types: &Vec<ValueType>) -> (out: String)
    ensures
        out@ == types_debug(types@),
    decreases types,
{
    let mut out = String::new();
    let mut i: usize = 0;
    assert(types@.take(0) =~= Seq::<ValueType>::empty());
    assert(out@ =~= Seq::<char>::empty());
    while i < types.len()
        invariant
            i <= types.len(),
            out@ == types_debug(types@.take(i as int)),
        decreases types.len() - i,
    {
        proof {
            assert(types@.take(i + 1).drop_last() =~= types@.take(i as int));
            assert(types@.take(i + 1).last() == types@[i as int]);
            assert(decreases_to!(types => types@));
            assert(decreases_to!(types@ => types@[i as int]));
        }
        let one = write_type(&types[i]);
        if i == 0 {
            assert(types@.take(1)[0] == types@[0]);
            assert(one@ == type_debug(types@[0]));
            out = one;
            assert(types_debug(types@.take(1)) == type_debug(types@[0]));
        } else {
            let before = out;
            out = cat3(&before, ", ", &one);
            assert(types_debug(types@.take(i + 1)) == types_debug(types@.take(i as int)) + ", "@
                + type_debug(types@[i as int]));
        }
        i += 1;
    }
    assert(types@.take(i as int) =~= types@);
    out
}

/// A value type as `{:?}` writes it.
pub fn write_type(ty: &ValueType) -> (out: String)
    ensures
        out@ == type_debug(*ty),
    decreases ty,
{
    match ty {
        ValueType::Bool => "Bool".to_string(),
        ValueType::Int => "Int".to_string(),
        ValueType::UInt => "UInt".to_string(),
        ValueType::Real => "Real".to_string(),
        ValueType::PositiveReal => "PositiveReal".to_string(),
        ValueType::AngleReal => "AngleReal".to_string(),
        ValueType::Percent => "Percent".to_string(),
        ValueType::Duration => "Duration".to_string(),
        ValueType::Velocity => "Velocity".to_string(),
        ValueType::Acceleration => "Acceleration".to_string(),
        ValueType::AsciiString => "AsciiString".to_string(),
        ValueType::QuotedString => "QuotedString".to_string(),
        ValueType::AsciiStringList => "AsciiStringList".to_string(),
        ValueType::W3dModel => "W3dModel".to_string(),
        ValueType::W3dModelMember => "W3dModelMember".to_string(),
        ValueType::Color => "Color".to_string(),
        ValueType::Coord2D => "Coord2D".to_string(),
        ValueType::Coord3D => "Coord3D".to_string(),
        ValueType::Enum { value_set } => cat3("Enum { value_set: ", &quote(value_set), " }"),
        ValueType::BitFlags { value_set } => cat3(
            "BitFlags { value_set: ",
            &quote(value_set),
            " }",
        ),
        ValueType::Reference { ref_kind } => cat3("Reference { ref_kind: ", ref_kind.name(), " }"),
        ValueType::ReferenceList { ref_kind } => cat3(
            "ReferenceList { ref_kind: ",
            ref_kind.name(),
            " }",
        ),
        ValueType::TokenList { tokens } => cat3(
            "TokenList { tokens: [",
            &write_types(tokens),
            "] }",
        ),
        ValueType::Prefixed { prefix, value_type } => cat5(
            "Prefixed { prefix: ",
            &quote(prefix),
            ", value_type: ",
            &write_type(value_type),
            " }",
        ),
        ValueType::Unknown { parse_fn } => cat3("Unknown { parse_fn: ", &quote(parse_fn), " }"),
    }
}

/// What a block's documentation says; without any, what it is.
pub open spec fn block_doc(schema: Schema, name: Seq<char>) -> Seq<char> {
    match block_named(schema.blocks@, name) {
        Some(block) => match block.doc {
            Some(doc) => doc@,
            None => "Top-level block `"@ + name + "`."@,
        },
        None => "Top-level block `"@ + name + "`."@,
    }
}

/// What hovering shows, and over which range.
pub open spec fn hover_text(schema: Schema, info: HoverView) -> (Seq<char>, Span) {
    match info {
        HoverView::Block { name, span } => (
            "**block** `"@ + name + "`\n\n"@ + block_doc(schema, name),
            span,
        ),
        HoverView::Field { name, ty, parse_fn, span } => (
            "**field** `"@ + name + "`\n\ntype: `"@ + type_debug(ty) + "`\n\nengine: `"@ + parse_fn
                + "`"@,
            span,
        ),
    }
}

/// What hovering shows, as Markdown, and over which range.
pub fn hover_markdown(analyzer: &Analyzer, info: &HoverInfo<'_>) -> (out: (String, Span))
    ensures
        (out.0@, out.1) == hover_text(analyzer.schema, info.view()),
{
    match info {
        HoverInfo::Block { name, span } => {
            let fallback = cat3("Top-level block `", name, "`.");
            let doc = match analyzer.block(name) {
                Some(block) => match &block.doc {
                    Some(doc) => doc.clone(),
                    None => fallback,
                },
                None => fallback,
            };
            let head = cat3("**block** `", name, "`\n\n");
            (cat2(&head, &doc), *span)
        },
        HoverInfo::Field { name, ty, parse_fn, span } => (
            cat7(
                "**field** `",
                name,
                "`\n\ntype: `",
                &write_type(ty),
                "`\n\nengine: `",
                parse_fn,
                "`",
            ),
            *span,
        ),
    }
}

} // verus!
