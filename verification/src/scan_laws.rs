//! Laws of scanning a workspace and of telling about it: what a file contributes, when
//! a hint is due, and how places are counted.

use vstd::prelude::*;
use vstd::string::*;

use crate::analyzer::{SchemaOpeners, Span};
use crate::checks::DiagnosticView;
use crate::convert::{columns, PositionEnc};
use crate::diagnostics::base_site;
use crate::index::{definitions_of, IndexView};
use crate::ingest::{loose_scan, needs_content, AssetKind, ScanEntry};
use crate::lines::{block_type_is, leaf_at, lemma_block_type, name_at, second_word_is_the_name};
use crate::names::{extension_of, lossy_text, split_last};
use crate::origin::{block_around, request_step, RequestState};
use crate::parser::{parse_text, ChildView};
use crate::schema::Schema;
use crate::semantic::SemKind;
use crate::server::{count_ini, hint_due, is_ini, strictness_of, HintState, ModelMemberStrictness};
use crate::set_laws::{is_called, map_files_override};
use crate::sites::{document_references, document_tags};
use crate::text::{blen, last_segment, lemma_byte_at_step, lower};
use crate::tree::NodeView;
use crate::w3d::models_of;
use crate::wire::legend_index;
use crate::workspace_laws::extensions_tell_kinds;

verus! {

// ---------------------------------------------------------------------------
// Files
// ---------------------------------------------------------------------------
/// Law: an INI file contributes what its text defines, refers to and tags; a model
/// file its models; a sound or a texture itself, under the name of its file.
pub proof fn files_contribute_by_kind(
    schema: Schema,
    openers: SchemaOpeners,
    file: Seq<char>,
    path: Seq<char>,
    extension: Seq<char>,
    stem: Seq<char>,
    bytes: Seq<u8>,
)
    ensures
        ({
            let scans = loose_scan(schema, openers, file, path, extension, stem, bytes);
            let children = parse_text(openers, lossy_text(bytes)).children;
            &&& scans.len() <= 1
            &&& scans.len() == 1 ==> scans[0].file == file
            &&& lower(extension) == lower("ini"@) ==> {
                &&& scans.len() == 1
                &&& scans[0].definitions == definitions_of(schema, children)
                &&& scans[0].references == document_references(schema, children)
                &&& scans[0].tags == document_tags(schema, children)
                &&& scans[0].models.len() == 0
                &&& scans[0].assets.len() == 0
                &&& scans[0].text is None
            }
            &&& lower(extension) == lower("w3d"@) ==> {
                &&& scans.len() == 1 <==> models_of(bytes, stem).len() > 0
                &&& scans.len() == 1 ==> scans[0].models == models_of(bytes, stem)
                    && scans[0].definitions.len() == 0 && scans[0].assets.len() == 0
            }
        }),
{
    extensions_tell_kinds(extension);
}

/// Law: a file that is neither text nor model is an asset if its name ends as that of
/// a sound or of a texture.
pub proof fn assets_go_by_name(
    schema: Schema,
    openers: SchemaOpeners,
    file: Seq<char>,
    path: Seq<char>,
    extension: Seq<char>,
    stem: Seq<char>,
    bytes: Seq<u8>,
    front: Seq<char>,
    end: Seq<char>,
)
    requires
        lower(extension) != lower("ini"@),
        lower(extension) != lower("w3d"@),
        split_last(last_segment(path), '.') == Some((front, end)),
    ensures
        ({
            let scans = loose_scan(schema, openers, file, path, extension, stem, bytes);
            let is_sound = lower(end) == lower("wav"@) || lower(end) == lower("mp3"@);
            let is_picture = lower(end) == lower("tga"@) || lower(end) == lower("dds"@);
            &&& is_sound || is_picture ==> {
                &&& scans.len() == 1
                &&& scans[0].assets.len() == 1
                &&& scans[0].assets[0].name == last_segment(path)
                &&& scans[0].assets[0].uri == file
                &&& scans[0].assets[0].kind == if is_sound {
                    AssetKind::Audio
                } else {
                    AssetKind::Texture
                }
            }
            &&& !is_sound && !is_picture ==> scans.len() == 0
        }),
{
    extensions_tell_kinds(extension);
    extensions_tell_kinds(end);
}

/// Law: of the files of an archive, the content is read of texts and models alone.
pub proof fn texts_and_models_are_read(name: Seq<char>)
    ensures
        needs_content(name) <==> lower(extension_of(name)) == lower("ini"@) || lower(
            extension_of(name),
        ) == lower("w3d"@),
{
    extensions_tell_kinds(extension_of(name));
}

/// Law: a scan counts the files that hold neither models nor assets; those of the base
/// game are some of them.
pub proof fn text_files_are_counted(entries: Seq<(bool, ScanEntry)>, n: nat)
    requires
        n <= entries.len(),
    ensures
        count_ini(entries, true, n) <= count_ini(entries, false, n) <= n,
        (forall|i: int|
            0 <= i < n ==> (#[trigger] entries[i]).1@.models.len() == 0
                && entries[i].1@.assets.len() == 0) ==> count_ini(entries, false, n) == n,
        (forall|i: int|
            0 <= i < n ==> (#[trigger] entries[i]).1@.models.len() > 0
                || entries[i].1@.assets.len() > 0) ==> count_ini(entries, false, n) == 0,
        (forall|i: int| 0 <= i < n ==> !(#[trigger] entries[i]).0) ==> count_ini(entries, true, n)
            == 0,
        (forall|i: int| 0 <= i < n ==> (#[trigger] entries[i]).0) ==> count_ini(entries, true, n)
            == count_ini(entries, false, n),
    decreases n,
{
    if n > 0 {
        text_files_are_counted(entries, (n - 1) as nat);
        assert(is_ini(entries[n - 1].1@) == (entries[n - 1].1@.models.len() == 0
            && entries[n - 1].1@.assets.len() == 0));
    }
}

// ---------------------------------------------------------------------------
// Hints and settings
// ---------------------------------------------------------------------------
/// Law: the hint about the base game is due for a map, after a scan that found none of
/// its files, unless the client shows it for want of roots; and once.
pub proof fn hints_are_due_for_maps(file: Seq<char>, state: HintState)
    ensures
        hint_due(file, state) <==> (is_called(file, "map.ini"@) || is_called(file, "solo.ini"@))
            && state.scan_finished && state.base_indexed == 0 && !state.shown && (
        !state.client_hint || !state.roots_empty),
{
    map_files_override(file);
}

/// Law: bones are checked as the client says, and leniently if it says nothing or
/// anything else.
pub proof fn strictness_is_as_configured(option: Option<Seq<char>>)
    ensures
        strictness_of(option) == ModelMemberStrictness::Off <==> option == Some("off"@),
        strictness_of(option) == ModelMemberStrictness::Strict <==> option == Some("strict"@),
        option is None ==> strictness_of(option) == ModelMemberStrictness::Compatible,
{
    reveal_strlit("off");
    reveal_strlit("strict");
    assert("off"@.len() != "strict"@.len());
}

/// Law: every kind of token has a number of its own, without gaps.
pub proof fn kinds_have_numbers_of_their_own(a: SemKind, b: SemKind)
    ensures
        legend_index(a) == legend_index(b) ==> a == b,
        legend_index(a) < 10,
{
}

// ---------------------------------------------------------------------------
// Columns
// ---------------------------------------------------------------------------
/// Law: columns are counted in bytes, in characters, or in pairs of bytes, where the
/// characters beyond the first plane take two.
pub proof fn columns_count_units(s: Seq<char>)
    ensures
        columns(s, PositionEnc::Utf8) == blen(s),
        columns(s, PositionEnc::Utf32) == s.len(),
        (forall|i: int| 0 <= i < s.len() ==> (#[trigger] s[i]) as u32 <= 0xffff) ==> columns(
            s,
            PositionEnc::Utf16,
        ) == s.len(),
        (forall|i: int| 0 <= i < s.len() ==> (#[trigger] s[i]) as u32 > 0xffff) ==> columns(
            s,
            PositionEnc::Utf16,
        ) == 2 * s.len(),
        s.len() <= columns(s, PositionEnc::Utf16) <= 2 * s.len(),
    decreases s.len(),
{
    if s.len() > 0 {
        let rest = s.drop_last();
        columns_count_units(rest);
        assert(s.last() == s[s.len() - 1]);
        lemma_byte_at_step(s, s.len() - 1);
        assert(s.take(s.len() - 1) =~= rest);
        assert(s.take(s.len() as int) =~= s);
        assert forall|i: int| 0 <= i < rest.len() implies rest[i] == #[trigger] s[i] by {}
        if forall|i: int| 0 <= i < s.len() ==> (#[trigger] s[i]) as u32 <= 0xffff {
            assert forall|i: int| 0 <= i < rest.len() implies (#[trigger] rest[i]) as u32
                <= 0xffff by {
                assert(s[i] as u32 <= 0xffff);
            }
        }
        if forall|i: int| 0 <= i < s.len() ==> (#[trigger] s[i]) as u32 > 0xffff {
            assert forall|i: int| 0 <= i < rest.len() implies (#[trigger] rest[i]) as u32
                > 0xffff by {
                assert(s[i] as u32 > 0xffff);
            }
        }
    }
}

// ---------------------------------------------------------------------------
// Reference copies
// ---------------------------------------------------------------------------
/// Law: for a definition that overrides another, in the range, a copy is asked for
/// from the first file that overrides nothing; once for each name, in any case, and
/// for no other finding.
pub proof fn overrides_ask_for_copies(
    schema: Schema,
    index: IndexView,
    children: Seq<ChildView>,
    range: Span,
    finding: DiagnosticView,
    block: NodeView,
    b: int,
    n: int,
    state: RequestState,
)
    requires
        block_around(children, finding.span, 0) == Some(block),
        block_type_is(schema, block, b),
        schema.blocks@[b].defines is Some,
        name_at(block, n),
    ensures
        ({
            let after = request_step(schema, index, children, range, finding, state);
            let name = leaf_at(block, n).text;
            let kind = schema.blocks@[b].defines->0;
            let base = base_site(index.locations_of(kind, name));
            let asks = finding.code == "overrides"@ && range.start <= finding.span.end
                && finding.span.start <= range.end && !state.seen.contains(lower(name));
            &&& !asks ==> after == state
            &&& asks && base is None ==> after.out == state.out
            &&& asks && base is Some ==> {
                &&& after.out.len() == state.out.len() + 1
                &&& after.out.drop_last() == state.out
                &&& after.out.last().name == name
                &&& after.out.last().file == base->0.file
            }
            &&& asks ==> after.seen.contains(lower(name))
        }),
{
    lemma_block_type(schema, block, b);
    second_word_is_the_name(block, n);
    let after = request_step(schema, index, children, range, finding, state);
    let name = leaf_at(block, n).text;
    if after.seen.len() > state.seen.len() {
        assert(after.seen[state.seen.len() as int] == lower(name));
    }
    if after.out.len() > state.out.len() {
        assert(after.out.drop_last() =~= state.out);
    }
}

} // verus!
