//! What a workspace file or an archive entry contributes to the index.

use vstd::prelude::*;
use vstd::string::*;

use crate::analyzer::{Analyzer, SchemaOpeners};
use crate::big::{entry_views, BigEntry, BigEntryView};
use crate::facts::{item_views, ModelAsset, ModelView, ModuleTag, TagView};
use crate::index::{definition_views, definitions_in, definitions_of, Definition, DefinitionView};
use crate::lexer::byte_len;
use crate::names::{
    extension, extension_of, file_stem_str, from_utf8_lossy, lossy_text, rsplit_once, split_last,
    stem_of,
};
use crate::nav::{ReferenceAt, ReferenceView};
use crate::parser::parse_text;
use crate::schema::Schema;
use crate::sites::{document_references, document_tags, module_tags_in, references_in};
use crate::sorting::{
    indices, key_views, reordered, sort_indices, sorted_order, KeyView, SortKey,
};
use crate::text::{blen, last_segment, lower, same_ignoring_case, short_file};
use crate::w3d::{models_of, parse_w3d_models};

verus! {

/// What kind of input a file is, by its extension.
#[derive(Debug, Clone, Copy, PartialEq, Eq, Structural)]
pub enum InputKind {
    /// A BIG archive.
    Big,
    /// An INI file.
    Ini,
    /// A W3D model file.
    Model,
    /// A sound.
    Audio,
    /// A texture.
    Texture,
}

/// The kind of input that an extension, in whatever case, stands for.
pub open spec fn kind_of(extension: Seq<char>) -> Option<InputKind> {
    if same_ignoring_case(extension, "big"@) {
        Some(InputKind::Big)
    } else if same_ignoring_case(extension, "ini"@) {
        Some(InputKind::Ini)
    } else if same_ignoring_case(extension, "w3d"@) {
        Some(InputKind::Model)
    } else if same_ignoring_case(extension, "wav"@) || same_ignoring_case(extension, "mp3"@) {
        Some(InputKind::Audio)
    } else if same_ignoring_case(extension, "tga"@) || same_ignoring_case(extension, "dds"@) {
        Some(InputKind::Texture)
    } else {
        None
    }
}

/// The kind of input that an extension stands for.
pub fn input_kind(extension: &str) -> (out: Option<InputKind>)
    ensures
        out == kind_of(extension@),
{
    if extension.eq_ignore_ascii_case("big") {
        Some(InputKind::Big)
    } else if extension.eq_ignore_ascii_case("ini") {
        Some(InputKind::Ini)
    } else if extension.eq_ignore_ascii_case("w3d") {
        Some(InputKind::Model)
    } else if extension.eq_ignore_ascii_case("wav") || extension.eq_ignore_ascii_case("mp3") {
        Some(InputKind::Audio)
    } else if extension.eq_ignore_ascii_case("tga") || extension.eq_ignore_ascii_case("dds") {
        Some(InputKind::Texture)
    } else {
        None
    }
}

/// What a raw asset is.
#[derive(Debug, Clone, Copy, PartialEq, Eq, Structural)]
pub enum AssetKind {
    Audio,
    Texture,
}

/// A sound or a texture.
#[derive(Debug)]
pub struct FileAsset {
    pub kind: AssetKind,
    pub name: String,
    pub uri: String,
}

#[verifier::ext_equal]
pub struct AssetView {
    pub kind: AssetKind,
    pub name: Seq<char>,
    pub uri: Seq<char>,
}

impl View for FileAsset {
    type V = AssetView;

    open spec fn view(&self) -> AssetView {
        AssetView { kind: self.kind, name: self.name@, uri: self.uri@ }
    }
}

/// The asset that a path names: its last segment, if that ends in a sound's or a
/// texture's extension.
pub open spec fn asset_of(path: Seq<char>, uri: Seq<char>) -> Option<AssetView> {
    let name = last_segment(path);
    match split_last(name, '.') {
        None => None,
        Some((_, extension)) => match kind_of(extension) {
            Some(InputKind::Audio) => Some(AssetView { kind: AssetKind::Audio, name, uri }),
            Some(InputKind::Texture) => Some(AssetView { kind: AssetKind::Texture, name, uri }),
            _ => None,
        },
    }
}

pub open spec fn opt_asset(asset: Option<FileAsset>) -> Option<AssetView> {
    match asset {
        Some(asset) => Some(asset@),
        None => None,
    }
}

/// The asset that a path names.
pub fn raw_asset(path: &str, uri: &str) -> (out: Option<FileAsset>)
    ensures
        opt_asset(out) == asset_of(path@, uri@),
{
    let name = short_file(path);
    match rsplit_once(name, '.') {
        None => None,
        Some((_, extension)) => {
            let kind = match input_kind(&extension) {
                Some(InputKind::Audio) => AssetKind::Audio,
                Some(InputKind::Texture) => AssetKind::Texture,
                _ => {
                    return None;
                },
            };
            Some(FileAsset { kind, name: name.to_string(), uri: uri.to_string() })
        },
    }
}

/// What a file contributes to the index.
#[derive(Debug)]
pub struct ScanEntry {
    pub file: String,
    pub definitions: Vec<Definition>,
    pub references: Vec<ReferenceAt>,
    pub tags: Vec<ModuleTag>,
    pub models: Vec<ModelAsset>,
    pub assets: Vec<FileAsset>,
    pub text: Option<String>,
}

#[verifier::ext_equal]
pub struct ScanView {
    pub file: Seq<char>,
    pub definitions: Seq<DefinitionView>,
    pub references: Seq<ReferenceView>,
    pub tags: Seq<TagView>,
    pub models: Seq<ModelView>,
    pub assets: Seq<AssetView>,
    pub text: Option<Seq<char>>,
}

impl View for ScanEntry {
    type V = ScanView;

    open spec fn view(&self) -> ScanView {
        ScanView {
            file: self.file@,
            definitions: definition_views(self.definitions@),
            references: item_views(self.references@),
            tags: item_views(self.tags@),
            models: item_views(self.models@),
            assets: item_views(self.assets@),
            text: match self.text {
                Some(text) => Some(text@),
                None => None,
            },
        }
    }
}

/// A file that contributes nothing.
pub open spec fn nothing_from(file: Seq<char>) -> ScanView {
    ScanView {
        file,
        definitions: Seq::empty(),
        references: Seq::empty(),
        tags: Seq::empty(),
        models: Seq::empty(),
        assets: Seq::empty(),
        text: None,
    }
}

/// What an INI file contributes.
pub open spec fn ini_scan(
    schema: Schema,
    openers: SchemaOpeners,
    file: Seq<char>,
    text: Seq<char>,
    keep: bool,
) -> ScanView {
    let children = parse_text(openers, text).children;
    ScanView {
        definitions: definitions_of(schema, children),
        references: document_references(schema, children),
        tags: document_tags(schema, children),
        text: if keep {
            Some(text)
        } else {
            None
        },
        ..nothing_from(file)
    }
}

/// What a model file contributes: nothing worth an entry if it has no models.
pub open spec fn model_scan(file: Seq<char>, bytes: Seq<u8>, stem: Seq<char>) -> Option<ScanView> {
    let models = models_of(bytes, stem);
    if models.len() == 0 {
        None
    } else {
        Some(ScanView { models, ..nothing_from(file) })
    }
}

/// What raw assets contribute.
pub open spec fn asset_scan(file: Seq<char>, assets: Seq<AssetView>) -> ScanView {
    ScanView { assets, ..nothing_from(file) }
}

proof fn lemma_no_views()
    ensures
        definition_views(Seq::<Definition>::empty()) == Seq::<DefinitionView>::empty(),
        item_views(Seq::<ReferenceAt>::empty()) == Seq::<ReferenceView>::empty(),
        item_views(Seq::<ModuleTag>::empty()) == Seq::<TagView>::empty(),
        item_views(Seq::<ModelAsset>::empty()) == Seq::<ModelView>::empty(),
        item_views(Seq::<FileAsset>::empty()) == Seq::<AssetView>::empty(),
{
    assert(definition_views(Seq::<Definition>::empty()) =~= Seq::<DefinitionView>::empty());
    assert(item_views(Seq::<ReferenceAt>::empty()) =~= Seq::<ReferenceView>::empty());
    assert(item_views(Seq::<ModuleTag>::empty()) =~= Seq::<TagView>::empty());
    assert(item_views(Seq::<ModelAsset>::empty()) =~= Seq::<ModelView>::empty());
    assert(item_views(Seq::<FileAsset>::empty()) =~= Seq::<AssetView>::empty());
}

/// Scan an INI file. `keep` holds on to the text, for files that cannot be read
/// again by path.
pub fn scan_ini(analyzer: &Analyzer, file: &str, text: &str, keep: bool) -> (out: ScanEntry)
    requires
        blen(text@) <= u32::MAX,
    ensures
        out@ == ini_scan(analyzer.schema, analyzer.openers, file@, text@, keep),
{
    let parse = analyzer.parse(text);
    proof {
        lemma_no_views();
    }
    ScanEntry {
        file: file.to_string(),
        definitions: definitions_in(analyzer, &parse, file),
        references: references_in(analyzer, &parse),
        tags: module_tags_in(analyzer, &parse),
        models: Vec::new(),
        assets: Vec::new(),
        text: if keep {
            Some(text.to_string())
        } else {
            None
        },
    }
}

pub open spec fn opt_scan(entry: Option<ScanEntry>) -> Option<ScanView> {
    match entry {
        Some(entry) => Some(entry@),
        None => None,
    }
}

/// Scan a model file.
pub fn scan_model(file: &str, bytes: &[u8], stem: &str) -> (out: Option<ScanEntry>)
    ensures
        opt_scan(out) == model_scan(file@, bytes@, stem@),
{
    let models = parse_w3d_models(bytes, stem);
    proof {
        lemma_no_views();
    }
    if models.len() == 0 {
        return None;
    }
    Some(
        ScanEntry {
            file: file.to_string(),
            definitions: Vec::new(),
            references: Vec::new(),
            tags: Vec::new(),
            models,
            assets: Vec::new(),
            text: None,
        },
    )
}

/// An entry for raw assets.
pub fn scan_assets(file: &str, assets: Vec<FileAsset>) -> (out: ScanEntry)
    ensures
        out@ == asset_scan(file@, item_views(assets@)),
{
    proof {
        lemma_no_views();
    }
    ScanEntry {
        file: file.to_string(),
        definitions: Vec::new(),
        references: Vec::new(),
        tags: Vec::new(),
        models: Vec::new(),
        assets,
        text: None,
    }
}

// ---------------------------------------------------------------------------
// Loose files
// ---------------------------------------------------------------------------
/// Why an input could not be scanned.
#[derive(Debug, Clone, Copy, PartialEq, Eq, Structural)]
pub enum ScanError {
    /// The content of entry `0` could not be read.
    Unreadable(usize),
    /// The text of entry `0` is too long for 32-bit offsets.
    TooLong(usize),
}

/// What a loose file with content `bytes` contributes.
pub open spec fn loose_scan(
    schema: Schema,
    openers: SchemaOpeners,
    file: Seq<char>,
    path: Seq<char>,
    extension: Seq<char>,
    stem: Seq<char>,
    bytes: Seq<u8>,
) -> Seq<ScanView> {
    match kind_of(extension) {
        Some(InputKind::Ini) => seq![ini_scan(schema, openers, file, lossy_text(bytes), false)],
        Some(InputKind::Model) => match model_scan(file, bytes, stem) {
            Some(scan) => seq![scan],
            None => Seq::empty(),
        },
        _ => match asset_of(path, file) {
            Some(asset) => seq![asset_scan(file, seq![asset])],
            None => Seq::empty(),
        },
    }
}

/// Scan a loose file that is no archive: its URI, path, extension and stem, and
/// its content, which only INI and model files need.
pub fn scan_loose(
    analyzer: &Analyzer,
    file: &str,
    path: &str,
    extension: &str,
    stem: &str,
    bytes: &[u8],
) -> (out: Result<Vec<ScanEntry>, ScanError>)
    ensures
        match out {
            Ok(entries) => item_views(entries@) == loose_scan(
                analyzer.schema,
                analyzer.openers,
                file@,
                path@,
                extension@,
                stem@,
                bytes@,
            ),
            Err(error) => error == ScanError::TooLong(0) && kind_of(extension@) == Some(
                InputKind::Ini,
            ) && blen(lossy_text(bytes@)) > u32::MAX,
        },
{
    let mut out: Vec<ScanEntry> = Vec::new();
    match input_kind(extension) {
        Some(InputKind::Ini) => {
            let text = from_utf8_lossy(bytes);
            if byte_len(&text) > u32::MAX as usize {
                return Err(ScanError::TooLong(0));
            }
            out.push(scan_ini(analyzer, file, &text, false));
        },
        Some(InputKind::Model) => {
            if let Some(entry) = scan_model(file, bytes, stem) {
                out.push(entry);
            }
        },
        _ => {
            if let Some(asset) = raw_asset(path, file) {
                let ghost view = asset@;
                let mut assets: Vec<FileAsset> = Vec::new();
                assets.push(asset);
                assert(item_views(assets@) =~= seq![view]);
                out.push(scan_assets(file, assets));
            }
        },
    }
    assert(item_views(out@) =~= loose_scan(
        analyzer.schema,
        analyzer.openers,
        file@,
        path@,
        extension@,
        stem@,
        bytes@,
    ));
    Ok(out)
}

/// The path of a discovered input: without its extension, and the extension.
#[derive(Debug)]
pub struct PathName {
    pub stem: String,
    pub extension: String,
}

/// What the inputs of a root are sorted by: the path without its extension, then
/// `dds` files behind others.
pub open spec fn path_key(path: PathName) -> KeyView {
    KeyView {
        text: lower(path.stem@),
        rank: if same_ignoring_case(path.extension@, "dds"@) {
            1
        } else {
            0
        },
    }
}

pub open spec fn path_keys(paths: Seq<PathName>) -> Seq<KeyView> {
    Seq::new(paths.len(), |i: int| path_key(paths[i]))
}

/// The order in which the inputs of a root are indexed.
pub fn path_order(paths: &Vec<PathName>) -> (order: Vec<usize>)
    ensures
        indices(order@) == sorted_order(path_keys(paths@)),
{
    let mut keys: Vec<SortKey> = Vec::new();
    let mut i: usize = 0;
    while i < paths.len()
        invariant
            i <= paths.len(),
            keys.len() == i,
            forall|j: int| 0 <= j < i ==> (#[trigger] keys[j])@ == path_key(paths[j]),
        decreases paths.len() - i,
    {
        let rank: u64 = if paths[i].extension.as_str().eq_ignore_ascii_case("dds") {
            1
        } else {
            0
        };
        keys.push(SortKey { text: paths[i].stem.as_str().to_ascii_lowercase(), rank });
        i += 1;
    }
    assert(key_views(keys@) =~= path_keys(paths@));
    sort_indices(&keys)
}

// ---------------------------------------------------------------------------
// Archives
// ---------------------------------------------------------------------------
/// Whether the content of an entry is needed to scan it.
pub open spec fn needs_content(name: Seq<char>) -> bool {
    kind_of(extension_of(name)) == Some(InputKind::Ini) || kind_of(extension_of(name)) == Some(
        InputKind::Model,
    )
}

/// Whether the content of an entry is needed to scan it.
pub fn wants_content(name: &str) -> (yes: bool)
    ensures
        yes == needs_content(name@),
{
    match input_kind(&extension(name)) {
        Some(InputKind::Ini) => true,
        Some(InputKind::Model) => true,
        _ => false,
    }
}

pub open spec fn opt_bytes(content: Option<Vec<u8>>) -> Option<Seq<u8>> {
    match content {
        Some(bytes) => Some(bytes@),
        None => None,
    }
}

/// What the first `n` entries of an archive contribute, raw assets aside.
pub open spec fn archive_scans(
    schema: Schema,
    openers: SchemaOpeners,
    uris: Seq<String>,
    entries: Seq<BigEntryView>,
    contents: Seq<Option<Vec<u8>>>,
    n: nat,
) -> Seq<ScanView>
    decreases n,
{
    if n == 0 {
        Seq::empty()
    } else {
        let rest = archive_scans(schema, openers, uris, entries, contents, (n - 1) as nat);
        let i = n - 1;
        let name = entries[i].name;
        match (kind_of(extension_of(name)), opt_bytes(contents[i])) {
            (Some(InputKind::Ini), Some(bytes)) => rest.push(
                ini_scan(schema, openers, uris[i]@, lossy_text(bytes), true),
            ),
            (Some(InputKind::Model), Some(bytes)) => match model_scan(
                uris[i]@,
                bytes,
                stem_of(name),
            ) {
                Some(scan) => rest.push(scan),
                None => rest,
            },
            _ => rest,
        }
    }
}

/// The raw assets among the first `n` entries of an archive.
pub open spec fn archive_assets(uris: Seq<String>, entries: Seq<BigEntryView>, n: nat) -> Seq<
    AssetView,
>
    decreases n,
{
    if n == 0 {
        Seq::empty()
    } else {
        let rest = archive_assets(uris, entries, (n - 1) as nat);
        let i = n - 1;
        if needs_content(entries[i].name) {
            rest
        } else {
            match asset_of(entries[i].name, uris[i]@) {
                Some(asset) => rest.push(asset),
                None => rest,
            }
        }
    }
}

/// What raw assets are sorted by: the stem of the name, then `dds` files behind
/// others.
pub open spec fn asset_key(name: Seq<char>) -> KeyView {
    KeyView {
        text: lower(stem_of(name)),
        rank: if split_last(name, '.') matches Some((_, extension)) && same_ignoring_case(
            extension,
            "dds"@,
        ) {
            1
        } else {
            0
        },
    }
}

pub open spec fn asset_keys(assets: Seq<AssetView>) -> Seq<KeyView> {
    Seq::new(assets.len(), |i: int| asset_key(assets[i].name))
}

/// Raw assets in order.
pub open spec fn sorted_assets(assets: Seq<AssetView>) -> Seq<AssetView> {
    reordered(assets, sorted_order(asset_keys(assets)))
}

fn key_of(name: &str) -> (key: SortKey)
    ensures
        key@ == asset_key(name@),
{
    let rank: u64 = match rsplit_once(name, '.') {
        Some((_, extension)) => if extension.as_str().eq_ignore_ascii_case("dds") {
            1
        } else {
            0
        },
        None => 0,
    };
    SortKey { text: file_stem_str(name).as_str().to_ascii_lowercase(), rank }
}

/// Put raw assets in order, so that a texture's `dds` file, which takes
/// precedence, comes last.
pub fn sort_assets(assets: &Vec<FileAsset>) -> (out: Vec<FileAsset>)
    ensures
        item_views(out@) == sorted_assets(item_views(assets@)),
{
    let ghost all = item_views(assets@);
    let mut keys: Vec<SortKey> = Vec::new();
    let mut i: usize = 0;
    while i < assets.len()
        invariant
            i <= assets.len(),
            all == item_views(assets@),
            keys.len() == i,
            forall|j: int| 0 <= j < i ==> (#[trigger] keys[j])@ == asset_key(all[j].name),
        decreases assets.len() - i,
    {
        assert(all[i as int] == assets@[i as int]@);
        keys.push(key_of(&assets[i].name));
        i += 1;
    }
    assert(key_views(keys@) =~= asset_keys(all));
    let order = sort_indices(&keys);
    let mut out: Vec<FileAsset> = Vec::new();
    let mut i: usize = 0;
    while i < order.len()
        invariant
            i <= order.len(),
            order.len() == assets.len(),
            all == item_views(assets@),
            forall|j: int| 0 <= j < order.len() ==> #[trigger] order[j] < assets.len(),
            out.len() == i,
            forall|j: int| 0 <= j < i ==> (#[trigger] out[j])@ == all[order[j] as int],
        decreases order.len() - i,
    {
        let asset = &assets[order[i]];
        assert(all[order[i as int] as int] == assets@[order[i as int] as int]@);
        out.push(
            FileAsset { kind: asset.kind, name: asset.name.clone(), uri: asset.uri.clone() },
        );
        i += 1;
    }
    assert(item_views(out@) =~= sorted_assets(all)) by {
        let ints = indices(order@);
        assert forall|j: int| 0 <= j < out.len() implies #[trigger] item_views(out@)[j]
            == sorted_assets(all)[j] by {
            assert(ints[j] == order[j]);
        }
    }
    out
}

/// What an archive contributes: its INI and model entries in their order, then
/// its raw assets under `assets_uri`.
pub open spec fn archive_scan(
    schema: Schema,
    openers: SchemaOpeners,
    uris: Seq<String>,
    entries: Seq<BigEntryView>,
    contents: Seq<Option<Vec<u8>>>,
    assets_uri: Seq<char>,
) -> Seq<ScanView> {
    let scans = archive_scans(schema, openers, uris, entries, contents, entries.len());
    let assets = sorted_assets(archive_assets(uris, entries, entries.len()));
    if assets.len() == 0 {
        scans
    } else {
        scans.push(asset_scan(assets_uri, assets))
    }
}

/// Whether entry `i` of an archive can be scanned: what is needed of its content
/// was read, and is not too long.
pub open spec fn entry_scans(
    entries: Seq<BigEntryView>,
    contents: Seq<Option<Vec<u8>>>,
    i: int,
) -> bool {
    match opt_bytes(contents[i]) {
        None => !needs_content(entries[i].name),
        Some(bytes) => kind_of(extension_of(entries[i].name)) == Some(InputKind::Ini) ==> blen(
            lossy_text(bytes),
        ) <= u32::MAX,
    }
}

/// The first entry from `i` on that cannot be scanned, or the number of entries.
pub open spec fn first_unscannable(
    entries: Seq<BigEntryView>,
    contents: Seq<Option<Vec<u8>>>,
    i: int,
) -> int
    decreases entries.len() - i,
{
    if i < 0 || i >= entries.len() || !entry_scans(entries, contents, i) {
        i
    } else {
        first_unscannable(entries, contents, i + 1)
    }
}

/// Scan an archive: the URI of each entry, the directory, and the content of each
/// entry as far as it could be read.
pub fn scan_big(
    analyzer: &Analyzer,
    uris: &Vec<String>,
    entries: &Vec<BigEntry>,
    contents: &Vec<Option<Vec<u8>>>,
    assets_uri: &str,
) -> (out: Result<Vec<ScanEntry>, ScanError>)
    requires
        uris.len() == entries.len(),
        contents.len() == entries.len(),
    ensures
        ({
            let views = entry_views(entries@);
            let bad = first_unscannable(views, contents@, 0);
            match out {
                Ok(scans) => bad == entries.len() && item_views(scans@) == archive_scan(
                    analyzer.schema,
                    analyzer.openers,
                    uris@,
                    views,
                    contents@,
                    assets_uri@,
                ),
                Err(ScanError::Unreadable(i)) => i == bad && i < entries.len() && contents[i as int]
                    is None,
                Err(ScanError::TooLong(i)) => i == bad && i < entries.len() && contents[i as int]
                    is Some,
            }
        }),
{
    let ghost views = entry_views(entries@);
    let mut out: Vec<ScanEntry> = Vec::new();
    let mut assets: Vec<FileAsset> = Vec::new();
    let mut i: usize = 0;
    assert(item_views(out@) =~= Seq::<ScanView>::empty());
    assert(item_views(assets@) =~= Seq::<AssetView>::empty());
    while i < entries.len()
        invariant
            i <= entries.len(),
            uris.len() == entries.len(),
            contents.len() == entries.len(),
            views == entry_views(entries@),
            first_unscannable(views, contents@, 0) == first_unscannable(
                views,
                contents@,
                i as int,
            ),
            item_views(out@) == archive_scans(
                analyzer.schema,
                analyzer.openers,
                uris@,
                views,
                contents@,
                i as nat,
            ),
            item_views(assets@) == archive_assets(uris@, views, i as nat),
        decreases entries.len() - i,
    {
        let ghost scans0 = item_views(out@);
        let ghost assets0 = item_views(assets@);
        assert(views[i as int] == entries@[i as int]@);
        let name = &entries[i].name;
        match input_kind(&extension(name)) {
            Some(InputKind::Ini) => match &contents[i] {
                None => {
                    return Err(ScanError::Unreadable(i));
                },
                Some(bytes) => {
                    let text = from_utf8_lossy(bytes.as_slice());
                    if byte_len(&text) > u32::MAX as usize {
                        return Err(ScanError::TooLong(i));
                    }
                    let entry = scan_ini(analyzer, &uris[i], &text, true);
                    let ghost view = entry@;
                    out.push(entry);
                    assert(item_views(out@) =~= scans0.push(view));
                },
            },
            Some(InputKind::Model) => match &contents[i] {
                None => {
                    return Err(ScanError::Unreadable(i));
                },
                Some(bytes) => {
                    if let Some(entry) = scan_model(
                        &uris[i],
                        bytes.as_slice(),
                        &file_stem_str(name),
                    ) {
                        let ghost view = entry@;
                        out.push(entry);
                        assert(item_views(out@) =~= scans0.push(view));
                    }
                },
            },
            _ => {
                if let Some(asset) = raw_asset(name, &uris[i]) {
                    let ghost view = asset@;
                    assets.push(asset);
                    assert(item_views(assets@) =~= assets0.push(view));
                }
            },
        }
        i += 1;
    }
    let assets = sort_assets(&assets);
    if assets.len() > 0 {
        let ghost scans0 = item_views(out@);
        let entry = scan_assets(assets_uri, assets);
        let ghost view = entry@;
        out.push(entry);
        assert(item_views(out@) =~= scans0.push(view));
    }
    Ok(out)
}

// ---------------------------------------------------------------------------
// Laws
// ---------------------------------------------------------------------------
/// Law: putting raw assets in order loses none of them.
pub proof fn sorting_assets_keeps_them(assets: Seq<AssetView>, k: int)
    requires
        0 <= k < assets.len(),
    ensures
        sorted_assets(assets).len() == assets.len(),
        sorted_assets(assets).contains(assets[k]),
{
    let keys = asset_keys(assets);
    crate::sorting::sorting_is_stable(keys);
    let order = sorted_order(keys);
    crate::sorting::every_item_is_listed(order, assets.len(), k);
    let i = choose|i: int| 0 <= i < order.len() && order[i] == k;
    assert(sorted_assets(assets)[i] == assets[k]);
}

} // verus!
