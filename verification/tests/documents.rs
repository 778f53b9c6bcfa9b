//! Open documents, what a scan adds to the workspace, and what is shown of it.

use std::sync::Arc;

use ropey::Rope;
use zerosyntax::analyzer::{Analyzer, Span};
use zerosyntax::convert::{Position, PositionEnc, TextRange};
use zerosyntax::diagnostics::{diagnose, diagnose_with_cache};
use zerosyntax::document::{
    changes_apply, choose_strategy, ChangeStrategy, DocumentStore, TextChange,
};
use zerosyntax::hover::{hover_markdown, write_type};
use zerosyntax::index::WorkspaceIndex;
use zerosyntax::ingest::scan_ini;
use zerosyntax::nav::hover_at;
use zerosyntax::origin::{copy_requests, origin_copy_fixes};
use zerosyntax::scan::MAX_PREVIEW_ASSET_BYTES;
use zerosyntax::schema::{
    BlockType, BuiltinDef, Field, ModuleSlot, ModuleType, RefKind, Schema, SubBlock, ValueMember,
    ValueSet, ValueType,
};
use zerosyntax::server::{
    apply_scan, clamp_percentage, configured_roots, fits_preview, indent_unit, is_map_layer_file,
    percent, scan_totals, settings_of, take_base_roots_hint, ClientOptions, HintState,
    ModelMemberStrictness, Throttle,
};
use zerosyntax::session::{RenameError, SemanticReply, Session};
use zerosyntax::symbols::{is_single_token, symbol_at, symbol_sites};

fn field(name: &str, value_type: ValueType) -> Field {
    Field {
        name: name.to_string(),
        value_type,
        parse_fn: format!("parse{name}"),
        doc: None,
    }
}

fn enumeration(set: &str) -> ValueType {
    ValueType::Enum {
        value_set: set.to_string(),
    }
}

fn flags(set: &str) -> ValueType {
    ValueType::BitFlags {
        value_set: set.to_string(),
    }
}

fn reference(ref_kind: RefKind) -> ValueType {
    ValueType::Reference { ref_kind }
}

fn prefixed(prefix: &str, value_type: ValueType) -> ValueType {
    ValueType::Prefixed {
        prefix: prefix.to_string(),
        value_type: Box::new(value_type),
    }
}

fn value_set(id: &str, members: &[&str]) -> ValueSet {
    ValueSet {
        id: id.to_string(),
        members: members
            .iter()
            .enumerate()
            .map(|(value, name)| ValueMember {
                name: name.to_string(),
                value: value as i64,
            })
            .collect(),
    }
}

fn block(name: &str, defines: Option<RefKind>, fields: Vec<Field>) -> BlockType {
    BlockType {
        name: name.to_string(),
        parse_fn: format!("parse{name}"),
        named: true,
        terminated: true,
        defines,
        fields,
        module_slots: vec![],
        sub_blocks: vec![],
        doc: None,
    }
}

fn sub_block(keyword: &str, fields: Vec<Field>) -> SubBlock {
    SubBlock {
        keyword: keyword.to_string(),
        fields,
        sub_blocks: vec![],
        reenters_parent: false,
        argument_type: None,
        doc: None,
    }
}

fn slot(keyword: &str, interface: &str) -> ModuleSlot {
    ModuleSlot {
        keyword: keyword.to_string(),
        accepts: vec![interface.to_string()],
        doc: None,
    }
}

fn module(name: &str, interface: &str, fields: Vec<Field>) -> ModuleType {
    ModuleType {
        name: name.to_string(),
        interfaces: vec![interface.to_string()],
        fields,
        sub_blocks: vec![],
        doc: None,
    }
}

fn draw_module(name: &str) -> ModuleType {
    ModuleType {
        name: name.to_string(),
        interfaces: vec!["Draw".to_string()],
        fields: vec![],
        sub_blocks: vec![sub_block(
            "DefaultConditionState",
            vec![
                field("Model", ValueType::W3dModel),
                field("HideSubObject", ValueType::W3dModelMember),
                field(
                    "WeaponFireFXBone",
                    ValueType::TokenList {
                        tokens: vec![enumeration("weapon_slot"), ValueType::W3dModelMember],
                    },
                ),
            ],
        )],
        doc: None,
    }
}

fn object_block(name: &str, defines: Option<RefKind>) -> BlockType {
    BlockType {
        module_slots: vec![
            slot("Body", "Body"),
            slot("Behavior", "Behavior"),
            slot("Draw", "Draw"),
        ],
        sub_blocks: vec![
            sub_block(
                "WeaponSet",
                vec![
                    field("Conditions", flags("set_conditions")),
                    field(
                        "Weapon",
                        ValueType::TokenList {
                            tokens: vec![enumeration("weapon_slot"), reference(RefKind::Weapon)],
                        },
                    ),
                ],
            ),
            sub_block(
                "ArmorSet",
                vec![
                    field("Conditions", flags("set_conditions")),
                    field("Armor", reference(RefKind::Armor)),
                ],
            ),
        ],
        ..block(name, defines, vec![field("VisionRange", ValueType::Real)])
    }
}

fn embedded() -> Analyzer {
    Analyzer::new(Schema {
        format_version: 1,
        engine_revision: "test".to_string(),
        blocks: vec![
            block(
                "Weapon",
                Some(RefKind::Weapon),
                vec![
                    field("PrimaryDamage", ValueType::Real),
                    field("ClipSize", ValueType::Int),
                    field("ScaleWeaponSpeed", ValueType::Bool),
                    field("DeathType", enumeration("death_types")),
                    field("FireFX", reference(RefKind::FxList)),
                    field("FireSound", reference(RefKind::AudioEvent)),
                ],
            ),
            object_block("Object", Some(RefKind::Object)),
            object_block("ObjectReskin", Some(RefKind::Object)),
            block(
                "Armor",
                Some(RefKind::Armor),
                vec![field("Armor", ValueType::AsciiStringList)],
            ),
            block(
                "Locomotor",
                Some(RefKind::Locomotor),
                vec![field("Appearance", enumeration("locomotor_appearance"))],
            ),
            block("FXList", Some(RefKind::FxList), vec![]),
            block("Upgrade", Some(RefKind::Upgrade), vec![field("BuildTime", ValueType::Real)]),
            block("ParticleSystem", Some(RefKind::ParticleSystem), vec![]),
            block("AudioEvent", Some(RefKind::AudioEvent), vec![]),
            block("DialogEvent", Some(RefKind::AudioEvent), vec![]),
            block("MusicTrack", Some(RefKind::AudioEvent), vec![]),
        ],
        modules: vec![
            module("ActiveBody", "Body", vec![field("MaxHealth", ValueType::Real)]),
            module("AutoHealBehavior", "Behavior", vec![field("HealingAmount", ValueType::Int)]),
            module(
                "SlowDeathBehavior",
                "Behavior",
                vec![field("DeathTypes", flags("death_types"))],
            ),
            module(
                "WeaponSetUpgrade",
                "Behavior",
                vec![field(
                    "TriggeredBy",
                    ValueType::ReferenceList {
                        ref_kind: RefKind::Upgrade,
                    },
                )],
            ),
            module("ArmorUpgrade", "Behavior", vec![]),
            module("OverlordContain", "Behavior", vec![]),
            module(
                "TransitionDamageFX",
                "Behavior",
                vec![field(
                    "DamagedParticleSystem1",
                    ValueType::TokenList {
                        tokens: vec![
                            prefixed("Bone", ValueType::AsciiString),
                            prefixed("RandomBone", ValueType::Bool),
                            prefixed("PSys", reference(RefKind::ParticleSystem)),
                        ],
                    },
                )],
            ),
            draw_module("W3DModelDraw"),
            draw_module("W3DTruckDraw"),
            draw_module("W3DTankDraw"),
        ],
        value_sets: vec![
            value_set("weapon_slot", &["PRIMARY", "SECONDARY", "TERTIARY"]),
            value_set("death_types", &["NORMAL", "BURNED", "EXPLODED", "CRUSHED"]),
            value_set("set_conditions", &["VETERAN", "ELITE", "PLAYER_UPGRADE"]),
            value_set("locomotor_appearance", &["TWO_LEGS", "TREADS", "HOVER", "WINGS"]),
        ],
        builtins: vec![BuiltinDef {
            ref_kind: RefKind::Upgrade,
            name: "Upgrade_Veterancy".to_string(),
            doc: None,
        }],
    })
}

const OLD: &str = "Object Old\nEnd\n";
const NEW: &str = "Object New\nEnd\n";

fn uri(name: &str) -> String {
    format!("file:///C:/zerosyntax-tests/{name}")
}

fn ranged(start: Position, end: Position, text: &str) -> TextChange {
    TextChange {
        range: Some(TextRange { start, end }),
        text: text.to_string(),
    }
}

fn replacement(text: &str) -> TextChange {
    TextChange {
        range: None,
        text: text.to_string(),
    }
}

fn assert_synchronized(store: &DocumentStore, uri: &str) {
    let snapshot = store.snapshot(uri).unwrap();
    assert_eq!(snapshot.rope.to_string(), *snapshot.text);
    assert_eq!(snapshot.parse.text(), *snapshot.text);
}

#[test]
fn ranged_incremental_change_keeps_snapshot_synchronized() {
    let analyzer = embedded();
    let mut store = DocumentStore::new();
    let uri = uri("incremental.ini");
    store.open(&analyzer, &uri, OLD.to_string(), 1);

    let strategy = store.change(
        &analyzer,
        &uri,
        &vec![ranged(Position::new(0, 7), Position::new(0, 10), "New")],
        2,
        PositionEnc::Utf16,
    );

    assert_eq!(strategy, Some(ChangeStrategy::Incremental));
    let snapshot = store.snapshot(&uri).unwrap();
    assert_eq!(*snapshot.text, "Object New\nEnd\n");
    assert_eq!(snapshot.rope.to_string(), *snapshot.text);
    assert_eq!(snapshot.parse.text(), *snapshot.text);
    assert_eq!(snapshot.version, 2);
}

#[test]
fn full_replacement_rebuilds_all_representations() {
    let analyzer = embedded();
    let mut store = DocumentStore::new();
    let uri = uri("full.ini");
    store.open(&analyzer, &uri, OLD.to_string(), 1);
    let strategy = store.change(
        &analyzer,
        &uri,
        &vec![replacement("Object New\nEnd\n")],
        2,
        PositionEnc::Utf16,
    );
    assert_eq!(strategy, Some(ChangeStrategy::Full));
    assert_eq!(*store.snapshot(&uri).unwrap().text, NEW);
    assert_synchronized(&store, &uri);
}

#[test]
fn many_ranged_changes_use_bulk_fallback() {
    let analyzer = embedded();
    let mut store = DocumentStore::new();
    let uri = uri("bulk.ini");
    store.open(&analyzer, &uri, "123456789\n".to_string(), 1);
    let changes: Vec<TextChange> = (0..9)
        .map(|column| ranged(Position::new(0, column), Position::new(0, column + 1), "x"))
        .collect();
    assert_eq!(
        store.change(&analyzer, &uri, &changes, 2, PositionEnc::Utf16),
        Some(ChangeStrategy::Bulk)
    );
    assert_eq!(*store.snapshot(&uri).unwrap().text, "xxxxxxxxx\n");
    assert_synchronized(&store, &uri);
}

#[test]
fn crlf_changes_honor_utf8_and_utf16_positions() {
    for (encoding, character) in [(PositionEnc::Utf8, 4), (PositionEnc::Utf16, 2)] {
        let analyzer = embedded();
        let mut store = DocumentStore::new();
        let uri = uri(if encoding == PositionEnc::Utf8 {
            "utf8.ini"
        } else {
            "utf16.ini"
        });
        store.open(&analyzer, &uri, "😀x\r\nEnd\r\n".to_string(), 1);
        store.change(
            &analyzer,
            &uri,
            &vec![ranged(
                Position::new(0, character),
                Position::new(0, character + 1),
                "y",
            )],
            2,
            encoding,
        );
        assert_eq!(*store.snapshot(&uri).unwrap().text, "😀y\r\nEnd\r\n");
    }
}

#[test]
fn rejects_stale_diagnostic_cache_restoration() {
    let analyzer = embedded();
    let mut store = DocumentStore::new();
    let uri = uri("diagnostics.ini");
    store.open(&analyzer, &uri, OLD.to_string(), 1);
    let checked_out = store.checkout_diagnostics(&uri).unwrap();
    store.change(
        &analyzer,
        &uri,
        &vec![replacement("Object New\nEnd\n")],
        2,
        PositionEnc::Utf16,
    );
    assert!(!store.restore_diagnostics(&uri, checked_out.document.version, checked_out.cache));
    let current = store.checkout_diagnostics(&uri).unwrap();
    assert!(store.restore_diagnostics(&uri, current.document.version, current.cache));
}

#[test]
fn semantic_history_is_replaced() {
    let analyzer = embedded();
    let mut store = DocumentStore::new();
    let uri = uri("semantic.ini");
    store.open(&analyzer, &uri, String::new(), 1);
    assert!(store
        .replace_semantic_history(&uri, (1, Vec::new()))
        .is_none());
    assert_eq!(
        store.replace_semantic_history(&uri, (2, Vec::new())),
        Some((1, Vec::new()))
    );
}

#[test]
fn source_precedence_is_open_then_virtual_then_disk() {
    let analyzer = embedded();
    let mut store = DocumentStore::new();
    let disk_uri = uri("zerosyntax-document.ini");
    assert_eq!(
        store.source_text(&disk_uri, Some("disk")).as_deref(),
        Some("disk")
    );
    store.open(&analyzer, &disk_uri, "open".to_string(), 1);
    assert_eq!(
        store.source_text(&disk_uri, Some("disk")).as_deref(),
        Some("open")
    );

    let big_uri = "big:///archive.big!/entry.ini";
    store.replace_virtual_files(&vec![(big_uri.to_string(), "virtual".to_string())]);
    assert_eq!(store.source_text(big_uri, None).as_deref(), Some("virtual"));
    assert_eq!(
        store.rope_for(big_uri, None).map(|rope| rope.to_string()).as_deref(),
        Some("virtual")
    );
    store.open(&analyzer, big_uri, "open-big".to_string(), 1);
    assert_eq!(store.source_text(big_uri, None).as_deref(), Some("open-big"));
    assert_eq!(store.source_text("no uri", Some("disk")), None);
}

#[test]
fn closing_forgets_the_document() {
    let analyzer = embedded();
    let mut store = DocumentStore::new();
    let (one, two) = (uri("one.ini"), uri("two.ini"));
    store.open(&analyzer, &one, OLD.to_string(), 1);
    store.open(&analyzer, &two, NEW.to_string(), 1);
    let mut open = store.open_uris();
    open.sort();
    assert_eq!(open, vec![one.clone(), two.clone()]);
    store.close(&one);
    assert!(store.snapshot(&one).is_none());
    assert_eq!(store.open_uris(), vec![two]);
    let unopened = store.change(
        &analyzer,
        &one,
        &vec![replacement(NEW)],
        2,
        PositionEnc::Utf16,
    );
    assert_eq!(unopened, None);
}

#[test]
fn virtual_files_are_inserted_replaced_and_cleared() {
    let mut store = DocumentStore::new();
    store.insert_virtual_file("big:///a", "one".to_string());
    store.insert_virtual_file("big:///b", "two".to_string());
    assert_eq!(store.read_virtual_file("big:///a").as_deref(), Some("one"));
    store.replace_virtual_files(&vec![("big:///c".to_string(), "three".to_string())]);
    assert_eq!(store.read_virtual_file("big:///a"), None);
    assert_eq!(store.read_virtual_file("big:///c").as_deref(), Some("three"));
    store.clear_virtual_files();
    assert_eq!(store.read_virtual_file("big:///c"), None);
}

#[test]
fn clearing_diagnostic_caches_starts_over() {
    let analyzer = embedded();
    let mut store = DocumentStore::new();
    let uri = uri("cache.ini");
    store.open(&analyzer, &uri, "Weapon A\nEnd\nWeapon B\nEnd\n".to_string(), 1);
    let mut taken = store.checkout_diagnostics(&uri).unwrap();
    diagnose_with_cache(&analyzer, &taken.document.parse, None, None, &mut taken.cache);
    assert_eq!(taken.cache.stats(), (0, 2));
    assert!(store.restore_diagnostics(&uri, 1, taken.cache));
    store.clear_diagnostic_caches();
    assert_eq!(store.checkout_diagnostics(&uri).unwrap().cache.stats(), (0, 0));
}

#[test]
fn large_texts_use_bulk_fallback() {
    let large = "x".repeat(40_000);
    let at_start = |text: &str| ranged(Position::new(0, 0), Position::new(0, 0), text);
    assert_eq!(
        choose_strategy(&vec![at_start(&large), at_start("x")]),
        ChangeStrategy::Bulk
    );
    assert_eq!(choose_strategy(&vec![at_start(&large)]), ChangeStrategy::Incremental);
    assert_eq!(
        choose_strategy(&vec![at_start("x"), at_start("y")]),
        ChangeStrategy::Incremental
    );
    assert_eq!(choose_strategy(&vec![replacement(&large)]), ChangeStrategy::Full);
}

#[test]
fn backward_ranges_do_not_apply() {
    let rope = Rope::from_str(OLD);
    let enc = PositionEnc::Utf16;
    let forward = ranged(Position::new(0, 0), Position::new(0, 6), "Weapon");
    let backward = ranged(Position::new(0, 6), Position::new(0, 0), "Weapon");
    assert!(changes_apply(&rope, &vec![forward], enc));
    assert!(!changes_apply(&rope, &vec![backward], enc));
}

#[test]
fn two_batches_are_one() {
    let analyzer = embedded();
    let enc = PositionEnc::Utf16;
    let first = || ranged(Position::new(0, 7), Position::new(0, 10), "Newer");
    let second = || ranged(Position::new(0, 10), Position::new(0, 12), "");
    let mut split = DocumentStore::new();
    split.open(&analyzer, "file:///s", OLD.to_string(), 1);
    split.change(&analyzer, "file:///s", &vec![first()], 2, enc);
    split.change(&analyzer, "file:///s", &vec![second()], 3, enc);
    let mut joined = DocumentStore::new();
    joined.open(&analyzer, "file:///s", OLD.to_string(), 1);
    joined.change(&analyzer, "file:///s", &vec![first(), second()], 3, enc);
    assert_eq!(*split.snapshot("file:///s").unwrap().text, NEW);
    assert_eq!(*joined.snapshot("file:///s").unwrap().text, NEW);
}

// symbols

fn indexed(analyzer: &Analyzer, files: &[(&str, &str)]) -> WorkspaceIndex {
    let mut index = WorkspaceIndex::new();
    for (file, text) in files {
        let entry = scan_ini(analyzer, file, text, false);
        index.set_file(file, entry.definitions);
        index.set_file_refs(file, entry.references);
        index.set_file_tags(file, entry.tags);
    }
    index
}

#[test]
fn symbols_are_found_from_references_and_definitions() {
    let analyzer = embedded();
    let user = "Weapon Gun\n  FireFX = Boom\nEnd\n";
    let index = indexed(&analyzer, &[("b.ini", user), ("a.ini", "FXList BOOM\nEnd\n")]);
    let parse = analyzer.parse(user);
    let at = symbol_at(&analyzer, &parse, user.find("Boom").unwrap() as u32).unwrap();
    assert_eq!((at.kind, at.name.as_str()), (RefKind::FxList, "Boom"));
    let name = symbol_at(&analyzer, &parse, user.find("Gun").unwrap() as u32).unwrap();
    assert_eq!((name.kind, name.name.as_str()), (RefKind::Weapon, "Gun"));
    assert!(symbol_at(&analyzer, &parse, 0).is_none());

    let sites = symbol_sites(&index, RefKind::FxList, "boom", true);
    let files: Vec<&str> = sites.iter().map(|site| site.file.as_str()).collect();
    assert_eq!(files, vec!["a.ini", "b.ini"]);
    let uses = symbol_sites(&index, RefKind::FxList, "boom", false);
    assert_eq!(uses.len(), 1);
    assert_eq!(uses[0].file, "b.ini");
}

#[test]
fn new_names_are_single_tokens() {
    assert!(is_single_token("AK47_Gun"));
    for name in ["", "two words", "a=b", "a;b", "\"quoted\"", "tab\tbed"] {
        assert!(!is_single_token(name), "{name:?}");
    }
}

#[test]
fn workspace_symbols_match_parts_of_names() {
    let analyzer = embedded();
    let index = indexed(
        &analyzer,
        &[("a.ini", "Weapon BigGun\nEnd\nWeapon Knife\nEnd\nObject GunTower\nEnd\n")],
    );
    let hits = index.symbols("gun", 10);
    let mut names: Vec<&str> = hits.iter().map(|hit| hit.name.as_str()).collect();
    names.sort();
    assert_eq!(names, vec!["BigGun", "GunTower"]);
    assert_eq!(index.symbols("gun", 1).len(), 1);
    assert_eq!(index.symbols("", 10).len(), 3);
}

// hover

#[test]
fn hovers_are_markdown() {
    let analyzer = embedded();
    let src = "Weapon AK47\n  PrimaryDamage = 50.0\nEnd\n";
    let offset = src.find("PrimaryDamage").unwrap() as u32;
    let info = hover_at(&analyzer, &analyzer.parse(src), offset).unwrap();
    let (markdown, span) = hover_markdown(&analyzer, &info);
    assert!(markdown.contains("PrimaryDamage"), "{markdown}");
    assert!(markdown.contains("Real"), "{markdown}");
    assert_eq!(&src[span.start as usize..span.end as usize], "PrimaryDamage");
}

#[test]
fn types_are_written_as_debug_text() {
    for ty in [
        ValueType::Real,
        enumeration("weapon_slot"),
        reference(RefKind::FxList),
        prefixed("PSys", ValueType::Bool),
        ValueType::TokenList {
            tokens: vec![ValueType::Int, flags("a\"b")],
        },
        ValueType::TokenList { tokens: vec![] },
    ] {
        assert_eq!(write_type(&ty), format!("{ty:?}"));
    }
}

// origin copies

#[test]
fn overrides_offer_the_base_definition() {
    let analyzer = embedded();
    let base = "Object Tank\n  VisionRange = 5\nEnd\nObject Other\nEnd\n";
    let map = "Object Tank\nEnd\n";
    let index = indexed(
        &analyzer,
        &[("file:///data/Base.ini", base), ("file:///maps/map.ini", map)],
    );
    let parse = analyzer.parse(map);
    let diagnostics = diagnose(&analyzer, &parse, Some(&index), Some("file:///maps/map.ini"));
    assert!(diagnostics.iter().any(|d| d.code == "overrides"));
    let whole = Span::new(0, map.len() as u32);
    let requests = copy_requests(&analyzer, &parse, whole, &diagnostics, &index);
    assert_eq!(requests.len(), 1);
    assert_eq!(requests[0].name, "Tank");
    assert_eq!(requests[0].file, "file:///data/Base.ini");

    let fixes = origin_copy_fixes(&analyzer, map, &requests, &vec![Some(base.to_string())]);
    assert_eq!(fixes.len(), 1);
    assert!(fixes[0].title.contains("Tank") && fixes[0].title.contains("Base.ini"));
    assert!(fixes[0].new_text.contains("VisionRange = 5"));
    assert!(!fixes[0].new_text.contains("Other"));
    assert!(origin_copy_fixes(&analyzer, map, &requests, &vec![None]).is_empty());

    let nowhere = copy_requests(&analyzer, &parse, Span::new(99, 99), &diagnostics, &index);
    assert!(nowhere.is_empty());
}

// server rules

#[test]
fn detects_map_layer_filenames() {
    assert!(is_map_layer_file("file:///C:/Maps/Foo/map.ini"));
    assert!(is_map_layer_file("C:\\Maps\\Foo\\solo.ini"));
    assert!(!is_map_layer_file("C:/Data/INI/Object.ini"));
}

#[test]
fn the_base_roots_hint_is_shown_once() {
    let mut state = HintState {
        scan_finished: true,
        base_indexed: 0,
        roots_empty: true,
        client_hint: false,
        shown: false,
    };
    assert!(!take_base_roots_hint("data/Object.ini", &mut state));
    assert!(take_base_roots_hint("maps/map.ini", &mut state));
    assert!(!take_base_roots_hint("maps/map.ini", &mut state));
    let mut indexed = HintState {
        base_indexed: 1,
        shown: false,
        ..state
    };
    assert!(!take_base_roots_hint("maps/map.ini", &mut indexed));
    let mut client = HintState {
        client_hint: true,
        shown: false,
        ..state
    };
    assert!(!take_base_roots_hint("maps/map.ini", &mut client));
}

#[test]
fn percentages_stay_within_a_hundred() {
    assert_eq!(percent(0, 3), 0);
    assert_eq!(percent(1, 3), 33);
    assert_eq!(percent(3, 3), 100);
    assert_eq!(clamp_percentage(Some(250)), Some(100));
    assert_eq!(clamp_percentage(Some(25)), Some(25));
    assert_eq!(clamp_percentage(None), None);
}

#[test]
fn progress_reports_end_with_the_last_file() {
    let mut throttle = Throttle::new(1000);
    let mut reports = 0;
    for i in 0..1000 {
        let reported = throttle.advance();
        reports += usize::from(reported);
        if i == 999 {
            assert!(reported);
        }
    }
    assert!(reports <= 101, "{reports}");
}

#[test]
fn scans_leave_open_documents_alone() {
    let analyzer = embedded();
    let mut index = indexed(&analyzer, &[("file:///open.ini", "Weapon Edited\nEnd\n")]);
    let mut store = DocumentStore::new();
    let entries = vec![
        (false, scan_ini(&analyzer, "file:///open.ini", "Weapon OnDisk\nEnd\n", false)),
        (true, scan_ini(&analyzer, "big:///base.ini", "Weapon Base\nEnd\n", true)),
    ];
    let totals = scan_totals(&entries);
    assert_eq!((totals.base_ini, totals.ini, totals.models), (1, 2, 0));
    apply_scan(&mut index, &mut store, entries, &vec!["file:///open.ini".to_string()]);
    assert!(index.is_defined(RefKind::Weapon, "Edited"));
    assert!(!index.is_defined(RefKind::Weapon, "OnDisk"));
    assert!(index.is_defined(RefKind::Weapon, "Base"));
    assert_eq!(
        store.read_virtual_file("big:///base.ini").as_deref(),
        Some("Weapon Base\nEnd\n")
    );
}

#[test]
fn settings_are_normalized() {
    let roots = vec![" C:/Game ".to_string(), "  ".to_string(), "C:/Mod".to_string()];
    assert_eq!(configured_roots(&roots), vec![" C:/Game ", "C:/Mod"]);
    assert_eq!(indent_unit(true, 3), "   ");
    assert_eq!(indent_unit(false, 3), "\t");
    assert!(fits_preview(MAX_PREVIEW_ASSET_BYTES));
    assert!(!fits_preview(MAX_PREVIEW_ASSET_BYTES + 1));
}

#[test]
fn options_that_are_left_out_are_off() {
    let settings = settings_of(ClientOptions {
        encodings: vec![],
        format: None,
        schema_path: Some("  ".to_string()),
        base_roots: None,
        base_hint: None,
        member_strictness: None,
        snippets: Some(false),
        progress: None,
    });
    assert_eq!(settings.encoding, PositionEnc::Utf16);
    assert!(!settings.format && !settings.base_hint && !settings.snippets && !settings.progress);
    assert!(settings.schema_path.is_none() && settings.base_roots.is_empty());
    assert_eq!(settings.member_strictness, ModelMemberStrictness::Compatible);
    let settings = settings_of(ClientOptions {
        encodings: vec!["utf-8".to_string()],
        format: Some(true),
        schema_path: Some("schema.json".to_string()),
        base_roots: Some(vec!["".to_string(), "C:/Game".to_string()]),
        base_hint: Some(true),
        member_strictness: Some("strict".to_string()),
        snippets: Some(true),
        progress: Some(true),
    });
    assert_eq!(settings.encoding, PositionEnc::Utf8);
    assert!(settings.format && settings.base_hint && settings.snippets && settings.progress);
    assert_eq!(settings.schema_path.as_deref(), Some("schema.json"));
    assert_eq!(settings.base_roots, vec!["C:/Game"]);
    assert_eq!(settings.member_strictness, ModelMemberStrictness::Strict);
}

#[test]
fn member_strictness_is_off_strict_or_compatible() {
    let read = |value: &str| {
        settings_of(ClientOptions {
            encodings: vec![],
            format: None,
            schema_path: None,
            base_roots: None,
            base_hint: None,
            member_strictness: Some(value.to_string()),
            snippets: None,
            progress: None,
        })
        .member_strictness
    };
    assert_eq!(read("off"), ModelMemberStrictness::Off);
    assert_eq!(read("strict"), ModelMemberStrictness::Strict);
    assert_eq!(read("compatible"), ModelMemberStrictness::Compatible);
    assert_eq!(read("Strict"), ModelMemberStrictness::Compatible);
    assert_eq!(read(""), ModelMemberStrictness::Compatible);
}

// sessions

const GUN: &str = "Weapon Gun\n  FireFX = Boom\nEnd\n";

fn session() -> Session {
    Session::new(Arc::new(embedded()), PositionEnc::Utf16, false, true)
}

fn codes(session: &mut Session, uri: &str) -> Vec<&'static str> {
    session
        .refresh(uri, vec![])
        .unwrap()
        .iter()
        .map(|diagnostic| diagnostic.code)
        .collect()
}

#[test]
fn diagnostics_follow_definitions_in_other_documents() {
    let mut session = session();
    let (gun, boom) = (uri("gun.ini"), uri("boom.ini"));
    session.open(&gun, GUN.to_string(), 1);
    assert_eq!(codes(&mut session, &gun), vec!["unresolved-reference"]);
    // Asked again, the cache answers.
    assert_eq!(codes(&mut session, &gun), vec!["unresolved-reference"]);
    session.open(&boom, "FXList Boom\nEnd\n".to_string(), 1);
    assert!(codes(&mut session, &boom).is_empty());
    assert!(codes(&mut session, &gun).is_empty());
    session.change(&boom, &vec![replacement("FXList Bang\nEnd\n")], 2);
    assert!(codes(&mut session, &boom).is_empty());
    let shown = session.refresh(&gun, vec![]).unwrap();
    assert_eq!(shown[0].code, "unresolved-reference");
    assert_eq!(shown[0].range.start, Position::new(1, 11));
    assert!(session.refresh("file:///closed.ini", vec![]).is_none());
}

#[test]
fn renames_reach_other_documents() {
    let mut session = session();
    let (gun, boom) = (uri("gun.ini"), uri("boom.ini"));
    session.open(&gun, GUN.to_string(), 1);
    session.open(&boom, "\nFXList BOOM\nEnd\n".to_string(), 1);
    codes(&mut session, &gun);
    codes(&mut session, &boom);
    let at = Position::new(1, 12);
    let places = session.rename(&gun, at, "Bang").unwrap().unwrap();
    let shown = session.locate(&places, &vec![None, None]);
    let files: Vec<&str> = shown.iter().map(|site| site.file.as_str()).collect();
    assert_eq!(files, vec![boom.as_str(), gun.as_str()]);
    assert_eq!(shown[0].range.start, Position::new(1, 7));
    assert_eq!(shown[1].range.end, Position::new(1, 15));
    assert_eq!(
        session.rename(&gun, at, "two words").unwrap_err(),
        RenameError::NotAToken
    );
    assert!(session.rename(&gun, Position::new(0, 1), "Bang").unwrap().is_none());
    assert_eq!(session.prepare_rename(&gun, at).unwrap().start, Position::new(1, 11));
    assert_eq!(session.references(&gun, at, false).unwrap().len(), 1);
    let defined = session.definition(&gun, at).unwrap();
    assert_eq!(defined[0].file, boom);
    assert!(session.definition(&gun, Position::new(0, 1)).is_none());
    // A file that is closed is read from disk.
    session.close(&boom);
    assert_eq!(session.locate(&defined, &vec![None]).len(), 0);
    let disk = Some("\n\nFXList BOOM\nEnd\n".to_string());
    assert_eq!(session.locate(&defined, &vec![disk]).len(), 1);
}

#[test]
fn tokens_are_sent_whole_or_spliced() {
    let mut session = session();
    let gun = uri("gun.ini");
    session.open(&gun, GUN.to_string(), 1);
    let (first, sent) = match session.semantic(&gun, None).unwrap() {
        SemanticReply::Full(id, tokens) => (id, tokens),
        SemanticReply::Delta(..) => panic!("expected all tokens"),
    };
    let change = ranged(Position::new(0, 7), Position::new(0, 10), "Cannon");
    session.change(&gun, &vec![change], 2);
    match session.semantic(&gun, Some(&first.to_string())).unwrap() {
        SemanticReply::Delta(id, splice) => {
            assert_eq!(id, first + 1);
            let from = splice.start as usize / 5;
            let to = from + splice.delete_count as usize / 5;
            let mut result = sent[..from].to_vec();
            result.extend_from_slice(&splice.data);
            result.extend_from_slice(&sent[to..]);
            let whole = TextRange {
                start: Position::new(0, 0),
                end: Position::new(9, 0),
            };
            assert_eq!(result, session.semantic_range(&gun, whole).unwrap());
        }
        SemanticReply::Full(..) => panic!("expected a splice"),
    }
    assert!(matches!(
        session.semantic(&gun, Some("0")),
        Some(SemanticReply::Full(..))
    ));
    assert!(session.semantic("file:///closed.ini", None).is_none());
}

#[test]
fn requests_are_answered_for_open_documents() {
    let mut session = session();
    let gun = uri("gun.ini");
    let text = "Weapon Gun\n\n  ClipSize = lots\n    FireFX = Boom\nEnd\n";
    session.open(&gun, text.to_string(), 1);
    codes(&mut session, &gun);
    let items = session.completion(&gun, Position::new(1, 0)).unwrap();
    assert!(items.iter().any(|item| item.label == "PrimaryDamage"));
    let (markdown, range) = session.hover(&gun, Position::new(2, 4)).unwrap();
    assert!(markdown.contains("ClipSize"));
    assert_eq!(range.end, Position::new(2, 10));
    let edits = session.formatting(&gun, true, 2).unwrap();
    assert_eq!(edits.len(), 1);
    assert_eq!(edits[0].range.start, Position::new(3, 0));
    assert_eq!(session.folding(&gun).unwrap(), vec![(0, 4)]);
    assert_eq!(session.outline(&gun).unwrap()[0].name, "Gun");
    let whole = TextRange {
        start: Position::new(0, 0),
        end: Position::new(5, 0),
    };
    let (offered, requests) = session.actions(&gun, whole).unwrap();
    assert!(offered.iter().any(|fix| fix.title.contains("bad-number")));
    assert!(requests.is_empty());
    assert_eq!(session.symbols("gun").len(), 1);
    assert_eq!(session.open_uris(), vec![gun]);
    assert!(session.completion("file:///closed.ini", Position::new(0, 0)).is_none());
}

#[test]
fn scans_feed_the_session() {
    let analyzer = embedded();
    let mut session = session();
    let map = "file:///maps/map.ini";
    session.open(map, "Object Tank\nEnd\n".to_string(), 1);
    codes(&mut session, map);
    assert!(!session.take_hint(map));
    let base = "Object Tank\n  VisionRange = 5\nEnd\n";
    let totals = session.take_scan(vec![
        (true, scan_ini(&analyzer, "big:///base.big!/Tank.ini", base, true)),
        (false, scan_ini(&analyzer, map, "Object OnDisk\nEnd\n", false)),
    ]);
    assert_eq!((totals.base_ini, totals.ini), (1, 2));
    assert!(!session.take_hint(map), "base files were found");
    assert_eq!(codes(&mut session, map), vec!["overrides"]);
    assert_eq!(session.symbols("OnDisk").len(), 0);
    let whole = TextRange {
        start: Position::new(0, 0),
        end: Position::new(2, 0),
    };
    let (_, requests) = session.actions(map, whole).unwrap();
    assert_eq!(requests.len(), 1);
    let source = session.source_text(&requests[0].file, None);
    assert_eq!(source.as_deref(), Some(base));
    let copies = session.copy_actions(map, &requests, &vec![source]).unwrap();
    assert_eq!(copies.len(), 1);
    assert!(copies[0].new_text.contains("VisionRange"));
    assert_eq!(session.model_count(), 0);
    assert!(session.read_virtual_file("big:///base.big!/Tank.ini").is_some());
}

#[test]
fn the_hint_needs_an_empty_base() {
    let mut session = session();
    assert_eq!(session.take_scan(vec![]).ini, 0);
    assert!(!session.take_hint("file:///data/Object.ini"));
    assert!(session.take_hint("file:///maps/map.ini"));
    assert!(!session.take_hint("file:///maps/map.ini"));
}
