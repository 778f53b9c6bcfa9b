//! Models, archives, URIs, and scans of a workspace.

use zerosyntax::analyzer::Analyzer;
use zerosyntax::big::{big_entries, entry_content, find_entry, BigError};
use zerosyntax::completion::complete;
use zerosyntax::index::WorkspaceIndex;
use zerosyntax::ingest::{
    input_kind, raw_asset, scan_big, scan_loose, sort_assets, wants_content, AssetKind, FileAsset,
    InputKind, ScanEntry, ScanError,
};
use zerosyntax::names::{
    extension, file_stem_str, is_blank_text, rsplit_once, to_slashes, trim,
};
use zerosyntax::runner::{ScanAction, ScanRun};
use zerosyntax::scan::{
    accept_cache, assemble, manifest_unchanged, plan_inputs, reuse, scan_stats, CacheLoad,
    CacheState, CachedFile, Fingerprint, Found, IndexCache, InputOutcome, ScanProgress, ScanStats,
    ScanTally,
};
use zerosyntax::schema::{
    BlockType, BuiltinDef, Field, ModuleSlot, ModuleType, RefKind, Schema, SubBlock, ValueMember,
    ValueSet, ValueType,
};
use zerosyntax::sorting::{sort_indices, SortKey};
use zerosyntax::table::SlotTable;
use zerosyntax::uri::{
    big_uri, canonical_of, canonical_uri, locate_asset, path_name, place_asset, AssetError,
    AssetPlace,
};
use zerosyntax::w3d::{
    dedup_case_insensitive, is_w3d_container, parse_w3d_models, read_fixed_name, walk_w3d_chunks,
    Chunk, MAX_W3D_CHUNK_DEPTH,
};

fn field(name: &str, value_type: ValueType) -> Field {
    Field {
        name: name.to_string(),
        value_type,
        parse_fn: format!("parse{name}"),
        doc: None,
    }
}

fn enumeration(set: &str) -> ValueType {
    ValueType::Enum {
        value_set: set.to_string(),
    }
}

fn flags(set: &str) -> ValueType {
    ValueType::BitFlags {
        value_set: set.to_string(),
    }
}

fn reference(ref_kind: RefKind) -> ValueType {
    ValueType::Reference { ref_kind }
}

fn prefixed(prefix: &str, value_type: ValueType) -> ValueType {
    ValueType::Prefixed {
        prefix: prefix.to_string(),
        value_type: Box::new(value_type),
    }
}

fn value_set(id: &str, members: &[&str]) -> ValueSet {
    ValueSet {
        id: id.to_string(),
        members: members
            .iter()
            .enumerate()
            .map(|(value, name)| ValueMember {
                name: name.to_string(),
                value: value as i64,
            })
            .collect(),
    }
}

fn block(name: &str, defines: Option<RefKind>, fields: Vec<Field>) -> BlockType {
    BlockType {
        name: name.to_string(),
        parse_fn: format!("parse{name}"),
        named: true,
        terminated: true,
        defines,
        fields,
        module_slots: vec![],
        sub_blocks: vec![],
        doc: None,
    }
}

fn sub_block(keyword: &str, fields: Vec<Field>) -> SubBlock {
    SubBlock {
        keyword: keyword.to_string(),
        fields,
        sub_blocks: vec![],
        reenters_parent: false,
        argument_type: None,
        doc: None,
    }
}

fn slot(keyword: &str, interface: &str) -> ModuleSlot {
    ModuleSlot {
        keyword: keyword.to_string(),
        accepts: vec![interface.to_string()],
        doc: None,
    }
}

fn module(name: &str, interface: &str, fields: Vec<Field>) -> ModuleType {
    ModuleType {
        name: name.to_string(),
        interfaces: vec![interface.to_string()],
        fields,
        sub_blocks: vec![],
        doc: None,
    }
}

fn draw_module(name: &str) -> ModuleType {
    ModuleType {
        name: name.to_string(),
        interfaces: vec!["Draw".to_string()],
        fields: vec![],
        sub_blocks: vec![sub_block(
            "DefaultConditionState",
            vec![
                field("Model", ValueType::W3dModel),
                field("HideSubObject", ValueType::W3dModelMember),
                field(
                    "WeaponFireFXBone",
                    ValueType::TokenList {
                        tokens: vec![enumeration("weapon_slot"), ValueType::W3dModelMember],
                    },
                ),
            ],
        )],
        doc: None,
    }
}

fn object_block(name: &str, defines: Option<RefKind>) -> BlockType {
    BlockType {
        module_slots: vec![
            slot("Body", "Body"),
            slot("Behavior", "Behavior"),
            slot("Draw", "Draw"),
        ],
        sub_blocks: vec![
            sub_block(
                "WeaponSet",
                vec![
                    field("Conditions", flags("set_conditions")),
                    field(
                        "Weapon",
                        ValueType::TokenList {
                            tokens: vec![enumeration("weapon_slot"), reference(RefKind::Weapon)],
                        },
                    ),
                ],
            ),
            sub_block(
                "ArmorSet",
                vec![
                    field("Conditions", flags("set_conditions")),
                    field("Armor", reference(RefKind::Armor)),
                ],
            ),
        ],
        ..block(name, defines, vec![field("VisionRange", ValueType::Real)])
    }
}

fn embedded() -> Analyzer {
    Analyzer::new(Schema {
        format_version: 1,
        engine_revision: "test".to_string(),
        blocks: vec![
            block(
                "Weapon",
                Some(RefKind::Weapon),
                vec![
                    field("PrimaryDamage", ValueType::Real),
                    field("ClipSize", ValueType::Int),
                    field("ScaleWeaponSpeed", ValueType::Bool),
                    field("DeathType", enumeration("death_types")),
                    field("FireFX", reference(RefKind::FxList)),
                    field("FireSound", reference(RefKind::AudioEvent)),
                ],
            ),
            object_block("Object", Some(RefKind::Object)),
            object_block("ObjectReskin", Some(RefKind::Object)),
            block(
                "Armor",
                Some(RefKind::Armor),
                vec![field("Armor", ValueType::AsciiStringList)],
            ),
            block(
                "Locomotor",
                Some(RefKind::Locomotor),
                vec![field("Appearance", enumeration("locomotor_appearance"))],
            ),
            block("FXList", Some(RefKind::FxList), vec![]),
            block("Upgrade", Some(RefKind::Upgrade), vec![field("BuildTime", ValueType::Real)]),
            block("ParticleSystem", Some(RefKind::ParticleSystem), vec![]),
            block("AudioEvent", Some(RefKind::AudioEvent), vec![]),
            block("DialogEvent", Some(RefKind::AudioEvent), vec![]),
            block("MusicTrack", Some(RefKind::AudioEvent), vec![]),
        ],
        modules: vec![
            module("ActiveBody", "Body", vec![field("MaxHealth", ValueType::Real)]),
            module("AutoHealBehavior", "Behavior", vec![field("HealingAmount", ValueType::Int)]),
            module(
                "SlowDeathBehavior",
                "Behavior",
                vec![field("DeathTypes", flags("death_types"))],
            ),
            module(
                "WeaponSetUpgrade",
                "Behavior",
                vec![field(
                    "TriggeredBy",
                    ValueType::ReferenceList {
                        ref_kind: RefKind::Upgrade,
                    },
                )],
            ),
            module("ArmorUpgrade", "Behavior", vec![]),
            module("OverlordContain", "Behavior", vec![]),
            module(
                "TransitionDamageFX",
                "Behavior",
                vec![field(
                    "DamagedParticleSystem1",
                    ValueType::TokenList {
                        tokens: vec![
                            prefixed("Bone", ValueType::AsciiString),
                            prefixed("RandomBone", ValueType::Bool),
                            prefixed("PSys", reference(RefKind::ParticleSystem)),
                        ],
                    },
                )],
            ),
            draw_module("W3DModelDraw"),
            draw_module("W3DTruckDraw"),
            draw_module("W3DTankDraw"),
        ],
        value_sets: vec![
            value_set("weapon_slot", &["PRIMARY", "SECONDARY", "TERTIARY"]),
            value_set("death_types", &["NORMAL", "BURNED", "EXPLODED", "CRUSHED"]),
            value_set("set_conditions", &["VETERAN", "ELITE", "PLAYER_UPGRADE"]),
            value_set("locomotor_appearance", &["TWO_LEGS", "TREADS", "HOVER", "WINGS"]),
        ],
        builtins: vec![BuiltinDef {
            ref_kind: RefKind::Upgrade,
            name: "Upgrade_Veterancy".to_string(),
            doc: None,
        }],
    })
}

fn fixed<const N: usize>(name: &str) -> [u8; N] {
    let mut out = [0; N];
    let bytes = name.as_bytes();
    out[..bytes.len().min(N)].copy_from_slice(&bytes[..bytes.len().min(N)]);
    out
}

fn chunk(kind: u32, payload: Vec<u8>) -> Vec<u8> {
    let mut out = Vec::new();
    out.extend_from_slice(&kind.to_le_bytes());
    out.extend_from_slice(&(payload.len() as u32).to_le_bytes());
    out.extend_from_slice(&payload);
    out
}

fn w3d_with_member(member: &str) -> Vec<u8> {
    let mut pivot = fixed::<16>(member).to_vec();
    pivot.resize(60, 0);
    chunk(0x0000_0102, pivot)
}

fn model_with_members() -> Vec<u8> {
    let mut hlod = Vec::new();
    hlod.extend_from_slice(&1u32.to_le_bytes());
    hlod.extend_from_slice(&1u32.to_le_bytes());
    hlod.extend_from_slice(&fixed::<16>("Good"));
    hlod.extend_from_slice(&fixed::<16>("Good"));
    let mut pivot = Vec::new();
    pivot.extend_from_slice(&fixed::<16>("Tire01"));
    pivot.resize(60, 0);
    let mut sub = Vec::new();
    sub.extend_from_slice(&0u32.to_le_bytes());
    sub.extend_from_slice(&fixed::<32>("Good.Cargo01"));
    let mut bytes = Vec::new();
    bytes.extend(chunk(0x0000_0701, hlod));
    bytes.extend(chunk(0x0000_0102, pivot));
    bytes.extend(chunk(0x0000_0704, sub));
    bytes
}

fn named_containers() -> Vec<u8> {
    // Version + Name[16] header, wrapped in its container chunk.
    let mut header = Vec::new();
    header.extend_from_slice(&1u32.to_le_bytes());
    header.extend_from_slice(&fixed::<16>("Aggro"));
    let mut bytes = chunk(0x0000_0600, chunk(0x0000_0601, header));
    let mut header = Vec::new();
    header.extend_from_slice(&1u32.to_le_bytes());
    header.extend_from_slice(&fixed::<16>("Smoke"));
    bytes.extend(chunk(0x0000_0500, chunk(0x0000_0501, header)));
    bytes
}

/// A self-nesting container at every level: each 8-byte header claims the rest
/// of the file as payload.
fn nested_containers() -> Vec<u8> {
    let total: usize = 64 * 1024;
    let mut bytes = Vec::with_capacity(total);
    let mut remaining = total;
    while remaining >= 8 {
        bytes.extend_from_slice(&0x0000_0700u32.to_le_bytes());
        bytes.extend_from_slice(&((remaining - 8) as u32).to_le_bytes());
        remaining -= 8;
    }
    bytes
}

fn big(entries: &[(&str, Vec<u8>)]) -> Vec<u8> {
    let directory_len: usize = entries.iter().map(|(name, _)| 8 + name.len() + 1).sum();
    let mut offset = 0x10 + directory_len;
    let archive_size = offset + entries.iter().map(|(_, bytes)| bytes.len()).sum::<usize>();
    let mut out = Vec::with_capacity(archive_size);
    out.extend_from_slice(b"BIGF");
    out.extend_from_slice(&(archive_size as u32).to_be_bytes());
    out.extend_from_slice(&(entries.len() as u32).to_be_bytes());
    out.extend_from_slice(&0u32.to_be_bytes());
    for (name, bytes) in entries {
        out.extend_from_slice(&(offset as u32).to_be_bytes());
        out.extend_from_slice(&(bytes.len() as u32).to_be_bytes());
        out.extend_from_slice(name.as_bytes());
        out.push(0);
        offset += bytes.len();
    }
    for (_, bytes) in entries {
        out.extend_from_slice(bytes);
    }
    out
}

/// Scan an archive that is held in memory.
fn scan_archive(analyzer: &Analyzer, path: &str, bytes: &[u8]) -> Vec<ScanEntry> {
    let entries = big_entries(bytes).unwrap();
    let uris: Vec<String> = entries
        .iter()
        .map(|entry| big_uri(path, &to_slashes(&entry.name)).unwrap())
        .collect();
    let contents: Vec<Option<Vec<u8>>> = entries
        .iter()
        .map(|entry| entry_content(bytes, entry).map(|content| content.to_vec()))
        .collect();
    scan_big(analyzer, &uris, &entries, &contents, path).unwrap()
}

// models

#[test]
fn asset_index_parses_w3d_model_names_and_members() {
    let models = parse_w3d_models(&model_with_members(), "Fallback");
    let good = models.iter().find(|model| model.name == "Good").unwrap();
    assert!(good.members.iter().any(|member| member == "Tire01"));
    assert!(good.members.iter().any(|member| member == "Cargo01"));
}

#[test]
fn asset_index_parses_w3d_aggregate_and_emitter_names() {
    let models = parse_w3d_models(&named_containers(), "");
    assert!(models.iter().any(|model| model.name == "Aggro"));
    assert!(models.iter().any(|model| model.name == "Smoke"));
}

#[test]
fn asset_index_w3d_chunk_walker_survives_hostile_deep_nesting() {
    let _ = parse_w3d_models(&nested_containers(), "Fallback");
}

#[test]
fn backend_parses_w3d_model_names_and_members() {
    let models = parse_w3d_models(&model_with_members(), "Fallback");
    let good = models.iter().find(|m| m.name == "Good").unwrap();
    assert!(good.members.iter().any(|m| m == "Tire01"), "{good:?}");
    assert!(good.members.iter().any(|m| m == "Cargo01"), "{good:?}");
}

#[test]
fn backend_parses_w3d_aggregate_and_emitter_names() {
    let models = parse_w3d_models(&named_containers(), "");
    assert!(models.iter().any(|m| m.name == "Aggro"), "{models:?}");
    assert!(models.iter().any(|m| m.name == "Smoke"), "{models:?}");
}

#[test]
fn backend_w3d_chunk_walker_survives_hostile_deep_nesting() {
    let _ = parse_w3d_models(&nested_containers(), "Fallback");
}

#[test]
fn chunks_are_walked_down_to_a_depth() {
    let mut chunks: Vec<Chunk> = Vec::new();
    let bytes = nested_containers();
    walk_w3d_chunks(&bytes, 0, bytes.len(), 0, &mut chunks);
    assert!(chunks.len() <= MAX_W3D_CHUNK_DEPTH + 1, "{}", chunks.len());
    assert!(is_w3d_container(0x0000_0700));
    assert!(!is_w3d_container(0x0000_0102));
}

#[test]
fn chunks_are_walked_inside_the_bytes() {
    let bytes = named_containers();
    let walk = |pos: usize, end: usize| -> Vec<(u32, usize, usize)> {
        let mut chunks: Vec<Chunk> = Vec::new();
        walk_w3d_chunks(&bytes, pos, end, 0, &mut chunks);
        chunks
            .iter()
            .map(|chunk| (chunk.kind, chunk.start, chunk.end))
            .collect()
    };
    let all = walk(0, bytes.len());
    assert!(!all.is_empty());
    assert_eq!(walk(0, usize::MAX), all);
    assert!(walk(5, 2).is_empty());
    assert!(walk(usize::MAX, usize::MAX).is_empty());
}

#[test]
fn names_are_cut_at_the_first_zero() {
    assert_eq!(read_fixed_name(b"Tire01\0junk", 0, 11), "Tire01");
    assert_eq!(read_fixed_name(b"Tire01", 0, 4), "Tire");
    assert_eq!(read_fixed_name(b" T\0", 0, 3), "T");
    // Bytes that are no UTF-8 are no name.
    assert_eq!(read_fixed_name(b"T\xff\0", 0, 3), "");
}

#[test]
fn names_are_kept_once_in_whatever_case() {
    let names = ["Tire01", "TIRE01", "Cargo", "tire01"];
    let kept = dedup_case_insensitive(names.iter().map(|name| name.to_string()).collect());
    assert_eq!(kept.len(), 2);
    assert!(kept.iter().any(|name| name.eq_ignore_ascii_case("tire01")));
    assert!(kept.iter().any(|name| name == "Cargo"));
}

#[test]
fn files_without_names_are_named_after_the_file() {
    let models = parse_w3d_models(&w3d_with_member("Muzzle01"), "Tank");
    assert_eq!(models[0].name, "Tank");
    assert_eq!(models[0].members, vec!["Muzzle01"]);
}

// archives

#[test]
fn asset_index_scans_ini_from_big_archive() {
    let archive = big(&[(
        "Data/INI/Test.ini",
        b"Object BigArchiveObject\nEnd\n".to_vec(),
    )]);
    let scanned = scan_archive(&embedded(), "/game/test.big", &archive);
    assert_eq!(scanned.len(), 1);
    assert!(scanned[0]
        .definitions
        .iter()
        .any(|definition| definition.name == "BigArchiveObject"));
    assert_eq!(
        scanned[0].text.as_deref(),
        Some("Object BigArchiveObject\nEnd\n")
    );
}

#[test]
fn archive_entries_that_end_in_a_separator_are_scanned() {
    let archive = big(&[
        ("Data/INI/Test.ini/", b"Object First\nEnd\n".to_vec()),
        ("Data\\INI\\Other.ini\\.", b"Object Second\nEnd\n".to_vec()),
    ]);
    let scanned = scan_archive(&embedded(), "/game/test.big", &archive);
    let names: Vec<&str> = scanned
        .iter()
        .flat_map(|entry| entry.definitions.iter())
        .map(|definition| definition.name.as_str())
        .collect();
    assert_eq!(names, vec!["First", "Second"]);
}

#[test]
fn backend_scans_ini_from_big_archive() {
    let archive = big(&[(
        "Data\\INI\\Test.ini",
        b"Object BigArchiveObject\nEnd\n".to_vec(),
    )]);
    let scanned = scan_archive(&embedded(), "/game/zerosyntax-test.big", &archive);
    assert_eq!(scanned.len(), 1);
    assert!(canonical_uri(&scanned[0].file).is_some());
    assert!(scanned[0]
        .definitions
        .iter()
        .any(|d| d.name == "BigArchiveObject"));
    assert_eq!(
        scanned[0].text.as_deref(),
        Some("Object BigArchiveObject\nEnd\n")
    );
}

#[test]
fn archives_hold_models_and_assets_too() {
    let archive = big(&[
        ("Art/Tank.w3d", w3d_with_member("Muzzle01")),
        ("Art/Textures/tank.tga", vec![1]),
        ("Audio/Boom.wav", vec![2]),
        ("readme.txt", vec![3]),
    ]);
    let scanned = scan_archive(&embedded(), "/game/a.big", &archive);
    assert_eq!(scanned.len(), 2);
    assert_eq!(scanned[0].models[0].name, "Tank");
    let kinds: Vec<AssetKind> = scanned[1].assets.iter().map(|asset| asset.kind).collect();
    assert_eq!(kinds.len(), 2);
    assert!(kinds.contains(&AssetKind::Audio) && kinds.contains(&AssetKind::Texture));
}

#[test]
fn archive_directories_name_their_entries() {
    let archive = big(&[("a.ini", b"one".to_vec()), ("b.w3d", b"three".to_vec())]);
    let entries = big_entries(&archive).unwrap();
    assert_eq!(entries.len(), 2);
    assert_eq!(entries[1].name, "b.w3d");
    assert_eq!(entry_content(&archive, &entries[1]), Some(&b"three"[..]));
    assert_eq!(find_entry(&entries, "A.INI").unwrap().size, 3);
    assert!(find_entry(&entries, "c.ini").is_none());

    // The directory alone is enough to list the entries.
    let front = &archive[..entries[0].offset as usize];
    assert_eq!(big_entries(front).unwrap().len(), 2);
    assert_eq!(entry_content(front, &entries[0]), None);

    assert!(matches!(big_entries(b"BIG"), Err(BigError::Truncated)));
    assert!(matches!(
        big_entries(b"ZIPF000000000000"),
        Err(BigError::NotBig)
    ));
    assert!(matches!(
        big_entries(&archive[..20]),
        Err(BigError::Truncated)
    ));
}

#[test]
fn unreadable_archive_entries_stop_the_scan() {
    let archive = big(&[("a.ini", b"one".to_vec())]);
    let entries = big_entries(&archive).unwrap();
    let uris = vec!["big:///a.big!/a.ini".to_string()];
    let error = scan_big(&embedded(), &uris, &entries, &vec![None], "big:///a.big").unwrap_err();
    assert_eq!(error, ScanError::Unreadable(0));
    assert!(wants_content("a.ini") && wants_content("b.W3D"));
    assert!(!wants_content("c.tga"));
}

// loose files

#[test]
fn asset_index_w3d_root_scan_powers_model_and_bone_completions() {
    let analyzer = embedded();
    let bytes = w3d_with_member("Tire01");
    let entries = scan_loose(
        &analyzer,
        "file:///art/Good.w3d",
        "/art/Good.w3d",
        "w3d",
        "Good",
        &bytes,
    )
    .unwrap();
    let mut index = WorkspaceIndex::new();
    for entry in entries {
        index.set_file(&entry.file, entry.definitions);
        index.set_file_refs(&entry.file, entry.references);
        index.set_file_tags(&entry.file, entry.tags);
        index.set_file_models(&entry.file, entry.models);
    }
    assert!(index.is_model_asset("Good"), "model name from file stem");
    let source = "Object Tank\n  Draw = W3DTankDraw ModuleTag_01\n    DefaultConditionState\n      Model = Good\n      HideSubObject = \n    End\n  End\nEnd\n";
    let parse = analyzer.parse(source);
    let offset = source.find("HideSubObject = ").unwrap() + "HideSubObject = ".len();
    let labels: Vec<_> = complete(&analyzer, &parse, offset as u32, Some(&index), None)
        .into_iter()
        .map(|completion| completion.label)
        .collect();
    assert!(labels.contains(&"Tire".to_string()));
}

#[test]
fn loose_files_are_scanned_by_extension() {
    let analyzer = embedded();
    let scan = |path: &str, bytes: &[u8]| {
        let extension = extension(path);
        scan_loose(&analyzer, path, path, &extension, &file_stem_str(path), bytes).unwrap()
    };
    let ini = scan("/data/Weapon.INI", b"Weapon AK47\xff\nEnd\n");
    assert_eq!(ini[0].definitions[0].name, "AK47\u{fffd}");
    let texture = scan("/art/tank.dds", b"");
    assert_eq!(texture[0].assets[0].kind, AssetKind::Texture);
    assert!(scan("/data/readme.md", b"").is_empty());
    assert_eq!(input_kind("BIG"), Some(InputKind::Big));
    assert_eq!(input_kind("md"), None);
    let sound = raw_asset("/audio/Boom.wav", "file:///audio/Boom.wav").unwrap();
    assert_eq!(sound.kind, AssetKind::Audio);
}

#[test]
fn assets_are_kept_when_sorted() {
    let asset = |name: &str, kind: AssetKind| FileAsset {
        kind,
        name: name.to_string(),
        uri: format!("file:///{name}"),
    };
    let assets = vec![
        asset("b.tga", AssetKind::Texture),
        asset("A.wav", AssetKind::Audio),
        asset("a.wav", AssetKind::Audio),
    ];
    let sorted = sort_assets(&assets);
    assert_eq!(sorted.len(), 3);
    for kept in &assets {
        assert!(sorted.iter().any(|other| other.uri == kept.uri));
    }
}

#[test]
fn equal_keys_stay_in_order() {
    let key = |text: &str, rank: u64| SortKey {
        text: text.to_string(),
        rank,
    };
    let keys = vec![key("b", 0), key("a", 1), key("b", 0), key("a", 0)];
    assert_eq!(sort_indices(&keys), vec![3, 1, 0, 2]);
}

// names and URIs

#[test]
fn canonical_uri_pass_through_non_file() {
    assert_eq!(
        canonical_uri("untitled:///buffer").as_deref(),
        Some("untitled:///buffer")
    );
}

#[test]
fn file_uris_are_written_one_way() {
    let plain = canonical_uri("file:///mod/Object%20A.ini").unwrap();
    assert_eq!(canonical_uri(&plain), Some(plain.clone()));
    assert_eq!(canonical_uri("file:///mod/O%62ject%20A.ini"), Some(plain.clone()));
    assert!(plain.starts_with("file://"));
    assert_eq!(canonical_uri("FILE:///mod/Object%20A.ini"), Some(plain));
    assert_eq!(canonical_uri("no uri"), None);
    assert_eq!(
        canonical_of("file:///c%3A/x", "file", Some("file:///C:/x".to_string())),
        "file:///C:/x"
    );
    assert_eq!(
        canonical_of("big:///x", "big", Some("file:///C:/x".to_string())),
        "big:///x"
    );
}

#[test]
fn archive_entries_are_found_again() {
    let uri = big_uri("/game/INI ZH.big", "Data/INI/Object.ini").unwrap();
    assert!(uri.starts_with("big:///"), "{uri}");
    match locate_asset(&uri, false).unwrap() {
        AssetPlace::Archive { archive, entry } => {
            assert_eq!(archive, "/game/INI ZH.big");
            assert_eq!(entry, "Data/INI/Object.ini");
        }
        AssetPlace::File => panic!("expected an archive"),
    }
    match locate_asset("big:///C:/game/a.big!/x.w3d", true).unwrap() {
        AssetPlace::Archive { archive, .. } => assert_eq!(archive, "C:/game/a.big"),
        AssetPlace::File => panic!("expected an archive"),
    }
    assert!(matches!(
        locate_asset("file:///a.w3d", false),
        Ok(AssetPlace::File)
    ));
    assert!(matches!(locate_asset("no uri", false), Err(AssetError::Invalid)));
    assert!(matches!(
        locate_asset("big:///a.big", false),
        Err(AssetError::NoEntry)
    ));
    match locate_asset("http://host/a", false) {
        Err(AssetError::Scheme(scheme)) => assert_eq!(scheme, "http"),
        other => panic!("{other:?}"),
    }
    assert!(matches!(
        place_asset("big", "/a.big!/b%20c", false),
        Ok(AssetPlace::Archive { .. })
    ));
}

#[test]
fn plain_archive_paths_lead_back_from_their_uris() {
    for (archive, entry) in [
        ("/game/a b#c?.big", "Data\\INI\\Ümläut {x}.ini"),
        ("//server/share/mods.big", "Art/W3D/..tank..w3d"),
        ("/a!b!.big", "x/!/y.tga"),
        ("C:/game/a.big", "\u{1}<\"`>.dds"),
    ] {
        let uri = big_uri(archive, entry).unwrap();
        let rooted = if archive.starts_with('/') {
            archive.to_string()
        } else {
            format!("/{archive}")
        };
        match locate_asset(&uri, false).unwrap() {
            AssetPlace::Archive {
                archive: found,
                entry: named,
            } => {
                assert_eq!(found, rooted, "{uri}");
                assert_eq!(named, entry, "{uri}");
            }
            AssetPlace::File => panic!("expected an archive"),
        }
        assert_eq!(canonical_uri(&uri), Some(uri.clone()));
    }
}

#[test]
fn names_of_paths() {
    assert_eq!(file_stem_str("Art/Tank.v2.w3d"), "Tank.v2");
    assert_eq!(extension("Art/Tank.v2.w3d"), "w3d");
    assert_eq!(extension("Art/Tank"), "");
    // What stands behind the last name of a path does not count.
    assert_eq!(extension("Art/Tank.ini/"), "ini");
    assert_eq!(extension("Art\\Tank.ini\\.\\"), "ini");
    assert_eq!(extension("Tank.ini/./."), "ini");
    assert_eq!(extension("Tank.ini/.."), "");
    assert_eq!(extension("Art/.ini"), "");
    assert_eq!(extension("./"), "");
    assert_eq!(file_stem_str("Art\\Tank"), "Tank");
    assert_eq!(to_slashes("a\\b/c"), "a/b/c");
    assert_eq!(trim("  a b\t\n"), "a b");
    assert!(is_blank_text(" \t") && !is_blank_text(" x"));
    assert_eq!(
        rsplit_once("a:b:c", ':'),
        Some(("a:b".to_string(), "c".to_string()))
    );
    assert_eq!(rsplit_once("abc", ':'), None);
    assert_eq!(path_name("/game/a.big!/Data/x.ini"), "x.ini");
}

// scans and their cache

fn found(key: &str, len: u64, is_base: bool) -> Found {
    Found {
        key: key.to_string(),
        fingerprint: Some(Fingerprint {
            len,
            modified_secs: 1,
            modified_nanos: 0,
        }),
        is_base,
    }
}

fn cached(files: &[(&str, u64)]) -> IndexCache<u32> {
    let mut cache = IndexCache::empty(7);
    for (key, len) in files {
        cache.files.put(
            key,
            CachedFile {
                fingerprint: found(key, *len, false).fingerprint.unwrap(),
                entries: vec![*len as u32],
            },
        );
    }
    cache
}

#[test]
fn overlapping_roots_are_planned_once_as_base() {
    let inputs = vec![
        found("/mod/a.ini", 1, true),
        found("/mod/a.ini", 1, false),
        found("/mod/b.ini", 2, false),
        Found {
            key: "/mod/gone.ini".to_string(),
            fingerprint: None,
            is_base: false,
        },
    ];
    let plan = plan_inputs(&inputs);
    assert_eq!(plan.inputs, vec![0, 2]);
    assert_eq!(plan.fingerprint_failures, 1);
    let results = assemble(&inputs, &plan, vec![vec![1u32], vec![2, 3]]);
    assert_eq!(results, vec![(true, 1), (false, 2), (false, 3)]);
}

#[test]
fn caches_are_accepted_for_their_version_and_schema() {
    assert_eq!(
        accept_cache(CacheLoad::Parsed(cached(&[("/a", 1)])), 7).1,
        CacheState::Valid
    );
    assert_eq!(
        accept_cache(CacheLoad::Parsed(cached(&[("/a", 1)])), 8).1,
        CacheState::Stale
    );
    let (fresh, state) = accept_cache::<u32>(CacheLoad::Missing, 7);
    assert_eq!(state, CacheState::Absent);
    assert_eq!(fresh.files.len(), 0);
    assert_eq!(
        accept_cache::<u32>(CacheLoad::Unreadable, 7).1,
        CacheState::Corrupt
    );
}

#[test]
fn unchanged_files_are_reused() {
    let inputs = vec![found("/a", 1, false), found("/b", 2, false)];
    let plan = plan_inputs(&inputs);
    let unchanged = |files: &[(&str, u64)], state: CacheState, failures: usize| {
        manifest_unchanged(&cached(files), state, &inputs, &plan, failures)
    };
    assert!(unchanged(&[("/a", 1), ("/b", 2)], CacheState::Valid, 0));
    assert!(!unchanged(&[("/a", 1)], CacheState::Valid, 0));
    assert!(!unchanged(&[("/a", 1), ("/b", 3)], CacheState::Valid, 0));
    assert!(!unchanged(&[("/a", 1), ("/b", 2), ("/c", 3)], CacheState::Valid, 0));
    assert!(!unchanged(&[("/a", 1), ("/b", 2)], CacheState::Valid, 1));
    assert!(!unchanged(&[("/a", 1), ("/b", 2)], CacheState::Stale, 0));
    let mut cache = cached(&[("/a", 1), ("/b", 3)]);
    assert_eq!(reuse(&mut cache, &inputs[0]), Some(vec![1]));
    assert_eq!(reuse(&mut cache, &inputs[0]), None);
    assert_eq!(reuse(&mut cache, &inputs[1]), None);
}

#[test]
fn outcomes_are_counted() {
    let mut tally = ScanTally::new(3);
    tally.record(InputOutcome::Reused);
    tally.record(InputOutcome::Scanned);
    let last = tally.record(InputOutcome::Failed);
    assert!(matches!(
        last,
        ScanProgress::Indexing {
            done: 3,
            total: 3,
            ..
        }
    ));
    assert_eq!((tally.cache_hits, tally.scan_failures), (1, 1));
    let inputs = vec![found("/a", 1, false), found("/b", 2, false), found("/c", 3, false)];
    let plan = plan_inputs(&inputs);
    let stats = scan_stats(&plan, 2, tally, false, true);
    assert_eq!(stats.discovered_inputs, 3);
    assert_eq!(stats.skipped_inputs(), 3);
    assert!(stats.cache_written && stats.cache_updated);
    let kept = scan_stats(&plan, 0, ScanTally::new(3), true, true);
    assert!(kept.cache_written && !kept.cache_updated);
}

#[test]
fn tables_hold_one_value_per_key() {
    let mut table: SlotTable<u32> = SlotTable::new();
    table.put("a", 1);
    table.put("b", 2);
    table.put("a", 3);
    assert_eq!(table.get("a"), Some(&3));
    assert_eq!(table.get("A"), None);
    assert_eq!(table.len(), 2);
    let mut names = table.names();
    names.sort();
    assert_eq!(names, vec!["a", "b"]);
    assert_eq!(table.take("a"), Some(3));
    assert_eq!(table.take("a"), None);
    table.clear();
    assert_eq!(table.len(), 0);
}

/// Run a scan over inputs that are held in memory: an input of length `n` holds
/// one entry, `n`; one of length 99 cannot be scanned. Returns what the scan came
/// to, the cache after it, and what was reported.
fn run_scan(
    inputs: Vec<Found>,
    load: CacheLoad<u32>,
    failures: usize,
) -> (Vec<(bool, u32)>, ScanStats, IndexCache<u32>, Vec<ScanProgress>) {
    let lens: Vec<u64> = inputs
        .iter()
        .map(|input| input.fingerprint.map_or(0, |fingerprint| fingerprint.len))
        .collect();
    let mut events = Vec::new();
    let mut run = ScanRun::begin(inputs, load, 7, failures);
    events.push(run.discovered());
    if run.keeps_cache() {
        run.refreshed(true);
    }
    loop {
        match run.next() {
            ScanAction::Report(event) => events.push(event),
            ScanAction::Scan(at) => {
                let outcome = if lens[at] == 99 {
                    None
                } else {
                    Some(vec![lens[at] as u32])
                };
                events.push(run.scanned(outcome));
            }
            ScanAction::Finished => break,
        }
    }
    let mut cache = IndexCache::empty(7);
    for line in run.cache_lines() {
        cache.files.put(
            line.key,
            CachedFile {
                fingerprint: line.fingerprint,
                entries: line.entries.clone(),
            },
        );
    }
    let (entries, stats) = run.finish(true);
    (entries, stats, cache, events)
}

#[test]
fn unchanged_warm_cache_is_not_rewritten() {
    let inputs = || vec![found("/base/a", 1, true), found("/mod/b", 2, false)];
    let (cold, cold_stats, cache, _) = run_scan(inputs(), CacheLoad::Missing, 0);
    assert_eq!(cold, vec![(true, 1), (false, 2)]);
    assert_eq!((cold_stats.cache_hits, cold_stats.cache_misses), (0, 2));
    assert!(cold_stats.cache_updated);

    let (warm, warm_stats, cache, events) = run_scan(inputs(), CacheLoad::Parsed(cache), 0);
    assert_eq!(warm, cold);
    assert_eq!((warm_stats.cache_hits, warm_stats.cache_misses), (2, 0));
    assert!(warm_stats.cache_written);
    assert!(!warm_stats.cache_updated);
    assert!(matches!(
        events.last(),
        Some(ScanProgress::Indexing {
            done: 2,
            total: 2,
            cache_hits: 2,
            cache_misses: 0
        })
    ));

    let edited = vec![found("/base/a", 1, true), found("/mod/b", 3, false)];
    let (changed, changed_stats, _, _) = run_scan(edited, CacheLoad::Parsed(cache), 0);
    assert_eq!(changed, vec![(true, 1), (false, 3)]);
    assert_eq!((changed_stats.cache_hits, changed_stats.cache_misses), (1, 1));
    assert!(changed_stats.cache_updated);
}

#[test]
fn caches_of_another_schema_or_none_are_not_reused() {
    let inputs = || vec![found("/a", 1, false), found("/b", 2, false)];
    let (_, _, mut cache, _) = run_scan(inputs(), CacheLoad::Missing, 0);
    cache.schema_hash ^= 1;
    let (_, stats, _, _) = run_scan(inputs(), CacheLoad::Parsed(cache), 0);
    assert_eq!((stats.cache_hits, stats.cache_misses), (0, 2));
    let (_, stats, _, _) = run_scan(inputs(), CacheLoad::Unreadable, 0);
    assert_eq!((stats.cache_hits, stats.cache_misses), (0, 2));
}

#[test]
fn discovery_failures_reach_progress_and_scan_stats() {
    let (entries, stats, _, events) = run_scan(vec![], CacheLoad::Missing, 1);
    assert!(entries.is_empty());
    assert_eq!(stats.discovered_inputs, 0);
    assert_eq!(stats.discovery_failures, 1);
    assert_eq!(stats.skipped_inputs(), 1);
    assert!(events.iter().any(|event| matches!(
        event,
        ScanProgress::InputsDiscovered {
            total: 0,
            skipped: 1
        }
    )));
}

#[test]
fn inputs_that_cannot_be_scanned_are_counted() {
    let inputs = vec![found("/a", 99, false), found("/b", 2, false)];
    let (entries, stats, _, _) = run_scan(inputs, CacheLoad::Missing, 0);
    assert_eq!(entries, vec![(false, 2)]);
    assert_eq!((stats.cache_misses, stats.scan_failures), (2, 1));
}

#[test]
fn failed_retention_refresh_rejects_the_no_rewrite_fast_path() {
    let inputs = || vec![found("/a", 1, false)];
    let (_, _, cache, _) = run_scan(inputs(), CacheLoad::Missing, 0);
    let mut run = ScanRun::begin(inputs(), CacheLoad::Parsed(cache), 7, 0);
    assert!(run.keeps_cache());
    run.refreshed(false);
    assert!(!run.keeps_cache());
    assert!(matches!(run.next(), ScanAction::Report(_)));
    assert_eq!(run.next(), ScanAction::Finished);
    let (_, stats) = run.finish(false);
    assert!(!stats.cache_written && !stats.cache_updated);
}

#[test]
fn scans_report_each_input_in_order() {
    let inputs = || {
        vec![
            found("/base/a", 1, true),
            found("/mod/b", 99, false),
            found("/mod/c", 3, false),
            found("/base/a", 1, false),
        ]
    };
    let (cold, stats, cache, events) = run_scan(inputs(), CacheLoad::Missing, 0);
    assert_eq!(cold, vec![(true, 1), (false, 3)]);
    assert_eq!((stats.cache_hits, stats.cache_misses), (0, 3));
    let steps = |events: &Vec<ScanProgress>| -> Vec<(usize, usize)> {
        events
            .iter()
            .filter_map(|event| match event {
                ScanProgress::Indexing { done, total, .. } => Some((*done, *total)),
                _ => None,
            })
            .collect()
    };
    assert_eq!(steps(&events), vec![(1, 3), (2, 3), (3, 3)]);
    // What the cache holds changes what is scanned, and nothing of the result.
    let (warm, stats, _, events) = run_scan(inputs(), CacheLoad::Parsed(cache), 0);
    assert_eq!(warm, cold);
    assert_eq!(stats.cache_hits + stats.cache_misses, 3);
    assert_eq!(steps(&events), vec![(1, 3), (2, 3), (3, 3)]);
}
