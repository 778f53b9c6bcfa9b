//! Analysis of INI documents against a schema.

use zerosyntax::actions::{fixes, Fix};
use zerosyntax::analyzer::{Analyzer, Span};
use zerosyntax::checks::{Diagnostic, Severity};
use zerosyntax::completion::complete;
use zerosyntax::diagnostics::{diagnose, diagnose_with_cache, first_hit, DiagnosticsCache};
use zerosyntax::facts::ModelAsset;
use zerosyntax::format::{format_edits, FmtEdit};
use zerosyntax::incremental::{Edit, Strategy};
use zerosyntax::index::{definitions_in, WorkspaceIndex};
use zerosyntax::nav::{hover_at, reference_at, HoverInfo};
use zerosyntax::outline::{document_symbols, folding_ranges, SymKind};
use zerosyntax::parser::OpenerOracle;
use zerosyntax::schema::{
    BlockType, BuiltinDef, Field, ModuleSlot, ModuleType, RefKind, Schema, SubBlock, ValueMember,
    ValueSet, ValueType,
};
use zerosyntax::semantic::{semantic_tokens, SemKind};

fn field(name: &str, value_type: ValueType) -> Field {
    Field {
        name: name.to_string(),
        value_type,
        parse_fn: format!("parse{name}"),
        doc: None,
    }
}

fn enumeration(set: &str) -> ValueType {
    ValueType::Enum {
        value_set: set.to_string(),
    }
}

fn flags(set: &str) -> ValueType {
    ValueType::BitFlags {
        value_set: set.to_string(),
    }
}

fn reference(ref_kind: RefKind) -> ValueType {
    ValueType::Reference { ref_kind }
}

fn prefixed(prefix: &str, value_type: ValueType) -> ValueType {
    ValueType::Prefixed {
        prefix: prefix.to_string(),
        value_type: Box::new(value_type),
    }
}

fn value_set(id: &str, members: &[&str]) -> ValueSet {
    ValueSet {
        id: id.to_string(),
        members: members
            .iter()
            .enumerate()
            .map(|(value, name)| ValueMember {
                name: name.to_string(),
                value: value as i64,
            })
            .collect(),
    }
}

fn block(name: &str, defines: Option<RefKind>, fields: Vec<Field>) -> BlockType {
    BlockType {
        name: name.to_string(),
        parse_fn: format!("parse{name}"),
        named: true,
        terminated: true,
        defines,
        fields,
        module_slots: vec![],
        sub_blocks: vec![],
        doc: None,
    }
}

fn sub_block(keyword: &str, fields: Vec<Field>) -> SubBlock {
    SubBlock {
        keyword: keyword.to_string(),
        fields,
        sub_blocks: vec![],
        reenters_parent: false,
        argument_type: None,
        doc: None,
    }
}

fn slot(keyword: &str, interface: &str) -> ModuleSlot {
    ModuleSlot {
        keyword: keyword.to_string(),
        accepts: vec![interface.to_string()],
        doc: None,
    }
}

fn module(name: &str, interface: &str, fields: Vec<Field>) -> ModuleType {
    ModuleType {
        name: name.to_string(),
        interfaces: vec![interface.to_string()],
        fields,
        sub_blocks: vec![],
        doc: None,
    }
}

fn draw_module(name: &str) -> ModuleType {
    ModuleType {
        name: name.to_string(),
        interfaces: vec!["Draw".to_string()],
        fields: vec![],
        sub_blocks: vec![sub_block(
            "DefaultConditionState",
            vec![
                field("Model", ValueType::W3dModel),
                field("HideSubObject", ValueType::W3dModelMember),
                field(
                    "WeaponFireFXBone",
                    ValueType::TokenList {
                        tokens: vec![enumeration("weapon_slot"), ValueType::W3dModelMember],
                    },
                ),
            ],
        )],
        doc: None,
    }
}

fn object_block(name: &str, defines: Option<RefKind>) -> BlockType {
    BlockType {
        module_slots: vec![
            slot("Body", "Body"),
            slot("Behavior", "Behavior"),
            slot("Draw", "Draw"),
        ],
        sub_blocks: vec![
            sub_block(
                "WeaponSet",
                vec![
                    field("Conditions", flags("set_conditions")),
                    field(
                        "Weapon",
                        ValueType::TokenList {
                            tokens: vec![enumeration("weapon_slot"), reference(RefKind::Weapon)],
                        },
                    ),
                ],
            ),
            sub_block(
                "ArmorSet",
                vec![
                    field("Conditions", flags("set_conditions")),
                    field("Armor", reference(RefKind::Armor)),
                ],
            ),
        ],
        ..block(name, defines, vec![field("VisionRange", ValueType::Real)])
    }
}

fn embedded() -> Analyzer {
    Analyzer::new(Schema {
        format_version: 1,
        engine_revision: "test".to_string(),
        blocks: vec![
            block(
                "Weapon",
                Some(RefKind::Weapon),
                vec![
                    field("PrimaryDamage", ValueType::Real),
                    field("ClipSize", ValueType::Int),
                    field("ScaleWeaponSpeed", ValueType::Bool),
                    field("DeathType", enumeration("death_types")),
                    field("FireFX", reference(RefKind::FxList)),
                    field("FireSound", reference(RefKind::AudioEvent)),
                ],
            ),
            object_block("Object", Some(RefKind::Object)),
            object_block("ObjectReskin", Some(RefKind::Object)),
            block(
                "Armor",
                Some(RefKind::Armor),
                vec![field("Armor", ValueType::AsciiStringList)],
            ),
            block(
                "Locomotor",
                Some(RefKind::Locomotor),
                vec![field("Appearance", enumeration("locomotor_appearance"))],
            ),
            block("FXList", Some(RefKind::FxList), vec![]),
            block("Upgrade", Some(RefKind::Upgrade), vec![field("BuildTime", ValueType::Real)]),
            block("ParticleSystem", Some(RefKind::ParticleSystem), vec![]),
            block("AudioEvent", Some(RefKind::AudioEvent), vec![]),
            block("DialogEvent", Some(RefKind::AudioEvent), vec![]),
            block("MusicTrack", Some(RefKind::AudioEvent), vec![]),
        ],
        modules: vec![
            module("ActiveBody", "Body", vec![field("MaxHealth", ValueType::Real)]),
            module("AutoHealBehavior", "Behavior", vec![field("HealingAmount", ValueType::Int)]),
            module(
                "SlowDeathBehavior",
                "Behavior",
                vec![field("DeathTypes", flags("death_types"))],
            ),
            module(
                "WeaponSetUpgrade",
                "Behavior",
                vec![field(
                    "TriggeredBy",
                    ValueType::ReferenceList {
                        ref_kind: RefKind::Upgrade,
                    },
                )],
            ),
            module("ArmorUpgrade", "Behavior", vec![]),
            module("OverlordContain", "Behavior", vec![]),
            module(
                "TransitionDamageFX",
                "Behavior",
                vec![field(
                    "DamagedParticleSystem1",
                    ValueType::TokenList {
                        tokens: vec![
                            prefixed("Bone", ValueType::AsciiString),
                            prefixed("RandomBone", ValueType::Bool),
                            prefixed("PSys", reference(RefKind::ParticleSystem)),
                        ],
                    },
                )],
            ),
            draw_module("W3DModelDraw"),
            draw_module("W3DTruckDraw"),
            draw_module("W3DTankDraw"),
        ],
        value_sets: vec![
            value_set("weapon_slot", &["PRIMARY", "SECONDARY", "TERTIARY"]),
            value_set("death_types", &["NORMAL", "BURNED", "EXPLODED", "CRUSHED"]),
            value_set("set_conditions", &["VETERAN", "ELITE", "PLAYER_UPGRADE"]),
            value_set("locomotor_appearance", &["TWO_LEGS", "TREADS", "HOVER", "WINGS"]),
        ],
        builtins: vec![BuiltinDef {
            ref_kind: RefKind::Upgrade,
            name: "Upgrade_Veterancy".to_string(),
            doc: None,
        }],
    })
}

// analyzer
#[test]
fn builds_from_embedded_schema() {
    let a = embedded();
    assert!(a.block("Object").is_some());
    assert!(a.block("Weapon").is_some());
    assert!(a.module("ActiveBody").is_some());
    // Context-aware: `Behavior` opens only inside `Object`; `ConditionState`
    // opens inside any scope (curated sub-block); a leaf field never opens;
    // and a block keyword used as a field inside a sub-block stays a leaf.
    assert!(a.openers.opens_scope(Some("Object"), "Behavior", true));
    assert!(a
        .openers
        .opens_scope(Some("W3DModelDraw"), "ConditionState", true));
    assert!(!a.openers.opens_scope(Some("Object"), "PrimaryDamage", true));
    // `Armor`/`Animation` are block keywords but must NOT open when they are
    // fields nested inside another scope (the bug this guards against).
    assert!(!a.openers.opens_scope(Some("ArmorSet"), "Armor", true));
    assert!(!a
        .openers
        .opens_scope(Some("DefaultConditionState"), "Animation", false));
}

#[test]
fn custom_schema_changes_analysis() {
    let text = "TestBlock Test\n  CustomOnly = Yes\nEnd\n";
    let analyzer = Analyzer::new(Schema {
        format_version: 1,
        engine_revision: "custom".to_string(),
        blocks: vec![block("TestBlock", None, vec![field("CustomOnly", ValueType::Bool)])],
        modules: vec![],
        value_sets: vec![],
        builtins: vec![],
    });
    let found: Vec<_> = diagnose(&analyzer, &analyzer.parse(text), None, None)
        .into_iter()
        .map(|diagnostic| diagnostic.code)
        .collect();
    assert!(found.is_empty(), "{found:?}");

    let embedded = embedded();
    assert!(diagnose(&embedded, &embedded.parse(text), None, None)
        .iter()
        .any(|diagnostic| diagnostic.code == "unknown-block"));
}

// diagnostics
fn diags(src: &str) -> Vec<Diagnostic> {
    let a = embedded();
    diagnose(&a, &a.parse(src), None, None)
}

fn codes(src: &str) -> Vec<&'static str> {
    diags(src).into_iter().map(|d| d.code).collect()
}

#[test]
fn clean_weapon_has_no_diagnostics() {
    let src = "Weapon AK47\n  PrimaryDamage = 50.0\n  ClipSize = 30\nEnd\n";
    assert!(diags(src).is_empty(), "{:?}", diags(src));
}

#[test]
fn unknown_block_is_error() {
    assert!(codes("Wepon AK47\nEnd\n").contains(&"unknown-block"));
}

#[test]
fn set_reachability_flags_only_untriggered_player_upgrade_sets() {
    let upgrade_set = "  WeaponSet\n    Conditions = PLAYER_UPGRADE\n    Weapon = PRIMARY G\n  End\n";
    let trigger = "  Behavior = WeaponSetUpgrade ModuleTag_01\n    TriggeredBy = Upgrade_X\n  End\n";

    let dead = format!("Object T\n{upgrade_set}End\n");
    assert_eq!(codes(&dead).iter().filter(|c| **c == "unreachable-set").count(), 1);

    let alive = format!("Object T\n{upgrade_set}{trigger}End\n");
    assert!(!codes(&alive).contains(&"unreachable-set"), "module triggers the set");

    // The TransportContain family can set the flag without an upgrade.
    let transport = format!(
        "Object T\n{upgrade_set}  Behavior = OverlordContain ModuleTag_02\n  End\nEnd\n"
    );
    assert!(!codes(&transport).contains(&"unreachable-set"));

    // Override patches (map.ini AddModule/RemoveModule) are partial: silent.
    let patched = format!("Object T\n  RemoveModule ModuleTag_99\n{upgrade_set}End\n");
    assert!(!codes(&patched).contains(&"unreachable-set"));

    // ObjectReskin inherits the parent's modules: silent.
    let reskin = format!("ObjectReskin T P\n{upgrade_set}End\n");
    assert!(!codes(&reskin).contains(&"unreachable-set"));

    // Other conditions (VETERAN etc.) are set externally: silent.
    let vet = "Object T\n  WeaponSet\n    Conditions = VETERAN\n    Weapon = PRIMARY G\n  End\nEnd\n";
    assert!(!codes(vet).contains(&"unreachable-set"));
}

#[test]
fn unknown_field_is_warning() {
    let src = "Weapon AK47\n  PrimaryDamg = 50.0\nEnd\n";
    let d = diags(src);
    assert!(d.iter().any(|d| d.code == "unknown-field" && d.severity == Severity::Warning));
}

#[test]
fn bad_bool_and_number_are_errors() {
    // ScaleWeaponSpeed is a Bool field; ClipSize is an Int field.
    let src = "Weapon AK47\n  ScaleWeaponSpeed = Maybe\n  ClipSize = lots\nEnd\n";
    let c = codes(src);
    assert!(c.contains(&"bad-bool"), "{c:?}");
    assert!(c.contains(&"bad-number"), "{c:?}");
}

#[test]
fn bad_enum_member_is_error() {
    // DeathType is an Enum over TheDeathNames; BURNED is valid, NONSENSE is not.
    let ok = "Weapon AK47\n  DeathType = BURNED\nEnd\n";
    assert!(!codes(ok).contains(&"bad-enum"), "{:?}", diags(ok));
    let bad = "Weapon AK47\n  DeathType = NONSENSE\nEnd\n";
    assert!(codes(bad).contains(&"bad-enum"));
}

#[test]
fn unterminated_block_is_syntax_error() {
    assert!(codes("Weapon AK47\n  ClipSize = 30\n").contains(&"syntax"));
}

#[test]
fn object_module_fields_are_validated() {
    // ActiveBody.MaxHealth is Real; a bad value should be flagged, and an
    // unknown module field should warn.
    let src = "\
Object Tank
  Body = ActiveBody Tag01
MaxHealth = lots
Bogus = 1
  End
End
";
    let c = codes(src);
    assert!(c.contains(&"bad-number"), "{c:?}");
    assert!(c.contains(&"unknown-field"), "{c:?}");
}

#[test]
fn unknown_module_warns() {
    let src = "Object Tank\n  Body = NotARealModule Tag01\n  End\nEnd\n";
    assert!(codes(src).contains(&"unknown-module"));
}

#[test]
fn pragma_suppresses_listed_codes_file_wide() {
    let src = "; genparser-disable: bad-bool, unknown-field\nWeapon AK47\n  ScaleWeaponSpeed = Maybe\n  ClipSize = lots\n  PrimaryDamg = 1\nEnd\n";
    let c = codes(src);
    assert!(!c.contains(&"bad-bool"), "{c:?}");
    assert!(!c.contains(&"unknown-field"), "{c:?}");
    assert!(c.contains(&"bad-number"), "unlisted codes survive: {c:?}");
}

#[test]
fn pragma_typo_hints_and_suppresses_nothing() {
    let src = "; genparser-disable: bad-bol\nWeapon AK47\n  ScaleWeaponSpeed = Maybe\nEnd\n";
    let d = diags(src);
    assert!(d.iter().any(|d| d.code == "bad-bool"), "{d:?}");
    let hint = d
        .iter()
        .find(|d| d.code == "unknown-suppression" && d.severity == Severity::Hint)
        .unwrap_or_else(|| panic!("expected unknown-suppression hint: {d:?}"));
    assert_eq!(&src[hint.span.start as usize..hint.span.end as usize], "bad-bol");
}

#[test]
fn pragma_inside_a_block_is_ignored() {
    let src = "Weapon AK47\n  ; genparser-disable: bad-bool\n  ScaleWeaponSpeed = Maybe\nEnd\n";
    assert!(codes(src).contains(&"bad-bool"));
}

#[test]
fn pragma_filters_over_cached_blocks() {
    // Warm the cache without a pragma, then insert one at the top via an
    // incremental reparse: the untouched second block keeps its cached
    // (unfiltered) diagnostics, and the filter must still apply to them.
    let a = embedded();
    let src = "Weapon A\n  ScaleWeaponSpeed = Maybe\nEnd\nWeapon B\n  ClipSize = lots\nEnd\n";
    let parse = a.parse(src);
    let mut cache = DiagnosticsCache::new();
    let first = diagnose_with_cache(&a, &parse, None, None, &mut cache);
    assert!(first.iter().any(|d| d.code == "bad-bool"));
    assert!(first.iter().any(|d| d.code == "bad-number"));

    let pragma = "; genparser-disable: bad-number\n";
    let edited = format!("{pragma}{src}");
    let (inc, _strategy) = a.reparse(
        &parse,
        src,
        &edited,
        Edit { start: 0, old_end: 0, new_len: pragma.len() },
    );
    let second = diagnose_with_cache(&a, &inc, None, None, &mut cache);
    assert!(!second.iter().any(|d| d.code == "bad-number"), "{second:?}");
    assert!(second.iter().any(|d| d.code == "bad-bool"));
    assert_eq!(second, diagnose(&a, &inc, None, None));
}

#[test]
fn cached_diagnose_matches_and_reuses_blocks() {
    let a = embedded();
    let src = "Weapon AK47\n  ClipSize = lots\nEnd\nWeapon B\nEnd\nWeapon C\nEnd\nWeapon D\n  PrimaryDamg = 1\nEnd\n";
    let parse = a.parse(src);
    let mut cache = DiagnosticsCache::new();
    assert_eq!(diagnose_with_cache(&a, &parse, None, None, &mut cache), diagnose(&a, &parse, None, None));
    assert_eq!(cache.stats().0, 0, "first run is all misses");

    // Edit inside the *last* block; the splice widens one sibling, so the
    // first two blocks keep pointer-identical green nodes and their
    // diagnostics must come from the cache.
    let edited = src.replace("PrimaryDamg = 1", "PrimaryDamg = 2");
    let at = src.find('1').unwrap();
    let (inc, strategy) = a.reparse(
        &parse,
        src,
        &edited,
        Edit { start: at, old_end: at + 1, new_len: 1 },
    );
    assert_eq!(strategy, Strategy::Spliced);
    assert_eq!(diagnose_with_cache(&a, &inc, None, None, &mut cache), diagnose(&a, &inc, None, None));
    assert!(cache.stats().0 >= 1, "unchanged block must hit the cache");
}

#[test]
fn cache_invalidates_when_index_generation_changes() {
    let a = embedded();
    let mut index = WorkspaceIndex::new();
    // Weapon block referencing a projectile-like name via an Object field
    // isn't trivial to stage; instead verify the mechanism: same parse,
    // index gains a definition between runs, output must follow suit.
    let src = "Weapon AK47\n  ClipSize = 30\nEnd\n";
    let parse = a.parse(src);
    let mut cache = DiagnosticsCache::new();
    let g0 = index.generation();
    let first = diagnose_with_cache(&a, &parse, Some(&index), None, &mut cache);
    index.set_file("other.ini", definitions_in(&a, &a.parse("Object X\nEnd\n"), "other.ini"));
    assert_ne!(index.generation(), g0);
    let second = diagnose_with_cache(&a, &parse, Some(&index), None, &mut cache);
    assert_eq!(first, second); // no reference fields here; same result
    let (hits, _) = cache.stats();
    assert_eq!(hits, 0, "generation bump must clear the cache");
}

#[test]
fn map_override_redefinition_hints_and_suppresses_reachability() {
    let a = embedded();
    let mut index = WorkspaceIndex::new();
    let base = "Object AmericaInfantryRanger\nEnd\n";
    index.set_file(
        "data/AmericaInfantry.ini",
        definitions_in(&a, &a.parse(base), "data/AmericaInfantry.ini"),
    );
    // A map.ini redefinition with a PLAYER_UPGRADE WeaponSet and no
    // trigger module in sight: the base object's modules are inherited
    // (INI_LOAD_CREATE_OVERRIDES), so unreachable-set must stay silent.
    let src = "Object AmericaInfantryRanger\n  WeaponSet\n    Conditions = PLAYER_UPGRADE\n    Weapon = PRIMARY DefaultRangerCombatRifle\n  End\nEnd\n";
    let parse = a.parse(src);
    index.set_file("maps/Map.ini", definitions_in(&a, &parse, "maps/Map.ini"));

    let diags = diagnose(&a, &parse, Some(&index), Some("maps/Map.ini"));
    assert!(
        diags.iter().any(|d| d.code == "overrides" && d.severity == Severity::Hint),
        "expected `overrides` hint: {diags:?}"
    );
    assert!(
        !diags.iter().any(|d| d.code == "unreachable-set"),
        "override redefinition must skip reachability: {diags:?}"
    );

    // The base-game side is not an override and not a duplicate (the
    // other site lives in an override layer): no diagnostics there.
    let base_parse = a.parse(base);
    let base_diags =
        diagnose(&a, &base_parse, Some(&index), Some("data/AmericaInfantry.ini"));
    assert!(
        !base_diags
            .iter()
            .any(|d| d.code == "overrides" || d.code == "duplicate-definition"),
        "base definition must stay clean: {base_diags:?}"
    );
}

#[test]
fn duplicate_object_definition_outside_overrides_warns() {
    let a = embedded();
    let mut index = WorkspaceIndex::new();
    let src = "Object Tank\nEnd\n";
    index.set_file("a.ini", definitions_in(&a, &a.parse(src), "a.ini"));
    let parse = a.parse(src);
    index.set_file("b.ini", definitions_in(&a, &parse, "b.ini"));
    // The engine DEBUG_CRASHes on duplicate object templates outside
    // override mode (ThingFactory.cpp "Duplicate factionunit").
    let diags = diagnose(&a, &parse, Some(&index), Some("b.ini"));
    assert!(
        diags
            .iter()
            .any(|d| d.code == "duplicate-definition" && d.severity == Severity::Warning),
        "expected duplicate-definition: {diags:?}"
    );
}

#[test]
fn reference_resolution_with_index() {
    let a = embedded();
    let mut index = WorkspaceIndex::new();
    // Define nothing; a Weapon reference on an Object should be unresolved.
    // Object.weapon references go through WeaponSet (custom parser), so use a
    // field we know maps to a reference: PrimaryDamageRadius is Real, so
    // instead assert the plumbing via a synthetic check below.
    index.set_file("a.ini", definitions_in(&a, &a.parse("Weapon AK47\nEnd\n"), "a.ini"));
    assert!(index.is_defined(RefKind::Weapon, "AK47"));
}

// actions
fn all_fixes(src: &str) -> Vec<Fix> {
    let a = embedded();
    let parse = a.parse(src);
    let mut idx = WorkspaceIndex::new();
    idx.set_file("test.ini", definitions_in(&a, &parse, "test.ini"));
    let diags = diagnose(&a, &parse, Some(&idx), Some("test.ini"));
    fixes(
        &a,
        &parse,
        src,
        Span::new(0, src.len() as u32),
        &diags,
        Some(&idx),
    )
}

#[test]
fn offers_missing_end() {
    let a = embedded();
    let src = "Object Tank\n  MaxHealth = 1\n";
    let parse = a.parse(src);
    let fx = fixes(&a, &parse, src, Span::new(0, src.len() as u32), &[], None);
    assert_eq!(fx.len(), 1, "{fx:?}");
    assert!(fx[0].title.contains("`End`") && fx[0].title.contains("Object"));
    assert_eq!(fx[0].new_text, "End\n");
    assert_eq!(fx[0].span, Span::new(src.len() as u32, src.len() as u32));
}

#[test]
fn suggests_close_enum_and_flag_members() {
    let a = embedded();
    // `Appearance` is enum locomotor_appearance; TREDS ≈ TREADS.
    let src = "Locomotor L\n  Appearance = TREDS\nEnd\n";
    let parse = a.parse(src);
    let fx = fixes(&a, &parse, src, Span::new(0, src.len() as u32), &[], None);
    assert!(fx.iter().any(|f| f.new_text == "TREADS"), "{fx:?}");

    // Bitflag with prefix op: the `+` is preserved in the replacement.
    let src2 = "Object T\n  Behavior = SlowDeathBehavior ModuleTag_01\n    DeathTypes = NONE +EXPLODDED\n  End\nEnd\n";
    let parse2 = a.parse(src2);
    let fx2 = fixes(
        &a,
        &parse2,
        src2,
        Span::new(0, src2.len() as u32),
        &[],
        None,
    );
    assert!(fx2.iter().any(|f| f.new_text == "+EXPLODED"), "{fx2:?}");
}

#[test]
fn valid_members_get_no_fixes() {
    let a = embedded();
    let src = "Locomotor L\n  Appearance = TREADS\nEnd\n";
    let parse = a.parse(src);
    assert!(fixes(&a, &parse, src, Span::new(0, src.len() as u32), &[], None).is_empty());
}

// ── unreachable-set fixes ────────────────────────────────────────────────

#[test]
fn unreachable_set_offers_remove_and_insert() {
    let src = "\
Object Tank
  WeaponSet
    Conditions = PLAYER_UPGRADE
    Weapon = PRIMARY MyGun
  End
End
Weapon MyGun
  PrimaryDamage = 10.0
End
";
    let fx = all_fixes(src);
    assert!(
        fx.iter()
            .any(|f| f.title.contains("Remove unreachable") && f.title.contains("WeaponSet")),
        "missing remove fix: {fx:?}"
    );
    assert!(
        fx.iter().any(|f| f.title.contains("WeaponSetUpgrade")),
        "missing insert fix: {fx:?}"
    );
    // Apply remove fix: the WeaponSet sub-block should disappear.
    let remove = fx
        .iter()
        .find(|f| f.title.contains("Remove unreachable"))
        .unwrap();
    let mut result = src.to_string();
    result.replace_range(
        remove.span.start as usize..remove.span.end as usize,
        &remove.new_text,
    );
    assert!(
        !result.contains("WeaponSet"),
        "WeaponSet not removed: {result}"
    );
    assert!(
        result.contains("End\n"),
        "Object End should survive: {result}"
    );

    // Apply insert fix: scaffold appears before the Object's End.
    let insert = fx
        .iter()
        .find(|f| f.title.contains("WeaponSetUpgrade"))
        .unwrap();
    let mut result2 = src.to_string();
    result2.replace_range(
        insert.span.start as usize..insert.span.end as usize,
        &insert.new_text,
    );
    assert!(
        result2.contains("Behavior = WeaponSetUpgrade"),
        "scaffold missing: {result2}"
    );
    assert!(result2.contains("ModuleTag_01"), "tag missing: {result2}");
    assert!(
        result2.contains("TriggeredBy = Upgrade_TODO"),
        "TriggeredBy missing: {result2}"
    );
}

#[test]
fn unused_weapon_set_upgrade_offers_player_upgrade_weapon_set() {
    let src = "\
Object Tank
  WeaponSet
    Conditions = NONE
    Weapon = PRIMARY MyGun
  End
  Behavior = WeaponSetUpgrade ModuleTag_01
    TriggeredBy = Upgrade_MyGun
  End
End
Weapon MyGun
  PrimaryDamage = 10.0
End
";
    let fx = all_fixes(src);
    let insert = fx
        .iter()
        .find(|f| f.title.contains("PLAYER_UPGRADE") && f.title.contains("WeaponSet"))
        .expect("missing WeaponSet scaffold fix");
    let mut result = src.to_string();
    result.replace_range(
        insert.span.start as usize..insert.span.end as usize,
        &insert.new_text,
    );
    assert!(result.contains(
        "  WeaponSet\n    Conditions = PLAYER_UPGRADE\n    Weapon = PRIMARY NONE\n  End\n  Behavior = WeaponSetUpgrade"
    ));
}

#[test]
fn unreachable_set_tag_skips_collisions() {
    // Object already has ModuleTag_01 and MODULETAG_02 (case variant) → should generate ModuleTag_03.
    let src = "\
Object Tank
  WeaponSet
    Conditions = PLAYER_UPGRADE
    Weapon = PRIMARY MyGun
  End
  Behavior = SlowDeathBehavior ModuleTag_01
    DeathTypes = NONE
  End
  Behavior = SlowDeathBehavior MODULETAG_02
    DeathTypes = NONE
  End
End
Weapon MyGun
  PrimaryDamage = 10.0
End
";
    let fx = all_fixes(src);
    let insert = fx
        .iter()
        .find(|f| f.title.contains("WeaponSetUpgrade"))
        .unwrap();
    assert!(
        insert.new_text.contains("ModuleTag_03"),
        "wrong tag: {}",
        insert.new_text
    );
}

#[test]
fn unreachable_set_armor_variant() {
    let src = "\
Object Tank
  ArmorSet
    Conditions = PLAYER_UPGRADE
    Armor = MyArmor
  End
End
Armor MyArmor
  Armor = Default 100%
End
";
    let fx = all_fixes(src);
    assert!(
        fx.iter().any(|f| f.title.contains("ArmorUpgrade")),
        "ArmorUpgrade scaffold not offered: {fx:?}"
    );
    assert!(
        fx.iter()
            .any(|f| f.title.contains("Remove unreachable") && f.title.contains("ArmorSet")),
        "ArmorSet remove not offered: {fx:?}"
    );
}

#[test]
fn unreachable_set_removal_when_set_is_last_child() {
    // The WeaponSet is the only child; Object's End line must survive intact.
    let src = "\
Object Tank
  WeaponSet
    Conditions = PLAYER_UPGRADE
    Weapon = PRIMARY MyGun
  End
End
Weapon MyGun
  PrimaryDamage = 10.0
End
";
    let fx = all_fixes(src);
    let remove = fx
        .iter()
        .find(|f| f.title.contains("Remove unreachable"))
        .unwrap();
    let mut result = src.to_string();
    result.replace_range(
        remove.span.start as usize..remove.span.end as usize,
        &remove.new_text,
    );
    // Object End must be present.
    assert!(
        result.contains("Object Tank\nEnd\n"),
        "Object End corrupted: {result}"
    );
}

#[test]
fn unreachable_set_dedupes_scaffold_per_object() {
    // Two dead WeaponSets → 2 remove fixes, 1 insert fix per object.
    let src = "\
Object Tank
  WeaponSet
    Conditions = PLAYER_UPGRADE
    Weapon = PRIMARY MyGun
  End
  WeaponSet
    Conditions = PLAYER_UPGRADE
    Weapon = PRIMARY MyGun
  End
End
Weapon MyGun
  PrimaryDamage = 10.0
End
";
    let fx = all_fixes(src);
    let removes: Vec<_> = fx
        .iter()
        .filter(|f| f.title.contains("Remove unreachable"))
        .collect();
    let inserts: Vec<_> = fx
        .iter()
        .filter(|f| f.title.contains("WeaponSetUpgrade"))
        .collect();
    assert_eq!(removes.len(), 2, "expected 2 remove fixes: {fx:?}");
    assert_eq!(inserts.len(), 1, "expected 1 insert fix (deduped): {fx:?}");
}

// ── stub definition fixes ────────────────────────────────────────────────

#[test]
fn stub_fix_appends_definition() {
    // Weapon block with FireFX referencing a non-existent FXList.
    let src = "Weapon MyWeapon\n  FireFX = NoSuchFX\nEnd\n";
    let fx = all_fixes(src);
    let stub = fx
        .iter()
        .find(|f| f.title.contains("Create stub"))
        .expect("stub fix not offered");
    assert!(
        stub.new_text.contains("FXList NoSuchFX"),
        "wrong stub: {}",
        stub.new_text
    );
    assert!(
        stub.new_text.ends_with("End\n"),
        "stub not terminated: {}",
        stub.new_text
    );
    // Applied at EOF.
    assert_eq!(stub.span.start, src.len() as u32);

    // File without trailing newline: stub gets a leading blank line.
    let src2 = "Weapon MyWeapon\n  FireFX = NoSuchFX\nEnd";
    let fx2 = all_fixes(src2);
    let stub2 = fx2
        .iter()
        .find(|f| f.title.contains("Create stub"))
        .unwrap();
    assert!(
        stub2.new_text.starts_with('\n'),
        "missing lead newline: {:?}",
        stub2.new_text
    );
}

#[test]
fn stub_fix_kind_disambiguation() {
    // Upgrade ref → exactly one block keyword "Upgrade" → stub offered.
    let src_upgrade = "\
Object Foo
  Behavior = WeaponSetUpgrade ModuleTag_01
    TriggeredBy = NoSuchUpgrade
  End
End
";
    let fx = all_fixes(src_upgrade);
    assert!(
        fx.iter()
            .any(|f| f.title.contains("Create stub") && f.title.contains("Upgrade")),
        "Upgrade stub not offered: {fx:?}"
    );

    // AudioEvent ref → ambiguous (AudioEvent/DialogEvent/MusicTrack) → no stub.
    let src_audio = "Weapon MyWeapon\n  FireSound = NoSuchSound\nEnd\n";
    let fx_audio = all_fixes(src_audio);
    assert!(
        !fx_audio.iter().any(|f| f.title.contains("Create stub")),
        "stub should not be offered for ambiguous AudioEvent kind: {fx_audio:?}"
    );
}

// ── suppress fixes ───────────────────────────────────────────────────────

#[test]
fn suppress_fix_inserts_pragma_at_top() {
    // Warning diagnostic, no existing pragma → inserts at offset 0.
    let src = "Weapon MyWeapon\n  FireFX = NoSuchFX\nEnd\n";
    let fx = all_fixes(src);
    let sup = fx
        .iter()
        .find(|f| f.title.contains("Suppress"))
        .expect("suppress not offered");
    assert_eq!(sup.span.start, 0, "should insert at top");
    assert!(
        sup.new_text.starts_with("; zerosyntax-disable:"),
        "wrong pragma: {}",
        sup.new_text
    );
    assert!(sup.new_text.ends_with('\n'), "pragma must end with newline");

    // No existing pragma → inserts at offset 0 (suppress_fix has a BOM guard
    // that would shift to offset 3 if needed, but the lexer doesn't currently
    // strip BOMs so that path is exercised only by the code guard, not a test).
    assert_eq!(sup.span.start, 0, "should insert at top of file");
}

#[test]
fn suppress_fix_appends_to_existing_pragma() {
    // Existing pragma with another code → appends ", <code>".
    let src =
        "; zerosyntax-disable: unknown-module\nWeapon MyWeapon\n  FireFX = NoSuchFX\nEnd\n";
    let fx = all_fixes(src);
    let sup = fx
        .iter()
        .find(|f| f.title.contains("Suppress"))
        .expect("suppress not offered: {fx:?}");
    assert!(
        sup.new_text.starts_with(", "),
        "should append with comma: {:?}",
        sup.new_text
    );
    assert!(
        sup.new_text.contains("unresolved-reference"),
        "wrong code: {:?}",
        sup.new_text
    );

    // Bare pragma (colon only, no codes yet) → appends " <code>".
    let src2 = "; zerosyntax-disable:\nWeapon MyWeapon\n  FireFX = NoSuchFX\nEnd\n";
    let fx2 = all_fixes(src2);
    let sup2 = fx2
        .iter()
        .find(|f| f.title.contains("Suppress"))
        .expect("suppress not offered for bare pragma");
    assert!(
        sup2.new_text.starts_with(' '),
        "bare pragma: should prepend space: {:?}",
        sup2.new_text
    );

    // Code already listed → no action.
    let src3 = "; zerosyntax-disable: unresolved-reference\nWeapon MyWeapon\n  FireFX = NoSuchFX\nEnd\n";
    let fx3 = all_fixes(src3);
    assert!(
        !fx3.iter()
            .any(|f| f.title.contains("Suppress") && f.title.contains("unresolved-reference")),
        "should not offer suppress for already-listed code: {fx3:?}"
    );
}

#[test]
fn suppress_fix_errors_and_dedupes() {
    // Error diagnostics get the same Suppress action as warnings.
    let src_err = "Weapon W\n  ScaleWeaponSpeed = Maybe\nEnd\n";
    let fx_err = all_fixes(src_err);
    let has_suppress_for_error = fx_err
        .iter()
        .any(|f| f.title.contains("Suppress") && f.title.contains("bad-bool"));
    assert!(has_suppress_for_error, "error missing suppress: {fx_err:?}");

    // Two unresolved references with the same code → only one Suppress action.
    let src_dup = "Weapon W\n  FireFX = NoSuchFX\n  FireFX = NoSuchFX2\nEnd\n";
    let fx_dup = all_fixes(src_dup);
    let suppress_count = fx_dup
        .iter()
        .filter(|f| f.title.contains("Suppress") && f.title.contains("unresolved-reference"))
        .count();
    assert_eq!(suppress_count, 1, "duplicate suppress actions: {fx_dup:?}");
}

#[test]
fn fixes_ignore_diags_outside_range() {
    // The diagnostic is at EOF; the range covers only the first byte.
    // No diagnostic fix should be generated.
    let src = "Weapon MyWeapon\n  FireFX = NoSuchFX\nEnd\n";
    let a = embedded();
    let parse = a.parse(src);
    let mut idx = WorkspaceIndex::new();
    idx.set_file("test.ini", definitions_in(&a, &parse, "test.ini"));
    let diags = diagnose(&a, &parse, Some(&idx), Some("test.ini"));
    // Range = first byte only (nowhere near the unresolved-reference token).
    let fx = fixes(&a, &parse, src, Span::new(0, 1), &diags, Some(&idx));
    assert!(
        !fx.iter()
            .any(|f| f.title.contains("Suppress") || f.title.contains("Create stub")),
        "diagnostic fixes should be out of range: {fx:?}"
    );
}

// completion
fn labels(src: &str, offset: u32) -> Vec<String> {
    let a = embedded();
    complete(&a, &a.parse(src), offset, None, None)
        .into_iter()
        .map(|c| c.label)
        .collect()
}

#[test]
fn top_level_suggests_block_keywords() {
    let out = labels("", 0);
    assert!(out.contains(&"Object".to_string()));
    assert!(out.contains(&"Weapon".to_string()));
}

#[test]
fn inside_weapon_suggests_fields() {
    // Cursor on the indented blank line inside the block.
    let src = "Weapon AK47\n  \nEnd\n";
    let offset = "Weapon AK47\n  ".len() as u32;
    let out = labels(src, offset);
    assert!(out.contains(&"PrimaryDamage".to_string()), "{out:?}");
    assert!(out.contains(&"ClipSize".to_string()));
}

#[test]
fn bool_value_suggests_yes_no() {
    let src = "Weapon AK47\n  ScaleWeaponSpeed = \nEnd\n";
    let offset = "Weapon AK47\n  ScaleWeaponSpeed = ".len() as u32;
    let out = labels(src, offset);
    assert!(
        out.contains(&"Yes".to_string()) && out.contains(&"No".to_string()),
        "{out:?}"
    );
}

#[test]
fn enum_value_suggests_members() {
    let src = "Weapon AK47\n  DeathType = \nEnd\n";
    let offset = "Weapon AK47\n  DeathType = ".len() as u32;
    let out = labels(src, offset);
    assert!(out.contains(&"BURNED".to_string()), "{out:?}");
    assert!(out.contains(&"NORMAL".to_string()));
}

#[test]
fn module_slot_value_suggests_modules() {
    let src = "Object Tank\n  Body = \n  End\nEnd\n";
    let offset = "Object Tank\n  Body = ".len() as u32;
    let out = labels(src, offset);
    assert!(out.contains(&"ActiveBody".to_string()), "{out:?}");
}

#[test]
fn model_asset_completions_use_index() {
    let a = embedded();
    let mut index = WorkspaceIndex::new();
    index.set_file_models(
        "models/Good.w3d",
        vec![ModelAsset {
            name: "Good".into(),
            members: vec!["Cargo01".into(), "Tire01".into()],
        }],
    );
    let src = "\
Object Tank
  Draw = W3DTruckDraw ModuleTag_01
DefaultConditionState
  Model = 
  HideSubObject = 
End
  End
End
";
    let model_offset = src.find("Model = ").unwrap() + "Model = ".len();
    let out: Vec<_> = complete(&a, &a.parse(src), model_offset as u32, Some(&index), None)
        .into_iter()
        .map(|c| c.label)
        .collect();
    assert!(out.contains(&"Good".to_string()), "{out:?}");

    let src = src.replace("Model = ", "Model = Good");
    let bone_offset = src.find("HideSubObject = ").unwrap() + "HideSubObject = ".len();
    let out: Vec<_> = complete(&a, &a.parse(&src), bone_offset as u32, Some(&index), None)
        .into_iter()
        .map(|c| c.label)
        .collect();
    assert!(out.contains(&"Cargo".to_string()), "{out:?}");
    assert!(out.contains(&"Tire".to_string()), "{out:?}");
}

#[test]
fn weapon_bone_completions_use_token_positions() {
    let a = embedded();
    let mut index = WorkspaceIndex::new();
    index.set_file_models(
        "models/Good.w3d",
        vec![ModelAsset {
            name: "Good".into(),
            members: vec!["Muzzle01".into(), "Muzzle02".into()],
        }],
    );
    let src = "\
Object Tank
  Draw = W3DTruckDraw ModuleTag_01
DefaultConditionState
  Model = Good
  WeaponFireFXBone = 
End
  End
End
";
    let slot_offset = src.find("WeaponFireFXBone = ").unwrap() + "WeaponFireFXBone = ".len();
    let out: Vec<_> = complete(&a, &a.parse(src), slot_offset as u32, Some(&index), None)
        .into_iter()
        .map(|c| c.label)
        .collect();
    assert!(out.contains(&"PRIMARY".to_string()), "{out:?}");
    assert!(!out.contains(&"Muzzle".to_string()), "{out:?}");

    let src = src.replace("WeaponFireFXBone = ", "WeaponFireFXBone = PRIMARY ");
    let bone_offset = src.find("PRIMARY ").unwrap() + "PRIMARY ".len();
    let out: Vec<_> = complete(&a, &a.parse(&src), bone_offset as u32, Some(&index), None)
        .into_iter()
        .map(|c| c.label)
        .collect();
    assert!(out.contains(&"Muzzle".to_string()), "{out:?}");
    assert_eq!(
        out.iter()
            .filter(|label| label.as_str() == "Muzzle")
            .count(),
        1
    );
    assert!(!out.contains(&"PRIMARY".to_string()), "{out:?}");
}

// format
fn apply(text: &str, edits: &[FmtEdit]) -> String {
    let mut out = text.to_string();
    for e in edits.iter().rev() {
        out.replace_range(e.span.start as usize..e.span.end as usize, &e.new_text);
    }
    out
}

#[test]
fn normalizes_indentation_to_scope_depth() {
    let a = embedded();
    let src = "Object Tank\nMaxHealth = 1\n      Behavior = AutoHealBehavior ModuleTag_01\nHealingAmount = 5\n      End\nEnd\n";
    let edits = format_edits(&a.parse(src), src, "  ");
    // The per-line edits sit within COALESCE_GAP of each other, so they
    // come back as a single merged edit.
    assert_eq!(edits.len(), 1);
    let formatted = apply(src, &edits);
    assert_eq!(
        formatted,
        "Object Tank\n  MaxHealth = 1\n  Behavior = AutoHealBehavior ModuleTag_01\n    HealingAmount = 5\n  End\nEnd\n"
    );
}

#[test]
fn distant_edits_stay_separate() {
    let a = embedded();
    // Two misindented lines separated by > COALESCE_GAP bytes of
    // correctly indented filler must not be merged into one edit
    // spanning the untouched middle.
    let filler = "  Filler = 1\n".repeat(50);
    let src = format!("Object Tank\nMaxHealth = 1\n{filler}VisionRange = 2\nEnd\n");
    let edits = format_edits(&a.parse(&src), &src, "  ");
    assert_eq!(edits.len(), 2);
    assert_eq!(
        apply(&src, &edits),
        format!("Object Tank\n  MaxHealth = 1\n{filler}  VisionRange = 2\nEnd\n")
    );
}

#[test]
fn formatted_text_needs_no_edits_and_comments_are_untouched() {
    let a = embedded();
    let src = "; header comment\nObject Tank\n  ; body comment, hand-indented\n  MaxHealth = 1\nEnd\n";
    assert!(format_edits(&a.parse(src), src, "  ").is_empty());
}

// index
#[test]
fn indexes_named_definitions() {
    let a = embedded();
    let src = "Weapon AK47\nEnd\nObject Tank\nEnd\n";
    let parse = a.parse(src);
    let defs = definitions_in(&a, &parse, "f.ini");
    let mut idx = WorkspaceIndex::new();
    idx.set_file("f.ini", defs);
    assert!(idx.is_defined(RefKind::Weapon, "AK47"));
    assert!(idx.is_defined(RefKind::Object, "Tank"));
    // The engine resolves names case-insensitively (shipped data relies
    // on it: `MappedImage SAPathFinder1` vs `ButtonImage = SAPathfinder1`).
    assert!(idx.is_defined(RefKind::Weapon, "ak47"));
    assert!(idx.is_defined(RefKind::Object, "TANK"));
    assert!(!idx.is_defined(RefKind::Weapon, "Nonexistent"));
    // Completion shows the original casing.
    assert!(idx.names(RefKind::Weapon).iter().any(|n| *n == "AK47"));
}

#[test]
fn generation_tracks_name_changes_only() {
    let a = embedded();
    let mut idx = WorkspaceIndex::new();
    let g0 = idx.generation();
    idx.set_file(
        "f.ini",
        definitions_in(&a, &a.parse("Weapon AK47\nEnd\n"), "f.ini"),
    );
    let g1 = idx.generation();
    assert_ne!(g0, g1, "new definitions bump the generation");

    // Same names at shifted spans (e.g. a comment typed above): no bump.
    idx.set_file(
        "f.ini",
        definitions_in(&a, &a.parse("; c\nWeapon AK47\nEnd\n"), "f.ini"),
    );
    assert_eq!(idx.generation(), g1);

    // Renaming a definition bumps.
    idx.set_file(
        "f.ini",
        definitions_in(&a, &a.parse("Weapon M16\nEnd\n"), "f.ini"),
    );
    assert_ne!(idx.generation(), g1);

    // A file with no definitions, set repeatedly: no bumps after removal.
    let g2 = idx.generation();
    idx.set_file("empty.ini", vec![]);
    assert_eq!(idx.generation(), g2);
    idx.remove_file("empty.ini");
    assert_eq!(idx.generation(), g2);
}

#[test]
fn names_in_another_order_keep_the_generation() {
    let a = embedded();
    let mut idx = WorkspaceIndex::new();
    let defs = |text: &str| definitions_in(&a, &a.parse(text), "f.ini");
    idx.set_file("f.ini", defs("Weapon A\nEnd\nWeapon B\nEnd\n"));
    assert_eq!(idx.generation(), 1);
    idx.set_file("f.ini", defs("Weapon B\nEnd\nWeapon A\nEnd\n"));
    assert_eq!(idx.generation(), 1);
    // A name that comes twice is still one name.
    idx.set_file("f.ini", defs("Weapon b\nEnd\nWeapon A\nEnd\nWeapon B\nEnd\n"));
    assert_eq!(idx.generation(), 1);
    idx.set_file("f.ini", defs("Weapon A\nEnd\n"));
    assert_eq!(idx.generation(), 2);
    idx.set_file("f.ini", defs("Weapon C\nEnd\n"));
    assert_eq!(idx.generation(), 3);
}

#[test]
fn indexing_a_file_again_moves_its_places_to_the_end() {
    let a = embedded();
    let mut idx = WorkspaceIndex::new();
    let set = |idx: &mut WorkspaceIndex, file: &str, text: &str| {
        idx.set_file(file, definitions_in(&a, &a.parse(text), file));
    };
    let places = |idx: &WorkspaceIndex, name: &str| -> Vec<(String, u32)> {
        idx.locations(RefKind::Weapon, name)
            .iter()
            .map(|place| (place.file.clone(), place.span.start))
            .collect()
    };
    set(&mut idx, "a.ini", "Weapon AK\nEnd\n");
    set(&mut idx, "b.ini", "Weapon ak\nEnd\nWeapon AK\nEnd\n");
    assert_eq!(
        places(&idx, "AK"),
        vec![
            ("a.ini".to_string(), 7),
            ("b.ini".to_string(), 7),
            ("b.ini".to_string(), 21)
        ]
    );
    set(&mut idx, "a.ini", "; moved\nWeapon AK\nEnd\n");
    assert_eq!(
        places(&idx, "aK"),
        vec![
            ("b.ini".to_string(), 7),
            ("b.ini".to_string(), 21),
            ("a.ini".to_string(), 15)
        ]
    );
    idx.remove_file("b.ini");
    assert_eq!(places(&idx, "AK"), vec![("a.ini".to_string(), 15)]);
    set(&mut idx, "a.ini", "");
    assert!(places(&idx, "AK").is_empty());
    assert!(!idx.is_defined(RefKind::Weapon, "AK"));
}

#[test]
fn updating_a_file_replaces_its_symbols() {
    let a = embedded();
    let mut idx = WorkspaceIndex::new();
    idx.set_file(
        "f.ini",
        definitions_in(&a, &a.parse("Weapon Old\nEnd\n"), "f.ini"),
    );
    idx.set_file(
        "f.ini",
        definitions_in(&a, &a.parse("Weapon New\nEnd\n"), "f.ini"),
    );
    assert!(!idx.is_defined(RefKind::Weapon, "Old"));
    assert!(idx.is_defined(RefKind::Weapon, "New"));
}

// nav
#[test]
fn hovers_a_field() {
    let a = embedded();
    let src = "Weapon AK47\n  PrimaryDamage = 50.0\nEnd\n";
    let offset = "Weapon AK47\n  Primary".len() as u32;
    match hover_at(&a, &a.parse(src), offset) {
        Some(HoverInfo::Field { name, ty, .. }) => {
            assert_eq!(name, "PrimaryDamage");
            assert_eq!(ty, &ValueType::Real);
        }
        _ => panic!("expected field hover"),
    }
}

#[test]
fn prefixed_values_need_their_prefix() {
    let found = |value: &str| -> Vec<(String, String)> {
        let src = format!("Object Tank\n  Behavior = TransitionDamageFX ModuleTag_01\n    DamagedParticleSystem1 = {value}\n  End\nEnd\n");
        diags(&src)
            .into_iter()
            .map(|d| {
                let text = src[d.span.start as usize..d.span.end as usize].to_string();
                (d.code.to_string(), text)
            })
            .collect()
    };
    let bad = |text: &str| ("bad-prefixed".to_string(), text.to_string());
    assert!(found("Bone:NONE RandomBone:No PSys:Smoke").is_empty());
    assert!(found("bone:NONE randombone: No \"PSys:Smoke\"").is_empty());
    assert!(found("Bone: NONE RandomBone: No PSys: Smoke").is_empty());
    assert_eq!(found("NONE RandomBone:No PSys:Smoke"), vec![bad("NONE")]);
    assert_eq!(
        found("Bone:NONE PSys:Smoke RandomBone:No"),
        vec![bad("PSys:Smoke"), bad("RandomBone:No")]
    );
    // A prefix without a value behind it.
    assert_eq!(found("Bone:NONE RandomBone:No PSys:"), vec![bad("PSys:")]);
}

#[test]
fn positive_reals_are_warned_about_once_they_round_to_zero() {
    let mut schema_block = block("Probe", None, vec![field("Size", ValueType::PositiveReal)]);
    schema_block.fields.push(field("Tag", prefixed("At", ValueType::Int)));
    let analyzer = Analyzer::new(Schema {
        format_version: 1,
        engine_revision: String::new(),
        blocks: vec![schema_block],
        modules: vec![],
        value_sets: vec![],
        builtins: vec![],
    });
    let found = |src: &str| -> Vec<(&'static str, Severity, String)> {
        diagnose(&analyzer, &analyzer.parse(src), None, None)
            .into_iter()
            .map(|d| (d.code, d.severity, d.message))
            .collect()
    };
    assert!(found("Probe\n  Size = 1e-300\nEnd\n").is_empty());
    assert_eq!(
        found("Probe\n  Size = 1e-400\nEnd\n"),
        vec![(
            "non-positive",
            Severity::Warning,
            "`1e-400` should be greater than 0".to_string()
        )]
    );
    assert!(found("Probe\n  Tag = At: 5\nEnd\n").is_empty());
    assert_eq!(
        found("Probe\n  Tag = 5\nEnd\n"),
        vec![(
            "bad-prefixed",
            Severity::Error,
            "expected `At:<value>`, found `5`".to_string()
        )]
    );
}

#[test]
fn split_prefixed_reference_span_excludes_prefix() {
    let a = embedded();
    let src = "Object Tank\n  Behavior = TransitionDamageFX ModuleTag_01\n    DamagedParticleSystem1 = Bone: NONE RandomBone: No PSys: MissingParticle\n  End\nEnd\n";
    let offset = src.find("MissingParticle").unwrap() as u32;
    let reference = reference_at(&a, &a.parse(src), offset).unwrap();
    assert_eq!(reference.kind, RefKind::ParticleSystem);
    assert_eq!(reference.name, "MissingParticle");
    assert_eq!(
        &src[reference.span.start as usize..reference.span.end as usize],
        "MissingParticle"
    );
}

// outline
#[test]
fn outlines_blocks_and_modules() {
    let a = embedded();
    let src = "Object Tank\n  Behavior = AutoHealBehavior ModuleTag_01\n    HealingAmount = 5\n  End\n  WeaponSet\n    Conditions = None\n  End\nEnd\nWeapon AK47\n  PrimaryDamage = 10.0\nEnd\n";
    let parse = a.parse(src);
    let syms = document_symbols(&parse);
    assert_eq!(syms.len(), 2);
    assert_eq!(syms[0].name, "Tank");
    assert_eq!(syms[0].detail.as_deref(), Some("Object"));
    assert_eq!(syms[0].kind, SymKind::Block);
    let kids = &syms[0].children;
    assert_eq!(kids.len(), 2);
    assert_eq!(kids[0].name, "AutoHealBehavior");
    assert_eq!(kids[0].detail.as_deref(), Some("ModuleTag_01"));
    assert_eq!(kids[0].kind, SymKind::Module);
    assert_eq!(kids[1].name, "WeaponSet");
    assert_eq!(kids[1].kind, SymKind::SubBlock);
    assert_eq!(syms[1].name, "AK47");
}

#[test]
fn folds_nested_scopes() {
    let a = embedded();
    let src = "Object Tank\n  Behavior = AutoHealBehavior ModuleTag_01\n    HealingAmount = 5\n  End\nEnd\n";
    let folds = folding_ranges(&a.parse(src));
    assert_eq!(folds.len(), 2, "the Object and the Behavior fold");
    assert!(folds[0].start < folds[1].start && folds[1].end <= folds[0].end);
}

// semantic
fn toks(src: &str) -> Vec<(SemKind, String)> {
    let a = embedded();
    let parse = a.parse(src);
    semantic_tokens(&a, &parse)
        .into_iter()
        .map(|t| {
            let s = &src[t.span.start as usize..t.span.end as usize];
            (t.kind, s.to_string())
        })
        .collect()
}

#[test]
fn classifies_weapon_tokens() {
    let src = "Weapon AK47\n  PrimaryDamage = 50.0\n  DeathType = BURNED\nEnd ; done\n";
    let t = toks(src);
    let has = |k: SemKind, s: &str| t.iter().any(|(kk, ss)| *kk == k && ss == s);
    assert!(has(SemKind::Keyword, "Weapon"));
    assert!(has(SemKind::BlockName, "AK47"));
    assert!(has(SemKind::Field, "PrimaryDamage"));
    assert!(has(SemKind::Operator, "="));
    assert!(has(SemKind::Number, "50.0"));
    assert!(has(SemKind::EnumMember, "BURNED"));
    assert!(has(SemKind::Keyword, "End"));
    assert!(t.iter().any(|(k, _)| *k == SemKind::Comment));
}

#[test]
fn classifies_module_type_name() {
    let src = "Object Tank\n  Body = ActiveBody Tag01\n    MaxHealth = 100\n  End\nEnd\n";
    let t = toks(src);
    assert!(t.iter().any(|(k, s)| *k == SemKind::Module && s == "ActiveBody"));
    assert!(t.iter().any(|(k, s)| *k == SemKind::Number && s == "100"));
}

#[test]
fn tokens_are_sorted_and_non_overlapping() {
    let a = embedded();
    let src = "Weapon AK47\n  PrimaryDamage = 50.0\nEnd\n";
    let toks = semantic_tokens(&a, &a.parse(src));
    for w in toks.windows(2) {
        assert!(w[0].span.end <= w[1].span.start, "overlap: {:?}", w);
    }
}

// incremental

struct Rng(u64);

impl Rng {
    fn next(&mut self) -> u64 {
        self.0 = self
            .0
            .wrapping_mul(6364136223846793005)
            .wrapping_add(1442695040888963407);
        self.0 >> 33
    }

    fn below(&mut self, n: usize) -> usize {
        (self.next() % n.max(1) as u64) as usize
    }
}

fn floor_boundary(text: &str, mut i: usize) -> usize {
    while !text.is_char_boundary(i) {
        i -= 1;
    }
    i
}

fn random_edit(rng: &mut Rng, text: &str) -> (usize, usize, &'static str) {
    const INSERTS: &[&str] = &[
        "",
        "",
        "5",
        "End\n",
        "Weapon Inserted\nEnd\n",
        "  ClipSize = 1\n",
        "\n",
        "; note",
        "Behavior = AutoHealBehavior ModuleTag_Z\n",
    ];
    let start = floor_boundary(text, rng.below(text.len() + 1));
    let end = floor_boundary(text, (start + rng.below(60)).min(text.len()));
    let (start, end) = (start.min(end), start.max(end));
    (start, end, INSERTS[rng.below(INSERTS.len())])
}

/// Drive `rounds` random edits over `text`, asserting equivalence after each.
/// Returns (spliced, full) counts.
fn check_edit_sequence(
    analyzer: &Analyzer,
    text: &str,
    seed: u64,
    rounds: usize,
) -> (usize, usize) {
    let mut rng = Rng(seed.wrapping_mul(0x9E3779B97F4A7C15) + 1);
    let mut text = text.to_string();
    let mut old = analyzer.parse(&text);
    let mut cache = DiagnosticsCache::new();
    let (mut spliced, mut full) = (0, 0);

    for round in 0..rounds {
        let (start, old_end, ins) = random_edit(&mut rng, &text);
        let new_text = format!("{}{}{}", &text[..start], ins, &text[old_end..]);
        let edit = Edit {
            start,
            old_end,
            new_len: ins.len(),
        };
        let (inc, strategy) = analyzer.reparse(&old, &text, &new_text, edit);
        match strategy {
            Strategy::Spliced => spliced += 1,
            Strategy::Full => full += 1,
        }

        let reference = analyzer.parse(&new_text);
        let ctx = format!("seed {seed} round {round} edit {edit:?} insert {ins:?}");
        assert_eq!(inc.text(), new_text, "text\n{ctx}");
        assert_eq!(
            format!("{:#?}", inc.children),
            format!("{:#?}", reference.children),
            "structure\n{ctx}"
        );
        assert_eq!(inc.errors, reference.errors, "errors\n{ctx}");
        let fresh = diagnose(analyzer, &reference, None, None);
        assert_eq!(diagnose(analyzer, &inc, None, None), fresh, "diagnostics\n{ctx}");
        // The per-block cache, fed only spliced trees, must agree exactly.
        assert_eq!(
            diagnose_with_cache(analyzer, &inc, None, None, &mut cache),
            fresh,
            "cached diagnostics\n{ctx}"
        );

        text = new_text;
        old = inc;
    }
    (spliced, full)
}

#[test]
fn spec_corpus_edit_sequences_match_full_parse() {
    let analyzer = embedded();
    let weapons: String = (0..12)
        .map(|i| format!("Weapon Gun{i}\n  PrimaryDamage = {i}.0\n  ClipSize = {i}\nEnd\n\n"))
        .collect();
    let objects: String = (0..8)
        .map(|i| {
            format!(
                "; tank {i} \u{e9}\nObject Tank{i}\n  Body = ActiveBody ModuleTag_01\n    MaxHealth = 10{i}\n  End\n  WeaponSet\n    Conditions = NONE\n    Weapon = PRIMARY Gun{i}\n  End\nEnd\n"
            )
        })
        .collect();
    let mixed = format!("{}\n{}", objects.replace('\n', "\r\n"), weapons);
    let (mut spliced, mut full) = (0, 0);
    for text in [&weapons, &objects, &mixed] {
        for seed in 0..6 {
            let (s, f) = check_edit_sequence(&analyzer, text, seed, 30);
            spliced += s;
            full += f;
        }
    }
    println!("spliced {spliced}, full-parse fallbacks {full}");
    assert!(spliced > full);
}

fn splice(text: &str, fix: &Fix) -> String {
    let mut out = text.to_string();
    out.replace_range(
        fix.span.start as usize..fix.span.end as usize,
        &fix.new_text,
    );
    out
}

#[test]
fn formatting_twice_changes_nothing_more() {
    let a = embedded();
    let sources = [
        "Object Tank\nMaxHealth = 1\n      Behavior = AutoHealBehavior ModuleTag_01\nHealingAmount = 5\n      End\nEnd\n",
        "\t\tObject Tank\r\n    MaxHealth = 1\r\n; note\r\n\r\n  End\r\n",
        "   End\n  Object A\n Behavior = X Y\nField = 1",
        "  \rObject Tank\n   \r MaxHealth = 1\nEnd\n",
        "",
    ];
    for src in sources {
        for indent in ["  ", "\t", ""] {
            let once = apply(src, &format_edits(&a.parse(src), src, indent));
            let again = format_edits(&a.parse(&once), &once, indent);
            assert!(again.is_empty(), "{src:?} {indent:?}: {again:?}");
        }
    }
    // Nesting decides the indentation; comments keep theirs.
    let src = "\t\tObject Tank\r\n    MaxHealth = 1\r\n; note\r\n\r\n  End\r\n";
    assert_eq!(
        apply(src, &format_edits(&a.parse(src), src, "  ")),
        "Object Tank\r\n  MaxHealth = 1\r\n; note\r\n\r\nEnd\r\n"
    );
}

#[test]
fn an_inserted_end_closes_one_scope() {
    let a = embedded();
    let mut src = "Object Tank\n  Behavior = AutoHealBehavior ModuleTag_01\n    HealingAmount = 5"
        .to_string();
    for left in [2, 1, 0] {
        let parse = a.parse(&src);
        assert_eq!(parse.errors.len(), left, "{src:?}");
        if let Some(fix) = all_fixes(&src).iter().find(|f| f.title.contains("`End`")) {
            src = splice(&src, fix);
        }
    }
    assert!(src.ends_with("HealingAmount = 5\n  End\nEnd\n"), "{src:?}");
}

#[test]
fn a_created_stub_defines_its_name() {
    let a = embedded();
    for src in [
        "Weapon MyWeapon\n  FireFX = NoSuchFX\nEnd\n",
        "Weapon MyWeapon\n  FireFX = NoSuchFX\nEnd",
    ] {
        let fx = all_fixes(src);
        let stub = fx
            .iter()
            .find(|f| f.title.contains("Create stub"))
            .expect("stub fix not offered");
        let fixed = splice(src, stub);
        let found = definitions_in(&a, &a.parse(&fixed), "test.ini");
        assert!(found
            .iter()
            .any(|d| d.kind == RefKind::FxList && d.name == "NoSuchFX"));
        assert!(!codes(&fixed).contains(&"unresolved-reference"));
    }
}

#[test]
fn pragmas_accumulate_and_pass_over_no_word() {
    let block = "Weapon AK47\n  ScaleWeaponSpeed = Maybe\n  ClipSize = many\nEnd\n";
    assert_eq!(codes(block), vec!["bad-bool", "bad-number"]);
    let both = format!("; zerosyntax-disable: bad-bool\n; zerosyntax-disable: bad-number\n{block}");
    assert!(codes(&both).is_empty());
    let one_line = format!("; zerosyntax-disable: bad-bool, bad-number\n{block}");
    assert!(codes(&one_line).is_empty());
    let mixed = format!("; zerosyntax-disable: bad-bool bad-nmber map-forward-reference\n{block}");
    let found = diags(&mixed);
    assert!(found.iter().any(|d| d.code == "bad-number"));
    assert!(found.iter().all(|d| d.code != "bad-bool"));
    let hints: Vec<&str> = found
        .iter()
        .filter(|d| d.code == "unknown-suppression")
        .map(|d| d.message.as_str())
        .collect();
    assert_eq!(hints, vec!["`bad-nmber` is not a known diagnostic code"]);
}

#[test]
fn cached_elements_are_searched_from_the_cursor_on() {
    let hits = vec![true, false, true, false];
    assert_eq!(first_hit(&hits, 0), Some(0));
    assert_eq!(first_hit(&hits, 1), Some(2));
    assert_eq!(first_hit(&hits, 3), Some(0));
    assert_eq!(first_hit(&hits, 9), Some(0));
    assert_eq!(first_hit(&vec![false, false], 1), None);
    assert_eq!(first_hit(&vec![], 0), None);
}
