//! Trees of INI text, and reparsing after edits.

use std::sync::Arc;

use zerosyntax::ast::Block;
use zerosyntax::incremental::{reparse, Edit, Strategy};
use zerosyntax::kind::SyntaxKind;
use zerosyntax::parser::{parse, FixedOpeners, NoOpeners, OpenerOracle, Parse};
use zerosyntax::tree::{SyntaxElement, SyntaxNode};

fn opener_set() -> FixedOpeners {
    FixedOpeners::new(&[
        "Object",
        "Weapon",
        "Armor",
        "Draw",
        "Body",
        "Behavior",
        "ConditionState",
        "DefaultConditionState",
    ])
}

fn nodes(parse: &Parse) -> Vec<&SyntaxNode> {
    parse
        .children
        .iter()
        .filter_map(|child| match &*child.element {
            SyntaxElement::Node(node) => Some(node),
            SyntaxElement::Token(_) => None,
        })
        .collect()
}

fn count_children(node: &SyntaxNode, kind: SyntaxKind) -> usize {
    node.children
        .iter()
        .filter(|element| match element {
            SyntaxElement::Node(child) => child.kind == kind,
            SyntaxElement::Token(_) => false,
        })
        .count()
}

fn assert_round_trips(src: &str) {
    assert_eq!(parse(src, &opener_set()).text(), src);
}

#[test]
fn simple_block_with_fields() {
    let src = "Weapon AK47\n  PrimaryDamage = 50.0\n  ClipSize = 30\nEnd\n";
    assert_round_trips(src);
    let parse = parse(src, &opener_set());
    let found = nodes(&parse);
    let kinds: Vec<SyntaxKind> = found.iter().map(|n| n.kind).collect();
    assert_eq!(kinds, vec![SyntaxKind::BLOCK]);
    assert_eq!(count_children(found[0], SyntaxKind::FIELD), 2);
}

#[test]
fn nested_module_scope() {
    let src = "\
Object Tank
  Draw = W3DModelDraw ModuleTag_01
    DefaultConditionState
      Model = TANK
    End
  End
  Body = ActiveBody ModuleTag_02
    MaxHealth = 100
  End
End
";
    assert_round_trips(src);
    let parse = parse(src, &opener_set());
    assert_eq!(count_children(nodes(&parse)[0], SyntaxKind::MODULE), 2);
}

#[test]
fn unterminated_block_is_reported_but_lossless() {
    let src = "Weapon AK47\n  PrimaryDamage = 50.0\n";
    assert_round_trips(src);
    let parse = parse(src, &opener_set());
    assert_eq!(parse.errors.len(), 1);
    assert!(parse.errors[0].message.contains("not terminated"));
}

#[test]
fn stray_end_is_reported() {
    let src = "End\n";
    assert_round_trips(src);
    let parse = parse(src, &opener_set());
    assert_eq!(parse.errors.len(), 1);
    assert!(parse.errors[0].message.contains("without a matching"));
}

#[test]
fn lowercase_end_closes_block() {
    let openers = FixedOpeners::new(&["Weapon"]);
    let src = "Armor test\n  Armor = ARMOR_PIERCING 100%\nend\n";
    let parse = parse(src, &openers);
    assert_eq!(parse.text(), src);
    assert!(parse.errors.is_empty(), "{:?}", parse.errors);
    let kinds: Vec<SyntaxKind> = nodes(&parse).iter().map(|n| n.kind).collect();
    assert_eq!(kinds, vec![SyntaxKind::BLOCK]);
}

#[test]
fn comments_and_blank_lines_preserved() {
    assert_round_trips("; header comment\n\nWeapon AK47\nEnd\n");
}

#[test]
fn oracles_decide_which_lines_open_scopes() {
    let openers = FixedOpeners::new(&["Draw"]);
    assert!(openers.opens_scope(Some("Object"), "Draw", true));
    assert!(!openers.opens_scope(Some("Object"), "Body", true));
    assert!(!NoOpeners.opens_scope(Some("Object"), "Draw", true));
}

#[test]
fn reads_block_keyword_and_name() {
    let openers = FixedOpeners::new(&["Object", "Weapon", "Draw", "Body"]);
    let src = "Weapon AK47\n  PrimaryDamage = 50.0\nEnd\n";
    let parse = parse(src, &openers);
    let block = Block::cast(nodes(&parse)[0]).unwrap();
    assert_eq!(block.keyword().unwrap().text, "Weapon");
    assert_eq!(block.name().unwrap().text, "AK47");
    let fields = block.fields();
    assert_eq!(fields[0].key().unwrap().text, "PrimaryDamage");
    assert_eq!(fields[0].value_tokens()[0].text, "50.0");
}

#[test]
fn reads_module_slot_and_name() {
    let openers = FixedOpeners::new(&["Object", "Weapon", "Draw", "Body"]);
    let src = "Object Tank\n  Body = ActiveBody Tag01\n    MaxHealth = 100\n  End\nEnd\n";
    let parse = parse(src, &openers);
    let object = Block::cast(nodes(&parse)[0]).unwrap();
    let modules = object.modules();
    assert_eq!(modules[0].slot().unwrap().text, "Body");
    assert_eq!(modules[0].module_name().unwrap().text, "ActiveBody");
    assert_eq!(modules[0].fields()[0].key().unwrap().text, "MaxHealth");
}

// Reparsing

fn openers() -> FixedOpeners {
    FixedOpeners::new(&["Object", "Weapon", "Draw", "Body", "ConditionState"])
}

/// Apply an edit, reparse incrementally, and compare with a fresh parse.
fn check(old_text: &str, start: usize, old_end: usize, insert: &str) -> Strategy {
    let oracle = openers();
    let old = parse(old_text, &oracle);
    let new_text = format!("{}{}{}", &old_text[..start], insert, &old_text[old_end..]);
    let edit = Edit {
        start,
        old_end,
        new_len: insert.len(),
    };
    let (inc, strategy) = reparse(&old, old_text, &new_text, edit, &oracle);
    let full = parse(&new_text, &oracle);
    assert_eq!(inc.text(), new_text, "spliced tree must reproduce the new text");
    assert_eq!(
        format!("{:#?}", inc.children),
        format!("{:#?}", full.children),
        "spliced structure must equal a full parse"
    );
    assert_eq!(inc.errors, full.errors, "errors must equal a full parse");
    assert_eq!(inc.len, full.len);
    strategy
}

const THREE_BLOCKS: &str = "\
Weapon AK47
  PrimaryDamage = 50.0
End
Object Tank
  Body = ActiveBody Tag01
    MaxHealth = 100
  End
End
Weapon Pistol
  ClipSize = 8
End
";

#[test]
fn edit_inside_middle_block_splices() {
    let start = THREE_BLOCKS.find("100").unwrap();
    let s = check(THREE_BLOCKS, start, start + 3, "250");
    assert_eq!(s, Strategy::Spliced);
}

#[test]
fn insert_block_between_blocks_splices() {
    let at = THREE_BLOCKS.find("Object Tank").unwrap();
    let s = check(THREE_BLOCKS, at, at, "Weapon New\n  ClipSize = 1\nEnd\n");
    assert_eq!(s, Strategy::Spliced);
}

#[test]
fn deleting_an_end_falls_back_or_matches() {
    let at = THREE_BLOCKS.find("  End").unwrap();
    check(THREE_BLOCKS, at, at + 6, "");
}

#[test]
fn edit_inside_trailing_unterminated_block_splices() {
    let src = "Weapon AK47\n  PrimaryDamage = 50.0\nEnd\nObject Tank\n  MaxHealth = 100\n";
    let start = src.find("100").unwrap();
    let s = check(src, start, start + 3, "1");
    assert_eq!(s, Strategy::Spliced);
}

#[test]
fn stray_end_errors_shift_across_an_edit() {
    let src = "End\nWeapon AK47\n  ClipSize = 8\nEnd\nEnd\n";
    let start = src.find('8').unwrap();
    check(src, start, start + 1, "30");
}

#[test]
fn crlf_edits_splice() {
    let src = "Weapon AK47\r\n  ClipSize = 8\r\nEnd\r\nWeapon B\r\nEnd\r\n";
    let start = src.find('8').unwrap();
    let s = check(src, start, start + 1, "12");
    assert_eq!(s, Strategy::Spliced);
}

#[test]
fn deleting_a_trailing_newline_stays_equivalent() {
    let at = THREE_BLOCKS.find("End\nObject").unwrap();
    check(THREE_BLOCKS, at + 3, at + 4, "");
}

#[test]
fn append_at_eof_splices() {
    let s = check(
        THREE_BLOCKS,
        THREE_BLOCKS.len(),
        THREE_BLOCKS.len(),
        "Weapon Tail\nEnd\n",
    );
    assert_eq!(s, Strategy::Spliced);
}

#[test]
fn full_replacement_matches() {
    check(THREE_BLOCKS, 0, THREE_BLOCKS.len(), "Weapon Only\nEnd\n");
}

#[test]
fn edit_in_file_scope_trivia_matches() {
    let src = "; header\n\nWeapon AK47\nEnd\n";
    let at = src.find("header").unwrap();
    check(src, at, at + 6, "banner");
}

#[test]
fn reparse_keeps_untouched_elements() {
    let oracle = openers();
    let old = parse(THREE_BLOCKS, &oracle);
    let start = THREE_BLOCKS.find("ClipSize = 8").unwrap() + "ClipSize = ".len();
    let new_text = THREE_BLOCKS.replace("ClipSize = 8", "ClipSize = 9");
    let edit = Edit {
        start,
        old_end: start + 1,
        new_len: 1,
    };
    let (inc, strategy) = reparse(&old, THREE_BLOCKS, &new_text, edit, &oracle);
    assert_eq!(strategy, Strategy::Spliced);
    assert!(Arc::ptr_eq(&inc.children[0].element, &old.children[0].element));
}

// Fuzzing

/// A deterministic linear congruential generator.
struct Rng(u64);

impl Rng {
    fn next(&mut self) -> u64 {
        self.0 = self
            .0
            .wrapping_mul(6364136223846793005)
            .wrapping_add(1442695040888963407);
        self.0 >> 33
    }

    fn below(&mut self, n: usize) -> usize {
        (self.next() % n.max(1) as u64) as usize
    }

    fn pick<'a>(&mut self, items: &[&'a str]) -> &'a str {
        items[self.below(items.len())]
    }
}

/// A random document: blocks, nested scopes, fields, comments, blank lines,
/// stray `End`s, unterminated scopes and a mix of line ends.
fn gen_doc(rng: &mut Rng) -> String {
    let newline = if rng.below(4) == 0 { "\r\n" } else { "\n" };
    let mut out = String::new();
    for _ in 0..rng.below(12) + 1 {
        match rng.below(10) {
            0 => out.push_str(newline),
            1 => {
                out.push_str("; comment text");
                out.push_str(newline);
            }
            2 => {
                out.push_str("End");
                out.push_str(newline);
            }
            _ => {
                let kw = rng.pick(&["Object", "Weapon"]);
                out.push_str(kw);
                out.push(' ');
                out.push_str(rng.pick(&["Alpha", "Bravo", "Charlie"]));
                out.push_str(newline);
                for _ in 0..rng.below(4) {
                    match rng.below(4) {
                        0 => {
                            out.push_str("  Draw = W3DModelDraw Tag");
                            out.push_str(newline);
                            out.push_str("    Model = TANK");
                            out.push_str(newline);
                            if rng.below(8) != 0 {
                                out.push_str("  End");
                                out.push_str(newline);
                            }
                        }
                        1 => {
                            out.push_str("  Name = \"quoted value\"");
                            out.push_str(newline);
                        }
                        _ => {
                            out.push_str("  ClipSize = 30 ; trailing");
                            out.push_str(newline);
                        }
                    }
                }
                if rng.below(8) != 0 {
                    out.push_str("End");
                    out.push_str(newline);
                }
            }
        }
    }
    out
}

/// A random edit, biased toward what changes the structure.
fn gen_edit(rng: &mut Rng, text: &str) -> (usize, usize, String) {
    let len = text.len();
    let start = rng.below(len + 1);
    match rng.below(8) {
        0 => {
            let ins = rng.pick(&[
                "End\n",
                "Weapon Inserted\n",
                "Object X\n  ClipSize = 1\nEnd\n",
                "\n",
                "  Draw = W3DModelDraw T\n",
                "; note\n",
            ]);
            (start, start, ins.to_string())
        }
        1 => {
            let end = (start + rng.below(8) + 1).min(len);
            (start, end, String::new())
        }
        2 => {
            let end = (start + rng.below(40)).min(len);
            (start, end, String::new())
        }
        3 => {
            let end = (start + rng.below(12)).min(len);
            (
                start,
                end,
                rng.pick(&["End", "Weapon W", "  X = 1", "\r"]).to_string(),
            )
        }
        _ => {
            let end = (start + rng.below(3)).min(len);
            (
                start,
                end,
                rng.pick(&["5", "ab", " = ", "End", "\n"]).to_string(),
            )
        }
    }
}

#[test]
fn random_edit_sequences_match_full_parse() {
    let oracle = openers();
    let mut spliced = 0usize;
    let mut full = 0usize;

    for seed in 0..40u64 {
        let mut rng = Rng(seed.wrapping_mul(0x9E3779B97F4A7C15) + 1);
        let mut text = gen_doc(&mut rng);
        let mut old = parse(&text, &oracle);

        for round in 0..60 {
            let (start, old_end, ins) = gen_edit(&mut rng, &text);
            let new_text = format!("{}{}{}", &text[..start], ins, &text[old_end..]);
            let edit = Edit {
                start,
                old_end,
                new_len: ins.len(),
            };
            let (inc, strategy) = reparse(&old, &text, &new_text, edit, &oracle);
            match strategy {
                Strategy::Spliced => spliced += 1,
                Strategy::Full => full += 1,
            }

            let reference = parse(&new_text, &oracle);
            let ctx = format!(
                "seed {seed} round {round} edit {edit:?} insert {ins:?}\nold text: {text:?}\nnew text: {new_text:?}"
            );
            assert_eq!(inc.text(), new_text, "text round-trip\n{ctx}");
            assert_eq!(
                format!("{:#?}", inc.children),
                format!("{:#?}", reference.children),
                "tree structure\n{ctx}"
            );
            assert_eq!(inc.errors, reference.errors, "errors\n{ctx}");

            text = new_text;
            old = inc;
        }
    }

    println!("spliced {spliced}, full-parse fallbacks {full}");
    assert!(
        spliced > full,
        "splice fallback dominates: {spliced} spliced vs {full} full"
    );
}
