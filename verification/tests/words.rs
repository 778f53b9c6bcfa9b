//! Distances between words, their order, numbers, and the shared syntax tree.

use zerosyntax::distance::edit_distance;
use zerosyntax::green::{kind_from_raw, kind_to_raw};
use zerosyntax::kind::SyntaxKind;
use zerosyntax::numbers::{is_zero_or_less, parse_i64, parse_u32, parses_real, to_decimal};
use zerosyntax::order::comes_before;
use zerosyntax::parser::{parse, FixedOpeners};

#[test]
fn distances_count_single_character_edits() {
    assert_eq!(edit_distance("TREADS", "TREADS"), 0);
    assert_eq!(edit_distance("TREDS", "TREADS"), 1);
    assert_eq!(edit_distance("", "abc"), 3);
    assert_eq!(edit_distance("kitten", "sitting"), 3);
}

#[test]
fn distances_are_symmetric_and_obey_the_triangle() {
    let words = ["", "TANK", "TANKS", "Bänk", "ANT", "THANKS"];
    for a in words {
        for b in words {
            assert_eq!(edit_distance(a, b), edit_distance(b, a));
            assert_eq!(edit_distance(a, b) == 0, a == b);
            for c in words {
                assert!(edit_distance(a, c) <= edit_distance(a, b) + edit_distance(b, c));
            }
        }
    }
}

#[test]
fn texts_are_ordered_by_their_characters() {
    let sorted = ["", "A", "AB", "B", "a", "z", "é"];
    for (i, a) in sorted.iter().enumerate() {
        for (j, b) in sorted.iter().enumerate() {
            assert_eq!(comes_before(a, b), i < j, "{a:?} {b:?}");
            assert_eq!(comes_before(a, b), a < b);
        }
    }
}

#[test]
fn numbers_are_read_and_written() {
    assert_eq!(to_decimal(0), "0");
    assert_eq!(to_decimal(12345678901234567890123), "12345678901234567890123");
    assert_eq!(parse_i64("-12"), Some(-12));
    assert_eq!(parse_i64("+7"), Some(7));
    assert_eq!(parse_i64("9223372036854775808"), None);
    assert_eq!(parse_i64("1x"), None);
    assert_eq!(parse_u32("4294967295"), Some(u32::MAX));
    assert_eq!(parse_u32("4294967296"), None);
    assert!(parses_real("1.5") && parses_real("-2"));
    assert!(!parses_real("one"));
    assert!(is_zero_or_less("0") && is_zero_or_less("-1.5"));
    assert!(!is_zero_or_less("0.25"));
}

#[test]
fn numbers_that_round_to_zero_are_not_positive() {
    let read = |text: &str| text.parse::<f64>().map_or(false, |number| number <= 0.0);
    for text in [
        "1e-400", "1E-323", "3e-324", "2.4e-324", "2.5e-324", "2.4703282292062327e-324",
        "2.4703282292062328e-324", "24703282292062327e-340", "24703282292062328e-340", "0e5",
        "0.0e-5", ".0", "+1e-400", "-1e-400", "1e-99999999999999999999999", "1e-0", "1e+3",
        "1e99999999999999999999999", "0.00e99999999999999999999999", "5.e-2", "nan", "inf", "1e",
        "x", "",
    ] {
        assert_eq!(is_zero_or_less(text), read(text), "{text}");
    }
    assert!(is_zero_or_less("1e-400") && is_zero_or_less("2.4e-324"));
    assert!(!is_zero_or_less("2.5e-324"));

    // Half of the least number above zero, exactly: it rounds to zero, and what is
    // larger does not.
    let mut digits = vec![1u8];
    for _ in 0..1075 {
        let mut carry = 0;
        for digit in digits.iter_mut() {
            let product = *digit * 5 + carry;
            *digit = product % 10;
            carry = product / 10;
        }
        if carry > 0 {
            digits.push(carry);
        }
    }
    let half: String = digits.iter().rev().map(|digit| char::from(b'0' + digit)).collect();
    let exact = format!("0.{}{half}", "0".repeat(1075 - half.len()));
    assert!(is_zero_or_less(&exact) && read(&exact));
    assert!(is_zero_or_less(&format!("{half}e-1075")));
    assert!(!is_zero_or_less(&format!("{exact}1")) && !read(&format!("{exact}1")));
}

fn spell(node: &rowan::GreenNodeData, out: &mut String) {
    for child in node.children() {
        match child {
            rowan::NodeOrToken::Node(inner) => spell(inner, out),
            rowan::NodeOrToken::Token(token) => out.push_str(token.text()),
        }
    }
}

#[test]
fn shared_trees_hold_the_same_nodes_and_text() {
    let openers = FixedOpeners::new(&["Object", "Draw"]);
    let src = "; top\nObject Tank\n  Draw = W3DModelDraw Tag\n    Key = 1\n  End\nEnd\nEnd\n";
    let parsed = parse(src, &openers);
    let green = parsed.green();
    assert_eq!(kind_from_raw(green.kind().0), Some(SyntaxKind::ROOT));
    let mut text = String::new();
    spell(&green, &mut text);
    assert_eq!(text, src);
    let kinds: Vec<Option<SyntaxKind>> = green
        .children()
        .map(|child| kind_from_raw(child.kind().0))
        .collect();
    assert_eq!(
        kinds,
        vec![
            Some(SyntaxKind::COMMENT),
            Some(SyntaxKind::NEWLINE),
            Some(SyntaxKind::BLOCK),
            Some(SyntaxKind::ERROR),
        ]
    );
}

#[test]
fn raw_kinds_lead_back_to_their_kinds() {
    for kind in [
        SyntaxKind::WHITESPACE,
        SyntaxKind::NEWLINE,
        SyntaxKind::COMMENT,
        SyntaxKind::EQUALS,
        SyntaxKind::STRING,
        SyntaxKind::WORD,
        SyntaxKind::ROOT,
        SyntaxKind::BLOCK,
        SyntaxKind::MODULE,
        SyntaxKind::FIELD,
        SyntaxKind::ERROR,
    ] {
        assert_eq!(kind_from_raw(kind_to_raw(kind)), Some(kind));
    }
    assert_eq!(kind_from_raw(u16::MAX), None);
}
