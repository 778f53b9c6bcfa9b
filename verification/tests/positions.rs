//! Byte offsets, line and column positions, and encoded semantic tokens.

use ropey::Rope;
use zerosyntax::analyzer::Span;
use zerosyntax::convert::{
    apply_change, fold_lines, is_forward, negotiate_encoding, offset_at, offset_to_position,
    position_at, position_to_offset, range_at, span_to_range, Position, PositionEnc, TextRange,
};
use zerosyntax::rope::rope_chars;
use zerosyntax::semantic::{SemKind, SemToken};
use zerosyntax::wire::{
    can_splice, encode_tokens, sem_kind_index, semantic_tokens_splice, to_lsp_semantic_tokens,
    WireToken,
};

fn range(start: (u32, u32), end: (u32, u32)) -> TextRange {
    TextRange {
        start: Position::new(start.0, start.1),
        end: Position::new(end.0, end.1),
    }
}

fn token(delta_line: u32, delta_start: u32, length: u32) -> WireToken {
    WireToken {
        delta_line,
        delta_start,
        length,
        token_type: 0,
        token_modifiers_bitset: 0,
    }
}

#[test]
fn position_offset_round_trip() {
    let rope = Rope::from_str("Weapon AK47\n  PrimaryDamage = 50.0\nEnd\n");
    for byte in [0u32, 7, 14, 30, 35] {
        let pos = offset_to_position(&rope, byte);
        assert_eq!(position_to_offset(&rope, pos), byte, "byte {byte} via {pos:?}");
    }
}

#[test]
fn position_on_second_line() {
    let rope = Rope::from_str("Weapon AK47\n  PrimaryDamage = 50.0\nEnd\n");
    // The 'P' of PrimaryDamage is at line 1, char 2.
    let byte = "Weapon AK47\n  ".len() as u32;
    assert_eq!(offset_to_position(&rope, byte), Position { line: 1, character: 2 });
}

#[test]
fn every_boundary_round_trips_in_every_encoding() {
    let text = "a\u{e9}\u{1f600}\r\nb\u{2028}c\n\n\u{1f600}";
    let rope = Rope::from_str(text);
    for enc in [PositionEnc::Utf8, PositionEnc::Utf16, PositionEnc::Utf32] {
        for (byte, _) in text.char_indices() {
            let pos = position_at(&rope, byte as u32, enc);
            assert_eq!(offset_at(&rope, pos, enc), byte as u32, "{enc:?} {byte}");
        }
        let end = position_at(&rope, text.len() as u32, enc);
        assert_eq!(offset_at(&rope, end, enc), text.len() as u32);
    }
}

#[test]
fn columns_count_what_the_encoding_says() {
    let rope = Rope::from_str("\u{1f600}x\n");
    assert_eq!(position_at(&rope, 4, PositionEnc::Utf8), Position::new(0, 4));
    assert_eq!(position_at(&rope, 4, PositionEnc::Utf16), Position::new(0, 2));
    assert_eq!(position_at(&rope, 4, PositionEnc::Utf32), Position::new(0, 1));
    assert_eq!(PositionEnc::default(), PositionEnc::Utf16);
}

#[test]
fn positions_outside_are_clamped() {
    let rope = Rope::from_str("ab\ncd");
    assert_eq!(offset_to_position(&rope, 99), Position::new(1, 2));
    assert_eq!(position_to_offset(&rope, Position::new(9, 0)), 3);
    assert_eq!(position_to_offset(&rope, Position::new(1, 99)), 5);
}

#[test]
fn positions_keep_the_order_of_offsets() {
    let rope = Rope::from_str("ab\n\u{e9}d\nf");
    let mut last = Position::new(0, 0);
    for byte in 0..8u32 {
        let pos = position_at(&rope, byte, PositionEnc::Utf16);
        assert!((last.line, last.character) <= (pos.line, pos.character));
        last = pos;
    }
}

#[test]
fn ranges_are_pairs_of_positions() {
    let rope = Rope::from_str("ab\ncd");
    assert_eq!(span_to_range(&rope, Span::new(1, 4)), range((0, 1), (1, 1)));
    assert_eq!(
        range_at(&rope, Span::new(3, 5), PositionEnc::Utf8),
        range((1, 0), (1, 2))
    );
}

#[test]
fn encodings_are_negotiated_by_preference() {
    let offer = |names: &[&str]| names.iter().map(|n| n.to_string()).collect::<Vec<_>>();
    assert_eq!(negotiate_encoding(&offer(&["utf-16", "utf-8"])), PositionEnc::Utf8);
    assert_eq!(negotiate_encoding(&offer(&["utf-16"])), PositionEnc::Utf16);
    assert_eq!(negotiate_encoding(&offer(&[])), PositionEnc::Utf16);
}

#[test]
fn folds_span_more_than_one_line() {
    let rope = Rope::from_str("Object A\n  X = 1\nEnd\n");
    assert_eq!(fold_lines(&rope, Span::new(0, 20), PositionEnc::Utf16), Some((0, 2)));
    assert_eq!(fold_lines(&rope, Span::new(0, 5), PositionEnc::Utf16), None);
}

#[test]
fn changes_replace_their_range_only() {
    let mut rope = Rope::from_str("Object Old\nEnd\n");
    let enc = PositionEnc::Utf16;
    assert!(is_forward(&rope, Some(range((0, 7), (0, 10))), enc));
    apply_change(&mut rope, Some(range((0, 7), (0, 10))), "New", enc);
    assert_eq!(rope.to_string(), "Object New\nEnd\n");
    apply_change(&mut rope, Some(range((0, 10), (1, 0))), "", enc);
    assert_eq!(rope.to_string(), "Object NewEnd\n");
    apply_change(&mut rope, None, "x", enc);
    assert_eq!(rope.to_string(), "x");
    assert!(!is_forward(&rope, Some(range((0, 1), (0, 0))), enc));
}

#[test]
fn rope_characters_are_the_text() {
    let text = "a\u{e9}\u{1f600}\n";
    assert_eq!(rope_chars(&Rope::from_str(text)), text.chars().collect::<Vec<_>>());
}

#[test]
fn delta_encodes_tokens_across_lines() {
    let rope = Rope::from_str("Weapon AK47\nEnd\n");
    let tokens = vec![
        SemToken { span: Span::new(0, 6), kind: SemKind::Keyword },
        SemToken { span: Span::new(7, 11), kind: SemKind::BlockName },
        SemToken { span: Span::new(12, 15), kind: SemKind::Keyword },
    ];
    let lsp = to_lsp_semantic_tokens(&rope, &tokens);
    assert_eq!(lsp[0].delta_line, 0);
    assert_eq!(lsp[0].delta_start, 0);
    assert_eq!(lsp[0].length, 6);
    assert_eq!(lsp[1].delta_line, 0);
    assert_eq!(lsp[1].delta_start, 7); // 7 - 0
    assert_eq!(lsp[2].delta_line, 1);
    assert_eq!(lsp[2].delta_start, 0); // new line resets column
    assert_eq!(lsp[2].length, 3);
}

#[test]
fn token_lengths_follow_the_encoding() {
    let rope = Rope::from_str("\u{1f600}\u{e9} x");
    let tokens = vec![
        SemToken { span: Span::new(0, 6), kind: SemKind::Number },
        SemToken { span: Span::new(7, 8), kind: SemKind::Field },
    ];
    let wide = encode_tokens(&rope, &tokens, PositionEnc::Utf8);
    assert_eq!((wide[0].length, wide[1].delta_start), (6, 7));
    let narrow = encode_tokens(&rope, &tokens, PositionEnc::Utf16);
    assert_eq!((narrow[0].length, narrow[1].delta_start), (3, 4));
    assert_eq!(narrow[0].token_type, sem_kind_index(SemKind::Number));
    assert_ne!(sem_kind_index(SemKind::Number), sem_kind_index(SemKind::Field));
}

#[test]
fn splices_turn_one_list_into_the_other() {
    let prev = vec![token(0, 0, 1), token(0, 2, 1), token(1, 0, 3), token(1, 0, 4)];
    let next = vec![token(0, 0, 1), token(0, 5, 2), token(1, 0, 4)];
    let splice = semantic_tokens_splice(&prev, &next);
    // Offsets count encoded numbers, five to a token.
    assert_eq!(splice.start % 5, 0);
    assert_eq!(splice.delete_count % 5, 0);
    let from = splice.start as usize / 5;
    let to = from + splice.delete_count as usize / 5;
    let mut result = prev[..from].to_vec();
    result.extend_from_slice(&splice.data);
    result.extend_from_slice(&prev[to..]);
    assert_eq!(result, next);
    assert_eq!(from, 1);
    assert_eq!(splice.data, vec![token(0, 5, 2)]);

    let same = semantic_tokens_splice(&prev, &prev);
    assert_eq!(same.delete_count, 0);
    assert!(same.data.is_empty());
}

#[test]
fn splices_need_the_held_result() {
    assert!(can_splice(Some(12), "12"));
    assert!(!can_splice(Some(12), "11"));
    assert!(!can_splice(Some(12), "012"));
    assert!(!can_splice(None, "12"));
}
