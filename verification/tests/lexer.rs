//! Tokens of INI text.

use zerosyntax::kind::SyntaxKind;
use zerosyntax::lexer::tokenize;

fn kinds(src: &str) -> Vec<SyntaxKind> {
    tokenize(src).into_iter().map(|t| t.kind).collect()
}

/// Concatenating token texts reproduces the input.
fn assert_lossless(src: &str) {
    let joined: String = tokenize(src).iter().map(|t| t.text(src)).collect();
    assert_eq!(joined, src, "lexer dropped bytes for {src:?}");
}

const WORD: SyntaxKind = SyntaxKind::WORD;
const WHITESPACE: SyntaxKind = SyntaxKind::WHITESPACE;
const EQUALS: SyntaxKind = SyntaxKind::EQUALS;
const COMMENT: SyntaxKind = SyntaxKind::COMMENT;
const NEWLINE: SyntaxKind = SyntaxKind::NEWLINE;
const STRING: SyntaxKind = SyntaxKind::STRING;

#[test]
fn field_assignment() {
    assert_eq!(
        kinds("PrimaryDamage = 50.0"),
        vec![WORD, WHITESPACE, EQUALS, WHITESPACE, WORD]
    );
    assert_lossless("PrimaryDamage = 50.0");
}

#[test]
fn no_space_around_equals() {
    assert_eq!(kinds("ClipSize=8"), vec![WORD, EQUALS, WORD]);
}

#[test]
fn comment_runs_to_eol() {
    assert_eq!(
        kinds("Foo = Bar ; a comment\nBaz"),
        vec![WORD, WHITESPACE, EQUALS, WHITESPACE, WORD, WHITESPACE, COMMENT, NEWLINE, WORD]
    );
    assert_lossless("Foo = Bar ; a comment\nBaz");
}

#[test]
fn bitflags_keep_sign_in_word() {
    assert_eq!(
        kinds("DamageType = +ARMOR_PIERCING -FLAME"),
        vec![WORD, WHITESPACE, EQUALS, WHITESPACE, WORD, WHITESPACE, WORD]
    );
}

#[test]
fn quoted_string() {
    assert_eq!(
        kinds(r#"DisplayName = "Tank Marauder""#),
        vec![WORD, WHITESPACE, EQUALS, WHITESPACE, STRING]
    );
    assert_lossless(r#"DisplayName = "Tank Marauder""#);
}

#[test]
fn unterminated_string_still_lexes() {
    assert_eq!(
        kinds(r#"Name = "oops"#),
        vec![WORD, WHITESPACE, EQUALS, WHITESPACE, STRING]
    );
    assert_lossless(r#"Name = "oops"#);
}

#[test]
fn color_and_coord_are_words_at_lex_level() {
    assert_eq!(
        kinds("Color = R:255 G:128 B:0"),
        vec![WORD, WHITESPACE, EQUALS, WHITESPACE, WORD, WHITESPACE, WORD, WHITESPACE, WORD]
    );
}

#[test]
fn crlf_line_endings() {
    assert_eq!(kinds("A\r\nB"), vec![WORD, NEWLINE, WORD]);
    assert_lossless("A\r\nB");
}

#[test]
fn tokens_have_byte_ranges() {
    let src = "é = \"ü\" ; ö\r\n";
    let tokens = tokenize(src);
    assert_lossless(src);
    let mut at = 0;
    for token in &tokens {
        assert_eq!(token.start, at);
        assert_eq!(token.len(), token.end - token.start);
        assert!(!token.is_empty());
        at = token.end;
    }
    assert_eq!(at, src.len());
    assert!(tokenize("").is_empty());
}

#[test]
fn trivia_is_blanks_comments_and_line_ends() {
    assert!(WHITESPACE.is_trivia());
    assert!(COMMENT.is_trivia());
    assert!(NEWLINE.is_trivia());
    assert!(!WORD.is_trivia());
    assert!(!EQUALS.is_trivia());
    assert!(!STRING.is_trivia());
}
