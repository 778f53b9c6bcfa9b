//! `SyntaxKind`: the tag for every token (leaf) and node (composite) in the tree.

use vstd::prelude::*;

verus! {

/// Every kind of syntax element. Leaf (token) kinds come first, then composite
/// (node) kinds, then the sentinel `EOF`.
#[allow(non_camel_case_types)]
#[derive(Debug, Clone, Copy, PartialEq, Eq, PartialOrd, Ord, Hash, Structural)]
pub enum SyntaxKind {
    /// Runs of spaces and tabs (trivia).
    WHITESPACE,
    /// A line ending: `\n`, `\r\n`, or `\r`.
    NEWLINE,
    /// `; ...` to end of line (trivia).
    COMMENT,
    /// `=` field assignment / separator.
    EQUALS,
    /// A `"..."` quoted string.
    STRING,
    /// A bare token: any run of non-separator characters.
    WORD,
    /// Any character that could not be lexed.
    ERROR_TOKEN,
    /// The whole document.
    ROOT,
    /// A top-level block: `Keyword [Name] <body> End`.
    BLOCK,
    /// A nested module: `Slot = ModuleName [Tag] <body> End`.
    MODULE,
    /// A `Key = value [value...]` line.
    FIELD,
    /// The value portion of a field or module header.
    VALUE,
    /// A node wrapping content the parser could not classify.
    ERROR,
    /// Sentinel; not a real kind.
    EOF,
}

pub open spec fn trivia_kind(kind: SyntaxKind) -> bool {
    kind == SyntaxKind::WHITESPACE || kind == SyntaxKind::NEWLINE || kind == SyntaxKind::COMMENT
}

impl SyntaxKind {
    /// Whitespace, newlines and comments: preserved in the tree but ignored by
    /// the grammar.
    pub fn is_trivia(self) -> (trivia: bool)
        ensures
            trivia == trivia_kind(self),
    {
        matches!(
            self,
            SyntaxKind::WHITESPACE | SyntaxKind::NEWLINE | SyntaxKind::COMMENT
        )
    }
}

} // verus!
