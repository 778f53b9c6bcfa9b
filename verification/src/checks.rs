//! Checks of field values against their declared types.
//!
//! A finding's range is relative to the top-level element it was found in.

use vstd::prelude::*;
use vstd::string::*;

use crate::analyzer::{has_builtin, Analyzer, Span};
use crate::ast::leaf_views;
use crate::index::{entry_position, IndexView, WorkspaceIndex};
use crate::numbers::{
    decimal, i64_value, is_non_positive, is_real, is_u64, is_zero_or_less, parse_i64, parses_real,
    parses_u64, signed_decimal, to_decimal, to_signed_decimal,
};
use crate::nav::{ends_with_colon, is_prefix};
use crate::schema::{has_member, value_set_named, RefKind, Schema, ValueType};
use crate::text::{
    cat3, cat5, cat7, chars_of, drop_last_char, last_char, lower, quotes_trimmed, same,
    same_ignoring_case, split_first, split_once, trim_modifiers, trim_quotes, unquote, unquoted,
    unsigned_flag,
};
use crate::tree::{LeafView, SyntaxToken};

verus! {

/// Severity of a diagnostic.
#[derive(Debug, Clone, Copy, PartialEq, Eq, Structural)]
pub enum Severity {
    Error,
    Warning,
    Hint,
}

/// A single diagnostic over a byte span.
#[derive(Debug, PartialEq, Eq)]
pub struct Diagnostic {
    pub span: Span,
    pub severity: Severity,
    /// Stable machine code (e.g. `unknown-field`) for client filtering.
    pub code: &'static str,
    pub message: String,
}

#[verifier::ext_equal]
pub struct DiagnosticView {
    pub span: Span,
    pub severity: Severity,
    pub code: Seq<char>,
    pub message: Seq<char>,
}

impl Diagnostic {
    pub open spec fn view(&self) -> DiagnosticView {
        DiagnosticView {
            span: self.span,
            severity: self.severity,
            code: self.code@,
            message: self.message@,
        }
    }
}

pub open spec fn diagnostic_views(s: Seq<Diagnostic>) -> Seq<DiagnosticView> {
    Seq::new(s.len(), |i: int| s[i].view())
}

/// What the checks depend on: the schema, the names that the workspace
/// defines (in lower case; `None` without an index), and whether the document
/// is loaded as a map override.
pub struct EnvView {
    pub schema: Schema,
    pub names: Option<Set<(RefKind, Seq<char>)>>,
    pub map_layer: bool,
}

/// The names that an index defines, in lower case.
pub open spec fn name_set(index: IndexView) -> Set<(RefKind, Seq<char>)> {
    Set::new(
        |p: (RefKind, Seq<char>)| entry_position(index.entries, p.0, p.1) < index.entries.len(),
    )
}

/// What the checks of a document need.
#[derive(Clone, Copy)]
pub struct Ctx<'a> {
    pub analyzer: &'a Analyzer,
    pub index: Option<&'a WorkspaceIndex>,
    pub map_layer: bool,
}

impl<'a> Ctx<'a> {
    pub open spec fn env(&self) -> EnvView {
        EnvView {
            schema: self.analyzer.schema,
            names: match self.index {
                Some(index) => Some(name_set(index.view())),
                None => None,
            },
            map_layer: self.map_layer,
        }
    }
}

/// A finding on a token.
pub open spec fn finding(
    token: LeafView,
    severity: Severity,
    code: Seq<char>,
    message: Seq<char>,
) -> DiagnosticView {
    DiagnosticView {
        span: Span { start: token.start as u32, end: token.end as u32 },
        severity,
        code,
        message,
    }
}

/// Records a finding on a token.
pub fn report(
    out: &mut Vec<Diagnostic>,
    token: &SyntaxToken,
    severity: Severity,
    code: &'static str,
    message: String,
)
    ensures
        diagnostic_views(final(out)@) == diagnostic_views(old(out)@).push(
            finding(token.view(), severity, code@, message@),
        ),
{
    let ghost before = diagnostic_views(out@);
    out.push(
        Diagnostic { span: Span { start: token.start, end: token.end }, severity, code, message },
    );
    assert(diagnostic_views(out@) =~= before.push(
        finding(token.view(), severity, code@, message@),
    ));
}

// ---------------------------------------------------------------------------
// Single tokens
// ---------------------------------------------------------------------------
/// How a number is written.
#[derive(Clone, Copy, PartialEq, Eq, Structural)]
pub enum NumKind {
    Int,
    UInt,
    Real,
}

pub open spec fn number_ok(text: Seq<char>, kind: NumKind) -> bool {
    match kind {
        NumKind::Int => i64_value(text) is Some,
        NumKind::UInt => is_u64(text),
        NumKind::Real => is_real(text),
    }
}

pub open spec fn number_phrase(kind: NumKind) -> Seq<char> {
    match kind {
        NumKind::Int => "an integer"@,
        NumKind::UInt => "a non-negative integer"@,
        NumKind::Real => "a number"@,
    }
}

pub open spec fn number_findings(
    token: LeafView,
    kind: NumKind,
    acc: Seq<DiagnosticView>,
) -> Seq<DiagnosticView> {
    if number_ok(token.text, kind) {
        acc
    } else {
        acc.push(
            finding(
                token,
                Severity::Error,
                "bad-number"@,
                "expected "@ + number_phrase(kind) + ", found `"@ + token.text + "`"@,
            ),
        )
    }
}

fn check_number(token: &SyntaxToken, kind: NumKind, out: &mut Vec<Diagnostic>)
    ensures
        diagnostic_views(final(out)@) == number_findings(
            token.view(),
            kind,
            diagnostic_views(old(out)@),
        ),
{
    let text = token.text.as_str();
    let ok = match kind {
        NumKind::Int => parse_i64(text).is_some(),
        NumKind::UInt => parses_u64(text),
        NumKind::Real => parses_real(text),
    };
    if !ok {
        let what = match kind {
            NumKind::Int => "an integer",
            NumKind::UInt => "a non-negative integer",
            NumKind::Real => "a number",
        };
        let message = cat5("expected ", what, ", found `", text, "`");
        report(out, token, Severity::Error, "bad-number", message);
    }
}

/// The findings for a token that should be `member` of an enum.
pub open spec fn enum_findings(
    schema: Schema,
    value_set: Seq<char>,
    token: LeafView,
    acc: Seq<DiagnosticView>,
) -> Seq<DiagnosticView> {
    match value_set_named(schema.value_sets@, value_set) {
        Some(set) => if set.members@.len() == 0 || has_member(set.members@, token.text) {
            acc
        } else {
            acc.push(
                finding(
                    token,
                    Severity::Error,
                    "bad-enum"@,
                    "`"@ + token.text + "` is not a valid value (expected one of "@ + value_set
                        + ")"@,
                ),
            )
        },
        None => acc,
    }
}

fn check_enum_member(
    analyzer: &Analyzer,
    value_set: &str,
    token: &SyntaxToken,
    out: &mut Vec<Diagnostic>,
)
    ensures
        diagnostic_views(final(out)@) == enum_findings(
            analyzer.schema,
            value_set@,
            token.view(),
            diagnostic_views(old(out)@),
        ),
{
    if let Some(set) = analyzer.value_set(value_set) {
        if set.members.len() > 0 && !set.contains(token.text.as_str()) {
            let message = cat5(
                "`",
                token.text.as_str(),
                "` is not a valid value (expected one of ",
                value_set,
                ")",
            );
            report(out, token, Severity::Error, "bad-enum", message);
        }
    }
}

/// `NONE` and `ALL` stand for no flag and every flag.
pub open spec fn special_flag(raw: Seq<char>) -> bool {
    same_ignoring_case(raw, "NONE"@) || same_ignoring_case(raw, "ALL"@)
}

/// The findings for a token that should be a flag, with its modifiers.
pub open spec fn flag_findings(
    schema: Schema,
    value_set: Seq<char>,
    token: LeafView,
    acc: Seq<DiagnosticView>,
) -> Seq<DiagnosticView> {
    let raw = unsigned_flag(token.text, true);
    if special_flag(raw) {
        acc
    } else {
        match value_set_named(schema.value_sets@, value_set) {
            Some(set) => if set.members@.len() == 0 || has_member(set.members@, raw) {
                acc
            } else {
                acc.push(
                    finding(
                        token,
                        Severity::Error,
                        "bad-flag"@,
                        "`"@ + raw + "` is not a valid "@ + value_set + " flag"@,
                    ),
                )
            },
            None => acc,
        }
    }
}

fn check_bitflag_member(
    analyzer: &Analyzer,
    value_set: &str,
    token: &SyntaxToken,
    out: &mut Vec<Diagnostic>,
)
    ensures
        diagnostic_views(final(out)@) == flag_findings(
            analyzer.schema,
            value_set@,
            token.view(),
            diagnostic_views(old(out)@),
        ),
{
    let raw = trim_modifiers(token.text.as_str(), true);
    if raw.eq_ignore_ascii_case("NONE") || raw.eq_ignore_ascii_case("ALL") {
        return ;
    }
    if let Some(set) = analyzer.value_set(value_set) {
        if set.members.len() > 0 && !set.contains(raw) {
            let message = cat5("`", raw, "` is not a valid ", value_set, " flag");
            report(out, token, Severity::Error, "bad-flag", message);
        }
    }
}

/// References that need no definition: the null references and the builtins.
pub open spec fn null_reference(schema: Schema, kind: RefKind, name: Seq<char>) -> bool {
    ||| name.len() == 0
    ||| same_ignoring_case(name, "None"@)
    ||| (kind == RefKind::AudioEvent && same_ignoring_case(name, "NoSound"@))
    ||| has_builtin(schema.builtins@, kind, name)
}

/// The findings for a token that should name a definition.
pub open spec fn reference_findings(
    env: EnvView,
    kind: RefKind,
    token: LeafView,
    acc: Seq<DiagnosticView>,
) -> Seq<DiagnosticView> {
    let name = unquoted(token.text);
    match env.names {
        Some(names) => if null_reference(env.schema, kind, name) || names.contains(
            (kind, lower(name)),
        ) {
            acc
        } else {
            acc.push(
                finding(
                    token,
                    Severity::Warning,
                    "unresolved-reference"@,
                    "`"@ + name + "` is not defined anywhere in the workspace"@,
                ),
            )
        },
        None => acc,
    }
}

fn check_reference(ctx: &Ctx, kind: RefKind, token: &SyntaxToken, out: &mut Vec<Diagnostic>)
    ensures
        diagnostic_views(final(out)@) == reference_findings(
            ctx.env(),
            kind,
            token.view(),
            diagnostic_views(old(out)@),
        ),
{
    if let Some(index) = ctx.index {
        let name = unquote(token.text.as_str());
        if name.is_empty() || name.eq_ignore_ascii_case("None") || (kind == RefKind::AudioEvent
            && name.eq_ignore_ascii_case("NoSound")) || ctx.analyzer.is_builtin(kind, name) {
            return ;
        }
        if !index.is_defined(kind, name) {
            let message = cat3("`", name, "` is not defined anywhere in the workspace");
            report(out, token, Severity::Warning, "unresolved-reference", message);
        }
    }
}

/// A percentage: a real number followed by `%`.
pub open spec fn is_percent(text: Seq<char>) -> bool {
    text.len() > 0 && text.last() == '%' && is_real(text.drop_last())
}

/// `Yes` or `No`, in any case, possibly quoted.
pub open spec fn is_bool(text: Seq<char>) -> bool {
    lower(unquoted(text)) == "yes"@ || lower(unquoted(text)) == "no"@
}

/// A prefixed value in one token: the prefix, in any case, a `:` and the value.
pub open spec fn is_prefixed(text: Seq<char>, prefix: Seq<char>) -> bool {
    match split_first(quotes_trimmed(text), ':') {
        Some((actual, value)) => same_ignoring_case(actual, prefix) && value.len() > 0,
        None => false,
    }
}

/// The findings for a token that should be a prefixed value.
pub open spec fn prefixed_findings(
    prefix: Seq<char>,
    token: LeafView,
    acc: Seq<DiagnosticView>,
) -> Seq<DiagnosticView> {
    if is_prefixed(token.text, prefix) {
        acc
    } else {
        acc.push(
            finding(
                token,
                Severity::Error,
                "bad-prefixed"@,
                "expected `"@ + prefix + ":<value>`, found `"@ + token.text + "`"@,
            ),
        )
    }
}

fn check_prefixed(prefix: &str, token: &SyntaxToken, out: &mut Vec<Diagnostic>)
    ensures
        diagnostic_views(final(out)@) == prefixed_findings(
            prefix@,
            token.view(),
            diagnostic_views(old(out)@),
        ),
{
    let text = token.text.as_str();
    let ok = match split_once(trim_quotes(text), ':') {
        Some((actual, value)) => actual.eq_ignore_ascii_case(prefix) && !value.is_empty(),
        None => false,
    };
    if !ok {
        let message = cat5("expected `", prefix, ":<value>`, found `", text, "`");
        report(out, token, Severity::Error, "bad-prefixed", message);
    }
}

/// The findings for one value token against a single-token type.
pub open spec fn token_findings(
    env: EnvView,
    token: LeafView,
    ty: ValueType,
    acc: Seq<DiagnosticView>,
) -> Seq<DiagnosticView> {
    match ty {
        ValueType::Bool => if is_bool(token.text) {
            acc
        } else {
            acc.push(
                finding(
                    token,
                    Severity::Error,
                    "bad-bool"@,
                    "expected `Yes` or `No`, found `"@ + token.text + "`"@,
                ),
            )
        },
        ValueType::Int => number_findings(token, NumKind::Int, acc),
        ValueType::UInt => number_findings(token, NumKind::UInt, acc),
        ValueType::Real | ValueType::AngleReal | ValueType::Velocity | ValueType::Acceleration
        | ValueType::Duration => number_findings(token, NumKind::Real, acc),
        ValueType::PositiveReal => {
            let checked = number_findings(token, NumKind::Real, acc);
            if is_non_positive(token.text) {
                checked.push(
                    finding(
                        token,
                        Severity::Warning,
                        "non-positive"@,
                        "`"@ + token.text + "` should be greater than 0"@,
                    ),
                )
            } else {
                checked
            }
        },
        ValueType::Percent => if is_percent(token.text) {
            acc
        } else {
            acc.push(
                finding(
                    token,
                    Severity::Error,
                    "bad-percent"@,
                    "expected a percentage like `100%`, found `"@ + token.text + "`"@,
                ),
            )
        },
        ValueType::Enum { value_set } => enum_findings(env.schema, value_set@, token, acc),
        ValueType::BitFlags { value_set } => flag_findings(env.schema, value_set@, token, acc),
        ValueType::Reference { ref_kind } => reference_findings(env, ref_kind, token, acc),
        ValueType::ReferenceList { ref_kind } => reference_findings(env, ref_kind, token, acc),
        ValueType::Prefixed { prefix, value_type: _ } => prefixed_findings(prefix@, token, acc),
        _ => acc,
    }
}

/// Validate one value token against a single-token type.
pub fn check_token(ctx: &Ctx, token: &SyntaxToken, ty: &ValueType, out: &mut Vec<Diagnostic>)
    ensures
        diagnostic_views(final(out)@) == token_findings(
            ctx.env(),
            token.view(),
            *ty,
            diagnostic_views(old(out)@),
        ),
{
    let text = token.text.as_str();
    match ty {
        ValueType::Bool => {
            let value = unquote(text).to_ascii_lowercase();
            if !same(value.as_str(), "yes") && !same(value.as_str(), "no") {
                let message = cat3("expected `Yes` or `No`, found `", text, "`");
                report(out, token, Severity::Error, "bad-bool", message);
            }
        },
        ValueType::Int => check_number(token, NumKind::Int, out),
        ValueType::UInt => check_number(token, NumKind::UInt, out),
        ValueType::Real
        | ValueType::AngleReal
        | ValueType::Velocity
        | ValueType::Acceleration
        | ValueType::Duration => check_number(token, NumKind::Real, out),
        ValueType::PositiveReal => {
            check_number(token, NumKind::Real, out);
            if is_zero_or_less(text) {
                let message = cat3("`", text, "` should be greater than 0");
                report(out, token, Severity::Warning, "non-positive", message);
            }
        },
        // Stricter than the engine, which reads a bare real: the `%` sign is
        // required, because `Armor = X 2` almost never means 2 percent.
        ValueType::Percent => {
            let ok = match last_char(text) {
                Some('%') => parses_real(drop_last_char(text)),
                _ => false,
            };
            if !ok {
                let message = cat3("expected a percentage like `100%`, found `", text, "`");
                report(out, token, Severity::Error, "bad-percent", message);
            }
        },
        ValueType::Enum { value_set } => check_enum_member(
            ctx.analyzer,
            value_set.as_str(),
            token,
            out,
        ),
        ValueType::BitFlags { value_set } => check_bitflag_member(
            ctx.analyzer,
            value_set.as_str(),
            token,
            out,
        ),
        ValueType::Reference { ref_kind } => check_reference(ctx, *ref_kind, token, out),
        ValueType::ReferenceList { ref_kind } => check_reference(ctx, *ref_kind, token, out),
        ValueType::Prefixed { prefix, value_type: _ } => check_prefixed(
            prefix.as_str(),
            token,
            out,
        ),
        _ => {},
    }
}

// ---------------------------------------------------------------------------
// Tagged axes
// ---------------------------------------------------------------------------
/// A part of a tagged value and the token it comes from.
pub struct PartView {
    pub text: Seq<char>,
    pub token: LeafView,
}

/// The non-empty parts of a text between `:` signs.
pub open spec fn colon_parts(text: Seq<char>) -> Seq<Seq<char>>
    decreases text.len(),
{
    if text.len() == 0 {
        Seq::empty()
    } else if text.last() == ':' {
        colon_parts(text.drop_last())
    } else {
        let before = colon_parts(text.drop_last());
        if text.len() == 1 || text[text.len() - 2] == ':' {
            before.push(seq![text.last()])
        } else {
            before.drop_last().push(before.last().push(text.last()))
        }
    }
}

/// The parts of one token.
pub open spec fn token_parts(token: LeafView) -> Seq<PartView> {
    let parts = colon_parts(token.text);
    Seq::new(parts.len(), |i: int| PartView { text: parts[i], token })
}

/// The parts of a list of tokens.
pub open spec fn all_parts(tokens: Seq<LeafView>) -> Seq<PartView>
    decreases tokens.len(),
{
    if tokens.len() == 0 {
        Seq::empty()
    } else {
        all_parts(tokens.drop_last()) + token_parts(tokens.last())
    }
}

struct Part<'a> {
    text: String,
    token: &'a SyntaxToken,
}

spec fn part_views(s: Seq<Part<'_>>) -> Seq<PartView> {
    Seq::new(s.len(), |i: int| PartView { text: s[i].text@, token: s[i].token.view() })
}

/// Splits each token on `:` the way the engine's separator set does.
fn split_parts<'a>(tokens: &Vec<&'a SyntaxToken>) -> (out: Vec<Part<'a>>)
    ensures
        part_views(out@) == all_parts(leaf_views(tokens@)),
{
    let ghost all = leaf_views(tokens@);
    let mut out: Vec<Part<'a>> = Vec::new();
    let mut t: usize = 0;
    assert(part_views(out@) =~= all_parts(all.take(0)));
    while t < tokens.len()
        invariant
            t <= tokens@.len(),
            all == leaf_views(tokens@),
            part_views(out@) == all_parts(all.take(t as int)),
        decreases tokens@.len() - t,
    {
        let token = tokens[t];
        let ghost before = part_views(out@);
        proof {
            assert(all.take(t + 1).drop_last() =~= all.take(t as int));
            assert(all.take(t + 1).last() == token.view());
        }
        let parts = split_colons(token.text.as_str());
        let ghost texts = colon_parts(token.text@);
        let mut i: usize = 0;
        assert(before + token_parts(token.view()).take(0) =~= before);
        while i < parts.len()
            invariant
                i <= parts@.len(),
                texts == colon_parts(token.text@),
                parts@.len() == texts.len(),
                forall|k: int| 0 <= k < parts@.len() ==> (#[trigger] parts@[k])@ == texts[k],
                part_views(out@) == before + token_parts(token.view()).take(i as int),
            decreases parts@.len() - i,
        {
            let ghost had = part_views(out@);
            assert(parts@[i as int]@ == texts[i as int]);
            out.push(Part { text: parts[i].clone(), token });
            proof {
                let views = token_parts(token.view());
                assert(views.take(i + 1) =~= views.take(i as int).push(views[i as int]));
                assert(part_views(out@) =~= had.push(views[i as int]));
                assert(had.push(views[i as int]) =~= before + views.take(i + 1));
            }
            i += 1;
        }
        assert(token_parts(token.view()).take(i as int) =~= token_parts(token.view()));
        t += 1;
    }
    assert(all.take(t as int) =~= all);
    out
}

/// The non-empty parts of a text between `:` signs.
fn split_colons(text: &str) -> (out: Vec<String>)
    ensures
        out@.len() == colon_parts(text@).len(),
        forall|k: int| 0 <= k < out@.len() ==> (#[trigger] out@[k])@ == colon_parts(text@)[k],
{
    let chars = chars_of(text);
    let mut done: Vec<String> = Vec::new();
    let mut current = String::new();
    let mut i: usize = 0;
    assert(text@.take(0) =~= Seq::<char>::empty());
    while i < chars.len()
        invariant
            chars@ == text@,
            i <= chars@.len(),
            ({
                let parts = colon_parts(text@.take(i as int));
                let inside = i > 0 && text@[i - 1] != ':';
                &&& inside == (current@.len() > 0)
                &&& inside ==> parts.len() == done@.len() + 1 && parts.last() == current@
                &&& !inside ==> parts.len() == done@.len()
                &&& forall|k: int| 0 <= k < done@.len() ==> (#[trigger] done@[k])@ == parts[k]
            }),
        decreases chars@.len() - i,
    {
        let c = chars[i];
        let ghost now = text@.take(i as int);
        let ghost next = text@.take(i + 1);
        proof {
            assert(next.drop_last() =~= now);
            assert(next.last() == c);
            if i > 0 {
                assert(next[next.len() - 2] == text@[i - 1]);
            }
        }
        if c == ':' {
            if !current.as_str().is_empty() {
                done.push(current);
                current = String::new();
            }
        } else {
            let ghost was = current@;
            current.push(c);
            proof {
                if was.len() == 0 {
                    assert(current@ =~= seq![c]);
                }
            }
        }
        i += 1;
    }
    assert(text@.take(i as int) =~= text@);
    if !current.as_str().is_empty() {
        done.push(current);
    }
    done
}

/// Which axes a tagged value has, and what their values are.
#[derive(Clone, Copy, PartialEq, Eq, Structural)]
pub enum Axes {
    /// `R:0 G:0 B:0 [A:255]`, integers from 0 to 255.
    Color,
    /// `X:0 Y:0`, reals.
    Coord2D,
    /// `X:0 Y:0 Z:0`, reals.
    Coord3D,
}

/// The required axes, in order.
pub open spec fn axis_names(axes: Axes) -> Seq<Seq<char>> {
    match axes {
        Axes::Color => seq!["R"@, "G"@, "B"@],
        Axes::Coord2D => seq!["X"@, "Y"@],
        Axes::Coord3D => seq!["X"@, "Y"@, "Z"@],
    }
}

pub open spec fn axes_code(axes: Axes) -> Seq<char> {
    if axes == Axes::Color {
        "bad-color"@
    } else {
        "bad-coord"@
    }
}

pub open spec fn axes_format(axes: Axes) -> Seq<char> {
    match axes {
        Axes::Color => "R:<n> G:<n> B:<n>"@,
        Axes::Coord2D => "X:<n> Y:<n>"@,
        Axes::Coord3D => "X:<n> Y:<n> Z:<n>"@,
    }
}

/// The findings for the value of an axis.
pub open spec fn axis_value_findings(
    axes: Axes,
    axis: Seq<char>,
    part: PartView,
    acc: Seq<DiagnosticView>,
) -> Seq<DiagnosticView> {
    if axes == Axes::Color {
        match i64_value(part.text) {
            Some(n) => if 0 <= n <= 255 {
                acc
            } else {
                acc.push(
                    finding(
                        part.token,
                        Severity::Error,
                        axes_code(axes),
                        "`"@ + axis + ":"@ + signed_decimal(n) + "` is out of range (0-255)"@,
                    ),
                )
            },
            None => acc.push(
                finding(
                    part.token,
                    Severity::Error,
                    axes_code(axes),
                    "expected an integer for `"@ + axis + ":`, found `"@ + part.text + "`"@,
                ),
            ),
        }
    } else if is_real(part.text) {
        acc
    } else {
        acc.push(
            finding(
                part.token,
                Severity::Error,
                axes_code(axes),
                "expected a number for `"@ + axis + ":`, found `"@ + part.text + "`"@,
            ),
        )
    }
}

/// The findings for the axis whose tag should be part `i`; `ok` is whether the
/// next axis is looked at.
pub open spec fn axis_findings(
    axes: Axes,
    axis: Seq<char>,
    required: bool,
    key: LeafView,
    parts: Seq<PartView>,
    i: int,
    acc: Seq<DiagnosticView>,
) -> (Seq<DiagnosticView>, bool) {
    let code = axes_code(axes);
    if i >= parts.len() {
        if required {
            (
                acc.push(
                    finding(
                        key,
                        Severity::Error,
                        code,
                        "`"@ + key.text + "` expects `"@ + axes_format(axes) + "`"@,
                    ),
                ),
                false,
            )
        } else {
            (acc, false)
        }
    } else if !same_ignoring_case(parts[i].text, axis) {
        if required {
            (
                acc.push(
                    finding(
                        parts[i].token,
                        Severity::Error,
                        code,
                        "expected `"@ + axis + ":`, found `"@ + parts[i].text + "` (format: `"@
                            + axes_format(axes) + "`)"@,
                    ),
                ),
                false,
            )
        } else {
            (acc, false)
        }
    } else if i + 1 >= parts.len() {
        (
            acc.push(
                finding(
                    parts[i].token,
                    Severity::Error,
                    code,
                    "`"@ + axis + ":` is missing its value"@,
                ),
            ),
            false,
        )
    } else {
        (axis_value_findings(axes, axis, parts[i + 1], acc), true)
    }
}

/// The findings for the required axes from axis `n` on.
pub open spec fn required_axes_findings(
    axes: Axes,
    key: LeafView,
    parts: Seq<PartView>,
    n: int,
    acc: Seq<DiagnosticView>,
) -> (Seq<DiagnosticView>, bool)
    decreases axis_names(axes).len() - n,
{
    if n < 0 || n >= axis_names(axes).len() {
        (acc, true)
    } else {
        let (next, ok) = axis_findings(
            axes,
            axis_names(axes)[n],
            true,
            key,
            parts,
            2 * n,
            acc,
        );
        if ok {
            required_axes_findings(axes, key, parts, n + 1, next)
        } else {
            (next, false)
        }
    }
}

/// The findings for a tagged value. A color has an optional `A` component.
pub open spec fn axes_findings(
    axes: Axes,
    key: LeafView,
    tokens: Seq<LeafView>,
    acc: Seq<DiagnosticView>,
) -> Seq<DiagnosticView> {
    let parts = all_parts(tokens);
    let (next, ok) = required_axes_findings(axes, key, parts, 0, acc);
    if ok && axes == Axes::Color {
        axis_findings(axes, "A"@, false, key, parts, 6, next).0
    } else {
        next
    }
}

fn code_of(axes: Axes) -> (code: &'static str)
    ensures
        code@ == axes_code(axes),
{
    match axes {
        Axes::Color => "bad-color",
        _ => "bad-coord",
    }
}

fn format_of(axes: Axes) -> (format: &'static str)
    ensures
        format@ == axes_format(axes),
{
    match axes {
        Axes::Color => "R:<n> G:<n> B:<n>",
        Axes::Coord2D => "X:<n> Y:<n>",
        Axes::Coord3D => "X:<n> Y:<n> Z:<n>",
    }
}

fn axis_name(axes: Axes, n: usize) -> (name: &'static str)
    requires
        n < axis_names(axes).len(),
    ensures
        name@ == axis_names(axes)[n as int],
{
    match axes {
        Axes::Color => if n == 0 {
            "R"
        } else if n == 1 {
            "G"
        } else {
            "B"
        },
        _ => if n == 0 {
            "X"
        } else if n == 1 {
            "Y"
        } else {
            "Z"
        },
    }
}

fn check_axis_value(axes: Axes, axis: &str, part: &Part, out: &mut Vec<Diagnostic>)
    ensures
        diagnostic_views(final(out)@) == axis_value_findings(
            axes,
            axis@,
            PartView { text: part.text@, token: part.token.view() },
            diagnostic_views(old(out)@),
        ),
{
    let text = part.text.as_str();
    if axes == Axes::Color {
        match parse_i64(text) {
            Some(n) => {
                if n < 0 || n > 255 {
                    let digits = to_signed_decimal(n);
                    let message = cat5(
                        "`",
                        axis,
                        ":",
                        digits.as_str(),
                        "` is out of range (0-255)",
                    );
                    report(out, part.token, Severity::Error, code_of(axes), message);
                }
            },
            None => {
                let message = cat5("expected an integer for `", axis, ":`, found `", text, "`");
                report(out, part.token, Severity::Error, code_of(axes), message);
            },
        }
    } else if !parses_real(text) {
        let message = cat5("expected a number for `", axis, ":`, found `", text, "`");
        report(out, part.token, Severity::Error, code_of(axes), message);
    }
}

fn check_axis(
    axes: Axes,
    axis: &str,
    required: bool,
    key: &SyntaxToken,
    parts: &Vec<Part>,
    i: usize,
    out: &mut Vec<Diagnostic>,
) -> (ok: bool)
    requires
        i < 100,
    ensures
        (diagnostic_views(final(out)@), ok) == axis_findings(
            axes,
            axis@,
            required,
            key.view(),
            part_views(parts@),
            i as int,
            diagnostic_views(old(out)@),
        ),
{
    let ghost views = part_views(parts@);
    if i >= parts.len() {
        if required {
            let message = cat5("`", key.text.as_str(), "` expects `", format_of(axes), "`");
            report(out, key, Severity::Error, code_of(axes), message);
        }
        return false;
    }
    let tag = &parts[i];
    assert(views[i as int] == PartView { text: tag.text@, token: tag.token.view() });
    if !tag.text.as_str().eq_ignore_ascii_case(axis) {
        if required {
            let message = cat7(
                "expected `",
                axis,
                ":`, found `",
                tag.text.as_str(),
                "` (format: `",
                format_of(axes),
                "`)",
            );
            report(out, tag.token, Severity::Error, code_of(axes), message);
        }
        return false;
    }
    if i + 1 >= parts.len() {
        let message = cat3("`", axis, ":` is missing its value");
        report(out, tag.token, Severity::Error, code_of(axes), message);
        return false;
    }
    assert(views[i + 1] == PartView {
        text: parts@[i + 1].text@,
        token: parts@[i + 1].token.view(),
    });
    check_axis_value(axes, axis, &parts[i + 1], out);
    true
}

/// Validate a tagged-axis value (`R:255 G:0 B:0`, `X:1 Y:2 Z:3`). `R:255`,
/// `R: 255` and `R : 255` are all accepted; tags match case-insensitively and
/// in order.
pub fn check_axes(
    axes: Axes,
    key: &SyntaxToken,
    tokens: &Vec<&SyntaxToken>,
    out: &mut Vec<Diagnostic>,
)
    ensures
        diagnostic_views(final(out)@) == axes_findings(
            axes,
            key.view(),
            leaf_views(tokens@),
            diagnostic_views(old(out)@),
        ),
{
    let parts = split_parts(tokens);
    let ghost views = part_views(parts@);
    let ghost start = diagnostic_views(out@);
    let count: usize = match axes {
        Axes::Color => 3,
        Axes::Coord2D => 2,
        Axes::Coord3D => 3,
    };
    let mut n: usize = 0;
    while n < count
        invariant
            n <= count,
            count == axis_names(axes).len(),
            count <= 3,
            views == part_views(parts@),
            required_axes_findings(axes, key.view(), views, 0, start) == required_axes_findings(
                axes,
                key.view(),
                views,
                n as int,
                diagnostic_views(out@),
            ),
            start == diagnostic_views(old(out)@),
            views == all_parts(leaf_views(tokens@)),
        decreases count - n,
    {
        if !check_axis(axes, axis_name(axes, n), true, key, &parts, 2 * n, out) {
            return ;
        }
        n += 1;
    }
    if axes == Axes::Color {
        check_axis(axes, "A", false, key, &parts, 6, out);
    }
}

// ---------------------------------------------------------------------------
// Field values
// ---------------------------------------------------------------------------
/// Whether a field of this type may be left without a value.
pub open spec fn may_be_empty(ty: ValueType) -> bool {
    ty is Unknown || ty is AsciiStringList
}

/// The findings for a list of flags.
pub open spec fn flags_findings(
    schema: Schema,
    value_set: Seq<char>,
    tokens: Seq<LeafView>,
    acc: Seq<DiagnosticView>,
) -> Seq<DiagnosticView>
    decreases tokens.len(),
{
    if tokens.len() == 0 {
        acc
    } else {
        flag_findings(
            schema,
            value_set,
            tokens.last(),
            flags_findings(schema, value_set, tokens.drop_last(), acc),
        )
    }
}

/// The findings for a list of references.
pub open spec fn references_findings(
    env: EnvView,
    kind: RefKind,
    tokens: Seq<LeafView>,
    acc: Seq<DiagnosticView>,
) -> Seq<DiagnosticView>
    decreases tokens.len(),
{
    if tokens.len() == 0 {
        acc
    } else {
        reference_findings(
            env,
            kind,
            tokens.last(),
            references_findings(env, kind, tokens.drop_last(), acc),
        )
    }
}

/// How many of the tokens from `i` on an element of this type takes: a prefix that
/// is written as a token of its own takes the token after it too.
pub open spec fn element_len(tokens: Seq<LeafView>, i: int, ty: ValueType) -> int {
    match ty {
        ValueType::Prefixed { prefix, value_type: _ } => if i + 1 < tokens.len() && is_prefix(
            quotes_trimmed(tokens[i].text),
            prefix@,
        ) {
            2
        } else {
            1
        },
        _ => 1,
    }
}

/// The findings for the element that starts at token `i`.
pub open spec fn element_findings(
    env: EnvView,
    tokens: Seq<LeafView>,
    i: int,
    ty: ValueType,
    acc: Seq<DiagnosticView>,
) -> Seq<DiagnosticView> {
    if element_len(tokens, i, ty) == 2 {
        acc
    } else {
        token_findings(env, tokens[i], ty, acc)
    }
}

/// The findings for the tokens from `i` on, which the types from `k` on specify, up
/// to the first one that is missing.
pub open spec fn listed_findings(
    env: EnvView,
    tokens: Seq<LeafView>,
    i: int,
    specs: Seq<ValueType>,
    k: int,
    acc: Seq<DiagnosticView>,
) -> Seq<DiagnosticView>
    decreases specs.len() - k,
{
    if 0 <= k < specs.len() && 0 <= i < tokens.len() {
        listed_findings(
            env,
            tokens,
            i + element_len(tokens, i, specs[k]),
            specs,
            k + 1,
            element_findings(env, tokens, i, specs[k], acc),
        )
    } else {
        acc
    }
}

/// Validate the element that starts at token `i`, and say how many tokens it takes.
fn check_element(
    ctx: &Ctx,
    tokens: &Vec<&SyntaxToken>,
    i: usize,
    ty: &ValueType,
    out: &mut Vec<Diagnostic>,
) -> (len: usize)
    requires
        i < tokens.len(),
    ensures
        len == element_len(leaf_views(tokens@), i as int, *ty),
        diagnostic_views(final(out)@) == element_findings(
            ctx.env(),
            leaf_views(tokens@),
            i as int,
            *ty,
            diagnostic_views(old(out)@),
        ),
{
    assert(leaf_views(tokens@)[i as int] == tokens@[i as int].view());
    if let ValueType::Prefixed { prefix, value_type: _ } = ty {
        if i + 1 < tokens.len() && ends_with_colon(
            trim_quotes(tokens[i].text.as_str()),
            prefix.as_str(),
        ) {
            return 2;
        }
    }
    check_token(ctx, tokens[i], ty, out);
    1
}

/// The findings for a field's value tokens against its declared type.
pub open spec fn value_findings(
    env: EnvView,
    key: LeafView,
    tokens: Seq<LeafView>,
    ty: ValueType,
    acc: Seq<DiagnosticView>,
) -> Seq<DiagnosticView> {
    if tokens.len() == 0 {
        if may_be_empty(ty) {
            acc
        } else {
            acc.push(
                finding(
                    key,
                    Severity::Warning,
                    "missing-value"@,
                    "`"@ + key.text + "` expects a value"@,
                ),
            )
        }
    } else {
        match ty {
            ValueType::BitFlags { value_set } => flags_findings(
                env.schema,
                value_set@,
                tokens,
                acc,
            ),
            ValueType::ReferenceList { ref_kind } => references_findings(
                env,
                ref_kind,
                tokens,
                acc,
            ),
            ValueType::TokenList { tokens: specs } => {
                let listed = listed_findings(env, tokens, 0, specs@, 0, acc);
                if specs@.len() > tokens.len() {
                    listed.push(
                        finding(
                            key,
                            Severity::Warning,
                            "missing-value"@,
                            "`"@ + key.text + "` expects "@ + decimal(specs@.len())
                                + " values, found "@ + decimal(tokens.len()),
                        ),
                    )
                } else {
                    listed
                }
            },
            ValueType::Color => axes_findings(Axes::Color, key, tokens, acc),
            ValueType::Coord2D => axes_findings(Axes::Coord2D, key, tokens, acc),
            ValueType::Coord3D => axes_findings(Axes::Coord3D, key, tokens, acc),
            _ => element_findings(env, tokens, 0, ty, acc),
        }
    }
}

/// Validate a field's value tokens against its declared type.
#[verifier::loop_isolation(false)]
pub fn validate_value(
    ctx: &Ctx,
    key: &SyntaxToken,
    tokens: &Vec<&SyntaxToken>,
    ty: &ValueType,
    out: &mut Vec<Diagnostic>,
)
    ensures
        diagnostic_views(final(out)@) == value_findings(
            ctx.env(),
            key.view(),
            leaf_views(tokens@),
            *ty,
            diagnostic_views(old(out)@),
        ),
{
    let ghost all = leaf_views(tokens@);
    let ghost start = diagnostic_views(out@);
    let ghost env = ctx.env();
    if tokens.len() == 0 {
        // Most fields require at least one value; lenient types don't.
        let lenient = match ty {
            ValueType::Unknown { parse_fn: _ } => true,
            ValueType::AsciiStringList => true,
            _ => false,
        };
        if !lenient {
            let message = cat3("`", key.text.as_str(), "` expects a value");
            report(out, key, Severity::Warning, "missing-value", message);
        }
        return ;
    }
    match ty {
        ValueType::BitFlags { value_set } => {
            let mut i: usize = 0;
            assert(all.take(0) =~= Seq::<LeafView>::empty());
            while i < tokens.len()
                invariant
                    i <= tokens@.len(),
                    diagnostic_views(out@) == flags_findings(
                        env.schema,
                        value_set@,
                        all.take(i as int),
                        start,
                    ),
                decreases tokens@.len() - i,
            {
                proof {
                    assert(all.take(i + 1).drop_last() =~= all.take(i as int));
                    assert(all.take(i + 1).last() == tokens@[i as int].view());
                }
                check_bitflag_member(ctx.analyzer, value_set.as_str(), tokens[i], out);
                i += 1;
            }
            assert(all.take(i as int) =~= all);
        },
        // Every token names a definition of the same kind.
        ValueType::ReferenceList { ref_kind } => {
            let mut i: usize = 0;
            assert(all.take(0) =~= Seq::<LeafView>::empty());
            while i < tokens.len()
                invariant
                    i <= tokens@.len(),
                    diagnostic_views(out@) == references_findings(
                        env,
                        *ref_kind,
                        all.take(i as int),
                        start,
                    ),
                decreases tokens@.len() - i,
            {
                proof {
                    assert(all.take(i + 1).drop_last() =~= all.take(i as int));
                    assert(all.take(i + 1).last() == tokens@[i as int].view());
                }
                check_reference(ctx, *ref_kind, tokens[i], out);
                i += 1;
            }
            assert(all.take(i as int) =~= all);
        },
        // A fixed sequence of typed tokens; each listed token is required.
        ValueType::TokenList { tokens: specs } => {
            let mut i: usize = 0;
            let mut k: usize = 0;
            while k < specs.len() && i < tokens.len()
                invariant
                    k <= specs@.len(),
                    i <= tokens@.len(),
                    listed_findings(env, all, 0, specs@, 0, start) == listed_findings(
                        env,
                        all,
                        i as int,
                        specs@,
                        k as int,
                        diagnostic_views(out@),
                    ),
                decreases specs@.len() - k,
            {
                i += check_element(ctx, tokens, i, &specs[k], out);
                k += 1;
            }
            if specs.len() > tokens.len() {
                let wanted = to_decimal(specs.len() as u128);
                let found = to_decimal(tokens.len() as u128);
                let mut message = cat5(
                    "`",
                    key.text.as_str(),
                    "` expects ",
                    wanted.as_str(),
                    " values, found ",
                );
                message.append(found.as_str());
                report(out, key, Severity::Warning, "missing-value", message);
            }
        },
        ValueType::Color => check_axes(Axes::Color, key, tokens, out),
        ValueType::Coord2D => check_axes(Axes::Coord2D, key, tokens, out),
        ValueType::Coord3D => check_axes(Axes::Coord3D, key, tokens, out),
        _ => {
            let _ = check_element(ctx, tokens, 0, ty, out);
        },
    }
}

} // verus!
