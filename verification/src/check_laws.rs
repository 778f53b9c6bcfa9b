//! Laws of the checks of values: which values are accepted for a declared type and
//! what is found about the others, in terms of how a value is written.

use vstd::prelude::*;
use vstd::string::*;

use crate::analyzer::has_builtin;
use crate::checks::{
    all_parts, axes_findings, axis_findings, axis_names, colon_parts, element_findings,
    element_len, flags_findings, listed_findings, null_reference, references_findings,
    required_axes_findings, token_findings, token_parts, value_findings, Axes, DiagnosticView,
    EnvView, PartView, Severity,
};
use crate::numbers::{
    all_digits, decimal, digits_end, exponent_of, fraction_len, i64_value, is_decimal, is_digit,
    is_non_positive, is_real, is_u64, lemma_decimal_reads_back, mantissa_digits, mantissa_end,
    unsigned,
};
use crate::schema::{has_member, value_set_named, RefKind, Schema, ValueSet, ValueType};
use crate::text::{lower, lower_char, same_ignoring_case, unquoted, unsigned_flag};
use crate::tree::LeafView;

verus! {

/// What is found about the values of a field of a type.
pub open spec fn found(
    env: EnvView,
    key: LeafView,
    tokens: Seq<LeafView>,
    ty: ValueType,
) -> Seq<DiagnosticView> {
    value_findings(env, key, tokens, ty, Seq::empty())
}

/// A finding of a code on a token.
pub open spec fn is_on(
    finding: DiagnosticView,
    token: LeafView,
    severity: Severity,
    code: Seq<char>,
) -> bool {
    &&& finding.code == code
    &&& finding.severity == severity
    &&& finding.span.start == token.start as u32
    &&& finding.span.end == token.end as u32
}

/// There is one finding, of a code, on a token.
pub open spec fn one_on(
    findings: Seq<DiagnosticView>,
    token: LeafView,
    severity: Severity,
    code: Seq<char>,
) -> bool {
    findings.len() == 1 && is_on(findings[0], token, severity, code)
}

// ---------------------------------------------------------------------------
// Findings add up
// ---------------------------------------------------------------------------
proof fn lemma_token_adds(env: EnvView, token: LeafView, ty: ValueType, acc: Seq<DiagnosticView>)
    ensures
        token_findings(env, token, ty, acc) == acc + token_findings(
            env,
            token,
            ty,
            Seq::empty(),
        ),
{
    assert(token_findings(env, token, ty, acc) =~= acc + token_findings(
        env,
        token,
        ty,
        Seq::empty(),
    ));
}

proof fn lemma_flags_add(
    schema: Schema,
    set: Seq<char>,
    tokens: Seq<LeafView>,
    acc: Seq<DiagnosticView>,
)
    ensures
        flags_findings(schema, set, tokens, acc) == acc + flags_findings(
            schema,
            set,
            tokens,
            Seq::empty(),
        ),
    decreases tokens.len(),
{
    if tokens.len() > 0 {
        lemma_flags_add(schema, set, tokens.drop_last(), acc);
    }
    assert(flags_findings(schema, set, tokens, acc) =~= acc + flags_findings(
        schema,
        set,
        tokens,
        Seq::empty(),
    ));
}

proof fn lemma_references_add(
    env: EnvView,
    kind: RefKind,
    tokens: Seq<LeafView>,
    acc: Seq<DiagnosticView>,
)
    ensures
        references_findings(env, kind, tokens, acc) == acc + references_findings(
            env,
            kind,
            tokens,
            Seq::empty(),
        ),
    decreases tokens.len(),
{
    if tokens.len() > 0 {
        lemma_references_add(env, kind, tokens.drop_last(), acc);
    }
    assert(references_findings(env, kind, tokens, acc) =~= acc + references_findings(
        env,
        kind,
        tokens,
        Seq::empty(),
    ));
}

proof fn lemma_element_adds(
    env: EnvView,
    tokens: Seq<LeafView>,
    i: int,
    ty: ValueType,
    acc: Seq<DiagnosticView>,
)
    ensures
        element_findings(env, tokens, i, ty, acc) == acc + element_findings(
            env,
            tokens,
            i,
            ty,
            Seq::empty(),
        ),
{
    lemma_token_adds(env, tokens[i], ty, acc);
    assert(element_findings(env, tokens, i, ty, acc) =~= acc + element_findings(
        env,
        tokens,
        i,
        ty,
        Seq::empty(),
    ));
}

proof fn lemma_listed_adds(
    env: EnvView,
    tokens: Seq<LeafView>,
    i: int,
    specs: Seq<ValueType>,
    k: int,
    acc: Seq<DiagnosticView>,
)
    ensures
        listed_findings(env, tokens, i, specs, k, acc) == acc + listed_findings(
            env,
            tokens,
            i,
            specs,
            k,
            Seq::empty(),
        ),
    decreases specs.len() - k,
{
    let none = Seq::<DiagnosticView>::empty();
    if 0 <= k < specs.len() && 0 <= i < tokens.len() {
        let next = i + element_len(tokens, i, specs[k]);
        let own = element_findings(env, tokens, i, specs[k], none);
        lemma_element_adds(env, tokens, i, specs[k], acc);
        lemma_listed_adds(env, tokens, next, specs, k + 1, acc + own);
        lemma_listed_adds(env, tokens, next, specs, k + 1, own);
        let rest = listed_findings(env, tokens, next, specs, k + 1, none);
        assert(acc + own + rest =~= acc + (own + rest));
        assert(none + own =~= own);
        lemma_element_adds(env, tokens, i, specs[k], none);
    } else {
        assert(acc + none =~= acc);
    }
}

proof fn lemma_axis_adds(
    axes: Axes,
    axis: Seq<char>,
    required: bool,
    key: LeafView,
    parts: Seq<PartView>,
    i: int,
    acc: Seq<DiagnosticView>,
)
    ensures
        axis_findings(axes, axis, required, key, parts, i, acc).0 == acc + axis_findings(
            axes,
            axis,
            required,
            key,
            parts,
            i,
            Seq::empty(),
        ).0,
        axis_findings(axes, axis, required, key, parts, i, acc).1 == axis_findings(
            axes,
            axis,
            required,
            key,
            parts,
            i,
            Seq::empty(),
        ).1,
{
    assert(axis_findings(axes, axis, required, key, parts, i, acc).0 =~= acc + axis_findings(
        axes,
        axis,
        required,
        key,
        parts,
        i,
        Seq::empty(),
    ).0);
}

proof fn lemma_axes_add(
    axes: Axes,
    key: LeafView,
    parts: Seq<PartView>,
    n: int,
    acc: Seq<DiagnosticView>,
)
    ensures
        required_axes_findings(axes, key, parts, n, acc).0 == acc + required_axes_findings(
            axes,
            key,
            parts,
            n,
            Seq::empty(),
        ).0,
        required_axes_findings(axes, key, parts, n, acc).1 == required_axes_findings(
            axes,
            key,
            parts,
            n,
            Seq::empty(),
        ).1,
    decreases axis_names(axes).len() - n,
{
    let none = Seq::<DiagnosticView>::empty();
    if 0 <= n < axis_names(axes).len() {
        let axis = axis_names(axes)[n];
        lemma_axis_adds(axes, axis, true, key, parts, 2 * n, acc);
        let (own, ok) = axis_findings(axes, axis, true, key, parts, 2 * n, none);
        if ok {
            lemma_axes_add(axes, key, parts, n + 1, acc + own);
            lemma_axes_add(axes, key, parts, n + 1, own);
            let rest = required_axes_findings(axes, key, parts, n + 1, none).0;
            assert(acc + own + rest =~= acc + (own + rest));
        }
    } else {
        assert(acc + none =~= acc);
    }
}

/// Law: what is found about a field does not depend on what was found before it, and
/// comes behind it.
pub proof fn findings_add_up(
    env: EnvView,
    key: LeafView,
    tokens: Seq<LeafView>,
    ty: ValueType,
    acc: Seq<DiagnosticView>,
)
    ensures
        value_findings(env, key, tokens, ty, acc) == acc + found(env, key, tokens, ty),
{
    let none = Seq::<DiagnosticView>::empty();
    if tokens.len() > 0 {
        match ty {
            ValueType::BitFlags { value_set } => {
                lemma_flags_add(env.schema, value_set@, tokens, acc);
            },
            ValueType::ReferenceList { ref_kind } => {
                lemma_references_add(env, ref_kind, tokens, acc);
            },
            ValueType::TokenList { tokens: specs } => {
                lemma_listed_adds(env, tokens, 0, specs@, 0, acc);
            },
            ValueType::Color => {
                lemma_axes_add_all(Axes::Color, key, tokens, acc);
            },
            ValueType::Coord2D => {
                lemma_axes_add_all(Axes::Coord2D, key, tokens, acc);
            },
            ValueType::Coord3D => {
                lemma_axes_add_all(Axes::Coord3D, key, tokens, acc);
            },
            _ => {
                lemma_element_adds(env, tokens, 0, ty, acc);
            },
        }
    }
    assert(value_findings(env, key, tokens, ty, acc) =~= acc + found(env, key, tokens, ty));
}

proof fn lemma_axes_add_all(
    axes: Axes,
    key: LeafView,
    tokens: Seq<LeafView>,
    acc: Seq<DiagnosticView>,
)
    ensures
        axes_findings(axes, key, tokens, acc) == acc + axes_findings(
            axes,
            key,
            tokens,
            Seq::empty(),
        ),
{
    let none = Seq::<DiagnosticView>::empty();
    let parts = all_parts(tokens);
    lemma_axes_add(axes, key, parts, 0, acc);
    let (own, ok) = required_axes_findings(axes, key, parts, 0, none);
    if ok && axes == Axes::Color {
        lemma_axis_adds(axes, "A"@, false, key, parts, 6, acc + own);
        lemma_axis_adds(axes, "A"@, false, key, parts, 6, own);
        let rest = axis_findings(axes, "A"@, false, key, parts, 6, none).0;
        assert(acc + own + rest =~= acc + (own + rest));
    }
}

// ---------------------------------------------------------------------------
// Parts between colons
// ---------------------------------------------------------------------------
/// A text that is not empty and holds no colon.
pub open spec fn is_part(text: Seq<char>) -> bool {
    text.len() > 0 && !text.contains(':')
}

proof fn lemma_one_part(text: Seq<char>)
    requires
        is_part(text),
    ensures
        colon_parts(text) == seq![text],
    decreases text.len(),
{
    assert(text.contains(text[text.len() - 1]));
    let rest = text.drop_last();
    if text.len() == 1 {
        reveal_with_fuel(colon_parts, 2);
        assert(rest =~= Seq::<char>::empty());
        assert(text =~= seq![text.last()]);
        assert(colon_parts(text) =~= seq![text]);
    } else {
        assert(text.contains(text[text.len() - 2]));
        assert(!rest.contains(':')) by {
            if rest.contains(':') {
                let i = choose|i: int| 0 <= i < rest.len() && rest[i] == ':';
                assert(text[i] == ':');
            }
        }
        lemma_one_part(rest);
        assert(rest.push(text.last()) =~= text);
        assert(colon_parts(text) =~= seq![text]);
    }
}

proof fn lemma_two_parts(tag: Seq<char>, value: Seq<char>)
    requires
        is_part(tag),
        is_part(value),
    ensures
        colon_parts(tag + seq![':'] + value) == seq![tag, value],
    decreases value.len(),
{
    let text = tag + seq![':'] + value;
    assert(value.contains(value[value.len() - 1]));
    assert(text.last() == value.last());
    let rest = value.drop_last();
    if value.len() == 1 {
        let head = tag + seq![':'];
        assert(text.drop_last() =~= head);
        assert(head.drop_last() =~= tag);
        lemma_one_part(tag);
        reveal_with_fuel(colon_parts, 2);
        assert(colon_parts(head) == seq![tag]);
        assert(text[text.len() - 2] == ':');
        assert(value =~= seq![value.last()]);
        assert(colon_parts(text) =~= seq![tag, value]);
    } else {
        assert(!rest.contains(':')) by {
            if rest.contains(':') {
                let i = choose|i: int| 0 <= i < rest.len() && rest[i] == ':';
                assert(value[i] == ':');
            }
        }
        lemma_two_parts(tag, rest);
        assert(text.drop_last() =~= tag + seq![':'] + rest);
        assert(text[text.len() - 2] == value[value.len() - 2]);
        assert(value.contains(value[value.len() - 2]));
        assert(rest.push(value.last()) =~= value);
        assert(colon_parts(text) =~= seq![tag, value]);
    }
}

/// A token that is written `tag:value`.
pub open spec fn is_tagged(token: LeafView, tag: Seq<char>, value: Seq<char>) -> bool {
    is_part(tag) && is_part(value) && token.text == tag + seq![':'] + value
}

proof fn lemma_tagged(token: LeafView, tag: Seq<char>, value: Seq<char>)
    requires
        is_tagged(token, tag, value),
    ensures
        token_parts(token) == seq![
            PartView { text: tag, token },
            PartView { text: value, token },
        ],
{
    lemma_two_parts(tag, value);
    assert(token_parts(token) =~= seq![
        PartView { text: tag, token },
        PartView { text: value, token },
    ]);
}

proof fn lemma_tagged_parts(tokens: Seq<LeafView>, tags: Seq<Seq<char>>, values: Seq<Seq<char>>)
    requires
        tags.len() == tokens.len(),
        values.len() == tokens.len(),
        forall|i: int|
            0 <= i < tokens.len() ==> is_tagged(#[trigger] tokens[i], tags[i], values[i]),
    ensures
        all_parts(tokens).len() == 2 * tokens.len(),
        forall|i: int|
            #![trigger tokens[i]]
            0 <= i < tokens.len() ==> all_parts(tokens)[2 * i] == (PartView {
                text: tags[i],
                token: tokens[i],
            }) && all_parts(tokens)[2 * i + 1] == (PartView { text: values[i], token: tokens[i] }),
    decreases tokens.len(),
{
    if tokens.len() > 0 {
        let n = tokens.len() - 1;
        let rest = tokens.drop_last();
        assert forall|i: int| 0 <= i < rest.len() implies is_tagged(
            #[trigger] rest[i],
            tags.drop_last()[i],
            values.drop_last()[i],
        ) by {
            assert(is_tagged(tokens[i], tags[i], values[i]));
        }
        lemma_tagged_parts(rest, tags.drop_last(), values.drop_last());
        assert(is_tagged(tokens[n], tags[n], values[n]));
        lemma_tagged(tokens[n], tags[n], values[n]);
        assert forall|i: int|
            #![trigger tokens[i]]
            0 <= i < tokens.len() implies all_parts(tokens)[2 * i] == (PartView {
            text: tags[i],
            token: tokens[i],
        }) && all_parts(tokens)[2 * i + 1] == (PartView { text: values[i], token: tokens[i] }) by {
            if i < n {
                assert(rest[i] == tokens[i]);
            }
        }
    }
}

/// Law: a tag and its value are read alike whether they are written as one token,
/// `tag:value`, or as two, `tag:` and `value`.
pub proof fn colons_separate_tags_from_values(
    joined: LeafView,
    first: LeafView,
    second: LeafView,
    tag: Seq<char>,
    value: Seq<char>,
)
    requires
        is_tagged(joined, tag, value),
        first.text == tag + seq![':'],
        second.text == value,
    ensures
        all_parts(seq![joined]).len() == 2,
        all_parts(seq![first, second]).len() == 2,
        all_parts(seq![joined])[0].text == tag,
        all_parts(seq![joined])[1].text == value,
        all_parts(seq![first, second])[0].text == tag,
        all_parts(seq![first, second])[1].text == value,
{
    lemma_tagged(joined, tag, value);
    reveal_with_fuel(all_parts, 3);
    assert(seq![joined].drop_last() =~= Seq::<LeafView>::empty());
    assert(seq![first, second].drop_last() =~= seq![first]);
    assert(seq![first].drop_last() =~= Seq::<LeafView>::empty());
    lemma_one_part(tag);
    lemma_one_part(value);
    assert(first.text.drop_last() =~= tag);
    assert(colon_parts(first.text) == seq![tag]);
}

// ---------------------------------------------------------------------------
// How numbers are written
// ---------------------------------------------------------------------------
proof fn lemma_decimal_chars(n: nat)
    ensures
        is_part(decimal(n)),
        all_digits(decimal(n)),
        decimal(n)[0] != '+' && decimal(n)[0] != '-',
        !decimal(n).contains('"'),
        !decimal(n).contains('.'),
{
    lemma_decimal_reads_back(n);
    let s = decimal(n);
    assert(is_digit(s[0]));
    assert forall|c: char| s.contains(c) implies is_digit(c) by {
        let i = choose|i: int| 0 <= i < s.len() && s[i] == c;
        assert(is_digit(s[i]));
    }
}

/// Law: written in decimal digits, a number is read as itself, and is an integer of
/// a width exactly when it is in its range.
pub proof fn decimal_integers_are_read(n: nat)
    ensures
        i64_value(decimal(n)) == if n <= i64::MAX {
            Some(n as int)
        } else {
            None
        },
        is_u64(decimal(n)) <==> n <= u64::MAX,
        i64_value(seq!['-'] + decimal(n)) == if n <= 0x8000_0000_0000_0000 {
            Some(-(n as int))
        } else {
            None
        },
        !is_u64(seq!['-'] + decimal(n)),
{
    lemma_decimal_chars(n);
    lemma_decimal_reads_back(n);
    let minus = seq!['-'] + decimal(n);
    assert(minus.drop_first() =~= decimal(n));
    assert(minus[0] == '-');
    assert(!is_digit(minus[0]));
}

/// Law: a text with a character that is neither a digit nor a sign is no integer.
pub proof fn integers_hold_only_digits(s: Seq<char>, i: int)
    requires
        0 <= i < s.len(),
        !is_digit(s[i]),
        s[i] != '+' && s[i] != '-',
    ensures
        i64_value(s) is None,
        !is_u64(s),
{
    if s[0] == '+' || s[0] == '-' {
        assert(s.drop_first()[i - 1] == s[i]);
    }
}

proof fn lemma_digits_run(s: Seq<char>, i: int, e: int)
    requires
        0 <= i <= e <= s.len(),
        forall|k: int| i <= k < e ==> is_digit(#[trigger] s[k]),
        e < s.len() ==> !is_digit(s[e]),
    ensures
        digits_end(s, i) == e,
    decreases e - i,
{
    if i < e {
        assert(is_digit(s[i]));
        lemma_digits_run(s, i + 1, e);
    }
}

/// Law: decimal digits are a real number, with a point and more digits behind them or
/// without, and with a sign in front or without.
pub proof fn plain_numbers_are_real(n: nat, fraction: Seq<char>)
    requires
        all_digits(fraction),
    ensures
        is_real(decimal(n)),
        is_real(decimal(n) + seq!['.'] + fraction),
        is_real(seq!['-'] + decimal(n)),
        is_real(seq!['-'] + (decimal(n) + seq!['.'] + fraction)),
        is_real(seq!['+'] + decimal(n)),
{
    lemma_decimal_chars(n);
    let s = decimal(n);
    let t = s + seq!['.'] + fraction;
    assert forall|k: int| 0 <= k < s.len() implies is_digit(#[trigger] s[k]) by {}
    lemma_digits_run(s, 0, s.len() as int);
    assert(is_decimal(s));
    assert forall|k: int| 0 <= k < s.len() implies is_digit(#[trigger] t[k]) by {
        assert(t[k] == s[k]);
    }
    assert(t[s.len() as int] == '.');
    lemma_digits_run(t, 0, s.len() as int);
    assert forall|k: int| s.len() + 1 <= k < t.len() implies is_digit(#[trigger] t[k]) by {
        assert(t[k] == fraction[k - s.len() - 1]);
    }
    lemma_digits_run(t, s.len() as int + 1, t.len() as int);
    assert(is_decimal(t));
    assert(t[0] == s[0]);
    assert(unsigned(s) == s && unsigned(t) == t);
    assert((seq!['-'] + s).drop_first() =~= s);
    assert((seq!['+'] + s).drop_first() =~= s);
    assert((seq!['-'] + t).drop_first() =~= t);
}

/// Whether a character can stand in a number that is written with digits.
pub open spec fn in_numbers(c: char) -> bool {
    is_digit(c) || c == '+' || c == '-' || c == '.' || c == 'e' || c == 'E'
}

proof fn lemma_digits_stop(s: Seq<char>, i: int)
    requires
        0 <= i <= s.len(),
    ensures
        i <= digits_end(s, i) <= s.len(),
        forall|k: int| i <= k < digits_end(s, i) ==> is_digit(#[trigger] s[k]),
    decreases s.len() - i,
{
    if i < s.len() && is_digit(s[i]) {
        lemma_digits_stop(s, i + 1);
    }
}

/// Law: a text with a character that no number holds is no real number, unless it
/// spells infinity or no number.
pub proof fn reals_hold_only_numbers(s: Seq<char>, i: int)
    requires
        0 <= i < s.len(),
        !in_numbers(s[i]),
        !same_ignoring_case(unsigned(s), "inf"@),
        !same_ignoring_case(unsigned(s), "infinity"@),
        !same_ignoring_case(unsigned(s), "nan"@),
    ensures
        !is_real(s),
{
    let t = unsigned(s);
    let at = if s[0] == '+' || s[0] == '-' {
        i - 1
    } else {
        i
    };
    assert(t[at] == s[i]);
    if is_decimal(t) {
        lemma_digits_stop(t, 0);
        let a = digits_end(t, 0);
        let j = mantissa_end(t);
        if a < t.len() && t[a] == '.' {
            lemma_digits_stop(t, a + 1);
        }
        if at < j {
            assert(at < a || at == a || is_digit(t[at]));
            assert(in_numbers(t[at]));
        } else {
            let k = if j + 1 < t.len() && (t[j + 1] == '+' || t[j + 1] == '-') {
                j + 2
            } else {
                j + 1
            };
            lemma_digits_stop(t, k);
            assert(at < k || is_digit(t[at]));
        }
    }
}

/// Law: of numbers in decimal digits, zero and those with a minus sign are not
/// positive, and the others are.
pub proof fn signs_decide_positivity(n: nat)
    ensures
        is_non_positive(decimal(n)) <==> n == 0,
        is_non_positive(seq!['-'] + decimal(n)),
{
    lemma_decimal_chars(n);
    lemma_decimal_reads_back(n);
    let s = decimal(n);
    let none = Seq::<char>::empty();
    plain_numbers_are_real(n, none);
    assert forall|k: int| 0 <= k < s.len() implies is_digit(#[trigger] s[k]) by {}
    lemma_digits_run(s, 0, s.len() as int);
    assert(unsigned(s) == s);
    assert(s.take(s.len() as int) =~= s);
    assert(mantissa_digits(s) =~= s);
    assert(fraction_len(s) == 0);
    assert(exponent_of(s) == 0);
    assert(is_decimal(s));
    if n > 0 {
        vstd::arithmetic::power::lemma_pow_positive(2, 1075);
        lemma_half_is_large(n as int);
    }
    let m = seq!['-'] + s;
    assert(m.drop_first() =~= s);
    lemma_no_nan(s);
    assert(m[0] == '-');
}

proof fn lemma_half_is_large(n: int)
    requires
        n > 0,
    ensures
        n * vstd::arithmetic::power::pow(2, 1075) > vstd::arithmetic::power::pow(10, 0),
{
    vstd::arithmetic::power::lemma_pow0(10);
    vstd::arithmetic::power::lemma_pow_positive(2, 1074);
    vstd::arithmetic::power::lemma_pow_adds(2, 1, 1074);
    vstd::arithmetic::power::lemma_pow1(2);
    let p = vstd::arithmetic::power::pow(2, 1074);
    assert(n * (2 * p) > 1) by (nonlinear_arith)
        requires
            n > 0,
            p > 0,
    ;
}

proof fn lemma_no_nan(s: Seq<char>)
    requires
        s.len() > 0,
        is_digit(s[0]),
    ensures
        !same_ignoring_case(s, "nan"@),
{
    reveal_strlit("nan");
    if same_ignoring_case(s, "nan"@) {
        assert(lower(s)[0] == lower("nan"@)[0]);
        assert(lower_char(s[0]) == s[0]);
    }
}

// ---------------------------------------------------------------------------
// Colors and coordinates
// ---------------------------------------------------------------------------
proof fn lemma_axis_tag(tag: Seq<char>, axis: Seq<char>)
    requires
        same_ignoring_case(tag, axis),
        axis.len() == 1,
        'A' <= axis[0] <= 'Z',
    ensures
        is_part(tag),
{
    assert(lower(tag).len() == lower(axis).len());
    assert(lower(tag)[0] == lower(axis)[0]);
    assert(lower_char(':') == ':');
    if tag.contains(':') {
        let i = choose|i: int| 0 <= i < tag.len() && tag[i] == ':';
        assert(i == 0);
    }
}

/// Three tokens, tagged with the axes of a color in their order and in any case, with
/// these numbers.
pub open spec fn spells_color(tokens: Seq<LeafView>, tags: Seq<Seq<char>>, numbers: Seq<nat>) -> bool {
    &&& tokens.len() == 3
    &&& tags.len() == 3
    &&& numbers.len() == 3
    &&& same_ignoring_case(tags[0], "R"@)
    &&& same_ignoring_case(tags[1], "G"@)
    &&& same_ignoring_case(tags[2], "B"@)
    &&& forall|i: int|
        0 <= i < 3 ==> (#[trigger] tokens[i]).text == tags[i] + seq![':'] + decimal(numbers[i])
}

/// Law: a color of three numbers is accepted exactly when each number is at most 255,
/// and each larger one is found once, on its own token and in order.
pub proof fn colors_are_checked(
    env: EnvView,
    key: LeafView,
    tokens: Seq<LeafView>,
    tags: Seq<Seq<char>>,
    numbers: Seq<nat>,
)
    requires
        spells_color(tokens, tags, numbers),
    ensures
        ({
            let out = found(env, key, tokens, ValueType::Color);
            let (r, g, b) = (numbers[0] > 255, numbers[1] > 255, numbers[2] > 255);
            let count = |yes: bool|
                if yes {
                    1int
                } else {
                    0int
                };
            &&& out.len() == count(r) + count(g) + count(b)
            &&& r ==> is_on(out[0], tokens[0], Severity::Error, "bad-color"@)
            &&& g ==> is_on(out[count(r)], tokens[1], Severity::Error, "bad-color"@)
            &&& b ==> is_on(out[count(r) + count(g)], tokens[2], Severity::Error, "bad-color"@)
        }),
{
    reveal_strlit("R");
    reveal_strlit("G");
    reveal_strlit("B");
    lemma_axis_tag(tags[0], "R"@);
    lemma_axis_tag(tags[1], "G"@);
    lemma_axis_tag(tags[2], "B"@);
    let values = Seq::new(3, |i: int| decimal(numbers[i]));
    assert forall|i: int| 0 <= i < tokens.len() implies is_tagged(
        #[trigger] tokens[i],
        tags[i],
        values[i],
    ) by {
        lemma_decimal_chars(numbers[i]);
    }
    lemma_tagged_parts(tokens, tags, values);
    let parts = all_parts(tokens);
    assert(tokens[0] == tokens[0] && tokens[1] == tokens[1] && tokens[2] == tokens[2]);
    assert(parts[0].text == tags[0] && parts[1].text == decimal(numbers[0]));
    assert(parts[2].text == tags[1] && parts[3].text == decimal(numbers[1]));
    assert(parts[4].text == tags[2] && parts[5].text == decimal(numbers[2]));
    decimal_integers_are_read(numbers[0]);
    decimal_integers_are_read(numbers[1]);
    decimal_integers_are_read(numbers[2]);
    reveal_with_fuel(required_axes_findings, 4);
}

/// Law: a component of a color with a minus sign, or one that is no integer, is
/// found.
pub proof fn odd_components_are_found(
    env: EnvView,
    key: LeafView,
    tokens: Seq<LeafView>,
    tag: Seq<char>,
    value: Seq<char>,
)
    requires
        tokens.len() > 0,
        same_ignoring_case(tag, "R"@),
        is_part(value),
        tokens[0].text == tag + seq![':'] + value,
        i64_value(value) is None || i64_value(value)->0 < 0 || i64_value(value)->0 > 255,
    ensures
        found(env, key, tokens, ValueType::Color).len() > 0,
        is_on(
            found(env, key, tokens, ValueType::Color)[0],
            tokens[0],
            Severity::Error,
            "bad-color"@,
        ),
{
    reveal_strlit("R");
    lemma_axis_tag(tag, "R"@);
    lemma_tagged(tokens[0], tag, value);
    lemma_first_parts(tokens);
    let parts = all_parts(tokens);
    let none = Seq::<DiagnosticView>::empty();
    let (own, ok) = axis_findings(Axes::Color, "R"@, true, key, parts, 0, none);
    assert(own.len() == 1);
    lemma_axes_add(Axes::Color, key, parts, 1, own);
    let (all, _) = required_axes_findings(Axes::Color, key, parts, 0, none);
    assert(all[0] == own[0]);
    lemma_axis_adds(Axes::Color, "A"@, false, key, parts, 6, all);
}

proof fn lemma_first_parts(tokens: Seq<LeafView>)
    requires
        tokens.len() > 0,
    ensures
        all_parts(tokens).len() >= token_parts(tokens[0]).len(),
        forall|i: int|
            0 <= i < token_parts(tokens[0]).len() ==> #[trigger] all_parts(tokens)[i]
                == token_parts(tokens[0])[i],
    decreases tokens.len(),
{
    if tokens.len() == 1 {
        assert(all_parts(tokens.drop_last()) =~= Seq::<PartView>::empty());
    } else {
        assert(tokens.drop_last()[0] == tokens[0]);
        lemma_first_parts(tokens.drop_last());
    }
}

/// Law: a color or a coordinate whose first tag is another one is found on the tag.
pub proof fn wrong_tags_are_found(
    env: EnvView,
    key: LeafView,
    tokens: Seq<LeafView>,
    ty: ValueType,
    tag: Seq<char>,
    value: Seq<char>,
)
    requires
        ty is Color || ty is Coord2D || ty is Coord3D,
        tokens.len() > 0,
        is_tagged(tokens[0], tag, value),
        ty is Color ==> !same_ignoring_case(tag, "R"@),
        !(ty is Color) ==> !same_ignoring_case(tag, "X"@),
    ensures
        one_on(
            found(env, key, tokens, ty),
            tokens[0],
            Severity::Error,
            if ty is Color {
                "bad-color"@
            } else {
                "bad-coord"@
            },
        ),
{
    lemma_tagged(tokens[0], tag, value);
    lemma_first_parts(tokens);
    reveal_with_fuel(required_axes_findings, 2);
}

/// Two tokens tagged `X` and `Y`, in any case, with these values.
pub open spec fn spells_point(tokens: Seq<LeafView>, tags: Seq<Seq<char>>, values: Seq<Seq<char>>) -> bool {
    &&& 2 <= tokens.len() <= 3
    &&& tags.len() == tokens.len()
    &&& values.len() == tokens.len()
    &&& same_ignoring_case(tags[0], "X"@)
    &&& same_ignoring_case(tags[1], "Y"@)
    &&& tokens.len() == 3 ==> same_ignoring_case(tags[2], "Z"@)
    &&& forall|i: int|
        0 <= i < tokens.len() ==> (#[trigger] tokens[i]).text == tags[i] + seq![':'] + values[i]
            && is_part(values[i])
}

/// Law: a coordinate is accepted exactly when each of its two, or three, values is a
/// real number, and each other one is found once, on its own token and in order.
pub proof fn coordinates_are_checked(
    env: EnvView,
    key: LeafView,
    tokens: Seq<LeafView>,
    tags: Seq<Seq<char>>,
    values: Seq<Seq<char>>,
    ty: ValueType,
)
    requires
        spells_point(tokens, tags, values),
        ty is Coord2D && tokens.len() == 2 || ty is Coord3D && tokens.len() == 3,
    ensures
        ({
            let out = found(env, key, tokens, ty);
            let (x, y) = (!is_real(values[0]), !is_real(values[1]));
            let z = tokens.len() == 3 && !is_real(values[2]);
            let count = |yes: bool|
                if yes {
                    1int
                } else {
                    0int
                };
            &&& out.len() == count(x) + count(y) + count(z)
            &&& x ==> is_on(out[0], tokens[0], Severity::Error, "bad-coord"@)
            &&& y ==> is_on(out[count(x)], tokens[1], Severity::Error, "bad-coord"@)
            &&& z ==> is_on(out[count(x) + count(y)], tokens[2], Severity::Error, "bad-coord"@)
        }),
{
    reveal_strlit("X");
    reveal_strlit("Y");
    reveal_strlit("Z");
    lemma_axis_tag(tags[0], "X"@);
    lemma_axis_tag(tags[1], "Y"@);
    if tokens.len() == 3 {
        lemma_axis_tag(tags[2], "Z"@);
    }
    assert forall|i: int| 0 <= i < tokens.len() implies is_tagged(
        #[trigger] tokens[i],
        tags[i],
        values[i],
    ) by {}
    lemma_tagged_parts(tokens, tags, values);
    let parts = all_parts(tokens);
    assert(tokens[0] == tokens[0] && tokens[1] == tokens[1]);
    assert(parts[0].text == tags[0] && parts[1].text == values[0]);
    assert(parts[2].text == tags[1] && parts[3].text == values[1]);
    if tokens.len() == 3 {
        assert(tokens[2] == tokens[2]);
        assert(parts[4].text == tags[2] && parts[5].text == values[2]);
    }
    reveal_with_fuel(required_axes_findings, 4);
}

// ---------------------------------------------------------------------------
// Single values
// ---------------------------------------------------------------------------
/// Law: a yes-or-no value is accepted exactly when it is one of these words, in any
/// case.
pub proof fn bools_are_yes_or_no(env: EnvView, key: LeafView, token: LeafView)
    requires
        !token.text.contains('"'),
    ensures
        ({
            let out = found(env, key, seq![token], ValueType::Bool);
            if same_ignoring_case(token.text, "Yes"@) || same_ignoring_case(token.text, "NO"@) {
                out.len() == 0
            } else {
                one_on(out, token, Severity::Error, "bad-bool"@)
            }
        }),
{
    reveal_strlit("Yes");
    reveal_strlit("NO");
    reveal_strlit("yes");
    reveal_strlit("no");
    if token.text.len() > 0 {
        assert(token.text.contains(token.text[0]));
    }
    assert(unquoted(token.text) == token.text);
    assert(lower("Yes"@) =~= "yes"@);
    assert(lower("NO"@) =~= "no"@);
}

/// Law: an integer in decimal digits is accepted exactly when it fits in 64 bits, and
/// one with a minus sign where the type has a sign; anything else is found.
pub proof fn integers_are_checked(env: EnvView, key: LeafView, token: LeafView, n: nat)
    ensures
        token.text == decimal(n) ==> {
            let (signed, unsigned) = (
                found(env, key, seq![token], ValueType::Int),
                found(env, key, seq![token], ValueType::UInt),
            );
            &&& if n <= i64::MAX {
                signed.len() == 0
            } else {
                one_on(signed, token, Severity::Error, "bad-number"@)
            }
            &&& if n <= u64::MAX {
                unsigned.len() == 0
            } else {
                one_on(unsigned, token, Severity::Error, "bad-number"@)
            }
        },
        token.text == seq!['-'] + decimal(n) ==> {
            let (signed, unsigned) = (
                found(env, key, seq![token], ValueType::Int),
                found(env, key, seq![token], ValueType::UInt),
            );
            &&& if n <= 0x8000_0000_0000_0000 {
                signed.len() == 0
            } else {
                one_on(signed, token, Severity::Error, "bad-number"@)
            }
            &&& one_on(unsigned, token, Severity::Error, "bad-number"@)
        },
{
    decimal_integers_are_read(n);
}

/// Law: a value with a letter in it is no integer, and is found as one once.
pub proof fn words_are_no_integers(env: EnvView, key: LeafView, token: LeafView, i: int)
    requires
        0 <= i < token.text.len(),
        !is_digit(token.text[i]),
        token.text[i] != '+' && token.text[i] != '-',
    ensures
        one_on(
            found(env, key, seq![token], ValueType::Int),
            token,
            Severity::Error,
            "bad-number"@,
        ),
        one_on(
            found(env, key, seq![token], ValueType::UInt),
            token,
            Severity::Error,
            "bad-number"@,
        ),
{
    integers_hold_only_digits(token.text, i);
}

/// Types whose value is one real number of any sign.
pub open spec fn is_measure(ty: ValueType) -> bool {
    ty is Real || ty is AngleReal || ty is Velocity || ty is Acceleration || ty is Duration
}

/// Law: a measure is accepted exactly when it is a real number.
pub proof fn measures_are_real(env: EnvView, key: LeafView, token: LeafView, ty: ValueType)
    requires
        is_measure(ty),
    ensures
        ({
            let out = found(env, key, seq![token], ty);
            if is_real(token.text) {
                out.len() == 0
            } else {
                one_on(out, token, Severity::Error, "bad-number"@)
            }
        }),
{
}

/// Law: a positive number in decimal digits is accepted where a positive one is
/// asked for; zero and numbers with a minus sign are warned about.
pub proof fn positive_reals_are_positive(env: EnvView, key: LeafView, token: LeafView, n: nat)
    requires
        token.text == decimal(n) || token.text == seq!['-'] + decimal(n),
    ensures
        ({
            let out = found(env, key, seq![token], ValueType::PositiveReal);
            if token.text == decimal(n) && n > 0 {
                out.len() == 0
            } else {
                one_on(out, token, Severity::Warning, "non-positive"@)
            }
        }),
{
    signs_decide_positivity(n);
    plain_numbers_are_real(n, Seq::empty());
    lemma_decimal_chars(n);
    if n > 0 && token.text == seq!['-'] + decimal(n) {
        assert((seq!['-'] + decimal(n))[0] == '-');
        assert(decimal(n)[0] != '-');
        assert(token.text != decimal(n));
    }
}

/// Law: a percentage is accepted exactly when it is a real number with a `%` behind
/// it.
pub proof fn percentages_end_in_a_sign(
    env: EnvView,
    key: LeafView,
    token: LeafView,
    number: Seq<char>,
)
    ensures
        token.text == number + seq!['%'] ==> {
            let out = found(env, key, seq![token], ValueType::Percent);
            if is_real(number) {
                out.len() == 0
            } else {
                one_on(out, token, Severity::Error, "bad-percent"@)
            }
        },
        token.text.len() == 0 || token.text[token.text.len() - 1] != '%' ==> one_on(
            found(env, key, seq![token], ValueType::Percent),
            token,
            Severity::Error,
            "bad-percent"@,
        ),
{
    if token.text == number + seq!['%'] {
        assert(token.text.drop_last() =~= number);
    }
}

/// Entry `s` is the value set that counts for its id: the last of that id.
pub open spec fn counts_set(sets: Seq<ValueSet>, s: int) -> bool {
    &&& 0 <= s < sets.len()
    &&& forall|c: int| s < c < sets.len() ==> (#[trigger] sets[c]).id@ != sets[s].id@
}

/// Law: the value set of an id is the last entry with that id.
pub proof fn last_value_set_counts(sets: Seq<ValueSet>, s: int)
    requires
        counts_set(sets, s),
    ensures
        value_set_named(sets, sets[s].id@) == Some(sets[s]),
    decreases sets.len(),
{
    if s < sets.len() - 1 {
        let rest = sets.drop_last();
        assert(rest[s] == sets[s]);
        assert forall|c: int| s < c < rest.len() implies (#[trigger] rest[c]).id@
            != rest[s].id@ by {
            assert(sets[c].id@ != sets[s].id@);
        }
        last_value_set_counts(rest, s);
        assert(sets[sets.len() - 1].id@ != sets[s].id@);
    }
}

/// A value set names a member in some case.
pub open spec fn offers(set: ValueSet, text: Seq<char>) -> bool {
    exists|m: int|
        0 <= m < set.members@.len() && lower((#[trigger] set.members@[m]).name@) == lower(text)
}

/// Law: a member of a set is accepted, in any case, and any other word is found, as
/// long as the set has members at all.
pub proof fn members_are_checked(
    env: EnvView,
    key: LeafView,
    token: LeafView,
    value_set: String,
    s: int,
)
    requires
        counts_set(env.schema.value_sets@, s),
        env.schema.value_sets@[s].id@ == value_set@,
        env.schema.value_sets@[s].members@.len() > 0,
    ensures
        ({
            let out = found(env, key, seq![token], ValueType::Enum { value_set });
            if offers(env.schema.value_sets@[s], token.text) {
                out.len() == 0
            } else {
                one_on(out, token, Severity::Error, "bad-enum"@)
            }
        }),
{
    last_value_set_counts(env.schema.value_sets@, s);
    lemma_offers(env.schema.value_sets@[s], token.text);
}

proof fn lemma_offers(set: ValueSet, text: Seq<char>)
    ensures
        offers(set, text) == has_member(set.members@, text),
{
    if offers(set, text) {
        let m = choose|m: int|
            0 <= m < set.members@.len() && lower((#[trigger] set.members@[m]).name@) == lower(text);
        assert(same_ignoring_case(set.members@[m].name@, text));
    }
    if has_member(set.members@, text) {
        let m = choose|m: int|
            0 <= m < set.members@.len() && same_ignoring_case(
                #[trigger] set.members@[m].name@,
                text,
            );
        assert(lower(set.members@[m].name@) == lower(text));
    }
}

/// A flag with at most one sign in front.
pub open spec fn is_flag(text: Seq<char>, name: Seq<char>) -> bool {
    &&& name.len() > 0 && name[0] != '+' && name[0] != '-'
    &&& text == name || text == seq!['+'] + name || text == seq!['-'] + name
}

proof fn lemma_flag(text: Seq<char>, name: Seq<char>)
    requires
        is_flag(text, name),
    ensures
        unsigned_flag(text, true) == name,
{
    reveal_with_fuel(unsigned_flag, 3);
    if text == seq!['+'] + name || text == seq!['-'] + name {
        assert(text.drop_first() =~= name);
    }
}

/// Whether a flag is accepted: `NONE`, `ALL` and the members of the set are, in any
/// case.
pub open spec fn accepts_flag(set: ValueSet, name: Seq<char>) -> bool {
    lower(name) == lower("None"@) || lower(name) == lower("All"@) || offers(set, name)
}

/// Law: of a list of flags, each with a sign in front or none, exactly those are found
/// that are no members of the set; each once, and in order.
pub proof fn flags_are_checked(
    env: EnvView,
    key: LeafView,
    tokens: Seq<LeafView>,
    names: Seq<Seq<char>>,
    value_set: String,
    s: int,
)
    requires
        counts_set(env.schema.value_sets@, s),
        env.schema.value_sets@[s].id@ == value_set@,
        env.schema.value_sets@[s].members@.len() > 0,
        tokens.len() > 0,
        names.len() == tokens.len(),
        forall|i: int| 0 <= i < tokens.len() ==> is_flag((#[trigger] tokens[i]).text, names[i]),
    ensures
        picks(
            found(env, key, tokens, ValueType::BitFlags { value_set }),
            tokens,
            |i: int| !accepts_flag(env.schema.value_sets@[s], names[i]),
            Severity::Error,
            "bad-flag"@,
        ),
{
    last_value_set_counts(env.schema.value_sets@, s);
    lemma_flags(env.schema, value_set@, tokens, names, s);
}

/// The findings are those on the tokens that are picked: one on each, in order, and
/// no others.
pub open spec fn picks(
    findings: Seq<DiagnosticView>,
    tokens: Seq<LeafView>,
    picked: spec_fn(int) -> bool,
    severity: Severity,
    code: Seq<char>,
) -> bool
    decreases tokens.len(),
{
    if tokens.len() == 0 {
        findings.len() == 0
    } else if picked(tokens.len() - 1) {
        &&& findings.len() > 0
        &&& is_on(findings.last(), tokens.last(), severity, code)
        &&& picks(findings.drop_last(), tokens.drop_last(), picked, severity, code)
    } else {
        picks(findings, tokens.drop_last(), picked, severity, code)
    }
}

proof fn lemma_flags(
    schema: Schema,
    set: Seq<char>,
    tokens: Seq<LeafView>,
    names: Seq<Seq<char>>,
    s: int,
)
    requires
        0 <= s < schema.value_sets@.len(),
        value_set_named(schema.value_sets@, set) == Some(schema.value_sets@[s]),
        schema.value_sets@[s].members@.len() > 0,
        names.len() >= tokens.len(),
        forall|i: int| 0 <= i < tokens.len() ==> is_flag((#[trigger] tokens[i]).text, names[i]),
    ensures
        picks(
            flags_findings(schema, set, tokens, Seq::empty()),
            tokens,
            |i: int| !accepts_flag(schema.value_sets@[s], names[i]),
            Severity::Error,
            "bad-flag"@,
        ),
    decreases tokens.len(),
{
    if tokens.len() > 0 {
        let rest = tokens.drop_last();
        assert forall|i: int| 0 <= i < rest.len() implies is_flag(
            (#[trigger] rest[i]).text,
            names[i],
        ) by {
            assert(is_flag(tokens[i].text, names[i]));
        }
        lemma_flags(schema, set, rest, names, s);
        let n = tokens.len() - 1;
        assert(is_flag(tokens[n].text, names[n]));
        lemma_flag(tokens[n].text, names[n]);
        lemma_offers(schema.value_sets@[s], names[n]);
        reveal_strlit("None");
        reveal_strlit("NONE");
        reveal_strlit("All");
        reveal_strlit("ALL");
        assert(lower("None"@) =~= lower("NONE"@));
        assert(lower("All"@) =~= lower("ALL"@));
        let before = flags_findings(schema, set, rest, Seq::empty());
        let all = flags_findings(schema, set, tokens, Seq::empty());
        if !accepts_flag(schema.value_sets@[s], names[n]) {
            assert(all.drop_last() =~= before);
        }
    }
}

/// Whether a name needs no definition: it is empty or `None`, it is `NoSound` where a
/// sound is asked for, or the engine has it.
pub open spec fn needs_no_definition(schema: Schema, kind: RefKind, name: Seq<char>) -> bool {
    ||| name.len() == 0
    ||| lower(name) == lower("NONE"@)
    ||| kind == RefKind::AudioEvent && lower(name) == lower("nosound"@)
    ||| exists|i: int|
        0 <= i < schema.builtins@.len() && (#[trigger] schema.builtins@[i]).ref_kind == kind
            && lower(schema.builtins@[i].name@) == lower(name)
}

proof fn lemma_needs(schema: Schema, kind: RefKind, name: Seq<char>)
    ensures
        needs_no_definition(schema, kind, name) == null_reference(schema, kind, name),
{
    reveal_strlit("NONE");
    reveal_strlit("None");
    reveal_strlit("nosound");
    reveal_strlit("NoSound");
    assert(lower("NONE"@) =~= lower("None"@));
    assert(lower("nosound"@) =~= lower("NoSound"@));
    if exists|i: int|
        0 <= i < schema.builtins@.len() && (#[trigger] schema.builtins@[i]).ref_kind == kind
            && lower(schema.builtins@[i].name@) == lower(name) {
        let i = choose|i: int|
            0 <= i < schema.builtins@.len() && (#[trigger] schema.builtins@[i]).ref_kind == kind
                && lower(schema.builtins@[i].name@) == lower(name);
        assert(has_builtin(schema.builtins@, kind, name));
    }
    if has_builtin(schema.builtins@, kind, name) {
        let builtins = schema.builtins@;
        let i = choose|i: int|
            #![trigger builtins[i]]
            0 <= i < builtins.len() && builtins[i].ref_kind == kind && same_ignoring_case(
                builtins[i].name@,
                name,
            );
        assert(schema.builtins@[i].ref_kind == kind);
    }
}

/// Law: with an index, a reference is found exactly when nothing defines its name, in
/// any case, as a definition of its kind, and it needs a definition; without an index
/// none is. Of a list of references each is checked so, on its own token.
pub proof fn references_are_checked(
    env: EnvView,
    key: LeafView,
    tokens: Seq<LeafView>,
    ref_kind: RefKind,
)
    requires
        tokens.len() > 0,
        forall|i: int| 0 <= i < tokens.len() ==> !(#[trigger] tokens[i]).text.contains('"'),
    ensures
        ({
            let missing = |i: int|
                env.names is Some && !needs_no_definition(env.schema, ref_kind, tokens[i].text)
                    && !env.names->0.contains((ref_kind, lower(tokens[i].text)));
            &&& picks(
                found(env, key, tokens, ValueType::ReferenceList { ref_kind }),
                tokens,
                missing,
                Severity::Warning,
                "unresolved-reference"@,
            )
            &&& if missing(0) {
                one_on(
                    found(env, key, tokens, ValueType::Reference { ref_kind }),
                    tokens[0],
                    Severity::Warning,
                    "unresolved-reference"@,
                )
            } else {
                found(env, key, tokens, ValueType::Reference { ref_kind }).len() == 0
            }
        }),
{
    let all = tokens;
    lemma_references(env, ref_kind, tokens, all);
    lemma_needs(env.schema, ref_kind, tokens[0].text);
    lemma_bare(tokens[0]);
    assert(!tokens[0].text.contains('"'));
}

proof fn lemma_bare(token: LeafView)
    requires
        !token.text.contains('"'),
    ensures
        unquoted(token.text) == token.text,
{
    if token.text.len() > 0 {
        assert(token.text.contains(token.text[0]));
    }
}

proof fn lemma_references(
    env: EnvView,
    kind: RefKind,
    tokens: Seq<LeafView>,
    all: Seq<LeafView>,
)
    requires
        tokens.len() <= all.len(),
        forall|i: int|
            0 <= i < tokens.len() ==> (#[trigger] tokens[i]) == all[i]
                && !tokens[i].text.contains('"'),
    ensures
        picks(
            references_findings(env, kind, tokens, Seq::empty()),
            tokens,
            |i: int|
                env.names is Some && !needs_no_definition(env.schema, kind, all[i].text)
                    && !env.names->0.contains((kind, lower(all[i].text))),
            Severity::Warning,
            "unresolved-reference"@,
        ),
    decreases tokens.len(),
{
    if tokens.len() > 0 {
        let rest = tokens.drop_last();
        let n = tokens.len() - 1;
        assert forall|i: int| 0 <= i < rest.len() implies (#[trigger] rest[i]) == all[i]
            && !rest[i].text.contains('"') by {
            assert(tokens[i] == rest[i]);
        }
        lemma_references(env, kind, rest, all);
        assert(tokens[n] == all[n]);
        lemma_bare(tokens[n]);
        lemma_needs(env.schema, kind, tokens[n].text);
        let before = references_findings(env, kind, rest, Seq::empty());
        let now = references_findings(env, kind, tokens, Seq::empty());
        if now.len() > before.len() {
            assert(now.drop_last() =~= before);
        }
    }
}

/// Law: a field without a value is found, unless it may be empty.
pub proof fn missing_values_are_found(env: EnvView, key: LeafView, ty: ValueType)
    ensures
        if ty is Unknown || ty is AsciiStringList {
            found(env, key, Seq::empty(), ty).len() == 0
        } else {
            one_on(
                found(env, key, Seq::empty(), ty),
                key,
                Severity::Warning,
                "missing-value"@,
            )
        },
{
}

/// Law: of a sequence of types without tagged values, each value is checked against
/// its own type, in order; where values are missing, that is found once, on the key.
pub proof fn sequences_are_checked(
    env: EnvView,
    key: LeafView,
    tokens: Seq<LeafView>,
    specs: Vec<ValueType>,
)
    requires
        tokens.len() > 0,
        forall|k: int| 0 <= k < specs@.len() ==> !((#[trigger] specs@[k]) is Prefixed),
    ensures
        ({
            let out = found(env, key, tokens, ValueType::TokenList { tokens: specs });
            let n = if specs@.len() <= tokens.len() {
                specs@.len()
            } else {
                tokens.len()
            };
            let values = joined_findings(env, tokens, specs@, n);
            &&& specs@.len() <= tokens.len() ==> out == values
            &&& specs@.len() > tokens.len() ==> out.len() == values.len() + 1 && is_on(
                out.last(),
                key,
                Severity::Warning,
                "missing-value"@,
            ) && out.drop_last() == values
        }),
{
    let n = if specs@.len() <= tokens.len() {
        specs@.len()
    } else {
        tokens.len()
    };
    lemma_sequence(env, tokens, specs@, n, 0);
    let none = Seq::<DiagnosticView>::empty();
    assert(joined_findings(env, tokens, specs@, 0) =~= none);
    let out = found(env, key, tokens, ValueType::TokenList { tokens: specs });
    if specs@.len() > tokens.len() {
        assert(out.drop_last() =~= joined_findings(env, tokens, specs@, n));
    }
}

/// What is found about the first `n` values, each by its own type.
pub open spec fn joined_findings(
    env: EnvView,
    tokens: Seq<LeafView>,
    specs: Seq<ValueType>,
    n: nat,
) -> Seq<DiagnosticView>
    decreases n,
{
    if n == 0 {
        Seq::empty()
    } else {
        joined_findings(env, tokens, specs, (n - 1) as nat) + token_findings(
            env,
            tokens[n - 1],
            specs[n - 1],
            Seq::empty(),
        )
    }
}

proof fn lemma_sequence(
    env: EnvView,
    tokens: Seq<LeafView>,
    specs: Seq<ValueType>,
    n: nat,
    k: nat,
)
    requires
        k <= n <= specs.len(),
        n <= tokens.len(),
        n == specs.len() || n == tokens.len(),
        forall|j: int| 0 <= j < specs.len() ==> !((#[trigger] specs[j]) is Prefixed),
    ensures
        listed_findings(
            env,
            tokens,
            k as int,
            specs,
            k as int,
            joined_findings(env, tokens, specs, k),
        ) == joined_findings(env, tokens, specs, n),
    decreases n - k,
{
    if k < n {
        assert(!(specs[k as int] is Prefixed));
        let acc = joined_findings(env, tokens, specs, k);
        lemma_token_adds(env, tokens[k as int], specs[k as int], acc);
        lemma_sequence(env, tokens, specs, n, k + 1);
    }
}

/// Law: a tagged value in one token is accepted exactly when the tag is the declared
/// one, in any case, and something stands behind the colon.
pub proof fn prefixes_are_checked(
    env: EnvView,
    key: LeafView,
    token: LeafView,
    prefix: String,
    value_type: Box<ValueType>,
    tag: Seq<char>,
    value: Seq<char>,
)
    requires
        !tag.contains(':'),
        !token.text.contains('"'),
    ensures
        token.text == tag + seq![':'] + value ==> {
            let out = found(
                env,
                key,
                seq![token],
                ValueType::Prefixed { prefix, value_type },
            );
            if same_ignoring_case(tag, prefix@) && value.len() > 0 {
                out.len() == 0
            } else {
                one_on(out, token, Severity::Error, "bad-prefixed"@)
            }
        },
        !token.text.contains(':') ==> one_on(
            found(env, key, seq![token], ValueType::Prefixed { prefix, value_type }),
            token,
            Severity::Error,
            "bad-prefixed"@,
        ),
{
    let text = token.text;
    assert(crate::text::quotes_trimmed(text) == text) by {
        if text.len() > 0 {
            assert(text.contains(text[0]));
            assert(text.contains(text[text.len() - 1]));
        }
    }
    if text == tag + seq![':'] + value {
        lemma_find(text, ':', tag.len() as int, 0);
        assert(text.take(tag.len() as int) =~= tag);
        assert(text.skip(tag.len() as int + 1) =~= value);
    }
    if !text.contains(':') {
        lemma_find(text, ':', text.len() as int, 0);
    }
}

proof fn lemma_find(s: Seq<char>, c: char, at: int, i: int)
    requires
        0 <= i <= at <= s.len(),
        forall|j: int| 0 <= j < at ==> s[j] != c,
        at < s.len() ==> s[at] == c,
    ensures
        crate::text::find_char(s, c, i) == at,
    decreases at - i,
{
    if i < at {
        lemma_find(s, c, at, i + 1);
    }
}

/// Law: names, strings, models and anything without a known type are accepted as
/// they are.
pub proof fn free_values_are_accepted(
    env: EnvView,
    key: LeafView,
    tokens: Seq<LeafView>,
    ty: ValueType,
)
    requires
        tokens.len() > 0,
        ty is AsciiString || ty is QuotedString || ty is AsciiStringList || ty is W3dModel
            || ty is W3dModelMember || ty is Unknown,
    ensures
        found(env, key, tokens, ty).len() == 0,
{
}

} // verus!
