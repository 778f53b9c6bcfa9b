//! Numeric literals: which texts are integers and reals, and how integers are
//! written.

use vstd::arithmetic::power::{lemma_pow_adds, lemma_pow_positive, pow};
use vstd::prelude::*;
use vstd::string::*;

use crate::text::{chars_of, lower, same_ignoring_case};

verus! {

pub open spec fn is_digit(c: char) -> bool {
    '0' <= c && c <= '9'
}

pub open spec fn digit_value(c: char) -> int {
    c as int - '0' as int
}

pub open spec fn all_digits(s: Seq<char>) -> bool {
    forall|i: int| 0 <= i < s.len() ==> is_digit(#[trigger] s[i])
}

/// The number that a sequence of decimal digits denotes.
pub open spec fn digits_value(s: Seq<char>) -> int
    decreases s.len(),
{
    if s.len() == 0 {
        0
    } else {
        digits_value(s.drop_last()) * 10 + digit_value(s.last())
    }
}

/// The number that an optionally signed, non-empty digit sequence denotes.
/// `minus` is whether a `-` sign is allowed.
pub open spec fn integer_value(s: Seq<char>, minus: bool) -> Option<int> {
    let signed = s.len() > 0 && (s[0] == '+' || (minus && s[0] == '-'));
    let digits = if signed {
        s.drop_first()
    } else {
        s
    };
    if digits.len() == 0 || !all_digits(digits) {
        None
    } else if signed && s[0] == '-' {
        Some(-digits_value(digits))
    } else {
        Some(digits_value(digits))
    }
}

/// The value of a signed 64-bit integer literal.
pub open spec fn i64_value(s: Seq<char>) -> Option<int> {
    match integer_value(s, true) {
        Some(n) => if i64::MIN <= n <= i64::MAX {
            Some(n)
        } else {
            None
        },
        None => None,
    }
}

/// Whether a text is an unsigned 64-bit integer literal.
pub open spec fn is_u64(s: Seq<char>) -> bool {
    match integer_value(s, false) {
        Some(n) => n <= u64::MAX,
        None => false,
    }
}

/// The value of an unsigned 32-bit integer literal.
pub open spec fn u32_value(s: Seq<char>) -> Option<int> {
    match integer_value(s, false) {
        Some(n) => if n <= u32::MAX {
            Some(n)
        } else {
            None
        },
        None => None,
    }
}

/// The end of the run of digits that starts at `i`.
pub open spec fn digits_end(s: Seq<char>, i: int) -> int
    decreases s.len() - i,
{
    if 0 <= i < s.len() && is_digit(s[i]) {
        digits_end(s, i + 1)
    } else {
        i
    }
}

/// The end of the mantissa of a decimal number: digits with an optional point.
pub open spec fn mantissa_end(s: Seq<char>) -> int {
    let i = digits_end(s, 0);
    if i < s.len() && s[i] == '.' {
        digits_end(s, i + 1)
    } else {
        i
    }
}

/// Whether the mantissa holds a digit.
pub open spec fn mantissa_ok(s: Seq<char>) -> bool {
    let i = digits_end(s, 0);
    i > 0 || (i < s.len() && s[i] == '.' && digits_end(s, i + 1) > i + 1)
}

/// Whether the text from `j` on is an exponent: `e`, an optional sign, digits.
pub open spec fn is_exponent(s: Seq<char>, j: int) -> bool {
    let k = if j + 1 < s.len() && (s[j + 1] == '+' || s[j + 1] == '-') {
        j + 2
    } else {
        j + 1
    };
    j < s.len() && (s[j] == 'e' || s[j] == 'E') && k < s.len() && digits_end(s, k) == s.len()
}

/// An unsigned decimal number: digits with an optional point and exponent.
pub open spec fn is_decimal(s: Seq<char>) -> bool {
    let j = mantissa_end(s);
    mantissa_ok(s) && (j == s.len() || is_exponent(s, j))
}

/// A number without its sign.
pub open spec fn unsigned(s: Seq<char>) -> Seq<char> {
    if s.len() > 0 && (s[0] == '+' || s[0] == '-') {
        s.drop_first()
    } else {
        s
    }
}

/// Whether a text is a real number: an optional sign, then a decimal number,
/// `inf`, `infinity` or `nan` in any case.
pub open spec fn is_real(s: Seq<char>) -> bool {
    let t = unsigned(s);
    is_decimal(t) || same_ignoring_case(t, "inf"@) || same_ignoring_case(t, "infinity"@)
        || same_ignoring_case(t, "nan"@)
}

/// The digits of the mantissa, without its point.
pub open spec fn mantissa_digits(s: Seq<char>) -> Seq<char> {
    let i = digits_end(s, 0);
    if i < mantissa_end(s) {
        s.take(i) + s.subrange(i + 1, mantissa_end(s))
    } else {
        s.take(i)
    }
}

/// How many digits of the mantissa stand behind its point.
pub open spec fn fraction_len(s: Seq<char>) -> int {
    let i = digits_end(s, 0);
    if i < mantissa_end(s) {
        mantissa_end(s) - i - 1
    } else {
        0
    }
}

/// The exponent of a decimal number.
pub open spec fn exponent_of(s: Seq<char>) -> int {
    let j = mantissa_end(s);
    match integer_value(s.skip(j + 1), true) {
        Some(exponent) => if j < s.len() {
            exponent
        } else {
            0
        },
        None => 0,
    }
}

/// The power of two whose inverse is half the least number above zero that a
/// double-precision number can be.
pub const LEAST_HALF: u32 = 1075;

/// Whether the double-precision number that is closest to a decimal number is zero:
/// it is at most half the least number above zero.
pub open spec fn rounds_to_zero(s: Seq<char>) -> bool {
    let digits = digits_value(mantissa_digits(s));
    let scale = fraction_len(s) - exponent_of(s);
    digits == 0 || (scale >= 0 && digits * pow(2, LEAST_HALF as nat) <= pow(10, scale as nat))
}

/// Whether a real number is at most zero, read as a double-precision number.
pub open spec fn is_non_positive(s: Seq<char>) -> bool {
    let t = unsigned(s);
    is_real(s) && !same_ignoring_case(t, "nan"@) && (s[0] == '-' || (is_decimal(t)
        && rounds_to_zero(t)))
}

/// A non-negative number in decimal digits.
pub open spec fn decimal(n: nat) -> Seq<char>
    decreases n,
{
    if n < 10 {
        seq![(n + '0' as nat) as char]
    } else {
        decimal(n / 10).push((n % 10 + '0' as nat) as char)
    }
}

/// A number in decimal digits reads back.
pub proof fn lemma_decimal_reads_back(n: nat)
    ensures
        decimal(n).len() > 0,
        all_digits(decimal(n)),
        digits_value(decimal(n)) == n,
    decreases n,
{
    reveal_with_fuel(digits_value, 2);
    let s = decimal(n);
    if n < 10 {
        assert(s.drop_last() =~= Seq::<char>::empty());
        assert(s.last() == (n + '0' as nat) as char);
    } else {
        lemma_decimal_reads_back(n / 10);
        let rest = decimal(n / 10);
        assert(s.drop_last() =~= rest);
        assert forall|i: int| 0 <= i < s.len() implies is_digit(#[trigger] s[i]) by {
            if i < rest.len() {
                assert(is_digit(rest[i]));
            }
        }
    }
}

/// A number in decimal digits, with a `-` if it is negative.
pub open spec fn signed_decimal(n: int) -> Seq<char> {
    if n < 0 {
        seq!['-'] + decimal((-n) as nat)
    } else {
        decimal(n as nat)
    }
}

/// The digit `d`.
fn digit_char(d: u64) -> (c: char)
    requires
        d < 10,
    ensures
        c == (d + '0' as u64) as char,
{
    match d {
        0 => '0',
        1 => '1',
        2 => '2',
        3 => '3',
        4 => '4',
        5 => '5',
        6 => '6',
        7 => '7',
        8 => '8',
        _ => '9',
    }
}

/// `n` in decimal digits.
pub fn to_decimal(n: u128) -> (out: String)
    ensures
        out@ == decimal(n as nat),
    decreases n,
{
    let mut out = if n < 10 {
        String::new()
    } else {
        to_decimal(n / 10)
    };
    out.push(digit_char((n % 10) as u64));
    proof {
        if n < 10 {
            assert(out@ =~= decimal(n as nat));
        }
    }
    out
}

/// `n` in decimal digits, with a `-` if it is negative.
pub fn to_signed_decimal(n: i64) -> (out: String)
    ensures
        out@ == signed_decimal(n as int),
{
    if n < 0 {
        let mut out = String::new();
        out.push('-');
        let magnitude: i128 = -(n as i128);
        let digits = to_decimal(magnitude as u128);
        out.append(digits.as_str());
        proof {
            assert(out@ =~= seq!['-'] + decimal((-n) as nat));
        }
        out
    } else {
        to_decimal(n as u128)
    }
}

fn char_is_digit(c: char) -> (yes: bool)
    ensures
        yes == is_digit(c),
{
    '0' <= c && c <= '9'
}

pub proof fn lemma_digits_value_bounds(s: Seq<char>)
    requires
        all_digits(s),
    ensures
        digits_value(s) >= 0,
    decreases s.len(),
{
    if s.len() > 0 {
        assert(is_digit(s[s.len() - 1]));
        assert forall|i: int| 0 <= i < s.drop_last().len() implies is_digit(
            #[trigger] s.drop_last()[i],
        ) by {
            assert(is_digit(s[i]));
        }
        lemma_digits_value_bounds(s.drop_last());
    }
}

/// The value of the digits from `from` on, or `None` if there are none or one
/// is no digit. Values over `u64::MAX` are reported as such.
fn read_digits(chars: &Vec<char>, from: usize) -> (out: Option<u128>)
    requires
        from <= chars@.len(),
    ensures
        ({
            let digits = chars@.skip(from as int);
            match out {
                Some(n) => {
                    &&& digits.len() > 0
                    &&& all_digits(digits)
                    &&& digits_value(digits) <= u64::MAX ==> n == digits_value(digits)
                    &&& digits_value(digits) > u64::MAX ==> n > u64::MAX
                },
                None => digits.len() == 0 || !all_digits(digits),
            }
        }),
{
    let ghost digits = chars@.skip(from as int);
    if from == chars.len() {
        return None;
    }
    let mut value: u128 = 0;
    let mut i: usize = from;
    assert(digits.take(0) =~= Seq::<char>::empty());
    while i < chars.len()
        invariant
            from <= i <= chars@.len(),
            digits == chars@.skip(from as int),
            all_digits(digits.take(i - from)),
            digits_value(digits.take(i - from)) >= 0,
            digits_value(digits.take(i - from)) <= u64::MAX ==> value == digits_value(
                digits.take(i - from),
            ),
            digits_value(digits.take(i - from)) > u64::MAX ==> value == u64::MAX + 1,
            value <= u64::MAX + 1,
        decreases chars@.len() - i,
    {
        let c = chars[i];
        assert(digits[i - from] == c);
        if !char_is_digit(c) {
            assert(!all_digits(digits));
            return None;
        }
        let ghost before = digits.take(i - from);
        let ghost after = digits.take(i + 1 - from);
        proof {
            assert(after.drop_last() =~= before);
            assert forall|k: int| 0 <= k < after.len() implies is_digit(#[trigger] after[k]) by {
                if k < before.len() {
                    assert(is_digit(before[k]));
                }
            }
        }
        let d: u128 = (c as u32 - 48) as u128;
        let next: u128 = value * 10 + d;
        value =
        if next > u64::MAX as u128 {
            u64::MAX as u128 + 1
        } else {
            next
        };
        i += 1;
    }
    assert(digits.take(i - from) =~= digits);
    Some(value)
}

/// The value of a signed 64-bit integer literal.
pub fn parse_i64(s: &str) -> (out: Option<i64>)
    ensures
        match out {
            Some(n) => i64_value(s@) == Some(n as int),
            None => i64_value(s@) is None,
        },
{
    let chars = chars_of(s);
    let signed = chars.len() > 0 && (chars[0] == '+' || chars[0] == '-');
    let from: usize = if signed {
        1
    } else {
        0
    };
    proof {
        assert(chars@.skip(0) =~= chars@);
        if signed {
            assert(chars@.skip(1) =~= chars@.drop_first());
        }
    }
    match read_digits(&chars, from) {
        None => None,
        Some(n) => {
            proof {
                lemma_digits_value_bounds(chars@.skip(from as int));
            }
            if signed && chars[0] == '-' {
                if n <= 9223372036854775808 {
                    Some((-(n as i128)) as i64)
                } else {
                    None
                }
            } else if n <= i64::MAX as u128 {
                Some(n as i64)
            } else {
                None
            }
        },
    }
}

/// The value of an unsigned 32-bit integer literal.
pub fn parse_u32(s: &str) -> (out: Option<u32>)
    ensures
        match out {
            Some(n) => u32_value(s@) == Some(n as int),
            None => u32_value(s@) is None,
        },
{
    let chars = chars_of(s);
    let signed = chars.len() > 0 && chars[0] == '+';
    let from: usize = if signed {
        1
    } else {
        0
    };
    proof {
        assert(chars@.skip(0) =~= chars@);
        if signed {
            assert(chars@.skip(1) =~= chars@.drop_first());
        }
    }
    match read_digits(&chars, from) {
        None => None,
        Some(n) => {
            proof {
                lemma_digits_value_bounds(chars@.skip(from as int));
            }
            if n <= u32::MAX as u128 {
                Some(n as u32)
            } else {
                None
            }
        },
    }
}

/// Whether a text is an unsigned 64-bit integer literal.
pub fn parses_u64(s: &str) -> (yes: bool)
    ensures
        yes == is_u64(s@),
{
    let chars = chars_of(s);
    let signed = chars.len() > 0 && chars[0] == '+';
    let from: usize = if signed {
        1
    } else {
        0
    };
    proof {
        assert(chars@.skip(0) =~= chars@);
        if signed {
            assert(chars@.skip(1) =~= chars@.drop_first());
        }
    }
    match read_digits(&chars, from) {
        None => false,
        Some(n) => n <= u64::MAX as u128,
    }
}

fn scan_digits(chars: &Vec<char>, from: usize) -> (end: usize)
    requires
        from <= chars@.len(),
    ensures
        end == digits_end(chars@, from as int),
        from <= end <= chars@.len(),
{
    let mut i: usize = from;
    while i < chars.len() && char_is_digit(chars[i])
        invariant
            from <= i <= chars@.len(),
            digits_end(chars@, from as int) == digits_end(chars@, i as int),
        decreases chars@.len() - i,
    {
        i += 1;
    }
    i
}

/// The end of the mantissa and whether it holds a digit.
fn scan_mantissa(chars: &Vec<char>) -> (out: (usize, bool))
    ensures
        out.0 == mantissa_end(chars@),
        out.0 <= chars@.len(),
        out.1 == mantissa_ok(chars@),
{
    let i = scan_digits(chars, 0);
    if i < chars.len() && chars[i] == '.' {
        let j = scan_digits(chars, i + 1);
        (j, i > 0 || j > i + 1)
    } else {
        (i, i > 0)
    }
}

fn scan_decimal(chars: &Vec<char>) -> (yes: bool)
    ensures
        yes == is_decimal(chars@),
{
    let (j, ok) = scan_mantissa(chars);
    let n: usize = chars.len();
    if !ok {
        return false;
    }
    if j == n {
        return true;
    }
    if chars[j] != 'e' && chars[j] != 'E' {
        return false;
    }
    let k: usize = if j + 1 < n && (chars[j + 1] == '+' || chars[j + 1] == '-') {
        j + 2
    } else {
        j + 1
    };
    k < n && scan_digits(chars, k) == n
}

/// A number without its sign.
fn strip_sign(s: &str) -> (out: (Vec<char>, String))
    ensures
        out.0@ == unsigned(s@),
        out.1@ == unsigned(s@),
{
    let chars = chars_of(s);
    let mut rest: Vec<char> = Vec::new();
    let mut spelled = String::new();
    let mut i: usize = if chars.len() > 0 && (chars[0] == '+' || chars[0] == '-') {
        1
    } else {
        0
    };
    let ghost from = i as int;
    assert(chars@.skip(from) =~= unsigned(s@));
    assert(chars@.skip(from).take(0) =~= Seq::<char>::empty());
    while i < chars.len()
        invariant
            from <= i <= chars@.len(),
            0 <= from,
            rest@ == chars@.skip(from).take(i - from),
            spelled@ == chars@.skip(from).take(i - from),
        decreases chars@.len() - i,
    {
        rest.push(chars[i]);
        spelled.push(chars[i]);
        assert(chars@.skip(from).take(i + 1 - from) =~= chars@.skip(from).take(i - from).push(
            chars@[i as int],
        ));
        i += 1;
    }
    assert(chars@.skip(from).take(i - from) =~= chars@.skip(from));
    (rest, spelled)
}

/// Whether a text is a real number.
pub fn parses_real(s: &str) -> (yes: bool)
    ensures
        yes == is_real(s@),
{
    let (chars, spelled) = strip_sign(s);
    scan_decimal(&chars) || spelled.as_str().eq_ignore_ascii_case("inf")
        || spelled.as_str().eq_ignore_ascii_case("infinity")
        || spelled.as_str().eq_ignore_ascii_case("nan")
}

// ---------------------------------------------------------------------------
// Rounding to zero
// ---------------------------------------------------------------------------
/// The number that decimal digits denote, the lowest first.
spec fn low_value(s: Seq<u8>) -> int
    decreases s.len(),
{
    if s.len() == 0 {
        0
    } else {
        low_value(s.drop_last()) + s.last() * pow(10, (s.len() - 1) as nat)
    }
}

spec fn low_digits(s: Seq<u8>) -> bool {
    forall|i: int| 0 <= i < s.len() ==> #[trigger] s[i] < 10
}

proof fn lemma_ten(n: nat)
    ensures
        pow(10, n + 1) == 10 * pow(10, n),
        pow(10, n) > 0,
{
    reveal(pow);
    lemma_pow_positive(10, n);
}

proof fn lemma_ten_grows(m: nat, n: nat)
    requires
        m <= n,
    ensures
        0 < pow(10, m) <= pow(10, n),
        m < n ==> pow(10, m) < pow(10, n),
    decreases n - m,
{
    lemma_ten(m);
    if m < n {
        lemma_ten_grows(m + 1, n);
    }
}

proof fn lemma_low_bounds(s: Seq<u8>)
    requires
        low_digits(s),
    ensures
        0 <= low_value(s) < pow(10, s.len()),
        s.len() > 0 && s.last() > 0 ==> low_value(s) >= pow(10, (s.len() - 1) as nat),
        low_value(s) == 0 ==> forall|i: int| 0 <= i < s.len() ==> #[trigger] s[i] == 0,
    decreases s.len(),
{
    if s.len() == 0 {
        reveal(pow);
    } else {
        let rest = s.drop_last();
        assert forall|i: int| 0 <= i < rest.len() implies #[trigger] rest[i] < 10 by {
            assert(s[i] < 10);
        }
        lemma_low_bounds(rest);
        lemma_ten(rest.len());
        let top = pow(10, rest.len());
        let d = s.last() as int;
        assert(0 <= d < 10);
        assert(0 <= d * top <= 9 * top && (d > 0 ==> d * top >= top)) by (nonlinear_arith)
            requires
                0 <= d < 10,
                top > 0,
        ;
        if low_value(s) == 0 {
            assert forall|i: int| 0 <= i < s.len() implies #[trigger] s[i] == 0 by {
                if i < rest.len() {
                    assert(rest[i] == 0);
                }
            }
        }
    }
}

proof fn lemma_low_zeros(s: Seq<u8>)
    requires
        forall|i: int| 0 <= i < s.len() ==> #[trigger] s[i] == 0,
    ensures
        low_value(s) == 0,
    decreases s.len(),
{
    if s.len() > 0 {
        let rest = s.drop_last();
        assert forall|i: int| 0 <= i < rest.len() implies #[trigger] rest[i] == 0 by {
            assert(s[i] == 0);
        }
        lemma_low_zeros(rest);
        assert(s.last() == 0);
    }
}

/// The lowest digits of decimal digits, without the zeros in front.
fn low_digits_of(digits: &Vec<char>) -> (out: Vec<u8>)
    requires
        all_digits(digits@),
    ensures
        low_digits(out@),
        low_value(out@) == digits_value(digits@),
        out.len() > 0 ==> out@.last() > 0,
{
    let mut out: Vec<u8> = Vec::new();
    let mut i: usize = digits.len();
    proof {
        reveal(pow);
        assert(digits@.take(i as int) =~= digits@);
    }
    while i > 0
        invariant
            i <= digits.len(),
            all_digits(digits@),
            low_digits(out@),
            out.len() == digits.len() - i,
            digits_value(digits@) == digits_value(digits@.take(i as int)) * pow(
                10,
                out@.len(),
            ) + low_value(out@),
        decreases i,
    {
        let c = digits[i - 1];
        let d: u8 = (c as u32 - 48) as u8;
        let ghost before = out@;
        out.push(d);
        proof {
            assert(is_digit(c));
            assert(out@.drop_last() =~= before);
            assert(digits@.take(i as int).drop_last() =~= digits@.take(i - 1));
            lemma_ten(before.len());
            let rest = digits_value(digits@.take(i - 1));
            let top = pow(10, before.len());
            assert((rest * 10 + d) * top == rest * (10 * top) + d * top) by (nonlinear_arith);
        }
        i -= 1;
    }
    assert(digits@.take(0) =~= Seq::<char>::empty());
    while out.len() > 0 && out[out.len() - 1] == 0
        invariant
            low_digits(out@),
            low_value(out@) == digits_value(digits@),
        decreases out.len(),
    {
        let ghost before = out@;
        out.pop();
        assert(out@ =~= before.drop_last());
    }
    out
}

/// Twice a number.
fn doubled(digits: &Vec<u8>) -> (out: Vec<u8>)
    requires
        low_digits(digits@),
        digits.len() > 0,
        digits@.last() > 0,
    ensures
        low_digits(out@),
        low_value(out@) == 2 * low_value(digits@),
        out.len() > 0,
        out@.last() > 0,
{
    let mut out: Vec<u8> = Vec::new();
    let mut carry: u8 = 0;
    let mut i: usize = 0;
    assert(digits@.take(0) =~= Seq::<u8>::empty());
    while i < digits.len()
        invariant
            i <= digits.len(),
            low_digits(digits@),
            low_digits(out@),
            out.len() == i,
            carry <= 1,
            low_value(out@) + carry * pow(10, i as nat) == 2 * low_value(digits@.take(i as int)),
            i > 0 && digits@[i - 1] > 0 && carry == 0 ==> out@.last() > 0,
        decreases digits.len() - i,
    {
        let ghost before = out@;
        let ghost was = carry as int;
        let d = digits[i];
        let sum: u8 = 2 * d + carry;
        let low: u8 = if sum >= 10 {
            sum - 10
        } else {
            sum
        };
        carry = if sum >= 10 {
            1
        } else {
            0
        };
        out.push(low);
        proof {
            assert(out@.drop_last() =~= before);
            assert(digits@.take(i + 1).drop_last() =~= digits@.take(i as int));
            lemma_ten(i as nat);
            let top = pow(10, i as nat);
            assert(low * top + carry * (10 * top) == 2 * (d * top) + was * top)
                by (nonlinear_arith)
                requires
                    low + 10 * carry == 2 * d + was,
            ;
        }
        i += 1;
    }
    assert(digits@.take(i as int) =~= digits@);
    if carry > 0 {
        let ghost before = out@;
        out.push(carry);
        assert(out@.drop_last() =~= before);
    }
    out
}

/// Whether a number without zeros in front is at most a power of ten.
fn within_ten(digits: &Vec<u8>, scale: u128) -> (yes: bool)
    requires
        low_digits(digits@),
        digits.len() > 0,
        digits@.last() > 0,
    ensures
        yes == (low_value(digits@) <= pow(10, scale as nat)),
        scale > u64::MAX ==> yes,
{
    let len: usize = digits.len();
    let ghost top = pow(10, (len - 1) as nat);
    proof {
        lemma_low_bounds(digits@);
        lemma_ten((len - 1) as nat);
    }
    if len as u128 <= scale {
        proof {
            lemma_ten_grows(len as nat, scale as nat);
        }
        return true;
    }
    if len as u128 - 1 > scale {
        proof {
            lemma_ten_grows(scale as nat, (len - 1) as nat);
        }
        return false;
    }
    let ghost rest = digits@.drop_last();
    proof {
        assert forall|k: int| 0 <= k < rest.len() implies #[trigger] rest[k] < 10 by {
            assert(digits@[k] < 10);
        }
        lemma_low_bounds(rest);
        let d = digits@.last() as int;
        assert(d > 1 ==> d * top > top) by (nonlinear_arith)
            requires
                top > 0,
        ;
    }
    if digits[len - 1] != 1 {
        return false;
    }
    let mut i: usize = 0;
    while i < len - 1
        invariant
            i < len,
            len == digits.len(),
            len == scale + 1,
            rest == digits@.drop_last(),
            rest.len() == len - 1,
            forall|k: int| 0 <= k < i ==> #[trigger] rest[k] == 0,
            low_value(rest) == 0 ==> forall|k: int| 0 <= k < rest.len() ==> #[trigger] rest[k] == 0,
            low_value(rest) >= 0,
            low_value(digits@) == low_value(rest) + top,
            top == pow(10, scale as nat),
        decreases len - i,
    {
        if digits[i] != 0 {
            assert(rest[i as int] != 0);
            return false;
        }
        assert(rest[i as int] == 0);
        i += 1;
    }
    proof {
        lemma_low_zeros(rest);
    }
    true
}

proof fn lemma_thousand(n: nat)
    ensures
        0 < pow(10, 3 * n) <= pow(2, 10 * n),
    decreases n,
{
    reveal(pow);
    if n > 0 {
        let m = (n - 1) as nat;
        lemma_thousand(m);
        lemma_pow_adds(10, 3 * m, 3);
        lemma_pow_adds(2, 10 * m, 10);
        reveal_with_fuel(pow, 11);
        assert(pow(10, 3) == 1000);
        assert(pow(2, 10) == 1024);
        let (a, b) = (pow(10, 3 * m), pow(2, 10 * m));
        assert(0 < a * 1000 <= b * 1024) by (nonlinear_arith)
            requires
                0 < a <= b,
        ;
    }
}

/// Numbers that are not written with many digits behind the point, or a large
/// negative exponent, do not round to zero.
proof fn lemma_short_scale(digits: int, scale: nat)
    requires
        digits > 0,
        scale <= 321,
    ensures
        digits * pow(2, LEAST_HALF as nat) > pow(10, scale),
{
    lemma_thousand(107);
    lemma_pow_adds(2, 1070, 5);
    lemma_ten_grows(scale, 321);
    reveal_with_fuel(pow, 6);
    assert(pow(2, 5) == 32);
    let b = pow(2, 1070);
    assert(digits * (b * 32) >= b * 32 > b) by (nonlinear_arith)
        requires
            digits > 0,
            b > 0,
    ;
}

/// Whether digits, taken by a power of ten, round to zero.
fn digits_round_to_zero(digits: &Vec<char>, scale: u128) -> (yes: bool)
    requires
        all_digits(digits@),
    ensures
        yes == (digits_value(digits@) == 0 || digits_value(digits@) * pow(2, LEAST_HALF as nat)
            <= pow(10, scale as nat)),
        scale > u64::MAX ==> yes,
{
    let mut number = low_digits_of(digits);
    let ghost value = digits_value(digits@);
    proof {
        lemma_low_bounds(number@);
    }
    if number.len() == 0 {
        return true;
    }
    proof {
        lemma_ten((number.len() - 1) as nat);
    }
    if scale <= 321 {
        proof {
            lemma_short_scale(value, scale as nat);
        }
        return false;
    }
    let mut i: u32 = 0;
    proof {
        reveal(pow);
    }
    while i < LEAST_HALF
        invariant
            i <= LEAST_HALF,
            low_digits(number@),
            number.len() > 0,
            number@.last() > 0,
            low_value(number@) == value * pow(2, i as nat),
        decreases LEAST_HALF - i,
    {
        number = doubled(&number);
        proof {
            reveal(pow);
            let p = pow(2, i as nat);
            assert(2 * (value * p) == value * (2 * p)) by (nonlinear_arith);
        }
        i += 1;
    }
    within_ten(&number, scale)
}

/// Appends the characters `from..to`.
fn copied(chars: &Vec<char>, from: usize, to: usize, out: &mut Vec<char>)
    requires
        from <= to <= chars.len(),
    ensures
        final(out)@ == old(out)@ + chars@.subrange(from as int, to as int),
{
    let ghost before = out@;
    let mut i: usize = from;
    assert(before + chars@.subrange(from as int, from as int) =~= before);
    while i < to
        invariant
            from <= i <= to <= chars.len(),
            out@ == before + chars@.subrange(from as int, i as int),
        decreases to - i,
    {
        out.push(chars[i]);
        assert(out@ =~= before + chars@.subrange(from as int, i + 1));
        i += 1;
    }
}

proof fn lemma_digits_end(s: Seq<char>, i: int)
    requires
        0 <= i <= s.len(),
    ensures
        i <= digits_end(s, i) <= s.len(),
        forall|k: int| i <= k < digits_end(s, i) ==> is_digit(#[trigger] s[k]),
    decreases s.len() - i,
{
    if i < s.len() && is_digit(s[i]) {
        lemma_digits_end(s, i + 1);
    }
}

proof fn lemma_digits_cover(s: Seq<char>, i: int)
    requires
        0 <= i <= s.len(),
        digits_end(s, i) == s.len(),
    ensures
        all_digits(s.skip(i)),
{
    lemma_digits_end(s, i);
    assert forall|k: int| 0 <= k < s.skip(i).len() implies is_digit(#[trigger] s.skip(i)[k]) by {
        assert(is_digit(s[i + k]));
    }
}

/// Whether a decimal number rounds to zero.
fn decimal_rounds_to_zero(chars: &Vec<char>) -> (yes: bool)
    requires
        is_decimal(chars@),
    ensures
        yes == rounds_to_zero(chars@),
{
    let ghost s = chars@;
    let i = scan_digits(chars, 0);
    let (j, _) = scan_mantissa(chars);
    let mut digits: Vec<char> = Vec::new();
    copied(chars, 0, i, &mut digits);
    let mut fraction: usize = 0;
    proof {
        lemma_digits_end(s, 0);
        assert(s.subrange(0, i as int) =~= s.take(i as int));
        assert(digits@ =~= s.take(i as int));
        if i < s.len() && s[i as int] == '.' {
            lemma_digits_end(s, i + 1);
        }
    }
    if i < j {
        copied(chars, i + 1, j, &mut digits);
        fraction = j - i - 1;
    }
    assert(digits@ == mantissa_digits(s));
    assert(fraction == fraction_len(s));
    assert forall|k: int| 0 <= k < digits@.len() implies is_digit(#[trigger] digits@[k]) by {
        if k < i {
            assert(is_digit(s[k]));
        } else {
            assert(is_digit(s[k + 1]));
        }
    }
    let n: usize = chars.len();
    if j == n {
        return digits_round_to_zero(&digits, fraction as u128);
    }
    let signed = j + 1 < n && (chars[j + 1] == '+' || chars[j + 1] == '-');
    let negative = j + 1 < n && chars[j + 1] == '-';
    let k: usize = if signed {
        j + 2
    } else {
        j + 1
    };
    let ghost written = s.skip(j + 1);
    proof {
        lemma_digits_cover(s, k as int);
        if signed {
            assert(written.drop_first() =~= s.skip(k as int));
        } else {
            assert(is_digit(s.skip(k as int)[0]));
        }
        lemma_digits_value_bounds(s.skip(k as int));
        lemma_digits_value_bounds(digits@);
    }
    match read_digits(chars, k) {
        None => false,
        Some(value) => {
            let ghost exact = digits_value(s.skip(k as int));
            if negative {
                if value > u64::MAX as u128 {
                    let far: u128 = u64::MAX as u128 + 1;
                    proof {
                        lemma_ten_grows(far as nat, (fraction + exact) as nat);
                    }
                    return digits_round_to_zero(&digits, far);
                }
                digits_round_to_zero(&digits, fraction as u128 + value)
            } else if value > fraction as u128 {
                let number = low_digits_of(&digits);
                proof {
                    lemma_low_bounds(number@);
                    if number.len() > 0 {
                        lemma_ten((number.len() - 1) as nat);
                    }
                }
                number.len() == 0
            } else {
                digits_round_to_zero(&digits, fraction as u128 - value)
            }
        },
    }
}

/// Whether a text is a real number that is at most zero, read as a
/// double-precision number.
pub fn is_zero_or_less(s: &str) -> (yes: bool)
    ensures
        yes == is_non_positive(s@),
{
    let (chars, spelled) = strip_sign(s);
    if !parses_real(s) || spelled.as_str().eq_ignore_ascii_case("nan") {
        return false;
    }
    proof {
        lemma_nonempty_real(s@);
    }
    let all = chars_of(s);
    if all.len() > 0 && all[0] == '-' {
        return true;
    }
    scan_decimal(&chars) && decimal_rounds_to_zero(&chars)
}

proof fn lemma_nonempty_real(s: Seq<char>)
    requires
        is_real(s),
    ensures
        s.len() > 0,
{
    if s.len() == 0 {
        reveal_strlit("inf");
        reveal_strlit("infinity");
        reveal_strlit("nan");
        assert(lower("inf"@).len() == 3);
        assert(lower("infinity"@).len() == 8);
        assert(lower("nan"@).len() == 3);
        assert(lower(unsigned(s)).len() == 0);
        assert(digits_end(s, 0) == 0);
    }
}

} // verus!
