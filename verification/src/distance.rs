//! Edit distance between words, for did-you-mean suggestions.

use vstd::prelude::*;
use vstd::string::*;

use crate::text::{chars_of, upper, upper_char};

verus! {

pub open spec fn min2(a: nat, b: nat) -> nat {
    if a < b {
        a
    } else {
        b
    }
}

/// The Levenshtein distance: the least number of insertions, deletions and
/// replacements of single characters that turn `a` into `b`.
pub open spec fn levenshtein(a: Seq<char>, b: Seq<char>) -> nat
    decreases a.len() + b.len(),
{
    if a.len() == 0 {
        b.len()
    } else if b.len() == 0 {
        a.len()
    } else {
        let cost: nat = if a.last() == b.last() {
            0
        } else {
            1
        };
        min2(
            min2(
                levenshtein(a.drop_last(), b.drop_last()) + cost,
                levenshtein(a.drop_last(), b) + 1,
            ),
            levenshtein(a, b.drop_last()) + 1,
        )
    }
}

fn upper_chars(s: &str) -> (out: Vec<char>)
    ensures
        out@ == upper(s@),
{
    let chars = chars_of(s);
    let mut out: Vec<char> = Vec::new();
    let mut i: usize = 0;
    while i < chars.len()
        invariant
            i <= chars@.len(),
            out@.len() == i,
            forall|k: int| 0 <= k < i ==> #[trigger] out@[k] == upper_char(chars@[k]),
        decreases chars@.len() - i,
    {
        out.push(upper_of(chars[i]));
        i += 1;
    }
    assert(out@ =~= upper(s@));
    out
}

fn upper_of(c: char) -> (out: char)
    ensures
        out == upper_char(c),
{
    match c {
        'a' => 'A',
        'b' => 'B',
        'c' => 'C',
        'd' => 'D',
        'e' => 'E',
        'f' => 'F',
        'g' => 'G',
        'h' => 'H',
        'i' => 'I',
        'j' => 'J',
        'k' => 'K',
        'l' => 'L',
        'm' => 'M',
        'n' => 'N',
        'o' => 'O',
        'p' => 'P',
        'q' => 'Q',
        'r' => 'R',
        's' => 'S',
        't' => 'T',
        'u' => 'U',
        'v' => 'V',
        'w' => 'W',
        'x' => 'X',
        'y' => 'Y',
        'z' => 'Z',
        _ => c,
    }
}

fn least(a: u128, b: u128) -> (out: u128)
    ensures
        out == min2(a as nat, b as nat),
{
    if a < b {
        a
    } else {
        b
    }
}

/// A row of the distance table: the distances of a prefix of `a` to every
/// prefix of `b`.
spec fn is_row(row: Seq<u128>, a: Seq<char>, b: Seq<char>) -> bool {
    &&& row.len() == b.len() + 1
    &&& forall|j: int| 0 <= j <= b.len() ==> #[trigger] row[j] == levenshtein(a, b.take(j))
}

/// Case-insensitive Levenshtein distance.
pub fn edit_distance(a: &str, b: &str) -> (distance: usize)
    ensures
        distance == levenshtein(upper(a@), upper(b@)),
{
    let x = upper_chars(a);
    let y = upper_chars(b);
    let mut row: Vec<u128> = Vec::new();
    row.push(0);
    let mut j: usize = 0;
    proof {
        assert(x@.take(0) =~= Seq::<char>::empty());
        assert(y@.take(0) =~= Seq::<char>::empty());
    }
    while j < y.len()
        invariant
            j <= y@.len(),
            row@.len() == j + 1,
            x@.take(0) == Seq::<char>::empty(),
            forall|k: int|
                0 <= k <= j ==> #[trigger] row@[k] == levenshtein(x@.take(0), y@.take(k)),
        decreases y@.len() - j,
    {
        row.push(j as u128 + 1);
        j += 1;
    }
    let mut i: usize = 0;
    while i < x.len()
        invariant
            i <= x@.len(),
            is_row(row@, x@.take(i as int), y@),
        decreases x@.len() - i,
    {
        row = next_row(&row, &x, &y, i);
        i += 1;
    }
    let m = x.len();
    let n = y.len();
    proof {
        assert(x@.take(i as int) =~= x@);
        assert(y@.take(y@.len() as int) =~= y@);
        lemma_longest(x@, y@);
    }
    row[n] as usize
}

proof fn lemma_longest(a: Seq<char>, b: Seq<char>)
    ensures
        levenshtein(a, b) <= a.len() || levenshtein(a, b) <= b.len(),
    decreases a.len() + b.len(),
{
    if a.len() > 0 && b.len() > 0 {
        lemma_longest(a.drop_last(), b.drop_last());
    }
}

proof fn lemma_bounds(a: Seq<char>, b: Seq<char>)
    ensures
        levenshtein(a, b) <= a.len() + b.len(),
        levenshtein(a, b) + a.len() >= b.len(),
        levenshtein(a, b) + b.len() >= a.len(),
    decreases a.len() + b.len(),
{
    if a.len() > 0 && b.len() > 0 {
        lemma_bounds(a.drop_last(), b.drop_last());
        lemma_bounds(a.drop_last(), b);
        lemma_bounds(a, b.drop_last());
    }
}

fn next_row(row: &Vec<u128>, x: &Vec<char>, y: &Vec<char>, i: usize) -> (out: Vec<u128>)
    requires
        i < x@.len(),
        is_row(row@, x@.take(i as int), y@),
    ensures
        is_row(out@, x@.take(i + 1), y@),
{
    let ghost before = x@.take(i as int);
    let ghost prefix = x@.take(i + 1);
    assert(prefix.drop_last() =~= before);
    let m = x.len();
    let n = y.len();
    let mut out: Vec<u128> = Vec::new();
    assert(y@.take(0) =~= Seq::<char>::empty());
    out.push(i as u128 + 1);
    let mut j: usize = 0;
    while j < n
        invariant
            i < m,
            m == x@.len(),
            n == y@.len(),
            j <= n,
            out@.len() == j + 1,
            is_row(row@, before, y@),
            before == x@.take(i as int),
            prefix == x@.take(i + 1),
            prefix.drop_last() == before,
            forall|k: int| 0 <= k <= j ==> #[trigger] out@[k] == levenshtein(prefix, y@.take(k)),
        decreases n - j,
    {
        proof {
            assert(y@.take(j + 1).drop_last() =~= y@.take(j as int));
            lemma_bounds(before, y@.take(j as int));
            lemma_bounds(before, y@.take(j + 1));
            lemma_bounds(prefix, y@.take(j as int));
            assert(row@[j as int] == levenshtein(before, y@.take(j as int)));
            assert(row@[j + 1] == levenshtein(before, y@.take(j + 1)));
        }
        let cost: u128 = if x[i] == y[j] {
            0
        } else {
            1
        };
        let best = least(least(row[j] + cost, row[j + 1] + 1), out[j] + 1);
        out.push(best);
        j += 1;
    }
    out
}

/// Law: the distance is zero exactly for equal words.
pub proof fn distance_zero_is_equality(a: Seq<char>, b: Seq<char>)
    ensures
        levenshtein(a, b) == 0 <==> a == b,
    decreases a.len() + b.len(),
{
    if a.len() == 0 || b.len() == 0 {
        if a.len() == b.len() {
            assert(a =~= b);
        }
    } else {
        distance_zero_is_equality(a.drop_last(), b.drop_last());
        if a == b {
            assert(a.drop_last() == b.drop_last());
        } else if a.last() == b.last() && a.drop_last() == b.drop_last() {
            assert(a =~= a.drop_last().push(a.last()));
            assert(b =~= b.drop_last().push(b.last()));
        }
    }
}

/// Law: the distance does not depend on the order of the words.
pub proof fn distance_is_symmetric(a: Seq<char>, b: Seq<char>)
    ensures
        levenshtein(a, b) == levenshtein(b, a),
    decreases a.len() + b.len(),
{
    if a.len() > 0 && b.len() > 0 {
        distance_is_symmetric(a.drop_last(), b.drop_last());
        distance_is_symmetric(a.drop_last(), b);
        distance_is_symmetric(a, b.drop_last());
    }
}

/// Law: a detour over a third word is never shorter.
pub proof fn distance_obeys_triangle(a: Seq<char>, b: Seq<char>, c: Seq<char>)
    ensures
        levenshtein(a, c) <= levenshtein(a, b) + levenshtein(b, c),
    decreases a.len() + b.len() + c.len(),
{
    lemma_bounds(a, b);
    lemma_bounds(b, c);
    lemma_bounds(a, c);
    if a.len() > 0 && b.len() > 0 && c.len() > 0 {
        let x = a.drop_last();
        let y = b.drop_last();
        let z = c.drop_last();
        distance_obeys_triangle(x, b, c);
        distance_obeys_triangle(a, b, z);
        distance_obeys_triangle(x, y, z);
        distance_obeys_triangle(x, y, c);
        distance_obeys_triangle(a, y, z);
        distance_obeys_triangle(a, y, c);
    }
}

} // verus!
