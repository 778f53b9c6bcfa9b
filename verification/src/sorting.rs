//! Stable sorting by a text and a rank.

use vstd::prelude::*;
use vstd::string::*;

use crate::order::{
    comes_before, order_is_irreflexive, order_is_total, order_is_transitive, precedes,
};

verus! {

/// What an item is sorted by: a text first, a rank second.
#[derive(Debug)]
pub struct SortKey {
    pub text: String,
    pub rank: u64,
}

#[verifier::ext_equal]
pub struct KeyView {
    pub text: Seq<char>,
    pub rank: u64,
}

impl View for SortKey {
    type V = KeyView;

    open spec fn view(&self) -> KeyView {
        KeyView { text: self.text@, rank: self.rank }
    }
}

pub open spec fn key_views(s: Seq<SortKey>) -> Seq<KeyView> {
    Seq::new(s.len(), |i: int| s[i]@)
}

/// Whether a key comes before another.
pub open spec fn key_before(a: KeyView, b: KeyView) -> bool {
    precedes(a.text, b.text) || (a.text == b.text && a.rank < b.rank)
}

/// An order of items with item `k` put behind all that do not come after it.
pub open spec fn inserted(order: Seq<int>, keys: Seq<KeyView>, k: int) -> Seq<int>
    decreases order.len(),
{
    if order.len() == 0 || !key_before(keys[k], keys[order.last()]) {
        order.push(k)
    } else {
        inserted(order.drop_last(), keys, k).push(order.last())
    }
}

/// The first `n` items in the order of their keys, equal ones as they were.
pub open spec fn order_of(keys: Seq<KeyView>, n: nat) -> Seq<int>
    decreases n,
{
    if n == 0 {
        Seq::empty()
    } else {
        inserted(order_of(keys, (n - 1) as nat), keys, n - 1)
    }
}

/// All items in the order of their keys.
pub open spec fn sorted_order(keys: Seq<KeyView>) -> Seq<int> {
    order_of(keys, keys.len())
}

/// Items, reordered.
pub open spec fn reordered<V>(items: Seq<V>, order: Seq<int>) -> Seq<V> {
    Seq::new(order.len(), |i: int| items[order[i]])
}

pub open spec fn indices(s: Seq<usize>) -> Seq<int> {
    Seq::new(s.len(), |i: int| s[i] as int)
}

fn is_before(a: &SortKey, b: &SortKey) -> (yes: bool)
    ensures
        yes == key_before(a@, b@),
{
    if comes_before(&a.text, &b.text) {
        true
    } else if comes_before(&b.text, &a.text) {
        proof {
            if a.text@ == b.text@ {
                order_is_irreflexive(a.text@);
            }
        }
        false
    } else {
        proof {
            if a.text@ != b.text@ {
                order_is_total(a.text@, b.text@);
            }
        }
        a.rank < b.rank
    }
}

proof fn lemma_before_transitive(a: KeyView, b: KeyView, c: KeyView)
    requires
        key_before(a, b),
        key_before(b, c),
    ensures
        key_before(a, c),
{
    if precedes(a.text, b.text) && precedes(b.text, c.text) {
        order_is_transitive(a.text, b.text, c.text);
    }
}

proof fn lemma_before_irreflexive(a: KeyView)
    ensures
        !key_before(a, a),
{
    order_is_irreflexive(a.text);
}

/// Not coming after is transitive too.
proof fn lemma_not_before_transitive(a: KeyView, b: KeyView, c: KeyView)
    requires
        !key_before(b, a),
        !key_before(c, b),
    ensures
        !key_before(c, a),
{
    if key_before(c, a) {
        if a.text != b.text {
            order_is_total(a.text, b.text);
        }
        if key_before(a, b) {
            lemma_before_transitive(c, a, b);
        } else {
            assert(a.text == b.text && a.rank == b.rank);
        }
    }
}

/// Items in an order that no later one comes before an earlier.
pub open spec fn in_order(order: Seq<int>, keys: Seq<KeyView>) -> bool {
    forall|i: int, j: int| #![trigger order[i], order[j]]
        0 <= i < j < order.len() ==> !key_before(keys[order[j]], keys[order[i]])
}

/// Where an item belongs in an order is where the later ones begin.
proof fn lemma_inserted(order: Seq<int>, keys: Seq<KeyView>, k: int, at: int)
    requires
        0 <= at <= order.len(),
        forall|i: int| 0 <= i < at ==> !key_before(keys[k], keys[#[trigger] order[i]]),
        forall|i: int| at <= i < order.len() ==> key_before(keys[k], keys[#[trigger] order[i]]),
    ensures
        inserted(order, keys, k) == order.insert(at, k),
    decreases order.len(),
{
    if at == order.len() {
        if order.len() > 0 {
            assert(!key_before(keys[k], keys[order[order.len() - 1]]));
        }
        assert(order.insert(at, k) =~= order.push(k));
    } else {
        assert(key_before(keys[k], keys[order[order.len() - 1]]));
        let rest = order.drop_last();
        assert forall|i: int| 0 <= i < at implies !key_before(keys[k], keys[#[trigger] rest[i]]) by {
            assert(rest[i] == order[i]);
        }
        assert forall|i: int| at <= i < rest.len() implies key_before(
            keys[k],
            keys[#[trigger] rest[i]],
        ) by {
            assert(rest[i] == order[i]);
        }
        lemma_inserted(rest, keys, k, at);
        assert(order.insert(at, k) =~= rest.insert(at, k).push(order.last()));
    }
}

/// Putting an item where it belongs keeps an order.
proof fn lemma_insert_in_order(order: Seq<int>, keys: Seq<KeyView>, k: int, at: int)
    requires
        in_order(order, keys),
        0 <= at <= order.len(),
        forall|i: int| 0 <= i < at ==> !key_before(keys[k], keys[#[trigger] order[i]]),
        forall|i: int| at <= i < order.len() ==> key_before(keys[k], keys[#[trigger] order[i]]),
    ensures
        in_order(order.insert(at, k), keys),
{
    let next = order.insert(at, k);
    assert forall|i: int, j: int| #![trigger next[i], next[j]]
        0 <= i < j < next.len() implies !key_before(keys[next[j]], keys[next[i]]) by {
        let a = if i < at {
            i
        } else {
            i - 1
        };
        let b = if j < at {
            j
        } else {
            j - 1
        };
        if i == at {
            assert(next[j] == order[b]);
            if key_before(keys[order[b]], keys[k]) {
                lemma_before_transitive(keys[order[b]], keys[k], keys[order[b]]);
                lemma_before_irreflexive(keys[order[b]]);
            }
        } else if j == at {
            assert(next[i] == order[a]);
        } else {
            assert(next[i] == order[a] && next[j] == order[b]);
        }
    }
}

/// How many items of an order do not come after item `k`.
fn upper_bound(order: &Vec<usize>, keys: &Vec<SortKey>, k: usize) -> (at: usize)
    requires
        k < keys.len(),
        forall|i: int| 0 <= i < order.len() ==> #[trigger] order[i] < keys.len(),
        in_order(indices(order@), key_views(keys@)),
    ensures
        at <= order.len(),
        forall|i: int|
            0 <= i < at ==> !key_before(keys[k as int]@, keys[(#[trigger] order[i]) as int]@),
        forall|i: int|
            at <= i < order.len() ==> key_before(
                keys[k as int]@,
                keys[(#[trigger] order[i]) as int]@,
            ),
{
    let ghost views = key_views(keys@);
    let ghost ints = indices(order@);
    let mut low: usize = 0;
    let mut high: usize = order.len();
    while low < high
        invariant
            low <= high <= order.len(),
            k < keys.len(),
            views == key_views(keys@),
            ints == indices(order@),
            in_order(ints, views),
            forall|i: int| 0 <= i < order.len() ==> #[trigger] order[i] < keys.len(),
            forall|i: int|
                0 <= i < low ==> !key_before(keys[k as int]@, keys[(#[trigger] order[i]) as int]@),
            forall|i: int|
                high <= i < order.len() ==> key_before(
                    keys[k as int]@,
                    keys[(#[trigger] order[i]) as int]@,
                ),
        decreases high - low,
    {
        let mid: usize = low + (high - low) / 2;
        let ghost pivot = keys[order[mid as int] as int]@;
        if is_before(&keys[k], &keys[order[mid]]) {
            assert forall|i: int| mid <= i < order.len() implies key_before(
                keys[k as int]@,
                keys[(#[trigger] order[i]) as int]@,
            ) by {
                if i > mid {
                    assert(ints[mid as int] == order[mid as int] && ints[i] == order[i]);
                    let other = keys[order[i] as int]@;
                    assert(!key_before(views[ints[i]], views[ints[mid as int]]));
                    if !key_before(keys[k as int]@, other) {
                        lemma_not_before_transitive(pivot, other, keys[k as int]@);
                    }
                }
            }
            high = mid;
        } else {
            assert forall|i: int| 0 <= i < mid + 1 implies !key_before(
                keys[k as int]@,
                keys[(#[trigger] order[i]) as int]@,
            ) by {
                if i < mid {
                    assert(ints[mid as int] == order[mid as int] && ints[i] == order[i]);
                    assert(!key_before(views[ints[mid as int]], views[ints[i]]));
                    lemma_not_before_transitive(keys[order[i] as int]@, pivot, keys[k as int]@);
                }
            }
            low = mid + 1;
        }
    }
    low
}

/// The indices of all items in the order of their keys, equal ones as they were.
pub fn sort_indices(keys: &Vec<SortKey>) -> (out: Vec<usize>)
    ensures
        indices(out@) == sorted_order(key_views(keys@)),
        out.len() == keys.len(),
        forall|i: int| 0 <= i < out.len() ==> #[trigger] out[i] < keys.len(),
{
    let ghost views = key_views(keys@);
    let mut out: Vec<usize> = Vec::new();
    let mut k: usize = 0;
    assert(indices(out@) =~= Seq::<int>::empty());
    while k < keys.len()
        invariant
            k <= keys.len(),
            views == key_views(keys@),
            out.len() == k,
            indices(out@) == order_of(views, k as nat),
            in_order(indices(out@), views),
            forall|i: int| 0 <= i < out.len() ==> #[trigger] out[i] < k,
        decreases keys.len() - k,
    {
        let ghost before = indices(out@);
        let at = upper_bound(&out, keys, k);
        proof {
            assert forall|i: int| 0 <= i < at implies !key_before(
                views[k as int],
                views[#[trigger] before[i]],
            ) by {
                assert(before[i] == out[i]);
            }
            assert forall|i: int| at <= i < before.len() implies key_before(
                views[k as int],
                views[#[trigger] before[i]],
            ) by {
                assert(before[i] == out[i]);
            }
            lemma_inserted(before, views, k as int, at as int);
            lemma_insert_in_order(before, views, k as int, at as int);
        }
        let ghost old_out = out@;
        out.insert(at, k);
        assert(indices(out@) =~= before.insert(at as int, k as int));
        assert forall|i: int| 0 <= i < out.len() implies #[trigger] out[i] < k + 1 by {
            if i < at {
                assert(out[i] == old_out[i]);
            } else if i > at {
                assert(out[i] == old_out[i - 1]);
            }
        }
        k += 1;
    }
    out
}

// ---------------------------------------------------------------------------
// Laws
// ---------------------------------------------------------------------------
/// An order lists every item below `n` once.
pub open spec fn lists_all(order: Seq<int>, n: nat) -> bool {
    &&& order.len() == n
    &&& forall|i: int| 0 <= i < n ==> 0 <= #[trigger] order[i] < n
    &&& order.no_duplicates()
}

/// Equal items stand in an order as they stood before.
pub open spec fn is_stable(order: Seq<int>, keys: Seq<KeyView>) -> bool {
    forall|i: int, j: int| #![trigger order[i], order[j]]
        0 <= i < j < order.len() && keys[order[i]] == keys[order[j]] ==> order[i] < order[j]
}

/// Law: sorting lists every item once, none before one that comes before it, and
/// equal ones as they stood.
pub proof fn sorting_is_stable(keys: Seq<KeyView>)
    ensures
        lists_all(sorted_order(keys), keys.len()),
        in_order(sorted_order(keys), keys),
        is_stable(sorted_order(keys), keys),
{
    lemma_order_of(keys, keys.len());
}

proof fn lemma_split_point(order: Seq<int>, keys: Seq<KeyView>, k: int) -> (at: int)
    requires
        in_order(order, keys),
    ensures
        0 <= at <= order.len(),
        forall|i: int| 0 <= i < at ==> !key_before(keys[k], keys[#[trigger] order[i]]),
        forall|i: int| at <= i < order.len() ==> key_before(keys[k], keys[#[trigger] order[i]]),
    decreases order.len(),
{
    if order.len() == 0 {
        0
    } else {
        let last = order.len() - 1;
        let rest = order.drop_last();
        if key_before(keys[k], keys[order[last]]) {
            assert forall|i: int, j: int| #![trigger rest[i], rest[j]]
                0 <= i < j < rest.len() implies !key_before(keys[rest[j]], keys[rest[i]]) by {
                assert(rest[i] == order[i] && rest[j] == order[j]);
            }
            let at = lemma_split_point(rest, keys, k);
            assert forall|i: int| 0 <= i < at implies !key_before(
                keys[k],
                keys[#[trigger] order[i]],
            ) by {
                assert(rest[i] == order[i]);
            }
            assert forall|i: int| at <= i < order.len() implies key_before(
                keys[k],
                keys[#[trigger] order[i]],
            ) by {
                if i < last {
                    assert(rest[i] == order[i]);
                }
            }
            at
        } else {
            assert forall|i: int| 0 <= i < order.len() implies !key_before(
                keys[k],
                keys[#[trigger] order[i]],
            ) by {
                if i < last {
                    assert(!key_before(keys[order[last]], keys[order[i]]));
                    lemma_not_before_transitive(keys[order[i]], keys[order[last]], keys[k]);
                }
            }
            order.len() as int
        }
    }
}

proof fn lemma_order_of(keys: Seq<KeyView>, n: nat)
    requires
        n <= keys.len(),
    ensures
        lists_all(order_of(keys, n), n),
        in_order(order_of(keys, n), keys),
        is_stable(order_of(keys, n), keys),
    decreases n,
{
    if n > 0 {
        let k = n - 1;
        lemma_order_of(keys, (n - 1) as nat);
        let before = order_of(keys, (n - 1) as nat);
        let at = lemma_split_point(before, keys, k);
        lemma_inserted(before, keys, k, at);
        lemma_insert_in_order(before, keys, k, at);
        let order = order_of(keys, n);
        assert(order == before.insert(at, k));
        assert forall|i: int| 0 <= i < n implies 0 <= #[trigger] order[i] < n by {
            if i < at {
                assert(order[i] == before[i]);
            } else if i > at {
                assert(order[i] == before[i - 1]);
            }
        }
        assert forall|i: int, j: int| 0 <= i < order.len() && 0 <= j < order.len() && i
            != j implies order[i] != order[j] by {
            if i != at {
                let a = if i < at {
                    i
                } else {
                    i - 1
                };
                assert(order[i] == before[a]);
            }
            if j != at {
                let b = if j < at {
                    j
                } else {
                    j - 1
                };
                assert(order[j] == before[b]);
            }
        }
        assert forall|i: int, j: int| #![trigger order[i], order[j]]
            0 <= i < j < order.len() && keys[order[i]] == keys[order[j]] implies order[i]
            < order[j] by {
            let a = if i < at {
                i
            } else {
                i - 1
            };
            let b = if j < at {
                j
            } else {
                j - 1
            };
            if i == at {
                assert(order[j] == before[b]);
                assert(key_before(keys[k], keys[before[b]]));
                lemma_before_irreflexive(keys[k]);
            } else if j == at {
                assert(order[i] == before[a]);
            } else {
                assert(order[i] == before[a] && order[j] == before[b]);
            }
        }
    }
}

/// Law: an order that lists as many different items as there are lists each.
pub proof fn every_item_is_listed(order: Seq<int>, n: nat, k: int)
    requires
        lists_all(order, n),
        0 <= k < n,
    ensures
        exists|i: int| 0 <= i < order.len() && order[i] == k,
{
    let all = vstd::set_lib::set_int_range(0, n as int);
    vstd::set_lib::lemma_int_range(0, n as int);
    order.unique_seq_to_set();
    let listed = order.to_set();
    assert(listed.subset_of(all)) by {
        assert forall|x: int| listed.contains(x) implies all.contains(x) by {
            let i = choose|i: int| 0 <= i < order.len() && order[i] == x;
            assert(0 <= order[i] < n);
        }
    }
    vstd::set_lib::lemma_subset_equality(listed, all);
    assert(listed.contains(k));
}

} // verus!
