//! A table of values by name.
//!
//! A [`DashMap`] finds the slot of a name; the slots hold the values.

use dashmap::DashMap;
use vstd::prelude::*;
use vstd::string::*;

verus! {

/// [`DashMap`], a concurrent hash map.
#[verifier::external_type_specification]
#[verifier::external_body]
#[verifier::reject_recursive_types(K)]
#[verifier::reject_recursive_types(V)]
#[verifier::reject_recursive_types(S)]
pub struct ExDashMap<K, V, S>(dashmap::DashMap<K, V, S>);

/// The entries of a map from names to slots. A map is only changed through `&mut`
/// here, so that what it holds stays the same in between.
pub uninterp spec fn entries(map: dashmap::DashMap<String, usize>) -> Map<Seq<char>, usize>;

/// No entries at all.
pub open spec fn no_entries() -> Map<Seq<char>, usize> {
    Map::empty()
}

/// `DashMap::new`: a map without entries.
#[verifier::external_body]
fn map_new() -> (map: DashMap<String, usize>)
    ensures
        entries(map) == no_entries(),
{
    DashMap::new()
}

/// `DashMap::get`, copied out: the value of an entry, if there is one.
#[verifier::external_body]
fn map_get(map: &DashMap<String, usize>, key: &str) -> (slot: Option<usize>)
    ensures
        slot == if entries(*map).dom().contains(key@) {
            Some(entries(*map)[key@])
        } else {
            None
        },
{
    map.get(key).map(|entry| *entry.value())
}

/// `DashMap::insert`: sets an entry and returns the value it had before.
#[verifier::external_body]
fn map_insert(map: &mut DashMap<String, usize>, key: String, slot: usize) -> (before: Option<usize>)
    ensures
        entries(*final(map)) == entries(*old(map)).insert(key@, slot),
        before == if entries(*old(map)).dom().contains(key@) {
            Some(entries(*old(map))[key@])
        } else {
            None
        },
{
    map.insert(key, slot)
}

/// `DashMap::remove`: takes an entry out and returns its value.
#[verifier::external_body]
fn map_remove(map: &mut DashMap<String, usize>, key: &str) -> (slot: Option<usize>)
    ensures
        entries(*final(map)) == entries(*old(map)).remove(key@),
        slot == if entries(*old(map)).dom().contains(key@) {
            Some(entries(*old(map))[key@])
        } else {
            None
        },
{
    map.remove(key).map(|entry| entry.1)
}

/// `DashMap::iter`, by key: every key once, in no particular order.
#[verifier::external_body]
fn map_keys(map: &DashMap<String, usize>) -> (keys: Vec<String>)
    ensures
        forall|i: int|
            0 <= i < keys.len() ==> entries(*map).dom().contains((#[trigger] keys[i])@),
        forall|key: Seq<char>| #[trigger]
            entries(*map).dom().contains(key) ==> exists|i: int|
                0 <= i < keys.len() && (#[trigger] keys[i])@ == key,
        forall|i: int, j: int| #![trigger keys[i], keys[j]]
            0 <= i < j < keys.len() ==> keys[i]@ != keys[j]@,
{
    map.iter().map(|entry| entry.key().clone()).collect()
}

/// `DashMap::clear`: takes all entries out.
#[verifier::external_body]
fn map_clear(map: &mut DashMap<String, usize>)
    ensures
        entries(*final(map)) == no_entries(),
{
    map.clear()
}

/// Values by name.
pub struct SlotTable<T> {
    keys: DashMap<String, usize>,
    slots: Vec<Option<T>>,
    free: Vec<usize>,
}

impl<T> View for SlotTable<T> {
    type V = Map<Seq<char>, T>;

    closed spec fn view(&self) -> Map<Seq<char>, T> {
        Map::new(
            |key: Seq<char>| entries(self.keys).dom().contains(key),
            |key: Seq<char>| self.slots@[entries(self.keys)[key] as int]->0,
        )
    }
}

impl<T> SlotTable<T> {
    /// Every name has a filled slot of its own, and the free slots are empty.
    pub closed spec fn wf(&self) -> bool {
        let keys = entries(self.keys);
        &&& forall|key: Seq<char>| #[trigger]
            keys.dom().contains(key) ==> keys[key] < self.slots.len()
                && self.slots@[keys[key] as int] is Some
        &&& forall|a: Seq<char>, b: Seq<char>| #![trigger keys[a], keys[b]]
            keys.dom().contains(a) && keys.dom().contains(b) && a != b ==> keys[a] != keys[b]
        &&& forall|i: int|
            0 <= i < self.free.len() ==> (#[trigger] self.free@[i]) < self.slots.len()
                && self.slots@[self.free@[i] as int] is None
        &&& self.free@.no_duplicates()
    }

    pub fn new() -> (table: Self)
        ensures
            table.wf(),
            table@ == Map::<Seq<char>, T>::empty(),
    {
        let table = SlotTable { keys: map_new(), slots: Vec::new(), free: Vec::new() };
        assert(table@ =~= Map::<Seq<char>, T>::empty());
        table
    }

    /// The value of a name.
    pub fn get(&self, key: &str) -> (out: Option<&T>)
        requires
            self.wf(),
        ensures
            match out {
                Some(value) => self@.dom().contains(key@) && *value == self@[key@],
                None => !self@.dom().contains(key@),
            },
    {
        match map_get(&self.keys, key) {
            Some(slot) => {
                assert(entries(self.keys).dom().contains(key@));
                self.slots[slot].as_ref()
            },
            None => None,
        }
    }

    /// Take a name and its value out.
    pub fn take(&mut self, key: &str) -> (out: Option<T>)
        requires
            old(self).wf(),
        ensures
            final(self).wf(),
            final(self)@ == old(self)@.remove(key@),
            out == if old(self)@.dom().contains(key@) {
                Some(old(self)@[key@])
            } else {
                None
            },
    {
        let ghost before = entries(self.keys);
        match map_remove(&mut self.keys, key) {
            None => {
                assert(entries(self.keys) =~= before);
                assert(self@ =~= old(self)@);
                assert(old(self)@.remove(key@) =~= old(self)@);
                None
            },
            Some(slot) => {
                assert(before.dom().contains(key@));
                assert(slot < self.slots.len());
                let mut out: Option<T> = None;
                self.slots.set_and_swap(slot, &mut out);
                self.free.push(slot);
                proof {
                    let after = entries(self.keys);
                    assert forall|k: Seq<char>| #[trigger] after.dom().contains(k) implies after[k]
                        < self.slots.len() && self.slots@[after[k] as int] is Some by {
                        assert(before.dom().contains(k));
                        assert(before[k] != before[key@]);
                    }
                    assert forall|a: Seq<char>, b: Seq<char>| #![trigger after[a], after[b]]
                        after.dom().contains(a) && after.dom().contains(b) && a
                            != b implies after[a] != after[b] by {
                        assert(before.dom().contains(a) && before.dom().contains(b));
                        assert(before[a] != before[b]);
                    }
                    assert(self@ =~= old(self)@.remove(key@)) by {
                        assert forall|k: Seq<char>| #[trigger]
                            self@.dom().contains(k) implies self@[k] == old(self)@[k] by {
                            assert(before.dom().contains(k));
                            assert(before[k] != before[key@]);
                        }
                    }
                }
                out
            },
        }
    }

    /// Set the value of a name.
    pub fn put(&mut self, key: &str, value: T)
        requires
            old(self).wf(),
        ensures
            final(self).wf(),
            final(self)@ == old(self)@.insert(key@, value),
    {
        let ghost before = entries(self.keys);
        let slot: usize = match map_get(&self.keys, key) {
            Some(slot) => {
                assert(before.dom().contains(key@));
                self.slots.set(slot, Some(value));
                slot
            },
            None => match self.free.pop() {
                Some(slot) => {
                    assert(slot == old(self).free@[old(self).free@.len() - 1]);
                    self.slots.set(slot, Some(value));
                    slot
                },
                None => {
                    let slot = self.slots.len();
                    self.slots.push(Some(value));
                    slot
                },
            },
        };
        let earlier = map_insert(&mut self.keys, key.to_string(), slot);
        proof {
            let after = entries(self.keys);
            assert forall|k: Seq<char>| #[trigger] after.dom().contains(k) implies after[k]
                < self.slots.len() && self.slots@[after[k] as int] is Some by {
                if k != key@ {
                    assert(before.dom().contains(k));
                }
            }
            assert forall|a: Seq<char>, b: Seq<char>| #![trigger after[a], after[b]]
                after.dom().contains(a) && after.dom().contains(b) && a != b implies after[a]
                != after[b] by {
                if a != key@ {
                    assert(before.dom().contains(a));
                }
                if b != key@ {
                    assert(before.dom().contains(b));
                }
                if a != key@ && b != key@ {
                    assert(before[a] != before[b]);
                } else if a == key@ && before.dom().contains(a) {
                    assert(before[a] != before[b]);
                } else if b == key@ && before.dom().contains(b) {
                    assert(before[a] != before[b]);
                }
            }
            assert(self@ =~= old(self)@.insert(key@, value)) by {
                assert forall|k: Seq<char>| #[trigger]
                    self@.dom().contains(k) && k != key@ implies self@[k] == old(self)@[k] by {
                    assert(before.dom().contains(k));
                    assert(after[k] == before[k]);
                    assert(after[key@] == slot);
                    assert(after[k] != after[key@]);
                }
            }
        }
    }

    /// Every name once, in no particular order.
    pub fn names(&self) -> (out: Vec<String>)
        ensures
            forall|i: int| 0 <= i < out.len() ==> self@.dom().contains((#[trigger] out[i])@),
            forall|key: Seq<char>| #[trigger]
                self@.dom().contains(key) ==> exists|i: int|
                    0 <= i < out.len() && (#[trigger] out[i])@ == key,
            forall|i: int, j: int| #![trigger out[i], out[j]]
                0 <= i < j < out.len() ==> out[i]@ != out[j]@,
    {
        let out = map_keys(&self.keys);
        assert forall|key: Seq<char>| #[trigger] self@.dom().contains(key) implies exists|i: int|
            0 <= i < out.len() && (#[trigger] out[i])@ == key by {
            assert(entries(self.keys).dom().contains(key));
        }
        out
    }

    /// How many names there are.
    pub fn len(&self) -> (count: usize)
        ensures
            self@.dom().finite(),
            count == self@.dom().len(),
    {
        let names = self.names();
        proof {
            let texts = Seq::new(names@.len(), |i: int| names@[i]@);
            assert forall|i: int, j: int|
                0 <= i < texts.len() && 0 <= j < texts.len() && i != j implies texts[i]
                != texts[j] by {
                if i < j {
                    assert(names[i]@ != names[j]@);
                } else {
                    assert(names[j]@ != names[i]@);
                }
            }
            texts.unique_seq_to_set();
            assert(texts.to_set() =~= self@.dom()) by {
                assert forall|key: Seq<char>| self@.dom().contains(key) implies #[trigger]
                    texts.to_set().contains(key) by {
                    let i = choose|i: int| 0 <= i < names.len() && (#[trigger] names[i])@ == key;
                    assert(texts[i] == key);
                }
                assert forall|key: Seq<char>| #[trigger]
                    texts.to_set().contains(key) implies self@.dom().contains(key) by {
                    let i = choose|i: int| 0 <= i < texts.len() && texts[i] == key;
                    assert(names[i]@ == key);
                }
            }
            vstd::seq_lib::seq_to_set_is_finite(texts);
        }
        names.len()
    }

    /// Take everything out.
    pub fn clear(&mut self)
        ensures
            final(self).wf(),
            final(self)@ == Map::<Seq<char>, T>::empty(),
    {
        map_clear(&mut self.keys);
        self.slots = Vec::new();
        self.free = Vec::new();
        assert(self@ =~= Map::<Seq<char>, T>::empty());
    }
}

} // verus!
