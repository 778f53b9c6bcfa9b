//! Planning a scan and reusing what an earlier one found.
//!
//! A scan walks the base roots and then the workspace roots, skips inputs that
//! were seen before, and reuses what the index cache holds for an input whose
//! fingerprint has not changed.

use vstd::prelude::*;
use vstd::string::*;

use crate::sorting::indices;
use crate::table::SlotTable;

verus! {

/// The version of the index cache's format.
pub const INDEX_CACHE_VERSION: u32 = 5;

/// Assets larger than this, in bytes, are not read for a preview.
pub const MAX_PREVIEW_ASSET_BYTES: u64 = 134_217_728;

/// No more threads than this scan at once.
pub const MAX_SCAN_WORKERS: usize = 4;

/// What tells one state of a file from another.
#[derive(Debug, Clone, Copy, PartialEq, Eq, Structural)]
pub struct Fingerprint {
    pub len: u64,
    pub modified_secs: u64,
    pub modified_nanos: u32,
}

// ---------------------------------------------------------------------------
// The plan
// ---------------------------------------------------------------------------
/// An input that was found: the key of its path, its fingerprint if it could be
/// taken, and whether it comes from a base root.
#[derive(Debug)]
pub struct Found {
    pub key: String,
    pub fingerprint: Option<Fingerprint>,
    pub is_base: bool,
}

/// Whether input `i` was not found before.
pub open spec fn is_first(found: Seq<Found>, i: int) -> bool {
    forall|j: int| 0 <= j < i ==> (#[trigger] found[j]).key@ != found[i].key@
}

/// The inputs to index among the first `n` found: each once, if it has a
/// fingerprint.
pub open spec fn planned(found: Seq<Found>, n: nat) -> Seq<int>
    decreases n,
{
    if n == 0 {
        Seq::empty()
    } else {
        let rest = planned(found, (n - 1) as nat);
        if is_first(found, n - 1) && found[n - 1].fingerprint is Some {
            rest.push(n - 1)
        } else {
            rest
        }
    }
}

/// How many different inputs are among the first `n` found.
pub open spec fn count_first(found: Seq<Found>, n: nat) -> nat
    decreases n,
{
    if n == 0 {
        0
    } else {
        count_first(found, (n - 1) as nat) + if is_first(found, n - 1) {
            1nat
        } else {
            0nat
        }
    }
}

/// What a scan will index.
#[derive(Debug)]
pub struct Plan {
    /// The inputs to index, as places in the list of found inputs.
    pub inputs: Vec<usize>,
    /// How many different inputs were found.
    pub discovered: usize,
    /// How many of them have no fingerprint.
    pub fingerprint_failures: usize,
}

impl Plan {
    /// The plan for what was found.
    pub open spec fn fits(&self, found: Seq<Found>) -> bool {
        &&& indices(self.inputs@) == planned(found, found.len())
        &&& self.discovered == count_first(found, found.len())
        &&& self.fingerprint_failures == count_first(found, found.len()) - planned(
            found,
            found.len(),
        ).len()
    }
}

/// Plan a scan: base roots come first in `found`, so that an input of both kinds
/// of roots counts as base.
pub fn plan_inputs(found: &Vec<Found>) -> (plan: Plan)
    ensures
        plan.fits(found@),
{
    let mut seen: SlotTable<bool> = SlotTable::new();
    let mut inputs: Vec<usize> = Vec::new();
    let mut discovered: usize = 0;
    let mut fingerprint_failures: usize = 0;
    let mut i: usize = 0;
    assert(indices(inputs@) =~= Seq::<int>::empty());
    while i < found.len()
        invariant
            i <= found.len(),
            seen.wf(),
            forall|key: Seq<char>| #[trigger]
                seen@.dom().contains(key) <==> exists|j: int|
                    0 <= j < i && (#[trigger] found[j]).key@ == key,
            indices(inputs@) == planned(found@, i as nat),
            discovered == count_first(found@, i as nat),
            fingerprint_failures + inputs.len() == discovered,
            discovered <= i,
        decreases found.len() - i,
    {
        let ghost known = seen@;
        let ghost before = indices(inputs@);
        let input = &found[i];
        match seen.get(&input.key) {
            Some(_) => {
                assert(known.dom().contains(input.key@));
                assert(!is_first(found@, i as int)) by {
                    let j = choose|j: int| 0 <= j < i && (#[trigger] found[j]).key@ == input.key@;
                    assert(found@[j].key@ == found@[i as int].key@);
                }
            },
            None => {
                assert(!known.dom().contains(input.key@));
                assert(is_first(found@, i as int));
                seen.put(&input.key, true);
                discovered += 1;
                match input.fingerprint {
                    Some(_) => {
                        inputs.push(i);
                        assert(indices(inputs@) =~= before.push(i as int));
                    },
                    None => {
                        fingerprint_failures += 1;
                    },
                }
            },
        }
        assert forall|key: Seq<char>| #[trigger] seen@.dom().contains(key) <==> exists|j: int|
            0 <= j < i + 1 && (#[trigger] found[j]).key@ == key by {
            if known.dom().contains(key) {
                let j = choose|j: int| 0 <= j < i && (#[trigger] found[j]).key@ == key;
                assert(found[j].key@ == key);
            }
            assert(found[i as int].key@ == input.key@);
        }
        i += 1;
    }
    Plan { inputs, discovered, fingerprint_failures }
}

// ---------------------------------------------------------------------------
// The cache
// ---------------------------------------------------------------------------
/// What a cache holds for one file.
pub struct CachedFile<E> {
    pub fingerprint: Fingerprint,
    pub entries: Vec<E>,
}

/// What a cache holds for each file: the fingerprint and the entries.
pub open spec fn file_views<E>(files: Map<Seq<char>, CachedFile<E>>) -> Map<
    Seq<char>,
    (Fingerprint, Seq<E>),
> {
    files.map_values(|file: CachedFile<E>| (file.fingerprint, file.entries@))
}

/// An index cache: what was found in each file, by the key of its path.
pub struct IndexCache<E> {
    pub version: u32,
    pub schema_hash: u64,
    pub files: SlotTable<CachedFile<E>>,
}

/// What came of reading a cache.
pub enum CacheLoad<E> {
    /// There is none.
    Missing,
    /// It could not be read or parsed.
    Unreadable,
    /// It was read.
    Parsed(IndexCache<E>),
}

/// What a cache is worth.
#[derive(Debug, Clone, Copy, PartialEq, Eq, Structural)]
pub enum CacheState {
    Absent,
    Corrupt,
    Stale,
    Valid,
}

impl<E> IndexCache<E> {
    /// The current format, for a schema.
    pub open spec fn is_current(&self, schema_hash: u64) -> bool {
        self.version == INDEX_CACHE_VERSION && self.schema_hash == schema_hash
    }

    pub fn empty(schema_hash: u64) -> (cache: Self)
        ensures
            cache.is_current(schema_hash),
            cache.files.wf(),
            cache.files@ == Map::<Seq<char>, CachedFile<E>>::empty(),
    {
        IndexCache { version: INDEX_CACHE_VERSION, schema_hash, files: SlotTable::new() }
    }
}

/// What a cache that was read is worth.
pub open spec fn cache_state<E>(load: CacheLoad<E>, schema_hash: u64) -> CacheState {
    match load {
        CacheLoad::Missing => CacheState::Absent,
        CacheLoad::Unreadable => CacheState::Corrupt,
        CacheLoad::Parsed(cache) => if cache.is_current(schema_hash) {
            CacheState::Valid
        } else {
            CacheState::Stale
        },
    }
}

/// The cache to go on with: the one that was read if it is of the current format
/// and schema, an empty one otherwise.
pub fn accept_cache<E>(load: CacheLoad<E>, schema_hash: u64) -> (out: (IndexCache<E>, CacheState))
    requires
        load matches CacheLoad::Parsed(cache) ==> cache.files.wf(),
    ensures
        out.1 == cache_state(load, schema_hash),
        out.0.files.wf(),
        out.0.is_current(schema_hash),
        match load {
            CacheLoad::Parsed(cache) => if cache.is_current(schema_hash) {
                out.0 == cache
            } else {
                out.0.files@ == Map::<Seq<char>, CachedFile<E>>::empty()
            },
            _ => out.0.files@ == Map::<Seq<char>, CachedFile<E>>::empty(),
        },
{
    match load {
        CacheLoad::Missing => (IndexCache::empty(schema_hash), CacheState::Absent),
        CacheLoad::Unreadable => (IndexCache::empty(schema_hash), CacheState::Corrupt),
        CacheLoad::Parsed(cache) => {
            if cache.version == INDEX_CACHE_VERSION && cache.schema_hash == schema_hash {
                (cache, CacheState::Valid)
            } else {
                (IndexCache::empty(schema_hash), CacheState::Stale)
            }
        },
    }
}

/// Whether a cache holds what an input is now.
pub open spec fn holds_input<E>(
    files: Map<Seq<char>, (Fingerprint, Seq<E>)>,
    input: Found,
) -> bool {
    files.dom().contains(input.key@) && Some(files[input.key@].0) == input.fingerprint
}

/// Whether a cache can stay as it is: it is valid, nothing was skipped, and it
/// holds exactly the inputs to index as they are now.
pub open spec fn unchanged<E>(
    files: Map<Seq<char>, (Fingerprint, Seq<E>)>,
    state: CacheState,
    found: Seq<Found>,
    discovery_failures: usize,
) -> bool {
    let inputs = planned(found, found.len());
    &&& state == CacheState::Valid
    &&& discovery_failures == 0
    &&& count_first(found, found.len()) == inputs.len()
    &&& inputs.len() == files.dom().len()
    &&& forall|i: int|
        0 <= i < inputs.len() ==> holds_input(files, found[#[trigger] inputs[i]])
}

/// Whether a cache can stay as it is.
pub fn manifest_unchanged<E>(
    cache: &IndexCache<E>,
    state: CacheState,
    found: &Vec<Found>,
    plan: &Plan,
    discovery_failures: usize,
) -> (yes: bool)
    requires
        cache.files.wf(),
        plan.fits(found@),
    ensures
        yes == unchanged(file_views(cache.files@), state, found@, discovery_failures),
{
    let ghost files = file_views(cache.files@);
    let ghost inputs = planned(found@, found@.len());
    assert(files.dom() =~= cache.files@.dom());
    assert(inputs.len() == plan.inputs.len());
    if !matches!(state, CacheState::Valid) || discovery_failures != 0 || plan.fingerprint_failures
        != 0 || plan.inputs.len() != cache.files.len() {
        return false;
    }
    let mut i: usize = 0;
    while i < plan.inputs.len()
        invariant
            i <= plan.inputs.len(),
            cache.files.wf(),
            plan.fits(found@),
            files == file_views(cache.files@),
            inputs == planned(found@, found@.len()),
            inputs.len() == plan.inputs.len(),
            forall|j: int| 0 <= j < i ==> holds_input(files, found[#[trigger] inputs[j]]),
        decreases plan.inputs.len() - i,
    {
        proof {
            lemma_planned_bound(found@, found@.len(), i as int);
            assert(inputs[i as int] == plan.inputs@[i as int]);
        }
        let input = &found[plan.inputs[i]];
        match (cache.files.get(&input.key), input.fingerprint) {
            (Some(cached), Some(fingerprint)) => {
                if cached.fingerprint != fingerprint {
                    assert(!holds_input(files, found[inputs[i as int]]));
                    return false;
                }
            },
            _ => {
                assert(!holds_input(files, found[inputs[i as int]]));
                return false;
            },
        }
        i += 1;
    }
    true
}

/// Take what a cache holds for an input: its entries if the input has not
/// changed. A changed input's entries are forgotten.
pub fn reuse<E>(cache: &mut IndexCache<E>, input: &Found) -> (out: Option<Vec<E>>)
    requires
        old(cache).files.wf(),
    ensures
        final(cache).files.wf(),
        final(cache).version == old(cache).version,
        final(cache).schema_hash == old(cache).schema_hash,
        final(cache).files@ == old(cache).files@.remove(input.key@),
        match out {
            Some(entries) => holds_input(file_views(old(cache).files@), *input) && entries@
                == file_views(old(cache).files@)[input.key@].1,
            None => !holds_input(file_views(old(cache).files@), *input),
        },
{
    match (cache.files.take(&input.key), input.fingerprint) {
        (Some(cached), Some(fingerprint)) => {
            if cached.fingerprint == fingerprint {
                Some(cached.entries)
            } else {
                None
            }
        },
        _ => None,
    }
}

/// The entries of each result.
pub open spec fn entry_seqs<E>(results: Seq<Vec<E>>) -> Seq<Seq<E>> {
    Seq::new(results.len(), |i: int| results[i]@)
}

/// The entries of all inputs in the order of the plan, each marked with whether
/// its input comes from a base root.
pub open spec fn assembled<E>(found: Seq<Found>, inputs: Seq<int>, results: Seq<Seq<E>>) -> Seq<
    (bool, E),
>
    decreases inputs.len(),
{
    if inputs.len() == 0 {
        Seq::empty()
    } else {
        let i = inputs.len() - 1;
        assembled(found, inputs.drop_last(), results) + results[i].map_values(
            |entry: E| (found[inputs[i]].is_base, entry),
        )
    }
}

/// Put the entries of all inputs together, in the order of the plan whichever
/// order they came in.
pub fn assemble<E>(found: &Vec<Found>, plan: &Plan, results: Vec<Vec<E>>) -> (out: Vec<(bool, E)>)
    requires
        results.len() == plan.inputs.len(),
        forall|i: int| 0 <= i < plan.inputs.len() ==> #[trigger] plan.inputs[i] < found.len(),
    ensures
        out@ == assembled(found@, indices(plan.inputs@), entry_seqs(results@)),
{
    let ghost vecs = results@;
    let ghost all = entry_seqs(results@);
    let ghost inputs = indices(plan.inputs@);
    let mut rest = results;
    let mut reversed: Vec<(bool, E)> = Vec::new();
    let mut i: usize = plan.inputs.len();
    assert(inputs.take(i as int) =~= inputs);
    assert(reversed@.reverse() =~= Seq::<(bool, E)>::empty());
    assert(assembled(found@, inputs, all) =~= assembled(
        found@,
        inputs.take(i as int),
        all,
    ) + reversed@.reverse());
    while i > 0
        invariant
            i <= plan.inputs.len(),
            all.len() == plan.inputs.len(),
            rest@ == vecs.take(i as int),
            vecs.len() == all.len(),
            all == entry_seqs(vecs),
            inputs == indices(plan.inputs@),
            forall|j: int| 0 <= j < plan.inputs.len() ==> #[trigger] plan.inputs[j] < found.len(),
            assembled(found@, inputs, all) == assembled(
                found@,
                inputs.take(i as int),
                all,
            ) + reversed@.reverse(),
        decreases i,
    {
        let is_base = found[plan.inputs[i - 1]].is_base;
        assert(inputs[i - 1] == plan.inputs@[i - 1]);
        let ghost upto = inputs.take(i as int);
        let ghost marked = all[i - 1].map_values(|entry: E| (is_base, entry));
        let ghost before = reversed@;
        assert(upto.drop_last() =~= inputs.take(i - 1));
        match rest.pop() {
            None => {},
            Some(entries) => {
                assert(entries@ == all[i - 1]);
                let mut entries = entries;
                assert(marked.take(entries@.len() as int) =~= marked);
                while entries.len() > 0
                    invariant
                        entries@ == all[i - 1].take(entries@.len() as int),
                        entries@.len() <= all[i - 1].len(),
                        marked == all[i - 1].map_values(|entry: E| (is_base, entry)),
                        marked + before.reverse() == marked.take(entries@.len() as int)
                            + reversed@.reverse(),
                    decreases entries.len(),
                {
                    let ghost n = entries@.len() as int;
                    let ghost earlier = reversed@;
                    match entries.pop() {
                        None => {},
                        Some(entry) => {
                            assert(entry == all[i - 1][n - 1]);
                            reversed.push((is_base, entry));
                            assert(reversed@.reverse() =~= seq![(is_base, entry)]
                                + earlier.reverse());
                            assert(marked.take(n) =~= marked.take(n - 1) + seq![(is_base, entry)]);
                            assert(marked.take(n) + earlier.reverse() =~= marked.take(n - 1)
                                + reversed@.reverse());
                        },
                    }
                }
                assert(marked.take(0) + reversed@.reverse() =~= reversed@.reverse());
            },
        }
        assert(assembled(found@, upto, all) == assembled(found@, inputs.take(i - 1), all)
            + all[upto.len() - 1].map_values(
            |entry: E| (found@[upto[upto.len() - 1]].is_base, entry),
        ));
        assert(all[upto.len() - 1].map_values(
            |entry: E| (found@[upto[upto.len() - 1]].is_base, entry),
        ) =~= marked);
        assert(assembled(found@, inputs.take(i - 1), all) + marked + before.reverse()
            =~= assembled(found@, inputs.take(i - 1), all) + (marked + before.reverse()));
        i -= 1;
    }
    assert(assembled(found@, inputs.take(0), all) + reversed@.reverse()
        =~= reversed@.reverse());
    let mut out: Vec<(bool, E)> = Vec::new();
    let ghost whole = reversed@;
    assert(whole.take(whole.len() as int) =~= whole);
    assert(out@ + whole.reverse() =~= whole.reverse());
    while reversed.len() > 0
        invariant
            reversed@ == whole.take(reversed@.len() as int),
            reversed@.len() <= whole.len(),
            out@ + reversed@.reverse() == whole.reverse(),
        decreases reversed.len(),
    {
        let ghost n = reversed@.len() as int;
        let ghost earlier = out@;
        let ghost remaining = reversed@;
        match reversed.pop() {
            None => {},
            Some(item) => {
                out.push(item);
                assert(remaining.reverse() =~= seq![item] + reversed@.reverse());
                assert(earlier + remaining.reverse() =~= out@ + reversed@.reverse());
            },
        }
    }
    assert(out@ + reversed@.reverse() =~= out@);
    out
}

// ---------------------------------------------------------------------------
// Progress
// ---------------------------------------------------------------------------
/// What a scan is doing.
#[derive(Debug, Clone, Copy, PartialEq, Eq, Structural)]
pub enum ScanProgress {
    Discovering,
    InputsDiscovered { total: usize, skipped: usize },
    Indexing { done: usize, total: usize, cache_hits: usize, cache_misses: usize },
    WritingCache,
}

/// What came of one input.
#[derive(Debug, Clone, Copy, PartialEq, Eq, Structural)]
pub enum InputOutcome {
    /// The cache held it.
    Reused,
    /// It was scanned.
    Scanned,
    /// It could not be scanned.
    Failed,
}

/// How far a scan has come.
#[derive(Debug, Clone, Copy, PartialEq, Eq, Structural)]
pub struct ScanTally {
    pub done: usize,
    pub total: usize,
    pub cache_hits: usize,
    pub cache_misses: usize,
    pub scan_failures: usize,
}

/// How many of the outcomes are `outcome`.
pub open spec fn count_outcome(outcomes: Seq<InputOutcome>, outcome: InputOutcome) -> nat
    decreases outcomes.len(),
{
    if outcomes.len() == 0 {
        0
    } else {
        count_outcome(outcomes.drop_last(), outcome) + if outcomes.last() == outcome {
            1nat
        } else {
            0nat
        }
    }
}

impl ScanTally {
    /// The tally of a list of outcomes. A failed scan is a miss too.
    pub open spec fn counts(&self, outcomes: Seq<InputOutcome>, total: usize) -> bool {
        &&& self.done == outcomes.len()
        &&& self.total == total
        &&& self.cache_hits == count_outcome(outcomes, InputOutcome::Reused)
        &&& self.cache_misses == outcomes.len() - count_outcome(outcomes, InputOutcome::Reused)
        &&& self.scan_failures == count_outcome(outcomes, InputOutcome::Failed)
    }

    pub fn new(total: usize) -> (tally: Self)
        ensures
            tally.counts(Seq::empty(), total),
    {
        ScanTally { done: 0, total, cache_hits: 0, cache_misses: 0, scan_failures: 0 }
    }

    /// The tally after one more input.
    pub open spec fn after(self, outcome: InputOutcome) -> ScanTally {
        ScanTally {
            done: (self.done + 1) as usize,
            total: self.total,
            cache_hits: if outcome == InputOutcome::Reused {
                (self.cache_hits + 1) as usize
            } else {
                self.cache_hits
            },
            cache_misses: if outcome == InputOutcome::Reused {
                self.cache_misses
            } else {
                (self.cache_misses + 1) as usize
            },
            scan_failures: if outcome == InputOutcome::Failed {
                (self.scan_failures + 1) as usize
            } else {
                self.scan_failures
            },
        }
    }

    /// Count one more input, and say what to report.
    pub fn record(&mut self, outcome: InputOutcome) -> (event: ScanProgress)
        requires
            old(self).done < old(self).total,
            old(self).cache_hits + old(self).cache_misses == old(self).done,
            old(self).scan_failures <= old(self).cache_misses,
        ensures
            *final(self) == old(self).after(outcome),
            final(self).cache_hits + final(self).cache_misses == final(self).done,
            final(self).scan_failures <= final(self).cache_misses,
            final(self).done == old(self).done + 1,
            event == (ScanProgress::Indexing {
                done: final(self).done,
                total: final(self).total,
                cache_hits: final(self).cache_hits,
                cache_misses: final(self).cache_misses,
            }),
    {
        self.done = self.done + 1;
        match outcome {
            InputOutcome::Reused => {
                self.cache_hits = self.cache_hits + 1;
            },
            InputOutcome::Scanned => {
                self.cache_misses = self.cache_misses + 1;
            },
            InputOutcome::Failed => {
                self.cache_misses = self.cache_misses + 1;
                self.scan_failures = self.scan_failures + 1;
            },
        }
        ScanProgress::Indexing {
            done: self.done,
            total: self.total,
            cache_hits: self.cache_hits,
            cache_misses: self.cache_misses,
        }
    }
}

/// What a scan came to.
#[derive(Debug, Clone, Copy, PartialEq, Eq, Structural)]
pub struct ScanStats {
    pub discovered_inputs: usize,
    pub discovery_failures: usize,
    pub cache_hits: usize,
    pub cache_misses: usize,
    pub fingerprint_failures: usize,
    pub scan_failures: usize,
    /// A usable cache exists after the scan, whether it was written or left.
    pub cache_written: bool,
    /// The cache was created or replaced.
    pub cache_updated: bool,
}

impl ScanStats {
    /// How many inputs were skipped.
    pub fn skipped_inputs(self) -> (count: usize)
        requires
            self.discovery_failures + self.fingerprint_failures + self.scan_failures <= usize::MAX,
        ensures
            count == self.discovery_failures + self.fingerprint_failures + self.scan_failures,
    {
        self.discovery_failures + self.fingerprint_failures + self.scan_failures
    }
}

/// What a scan came to. `write` is what came of writing the cache; a cache that
/// can stay is not written.
pub fn scan_stats(plan: &Plan, discovery_failures: usize, tally: ScanTally, unchanged: bool, write:
    bool) -> (stats: ScanStats)
    ensures
        stats == (ScanStats {
            discovered_inputs: plan.discovered,
            discovery_failures,
            cache_hits: tally.cache_hits,
            cache_misses: tally.cache_misses,
            fingerprint_failures: plan.fingerprint_failures,
            scan_failures: tally.scan_failures,
            cache_written: unchanged || write,
            cache_updated: !unchanged && write,
        }),
{
    ScanStats {
        discovered_inputs: plan.discovered,
        discovery_failures,
        cache_hits: tally.cache_hits,
        cache_misses: tally.cache_misses,
        fingerprint_failures: plan.fingerprint_failures,
        scan_failures: tally.scan_failures,
        cache_written: unchanged || write,
        cache_updated: !unchanged && write,
    }
}

// ---------------------------------------------------------------------------
// Laws
// ---------------------------------------------------------------------------
/// Law: the tally counts every outcome.
pub proof fn tally_counts_outcomes(
    tally: ScanTally,
    outcomes: Seq<InputOutcome>,
    total: usize,
    outcome: InputOutcome,
)
    requires
        tally.counts(outcomes, total),
        tally.done < total,
    ensures
        tally.after(outcome).counts(outcomes.push(outcome), total),
{
    assert(outcomes.push(outcome).drop_last() =~= outcomes);
    lemma_count_bound(outcomes, InputOutcome::Reused);
    lemma_count_bound(outcomes, InputOutcome::Failed);
}

proof fn lemma_count_bound(outcomes: Seq<InputOutcome>, outcome: InputOutcome)
    ensures
        count_outcome(outcomes, outcome) <= outcomes.len(),
    decreases outcomes.len(),
{
    if outcomes.len() > 0 {
        lemma_count_bound(outcomes.drop_last(), outcome);
    }
}

/// Law: no input is indexed twice, and every input that is indexed was found
/// with a fingerprint.
pub proof fn planned_inputs_differ(found: Seq<Found>, n: nat, i: int, j: int)
    requires
        n <= found.len(),
        0 <= i < j < planned(found, n).len(),
    ensures
        0 <= planned(found, n)[i] < planned(found, n)[j] < n,
        found[planned(found, n)[i]].key@ != found[planned(found, n)[j]].key@,
        found[planned(found, n)[i]].fingerprint is Some,
        found[planned(found, n)[j]].fingerprint is Some,
    decreases n,
{
    let rest = planned(found, (n - 1) as nat);
    if j < rest.len() {
        planned_inputs_differ(found, (n - 1) as nat, i, j);
    } else {
        lemma_planned_bound(found, (n - 1) as nat, i);
        assert(planned(found, n)[j] == n - 1);
        assert(planned(found, n)[i] == rest[i]);
        assert(found[rest[i]].key@ != found[n - 1].key@);
    }
}

pub proof fn lemma_planned_bound(found: Seq<Found>, n: nat, i: int)
    requires
        n <= found.len(),
        0 <= i < planned(found, n).len(),
    ensures
        0 <= planned(found, n)[i] < n,
        found[planned(found, n)[i]].fingerprint is Some,
    decreases n,
{
    let rest = planned(found, (n - 1) as nat);
    if i < rest.len() {
        lemma_planned_bound(found, (n - 1) as nat, i);
    }
}

/// Law: an input of a base root and of a workspace root counts as base, because
/// base roots come first.
pub proof fn base_roots_win(found: Seq<Found>, n: nat, i: int, j: int)
    requires
        n <= found.len(),
        0 <= i < planned(found, n).len(),
        0 <= j < n,
        found[j].key@ == found[planned(found, n)[i]].key@,
    ensures
        planned(found, n)[i] <= j,
    decreases n,
{
    let rest = planned(found, (n - 1) as nat);
    lemma_planned_bound(found, n, i);
    if i < rest.len() {
        if j < n - 1 {
            base_roots_win(found, (n - 1) as nat, i, j);
        }
    } else {
        assert(is_first(found, n - 1));
    }
}

} // verus!
