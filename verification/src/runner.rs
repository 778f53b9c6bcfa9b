//! Running a scan: which input comes next, what is reused of the index cache, and
//! what the scan comes to.
//!
//! The caller reads and writes files. It asks what to do next, scans an input
//! when told to, and hands back what came of it.

use vstd::prelude::*;
use vstd::string::*;

use crate::scan::{
    accept_cache, assemble, assembled, cache_state, count_first, entry_seqs, file_views,
    holds_input, lemma_planned_bound, manifest_unchanged, plan_inputs, planned,
    planned_inputs_differ, reuse, scan_stats, tally_counts_outcomes, unchanged, CacheLoad, CacheState, Fingerprint, Found,
    IndexCache, InputOutcome, Plan, ScanProgress, ScanStats, ScanTally,
};
use crate::sorting::indices;

verus! {

/// What a scan does next.
#[derive(Debug, Clone, Copy, PartialEq, Eq, Structural)]
pub enum ScanAction {
    /// Scan an input, given by its place among those found.
    Scan(usize),
    /// Report progress.
    Report(ScanProgress),
    /// Nothing: every input is indexed.
    Finished,
}

/// The inputs that a scan indexes, in order.
pub open spec fn inputs_of(found: Seq<Found>) -> Seq<int> {
    planned(found, found.len())
}

/// The files of a cache that was read, as far as it is of use.
pub open spec fn usable_files<E>(load: CacheLoad<E>, schema_hash: u64) -> Map<
    Seq<char>,
    (Fingerprint, Seq<E>),
> {
    match load {
        CacheLoad::Parsed(cache) => if cache.is_current(schema_hash) {
            file_views(cache.files@)
        } else {
            Map::empty()
        },
        _ => Map::empty(),
    }
}

/// How far a tally says a scan has come.
pub open spec fn progress_of(tally: ScanTally) -> ScanProgress {
    ScanProgress::Indexing {
        done: tally.done,
        total: tally.total,
        cache_hits: tally.cache_hits,
        cache_misses: tally.cache_misses,
    }
}

/// A file as the cache is to hold it.
pub struct CacheLine<'a, E> {
    pub key: &'a str,
    pub fingerprint: Fingerprint,
    pub entries: &'a Vec<E>,
}

/// A scan that is under way.
pub struct ScanRun<E> {
    found: Vec<Found>,
    plan: Plan,
    cache: IndexCache<E>,
    held: Ghost<Map<Seq<char>, (Fingerprint, Seq<E>)>>,
    discovery_failures: usize,
    keep: bool,
    results: Vec<Vec<E>>,
    tally: ScanTally,
}

impl<E> ScanRun<E> {
    /// The inputs that were found.
    pub closed spec fn found(&self) -> Seq<Found> {
        self.found@
    }

    /// What the cache held when the scan began.
    pub closed spec fn held(&self) -> Map<Seq<char>, (Fingerprint, Seq<E>)> {
        self.held@
    }

    /// How many inputs could not be reached.
    pub closed spec fn failures(&self) -> usize {
        self.discovery_failures
    }

    /// Whether the cache stays as it is.
    pub closed spec fn keeps(&self) -> bool {
        self.keep
    }

    /// The entries of the inputs that are indexed, in the order of the inputs.
    pub closed spec fn results(&self) -> Seq<Seq<E>> {
        entry_seqs(self.results@)
    }

    /// What was counted.
    pub closed spec fn tally(&self) -> ScanTally {
        self.tally
    }

    /// The input that comes next.
    pub open spec fn current(&self) -> Found {
        self.found()[inputs_of(self.found())[self.results().len() as int]]
    }

    /// Whether every input is indexed.
    pub open spec fn is_complete(&self) -> bool {
        self.results().len() == inputs_of(self.found()).len()
    }

    /// The plan is that of the inputs, as many results are counted as there are,
    /// and the cache still holds what it held for the inputs to come.
    pub closed spec fn wf(&self) -> bool {
        let inputs = inputs_of(self.found@);
        let files = file_views(self.cache.files@);
        &&& self.plan.fits(self.found@)
        &&& self.cache.files.wf()
        &&& self.results.len() <= inputs.len()
        &&& self.tally.done == self.results.len()
        &&& self.tally.total == inputs.len()
        &&& self.tally.cache_hits + self.tally.cache_misses == self.tally.done
        &&& self.tally.scan_failures <= self.tally.cache_misses
        &&& forall|i: int|
            self.results.len() <= i < inputs.len() ==> {
                let input = self.found@[#[trigger] inputs[i]];
                &&& holds_input(files, input) == holds_input(self.held@, input)
                &&& holds_input(files, input) ==> files[input.key@] == self.held@[input.key@]
            }
    }

    /// Begin a scan with the inputs that were found, base roots first, and the
    /// cache that was read.
    pub fn begin(
        found: Vec<Found>,
        load: CacheLoad<E>,
        schema_hash: u64,
        discovery_failures: usize,
    ) -> (run: Self)
        requires
            load matches CacheLoad::Parsed(cache) ==> cache.files.wf(),
        ensures
            run.wf(),
            run.found() == found@,
            run.held() == usable_files(load, schema_hash),
            run.failures() == discovery_failures,
            run.keeps() == unchanged(
                usable_files(load, schema_hash),
                cache_state(load, schema_hash),
                found@,
                discovery_failures,
            ),
            run.results() == Seq::<Seq<E>>::empty(),
            run.tally().counts(Seq::empty(), inputs_of(found@).len() as usize),
    {
        let ghost held = usable_files(load, schema_hash);
        let (cache, state) = accept_cache(load, schema_hash);
        assert(file_views(cache.files@) =~= held);
        let plan = plan_inputs(&found);
        let keep = manifest_unchanged(&cache, state, &found, &plan, discovery_failures);
        assert(indices(plan.inputs@).len() == plan.inputs.len());
        let tally = ScanTally::new(plan.inputs.len());
        let results: Vec<Vec<E>> = Vec::new();
        assert(entry_seqs(results@) =~= Seq::<Seq<E>>::empty());
        ScanRun { found, plan, cache, held: Ghost(held), discovery_failures, keep, results, tally }
    }

    /// What to report of the inputs that were found.
    pub fn discovered(&self) -> (event: ScanProgress)
        requires
            self.wf(),
            self.failures() + count_first(self.found(), self.found().len()) <= usize::MAX,
        ensures
            event == (ScanProgress::InputsDiscovered {
                total: inputs_of(self.found()).len() as usize,
                skipped: (self.failures() + count_first(self.found(), self.found().len())
                    - inputs_of(self.found()).len()) as usize,
            }),
    {
        assert(indices(self.plan.inputs@).len() == self.plan.inputs.len());
        ScanProgress::InputsDiscovered {
            total: self.plan.inputs.len(),
            skipped: self.discovery_failures + self.plan.fingerprint_failures,
        }
    }

    /// Whether the cache can stay as it is.
    pub fn keeps_cache(&self) -> (yes: bool)
        ensures
            yes == self.keeps(),
    {
        self.keep
    }

    /// Note whether the cache that can stay could be marked as used.
    pub fn refreshed(&mut self, marked: bool)
        requires
            old(self).wf(),
        ensures
            final(self).wf(),
            final(self).found() == old(self).found(),
            final(self).held() == old(self).held(),
            final(self).failures() == old(self).failures(),
            final(self).keeps() == (old(self).keeps() && marked),
            final(self).results() == old(self).results(),
            final(self).tally() == old(self).tally(),
    {
        self.keep = self.keep && marked;
    }

    /// What to do next. An input that the cache holds as it is now is reused; any
    /// other is to be scanned.
    pub fn next(&mut self) -> (action: ScanAction)
        requires
            old(self).wf(),
        ensures
            final(self).wf(),
            final(self).found() == old(self).found(),
            final(self).held() == old(self).held(),
            final(self).failures() == old(self).failures(),
            final(self).keeps() == old(self).keeps(),
            ({
                let input = old(self).current();
                if old(self).is_complete() {
                    &&& action == ScanAction::Finished
                    &&& final(self).results() == old(self).results()
                    &&& final(self).tally() == old(self).tally()
                } else if holds_input(old(self).held(), input) {
                    &&& action == ScanAction::Report(progress_of(final(self).tally()))
                    &&& final(self).results() == old(self).results().push(
                        old(self).held()[input.key@].1,
                    )
                    &&& final(self).tally() == old(self).tally().after(InputOutcome::Reused)
                } else {
                    &&& action matches ScanAction::Scan(at) && at == inputs_of(
                        old(self).found(),
                    )[old(self).results().len() as int]
                    &&& final(self).results() == old(self).results()
                    &&& final(self).tally() == old(self).tally()
                }
            }),
    {
        let ghost inputs = inputs_of(self.found@);
        let ghost files = file_views(self.cache.files@);
        let ghost before = entry_seqs(self.results@);
        let i = self.results.len();
        assert(indices(self.plan.inputs@).len() == self.plan.inputs.len());
        if i >= self.plan.inputs.len() {
            return ScanAction::Finished;
        }
        let at = self.plan.inputs[i];
        proof {
            assert(indices(self.plan.inputs@)[i as int] == at);
            lemma_planned_bound(self.found@, self.found@.len(), i as int);
        }
        let reused = reuse(&mut self.cache, &self.found[at]);
        proof {
            let after = file_views(self.cache.files@);
            let key = self.found@[at as int].key@;
            assert(after =~= files.remove(key));
            assert forall|j: int| i < j < inputs.len() implies {
                let input = self.found@[#[trigger] inputs[j]];
                &&& holds_input(after, input) == holds_input(self.held@, input)
                &&& holds_input(after, input) ==> after[input.key@] == self.held@[input.key@]
            } by {
                planned_inputs_differ(self.found@, self.found@.len(), i as int, j);
                let input = self.found@[inputs[j]];
                assert(holds_input(files, input) == holds_input(self.held@, input));
            }
            assert(holds_input(files, self.found@[inputs[i as int]]) == holds_input(
                self.held@,
                self.found@[inputs[i as int]],
            ));
        }
        match reused {
            Some(entries) => {
                let ghost view = entries@;
                self.results.push(entries);
                assert(entry_seqs(self.results@) =~= before.push(view));
                ScanAction::Report(self.tally.record(InputOutcome::Reused))
            },
            None => ScanAction::Scan(at),
        }
    }

    /// Take in what came of scanning the input that comes next: its entries, or
    /// none if it could not be scanned.
    pub fn scanned(&mut self, outcome: Option<Vec<E>>) -> (event: ScanProgress)
        requires
            old(self).wf(),
            !old(self).is_complete(),
            !holds_input(old(self).held(), old(self).current()),
        ensures
            final(self).wf(),
            final(self).found() == old(self).found(),
            final(self).held() == old(self).held(),
            final(self).failures() == old(self).failures(),
            final(self).keeps() == old(self).keeps(),
            final(self).results() == old(self).results().push(
                match outcome {
                    Some(entries) => entries@,
                    None => Seq::empty(),
                },
            ),
            final(self).tally() == old(self).tally().after(
                match outcome {
                    Some(_) => InputOutcome::Scanned,
                    None => InputOutcome::Failed,
                },
            ),
            event == progress_of(final(self).tally()),
    {
        let ghost before = entry_seqs(self.results@);
        match outcome {
            Some(entries) => {
                let ghost view = entries@;
                self.results.push(entries);
                assert(entry_seqs(self.results@) =~= before.push(view));
                self.tally.record(InputOutcome::Scanned)
            },
            None => {
                let none: Vec<E> = Vec::new();
                self.results.push(none);
                assert(entry_seqs(self.results@) =~= before.push(Seq::empty()));
                self.tally.record(InputOutcome::Failed)
            },
        }
    }

    /// What the cache is to hold from now on: every input as it is now, with its
    /// entries.
    pub fn cache_lines(&self) -> (out: Vec<CacheLine<'_, E>>)
        requires
            self.wf(),
            self.is_complete(),
        ensures
            out.len() == inputs_of(self.found()).len(),
            forall|i: int|
                0 <= i < out.len() ==> {
                    let input = self.found()[inputs_of(self.found())[i]];
                    &&& (#[trigger] out[i]).key@ == input.key@
                    &&& Some(out[i].fingerprint) == input.fingerprint
                    &&& out[i].entries@ == self.results()[i]
                },
    {
        let ghost inputs = inputs_of(self.found@);
        assert(indices(self.plan.inputs@).len() == self.plan.inputs.len());
        let mut out: Vec<CacheLine<'_, E>> = Vec::new();
        let mut i: usize = 0;
        while i < self.plan.inputs.len()
            invariant
                i <= self.plan.inputs.len(),
                self.wf(),
                self.is_complete(),
                inputs == inputs_of(self.found@),
                inputs.len() == self.plan.inputs.len(),
                out.len() == i,
                forall|j: int|
                    0 <= j < i ==> {
                        let input = self.found@[inputs[j]];
                        &&& (#[trigger] out[j]).key@ == input.key@
                        &&& Some(out[j].fingerprint) == input.fingerprint
                        &&& out[j].entries@ == entry_seqs(self.results@)[j]
                    },
            decreases self.plan.inputs.len() - i,
        {
            let at = self.plan.inputs[i];
            proof {
                assert(indices(self.plan.inputs@)[i as int] == at);
                lemma_planned_bound(self.found@, self.found@.len(), i as int);
                assert(entry_seqs(self.results@)[i as int] == self.results@[i as int]@);
            }
            let input = &self.found[at];
            if let Some(fingerprint) = input.fingerprint {
                out.push(
                    CacheLine { key: input.key.as_str(), fingerprint, entries: &self.results[i] },
                );
            }
            i += 1;
        }
        out
    }

    /// What the scan came to: the entries of all inputs in order, each marked with
    /// whether its input is base, and the counts. `written` is what came of
    /// writing the cache.
    pub fn finish(self, written: bool) -> (out: (Vec<(bool, E)>, ScanStats))
        requires
            self.wf(),
            self.is_complete(),
        ensures
            out.0@ == assembled(self.found(), inputs_of(self.found()), self.results()),
            out.1 == (ScanStats {
                discovered_inputs: count_first(self.found(), self.found().len()) as usize,
                discovery_failures: self.failures(),
                cache_hits: self.tally().cache_hits,
                cache_misses: self.tally().cache_misses,
                fingerprint_failures: (count_first(self.found(), self.found().len()) - inputs_of(
                    self.found(),
                ).len()) as usize,
                scan_failures: self.tally().scan_failures,
                cache_written: self.keeps() || written,
                cache_updated: !self.keeps() && written,
            }),
    {
        assert(indices(self.plan.inputs@).len() == self.plan.inputs.len());
        let stats = scan_stats(
            &self.plan,
            self.discovery_failures,
            self.tally,
            self.keep,
            written,
        );
        assert forall|i: int| 0 <= i < self.plan.inputs.len() implies #[trigger] self.plan.inputs[i]
            < self.found.len() by {
            assert(indices(self.plan.inputs@)[i] == self.plan.inputs@[i]);
            lemma_planned_bound(self.found@, self.found@.len(), i);
        }
        (assemble(&self.found, &self.plan, self.results), stats)
    }
}

// ---------------------------------------------------------------------------
// Laws
// ---------------------------------------------------------------------------
/// The entries of the inputs of a scan, given what the cache holds and what
/// scanning each input gives.
pub open spec fn entries_of<E>(
    found: Seq<Found>,
    inputs: Seq<int>,
    held: Map<Seq<char>, (Fingerprint, Seq<E>)>,
    scan: spec_fn(int) -> Option<Seq<E>>,
) -> Seq<Seq<E>> {
    Seq::new(
        inputs.len(),
        |i: int|
            {
                let input = found[inputs[i]];
                if holds_input(held, input) {
                    held[input.key@].1
                } else {
                    match scan(inputs[i]) {
                        Some(entries) => entries,
                        None => Seq::empty(),
                    }
                }
            },
    )
}

/// What the cache holds after a scan.
pub open spec fn files_after<E>(found: Seq<Found>, inputs: Seq<int>, results: Seq<Seq<E>>) -> Map<
    Seq<char>,
    (Fingerprint, Seq<E>),
>
    decreases inputs.len(),
{
    if inputs.len() == 0 {
        Map::empty()
    } else {
        let last = found[inputs.last()];
        files_after(found, inputs.drop_last(), results).insert(
            last.key@,
            (last.fingerprint->0, results[inputs.len() - 1]),
        )
    }
}

/// The cache holds of every unchanged input what scanning it gives.
pub open spec fn holds_scans<E>(
    found: Seq<Found>,
    held: Map<Seq<char>, (Fingerprint, Seq<E>)>,
    scan: spec_fn(int) -> Option<Seq<E>>,
) -> bool {
    forall|i: int|
        0 <= i < found.len() && holds_input(held, #[trigger] found[i]) ==> scan(i) == Some(
            held[found[i].key@].1,
        )
}

/// Law: the cache does not show. Where it holds what scanning would give, a scan
/// that uses it gives the entries of one without a cache.
pub proof fn cached_scan_matches_fresh_scan<E>(
    found: Seq<Found>,
    held: Map<Seq<char>, (Fingerprint, Seq<E>)>,
    scan: spec_fn(int) -> Option<Seq<E>>,
)
    requires
        holds_scans(found, held, scan),
    ensures
        entries_of(found, inputs_of(found), held, scan) == entries_of(
            found,
            inputs_of(found),
            Map::empty(),
            scan,
        ),
{
    let inputs = inputs_of(found);
    let warm = entries_of(found, inputs, held, scan);
    let cold = entries_of(found, inputs, Map::empty(), scan);
    assert forall|i: int| 0 <= i < inputs.len() implies warm[i] == cold[i] by {
        lemma_planned_bound(found, found.len(), i);
    }
    assert(warm =~= cold);
}

proof fn lemma_files_after<E>(found: Seq<Found>, n: nat, results: Seq<Seq<E>>, i: int)
    requires
        n <= found.len(),
        0 <= i < planned(found, n).len(),
    ensures
        ({
            let files = files_after(found, planned(found, n), results);
            let input = found[planned(found, n)[i]];
            holds_input(files, input) && files[input.key@].1 == results[i]
        }),
    decreases n,
{
    let inputs = planned(found, n);
    let rest = planned(found, (n - 1) as nat);
    lemma_planned_bound(found, n, i);
    if is_last_planned(found, n) {
        assert(inputs.drop_last() =~= rest);
        if i < rest.len() {
            lemma_files_after(found, (n - 1) as nat, results, i);
            planned_inputs_differ(found, n, i, rest.len() as int);
        }
    } else {
        lemma_files_after(found, (n - 1) as nat, results, i);
    }
}

spec fn is_last_planned(found: Seq<Found>, n: nat) -> bool {
    planned(found, n) != planned(found, (n - 1) as nat)
}

proof fn lemma_files_count<E>(found: Seq<Found>, n: nat, results: Seq<Seq<E>>)
    requires
        n <= found.len(),
    ensures
        ({
            let files = files_after(found, planned(found, n), results);
            &&& files.dom().finite()
            &&& files.dom().len() == planned(found, n).len()
            &&& forall|key: Seq<char>| #[trigger]
                files.dom().contains(key) ==> exists|j: int|
                    0 <= j < n && (#[trigger] found[j]).key@ == key
        }),
    decreases n,
{
    if n > 0 {
        let inputs = planned(found, n);
        let rest = planned(found, (n - 1) as nat);
        lemma_files_count(found, (n - 1) as nat, results);
        let files = files_after(found, inputs, results);
        let earlier = files_after(found, rest, results);
        if is_last_planned(found, n) {
            assert(inputs.drop_last() =~= rest);
            let key = found[n - 1].key@;
            if earlier.dom().contains(key) {
                let j = choose|j: int| 0 <= j < n - 1 && (#[trigger] found[j]).key@ == key;
                assert(found[j].key@ == found[n - 1].key@);
            }
            assert(files.dom() =~= earlier.dom().insert(key));
            assert forall|k: Seq<char>| #[trigger] files.dom().contains(k) implies exists|j: int|
                0 <= j < n && (#[trigger] found[j]).key@ == k by {
                if earlier.dom().contains(k) {
                    let j = choose|j: int| 0 <= j < n - 1 && (#[trigger] found[j]).key@ == k;
                    assert(found[j].key@ == k);
                } else {
                    assert(found[n - 1].key@ == k);
                }
            }
        } else {
            assert forall|k: Seq<char>| #[trigger] files.dom().contains(k) implies exists|j: int|
                0 <= j < n && (#[trigger] found[j]).key@ == k by {
                let j = choose|j: int| 0 <= j < n - 1 && (#[trigger] found[j]).key@ == k;
                assert(found[j].key@ == k);
            }
        }
    }
}

/// Law: the cache that a scan leaves stays as it is. If the inputs have not
/// changed, were all reached and all have fingerprints, the next scan reuses
/// every entry and writes nothing.
pub proof fn unchanged_inputs_keep_the_cache<E>(
    found: Seq<Found>,
    results: Seq<Seq<E>>,
    scan: spec_fn(int) -> Option<Seq<E>>,
)
    requires
        results.len() == inputs_of(found).len(),
        count_first(found, found.len()) == inputs_of(found).len(),
    ensures
        ({
            let files = files_after(found, inputs_of(found), results);
            &&& unchanged(files, CacheState::Valid, found, 0)
            &&& entries_of(found, inputs_of(found), files, scan) == results
        }),
{
    let inputs = inputs_of(found);
    let files = files_after(found, inputs, results);
    lemma_files_count(found, found.len(), results);
    assert forall|i: int| 0 <= i < inputs.len() implies holds_input(
        files,
        found[#[trigger] inputs[i]],
    ) by {
        lemma_files_after(found, found.len(), results, i);
    }
    let again = entries_of(found, inputs, files, scan);
    assert forall|i: int| 0 <= i < inputs.len() implies again[i] == results[i] by {
        lemma_files_after(found, found.len(), results, i);
        assert(holds_input(files, found[inputs[i]]));
    }
    assert(again =~= results);
}

/// What comes of indexing the input that is next: the cache holds it, or it is
/// scanned.
pub open spec fn next_outcome<E>(run: ScanRun<E>, scan: spec_fn(int) -> Option<Seq<E>>) -> InputOutcome {
    if holds_input(run.held(), run.current()) {
        InputOutcome::Reused
    } else if scan(inputs_of(run.found())[run.results().len() as int]) is Some {
        InputOutcome::Scanned
    } else {
        InputOutcome::Failed
    }
}

/// The entries of the input that is next.
pub open spec fn next_entries<E>(run: ScanRun<E>, scan: spec_fn(int) -> Option<Seq<E>>) -> Seq<E> {
    if holds_input(run.held(), run.current()) {
        run.held()[run.current().key@].1
    } else {
        match scan(inputs_of(run.found())[run.results().len() as int]) {
            Some(entries) => entries,
            None => Seq::empty(),
        }
    }
}

/// One more input is indexed and `report` is made, either by [`ScanRun::next`], or
/// by [`ScanRun::next`] and then [`ScanRun::scanned`] with what `scan` gives.
pub open spec fn advances<E>(
    before: ScanRun<E>,
    after: ScanRun<E>,
    scan: spec_fn(int) -> Option<Seq<E>>,
    report: ScanProgress,
) -> bool {
    &&& !before.is_complete()
    &&& after.found() == before.found()
    &&& after.held() == before.held()
    &&& after.results() == before.results().push(next_entries(before, scan))
    &&& after.tally() == before.tally().after(next_outcome(before, scan))
    &&& report == progress_of(after.tally())
}

/// A scan from its beginning, as far as it has come: what it was after each input,
/// and what was reported.
pub open spec fn scan_history<E>(
    runs: Seq<ScanRun<E>>,
    reports: Seq<ScanProgress>,
    scan: spec_fn(int) -> Option<Seq<E>>,
) -> bool {
    &&& runs.len() == reports.len() + 1
    &&& runs[0].results() == Seq::<Seq<E>>::empty()
    &&& runs[0].tally().counts(Seq::empty(), inputs_of(runs[0].found()).len() as usize)
    &&& inputs_of(runs[0].found()).len() <= usize::MAX
    &&& forall|k: int|
        0 <= k < reports.len() ==> #[trigger] advances(runs[k], runs[k + 1], scan, reports[k])
}

proof fn lemma_history<E>(
    runs: Seq<ScanRun<E>>,
    reports: Seq<ScanProgress>,
    scan: spec_fn(int) -> Option<Seq<E>>,
    k: int,
) -> (outcomes: Seq<InputOutcome>)
    requires
        scan_history(runs, reports, scan),
        0 <= k < runs.len(),
    ensures
        ({
            let (found, held) = (runs[0].found(), runs[0].held());
            let inputs = inputs_of(found);
            &&& runs[k].found() == found
            &&& runs[k].held() == held
            &&& k <= inputs.len()
            &&& runs[k].results() == entries_of(found, inputs, held, scan).take(k)
            &&& outcomes.len() == k
            &&& runs[k].tally().counts(outcomes, inputs.len() as usize)
        }),
    decreases k,
{
    let (found, held) = (runs[0].found(), runs[0].held());
    let inputs = inputs_of(found);
    let all = entries_of(found, inputs, held, scan);
    if k == 0 {
        assert(all.take(0) =~= runs[0].results());
        Seq::empty()
    } else {
        let earlier = lemma_history(runs, reports, scan, k - 1);
        let before = runs[k - 1];
        assert(advances(before, runs[k - 1 + 1], scan, reports[k - 1]));
        let outcome = next_outcome(before, scan);
        assert(before.results().len() == k - 1);
        tally_counts_outcomes(before.tally(), earlier, inputs.len() as usize, outcome);
        assert(all[k - 1] == next_entries(before, scan));
        assert(runs[k].results() =~= all.take(k));
        earlier.push(outcome)
    }
}

/// Law: a scan that has come to its end has the entries of every input, in the
/// order of the inputs, each marked with whether its input is base; where the cache
/// holds what scanning would give, these are the entries that scanning each input
/// gives, whatever was reused. There is one report for each input, the k-th of
/// which says that k inputs are done, and every input is a hit or a miss.
pub proof fn scans_index_every_input_in_order<E>(
    runs: Seq<ScanRun<E>>,
    reports: Seq<ScanProgress>,
    scan: spec_fn(int) -> Option<Seq<E>>,
)
    requires
        scan_history(runs, reports, scan),
        runs.last().is_complete(),
    ensures
        ({
            let (found, held) = (runs[0].found(), runs[0].held());
            let inputs = inputs_of(found);
            let done = runs.last();
            &&& done.found() == found
            &&& done.results() == entries_of(found, inputs, held, scan)
            &&& holds_scans(found, held, scan) ==> assembled(found, inputs, done.results())
                == assembled(found, inputs, entries_of(found, inputs, Map::empty(), scan))
            &&& done.tally().cache_hits + done.tally().cache_misses == inputs.len()
            &&& reports.len() == inputs.len()
            &&& forall|k: int|
                0 <= k < reports.len() ==> (#[trigger] reports[k] matches ScanProgress::Indexing {
                    done,
                    total,
                    ..
                } && done == k + 1 && total == inputs.len())
        }),
{
    let (found, held) = (runs[0].found(), runs[0].held());
    let inputs = inputs_of(found);
    let all = entries_of(found, inputs, held, scan);
    let n = runs.len() - 1;
    let _ = lemma_history(runs, reports, scan, n);
    assert(runs.last() == runs[n]);
    assert(all.take(n).len() == n);
    assert(all.take(inputs.len() as int) =~= all);
    if holds_scans(found, held, scan) {
        cached_scan_matches_fresh_scan(found, held, scan);
    }
    assert forall|k: int| 0 <= k < reports.len() implies (#[trigger] reports[k] matches
        ScanProgress::Indexing { done, total, .. } && done == k + 1 && total == inputs.len()) by {
        let _ = lemma_history(runs, reports, scan, k + 1);
        assert(advances(runs[k], runs[k + 1], scan, reports[k]));
    }
}

} // verus!
