//! The pitfall scoreboard: per-pitfall aggregation of regression-case outcomes and
//! the generated Markdown blocks (checklist, blocker table, coverage tables, status
//! report) that are spliced between `<!-- BEGIN/END GENERATED -->` markers.
use vstd::prelude::*;
use std::path::PathBuf;
use crate::corpus::CaseOutcome;
use crate::taxonomy::{
    Pitfall, RootCause, all_pitfalls, lemma_all_pitfalls_exactly_once, pitfall_index, pitfall_slug,
    root_cause_slug, spec_all_pitfalls, spec_pitfall_index, spec_pitfall_slug, spec_root_cause_slug,
};
use crate::text::{
    chars_eq, chars_eq_str, chars_of, decimal, join, push_joined, decimal_string, find, first_occurrence,
    lemma_first_occurrence_unique, occurs_at, push_chars, push_str, string_from_chars, string_from_str,
    sub_chars, trim_end, trim_end_chars, has_prefix,
};

verus! {

/// Errors returned while loading the registry or splicing generated blocks.
#[allow(inconsistent_fields)]
#[derive(Debug)]
pub enum ScoreboardError {
    /// Failed to read the registry file from disk.
    Io {
        /// The path that failed to read.
        path: PathBuf,
        /// The underlying I/O error.
        source: std::io::Error,
    },
    /// Failed to parse the registry file as JSON.
    Json {
        /// The path that failed to parse.
        path: PathBuf,
        /// The underlying JSON error.
        source: serde_json::Error,
    },
    /// A registry key didn't match any known pitfall slug.
    UnknownPitfall(String),
    /// A `<!-- BEGIN/END GENERATED: name -->` marker was not found.
    MissingMarker {
        /// The generated-block name that was being spliced.
        name: String,
        /// Which half of the pair (`"BEGIN"` or `"END"`) was missing.
        which: &'static str,
    },
    /// The end marker appears before its begin marker.
    MarkerOrder(String),
}

/// One pitfall's outcomes, aggregated from every non-draft case tagged with it.
#[derive(Debug, Clone)]
pub struct PitfallScore {
    /// The pitfall this score is for.
    pub pitfall: Pitfall,
    /// The root cause tagged on this pitfall's cases (taken from the first case).
    pub root_cause: RootCause,
    /// Every non-draft case's outcome, in corpus load order.
    pub cases: Vec<CaseOutcome>,
    /// Number of `cases` entries with `passed: true`.
    pub passing: usize,
    /// `cases.len()`.
    pub total: usize,
}

/// The full corpus scoreboard: every pitfall's aggregated outcome plus global totals.
#[derive(Debug, Clone)]
pub struct Scoreboard {
    /// One entry per pitfall, in checklist order.
    pub pitfalls: Vec<PitfallScore>,
    /// Sum of every [`PitfallScore::passing`].
    pub passing: usize,
    /// Sum of every [`PitfallScore::total`].
    pub total: usize,
}

/// The facts about one regression case that the scoreboard reads.
#[derive(Debug, Clone, Copy, PartialEq, Eq, Structural)]
pub struct CaseTag {
    /// The pitfall the case is tagged with.
    pub pitfall: Pitfall,
    /// The root cause the case is tagged with.
    pub root_cause: RootCause,
    /// `true` for a mined draft, whose expectation is a snapshot of current behavior.
    pub draft: bool,
    /// `true` if the case is a frozen extraction of a real source PDF.
    pub pdf_backed: bool,
}

/// A case counts toward pitfall `p`'s score when it is tagged `p` and is no draft.
pub open spec fn counts_toward(c: CaseTag, p: Pitfall) -> bool {
    !c.draft && c.pitfall == p
}

/// The outcomes of the cases that count toward `p`, in corpus order (`outcomes[i]`
/// belongs to `cases[i]`).
pub open spec fn pitfall_outcomes(cases: Seq<CaseTag>, outcomes: Seq<CaseOutcome>, p: Pitfall) -> Seq<CaseOutcome>
    decreases cases.len(),
{
    if cases.len() == 0 {
        Seq::empty()
    } else {
        let rest = pitfall_outcomes(cases.drop_last(), outcomes.drop_last(), p);
        if counts_toward(cases.last(), p) {
            rest.push(outcomes.last())
        } else {
            rest
        }
    }
}

/// The root cause of the first case that counts toward `p`, if any.
pub open spec fn first_root_cause(cases: Seq<CaseTag>, p: Pitfall) -> Option<RootCause>
    decreases cases.len(),
{
    if cases.len() == 0 {
        None
    } else {
        match first_root_cause(cases.drop_last(), p) {
            Some(r) => Some(r),
            None => if counts_toward(cases.last(), p) {
                Some(cases.last().root_cause)
            } else {
                None
            },
        }
    }
}

/// The number of passing outcomes.
pub open spec fn count_passing(os: Seq<CaseOutcome>) -> nat
    decreases os.len(),
{
    if os.len() == 0 {
        0
    } else {
        count_passing(os.drop_last()) + if os.last().passed { 1nat } else { 0nat }
    }
}

/// The number of non-draft cases.
pub open spec fn count_non_draft(cases: Seq<CaseTag>) -> nat
    decreases cases.len(),
{
    if cases.len() == 0 {
        0
    } else {
        count_non_draft(cases.drop_last()) + if cases.last().draft { 0nat } else { 1nat }
    }
}

/// The number of non-draft cases whose outcome passed.
pub open spec fn count_non_draft_passing(cases: Seq<CaseTag>, outcomes: Seq<CaseOutcome>) -> nat
    decreases cases.len(),
{
    if cases.len() == 0 {
        0
    } else {
        count_non_draft_passing(cases.drop_last(), outcomes.drop_last())
            + if !cases.last().draft && outcomes.last().passed { 1nat } else { 0nat }
    }
}

/// `s` is pitfall `p`'s score over the corpus.
pub open spec fn is_pitfall_score(s: PitfallScore, cases: Seq<CaseTag>, outcomes: Seq<CaseOutcome>, p: Pitfall) -> bool {
    &&& s.pitfall == p
    &&& s.cases@ == pitfall_outcomes(cases, outcomes, p)
    &&& s.root_cause == match first_root_cause(cases, p) {
        Some(r) => r,
        None => RootCause::Geometric,
    }
    &&& s.passing == count_passing(s.cases@)
    &&& s.total == s.cases@.len()
}

/// The sum of the scores' passing counts.
pub open spec fn sum_passing(ps: Seq<PitfallScore>) -> nat
    decreases ps.len(),
{
    if ps.len() == 0 {
        0
    } else {
        sum_passing(ps.drop_last()) + ps.last().passing as nat
    }
}

/// The sum of the scores' totals.
pub open spec fn sum_total(ps: Seq<PitfallScore>) -> nat
    decreases ps.len(),
{
    if ps.len() == 0 {
        0
    } else {
        sum_total(ps.drop_last()) + ps.last().total as nat
    }
}

/// The number of cases counting toward the pitfalls `ps`, summed over `ps`.
pub open spec fn total_over(cases: Seq<CaseTag>, outcomes: Seq<CaseOutcome>, ps: Seq<Pitfall>) -> nat
    decreases ps.len(),
{
    if ps.len() == 0 {
        0
    } else {
        total_over(cases, outcomes, ps.drop_last()) + pitfall_outcomes(cases, outcomes, ps.last()).len()
    }
}

/// The number of passing cases counting toward the pitfalls `ps`, summed over `ps`.
pub open spec fn passing_over(cases: Seq<CaseTag>, outcomes: Seq<CaseOutcome>, ps: Seq<Pitfall>) -> nat
    decreases ps.len(),
{
    if ps.len() == 0 {
        0
    } else {
        passing_over(cases, outcomes, ps.drop_last()) + count_passing(pitfall_outcomes(cases, outcomes, ps.last()))
    }
}

proof fn lemma_count_passing_le(os: Seq<CaseOutcome>)
    ensures
        count_passing(os) <= os.len(),
    decreases os.len(),
{
    if os.len() > 0 {
        lemma_count_passing_le(os.drop_last());
    }
}

proof fn lemma_non_draft_bounds(cases: Seq<CaseTag>, outcomes: Seq<CaseOutcome>)
    ensures
        count_non_draft_passing(cases, outcomes) <= count_non_draft(cases),
        count_non_draft(cases) <= cases.len(),
    decreases cases.len(),
{
    if cases.len() > 0 {
        lemma_non_draft_bounds(cases.drop_last(), outcomes.drop_last());
    }
}

proof fn lemma_total_over_prefix(cases: Seq<CaseTag>, outcomes: Seq<CaseOutcome>, ps: Seq<Pitfall>, k: int)
    requires
        0 <= k <= ps.len(),
    ensures
        total_over(cases, outcomes, ps.take(k)) <= total_over(cases, outcomes, ps),
        passing_over(cases, outcomes, ps.take(k)) <= passing_over(cases, outcomes, ps),
    decreases ps.len(),
{
    if k < ps.len() {
        assert(ps.drop_last().take(k) =~= ps.take(k));
        lemma_total_over_prefix(cases, outcomes, ps.drop_last(), k);
    } else {
        assert(ps.take(k) =~= ps);
    }
}

/// Adding one case changes each pitfall's sums only through that case: by one for the
/// pitfall it counts toward when that pitfall is listed in `ps` (once).
proof fn lemma_over_push(cases: Seq<CaseTag>, outcomes: Seq<CaseOutcome>, c: CaseTag, o: CaseOutcome, ps: Seq<Pitfall>)
    requires
        cases.len() == outcomes.len(),
        forall|i: int, j: int| 0 <= i < j < ps.len() ==> ps[i] != ps[j],
    ensures
        total_over(cases.push(c), outcomes.push(o), ps)
            == total_over(cases, outcomes, ps) + if !c.draft && ps.contains(c.pitfall) { 1nat } else { 0nat },
        passing_over(cases.push(c), outcomes.push(o), ps)
            == passing_over(cases, outcomes, ps) + if !c.draft && o.passed && ps.contains(c.pitfall) { 1nat } else { 0nat },
    decreases ps.len(),
{
    if ps.len() > 0 {
        let q = ps.last();
        lemma_over_push(cases, outcomes, c, o, ps.drop_last());
        assert(cases.push(c).drop_last() =~= cases);
        assert(outcomes.push(o).drop_last() =~= outcomes);
        let before = pitfall_outcomes(cases, outcomes, q);
        let after = pitfall_outcomes(cases.push(c), outcomes.push(o), q);
        if counts_toward(c, q) {
            assert(after == before.push(o));
            assert(after.drop_last() =~= before);
            assert(!ps.drop_last().contains(c.pitfall)) by {
                if ps.drop_last().contains(c.pitfall) {
                    let i = choose|i: int| 0 <= i < ps.drop_last().len() && ps.drop_last()[i] == c.pitfall;
                    assert(ps[i] == ps[ps.len() - 1]);
                }
            }
        } else {
            assert(after == before);
        }
        assert(ps.contains(c.pitfall) <==> (ps.drop_last().contains(c.pitfall) || q == c.pitfall)) by {
            if ps.contains(c.pitfall) {
                let i = choose|i: int| 0 <= i < ps.len() && ps[i] == c.pitfall;
                if i < ps.len() - 1 {
                    assert(ps.drop_last()[i] == c.pitfall);
                }
            }
            if ps.drop_last().contains(c.pitfall) {
                let i = choose|i: int| 0 <= i < ps.drop_last().len() && ps.drop_last()[i] == c.pitfall;
                assert(ps[i] == c.pitfall);
            }
            if q == c.pitfall {
                assert(ps[ps.len() - 1] == c.pitfall);
            }
        }
    }
}

/// Summed over the whole checklist, the per-pitfall totals count every non-draft case
/// once, and the per-pitfall passing counts count every passing non-draft case once.
proof fn lemma_over_all(cases: Seq<CaseTag>, outcomes: Seq<CaseOutcome>)
    requires
        cases.len() == outcomes.len(),
    ensures
        total_over(cases, outcomes, spec_all_pitfalls()) == count_non_draft(cases),
        passing_over(cases, outcomes, spec_all_pitfalls()) == count_non_draft_passing(cases, outcomes),
    decreases cases.len(),
{
    let all = spec_all_pitfalls();
    if cases.len() == 0 {
        assert forall|ps: Seq<Pitfall>| ps.len() <= all.len() implies #[trigger] total_over(cases, outcomes, ps) == 0
            && passing_over(cases, outcomes, ps) == 0 by {
            lemma_over_empty(cases, outcomes, ps);
        }
    } else {
        let c = cases.last();
        let o = outcomes.last();
        lemma_over_all(cases.drop_last(), outcomes.drop_last());
        assert(cases.drop_last().push(c) =~= cases);
        assert(outcomes.drop_last().push(o) =~= outcomes);
        assert forall|i: int, j: int| 0 <= i < j < all.len() implies all[i] != all[j] by {
            lemma_all_pitfalls_exactly_once(all[j]);
        }
        lemma_over_push(cases.drop_last(), outcomes.drop_last(), c, o, all);
        lemma_all_pitfalls_exactly_once(c.pitfall);
        assert(all.contains(c.pitfall));
    }
}

proof fn lemma_over_empty(cases: Seq<CaseTag>, outcomes: Seq<CaseOutcome>, ps: Seq<Pitfall>)
    requires
        cases.len() == 0,
    ensures
        total_over(cases, outcomes, ps) == 0,
        passing_over(cases, outcomes, ps) == 0,
    decreases ps.len(),
{
    if ps.len() > 0 {
        lemma_over_empty(cases, outcomes, ps.drop_last());
    }
}

/// Aggregates the corpus by pitfall, in checklist order: `outcomes[i]` is the outcome of
/// `cases[i]`, and draft cases are left out (their expectation is a snapshot of current
/// behavior, so they would pass trivially). A pitfall with no non-draft case still gets
/// a score, with `total: 0` and the placeholder root cause `Geometric`.
pub fn score_corpus(cases: &[CaseTag], outcomes: Vec<CaseOutcome>) -> (board: Scoreboard)
    requires
        outcomes@.len() == cases@.len(),
    ensures
        board.pitfalls@.len() == spec_all_pitfalls().len(),
        forall|k: int| 0 <= k < board.pitfalls@.len()
            ==> is_pitfall_score(#[trigger] board.pitfalls@[k], cases@, outcomes@, spec_all_pitfalls()[k]),
        board.passing == sum_passing(board.pitfalls@),
        board.total == sum_total(board.pitfalls@),
        board.total == count_non_draft(cases@),
        board.passing == count_non_draft_passing(cases@, outcomes@),
        board.passing <= board.total,
{
    let ghost all = spec_all_pitfalls();
    let ghost orig = outcomes@;
    let pitfalls_in_order = all_pitfalls();
    let mut buckets: Vec<Vec<CaseOutcome>> = Vec::new();
    let mut roots: Vec<Option<RootCause>> = Vec::new();
    let mut k: usize = 0;
    while k < pitfalls_in_order.len()
        invariant
            pitfalls_in_order@ == all,
            k <= all.len(),
            buckets@.len() == k,
            roots@.len() == k,
            forall|j: int| 0 <= j < k ==> (#[trigger] buckets@[j])@ == Seq::<CaseOutcome>::empty(),
            forall|j: int| 0 <= j < k ==> (#[trigger] roots@[j]) is None,
        decreases all.len() - k,
    {
        buckets.push(Vec::new());
        roots.push(None);
        k = k + 1;
    }
    let mut rest = outcomes;
    let mut i: usize = 0;
    while i < cases.len()
        invariant
            all == spec_all_pitfalls(),
            i <= cases@.len(),
            orig.len() == cases@.len(),
            rest@ == orig.skip(i as int),
            buckets@.len() == all.len(),
            roots@.len() == all.len(),
            forall|j: int| 0 <= j < all.len()
                ==> (#[trigger] buckets@[j])@ == pitfall_outcomes(cases@.take(i as int), orig.take(i as int), all[j]),
            forall|j: int| 0 <= j < all.len()
                ==> #[trigger] roots@[j] == first_root_cause(cases@.take(i as int), all[j]),
        decreases cases@.len() - i,
    {
        let ghost before_b = buckets@;
        let ghost before_r = roots@;
        assert(rest@[0] == orig[i as int]);
        let o = rest.remove(0);
        assert(rest@ =~= orig.skip(i + 1));
        let c = cases[i];
        proof {
            assert(cases@.take(i + 1).drop_last() =~= cases@.take(i as int));
            assert(orig.take(i + 1).drop_last() =~= orig.take(i as int));
            assert(cases@.take(i + 1).last() == c);
            assert(orig.take(i + 1).last() == o);
        }
        if !c.draft {
            let idx = pitfall_index(c.pitfall);
            proof {
                lemma_all_pitfalls_exactly_once(c.pitfall);
            }
            let mut bucket = Vec::new();
            std::mem::swap(&mut bucket, &mut buckets[idx]);
            bucket.push(o);
            buckets.set(idx, bucket);
            if roots[idx].is_none() {
                roots.set(idx, Some(c.root_cause));
            }
            proof {
                assert forall|j: int| 0 <= j < all.len() implies (#[trigger] buckets@[j])@
                    == pitfall_outcomes(cases@.take(i + 1), orig.take(i + 1), all[j]) by {
                    if j != idx {
                        assert(all[j] != c.pitfall);
                    }
                }
                assert forall|j: int| 0 <= j < all.len() implies #[trigger] roots@[j]
                    == first_root_cause(cases@.take(i + 1), all[j]) by {
                    if j != idx {
                        assert(all[j] != c.pitfall);
                    }
                }
            }
        } else {
            proof {
                assert forall|j: int| 0 <= j < all.len() implies (#[trigger] buckets@[j])@
                    == pitfall_outcomes(cases@.take(i + 1), orig.take(i + 1), all[j]) by {
                    assert(buckets@[j] == before_b[j]);
                }
                assert forall|j: int| 0 <= j < all.len() implies #[trigger] roots@[j]
                    == first_root_cause(cases@.take(i + 1), all[j]) by {
                    assert(roots@[j] == before_r[j]);
                }
            }
        }
        i = i + 1;
    }
    proof {
        assert(cases@.take(cases@.len() as int) =~= cases@);
        assert(orig.take(cases@.len() as int) =~= orig);
        lemma_over_all(cases@, orig);
        lemma_non_draft_bounds(cases@, orig);
    }
    let n_cases = cases.len();
    let mut pitfalls: Vec<PitfallScore> = Vec::new();
    let mut passing: usize = 0;
    let mut total: usize = 0;
    let mut k: usize = 0;
    while k < pitfalls_in_order.len()
        invariant
            all == spec_all_pitfalls(),
            pitfalls_in_order@ == all,
            k <= all.len(),
            buckets@.len() == all.len() - k,
            roots@.len() == all.len(),
            orig.len() == cases@.len(),
            forall|j: int| 0 <= j < all.len() - k
                ==> (#[trigger] buckets@[j])@ == pitfall_outcomes(cases@, orig, all[j + k]),
            forall|j: int| 0 <= j < all.len() ==> #[trigger] roots@[j] == first_root_cause(cases@, all[j]),
            pitfalls@.len() == k,
            forall|j: int| 0 <= j < k ==> is_pitfall_score(#[trigger] pitfalls@[j], cases@, orig, all[j]),
            passing == sum_passing(pitfalls@),
            total == sum_total(pitfalls@),
            total == total_over(cases@, orig, all.take(k as int)),
            passing == passing_over(cases@, orig, all.take(k as int)),
            total_over(cases@, orig, all) == count_non_draft(cases@),
            passing_over(cases@, orig, all) == count_non_draft_passing(cases@, orig),
            count_non_draft(cases@) <= cases@.len(),
            cases@.len() == n_cases,
            count_non_draft_passing(cases@, orig) <= count_non_draft(cases@),
        decreases all.len() - k,
    {
        let ghost before = buckets@;
        let bucket = buckets.remove(0);
        assert(before[0]@ == pitfall_outcomes(cases@, orig, all[0 + k]));
        assert(bucket@ == pitfall_outcomes(cases@, orig, all[k as int]));
        assert forall|j: int| 0 <= j < all.len() - (k + 1) implies (#[trigger] buckets@[j])@
            == pitfall_outcomes(cases@, orig, all[j + (k + 1)]) by {
            assert(buckets@[j] == before[j + 1]);
        }
        let mut pass_count: usize = 0;
        let mut t: usize = 0;
        while t < bucket.len()
            invariant
                t <= bucket@.len(),
                pass_count == count_passing(bucket@.take(t as int)),
                pass_count <= t,
            decreases bucket@.len() - t,
        {
            assert(bucket@.take(t + 1).drop_last() =~= bucket@.take(t as int));
            if bucket[t].passed {
                pass_count = pass_count + 1;
            }
            t = t + 1;
        }
        assert(bucket@.take(bucket@.len() as int) =~= bucket@);
        let root_cause = match roots[k] {
            Some(r) => r,
            None => RootCause::Geometric,
        };
        let n = bucket.len();
        proof {
            assert(all.take(k + 1).drop_last() =~= all.take(k as int));
            assert(all.take(k + 1).last() == all[k as int]);
            lemma_total_over_prefix(cases@, orig, all, k + 1);
            lemma_count_passing_le(bucket@);
        }
        let ghost before_p = pitfalls@;
        pitfalls.push(PitfallScore {
            pitfall: pitfalls_in_order[k],
            root_cause,
            cases: bucket,
            passing: pass_count,
            total: n,
        });
        assert(pitfalls@.drop_last() =~= before_p);
        passing = passing + pass_count;
        total = total + n;
        k = k + 1;
    }
    proof {
        assert(all.take(all.len() as int) =~= all);
    }
    Scoreboard { pitfalls, passing, total }
}

/// Extra prose/context for a pitfall that no test can derive.
#[derive(Debug, Clone)]
pub struct RegistryEntry {
    /// The pitfall's checklist title.
    pub title: String,
    /// One-sentence description of the failure mode.
    pub summary: String,
    /// Freeform prose appended to the checklist bullet, if any.
    pub note: Option<String>,
    /// Overrides the derived status marker (`"fixed"`, `"partial"`, or `"open"`).
    pub status_override: Option<String>,
    /// Set when this pitfall is blocked on a named prerequisite.
    pub blocked: Option<BlockedInfo>,
    /// For PDF-backed pitfalls: why a synthetic document can't reproduce it.
    pub pdf_backed_reason: Option<String>,
}

/// A pitfall's blocking prerequisite.
#[derive(Debug, Clone)]
pub struct BlockedInfo {
    /// The blocker table's "Blocker" column text.
    pub reason: String,
    /// The blocker table's "Next step" column text.
    pub unblocked_by: String,
    /// `true` if the fix loop must refuse to iterate on this pitfall outright.
    pub loop_refuses: bool,
}

/// A pitfall-slug to [`RegistryEntry`] map. Built with [`Registry::new`] and
/// [`Registry::insert`], its keys are strictly ascending ([`registry_wf`]), as in a
/// sorted map.
#[derive(Debug, Clone)]
pub struct Registry {
    /// `(slug, entry)` pairs.
    pub entries: Vec<(String, RegistryEntry)>,
}

/// The entry stored under `key` (the first one, if a key repeats).
pub open spec fn registry_get(entries: Seq<(String, RegistryEntry)>, key: Seq<char>) -> Option<RegistryEntry>
    decreases entries.len(),
{
    if entries.len() == 0 {
        None
    } else if entries[0].0@ == key {
        Some(entries[0].1)
    } else {
        registry_get(entries.drop_first(), key)
    }
}

impl Registry {
    /// The entry stored under `slug`, if any.
    pub fn get(&self, slug: &str) -> (r: Option<&RegistryEntry>)
        ensures
            match r {
                Some(e) => registry_get(self.entries@, slug@) == Some(*e),
                None => registry_get(self.entries@, slug@) is None,
            },
    {
        let key = chars_of(slug);
        let mut i: usize = 0;
        assert(self.entries@.skip(0) =~= self.entries@);
        while i < self.entries.len()
            invariant
                i <= self.entries@.len(),
                key@ == slug@,
                registry_get(self.entries@, slug@) == registry_get(self.entries@.skip(i as int), slug@),
            decreases self.entries.len() - i,
        {
            let ghost rest = self.entries@.skip(i as int);
            assert(rest[0] == self.entries@[i as int]);
            assert(rest.drop_first() =~= self.entries@.skip(i + 1));
            let k = chars_of(self.entries[i].0.as_str());
            if chars_eq_str(&k, slug) {
                return Some(&self.entries[i].1);
            }
            i = i + 1;
        }
        None
    }
}

/// The status a pitfall's checklist bullet shows.
pub open spec fn spec_derived_status(score: PitfallScore, entry: Option<RegistryEntry>) -> Seq<char> {
    match entry {
        Some(e) if e.status_override is Some => {
            let s = e.status_override->0@;
            if s == "fixed"@ {
                "fixed"@
            } else if s == "partial"@ {
                "partial"@
            } else {
                "open"@
            }
        },
        _ => if score.total > 0 && score.passing == score.total {
            "fixed"@
        } else if score.passing > 0 {
            "partial"@
        } else {
            "open"@
        },
    }
}

/// `"fixed"`, `"partial"`, or `"open"`, derived from `score.passing`/`score.total`
/// unless the registry entry overrides it.
pub fn derived_status(score: &PitfallScore, entry: Option<&RegistryEntry>) -> (s: &'static str)
    ensures
        s@ == spec_derived_status(*score, match entry {
            Some(e) => Some(*e),
            None => None,
        }),
{
    if let Some(e) = entry {
        if let Some(status) = &e.status_override {
            let v = chars_of(status.as_str());
            if chars_eq_str(&v, "fixed") {
                return "fixed";
            } else if chars_eq_str(&v, "partial") {
                return "partial";
            } else {
                return "open";
            }
        }
    }
    if score.total > 0 && score.passing == score.total {
        "fixed"
    } else if score.passing > 0 {
        "partial"
    } else {
        "open"
    }
}

/// The checklist marker for a status.
pub open spec fn spec_status_marker(status: Seq<char>) -> Seq<char> {
    if status == "fixed"@ {
        "[x]"@
    } else if status == "partial"@ {
        "[~]"@
    } else {
        "[ ]"@
    }
}

/// The checklist marker for a status: `[x]` fixed, `[~]` partial, `[ ]` otherwise.
pub fn status_marker(status: &str) -> (m: &'static str)
    ensures
        m@ == spec_status_marker(status@),
{
    let v = chars_of(status);
    if chars_eq_str(&v, "fixed") {
        "[x]"
    } else if chars_eq_str(&v, "partial") {
        "[~]"
    } else {
        "[ ]"
    }
}

/// The `<!-- BEGIN GENERATED: name -->` marker.
pub open spec fn begin_marker(name: Seq<char>) -> Seq<char> {
    "<!-- BEGIN GENERATED: "@ + name + " -->"@
}

/// The `<!-- END GENERATED: name -->` marker.
pub open spec fn end_marker(name: Seq<char>) -> Seq<char> {
    "<!-- END GENERATED: "@ + name + " -->"@
}

/// The first position of `p` in `s`, if `p` occurs.
pub open spec fn first_pos(s: Seq<char>, p: Seq<char>) -> Option<int> {
    if exists|i: int| first_occurrence(s, p, i) {
        Some(choose|i: int| first_occurrence(s, p, i))
    } else {
        None
    }
}

/// What splicing `body` into `doc`'s `name` block does.
pub enum SpliceView {
    /// The spliced document.
    Spliced(Seq<char>),
    /// No begin marker.
    MissingBegin,
    /// A begin marker but no end marker.
    MissingEnd,
    /// The first end marker precedes the first begin marker.
    EndBeforeBegin,
}

/// Replaces the text between the first begin marker and the first end marker with
/// a newline, `body` without trailing whitespace, and a newline.
pub open spec fn spec_splice(doc: Seq<char>, name: Seq<char>, body: Seq<char>) -> SpliceView {
    let b = begin_marker(name);
    let e = end_marker(name);
    match first_pos(doc, b) {
        None => SpliceView::MissingBegin,
        Some(bi) => match first_pos(doc, e) {
            None => SpliceView::MissingEnd,
            Some(ei) => if ei < bi {
                SpliceView::EndBeforeBegin
            } else {
                SpliceView::Spliced(
                    doc.take(bi + b.len()) + "\n"@ + trim_end(body) + "\n"@ + doc.skip(ei),
                )
            },
        },
    }
}

/// Where the new block's end marker sits in the result of a successful splice: after
/// the begin marker, a newline, the trimmed body and a newline.
pub open spec fn new_end_at(doc: Seq<char>, name: Seq<char>, body: Seq<char>) -> int {
    first_pos(doc, begin_marker(name))->0 + begin_marker(name).len() + trim_end(body).len() + 2
}

/// Splicing is idempotent: splicing the same body into the result again gives the result
/// back, whenever the first end marker of the result is the one that closes the new
/// block (that is, unless the body or the name itself spells out the end marker).
pub proof fn lemma_splice_idempotent(doc: Seq<char>, name: Seq<char>, body: Seq<char>, out: Seq<char>)
    requires
        spec_splice(doc, name, body) == SpliceView::Spliced(out),
        first_pos(out, end_marker(name)) == Some(new_end_at(doc, name, body)),
    ensures
        spec_splice(out, name, body) == SpliceView::Spliced(out),
{
    let b = begin_marker(name);
    let e = end_marker(name);
    let bi = first_pos(doc, b)->0;
    let ei = first_pos(doc, e)->0;
    let cs = bi + b.len();
    let tb = trim_end(body);
    let c = choose|i: int| first_occurrence(doc, b, i);
    assert(first_occurrence(doc, b, bi));
    assert(out == doc.take(cs) + "\n"@ + tb + "\n"@ + doc.skip(ei));
    assert(out.take(cs) =~= doc.take(cs));
    assert(occurs_at(out, b, bi)) by {
        assert(out.subrange(bi, bi + b.len()) =~= doc.subrange(bi, bi + b.len()));
    }
    assert forall|j: int| 0 <= j < bi implies !occurs_at(out, b, j) by {
        if occurs_at(out, b, j) {
            assert(out.subrange(j, j + b.len()) =~= doc.subrange(j, j + b.len()));
            assert(occurs_at(doc, b, j));
        }
    }
    assert(first_occurrence(out, b, bi));
    let c2 = choose|i: int| first_occurrence(out, b, i);
    lemma_first_occurrence_unique(out, b, bi, c2);
    assert(first_pos(out, b) == Some(bi));
    let p = new_end_at(doc, name, body);
    reveal_strlit("\n");
    assert(first_occurrence(doc, e, ei));
    assert(out.skip(p) =~= doc.skip(ei));
    assert(out.take(cs) + "\n"@ + tb + "\n"@ + out.skip(p) =~= out);
}

/// The first occurrence of `p` in `s` (exec form of [`first_pos`]).
fn find_first(s: &Vec<char>, p: &Vec<char>) -> (r: Option<usize>)
    ensures
        match r {
            Some(i) => first_pos(s@, p@) == Some(i as int) && first_occurrence(s@, p@, i as int),
            None => first_pos(s@, p@) is None,
        },
{
    let r = find(s, p);
    proof {
        if let Some(i) = r {
            let c = choose|c: int| first_occurrence(s@, p@, c);
            lemma_first_occurrence_unique(s@, p@, i as int, c);
        }
    }
    r
}

/// The marker text `prefix + name + " -->"`.
fn marker(prefix: &str, name: &str) -> (m: Vec<char>)
    ensures
        m@ == prefix@ + name@ + " -->"@,
{
    let mut s = string_from_str(prefix);
    push_str(&mut s, name);
    push_str(&mut s, " -->");
    chars_of(s.as_str())
}

/// Replaces the content between a `<!-- BEGIN GENERATED: name -->` ...
/// `<!-- END GENERATED: name -->` marker pair in `doc` with `body`, leaving everything
/// outside the markers (and the markers themselves) untouched.
pub fn splice_block(doc: &str, name: &str, body: &str) -> (r: Result<String, ScoreboardError>)
    ensures
        match r {
            Ok(s) => spec_splice(doc@, name@, body@) == SpliceView::Spliced(s@),
            Err(ScoreboardError::MissingMarker { name: n, which }) => n@ == name@ && (
                (spec_splice(doc@, name@, body@) is MissingBegin && which@ == "BEGIN"@)
                || (spec_splice(doc@, name@, body@) is MissingEnd && which@ == "END"@)),
            Err(ScoreboardError::MarkerOrder(n)) => n@ == name@
                && spec_splice(doc@, name@, body@) is EndBeforeBegin,
            Err(_) => false,
        },
{
    let d = chars_of(doc);
    let begin = marker("<!-- BEGIN GENERATED: ", name);
    let end = marker("<!-- END GENERATED: ", name);
    let begin_at = match find_first(&d, &begin) {
        Some(i) => i,
        None => {
            return Err(ScoreboardError::MissingMarker { name: string_from_str(name), which: "BEGIN" });
        },
    };
    let end_at = match find_first(&d, &end) {
        Some(i) => i,
        None => {
            return Err(ScoreboardError::MissingMarker { name: string_from_str(name), which: "END" });
        },
    };
    if end_at < begin_at {
        return Err(ScoreboardError::MarkerOrder(string_from_str(name)));
    }
    assert(first_pos(d@, begin@) == Some(begin_at as int));
    assert(first_occurrence(d@, begin@, begin_at as int));
    assert(begin_at + begin@.len() <= d@.len());
    let blen = begin.len();
    assert(blen == begin@.len());
    let dlen = d.len();
    assert(dlen == d@.len());
    let content_start = begin_at + blen;
    let head = sub_chars(&d, 0, content_start);
    let tail = sub_chars(&d, end_at, d.len());
    let b = chars_of(body);
    let trimmed = trim_end_chars(&b);
    let mut out = string_from_chars(&head);
    push_str(&mut out, "\n");
    push_chars(&mut out, &trimmed);
    push_str(&mut out, "\n");
    push_chars(&mut out, &tail);
    proof {
        assert(head@ =~= d@.take(content_start as int));
        assert(tail@ =~= d@.skip(end_at as int));
    }
    Ok(out)
}

/// The decimal rendering of an optional count, `"?"` when absent.
pub open spec fn opt_decimal(o: Option<usize>) -> Seq<char> {
    match o {
        Some(n) => decimal(n as nat),
        None => "?"@,
    }
}

/// One indented line per mismatch.
pub open spec fn mismatch_lines(ms: Seq<String>) -> Seq<char>
    decreases ms.len(),
{
    if ms.len() == 0 {
        Seq::empty()
    } else {
        mismatch_lines(ms.drop_last()) + "      "@ + ms.last()@ + "\n"@
    }
}

/// The edit-distance line of a failing case, if it has an expected reading order.
pub open spec fn distance_line(o: CaseOutcome) -> Seq<char> {
    match o.reading_order_edit_distance {
        Some(d) => "      reading-order edit distance: "@ + decimal(d as nat) + " (naive input order: "@
            + opt_decimal(o.naive_reading_order_edit_distance) + ")\n"@,
        None => Seq::empty(),
    }
}

/// The report text of one case: empty when it passed.
pub open spec fn failing_case_text(o: CaseOutcome) -> Seq<char> {
    if o.passed {
        Seq::empty()
    } else {
        "  - "@ + o.case_id@ + ":\n"@ + mismatch_lines(o.mismatches@) + distance_line(o)
    }
}

/// The report text of a run of cases.
pub open spec fn cases_text(cs: Seq<CaseOutcome>) -> Seq<char>
    decreases cs.len(),
{
    if cs.len() == 0 {
        Seq::empty()
    } else {
        cases_text(cs.drop_last()) + failing_case_text(cs.last())
    }
}

/// The report text of every pitfall's cases, in order.
pub open spec fn pitfalls_text(ps: Seq<PitfallScore>) -> Seq<char>
    decreases ps.len(),
{
    if ps.len() == 0 {
        Seq::empty()
    } else {
        pitfalls_text(ps.drop_last()) + cases_text(ps.last().cases@)
    }
}

/// The plain-text scoreboard report.
pub open spec fn spec_render_text(board: Scoreboard) -> Seq<char> {
    "Stage 3 regression corpus scoreboard -- failing cases:\n"@ + pitfalls_text(board.pitfalls@)
        + "\n"@ + decimal((board.total - board.passing) as nat) + " / "@ + decimal(board.total as nat)
        + " cases failing.\n"@
}

/// Appends the report text of one case.
fn push_case_text(report: &mut String, o: &CaseOutcome)
    ensures
        final(report)@ == old(report)@ + failing_case_text(*o),
{
    if o.passed {
        assert(old(report)@ + Seq::<char>::empty() =~= old(report)@);
        return;
    }
    let ghost start = report@;
    push_str(report, "  - ");
    push_str(report, o.case_id.as_str());
    push_str(report, ":\n");
    let mut i: usize = 0;
    while i < o.mismatches.len()
        invariant
            i <= o.mismatches@.len(),
            report@ == start + "  - "@ + o.case_id@ + ":\n"@ + mismatch_lines(o.mismatches@.take(i as int)),
        decreases o.mismatches.len() - i,
    {
        proof {
            assert(o.mismatches@.take(i + 1).drop_last() =~= o.mismatches@.take(i as int));
        }
        push_str(report, "      ");
        push_str(report, o.mismatches[i].as_str());
        push_str(report, "\n");
        i = i + 1;
    }
    assert(o.mismatches@.take(o.mismatches.len() as int) =~= o.mismatches@);
    if let Some(distance) = o.reading_order_edit_distance {
        push_str(report, "      reading-order edit distance: ");
        let d = decimal_string(distance);
        push_str(report, d.as_str());
        push_str(report, " (naive input order: ");
        match o.naive_reading_order_edit_distance {
            Some(n) => {
                let t = decimal_string(n);
                push_str(report, t.as_str());
            },
            None => {
                push_str(report, "?");
            },
        }
        push_str(report, ")\n");
    }
    assert(report@ =~= start + failing_case_text(*o));
}

/// Renders the plain-text scoreboard report: every failing case's id and mismatches
/// (plus its reading-order edit distances, if it has them), followed by the
/// `P / N cases failing.` summary line.
pub fn render_text(board: &Scoreboard) -> (r: String)
    requires
        board.passing <= board.total,
    ensures
        r@ == spec_render_text(*board),
{
    let mut report = string_from_str("Stage 3 regression corpus scoreboard -- failing cases:\n");
    let ghost header = report@;
    let mut p: usize = 0;
    while p < board.pitfalls.len()
        invariant
            p <= board.pitfalls@.len(),
            report@ == header + pitfalls_text(board.pitfalls@.take(p as int)),
        decreases board.pitfalls.len() - p,
    {
        let score = &board.pitfalls[p];
        let ghost before = report@;
        let mut c: usize = 0;
        assert(score.cases@.take(0) =~= Seq::<CaseOutcome>::empty());
        while c < score.cases.len()
            invariant
                c <= score.cases@.len(),
                report@ == before + cases_text(score.cases@.take(c as int)),
            decreases score.cases.len() - c,
        {
            proof {
                assert(score.cases@.take(c + 1).drop_last() =~= score.cases@.take(c as int));
            }
            push_case_text(&mut report, &score.cases[c]);
            c = c + 1;
        }
        proof {
            assert(score.cases@.take(score.cases.len() as int) =~= score.cases@);
            assert(board.pitfalls@.take(p + 1).drop_last() =~= board.pitfalls@.take(p as int));
            assert(board.pitfalls@.take(p + 1).last() == board.pitfalls@[p as int]);
        }
        p = p + 1;
    }
    assert(board.pitfalls@.take(board.pitfalls.len() as int) =~= board.pitfalls@);
    let failing = board.total - board.passing;
    push_str(&mut report, "\n");
    let f = decimal_string(failing);
    push_str(&mut report, f.as_str());
    push_str(&mut report, " / ");
    let t = decimal_string(board.total);
    push_str(&mut report, t.as_str());
    push_str(&mut report, " cases failing.\n");
    report
}

/// The registry entry of a pitfall, looked up by its slug.
pub open spec fn entry_for(reg: Registry, p: Pitfall) -> Option<RegistryEntry> {
    registry_get(reg.entries@, spec_pitfall_slug(p))
}

/// The checklist bullet's marker, title and summary.
pub open spec fn line_head(score: PitfallScore, entry: Option<RegistryEntry>) -> Seq<char> {
    let slug = spec_pitfall_slug(score.pitfall);
    let marker = spec_status_marker(spec_derived_status(score, entry));
    let title = match entry {
        Some(e) => e.title@,
        None => slug,
    };
    let summary = match entry {
        Some(e) => e.summary@,
        None => Seq::empty(),
    };
    "- "@ + marker + " **"@ + title + "** — "@ + summary
}

/// The checklist bullet's case counts and root cause.
pub open spec fn line_counts(score: PitfallScore) -> Seq<char> {
    let case_word = if score.total == 1 { "case"@ } else { "cases"@ };
    " *("@ + decimal(score.total as nat) + " "@ + case_word + ", `"@ + spec_root_cause_slug(
        score.root_cause,
    ) + "`; "@ + decimal(score.passing as nat) + "/"@ + decimal(score.total as nat) + " passing"@
}

/// The checklist bullet's registry note, if any.
pub open spec fn line_note(entry: Option<RegistryEntry>) -> Seq<char> {
    match entry {
        Some(e) => match e.note {
            Some(n) => " — "@ + n@,
            None => Seq::empty(),
        },
        None => Seq::empty(),
    }
}

/// The checklist bullet of one pitfall.
pub open spec fn checklist_line(score: PitfallScore, entry: Option<RegistryEntry>) -> Seq<char> {
    line_head(score, entry) + line_counts(score) + line_note(entry) + ")*\n"@
}

/// The checklist bullets of a run of pitfalls.
pub open spec fn checklist_lines(ps: Seq<PitfallScore>, reg: Registry) -> Seq<char>
    decreases ps.len(),
{
    if ps.len() == 0 {
        Seq::empty()
    } else {
        checklist_lines(ps.drop_last(), reg) + checklist_line(ps.last(), entry_for(reg, ps.last().pitfall))
    }
}

/// The generated pitfall checklist.
pub open spec fn spec_render_checklist(board: Scoreboard, reg: Registry) -> Seq<char> {
    "Status reflects the Stage 3 regression corpus under [`fixtures/`](../fixtures) — run `cargo run --example stage3_scoreboard --features stage3` for the live scoreboard (currently "@
        + decimal(board.passing as nat) + "/"@ + decimal(board.total as nat)
        + " cases passing); see [`fixtures/README.md`](../fixtures/README.md) for per-case detail.\n\n"@
        + checklist_lines(board.pitfalls@, reg)
}

/// Appends the decimal rendering of `n`.
fn push_decimal(out: &mut String, n: usize)
    ensures
        final(out)@ == old(out)@ + decimal(n as nat),
{
    let d = decimal_string(n);
    push_str(out, d.as_str());
}

/// The view of an optional entry reference.
pub open spec fn opt_entry(e: Option<&RegistryEntry>) -> Option<RegistryEntry> {
    match e {
        Some(x) => Some(*x),
        None => None,
    }
}

/// Appends [`line_head`].
fn push_line_head(out: &mut String, score: &PitfallScore, entry: Option<&RegistryEntry>)
    ensures
        final(out)@ == old(out)@ + line_head(*score, opt_entry(entry)),
{
    let ghost start = out@;
    let slug = pitfall_slug(score.pitfall);
    let status = derived_status(score, entry);
    let marker = status_marker(status);
    push_str(out, "- ");
    push_str(out, marker);
    push_str(out, " **");
    match entry {
        Some(e) => push_str(out, e.title.as_str()),
        None => push_str(out, slug),
    }
    push_str(out, "** — ");
    if let Some(e) = entry {
        push_str(out, e.summary.as_str());
    }
    assert(out@ =~= start + line_head(*score, opt_entry(entry)));
}

/// Appends [`line_counts`].
fn push_line_counts(out: &mut String, score: &PitfallScore)
    ensures
        final(out)@ == old(out)@ + line_counts(*score),
{
    let ghost start = out@;
    push_str(out, " *(");
    push_decimal(out, score.total);
    push_str(out, " ");
    if score.total == 1 {
        push_str(out, "case");
    } else {
        push_str(out, "cases");
    }
    push_str(out, ", `");
    push_str(out, root_cause_slug(score.root_cause));
    push_str(out, "`; ");
    push_decimal(out, score.passing);
    push_str(out, "/");
    push_decimal(out, score.total);
    push_str(out, " passing");
    assert(out@ =~= start + line_counts(*score));
}

/// Appends the checklist bullet of one pitfall.
fn push_checklist_line(out: &mut String, score: &PitfallScore, entry: Option<&RegistryEntry>)
    ensures
        final(out)@ == old(out)@ + checklist_line(*score, opt_entry(entry)),
{
    let ghost start = out@;
    push_line_head(out, score, entry);
    push_line_counts(out, score);
    let ghost mid = out@;
    if let Some(e) = entry {
        if let Some(n) = &e.note {
            push_str(out, " — ");
            push_str(out, n.as_str());
        }
    }
    assert(out@ =~= mid + line_note(opt_entry(entry)));
    push_str(out, ")*\n");
    assert(out@ =~= start + checklist_line(*score, opt_entry(entry)));
}

/// Renders the pitfall checklist, one bullet per scored pitfall, for the
/// `pitfall-checklist` generated block.
pub fn render_checklist(board: &Scoreboard, registry: &Registry) -> (r: String)
    ensures
        r@ == spec_render_checklist(*board, *registry),
{
    let mut out = string_from_str("Status reflects the Stage 3 regression corpus under [`fixtures/`](../fixtures) — run `cargo run --example stage3_scoreboard --features stage3` for the live scoreboard (currently ");
    push_decimal(&mut out, board.passing);
    push_str(&mut out, "/");
    push_decimal(&mut out, board.total);
    push_str(&mut out, " cases passing); see [`fixtures/README.md`](../fixtures/README.md) for per-case detail.\n\n");
    let ghost header = out@;
    let mut p: usize = 0;
    while p < board.pitfalls.len()
        invariant
            p <= board.pitfalls@.len(),
            out@ == header + checklist_lines(board.pitfalls@.take(p as int), *registry),
        decreases board.pitfalls.len() - p,
    {
        let score = &board.pitfalls[p];
        let ghost before = out@;
        let slug = pitfall_slug(score.pitfall);
        let entry = registry.get(slug);
        push_checklist_line(&mut out, score, entry);
        proof {
            assert(board.pitfalls@.take(p + 1).drop_last() =~= board.pitfalls@.take(p as int));
            assert(board.pitfalls@.take(p + 1).last() == board.pitfalls@[p as int]);
        }
        p = p + 1;
    }
    assert(board.pitfalls@.take(board.pitfalls.len() as int) =~= board.pitfalls@);
    out
}

/// A blocker-table row: a shared prerequisite and the titles of the pitfalls blocked
/// on it, in checklist order.
pub struct BlockerGroup {
    pub reason: Seq<char>,
    pub unblocked_by: Seq<char>,
    pub titles: Seq<Seq<char>>,
}

/// `k` is the first group with this reason and next step.
pub open spec fn first_group(g: Seq<BlockerGroup>, r: Seq<char>, u: Seq<char>, k: int) -> bool {
    &&& 0 <= k < g.len()
    &&& g[k].reason == r && g[k].unblocked_by == u
    &&& forall|j: int| 0 <= j < k ==> !(g[j].reason == r && g[j].unblocked_by == u)
}

/// Files `title` under the group for `(r, u)`, opening a new group at the end if there
/// is none yet.
pub open spec fn add_blocker(g: Seq<BlockerGroup>, r: Seq<char>, u: Seq<char>, title: Seq<char>) -> Seq<BlockerGroup> {
    if exists|k: int| first_group(g, r, u, k) {
        let k = choose|k: int| first_group(g, r, u, k);
        g.update(k, BlockerGroup { reason: g[k].reason, unblocked_by: g[k].unblocked_by, titles: g[k].titles.push(title) })
    } else {
        g.push(BlockerGroup { reason: r, unblocked_by: u, titles: seq![title] })
    }
}

/// The blocker groups of a run of pitfalls, in order of first appearance.
pub open spec fn blocker_groups(ps: Seq<PitfallScore>, reg: Registry) -> Seq<BlockerGroup>
    decreases ps.len(),
{
    if ps.len() == 0 {
        Seq::empty()
    } else {
        let g = blocker_groups(ps.drop_last(), reg);
        match entry_for(reg, ps.last().pitfall) {
            Some(e) => match e.blocked {
                Some(b) => add_blocker(g, b.reason@, b.unblocked_by@, e.title@),
                None => g,
            },
            None => g,
        }
    }
}

/// The rows of the blocker table.
pub open spec fn blocker_rows(g: Seq<BlockerGroup>) -> Seq<char>
    decreases g.len(),
{
    if g.len() == 0 {
        Seq::empty()
    } else {
        blocker_rows(g.drop_last()) + "| "@ + g.last().reason + " | "@ + join(g.last().titles, ", "@)
            + " | "@ + g.last().unblocked_by + " |\n"@
    }
}

/// The generated blocker table.
pub open spec fn spec_render_blocker_table(board: Scoreboard, reg: Registry) -> Seq<char> {
    "| Blocker | Pitfalls | Next step |\n|---|---|---|\n"@ + blocker_rows(blocker_groups(board.pitfalls@, reg))
}

/// The exec groups `(reasons, next steps, titles)` hold the groups `g`.
pub open spec fn groups_match(reasons: Seq<Vec<char>>, ubs: Seq<Vec<char>>, titles: Seq<Vec<Vec<char>>>, g: Seq<BlockerGroup>) -> bool {
    &&& reasons.len() == g.len()
    &&& ubs.len() == g.len()
    &&& titles.len() == g.len()
    &&& forall|k: int| 0 <= k < g.len() ==> #[trigger] reasons[k]@ == g[k].reason
    &&& forall|k: int| 0 <= k < g.len() ==> #[trigger] ubs[k]@ == g[k].unblocked_by
    &&& forall|k: int| 0 <= k < g.len() ==> (#[trigger] titles[k])@.map_values(|t: Vec<char>| t@) == g[k].titles
}

/// Files one blocked pitfall's title under its group.
fn add_blocker_exec(
    reasons: &mut Vec<Vec<char>>,
    ubs: &mut Vec<Vec<char>>,
    titles: &mut Vec<Vec<Vec<char>>>,
    reason: &str,
    unblocked_by: &str,
    title: &str,
    Ghost(g): Ghost<Seq<BlockerGroup>>,
)
    requires
        groups_match(old(reasons)@, old(ubs)@, old(titles)@, g),
    ensures
        groups_match(final(reasons)@, final(ubs)@, final(titles)@, add_blocker(g, reason@, unblocked_by@, title@)),
{
    let r = chars_of(reason);
    let u = chars_of(unblocked_by);
    let t = chars_of(title);
    let mut k: usize = 0;
    while k < reasons.len()
        invariant
            k <= reasons@.len(),
            groups_match(reasons@, ubs@, titles@, g),
            r@ == reason@,
            u@ == unblocked_by@,
            t@ == title@,
            forall|j: int| 0 <= j < k ==> !(g[j].reason == reason@ && g[j].unblocked_by == unblocked_by@),
        decreases reasons.len() - k,
    {
        if chars_eq(&reasons[k], &r) && chars_eq(&ubs[k], &u) {
            proof {
                assert(first_group(g, reason@, unblocked_by@, k as int));
                let c = choose|c: int| first_group(g, reason@, unblocked_by@, c);
                assert(c == k) by {
                    if c < k {
                    } else if c > k {
                    }
                }
            }
            let ghost before = titles@[k as int]@;
            titles[k].push(t);
            proof {
                let ng = add_blocker(g, reason@, unblocked_by@, title@);
                assert(titles@[k as int]@.map_values(|x: Vec<char>| x@) =~= before.map_values(|x: Vec<char>| x@).push(title@));
                assert forall|j: int| 0 <= j < ng.len() implies (#[trigger] titles@[j])@.map_values(|x: Vec<char>| x@) == ng[j].titles by {
                }
            }
            return;
        }
        k = k + 1;
    }
    proof {
        assert(!exists|c: int| first_group(g, reason@, unblocked_by@, c));
    }
    reasons.push(r);
    ubs.push(u);
    let mut one: Vec<Vec<char>> = Vec::new();
    one.push(t);
    titles.push(one);
    proof {
        let ng = add_blocker(g, reason@, unblocked_by@, title@);
        assert(titles@.last()@.map_values(|x: Vec<char>| x@) =~= seq![title@]);
        assert forall|j: int| 0 <= j < ng.len() implies (#[trigger] titles@[j])@.map_values(|x: Vec<char>| x@) == ng[j].titles by {
        }
    }
}

/// Renders the blocker table for the `pitfall-blockers` generated block: one row per
/// distinct blocking prerequisite across the registry, grouping every pitfall blocked
/// on it.
pub fn render_blocker_table(board: &Scoreboard, registry: &Registry) -> (r: String)
    ensures
        r@ == spec_render_blocker_table(*board, *registry),
{
    let mut reasons: Vec<Vec<char>> = Vec::new();
    let mut ubs: Vec<Vec<char>> = Vec::new();
    let mut titles: Vec<Vec<Vec<char>>> = Vec::new();
    let mut p: usize = 0;
    while p < board.pitfalls.len()
        invariant
            p <= board.pitfalls@.len(),
            groups_match(reasons@, ubs@, titles@, blocker_groups(board.pitfalls@.take(p as int), *registry)),
        decreases board.pitfalls.len() - p,
    {
        let ghost g = blocker_groups(board.pitfalls@.take(p as int), *registry);
        proof {
            assert(board.pitfalls@.take(p + 1).drop_last() =~= board.pitfalls@.take(p as int));
            assert(board.pitfalls@.take(p + 1).last() == board.pitfalls@[p as int]);
        }
        let score = &board.pitfalls[p];
        let slug = pitfall_slug(score.pitfall);
        if let Some(entry) = registry.get(slug) {
            if let Some(blocked) = &entry.blocked {
                add_blocker_exec(
                    &mut reasons,
                    &mut ubs,
                    &mut titles,
                    blocked.reason.as_str(),
                    blocked.unblocked_by.as_str(),
                    entry.title.as_str(),
                    Ghost(g),
                );
            }
        }
        p = p + 1;
    }
    assert(board.pitfalls@.take(board.pitfalls.len() as int) =~= board.pitfalls@);
    let ghost g = blocker_groups(board.pitfalls@, *registry);
    let mut out = string_from_str("| Blocker | Pitfalls | Next step |\n|---|---|---|\n");
    let ghost header = out@;
    let mut k: usize = 0;
    while k < reasons.len()
        invariant
            k <= reasons@.len(),
            groups_match(reasons@, ubs@, titles@, g),
            out@ == header + blocker_rows(g.take(k as int)),
        decreases reasons.len() - k,
    {
        proof {
            assert(g.take(k + 1).drop_last() =~= g.take(k as int));
            assert(g.take(k + 1).last() == g[k as int]);
        }
        push_str(&mut out, "| ");
        push_chars(&mut out, &reasons[k]);
        push_str(&mut out, " | ");
        push_joined(&mut out, &titles[k], ", ");
        push_str(&mut out, " | ");
        push_chars(&mut out, &ubs[k]);
        push_str(&mut out, " |\n");
        k = k + 1;
    }
    assert(g.take(reasons.len() as int) =~= g);
    out
}


/// `p` has a non-draft case that is a frozen extraction of a real PDF.
pub open spec fn has_pdf_backed_case(cases: Seq<CaseTag>, p: Pitfall) -> bool {
    exists|i: int| 0 <= i < cases.len() && counts_toward(cases[i], p) && cases[i].pdf_backed
}

/// The synthetic-table row of one pitfall.
pub open spec fn synthetic_row(score: PitfallScore, entry: Option<RegistryEntry>) -> Seq<char> {
    let slug = spec_pitfall_slug(score.pitfall);
    let title = match entry {
        Some(e) => e.title@,
        None => slug,
    };
    "| `"@ + slug + "` ("@ + title + ") | `"@ + spec_root_cause_slug(score.root_cause) + "` |\n"@
}

/// The PDF-backed-table row of one pitfall.
pub open spec fn pdf_row(score: PitfallScore, entry: Option<RegistryEntry>) -> Seq<char> {
    let reason = match entry {
        Some(e) => match e.pdf_backed_reason {
            Some(r) => r@,
            None => Seq::empty(),
        },
        None => Seq::empty(),
    };
    "| `"@ + spec_pitfall_slug(score.pitfall) + "` | `"@ + spec_root_cause_slug(score.root_cause) + "` | "@
        + reason + " |\n"@
}

/// The rows of one coverage table: the pitfalls with (`pdf == true`) or without a
/// PDF-backed case.
pub open spec fn coverage_rows(ps: Seq<PitfallScore>, reg: Registry, cases: Seq<CaseTag>, pdf: bool) -> Seq<char>
    decreases ps.len(),
{
    if ps.len() == 0 {
        Seq::empty()
    } else {
        let rest = coverage_rows(ps.drop_last(), reg, cases, pdf);
        let s = ps.last();
        if has_pdf_backed_case(cases, s.pitfall) != pdf {
            rest
        } else if pdf {
            rest + pdf_row(s, entry_for(reg, s.pitfall))
        } else {
            rest + synthetic_row(s, entry_for(reg, s.pitfall))
        }
    }
}

/// The generated coverage tables.
pub open spec fn spec_render_coverage_tables(board: Scoreboard, reg: Registry, cases: Seq<CaseTag>) -> Seq<char> {
    "All 15 `assemble::Pitfall` variants are seeded, "@ + decimal(count_non_draft(cases)) + " cases total:\n\n"@
        + "**Hand-authored, synthetic `Document`s** -- reachable through the synthetic `classify_regions`/`assemble_reading_order` surface, no PDF or PDFium involved:\n\n| Pitfall | Root cause |\n|---|---|\n"@
        + coverage_rows(board.pitfalls@, reg, cases, false)
        + "\n**PDF-backed, frozen-extraction snapshots** -- see \"PDF-backed cases\" below:\n\n| Pitfall | Root cause | Why it needs a real PDF |\n|---|---|---|\n"@
        + coverage_rows(board.pitfalls@, reg, cases, true)
}

/// For each pitfall of the checklist, whether it has a PDF-backed non-draft case.
fn pdf_backed_pitfalls(cases: &[CaseTag]) -> (flags: Vec<bool>)
    ensures
        flags@.len() == spec_all_pitfalls().len(),
        forall|k: int| 0 <= k < flags@.len()
            ==> #[trigger] flags@[k] == has_pdf_backed_case(cases@, spec_all_pitfalls()[k]),
{
    let ghost all = spec_all_pitfalls();
    let mut flags: Vec<bool> = Vec::new();
    let n = all_pitfalls().len();
    while flags.len() < n
        invariant
            all == spec_all_pitfalls(),
            n == all.len(),
            flags@.len() <= n,
            forall|k: int| 0 <= k < flags@.len() ==> !(#[trigger] flags@[k]),
        decreases n - flags@.len(),
    {
        flags.push(false);
    }
    let mut i: usize = 0;
    while i < cases.len()
        invariant
            all == spec_all_pitfalls(),
            i <= cases@.len(),
            flags@.len() == all.len(),
            forall|k: int| 0 <= k < all.len() ==> #[trigger] flags@[k]
                == exists|j: int| 0 <= j < i && counts_toward(cases@[j], all[k]) && cases@[j].pdf_backed,
        decreases cases@.len() - i,
    {
        let c = cases[i];
        let ghost before = flags@;
        if !c.draft && c.pdf_backed {
            let idx = pitfall_index(c.pitfall);
            proof {
                lemma_all_pitfalls_exactly_once(c.pitfall);
            }
            flags.set(idx, true);
        }
        proof {
            assert forall|k: int| 0 <= k < all.len() implies #[trigger] flags@[k]
                == exists|j: int| 0 <= j < i + 1 && counts_toward(cases@[j], all[k]) && cases@[j].pdf_backed by {
                if counts_toward(c, all[k]) && c.pdf_backed {
                    lemma_all_pitfalls_exactly_once(c.pitfall);
                    assert(cases@[i as int] == c);
                } else {
                    assert(flags@[k] == before[k]);
                    if exists|j: int| 0 <= j < i + 1 && counts_toward(cases@[j], all[k]) && cases@[j].pdf_backed {
                        let j = choose|j: int| 0 <= j < i + 1 && counts_toward(cases@[j], all[k]) && cases@[j].pdf_backed;
                        assert(j != i);
                    }
                }
            }
        }
        i = i + 1;
    }
    flags
}

/// Appends one synthetic-table row.
fn push_synthetic_row(out: &mut String, score: &PitfallScore, entry: Option<&RegistryEntry>)
    ensures
        final(out)@ == old(out)@ + synthetic_row(*score, opt_entry(entry)),
{
    let slug = pitfall_slug(score.pitfall);
    let title = match entry {
        Some(e) => e.title.as_str(),
        None => slug,
    };
    let ghost start = out@;
    push_str(out, "| `");
    push_str(out, slug);
    push_str(out, "` (");
    push_str(out, title);
    push_str(out, ") | `");
    push_str(out, root_cause_slug(score.root_cause));
    push_str(out, "` |\n");
    assert(out@ =~= start + synthetic_row(*score, opt_entry(entry)));
}

/// Appends one PDF-backed-table row.
fn push_pdf_row(out: &mut String, score: &PitfallScore, entry: Option<&RegistryEntry>)
    ensures
        final(out)@ == old(out)@ + pdf_row(*score, opt_entry(entry)),
{
    let reason = match entry {
        Some(e) => match &e.pdf_backed_reason {
            Some(r) => r.as_str(),
            None => "",
        },
        None => "",
    };
    proof {
        reveal_strlit("");
    }
    let ghost start = out@;
    push_str(out, "| `");
    push_str(out, pitfall_slug(score.pitfall));
    push_str(out, "` | `");
    push_str(out, root_cause_slug(score.root_cause));
    push_str(out, "` | ");
    push_str(out, reason);
    push_str(out, " |\n");
    assert(out@ =~= start + pdf_row(*score, opt_entry(entry)));
}

/// Appends the rows of one coverage table.
fn push_coverage_rows(out: &mut String, board: &Scoreboard, registry: &Registry, cases: &[CaseTag], flags: &Vec<bool>, pdf: bool)
    requires
        board.pitfalls@.len() == spec_all_pitfalls().len(),
        forall|k: int| 0 <= k < board.pitfalls@.len() ==> (#[trigger] board.pitfalls@[k]).pitfall == spec_all_pitfalls()[k],
        flags@.len() == spec_all_pitfalls().len(),
        forall|k: int| 0 <= k < flags@.len()
            ==> #[trigger] flags@[k] == has_pdf_backed_case(cases@, spec_all_pitfalls()[k]),
    ensures
        final(out)@ == old(out)@ + coverage_rows(board.pitfalls@, *registry, cases@, pdf),
{
    let ghost start = out@;
    let mut p: usize = 0;
    while p < board.pitfalls.len()
        invariant
            p <= board.pitfalls@.len(),
            board.pitfalls@.len() == spec_all_pitfalls().len(),
            forall|k: int| 0 <= k < board.pitfalls@.len() ==> (#[trigger] board.pitfalls@[k]).pitfall == spec_all_pitfalls()[k],
            flags@.len() == spec_all_pitfalls().len(),
            forall|k: int| 0 <= k < flags@.len()
                ==> #[trigger] flags@[k] == has_pdf_backed_case(cases@, spec_all_pitfalls()[k]),
            out@ == start + coverage_rows(board.pitfalls@.take(p as int), *registry, cases@, pdf),
        decreases board.pitfalls@.len() - p,
    {
        proof {
            assert(board.pitfalls@.take(p + 1).drop_last() =~= board.pitfalls@.take(p as int));
            assert(board.pitfalls@.take(p + 1).last() == board.pitfalls@[p as int]);
        }
        let score = &board.pitfalls[p];
        assert(flags@[p as int] == has_pdf_backed_case(cases@, score.pitfall));
        if flags[p] == pdf {
            let entry = registry.get(pitfall_slug(score.pitfall));
            if pdf {
                push_pdf_row(out, score, entry);
            } else {
                push_synthetic_row(out, score, entry);
            }
            assert(out@ =~= start + coverage_rows(board.pitfalls@.take(p + 1), *registry, cases@, pdf));
        }
        p = p + 1;
    }
    assert(board.pitfalls@.take(board.pitfalls@.len() as int) =~= board.pitfalls@);
}

/// Counts the non-draft cases.
fn non_draft_count(cases: &[CaseTag]) -> (n: usize)
    ensures
        n == count_non_draft(cases@),
{
    let mut n: usize = 0;
    let mut i: usize = 0;
    while i < cases.len()
        invariant
            i <= cases@.len(),
            n == count_non_draft(cases@.take(i as int)),
            n <= i,
        decreases cases@.len() - i,
    {
        assert(cases@.take(i + 1).drop_last() =~= cases@.take(i as int));
        if !cases[i].draft {
            n = n + 1;
        }
        i = i + 1;
    }
    assert(cases@.take(cases@.len() as int) =~= cases@);
    n
}

/// Renders the two coverage tables (hand-authored synthetic pitfalls, then PDF-backed
/// frozen-snapshot pitfalls) for the `pitfall-coverage` generated block, plus the total
/// seeded-case count. `board` lists the pitfalls in checklist order, as
/// [`score_corpus`] builds it.
pub fn render_coverage_tables(board: &Scoreboard, registry: &Registry, cases: &[CaseTag]) -> (r: String)
    requires
        board.pitfalls@.len() == spec_all_pitfalls().len(),
        forall|k: int| 0 <= k < board.pitfalls@.len() ==> (#[trigger] board.pitfalls@[k]).pitfall == spec_all_pitfalls()[k],
    ensures
        r@ == spec_render_coverage_tables(*board, *registry, cases@),
{
    let flags = pdf_backed_pitfalls(cases);
    let total_cases = non_draft_count(cases);
    let mut out = string_from_str("All 15 `assemble::Pitfall` variants are seeded, ");
    push_decimal(&mut out, total_cases);
    push_str(&mut out, " cases total:\n\n");
    push_str(
        &mut out,
        "**Hand-authored, synthetic `Document`s** -- reachable through the synthetic `classify_regions`/`assemble_reading_order` surface, no PDF or PDFium involved:\n\n| Pitfall | Root cause |\n|---|---|\n",
    );
    let ghost head = out@;
    push_coverage_rows(&mut out, board, registry, cases, &flags, false);
    let ghost mid = out@;
    push_str(
        &mut out,
        "\n**PDF-backed, frozen-extraction snapshots** -- see \"PDF-backed cases\" below:\n\n| Pitfall | Root cause | Why it needs a real PDF |\n|---|---|---|\n",
    );
    push_coverage_rows(&mut out, board, registry, cases, &flags, true);
    out
}

/// `s` is the slug of some pitfall.
pub open spec fn is_pitfall_slug(s: Seq<char>) -> bool {
    exists|p: Pitfall| spec_pitfall_slug(p) == s
}

/// Checks that every registry key is a pitfall slug, reporting the first key (in entry
/// order) that is not.
pub fn validate_registry(registry: &Registry) -> (r: Result<(), ScoreboardError>)
    ensures
        r is Ok <==> forall|i: int| 0 <= i < registry.entries@.len() ==> is_pitfall_slug(#[trigger] registry.entries@[i].0@),
        r is Err ==> exists|i: int| 0 <= i < registry.entries@.len()
            && !is_pitfall_slug(registry.entries@[i].0@)
            && (forall|j: int| 0 <= j < i ==> is_pitfall_slug(#[trigger] registry.entries@[j].0@))
            && (r matches Err(ScoreboardError::UnknownPitfall(s)) && s@ == registry.entries@[i].0@),
{
    let mut i: usize = 0;
    while i < registry.entries.len()
        invariant
            i <= registry.entries@.len(),
            forall|j: int| 0 <= j < i ==> is_pitfall_slug(#[trigger] registry.entries@[j].0@),
        decreases registry.entries@.len() - i,
    {
        let key = registry.entries[i].0.as_str();
        match crate::corpus::pitfall_from_slug(key) {
            Ok(_) => {},
            Err(_) => {
                return Err(ScoreboardError::UnknownPitfall(string_from_str(key)));
            },
        }
        i = i + 1;
    }
    Ok(())
}


/// The characters of `parts`, one part after another.
pub open spec fn concat(parts: Seq<Seq<char>>) -> Seq<char>
    decreases parts.len(),
{
    if parts.len() == 0 {
        Seq::empty()
    } else {
        concat(parts.drop_last()) + parts.last()
    }
}

proof fn lemma_concat_append(x: Seq<Seq<char>>, y: Seq<Seq<char>>)
    ensures
        concat(x + y) == concat(x) + concat(y),
    decreases y.len(),
{
    if y.len() == 0 {
        assert(x + y =~= x);
        assert(concat(x) + Seq::<char>::empty() =~= concat(x));
    } else {
        lemma_concat_append(x, y.drop_last());
        assert((x + y).drop_last() =~= x + y.drop_last());
        assert(concat(x) + concat(y.drop_last()) + y.last() =~= concat(x) + (concat(y.drop_last()) + y.last()));
    }
}

/// The outcomes among `cs` that failed, in order.
pub open spec fn failing_in(cs: Seq<CaseOutcome>) -> Seq<CaseOutcome>
    decreases cs.len(),
{
    if cs.len() == 0 {
        Seq::empty()
    } else if cs.last().passed {
        failing_in(cs.drop_last())
    } else {
        failing_in(cs.drop_last()).push(cs.last())
    }
}

/// The failing outcomes of every pitfall, pitfall by pitfall and case by case.
pub open spec fn failing_outcomes(ps: Seq<PitfallScore>) -> Seq<CaseOutcome>
    decreases ps.len(),
{
    if ps.len() == 0 {
        Seq::empty()
    } else {
        failing_outcomes(ps.drop_last()) + failing_in(ps.last().cases@)
    }
}

/// The line of one mismatch: six spaces, the mismatch, a newline.
pub open spec fn mismatch_line(m: String) -> Seq<char> {
    "      "@ + m@ + "\n"@
}

/// The report block of a failing case: its `  - id:` line, one line per mismatch, then
/// its edit-distance line, if it has one.
pub open spec fn case_block(o: CaseOutcome) -> Seq<char> {
    "  - "@ + o.case_id@ + ":\n"@ + concat(o.mismatches@.map_values(|m: String| mismatch_line(m))) + distance_line(o)
}

proof fn lemma_mismatch_lines_concat(ms: Seq<String>)
    ensures
        mismatch_lines(ms) == concat(ms.map_values(|m: String| mismatch_line(m))),
    decreases ms.len(),
{
    if ms.len() > 0 {
        lemma_mismatch_lines_concat(ms.drop_last());
        assert(ms.map_values(|m: String| mismatch_line(m)).drop_last() =~= ms.drop_last().map_values(|m: String| mismatch_line(m)));
        assert(mismatch_lines(ms.drop_last()) + "      "@ + ms.last()@ + "\n"@
            =~= mismatch_lines(ms.drop_last()) + mismatch_line(ms.last()));
    }
}

proof fn lemma_cases_text_blocks(cs: Seq<CaseOutcome>)
    ensures
        cases_text(cs) == concat(failing_in(cs).map_values(|o: CaseOutcome| case_block(o))),
    decreases cs.len(),
{
    if cs.len() > 0 {
        lemma_cases_text_blocks(cs.drop_last());
        let o = cs.last();
        if o.passed {
            assert(cases_text(cs.drop_last()) + Seq::<char>::empty() =~= cases_text(cs.drop_last()));
        } else {
            lemma_mismatch_lines_concat(o.mismatches@);
            let f = failing_in(cs.drop_last());
            assert(f.push(o).map_values(|o: CaseOutcome| case_block(o)).drop_last()
                =~= f.map_values(|o: CaseOutcome| case_block(o)));
            assert(failing_case_text(o) =~= case_block(o));
        }
    }
}

proof fn lemma_pitfalls_text_blocks(ps: Seq<PitfallScore>)
    ensures
        pitfalls_text(ps) == concat(failing_outcomes(ps).map_values(|o: CaseOutcome| case_block(o))),
    decreases ps.len(),
{
    if ps.len() > 0 {
        lemma_pitfalls_text_blocks(ps.drop_last());
        lemma_cases_text_blocks(ps.last().cases@);
        let x = failing_outcomes(ps.drop_last()).map_values(|o: CaseOutcome| case_block(o));
        let y = failing_in(ps.last().cases@).map_values(|o: CaseOutcome| case_block(o));
        assert(failing_outcomes(ps).map_values(|o: CaseOutcome| case_block(o)) =~= x + y);
        lemma_concat_append(x, y);
    }
}

proof fn lemma_failing_in_failed(cs: Seq<CaseOutcome>)
    ensures
        forall|k: int| 0 <= k < failing_in(cs).len() ==> !(#[trigger] failing_in(cs)[k]).passed,
    decreases cs.len(),
{
    if cs.len() > 0 {
        lemma_failing_in_failed(cs.drop_last());
    }
}

proof fn lemma_failing_outcomes_failed(ps: Seq<PitfallScore>)
    ensures
        forall|k: int| 0 <= k < failing_outcomes(ps).len() ==> !(#[trigger] failing_outcomes(ps)[k]).passed,
    decreases ps.len(),
{
    if ps.len() > 0 {
        lemma_failing_outcomes_failed(ps.drop_last());
        lemma_failing_in_failed(ps.last().cases@);
        let x = failing_outcomes(ps.drop_last());
        let y = failing_in(ps.last().cases@);
        assert forall|k: int| 0 <= k < failing_outcomes(ps).len() implies !(#[trigger] failing_outcomes(ps)[k]).passed by {
            if k < x.len() {
                assert(failing_outcomes(ps)[k] == x[k]);
            } else {
                assert(failing_outcomes(ps)[k] == y[k - x.len()]);
            }
        }
    }
}

/// The report lists the failing cases, and only them, pitfall by pitfall and case by
/// case: after its heading line comes one block per failing outcome, made of its
/// `  - id:` line, one six-space-indented line per mismatch and its edit-distance line;
/// passing outcomes add nothing; the `failing / total` line comes last.
pub proof fn lemma_report_lists_failing_cases(board: Scoreboard)
    ensures
        spec_render_text(board) == "Stage 3 regression corpus scoreboard -- failing cases:\n"@
            + concat(failing_outcomes(board.pitfalls@).map_values(|o: CaseOutcome| case_block(o)))
            + "\n"@ + decimal((board.total - board.passing) as nat) + " / "@ + decimal(board.total as nat)
            + " cases failing.\n"@,
        forall|k: int| 0 <= k < failing_outcomes(board.pitfalls@).len()
            ==> !(#[trigger] failing_outcomes(board.pitfalls@)[k]).passed,
        forall|o: CaseOutcome| #[trigger] case_block(o) == "  - "@ + o.case_id@ + ":\n"@
            + concat(o.mismatches@.map_values(|m: String| "      "@ + m@ + "\n"@)) + distance_line(o),
{
    lemma_pitfalls_text_blocks(board.pitfalls@);
    lemma_failing_outcomes_failed(board.pitfalls@);
    assert forall|o: CaseOutcome| #[trigger] case_block(o) == "  - "@ + o.case_id@ + ":\n"@
        + concat(o.mismatches@.map_values(|m: String| "      "@ + m@ + "\n"@)) + distance_line(o) by {
        assert(o.mismatches@.map_values(|m: String| mismatch_line(m))
            =~= o.mismatches@.map_values(|m: String| "      "@ + m@ + "\n"@));
    }
}


/// The checklist marker a pitfall's status calls for: a registry override of `fixed`
/// or `partial` is taken as it is (any other override counts as open); without one,
/// the pitfall is fixed when all of at least one case pass and partial when some do.
/// Fixed shows `[x]`, partial `[~]`, open `[ ]`.
pub open spec fn expected_marker(score: PitfallScore, entry: Option<RegistryEntry>) -> Seq<char> {
    match entry {
        Some(e) if e.status_override is Some => {
            let o = e.status_override->0@;
            if o == "fixed"@ {
                "[x]"@
            } else if o == "partial"@ {
                "[~]"@
            } else {
                "[ ]"@
            }
        },
        _ => if score.total > 0 && score.passing == score.total {
            "[x]"@
        } else if score.passing > 0 {
            "[~]"@
        } else {
            "[ ]"@
        },
    }
}

/// The title a pitfall's bullet shows: the registry's, or the slug without an entry.
pub open spec fn bullet_title(score: PitfallScore, entry: Option<RegistryEntry>) -> Seq<char> {
    match entry {
        Some(e) => e.title@,
        None => spec_pitfall_slug(score.pitfall),
    }
}

/// The opening of a pitfall's bullet: `- `, the marker its status calls for, and its
/// title in bold.
pub open spec fn bullet_head(score: PitfallScore, entry: Option<RegistryEntry>) -> Seq<char> {
    "- "@ + expected_marker(score, entry) + " **"@ + bullet_title(score, entry) + "** — "@
}

/// Every pitfall's bullet starts with `- `, the marker its status calls for, and its
/// title in bold.
pub proof fn lemma_bullet_marker(score: PitfallScore, entry: Option<RegistryEntry>)
    ensures
        has_prefix(checklist_line(score, entry), bullet_head(score, entry)),
{
    reveal_strlit("fixed");
    reveal_strlit("partial");
    reveal_strlit("open");
    let m = expected_marker(score, entry);
    assert("fixed"@.len() == 5 && "partial"@.len() == 7 && "open"@.len() == 4);
    assert("fixed"@ != "partial"@ && "open"@ != "fixed"@ && "open"@ != "partial"@);
    assert(spec_status_marker(spec_derived_status(score, entry)) == m);
    let head = bullet_head(score, entry);
    assert(checklist_line(score, entry) =~= head + (match entry {
        Some(e) => e.summary@,
        None => Seq::empty(),
    }) + line_counts(score) + line_note(entry) + ")*\n"@);
    assert(checklist_line(score, entry).take(head.len() as int) =~= head);
}

proof fn lemma_checklist_lines_concat(ps: Seq<PitfallScore>, reg: Registry)
    ensures
        checklist_lines(ps, reg) == concat(ps.map_values(|s: PitfallScore| checklist_line(s, entry_for(reg, s.pitfall)))),
    decreases ps.len(),
{
    if ps.len() > 0 {
        lemma_checklist_lines_concat(ps.drop_last(), reg);
        assert(ps.map_values(|s: PitfallScore| checklist_line(s, entry_for(reg, s.pitfall))).drop_last()
            =~= ps.drop_last().map_values(|s: PitfallScore| checklist_line(s, entry_for(reg, s.pitfall))));
    }
}

/// The checklist is an opening paragraph that gives the passing and total case counts,
/// then one bullet per pitfall, in the board's order, each opening with the marker its
/// status calls for (see [`lemma_bullet_marker`]).
pub proof fn lemma_checklist_layout(board: Scoreboard, reg: Registry)
    ensures
        spec_render_checklist(board, reg) == "Status reflects the Stage 3 regression corpus under [`fixtures/`](../fixtures) — run `cargo run --example stage3_scoreboard --features stage3` for the live scoreboard (currently "@
            + decimal(board.passing as nat) + "/"@ + decimal(board.total as nat)
            + " cases passing); see [`fixtures/README.md`](../fixtures/README.md) for per-case detail.\n\n"@
            + concat(board.pitfalls@.map_values(|s: PitfallScore| checklist_line(s, entry_for(reg, s.pitfall)))),
        forall|i: int| 0 <= i < board.pitfalls@.len() ==> {
            let s = #[trigger] board.pitfalls@[i];
            let e = entry_for(reg, s.pitfall);
            has_prefix(checklist_line(s, e), bullet_head(s, e))
        },
{
    lemma_checklist_lines_concat(board.pitfalls@, reg);
    assert forall|i: int| 0 <= i < board.pitfalls@.len() implies {
        let s = #[trigger] board.pitfalls@[i];
        let e = entry_for(reg, s.pitfall);
        has_prefix(checklist_line(s, e), bullet_head(s, e))
    } by {
        lemma_bullet_marker(board.pitfalls@[i], entry_for(reg, board.pitfalls@[i].pitfall));
    }
}


/// The (reason, next step) a pitfall is blocked on, per its registry entry.
pub open spec fn blocked_key(reg: Registry, p: Pitfall) -> Option<(Seq<char>, Seq<char>)> {
    match entry_for(reg, p) {
        Some(e) => match e.blocked {
            Some(b) => Some((b.reason@, b.unblocked_by@)),
            None => None,
        },
        None => None,
    }
}

/// The (reason, next step) of every blocked pitfall, in the board's order.
pub open spec fn blocked_keys(ps: Seq<PitfallScore>, reg: Registry) -> Seq<(Seq<char>, Seq<char>)>
    decreases ps.len(),
{
    if ps.len() == 0 {
        Seq::empty()
    } else {
        match blocked_key(reg, ps.last().pitfall) {
            Some(k) => blocked_keys(ps.drop_last(), reg).push(k),
            None => blocked_keys(ps.drop_last(), reg),
        }
    }
}

/// The distinct elements of `ks`, in the order they first appear.
pub open spec fn distinct_in_order(ks: Seq<(Seq<char>, Seq<char>)>) -> Seq<(Seq<char>, Seq<char>)>
    decreases ks.len(),
{
    if ks.len() == 0 {
        Seq::empty()
    } else {
        let d = distinct_in_order(ks.drop_last());
        if d.contains(ks.last()) {
            d
        } else {
            d.push(ks.last())
        }
    }
}

/// The titles of the pitfalls blocked on `(r, u)`, in the board's order.
pub open spec fn titles_blocked_on(ps: Seq<PitfallScore>, reg: Registry, r: Seq<char>, u: Seq<char>) -> Seq<Seq<char>>
    decreases ps.len(),
{
    if ps.len() == 0 {
        Seq::empty()
    } else {
        let rest = titles_blocked_on(ps.drop_last(), reg, r, u);
        if blocked_key(reg, ps.last().pitfall) == Some((r, u)) {
            rest.push(entry_for(reg, ps.last().pitfall)->0.title@)
        } else {
            rest
        }
    }
}

/// The (reason, next step) of a blocker group.
pub open spec fn group_key(g: BlockerGroup) -> (Seq<char>, Seq<char>) {
    (g.reason, g.unblocked_by)
}

/// The row of one blocker group.
pub open spec fn blocker_row(g: BlockerGroup) -> Seq<char> {
    "| "@ + g.reason + " | "@ + join(g.titles, ", "@) + " | "@ + g.unblocked_by + " |\n"@
}

proof fn lemma_blocker_groups(ps: Seq<PitfallScore>, reg: Registry)
    ensures
        blocker_groups(ps, reg).map_values(|g: BlockerGroup| group_key(g)) == distinct_in_order(blocked_keys(ps, reg)),
        forall|k: int| 0 <= k < blocker_groups(ps, reg).len() ==> (#[trigger] blocker_groups(ps, reg)[k]).titles
            == titles_blocked_on(ps, reg, blocker_groups(ps, reg)[k].reason, blocker_groups(ps, reg)[k].unblocked_by),
        forall|j: int, k: int| 0 <= j < k < blocker_groups(ps, reg).len()
            ==> group_key(#[trigger] blocker_groups(ps, reg)[j]) != group_key(#[trigger] blocker_groups(ps, reg)[k]),
        forall|r: Seq<char>, u: Seq<char>| !blocker_groups(ps, reg).map_values(|g: BlockerGroup| group_key(g)).contains((r, u))
            ==> #[trigger] titles_blocked_on(ps, reg, r, u) == Seq::<Seq<char>>::empty(),
    decreases ps.len(),
{
    if ps.len() > 0 {
        let prev = ps.drop_last();
        lemma_blocker_groups(prev, reg);
        let g = blocker_groups(prev, reg);
        let keys = g.map_values(|g: BlockerGroup| group_key(g));
        let p = ps.last().pitfall;
        match blocked_key(reg, p) {
            None => {
                assert(blocked_keys(ps, reg) == blocked_keys(prev, reg));
                assert(blocker_groups(ps, reg) == g);
                assert forall|r: Seq<char>, u: Seq<char>| #[trigger] titles_blocked_on(ps, reg, r, u) == titles_blocked_on(prev, reg, r, u) by {}
            },
            Some(key) => {
                let (r, u) = key;
                let e = entry_for(reg, p)->0;
                let b = e.blocked->0;
                let t = e.title@;
                assert(b.reason@ == r && b.unblocked_by@ == u);
                let ng = blocker_groups(ps, reg);
                assert(ng == add_blocker(g, r, u, t));
                let bk = blocked_keys(ps, reg);
                assert(bk == blocked_keys(prev, reg).push((r, u)));
                assert(bk.drop_last() =~= blocked_keys(prev, reg));
                assert(bk.last() == (r, u));
                assert forall|r2: Seq<char>, u2: Seq<char>| (r2, u2) != (r, u) implies
                    #[trigger] titles_blocked_on(ps, reg, r2, u2) == titles_blocked_on(prev, reg, r2, u2) by {}
                assert(titles_blocked_on(ps, reg, r, u) == titles_blocked_on(prev, reg, r, u).push(t));
                if keys.contains((r, u)) {
                    let k = choose|k: int| 0 <= k < keys.len() && keys[k] == (r, u);
                    assert(group_key(g[k]) == (r, u));
                    assert(first_group(g, r, u, k)) by {
                        assert forall|j: int| 0 <= j < k implies !(g[j].reason == r && g[j].unblocked_by == u) by {
                            assert(group_key(g[j]) != group_key(g[k]));
                        }
                    }
                    let k2 = choose|k2: int| first_group(g, r, u, k2);
                    assert(k2 == k) by {
                        if k2 < k {
                            assert(group_key(g[k2]) != group_key(g[k]));
                        } else if k < k2 {
                        }
                    }
                    assert(ng.map_values(|g: BlockerGroup| group_key(g)) =~= keys);
                    assert forall|j: int| 0 <= j < ng.len() implies (#[trigger] ng[j]).titles
                        == titles_blocked_on(ps, reg, ng[j].reason, ng[j].unblocked_by) by {
                        if j != k {
                            assert(ng[j] == g[j]);
                            assert(group_key(g[j]) != group_key(g[k]) || j == k);
                            if j < k {
                                assert(group_key(g[j]) != group_key(g[k]));
                            } else {
                                assert(group_key(g[k]) != group_key(g[j]));
                            }
                        }
                    }
                    assert forall|j: int, l: int| 0 <= j < l < ng.len()
                        implies group_key(#[trigger] ng[j]) != group_key(#[trigger] ng[l]) by {
                        assert(group_key(ng[j]) == group_key(g[j]));
                        assert(group_key(ng[l]) == group_key(g[l]));
                    }
                } else {
                    assert(!(exists|k: int| first_group(g, r, u, k))) by {
                        if exists|k: int| first_group(g, r, u, k) {
                            let k = choose|k: int| first_group(g, r, u, k);
                            assert(keys[k] == (r, u));
                        }
                    }
                    assert(ng == g.push(BlockerGroup { reason: r, unblocked_by: u, titles: seq![t] }));
                    assert(ng.map_values(|g: BlockerGroup| group_key(g)) =~= keys.push((r, u)));
                    assert(titles_blocked_on(prev, reg, r, u) == Seq::<Seq<char>>::empty());
                    assert(seq![t] =~= Seq::<Seq<char>>::empty().push(t));
                    assert forall|j: int| 0 <= j < ng.len() implies (#[trigger] ng[j]).titles
                        == titles_blocked_on(ps, reg, ng[j].reason, ng[j].unblocked_by) by {
                        if j < g.len() {
                            assert(ng[j] == g[j]);
                            assert(keys[j] == group_key(g[j]));
                        }
                    }
                    assert forall|j: int, l: int| 0 <= j < l < ng.len()
                        implies group_key(#[trigger] ng[j]) != group_key(#[trigger] ng[l]) by {
                        if l == g.len() {
                            assert(keys[j] == group_key(g[j]));
                        } else {
                            assert(group_key(ng[j]) == group_key(g[j]));
                            assert(group_key(ng[l]) == group_key(g[l]));
                        }
                    }
                    assert forall|r2: Seq<char>, u2: Seq<char>| !ng.map_values(|g: BlockerGroup| group_key(g)).contains((r2, u2))
                        implies #[trigger] titles_blocked_on(ps, reg, r2, u2) == Seq::<Seq<char>>::empty() by {
                        assert(ng.map_values(|g: BlockerGroup| group_key(g))[g.len() as int] == (r, u));
                        if keys.contains((r2, u2)) {
                            let j = choose|j: int| 0 <= j < keys.len() && keys[j] == (r2, u2);
                            assert(ng.map_values(|g: BlockerGroup| group_key(g))[j] == (r2, u2));
                        }
                    }
                }
            },
        }
    }
}

proof fn lemma_blocker_rows_concat(g: Seq<BlockerGroup>)
    ensures
        blocker_rows(g) == concat(g.map_values(|x: BlockerGroup| blocker_row(x))),
    decreases g.len(),
{
    if g.len() > 0 {
        lemma_blocker_rows_concat(g.drop_last());
        assert(g.map_values(|x: BlockerGroup| blocker_row(x)).drop_last() =~= g.drop_last().map_values(|x: BlockerGroup| blocker_row(x)));
        let l = g.last();
        assert(blocker_rows(g.drop_last()) + "| "@ + l.reason + " | "@ + join(l.titles, ", "@) + " | "@ + l.unblocked_by + " |\n"@
            =~= blocker_rows(g.drop_last()) + blocker_row(l));
    }
}

/// The blocker table groups the blocked pitfalls by (reason, next step): after its
/// header, one row per distinct pair, in the order the pairs first appear on the board,
/// listing the titles of the pitfalls blocked on it in the board's order; pitfalls
/// without an entry or without a blocker add nothing.
pub proof fn lemma_blocker_table_groups(board: Scoreboard, reg: Registry)
    ensures
        spec_render_blocker_table(board, reg) == "| Blocker | Pitfalls | Next step |\n|---|---|---|\n"@
            + concat(blocker_groups(board.pitfalls@, reg).map_values(|x: BlockerGroup| blocker_row(x))),
        blocker_groups(board.pitfalls@, reg).map_values(|g: BlockerGroup| group_key(g))
            == distinct_in_order(blocked_keys(board.pitfalls@, reg)),
        forall|k: int| 0 <= k < blocker_groups(board.pitfalls@, reg).len()
            ==> (#[trigger] blocker_groups(board.pitfalls@, reg)[k]).titles == titles_blocked_on(
                board.pitfalls@, reg, blocker_groups(board.pitfalls@, reg)[k].reason,
                blocker_groups(board.pitfalls@, reg)[k].unblocked_by),
{
    lemma_blocker_groups(board.pitfalls@, reg);
    lemma_blocker_rows_concat(blocker_groups(board.pitfalls@, reg));
}


/// `a` sorts strictly before `b`: character by character by code point, a proper prefix
/// first (the order of `String`'s `Ord`, which compares UTF-8 bytes and so code points).
pub open spec fn key_less(a: Seq<char>, b: Seq<char>) -> bool
    decreases a.len(),
{
    if a.len() == 0 {
        b.len() > 0
    } else if b.len() == 0 {
        false
    } else if (a[0] as u32) < (b[0] as u32) {
        true
    } else if a[0] == b[0] {
        key_less(a.drop_first(), b.drop_first())
    } else {
        false
    }
}

/// The registry's keys are strictly ascending, so no key repeats.
pub open spec fn registry_wf(entries: Seq<(String, RegistryEntry)>) -> bool {
    forall|i: int, j: int| 0 <= i < j < entries.len() ==> key_less(#[trigger] entries[i].0@, #[trigger] entries[j].0@)
}

proof fn lemma_code_point_order(c: char, d: char)
    ensures
        c != d ==> (c as u32) != (d as u32),
{
    assert((c as u32) as int == c as int);
    assert((d as u32) as int == d as int);
}

/// `key_less` is a strict total order.
proof fn lemma_key_less_order(a: Seq<char>, b: Seq<char>, c: Seq<char>)
    ensures
        !key_less(a, a),
        key_less(a, b) ==> !key_less(b, a),
        a != b ==> key_less(a, b) || key_less(b, a),
        key_less(a, b) && key_less(b, c) ==> key_less(a, c),
    decreases a.len(),
{
    if a.len() > 0 && b.len() > 0 {
        lemma_code_point_order(a[0], b[0]);
        if c.len() > 0 {
            lemma_key_less_order(a.drop_first(), b.drop_first(), c.drop_first());
        } else {
            lemma_key_less_order(a.drop_first(), b.drop_first(), b.drop_first());
        }
        if a != b && a[0] == b[0] {
            assert(a.drop_first() != b.drop_first()) by {
                if a.drop_first() == b.drop_first() {
                    assert(a =~= seq![a[0]] + a.drop_first());
                    assert(b =~= seq![b[0]] + b.drop_first());
                }
            }
        }
    } else if a.len() > 0 {
        lemma_key_less_order(a.drop_first(), a.drop_first(), a.drop_first());
    } else if b.len() == 0 {
        assert(a =~= b);
    }
}

/// Compares two keys by [`key_less`].
fn key_is_less(a: &Vec<char>, b: &Vec<char>) -> (r: bool)
    ensures
        r == key_less(a@, b@),
{
    let mut i: usize = 0;
    assert(a@.skip(0) =~= a@);
    assert(b@.skip(0) =~= b@);
    while i < a.len() && i < b.len() && a[i] == b[i]
        invariant
            i <= a@.len(),
            i <= b@.len(),
            key_less(a@, b@) == key_less(a@.skip(i as int), b@.skip(i as int)),
        decreases a@.len() - i,
    {
        assert(a@.skip(i as int).drop_first() =~= a@.skip(i + 1));
        assert(b@.skip(i as int).drop_first() =~= b@.skip(i + 1));
        i = i + 1;
    }
    if i == a.len() {
        i < b.len()
    } else if i == b.len() {
        false
    } else {
        (a[i] as u32) < (b[i] as u32)
    }
}


/// Replacing the entry at the position of its key keeps the keys ascending and changes
/// the lookup of that key only.
proof fn lemma_replace_at(old: Seq<(String, RegistryEntry)>, i: int, key: String, entry: RegistryEntry)
    requires
        registry_wf(old),
        0 <= i < old.len(),
        old[i].0@ == key@,
    ensures
        registry_wf(old.update(i, (key, entry))),
        forall|k: Seq<char>| #[trigger] registry_get(old.update(i, (key, entry)), k)
            == if k == key@ { Some(entry) } else { registry_get(old, k) },
    decreases old.len(),
{
    let ne = old.update(i, (key, entry));
    assert forall|a: int, b: int| 0 <= a < b < ne.len() implies key_less(#[trigger] ne[a].0@, #[trigger] ne[b].0@) by {
        assert(key_less(old[a].0@, old[b].0@));
    }
    assert forall|k: Seq<char>| #[trigger] registry_get(ne, k)
        == if k == key@ { Some(entry) } else { registry_get(old, k) } by {
        lemma_registry_get_first(old, k);
        lemma_registry_get_first(ne, k);
        if k == key@ {
            lemma_unique_key(old, i, k);
            lemma_unique_key(ne, i, k);
        } else {
            assert forall|j: int| 0 <= j < ne.len() implies (ne[j].0@ == k <==> old[j].0@ == k) && (ne[j].0@ == k ==> ne[j] == old[j]) by {}
        }
    }
}

/// Inserting an entry at the position its key sorts to keeps the keys ascending and adds
/// the lookup of that key only.
proof fn lemma_insert_at(old: Seq<(String, RegistryEntry)>, i: int, key: String, entry: RegistryEntry)
    requires
        registry_wf(old),
        0 <= i <= old.len(),
        forall|j: int| 0 <= j < i ==> key_less(#[trigger] old[j].0@, key@),
        i < old.len() ==> key_less(key@, old[i].0@),
    ensures
        registry_wf(old.insert(i, (key, entry))),
        forall|k: Seq<char>| #[trigger] registry_get(old.insert(i, (key, entry)), k)
            == if k == key@ { Some(entry) } else { registry_get(old, k) },
{
    let ne = old.insert(i, (key, entry));
    assert forall|a: int, b: int| 0 <= a < b < ne.len() implies key_less(#[trigger] ne[a].0@, #[trigger] ne[b].0@) by {
        if b < i {
            assert(key_less(old[a].0@, old[b].0@));
        } else if b == i {
        } else if a == i {
            if b - 1 > i {
                assert(key_less(old[i].0@, old[b - 1].0@));
                lemma_key_less_order(key@, old[i].0@, old[b - 1].0@);
            }
        } else if a < i {
            lemma_key_less_order(old[a].0@, key@, old[b - 1].0@);
            if b - 1 > i {
                assert(key_less(old[i].0@, old[b - 1].0@));
                lemma_key_less_order(key@, old[i].0@, old[b - 1].0@);
            }
        } else {
            assert(key_less(old[a - 1].0@, old[b - 1].0@));
        }
    }
    assert forall|k: Seq<char>| #[trigger] registry_get(ne, k)
        == if k == key@ { Some(entry) } else { registry_get(old, k) } by {
        lemma_registry_get_first(old, k);
        lemma_registry_get_first(ne, k);
        if k == key@ {
            assert(ne[i].0@ == k);
            lemma_unique_key(ne, i, k);
            let e1 = registry_get(ne, k)->0;
            let j1 = choose|j1: int| 0 <= j1 < ne.len() && ne[j1].0@ == k && ne[j1].1 == e1
                && forall|l: int| 0 <= l < j1 ==> ne[l].0@ != k;
            assert(j1 == i);
        } else {
            assert forall|j: int| 0 <= j < ne.len() && ne[j].0@ == k implies
                ((j < i && ne[j] == old[j]) || (j > i && ne[j] == old[j - 1])) by {}
            assert forall|j: int| 0 <= j < old.len() && old[j].0@ == k implies
                ((j < i && ne[j] == old[j]) || (j >= i && ne[j + 1] == old[j])) by {}
            if exists|j: int| 0 <= j < old.len() && old[j].0@ == k {
                let j = choose|j: int| 0 <= j < old.len() && old[j].0@ == k;
                lemma_unique_key(old, j, k);
                let jn = if j < i { j } else { j + 1 };
                assert(ne[jn] == old[j]);
                lemma_unique_key(ne, jn, k);
                let e2 = registry_get(old, k)->0;
                let j2 = choose|j2: int| 0 <= j2 < old.len() && old[j2].0@ == k && old[j2].1 == e2
                    && forall|l: int| 0 <= l < j2 ==> old[l].0@ != k;
                let e1 = registry_get(ne, k)->0;
                let j1 = choose|j1: int| 0 <= j1 < ne.len() && ne[j1].0@ == k && ne[j1].1 == e1
                    && forall|l: int| 0 <= l < j1 ==> ne[l].0@ != k;
                assert(j2 == j && j1 == jn);
            } else {
                assert forall|l: int| 0 <= l < ne.len() implies ne[l].0@ != k by {
                    if l < i {
                        assert(ne[l] == old[l]);
                    } else if l > i {
                        assert(ne[l] == old[l - 1]);
                    }
                }
            }
        }
    }
}

/// The lookup finds the first entry with the key, if there is one.
proof fn lemma_registry_get_first(entries: Seq<(String, RegistryEntry)>, key: Seq<char>)
    ensures
        registry_get(entries, key) is None <==> forall|j: int| 0 <= j < entries.len() ==> entries[j].0@ != key,
        registry_get(entries, key) matches Some(e) ==> exists|j: int| 0 <= j < entries.len()
            && entries[j].0@ == key && entries[j].1 == e
            && forall|l: int| 0 <= l < j ==> entries[l].0@ != key,
    decreases entries.len(),
{
    if entries.len() > 0 {
        let rest = entries.drop_first();
        lemma_registry_get_first(rest, key);
        if entries[0].0@ != key {
            assert forall|j: int| 0 <= j < rest.len() implies rest[j] == entries[j + 1] by {}
            if registry_get(rest, key) is None {
                assert forall|j: int| 0 <= j < entries.len() implies entries[j].0@ != key by {
                    if j > 0 {
                        assert(entries[j] == rest[j - 1]);
                    }
                }
            } else {
                let e = registry_get(rest, key)->0;
                let j = choose|j: int| 0 <= j < rest.len() && rest[j].0@ == key && rest[j].1 == e
                    && forall|l: int| 0 <= l < j ==> rest[l].0@ != key;
                assert(entries[j + 1] == rest[j]);
                assert forall|l: int| 0 <= l < j + 1 implies entries[l].0@ != key by {
                    if l > 0 {
                        assert(entries[l] == rest[l - 1]);
                    }
                }
            }
        }
    }
}

/// In a registry with strictly ascending keys (see [`registry_wf`]) a key sits at one
/// position at most, so the entry [`Registry::get`] finds is the only one.
pub proof fn lemma_unique_key(entries: Seq<(String, RegistryEntry)>, i: int, key: Seq<char>)
    requires
        registry_wf(entries),
        0 <= i < entries.len(),
        entries[i].0@ == key,
    ensures
        forall|j: int| 0 <= j < entries.len() && entries[j].0@ == key ==> j == i,
{
    assert forall|j: int| 0 <= j < entries.len() && entries[j].0@ == key implies j == i by {
        lemma_key_less_order(key, key, key);
        if j < i {
            assert(key_less(entries[j].0@, entries[i].0@));
        } else if j > i {
            assert(key_less(entries[i].0@, entries[j].0@));
        }
    }
}

impl Registry {
    /// An empty registry.
    pub fn new() -> (r: Registry)
        ensures
            r.entries@.len() == 0,
            registry_wf(r.entries@),
    {
        Registry { entries: Vec::new() }
    }

    /// Stores `entry` under `key`, replacing the entry already stored under it (as a
    /// sorted map does), and keeps the keys strictly ascending.
    pub fn insert(&mut self, key: String, entry: RegistryEntry)
        requires
            registry_wf(old(self).entries@),
        ensures
            registry_wf(final(self).entries@),
            forall|k: Seq<char>| #[trigger] registry_get(final(self).entries@, k)
                == if k == key@ { Some(entry) } else { registry_get(old(self).entries@, k) },
    {
        let ghost old_entries = self.entries@;
        let kv = chars_of(key.as_str());
        let mut i: usize = 0;
        while i < self.entries.len()
            invariant
                i <= self.entries@.len(),
                self.entries@ == old_entries,
                kv@ == key@,
                forall|j: int| 0 <= j < i ==> key_less(#[trigger] self.entries@[j].0@, key@),
            ensures
                i <= self.entries@.len(),
                self.entries@ == old_entries,
                forall|j: int| 0 <= j < i ==> key_less(#[trigger] self.entries@[j].0@, key@),
                i < self.entries@.len() ==> !key_less(self.entries@[i as int].0@, key@),
            decreases self.entries@.len() - i,
        {
            let other = chars_of(self.entries[i].0.as_str());
            if !key_is_less(&other, &kv) {
                break;
            }
            i = i + 1;
        }
        // `i` is the first position whose key is not below `key`.
        let mut same = false;
        if i < self.entries.len() {
            let other = chars_of(self.entries[i].0.as_str());
            same = chars_eq(&other, &kv);
        }
        if same {
            self.entries.set(i, (key, entry));
            proof {
                lemma_replace_at(old_entries, i as int, key, entry);
            }
        } else {
            proof {
                if i < old_entries.len() {
                    lemma_key_less_order(key@, old_entries[i as int].0@, key@);
                }
            }
            self.entries.insert(i, (key, entry));
            proof {
                lemma_insert_at(old_entries, i as int, key, entry);
            }
        }
    }
}

} // verus!
