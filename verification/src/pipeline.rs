//! From lines to routes: each template is judged once.
use std::sync::Arc;
use vstd::hash_map::StringHashMap;
use vstd::prelude::*;

use crate::cache::{kept, Cache, MAX_ENTRIES};
use crate::judge::{Judged, Verdict, VerdictView};
use crate::route::{route_of, Route, Thresholds};
use crate::template::Assignment;
use crate::text::{decimal, decimal_text, owned_view, share};

verus! {

/// What became of a line.
#[derive(Debug, Clone)]
pub struct Triaged {
    pub cluster: usize,
    pub template: Arc<str>,
    pub verdict: Arc<Verdict>,
    pub route: Route,
}

/// What a triaged line holds.
pub struct TriagedView {
    pub cluster: usize,
    pub template: Seq<char>,
    pub verdict: VerdictView,
    pub route: Route,
}

impl View for Triaged {
    type V = TriagedView;

    open spec fn view(&self) -> TriagedView {
        TriagedView {
            cluster: self.cluster,
            template: self.template@,
            verdict: self.verdict@,
            route: self.route,
        }
    }
}

/// The views of triaged lines.
pub open spec fn triaged_views(list: Seq<Triaged>) -> Seq<TriagedView> {
    list.map_values(|t: Triaged| t@)
}

/// What was done so far.
#[derive(Debug)]
pub struct Stats {
    pub lines: u64,
    pub judged: u64,
    pub fallbacks: u64,
    pub input_tokens: u64,
    /// The model that judged last.
    pub model: Option<String>,
    /// How long judgements took, in milliseconds: all of them, or every so many
    /// of them once there are too many to keep.
    pub latencies_ms: Vec<u32>,
}

impl Default for Stats {
    fn default() -> (stats: Stats)
        ensures
            stats.lines == 0,
            stats.judged == 0,
            stats.fallbacks == 0,
            stats.input_tokens == 0,
            stats.model is None,
            stats.latencies_ms@ == Seq::<u32>::empty(),
    {
        Stats {
            lines: 0,
            judged: 0,
            fallbacks: 0,
            input_tokens: 0,
            model: None,
            latencies_ms: Vec::new(),
        }
    }
}

/// What was done, in one line, where there are `clusters` templates.
pub open spec fn summary_text(stats: Stats, clusters: u64) -> Seq<char> {
    crate::NAME@ + ": "@ + decimal_text(stats.lines as nat) + " lines → "@ + decimal_text(
        clusters as nat,
    ) + " templates → "@ + decimal_text(stats.judged as nat) + " judged ("@ + decimal_text(
        stats.input_tokens as nat,
    ) + " input tokens, "@ + decimal_text(stats.fallbacks as nat) + " fallbacks)"@
}

impl Stats {
    /// What was done, in one line, where there are `clusters` templates.
    pub fn summary(&self, clusters: u64) -> (text: String)
        ensures
            text@ == summary_text(*self, clusters),
    {
        let mut text = String::new();
        text.append(crate::NAME);
        text.append(": ");
        text.append(decimal(self.lines).as_str());
        text.append(" lines → ");
        text.append(decimal(clusters).as_str());
        text.append(" templates → ");
        text.append(decimal(self.judged).as_str());
        text.append(" judged (");
        text.append(decimal(self.input_tokens).as_str());
        text.append(" input tokens, ");
        text.append(decimal(self.fallbacks).as_str());
        text.append(" fallbacks)");
        text
    }
}

/// The nanoseconds between two times that the cache is saved.
pub const CHECKPOINT: u128 = 30_000_000_000;

/// The latencies that are kept.
pub const MAX_LATENCY_SAMPLES: usize = 100_000;

/// Every other item of `list`, from the first on.
pub open spec fn every_other<T>(list: Seq<T>) -> Seq<T> {
    Seq::new(((list.len() + 1) / 2) as nat, |i: int| list[2 * i])
}

/// The latencies after the judgement with the number `judged` took `millis`
/// milliseconds, where every `stride`-th is kept, and the stride from now on.
/// When there are too many, every other one is dropped and the stride doubles.
pub open spec fn sampled(samples: Seq<u32>, stride: nat, judged: nat, millis: u128) -> (
    Seq<u32>,
    nat,
) {
    let all = samples.push((millis % 0x1_0000_0000) as u32);
    if judged % stride != 0 {
        (samples, stride)
    } else if all.len() >= MAX_LATENCY_SAMPLES {
        (every_other(all), 2 * stride)
    } else {
        (all, stride)
    }
}

/// Drops every other item, from the second on.
fn thin(samples: &Vec<u32>) -> (kept: Vec<u32>)
    ensures
        kept@ == every_other(samples@),
{
    let mut kept: Vec<u32> = Vec::new();
    let mut i: usize = 0;
    while i < samples.len()
        invariant
            i <= samples@.len() + 1,
            i % 2 == 0,
            kept@.len() == i / 2,
            forall|k: int| 0 <= k < kept@.len() ==> #[trigger] kept@[k] == samples@[2 * k],
        decreases samples@.len() + 1 - i,
    {
        kept.push(samples[i]);
        if samples.len() - i < 2 {
            assert(kept@ == every_other(samples@));
            return kept;
        }
        i += 2;
    }
    assert(kept@ == every_other(samples@));
    kept
}

/// Triage with one judge: the verdicts so far, and how lines are routed.
pub struct Pipeline {
    cache: Cache,
    thresholds: Thresholds,
    concurrency: usize,
    stats: Stats,
    saved_at: u128,
    latency_stride: u64,
}

/// What a pipeline holds.
pub struct PipelineView {
    pub verdicts: Map<Seq<char>, VerdictView>,
    /// The judge that the verdicts are of.
    pub judge: Seq<char>,
    /// The model that the verdicts are of.
    pub cached_model: Option<Seq<char>>,
    /// Whether verdicts came in since they were last saved.
    pub unsaved: bool,
    pub thresholds: Thresholds,
    pub concurrency: nat,
    pub lines: nat,
    pub judged: nat,
    pub fallbacks: nat,
    pub input_tokens: nat,
    pub model: Option<Seq<char>>,
    pub latencies: Seq<u32>,
    /// One of so many latencies is kept.
    pub stride: nat,
    /// When the verdicts were last saved, in nanoseconds.
    pub saved_at: u128,
}

impl View for Pipeline {
    type V = PipelineView;

    closed spec fn view(&self) -> PipelineView {
        PipelineView {
            verdicts: self.cache.verdicts(),
            judge: self.cache.judge_name(),
            cached_model: self.cache.model_name(),
            unsaved: self.cache.unsaved(),
            thresholds: self.thresholds,
            concurrency: self.concurrency as nat,
            lines: self.stats.lines as nat,
            judged: self.stats.judged as nat,
            fallbacks: self.stats.fallbacks as nat,
            input_tokens: self.stats.input_tokens as nat,
            model: owned_view(self.stats.model),
            latencies: self.stats.latencies_ms@,
            stride: self.latency_stride as nat,
            saved_at: self.saved_at,
        }
    }
}

impl PipelineView {
    /// The pipeline after `template` was judged.
    pub open spec fn after_judgement(
        self,
        template: Seq<char>,
        verdict: VerdictView,
        tokens: u64,
        model: Seq<char>,
        millis: u128,
    ) -> PipelineView {
        let samples = sampled(self.latencies, self.stride, self.judged + 1, millis);
        PipelineView {
            verdicts: kept(self.verdicts, self.cached_model, model).insert(template, verdict),
            cached_model: Some(model),
            unsaved: true,
            judged: self.judged + 1,
            input_tokens: self.input_tokens + tokens as nat,
            model: Some(model),
            latencies: samples.0,
            stride: samples.1,
            ..self
        }
    }
}

impl Pipeline {
    /// Whether the verdicts are in order, at least one judgement may run, and
    /// the latencies are no more than the stride allows.
    pub closed spec fn well_formed(self) -> bool {
        &&& self.cache.well_formed()
        &&& self.concurrency >= 1
        &&& self.latency_stride >= 1
        &&& self.stats.latencies_ms@.len() < MAX_LATENCY_SAMPLES
        &&& self.stats.latencies_ms@.len() * self.latency_stride <= self.stats.judged
    }

    /// A pipeline that starts with the verdicts of `cache`, at the time `now`.
    pub fn new(cache: Cache, thresholds: Thresholds, concurrency: usize, now: u128) -> (pipeline:
        Pipeline)
        requires
            cache.well_formed(),
        ensures
            pipeline.well_formed(),
            pipeline@ == (PipelineView {
                verdicts: cache.verdicts(),
                judge: cache.judge_name(),
                cached_model: cache.model_name(),
                unsaved: cache.unsaved(),
                thresholds,
                concurrency: if concurrency == 0 {
                    1
                } else {
                    concurrency as nat
                },
                lines: 0,
                judged: 0,
                fallbacks: 0,
                input_tokens: 0,
                model: cache.model_name(),
                latencies: Seq::empty(),
                stride: 1,
                saved_at: now,
            }),
    {
        let mut stats = Stats::default();
        stats.model =
        match cache.model() {
            Some(model) => Some(model.to_string()),
            None => None,
        };
        Pipeline {
            cache,
            thresholds,
            concurrency: if concurrency == 0 {
                1
            } else {
                concurrency
            },
            stats,
            saved_at: now,
            latency_stride: 1,
        }
    }

    /// The attention that it takes to page, or to open a ticket.
    pub fn thresholds(&self) -> (thresholds: Thresholds)
        ensures
            thresholds == self@.thresholds,
    {
        self.thresholds
    }

    /// What was done so far.
    pub fn stats(&self) -> (stats: &Stats)
        ensures
            stats.lines == self@.lines,
            stats.judged == self@.judged,
            stats.fallbacks == self@.fallbacks,
            stats.input_tokens == self@.input_tokens,
            owned_view(stats.model) == self@.model,
            stats.latencies_ms@ == self@.latencies,
    {
        &self.stats
    }

    /// The number of verdicts in the cache.
    pub fn cached(&self) -> (count: usize)
        ensures
            count == self@.verdicts.len(),
    {
        self.cache.len()
    }

    /// The verdicts so far.
    pub fn cache(&self) -> (cache: &Cache)
        requires
            self.well_formed(),
        ensures
            cache.well_formed(),
            cache.verdicts() == self@.verdicts,
            cache.judge_name() == self@.judge,
            cache.model_name() == self@.cached_model,
            cache.unsaved() == self@.unsaved,
    {
        &self.cache
    }

    /// Notes that saving the verdicts begins at `now`.
    pub fn save(&mut self, now: u128)
        ensures
            final(self)@ == (PipelineView { saved_at: now, ..old(self)@ }),
            final(self).well_formed() == old(self).well_formed(),
    {
        self.saved_at = now;
    }

    /// Notes that the verdicts are saved.
    pub fn saved(&mut self)
        ensures
            final(self)@ == (PipelineView { unsaved: false, ..old(self)@ }),
            final(self).well_formed() == old(self).well_formed(),
    {
        self.cache.mark_saved();
    }

    /// Whether it is time to save the verdicts again.
    pub fn checkpoint(&self, now: u128) -> (due: bool)
        ensures
            due == (now - self@.saved_at >= CHECKPOINT),
    {
        now >= self.saved_at && now - self.saved_at >= CHECKPOINT
    }

    /// Keeps the latency of the judgement that was counted last, if it is one
    /// of those that are kept.
    fn sample_latency(&mut self, millis: u128)
        requires
            old(self).cache.well_formed(),
            old(self).concurrency >= 1,
            old(self).latency_stride >= 1,
            old(self).stats.latencies_ms@.len() < MAX_LATENCY_SAMPLES,
            old(self).stats.judged >= 1,
            old(self).stats.latencies_ms@.len() * old(self).latency_stride <= old(
                self,
            ).stats.judged - 1,
        ensures
            final(self).well_formed(),
            final(self)@ == (PipelineView {
                latencies: sampled(
                    old(self)@.latencies,
                    old(self)@.stride,
                    old(self)@.judged,
                    millis,
                ).0,
                stride: sampled(
                    old(self)@.latencies,
                    old(self)@.stride,
                    old(self)@.judged,
                    millis,
                ).1,
                ..old(self)@
            }),
    {
        let ghost count = self.stats.latencies_ms@.len() as int;
        let ghost stride = self.latency_stride as int;
        let ghost judged = self.stats.judged as int;
        if self.stats.judged % self.latency_stride != 0 {
            return;
        }
        assert((count + 1) * stride <= judged) by (nonlinear_arith)
            requires
                stride >= 1,
                count >= 0,
                count * stride <= judged - 1,
                judged % stride == 0,
        {
            let m = judged / stride;
            assert(judged == m * stride);
            assert(count < m);
            assert((count + 1) * stride <= m * stride);
        }
        self.stats.latencies_ms.push((millis % 0x1_0000_0000) as u32);
        if self.stats.latencies_ms.len() >= MAX_LATENCY_SAMPLES {
            assert(2 * stride <= judged) by (nonlinear_arith)
                requires
                    stride >= 1,
                    count + 1 >= 100_000,
                    (count + 1) * stride <= judged,
            ;
            let thinned = thin(&self.stats.latencies_ms);
            proof {
                let half = thinned@.len() as int;
                assert(count + 1 == 100_000);
                assert(half == 50_000);
                assert(half * (2 * stride) == (count + 1) * stride) by (nonlinear_arith)
                    requires
                        half == 50_000,
                        count + 1 == 100_000,
                ;
            }
            self.stats.latencies_ms = thinned;
            self.latency_stride = self.latency_stride * 2;
        }
    }
}

/// How far a template of a batch is.
#[derive(Debug)]
pub enum Progress {
    Waiting,
    Running,
    Settled(Arc<Verdict>),
}

/// What is known of a template of a batch.
pub enum ProgressView {
    Waiting,
    Running,
    Settled(VerdictView),
}

impl View for Progress {
    type V = ProgressView;

    open spec fn view(&self) -> ProgressView {
        match self {
            Progress::Waiting => ProgressView::Waiting,
            Progress::Running => ProgressView::Running,
            Progress::Settled(verdict) => ProgressView::Settled(verdict@),
        }
    }
}

/// The templates of assigned lines.
pub open spec fn templates_of(assigned: Seq<Assignment>) -> Seq<Seq<char>> {
    assigned.map_values(|a: Assignment| a.template@)
}

/// The items of `list` in the order in which each first occurs.
pub open spec fn distinct(list: Seq<Seq<char>>) -> Seq<Seq<char>>
    decreases list.len(),
{
    if list.len() == 0 {
        Seq::empty()
    } else {
        let before = distinct(list.drop_last());
        if before.contains(list.last()) {
            before
        } else {
            before.push(list.last())
        }
    }
}

/// How far a template is when its batch begins: settled if its verdict is
/// known.
pub open spec fn progress_at_start(
    verdicts: Map<Seq<char>, VerdictView>,
    template: Seq<char>,
) -> ProgressView {
    if verdicts.contains_key(template) {
        ProgressView::Settled(verdicts[template])
    } else {
        ProgressView::Waiting
    }
}

/// The indices of the templates that are being judged.
pub open spec fn running(progress: Seq<ProgressView>) -> Set<int> {
    Set::new(|i: int| 0 <= i < progress.len() && progress[i] is Running)
}

/// Whether template `i` is the first that waits.
pub open spec fn is_first_waiting(progress: Seq<ProgressView>, i: int) -> bool {
    &&& 0 <= i < progress.len()
    &&& progress[i] is Waiting
    &&& forall|j: int| 0 <= j < i ==> !((#[trigger] progress[j]) is Waiting)
}

/// Whether no template waits.
pub open spec fn none_waits(progress: Seq<ProgressView>) -> bool {
    forall|j: int| 0 <= j < progress.len() ==> !((#[trigger] progress[j]) is Waiting)
}

/// Whether each template has a verdict.
pub open spec fn all_settled(progress: Seq<ProgressView>) -> bool {
    forall|j: int| 0 <= j < progress.len() ==> (#[trigger] progress[j]) is Settled
}

/// Lines that are triaged together.
pub struct Batch {
    assigned: Vec<Assignment>,
    names: Vec<Arc<str>>,
    progress: Vec<Progress>,
    places: StringHashMap<usize>,
    next: usize,
    running: usize,
}

impl Batch {
    /// The lines, by their clusters and templates.
    pub closed spec fn lines(self) -> Seq<Assignment> {
        self.assigned@
    }

    /// The templates of the lines, each once.
    pub closed spec fn templates(self) -> Seq<Seq<char>> {
        self.names@.map_values(|name: Arc<str>| name@)
    }

    /// How far each template is.
    pub closed spec fn progress(self) -> Seq<ProgressView> {
        self.progress@.map_values(|p: Progress| p@)
    }

    /// Whether the parts of the batch fit together.
    pub closed spec fn well_formed(self) -> bool {
        &&& self.progress@.len() == self.names@.len()
        &&& forall|i: int|
            0 <= i < self.names@.len() ==> self.places@.contains_key((#[trigger] self.names@[i])@)
                && self.places@[self.names@[i]@] == i
        &&& forall|t: Seq<char>| #[trigger]
            self.places@.contains_key(t) ==> self.places@[t] < self.names@.len()
                && self.names@[self.places@[t] as int]@ == t
        &&& self.templates() == distinct(templates_of(self.assigned@))
        &&& self.next <= self.names@.len()
        &&& forall|i: int|
            0 <= i < self.next ==> !((#[trigger] self.progress@[i]) is Waiting)
        &&& running(self.progress()).finite()
        &&& self.running == running(self.progress()).len()
    }

    /// The template with the name `template` that is being judged.
    pub open spec fn runs(self, template: Seq<char>) -> bool {
        exists|i: int|
            0 <= i < self.templates().len() && #[trigger] self.templates()[i] == template
                && self.progress()[i] is Running
    }
}

/// What to do next about a batch.
#[derive(Debug)]
pub enum Step {
    /// Have the template judged.
    Judge(Arc<str>),
    /// Wait for a judgement.
    Wait,
    /// All templates have a verdict.
    Done,
}

proof fn lemma_distinct(list: Seq<Seq<char>>)
    ensures
        distinct(list).no_duplicates(),
        forall|t: Seq<char>| list.contains(t) <==> #[trigger] distinct(list).contains(t),
    decreases list.len(),
{
    if list.len() > 0 {
        let rest = list.drop_last();
        lemma_distinct(rest);
        assert forall|t: Seq<char>| list.contains(t) <==> #[trigger] distinct(list).contains(t) by {
            let d = distinct(rest);
            if list.contains(t) {
                let i = choose|i: int| 0 <= i < list.len() && list[i] == t;
                if i < rest.len() {
                    assert(rest[i] == t);
                    assert(d.contains(t));
                }
                if !d.contains(t) {
                    assert(distinct(list)[d.len() as int] == t);
                } else {
                    let k = choose|k: int| 0 <= k < d.len() && d[k] == t;
                    assert(distinct(list)[k] == t);
                }
            }
            if distinct(list).contains(t) {
                let k = choose|k: int| 0 <= k < distinct(list).len() && distinct(list)[k] == t;
                if k < d.len() {
                    assert(d[k] == t);
                    assert(d.contains(t));
                    let i = choose|i: int| 0 <= i < rest.len() && rest[i] == t;
                    assert(list[i] == t);
                } else {
                    assert(list[list.len() - 1] == t);
                }
            }
        }
    }
}

impl Pipeline {
    /// Begins a batch of lines with their clusters and templates.
    pub fn begin(&mut self, assigned: Vec<Assignment>) -> (batch: Batch)
        requires
            old(self).well_formed(),
            old(self)@.lines + assigned@.len() <= u64::MAX,
        ensures
            final(self).well_formed(),
            final(self)@ == (PipelineView {
                lines: old(self)@.lines + assigned@.len(),
                ..old(self)@
            }),
            batch.well_formed(),
            batch.lines() == assigned@,
            batch.templates() == distinct(templates_of(assigned@)),
            batch.progress() == batch.templates().map_values(
                |t: Seq<char>| progress_at_start(old(self)@.verdicts, t),
            ),
    {
        self.stats.lines = self.stats.lines + assigned.len() as u64;
        let ghost all = templates_of(assigned@);
        let ghost verdicts = self@.verdicts;
        let mut names: Vec<Arc<str>> = Vec::new();
        let mut progress: Vec<Progress> = Vec::new();
        let mut places: StringHashMap<usize> = StringHashMap::new();
        let mut i: usize = 0;
        while i < assigned.len()
            invariant
                i <= assigned@.len(),
                all == templates_of(assigned@),
                self.well_formed(),
                verdicts == self@.verdicts,
                progress@.len() == names@.len(),
                forall|j: int|
                    0 <= j < names@.len() ==> places@.contains_key((#[trigger] names@[j])@)
                        && places@[names@[j]@] == j,
                forall|t: Seq<char>| #[trigger]
                    places@.contains_key(t) ==> places@[t] < names@.len()
                        && names@[places@[t] as int]@ == t,
                names@.map_values(|name: Arc<str>| name@) == distinct(all.take(i as int)),
                forall|j: int|
                    0 <= j < names@.len() ==> (#[trigger] progress@[j])@ == progress_at_start(
                        verdicts,
                        names@[j]@,
                    ),
            decreases assigned@.len() - i,
        {
            let template: &str = &assigned[i].template;
            let ghost before = names@.map_values(|name: Arc<str>| name@);
            proof {
                assert(all.take(i + 1).drop_last() == all.take(i as int));
                assert(all.take(i + 1).last() == template@);
                assert(before.contains(template@) <==> places@.contains_key(template@)) by {
                    if before.contains(template@) {
                        let k = choose|k: int| 0 <= k < before.len() && before[k] == template@;
                        assert(names@[k]@ == template@);
                    }
                    if places@.contains_key(template@) {
                        assert(before[places@[template@] as int] == template@);
                    }
                }
            }
            if !places.contains_key(template) {
                let state = match self.cache.get(template) {
                    Some(verdict) => Progress::Settled(verdict.clone()),
                    None => Progress::Waiting,
                };
                places.insert(template.to_string(), names.len());
                names.push(assigned[i].template.clone());
                progress.push(state);
                assert(names@.map_values(|name: Arc<str>| name@) == before.push(template@));
            }
            i += 1;
        }
        assert(all.take(all.len() as int) == all);
        let batch = Batch { assigned, names, progress, places, next: 0, running: 0 };
        proof {
            assert(batch.progress() == batch.templates().map_values(
                |t: Seq<char>| progress_at_start(verdicts, t),
            ));
            assert(running(batch.progress()) == Set::<int>::empty());
        }
        batch
    }

    /// What to do next about `batch`: have the first template that waits judged
    /// if there is room for one more judgement, and else wait until the last
    /// judgement is in.
    pub fn step(&self, batch: &mut Batch) -> (step: Step)
        requires
            self.well_formed(),
            old(batch).well_formed(),
        ensures
            final(batch).well_formed(),
            final(batch).lines() == old(batch).lines(),
            final(batch).templates() == old(batch).templates(),
            match step {
                Step::Judge(template) => running(old(batch).progress()).len()
                    < self@.concurrency && exists|i: int| #[trigger]
                    is_first_waiting(old(batch).progress(), i) && template@ == old(
                        batch,
                    ).templates()[i] && final(batch).progress() == old(batch).progress().update(
                        i,
                        ProgressView::Running,
                    ),
                Step::Wait => final(batch).progress() == old(batch).progress() && running(
                    old(batch).progress(),
                ).len() > 0 && (none_waits(old(batch).progress()) || running(
                    old(batch).progress(),
                ).len() >= self@.concurrency),
                Step::Done => final(batch).progress() == old(batch).progress() && all_settled(
                    old(batch).progress(),
                ),
            },
    {
        if batch.running < self.concurrency {
            while batch.next < batch.progress.len()
                invariant
                    batch.well_formed(),
                    self.well_formed(),
                    batch.running < self.concurrency,
                    batch.assigned == old(batch).assigned,
                    batch.names == old(batch).names,
                    batch.progress == old(batch).progress,
                    batch.running == old(batch).running,
                decreases batch.progress@.len() - batch.next,
            {
                let i: usize = batch.next;
                let waits = match &batch.progress[i] {
                    Progress::Waiting => true,
                    _ => false,
                };
                batch.next = i + 1;
                if waits {
                    let template = batch.names[i].clone();
                    batch.progress.set(i, Progress::Running);
                    batch.running = batch.running + 1;
                    proof {
                        let was = old(batch).progress();
                        assert(batch.progress() == was.update(i as int, ProgressView::Running));
                        assert(is_first_waiting(was, i as int)) by {
                            assert forall|j: int| 0 <= j < i implies !((#[trigger] was[j]) is Waiting) by {
                                assert(!(old(batch).progress@[j] is Waiting));
                            }
                        }
                        assert(running(batch.progress()) == running(was).insert(i as int));
                        assert(!running(was).contains(i as int));
                        assert(running(was).subset_of(Set::new(|k: int| 0 <= k < was.len())));
                        vstd::set_lib::lemma_int_range(0, was.len() as int);
                        assert(Set::new(|k: int| 0 <= k < was.len()) == vstd::set_lib::set_int_range(
                            0,
                            was.len() as int,
                        ));
                        vstd::set_lib::lemma_len_subset(
                            running(was).insert(i as int),
                            vstd::set_lib::set_int_range(0, was.len() as int),
                        );
                    }
                    return Step::Judge(template);
                }
            }
            assert forall|j: int| 0 <= j < batch.progress().len() implies !((
            #[trigger] batch.progress()[j]) is Waiting) by {
                assert(!(batch.progress@[j] is Waiting));
            }
        }
        if batch.running > 0 {
            Step::Wait
        } else {
            proof {
                let now = batch.progress();
                assert forall|j: int| 0 <= j < now.len() implies (#[trigger] now[j]) is Settled by {
                    if now[j] is Running {
                        assert(running(now).contains(j));
                    }
                }
            }
            Step::Done
        }
    }
}

impl Batch {
    /// Settles a template that is being judged.
    fn settle(&mut self, template: &str, verdict: Arc<Verdict>)
        requires
            old(self).well_formed(),
            old(self).runs(template@),
        ensures
            final(self).well_formed(),
            final(self).lines() == old(self).lines(),
            final(self).templates() == old(self).templates(),
            settles(*old(self), *final(self), template@, verdict@),
    {
        let ghost was = self.progress();
        let ghost at = choose|i: int|
            0 <= i < self.templates().len() && #[trigger] self.templates()[i] == template@
                && self.progress()[i] is Running;
        assert(self.names@[at]@ == template@);
        let place: usize = match self.places.get(template) {
            Some(place) => *place,
            None => 0,
        };
        assert(place == at);
        proof {
            assert(running(was).contains(at));
            assert(running(was).len() > 0) by {
                if running(was).len() == 0 {
                    assert(running(was) == Set::<int>::empty());
                }
            }
        }
        self.progress.set(place, Progress::Settled(verdict));
        self.running = self.running - 1;
        proof {
            let now = self.progress();
            assert(now == was.update(at, ProgressView::Settled(verdict@)));
            assert(running(now) == running(was).remove(at));
            assert(self.templates()[at] == template@);
        }
    }
}

/// Whether `after` is `before` but for the template that was being judged,
/// which has the verdict `verdict` now.
pub open spec fn settles(
    before: Batch,
    after: Batch,
    template: Seq<char>,
    verdict: VerdictView,
) -> bool {
    exists|i: int|
        0 <= i < before.templates().len() && #[trigger] before.templates()[i] == template
            && after.progress() == before.progress().update(i, ProgressView::Settled(verdict))
}

impl Pipeline {
    /// Takes in the judgement of a template, which took `millis` milliseconds.
    pub fn succeed(&mut self, batch: &mut Batch, template: &str, judged: Judged, millis: u128)
        requires
            old(self).well_formed(),
            old(batch).well_formed(),
            old(batch).runs(template@),
            old(self)@.judged < u64::MAX,
            old(self)@.input_tokens + judged.input_tokens <= u64::MAX,
        ensures
            final(self).well_formed(),
            final(self)@ == old(self)@.after_judgement(
                template@,
                judged.verdict@,
                judged.input_tokens,
                judged.model@,
                millis,
            ),
            final(batch).well_formed(),
            final(batch).lines() == old(batch).lines(),
            final(batch).templates() == old(batch).templates(),
            settles(*old(batch), *final(batch), template@, judged.verdict@),
    {
        self.stats.judged = self.stats.judged + 1;
        self.stats.input_tokens = self.stats.input_tokens + judged.input_tokens;
        self.sample_latency(millis);
        let stored = self.cache.insert(share(template), judged.verdict, judged.model.as_str());
        self.stats.model = Some(judged.model);
        batch.settle(template, stored);
    }

    /// Takes in that a template could not be judged: it gets the verdict
    /// `fallback` in this batch, and is judged anew in the next.
    pub fn fail(&mut self, batch: &mut Batch, template: &str, fallback: Verdict)
        requires
            old(self).well_formed(),
            old(batch).well_formed(),
            old(batch).runs(template@),
            old(self)@.fallbacks < u64::MAX,
        ensures
            final(self).well_formed(),
            final(self)@ == (PipelineView { fallbacks: old(self)@.fallbacks + 1, ..old(self)@ }),
            final(batch).well_formed(),
            final(batch).lines() == old(batch).lines(),
            final(batch).templates() == old(batch).templates(),
            settles(*old(batch), *final(batch), template@, fallback@),
    {
        self.stats.fallbacks = self.stats.fallbacks + 1;
        batch.settle(template, Arc::new(fallback));
    }

    /// The lines of a batch with the verdicts of their templates and the routes
    /// that follow.
    pub fn finish(&self, batch: &Batch) -> (triaged: Vec<Triaged>)
        requires
            batch.well_formed(),
            all_settled(batch.progress()),
        ensures
            triaged@.len() == batch.lines().len(),
            forall|i: int|
                0 <= i < triaged@.len() ==> is_triaged(
                    #[trigger] triaged@[i],
                    batch.lines()[i],
                    *batch,
                    self@.thresholds,
                ),
    {
        let mut triaged: Vec<Triaged> = Vec::new();
        let mut i: usize = 0;
        while i < batch.assigned.len()
            invariant
                i <= batch.assigned@.len(),
                batch.well_formed(),
                all_settled(batch.progress()),
                triaged@.len() == i,
                forall|j: int|
                    0 <= j < i ==> is_triaged(
                        #[trigger] triaged@[j],
                        batch.lines()[j],
                        *batch,
                        self@.thresholds,
                    ),
            decreases batch.assigned@.len() - i,
        {
            let line = &batch.assigned[i];
            let ghost all = templates_of(batch.assigned@);
            proof {
                assert(all[i as int] == line.template@);
                assert(all.contains(line.template@));
                lemma_distinct(all);
                assert(distinct(all).contains(line.template@));
                let k = choose|k: int|
                    0 <= k < batch.templates().len() && batch.templates()[k] == line.template@;
                assert(batch.names@[k]@ == line.template@);
            }
            let place: usize = match batch.places.get(&line.template) {
                Some(place) => *place,
                None => 0,
            };
            assert(batch.progress()[place as int] is Settled);
            if let Progress::Settled(verdict) = &batch.progress[place] {
                let t = Triaged {
                    cluster: line.cluster,
                    template: line.template.clone(),
                    verdict: verdict.clone(),
                    route: self.thresholds.route(verdict),
                };
                assert(batch.templates()[place as int] == line.template@);
                assert(is_triaged(t, batch.lines()[i as int], *batch, self@.thresholds));
                triaged.push(t);
            }
            i += 1;
        }
        triaged
    }
}

/// Whether `t` is what becomes of the line `line` of `batch`.
pub open spec fn is_triaged(t: Triaged, line: Assignment, batch: Batch, thresholds: Thresholds) -> bool {
    &&& t.cluster == line.cluster
    &&& t.template@ == line.template@
    &&& t.route == route_of(thresholds, t.verdict@.attention)
    &&& exists|k: int|
        0 <= k < batch.templates().len() && #[trigger] batch.templates()[k] == line.template@
            && batch.progress()[k] == ProgressView::Settled(t.verdict@)
}

/// A batch has each template once, so none is judged twice in it, and each line
/// has its template among them.
pub proof fn law_each_template_is_judged_once(assigned: Seq<Assignment>)
    ensures
        distinct(templates_of(assigned)).no_duplicates(),
        forall|i: int|
            0 <= i < assigned.len() ==> distinct(templates_of(assigned)).contains(
                (#[trigger] assigned[i]).template@,
            ),
{
    let all = templates_of(assigned);
    lemma_distinct(all);
    assert forall|i: int| 0 <= i < assigned.len() implies distinct(all).contains(
        (#[trigger] assigned[i]).template@,
    ) by {
        assert(all[i] == assigned[i].template@);
        assert(all.contains(assigned[i].template@));
    }
}

/// A template that was judged is not judged again in the next batch, as long
/// as its verdict is kept.
pub proof fn law_judged_templates_are_settled(
    pipeline: PipelineView,
    template: Seq<char>,
    verdict: VerdictView,
    tokens: u64,
    model: Seq<char>,
    millis: u128,
)
    ensures
        progress_at_start(
            pipeline.after_judgement(template, verdict, tokens, model, millis).verdicts,
            template,
        ) == ProgressView::Settled(verdict),
{
}

/// A template that has a verdict keeps it while others are judged, as long as
/// the model stays and there is room.
pub proof fn law_judged_templates_stay_settled(
    pipeline: PipelineView,
    template: Seq<char>,
    other: Seq<char>,
    verdict: VerdictView,
    tokens: u64,
    model: Seq<char>,
    millis: u128,
)
    requires
        other != template,
        progress_at_start(pipeline.verdicts, template) is Settled,
        pipeline.cached_model == Some(model),
        pipeline.verdicts.len() < MAX_ENTRIES,
    ensures
        progress_at_start(
            pipeline.after_judgement(other, verdict, tokens, model, millis).verdicts,
            template,
        ) == progress_at_start(pipeline.verdicts, template),
{
}

/// A template that could not be judged waits again in the next batch.
pub proof fn law_failed_templates_wait_again(pipeline: PipelineView, template: Seq<char>)
    requires
        progress_at_start(pipeline.verdicts, template) is Waiting,
    ensures
        progress_at_start(
            (PipelineView { fallbacks: pipeline.fallbacks + 1, ..pipeline }).verdicts,
            template,
        ) is Waiting,
{
}

/// The steps that a batch still takes: two for a template that waits, and one
/// for a template that is being judged.
pub open spec fn work_left(progress: Seq<ProgressView>) -> nat
    decreases progress.len(),
{
    if progress.len() == 0 {
        0
    } else {
        work_left(progress.drop_last()) + (match progress.last() {
            ProgressView::Waiting => 2nat,
            ProgressView::Running => 1,
            ProgressView::Settled(_) => 0,
        })
    }
}

proof fn lemma_work_left_update(progress: Seq<ProgressView>, i: int, now: ProgressView)
    requires
        0 <= i < progress.len(),
    ensures
        work_left(progress.update(i, now)) + work_left(seq![progress[i]]) == work_left(progress)
            + work_left(seq![now]),
    decreases progress.len(),
{
    let after = progress.update(i, now);
    reveal_with_fuel(work_left, 2);
    assert(seq![progress[i]].drop_last() == Seq::<ProgressView>::empty());
    assert(seq![now].drop_last() == Seq::<ProgressView>::empty());
    if i == progress.len() - 1 {
        assert(after.drop_last() == progress.drop_last());
    } else {
        assert(after.drop_last() == progress.drop_last().update(i, now));
        lemma_work_left_update(progress.drop_last(), i, now);
    }
}

/// Every batch ends: each template that starts to be judged, and each judgement
/// that comes in, leaves one step less, and with no step left each template has
/// a verdict.
pub proof fn law_batches_end(progress: Seq<ProgressView>, i: int, verdict: VerdictView)
    requires
        0 <= i < progress.len(),
    ensures
        progress[i] is Waiting ==> work_left(progress.update(i, ProgressView::Running)) == work_left(
            progress,
        ) - 1,
        progress[i] is Running ==> work_left(
            progress.update(i, ProgressView::Settled(verdict)),
        ) == work_left(progress) - 1,
        work_left(progress) == 0 <==> all_settled(progress),
{
    reveal_with_fuel(work_left, 2);
    lemma_work_left_update(progress, i, ProgressView::Running);
    lemma_work_left_update(progress, i, ProgressView::Settled(verdict));
    assert(seq![progress[i]].drop_last() == Seq::<ProgressView>::empty());
    assert(seq![ProgressView::Running].drop_last() == Seq::<ProgressView>::empty());
    assert(seq![ProgressView::Settled(verdict)].drop_last() == Seq::<ProgressView>::empty());
    lemma_no_work_left(progress);
}

proof fn lemma_no_work_left(progress: Seq<ProgressView>)
    ensures
        work_left(progress) == 0 <==> all_settled(progress),
    decreases progress.len(),
{
    if progress.len() > 0 {
        let rest = progress.drop_last();
        lemma_no_work_left(rest);
        if all_settled(progress) {
            assert forall|j: int| 0 <= j < rest.len() implies (#[trigger] rest[j]) is Settled by {
                assert(progress[j] is Settled);
            }
            assert(progress[progress.len() - 1] is Settled);
        }
        if all_settled(rest) && progress.last() is Settled {
            assert forall|j: int| 0 <= j < progress.len() implies (#[trigger] progress[j]) is Settled by {
                if j < rest.len() {
                    assert(rest[j] is Settled);
                }
            }
        }
    }
}

/// The latencies that are kept stay below their limit, and are one in `stride`
/// of the judgements at most.
pub proof fn law_latencies_are_bounded(samples: Seq<u32>, stride: nat, judged: nat, millis: u128)
    requires
        stride >= 1,
        samples.len() < MAX_LATENCY_SAMPLES,
        samples.len() * stride <= judged,
    ensures
        sampled(samples, stride, judged + 1, millis).1 >= stride,
        sampled(samples, stride, judged + 1, millis).0.len() < MAX_LATENCY_SAMPLES,
        sampled(samples, stride, judged + 1, millis).0.len() * sampled(
            samples,
            stride,
            judged + 1,
            millis,
        ).1 <= judged + 1,
{
    let count = samples.len() as int;
    let next = judged + 1;
    if next % stride == 0 {
        let s = stride as int;
        let n = next as int;
        assert((count + 1) * s <= n) by (nonlinear_arith)
            requires
                s >= 1,
                count >= 0,
                count * s <= n - 1,
                n % s == 0,
        {
            let m = n / s;
            assert(n == m * s);
            assert(count < m);
            assert((count + 1) * s <= m * s);
        }
        if count + 1 >= MAX_LATENCY_SAMPLES {
            assert(50_000 * (2 * s) == 100_000 * s);
        }
    }
}

/// What to do with a batch of messages that is being gathered.
#[derive(Debug, Clone, Copy, PartialEq, Eq, Structural)]
pub enum Fill {
    /// No message came, and none will.
    Closed,
    /// The batch is complete.
    Ready,
    /// Up to `room` more messages may join.
    More { room: usize },
}

/// What to do after `received` messages joined the `held` ones of a batch that
/// may have `max`. None is received if the time is up, or no more will come.
pub fn next_batch(max: usize, held: usize, received: usize) -> (fill: Fill)
    requires
        held + received <= max,
    ensures
        fill is Closed <==> held + received == 0,
        fill is Ready <==> held + received > 0 && (received == 0 || held + received == max),
        fill matches Fill::More { room } ==> room == max - (held + received),
{
    if received == 0 {
        if held == 0 {
            Fill::Closed
        } else {
            Fill::Ready
        }
    } else if held + received == max {
        Fill::Ready
    } else {
        Fill::More { room: max - (held + received) }
    }
}

/// The number of lines that were triaged, where there are `lines` in all.
pub open spec fn shown_count(lines: usize, triaged: Seq<Triaged>) -> int {
    if lines <= triaged.len() {
        lines as int
    } else {
        triaged.len() as int
    }
}

/// Whether `route` is one of `routes`.
fn has_route(routes: &[Route], route: Route) -> (found: bool)
    ensures
        found == routes@.contains(route),
{
    let mut i: usize = 0;
    while i < routes.len()
        invariant
            i <= routes@.len(),
            forall|j: int| 0 <= j < i ==> routes@[j] != route,
        decreases routes@.len() - i,
    {
        if routes[i] == route {
            assert(routes@[i as int] == route);
            return true;
        }
        i += 1;
    }
    false
}

/// The lines to print, by index: those that go to one of `routes`, in their
/// order, where there are `lines` in all.
pub fn selected(lines: usize, triaged: &[Triaged], routes: &[Route]) -> (chosen: Vec<usize>)
    ensures
        forall|k: int, l: int|
            0 <= k < l < chosen@.len() ==> #[trigger] chosen@[k] < #[trigger] chosen@[l],
        forall|i: usize|
            chosen@.contains(i) <==> i < shown_count(lines, triaged@) && routes@.contains(
                (#[trigger] triaged@[i as int]).route,
            ),
{
    let mut chosen: Vec<usize> = Vec::new();
    let mut i: usize = 0;
    while i < lines && i < triaged.len()
        invariant
            i <= shown_count(lines, triaged@),
            forall|k: int| 0 <= k < chosen@.len() ==> #[trigger] chosen@[k] < i,
            forall|k: int, l: int|
                0 <= k < l < chosen@.len() ==> #[trigger] chosen@[k] < #[trigger] chosen@[l],
            forall|j: usize|
                chosen@.contains(j) <==> j < i && routes@.contains(
                    (#[trigger] triaged@[j as int]).route,
                ),
        decreases triaged@.len() - i,
    {
        let ghost before = chosen@;
        if has_route(routes, triaged[i].route) {
            chosen.push(i);
        }
        proof {
            assert forall|j: usize| chosen@.contains(j) <==> j < i + 1 && routes@.contains(
                (#[trigger] triaged@[j as int]).route,
            ) by {
                if chosen@.contains(j) {
                    let k = choose|k: int| 0 <= k < chosen@.len() && chosen@[k] == j;
                    if k < before.len() {
                        assert(before[k] == j);
                        assert(before.contains(j));
                    }
                }
                if before.contains(j) {
                    let k = choose|k: int| 0 <= k < before.len() && before[k] == j;
                    assert(chosen@[k] == j);
                }
                if j == i && routes@.contains(triaged@[j as int].route) {
                    assert(chosen@[chosen@.len() - 1] == j);
                }
            }
        }
        i += 1;
    }
    chosen
}

/// A triaged line shows all that it holds, and so does each of a list.
pub proof fn law_triaged_lines_show_what_they_hold(list: Seq<Triaged>, i: int)
    requires
        0 <= i < list.len(),
    ensures
        triaged_views(list).len() == list.len(),
        triaged_views(list)[i].cluster == list[i].cluster,
        triaged_views(list)[i].template == list[i].template@,
        triaged_views(list)[i].verdict == list[i].verdict@,
        triaged_views(list)[i].route == list[i].route,
{
}

/// A summary says how many lines came in, how many templates they made, and what
/// judging them took.
pub proof fn law_summaries_say_what_was_done(stats: Stats, clusters: u64)
    ensures
        summary_text(stats, clusters) == "tocsin"@ + ": "@ + decimal_text(stats.lines as nat)
            + " lines → "@ + decimal_text(clusters as nat) + " templates → "@ + decimal_text(
            stats.judged as nat,
        ) + " judged ("@ + decimal_text(stats.input_tokens as nat) + " input tokens, "@
            + decimal_text(stats.fallbacks as nat) + " fallbacks)"@,
{
}

/// Thinning keeps every other item, from the first on.
pub proof fn law_thinning_keeps_every_other<T>(list: Seq<T>, i: int)
    ensures
        2 * every_other(list).len() == list.len() || 2 * every_other(list).len() == list.len() + 1,
        0 <= 2 * i < list.len() ==> every_other(list)[i] == list[2 * i],
{
}

/// One judgement in each stride is sampled, by its milliseconds, after all
/// samples so far; from a hundred thousand on they are thinned and the stride
/// doubles, so that what is kept stays one in each stride.
pub proof fn law_one_in_each_stride_is_sampled(
    samples: Seq<u32>,
    stride: nat,
    judged: nat,
    millis: u128,
)
    requires
        stride >= 1,
    ensures
        ({
            let (kept, next) = sampled(samples, stride, judged, millis);
            &&& judged % stride != 0 ==> kept == samples && next == stride
            &&& judged % stride == 0 && samples.len() < 99_999 ==> next == stride && kept.len()
                == samples.len() + 1 && kept.last() == millis % 0x1_0000_0000 && kept.drop_last()
                == samples
            &&& judged % stride == 0 && samples.len() >= 99_999 ==> next == 2 * stride && (
            forall|i: int|
                0 <= 2 * i < samples.len() ==> #[trigger] kept[i] == samples[2 * i]) && 2
                * kept.len() <= samples.len() + 2
        }),
{
    let all = samples.push((millis % 0x1_0000_0000) as u32);
    assert(all.drop_last() == samples);
    if judged % stride == 0 && samples.len() >= 99_999 {
        assert forall|i: int| 0 <= 2 * i < samples.len() implies #[trigger] every_other(all)[i]
            == samples[2 * i] by {
            assert(every_other(all)[i] == all[2 * i]);
        }
    }
}

proof fn lemma_distinct_order(list: Seq<Seq<char>>, n: nat)
    requires
        n <= list.len(),
    ensures
        distinct(list.take(n as int)).is_prefix_of(distinct(list)),
    decreases list.len() - n,
{
    if n < list.len() {
        lemma_distinct_order(list, n + 1);
        assert(list.take(n as int + 1).drop_last() == list.take(n as int));
        assert(distinct(list.take(n as int)).is_prefix_of(distinct(list.take(n as int + 1))));
    } else {
        assert(list.take(n as int) == list);
    }
}

/// A batch has the templates of its lines and no others, each once, in the order
/// in which they first occur: those of fewer lines come first.
pub proof fn law_templates_come_in_order_of_occurrence(list: Seq<Seq<char>>, n: nat)
    requires
        n <= list.len(),
    ensures
        distinct(list).no_duplicates(),
        forall|t: Seq<char>| list.contains(t) <==> #[trigger] distinct(list).contains(t),
        distinct(list.take(n as int)).is_prefix_of(distinct(list)),
{
    lemma_distinct(list);
    lemma_distinct_order(list, n);
}

/// A template starts settled with the verdict that is known of it, and waits if
/// none is.
pub proof fn law_known_verdicts_settle_templates(
    verdicts: Map<Seq<char>, VerdictView>,
    template: Seq<char>,
)
    ensures
        verdicts.contains_key(template) ==> progress_at_start(verdicts, template)
            == ProgressView::Settled(verdicts[template]),
        !verdicts.contains_key(template) ==> progress_at_start(verdicts, template)
            == ProgressView::Waiting,
{
}

/// A judgement adds one to those made and its tokens to those spent, its verdict
/// is found by its template, its model is that of the cache and of the
/// statistics, and nothing else changes but the samples of latencies.
pub proof fn law_judgements_are_accounted_for(
    pipeline: PipelineView,
    template: Seq<char>,
    verdict: VerdictView,
    tokens: u64,
    model: Seq<char>,
    millis: u128,
    other: Seq<char>,
)
    requires
        other != template,
    ensures
        ({
            let after = pipeline.after_judgement(template, verdict, tokens, model, millis);
            let stays = (pipeline.cached_model is None || pipeline.cached_model == Some(model))
                && pipeline.verdicts.len() < 250_000;
            &&& after.judged == pipeline.judged + 1
            &&& after.input_tokens == pipeline.input_tokens + tokens
            &&& after.verdicts.contains_key(template) && after.verdicts[template] == verdict
            &&& stays ==> (after.verdicts.contains_key(other) <==> pipeline.verdicts.contains_key(
                other,
            )) && (pipeline.verdicts.contains_key(other) ==> after.verdicts[other]
                == pipeline.verdicts[other])
            &&& !stays ==> !after.verdicts.contains_key(other)
            &&& after.cached_model == Some(model) && after.model == Some(model)
            &&& after.unsaved
            &&& after.judge == pipeline.judge && after.thresholds == pipeline.thresholds
                && after.concurrency == pipeline.concurrency && after.lines == pipeline.lines
                && after.fallbacks == pipeline.fallbacks && after.saved_at == pipeline.saved_at
            &&& (after.latencies, after.stride) == sampled(
                pipeline.latencies,
                pipeline.stride,
                pipeline.judged + 1,
                millis,
            )
        }),
{
}

/// Settling a template gives it its verdict, and leaves all others as they were.
pub proof fn law_settling_concerns_one_template(
    before: Batch,
    after: Batch,
    template: Seq<char>,
    verdict: VerdictView,
    k: int,
)
    requires
        settles(before, after, template, verdict),
        before.templates().no_duplicates(),
        before.progress().len() == before.templates().len(),
        0 <= k < before.templates().len(),
    ensures
        after.progress().len() == before.progress().len(),
        before.templates()[k] == template ==> after.progress()[k] == ProgressView::Settled(verdict),
        before.templates()[k] != template ==> after.progress()[k] == before.progress()[k],
{
    let i = choose|i: int|
        0 <= i < before.templates().len() && #[trigger] before.templates()[i] == template
            && after.progress() == before.progress().update(i, ProgressView::Settled(verdict));
    if before.templates()[k] == template {
        assert(k == i);
    }
}

/// A line is triaged with its cluster, its template, the verdict of that
/// template, and the route that the thresholds give the verdict's attention.
pub proof fn law_lines_get_the_verdict_of_their_template(
    t: Triaged,
    line: Assignment,
    batch: Batch,
    thresholds: Thresholds,
    k: int,
)
    requires
        is_triaged(t, line, batch, thresholds),
        batch.templates().no_duplicates(),
        0 <= k < batch.templates().len(),
        batch.templates()[k] == line.template@,
    ensures
        t.cluster == line.cluster,
        t.template@ == line.template@,
        batch.progress()[k] == ProgressView::Settled(t.verdict@),
        t.route == Route::Page <==> t.verdict@.attention.reaches(thresholds.page),
        t.route == Route::Ticket <==> !t.verdict@.attention.reaches(thresholds.page)
            && t.verdict@.attention.reaches(thresholds.ticket),
{
    let i = choose|i: int|
        0 <= i < batch.templates().len() && #[trigger] batch.templates()[i] == line.template@
            && batch.progress()[i] == ProgressView::Settled(t.verdict@);
    assert(i == k);
}

/// What waits, runs and is settled is told by the progress of each template: the
/// first that waits has none before it, and judgements run for those that run.
pub proof fn law_progress_tells_what_waits_and_runs(progress: Seq<ProgressView>, i: int)
    requires
        0 <= i < progress.len(),
    ensures
        running(progress).contains(i) <==> progress[i] is Running,
        is_first_waiting(progress, i) <==> progress[i] is Waiting && none_waits(progress.take(i)),
        none_waits(progress) ==> !(progress[i] is Waiting),
        all_settled(progress) ==> progress[i] is Settled,
        all_settled(progress) ==> none_waits(progress) && running(progress) == Set::<int>::empty(),
        none_waits(progress) && running(progress) == Set::<int>::empty() ==> all_settled(progress),
{
    if is_first_waiting(progress, i) {
        assert forall|j: int| 0 <= j < i implies !((#[trigger] progress.take(i)[j]) is Waiting) by {
            assert(!(progress[j] is Waiting));
        }
    }
    if progress[i] is Waiting && none_waits(progress.take(i)) {
        assert forall|j: int| 0 <= j < i implies !((#[trigger] progress[j]) is Waiting) by {
            assert(progress.take(i)[j] == progress[j]);
        }
    }
    if all_settled(progress) {
        assert(running(progress) == Set::<int>::empty());
    }
    if none_waits(progress) && running(progress) == Set::<int>::empty() {
        assert forall|j: int| 0 <= j < progress.len() implies (#[trigger] progress[j]) is Settled by {
            assert(!running(progress).contains(j));
        }
    }
}

/// As many lines are shown as there are both lines and triages.
pub proof fn law_shown_lines_have_a_triage(lines: usize, triaged: Seq<Triaged>)
    ensures
        shown_count(lines, triaged) <= lines,
        shown_count(lines, triaged) <= triaged.len(),
        shown_count(lines, triaged) == lines || shown_count(lines, triaged) == triaged.len(),
{
}

/// Progress shows what it holds, and a batch has the templates of its lines,
/// each in its place.
pub proof fn law_progress_shows_what_it_holds(progress: Progress, assigned: Seq<Assignment>)
    ensures
        progress is Waiting ==> progress@ is Waiting,
        progress is Running ==> progress@ is Running,
        progress matches Progress::Settled(verdict) ==> progress@ == ProgressView::Settled(verdict@),
        templates_of(assigned).len() == assigned.len(),
        forall|i: int|
            0 <= i < assigned.len() ==> #[trigger] templates_of(assigned)[i]
                == assigned[i].template@,
{
}

/// The cache is saved every thirty seconds, and fewer than a hundred thousand
/// latencies are kept.
pub proof fn law_pipelines_have_these_limits()
    ensures
        CHECKPOINT == 30_000_000_000,
        MAX_LATENCY_SAMPLES == 100_000,
{
}

} // verus!
