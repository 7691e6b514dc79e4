//! Scores against labeled lines, and the report on them.
use std::collections::{HashMap, HashSet};
use std::sync::Arc;
use vstd::prelude::*;

use crate::judge::{keyword_level, Rules};
use crate::metrics::{
    cell, confusion, count_true, is_ranking, labeled, ranking, rows_of, Confusion, Fraction, Ranking,
};
use crate::order::{descending_order, is_descending_order, law_order_lists_each_index_once, Score};
use crate::pipeline::Triaged;
use crate::route::Route;
use crate::text::{
    decimal, decimal_text, first_index, join_texts, joined, law_splits_are_at_the_first,
    law_stripping_the_end_stops_at_others, lemma_first_index, lemma_strip_end_added, same,
    split_first, split_once, strip_end, stripped_end, views, Class,
};

verus! {

/// The lines that are triaged together.
pub const BATCH: usize = 50_000;

/// Why a line of a labeled file is refused.
#[derive(Debug)]
pub enum BadLine {
    /// It has no tab after the label.
    NoTab { line: String },
    /// The label of the line with this number is neither 0 nor 1.
    Label { number: u64, label: String },
}

/// What a refused line is refused for.
pub enum BadLineView {
    NoTab { line: Seq<char> },
    Label { number: u64, label: Seq<char> },
}

impl View for BadLine {
    type V = BadLineView;

    open spec fn view(&self) -> BadLineView {
        match self {
            BadLine::NoTab { line } => BadLineView::NoTab { line: line@ },
            BadLine::Label { number, label } => BadLineView::Label {
                number: *number,
                label: label@,
            },
        }
    }
}

/// `text` in quotes, with escapes: what its `Debug` prints.
pub uninterp spec fn quoted_text(text: Seq<char>) -> Seq<char>;

/// The `Debug` form of a text, by `format!`: the text in quotes, with escapes.
#[verifier::external_body]
fn quoted(text: &str) -> (quoted: String)
    ensures
        quoted@ == quoted_text(text@),
{
    format!("{:?}", text)
}

/// The message for a refused line.
pub open spec fn refusal(bad: BadLineView) -> Seq<char> {
    match bad {
        BadLineView::NoTab { line } => "expected `<0|1>\\t<log line>`, got: "@ + line,
        BadLineView::Label { number, label } => "line "@ + decimal_text(number as nat)
            + ": label must be 0 or 1, got "@ + quoted_text(label),
    }
}

impl BadLine {
    /// The message for the line.
    pub fn message(&self) -> (message: String)
        ensures
            message@ == refusal(self@),
    {
        let mut message = String::new();
        match self {
            BadLine::NoTab { line } => {
                message.append("expected `<0|1>\\t<log line>`, got: ");
                message.append(line.as_str());
            },
            BadLine::Label { number, label } => {
                message.append("line ");
                message.append(decimal(*number).as_str());
                message.append(": label must be 0 or 1, got ");
                message.append(quoted(label.as_str()).as_str());
            },
        }
        message
    }
}

/// The label and the text of the labeled line `line`, which is the line with
/// the number `number`.
pub open spec fn labeled_line(line: Seq<char>, number: u64) -> Result<
    (bool, Seq<char>),
    BadLineView,
> {
    match split_first(stripped_end(line, Class::LineEnd), '\t') {
        Some((label, text)) => if label == "1"@ {
            Ok((true, text))
        } else if label == "0"@ {
            Ok((false, text))
        } else {
            Err(BadLineView::Label { number, label })
        },
        None => Err(BadLineView::NoTab { line: stripped_end(line, Class::Space) }),
    }
}

/// What a parsed line holds.
pub open spec fn parsed_view(parsed: Result<(bool, String), BadLine>) -> Result<
    (bool, Seq<char>),
    BadLineView,
> {
    match parsed {
        Ok((label, text)) => Ok((label, text@)),
        Err(bad) => Err(bad@),
    }
}

/// The label and the text of the labeled line `line`, which is the line with
/// the number `number`.
pub fn parse_line(line: &str, number: u64) -> (parsed: Result<(bool, String), BadLine>)
    ensures
        parsed_view(parsed) == labeled_line(line@, number),
{
    proof {
        reveal_strlit("1");
        reveal_strlit("0");
        assert("1"@[0] != "0"@[0]);
    }
    match split_once(strip_end(line, Class::LineEnd), '\t') {
        Some((label, text)) => {
            if same(label, "1") {
                Ok((true, text.to_string()))
            } else if same(label, "0") {
                Ok((false, text.to_string()))
            } else {
                Err(BadLine::Label { number, label: label.to_string() })
            }
        },
        None => Err(BadLine::NoTab { line: strip_end(line, Class::Space).to_string() }),
    }
}

/// Whether another line is to be read, where `scored` lines were triaged and
/// `waiting` lines are to be, and `limit` lines are asked for, if not all.
pub fn wants_line(scored: usize, waiting: usize, limit: Option<usize>) -> (wanted: bool)
    ensures
        wanted == (scored + waiting < (match limit {
            Some(most) => most as int,
            None => usize::MAX as int,
        })),
{
    let most: usize = match limit {
        Some(most) => most,
        None => usize::MAX,
    };
    scored < most && waiting < most - scored
}

/// Whether `waiting` lines are to be triaged at once.
pub fn is_full(waiting: usize) -> (full: bool)
    ensures
        full == (waiting == BATCH),
{
    waiting == BATCH
}

/// A labeled line that was triaged.
#[derive(Debug)]
pub struct Labeled {
    pub template: Arc<str>,
    pub label: bool,
    pub attention: Score,
    pub pageable: Score,
    /// How pageable the line is by its words.
    pub keywords: Score,
    pub cluster: usize,
    pub route: Route,
}

/// Whether `row` is the line `text` with the label `label` that became `t`.
pub open spec fn is_scored(row: Labeled, t: Triaged, text: Seq<char>, label: bool) -> bool {
    &&& row.template@ == t.template@
    &&& row.label == label
    &&& row.attention == t.verdict@.attention
    &&& row.pageable == t.verdict@.pageable
    &&& row.keywords == keyword_level(text).0
    &&& row.cluster == t.cluster
    &&& row.route == t.route
}

/// The number of lines that have all of a triage, a text and a label.
pub open spec fn scored_count(triaged: nat, texts: nat, labels: nat) -> nat {
    let both = if triaged <= texts {
        triaged
    } else {
        texts
    };
    if both <= labels {
        both
    } else {
        labels
    }
}

/// Appends the triaged lines of a batch.
pub fn score_batch(
    rows: &mut Vec<Labeled>,
    triaged: &[Triaged],
    texts: &[String],
    labels: &[bool],
    rules: &Rules,
)
    ensures
        final(rows)@.len() == old(rows)@.len() + scored_count(
            triaged@.len(),
            texts@.len(),
            labels@.len(),
        ),
        forall|i: int| 0 <= i < old(rows)@.len() ==> #[trigger] final(rows)@[i] == old(rows)@[i],
        forall|i: int|
            0 <= i < scored_count(triaged@.len(), texts@.len(), labels@.len()) ==> is_scored(
                final(rows)@[old(rows)@.len() + i],
                #[trigger] triaged@[i],
                texts@[i]@,
                labels@[i],
            ),
{
    let ghost before = rows@;
    let mut i: usize = 0;
    while i < triaged.len() && i < texts.len() && i < labels.len()
        invariant
            i <= triaged@.len(),
            i <= texts@.len(),
            i <= labels@.len(),
            before == old(rows)@,
            rows@.len() == before.len() + i,
            forall|j: int| 0 <= j < before.len() ==> #[trigger] rows@[j] == before[j],
            forall|j: int|
                0 <= j < i ==> is_scored(
                    rows@[before.len() + j],
                    #[trigger] triaged@[j],
                    texts@[j]@,
                    labels@[j],
                ),
        decreases triaged@.len() - i,
    {
        let t = &triaged[i];
        rows.push(
            Labeled {
                template: t.template.clone(),
                label: labels[i],
                attention: t.verdict.attention(),
                pageable: t.verdict.pageable,
                keywords: rules.level(texts[i].as_str()).0,
                cluster: t.cluster,
                route: t.route,
            },
        );
        i += 1;
    }
}

/// The lines of one cluster.
#[derive(Debug)]
pub struct TemplateRow {
    pub cluster: usize,
    /// The template that the cluster had last.
    pub template: Arc<str>,
    pub lines: u64,
    pub alerts: u64,
}

/// The rows before row `n` that belong to `cluster`.
pub open spec fn in_cluster(rows: Seq<Labeled>, cluster: usize, n: int) -> Set<int> {
    Set::new(|i: int| 0 <= i < n && rows[i].cluster == cluster)
}

/// The rows before row `n` that belong to `cluster` and are alerts.
pub open spec fn alerts_in(rows: Seq<Labeled>, cluster: usize, n: int) -> Set<int> {
    Set::new(|i: int| 0 <= i < n && rows[i].cluster == cluster && rows[i].label)
}

/// The template of the last row before row `n` that belongs to `cluster`.
pub open spec fn last_template(rows: Seq<Labeled>, cluster: usize, n: nat) -> Option<Seq<char>>
    decreases n,
{
    if n == 0 {
        None
    } else if rows[n - 1].cluster == cluster {
        Some(rows[n - 1].template@)
    } else {
        last_template(rows, cluster, (n - 1) as nat)
    }
}

/// Whether `group` sums up the rows before row `n` of its cluster.
pub open spec fn sums_up(group: TemplateRow, rows: Seq<Labeled>, n: int) -> bool {
    &&& group.lines == in_cluster(rows, group.cluster, n).len()
    &&& group.alerts == alerts_in(rows, group.cluster, n).len()
    &&& last_template(rows, group.cluster, n as nat) == Some(group.template@)
}

/// Whether one of `groups` is of `cluster`.
pub open spec fn has_group(groups: Seq<TemplateRow>, cluster: usize) -> bool {
    exists|g: int| 0 <= g < groups.len() && (#[trigger] groups[g]).cluster == cluster
}

proof fn lemma_cluster_step(rows: Seq<Labeled>, cluster: usize, n: int)
    requires
        0 <= n < rows.len(),
    ensures
        in_cluster(rows, cluster, n).finite(),
        alerts_in(rows, cluster, n).finite(),
        in_cluster(rows, cluster, n).len() <= n,
        alerts_in(rows, cluster, n).len() <= n,
        in_cluster(rows, cluster, n + 1).len() == in_cluster(rows, cluster, n).len() + (
        if rows[n].cluster == cluster {
            1nat
        } else {
            0
        }),
        alerts_in(rows, cluster, n + 1).len() == alerts_in(rows, cluster, n).len() + (
        if rows[n].cluster == cluster && rows[n].label {
            1nat
        } else {
            0
        }),
    decreases n,
{
    let (a, b) = (in_cluster(rows, cluster, n), alerts_in(rows, cluster, n));
    if n == 0 {
        assert(a == Set::<int>::empty());
        assert(b == Set::<int>::empty());
    } else {
        lemma_cluster_step(rows, cluster, n - 1);
        if rows[n - 1].cluster == cluster {
            assert(a == in_cluster(rows, cluster, n - 1).insert(n - 1));
        } else {
            assert(a == in_cluster(rows, cluster, n - 1));
        }
        if rows[n - 1].cluster == cluster && rows[n - 1].label {
            assert(b == alerts_in(rows, cluster, n - 1).insert(n - 1));
        } else {
            assert(b == alerts_in(rows, cluster, n - 1));
        }
    }
    if rows[n].cluster == cluster {
        assert(in_cluster(rows, cluster, n + 1) == a.insert(n));
    } else {
        assert(in_cluster(rows, cluster, n + 1) == a);
    }
    if rows[n].cluster == cluster && rows[n].label {
        assert(alerts_in(rows, cluster, n + 1) == b.insert(n));
    } else {
        assert(alerts_in(rows, cluster, n + 1) == b);
    }
}

/// Whether `groups` sum up the rows of each cluster, one for each.
spec fn are_groups(groups: Seq<TemplateRow>, rows: Seq<Labeled>) -> bool {
    &&& forall|g: int|
        0 <= g < groups.len() ==> sums_up(#[trigger] groups[g], rows, rows.len() as int)
    &&& forall|g: int, h: int|
        0 <= g < h < groups.len() ==> (#[trigger] groups[g]).cluster != (
        #[trigger] groups[h]).cluster
    &&& forall|i: int| 0 <= i < rows.len() ==> has_group(groups, (#[trigger] rows[i]).cluster)
}

/// The rows of each cluster, in the order in which the clusters first occur.
fn group_rows(rows: &[Labeled]) -> (groups: Vec<TemplateRow>)
    ensures
        are_groups(groups@, rows@),
{
    broadcast use vstd::std_specs::hash::group_hash_axioms;

    let mut groups: Vec<TemplateRow> = Vec::new();
    let mut places: HashMap<usize, usize> = HashMap::new();
    let mut i: usize = 0;
    while i < rows.len()
        invariant
            i <= rows@.len(),
            forall|g: int|
                0 <= g < groups@.len() ==> sums_up(#[trigger] groups@[g], rows@, i as int),
            forall|g: int|
                0 <= g < groups@.len() ==> places@.contains_key((#[trigger] groups@[g]).cluster)
                    && places@[groups@[g].cluster] == g,
            forall|c: usize| #[trigger]
                places@.contains_key(c) ==> places@[c] < groups@.len()
                    && groups@[places@[c] as int].cluster == c,
            forall|j: int| 0 <= j < i ==> places@.contains_key((#[trigger] rows@[j]).cluster),
        decreases rows@.len() - i,
    {
        let row = &rows[i];
        let cluster: usize = row.cluster;
        let ghost before = groups@;
        let found = match places.get(&cluster) {
            Some(place) => Some(*place),
            None => None,
        };
        proof {
            lemma_cluster_step(rows@, cluster, i as int);
        }
        match found {
            Some(place) => {
                assert(sums_up(before[place as int], rows@, i as int));
                let group = &mut groups[place];
                group.template = row.template.clone();
                group.lines = group.lines + 1;
                if row.label {
                    group.alerts = group.alerts + 1;
                }
            },
            None => {
                places.insert(cluster, groups.len());
                groups.push(
                    TemplateRow {
                        cluster,
                        template: row.template.clone(),
                        lines: 1,
                        alerts: if row.label {
                            1
                        } else {
                            0
                        },
                    },
                );
                proof {
                    assert(in_cluster(rows@, cluster, i as int) == Set::<int>::empty());
                    assert(alerts_in(rows@, cluster, i as int) == Set::<int>::empty());
                }
            },
        }
        proof {
            assert forall|g: int| 0 <= g < groups@.len() implies sums_up(
                #[trigger] groups@[g],
                rows@,
                i + 1,
            ) by {
                let c = groups@[g].cluster;
                lemma_cluster_step(rows@, c, i as int);
                if c != cluster {
                    assert(groups@[g] == before[g]);
                    assert(sums_up(before[g], rows@, i as int));
                }
            }
        }
        i += 1;
    }
    proof {
        assert forall|j: int| 0 <= j < rows@.len() implies has_group(
            groups@,
            (#[trigger] rows@[j]).cluster,
        ) by {
            let place = places@[rows@[j].cluster] as int;
            assert(groups@[place].cluster == rows@[j].cluster);
        }
    }
    groups
}

/// The rows of each cluster, from the cluster with the most lines to that with
/// the fewest.
pub fn breakdown(rows: &[Labeled]) -> (groups: Vec<TemplateRow>)
    ensures
        forall|g: int|
            0 <= g < groups@.len() ==> sums_up(#[trigger] groups@[g], rows@, rows@.len() as int),
        forall|g: int, h: int|
            0 <= g < h < groups@.len() ==> (#[trigger] groups@[g]).cluster != (
            #[trigger] groups@[h]).cluster && groups@[g].lines >= groups@[h].lines,
        forall|i: int|
            0 <= i < rows@.len() ==> has_group(groups@, (#[trigger] rows@[i]).cluster),
{
    let all = group_rows(rows);
    let mut keys: Vec<(i64, u64)> = Vec::new();
    let mut i: usize = 0;
    while i < all.len()
        invariant
            i <= all@.len(),
            keys@.len() == i,
            forall|k: int| 0 <= k < i ==> #[trigger] keys@[k] == (0i64, all@[k].lines),
        decreases all@.len() - i,
    {
        keys.push((0, all[i].lines));
        i += 1;
    }
    let order = descending_order(&keys);
    let ghost o = order@;
    proof {
        law_order_lists_each_index_once(o, keys@);
    }
    let mut groups: Vec<TemplateRow> = Vec::new();
    let mut k: usize = 0;
    while k < order.len()
        invariant
            k <= o.len() == all@.len(),
            o == order@,
            forall|j: int| 0 <= j < o.len() ==> #[trigger] o[j] < all@.len(),
            groups@.len() == k,
            forall|j: int| 0 <= j < k ==> same_group(#[trigger] groups@[j], all@[o[j] as int]),
        decreases o.len() - k,
    {
        let group = &all[order[k]];
        groups.push(
            TemplateRow {
                cluster: group.cluster,
                template: group.template.clone(),
                lines: group.lines,
                alerts: group.alerts,
            },
        );
        k += 1;
    }
    proof {
        assert forall|g: int| 0 <= g < groups@.len() implies sums_up(
            #[trigger] groups@[g],
            rows@,
            rows@.len() as int,
        ) by {
            assert(same_group(groups@[g], all@[o[g] as int]));
            assert(sums_up(all@[o[g] as int], rows@, rows@.len() as int));
        }
        assert forall|g: int, h: int| 0 <= g < h < groups@.len() implies (
        #[trigger] groups@[g]).cluster != (#[trigger] groups@[h]).cluster && groups@[g].lines
            >= groups@[h].lines by {
            assert(same_group(groups@[g], all@[o[g] as int]));
            assert(same_group(groups@[h], all@[o[h] as int]));
            assert(crate::order::precedes(keys@, o[g], o[h]));
            assert(o[g] != o[h]);
            if o[g] < o[h] {
                assert(all@[o[g] as int].cluster != all@[o[h] as int].cluster);
            } else {
                assert(all@[o[h] as int].cluster != all@[o[g] as int].cluster);
            }
        }
        assert forall|i: int| 0 <= i < rows@.len() implies has_group(
            groups@,
            (#[trigger] rows@[i]).cluster,
        ) by {
            assert(has_group(all@, rows@[i].cluster));
            let g = choose|g: int|
                0 <= g < all@.len() && (#[trigger] all@[g]).cluster == rows@[i].cluster;
            assert(o.contains(g as usize));
            let j = choose|j: int| 0 <= j < o.len() && o[j] == g as usize;
            assert(same_group(groups@[j], all@[o[j] as int]));
        }
    }
    groups
}

/// Whether two groups hold the same.
spec fn same_group(a: TemplateRow, b: TemplateRow) -> bool {
    a.cluster == b.cluster && a.template@ == b.template@ && a.lines == b.lines && a.alerts
        == b.alerts
}

/// The labels of rows.
pub fn labels_of(rows: &[Labeled]) -> (labels: Vec<bool>)
    ensures
        labels@ == rows@.map_values(|row: Labeled| row.label),
{
    let mut labels: Vec<bool> = Vec::new();
    let mut i: usize = 0;
    while i < rows.len()
        invariant
            i <= rows@.len(),
            labels@.len() == i,
            forall|j: int| 0 <= j < i ==> #[trigger] labels@[j] == rows@[j].label,
        decreases rows@.len() - i,
    {
        labels.push(rows[i].label);
        i += 1;
    }
    assert(labels@ == rows@.map_values(|row: Labeled| row.label));
    labels
}

/// The clusters of the rows before row `n` whose score reaches `threshold`.
pub open spec fn flagged_clusters(
    rows: Seq<Labeled>,
    scores: Seq<Score>,
    threshold: Score,
    n: nat,
) -> Set<usize>
    decreases n,
{
    if n == 0 {
        Set::empty()
    } else {
        let before = flagged_clusters(rows, scores, threshold, (n - 1) as nat);
        if scores[n - 1].reaches(threshold) {
            before.insert(rows[n - 1].cluster)
        } else {
            before
        }
    }
}

/// The number of rows that have a score.
pub open spec fn with_score(rows: Seq<Labeled>, scores: Seq<Score>) -> nat {
    if rows.len() <= scores.len() {
        rows.len()
    } else {
        scores.len()
    }
}

/// The number of clusters with a row whose score reaches `threshold`.
pub fn flagged_templates(rows: &[Labeled], scores: &[Score], threshold: Score) -> (count: u64)
    ensures
        count == flagged_clusters(rows@, scores@, threshold, with_score(rows@, scores@)).len(),
{
    broadcast use vstd::std_specs::hash::group_hash_axioms;

    let mut clusters: HashSet<usize> = HashSet::new();
    let mut i: usize = 0;
    while i < rows.len() && i < scores.len()
        invariant
            i <= rows@.len(),
            i <= scores@.len(),
            clusters@ == flagged_clusters(rows@, scores@, threshold, i as nat),
        decreases rows@.len() - i,
    {
        if scores[i].at_least(threshold) {
            clusters.insert(rows[i].cluster);
        }
        i += 1;
    }
    clusters.len() as u64
}

/// How well one way of scoring does.
#[derive(Debug)]
pub struct Scorer {
    pub name: &'static str,
    pub threshold: Score,
    /// Whether the threshold was picked with the labels.
    pub threshold_is_oracle: bool,
    pub at_threshold: Confusion,
    pub flagged_templates: u64,
    pub ranking: Ranking,
}

/// The bits of a score that no other exceeds.
pub const INFINITY: u32 = 0x7f80_0000;

/// The threshold that does best by `ranking`, or one that flags nothing if none
/// flags an alert.
pub open spec fn best_threshold(ranking: Ranking) -> Score {
    match ranking.best {
        Some(b) => ranking.cuts@[b as int].threshold,
        None => Score { bits: INFINITY },
    }
}

/// Whether `scorer` tells how well `scores` do on `rows`, at the threshold
/// `threshold` or, if there is none, at the one that does best.
pub open spec fn is_scorer(
    scorer: Scorer,
    rows: Seq<Labeled>,
    scores: Seq<Score>,
    threshold: Option<Score>,
) -> bool {
    let labels = rows.map_values(|row: Labeled| row.label);
    let n = rows_of(scores, labels);
    &&& scorer.threshold_is_oracle == (threshold is None)
    &&& scorer.threshold == (match threshold {
        Some(t) => t,
        None => best_threshold(scorer.ranking),
    })
    &&& scorer.flagged_templates == flagged_clusters(
        rows,
        scores,
        scorer.threshold,
        scores.len(),
    ).len()
    &&& scorer.at_threshold.tp == cell(scores, labels, scorer.threshold, true, true, n).len()
    &&& scorer.at_threshold.fp == cell(scores, labels, scorer.threshold, true, false, n).len()
    &&& scorer.at_threshold.fn_ == cell(scores, labels, scorer.threshold, false, true, n).len()
    &&& scorer.at_threshold.tn == cell(scores, labels, scorer.threshold, false, false, n).len()
    &&& is_ranking(scorer.ranking, scores, labels)
    &&& scorer.ranking.grows()
}

/// How well `scores` do on `rows`, at the threshold `threshold` or, if there is
/// none, at the one that does best.
pub fn scorer(
    name: &'static str,
    rows: &[Labeled],
    scores: &[Score],
    threshold: Option<Score>,
) -> (scorer: Scorer)
    requires
        scores@.len() <= rows@.len(),
    ensures
        scorer.name@ == name@,
        is_scorer(scorer, rows@, scores@, threshold),
{
    let labels = labels_of(rows);
    let ranked = ranking(scores, &labels);
    let picked = match threshold {
        Some(t) => t,
        None => match ranked.best {
            Some(b) => ranked.cuts[b].threshold,
            None => Score { bits: INFINITY },
        },
    };
    Scorer {
        name,
        threshold: picked,
        threshold_is_oracle: threshold.is_none(),
        at_threshold: confusion(scores, &labels, picked),
        flagged_templates: flagged_templates(rows, scores, picked),
        ranking: ranked,
    }
}

/// The lines that go one way.
#[derive(Debug)]
pub struct RouteCount {
    pub route: Route,
    pub lines: u64,
    pub templates: u64,
    /// The lines that are alerts.
    pub hits: u64,
}

/// The number of rows before row `n` that go to `route`.
pub open spec fn lines_on(rows: Seq<Labeled>, route: Route, n: nat) -> nat
    decreases n,
{
    if n == 0 {
        0
    } else {
        lines_on(rows, route, (n - 1) as nat) + (if rows[n - 1].route == route {
            1nat
        } else {
            0
        })
    }
}

/// The number of rows before row `n` that go to `route` and are alerts.
pub open spec fn hits_on(rows: Seq<Labeled>, route: Route, n: nat) -> nat
    decreases n,
{
    if n == 0 {
        0
    } else {
        hits_on(rows, route, (n - 1) as nat) + (if rows[n - 1].route == route && rows[n - 1].label {
            1nat
        } else {
            0
        })
    }
}

/// The clusters of the rows before row `n` that go to `route`.
pub open spec fn clusters_on(rows: Seq<Labeled>, route: Route, n: nat) -> Set<usize>
    decreases n,
{
    if n == 0 {
        Set::empty()
    } else {
        let before = clusters_on(rows, route, (n - 1) as nat);
        if rows[n - 1].route == route {
            before.insert(rows[n - 1].cluster)
        } else {
            before
        }
    }
}

/// The rows that go to `route`.
pub fn count_route(rows: &[Labeled], route: Route) -> (count: RouteCount)
    ensures
        count.route == route,
        count.lines == lines_on(rows@, route, rows@.len()),
        count.hits == hits_on(rows@, route, rows@.len()),
        count.templates == clusters_on(rows@, route, rows@.len()).len(),
{
    broadcast use vstd::std_specs::hash::group_hash_axioms;

    let mut clusters: HashSet<usize> = HashSet::new();
    let (mut lines, mut hits): (u64, u64) = (0, 0);
    let mut i: usize = 0;
    while i < rows.len()
        invariant
            i <= rows@.len(),
            lines <= i,
            hits <= i,
            lines == lines_on(rows@, route, i as nat),
            hits == hits_on(rows@, route, i as nat),
            clusters@ == clusters_on(rows@, route, i as nat),
        decreases rows@.len() - i,
    {
        if rows[i].route == route {
            lines += 1;
            if rows[i].label {
                hits += 1;
            }
            clusters.insert(rows[i].cluster);
        }
        i += 1;
    }
    RouteCount { route, lines, templates: clusters.len() as u64, hits }
}

/// Whether `counts` tell how many of `rows` go each way, from the most urgent
/// on.
pub open spec fn are_route_counts(counts: Seq<RouteCount>, rows: Seq<Labeled>) -> bool {
    &&& counts.len() == 3
    &&& counts[0].route == Route::Page
    &&& counts[1].route == Route::Ticket
    &&& counts[2].route == Route::Log
    &&& forall|k: int|
        0 <= k < 3 ==> (#[trigger] counts[k]).lines == lines_on(rows, counts[k].route, rows.len())
            && counts[k].hits == hits_on(rows, counts[k].route, rows.len()) && counts[k].templates
            == clusters_on(rows, counts[k].route, rows.len()).len()
}

/// The rows that go each way, from the most urgent on.
pub fn count_routes(rows: &[Labeled]) -> (counts: Vec<RouteCount>)
    ensures
        are_route_counts(counts@, rows@),
{
    let mut counts: Vec<RouteCount> = Vec::new();
    counts.push(count_route(rows, Route::Page));
    counts.push(count_route(rows, Route::Ticket));
    counts.push(count_route(rows, Route::Log));
    counts
}

/// Each row goes one way: the lines of all routes add up to all rows.
pub proof fn law_routes_share_out_the_lines(rows: Seq<Labeled>, n: nat)
    requires
        n <= rows.len(),
    ensures
        lines_on(rows, Route::Page, n) + lines_on(rows, Route::Ticket, n) + lines_on(
            rows,
            Route::Log,
            n,
        ) == n,
        forall|route: Route| hits_on(rows, route, n) <= #[trigger] lines_on(rows, route, n),
    decreases n,
{
    if n > 0 {
        law_routes_share_out_the_lines(rows, (n - 1) as nat);
        assert forall|route: Route| hits_on(rows, route, n) <= #[trigger] lines_on(
            rows,
            route,
            n,
        ) by {
            assert(hits_on(rows, route, (n - 1) as nat) <= lines_on(rows, route, (n - 1) as nat));
        }
    }
}

/// The samples that are below `value`.
pub open spec fn below(samples: Seq<u32>, value: u32) -> Set<int> {
    Set::new(|i: int| 0 <= i < samples.len() && samples[i] < value)
}

/// The samples that are at most `value`.
pub open spec fn at_most(samples: Seq<u32>, value: u32) -> Set<int> {
    Set::new(|i: int| 0 <= i < samples.len() && samples[i] <= value)
}

/// The place, among `count` samples in rising order, of the one that `percent`
/// of the others come before, rounded to the nearest place, halves up.
pub open spec fn percentile_place(count: nat, percent: nat) -> nat {
    (((count - 1) * percent + 50) / 100) as nat
}

/// Whether `value` is the sample at the place for `percent`, or zero if there is
/// no sample.
pub open spec fn is_percentile(samples: Seq<u32>, percent: nat, value: u32) -> bool {
    if samples.len() == 0 {
        value == 0
    } else {
        samples.contains(value) && below(samples, value).len() <= percentile_place(
            samples.len(),
            percent,
        ) < at_most(samples, value).len()
    }
}

/// The sample that `percent` of the others come before, or zero if there is no
/// sample.
pub fn percentile(samples: &Vec<u32>, percent: u64) -> (value: u32)
    requires
        percent <= 100,
    ensures
        is_percentile(samples@, percent as nat, value),
{
    if samples.len() == 0 {
        return 0;
    }
    let mut keys: Vec<(i64, u64)> = Vec::new();
    let mut i: usize = 0;
    while i < samples.len()
        invariant
            i <= samples@.len(),
            keys@.len() == i,
            forall|k: int| 0 <= k < i ==> #[trigger] keys@[k] == (0i64, samples@[k] as u64),
        decreases samples@.len() - i,
    {
        keys.push((0, samples[i] as u64));
        i += 1;
    }
    let order = descending_order(&keys);
    let count: u128 = samples.len() as u128;
    proof {
        let n = count as int;
        let q = percent as int;
        assert(0 <= (n - 1) * q <= (n - 1) * 100) by (nonlinear_arith)
            requires
                n >= 1,
                0 <= q <= 100,
        ;
    }
    let place: usize = (((count - 1) * percent as u128 + 50) / 100) as usize;
    let at: usize = order[samples.len() - 1 - place];
    proof {
        lemma_place(samples@, keys@, order@, place as int);
    }
    samples[at]
}

/// The sample at a place of the rising order has as many samples below it, at
/// most, and more that do not exceed it.
proof fn lemma_place(samples: Seq<u32>, keys: Seq<(i64, u64)>, order: Seq<usize>, place: int)
    requires
        keys.len() == samples.len() <= usize::MAX,
        forall|k: int| 0 <= k < keys.len() ==> #[trigger] keys[k] == (0i64, samples[k] as u64),
        is_descending_order(order, keys),
        0 <= place < samples.len(),
    ensures
        ({
            let value = samples[order[samples.len() - 1 - place] as int];
            below(samples, value).len() <= place < at_most(samples, value).len()
        }),
{
    let n = samples.len() as int;
    let at = n - 1 - place;
    let value = samples[order[at] as int];
    law_order_lists_each_index_once(order, keys);
    assert forall|j: int, k: int| 0 <= j <= k < n implies samples[#[trigger] order[j] as int]
        >= samples[#[trigger] order[k] as int] by {
        if j < k {
            assert(crate::order::precedes(keys, order[j], order[k]));
        }
        assert(keys[order[j] as int].1 == samples[order[j] as int]);
        assert(keys[order[k] as int].1 == samples[order[k] as int]);
    }
    let range = vstd::set_lib::set_int_range(0, n);
    vstd::set_lib::lemma_int_range(0, n);
    assert(below(samples, value).subset_of(range));
    assert(at_most(samples, value).subset_of(range));
    vstd::set_lib::lemma_len_subset(below(samples, value), range);
    vstd::set_lib::lemma_len_subset(at_most(samples, value), range);
    let last = Seq::new(place as nat, |j: int| order[at + 1 + j] as int);
    assert forall|a: int, b: int| 0 <= a < last.len() && 0 <= b < last.len() && a != b implies last[a]
        != last[b] by {
        assert(order[at + 1 + a] != order[at + 1 + b]);
    }
    last.unique_seq_to_set();
    assert forall|i: int| below(samples, value).contains(i) implies #[trigger] last.to_set().contains(
        i,
    ) by {
        assert(order.contains(i as usize));
        let j = choose|j: int| 0 <= j < order.len() && order[j] == i as usize;
        if j <= at {
            assert(samples[order[j] as int] >= samples[order[at] as int]);
        }
        assert(last[j - at - 1] == i);
    }
    vstd::set_lib::lemma_len_subset(below(samples, value), last.to_set());
    let tail = Seq::new((place + 1) as nat, |j: int| order[at + j] as int);
    assert forall|a: int, b: int| 0 <= a < tail.len() && 0 <= b < tail.len() && a != b implies tail[a]
        != tail[b] by {
        assert(order[at + a] != order[at + b]);
    }
    tail.unique_seq_to_set();
    assert forall|i: int| tail.to_set().contains(i) implies #[trigger] at_most(
        samples,
        value,
    ).contains(i) by {
        let j = choose|j: int| 0 <= j < tail.len() && tail[j] == i;
        assert(samples[order[at] as int] >= samples[order[at + j] as int]);
    }
    vstd::set_lib::lemma_len_subset(tail.to_set(), at_most(samples, value));
}

/// The attention of each row.
pub open spec fn attentions(rows: Seq<Labeled>) -> Seq<Score> {
    rows.map_values(|row: Labeled| row.attention)
}

/// How pageable each row is.
pub open spec fn pageables(rows: Seq<Labeled>) -> Seq<Score> {
    rows.map_values(|row: Labeled| row.pageable)
}

/// How pageable each row is by its words.
pub open spec fn keyword_scores(rows: Seq<Labeled>) -> Seq<Score> {
    rows.map_values(|row: Labeled| row.keywords)
}

/// The attention of each row, how pageable it is, and how pageable it is by its
/// words.
fn columns(rows: &[Labeled]) -> (columns: (Vec<Score>, Vec<Score>, Vec<Score>))
    ensures
        columns.0@ == attentions(rows@),
        columns.1@ == pageables(rows@),
        columns.2@ == keyword_scores(rows@),
{
    let mut attention: Vec<Score> = Vec::new();
    let mut pageable: Vec<Score> = Vec::new();
    let mut keywords: Vec<Score> = Vec::new();
    let mut i: usize = 0;
    while i < rows.len()
        invariant
            i <= rows@.len(),
            attention@ == attentions(rows@).take(i as int),
            pageable@ == pageables(rows@).take(i as int),
            keywords@ == keyword_scores(rows@).take(i as int),
        decreases rows@.len() - i,
    {
        attention.push(rows[i].attention);
        pageable.push(rows[i].pageable);
        keywords.push(rows[i].keywords);
        i += 1;
    }
    (attention, pageable, keywords)
}

/// The rows with the label `label` that belong to one of the clusters `chosen`.
pub open spec fn caught(rows: Seq<Labeled>, chosen: Set<usize>, label: bool) -> Set<int> {
    Set::new(|k: int| 0 <= k < rows.len() && chosen.contains(rows[k].cluster) && rows[k].label == label)
}

/// The number of rows that belong to `cluster`.
pub open spec fn cluster_lines(rows: Seq<Labeled>, cluster: usize) -> nat {
    in_cluster(rows, cluster, rows.len() as int).len()
}

/// The number of rows that belong to `cluster` and are alerts.
pub open spec fn cluster_alerts(rows: Seq<Labeled>, cluster: usize) -> nat {
    alerts_in(rows, cluster, rows.len() as int).len()
}

/// What one decision for each template can catch at best.
#[derive(Debug, Clone, Copy, PartialEq, Eq, Structural)]
pub struct Ceiling {
    /// The alerts that there are.
    pub positives: u64,
    /// The alerts that are caught.
    pub tp: u64,
    /// The noise that is caught.
    pub fp: u64,
}

impl Ceiling {
    /// The F1 that is reached.
    pub fn f1(&self) -> (share: Fraction)
        ensures
            share.numerator == 2 * self.tp,
            share.denominator == self.tp + self.fp + self.positives,
    {
        Fraction {
            numerator: 2 * self.tp as u128,
            denominator: self.tp as u128 + self.fp as u128 + self.positives as u128,
        }
    }
}

/// Whether the clusters `chosen` catch what `ceiling` says.
pub open spec fn catches(rows: Seq<Labeled>, chosen: Set<usize>, ceiling: Ceiling) -> bool {
    caught(rows, chosen, true).len() == ceiling.tp && caught(rows, chosen, false).len()
        == ceiling.fp
}

/// Whether the clusters `chosen` have a better F1 than `ceiling`.
pub open spec fn beats(rows: Seq<Labeled>, chosen: Set<usize>, ceiling: Ceiling) -> bool {
    let (tp, fp) = (caught(rows, chosen, true).len(), caught(rows, chosen, false).len());
    2 * tp * (ceiling.tp + ceiling.fp + ceiling.positives) > 2 * ceiling.tp * (tp + fp
        + ceiling.positives)
}

/// Whether `ceiling` is what one decision for each template can catch at best:
/// some choice of clusters catches it, and none has a better F1. Where there is
/// no alert nothing is chosen.
pub open spec fn is_ceiling(ceiling: Ceiling, rows: Seq<Labeled>) -> bool {
    &&& ceiling.positives == caught(rows, Set::full(), true).len()
    &&& ceiling.positives == 0 ==> ceiling.fp == 0
    &&& exists|best: Set<usize>| #[trigger] catches(rows, best, ceiling)
    &&& forall|chosen: Set<usize>| !#[trigger] beats(rows, chosen, ceiling)
}

/// The clusters that rows belong to.
spec fn clusters_of(rows: Seq<Labeled>, n: nat) -> Set<usize>
    decreases n,
{
    if n == 0 {
        Set::empty()
    } else {
        clusters_of(rows, (n - 1) as nat).insert(rows[n - 1].cluster)
    }
}

proof fn lemma_clusters_of(rows: Seq<Labeled>, n: nat)
    requires
        n <= rows.len(),
    ensures
        clusters_of(rows, n).finite(),
        forall|k: int| 0 <= k < n ==> clusters_of(rows, n).contains((#[trigger] rows[k]).cluster),
        forall|c: usize| #[trigger]
            clusters_of(rows, n).contains(c) ==> exists|k: int|
                0 <= k < n && (#[trigger] rows[k]).cluster == c,
    decreases n,
{
    if n > 0 {
        lemma_clusters_of(rows, (n - 1) as nat);
        assert forall|c: usize| #[trigger] clusters_of(rows, n).contains(c) implies exists|k: int|
            0 <= k < n && (#[trigger] rows[k]).cluster == c by {
            if c == rows[n - 1].cluster {
                assert(rows[n - 1].cluster == c);
            } else {
                assert(clusters_of(rows, (n - 1) as nat).contains(c));
            }
        }
    }
}

proof fn lemma_caught_finite(rows: Seq<Labeled>, chosen: Set<usize>, label: bool)
    ensures
        caught(rows, chosen, label).finite(),
        caught(rows, chosen, label).len() <= rows.len(),
{
    let range = vstd::set_lib::set_int_range(0, rows.len() as int);
    vstd::set_lib::lemma_int_range(0, rows.len() as int);
    assert(caught(rows, chosen, label).subset_of(range));
    vstd::set_lib::lemma_len_subset(caught(rows, chosen, label), range);
}

/// What is caught, alerts and noise, are rows.
proof fn lemma_caught_are_rows(rows: Seq<Labeled>, chosen: Set<usize>)
    ensures
        caught(rows, chosen, true).len() + caught(rows, chosen, false).len() <= rows.len(),
        caught(rows, Set::full(), true).len() + caught(rows, Set::full(), false).len()
            == rows.len(),
{
    let range = vstd::set_lib::set_int_range(0, rows.len() as int);
    vstd::set_lib::lemma_int_range(0, rows.len() as int);
    let every = Set::<usize>::full();
    lemma_caught_finite(rows, chosen, true);
    lemma_caught_finite(rows, chosen, false);
    lemma_caught_finite(rows, every, true);
    lemma_caught_finite(rows, every, false);
    assert(caught(rows, every, true).union(caught(rows, every, false)) == range);
    assert(caught(rows, every, true).disjoint(caught(rows, every, false)));
    vstd::set_lib::lemma_set_disjoint_lens(caught(rows, every, true), caught(rows, every, false));
    lemma_caught_grows(rows, chosen, every, true);
    lemma_caught_grows(rows, chosen, every, false);
}

/// A choice of more clusters catches no less.
proof fn lemma_caught_grows(rows: Seq<Labeled>, chosen: Set<usize>, more: Set<usize>, label: bool)
    requires
        forall|k: int|
            0 <= k < rows.len() && chosen.contains((#[trigger] rows[k]).cluster) ==> more.contains(
                rows[k].cluster,
            ),
    ensures
        caught(rows, chosen, label).len() <= caught(rows, more, label).len(),
{
    lemma_caught_finite(rows, more, label);
    assert(caught(rows, chosen, label).subset_of(caught(rows, more, label)));
    vstd::set_lib::lemma_len_subset(caught(rows, chosen, label), caught(rows, more, label));
}

/// One more cluster adds its rows to what is caught.
proof fn lemma_caught_insert(rows: Seq<Labeled>, chosen: Set<usize>, cluster: usize)
    requires
        !chosen.contains(cluster),
    ensures
        cluster_alerts(rows, cluster) <= cluster_lines(rows, cluster),
        caught(rows, chosen.insert(cluster), true).len() == caught(rows, chosen, true).len()
            + cluster_alerts(rows, cluster),
        caught(rows, chosen.insert(cluster), false).len() == caught(rows, chosen, false).len()
            + cluster_lines(rows, cluster) - cluster_alerts(rows, cluster),
{
    let more = chosen.insert(cluster);
    let n = rows.len() as int;
    let alerts = alerts_in(rows, cluster, n);
    let noise = caught(rows, set![cluster], false);
    lemma_caught_finite(rows, set![cluster], true);
    lemma_caught_finite(rows, set![cluster], false);
    lemma_caught_finite(rows, chosen, true);
    lemma_caught_finite(rows, chosen, false);
    assert(alerts == caught(rows, set![cluster], true));
    assert(in_cluster(rows, cluster, n) == alerts.union(noise));
    assert(alerts.disjoint(noise));
    vstd::set_lib::lemma_set_disjoint_lens(alerts, noise);
    assert(caught(rows, more, true) == caught(rows, chosen, true).union(alerts));
    assert(caught(rows, chosen, true).disjoint(alerts));
    vstd::set_lib::lemma_set_disjoint_lens(caught(rows, chosen, true), alerts);
    assert(caught(rows, more, false) == caught(rows, chosen, false).union(noise));
    assert(caught(rows, chosen, false).disjoint(noise));
    vstd::set_lib::lemma_set_disjoint_lens(caught(rows, chosen, false), noise);
}

/// What choosing the clusters `chosen` is worth, where an alert is worth `d` and
/// each row costs `t`.
spec fn worth(rows: Seq<Labeled>, chosen: Set<usize>, d: int, t: int) -> int {
    d * caught(rows, chosen, true).len() - t * (caught(rows, chosen, true).len() + caught(
        rows,
        chosen,
        false,
    ).len())
}

/// What choosing `cluster` is worth.
spec fn gain(rows: Seq<Labeled>, cluster: usize, d: int, t: int) -> int {
    d * cluster_alerts(rows, cluster) - t * cluster_lines(rows, cluster)
}

/// Whether `worthy` holds, of the clusters of rows, those that are worth
/// choosing.
spec fn is_worthy(rows: Seq<Labeled>, worthy: Set<usize>, d: int, t: int) -> bool {
    forall|k: int|
        0 <= k < rows.len() ==> (worthy.contains((#[trigger] rows[k]).cluster) <==> gain(
            rows,
            rows[k].cluster,
            d,
            t,
        ) > 0)
}

/// One more cluster adds what it is worth.
proof fn lemma_worth_insert(rows: Seq<Labeled>, chosen: Set<usize>, cluster: usize, d: int, t: int)
    requires
        !chosen.contains(cluster),
    ensures
        worth(rows, chosen.insert(cluster), d, t) == worth(rows, chosen, d, t) + gain(
            rows,
            cluster,
            d,
            t,
        ),
{
    lemma_caught_insert(rows, chosen, cluster);
    let (x, y) = (caught(rows, chosen, true).len() as int, caught(rows, chosen, false).len() as int);
    let (a, n) = (cluster_alerts(rows, cluster) as int, cluster_lines(rows, cluster) as int);
    assert(d * (x + a) - t * (x + a + (y + n - a)) == d * x - t * (x + y) + (d * a - t * n))
        by (nonlinear_arith);
}

/// Clusters that are worth nothing or more add to what is chosen, and those that
/// are worth nothing or less take from it.
proof fn lemma_worth_union(rows: Seq<Labeled>, chosen: Set<usize>, added: Set<usize>, d: int, t: int)
    requires
        added.finite(),
        chosen.disjoint(added),
    ensures
        (forall|c: usize| #[trigger] added.contains(c) ==> gain(rows, c, d, t) >= 0) ==> worth(
            rows,
            chosen.union(added),
            d,
            t,
        ) >= worth(rows, chosen, d, t),
        (forall|c: usize| #[trigger] added.contains(c) ==> gain(rows, c, d, t) <= 0) ==> worth(
            rows,
            chosen.union(added),
            d,
            t,
        ) <= worth(rows, chosen, d, t),
    decreases added.len(),
{
    if added.len() == 0 {
        assert(chosen.union(added) == chosen);
    } else {
        let c = added.choose();
        let rest = added.remove(c);
        assert(chosen.disjoint(rest));
        lemma_worth_union(rows, chosen, rest, d, t);
        lemma_worth_insert(rows, chosen.union(rest), c, d, t);
        assert(chosen.union(added) == chosen.union(rest).insert(c));
        assert forall|e: usize| #[trigger] rest.contains(e) implies added.contains(e) by {}
    }
}

/// No choice is worth more than that of the clusters that are worth choosing.
proof fn lemma_worthy_is_worth_most(
    rows: Seq<Labeled>,
    worthy: Set<usize>,
    chosen: Set<usize>,
    d: int,
    t: int,
)
    requires
        is_worthy(rows, worthy, d, t),
    ensures
        worth(rows, chosen, d, t) <= worth(rows, worthy, d, t),
{
    let all = clusters_of(rows, rows.len());
    lemma_clusters_of(rows, rows.len());
    let good = all.intersect(worthy);
    let mine = all.intersect(chosen);
    assert(caught(rows, worthy, true) == caught(rows, good, true));
    assert(caught(rows, worthy, false) == caught(rows, good, false));
    assert(caught(rows, chosen, true) == caught(rows, mine, true));
    assert(caught(rows, chosen, false) == caught(rows, mine, false));
    let both = mine.intersect(good);
    let dear = mine.difference(good);
    let missed = good.difference(mine);
    assert(mine == both.union(dear));
    assert(good == both.union(missed));
    assert(both.disjoint(dear));
    assert(both.disjoint(missed));
    assert(dear.subset_of(all));
    assert(missed.subset_of(all));
    vstd::set_lib::lemma_len_subset(dear, all);
    vstd::set_lib::lemma_len_subset(missed, all);
    assert forall|c: usize| #[trigger] dear.contains(c) implies gain(rows, c, d, t) <= 0 by {
        assert(all.contains(c));
        let k = choose|k: int| 0 <= k < rows.len() && (#[trigger] rows[k]).cluster == c;
        assert(worthy.contains(rows[k].cluster) <==> gain(rows, rows[k].cluster, d, t) > 0);
    }
    assert forall|c: usize| #[trigger] missed.contains(c) implies gain(rows, c, d, t) >= 0 by {
        assert(all.contains(c));
        let k = choose|k: int| 0 <= k < rows.len() && (#[trigger] rows[k]).cluster == c;
        assert(worthy.contains(rows[k].cluster) <==> gain(rows, rows[k].cluster, d, t) > 0);
    }
    lemma_worth_union(rows, both, dear, d, t);
    lemma_worth_union(rows, both, missed, d, t);
}

/// What is worth choosing by a higher bar is worth choosing by a lower one.
proof fn lemma_bar_rises(a: int, n: int, d: int, t: int, low_d: int, low_t: int)
    requires
        d * a - t * n > 0,
        low_t * d <= t * low_d,
        n > 0,
        d > 0,
        low_d > 0 || low_d == 0 && low_t < 0,
    ensures
        low_d * a - low_t * n > 0,
{
    if low_d > 0 {
        assert(low_d * (d * a) > low_d * (t * n)) by (nonlinear_arith)
            requires
                d * a - t * n > 0,
                low_d > 0,
        ;
        assert((t * low_d) * n >= (low_t * d) * n) by (nonlinear_arith)
            requires
                low_t * d <= t * low_d,
                n > 0,
        ;
        assert(low_d * (t * n) == (t * low_d) * n) by (nonlinear_arith);
        assert(low_d * (d * a) == (low_d * a) * d) by (nonlinear_arith);
        assert((low_t * d) * n == (low_t * n) * d) by (nonlinear_arith);
        assert(low_d * a > low_t * n) by (nonlinear_arith)
            requires
                (low_d * a) * d > (low_t * n) * d,
                d > 0,
        ;
    } else {
        assert(low_d * a - low_t * n > 0) by (nonlinear_arith)
            requires
                low_d == 0,
                low_t < 0,
                n > 0,
        ;
    }
}

/// The cluster of a row has a row.
proof fn lemma_cluster_has_lines(rows: Seq<Labeled>, k: int)
    requires
        0 <= k < rows.len(),
    ensures
        cluster_lines(rows, rows[k].cluster) > 0,
{
    let c = rows[k].cluster;
    let set = in_cluster(rows, c, rows.len() as int);
    let range = vstd::set_lib::set_int_range(0, rows.len() as int);
    vstd::set_lib::lemma_int_range(0, rows.len() as int);
    assert(set.subset_of(range));
    vstd::set_lib::lemma_len_subset(set, range);
    assert(set.contains(k));
    if set.len() == 0 {
        assert(set == Set::<int>::empty());
    }
}

/// What is caught by the clusters whose share of alerts is above the F1 of
/// `bar`.
fn caught_above(rows: &[Labeled], groups: &Vec<TemplateRow>, bar: Ceiling) -> (next: Ceiling)
    requires
        are_groups(groups@, rows@),
        bar.fp + bar.positives <= u64::MAX,
    ensures
        next.positives == bar.positives,
        exists|worthy: Set<usize>|
            is_worthy(rows@, worthy, bar.tp + bar.fp + bar.positives, bar.tp as int)
                && #[trigger] catches(rows@, worthy, next),
{
    let count: usize = rows.len();
    let rest: u64 = bar.fp + bar.positives;
    let ghost (d, t) = (bar.tp + rest, bar.tp as int);
    let mut next = Ceiling { positives: bar.positives, tp: 0, fp: 0 };
    let ghost mut worthy: Set<usize> = Set::empty();
    let mut i: usize = 0;
    proof {
        assert(caught(rows@, worthy, true) == Set::<int>::empty());
        assert(caught(rows@, worthy, false) == Set::<int>::empty());
    }
    while i < groups.len()
        invariant
            i <= groups@.len(),
            are_groups(groups@, rows@),
            count == rows@.len(),
            rest == bar.fp + bar.positives,
            d == bar.tp + rest,
            t == bar.tp,
            next.positives == bar.positives,
            catches(rows@, worthy, next),
            forall|c: usize| #[trigger]
                worthy.contains(c) <==> has_group(groups@.take(i as int), c) && gain(
                    rows@,
                    c,
                    d,
                    t,
                ) > 0,
        decreases groups@.len() - i,
    {
        let group = &groups[i];
        let ghost c = group.cluster;
        let ghost before = groups@.take(i as int);
        let ghost after = groups@.take(i + 1);
        proof {
            assert(sums_up(groups@[i as int], rows@, rows@.len() as int));
            assert(!has_group(before, c)) by {
                if has_group(before, c) {
                    let g = choose|g: int|
                        0 <= g < before.len() && (#[trigger] before[g]).cluster == c;
                    assert(groups@[g].cluster != groups@[i as int].cluster);
                }
            }
            lemma_caught_insert(rows@, worthy, c);
            lemma_caught_finite(rows@, worthy.insert(c), true);
            lemma_caught_finite(rows@, worthy.insert(c), false);
            let (a, m) = (group.alerts as int, group.lines - group.alerts);
            let r = rest as int;
            assert(0 <= a * r <= 0xffff_ffff_ffff_ffff * 0xffff_ffff_ffff_ffff) by (nonlinear_arith)
                requires
                    0 <= a <= 0xffff_ffff_ffff_ffff,
                    0 <= r <= 0xffff_ffff_ffff_ffff,
            ;
            assert(0 <= t * m <= 0xffff_ffff_ffff_ffff * 0xffff_ffff_ffff_ffff) by (nonlinear_arith)
                requires
                    0 <= t <= 0xffff_ffff_ffff_ffff,
                    0 <= m <= 0xffff_ffff_ffff_ffff,
            ;
            assert((t + r) * a - t * (a + m) == a * r - t * m) by (nonlinear_arith);
            assert forall|e: usize| #[trigger] has_group(after, e) <==> has_group(before, e) || e
                == c by {
                if has_group(after, e) {
                    let g = choose|g: int| 0 <= g < after.len() && (#[trigger] after[g]).cluster == e;
                    if g < i {
                        assert(before[g].cluster == e);
                    }
                }
                if has_group(before, e) {
                    let g = choose|g: int|
                        0 <= g < before.len() && (#[trigger] before[g]).cluster == e;
                    assert(after[g].cluster == e);
                }
                if e == c {
                    assert(after[i as int].cluster == e);
                }
            }
        }
        let quiet: u64 = group.lines - group.alerts;
        if (group.alerts as u128) * (rest as u128) > (bar.tp as u128) * (quiet as u128) {
            next.tp = next.tp + group.alerts;
            next.fp = next.fp + quiet;
            proof {
                worthy = worthy.insert(c);
            }
        }
        i += 1;
    }
    proof {
        assert(groups@.take(groups@.len() as int) == groups@);
        assert(is_worthy(rows@, worthy, d, t)) by {
            assert forall|k: int| 0 <= k < rows@.len() implies (worthy.contains(
                (#[trigger] rows@[k]).cluster,
            ) <==> gain(rows@, rows@[k].cluster, d, t) > 0) by {
                assert(has_group(groups@, rows@[k].cluster));
            }
        }
        assert(catches(rows@, worthy, next));
    }
    next
}

/// The clusters that are worth choosing by the bar `d`, `t` are among those that
/// are by a lower bar, and catch no more.
proof fn lemma_choice_narrows(
    rows: Seq<Labeled>,
    current: Set<usize>,
    worthy: Set<usize>,
    d: int,
    t: int,
    low_d: int,
    low_t: int,
)
    requires
        is_worthy(rows, current, low_d, low_t),
        is_worthy(rows, worthy, d, t),
        low_t * d <= t * low_d,
        d > 0,
        low_d > 0 || low_d == 0 && low_t < 0,
    ensures
        caught(rows, worthy, true).len() <= caught(rows, current, true).len(),
        caught(rows, worthy, false).len() <= caught(rows, current, false).len(),
{
    assert forall|k: int|
        0 <= k < rows.len() && worthy.contains(
            (#[trigger] rows[k]).cluster,
        ) implies current.contains(rows[k].cluster) by {
        let c = rows[k].cluster;
        lemma_cluster_has_lines(rows, k);
        lemma_bar_rises(
            cluster_alerts(rows, c) as int,
            cluster_lines(rows, c) as int,
            d,
            t,
            low_d,
            low_t,
        );
    }
    lemma_caught_grows(rows, worthy, current, true);
    lemma_caught_grows(rows, worthy, current, false);
}

/// Where the clusters with a share of alerts above the F1 of a choice have no
/// better F1, no choice has.
proof fn lemma_nothing_beats(rows: Seq<Labeled>, ceiling: Ceiling, worthy: Set<usize>)
    requires
        is_worthy(rows, worthy, ceiling.tp + ceiling.fp + ceiling.positives, ceiling.tp as int),
        !beats(rows, worthy, ceiling),
    ensures
        forall|chosen: Set<usize>| !#[trigger] beats(rows, chosen, ceiling),
{
    let (t, d, p) = (
        ceiling.tp as int,
        ceiling.tp + ceiling.fp + ceiling.positives,
        ceiling.positives as int,
    );
    let (x, y) = (
        caught(rows, worthy, true).len() as int,
        caught(rows, worthy, false).len() as int,
    );
    assert(d * x - t * (x + y) <= t * p) by (nonlinear_arith)
        requires
            2 * x * d <= 2 * t * (x + y + p),
    ;
    assert forall|chosen: Set<usize>| !#[trigger] beats(rows, chosen, ceiling) by {
        lemma_worthy_is_worth_most(rows, worthy, chosen, d, t);
        let (u, v) = (
            caught(rows, chosen, true).len() as int,
            caught(rows, chosen, false).len() as int,
        );
        assert(2 * u * d <= 2 * t * (u + v + p)) by (nonlinear_arith)
            requires
                d * u - t * (u + v) <= t * p,
        ;
    }
}

/// Whether the F1 of `a` is better than that of `b`.
fn is_better(a: Ceiling, b: Ceiling) -> (better: bool)
    requires
        a.positives == b.positives,
        a.fp + a.positives <= u64::MAX,
        b.fp + b.positives <= u64::MAX,
    ensures
        better == (2 * a.tp * (b.tp + b.fp + b.positives) > 2 * b.tp * (a.tp + a.fp
            + b.positives)),
{
    let (p, q): (u64, u64) = (b.fp + b.positives, a.fp + a.positives);
    proof {
        let (x, y) = (a.tp as int, b.tp as int);
        assert(2 * x * (y + p) == 2 * (x * y) + 2 * (x * p)) by (nonlinear_arith);
        assert(2 * y * (x + q) == 2 * (x * y) + 2 * (y * q)) by (nonlinear_arith);
        assert(0 <= x * p <= 0xffff_ffff_ffff_ffff * 0xffff_ffff_ffff_ffff) by (nonlinear_arith)
            requires
                0 <= x <= 0xffff_ffff_ffff_ffff,
                0 <= p <= 0xffff_ffff_ffff_ffff,
        ;
        assert(0 <= y * q <= 0xffff_ffff_ffff_ffff * 0xffff_ffff_ffff_ffff) by (nonlinear_arith)
            requires
                0 <= y <= 0xffff_ffff_ffff_ffff,
                0 <= q <= 0xffff_ffff_ffff_ffff,
        ;
    }
    (a.tp as u128) * (p as u128) > (b.tp as u128) * (q as u128)
}

/// What one decision for each template can catch at best. From the choice of all
/// clusters on, those whose share of alerts is not above the F1 so far are left
/// out, until that makes the F1 no better.
pub fn ceiling(rows: &[Labeled]) -> (ceiling: Ceiling)
    ensures
        is_ceiling(ceiling, rows@),
{
    let groups = group_rows(rows);
    let labels = labels_of(rows);
    let positives: u64 = count_true(&labels);
    let ghost every = Set::<usize>::full();
    proof {
        assert(labeled(labels@, true, labels@.len() as int) == caught(rows@, every, true));
        lemma_caught_are_rows(rows@, every);
    }
    if positives == 0 {
        let none = Ceiling { positives: 0, tp: 0, fp: 0 };
        proof {
            assert(caught(rows@, Set::empty(), true) == Set::<int>::empty());
            assert(caught(rows@, Set::empty(), false) == Set::<int>::empty());
            assert(catches(rows@, Set::empty(), none));
            assert forall|chosen: Set<usize>| !#[trigger] beats(rows@, chosen, none) by {
                lemma_caught_grows(rows@, chosen, every, true);
                let (u, v) = (caught(rows@, chosen, true).len(), caught(rows@, chosen, false).len());
                assert(2 * u * 0 == 0 && 2 * 0 * (u + v) == 0) by (nonlinear_arith);
            }
        }
        return none;
    }
    let mut best = Ceiling { positives, tp: positives, fp: rows.len() as u64 - positives };
    let ghost mut current = every;
    let ghost mut low_t: int = -1;
    let ghost mut low_d: int = 0;
    proof {
        assert forall|k: int| 0 <= k < rows@.len() implies gain(
            rows@,
            (#[trigger] rows@[k]).cluster,
            low_d,
            low_t,
        ) > 0 by {
            lemma_cluster_has_lines(rows@, k);
        }
    }
    loop
        invariant
            are_groups(groups@, rows@),
            every == Set::<usize>::full(),
            positives > 0,
            best.positives == positives == caught(rows@, every, true).len(),
            best.fp + positives <= u64::MAX,
            catches(rows@, current, best),
            is_worthy(rows@, current, low_d, low_t),
            low_d > 0 || low_d == 0 && low_t < 0,
            low_t * (best.tp + best.fp + positives) <= best.tp * low_d,
        decreases best.tp + best.fp,
    {
        let next = caught_above(rows, &groups, best);
        let ghost (t, d) = (best.tp as int, best.tp + best.fp + positives);
        let ghost worthy = choose|worthy: Set<usize>|
            is_worthy(rows@, worthy, d, t) && #[trigger] catches(rows@, worthy, next);
        proof {
            lemma_choice_narrows(rows@, current, worthy, d, t, low_d, low_t);
        }
        if !is_better(next, best) {
            proof {
                lemma_nothing_beats(rows@, best, worthy);
                assert(catches(rows@, current, best));
            }
            return best;
        }
        proof {
            let (x, y) = (next.tp as int, next.fp as int);
            assert(t * (x + y + positives) <= x * d) by (nonlinear_arith)
                requires
                    2 * x * d > 2 * t * (x + y + positives),
            ;
            current = worthy;
            low_t = t;
            low_d = d;
        }
        best = next;
    }
}

/// The score of each row, where `rarity` has the score for each number of lines
/// that a cluster has.
pub open spec fn rarities(rows: Seq<Labeled>, rarity: Map<u64, Score>) -> Seq<Score> {
    rows.map_values(|row: Labeled| rarity[cluster_lines(rows, row.cluster) as u64])
}

/// Whether `rarity` has a score for the number of lines of each cluster.
pub open spec fn rates_all(rarity: Map<u64, Score>, rows: Seq<Labeled>) -> bool {
    forall|k: int|
        0 <= k < rows.len() ==> rarity.contains_key(
            cluster_lines(rows, (#[trigger] rows[k]).cluster) as u64,
        )
}

/// The score of each row, where `rarity` has the score for each number of lines
/// that a cluster has.
fn rarity_scores(rows: &[Labeled], rarity: &HashMap<u64, Score>) -> (scores: Vec<Score>)
    requires
        rates_all(rarity@, rows@),
    ensures
        scores@ == rarities(rows@, rarity@),
{
    broadcast use vstd::std_specs::hash::group_hash_axioms;

    let groups = group_rows(rows);
    let mut sizes: HashMap<usize, u64> = HashMap::new();
    let mut i: usize = 0;
    while i < groups.len()
        invariant
            i <= groups@.len(),
            are_groups(groups@, rows@),
            forall|g: int|
                0 <= g < i ==> sizes@.contains_key((#[trigger] groups@[g]).cluster)
                    && sizes@[groups@[g].cluster] == groups@[g].lines,
        decreases groups@.len() - i,
    {
        sizes.insert(groups[i].cluster, groups[i].lines);
        i += 1;
    }
    let mut scores: Vec<Score> = Vec::new();
    let mut k: usize = 0;
    while k < rows.len()
        invariant
            k <= rows@.len(),
            are_groups(groups@, rows@),
            rates_all(rarity@, rows@),
            forall|g: int|
                0 <= g < groups@.len() ==> sizes@.contains_key((#[trigger] groups@[g]).cluster)
                    && sizes@[groups@[g].cluster] == groups@[g].lines,
            scores@ == rarities(rows@, rarity@).take(k as int),
        decreases rows@.len() - k,
    {
        let cluster: usize = rows[k].cluster;
        proof {
            assert(has_group(groups@, rows@[k as int].cluster));
            let g = choose|g: int|
                0 <= g < groups@.len() && (#[trigger] groups@[g]).cluster == cluster;
            assert(sums_up(groups@[g], rows@, rows@.len() as int));
        }
        let lines: u64 = *sizes.get(&cluster).unwrap();
        scores.push(*rarity.get(&lines).unwrap());
        k += 1;
    }
    scores
}

/// What the labeled lines add up to.
#[derive(Debug)]
pub struct Summary {
    pub lines: u64,
    pub positives: u64,
    pub latency_p50_ms: u32,
    pub latency_p95_ms: u32,
    /// How well one decision for each template could do.
    pub ceiling: Ceiling,
    pub scorers: Vec<Scorer>,
    pub routes: Vec<RouteCount>,
}

/// The bits of the score from which on keywords count as an alert: one half.
pub const KEYWORD_THRESHOLD: u32 = 0x3f00_0000;

/// What the labeled lines `rows` add up to. `rarity` has, for each number of
/// lines that a cluster has, one over it.
pub fn summarize(
    rows: &[Labeled],
    latencies: &Vec<u32>,
    page_threshold: Score,
    rarity: &HashMap<u64, Score>,
) -> (summary: Summary)
    requires
        rates_all(rarity@, rows@),
    ensures
        summary.lines == rows@.len(),
        summary.positives == labeled(
            rows@.map_values(|row: Labeled| row.label),
            true,
            rows@.len() as int,
        ).len(),
        is_percentile(latencies@, 50, summary.latency_p50_ms),
        is_percentile(latencies@, 95, summary.latency_p95_ms),
        is_ceiling(summary.ceiling, rows@),
        summary.scorers@.len() == 4,
        summary.scorers@[0].name@ == "tocsin"@,
        is_scorer(summary.scorers@[0], rows@, attentions(rows@), Some(page_threshold)),
        summary.scorers@[1].name@ == "jev pageable only"@,
        is_scorer(summary.scorers@[1], rows@, pageables(rows@), None),
        summary.scorers@[2].name@ == "keyword rules"@,
        is_scorer(
            summary.scorers@[2],
            rows@,
            keyword_scores(rows@),
            Some(Score { bits: KEYWORD_THRESHOLD }),
        ),
        summary.scorers@[3].name@ == "rare templates"@,
        is_scorer(summary.scorers@[3], rows@, rarities(rows@, rarity@), None),
        are_route_counts(summary.routes@, rows@),
{
    let (attention, pageable, keywords) = columns(rows);
    let rare = rarity_scores(rows, rarity);
    let mut scorers: Vec<Scorer> = Vec::new();
    scorers.push(scorer("tocsin", rows, &attention, Some(page_threshold)));
    scorers.push(scorer("jev pageable only", rows, &pageable, None));
    scorers.push(
        scorer("keyword rules", rows, &keywords, Some(Score { bits: KEYWORD_THRESHOLD })),
    );
    scorers.push(scorer("rare templates", rows, &rare, None));
    Summary {
        lines: rows.len() as u64,
        positives: scorers[0].ranking.positives,
        latency_p50_ms: percentile(latencies, 50),
        latency_p95_ms: percentile(latencies, 95),
        ceiling: ceiling(rows),
        scorers,
        routes: count_routes(rows),
    }
}

/// How well one way of scoring does, as it is printed.
#[derive(Debug)]
pub struct ScorerLine {
    pub name: String,
    pub threshold: String,
    pub threshold_is_oracle: bool,
    pub precision: String,
    pub recall: String,
    pub f1: String,
    pub flagged_templates: u64,
    pub average_precision: String,
    pub roc_auc: String,
}

/// The lines that go one way, as they are printed.
#[derive(Debug)]
pub struct RouteLine {
    pub route: Route,
    pub lines: u64,
    pub templates: u64,
    pub precision: String,
}

/// The templates whose predictions fall into one bin, as they are printed.
#[derive(Debug)]
pub struct BinLine {
    pub lo: String,
    pub hi: String,
    pub count: u64,
    pub mean_predicted: String,
    pub observed_rate: String,
}

/// The report on a labeled file. What is not a whole number is held as it is
/// printed.
#[derive(Debug)]
pub struct Report {
    pub dataset: String,
    pub model: Option<String>,
    pub lines: u64,
    pub positives: u64,
    pub templates: u64,
    pub judged_templates: u64,
    pub cached_verdicts: u64,
    pub fallbacks: u64,
    pub input_tokens: u64,
    pub usd: String,
    pub per_line_usd: String,
    pub latency_p50_ms: u32,
    pub latency_p95_ms: u32,
    pub templating_lines_per_sec: String,
    pub wall_secs: String,
    pub template_ceiling_f1: String,
    pub scorers: Vec<ScorerLine>,
    pub routes: Vec<RouteLine>,
    pub line_brier: String,
    pub line_ece: String,
    pub template_brier: String,
    pub template_ece: String,
    pub bins: Vec<BinLine>,
}

/// The row of a table with the cells `cells`.
pub open spec fn table_row(cells: Seq<Seq<char>>) -> Seq<char> {
    "| "@ + joined(cells, " | "@) + " |\n"@
}

/// The row of a table with the cells `cells`.
fn row(cells: &Vec<String>) -> (text: String)
    ensures
        text@ == table_row(views(cells@)),
{
    let mut text = String::new();
    text.append("| ");
    text.append(join_texts(cells, " | ").as_str());
    text.append(" |\n");
    text
}

/// The cells of a way of scoring; a threshold that was picked with the labels
/// has a mark.
pub open spec fn scorer_cells(s: ScorerLine) -> Seq<Seq<char>> {
    seq![
        s.name@,
        if s.threshold_is_oracle {
            s.threshold@ + "*"@
        } else {
            s.threshold@
        },
        s.precision@,
        s.recall@,
        s.f1@,
        decimal_text(s.flagged_templates as nat),
        s.average_precision@,
        s.roc_auc@,
    ]
}

/// The name of a route.
pub open spec fn route_title(route: Route) -> Seq<char> {
    match route {
        Route::Page => "Page"@,
        Route::Ticket => "Ticket"@,
        Route::Log => "Log"@,
    }
}

/// The cells of a route.
pub open spec fn route_cells(r: RouteLine) -> Seq<Seq<char>> {
    seq![
        route_title(r.route),
        decimal_text(r.lines as nat),
        decimal_text(r.templates as nat),
        r.precision@,
    ]
}

/// The cells of a bin.
pub open spec fn bin_cells(b: BinLine) -> Seq<Seq<char>> {
    seq![
        b.lo@ + "–"@ + b.hi@,
        decimal_text(b.count as nat),
        b.mean_predicted@,
        b.observed_rate@,
    ]
}

/// The rows of the first `n` ways of scoring.
pub open spec fn scorer_rows(scorers: Seq<ScorerLine>, n: nat) -> Seq<char>
    decreases n,
{
    if n == 0 {
        Seq::empty()
    } else {
        scorer_rows(scorers, (n - 1) as nat) + table_row(scorer_cells(scorers[n - 1]))
    }
}

/// The rows of the first `n` routes.
pub open spec fn route_rows(routes: Seq<RouteLine>, n: nat) -> Seq<char>
    decreases n,
{
    if n == 0 {
        Seq::empty()
    } else {
        route_rows(routes, (n - 1) as nat) + table_row(route_cells(routes[n - 1]))
    }
}

/// The rows of the first `n` bins, without those that nothing falls into.
pub open spec fn bin_rows(bins: Seq<BinLine>, n: nat) -> Seq<char>
    decreases n,
{
    if n == 0 {
        Seq::empty()
    } else if bins[n - 1].count > 0 {
        bin_rows(bins, (n - 1) as nat) + table_row(bin_cells(bins[n - 1]))
    } else {
        bin_rows(bins, (n - 1) as nat)
    }
}

/// What was read and judged.
pub open spec fn totals_text(r: Report) -> Seq<char> {
    "## "@ + r.dataset@ + " · "@ + (match r.model {
        Some(model) => model@,
        None => "unknown model"@,
    }) + "\n\n"@ + decimal_text(r.lines as nat) + " lines ("@ + decimal_text(r.positives as nat)
        + " alerts) → "@ + decimal_text(r.templates as nat) + " templates → "@ + decimal_text(
        r.judged_templates as nat,
    ) + " new judgements, "@ + decimal_text(r.cached_verdicts as nat) + " cached verdicts · "@
        + decimal_text(r.input_tokens as nat) + " input tokens · $"@ + r.usd@
        + " (judging every line: $"@ + r.per_line_usd@ + ")\n"@
}

/// How fast it was.
pub open spec fn speed_text(r: Report) -> Seq<char> {
    "templating "@ + r.templating_lines_per_sec@ + " lines/s · judge latency p50 "@ + decimal_text(
        r.latency_p50_ms as nat,
    ) + " ms, p95 "@ + decimal_text(r.latency_p95_ms as nat) + " ms · wall "@ + r.wall_secs@
        + "s · fallbacks "@ + decimal_text(r.fallbacks as nat) + "\n\n"@
}

/// What one decision for each template could reach.
pub open spec fn ceiling_text(r: Report) -> Seq<char> {
    "\n\\* threshold picked with the labels (best case for that scorer)\n\nbest F1 reachable with one decision per template: "@
        + r.template_ceiling_f1@ + "\n\n"@
}

/// How far predictions are off.
pub open spec fn calibration_text(r: Report) -> Seq<char> {
    "\ncalibration · line-weighted Brier "@ + r.line_brier@ + ", ECE "@ + r.line_ece@
        + " · per-template Brier "@ + r.template_brier@ + ", ECE "@ + r.template_ece@ + "\n\n"@
}

/// The head of the table of ways of scoring.
pub const SCORER_HEAD: &'static str =
    "| scorer | threshold | precision | recall | F1 | templates flagged | PR-AUC | ROC-AUC |\n|---|---:|---:|---:|---:|---:|---:|---:|\n";

/// The head of the table of routes.
pub const ROUTE_HEAD: &'static str =
    "| route | lines | templates | alert precision |\n|---|---:|---:|---:|\n";

/// The head of the table of bins.
pub const BIN_HEAD: &'static str =
    "| predicted | templates | mean predicted | observed alert rate |\n|---|---:|---:|---:|\n";

/// The report in Markdown.
pub open spec fn markdown_text(r: Report) -> Seq<char> {
    totals_text(r) + speed_text(r) + SCORER_HEAD@ + scorer_rows(r.scorers@, r.scorers@.len())
        + ceiling_text(r) + ROUTE_HEAD@ + route_rows(r.routes@, r.routes@.len())
        + calibration_text(r) + BIN_HEAD@ + bin_rows(r.bins@, r.bins@.len())
}

impl Report {
    /// What was read and judged.
    fn totals(&self) -> (text: String)
        ensures
            text@ == totals_text(*self),
    {
        let mut s = String::new();
        s.append("## ");
        s.append(self.dataset.as_str());
        s.append(" · ");
        s.append(
            match &self.model {
                Some(model) => model.as_str(),
                None => "unknown model",
            },
        );
        s.append("\n\n");
        s.append(decimal(self.lines).as_str());
        s.append(" lines (");
        s.append(decimal(self.positives).as_str());
        s.append(" alerts) → ");
        s.append(decimal(self.templates).as_str());
        s.append(" templates → ");
        s.append(decimal(self.judged_templates).as_str());
        s.append(" new judgements, ");
        s.append(decimal(self.cached_verdicts).as_str());
        s.append(" cached verdicts · ");
        s.append(decimal(self.input_tokens).as_str());
        s.append(" input tokens · $");
        s.append(self.usd.as_str());
        s.append(" (judging every line: $");
        s.append(self.per_line_usd.as_str());
        s.append(")\n");
        s
    }

    /// How fast it was.
    fn speed(&self) -> (text: String)
        ensures
            text@ == speed_text(*self),
    {
        let mut s = String::new();
        s.append("templating ");
        s.append(self.templating_lines_per_sec.as_str());
        s.append(" lines/s · judge latency p50 ");
        s.append(decimal(self.latency_p50_ms as u64).as_str());
        s.append(" ms, p95 ");
        s.append(decimal(self.latency_p95_ms as u64).as_str());
        s.append(" ms · wall ");
        s.append(self.wall_secs.as_str());
        s.append("s · fallbacks ");
        s.append(decimal(self.fallbacks).as_str());
        s.append("\n\n");
        s
    }

    /// The rows of all ways of scoring.
    fn scorer_table(&self) -> (text: String)
        ensures
            text@ == scorer_rows(self.scorers@, self.scorers@.len()),
    {
        let mut text = String::new();
        let mut i: usize = 0;
        while i < self.scorers.len()
            invariant
                i <= self.scorers@.len(),
                text@ == scorer_rows(self.scorers@, i as nat),
            decreases self.scorers@.len() - i,
        {
            let s = &self.scorers[i];
            let mut threshold = s.threshold.clone();
            if s.threshold_is_oracle {
                threshold.append("*");
            }
            let mut cells: Vec<String> = Vec::new();
            cells.push(s.name.clone());
            cells.push(threshold);
            cells.push(s.precision.clone());
            cells.push(s.recall.clone());
            cells.push(s.f1.clone());
            cells.push(decimal(s.flagged_templates));
            cells.push(s.average_precision.clone());
            cells.push(s.roc_auc.clone());
            assert(views(cells@) == scorer_cells(*s));
            text.append(row(&cells).as_str());
            i += 1;
        }
        text
    }

    /// The rows of all routes.
    fn route_table(&self) -> (text: String)
        ensures
            text@ == route_rows(self.routes@, self.routes@.len()),
    {
        let mut text = String::new();
        let mut i: usize = 0;
        while i < self.routes.len()
            invariant
                i <= self.routes@.len(),
                text@ == route_rows(self.routes@, i as nat),
            decreases self.routes@.len() - i,
        {
            let r = &self.routes[i];
            let title = match r.route {
                Route::Page => "Page",
                Route::Ticket => "Ticket",
                Route::Log => "Log",
            };
            let mut cells: Vec<String> = Vec::new();
            cells.push(title.to_string());
            cells.push(decimal(r.lines));
            cells.push(decimal(r.templates));
            cells.push(r.precision.clone());
            assert(views(cells@) == route_cells(*r));
            text.append(row(&cells).as_str());
            i += 1;
        }
        text
    }

    /// The rows of all bins that something falls into.
    fn bin_table(&self) -> (text: String)
        ensures
            text@ == bin_rows(self.bins@, self.bins@.len()),
    {
        let mut text = String::new();
        let mut i: usize = 0;
        while i < self.bins.len()
            invariant
                i <= self.bins@.len(),
                text@ == bin_rows(self.bins@, i as nat),
            decreases self.bins@.len() - i,
        {
            let b = &self.bins[i];
            if b.count > 0 {
                let mut range = b.lo.clone();
                range.append("–");
                range.append(b.hi.as_str());
                let mut cells: Vec<String> = Vec::new();
                cells.push(range);
                cells.push(decimal(b.count));
                cells.push(b.mean_predicted.clone());
                cells.push(b.observed_rate.clone());
                assert(views(cells@) == bin_cells(*b));
                text.append(row(&cells).as_str());
            }
            i += 1;
        }
        text
    }

    /// The report in Markdown.
    pub fn markdown(&self) -> (text: String)
        ensures
            text@ == markdown_text(*self),
    {
        let mut ceiling = String::new();
        ceiling.append(
            "\n\\* threshold picked with the labels (best case for that scorer)\n\nbest F1 reachable with one decision per template: ",
        );
        ceiling.append(self.template_ceiling_f1.as_str());
        ceiling.append("\n\n");
        let mut calibration = String::new();
        calibration.append("\ncalibration · line-weighted Brier ");
        calibration.append(self.line_brier.as_str());
        calibration.append(", ECE ");
        calibration.append(self.line_ece.as_str());
        calibration.append(" · per-template Brier ");
        calibration.append(self.template_brier.as_str());
        calibration.append(", ECE ");
        calibration.append(self.template_ece.as_str());
        calibration.append("\n\n");
        let mut text = self.totals();
        text.append(self.speed().as_str());
        text.append(SCORER_HEAD);
        text.append(self.scorer_table().as_str());
        text.append(ceiling.as_str());
        text.append(ROUTE_HEAD);
        text.append(self.route_table().as_str());
        text.append(calibration.as_str());
        text.append(BIN_HEAD);
        text.append(self.bin_table().as_str());
        text
    }
}

/// A labeled line is a label, a tab and a text, whatever line ends follow: one
/// is an alert, zero is none, and any other label is refused with its line's
/// number. A line without a tab is refused as it is.
pub proof fn law_labeled_lines_have_a_label_and_a_tab(
    label: Seq<char>,
    text: Seq<char>,
    ends: Seq<char>,
    line: Seq<char>,
    number: u64,
)
    requires
        !label.contains('\t'),
        text.len() > 0 ==> text.last() != '\r' && text.last() != '\n',
        forall|i: int| 0 <= i < ends.len() ==> #[trigger] ends[i] == '\r' || ends[i] == '\n',
        !line.contains('\t'),
    ensures
        label == "1"@ ==> labeled_line(label.push('\t') + text + ends, number) == Ok::<
            (bool, Seq<char>),
            BadLineView,
        >((true, text)),
        label == "0"@ ==> labeled_line(label.push('\t') + text + ends, number) == Ok::<
            (bool, Seq<char>),
            BadLineView,
        >((false, text)),
        label != "1"@ && label != "0"@ ==> labeled_line(label.push('\t') + text + ends, number)
            == Err::<(bool, Seq<char>), BadLineView>(BadLineView::Label { number, label }),
        labeled_line(line, number) == Err::<(bool, Seq<char>), BadLineView>(
            BadLineView::NoTab { line: stripped_end(line, Class::Space) },
        ),
{
    reveal_strlit("1");
    reveal_strlit("0");
    assert("1"@[0] != "0"@[0]);
    let body = label.push('\t') + text;
    lemma_strip_end_added(body, ends, Class::LineEnd);
    assert(body.last() == (if text.len() > 0 {
        text.last()
    } else {
        '\t'
    }));
    let n = label.len() as int;
    law_splits_are_at_the_first(body, '\t');
    assert(body[n] == '\t');
    assert(body.contains('\t'));
    lemma_first_index(body, '\t');
    let at = first_index(body, '\t');
    assert(at == n) by {
        if at < n {
            assert(label[at] == body[at]);
            assert(label.contains(label[at]));
        }
    }
    assert(body.take(n) == label);
    assert(body.skip(n + 1) == text);
    let bare = stripped_end(line, Class::LineEnd);
    let taken = law_stripping_the_end_stops_at_others(line, Class::LineEnd);
    law_splits_are_at_the_first(bare, '\t');
    assert(!bare.contains('\t')) by {
        if bare.contains('\t') {
            let i = choose|i: int| 0 <= i < bare.len() && bare[i] == '\t';
            assert(line[i] == '\t');
        }
    }
}

/// A refused line is told of with what is wrong.
pub proof fn law_refusals_say_what_is_wrong(bad: BadLineView)
    ensures
        bad matches BadLineView::NoTab { line } ==> refusal(bad)
            == "expected `<0|1>\\t<log line>`, got: "@ + line,
        bad matches BadLineView::Label { number, label } ==> refusal(bad) == "line "@
            + decimal_text(number as nat) + ": label must be 0 or 1, got "@ + quoted_text(label),
{
}

/// Lines, texts and labels are scored as far as they go together, and a scored
/// line holds its label, what its triage says and how pageable its words are.
pub proof fn law_scored_lines_hold_triage_label_and_words(
    row: Labeled,
    t: Triaged,
    text: Seq<char>,
    label: bool,
    a: nat,
    b: nat,
    c: nat,
)
    requires
        is_scored(row, t, text, label),
    ensures
        row.label == label,
        row.cluster == t.cluster,
        row.route == t.route,
        row.template@ == t.template@,
        row.attention == t.verdict.attention,
        row.pageable == t.verdict.pageable,
        row.keywords == keyword_level(text).0,
        scored_count(a, b, c) <= a && scored_count(a, b, c) <= b && scored_count(a, b, c) <= c,
        scored_count(a, b, c) == a || scored_count(a, b, c) == b || scored_count(a, b, c) == c,
{
}

proof fn lemma_last_template(rows: Seq<Labeled>, cluster: usize, n: nat, i: int)
    ensures
        0 <= i < n && rows[i].cluster == cluster && (forall|j: int|
            i < j < n ==> (#[trigger] rows[j]).cluster != cluster) ==> last_template(
            rows,
            cluster,
            n,
        ) == Some(rows[i].template@),
    decreases n,
{
    if 0 <= i && i + 1 < n {
        lemma_last_template(rows, cluster, (n - 1) as nat, i);
        if forall|j: int| i < j < n ==> (#[trigger] rows[j]).cluster != cluster {
            assert(rows[n - 1].cluster != cluster);
        }
    }
}

/// A group counts all lines and all alerts of its cluster, and shows the
/// template that the cluster had last.
pub proof fn law_groups_sum_up_their_cluster(group: TemplateRow, rows: Seq<Labeled>, i: int)
    requires
        sums_up(group, rows, rows.len() as int),
    ensures
        group.lines == Set::new(|k: int| 0 <= k < rows.len() && rows[k].cluster == group.cluster).len(),
        group.alerts == Set::new(
            |k: int| 0 <= k < rows.len() && rows[k].cluster == group.cluster && rows[k].label,
        ).len(),
        0 <= i < rows.len() && rows[i].cluster == group.cluster && (forall|j: int|
            i < j < rows.len() ==> (#[trigger] rows[j]).cluster != group.cluster)
            ==> group.template@ == rows[i].template@,
{
    lemma_last_template(rows, group.cluster, rows.len(), i);
    assert(in_cluster(rows, group.cluster, rows.len() as int) == Set::new(
        |k: int| 0 <= k < rows.len() && rows[k].cluster == group.cluster,
    ));
    assert(alerts_in(rows, group.cluster, rows.len() as int) == Set::new(
        |k: int| 0 <= k < rows.len() && rows[k].cluster == group.cluster && rows[k].label,
    ));
}

/// A cluster is flagged exactly if the score of one of its rows reaches the
/// threshold.
pub proof fn law_flagged_clusters_have_a_flagged_row(
    rows: Seq<Labeled>,
    scores: Seq<Score>,
    threshold: Score,
    n: nat,
    cluster: usize,
)
    ensures
        flagged_clusters(rows, scores, threshold, n).contains(cluster) <==> exists|k: int|
            0 <= k < n && (#[trigger] rows[k]).cluster == cluster && scores[k].reaches(threshold),
        with_score(rows, scores) <= rows.len() && with_score(rows, scores) <= scores.len(),
        with_score(rows, scores) == rows.len() || with_score(rows, scores) == scores.len(),
    decreases n,
{
    if n > 0 {
        law_flagged_clusters_have_a_flagged_row(rows, scores, threshold, (n - 1) as nat, cluster);
        if scores[n - 1].reaches(threshold) && rows[n - 1].cluster == cluster {
            assert(rows[n - 1].cluster == cluster);
        }
    }
}

/// A way of scoring is measured on all rows: at the threshold that was given, or
/// else at that of the best cut, each row is counted by its label and by whether
/// its score reaches the threshold.
pub proof fn law_scorers_count_all_rows(
    scorer: Scorer,
    rows: Seq<Labeled>,
    scores: Seq<Score>,
    threshold: Option<Score>,
)
    requires
        is_scorer(scorer, rows, scores, threshold),
        scores.len() == rows.len(),
    ensures
        threshold matches Some(t) ==> scorer.threshold == t && !scorer.threshold_is_oracle,
        threshold is None ==> scorer.threshold_is_oracle,
        threshold is None ==> (match scorer.ranking.best {
            Some(b) => scorer.threshold == scorer.ranking.cuts@[b as int].threshold,
            None => scorer.threshold.bits == 0x7f80_0000,
        }),
        scorer.at_threshold.tp == Set::new(
            |k: int| 0 <= k < rows.len() && rows[k].label && scores[k].reaches(scorer.threshold),
        ).len(),
        scorer.at_threshold.fp == Set::new(
            |k: int| 0 <= k < rows.len() && !rows[k].label && scores[k].reaches(scorer.threshold),
        ).len(),
        scorer.at_threshold.fn_ == Set::new(
            |k: int| 0 <= k < rows.len() && rows[k].label && !scores[k].reaches(scorer.threshold),
        ).len(),
        scorer.at_threshold.tn == Set::new(
            |k: int| 0 <= k < rows.len() && !rows[k].label && !scores[k].reaches(scorer.threshold),
        ).len(),
        scorer.flagged_templates == flagged_clusters(
            rows,
            scores,
            scorer.threshold,
            rows.len(),
        ).len(),
        is_ranking(scorer.ranking, scores, rows.map_values(|row: Labeled| row.label)),
{
    let labels = rows.map_values(|row: Labeled| row.label);
    let t = scorer.threshold;
    let n = rows.len() as int;
    assert(cell(scores, labels, t, true, true, n) == Set::new(
        |k: int| 0 <= k < rows.len() && rows[k].label && scores[k].reaches(scorer.threshold),
    ));
    assert(cell(scores, labels, t, true, false, n) == Set::new(
        |k: int| 0 <= k < rows.len() && !rows[k].label && scores[k].reaches(scorer.threshold),
    ));
    assert(cell(scores, labels, t, false, true, n) == Set::new(
        |k: int| 0 <= k < rows.len() && rows[k].label && !scores[k].reaches(scorer.threshold),
    ));
    assert(cell(scores, labels, t, false, false, n) == Set::new(
        |k: int| 0 <= k < rows.len() && !rows[k].label && !scores[k].reaches(scorer.threshold),
    ));
}

proof fn lemma_lines_on(rows: Seq<Labeled>, route: Route, n: nat)
    ensures
        Set::new(|k: int| 0 <= k < n && rows[k].route == route).finite(),
        Set::new(|k: int| 0 <= k < n && rows[k].route == route && rows[k].label).finite(),
        lines_on(rows, route, n) == Set::new(|k: int| 0 <= k < n && rows[k].route == route).len(),
        hits_on(rows, route, n) == Set::new(
            |k: int| 0 <= k < n && rows[k].route == route && rows[k].label,
        ).len(),
    decreases n,
{
    let a = Set::new(|k: int| 0 <= k < n && rows[k].route == route);
    let b = Set::new(|k: int| 0 <= k < n && rows[k].route == route && rows[k].label);
    if n == 0 {
        assert(a == Set::<int>::empty());
        assert(b == Set::<int>::empty());
    } else {
        let m = (n - 1) as nat;
        lemma_lines_on(rows, route, m);
        let x = Set::new(|k: int| 0 <= k < m && rows[k].route == route);
        let y = Set::new(|k: int| 0 <= k < m && rows[k].route == route && rows[k].label);
        if rows[n - 1].route == route {
            assert(a == x.insert(n - 1));
        } else {
            assert(a == x);
        }
        if rows[n - 1].route == route && rows[n - 1].label {
            assert(b == y.insert(n - 1));
        } else {
            assert(b == y);
        }
    }
}

/// The lines, the alerts and the clusters of a route are those of all rows that
/// go to it.
pub proof fn law_routes_count_all_their_rows(
    rows: Seq<Labeled>,
    route: Route,
    n: nat,
    cluster: usize,
)
    ensures
        lines_on(rows, route, n) == Set::new(|k: int| 0 <= k < n && rows[k].route == route).len(),
        hits_on(rows, route, n) == Set::new(
            |k: int| 0 <= k < n && rows[k].route == route && rows[k].label,
        ).len(),
        clusters_on(rows, route, n).contains(cluster) <==> exists|k: int|
            0 <= k < n && (#[trigger] rows[k]).cluster == cluster && rows[k].route == route,
    decreases n,
{
    lemma_lines_on(rows, route, n);
    if n > 0 {
        law_routes_count_all_their_rows(rows, route, (n - 1) as nat, cluster);
        if rows[n - 1].route == route && rows[n - 1].cluster == cluster {
            assert(rows[n - 1].cluster == cluster);
        }
    }
}

/// Routes are counted from the most urgent to the least, each over all rows.
pub proof fn law_all_routes_are_counted(counts: Seq<RouteCount>, rows: Seq<Labeled>, k: int)
    requires
        are_route_counts(counts, rows),
        0 <= k < 3,
    ensures
        counts.len() == 3,
        counts[k].route.urgency() == 2 - k,
        counts[k].lines == lines_on(rows, counts[k].route, rows.len()),
        counts[k].hits == hits_on(rows, counts[k].route, rows.len()),
        counts[k].templates == clusters_on(rows, counts[k].route, rows.len()).len(),
{
    assert(k == 0 || k == 1 || k == 2);
}

/// A percentile is a sample: the share of the others that it has, rounded to the
/// nearest sample, is no less than are below it, and less than are not above it.
pub proof fn law_percentiles_have_their_share_below(samples: Seq<u32>, percent: nat, value: u32)
    requires
        is_percentile(samples, percent, value),
        percent <= 100,
    ensures
        samples.len() == 0 ==> value == 0,
        samples.len() > 0 ==> samples.contains(value),
        samples.len() > 0 ==> {
            let under = Set::new(|i: int| 0 <= i < samples.len() && samples[i] < value).len();
            let upto = Set::new(|i: int| 0 <= i < samples.len() && samples[i] <= value).len();
            &&& 100 * under <= (samples.len() - 1) * percent + 50
            &&& 100 * upto > (samples.len() - 1) * percent + 50
        },
{
    if samples.len() > 0 {
        assert(below(samples, value) == Set::new(
            |i: int| 0 <= i < samples.len() && samples[i] < value,
        ));
        assert(at_most(samples, value) == Set::new(
            |i: int| 0 <= i < samples.len() && samples[i] <= value,
        ));
        let n = samples.len() as int;
        let q = percent as int;
        assert((n - 1) * q >= 0) by (nonlinear_arith)
            requires
                n >= 1,
                q >= 0,
        ;
    }
}

/// Each row is scored by its own attention, by how pageable it is, by its words
/// and by how many lines its cluster has.
pub proof fn law_columns_hold_each_row(rows: Seq<Labeled>, rarity: Map<u64, Score>, i: int)
    requires
        0 <= i < rows.len(),
    ensures
        attentions(rows).len() == rows.len() && attentions(rows)[i] == rows[i].attention,
        pageables(rows).len() == rows.len() && pageables(rows)[i] == rows[i].pageable,
        keyword_scores(rows).len() == rows.len() && keyword_scores(rows)[i] == rows[i].keywords,
        rarities(rows, rarity).len() == rows.len(),
        rarities(rows, rarity)[i] == rarity[Set::new(
            |k: int| 0 <= k < rows.len() && rows[k].cluster == rows[i].cluster,
        ).len() as u64],
{
    assert(in_cluster(rows, rows[i].cluster, rows.len() as int) == Set::new(
        |k: int| 0 <= k < rows.len() && rows[k].cluster == rows[i].cluster,
    ));
}

/// No choice of clusters has a better F1 than the ceiling, by the alerts and the
/// noise among all rows of the clusters that are chosen, and some choice
/// reaches it.
pub proof fn law_no_choice_beats_the_ceiling(
    ceiling: Ceiling,
    rows: Seq<Labeled>,
    chosen: Set<usize>,
) -> (best: Set<usize>)
    requires
        is_ceiling(ceiling, rows),
    ensures
        ({
            let tp = Set::new(
                |k: int| 0 <= k < rows.len() && rows[k].label && chosen.contains(rows[k].cluster),
            ).len();
            let fp = Set::new(
                |k: int| 0 <= k < rows.len() && !rows[k].label && chosen.contains(rows[k].cluster),
            ).len();
            2 * tp * (ceiling.tp + ceiling.fp + ceiling.positives) <= 2 * ceiling.tp * (tp + fp
                + ceiling.positives)
        }),
        ceiling.positives == Set::new(|k: int| 0 <= k < rows.len() && rows[k].label).len(),
        ceiling.tp == Set::new(
            |k: int| 0 <= k < rows.len() && rows[k].label && best.contains(rows[k].cluster),
        ).len(),
        ceiling.fp == Set::new(
            |k: int| 0 <= k < rows.len() && !rows[k].label && best.contains(rows[k].cluster),
        ).len(),
{
    assert(!beats(rows, chosen, ceiling));
    let best = choose|best: Set<usize>| #[trigger] catches(rows, best, ceiling);
    assert(caught(rows, Set::full(), true) == Set::new(
        |k: int| 0 <= k < rows.len() && rows[k].label,
    ));
    assert(caught(rows, chosen, true) == Set::new(
        |k: int| 0 <= k < rows.len() && rows[k].label && chosen.contains(rows[k].cluster),
    ));
    assert(caught(rows, chosen, false) == Set::new(
        |k: int| 0 <= k < rows.len() && !rows[k].label && chosen.contains(rows[k].cluster),
    ));
    assert(caught(rows, best, true) == Set::new(
        |k: int| 0 <= k < rows.len() && rows[k].label && best.contains(rows[k].cluster),
    ));
    assert(caught(rows, best, false) == Set::new(
        |k: int| 0 <= k < rows.len() && !rows[k].label && best.contains(rows[k].cluster),
    ));
    best
}

/// One more cell comes after a bar.
proof fn lemma_table_row(cells: Seq<Seq<char>>, last: Seq<char>)
    requires
        cells.len() > 0,
    ensures
        joined(cells.push(last), " | "@) == joined(cells, " | "@) + " | "@ + last,
{
    assert(cells.push(last).drop_last() == cells);
}

/// The report has a row for each way of scoring, however many there are, with
/// its cells in the order of the head; a threshold that was picked with the
/// labels is marked.
pub proof fn law_each_scorer_has_a_row(scorers: Seq<ScorerLine>, n: nat)
    ensures
        scorer_rows(scorers, 0) == Seq::<char>::empty(),
        ({
            let s = scorers[n as int];
            let mark = if s.threshold_is_oracle {
                "*"@
            } else {
                Seq::empty()
            };
            scorer_rows(scorers, n + 1) == scorer_rows(scorers, n) + ("| "@ + (s.name@ + " | "@
                + (s.threshold@ + mark) + " | "@ + s.precision@ + " | "@ + s.recall@ + " | "@
                + s.f1@ + " | "@ + decimal_text(s.flagged_templates as nat) + " | "@
                + s.average_precision@ + " | "@ + s.roc_auc@) + " |\n"@)
        }),
{
    let s = scorers[n as int];
    let c = scorer_cells(s);
    assert(s.threshold@ + Seq::<char>::empty() == s.threshold@);
    reveal_with_fuel(joined, 2);
    lemma_table_row(seq![c[0]], c[1]);
    assert(seq![c[0]].push(c[1]) == seq![c[0], c[1]]);
    lemma_table_row(seq![c[0], c[1]], c[2]);
    assert(seq![c[0], c[1]].push(c[2]) == seq![c[0], c[1], c[2]]);
    lemma_table_row(seq![c[0], c[1], c[2]], c[3]);
    assert(seq![c[0], c[1], c[2]].push(c[3]) == seq![c[0], c[1], c[2], c[3]]);
    lemma_table_row(seq![c[0], c[1], c[2], c[3]], c[4]);
    assert(seq![c[0], c[1], c[2], c[3]].push(c[4]) == seq![c[0], c[1], c[2], c[3], c[4]]);
    lemma_table_row(seq![c[0], c[1], c[2], c[3], c[4]], c[5]);
    assert(seq![c[0], c[1], c[2], c[3], c[4]].push(c[5]) == seq![
        c[0],
        c[1],
        c[2],
        c[3],
        c[4],
        c[5],
    ]);
    lemma_table_row(seq![c[0], c[1], c[2], c[3], c[4], c[5]], c[6]);
    assert(seq![c[0], c[1], c[2], c[3], c[4], c[5]].push(c[6]) == seq![
        c[0],
        c[1],
        c[2],
        c[3],
        c[4],
        c[5],
        c[6],
    ]);
    lemma_table_row(seq![c[0], c[1], c[2], c[3], c[4], c[5], c[6]], c[7]);
    assert(seq![c[0], c[1], c[2], c[3], c[4], c[5], c[6]].push(c[7]) == c);
}

/// The report has a row for each route, and for each bin that something falls
/// into, however many there are, with their cells in the order of the heads.
pub proof fn law_each_route_and_bin_has_a_row(
    routes: Seq<RouteLine>,
    bins: Seq<BinLine>,
    n: nat,
)
    ensures
        route_rows(routes, 0) == Seq::<char>::empty(),
        ({
            let r = routes[n as int];
            let title = match r.route {
                Route::Page => "Page"@,
                Route::Ticket => "Ticket"@,
                Route::Log => "Log"@,
            };
            route_rows(routes, n + 1) == route_rows(routes, n) + ("| "@ + (title + " | "@
                + decimal_text(r.lines as nat) + " | "@ + decimal_text(r.templates as nat) + " | "@
                + r.precision@) + " |\n"@)
        }),
        bin_rows(bins, 0) == Seq::<char>::empty(),
        bins[n as int].count == 0 ==> bin_rows(bins, n + 1) == bin_rows(bins, n),
        ({
            let b = bins[n as int];
            b.count > 0 ==> bin_rows(bins, n + 1) == bin_rows(bins, n) + ("| "@ + (b.lo@ + "–"@
                + b.hi@ + " | "@ + decimal_text(b.count as nat) + " | "@ + b.mean_predicted@
                + " | "@ + b.observed_rate@) + " |\n"@)
        }),
{
    reveal_with_fuel(joined, 2);
    let c = route_cells(routes[n as int]);
    lemma_table_row(seq![c[0]], c[1]);
    assert(seq![c[0]].push(c[1]) == seq![c[0], c[1]]);
    lemma_table_row(seq![c[0], c[1]], c[2]);
    assert(seq![c[0], c[1]].push(c[2]) == seq![c[0], c[1], c[2]]);
    lemma_table_row(seq![c[0], c[1], c[2]], c[3]);
    assert(seq![c[0], c[1], c[2]].push(c[3]) == c);
    let d = bin_cells(bins[n as int]);
    lemma_table_row(seq![d[0]], d[1]);
    assert(seq![d[0]].push(d[1]) == seq![d[0], d[1]]);
    lemma_table_row(seq![d[0], d[1]], d[2]);
    assert(seq![d[0], d[1]].push(d[2]) == seq![d[0], d[1], d[2]]);
    lemma_table_row(seq![d[0], d[1], d[2]], d[3]);
    assert(seq![d[0], d[1], d[2]].push(d[3]) == d);
}

/// The report says what was read and judged and how fast, then has the tables of
/// all ways of scoring, of all routes and of all bins, with the ceiling and the
/// calibration between them.
pub proof fn law_reports_hold_all_tables(r: Report)
    ensures
        markdown_text(r) == totals_text(r) + speed_text(r)
            + "| scorer | threshold | precision | recall | F1 | templates flagged | PR-AUC | ROC-AUC |\n|---|---:|---:|---:|---:|---:|---:|---:|\n"@
            + scorer_rows(r.scorers@, r.scorers@.len()) + ceiling_text(r)
            + "| route | lines | templates | alert precision |\n|---|---:|---:|---:|\n"@ + route_rows(
            r.routes@,
            r.routes@.len(),
        ) + calibration_text(r)
            + "| predicted | templates | mean predicted | observed alert rate |\n|---|---:|---:|---:|\n"@
            + bin_rows(r.bins@, r.bins@.len()),
        ceiling_text(r)
            == "\n\\* threshold picked with the labels (best case for that scorer)\n\nbest F1 reachable with one decision per template: "@
            + r.template_ceiling_f1@ + "\n\n"@,
        speed_text(r) == "templating "@ + r.templating_lines_per_sec@
            + " lines/s · judge latency p50 "@ + decimal_text(r.latency_p50_ms as nat)
            + " ms, p95 "@ + decimal_text(r.latency_p95_ms as nat) + " ms · wall "@ + r.wall_secs@
            + "s · fallbacks "@ + decimal_text(r.fallbacks as nat) + "\n\n"@,
        calibration_text(r) == "\ncalibration · line-weighted Brier "@ + r.line_brier@ + ", ECE "@
            + r.line_ece@ + " · per-template Brier "@ + r.template_brier@ + ", ECE "@
            + r.template_ece@ + "\n\n"@,
{
}

/// The head of a report says the file and the model, and how many lines, alerts,
/// templates, judgements, cached verdicts and tokens there were, and the prices.
pub proof fn law_totals_say_what_was_read(r: Report)
    ensures
        ({
            let model = match r.model {
                Some(model) => model@,
                None => "unknown model"@,
            };
            totals_text(r) == "## "@ + r.dataset@ + " · "@ + model + "\n\n"@ + decimal_text(
                r.lines as nat,
            ) + " lines ("@ + decimal_text(r.positives as nat) + " alerts) → "@ + decimal_text(
                r.templates as nat,
            ) + " templates → "@ + decimal_text(r.judged_templates as nat) + " new judgements, "@
                + decimal_text(r.cached_verdicts as nat) + " cached verdicts · "@ + decimal_text(
                r.input_tokens as nat,
            ) + " input tokens · $"@ + r.usd@ + " (judging every line: $"@ + r.per_line_usd@
                + ")\n"@
        }),
{
}

/// A refused line shows why, and a parsed line what it holds.
pub proof fn law_parsed_lines_show_what_they_hold(
    bad: BadLine,
    parsed: Result<(bool, String), BadLine>,
)
    ensures
        bad matches BadLine::NoTab { line } ==> bad@ == (BadLineView::NoTab { line: line@ }),
        bad matches BadLine::Label { number, label } ==> bad@ == (BadLineView::Label {
            number,
            label: label@,
        }),
        parsed matches Ok((label, text)) ==> parsed_view(parsed) == Ok::<
            (bool, Seq<char>),
            BadLineView,
        >((label, text@)),
        parsed matches Err(why) ==> parsed_view(parsed) == Err::<(bool, Seq<char>), BadLineView>(
            why@,
        ),
{
}

/// A cluster has a group exactly if one of the groups is of it, and a table of
/// rarities is complete exactly if it has the size of each row's cluster.
pub proof fn law_groups_are_found_by_their_cluster(
    groups: Seq<TemplateRow>,
    cluster: usize,
    rarity: Map<u64, Score>,
    rows: Seq<Labeled>,
)
    ensures
        has_group(groups, cluster) <==> exists|g: int|
            0 <= g < groups.len() && (#[trigger] groups[g]).cluster == cluster,
        rates_all(rarity, rows) <==> forall|k: int|
            0 <= k < rows.len() ==> rarity.contains_key(
                in_cluster(rows, (#[trigger] rows[k]).cluster, rows.len() as int).len() as u64,
            ),
{
}

/// Lines are triaged fifty thousand at a time, and words count as an alert from
/// one half on.
pub proof fn law_evaluation_has_these_limits()
    ensures
        BATCH == 50_000,
        KEYWORD_THRESHOLD == 0x3f00_0000,
{
}

} // verus!
