//! How well scores tell alerts from noise.
use vstd::prelude::*;

use crate::order::{descending_order, law_order_lists_each_index_once, Score};

verus! {

/// A fraction; one with a zero denominator counts as zero.
#[derive(Debug, Clone, Copy, PartialEq, Eq, Structural)]
pub struct Fraction {
    pub numerator: u128,
    pub denominator: u128,
}

/// How often a threshold was right and wrong about alerts and noise.
#[derive(Debug, Clone, Copy, PartialEq, Eq, Structural)]
pub struct Confusion {
    pub tp: u64,
    pub fp: u64,
    pub fn_: u64,
    pub tn: u64,
}

impl Default for Confusion {
    fn default() -> (counts: Confusion)
        ensures
            counts == (Confusion { tp: 0, fp: 0, fn_: 0, tn: 0 }),
    {
        Confusion { tp: 0, fp: 0, fn_: 0, tn: 0 }
    }
}

impl Confusion {
    /// The share of the flagged that are alerts.
    pub fn precision(&self) -> (share: Fraction)
        ensures
            share.numerator == self.tp,
            share.denominator == self.tp + self.fp,
    {
        Fraction { numerator: self.tp as u128, denominator: self.tp as u128 + self.fp as u128 }
    }

    /// The share of the alerts that are flagged.
    pub fn recall(&self) -> (share: Fraction)
        ensures
            share.numerator == self.tp,
            share.denominator == self.tp + self.fn_,
    {
        Fraction { numerator: self.tp as u128, denominator: self.tp as u128 + self.fn_ as u128 }
    }

    /// The harmonic mean of precision and recall.
    pub fn f1(&self) -> (share: Fraction)
        ensures
            share.numerator == 2 * self.tp,
            share.denominator == 2 * self.tp + self.fp + self.fn_,
    {
        Fraction {
            numerator: 2 * self.tp as u128,
            denominator: 2 * self.tp as u128 + self.fp as u128 + self.fn_ as u128,
        }
    }
}

/// The rows before row `n` that `threshold` flags, or not, and that have the
/// label `label`.
pub open spec fn cell(
    scores: Seq<Score>,
    labels: Seq<bool>,
    threshold: Score,
    flagged: bool,
    label: bool,
    n: int,
) -> Set<int> {
    Set::new(
        |k: int| 0 <= k < n && scores[k].reaches(threshold) == flagged && labels[k] == label,
    )
}

proof fn lemma_cell_step(
    scores: Seq<Score>,
    labels: Seq<bool>,
    threshold: Score,
    flagged: bool,
    label: bool,
    n: int,
)
    requires
        0 <= n,
        cell(scores, labels, threshold, flagged, label, n).finite(),
    ensures
        cell(scores, labels, threshold, flagged, label, n + 1).finite(),
        cell(scores, labels, threshold, flagged, label, n + 1).len() == cell(
            scores,
            labels,
            threshold,
            flagged,
            label,
            n,
        ).len() + (if scores[n].reaches(threshold) == flagged && labels[n] == label {
            1nat
        } else {
            0nat
        }),
{
    let before = cell(scores, labels, threshold, flagged, label, n);
    let after = cell(scores, labels, threshold, flagged, label, n + 1);
    if scores[n].reaches(threshold) == flagged && labels[n] == label {
        assert(after == before.insert(n));
    } else {
        assert(after == before);
    }
}

/// The number of rows that both `scores` and `labels` have.
pub open spec fn rows_of(scores: Seq<Score>, labels: Seq<bool>) -> int {
    if scores.len() <= labels.len() {
        scores.len() as int
    } else {
        labels.len() as int
    }
}

/// How `threshold` sorts the rows: a row is flagged if its score reaches it.
pub fn confusion(scores: &[Score], labels: &[bool], threshold: Score) -> (counts: Confusion)
    ensures
        counts.tp == cell(scores@, labels@, threshold, true, true, rows_of(scores@, labels@)).len(),
        counts.fp == cell(
            scores@,
            labels@,
            threshold,
            true,
            false,
            rows_of(scores@, labels@),
        ).len(),
        counts.fn_ == cell(
            scores@,
            labels@,
            threshold,
            false,
            true,
            rows_of(scores@, labels@),
        ).len(),
        counts.tn == cell(
            scores@,
            labels@,
            threshold,
            false,
            false,
            rows_of(scores@, labels@),
        ).len(),
        counts.tp + counts.fp + counts.fn_ + counts.tn == rows_of(scores@, labels@),
{
    let mut counts = Confusion::default();
    let mut i: usize = 0;
    proof {
        assert(cell(scores@, labels@, threshold, true, true, 0) == Set::<int>::empty());
        assert(cell(scores@, labels@, threshold, true, false, 0) == Set::<int>::empty());
        assert(cell(scores@, labels@, threshold, false, true, 0) == Set::<int>::empty());
        assert(cell(scores@, labels@, threshold, false, false, 0) == Set::<int>::empty());
    }
    while i < scores.len() && i < labels.len()
        invariant
            i <= scores@.len(),
            i <= labels@.len(),
            cell(scores@, labels@, threshold, true, true, i as int).finite(),
            cell(scores@, labels@, threshold, true, false, i as int).finite(),
            cell(scores@, labels@, threshold, false, true, i as int).finite(),
            cell(scores@, labels@, threshold, false, false, i as int).finite(),
            counts.tp == cell(scores@, labels@, threshold, true, true, i as int).len(),
            counts.fp == cell(scores@, labels@, threshold, true, false, i as int).len(),
            counts.fn_ == cell(scores@, labels@, threshold, false, true, i as int).len(),
            counts.tn == cell(scores@, labels@, threshold, false, false, i as int).len(),
            counts.tp + counts.fp + counts.fn_ + counts.tn == i,
        decreases scores@.len() - i,
    {
        proof {
            lemma_cell_step(scores@, labels@, threshold, true, true, i as int);
            lemma_cell_step(scores@, labels@, threshold, true, false, i as int);
            lemma_cell_step(scores@, labels@, threshold, false, true, i as int);
            lemma_cell_step(scores@, labels@, threshold, false, false, i as int);
        }
        if scores[i].at_least(threshold) {
            if labels[i] {
                counts.tp += 1;
            } else {
                counts.fp += 1;
            }
        } else {
            if labels[i] {
                counts.fn_ += 1;
            } else {
                counts.tn += 1;
            }
        }
        i += 1;
    }
    counts
}

/// A threshold and what it flags.
#[derive(Debug, Clone, Copy, PartialEq, Eq, Structural)]
pub struct Cut {
    pub threshold: Score,
    /// The alerts that the threshold flags.
    pub tp: u64,
    /// The noise that the threshold flags.
    pub fp: u64,
}

/// What every threshold among the scores flags, from the highest threshold to
/// the lowest.
#[derive(Debug)]
pub struct Ranking {
    pub positives: u64,
    pub negatives: u64,
    pub cuts: Vec<Cut>,
    /// The index of the cut with the best F1, if one flags an alert.
    pub best: Option<usize>,
}

/// The rows that have a score, whose score ranks at least `rank`, and that have
/// the label `label`.
pub open spec fn above(
    scores: Seq<Score>,
    labels: Seq<bool>,
    rank: int,
    label: bool,
) -> Set<int> {
    Set::new(|k: int| 0 <= k < scores.len() && scores[k].rank() >= rank && labels[k] == label)
}

/// The rows with the label `label`.
pub open spec fn labeled(labels: Seq<bool>, label: bool, n: int) -> Set<int> {
    Set::new(|k: int| 0 <= k < n && labels[k] == label)
}

/// The denominator of the F1 of `cut`, of which twice its true positives are
/// the numerator, where there are `positives` alerts in all.
pub open spec fn f1_denominator(cut: Cut, positives: u64) -> int {
    cut.tp + cut.fp + positives
}

/// Whether the F1 of `a` is below that of `b`.
pub open spec fn f1_below(a: Cut, b: Cut, positives: u64) -> bool {
    2 * a.tp * f1_denominator(b, positives) < 2 * b.tp * f1_denominator(a, positives)
}

/// Whether `cut` holds what its threshold flags. Of scores that rank the same
/// the threshold is the last in the total order.
pub open spec fn is_cut(cut: Cut, scores: Seq<Score>, labels: Seq<bool>) -> bool {
    &&& scores.contains(cut.threshold)
    &&& forall|k: int|
        0 <= k < scores.len() && (#[trigger] scores[k]).rank() == cut.threshold.rank()
            ==> scores[k].total_rank() <= cut.threshold.total_rank()
    &&& cut.tp == above(scores, labels, cut.threshold.rank(), true).len()
    &&& cut.fp == above(scores, labels, cut.threshold.rank(), false).len()
}

/// Whether one of `cuts` has a threshold of the rank `rank`.
pub open spec fn has_cut(cuts: Seq<Cut>, rank: int) -> bool {
    exists|i: int| 0 <= i < cuts.len() && (#[trigger] cuts[i]).threshold.rank() == rank
}

/// Whether `cuts` are the cuts at all ranks that scores have, from the highest
/// to the lowest.
pub open spec fn are_cuts(cuts: Seq<Cut>, scores: Seq<Score>, labels: Seq<bool>) -> bool {
    &&& forall|i: int| 0 <= i < cuts.len() ==> is_cut(#[trigger] cuts[i], scores, labels)
    &&& forall|i: int, j: int|
        0 <= i < j < cuts.len() ==> (#[trigger] cuts[i]).threshold.rank() > (
        #[trigger] cuts[j]).threshold.rank()
    &&& forall|k: int| 0 <= k < scores.len() ==> #[trigger] has_cut(cuts, scores[k].rank())
}

/// Whether `best` is the first of the first `n` cuts that no other exceeds in
/// F1, or none if none flags an alert.
pub open spec fn is_best(best: Option<usize>, cuts: Seq<Cut>, positives: u64, n: int) -> bool {
    match best {
        Some(b) => {
            &&& b < n
            &&& cuts[b as int].tp > 0
            &&& forall|i: int| 0 <= i < n ==> !f1_below(cuts[b as int], #[trigger] cuts[i], positives)
            &&& forall|i: int| 0 <= i < b ==> f1_below(#[trigger] cuts[i], cuts[b as int], positives)
        },
        None => forall|i: int| 0 <= i < n ==> (#[trigger] cuts[i]).tp == 0,
    }
}

/// Whether `ranking` holds what every threshold among `scores` flags.
pub open spec fn is_ranking(ranking: Ranking, scores: Seq<Score>, labels: Seq<bool>) -> bool {
    &&& ranking.positives == labeled(labels, true, labels.len() as int).len()
    &&& ranking.negatives == labels.len() - ranking.positives
    &&& are_cuts(ranking.cuts@, scores, labels)
    &&& is_best(ranking.best, ranking.cuts@, ranking.positives, ranking.cuts@.len() as int)
}

/// The rows that `order` lists before place `n` and that have the label
/// `label`.
spec fn listed(order: Seq<usize>, labels: Seq<bool>, label: bool, n: int) -> Set<int> {
    Set::new(|k: int| exists|j: int| 0 <= j < n && #[trigger] order[j] == k && labels[k] == label)
}

proof fn lemma_listed_step(order: Seq<usize>, labels: Seq<bool>, label: bool, n: int)
    requires
        0 <= n < order.len(),
        order.no_duplicates(),
        listed(order, labels, label, n).finite(),
    ensures
        listed(order, labels, label, n + 1).finite(),
        listed(order, labels, label, n + 1).len() == listed(order, labels, label, n).len() + (
        if labels[order[n] as int] == label {
            1nat
        } else {
            0nat
        }),
{
    let before = listed(order, labels, label, n);
    let after = listed(order, labels, label, n + 1);
    let k = order[n] as int;
    if labels[k] == label {
        assert(!before.contains(k));
        assert(after == before.insert(k)) by {
            assert forall|x: int| #[trigger] after.contains(x) <==> before.insert(k).contains(x) by {
                if after.contains(x) {
                    let j = choose|j: int|
                        0 <= j < n + 1 && #[trigger] order[j] == x && labels[x] == label;
                    if j < n {
                        assert(before.contains(x));
                    }
                }
                if before.contains(x) {
                    let j = choose|j: int|
                        0 <= j < n && #[trigger] order[j] == x && labels[x] == label;
                    assert(order[j] == x);
                }
                if x == k {
                    assert(order[n] == x);
                }
            }
        }
    } else {
        assert(after == before) by {
            assert forall|x: int| #[trigger] after.contains(x) <==> before.contains(x) by {
                if after.contains(x) {
                    let j = choose|j: int|
                        0 <= j < n + 1 && #[trigger] order[j] == x && labels[x] == label;
                    assert(j < n);
                }
                if before.contains(x) {
                    let j = choose|j: int|
                        0 <= j < n && #[trigger] order[j] == x && labels[x] == label;
                    assert(order[j] == x);
                }
            }
        }
    }
}

/// The rows that are listed up to the last of a rank are those that rank at
/// least as high.
proof fn lemma_listed_is_above(
    order: Seq<usize>,
    scores: Seq<Score>,
    labels: Seq<bool>,
    label: bool,
    n: int,
    rank: int,
)
    requires
        0 <= n <= order.len(),
        forall|j: int| 0 <= j < order.len() ==> #[trigger] order[j] < scores.len(),
        forall|k: usize| k < scores.len() ==> order.contains(k),
        scores.len() <= usize::MAX,
        forall|j: int| 0 <= j < n ==> scores[#[trigger] order[j] as int].rank() >= rank,
        forall|j: int| n <= j < order.len() ==> scores[#[trigger] order[j] as int].rank() < rank,
    ensures
        listed(order, labels, label, n) == above(scores, labels, rank, label),
{
    let a = listed(order, labels, label, n);
    let b = above(scores, labels, rank, label);
    assert forall|x: int| #[trigger] a.contains(x) <==> b.contains(x) by {
        if a.contains(x) {
            let j = choose|j: int| 0 <= j < n && #[trigger] order[j] == x && labels[x] == label;
            assert(order[j] == x);
        }
        if b.contains(x) {
            assert(order.contains(x as usize));
            let j = choose|j: int| 0 <= j < order.len() && order[j] == x as usize;
            assert(order[j] == x);
        }
    }
    assert(a == b);
}

/// How many labels are `true`.
pub(crate) fn count_true(labels: &[bool]) -> (count: u64)
    ensures
        count == labeled(labels@, true, labels@.len() as int).len(),
        count <= labels@.len(),
{
    let mut count: u64 = 0;
    let mut i: usize = 0;
    assert(labeled(labels@, true, 0) == Set::<int>::empty());
    while i < labels.len()
        invariant
            i <= labels@.len(),
            labeled(labels@, true, i as int).finite(),
            count == labeled(labels@, true, i as int).len(),
            count <= i,
        decreases labels@.len() - i,
    {
        proof {
            let before = labeled(labels@, true, i as int);
            let after = labeled(labels@, true, i + 1);
            if labels@[i as int] {
                assert(after == before.insert(i as int));
            } else {
                assert(after == before);
            }
        }
        if labels[i] {
            count += 1;
        }
        i += 1;
    }
    count
}

proof fn lemma_labels_split(labels: Seq<bool>, n: int)
    requires
        0 <= n <= labels.len(),
    ensures
        labeled(labels, true, n).finite(),
        labeled(labels, false, n).finite(),
        labeled(labels, true, n).len() + labeled(labels, false, n).len() == n,
    decreases n,
{
    let t = labeled(labels, true, n);
    let f = labeled(labels, false, n);
    if n == 0 {
        assert(t == Set::<int>::empty());
        assert(f == Set::<int>::empty());
    } else {
        lemma_labels_split(labels, n - 1);
        if labels[n - 1] {
            assert(t == labeled(labels, true, n - 1).insert(n - 1));
            assert(f == labeled(labels, false, n - 1));
        } else {
            assert(t == labeled(labels, true, n - 1));
            assert(f == labeled(labels, false, n - 1).insert(n - 1));
        }
    }
}

/// No more rows rank high than have the label.
proof fn lemma_above_bound(scores: Seq<Score>, labels: Seq<bool>, rank: int, label: bool)
    requires
        scores.len() <= labels.len(),
    ensures
        above(scores, labels, rank, label).finite(),
        above(scores, labels, rank, label).len() <= labeled(
            labels,
            label,
            labels.len() as int,
        ).len(),
{
    lemma_labels_split(labels, labels.len() as int);
    let a = above(scores, labels, rank, label);
    let b = labeled(labels, label, labels.len() as int);
    assert(a.subset_of(b));
    vstd::set_lib::lemma_len_subset(a, b);
}

/// Comparing F1 is comparing the share of true positives in all that are
/// flagged or alerts.
proof fn lemma_f1_order(a: Cut, b: Cut, positives: u64)
    ensures
        f1_below(a, b, positives) <==> a.tp * (b.fp + positives) < b.tp * (a.fp + positives),
{
    let (x, y, p, q) = (a.tp as int, b.tp as int, a.fp + positives, b.fp + positives);
    assert(2 * x * (y + q) == 2 * (x * y) + 2 * (x * q)) by (nonlinear_arith);
    assert(2 * y * (x + p) == 2 * (x * y) + 2 * (y * p)) by (nonlinear_arith);
}

/// Whether the F1 of `a` is below that of `b`, where the alerts and the noise
/// that either flags fit in 64 bits.
fn has_lower_f1(a: Cut, b: Cut, positives: u64) -> (lower: bool)
    requires
        a.fp + positives <= u64::MAX,
        b.fp + positives <= u64::MAX,
    ensures
        lower == f1_below(a, b, positives),
{
    let (p, q): (u64, u64) = (a.fp + positives, b.fp + positives);
    proof {
        lemma_f1_order(a, b, positives);
        let (x, y) = (a.tp as int, b.tp as int);
        assert(0 <= x * q <= 0xffff_ffff_ffff_ffff * 0xffff_ffff_ffff_ffff) by (nonlinear_arith)
            requires
                0 <= x <= 0xffff_ffff_ffff_ffff,
                0 <= q <= 0xffff_ffff_ffff_ffff,
        ;
        assert(0 <= y * p <= 0xffff_ffff_ffff_ffff * 0xffff_ffff_ffff_ffff) by (nonlinear_arith)
            requires
                0 <= y <= 0xffff_ffff_ffff_ffff,
                0 <= p <= 0xffff_ffff_ffff_ffff,
        ;
    }
    (a.tp as u128) * (q as u128) < (b.tp as u128) * (p as u128)
}

/// The keys that put scores in their total order.
fn total_keys(scores: &[Score]) -> (keys: Vec<(i64, u64)>)
    ensures
        keys@.len() == scores@.len(),
        forall|k: int|
            0 <= k < scores@.len() ==> (#[trigger] keys@[k]).0 == scores@[k].total_rank()
                && keys@[k].1 == 0,
{
    let mut keys: Vec<(i64, u64)> = Vec::new();
    let mut i: usize = 0;
    while i < scores.len()
        invariant
            i <= scores@.len(),
            keys@.len() == i,
            forall|k: int|
                0 <= k < i ==> (#[trigger] keys@[k]).0 == scores@[k].total_rank() && keys@[k].1
                    == 0,
        decreases scores@.len() - i,
    {
        keys.push((scores[i].total_place(), 0));
        i += 1;
    }
    keys
}

/// What every threshold among `scores` flags; rows with the same score are
/// flagged together.
pub fn ranking(scores: &[Score], labels: &[bool]) -> (ranking: Ranking)
    requires
        scores@.len() <= labels@.len(),
    ensures
        is_ranking(ranking, scores@, labels@),
        ranking.grows(),
{
    let positives = count_true(labels);
    let negatives = labels.len() as u64 - positives;
    let keys = total_keys(scores);
    let order = descending_order(&keys);
    let ghost o = order@;
    proof {
        law_order_lists_each_index_once(o, keys@);
        lemma_labels_split(labels@, labels@.len() as int);
        assert forall|i: int, j: int| 0 <= i < j < o.len() implies scores@[#[trigger] o[i] as int].total_rank()
            >= scores@[#[trigger] o[j] as int].total_rank() by {
            assert(crate::order::precedes(keys@, o[i], o[j]));
            assert(keys@[o[i] as int].0 == scores@[o[i] as int].total_rank());
            assert(keys@[o[j] as int].0 == scores@[o[j] as int].total_rank());
        }
        assert(listed(o, labels@, true, 0) == Set::<int>::empty());
        assert(listed(o, labels@, false, 0) == Set::<int>::empty());
    }
    let mut cuts: Vec<Cut> = Vec::new();
    let mut best: Option<usize> = None;
    let (mut tp, mut fp): (u64, u64) = (0, 0);
    let mut i: usize = 0;
    while i < order.len()
        invariant
            i <= o.len() == scores@.len() <= labels@.len(),
            o == order@,
            o.no_duplicates(),
            forall|j: int| 0 <= j < o.len() ==> #[trigger] o[j] < scores@.len(),
            forall|k: usize| k < scores@.len() ==> o.contains(k),
            forall|i: int, j: int|
                0 <= i < j < o.len() ==> scores@[#[trigger] o[i] as int].total_rank()
                    >= scores@[#[trigger] o[j] as int].total_rank(),
            labels@.len() <= u64::MAX,
            positives == labeled(labels@, true, labels@.len() as int).len(),
            listed(o, labels@, true, i as int).finite(),
            listed(o, labels@, false, i as int).finite(),
            tp == listed(o, labels@, true, i as int).len(),
            fp == listed(o, labels@, false, i as int).len(),
            tp + fp == i,
            cuts@.len() <= i,
            forall|c: int| 0 <= c < cuts@.len() ==> is_cut(#[trigger] cuts@[c], scores@, labels@),
            forall|c: int, d: int|
                0 <= c < d < cuts@.len() ==> (#[trigger] cuts@[c]).threshold.rank() > (
                #[trigger] cuts@[d]).threshold.rank(),
            forall|c: int, j: int|
                0 <= c < cuts@.len() && i <= j < o.len() ==> (#[trigger] cuts@[c]).threshold.rank()
                    > scores@[#[trigger] o[j] as int].rank(),
            forall|j: int|
                0 <= j < i ==> #[trigger] has_cut(cuts@, scores@[o[j] as int].rank()),
            is_best(best, cuts@, positives, cuts@.len() as int),
        decreases o.len() - i,
    {
        let threshold = scores[order[i]];
        let ghost start = i as int;
        let ghost cuts0 = cuts@;
        while i < order.len() && scores[order[i]].place() == threshold.place()
            invariant
                0 <= start <= i <= o.len() == scores@.len() <= labels@.len(),
                start < o.len(),
                threshold == scores@[o[start] as int],
                o == order@,
                o.no_duplicates(),
                forall|j: int| 0 <= j < o.len() ==> #[trigger] o[j] < scores@.len(),
                listed(o, labels@, true, i as int).finite(),
                listed(o, labels@, false, i as int).finite(),
                tp == listed(o, labels@, true, i as int).len(),
                fp == listed(o, labels@, false, i as int).len(),
                tp + fp == i,
                forall|j: int|
                    start <= j < i ==> scores@[#[trigger] o[j] as int].rank() == threshold.rank(),
            ensures
                i > start,
                i < o.len() ==> scores@[o[i as int] as int].rank() != threshold.rank(),
            decreases o.len() - i,
        {
            proof {
                lemma_listed_step(o, labels@, true, i as int);
                lemma_listed_step(o, labels@, false, i as int);
            }
            if labels[order[i]] {
                tp += 1;
            } else {
                fp += 1;
            }
            i += 1;
        }
        let cut = Cut { threshold, tp, fp };
        proof {
            let r = threshold.rank();
            assert forall|j: int| 0 <= j < i implies scores@[#[trigger] o[j] as int].rank() >= r by {
                if j < start {
                    assert(scores@[o[j] as int].total_rank() >= scores@[o[start] as int].total_rank());
                }
            }
            assert forall|j: int| i <= j < o.len() implies scores@[#[trigger] o[j] as int].rank()
                < r by {
                assert(scores@[o[start] as int].total_rank() >= scores@[o[i as int] as int].total_rank());
                if j > i {
                    assert(scores@[o[i as int] as int].total_rank() >= scores@[o[j] as int].total_rank());
                }
            }
            lemma_listed_is_above(o, scores@, labels@, true, i as int, r);
            lemma_listed_is_above(o, scores@, labels@, false, i as int, r);
            assert(scores@.contains(threshold));
            assert forall|k: int|
                0 <= k < scores@.len() && (#[trigger] scores@[k]).rank() == r implies scores@[k].total_rank()
                <= threshold.total_rank() by {
                assert(o.contains(k as usize));
                let j = choose|j: int| 0 <= j < o.len() && o[j] == k as usize;
                if j < start {
                    assert(has_cut(cuts0, scores@[o[j] as int].rank()));
                    let c = choose|c: int|
                        0 <= c < cuts0.len() && (#[trigger] cuts0[c]).threshold.rank()
                            == scores@[o[j] as int].rank();
                    assert(cuts0[c].threshold.rank() > scores@[o[start] as int].rank());
                } else if j > start {
                    assert(scores@[o[start] as int].total_rank() >= scores@[o[j] as int].total_rank());
                }
            }
            assert(is_cut(cut, scores@, labels@));
            lemma_above_bound(scores@, labels@, r, false);
            lemma_above_bound(scores@, labels@, r, true);
        }
        let better = match best {
            Some(b) => {
                proof {
                    assert(is_cut(cuts@[b as int], scores@, labels@));
                    lemma_above_bound(scores@, labels@, cuts@[b as int].threshold.rank(), false);
                    lemma_labels_split(labels@, labels@.len() as int);
                }
                has_lower_f1(cuts[b], cut, positives)
            },
            None => tp > 0,
        };
        cuts.push(cut);
        proof {
            lemma_best_step(best, cuts0, cut, positives, better);
            assert forall|j: int| 0 <= j < i implies #[trigger] has_cut(
                cuts@,
                scores@[o[j] as int].rank(),
            ) by {
                if j < start {
                    assert(has_cut(cuts0, scores@[o[j] as int].rank()));
                    let c = choose|c: int|
                        0 <= c < cuts0.len() && (#[trigger] cuts0[c]).threshold.rank()
                            == scores@[o[j] as int].rank();
                    assert(cuts@[c] == cuts0[c]);
                } else {
                    assert(cuts@[cuts0.len() as int] == cut);
                }
            }
        }
        if better {
            best = Some(cuts.len() - 1);
        }
    }
    proof {
        assert forall|k: int| 0 <= k < scores@.len() implies #[trigger] has_cut(
            cuts@,
            scores@[k].rank(),
        ) by {
            assert(o.contains(k as usize));
            let j = choose|j: int| 0 <= j < o.len() && o[j] == k as usize;
            assert(has_cut(cuts@, scores@[o[j] as int].rank()));
        }
    }
    let ranking = Ranking { positives, negatives, cuts, best };
    proof {
        law_rankings_grow(ranking, scores@, labels@);
    }
    ranking
}

/// What is not below one fraction is above all that are below it.
proof fn lemma_fractions(a: int, da: int, b: int, db: int, c: int, dc: int)
    requires
        da > 0,
        db > 0,
        dc > 0,
        a * db <= b * da,
        b * dc < c * db,
    ensures
        a * dc < c * da,
{
    assert((a * db) * dc <= (b * da) * dc) by (nonlinear_arith)
        requires
            a * db <= b * da,
            dc > 0,
    ;
    assert((b * dc) * da < (c * db) * da) by (nonlinear_arith)
        requires
            b * dc < c * db,
            da > 0,
    ;
    assert((a * db) * dc == (a * dc) * db) by (nonlinear_arith);
    assert((b * da) * dc == (b * dc) * da) by (nonlinear_arith);
    assert((c * db) * da == (c * da) * db) by (nonlinear_arith);
    assert(a * dc < c * da) by (nonlinear_arith)
        requires
            (a * dc) * db < (c * da) * db,
            db > 0,
    ;
}

proof fn lemma_f1_transitive(a: Cut, b: Cut, c: Cut, positives: u64)
    requires
        positives > 0,
        !f1_below(b, a, positives),
        f1_below(b, c, positives),
    ensures
        f1_below(a, c, positives),
{
    lemma_fractions(
        2 * a.tp,
        f1_denominator(a, positives),
        2 * b.tp,
        f1_denominator(b, positives),
        2 * c.tp,
        f1_denominator(c, positives),
    );
}

/// Appending a cut keeps the best cut, or makes the new one the best.
proof fn lemma_best_step(
    best: Option<usize>,
    cuts: Seq<Cut>,
    cut: Cut,
    positives: u64,
    better: bool,
)
    requires
        cuts.len() < usize::MAX,
        cut.tp <= positives,
        is_best(best, cuts, positives, cuts.len() as int),
        better == (match best {
            Some(b) => f1_below(cuts[b as int], cut, positives),
            None => cut.tp > 0,
        }),
    ensures
        is_best(
            if better {
                Some(cuts.len() as usize)
            } else {
                best
            },
            cuts.push(cut),
            positives,
            cuts.len() as int + 1,
        ),
{
    let after = cuts.push(cut);
    assert forall|i: int| 0 <= i < cuts.len() implies after[i] == cuts[i] by {}
    match best {
        Some(b) => {
            let top = cuts[b as int];
            if better {
                assert(cut.tp > 0) by (nonlinear_arith)
                    requires
                        2 * top.tp * (cut.tp + cut.fp + positives) < 2 * cut.tp * (top.tp + top.fp
                            + positives),
                ;
                assert forall|i: int| 0 <= i < cuts.len() implies f1_below(
                    #[trigger] after[i],
                    cut,
                    positives,
                ) by {
                    let c = cuts[i];
                    lemma_f1_transitive(c, top, cut, positives);
                }
                assert forall|i: int| 0 <= i < after.len() implies !f1_below(
                    cut,
                    #[trigger] after[i],
                    positives,
                ) by {
                    if i < cuts.len() {
                        assert(f1_below(after[i], cut, positives));
                    }
                }
            }
        },
        None => {
            if better {
                assert forall|i: int| 0 <= i < cuts.len() implies f1_below(
                    #[trigger] after[i],
                    cut,
                    positives,
                ) by {
                    let c = cuts[i];
                    assert(2 * c.tp * (cut.tp + cut.fp + positives) == 0) by (nonlinear_arith)
                        requires
                            c.tp == 0,
                    ;
                    assert(2 * cut.tp * (c.tp + c.fp + positives) > 0) by (nonlinear_arith)
                        requires
                            cut.tp > 0,
                            positives > 0,
                    ;
                }
            }
        },
    }
}

/// Where all scores are numbers, a cut counts what its threshold flags.
pub proof fn law_cut_counts_what_its_threshold_flags(cut: Cut, scores: Seq<Score>, labels: Seq<bool>)
    requires
        scores.len() <= labels.len(),
        forall|k: int| 0 <= k < scores.len() ==> !(#[trigger] scores[k]).nan(),
        is_cut(cut, scores, labels),
    ensures
        cut.tp == cell(scores, labels, cut.threshold, true, true, rows_of(scores, labels)).len(),
        cut.fp == cell(scores, labels, cut.threshold, true, false, rows_of(scores, labels)).len(),
{
    let n = scores.len() as int;
    let t = cut.threshold;
    let k = choose|k: int| 0 <= k < scores.len() && scores[k] == t;
    assert(!scores[k].nan());
    assert(cell(scores, labels, t, true, true, n) == above(scores, labels, t.rank(), true));
    assert(cell(scores, labels, t, true, false, n) == above(scores, labels, t.rank(), false));
}

/// A lower threshold flags all that a higher one flags.
pub proof fn law_cuts_grow(cuts: Seq<Cut>, scores: Seq<Score>, labels: Seq<bool>, i: int, j: int)
    requires
        scores.len() <= labels.len(),
        are_cuts(cuts, scores, labels),
        0 <= i <= j < cuts.len(),
    ensures
        cuts[i].tp <= cuts[j].tp,
        cuts[i].fp <= cuts[j].fp,
{
    assert(is_cut(cuts[i], scores, labels));
    assert(is_cut(cuts[j], scores, labels));
    let (a, b) = (cuts[i].threshold.rank(), cuts[j].threshold.rank());
    assert(a >= b);
    lemma_above_bound(scores, labels, b, true);
    lemma_above_bound(scores, labels, b, false);
    vstd::set_lib::lemma_len_subset(
        above(scores, labels, a, true),
        above(scores, labels, b, true),
    );
    vstd::set_lib::lemma_len_subset(
        above(scores, labels, a, false),
        above(scores, labels, b, false),
    );
}

/// The lowest threshold flags every row.
pub proof fn law_last_cut_flags_all(cuts: Seq<Cut>, scores: Seq<Score>, labels: Seq<bool>)
    requires
        scores.len() == labels.len(),
        scores.len() > 0,
        are_cuts(cuts, scores, labels),
    ensures
        cuts.len() > 0,
        cuts.last().tp == labeled(labels, true, labels.len() as int).len(),
        cuts.last().fp == labeled(labels, false, labels.len() as int).len(),
{
    assert(has_cut(cuts, scores[0].rank()));
    let last = cuts.last();
    let r = last.threshold.rank();
    assert(is_cut(cuts[cuts.len() - 1], scores, labels));
    assert forall|k: int| 0 <= k < scores.len() implies (#[trigger] scores[k]).rank() >= r by {
        assert(has_cut(cuts, scores[k].rank()));
        let i = choose|i: int|
            0 <= i < cuts.len() && (#[trigger] cuts[i]).threshold.rank() == scores[k].rank();
        if i < cuts.len() - 1 {
            assert(cuts[i].threshold.rank() > cuts[cuts.len() - 1].threshold.rank());
        }
    }
    let n = labels.len() as int;
    assert(above(scores, labels, r, true) == labeled(labels, true, n));
    assert(above(scores, labels, r, false) == labeled(labels, false, n));
}

/// The cut before cut `n`: one that flags nothing, for the first.
pub open spec fn flagged_before(cuts: Seq<Cut>, n: int) -> (nat, nat) {
    if n <= 0 {
        (0, 0)
    } else {
        (cuts[n - 1].tp as nat, cuts[n - 1].fp as nat)
    }
}

/// Twice the area under the curve of true over false positives, up to cut `n`,
/// by trapezoids.
pub open spec fn trapezoids(cuts: Seq<Cut>, n: nat) -> int
    decreases n,
{
    if n == 0 {
        0
    } else {
        let (tp, fp) = flagged_before(cuts, n - 1);
        trapezoids(cuts, (n - 1) as nat) + (cuts[n - 1].fp - fp) * (cuts[n - 1].tp + tp)
    }
}

impl Ranking {
    /// Whether lower thresholds flag no less, and none flags more than there
    /// is.
    pub open spec fn grows(self) -> bool {
        &&& self.positives + self.negatives <= u64::MAX
        &&& forall|i: int|
            0 <= i < self.cuts@.len() ==> (#[trigger] self.cuts@[i]).tp <= self.positives
                && self.cuts@[i].fp <= self.negatives
        &&& forall|i: int, j: int|
            0 <= i < j < self.cuts@.len() ==> (#[trigger] self.cuts@[i]).tp <= (
            #[trigger] self.cuts@[j]).tp && self.cuts@[i].fp <= self.cuts@[j].fp
    }

    /// The share of pairs of an alert and noise in which the alert has the
    /// higher score, where a tie counts half: the area under the curve of true
    /// over false positives.
    pub fn roc_auc(&self) -> (area: Fraction)
        requires
            self.grows(),
        ensures
            area.numerator == trapezoids(self.cuts@, self.cuts@.len()),
            area.denominator == 2 * self.positives * self.negatives,
    {
        let mut sum: u128 = 0;
        let (mut tp, mut fp): (u64, u64) = (0, 0);
        let mut i: usize = 0;
        let ghost (p, n) = (self.positives as int, self.negatives as int);
        proof {
            lemma_area_bound(p, n);
        }
        while i < self.cuts.len()
            invariant
                i <= self.cuts@.len(),
                self.grows(),
                p == self.positives,
                n == self.negatives,
                0 <= 2 * (p * n) <= u128::MAX,
                flagged_before(self.cuts@, i as int) == (tp as nat, fp as nat),
                tp <= p,
                fp <= n,
                sum == trapezoids(self.cuts@, i as nat),
                sum <= 2 * (tp * fp),
            decreases self.cuts@.len() - i,
        {
            let cut = self.cuts[i];
            proof {
                if i > 0 {
                    assert(self.cuts@[i - 1].tp <= self.cuts@[i as int].tp);
                }
                lemma_area_step(
                    tp as int,
                    fp as int,
                    cut.tp as int,
                    cut.fp as int,
                    p,
                    n,
                    sum as int,
                );
            }
            sum = sum + ((cut.fp - fp) as u128) * (cut.tp as u128 + tp as u128);
            tp = cut.tp;
            fp = cut.fp;
            i += 1;
        }
        proof {
            assert(2 * p * n == 2 * (p * n)) by (nonlinear_arith);
            assert(0 <= p * n) by (nonlinear_arith)
                requires
                    p >= 0,
                    n >= 0,
            ;
        }
        Fraction {
            numerator: sum,
            denominator: 2 * ((self.positives as u128) * (self.negatives as u128)),
        }
    }
}

/// Twice a product fits if the sum of its factors does.
proof fn lemma_area_bound(p: int, n: int)
    requires
        0 <= p,
        0 <= n,
        p + n <= u64::MAX,
    ensures
        0 <= 2 * (p * n) <= u128::MAX,
{
    assert(0 <= p * n) by (nonlinear_arith)
        requires
            p >= 0,
            n >= 0,
    ;
    assert(4 * (p * n) <= (p + n) * (p + n)) by (nonlinear_arith);
    assert((p + n) * (p + n) <= 0xffff_ffff_ffff_ffff * 0xffff_ffff_ffff_ffff) by (nonlinear_arith)
        requires
            0 <= p + n <= 0xffff_ffff_ffff_ffff,
    ;
}

/// A trapezoid keeps to the rectangle that it lies in.
proof fn lemma_area_step(tp: int, fp: int, tp2: int, fp2: int, p: int, n: int, sum: int)
    requires
        0 <= tp <= tp2 <= p,
        0 <= fp <= fp2 <= n,
        0 <= sum <= 2 * (tp * fp),
        2 * (p * n) <= u128::MAX,
    ensures
        0 <= (fp2 - fp) * (tp2 + tp),
        sum + (fp2 - fp) * (tp2 + tp) <= 2 * (tp2 * fp2) <= 2 * (p * n),
{
    assert(0 <= (fp2 - fp) * (tp2 + tp)) by (nonlinear_arith)
        requires
            0 <= tp <= tp2,
            0 <= fp <= fp2,
    ;
    assert((fp2 - fp) * (tp2 + tp) <= 2 * (tp2 * (fp2 - fp))) by (nonlinear_arith)
        requires
            0 <= tp <= tp2,
            0 <= fp <= fp2,
    ;
    assert(tp * fp <= tp2 * fp) by (nonlinear_arith)
        requires
            0 <= tp <= tp2,
            0 <= fp,
    ;
    assert(tp2 * (fp2 - fp) == tp2 * fp2 - tp2 * fp) by (nonlinear_arith);
    assert(tp2 * fp2 <= p * n) by (nonlinear_arith)
        requires
            0 <= tp2 <= p,
            0 <= fp2 <= n,
    ;
}

/// A ranking flags no less at lower thresholds, so its area can be computed.
pub proof fn law_rankings_grow(ranking: Ranking, scores: Seq<Score>, labels: Seq<bool>)
    requires
        scores.len() <= labels.len() <= u64::MAX,
        is_ranking(ranking, scores, labels),
    ensures
        ranking.grows(),
{
    let cuts = ranking.cuts@;
    lemma_labels_split(labels, labels.len() as int);
    assert forall|i: int| 0 <= i < cuts.len() implies (#[trigger] cuts[i]).tp <= ranking.positives
        && cuts[i].fp <= ranking.negatives by {
        assert(is_cut(cuts[i], scores, labels));
        lemma_above_bound(scores, labels, cuts[i].threshold.rank(), true);
        lemma_above_bound(scores, labels, cuts[i].threshold.rank(), false);
    }
    assert forall|i: int, j: int| 0 <= i < j < cuts.len() implies (#[trigger] cuts[i]).tp <= (
    #[trigger] cuts[j]).tp && cuts[i].fp <= cuts[j].fp by {
        law_cuts_grow(cuts, scores, labels, i, j);
    }
}

/// The pairs of an alert and noise in which the alert ranks higher, and the
/// noise at least `rank`.
pub open spec fn won(scores: Seq<Score>, labels: Seq<bool>, rank: int) -> Set<(int, int)> {
    Set::new(
        |pair: (int, int)|
            {
                &&& 0 <= pair.0 < scores.len()
                &&& 0 <= pair.1 < scores.len()
                &&& labels[pair.0]
                &&& !labels[pair.1]
                &&& scores[pair.1].rank() >= rank
                &&& scores[pair.0].rank() > scores[pair.1].rank()
            },
    )
}

/// The pairs of an alert and noise in which both rank the same, at least
/// `rank`.
pub open spec fn tied(scores: Seq<Score>, labels: Seq<bool>, rank: int) -> Set<(int, int)> {
    Set::new(
        |pair: (int, int)|
            {
                &&& 0 <= pair.0 < scores.len()
                &&& 0 <= pair.1 < scores.len()
                &&& labels[pair.0]
                &&& !labels[pair.1]
                &&& scores[pair.1].rank() >= rank
                &&& scores[pair.0].rank() == scores[pair.1].rank()
            },
    )
}

/// A rank that no score is below.
pub open spec fn lowest_rank() -> int {
    -0x8000_0000
}

/// The pairs of a member of `a` and a member of `b`.
spec fn pairs(a: Set<int>, b: Set<int>) -> Set<(int, int)> {
    Set::new(|pair: (int, int)| a.contains(pair.0) && b.contains(pair.1))
}

/// Pairs with one second member are as many as the first members.
proof fn lemma_add_column(base: Set<(int, int)>, a: Set<int>, y: int)
    requires
        base.finite(),
        a.finite(),
        forall|x: int| a.contains(x) ==> !base.contains((x, y)),
    ensures
        base.union(pairs(a, set![y])).finite(),
        base.union(pairs(a, set![y])).len() == base.len() + a.len(),
    decreases a.len(),
{
    if a.len() == 0 {
        assert(base.union(pairs(a, set![y])) == base);
    } else {
        let x = a.choose();
        let rest = a.remove(x);
        lemma_add_column(base, rest, y);
        let before = base.union(pairs(rest, set![y]));
        assert(base.union(pairs(a, set![y])) == before.insert((x, y)));
        assert(!before.contains((x, y)));
    }
}

/// Pairs are as many as the product of the sizes.
proof fn lemma_add_pairs(base: Set<(int, int)>, a: Set<int>, b: Set<int>)
    requires
        base.finite(),
        a.finite(),
        b.finite(),
        forall|pair: (int, int)| #[trigger] pairs(a, b).contains(pair) ==> !base.contains(pair),
    ensures
        base.union(pairs(a, b)).finite(),
        base.union(pairs(a, b)).len() == base.len() + a.len() * b.len(),
    decreases b.len(),
{
    if b.len() == 0 {
        assert(base.union(pairs(a, b)) == base);
        assert(a.len() * b.len() == 0) by (nonlinear_arith)
            requires
                b.len() == 0,
        ;
    } else {
        let y = b.choose();
        let rest = b.remove(y);
        assert forall|pair: (int, int)| #[trigger] pairs(a, rest).contains(
            pair,
        ) implies !base.contains(pair) by {
            assert(pairs(a, b).contains(pair));
        }
        lemma_add_pairs(base, a, rest);
        let before = base.union(pairs(a, rest));
        assert forall|x: int| a.contains(x) implies !before.contains((x, y)) by {
            assert(pairs(a, b).contains((x, y)));
        }
        lemma_add_column(before, a, y);
        assert(base.union(pairs(a, b)) == before.union(pairs(a, set![y])));
        assert(a.len() * b.len() == a.len() * rest.len() + a.len()) by (nonlinear_arith)
            requires
                b.len() == rest.len() + 1,
        ;
    }
}

/// The rows of the rank `rank` with the label `label`.
spec fn level(scores: Seq<Score>, labels: Seq<bool>, rank: int, label: bool) -> Set<int> {
    Set::new(|k: int| 0 <= k < scores.len() && scores[k].rank() == rank && labels[k] == label)
}

/// What cut `n` flags is what the cut before flags and the rows of its rank.
proof fn lemma_levels(
    cuts: Seq<Cut>,
    scores: Seq<Score>,
    labels: Seq<bool>,
    n: int,
    label: bool,
)
    requires
        scores.len() <= labels.len(),
        are_cuts(cuts, scores, labels),
        0 <= n < cuts.len(),
    ensures
        ({
            let r = cuts[n].threshold.rank();
            let before = above(scores, labels, r + 1, label);
            let flagged = flagged_before(cuts, n);
            let now = if label {
                cuts[n].tp
            } else {
                cuts[n].fp
            };
            &&& before.finite()
            &&& level(scores, labels, r, label).finite()
            &&& before.len() == (if label {
                flagged.0
            } else {
                flagged.1
            })
            &&& level(scores, labels, r, label).len() + before.len() == now
        }),
{
    let r = cuts[n].threshold.rank();
    assert(is_cut(cuts[n], scores, labels));
    let before = above(scores, labels, r + 1, label);
    let now = above(scores, labels, r, label);
    let here = level(scores, labels, r, label);
    lemma_above_bound(scores, labels, r, label);
    lemma_above_bound(scores, labels, r + 1, label);
    assert forall|k: int| 0 <= k < scores.len() && (#[trigger] scores[k]).rank() > r implies n > 0
        && scores[k].rank() >= cuts[n - 1].threshold.rank() by {
        assert(has_cut(cuts, scores[k].rank()));
        let i = choose|i: int|
            0 <= i < cuts.len() && (#[trigger] cuts[i]).threshold.rank() == scores[k].rank();
        if i > n {
            assert(cuts[n].threshold.rank() > cuts[i].threshold.rank());
        }
        if i < n - 1 {
            assert(cuts[i].threshold.rank() > cuts[n - 1].threshold.rank());
        }
    }
    if n > 0 {
        assert(is_cut(cuts[n - 1], scores, labels));
        assert(cuts[n - 1].threshold.rank() > cuts[n].threshold.rank());
        assert(before == above(scores, labels, cuts[n - 1].threshold.rank(), label));
    } else {
        assert(before == Set::<int>::empty());
    }
    assert(here == now.difference(before));
    assert(here.subset_of(now));
    vstd::set_lib::lemma_len_subset(here, now);
    assert(now == before.union(here));
    assert(before.disjoint(here));
    vstd::set_lib::lemma_set_disjoint_lens(before, here);
}

proof fn lemma_area_counts_pairs(cuts: Seq<Cut>, scores: Seq<Score>, labels: Seq<bool>, n: nat)
    requires
        scores.len() <= labels.len(),
        are_cuts(cuts, scores, labels),
        0 < n <= cuts.len(),
    ensures
        ({
            let r = cuts[n - 1].threshold.rank();
            &&& won(scores, labels, r).finite()
            &&& tied(scores, labels, r).finite()
            &&& trapezoids(cuts, n) == 2 * won(scores, labels, r).len() + tied(
                scores,
                labels,
                r,
            ).len()
        }),
    decreases n,
{
    let at = n - 1;
    let r = cuts[at].threshold.rank();
    let (tp, fp) = flagged_before(cuts, at);
    lemma_levels(cuts, scores, labels, at, true);
    lemma_levels(cuts, scores, labels, at, false);
    let higher = above(scores, labels, r + 1, true);
    let same = level(scores, labels, r, true);
    let noise = level(scores, labels, r, false);
    let won0 = won(scores, labels, r + 1);
    let tied0 = tied(scores, labels, r + 1);
    if at == 0 {
        assert(above(scores, labels, r + 1, false) == Set::<int>::empty());
        assert forall|pair: (int, int)| !won0.contains(pair) && !tied0.contains(pair) by {
            if won0.contains(pair) || tied0.contains(pair) {
                assert(above(scores, labels, r + 1, false).contains(pair.1));
            }
        }
        assert(won0 == Set::<(int, int)>::empty());
        assert(tied0 == Set::<(int, int)>::empty());
        assert(trapezoids(cuts, 0) == 0);
    } else {
        lemma_area_counts_pairs(cuts, scores, labels, at as nat);
        let q = cuts[at - 1].threshold.rank();
        assert(q > r) by {
            assert(cuts[at - 1].threshold.rank() > cuts[at].threshold.rank());
        }
        assert forall|k: int|
            0 <= k < scores.len() && (#[trigger] scores[k]).rank() > r implies scores[k].rank()
            >= q by {
            assert(has_cut(cuts, scores[k].rank()));
            let i = choose|i: int|
                0 <= i < cuts.len() && (#[trigger] cuts[i]).threshold.rank() == scores[k].rank();
            if i > at {
                assert(cuts[at].threshold.rank() > cuts[i].threshold.rank());
            }
            if i < at - 1 {
                assert(cuts[i].threshold.rank() > cuts[at - 1].threshold.rank());
            }
        }
        assert(won0 == won(scores, labels, q));
        assert(tied0 == tied(scores, labels, q));
    }
    assert(won(scores, labels, r) == won0.union(pairs(higher, noise)));
    assert(tied(scores, labels, r) == tied0.union(pairs(same, noise)));
    lemma_add_pairs(won0, higher, noise);
    lemma_add_pairs(tied0, same, noise);
    let (x, y, z) = (higher.len() as int, same.len() as int, noise.len() as int);
    assert(z * (y + x + x) == 2 * (x * z) + y * z) by (nonlinear_arith);
}

/// The area under the curve counts pairs: two for each pair of an alert and
/// noise in which the alert ranks higher, and one for each tie.
pub proof fn law_area_counts_pairs(cuts: Seq<Cut>, scores: Seq<Score>, labels: Seq<bool>)
    requires
        scores.len() <= labels.len(),
        are_cuts(cuts, scores, labels),
    ensures
        trapezoids(cuts, cuts.len()) == 2 * won(scores, labels, lowest_rank()).len() + tied(
            scores,
            labels,
            lowest_rank(),
        ).len(),
{
    let low = lowest_rank();
    if cuts.len() == 0 {
        if scores.len() > 0 {
            assert(has_cut(cuts, scores[0].rank()));
        }
        assert(won(scores, labels, low) == Set::<(int, int)>::empty());
        assert(tied(scores, labels, low) == Set::<(int, int)>::empty());
    } else {
        lemma_area_counts_pairs(cuts, scores, labels, cuts.len());
        let r = cuts[cuts.len() - 1].threshold.rank();
        assert forall|k: int| 0 <= k < scores.len() implies (#[trigger] scores[k]).rank() >= r by {
            assert(has_cut(cuts, scores[k].rank()));
            let i = choose|i: int|
                0 <= i < cuts.len() && (#[trigger] cuts[i]).threshold.rank() == scores[k].rank();
            if i < cuts.len() - 1 {
                assert(cuts[i].threshold.rank() > cuts[cuts.len() - 1].threshold.rank());
            }
        }
        assert(won(scores, labels, low) == won(scores, labels, r));
        assert(tied(scores, labels, low) == tied(scores, labels, r));
    }
}

/// A row is in the cell of its label and of whether its score reaches the
/// threshold, and in no other, so the four cells share out the rows that have
/// both a score and a label.
pub proof fn law_cells_share_out_the_rows(
    scores: Seq<Score>,
    labels: Seq<bool>,
    threshold: Score,
    flagged: bool,
    label: bool,
    k: int,
)
    ensures
        cell(scores, labels, threshold, flagged, label, rows_of(scores, labels)).contains(k) <==> {
            &&& 0 <= k < scores.len() && k < labels.len()
            &&& scores[k].reaches(threshold) == flagged
            &&& labels[k] == label
        },
        rows_of(scores, labels) <= scores.len() && rows_of(scores, labels) <= labels.len(),
        rows_of(scores, labels) == scores.len() || rows_of(scores, labels) == labels.len(),
{
}

/// A ranking has a cut for the score of each row, which counts the alerts and
/// the noise that score at least as high.
pub proof fn law_each_score_has_its_cut(
    ranking: Ranking,
    scores: Seq<Score>,
    labels: Seq<bool>,
    k: int,
) -> (i: int)
    requires
        is_ranking(ranking, scores, labels),
        0 <= k < scores.len(),
    ensures
        0 <= i < ranking.cuts@.len(),
        ranking.cuts@[i].threshold.rank() == scores[k].rank(),
        ranking.cuts@[i].threshold.total_rank() >= scores[k].total_rank(),
        ranking.cuts@[i].tp == Set::new(
            |j: int| 0 <= j < scores.len() && scores[j].rank() >= scores[k].rank() && labels[j],
        ).len(),
        ranking.cuts@[i].fp == Set::new(
            |j: int| 0 <= j < scores.len() && scores[j].rank() >= scores[k].rank() && !labels[j],
        ).len(),
{
    let cuts = ranking.cuts@;
    let rank = scores[k].rank();
    assert(has_cut(cuts, rank));
    let i = choose|i: int| 0 <= i < cuts.len() && (#[trigger] cuts[i]).threshold.rank() == rank;
    assert(is_cut(cuts[i], scores, labels));
    assert(above(scores, labels, rank, true) == Set::new(
        |j: int| 0 <= j < scores.len() && scores[j].rank() >= scores[k].rank() && labels[j],
    ));
    assert(above(scores, labels, rank, false) == Set::new(
        |j: int| 0 <= j < scores.len() && scores[j].rank() >= scores[k].rank() && !labels[j],
    ));
    i
}

/// The thresholds of a ranking are scores of rows, each once, from the highest
/// to the lowest, and its alerts and its noise are all labels.
pub proof fn law_cuts_fall_through_the_scores(
    ranking: Ranking,
    scores: Seq<Score>,
    labels: Seq<bool>,
    i: int,
    j: int,
)
    requires
        is_ranking(ranking, scores, labels),
        0 <= i < j < ranking.cuts@.len(),
    ensures
        ranking.cuts@[i].threshold.rank() > ranking.cuts@[j].threshold.rank(),
        scores.contains(ranking.cuts@[i].threshold),
        scores.contains(ranking.cuts@[j].threshold),
        ranking.positives == Set::new(|k: int| 0 <= k < labels.len() && labels[k]).len(),
        ranking.positives + ranking.negatives == labels.len(),
{
    assert(is_cut(ranking.cuts@[i], scores, labels));
    assert(is_cut(ranking.cuts@[j], scores, labels));
    assert(labeled(labels, true, labels.len() as int) == Set::new(
        |k: int| 0 <= k < labels.len() && labels[k],
    ));
}

/// No cut has a better F1 than the best one, which is the highest of those as
/// good; there is one exactly if some cut flags an alert.
pub proof fn law_best_cut_has_the_best_f1(
    ranking: Ranking,
    scores: Seq<Score>,
    labels: Seq<bool>,
    i: int,
)
    requires
        is_ranking(ranking, scores, labels),
        0 <= i < ranking.cuts@.len(),
    ensures
        ranking.best is None ==> ranking.cuts@[i].tp == 0,
        ranking.best matches Some(b) ==> {
            let (best, cut, p) = (
                ranking.cuts@[b as int],
                ranking.cuts@[i],
                Set::new(|k: int| 0 <= k < labels.len() && labels[k]).len(),
            );
            &&& b < ranking.cuts@.len() && best.tp > 0
            &&& 2 * best.tp * (cut.tp + cut.fp + p) >= 2 * cut.tp * (best.tp + best.fp + p)
            &&& i < b ==> 2 * best.tp * (cut.tp + cut.fp + p) > 2 * cut.tp * (best.tp + best.fp + p)
        },
{
    assert(labeled(labels, true, labels.len() as int) == Set::new(
        |k: int| 0 <= k < labels.len() && labels[k],
    ));
    if let Some(b) = ranking.best {
        assert(!f1_below(ranking.cuts@[b as int], ranking.cuts@[i], ranking.positives));
        if i < b {
            assert(f1_below(ranking.cuts@[i], ranking.cuts@[b as int], ranking.positives));
        }
    }
}

/// The area under the curve counts pairs of an alert and noise: two for each in
/// which the alert scores higher, and one for each tie.
pub proof fn law_area_is_the_pairs_in_order(
    ranking: Ranking,
    scores: Seq<Score>,
    labels: Seq<bool>,
)
    requires
        scores.len() <= labels.len(),
        is_ranking(ranking, scores, labels),
    ensures
        trapezoids(ranking.cuts@, ranking.cuts@.len()) == 2 * Set::new(
            |pair: (int, int)|
                0 <= pair.0 < scores.len() && 0 <= pair.1 < scores.len() && labels[pair.0]
                    && !labels[pair.1] && scores[pair.0].rank() > scores[pair.1].rank(),
        ).len() + Set::new(
            |pair: (int, int)|
                0 <= pair.0 < scores.len() && 0 <= pair.1 < scores.len() && labels[pair.0]
                    && !labels[pair.1] && scores[pair.0].rank() == scores[pair.1].rank(),
        ).len(),
{
    law_area_counts_pairs(ranking.cuts@, scores, labels);
    assert(won(scores, labels, lowest_rank()) == Set::new(
        |pair: (int, int)|
            0 <= pair.0 < scores.len() && 0 <= pair.1 < scores.len() && labels[pair.0]
                && !labels[pair.1] && scores[pair.0].rank() > scores[pair.1].rank(),
    ));
    assert(tied(scores, labels, lowest_rank()) == Set::new(
        |pair: (int, int)|
            0 <= pair.0 < scores.len() && 0 <= pair.1 < scores.len() && labels[pair.0]
                && !labels[pair.1] && scores[pair.0].rank() == scores[pair.1].rank(),
    ));
}

} // verus!
