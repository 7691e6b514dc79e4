//! The board of templates that were seen, and the alerts that it raises.
use std::collections::HashMap;
use std::sync::Arc;
use vstd::arithmetic::power2::pow2;
use vstd::prelude::*;

use crate::judge::{Verdict, VerdictView};
use crate::order::{descending_order, is_descending_order, law_order_lists_each_index_once, Score};
use crate::pipeline::{triaged_views, Triaged, TriagedView};
use crate::route::Route;
use crate::text::{chars_of, decimal, decimal_text, views};

verus! {

/// The rows that a board may hold before the oldest are dropped.
pub const MAX_ROWS: usize = 100_000;

/// The rows that are left when the oldest are dropped.
pub const KEPT_ROWS: usize = MAX_ROWS / 2;

/// What is known of the lines of one cluster.
#[derive(Debug)]
pub struct Row {
    pub cluster: usize,
    pub template: Arc<str>,
    pub route: Route,
    pub attention: Score,
    pub verdict: Arc<Verdict>,
    pub count: u64,
    pub example: String,
    /// The lines to page for that no alert told of yet.
    pub unnotified: u64,
    /// The number of lines that the board had seen with the last of the row.
    pub seen_at: u64,
}

/// What a row holds.
pub struct RowView {
    pub cluster: usize,
    pub template: Seq<char>,
    pub route: Route,
    pub attention: Score,
    pub verdict: VerdictView,
    pub count: nat,
    pub example: Seq<char>,
    pub unnotified: nat,
    pub seen_at: nat,
}

impl View for Row {
    type V = RowView;

    open spec fn view(&self) -> RowView {
        RowView {
            cluster: self.cluster,
            template: self.template@,
            route: self.route,
            attention: self.attention,
            verdict: self.verdict@,
            count: self.count as nat,
            example: self.example@,
            unnotified: self.unnotified as nat,
            seen_at: self.seen_at as nat,
        }
    }
}

impl Row {
    /// A copy of the row.
    pub fn copy(&self) -> (copy: Row)
        ensures
            copy@ == self@,
    {
        Row {
            cluster: self.cluster,
            template: self.template.clone(),
            route: self.route,
            attention: self.attention,
            verdict: self.verdict.clone(),
            count: self.count,
            example: self.example.clone(),
            unnotified: self.unnotified,
            seen_at: self.seen_at,
        }
    }
}

/// The row of a cluster after `line` came in as the line with the number
/// `now`. The last line to page for is the example, or else the first line.
pub open spec fn row_after(rows: Map<usize, RowView>, now: nat, line: Seq<char>, t: TriagedView) -> RowView {
    let known = rows.contains_key(t.cluster);
    let row = rows[t.cluster];
    let paged = t.route == Route::Page;
    RowView {
        cluster: t.cluster,
        template: t.template,
        route: t.route,
        attention: t.verdict.attention,
        verdict: t.verdict,
        count: if known {
            row.count + 1
        } else {
            1
        },
        example: if known && !paged {
            row.example
        } else {
            line
        },
        unnotified: (if known {
            row.unnotified
        } else {
            0
        }) + (if paged {
            1nat
        } else {
            0
        }),
        seen_at: now,
    }
}

/// The rows after the first `n` of the lines came in, of which the first has
/// the number `tick + 1`.
pub open spec fn rows_after(
    rows: Map<usize, RowView>,
    tick: nat,
    lines: Seq<Seq<char>>,
    triaged: Seq<TriagedView>,
    n: nat,
) -> Map<usize, RowView>
    decreases n,
{
    if n == 0 {
        rows
    } else {
        let before = rows_after(rows, tick, lines, triaged, (n - 1) as nat);
        before.insert(
            triaged[n - 1].cluster,
            row_after(before, tick + n, lines[n - 1], triaged[n - 1]),
        )
    }
}

/// The number of lines that were triaged.
pub open spec fn line_count(lines: Seq<Seq<char>>, triaged: Seq<TriagedView>) -> nat {
    if lines.len() <= triaged.len() {
        lines.len()
    } else {
        triaged.len()
    }
}

/// The clusters that a line came in of after the last of `cluster`.
pub open spec fn newer(rows: Map<usize, RowView>, cluster: usize) -> Set<usize> {
    rows.dom().filter(|other: usize| rows[other].seen_at > rows[cluster].seen_at)
}

/// Whether the row of `cluster` stays when `keep` rows are to be left: it is
/// among the `keep` newest, or an alert is still to tell of it.
pub open spec fn stays(rows: Map<usize, RowView>, keep: nat, cluster: usize) -> bool {
    rows[cluster].unnotified > 0 || newer(rows, cluster).len() < keep
}

/// The rows that stay when `keep` rows are to be left.
pub open spec fn rows_left(rows: Map<usize, RowView>, keep: nat) -> Map<usize, RowView> {
    Map::new(
        |cluster: usize| rows.contains_key(cluster) && stays(rows, keep, cluster),
        |cluster: usize| rows[cluster],
    )
}

/// The rows after a batch came in: the oldest are dropped if there are too many.
pub open spec fn board_after(
    rows: Map<usize, RowView>,
    tick: nat,
    lines: Seq<Seq<char>>,
    triaged: Seq<TriagedView>,
) -> Map<usize, RowView> {
    let all = rows_after(rows, tick, lines, triaged, line_count(lines, triaged));
    if all.len() > MAX_ROWS {
        rows_left(all, KEPT_ROWS as nat)
    } else {
        all
    }
}

/// Whether the last alert of `cluster` is not more recent than the cooldown,
/// where `told_at` has the times of the last alerts.
pub open spec fn has_waited(
    told_at: Map<usize, u128>,
    cluster: usize,
    now: u128,
    cooldown: u128,
) -> bool {
    told_at.contains_key(cluster) ==> now - told_at[cluster] >= cooldown || cooldown == 0
}

/// Whether an alert is due for `cluster`: there is something to tell, and the
/// cluster has waited or does not have to.
pub open spec fn is_due(
    rows: Map<usize, RowView>,
    told_at: Map<usize, u128>,
    cluster: usize,
    now: u128,
    cooldown: u128,
    force: bool,
) -> bool {
    &&& rows.contains_key(cluster)
    &&& rows[cluster].unnotified > 0
    &&& force || has_waited(told_at, cluster, now, cooldown)
}

/// The rows after all alerts that are due were raised.
pub open spec fn rows_notified(
    rows: Map<usize, RowView>,
    told_at: Map<usize, u128>,
    now: u128,
    cooldown: u128,
    force: bool,
) -> Map<usize, RowView> {
    Map::new(
        |cluster: usize| rows.contains_key(cluster),
        |cluster: usize|
            if is_due(rows, told_at, cluster, now, cooldown, force) {
                RowView { unnotified: 0, ..rows[cluster] }
            } else {
                rows[cluster]
            },
    )
}

/// The times of the last alerts after all that are due were raised. The time of
/// a cluster without a row is forgotten once the cluster has waited.
pub open spec fn times_after(
    rows: Map<usize, RowView>,
    told_at: Map<usize, u128>,
    now: u128,
    cooldown: u128,
    force: bool,
) -> Map<usize, u128> {
    Map::new(
        |cluster: usize|
            is_due(rows, told_at, cluster, now, cooldown, force) || (told_at.contains_key(cluster)
                && (rows.contains_key(cluster) || !has_waited(told_at, cluster, now, cooldown))),
        |cluster: usize|
            if is_due(rows, told_at, cluster, now, cooldown, force) {
                now
            } else {
                told_at[cluster]
            },
    )
}

/// The board of clusters, with one row for each. The times of the last alerts
/// are kept apart from the rows, so that they outlast rows that are dropped.
pub struct Board {
    rows: Vec<Row>,
    places: HashMap<usize, usize>,
    told: HashMap<usize, u128>,
    tick: u64,
}

impl Board {
    /// Whether each cluster has one row, found by its place, and the numbers of
    /// the lines are those of lines that came in.
    pub closed spec fn well_formed(self) -> bool {
        &&& forall|i: int|
            0 <= i < self.rows@.len() ==> self.places@.contains_key((#[trigger] self.rows@[i]).cluster)
                && self.places@[self.rows@[i].cluster] == i
        &&& forall|cluster: usize| #[trigger]
            self.places@.contains_key(cluster) ==> self.places@[cluster] < self.rows@.len()
                && self.rows@[self.places@[cluster] as int].cluster == cluster
        &&& forall|i: int|
            0 <= i < self.rows@.len() ==> (#[trigger] self.rows@[i]).unnotified
                <= self.rows@[i].count <= self.tick && self.rows@[i].seen_at <= self.tick
        &&& forall|i: int, j: int|
            0 <= i < j < self.rows@.len() ==> (#[trigger] self.rows@[i]).seen_at != (
            #[trigger] self.rows@[j]).seen_at
    }

    /// The row of each cluster.
    pub closed spec fn table(self) -> Map<usize, RowView> {
        Map::new(
            |cluster: usize| self.places@.contains_key(cluster),
            |cluster: usize| self.rows@[self.places@[cluster] as int]@,
        )
    }

    /// When the last alert of each cluster was raised, in nanoseconds.
    pub closed spec fn told_at(self) -> Map<usize, u128> {
        self.told@
    }

    /// The number of lines that came in.
    pub closed spec fn ticks(self) -> nat {
        self.tick as nat
    }
}

impl Default for Board {
    /// A board without rows.
    fn default() -> (board: Board)
        ensures
            board.well_formed(),
            board.table() == Map::<usize, RowView>::empty(),
            board.told_at() == Map::<usize, u128>::empty(),
            board.ticks() == 0,
    {
        broadcast use vstd::std_specs::hash::group_hash_axioms;

        let board = Board {
            rows: Vec::new(),
            places: HashMap::new(),
            told: HashMap::new(),
            tick: 0,
        };
        assert(board.table() == Map::<usize, RowView>::empty());
        board
    }
}

impl Board {
    /// The number of lines that came in.
    pub fn seen(&self) -> (count: u64)
        ensures
            count == self.ticks(),
    {
        self.tick
    }

    /// Takes in one line.
    fn note(&mut self, line: &String, t: &Triaged)
        requires
            old(self).well_formed(),
            old(self).ticks() < u64::MAX,
        ensures
            final(self).well_formed(),
            final(self).ticks() == old(self).ticks() + 1,
            final(self).told_at() == old(self).told_at(),
            final(self).table() == old(self).table().insert(
                t.cluster,
                row_after(old(self).table(), old(self).ticks() + 1, line@, t@),
            ),
    {
        broadcast use vstd::std_specs::hash::group_hash_axioms;

        let ghost before = self.table();
        self.tick += 1;
        let now: u64 = self.tick;
        let found = match self.places.get(&t.cluster) {
            Some(place) => Some(*place),
            None => None,
        };
        let paged = t.route == Route::Page;
        match found {
            Some(place) => {
                let row = &mut self.rows[place];
                row.template = t.template.clone();
                row.route = t.route;
                row.attention = t.verdict.attention();
                row.verdict = t.verdict.clone();
                row.count = row.count + 1;
                row.seen_at = now;
                if paged {
                    row.unnotified = row.unnotified + 1;
                    row.example = line.clone();
                }
            },
            None => {
                let row = Row {
                    cluster: t.cluster,
                    template: t.template.clone(),
                    route: t.route,
                    attention: t.verdict.attention(),
                    verdict: t.verdict.clone(),
                    count: 1,
                    example: line.clone(),
                    unnotified: if paged {
                        1
                    } else {
                        0
                    },
                    seen_at: now,
                };
                self.places.insert(t.cluster, self.rows.len());
                self.rows.push(row);
            },
        }
        assert(self.table() == before.insert(
            t.cluster,
            row_after(before, now as nat, line@, t@),
        ));
    }

    /// Takes in a batch of lines.
    pub fn record(&mut self, lines: &[String], triaged: &[Triaged])
        requires
            old(self).well_formed(),
            old(self).ticks() + line_count(views(lines@), triaged_views(triaged@)) <= u64::MAX,
        ensures
            final(self).well_formed(),
            final(self).ticks() == old(self).ticks() + line_count(
                views(lines@),
                triaged_views(triaged@),
            ),
            final(self).told_at() == old(self).told_at(),
            final(self).table() == board_after(
                old(self).table(),
                old(self).ticks(),
                views(lines@),
                triaged_views(triaged@),
            ),
            final(self).state() == old(self).state().after(
                (Event::Lines { lines: views(lines@), triaged: triaged_views(triaged@) }),
            ),
    {
        let ghost (texts, marks) = (views(lines@), triaged_views(triaged@));
        let ghost rows = self.table();
        let ghost tick = self.ticks();
        let mut i: usize = 0;
        while i < lines.len() && i < triaged.len()
            invariant
                i <= lines@.len(),
                i <= triaged@.len(),
                texts == views(lines@),
                marks == triaged_views(triaged@),
                tick + line_count(texts, marks) <= u64::MAX,
                self.well_formed(),
                self.ticks() == tick + i,
                self.told_at() == old(self).told_at(),
                self.table() == rows_after(rows, tick, texts, marks, i as nat),
            decreases lines@.len() - i,
        {
            self.note(&lines[i], &triaged[i]);
            proof {
                assert(texts[i as int] == lines@[i as int]@);
                assert(marks[i as int] == triaged@[i as int]@);
            }
            i += 1;
        }
        proof {
            self.lemma_table_size();
        }
        if self.rows.len() > MAX_ROWS {
            self.evict(KEPT_ROWS);
        }
    }

    /// The clusters of the rows, in their order.
    spec fn clusters(self) -> Seq<usize> {
        Seq::new(self.rows@.len(), |i: int| self.rows@[i].cluster)
    }

    /// There are as many rows as clusters.
    proof fn lemma_table_size(self)
        requires
            self.well_formed(),
        ensures
            self.table().dom().finite(),
            self.table().len() == self.rows@.len(),
            self.clusters().no_duplicates(),
            self.clusters().to_set() == self.table().dom(),
    {
        let all = self.clusters();
        assert forall|i: int, j: int| 0 <= i < all.len() && 0 <= j < all.len() && i != j implies all[i]
            != all[j] by {
            assert(self.places@[self.rows@[i].cluster] == i);
            assert(self.places@[self.rows@[j].cluster] == j);
        }
        all.unique_seq_to_set();
        assert(all.to_set() == self.table().dom()) by {
            assert forall|c: usize| #[trigger] all.to_set().contains(c) <==> self.table().dom().contains(
                c,
            ) by {
                if self.table().dom().contains(c) {
                    assert(all[self.places@[c] as int] == c);
                }
                if all.to_set().contains(c) {
                    let i = choose|i: int| 0 <= i < all.len() && all[i] == c;
                    assert(self.rows@[i].cluster == c);
                }
            }
        }
    }

    /// The row at place `i` is the one of its cluster.
    proof fn lemma_row_at(self, i: int)
        requires
            self.well_formed(),
            0 <= i < self.rows@.len(),
        ensures
            self.table().contains_key(self.rows@[i].cluster),
            self.table()[self.rows@[i].cluster] == self.rows@[i]@,
    {
        assert(self.places@.contains_key(self.rows@[i].cluster));
    }

    /// The rows, those with more attention first, and among those the ones with
    /// more lines.
    pub fn snapshot(&self) -> (rows: Vec<Row>)
        requires
            self.well_formed(),
        ensures
            rows@.len() == self.table().len(),
            forall|i: int|
                0 <= i < rows@.len() ==> self.table().contains_key((#[trigger] rows@[i]).cluster)
                    && self.table()[rows@[i].cluster] == rows@[i]@,
            forall|i: int, j: int|
                0 <= i < j < rows@.len() ==> (#[trigger] rows@[i]).cluster != (
                #[trigger] rows@[j]).cluster && shows_before(rows@[i]@, rows@[j]@),
    {
        let mut keys: Vec<(i64, u64)> = Vec::new();
        let mut i: usize = 0;
        while i < self.rows.len()
            invariant
                i <= self.rows@.len(),
                keys@.len() == i,
                forall|k: int|
                    0 <= k < i ==> #[trigger] keys@[k] == (
                        self.rows@[k].attention.total_rank() as i64,
                        self.rows@[k].count,
                    ) && keys@[k].0 == self.rows@[k].attention.total_rank(),
            decreases self.rows@.len() - i,
        {
            keys.push((self.rows[i].attention.total_place(), self.rows[i].count));
            i += 1;
        }
        let order = descending_order(&keys);
        let ghost o = order@;
        proof {
            law_order_lists_each_index_once(o, keys@);
            self.lemma_table_size();
        }
        let mut rows: Vec<Row> = Vec::new();
        let mut k: usize = 0;
        while k < order.len()
            invariant
                k <= o.len() == self.rows@.len(),
                o == order@,
                forall|j: int| 0 <= j < o.len() ==> #[trigger] o[j] < self.rows@.len(),
                rows@.len() == k,
                forall|j: int| 0 <= j < k ==> (#[trigger] rows@[j])@ == self.rows@[o[j] as int]@,
            decreases o.len() - k,
        {
            rows.push(self.rows[order[k]].copy());
            k += 1;
        }
        proof {
            assert forall|i: int| 0 <= i < rows@.len() implies self.table().contains_key(
                (#[trigger] rows@[i]).cluster,
            ) && self.table()[rows@[i].cluster] == rows@[i]@ by {
                assert(rows@[i]@ == self.rows@[o[i] as int]@);
                assert(rows@[i]@.cluster == self.rows@[o[i] as int]@.cluster);
                self.lemma_row_at(o[i] as int);
            }
            assert forall|i: int, j: int| 0 <= i < j < rows@.len() implies (
            #[trigger] rows@[i]).cluster != (#[trigger] rows@[j]).cluster && shows_before(
                rows@[i]@,
                rows@[j]@,
            ) by {
                assert(crate::order::precedes(keys@, o[i], o[j]));
                assert(o[i] != o[j]);
                assert(self.clusters()[o[i] as int] != self.clusters()[o[j] as int]);
                assert(rows@[i]@ == self.rows@[o[i] as int]@);
                assert(rows@[j]@ == self.rows@[o[j] as int]@);
                assert(rows@[i]@.cluster == rows@[i].cluster);
                assert(rows@[j]@.cluster == rows@[j].cluster);
            }
        }
        rows
    }
}

/// Whether `a` may be shown before `b`: it has more attention, or as much and
/// no fewer lines.
pub open spec fn shows_before(a: RowView, b: RowView) -> bool {
    ||| a.attention.total_rank() > b.attention.total_rank()
    ||| a.attention.total_rank() == b.attention.total_rank() && a.count >= b.count
}

impl Board {
    /// Drops the rows that were last seen before `cutoff`, unless an alert is
    /// still to tell of them.
    fn retain(&mut self, cutoff: u64)
        requires
            old(self).well_formed(),
        ensures
            final(self).well_formed(),
            final(self).ticks() == old(self).ticks(),
            final(self).told_at() == old(self).told_at(),
            forall|c: usize| #[trigger]
                final(self).table().contains_key(c) <==> old(self).table().contains_key(c) && (
                old(self).table()[c].seen_at >= cutoff || old(self).table()[c].unnotified > 0),
            forall|c: usize| #[trigger]
                final(self).table().contains_key(c) ==> final(self).table()[c] == old(
                    self,
                ).table()[c],
    {
        broadcast use vstd::std_specs::hash::group_hash_axioms;

        let ghost all = self.rows@;
        let mut rows: Vec<Row> = Vec::new();
        let mut places: HashMap<usize, usize> = HashMap::new();
        while self.rows.len() > 0
            invariant
                old(self).well_formed(),
                all == old(self).rows@,
                self.tick == old(self).tick,
                self.told == old(self).told,
                self.rows@.len() <= all.len(),
                self.rows@ == all.take(self.rows@.len() as int),
                forall|j: int|
                    0 <= j < rows@.len() ==> places@.contains_key((#[trigger] rows@[j]).cluster)
                        && places@[rows@[j].cluster] == j,
                forall|c: usize| #[trigger]
                    places@.contains_key(c) ==> places@[c] < rows@.len()
                        && rows@[places@[c] as int].cluster == c,
                forall|j: int|
                    0 <= j < rows@.len() ==> old(self).places@.contains_key(
                        (#[trigger] rows@[j]).cluster,
                    ) && self.rows@.len() <= old(self).places@[rows@[j].cluster] && rows@[j]
                        == all[old(self).places@[rows@[j].cluster] as int] && (rows@[j].seen_at
                        >= cutoff || rows@[j].unnotified > 0),
                forall|i: int|
                    self.rows@.len() <= i < all.len() && ((#[trigger] all[i]).seen_at >= cutoff
                        || all[i].unnotified > 0) ==> places@.contains_key(all[i].cluster),
            decreases self.rows@.len(),
        {
            let ghost before = self.rows@.len() as int;
            let row = self.rows.pop().unwrap();
            assert(row == all[before - 1]);
            assert(old(self).places@[row.cluster] == before - 1);
            if row.seen_at >= cutoff || row.unnotified > 0 {
                assert(!places@.contains_key(row.cluster));
                places.insert(row.cluster, rows.len());
                rows.push(row);
            }
        }
        self.rows = rows;
        self.places = places;
    }

    /// The rows with a line as new as that of the `keep`-th newest are those
    /// that have fewer than `keep` newer ones.
    proof fn lemma_cutoff(self, keys: Seq<(i64, u64)>, order: Seq<usize>, keep: int, i: int)
        requires
            self.well_formed(),
            keys.len() == self.rows@.len() <= usize::MAX,
            forall|k: int| 0 <= k < keys.len() ==> #[trigger] keys[k] == (0i64, self.rows@[k].seen_at),
            is_descending_order(order, keys),
            0 < keep <= order.len(),
            0 <= i < self.rows@.len(),
        ensures
            newer(self.table(), self.rows@[i].cluster).finite(),
            newer(self.table(), self.rows@[i].cluster).len() < keep <==> self.rows@[i].seen_at
                >= self.rows@[order[keep - 1] as int].seen_at,
    {
        let rows = self.rows@;
        let table = self.table();
        let set = newer(table, rows[i].cluster);
        let cutoff = rows[order[keep - 1] as int].seen_at;
        self.lemma_table_size();
        self.lemma_row_at(i);
        law_order_lists_each_index_once(order, keys);
        assert(set.subset_of(table.dom()));
        vstd::set_lib::lemma_len_subset(set, table.dom());
        let first = Seq::new(keep as nat, |j: int| rows[order[j] as int].cluster);
        assert forall|a: int, b: int| 0 <= a < first.len() && 0 <= b < first.len() && a != b implies first[a]
            != first[b] by {
            assert(order[a] != order[b]);
            assert(self.clusters()[order[a] as int] != self.clusters()[order[b] as int]);
        }
        first.unique_seq_to_set();
        assert forall|j: int, k: int| 0 <= j <= k < order.len() implies rows[#[trigger] order[j] as int].seen_at
            >= rows[#[trigger] order[k] as int].seen_at by {
            if j < k {
                assert(crate::order::precedes(keys, order[j], order[k]));
            }
            assert(keys[order[j] as int].1 == rows[order[j] as int].seen_at);
            assert(keys[order[k] as int].1 == rows[order[k] as int].seen_at);
        }
        if rows[i].seen_at >= cutoff {
            let last = first.last();
            let others = first.to_set().remove(last);
            assert(first[keep - 1] == last);
            assert(first.to_set().contains(last));
            assert forall|c: usize| set.contains(c) implies #[trigger] others.contains(c) by {
                let place = self.places@[c] as int;
                assert(table[c] == rows[place]@);
                assert(order.contains(place as usize));
                let j = choose|j: int| 0 <= j < order.len() && order[j] == place as usize;
                if j >= keep - 1 {
                    assert(rows[order[keep - 1] as int].seen_at >= rows[order[j] as int].seen_at);
                }
                assert(first[j] == c);
            }
            vstd::set_lib::lemma_len_subset(set, others);
        } else {
            assert forall|c: usize| first.to_set().contains(c) implies #[trigger] set.contains(c) by {
                let j = choose|j: int| 0 <= j < first.len() && first[j] == c;
                assert(rows[order[j] as int].seen_at >= rows[order[keep - 1] as int].seen_at);
                self.lemma_row_at(order[j] as int);
            }
            vstd::set_lib::lemma_len_subset(first.to_set(), set);
        }
    }

    /// Drops all rows but the `keep` newest and those that an alert is still to
    /// tell of.
    pub fn evict(&mut self, keep: usize)
        requires
            old(self).well_formed(),
            keep > 0,
        ensures
            final(self).well_formed(),
            final(self).ticks() == old(self).ticks(),
            final(self).told_at() == old(self).told_at(),
            final(self).table() == rows_left(old(self).table(), keep as nat),
            final(self).state() == old(self).state().after((Event::Eviction { keep: keep as nat })),
    {
        let ghost table = self.table();
        if self.rows.len() < keep {
            proof {
                self.lemma_table_size();
                assert forall|c: usize| table.contains_key(c) implies #[trigger] stays(
                    table,
                    keep as nat,
                    c,
                ) by {
                    assert(newer(table, c).subset_of(table.dom().remove(c)));
                    vstd::set_lib::lemma_len_subset(newer(table, c), table.dom().remove(c));
                }
                assert(rows_left(table, keep as nat) == table);
            }
            return;
        }
        let mut keys: Vec<(i64, u64)> = Vec::new();
        let mut i: usize = 0;
        while i < self.rows.len()
            invariant
                i <= self.rows@.len(),
                keys@.len() == i,
                forall|k: int| 0 <= k < i ==> #[trigger] keys@[k] == (0i64, self.rows@[k].seen_at),
            decreases self.rows@.len() - i,
        {
            keys.push((0, self.rows[i].seen_at));
            i += 1;
        }
        let order = descending_order(&keys);
        let cutoff: u64 = self.rows[order[keep - 1]].seen_at;
        proof {
            assert forall|c: usize| table.contains_key(c) implies (#[trigger] stays(
                table,
                keep as nat,
                c,
            ) <==> table[c].seen_at >= cutoff || table[c].unnotified > 0) by {
                let place = self.places@[c] as int;
                self.lemma_cutoff(keys@, order@, keep as int, place);
                self.lemma_row_at(place);
            }
        }
        self.retain(cutoff);
        assert(self.table() == rows_left(table, keep as nat));
    }
}

/// What to tell of a cluster.
#[derive(Debug)]
pub struct Alert {
    pub cluster: usize,
    pub template: Arc<str>,
    pub example: String,
    /// The lines that came in since the last alert.
    pub count: u64,
    pub attention: Score,
    pub verdict: Arc<Verdict>,
}

/// What an alert holds.
pub struct AlertView {
    pub cluster: usize,
    pub template: Seq<char>,
    pub example: Seq<char>,
    pub count: nat,
    pub attention: Score,
    pub verdict: VerdictView,
}

impl View for Alert {
    type V = AlertView;

    open spec fn view(&self) -> AlertView {
        AlertView {
            cluster: self.cluster,
            template: self.template@,
            example: self.example@,
            count: self.count as nat,
            attention: self.attention,
            verdict: self.verdict@,
        }
    }
}

/// The alert that tells of `row`.
pub open spec fn alert_of(row: RowView) -> AlertView {
    AlertView {
        cluster: row.cluster,
        template: row.template,
        example: row.example,
        count: row.unnotified,
        attention: row.attention,
        verdict: row.verdict,
    }
}

/// Whether `alerts` tell of each cluster that is due, once, and of no other.
pub open spec fn are_alerts(
    alerts: Seq<Alert>,
    rows: Map<usize, RowView>,
    told_at: Map<usize, u128>,
    now: u128,
    cooldown: u128,
    force: bool,
) -> bool {
    &&& forall|k: int|
        0 <= k < alerts.len() ==> is_due(
            rows,
            told_at,
            (#[trigger] alerts[k]).cluster,
            now,
            cooldown,
            force,
        ) && alerts[k]@ == alert_of(rows[alerts[k].cluster])
    &&& forall|k: int, l: int|
        0 <= k < l < alerts.len() ==> (#[trigger] alerts[k]).cluster != (
        #[trigger] alerts[l]).cluster
    &&& forall|c: usize| #[trigger]
        is_due(rows, told_at, c, now, cooldown, force) ==> exists|k: int|
            0 <= k < alerts.len() && (#[trigger] alerts[k]).cluster == c
}

/// Whether the last alert of `cluster` is not more recent than the cooldown.
fn waited(told: &HashMap<usize, u128>, cluster: usize, now: u128, cooldown: u128) -> (waited: bool)
    ensures
        waited == has_waited(told@, cluster, now, cooldown),
{
    broadcast use vstd::std_specs::hash::group_hash_axioms;

    match told.get(&cluster) {
        Some(at) => {
            let passed: u128 = if now >= *at {
                now - *at
            } else {
                0
            };
            passed >= cooldown
        },
        None => true,
    }
}

impl Board {
    /// Forgets the times of clusters that have waited and have no row.
    fn forget(&mut self, now: u128, cooldown: u128)
        requires
            old(self).well_formed(),
        ensures
            final(self).well_formed(),
            final(self).ticks() == old(self).ticks(),
            final(self).table() == old(self).table(),
            forall|c: usize| #[trigger]
                final(self).told_at().contains_key(c) <==> old(self).told_at().contains_key(c) && (
                old(self).table().contains_key(c) || !has_waited(
                    old(self).told_at(),
                    c,
                    now,
                    cooldown,
                )),
            forall|c: usize| #[trigger]
                final(self).told_at().contains_key(c) ==> final(self).told_at()[c] == old(
                    self,
                ).told_at()[c],
    {
        broadcast use vstd::std_specs::hash::group_hash_axioms;

        let mut kept: HashMap<usize, u128> = HashMap::new();
        let ghost all = self.told@;
        for key in it: self.told.keys()
            invariant
                all == self.told@,
                it.seq().unref().to_set() == all.dom(),
                forall|c: usize| #[trigger]
                    kept@.contains_key(c) ==> all.contains_key(c) && kept@[c] == all[c] && (
                    self.places@.contains_key(c) || !has_waited(all, c, now, cooldown)),
                forall|j: int|
                    0 <= j < it.index() && (self.places@.contains_key(*#[trigger] it.seq()[j])
                        || !has_waited(all, *it.seq()[j], now, cooldown)) ==> kept@.contains_key(
                        *it.seq()[j],
                    ),
        {
            assert(it.seq().unref()[it.index()] == *key);
            assert(it.seq().unref().to_set().contains(*key));
            if let Some(at) = self.told.get(key) {
                if self.places.contains_key(key) || !waited(&self.told, *key, now, cooldown) {
                    kept.insert(*key, *at);
                }
            }
        }
        self.told = kept;
        assert(self.table() == old(self).table());
    }

    /// The alerts that are due at `now`, all times in nanoseconds. If `force`,
    /// the cooldown does not hold any back.
    pub fn due(&mut self, now: u128, cooldown: u128, force: bool) -> (alerts: Vec<Alert>)
        requires
            old(self).well_formed(),
        ensures
            final(self).well_formed(),
            final(self).ticks() == old(self).ticks(),
            final(self).table() == rows_notified(
                old(self).table(),
                old(self).told_at(),
                now,
                cooldown,
                force,
            ),
            final(self).told_at() == times_after(
                old(self).table(),
                old(self).told_at(),
                now,
                cooldown,
                force,
            ),
            are_alerts(alerts@, old(self).table(), old(self).told_at(), now, cooldown, force),
            final(self).state() == old(self).state().after((Event::Look { now, cooldown, force })),
    {
        broadcast use vstd::std_specs::hash::group_hash_axioms;

        let ghost all = self.rows@;
        let ghost rows = self.table();
        let ghost times = self.told_at();
        let mut alerts: Vec<Alert> = Vec::new();
        let mut i: usize = 0;
        while i < self.rows.len()
            invariant
                i <= self.rows@.len() == all.len(),
                self.places == old(self).places,
                self.tick == old(self).tick,
                old(self).well_formed(),
                all == old(self).rows@,
                rows == old(self).table(),
                times == old(self).told_at(),
                forall|j: int| i <= j < all.len() ==> #[trigger] self.rows@[j] == all[j],
                forall|j: int|
                    0 <= j < i ==> (#[trigger] self.rows@[j])@ == (if is_due(
                        rows,
                        times,
                        all[j].cluster,
                        now,
                        cooldown,
                        force,
                    ) {
                        RowView { unnotified: 0, ..all[j]@ }
                    } else {
                        all[j]@
                    }),
                forall|c: usize| #[trigger]
                    self.told@.contains_key(c) <==> times.contains_key(c) || (
                    old(self).places@.contains_key(c) && old(self).places@[c] < i && is_due(
                        rows,
                        times,
                        c,
                        now,
                        cooldown,
                        force,
                    )),
                forall|c: usize| #[trigger]
                    self.told@.contains_key(c) ==> self.told@[c] == (if old(
                        self,
                    ).places@.contains_key(c) && old(self).places@[c] < i && is_due(
                        rows,
                        times,
                        c,
                        now,
                        cooldown,
                        force,
                    ) {
                        now
                    } else {
                        times[c]
                    }),
                forall|k: int|
                    0 <= k < alerts@.len() ==> old(self).places@.contains_key(
                        (#[trigger] alerts@[k]).cluster,
                    ) && old(self).places@[alerts@[k].cluster] < i,
                forall|k: int|
                    0 <= k < alerts@.len() ==> is_due(
                        rows,
                        times,
                        (#[trigger] alerts@[k]).cluster,
                        now,
                        cooldown,
                        force,
                    ) && alerts@[k]@ == alert_of(rows[alerts@[k].cluster]),
                forall|k: int, l: int|
                    0 <= k < l < alerts@.len() ==> (#[trigger] alerts@[k]).cluster != (
                    #[trigger] alerts@[l]).cluster,
                forall|j: int|
                    0 <= j < i && is_due(
                        rows,
                        times,
                        (#[trigger] all[j]).cluster,
                        now,
                        cooldown,
                        force,
                    ) ==> has_alert(alerts@, all[j].cluster),
            decreases self.rows@.len() - i,
        {
            let ghost told = alerts@;
            proof {
                old(self).lemma_row_at(i as int);
                assert(old(self).places@[all[i as int].cluster] == i);
                assert(self.told@.contains_key(all[i as int].cluster) <==> times.contains_key(
                    all[i as int].cluster,
                ));
            }
            let cluster: usize = self.rows[i].cluster;
            if self.rows[i].unnotified > 0 && (force || waited(&self.told, cluster, now, cooldown)) {
                let row = &mut self.rows[i];
                alerts.push(
                    Alert {
                        cluster,
                        template: row.template.clone(),
                        example: row.example.clone(),
                        count: row.unnotified,
                        attention: row.attention,
                        verdict: row.verdict.clone(),
                    },
                );
                row.unnotified = 0;
                self.told.insert(cluster, now);
            }
            proof {
                assert forall|j: int| 0 <= j < i + 1 && is_due(
                    rows,
                    times,
                    (#[trigger] all[j]).cluster,
                    now,
                    cooldown,
                    force,
                ) implies has_alert(alerts@, all[j].cluster) by {
                    if j < i {
                        let k = choose|k: int|
                            0 <= k < told.len() && (#[trigger] told[k]).cluster == all[j].cluster;
                        assert(alerts@[k].cluster == all[j].cluster);
                    } else {
                        assert(alerts@[alerts@.len() - 1].cluster == all[j].cluster);
                    }
                }
                assert forall|c: usize|
                    old(self).places@.contains_key(c) && old(self).places@[c] == i implies c
                    == cluster by {
                    assert(all[i as int].cluster == c);
                }
            }
            i += 1;
        }
        proof {
            assert forall|j: int| 0 <= j < all.len() implies (#[trigger] self.rows@[j]).cluster
                == all[j].cluster && self.rows@[j].seen_at == all[j].seen_at && self.rows@[j].count
                == all[j].count && self.rows@[j].unnotified <= all[j].unnotified by {
                let view = self.rows@[j]@;
                assert(view.cluster == all[j]@.cluster && view.seen_at == all[j]@.seen_at
                    && view.count == all[j]@.count && view.unnotified <= all[j]@.unnotified);
            }
            assert forall|c: usize| #[trigger] rows.contains_key(c) implies self.table()[c] == (
            if is_due(rows, times, c, now, cooldown, force) {
                RowView { unnotified: 0, ..rows[c] }
            } else {
                rows[c]
            }) by {
                let place = old(self).places@[c] as int;
                assert(all[place].cluster == c);
                assert(self.rows@[place]@ == self.table()[c]);
            }
            assert(self.table() == rows_notified(rows, times, now, cooldown, force));
            assert forall|c: usize| #[trigger]
                is_due(rows, times, c, now, cooldown, force) implies exists|k: int|
                0 <= k < alerts@.len() && (#[trigger] alerts@[k]).cluster == c by {
                let place = old(self).places@[c] as int;
                assert(all[place].cluster == c);
                assert(has_alert(alerts@, c));
            }
        }
        let ghost raised = self.told_at();
        self.forget(now, cooldown);
        proof {
            let after = times_after(rows, times, now, cooldown, force);
            assert forall|c: usize| #[trigger] self.told_at().contains_key(c)
                <==> after.contains_key(c) by {
                assert(raised.contains_key(c) <==> times.contains_key(c) || is_due(
                    rows,
                    times,
                    c,
                    now,
                    cooldown,
                    force,
                ));
            }
            assert forall|c: usize| #[trigger] self.told_at().contains_key(c) implies self.told_at()[c]
                == after[c] by {
                assert(raised.contains_key(c));
            }
            assert(self.told_at() == after);
        }
        alerts
    }
}

/// Whether one of `alerts` tells of `cluster`.
spec fn has_alert(alerts: Seq<Alert>, cluster: usize) -> bool {
    exists|k: int| 0 <= k < alerts.len() && (#[trigger] alerts[k]).cluster == cluster
}

/// The text of an alert, in which `attention` and `severity` are the scores as
/// they are printed.
pub open spec fn alert_text(alert: AlertView, attention: Seq<char>, severity: Seq<char>) -> Seq<
    char,
> {
    crate::NAME@ + " · "@ + alert.verdict.area + " · attention="@ + attention + " severity="@
        + severity + " · "@ + decimal_text(alert.count) + " new occurrence(s)\n"@ + alert.template
}

impl Alert {
    /// The text of the alert, in which `attention` and `severity` are its
    /// scores as they are printed.
    pub fn text(&self, attention: &str, severity: &str) -> (text: String)
        ensures
            text@ == alert_text(self@, attention@, severity@),
    {
        let mut text = String::new();
        text.append(crate::NAME);
        text.append(" · ");
        text.append(self.verdict.area.as_str());
        text.append(" · attention=");
        text.append(attention);
        text.append(" severity=");
        text.append(severity);
        text.append(" · ");
        text.append(decimal(self.count).as_str());
        text.append(" new occurrence(s)\n");
        text.append(&self.template);
        text
    }
}

/// `s` with dots in place of line feeds.
pub open spec fn on_one_line(s: Seq<char>) -> Seq<char>
    decreases s.len(),
{
    if s.len() == 0 {
        Seq::empty()
    } else if s.last() == '\n' {
        on_one_line(s.drop_last()) + " · "@
    } else {
        on_one_line(s.drop_last()).push(s.last())
    }
}

/// `text` with dots in place of line feeds.
pub fn one_line(text: &str) -> (line: String)
    ensures
        line@ == on_one_line(text@),
{
    let chars = chars_of(text);
    let mut line = String::new();
    let mut i: usize = 0;
    while i < chars.len()
        invariant
            i <= chars@.len(),
            chars@ == text@,
            line@ == on_one_line(text@.take(i as int)),
        decreases chars@.len() - i,
    {
        assert(text@.take(i + 1).drop_last() == text@.take(i as int));
        if chars[i] == '\n' {
            line.append(" · ");
        } else {
            line.push(chars[i]);
        }
        i += 1;
    }
    assert(text@.take(text@.len() as int) == text@);
    line
}

/// How often an alert is sent before it is given up.
pub const ATTEMPTS: u32 = 4;

/// What to do about an alert that could not be delivered.
#[derive(Debug, Clone, Copy, PartialEq, Eq, Structural)]
pub enum Delivery {
    /// Send it again after so many seconds.
    Retry { seconds: u64 },
    GiveUp,
}

/// Whether a delivery that failed with `status`, if there was an answer at
/// all, may succeed later.
pub open spec fn is_transient(status: Option<u16>) -> bool {
    match status {
        Some(code) => 500 <= code <= 599 || code == 429,
        None => true,
    }
}

/// What to do after the delivery `attempt`, counted from one, failed with
/// `status`. The pause doubles with each attempt.
pub fn after_failure(attempt: u32, status: Option<u16>) -> (delivery: Delivery)
    requires
        1 <= attempt,
    ensures
        delivery == (if is_transient(status) && attempt < ATTEMPTS {
            Delivery::Retry { seconds: pow2((attempt - 1) as nat) as u64 }
        } else {
            Delivery::GiveUp
        }),
{
    let transient = match status {
        Some(code) => (500 <= code && code <= 599) || code == 429,
        None => true,
    };
    if !transient || attempt >= ATTEMPTS {
        return Delivery::GiveUp;
    }
    proof {
        vstd::arithmetic::power2::lemma2_to64();
    }
    Delivery::Retry {
        seconds: if attempt == 1 {
            1
        } else if attempt == 2 {
            2
        } else {
            4
        },
    }
}

/// The lines among the first `n` that belong to `cluster`.
pub open spec fn lines_in(triaged: Seq<TriagedView>, cluster: usize, n: nat) -> nat
    decreases n,
{
    if n == 0 {
        0
    } else {
        lines_in(triaged, cluster, (n - 1) as nat) + (if triaged[n - 1].cluster == cluster {
            1nat
        } else {
            0
        })
    }
}

/// The lines among the first `n` that belong to `cluster` and are to be paged
/// for.
pub open spec fn pages_in(triaged: Seq<TriagedView>, cluster: usize, n: nat) -> nat
    decreases n,
{
    if n == 0 {
        0
    } else {
        pages_in(triaged, cluster, (n - 1) as nat) + (if triaged[n - 1].cluster == cluster
            && triaged[n - 1].route == Route::Page {
            1nat
        } else {
            0
        })
    }
}

/// The lines that the row of `cluster` counts, if there is one.
pub open spec fn counted(rows: Map<usize, RowView>, cluster: usize) -> nat {
    if rows.contains_key(cluster) {
        rows[cluster].count
    } else {
        0
    }
}

/// The lines of `cluster` that an alert is still to tell of.
pub open spec fn pending(rows: Map<usize, RowView>, cluster: usize) -> nat {
    if rows.contains_key(cluster) {
        rows[cluster].unnotified
    } else {
        0
    }
}

/// Each line is counted in the row of its cluster and in no other, and each
/// line to page for is pending there.
pub proof fn law_each_line_counts_once(
    rows: Map<usize, RowView>,
    tick: nat,
    lines: Seq<Seq<char>>,
    triaged: Seq<TriagedView>,
    n: nat,
    cluster: usize,
)
    ensures
        counted(rows_after(rows, tick, lines, triaged, n), cluster) == counted(rows, cluster)
            + lines_in(triaged, cluster, n),
        pending(rows_after(rows, tick, lines, triaged, n), cluster) == pending(rows, cluster)
            + pages_in(triaged, cluster, n),
    decreases n,
{
    if n > 0 {
        law_each_line_counts_once(rows, tick, lines, triaged, (n - 1) as nat, cluster);
    }
}

/// No line to page for is lost: dropping old rows leaves all that is pending.
pub proof fn law_eviction_loses_no_page(rows: Map<usize, RowView>, keep: nat, cluster: usize)
    ensures
        pending(rows_left(rows, keep), cluster) == pending(rows, cluster),
{
}

/// Whether no two rows were last seen with the same line.
pub open spec fn seen_apart(rows: Map<usize, RowView>) -> bool {
    forall|a: usize, b: usize|
        rows.contains_key(a) && rows.contains_key(b) && a != b ==> (#[trigger] rows[a]).seen_at != (
        #[trigger] rows[b]).seen_at
}

/// The rows of a board are finitely many, and no two were last seen with the
/// same line.
pub proof fn law_board_rows_are_seen_apart(board: Board)
    requires
        board.well_formed(),
    ensures
        board.table().dom().finite(),
        seen_apart(board.table()),
{
    board.lemma_table_size();
    let rows = board.table();
    assert forall|a: usize, b: usize|
        rows.contains_key(a) && rows.contains_key(b) && a != b implies (#[trigger] rows[a]).seen_at
        != (#[trigger] rows[b]).seen_at by {
        let (i, j) = (board.places@[a] as int, board.places@[b] as int);
        assert(board.rows@[i].cluster == a);
        assert(board.rows@[j].cluster == b);
        if i < j {
            assert(board.rows@[i].seen_at != board.rows@[j].seen_at);
        } else {
            assert(board.rows@[j].seen_at != board.rows@[i].seen_at);
        }
    }
}

/// The member of a set of clusters that was seen first.
proof fn lemma_oldest(rows: Map<usize, RowView>, set: Set<usize>) -> (oldest: usize)
    requires
        set.finite(),
        set.len() > 0,
    ensures
        set.contains(oldest),
        forall|c: usize| #[trigger] set.contains(c) ==> rows[oldest].seen_at <= rows[c].seen_at,
    decreases set.len(),
{
    let one = set.choose();
    let rest = set.remove(one);
    if rest.len() == 0 {
        assert forall|c: usize| #[trigger] set.contains(c) implies rows[one].seen_at
            <= rows[c].seen_at by {
            if c != one {
                assert(rest.contains(c));
            }
        }
        one
    } else {
        let other = lemma_oldest(rows, rest);
        let oldest = if rows[one].seen_at <= rows[other].seen_at {
            one
        } else {
            other
        };
        assert forall|c: usize| #[trigger] set.contains(c) implies rows[oldest].seen_at
            <= rows[c].seen_at by {
            if c != one {
                assert(rest.contains(c));
            }
        }
        oldest
    }
}

/// Of the rows that nothing is pending of, at most `keep` stay.
pub proof fn law_eviction_bounds_the_board(rows: Map<usize, RowView>, keep: nat)
    requires
        rows.dom().finite(),
        seen_apart(rows),
        keep > 0,
    ensures
        rows_left(rows, keep).dom().filter(|c: usize| rows[c].unnotified == 0).len() <= keep,
{
    let quiet = rows_left(rows, keep).dom().filter(|c: usize| rows[c].unnotified == 0);
    assert(quiet.subset_of(rows.dom()));
    vstd::set_lib::lemma_len_subset(quiet, rows.dom());
    if quiet.len() > 0 {
        let oldest = lemma_oldest(rows, quiet);
        assert(stays(rows, keep, oldest));
        let set = newer(rows, oldest);
        assert(set.subset_of(rows.dom()));
        vstd::set_lib::lemma_len_subset(set, rows.dom());
        assert forall|c: usize| quiet.remove(oldest).contains(c) implies #[trigger] set.contains(
            c,
        ) by {
            assert(quiet.contains(c));
            assert(rows[c].seen_at != rows[oldest].seen_at);
        }
        vstd::set_lib::lemma_len_subset(quiet.remove(oldest), set);
    }
}

/// What a board holds.
pub struct BoardState {
    pub rows: Map<usize, RowView>,
    pub told_at: Map<usize, u128>,
    pub ticks: nat,
}

impl Board {
    /// What the board holds.
    pub open spec fn state(self) -> BoardState {
        BoardState { rows: self.table(), told_at: self.told_at(), ticks: self.ticks() }
    }
}

/// What can happen to a board.
pub enum Event {
    /// `Board::record` takes in lines.
    Lines { lines: Seq<Seq<char>>, triaged: Seq<TriagedView> },
    /// `Board::evict` drops old rows.
    Eviction { keep: nat },
    /// `Board::due` looks for alerts.
    Look { now: u128, cooldown: u128, force: bool },
}

impl BoardState {
    /// The board after `event`.
    pub open spec fn after(self, event: Event) -> BoardState {
        match event {
            Event::Lines { lines, triaged } => BoardState {
                rows: board_after(self.rows, self.ticks, lines, triaged),
                ticks: self.ticks + line_count(lines, triaged),
                ..self
            },
            Event::Eviction { keep } => BoardState { rows: rows_left(self.rows, keep), ..self },
            Event::Look { now, cooldown, force } => BoardState {
                rows: rows_notified(self.rows, self.told_at, now, cooldown, force),
                told_at: times_after(self.rows, self.told_at, now, cooldown, force),
                ..self
            },
        }
    }

    /// The board after the first `n` of `events`.
    pub open spec fn after_all(self, events: Seq<Event>, n: nat) -> BoardState
        decreases n,
    {
        if n == 0 {
            self
        } else {
            self.after_all(events, (n - 1) as nat).after(events[n - 1])
        }
    }

    /// Whether event `i` of `events` raises an alert for `cluster`.
    pub open spec fn alerted(self, events: Seq<Event>, i: int, cluster: usize) -> bool {
        let before = self.after_all(events, i as nat);
        match events[i] {
            Event::Look { now, cooldown, force } => is_due(
                before.rows,
                before.told_at,
                cluster,
                now,
                cooldown,
                force,
            ),
            _ => false,
        }
    }
}

/// Whether all looks of `events` have the cooldown `cooldown`, and none is
/// earlier than one before it.
pub open spec fn looks_in_order(events: Seq<Event>, cooldown: u128) -> bool {
    &&& forall|i: int|
        0 <= i < events.len() && (#[trigger] events[i]) is Look ==> events[i]->cooldown == cooldown
    &&& forall|i: int, j: int|
        0 <= i < j < events.len() && (#[trigger] events[i]) is Look && (#[trigger] events[j]) is Look
            ==> events[i]->now <= events[j]->now
}

/// What a board remembers of an alert of `cluster` that event `i` raised: its
/// time, or that of a later one, until a look finds that the cluster has
/// waited.
proof fn lemma_alert_is_remembered(
    start: BoardState,
    events: Seq<Event>,
    cooldown: u128,
    cluster: usize,
    i: int,
    n: int,
)
    requires
        looks_in_order(events, cooldown),
        0 <= i < n <= events.len(),
        start.alerted(events, i, cluster),
    ensures
        ({
            let told_at = start.after_all(events, n as nat).told_at;
            ||| told_at.contains_key(cluster) && told_at[cluster] >= events[i]->now
            ||| exists|k: int|
                i < k < n && (#[trigger] events[k]) is Look && events[k]->now - events[i]->now
                    >= cooldown
        }),
    decreases n,
{
    let before = start.after_all(events, (n - 1) as nat);
    let told_at = start.after_all(events, n as nat).told_at;
    assert(start.after_all(events, n as nat) == before.after(events[n - 1]));
    if n - 1 > i {
        lemma_alert_is_remembered(start, events, cooldown, cluster, i, n - 1);
        let earlier = before.told_at;
        if earlier.contains_key(cluster) && earlier[cluster] >= events[i]->now {
            if events[n - 1] is Look {
                assert(events[i]->now <= events[n - 1]->now);
                if !told_at.contains_key(cluster) {
                    assert(has_waited(earlier, cluster, events[n - 1]->now, cooldown));
                    assert(events[n - 1]->now - events[i]->now >= cooldown);
                }
            }
        } else {
            let k = choose|k: int|
                i < k < n - 1 && (#[trigger] events[k]) is Look && events[k]->now - events[i]->now
                    >= cooldown;
            assert(events[k] is Look);
        }
    }
}

/// Between two alerts of one cluster at least the cooldown passes, whatever
/// lines come in and whatever rows are dropped meanwhile, unless the later one
/// is forced.
pub proof fn law_one_alert_per_cooldown(
    start: BoardState,
    events: Seq<Event>,
    cooldown: u128,
    cluster: usize,
    i: int,
    j: int,
)
    requires
        looks_in_order(events, cooldown),
        0 <= i < j < events.len(),
        start.alerted(events, i, cluster),
        start.alerted(events, j, cluster),
        !events[j]->force,
    ensures
        events[j]->now - events[i]->now >= cooldown,
{
    let before = start.after_all(events, j as nat);
    lemma_alert_is_remembered(start, events, cooldown, cluster, i, j);
    assert(events[i]->now <= events[j]->now);
    if !(before.told_at.contains_key(cluster) && before.told_at[cluster] >= events[i]->now) {
        let k = choose|k: int|
            i < k < j && (#[trigger] events[k]) is Look && events[k]->now - events[i]->now
                >= cooldown;
        assert(events[k]->now <= events[j]->now);
    }
}

/// What is pending comes due: once a cluster has waited, an alert is due for it
/// if something was pending of it, whatever lines came in since.
pub proof fn law_pending_pages_come_due(
    board: BoardState,
    lines: Seq<Seq<char>>,
    triaged: Seq<TriagedView>,
    cluster: usize,
    now: u128,
    cooldown: u128,
)
    requires
        pending(board.rows, cluster) > 0,
        has_waited(board.told_at, cluster, now, cooldown),
    ensures
        ({
            let after = board.after(Event::Lines { lines, triaged });
            is_due(after.rows, after.told_at, cluster, now, cooldown, false)
        }),
{
    let n = line_count(lines, triaged);
    let all = rows_after(board.rows, board.ticks, lines, triaged, n);
    law_each_line_counts_once(board.rows, board.ticks, lines, triaged, n, cluster);
    law_eviction_loses_no_page(all, KEPT_ROWS as nat, cluster);
}

/// The times that a board remembers are those of clusters with a row, and of
/// clusters that still have to wait.
pub proof fn law_old_times_are_forgotten(
    board: BoardState,
    cluster: usize,
    now: u128,
    cooldown: u128,
    force: bool,
)
    ensures
        ({
            let after = board.after(Event::Look { now, cooldown, force });
            after.told_at.contains_key(cluster) && !after.rows.contains_key(cluster) ==> now
                - after.told_at[cluster] < cooldown
        }),
{
}

/// The lines that the alert of `cluster` tells of, if one is due.
pub open spec fn told(
    board: BoardState,
    cluster: usize,
    now: u128,
    cooldown: u128,
    force: bool,
) -> nat {
    if is_due(board.rows, board.told_at, cluster, now, cooldown, force) {
        alert_of(board.rows[cluster]).count
    } else {
        0
    }
}

/// One look tells of each line to page for at most once: what its alerts tell of
/// is no longer pending, and all else still is.
pub proof fn law_a_look_settles_what_it_tells(
    board: BoardState,
    cluster: usize,
    now: u128,
    cooldown: u128,
    force: bool,
)
    ensures
        told(board, cluster, now, cooldown, force) + pending(
            board.after(Event::Look { now, cooldown, force }).rows,
            cluster,
        ) == pending(board.rows, cluster),
{
}

impl BoardState {
    /// The lines of `cluster` that the alerts of the first `n` of `events` tell
    /// of.
    pub open spec fn told_by(self, events: Seq<Event>, cluster: usize, n: nat) -> nat
        decreases n,
    {
        if n == 0 {
            0
        } else {
            self.told_by(events, cluster, (n - 1) as nat) + (match events[n - 1] {
                Event::Look { now, cooldown, force } => told(
                    self.after_all(events, (n - 1) as nat),
                    cluster,
                    now,
                    cooldown,
                    force,
                ),
                _ => 0,
            })
        }
    }
}

/// The lines of `cluster` to page for that come in with the first `n` of
/// `events`.
pub open spec fn pages_by(events: Seq<Event>, cluster: usize, n: nat) -> nat
    decreases n,
{
    if n == 0 {
        0
    } else {
        pages_by(events, cluster, (n - 1) as nat) + (match events[n - 1] {
            Event::Lines { lines, triaged } => pages_in(
                triaged,
                cluster,
                line_count(lines, triaged),
            ),
            _ => 0,
        })
    }
}

/// Whatever happens to a board, each line to page for is told of once or is
/// still pending: no alert tells of a line again, and none is lost with a row
/// that is dropped.
pub proof fn law_each_page_is_told_once(
    start: BoardState,
    events: Seq<Event>,
    cluster: usize,
    n: nat,
)
    ensures
        start.told_by(events, cluster, n) + pending(start.after_all(events, n).rows, cluster)
            == pending(start.rows, cluster) + pages_by(events, cluster, n),
    decreases n,
{
    if n > 0 {
        let before = start.after_all(events, (n - 1) as nat);
        law_each_page_is_told_once(start, events, cluster, (n - 1) as nat);
        match events[n - 1] {
            Event::Lines { lines, triaged } => {
                let count = line_count(lines, triaged);
                let all = rows_after(before.rows, before.ticks, lines, triaged, count);
                law_each_line_counts_once(before.rows, before.ticks, lines, triaged, count, cluster);
                law_eviction_loses_no_page(all, KEPT_ROWS as nat, cluster);
            },
            Event::Eviction { keep } => {
                law_eviction_loses_no_page(before.rows, keep, cluster);
            },
            Event::Look { now, cooldown, force } => {
                law_a_look_settles_what_it_tells(before, cluster, now, cooldown, force);
            },
        }
    }
}

/// Whether no line of `cluster` is to be paged for.
pub open spec fn never_pages(triaged: Seq<TriagedView>, cluster: usize) -> bool {
    forall|i: int|
        0 <= i < triaged.len() && (#[trigger] triaged[i]).cluster == cluster ==> triaged[i].route
            != Route::Page
}

proof fn lemma_no_pages(triaged: Seq<TriagedView>, cluster: usize, n: nat)
    requires
        n <= triaged.len(),
        never_pages(triaged, cluster),
    ensures
        pages_in(triaged, cluster, n) == 0,
    decreases n,
{
    if n > 0 {
        lemma_no_pages(triaged, cluster, (n - 1) as nat);
    }
}

proof fn lemma_no_pages_by(events: Seq<Event>, cluster: usize, n: nat)
    requires
        n <= events.len(),
        forall|i: int|
            0 <= i < n && (#[trigger] events[i]) is Lines ==> never_pages(
                events[i]->triaged,
                cluster,
            ),
    ensures
        pages_by(events, cluster, n) == 0,
    decreases n,
{
    if n > 0 {
        lemma_no_pages_by(events, cluster, (n - 1) as nat);
        if let Event::Lines { lines, triaged } = events[n - 1] {
            lemma_no_pages(triaged, cluster, line_count(lines, triaged));
        }
    }
}

/// Lines that are not to be paged for raise no alert, forced or not: a cluster
/// of which nothing is pending and no line to page for came in is not alerted
/// of.
pub proof fn law_logs_never_page(start: BoardState, events: Seq<Event>, cluster: usize, n: int)
    requires
        0 <= n < events.len(),
        pending(start.rows, cluster) == 0,
        forall|i: int|
            0 <= i < n && (#[trigger] events[i]) is Lines ==> never_pages(
                events[i]->triaged,
                cluster,
            ),
    ensures
        !start.alerted(events, n, cluster),
{
    lemma_no_pages_by(events, cluster, n as nat);
    law_each_page_is_told_once(start, events, cluster, n as nat);
}

/// After a forced look every line to page for that ever came in has been told
/// of, once.
pub proof fn law_a_forced_look_settles_all_pages(
    start: BoardState,
    events: Seq<Event>,
    cluster: usize,
    n: nat,
)
    requires
        0 < n <= events.len(),
        events[n - 1] is Look,
        events[n - 1]->force,
    ensures
        start.told_by(events, cluster, n) == pending(start.rows, cluster) + pages_by(
            events,
            cluster,
            n,
        ),
        pending(start.after_all(events, n).rows, cluster) == 0,
{
    law_each_page_is_told_once(start, events, cluster, n);
    law_forced_alerts_tell_of_everything(
        start.after_all(events, (n - 1) as nat),
        cluster,
        events[n - 1]->now,
        events[n - 1]->cooldown,
    );
}

/// Forced alerts leave nothing pending.
pub proof fn law_forced_alerts_tell_of_everything(
    board: BoardState,
    cluster: usize,
    now: u128,
    cooldown: u128,
)
    ensures
        pending(board.after(Event::Look { now, cooldown, force: true }).rows, cluster) == 0,
        told(board, cluster, now, cooldown, true) == pending(board.rows, cluster),
{
}

/// A row and an alert show all that they hold.
pub proof fn law_rows_and_alerts_show_what_they_hold(row: Row, alert: Alert)
    ensures
        row@.cluster == row.cluster && row@.template == row.template@ && row@.route == row.route
            && row@.attention == row.attention && row@.verdict == row.verdict@ && row@.count
            == row.count && row@.example == row.example@ && row@.unnotified == row.unnotified
            && row@.seen_at == row.seen_at,
        alert@.cluster == alert.cluster && alert@.template == alert.template@ && alert@.example
            == alert.example@ && alert@.count == alert.count && alert@.attention == alert.attention
            && alert@.verdict == alert.verdict@,
{
}

/// The row of a cluster holds the template, verdict, attention and route of its
/// last line, whether or not there was a row before.
pub proof fn law_rows_show_the_last_line(
    rows: Map<usize, RowView>,
    tick: nat,
    lines: Seq<Seq<char>>,
    triaged: Seq<TriagedView>,
    n: nat,
    i: int,
)
    requires
        0 <= i < n,
        forall|j: int| i < j < n ==> (#[trigger] triaged[j]).cluster != triaged[i].cluster,
    ensures
        ({
            let after = rows_after(rows, tick, lines, triaged, n);
            let row = after[triaged[i].cluster];
            &&& after.contains_key(triaged[i].cluster)
            &&& row.cluster == triaged[i].cluster
            &&& row.template == triaged[i].template
            &&& row.verdict == triaged[i].verdict
            &&& row.attention == triaged[i].verdict.attention
            &&& row.route == triaged[i].route
            &&& row.seen_at == tick + i + 1
        }),
    decreases n,
{
    if n > i + 1 {
        assert(triaged[n - 1].cluster != triaged[i].cluster);
        law_rows_show_the_last_line(rows, tick, lines, triaged, (n - 1) as nat, i);
    }
}

/// The example of a row is the last line to page for; without one among the new
/// lines it stays as it was, or is the first line if there was no row.
pub proof fn law_examples_are_the_last_page(
    rows: Map<usize, RowView>,
    tick: nat,
    lines: Seq<Seq<char>>,
    triaged: Seq<TriagedView>,
    n: nat,
    cluster: usize,
    i: int,
)
    ensures
        ({
            let after = rows_after(rows, tick, lines, triaged, n);
            &&& 0 <= i < n && triaged[i].cluster == cluster && triaged[i].route == Route::Page && (
            forall|j: int|
                i < j < n ==> (#[trigger] triaged[j]).cluster != cluster || triaged[j].route
                    != Route::Page) ==> after[cluster].example == lines[i]
            &&& rows.contains_key(cluster) && (forall|j: int|
                0 <= j < n ==> (#[trigger] triaged[j]).cluster != cluster || triaged[j].route
                    != Route::Page) ==> after[cluster].example == rows[cluster].example
            &&& !rows.contains_key(cluster) && 0 <= i < n && triaged[i].cluster == cluster && (
            forall|j: int| 0 <= j < i ==> (#[trigger] triaged[j]).cluster != cluster) && (forall|
                j: int,
            |
                0 <= j < n ==> (#[trigger] triaged[j]).cluster != cluster || triaged[j].route
                    != Route::Page) ==> after[cluster].example == lines[i]
        }),
    decreases n,
{
    if n > 0 {
        let last = triaged[n - 1];
        law_examples_are_the_last_page(rows, tick, lines, triaged, (n - 1) as nat, cluster, i);
        lemma_row_known(rows, tick, lines, triaged, (n - 1) as nat, cluster);
        assert(triaged[n - 1] == last);
        if 0 <= i < n - 1 && triaged[i].cluster == cluster {
            assert(triaged[i].cluster == cluster);
        }
    }
}

/// A cluster has a row exactly if it had one before or a line came in of it.
proof fn lemma_row_known(
    rows: Map<usize, RowView>,
    tick: nat,
    lines: Seq<Seq<char>>,
    triaged: Seq<TriagedView>,
    n: nat,
    cluster: usize,
)
    ensures
        rows_after(rows, tick, lines, triaged, n).contains_key(cluster) <==> rows.contains_key(
            cluster,
        ) || exists|j: int| 0 <= j < n && (#[trigger] triaged[j]).cluster == cluster,
    decreases n,
{
    if n > 0 {
        lemma_row_known(rows, tick, lines, triaged, (n - 1) as nat, cluster);
        if triaged[n - 1].cluster == cluster {
            assert(triaged[n - 1].cluster == cluster);
        }
    }
}

/// Lines change no row but those of their clusters: a cluster has a row exactly
/// if it had one or a line came in of it, and a row without a new line stays as
/// it was.
pub proof fn law_lines_change_only_their_rows(
    rows: Map<usize, RowView>,
    tick: nat,
    lines: Seq<Seq<char>>,
    triaged: Seq<TriagedView>,
    n: nat,
    cluster: usize,
)
    ensures
        rows_after(rows, tick, lines, triaged, n).contains_key(cluster) <==> rows.contains_key(
            cluster,
        ) || exists|j: int| 0 <= j < n && (#[trigger] triaged[j]).cluster == cluster,
        (forall|j: int| 0 <= j < n ==> (#[trigger] triaged[j]).cluster != cluster) ==> rows_after(
            rows,
            tick,
            lines,
            triaged,
            n,
        )[cluster] == rows[cluster],
    decreases n,
{
    lemma_row_known(rows, tick, lines, triaged, n, cluster);
    if n > 0 {
        law_lines_change_only_their_rows(rows, tick, lines, triaged, (n - 1) as nat, cluster);
        if forall|j: int| 0 <= j < n ==> (#[trigger] triaged[j]).cluster != cluster {
            assert(triaged[n - 1].cluster != cluster);
        }
    }
}

/// A batch is taken in whole, as far as lines and triages go together, and rows
/// are dropped only if there are more than a hundred thousand; then half as many
/// are to be left.
pub proof fn law_batches_are_taken_in_whole(
    rows: Map<usize, RowView>,
    tick: nat,
    lines: Seq<Seq<char>>,
    triaged: Seq<TriagedView>,
)
    ensures
        lines.len() <= triaged.len() ==> line_count(lines, triaged) == lines.len(),
        triaged.len() <= lines.len() ==> line_count(lines, triaged) == triaged.len(),
        ({
            let all = rows_after(rows, tick, lines, triaged, line_count(lines, triaged));
            &&& all.len() <= 100_000 ==> board_after(rows, tick, lines, triaged) == all
            &&& all.len() > 100_000 ==> board_after(rows, tick, lines, triaged) == rows_left(
                all,
                50_000,
            )
        }),
{
}

/// After a batch the row of a cluster shows the last line of the cluster, and a
/// row with a line to page for is never dropped, so the alert that tells of it
/// shows the same.
pub proof fn law_board_and_alerts_show_the_last_line(
    rows: Map<usize, RowView>,
    tick: nat,
    lines: Seq<Seq<char>>,
    triaged: Seq<TriagedView>,
    i: int,
)
    requires
        0 <= i < lines.len(),
        i < triaged.len(),
        forall|j: int|
            i < j < lines.len() && j < triaged.len() ==> (#[trigger] triaged[j]).cluster
                != triaged[i].cluster,
    ensures
        ({
            let after = board_after(rows, tick, lines, triaged);
            let c = triaged[i].cluster;
            let told = alert_of(after[c]);
            &&& triaged[i].route == Route::Page ==> after.contains_key(c)
            &&& after.contains_key(c) ==> {
                &&& after[c].template == triaged[i].template && told.template
                    == triaged[i].template
                &&& after[c].verdict == triaged[i].verdict && told.verdict == triaged[i].verdict
                &&& after[c].attention == triaged[i].verdict.attention && told.attention
                    == triaged[i].verdict.attention
                &&& after[c].route == triaged[i].route
                &&& after[c].cluster == c && told.cluster == c
            }
        }),
{
    let n = line_count(lines, triaged);
    let c = triaged[i].cluster;
    let all = rows_after(rows, tick, lines, triaged, n);
    law_rows_show_the_last_line(rows, tick, lines, triaged, n, i);
    law_each_line_counts_once(rows, tick, lines, triaged, n, c);
    law_eviction_loses_no_page(all, 50_000, c);
    if triaged[i].route == Route::Page {
        lemma_page_counts(triaged, c, n, i);
    }
}

proof fn lemma_page_counts(triaged: Seq<TriagedView>, cluster: usize, n: nat, i: int)
    requires
        0 <= i < n,
        triaged[i].cluster == cluster,
        triaged[i].route == Route::Page,
    ensures
        pages_in(triaged, cluster, n) > 0,
    decreases n,
{
    if n > i + 1 {
        lemma_page_counts(triaged, cluster, (n - 1) as nat, i);
    }
}

/// A row is dropped only if nothing is pending of it and at least as many rows
/// as are to be left were seen after it, and a row that is left is as it was.
pub proof fn law_eviction_drops_the_oldest(
    rows: Map<usize, RowView>,
    keep: nat,
    a: usize,
    b: usize,
)
    requires
        rows.dom().finite(),
        rows.contains_key(a),
        rows.contains_key(b),
    ensures
        rows_left(rows, keep).contains_key(a) <==> rows[a].unnotified > 0 || Set::new(
            |c: usize| rows.contains_key(c) && rows[c].seen_at > rows[a].seen_at,
        ).len() < keep,
        rows_left(rows, keep).contains_key(a) ==> rows_left(rows, keep)[a] == rows[a],
        rows_left(rows, keep).dom().subset_of(rows.dom()),
        rows_left(rows, keep).contains_key(a) && rows[a].unnotified == 0 && rows[b].seen_at
            >= rows[a].seen_at ==> rows_left(rows, keep).contains_key(b),
        rows.len() <= keep ==> rows_left(rows, keep).contains_key(a),
{
    assert(newer(rows, a) == Set::new(
        |c: usize| rows.contains_key(c) && rows[c].seen_at > rows[a].seen_at,
    ));
    assert(newer(rows, a).subset_of(rows.dom().remove(a)));
    vstd::set_lib::lemma_len_subset(newer(rows, a), rows.dom().remove(a));
    if rows[b].seen_at >= rows[a].seen_at {
        assert(newer(rows, b).subset_of(newer(rows, a)));
        vstd::set_lib::lemma_len_subset(newer(rows, b), newer(rows, a));
    }
}

/// An alert is due exactly if lines to page for are pending and it is forced, or
/// none was raised yet, or the last was raised at least the cooldown ago.
pub proof fn law_alerts_come_due_after_the_cooldown(
    rows: Map<usize, RowView>,
    told_at: Map<usize, u128>,
    cluster: usize,
    now: u128,
    cooldown: u128,
    force: bool,
)
    ensures
        !rows.contains_key(cluster) || rows[cluster].unnotified == 0 ==> !is_due(
            rows,
            told_at,
            cluster,
            now,
            cooldown,
            force,
        ),
        rows.contains_key(cluster) && rows[cluster].unnotified > 0 && (force
            || !told_at.contains_key(cluster)) ==> is_due(
            rows,
            told_at,
            cluster,
            now,
            cooldown,
            force,
        ),
        rows.contains_key(cluster) && rows[cluster].unnotified > 0 && told_at.contains_key(cluster)
            && told_at[cluster] <= now ==> (is_due(rows, told_at, cluster, now, cooldown, false)
            <==> told_at[cluster] + cooldown <= now),
        rows.contains_key(cluster) && rows[cluster].unnotified > 0 && told_at.contains_key(cluster)
            && told_at[cluster] > now && cooldown > 0 ==> !is_due(
            rows,
            told_at,
            cluster,
            now,
            cooldown,
            false,
        ),
        rows.contains_key(cluster) && rows[cluster].unnotified > 0 && cooldown == 0 ==> is_due(
            rows,
            told_at,
            cluster,
            now,
            cooldown,
            false,
        ),
{
}

/// A look changes no row but in what is pending of it: where an alert was due
/// nothing is any more and the time is noted, and elsewhere all stays, but for
/// times that no longer matter.
pub proof fn law_a_look_changes_what_it_tells_alone(
    rows: Map<usize, RowView>,
    told_at: Map<usize, u128>,
    cluster: usize,
    now: u128,
    cooldown: u128,
    force: bool,
)
    ensures
        ({
            let due = is_due(rows, told_at, cluster, now, cooldown, force);
            let after = rows_notified(rows, told_at, now, cooldown, force);
            let times = times_after(rows, told_at, now, cooldown, force);
            &&& after.dom() == rows.dom()
            &&& rows.contains_key(cluster) ==> {
                let (was, is) = (rows[cluster], after[cluster]);
                &&& is.cluster == was.cluster && is.template == was.template && is.route
                    == was.route && is.attention == was.attention && is.verdict == was.verdict
                    && is.count == was.count && is.example == was.example && is.seen_at
                    == was.seen_at
                &&& is.unnotified == (if due {
                    0
                } else {
                    was.unnotified
                })
            }
            &&& due ==> times.contains_key(cluster) && times[cluster] == now
            &&& !due && times.contains_key(cluster) ==> told_at.contains_key(cluster)
                && times[cluster] == told_at[cluster]
            &&& !due && told_at.contains_key(cluster) && rows.contains_key(cluster)
                ==> times.contains_key(cluster)
            &&& !due && told_at.contains_key(cluster) && told_at[cluster] <= now
                < told_at[cluster] + cooldown ==> times.contains_key(cluster)
        }),
{
    assert(rows_notified(rows, told_at, now, cooldown, force).dom() == rows.dom());
}

/// An alert tells of its row: the cluster, the template, the example, the
/// attention, the verdict, and as many lines as were pending.
pub proof fn law_alerts_tell_of_their_row(
    alerts: Seq<Alert>,
    rows: Map<usize, RowView>,
    told_at: Map<usize, u128>,
    now: u128,
    cooldown: u128,
    force: bool,
    k: int,
)
    requires
        are_alerts(alerts, rows, told_at, now, cooldown, force),
        0 <= k < alerts.len(),
    ensures
        is_due(rows, told_at, alerts[k].cluster, now, cooldown, force),
        alerts[k].template@ == rows[alerts[k].cluster].template,
        alerts[k].example@ == rows[alerts[k].cluster].example,
        alerts[k].count == rows[alerts[k].cluster].unnotified,
        alerts[k].attention == rows[alerts[k].cluster].attention,
        alerts[k].verdict@ == rows[alerts[k].cluster].verdict,
        forall|l: int| 0 <= l < alerts.len() && l != k ==> (#[trigger] alerts[l]).cluster
            != alerts[k].cluster,
{
    assert(alerts[k]@ == alert_of(rows[alerts[k].cluster]));
    assert forall|l: int| 0 <= l < alerts.len() && l != k implies (#[trigger] alerts[l]).cluster
        != alerts[k].cluster by {
        if l < k {
            assert(alerts[l].cluster != alerts[k].cluster);
        } else {
            assert(alerts[k].cluster != alerts[l].cluster);
        }
    }
}

/// Each cluster that an alert is due for has one.
pub proof fn law_each_due_cluster_is_told_of(
    alerts: Seq<Alert>,
    rows: Map<usize, RowView>,
    told_at: Map<usize, u128>,
    now: u128,
    cooldown: u128,
    force: bool,
    cluster: usize,
) -> (k: int)
    requires
        are_alerts(alerts, rows, told_at, now, cooldown, force),
        is_due(rows, told_at, cluster, now, cooldown, force),
    ensures
        0 <= k < alerts.len(),
        alerts[k].cluster == cluster,
{
    choose|k: int| 0 <= k < alerts.len() && (#[trigger] alerts[k]).cluster == cluster
}

/// What happens to a board is what its functions do: lines are recorded, rows
/// are dropped and alerts are raised, and nothing else changes.
pub proof fn law_events_change_the_board(board: BoardState, event: Event)
    ensures
        event matches Event::Lines { lines, triaged } ==> {
            &&& board.after(event).rows == board_after(board.rows, board.ticks, lines, triaged)
            &&& board.after(event).told_at == board.told_at
            &&& board.after(event).ticks == board.ticks + line_count(lines, triaged)
        },
        event matches Event::Eviction { keep } ==> {
            &&& board.after(event).rows == rows_left(board.rows, keep)
            &&& board.after(event).told_at == board.told_at
            &&& board.after(event).ticks == board.ticks
        },
        event matches Event::Look { now, cooldown, force } ==> {
            &&& board.after(event).rows == rows_notified(
                board.rows,
                board.told_at,
                now,
                cooldown,
                force,
            )
            &&& board.after(event).told_at == times_after(
                board.rows,
                board.told_at,
                now,
                cooldown,
                force,
            )
            &&& board.after(event).ticks == board.ticks
        },
{
}

/// Rows with more attention are shown first, and of two with as much the one
/// with more lines.
pub proof fn law_more_attention_is_shown_first(a: RowView, b: RowView)
    requires
        shows_before(a, b),
    ensures
        a.attention.bits < 0x8000_0000 && b.attention.bits < 0x8000_0000 ==> a.attention.bits
            >= b.attention.bits,
        a.attention == b.attention ==> a.count >= b.count,
        a.attention.total_rank() >= b.attention.total_rank(),
{
}

/// The text of an alert says the area, the scores, the number of new lines and
/// the template, in this order.
pub proof fn law_alert_texts_say_what_happened(
    alert: AlertView,
    attention: Seq<char>,
    severity: Seq<char>,
)
    ensures
        alert_text(alert, attention, severity) == "tocsin"@ + " · "@ + alert.verdict.area
            + " · attention="@ + attention + " severity="@ + severity + " · "@ + decimal_text(
            alert.count,
        ) + " new occurrence(s)\n"@ + alert.template,
{
}

/// On one line each line feed is a dot between spaces, and all else is as it
/// was.
pub proof fn law_line_feeds_become_dots(a: Seq<char>, b: Seq<char>)
    ensures
        on_one_line(a + b) == on_one_line(a) + on_one_line(b),
        !a.contains('\n') ==> on_one_line(a) == a,
        on_one_line(seq!['\n']) == " · "@,
    decreases a.len() + b.len(),
{
    reveal_with_fuel(on_one_line, 2);
    assert(seq!['\n'].drop_last() == Seq::<char>::empty());
    assert(Seq::<char>::empty() + " · "@ == " · "@);
    if b.len() == 0 {
        assert(a + b == a);
        assert(on_one_line(a) + on_one_line(b) == on_one_line(a));
    } else {
        assert((a + b).drop_last() == a + b.drop_last());
        assert((a + b).last() == b.last());
        law_line_feeds_become_dots(a, b.drop_last());
        let (x, y) = (on_one_line(a), on_one_line(b.drop_last()));
        assert(x + y + " · "@ == x + (y + " · "@));
        assert((x + y).push(b.last()) == x + y.push(b.last()));
    }
    lemma_one_line_stays(a);
}

proof fn lemma_one_line_stays(a: Seq<char>)
    ensures
        !a.contains('\n') ==> on_one_line(a) == a,
    decreases a.len(),
{
    if !a.contains('\n') {
        if a.len() == 0 {
            assert(a == Seq::<char>::empty());
        } else {
            assert(a.contains(a[a.len() - 1]));
            if a.drop_last().contains('\n') {
                let i = choose|i: int| 0 <= i < a.len() - 1 && a.drop_last()[i] == '\n';
                assert(a[i] == '\n');
            }
            lemma_one_line_stays(a.drop_last());
            assert(a == a.drop_last().push(a.last()));
        }
    }
}

/// A delivery is tried again after no answer, after an error of the server and
/// after a demand to slow down, and after nothing else.
pub proof fn law_passing_failures_are_tried_again(status: u16)
    ensures
        is_transient(None),
        is_transient(Some(status)) <==> status == 429 || status / 100 == 5,
{
}

/// An alert is sent at most four times, and a board holds at most a hundred
/// thousand rows that nothing is pending of.
pub proof fn law_boards_have_these_limits()
    ensures
        ATTEMPTS == 4,
        MAX_ROWS == 100_000,
        KEPT_ROWS == 50_000,
{
}

} // verus!
