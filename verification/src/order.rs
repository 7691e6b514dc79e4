//! Scores and how they are ordered.
use vstd::prelude::*;

verus! {

/// A score: a single-precision number, held by its bits.
#[derive(Debug, Clone, Copy, PartialEq, Eq, Structural)]
pub struct Score {
    /// The bits of the number in the IEEE 754 binary32 format.
    pub bits: u32,
}

impl Score {
    /// The bits without the sign.
    pub open spec fn magnitude(self) -> int {
        self.bits as int % 0x8000_0000
    }

    /// Whether the sign bit is set.
    pub open spec fn negative(self) -> bool {
        self.bits >= 0x8000_0000
    }

    /// Whether the bits are those of no number.
    pub open spec fn nan(self) -> bool {
        self.magnitude() > 0x7f80_0000
    }

    /// The place of the score among all bit patterns, which orders numbers by
    /// their value: both zeros have the same place.
    pub open spec fn rank(self) -> int {
        if self.negative() {
            -self.magnitude()
        } else {
            self.magnitude()
        }
    }

    /// The place of the score in the total order of IEEE 754, which differs
    /// from its rank in that the negative zero comes before the positive one.
    pub open spec fn total_rank(self) -> int {
        if self.negative() {
            -self.magnitude() - 1
        } else {
            self.magnitude()
        }
    }

    /// Whether both scores are numbers and this one is not below `other`.
    pub open spec fn reaches(self, other: Score) -> bool {
        !self.nan() && !other.nan() && self.rank() >= other.rank()
    }

    /// Whether both scores are numbers and this one is not below `other`.
    pub fn at_least(self, other: Score) -> (reached: bool)
        ensures
            reached == self.reaches(other),
    {
        let (a, b) = (self.place(), other.place());
        -0x7f80_0000 <= a && a <= 0x7f80_0000 && -0x7f80_0000 <= b && b <= 0x7f80_0000 && a >= b
    }

    /// The rank of the score.
    pub fn place(self) -> (rank: i64)
        ensures
            rank == self.rank(),
    {
        if self.bits >= 0x8000_0000 {
            -((self.bits - 0x8000_0000) as i64)
        } else {
            self.bits as i64
        }
    }

    /// The place of the score in the total order of IEEE 754.
    pub fn total_place(self) -> (rank: i64)
        ensures
            rank == self.total_rank(),
    {
        if self.bits >= 0x8000_0000 {
            -((self.bits - 0x8000_0000) as i64) - 1
        } else {
            self.bits as i64
        }
    }
}

/// Whether index `x` comes before index `y` when the greater key comes first,
/// and of two equal keys the one with the lower index.
pub open spec fn precedes(keys: Seq<(i64, u64)>, x: usize, y: usize) -> bool {
    let (a, b) = (keys[x as int], keys[y as int]);
    ||| a.0 > b.0
    ||| a.0 == b.0 && a.1 > b.1
    ||| a == b && x < y
}

/// Whether `order` lists indices from `from` up to `to`, each before the next.
pub open spec fn ordered(order: Seq<usize>, keys: Seq<(i64, u64)>, from: int, to: int) -> bool {
    &&& forall|i: int| 0 <= i < order.len() ==> from <= #[trigger] order[i] < to
    &&& forall|i: int, j: int|
        0 <= i < j < order.len() ==> precedes(keys, #[trigger] order[i], #[trigger] order[j])
}

/// Whether `order` lists all indices of `keys`, each before the next.
pub open spec fn is_descending_order(order: Seq<usize>, keys: Seq<(i64, u64)>) -> bool {
    order.len() == keys.len() && ordered(order, keys, 0, keys.len() as int)
}

/// Whether index `x` comes before index `y`.
fn comes_before(keys: &Vec<(i64, u64)>, x: usize, y: usize) -> (first: bool)
    requires
        x < keys@.len(),
        y < keys@.len(),
    ensures
        first == precedes(keys@, x, y),
{
    let (a, b) = (keys[x], keys[y]);
    a.0 > b.0 || (a.0 == b.0 && a.1 > b.1) || (a.0 == b.0 && a.1 == b.1 && x < y)
}

/// The indices `a` and `b`, both in order, in one order.
fn merge(keys: &Vec<(i64, u64)>, a: &Vec<usize>, b: &Vec<usize>, from: usize, mid: usize, to: usize) -> (out:
    Vec<usize>)
    requires
        from <= mid <= to <= keys@.len(),
        ordered(a@, keys@, from as int, mid as int),
        ordered(b@, keys@, mid as int, to as int),
        a@.len() + b@.len() <= usize::MAX,
    ensures
        ordered(out@, keys@, from as int, to as int),
        out@.len() == a@.len() + b@.len(),
{
    let mut out: Vec<usize> = Vec::new();
    let (mut i, mut j): (usize, usize) = (0, 0);
    while i < a.len() || j < b.len()
        invariant
            from <= mid <= to <= keys@.len(),
            ordered(a@, keys@, from as int, mid as int),
            ordered(b@, keys@, mid as int, to as int),
            i <= a@.len(),
            j <= b@.len(),
            out@.len() == i + j,
            ordered(out@, keys@, from as int, to as int),
            forall|k: int, l: int|
                0 <= k < out@.len() && i <= l < a@.len() ==> precedes(
                    keys@,
                    #[trigger] out@[k],
                    #[trigger] a@[l],
                ),
            forall|k: int, l: int|
                0 <= k < out@.len() && j <= l < b@.len() ==> precedes(
                    keys@,
                    #[trigger] out@[k],
                    #[trigger] b@[l],
                ),
        decreases a@.len() - i + b@.len() - j,
    {
        if j >= b.len() || (i < a.len() && comes_before(keys, a[i], b[j])) {
            out.push(a[i]);
            i += 1;
        } else {
            out.push(b[j]);
            j += 1;
        }
    }
    out
}

/// The indices from `from` up to `to` in order.
fn sort_range(keys: &Vec<(i64, u64)>, from: usize, to: usize) -> (order: Vec<usize>)
    requires
        from <= to <= keys@.len(),
    ensures
        order@.len() == to - from,
        ordered(order@, keys@, from as int, to as int),
    decreases to - from,
{
    if to - from <= 1 {
        let mut order: Vec<usize> = Vec::new();
        if from < to {
            order.push(from);
        }
        return order;
    }
    let mid: usize = from + (to - from) / 2;
    let a = sort_range(keys, from, mid);
    let b = sort_range(keys, mid, to);
    merge(keys, &a, &b, from, mid, to)
}

/// The indices of `keys` from the greatest key to the least; of two equal keys
/// the one with the lower index comes first.
pub fn descending_order(keys: &Vec<(i64, u64)>) -> (order: Vec<usize>)
    ensures
        is_descending_order(order@, keys@),
{
    sort_range(keys, 0, keys.len())
}

/// An order lists each index once.
pub proof fn law_order_lists_each_index_once(order: Seq<usize>, keys: Seq<(i64, u64)>)
    requires
        is_descending_order(order, keys),
        keys.len() <= usize::MAX,
    ensures
        order.no_duplicates(),
        forall|k: usize| k < keys.len() ==> order.contains(k),
{
    let all = Set::new(|k: usize| k < keys.len());
    order.unique_seq_to_set();
    lemma_range_size(keys.len());
    assert(order.to_set().subset_of(all));
    vstd::set_lib::lemma_subset_equality(order.to_set(), all);
    assert forall|k: usize| k < keys.len() implies order.contains(k) by {
        assert(all.contains(k));
    }
}

proof fn lemma_range_size(n: nat)
    requires
        n <= usize::MAX + 1,
    ensures
        Set::new(|k: usize| k < n).finite(),
        Set::new(|k: usize| k < n).len() == n,
    decreases n,
{
    let all = Set::new(|k: usize| k < n);
    if n == 0 {
        assert(all == Set::<usize>::empty());
    } else {
        let m = (n - 1) as nat;
        lemma_range_size(m);
        assert(all == Set::new(|k: usize| k < m).insert(m as usize));
    }
}

/// Scores are ordered as the numbers that they are: of two positive ones the one
/// with more bits is greater, of two negative ones the one with fewer, and the
/// two zeros are as great. What is no number is not compared.
pub proof fn law_scores_are_ordered_as_numbers(a: Score, b: Score)
    ensures
        a.bits <= 0x7f80_0000 && b.bits <= 0x7f80_0000 ==> (a.reaches(b) <==> a.bits >= b.bits),
        0x8000_0000 <= a.bits <= 0xff80_0000 && 0x8000_0000 <= b.bits <= 0xff80_0000 ==> (
        a.reaches(b) <==> a.bits <= b.bits),
        a.bits <= 0x7f80_0000 && 0x8000_0000 <= b.bits <= 0xff80_0000 ==> a.reaches(b),
        0x8000_0000 <= a.bits <= 0xff80_0000 && b.bits <= 0x7f80_0000 ==> (a.reaches(b)
            <==> a.bits == 0x8000_0000 && b.bits == 0),
        0x7f80_0000 < a.bits < 0x8000_0000 || a.bits > 0xff80_0000 ==> !a.reaches(b) && !b.reaches(
            a,
        ),
        a.nan() <==> 0x7f80_0000 < a.bits < 0x8000_0000 || a.bits > 0xff80_0000,
        !a.nan() && !b.nan() ==> (a.reaches(b) <==> a.rank() >= b.rank()),
{
}

/// In the total order negative scores come before positive ones, positive ones
/// rise with their bits, and negative ones fall with them.
pub proof fn law_total_order_goes_by_sign_and_bits(a: Score, b: Score)
    ensures
        a.bits < 0x8000_0000 && b.bits < 0x8000_0000 ==> (a.total_rank() >= b.total_rank()
            <==> a.bits >= b.bits),
        a.bits >= 0x8000_0000 && b.bits >= 0x8000_0000 ==> (a.total_rank() >= b.total_rank()
            <==> a.bits <= b.bits),
        a.bits < 0x8000_0000 && b.bits >= 0x8000_0000 ==> a.total_rank() > b.total_rank(),
        a.total_rank() == b.total_rank() <==> a == b,
{
}

/// In an order greater keys come first, by their first part and then by their
/// second, and equal keys stay in the order of their indices.
pub proof fn law_greater_keys_come_first(
    order: Seq<usize>,
    keys: Seq<(i64, u64)>,
    i: int,
    j: int,
)
    requires
        is_descending_order(order, keys),
        0 <= i < j < order.len(),
    ensures
        order.len() == keys.len(),
        order[i] < keys.len(),
        keys[order[i] as int].0 >= keys[order[j] as int].0,
        keys[order[i] as int].0 == keys[order[j] as int].0 ==> keys[order[i] as int].1
            >= keys[order[j] as int].1,
        keys[order[i] as int] == keys[order[j] as int] ==> order[i] < order[j],
{
    assert(precedes(keys, order[i], order[j]));
}

} // verus!
