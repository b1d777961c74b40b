//! Per-name statistics and the aggregation from yearly counts to
//! five-year period buckets.
use vstd::prelude::*;

verus! {

/// First calendar year covered by the dataset.
pub const START_YEAR: u32 = 1984;

/// Number of consecutive years covered by each record.
pub const YEARS: usize = 40;

/// Number of five-year period buckets derived from the yearly counts.
pub const PERIODS: usize = 8;

/// A user's verdict on a name.
#[derive(PartialEq, Eq, Debug, Clone, Copy, Structural)]
pub enum Rating {
    Good,
    Bad,
}

/// Raw decoded statistics for one name: a sex byte and one birth count
/// per year, in chronological order starting at `START_YEAR`.
#[derive(PartialEq, Eq, Debug, Clone, Copy)]
pub struct Info {
    pub year_count: [u32; 40],
    pub sex: u8,
}

/// Aggregated, display-ready statistics for one name: the total over all
/// years and one count per five-year period, plus the user-editable
/// rating and comments.
pub struct NameEntry {
    pub name: String,
    pub year_count: [u64; 8],
    pub sex: u8,
    pub total: u64,
    pub comments: String,
    pub rating: Option<Rating>,
}

/// Sum of `counts[from .. to]` as an unbounded integer.
pub open spec fn sum_slice(counts: Seq<u32>, from: int, to: int) -> int
    decreases to - from,
{
    if from >= to {
        0
    } else {
        counts[from] + sum_slice(counts, from + 1, to)
    }
}

/// Sum of all entries of `counts`.
pub open spec fn total_of(counts: Seq<u32>) -> int {
    sum_slice(counts, 0, counts.len() as int)
}

/// Sum of the five consecutive yearly counts that make up period bucket `b`.
pub open spec fn bucket_of(counts: Seq<u32>, b: int) -> int {
    sum_slice(counts, 5 * b, 5 * b + 5)
}

/// Splitting a summation range at any midpoint splits the sum.
pub proof fn lemma_sum_slice_concat(counts: Seq<u32>, from: int, mid: int, to: int)
    requires
        from <= mid <= to,
    ensures
        sum_slice(counts, from, to) == sum_slice(counts, from, mid) + sum_slice(counts, mid, to),
    decreases mid - from,
{
    if from < mid {
        lemma_sum_slice_concat(counts, from + 1, mid, to);
    }
}

/// Every partial sum of 32-bit counts is bounded by the number of terms
/// times the largest 32-bit value.
pub proof fn lemma_sum_slice_bound(counts: Seq<u32>, from: int, to: int)
    requires
        from <= to,
    ensures
        0 <= sum_slice(counts, from, to) <= (to - from) * 0xffff_ffff,
    decreases to - from,
{
    if from < to {
        lemma_sum_slice_bound(counts, from + 1, to);
    }
}

impl NameEntry {
    /// The total equals the sum of the yearly counts and each period
    /// bucket equals the sum of its five years; rating and comments
    /// start out empty.
    pub fn new(name: String, info: Info) -> (r: Self)
        ensures
            r.name == name,
            r.sex == info.sex,
            r.total == total_of(info.year_count@),
            forall|b: int| 0 <= b < 8 ==> r.year_count@[b] == bucket_of(info.year_count@, b),
            r.comments@.len() == 0,
            r.rating is None,
    {
        let ghost counts: Seq<u32> = info.year_count@;
        let mut buckets: [u64; 8] = [0, 0, 0, 0, 0, 0, 0, 0];
        let mut total: u64 = 0;
        for b in 0..8usize
            invariant
                total == sum_slice(counts, 0, 5 * b),
                total <= 40 * 0xffff_ffffu64,
                forall|i: int| 0 <= i < b ==> buckets@[i] == bucket_of(counts, i),
                counts == info.year_count@,
        {
            let mut s: u64 = 0;
            for j in 0..5usize
                invariant
                    b < 8,
                    s == sum_slice(counts, 5 * b, 5 * b + j),
                    s <= 5 * 0xffff_ffffu64,
                    counts == info.year_count@,
            {
                proof {
                    lemma_sum_slice_bound(counts, 5 * b as int, 5 * b + j as int);
                }
                s = s + info.year_count[5 * b + j] as u64;
                proof {
                    let k: int = 5 * (b as int) + (j as int);
                    assert(sum_slice(counts, k + 1, k + 1) == 0);
                    assert(sum_slice(counts, k, k + 1) == counts[k] + sum_slice(counts, k + 1, k + 1));
                    lemma_sum_slice_concat(counts, 5 * (b as int), k, k + 1);
                }
            }
            buckets[b] = s;
            proof {
                lemma_sum_slice_bound(counts, 0, 5 * b as int);
                lemma_sum_slice_bound(counts, 5 * b as int, 5 * b + 5 as int);
                lemma_sum_slice_concat(counts, 0, 5 * b as int, 5 * b + 5 as int);
            }
            total = total + s;
        }
        NameEntry {
            name,
            sex: info.sex,
            total,
            year_count: buckets,
            comments: String::new(),
            rating: None,
        }
    }
}

/// Aggregation is deterministic: two aggregated entries built from the
/// same name and the same raw statistics agree on every derived field.
pub proof fn lemma_aggregate_deterministic(r1: NameEntry, r2: NameEntry, name: String, info: Info)
    requires
        r1.name == name,
        r1.sex == info.sex,
        r1.total == total_of(info.year_count@),
        forall|b: int| 0 <= b < 8 ==> r1.year_count@[b] == bucket_of(info.year_count@, b),
        r1.comments@.len() == 0,
        r1.rating is None,
        r2.name == name,
        r2.sex == info.sex,
        r2.total == total_of(info.year_count@),
        forall|b: int| 0 <= b < 8 ==> r2.year_count@[b] == bucket_of(info.year_count@, b),
        r2.comments@.len() == 0,
        r2.rating is None,
    ensures
        r1.name == r2.name,
        r1.sex == r2.sex,
        r1.total == r2.total,
        r1.year_count == r2.year_count,
        r1.rating == r2.rating,
{
    assert(r1.year_count@ =~= r2.year_count@);
    assert(r1.year_count == r2.year_count) by {
        vstd::array::axiom_array_ext_equal(r1.year_count, r2.year_count);
    }
}

} // verus!
