//! Ranking of the per-directory totals for display.

use vstd::prelude::*;
use crate::walk::FolderStat;

verus! {

/// The largest size in the table, or zero for an empty table.
pub open spec fn is_largest(tbl: Seq<(String, FolderStat)>, r: u64) -> bool {
    &&& forall|t: int| 0 <= t < tbl.len() ==> (#[trigger] tbl[t]).1.size <= r
    &&& tbl.len() > 0 ==> exists|t: int| 0 <= t < tbl.len() && (#[trigger] tbl[t]).1.size == r
    &&& tbl.len() == 0 ==> r == 0
}

/// The total that percentages are taken of: the largest size of any
/// directory in the table.
pub fn reference_total(tbl: &Vec<(String, FolderStat)>) -> (r: u64)
    ensures
        is_largest(tbl@, r),
{
    let mut r: u64 = 0;
    let mut i: usize = 0;
    while i < tbl.len()
        invariant
            0 <= i <= tbl@.len(),
            forall|t: int| 0 <= t < i ==> (#[trigger] tbl@[t]).1.size <= r,
            i > 0 ==> exists|t: int| 0 <= t < i && (#[trigger] tbl@[t]).1.size == r,
            i == 0 ==> r == 0,
        decreases tbl@.len() - i,
    {
        if i == 0 || tbl[i].1.size > r {
            r = tbl[i].1.size;
            proof {
                assert(tbl@[i as int].1.size == r);
            }
        }
        i += 1;
    }
    r
}

/// `order` lists every row of the table once, from the smallest size up.
pub open spec fn is_ranking(tbl: Seq<(String, FolderStat)>, order: Seq<usize>) -> bool {
    &&& order.len() == tbl.len()
    &&& forall|k: int| 0 <= k < order.len() ==> #[trigger] order[k] < tbl.len()
    &&& forall|a: int, b: int|
        0 <= a < order.len() && 0 <= b < order.len() && a != b ==> #[trigger] order[a] != #[trigger] order[b]
    &&& forall|a: int, b: int|
        0 <= a < b < order.len() ==> tbl[#[trigger] order[a] as int].1.size <= tbl[#[trigger] order[b] as int].1.size
}

/// The rows of the table in ascending order of size.
pub fn ranking(tbl: &Vec<(String, FolderStat)>) -> (r: Vec<usize>)
    ensures
        is_ranking(tbl@, r@),
{
    let n = tbl.len();
    let mut r: Vec<usize> = Vec::new();
    let mut i: usize = 0;
    while i < n
        invariant
            n == tbl@.len(),
            0 <= i <= n,
            r@.len() == i,
            forall|k: int| 0 <= k < i ==> #[trigger] r@[k] == k,
        decreases n - i,
    {
        r.push(i);
        i += 1;
    }
    let mut i: usize = 0;
    while i < n
        invariant
            n == tbl@.len(),
            r@.len() == n,
            forall|k: int| 0 <= k < n ==> #[trigger] r@[k] < n,
            forall|a: int, b: int| 0 <= a < n && 0 <= b < n && a != b ==> #[trigger] r@[a] != #[trigger] r@[b],
            forall|a: int, b: int|
                0 <= a < b < i && b < n ==> tbl@[#[trigger] r@[a] as int].1.size <= tbl@[#[trigger] r@[b] as int].1.size,
        decreases n - i,
    {
        let mut j: usize = i;
        while j > 0 && tbl[r[j - 1]].1.size > tbl[r[j]].1.size
            invariant
                n == tbl@.len(),
                i < n,
                0 <= j <= i,
                r@.len() == n,
                forall|k: int| 0 <= k < n ==> #[trigger] r@[k] < n,
                forall|a: int, b: int| 0 <= a < n && 0 <= b < n && a != b ==> #[trigger] r@[a] != #[trigger] r@[b],
                forall|a: int, b: int|
                    0 <= a < b <= i && a != j && b != j ==> tbl@[#[trigger] r@[a] as int].1.size <= tbl@[#[trigger] r@[b] as int].1.size,
                forall|b: int| j < b <= i ==> tbl@[r@[j as int] as int].1.size <= tbl@[#[trigger] r@[b] as int].1.size,
            decreases j,
        {
            let x = r[j - 1];
            let y = r[j];
            r.set(j - 1, y);
            r.set(j, x);
            j -= 1;
        }
        proof {
            assert forall|a: int, b: int| 0 <= a < b < i + 1 && b < n implies tbl@[#[trigger] r@[a] as int].1.size <= tbl@[#[trigger] r@[b] as int].1.size by {
                if b == j && a < j {
                    assert(tbl@[r@[a] as int].1.size <= tbl@[r@[j - 1] as int].1.size || a == j - 1);
                }
            }
        }
        i += 1;
    }
    r
}

/// The share of `size` in `total`, in hundredths of a percent, rounded to
/// the nearest with halves rounded up.
pub open spec fn hundredths_of_percent(size: u64, total: u64) -> int {
    (20000 * size + total) / (2 * total as int)
}

/// The share of `size` in `total` in hundredths of a percent, or nothing
/// when the total is zero.
pub fn percent_hundredths(size: u64, total: u64) -> (r: Option<u128>)
    ensures
        total == 0 ==> r.is_none(),
        total > 0 ==> r == Some(hundredths_of_percent(size, total) as u128),
{
    if total == 0 {
        None
    } else {
        let num: u128 = 20000 * (size as u128) + (total as u128);
        let den: u128 = 2 * (total as u128);
        proof {
            assert(20000 * (size as u128) + (total as u128) <= 20001 * 0xffff_ffff_ffff_ffffu128) by (nonlinear_arith)
                requires size <= 0xffff_ffff_ffff_ffffu64, total <= 0xffff_ffff_ffff_ffffu64;
        }
        Some(num / den)
    }
}

/// The text that bytesize gives for a number of bytes.
pub uninterp spec fn byte_size_text(bytes: u64) -> Seq<char>;

/// Relies on bytesize's `Display` for `ByteSize`: a human-readable size,
/// which depends on the number of bytes alone.
#[verifier::external_body]
fn human_size(bytes: u64) -> (r: String)
    ensures
        r@ == byte_size_text(bytes),
{
    format!("{}", bytesize::ByteSize(bytes))
}

/// One line of the report.
pub struct ReportRow {
    pub size_text: String,
    pub percent: Option<u128>,
    pub files: usize,
    pub path: String,
}

/// `row` reports directory `t` of the table, its share taken of `total`.
pub open spec fn reports(tbl: Seq<(String, FolderStat)>, t: int, total: u64, row: ReportRow) -> bool {
    &&& row.size_text@ == byte_size_text(tbl[t].1.size)
    &&& row.percent == if total == 0 {
        None::<u128>
    } else {
        Some(hundredths_of_percent(tbl[t].1.size, total) as u128)
    }
    &&& row.files == tbl[t].1.files
    &&& row.path@ == tbl[t].0@
}

/// The lines of the report: one per directory, from the smallest size up,
/// each with its share of the largest size.
pub fn report_rows(tbl: &Vec<(String, FolderStat)>) -> (r: Vec<ReportRow>)
    ensures
        exists|order: Seq<usize>|
            {
                &&& is_ranking(tbl@, order)
                &&& r@.len() == order.len()
                &&& forall|k: int|
                    0 <= k < order.len() ==> reports(
                        tbl@,
                        #[trigger] order[k] as int,
                        reference_total_of(tbl@),
                        r@[k],
                    )
            },
{
    let total = reference_total(tbl);
    proof {
        lemma_largest_unique(tbl@, total);
    }
    let order = ranking(tbl);
    let mut r: Vec<ReportRow> = Vec::new();
    let mut k: usize = 0;
    while k < order.len()
        invariant
            is_ranking(tbl@, order@),
            total == reference_total_of(tbl@),
            0 <= k <= order@.len(),
            r@.len() == k,
            forall|m: int| 0 <= m < k ==> reports(tbl@, #[trigger] order@[m] as int, total, r@[m]),
        decreases order@.len() - k,
    {
        let t = order[k];
        let stat = tbl[t].1;
        r.push(
            ReportRow {
                size_text: human_size(stat.size),
                percent: percent_hundredths(stat.size, total),
                files: stat.files,
                path: tbl[t].0.clone(),
            },
        );
        k += 1;
    }
    r
}

/// The largest size in the table.
pub open spec fn reference_total_of(tbl: Seq<(String, FolderStat)>) -> u64 {
    choose|r: u64| is_largest(tbl, r)
}

proof fn lemma_largest_unique(tbl: Seq<(String, FolderStat)>, r: u64)
    requires
        is_largest(tbl, r),
    ensures
        reference_total_of(tbl) == r,
{
    let c = reference_total_of(tbl);
    assert(is_largest(tbl, c));
    if tbl.len() > 0 {
        let t1 = choose|t: int| 0 <= t < tbl.len() && (#[trigger] tbl[t]).1.size == r;
        let t2 = choose|t: int| 0 <= t < tbl.len() && (#[trigger] tbl[t]).1.size == c;
        assert(tbl[t1].1.size <= c);
        assert(tbl[t2].1.size <= r);
    }
}

} // verus!
