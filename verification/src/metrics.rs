//! The counters of one run.

use vstd::prelude::*;
use crate::digest::WINDOW;

verus! {

/// The counters of one run.
#[derive(Clone, Copy, Debug, PartialEq, Eq, Structural)]
pub struct Metrics {
    pub total_files: u64,
    pub total_bytes: u64,
    pub candidate_groups: u64,
    pub partial_groups: u64,
    pub duplicate_groups: u64,
    pub duplicate_files: u64,
    pub reclaimable_bytes: u64,
    pub bytes_hashed_partial: u64,
    pub bytes_hashed_full: u64,
}

/// `x`, or the largest `u64` where `x` is beyond it.
pub open spec fn capped(x: int) -> int {
    if x > u64::MAX {
        u64::MAX as int
    } else {
        x
    }
}

/// The size of file `i`; nothing where there is no such file.
pub open spec fn size_of(sizes: Seq<u64>, i: int) -> nat {
    if 0 <= i < sizes.len() {
        sizes[i] as nat
    } else {
        0
    }
}

/// The number of files that are not empty.
pub open spec fn count_nonempty(sizes: Seq<u64>) -> nat
    decreases sizes.len(),
{
    if sizes.len() == 0 {
        0
    } else {
        count_nonempty(sizes.drop_last()) + if sizes.last() > 0 {
            1nat
        } else {
            0nat
        }
    }
}

/// The sum of all sizes.
pub open spec fn sum_sizes(sizes: Seq<u64>) -> nat
    decreases sizes.len(),
{
    if sizes.len() == 0 {
        0
    } else {
        sum_sizes(sizes.drop_last()) + sizes.last() as nat
    }
}

/// The number of bytes read of a file of `size` bytes where at most `cap`
/// are read.
pub open spec fn read_cost(size: nat, cap: nat) -> nat {
    if size < cap {
        size
    } else {
        cap
    }
}

/// The bytes read of the files of one group, at most `cap` of each.
pub open spec fn group_cost(g: Seq<usize>, sizes: Seq<u64>, cap: nat) -> nat
    decreases g.len(),
{
    if g.len() == 0 {
        0
    } else {
        group_cost(g.drop_last(), sizes, cap) + read_cost(size_of(sizes, g.last() as int), cap)
    }
}

/// The bytes read of the files of all groups, at most `cap` of each.
pub open spec fn groups_cost(gs: Seq<Seq<usize>>, sizes: Seq<u64>, cap: nat) -> nat
    decreases gs.len(),
{
    if gs.len() == 0 {
        0
    } else {
        groups_cost(gs.drop_last(), sizes, cap) + group_cost(gs.last(), sizes, cap)
    }
}

/// The number of files in all groups.
pub open spec fn member_count(gs: Seq<Seq<usize>>) -> nat
    decreases gs.len(),
{
    if gs.len() == 0 {
        0
    } else {
        member_count(gs.drop_last()) + gs.last().len()
    }
}

/// The bytes freed by keeping one file of a group: the size of its first
/// file for each of the others.
pub open spec fn reclaim_of(g: Seq<usize>, sizes: Seq<u64>) -> nat {
    if g.len() == 0 {
        0
    } else {
        size_of(sizes, g[0] as int) * ((g.len() - 1) as nat)
    }
}

/// The bytes freed by keeping one file of each group.
pub open spec fn reclaimable(gs: Seq<Seq<usize>>, sizes: Seq<u64>) -> nat
    decreases gs.len(),
{
    if gs.len() == 0 {
        0
    } else {
        reclaimable(gs.drop_last(), sizes) + reclaim_of(gs.last(), sizes)
    }
}

/// A group of `n` files of `s` bytes each frees `s * (n - 1)` bytes.
pub proof fn lemma_reclaim_of_group(g: Seq<usize>, sizes: Seq<u64>, s: nat)
    requires
        g.len() >= 1,
        forall|b: int| 0 <= b < g.len() ==> size_of(sizes, #[trigger] g[b] as int) == s,
    ensures
        reclaim_of(g, sizes) == s * (g.len() - 1),
{
}

/// The number of files that are not empty, and the sum of their sizes.
pub fn scan_totals(sizes: &Vec<u64>) -> (r: (u64, u64))
    ensures
        r.0 == capped(count_nonempty(sizes@) as int),
        r.1 == capped(sum_sizes(sizes@) as int),
{
    let mut files: u64 = 0;
    let mut bytes: u64 = 0;
    let mut i: usize = 0;
    while i < sizes.len()
        invariant
            i <= sizes.len(),
            files == capped(count_nonempty(sizes@.take(i as int)) as int),
            bytes == capped(sum_sizes(sizes@.take(i as int)) as int),
        decreases sizes.len() - i,
    {
        assert(sizes@.take(i + 1).drop_last() =~= sizes@.take(i as int));
        if sizes[i] > 0 {
            files = files.saturating_add(1);
        }
        bytes = bytes.saturating_add(sizes[i]);
        i += 1;
    }
    assert(sizes@.take(sizes.len() as int) =~= sizes@);
    (files, bytes)
}

/// The size recorded for file `i`.
fn size_at(sizes: &Vec<u64>, i: usize) -> (r: u64)
    ensures
        r == size_of(sizes@, i as int),
{
    if i < sizes.len() {
        sizes[i]
    } else {
        0
    }
}

/// The bytes read of the files of all groups, at most `cap` of each.
pub fn bytes_read(groups: &Vec<Vec<usize>>, sizes: &Vec<u64>, cap: u64) -> (r: u64)
    ensures
        r == capped(groups_cost(crate::group::group_seqs(groups@), sizes@, cap as nat) as int),
{
    let ghost gs = crate::group::group_seqs(groups@);
    let mut total: u64 = 0;
    let mut a: usize = 0;
    while a < groups.len()
        invariant
            a <= groups.len(),
            gs == crate::group::group_seqs(groups@),
            total == capped(groups_cost(gs.take(a as int), sizes@, cap as nat) as int),
        decreases groups.len() - a,
    {
        let group = &groups[a];
        let mut part: u64 = 0;
        let mut b: usize = 0;
        while b < group.len()
            invariant
                b <= group.len(),
                part == capped(group_cost(group@.take(b as int), sizes@, cap as nat) as int),
            decreases group.len() - b,
        {
            assert(group@.take(b + 1).drop_last() =~= group@.take(b as int));
            let size = size_at(sizes, group[b]);
            let cost = if size < cap {
                size
            } else {
                cap
            };
            part = part.saturating_add(cost);
            b += 1;
        }
        assert(group@.take(group.len() as int) =~= group@);
        assert(gs.take(a + 1).drop_last() =~= gs.take(a as int));
        total = total.saturating_add(part);
        a += 1;
    }
    assert(gs.take(groups.len() as int) =~= gs);
    total
}

/// The number of files in all groups.
pub fn count_members(groups: &Vec<Vec<usize>>) -> (r: u64)
    ensures
        r == capped(member_count(crate::group::group_seqs(groups@)) as int),
{
    let ghost gs = crate::group::group_seqs(groups@);
    let mut total: u64 = 0;
    let mut a: usize = 0;
    while a < groups.len()
        invariant
            a <= groups.len(),
            gs == crate::group::group_seqs(groups@),
            total == capped(member_count(gs.take(a as int)) as int),
        decreases groups.len() - a,
    {
        assert(gs.take(a + 1).drop_last() =~= gs.take(a as int));
        total = total.saturating_add(groups[a].len() as u64);
        a += 1;
    }
    assert(gs.take(groups.len() as int) =~= gs);
    total
}

/// The bytes freed by keeping one file of each group.
pub fn reclaimable_bytes(groups: &Vec<Vec<usize>>, sizes: &Vec<u64>) -> (r: u64)
    ensures
        r == capped(reclaimable(crate::group::group_seqs(groups@), sizes@) as int),
{
    let ghost gs = crate::group::group_seqs(groups@);
    let mut total: u64 = 0;
    let mut a: usize = 0;
    while a < groups.len()
        invariant
            a <= groups.len(),
            gs == crate::group::group_seqs(groups@),
            total == capped(reclaimable(gs.take(a as int), sizes@) as int),
        decreases groups.len() - a,
    {
        assert(gs.take(a + 1).drop_last() =~= gs.take(a as int));
        let group = &groups[a];
        let part: u64 = if group.len() == 0 {
            0
        } else {
            let size = size_at(sizes, group[0]);
            let others: u64 = (group.len() - 1) as u64;
            match size.checked_mul(others) {
                Some(p) => p,
                None => u64::MAX,
            }
        };
        total = total.saturating_add(part);
        a += 1;
    }
    assert(gs.take(groups.len() as int) =~= gs);
    total
}

/// The counters of a run, from the sizes scanned and the groups that each
/// stage left.
pub fn collect_metrics(
    sizes: &Vec<u64>,
    candidates: &Vec<Vec<usize>>,
    partial_groups: &Vec<Vec<usize>>,
    duplicates: &Vec<Vec<usize>>,
) -> (m: Metrics)
    ensures
        m == metrics_of(
            sizes@,
            crate::group::group_seqs(candidates@),
            crate::group::group_seqs(partial_groups@),
            crate::group::group_seqs(duplicates@),
        ),
{
    let totals = scan_totals(sizes);
    Metrics {
        total_files: totals.0,
        total_bytes: totals.1,
        candidate_groups: candidates.len() as u64,
        partial_groups: partial_groups.len() as u64,
        duplicate_groups: duplicates.len() as u64,
        duplicate_files: count_members(duplicates),
        reclaimable_bytes: reclaimable_bytes(duplicates, sizes),
        bytes_hashed_partial: bytes_read(candidates, sizes, 2 * (WINDOW as u64)),
        bytes_hashed_full: bytes_read(partial_groups, sizes, u64::MAX),
    }
}

/// The counters that belong to the given sizes and groups.
pub open spec fn metrics_of(
    sizes: Seq<u64>,
    candidates: Seq<Seq<usize>>,
    partial_groups: Seq<Seq<usize>>,
    duplicates: Seq<Seq<usize>>,
) -> Metrics {
    Metrics {
        total_files: capped(count_nonempty(sizes) as int) as u64,
        total_bytes: capped(sum_sizes(sizes) as int) as u64,
        candidate_groups: candidates.len() as u64,
        partial_groups: partial_groups.len() as u64,
        duplicate_groups: duplicates.len() as u64,
        duplicate_files: capped(member_count(duplicates) as int) as u64,
        reclaimable_bytes: capped(reclaimable(duplicates, sizes) as int) as u64,
        bytes_hashed_partial: capped(groups_cost(candidates, sizes, 2 * WINDOW as nat) as int) as u64,
        bytes_hashed_full: capped(groups_cost(partial_groups, sizes, u64::MAX as nat) as int) as u64,
    }
}

} // verus!
