//! The three stages that narrow the scanned files down to duplicates: by
//! size, by fingerprint, by digest of the whole content.

use vstd::prelude::*;
use crate::group::{
    duplicates_by_key, group_seqs, in_groups, is_duplicate_grouping, is_partition,
    lemma_member_iff_repeated, member_mask, partition_by_key, effective_keys,
};

verus! {

/// The key of each file in the first stage: its size, and none for an empty
/// file.
pub open spec fn size_keys(sizes: Seq<u64>) -> Seq<Option<u64>> {
    Seq::new(
        sizes.len(),
        |i: int|
            if sizes[i] > 0 {
                Some(sizes[i])
            } else {
                None
            },
    )
}

/// The digest of a file as a sequence of characters, where there is one.
pub open spec fn digest_view(d: Option<String>) -> Option<Seq<char>> {
    match d {
        Some(s) => Some(s@),
        None => None,
    }
}

/// The key of each file in a later stage: its digest, and none for a file
/// that the stage before left in no group, or whose digest could not be
/// taken.
pub open spec fn stage_keys(prev: Seq<Seq<usize>>, digests: Seq<Option<String>>) -> Seq<
    Option<Seq<char>>,
> {
    Seq::new(
        digests.len(),
        |i: int|
            if in_groups(prev, i) {
                digest_view(digests[i])
            } else {
                None
            },
    )
}

/// The sizes as keys, and the mark of the files that are not empty.
fn size_key_table(sizes: &Vec<u64>) -> (r: (Vec<Option<u64>>, Vec<bool>))
    ensures
        effective_keys(r.0@, r.1@) == size_keys(sizes@),
{
    let mut keys: Vec<Option<u64>> = Vec::new();
    let mut live: Vec<bool> = Vec::new();
    let mut i: usize = 0;
    while i < sizes.len()
        invariant
            i <= sizes.len(),
            keys.len() == i,
            live.len() == i,
            forall|k: int| 0 <= k < i ==> #[trigger] keys[k] == Some(sizes[k]),
            forall|k: int| 0 <= k < i ==> #[trigger] live[k] == (sizes[k] > 0),
        decreases sizes.len() - i,
    {
        keys.push(Some(sizes[i]));
        live.push(sizes[i] > 0);
        i += 1;
    }
    (keys, live)
}

/// Groups the files that are not empty by size. Groups of one file are
/// still among the result.
pub fn group_by_size(sizes: &Vec<u64>) -> (groups: Vec<Vec<usize>>)
    ensures
        is_partition(group_seqs(groups@), size_keys(sizes@)),
{
    let table = size_key_table(sizes);
    partition_by_key(&table.0, &table.1)
}

/// The candidate groups: the files that are not empty, grouped by size,
/// where two or more share a size.
pub fn candidates_by_size(sizes: &Vec<u64>) -> (groups: Vec<Vec<usize>>)
    ensures
        is_duplicate_grouping(group_seqs(groups@), size_keys(sizes@)),
{
    let table = size_key_table(sizes);
    duplicates_by_key(&table.0, &table.1)
}

/// Groups the members of `prev` by digest and keeps the groups of two files
/// or more. A file without a digest leaves; so does one that no group of
/// `prev` holds.
fn regroup(prev: &Vec<Vec<usize>>, digests: &Vec<Option<String>>) -> (groups: Vec<Vec<usize>>)
    ensures
        is_duplicate_grouping(group_seqs(groups@), stage_keys(group_seqs(prev@), digests@)),
{
    let live = member_mask(prev, digests.len());
    assert(effective_keys(digests@, live@) =~= stage_keys(group_seqs(prev@), digests@));
    duplicates_by_key(digests, &live)
}

/// The second stage: groups the files of the candidate groups by their
/// fingerprint, across all candidate groups, and keeps the groups of two
/// files or more. `fingerprints[i]` is the fingerprint of file `i`, or none
/// where it could not be read.
pub fn filter_by_partial_hash(candidates: &Vec<Vec<usize>>, fingerprints: &Vec<Option<String>>) -> (groups:
    Vec<Vec<usize>>)
    ensures
        is_duplicate_grouping(
            group_seqs(groups@),
            stage_keys(group_seqs(candidates@), fingerprints@),
        ),
{
    regroup(candidates, fingerprints)
}

/// The third stage: groups the files that the second stage left by the
/// digest of their whole content and keeps the groups of two files or more:
/// the duplicates. `hashes[i]` is the digest of file `i`, or none where it
/// could not be read.
pub fn confirm_with_full_hash(partial_groups: &Vec<Vec<usize>>, hashes: &Vec<Option<String>>) -> (groups:
    Vec<Vec<usize>>)
    ensures
        is_duplicate_grouping(group_seqs(groups@), stage_keys(group_seqs(partial_groups@), hashes@)),
{
    regroup(partial_groups, hashes)
}

/// No empty file is a member of a candidate group.
pub proof fn lemma_candidates_nonempty(gs: Seq<Seq<usize>>, sizes: Seq<u64>, i: int)
    requires
        is_duplicate_grouping(gs, size_keys(sizes)),
        in_groups(gs, i),
    ensures
        0 <= i < sizes.len(),
        sizes[i] > 0,
{
    lemma_member_iff_repeated(gs, size_keys(sizes), i);
}

/// A stage brings in no file: every member of its groups was a member of
/// the groups it was given, and has a digest.
pub proof fn lemma_stage_shrinks(
    gs: Seq<Seq<usize>>,
    prev: Seq<Seq<usize>>,
    digests: Seq<Option<String>>,
    i: int,
)
    requires
        is_duplicate_grouping(gs, stage_keys(prev, digests)),
        in_groups(gs, i),
    ensures
        in_groups(prev, i),
        0 <= i < digests.len(),
        digests[i] is Some,
{
    lemma_member_iff_repeated(gs, stage_keys(prev, digests), i);
}

} // verus!
