//! The whole run over files whose content is at hand: the three stages one
//! after another, each hashing only what the stage before left, and the
//! counters of the run.

use vstd::prelude::*;
use crate::digest::{blake3_hex, full_hash, partial_hash, sample};
use crate::group::{
    group_seqs, in_groups, is_duplicate_grouping, lemma_member_iff_repeated,
    lemma_together_iff_same_key, member_mask, repeated, together,
};
use crate::metrics::{collect_metrics, metrics_of, Metrics};
use crate::stages::{
    candidates_by_size, confirm_with_full_hash, digest_view, filter_by_partial_hash, size_keys,
    stage_keys,
};

verus! {

/// What a run leaves: the groups after each stage and the counters.
pub struct Report {
    /// The groups of files of equal size.
    pub candidates: Vec<Vec<usize>>,
    /// The groups of candidates of equal fingerprint.
    pub partial_groups: Vec<Vec<usize>>,
    /// The groups of files of equal content.
    pub duplicates: Vec<Vec<usize>>,
    /// The counters of the run.
    pub metrics: Metrics,
}

/// The size of each file.
pub open spec fn content_sizes(contents: Seq<Vec<u8>>) -> Seq<u64> {
    Seq::new(contents.len(), |i: int| contents[i]@.len() as u64)
}

/// The key of each file in the second stage: the fingerprint of a file that
/// shares its size with another, none for the others.
pub open spec fn fingerprint_keys(contents: Seq<Vec<u8>>) -> Seq<Option<Seq<char>>> {
    Seq::new(
        contents.len(),
        |i: int|
            if repeated(size_keys(content_sizes(contents)), i) {
                Some(blake3_hex(sample(contents[i]@)))
            } else {
                None
            },
    )
}

/// The key of each file in the third stage: the digest of a file that shares
/// its fingerprint with another, none for the others.
pub open spec fn hash_keys(contents: Seq<Vec<u8>>) -> Seq<Option<Seq<char>>> {
    Seq::new(
        contents.len(),
        |i: int|
            if repeated(fingerprint_keys(contents), i) {
                Some(blake3_hex(contents[i]@))
            } else {
                None
            },
    )
}

/// The sizes of the files.
fn sizes_of(contents: &Vec<Vec<u8>>) -> (sizes: Vec<u64>)
    ensures
        sizes@ == content_sizes(contents@),
{
    let mut sizes: Vec<u64> = Vec::new();
    let mut i: usize = 0;
    while i < contents.len()
        invariant
            i <= contents.len(),
            sizes.len() == i,
            forall|k: int| 0 <= k < i ==> #[trigger] sizes[k] == contents[k]@.len() as u64,
        decreases contents.len() - i,
    {
        sizes.push(contents[i].len() as u64);
        i += 1;
    }
    assert(sizes@ =~= content_sizes(contents@));
    sizes
}

/// The fingerprints of the marked files.
fn fingerprints_of(contents: &Vec<Vec<u8>>, live: &Vec<bool>) -> (out: Vec<Option<String>>)
    requires
        live.len() == contents.len(),
    ensures
        out.len() == contents.len(),
        forall|k: int|
            0 <= k < out.len() ==> digest_view(#[trigger] out[k]) == if live[k] {
                Some(blake3_hex(sample(contents[k]@)))
            } else {
                None
            },
{
    let mut out: Vec<Option<String>> = Vec::new();
    let mut i: usize = 0;
    while i < contents.len()
        invariant
            i <= contents.len(),
            live.len() == contents.len(),
            out.len() == i,
            forall|k: int|
                0 <= k < i ==> digest_view(#[trigger] out[k]) == if live[k] {
                    Some(blake3_hex(sample(contents[k]@)))
                } else {
                    None
                },
        decreases contents.len() - i,
    {
        if live[i] {
            out.push(Some(partial_hash(contents[i].as_slice())));
        } else {
            out.push(None);
        }
        i += 1;
    }
    out
}

/// The digests of the whole content of the marked files.
fn hashes_of(contents: &Vec<Vec<u8>>, live: &Vec<bool>) -> (out: Vec<Option<String>>)
    requires
        live.len() == contents.len(),
    ensures
        out.len() == contents.len(),
        forall|k: int|
            0 <= k < out.len() ==> digest_view(#[trigger] out[k]) == if live[k] {
                Some(blake3_hex(contents[k]@))
            } else {
                None
            },
{
    let mut out: Vec<Option<String>> = Vec::new();
    let mut i: usize = 0;
    while i < contents.len()
        invariant
            i <= contents.len(),
            live.len() == contents.len(),
            out.len() == i,
            forall|k: int|
                0 <= k < i ==> digest_view(#[trigger] out[k]) == if live[k] {
                    Some(blake3_hex(contents[k]@))
                } else {
                    None
                },
        decreases contents.len() - i,
    {
        if live[i] {
            out.push(Some(full_hash(contents[i].as_slice())));
        } else {
            out.push(None);
        }
        i += 1;
    }
    out
}

/// Finds the groups of identical files among `contents`. A file is named by
/// its index. Only files that share their size with another are
/// fingerprinted, and only those that share their fingerprint too are hashed
/// whole.
pub fn find_duplicates(contents: &Vec<Vec<u8>>) -> (report: Report)
    ensures
        is_duplicate_grouping(
            group_seqs(report.candidates@),
            size_keys(content_sizes(contents@)),
        ),
        is_duplicate_grouping(group_seqs(report.partial_groups@), fingerprint_keys(contents@)),
        is_duplicate_grouping(group_seqs(report.duplicates@), hash_keys(contents@)),
        report.metrics == metrics_of(
            content_sizes(contents@),
            group_seqs(report.candidates@),
            group_seqs(report.partial_groups@),
            group_seqs(report.duplicates@),
        ),
{
    let sizes = sizes_of(contents);
    let candidates = candidates_by_size(&sizes);
    let live = member_mask(&candidates, contents.len());
    let fingerprints = fingerprints_of(contents, &live);
    let partial_groups = filter_by_partial_hash(&candidates, &fingerprints);
    proof {
        let ks = size_keys(content_sizes(contents@));
        assert forall|i: int| 0 <= i < contents.len() implies in_groups(
            group_seqs(candidates@),
            i,
        ) == repeated(ks, i) by {
            lemma_member_iff_repeated(group_seqs(candidates@), ks, i);
        }
        assert(stage_keys(group_seqs(candidates@), fingerprints@) =~= fingerprint_keys(contents@));
    }
    let live = member_mask(&partial_groups, contents.len());
    let hashes = hashes_of(contents, &live);
    let duplicates = confirm_with_full_hash(&partial_groups, &hashes);
    proof {
        let ks = fingerprint_keys(contents@);
        assert forall|i: int| 0 <= i < contents.len() implies in_groups(
            group_seqs(partial_groups@),
            i,
        ) == repeated(ks, i) by {
            lemma_member_iff_repeated(group_seqs(partial_groups@), ks, i);
        }
        assert(stage_keys(group_seqs(partial_groups@), hashes@) =~= hash_keys(contents@));
    }
    let metrics = collect_metrics(&sizes, &candidates, &partial_groups, &duplicates);
    Report { candidates, partial_groups, duplicates, metrics }
}

/// Two files that are not empty and have the same content are members of
/// one group of duplicates, wherever they stand among the files.
pub proof fn lemma_identical_content_together(
    contents: Seq<Vec<u8>>,
    duplicates: Seq<Seq<usize>>,
    i: int,
    j: int,
)
    requires
        is_duplicate_grouping(duplicates, hash_keys(contents)),
        0 <= i < contents.len(),
        0 <= j < contents.len(),
        i != j,
        contents[i]@ == contents[j]@,
        contents[i]@.len() > 0,
    ensures
        together(duplicates, i, j),
{
    let sk = size_keys(content_sizes(contents));
    assert(contents[i]@.len() == contents[i].len());
    assert(sk[j] == sk[i] && sk[i] == sk[j]);
    assert(repeated(sk, i) && repeated(sk, j));
    let fk = fingerprint_keys(contents);
    assert(fk[j] == fk[i] && fk[i] == fk[j]);
    assert(repeated(fk, i) && repeated(fk, j));
    let hk = hash_keys(contents);
    assert(hk[i] is Some && hk[i] == hk[j]);
    lemma_together_iff_same_key(duplicates, hk, i, j);
}

/// Two files in one group of duplicates have the same digest of their whole
/// content, the same fingerprint and the same size; so two files whose
/// digests differ are never in one group, even where sizes and fingerprints
/// agree.
pub proof fn lemma_together_same_digest(
    contents: Seq<Vec<u8>>,
    duplicates: Seq<Seq<usize>>,
    i: int,
    j: int,
)
    requires
        is_duplicate_grouping(duplicates, hash_keys(contents)),
        together(duplicates, i, j),
    ensures
        0 <= i < contents.len(),
        0 <= j < contents.len(),
        blake3_hex(contents[i]@) == blake3_hex(contents[j]@),
{
    let hk = hash_keys(contents);
    if i != j {
        lemma_together_iff_same_key(duplicates, hk, i, j);
    } else {
        assert(in_groups(duplicates, i));
        lemma_member_iff_repeated(duplicates, hk, i);
    }
}

/// A member of a group of duplicates is not empty, shares its size and its
/// fingerprint with another file, and was a member of a candidate group and
/// of a group of the second stage.
pub proof fn lemma_duplicates_survived(
    contents: Seq<Vec<u8>>,
    candidates: Seq<Seq<usize>>,
    partial_groups: Seq<Seq<usize>>,
    duplicates: Seq<Seq<usize>>,
    i: int,
)
    requires
        is_duplicate_grouping(candidates, size_keys(content_sizes(contents))),
        is_duplicate_grouping(partial_groups, fingerprint_keys(contents)),
        is_duplicate_grouping(duplicates, hash_keys(contents)),
        in_groups(duplicates, i),
    ensures
        0 <= i < contents.len(),
        contents[i]@.len() > 0,
        in_groups(partial_groups, i),
        in_groups(candidates, i),
{
    lemma_member_iff_repeated(duplicates, hash_keys(contents), i);
    lemma_member_iff_repeated(partial_groups, fingerprint_keys(contents), i);
    lemma_member_iff_repeated(candidates, size_keys(content_sizes(contents)), i);
}

} // verus!
