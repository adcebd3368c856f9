//! Grouping of file indices by a key, and the selection of groups that hold
//! at least two files.

use std::collections::HashMap;
use vstd::prelude::*;

verus! {

/// A key by which files are grouped: two keys are the same when their views
/// are equal. Each key has a bucket, a number that equal keys share: the
/// group of a key is looked for among the groups of its bucket only.
pub trait GroupKey: View + Sized {
    spec fn bucket_of(v: Self::V) -> u64;

    fn bucket(&self) -> (b: u64)
        ensures
            b == Self::bucket_of(self@),
    ;

    fn same_key(&self, other: &Self) -> (r: bool)
        ensures
            r == (self@ == other@),
    ;
}

impl GroupKey for u64 {
    open spec fn bucket_of(v: u64) -> u64 {
        v
    }

    fn bucket(&self) -> (b: u64) {
        *self
    }

    fn same_key(&self, other: &Self) -> (r: bool) {
        *self == *other
    }
}

/// The low eight bits of a character's code.
pub open spec fn low_byte(c: char) -> u64 {
    ((c as u32) % 256) as u64
}

/// The number that the first eight characters of a string spell, a byte
/// for each; nothing for a shorter string.
pub open spec fn prefix_number(v: Seq<char>) -> u64 {
    if v.len() < 8 {
        0
    } else {
        (low_byte(v[0]) + low_byte(v[1]) * 0x100 + low_byte(v[2]) * 0x1_0000 + low_byte(v[3])
            * 0x100_0000 + low_byte(v[4]) * 0x1_0000_0000 + low_byte(v[5]) * 0x100_0000_0000
            + low_byte(v[6]) * 0x1_0000_0000_0000 + low_byte(v[7]) * 0x100_0000_0000_0000) as u64
    }
}

/// The low eight bits of the code of character `i` of `s`.
fn low_byte_at(s: &str, i: usize) -> (r: u64)
    requires
        i < s@.len(),
    ensures
        r == low_byte(s@[i as int]),
        r < 256,
{
    ((s.get_char(i) as u32) % 256) as u64
}

impl GroupKey for String {
    open spec fn bucket_of(v: Seq<char>) -> u64 {
        prefix_number(v)
    }

    fn bucket(&self) -> (b: u64) {
        let s = self.as_str();
        if s.unicode_len() < 8 {
            0
        } else {
            low_byte_at(s, 0) + low_byte_at(s, 1) * 0x100 + low_byte_at(s, 2) * 0x1_0000
                + low_byte_at(s, 3) * 0x100_0000 + low_byte_at(s, 4) * 0x1_0000_0000 + low_byte_at(
                s,
                5,
            ) * 0x100_0000_0000 + low_byte_at(s, 6) * 0x1_0000_0000_0000 + low_byte_at(s, 7)
                * 0x100_0000_0000_0000
        }
    }

    fn same_key(&self, other: &Self) -> (r: bool) {
        *self == *other
    }
}

/// The groups as sequences of file indices.
pub open spec fn group_seqs(groups: Seq<Vec<usize>>) -> Seq<Seq<usize>> {
    Seq::new(groups.len(), |a: int| groups[a]@)
}

/// The key under which file `i` takes part: none where the file is not live
/// or has no key.
pub open spec fn key_of<K: View>(keys: Seq<Option<K>>, live: Seq<bool>, i: int) -> Option<K::V> {
    if 0 <= i < keys.len() && i < live.len() && live[i] {
        match keys[i] {
            Some(k) => Some(k@),
            None => None,
        }
    } else {
        None
    }
}

/// The keys of all files, file by file.
pub open spec fn effective_keys<K: View>(keys: Seq<Option<K>>, live: Seq<bool>) -> Seq<
    Option<K::V>,
> {
    Seq::new(keys.len(), |i: int| key_of(keys, live, i))
}

/// Whether file `i` is a member of the group `g`.
pub open spec fn holds(g: Seq<usize>, i: int) -> bool {
    exists|b: int| 0 <= b < g.len() && #[trigger] g[b] == i
}

/// Whether file `i` is a member of some group.
pub open spec fn in_groups(gs: Seq<Seq<usize>>, i: int) -> bool {
    exists|a: int| 0 <= a < gs.len() && #[trigger] holds(gs[a], i)
}

/// Whether files `i` and `j` are members of one group.
pub open spec fn together(gs: Seq<Seq<usize>>, i: int, j: int) -> bool {
    exists|a: int| 0 <= a < gs.len() && #[trigger] holds(gs[a], i) && holds(gs[a], j)
}

/// Every group is non-empty, holds only files below `n` that have a key, all
/// with the key of the group's first file; a group lists its files in rising
/// order; groups stand in the order of their first files and no two groups
/// share a key.
pub open spec fn well_grouped<V>(gs: Seq<Seq<usize>>, ks: Seq<Option<V>>, n: int) -> bool {
    &&& forall|a: int| 0 <= a < gs.len() ==> (#[trigger] gs[a]).len() >= 1
    &&& forall|a: int, b: int|
        0 <= a < gs.len() && 0 <= b < gs[a].len() ==> {
            &&& 0 <= (#[trigger] gs[a][b]) < n
            &&& ks[gs[a][b] as int] is Some
            &&& ks[gs[a][b] as int] == ks[gs[a][0] as int]
        }
    &&& forall|a: int, b: int, c: int|
        0 <= a < gs.len() && 0 <= b < c < gs[a].len() ==> (#[trigger] gs[a][b]) < (
        #[trigger] gs[a][c])
    &&& forall|a: int, c: int|
        0 <= a < c < gs.len() ==> (#[trigger] gs[a])[0] < (#[trigger] gs[c])[0] && ks[gs[a][0] as int]
            != ks[gs[c][0] as int]
}

/// Every file below `n` that has a key is a member of some group.
pub open spec fn covers_keyed<V>(gs: Seq<Seq<usize>>, ks: Seq<Option<V>>, n: int) -> bool {
    forall|i: int| 0 <= i < n && (#[trigger] ks[i]) is Some ==> in_groups(gs, i)
}

/// `gs` is the partition of the keyed files by key.
pub open spec fn is_partition<V>(gs: Seq<Seq<usize>>, ks: Seq<Option<V>>) -> bool {
    &&& well_grouped(gs, ks, ks.len() as int)
    &&& covers_keyed(gs, ks, ks.len() as int)
}

/// Every file whose key another file shares is a member of some group.
pub open spec fn covers_repeated<V>(gs: Seq<Seq<usize>>, ks: Seq<Option<V>>) -> bool {
    forall|i: int, j: int|
        0 <= i < ks.len() && 0 <= j < ks.len() && i != j && (#[trigger] ks[i]) is Some && ks[i] == (
        #[trigger] ks[j]) ==> in_groups(gs, i)
}

/// `gs` holds exactly the classes of equal keys that have two files or more.
pub open spec fn is_duplicate_grouping<V>(gs: Seq<Seq<usize>>, ks: Seq<Option<V>>) -> bool {
    &&& well_grouped(gs, ks, ks.len() as int)
    &&& forall|a: int| 0 <= a < gs.len() ==> (#[trigger] gs[a]).len() >= 2
    &&& covers_repeated(gs, ks)
}

/// Adding the next file to the group of its key keeps the groups a
/// partition of the files seen so far.
pub proof fn lemma_member_added<V>(
    before: Seq<Seq<usize>>,
    after: Seq<Seq<usize>>,
    ks: Seq<Option<V>>,
    a: int,
    i: int,
)
    requires
        well_grouped(before, ks, i),
        covers_keyed(before, ks, i),
        0 <= i < ks.len(),
        i <= usize::MAX,
        ks[i] is Some,
        0 <= a < before.len(),
        ks[before[a][0] as int] == ks[i],
        after.len() == before.len(),
        after[a] == before[a].push(i as usize),
        forall|c: int| 0 <= c < before.len() && c != a ==> after[c] == before[c],
    ensures
        well_grouped(after, ks, i + 1),
        covers_keyed(after, ks, i + 1),
{
    assert forall|j: int| 0 <= j < i + 1 && (#[trigger] ks[j]) is Some implies in_groups(
        after,
        j,
    ) by {
        if j == i {
            assert(after[a][before[a].len() as int] == i);
            assert(holds(after[a], j));
        } else {
            assert(in_groups(before, j));
            let c = choose|c: int| 0 <= c < before.len() && #[trigger] holds(before[c], j);
            let b = choose|b: int| 0 <= b < before[c].len() && #[trigger] before[c][b] == j;
            assert(after[c][b] == j);
            assert(holds(after[c], j));
        }
    }
}

/// Opening a group for the next file, where no group has its key, keeps
/// the groups a partition of the files seen so far.
pub proof fn lemma_group_opened<V>(
    before: Seq<Seq<usize>>,
    after: Seq<Seq<usize>>,
    ks: Seq<Option<V>>,
    i: int,
)
    requires
        well_grouped(before, ks, i),
        covers_keyed(before, ks, i),
        0 <= i < ks.len(),
        i <= usize::MAX,
        ks[i] is Some,
        forall|c: int| 0 <= c < before.len() ==> ks[(#[trigger] before[c])[0] as int] != ks[i],
        after == before.push(seq![i as usize]),
    ensures
        well_grouped(after, ks, i + 1),
        covers_keyed(after, ks, i + 1),
{
    let last = before.len() as int;
    assert forall|j: int| 0 <= j < i + 1 && (#[trigger] ks[j]) is Some implies in_groups(
        after,
        j,
    ) by {
        if j == i {
            assert(after[last][0] == i);
            assert(holds(after[last], j));
        } else {
            assert(in_groups(before, j));
            let c = choose|c: int| 0 <= c < before.len() && #[trigger] holds(before[c], j);
            assert(holds(after[c], j));
        }
    }
}

/// Appends file `i` to group `a`.
pub(crate) fn push_member(groups: &mut Vec<Vec<usize>>, a: usize, i: usize)
    requires
        a < old(groups).len(),
    ensures
        final(groups).len() == old(groups).len(),
        final(groups)@[a as int]@ == old(groups)@[a as int]@.push(i),
        forall|c: int| 0 <= c < old(groups).len() && c != a ==> final(groups)@[c] == old(groups)@[c],
{
    groups[a].push(i);
}

/// The bucket of the key of file `i`.
pub open spec fn bucket_at<K: GroupKey>(ks: Seq<Option<K::V>>, i: int) -> u64 {
    match ks[i] {
        Some(v) => K::bucket_of(v),
        None => 0,
    }
}

/// Whether list `p` names group `c`.
pub open spec fn listed(lists: Seq<Vec<usize>>, p: int, c: int) -> bool {
    exists|t: int| 0 <= t < lists[p]@.len() && #[trigger] lists[p]@[t] == c
}

/// The table that leads from a bucket to its groups: `place` gives the list
/// of a bucket, every list names groups only, and every group is named in
/// the list of the bucket of its key.
pub open spec fn indexes<K: GroupKey>(
    place: Map<u64, usize>,
    lists: Seq<Vec<usize>>,
    gs: Seq<Seq<usize>>,
    ks: Seq<Option<K::V>>,
) -> bool {
    &&& forall|b: u64| #[trigger] place.contains_key(b) ==> place[b] < lists.len()
    &&& forall|p: int, t: int|
        0 <= p < lists.len() && 0 <= t < lists[p]@.len() ==> (#[trigger] lists[p]@[t]) < gs.len()
    &&& forall|c: int|
        0 <= c < gs.len() ==> {
            let b = bucket_at::<K>(ks, (#[trigger] gs[c])[0] as int);
            place.contains_key(b) && listed(lists, place[b] as int, c)
        }
}

/// Adding a file to a group leaves the table as it is.
pub proof fn lemma_index_member_added<K: GroupKey>(
    place: Map<u64, usize>,
    lists: Seq<Vec<usize>>,
    before: Seq<Seq<usize>>,
    after: Seq<Seq<usize>>,
    ks: Seq<Option<K::V>>,
    a: int,
    x: usize,
)
    requires
        indexes::<K>(place, lists, before, ks),
        forall|c: int| 0 <= c < before.len() ==> (#[trigger] before[c]).len() >= 1,
        0 <= a < before.len(),
        after.len() == before.len(),
        after[a] == before[a].push(x),
        forall|c: int| 0 <= c < before.len() && c != a ==> after[c] == before[c],
    ensures
        indexes::<K>(place, lists, after, ks),
{
    assert forall|c: int| 0 <= c < after.len() implies {
        let b = bucket_at::<K>(ks, (#[trigger] after[c])[0] as int);
        place.contains_key(b) && listed(lists, place[b] as int, c)
    } by {
        assert(before[c].len() >= 1);
        assert(after[c][0] == before[c][0]);
    }
}

/// Where no group named in the list of a key's bucket has the key, no
/// group has it.
pub proof fn lemma_key_unseen<K: GroupKey>(
    place: Map<u64, usize>,
    lists: Seq<Vec<usize>>,
    gs: Seq<Seq<usize>>,
    ks: Seq<Option<K::V>>,
    i: int,
)
    requires
        indexes::<K>(place, lists, gs, ks),
        0 <= i < ks.len(),
        ks[i] is Some,
        place.contains_key(bucket_at::<K>(ks, i)) ==> forall|t: int|
            0 <= t < lists[place[bucket_at::<K>(ks, i)] as int]@.len() ==> ks[gs[(
            #[trigger] lists[place[bucket_at::<K>(ks, i)] as int]@[t]) as int][0] as int] != ks[i],
    ensures
        forall|c: int| 0 <= c < gs.len() ==> ks[(#[trigger] gs[c])[0] as int] != ks[i],
{
    assert forall|c: int| 0 <= c < gs.len() implies ks[(#[trigger] gs[c])[0] as int] != ks[i] by {
        let bc = bucket_at::<K>(ks, gs[c][0] as int);
        let q = place[bc] as int;
        assert(listed(lists, q, c));
        if ks[gs[c][0] as int] == ks[i] {
            let t = choose|t: int| 0 <= t < lists[q]@.len() && #[trigger] lists[q]@[t] == c;
            assert(ks[gs[lists[q]@[t] as int][0] as int] != ks[i]);
        }
    }
}

/// Naming a new group in the list of its bucket, or in a new list where
/// the bucket had none, keeps the table.
pub proof fn lemma_index_group_opened<K: GroupKey>(
    place_before: Map<u64, usize>,
    lists_before: Seq<Vec<usize>>,
    place: Map<u64, usize>,
    lists: Seq<Vec<usize>>,
    before: Seq<Seq<usize>>,
    after: Seq<Seq<usize>>,
    ks: Seq<Option<K::V>>,
    i: int,
)
    requires
        indexes::<K>(place_before, lists_before, before, ks),
        0 <= i < ks.len(),
        i <= usize::MAX,
        before.len() <= usize::MAX,
        ks[i] is Some,
        after == before.push(seq![i as usize]),
        ({
            let b = bucket_at::<K>(ks, i);
            let fresh = before.len() as usize;
            if place_before.contains_key(b) {
                let p = place_before[b] as int;
                &&& place == place_before
                &&& lists.len() == lists_before.len()
                &&& lists[p]@ == lists_before[p]@.push(fresh)
                &&& forall|q: int| 0 <= q < lists_before.len() && q != p ==> lists[q] == lists_before[q]
            } else {
                &&& place == place_before.insert(b, lists_before.len() as usize)
                &&& lists.len() == lists_before.len() + 1
                &&& lists.len() <= usize::MAX
                &&& lists[lists_before.len() as int]@ == seq![fresh]
                &&& forall|q: int| 0 <= q < lists_before.len() ==> lists[q] == lists_before[q]
            }
        }),
    ensures
        indexes::<K>(place, lists, after, ks),
{
    let b = bucket_at::<K>(ks, i);
    assert forall|p: int, t: int| 0 <= p < lists.len() && 0 <= t < lists[p]@.len() implies (
    #[trigger] lists[p]@[t]) < after.len() by {
        if p < lists_before.len() && t < lists_before[p]@.len() {
            assert(lists_before[p]@[t] < before.len());
        }
    }
    assert forall|c: int| 0 <= c < after.len() implies {
        let bc = bucket_at::<K>(ks, (#[trigger] after[c])[0] as int);
        place.contains_key(bc) && listed(lists, place[bc] as int, c)
    } by {
        let bc = bucket_at::<K>(ks, after[c][0] as int);
        if c < before.len() {
            assert(after[c] == before[c]);
            let q = place_before[bc] as int;
            assert(listed(lists_before, q, c));
            let t = choose|t: int| 0 <= t < lists_before[q]@.len() && #[trigger] lists_before[q]@[t] == c;
            assert(lists[place[bc] as int]@[t] == c);
        } else {
            assert(after[c][0] == i);
            let p = place[b] as int;
            assert(lists[p]@[lists[p]@.len() - 1] == c);
        }
    }
}

/// Looks among the groups that `list` names for the one whose files have
/// the key `k`.
fn find_group<K: GroupKey>(
    keys: &Vec<Option<K>>,
    live: &Vec<bool>,
    groups: &Vec<Vec<usize>>,
    list: &Vec<usize>,
    k: &K,
    Ghost(n): Ghost<int>,
) -> (found: Option<usize>)
    requires
        well_grouped(group_seqs(groups@), effective_keys(keys@, live@), n),
        n <= keys.len(),
        forall|t: int| 0 <= t < list@.len() ==> (#[trigger] list@[t]) < groups.len(),
    ensures
        match found {
            Some(a) => a < groups.len() && effective_keys(keys@, live@)[group_seqs(
                groups@,
            )[a as int][0] as int] == Some(k@),
            None => forall|t: int|
                0 <= t < list@.len() ==> effective_keys(keys@, live@)[group_seqs(
                    groups@,
                )[(#[trigger] list@[t]) as int][0] as int] != Some(k@),
        },
{
    let ghost ks = effective_keys(keys@, live@);
    let ghost gs = group_seqs(groups@);
    let mut t: usize = 0;
    while t < list.len()
        invariant
            t <= list.len(),
            ks == effective_keys(keys@, live@),
            gs == group_seqs(groups@),
            well_grouped(gs, ks, n),
            n <= keys.len(),
            forall|u: int| 0 <= u < list@.len() ==> (#[trigger] list@[u]) < groups.len(),
            forall|u: int| 0 <= u < t ==> ks[gs[(#[trigger] list@[u]) as int][0] as int] != Some(k@),
        decreases list.len() - t,
    {
        let a = list[t];
        assert(gs[a as int].len() >= 1);
        let first = groups[a][0];
        assert(first == gs[a as int][0]);
        let same = match &keys[first] {
            Some(other) => k.same_key(other),
            None => false,
        };
        if same {
            return Some(a);
        }
        t += 1;
    }
    None
}

/// Partitions the live files that have a key into groups of equal key. The
/// groups stand in the order in which their first files occur.
pub fn partition_by_key<K: GroupKey>(keys: &Vec<Option<K>>, live: &Vec<bool>) -> (groups: Vec<
    Vec<usize>,
>)
    ensures
        is_partition(group_seqs(groups@), effective_keys(keys@, live@)),
{
    broadcast use vstd::std_specs::hash::group_hash_axioms;

    let ghost ks = effective_keys(keys@, live@);
    let mut groups: Vec<Vec<usize>> = Vec::new();
    let mut place: HashMap<u64, usize> = HashMap::new();
    let mut lists: Vec<Vec<usize>> = Vec::new();
    let mut i: usize = 0;
    while i < keys.len()
        invariant
            i <= keys.len(),
            ks == effective_keys(keys@, live@),
            well_grouped(group_seqs(groups@), ks, i as int),
            covers_keyed(group_seqs(groups@), ks, i as int),
            indexes::<K>(place@, lists@, group_seqs(groups@), ks),
        decreases keys.len() - i,
    {
        let ghost before = group_seqs(groups@);
        let ghost lists_before = lists@;
        let ghost place_before = place@;
        if i < live.len() && live[i] {
            match &keys[i] {
                Some(k) => {
                    let b = k.bucket();
                    assert(b == bucket_at::<K>(ks, i as int));
                    let slot: Option<usize> = match place.get(&b) {
                        Some(p) => Some(*p),
                        None => None,
                    };
                    let found: Option<usize> = match slot {
                        Some(p) => find_group(keys, live, &groups, &lists[p], k, Ghost(i as int)),
                        None => None,
                    };
                    match found {
                        Some(a) => {
                            push_member(&mut groups, a, i);
                            proof {
                                let after = group_seqs(groups@);
                                lemma_member_added(before, after, ks, a as int, i as int);
                                lemma_index_member_added::<K>(
                                    place@,
                                    lists@,
                                    before,
                                    after,
                                    ks,
                                    a as int,
                                    i,
                                );
                            }
                        },
                        None => {
                            proof {
                                lemma_key_unseen::<K>(place@, lists@, before, ks, i as int);
                            }
                            let fresh: usize = groups.len();
                            match slot {
                                Some(p) => {
                                    push_member(&mut lists, p, fresh);
                                },
                                None => {
                                    place.insert(b, lists.len());
                                    let mut list: Vec<usize> = Vec::new();
                                    list.push(fresh);
                                    assert(list@ =~= seq![fresh]);
                                    lists.push(list);
                                },
                            }
                            let mut g: Vec<usize> = Vec::new();
                            g.push(i);
                            groups.push(g);
                            proof {
                                let after = group_seqs(groups@);
                                assert(after =~= before.push(seq![i]));
                                lemma_group_opened(before, after, ks, i as int);
                                assert(lists@.len() == lists.len());
                                lemma_index_group_opened::<K>(
                                    place_before,
                                    lists_before,
                                    place@,
                                    lists@,
                                    before,
                                    after,
                                    ks,
                                    i as int,
                                );
                            }
                        },
                    }
                },
                None => {},
            }
        }
        i += 1;
    }
    groups
}

/// The test that a group holds two files or more.
pub open spec fn has_multiple() -> spec_fn(Seq<usize>) -> bool {
    |g: Seq<usize>| g.len() >= 2
}

/// `kept` is `gs` without its groups of fewer than two files: `idx` gives for
/// each kept group its place in `gs`, in rising order.
pub open spec fn selects_multiple(kept: Seq<Seq<usize>>, gs: Seq<Seq<usize>>, idx: Seq<int>) -> bool {
    &&& idx.len() == kept.len()
    &&& forall|x: int|
        0 <= x < kept.len() ==> 0 <= (#[trigger] idx[x]) < gs.len() && kept[x] == gs[idx[x]]
            && kept[x].len() >= 2
    &&& forall|x: int, y: int| 0 <= x < y < kept.len() ==> (#[trigger] idx[x]) < (#[trigger] idx[y])
    &&& forall|a: int|
        0 <= a < gs.len() && (#[trigger] gs[a]).len() >= 2 ==> exists|x: int|
            0 <= x < kept.len() && #[trigger] idx[x] == a
}

/// The groups of two files or more, as the filter keeps them, are a selection
/// in rising order that misses no such group.
pub proof fn lemma_filter_selects(gs: Seq<Seq<usize>>) -> (idx: Seq<int>)
    ensures
        selects_multiple(gs.filter(has_multiple()), gs, idx),
    decreases gs.len(),
{
    reveal(Seq::filter);
    if gs.len() == 0 {
        Seq::empty()
    } else {
        let front = gs.drop_last();
        let sub = lemma_filter_selects(front);
        let last = gs.len() - 1;
        if gs.last().len() >= 2 {
            let idx = sub.push(last);
            let kept = gs.filter(has_multiple());
            assert(kept == front.filter(has_multiple()).push(gs.last()));
            assert forall|a: int| 0 <= a < gs.len() && (#[trigger] gs[a]).len() >= 2 implies exists|
                x: int,
            | 0 <= x < kept.len() && #[trigger] idx[x] == a by {
                if a == last {
                    assert(idx[kept.len() - 1] == a);
                } else {
                    assert(front[a].len() >= 2);
                    let x = choose|x: int| 0 <= x < sub.len() && #[trigger] sub[x] == a;
                    assert(idx[x] == a);
                }
            }
            idx
        } else {
            let kept = gs.filter(has_multiple());
            assert(kept == front.filter(has_multiple()));
            assert forall|a: int| 0 <= a < gs.len() && (#[trigger] gs[a]).len() >= 2 implies exists|
                x: int,
            | 0 <= x < kept.len() && #[trigger] sub[x] == a by {
                assert(front[a].len() >= 2);
            }
            sub
        }
    }
}

/// Keeping the groups of two files or more of a partition by key gives the
/// classes of equal keys that have two files or more.
pub proof fn lemma_retained_partition<V>(gs: Seq<Seq<usize>>, ks: Seq<Option<V>>)
    requires
        is_partition(gs, ks),
    ensures
        is_duplicate_grouping(gs.filter(has_multiple()), ks),
{
    let kept = gs.filter(has_multiple());
    let idx = lemma_filter_selects(gs);
    let n = ks.len() as int;
    assert forall|a: int, b: int| 0 <= a < kept.len() && 0 <= b < kept[a].len() implies {
        &&& 0 <= (#[trigger] kept[a][b]) < n
        &&& ks[kept[a][b] as int] is Some
        &&& ks[kept[a][b] as int] == ks[kept[a][0] as int]
    } by {
        assert(kept[a] == gs[idx[a]]);
        assert(gs[idx[a]][b] == kept[a][b]);
    }
    assert forall|a: int, b: int, c: int|
        0 <= a < kept.len() && 0 <= b < c < kept[a].len() implies (#[trigger] kept[a][b]) < (
    #[trigger] kept[a][c]) by {
        assert(kept[a] == gs[idx[a]]);
        assert(gs[idx[a]][b] < gs[idx[a]][c]);
    }
    assert forall|a: int, c: int| 0 <= a < c < kept.len() implies (#[trigger] kept[a])[0] < (
    #[trigger] kept[c])[0] && ks[kept[a][0] as int] != ks[kept[c][0] as int] by {
        assert(idx[a] < idx[c]);
        assert(kept[a] == gs[idx[a]]);
        assert(kept[c] == gs[idx[c]]);
    }
    assert forall|i: int, j: int|
        0 <= i < ks.len() && 0 <= j < ks.len() && i != j && (#[trigger] ks[i]) is Some && ks[i] == (
        #[trigger] ks[j]) implies in_groups(kept, i) by {
        assert(in_groups(gs, i));
        assert(in_groups(gs, j));
        let a = choose|a: int| 0 <= a < gs.len() && #[trigger] holds(gs[a], i);
        let c = choose|c: int| 0 <= c < gs.len() && #[trigger] holds(gs[c], j);
        let b = choose|b: int| 0 <= b < gs[a].len() && #[trigger] gs[a][b] == i;
        let d = choose|d: int| 0 <= d < gs[c].len() && #[trigger] gs[c][d] == j;
        assert(ks[gs[a][b] as int] == ks[gs[a][0] as int]);
        assert(ks[gs[c][d] as int] == ks[gs[c][0] as int]);
        if a < c {
            assert(ks[gs[a][0] as int] != ks[gs[c][0] as int]);
        }
        if c < a {
            assert(ks[gs[c][0] as int] != ks[gs[a][0] as int]);
        }
        assert(a == c);
        assert(b != d);
        assert(gs[a].len() >= 2);
        let x = choose|x: int| 0 <= x < kept.len() && #[trigger] idx[x] == a;
        assert(kept[x] == gs[a]);
        assert(holds(kept[x], i));
    }
}

/// Keeps the groups that hold two files or more, in their order.
pub fn retain_multiple(groups: &Vec<Vec<usize>>) -> (kept: Vec<Vec<usize>>)
    ensures
        group_seqs(kept@) == group_seqs(groups@).filter(has_multiple()),
{
    let ghost gs = group_seqs(groups@);
    let mut kept: Vec<Vec<usize>> = Vec::new();
    let mut a: usize = 0;
    assert(gs.take(0) =~= Seq::<Seq<usize>>::empty());
    proof {
        reveal(Seq::filter);
    }
    assert(group_seqs(kept@) =~= gs.take(0).filter(has_multiple()));
    while a < groups.len()
        invariant
            a <= groups.len(),
            gs == group_seqs(groups@),
            group_seqs(kept@) == gs.take(a as int).filter(has_multiple()),
        decreases groups.len() - a,
    {
        let ghost before = group_seqs(kept@);
        proof {
            reveal(Seq::filter);
            assert(gs.take(a + 1).drop_last() =~= gs.take(a as int));
            assert(gs.take(a + 1).last() == gs[a as int]);
        }
        if groups[a].len() >= 2 {
            let g = groups[a].clone();
            assert(g@ =~= groups[a as int]@);
            kept.push(g);
            assert(group_seqs(kept@) =~= before.push(gs[a as int]));
        }
        a += 1;
    }
    assert(gs.take(groups.len() as int) =~= gs);
    kept
}

/// Groups the live files by key and keeps the groups of two files or more.
pub fn duplicates_by_key<K: GroupKey>(keys: &Vec<Option<K>>, live: &Vec<bool>) -> (groups: Vec<
    Vec<usize>,
>)
    ensures
        is_duplicate_grouping(group_seqs(groups@), effective_keys(keys@, live@)),
{
    let all = partition_by_key(keys, live);
    let kept = retain_multiple(&all);
    proof {
        lemma_retained_partition(group_seqs(all@), effective_keys(keys@, live@));
    }
    kept
}

/// Whether file `i` has a key that another file shares.
pub open spec fn repeated<V>(ks: Seq<Option<V>>, i: int) -> bool {
    &&& 0 <= i < ks.len()
    &&& ks[i] is Some
    &&& exists|j: int| 0 <= j < ks.len() && j != i && #[trigger] ks[j] == ks[i]
}

/// The members of the groups are exactly the files whose key is repeated.
pub proof fn lemma_member_iff_repeated<V>(gs: Seq<Seq<usize>>, ks: Seq<Option<V>>, i: int)
    requires
        is_duplicate_grouping(gs, ks),
    ensures
        in_groups(gs, i) <==> repeated(ks, i),
{
    if in_groups(gs, i) {
        let a = choose|a: int| 0 <= a < gs.len() && #[trigger] holds(gs[a], i);
        let b = choose|b: int| 0 <= b < gs[a].len() && #[trigger] gs[a][b] == i;
        assert(gs[a].len() >= 2);
        let d = if b == 0 { 1int } else { 0int };
        let j = gs[a][d] as int;
        assert(ks[gs[a][b] as int] == ks[gs[a][0] as int]);
        assert(ks[gs[a][d] as int] == ks[gs[a][0] as int]);
        if b == 0 {
            assert(gs[a][0] < gs[a][1]);
        } else {
            assert(gs[a][0] < gs[a][b]);
        }
        assert(ks[j] == ks[i]);
    }
    if repeated(ks, i) {
        let j = choose|j: int| 0 <= j < ks.len() && j != i && #[trigger] ks[j] == ks[i];
        assert(ks[i] is Some && ks[i] == ks[j]);
    }
}

/// Two files are members of one group exactly when they have the same key.
pub proof fn lemma_together_iff_same_key<V>(
    gs: Seq<Seq<usize>>,
    ks: Seq<Option<V>>,
    i: int,
    j: int,
)
    requires
        is_duplicate_grouping(gs, ks),
        i != j,
    ensures
        together(gs, i, j) <==> (0 <= i < ks.len() && 0 <= j < ks.len() && ks[i] is Some && ks[i]
            == ks[j]),
{
    if together(gs, i, j) {
        let a = choose|a: int| 0 <= a < gs.len() && #[trigger] holds(gs[a], i) && holds(gs[a], j);
        let b = choose|b: int| 0 <= b < gs[a].len() && #[trigger] gs[a][b] == i;
        let d = choose|d: int| 0 <= d < gs[a].len() && #[trigger] gs[a][d] == j;
        assert(ks[gs[a][b] as int] == ks[gs[a][0] as int]);
        assert(ks[gs[a][d] as int] == ks[gs[a][0] as int]);
    }
    if 0 <= i < ks.len() && 0 <= j < ks.len() && ks[i] is Some && ks[i] == ks[j] {
        assert(ks[j] is Some && ks[j] == ks[i]);
        assert(in_groups(gs, i));
        assert(in_groups(gs, j));
        let a = choose|a: int| 0 <= a < gs.len() && #[trigger] holds(gs[a], i);
        let c = choose|c: int| 0 <= c < gs.len() && #[trigger] holds(gs[c], j);
        let b = choose|b: int| 0 <= b < gs[a].len() && #[trigger] gs[a][b] == i;
        let d = choose|d: int| 0 <= d < gs[c].len() && #[trigger] gs[c][d] == j;
        assert(ks[gs[a][b] as int] == ks[gs[a][0] as int]);
        assert(ks[gs[c][d] as int] == ks[gs[c][0] as int]);
        if a < c {
            assert(ks[gs[a][0] as int] != ks[gs[c][0] as int]);
        }
        if c < a {
            assert(ks[gs[c][0] as int] != ks[gs[a][0] as int]);
        }
        assert(a == c);
    }
}

/// Two groupings of the same keys have the same members and put the same
/// files together, whatever the order in which they were built.
pub proof fn lemma_grouping_determined<V>(
    first: Seq<Seq<usize>>,
    second: Seq<Seq<usize>>,
    ks: Seq<Option<V>>,
    i: int,
    j: int,
)
    requires
        is_duplicate_grouping(first, ks),
        is_duplicate_grouping(second, ks),
    ensures
        in_groups(first, i) <==> in_groups(second, i),
        together(first, i, j) <==> together(second, i, j),
{
    lemma_member_iff_repeated(first, ks, i);
    lemma_member_iff_repeated(second, ks, i);
    if i != j {
        lemma_together_iff_same_key(first, ks, i, j);
        lemma_together_iff_same_key(second, ks, i, j);
    } else {
        if together(first, i, j) {
            assert(in_groups(first, i));
            let a = choose|a: int| 0 <= a < second.len() && #[trigger] holds(second[a], i);
            assert(holds(second[a], i) && holds(second[a], j));
        }
        if together(second, i, j) {
            assert(in_groups(second, i));
            let a = choose|a: int| 0 <= a < first.len() && #[trigger] holds(first[a], i);
            assert(holds(first[a], i) && holds(first[a], j));
        }
    }
}

/// Whether file `i` is a member of one of the first `a` groups, or among
/// the first `b` files of group `a`.
pub open spec fn in_prefix(gs: Seq<Seq<usize>>, a: int, b: int, i: int) -> bool {
    ||| exists|c: int| 0 <= c < a && c < gs.len() && #[trigger] holds(gs[c], i)
    ||| (0 <= a < gs.len() && exists|d: int| 0 <= d < b && d < gs[a].len() && #[trigger] gs[a][d] == i)
}

/// Marks, among `n` files, those that are members of some group.
pub fn member_mask(groups: &Vec<Vec<usize>>, n: usize) -> (mask: Vec<bool>)
    ensures
        mask.len() == n,
        forall|i: int| 0 <= i < n ==> #[trigger] mask[i] == in_groups(group_seqs(groups@), i),
{
    let ghost gs = group_seqs(groups@);
    let mut mask: Vec<bool> = Vec::new();
    let mut k: usize = 0;
    while k < n
        invariant
            k <= n,
            mask.len() == k,
            forall|i: int| 0 <= i < k ==> !#[trigger] mask[i],
        decreases n - k,
    {
        mask.push(false);
        k += 1;
    }
    let mut a: usize = 0;
    while a < groups.len()
        invariant
            a <= groups.len(),
            gs == group_seqs(groups@),
            mask.len() == n,
            forall|i: int| 0 <= i < n ==> #[trigger] mask[i] == in_prefix(gs, a as int, 0, i),
        decreases groups.len() - a,
    {
        let mut b: usize = 0;
        while b < groups[a as usize].len()
            invariant
                a < groups.len(),
                b <= groups[a as int].len(),
                gs == group_seqs(groups@),
                mask.len() == n,
                forall|i: int|
                    0 <= i < n ==> #[trigger] mask[i] == in_prefix(gs, a as int, b as int, i),
            decreases groups[a as int].len() - b,
        {
            let m = groups[a][b];
            let ghost before = mask@;
            if m < n {
                mask.set(m, true);
            }
            proof {
                assert(gs[a as int][b as int] == m);
                assert forall|i: int| 0 <= i < n implies #[trigger] mask[i] == in_prefix(
                    gs,
                    a as int,
                    b + 1,
                    i,
                ) by {
                    if i == m {
                        assert(in_prefix(gs, a as int, b + 1, i));
                    } else {
                        assert(mask[i] == before[i]);
                        assert(before[i] == in_prefix(gs, a as int, b as int, i));
                        if in_prefix(gs, a as int, b + 1, i) && !in_prefix(gs, a as int, b as int, i) {
                            let d = choose|d: int|
                                0 <= d < b + 1 && d < gs[a as int].len() && #[trigger] gs[a as int][d]
                                    == i;
                            assert(d < b);
                        }
                    }
                }
            }
            b += 1;
        }
        proof {
            assert forall|i: int| 0 <= i < n implies #[trigger] mask[i] == in_prefix(
                gs,
                a + 1,
                0,
                i,
            ) by {
                let full = gs[a as int].len() as int;
                if in_prefix(gs, a as int, full, i) {
                    if exists|d: int| 0 <= d < full && d < gs[a as int].len() && #[trigger] gs[a as int][d] == i {
                        assert(holds(gs[a as int], i));
                    }
                    assert(in_prefix(gs, a + 1, 0, i));
                }
                if in_prefix(gs, a + 1, 0, i) {
                    let c = choose|c: int| 0 <= c < a + 1 && c < gs.len() && #[trigger] holds(gs[c], i);
                    if c == a {
                        let d = choose|d: int| 0 <= d < gs[a as int].len() && #[trigger] gs[a as int][d] == i;
                        assert(in_prefix(gs, a as int, full, i));
                    } else {
                        assert(in_prefix(gs, a as int, full, i));
                    }
                }
            }
        }
        a += 1;
    }
    proof {
        assert forall|i: int| 0 <= i < n implies #[trigger] mask[i] == in_groups(gs, i) by {
            if in_groups(gs, i) {
                let c = choose|c: int| 0 <= c < gs.len() && #[trigger] holds(gs[c], i);
                assert(in_prefix(gs, a as int, 0, i));
            }
        }
    }
    mask
}

/// A sequence of distinct numbers below `n` has at most `n` entries.
pub proof fn lemma_distinct_bounded(f: Seq<int>, n: int)
    requires
        0 <= n,
        forall|a: int| 0 <= a < f.len() ==> 0 <= #[trigger] f[a] < n,
        forall|a: int, b: int| 0 <= a < b < f.len() ==> #[trigger] f[a] != #[trigger] f[b],
    ensures
        f.len() <= n,
    decreases f.len(),
{
    if f.len() > 0 {
        let top = f.last();
        let rest = f.drop_last();
        assert(0 <= f[f.len() - 1] < n);
        let g = Seq::new(
            rest.len(),
            |a: int|
                if rest[a] == n - 1 {
                    top
                } else {
                    rest[a]
                },
        );
        assert forall|a: int| 0 <= a < g.len() implies 0 <= #[trigger] g[a] < n - 1 by {
            assert(f[a] != f[f.len() - 1]);
        }
        assert forall|a: int, b: int| 0 <= a < b < g.len() implies #[trigger] g[a]
            != #[trigger] g[b] by {
            assert(f[a] != f[b]);
            assert(f[a] != f[f.len() - 1]);
            assert(f[b] != f[f.len() - 1]);
        }
        lemma_distinct_bounded(g, n - 1);
    }
}

/// The groups of a stage are no more than the groups it was given, where
/// no given group holds files of two of its groups. (Without that, one
/// group of four files may leave two groups of two.)
pub proof fn lemma_group_count_shrinks<V>(
    later: Seq<Seq<usize>>,
    earlier: Seq<Seq<usize>>,
    ks: Seq<Option<V>>,
)
    requires
        is_duplicate_grouping(later, ks),
        forall|i: int| in_groups(later, i) ==> in_groups(earlier, i),
        forall|i: int, j: int|
            in_groups(later, i) && in_groups(later, j) && together(earlier, i, j) ==> together(
                later,
                i,
                j,
            ),
    ensures
        later.len() <= earlier.len(),
{
    let home = |a: int| choose|c: int| 0 <= c < earlier.len() && #[trigger] holds(earlier[c], later[a][0] as int);
    let f = Seq::new(later.len(), home);
    assert forall|a: int| 0 <= a < f.len() implies 0 <= #[trigger] f[a] < earlier.len() && holds(
        earlier[f[a]],
        later[a][0] as int,
    ) by {
        assert(later[a].len() >= 2);
        assert(holds(later[a], later[a][0] as int));
        assert(in_groups(later, later[a][0] as int));
        assert(in_groups(earlier, later[a][0] as int));
    }
    assert forall|a: int, b: int| 0 <= a < b < f.len() implies #[trigger] f[a] != #[trigger] f[b] by {
        let i = later[a][0] as int;
        let j = later[b][0] as int;
        assert(later[a].len() >= 2 && later[b].len() >= 2);
        assert(holds(later[a], i));
        assert(holds(later[b], j));
        assert(in_groups(later, i) && in_groups(later, j));
        assert(holds(earlier[f[a]], i) && holds(earlier[f[b]], j));
        if f[a] == f[b] {
            assert(together(earlier, i, j));
            assert(together(later, i, j));
            assert(later[a][0] < later[b][0]);
            assert(ks[later[a][0] as int] != ks[later[b][0] as int]);
            lemma_together_iff_same_key(later, ks, i, j);
        }
    }
    lemma_distinct_bounded(f, earlier.len() as int);
}

} // verus!
