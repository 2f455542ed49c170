//! The mathematical model of one grouping pass.
//!
//! A pass takes the accumulator state and a sequence of candidate file
//! records, and produces the next state:
//!
//! 1. candidates are bucketed by their byte length (a failed stat becomes an
//!    error and drops the candidate);
//! 2. only candidates whose length is shared with another candidate go on;
//! 3. of those, candidates already held by some group are skipped; the rest
//!    are hashed (a failed read becomes an error and drops the candidate);
//! 4. every hashed candidate joins the group of its digest, a new group
//!    being opened at the end when none exists;
//! 5. groups of fewer than two files are dropped.
//!
//! Every function here folds over its sequence from the right, so that the
//! executable loops, which run left to right, step the model one element at
//! a time via `take`.

use vstd::prelude::*;

use crate::duperror::ErrorModel;
use crate::fs::RecordModel;
use crate::hash::blake3_hex_of;

verus! {

/// The mathematical value of a duplicate group: its digest and the paths it
/// holds, in discovery order.
pub struct GroupModel {
    pub hash: Seq<char>,
    pub files: Seq<Seq<char>>,
}

/// The mathematical value of the accumulator: the groups in the order their
/// digests were first seen, and the errors in the order they occurred.
pub struct ResultsModel {
    pub groups: Seq<GroupModel>,
    pub errors: Seq<ErrorModel>,
}

/// Whether a byte length passes the optional size filter.
pub open spec fn size_admitted(sizes: Option<Seq<u64>>, s: u64) -> bool {
    match sizes {
        None => true,
        Some(ss) => ss.contains(s),
    }
}

/// Adds a record to the bucket of its size; when no bucket of that size
/// exists yet, a new one is opened at the end.
pub open spec fn bucket_add(
    bs: Seq<(u64, Seq<RecordModel>)>,
    size: u64,
    r: RecordModel,
) -> Seq<(u64, Seq<RecordModel>)>
    decreases bs.len(),
{
    if bs.len() == 0 {
        seq![(size, seq![r])]
    } else if bs[0].0 == size {
        seq![(bs[0].0, bs[0].1.push(r))] + bs.drop_first()
    } else {
        seq![bs[0]] + bucket_add(bs.drop_first(), size, r)
    }
}

/// When the first bucket of the size stands at `j`, adding a record grows
/// exactly that bucket.
pub proof fn lemma_bucket_add_found(
    bs: Seq<(u64, Seq<RecordModel>)>,
    size: u64,
    r: RecordModel,
    j: int,
)
    requires
        0 <= j < bs.len(),
        bs[j].0 == size,
        forall|k: int| 0 <= k < j ==> (#[trigger] bs[k]).0 != size,
    ensures
        bucket_add(bs, size, r) == bs.update(j, (size, bs[j].1.push(r))),
    decreases j,
{
    if j == 0 {
        assert(bucket_add(bs, size, r) =~= bs.update(0, (size, bs[0].1.push(r))));
    } else {
        lemma_bucket_add_found(bs.drop_first(), size, r, j - 1);
        assert(bucket_add(bs, size, r) =~= bs.update(j, (size, bs[j].1.push(r))));
    }
}

/// When no bucket of the size exists, adding a record opens a new bucket at
/// the end.
pub proof fn lemma_bucket_add_missing(bs: Seq<(u64, Seq<RecordModel>)>, size: u64, r: RecordModel)
    requires
        forall|k: int| 0 <= k < bs.len() ==> (#[trigger] bs[k]).0 != size,
    ensures
        bucket_add(bs, size, r) == bs.push((size, seq![r])),
    decreases bs.len(),
{
    if bs.len() > 0 {
        lemma_bucket_add_missing(bs.drop_first(), size, r);
        assert(bucket_add(bs, size, r) =~= bs.push((size, seq![r])));
    } else {
        assert(bucket_add(bs, size, r) =~= bs.push((size, seq![r])));
    }
}

/// The size buckets of the candidates, in first-seen order, paired with one
/// error per failed stat, in candidate order.
pub open spec fn size_buckets(files: Seq<RecordModel>) -> (Seq<(u64, Seq<RecordModel>)>, Seq<
    ErrorModel,
>)
    decreases files.len(),
{
    if files.len() == 0 {
        (Seq::empty(), Seq::empty())
    } else {
        let (bs, es) = size_buckets(files.drop_last());
        let r = files.last();
        match r.stat {
            Ok(size) => (bucket_add(bs, size, r), es),
            Err(m) => (bs, es.push(ErrorModel { path: r.path, io_error: m })),
        }
    }
}

/// The candidates that share their byte length with another candidate: the
/// contents of every bucket of two or more, in bucket order.
pub open spec fn shared_size_files(bs: Seq<(u64, Seq<RecordModel>)>) -> Seq<RecordModel>
    decreases bs.len(),
{
    if bs.len() == 0 {
        Seq::empty()
    } else {
        shared_size_files(bs.drop_last()) + (if bs.last().1.len() >= 2 {
            bs.last().1
        } else {
            Seq::empty()
        })
    }
}

/// Whether some group holds the path.
pub open spec fn groups_contain(groups: Seq<GroupModel>, path: Seq<char>) -> bool {
    exists|i: int| 0 <= i < groups.len() && groups[i].files.contains(path)
}

/// Digest and path of each record that gets hashed, paired with one error
/// per failed read. Records whose path some group already holds are skipped
/// altogether.
pub open spec fn hash_outcomes(groups: Seq<GroupModel>, files: Seq<RecordModel>) -> (Seq<
    (Seq<char>, Seq<char>),
>, Seq<ErrorModel>)
    decreases files.len(),
{
    if files.len() == 0 {
        (Seq::empty(), Seq::empty())
    } else {
        let (hs, es) = hash_outcomes(groups, files.drop_last());
        let r = files.last();
        if groups_contain(groups, r.path) {
            (hs, es)
        } else {
            match r.content {
                Ok(bytes) => (hs.push((blake3_hex_of(bytes), r.path)), es),
                Err(m) => (hs, es.push(ErrorModel { path: r.path, io_error: m })),
            }
        }
    }
}

/// Puts one hashed path into the group of its digest; when no group of that
/// digest exists yet, a new one is opened at the end.
pub open spec fn group_add(groups: Seq<GroupModel>, hash: Seq<char>, path: Seq<char>) -> Seq<
    GroupModel,
>
    decreases groups.len(),
{
    if groups.len() == 0 {
        seq![GroupModel { hash: hash, files: seq![path] }]
    } else if groups[0].hash == hash {
        seq![GroupModel { hash: groups[0].hash, files: groups[0].files.push(path) }]
            + groups.drop_first()
    } else {
        seq![groups[0]] + group_add(groups.drop_first(), hash, path)
    }
}

/// When the first group of the digest stands at `j`, placing a path grows
/// exactly that group.
pub proof fn lemma_group_add_found(groups: Seq<GroupModel>, hash: Seq<char>, path: Seq<char>, j: int)
    requires
        0 <= j < groups.len(),
        groups[j].hash == hash,
        forall|k: int| 0 <= k < j ==> (#[trigger] groups[k]).hash != hash,
    ensures
        group_add(groups, hash, path) == groups.update(
            j,
            GroupModel { hash: groups[j].hash, files: groups[j].files.push(path) },
        ),
    decreases j,
{
    if j == 0 {
        assert(group_add(groups, hash, path) =~= groups.update(
            0,
            GroupModel { hash: groups[0].hash, files: groups[0].files.push(path) },
        ));
    } else {
        lemma_group_add_found(groups.drop_first(), hash, path, j - 1);
        assert(group_add(groups, hash, path) =~= groups.update(
            j,
            GroupModel { hash: groups[j].hash, files: groups[j].files.push(path) },
        ));
    }
}

/// When no group of the digest exists, placing a path opens a new group at
/// the end.
pub proof fn lemma_group_add_missing(groups: Seq<GroupModel>, hash: Seq<char>, path: Seq<char>)
    requires
        forall|k: int| 0 <= k < groups.len() ==> (#[trigger] groups[k]).hash != hash,
    ensures
        group_add(groups, hash, path) == groups.push(GroupModel { hash: hash, files: seq![path] }),
    decreases groups.len(),
{
    if groups.len() > 0 {
        lemma_group_add_missing(groups.drop_first(), hash, path);
        assert(group_add(groups, hash, path) =~= groups.push(
            GroupModel { hash: hash, files: seq![path] },
        ));
    } else {
        assert(group_add(groups, hash, path) =~= groups.push(
            GroupModel { hash: hash, files: seq![path] },
        ));
    }
}

/// Places every hashed path in turn.
pub open spec fn place_all(groups: Seq<GroupModel>, hs: Seq<(Seq<char>, Seq<char>)>) -> Seq<
    GroupModel,
>
    decreases hs.len(),
{
    if hs.len() == 0 {
        groups
    } else {
        group_add(place_all(groups, hs.drop_last()), hs.last().0, hs.last().1)
    }
}

/// Keeps only the groups of two or more files.
pub open spec fn prune(groups: Seq<GroupModel>) -> Seq<GroupModel>
    decreases groups.len(),
{
    if groups.len() == 0 {
        Seq::empty()
    } else {
        prune(groups.drop_last()) + (if groups.last().files.len() >= 2 {
            seq![groups.last()]
        } else {
            Seq::empty()
        })
    }
}

/// One grouping pass over the candidate records.
pub open spec fn pass(res: ResultsModel, files: Seq<RecordModel>) -> ResultsModel {
    let (buckets, stat_errors) = size_buckets(files);
    let (hs, hash_errors) = hash_outcomes(res.groups, shared_size_files(buckets));
    ResultsModel {
        groups: prune(place_all(res.groups, hs)),
        errors: res.errors + stat_errors + hash_errors,
    }
}

/// Whether some record carries the path.
pub open spec fn contains_path(rs: Seq<RecordModel>, path: Seq<char>) -> bool {
    exists|i: int| 0 <= i < rs.len() && rs[i].path == path
}

/// The byte lengths of the named files, paired with one error per failed
/// stat, in input order.
pub open spec fn of_sizes(rs: Seq<RecordModel>) -> (Seq<u64>, Seq<ErrorModel>)
    decreases rs.len(),
{
    if rs.len() == 0 {
        (Seq::empty(), Seq::empty())
    } else {
        let (ss, es) = of_sizes(rs.drop_last());
        let r = rs.last();
        match r.stat {
            Ok(n) => (ss.push(n), es),
            Err(m) => (ss, es.push(ErrorModel { path: r.path, io_error: m })),
        }
    }
}

/// Appends, in order, every record whose path no record of `base` carries:
/// the named files join the candidate list unless the directory walk already
/// found them.
pub open spec fn add_missing(base: Seq<RecordModel>, rs: Seq<RecordModel>) -> Seq<RecordModel>
    decreases rs.len(),
{
    if rs.len() == 0 {
        base
    } else {
        let b = add_missing(base, rs.drop_last());
        if contains_path(b, rs.last().path) {
            b
        } else {
            b.push(rs.last())
        }
    }
}

/// The total number of paths over all groups.
pub open spec fn total_file_count(groups: Seq<GroupModel>) -> nat
    decreases groups.len(),
{
    if groups.len() == 0 {
        0
    } else {
        total_file_count(groups.drop_last()) + groups.last().files.len()
    }
}

/// The accumulator's invariant between passes: every visible group holds at
/// least two paths, digests identify groups uniquely, and no path is held by
/// two different groups.
pub open spec fn results_wf(res: ResultsModel) -> bool {
    &&& forall|i: int| 0 <= i < res.groups.len() ==> #[trigger] res.groups[i].files.len() >= 2
    &&& forall|i: int, j: int|
        0 <= i < res.groups.len() && 0 <= j < res.groups.len() && i != j ==> (#[trigger] res.groups[i].hash)
            != (#[trigger] res.groups[j].hash)
    &&& forall|i: int, j: int, p: Seq<char>|
        0 <= i < res.groups.len() && 0 <= j < res.groups.len() && i != j ==> !(
        (#[trigger] res.groups[i].files.contains(p)) && (#[trigger] res.groups[j].files.contains(p)))
}

/// Candidate records are consistent when records of one path agree on all
/// fields: one snapshot of the file system holds one record per path.
pub open spec fn consistent_records(files: Seq<RecordModel>) -> bool {
    forall|i: int, j: int|
        0 <= i < files.len() && 0 <= j < files.len() && (#[trigger] files[i]).path == (
        #[trigger] files[j]).path ==> files[i] == files[j]
}

} // verus!
