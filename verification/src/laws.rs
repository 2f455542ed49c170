//! The engine's laws: proof functions stating what holds of every grouping
//! pass and every walk, over the same spec functions that the executable
//! functions' contracts use.

use vstd::prelude::*;

use crate::duperror::ErrorModel;
use crate::fs::RecordModel;
use crate::hash::blake3_hex_of;
use crate::model::GroupModel;
use crate::model::ResultsModel;
use crate::model::consistent_records;
use crate::model::group_add;
use crate::model::groups_contain;
use crate::model::hash_outcomes;
use crate::model::pass;
use crate::model::place_all;
use crate::model::prune;
use crate::model::results_wf;
use crate::model::bucket_add;
use crate::model::shared_size_files;
use crate::model::size_buckets;
use crate::fs::DirModel;
use crate::fs::EntryModel;
use crate::model::size_admitted;
use crate::walk::walk_dir;
use crate::walk::walk_entries;
use crate::walk::walk_entry;

verus! {

/// The digest of a record's content.
pub open spec fn digest_model(r: RecordModel) -> Seq<char> {
    blake3_hex_of(r.content->Ok_0)
}

/// Whether the groups carry pairwise different digests.
pub open spec fn distinct_hashes(groups: Seq<GroupModel>) -> bool {
    forall|i: int, j: int|
        0 <= i < groups.len() && 0 <= j < groups.len() && i != j ==> (#[trigger] groups[i].hash)
            != (#[trigger] groups[j].hash)
}

/// Whether some group carries the digest.
pub open spec fn group_has(groups: Seq<GroupModel>, hash: Seq<char>) -> bool {
    exists|gi: int| 0 <= gi < groups.len() && (#[trigger] groups[gi]).hash == hash
}

/// The files of the first group with the digest; empty when no group has it.
pub open spec fn group_files(groups: Seq<GroupModel>, hash: Seq<char>) -> Seq<Seq<char>>
    decreases groups.len(),
{
    if groups.len() == 0 {
        Seq::empty()
    } else if groups[0].hash == hash {
        groups[0].files
    } else {
        group_files(groups.drop_first(), hash)
    }
}

/// The paths of the hashed entries that carry the digest, in order.
pub open spec fn pairs_with_hash(hs: Seq<(Seq<char>, Seq<char>)>, hash: Seq<char>) -> Seq<
    Seq<char>,
>
    decreases hs.len(),
{
    if hs.len() == 0 {
        Seq::empty()
    } else {
        pairs_with_hash(hs.drop_last(), hash) + (if hs.last().0 == hash {
            seq![hs.last().1]
        } else {
            Seq::empty()
        })
    }
}

/// With pairwise different digests, looking a group's own digest up yields
/// that group's files.
pub proof fn lemma_group_files_at(groups: Seq<GroupModel>, gi: int)
    requires
        distinct_hashes(groups),
        0 <= gi < groups.len(),
    ensures
        group_files(groups, groups[gi].hash) == groups[gi].files,
    decreases gi,
{
    if gi > 0 {
        assert(groups[0].hash != groups[gi].hash);
        lemma_group_files_at(groups.drop_first(), gi - 1);
    }
}

/// A non-empty lookup result is the file list of some group with the digest.
pub proof fn lemma_group_files_witness(groups: Seq<GroupModel>, hash: Seq<char>)
    requires
        group_files(groups, hash).len() > 0,
    ensures
        exists|gi: int|
            0 <= gi < groups.len() && (#[trigger] groups[gi]).hash == hash && groups[gi].files
                == group_files(groups, hash),
    decreases groups.len(),
{
    if groups.len() > 0 && groups[0].hash != hash {
        lemma_group_files_witness(groups.drop_first(), hash);
        let gi = choose|gi: int|
            0 <= gi < groups.drop_first().len() && (#[trigger] groups.drop_first()[gi]).hash
                == hash && groups.drop_first()[gi].files == group_files(
                groups.drop_first(),
                hash,
            );
        assert(groups[gi + 1].hash == hash && groups[gi + 1].files == group_files(groups, hash));
    }
}

/// Placing one path grows exactly the lookup of its digest, and keeps
/// digests pairwise different; a digest exists afterwards exactly when it
/// existed before or is the placed one.
pub proof fn lemma_group_add_effect(
    groups: Seq<GroupModel>,
    h2: Seq<char>,
    p2: Seq<char>,
    h: Seq<char>,
)
    requires
        distinct_hashes(groups),
    ensures
        group_files(group_add(groups, h2, p2), h) == (if h == h2 {
            group_files(groups, h).push(p2)
        } else {
            group_files(groups, h)
        }),
        distinct_hashes(group_add(groups, h2, p2)),
        group_has(group_add(groups, h2, p2), h) <==> (group_has(groups, h) || h == h2),
    decreases groups.len(),
{
    let out = group_add(groups, h2, p2);
    if groups.len() == 0 {
        assert(out =~= seq![GroupModel { hash: h2, files: seq![p2] }]);
        if h == h2 {
            assert(group_files(out, h) =~= group_files(groups, h).push(p2));
        } else {
            assert(out.drop_first() =~= Seq::<GroupModel>::empty());
            assert(group_files(out, h) == group_files(out.drop_first(), h));
            assert(group_files(out.drop_first(), h) == Seq::<Seq<char>>::empty());
        }
        assert(group_has(out, h) <==> (group_has(groups, h) || h == h2)) by {
            if group_has(out, h) {
                assert(out[0].hash == h2);
            }
            if h == h2 {
                assert(out[0].hash == h);
            }
        }
    } else if groups[0].hash == h2 {
        assert(out =~= seq![
            GroupModel { hash: groups[0].hash, files: groups[0].files.push(p2) },
        ] + groups.drop_first());
        assert(out.drop_first() =~= groups.drop_first());
        assert(out[0] == GroupModel { hash: groups[0].hash, files: groups[0].files.push(p2) });
        if h == h2 {
            assert(group_files(out, h) == groups[0].files.push(p2));
            assert(group_files(groups, h) == groups[0].files);
        } else {
            assert(group_files(out, h) == group_files(groups.drop_first(), h));
            assert(group_files(groups, h) == group_files(groups.drop_first(), h));
        }
        assert(distinct_hashes(out)) by {
            assert forall|i: int, j: int|
                0 <= i < out.len() && 0 <= j < out.len() && i != j implies (#[trigger] out[i].hash)
                != (#[trigger] out[j].hash) by {
                assert(out[i].hash == groups[i].hash);
                assert(out[j].hash == groups[j].hash);
            }
        }
        assert(group_has(out, h) <==> (group_has(groups, h) || h == h2)) by {
            if group_has(out, h) {
                let gi = choose|gi: int| 0 <= gi < out.len() && (#[trigger] out[gi]).hash == h;
                assert(groups[gi].hash == h);
            }
            if group_has(groups, h) {
                let gi = choose|gi: int|
                    0 <= gi < groups.len() && (#[trigger] groups[gi]).hash == h;
                assert(out[gi].hash == h);
            }
            if h == h2 {
                assert(out[0].hash == h);
            }
        }
    } else {
        lemma_group_add_effect(groups.drop_first(), h2, p2, h);
        assert(out =~= seq![groups[0]] + group_add(groups.drop_first(), h2, p2));
        assert(out.drop_first() =~= group_add(groups.drop_first(), h2, p2));
        let sub = group_add(groups.drop_first(), h2, p2);
        assert(out[0] == groups[0]);
        if h == groups[0].hash {
            assert(group_files(out, h) == groups[0].files);
            assert(group_files(groups, h) == groups[0].files);
        } else {
            assert(group_files(out, h) == group_files(sub, h));
            assert(group_files(groups, h) == group_files(groups.drop_first(), h));
        }
        // the head's digest stays absent from the tail
        assert(!group_has(groups.drop_first(), groups[0].hash)) by {
            if group_has(groups.drop_first(), groups[0].hash) {
                let gi = choose|gi: int|
                    0 <= gi < groups.drop_first().len() && (#[trigger] groups.drop_first()[gi]).hash
                        == groups[0].hash;
                assert(groups[gi + 1].hash == groups[0].hash);
            }
        }
        lemma_group_add_effect(groups.drop_first(), h2, p2, groups[0].hash);
        assert(distinct_hashes(out)) by {
            assert forall|i: int, j: int|
                0 <= i < out.len() && 0 <= j < out.len() && i != j implies (#[trigger] out[i].hash)
                != (#[trigger] out[j].hash) by {
                if i == 0 && j > 0 {
                    assert(group_has(sub, sub[j - 1].hash));
                } else if j == 0 && i > 0 {
                    assert(group_has(sub, sub[i - 1].hash));
                } else if i > 0 && j > 0 {
                    assert(sub[i - 1].hash != sub[j - 1].hash);
                }
            }
        }
        assert(group_has(out, h) <==> (group_has(groups, h) || h == h2)) by {
            if group_has(out, h) {
                let gi = choose|gi: int| 0 <= gi < out.len() && (#[trigger] out[gi]).hash == h;
                if gi == 0 {
                    assert(groups[0].hash == h);
                } else {
                    assert(group_has(sub, h));
                    if group_has(groups.drop_first(), h) {
                        let gj = choose|gj: int|
                            0 <= gj < groups.drop_first().len() && (
                            #[trigger] groups.drop_first()[gj]).hash == h;
                        assert(groups[gj + 1].hash == h);
                    }
                }
            }
            if group_has(groups, h) {
                let gi = choose|gi: int|
                    0 <= gi < groups.len() && (#[trigger] groups[gi]).hash == h;
                if gi == 0 {
                    assert(out[0].hash == h);
                } else {
                    assert(groups.drop_first()[gi - 1].hash == h);
                    assert(group_has(sub, h));
                    let gj = choose|gj: int| 0 <= gj < sub.len() && (#[trigger] sub[gj]).hash == h;
                    assert(out[gj + 1].hash == h);
                }
            }
            if h == h2 {
                assert(group_has(sub, h));
                let gj = choose|gj: int| 0 <= gj < sub.len() && (#[trigger] sub[gj]).hash == h;
                assert(out[gj + 1].hash == h);
            }
        }
    }
}

/// Placing a sequence of hashed paths appends, to each digest's lookup, the
/// placed paths carrying that digest, in order; digests stay pairwise
/// different.
pub proof fn lemma_place_all_effect(
    groups: Seq<GroupModel>,
    hs: Seq<(Seq<char>, Seq<char>)>,
    h: Seq<char>,
)
    requires
        distinct_hashes(groups),
    ensures
        group_files(place_all(groups, hs), h) == group_files(groups, h) + pairs_with_hash(hs, h),
        distinct_hashes(place_all(groups, hs)),
        group_has(place_all(groups, hs), h) <==> (group_has(groups, h) || pairs_with_hash(
            hs,
            h,
        ).len() > 0),
    decreases hs.len(),
{
    if hs.len() == 0 {
        assert(group_files(groups, h) + pairs_with_hash(hs, h) =~= group_files(groups, h));
        assert(pairs_with_hash(hs, h).len() == 0);
    } else {
        lemma_place_all_effect(groups, hs.drop_last(), h);
        let mid = place_all(groups, hs.drop_last());
        lemma_group_add_effect(mid, hs.last().0, hs.last().1, h);
        if hs.last().0 == h {
            assert(group_files(place_all(groups, hs), h) =~= group_files(groups, h)
                + pairs_with_hash(hs, h));
        } else {
            assert(group_files(place_all(groups, hs), h) =~= group_files(groups, h)
                + pairs_with_hash(hs, h));
        }
    }
}

/// Pruning distributes over concatenation.
pub proof fn lemma_prune_concat(a: Seq<GroupModel>, b: Seq<GroupModel>)
    ensures
        prune(a + b) == prune(a) + prune(b),
    decreases b.len(),
{
    if b.len() == 0 {
        assert(a + b =~= a);
        assert(prune(a) + prune(b) =~= prune(a));
    } else {
        assert((a + b).drop_last() =~= a + b.drop_last());
        lemma_prune_concat(a, b.drop_last());
        assert(prune(a + b) =~= prune(a) + prune(b));
    }
}

/// Every pruned group holds at least two files, digests stay pairwise
/// different, and looking a digest up after pruning yields its lookup before
/// when that held two or more files, nothing otherwise; a digest exists
/// after pruning exactly when its lookup held two or more files.
pub proof fn lemma_prune_effect(groups: Seq<GroupModel>, h: Seq<char>)
    requires
        distinct_hashes(groups),
    ensures
        distinct_hashes(prune(groups)),
        group_files(prune(groups), h) == (if group_files(groups, h).len() >= 2 {
            group_files(groups, h)
        } else {
            Seq::<Seq<char>>::empty()
        }),
        group_has(prune(groups), h) <==> (group_has(groups, h) && group_files(
            groups,
            h,
        ).len() >= 2),
    decreases groups.len(),
{
    if groups.len() == 0 {
        assert(!group_has(prune(groups), h));
        assert(!group_has(groups, h));
    } else {
        let head = groups[0];
        let tail = groups.drop_first();
        assert(groups =~= seq![head] + tail);
        lemma_prune_concat(seq![head], tail);
        assert(seq![head].drop_last() =~= Seq::<GroupModel>::empty());
        let ph = prune(seq![head]);
        assert(seq![head].drop_last() =~= Seq::<GroupModel>::empty());
        assert(prune(Seq::<GroupModel>::empty()) == Seq::<GroupModel>::empty());
        assert(seq![head].last() == head);
        if head.files.len() >= 2 {
            assert(ph =~= seq![head]);
        } else {
            assert(ph =~= Seq::<GroupModel>::empty());
        }
        assert(distinct_hashes(tail)) by {
            assert forall|i: int, j: int|
                0 <= i < tail.len() && 0 <= j < tail.len() && i != j implies (
            #[trigger] tail[i].hash) != (#[trigger] tail[j].hash) by {
                assert(tail[i] == groups[i + 1]);
                assert(tail[j] == groups[j + 1]);
            }
        }
        lemma_prune_effect(tail, h);
        assert(!group_has(tail, head.hash)) by {
            if group_has(tail, head.hash) {
                let gi = choose|gi: int|
                    0 <= gi < tail.len() && (#[trigger] tail[gi]).hash == head.hash;
                assert(groups[gi + 1].hash == head.hash);
            }
        }
        lemma_prune_effect(tail, head.hash);
        let out = prune(groups);
        assert(out == ph + prune(tail));
        // distinctness of the result
        assert(distinct_hashes(out)) by {
            assert forall|i: int, j: int|
                0 <= i < out.len() && 0 <= j < out.len() && i != j implies (#[trigger] out[i].hash)
                != (#[trigger] out[j].hash) by {
                if ph.len() == 1 {
                    if i == 0 && j > 0 {
                        assert(out[j] == prune(tail)[j - 1]);
                        assert(group_has(prune(tail), prune(tail)[j - 1].hash));
                    } else if j == 0 && i > 0 {
                        assert(out[i] == prune(tail)[i - 1]);
                        assert(group_has(prune(tail), prune(tail)[i - 1].hash));
                    } else if i > 0 && j > 0 {
                        assert(out[i] == prune(tail)[i - 1]);
                        assert(out[j] == prune(tail)[j - 1]);
                    }
                } else {
                    assert(out[i] == prune(tail)[i]);
                    assert(out[j] == prune(tail)[j]);
                }
            }
        }
        // the lookup after pruning
        if head.hash == h {
            if head.files.len() >= 2 {
                assert(out[0] == head);
                assert(group_files(out, h) == head.files);
                assert(group_has(out, h)) by {
                    assert(out[0].hash == h);
                }
            } else {
                assert(out == prune(tail));
                assert(group_files(tail, h) == (if group_has(tail, h) {
                    group_files(tail, h)
                } else {
                    group_files(tail, h)
                }));
                // h is absent from the tail, so its lookup there is empty
                assert(group_files(tail, h).len() == 0) by {
                    if group_files(tail, h).len() > 0 {
                        lemma_group_files_witness(tail, h);
                    }
                }
                assert(!group_has(out, h));
            }
        } else {
            if ph.len() == 1 {
                assert(out[0] == head);
                assert(out.drop_first() =~= prune(tail));
                assert(group_files(out, h) == group_files(prune(tail), h));
                assert(group_has(out, h) <==> (group_has(prune(tail), h) || out[0].hash == h)) by {
                    if group_has(out, h) {
                        let gi = choose|gi: int|
                            0 <= gi < out.len() && (#[trigger] out[gi]).hash == h;
                        if gi > 0 {
                            assert(prune(tail)[gi - 1].hash == h);
                        }
                    }
                    if group_has(prune(tail), h) {
                        let gi = choose|gi: int|
                            0 <= gi < prune(tail).len() && (#[trigger] prune(tail)[gi]).hash == h;
                        assert(out[gi + 1].hash == h);
                    }
                }
            } else {
                assert(out =~= prune(tail));
            }
        }
    }
}

/// Whether a record's path is held by no group.
pub open spec fn not_grouped(groups: Seq<GroupModel>) -> spec_fn(RecordModel) -> bool {
    |r: RecordModel| !groups_contain(groups, r.path)
}

/// A record's digest paired with its path.
pub open spec fn digest_pair() -> spec_fn(RecordModel) -> (Seq<char>, Seq<char>) {
    |r: RecordModel| (digest_model(r), r.path)
}

/// The entries and errors of a pass's hashing step.
pub open spec fn pass_hashes(res: ResultsModel, files: Seq<RecordModel>) -> (Seq<
    (Seq<char>, Seq<char>),
>, Seq<ErrorModel>) {
    hash_outcomes(res.groups, shared_size_files(size_buckets(files).0))
}

/// A record whose path some group already holds is skipped by the hashing
/// step: no hashed entry and no error carries its path.
pub proof fn lemma_hash_outcomes_skips(
    groups: Seq<GroupModel>,
    files: Seq<RecordModel>,
    p: Seq<char>,
)
    requires
        groups_contain(groups, p),
    ensures
        forall|k: int|
            0 <= k < hash_outcomes(groups, files).0.len() ==> (#[trigger] hash_outcomes(
                groups,
                files,
            ).0[k]).1 != p,
        forall|k: int|
            0 <= k < hash_outcomes(groups, files).1.len() ==> (#[trigger] hash_outcomes(
                groups,
                files,
            ).1[k]).path != p,
    decreases files.len(),
{
    if files.len() > 0 {
        lemma_hash_outcomes_skips(groups, files.drop_last(), p);
        let (hs0, es0) = hash_outcomes(groups, files.drop_last());
        let out = hash_outcomes(groups, files);
        assert forall|k: int| 0 <= k < out.0.len() implies (#[trigger] out.0[k]).1 != p by {
            if k < hs0.len() {
                assert(out.0[k] == hs0[k]);
            }
        }
        assert forall|k: int| 0 <= k < out.1.len() implies (#[trigger] out.1[k]).path != p by {
            if k < es0.len() {
                assert(out.1[k] == es0[k]);
            }
        }
    }
}

/// Whether a hashed entry stems from one of the records.
pub open spec fn entry_sourced(
    groups: Seq<GroupModel>,
    files: Seq<RecordModel>,
    e: (Seq<char>, Seq<char>),
) -> bool {
    exists|i: int|
        0 <= i < files.len() && !groups_contain(groups, (#[trigger] files[i]).path)
            && files[i].content is Ok && e == (digest_model(files[i]), files[i].path)
}

/// Whether a hashing error stems from one of the records.
pub open spec fn error_sourced(
    groups: Seq<GroupModel>,
    files: Seq<RecordModel>,
    e: ErrorModel,
) -> bool {
    exists|i: int|
        0 <= i < files.len() && !groups_contain(groups, (#[trigger] files[i]).path)
            && files[i].content is Err && e == (ErrorModel {
            path: files[i].path,
            io_error: files[i].content->Err_0,
        })
}

/// Every hashed entry and every hashing error stems from one of the
/// records.
pub proof fn lemma_hash_outcomes_sources(groups: Seq<GroupModel>, files: Seq<RecordModel>)
    ensures
        forall|k: int|
            0 <= k < hash_outcomes(groups, files).0.len() ==> entry_sourced(
                groups,
                files,
                #[trigger] hash_outcomes(groups, files).0[k],
            ),
        forall|k: int|
            0 <= k < hash_outcomes(groups, files).1.len() ==> error_sourced(
                groups,
                files,
                #[trigger] hash_outcomes(groups, files).1[k],
            ),
    decreases files.len(),
{
    if files.len() > 0 {
        let dl = files.drop_last();
        lemma_hash_outcomes_sources(groups, dl);
        let (hs0, es0) = hash_outcomes(groups, dl);
        let out = hash_outcomes(groups, files);
        assert forall|k: int| 0 <= k < out.0.len() implies entry_sourced(
            groups,
            files,
            #[trigger] out.0[k],
        ) by {
            if k < hs0.len() {
                assert(out.0[k] == hs0[k]);
                assert(entry_sourced(groups, dl, hs0[k]));
                let i = choose|i: int|
                    0 <= i < dl.len() && !groups_contain(groups, (#[trigger] dl[i]).path)
                        && dl[i].content is Ok && hs0[k] == (digest_model(dl[i]), dl[i].path);
                assert(files[i] == dl[i]);
            } else {
                let i = files.len() - 1;
                assert(files[i] == files.last());
                assert(out.0[k] == (digest_model(files[i]), files[i].path));
            }
        }
        assert forall|k: int| 0 <= k < out.1.len() implies error_sourced(
            groups,
            files,
            #[trigger] out.1[k],
        ) by {
            if k < es0.len() {
                assert(out.1[k] == es0[k]);
                assert(error_sourced(groups, dl, es0[k]));
                let i = choose|i: int|
                    0 <= i < dl.len() && !groups_contain(groups, (#[trigger] dl[i]).path)
                        && dl[i].content is Err && es0[k] == (ErrorModel {
                        path: dl[i].path,
                        io_error: dl[i].content->Err_0,
                    });
                assert(files[i] == dl[i]);
            } else {
                let i = files.len() - 1;
                assert(files[i] == files.last());
                assert(out.1[k] == (ErrorModel {
                    path: files[i].path,
                    io_error: files[i].content->Err_0,
                }));
            }
        }
    }
}

/// With readable contents, the hashing step hashes exactly the records no
/// group holds, in order, and meets no error.
pub proof fn lemma_hash_outcomes_shape(groups: Seq<GroupModel>, files: Seq<RecordModel>)
    requires
        forall|k: int| 0 <= k < files.len() ==> (#[trigger] files[k]).content is Ok,
    ensures
        hash_outcomes(groups, files).0 == files.filter(not_grouped(groups)).map_values(
            digest_pair(),
        ),
        hash_outcomes(groups, files).1 == Seq::<ErrorModel>::empty(),
    decreases files.len(),
{
    reveal(Seq::filter);
    if files.len() == 0 {
        assert(hash_outcomes(groups, files).0 =~= files.filter(not_grouped(groups)).map_values(
            digest_pair(),
        ));
        assert(hash_outcomes(groups, files).1 =~= Seq::<ErrorModel>::empty());
    } else {
        let dl = files.drop_last();
        assert forall|k: int| 0 <= k < dl.len() implies (#[trigger] dl[k]).content is Ok by {
            assert(dl[k] == files[k]);
        }
        lemma_hash_outcomes_shape(groups, dl);
        let r = files.last();
        assert(files[files.len() - 1].content is Ok);
        if groups_contain(groups, r.path) {
            assert(files.filter(not_grouped(groups)) == dl.filter(not_grouped(groups)));
            assert(hash_outcomes(groups, files).0 =~= files.filter(not_grouped(groups)).map_values(
                digest_pair(),
            ));
        } else {
            assert(files.filter(not_grouped(groups)) == dl.filter(not_grouped(groups)).push(r));
            assert(hash_outcomes(groups, files).0 =~= files.filter(not_grouped(groups)).map_values(
                digest_pair(),
            ));
        }
        assert(hash_outcomes(groups, files).1 =~= Seq::<ErrorModel>::empty());
    }
}

/// A placed path carrying a digest is one of the hashed entries.
pub proof fn lemma_pairs_witness(hs: Seq<(Seq<char>, Seq<char>)>, h: Seq<char>, p: Seq<char>)
    requires
        pairs_with_hash(hs, h).contains(p),
    ensures
        exists|k: int| 0 <= k < hs.len() && #[trigger] hs[k] == (h, p),
    decreases hs.len(),
{
    if hs.len() > 0 {
        let pre = pairs_with_hash(hs.drop_last(), h);
        if hs.last().0 == h && p == hs.last().1 {
            assert(hs[hs.len() - 1] == (h, p));
        } else {
            assert(pre.contains(p)) by {
                let k = choose|k: int|
                    0 <= k < pairs_with_hash(hs, h).len() && pairs_with_hash(hs, h)[k] == p;
                if k < pre.len() {
                    assert(pre[k] == p);
                } else {
                    assert(hs.last().0 == h && pairs_with_hash(hs, h)[k] == hs.last().1);
                }
            }
            lemma_pairs_witness(hs.drop_last(), h, p);
            let k = choose|k: int|
                0 <= k < hs.drop_last().len() && #[trigger] hs.drop_last()[k] == (h, p);
            assert(hs[k] == (h, p));
        }
    }
}

/// Whether a record sits in some bucket.
pub open spec fn bucket_elem(bs: Seq<(u64, Seq<RecordModel>)>, x: RecordModel) -> bool {
    exists|bj: int, kj: int|
        0 <= bj < bs.len() && 0 <= kj < bs[bj].1.len() && (#[trigger] bs[bj].1[kj]) == x
}

/// Every record of a grown bucket sequence is an old record or the added
/// one.
pub proof fn lemma_bucket_add_elems(bs: Seq<(u64, Seq<RecordModel>)>, size: u64, r: RecordModel)
    ensures
        forall|bi: int, k: int|
            0 <= bi < crate::model::bucket_add(bs, size, r).len() && 0 <= k
                < crate::model::bucket_add(bs, size, r)[bi].1.len() ==> (bucket_elem(
                bs,
                #[trigger] crate::model::bucket_add(bs, size, r)[bi].1[k],
            ) || crate::model::bucket_add(bs, size, r)[bi].1[k] == r),
    decreases bs.len(),
{
    let out = crate::model::bucket_add(bs, size, r);
    if bs.len() == 0 {
        assert forall|bi: int, k: int|
            0 <= bi < out.len() && 0 <= k < out[bi].1.len() implies (bucket_elem(
            bs,
            #[trigger] out[bi].1[k],
        ) || out[bi].1[k] == r) by {
            assert(out[0].1 =~= seq![r]);
        }
    } else if bs[0].0 == size {
        assert forall|bi: int, k: int|
            0 <= bi < out.len() && 0 <= k < out[bi].1.len() implies (bucket_elem(
            bs,
            #[trigger] out[bi].1[k],
        ) || out[bi].1[k] == r) by {
            if bi == 0 {
                if k < bs[0].1.len() {
                    assert(bs[0].1[k] == out[0].1[k]);
                } else {
                    assert(out[0].1[k] == r);
                }
            } else {
                assert(out[bi] == bs[bi]);
                assert(bs[bi].1[k] == out[bi].1[k]);
            }
        }
    } else {
        lemma_bucket_add_elems(bs.drop_first(), size, r);
        let sub = crate::model::bucket_add(bs.drop_first(), size, r);
        assert(out =~= seq![bs[0]] + sub);
        assert forall|bi: int, k: int|
            0 <= bi < out.len() && 0 <= k < out[bi].1.len() implies (bucket_elem(
            bs,
            #[trigger] out[bi].1[k],
        ) || out[bi].1[k] == r) by {
            if bi == 0 {
                assert(out[0] == bs[0]);
                assert(bs[0].1[k] == out[0].1[k]);
            } else {
                assert(out[bi] == sub[bi - 1]);
                assert(sub[bi - 1].1[k] == out[bi].1[k]);
                if bucket_elem(bs.drop_first(), out[bi].1[k]) {
                    let (bj, kj) = choose|bj: int, kj: int|
                        0 <= bj < bs.drop_first().len() && 0 <= kj < bs.drop_first()[bj].1.len()
                            && (#[trigger] bs.drop_first()[bj].1[kj]) == out[bi].1[k];
                    assert(bs[bj + 1].1[kj] == out[bi].1[k]);
                }
            }
        }
    }
}

/// Every record that a bucketing step files away is one of the candidates,
/// and its stat succeeded.
pub proof fn lemma_size_buckets_sub(files: Seq<RecordModel>)
    ensures
        forall|bi: int, k: int|
            0 <= bi < size_buckets(files).0.len() && 0 <= k < size_buckets(files).0[bi].1.len()
                ==> files.contains(#[trigger] size_buckets(files).0[bi].1[k]) && size_buckets(
                files,
            ).0[bi].1[k].stat is Ok,
    decreases files.len(),
{
    if files.len() > 0 {
        lemma_size_buckets_sub(files.drop_last());
        let dl = files.drop_last();
        let bs0 = size_buckets(dl).0;
        let out = size_buckets(files).0;
        assert forall|x: RecordModel| dl.contains(x) implies files.contains(x) by {
            let k = choose|k: int| 0 <= k < dl.len() && dl[k] == x;
            assert(files[k] == x);
        }
        match files.last().stat {
            Ok(size) => {
                lemma_bucket_add_elems(bs0, size, files.last());
                assert(files.contains(files.last())) by {
                    assert(files[files.len() - 1] == files.last());
                }
                assert forall|bi: int, k: int|
                    0 <= bi < out.len() && 0 <= k < out[bi].1.len() implies files.contains(
                    #[trigger] out[bi].1[k],
                ) && out[bi].1[k].stat is Ok by {
                    if bucket_elem(bs0, out[bi].1[k]) {
                        let (bj, kj) = choose|bj: int, kj: int|
                            0 <= bj < bs0.len() && 0 <= kj < bs0[bj].1.len() && (
                            #[trigger] bs0[bj].1[kj]) == out[bi].1[k];
                        assert(dl.contains(bs0[bj].1[kj]));
                    }
                }
            },
            Err(_) => {},
        }
    }
}

/// Every record that survives the size pre-filter is one of the candidates,
/// and its stat succeeded.
pub proof fn lemma_shared_sub(files: Seq<RecordModel>, r: RecordModel)
    requires
        shared_size_files(size_buckets(files).0).contains(r),
    ensures
        files.contains(r),
        r.stat is Ok,
{
    lemma_size_buckets_sub(files);
    lemma_shared_elem_witness(size_buckets(files).0, r);
}

/// A record among the shared-size survivors sits in some bucket of two or
/// more.
pub proof fn lemma_shared_elem_witness(bs: Seq<(u64, Seq<RecordModel>)>, r: RecordModel)
    requires
        shared_size_files(bs).contains(r),
    ensures
        exists|bi: int, k: int|
            0 <= bi < bs.len() && 0 <= k < bs[bi].1.len() && (#[trigger] bs[bi].1[k]) == r
                && bs[bi].1.len() >= 2,
    decreases bs.len(),
{
    if bs.len() > 0 {
        let pre = shared_size_files(bs.drop_last());
        let out = shared_size_files(bs);
        let k0 = choose|k0: int| 0 <= k0 < out.len() && out[k0] == r;
        if k0 < pre.len() {
            assert(pre[k0] == r);
            lemma_shared_elem_witness(bs.drop_last(), r);
            let (bi, k) = choose|bi: int, k: int|
                0 <= bi < bs.drop_last().len() && 0 <= k < bs.drop_last()[bi].1.len()
                    && (#[trigger] bs.drop_last()[bi].1[k]) == r && bs.drop_last()[bi].1.len() >= 2;
            assert(bs[bi].1[k] == r && bs[bi].1.len() >= 2);
        } else {
            assert(bs.last().1.len() >= 2);
            assert(bs.last().1[k0 - pre.len()] == r);
            assert(bs[bs.len() - 1].1[k0 - pre.len()] == r);
        }
    }
}

/// Merging passes keeps the accumulator well formed: every visible group
/// holds at least two paths, digests identify groups uniquely, and no path
/// is held by two different groups. An already grouped path is skipped by
/// the pass's hashing step: it is neither hashed again nor charged with a
/// new error.
pub proof fn lemma_at_most_once_membership(res: ResultsModel, files: Seq<RecordModel>)
    requires
        results_wf(res),
        consistent_records(files),
    ensures
        results_wf(pass(res, files)),
        forall|p: Seq<char>, k: int|
            #![trigger groups_contain(res.groups, p), pass_hashes(res, files).0[k]]
            groups_contain(res.groups, p) && 0 <= k < pass_hashes(res, files).0.len()
                ==> pass_hashes(res, files).0[k].1 != p,
        forall|p: Seq<char>, k: int|
            #![trigger groups_contain(res.groups, p), pass_hashes(res, files).1[k]]
            groups_contain(res.groups, p) && 0 <= k < pass_hashes(res, files).1.len()
                ==> pass_hashes(res, files).1[k].path != p,
    decreases files.len() + 1nat,
{
    let g0 = res.groups;
    let sv = shared_size_files(size_buckets(files).0);
    let hs = pass_hashes(res, files).0;
    let placed = place_all(g0, hs);
    let out = pass(res, files).groups;
    assert(out == prune(placed));
    assert(distinct_hashes(g0));
    // skipping of grouped paths
    assert forall|p: Seq<char>, k: int|
        #![trigger groups_contain(res.groups, p), pass_hashes(res, files).0[k]]
        groups_contain(res.groups, p) && 0 <= k < pass_hashes(res, files).0.len() implies pass_hashes(
        res,
        files,
    ).0[k].1 != p by {
        lemma_hash_outcomes_skips(g0, sv, p);
    }
    assert forall|p: Seq<char>, k: int|
        #![trigger groups_contain(res.groups, p), pass_hashes(res, files).1[k]]
        groups_contain(res.groups, p) && 0 <= k < pass_hashes(res, files).1.len() implies pass_hashes(
        res,
        files,
    ).1[k].path != p by {
        lemma_hash_outcomes_skips(g0, sv, p);
    }
    // the groups stay well formed
    lemma_prune_groups_big(placed);
    lemma_place_all_effect(g0, hs, Seq::<char>::empty());
    lemma_prune_effect(placed, Seq::<char>::empty());
    assert(results_wf(pass(res, files))) by {
        assert forall|i: int, j: int, p: Seq<char>|
            0 <= i < out.len() && 0 <= j < out.len() && i != j implies !((#[trigger] out[i].files.contains(
            p)) && (#[trigger] out[j].files.contains(p))) by {
            if out[i].files.contains(p) && out[j].files.contains(p) {
                let hi = out[i].hash;
                let hj = out[j].hash;
                assert(hi != hj);
                lemma_group_files_at(out, i);
                lemma_group_files_at(out, j);
                lemma_prune_effect(placed, hi);
                lemma_prune_effect(placed, hj);
                lemma_place_all_effect(g0, hs, hi);
                lemma_place_all_effect(g0, hs, hj);
                assert(group_files(placed, hi).contains(p));
                assert(group_files(placed, hj).contains(p));
                lemma_pass_member_cases(res, files, hi, p);
                lemma_pass_member_cases(res, files, hj, p);
                if group_files(g0, hi).contains(p) && group_files(g0, hj).contains(p) {
                    lemma_group_files_witness(g0, hi);
                    lemma_group_files_witness(g0, hj);
                    let gi = choose|gi: int|
                        0 <= gi < g0.len() && (#[trigger] g0[gi]).hash == hi && g0[gi].files
                            == group_files(g0, hi);
                    let gj = choose|gj: int|
                        0 <= gj < g0.len() && (#[trigger] g0[gj]).hash == hj && g0[gj].files
                            == group_files(g0, hj);
                    assert(gi != gj);
                    assert(false);
                } else if group_files(g0, hi).contains(p) && pairs_with_hash(hs, hj).contains(p) {
                    lemma_member_not_hashed(res, files, g0, hi, hj, p);
                } else if pairs_with_hash(hs, hi).contains(p) && group_files(g0, hj).contains(p) {
                    lemma_member_not_hashed(res, files, g0, hj, hi, p);
                } else {
                    lemma_two_digests_one_path(res, files, hi, hj, p);
                }
            }
        }
    }
}

/// A path found in a digest's lookup after placement was in that digest's
/// group before, or was hashed under that digest in this pass.
proof fn lemma_pass_member_cases(
    res: ResultsModel,
    files: Seq<RecordModel>,
    h: Seq<char>,
    p: Seq<char>,
)
    requires
        distinct_hashes(res.groups),
        group_files(place_all(res.groups, pass_hashes(res, files).0), h).contains(p),
    ensures
        group_files(res.groups, h).contains(p) || pairs_with_hash(
            pass_hashes(res, files).0,
            h,
        ).contains(p),
{
    let hs = pass_hashes(res, files).0;
    lemma_place_all_effect(res.groups, hs, h);
    let a = group_files(res.groups, h);
    let b = pairs_with_hash(hs, h);
    let k = choose|k: int| 0 <= k < (a + b).len() && (a + b)[k] == p;
    if k < a.len() {
        assert(a[k] == p);
    } else {
        assert(b[k - a.len()] == p);
    }
}

/// A path already held by a group is never among this pass's hashed
/// entries.
proof fn lemma_member_not_hashed(
    res: ResultsModel,
    files: Seq<RecordModel>,
    g0: Seq<GroupModel>,
    hg: Seq<char>,
    hp: Seq<char>,
    p: Seq<char>,
)
    requires
        g0 == res.groups,
        group_files(g0, hg).len() > 0,
        group_files(g0, hg).contains(p),
    ensures
        !pairs_with_hash(pass_hashes(res, files).0, hp).contains(p),
{
    let sv = shared_size_files(size_buckets(files).0);
    lemma_group_files_witness(g0, hg);
    let gi = choose|gi: int|
        0 <= gi < g0.len() && (#[trigger] g0[gi]).hash == hg && g0[gi].files == group_files(
            g0,
            hg,
        );
    assert(groups_contain(g0, p));
    lemma_hash_outcomes_skips(g0, sv, p);
    if pairs_with_hash(pass_hashes(res, files).0, hp).contains(p) {
        lemma_pairs_witness(pass_hashes(res, files).0, hp, p);
    }
}

/// One path is never hashed under two different digests in one pass of
/// consistent records.
proof fn lemma_two_digests_one_path(
    res: ResultsModel,
    files: Seq<RecordModel>,
    hi: Seq<char>,
    hj: Seq<char>,
    p: Seq<char>,
)
    requires
        consistent_records(files),
        hi != hj,
        pairs_with_hash(pass_hashes(res, files).0, hi).contains(p),
    ensures
        !pairs_with_hash(pass_hashes(res, files).0, hj).contains(p),
{
    let g0 = res.groups;
    let sv = shared_size_files(size_buckets(files).0);
    let hs = pass_hashes(res, files).0;
    if !pairs_with_hash(hs, hj).contains(p) {
        return;
    }
    lemma_pairs_witness(hs, hi, p);
    lemma_pairs_witness(hs, hj, p);
    let ki = choose|ki: int| 0 <= ki < hs.len() && #[trigger] hs[ki] == (hi, p);
    let kj = choose|kj: int| 0 <= kj < hs.len() && #[trigger] hs[kj] == (hj, p);
    lemma_hash_outcomes_sources(g0, sv);
    assert(entry_sourced(g0, sv, hs[ki]));
    assert(entry_sourced(g0, sv, hs[kj]));
    let i = choose|i: int|
        0 <= i < sv.len() && !groups_contain(g0, (#[trigger] sv[i]).path) && sv[i].content is Ok
            && hs[ki] == (digest_model(sv[i]), sv[i].path);
    let j = choose|j: int|
        0 <= j < sv.len() && !groups_contain(g0, (#[trigger] sv[j]).path) && sv[j].content is Ok
            && hs[kj] == (digest_model(sv[j]), sv[j].path);
    assert(sv.contains(sv[i]));
    assert(sv.contains(sv[j]));
    lemma_shared_sub(files, sv[i]);
    lemma_shared_sub(files, sv[j]);
    let fi = choose|fi: int| 0 <= fi < files.len() && files[fi] == sv[i];
    let fj = choose|fj: int| 0 <= fj < files.len() && files[fj] == sv[j];
    assert(files[fi].path == files[fj].path);
    assert(files[fi] == files[fj]);
}

/// Every group of a pass's outcome holds at least two files: singletons are
/// pruned.
pub proof fn lemma_prune_groups_big(groups: Seq<GroupModel>)
    ensures
        forall|gi: int|
            0 <= gi < prune(groups).len() ==> (#[trigger] prune(groups)[gi]).files.len() >= 2,
    decreases groups.len(),
{
    if groups.len() > 0 {
        lemma_prune_groups_big(groups.drop_last());
        assert forall|gi: int|
            0 <= gi < prune(groups).len() implies (#[trigger] prune(groups)[gi]).files.len()
            >= 2 by {
            if gi < prune(groups.drop_last()).len() {
                assert(prune(groups)[gi] == prune(groups.drop_last())[gi]);
            }
        }
    }
}


// ------------------------------------------------------------------
// The walker's law: size-filter correctness.
// ------------------------------------------------------------------

/// Filtering the empty sequence yields the empty sequence.
pub proof fn lemma_filter_empty<A>(pred: spec_fn(A) -> bool)
    ensures
        Seq::<A>::empty().filter(pred) == Seq::<A>::empty(),
{
    reveal(Seq::filter);
}

/// Filtering a one-element sequence keeps or drops that element.
pub proof fn lemma_filter_singleton<A>(x: A, pred: spec_fn(A) -> bool)
    ensures
        seq![x].filter(pred) == (if pred(x) {
            seq![x]
        } else {
            Seq::<A>::empty()
        }),
{
    reveal(Seq::filter);
    lemma_filter_empty::<A>(pred);
    assert(seq![x].drop_last() =~= Seq::<A>::empty());
    assert(seq![x].last() == x);
    if pred(x) {
        assert(seq![x].filter(pred) == Seq::<A>::empty().push(x));
        assert(Seq::<A>::empty().push(x) =~= seq![x]);
    }
}

/// The regular files of a directory tree, in listing order.
pub open spec fn tree_files(d: DirModel) -> Seq<RecordModel>
    decreases d,
{
    match d.listing {
        Ok(es) => tree_files_entries(es),
        Err(_) => Seq::empty(),
    }
}

/// The regular files under one directory entry.
pub open spec fn tree_files_entry(e: EntryModel) -> Seq<RecordModel>
    decreases e,
{
    match e {
        EntryModel::File(r) => seq![r],
        EntryModel::Subdir(d) => tree_files(d),
        EntryModel::Other(_) => Seq::empty(),
        EntryModel::Unreadable(_) => Seq::empty(),
    }
}

/// The regular files under a sequence of directory entries, in order.
pub open spec fn tree_files_entries(es: Seq<EntryModel>) -> Seq<RecordModel>
    decreases es,
{
    if es.len() == 0 {
        Seq::empty()
    } else {
        tree_files_entries(es.drop_last()) + tree_files_entry(es.last())
    }
}

/// Whether a record's stat succeeded.
pub open spec fn stat_ok() -> spec_fn(RecordModel) -> bool {
    |r: RecordModel| r.stat is Ok
}

/// Whether a record's stat succeeded with a byte length in the set.
pub open spec fn in_sizes(ss: Seq<u64>) -> spec_fn(RecordModel) -> bool {
    |r: RecordModel| r.stat is Ok && ss.contains(r.stat->Ok_0)
}

/// An unfiltered walk yields exactly the regular files of the tree whose
/// stat succeeded, in order.
pub proof fn lemma_walk_dir_unfiltered(d: DirModel)
    ensures
        walk_dir(d, None).0 == tree_files(d).filter(stat_ok()),
    decreases d,
{
    reveal(Seq::filter);
    match d.listing {
        Ok(es) => {
            lemma_walk_entries_unfiltered(d.path, es);
        },
        Err(_) => {},
    }
}

/// The entry form of the unfiltered-walk law.
pub proof fn lemma_walk_entry_unfiltered(dir_path: Seq<char>, e: EntryModel)
    ensures
        walk_entry(dir_path, e, None).0 == tree_files_entry(e).filter(stat_ok()),
    decreases e,
{
    reveal(Seq::filter);
    match e {
        EntryModel::File(r) => {
            lemma_filter_singleton(r, stat_ok());
        },
        EntryModel::Subdir(d) => {
            lemma_walk_dir_unfiltered(d);
        },
        EntryModel::Other(_) => {
            lemma_filter_empty::<RecordModel>(stat_ok());
        },
        EntryModel::Unreadable(_) => {
            lemma_filter_empty::<RecordModel>(stat_ok());
        },
    }
}

/// The entry-sequence form of the unfiltered-walk law.
pub proof fn lemma_walk_entries_unfiltered(dir_path: Seq<char>, es: Seq<EntryModel>)
    ensures
        walk_entries(dir_path, es, None).0 == tree_files_entries(es).filter(stat_ok()),
    decreases es,
{
    reveal(Seq::filter);
    if es.len() > 0 {
        lemma_walk_entries_unfiltered(dir_path, es.drop_last());
        lemma_walk_entry_unfiltered(dir_path, es.last());
        Seq::<RecordModel>::filter_distributes_over_add(
            tree_files_entries(es.drop_last()),
            tree_files_entry(es.last()),
            stat_ok(),
        );
    }
}

/// A filtered walk yields exactly the unfiltered walk's files whose byte
/// length is in the set, and meets exactly the same errors.
pub proof fn lemma_walk_dir_filtered(d: DirModel, ss: Seq<u64>)
    ensures
        walk_dir(d, Some(ss)).0 == walk_dir(d, None).0.filter(in_sizes(ss)),
        walk_dir(d, Some(ss)).1 == walk_dir(d, None).1,
    decreases d,
{
    reveal(Seq::filter);
    match d.listing {
        Ok(es) => {
            lemma_walk_entries_filtered(d.path, es, ss);
        },
        Err(_) => {},
    }
}

/// The entry form of the filtered-walk law.
pub proof fn lemma_walk_entry_filtered(dir_path: Seq<char>, e: EntryModel, ss: Seq<u64>)
    ensures
        walk_entry(dir_path, e, Some(ss)).0 == walk_entry(dir_path, e, None).0.filter(
            in_sizes(ss),
        ),
        walk_entry(dir_path, e, Some(ss)).1 == walk_entry(dir_path, e, None).1,
    decreases e,
{
    reveal(Seq::filter);
    match e {
        EntryModel::File(r) => {
            match r.stat {
                Ok(size) => {
                    lemma_filter_singleton(r, in_sizes(ss));
                },
                Err(_) => {
                    lemma_filter_empty::<RecordModel>(in_sizes(ss));
                },
            }
        },
        EntryModel::Subdir(d) => {
            lemma_walk_dir_filtered(d, ss);
        },
        EntryModel::Other(_) => {
            lemma_filter_empty::<RecordModel>(in_sizes(ss));
        },
        EntryModel::Unreadable(_) => {
            lemma_filter_empty::<RecordModel>(in_sizes(ss));
        },
    }
}

/// The entry-sequence form of the filtered-walk law.
pub proof fn lemma_walk_entries_filtered(dir_path: Seq<char>, es: Seq<EntryModel>, ss: Seq<u64>)
    ensures
        walk_entries(dir_path, es, Some(ss)).0 == walk_entries(dir_path, es, None).0.filter(
            in_sizes(ss),
        ),
        walk_entries(dir_path, es, Some(ss)).1 == walk_entries(dir_path, es, None).1,
    decreases es,
{
    reveal(Seq::filter);
    if es.len() > 0 {
        lemma_walk_entries_filtered(dir_path, es.drop_last(), ss);
        lemma_walk_entry_filtered(dir_path, es.last(), ss);
        Seq::<RecordModel>::filter_distributes_over_add(
            walk_entries(dir_path, es.drop_last(), None).0,
            walk_entry(dir_path, es.last(), None).0,
            in_sizes(ss),
        );
    }
}

/// Size-filter correctness: a walk with a size set yields exactly the
/// tree's regular files whose stat succeeded and whose byte length is in
/// the set, in listing order; a walk with no size set yields every regular
/// file whose stat succeeded; the errors met do not depend on the filter.
pub proof fn lemma_size_filter_correctness(d: DirModel, ss: Seq<u64>)
    ensures
        walk_dir(d, None).0 == tree_files(d).filter(stat_ok()),
        walk_dir(d, Some(ss)).0 == tree_files(d).filter(stat_ok()).filter(in_sizes(ss)),
        walk_dir(d, Some(ss)).1 == walk_dir(d, None).1,
        forall|k: int|
            0 <= k < walk_dir(d, Some(ss)).0.len() ==> (#[trigger] walk_dir(
                d,
                Some(ss),
            ).0[k]).stat is Ok && ss.contains(walk_dir(d, Some(ss)).0[k].stat->Ok_0),
{
    lemma_walk_dir_unfiltered(d);
    lemma_walk_dir_filtered(d, ss);
    assert forall|k: int| 0 <= k < walk_dir(d, Some(ss)).0.len() implies (#[trigger] walk_dir(
        d,
        Some(ss),
    ).0[k]).stat is Ok && ss.contains(walk_dir(d, Some(ss)).0[k].stat->Ok_0) by {
        Seq::<RecordModel>::lemma_filter_pred(walk_dir(d, None).0, in_sizes(ss), k);
    }
}

// ------------------------------------------------------------------
// The size pre-filter's law.
// ------------------------------------------------------------------

/// Whether a record's stat succeeded with exactly this byte length.
pub open spec fn has_size(s: u64) -> spec_fn(RecordModel) -> bool {
    |r: RecordModel| r.stat == Ok::<u64, Seq<char>>(s)
}

/// Whether some bucket carries the byte length.
pub open spec fn bucket_has(bs: Seq<(u64, Seq<RecordModel>)>, s: u64) -> bool {
    exists|bi: int| 0 <= bi < bs.len() && (#[trigger] bs[bi]).0 == s
}

/// Whether the buckets carry pairwise different byte lengths.
pub open spec fn distinct_sizes(bs: Seq<(u64, Seq<RecordModel>)>) -> bool {
    forall|i: int, j: int|
        0 <= i < bs.len() && 0 <= j < bs.len() && i != j ==> (#[trigger] bs[i].0) != (
        #[trigger] bs[j].0)
}

/// The records of the first bucket with the byte length; empty when no
/// bucket has it.
pub open spec fn bucket_files(bs: Seq<(u64, Seq<RecordModel>)>, s: u64) -> Seq<RecordModel>
    decreases bs.len(),
{
    if bs.len() == 0 {
        Seq::empty()
    } else if bs[0].0 == s {
        bs[0].1
    } else {
        bucket_files(bs.drop_first(), s)
    }
}

/// Filing one record away grows exactly the bucket of its byte length, and
/// keeps byte lengths pairwise different.
pub proof fn lemma_bucket_add_files(
    bs: Seq<(u64, Seq<RecordModel>)>,
    size: u64,
    r: RecordModel,
    s: u64,
)
    requires
        distinct_sizes(bs),
    ensures
        bucket_files(bucket_add(bs, size, r), s) == (if s == size {
            bucket_files(bs, s).push(r)
        } else {
            bucket_files(bs, s)
        }),
        distinct_sizes(bucket_add(bs, size, r)),
    decreases bs.len(),
{
    let out = bucket_add(bs, size, r);
    if bs.len() == 0 {
        assert(out =~= seq![(size, seq![r])]);
        if s == size {
            assert(bucket_files(out, s) =~= bucket_files(bs, s).push(r));
        } else {
            assert(out.drop_first() =~= Seq::<(u64, Seq<RecordModel>)>::empty());
            assert(bucket_files(out, s) == bucket_files(out.drop_first(), s));
        }
    } else if bs[0].0 == size {
        assert(out =~= seq![(bs[0].0, bs[0].1.push(r))] + bs.drop_first());
        assert(out.drop_first() =~= bs.drop_first());
        assert(out[0] == (bs[0].0, bs[0].1.push(r)));
        if s == size {
            assert(bucket_files(out, s) == bs[0].1.push(r));
            assert(bucket_files(bs, s) == bs[0].1);
        } else {
            assert(bucket_files(out, s) == bucket_files(bs.drop_first(), s));
            assert(bucket_files(bs, s) == bucket_files(bs.drop_first(), s));
        }
        assert(distinct_sizes(out)) by {
            assert forall|i: int, j: int|
                0 <= i < out.len() && 0 <= j < out.len() && i != j implies (#[trigger] out[i].0)
                != (#[trigger] out[j].0) by {
                assert(out[i].0 == bs[i].0);
                assert(out[j].0 == bs[j].0);
            }
        }
    } else {
        assert(distinct_sizes(bs.drop_first())) by {
            assert forall|i: int, j: int|
                0 <= i < bs.drop_first().len() && 0 <= j < bs.drop_first().len() && i != j implies (
            #[trigger] bs.drop_first()[i].0) != (#[trigger] bs.drop_first()[j].0) by {
                assert(bs.drop_first()[i] == bs[i + 1]);
                assert(bs.drop_first()[j] == bs[j + 1]);
            }
        }
        lemma_bucket_add_files(bs.drop_first(), size, r, s);
        let sub = bucket_add(bs.drop_first(), size, r);
        assert(out =~= seq![bs[0]] + sub);
        assert(out.drop_first() =~= sub);
        assert(out[0] == bs[0]);
        if s == bs[0].0 {
            assert(bucket_files(out, s) == bs[0].1);
            assert(bucket_files(bs, s) == bs[0].1);
        } else {
            assert(bucket_files(out, s) == bucket_files(sub, s));
            assert(bucket_files(bs, s) == bucket_files(bs.drop_first(), s));
        }
        // the head's byte length stays absent from the grown tail
        assert(!bucket_has(bs.drop_first(), bs[0].0)) by {
            if bucket_has(bs.drop_first(), bs[0].0) {
                let bi = choose|bi: int|
                    0 <= bi < bs.drop_first().len() && (#[trigger] bs.drop_first()[bi]).0
                        == bs[0].0;
                assert(bs[bi + 1].0 == bs[0].0);
            }
        }
        lemma_bucket_add_sizes(bs.drop_first(), size, r);
        assert(distinct_sizes(out)) by {
            assert forall|i: int, j: int|
                0 <= i < out.len() && 0 <= j < out.len() && i != j implies (#[trigger] out[i].0)
                != (#[trigger] out[j].0) by {
                if i == 0 && j > 0 {
                    assert(bucket_has(sub, sub[j - 1].0));
                } else if j == 0 && i > 0 {
                    assert(bucket_has(sub, sub[i - 1].0));
                } else if i > 0 && j > 0 {
                    assert(out[i] == sub[i - 1]);
                    assert(out[j] == sub[j - 1]);
                }
            }
        }
    }
}

/// A byte length exists among grown buckets exactly when it existed before
/// or is the filed record's.
pub proof fn lemma_bucket_add_sizes(bs: Seq<(u64, Seq<RecordModel>)>, size: u64, r: RecordModel)
    ensures
        forall|s: u64|
            #[trigger] bucket_has(bucket_add(bs, size, r), s) <==> (bucket_has(bs, s) || s
                == size),
    decreases bs.len(),
{
    let out = bucket_add(bs, size, r);
    assert forall|s: u64|
        #[trigger] bucket_has(out, s) <==> (bucket_has(bs, s) || s == size) by {
        if bs.len() == 0 {
            if bucket_has(out, s) {
                assert(out[0].0 == size);
            }
            if s == size {
                assert(out[0].0 == s);
            }
        } else if bs[0].0 == size {
            assert(out =~= seq![(bs[0].0, bs[0].1.push(r))] + bs.drop_first());
            if bucket_has(out, s) {
                let bi = choose|bi: int| 0 <= bi < out.len() && (#[trigger] out[bi]).0 == s;
                assert(bs[bi].0 == s);
            }
            if bucket_has(bs, s) {
                let bi = choose|bi: int| 0 <= bi < bs.len() && (#[trigger] bs[bi]).0 == s;
                assert(out[bi].0 == s);
            }
            if s == size {
                assert(out[0].0 == s);
            }
        } else {
            lemma_bucket_add_sizes(bs.drop_first(), size, r);
            let sub = bucket_add(bs.drop_first(), size, r);
            assert(out =~= seq![bs[0]] + sub);
            if bucket_has(out, s) {
                let bi = choose|bi: int| 0 <= bi < out.len() && (#[trigger] out[bi]).0 == s;
                if bi == 0 {
                    assert(bs[0].0 == s);
                } else {
                    assert(bucket_has(sub, s));
                    if bucket_has(bs.drop_first(), s) {
                        let bj = choose|bj: int|
                            0 <= bj < bs.drop_first().len() && (#[trigger] bs.drop_first()[bj]).0
                                == s;
                        assert(bs[bj + 1].0 == s);
                    }
                }
            }
            if bucket_has(bs, s) {
                let bi = choose|bi: int| 0 <= bi < bs.len() && (#[trigger] bs[bi]).0 == s;
                if bi == 0 {
                    assert(out[0].0 == s);
                } else {
                    assert(bs.drop_first()[bi - 1].0 == s);
                    assert(bucket_has(bs.drop_first(), s));
                    assert(bucket_has(sub, s));
                    let bj = choose|bj: int| 0 <= bj < sub.len() && (#[trigger] sub[bj]).0 == s;
                    assert(out[bj + 1].0 == s);
                }
            }
            if s == size {
                assert(bucket_has(sub, s));
                let bj = choose|bj: int| 0 <= bj < sub.len() && (#[trigger] sub[bj]).0 == s;
                assert(out[bj + 1].0 == s);
            }
        }
    }
}

/// Bucketing files exactly the candidates of each byte length together, in
/// candidate order, one bucket per length.
pub proof fn lemma_size_buckets_files(files: Seq<RecordModel>, s: u64)
    ensures
        distinct_sizes(size_buckets(files).0),
        bucket_files(size_buckets(files).0, s) == files.filter(has_size(s)),
    decreases files.len(),
{
    reveal(Seq::filter);
    if files.len() > 0 {
        lemma_size_buckets_files(files.drop_last(), s);
        let bs0 = size_buckets(files.drop_last()).0;
        match files.last().stat {
            Ok(size) => {
                lemma_bucket_add_files(bs0, size, files.last(), s);
                if s == size {
                    assert(bucket_files(size_buckets(files).0, s) =~= files.filter(has_size(s)));
                } else {
                    assert(bucket_files(size_buckets(files).0, s) =~= files.filter(has_size(s)));
                }
            },
            Err(_) => {
                assert(bucket_files(size_buckets(files).0, s) =~= files.filter(has_size(s)));
            },
        }
    }
}

/// With pairwise different byte lengths, looking a bucket's own length up
/// yields that bucket's records.
pub proof fn lemma_bucket_files_at(bs: Seq<(u64, Seq<RecordModel>)>, bi: int)
    requires
        distinct_sizes(bs),
        0 <= bi < bs.len(),
    ensures
        bucket_files(bs, bs[bi].0) == bs[bi].1,
    decreases bi,
{
    if bi > 0 {
        assert(bs[0].0 != bs[bi].0);
        assert(distinct_sizes(bs.drop_first())) by {
            assert forall|i: int, j: int|
                0 <= i < bs.drop_first().len() && 0 <= j < bs.drop_first().len() && i != j implies (
            #[trigger] bs.drop_first()[i].0) != (#[trigger] bs.drop_first()[j].0) by {
                assert(bs.drop_first()[i] == bs[i + 1]);
                assert(bs.drop_first()[j] == bs[j + 1]);
            }
        }
        lemma_bucket_files_at(bs.drop_first(), bi - 1);
    }
}

/// A filtered sequence of length one or more has a source index.
pub proof fn lemma_filter_one_source<A>(s: Seq<A>, pred: spec_fn(A) -> bool)
    requires
        s.filter(pred).len() >= 1,
    ensures
        exists|i: int| 0 <= i < s.len() && pred(#[trigger] s[i]),
    decreases s.len(),
{
    reveal(Seq::filter);
    if s.len() > 0 {
        if pred(s.last()) {
            assert(pred(s[s.len() - 1]));
        } else {
            lemma_filter_one_source(s.drop_last(), pred);
            let i = choose|i: int| 0 <= i < s.drop_last().len() && pred(#[trigger] s.drop_last()[i]);
            assert(pred(s[i]));
        }
    }
}

/// A filtered sequence of length two or more has two source indices.
pub proof fn lemma_filter_two_sources<A>(s: Seq<A>, pred: spec_fn(A) -> bool)
    requires
        s.filter(pred).len() >= 2,
    ensures
        exists|i: int, j: int| 0 <= i < j < s.len() && pred(#[trigger] s[i]) && pred(#[trigger] s[j]),
    decreases s.len(),
{
    reveal(Seq::filter);
    if s.len() > 0 {
        if pred(s.last()) {
            lemma_filter_one_source(s.drop_last(), pred);
            let i = choose|i: int| 0 <= i < s.drop_last().len() && pred(#[trigger] s.drop_last()[i]);
            assert(pred(s[i]) && pred(s[s.len() - 1]));
            assert(0 <= i < s.len() - 1 < s.len());
        } else {
            lemma_filter_two_sources(s.drop_last(), pred);
            let (i, j) = choose|i: int, j: int|
                0 <= i < j < s.drop_last().len() && pred(#[trigger] s.drop_last()[i]) && pred(
                    #[trigger] s.drop_last()[j],
                );
            assert(pred(s[i]) && pred(s[j]));
        }
    }
}

/// Two source indices give a filtered sequence of length two or more.
pub proof fn lemma_filter_two_targets<A>(s: Seq<A>, pred: spec_fn(A) -> bool, i: int, j: int)
    requires
        0 <= i < j < s.len(),
        pred(s[i]),
        pred(s[j]),
    ensures
        s.filter(pred).len() >= 2,
    decreases s.len(),
{
    reveal(Seq::filter);
    if j == s.len() - 1 {
        assert(s.drop_last()[i] == s[i]);
        Seq::<A>::lemma_filter_contains(s.drop_last(), pred, i);
        assert(s.drop_last().filter(pred).len() >= 1);
    } else {
        assert(s.drop_last()[i] == s[i]);
        assert(s.drop_last()[j] == s[j]);
        lemma_filter_two_targets(s.drop_last(), pred, i, j);
    }
}

/// Size pre-filter soundness: a candidate whose byte length is unique among
/// the candidates is never hashed — no hashed entry and no hashing error of
/// the pass carries its path — and it joins no group it was not already in.
pub proof fn lemma_size_prefilter_soundness(res: ResultsModel, files: Seq<RecordModel>, i: int)
    requires
        distinct_hashes(res.groups),
        0 <= i < files.len(),
        files[i].stat is Ok,
        forall|j: int|
            0 <= j < files.len() && j != i ==> (#[trigger] files[j]).path != files[i].path,
        forall|j: int|
            0 <= j < files.len() && j != i && (#[trigger] files[j]).stat is Ok ==> files[j].stat
                != files[i].stat,
    ensures
        forall|k: int|
            0 <= k < pass_hashes(res, files).0.len() ==> (#[trigger] pass_hashes(
                res,
                files,
            ).0[k]).1 != files[i].path,
        forall|k: int|
            0 <= k < pass_hashes(res, files).1.len() ==> (#[trigger] pass_hashes(
                res,
                files,
            ).1[k]).path != files[i].path,
        !groups_contain(res.groups, files[i].path) ==> !groups_contain(
            pass(res, files).groups,
            files[i].path,
        ),
{
    let p = files[i].path;
    let s = files[i].stat->Ok_0;
    let bs = size_buckets(files).0;
    let sv = shared_size_files(bs);
    let hs = pass_hashes(res, files).0;
    lemma_size_buckets_files(files, s);
    lemma_size_buckets_sub(files);
    // the candidate's byte length fills a bucket of at most one record
    assert(files.filter(has_size(s)).len() <= 1) by {
        if files.filter(has_size(s)).len() >= 2 {
            lemma_filter_two_sources(files, has_size(s));
            let (k1, k2) = choose|k1: int, k2: int|
                0 <= k1 < k2 < files.len() && has_size(s)(#[trigger] files[k1]) && has_size(s)(
                    #[trigger] files[k2],
                );
            assert(k1 != i || k2 != i);
            if k1 != i {
                assert(files[k1].stat == files[i].stat);
                assert(false);
            } else {
                assert(files[k2].stat == files[i].stat);
                assert(false);
            }
        }
    }
    // so the candidate never survives the pre-filter
    assert forall|k: int| 0 <= k < sv.len() implies (#[trigger] sv[k]).path != p by {
        if sv[k].path == p {
            assert(sv.contains(sv[k]));
            lemma_shared_elem_witness(bs, sv[k]);
            let (bi, bk) = choose|bi: int, bk: int|
                0 <= bi < bs.len() && 0 <= bk < bs[bi].1.len() && (#[trigger] bs[bi].1[bk])
                    == sv[k] && bs[bi].1.len() >= 2;
            assert(files.contains(sv[k]));
            let fj = choose|fj: int| 0 <= fj < files.len() && files[fj] == sv[k];
            assert(fj == i);
            assert(sv[k] == files[i]);
            lemma_bucket_files_at(bs, bi);
            lemma_size_buckets_files(files, bs[bi].0);
            Seq::<RecordModel>::lemma_filter_pred(files, has_size(bs[bi].0), bk);
            assert(bs[bi].1[bk].stat == Ok::<u64, Seq<char>>(bs[bi].0));
            assert(bs[bi].0 == s);
            assert(files.filter(has_size(s)).len() >= 2);
        }
    }
    // hence no hashed entry and no hashing error carries its path
    lemma_hash_outcomes_sources(res.groups, sv);
    assert forall|k: int| 0 <= k < pass_hashes(res, files).0.len() implies (
    #[trigger] pass_hashes(res, files).0[k]).1 != p by {
        assert(entry_sourced(res.groups, sv, pass_hashes(res, files).0[k]));
    }
    assert forall|k: int| 0 <= k < pass_hashes(res, files).1.len() implies (
    #[trigger] pass_hashes(res, files).1[k]).path != p by {
        assert(error_sourced(res.groups, sv, pass_hashes(res, files).1[k]));
    }
    // and the candidate joins no group it was not already in
    if !groups_contain(res.groups, p) && groups_contain(pass(res, files).groups, p) {
        let out = pass(res, files).groups;
        let placed = place_all(res.groups, hs);
        let gi = choose|gi: int| 0 <= gi < out.len() && (#[trigger] out[gi]).files.contains(p);
        let h = out[gi].hash;
        lemma_place_all_effect(res.groups, hs, h);
        lemma_prune_effect(placed, h);
        assert(distinct_hashes(out));
        lemma_group_files_at(out, gi);
        assert(group_files(placed, h).contains(p));
        lemma_pass_member_cases(res, files, h, p);
        if group_files(res.groups, h).contains(p) {
            lemma_group_files_witness(res.groups, h);
            let gj = choose|gj: int|
                0 <= gj < res.groups.len() && (#[trigger] res.groups[gj]).hash == h
                    && res.groups[gj].files == group_files(res.groups, h);
            assert(groups_contain(res.groups, p));
        } else {
            lemma_pairs_witness(hs, h, p);
            let k = choose|k: int| 0 <= k < hs.len() && #[trigger] hs[k] == (h, p);
            assert(hs[k].1 == p);
        }
    }
}


// ------------------------------------------------------------------
// The grouping law's supporting facts.
// ------------------------------------------------------------------

/// Whether the candidates carry pairwise different paths.
pub open spec fn distinct_paths(files: Seq<RecordModel>) -> bool {
    forall|i: int, j: int|
        0 <= i < files.len() && 0 <= j < files.len() && i != j ==> (#[trigger] files[i]).path != (
        #[trigger] files[j]).path
}

/// Whether another candidate carries the same byte length.
pub open spec fn shares_size(files: Seq<RecordModel>, i: int) -> bool {
    exists|j: int| 0 <= j < files.len() && j != i && (#[trigger] files[j]).stat == files[i].stat
}

/// Whether one group holds both paths.
pub open spec fn in_same_group(groups: Seq<GroupModel>, p: Seq<char>, q: Seq<char>) -> bool {
    exists|gi: int|
        0 <= gi < groups.len() && (#[trigger] groups[gi]).files.contains(p)
            && groups[gi].files.contains(q)
}

/// Whether a record's digest is this digest.
pub open spec fn digest_is(h: Seq<char>) -> spec_fn(RecordModel) -> bool {
    |r: RecordModel| digest_model(r) == h
}

/// A record's path.
pub open spec fn rec_path() -> spec_fn(RecordModel) -> Seq<char> {
    |r: RecordModel| r.path
}

/// Filtering with a predicate that holds everywhere changes nothing.
pub proof fn lemma_filter_all_true<A>(s: Seq<A>, pred: spec_fn(A) -> bool)
    requires
        forall|k: int| 0 <= k < s.len() ==> pred(#[trigger] s[k]),
    ensures
        s.filter(pred) == s,
    decreases s.len(),
{
    reveal(Seq::filter);
    if s.len() > 0 {
        lemma_filter_all_true(s.drop_last(), pred);
        assert(pred(s[s.len() - 1]));
        assert(s.filter(pred) =~= s);
    }
}

/// A filtered sequence's elements come from the sequence.
pub proof fn lemma_filter_subset<A>(s: Seq<A>, pred: spec_fn(A) -> bool, x: A)
    requires
        s.filter(pred).contains(x),
    ensures
        s.contains(x),
        pred(x),
    decreases s.len(),
{
    reveal(Seq::filter);
    if s.len() > 0 {
        let f = s.filter(pred);
        let m = choose|m: int| 0 <= m < f.len() && f[m] == x;
        let fd = s.drop_last().filter(pred);
        if pred(s.last()) && m == f.len() - 1 {
            assert(x == s.last());
            assert(s[s.len() - 1] == x);
        } else {
            assert(fd[m] == x);
            lemma_filter_subset(s.drop_last(), pred, x);
            let k = choose|k: int| 0 <= k < s.drop_last().len() && s.drop_last()[k] == x;
            assert(s[k] == x);
        }
    }
}

/// Filtering keeps a sequence free of duplicates.
pub proof fn lemma_filter_nodup<A>(s: Seq<A>, pred: spec_fn(A) -> bool)
    requires
        s.no_duplicates(),
    ensures
        s.filter(pred).no_duplicates(),
    decreases s.len(),
{
    reveal(Seq::filter);
    if s.len() > 0 {
        assert(s.drop_last().no_duplicates());
        lemma_filter_nodup(s.drop_last(), pred);
        if pred(s.last()) {
            let fd = s.drop_last().filter(pred);
            assert(!fd.contains(s.last())) by {
                if fd.contains(s.last()) {
                    lemma_filter_subset(s.drop_last(), pred, s.last());
                    let k = choose|k: int|
                        0 <= k < s.drop_last().len() && s.drop_last()[k] == s.last();
                    assert(s[k] == s[s.len() - 1]);
                }
            }
            assert(s.filter(pred) == fd.push(s.last()));
            assert(s.filter(pred).no_duplicates()) by {
                assert forall|a: int, b: int|
                    0 <= a < b < s.filter(pred).len() implies s.filter(pred)[a] != s.filter(
                    pred,
                )[b] by {
                    if b == s.filter(pred).len() - 1 {
                        assert(s.filter(pred)[a] == fd[a]);
                        if s.filter(pred)[a] == s.last() {
                            assert(fd.contains(s.last()));
                        }
                    } else {
                        assert(s.filter(pred)[a] == fd[a]);
                        assert(s.filter(pred)[b] == fd[b]);
                    }
                }
            }
        }
    }
}

/// Membership in a filtered and mapped sequence is membership of a source.
pub proof fn lemma_filter_map_membership<A, B>(
    s: Seq<A>,
    pred: spec_fn(A) -> bool,
    f: spec_fn(A) -> B,
    x: B,
)
    ensures
        s.filter(pred).map_values(f).contains(x) <==> exists|k: int|
            0 <= k < s.len() && pred(#[trigger] s[k]) && f(s[k]) == x,
{
    let fm = s.filter(pred).map_values(f);
    if fm.contains(x) {
        let m = choose|m: int| 0 <= m < fm.len() && fm[m] == x;
        let v = s.filter(pred)[m];
        assert(f(v) == x);
        assert(s.filter(pred).contains(v));
        lemma_filter_subset(s, pred, v);
        let k = choose|k: int| 0 <= k < s.len() && s[k] == v;
        assert(pred(s[k]) && f(s[k]) == x);
    }
    if exists|k: int| 0 <= k < s.len() && pred(#[trigger] s[k]) && f(s[k]) == x {
        let k = choose|k: int| 0 <= k < s.len() && pred(#[trigger] s[k]) && f(s[k]) == x;
        Seq::<A>::lemma_filter_contains(s, pred, k);
        let m = choose|m: int| 0 <= m < s.filter(pred).len() && s.filter(pred)[m] == s[k];
        assert(fm[m] == x);
    }
}

/// The hashed entries of mapped records that carry one digest are the
/// records with that digest, mapped to their paths.
pub proof fn lemma_pairs_of_map(rs: Seq<RecordModel>, h: Seq<char>)
    ensures
        pairs_with_hash(rs.map_values(digest_pair()), h) == rs.filter(digest_is(h)).map_values(
            rec_path(),
        ),
    decreases rs.len(),
{
    reveal(Seq::filter);
    if rs.len() == 0 {
        assert(rs.map_values(digest_pair()).len() == 0);
        assert(pairs_with_hash(rs.map_values(digest_pair()), h) =~= rs.filter(
            digest_is(h),
        ).map_values(rec_path()));
    } else {
        lemma_pairs_of_map(rs.drop_last(), h);
        let mapped = rs.map_values(digest_pair());
        assert(mapped.drop_last() =~= rs.drop_last().map_values(digest_pair()));
        assert(mapped.last() == digest_pair()(rs.last()));
        if digest_is(h)(rs.last()) {
            assert(rs.filter(digest_is(h)) == rs.drop_last().filter(digest_is(h)).push(rs.last()));
            assert(pairs_with_hash(mapped, h) =~= rs.filter(digest_is(h)).map_values(rec_path()));
        } else {
            assert(rs.filter(digest_is(h)) == rs.drop_last().filter(digest_is(h)));
            assert(pairs_with_hash(mapped, h) =~= rs.filter(digest_is(h)).map_values(rec_path()));
        }
    }
}

/// A record of a bucket of two or more survives the size pre-filter.
pub proof fn lemma_shared_contains_fwd(bs: Seq<(u64, Seq<RecordModel>)>, r: RecordModel, bi: int)
    requires
        0 <= bi < bs.len(),
        bs[bi].1.contains(r),
        bs[bi].1.len() >= 2,
    ensures
        shared_size_files(bs).contains(r),
    decreases bs.len(),
{
    let out = shared_size_files(bs);
    let pre = shared_size_files(bs.drop_last());
    if bi == bs.len() - 1 {
        let k = choose|k: int| 0 <= k < bs[bi].1.len() && bs[bi].1[k] == r;
        assert(bs.last() == bs[bi]);
        assert(out[pre.len() + k] == r);
    } else {
        assert(bs.drop_last()[bi] == bs[bi]);
        lemma_shared_contains_fwd(bs.drop_last(), r, bi);
        let k = choose|k: int| 0 <= k < pre.len() && pre[k] == r;
        assert(out[k] == r);
    }
}

/// A non-empty lookup result is the record list of some bucket with the
/// byte length.
pub proof fn lemma_bucket_files_witness(bs: Seq<(u64, Seq<RecordModel>)>, s: u64)
    requires
        bucket_files(bs, s).len() > 0,
    ensures
        exists|bi: int|
            0 <= bi < bs.len() && (#[trigger] bs[bi]).0 == s && bs[bi].1 == bucket_files(bs, s),
    decreases bs.len(),
{
    if bs.len() > 0 && bs[0].0 != s {
        lemma_bucket_files_witness(bs.drop_first(), s);
        let bi = choose|bi: int|
            0 <= bi < bs.drop_first().len() && (#[trigger] bs.drop_first()[bi]).0 == s
                && bs.drop_first()[bi].1 == bucket_files(bs.drop_first(), s);
        assert(bs[bi + 1].0 == s && bs[bi + 1].1 == bucket_files(bs, s));
    }
}

/// A candidate with a sound stat survives the size pre-filter exactly when
/// another candidate carries its byte length.
pub proof fn lemma_survivor_iff(files: Seq<RecordModel>, i: int)
    requires
        distinct_paths(files),
        0 <= i < files.len(),
        files[i].stat is Ok,
    ensures
        shared_size_files(size_buckets(files).0).contains(files[i]) <==> shares_size(files, i),
{
    let bs = size_buckets(files).0;
    let s = files[i].stat->Ok_0;
    lemma_size_buckets_files(files, s);
    lemma_size_buckets_sub(files);
    if shared_size_files(bs).contains(files[i]) {
        lemma_shared_elem_witness(bs, files[i]);
        let (bi, bk) = choose|bi: int, bk: int|
            0 <= bi < bs.len() && 0 <= bk < bs[bi].1.len() && (#[trigger] bs[bi].1[bk])
                == files[i] && bs[bi].1.len() >= 2;
        lemma_bucket_files_at(bs, bi);
        lemma_size_buckets_files(files, bs[bi].0);
        Seq::<RecordModel>::lemma_filter_pred(files, has_size(bs[bi].0), bk);
        assert(bs[bi].1[bk].stat == Ok::<u64, Seq<char>>(bs[bi].0));
        assert(bs[bi].0 == s);
        assert(files.filter(has_size(s)).len() >= 2);
        lemma_filter_two_sources(files, has_size(s));
        let (k1, k2) = choose|k1: int, k2: int|
            0 <= k1 < k2 < files.len() && has_size(s)(#[trigger] files[k1]) && has_size(s)(
                #[trigger] files[k2],
            );
        if k1 != i {
            assert(files[k1].stat == files[i].stat);
        } else {
            assert(files[k2].stat == files[i].stat);
        }
    }
    if shares_size(files, i) {
        let j = choose|j: int|
            0 <= j < files.len() && j != i && (#[trigger] files[j]).stat == files[i].stat;
        assert(has_size(s)(files[i]));
        assert(has_size(s)(files[j]));
        if i < j {
            lemma_filter_two_targets(files, has_size(s), i, j);
        } else {
            lemma_filter_two_targets(files, has_size(s), j, i);
        }
        Seq::<RecordModel>::lemma_filter_contains(files, has_size(s), i);
        lemma_bucket_files_witness(bs, s);
        let bi = choose|bi: int|
            0 <= bi < bs.len() && (#[trigger] bs[bi]).0 == s && bs[bi].1 == bucket_files(bs, s);
        lemma_shared_contains_fwd(bs, files[i], bi);
    }
}

/// With pairwise different paths, the survivors hold no record twice, and
/// no path twice.
pub proof fn lemma_survivors_nodup(files: Seq<RecordModel>)
    requires
        distinct_paths(files),
    ensures
        shared_size_files(size_buckets(files).0).no_duplicates(),
        forall|k1: int, k2: int|
            0 <= k1 < k2 < shared_size_files(size_buckets(files).0).len() ==> (
            #[trigger] shared_size_files(size_buckets(files).0)[k1]).path != (
            #[trigger] shared_size_files(size_buckets(files).0)[k2]).path,
{
    let bs = size_buckets(files).0;
    let sv = shared_size_files(bs);
    assert(files.no_duplicates()) by {
        assert forall|a: int, b: int| 0 <= a < b < files.len() implies files[a] != files[b] by {
            assert(files[a].path != files[b].path);
        }
    }
    lemma_size_buckets_files(files, 0);
    assert forall|bi: int| 0 <= bi < bs.len() implies (#[trigger] bs[bi]).1.no_duplicates() && (
    forall|k: int|
        0 <= k < bs[bi].1.len() ==> (#[trigger] bs[bi].1[k]).stat == Ok::<u64, Seq<char>>(
            bs[bi].0,
        )) by {
        lemma_bucket_files_at(bs, bi);
        lemma_size_buckets_files(files, bs[bi].0);
        lemma_filter_nodup(files, has_size(bs[bi].0));
        assert forall|k: int| 0 <= k < bs[bi].1.len() implies (#[trigger] bs[bi].1[k]).stat == Ok::<
            u64,
            Seq<char>,
        >(bs[bi].0) by {
            Seq::<RecordModel>::lemma_filter_pred(files, has_size(bs[bi].0), k);
        }
    }
    lemma_shared_nodup(bs);
    assert forall|k1: int, k2: int| 0 <= k1 < k2 < sv.len() implies (#[trigger] sv[k1]).path != (
    #[trigger] sv[k2]).path by {
        if sv[k1].path == sv[k2].path {
            assert(sv.contains(sv[k1]));
            assert(sv.contains(sv[k2]));
            lemma_shared_sub(files, sv[k1]);
            lemma_shared_sub(files, sv[k2]);
            let f1 = choose|f1: int| 0 <= f1 < files.len() && files[f1] == sv[k1];
            let f2 = choose|f2: int| 0 <= f2 < files.len() && files[f2] == sv[k2];
            assert(f1 == f2);
            assert(sv[k1] == sv[k2]);
        }
    }
}

/// Buckets of distinct byte lengths, each free of duplicates and filled with
/// records of its own length, yield survivors free of duplicates.
pub proof fn lemma_shared_nodup(bs: Seq<(u64, Seq<RecordModel>)>)
    requires
        distinct_sizes(bs),
        forall|bi: int| 0 <= bi < bs.len() ==> (#[trigger] bs[bi]).1.no_duplicates(),
        forall|bi: int, k: int|
            0 <= bi < bs.len() && 0 <= k < bs[bi].1.len() ==> (#[trigger] bs[bi].1[k]).stat
                == Ok::<u64, Seq<char>>(bs[bi].0),
    ensures
        shared_size_files(bs).no_duplicates(),
    decreases bs.len(),
{
    if bs.len() > 0 {
        let dl = bs.drop_last();
        assert(distinct_sizes(dl)) by {
            assert forall|i: int, j: int|
                0 <= i < dl.len() && 0 <= j < dl.len() && i != j implies (#[trigger] dl[i].0) != (
            #[trigger] dl[j].0) by {
                assert(dl[i] == bs[i]);
                assert(dl[j] == bs[j]);
            }
        }
        assert forall|bi: int| 0 <= bi < dl.len() implies (#[trigger] dl[bi]).1.no_duplicates() by {
            assert(dl[bi] == bs[bi]);
        }
        assert forall|bi: int, k: int|
            0 <= bi < dl.len() && 0 <= k < dl[bi].1.len() implies (#[trigger] dl[bi].1[k]).stat
            == Ok::<u64, Seq<char>>(dl[bi].0) by {
            assert(dl[bi] == bs[bi]);
        }
        lemma_shared_nodup(dl);
        let pre = shared_size_files(dl);
        let out = shared_size_files(bs);
        let tailpart = if bs.last().1.len() >= 2 {
            bs.last().1
        } else {
            Seq::<RecordModel>::empty()
        };
        assert(out == pre + tailpart);
        assert forall|a: int, b: int| 0 <= a < b < out.len() implies out[a] != out[b] by {
            if b < pre.len() {
                assert(out[a] == pre[a]);
                assert(out[b] == pre[b]);
            } else if a >= pre.len() {
                assert(out[a] == bs.last().1[a - pre.len()]);
                assert(out[b] == bs.last().1[b - pre.len()]);
                assert(bs[bs.len() - 1] == bs.last());
            } else {
                assert(out[a] == pre[a]);
                assert(out[b] == bs.last().1[b - pre.len()]);
                assert(bs[bs.len() - 1] == bs.last());
                assert(out[b].stat == Ok::<u64, Seq<char>>(bs.last().0));
                assert(pre.contains(pre[a]));
                lemma_shared_elem_witness(dl, pre[a]);
                let (bi, k) = choose|bi: int, k: int|
                    0 <= bi < dl.len() && 0 <= k < dl[bi].1.len() && (#[trigger] dl[bi].1[k])
                        == pre[a] && dl[bi].1.len() >= 2;
                assert(dl[bi] == bs[bi]);
                assert(pre[a].stat == Ok::<u64, Seq<char>>(bs[bi].0));
                assert(bs[bi].0 != bs.last().0);
            }
        }
    }
}


/// What the grouping law assumes of the candidates: sound stats and
/// contents (each byte length is its content's length) and pairwise
/// different paths.
pub open spec fn sound_candidates(files: Seq<RecordModel>) -> bool {
    &&& forall|i: int|
        0 <= i < files.len() ==> (#[trigger] files[i]).stat is Ok && files[i].content is Ok
            && files[i].stat->Ok_0 == files[i].content->Ok_0.len()
    &&& distinct_paths(files)
}

/// Over a fresh accumulator, looking a digest up after the pass yields the
/// paths of the surviving candidates with that digest, in bucket order,
/// when they number two or more, and nothing otherwise: a group's file
/// count is the number of shared-size candidates that carry its digest.
pub proof fn lemma_fresh_lookup(res: ResultsModel, files: Seq<RecordModel>, h: Seq<char>)
    requires
        res.groups == Seq::<GroupModel>::empty(),
        sound_candidates(files),
    ensures
        pass_hashes(res, files).0 == shared_size_files(size_buckets(files).0).map_values(
            digest_pair(),
        ),
        group_files(pass(res, files).groups, h) == (if shared_size_files(
            size_buckets(files).0,
        ).filter(digest_is(h)).len() >= 2 {
            shared_size_files(size_buckets(files).0).filter(digest_is(h)).map_values(rec_path())
        } else {
            Seq::<Seq<char>>::empty()
        }),
        group_has(pass(res, files).groups, h) <==> shared_size_files(
            size_buckets(files).0,
        ).filter(digest_is(h)).len() >= 2,
        distinct_hashes(pass(res, files).groups),
{
    let g0 = res.groups;
    let bs = size_buckets(files).0;
    let sv = shared_size_files(bs);
    let hs = pass_hashes(res, files).0;
    let placed = place_all(g0, hs);
    let svf = sv.filter(digest_is(h));
    assert forall|k: int| 0 <= k < sv.len() implies (#[trigger] sv[k]).content is Ok by {
        assert(sv.contains(sv[k]));
        lemma_shared_sub(files, sv[k]);
        let fi = choose|fi: int| 0 <= fi < files.len() && files[fi] == sv[k];
        assert(files[fi].content is Ok);
    }
    lemma_hash_outcomes_shape(g0, sv);
    assert forall|k: int| 0 <= k < sv.len() implies not_grouped(g0)(#[trigger] sv[k]) by {
        if groups_contain(g0, sv[k].path) {
            let gi = choose|gi: int|
                0 <= gi < g0.len() && (#[trigger] g0[gi]).files.contains(sv[k].path);
        }
    }
    lemma_filter_all_true(sv, not_grouped(g0));
    assert(hs == sv.map_values(digest_pair()));
    lemma_place_all_effect(g0, hs, h);
    assert(group_files(g0, h) == Seq::<Seq<char>>::empty());
    assert(group_files(placed, h) =~= pairs_with_hash(hs, h));
    lemma_pairs_of_map(sv, h);
    assert(pairs_with_hash(hs, h) == svf.map_values(rec_path()));
    lemma_prune_effect(placed, h);
    assert(svf.map_values(rec_path()).len() == svf.len());
    assert(!group_has(g0, h)) by {
        if group_has(g0, h) {
            let gi = choose|gi: int| 0 <= gi < g0.len() && (#[trigger] g0[gi]).hash == h;
        }
    }
}

/// The hashing-step shape of one record's content equality: candidates with
/// equal contents carry equal digests and equal byte lengths.
proof fn lemma_equal_content_shares(files: Seq<RecordModel>, i: int, j: int)
    requires
        sound_candidates(files),
        0 <= i < files.len(),
        0 <= j < files.len(),
        i != j,
        files[i].content == files[j].content,
    ensures
        digest_model(files[i]) == digest_model(files[j]),
        shares_size(files, i),
        shares_size(files, j),
{
    assert(files[i].stat == files[j].stat);
    assert(shares_size(files, i)) by {
        assert(0 <= j < files.len() && j != i && files[j].stat == files[i].stat);
    }
    assert(shares_size(files, j)) by {
        assert(0 <= i < files.len() && i != j && files[i].stat == files[j].stat);
    }
}

/// Grouping correctness over a fresh accumulator: a group holds exactly the
/// paths of the candidates that carry its digest and share their byte
/// length, each path once; two candidates land in one group exactly when
/// their digests agree and each shares its byte length; candidates with
/// identical contents always land in one group; a candidate is grouped
/// exactly when some other candidate carries its digest and both share
/// their byte lengths; and no group of fewer than two files appears.
pub proof fn lemma_grouping_correctness(res: ResultsModel, files: Seq<RecordModel>)
    requires
        res.groups == Seq::<GroupModel>::empty(),
        sound_candidates(files),
    ensures
        forall|gi: int|
            0 <= gi < pass(res, files).groups.len() ==> (#[trigger] pass(
                res,
                files,
            ).groups[gi]).files.len() >= 2,
        forall|gi: int|
            0 <= gi < pass(res, files).groups.len() ==> (#[trigger] pass(
                res,
                files,
            ).groups[gi]).files.no_duplicates(),
        forall|gi: int, i: int|
            0 <= gi < pass(res, files).groups.len() && 0 <= i < files.len() ==> ((#[trigger] pass(
                res,
                files,
            ).groups[gi]).files.contains((#[trigger] files[i]).path) <==> (digest_model(files[i])
                == pass(res, files).groups[gi].hash && shares_size(files, i))),
        forall|i: int, j: int|
            0 <= i < files.len() && 0 <= j < files.len() && i != j ==> (in_same_group(
                pass(res, files).groups,
                (#[trigger] files[i]).path,
                (#[trigger] files[j]).path,
            ) <==> (digest_model(files[i]) == digest_model(files[j]) && shares_size(files, i)
                && shares_size(files, j))),
        forall|i: int, j: int|
            0 <= i < files.len() && 0 <= j < files.len() && i != j && (#[trigger] files[i]).content
                == (#[trigger] files[j]).content ==> in_same_group(
                pass(res, files).groups,
                files[i].path,
                files[j].path,
            ),
        forall|i: int|
            0 <= i < files.len() ==> (groups_contain(
                pass(res, files).groups,
                (#[trigger] files[i]).path,
            ) <==> (shares_size(files, i) && exists|j: int|
                0 <= j < files.len() && j != i && digest_model(#[trigger] files[j]) == digest_model(
                    files[i],
                ) && shares_size(files, j))),
{
    let bs = size_buckets(files).0;
    let sv = shared_size_files(bs);
    let out = pass(res, files).groups;
    let placed = place_all(res.groups, pass_hashes(res, files).0);
    lemma_prune_groups_big(placed);
    lemma_survivors_nodup(files);
    lemma_fresh_lookup(res, files, Seq::<char>::empty());
    assert(distinct_hashes(out));

    // membership: a group holds a candidate's path exactly when the
    // candidate carries the group's digest and shares its byte length
    assert forall|gi: int, i: int|
        0 <= gi < out.len() && 0 <= i < files.len() implies ((#[trigger] out[gi]).files.contains(
        (#[trigger] files[i]).path,
    ) <==> (digest_model(files[i]) == out[gi].hash && shares_size(files, i))) by {
        let h = out[gi].hash;
        let svf = sv.filter(digest_is(h));
        lemma_fresh_lookup(res, files, h);
        lemma_group_files_at(out, gi);
        assert(group_has(out, h)) by {
            assert(out[gi].hash == h);
        }
        assert(out[gi].files == svf.map_values(rec_path()));
        lemma_survivor_iff(files, i);
        lemma_filter_map_membership(sv, digest_is(h), rec_path(), files[i].path);
        if out[gi].files.contains(files[i].path) {
            let k = choose|k: int|
                0 <= k < sv.len() && digest_is(h)(#[trigger] sv[k]) && rec_path()(sv[k])
                    == files[i].path;
            assert(sv.contains(sv[k]));
            lemma_shared_sub(files, sv[k]);
            let fi = choose|fi: int| 0 <= fi < files.len() && files[fi] == sv[k];
            assert(fi == i);
            assert(sv[k] == files[i]);
            assert(sv.contains(files[i]));
        }
        if digest_model(files[i]) == h && shares_size(files, i) {
            assert(sv.contains(files[i]));
            let k = choose|k: int| 0 <= k < sv.len() && sv[k] == files[i];
            assert(digest_is(h)(sv[k]) && rec_path()(sv[k]) == files[i].path);
        }
    }

    // no group holds a path twice
    assert forall|gi: int|
        0 <= gi < out.len() implies (#[trigger] out[gi]).files.no_duplicates() by {
        let h = out[gi].hash;
        let svf = sv.filter(digest_is(h));
        lemma_fresh_lookup(res, files, h);
        lemma_group_files_at(out, gi);
        assert(group_has(out, h)) by {
            assert(out[gi].hash == h);
        }
        assert(out[gi].files == svf.map_values(rec_path()));
        lemma_filter_nodup(sv, digest_is(h));
        assert forall|a: int, b: int|
            0 <= a < b < out[gi].files.len() implies out[gi].files[a] != out[gi].files[b] by {
            if out[gi].files[a] == out[gi].files[b] {
                assert(svf[a].path == svf[b].path);
                assert(svf.contains(svf[a]));
                assert(svf.contains(svf[b]));
                lemma_filter_subset(sv, digest_is(h), svf[a]);
                lemma_filter_subset(sv, digest_is(h), svf[b]);
                lemma_shared_sub(files, svf[a]);
                lemma_shared_sub(files, svf[b]);
                let f1 = choose|f1: int| 0 <= f1 < files.len() && files[f1] == svf[a];
                let f2 = choose|f2: int| 0 <= f2 < files.len() && files[f2] == svf[b];
                assert(f1 == f2);
                assert(svf[a] == svf[b]);
            }
        }
    }

    // two candidates land in one group exactly when their digests agree and
    // each shares its byte length
    assert forall|i: int, j: int|
        0 <= i < files.len() && 0 <= j < files.len() && i != j implies (in_same_group(
        out,
        (#[trigger] files[i]).path,
        (#[trigger] files[j]).path,
    ) <==> (digest_model(files[i]) == digest_model(files[j]) && shares_size(files, i)
        && shares_size(files, j))) by {
        if in_same_group(out, files[i].path, files[j].path) {
            let gi = choose|gi: int|
                0 <= gi < out.len() && (#[trigger] out[gi]).files.contains(files[i].path)
                    && out[gi].files.contains(files[j].path);
            assert(digest_model(files[i]) == out[gi].hash && shares_size(files, i));
            assert(digest_model(files[j]) == out[gi].hash && shares_size(files, j));
        }
        if digest_model(files[i]) == digest_model(files[j]) && shares_size(files, i)
            && shares_size(files, j) {
            let h = digest_model(files[i]);
            lemma_survivor_iff(files, i);
            lemma_survivor_iff(files, j);
            let ki = choose|ki: int| 0 <= ki < sv.len() && sv[ki] == files[i];
            let kj = choose|kj: int| 0 <= kj < sv.len() && sv[kj] == files[j];
            assert(files[i] != files[j]) by {
                assert(files[i].path != files[j].path);
            }
            assert(ki != kj);
            assert(digest_is(h)(sv[ki]));
            assert(digest_is(h)(sv[kj]));
            if ki < kj {
                lemma_filter_two_targets(sv, digest_is(h), ki, kj);
            } else {
                lemma_filter_two_targets(sv, digest_is(h), kj, ki);
            }
            lemma_fresh_lookup(res, files, h);
            assert(group_has(out, h));
            let gi = choose|gi: int| 0 <= gi < out.len() && (#[trigger] out[gi]).hash == h;
            assert(out[gi].files.contains(files[i].path));
            assert(out[gi].files.contains(files[j].path));
        }
    }

    // identical contents always land in one group
    assert forall|i: int, j: int|
        0 <= i < files.len() && 0 <= j < files.len() && i != j && (#[trigger] files[i]).content
            == (#[trigger] files[j]).content implies in_same_group(
        out,
        files[i].path,
        files[j].path,
    ) by {
        lemma_equal_content_shares(files, i, j);
    }

    // a candidate is grouped exactly when another candidate carries its
    // digest and both share their byte lengths
    assert forall|i: int|
        0 <= i < files.len() implies (groups_contain(out, (#[trigger] files[i]).path) <==> (
    shares_size(files, i) && exists|j: int|
        0 <= j < files.len() && j != i && digest_model(#[trigger] files[j]) == digest_model(
            files[i],
        ) && shares_size(files, j))) by {
        if groups_contain(out, files[i].path) {
            let gi = choose|gi: int|
                0 <= gi < out.len() && (#[trigger] out[gi]).files.contains(files[i].path);
            let h = out[gi].hash;
            assert(digest_model(files[i]) == h && shares_size(files, i));
            let svf = sv.filter(digest_is(h));
            lemma_fresh_lookup(res, files, h);
            assert(group_has(out, h)) by {
                assert(out[gi].hash == h);
            }
            assert(svf.len() >= 2);
            lemma_filter_two_sources(sv, digest_is(h));
            let (k1, k2) = choose|k1: int, k2: int|
                0 <= k1 < k2 < sv.len() && digest_is(h)(#[trigger] sv[k1]) && digest_is(h)(
                    #[trigger] sv[k2],
                );
            assert(sv.contains(sv[k1]));
            assert(sv.contains(sv[k2]));
            lemma_shared_sub(files, sv[k1]);
            lemma_shared_sub(files, sv[k2]);
            let f1 = choose|f1: int| 0 <= f1 < files.len() && files[f1] == sv[k1];
            let f2 = choose|f2: int| 0 <= f2 < files.len() && files[f2] == sv[k2];
            lemma_survivors_nodup(files);
            assert(sv[k1] != sv[k2]);
            assert(f1 != f2);
            let fj: int = if f1 != i {
                f1
            } else {
                f2
            };
            assert(fj != i);
            lemma_survivor_iff(files, fj);
            assert(sv.contains(files[fj]));
            assert(digest_model(files[fj]) == digest_model(files[i]) && shares_size(files, fj));
        }
        if shares_size(files, i) && exists|j: int|
            0 <= j < files.len() && j != i && digest_model(#[trigger] files[j]) == digest_model(
                files[i],
            ) && shares_size(files, j) {
            let j = choose|j: int|
                0 <= j < files.len() && j != i && digest_model(#[trigger] files[j]) == digest_model(
                    files[i],
                ) && shares_size(files, j);
            assert(in_same_group(out, files[i].path, files[j].path));
            let gi = choose|gi: int|
                0 <= gi < out.len() && (#[trigger] out[gi]).files.contains(files[i].path)
                    && out[gi].files.contains(files[j].path);
        }
    }
}


// ------------------------------------------------------------------
// The re-check law: a second identical pass changes nothing.
// ------------------------------------------------------------------

/// With sound stats, bucketing meets no error.
proof fn lemma_size_buckets_no_errors(files: Seq<RecordModel>)
    requires
        forall|i: int| 0 <= i < files.len() ==> (#[trigger] files[i]).stat is Ok,
    ensures
        size_buckets(files).1 == Seq::<ErrorModel>::empty(),
    decreases files.len(),
{
    if files.len() > 0 {
        let dl = files.drop_last();
        assert forall|i: int| 0 <= i < dl.len() implies (#[trigger] dl[i]).stat is Ok by {
            assert(dl[i] == files[i]);
        }
        lemma_size_buckets_no_errors(dl);
        assert(files[files.len() - 1].stat is Ok);
    }
}

/// Filtering with a stronger predicate filters the weaker filter's result.
proof fn lemma_filter_nested<A>(s: Seq<A>, p1: spec_fn(A) -> bool, p2: spec_fn(A) -> bool)
    requires
        forall|x: A| #[trigger] p2(x) ==> p1(x),
    ensures
        s.filter(p2) == s.filter(p1).filter(p2),
    decreases s.len(),
{
    reveal(Seq::filter);
    if s.len() == 0 {
        assert(s.filter(p2) =~= s.filter(p1).filter(p2));
    } else {
        lemma_filter_nested(s.drop_last(), p1, p2);
        let dl = s.drop_last();
        if p1(s.last()) {
            assert(s.filter(p1) == dl.filter(p1).push(s.last()));
            assert(s.filter(p1).drop_last() =~= dl.filter(p1));
            assert(s.filter(p1).last() == s.last());
        }
        assert(s.filter(p2) =~= s.filter(p1).filter(p2));
    }
}

/// A doubly filtered sequence is no longer than the inner filter alone.
proof fn lemma_filter_filter_len<A>(s: Seq<A>, p1: spec_fn(A) -> bool, p2: spec_fn(A) -> bool)
    ensures
        s.filter(p1).filter(p2).len() <= s.filter(p2).len(),
    decreases s.len(),
{
    reveal(Seq::filter);
    if s.len() > 0 {
        lemma_filter_filter_len(s.drop_last(), p1, p2);
        let dl = s.drop_last();
        if p1(s.last()) {
            assert(s.filter(p1) == dl.filter(p1).push(s.last()));
            assert(s.filter(p1).drop_last() =~= dl.filter(p1));
            assert(s.filter(p1).last() == s.last());
        }
    }
}

/// A path held by a well-formed accumulator's groups is still held after a
/// pass.
pub proof fn lemma_pass_member_mono(res: ResultsModel, files: Seq<RecordModel>, p: Seq<char>)
    requires
        results_wf(res),
        groups_contain(res.groups, p),
    ensures
        groups_contain(pass(res, files).groups, p),
{
    let g0 = res.groups;
    let hs = pass_hashes(res, files).0;
    let placed = place_all(g0, hs);
    let out = pass(res, files).groups;
    assert(distinct_hashes(g0));
    let gi = choose|gi: int| 0 <= gi < g0.len() && (#[trigger] g0[gi]).files.contains(p);
    let h = g0[gi].hash;
    lemma_group_files_at(g0, gi);
    assert(group_files(g0, h).contains(p));
    assert(group_files(g0, h).len() >= 2);
    lemma_place_all_effect(g0, hs, h);
    assert(group_files(placed, h).contains(p)) by {
        let k = choose|k: int| 0 <= k < group_files(g0, h).len() && group_files(g0, h)[k] == p;
        assert((group_files(g0, h) + pairs_with_hash(hs, h))[k] == p);
    }
    assert(group_files(placed, h).len() >= 2);
    lemma_prune_effect(placed, h);
    assert(group_files(out, h).contains(p));
    lemma_group_files_witness(out, h);
    let go = choose|go: int|
        0 <= go < out.len() && (#[trigger] out[go]).hash == h && out[go].files == group_files(
            out,
            h,
        );
    assert(groups_contain(out, p));
}

/// The fresh groups opened for a sequence of hashed entries, one per entry.
pub open spec fn new_groups(hs: Seq<(Seq<char>, Seq<char>)>) -> Seq<GroupModel> {
    hs.map_values(|e: (Seq<char>, Seq<char>)| GroupModel { hash: e.0, files: seq![e.1] })
}

/// Placing entries whose digests are fresh and pairwise different appends
/// one fresh singleton group per entry.
proof fn lemma_place_fresh(groups: Seq<GroupModel>, hs: Seq<(Seq<char>, Seq<char>)>)
    requires
        forall|k: int| 0 <= k < hs.len() ==> !group_has(groups, (#[trigger] hs[k]).0),
        forall|k1: int, k2: int|
            0 <= k1 < hs.len() && 0 <= k2 < hs.len() && k1 != k2 ==> (#[trigger] hs[k1]).0 != (
            #[trigger] hs[k2]).0,
    ensures
        place_all(groups, hs) == groups + new_groups(hs),
    decreases hs.len(),
{
    if hs.len() == 0 {
        assert(place_all(groups, hs) =~= groups + new_groups(hs));
    } else {
        let dl = hs.drop_last();
        assert forall|k: int| 0 <= k < dl.len() implies !group_has(groups, (#[trigger] dl[k]).0) by {
            assert(dl[k] == hs[k]);
        }
        assert forall|k1: int, k2: int|
            0 <= k1 < dl.len() && 0 <= k2 < dl.len() && k1 != k2 implies (#[trigger] dl[k1]).0 != (
        #[trigger] dl[k2]).0 by {
            assert(dl[k1] == hs[k1]);
            assert(dl[k2] == hs[k2]);
        }
        lemma_place_fresh(groups, dl);
        let mid = groups + new_groups(dl);
        let last = hs.last();
        assert forall|k: int| 0 <= k < mid.len() implies (#[trigger] mid[k]).hash != last.0 by {
            if k < groups.len() {
                assert(mid[k] == groups[k]);
                if mid[k].hash == last.0 {
                    assert(group_has(groups, hs[hs.len() - 1].0));
                }
            } else {
                assert(mid[k] == new_groups(dl)[k - groups.len()]);
                assert(mid[k].hash == dl[k - groups.len()].0);
                assert(hs[k - groups.len()] == dl[k - groups.len()]);
            }
        }
        crate::model::lemma_group_add_missing(mid, last.0, last.1);
        assert(place_all(groups, hs) == mid.push(
            GroupModel { hash: last.0, files: seq![last.1] },
        ));
        assert(mid.push(GroupModel { hash: last.0, files: seq![last.1] }) =~= groups + new_groups(
            hs,
        ));
    }
}

/// Pruning groups that all hold two or more files changes nothing.
proof fn lemma_prune_id(groups: Seq<GroupModel>)
    requires
        forall|gi: int| 0 <= gi < groups.len() ==> (#[trigger] groups[gi]).files.len() >= 2,
    ensures
        prune(groups) == groups,
    decreases groups.len(),
{
    if groups.len() == 0 {
        assert(prune(groups) =~= groups);
    } else {
        let dl = groups.drop_last();
        assert forall|gi: int| 0 <= gi < dl.len() implies (#[trigger] dl[gi]).files.len() >= 2 by {
            assert(dl[gi] == groups[gi]);
        }
        lemma_prune_id(dl);
        assert(groups[groups.len() - 1].files.len() >= 2);
        assert(prune(groups) =~= groups);
    }
}

/// Pruning groups that all hold fewer than two files leaves nothing.
proof fn lemma_prune_none(groups: Seq<GroupModel>)
    requires
        forall|gi: int| 0 <= gi < groups.len() ==> (#[trigger] groups[gi]).files.len() < 2,
    ensures
        prune(groups) == Seq::<GroupModel>::empty(),
    decreases groups.len(),
{
    if groups.len() == 0 {
        assert(prune(groups) =~= Seq::<GroupModel>::empty());
    } else {
        let dl = groups.drop_last();
        assert forall|gi: int| 0 <= gi < dl.len() implies (#[trigger] dl[gi]).files.len() < 2 by {
            assert(dl[gi] == groups[gi]);
        }
        lemma_prune_none(dl);
        assert(groups[groups.len() - 1].files.len() < 2);
        assert(prune(groups) =~= Seq::<GroupModel>::empty());
    }
}

/// Re-checking changes nothing: a second pass over the same candidates, on
/// a well-formed accumulator, with one record per path and sound stats and
/// contents, adds no group and no error.
pub proof fn lemma_recheck_idempotent(res: ResultsModel, files: Seq<RecordModel>)
    requires
        results_wf(res),
        consistent_records(files),
        forall|i: int|
            0 <= i < files.len() ==> (#[trigger] files[i]).stat is Ok && files[i].content is Ok,
    ensures
        pass(pass(res, files), files) == pass(res, files),
{
    let g0 = res.groups;
    let bs = size_buckets(files).0;
    let sv = shared_size_files(bs);
    let res1 = pass(res, files);
    let g1 = res1.groups;
    let h1 = pass_hashes(res, files).0;
    let placed1 = place_all(g0, h1);
    assert(distinct_hashes(g0));
    lemma_size_buckets_sub(files);
    assert forall|k: int| 0 <= k < sv.len() implies (#[trigger] sv[k]).content is Ok by {
        assert(sv.contains(sv[k]));
        lemma_shared_sub(files, sv[k]);
        let fi = choose|fi: int| 0 <= fi < files.len() && files[fi] == sv[k];
        assert(files[fi].content is Ok);
    }
    lemma_size_buckets_no_errors(files);
    lemma_hash_outcomes_shape(g0, sv);
    let nm0 = not_grouped(g0);
    let nm1 = not_grouped(g1);
    let f1 = sv.filter(nm0);
    assert(h1 == f1.map_values(digest_pair()));
    assert(res1.errors =~= res.errors) by {
        assert(res.errors + size_buckets(files).1 + pass_hashes(res, files).1 =~= res.errors);
    }
    lemma_place_all_effect(g0, h1, Seq::<char>::empty());
    lemma_prune_effect(placed1, Seq::<char>::empty());
    assert(distinct_hashes(g1));
    lemma_prune_groups_big(placed1);
    assert(results_wf(res1)) by {
        lemma_at_most_once_membership(res, files);
    }

    // the second pass hashes exactly the survivors that the first pass
    // left ungrouped even after placement
    lemma_hash_outcomes_shape(g1, sv);
    let h2 = pass_hashes(res1, files).0;
    let f2 = sv.filter(nm1);
    assert(h2 == f2.map_values(digest_pair()));
    assert forall|x: RecordModel| #[trigger] nm1(x) implies nm0(x) by {
        if groups_contain(g0, x.path) {
            lemma_pass_member_mono(res, files, x.path);
        }
    }
    lemma_filter_nested(sv, nm0, nm1);
    assert(f2 == f1.filter(nm1));

    // every record of the second hashing step carries a digest that no
    // first-pass group holds, and that no other such record carries
    assert forall|a: int|
        0 <= a < f2.len() implies !group_has(g1, digest_model(#[trigger] f2[a])) && f1.filter(
        digest_is(digest_model(f2[a])),
    ).len() == 1 by {
        let r = f2[a];
        let h = digest_model(r);
        assert(f2.contains(r));
        lemma_filter_subset(f1, nm1, r);
        assert(f1.contains(r));
        assert(nm1(r));
        lemma_place_all_effect(g0, h1, h);
        lemma_pairs_of_map(f1, h);
        let fd = f1.filter(digest_is(h));
        assert(pairs_with_hash(h1, h) == fd.map_values(rec_path()));
        lemma_filter_map_membership(f1, digest_is(h), rec_path(), r.path);
        assert(pairs_with_hash(h1, h).contains(r.path)) by {
            let k = choose|k: int| 0 <= k < f1.len() && f1[k] == r;
            assert(digest_is(h)(f1[k]) && rec_path()(f1[k]) == r.path);
        }
        assert(fd.len() >= 1);
        lemma_prune_effect(placed1, h);
        if group_files(placed1, h).len() >= 2 {
            assert(group_files(g1, h) == group_files(placed1, h));
            assert(group_files(g1, h).contains(r.path)) by {
                let k = choose|k: int|
                    0 <= k < pairs_with_hash(h1, h).len() && pairs_with_hash(h1, h)[k] == r.path;
                assert((group_files(g0, h) + pairs_with_hash(h1, h))[group_files(g0, h).len() + k]
                    == r.path);
            }
            lemma_group_files_witness(g1, h);
            let go = choose|go: int|
                0 <= go < g1.len() && (#[trigger] g1[go]).hash == h && g1[go].files == group_files(
                    g1,
                    h,
                );
            assert(groups_contain(g1, r.path));
            assert(false);
        }
        assert(group_files(g0, h).len() + fd.len() < 2);
        assert(fd.len() == 1);
        assert(!group_has(g1, h));
    }

    // hence the second placement opens only fresh singleton groups
    assert forall|k: int| 0 <= k < h2.len() implies !group_has(g1, (#[trigger] h2[k]).0) by {
        assert(h2[k] == digest_pair()(f2[k]));
    }
    assert forall|k1: int, k2: int|
        0 <= k1 < h2.len() && 0 <= k2 < h2.len() && k1 != k2 implies (#[trigger] h2[k1]).0 != (
    #[trigger] h2[k2]).0 by {
        if h2[k1].0 == h2[k2].0 {
            let h = digest_model(f2[k1]);
            assert(digest_model(f2[k2]) == h);
            assert(digest_is(h)(f2[k1]));
            assert(digest_is(h)(f2[k2]));
            if k1 < k2 {
                lemma_filter_two_targets(f2, digest_is(h), k1, k2);
            } else {
                lemma_filter_two_targets(f2, digest_is(h), k2, k1);
            }
            lemma_filter_filter_len(f1, nm1, digest_is(h));
            assert(f1.filter(digest_is(h)).len() >= 2);
            assert(f1.filter(digest_is(h)).len() == 1);
        }
    }
    lemma_place_fresh(g1, h2);
    let news = new_groups(h2);
    lemma_prune_concat(g1, news);
    lemma_prune_id(g1);
    assert forall|gi: int| 0 <= gi < news.len() implies (#[trigger] news[gi]).files.len() < 2 by {
        assert(news[gi].files == seq![h2[gi].1]);
    }
    lemma_prune_none(news);
    assert(pass(res1, files).groups =~= g1);
    lemma_size_buckets_no_errors(files);
    assert(pass(res1, files).errors =~= res1.errors) by {
        assert(res1.errors + size_buckets(files).1 + pass_hashes(res1, files).1 =~= res1.errors);
    }
    assert(pass(pass(res, files), files) == pass(res, files));
}

} // verus!
