//! The directory walker.
//!
//! Walking a directory tree yields every regular file under it whose byte
//! length passes the optional size filter, in listing order, together with
//! one error for every listing, entry or stat that failed. A failure never
//! stops the walk: the failing branch is abandoned and its siblings are
//! still visited. Entries that are neither regular files nor directories
//! are skipped: neither yielded nor recursed into.

use vstd::prelude::*;

use crate::duperror::DupError;
use crate::duperror::ErrorModel;
use crate::duperror::errors_model;
use crate::duperror::lemma_errors_model_push;
use crate::fs::DirModel;
use crate::fs::DirTree;
use crate::fs::Entry;
use crate::fs::EntryModel;
use crate::fs::FileRecord;
use crate::fs::RecordModel;
use crate::fs::entries_model;
use crate::fs::lemma_entries_model;
use crate::fs::lemma_records_model_push;
use crate::fs::records_model;
use crate::model::size_admitted;

verus! {

broadcast use vstd::std_specs::vec::group_vec_axioms;

/// The mathematical value of an optional size filter.
pub open spec fn sizes_model(sizes: Option<&Vec<u64>>) -> Option<Seq<u64>> {
    match sizes {
        None => None,
        Some(v) => Some(v@),
    }
}

/// The files yielded and the errors met when walking one directory.
pub open spec fn walk_dir(d: DirModel, sizes: Option<Seq<u64>>) -> (Seq<RecordModel>, Seq<
    ErrorModel,
>)
    decreases d,
{
    match d.listing {
        Ok(es) => walk_entries(d.path, es, sizes),
        Err(m) => (Seq::empty(), seq![ErrorModel { path: d.path, io_error: m }]),
    }
}

/// The files yielded and the errors met when visiting one directory entry.
/// `dir_path` is the path of the directory being listed; it is charged with
/// the error when an entry cannot be read at all.
pub open spec fn walk_entry(dir_path: Seq<char>, e: EntryModel, sizes: Option<Seq<u64>>) -> (Seq<
    RecordModel,
>, Seq<ErrorModel>)
    decreases e,
{
    match e {
        EntryModel::File(r) => match r.stat {
            Ok(size) => if size_admitted(sizes, size) {
                (seq![r], Seq::empty())
            } else {
                (Seq::empty(), Seq::empty())
            },
            Err(m) => (Seq::empty(), seq![ErrorModel { path: r.path, io_error: m }]),
        },
        EntryModel::Subdir(d) => walk_dir(d, sizes),
        EntryModel::Other(_) => (Seq::empty(), Seq::empty()),
        EntryModel::Unreadable(m) => (Seq::empty(), seq![
            ErrorModel { path: dir_path, io_error: m },
        ]),
    }
}

/// The files yielded and the errors met when visiting a sequence of
/// directory entries, in order.
pub open spec fn walk_entries(
    dir_path: Seq<char>,
    es: Seq<EntryModel>,
    sizes: Option<Seq<u64>>,
) -> (Seq<RecordModel>, Seq<ErrorModel>)
    decreases es,
{
    if es.len() == 0 {
        (Seq::empty(), Seq::empty())
    } else {
        let (fr, er) = walk_entries(dir_path, es.drop_last(), sizes);
        let (f0, e0) = walk_entry(dir_path, es.last(), sizes);
        (fr + f0, er + e0)
    }
}

/// The files yielded and the errors met when walking a sequence of
/// directories, in order.
pub open spec fn walk_dirs(ds: Seq<DirModel>, sizes: Option<Seq<u64>>) -> (Seq<RecordModel>, Seq<
    ErrorModel,
>)
    decreases ds,
{
    if ds.len() == 0 {
        (Seq::empty(), Seq::empty())
    } else {
        let (fr, er) = walk_dirs(ds.drop_last(), sizes);
        let (f0, e0) = walk_dir(ds.last(), sizes);
        (fr + f0, er + e0)
    }
}

/// The files found and the errors met when each named file's parent
/// directory is walked, filtered to that file's own byte length. A file
/// whose stat failed contributes one error and no walk. Every candidate's
/// path must be a regular file and carry its parent directory.
pub open spec fn parent_scan(cs: Seq<crate::fs::CandidateModel>) -> (Seq<RecordModel>, Seq<
    ErrorModel,
>)
    decreases cs.len(),
{
    if cs.len() == 0 {
        (Seq::empty(), Seq::empty())
    } else {
        let (fs, es) = parent_scan(cs.drop_last());
        let c = cs.last();
        let rec = c.path->File_0;
        match rec.stat {
            Ok(n) => {
                let (pf, pe) = walk_dir(c.parent->Some_0, Some(seq![n]));
                (fs + pf, es + pe)
            },
            Err(m) => (fs, es.push(ErrorModel { path: rec.path, io_error: m })),
        }
    }
}

/// Returns whether the vector holds the size.
fn contains_u64(v: &Vec<u64>, s: u64) -> (r: bool)
    ensures
        r == v@.contains(s),
{
    let mut i: usize = 0;
    while i < v.len()
        invariant
            0 <= i <= v.len(),
            forall|j: int| 0 <= j < i ==> v@[j] != s,
        decreases v.len() - i,
    {
        if v[i] == s {
            return true;
        }
        i = i + 1;
    }
    false
}

/// Returns whether a byte length passes the optional size filter.
fn size_passes(sizes: Option<&Vec<u64>>, s: u64) -> (r: bool)
    ensures
        r == size_admitted(sizes_model(sizes), s),
{
    match sizes {
        None => true,
        Some(v) => contains_u64(v, s),
    }
}

/// Walks one directory tree, appending the files it yields and the errors it
/// meets.
pub(crate) fn walk_tree(
    d: &DirTree,
    sizes: Option<&Vec<u64>>,
    files: &mut Vec<FileRecord>,
    errors: &mut Vec<DupError>,
)
    ensures
        records_model(final(files)@) == records_model(old(files)@) + walk_dir(
            d@,
            sizes_model(sizes),
        ).0,
        errors_model(final(errors)@) == errors_model(old(errors)@) + walk_dir(
            d@,
            sizes_model(sizes),
        ).1,
    decreases *d,
{
    let ghost szm = sizes_model(sizes);
    match &d.listing {
        Err(m) => {
            let ghost e0 = errors@;
            errors.push(DupError::new(d.path.clone(), m.clone()));
            proof {
                lemma_errors_model_push(e0, errors@.last());
                assert(errors_model(errors@) =~= errors_model(old(errors)@) + walk_dir(
                    d@,
                    szm,
                ).1);
                assert(records_model(files@) =~= records_model(old(files)@) + walk_dir(
                    d@,
                    szm,
                ).0);
            }
        },
        Ok(entries) => {
            let ghost em = entries_model(entries@);
            proof {
                lemma_entries_model(entries@);
                assert(d@.listing == Ok::<Seq<EntryModel>, Seq<char>>(em));
            }
            let mut i: usize = 0;
            while i < entries.len()
                invariant
                    0 <= i <= entries.len(),
                    em == entries_model(entries@),
                    em.len() == entries@.len(),
                    forall|j: int| 0 <= j < entries@.len() ==> em[j] == entries@[j]@,
                    d.listing == Ok::<Vec<Entry>, String>(*entries),
                    szm == sizes_model(sizes),
                    records_model(files@) == records_model(old(files)@) + walk_entries(
                        d@.path,
                        em.take(i as int),
                        szm,
                    ).0,
                    errors_model(errors@) == errors_model(old(errors)@) + walk_entries(
                        d@.path,
                        em.take(i as int),
                        szm,
                    ).1,
                decreases entries.len() - i,
            {
                let ghost fs_pre = records_model(files@);
                let ghost es_pre = errors_model(errors@);
                match &entries[i] {
                    Entry::File(rec) => {
                        match &rec.stat {
                            Ok(size) => {
                                if size_passes(sizes, *size) {
                                    let ghost f0 = files@;
                                    files.push(rec.clone());
                                    proof {
                                        lemma_records_model_push(f0, files@.last());
                                    }
                                }
                            },
                            Err(m) => {
                                let ghost e0 = errors@;
                                errors.push(DupError::new(rec.path.clone(), m.clone()));
                                proof {
                                    lemma_errors_model_push(e0, errors@.last());
                                }
                            },
                        }
                    },
                    Entry::Subdir(sub) => {
                        proof {
                            assert(entries@[i as int] == Entry::Subdir(*sub));
                            assert(decreases_to!(*entries => entries@[i as int]));
                        }
                        walk_tree(sub, sizes, files, errors);
                    },
                    Entry::Other(_) => {},
                    Entry::Unreadable(m) => {
                        let ghost e0 = errors@;
                        errors.push(DupError::new(d.path.clone(), m.clone()));
                        proof {
                            lemma_errors_model_push(e0, errors@.last());
                        }
                    },
                }
                proof {
                    assert(em.take(i + 1).drop_last() =~= em.take(i as int));
                    assert(em.take(i + 1).last() == em[i as int]);
                    assert(em[i as int] == entries@[i as int]@);
                    let stepped = walk_entries(d@.path, em.take(i + 1), szm);
                    let prev = walk_entries(d@.path, em.take(i as int), szm);
                    let one = walk_entry(d@.path, em[i as int], szm);
                    assert(stepped.0 =~= prev.0 + one.0);
                    assert(stepped.1 =~= prev.1 + one.1);
                    assert(records_model(files@) =~= records_model(old(files)@) + stepped.0);
                    assert(errors_model(errors@) =~= errors_model(old(errors)@) + stepped.1);
                }
                i = i + 1;
            }
            proof {
                assert(em.take(entries@.len() as int) =~= em);
            }
        },
    }
}

} // verus!
