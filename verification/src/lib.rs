//! Duplicate file checker.
//!
//! The engine works on an explicit snapshot of the relevant part of the file
//! system: the caller resolves each path it names into a [`FileRecord`] or a
//! [`DirTree`] and hands those to the library, which finds groups of
//! byte-for-byte identical files. Candidates are bucketed by byte length
//! first, and only files whose length is shared are hashed; files are
//! duplicates exactly when their contents carry the same digest.

pub mod duperror;
pub mod fs;
pub mod hash;
pub mod laws;
pub mod model;
pub mod walk;

pub use crate::duperror::DupError;
pub use crate::duperror::ErrorModel;
pub use crate::duperror::errors_model;
pub use crate::fs::CandidateFile;
pub use crate::fs::DirTree;
pub use crate::fs::Entry;
pub use crate::fs::FileRecord;
pub use crate::fs::ResolvedPath;

use vstd::prelude::*;

use crate::duperror::InputErrorModel;
use crate::duperror::input_result_model;
use crate::duperror::lemma_errors_model_push;
use crate::fs::CandidateModel;
use crate::fs::RecordModel;
use crate::fs::ResolvedModel;
use crate::fs::candidate_paths;
use crate::fs::candidates_model;
use crate::fs::first_non_dir;
use crate::fs::first_non_file;
use crate::fs::lemma_all_dirs;
use crate::fs::lemma_all_files;
use crate::fs::lemma_first_non_dir_at;
use crate::fs::lemma_first_non_dir_none;
use crate::fs::lemma_first_non_file_at;
use crate::fs::lemma_first_non_file_none;
use crate::fs::lemma_records_model_push;
use crate::fs::records_model;
use crate::fs::resolved_dirs;
use crate::fs::resolved_model;
use crate::fs::resolved_path_of;
use crate::fs::resolved_records;
use crate::hash::blake3_hex;
use crate::model::GroupModel;
use crate::model::ResultsModel;
use crate::model::add_missing;
use crate::model::bucket_add;
use crate::model::contains_path;
use crate::model::group_add;
use crate::model::hash_outcomes;
use crate::model::lemma_bucket_add_found;
use crate::model::lemma_bucket_add_missing;
use crate::model::lemma_group_add_found;
use crate::model::lemma_group_add_missing;
use crate::model::of_sizes;
use crate::model::pass;
use crate::model::place_all;
use crate::model::prune;
use crate::model::shared_size_files;
use crate::model::size_buckets;
use crate::model::total_file_count;
use crate::walk::parent_scan;
use crate::walk::sizes_model;
use crate::walk::walk_dir;
use crate::walk::walk_dirs;
use crate::walk::walk_tree;

pub use crate::duperror::InputError;

verus! {

/// The mathematical value of optional resolved-path inputs.
pub open spec fn opt_resolved_model(ps: Option<&Vec<ResolvedPath>>) -> Option<Seq<ResolvedModel>> {
    match ps {
        Some(v) => Some(resolved_model(v@)),
        None => None,
    }
}

/// The outcome of validating the entry points' inputs: the first file input
/// that is not a regular file, else the first directory input that is not a
/// directory, is the offender; with no offender the inputs are valid.
pub open spec fn valid_paths_check(
    files: Option<Seq<ResolvedModel>>,
    dirs: Option<Seq<ResolvedModel>>,
) -> Result<(), InputErrorModel> {
    let fi = match files {
        Some(ps) => first_non_file(ps),
        None => -1,
    };
    if fi >= 0 {
        Err(InputErrorModel::NotAFile(resolved_path_of(files->Some_0[fi])))
    } else {
        let di = match dirs {
            Some(ps) => first_non_dir(ps),
            None => -1,
        };
        if di >= 0 {
            Err(InputErrorModel::NotADirectory(resolved_path_of(dirs->Some_0[di])))
        } else {
            Ok(())
        }
    }
}

/// The accumulator after checking the named files against the given scope
/// directories: the directories are walked filtered to the named files'
/// byte lengths, the named files join the candidate list unless the walk
/// already found them, and one grouping pass runs over the result.
pub open spec fn of_scoped(
    res: ResultsModel,
    cs: Seq<CandidateModel>,
    ds: Seq<ResolvedModel>,
) -> ResultsModel {
    let rs = resolved_records(candidate_paths(cs));
    let sized = of_sizes(rs);
    let walked = walk_dirs(resolved_dirs(ds), Some(sized.0));
    pass(
        ResultsModel { groups: res.groups, errors: res.errors + sized.1 + walked.1 },
        add_missing(walked.0, rs),
    )
}

/// The accumulator after checking the named files against their own parent
/// directories: each parent is walked filtered to its file's byte length,
/// and one grouping pass runs over everything found.
pub open spec fn of_parents(res: ResultsModel, cs: Seq<CandidateModel>) -> ResultsModel {
    let scanned = parent_scan(cs);
    pass(ResultsModel { groups: res.groups, errors: res.errors + scanned.1 }, scanned.0)
}

/// The mathematical value of a sequence of size buckets.
spec fn buckets_model(bs: Seq<(u64, Vec<FileRecord>)>) -> Seq<(u64, Seq<RecordModel>)> {
    bs.map_values(|b: (u64, Vec<FileRecord>)| (b.0, records_model(b.1@)))
}

/// The mathematical value of a sequence of digest-path pairs.
spec fn hashes_model(hs: Seq<(String, String)>) -> Seq<(Seq<char>, Seq<char>)> {
    hs.map_values(|h: (String, String)| (h.0@, h.1@))
}

/// The mathematical value of a sequence of groups.
pub open spec fn groups_model(gs: Seq<DupGroup>) -> Seq<GroupModel> {
    gs.map_values(|g: DupGroup| g@)
}

/// The mathematical value of a sequence of paths.
pub open spec fn paths_model(ps: Seq<String>) -> Seq<Seq<char>> {
    ps.map_values(|p: String| p@)
}

/// Groups of duplicate files found so far, together with the errors met on
/// the way.
pub struct DupResults {
    /// Groups of paths to duplicate files.
    duplicates: Vec<DupGroup>,

    /// Errors encountered while checking for duplicate files.
    errors: Vec<DupError>,
}

impl View for DupResults {
    type V = ResultsModel;

    closed spec fn view(&self) -> ResultsModel {
        ResultsModel { groups: groups_model(self.duplicates@), errors: errors_model(self.errors@) }
    }
}

impl DupResults {
    /// Creates a new, empty `DupResults`.
    pub fn new() -> (r: DupResults)
        ensures
            r@.groups == Seq::<GroupModel>::empty(),
            r@.errors == Seq::<ErrorModel>::empty(),
    {
        let r = DupResults { duplicates: vec![], errors: vec![] };
        proof {
            assert(r@.groups =~= Seq::<GroupModel>::empty());
            assert(r@.errors =~= Seq::<ErrorModel>::empty());
        }
        r
    }

    /// Checks for any duplicates of the specified files, within their parent
    /// directories when `dirs_opt` is absent, or within the specified
    /// directories when it is given. A named path that is not a regular
    /// file, or a scope path that is not a directory, ends the call before
    /// any grouping work; every softer failure becomes a recorded error.
    /// When no scope directories are given, every candidate must carry the
    /// snapshot of its parent directory.
    pub fn of(&mut self, files: &Vec<CandidateFile>, dirs_opt: Option<&Vec<ResolvedPath>>) -> (r:
        Result<(), InputError>)
        requires
            dirs_opt is None ==> forall|i: int|
                0 <= i < files@.len() ==> (#[trigger] candidates_model(files@)[i]).parent is Some,
        ensures
            input_result_model(r) == valid_paths_check(
                Some(candidate_paths(candidates_model(files@))),
                opt_resolved_model(dirs_opt),
            ),
            r is Err ==> final(self)@ == old(self)@,
            r is Ok && dirs_opt is Some ==> final(self)@ == of_scoped(
                old(self)@,
                candidates_model(files@),
                resolved_model(dirs_opt->Some_0@),
            ),
            r is Ok && dirs_opt is None ==> final(self)@ == of_parents(
                old(self)@,
                candidates_model(files@),
            ),
    {
        let ghost cm = candidates_model(files@);
        let ghost pm = candidate_paths(cm);
        let ghost g0 = old(self)@.groups;
        let ghost e0 = old(self)@.errors;

        // Validation: every named path must be a regular file, and every
        // scope path a directory; the first offender ends the call.
        let mut i: usize = 0;
        while i < files.len()
            invariant
                0 <= i <= files.len(),
                cm == candidates_model(files@),
                pm == candidate_paths(cm),
                pm.len() == files@.len(),
                forall|j: int| 0 <= j < i ==> (#[trigger] pm[j]) is File,
            decreases files.len() - i,
        {
            proof {
                assert(pm[i as int] == files@[i as int]@.path);
            }
            match &files[i].path {
                ResolvedPath::File(_) => {},
                ResolvedPath::Dir(d) => {
                    proof {
                        lemma_first_non_file_at(pm, i as int);
                    }
                    return Err(InputError::NotAFile(d.path.clone()));
                },
                ResolvedPath::Other(p) => {
                    proof {
                        lemma_first_non_file_at(pm, i as int);
                    }
                    return Err(InputError::NotAFile(p.clone()));
                },
            }
            i = i + 1;
        }
        proof {
            lemma_first_non_file_none(pm);
        }
        if let Some(dirs) = dirs_opt {
            let ghost dm = resolved_model(dirs@);
            let mut j: usize = 0;
            while j < dirs.len()
                invariant
                    0 <= j <= dirs.len(),
                    dirs_opt == Some(dirs),
                    cm == candidates_model(files@),
                    pm == candidate_paths(cm),
                    first_non_file(pm) == -1,
                    dm == resolved_model(dirs@),
                    dm.len() == dirs@.len(),
                    forall|l: int| 0 <= l < j ==> (#[trigger] dm[l]) is Dir,
                decreases dirs.len() - j,
            {
                proof {
                    assert(dm[j as int] == dirs@[j as int]@);
                }
                match &dirs[j] {
                    ResolvedPath::Dir(_) => {},
                    ResolvedPath::File(rec) => {
                        proof {
                            lemma_first_non_dir_at(dm, j as int);
                        }
                        return Err(InputError::NotADirectory(rec.path.clone()));
                    },
                    ResolvedPath::Other(p) => {
                        proof {
                            lemma_first_non_dir_at(dm, j as int);
                        }
                        return Err(InputError::NotADirectory(p.clone()));
                    },
                }
                j = j + 1;
            }
            proof {
                lemma_first_non_dir_none(dm);
            }
        }
        proof {
            lemma_all_files(pm);
        }
        let ghost rs = resolved_records(pm);

        if let Some(dirs) = dirs_opt {
            let ghost dm = resolved_model(dirs@);
            proof {
                lemma_all_dirs(dm);
            }
            // The byte length of each named file; a failed stat becomes an
            // error and leaves that length out.
            let mut sizes: Vec<u64> = Vec::new();
            let mut i: usize = 0;
            while i < files.len()
                invariant
                    0 <= i <= files.len(),
                    cm == candidates_model(files@),
                    pm == candidate_paths(cm),
                    pm.len() == files@.len(),
                    rs == resolved_records(pm),
                    rs.len() == pm.len(),
                    forall|j: int| 0 <= j < pm.len() ==> (#[trigger] pm[j]) is File,
                    sizes@ == of_sizes(rs.take(i as int)).0,
                    groups_model(self.duplicates@) == g0,
                    errors_model(self.errors@) == e0 + of_sizes(rs.take(i as int)).1,
                decreases files.len() - i,
            {
                proof {
                    assert(pm[i as int] == files@[i as int]@.path);
                    assert(rs[i as int] == pm[i as int]->File_0);
                    assert(rs.take(i + 1).drop_last() =~= rs.take(i as int));
                    assert(rs.take(i + 1).last() == rs[i as int]);
                }
                match &files[i].path {
                    ResolvedPath::File(rec) => {
                        match &rec.stat {
                            Ok(n) => {
                                sizes.push(*n);
                            },
                            Err(m) => {
                                let ghost epre = self.errors@;
                                self.errors.push(DupError::new(rec.path.clone(), m.clone()));
                                proof {
                                    lemma_errors_model_push(epre, self.errors@.last());
                                }
                            },
                        }
                        proof {
                            assert(sizes@ =~= of_sizes(rs.take(i + 1)).0);
                            assert(errors_model(self.errors@) =~= e0 + of_sizes(rs.take(i + 1)).1);
                        }
                    },
                    ResolvedPath::Dir(_) => {
                        proof {
                            assert(pm[i as int] is File);
                            assert(false);
                        }
                    },
                    ResolvedPath::Other(_) => {
                        proof {
                            assert(pm[i as int] is File);
                            assert(false);
                        }
                    },
                }
                i = i + 1;
            }
            proof {
                assert(rs.take(files@.len() as int) =~= rs);
            }

            // Walk the scope directories, filtered to the named files'
            // lengths.
            let (dfiles, mut werrs) = self.files_within(dirs, Some(&sizes));
            let mut check_files = dfiles;
            let ghost epre = self.errors@;
            self.errors.append(&mut werrs);
            proof {
                assert(errors_model(self.errors@) =~= errors_model(epre) + walk_dirs(
                    resolved_dirs(dm),
                    Some(of_sizes(rs).0),
                ).1);
            }

            // The scope directories need not be ancestors of the named
            // files: add every named file the walk did not find.
            let ghost base0 = records_model(check_files@);
            let mut i: usize = 0;
            while i < files.len()
                invariant
                    0 <= i <= files.len(),
                    cm == candidates_model(files@),
                    pm == candidate_paths(cm),
                    pm.len() == files@.len(),
                    rs == resolved_records(pm),
                    rs.len() == pm.len(),
                    forall|j: int| 0 <= j < pm.len() ==> (#[trigger] pm[j]) is File,
                    records_model(check_files@) == add_missing(base0, rs.take(i as int)),
                    groups_model(self.duplicates@) == g0,
                    errors_model(self.errors@) == e0 + of_sizes(rs).1 + walk_dirs(
                        resolved_dirs(dm),
                        Some(of_sizes(rs).0),
                    ).1,
                decreases files.len() - i,
            {
                proof {
                    assert(pm[i as int] == files@[i as int]@.path);
                    assert(rs[i as int] == pm[i as int]->File_0);
                    assert(rs.take(i + 1).drop_last() =~= rs.take(i as int));
                    assert(rs.take(i + 1).last() == rs[i as int]);
                }
                match &files[i].path {
                    ResolvedPath::File(rec) => {
                        if !records_contain_path(&check_files, &rec.path) {
                            let ghost cpre = check_files@;
                            check_files.push(rec.clone());
                            proof {
                                lemma_records_model_push(cpre, check_files@.last());
                            }
                        }
                        proof {
                            assert(records_model(check_files@) =~= add_missing(
                                base0,
                                rs.take(i + 1),
                            ));
                        }
                    },
                    ResolvedPath::Dir(_) => {
                        proof {
                            assert(pm[i as int] is File);
                            assert(false);
                        }
                    },
                    ResolvedPath::Other(_) => {
                        proof {
                            assert(pm[i as int] is File);
                            assert(false);
                        }
                    },
                }
                i = i + 1;
            }
            proof {
                assert(rs.take(files@.len() as int) =~= rs);
            }
            self._files(&check_files);
            proof {
                assert(final(self)@ == of_scoped(old(self)@, cm, dm));
            }
            Ok(())
        } else {
            // Walk each named file's own parent directory, filtered to that
            // file's byte length.
            let mut check_files: Vec<FileRecord> = Vec::new();
            let mut i: usize = 0;
            while i < files.len()
                invariant
                    0 <= i <= files.len(),
                    cm == candidates_model(files@),
                    pm == candidate_paths(cm),
                    pm.len() == files@.len(),
                    cm.len() == files@.len(),
                    forall|j: int| 0 <= j < pm.len() ==> (#[trigger] pm[j]) is File,
                    forall|j: int| 0 <= j < cm.len() ==> (#[trigger] cm[j]).parent is Some,
                    records_model(check_files@) == parent_scan(cm.take(i as int)).0,
                    groups_model(self.duplicates@) == g0,
                    errors_model(self.errors@) == e0 + parent_scan(cm.take(i as int)).1,
                decreases files.len() - i,
            {
                proof {
                    assert(cm[i as int] == files@[i as int]@);
                    assert(pm[i as int] == cm[i as int].path);
                    assert(cm.take(i + 1).drop_last() =~= cm.take(i as int));
                    assert(cm.take(i + 1).last() == cm[i as int]);
                }
                match &files[i].path {
                    ResolvedPath::File(rec) => {
                        match &rec.stat {
                            Ok(n) => {
                                let mut szs: Vec<u64> = Vec::new();
                                szs.push(*n);
                                proof {
                                    assert(szs@ =~= seq![*n]);
                                }
                                match &files[i].parent {
                                    Some(par) => {
                                        walk_tree(
                                            par,
                                            Some(&szs),
                                            &mut check_files,
                                            &mut self.errors,
                                        );
                                        proof {
                                            assert(cm[i as int].parent == Some(par@));
                                        }
                                    },
                                    None => {
                                        proof {
                                            assert(cm[i as int].parent is Some);
                                            assert(false);
                                        }
                                    },
                                }
                            },
                            Err(m) => {
                                let ghost epre = self.errors@;
                                self.errors.push(DupError::new(rec.path.clone(), m.clone()));
                                proof {
                                    lemma_errors_model_push(epre, self.errors@.last());
                                }
                            },
                        }
                        proof {
                            assert(records_model(check_files@) =~= parent_scan(cm.take(i + 1)).0);
                            assert(errors_model(self.errors@) =~= e0 + parent_scan(
                                cm.take(i + 1),
                            ).1);
                        }
                    },
                    ResolvedPath::Dir(_) => {
                        proof {
                            assert(pm[i as int] is File);
                            assert(false);
                        }
                    },
                    ResolvedPath::Other(_) => {
                        proof {
                            assert(pm[i as int] is File);
                            assert(false);
                        }
                    },
                }
                i = i + 1;
            }
            proof {
                assert(cm.take(files@.len() as int) =~= cm);
            }
            self._files(&check_files);
            proof {
                assert(final(self)@ == of_parents(old(self)@, cm));
            }
            Ok(())
        }
    }

    /// Checks for any duplicate files within the specified directories. A
    /// path that is not a directory ends the call before any grouping work.
    /// Calling `within` again on the same accumulator merges the results:
    /// newly found duplicates join the group of their digest.
    pub fn within(&mut self, dirs: &Vec<ResolvedPath>) -> (r: Result<(), InputError>)
        ensures
            input_result_model(r) == valid_paths_check(None, Some(resolved_model(dirs@))),
            r is Err ==> final(self)@ == old(self)@,
            r is Ok ==> final(self)@ == pass(
                ResultsModel {
                    groups: old(self)@.groups,
                    errors: old(self)@.errors + walk_dirs(
                        resolved_dirs(resolved_model(dirs@)),
                        None,
                    ).1,
                },
                walk_dirs(resolved_dirs(resolved_model(dirs@)), None).0,
            ),
    {
        let ghost dm = resolved_model(dirs@);
        match self.check_valid_paths(None, Some(dirs)) {
            Err(e) => {
                return Err(e);
            },
            Ok(_) => {},
        }
        proof {
            crate::fs::lemma_first_non_dir_bounds(dm);
            lemma_all_dirs(dm);
        }
        let (found, mut werrs) = self.files_within(dirs, None);
        let ghost epre = self.errors@;
        self.errors.append(&mut werrs);
        proof {
            assert(errors_model(self.errors@) =~= errors_model(epre) + walk_dirs(
                resolved_dirs(dm),
                None,
            ).1);
        }
        self._files(&found);
        Ok(())
    }

    /// Checks for any duplicates among the specified files. A path that is
    /// not a regular file ends the call before any grouping work.
    pub fn files(&mut self, files: &Vec<ResolvedPath>) -> (r: Result<(), InputError>)
        ensures
            input_result_model(r) == valid_paths_check(Some(resolved_model(files@)), None),
            r is Err ==> final(self)@ == old(self)@,
            r is Ok ==> final(self)@ == pass(
                old(self)@,
                resolved_records(resolved_model(files@)),
            ),
    {
        let ghost fm = resolved_model(files@);
        match self.check_valid_paths(Some(files), None) {
            Err(e) => {
                return Err(e);
            },
            Ok(_) => {},
        }
        proof {
            crate::fs::lemma_first_non_file_bounds(fm);
            lemma_all_files(fm);
        }
        let mut recs: Vec<FileRecord> = Vec::new();
        let mut i: usize = 0;
        while i < files.len()
            invariant
                0 <= i <= files.len(),
                fm == resolved_model(files@),
                fm.len() == files@.len(),
                forall|j: int| 0 <= j < fm.len() ==> (#[trigger] fm[j]) is File,
                records_model(recs@) == resolved_records(fm.take(i as int)),
                groups_model(self.duplicates@) == old(self)@.groups,
                errors_model(self.errors@) == old(self)@.errors,
            decreases files.len() - i,
        {
            proof {
                assert(fm[i as int] == files@[i as int]@);
                assert(fm.take(i + 1).drop_last() =~= fm.take(i as int));
                assert(fm.take(i + 1).last() == fm[i as int]);
            }
            match &files[i] {
                ResolvedPath::File(rec) => {
                    let ghost rpre = recs@;
                    recs.push(rec.clone());
                    proof {
                        lemma_records_model_push(rpre, recs@.last());
                        assert(records_model(recs@) =~= resolved_records(fm.take(i + 1)));
                    }
                },
                ResolvedPath::Dir(_) => {
                    proof {
                        assert(fm[i as int] is File);
                        assert(false);
                    }
                },
                ResolvedPath::Other(_) => {
                    proof {
                        assert(fm[i as int] is File);
                        assert(false);
                    }
                },
            }
            i = i + 1;
        }
        proof {
            assert(fm.take(files@.len() as int) =~= fm);
        }
        self._files(&recs);
        Ok(())
    }

    /// Returns the files of all the given directories, filtered to the
    /// optional sizes, and the errors met while finding them. Every input
    /// must be a directory.
    fn files_within(&self, dirs: &Vec<ResolvedPath>, sizes: Option<&Vec<u64>>) -> (r: (
        Vec<FileRecord>,
        Vec<DupError>,
    ))
        requires
            forall|j: int|
                0 <= j < dirs@.len() ==> (#[trigger] resolved_model(dirs@)[j]) is Dir,
        ensures
            records_model(r.0@) == walk_dirs(
                resolved_dirs(resolved_model(dirs@)),
                sizes_model(sizes),
            ).0,
            errors_model(r.1@) == walk_dirs(
                resolved_dirs(resolved_model(dirs@)),
                sizes_model(sizes),
            ).1,
    {
        let ghost dm = resolved_model(dirs@);
        let ghost ds = resolved_dirs(dm);
        let mut files: Vec<FileRecord> = Vec::new();
        let mut errors: Vec<DupError> = Vec::new();
        proof {
            assert(records_model(files@) =~= walk_dirs(ds.take(0), sizes_model(sizes)).0);
            assert(errors_model(errors@) =~= walk_dirs(ds.take(0), sizes_model(sizes)).1);
        }
        let mut i: usize = 0;
        while i < dirs.len()
            invariant
                0 <= i <= dirs.len(),
                dm == resolved_model(dirs@),
                dm.len() == dirs@.len(),
                ds == resolved_dirs(dm),
                ds.len() == dm.len(),
                forall|j: int| 0 <= j < dm.len() ==> (#[trigger] dm[j]) is Dir,
                records_model(files@) == walk_dirs(ds.take(i as int), sizes_model(sizes)).0,
                errors_model(errors@) == walk_dirs(ds.take(i as int), sizes_model(sizes)).1,
            decreases dirs.len() - i,
        {
            proof {
                assert(dm[i as int] == dirs@[i as int]@);
                assert(ds[i as int] == dm[i as int]->Dir_0);
                assert(ds.take(i + 1).drop_last() =~= ds.take(i as int));
                assert(ds.take(i + 1).last() == ds[i as int]);
            }
            match &dirs[i] {
                ResolvedPath::Dir(d) => {
                    walk_tree(d, sizes, &mut files, &mut errors);
                },
                ResolvedPath::File(_) => {
                    proof {
                        assert(dm[i as int] is Dir);
                        assert(false);
                    }
                },
                ResolvedPath::Other(_) => {
                    proof {
                        assert(dm[i as int] is Dir);
                        assert(false);
                    }
                },
            }
            i = i + 1;
        }
        proof {
            assert(ds.take(dirs@.len() as int) =~= ds);
        }
        (files, errors)
    }

    /// Validates that the optional file inputs are all regular files and the
    /// optional directory inputs are all directories, returning the first
    /// offender as the error.
    fn check_valid_paths(
        &self,
        files: Option<&Vec<ResolvedPath>>,
        dirs: Option<&Vec<ResolvedPath>>,
    ) -> (r: Result<(), InputError>)
        ensures
            input_result_model(r) == valid_paths_check(
                opt_resolved_model(files),
                opt_resolved_model(dirs),
            ),
    {
        if let Some(fs) = files {
            let ghost fm = resolved_model(fs@);
            let mut i: usize = 0;
            while i < fs.len()
                invariant
                    0 <= i <= fs.len(),
                    files == Some(fs),
                    fm == resolved_model(fs@),
                    fm.len() == fs@.len(),
                    forall|j: int| 0 <= j < i ==> (#[trigger] fm[j]) is File,
                decreases fs.len() - i,
            {
                proof {
                    assert(fm[i as int] == fs@[i as int]@);
                }
                match &fs[i] {
                    ResolvedPath::File(_) => {},
                    ResolvedPath::Dir(d) => {
                        proof {
                            lemma_first_non_file_at(fm, i as int);
                        }
                        return Err(InputError::NotAFile(d.path.clone()));
                    },
                    ResolvedPath::Other(p) => {
                        proof {
                            lemma_first_non_file_at(fm, i as int);
                        }
                        return Err(InputError::NotAFile(p.clone()));
                    },
                }
                i = i + 1;
            }
            proof {
                lemma_first_non_file_none(fm);
            }
        }
        if let Some(ds) = dirs {
            let ghost dm = resolved_model(ds@);
            let mut i: usize = 0;
            while i < ds.len()
                invariant
                    0 <= i <= ds.len(),
                    dirs == Some(ds),
                    files is Some ==> first_non_file(resolved_model(files->Some_0@)) == -1,
                    dm == resolved_model(ds@),
                    dm.len() == ds@.len(),
                    forall|j: int| 0 <= j < i ==> (#[trigger] dm[j]) is Dir,
                decreases ds.len() - i,
            {
                proof {
                    assert(dm[i as int] == ds@[i as int]@);
                }
                match &ds[i] {
                    ResolvedPath::Dir(_) => {},
                    ResolvedPath::File(rec) => {
                        proof {
                            lemma_first_non_dir_at(dm, i as int);
                        }
                        return Err(InputError::NotADirectory(rec.path.clone()));
                    },
                    ResolvedPath::Other(p) => {
                        proof {
                            lemma_first_non_dir_at(dm, i as int);
                        }
                        return Err(InputError::NotADirectory(p.clone()));
                    },
                }
                i = i + 1;
            }
            proof {
                lemma_first_non_dir_none(dm);
            }
        }
        Ok(())
    }

    /// One grouping pass: buckets the candidate records by byte length,
    /// hashes those whose length is shared and that no group holds yet,
    /// places every hashed path in the group of its digest, and finally
    /// drops every group of fewer than two files.
    fn _files(&mut self, files: &Vec<FileRecord>)
        ensures
            final(self)@ == pass(old(self)@, records_model(files@)),
    {
        let ghost fm = records_model(files@);
        let ghost g0 = old(self)@.groups;
        let ghost e0 = old(self)@.errors;

        // Bucket the candidates by byte length; a failed stat becomes an
        // error and drops the candidate.
        let mut buckets: Vec<(u64, Vec<FileRecord>)> = Vec::new();
        proof {
            assert(buckets_model(buckets@) =~= size_buckets(fm.take(0)).0);
            assert(errors_model(self.errors@) =~= e0 + size_buckets(fm.take(0)).1);
        }
        let mut i: usize = 0;
        while i < files.len()
            invariant
                0 <= i <= files.len(),
                fm == records_model(files@),
                fm.len() == files@.len(),
                buckets_model(buckets@) == size_buckets(fm.take(i as int)).0,
                groups_model(self.duplicates@) == g0,
                errors_model(self.errors@) == e0 + size_buckets(fm.take(i as int)).1,
            decreases files.len() - i,
        {
            let ghost bm = buckets_model(buckets@);
            proof {
                assert(fm[i as int] == files@[i as int]@);
            }
            match &files[i].stat {
                Ok(size) => {
                    let size = *size;
                    let mut j: usize = 0;
                    while j < buckets.len() && buckets[j].0 != size
                        invariant
                            0 <= j <= buckets.len(),
                            bm == buckets_model(buckets@),
                            bm.len() == buckets@.len(),
                            forall|k: int| 0 <= k < j ==> (#[trigger] bm[k]).0 != size,
                        decreases buckets.len() - j,
                    {
                        proof {
                            assert(bm[j as int].0 == buckets@[j as int].0);
                        }
                        j = j + 1;
                    }
                    if j < buckets.len() {
                        proof {
                            assert(bm[j as int].0 == buckets@[j as int].0);
                            assert(bm[j as int].0 == size);
                        }
                        let ghost ob = buckets@;
                        let (bsz, mut bvec) = buckets.remove(j);
                        let ghost bv0 = bvec@;
                        bvec.push(files[i].clone());
                        proof {
                            assert(bvec@.last()@ == fm[i as int]);
                            lemma_records_model_push(bv0, bvec@.last());
                            assert(records_model(bvec@) == records_model(ob[j as int].1@).push(
                                fm[i as int],
                            ));
                        }
                        buckets.insert(j, (bsz, bvec));
                        proof {
                            let target = bm.update(
                                j as int,
                                (size, bm[j as int].1.push(fm[i as int])),
                            );
                            assert forall|k: int|
                                0 <= k < buckets@.len() implies #[trigger] buckets_model(
                                buckets@,
                            )[k] == target[k] by {
                                if k < j {
                                    assert(buckets@[k] == ob[k]);
                                } else if k > j {
                                    assert(buckets@[k] == ob[k]);
                                }
                            }
                            assert(buckets_model(buckets@) =~= target);
                            lemma_bucket_add_found(bm, size, fm[i as int], j as int);
                        }
                    } else {
                        let mut nv: Vec<FileRecord> = Vec::new();
                        nv.push(files[i].clone());
                        proof {
                            assert(records_model(nv@) =~= seq![fm[i as int]]);
                        }
                        buckets.push((size, nv));
                        proof {
                            assert(buckets_model(buckets@) =~= bm.push(
                                (size, seq![fm[i as int]]),
                            ));
                            lemma_bucket_add_missing(bm, size, fm[i as int]);
                        }
                    }
                },
                Err(m) => {
                    let ghost epre = self.errors@;
                    self.errors.push(DupError::new(files[i].path.clone(), m.clone()));
                    proof {
                        lemma_errors_model_push(epre, self.errors@.last());
                    }
                },
            }
            proof {
                assert(fm.take(i + 1).drop_last() =~= fm.take(i as int));
                assert(fm.take(i + 1).last() == fm[i as int]);
                assert(buckets_model(buckets@) =~= size_buckets(fm.take(i + 1)).0);
                assert(errors_model(self.errors@) =~= e0 + size_buckets(fm.take(i + 1)).1);
            }
            i = i + 1;
        }
        proof {
            assert(fm.take(files@.len() as int) =~= fm);
        }
        let ghost bks = size_buckets(fm).0;
        let ghost stat_errs = size_buckets(fm).1;

        // Keep only the candidates whose byte length is shared with another
        // candidate: a file of unique length cannot have a duplicate and is
        // never hashed.
        let mut survivors: Vec<FileRecord> = Vec::new();
        proof {
            assert(records_model(survivors@) =~= shared_size_files(bks.take(0)));
        }
        let mut bi: usize = 0;
        while bi < buckets.len()
            invariant
                0 <= bi <= buckets.len(),
                bks == buckets_model(buckets@),
                bks.len() == buckets@.len(),
                records_model(survivors@) == shared_size_files(bks.take(bi as int)),
                groups_model(self.duplicates@) == g0,
                errors_model(self.errors@) == e0 + stat_errs,
            decreases buckets.len() - bi,
        {
            let ghost binner = records_model(buckets@[bi as int].1@);
            proof {
                assert(bks[bi as int] == (buckets@[bi as int].0, binner));
            }
            if buckets[bi].1.len() > 1 {
                let ghost svpre = records_model(survivors@);
                let mut k: usize = 0;
                while k < buckets[bi].1.len()
                    invariant
                        0 <= k <= buckets@[bi as int].1@.len(),
                        bi < buckets.len(),
                        binner == records_model(buckets@[bi as int].1@),
                        binner.len() == buckets@[bi as int].1@.len(),
                        records_model(survivors@) == svpre + binner.take(k as int),
                    decreases buckets@[bi as int].1@.len() - k,
                {
                    let ghost spre = survivors@;
                    survivors.push(buckets[bi].1[k].clone());
                    proof {
                        assert(survivors@.last()@ == binner[k as int]);
                        lemma_records_model_push(spre, survivors@.last());
                        assert(binner.take(k + 1).drop_last() =~= binner.take(k as int));
                        assert(binner.take(k + 1).last() == binner[k as int]);
                        assert(records_model(survivors@) =~= svpre + binner.take(k + 1));
                    }
                    k = k + 1;
                }
                proof {
                    assert(binner.take(buckets@[bi as int].1@.len() as int) =~= binner);
                    assert(bks.take(bi + 1).drop_last() =~= bks.take(bi as int));
                    assert(bks.take(bi + 1).last() == bks[bi as int]);
                    assert(records_model(survivors@) =~= shared_size_files(bks.take(bi + 1)));
                }
            } else {
                proof {
                    assert(bks.take(bi + 1).drop_last() =~= bks.take(bi as int));
                    assert(bks.take(bi + 1).last() == bks[bi as int]);
                    assert(records_model(survivors@) =~= shared_size_files(bks.take(bi + 1)));
                }
            }
            bi = bi + 1;
        }
        proof {
            assert(bks.take(buckets@.len() as int) =~= bks);
        }
        let ghost sv = records_model(survivors@);

        // Hash the surviving candidates that no group holds yet; a failed
        // read becomes an error and drops the candidate.
        let mut hashes: Vec<(String, String)> = Vec::new();
        let mut new_errors: Vec<DupError> = Vec::new();
        proof {
            assert(hashes_model(hashes@) =~= hash_outcomes(g0, sv.take(0)).0);
            assert(errors_model(new_errors@) =~= hash_outcomes(g0, sv.take(0)).1);
        }
        let mut k: usize = 0;
        while k < survivors.len()
            invariant
                0 <= k <= survivors.len(),
                sv == records_model(survivors@),
                sv.len() == survivors@.len(),
                groups_model(self.duplicates@) == g0,
                errors_model(self.errors@) == e0 + stat_errs,
                hashes_model(hashes@) == hash_outcomes(g0, sv.take(k as int)).0,
                errors_model(new_errors@) == hash_outcomes(g0, sv.take(k as int)).1,
            decreases survivors.len() - k,
        {
            proof {
                assert(sv[k as int] == survivors@[k as int]@);
            }
            let member = self.contains(&survivors[k].path);
            if !member {
                match &survivors[k].content {
                    Ok(bytes) => {
                        let h = blake3_hex(bytes);
                        let ghost hpre = hashes@;
                        hashes.push((h, survivors[k].path.clone()));
                        proof {
                            assert(hashes_model(hashes@) =~= hashes_model(hpre).push(
                                (hashes@.last().0@, hashes@.last().1@),
                            ));
                        }
                    },
                    Err(m) => {
                        let ghost epre = new_errors@;
                        new_errors.push(DupError::new(survivors[k].path.clone(), m.clone()));
                        proof {
                            lemma_errors_model_push(epre, new_errors@.last());
                        }
                    },
                }
            }
            proof {
                assert(sv.take(k + 1).drop_last() =~= sv.take(k as int));
                assert(sv.take(k + 1).last() == sv[k as int]);
                assert(hashes_model(hashes@) =~= hash_outcomes(g0, sv.take(k + 1)).0);
                assert(errors_model(new_errors@) =~= hash_outcomes(g0, sv.take(k + 1)).1);
            }
            k = k + 1;
        }
        proof {
            assert(sv.take(survivors@.len() as int) =~= sv);
        }
        let ghost hm = hashes_model(hashes@);
        let ghost hash_errs = errors_model(new_errors@);

        // Place every hashed path in the group of its digest, opening a new
        // group at the end when none exists.
        let mut k: usize = 0;
        while k < hashes.len()
            invariant
                0 <= k <= hashes.len(),
                hm == hashes_model(hashes@),
                hm.len() == hashes@.len(),
                groups_model(self.duplicates@) == place_all(g0, hm.take(k as int)),
                errors_model(self.errors@) == e0 + stat_errs,
                errors_model(new_errors@) == hash_errs,
            decreases hashes.len() - k,
        {
            let ghost gs = groups_model(self.duplicates@);
            proof {
                assert(hm[k as int] == (hashes@[k as int].0@, hashes@[k as int].1@));
            }
            let mut j: usize = 0;
            while j < self.duplicates.len() && self.duplicates[j].hash != hashes[k].0
                invariant
                    0 <= j <= self.duplicates.len(),
                    k < hashes.len(),
                    hm == hashes_model(hashes@),
                    hm.len() == hashes@.len(),
                    hm[k as int] == (hashes@[k as int].0@, hashes@[k as int].1@),
                    gs == groups_model(self.duplicates@),
                    gs.len() == self.duplicates@.len(),
                    forall|l: int| 0 <= l < j ==> (#[trigger] gs[l]).hash != hm[k as int].0,
                decreases self.duplicates.len() - j,
            {
                proof {
                    assert(gs[j as int].hash == self.duplicates@[j as int]@.hash);
                }
                j = j + 1;
            }
            if j < self.duplicates.len() {
                proof {
                    assert(gs[j as int].hash == self.duplicates@[j as int]@.hash);
                    assert(gs[j as int].hash == hm[k as int].0);
                }
                let ghost og = self.duplicates@;
                let mut g = self.duplicates.remove(j);
                g.add_file(hashes[k].1.clone());
                self.duplicates.insert(j, g);
                proof {
                    let target = gs.update(
                        j as int,
                        GroupModel {
                            hash: gs[j as int].hash,
                            files: gs[j as int].files.push(hm[k as int].1),
                        },
                    );
                    assert forall|l: int|
                        0 <= l < self.duplicates@.len() implies #[trigger] groups_model(
                        self.duplicates@,
                    )[l] == target[l] by {
                        if l < j {
                            assert(self.duplicates@[l] == og[l]);
                        } else if l > j {
                            assert(self.duplicates@[l] == og[l]);
                        }
                    }
                    assert(groups_model(self.duplicates@) =~= target);
                    lemma_group_add_found(gs, hm[k as int].0, hm[k as int].1, j as int);
                }
            } else {
                let mut nf: Vec<String> = Vec::new();
                nf.push(hashes[k].1.clone());
                proof {
                    assert(paths_model(nf@) =~= seq![hm[k as int].1]);
                }
                self.duplicates.push(DupGroup { hash: hashes[k].0.clone(), files: nf });
                proof {
                    let ng = self.duplicates@.last();
                    assert(ng@.hash == hm[k as int].0);
                    assert(ng@ == GroupModel { hash: hm[k as int].0, files: seq![hm[k as int].1] });
                    assert(groups_model(self.duplicates@) =~= gs.push(
                        GroupModel { hash: hm[k as int].0, files: seq![hm[k as int].1] },
                    ));
                    lemma_group_add_missing(gs, hm[k as int].0, hm[k as int].1);
                }
            }
            proof {
                assert(hm.take(k + 1).drop_last() =~= hm.take(k as int));
                assert(hm.take(k + 1).last() == hm[k as int]);
                assert(groups_model(self.duplicates@) =~= place_all(g0, hm.take(k + 1)));
            }
            k = k + 1;
        }
        proof {
            assert(hm.take(hashes@.len() as int) =~= hm);
        }
        let ghost placed = place_all(g0, hm);

        // Keep only the groups with more than one file.
        let mut kept: Vec<DupGroup> = Vec::new();
        proof {
            assert(groups_model(kept@) =~= prune(placed.take(0)));
        }
        let mut k: usize = 0;
        while k < self.duplicates.len()
            invariant
                0 <= k <= self.duplicates.len(),
                placed == groups_model(self.duplicates@),
                placed.len() == self.duplicates@.len(),
                groups_model(kept@) == prune(placed.take(k as int)),
                errors_model(self.errors@) == e0 + stat_errs,
                errors_model(new_errors@) == hash_errs,
            decreases self.duplicates.len() - k,
        {
            proof {
                assert(placed[k as int] == self.duplicates@[k as int]@);
            }
            if self.duplicates[k].file_count() > 1 {
                let ghost kpre = kept@;
                kept.push(self.duplicates[k].clone());
                proof {
                    assert(groups_model(kept@) =~= groups_model(kpre).push(placed[k as int]));
                }
            }
            proof {
                assert(placed.take(k + 1).drop_last() =~= placed.take(k as int));
                assert(placed.take(k + 1).last() == placed[k as int]);
                assert(groups_model(kept@) =~= prune(placed.take(k + 1)));
            }
            k = k + 1;
        }
        proof {
            assert(placed.take(self.duplicates@.len() as int) =~= placed);
        }
        self.duplicates = kept;

        self.errors.append(&mut new_errors);
        proof {
            assert(errors_model(self.errors@) =~= (e0 + stat_errs) + hash_errs);
            assert((e0 + stat_errs) + hash_errs =~= e0 + stat_errs + hash_errs);
            assert(hm == hash_outcomes(g0, shared_size_files(bks)).0);
            assert(hash_errs == hash_outcomes(g0, shared_size_files(bks)).1);
            assert(self@ == pass(old(self)@, fm));
        }
    }

    /// Returns a reference to the duplicate file groups.
    pub fn duplicates(&self) -> (r: &Vec<DupGroup>)
        ensures
            groups_model(r@) == self@.groups,
    {
        &self.duplicates
    }

    /// Returns a reference to the errors.
    pub fn errors(&self) -> (r: &Vec<DupError>)
        ensures
            errors_model(r@) == self@.errors,
    {
        &self.errors
    }

    /// Returns the total number of all paths within all duplicate groups.
    pub fn file_count(&self) -> (n: usize)
        requires
            total_file_count(self@.groups) <= usize::MAX,
        ensures
            n == total_file_count(self@.groups),
    {
        let ghost all = self@.groups;
        let mut n: usize = 0;
        let mut i: usize = 0;
        while i < self.duplicates.len()
            invariant
                0 <= i <= self.duplicates.len(),
                all == groups_model(self.duplicates@),
                total_file_count(all) <= usize::MAX,
                n == total_file_count(all.take(i as int)),
            decreases self.duplicates.len() - i,
        {
            proof {
                assert(all.take(i + 1).drop_last() =~= all.take(i as int));
                assert(all.take(i + 1).last() == all[i as int]);
                assert(all[i as int] == self.duplicates@[i as int]@);
                lemma_total_file_count_prefix(all, i + 1);
            }
            let c = self.duplicates[i].file_count();
            n = n + c;
            i = i + 1;
        }
        proof {
            assert(all.take(self.duplicates@.len() as int) =~= all);
        }
        n
    }

    /// Returns whether any group contains the given file path.
    fn contains(&self, path: &String) -> (r: bool)
        ensures
            r == crate::model::groups_contain(self@.groups, path@),
    {
        let ghost all = self@.groups;
        let mut i: usize = 0;
        while i < self.duplicates.len()
            invariant
                0 <= i <= self.duplicates.len(),
                all == groups_model(self.duplicates@),
                forall|j: int| 0 <= j < i ==> !(#[trigger] all[j].files.contains(path@)),
            decreases self.duplicates.len() - i,
        {
            if self.duplicates[i].contains(path) {
                proof {
                    assert(all[i as int].files.contains(path@));
                }
                return true;
            }
            i = i + 1;
        }
        false
    }
}

/// Returns whether some record carries the path.
fn records_contain_path(rs: &Vec<FileRecord>, path: &String) -> (r: bool)
    ensures
        r == contains_path(records_model(rs@), path@),
{
    let ghost rm = records_model(rs@);
    let mut i: usize = 0;
    while i < rs.len()
        invariant
            0 <= i <= rs.len(),
            rm == records_model(rs@),
            rm.len() == rs@.len(),
            forall|j: int| 0 <= j < i ==> (#[trigger] rm[j]).path != path@,
        decreases rs.len() - i,
    {
        proof {
            assert(rm[i as int] == rs@[i as int]@);
        }
        if rs[i].path == *path {
            return true;
        }
        i = i + 1;
    }
    proof {
        if contains_path(rm, path@) {
            let j = choose|j: int| 0 <= j < rm.len() && rm[j].path == path@;
            assert(false);
        }
    }
    false
}

/// The total count over a prefix never exceeds the total count.
proof fn lemma_total_file_count_prefix(gs: Seq<GroupModel>, i: int)
    requires
        0 <= i <= gs.len(),
    ensures
        total_file_count(gs.take(i)) <= total_file_count(gs),
    decreases gs.len() - i,
{
    if i == gs.len() {
        assert(gs.take(i) =~= gs);
    } else {
        assert(gs.take(i + 1).drop_last() =~= gs.take(i));
        lemma_total_file_count_prefix(gs, i + 1);
    }
}

/// A group of duplicate files.
#[derive(Debug)]
pub struct DupGroup {
    /// The content digest shared by the files in this group.
    hash: String,

    /// The paths to the duplicate files.
    files: Vec<String>,
}

impl View for DupGroup {
    type V = GroupModel;

    closed spec fn view(&self) -> GroupModel {
        GroupModel { hash: self.hash@, files: paths_model(self.files@) }
    }
}

impl Clone for DupGroup {
    fn clone(&self) -> (r: Self)
        ensures
            r@ == self@,
    {
        let mut files: Vec<String> = Vec::new();
        let mut i: usize = 0;
        while i < self.files.len()
            invariant
                0 <= i <= self.files.len(),
                paths_model(files@) == paths_model(self.files@.take(i as int)),
            decreases self.files.len() - i,
        {
            let ghost pre = files@;
            files.push(self.files[i].clone());
            proof {
                assert(pre.len() == paths_model(pre).len());
                assert(pre.len() == i as int);
                let m1 = paths_model(files@);
                let m2 = paths_model(self.files@.take(i + 1));
                assert(m1.len() == i + 1);
                assert(m2.len() == i + 1);
                assert forall|k: int| 0 <= k < m1.len() implies m1[k] == m2[k] by {
                    if k < i {
                        assert(paths_model(pre)[k] == paths_model(self.files@.take(i as int))[k]);
                    }
                }
                assert(m1 =~= m2);
            }
            i = i + 1;
        }
        let r = DupGroup { hash: self.hash.clone(), files };
        proof {
            assert(self.files@.take(self.files@.len() as int) =~= self.files@);
            assert(r@.files =~= self@.files);
        }
        r
    }
}

impl DupGroup {
    /// Returns the content digest shared by the files in this group.
    pub fn get_hash(&self) -> (h: String)
        ensures
            h@ == self@.hash,
    {
        self.hash.clone()
    }

    /// Returns a reference to the group's file paths.
    pub fn get_files(&self) -> (r: &Vec<String>)
        ensures
            paths_model(r@) == self@.files,
    {
        &self.files
    }

    /// Adds a file path.
    fn add_file(&mut self, file: String)
        ensures
            final(self)@.hash == old(self)@.hash,
            final(self)@.files == old(self)@.files.push(file@),
    {
        let ghost f0 = self@.files;
        self.files.push(file);
        proof {
            assert(self@.files =~= f0.push(file@));
        }
    }

    /// Returns the number of file paths in this group.
    pub fn file_count(&self) -> (n: usize)
        ensures
            n == self@.files.len(),
    {
        self.files.len()
    }

    /// Returns whether this group contains the given file path.
    fn contains(&self, path: &String) -> (r: bool)
        ensures
            r == self@.files.contains(path@),
    {
        let mut i: usize = 0;
        while i < self.files.len()
            invariant
                0 <= i <= self.files.len(),
                forall|j: int| 0 <= j < i ==> self@.files[j] != path@,
            decreases self.files.len() - i,
        {
            if self.files[i] == *path {
                proof {
                    assert(self@.files[i as int] == path@);
                }
                return true;
            }
            i = i + 1;
        }
        proof {
            if self@.files.contains(path@) {
                let j = choose|j: int| 0 <= j < self@.files.len() && self@.files[j] == path@;
                assert(false);
            }
        }
        false
    }
}

} // verus!
