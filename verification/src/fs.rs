//! The file-system snapshot types the engine works on.
//!
//! The engine itself never touches the file system: the caller resolves each
//! path it is interested in and hands the outcome over as plain data. A
//! regular file becomes a [`FileRecord`]; a directory becomes a [`DirTree`]
//! holding the outcome of listing it, recursively. Every piece of data
//! carries the possibility of failure where the underlying system call can
//! fail: a stat, a content read or a directory listing that failed is an
//! error message in place of the value.

use vstd::prelude::*;

verus! {

/// A regular file as the engine sees it: its path and what the file system
/// returned for it.
pub struct FileRecord {
    /// The file's path.
    pub path: String,
    /// The file's byte length, or the message of the failed stat.
    pub stat: Result<u64, String>,
    /// The file's content, or the message of the failed read.
    pub content: Result<Vec<u8>, String>,
}

/// The mathematical value of a [`FileRecord`].
pub struct RecordModel {
    pub path: Seq<char>,
    pub stat: Result<u64, Seq<char>>,
    pub content: Result<Seq<u8>, Seq<char>>,
}

impl View for FileRecord {
    type V = RecordModel;

    open spec fn view(&self) -> RecordModel {
        RecordModel {
            path: self.path@,
            stat: match self.stat {
                Ok(n) => Ok(n),
                Err(e) => Err(e@),
            },
            content: match self.content {
                Ok(b) => Ok(b@),
                Err(e) => Err(e@),
            },
        }
    }
}

impl Clone for FileRecord {
    fn clone(&self) -> (r: Self)
        ensures
            r@ == self@,
    {
        let stat = match &self.stat {
            Ok(n) => Ok(*n),
            Err(e) => Err(e.clone()),
        };
        let content = match &self.content {
            Ok(b) => Ok(b.clone()),
            Err(e) => Err(e.clone()),
        };
        let r = FileRecord { path: self.path.clone(), stat, content };
        proof {
            assert(r@.content =~= self@.content) by {
                match (r@.content, self@.content) {
                    (Ok(b1), Ok(b2)) => {
                        assert(b1 =~= b2);
                    },
                    _ => {},
                }
            }
        }
        r
    }
}

/// One entry of a directory listing.
pub enum Entry {
    /// A regular file.
    File(FileRecord),
    /// A subdirectory, with its own listing.
    Subdir(DirTree),
    /// Neither a regular file nor a directory (a symlink, a special file);
    /// such entries are skipped: neither yielded nor recursed into.
    Other(String),
    /// An entry the listing could not read: the error message.
    Unreadable(String),
}

/// A directory as the engine sees it: its path and the outcome of listing
/// it, recursively.
pub struct DirTree {
    /// The directory's path.
    pub path: String,
    /// The directory's entries, or the message of the failed listing.
    pub listing: Result<Vec<Entry>, String>,
}

/// The mathematical value of an [`Entry`].
pub enum EntryModel {
    File(RecordModel),
    Subdir(DirModel),
    Other(Seq<char>),
    Unreadable(Seq<char>),
}

/// The mathematical value of a [`DirTree`].
pub struct DirModel {
    pub path: Seq<char>,
    pub listing: Result<Seq<EntryModel>, Seq<char>>,
}

/// The mathematical value of a directory tree.
pub open spec fn dir_model(d: DirTree) -> DirModel
    decreases d,
{
    DirModel {
        path: d.path@,
        listing: match d.listing {
            Ok(v) => Ok(entries_model(v@)),
            Err(e) => Err(e@),
        },
    }
}

/// The mathematical value of one directory entry.
pub open spec fn entry_model(e: Entry) -> EntryModel
    decreases e,
{
    match e {
        Entry::File(r) => EntryModel::File(r@),
        Entry::Subdir(d) => EntryModel::Subdir(dir_model(d)),
        Entry::Other(p) => EntryModel::Other(p@),
        Entry::Unreadable(m) => EntryModel::Unreadable(m@),
    }
}

/// The mathematical value of a sequence of directory entries.
pub open spec fn entries_model(es: Seq<Entry>) -> Seq<EntryModel>
    decreases es,
{
    if es.len() == 0 {
        Seq::empty()
    } else {
        seq![entry_model(es[0])] + entries_model(es.drop_first())
    }
}

impl View for DirTree {
    type V = DirModel;

    open spec fn view(&self) -> DirModel {
        dir_model(*self)
    }
}

impl View for Entry {
    type V = EntryModel;

    open spec fn view(&self) -> EntryModel {
        entry_model(*self)
    }
}

/// `entries_model` maps `entry_model` over the sequence, index by index.
pub proof fn lemma_entries_model(es: Seq<Entry>)
    ensures
        entries_model(es).len() == es.len(),
        forall|i: int| 0 <= i < es.len() ==> entries_model(es)[i] == entry_model(es[i]),
    decreases es,
{
    if es.len() > 0 {
        lemma_entries_model(es.drop_first());
    }
}

/// The mathematical value of a sequence of file records.
pub open spec fn records_model(rs: Seq<FileRecord>) -> Seq<RecordModel> {
    rs.map_values(|r: FileRecord| r@)
}

/// The mathematical value of a sequence of directory trees.
pub open spec fn dirs_model(ds: Seq<DirTree>) -> Seq<DirModel> {
    ds.map_values(|d: DirTree| d@)
}

/// Appending a record appends its mathematical value.
pub proof fn lemma_records_model_push(rs: Seq<FileRecord>, r: FileRecord)
    ensures
        records_model(rs.push(r)) == records_model(rs).push(r@),
{
    assert(records_model(rs.push(r)) =~= records_model(rs).push(r@));
}

/// What one path the caller named turned out to be.
pub enum ResolvedPath {
    /// The path named a regular file.
    File(FileRecord),
    /// The path named a directory, with the snapshot of its tree.
    Dir(DirTree),
    /// The path named something else, or nothing at all.
    Other(String),
}

/// The mathematical value of a [`ResolvedPath`].
pub enum ResolvedModel {
    File(RecordModel),
    Dir(DirModel),
    Other(Seq<char>),
}

impl View for ResolvedPath {
    type V = ResolvedModel;

    open spec fn view(&self) -> ResolvedModel {
        match *self {
            ResolvedPath::File(r) => ResolvedModel::File(r@),
            ResolvedPath::Dir(d) => ResolvedModel::Dir(d@),
            ResolvedPath::Other(p) => ResolvedModel::Other(p@),
        }
    }
}

/// The path a resolved input stands for.
pub open spec fn resolved_path_of(r: ResolvedModel) -> Seq<char> {
    match r {
        ResolvedModel::File(rec) => rec.path,
        ResolvedModel::Dir(d) => d.path,
        ResolvedModel::Other(p) => p,
    }
}

impl ResolvedPath {
    /// The path this resolved input stands for.
    pub fn path(&self) -> (s: &String)
        ensures
            s@ == resolved_path_of(self@),
    {
        match self {
            ResolvedPath::File(rec) => &rec.path,
            ResolvedPath::Dir(d) => &d.path,
            ResolvedPath::Other(p) => p,
        }
    }
}

/// The mathematical value of a sequence of resolved paths.
pub open spec fn resolved_model(ps: Seq<ResolvedPath>) -> Seq<ResolvedModel> {
    ps.map_values(|p: ResolvedPath| p@)
}

/// The records of a sequence of resolved paths that are all regular files.
pub open spec fn resolved_records(ps: Seq<ResolvedModel>) -> Seq<RecordModel> {
    ps.map_values(|p: ResolvedModel| p->File_0)
}

/// The directory trees of a sequence of resolved paths that are all
/// directories.
pub open spec fn resolved_dirs(ps: Seq<ResolvedModel>) -> Seq<DirModel> {
    ps.map_values(|p: ResolvedModel| p->Dir_0)
}

/// The index of the first input that is not a regular file, or -1 when every
/// input is one.
pub open spec fn first_non_file(ps: Seq<ResolvedModel>) -> int
    decreases ps.len(),
{
    if ps.len() == 0 {
        -1
    } else if !(ps[0] is File) {
        0
    } else {
        let r = first_non_file(ps.drop_first());
        if r == -1 {
            -1
        } else {
            r + 1
        }
    }
}

/// The index of the first input that is not a directory, or -1 when every
/// input is one.
pub open spec fn first_non_dir(ps: Seq<ResolvedModel>) -> int
    decreases ps.len(),
{
    if ps.len() == 0 {
        -1
    } else if !(ps[0] is Dir) {
        0
    } else {
        let r = first_non_dir(ps.drop_first());
        if r == -1 {
            -1
        } else {
            r + 1
        }
    }
}

/// The first offender index is -1 or a position in the sequence.
pub proof fn lemma_first_non_file_bounds(ps: Seq<ResolvedModel>)
    ensures
        -1 <= first_non_file(ps) < ps.len(),
    decreases ps.len(),
{
    if ps.len() > 0 && ps[0] is File {
        lemma_first_non_file_bounds(ps.drop_first());
    }
}

/// The first offender index is -1 or a position in the sequence.
pub proof fn lemma_first_non_dir_bounds(ps: Seq<ResolvedModel>)
    ensures
        -1 <= first_non_dir(ps) < ps.len(),
    decreases ps.len(),
{
    if ps.len() > 0 && ps[0] is Dir {
        lemma_first_non_dir_bounds(ps.drop_first());
    }
}

/// When every input before `i` is a regular file and the input at `i` is
/// not, `i` is the first offender.
pub proof fn lemma_first_non_file_at(ps: Seq<ResolvedModel>, i: int)
    requires
        0 <= i < ps.len(),
        forall|j: int| 0 <= j < i ==> (#[trigger] ps[j]) is File,
        !(ps[i] is File),
    ensures
        first_non_file(ps) == i,
    decreases i,
{
    if i > 0 {
        lemma_first_non_file_at(ps.drop_first(), i - 1);
    }
}

/// When every input is a regular file, there is no offender.
pub proof fn lemma_first_non_file_none(ps: Seq<ResolvedModel>)
    requires
        forall|j: int| 0 <= j < ps.len() ==> (#[trigger] ps[j]) is File,
    ensures
        first_non_file(ps) == -1,
    decreases ps.len(),
{
    if ps.len() > 0 {
        lemma_first_non_file_none(ps.drop_first());
    }
}

/// When every input before `i` is a directory and the input at `i` is not,
/// `i` is the first offender.
pub proof fn lemma_first_non_dir_at(ps: Seq<ResolvedModel>, i: int)
    requires
        0 <= i < ps.len(),
        forall|j: int| 0 <= j < i ==> (#[trigger] ps[j]) is Dir,
        !(ps[i] is Dir),
    ensures
        first_non_dir(ps) == i,
    decreases i,
{
    if i > 0 {
        lemma_first_non_dir_at(ps.drop_first(), i - 1);
    }
}

/// When every input is a directory, there is no offender.
pub proof fn lemma_first_non_dir_none(ps: Seq<ResolvedModel>)
    requires
        forall|j: int| 0 <= j < ps.len() ==> (#[trigger] ps[j]) is Dir,
    ensures
        first_non_dir(ps) == -1,
    decreases ps.len(),
{
    if ps.len() > 0 {
        lemma_first_non_dir_none(ps.drop_first());
    }
}

/// When there is no offender, every input is a regular file.
pub proof fn lemma_all_files(ps: Seq<ResolvedModel>)
    requires
        first_non_file(ps) == -1,
    ensures
        forall|j: int| 0 <= j < ps.len() ==> (#[trigger] ps[j]) is File,
    decreases ps.len(),
{
    if ps.len() > 0 {
        lemma_first_non_file_bounds(ps.drop_first());
        lemma_all_files(ps.drop_first());
        assert forall|j: int| 0 <= j < ps.len() implies (#[trigger] ps[j]) is File by {
            if j > 0 {
                assert(ps.drop_first()[j - 1] is File);
            }
        }
    }
}

/// When there is no offender, every input is a directory.
pub proof fn lemma_all_dirs(ps: Seq<ResolvedModel>)
    requires
        first_non_dir(ps) == -1,
    ensures
        forall|j: int| 0 <= j < ps.len() ==> (#[trigger] ps[j]) is Dir,
    decreases ps.len(),
{
    if ps.len() > 0 {
        lemma_first_non_dir_bounds(ps.drop_first());
        lemma_all_dirs(ps.drop_first());
        assert forall|j: int| 0 <= j < ps.len() implies (#[trigger] ps[j]) is Dir by {
            if j > 0 {
                assert(ps.drop_first()[j - 1] is Dir);
            }
        }
    }
}

/// A file the caller asks to find duplicates of, together with a snapshot of
/// its parent directory. The parent is read only when no scope directories
/// are given, and may be left out otherwise.
pub struct CandidateFile {
    /// What the named path resolved to.
    pub path: ResolvedPath,
    /// Snapshot of the named file's parent directory.
    pub parent: Option<DirTree>,
}

/// The mathematical value of a [`CandidateFile`].
pub struct CandidateModel {
    pub path: ResolvedModel,
    pub parent: Option<DirModel>,
}

impl View for CandidateFile {
    type V = CandidateModel;

    open spec fn view(&self) -> CandidateModel {
        CandidateModel {
            path: self.path@,
            parent: match self.parent {
                Some(d) => Some(d@),
                None => None,
            },
        }
    }
}

/// The mathematical value of a sequence of candidate files.
pub open spec fn candidates_model(cs: Seq<CandidateFile>) -> Seq<CandidateModel> {
    cs.map_values(|c: CandidateFile| c@)
}

/// The resolved paths of a sequence of candidate files.
pub open spec fn candidate_paths(cs: Seq<CandidateModel>) -> Seq<ResolvedModel> {
    cs.map_values(|c: CandidateModel| c.path)
}

} // verus!
