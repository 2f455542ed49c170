use dupcheck::CandidateFile;
use dupcheck::DirTree;
use dupcheck::DupResults;
use dupcheck::Entry;
use dupcheck::FileRecord;
use dupcheck::InputError;
use dupcheck::ResolvedPath;

fn file(path: &str, bytes: &[u8]) -> FileRecord {
    FileRecord {
        path: path.to_string(),
        stat: Ok(bytes.len() as u64),
        content: Ok(bytes.to_vec()),
    }
}

fn unreadable(path: &str, size: u64, msg: &str) -> FileRecord {
    FileRecord { path: path.to_string(), stat: Ok(size), content: Err(msg.to_string()) }
}

fn dir(path: &str, entries: Vec<Entry>) -> DirTree {
    DirTree { path: path.to_string(), listing: Ok(entries) }
}

fn hex_of(bytes: &[u8]) -> String {
    blake3::hash(bytes).to_hex().as_str().to_string()
}

#[test]
fn within_groups_identical_files() {
    // a.txt and b.txt hold "hello", c.txt holds "world"
    let d = dir(
        "D",
        vec![
            Entry::File(file("D/a.txt", b"hello")),
            Entry::File(file("D/b.txt", b"hello")),
            Entry::File(file("D/c.txt", b"world")),
        ],
    );
    let mut results = DupResults::new();
    let r = results.within(&vec![ResolvedPath::Dir(d)]);
    assert!(r.is_ok());
    assert_eq!(results.duplicates().len(), 1);
    let group = &results.duplicates()[0];
    assert_eq!(group.file_count(), 2);
    assert_eq!(group.get_files()[0], "D/a.txt");
    assert_eq!(group.get_files()[1], "D/b.txt");
    assert_eq!(results.errors().len(), 0);
    assert_eq!(results.file_count(), 2);
}

#[test]
fn group_hash_is_the_content_digest() {
    let d = dir(
        "D",
        vec![
            Entry::File(file("D/a.txt", b"hello")),
            Entry::File(file("D/b.txt", b"hello")),
        ],
    );
    let mut results = DupResults::new();
    results.within(&vec![ResolvedPath::Dir(d)]).unwrap();
    assert_eq!(results.duplicates().len(), 1);
    assert_eq!(results.duplicates()[0].get_hash(), hex_of(b"hello"));
}

#[test]
fn of_checks_the_parent_directory() {
    // a.txt's parent also holds b.txt with the same content
    let parent = dir(
        "P",
        vec![
            Entry::File(file("P/a.txt", b"hello")),
            Entry::File(file("P/b.txt", b"hello")),
        ],
    );
    let cand = CandidateFile {
        path: ResolvedPath::File(file("P/a.txt", b"hello")),
        parent: Some(parent),
    };
    let mut results = DupResults::new();
    let r = results.of(&vec![cand], None);
    assert!(r.is_ok());
    assert_eq!(results.duplicates().len(), 1);
    let group = &results.duplicates()[0];
    assert_eq!(group.file_count(), 2);
    assert!(group.get_files().contains(&"P/a.txt".to_string()));
    assert!(group.get_files().contains(&"P/b.txt".to_string()));
    assert_eq!(results.errors().len(), 0);
}

#[test]
fn of_scoped_to_an_unrelated_directory_finds_nothing() {
    // the scope directory holds no file of x.txt's size
    let other = dir("other", vec![Entry::File(file("other/big.bin", b"abcdefgh"))]);
    let cand = CandidateFile {
        path: ResolvedPath::File(file("x.txt", b"hey")),
        parent: None,
    };
    let mut results = DupResults::new();
    let r = results.of(&vec![cand], Some(&vec![ResolvedPath::Dir(other)]));
    assert!(r.is_ok());
    assert_eq!(results.duplicates().len(), 0);
    assert_eq!(results.errors().len(), 0);
    assert_eq!(results.file_count(), 0);
}

#[test]
fn one_unreadable_file_does_not_hide_the_duplicates() {
    // u.txt shares the duplicates' size but cannot be read
    let d = dir(
        "D",
        vec![
            Entry::File(file("D/a.txt", b"hello")),
            Entry::File(file("D/b.txt", b"hello")),
            Entry::File(unreadable("D/u.txt", 5, "permission denied")),
        ],
    );
    let mut results = DupResults::new();
    results.within(&vec![ResolvedPath::Dir(d)]).unwrap();
    assert_eq!(results.duplicates().len(), 1);
    assert_eq!(results.duplicates()[0].file_count(), 2);
    assert_eq!(results.errors().len(), 1);
    assert_eq!(results.errors()[0].path(), "D/u.txt");
    assert_eq!(results.errors()[0].io_error(), "permission denied");
}

#[test]
fn walk_recurses_into_subdirectories_and_skips_other_entries() {
    let sub = dir(
        "D/sub",
        vec![
            Entry::File(file("D/sub/dup1", b"same")),
            Entry::Other("D/link".to_string()),
        ],
    );
    let d = dir(
        "D",
        vec![
            Entry::File(file("D/dup2", b"same")),
            Entry::Subdir(sub),
        ],
    );
    let mut results = DupResults::new();
    results.within(&vec![ResolvedPath::Dir(d)]).unwrap();
    assert_eq!(results.duplicates().len(), 1);
    let group = &results.duplicates()[0];
    assert_eq!(group.file_count(), 2);
    assert!(group.get_files().contains(&"D/dup2".to_string()));
    assert!(group.get_files().contains(&"D/sub/dup1".to_string()));
}

#[test]
fn same_content_but_different_size_is_never_grouped() {
    // the model carries the stat separately, so a forged length keeps the
    // sizes distinct and the pre-filter prunes both
    let a = FileRecord {
        path: "a".to_string(),
        stat: Ok(5),
        content: Ok(b"hello".to_vec()),
    };
    let b = FileRecord {
        path: "b".to_string(),
        stat: Ok(6),
        content: Ok(b"hello".to_vec()),
    };
    let mut results = DupResults::new();
    results.files(&vec![ResolvedPath::File(a), ResolvedPath::File(b)]).unwrap();
    assert_eq!(results.duplicates().len(), 0);
    assert_eq!(results.errors().len(), 0);
}

#[test]
fn same_size_but_different_content_is_never_grouped() {
    let mut results = DupResults::new();
    results
        .files(&vec![
            ResolvedPath::File(file("a", b"hello")),
            ResolvedPath::File(file("b", b"world")),
        ])
        .unwrap();
    assert_eq!(results.duplicates().len(), 0);
    assert_eq!(results.errors().len(), 0);
}

#[test]
fn merge_passes_extend_groups_without_repeating_paths() {
    let da = || {
        dir(
            "A",
            vec![
                Entry::File(file("A/a", b"hello")),
                Entry::File(file("A/b", b"hello")),
            ],
        )
    };
    let db = dir("B", vec![Entry::File(file("B/c", b"hello"))]);
    let mut results = DupResults::new();
    results.within(&vec![ResolvedPath::Dir(da())]).unwrap();
    assert_eq!(results.duplicates().len(), 1);
    assert_eq!(results.duplicates()[0].file_count(), 2);
    results.within(&vec![ResolvedPath::Dir(da()), ResolvedPath::Dir(db)]).unwrap();
    assert_eq!(results.duplicates().len(), 1);
    let group = &results.duplicates()[0];
    assert_eq!(group.file_count(), 3);
    let mut seen_a = 0;
    for p in group.get_files() {
        if p == "A/a" {
            seen_a += 1;
        }
    }
    assert_eq!(seen_a, 1);
    assert_eq!(results.errors().len(), 0);
}

#[test]
fn rechecking_the_same_files_changes_nothing() {
    let candidates = || {
        vec![
            ResolvedPath::File(file("a", b"hello")),
            ResolvedPath::File(file("b", b"hello")),
            ResolvedPath::File(file("c", b"world")),
        ]
    };
    let mut results = DupResults::new();
    results.files(&candidates()).unwrap();
    let groups1 = results.duplicates().len();
    let count1 = results.file_count();
    let errors1 = results.errors().len();
    results.files(&candidates()).unwrap();
    assert_eq!(results.duplicates().len(), groups1);
    assert_eq!(results.file_count(), count1);
    assert_eq!(results.errors().len(), errors1);
    assert_eq!(groups1, 1);
    assert_eq!(count1, 2);
}

#[test]
fn files_rejects_a_directory_input() {
    let d = dir("D", vec![]);
    let mut results = DupResults::new();
    let r = results.files(&vec![
        ResolvedPath::File(file("a", b"x")),
        ResolvedPath::Dir(d),
    ]);
    match r {
        Err(InputError::NotAFile(p)) => assert_eq!(p, "D"),
        _ => panic!("expected a NotAFile error"),
    }
    // the failed call leaves the accumulator untouched
    assert_eq!(results.duplicates().len(), 0);
    assert_eq!(results.errors().len(), 0);
}

#[test]
fn within_rejects_a_file_input() {
    let mut results = DupResults::new();
    let r = results.within(&vec![ResolvedPath::Other("weird".to_string())]);
    match r {
        Err(InputError::NotADirectory(p)) => assert_eq!(p, "weird"),
        _ => panic!("expected a NotADirectory error"),
    }
    assert_eq!(results.duplicates().len(), 0);
    assert_eq!(results.errors().len(), 0);
}

#[test]
fn a_failed_stat_is_recorded_and_the_rest_goes_on() {
    let broken = FileRecord {
        path: "broken".to_string(),
        stat: Err("stat failed".to_string()),
        content: Ok(vec![]),
    };
    let mut results = DupResults::new();
    results
        .files(&vec![
            ResolvedPath::File(broken),
            ResolvedPath::File(file("a", b"hello")),
            ResolvedPath::File(file("b", b"hello")),
        ])
        .unwrap();
    assert_eq!(results.duplicates().len(), 1);
    assert_eq!(results.errors().len(), 1);
    assert_eq!(results.errors()[0].path(), "broken");
    assert_eq!(results.errors()[0].io_error(), "stat failed");
}

#[test]
fn a_failed_listing_is_one_error_for_the_directory() {
    let bad = DirTree { path: "locked".to_string(), listing: Err("not permitted".to_string()) };
    let good = dir(
        "G",
        vec![
            Entry::File(file("G/a", b"hello")),
            Entry::File(file("G/b", b"hello")),
        ],
    );
    let mut results = DupResults::new();
    results.within(&vec![ResolvedPath::Dir(bad), ResolvedPath::Dir(good)]).unwrap();
    assert_eq!(results.duplicates().len(), 1);
    assert_eq!(results.errors().len(), 1);
    assert_eq!(results.errors()[0].path(), "locked");
    assert_eq!(results.errors()[0].io_error(), "not permitted");
}

#[test]
fn an_unreadable_entry_charges_the_directory() {
    let d = DirTree {
        path: "D".to_string(),
        listing: Ok(vec![
            Entry::Unreadable("bad entry".to_string()),
            Entry::File(file("D/a", b"hello")),
            Entry::File(file("D/b", b"hello")),
        ]),
    };
    let mut results = DupResults::new();
    results.within(&vec![ResolvedPath::Dir(d)]).unwrap();
    assert_eq!(results.duplicates().len(), 1);
    assert_eq!(results.errors().len(), 1);
    assert_eq!(results.errors()[0].path(), "D");
    assert_eq!(results.errors()[0].io_error(), "bad entry");
}

#[test]
fn empty_inputs_find_nothing() {
    let mut results = DupResults::new();
    results.within(&vec![]).unwrap();
    results.files(&vec![]).unwrap();
    results.of(&vec![], Some(&vec![])).unwrap();
    assert_eq!(results.duplicates().len(), 0);
    assert_eq!(results.errors().len(), 0);
    assert_eq!(results.file_count(), 0);
}

#[test]
fn of_adds_the_named_files_to_a_scoped_check() {
    // the scope directory is no ancestor of x, but holds a file of x's
    // content: both must end up in one group
    let other = dir("other", vec![Entry::File(file("other/copy", b"hello"))]);
    let cand = CandidateFile {
        path: ResolvedPath::File(file("x", b"hello")),
        parent: None,
    };
    let mut results = DupResults::new();
    results.of(&vec![cand], Some(&vec![ResolvedPath::Dir(other)])).unwrap();
    assert_eq!(results.duplicates().len(), 1);
    let group = &results.duplicates()[0];
    assert_eq!(group.file_count(), 2);
    assert!(group.get_files().contains(&"other/copy".to_string()));
    assert!(group.get_files().contains(&"x".to_string()));
}

#[test]
fn of_rejects_a_non_directory_scope() {
    let cand = CandidateFile {
        path: ResolvedPath::File(file("x", b"hello")),
        parent: None,
    };
    let mut results = DupResults::new();
    let r = results.of(&vec![cand], Some(&vec![ResolvedPath::Other("nope".to_string())]));
    match r {
        Err(InputError::NotADirectory(p)) => assert_eq!(p, "nope"),
        _ => panic!("expected a NotADirectory error"),
    }
    assert_eq!(results.duplicates().len(), 0);
}

#[test]
fn dup_error_keeps_path_and_message() {
    let e = dupcheck::DupError::new("somewhere".to_string(), "broken pipe".to_string());
    assert_eq!(e.path(), "somewhere");
    assert_eq!(e.io_error(), "broken pipe");
}

#[test]
fn digests_differ_for_different_contents() {
    assert_ne!(hex_of(b"hello"), hex_of(b"world"));
    assert_eq!(hex_of(b"hello").len(), 64);
}
