use dupe_be_gone::config::{Config, ConfigError};
use dupe_be_gone::digest::{file_digest, Mode};
use dupe_be_gone::grouping::{
    find_duplicates, group_outcomes, hash_outcome, DuplicateSet, FileOutcome, GroupingTable,
};

fn hashed(path: &str, contents: &[u8], parent: &str, mode: Mode) -> FileOutcome<String, String> {
    hash_outcome(path.to_string(), Ok(contents.to_vec()), parent.as_bytes(), mode)
}

fn sorted_sets(sets: &[DuplicateSet<String>]) -> Vec<Vec<String>> {
    let mut out: Vec<Vec<String>> = sets
        .iter()
        .map(|s| {
            let mut p = s.paths.clone();
            p.sort();
            p
        })
        .collect();
    out.sort();
    out
}

#[test]
fn digest_of_known_inputs() {
    // SHA-256("abc") starts with ba7816bf8f01cfea, SHA-256("") with e3b0c44298fc1c14.
    assert_eq!(file_digest(b"abc", b"/x", Mode::ContentOnly), 0xba7816bf8f01cfea);
    assert_eq!(file_digest(b"", b"", Mode::ContentOnly), 0xe3b0c44298fc1c14);
    // In combined mode the contents' length, as eight big-endian bytes, comes first.
    assert_eq!(file_digest(b"ab", b"c", Mode::Combined), 0x290a3daa9b49526a);
    assert_eq!(file_digest(b"", b"abc", Mode::Combined), 0xf3652e4ce938bb99);
}

#[test]
fn combined_mode_does_not_mix_contents_and_directory() {
    let a = file_digest(b"x/a", b"/b", Mode::Combined);
    let b = file_digest(b"x", b"/a/b", Mode::Combined);
    assert_eq!(a, 0x470ab42ea5201309);
    assert_eq!(b, 0x127820fc7f07d37e);
    let items = vec![
        hashed("/b/one", b"x/a", "/b", Mode::Combined),
        hashed("/a/b/two", b"x", "/a/b", Mode::Combined),
    ];
    assert!(find_duplicates(items).duplicates.is_empty());
}

#[test]
fn combined_mode_tells_directories_apart() {
    let a = file_digest(b"same", b"/a", Mode::Combined);
    let b = file_digest(b"same", b"/b", Mode::Combined);
    assert_ne!(a, b);
    assert_eq!(
        file_digest(b"same", b"/a", Mode::ContentOnly),
        file_digest(b"same", b"/b", Mode::ContentOnly)
    );
}

#[test]
fn three_copies_in_two_directories() {
    let files = [("/a/one", "/a"), ("/a/two", "/a"), ("/b/three", "/b")];
    let content_only: Vec<_> = files
        .iter()
        .map(|(p, d)| hashed(p, b"same bytes", d, Mode::ContentOnly))
        .collect();
    let r = find_duplicates(content_only);
    assert!(r.failures.is_empty());
    assert_eq!(
        sorted_sets(&r.duplicates),
        vec![vec!["/a/one".to_string(), "/a/two".to_string(), "/b/three".to_string()]]
    );

    let combined: Vec<_> = files
        .iter()
        .map(|(p, d)| hashed(p, b"same bytes", d, Mode::Combined))
        .collect();
    let r = find_duplicates(combined);
    assert!(r.failures.is_empty());
    assert_eq!(
        sorted_sets(&r.duplicates),
        vec![vec!["/a/one".to_string(), "/a/two".to_string()]]
    );
}

#[test]
fn empty_input_gives_nothing() {
    let r = find_duplicates(Vec::<FileOutcome<String, String>>::new());
    assert_eq!(r.duplicates.len(), 0);
    assert_eq!(r.failures.len(), 0);
}

#[test]
fn single_files_are_not_duplicates() {
    let items = vec![
        hashed("x", b"one", "/", Mode::ContentOnly),
        hashed("y", b"two", "/", Mode::ContentOnly),
        hashed("z", b"three", "/", Mode::ContentOnly),
    ];
    let r = find_duplicates(items);
    assert!(r.duplicates.is_empty());
}

#[test]
fn one_unreadable_file_among_a_hundred() {
    let mut items = Vec::new();
    for i in 0..100 {
        let path = format!("/d/f{}", i);
        if i == 37 {
            items.push(hash_outcome(path, Err("permission denied".to_string()), b"/d", Mode::ContentOnly));
        } else {
            let contents = format!("content {}", i % 10);
            items.push(hash_outcome(path, Ok(contents.into_bytes()), b"/d", Mode::ContentOnly));
        }
    }
    let r = find_duplicates(items);
    assert_eq!(r.failures, vec![("/d/f37".to_string(), "permission denied".to_string())]);
    assert_eq!(r.duplicates.len(), 10);
    let total: usize = r.duplicates.iter().map(|s| s.paths.len()).sum();
    assert_eq!(total, 99);
    for s in &r.duplicates {
        let class = s.paths[0][4..].parse::<usize>().unwrap() % 10;
        for p in &s.paths {
            assert_eq!(p[4..].parse::<usize>().unwrap() % 10, class);
        }
        let expected = if class == 7 { 9 } else { 10 };
        assert_eq!(s.paths.len(), expected);
    }
}

#[test]
fn order_of_outcomes_does_not_change_the_sets() {
    let names = ["p", "q", "r", "s", "t", "u"];
    let contents: [&[u8]; 6] = [b"1", b"2", b"1", b"3", b"2", b"1"];
    let forward: Vec<_> = (0..6)
        .map(|i| hashed(names[i], contents[i], "/", Mode::ContentOnly))
        .collect();
    let backward: Vec<_> = (0..6)
        .rev()
        .map(|i| hashed(names[i], contents[i], "/", Mode::ContentOnly))
        .collect();
    let a = find_duplicates(forward);
    let b = find_duplicates(backward);
    assert_eq!(sorted_sets(&a.duplicates), sorted_sets(&b.duplicates));
    assert_eq!(
        sorted_sets(&a.duplicates),
        vec![
            vec!["p".to_string(), "r".to_string(), "u".to_string()],
            vec!["q".to_string(), "t".to_string()],
        ]
    );
}

#[test]
fn paths_keep_input_order_within_a_set() {
    let items: Vec<FileOutcome<u32, ()>> = vec![
        FileOutcome::Hashed { path: 3, digest: 9 },
        FileOutcome::Hashed { path: 1, digest: 4 },
        FileOutcome::Failed { path: 5, error: () },
        FileOutcome::Hashed { path: 2, digest: 9 },
        FileOutcome::Hashed { path: 7, digest: 9 },
    ];
    let r = find_duplicates(items);
    assert_eq!(r.duplicates.len(), 1);
    assert_eq!(r.duplicates[0].digest, 9);
    assert_eq!(r.duplicates[0].paths, vec![3, 2, 7]);
    assert_eq!(r.failures, vec![(5, ())]);
}

#[test]
fn every_outcome_lands_in_the_table() {
    let items: Vec<FileOutcome<u32, u8>> = vec![
        FileOutcome::Hashed { path: 1, digest: 1 },
        FileOutcome::Failed { path: 2, error: 5 },
        FileOutcome::Hashed { path: 3, digest: 2 },
        FileOutcome::Hashed { path: 4, digest: 1 },
    ];
    let (table, failures) = group_outcomes(items);
    assert_eq!(failures, vec![(2, 5)]);
    let sets = table.into_duplicate_sets();
    assert_eq!(sets.len(), 1);
    assert_eq!(sets[0].paths, vec![1, 4]);
}

#[test]
fn table_insert_and_filter() {
    let mut t: GroupingTable<&str> = GroupingTable::new();
    t.insert(10, "a");
    t.insert(20, "b");
    t.insert(10, "c");
    t.insert(30, "d");
    t.insert(30, "e");
    t.insert(30, "f");
    let mut sets: Vec<(u64, Vec<&str>)> =
        t.into_duplicate_sets().into_iter().map(|s| (s.digest, s.paths)).collect();
    sets.sort();
    assert_eq!(sets, vec![(10, vec!["a", "c"]), (30, vec!["d", "e", "f"])]);
}

#[test]
fn failed_read_gives_failure_outcome() {
    let o: FileOutcome<&str, &str> = hash_outcome("gone", Err("no such file"), b"/", Mode::Combined);
    assert!(matches!(o, FileOutcome::Failed { path: "gone", error: "no such file" }));
}

#[test]
fn zero_workers_is_refused() {
    assert_eq!(Config::new(Mode::ContentOnly, 0).err(), Some(ConfigError::NoWorkers));
    let c = Config::new(Mode::Combined, 8).ok().unwrap();
    assert_eq!(c.workers, 8);
    assert_eq!(c.mode, Mode::Combined);
}
