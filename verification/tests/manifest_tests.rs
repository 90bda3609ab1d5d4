use vasc_collab::manifest::sort_entries;
use vasc_collab::protocol::FileEntry;

fn entry(path: &str, rev: u64) -> FileEntry {
    FileEntry { path: path.to_string(), rev, hash: format!("{:016x}", rev) }
}

#[test]
fn sort_entries_orders_by_path() {
    let sorted = sort_entries(vec![entry("src/b.lua", 1), entry("a.lua", 2), entry("src/a.lua", 3), entry("Z", 4)]);
    let paths: Vec<&str> = sorted.iter().map(|e| e.path.as_str()).collect();
    assert_eq!(paths, vec!["Z", "a.lua", "src/a.lua", "src/b.lua"]);
    assert_eq!(sorted[0], entry("Z", 4));
    assert_eq!(sorted[3], entry("src/b.lua", 1));
}

#[test]
fn sort_entries_agrees_with_the_order_of_strings() {
    let paths = vec!["b", "a/b", "a", "ab", "a.b", "", "\u{e9}", "B", "a/a", "a b"];
    let given: Vec<FileEntry> = paths.iter().map(|p| entry(p, 1)).collect();
    let sorted = sort_entries(given);
    let mut expected: Vec<String> = paths.iter().map(|p| p.to_string()).collect();
    expected.sort();
    let got: Vec<String> = sorted.iter().map(|e| e.path.clone()).collect();
    assert_eq!(got, expected);
}

#[test]
fn sort_entries_keeps_the_order_of_equal_paths() {
    let sorted = sort_entries(vec![entry("b", 1), entry("a", 2), entry("b", 3), entry("a", 4), entry("b", 5)]);
    let got: Vec<(String, u64)> = sorted.iter().map(|e| (e.path.clone(), e.rev)).collect();
    let expected: Vec<(String, u64)> = vec![("a", 2), ("a", 4), ("b", 1), ("b", 3), ("b", 5)]
        .into_iter()
        .map(|(p, r)| (p.to_string(), r))
        .collect();
    assert_eq!(got, expected);
}

#[test]
fn sort_entries_of_nothing_and_of_one() {
    assert!(sort_entries(Vec::new()).is_empty());
    let one = sort_entries(vec![entry("only", 7)]);
    assert_eq!(one, vec![entry("only", 7)]);
}

#[test]
fn file_entries_compare_by_their_fields() {
    assert_eq!(entry("a", 1), entry("a", 1));
    assert_ne!(entry("a", 1), entry("a", 2));
    assert_ne!(entry("a", 1), entry("b", 1));
    let mut other = entry("a", 1);
    other.hash = "ffffffffffffffff".to_string();
    assert_ne!(entry("a", 1), other);
}

#[test]
fn sort_entries_of_many() {
    let mut given: Vec<FileEntry> = Vec::new();
    let mut expected: Vec<(String, u64)> = Vec::new();
    for i in 0..200u64 {
        let path = format!("dir{}/file{}.lua", (i * 37) % 11, (i * 53) % 17);
        given.push(entry(&path, i));
        expected.push((path, i));
    }
    expected.sort_by(|a, b| a.0.cmp(&b.0));
    let got: Vec<(String, u64)> = sort_entries(given).into_iter().map(|e| (e.path, e.rev)).collect();
    assert_eq!(got, expected);
}
