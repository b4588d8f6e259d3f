use save_backup::config_types::FileList;
use save_backup::walk::DirEntryInfo;

fn listing(entries: &[(&str, bool)]) -> Vec<DirEntryInfo> {
    entries
        .iter()
        .map(|(n, d)| DirEntryInfo { name: n.to_string(), is_dir: *d })
        .collect()
}

/// Drives a walk over an in-memory directory tree, recording which
/// directories the walk asked to read.
fn walk_files(
    list: &FileList,
    picks_are_dirs: &Vec<bool>,
    tree: &[(&str, &[(&str, bool)])],
    visited: &mut Vec<String>,
) -> Vec<String> {
    let mut w = list.start_walk(picks_are_dirs);
    while let Some(d) = w.next_dir() {
        visited.push(d.clone());
        match tree.iter().find(|(p, _)| *p == d.as_str()) {
            Some((_, entries)) => w.supply_listing(&listing(entries)),
            None => w.skip_dir(),
        }
    }
    w.files()
}

const TEST_LIST: &[(&str, &[(&str, bool)])] = &[
    ("./test/test_list", &[("file1", false), ("folder1", true), ("folder3", true)]),
    ("./test/test_list/folder1", &[("file2", false), ("folder2", true)]),
    ("./test/test_list/folder1/folder2", &[("file3", false)]),
    ("./test/test_list/folder3", &[("file4", false)]),
];

#[test]
fn test_file_list_only_root() {
    let file_list = FileList::new("./test/test_list", None, None);
    let mut visited = Vec::new();
    let mut files = walk_files(&file_list, &vec![], TEST_LIST, &mut visited);
    let mut expected = vec![
        "./test/test_list/file1".to_string(),
        "./test/test_list/folder3/file4".to_string(),
        "./test/test_list/folder1/file2".to_string(),
        "./test/test_list/folder1/folder2/file3".to_string(),
    ];
    files.sort();
    expected.sort();
    assert_eq!(files, expected)
}

#[test]
fn test_file_list_excludes() {
    let exclude = vec!["folder3".to_owned()];
    let file_list = FileList::new("./test/test_list", None, Some(exclude));
    let mut visited = Vec::new();
    let mut files = walk_files(&file_list, &vec![], TEST_LIST, &mut visited);
    let mut expected = vec![
        "./test/test_list/file1".to_string(),
        "./test/test_list/folder1/file2".to_string(),
        "./test/test_list/folder1/folder2/file3".to_string(),
    ];
    files.sort();
    expected.sort();
    assert_eq!(files, expected);
    // the excluded subtree was never even visited
    assert!(!visited.contains(&"./test/test_list/folder3".to_string()));
}

#[test]
fn test_file_list_only_root_twice() {
    let file_list = FileList::new("./test/test_list", None, None);
    let mut visited = Vec::new();
    let files = walk_files(&file_list, &vec![], TEST_LIST, &mut visited);
    let files2 = walk_files(&file_list, &vec![], TEST_LIST, &mut visited);
    assert_eq!(files, files2);
}

#[test]
fn test_file_list_list() {
    let picked = vec!["folder1".to_string(), "file1".to_string()];
    let exclude = vec!["folder1/folder2".to_string()];
    let file_list = FileList::new("./test/test_list", Some(picked), Some(exclude));
    let mut visited = Vec::new();
    let mut files = walk_files(&file_list, &vec![true, false], TEST_LIST, &mut visited);
    let mut expected = vec![
        "./test/test_list/file1".to_string(),
        "./test/test_list/folder1/file2".to_string(),
    ];
    files.sort();
    expected.sort();
    assert_eq!(files, expected)
}

#[test]
fn enumerates_whole_root() {
    let tree: &[(&str, &[(&str, bool)])] = &[
        ("./src", &[("file1", false), ("folder", true)]),
        ("./src/folder", &[("file2", false)]),
    ];
    let file_list = FileList::new("./src", None, None);
    let mut visited = Vec::new();
    let mut files = walk_files(&file_list, &vec![], tree, &mut visited);
    files.sort();
    assert_eq!(files, vec!["./src/file1".to_string(), "./src/folder/file2".to_string()]);
}

#[test]
fn exclude_prunes_subtree() {
    let tree: &[(&str, &[(&str, bool)])] = &[
        ("./src", &[("file1", false), ("folder", true)]),
        ("./src/folder", &[("file2", false)]),
    ];
    let file_list = FileList::new("./src", None, Some(vec!["folder".to_string()]));
    let mut visited = Vec::new();
    let files = walk_files(&file_list, &vec![], tree, &mut visited);
    assert_eq!(files, vec!["./src/file1".to_string()]);
    assert!(!visited.contains(&"./src/folder".to_string()));
}

#[test]
fn backslash_excludes_match_forward_slashes() {
    let tree: &[(&str, &[(&str, bool)])] = &[
        ("root", &[("sub", true), ("keep.txt", false)]),
        ("root/sub", &[("dir", true), ("lost.txt", false)]),
        ("root/sub/dir", &[("deep.txt", false)]),
    ];
    let file_list = FileList::new("root", None, Some(vec!["sub\\dir".to_string()]));
    let mut visited = Vec::new();
    let mut files = walk_files(&file_list, &vec![], tree, &mut visited);
    files.sort();
    assert_eq!(files, vec!["root/keep.txt".to_string(), "root/sub/lost.txt".to_string()]);
    assert!(!visited.contains(&"root/sub/dir".to_string()));
}
