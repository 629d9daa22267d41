use reposcan::lines::split_lines;
use reposcan::scan::child_paths;
use reposcan::scan::discover;
use reposcan::scan::has_exclusion_marker;
use reposcan::scan::is_repository_root;
use reposcan::scan::join_path;
use reposcan::scan::listing_of;
use reposcan::scan::tree_marker_content;
use reposcan::scan::DirEntry;
use reposcan::scan::EntryKind;
use reposcan::scan::FsEntry;
use reposcan::scan::FsTree;
use reposcan::scan::Scanner;

fn cv(s: &str) -> Vec<char> {
    s.chars().collect()
}

fn cs(v: &[char]) -> String {
    v.iter().collect()
}

fn dir(name: &str, children: Vec<FsEntry>) -> FsEntry {
    FsEntry { name: cv(name), tree: FsTree::Directory(children) }
}

fn file(name: &str, content: &str) -> FsEntry {
    FsEntry { name: cv(name), tree: FsTree::File(cv(content)) }
}

fn found_paths(tree: &FsTree) -> Vec<String> {
    discover(tree)
        .into_iter()
        .map(|p| p.iter().map(|c| cs(c)).collect::<Vec<String>>().join("/"))
        .collect()
}

#[test]
fn scan_stops_at_repository_root() {
    // `a` holds `.git` and also a nested repository `a/b`; only `a` is found.
    let tree = FsTree::Directory(vec![dir(
        "a",
        vec![dir(".git", vec![]), dir("b", vec![dir(".git", vec![])])],
    )]);
    let paths = found_paths(&tree);
    assert_eq!(paths, vec!["a".to_string()]);
}

#[test]
fn scan_finds_siblings_but_not_nested() {
    let tree = FsTree::Directory(vec![
        dir("a", vec![dir(".git", vec![]), dir("vendored", vec![dir(".git", vec![])])]),
        dir("c", vec![dir(".git", vec![])]),
    ]);
    let mut paths = found_paths(&tree);
    paths.sort();
    assert_eq!(paths, vec!["a".to_string(), "c".to_string()]);
}

#[test]
fn exclusion_marker_hides_subtree() {
    // The marker lists `x`; the repository below `x` must not be found,
    // even though `x` itself is a repository root.
    let tree = FsTree::Directory(vec![
        file(".reposcanignore", "x\n"),
        dir("x", vec![dir(".git", vec![]), dir("sub", vec![dir(".git", vec![])])]),
        dir("y", vec![dir(".git", vec![])]),
    ]);
    let paths = found_paths(&tree);
    assert_eq!(paths, vec!["y".to_string()]);
}

#[test]
fn exclusion_marker_position_does_not_matter() {
    let marker_first = FsTree::Directory(vec![
        file(".reposcanignore", "x\n"),
        dir("x", vec![dir(".git", vec![])]),
    ]);
    let marker_last = FsTree::Directory(vec![
        dir("x", vec![dir(".git", vec![])]),
        file(".reposcanignore", "x\n"),
    ]);
    assert!(found_paths(&marker_first).is_empty());
    assert!(found_paths(&marker_last).is_empty());
}

#[test]
fn empty_directory_yields_nothing() {
    let tree = FsTree::Directory(vec![]);
    assert!(found_paths(&tree).is_empty());
}

#[test]
fn marker_only_directory_yields_nothing() {
    let tree = FsTree::Directory(vec![file(".reposcanignore", "a\nb\n")]);
    assert!(found_paths(&tree).is_empty());
}

#[test]
fn repository_root_is_the_directory_itself() {
    let tree = FsTree::Directory(vec![dir(".git", vec![]), dir("other", vec![])]);
    let results = discover(&tree);
    assert_eq!(results.len(), 1);
    assert!(results[0].is_empty());
}

#[test]
fn git_file_is_not_a_root_marker() {
    // Only a directory named `.git` marks a root; a file does not.
    let tree = FsTree::Directory(vec![file(".git", ""), dir("a", vec![dir(".git", vec![])])]);
    let paths = found_paths(&tree);
    assert_eq!(paths, vec!["a".to_string()]);
}

#[test]
fn listing_classification_primitives() {
    let entries = vec![
        DirEntry { name: cv(".git"), kind: EntryKind::Directory },
        DirEntry { name: cv("src"), kind: EntryKind::Directory },
    ];
    assert!(is_repository_root(&entries));
    assert!(!has_exclusion_marker(&entries));

    let entries = vec![
        DirEntry { name: cv(".reposcanignore"), kind: EntryKind::File },
        DirEntry { name: cv(".git"), kind: EntryKind::File },
    ];
    assert!(!is_repository_root(&entries));
    assert!(has_exclusion_marker(&entries));
}

#[test]
fn child_paths_filters_and_joins() {
    let entries = vec![
        DirEntry { name: cv("keep"), kind: EntryKind::Directory },
        DirEntry { name: cv("skip"), kind: EntryKind::Directory },
        DirEntry { name: cv("plain"), kind: EntryKind::File },
    ];
    let excluded = vec![cv("skip")];
    let children = child_paths(&cv("/top"), &entries, &excluded);
    assert_eq!(children.len(), 1);
    assert_eq!(cs(&children[0]), "/top/keep");
}

#[test]
fn join_path_inserts_separator() {
    assert_eq!(cs(&join_path(&cv("/a/b"), &cv("c"))), "/a/b/c");
}

#[test]
fn scanner_walks_and_records_roots() {
    // Drive the worklist by hand over a small two-level layout:
    // /w contains `a` (a repository) and `b` (an ordinary directory).
    let mut scanner = Scanner::new(cv("/w"));
    let mut found_none = 0;
    while let Some(path) = scanner.next_directory() {
        let p = cs(&path);
        let entries = match p.as_str() {
            "/w" => vec![
                DirEntry { name: cv("a"), kind: EntryKind::Directory },
                DirEntry { name: cv("b"), kind: EntryKind::Directory },
            ],
            "/w/a" => vec![DirEntry { name: cv(".git"), kind: EntryKind::Directory }],
            "/w/b" => vec![],
            _ => panic!("unexpected directory visited: {}", p),
        };
        if entries.is_empty() {
            found_none += 1;
        }
        scanner.visit(path, &entries, &Vec::new());
    }
    assert_eq!(found_none, 1);
    let found: Vec<String> = scanner.into_found().iter().map(|p| cs(p)).collect();
    assert_eq!(found, vec!["/w/a".to_string()]);
}

fn resolve<'a>(t: &'a FsTree, rel: &str) -> &'a FsTree {
    let mut node = t;
    for comp in rel.split('/').filter(|c| !c.is_empty()) {
        let FsTree::Directory(children) = node else {
            panic!("resolved into a file")
        };
        node = &children.iter().find(|e| cs(&e.name) == comp).unwrap().tree;
    }
    node
}

#[test]
fn scanner_agrees_with_tree_scan() {
    // The worklist scanner, fed the listings of a model tree, finds the
    // same repositories as scanning the tree directly.
    let tree = FsTree::Directory(vec![
        dir("a", vec![dir(".git", vec![]), dir("inner", vec![dir(".git", vec![])])]),
        dir(
            "b",
            vec![
                file(".reposcanignore", "skipped\n"),
                dir("skipped", vec![dir(".git", vec![])]),
                dir("kept", vec![dir(".git", vec![])]),
            ],
        ),
        file("note", "plain file"),
    ]);

    let mut expected: Vec<String> = discover(&tree)
        .iter()
        .map(|p| {
            let mut s = String::from("/root");
            for comp in p {
                s.push('/');
                s.push_str(&cs(comp));
            }
            s
        })
        .collect();
    expected.sort();

    let mut scanner = Scanner::new(cv("/root"));
    while let Some(path) = scanner.next_directory() {
        let rel = cs(&path)["/root".len()..].to_string();
        let FsTree::Directory(children) = resolve(&tree, &rel) else {
            panic!("scanner asked for a non-directory")
        };
        let entries = listing_of(children);
        let excluded = match tree_marker_content(children) {
            Some(content) => split_lines(&content),
            None => Vec::new(),
        };
        scanner.visit(path, &entries, &excluded);
    }
    let mut found: Vec<String> = scanner.into_found().iter().map(|p| cs(p)).collect();
    found.sort();
    assert_eq!(found, expected);
    assert_eq!(found, vec!["/root/a".to_string(), "/root/b/kept".to_string()]);
}

#[test]
fn scanner_does_not_descend_into_roots() {
    // The root listing holds `.git`: nothing else may be enqueued.
    let mut scanner = Scanner::new(cv("/repo"));
    let path = scanner.next_directory().unwrap();
    let entries = vec![
        DirEntry { name: cv(".git"), kind: EntryKind::Directory },
        DirEntry { name: cv("nested"), kind: EntryKind::Directory },
    ];
    scanner.visit(path, &entries, &Vec::new());
    assert!(scanner.next_directory().is_none());
}
