use dirtree::assembler::{build, Assembler, TreeError};
use dirtree::entry::Entry;
use dirtree::tree::Tree;

fn dir(path: &str, depth: usize, parent: Option<&str>) -> Entry {
    Entry::new(path.to_string(), depth, parent.map(|p| p.to_string()), true, None)
}

fn file(path: &str, depth: usize, parent: &str, content: Option<&[u8]>) -> Entry {
    Entry::new(
        path.to_string(),
        depth,
        Some(parent.to_string()),
        false,
        content.map(|c| c.to_vec()),
    )
}

fn sorted_paths(entries: &[Entry]) -> Vec<String> {
    let mut v: Vec<String> = entries.iter().map(|e| e.path.clone()).collect();
    v.sort();
    v
}

fn child_paths_of(tree: &Tree, path: &str) -> Vec<String> {
    let mut stack = vec![tree.root()];
    while let Some(id) = stack.pop() {
        if tree.entry(id).path == path {
            let kids: Vec<Entry> = tree.children_ids(id).into_iter().map(|c| tree.entry(c)).collect();
            return sorted_paths(&kids);
        }
        stack.extend(tree.children_ids(id));
    }
    panic!("no node with path {path}");
}

fn scenario() -> Vec<Entry> {
    vec![
        dir("/r", 0, Some("/")),
        file("/r/a.txt", 1, "/r", None),
        dir("/r/b", 1, Some("/r")),
        file("/r/b/c.txt", 2, "/r/b", None),
    ]
}

#[test]
fn scenario_root_and_subdirectory() {
    let tree = build(&scenario()).unwrap();
    assert_eq!(sorted_paths(&tree.children_vec()), vec!["/r/a.txt", "/r/b"]);
    assert_eq!(child_paths_of(&tree, "/r/b"), vec!["/r/b/c.txt"]);
    assert_eq!(child_paths_of(&tree, "/r/a.txt"), Vec::<String>::new());
}

#[test]
fn scenario_any_arrival_order() {
    let s = scenario();
    let orders: [[usize; 4]; 4] = [[3, 2, 1, 0], [1, 3, 0, 2], [0, 3, 2, 1], [2, 3, 1, 0]];
    for order in orders {
        let recs: Vec<Entry> = order.iter().map(|&i| s[i].clone()).collect();
        let tree = build(&recs).unwrap();
        assert_eq!(sorted_paths(&tree.children_vec()), vec!["/r/a.txt", "/r/b"]);
        assert_eq!(child_paths_of(&tree, "/r/b"), vec!["/r/b/c.txt"]);
        assert_eq!(reachable(&tree), 4);
    }
}

fn reachable(tree: &Tree) -> usize {
    let mut stack = vec![tree.root()];
    let mut count = 0;
    while let Some(id) = stack.pop() {
        count += 1;
        stack.extend(tree.children_ids(id));
    }
    count
}

#[test]
fn child_before_parent_is_kept() {
    let recs = vec![
        file("/r/b/c.txt", 2, "/r/b", None),
        dir("/r", 0, None),
        dir("/r/b", 1, Some("/r")),
    ];
    let tree = build(&recs).unwrap();
    assert_eq!(child_paths_of(&tree, "/r/b"), vec!["/r/b/c.txt"]);
}

#[test]
fn root_children_keep_arrival_order() {
    let recs = vec![
        dir("/r", 0, None),
        file("/r/z", 1, "/r", None),
        file("/r/a", 1, "/r", None),
        file("/r/m", 1, "/r", None),
    ];
    let tree = build(&recs).unwrap();
    let got: Vec<String> = tree.children_vec().into_iter().map(|e| e.path).collect();
    assert_eq!(got, vec!["/r/z", "/r/a", "/r/m"]);
}

#[test]
fn missing_root_fails() {
    let recs = vec![file("/r/a", 1, "/r", None), dir("/r/b", 1, Some("/r"))];
    assert!(matches!(build(&recs), Err(TreeError::MissingRoot)));
    assert!(matches!(build(&Vec::new()), Err(TreeError::MissingRoot)));
}

#[test]
fn missing_parent_wins_over_missing_root() {
    let recs = vec![dir("/r/b", 1, None)];
    assert!(matches!(build(&recs), Err(TreeError::ExpectedParent)));
}

#[test]
fn missing_parent_fails() {
    let recs = vec![dir("/r", 0, None), dir("/r/b", 1, None)];
    assert!(matches!(build(&recs), Err(TreeError::ExpectedParent)));
}

#[test]
fn lone_root_has_no_children() {
    let tree = build(&vec![dir("/r", 0, None)]).unwrap();
    assert!(tree.children_vec().is_empty());
    assert_eq!(tree.entry(tree.root()).path, "/r");
}

#[test]
fn one_node_of_depth_zero() {
    let tree = build(&scenario()).unwrap();
    let mut stack = vec![tree.root()];
    let mut zero = 0;
    let mut count = 0;
    while let Some(id) = stack.pop() {
        count += 1;
        let e = tree.entry(id);
        if e.depth == 0 {
            zero += 1;
            assert_eq!(id, tree.root());
        }
        for c in tree.children_ids(id) {
            assert_eq!(tree.entry(c).depth, e.depth + 1);
            stack.push(c);
        }
    }
    assert_eq!(zero, 1);
    assert_eq!(count, 4);
}

#[test]
fn content_is_carried_unchanged() {
    let recs = vec![
        dir("/r", 0, None),
        file("/r/a", 1, "/r", Some(b"hello")),
        file("/r/b", 1, "/r", None),
    ];
    let tree = build(&recs).unwrap();
    let kids = tree.children_vec();
    assert_eq!(kids[0].content.as_deref(), Some(&b"hello"[..]));
    assert_eq!(kids[1].content, None);
    assert!(!kids[0].is_dir());
}

#[test]
fn assembler_step_by_step() {
    let mut acc = Assembler::new();
    for e in scenario() {
        acc.accept(e);
    }
    assert_eq!(acc.len(), 4);
    let tree = acc.finish().unwrap();
    assert_eq!(sorted_paths(&tree.children_vec()), vec!["/r/a.txt", "/r/b"]);
}

#[test]
fn entry_accessors() {
    let e = dir("/r/b", 1, Some("/r"));
    assert!(e.is_dir());
    assert_eq!(e.path(), "/r/b");
    assert_eq!(e.parent_path().map(|p| p.as_str()), Some("/r"));
    let d = e.duplicate();
    assert_eq!(d.path, e.path);
    assert_eq!(d.depth, 1);
}

#[test]
fn file_of_depth_zero_is_no_root() {
    let recs = vec![file("/r", 0, "/", None), file("/r/x", 1, "/r", None)];
    assert!(matches!(build(&recs), Err(TreeError::MissingRoot)));
}

#[test]
fn file_of_depth_zero_without_parent_lacks_a_parent() {
    let recs = vec![Entry::new("/f".to_string(), 0, None, false, None)];
    assert!(matches!(build(&recs), Err(TreeError::ExpectedParent)));
}

#[test]
fn file_of_depth_zero_is_filed_under_its_parent() {
    let recs = vec![dir("/r", 0, None), file("/r/x", 0, "/r", None), file("/r/y", 1, "/r/x", None)];
    let tree = build(&recs).unwrap();
    assert_eq!(sorted_paths(&tree.children_vec()), vec!["/r/x"]);
    assert_eq!(child_paths_of(&tree, "/r/x"), Vec::<String>::new());
    assert_eq!(reachable(&tree), 2);
}

fn edges(tree: &Tree) -> Vec<(String, String)> {
    let mut out = Vec::new();
    let mut stack = vec![tree.root()];
    while let Some(id) = stack.pop() {
        let parent = tree.entry(id).path;
        for c in tree.children_ids(id) {
            out.push((parent.clone(), tree.entry(c).path));
            stack.push(c);
        }
    }
    out.sort();
    out
}

#[test]
fn same_edges_in_any_order() {
    let s = scenario();
    let first = build(&s).unwrap();
    let reversed: Vec<Entry> = s.iter().rev().cloned().collect();
    let second = build(&reversed).unwrap();
    assert_eq!(edges(&first), edges(&second));
    assert_eq!(first.entry(first.root()).path, second.entry(second.root()).path);
    assert_eq!(
        edges(&first),
        vec![
            ("/r".to_string(), "/r/a.txt".to_string()),
            ("/r".to_string(), "/r/b".to_string()),
            ("/r/b".to_string(), "/r/b/c.txt".to_string()),
        ]
    );
}

#[test]
fn nodes_at_the_depth_limit_have_no_children() {
    let recs = vec![dir("/r", 0, None), dir("/r/b", 1, Some("/r")), file("/r/a", 1, "/r", None)];
    let tree = build(&recs).unwrap();
    for c in tree.children_ids(tree.root()) {
        assert_eq!(tree.entry(c).depth, 1);
        assert!(tree.children_ids(c).is_empty());
    }
}

#[test]
fn no_content_stays_no_content() {
    let tree = build(&scenario()).unwrap();
    let mut stack = vec![tree.root()];
    while let Some(id) = stack.pop() {
        assert!(tree.entry(id).content.is_none());
        stack.extend(tree.children_ids(id));
    }
}

#[test]
fn root_is_a_directory() {
    let tree = build(&scenario()).unwrap();
    assert!(tree.entry(tree.root()).is_dir());
    assert_eq!(tree.entry(tree.root()).depth, 0);
}

#[test]
fn nested_children_keep_arrival_order() {
    let recs = vec![
        file("/r/b/z", 2, "/r/b", None),
        dir("/r", 0, None),
        file("/r/b/a", 2, "/r/b", None),
        dir("/r/b", 1, Some("/r")),
        file("/r/b/m", 2, "/r/b", None),
    ];
    let tree = build(&recs).unwrap();
    let b = tree.children_ids(tree.root())[0];
    let got: Vec<String> = tree.children_ids(b).into_iter().map(|c| tree.entry(c).path).collect();
    assert_eq!(got, vec!["/r/b/z", "/r/b/a", "/r/b/m"]);
}
