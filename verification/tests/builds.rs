//! Whole builds, driven against a file system that lives in a table.

use filetree::error::{Cause, ErrorKind, FsError, Operation};
use filetree::node::FileNode;
use filetree::walk::{Entry, Event, Step, Walk};

/// What the table knows of one path.
struct Item {
    path: &'static str,
    canonical: Result<&'static str, Cause>,
    size: Result<u64, Cause>,
    dir: bool,
    list: Result<Vec<Result<&'static str, Cause>>, Cause>,
}

fn file(path: &'static str, canonical: &'static str, size: u64) -> Item {
    Item { path, canonical: Ok(canonical), size: Ok(size), dir: false, list: Err(Cause::Other) }
}

fn dir(path: &'static str, canonical: &'static str, size: u64, list: Vec<&'static str>) -> Item {
    Item {
        path,
        canonical: Ok(canonical),
        size: Ok(size),
        dir: true,
        list: Ok(list.into_iter().map(Ok).collect()),
    }
}

/// Answers one operation from the table; what the table does not know is not found.
fn answer(items: &[Item], op: Operation, target: &str) -> Event {
    match op {
        Operation::Canonicalize => match items.iter().find(|i| i.path == target) {
            None => Event::Failed(Cause::NotFound),
            Some(item) => match item.canonical {
                Ok(c) => Event::Canonical(c.to_string()),
                Err(cause) => Event::Failed(cause),
            },
        },
        Operation::Metadata => match items.iter().find(|i| i.canonical == Ok(target)) {
            None => Event::Failed(Cause::NotFound),
            Some(item) => match item.size {
                Ok(size) => Event::Size(size),
                Err(cause) => Event::Failed(cause),
            },
        },
        Operation::IsDir => Event::IsDir(items.iter().any(|i| i.path == target && i.dir)),
        Operation::ReadDir => match items.iter().find(|i| i.path == target) {
            None => Event::Failed(Cause::NotFound),
            Some(item) => match &item.list {
                Err(cause) => Event::Failed(*cause),
                Ok(list) => Event::Entries(
                    list.iter()
                        .map(|e| match e {
                            Ok(p) => Entry::Path(p.to_string()),
                            Err(cause) => Entry::Unreadable(*cause),
                        })
                        .collect(),
                ),
            },
        },
    }
}

/// Drives a walk of `path` to its end, and records what it asked for.
fn build_logged(
    items: &[Item],
    path: &str,
) -> (Result<FileNode, FsError>, Vec<(Operation, String)>) {
    let mut log = Vec::new();
    let mut walk = Walk::start(path.to_string());
    loop {
        let op = walk.operation();
        let target = walk.target().to_string();
        let event = answer(items, op, &target);
        log.push((op, target));
        match walk.step(event) {
            Step::Continue(next) => walk = next,
            Step::Done(tree) => return (Ok(tree), log),
            Step::Failed(error) => return (Err(error), log),
        }
    }
}

fn build(items: &[Item], path: &str) -> Result<FileNode, FsError> {
    build_logged(items, path).0
}

/// Checks what holds of every node: an absolute path without `.` or `..`
/// segments, and a name that is the path's final component.
fn check_nodes(node: &FileNode) {
    let path = node.path();
    assert!(path.starts_with('/'));
    let mut segments = path.split('/');
    assert_eq!(segments.next(), Some(""));
    let mut last = "";
    for segment in segments {
        assert!(!segment.is_empty());
        assert_ne!(segment, ".");
        assert_ne!(segment, "..");
        last = segment;
    }
    assert_eq!(node.name(), last);
    for child in node.children() {
        check_nodes(child);
    }
}

fn to_json(node: &FileNode) -> serde_json::Value {
    let mut map = serde_json::Map::new();
    map.insert("name".to_string(), serde_json::Value::String(node.name().to_string()));
    map.insert("path".to_string(), serde_json::Value::String(node.path().to_string()));
    map.insert("size".to_string(), serde_json::Value::Number(node.size().into()));
    map.insert(
        "children".to_string(),
        serde_json::Value::Array(node.children().iter().map(to_json).collect()),
    );
    serde_json::Value::Object(map)
}

fn node_modules() -> Vec<Item> {
    vec![
        dir(
            "./node_modules",
            "/work/node_modules",
            4096,
            vec!["./node_modules/left-pad", "./node_modules/.package-lock.json"],
        ),
        dir(
            "./node_modules/left-pad",
            "/work/node_modules/left-pad",
            4096,
            vec!["./node_modules/left-pad/index.js", "./node_modules/left-pad/package.json"],
        ),
        file("./node_modules/left-pad/index.js", "/work/node_modules/left-pad/index.js", 1108),
        file(
            "./node_modules/left-pad/package.json",
            "/work/node_modules/left-pad/package.json",
            747,
        ),
        file("./node_modules/.package-lock.json", "/work/node_modules/.package-lock.json", 312),
    ]
}

fn scenario() -> Vec<Item> {
    vec![
        dir("root", "/abs/root", 4096, vec!["root/a.txt", "root/b"]),
        file("root/a.txt", "/abs/root/a.txt", 12),
        dir("root/b", "/abs/root/b", 160, vec!["root/b/c.txt"]),
        file("root/b/c.txt", "/abs/root/b/c.txt", 5),
    ]
}

#[test]
fn test_output() {
    let tree = build(&node_modules(), "./node_modules").unwrap();
    println!("{}", serde_json::to_string(&to_json(&tree)).unwrap());
}

#[test]
fn output_has_the_four_keys_of_every_node() {
    let tree = build(&node_modules(), "./node_modules").unwrap();
    let json = to_json(&tree);
    assert_eq!(json["name"], "node_modules");
    assert_eq!(json["path"], "/work/node_modules");
    assert_eq!(json["size"], 4096);
    assert_eq!(json["children"].as_array().unwrap().len(), 2);
    assert_eq!(json["children"][0]["name"], "left-pad");
    assert_eq!(json["children"][0]["children"][1]["name"], "package.json");
    assert_eq!(json["children"][0]["children"][1]["size"], 747);
    assert_eq!(json["children"][1]["name"], ".package-lock.json");
    assert_eq!(json["children"][1]["children"].as_array().unwrap().len(), 0);
    assert_eq!(json.as_object().unwrap().len(), 4);
}

#[test]
fn output_of_a_file_is_one_record() {
    let tree = build(&scenario(), "root/a.txt").unwrap();
    assert_eq!(
        serde_json::to_string(&to_json(&tree)).unwrap(),
        "{\"children\":[],\"name\":\"a.txt\",\"path\":\"/abs/root/a.txt\",\"size\":12}"
    );
}

#[test]
fn scenario_root_with_a_file_and_a_directory() {
    let tree = build(&scenario(), "root").unwrap();
    assert_eq!(tree.name(), "root");
    assert_eq!(tree.path(), "/abs/root");
    assert_eq!(tree.size(), 4096);
    assert_eq!(tree.children().len(), 2);
    let a = &tree.children()[0];
    assert_eq!(a.name(), "a.txt");
    assert_eq!(a.path(), "/abs/root/a.txt");
    assert_eq!(a.size(), 12);
    assert!(a.children().is_empty());
    let b = &tree.children()[1];
    assert_eq!(b.name(), "b");
    assert_eq!(b.size(), 160);
    assert_eq!(b.children().len(), 1);
    let c = &b.children()[0];
    assert_eq!(c.name(), "c.txt");
    assert_eq!(c.size(), 5);
    assert!(c.children().is_empty());
}

#[test]
fn scenario_asks_in_depth_first_order() {
    let (tree, log) = build_logged(&scenario(), "root");
    assert!(tree.is_ok());
    let asked: Vec<(Operation, &str)> = log.iter().map(|(op, t)| (*op, t.as_str())).collect();
    assert_eq!(
        asked,
        vec![
            (Operation::Canonicalize, "root"),
            (Operation::Metadata, "/abs/root"),
            (Operation::IsDir, "root"),
            (Operation::ReadDir, "root"),
            (Operation::Canonicalize, "root/a.txt"),
            (Operation::Metadata, "/abs/root/a.txt"),
            (Operation::IsDir, "root/a.txt"),
            (Operation::Canonicalize, "root/b"),
            (Operation::Metadata, "/abs/root/b"),
            (Operation::IsDir, "root/b"),
            (Operation::ReadDir, "root/b"),
            (Operation::Canonicalize, "root/b/c.txt"),
            (Operation::Metadata, "/abs/root/b/c.txt"),
            (Operation::IsDir, "root/b/c.txt"),
        ]
    );
}

#[test]
fn flat_directory_has_one_child_per_entry_with_its_size() {
    let items = vec![
        dir("/d", "/d", 4096, vec!["/d/one", "/d/two", "/d/three", "/d/empty"]),
        file("/d/one", "/d/one", 1),
        file("/d/two", "/d/two", 22),
        file("/d/three", "/d/three", 18_446_744_073_709_551_615),
        file("/d/empty", "/d/empty", 0),
    ];
    let tree = build(&items, "/d").unwrap();
    assert_eq!(tree.children().len(), 4);
    let sizes: Vec<u64> = tree.children().iter().map(|c| c.size()).collect();
    assert_eq!(sizes, vec![1, 22, 18_446_744_073_709_551_615, 0]);
    let names: Vec<&str> = tree.children().iter().map(|c| c.name()).collect();
    assert_eq!(names, vec!["one", "two", "three", "empty"]);
    assert!(tree.children().iter().all(|c| c.children().is_empty()));
}

#[test]
fn children_keep_the_order_of_enumeration() {
    let items = vec![
        dir("/d", "/d", 10, vec!["/d/z", "/d/a", "/d/m"]),
        file("/d/z", "/d/z", 1),
        file("/d/a", "/d/a", 2),
        file("/d/m", "/d/m", 3),
    ];
    let tree = build(&items, "/d").unwrap();
    let names: Vec<&str> = tree.children().iter().map(|c| c.name()).collect();
    assert_eq!(names, vec!["z", "a", "m"]);
}

#[test]
fn nested_file_is_found_two_levels_down() {
    let items = vec![
        dir("d", "/w/d", 4096, vec!["d/e"]),
        dir("d/e", "/w/d/e", 4096, vec!["d/e/f.txt"]),
        file("d/e/f.txt", "/w/d/e/f.txt", 3),
    ];
    let tree = build(&items, "d").unwrap();
    assert_eq!(tree.children()[0].children()[0].name(), "f.txt");
    assert!(tree.children()[0].children()[0].children().is_empty());
    assert_eq!(tree.children()[0].name(), "e");
    assert_eq!(tree.children().len(), 1);
}

#[test]
fn every_node_has_a_canonical_path_and_its_name() {
    check_nodes(&build(&scenario(), "root").unwrap());
    check_nodes(&build(&node_modules(), "./node_modules").unwrap());
}

#[test]
fn empty_directory_has_no_children() {
    let items = vec![dir("/empty", "/empty", 64, vec![])];
    let (tree, log) = build_logged(&items, "/empty");
    let tree = tree.unwrap();
    assert_eq!(tree.name(), "empty");
    assert_eq!(tree.size(), 64);
    assert_eq!(tree.children().len(), 0);
    assert_eq!(log.len(), 4);
}

#[test]
fn empty_directory_inside_a_directory_is_followed_by_its_siblings() {
    let items = vec![
        dir("/d", "/d", 1, vec!["/d/empty", "/d/after"]),
        dir("/d/empty", "/d/empty", 2, vec![]),
        file("/d/after", "/d/after", 3),
    ];
    let tree = build(&items, "/d").unwrap();
    assert_eq!(tree.children().len(), 2);
    assert_eq!(tree.children()[0].name(), "empty");
    assert!(tree.children()[0].children().is_empty());
    assert_eq!(tree.children()[1].name(), "after");
}

#[test]
fn last_entry_of_a_nested_directory_closes_all_its_parents() {
    let items = vec![
        dir("/a", "/a", 1, vec!["/a/b"]),
        dir("/a/b", "/a/b", 2, vec!["/a/b/c"]),
        dir("/a/b/c", "/a/b/c", 3, vec!["/a/b/c/d"]),
        file("/a/b/c/d", "/a/b/c/d", 4),
    ];
    let tree = build(&items, "/a").unwrap();
    let d = &tree.children()[0].children()[0].children()[0];
    assert_eq!(d.path(), "/a/b/c/d");
    assert_eq!(d.size(), 4);
}

#[test]
fn missing_root_is_not_found() {
    let error = build(&scenario(), "nowhere").unwrap_err();
    assert_eq!(error.kind(), ErrorKind::NotFound);
    assert_eq!(error.path(), "nowhere");
}

#[test]
fn deleted_entry_fails_the_whole_build() {
    let items = vec![
        dir("root", "/abs/root", 4096, vec!["root/a.txt", "root/gone", "root/z.txt"]),
        file("root/a.txt", "/abs/root/a.txt", 12),
        file("root/z.txt", "/abs/root/z.txt", 1),
    ];
    let (built, log) = build_logged(&items, "root");
    let error = built.unwrap_err();
    assert_eq!(error.kind(), ErrorKind::NotFound);
    assert_eq!(error.path(), "root/gone");
    assert_eq!(log.last().unwrap(), &(Operation::Canonicalize, "root/gone".to_string()));
    assert!(!log.iter().any(|(_, target)| target == "root/z.txt"));
}

#[test]
fn unreadable_descendant_fails_the_whole_build() {
    let mut items = scenario();
    items[3].size = Err(Cause::PermissionDenied);
    let error = build(&items, "root").unwrap_err();
    assert_eq!(error.kind(), ErrorKind::PermissionDenied);
    assert_eq!(error.path(), "/abs/root/b/c.txt");
}

#[test]
fn directory_that_cannot_be_listed_fails_the_whole_build() {
    let mut items = scenario();
    items[2].list = Err(Cause::PermissionDenied);
    let error = build(&items, "root").unwrap_err();
    assert_eq!(error.kind(), ErrorKind::PermissionDenied);
    assert_eq!(error.path(), "root/b");
}

#[test]
fn listing_that_fails_otherwise_is_an_io_error() {
    let mut items = scenario();
    items[0].list = Err(Cause::Other);
    let error = build(&items, "root").unwrap_err();
    assert_eq!(error.kind(), ErrorKind::IoError);
    assert_eq!(error.path(), "root");
}

#[test]
fn size_that_fails_otherwise_is_an_io_error() {
    let mut items = scenario();
    items[0].size = Err(Cause::Other);
    let error = build(&items, "root").unwrap_err();
    assert_eq!(error.kind(), ErrorKind::IoError);
    assert_eq!(error.path(), "/abs/root");
}

#[test]
fn dangling_link_is_a_canonicalization_failure() {
    let mut items = scenario();
    items[1].canonical = Err(Cause::Dangling);
    let error = build(&items, "root").unwrap_err();
    assert_eq!(error.kind(), ErrorKind::CanonicalizationFailure);
    assert_eq!(error.path(), "root/a.txt");
}

#[test]
fn link_cycle_is_a_canonicalization_failure() {
    let mut items = scenario();
    items[3].canonical = Err(Cause::Other);
    let error = build(&items, "root").unwrap_err();
    assert_eq!(error.kind(), ErrorKind::CanonicalizationFailure);
    assert_eq!(error.path(), "root/b/c.txt");
}

#[test]
fn enumeration_that_fails_at_an_item_fails_after_the_items_before_it() {
    let mut items = scenario();
    items[0].list = Ok(vec![Ok("root/a.txt"), Err(Cause::Other), Ok("root/b")]);
    let (built, log) = build_logged(&items, "root");
    let error = built.unwrap_err();
    assert_eq!(error.kind(), ErrorKind::IoError);
    assert_eq!(error.path(), "root");
    assert_eq!(log.len(), 7);
    assert_eq!(log[6], (Operation::IsDir, "root/a.txt".to_string()));
}

#[test]
fn failure_of_an_earlier_entry_comes_first() {
    let mut items = scenario();
    items[0].list = Ok(vec![Ok("root/missing"), Err(Cause::PermissionDenied)]);
    let error = build(&items, "root").unwrap_err();
    assert_eq!(error.kind(), ErrorKind::NotFound);
    assert_eq!(error.path(), "root/missing");
}

#[test]
fn relative_and_absolute_requests_build_the_same_tree() {
    let items = vec![
        dir("./subdir", "/w/subdir", 4096, vec!["./subdir/x", "./subdir/y"]),
        file("./subdir/x", "/w/subdir/x", 7),
        dir("./subdir/y", "/w/subdir/y", 9, vec![]),
        dir("/w/subdir", "/w/subdir", 4096, vec!["/w/subdir/x", "/w/subdir/y"]),
        file("/w/subdir/x", "/w/subdir/x", 7),
        dir("/w/subdir/y", "/w/subdir/y", 9, vec![]),
    ];
    let relative = build(&items, "./subdir").unwrap();
    let absolute = build(&items, "/w/subdir").unwrap();
    assert_eq!(relative.path(), "/w/subdir");
    assert_eq!(relative, absolute);
}

#[test]
fn link_keeps_the_path_it_resolves_to() {
    let items = vec![
        dir("/d", "/d", 1, vec!["/d/link"]),
        file("/d/link", "/elsewhere/target.txt", 33),
    ];
    let tree = build(&items, "/d").unwrap();
    assert_eq!(tree.children()[0].name(), "target.txt");
    assert_eq!(tree.children()[0].path(), "/elsewhere/target.txt");
    assert_eq!(tree.children()[0].size(), 33);
}

#[test]
fn directory_is_tested_on_the_path_as_given() {
    // The canonical path is known to the table as a directory; the path
    // that was asked for is not, so it is not entered.
    let items = vec![
        file("alias", "/real", 5),
        dir("/real", "/real", 5, vec!["/real/inside"]),
        file("/real/inside", "/real/inside", 1),
    ];
    let tree = build(&items, "alias").unwrap();
    assert_eq!(tree.path(), "/real");
    assert!(tree.children().is_empty());
}

#[test]
fn answers_that_are_not_canonical_are_refused() {
    let refused =
        ["", "relative/path", "/", "/a/", "/a//b", "/a/./b", "/a/../b", "/..", "/.", "a", "./a"];
    for bad in refused {
        let walk = Walk::start("asked".to_string());
        match walk.step(Event::Canonical(bad.to_string())) {
            Step::Failed(error) => {
                assert_eq!(error.kind(), ErrorKind::CanonicalizationFailure, "{:?}", bad);
                assert_eq!(error.path(), "asked");
            }
            other => panic!("{:?} was taken: {:?}", bad, other),
        }
    }
}

#[test]
fn answers_that_are_canonical_are_taken() {
    let taken =
        ["/a", "/a/b", "/...", "/a/.b", "/a/b..", "/.a/..b/c.d", "/a b/c", "/\u{e9}t\u{e9}/\u{1f600}"];
    for good in taken {
        let walk = Walk::start("asked".to_string());
        match walk.step(Event::Canonical(good.to_string())) {
            Step::Continue(next) => {
                assert_eq!(next.operation(), Operation::Metadata);
                assert_eq!(next.target(), good);
            }
            other => panic!("{:?} was refused: {:?}", good, other),
        }
    }
}

#[test]
fn walk_starts_by_resolving_the_path() {
    let walk = Walk::start("some/where".to_string());
    assert_eq!(walk.operation(), Operation::Canonicalize);
    assert_eq!(walk.target(), "some/where");
}

#[test]
fn answer_to_another_operation_counts_as_a_failure() {
    let resolving = Walk::start("p".to_string());
    match resolving.step(Event::Size(3)) {
        Step::Failed(error) => {
            assert_eq!(error.kind(), ErrorKind::CanonicalizationFailure);
            assert_eq!(error.path(), "p");
        }
        other => panic!("{:?}", other),
    }
    let sizing = match Walk::start("p".to_string()).step(Event::Canonical("/p".to_string())) {
        Step::Continue(walk) => walk,
        other => panic!("{:?}", other),
    };
    match sizing.step(Event::IsDir(true)) {
        Step::Failed(error) => {
            assert_eq!(error.kind(), ErrorKind::IoError);
            assert_eq!(error.path(), "/p");
        }
        other => panic!("{:?}", other),
    }
}

#[test]
fn failure_ends_the_walk_in_every_phase() {
    let causes = [Cause::NotFound, Cause::PermissionDenied, Cause::Dangling, Cause::Other];
    for cause in causes {
        // Resolving.
        assert!(matches!(Walk::start("p".to_string()).step(Event::Failed(cause)), Step::Failed(_)));
        // Sizing.
        let walk = match Walk::start("p".to_string()).step(Event::Canonical("/p".to_string())) {
            Step::Continue(walk) => walk,
            other => panic!("{:?}", other),
        };
        assert!(matches!(walk.step(Event::Failed(cause)), Step::Failed(_)));
        // Testing for a directory.
        let walk = match Walk::start("p".to_string()).step(Event::Canonical("/p".to_string())) {
            Step::Continue(walk) => match walk.step(Event::Size(1)) {
                Step::Continue(walk) => walk,
                other => panic!("{:?}", other),
            },
            other => panic!("{:?}", other),
        };
        assert_eq!(walk.operation(), Operation::IsDir);
        assert!(matches!(walk.step(Event::Failed(cause)), Step::Failed(_)));
    }
}

#[test]
fn deep_nesting_is_walked_without_recursion() {
    let depth: usize = 300;
    let mut paths: Vec<String> = Vec::new();
    let mut path = String::from("/n");
    for _ in 0..depth {
        paths.push(path.clone());
        path.push_str("/n");
    }
    let mut walk = Walk::start(paths[0].clone());
    let mut level: usize = 0;
    let tree = loop {
        let event = match walk.operation() {
            Operation::Canonicalize => Event::Canonical(walk.target().to_string()),
            Operation::Metadata => Event::Size(level as u64),
            Operation::IsDir => Event::IsDir(true),
            Operation::ReadDir => {
                level += 1;
                if level < depth {
                    Event::Entries(vec![Entry::Path(paths[level].clone())])
                } else {
                    Event::Entries(vec![])
                }
            }
        };
        match walk.step(event) {
            Step::Continue(next) => walk = next,
            Step::Done(tree) => break tree,
            Step::Failed(error) => panic!("{:?}", error),
        }
    };
    let mut node = &tree;
    let mut seen: usize = 1;
    while let Some(child) = node.children().first() {
        assert_eq!(child.size(), seen as u64);
        node = child;
        seen += 1;
    }
    assert_eq!(seen, depth);
}
