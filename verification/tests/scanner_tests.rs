use file_explorer::drive::list_children;
use file_explorer::pattern::CompiledPattern;
use file_explorer::scanner::Scanner;
use file_explorer::tree::{scan, Entry, Node, NodeKind, RawEntry, ReadError};

fn matcher(pattern: &str) -> CompiledPattern {
    CompiledPattern::compile(pattern).ok().unwrap()
}

fn failure() -> Result<Vec<Entry>, ReadError> {
    Err(ReadError { reason: "permission denied".to_string() })
}

fn results(scanner: Scanner) -> Vec<String> {
    match scanner.finish() {
        Ok(found) => found,
        Err(s) => panic!("still waiting for {:?}", s.pending()),
    }
}

fn find<'a>(node: &'a Node, path: &str) -> Option<&'a Node> {
    if node.path == path {
        return Some(node);
    }
    if let NodeKind::Directory(children) = &node.kind {
        for child in children {
            if let Some(hit) = find(child, path) {
                return Some(hit);
            }
        }
    }
    None
}

fn run(root: &Node, pattern: &str) -> Vec<String> {
    let mut scanner = Scanner::new(root.path.clone(), matcher(pattern));
    let mut steps: u32 = 0;
    while !scanner.is_done() {
        let dir = scanner.pending().unwrap().to_string();
        let listing = match find(root, &dir) {
            Some(node) => list_children(node),
            None => failure(),
        };
        scanner.supply(listing);
        steps += 1;
        assert!(steps < 1000);
    }
    results(scanner)
}

fn sample() -> Node {
    Node::directory(
        "a",
        "/a",
        vec![
            Node::file("foo.txt", "/a/foo.txt"),
            Node::directory("Foo", "/a/Foo", vec![Node::file("bar.txt", "/a/Foo/bar.txt")]),
            Node::directory("baz", "/a/baz", vec![Node::file("qux.txt", "/a/baz/qux.txt")]),
        ],
    )
}

#[test]
fn new_scanner_waits_for_the_root() {
    let scanner = Scanner::new("/a".to_string(), matcher("foo"));
    assert_eq!(scanner.pending(), Some("/a"));
    assert!(!scanner.is_done());
    assert_eq!(scanner.matcher().pattern(), "foo");
}

#[test]
fn unfinished_scanner_gives_no_result() {
    let scanner = Scanner::new("/a".to_string(), matcher("foo"));
    match scanner.finish() {
        Ok(found) => panic!("a result came back early: {:?}", found),
        Err(same) => assert_eq!(same.pending(), Some("/a")),
    }
}

#[test]
fn unreadable_root_ends_the_search_empty() {
    let mut scanner = Scanner::new("/gone".to_string(), matcher(""));
    scanner.supply(failure());
    assert!(scanner.is_done());
    assert_eq!(scanner.pending(), None);
    assert_eq!(results(scanner), Vec::<String>::new());
}

#[test]
fn files_only_are_examined_in_one_step() {
    let mut scanner = Scanner::new("/a".to_string(), matcher("o"));
    scanner.supply(Ok(vec![
        Entry::new("one", "/a/one", false),
        Entry::new("two", "/a/two", false),
        Entry::new("six", "/a/six", false),
        Entry::new("four", "/a/four", false),
    ]));
    assert!(scanner.is_done());
    assert_eq!(results(scanner), vec!["/a/one", "/a/two", "/a/four"]);
}

#[test]
fn scanner_stops_at_each_directory_in_depth_first_order() {
    let mut scanner = Scanner::new("/r".to_string(), matcher("x"));
    scanner.supply(Ok(vec![
        Entry::new("x0", "/r/x0", false),
        Entry::new("x1", "/r/x1", true),
        Entry::new("x5", "/r/x5", false),
        Entry::new("d6", "/r/d6", true),
        Entry::new("x8", "/r/x8", false),
    ]));
    assert_eq!(scanner.pending(), Some("/r/x1"));
    scanner.supply(Ok(vec![
        Entry::new("x2", "/r/x1/x2", true),
        Entry::new("x4", "/r/x1/x4", false),
    ]));
    assert_eq!(scanner.pending(), Some("/r/x1/x2"));
    scanner.supply(Ok(vec![Entry::new("x3", "/r/x1/x2/x3", false)]));
    assert_eq!(scanner.pending(), Some("/r/d6"));
    scanner.supply(Ok(vec![Entry::new("x7", "/r/d6/x7", false)]));
    assert_eq!(scanner.pending(), None);
    assert_eq!(
        results(scanner),
        vec![
            "/r/x0", "/r/x1", "/r/x1/x2", "/r/x1/x2/x3", "/r/x1/x4", "/r/x5", "/r/d6/x7",
            "/r/x8"
        ]
    );
}

#[test]
fn failed_listing_closes_only_its_branch() {
    let mut scanner = Scanner::new("/r".to_string(), matcher(""));
    scanner.supply(Ok(vec![
        Entry::new("a", "/r/a", true),
        Entry::new("b", "/r/b", true),
        Entry::new("c", "/r/c", false),
    ]));
    assert_eq!(scanner.pending(), Some("/r/a"));
    scanner.supply(failure());
    assert_eq!(scanner.pending(), Some("/r/b"));
    scanner.supply(Ok(vec![Entry::new("d", "/r/b/d", false)]));
    assert!(scanner.is_done());
    assert_eq!(results(scanner), vec!["/r/a", "/r/b", "/r/b/d", "/r/c"]);
}

#[test]
fn empty_listing_goes_on_with_the_siblings() {
    let mut scanner = Scanner::new("/r".to_string(), matcher("b"));
    scanner.supply(Ok(vec![Entry::new("a", "/r/a", true), Entry::new("b", "/r/b", false)]));
    assert_eq!(scanner.pending(), Some("/r/a"));
    scanner.supply(Ok(vec![]));
    assert!(scanner.is_done());
    assert_eq!(results(scanner), vec!["/r/b"]);
}

#[test]
fn listings_after_the_end_change_nothing() {
    let mut scanner = Scanner::new("/r".to_string(), matcher(""));
    scanner.supply(Ok(vec![Entry::new("a", "/r/a", false)]));
    assert!(scanner.is_done());
    scanner.supply(Ok(vec![Entry::new("late", "/r/late", true)]));
    scanner.supply(failure());
    assert!(scanner.is_done());
    assert_eq!(scanner.pending(), None);
    assert_eq!(results(scanner), vec!["/r/a"]);
}

#[test]
fn driven_scanner_agrees_with_snapshot_scan() {
    let root = sample();
    for pattern in ["foo", "", "txt", "a", "qux", "nothing", "^b"] {
        assert_eq!(run(&root, pattern), scan(&root, &matcher(pattern)), "pattern {:?}", pattern);
    }
}

#[test]
fn driven_scanner_finds_the_example() {
    assert_eq!(run(&sample(), "foo"), vec!["/a/foo.txt", "/a/Foo"]);
    assert_eq!(
        run(&sample(), ""),
        vec!["/a/foo.txt", "/a/Foo", "/a/Foo/bar.txt", "/a/baz", "/a/baz/qux.txt"]
    );
}

#[test]
fn driven_scanner_on_missing_root_finds_nothing() {
    assert_eq!(run(&Node::unreadable("x", "/x"), ""), Vec::<String>::new());
    assert_eq!(run(&Node::file("x", "/x"), ""), Vec::<String>::new());
}

#[test]
fn snapshot_lists_its_children_as_entries() {
    let root = sample();
    let entries = list_children(&root).ok().unwrap();
    let seen: Vec<(String, String, bool)> =
        entries.into_iter().map(|e| (e.name, e.path, e.is_dir)).collect();
    assert_eq!(
        seen,
        vec![
            ("foo.txt".to_string(), "/a/foo.txt".to_string(), false),
            ("Foo".to_string(), "/a/Foo".to_string(), true),
            ("baz".to_string(), "/a/baz".to_string(), true),
        ]
    );
    assert!(list_children(&Node::file("f", "/f")).is_err());
    assert!(list_children(&Node::unreadable("u", "/u")).is_err());
    let sealed = list_children(&Node::directory("d", "/d", vec![Node::unreadable("u", "/d/u")]));
    assert!(sealed.ok().unwrap()[0].is_dir);
}

fn raw(name: Option<&str>, path: &str, is_file: bool, is_dir: bool) -> RawEntry {
    RawEntry { name: name.map(|n| n.to_string()), path: path.to_string(), is_file, is_dir }
}

#[test]
fn files_and_directories_become_entries() {
    let file = Entry::from_raw(raw(Some("f.txt"), "/a/f.txt", true, false)).unwrap();
    assert_eq!((file.name.as_str(), file.path.as_str(), file.is_dir), ("f.txt", "/a/f.txt", false));
    let dir = Entry::from_raw(raw(Some("d"), "/a/d", false, true)).unwrap();
    assert_eq!((dir.name.as_str(), dir.path.as_str(), dir.is_dir), ("d", "/a/d", true));
}

#[test]
fn other_children_are_passed_over() {
    assert!(Entry::from_raw(raw(Some("socket"), "/a/socket", false, false)).is_none());
    assert!(Entry::from_raw(raw(None, "/a/\u{fffd}", true, false)).is_none());
    assert!(Entry::from_raw(raw(None, "/a/\u{fffd}", false, true)).is_none());
    assert!(Entry::from_raw(raw(None, "/a/x", false, false)).is_none());
}
