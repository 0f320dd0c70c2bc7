use file_explorer::drive::{list_children, search_by_steps};
use file_explorer::task::{search_files, Delivery, SearchRequest, SearchTask, Step};
use file_explorer::tree::{Entry, Node, NodeKind, ReadError};

fn find<'a>(node: &'a Node, path: &str) -> Option<&'a Node> {
    if node.path == path {
        return Some(node);
    }
    if let NodeKind::Directory(children) = &node.kind {
        for child in children {
            if let Some(hit) = find(child, path) {
                return Some(hit);
            }
        }
    }
    None
}

fn answer(root: &Node, path: &str) -> Result<Vec<Entry>, ReadError> {
    match find(root, path) {
        Some(node) => list_children(node),
        None => Err(ReadError { reason: "no such directory".to_string() }),
    }
}

fn run(root: &Node, request: SearchRequest) -> Delivery {
    let mut step = SearchTask::spawn(request);
    loop {
        match step {
            Step::Finished(delivery) => return delivery,
            Step::Awaiting(task) => {
                let listing = answer(root, task.directory());
                step = task.resume(listing);
            }
        }
    }
}

fn paths(delivery: Delivery) -> Vec<String> {
    match delivery {
        Delivery::Results(found) => found,
        Delivery::Rejected(e) => panic!("rejected: {}", e.message()),
    }
}

fn first_tree() -> Node {
    Node::directory(
        "a",
        "/a",
        vec![
            Node::file("foo.txt", "/a/foo.txt"),
            Node::directory("Foo", "/a/Foo", vec![Node::file("bar.txt", "/a/Foo/bar.txt")]),
            Node::directory("baz", "/a/baz", vec![Node::file("qux.txt", "/a/baz/qux.txt")]),
        ],
    )
}

fn second_tree() -> Node {
    Node::directory(
        "b",
        "/b",
        vec![
            Node::directory("sub", "/b/sub", vec![Node::file("foo.rs", "/b/sub/foo.rs")]),
            Node::file("food", "/b/food"),
        ],
    )
}

#[test]
fn request_copies_its_texts() {
    let mut root = String::from("/a");
    let mut pattern = String::from("foo");
    let request = SearchRequest::new(&root, &pattern);
    root.push_str("/changed");
    pattern.clear();
    assert_eq!(request.root_path, "/a");
    assert_eq!(request.pattern, "foo");
}

#[test]
fn spawned_task_waits_for_the_root() {
    match SearchTask::spawn(SearchRequest::new("/a", "foo")) {
        Step::Awaiting(task) => {
            assert_eq!(task.directory(), "/a");
            assert_eq!(task.request().root_path, "/a");
            assert_eq!(task.request().pattern, "foo");
        }
        Step::Finished(_) => panic!("a valid request ended at once"),
    }
}

#[test]
fn invalid_pattern_ends_the_task_before_any_listing() {
    match SearchTask::spawn(SearchRequest::new("/a", "(")) {
        Step::Awaiting(task) => panic!("the task asked for {}", task.directory()),
        Step::Finished(Delivery::Results(found)) => panic!("a result list: {:?}", found),
        Step::Finished(Delivery::Rejected(e)) => assert_eq!(e.pattern(), "("),
    }
}

#[test]
fn task_delivers_the_example() {
    let found = paths(run(&first_tree(), SearchRequest::new("/a", "foo")));
    assert_eq!(found, vec!["/a/foo.txt", "/a/Foo"]);
}

#[test]
fn task_with_empty_pattern_delivers_everything() {
    let found = paths(run(&first_tree(), SearchRequest::new("/a", "")));
    assert_eq!(
        found,
        vec!["/a/foo.txt", "/a/Foo", "/a/Foo/bar.txt", "/a/baz", "/a/baz/qux.txt"]
    );
}

#[test]
fn task_on_missing_root_delivers_an_empty_list() {
    let found = paths(run(&first_tree(), SearchRequest::new("/does/not/exist", "foo")));
    assert_eq!(found, Vec::<String>::new());
}

#[test]
fn task_agrees_with_search_of_the_snapshot() {
    for pattern in ["foo", "", "o", "x$", "BAZ"] {
        let by_task = paths(run(&first_tree(), SearchRequest::new("/a", pattern)));
        let direct = paths(search_files(&first_tree(), pattern));
        assert_eq!(by_task, direct, "pattern {:?}", pattern);
    }
}

#[test]
fn answered_task_waits_for_the_next_directory() {
    let step = SearchTask::spawn(SearchRequest::new("/a", "foo"));
    let task = match step {
        Step::Awaiting(task) => task,
        Step::Finished(_) => panic!("ended at once"),
    };
    let task = match task.resume(answer(&first_tree(), "/a")) {
        Step::Awaiting(task) => task,
        Step::Finished(_) => panic!("ended before the subdirectories"),
    };
    assert_eq!(task.directory(), "/a/Foo");
    assert_eq!(task.request().pattern, "foo");
    let task = match task.resume(answer(&first_tree(), "/a/Foo")) {
        Step::Awaiting(task) => task,
        Step::Finished(_) => panic!("ended before the last subdirectory"),
    };
    assert_eq!(task.directory(), "/a/baz");
    match task.resume(answer(&first_tree(), "/a/baz")) {
        Step::Awaiting(task) => panic!("still waiting for {}", task.directory()),
        Step::Finished(delivery) => assert_eq!(paths(delivery), vec!["/a/foo.txt", "/a/Foo"]),
    }
}

#[test]
fn two_tasks_in_turn_keep_their_results_apart() {
    let first_root = first_tree();
    let second_root = second_tree();
    let mut first = SearchTask::spawn(SearchRequest::new("/a", "foo"));
    let mut second = SearchTask::spawn(SearchRequest::new("/b", "foo"));
    let mut first_done: Option<Vec<String>> = None;
    let mut second_done: Option<Vec<String>> = None;
    let mut rounds: u32 = 0;
    while first_done.is_none() || second_done.is_none() {
        first = match first {
            Step::Awaiting(task) => {
                let listing = answer(&first_root, task.directory());
                task.resume(listing)
            }
            Step::Finished(delivery) => {
                if first_done.is_none() {
                    first_done = Some(paths(delivery));
                }
                Step::Finished(Delivery::Results(Vec::new()))
            }
        };
        second = match second {
            Step::Awaiting(task) => {
                let listing = answer(&second_root, task.directory());
                task.resume(listing)
            }
            Step::Finished(delivery) => {
                if second_done.is_none() {
                    second_done = Some(paths(delivery));
                }
                Step::Finished(Delivery::Results(Vec::new()))
            }
        };
        rounds += 1;
        assert!(rounds < 100);
    }
    assert_eq!(first_done.unwrap(), vec!["/a/foo.txt", "/a/Foo"]);
    assert_eq!(second_done.unwrap(), vec!["/b/sub/foo.rs", "/b/food"]);
}

#[test]
fn two_tasks_on_one_tree_with_different_patterns() {
    let root = first_tree();
    let first = paths(run(&root, SearchRequest::new("/a", "qux")));
    let second = paths(run(&root, SearchRequest::new("/a", "bar")));
    assert_eq!(first, vec!["/a/baz/qux.txt"]);
    assert_eq!(second, vec!["/a/Foo/bar.txt"]);
}

#[test]
fn unreadable_branch_does_not_end_the_task() {
    let root = Node::directory(
        "a",
        "/a",
        vec![
            Node::unreadable("locked", "/a/locked"),
            Node::directory("open", "/a/open", vec![Node::file("lock.txt", "/a/open/lock.txt")]),
        ],
    );
    let found = paths(run(&root, SearchRequest::new("/a", "lock")));
    assert_eq!(found, vec!["/a/locked", "/a/open/lock.txt"]);
}

#[test]
fn stepwise_search_of_a_snapshot_finds_the_example() {
    let found = paths(search_by_steps(SearchRequest::new("/a", "foo"), &first_tree()));
    assert_eq!(found, vec!["/a/foo.txt", "/a/Foo"]);
    let all = paths(search_by_steps(SearchRequest::new("/a", ""), &first_tree()));
    assert_eq!(
        all,
        vec!["/a/foo.txt", "/a/Foo", "/a/Foo/bar.txt", "/a/baz", "/a/baz/qux.txt"]
    );
}

#[test]
fn stepwise_search_agrees_with_recursive_search() {
    let deep = Node::directory(
        "r",
        "/r",
        vec![
            Node::directory(
                "x1",
                "/r/x1",
                vec![
                    Node::directory("x2", "/r/x1/x2", vec![Node::file("x3", "/r/x1/x2/x3")]),
                    Node::unreadable("x4", "/r/x1/x4"),
                    Node::file("y5", "/r/x1/y5"),
                ],
            ),
            Node::file("x6", "/r/x6"),
            Node::directory("y7", "/r/y7", vec![]),
            Node::directory("y8", "/r/y8", vec![Node::file("x9", "/r/y8/x9")]),
        ],
    );
    for pattern in ["", "x", "y", "[0-9]", "^x[13579]$", "none"] {
        let stepwise = paths(search_by_steps(SearchRequest::new("/r", pattern), &deep));
        let direct = paths(search_files(&deep, pattern));
        assert_eq!(stepwise, direct, "pattern {:?}", pattern);
    }
    assert_eq!(
        paths(search_by_steps(SearchRequest::new("/r", "x"), &deep)),
        vec!["/r/x1", "/r/x1/x2", "/r/x1/x2/x3", "/r/x1/x4", "/r/x6", "/r/y8/x9"]
    );
}

#[test]
fn stepwise_search_rejects_an_invalid_pattern() {
    match search_by_steps(SearchRequest::new("/a", "("), &first_tree()) {
        Delivery::Results(found) => panic!("a result list: {:?}", found),
        Delivery::Rejected(e) => assert_eq!(e.pattern(), "("),
    }
}

#[test]
fn stepwise_search_of_a_missing_root_is_empty() {
    let gone = Node::unreadable("gone", "/gone");
    assert_eq!(paths(search_by_steps(SearchRequest::new("/gone", ""), &gone)), Vec::<String>::new());
}
