use file_explorer::consumer::{AppState, Event};
use file_explorer::pattern::CompiledPattern;
use file_explorer::task::Delivery;

fn list(paths: &[&str]) -> Vec<String> {
    paths.iter().map(|p| p.to_string()).collect()
}

fn rejection(pattern: &str) -> Delivery {
    Delivery::Rejected(CompiledPattern::compile(pattern).err().unwrap())
}

#[test]
fn state_starts_empty() {
    let state = AppState::new("/home".to_string());
    assert_eq!(state.root_path, "/home");
    assert_eq!(state.search_term, "");
    assert_eq!(state.search_results, Vec::<String>::new());
    assert_eq!(state.notice, None);
}

#[test]
fn delivered_results_replace_the_list() {
    let mut state = AppState::new("/a".to_string());
    state.search_results = list(&["/a/old"]);
    let handled = state.handle(Event::Delivered(Delivery::Results(list(&["/a/x", "/a/y"]))));
    assert!(handled);
    assert_eq!(state.search_results, list(&["/a/x", "/a/y"]));
    assert_eq!(state.root_path, "/a");
}

#[test]
fn empty_results_replace_the_list_too() {
    let mut state = AppState::new("/a".to_string());
    state.search_results = list(&["/a/old"]);
    assert!(state.handle(Event::Delivered(Delivery::Results(Vec::new()))));
    assert_eq!(state.search_results, Vec::<String>::new());
    assert_eq!(state.notice, None);
}

#[test]
fn rejection_keeps_the_list_and_leaves_a_notice() {
    let mut state = AppState::new("/a".to_string());
    state.search_term = "(".to_string();
    state.search_results = list(&["/a/old"]);
    let handled = state.handle(Event::Delivered(rejection("(")));
    assert!(handled);
    assert_eq!(state.search_results, list(&["/a/old"]));
    assert_eq!(state.root_path, "/a");
    assert_eq!(state.search_term, "(");
    let notice = state.notice.clone().unwrap();
    assert!(notice.contains("unclosed group"), "notice was {:?}", notice);
}

#[test]
fn results_clear_an_earlier_notice() {
    let mut state = AppState::new("/a".to_string());
    state.handle(Event::Delivered(rejection("[")));
    assert!(state.notice.is_some());
    state.handle(Event::Delivered(Delivery::Results(list(&["/a/x"]))));
    assert_eq!(state.notice, None);
    assert_eq!(state.search_results, list(&["/a/x"]));
}

#[test]
fn last_delivery_wins() {
    let mut state = AppState::new("/a".to_string());
    state.handle(Event::Delivered(Delivery::Results(list(&["/b/late"]))));
    state.handle(Event::Delivered(Delivery::Results(list(&["/a/early1", "/a/early2"]))));
    assert_eq!(state.search_results, list(&["/a/early1", "/a/early2"]));
    state.handle(Event::Delivered(rejection("(")));
    state.handle(Event::Other);
    assert_eq!(state.search_results, list(&["/a/early1", "/a/early2"]));
}

#[test]
fn picked_folder_becomes_the_root_and_empties_the_list() {
    let mut state = AppState::new("/a".to_string());
    state.search_term = "foo".to_string();
    state.search_results = list(&["/a/foo"]);
    let handled = state.handle(Event::FolderPicked("/b".to_string()));
    assert!(handled);
    assert_eq!(state.root_path, "/b");
    assert_eq!(state.search_term, "foo");
    assert_eq!(state.search_results, Vec::<String>::new());
}

#[test]
fn cancelled_pick_and_other_events_change_nothing() {
    let mut state = AppState::new("/a".to_string());
    state.search_term = "foo".to_string();
    state.search_results = list(&["/a/foo"]);
    assert!(!state.handle(Event::PickCancelled));
    assert!(!state.handle(Event::Other));
    assert_eq!(state.root_path, "/a");
    assert_eq!(state.search_term, "foo");
    assert_eq!(state.search_results, list(&["/a/foo"]));
    assert_eq!(state.notice, None);
}

#[test]
fn request_is_a_copy_of_the_inputs() {
    let mut state = AppState::new("/a".to_string());
    state.search_term = "foo".to_string();
    let request = state.request();
    state.root_path = "/elsewhere".to_string();
    state.search_term.push_str("bar");
    assert_eq!(request.root_path, "/a");
    assert_eq!(request.pattern, "foo");
    assert_eq!(state.search_results, Vec::<String>::new());
}
