//! The state that the single consumer of search results keeps, and how the
//! events that reach it change that state.
//!
//! Deliveries are applied in the order in which they arrive, and each result
//! list replaces the one shown before as a whole. A rejected search leaves
//! the list as it is and only leaves a notice.

use crate::pattern::CompileError;
use crate::task::{Delivery, SearchRequest};
use crate::tree::texts;
use vstd::prelude::*;

verus! {

/// What the consumer shows and edits.
#[derive(Debug)]
pub struct AppState {
    /// The directory below which the next search looks.
    pub root_path: String,
    /// The pattern of the next search.
    pub search_term: String,
    /// The result list on display.
    pub search_results: Vec<String>,
    /// Why the last search was rejected, if it was.
    pub notice: Option<String>,
}

/// The mathematical value of an [`AppState`].
pub struct AppStateView {
    pub root_path: Seq<char>,
    pub search_term: Seq<char>,
    pub search_results: Seq<Seq<char>>,
    pub notice: Option<Seq<char>>,
}

impl View for AppState {
    type V = AppStateView;

    open spec fn view(&self) -> AppStateView {
        AppStateView {
            root_path: self.root_path@,
            search_term: self.search_term@,
            search_results: texts(self.search_results@),
            notice: match self.notice {
                Some(text) => Some(text@),
                None => None,
            },
        }
    }
}

/// What can reach the consumer.
#[derive(Debug)]
pub enum Event {
    /// A search has finished.
    Delivered(Delivery),
    /// The user was asked for a directory and chose this one.
    FolderPicked(String),
    /// The user was asked for a directory and chose none.
    PickCancelled,
    /// Anything that is not the consumer's business.
    Other,
}

/// The state after an event. A result list replaces the one on display and
/// clears the notice. A rejection leaves the list and notes the reason. A
/// newly chosen directory becomes the root and empties the list. Nothing
/// else changes anything.
pub open spec fn after_event(state: AppStateView, event: Event) -> AppStateView {
    match event {
        Event::Delivered(Delivery::Results(found)) => AppStateView {
            search_results: texts(found@),
            notice: None,
            ..state
        },
        Event::Delivered(Delivery::Rejected(error)) => AppStateView {
            notice: Some(error.reason()),
            ..state
        },
        Event::FolderPicked(folder) => AppStateView {
            root_path: folder@,
            search_results: Seq::empty(),
            ..state
        },
        _ => state,
    }
}

/// The result list that an event delivers, if it delivers one.
pub open spec fn delivered_list(event: Event) -> Option<Seq<Seq<char>>> {
    match event {
        Event::Delivered(Delivery::Results(found)) => Some(texts(found@)),
        _ => None,
    }
}

/// Whether the consumer takes the event as handled.
pub open spec fn is_handled(event: Event) -> bool {
    event is Delivered || event is FolderPicked
}

/// The state after a run of events, applied in order of arrival.
pub open spec fn after_events(state: AppStateView, events: Seq<Event>) -> AppStateView
    decreases events.len(),
{
    if events.len() == 0 {
        state
    } else {
        after_event(after_events(state, events.drop_last()), events.last())
    }
}

impl AppState {
    /// The state at start: the given root, no pattern, nothing on display.
    pub fn new(root_path: String) -> (state: AppState)
        ensures
            state@ == (AppStateView {
                root_path: root_path@,
                search_term: Seq::empty(),
                search_results: Seq::empty(),
                notice: None,
            }),
    {
        let state = AppState {
            root_path,
            search_term: String::new(),
            search_results: Vec::new(),
            notice: None,
        };
        assert(state@.search_results =~= Seq::<Seq<char>>::empty());
        state
    }

    /// The request for a search with the root and pattern as they are now.
    /// The request has copies of its own, and the state is not changed.
    pub fn request(&self) -> (request: SearchRequest)
        ensures
            request.root_path@ == self@.root_path,
            request.pattern@ == self@.search_term,
    {
        SearchRequest { root_path: self.root_path.clone(), pattern: self.search_term.clone() }
    }

    /// Applies one event and says whether it was handled.
    pub fn handle(&mut self, event: Event) -> (handled: bool)
        ensures
            final(self)@ == after_event(old(self)@, event),
            handled == is_handled(event),
    {
        match event {
            Event::Delivered(Delivery::Results(found)) => {
                self.search_results = found;
                self.notice = None;
                true
            },
            Event::Delivered(Delivery::Rejected(error)) => {
                self.notice = Some(error.message());
                true
            },
            Event::FolderPicked(folder) => {
                self.root_path = folder;
                self.search_results = Vec::new();
                assert(texts(self.search_results@) =~= Seq::<Seq<char>>::empty());
                true
            },
            Event::PickCancelled => false,
            Event::Other => false,
        }
    }
}

/// The last result list to arrive is the one on display, whatever arrived
/// before it.
pub proof fn lemma_last_delivery_wins(state: AppStateView, events: Seq<Event>)
    requires
        events.len() > 0,
        delivered_list(events.last()) is Some,
    ensures
        Some(after_events(state, events).search_results) == delivered_list(events.last()),
{
}

/// The list on display is always a whole one: the one shown at first, an
/// empty one after a directory was chosen, or one result list exactly as it
/// was delivered. Lists are never merged.
pub proof fn lemma_display_is_one_delivery(state: AppStateView, events: Seq<Event>)
    ensures
        ({
            let shown = after_events(state, events).search_results;
            ||| shown == state.search_results
            ||| shown == Seq::<Seq<char>>::empty()
            ||| exists|i: int|
                0 <= i < events.len() && delivered_list(#[trigger] events[i]) == Some(shown)
        }),
    decreases events.len(),
{
    if events.len() > 0 {
        let front = events.drop_last();
        lemma_display_is_one_delivery(state, front);
        let shown = after_events(state, front).search_results;
        match events.last() {
            Event::Delivered(Delivery::Results(found)) => {
                assert(delivered_list(events[events.len() - 1]) == Some(texts(found@)));
            },
            Event::FolderPicked(_) => {},
            _ => {
                if shown != state.search_results && shown != Seq::<Seq<char>>::empty() {
                    let i = choose|i: int|
                        0 <= i < front.len() && delivered_list(#[trigger] front[i]) == Some(shown);
                    assert(events[i] == front[i]);
                }
            },
        }
    }
}

/// A rejected search changes neither the list on display nor the inputs.
pub proof fn lemma_rejection_keeps_display(state: AppStateView, error: CompileError)
    ensures
        ({
            let next = after_event(state, Event::Delivered(Delivery::Rejected(error)));
            &&& next.search_results == state.search_results
            &&& next.root_path == state.root_path
            &&& next.search_term == state.search_term
        }),
{
}

} // verus!
