//! One search from request to delivery.
//!
//! A request is compiled before anything is listed, so an invalid pattern is
//! rejected at once and never looks like a search that found nothing. A task
//! that is under way always waits for one directory listing; answering it
//! either leaves the task waiting for the next or ends it with its one
//! delivery.

use crate::drive::{drive, lemma_driven_search_agrees_with_scan};
use crate::pattern::{pattern_language, CompileError, CompiledPattern};
use crate::scanner::{after_listing, initial, Scanner, ScannerView};
use crate::tree::{
    lemma_found_is_matching_entry, lemma_found_stays_below, lemma_full_language_finds_all,
    listing_view, matches_in, nested, scan, texts, walk, Entry, EntryView, Node, ReadError,
};
use vstd::prelude::*;
use vstd::string::*;

verus! {

/// What to search for and where. A request owns copies of both texts, so
/// nothing that happens to the texts it was made from can reach it.
#[derive(Debug)]
pub struct SearchRequest {
    pub root_path: String,
    pub pattern: String,
}

impl SearchRequest {
    /// A request with its own copies of the two texts.
    pub fn new(root_path: &str, pattern: &str) -> (request: SearchRequest)
        ensures
            request.root_path@ == root_path@,
            request.pattern@ == pattern@,
    {
        SearchRequest { root_path: String::from_str(root_path), pattern: String::from_str(pattern) }
    }
}

/// What a finished search hands to its consumer.
#[derive(Debug)]
pub enum Delivery {
    /// The paths found, in discovery order; possibly none.
    Results(Vec<String>),
    /// The pattern was invalid and nothing was searched.
    Rejected(CompileError),
}

/// What a search for `pattern` below `root` is to deliver: the paths of the
/// matching entries, or `None` where the pattern is invalid.
pub open spec fn search_outcome(pattern: Seq<char>, root: Node) -> Option<Seq<Seq<char>>> {
    match pattern_language(pattern) {
        Some(language) => Some(matches_in(walk(root.children()), language)),
        None => None,
    }
}

impl Delivery {
    /// Whether the delivery carries exactly the given outcome.
    pub open spec fn carries(&self, pattern: Seq<char>, outcome: Option<Seq<Seq<char>>>) -> bool {
        match *self {
            Delivery::Results(found) => outcome == Some(texts(found@)),
            Delivery::Rejected(error) => outcome is None && error.rejected() == pattern,
        }
    }
}

/// Searches a snapshot for the entries whose name matches the search term,
/// without regard to case. An invalid term is rejected; a root that is no
/// readable directory yields an empty result.
pub fn search_files(root: &Node, search_term: &str) -> (delivery: Delivery)
    ensures
        delivery.carries(search_term@, search_outcome(search_term@, *root)),
{
    match CompiledPattern::compile(search_term) {
        Ok(matcher) => Delivery::Results(scan(root, &matcher)),
        Err(error) => Delivery::Rejected(error),
    }
}

/// A search under way. It always waits for the listing of one directory.
pub struct SearchTask {
    request: SearchRequest,
    scanner: Scanner,
}

/// Where a search stands after it was started or answered.
pub enum Step {
    /// The task waits for the listing of its directory.
    Awaiting(SearchTask),
    /// The search is over, and this is its one delivery.
    Finished(Delivery),
}

impl View for SearchTask {
    type V = ScannerView;

    closed spec fn view(&self) -> ScannerView {
        self.scanner@
    }
}

impl SearchTask {
    #[verifier::type_invariant]
    closed spec fn inv(&self) -> bool {
        &&& self.scanner@.awaiting is Some
        &&& pattern_language(self.request.pattern@) == Some(self.scanner.language())
    }

    /// The root of the search.
    pub closed spec fn root_path(&self) -> Seq<char> {
        self.request.root_path@
    }

    /// The pattern of the search.
    pub closed spec fn pattern(&self) -> Seq<char> {
        self.request.pattern@
    }

    /// The names the search accepts.
    pub closed spec fn language(&self) -> Set<Seq<char>> {
        self.scanner.language()
    }

    /// Starts a search. An invalid pattern ends it at once with a rejection;
    /// otherwise the task waits for the listing of the root, with nothing
    /// found yet.
    pub fn spawn(request: SearchRequest) -> (step: Step)
        ensures
            match step {
                Step::Awaiting(task) => {
                    &&& pattern_language(request.pattern@) == Some(task.language())
                    &&& task@ == initial(request.root_path@)
                    &&& task.root_path() == request.root_path@
                    &&& task.pattern() == request.pattern@
                },
                Step::Finished(delivery) => delivery.carries(request.pattern@, None)
                    && pattern_language(request.pattern@) is None,
            },
    {
        match CompiledPattern::compile(request.pattern.as_str()) {
            Ok(matcher) => {
                let scanner = Scanner::new(request.root_path.clone(), matcher);
                Step::Awaiting(SearchTask { request, scanner })
            },
            Err(error) => Step::Finished(Delivery::Rejected(error)),
        }
    }

    /// The request that the search answers.
    pub fn request(&self) -> (request: &SearchRequest)
        ensures
            request.root_path@ == self.root_path(),
            request.pattern@ == self.pattern(),
            pattern_language(request.pattern@) == Some(self.language()),
    {
        proof {
            use_type_invariant(self);
        }
        &self.request
    }

    /// The directory whose listing the task waits for.
    pub fn directory(&self) -> (path: &str)
        ensures
            self@.awaiting == Some(path@),
    {
        proof {
            use_type_invariant(self);
        }
        match self.scanner.pending() {
            Some(path) => path,
            None => "",
        }
    }

    /// Answers the task with the outcome of listing its directory. If the
    /// scanner then wants another directory the task goes on waiting;
    /// otherwise the search is over and everything found is delivered.
    pub fn resume(self, listing: Result<Vec<Entry>, ReadError>) -> (step: Step)
        ensures
            match step {
                Step::Awaiting(task) => {
                    &&& task@ == after_listing(self@, listing_view(listing), self.language())
                    &&& task@.awaiting is Some
                    &&& task.language() == self.language()
                    &&& task.root_path() == self.root_path()
                    &&& task.pattern() == self.pattern()
                },
                Step::Finished(delivery) => {
                    let last = after_listing(self@, listing_view(listing), self.language());
                    &&& last.awaiting is None
                    &&& delivery matches Delivery::Results(found)
                    &&& texts(found@) == last.found
                },
            },
    {
        proof {
            use_type_invariant(&self);
        }
        let SearchTask { request, scanner } = self;
        let mut scanner = scanner;
        scanner.supply(listing);
        match scanner.finish() {
            Ok(found) => Step::Finished(Delivery::Results(found)),
            Err(scanner) => Step::Awaiting(SearchTask { request, scanner }),
        }
    }
}

/// A task whose listings are all answered from a snapshot delivers exactly
/// the outcome of searching that snapshot.
pub proof fn lemma_task_delivers_search_outcome(pattern: Seq<char>, root: Node)
    requires
        pattern_language(pattern) is Some,
    ensures
        search_outcome(pattern, root) == Some(
            drive(initial(root.path@), root, Seq::empty(), pattern_language(pattern).unwrap()),
        ),
{
    lemma_driven_search_agrees_with_scan(root, pattern_language(pattern).unwrap());
}

/// A search finds only entries below its root whose bare name its pattern
/// matches: every path delivered is the path of such an entry.
pub proof fn lemma_search_finds_only_matching_entries(
    pattern: Seq<char>,
    root: Node,
    path: Seq<char>,
)
    requires
        search_outcome(pattern, root) is Some,
        search_outcome(pattern, root).unwrap().contains(path),
    ensures
        exists|j: int|
            0 <= j < walk(root.children()).len() && (#[trigger] walk(root.children())[j]).path
                == path && pattern_language(pattern).unwrap().contains(
                walk(root.children())[j].name,
            ),
{
    lemma_found_is_matching_entry(walk(root.children()), pattern_language(pattern).unwrap(), path);
}

/// A search with the empty pattern is never rejected and delivers every
/// entry below its root, each once and in discovery order.
pub proof fn lemma_empty_pattern_finds_everything(root: Node)
    ensures
        search_outcome(Seq::empty(), root) == Some(
            walk(root.children()).map_values(|e: EntryView| e.path),
        ),
        search_outcome(Seq::empty(), root).unwrap().len() == walk(root.children()).len(),
{
    lemma_full_language_finds_all(walk(root.children()));
}

/// Two searches below separate roots, each answered from its own snapshot,
/// deliver nothing in common: what one finds, the other never delivers. The
/// roots are separate if neither path begins with the other, and each
/// snapshot reports paths below the directory listed.
pub proof fn lemma_deliveries_do_not_mix(
    first: Node,
    first_language: Set<Seq<char>>,
    second: Node,
    second_language: Set<Seq<char>>,
    path: Seq<char>,
)
    requires
        nested(first.path@, first.children()),
        nested(second.path@, second.children()),
        !first.path@.is_prefix_of(second.path@),
        !second.path@.is_prefix_of(first.path@),
        drive(initial(first.path@), first, Seq::empty(), first_language).contains(path),
    ensures
        !drive(initial(second.path@), second, Seq::empty(), second_language).contains(path),
{
    lemma_driven_search_agrees_with_scan(first, first_language);
    lemma_driven_search_agrees_with_scan(second, second_language);
    lemma_found_stays_below(first, first_language, path);
    if matches_in(walk(second.children()), second_language).contains(path) {
        lemma_found_stays_below(second, second_language, path);
        let a = first.path@;
        let b = second.path@;
        if a.len() <= b.len() {
            assert(a =~= b.subrange(0, a.len() as int));
        } else {
            assert(b =~= a.subrange(0, b.len() as int));
        }
    }
}

} // verus!
