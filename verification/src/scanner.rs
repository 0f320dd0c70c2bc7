//! A resumable depth-first search of a directory tree.
//!
//! The scanner never touches a file system. It names the directory whose
//! listing it wants next, takes the listing (or the failure to list) from its
//! caller, and goes on. A failed listing closes that branch only.

use crate::pattern::CompiledPattern;
use crate::tree::{
    entries_of, lemma_matches_concat, lemma_matches_one, listing_view, matches_in, record, texts,
    Entry, EntryView, ReadError,
};
use vstd::prelude::*;

verus! {

/// The state of a search as a mathematical value.
pub struct ScannerView {
    /// The entries still to be examined, the next one first.
    pub agenda: Seq<EntryView>,
    /// The directory whose listing is wanted; `None` once the search is over.
    pub awaiting: Option<Seq<char>>,
    /// The paths found so far, in discovery order.
    pub found: Seq<Seq<char>>,
}

/// The position of the first directory on the agenda, or the agenda's length
/// where it holds none.
pub open spec fn first_directory(agenda: Seq<EntryView>) -> int
    decreases agenda.len(),
{
    if agenda.len() == 0 || agenda[0].is_dir {
        0
    } else {
        1 + first_directory(agenda.drop_first())
    }
}

/// Examines the agenda up to and including its first directory: the matches
/// among the entries examined are found, and the directory is the next to be
/// listed. Without a directory the whole agenda is examined and the search
/// is over.
pub open spec fn proceed(
    agenda: Seq<EntryView>,
    found: Seq<Seq<char>>,
    language: Set<Seq<char>>,
) -> ScannerView {
    let k = first_directory(agenda);
    if k < agenda.len() {
        ScannerView {
            agenda: agenda.skip(k + 1),
            awaiting: Some(agenda[k].path),
            found: found + matches_in(agenda.take(k + 1), language),
        }
    } else {
        ScannerView {
            agenda: Seq::empty(),
            awaiting: None,
            found: found + matches_in(agenda, language),
        }
    }
}

/// The state after the awaited listing has arrived. The entries of a
/// successful listing go in front of the agenda; a failed one adds nothing.
/// A search that is over stays as it is.
pub open spec fn after_listing(
    state: ScannerView,
    listing: Option<Seq<EntryView>>,
    language: Set<Seq<char>>,
) -> ScannerView {
    if state.awaiting is None {
        state
    } else {
        let agenda = match listing {
            Some(entries) => entries + state.agenda,
            None => state.agenda,
        };
        proceed(agenda, state.found, language)
    }
}

/// The state of a search that has just begun at `root`.
pub open spec fn initial(root: Seq<char>) -> ScannerView {
    ScannerView { agenda: Seq::empty(), awaiting: Some(root), found: Seq::empty() }
}

/// The agenda that a stack of entries stands for: the top of the stack first.
pub open spec fn agenda_of(stack: Seq<Entry>) -> Seq<EntryView> {
    entries_of(stack).reverse()
}

/// What `first_directory` picks: nothing before it is a directory, and it is
/// one itself unless the agenda holds none.
pub proof fn lemma_first_directory(agenda: Seq<EntryView>)
    ensures
        0 <= first_directory(agenda) <= agenda.len(),
        forall|j: int| 0 <= j < first_directory(agenda) ==> !(#[trigger] agenda[j]).is_dir,
        first_directory(agenda) < agenda.len() ==> agenda[first_directory(agenda)].is_dir,
    decreases agenda.len(),
{
    if agenda.len() == 0 || agenda[0].is_dir {
    } else {
        let rest = agenda.drop_first();
        lemma_first_directory(rest);
        assert forall|j: int| 0 <= j < first_directory(agenda) implies !(#[trigger] agenda[j]).is_dir by {
            if j > 0 {
                assert(agenda[j] == rest[j - 1]);
            }
        }
        assert(first_directory(agenda) < agenda.len() ==> agenda[first_directory(agenda)]
            == rest[first_directory(rest)]);
    }
}

/// Examining an agenda entry by entry: a directory in front stops the
/// examination, anything else is examined and the rest follows.
pub proof fn lemma_proceed_unfold(
    head: EntryView,
    rest: Seq<EntryView>,
    found: Seq<Seq<char>>,
    language: Set<Seq<char>>,
)
    ensures
        proceed(seq![head] + rest, found, language) == if head.is_dir {
            ScannerView {
                agenda: rest,
                awaiting: Some(head.path),
                found: found + matches_in(seq![head], language),
            }
        } else {
            proceed(rest, found + matches_in(seq![head], language), language)
        },
{
    let agenda = seq![head] + rest;
    assert(agenda[0] == head);
    assert(agenda.drop_first() =~= rest);
    if head.is_dir {
        assert(agenda.skip(1) =~= rest);
        assert(agenda.take(1) =~= seq![head]);
    } else {
        let k = first_directory(rest);
        lemma_first_directory(rest);
        assert(first_directory(agenda) == k + 1);
        if k < rest.len() {
            assert(agenda.skip(k + 2) =~= rest.skip(k + 1));
            assert(agenda[k + 1] == rest[k]);
            assert(agenda.take(k + 2) =~= seq![head] + rest.take(k + 1));
            lemma_matches_concat(seq![head], rest.take(k + 1), language);
            assert(found + (matches_in(seq![head], language) + matches_in(
                rest.take(k + 1),
                language,
            )) =~= found + matches_in(seq![head], language) + matches_in(
                rest.take(k + 1),
                language,
            ));
        } else {
            lemma_matches_concat(seq![head], rest, language);
            assert(found + (matches_in(seq![head], language) + matches_in(rest, language))
                =~= found + matches_in(seq![head], language) + matches_in(rest, language));
        }
    }
}

/// Whatever was found before a listing arrives stays found, in its place:
/// a listing only adds to the end.
pub proof fn lemma_found_only_grows(
    state: ScannerView,
    listing: Option<Seq<EntryView>>,
    language: Set<Seq<char>>,
)
    ensures
        state.found.is_prefix_of(after_listing(state, listing, language).found),
{
    let next = after_listing(state, listing, language);
    assert(state.found =~= next.found.subrange(0, state.found.len() as int));
}

/// A failed listing adds no entries: the search goes on with the agenda it
/// had, exactly as if the directory had been empty.
pub proof fn lemma_failed_listing_adds_nothing(state: ScannerView, language: Set<Seq<char>>)
    ensures
        after_listing(state, None, language) == after_listing(
            state,
            Some(Seq::empty()),
            language,
        ),
{
    assert(Seq::<EntryView>::empty() + state.agenda =~= state.agenda);
}

/// A depth-first search that its caller feeds with directory listings.
pub struct Scanner {
    matcher: CompiledPattern,
    stack: Vec<Entry>,
    awaiting: Option<String>,
    found: Vec<String>,
}

impl View for Scanner {
    type V = ScannerView;

    closed spec fn view(&self) -> ScannerView {
        ScannerView {
            agenda: agenda_of(self.stack@),
            awaiting: match self.awaiting {
                Some(dir) => Some(dir@),
                None => None,
            },
            found: texts(self.found@),
        }
    }
}

impl Scanner {
    /// The names the search accepts.
    pub closed spec fn language(&self) -> Set<Seq<char>> {
        self.matcher.language()
    }

    /// Begins a search below `root`: the listing of `root` is awaited, and
    /// nothing is found yet.
    pub fn new(root: String, matcher: CompiledPattern) -> (scanner: Scanner)
        ensures
            scanner@ == initial(root@),
            scanner.language() == matcher.language(),
    {
        let scanner = Scanner { matcher, stack: Vec::new(), awaiting: Some(root), found: Vec::new() };
        assert(scanner@.agenda =~= Seq::<EntryView>::empty());
        assert(scanner@.found =~= Seq::<Seq<char>>::empty());
        scanner
    }

    /// The directory whose listing the search wants next, if it is not over.
    pub fn pending(&self) -> (dir: Option<&str>)
        ensures
            match dir {
                Some(path) => self@.awaiting == Some(path@),
                None => self@.awaiting is None,
            },
    {
        match &self.awaiting {
            Some(path) => Some(path.as_str()),
            None => None,
        }
    }

    /// Whether the search is over.
    pub fn is_done(&self) -> (done: bool)
        ensures
            done == (self@.awaiting is None),
    {
        self.awaiting.is_none()
    }

    /// The matcher that decides which names are found.
    pub fn matcher(&self) -> (m: &CompiledPattern)
        ensures
            m.language() == self.language(),
    {
        &self.matcher
    }

    /// Takes the outcome of listing the awaited directory and goes on to the
    /// next directory. A failed listing contributes no entries; whatever was
    /// found before stays found. Once the search is over, further listings
    /// change nothing.
    pub fn supply(&mut self, listing: Result<Vec<Entry>, ReadError>)
        ensures
            final(self)@ == after_listing(old(self)@, listing_view(listing), old(self).language()),
            final(self).language() == old(self).language(),
    {
        if self.awaiting.is_none() {
            return ;
        }
        self.awaiting = None;
        match listing {
            Ok(entries) => {
                self.enqueue(entries);
            },
            Err(_) => {},
        }
        self.advance();
    }

    /// Puts the entries in front of the agenda, in their order.
    fn enqueue(&mut self, entries: Vec<Entry>)
        ensures
            final(self)@.agenda == entries_of(entries@) + old(self)@.agenda,
            final(self)@.awaiting == old(self)@.awaiting,
            final(self)@.found == old(self)@.found,
            final(self).language() == old(self).language(),
    {
        let ghost wanted = entries_of(entries@) + self@.agenda;
        let mut entries = entries;
        while entries.len() > 0
            invariant
                entries_of(entries@) + agenda_of(self.stack@) == wanted,
                self.awaiting == old(self).awaiting,
                self.found == old(self).found,
                self.matcher == old(self).matcher,
            decreases entries.len(),
        {
            let ghost front = entries_of(entries@);
            let ghost back = agenda_of(self.stack@);
            let entry = entries.pop().unwrap();
            self.stack.push(entry);
            assert(entries_of(entries@) + agenda_of(self.stack@) =~= front + back);
        }
        assert(entries_of(entries@) + agenda_of(self.stack@) =~= agenda_of(self.stack@));
    }

    /// Examines the agenda up to its first directory.
    fn advance(&mut self)
        requires
            old(self)@.awaiting is None,
        ensures
            final(self)@ == proceed(old(self)@.agenda, old(self)@.found, old(self).language()),
            final(self).language() == old(self).language(),
    {
        let ghost language = self.language();
        let ghost goal = proceed(self@.agenda, self@.found, language);
        loop
            invariant
                self.awaiting is None,
                self.matcher == old(self).matcher,
                language == self.matcher.language(),
                goal == proceed(old(self)@.agenda, old(self)@.found, old(self).language()),
                proceed(agenda_of(self.stack@), texts(self.found@), language) == goal,
            decreases self.stack.len(),
        {
            let ghost agenda = agenda_of(self.stack@);
            let ghost found = texts(self.found@);
            match self.stack.pop() {
                None => {
                    proof {
                        assert(agenda =~= Seq::<EntryView>::empty());
                        assert(matches_in(agenda, language) =~= Seq::<Seq<char>>::empty());
                        assert(found + matches_in(agenda, language) =~= found);
                        assert(self@.agenda =~= Seq::<EntryView>::empty());
                    }
                    return ;
                },
                Some(entry) => {
                    let ghost rest = agenda_of(self.stack@);
                    proof {
                        assert(agenda =~= seq![entry@] + rest);
                        lemma_proceed_unfold(entry@, rest, found, language);
                        lemma_matches_one(entry@, language);
                    }
                    let matched = self.matcher.matches(entry.name.as_str());
                    record(&mut self.found, entry.path.as_str(), matched);
                    assert(texts(self.found@) =~= found + matches_in(seq![entry@], language));
                    if entry.is_dir {
                        self.awaiting = Some(entry.path);
                        return ;
                    }
                },
            }
        }
    }

    /// Ends the search and hands out what was found, in discovery order.
    /// While a listing is still awaited there is no result, only the scanner
    /// back.
    pub fn finish(self) -> (r: Result<Vec<String>, Scanner>)
        ensures
            match r {
                Ok(found) => self@.awaiting is None && texts(found@) == self@.found,
                Err(scanner) => self@.awaiting is Some && scanner == self,
            },
    {
        if self.awaiting.is_none() {
            Ok(self.found)
        } else {
            Err(self)
        }
    }
}

} // verus!
