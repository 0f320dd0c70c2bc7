//! A scanner driven over a snapshot finds what a search of the snapshot finds.
//!
//! The scanner works through listings that arrive one at a time; the search
//! of a snapshot is defined by recursion over the tree. This module states
//! how the two meet and proves that they agree.

use crate::scanner::{
    after_listing, first_directory, initial, lemma_first_directory, proceed, ScannerView,
};
use crate::task::{search_outcome, Delivery, SearchRequest, SearchTask, Step};
use crate::tree::{
    entries_of, lemma_matches_concat, lemma_walk_concat, lemma_walk_one, listing_view,
    matches_in, walk, walk_node, Entry, EntryView, Node, NodeKind, ReadError,
};
use vstd::prelude::*;
use vstd::string::*;

verus! {

/// The entries under which the nodes appear in their parent's listing.
pub open spec fn listed(forest: Seq<Node>) -> Seq<EntryView> {
    forest.map_values(|n: Node| n.entry())
}

/// What an attempt to list the node yields: the entries of its children for
/// a readable directory, a failure for anything else.
pub open spec fn listing_of(node: Node) -> Option<Seq<EntryView>> {
    match node.kind {
        NodeKind::Directory(nodes) => Some(listed(nodes@)),
        _ => None,
    }
}

/// Lists a node of a snapshot as a directory walker would: the entries of
/// its children for a readable directory, an error for anything else.
pub fn list_children(node: &Node) -> (listing: Result<Vec<Entry>, ReadError>)
    ensures
        listing_view(listing) == listing_of(*node),
{
    match &node.kind {
        NodeKind::Directory(nodes) => {
            let mut entries: Vec<Entry> = Vec::new();
            let mut i: usize = 0;
            while i < nodes.len()
                invariant
                    i <= nodes.len(),
                    entries_of(entries@) == listed(nodes@.take(i as int)),
                decreases nodes.len() - i,
            {
                let child = &nodes[i];
                let is_dir = match child.kind {
                    NodeKind::File => false,
                    _ => true,
                };
                let entry = Entry { name: child.name.clone(), path: child.path.clone(), is_dir };
                assert(entry@ == child.entry());
                let ghost before = entries@;
                entries.push(entry);
                assert(entries_of(entries@) =~= entries_of(before).push(child.entry()));
                assert(nodes@.take(i + 1) =~= nodes@.take(i as int).push(*child));
                assert(listed(nodes@.take(i + 1)) =~= listed(nodes@.take(i as int)).push(
                    child.entry(),
                ));
                i += 1;
            }
            assert(nodes@.take(i as int) =~= nodes@);
            Ok(entries)
        },
        NodeKind::File => Err(ReadError { reason: String::from_str("not a directory") }),
        NodeKind::Unreadable => Err(ReadError { reason: String::from_str("cannot be read") }),
    }
}

/// What a search finds in the end when every listing it asks for is answered
/// from a snapshot. The scanner in `state` awaits the listing of `target`,
/// and `rest` are the nodes behind the entries on its agenda. The answer
/// puts the children of `target` in front of `rest`; the scanner then awaits
/// the first directory among them, if there is one, and is done otherwise.
pub open spec fn drive(
    state: ScannerView,
    target: Node,
    rest: Seq<Node>,
    language: Set<Seq<char>>,
) -> Seq<Seq<char>>
    decreases walk(target.children() + rest).len(),
{
    let next = after_listing(state, listing_of(target), language);
    let forest = target.children() + rest;
    let k = first_directory(listed(forest));
    if 0 <= k < forest.len() {
        proof {
            lemma_walk_to_first_directory(forest);
        }
        drive(next, forest[k], forest.skip(k + 1), language)
    } else {
        next.found
    }
}

/// Siblings that are all files walk as their own entries.
proof fn lemma_walk_files(forest: Seq<Node>)
    requires
        forall|i: int| 0 <= i < forest.len() ==> (#[trigger] forest[i]).kind is File,
    ensures
        walk(forest) == listed(forest),
    decreases forest.len(),
{
    if forest.len() == 0 {
        assert(walk(forest) =~= listed(forest));
    } else {
        let front = forest.drop_last();
        assert forall|i: int| 0 <= i < front.len() implies (#[trigger] front[i]).kind is File by {
            assert(front[i] == forest[i]);
        }
        lemma_walk_files(front);
        let last = forest.last();
        assert(last.kind is File);
        assert(walk_node(last) =~= seq![last.entry()]);
        assert(listed(forest) =~= listed(front) + seq![last.entry()]);
    }
}

/// A walk examines the siblings up to the first directory as they are
/// listed, and goes on with that directory's children in front of the
/// siblings behind it.
pub proof fn lemma_walk_to_first_directory(forest: Seq<Node>)
    ensures
        ({
            let k = first_directory(listed(forest));
            if 0 <= k < forest.len() {
                &&& walk(forest) == listed(forest).take(k + 1) + walk(
                    forest[k].children() + forest.skip(k + 1),
                )
                &&& walk(forest[k].children() + forest.skip(k + 1)).len() < walk(forest).len()
            } else {
                walk(forest) == listed(forest)
            }
        }),
{
    let entries = listed(forest);
    let k = first_directory(entries);
    lemma_first_directory(entries);
    if 0 <= k < forest.len() {
        let front = forest.take(k);
        let node = forest[k];
        let back = forest.skip(k + 1);
        assert forall|i: int| 0 <= i < front.len() implies (#[trigger] front[i]).kind is File by {
            assert(!entries[i].is_dir);
        }
        lemma_walk_files(front);
        assert(forest =~= front + seq![node] + back);
        lemma_walk_concat(front + seq![node], back);
        lemma_walk_concat(front, seq![node]);
        lemma_walk_one(node);
        lemma_walk_concat(node.children(), back);
        assert(walk_node(node) =~= seq![node.entry()] + walk(node.children())) by {
            if !(node.kind is Directory) {
                assert(walk(node.children()) =~= Seq::<EntryView>::empty());
            }
        }
        assert(entries.take(k + 1) =~= listed(front) + seq![node.entry()]);
        assert(walk(forest) =~= entries.take(k + 1) + walk(node.children() + back));
    } else {
        assert forall|i: int| 0 <= i < forest.len() implies (#[trigger] forest[i]).kind is File by {
            assert(!entries[i].is_dir);
        }
        lemma_walk_files(forest);
    }
}

/// A scanner that is answered from a snapshot ends with what it had found
/// before, followed by the matches among all entries that were still ahead
/// of it: those below the awaited directory, then the remaining siblings
/// with everything below them.
pub proof fn lemma_drive_finds_the_rest(
    state: ScannerView,
    target: Node,
    rest: Seq<Node>,
    language: Set<Seq<char>>,
)
    requires
        state.awaiting is Some,
        state.agenda == listed(rest),
    ensures
        drive(state, target, rest, language) == state.found + matches_in(
            walk(target.children() + rest),
            language,
        ),
    decreases walk(target.children() + rest).len(),
{
    let next = after_listing(state, listing_of(target), language);
    let forest = target.children() + rest;
    let entries = listed(forest);
    let k = first_directory(entries);
    lemma_first_directory(entries);
    lemma_walk_to_first_directory(forest);
    let agenda = match listing_of(target) {
        Some(listing) => listing + state.agenda,
        None => state.agenda,
    };
    assert(agenda =~= entries);
    if 0 <= k < forest.len() {
        assert(next.agenda =~= listed(forest.skip(k + 1)));
        lemma_drive_finds_the_rest(next, forest[k], forest.skip(k + 1), language);
        lemma_matches_concat(
            entries.take(k + 1),
            walk(forest[k].children() + forest.skip(k + 1)),
            language,
        );
        assert(state.found + (matches_in(entries.take(k + 1), language) + matches_in(
            walk(forest[k].children() + forest.skip(k + 1)),
            language,
        )) =~= state.found + matches_in(entries.take(k + 1), language) + matches_in(
            walk(forest[k].children() + forest.skip(k + 1)),
            language,
        ));
    } else {
    }
}

/// The nodes that a stack of references stands for, the top of the stack
/// first.
pub open spec fn ahead(stack: Seq<&Node>) -> Seq<Node> {
    Seq::new(stack.len(), |i: int| *stack[stack.len() - 1 - i])
}

/// Puts the nodes on the stack so that the first of them comes off first.
fn push_reversed<'a>(stack: &mut Vec<&'a Node>, nodes: &'a Vec<Node>)
    ensures
        ahead(final(stack)@) == nodes@ + ahead(old(stack)@),
{
    let mut i: usize = nodes.len();
    assert(nodes@.skip(i as int) + ahead(stack@) =~= ahead(stack@));
    while i > 0
        invariant
            i <= nodes.len(),
            ahead(stack@) == nodes@.skip(i as int) + ahead(old(stack)@),
        decreases i,
    {
        let ghost before = ahead(stack@);
        i -= 1;
        stack.push(&nodes[i]);
        assert(ahead(stack@) =~= seq![nodes@[i as int]] + before);
        assert(nodes@.skip(i as int) =~= seq![nodes@[i as int]] + nodes@.skip(i + 1));
    }
    assert(nodes@.skip(0) =~= nodes@);
}

/// Takes nodes off the stack up to and including the first directory, and
/// hands that directory out; `None` if only files were left.
fn pop_to_directory<'a>(stack: &mut Vec<&'a Node>) -> (next: Option<&'a Node>)
    ensures
        ({
            let forest = ahead(old(stack)@);
            let k = first_directory(listed(forest));
            match next {
                Some(node) => {
                    &&& 0 <= k < forest.len()
                    &&& *node == forest[k]
                    &&& ahead(final(stack)@) == forest.skip(k + 1)
                },
                None => k >= forest.len(),
            }
        }),
{
    let ghost forest = ahead(stack@);
    let ghost mut passed: int = 0;
    proof {
        assert(forest.skip(0) =~= forest);
    }
    loop
        invariant
            0 <= passed <= forest.len(),
            ahead(stack@) == forest.skip(passed),
            first_directory(listed(forest)) == passed + first_directory(
                listed(forest.skip(passed)),
            ),
            forest == ahead(old(stack)@),
        decreases stack.len(),
    {
        let ghost rest = ahead(stack@);
        match stack.pop() {
            None => {
                assert(rest.len() == 0);
                return None;
            },
            Some(node) => {
                proof {
                    assert(rest[0] == *node);
                    assert(listed(rest)[0] == node.entry());
                    assert(ahead(stack@) =~= rest.skip(1));
                    assert(rest.skip(1) =~= forest.skip(passed + 1));
                    assert(listed(rest).drop_first() =~= listed(rest.skip(1)));
                }
                match node.kind {
                    NodeKind::File => {
                        proof {
                            passed = passed + 1;
                        }
                    },
                    _ => {
                        return Some(node);
                    },
                }
            },
        }
    }
}

/// Runs a search step by step and answers each of its requests for a
/// listing from the snapshot below `root`. The delivery is the outcome of
/// searching the snapshot: a rejection for an invalid pattern, and otherwise
/// the matches among all entries below `root`, in discovery order.
pub fn search_by_steps(request: SearchRequest, root: &Node) -> (delivery: Delivery)
    ensures
        delivery.carries(request.pattern@, search_outcome(request.pattern@, *root)),
{
    let ghost pattern = request.pattern@;
    let mut task = match SearchTask::spawn(request) {
        Step::Finished(delivery) => {
            return delivery;
        },
        Step::Awaiting(task) => task,
    };
    let ghost language = task.language();
    let ghost goal = matches_in(walk(root.children()), language);
    let mut target: &Node = root;
    let mut stack: Vec<&Node> = Vec::new();
    proof {
        assert(ahead(stack@) =~= Seq::<Node>::empty());
        assert(target.children() + ahead(stack@) =~= root.children());
        assert(task@.agenda =~= listed(ahead(stack@)));
        assert(task@.found + goal =~= goal);
    }
    loop
        invariant
            task.language() == language,
            task@.awaiting is Some,
            task@.agenda == listed(ahead(stack@)),
            task@.found + matches_in(walk(target.children() + ahead(stack@)), language) == goal,
            pattern == request.pattern@,
            search_outcome(pattern, *root) == Some(goal),
        decreases walk(target.children() + ahead(stack@)).len(),
    {
        let ghost before = task@;
        let ghost forest = target.children() + ahead(stack@);
        let ghost k = first_directory(listed(forest));
        let listing = list_children(target);
        match &target.kind {
            NodeKind::Directory(nodes) => {
                push_reversed(&mut stack, nodes);
            },
            _ => {
                assert(target.children() + ahead(stack@) =~= ahead(stack@));
            },
        }
        let next = pop_to_directory(&mut stack);
        proof {
            lemma_first_directory(listed(forest));
            lemma_walk_to_first_directory(forest);
            let agenda = match listing_of(*target) {
                Some(entries) => entries + before.agenda,
                None => before.agenda,
            };
            assert(agenda =~= listed(forest));
            if 0 <= k < forest.len() {
                assert(listed(forest).skip(k + 1) =~= listed(forest.skip(k + 1)));
                lemma_matches_concat(
                    listed(forest).take(k + 1),
                    walk(forest[k].children() + forest.skip(k + 1)),
                    language,
                );
                assert(before.found + (matches_in(listed(forest).take(k + 1), language)
                    + matches_in(walk(forest[k].children() + forest.skip(k + 1)), language))
                    =~= before.found + matches_in(listed(forest).take(k + 1), language)
                    + matches_in(walk(forest[k].children() + forest.skip(k + 1)), language));
            }
        }
        match task.resume(listing) {
            Step::Finished(delivery) => {
                proof {
                    let last = after_listing(before, listing_of(*target), language);
                    assert(last == proceed(listed(forest), before.found, language));
                    assert(k >= forest.len());
                    assert(last.found == goal);
                }
                return delivery;
            },
            Step::Awaiting(resumed) => {
                task = resumed;
                match next {
                    Some(node) => {
                        target = node;
                    },
                    None => {
                        assert(false);
                    },
                }
            },
        }
    }
}

/// A search that begins at the root of a snapshot and is answered from it
/// delivers exactly what a search of the snapshot finds.
pub proof fn lemma_driven_search_agrees_with_scan(root: Node, language: Set<Seq<char>>)
    ensures
        drive(initial(root.path@), root, Seq::empty(), language) == matches_in(
            walk(root.children()),
            language,
        ),
{
    let state = initial(root.path@);
    assert(state.agenda =~= listed(Seq::<Node>::empty()));
    lemma_drive_finds_the_rest(state, root, Seq::empty(), language);
    assert(root.children() + Seq::<Node>::empty() =~= root.children());
    assert(state.found + matches_in(walk(root.children()), language) =~= matches_in(
        walk(root.children()),
        language,
    ));
}

} // verus!
