//! Error isolation: a directory that cannot be listed costs a search the
//! entries below that directory and nothing else.

use crate::tree::{
    lemma_matches_concat, lemma_matches_one, lemma_walk_concat, lemma_walk_one, matches_in, walk,
    walk_node, EntryView, Node,
};
use vstd::prelude::*;

verus! {

/// What a branch contributes to a search stands between what its siblings
/// contribute, and theirs does not depend on it.
pub proof fn lemma_branch_between_siblings(
    before: Seq<Node>,
    branch: Node,
    after: Seq<Node>,
    language: Set<Seq<char>>,
)
    ensures
        matches_in(walk(before + seq![branch] + after), language) == matches_in(
            walk(before),
            language,
        ) + matches_in(walk_node(branch), language) + matches_in(walk(after), language),
{
    lemma_walk_concat(before + seq![branch], after);
    lemma_walk_concat(before, seq![branch]);
    lemma_walk_one(branch);
    lemma_matches_concat(walk(before) + walk_node(branch), walk(after), language);
    lemma_matches_concat(walk(before), walk_node(branch), language);
}

/// A branch contributes its own entry, if that matches, and then whatever
/// its children contribute.
pub proof fn lemma_branch_contribution(branch: Node, language: Set<Seq<char>>)
    ensures
        matches_in(walk_node(branch), language) == matches_in(seq![branch.entry()], language)
            + matches_in(walk(branch.children()), language),
{
    if !(branch.kind is Directory) {
        assert(walk(branch.children()) =~= Seq::<EntryView>::empty());
    }
    assert(walk_node(branch) =~= seq![branch.entry()] + walk(branch.children()));
    lemma_matches_concat(seq![branch.entry()], walk(branch.children()), language);
}

/// A directory that cannot be listed contributes its own entry, if that
/// matches, and nothing from below it.
pub proof fn lemma_unreadable_branch(branch: Node, language: Set<Seq<char>>)
    requires
        branch.kind is Unreadable,
    ensures
        walk_node(branch) == seq![branch.entry()],
        matches_in(walk_node(branch), language) == if language.contains(branch.name@) {
            seq![branch.path@]
        } else {
            Seq::<Seq<char>>::empty()
        },
{
    lemma_matches_one(branch.entry(), language);
}

/// A sequence with the run from `start` up to `end` taken out.
pub open spec fn without_run<A>(whole: Seq<A>, start: int, end: int) -> Seq<A> {
    whole.take(start) + whole.skip(end)
}

/// Whether `part` is `whole` with one run of neighbours taken out: nothing
/// else is missing, and what stays keeps its order.
pub open spec fn loses_one_run<A>(whole: Seq<A>, part: Seq<A>) -> bool {
    exists|start: int, end: int|
        0 <= start <= end <= whole.len() && part == #[trigger] without_run(whole, start, end)
}

/// Whether `after` is `before` with one directory turned unreadable and all
/// else the same. The trail leads to that directory: its first step is a
/// position among the siblings at the top, each further step a position
/// among the children of the directory reached before.
pub open spec fn seals(before: Seq<Node>, after: Seq<Node>, trail: Seq<int>) -> bool
    decreases trail.len(),
{
    &&& trail.len() > 0
    &&& before.len() == after.len()
    &&& 0 <= trail[0] < before.len()
    &&& forall|j: int| 0 <= j < before.len() && j != trail[0] ==> #[trigger] after[j] == before[j]
    &&& after[trail[0]].entry() == before[trail[0]].entry()
    &&& before[trail[0]].kind is Directory
    &&& if trail.len() == 1 {
        after[trail[0]].kind is Unreadable
    } else {
        &&& after[trail[0]].kind is Directory
        &&& seals(before[trail[0]].children(), after[trail[0]].children(), trail.drop_first())
    }
}

/// Taking a run out of the middle part of a sequence leaves the parts around
/// it alone.
proof fn lemma_without_run_inside<A>(
    front: Seq<A>,
    middle: Seq<A>,
    back: Seq<A>,
    start: int,
    end: int,
)
    requires
        0 <= start <= end <= middle.len(),
    ensures
        without_run(front + middle + back, front.len() + start, front.len() + end) == front
            + without_run(middle, start, end) + back,
{
    assert(without_run(front + middle + back, front.len() + start, front.len() + end) =~= front
        + without_run(middle, start, end) + back);
}

/// A directory that turns unreadable, anywhere in the tree, takes out of the
/// result one run of paths, the matches below it. Every other match stays,
/// in its place among the others.
pub proof fn lemma_sealed_directory_loses_one_run(
    before: Seq<Node>,
    after: Seq<Node>,
    trail: Seq<int>,
    language: Set<Seq<char>>,
)
    requires
        seals(before, after, trail),
    ensures
        loses_one_run(matches_in(walk(before), language), matches_in(walk(after), language)),
    decreases trail.len(),
{
    let i = trail[0];
    let front = before.take(i);
    let back = before.skip(i + 1);
    assert(before =~= front + seq![before[i]] + back);
    assert(after =~= front + seq![after[i]] + back) by {
        assert forall|j: int| 0 <= j < after.len() implies after[j] == (front + seq![after[i]]
            + back)[j] by {
            if j != i {
                assert(after[j] == before[j]);
            }
        }
    }
    lemma_branch_between_siblings(front, before[i], back, language);
    lemma_branch_between_siblings(front, after[i], back, language);
    lemma_branch_contribution(before[i], language);
    lemma_branch_contribution(after[i], language);
    let ahead = matches_in(walk(front), language) + matches_in(seq![before[i].entry()], language);
    let behind = matches_in(walk(back), language);
    let below_before = matches_in(walk(before[i].children()), language);
    let below_after = matches_in(walk(after[i].children()), language);
    assert(matches_in(walk(before), language) =~= ahead + below_before + behind);
    assert(matches_in(walk(after), language) =~= ahead + below_after + behind);
    if trail.len() == 1 {
        assert(walk(after[i].children()) =~= Seq::<EntryView>::empty());
        assert(below_after =~= Seq::<Seq<char>>::empty());
        assert(below_after =~= without_run(below_before, 0, below_before.len() as int));
        lemma_without_run_inside(ahead, below_before, behind, 0, below_before.len() as int);
    } else {
        lemma_sealed_directory_loses_one_run(
            before[i].children(),
            after[i].children(),
            trail.drop_first(),
            language,
        );
        let (start, end) = choose|start: int, end: int|
            0 <= start <= end <= below_before.len() && below_after == #[trigger] without_run(
                below_before,
                start,
                end,
            );
        lemma_without_run_inside(ahead, below_before, behind, start, end);
    }
}

} // verus!
