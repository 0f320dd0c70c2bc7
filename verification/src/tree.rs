//! Directory entries, snapshots of a directory tree, and what a search finds
//! in one.

use crate::pattern::CompiledPattern;
use vstd::prelude::*;
use vstd::string::*;

verus! {

/// One child of a directory, as a listing reports it.
#[derive(Debug)]
pub struct Entry {
    /// The bare name, without any directory in front.
    pub name: String,
    /// The full path.
    pub path: String,
    /// Whether the entry is a directory, to be listed in its turn.
    pub is_dir: bool,
}

/// What a directory reader reports of one child, before it is decided
/// whether a search looks at the child at all.
#[derive(Debug)]
pub struct RawEntry {
    /// The bare name, unless it is no valid Unicode text.
    pub name: Option<String>,
    /// The full path.
    pub path: String,
    /// Whether the path leads to a regular file.
    pub is_file: bool,
    /// Whether the path leads to a directory.
    pub is_dir: bool,
}

impl RawEntry {
    /// Whether a search looks at the child: it is a file or a directory, and
    /// it has a name that can be held against a text pattern.
    pub open spec fn eligible(&self) -> bool {
        self.name is Some && (self.is_file || self.is_dir)
    }
}

impl Entry {
    /// The entry for a child that a search looks at, and `None` for any
    /// other child.
    pub fn from_raw(raw: RawEntry) -> (entry: Option<Entry>)
        ensures
            entry is Some <==> raw.eligible(),
            entry matches Some(e) ==> e@ == (EntryView {
                name: raw.name.unwrap()@,
                path: raw.path@,
                is_dir: raw.is_dir,
            }),
    {
        if !raw.is_file && !raw.is_dir {
            return None;
        }
        match raw.name {
            Some(name) => Some(Entry { name, path: raw.path, is_dir: raw.is_dir }),
            None => None,
        }
    }

    /// An entry with its own copies of the name and the path.
    pub fn new(name: &str, path: &str, is_dir: bool) -> (entry: Entry)
        ensures
            entry@ == (EntryView { name: name@, path: path@, is_dir }),
    {
        Entry { name: String::from_str(name), path: String::from_str(path), is_dir }
    }
}

/// The mathematical value of an [`Entry`].
pub struct EntryView {
    pub name: Seq<char>,
    pub path: Seq<char>,
    pub is_dir: bool,
}

impl View for Entry {
    type V = EntryView;

    open spec fn view(&self) -> EntryView {
        EntryView { name: self.name@, path: self.path@, is_dir: self.is_dir }
    }
}

/// Why a directory could not be listed.
#[derive(Debug)]
pub struct ReadError {
    /// The reason, in the words of whoever tried.
    pub reason: String,
}

/// The entries of a listing as mathematical values.
pub open spec fn entries_of(listing: Seq<Entry>) -> Seq<EntryView> {
    listing.map_values(|e: Entry| e@)
}

/// What an attempt to list a directory contributes: its entries, or nothing
/// where the attempt failed.
pub open spec fn listing_view(listing: Result<Vec<Entry>, ReadError>) -> Option<Seq<EntryView>> {
    match listing {
        Ok(entries) => Some(entries_of(entries@)),
        Err(_) => None,
    }
}

/// What stands behind an entry of a snapshot.
#[derive(Debug)]
pub enum NodeKind {
    /// A file.
    File,
    /// A directory whose listing succeeded, with its children in listing order.
    Directory(Vec<Node>),
    /// A directory whose listing failed.
    Unreadable,
}

/// An entry of a snapshot together with everything below it.
#[derive(Debug)]
pub struct Node {
    pub name: String,
    pub path: String,
    pub kind: NodeKind,
}

impl Node {
    /// A file.
    pub fn file(name: &str, path: &str) -> (node: Node)
        ensures
            node.name@ == name@,
            node.path@ == path@,
            node.kind is File,
    {
        Node { name: String::from_str(name), path: String::from_str(path), kind: NodeKind::File }
    }

    /// A directory that lists the given children, in their order.
    pub fn directory(name: &str, path: &str, children: Vec<Node>) -> (node: Node)
        ensures
            node.name@ == name@,
            node.path@ == path@,
            node.kind == NodeKind::Directory(children),
    {
        Node {
            name: String::from_str(name),
            path: String::from_str(path),
            kind: NodeKind::Directory(children),
        }
    }

    /// A directory that cannot be listed.
    pub fn unreadable(name: &str, path: &str) -> (node: Node)
        ensures
            node.name@ == name@,
            node.path@ == path@,
            node.kind is Unreadable,
    {
        Node {
            name: String::from_str(name),
            path: String::from_str(path),
            kind: NodeKind::Unreadable,
        }
    }

    /// The entry under which the node appears in its parent's listing.
    pub open spec fn entry(&self) -> EntryView {
        EntryView { name: self.name@, path: self.path@, is_dir: !(self.kind is File) }
    }

    /// The children that a listing of the node yields; none for a file or an
    /// unreadable directory.
    pub open spec fn children(&self) -> Seq<Node> {
        match self.kind {
            NodeKind::Directory(nodes) => nodes@,
            _ => Seq::empty(),
        }
    }
}

/// The entries of one node and of everything below it: the node first, then
/// its children's entries in listing order.
pub open spec fn walk_node(node: Node) -> Seq<EntryView>
    decreases node,
{
    match node.kind {
        NodeKind::Directory(nodes) => seq![node.entry()] + walk(nodes@),
        _ => seq![node.entry()],
    }
}

/// Every entry below a directory with the given children, in the order in
/// which a depth-first traversal discovers them.
pub open spec fn walk(forest: Seq<Node>) -> Seq<EntryView>
    decreases forest,
{
    if forest.len() == 0 {
        Seq::empty()
    } else {
        walk(forest.drop_last()) + walk_node(forest.last())
    }
}

/// The paths of the entries whose name is in the language, in order.
pub open spec fn matches_in(entries: Seq<EntryView>, language: Set<Seq<char>>) -> Seq<Seq<char>> {
    entries.filter(|e: EntryView| language.contains(e.name)).map_values(|e: EntryView| e.path)
}

/// The texts of a list of strings.
pub open spec fn texts(strings: Seq<String>) -> Seq<Seq<char>> {
    strings.map_values(|s: String| s@)
}

/// Walking two runs of siblings one after the other is walking them together.
pub proof fn lemma_walk_concat(before: Seq<Node>, after: Seq<Node>)
    ensures
        walk(before + after) == walk(before) + walk(after),
    decreases after.len(),
{
    if after.len() == 0 {
        assert(before + after =~= before);
        assert(walk(before) + walk(after) =~= walk(before));
    } else {
        lemma_walk_concat(before, after.drop_last());
        assert((before + after).drop_last() =~= before + after.drop_last());
        assert((before + after).last() == after.last());
        assert(walk(before) + walk(after.drop_last()) + walk_node(after.last()) =~= walk(before)
            + (walk(after.drop_last()) + walk_node(after.last())));
    }
}

/// A single node walks as itself.
pub proof fn lemma_walk_one(node: Node)
    ensures
        walk(seq![node]) == walk_node(node),
{
    let one = seq![node];
    assert(one.drop_last() =~= Seq::<Node>::empty());
    assert(walk(one.drop_last()) =~= Seq::<EntryView>::empty());
    assert(walk(one) =~= walk_node(node));
}

/// The matches of two runs of entries are the matches of the first followed
/// by those of the second.
pub proof fn lemma_matches_concat(
    first: Seq<EntryView>,
    second: Seq<EntryView>,
    language: Set<Seq<char>>,
)
    ensures
        matches_in(first + second, language) == matches_in(first, language) + matches_in(
            second,
            language,
        ),
{
    let keep = |e: EntryView| language.contains(e.name);
    Seq::filter_distributes_over_add(first, second, keep);
    assert(matches_in(first + second, language) =~= matches_in(first, language) + matches_in(
        second,
        language,
    ));
}

/// One entry contributes its path if its name matches, and nothing otherwise.
pub proof fn lemma_matches_one(entry: EntryView, language: Set<Seq<char>>)
    ensures
        matches_in(seq![entry], language) == if language.contains(entry.name) {
            seq![entry.path]
        } else {
            Seq::<Seq<char>>::empty()
        },
{
    let keep = |e: EntryView| language.contains(e.name);
    let one = seq![entry];
    assert(one.drop_last() =~= Seq::<EntryView>::empty());
    reveal_with_fuel(Seq::filter, 2);
    assert(one.filter(keep) =~= if keep(entry) {
        seq![entry]
    } else {
        Seq::<EntryView>::empty()
    });
    assert(matches_in(one, language) =~= if language.contains(entry.name) {
        seq![entry.path]
    } else {
        Seq::<Seq<char>>::empty()
    });
}

/// Whatever is found is the path of one of the entries, and that entry's name
/// is in the language.
pub proof fn lemma_found_is_matching_entry(
    entries: Seq<EntryView>,
    language: Set<Seq<char>>,
    path: Seq<char>,
)
    requires
        matches_in(entries, language).contains(path),
    ensures
        exists|j: int|
            0 <= j < entries.len() && (#[trigger] entries[j]).path == path && language.contains(
                entries[j].name,
            ),
{
    let keep = |e: EntryView| language.contains(e.name);
    let kept = entries.filter(keep);
    let found = matches_in(entries, language);
    let i = choose|i: int| 0 <= i < found.len() && found[i] == path;
    assert(found[i] == kept[i].path);
    entries.lemma_filter_pred(keep, i);
    assert(kept.contains(kept[i]));
    entries.lemma_filter_contains_rev(keep, kept[i]);
    let j = choose|j: int| 0 <= j < entries.len() && entries[j] == kept[i];
    assert(entries[j].path == path && language.contains(entries[j].name));
}

/// Every entry whose name is in the language is found.
pub proof fn lemma_matching_entry_is_found(
    entries: Seq<EntryView>,
    language: Set<Seq<char>>,
    j: int,
)
    requires
        0 <= j < entries.len(),
        language.contains(entries[j].name),
    ensures
        matches_in(entries, language).contains(entries[j].path),
{
    let keep = |e: EntryView| language.contains(e.name);
    let kept = entries.filter(keep);
    entries.lemma_filter_contains(keep, j);
    let i = choose|i: int| 0 <= i < kept.len() && kept[i] == entries[j];
    assert(matches_in(entries, language)[i] == entries[j].path);
}

/// Where the language holds every name, as that of the empty pattern does,
/// every entry is found, each once and in order.
pub proof fn lemma_full_language_finds_all(entries: Seq<EntryView>)
    ensures
        matches_in(entries, Set::full()) == entries.map_values(|e: EntryView| e.path),
        matches_in(entries, Set::full()).len() == entries.len(),
{
    let language = Set::<Seq<char>>::full();
    let keep = |e: EntryView| language.contains(e.name);
    lemma_all_kept(entries, keep);
    assert(matches_in(entries, language) =~= entries.map_values(|e: EntryView| e.path));
}

/// A filter that lets everything pass changes nothing.
proof fn lemma_all_kept(entries: Seq<EntryView>, keep: spec_fn(EntryView) -> bool)
    requires
        forall|i: int| 0 <= i < entries.len() ==> keep(#[trigger] entries[i]),
    ensures
        entries.filter(keep) == entries,
    decreases entries.len(),
{
    reveal(Seq::filter);
    if entries.len() > 0 {
        let front = entries.drop_last();
        assert forall|i: int| 0 <= i < front.len() implies keep(#[trigger] front[i]) by {
            assert(front[i] == entries[i]);
        }
        lemma_all_kept(front, keep);
        assert(keep(entries[entries.len() - 1]));
        assert(front.push(entries.last()) =~= entries);
    }
}

/// An entry is discovered below a directory exactly if it is one of the
/// directory's children or is discovered below one of them.
pub proof fn lemma_walk_members(forest: Seq<Node>, entry: EntryView)
    ensures
        walk(forest).contains(entry) <==> exists|i: int|
            0 <= i < forest.len() && ((#[trigger] forest[i]).entry() == entry || walk(
                forest[i].children(),
            ).contains(entry)),
    decreases forest.len(),
{
    if forest.len() > 0 {
        let front = forest.drop_last();
        let last = forest.last();
        lemma_walk_members(front, entry);
        let below = walk(last.children());
        assert(walk_node(last) =~= seq![last.entry()] + below) by {
            if !(last.kind is Directory) {
                assert(below =~= Seq::<EntryView>::empty());
            }
        }
        if walk(forest).contains(entry) {
            let j = choose|j: int| 0 <= j < walk(forest).len() && walk(forest)[j] == entry;
            if j < walk(front).len() {
                assert(walk(front)[j] == entry);
                let i = choose|i: int|
                    0 <= i < front.len() && ((#[trigger] front[i]).entry() == entry || walk(
                        front[i].children(),
                    ).contains(entry));
                assert(forest[i] == front[i]);
            } else if j == walk(front).len() {
                assert(forest[forest.len() - 1].entry() == entry);
            } else {
                assert(below[j - walk(front).len() - 1] == entry);
                assert(walk(forest[forest.len() - 1].children()).contains(entry));
            }
        }
        if exists|i: int|
            0 <= i < forest.len() && ((#[trigger] forest[i]).entry() == entry || walk(
                forest[i].children(),
            ).contains(entry)) {
            let i = choose|i: int|
                0 <= i < forest.len() && ((#[trigger] forest[i]).entry() == entry || walk(
                    forest[i].children(),
                ).contains(entry));
            if i < front.len() {
                assert(front[i] == forest[i]);
                assert(walk(front).contains(entry));
                let j = choose|j: int| 0 <= j < walk(front).len() && walk(front)[j] == entry;
                assert(walk(forest)[j] == entry);
            } else if last.entry() == entry {
                assert(walk(forest)[walk(front).len() as int] == entry);
            } else {
                let j = choose|j: int| 0 <= j < below.len() && below[j] == entry;
                assert(walk(forest)[walk(front).len() + 1 + j] == entry);
            }
        }
    }
}

/// Whether the node's path begins with `parent`, and so on below it: each
/// child's path begins with the path of the directory it is listed in.
pub open spec fn nested_node(parent: Seq<char>, node: Node) -> bool
    decreases node,
{
    &&& parent.is_prefix_of(node.path@)
    &&& match node.kind {
        NodeKind::Directory(nodes) => nested(node.path@, nodes@),
        _ => true,
    }
}

/// Whether the listing of the directory at `parent`, and every listing
/// below it, reports paths that begin with the path of the directory listed.
pub open spec fn nested(parent: Seq<char>, forest: Seq<Node>) -> bool
    decreases forest,
{
    forall|i: int| 0 <= i < forest.len() ==> nested_node(parent, #[trigger] forest[i])
}

/// Where listings report paths below the directory listed, every entry
/// discovered has a path that begins with the root's.
pub proof fn lemma_walk_stays_below(
    root: Seq<char>,
    parent: Seq<char>,
    forest: Seq<Node>,
    j: int,
)
    requires
        root.is_prefix_of(parent),
        nested(parent, forest),
        0 <= j < walk(forest).len(),
    ensures
        root.is_prefix_of(walk(forest)[j].path),
    decreases forest,
{
    if forest.len() == 0 {
        assert(walk(forest).len() == 0);
    }
    let front = forest.drop_last();
    let last = forest.last();
    assert(walk(forest) == walk(front) + walk_node(last));
    assert(nested_node(parent, forest[forest.len() - 1]));
    assert(root.is_prefix_of(last.path@)) by {
        assert(root =~= last.path@.subrange(0, root.len() as int));
    }
    if j < walk(front).len() {
        assert forall|i: int| 0 <= i < front.len() implies nested_node(
            parent,
            #[trigger] front[i],
        ) by {
            assert(front[i] == forest[i]);
        }
        lemma_walk_stays_below(root, parent, front, j);
    } else if j > walk(front).len() {
        match last.kind {
            NodeKind::Directory(nodes) => {
                assert(walk_node(last) == seq![last.entry()] + walk(nodes@));
                lemma_walk_stays_below(root, last.path@, nodes@, j - walk(front).len() - 1);
            },
            _ => {
                assert(walk_node(last) == seq![last.entry()]);
            },
        }
    }
}

/// Where listings report paths below the directory listed, every path found
/// begins with the root's: nothing from outside the subtree is returned.
pub proof fn lemma_found_stays_below(root: Node, language: Set<Seq<char>>, path: Seq<char>)
    requires
        nested(root.path@, root.children()),
        matches_in(walk(root.children()), language).contains(path),
    ensures
        root.path@.is_prefix_of(path),
{
    let entries = walk(root.children());
    lemma_found_is_matching_entry(entries, language, path);
    let j = choose|j: int|
        0 <= j < entries.len() && (#[trigger] entries[j]).path == path && language.contains(
            entries[j].name,
        );
    lemma_walk_stays_below(root.path@, root.path@, root.children(), j);
}

/// Records the verdict on one entry: its path joins what was found if its
/// name matched, and nothing changes otherwise.
pub fn record(found: &mut Vec<String>, path: &str, matched: bool)
    ensures
        texts(final(found)@) == if matched {
            texts(old(found)@).push(path@)
        } else {
            texts(old(found)@)
        },
{
    if matched {
        found.push(String::from_str(path));
        assert(texts(found@) =~= texts(old(found)@).push(path@));
    }
}

/// Searches a snapshot: the paths of all entries below `root` whose name the
/// matcher accepts, in discovery order. The root itself is no candidate, and
/// a root that is no readable directory yields nothing.
pub fn scan(root: &Node, matcher: &CompiledPattern) -> (found: Vec<String>)
    ensures
        texts(found@) == matches_in(walk(root.children()), matcher.language()),
{
    let mut found: Vec<String> = Vec::new();
    assert(texts(found@) =~= Seq::<Seq<char>>::empty());
    match &root.kind {
        NodeKind::Directory(nodes) => {
            scan_children(nodes, matcher, &mut found);
        },
        _ => {
            assert(walk(root.children()) =~= Seq::<EntryView>::empty());
            assert(matches_in(walk(root.children()), matcher.language()) =~= Seq::<
                Seq<char>,
            >::empty());
        },
    }
    found
}

/// Appends to `found` what a search of the given siblings and their subtrees
/// finds.
fn scan_children(nodes: &Vec<Node>, matcher: &CompiledPattern, found: &mut Vec<String>)
    ensures
        texts(final(found)@) == texts(old(found)@) + matches_in(
            walk(nodes@),
            matcher.language(),
        ),
    decreases nodes,
{
    let ghost language = matcher.language();
    let mut i: usize = 0;
    assert(nodes@.take(0) =~= Seq::<Node>::empty());
    assert(matches_in(walk(nodes@.take(0)), language) =~= Seq::<Seq<char>>::empty());
    assert(texts(found@) + Seq::<Seq<char>>::empty() =~= texts(found@));
    while i < nodes.len()
        invariant
            i <= nodes.len(),
            language == matcher.language(),
            texts(found@) == texts(old(found)@) + matches_in(
                walk(nodes@.take(i as int)),
                language,
            ),
        decreases nodes.len() - i,
    {
        let node = &nodes[i];
        let ghost before = texts(found@);
        let ghost seen = walk(nodes@.take(i as int));
        let matched = matcher.matches(node.name.as_str());
        record(found, node.path.as_str(), matched);
        proof {
            lemma_matches_one(node.entry(), language);
            assert(texts(found@) =~= before + matches_in(seq![node.entry()], language));
        }
        match &node.kind {
            NodeKind::Directory(children) => {
                scan_children(children, matcher, found);
                proof {
                    lemma_matches_concat(seq![node.entry()], walk(children@), language);
                }
            },
            _ => {},
        }
        proof {
            assert(texts(found@) =~= before + matches_in(walk_node(*node), language));
            assert(nodes@.take(i + 1).drop_last() =~= nodes@.take(i as int));
            assert(nodes@.take(i + 1).last() == *node);
            lemma_matches_concat(seen, walk_node(*node), language);
        }
        i += 1;
    }
    assert(nodes@.take(i as int) =~= nodes@);
}

} // verus!
