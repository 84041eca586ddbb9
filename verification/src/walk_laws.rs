//! What a whole walk finds, whatever the directories hold.
use vstd::prelude::*;

use crate::walk;
use crate::walk::Entry;
use crate::walk::EntryKind;
use crate::walk::Listing;
use crate::walk::WalkState;

verus! {

/// The directories that the walk goes into from a directory, where `tree` gives
/// the entries of each.
pub open spec fn children<P>(tree: spec_fn(P) -> Seq<Entry<P>>, recursive: bool) -> spec_fn(
    P,
) -> Seq<P> {
    |dir: P| walk::entered_paths(tree(dir), recursive)
}

/// The files that are scanned in a directory.
pub open spec fn own_files<P>(
    tree: spec_fn(P) -> Seq<Entry<P>>,
    output: Option<Seq<u8>>,
) -> spec_fn(P) -> Seq<P> {
    |dir: P| walk::scanned_paths(tree(dir), output)
}

/// A walk after at most `turns` directories: the directories read, in order,
/// and how far the walk has come. In each turn the first directory that waits
/// is taken from the queue and its entries are dealt with.
pub open spec fn walked<P>(
    tree: spec_fn(P) -> Seq<Entry<P>>,
    start: WalkState<P>,
    turns: nat,
) -> (Seq<P>, WalkState<P>)
    decreases turns,
{
    if turns == 0 {
        (Seq::empty(), start)
    } else {
        let (read, state) = walked(tree, start, (turns - 1) as nat);
        if state.pending.len() == 0 {
            (read, state)
        } else {
            let dir = state.pending[0];
            (read.push(dir), walk::walk_absorbed(walk::walk_taken(state), tree(dir)))
        }
    }
}

/// A way from `root` down to a directory: each is entered from the one before.
pub open spec fn is_way<P>(
    tree: spec_fn(P) -> Seq<Entry<P>>,
    recursive: bool,
    root: P,
    way: Seq<P>,
) -> bool {
    &&& way.len() > 0
    &&& way[0] == root
    &&& forall|i: int|
        0 < i < way.len() ==> children(tree, recursive)(way[i - 1]).contains(#[trigger] way[i])
}

/// The walk has to come to `dir`.
pub open spec fn is_reachable<P>(
    tree: spec_fn(P) -> Seq<Entry<P>>,
    recursive: bool,
    root: P,
    dir: P,
) -> bool {
    exists|way: Seq<P>| #[trigger] is_way(tree, recursive, root, way) && way.last() == dir
}

/// Directories are read breadth first: those that were read, and behind them
/// those that wait, are the root and then the children of those that were read,
/// in the order in which their parents were read. The files found are those of
/// the directories read, in that order.
pub proof fn lemma_walk_is_breadth_first<P>(
    tree: spec_fn(P) -> Seq<Entry<P>>,
    root: P,
    recursive: bool,
    output: Option<Seq<u8>>,
    turns: nat,
)
    ensures
        ({
            let (read, state) = walked(tree, walk::walk_start(root, recursive, output), turns);
            &&& state.recursive == recursive
            &&& state.output == output
            &&& read + state.pending == seq![root] + read.flat_map(children(tree, recursive))
            &&& state.files == read.flat_map(own_files(tree, output))
        }),
    decreases turns,
{
    let start = walk::walk_start(root, recursive, output);
    let down = children(tree, recursive);
    let own = own_files(tree, output);
    if turns == 0 {
        let none: Seq<P> = Seq::empty();
        assert(none.flat_map(down) =~= none);
        assert(none.flat_map(own) =~= none);
        assert(none + start.pending =~= seq![root] + none.flat_map(down));
    } else {
        lemma_walk_is_breadth_first(tree, root, recursive, output, (turns - 1) as nat);
        let (read, state) = walked(tree, start, (turns - 1) as nat);
        if state.pending.len() > 0 {
            let dir = state.pending[0];
            read.lemma_flat_map_push(down, dir);
            read.lemma_flat_map_push(own, dir);
            let next = walk::walk_absorbed(walk::walk_taken(state), tree(dir));
            assert(read.push(dir) + next.pending =~= (read + state.pending) + down(dir));
            assert(read.push(dir) + next.pending =~= seq![root] + read.push(dir).flat_map(down));
        }
    }
}

/// A walk that does not go into directories is over when the root was read, and
/// has found the files of the root and no others.
pub proof fn lemma_flat_walk_reads_the_root_only<P>(
    tree: spec_fn(P) -> Seq<Entry<P>>,
    root: P,
    output: Option<Seq<u8>>,
    turns: nat,
)
    requires
        turns > 0,
    ensures
        ({
            let (read, state) = walked(tree, walk::walk_start(root, false, output), turns);
            &&& read == seq![root]
            &&& state.pending.len() == 0
            &&& state.files == walk::scanned_paths(tree(root), output)
        }),
    decreases turns,
{
    let start = walk::walk_start(root, false, output);
    if turns > 1 {
        lemma_flat_walk_reads_the_root_only(tree, root, output, (turns - 1) as nat);
    } else {
        assert(walked(tree, start, 0) == (Seq::<P>::empty(), start));
        lemma_nothing_is_entered(tree(root));
        let (read, state) = walked(tree, start, 1);
        assert(read =~= seq![root]);
        assert(state.pending =~= Seq::empty());
        assert(state.files =~= walk::scanned_paths(tree(root), output));
    }
}

proof fn lemma_nothing_is_entered<P>(entries: Seq<Entry<P>>)
    ensures
        walk::entered_paths(entries, false) == Seq::<P>::empty(),
{
    entries.lemma_all_neg_filter_empty(|e: Entry<P>| walk::is_entered(e, false));
    assert(walk::entered_paths(entries, false) =~= Seq::<P>::empty());
}

/// What is in a flattened list is in one of its parts.
pub proof fn lemma_flat_map_contains<A, B>(list: Seq<A>, f: spec_fn(A) -> Seq<B>, elem: B)
    ensures
        list.flat_map(f).contains(elem) <==> exists|i: int|
            0 <= i < list.len() && f(#[trigger] list[i]).contains(elem),
    decreases list.len(),
{
    if list.len() == 0 {
        assert(list.flat_map(f) =~= Seq::empty());
    } else {
        let front = list.drop_last();
        front.lemma_flat_map_push(f, list.last());
        assert(front.push(list.last()) =~= list);
        lemma_flat_map_contains(front, f, elem);
        let whole = list.flat_map(f);
        assert(whole == front.flat_map(f) + f(list.last()));
        if whole.contains(elem) {
            let k = choose|k: int| 0 <= k < whole.len() && whole[k] == elem;
            if k < front.flat_map(f).len() {
                assert(front.flat_map(f)[k] == elem);
                let i = choose|i: int| 0 <= i < front.len() && f(#[trigger] front[i]).contains(elem);
                assert(list[i] == front[i]);
            } else {
                assert(f(list.last())[k - front.flat_map(f).len()] == elem);
                assert(f(list[list.len() - 1]).contains(elem));
            }
        }
        if exists|i: int| 0 <= i < list.len() && f(#[trigger] list[i]).contains(elem) {
            let i = choose|i: int| 0 <= i < list.len() && f(#[trigger] list[i]).contains(elem);
            if i < front.len() {
                assert(front[i] == list[i]);
                let k = choose|k: int|
                    0 <= k < front.flat_map(f).len() && front.flat_map(f)[k] == elem;
                assert(whole[k] == elem);
            } else {
                let tail = f(list.last());
                let k = choose|k: int| 0 <= k < tail.len() && tail[k] == elem;
                assert(whole[front.flat_map(f).len() + k] == elem);
            }
        }
    }
}

/// When a walk is over it has read the directories that can be reached from the
/// root, and no others.
pub proof fn lemma_finished_walk_has_read_what_is_reachable<P>(
    tree: spec_fn(P) -> Seq<Entry<P>>,
    root: P,
    recursive: bool,
    output: Option<Seq<u8>>,
    turns: nat,
    dir: P,
)
    requires
        walked(tree, walk::walk_start(root, recursive, output), turns).1.pending.len() == 0,
    ensures
        walked(tree, walk::walk_start(root, recursive, output), turns).0.contains(dir)
            <==> is_reachable(tree, recursive, root, dir),
{
    let start = walk::walk_start(root, recursive, output);
    let (read, state) = walked(tree, start, turns);
    lemma_walk_is_breadth_first(tree, root, recursive, output, turns);
    assert(read + state.pending =~= read);
    if read.contains(dir) {
        let k = choose|k: int| 0 <= k < read.len() && read[k] == dir;
        lemma_read_is_reachable(tree, root, recursive, output, turns, k);
    }
    if is_reachable(tree, recursive, root, dir) {
        let way = choose|way: Seq<P>| #[trigger]
            is_way(tree, recursive, root, way) && way.last() == dir;
        assert(read[0] == root);
        lemma_way_is_read(tree, root, recursive, read, way, way.len() - 1);
    }
}

/// Every directory read or waiting can be reached.
proof fn lemma_read_is_reachable<P>(
    tree: spec_fn(P) -> Seq<Entry<P>>,
    root: P,
    recursive: bool,
    output: Option<Seq<u8>>,
    turns: nat,
    k: int,
)
    requires
        ({
            let (read, state) = walked(tree, walk::walk_start(root, recursive, output), turns);
            0 <= k < read.len() + state.pending.len()
        }),
    ensures
        ({
            let (read, state) = walked(tree, walk::walk_start(root, recursive, output), turns);
            is_reachable(tree, recursive, root, (read + state.pending)[k])
        }),
    decreases turns,
{
    let start = walk::walk_start(root, recursive, output);
    let down = children(tree, recursive);
    if turns == 0 {
        let way = seq![root];
        assert(is_way(tree, recursive, root, way));
        assert((Seq::<P>::empty() + start.pending)[k] == root);
        assert(way.last() == root);
    } else {
        let (read, state) = walked(tree, start, (turns - 1) as nat);
        lemma_walk_is_breadth_first(tree, root, recursive, output, (turns - 1) as nat);
        if state.pending.len() == 0 {
            lemma_read_is_reachable(tree, root, recursive, output, (turns - 1) as nat, k);
        } else {
            let dir = state.pending[0];
            let (read2, state2) = walked(tree, start, turns);
            assert(read2 + state2.pending =~= (read + state.pending) + down(dir));
            if k < read.len() + state.pending.len() {
                lemma_read_is_reachable(tree, root, recursive, output, (turns - 1) as nat, k);
            } else {
                let at = read.len() as int;
                lemma_read_is_reachable(tree, root, recursive, output, (turns - 1) as nat, at);
                assert((read + state.pending)[at] == dir);
                let way = choose|way: Seq<P>| #[trigger]
                    is_way(tree, recursive, root, way) && way.last() == dir;
                let child = (read2 + state2.pending)[k];
                assert(down(dir)[k - read.len() - state.pending.len()] == child);
                let longer = way.push(child);
                assert forall|i: int| 0 < i < longer.len() implies down(longer[i - 1]).contains(
                    #[trigger] longer[i],
                ) by {
                    if i < way.len() {
                        assert(longer[i] == way[i]);
                        assert(longer[i - 1] == way[i - 1]);
                    }
                }
                assert(is_way(tree, recursive, root, longer));
                assert(longer.last() == child);
            }
        }
    }
}

/// What lies on a way from the root has been read.
proof fn lemma_way_is_read<P>(
    tree: spec_fn(P) -> Seq<Entry<P>>,
    root: P,
    recursive: bool,
    read: Seq<P>,
    way: Seq<P>,
    i: int,
)
    requires
        read == seq![root] + read.flat_map(children(tree, recursive)),
        is_way(tree, recursive, root, way),
        0 <= i < way.len(),
    ensures
        read.contains(way[i]),
    decreases i,
{
    let down = children(tree, recursive);
    if i == 0 {
        assert(read[0] == root);
    } else {
        lemma_way_is_read(tree, root, recursive, read, way, i - 1);
        let k = choose|k: int| 0 <= k < read.len() && read[k] == way[i - 1];
        assert(down(read[k]).contains(way[i]));
        lemma_flat_map_contains(read, down, way[i]);
        let m = choose|m: int|
            0 <= m < read.flat_map(down).len() && read.flat_map(down)[m] == way[i];
        assert(read[m + 1] == way[i]);
    }
}

/// When a walk is over it has found exactly the files that are entries of a
/// directory that can be reached from the root, the output excepted.
pub proof fn lemma_finished_walk_has_found_every_file<P>(
    tree: spec_fn(P) -> Seq<Entry<P>>,
    root: P,
    recursive: bool,
    output: Option<Seq<u8>>,
    turns: nat,
    path: P,
)
    requires
        walked(tree, walk::walk_start(root, recursive, output), turns).1.pending.len() == 0,
    ensures
        walked(tree, walk::walk_start(root, recursive, output), turns).1.files.contains(path)
            <==> exists|dir: P|
            {
                &&& #[trigger] is_reachable(tree, recursive, root, dir)
                &&& walk::scanned_paths(tree(dir), output).contains(path)
            },
{
    let start = walk::walk_start(root, recursive, output);
    let (read, state) = walked(tree, start, turns);
    let own = own_files(tree, output);
    lemma_walk_is_breadth_first(tree, root, recursive, output, turns);
    lemma_flat_map_contains(read, own, path);
    if state.files.contains(path) {
        let i = choose|i: int| 0 <= i < read.len() && own(#[trigger] read[i]).contains(path);
        lemma_finished_walk_has_read_what_is_reachable(
            tree,
            root,
            recursive,
            output,
            turns,
            read[i],
        );
        assert(is_reachable(tree, recursive, root, read[i]));
    }
    if exists|dir: P|
        {
            &&& #[trigger] is_reachable(tree, recursive, root, dir)
            &&& walk::scanned_paths(tree(dir), output).contains(path)
        } {
        let dir = choose|dir: P|
            {
                &&& #[trigger] is_reachable(tree, recursive, root, dir)
                &&& walk::scanned_paths(tree(dir), output).contains(path)
            };
        lemma_finished_walk_has_read_what_is_reachable(
            tree,
            root,
            recursive,
            output,
            turns,
            dir,
        );
        let i = choose|i: int| 0 <= i < read.len() && read[i] == dir;
        assert(own(read[i]).contains(path));
    }
}

/// A path is among those to be scanned if and only if it is the path of an
/// entry to be scanned.
pub proof fn lemma_scanned_paths_are_those_of_files<P>(
    entries: Seq<Entry<P>>,
    output: Option<Seq<u8>>,
    path: P,
)
    ensures
        walk::scanned_paths(entries, output).contains(path) <==> exists|i: int|
            {
                &&& 0 <= i < entries.len()
                &&& walk::is_scanned(#[trigger] entries[i], output)
                &&& entries[i].path == path
            },
{
    let keep = |e: Entry<P>| walk::is_scanned(e, output);
    let kept = entries.filter(keep);
    let paths = walk::scanned_paths(entries, output);
    if paths.contains(path) {
        let k = choose|k: int| 0 <= k < paths.len() && paths[k] == path;
        entries.lemma_filter_pred(keep, k);
        entries.lemma_filter_contains_rev(keep, kept[k]);
        let i = choose|i: int| 0 <= i < entries.len() && entries[i] == kept[k];
        assert(walk::is_scanned(entries[i], output));
    }
    if exists|i: int|
        {
            &&& 0 <= i < entries.len()
            &&& walk::is_scanned(#[trigger] entries[i], output)
            &&& entries[i].path == path
        } {
        let i = choose|i: int|
            {
                &&& 0 <= i < entries.len()
                &&& walk::is_scanned(#[trigger] entries[i], output)
                &&& entries[i].path == path
            };
        entries.lemma_filter_contains(keep, i);
        let k = choose|k: int| 0 <= k < kept.len() && kept[k] == entries[i];
        assert(paths[k] == path);
    }
}

/// A directory that was read has the entries that were listed, and one that is
/// missing or could not be read has none.
pub proof fn lemma_entries_are_those_listed<P>(listing: Listing<P>)
    ensures
        listing matches Listing::Entries(list) ==> listing.entries() == list@,
        !(listing is Entries) ==> listing.entries().len() == 0,
{
}

/// The files of two lists of entries together are those of the one and behind them
/// those of the other, and likewise for the directories.
pub proof fn lemma_entries_count_one_by_one<P>(
    left: Seq<Entry<P>>,
    right: Seq<Entry<P>>,
    recursive: bool,
    output: Option<Seq<u8>>,
)
    ensures
        walk::scanned_paths(left + right, output) == walk::scanned_paths(left, output)
            + walk::scanned_paths(right, output),
        walk::entered_paths(left + right, recursive) == walk::entered_paths(left, recursive)
            + walk::entered_paths(right, recursive),
{
    let scan = |e: Entry<P>| walk::is_scanned(e, output);
    let enter = |e: Entry<P>| walk::is_entered(e, recursive);
    Seq::filter_distributes_over_add(left, right, scan);
    Seq::filter_distributes_over_add(left, right, enter);
    assert(walk::scanned_paths(left + right, output) =~= walk::scanned_paths(left, output)
        + walk::scanned_paths(right, output));
    assert(walk::entered_paths(left + right, recursive) =~= walk::entered_paths(left, recursive)
        + walk::entered_paths(right, recursive));
}

/// A regular file is scanned, whatever it is called, unless the place of the output
/// is known and is its own. Nothing else is scanned.
pub proof fn lemma_every_file_but_the_output_is_scanned<P>(
    path: P,
    kind: EntryKind,
    output: Option<Seq<u8>>,
)
    ensures
        walk::scanned_paths(seq![Entry { path, kind }], output) == match (kind, output) {
            (EntryKind::File(Some(place)), Some(taken)) => if place@ == taken {
                Seq::<P>::empty()
            } else {
                seq![path]
            },
            (EntryKind::File(_), _) => seq![path],
            _ => Seq::<P>::empty(),
        },
{
    let entry = Entry { path, kind };
    let none: Seq<Entry<P>> = Seq::empty();
    let keep = |e: Entry<P>| walk::is_scanned(e, output);
    reveal(Seq::filter);
    none.lemma_filter_push(entry, keep);
    assert(none.push(entry) =~= seq![entry]);
    assert(none.filter(keep) =~= none);
    assert(walk::scanned_paths(seq![entry], output) =~= if keep(entry) {
        seq![path]
    } else {
        Seq::<P>::empty()
    });
}

/// A directory is gone into, whatever it is called, where the walk goes into
/// directories. Nothing else is gone into.
pub proof fn lemma_every_directory_is_entered<P>(path: P, kind: EntryKind, recursive: bool)
    ensures
        walk::entered_paths(seq![Entry { path, kind }], recursive) == if recursive
            && kind is Directory {
            seq![path]
        } else {
            Seq::<P>::empty()
        },
{
    let entry = Entry { path, kind };
    let none: Seq<Entry<P>> = Seq::empty();
    let keep = |e: Entry<P>| walk::is_entered(e, recursive);
    reveal(Seq::filter);
    none.lemma_filter_push(entry, keep);
    assert(none.push(entry) =~= seq![entry]);
    assert(none.filter(keep) =~= none);
    assert(walk::entered_paths(seq![entry], recursive) =~= if keep(entry) {
        seq![path]
    } else {
        Seq::<P>::empty()
    });
}

/// Among entries, each regular file that is not the output is to be scanned, and what
/// is to be scanned is such a file.
pub proof fn lemma_files_among_entries<P>(
    entries: Seq<Entry<P>>,
    output: Option<Seq<u8>>,
    path: P,
)
    ensures
        walk::scanned_paths(entries, output).contains(path) <==> exists|i: int|
            {
                &&& 0 <= i < entries.len()
                &&& (#[trigger] entries[i]).path == path
                &&& entries[i].kind matches EntryKind::File(place)
                &&& !(place matches Some(bytes) && output == Some(bytes@))
            },
{
    lemma_scanned_paths_are_those_of_files(entries, output, path);
    if walk::scanned_paths(entries, output).contains(path) {
        let i = choose|i: int|
            {
                &&& 0 <= i < entries.len()
                &&& walk::is_scanned(#[trigger] entries[i], output)
                &&& entries[i].path == path
            };
        assert(entries[i].path == path);
    }
    if exists|i: int|
        {
            &&& 0 <= i < entries.len()
            &&& (#[trigger] entries[i]).path == path
            &&& entries[i].kind matches EntryKind::File(place)
            &&& !(place matches Some(bytes) && output == Some(bytes@))
        } {
        let i = choose|i: int|
            {
                &&& 0 <= i < entries.len()
                &&& (#[trigger] entries[i]).path == path
                &&& entries[i].kind matches EntryKind::File(place)
                &&& !(place matches Some(bytes) && output == Some(bytes@))
            };
        assert(walk::is_scanned(entries[i], output));
    }
}

/// Dealing with one entry adds a file at the end of the files found, or a directory
/// at the end of the queue, or nothing; and it changes nothing else.
pub proof fn lemma_one_entry_adds_one_path<P>(state: WalkState<P>, entry: Entry<P>)
    ensures
        ({
            let after = walk::walk_absorbed(state, seq![entry]);
            &&& after.recursive == state.recursive
            &&& after.output == state.output
            &&& match entry.kind {
                EntryKind::File(place) => {
                    &&& after.pending == state.pending
                    &&& after.files == if place matches Some(bytes) && state.output == Some(bytes@) {
                        state.files
                    } else {
                        state.files.push(entry.path)
                    }
                },
                EntryKind::Directory => {
                    &&& after.files == state.files
                    &&& after.pending == if state.recursive {
                        state.pending.push(entry.path)
                    } else {
                        state.pending
                    }
                },
                _ => after.files == state.files && after.pending == state.pending,
            }
        }),
{
    lemma_every_file_but_the_output_is_scanned(entry.path, entry.kind, state.output);
    lemma_every_directory_is_entered(entry.path, entry.kind, state.recursive);
    assert(entry == Entry { path: entry.path, kind: entry.kind });
    let after = walk::walk_absorbed(state, seq![entry]);
    assert(state.files + seq![entry.path] =~= state.files.push(entry.path));
    assert(state.pending + seq![entry.path] =~= state.pending.push(entry.path));
    assert(state.files + Seq::<P>::empty() =~= state.files);
    assert(state.pending + Seq::<P>::empty() =~= state.pending);
}

/// Entries may be dealt with together or in two parts, and no entries change nothing.
pub proof fn lemma_entries_may_be_split<P>(
    state: WalkState<P>,
    left: Seq<Entry<P>>,
    right: Seq<Entry<P>>,
)
    ensures
        walk::walk_absorbed(state, left + right) == walk::walk_absorbed(
            walk::walk_absorbed(state, left),
            right,
        ),
        walk::walk_absorbed(state, Seq::empty()) == state,
{
    lemma_entries_count_one_by_one(left, right, state.recursive, state.output);
    let none: Seq<Entry<P>> = Seq::empty();
    reveal(Seq::filter);
    assert(walk::scanned_paths(none, state.output) =~= Seq::<P>::empty());
    assert(walk::entered_paths(none, state.recursive) =~= Seq::<P>::empty());
    assert(walk::walk_absorbed(state, none) =~= state);
    assert(walk::walk_absorbed(state, left + right) =~= walk::walk_absorbed(
        walk::walk_absorbed(state, left),
        right,
    ));
}

/// The output is never read: at no point of a walk is a path among the files
/// found that is the output wherever it stands.
pub proof fn lemma_output_is_not_scanned<P>(
    tree: spec_fn(P) -> Seq<Entry<P>>,
    root: P,
    recursive: bool,
    output: Option<Seq<u8>>,
    turns: nat,
    path: P,
)
    requires
        forall|dir: P, i: int|
            0 <= i < tree(dir).len() && (#[trigger] tree(dir)[i]).path == path
                ==> walk::is_output(tree(dir)[i], output),
    ensures
        !walked(tree, walk::walk_start(root, recursive, output), turns).1.files.contains(path),
{
    let (read, state) = walked(tree, walk::walk_start(root, recursive, output), turns);
    let own = own_files(tree, output);
    lemma_walk_is_breadth_first(tree, root, recursive, output, turns);
    lemma_flat_map_contains(read, own, path);
    if state.files.contains(path) {
        let i = choose|i: int| 0 <= i < read.len() && own(#[trigger] read[i]).contains(path);
        lemma_scanned_paths_are_those_of_files(tree(read[i]), output, path);
    }
}

/// Each directory is one deeper than the one it is entered from.
pub open spec fn measures_depth<P>(
    tree: spec_fn(P) -> Seq<Entry<P>>,
    recursive: bool,
    depth: spec_fn(P) -> nat,
) -> bool {
    forall|dir: P, i: int|
        0 <= i < children(tree, recursive)(dir).len() ==> depth(
            #[trigger] children(tree, recursive)(dir)[i],
        ) == depth(dir) + 1
}

/// The walk never goes back up: of the directories read and of those that wait
/// behind them, none lies deeper than one that comes later.
pub proof fn lemma_depth_never_falls<P>(
    tree: spec_fn(P) -> Seq<Entry<P>>,
    root: P,
    recursive: bool,
    output: Option<Seq<u8>>,
    depth: spec_fn(P) -> nat,
    turns: nat,
)
    requires
        measures_depth(tree, recursive, depth),
    ensures
        ({
            let (read, state) = walked(tree, walk::walk_start(root, recursive, output), turns);
            let all = read + state.pending;
            &&& forall|i: int, j: int|
                0 <= i <= j < all.len() ==> depth(#[trigger] all[i]) <= depth(#[trigger] all[j])
            &&& forall|j: int|
                0 <= j < state.pending.len() ==> depth(#[trigger] state.pending[j]) <= depth(
                    state.pending[0],
                ) + 1
        }),
    decreases turns,
{
    let start = walk::walk_start(root, recursive, output);
    if turns > 0 {
        lemma_depth_never_falls(tree, root, recursive, output, depth, (turns - 1) as nat);
        lemma_walk_is_breadth_first(tree, root, recursive, output, (turns - 1) as nat);
        let (read, state) = walked(tree, start, (turns - 1) as nat);
        if state.pending.len() > 0 {
            let dir = state.pending[0];
            let down = children(tree, recursive)(dir);
            let (read2, state2) = walked(tree, start, turns);
            let all = read + state.pending;
            let all2 = read2 + state2.pending;
            assert(all2 =~= all + down);
            assert(all[read.len() as int] == dir);
            assert forall|i: int| 0 <= i < all.len() implies depth(#[trigger] all[i]) <= depth(dir)
                + 1 by {
                if i >= read.len() {
                    assert(all[i] == state.pending[i - read.len()]);
                } else {
                    assert(depth(all[i]) <= depth(all[read.len() as int]));
                }
            }
            assert forall|i: int, j: int| 0 <= i <= j < all2.len() implies depth(
                #[trigger] all2[i],
            ) <= depth(#[trigger] all2[j]) by {
                if j < all.len() {
                    assert(all2[i] == all[i] && all2[j] == all[j]);
                } else {
                    assert(all2[j] == down[j - all.len()]);
                    if i < all.len() {
                        assert(all2[i] == all[i]);
                    } else {
                        assert(all2[i] == down[i - all.len()]);
                    }
                }
            }
            assert forall|j: int| 0 <= j < state2.pending.len() implies depth(
                #[trigger] state2.pending[j],
            ) <= depth(state2.pending[0]) + 1 by {
                let at = read2.len() as int;
                assert(all2[at] == state2.pending[0]);
                assert(all2[at + j] == state2.pending[j]);
                assert(all2[read.len() as int] == dir);
                assert(depth(dir) <= depth(state2.pending[0]));
                if at + j >= all.len() {
                    assert(state2.pending[j] == down[at + j - all.len()]);
                } else {
                    assert(all[at + j] == state2.pending[j]);
                }
            }
        }
    }
}

/// Every path is an entry of one directory only, and there only once; the root is
/// an entry of none.
pub open spec fn paths_are_unique<P>(tree: spec_fn(P) -> Seq<Entry<P>>, root: P) -> bool {
    &&& forall|one: P, other: P, i: int, j: int|
        0 <= i < tree(one).len() && 0 <= j < tree(other).len() && (#[trigger] tree(one)[i]).path == (
        #[trigger] tree(other)[j]).path ==> one == other && i == j
    &&& forall|dir: P, i: int|
        0 <= i < tree(dir).len() ==> (#[trigger] tree(dir)[i]).path != root
}

/// The paths of the entries that are kept: each is the path of an entry, and where
/// no two entries have the same path, none comes twice.
proof fn lemma_kept_paths<P>(entries: Seq<Entry<P>>, keep: spec_fn(Entry<P>) -> bool)
    ensures
        forall|k: int|
            0 <= k < entries.filter(keep).len() ==> entries.contains(
                #[trigger] entries.filter(keep)[k],
            ),
        (forall|i: int, j: int|
            0 <= i < entries.len() && 0 <= j < entries.len() && (#[trigger] entries[i]).path == (
            #[trigger] entries[j]).path ==> i == j) ==> entries.filter(keep).map_values(
            |e: Entry<P>| e.path,
        ).no_duplicates(),
    decreases entries.len(),
{
    let name = |e: Entry<P>| e.path;
    let kept = entries.filter(keep);
    assert forall|k: int| 0 <= k < kept.len() implies entries.contains(#[trigger] kept[k]) by {
        entries.lemma_filter_contains_rev(keep, kept[k]);
    }
    if entries.len() == 0 {
        reveal(Seq::filter);
    } else if forall|i: int, j: int|
        0 <= i < entries.len() && 0 <= j < entries.len() && (#[trigger] entries[i]).path == (
        #[trigger] entries[j]).path ==> i == j {
        let front = entries.drop_last();
        let last = entries.last();
        lemma_kept_paths(front, keep);
        assert forall|i: int, j: int|
            0 <= i < front.len() && 0 <= j < front.len() && (#[trigger] front[i]).path == (
            #[trigger] front[j]).path implies i == j by {
            assert(front[i] == entries[i] && front[j] == entries[j]);
        }
        front.lemma_filter_push(last, keep);
        assert(front.push(last) =~= entries);
        let some = front.filter(keep);
        assert forall|k: int| 0 <= k < some.len() implies (#[trigger] some[k]).path != last.path by {
            assert(front.contains(some[k]));
            let i = choose|i: int| 0 <= i < front.len() && front[i] == some[k];
            assert(entries[i] == some[k]);
            assert(entries[entries.len() - 1] == last);
        }
        let paths = kept.map_values(name);
        let before = some.map_values(name);
        assert(before.no_duplicates());
        assert forall|a: int, b: int| 0 <= a < paths.len() && 0 <= b < paths.len() && a
            != b implies paths[a] != paths[b] by {
            assert(a < before.len() ==> paths[a] == before[a] && before[a] == some[a].path);
            assert(b < before.len() ==> paths[b] == before[b] && before[b] == some[b].path);
        }
    }
}

/// A directory that is entered from `dir`, or a file of it, is an entry of it.
proof fn lemma_kept_path_is_an_entry<P>(
    entries: Seq<Entry<P>>,
    keep: spec_fn(Entry<P>) -> bool,
    path: P,
) -> (i: int)
    requires
        entries.filter(keep).map_values(|e: Entry<P>| e.path).contains(path),
    ensures
        0 <= i < entries.len(),
        entries[i].path == path,
{
    let paths = entries.filter(keep).map_values(|e: Entry<P>| e.path);
    let k = choose|k: int| 0 <= k < paths.len() && paths[k] == path;
    lemma_kept_paths(entries, keep);
    let e = entries.filter(keep)[k];
    assert(entries.contains(e));
    choose|i: int| 0 <= i < entries.len() && entries[i] == e
}

/// A list without repetition, whose members have parts without repetition and with
/// nothing in common, is flattened to a list without repetition.
proof fn lemma_flat_map_no_duplicates<A, B>(list: Seq<A>, f: spec_fn(A) -> Seq<B>)
    requires
        list.no_duplicates(),
        forall|i: int| 0 <= i < list.len() ==> f(#[trigger] list[i]).no_duplicates(),
        forall|a: A, b: A, x: B|
            #![trigger f(a).contains(x), f(b).contains(x)]
            f(a).contains(x) && f(b).contains(x) ==> a == b,
    ensures
        list.flat_map(f).no_duplicates(),
    decreases list.len(),
{
    if list.len() == 0 {
        assert(list.flat_map(f) =~= Seq::empty());
    } else {
        let front = list.drop_last();
        let last = list.last();
        assert forall|i: int| 0 <= i < front.len() implies f(#[trigger] front[i]).no_duplicates() by {
            assert(front[i] == list[i]);
        }
        lemma_flat_map_no_duplicates(front, f);
        front.lemma_flat_map_push(f, last);
        assert(front.push(last) =~= list);
        let whole = list.flat_map(f);
        let left = front.flat_map(f);
        let right = f(last);
        assert(list[list.len() - 1] == last);
        assert(right.no_duplicates());
        assert forall|a: int, b: int| 0 <= a < left.len() && 0 <= b < right.len() implies left[a]
            != right[b] by {
            if left[a] == right[b] {
                let x = left[a];
                assert(left.contains(x));
                assert(right.contains(x));
                lemma_flat_map_contains(front, f, x);
                let i = choose|i: int| 0 <= i < front.len() && f(#[trigger] front[i]).contains(x);
                assert(front[i] == last);
                assert(list[i] == list[list.len() - 1]);
            }
        }
        assert(whole == left + right);
    }
}

/// Where every path is an entry of one directory only, no directory is read twice
/// and no file is found twice.
pub proof fn lemma_no_path_comes_twice<P>(
    tree: spec_fn(P) -> Seq<Entry<P>>,
    root: P,
    recursive: bool,
    output: Option<Seq<u8>>,
    turns: nat,
)
    requires
        paths_are_unique(tree, root),
    ensures
        ({
            let (read, state) = walked(tree, walk::walk_start(root, recursive, output), turns);
            &&& (read + state.pending).no_duplicates()
            &&& state.files.no_duplicates()
        }),
{
    let (read, state) = walked(tree, walk::walk_start(root, recursive, output), turns);
    let own = own_files(tree, output);
    let keep = |e: Entry<P>| walk::is_scanned(e, output);
    lemma_no_directory_comes_twice(tree, root, recursive, output, turns);
    lemma_walk_is_breadth_first(tree, root, recursive, output, turns);
    let all = read + state.pending;
    assert forall|i: int, j: int| 0 <= i < read.len() && 0 <= j < read.len() && i
        != j implies read[i] != read[j] by {
        assert(all[i] == read[i] && all[j] == read[j]);
    }
    assert forall|i: int| 0 <= i < read.len() implies own(#[trigger] read[i]).no_duplicates() by {
        lemma_kept_paths(tree(read[i]), keep);
    }
    assert forall|a: P, b: P, x: P|
        #![trigger own(a).contains(x), own(b).contains(x)]
        own(a).contains(x) && own(b).contains(x) implies a == b by {
        let i = lemma_kept_path_is_an_entry(tree(a), keep, x);
        let j = lemma_kept_path_is_an_entry(tree(b), keep, x);
        assert(tree(a)[i].path == tree(b)[j].path);
    }
    lemma_flat_map_no_duplicates(read, own);
}

proof fn lemma_no_directory_comes_twice<P>(
    tree: spec_fn(P) -> Seq<Entry<P>>,
    root: P,
    recursive: bool,
    output: Option<Seq<u8>>,
    turns: nat,
)
    requires
        paths_are_unique(tree, root),
    ensures
        ({
            let (read, state) = walked(tree, walk::walk_start(root, recursive, output), turns);
            (read + state.pending).no_duplicates()
        }),
    decreases turns,
{
    let start = walk::walk_start(root, recursive, output);
    let keep = |e: Entry<P>| walk::is_entered(e, recursive);
    if turns > 0 {
        lemma_no_directory_comes_twice(tree, root, recursive, output, (turns - 1) as nat);
        lemma_walk_is_breadth_first(tree, root, recursive, output, (turns - 1) as nat);
        let (read, state) = walked(tree, start, (turns - 1) as nat);
        if state.pending.len() > 0 {
            let dir = state.pending[0];
            let down = children(tree, recursive);
            let (read2, state2) = walked(tree, start, turns);
            let all = read + state.pending;
            let all2 = read2 + state2.pending;
            assert(all2 =~= all + down(dir));
            assert(all[read.len() as int] == dir);
            lemma_kept_paths(tree(dir), keep);
            let fresh = down(dir);
            assert(fresh.no_duplicates());
            assert forall|a: int, b: int| 0 <= a < all.len() && 0 <= b < fresh.len() implies all[a]
                != fresh[b] by {
                if all[a] == fresh[b] {
                    let x = all[a];
                    assert(fresh.contains(x));
                    let j = lemma_kept_path_is_an_entry(tree(dir), keep, x);
                    assert(tree(dir)[j].path != root);
                    assert(all =~= seq![root] + read.flat_map(down));
                    assert(read.flat_map(down)[a - 1] == x);
                    assert(read.flat_map(down).contains(x));
                    lemma_flat_map_contains(read, down, x);
                    let k = choose|k: int| 0 <= k < read.len() && down(#[trigger] read[k]).contains(x);
                    let i = lemma_kept_path_is_an_entry(tree(read[k]), keep, x);
                    assert(tree(read[k])[i].path == tree(dir)[j].path);
                    assert(all[k] == dir);
                }
            }
        }
    }
}

/// The sum of a measure over a list.
pub open spec fn total<P>(list: Seq<P>, size: spec_fn(P) -> nat) -> nat
    decreases list.len(),
{
    if list.len() == 0 {
        0
    } else {
        total(list.drop_last(), size) + size(list.last())
    }
}

proof fn lemma_total_add<P>(left: Seq<P>, right: Seq<P>, size: spec_fn(P) -> nat)
    ensures
        total(left + right, size) == total(left, size) + total(right, size),
    decreases right.len(),
{
    if right.len() == 0 {
        assert(left + right =~= left);
    } else {
        assert((left + right).drop_last() =~= left + right.drop_last());
        lemma_total_add(left, right.drop_last(), size);
    }
}

/// `size` of a directory is at least one more than that of its children together.
pub open spec fn bounds_directories<P>(
    tree: spec_fn(P) -> Seq<Entry<P>>,
    recursive: bool,
    size: spec_fn(P) -> nat,
    dir: P,
) -> bool {
    1 + total(children(tree, recursive)(dir), size) <= size(dir)
}

/// A walk comes to its end: where `size` bounds the number of directories below
/// and at each directory, the walk is over after as many turns as that of the
/// root.
pub proof fn lemma_walk_ends<P>(
    tree: spec_fn(P) -> Seq<Entry<P>>,
    root: P,
    recursive: bool,
    output: Option<Seq<u8>>,
    size: spec_fn(P) -> nat,
)
    requires
        forall|dir: P| #[trigger] bounds_directories(tree, recursive, size, dir),
    ensures
        walked(tree, walk::walk_start(root, recursive, output), size(root)).1.pending.len() == 0,
{
    let start = walk::walk_start(root, recursive, output);
    lemma_budget(tree, root, recursive, output, size, size(root));
    let (read, state) = walked(tree, start, size(root));
    if state.pending.len() > 0 {
        assert(bounds_directories(tree, recursive, size, state.pending.last()));
        assert(total(state.pending, size) >= size(state.pending.last()));
    }
}

proof fn lemma_budget<P>(
    tree: spec_fn(P) -> Seq<Entry<P>>,
    root: P,
    recursive: bool,
    output: Option<Seq<u8>>,
    size: spec_fn(P) -> nat,
    turns: nat,
)
    requires
        forall|dir: P| #[trigger] bounds_directories(tree, recursive, size, dir),
    ensures
        ({
            let (read, state) = walked(tree, walk::walk_start(root, recursive, output), turns);
            &&& state.recursive == recursive
            &&& state.pending.len() == 0 || turns + total(state.pending, size) <= size(root)
        }),
    decreases turns,
{
    let start = walk::walk_start(root, recursive, output);
    let down = children(tree, recursive);
    if turns == 0 {
        assert(start.pending.drop_last() =~= Seq::<P>::empty());
        assert(total(start.pending.drop_last(), size) == 0);
    } else {
        lemma_budget(tree, root, recursive, output, size, (turns - 1) as nat);
        let (read, state) = walked(tree, start, (turns - 1) as nat);
        if state.pending.len() > 0 {
            let dir = state.pending[0];
            let rest = state.pending.skip(1);
            assert(seq![dir] + rest =~= state.pending);
            lemma_total_add(seq![dir], rest, size);
            assert(seq![dir].drop_last() =~= Seq::<P>::empty());
            assert(total(seq![dir].drop_last(), size) == 0);
            lemma_total_add(rest, down(dir), size);
            assert(bounds_directories(tree, recursive, size, dir));
        }
    }
}

} // verus!
