//! Which files of a directory are scanned.
//!
//! The walk goes breadth first: directories wait in a queue, and what a
//! directory holds is looked at when its turn has come. `P` is a path, which
//! the walk hands around without looking into it.
use std::collections::VecDeque;
use vstd::prelude::*;

verus! {

/// What was found out about an entry of a directory. Links are followed.
pub enum EntryKind {
    /// It was gone when it was looked at.
    Vanished,
    /// It could not be looked at.
    Unknown,
    /// A regular file, and its canonical path as bytes, where that could be had.
    File(Option<Vec<u8>>),
    /// A directory.
    Directory,
    /// Anything else.
    Other,
}

/// An entry of a directory.
pub struct Entry<P> {
    pub path: P,
    pub kind: EntryKind,
}

/// What reading a directory gave.
pub enum Listing<P> {
    /// There is no such directory.
    Missing,
    /// The directory could not be read.
    Unreadable,
    /// Its entries.
    Entries(Vec<Entry<P>>),
}

impl<P> Listing<P> {
    /// The entries; there are none in a directory that is missing or could not be
    /// read.
    pub open spec fn entries(self) -> Seq<Entry<P>> {
        match self {
            Listing::Missing | Listing::Unreadable => Seq::empty(),
            Listing::Entries(list) => list@,
        }
    }
}

/// The bytes of an optional canonical path.
pub open spec fn canonical(path: Option<Vec<u8>>) -> Option<Seq<u8>> {
    match path {
        Some(bytes) => Some(bytes@),
        None => None,
    }
}

/// The entry is the output file: a file whose canonical path is known and is
/// that of the output.
pub open spec fn is_output<P>(entry: Entry<P>, output: Option<Seq<u8>>) -> bool {
    entry.kind matches EntryKind::File(path) && output is Some && canonical(path) == output
}

/// The entry is to be scanned: a file, but not the output.
pub open spec fn is_scanned<P>(entry: Entry<P>, output: Option<Seq<u8>>) -> bool {
    entry.kind is File && !is_output(entry, output)
}

/// The entry is a directory that the walk goes into.
pub open spec fn is_entered<P>(entry: Entry<P>, recursive: bool) -> bool {
    recursive && entry.kind is Directory
}

/// The paths of the entries to be scanned, in order.
pub open spec fn scanned_paths<P>(entries: Seq<Entry<P>>, output: Option<Seq<u8>>) -> Seq<P> {
    entries.filter(|e: Entry<P>| is_scanned(e, output)).map_values(|e: Entry<P>| e.path)
}

/// The paths of the directories that the walk goes into, in order.
pub open spec fn entered_paths<P>(entries: Seq<Entry<P>>, recursive: bool) -> Seq<P> {
    entries.filter(|e: Entry<P>| is_entered(e, recursive)).map_values(|e: Entry<P>| e.path)
}

/// How far a walk has come.
#[verifier::ext_equal]
pub struct WalkState<P> {
    /// The directories that wait to be read.
    pub pending: Seq<P>,
    /// The files found so far.
    pub files: Seq<P>,
    /// Whether the walk goes into directories.
    pub recursive: bool,
    /// The canonical path of the output.
    pub output: Option<Seq<u8>>,
}

/// The walk at its start.
pub open spec fn walk_start<P>(root: P, recursive: bool, output: Option<Seq<u8>>) -> WalkState<P> {
    WalkState { pending: seq![root], files: Seq::empty(), recursive, output }
}

/// The walk when the first directory that waits has been taken from the queue.
pub open spec fn walk_taken<P>(state: WalkState<P>) -> WalkState<P> {
    WalkState { pending: state.pending.skip(1), ..state }
}

/// The walk when the entries of a directory have been dealt with.
pub open spec fn walk_absorbed<P>(state: WalkState<P>, entries: Seq<Entry<P>>) -> WalkState<P> {
    WalkState {
        pending: state.pending + entered_paths(entries, state.recursive),
        files: state.files + scanned_paths(entries, state.output),
        ..state
    }
}

proof fn lemma_scanned_push<P>(entries: Seq<Entry<P>>, entry: Entry<P>, output: Option<Seq<u8>>)
    ensures
        scanned_paths(entries.push(entry), output) == if is_scanned(entry, output) {
            scanned_paths(entries, output).push(entry.path)
        } else {
            scanned_paths(entries, output)
        },
{
    let kept = |e: Entry<P>| is_scanned(e, output);
    entries.lemma_filter_push(entry, kept);
    assert(scanned_paths(entries.push(entry), output) =~= if is_scanned(entry, output) {
        scanned_paths(entries, output).push(entry.path)
    } else {
        scanned_paths(entries, output)
    });
}

proof fn lemma_entered_push<P>(entries: Seq<Entry<P>>, entry: Entry<P>, recursive: bool)
    ensures
        entered_paths(entries.push(entry), recursive) == if is_entered(entry, recursive) {
            entered_paths(entries, recursive).push(entry.path)
        } else {
            entered_paths(entries, recursive)
        },
{
    let kept = |e: Entry<P>| is_entered(e, recursive);
    entries.lemma_filter_push(entry, kept);
    assert(entered_paths(entries.push(entry), recursive) =~= if is_entered(entry, recursive) {
        entered_paths(entries, recursive).push(entry.path)
    } else {
        entered_paths(entries, recursive)
    });
}

/// Entries may be dealt with one after the other.
proof fn lemma_absorb_push<P>(state: WalkState<P>, entries: Seq<Entry<P>>, entry: Entry<P>)
    ensures
        walk_absorbed(walk_absorbed(state, entries), seq![entry]) == walk_absorbed(
            state,
            entries.push(entry),
        ),
{
    lemma_scanned_push(entries, entry, state.output);
    lemma_entered_push(entries, entry, state.recursive);
    lemma_one_entry(walk_absorbed(state, entries), entry);
    assert(walk_absorbed(walk_absorbed(state, entries), seq![entry]) =~= walk_absorbed(
        state,
        entries.push(entry),
    ));
}

/// What a single entry adds.
proof fn lemma_one_entry<P>(state: WalkState<P>, entry: Entry<P>)
    ensures
        walk_absorbed(state, seq![entry]) == (WalkState {
            pending: if is_entered(entry, state.recursive) {
                state.pending.push(entry.path)
            } else {
                state.pending
            },
            files: if is_scanned(entry, state.output) {
                state.files.push(entry.path)
            } else {
                state.files
            },
            ..state
        }),
{
    let none: Seq<Entry<P>> = Seq::empty();
    lemma_scanned_push(none, entry, state.output);
    lemma_entered_push(none, entry, state.recursive);
    assert(none.push(entry) =~= seq![entry]);
    assert(walk_absorbed(state, seq![entry]) =~= (WalkState {
        pending: if is_entered(entry, state.recursive) {
            state.pending.push(entry.path)
        } else {
            state.pending
        },
        files: if is_scanned(entry, state.output) {
            state.files.push(entry.path)
        } else {
            state.files
        },
        ..state
    }));
}

/// A walk through a directory.
pub struct DirWalk<P> {
    pending: VecDeque<P>,
    files: Vec<P>,
    recursive: bool,
    output: Option<Vec<u8>>,
}

impl<P> View for DirWalk<P> {
    type V = WalkState<P>;

    closed spec fn view(&self) -> WalkState<P> {
        WalkState {
            pending: self.pending@,
            files: self.files@,
            recursive: self.recursive,
            output: canonical(self.output),
        }
    }
}

/// Whether two byte strings are equal.
pub fn same_bytes(one: &Vec<u8>, other: &Vec<u8>) -> (same: bool)
    ensures
        same == (one@ == other@),
{
    if one.len() != other.len() {
        return false;
    }
    let mut i: usize = 0;
    while i < one.len()
        invariant
            i <= one@.len(),
            one@.len() == other@.len(),
            forall|k: int| 0 <= k < i ==> one@[k] == other@[k],
        decreases one@.len() - i,
    {
        if one[i] != other[i] {
            return false;
        }
        i += 1;
    }
    assert(one@ =~= other@);
    true
}

/// Whether the canonical path of a file is that of the output. A path that is
/// not known is not that of the output.
pub fn is_same_file(file: &Option<Vec<u8>>, output: &Option<Vec<u8>>) -> (same: bool)
    ensures
        same == (output is Some && canonical(*file) == canonical(*output)),
        same == (file matches Some(one) && output matches Some(other) && one@ == other@),
{
    match (file, output) {
        (Some(one), Some(other)) => same_bytes(one, other),
        _ => false,
    }
}

impl<P> DirWalk<P> {
    /// A walk that starts at `root`. Files whose canonical path is `output` are
    /// left out.
    pub fn new(root: P, recursive: bool, output: Option<Vec<u8>>) -> (walk: Self)
        ensures
            walk@ == walk_start(root, recursive, canonical(output)),
            walk@.pending == seq![root],
            walk@.files == Seq::<P>::empty(),
            walk@.recursive == recursive,
            output matches Some(bytes) ==> walk@.output == Some(bytes@),
            output is None ==> walk@.output is None,
    {
        let mut pending: VecDeque<P> = VecDeque::new();
        pending.push_back(root);
        let walk = DirWalk { pending, files: Vec::new(), recursive, output };
        assert(walk@.pending =~= seq![root]);
        walk
    }

    /// The directory to read next; `None` when the walk is over.
    pub fn next_directory(&mut self) -> (next: Option<P>)
        ensures
            next is None <==> old(self)@.pending.len() == 0,
            next is None ==> final(self)@ == old(self)@,
            next matches Some(dir) ==> dir == old(self)@.pending[0] && final(self)@ == walk_taken(
                old(self)@,
            ),
            next matches Some(dir) ==> old(self)@.pending == seq![dir] + final(self)@.pending,
            final(self)@.files == old(self)@.files,
            final(self)@.recursive == old(self)@.recursive,
            final(self)@.output == old(self)@.output,
    {
        let next = self.pending.pop_front();
        proof {
            if next is Some {
                assert(self@.pending =~= old(self)@.pending.skip(1));
                assert(old(self)@.pending =~= seq![next->0] + self@.pending);
            }
        }
        next
    }

    /// Takes note of what reading a directory gave: files to be scanned are
    /// added to the files found, and directories to go into wait their turn.
    pub fn absorb(&mut self, listing: Listing<P>)
        ensures
            final(self)@ == walk_absorbed(old(self)@, listing.entries()),
    {
        let ghost before = self@;
        match listing {
            Listing::Missing | Listing::Unreadable => {
                proof {
                    let none: Seq<Entry<P>> = Seq::empty();
                    assert(before.pending + entered_paths(none, before.recursive)
                        =~= before.pending);
                    assert(before.files + scanned_paths(none, before.output) =~= before.files);
                }
            },
            Listing::Entries(list) => {
                let ghost all = list@;
                for entry in it: list
                    invariant
                        it.seq() == all,
                        self@ == walk_absorbed(before, all.take(it.index() as int)),
                {
                    self.absorb_entry(entry);
                    proof {
                        let k = it.index() as int;
                        assert(all.take(k + 1) =~= all.take(k).push(entry));
                        lemma_absorb_push(before, all.take(k), entry);
                    }
                }
                assert(all.take(all.len() as int) =~= all);
            },
        }
    }

    /// Takes note of one entry of a directory.
    pub fn absorb_entry(&mut self, entry: Entry<P>)
        ensures
            final(self)@ == walk_absorbed(old(self)@, seq![entry]),
    {
        match entry.kind {
            EntryKind::File(path) => {
                if !is_same_file(&path, &self.output) {
                    self.files.push(entry.path);
                }
            },
            EntryKind::Directory => {
                if self.recursive {
                    self.pending.push_back(entry.path);
                }
            },
            _ => {},
        }
        proof {
            lemma_one_entry(old(self)@, entry);
        }
    }

    /// The files found.
    pub fn into_files(self) -> (files: Vec<P>)
        ensures
            files@ == self@.files,
    {
        self.files
    }
}

} // verus!
