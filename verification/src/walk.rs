//! Choosing the files to scan from the paths given.
//!
//! Directories are entered depth first: what a directory holds is visited
//! before what follows the directory. Every path that is no directory
//! becomes a file to scan, and every directory is counted. Listing a
//! directory is left to the caller, who is told which one to list.

use vstd::prelude::*;
use crate::text::texts;

verus! {

/// A path, and whether it names a directory.
#[derive(Clone, Debug, PartialEq, Eq)]
pub struct Entry {
    pub path: String,
    pub is_directory: bool,
}

/// An entry as contracts see it.
pub struct EntryView {
    pub path: Seq<char>,
    pub is_directory: bool,
}

impl View for Entry {
    type V = EntryView;

    open spec fn view(&self) -> EntryView {
        EntryView { path: self.path@, is_directory: self.is_directory }
    }
}

/// The views of a list of entries.
pub open spec fn entry_views(entries: Seq<Entry>) -> Seq<EntryView> {
    entries.map_values(|e: Entry| e@)
}

/// What the caller is to do next.
#[derive(Debug, PartialEq, Eq)]
pub enum Visit {
    /// List this directory and hand its entries to `enter`.
    Directory(String),
    /// Nothing: a file was taken, or a directory was left.
    Continue,
    /// Nothing is left to visit.
    Done,
}

/// What a visit asks of the caller, as contracts see it.
pub enum VisitView {
    Directory(Seq<char>),
    Continue,
    Done,
}

impl View for Visit {
    type V = VisitView;

    open spec fn view(&self) -> VisitView {
        match self {
            Visit::Directory(path) => VisitView::Directory(path@),
            Visit::Continue => VisitView::Continue,
            Visit::Done => VisitView::Done,
        }
    }
}

/// The entries of one open directory, with the number of them already
/// visited.
struct Frame {
    entries: Vec<Entry>,
    visited: usize,
}

/// The state of an enumeration.
pub struct Enumeration {
    files: Vec<String>,
    directories: usize,
    open: Vec<Frame>,
}

/// An enumeration as contracts see it.
pub struct EnumerationView {
    /// The files to scan found so far, in the order of the visit.
    pub files: Seq<Seq<char>>,
    /// The number of directories met so far.
    pub directories: nat,
    /// For each directory that is open, the outermost first, its entries
    /// not yet visited.
    pub pending: Seq<Seq<EntryView>>,
}

impl EnumerationView {
    /// The enumeration that is to visit `inputs`.
    pub open spec fn starting(inputs: Seq<EntryView>) -> EnumerationView {
        EnumerationView { files: Seq::empty(), directories: 0, pending: seq![inputs] }
    }

    /// The enumeration after its next visit: the innermost open directory
    /// is left if nothing of it remains; else its next entry is taken, a
    /// directory being counted and any other path becoming a file to scan.
    pub open spec fn visited(self) -> EnumerationView {
        if self.pending.len() == 0 {
            self
        } else if self.pending.last().len() == 0 {
            EnumerationView { pending: self.pending.drop_last(), ..self }
        } else {
            let entry = self.pending.last()[0];
            let pending = self.pending.drop_last().push(self.pending.last().skip(1));
            if entry.is_directory {
                EnumerationView { directories: self.directories + 1, pending, ..self }
            } else {
                EnumerationView { files: self.files.push(entry.path), pending, ..self }
            }
        }
    }

    /// What the next visit asks of the caller.
    pub open spec fn visit(self) -> VisitView {
        if self.pending.len() == 0 {
            VisitView::Done
        } else if self.pending.last().len() > 0 && self.pending.last()[0].is_directory {
            VisitView::Directory(self.pending.last()[0].path)
        } else {
            VisitView::Continue
        }
    }

    /// The enumeration after the directory listed last was found to hold
    /// `entries`.
    pub open spec fn entered(self, entries: Seq<EntryView>) -> EnumerationView {
        EnumerationView { pending: self.pending.push(entries), ..self }
    }
}

impl Frame {
    /// The entries of the directory not yet visited.
    spec fn remaining(&self) -> Seq<EntryView> {
        entry_views(self.entries@).skip(self.visited as int)
    }
}

impl View for Enumeration {
    type V = EnumerationView;

    closed spec fn view(&self) -> EnumerationView {
        EnumerationView {
            files: texts(self.files@),
            directories: self.directories as nat,
            pending: self.open@.map_values(|f: Frame| f.remaining()),
        }
    }
}

impl Enumeration {
    /// No frame has visited more entries than it holds.
    pub closed spec fn well_formed(&self) -> bool {
        forall|i: int|
            0 <= i < self.open.len() ==> (#[trigger] self.open[i]).visited
                <= self.open[i].entries.len()
    }

    /// Starts an enumeration of the paths `inputs`.
    pub fn new(inputs: Vec<Entry>) -> (walk: Enumeration)
        ensures
            walk.well_formed(),
            walk@ == EnumerationView::starting(entry_views(inputs@)),
    {
        let mut open: Vec<Frame> = Vec::new();
        open.push(Frame { entries: inputs, visited: 0 });
        let walk = Enumeration { files: Vec::new(), directories: 0, open };
        assert(walk@.files =~= Seq::empty());
        assert(walk.open[0].remaining() =~= entry_views(inputs@));
        assert(walk@.pending =~= seq![entry_views(inputs@)]);
        walk
    }

    /// Makes the next visit and says what the caller is to do. After
    /// `Visit::Directory` the caller lists that directory and calls `enter`.
    pub fn visit_next(&mut self) -> (visit: Visit)
        requires
            old(self).well_formed(),
            old(self)@.directories < usize::MAX,
        ensures
            final(self).well_formed(),
            final(self)@ == old(self)@.visited(),
            visit@ == old(self)@.visit(),
    {
        let depth = self.open.len();
        if depth == 0 {
            return Visit::Done;
        }
        let ghost before = self.open@;
        let ghost top = before[depth - 1];
        if self.open[depth - 1].visited >= self.open[depth - 1].entries.len() {
            self.open.pop();
            assert(self@.pending =~= old(self)@.pending.drop_last());
            return Visit::Continue;
        }
        let at = self.open[depth - 1].visited;
        let path = self.open[depth - 1].entries[at].path.clone();
        let is_directory = self.open[depth - 1].entries[at].is_directory;
        let mut frame = self.open.pop().unwrap();
        frame.visited = at + 1;
        self.open.push(frame);
        proof {
            let views = entry_views(top.entries@);
            assert(top.remaining()[0] == views[at as int]);
            assert(self.open@[depth - 1].remaining() =~= top.remaining().skip(1));
            assert(self.open@.map_values(|f: Frame| f.remaining()) =~= old(
                self,
            )@.pending.drop_last().push(top.remaining().skip(1)));
        }
        if is_directory {
            self.directories = self.directories + 1;
            Visit::Directory(path)
        } else {
            let ghost files = self.files@;
            self.files.push(path);
            assert(texts(self.files@) =~= texts(files).push(path@));
            Visit::Continue
        }
    }

    /// Opens the directory that `visit_next` asked to list: its entries are
    /// visited before anything else.
    pub fn enter(&mut self, entries: Vec<Entry>)
        requires
            old(self).well_formed(),
        ensures
            final(self).well_formed(),
            final(self)@ == old(self)@.entered(entry_views(entries@)),
    {
        self.open.push(Frame { entries, visited: 0 });
        proof {
            let last = self.open@.len() - 1;
            assert(self.open@[last].remaining() =~= entry_views(entries@));
            assert(self@.pending =~= old(self)@.pending.push(entry_views(entries@)));
        }
    }

    /// The files to scan found so far, in the order of the visit.
    pub fn files(&self) -> (files: &Vec<String>)
        ensures
            texts(files@) == self@.files,
    {
        &self.files
    }

    /// The number of directories met so far.
    pub fn directories(&self) -> (count: usize)
        ensures
            count == self@.directories,
    {
        self.directories
    }
}

impl EnumerationView {
    /// The enumeration after its next visit and, where that visit met a
    /// directory, after the directory was entered. What a directory holds is
    /// told by `listing`.
    pub open spec fn stepped(self, listing: spec_fn(Seq<char>) -> Seq<EntryView>) -> EnumerationView {
        match self.visit() {
            VisitView::Directory(path) => self.visited().entered(listing(path)),
            _ => self.visited(),
        }
    }

    /// The enumeration after `steps` such steps.
    pub open spec fn stepped_by(
        self,
        listing: spec_fn(Seq<char>) -> Seq<EntryView>,
        steps: nat,
    ) -> EnumerationView
        decreases steps,
    {
        if steps == 0 {
            self
        } else {
            self.stepped(listing).stepped_by(listing, (steps - 1) as nat)
        }
    }
}

/// Whether no directory lies more than `depth` levels below `entries`.
pub open spec fn within_depth(
    listing: spec_fn(Seq<char>) -> Seq<EntryView>,
    entries: Seq<EntryView>,
    depth: nat,
) -> bool
    decreases depth, entries.len(),
{
    if entries.len() == 0 {
        true
    } else {
        &&& entries[0].is_directory ==> depth > 0 && within_depth(
            listing,
            listing(entries[0].path),
            (depth - 1) as nat,
        )
        &&& within_depth(listing, entries.skip(1), depth)
    }
}

/// The paths among and below `entries` that are no directories: each entry
/// in turn, a directory standing for what is found below it.
pub open spec fn files_below(
    listing: spec_fn(Seq<char>) -> Seq<EntryView>,
    entries: Seq<EntryView>,
    depth: nat,
) -> Seq<Seq<char>>
    decreases depth, entries.len(),
{
    if entries.len() == 0 {
        Seq::empty()
    } else {
        let first = if !entries[0].is_directory {
            seq![entries[0].path]
        } else if depth == 0 {
            Seq::empty()
        } else {
            files_below(listing, listing(entries[0].path), (depth - 1) as nat)
        };
        first + files_below(listing, entries.skip(1), depth)
    }
}

/// The number of directories among and below `entries`.
pub open spec fn directories_below(
    listing: spec_fn(Seq<char>) -> Seq<EntryView>,
    entries: Seq<EntryView>,
    depth: nat,
) -> nat
    decreases depth, entries.len(),
{
    if entries.len() == 0 {
        0
    } else {
        let first = if !entries[0].is_directory {
            0
        } else if depth == 0 {
            1
        } else {
            1 + directories_below(listing, listing(entries[0].path), (depth - 1) as nat)
        };
        first + directories_below(listing, entries.skip(1), depth)
    }
}

/// The number of steps that it takes to visit `entries` and all below them
/// and to leave them.
pub open spec fn steps_below(
    listing: spec_fn(Seq<char>) -> Seq<EntryView>,
    entries: Seq<EntryView>,
    depth: nat,
) -> nat
    decreases depth, entries.len(),
{
    if entries.len() == 0 {
        1
    } else {
        let first = if !entries[0].is_directory || depth == 0 {
            1
        } else {
            1 + steps_below(listing, listing(entries[0].path), (depth - 1) as nat)
        };
        first + steps_below(listing, entries.skip(1), depth)
    }
}

/// Steps add up.
proof fn lemma_stepped_by_sum(
    start: EnumerationView,
    listing: spec_fn(Seq<char>) -> Seq<EntryView>,
    a: nat,
    b: nat,
)
    ensures
        start.stepped_by(listing, a + b) == start.stepped_by(listing, a).stepped_by(listing, b),
    decreases a,
{
    if a > 0 {
        lemma_stepped_by_sum(start.stepped(listing), listing, (a - 1) as nat, b);
    }
}

/// Visiting the innermost open directory to its end adds the files and
/// directories found among and below its remaining entries, and leaves it.
proof fn lemma_walk_of_frame(
    start: EnumerationView,
    listing: spec_fn(Seq<char>) -> Seq<EntryView>,
    depth: nat,
)
    requires
        start.pending.len() > 0,
        within_depth(listing, start.pending.last(), depth),
    ensures
        start.stepped_by(listing, steps_below(listing, start.pending.last(), depth)) == (
        EnumerationView {
            files: start.files + files_below(listing, start.pending.last(), depth),
            directories: start.directories + directories_below(
                listing,
                start.pending.last(),
                depth,
            ),
            pending: start.pending.drop_last(),
        }),
    decreases depth, start.pending.last().len(),
{
    let entries = start.pending.last();
    let outer = start.pending.drop_last();
    let steps = steps_below(listing, entries, depth);
    if entries.len() == 0 {
        assert(start.stepped_by(listing, 1) == start.stepped(listing).stepped_by(listing, 0));
        assert(start.files + files_below(listing, entries, depth) =~= start.files);
    } else {
        let rest = entries.skip(1);
        let next = start.stepped(listing);
        assert(start.stepped_by(listing, steps) == next.stepped_by(listing, (steps - 1) as nat));
        if !entries[0].is_directory {
            assert(next.pending =~= outer.push(rest));
            assert(next.pending.last() == rest);
            assert(next.pending.drop_last() =~= outer);
            lemma_walk_of_frame(next, listing, depth);
            assert(next.files + files_below(listing, rest, depth) =~= start.files + files_below(
                listing,
                entries,
                depth,
            ));
        } else {
            let children = listing(entries[0].path);
            let inner = steps_below(listing, children, (depth - 1) as nat);
            let after = steps_below(listing, rest, depth);
            assert(next.pending =~= outer.push(rest).push(children));
            assert(next.pending.last() == children);
            assert(next.pending.drop_last() =~= outer.push(rest));
            lemma_walk_of_frame(next, listing, (depth - 1) as nat);
            let back = next.stepped_by(listing, inner);
            assert(back.pending.last() == rest);
            assert(back.pending.drop_last() =~= outer);
            lemma_walk_of_frame(back, listing, depth);
            lemma_stepped_by_sum(next, listing, inner, after);
            assert(back.files + files_below(listing, rest, depth) =~= start.files + files_below(
                listing,
                entries,
                depth,
            ));
        }
    }
}

/// A walk that is carried to its end finds the paths among and below the
/// inputs that are no directories, in depth-first order, and counts the
/// directories among and below the inputs.
pub proof fn lemma_whole_walk(
    inputs: Seq<EntryView>,
    listing: spec_fn(Seq<char>) -> Seq<EntryView>,
    depth: nat,
)
    requires
        within_depth(listing, inputs, depth),
    ensures
        ({
            let end = EnumerationView::starting(inputs).stepped_by(
                listing,
                steps_below(listing, inputs, depth),
            );
            &&& end.visit() is Done
            &&& end.files == files_below(listing, inputs, depth)
            &&& end.directories == directories_below(listing, inputs, depth)
        }),
{
    let start = EnumerationView::starting(inputs);
    assert(start.pending.last() == inputs);
    lemma_walk_of_frame(start, listing, depth);
    assert(start.pending.drop_last() =~= Seq::<Seq<EntryView>>::empty());
    assert(start.files + files_below(listing, inputs, depth) =~= files_below(
        listing,
        inputs,
        depth,
    ));
}

} // verus!
