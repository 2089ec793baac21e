//! The store into which the scans of all files put what they found.

use vstd::prelude::*;
use vstd::multiset::Multiset;
use crate::card_match::{match_views, CardMatch, CardMatchView};
use crate::scanner::{FileReport, FileReportView};
use crate::text::{same_text, texts};

verus! {

/// The file paths named by the matches `matches`, each once, in the order in
/// which they first occur.
pub open spec fn distinct_paths(matches: Seq<CardMatchView>) -> Seq<Seq<char>>
    decreases matches.len(),
{
    if matches.len() == 0 {
        Seq::empty()
    } else {
        let before = distinct_paths(matches.drop_last());
        if before.contains(matches.last().file_path) {
            before
        } else {
            before.push(matches.last().file_path)
        }
    }
}

/// The number of matches among `matches` that name the file `file_path`.
pub open spec fn matches_in_file(matches: Seq<CardMatchView>, file_path: Seq<char>) -> nat
    decreases matches.len(),
{
    if matches.len() == 0 {
        0
    } else {
        matches_in_file(matches.drop_last(), file_path) + if matches.last().file_path
            == file_path {
            1nat
        } else {
            0nat
        }
    }
}

/// The store as contracts see it: the matches and the files given up, each
/// in the order of arrival.
pub struct ScanResultsView {
    pub matches: Seq<CardMatchView>,
    pub skipped_files: Seq<Seq<char>>,
}

impl ScanResultsView {
    /// The empty store.
    pub open spec fn empty() -> ScanResultsView {
        ScanResultsView { matches: Seq::empty(), skipped_files: Seq::empty() }
    }

    /// The files in which at least one card number was found: the paths that
    /// the matches name, each once. A file that was given up after a card
    /// number was found in it is among these files and among the files given
    /// up.
    pub open spec fn files_with_cards(self) -> Seq<Seq<char>> {
        distinct_paths(self.matches)
    }

    /// The store after the report of one file was put into it.
    pub open spec fn absorb(self, report: FileReportView) -> ScanResultsView {
        ScanResultsView {
            matches: self.matches + report.matches,
            skipped_files: if report.skipped {
                self.skipped_files.push(report.file_path)
            } else {
                self.skipped_files
            },
        }
    }

    /// The store after the reports `reports` were put into it one after the
    /// other.
    pub open spec fn absorb_all(self, reports: Seq<FileReportView>) -> ScanResultsView
        decreases reports.len(),
    {
        if reports.len() == 0 {
            self
        } else {
            self.absorb_all(reports.drop_last()).absorb(reports.last())
        }
    }
}

/// A path is among the distinct paths of a list of matches exactly when one
/// of the matches names it.
pub proof fn lemma_distinct_paths_contains(matches: Seq<CardMatchView>, file_path: Seq<char>)
    ensures
        distinct_paths(matches).contains(file_path) <==> exists|i: int|
            0 <= i < matches.len() && (#[trigger] matches[i]).file_path == file_path,
    decreases matches.len(),
{
    if matches.len() > 0 {
        let before = matches.drop_last();
        lemma_distinct_paths_contains(before, file_path);
        if distinct_paths(matches).contains(file_path) {
            if before.len() > 0 && distinct_paths(before).contains(file_path) {
                let i = choose|i: int|
                    0 <= i < before.len() && (#[trigger] before[i]).file_path == file_path;
                assert(matches[i].file_path == file_path);
            } else {
                let k = choose|k: int|
                    0 <= k < distinct_paths(matches).len() && distinct_paths(matches)[k]
                        == file_path;
                if distinct_paths(before).contains(matches.last().file_path) {
                    assert(distinct_paths(before)[k] == file_path);
                } else if k < distinct_paths(before).len() {
                    assert(distinct_paths(before)[k] == file_path);
                }
                assert(matches[matches.len() - 1].file_path == file_path);
            }
        }
        if exists|i: int| 0 <= i < matches.len() && (#[trigger] matches[i]).file_path == file_path {
            let i = choose|i: int|
                0 <= i < matches.len() && (#[trigger] matches[i]).file_path == file_path;
            if i < before.len() {
                assert(before[i].file_path == file_path);
                let k = choose|k: int|
                    0 <= k < distinct_paths(before).len() && distinct_paths(before)[k]
                        == file_path;
                assert(distinct_paths(matches)[k] == file_path);
            } else if distinct_paths(before).contains(file_path) {
            } else {
                assert(distinct_paths(matches)[distinct_paths(before).len() as int]
                    == file_path);
            }
        }
    }
}

/// No path occurs twice among the distinct paths of a list of matches.
pub proof fn lemma_distinct_paths_no_duplicates(matches: Seq<CardMatchView>)
    ensures
        distinct_paths(matches).no_duplicates(),
    decreases matches.len(),
{
    if matches.len() > 0 {
        lemma_distinct_paths_no_duplicates(matches.drop_last());
    }
}

/// The store that the scans of all files share: the matches, the files with
/// at least one match, and the files given up.
pub struct ScanResults {
    matches: Vec<CardMatch>,
    files_with_cards: Vec<String>,
    skipped_files: Vec<String>,
}

impl View for ScanResults {
    type V = ScanResultsView;

    closed spec fn view(&self) -> ScanResultsView {
        ScanResultsView {
            matches: match_views(self.matches@),
            skipped_files: texts(self.skipped_files@),
        }
    }
}

/// Whether `text` is among `list`.
pub fn contains_text(list: &Vec<String>, text: &str) -> (found: bool)
    ensures
        found == texts(list@).contains(text@),
{
    let mut i: usize = 0;
    while i < list.len()
        invariant
            i <= list.len(),
            forall|j: int| 0 <= j < i ==> texts(list@)[j] != text@,
        decreases list.len() - i,
    {
        if same_text(list[i].as_str(), text) {
            assert(texts(list@)[i as int] == text@);
            return true;
        }
        i += 1;
    }
    false
}

impl ScanResults {
    /// The list of files with cards holds what the matches say.
    pub closed spec fn well_formed(&self) -> bool {
        texts(self.files_with_cards@) == distinct_paths(match_views(self.matches@))
    }

    /// The empty store.
    pub fn new() -> (store: ScanResults)
        ensures
            store@ == ScanResultsView::empty(),
            store.well_formed(),
    {
        let store = ScanResults {
            matches: Vec::new(),
            files_with_cards: Vec::new(),
            skipped_files: Vec::new(),
        };
        assert(match_views(store.matches@) =~= Seq::<CardMatchView>::empty());
        assert(texts(store.skipped_files@) =~= Seq::<Seq<char>>::empty());
        assert(texts(store.files_with_cards@) =~= Seq::<Seq<char>>::empty());
        store
    }

    /// Puts one match into the store.
    pub fn add_match(&mut self, found: CardMatch)
        requires
            old(self).well_formed(),
        ensures
            final(self).well_formed(),
            final(self)@.matches == old(self)@.matches.push(found@),
            final(self)@.skipped_files == old(self)@.skipped_files,
    {
        let ghost before = self.matches@;
        let ghost files = self.files_with_cards@;
        if !contains_text(&self.files_with_cards, found.file_path.as_str()) {
            self.files_with_cards.push(found.file_path.clone());
            assert(texts(self.files_with_cards@) =~= texts(files).push(found.file_path@));
        }
        self.matches.push(found);
        assert(match_views(self.matches@) =~= match_views(before).push(found@));
        assert(match_views(self.matches@).drop_last() =~= match_views(before));
    }

    /// Records a file that was given up.
    pub fn add_skipped(&mut self, file_path: &str)
        requires
            old(self).well_formed(),
        ensures
            final(self).well_formed(),
            final(self)@.matches == old(self)@.matches,
            final(self)@.skipped_files == old(self)@.skipped_files.push(file_path@),
    {
        let ghost before = self.skipped_files@;
        self.skipped_files.push(file_path.to_owned());
        assert(texts(self.skipped_files@) =~= texts(before).push(file_path@));
    }

    /// Puts the report of one file into the store: its matches, and its path
    /// among the files given up where the file was.
    pub fn absorb(&mut self, report: FileReport)
        requires
            old(self).well_formed(),
        ensures
            final(self).well_formed(),
            final(self)@ == old(self)@.absorb(report@),
    {
        let FileReport { file_path, matches, skipped, lines_read: _ } = report;
        let mut matches = matches;
        let ghost incoming = match_views(matches@);
        let ghost start = match_views(self.matches@);
        let n = matches.len();
        let mut i: usize = 0;
        while i < n
            invariant
                i <= n,
                n == matches.len(),
                incoming == match_views(matches@),
                start == match_views(self.matches@),
                texts(self.skipped_files@) == old(self)@.skipped_files,
                texts(self.files_with_cards@) == distinct_paths(start + incoming.take(i as int)),
            decreases n - i,
        {
            let ghost files = self.files_with_cards@;
            assert((start + incoming.take(i + 1)).drop_last() =~= start + incoming.take(i as int));
            assert((start + incoming.take(i + 1)).last() == matches@[i as int]@);
            if !contains_text(&self.files_with_cards, matches[i].file_path.as_str()) {
                self.files_with_cards.push(matches[i].file_path.clone());
                assert(texts(self.files_with_cards@) =~= texts(files).push(
                    matches@[i as int].file_path@,
                ));
            }
            i += 1;
        }
        assert(incoming.take(n as int) =~= incoming);
        let ghost before = self.matches@;
        let ghost added = matches@;
        self.matches.append(&mut matches);
        assert(match_views(self.matches@) =~= match_views(before) + match_views(added));
        if skipped {
            self.add_skipped(file_path.as_str());
        }
    }

    /// The matches, in the order of arrival.
    pub fn matches(&self) -> (matches: &Vec<CardMatch>)
        ensures
            match_views(matches@) == self@.matches,
    {
        &self.matches
    }

    /// The files in which at least one card number was found, each once, in
    /// the order in which they first came up. A file that was given up after
    /// a card number was found in it is among them.
    pub fn files_with_cards(&self) -> (files: &Vec<String>)
        requires
            self.well_formed(),
        ensures
            texts(files@) == self@.files_with_cards(),
    {
        &self.files_with_cards
    }

    /// The files given up, in the order of arrival.
    pub fn skipped_files(&self) -> (files: &Vec<String>)
        ensures
            texts(files@) == self@.skipped_files,
    {
        &self.skipped_files
    }
}

/// What the reports `reports` hold between them of the kind that `part`
/// picks from each, without regard to order.
pub open spec fn gathered<T>(
    reports: Seq<FileReportView>,
    part: spec_fn(FileReportView) -> Multiset<T>,
) -> Multiset<T>
    decreases reports.len(),
{
    if reports.len() == 0 {
        Multiset::empty()
    } else {
        gathered(reports.drop_last(), part).add(part(reports.last()))
    }
}

/// The matches of a report, without regard to order.
pub open spec fn matches_part() -> spec_fn(FileReportView) -> Multiset<CardMatchView> {
    |r: FileReportView| r.matches.to_multiset()
}

/// The path of a report that was given up, and nothing for another.
pub open spec fn skipped_part() -> spec_fn(FileReportView) -> Multiset<Seq<char>> {
    |r: FileReportView|
        if r.skipped {
            Multiset::singleton(r.file_path)
        } else {
            Multiset::empty()
        }
}

/// Taking one report out takes its part out of what is gathered.
proof fn lemma_gathered_remove<T>(
    reports: Seq<FileReportView>,
    part: spec_fn(FileReportView) -> Multiset<T>,
    j: int,
)
    requires
        0 <= j < reports.len(),
    ensures
        gathered(reports, part) == gathered(reports.remove(j), part).add(part(reports[j])),
    decreases reports.len(),
{
    broadcast use vstd::multiset::group_multiset_axioms;

    if j == reports.len() - 1 {
        assert(reports.remove(j) =~= reports.drop_last());
    } else {
        let shorter = reports.remove(j);
        assert(shorter.drop_last() =~= reports.drop_last().remove(j));
        assert(shorter.last() == reports.last());
        lemma_gathered_remove(reports.drop_last(), part, j);
        assert(gathered(reports, part) =~= gathered(shorter, part).add(part(reports[j])));
    }
}

/// What is gathered from a list of reports does not depend on their order.
proof fn lemma_gathered_order<T>(
    a: Seq<FileReportView>,
    b: Seq<FileReportView>,
    part: spec_fn(FileReportView) -> Multiset<T>,
)
    requires
        a.to_multiset() == b.to_multiset(),
    ensures
        gathered(a, part) == gathered(b, part),
    decreases a.len(),
{
    broadcast use vstd::multiset::group_multiset_axioms;

    vstd::seq_lib::to_multiset_len(a);
    vstd::seq_lib::to_multiset_len(b);
    if a.len() > 0 {
        let x = a.last();
        let shorter = a.drop_last();
        assert(a =~= shorter.push(x));
        vstd::seq_lib::to_multiset_build(shorter, x);
        vstd::seq_lib::to_multiset_contains(b, x);
        assert(b.to_multiset().count(x) > 0);
        let j = choose|j: int| 0 <= j < b.len() && b[j] == x;
        vstd::seq_lib::to_multiset_remove(b, j);
        assert(shorter.to_multiset() =~= b.remove(j).to_multiset());
        lemma_gathered_order(shorter, b.remove(j), part);
        lemma_gathered_remove(b, part, j);
    }
}

/// The store after a list of reports holds what it held and what the reports
/// hold between them.
proof fn lemma_absorb_all_gathers(start: ScanResultsView, reports: Seq<FileReportView>)
    ensures
        start.absorb_all(reports).matches.to_multiset() == start.matches.to_multiset().add(
            gathered(reports, matches_part()),
        ),
        start.absorb_all(reports).skipped_files.to_multiset()
            == start.skipped_files.to_multiset().add(gathered(reports, skipped_part())),
    decreases reports.len(),
{
    broadcast use vstd::multiset::group_multiset_axioms;

    if reports.len() == 0 {
        assert(start.matches.to_multiset().add(gathered(reports, matches_part()))
            =~= start.matches.to_multiset());
        assert(start.skipped_files.to_multiset().add(gathered(reports, skipped_part()))
            =~= start.skipped_files.to_multiset());
    } else {
        let before = start.absorb_all(reports.drop_last());
        let last = reports.last();
        lemma_absorb_all_gathers(start, reports.drop_last());
        vstd::seq_lib::lemma_multiset_commutative(before.matches, last.matches);
        assert(start.absorb_all(reports).matches.to_multiset() =~= start.matches.to_multiset().add(
            gathered(reports, matches_part()),
        ));
        if last.skipped {
            vstd::seq_lib::to_multiset_build(before.skipped_files, last.file_path);
        }
        assert(start.absorb_all(reports).skipped_files.to_multiset()
            =~= start.skipped_files.to_multiset().add(gathered(reports, skipped_part())));
    }
}

/// Two lists of matches that hold the same matches name the same files.
proof fn lemma_distinct_paths_order(a: Seq<CardMatchView>, b: Seq<CardMatchView>)
    requires
        a.to_multiset() == b.to_multiset(),
    ensures
        distinct_paths(a).to_set() == distinct_paths(b).to_set(),
        distinct_paths(a).len() == distinct_paths(b).len(),
{
    assert forall|p: Seq<char>| distinct_paths(a).contains(p) == distinct_paths(b).contains(
        p,
    ) by {
        lemma_distinct_paths_contains(a, p);
        lemma_distinct_paths_contains(b, p);
        if exists|i: int| 0 <= i < a.len() && (#[trigger] a[i]).file_path == p {
            let i = choose|i: int| 0 <= i < a.len() && (#[trigger] a[i]).file_path == p;
            assert(a.contains(a[i]));
            vstd::seq_lib::to_multiset_contains(a, a[i]);
            vstd::seq_lib::to_multiset_contains(b, a[i]);
            let k = choose|k: int| 0 <= k < b.len() && b[k] == a[i];
            assert(b[k].file_path == p);
        }
        if exists|i: int| 0 <= i < b.len() && (#[trigger] b[i]).file_path == p {
            let i = choose|i: int| 0 <= i < b.len() && (#[trigger] b[i]).file_path == p;
            assert(b.contains(b[i]));
            vstd::seq_lib::to_multiset_contains(b, b[i]);
            vstd::seq_lib::to_multiset_contains(a, b[i]);
            let k = choose|k: int| 0 <= k < a.len() && a[k] == b[i];
            assert(a[k].file_path == p);
        }
    }
    assert(distinct_paths(a).to_set() =~= distinct_paths(b).to_set());
    lemma_distinct_paths_no_duplicates(a);
    lemma_distinct_paths_no_duplicates(b);
    distinct_paths(a).unique_seq_to_set();
    distinct_paths(b).unique_seq_to_set();
}

/// The order in which the reports of the files reach the store does not
/// matter to what the store then holds: the same matches, the same files
/// with cards and the same files given up, each as often.
pub proof fn lemma_arrival_order_is_irrelevant(a: Seq<FileReportView>, b: Seq<FileReportView>)
    requires
        a.to_multiset() == b.to_multiset(),
    ensures
        ({
            let x = ScanResultsView::empty().absorb_all(a);
            let y = ScanResultsView::empty().absorb_all(b);
            &&& x.matches.to_multiset() == y.matches.to_multiset()
            &&& x.matches.len() == y.matches.len()
            &&& x.files_with_cards().to_set() == y.files_with_cards().to_set()
            &&& x.files_with_cards().len() == y.files_with_cards().len()
            &&& x.skipped_files.to_multiset() == y.skipped_files.to_multiset()
            &&& x.skipped_files.len() == y.skipped_files.len()
        }),
{
    let x = ScanResultsView::empty().absorb_all(a);
    let y = ScanResultsView::empty().absorb_all(b);
    lemma_absorb_all_gathers(ScanResultsView::empty(), a);
    lemma_absorb_all_gathers(ScanResultsView::empty(), b);
    lemma_gathered_order(a, b, matches_part());
    lemma_gathered_order(a, b, skipped_part());
    vstd::seq_lib::to_multiset_len(x.matches);
    vstd::seq_lib::to_multiset_len(y.matches);
    vstd::seq_lib::to_multiset_len(x.skipped_files);
    vstd::seq_lib::to_multiset_len(y.skipped_files);
    lemma_distinct_paths_order(x.matches, y.matches);
}

/// Matches that all name different files name as many files as there are
/// matches.
proof fn lemma_distinct_paths_all_differ(matches: Seq<CardMatchView>)
    requires
        forall|i: int, j: int|
            0 <= i < j < matches.len() ==> (#[trigger] matches[i]).file_path != (
            #[trigger] matches[j]).file_path,
    ensures
        distinct_paths(matches).len() == matches.len(),
    decreases matches.len(),
{
    if matches.len() > 0 {
        let before = matches.drop_last();
        assert forall|i: int, j: int| 0 <= i < j < before.len() implies (
        #[trigger] before[i]).file_path != (#[trigger] before[j]).file_path by {
            assert(before[i] == matches[i] && before[j] == matches[j]);
        }
        lemma_distinct_paths_all_differ(before);
        lemma_distinct_paths_contains(before, matches.last().file_path);
        if distinct_paths(before).contains(matches.last().file_path) {
            let i = choose|i: int|
                0 <= i < before.len() && (#[trigger] before[i]).file_path
                    == matches.last().file_path;
            assert(before[i] == matches[i]);
            assert(matches[i].file_path != matches[matches.len() - 1].file_path);
        }
    }
}

/// Where each of a number of files holds exactly one card number, the store
/// holds as many matches and as many files with cards as there are files,
/// in whatever order their reports arrive.
pub proof fn lemma_one_match_per_file(reports: Seq<FileReportView>)
    requires
        forall|i: int|
            0 <= i < reports.len() ==> (#[trigger] reports[i]).matches.len() == 1
                && reports[i].matches[0].file_path == reports[i].file_path,
        forall|i: int, j: int|
            0 <= i < j < reports.len() ==> (#[trigger] reports[i]).file_path != (
            #[trigger] reports[j]).file_path,
    ensures
        ScanResultsView::empty().absorb_all(reports).matches.len() == reports.len(),
        ScanResultsView::empty().absorb_all(reports).files_with_cards().len() == reports.len(),
{
    lemma_one_match_each(reports);
    lemma_distinct_paths_all_differ(ScanResultsView::empty().absorb_all(reports).matches);
}

/// Where each report holds one match, the store holds the matches of the
/// reports in their order.
proof fn lemma_one_match_each(reports: Seq<FileReportView>)
    requires
        forall|i: int| 0 <= i < reports.len() ==> (#[trigger] reports[i]).matches.len() == 1,
    ensures
        ScanResultsView::empty().absorb_all(reports).matches.len() == reports.len(),
        forall|i: int|
            0 <= i < reports.len() ==> (#[trigger] ScanResultsView::empty().absorb_all(
                reports,
            ).matches[i]) == reports[i].matches[0],
    decreases reports.len(),
{
    if reports.len() > 0 {
        let before = reports.drop_last();
        assert forall|i: int| 0 <= i < before.len() implies (#[trigger] before[i]).matches.len()
            == 1 by {
            assert(before[i] == reports[i]);
        }
        lemma_one_match_each(before);
        let held = ScanResultsView::empty().absorb_all(before).matches;
        let now = ScanResultsView::empty().absorb_all(reports).matches;
        assert(now == held + reports.last().matches);
        assert forall|i: int| 0 <= i < reports.len() implies (#[trigger] now[i])
            == reports[i].matches[0] by {
            if i < before.len() {
                assert(now[i] == held[i]);
                assert(before[i] == reports[i]);
            }
        }
    }
}

/// Where every match names one of the files `targets`, the files with cards
/// are at most as many as `targets`.
pub proof fn lemma_files_with_cards_among_targets(
    targets: Seq<Seq<char>>,
    matches: Seq<CardMatchView>,
)
    requires
        forall|i: int| 0 <= i < matches.len() ==> targets.contains((#[trigger] matches[i]).file_path),
    ensures
        distinct_paths(matches).len() <= targets.len(),
{
    let files = distinct_paths(matches);
    lemma_distinct_paths_no_duplicates(matches);
    files.unique_seq_to_set();
    targets.lemma_cardinality_of_set();
    assert forall|p: Seq<char>| files.to_set().contains(p) implies targets.to_set().contains(
        p,
    ) by {
        assert(files.contains(p));
        lemma_distinct_paths_contains(matches, p);
    }
    vstd::set_lib::lemma_len_subset(files.to_set(), targets.to_set());
}

} // verus!
