//! A whole scan: from the files and what was read of them to the matches
//! and the summary.

use vstd::prelude::*;
use crate::scanner::{
    lemma_report_keeps_path, lemma_report_well_formed, lemma_scan_of_text, line_texts, scan_lines,
    FileReport, FileReportView,
};
use crate::card_match::CardMatchView;
use crate::store::{
    distinct_paths, lemma_arrival_order_is_irrelevant, lemma_files_with_cards_among_targets,
    lemma_one_match_per_file, ScanResults, ScanResultsView,
};
use crate::summary::{summary_of, ScanSummary};
use crate::text::texts;

verus! {

/// What could be read of a file.
#[derive(Clone, Debug, PartialEq, Eq)]
pub enum FileContent {
    /// The file could not be opened.
    Unreadable,
    /// The lines of the file, `None` standing for a line that could not be
    /// decoded as text.
    Lines(Vec<Option<String>>),
}

/// A file to scan, with what could be read of it.
#[derive(Clone, Debug, PartialEq, Eq)]
pub struct SourceFile {
    pub path: String,
    pub content: FileContent,
}

/// A file to scan as contracts see it: its path, and its lines unless it
/// could not be opened.
pub struct SourceFileView {
    pub path: Seq<char>,
    pub lines: Option<Seq<Option<Seq<char>>>>,
}

impl View for SourceFile {
    type V = SourceFileView;

    open spec fn view(&self) -> SourceFileView {
        SourceFileView {
            path: self.path@,
            lines: match self.content {
                FileContent::Unreadable => None,
                FileContent::Lines(lines) => Some(line_texts(lines@)),
            },
        }
    }
}

impl SourceFileView {
    /// What the scan of the file comes to.
    pub open spec fn report(self) -> FileReportView {
        match self.lines {
            None => FileReportView::unreadable(self.path),
            Some(lines) => FileReportView::opened(self.path).after_lines(lines),
        }
    }
}

/// The views of a list of files.
pub open spec fn file_views(files: Seq<SourceFile>) -> Seq<SourceFileView> {
    files.map_values(|f: SourceFile| f@)
}

/// The paths of a list of files.
pub open spec fn paths_of(files: Seq<SourceFileView>) -> Seq<Seq<char>> {
    files.map_values(|f: SourceFileView| f.path)
}

/// What the scans of the files come to, file by file.
pub open spec fn reports_of(files: Seq<SourceFileView>) -> Seq<FileReportView> {
    files.map_values(|f: SourceFileView| f.report())
}

/// What a scan of the files leaves in the store.
pub open spec fn results_of(files: Seq<SourceFileView>) -> ScanResultsView {
    ScanResultsView::empty().absorb_all(reports_of(files))
}

/// Scans one file.
pub fn scan_file(file: &SourceFile) -> (report: FileReport)
    ensures
        report@ == file@.report(),
        report@.well_formed(),
{
    match &file.content {
        FileContent::Unreadable => FileReport::unreadable(file.path.as_str()),
        FileContent::Lines(lines) => scan_lines(file.path.as_str(), lines),
    }
}

/// Scans the files `files` one after the other and sums the scan up. The
/// date, the number of directories visited, the total size of the files and
/// the time that reading them took are recorded as they are given.
pub fn scan(
    files: &Vec<SourceFile>,
    scan_date: String,
    directories: usize,
    total_size_bytes: u64,
    elapsed_seconds: u64,
) -> (outcome: (ScanResults, ScanSummary))
    ensures
        outcome.0.well_formed(),
        outcome.0@ == results_of(file_views(files@)),
        outcome.1@ == summary_of(
            scan_date@,
            paths_of(file_views(files@)),
            directories as nat,
            total_size_bytes as nat,
            results_of(file_views(files@)),
            elapsed_seconds as nat,
        ),
{
    let ghost all = file_views(files@);
    let ghost targets = paths_of(all);
    let mut store = ScanResults::new();
    let mut paths: Vec<String> = Vec::new();
    let mut i: usize = 0;
    while i < files.len()
        invariant
            i <= files.len(),
            all == file_views(files@),
            targets == paths_of(all),
            store.well_formed(),
            store@ == results_of(all.take(i as int)),
            texts(paths@) == targets.take(i as int),
            forall|k: int|
                0 <= k < store@.matches.len() ==> targets.contains(
                    (#[trigger] store@.matches[k]).file_path,
                ),
        decreases files.len() - i,
    {
        let report = scan_file(&files[i]);
        let ghost held = store@.matches;
        let ghost listed = paths@;
        proof {
            assert(reports_of(all.take(i + 1)).drop_last() =~= reports_of(all.take(i as int)));
            assert(reports_of(all.take(i + 1)).last() == report@);
            if let Some(lines) = all[i as int].lines {
                lemma_report_keeps_path(FileReportView::opened(all[i as int].path), lines);
            }
            assert(targets[i as int] == report@.file_path);
            assert forall|k: int| 0 <= k < (held + report@.matches).len() implies targets.contains(
                (#[trigger] (held + report@.matches)[k]).file_path,
            ) by {
                if k >= held.len() {
                    assert(report@.matches[k - held.len()].file_path == targets[i as int]);
                }
            }
        }
        store.absorb(report);
        paths.push(files[i].path.clone());
        assert(texts(paths@) =~= texts(listed).push(files@[i as int].path@));
        assert(targets.take(i + 1) =~= targets.take(i as int).push(targets[i as int]));
        i += 1;
    }
    proof {
        assert(all.take(files.len() as int) =~= all);
        assert(targets.take(files.len() as int) =~= targets);
        lemma_files_with_cards_among_targets(targets, store@.matches);
    }
    let mut summary = ScanSummary::with_date(scan_date);
    summary.record_scan(&paths, directories, total_size_bytes, &store, elapsed_seconds);
    (store, summary)
}

/// Whether the file was read to its end: it could be opened, and each of
/// its lines could be decoded.
pub open spec fn read_to_end(file: SourceFileView) -> bool {
    file.lines matches Some(lines) && forall|j: int|
        0 <= j < lines.len() ==> (#[trigger] lines[j]) is Some
}

/// The report of a file names the file, is well formed, and counts the file
/// as given up unless it was read to its end.
pub proof fn lemma_report_of_file(file: SourceFileView)
    ensures
        file.report().file_path == file.path,
        file.report().well_formed(),
        read_to_end(file) ==> !file.report().skipped,
{
    match file.lines {
        Some(lines) => {
            lemma_report_keeps_path(FileReportView::opened(file.path), lines);
            lemma_report_well_formed(FileReportView::opened(file.path), lines);
            if read_to_end(file) {
                lemma_scan_of_text(file.path, lines);
            }
        },
        None => {},
    }
}

/// Every match of a scan names one of the files scanned, and a file counts
/// as given up only if one of the files was not read to its end.
proof fn lemma_results_of_files(files: Seq<SourceFileView>)
    ensures
        forall|k: int|
            0 <= k < results_of(files).matches.len() ==> paths_of(files).contains(
                (#[trigger] results_of(files).matches[k]).file_path,
            ),
        (forall|i: int| 0 <= i < files.len() ==> read_to_end(#[trigger] files[i])) ==> results_of(
            files,
        ).skipped_files.len() == 0,
    decreases files.len(),
{
    if files.len() > 0 {
        let before = files.drop_last();
        let last = files.last();
        lemma_results_of_files(before);
        lemma_report_of_file(last);
        assert(reports_of(files).drop_last() =~= reports_of(before));
        assert(results_of(files) == results_of(before).absorb(last.report()));
        let held = results_of(before).matches;
        assert forall|k: int| 0 <= k < results_of(files).matches.len() implies paths_of(
            files,
        ).contains((#[trigger] results_of(files).matches[k]).file_path) by {
            if k < held.len() {
                let p = held[k].file_path;
                let j = choose|j: int| 0 <= j < paths_of(before).len() && paths_of(before)[j] == p;
                assert(paths_of(files)[j] == p);
            } else {
                assert(results_of(files).matches[k] == last.report().matches[k - held.len()]);
                assert(paths_of(files)[files.len() - 1] == last.path);
            }
        }
        if forall|i: int| 0 <= i < files.len() ==> read_to_end(#[trigger] files[i]) {
            assert forall|i: int| 0 <= i < before.len() implies read_to_end(
                #[trigger] before[i],
            ) by {
                assert(before[i] == files[i]);
            }
            assert(read_to_end(files[files.len() - 1]));
        }
    }
}

/// In a scan in which every file was read to its end, each file is either
/// clean or a file with cards: the clean files, the files with cards and the
/// files given up add up to the files scanned. A file that is given up is
/// counted among the files given up and, besides, among the clean files or
/// among the files with cards, so that with such a file the sum is larger.
pub proof fn lemma_scan_partition(
    files: Seq<SourceFileView>,
    scan_date: Seq<char>,
    directories: nat,
    size: nat,
    seconds: nat,
)
    requires
        forall|i: int| 0 <= i < files.len() ==> read_to_end(#[trigger] files[i]),
    ensures
        ({
            let summary = summary_of(
                scan_date,
                paths_of(files),
                directories,
                size,
                results_of(files),
                seconds,
            );
            &&& summary.skipped_files.len() == 0
            &&& summary.total_files_with_cards <= summary.total_files_scanned
            &&& summary.clean_files + summary.total_files_with_cards
                + summary.skipped_files.len() == summary.total_files_scanned
        }),
{
    lemma_results_of_files(files);
    lemma_files_with_cards_among_targets(paths_of(files), results_of(files).matches);
}

/// Mapping two lists that hold the same items gives two lists that hold
/// the same items.
proof fn lemma_mapped_order<A, B>(a: Seq<A>, b: Seq<A>, f: spec_fn(A) -> B)
    requires
        a.to_multiset() == b.to_multiset(),
    ensures
        a.map_values(f).to_multiset() == b.map_values(f).to_multiset(),
    decreases a.len(),
{
    broadcast use vstd::multiset::group_multiset_axioms;

    vstd::seq_lib::to_multiset_len(a);
    vstd::seq_lib::to_multiset_len(b);
    if a.len() == 0 {
        assert(a.map_values(f) =~= b.map_values(f));
    } else {
        let x = a.last();
        let shorter = a.drop_last();
        assert(a =~= shorter.push(x));
        vstd::seq_lib::to_multiset_build(shorter, x);
        vstd::seq_lib::to_multiset_contains(b, x);
        assert(b.to_multiset().count(x) > 0);
        let j = choose|j: int| 0 <= j < b.len() && b[j] == x;
        vstd::seq_lib::to_multiset_remove(b, j);
        assert(shorter.to_multiset() =~= b.remove(j).to_multiset());
        lemma_mapped_order(shorter, b.remove(j), f);
        assert(a.map_values(f) =~= shorter.map_values(f).push(f(x)));
        vstd::seq_lib::to_multiset_build(shorter.map_values(f), f(x));
        assert(b.map_values(f).remove(j) =~= b.remove(j).map_values(f));
        vstd::seq_lib::to_multiset_remove(b.map_values(f), j);
        assert(b.map_values(f)[j] == f(x));
        vstd::seq_lib::to_multiset_contains(b.map_values(f), f(x));
        assert(b.map_values(f).to_multiset() =~= b.remove(j).map_values(f).to_multiset().insert(
            f(x),
        ));
    }
}

/// A scan of the same files finds the same matches, the same files with
/// cards and the same files given up, each as often, in whatever order the
/// files are scanned.
pub proof fn lemma_scan_order_is_irrelevant(a: Seq<SourceFileView>, b: Seq<SourceFileView>)
    requires
        a.to_multiset() == b.to_multiset(),
    ensures
        results_of(a).matches.to_multiset() == results_of(b).matches.to_multiset(),
        results_of(a).matches.len() == results_of(b).matches.len(),
        results_of(a).files_with_cards().to_set() == results_of(b).files_with_cards().to_set(),
        results_of(a).files_with_cards().len() == results_of(b).files_with_cards().len(),
        results_of(a).skipped_files.to_multiset() == results_of(b).skipped_files.to_multiset(),
        results_of(a).skipped_files.len() == results_of(b).skipped_files.len(),
{
    lemma_mapped_order(a, b, |f: SourceFileView| f.report());
    lemma_arrival_order_is_irrelevant(reports_of(a), reports_of(b));
}

/// A scan of files of different paths, each of which holds exactly one card
/// number, finds as many card numbers and as many files with cards as there
/// are files.
pub proof fn lemma_scan_of_single_match_files(files: Seq<SourceFileView>)
    requires
        forall|i: int| 0 <= i < files.len() ==> (#[trigger] files[i]).report().matches.len() == 1,
        forall|i: int, j: int|
            0 <= i < j < files.len() ==> (#[trigger] files[i]).path != (#[trigger] files[j]).path,
    ensures
        results_of(files).matches.len() == files.len(),
        results_of(files).files_with_cards().len() == files.len(),
{
    let reports = reports_of(files);
    assert forall|i: int| 0 <= i < reports.len() implies (#[trigger] reports[i]).matches.len() == 1
        && reports[i].matches[0].file_path == reports[i].file_path by {
        lemma_report_of_file(files[i]);
    }
    assert forall|i: int, j: int| 0 <= i < j < reports.len() implies (
    #[trigger] reports[i]).file_path != (#[trigger] reports[j]).file_path by {
        lemma_report_of_file(files[i]);
        lemma_report_of_file(files[j]);
    }
    lemma_one_match_per_file(reports);
}

/// A scan of three files, of which the first was read to its end and holds
/// exactly one card number, the second is empty and the third could not be
/// opened, finds one card number and one file with cards, gives one file up
/// and counts the two files without a card number as clean.
pub proof fn lemma_scan_of_card_empty_and_unreadable(
    with_card: SourceFileView,
    empty: SourceFileView,
    unreadable: SourceFileView,
    scan_date: Seq<char>,
    directories: nat,
    size: nat,
    seconds: nat,
)
    requires
        read_to_end(with_card),
        with_card.report().matches.len() == 1,
        empty.lines == Some(Seq::<Option<Seq<char>>>::empty()),
        unreadable.lines is None,
    ensures
        ({
            let files = seq![with_card, empty, unreadable];
            let results = results_of(files);
            let summary = summary_of(
                scan_date,
                paths_of(files),
                directories,
                size,
                results,
                seconds,
            );
            &&& results.matches == with_card.report().matches
            &&& results.matches[0].file_path == with_card.path
            &&& results.files_with_cards() == seq![with_card.path]
            &&& results.skipped_files == seq![unreadable.path]
            &&& summary.total_files_scanned == 3
            &&& summary.total_cards_found == 1
            &&& summary.total_files_with_cards == 1
            &&& summary.skipped_files.len() == 1
            &&& summary.clean_files == 2
        }),
{
    let files = seq![with_card, empty, unreadable];
    let reports = reports_of(files);
    let start = ScanResultsView::empty();
    lemma_report_of_file(with_card);
    assert(reports.drop_last() =~= seq![with_card.report(), empty.report()]);
    assert(reports.drop_last().drop_last() =~= seq![with_card.report()]);
    assert(reports.drop_last().drop_last().drop_last() =~= Seq::<FileReportView>::empty());
    let first = seq![with_card.report()];
    assert(first.drop_last() =~= Seq::<FileReportView>::empty());
    assert(start.absorb_all(first.drop_last()) == start);
    assert(first.last() == with_card.report());
    assert(start.absorb_all(first) == start.absorb(with_card.report()));
    assert(start.absorb_all(reports.drop_last()) == start.absorb(with_card.report()).absorb(
        empty.report(),
    ));
    let results = results_of(files);
    let found = with_card.report().matches;
    assert(results.matches =~= found);
    assert(results.skipped_files =~= seq![unreadable.path]);
    assert(found[0].file_path == with_card.path);
    assert(found.drop_last() =~= Seq::<CardMatchView>::empty());
    assert(distinct_paths(found.drop_last()) =~= Seq::<Seq<char>>::empty());
    assert(found.last() == found[0]);
    assert(distinct_paths(found) =~= seq![with_card.path]);
}

} // verus!
