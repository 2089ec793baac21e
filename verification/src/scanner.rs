//! Scanning the lines of a file for card numbers.

use vstd::prelude::*;
use crate::brand::{brand_of, identify_card_brand};
use crate::card_match::{is_card_number, match_for, match_views, CardMatch, CardMatchView};
use crate::extract::{candidates_in, extract_candidates};
use crate::luhn::is_valid_luhn;
use crate::text::{chars_of, texts};

verus! {

/// The match that a candidate gives: none unless it is a card number and a
/// rule of the brand table takes it.
pub open spec fn match_of(
    candidate: Seq<char>,
    file_path: Seq<char>,
    line_number: nat,
    line: Seq<char>,
) -> Option<CardMatchView> {
    match brand_of(candidate) {
        Some(brand) => match_for(brand, candidate, file_path, line_number, line),
        None => None,
    }
}

/// The matches that a list of candidates gives, in the order of the
/// candidates.
pub open spec fn matches_from(
    candidates: Seq<Seq<char>>,
    file_path: Seq<char>,
    line_number: nat,
    line: Seq<char>,
) -> Seq<CardMatchView> {
    candidates.filter_map(|c: Seq<char>| match_of(c, file_path, line_number, line))
}

/// The matches on one line, from left to right.
pub open spec fn line_matches(file_path: Seq<char>, line_number: nat, line: Seq<char>) -> Seq<
    CardMatchView,
> {
    matches_from(candidates_in(line), file_path, line_number, line)
}

/// Validates and classifies one candidate found on line `line_number` of
/// `file_path`.
pub fn check_candidate(candidate: &str, file_path: &str, line_number: usize, line: &str) -> (found:
    Option<CardMatch>)
    ensures
        match found {
            Some(m) => Some(m@),
            None => None,
        } == match_of(candidate@, file_path@, line_number as nat, line@),
        found matches Some(m) ==> m@.well_formed(),
{
    let digits = chars_of(candidate);
    if digits.len() < 13 || digits.len() > 19 || !is_valid_luhn(candidate) {
        return None;
    }
    match identify_card_brand(candidate) {
        Some(brand) => CardMatch::new(brand, candidate, file_path, line_number, line),
        None => None,
    }
}

/// The card numbers on one line of a file, from left to right.
pub fn scan_line(line: &str, file_path: &str, line_number: usize) -> (found: Vec<CardMatch>)
    ensures
        match_views(found@) == line_matches(file_path@, line_number as nat, line@),
        forall|i: int| 0 <= i < found.len() ==> (#[trigger] found[i])@.well_formed(),
{
    let candidates = extract_candidates(line);
    let ghost all = texts(candidates@);
    let ghost f = |c: Seq<char>| match_of(c, file_path@, line_number as nat, line@);
    let mut found: Vec<CardMatch> = Vec::new();
    let mut i: usize = 0;
    while i < candidates.len()
        invariant
            i <= candidates.len(),
            all == texts(candidates@),
            f == |c: Seq<char>| match_of(c, file_path@, line_number as nat, line@),
            match_views(found@) == all.take(i as int).filter_map(f),
            forall|k: int| 0 <= k < found.len() ==> (#[trigger] found[k])@.well_formed(),
        decreases candidates.len() - i,
    {
        proof {
            all.lemma_filter_map_take_succ(f, i as int);
        }
        match check_candidate(candidates[i].as_str(), file_path, line_number, line) {
            Some(m) => {
                let ghost before = found@;
                found.push(m);
                assert(match_views(found@) =~= match_views(before).push(m@));
            },
            None => {},
        }
        i += 1;
    }
    assert(all.take(candidates.len() as int) =~= all);
    found
}

/// What the scan of one file came to.
pub struct FileReport {
    /// The file.
    pub file_path: String,
    /// The card numbers found, in the order of the lines.
    pub matches: Vec<CardMatch>,
    /// Whether the file was given up: it could not be opened, or one of its
    /// lines could not be decoded as text.
    pub skipped: bool,
    /// The number of lines scanned.
    pub lines_read: usize,
}

/// A report as contracts see it.
pub struct FileReportView {
    pub file_path: Seq<char>,
    pub matches: Seq<CardMatchView>,
    pub skipped: bool,
    pub lines_read: nat,
}

impl View for FileReport {
    type V = FileReportView;

    open spec fn view(&self) -> FileReportView {
        FileReportView {
            file_path: self.file_path@,
            matches: match_views(self.matches@),
            skipped: self.skipped,
            lines_read: self.lines_read as nat,
        }
    }
}

/// The texts of a list of lines, `None` standing for a line that could not
/// be decoded.
pub open spec fn line_texts(lines: Seq<Option<String>>) -> Seq<Option<Seq<char>>> {
    lines.map_values(
        |l: Option<String>|
            match l {
                Some(text) => Some(text@),
                None => None,
            },
    )
}

impl FileReportView {
    /// The report of a file that was opened and of which nothing is read yet.
    pub open spec fn opened(file_path: Seq<char>) -> FileReportView {
        FileReportView { file_path, matches: Seq::empty(), skipped: false, lines_read: 0 }
    }

    /// The report of a file that could not be opened.
    pub open spec fn unreadable(file_path: Seq<char>) -> FileReportView {
        FileReportView { file_path, matches: Seq::empty(), skipped: true, lines_read: 0 }
    }

    /// The report after one more line was read. Lines are numbered from 1.
    /// A file that was given up stays as it is.
    pub open spec fn after_line(self, line: Seq<char>) -> FileReportView {
        if self.skipped {
            self
        } else {
            FileReportView {
                matches: self.matches + line_matches(self.file_path, self.lines_read + 1, line),
                lines_read: self.lines_read + 1,
                ..self
            }
        }
    }

    /// The report after a line that could not be decoded: the file is given
    /// up, and what was found before stays.
    pub open spec fn after_undecodable(self) -> FileReportView {
        FileReportView { skipped: true, ..self }
    }

    /// The report after the lines `lines`, of which `None` stands for one
    /// that could not be decoded.
    pub open spec fn after_lines(self, lines: Seq<Option<Seq<char>>>) -> FileReportView
        decreases lines.len(),
    {
        if lines.len() == 0 {
            self
        } else {
            let before = self.after_lines(lines.drop_last());
            match lines.last() {
                Some(text) => before.after_line(text),
                None => before.after_undecodable(),
            }
        }
    }

    /// Every match of the report is well formed, names the report's file and
    /// stands on a line that was read.
    pub open spec fn well_formed(self) -> bool {
        forall|i: int|
            0 <= i < self.matches.len() ==> {
                &&& (#[trigger] self.matches[i]).well_formed()
                &&& self.matches[i].file_path == self.file_path
                &&& 1 <= self.matches[i].line_number <= self.lines_read
            }
    }
}

impl FileReport {
    /// The report of a file that was opened and of which nothing is read yet.
    pub fn new(file_path: &str) -> (report: FileReport)
        ensures
            report@ == FileReportView::opened(file_path@),
            report@.well_formed(),
    {
        let report = FileReport {
            file_path: file_path.to_owned(),
            matches: Vec::new(),
            skipped: false,
            lines_read: 0,
        };
        assert(match_views(report.matches@) =~= Seq::<CardMatchView>::empty());
        report
    }

    /// The report of a file that could not be opened.
    pub fn unreadable(file_path: &str) -> (report: FileReport)
        ensures
            report@ == FileReportView::unreadable(file_path@),
            report@.well_formed(),
    {
        let report = FileReport {
            file_path: file_path.to_owned(),
            matches: Vec::new(),
            skipped: true,
            lines_read: 0,
        };
        assert(match_views(report.matches@) =~= Seq::<CardMatchView>::empty());
        report
    }

    /// Scans the next line of the file. Nothing happens once the file is
    /// given up.
    pub fn add_line(&mut self, line: &str)
        requires
            old(self).skipped || old(self).lines_read < usize::MAX,
        ensures
            final(self)@ == old(self)@.after_line(line@),
            old(self)@.well_formed() ==> final(self)@.well_formed(),
    {
        if self.skipped {
            return ;
        }
        let number = self.lines_read + 1;
        let mut found = scan_line(line, self.file_path.as_str(), number);
        let ghost before = self.matches@;
        let ghost added = found@;
        self.matches.append(&mut found);
        self.lines_read = number;
        assert(match_views(self.matches@) =~= match_views(before) + match_views(added));
        proof {
            lemma_line_matches_place(self.file_path@, number as nat, line@);
            if old(self)@.well_formed() {
                assert forall|i: int| 0 <= i < self@.matches.len() implies {
                    &&& (#[trigger] self@.matches[i]).well_formed()
                    &&& self@.matches[i].file_path == self@.file_path
                    &&& 1 <= self@.matches[i].line_number <= self@.lines_read
                } by {
                    if i < before.len() {
                        assert(self@.matches[i] == old(self)@.matches[i]);
                    } else {
                        assert(self@.matches[i] == match_views(added)[i - before.len()]);
                        assert(match_views(added)[i - before.len()] == added[i - before.len()]@);
                    }
                }
            }
        }
    }

    /// Gives the file up because its next line could not be decoded as text.
    /// What was found on the lines before stays in the report.
    pub fn stop_undecodable(&mut self)
        ensures
            final(self)@ == old(self)@.after_undecodable(),
            old(self)@.well_formed() ==> final(self)@.well_formed(),
    {
        self.skipped = true;
        proof {
            if old(self)@.well_formed() {
                assert forall|i: int| 0 <= i < self@.matches.len() implies {
                    &&& (#[trigger] self@.matches[i]).well_formed()
                    &&& self@.matches[i].file_path == self@.file_path
                    &&& 1 <= self@.matches[i].line_number <= self@.lines_read
                } by {
                    assert(self@.matches[i] == old(self)@.matches[i]);
                }
            }
        }
    }

    /// Whether at least one card number was found in the file.
    pub fn has_cards(&self) -> (found: bool)
        ensures
            found == (self@.matches.len() > 0),
    {
        self.matches.len() > 0
    }
}

/// Every match on a line names the file and the line it was asked for.
pub proof fn lemma_line_matches_place(file_path: Seq<char>, line_number: nat, line: Seq<char>)
    ensures
        forall|i: int|
            0 <= i < line_matches(file_path, line_number, line).len() ==> {
                let m = #[trigger] line_matches(file_path, line_number, line)[i];
                m.file_path == file_path && m.line_number == line_number && m.line_content == line
            },
{
    let f = |c: Seq<char>| match_of(c, file_path, line_number, line);
    let candidates = candidates_in(line);
    assert forall|i: int| 0 <= i < candidates.filter_map(f).len() implies {
        let m = #[trigger] candidates.filter_map(f)[i];
        m.file_path == file_path && m.line_number == line_number && m.line_content == line
    } by {
        let m = candidates.filter_map(f)[i];
        assert(candidates.filter_map(f).contains(m));
        candidates.lemma_filter_map_contains(f, m);
    }
}

/// Scans the lines of a file in order, up to the first that could not be
/// decoded, for which `None` stands.
pub fn scan_lines(file_path: &str, lines: &Vec<Option<String>>) -> (report: FileReport)
    ensures
        report@ == FileReportView::opened(file_path@).after_lines(line_texts(lines@)),
        report@.well_formed(),
{
    let mut report = FileReport::new(file_path);
    let ghost all = line_texts(lines@);
    let mut i: usize = 0;
    while i < lines.len()
        invariant
            i <= lines.len(),
            all == line_texts(lines@),
            report.lines_read <= i,
            report@ == FileReportView::opened(file_path@).after_lines(all.take(i as int)),
            report@.well_formed(),
        decreases lines.len() - i,
    {
        assert(all.take(i + 1).drop_last() =~= all.take(i as int));
        match &lines[i] {
            Some(text) => report.add_line(text.as_str()),
            None => report.stop_undecodable(),
        }
        i += 1;
    }
    assert(all.take(lines.len() as int) =~= all);
    report
}

/// Once a file is given up, nothing that follows changes its report.
pub proof fn lemma_given_up_stays(report: FileReportView, lines: Seq<Option<Seq<char>>>)
    requires
        report.skipped,
    ensures
        report.after_lines(lines) == report,
    decreases lines.len(),
{
    if lines.len() > 0 {
        lemma_given_up_stays(report, lines.drop_last());
    }
}

/// A scan ends at the first line that cannot be decoded: the report holds
/// what the lines before it gave, the file counts as given up, and the lines
/// after it are not looked at.
pub proof fn lemma_scan_ends_at_undecodable(
    start: FileReportView,
    lines: Seq<Option<Seq<char>>>,
    k: int,
)
    requires
        0 <= k < lines.len(),
        lines[k] is None,
    ensures
        start.after_lines(lines) == start.after_lines(lines.take(k)).after_undecodable(),
    decreases lines.len(),
{
    if k == lines.len() - 1 {
        assert(lines.drop_last() =~= lines.take(k));
    } else {
        let before = lines.drop_last();
        assert(before.take(k) =~= lines.take(k));
        lemma_scan_ends_at_undecodable(start, before, k);
    }
}

/// A file whose lines can all be decoded is not given up, and all its lines
/// are scanned.
pub proof fn lemma_scan_of_text(file_path: Seq<char>, lines: Seq<Option<Seq<char>>>)
    requires
        forall|i: int| 0 <= i < lines.len() ==> (#[trigger] lines[i]) is Some,
    ensures
        !FileReportView::opened(file_path).after_lines(lines).skipped,
        FileReportView::opened(file_path).after_lines(lines).lines_read == lines.len(),
        FileReportView::opened(file_path).after_lines(lines).file_path == file_path,
    decreases lines.len(),
{
    if lines.len() > 0 {
        let before = lines.drop_last();
        assert forall|i: int| 0 <= i < before.len() implies (#[trigger] before[i]) is Some by {
            assert(before[i] == lines[i]);
        }
        lemma_scan_of_text(file_path, before);
        assert(lines[lines.len() - 1] is Some);
    }
}

/// Reading lines does not change the file that a report names.
pub proof fn lemma_report_keeps_path(start: FileReportView, lines: Seq<Option<Seq<char>>>)
    ensures
        start.after_lines(lines).file_path == start.file_path,
    decreases lines.len(),
{
    if lines.len() > 0 {
        lemma_report_keeps_path(start, lines.drop_last());
    }
}

/// Every match on a line is well formed.
pub proof fn lemma_line_matches_well_formed(
    file_path: Seq<char>,
    line_number: nat,
    line: Seq<char>,
)
    ensures
        forall|i: int|
            0 <= i < line_matches(file_path, line_number, line).len() ==> (
            #[trigger] line_matches(file_path, line_number, line)[i]).well_formed(),
{
    let f = |c: Seq<char>| match_of(c, file_path, line_number, line);
    let candidates = candidates_in(line);
    assert forall|i: int| 0 <= i < candidates.filter_map(f).len() implies (
    #[trigger] candidates.filter_map(f)[i]).well_formed() by {
        let m = candidates.filter_map(f)[i];
        assert(candidates.filter_map(f).contains(m));
        candidates.lemma_filter_map_contains(f, m);
        let c = choose|c: Seq<char>| candidates.contains(c) && f(c) == Some(m);
        assert(m.full_pan == c);
        assert(m.bin == c.take(6));
    }
}

/// Reading lines keeps a report well formed.
pub proof fn lemma_report_well_formed(start: FileReportView, lines: Seq<Option<Seq<char>>>)
    requires
        start.well_formed(),
    ensures
        start.after_lines(lines).well_formed(),
    decreases lines.len(),
{
    if lines.len() > 0 {
        let before = start.after_lines(lines.drop_last());
        lemma_report_well_formed(start, lines.drop_last());
        match lines.last() {
            Some(text) => {
                if !before.skipped {
                    let number = before.lines_read + 1;
                    let added = line_matches(before.file_path, number, text);
                    let after = before.after_line(text);
                    lemma_line_matches_place(before.file_path, number, text);
                    lemma_line_matches_well_formed(before.file_path, number, text);
                    assert forall|i: int| 0 <= i < after.matches.len() implies {
                        &&& (#[trigger] after.matches[i]).well_formed()
                        &&& after.matches[i].file_path == after.file_path
                        &&& 1 <= after.matches[i].line_number <= after.lines_read
                    } by {
                        if i < before.matches.len() {
                            assert(after.matches[i] == before.matches[i]);
                        } else {
                            assert(after.matches[i] == added[i - before.matches.len()]);
                        }
                    }
                }
            },
            None => {
                let after = before.after_undecodable();
                assert forall|i: int| 0 <= i < after.matches.len() implies {
                    &&& (#[trigger] after.matches[i]).well_formed()
                    &&& after.matches[i].file_path == after.file_path
                    &&& 1 <= after.matches[i].line_number <= after.lines_read
                } by {
                    assert(after.matches[i] == before.matches[i]);
                }
            },
        }
    }
}

/// A line in which no candidate is found holds no match, and a line whose
/// only candidate is a card number that a rule of the brand table takes
/// holds exactly the match of that number.
pub proof fn lemma_line_with_one_candidate(
    file_path: Seq<char>,
    line_number: nat,
    line: Seq<char>,
)
    ensures
        candidates_in(line).len() == 0 ==> line_matches(file_path, line_number, line).len() == 0,
        candidates_in(line).len() == 1 ==> line_matches(file_path, line_number, line) == (
        match match_of(candidates_in(line)[0], file_path, line_number, line) {
            Some(m) => seq![m],
            None => Seq::empty(),
        }),
{
    let f = |c: Seq<char>| match_of(c, file_path, line_number, line);
    let candidates = candidates_in(line);
    if candidates.len() == 1 {
        assert(candidates.drop_last().len() == 0);
        assert(candidates.drop_last().filter_map(f) =~= Seq::<CardMatchView>::empty());
        assert(candidates.filter_map(f) =~= match f(candidates[0]) {
            Some(m) => seq![m],
            None => Seq::empty(),
        });
    }
}

/// A file that is read to its end, and in which one line alone holds a
/// candidate, reports what that line holds, under the number of that line.
pub proof fn lemma_report_of_one_line(
    file_path: Seq<char>,
    lines: Seq<Option<Seq<char>>>,
    k: int,
)
    requires
        0 <= k < lines.len(),
        forall|j: int| 0 <= j < lines.len() ==> (#[trigger] lines[j]) is Some,
        forall|j: int|
            0 <= j < lines.len() && j != k ==> candidates_in((#[trigger] lines[j])->0).len() == 0,
    ensures
        FileReportView::opened(file_path).after_lines(lines).matches == line_matches(
            file_path,
            (k + 1) as nat,
            lines[k]->0,
        ),
        !FileReportView::opened(file_path).after_lines(lines).skipped,
        FileReportView::opened(file_path).after_lines(lines).lines_read == lines.len(),
{
    lemma_matches_up_to(file_path, lines, k, lines.len() as int);
    assert(lines.take(lines.len() as int) =~= lines);
}

/// The same for the first `n` lines: nothing before line `k` is reached,
/// what line `k` holds from there on.
proof fn lemma_matches_up_to(
    file_path: Seq<char>,
    lines: Seq<Option<Seq<char>>>,
    k: int,
    n: int,
)
    requires
        0 <= k < lines.len(),
        0 <= n <= lines.len(),
        forall|j: int| 0 <= j < lines.len() ==> (#[trigger] lines[j]) is Some,
        forall|j: int|
            0 <= j < lines.len() && j != k ==> candidates_in((#[trigger] lines[j])->0).len() == 0,
    ensures
        ({
            let report = FileReportView::opened(file_path).after_lines(lines.take(n));
            &&& !report.skipped
            &&& report.lines_read == n
            &&& report.file_path == file_path
            &&& report.matches == if n <= k {
                Seq::<CardMatchView>::empty()
            } else {
                line_matches(file_path, (k + 1) as nat, lines[k]->0)
            }
        }),
    decreases n,
{
    if n == 0 {
        assert(lines.take(0) =~= Seq::<Option<Seq<char>>>::empty());
    } else {
        lemma_matches_up_to(file_path, lines, k, n - 1);
        let before = FileReportView::opened(file_path).after_lines(lines.take(n - 1));
        assert(lines.take(n).drop_last() =~= lines.take(n - 1));
        assert(lines.take(n).last() == lines[n - 1]);
        assert(lines[n - 1] is Some);
        let text = lines[n - 1]->0;
        let after = before.after_line(text);
        assert(FileReportView::opened(file_path).after_lines(lines.take(n)) == after);
        if n - 1 != k {
            lemma_line_with_one_candidate(file_path, n as nat, text);
            assert(after.matches =~= before.matches);
        } else {
            assert(after.matches =~= line_matches(file_path, (k + 1) as nat, text));
        }
        if n == lines.len() {
            assert(lines.take(n) =~= lines);
        }
    }
}

/// A file that is read to its end, and in which one line alone holds a
/// candidate, that candidate being a card number that a rule of the brand
/// table takes, reports exactly one match: that number, with its brand, its
/// first six and last four digits and its length, on that line, counted
/// from 1, of that file.
pub proof fn lemma_report_of_one_card(
    file_path: Seq<char>,
    lines: Seq<Option<Seq<char>>>,
    k: int,
    pan: Seq<char>,
    brand: Seq<char>,
)
    requires
        0 <= k < lines.len(),
        forall|j: int| 0 <= j < lines.len() ==> (#[trigger] lines[j]) is Some,
        forall|j: int|
            0 <= j < lines.len() && j != k ==> candidates_in((#[trigger] lines[j])->0).len() == 0,
        candidates_in(lines[k]->0) == seq![pan],
        is_card_number(pan),
        brand_of(pan) == Some(brand),
    ensures
        FileReportView::opened(file_path).after_lines(lines).matches == seq![
            CardMatchView {
                brand,
                full_pan: pan,
                bin: pan.take(6),
                last_four: pan.skip(pan.len() - 4),
                length: pan.len(),
                file_path,
                line_number: (k + 1) as nat,
                line_content: lines[k]->0,
            },
        ],
        !FileReportView::opened(file_path).after_lines(lines).skipped,
{
    lemma_report_of_one_line(file_path, lines, k);
    lemma_line_with_one_candidate(file_path, (k + 1) as nat, lines[k]->0);
}

} // verus!
