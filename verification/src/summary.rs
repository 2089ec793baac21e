//! The summary of a scan: counts, brands, risk levels and the files seen.

use vstd::prelude::*;
use crate::card_match::{match_views, CardMatch, CardMatchView};
use crate::clock::local_time_text;
use crate::store::{matches_in_file, ScanResults, ScanResultsView};
use crate::text::{decimal, push_decimal, push_str, same_text, string_of, texts};

verus! {

/// How the date of a scan is written: `2024-05-06 07:08:09`.
pub const SCAN_DATE_LAYOUT: &'static str = "%Y-%m-%d %H:%M:%S";

/// How much card data a file holds.
#[derive(Clone, Copy, Debug, PartialEq, Eq, Structural)]
pub enum RiskLevel {
    /// More than ten card numbers.
    High,
    /// Four to ten card numbers.
    Medium,
    /// Up to three card numbers.
    Low,
}

/// The risk level of a file that holds `count` card numbers.
pub open spec fn risk_of(count: nat) -> RiskLevel {
    if count > 10 {
        RiskLevel::High
    } else if count > 3 {
        RiskLevel::Medium
    } else {
        RiskLevel::Low
    }
}

/// The risk level of a file that holds `count` card numbers.
pub fn risk_level(count: usize) -> (level: RiskLevel)
    ensures
        level == risk_of(count as nat),
{
    if count > 10 {
        RiskLevel::High
    } else if count > 3 {
        RiskLevel::Medium
    } else {
        RiskLevel::Low
    }
}

impl RiskLevel {
    /// The name of the level.
    pub open spec fn name_text(self) -> Seq<char> {
        match self {
            RiskLevel::High => "high"@,
            RiskLevel::Medium => "medium"@,
            RiskLevel::Low => "low"@,
        }
    }

    /// The name of the level: `high`, `medium` or `low`.
    pub fn name(&self) -> (name: &'static str)
        ensures
            name@ == self.name_text(),
    {
        match self {
            RiskLevel::High => "high",
            RiskLevel::Medium => "medium",
            RiskLevel::Low => "low",
        }
    }
}

/// The level that `name` names, if any.
pub open spec fn level_named(name: Seq<char>) -> Option<RiskLevel> {
    if name == "high"@ {
        Some(RiskLevel::High)
    } else if name == "medium"@ {
        Some(RiskLevel::Medium)
    } else if name == "low"@ {
        Some(RiskLevel::Low)
    } else {
        None
    }
}

/// Each level is the one that its name names: no two levels share a name.
pub proof fn lemma_level_names(level: RiskLevel)
    ensures
        level_named(level.name_text()) == Some(level),
{
    reveal_strlit("high");
    reveal_strlit("medium");
    reveal_strlit("low");
    assert("high"@.len() == 4 && "medium"@.len() == 6 && "low"@.len() == 3);
}

/// The files `files` whose number of matches among `matches` puts them at
/// `level`, in the order of `files`.
pub open spec fn files_at(
    files: Seq<Seq<char>>,
    matches: Seq<CardMatchView>,
    level: RiskLevel,
) -> Seq<Seq<char>>
    decreases files.len(),
{
    if files.len() == 0 {
        Seq::empty()
    } else {
        let before = files_at(files.drop_last(), matches, level);
        if risk_of(matches_in_file(matches, files.last())) == level {
            before.push(files.last())
        } else {
            before
        }
    }
}

/// The number of matches among `matches` whose brand is `brand`.
pub open spec fn matches_of_brand(matches: Seq<CardMatchView>, brand: Seq<char>) -> nat
    decreases matches.len(),
{
    if matches.len() == 0 {
        0
    } else {
        matches_of_brand(matches.drop_last(), brand) + if matches.last().brand == brand {
            1nat
        } else {
            0nat
        }
    }
}

/// For each brand that occurs among `matches`, the number of matches of that
/// brand.
pub open spec fn brand_histogram(matches: Seq<CardMatchView>) -> Map<Seq<char>, nat> {
    Map::new(
        |brand: Seq<char>| matches_of_brand(matches, brand) > 0,
        |brand: Seq<char>| matches_of_brand(matches, brand),
    )
}

/// The length of a scan as text: seconds; from a minute on, minutes and
/// seconds; from an hour on, hours, minutes and seconds.
pub open spec fn duration_text(seconds: nat) -> Seq<char> {
    if seconds < 60 {
        decimal(seconds) + "s"@
    } else if seconds < 3600 {
        decimal(seconds / 60) + "m "@ + decimal(seconds % 60) + "s"@
    } else {
        decimal(seconds / 3600) + "h "@ + decimal((seconds % 3600) / 60) + "m "@ + decimal(
            seconds % 60,
        ) + "s"@
    }
}

/// The sum of the sizes `sizes`, a size that is not known counting as zero.
pub open spec fn sum_of_sizes(sizes: Seq<Option<u64>>) -> nat
    decreases sizes.len(),
{
    if sizes.len() == 0 {
        0
    } else {
        sum_of_sizes(sizes.drop_last()) + match sizes.last() {
            Some(size) => size as nat,
            None => 0nat,
        }
    }
}

/// The total size in bytes of the files to scan, given the size of each
/// where it is known. The answer is `None` where the sum does not fit.
pub fn total_size(sizes: &Vec<Option<u64>>) -> (total: Option<u64>)
    ensures
        total == (if sum_of_sizes(sizes@) <= u64::MAX {
            Some(sum_of_sizes(sizes@) as u64)
        } else {
            None
        }),
{
    let mut total: u64 = 0;
    let mut i: usize = 0;
    while i < sizes.len()
        invariant
            i <= sizes.len(),
            total == sum_of_sizes(sizes@.take(i as int)),
        decreases sizes.len() - i,
    {
        assert(sizes@.take(i + 1).drop_last() =~= sizes@.take(i as int));
        let size = match sizes[i] {
            Some(size) => size,
            None => 0,
        };
        if size > u64::MAX - total {
            proof {
                lemma_sum_of_sizes_grows(sizes@, i + 1);
            }
            return None;
        }
        total = total + size;
        i += 1;
    }
    assert(sizes@.take(sizes.len() as int) =~= sizes@);
    Some(total)
}

/// The sum of the first `n` sizes is at most the sum of all.
proof fn lemma_sum_of_sizes_grows(sizes: Seq<Option<u64>>, n: int)
    requires
        0 <= n <= sizes.len(),
    ensures
        sum_of_sizes(sizes.take(n)) <= sum_of_sizes(sizes),
    decreases sizes.len(),
{
    if n == sizes.len() {
        assert(sizes.take(n) =~= sizes);
    } else {
        assert(sizes.drop_last().take(n) =~= sizes.take(n));
        lemma_sum_of_sizes_grows(sizes.drop_last(), n);
    }
}

/// The number of matches of one brand.
#[derive(Clone, Debug, PartialEq, Eq)]
pub struct BrandCount {
    pub brand: String,
    pub count: usize,
}

/// The count recorded for `brand` in `counts`, zero where there is none.
pub open spec fn count_of(counts: Seq<BrandCount>, brand: Seq<char>) -> nat
    decreases counts.len(),
{
    if counts.len() == 0 {
        0
    } else if counts[0].brand@ == brand {
        counts[0].count as nat
    } else {
        count_of(counts.skip(1), brand)
    }
}

/// Whether `counts` holds a count for `brand`.
pub open spec fn has_count(counts: Seq<BrandCount>, brand: Seq<char>) -> bool {
    exists|i: int| 0 <= i < counts.len() && (#[trigger] counts[i]).brand@ == brand
}

/// The counts as a map from brand to count.
pub open spec fn counts_map(counts: Seq<BrandCount>) -> Map<Seq<char>, nat> {
    Map::new(|brand: Seq<char>| has_count(counts, brand), |brand: Seq<char>| count_of(counts, brand))
}

/// The files with cards, by risk level.
#[derive(Clone, Debug, PartialEq, Eq)]
pub struct RiskBuckets {
    pub high: Vec<String>,
    pub medium: Vec<String>,
    pub low: Vec<String>,
}

/// The summary of a scan.
#[derive(Clone, Debug, PartialEq, Eq)]
pub struct ScanSummary {
    /// When the scan began.
    pub scan_date: String,
    /// How long the scan took.
    pub scan_duration: String,
    /// The number of files that were to be scanned.
    pub total_files_scanned: usize,
    /// The number of directories visited.
    pub total_directories_scanned: usize,
    /// The number of files in which a card number was found.
    pub total_files_with_cards: usize,
    /// The number of card numbers found.
    pub total_cards_found: usize,
    /// The number of files in which no card number was found.
    pub clean_files: usize,
    /// The number of card numbers of each brand found.
    pub card_type_counts: Vec<BrandCount>,
    /// The files with cards, by risk level.
    pub files_by_risk: RiskBuckets,
    /// The files given up.
    pub skipped_files: Vec<String>,
    /// The total size of the files that were to be scanned, in bytes.
    pub total_size_bytes: u64,
    /// The files that were to be scanned.
    pub all_scanned_files: Vec<String>,
}

/// A summary as contracts see it.
pub struct ScanSummaryView {
    pub scan_date: Seq<char>,
    pub scan_duration: Seq<char>,
    pub total_files_scanned: nat,
    pub total_directories_scanned: nat,
    pub total_files_with_cards: nat,
    pub total_cards_found: nat,
    pub clean_files: nat,
    pub card_type_counts: Map<Seq<char>, nat>,
    pub high_risk: Seq<Seq<char>>,
    pub medium_risk: Seq<Seq<char>>,
    pub low_risk: Seq<Seq<char>>,
    pub skipped_files: Seq<Seq<char>>,
    pub total_size_bytes: nat,
    pub all_scanned_files: Seq<Seq<char>>,
}

impl View for ScanSummary {
    type V = ScanSummaryView;

    open spec fn view(&self) -> ScanSummaryView {
        ScanSummaryView {
            scan_date: self.scan_date@,
            scan_duration: self.scan_duration@,
            total_files_scanned: self.total_files_scanned as nat,
            total_directories_scanned: self.total_directories_scanned as nat,
            total_files_with_cards: self.total_files_with_cards as nat,
            total_cards_found: self.total_cards_found as nat,
            clean_files: self.clean_files as nat,
            card_type_counts: counts_map(self.card_type_counts@),
            high_risk: texts(self.files_by_risk.high@),
            medium_risk: texts(self.files_by_risk.medium@),
            low_risk: texts(self.files_by_risk.low@),
            skipped_files: texts(self.skipped_files@),
            total_size_bytes: self.total_size_bytes as nat,
            all_scanned_files: texts(self.all_scanned_files@),
        }
    }
}

impl ScanSummaryView {
    /// The summary of a scan that began at `scan_date` and of which nothing
    /// is recorded yet.
    pub open spec fn fresh(scan_date: Seq<char>) -> ScanSummaryView {
        ScanSummaryView {
            scan_date,
            scan_duration: "0s"@,
            total_files_scanned: 0,
            total_directories_scanned: 0,
            total_files_with_cards: 0,
            total_cards_found: 0,
            clean_files: 0,
            card_type_counts: Map::empty(),
            high_risk: Seq::empty(),
            medium_risk: Seq::empty(),
            low_risk: Seq::empty(),
            skipped_files: Seq::empty(),
            total_size_bytes: 0,
            all_scanned_files: Seq::empty(),
        }
    }

    /// The count recorded for `brand`, zero where there is none.
    pub open spec fn count(self, brand: Seq<char>) -> nat {
        if self.card_type_counts.dom().contains(brand) {
            self.card_type_counts[brand]
        } else {
            0
        }
    }

    /// The files recorded at `level`.
    pub open spec fn files_at(self, level: RiskLevel) -> Seq<Seq<char>> {
        match level {
            RiskLevel::High => self.high_risk,
            RiskLevel::Medium => self.medium_risk,
            RiskLevel::Low => self.low_risk,
        }
    }

    /// The summary with `file_path` added to the files recorded at `level`.
    pub open spec fn with_file_at(self, level: RiskLevel, file_path: Seq<char>) -> ScanSummaryView {
        match level {
            RiskLevel::High => ScanSummaryView { high_risk: self.high_risk.push(file_path), ..self },
            RiskLevel::Medium => ScanSummaryView {
                medium_risk: self.medium_risk.push(file_path),
                ..self
            },
            RiskLevel::Low => ScanSummaryView { low_risk: self.low_risk.push(file_path), ..self },
        }
    }
}

/// The summary of a scan of the files `targets`, begun at `scan_date` and
/// lasting `seconds`, that visited `directories` directories, met `size`
/// bytes and left `results` in the store.
pub open spec fn summary_of(
    scan_date: Seq<char>,
    targets: Seq<Seq<char>>,
    directories: nat,
    size: nat,
    results: ScanResultsView,
    seconds: nat,
) -> ScanSummaryView {
    let with_cards = results.files_with_cards();
    ScanSummaryView {
        scan_date,
        scan_duration: duration_text(seconds),
        total_files_scanned: targets.len(),
        total_directories_scanned: directories,
        total_files_with_cards: with_cards.len(),
        total_cards_found: results.matches.len(),
        clean_files: (targets.len() - with_cards.len()) as nat,
        card_type_counts: brand_histogram(results.matches),
        high_risk: files_at(with_cards, results.matches, RiskLevel::High),
        medium_risk: files_at(with_cards, results.matches, RiskLevel::Medium),
        low_risk: files_at(with_cards, results.matches, RiskLevel::Low),
        skipped_files: results.skipped_files,
        total_size_bytes: size,
        all_scanned_files: targets,
    }
}

/// Whether entry `i` is the first of `counts` for `brand`.
pub open spec fn is_first_count(counts: Seq<BrandCount>, brand: Seq<char>, i: int) -> bool {
    &&& 0 <= i < counts.len()
    &&& counts[i].brand@ == brand
    &&& forall|j: int| 0 <= j < i ==> (#[trigger] counts[j]).brand@ != brand
}

/// The count of a brand is that of its first entry.
proof fn lemma_count_at_first(counts: Seq<BrandCount>, brand: Seq<char>, i: int)
    requires
        is_first_count(counts, brand, i),
    ensures
        count_of(counts, brand) == counts[i].count,
    decreases i,
{
    if i > 0 {
        let rest = counts.skip(1);
        assert(rest[i - 1] == counts[i]);
        assert forall|j: int| 0 <= j < i - 1 implies (#[trigger] rest[j]).brand@ != brand by {
            assert(rest[j] == counts[j + 1]);
        }
        assert(counts[0].brand@ != brand);
        lemma_count_at_first(rest, brand, i - 1);
    }
}

/// The count of a brand without an entry is zero.
proof fn lemma_count_absent(counts: Seq<BrandCount>, brand: Seq<char>)
    requires
        !has_count(counts, brand),
    ensures
        count_of(counts, brand) == 0,
    decreases counts.len(),
{
    if counts.len() > 0 {
        let rest = counts.skip(1);
        assert(counts[0].brand@ != brand);
        assert forall|j: int| 0 <= j < rest.len() implies (#[trigger] rest[j]).brand@ != brand by {
            assert(rest[j] == counts[j + 1]);
        }
        lemma_count_absent(rest, brand);
    }
}

/// A brand with an entry has a first entry.
proof fn lemma_first_count_exists(counts: Seq<BrandCount>, brand: Seq<char>, k: int) -> (i: int)
    requires
        0 <= k < counts.len(),
        counts[k].brand@ == brand,
    ensures
        is_first_count(counts, brand, i),
        i <= k,
    decreases k,
{
    if exists|j: int| 0 <= j < k && (#[trigger] counts[j]).brand@ == brand {
        let j = choose|j: int| 0 <= j < k && (#[trigger] counts[j]).brand@ == brand;
        lemma_first_count_exists(counts, brand, j)
    } else {
        k
    }
}

/// The number of matches of a brand is at most the number of matches.
proof fn lemma_matches_of_brand_bound(matches: Seq<CardMatchView>, brand: Seq<char>)
    ensures
        matches_of_brand(matches, brand) <= matches.len(),
    decreases matches.len(),
{
    if matches.len() > 0 {
        lemma_matches_of_brand_bound(matches.drop_last(), brand);
    }
}

/// The position of the first entry of `counts` for `brand`, if there is one.
fn first_count(counts: &Vec<BrandCount>, brand: &str) -> (found: Option<usize>)
    ensures
        match found {
            Some(i) => is_first_count(counts@, brand@, i as int),
            None => !has_count(counts@, brand@),
        },
{
    let mut i: usize = 0;
    while i < counts.len()
        invariant
            i <= counts.len(),
            forall|j: int| 0 <= j < i ==> (#[trigger] counts@[j]).brand@ != brand@,
        decreases counts.len() - i,
    {
        if same_text(counts[i].brand.as_str(), brand) {
            return Some(i);
        }
        i += 1;
    }
    None
}

impl ScanSummary {
    /// The summary of a scan that began at `scan_date` and of which nothing
    /// is recorded yet.
    pub fn with_date(scan_date: String) -> (summary: ScanSummary)
        ensures
            summary@ == ScanSummaryView::fresh(scan_date@),
    {
        let summary = ScanSummary {
            scan_date,
            scan_duration: "0s".to_owned(),
            total_files_scanned: 0,
            total_directories_scanned: 0,
            total_files_with_cards: 0,
            total_cards_found: 0,
            clean_files: 0,
            card_type_counts: Vec::new(),
            files_by_risk: RiskBuckets { high: Vec::new(), medium: Vec::new(), low: Vec::new() },
            skipped_files: Vec::new(),
            total_size_bytes: 0,
            all_scanned_files: Vec::new(),
        };
        assert(summary@.card_type_counts =~= Map::empty());
        assert(summary@.high_risk =~= Seq::empty());
        assert(summary@.medium_risk =~= Seq::empty());
        assert(summary@.low_risk =~= Seq::empty());
        assert(summary@.skipped_files =~= Seq::empty());
        assert(summary@.all_scanned_files =~= Seq::empty());
        summary
    }

    /// The summary of a scan that begins now and of which nothing is recorded
    /// yet. The date is read from the clock and written as year, month and
    /// day, then hour, minute and second.
    pub fn new() -> (summary: ScanSummary)
        ensures
            summary@ == ScanSummaryView::fresh(summary@.scan_date),
    {
        match local_time_text(SCAN_DATE_LAYOUT) {
            Some(date) => ScanSummary::with_date(date),
            None => ScanSummary::with_date(String::new()),
        }
    }

    /// Records how long the scan took.
    pub fn update_duration(&mut self, seconds: u64)
        ensures
            final(self)@ == (ScanSummaryView {
                scan_duration: duration_text(seconds as nat),
                ..old(self)@
            }),
    {
        let mut text: Vec<char> = Vec::new();
        if seconds < 60 {
            push_decimal(&mut text, seconds);
            push_str(&mut text, "s");
        } else if seconds < 3600 {
            push_decimal(&mut text, seconds / 60);
            push_str(&mut text, "m ");
            push_decimal(&mut text, seconds % 60);
            push_str(&mut text, "s");
        } else {
            push_decimal(&mut text, seconds / 3600);
            push_str(&mut text, "h ");
            push_decimal(&mut text, (seconds % 3600) / 60);
            push_str(&mut text, "m ");
            push_decimal(&mut text, seconds % 60);
            push_str(&mut text, "s");
        }
        assert(text@ =~= duration_text(seconds as nat));
        self.scan_duration = string_of(&text);
    }

    /// Counts one more card number of the brand `card_type`.
    pub fn increment_card_type(&mut self, card_type: &str)
        requires
            old(self)@.count(card_type@) < usize::MAX,
        ensures
            final(self)@ == (ScanSummaryView {
                card_type_counts: old(self)@.card_type_counts.insert(
                    card_type@,
                    old(self)@.count(card_type@) + 1,
                ),
                ..old(self)@
            }),
    {
        let ghost before = self.card_type_counts@;
        let ghost brand = card_type@;
        if let Some(i) = first_count(&self.card_type_counts, card_type) {
            proof {
                lemma_count_at_first(before, brand, i as int);
                assert(has_count(before, brand));
            }
            let count = self.card_type_counts[i].count + 1;
            let entry = BrandCount { brand: self.card_type_counts[i].brand.clone(), count };
            self.card_type_counts.set(i, entry);
            proof {
                let after = self.card_type_counts@;
                lemma_count_at_first(after, brand, i as int);
                assert forall|b: Seq<char>| b != brand implies has_count(after, b) == has_count(
                    before,
                    b,
                ) && count_of(after, b) == count_of(before, b) by {
                    if has_count(before, b) {
                        let k0 = choose|k: int|
                            0 <= k < before.len() && (#[trigger] before[k]).brand@ == b;
                        let k = lemma_first_count_exists(before, b, k0);
                        assert(after[k] == before[k]);
                        assert forall|j: int| 0 <= j < k implies (#[trigger] after[j]).brand@
                            != b by {
                            assert(after[j].brand@ == before[j].brand@);
                        }
                        lemma_count_at_first(before, b, k);
                        lemma_count_at_first(after, b, k);
                    } else {
                        assert forall|j: int| 0 <= j < after.len() implies (
                        #[trigger] after[j]).brand@ != b by {
                            assert(after[j].brand@ == before[j].brand@);
                        }
                        lemma_count_absent(before, b);
                        lemma_count_absent(after, b);
                    }
                }
                assert(has_count(after, brand));
                assert(counts_map(after) =~= counts_map(before).insert(
                    brand,
                    count_of(before, brand) + 1,
                ));
            }
            return ;
        }
        self.card_type_counts.push(BrandCount { brand: card_type.to_owned(), count: 1 });
        proof {
            let after = self.card_type_counts@;
            let last = before.len() as int;
            assert(!has_count(before, brand));
            lemma_count_absent(before, brand);
            lemma_count_at_first(after, brand, last);
            assert(has_count(after, brand));
            assert forall|b: Seq<char>| b != brand implies has_count(after, b) == has_count(
                before,
                b,
            ) && count_of(after, b) == count_of(before, b) by {
                if has_count(before, b) {
                    let k0 = choose|k: int|
                        0 <= k < before.len() && (#[trigger] before[k]).brand@ == b;
                    let k = lemma_first_count_exists(before, b, k0);
                    assert(after[k] == before[k]);
                    assert forall|j: int| 0 <= j < k implies (#[trigger] after[j]).brand@ != b by {
                        assert(after[j] == before[j]);
                    }
                    lemma_count_at_first(before, b, k);
                    lemma_count_at_first(after, b, k);
                } else {
                    assert forall|j: int| 0 <= j < after.len() implies (#[trigger] after[j]).brand@
                        != b by {
                        if j < last {
                            assert(after[j] == before[j]);
                        }
                    }
                    lemma_count_absent(before, b);
                    lemma_count_absent(after, b);
                }
            }
            assert(counts_map(after) =~= counts_map(before).insert(brand, 1));
        }
    }

    /// Records `file_path` among the files of the risk level that
    /// `risk_level` names. A name of no level records nothing.
    pub fn add_file_by_risk(&mut self, risk_level: &str, file_path: &str)
        ensures
            final(self)@ == (match level_named(risk_level@) {
                Some(level) => old(self)@.with_file_at(level, file_path@),
                None => old(self)@,
            }),
    {
        let path = file_path.to_owned();
        if same_text(risk_level, "high") {
            let ghost before = self.files_by_risk.high@;
            self.files_by_risk.high.push(path);
            assert(texts(self.files_by_risk.high@) =~= texts(before).push(file_path@));
        } else if same_text(risk_level, "medium") {
            let ghost before = self.files_by_risk.medium@;
            self.files_by_risk.medium.push(path);
            assert(texts(self.files_by_risk.medium@) =~= texts(before).push(file_path@));
        } else if same_text(risk_level, "low") {
            let ghost before = self.files_by_risk.low@;
            self.files_by_risk.low.push(path);
            assert(texts(self.files_by_risk.low@) =~= texts(before).push(file_path@));
        }
    }

    /// Records `file_path` among the files that were to be scanned.
    pub fn add_scanned_file(&mut self, file_path: &str)
        ensures
            final(self)@ == (ScanSummaryView {
                all_scanned_files: old(self)@.all_scanned_files.push(file_path@),
                ..old(self)@
            }),
    {
        let ghost before = self.all_scanned_files@;
        self.all_scanned_files.push(file_path.to_owned());
        assert(texts(self.all_scanned_files@) =~= texts(before).push(file_path@));
    }
}

/// The number of matches among `matches` that name the file `file_path`.
pub fn count_in_file(matches: &Vec<CardMatch>, file_path: &str) -> (count: usize)
    ensures
        count == matches_in_file(match_views(matches@), file_path@),
{
    let ghost all = match_views(matches@);
    let mut count: usize = 0;
    let mut i: usize = 0;
    while i < matches.len()
        invariant
            i <= matches.len(),
            all == match_views(matches@),
            count <= i,
            count == matches_in_file(all.take(i as int), file_path@),
        decreases matches.len() - i,
    {
        assert(all.take(i + 1).drop_last() =~= all.take(i as int));
        if same_text(matches[i].file_path.as_str(), file_path) {
            count += 1;
        }
        i += 1;
    }
    assert(all.take(matches.len() as int) =~= all);
    count
}

/// A list of strings with the same texts.
fn copy_texts(list: &Vec<String>) -> (copy: Vec<String>)
    ensures
        texts(copy@) == texts(list@),
{
    let mut copy: Vec<String> = Vec::new();
    let mut i: usize = 0;
    while i < list.len()
        invariant
            i <= list.len(),
            texts(copy@) == texts(list@).take(i as int),
        decreases list.len() - i,
    {
        let ghost before = copy@;
        copy.push(list[i].clone());
        assert(texts(copy@) =~= texts(before).push(list@[i as int]@));
        i += 1;
    }
    assert(texts(list@).take(list.len() as int) =~= texts(list@));
    copy
}

impl ScanSummary {
    /// Records what a finished scan came to: of the files `targets`, after
    /// `elapsed_seconds`, with `directories` directories visited,
    /// `total_size_bytes` bytes met and `results` in the store. Everything
    /// recorded before, but for the date, is replaced.
    pub fn record_scan(
        &mut self,
        targets: &Vec<String>,
        directories: usize,
        total_size_bytes: u64,
        results: &ScanResults,
        elapsed_seconds: u64,
    )
        requires
            results.well_formed(),
            results@.files_with_cards().len() <= targets.len(),
        ensures
            final(self)@ == summary_of(
                old(self)@.scan_date,
                texts(targets@),
                directories as nat,
                total_size_bytes as nat,
                results@,
                elapsed_seconds as nat,
            ),
    {
        let matches = results.matches();
        let files = results.files_with_cards();
        let ghost found = results@.matches;
        let ghost with_cards = results@.files_with_cards();
        let ghost goal = summary_of(
            old(self)@.scan_date,
            texts(targets@),
            directories as nat,
            total_size_bytes as nat,
            results@,
            elapsed_seconds as nat,
        );
        self.total_files_scanned = targets.len();
        self.total_directories_scanned = directories;
        self.total_size_bytes = total_size_bytes;
        self.total_cards_found = matches.len();
        self.total_files_with_cards = files.len();
        self.clean_files = targets.len() - files.len();
        self.skipped_files = copy_texts(results.skipped_files());
        self.update_duration(elapsed_seconds);
        self.all_scanned_files = Vec::new();
        self.card_type_counts = Vec::new();
        self.files_by_risk = RiskBuckets { high: Vec::new(), medium: Vec::new(), low: Vec::new() };
        let ghost base = self@;
        assert(base == (ScanSummaryView {
            all_scanned_files: Seq::empty(),
            card_type_counts: Map::empty(),
            high_risk: Seq::empty(),
            medium_risk: Seq::empty(),
            low_risk: Seq::empty(),
            ..goal
        })) by {
            assert(base.all_scanned_files =~= Seq::empty());
            assert(base.card_type_counts =~= Map::empty());
            assert(base.high_risk =~= Seq::empty());
            assert(base.medium_risk =~= Seq::empty());
            assert(base.low_risk =~= Seq::empty());
        }
        assert(texts(targets@).take(0) =~= Seq::empty());
        let mut i: usize = 0;
        while i < targets.len()
            invariant
                i <= targets.len(),
                self@ == (ScanSummaryView {
                    all_scanned_files: texts(targets@).take(i as int),
                    ..base
                }),
            decreases targets.len() - i,
        {
            self.add_scanned_file(targets[i].as_str());
            assert(texts(targets@).take(i + 1) =~= texts(targets@).take(i as int).push(
                targets@[i as int]@,
            ));
            i += 1;
        }
        assert(texts(targets@).take(targets.len() as int) =~= texts(targets@));
        let ghost base = self@;
        assert(brand_histogram(found.take(0)) =~= Map::empty());
        let mut i: usize = 0;
        while i < matches.len()
            invariant
                i <= matches.len(),
                found == match_views(matches@),
                self@ == (ScanSummaryView {
                    card_type_counts: brand_histogram(found.take(i as int)),
                    ..base
                }),
            decreases matches.len() - i,
        {
            let ghost seen = found.take(i as int);
            let ghost brand = matches@[i as int].brand@;
            proof {
                lemma_matches_of_brand_bound(seen, brand);
                assert(found.take(i + 1).drop_last() =~= seen);
                assert(found.take(i + 1).last().brand == brand);
            }
            self.increment_card_type(matches[i].brand.as_str());
            assert(brand_histogram(found.take(i + 1)) =~= brand_histogram(seen).insert(
                brand,
                matches_of_brand(seen, brand) + 1,
            ));
            i += 1;
        }
        assert(found.take(matches.len() as int) =~= found);
        let ghost base = self@;
        let mut i: usize = 0;
        while i < files.len()
            invariant
                i <= files.len(),
                found == match_views(matches@),
                with_cards == texts(files@),
                self@ == (ScanSummaryView {
                    high_risk: files_at(with_cards.take(i as int), found, RiskLevel::High),
                    medium_risk: files_at(with_cards.take(i as int), found, RiskLevel::Medium),
                    low_risk: files_at(with_cards.take(i as int), found, RiskLevel::Low),
                    ..base
                }),
            decreases files.len() - i,
        {
            let count = count_in_file(matches, files[i].as_str());
            let level = risk_level(count);
            proof {
                lemma_level_names(level);
                assert(with_cards.take(i + 1).drop_last() =~= with_cards.take(i as int));
                assert(with_cards.take(i + 1).last() == files@[i as int]@);
            }
            self.add_file_by_risk(level.name(), files[i].as_str());
            i += 1;
        }
        assert(with_cards.take(files.len() as int) =~= with_cards);
    }
}

/// Where no file was given up, every file that was to be scanned is either
/// clean or a file with cards: the three counts add up to the number of
/// files. With a file given up they add up to more: the clean files are all
/// files but those with cards, so a file given up without a match counts as
/// clean too, and one given up after a match counts as a file with cards
/// too.
pub proof fn lemma_files_partition(
    scan_date: Seq<char>,
    targets: Seq<Seq<char>>,
    directories: nat,
    size: nat,
    results: ScanResultsView,
    seconds: nat,
)
    requires
        results.files_with_cards().len() <= targets.len(),
        results.skipped_files.len() == 0,
    ensures
        ({
            let summary = summary_of(scan_date, targets, directories, size, results, seconds);
            summary.clean_files + summary.total_files_with_cards + summary.skipped_files.len()
                == summary.total_files_scanned
        }),
{
}

/// A file is recorded at a level exactly when it is among the files and
/// the number of its matches puts it at that level. So no file is recorded
/// at two levels.
pub proof fn lemma_files_at_level(
    files: Seq<Seq<char>>,
    matches: Seq<CardMatchView>,
    level: RiskLevel,
    file_path: Seq<char>,
)
    ensures
        files_at(files, matches, level).contains(file_path) <==> files.contains(file_path)
            && risk_of(matches_in_file(matches, file_path)) == level,
    decreases files.len(),
{
    if files.len() > 0 {
        let before = files.drop_last();
        let last = files.last();
        let kept = files_at(before, matches, level);
        lemma_files_at_level(before, matches, level, file_path);
        if files.contains(file_path) {
            let i = choose|i: int| 0 <= i < files.len() && files[i] == file_path;
            if i < before.len() {
                assert(before[i] == file_path);
            }
        }
        if before.contains(file_path) {
            let i = choose|i: int| 0 <= i < before.len() && before[i] == file_path;
            assert(files[i] == file_path);
        }
        assert(files[files.len() - 1] == last);
        if risk_of(matches_in_file(matches, last)) == level {
            let now = kept.push(last);
            assert(now[kept.len() as int] == last);
            if kept.contains(file_path) {
                let i = choose|i: int| 0 <= i < kept.len() && kept[i] == file_path;
                assert(now[i] == file_path);
            }
            if now.contains(file_path) {
                let i = choose|i: int| 0 <= i < now.len() && now[i] == file_path;
                if i < kept.len() {
                    assert(kept[i] == file_path);
                }
            }
        }
    }
}

/// Every file is recorded at one of the three levels.
pub proof fn lemma_levels_cover(files: Seq<Seq<char>>, matches: Seq<CardMatchView>)
    ensures
        files_at(files, matches, RiskLevel::High).len() + files_at(
            files,
            matches,
            RiskLevel::Medium,
        ).len() + files_at(files, matches, RiskLevel::Low).len() == files.len(),
    decreases files.len(),
{
    if files.len() > 0 {
        lemma_levels_cover(files.drop_last(), matches);
    }
}

} // verus!
