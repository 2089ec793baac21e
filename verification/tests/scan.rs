use luhnoxide::card_match::CardMatch;
use luhnoxide::scanner::{check_candidate, scan_line, scan_lines, FileReport};
use luhnoxide::store::{contains_text, ScanResults};
use luhnoxide::summary::ScanSummary;

fn text_lines(lines: &[&str]) -> Vec<Option<String>> {
    lines.iter().map(|l| Some(l.to_string())).collect()
}

fn sorted(matches: &[CardMatch]) -> Vec<CardMatch> {
    let mut all = matches.to_vec();
    all.sort_by(|a, b| {
        (&a.file_path, a.line_number, &a.full_pan).cmp(&(&b.file_path, b.line_number, &b.full_pan))
    });
    all
}

#[test]
fn candidate_becomes_a_match() {
    let m = check_candidate("4532015112830366", "a.txt", 3, "x 4532015112830366").unwrap();
    assert_eq!(m.brand, "Visa");
    assert_eq!(m.full_pan, "4532015112830366");
    assert_eq!(m.bin, "453201");
    assert_eq!(m.last_four, "0366");
    assert_eq!(m.length, 16);
    assert_eq!(m.file_path, "a.txt");
    assert_eq!(m.line_number, 3);
    assert_eq!(m.line_content, "x 4532015112830366");
}

#[test]
fn candidate_is_refused() {
    // Too short, too long, bad checksum, not digits only.
    assert_eq!(check_candidate("123456789012", "a", 1, ""), None);
    assert_eq!(check_candidate("00004532015112830366", "a", 1, ""), None);
    assert_eq!(check_candidate("4532015112830367", "a", 1, ""), None);
    assert_eq!(check_candidate("4532 0151 1283 0366", "a", 1, ""), None);
    assert_eq!(check_candidate("0000000000000000", "a", 1, ""), None);
}

#[test]
fn line_with_two_numbers() {
    let line = "visa 4532-0151-1283-0366 amex 378282246310005 junk 1234567890123456";
    let found = scan_line(line, "dir/f.csv", 12);
    assert_eq!(found.len(), 2);
    assert_eq!(found[0].brand, "Visa");
    assert_eq!(found[0].full_pan, "4532015112830366");
    assert_eq!(found[1].brand, "American Express");
    assert_eq!(found[1].full_pan, "378282246310005");
    for m in &found {
        assert_eq!(m.file_path, "dir/f.csv");
        assert_eq!(m.line_number, 12);
        assert_eq!(m.line_content, line);
        assert_eq!(m.length, m.full_pan.len());
        assert_eq!(m.bin, &m.full_pan[..6]);
        assert_eq!(m.last_four, &m.full_pan[m.full_pan.len() - 4..]);
    }
}

#[test]
fn line_with_the_same_number_twice_one_character_apart() {
    for line in [
        "4532015112830366,4532015112830366",
        "4532015112830366;4532015112830366",
        "4532015112830366\t4532015112830366",
    ] {
        let found = scan_line(line, "f", 1);
        assert_eq!(found.len(), 2);
        for m in &found {
            assert_eq!(m.full_pan, "4532015112830366");
            assert_eq!(m.brand, "Visa");
            assert_eq!(m.line_number, 1);
            assert_eq!(m.file_path, "f");
            assert_eq!(m.line_content, line);
        }
    }
}

#[test]
fn lines_are_numbered_from_one() {
    let report = scan_lines(
        "notes.txt",
        &text_lines(&["4532015112830366", "", "nothing", "5555555555554444, 6011111111111117"]),
    );
    assert!(!report.skipped);
    assert_eq!(report.file_path, "notes.txt");
    assert_eq!(report.lines_read, 4);
    let places: Vec<(usize, &str)> =
        report.matches.iter().map(|m| (m.line_number, m.brand.as_str())).collect();
    assert_eq!(places, vec![(1, "Visa"), (4, "Mastercard"), (4, "Discover")]);
    assert!(report.has_cards());
}

#[test]
fn undecodable_line_ends_the_scan_and_keeps_what_was_found() {
    let lines = vec![
        Some("4532015112830366".to_string()),
        Some("plain".to_string()),
        None,
        Some("5555555555554444".to_string()),
        None,
    ];
    let report = scan_lines("blob.bin", &lines);
    assert!(report.skipped);
    assert_eq!(report.lines_read, 2);
    assert_eq!(report.matches.len(), 1);
    assert_eq!(report.matches[0].full_pan, "4532015112830366");
    assert_eq!(report.matches[0].line_number, 1);
}

#[test]
fn report_grows_line_by_line() {
    let mut report = FileReport::new("log.txt");
    assert!(!report.skipped);
    assert!(!report.has_cards());
    assert_eq!(report.lines_read, 0);
    report.add_line("nothing");
    report.add_line("4532015112830366");
    assert_eq!(report.lines_read, 2);
    assert_eq!(report.matches.len(), 1);
    assert_eq!(report.matches[0].line_number, 2);
    report.stop_undecodable();
    assert!(report.skipped);
    report.add_line("5555555555554444");
    assert_eq!(report.lines_read, 2);
    assert_eq!(report.matches.len(), 1);
    let batch = scan_lines(
        "log.txt",
        &vec![
            Some("nothing".to_string()),
            Some("4532015112830366".to_string()),
            None,
            Some("5555555555554444".to_string()),
        ],
    );
    assert_eq!(batch.matches, report.matches);
    assert_eq!(batch.skipped, report.skipped);
    assert_eq!(batch.lines_read, report.lines_read);
}

#[test]
fn file_that_cannot_be_opened_is_given_up() {
    let report = FileReport::unreadable("secret.key");
    assert!(report.skipped);
    assert!(report.matches.is_empty());
    assert_eq!(report.file_path, "secret.key");
    assert_eq!(report.lines_read, 0);
}

#[test]
fn store_collects_reports() {
    let mut store = ScanResults::new();
    assert!(store.matches().is_empty());
    assert!(store.files_with_cards().is_empty());
    assert!(store.skipped_files().is_empty());
    store.absorb(scan_lines("a.txt", &text_lines(&["4532015112830366", "5555555555554444"])));
    store.absorb(scan_lines("b.txt", &text_lines(&["no card"])));
    store.absorb(FileReport::unreadable("c.txt"));
    store.absorb(scan_lines("d.txt", &vec![Some("378282246310005".to_string()), None]));
    store.absorb(scan_lines("a.txt", &text_lines(&["6011111111111117"])));
    assert_eq!(store.matches().len(), 4);
    assert_eq!(store.files_with_cards(), &vec!["a.txt".to_string(), "d.txt".to_string()]);
    assert_eq!(store.skipped_files(), &vec!["c.txt".to_string(), "d.txt".to_string()]);
    assert!(contains_text(store.files_with_cards(), "d.txt"));
    assert!(!contains_text(store.files_with_cards(), "b.txt"));
}

#[test]
fn store_takes_single_matches_and_skips() {
    let mut store = ScanResults::new();
    store.add_match(CardMatch::new("Visa", "4532015112830366", "x", 1, "").unwrap());
    store.add_match(CardMatch::new("Visa", "4111111111111111", "x", 2, "").unwrap());
    store.add_match(CardMatch::new("Visa", "4012888888881881", "y", 1, "").unwrap());
    store.add_skipped("z");
    assert_eq!(store.matches().len(), 3);
    assert_eq!(store.files_with_cards(), &vec!["x".to_string(), "y".to_string()]);
    assert_eq!(store.skipped_files(), &vec!["z".to_string()]);
}

#[test]
fn single_match_files_in_any_arrival_order() {
    let n = 7;
    let paths: Vec<String> = (0..n).map(|i| format!("files/{}.txt", i)).collect();
    let orders: Vec<Vec<usize>> = vec![
        (0..n).collect(),
        (0..n).rev().collect(),
        vec![3, 0, 6, 1, 5, 2, 4],
        vec![1, 3, 5, 0, 2, 4, 6],
        vec![6, 0, 5, 1, 4, 2, 3],
    ];
    for _ in 0..3 {
        for order in &orders {
            let mut store = ScanResults::new();
            for &i in order {
                store.absorb(scan_lines(&paths[i], &text_lines(&["pan 4532015112830366"])));
            }
            assert_eq!(store.matches().len(), n);
            assert_eq!(store.files_with_cards().len(), n);
            let mut summary = ScanSummary::with_date("now".to_string());
            summary.record_scan(&paths, 0, 0, &store, 0);
            assert_eq!(summary.total_cards_found, n);
            assert_eq!(summary.total_files_with_cards, n);
        }
    }
}

#[test]
fn rescan_gives_the_same_matches() {
    let files: Vec<(&str, Vec<Option<String>>)> = vec![
        ("a.txt", text_lines(&["4532015112830366", "x", "5555-5555-5555-4444 and 378282246310005"])),
        ("b.txt", text_lines(&[])),
        ("c.txt", vec![Some("6011111111111117".to_string()), None, Some("4111111111111111".to_string())]),
        ("d.txt", text_lines(&["30569309025904", "30569309025904"])),
    ];
    let mut first = ScanResults::new();
    for (path, lines) in &files {
        first.absorb(scan_lines(path, lines));
    }
    let mut second = ScanResults::new();
    for (path, lines) in files.iter().rev() {
        second.absorb(scan_lines(path, lines));
    }
    assert_eq!(first.matches().len(), 6);
    assert_eq!(sorted(first.matches()), sorted(second.matches()));
    let mut with_cards_first = first.files_with_cards().clone();
    let mut with_cards_second = second.files_with_cards().clone();
    with_cards_first.sort();
    with_cards_second.sort();
    assert_eq!(with_cards_first, with_cards_second);
    let mut skipped_first = first.skipped_files().clone();
    let mut skipped_second = second.skipped_files().clone();
    skipped_first.sort();
    skipped_second.sort();
    assert_eq!(skipped_first, skipped_second);
}

#[test]
fn tree_with_a_card_an_empty_file_and_an_unreadable_file() {
    let targets =
        vec!["tree/cards.txt".to_string(), "tree/empty.txt".to_string(), "tree/locked.txt".to_string()];
    let mut store = ScanResults::new();
    store.absorb(scan_lines(
        "tree/cards.txt",
        &text_lines(&["one", "two", "three", "four", "card 4532015112830366", "six"]),
    ));
    store.absorb(scan_lines("tree/empty.txt", &Vec::new()));
    store.absorb(FileReport::unreadable("tree/locked.txt"));
    assert_eq!(store.matches().len(), 1);
    assert_eq!(store.matches()[0].line_number, 5);
    assert_eq!(store.matches()[0].brand, "Visa");
    let mut summary = ScanSummary::with_date("2024-01-01 00:00:00".to_string());
    summary.record_scan(&targets, 1, 64, &store, 2);
    assert_eq!(summary.total_files_scanned, 3);
    assert_eq!(summary.total_cards_found, 1);
    assert_eq!(summary.total_files_with_cards, 1);
    assert_eq!(summary.skipped_files, vec!["tree/locked.txt".to_string()]);
    // Clean files are all files but those with cards, the one given up among them.
    assert_eq!(summary.clean_files, 2);
    assert_eq!(summary.files_by_risk.low, vec!["tree/cards.txt".to_string()]);
    assert!(summary.files_by_risk.medium.is_empty());
    assert!(summary.files_by_risk.high.is_empty());
}
