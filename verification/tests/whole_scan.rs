use luhnoxide::card_match::CardMatch;
use luhnoxide::scan::{scan, scan_file, FileContent, SourceFile};

fn text_file(path: &str, lines: &[&str]) -> SourceFile {
    SourceFile {
        path: path.to_string(),
        content: FileContent::Lines(lines.iter().map(|l| Some(l.to_string())).collect()),
    }
}

fn locked_file(path: &str) -> SourceFile {
    SourceFile { path: path.to_string(), content: FileContent::Unreadable }
}

fn in_order(matches: &[CardMatch]) -> Vec<CardMatch> {
    let mut all = matches.to_vec();
    all.sort_by(|a, b| {
        (&a.file_path, a.line_number, &a.full_pan).cmp(&(&b.file_path, b.line_number, &b.full_pan))
    });
    all
}

fn sorted_texts(texts: &[String]) -> Vec<String> {
    let mut all = texts.to_vec();
    all.sort();
    all
}

#[test]
fn scan_of_a_card_file_an_empty_file_and_a_locked_file() {
    let files = vec![
        text_file("tree/cards.txt", &["a", "b", "c", "d", "4532015112830366", "f"]),
        text_file("tree/empty.txt", &[]),
        locked_file("tree/locked.txt"),
    ];
    let (results, summary) = scan(&files, "2024-01-01 12:00:00".to_string(), 1, 17, 0);
    assert_eq!(results.matches().len(), 1);
    let found = &results.matches()[0];
    assert_eq!(found.brand, "Visa");
    assert_eq!(found.full_pan, "4532015112830366");
    assert_eq!(found.file_path, "tree/cards.txt");
    assert_eq!(found.line_number, 5);
    assert_eq!(found.line_content, "4532015112830366");
    assert_eq!(summary.total_cards_found, 1);
    assert_eq!(summary.total_files_with_cards, 1);
    assert_eq!(summary.skipped_files.len(), 1);
    assert_eq!(summary.skipped_files, vec!["tree/locked.txt".to_string()]);
    assert_eq!(summary.total_files_scanned, 3);
    // Every file without a card counts as clean, the locked one too.
    assert_eq!(summary.clean_files, 2);
    assert_eq!(summary.total_directories_scanned, 1);
    assert_eq!(summary.total_size_bytes, 17);
    assert_eq!(summary.scan_date, "2024-01-01 12:00:00");
    assert_eq!(summary.scan_duration, "0s");
    assert_eq!(
        summary.all_scanned_files,
        vec!["tree/cards.txt".to_string(), "tree/empty.txt".to_string(), "tree/locked.txt".to_string()]
    );
    assert_eq!(summary.card_type_counts.len(), 1);
    assert_eq!(summary.card_type_counts[0].brand, "Visa");
    assert_eq!(summary.card_type_counts[0].count, 1);
    assert_eq!(summary.files_by_risk.low, vec!["tree/cards.txt".to_string()]);
}

#[test]
fn scan_of_single_match_files_in_any_order() {
    let n = 9;
    let files: Vec<SourceFile> = (0..n)
        .map(|i| text_file(&format!("batch/{}.log", i), &["", "id 7 card 4532-0151-1283-0366"]))
        .collect();
    let mut rotated = files.clone();
    for turn in 0..n {
        rotated.rotate_left(1);
        let mut reversed = rotated.clone();
        reversed.reverse();
        for order in [&rotated, &reversed] {
            let (results, summary) = scan(order, String::new(), 0, 0, turn as u64);
            assert_eq!(results.matches().len(), n);
            assert_eq!(results.files_with_cards().len(), n);
            assert_eq!(summary.total_cards_found, n);
            assert_eq!(summary.total_files_with_cards, n);
            assert_eq!(summary.clean_files, 0);
        }
    }
}

#[test]
fn scan_twice_finds_the_same() {
    let files = vec![
        text_file("a", &["4532015112830366", "5555555555554444 - 378282246310005"]),
        locked_file("b"),
        text_file("c", &["nothing"]),
        SourceFile {
            path: "d".to_string(),
            content: FileContent::Lines(vec![
                Some("6011111111111117".to_string()),
                None,
                Some("4111111111111111".to_string()),
            ]),
        },
        text_file("e", &["30569309025904", "30569309025904"]),
    ];
    let (first, first_summary) = scan(&files, "t".to_string(), 0, 0, 0);
    let (again, again_summary) = scan(&files, "t".to_string(), 0, 0, 0);
    assert_eq!(first.matches(), again.matches());
    assert_eq!(first_summary, again_summary);
    let mut shuffled = files.clone();
    shuffled.swap(0, 4);
    shuffled.swap(1, 3);
    let (other, other_summary) = scan(&shuffled, "t".to_string(), 0, 0, 0);
    assert_eq!(first.matches().len(), 6);
    assert_eq!(in_order(first.matches()), in_order(other.matches()));
    assert_eq!(sorted_texts(first.files_with_cards()), sorted_texts(other.files_with_cards()));
    assert_eq!(sorted_texts(first.skipped_files()), sorted_texts(other.skipped_files()));
    assert_eq!(first_summary.total_cards_found, other_summary.total_cards_found);
    assert_eq!(first_summary.total_files_with_cards, other_summary.total_files_with_cards);
    assert_eq!(first_summary.clean_files, other_summary.clean_files);
}

#[test]
fn scan_without_skipped_files_adds_up() {
    let files = vec![
        text_file("1", &["4532015112830366"]),
        text_file("2", &[]),
        text_file("3", &["4111111111111111", "x", "4012888888881881"]),
        text_file("4", &["no card", "12345"]),
    ];
    let (_, summary) = scan(&files, String::new(), 3, 99, 61);
    assert!(summary.skipped_files.is_empty());
    assert_eq!(summary.total_files_with_cards, 2);
    assert_eq!(summary.clean_files, 2);
    assert_eq!(
        summary.clean_files + summary.total_files_with_cards + summary.skipped_files.len(),
        summary.total_files_scanned
    );
}

#[test]
fn scan_of_a_line_with_two_numbers_one_character_apart() {
    let files = vec![text_file("f", &["4532015112830366,4532015112830366"])];
    let (results, summary) = scan(&files, String::new(), 0, 0, 0);
    assert_eq!(results.matches().len(), 2);
    for m in results.matches() {
        assert_eq!(m.full_pan, "4532015112830366");
        assert_eq!(m.line_number, 1);
    }
    assert_eq!(results.files_with_cards(), &vec!["f".to_string()]);
    assert!(results.skipped_files().is_empty());
    assert_eq!(summary.total_cards_found, 2);
    assert_eq!(summary.total_files_with_cards, 1);
}

#[test]
fn scan_of_nothing() {
    let (results, summary) = scan(&Vec::new(), "d".to_string(), 0, 0, 0);
    assert!(results.matches().is_empty());
    assert!(results.files_with_cards().is_empty());
    assert!(results.skipped_files().is_empty());
    assert_eq!(summary.total_files_scanned, 0);
    assert_eq!(summary.clean_files, 0);
    assert_eq!(summary.total_cards_found, 0);
}

#[test]
fn file_with_a_card_before_an_undecodable_line_counts_twice() {
    let files = vec![SourceFile {
        path: "mixed.bin".to_string(),
        content: FileContent::Lines(vec![Some("4532015112830366".to_string()), None]),
    }];
    let (results, summary) = scan(&files, String::new(), 0, 0, 0);
    assert_eq!(results.matches().len(), 1);
    assert_eq!(summary.total_files_with_cards, 1);
    assert_eq!(summary.skipped_files, vec!["mixed.bin".to_string()]);
    assert_eq!(summary.clean_files, 0);
}

#[test]
fn one_file_at_a_time() {
    let report = scan_file(&text_file("one.txt", &["x", "4532015112830366"]));
    assert_eq!(report.file_path, "one.txt");
    assert!(!report.skipped);
    assert_eq!(report.lines_read, 2);
    assert_eq!(report.matches.len(), 1);
    let locked = scan_file(&locked_file("two.txt"));
    assert_eq!(locked.file_path, "two.txt");
    assert!(locked.skipped);
    assert!(locked.matches.is_empty());
}
