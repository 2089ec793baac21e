use luhnoxide::extract::{candidates_from_runs, extract_candidates, find_runs};

fn strings(items: &[&str]) -> Vec<String> {
    items.iter().map(|s| s.to_string()).collect()
}

#[test]
fn bare_number_is_a_candidate() {
    assert_eq!(extract_candidates("4532015112830366"), strings(&["4532015112830366"]));
}

#[test]
fn separators_are_stripped() {
    assert_eq!(extract_candidates("4532-0151-1283-0366"), strings(&["4532015112830366"]));
    assert_eq!(extract_candidates("4532 0151 1283 0366"), strings(&["4532015112830366"]));
    assert_eq!(extract_candidates("pan=4532 0151-1283 0366;"), strings(&["4532015112830366"]));
}

#[test]
fn every_candidate_of_a_line_is_found_in_order() {
    assert_eq!(
        extract_candidates("first 4532015112830366 then 5555-5555-5555-4444 and 378282246310005 last"),
        strings(&["4532015112830366", "5555555555554444", "378282246310005"])
    );
}

#[test]
fn run_must_not_touch_a_digit() {
    assert_eq!(extract_candidates("12345678901234567890123"), Vec::<String>::new());
    assert_eq!(extract_candidates("x4532015112830366y"), strings(&["4532015112830366"]));
    assert_eq!(extract_candidates("(4532015112830366)"), strings(&["4532015112830366"]));
}

#[test]
fn run_length_bounds() {
    // Eleven characters are too few, twelve are enough.
    assert_eq!(extract_candidates("12345678901"), Vec::<String>::new());
    assert_eq!(extract_candidates("123456789012"), strings(&["123456789012"]));
    // Nineteen characters are taken whole, twenty digits are not.
    assert_eq!(extract_candidates("1234567890123456789"), strings(&["1234567890123456789"]));
    assert_eq!(extract_candidates("12345678901234567890"), Vec::<String>::new());
}

#[test]
fn lines_without_digits_have_no_candidate() {
    assert_eq!(extract_candidates(""), Vec::<String>::new());
    assert_eq!(extract_candidates("no numbers here"), Vec::<String>::new());
    assert_eq!(extract_candidates("- - - - - - - - - -"), Vec::<String>::new());
}

#[test]
fn runs_one_character_apart_are_both_found() {
    let twice = strings(&["4532015112830366", "4532015112830366"]);
    assert_eq!(extract_candidates("4532015112830366,4532015112830366"), twice);
    assert_eq!(extract_candidates("4532015112830366;4532015112830366"), twice);
    assert_eq!(extract_candidates("4532015112830366\t4532015112830366"), twice);
    assert_eq!(extract_candidates("4532-0151-1283-0366|4532 0151 1283 0366"), twice);
    assert_eq!(
        extract_candidates("4532015112830366,5555555555554444;378282246310005\t6011111111111117"),
        strings(&["4532015112830366", "5555555555554444", "378282246310005", "6011111111111117"])
    );
    assert_eq!(
        extract_candidates("123456789012,4532015112830366"),
        strings(&["123456789012", "4532015112830366"])
    );
}

#[test]
fn separators_stand_alone_between_digits() {
    // Two separators in a row end a run.
    assert_eq!(extract_candidates("45320151--12830366"), Vec::<String>::new());
    assert_eq!(extract_candidates("4532--0151--1283--0366"), Vec::<String>::new());
    assert_eq!(extract_candidates("4532 -0151 -1283 -0366"), Vec::<String>::new());
    assert_eq!(extract_candidates("12--4222222222222"), strings(&["4222222222222"]));
    assert_eq!(extract_candidates("4222222222222--12"), strings(&["4222222222222"]));
    // A separator at either end is no part of the run.
    assert_eq!(extract_candidates("-4532015112830366-"), strings(&["4532015112830366"]));
    assert_eq!(extract_candidates(" 4532 0151 1283 0366 "), strings(&["4532015112830366"]));
}

#[test]
fn runs_are_taken_whole() {
    // Digits joined by single separators are one run, however long.
    assert_eq!(extract_candidates("1234 5678 9012 3456 7890"), Vec::<String>::new());
    assert_eq!(extract_candidates("4532015112830366 123"), Vec::<String>::new());
    assert_eq!(extract_candidates("4532015112830366-5555555555554444"), Vec::<String>::new());
    assert_eq!(extract_candidates("1 2 3 4 5 6 7 8 9 0"), strings(&["1234567890"]));
    assert_eq!(extract_candidates("4532015112830366  123"), strings(&["4532015112830366"]));
}

#[test]
fn runs_in_order_with_their_separators() {
    assert_eq!(
        find_runs("a 12-34, 4532 0151 1283 0366;7--8"),
        strings(&["12-34", "4532 0151 1283 0366", "7", "8"])
    );
    assert_eq!(find_runs(""), Vec::<String>::new());
    assert_eq!(find_runs("- -"), Vec::<String>::new());
    assert_eq!(find_runs("٤٥٣٢ 12"), strings(&["12"]));
}

#[test]
fn runs_become_candidates_by_their_length() {
    let runs = strings(&[
        "4532-0151-1283-0366",
        "12345678901",
        "123456789012",
        "3782 822463 10005",
        "",
        "1234567890123456789",
        "12345678901234567890",
        "1 2 3 4 5 6",
        "1 2 3 4 5 6 7 8 9 0",
    ]);
    assert_eq!(
        candidates_from_runs(&runs),
        strings(&[
            "4532015112830366",
            "123456789012",
            "378282246310005",
            "1234567890123456789",
            "1234567890"
        ])
    );
    assert_eq!(candidates_from_runs(&Vec::new()), Vec::<String>::new());
}
