use luhnoxide::brand::{card_brands, identify_card_brand, select_brand};

#[test]
fn brands_of_well_known_numbers() {
    assert_eq!(identify_card_brand("4532015112830366"), Some("Visa"));
    assert_eq!(identify_card_brand("4222222222222"), Some("Visa"));
    assert_eq!(identify_card_brand("4532015112830366120"), Some("Visa"));
    assert_eq!(identify_card_brand("5555555555554444"), Some("Mastercard"));
    assert_eq!(identify_card_brand("2221000000000009"), Some("Mastercard"));
    assert_eq!(identify_card_brand("378282246310005"), Some("American Express"));
    assert_eq!(identify_card_brand("371449635398431"), Some("American Express"));
    assert_eq!(identify_card_brand("6011111111111117"), Some("Discover"));
    assert_eq!(identify_card_brand("6500000000000002"), Some("Discover"));
    assert_eq!(identify_card_brand("6440000000000005"), Some("Discover"));
    assert_eq!(identify_card_brand("3530111333300000"), Some("JCB"));
    assert_eq!(identify_card_brand("30569309025904"), Some("Diners Club"));
    assert_eq!(identify_card_brand("38520000023237"), Some("Diners Club"));
    assert_eq!(identify_card_brand("6200000000000005"), Some("UnionPay"));
}

#[test]
fn catch_all_takes_what_no_brand_takes() {
    assert_eq!(identify_card_brand("1234567890128"), Some("Unknown"));
    assert_eq!(identify_card_brand("99999999999993"), Some("Unknown"));
    // A Visa prefix with a length that Visa does not issue.
    assert_eq!(identify_card_brand("453201511283034"), Some("Unknown"));
    // A Mastercard prefix with a length that Mastercard does not issue.
    assert_eq!(identify_card_brand("55555555555544"), Some("Unknown"));
}

#[test]
fn sixteen_digits_starting_with_four_are_visa() {
    for number in [
        "4000000000000000",
        "4111111111111111",
        "4012888888881881",
        "4999999999999999",
        "4532015112830366",
    ] {
        assert_eq!(identify_card_brand(number), Some("Visa"));
        assert_ne!(identify_card_brand(number), Some("Unknown"));
    }
}

#[test]
fn same_number_same_brand_in_any_call_order() {
    let numbers = ["4532015112830366", "378282246310005", "1234567890128", "6200000000000005"];
    let first: Vec<Option<&str>> = numbers.iter().map(|n| identify_card_brand(n)).collect();
    let mut backwards: Vec<Option<&str>> =
        numbers.iter().rev().map(|n| identify_card_brand(n)).collect();
    backwards.reverse();
    assert_eq!(first, backwards);
    for _ in 0..3 {
        assert_eq!(identify_card_brand("4532015112830366"), Some("Visa"));
        assert_eq!(identify_card_brand("378282246310005"), Some("American Express"));
    }
}

#[test]
fn separators_are_ignored() {
    assert_eq!(identify_card_brand("4532-0151-1283-0366"), Some("Visa"));
    assert_eq!(identify_card_brand("4532 0151 1283 0366"), Some("Visa"));
    assert_eq!(identify_card_brand("3782 822463 10005"), Some("American Express"));
}

#[test]
fn no_brand_outside_the_lengths() {
    assert_eq!(identify_card_brand(""), None);
    assert_eq!(identify_card_brand("4111"), None);
    assert_eq!(identify_card_brand("411111111111"), None);
    assert_eq!(identify_card_brand("41111111111111111111"), None);
    assert_eq!(identify_card_brand("not a number"), None);
    assert_eq!(identify_card_brand("x4532015112830366"), None);
}

#[test]
fn table_ends_with_the_catch_all() {
    let rules = card_brands();
    assert_eq!(rules.len(), 8);
    let names: Vec<&str> = rules.iter().map(|r| r.name).collect();
    assert_eq!(
        names,
        vec![
            "Visa",
            "Mastercard",
            "American Express",
            "Discover",
            "JCB",
            "Diners Club",
            "UnionPay",
            "Unknown"
        ]
    );
    let last = &rules[rules.len() - 1];
    assert_eq!(last.pattern, "^\\d+");
    assert_eq!(last.lengths, vec![13, 14, 15, 16, 17, 18, 19]);
    for rule in &rules[..rules.len() - 1] {
        assert_ne!(rule.name, "Unknown");
    }
}

#[test]
fn first_rule_that_takes_the_number_wins() {
    let all = vec![Some(true); 8];
    assert_eq!(select_brand(&all, 16), Some("Visa"));
    assert_eq!(select_brand(&all, 13), Some("Visa"));
    assert_eq!(select_brand(&all, 15), Some("American Express"));
    assert_eq!(select_brand(&all, 14), Some("Diners Club"));
    assert_eq!(select_brand(&all, 17), Some("Unknown"));
    assert_eq!(select_brand(&all, 18), Some("Unknown"));
    assert_eq!(select_brand(&all, 12), None);
    assert_eq!(select_brand(&all, 20), None);
    let only_last =
        vec![Some(false), Some(false), None, Some(false), None, Some(false), Some(false), Some(true)];
    assert_eq!(select_brand(&only_last, 16), Some("Unknown"));
    let jcb_and_last =
        vec![Some(false), Some(false), Some(false), Some(false), Some(true), Some(false), None, Some(true)];
    assert_eq!(select_brand(&jcb_and_last, 16), Some("JCB"));
    assert_eq!(select_brand(&jcb_and_last, 15), Some("Unknown"));
}

#[test]
fn missing_or_failed_outcomes_take_nothing() {
    assert_eq!(select_brand(&Vec::new(), 16), None);
    assert_eq!(select_brand(&vec![None; 8], 16), None);
    assert_eq!(select_brand(&vec![Some(false); 8], 16), None);
    assert_eq!(select_brand(&vec![Some(true)], 16), Some("Visa"));
    assert_eq!(select_brand(&vec![Some(true)], 15), None);
}
