//! The card brands and the ordered rules that tell them apart.

use vstd::prelude::*;
use crate::luhn::{all_digits, lemma_digits_hold_no_separator};
use crate::pattern::{pattern_is_match, regex_accepts, regex_is_match};
use crate::text::{chars_of, string_of, strip_separators, without_separators};

verus! {

/// One rule of the table: a brand name, a prefix pattern and the lengths
/// that the brand issues.
pub struct CardBrand {
    pub name: &'static str,
    pub pattern: &'static str,
    pub lengths: Vec<usize>,
}

/// A rule as contracts see it.
pub struct CardBrandView {
    pub name: Seq<char>,
    pub pattern: Seq<char>,
    pub lengths: Seq<usize>,
}

impl View for CardBrand {
    type V = CardBrandView;

    open spec fn view(&self) -> CardBrandView {
        CardBrandView { name: self.name@, pattern: self.pattern@, lengths: self.lengths@ }
    }
}

/// The rules in the order in which they are tried. The rule that takes any
/// digit string comes last: before another rule it would keep that rule from
/// ever being reached.
pub open spec fn rule_table() -> Seq<CardBrandView> {
    seq![
        CardBrandView { name: "Visa"@, pattern: "^4\\d+"@, lengths: seq![13usize, 16, 19] },
        CardBrandView {
            name: "Mastercard"@,
            pattern: "^5[1-5]\\d+|^2[2-7]\\d+"@,
            lengths: seq![16usize],
        },
        CardBrandView { name: "American Express"@, pattern: "^3[47]\\d+"@, lengths: seq![15usize] },
        CardBrandView {
            name: "Discover"@,
            pattern: "^6(?:011|5\\d{2}|4[4-9]\\d)\\d+"@,
            lengths: seq![16usize, 19],
        },
        CardBrandView { name: "JCB"@, pattern: "^35\\d+"@, lengths: seq![16usize, 19] },
        CardBrandView {
            name: "Diners Club"@,
            pattern: "^3(?:0[0-5]|[68]\\d)\\d+"@,
            lengths: seq![14usize, 16, 19],
        },
        CardBrandView { name: "UnionPay"@, pattern: "^62\\d+"@, lengths: seq![16usize, 19] },
        CardBrandView {
            name: "Unknown"@,
            pattern: "^\\d+"@,
            lengths: seq![13usize, 14, 15, 16, 17, 18, 19],
        },
    ]
}

/// The rule table.
pub fn card_brands() -> (rules: Vec<CardBrand>)
    ensures
        rules@.map_values(|r: CardBrand| r@) == rule_table(),
{
    let visa: Vec<usize> = vec![13, 16, 19];
    let mastercard: Vec<usize> = vec![16];
    let amex: Vec<usize> = vec![15];
    let discover: Vec<usize> = vec![16, 19];
    let jcb: Vec<usize> = vec![16, 19];
    let diners: Vec<usize> = vec![14, 16, 19];
    let union_pay: Vec<usize> = vec![16, 19];
    let any: Vec<usize> = vec![13, 14, 15, 16, 17, 18, 19];
    assert(visa@ =~= seq![13usize, 16, 19]);
    assert(mastercard@ =~= seq![16usize]);
    assert(amex@ =~= seq![15usize]);
    assert(discover@ =~= seq![16usize, 19]);
    assert(jcb@ =~= seq![16usize, 19]);
    assert(diners@ =~= seq![14usize, 16, 19]);
    assert(union_pay@ =~= seq![16usize, 19]);
    assert(any@ =~= seq![13usize, 14, 15, 16, 17, 18, 19]);
    let rules = vec![
        CardBrand { name: "Visa", pattern: "^4\\d+", lengths: visa },
        CardBrand { name: "Mastercard", pattern: "^5[1-5]\\d+|^2[2-7]\\d+", lengths: mastercard },
        CardBrand { name: "American Express", pattern: "^3[47]\\d+", lengths: amex },
        CardBrand {
            name: "Discover",
            pattern: "^6(?:011|5\\d{2}|4[4-9]\\d)\\d+",
            lengths: discover,
        },
        CardBrand { name: "JCB", pattern: "^35\\d+", lengths: jcb },
        CardBrand { name: "Diners Club", pattern: "^3(?:0[0-5]|[68]\\d)\\d+", lengths: diners },
        CardBrand { name: "UnionPay", pattern: "^62\\d+", lengths: union_pay },
        CardBrand { name: "Unknown", pattern: "^\\d+", lengths: any },
    ];
    assert(rules@.map_values(|r: CardBrand| r@) =~= rule_table());
    rules
}

/// Whether `length` is among `lengths`.
pub open spec fn issues_length(lengths: Seq<usize>, length: nat) -> bool {
    exists|k: int| 0 <= k < lengths.len() && #[trigger] lengths[k] == length
}

/// Whether a rule takes a number of `length` digits for which the search for
/// the rule's pattern came to `found`: the pattern must have been accepted and
/// found, and the length must be one that the brand issues.
pub open spec fn rule_takes(rule: CardBrandView, found: Option<bool>, length: nat) -> bool {
    found == Some(true) && issues_length(rule.lengths, length)
}

/// The outcome recorded for rule `i`; a rule without a recorded outcome counts
/// as one whose pattern was not accepted.
pub open spec fn outcome_at(outcomes: Seq<Option<bool>>, i: int) -> Option<bool> {
    if 0 <= i < outcomes.len() {
        outcomes[i]
    } else {
        None
    }
}

/// The position of the first rule, from `from` on, that takes the number.
pub open spec fn first_taking(
    rules: Seq<CardBrandView>,
    outcomes: Seq<Option<bool>>,
    length: nat,
    from: int,
) -> Option<int>
    decreases rules.len() - from,
{
    if from < 0 || from >= rules.len() {
        None
    } else if rule_takes(rules[from], outcome_at(outcomes, from), length) {
        Some(from)
    } else {
        first_taking(rules, outcomes, length, from + 1)
    }
}

/// The brand chosen for a number of `length` digits, given the outcome of the
/// search for each rule's pattern: the name of the first rule that takes it.
pub open spec fn selected_brand(outcomes: Seq<Option<bool>>, length: nat) -> Option<Seq<char>> {
    match first_taking(rule_table(), outcomes, length, 0) {
        Some(i) => Some(rule_table()[i].name),
        None => None,
    }
}

/// The outcome of the search for each rule's pattern in `digits`.
pub open spec fn pattern_outcomes(digits: Seq<char>) -> Seq<Option<bool>> {
    Seq::new(
        rule_table().len(),
        |i: int|
            if regex_accepts(rule_table()[i].pattern) {
                Some(regex_is_match(rule_table()[i].pattern, digits))
            } else {
                None
            },
    )
}

/// The brand of a card number: separators are dropped, and the first rule
/// wins whose pattern matches and whose lengths hold the number of characters
/// left.
pub open spec fn brand_of(number: Seq<char>) -> Option<Seq<char>> {
    let digits = without_separators(number);
    selected_brand(pattern_outcomes(digits), digits.len())
}

/// The first rule that takes a number is taken, and none before it does;
/// where no rule is chosen, none takes it.
pub proof fn lemma_first_rule_wins(
    rules: Seq<CardBrandView>,
    outcomes: Seq<Option<bool>>,
    length: nat,
    from: int,
)
    requires
        0 <= from <= rules.len(),
    ensures
        match first_taking(rules, outcomes, length, from) {
            Some(i) => {
                &&& from <= i < rules.len()
                &&& rule_takes(rules[i], outcome_at(outcomes, i), length)
                &&& forall|j: int|
                    from <= j < i ==> !rule_takes(
                        #[trigger] rules[j],
                        outcome_at(outcomes, j),
                        length,
                    )
            },
            None => forall|j: int|
                from <= j < rules.len() ==> !rule_takes(
                    #[trigger] rules[j],
                    outcome_at(outcomes, j),
                    length,
                ),
        },
    decreases rules.len() - from,
{
    if from < rules.len() && !rule_takes(rules[from], outcome_at(outcomes, from), length) {
        lemma_first_rule_wins(rules, outcomes, length, from + 1);
    }
}

/// Whether `length` is among `lengths`.
fn has_length(lengths: &Vec<usize>, length: usize) -> (found: bool)
    ensures
        found == issues_length(lengths@, length as nat),
{
    let mut k: usize = 0;
    while k < lengths.len()
        invariant
            k <= lengths.len(),
            forall|j: int| 0 <= j < k ==> lengths@[j] != length,
        decreases lengths.len() - k,
    {
        if lengths[k] == length {
            return true;
        }
        k += 1;
    }
    false
}

/// Chooses the brand of a number of `length` digits from the outcome of the
/// search for each rule's pattern, given in the order of the rule table.
pub fn select_brand(outcomes: &Vec<Option<bool>>, length: usize) -> (brand: Option<&'static str>)
    ensures
        brand is Some == selected_brand(outcomes@, length as nat) is Some,
        brand matches Some(name) ==> selected_brand(outcomes@, length as nat) == Some(name@),
{
    let rules = card_brands();
    let ghost table = rule_table();
    let mut i: usize = 0;
    while i < rules.len()
        invariant
            i <= rules.len(),
            table == rule_table(),
            rules@.map_values(|r: CardBrand| r@) == table,
            first_taking(table, outcomes@, length as nat, 0) == first_taking(
                table,
                outcomes@,
                length as nat,
                i as int,
            ),
        decreases rules.len() - i,
    {
        assert(rules@.map_values(|r: CardBrand| r@)[i as int] == rules@[i as int]@);
        let found = if i < outcomes.len() {
            outcomes[i]
        } else {
            None
        };
        let matched = match found {
            Some(true) => true,
            _ => false,
        };
        if matched && has_length(&rules[i].lengths, length) {
            return Some(rules[i].name);
        }
        i += 1;
    }
    None
}

/// Tells the brand of a card number from its leading digits and its length.
/// Spaces and dashes in `number` are ignored.
pub fn identify_card_brand(number: &str) -> (brand: Option<&'static str>)
    ensures
        brand is Some == brand_of(number@) is Some,
        brand matches Some(name) ==> brand_of(number@) == Some(name@),
{
    let digits = strip_separators(&chars_of(number));
    let cleaned = string_of(&digits);
    let rules = card_brands();
    let mut outcomes: Vec<Option<bool>> = Vec::new();
    let mut i: usize = 0;
    while i < rules.len()
        invariant
            i <= rules.len(),
            rules@.map_values(|r: CardBrand| r@) == rule_table(),
            cleaned@ == without_separators(number@),
            outcomes@ == pattern_outcomes(cleaned@).take(i as int),
        decreases rules.len() - i,
    {
        assert(rules@.map_values(|r: CardBrand| r@)[i as int] == rules@[i as int]@);
        let found = pattern_is_match(rules[i].pattern, cleaned.as_str());
        outcomes.push(found);
        assert(outcomes@ =~= pattern_outcomes(cleaned@).take(i + 1));
        i += 1;
    }
    assert(outcomes@ =~= pattern_outcomes(cleaned@));
    select_brand(&outcomes, digits.len())
}

/// A number of 13, 16 or 19 digits in which the Visa pattern is found is a
/// Visa number whatever the later rules would say: the rule that takes any
/// digit string is never reached.
pub proof fn lemma_visa_precedes_catch_all(outcomes: Seq<Option<bool>>, length: nat)
    requires
        outcome_at(outcomes, 0) == Some(true),
        length == 13 || length == 16 || length == 19,
    ensures
        selected_brand(outcomes, length) == Some("Visa"@),
{
    let lengths = rule_table()[0].lengths;
    assert(lengths[0] == 13 && lengths[1] == 16 && lengths[2] == 19);
}

/// The rule that takes any digit string stands last, and its name is chosen
/// only where no rule before it takes the number.
pub proof fn lemma_catch_all_is_last(outcomes: Seq<Option<bool>>, length: nat)
    ensures
        rule_table().last().name == "Unknown"@,
        selected_brand(outcomes, length) == Some("Unknown"@) ==> forall|j: int|
            0 <= j < rule_table().len() - 1 ==> !rule_takes(
                #[trigger] rule_table()[j],
                outcome_at(outcomes, j),
                length,
            ),
{
    reveal_strlit("Visa");
    reveal_strlit("Mastercard");
    reveal_strlit("American Express");
    reveal_strlit("Discover");
    reveal_strlit("JCB");
    reveal_strlit("Diners Club");
    reveal_strlit("UnionPay");
    reveal_strlit("Unknown");
    lemma_first_rule_wins(rule_table(), outcomes, length, 0);
    let table = rule_table();
    assert forall|i: int| 0 <= i < table.len() - 1 implies (#[trigger] table[i]).name
        != "Unknown"@ by {
        assert(table[i].name.len() != 7 || table[i].name[0] != 'U' || table[i].name[1] != 'n');
    }
}

/// A string of 13, 16 or 19 digits in which the Visa pattern is found is
/// classified as Visa, never as unknown.
pub proof fn lemma_visa_number(number: Seq<char>)
    requires
        all_digits(number),
        number.len() == 13 || number.len() == 16 || number.len() == 19,
        regex_accepts(rule_table()[0].pattern),
        regex_is_match(rule_table()[0].pattern, number),
    ensures
        brand_of(number) == Some("Visa"@),
        brand_of(number) != Some("Unknown"@),
{
    lemma_digits_hold_no_separator(number);
    let digits = without_separators(number);
    lemma_visa_precedes_catch_all(pattern_outcomes(digits), digits.len());
    reveal_strlit("Visa");
    reveal_strlit("Unknown");
    assert("Visa"@.len() != "Unknown"@.len());
}

} // verus!
