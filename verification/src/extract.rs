//! Finding, in a line of text, the runs of digits that may be card numbers.
//!
//! A run is a stretch of digits in which single spaces or dashes may stand
//! between two digits, taken as long as it goes, with no digit directly
//! before or after it. A run of 12 to 19 characters, its separators counted,
//! gives a candidate: its digits. The search for the next run begins where
//! the run before it ends, so that two runs may share the character between
//! them.

use vstd::prelude::*;
use vstd::string::StrSliceExecFns;
use crate::pattern::{found_texts, pattern_first_group, regex_accepts, regex_first_group};
use crate::text::{chars_of, string_of, strip_separators, texts, without_separators};

verus! {

/// The expression that finds a run: after the start of the text or a
/// character that is no digit, a digit and then any number of digits, each
/// with at most one space or dash before it; after that the end of the text
/// or a character that is no digit. The run itself is the first capture
/// group.
pub const CARD_RUN_PATTERN: &'static str = "(?:^|\\D)([0-9](?:[ -]?[0-9])*)(?:\\D|$)";

/// The first run in `text`, with the part of `text` that follows the run.
pub open spec fn first_run(text: Seq<char>) -> Option<(Seq<char>, Seq<char>)> {
    if regex_accepts(CARD_RUN_PATTERN@) {
        regex_first_group(CARD_RUN_PATTERN@, text)
    } else {
        None
    }
}

/// The runs in `text`, from left to right: the first run, then the runs in
/// what follows it. The search ends where no run is found, and also where
/// what follows a run is not shorter than the text searched.
pub open spec fn runs_in(text: Seq<char>) -> Seq<Seq<char>>
    decreases text.len(),
{
    match first_run(text) {
        Some((run, rest)) => if rest.len() < text.len() {
            seq![run] + runs_in(rest)
        } else {
            seq![run]
        },
        None => Seq::empty(),
    }
}

/// Whether a run has the length of a written card number: 12 to 19
/// characters, separators counted.
pub open spec fn run_fits(run: Seq<char>) -> bool {
    12 <= run.len() <= 19
}

/// The candidate that a run gives: its digits, if the run has the length of
/// a written card number.
pub open spec fn candidate_of(run: Seq<char>) -> Option<Seq<char>> {
    if run_fits(run) {
        Some(without_separators(run))
    } else {
        None
    }
}

/// The candidates that a list of runs gives, in the order of the runs.
pub open spec fn candidates_from(runs: Seq<Seq<char>>) -> Seq<Seq<char>> {
    runs.filter_map(|run: Seq<char>| candidate_of(run))
}

/// The candidates in a line, from left to right.
pub open spec fn candidates_in(line: Seq<char>) -> Seq<Seq<char>> {
    candidates_from(runs_in(line))
}

/// The runs in `line`, from left to right.
pub fn find_runs(line: &str) -> (runs: Vec<String>)
    ensures
        texts(runs@) == runs_in(line@),
{
    let mut runs: Vec<String> = Vec::new();
    let mut rest: String = line.to_owned();
    let mut left: usize = rest.as_str().unicode_len();
    assert(texts(runs@) + runs_in(rest@) =~= runs_in(line@));
    loop
        invariant
            left == rest@.len(),
            texts(runs@) + runs_in(rest@) == runs_in(line@),
        decreases left,
    {
        let ghost before = runs@;
        let ghost searched = rest@;
        match pattern_first_group(CARD_RUN_PATTERN, rest.as_str()) {
            Some((run, after)) => {
                runs.push(run);
                assert(texts(runs@) =~= texts(before).push(run@));
                let next = after.as_str().unicode_len();
                if next >= left {
                    assert(texts(runs@) =~= texts(before) + runs_in(searched));
                    return runs;
                }
                assert(texts(runs@) + runs_in(after@) =~= texts(before) + runs_in(searched));
                rest = after;
                left = next;
            },
            None => {
                assert(texts(runs@) =~= texts(before) + runs_in(searched));
                return runs;
            },
        }
    }
}

/// Turns runs into candidates: a run of 12 to 19 characters gives its
/// digits, any other run gives nothing, and the order is kept.
pub fn candidates_from_runs(runs: &Vec<String>) -> (candidates: Vec<String>)
    ensures
        texts(candidates@) == candidates_from(texts(runs@)),
{
    let mut candidates: Vec<String> = Vec::new();
    let ghost all = texts(runs@);
    let ghost f = |run: Seq<char>| candidate_of(run);
    let mut i: usize = 0;
    while i < runs.len()
        invariant
            i <= runs.len(),
            all == texts(runs@),
            f == |run: Seq<char>| candidate_of(run),
            texts(candidates@) == all.take(i as int).filter_map(f),
        decreases runs.len() - i,
    {
        proof {
            all.lemma_filter_map_take_succ(f, i as int);
        }
        let run = chars_of(runs[i].as_str());
        if 12 <= run.len() && run.len() <= 19 {
            let digits = strip_separators(&run);
            let ghost before = candidates@;
            candidates.push(string_of(&digits));
            assert(texts(candidates@) =~= texts(before).push(digits@));
        }
        i += 1;
    }
    assert(all.take(runs.len() as int) =~= all);
    candidates
}

/// The candidates in `line`, from left to right. Each is the digits of a run
/// of the line; whether it is a card number is not yet decided.
pub fn extract_candidates(line: &str) -> (candidates: Vec<String>)
    ensures
        texts(candidates@) == candidates_in(line@),
{
    let runs = find_runs(line);
    candidates_from_runs(&runs)
}

/// The search does not stop at the first run: where a run is found, and a
/// second one in what follows it, and none after that, the runs of the text
/// are these two, in this order.
pub proof fn lemma_two_runs(
    text: Seq<char>,
    first: Seq<char>,
    after_first: Seq<char>,
    second: Seq<char>,
    after_second: Seq<char>,
)
    requires
        first_run(text) == Some((first, after_first)),
        after_first.len() < text.len(),
        first_run(after_first) == Some((second, after_second)),
        after_second.len() < after_first.len(),
        first_run(after_second) is None,
    ensures
        runs_in(text) == seq![first, second],
        run_fits(first) && run_fits(second) ==> candidates_in(text) == seq![
            without_separators(first),
            without_separators(second),
        ],
{
    assert(runs_in(after_second) =~= Seq::<Seq<char>>::empty());
    assert(runs_in(after_first) =~= seq![second]);
    assert(runs_in(text) =~= seq![first, second]);
    if run_fits(first) && run_fits(second) {
        let f = |run: Seq<char>| candidate_of(run);
        let runs = seq![first, second];
        assert(runs.drop_last() =~= seq![first]);
        assert(seq![first].drop_last() =~= Seq::<Seq<char>>::empty());
        assert(seq![first].drop_last().filter_map(f) =~= Seq::<Seq<char>>::empty());
        assert(seq![first].filter_map(f) =~= seq![without_separators(first)]);
        assert(runs.filter_map(f) =~= seq![without_separators(first), without_separators(second)]);
    }
}

} // verus!
