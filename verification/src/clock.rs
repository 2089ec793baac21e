//! The wall clock.

use std::fmt::Write;
use vstd::prelude::*;

verus! {

/// The local date and time at the moment of the call, as
/// `chrono::Local::now` reports it, written out by `chrono`'s `format` after
/// `layout`. The answer is `None` where `layout` is not one that `format`
/// can follow. The text depends on the clock and on the time zone of the
/// machine, so nothing is promised of it.
#[verifier::external_body]
pub(crate) fn local_time_text(layout: &str) -> (text: Option<String>) {
    let mut text = String::new();
    match write!(text, "{}", chrono::Local::now().format(layout)) {
        Ok(()) => Some(text),
        Err(_) => None,
    }
}

} // verus!
