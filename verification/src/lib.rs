//! Finding payment-card numbers in text files.
//!
//! A line of text is searched for runs of digits ([`extract`]); a run that
//! has the length and the Luhn checksum of a card number ([`luhn`]) and that
//! a rule of the brand table takes ([`brand`]) becomes a match
//! ([`card_match`]), which can be shown masked. The matches of a file make
//! up its report ([`scanner`]), the reports of all files meet in a store
//! ([`store`]), and the store is summed up by counts, brands and risk levels
//! ([`summary`]). [`scan`] does all of this for files whose lines are at
//! hand; [`walk`] chooses the files from the paths given.
//!
//! Reading files, listing directories and writing reports are left to the
//! caller.

pub mod brand;
pub mod card_match;
pub mod clock;
pub mod extract;
pub mod luhn;
pub mod output;
pub mod pattern;
pub mod scan;
pub mod scanner;
pub mod store;
pub mod summary;
pub mod text;
pub mod walk;
