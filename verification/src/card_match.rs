//! A card number found in a file, and its redacted forms.

use vstd::prelude::*;
use crate::luhn::{is_valid_luhn, luhn_valid};
use crate::text::{
    chars_of, contains, decimal, occurs, push_all, push_decimal, push_str, replace, replace_all,
    string_of, texts, trim, trimmed,
};

verus! {

/// A validated and classified card number, with the place where it stands.
#[derive(Clone, Debug, PartialEq, Eq)]
pub struct CardMatch {
    /// The name of the brand.
    pub brand: String,
    /// The digits of the number, without separators.
    pub full_pan: String,
    /// The first six digits.
    pub bin: String,
    /// The last four digits.
    pub last_four: String,
    /// The number of digits.
    pub length: usize,
    /// The file in which the number stands.
    pub file_path: String,
    /// The line of that file, counted from 1.
    pub line_number: usize,
    /// That line as it was read.
    pub line_content: String,
}

/// A match as contracts see it.
pub struct CardMatchView {
    pub brand: Seq<char>,
    pub full_pan: Seq<char>,
    pub bin: Seq<char>,
    pub last_four: Seq<char>,
    pub length: nat,
    pub file_path: Seq<char>,
    pub line_number: nat,
    pub line_content: Seq<char>,
}

impl View for CardMatch {
    type V = CardMatchView;

    open spec fn view(&self) -> CardMatchView {
        CardMatchView {
            brand: self.brand@,
            full_pan: self.full_pan@,
            bin: self.bin@,
            last_four: self.last_four@,
            length: self.length as nat,
            file_path: self.file_path@,
            line_number: self.line_number as nat,
            line_content: self.line_content@,
        }
    }
}

/// The views of a list of matches.
pub open spec fn match_views(matches: Seq<CardMatch>) -> Seq<CardMatchView> {
    matches.map_values(|m: CardMatch| m@)
}

/// A sixteen-digit number written in four groups of four with `sep` between
/// them.
pub open spec fn grouped(pan: Seq<char>, sep: char) -> Seq<char> {
    pan.subrange(0, 4) + seq![sep] + pan.subrange(4, 8) + seq![sep] + pan.subrange(8, 12) + seq![
        sep,
    ] + pan.subrange(12, 16)
}

impl CardMatchView {
    /// What holds of every match that a scan produces: the number has 13 to
    /// 19 digits and passes the Luhn check, and the stored length, first six
    /// and last four digits are those of the number.
    pub open spec fn well_formed(self) -> bool {
        &&& 13 <= self.length <= 19
        &&& self.full_pan.len() == self.length
        &&& luhn_valid(self.full_pan)
        &&& self.bin == self.full_pan.take(6)
        &&& self.last_four == self.full_pan.skip(self.length - 4)
    }

    /// The number with all but its first six and last four digits replaced
    /// by `X`.
    pub open spec fn masked_pan(self) -> Seq<char> {
        self.bin + Seq::new((self.length - 10) as nat, |i: int| 'X') + self.last_four
    }

    /// The writing of the number that is redacted in the line, if any is
    /// found there: the bare digits first; failing that, for a number of
    /// sixteen digits, four groups of four set apart by spaces, then by
    /// dashes.
    pub open spec fn redaction_target(self) -> Option<Seq<char>> {
        if occurs(self.line_content, self.full_pan) {
            Some(self.full_pan)
        } else if self.full_pan.len() == 16 && occurs(
            self.line_content,
            grouped(self.full_pan, ' '),
        ) {
            Some(grouped(self.full_pan, ' '))
        } else if self.full_pan.len() == 16 && occurs(
            self.line_content,
            grouped(self.full_pan, '-'),
        ) {
            Some(grouped(self.full_pan, '-'))
        } else {
            None
        }
    }

    /// The line with the number redacted, or the line as it is where no
    /// writing of the number is found in it.
    pub open spec fn masked_line(self) -> Seq<char> {
        match self.redaction_target() {
            Some(target) => replace_all(self.line_content, target, self.masked_pan()),
            None => self.line_content,
        }
    }

    /// The match as it is written out where numbers are not shown in full:
    /// the number masked and the line redacted.
    pub open spec fn sanitized(self) -> CardMatchView {
        CardMatchView { full_pan: self.masked_pan(), line_content: self.masked_line(), ..self }
    }

    /// The fields of the match as a record of a table: brand, length, first
    /// six, last four, number, file, line number and line, the number and
    /// the line in full only where `show_full` asks for it.
    pub open spec fn record(self, show_full: bool) -> Seq<Seq<char>> {
        seq![
            self.brand,
            decimal(self.length),
            self.bin,
            self.last_four,
            if show_full {
                self.full_pan
            } else {
                self.masked_pan()
            },
            self.file_path,
            decimal(self.line_number),
            if show_full {
                self.line_content
            } else {
                self.masked_line()
            },
        ]
    }

    /// The report of the match as text.
    pub open spec fn rendered(self, show_full: bool) -> Seq<char> {
        let pan_display = if show_full {
            "Full PAN: "@ + self.full_pan
        } else {
            "Masked PAN: "@ + self.masked_pan()
        };
        let line = if show_full {
            self.line_content
        } else {
            self.masked_line()
        };
        "File: "@ + self.file_path + "\nLine: "@ + decimal(self.line_number) + "\nBrand: "@
            + self.brand + "\nPAN Length: "@ + decimal(self.length) + "\nBIN: "@ + self.bin
            + "\nLast Four: "@ + self.last_four + "\n"@ + pan_display + "\nLine Content: "@
            + trimmed(line) + "\n"@
    }
}

/// Whether a candidate has the length and the checksum of a card number.
pub open spec fn is_card_number(candidate: Seq<char>) -> bool {
    13 <= candidate.len() <= 19 && luhn_valid(candidate)
}

/// The match that stands for the number `pan` of brand `brand` found on line
/// `line_number` of `file_path`, where `pan` is a card number.
pub open spec fn match_for(
    brand: Seq<char>,
    pan: Seq<char>,
    file_path: Seq<char>,
    line_number: nat,
    line: Seq<char>,
) -> Option<CardMatchView> {
    if is_card_number(pan) {
        Some(
            CardMatchView {
                brand,
                full_pan: pan,
                bin: pan.take(6),
                last_four: pan.skip(pan.len() - 4),
                length: pan.len(),
                file_path,
                line_number,
                line_content: line,
            },
        )
    } else {
        None
    }
}

/// A line after redaction, with the outcome of the attempt.
pub struct MaskedLine {
    /// The line, redacted where the number was found in it.
    pub text: String,
    /// Whether the number was found and replaced. Where it is `false` the
    /// text is the line as it was read and may still show the number.
    pub redacted: bool,
}

/// Sixteen digits in four groups of four with `sep` between them.
fn group_by_four(pan: &Vec<char>, sep: char) -> (out: Vec<char>)
    requires
        pan.len() == 16,
    ensures
        out@ == grouped(pan@, sep),
{
    let out = vec![
        pan[0], pan[1], pan[2], pan[3], sep,
        pan[4], pan[5], pan[6], pan[7], sep,
        pan[8], pan[9], pan[10], pan[11], sep,
        pan[12], pan[13], pan[14], pan[15],
    ];
    assert(out@ =~= grouped(pan@, sep));
    out
}

impl CardMatch {
    /// Records the number `pan` of brand `brand`, found on line `line_number`
    /// of `file_path`. The number is refused unless it has 13 to 19 digits
    /// and passes the Luhn check.
    pub fn new(brand: &str, pan: &str, file_path: &str, line_number: usize, line: &str) -> (found:
        Option<CardMatch>)
        ensures
            match found {
                Some(m) => Some(m@),
                None => None,
            } == match_for(brand@, pan@, file_path@, line_number as nat, line@),
            found matches Some(m) ==> m@.well_formed(),
    {
        let digits = chars_of(pan);
        let length = digits.len();
        if length < 13 || length > 19 || !is_valid_luhn(pan) {
            return None;
        }
        let mut bin: Vec<char> = Vec::new();
        let mut i: usize = 0;
        while i < 6
            invariant
                i <= 6,
                13 <= digits.len(),
                bin@ == digits@.take(i as int),
            decreases 6 - i,
        {
            bin.push(digits[i]);
            assert(digits@.take(i + 1) =~= digits@.take(i as int).push(digits@[i as int]));
            i += 1;
        }
        let mut last_four: Vec<char> = Vec::new();
        let mut k: usize = length - 4;
        while k < length
            invariant
                13 <= length,
                length - 4 <= k <= length,
                length == digits.len(),
                last_four@ == digits@.subrange(length - 4, k as int),
            decreases length - k,
        {
            last_four.push(digits[k]);
            assert(digits@.subrange(length - 4, k + 1) =~= digits@.subrange(
                length - 4,
                k as int,
            ).push(digits@[k as int]));
            k += 1;
        }
        assert(digits@.subrange(length - 4, length as int) =~= digits@.skip(length - 4));
        Some(
            CardMatch {
                brand: brand.to_owned(),
                full_pan: string_of(&digits),
                bin: string_of(&bin),
                last_four: string_of(&last_four),
                length,
                file_path: file_path.to_owned(),
                line_number,
                line_content: line.to_owned(),
            },
        )
    }

    /// The characters of the masked number.
    fn masked_pan_chars(&self) -> (masked: Vec<char>)
        requires
            self.length >= 10,
        ensures
            masked@ == self@.masked_pan(),
    {
        let mut masked = chars_of(self.bin.as_str());
        let ghost bin = masked@;
        let middle = self.length - 10;
        let mut i: usize = 0;
        while i < middle
            invariant
                i <= middle,
                masked@ == bin + Seq::new(i as nat, |k: int| 'X'),
            decreases middle - i,
        {
            masked.push('X');
            assert(masked@ =~= bin + Seq::new((i + 1) as nat, |k: int| 'X'));
            i += 1;
        }
        push_str(&mut masked, self.last_four.as_str());
        masked
    }

    /// The number with all but its first six and last four digits replaced
    /// by `X`.
    pub fn masked_pan(&self) -> (masked: String)
        requires
            self.length >= 10,
        ensures
            masked@ == self@.masked_pan(),
    {
        string_of(&self.masked_pan_chars())
    }

    /// Redacts the number in the line on which it was found, and says
    /// whether it was found there.
    pub fn masked_line(&self) -> (line: MaskedLine)
        requires
            self.length >= 10,
        ensures
            line.text@ == self@.masked_line(),
            line.redacted == self@.redaction_target() is Some,
    {
        let pan = chars_of(self.full_pan.as_str());
        let content = chars_of(self.line_content.as_str());
        if contains(&content, &pan) {
            let text = replace(&content, &pan, &self.masked_pan_chars());
            return MaskedLine { text: string_of(&text), redacted: true };
        }
        if pan.len() == 16 {
            let spaced = group_by_four(&pan, ' ');
            if contains(&content, &spaced) {
                let text = replace(&content, &spaced, &self.masked_pan_chars());
                return MaskedLine { text: string_of(&text), redacted: true };
            }
            let dashed = group_by_four(&pan, '-');
            if contains(&content, &dashed) {
                let text = replace(&content, &dashed, &self.masked_pan_chars());
                return MaskedLine { text: string_of(&text), redacted: true };
            }
        }
        MaskedLine { text: self.line_content.clone(), redacted: false }
    }

    /// The line on which the number was found, with the number redacted as
    /// far as it is found there.
    pub fn mask_line_content(&self) -> (line: String)
        requires
            self.length >= 10,
        ensures
            line@ == self@.masked_line(),
    {
        self.masked_line().text
    }

    /// The match as it is written out where numbers are not shown in full:
    /// the number masked and the line redacted as far as the number is found
    /// in it.
    pub fn sanitized(&self) -> (copy: CardMatch)
        requires
            self.length >= 10,
        ensures
            copy@ == self@.sanitized(),
    {
        CardMatch {
            brand: self.brand.clone(),
            full_pan: self.masked_pan(),
            bin: self.bin.clone(),
            last_four: self.last_four.clone(),
            length: self.length,
            file_path: self.file_path.clone(),
            line_number: self.line_number,
            line_content: self.mask_line_content(),
        }
    }

    /// The fields of the match as a record of a table, the number and the
    /// line in full only where `show_full` asks for it.
    pub fn record(&self, show_full: bool) -> (fields: Vec<String>)
        requires
            show_full || self.length >= 10,
        ensures
            texts(fields@) == self@.record(show_full),
    {
        let mut length: Vec<char> = Vec::new();
        push_decimal(&mut length, self.length as u64);
        let mut line_number: Vec<char> = Vec::new();
        push_decimal(&mut line_number, self.line_number as u64);
        let pan = if show_full {
            self.full_pan.clone()
        } else {
            self.masked_pan()
        };
        let line = if show_full {
            self.line_content.clone()
        } else {
            self.mask_line_content()
        };
        let fields = vec![
            self.brand.clone(),
            string_of(&length),
            self.bin.clone(),
            self.last_four.clone(),
            pan,
            self.file_path.clone(),
            string_of(&line_number),
            line,
        ];
        assert(texts(fields@) =~= self@.record(show_full));
        fields
    }

    /// The report of the match as text, with the number and the line shown
    /// in full only where `show_full` asks for it.
    pub fn to_string(&self, show_full: bool) -> (text: String)
        requires
            show_full || self.length >= 10,
        ensures
            text@ == self@.rendered(show_full),
    {
        let mut out: Vec<char> = Vec::new();
        push_str(&mut out, "File: ");
        push_str(&mut out, self.file_path.as_str());
        push_str(&mut out, "\nLine: ");
        push_decimal(&mut out, self.line_number as u64);
        push_str(&mut out, "\nBrand: ");
        push_str(&mut out, self.brand.as_str());
        push_str(&mut out, "\nPAN Length: ");
        push_decimal(&mut out, self.length as u64);
        push_str(&mut out, "\nBIN: ");
        push_str(&mut out, self.bin.as_str());
        push_str(&mut out, "\nLast Four: ");
        push_str(&mut out, self.last_four.as_str());
        push_str(&mut out, "\n");
        if show_full {
            push_str(&mut out, "Full PAN: ");
            push_str(&mut out, self.full_pan.as_str());
        } else {
            push_str(&mut out, "Masked PAN: ");
            push_all(&mut out, &self.masked_pan_chars());
        }
        push_str(&mut out, "\nLine Content: ");
        let line = if show_full {
            chars_of(self.line_content.as_str())
        } else {
            chars_of(self.masked_line().text.as_str())
        };
        push_all(&mut out, &trim(&line));
        push_str(&mut out, "\n");
        assert(out@ =~= self@.rendered(show_full));
        string_of(&out)
    }
}

/// Masking keeps what identifies a card and hides the rest: the masked
/// number is as long as the number, begins with its first six digits, ends
/// with its last four, and shows `X` everywhere between.
pub proof fn lemma_masking_preserves(m: CardMatchView)
    requires
        m.well_formed(),
    ensures
        m.masked_pan().len() == m.full_pan.len(),
        m.masked_pan().take(6) == m.bin,
        m.masked_pan().take(6) == m.full_pan.take(6),
        m.masked_pan().skip(m.length - 4) == m.last_four,
        m.masked_pan().skip(m.length - 4) == m.full_pan.skip(m.length - 4),
        forall|i: int| 6 <= i < m.length - 4 ==> m.masked_pan()[i] == 'X',
{
    assert(m.masked_pan().take(6) =~= m.bin);
    assert(m.masked_pan().skip(m.length - 4) =~= m.last_four);
}

} // verus!
