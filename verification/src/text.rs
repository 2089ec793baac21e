//! Character-level helpers shared by the rest of the crate.

use vstd::prelude::*;

verus! {

/// `String::push` appends one character to the end of the string.
pub assume_specification[ String::push ](s: &mut String, ch: char)
    ensures
        final(s)@ == old(s)@.push(ch),
;

/// The characters of `s`, in order.
pub fn chars_of(s: &str) -> (v: Vec<char>)
    ensures
        v@ == s@,
{
    broadcast use vstd::string::group_string_axioms;
    let mut v: Vec<char> = Vec::new();
    for c in it: s.chars()
        invariant
            it.seq() == s@,
            v@.len() == it.index(),
            forall|i: int| 0 <= i < v@.len() ==> v@[i] == it.seq()[i],
    {
        v.push(c);
    }
    v
}

/// The string made of the characters of `v`, in order.
pub fn string_of(v: &Vec<char>) -> (s: String)
    ensures
        s@ == v@,
{
    let mut s = String::new();
    let mut i: usize = 0;
    while i < v.len()
        invariant
            i <= v.len(),
            s@ == v@.take(i as int),
        decreases v.len() - i,
    {
        s.push(v[i]);
        i += 1;
    }
    s
}

/// Whether `a` and `b` hold the same characters.
pub fn same_text(a: &str, b: &str) -> (same: bool)
    ensures
        same == (a@ == b@),
{
    let x = chars_of(a);
    let y = chars_of(b);
    if x.len() != y.len() {
        return false;
    }
    let mut i: usize = 0;
    while i < x.len()
        invariant
            i <= x.len(),
            x.len() == y.len(),
            x@ == a@,
            y@ == b@,
            x@.take(i as int) == y@.take(i as int),
        decreases x.len() - i,
    {
        if x[i] != y[i] {
            assert(a@[i as int] != b@[i as int]);
            return false;
        }
        assert(x@.take(i + 1) =~= x@.take(i as int).push(x@[i as int]));
        assert(y@.take(i + 1) =~= y@.take(i as int).push(y@[i as int]));
        i += 1;
    }
    assert(x@.take(x.len() as int) =~= x@);
    assert(y@.take(y.len() as int) =~= y@);
    true
}

/// The texts of a list of strings.
pub open spec fn texts(v: Seq<String>) -> Seq<Seq<char>> {
    v.map_values(|s: String| s@)
}

/// Whether `c` separates groups of digits in a written card number.
pub open spec fn is_separator(c: char) -> bool {
    c == ' ' || c == '-'
}

/// `s` without its separators.
pub open spec fn without_separators(s: Seq<char>) -> Seq<char> {
    s.filter(|c: char| !is_separator(c))
}

/// Removes the separators from `s`.
pub fn strip_separators(s: &Vec<char>) -> (out: Vec<char>)
    ensures
        out@ == without_separators(s@),
{
    let mut out: Vec<char> = Vec::new();
    let mut i: usize = 0;
    proof {
        reveal(Seq::filter);
    }
    while i < s.len()
        invariant
            i <= s.len(),
            out@ == without_separators(s@.take(i as int)),
        decreases s.len() - i,
    {
        let c = s[i];
        proof {
            reveal(Seq::filter);
            assert(s@.take(i + 1).drop_last() =~= s@.take(i as int));
        }
        if c != ' ' && c != '-' {
            out.push(c);
        }
        i += 1;
    }
    assert(s@.take(s.len() as int) =~= s@);
    out
}

/// The character that writes the digit `d`.
pub open spec fn digit_char(d: int) -> char {
    ((48 + d) as u8) as char
}

/// The decimal writing of `n`, without leading zeros.
pub open spec fn decimal(n: nat) -> Seq<char>
    decreases n,
{
    if n < 10 {
        seq![digit_char(n as int)]
    } else {
        decimal(n / 10).push(digit_char((n % 10) as int))
    }
}

/// Appends the decimal writing of `n` to `out`.
pub fn push_decimal(out: &mut Vec<char>, n: u64)
    ensures
        final(out)@ == old(out)@ + decimal(n as nat),
    decreases n,
{
    if n >= 10 {
        push_decimal(out, n / 10);
    }
    let d: u8 = (n % 10) as u8;
    out.push((48u8 + d) as char);
    assert(final(out)@ =~= old(out)@ + decimal(n as nat));
}

/// Appends the characters of `s` to `out`.
pub fn push_str(out: &mut Vec<char>, s: &str)
    ensures
        final(out)@ == old(out)@ + s@,
{
    let mut more = chars_of(s);
    out.append(&mut more);
}

/// Appends the characters of `s` to `out`.
pub fn push_all(out: &mut Vec<char>, s: &Vec<char>)
    ensures
        final(out)@ == old(out)@ + s@,
{
    let mut i: usize = 0;
    while i < s.len()
        invariant
            i <= s.len(),
            out@ == old(out)@ + s@.take(i as int),
        decreases s.len() - i,
    {
        out.push(s[i]);
        assert(s@.take(i + 1) =~= s@.take(i as int).push(s@[i as int]));
        i += 1;
    }
    assert(s@.take(s.len() as int) =~= s@);
}

/// Whether `needle` stands in `hay` at position `at`.
pub open spec fn occurs_at(hay: Seq<char>, needle: Seq<char>, at: int) -> bool {
    0 <= at && at + needle.len() <= hay.len() && hay.subrange(at, at + needle.len()) == needle
}

/// Whether `needle` stands somewhere in `hay`.
pub open spec fn occurs(hay: Seq<char>, needle: Seq<char>) -> bool {
    exists|at: int| occurs_at(hay, needle, at)
}

/// `hay` with `with` put before each of its characters and after the last.
pub open spec fn interleaved(hay: Seq<char>, with: Seq<char>) -> Seq<char>
    decreases hay.len(),
{
    if hay.len() == 0 {
        with
    } else {
        with + seq![hay[0]] + interleaved(hay.skip(1), with)
    }
}

/// `hay` with every occurrence of `needle` replaced by `with`. Occurrences
/// are taken from the left and do not overlap. An empty `needle` occurs
/// before each character and at the end.
pub open spec fn replace_all(hay: Seq<char>, needle: Seq<char>, with: Seq<char>) -> Seq<char>
    decreases hay.len(),
{
    if needle.len() == 0 {
        interleaved(hay, with)
    } else if hay.len() < needle.len() {
        hay
    } else if occurs_at(hay, needle, 0) {
        with + replace_all(hay.skip(needle.len() as int), needle, with)
    } else {
        seq![hay[0]] + replace_all(hay.skip(1), needle, with)
    }
}

/// Whether `needle` stands in `hay` at position `at`.
pub fn starts_at(hay: &Vec<char>, needle: &Vec<char>, at: usize) -> (found: bool)
    ensures
        found == occurs_at(hay@, needle@, at as int),
{
    if at > hay.len() || needle.len() > hay.len() - at {
        return false;
    }
    let mut k: usize = 0;
    while k < needle.len()
        invariant
            k <= needle.len(),
            at + needle.len() <= hay.len(),
            forall|j: int| 0 <= j < k ==> hay@[at + j] == needle@[j],
        decreases needle.len() - k,
    {
        if hay[at + k] != needle[k] {
            assert(hay@.subrange(at as int, at + needle.len())[k as int] != needle@[k as int]);
            return false;
        }
        k += 1;
    }
    assert(hay@.subrange(at as int, at + needle.len()) =~= needle@);
    true
}

/// Whether `needle` stands somewhere in `hay`.
pub fn contains(hay: &Vec<char>, needle: &Vec<char>) -> (found: bool)
    ensures
        found == occurs(hay@, needle@),
{
    if needle.len() > hay.len() {
        return false;
    }
    let last = hay.len() - needle.len();
    let mut at: usize = 0;
    while at < last
        invariant
            at <= last,
            last == hay.len() - needle.len(),
            forall|j: int| 0 <= j < at ==> !occurs_at(hay@, needle@, j),
        decreases last - at,
    {
        if starts_at(hay, needle, at) {
            return true;
        }
        at += 1;
    }
    starts_at(hay, needle, last)
}

/// `hay` with every occurrence of `needle` replaced by `with`.
pub fn replace(hay: &Vec<char>, needle: &Vec<char>, with: &Vec<char>) -> (out: Vec<char>)
    ensures
        out@ == replace_all(hay@, needle@, with@),
{
    let mut out: Vec<char> = Vec::new();
    let mut at: usize = 0;
    assert(hay@.skip(0) =~= hay@);
    if needle.len() == 0 {
        assert(out@ + interleaved(hay@, with@) =~= interleaved(hay@, with@));
        while at < hay.len()
            invariant
                at <= hay.len(),
                needle@.len() == 0,
                out@ + interleaved(hay@.skip(at as int), with@) == replace_all(
                    hay@,
                    needle@,
                    with@,
                ),
            decreases hay.len() - at,
        {
            let ghost rest = hay@.skip(at as int);
            let ghost before = out@;
            push_all(&mut out, with);
            out.push(hay[at]);
            assert(rest.skip(1) =~= hay@.skip(at + 1));
            assert(out@ + interleaved(rest.skip(1), with@) =~= before + interleaved(rest, with@));
            at += 1;
        }
        let ghost before = out@;
        push_all(&mut out, with);
        assert(out@ =~= before + interleaved(hay@.skip(at as int), with@));
        return out;
    }
    assert(out@ + replace_all(hay@, needle@, with@) =~= replace_all(hay@, needle@, with@));
    while at < hay.len()
        invariant
            at <= hay.len(),
            needle@.len() > 0,
            out@ + replace_all(hay@.skip(at as int), needle@, with@) == replace_all(
                hay@,
                needle@,
                with@,
            ),
        decreases hay.len() - at,
    {
        let ghost rest = hay@.skip(at as int);
        let ghost before = out@;
        let here = starts_at(hay, needle, at);
        assert(here == occurs_at(rest, needle@, 0)) by {
            if at + needle.len() <= hay.len() {
                assert(rest.subrange(0, needle.len() as int) =~= hay@.subrange(
                    at as int,
                    at + needle.len(),
                ));
            }
        }
        if here {
            push_all(&mut out, with);
            assert(rest.skip(needle.len() as int) =~= hay@.skip(at + needle.len()));
            assert(out@ + replace_all(rest.skip(needle.len() as int), needle@, with@) =~= before
                + replace_all(rest, needle@, with@));
            at += needle.len();
        } else if hay.len() - at < needle.len() {
            let ghost tail = hay@.skip(at as int);
            while at < hay.len()
                invariant
                    at <= hay.len(),
                    out@ + hay@.skip(at as int) == before + tail,
                decreases hay.len() - at,
            {
                out.push(hay[at]);
                assert(seq![hay@[at as int]] + hay@.skip(at + 1) =~= hay@.skip(at as int));
                assert(out@ + hay@.skip(at + 1) =~= before + tail);
                at += 1;
            }
            assert(out@ =~= before + tail);
            assert(hay@.skip(at as int) =~= Seq::<char>::empty());
            assert(out@ + replace_all(hay@.skip(at as int), needle@, with@) =~= out@);
        } else {
            out.push(hay[at]);
            assert(rest.skip(1) =~= hay@.skip(at + 1));
            assert(out@ + replace_all(rest.skip(1), needle@, with@) =~= before + replace_all(
                rest,
                needle@,
                with@,
            ));
            at += 1;
        }
    }
    assert(hay@.skip(at as int) =~= Seq::<char>::empty());
    assert(out@ + replace_all(hay@.skip(at as int), needle@, with@) =~= out@);
    out
}

/// Whether `c` is white space: one of the characters to which Unicode gives
/// the property White_Space.
pub open spec fn is_whitespace(c: char) -> bool {
    let u = c as int;
    ||| 0x09 <= u <= 0x0D
    ||| u == 0x20
    ||| u == 0x85
    ||| u == 0xA0
    ||| u == 0x1680
    ||| 0x2000 <= u <= 0x200A
    ||| u == 0x2028
    ||| u == 0x2029
    ||| u == 0x202F
    ||| u == 0x205F
    ||| u == 0x3000
}

/// `s` without the white space at its start.
pub open spec fn trimmed_start(s: Seq<char>) -> Seq<char>
    decreases s.len(),
{
    if s.len() > 0 && is_whitespace(s[0]) {
        trimmed_start(s.skip(1))
    } else {
        s
    }
}

/// `s` without the white space at its end.
pub open spec fn trimmed_end(s: Seq<char>) -> Seq<char>
    decreases s.len(),
{
    if s.len() > 0 && is_whitespace(s.last()) {
        trimmed_end(s.drop_last())
    } else {
        s
    }
}

/// `s` without the white space at its start and at its end.
pub open spec fn trimmed(s: Seq<char>) -> Seq<char> {
    trimmed_end(trimmed_start(s))
}

/// Whether `c` is white space.
pub fn is_white(c: char) -> (white: bool)
    ensures
        white == is_whitespace(c),
{
    let u: u32 = c as u32;
    (0x09 <= u && u <= 0x0D) || u == 0x20 || u == 0x85 || u == 0xA0 || u == 0x1680 || (0x2000
        <= u && u <= 0x200A) || u == 0x2028 || u == 0x2029 || u == 0x202F || u == 0x205F || u
        == 0x3000
}

/// `s` without the white space at its start and at its end.
pub fn trim(s: &Vec<char>) -> (out: Vec<char>)
    ensures
        out@ == trimmed(s@),
{
    let n = s.len();
    let mut start: usize = 0;
    assert(s@.skip(0) =~= s@);
    while start < n && is_white(s[start])
        invariant
            start <= n,
            n == s.len(),
            trimmed_start(s@) == trimmed_start(s@.skip(start as int)),
        decreases n - start,
    {
        assert(s@.skip(start as int).skip(1) =~= s@.skip(start + 1));
        start += 1;
    }
    let ghost body = s@.skip(start as int);
    assert(trimmed_start(s@) == body);
    let mut end: usize = n;
    while end > start && is_white(s[end - 1])
        invariant
            start <= end <= n,
            n == s.len(),
            body == s@.skip(start as int),
            trimmed_end(body) == trimmed_end(s@.subrange(start as int, end as int)),
        decreases end,
    {
        assert(s@.subrange(start as int, end as int).drop_last() =~= s@.subrange(
            start as int,
            end - 1,
        ));
        end -= 1;
    }
    assert(s@.subrange(start as int, n as int) =~= body);
    let mut out: Vec<char> = Vec::new();
    let mut i: usize = start;
    while i < end
        invariant
            start <= i <= end <= n,
            n == s.len(),
            out@ == s@.subrange(start as int, i as int),
        decreases end - i,
    {
        out.push(s[i]);
        assert(s@.subrange(start as int, i + 1) =~= s@.subrange(start as int, i as int).push(
            s@[i as int],
        ));
        i += 1;
    }
    out
}

} // verus!
