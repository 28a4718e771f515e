use vstd::prelude::*;

verus! {

/// The views of a vector of strings.
pub open spec fn views(v: Seq<String>) -> Seq<Seq<char>> {
    v.map_values(|s: String| s@)
}

/// Whether `sep` occurs in `s` at position `p`.
pub open spec fn occurs_at(s: Seq<char>, sep: Seq<char>, p: int) -> bool {
    0 <= p && p + sep.len() <= s.len() && s.subrange(p, p + sep.len()) == sep
}

/// The first position at or after `from` where `sep` occurs in `s`.
pub open spec fn first_occurrence(s: Seq<char>, sep: Seq<char>, from: int) -> Option<int>
    decreases s.len() + 1 - from,
{
    if from < 0 || from + sep.len() > s.len() || from > s.len() {
        None
    } else if occurs_at(s, sep, from) {
        Some(from)
    } else {
        first_occurrence(s, sep, from + 1)
    }
}

/// What `str::split` with a non-empty string pattern yields: the pieces
/// between the non-overlapping occurrences of `sep`, found from the left.
pub open spec fn split_spec(s: Seq<char>, sep: Seq<char>) -> Seq<Seq<char>>
    decreases s.len(),
{
    if sep.len() == 0 {
        seq![s]
    } else {
        match first_occurrence(s, sep, 0) {
            None => seq![s],
            Some(p) => {
                if 0 <= p && p + sep.len() <= s.len() && sep.len() > 0 {
                    seq![s.subrange(0, p)] + split_spec(s.subrange(p + sep.len(), s.len() as int), sep)
                } else {
                    seq![s]
                }
            },
        }
    }
}

/// The value of a string of digits in the given radix (meaningful when every
/// character is a digit of that radix).
pub open spec fn digits_value(s: Seq<char>, radix: nat) -> nat
    decreases s.len(),
{
    if s.len() == 0 {
        0
    } else {
        digits_value(s.drop_last(), radix) * radix + digit_of(s.last())
    }
}

/// The value of an ASCII digit or letter digit.
pub open spec fn digit_of(c: char) -> nat {
    if '0' <= c && c <= '9' {
        (c as int - '0' as int) as nat
    } else if 'a' <= c && c <= 'z' {
        (c as int - 'a' as int + 10) as nat
    } else if 'A' <= c && c <= 'Z' {
        (c as int - 'A' as int + 10) as nat
    } else {
        99
    }
}

/// Whether every character is a digit of the radix.
pub open spec fn all_digits(s: Seq<char>, radix: nat) -> bool {
    forall|i: int| 0 <= i < s.len() ==> #[trigger] digit_of(s[i]) < radix
}

/// What `u16::from_str_radix` returns, as documented: an optional `+` sign
/// followed by at least one digit of the radix, with a value that fits in 16
/// bits; `None` for every other string.
pub open spec fn radix_parse(s: Seq<char>, radix: nat) -> Option<u16> {
    let digits = if s.len() > 0 && s[0] == '+' {
        s.drop_first()
    } else {
        s
    };
    if digits.len() == 0 || !all_digits(digits, radix) || digits_value(digits, radix) > 0xFFFF {
        None
    } else {
        Some(digits_value(digits, radix) as u16)
    }
}

/// A line without the `\r` of a `\r\n` terminator.
pub open spec fn strip_cr(p: Seq<char>) -> Seq<char> {
    if p.len() > 0 && p.last() == '\r' {
        p.drop_last()
    } else {
        p
    }
}

/// What `str::lines` yields for a string, as its documentation states it:
/// lines end at `\n` or `\r\n`, the terminators are not part of the lines,
/// a final terminator is optional (the empty string has no lines), and a `\r`
/// that is not followed by `\n` stays in its line.
pub open spec fn std_lines(s: Seq<char>) -> Seq<Seq<char>> {
    let pieces = split_spec(s, seq!['\n']);
    if s.len() == 0 {
        Seq::empty()
    } else if s.last() == '\n' {
        pieces.drop_last().map_values(|p: Seq<char>| strip_cr(p))
    } else {
        pieces.drop_last().map_values(|p: Seq<char>| strip_cr(p)).push(pieces.last())
    }
}

/// Whether `c` is white space in the sense of Unicode (`White_Space`).
pub open spec fn is_ws(c: char) -> bool {
    let u = c as u32;
    ||| 0x09 <= u <= 0x0D
    ||| u == 0x20
    ||| u == 0x85
    ||| u == 0xA0
    ||| u == 0x1680
    ||| 0x2000 <= u <= 0x200A
    ||| u == 0x2028
    ||| u == 0x2029
    ||| u == 0x202F
    ||| u == 0x205F
    ||| u == 0x3000
}

/// The index of the first white space at or after `i`, or the length.
pub open spec fn word_end(s: Seq<char>, i: int) -> int
    decreases s.len() - i,
{
    if i < 0 || i >= s.len() || is_ws(s[i]) {
        i
    } else {
        word_end(s, i + 1)
    }
}

pub proof fn lemma_word_end(s: Seq<char>, i: int)
    requires
        0 <= i <= s.len(),
    ensures
        i <= word_end(s, i) <= s.len(),
    decreases s.len() - i,
{
    if i < s.len() && !is_ws(s[i]) {
        lemma_word_end(s, i + 1);
    }
}

/// The words of a string: its maximal runs of characters that are not white
/// space, in order (what `str::split_whitespace` yields, as documented).
pub open spec fn ws_words(s: Seq<char>) -> Seq<Seq<char>>
    decreases s.len(),
{
    if s.len() == 0 {
        Seq::empty()
    } else if is_ws(s[0]) {
        ws_words(s.skip(1))
    } else {
        let k = word_end(s, 0);
        proof {
            lemma_word_end(s, 1);
        }
        seq![s.subrange(0, k)] + ws_words(s.skip(k))
    }
}



/// Splits with `str::split`. Trusted: the pieces are those of `split_spec`,
/// which restates the documented behaviour for a non-empty pattern.
#[verifier::external_body]
pub(crate) fn split_str(s: &str, sep: &str) -> (r: Vec<String>)
    requires
        sep@.len() > 0,
    ensures
        views(r@) == split_spec(s@, sep@),
{
    s.split(sep).map(|p| p.to_string()).collect()
}

/// Splits with `str::lines`. Trusted: the lines are `std_lines(s@)`, which
/// restates the documented behaviour.
#[verifier::external_body]
pub(crate) fn lines_of(s: &str) -> (r: Vec<String>)
    ensures
        views(r@) == std_lines(s@),
{
    s.lines().map(|p| p.to_string()).collect()
}

/// Splits with `str::split_whitespace`. Trusted: the words are the maximal
/// runs of characters that are not Unicode white space, in order (`ws_words`).
#[verifier::external_body]
pub(crate) fn words_of(s: &str) -> (r: Vec<String>)
    ensures
        views(r@) == ws_words(s@),
{
    s.split_whitespace().map(|p| p.to_string()).collect()
}

/// Parses with `u16::from_str_radix`. Trusted: the result is `radix_parse`,
/// which restates the documented behaviour.
#[verifier::external_body]
pub(crate) fn parse_u16(s: &str, radix: u32) -> (r: Option<u16>)
    requires
        2 <= radix <= 36,
    ensures
        r == radix_parse(s@, radix as nat),
{
    u16::from_str_radix(s, radix).ok()
}

} // verus!
