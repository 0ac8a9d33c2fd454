//! Text rendering and ordering on character sequences.

use vstd::prelude::*;

verus! {

/// `String::push` appends one character to the end of the string.
pub assume_specification[ std::string::String::push ](s: &mut std::string::String, c: char)
    ensures
        final(s)@ == old(s)@.push(c),
;

/// `String::push_str` appends a string slice to the end of the string.
pub assume_specification[ std::string::String::push_str ](
    s: &mut std::string::String,
    other: &str,
)
    ensures
        final(s)@ == old(s)@ + other@,
;

/// `String::pop` takes the last character off the string and returns it, or
/// returns `None` and leaves the string empty.
pub assume_specification[ std::string::String::pop ](s: &mut std::string::String) -> (c:
    Option<char>)
    ensures
        old(s)@.len() == 0 ==> c is None && final(s)@ == old(s)@,
        old(s)@.len() > 0 ==> c == Some(old(s)@.last()) && final(s)@ == old(s)@.drop_last(),
;

/// `<str as PartialEq>::eq`: two string slices are equal exactly when they
/// hold the same characters.
#[verifier::external_body]
pub(crate) fn same_text(a: &str, b: &str) -> (r: bool)
    ensures
        r == (a@ == b@),
{
    a == b
}

/// `<str as PartialOrd>::lt`: string slices are ordered lexicographically by
/// their bytes, which orders them by the code points of their characters.
#[verifier::external_body]
pub(crate) fn text_before(a: &str, b: &str) -> (r: bool)
    ensures
        r == lex_less(a@, b@),
{
    a < b
}

/// Strict lexicographic order on character sequences, by code point: a
/// proper prefix comes before its extensions.
pub open spec fn lex_less(a: Seq<char>, b: Seq<char>) -> bool
    decreases a.len(),
{
    if b.len() == 0 {
        false
    } else if a.len() == 0 {
        true
    } else if a[0] != b[0] {
        (a[0] as int) < (b[0] as int)
    } else {
        lex_less(a.drop_first(), b.drop_first())
    }
}

/// No sequence comes before itself.
pub proof fn lemma_lex_irreflexive(a: Seq<char>)
    ensures
        !lex_less(a, a),
    decreases a.len(),
{
    if a.len() > 0 {
        lemma_lex_irreflexive(a.drop_first());
    }
}

/// Of two different sequences one comes before the other.
pub proof fn lemma_lex_total(a: Seq<char>, b: Seq<char>)
    ensures
        a == b || lex_less(a, b) || lex_less(b, a),
    decreases a.len(),
{
    if a.len() == 0 || b.len() == 0 {
        if a.len() == 0 && b.len() == 0 {
            assert(a =~= b);
        }
    } else if a[0] == b[0] {
        lemma_lex_total(a.drop_first(), b.drop_first());
        if a.drop_first() == b.drop_first() {
            assert(a =~= seq![a[0]] + a.drop_first());
            assert(b =~= seq![b[0]] + b.drop_first());
        }
    }
}

/// The order is transitive.
pub proof fn lemma_lex_transitive(a: Seq<char>, b: Seq<char>, c: Seq<char>)
    requires
        lex_less(a, b),
        lex_less(b, c),
    ensures
        lex_less(a, c),
    decreases a.len(),
{
    if a.len() > 0 && a[0] == b[0] && b[0] == c[0] {
        lemma_lex_transitive(a.drop_first(), b.drop_first(), c.drop_first());
    }
}

/// The character of a single digit in base ten or sixteen (lower case).
pub open spec fn digit_char(d: int) -> char {
    if d < 10 {
        ((d + 48) as u8) as char
    } else {
        ((d + 87) as u8) as char
    }
}

/// The decimal digits of `n`, most significant first, without leading zeros.
pub open spec fn decimal(n: nat) -> Seq<char>
    decreases n,
{
    if n < 10 {
        seq![digit_char(n as int)]
    } else {
        decimal(n / 10).push(digit_char((n % 10) as int))
    }
}

/// The decimal text of a signed integer: a minus sign before the digits of
/// a negative number.
pub open spec fn signed_decimal(i: int) -> Seq<char> {
    if i < 0 {
        seq!['-'] + decimal((-i) as nat)
    } else {
        decimal(i as nat)
    }
}

/// The lower-case hexadecimal digits of `n`, most significant first, without
/// leading zeros.
pub open spec fn lower_hex(n: nat) -> Seq<char>
    decreases n,
{
    if n < 16 {
        seq![digit_char(n as int)]
    } else {
        lower_hex(n / 16).push(digit_char((n % 16) as int))
    }
}

/// The text of a boolean.
pub open spec fn bool_text(b: bool) -> Seq<char> {
    if b {
        seq!['t', 'r', 'u', 'e']
    } else {
        seq!['f', 'a', 'l', 's', 'e']
    }
}

/// The value of a byte string read as a big-endian unsigned number.
pub open spec fn big_endian(bytes: Seq<u8>) -> nat
    decreases bytes.len(),
{
    if bytes.len() == 0 {
        0
    } else {
        big_endian(bytes.drop_last()) * 256 + bytes.last() as nat
    }
}

/// 256 to the power of `n`.
pub open spec fn radix_pow(n: nat) -> nat
    decreases n,
{
    if n == 0 {
        1
    } else {
        256 * radix_pow((n - 1) as nat)
    }
}

/// The character of a digit below sixteen.
fn digit(d: u8) -> (c: char)
    requires
        d < 16,
    ensures
        c == digit_char(d as int),
{
    if d < 10 {
        (d + 48) as char
    } else {
        (d + 87) as char
    }
}

/// Appends the decimal digits of `n` to `out`.
pub fn push_decimal(out: &mut String, n: u64)
    ensures
        final(out)@ == old(out)@ + decimal(n as nat),
    decreases n,
{
    if n >= 10 {
        push_decimal(out, n / 10);
    }
    out.push(digit((n % 10) as u8));
}

/// Appends the decimal text of `i` to `out`.
pub fn push_signed_decimal(out: &mut String, i: i64)
    ensures
        final(out)@ == old(out)@ + signed_decimal(i as int),
{
    if i < 0 {
        out.push('-');
        let magnitude: u64 = (-(i + 1)) as u64 + 1;
        push_decimal(out, magnitude);
    } else {
        push_decimal(out, i as u64);
    }
}

/// Appends the lower-case hexadecimal digits of `n` to `out`.
pub fn push_lower_hex(out: &mut String, n: u128)
    ensures
        final(out)@ == old(out)@ + lower_hex(n as nat),
    decreases n,
{
    if n >= 16 {
        push_lower_hex(out, n / 16);
    }
    out.push(digit((n % 16) as u8));
}

/// Appends `true` or `false` to `out`.
pub fn push_bool(out: &mut String, b: bool)
    ensures
        final(out)@ == old(out)@ + bool_text(b),
{
    if b {
        out.push('t');
        out.push('r');
        out.push('u');
        out.push('e');
    } else {
        out.push('f');
        out.push('a');
        out.push('l');
        out.push('s');
        out.push('e');
    }
}

/// Reads at most sixteen bytes as a big-endian unsigned number.
pub fn read_big_endian(bytes: &Vec<u8>) -> (value: u128)
    requires
        bytes.len() <= 16,
    ensures
        value == big_endian(bytes@),
{
    let mut value: u128 = 0;
    let mut i: usize = 0;
    while i < bytes.len()
        invariant
            i <= bytes.len() <= 16,
            value == big_endian(bytes@.take(i as int)),
            value < radix_pow(i as nat),
        decreases bytes.len() - i,
    {
        proof {
            assert(bytes@.take(i + 1).drop_last() == bytes@.take(i as int));
            lemma_radix_pow_grows(i as nat, 15);
            assert(radix_pow(15) == 0x100_0000_0000_0000_0000_0000_0000_0000) by {
                reveal_with_fuel(radix_pow, 16);
            }
        }
        value = value * 256 + bytes[i] as u128;
        i += 1;
    }
    proof {
        assert(bytes@.take(i as int) == bytes@);
    }
    value
}

/// The powers of 256 are positive and grow with the exponent.
proof fn lemma_radix_pow_grows(a: nat, b: nat)
    requires
        a <= b,
    ensures
        radix_pow(a) <= radix_pow(b),
        radix_pow(a) > 0,
    decreases b,
{
    if a < b {
        lemma_radix_pow_grows(a, (b - 1) as nat);
    } else if a > 0 {
        lemma_radix_pow_grows((a - 1) as nat, (a - 1) as nat);
    }
}

/// The pieces of a text between the occurrences of a separator: reading one
/// more character opens a new piece, where it is the separator, or extends
/// the last piece.
pub open spec fn pieces(text: Seq<char>, separator: char) -> Seq<Seq<char>>
    decreases text.len(),
{
    if text.len() == 0 {
        seq![Seq::empty()]
    } else {
        let front = pieces(text.drop_last(), separator);
        if text.last() == separator {
            front.push(Seq::empty())
        } else {
            front.drop_last().push(front.last().push(text.last()))
        }
    }
}

/// Every text has at least one piece.
pub proof fn lemma_pieces_len(text: Seq<char>, separator: char)
    ensures
        pieces(text, separator).len() >= 1,
    decreases text.len(),
{
    if text.len() > 0 {
        lemma_pieces_len(text.drop_last(), separator);
    }
}

/// The characters of each string.
pub open spec fn texts(strings: Seq<String>) -> Seq<Seq<char>> {
    strings.map_values(|s: String| s@)
}

/// Splits a text at every occurrence of a separator.
pub fn split_on(text: &str, separator: char) -> (found: Vec<String>)
    ensures
        texts(found@) == pieces(text@, separator),
{
    let mut found: Vec<String> = Vec::new();
    let mut current = String::new();
    for c in it: text.chars()
        invariant
            it.seq() == text@,
            texts(found@).push(current@) == pieces(text@.take(it.index() as int), separator),
    {
        let ghost at = it.index() as int;
        let ghost before = texts(found@);
        let ghost piece = current@;
        proof {
            assert(text@.take(at + 1).drop_last() == text@.take(at));
            assert(text@.take(at + 1).last() == c);
        }
        if c == separator {
            found.push(current);
            current = String::new();
            proof {
                assert(texts(found@) =~= before.push(piece));
            }
        } else {
            current.push(c);
            proof {
                assert(before.push(piece).drop_last() =~= before);
            }
        }
    }
    proof {
        assert(text@.take(text@.len() as int) == text@);
    }
    let ghost before = texts(found@);
    let ghost piece = current@;
    found.push(current);
    proof {
        assert(texts(found@) =~= before.push(piece));
    }
    found
}

/// A line without the carriage return at its end, if it has one.
pub open spec fn without_return(line: Seq<char>) -> Seq<char> {
    if line.len() > 0 && line.last() == '\r' {
        line.drop_last()
    } else {
        line
    }
}

/// The lines of a text.
///
/// A line ends at a line feed; a carriage return just before the line feed
/// belongs to the line ending. What follows the last line feed is a line of
/// its own unless it is empty.
pub open spec fn lines_of(text: Seq<char>) -> Seq<Seq<char>> {
    let found = pieces(text, '\n');
    if found.last().len() == 0 {
        ended_lines(found)
    } else {
        ended_lines(found).push(found.last())
    }
}

/// The lines that end at a line feed, of the pieces between the line feeds.
pub open spec fn ended_lines(found: Seq<Seq<char>>) -> Seq<Seq<char>> {
    found.drop_last().map_values(|line: Seq<char>| without_return(line))
}

/// Splits a text into its lines.
pub fn split_lines(text: &str) -> (lines: Vec<String>)
    ensures
        texts(lines@) == lines_of(text@),
{
    let found = split_on(text, '\n');
    proof {
        lemma_pieces_len(text@, '\n');
    }
    let ghost all = pieces(text@, '\n');
    let ghost ended = ended_lines(all);
    let total = found.len();
    let mut lines: Vec<String> = Vec::new();
    let mut seen: usize = 0;
    for piece in it: found
        invariant
            it.seq() == found@,
            total == found@.len(),
            seen == it.index(),
            texts(found@) == all,
            all == pieces(text@, '\n'),
            all.len() >= 1,
            ended == ended_lines(all),
            it.index() < total ==> texts(lines@) == ended.take(it.index() as int),
            it.index() == total ==> texts(lines@) == lines_of(text@),
    {
        let ghost at = it.index() as int;
        let mut line = piece;
        proof {
            assert(texts(found@)[at] == piece@);
        }
        seen += 1;
        if seen < total {
            match line.pop() {
                Some(c) => {
                    if c != '\r' {
                        line.push(c);
                        proof {
                            assert(line@ =~= piece@);
                        }
                    }
                },
                None => {},
            }
            proof {
                assert(line@ == ended[at]);
                assert(texts(lines@.push(line)) =~= ended.take(at + 1));
            }
            lines.push(line);
        } else {
            proof {
                assert(ended.take(at) == ended);
                assert(all.last() == line@);
            }
            if line.as_str().unicode_len() > 0 {
                proof {
                    assert(texts(lines@.push(line)) =~= ended.push(all.last()));
                }
                lines.push(line);
            }
            proof {
                assert(texts(lines@) == lines_of(text@));
            }
        }
    }
    lines
}

/// Whether the character is one of the ten digits.
pub open spec fn is_digit(c: char) -> bool {
    48 <= c as int <= 57
}

/// The value of a sequence of digits in base ten.
pub open spec fn digits_value(digits: Seq<char>) -> nat
    decreases digits.len(),
{
    if digits.len() == 0 {
        0
    } else {
        (digits_value(digits.drop_last()) * 10 + (digits.last() as int - 48)) as nat
    }
}

/// Whether every character is a digit.
pub open spec fn all_digits(digits: Seq<char>) -> bool {
    forall|i: int| 0 <= i < digits.len() ==> is_digit(#[trigger] digits[i])
}

/// The number that a text stands for: an optional plus sign, then at least
/// one digit and nothing but digits.
pub open spec fn unsigned_value(text: Seq<char>) -> Option<nat> {
    let digits = if text.len() > 0 && text[0] == '+' {
        text.drop_first()
    } else {
        text
    };
    if digits.len() > 0 && all_digits(digits) {
        Some(digits_value(digits))
    } else {
        None
    }
}

/// The message of the error with which `str::parse::<u8>` refuses a text.
pub uninterp spec fn byte_failure(text: Seq<char>) -> Seq<char>;

/// `str::parse::<u16>`: the number that the text stands for, if it stands for
/// one that fits in 16 bits.
#[verifier::external_body]
pub(crate) fn parse_u16(text: &str) -> (r: Option<u16>)
    ensures
        r is Some <==> (unsigned_value(text@) matches Some(n) && n <= u16::MAX),
        r matches Some(n) ==> unsigned_value(text@) == Some(n as nat),
{
    match text.parse::<u16>() {
        Ok(n) => Some(n),
        Err(_) => None,
    }
}

/// `str::parse::<u8>`: the number that the text stands for, if it stands for
/// one that fits in 8 bits, and else the message of the error.
#[verifier::external_body]
pub(crate) fn parse_u8(text: &str) -> (r: Result<u8, String>)
    ensures
        r is Ok <==> (unsigned_value(text@) matches Some(n) && n <= u8::MAX),
        r matches Ok(n) ==> unsigned_value(text@) == Some(n as nat),
        r matches Err(message) ==> message@ == byte_failure(text@),
{
    match text.parse::<u8>() {
        Ok(n) => Ok(n),
        Err(e) => Err(e.to_string()),
    }
}

} // verus!
