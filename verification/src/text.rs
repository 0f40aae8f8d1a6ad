//! Reading of numbers and names from command-line words.

use vstd::prelude::*;
use vstd::string::{StrSliceExecFns, StringExecFns};

verus! {

/// The command-line words as sequences of characters.
pub open spec fn words(args: Seq<String>) -> Seq<Seq<char>> {
    args.map_values(|word: String| word@)
}

/// What a function that reads settings gave, as mathematical values: the
/// view of what it made, or the text of its message.
pub open spec fn outcome<T: View>(got: Result<T, &'static str>) -> Result<T::V, Seq<char>> {
    match got {
        Ok(made) => Ok(made@),
        Err(message) => Err(message@),
    }
}

/// Whether `c` is one of the digits `0` to `9`.
pub open spec fn is_digit(c: char) -> bool {
    '0' <= c && c <= '9'
}

/// The value of a digit.
pub open spec fn digit_value(c: char) -> int {
    c as int - '0' as int
}

/// Whether every character is a digit.
pub open spec fn all_digits(digits: Seq<char>) -> bool {
    forall|i: int| 0 <= i < digits.len() ==> is_digit(#[trigger] digits[i])
}

/// The number that a string of digits writes in base ten.
pub open spec fn decimal_value(digits: Seq<char>) -> int
    decreases digits.len(),
{
    if digits.len() == 0 {
        0
    } else {
        decimal_value(digits.drop_last()) * 10 + digit_value(digits.last())
    }
}

/// Whether two strings hold the same characters.
pub fn str_eq(a: &str, b: &str) -> (same: bool)
    ensures
        same == (a@ == b@),
{
    let n = a.unicode_len();
    if n != b.unicode_len() {
        return false;
    }
    let mut i: usize = 0;
    while i < n
        invariant
            n == a@.len(),
            n == b@.len(),
            0 <= i <= n,
            forall|j: int| 0 <= j < i ==> a@[j] == b@[j],
        decreases n - i,
    {
        if a.get_char(i) != b.get_char(i) {
            return false;
        }
        i = i + 1;
    }
    assert(a@ =~= b@);
    true
}

fn digit_of(c: char) -> (d: Option<u8>)
    ensures
        d.is_some() == is_digit(c),
        is_digit(c) ==> d == Some(digit_value(c) as u8) && 0 <= digit_value(c) <= 9,
{
    if c >= '0' && c <= '9' {
        Some((c as u32 - '0' as u32) as u8)
    } else {
        None
    }
}

/// Adding a digit to a string of digits multiplies its value by ten and
/// adds the digit.
proof fn lemma_decimal_step(digits: Seq<char>, n: int)
    requires
        0 <= n < digits.len(),
    ensures
        decimal_value(digits.take(n + 1)) == decimal_value(digits.take(n)) * 10 + digit_value(
            digits[n],
        ),
{
    assert(digits.take(n + 1).drop_last() == digits.take(n));
}

/// The first digits of a string of digits write a number that is not
/// negative and not above that of the whole.
proof fn lemma_decimal_prefix(digits: Seq<char>, n: int)
    requires
        all_digits(digits),
        0 <= n <= digits.len(),
    ensures
        0 <= decimal_value(digits.take(n)) <= decimal_value(digits),
    decreases digits.len(),
{
    if n == digits.len() {
        assert(digits.take(n) == digits);
        if n > 0 {
            assert(is_digit(digits[n - 1]));
            lemma_decimal_prefix(digits.drop_last(), n - 1);
            assert(digits.drop_last().take(n - 1) == digits.drop_last());
        }
    } else {
        assert(is_digit(digits[digits.len() - 1]));
        lemma_decimal_prefix(digits.drop_last(), n);
        assert(digits.drop_last().take(n) == digits.take(n));
    }
}

/// The digits of an unsigned number: the text without a leading `+`.
pub open spec fn unsigned_digits(text: Seq<char>) -> Seq<char> {
    if text.len() > 0 && text[0] == '+' {
        text.drop_first()
    } else {
        text
    }
}

/// The number that `text` writes: an optional `+`, then one digit or more
/// and nothing else, with a value that a `usize` can hold.
pub open spec fn parsed_usize(text: Seq<char>) -> Option<usize> {
    let digits = unsigned_digits(text);
    if digits.len() > 0 && all_digits(digits) && decimal_value(digits) <= usize::MAX {
        Some(decimal_value(digits) as usize)
    } else {
        None
    }
}

/// Reads a `usize` written in base ten.
pub fn parse_usize(text: &str) -> (value: Option<usize>)
    ensures
        value == parsed_usize(text@),
{
    let n = text.unicode_len();
    let start: usize = if n > 0 && text.get_char(0) == '+' {
        1
    } else {
        0
    };
    if start == n {
        return None;
    }
    let ghost digits = unsigned_digits(text@);
    let mut acc: usize = 0;
    let mut i: usize = start;
    assert(digits.take(0) == Seq::<char>::empty());
    while i < n
        invariant
            n == text@.len(),
            start <= i <= n,
            start <= 1,
            digits == unsigned_digits(text@),
            digits.len() == n - start,
            forall|j: int| 0 <= j < digits.len() ==> digits[j] == text@[start + j],
            all_digits(digits.take(i - start)),
            acc == decimal_value(digits.take(i - start)),
        decreases n - i,
    {
        let digit = match digit_of(text.get_char(i)) {
            Some(d) => d as usize,
            None => {
                assert(!is_digit(digits[i - start]));
                return None;
            },
        };
        proof {
            lemma_decimal_step(digits, i - start);
            assert forall|j: int| 0 <= j < i - start + 1 implies is_digit(
                #[trigger] digits.take(i - start + 1)[j],
            ) by {
                if j < i - start {
                    assert(digits.take(i - start)[j] == digits[j]);
                }
            }
        }
        if acc > (usize::MAX - digit) / 10 {
            proof {
                if all_digits(digits) {
                    lemma_decimal_prefix(digits, i - start + 1);
                }
            }
            return None;
        }
        acc = acc * 10 + digit;
        i = i + 1;
    }
    assert(digits.take(n - start) == digits);
    Some(acc)
}

/// Whether the text begins with a sign.
pub open spec fn has_sign(text: Seq<char>) -> bool {
    text.len() > 0 && (text[0] == '+' || text[0] == '-')
}

/// The digits of a signed number: the text without its sign.
pub open spec fn signed_digits(text: Seq<char>) -> Seq<char> {
    if has_sign(text) {
        text.drop_first()
    } else {
        text
    }
}

/// The number that the text writes, whatever its size.
pub open spec fn signed_value(text: Seq<char>) -> int {
    if text.len() > 0 && text[0] == '-' {
        -decimal_value(signed_digits(text))
    } else {
        decimal_value(signed_digits(text))
    }
}

/// The number that `text` writes: an optional `+` or `-`, then one digit
/// or more and nothing else, with a value that an `i32` can hold.
pub open spec fn parsed_i32(text: Seq<char>) -> Option<i32> {
    let digits = signed_digits(text);
    if digits.len() > 0 && all_digits(digits) && i32::MIN <= signed_value(text) <= i32::MAX {
        Some(signed_value(text) as i32)
    } else {
        None
    }
}

/// Reads an `i32` written in base ten.
pub fn parse_i32(text: &str) -> (value: Option<i32>)
    ensures
        value == parsed_i32(text@),
{
    let n = text.unicode_len();
    let mut negative = false;
    let mut start: usize = 0;
    if n > 0 {
        let sign = text.get_char(0);
        if sign == '-' {
            negative = true;
            start = 1;
        } else if sign == '+' {
            start = 1;
        }
    }
    if start == n {
        return None;
    }
    let ghost digits = signed_digits(text@);
    let mut acc: i64 = 0;
    let mut i: usize = start;
    assert(digits.take(0) == Seq::<char>::empty());
    while i < n
        invariant
            n == text@.len(),
            start <= i <= n,
            start <= 1,
            digits == signed_digits(text@),
            digits.len() == n - start,
            forall|j: int| 0 <= j < digits.len() ==> digits[j] == text@[start + j],
            all_digits(digits.take(i - start)),
            acc == decimal_value(digits.take(i - start)),
            0 <= acc <= 0x8000_0000,
        decreases n - i,
    {
        let digit = match digit_of(text.get_char(i)) {
            Some(d) => d as i64,
            None => {
                assert(!is_digit(digits[i - start]));
                return None;
            },
        };
        proof {
            lemma_decimal_step(digits, i - start);
            assert forall|j: int| 0 <= j < i - start + 1 implies is_digit(
                #[trigger] digits.take(i - start + 1)[j],
            ) by {
                if j < i - start {
                    assert(digits.take(i - start)[j] == digits[j]);
                }
            }
        }
        let next: i64 = acc * 10 + digit;
        if next > 0x8000_0000 {
            proof {
                if all_digits(digits) {
                    lemma_decimal_prefix(digits, i - start + 1);
                }
            }
            return None;
        }
        acc = next;
        i = i + 1;
    }
    assert(digits.take(n - start) == digits);
    if negative {
        Some((-acc) as i32)
    } else if acc <= 0x7fff_ffff {
        Some(acc as i32)
    } else {
        None
    }
}

/// What a name becomes in lower case, as `str::to_lowercase` computes it.
pub uninterp spec fn lowercase(text: Seq<char>) -> Seq<char>;

/// `str::to_lowercase`: the result is named `lowercase` of the argument,
/// and nothing more is claimed of it.
#[verifier::external_body]
pub(crate) fn to_lowercase(text: &str) -> (lower: String)
    ensures
        lower@ == lowercase(text@),
{
    text.to_lowercase()
}

/// The character that writes the digit `d`.
pub open spec fn digit_char(d: int) -> char {
    if d == 0 {
        '0'
    } else if d == 1 {
        '1'
    } else if d == 2 {
        '2'
    } else if d == 3 {
        '3'
    } else if d == 4 {
        '4'
    } else if d == 5 {
        '5'
    } else if d == 6 {
        '6'
    } else if d == 7 {
        '7'
    } else if d == 8 {
        '8'
    } else {
        '9'
    }
}

/// The digits that write `n` in base ten, without leading zeros.
pub open spec fn decimal_digits(n: nat) -> Seq<char>
    decreases n,
{
    if n < 10 {
        seq![digit_char(n as int)]
    } else {
        decimal_digits(n / 10).push(digit_char((n % 10) as int))
    }
}

/// `n` in base ten, with zeros in front of it up to `width` characters.
pub open spec fn padded_decimal(n: nat, width: nat) -> Seq<char> {
    let digits = decimal_digits(n);
    if digits.len() >= width {
        digits
    } else {
        Seq::new((width - digits.len()) as nat, |i: int| '0') + digits
    }
}

fn digit_text(d: usize) -> (text: &'static str)
    requires
        d < 10,
    ensures
        text@ == seq![digit_char(d as int)],
{
    proof {
        reveal_strlit("0");
        reveal_strlit("1");
        reveal_strlit("2");
        reveal_strlit("3");
        reveal_strlit("4");
        reveal_strlit("5");
        reveal_strlit("6");
        reveal_strlit("7");
        reveal_strlit("8");
        reveal_strlit("9");
    }
    let text = if d == 0 {
        "0"
    } else if d == 1 {
        "1"
    } else if d == 2 {
        "2"
    } else if d == 3 {
        "3"
    } else if d == 4 {
        "4"
    } else if d == 5 {
        "5"
    } else if d == 6 {
        "6"
    } else if d == 7 {
        "7"
    } else if d == 8 {
        "8"
    } else {
        "9"
    };
    assert(text@ =~= seq![digit_char(d as int)]);
    text
}

/// Appends `n` in base ten.
pub fn push_decimal(out: &mut String, n: usize)
    ensures
        final(out)@ == old(out)@ + decimal_digits(n as nat),
    decreases n,
{
    if n >= 10 {
        push_decimal(out, n / 10);
    }
    out.append(digit_text(n % 10));
}

/// The number of digits that write `n` in base ten.
pub fn decimal_len(n: usize) -> (len: usize)
    ensures
        len == decimal_digits(n as nat).len(),
        1 <= len <= n + 1,
    decreases n,
{
    if n >= 10 {
        decimal_len(n / 10) + 1
    } else {
        1
    }
}

/// Appends `n` in base ten, with zeros in front of it up to `width`
/// characters.
pub fn push_padded(out: &mut String, n: usize, width: usize)
    ensures
        final(out)@ == old(out)@ + padded_decimal(n as nat, width as nat),
{
    let len = decimal_len(n);
    let ghost start = out@;
    let mut written: usize = len;
    proof {
        reveal_strlit("0");
        assert(Seq::new(0, |i: int| '0') == Seq::<char>::empty());
    }
    while written < width
        invariant
            len <= written,
            written <= width || written == len,
            out@ == start + Seq::new((written - len) as nat, |i: int| '0'),
            "0"@ == seq!['0'],
        decreases width - written,
    {
        out.append("0");
        written = written + 1;
        assert(out@ == start + Seq::new((written - len) as nat, |i: int| '0'));
    }
    push_decimal(out, n);
    assert(out@ == start + padded_decimal(n as nat, width as nat));
}

/// The name of the file that holds the pictures `first..=last`: the
/// prefix, the two indices with four digits or more, and the extension.
pub open spec fn range_name(
    prefix: Seq<char>,
    first: nat,
    last: nat,
    extension: Seq<char>,
) -> Seq<char> {
    prefix + seq!['_'] + padded_decimal(first, 4) + seq!['_'] + padded_decimal(last, 4) + seq![
        '.',
    ] + extension
}

/// Builds the name of the file that holds the pictures `first..=last`.
pub fn make_range_name(prefix: &str, first: usize, last: usize, extension: &str) -> (name: String)
    ensures
        name@ == range_name(prefix@, first as nat, last as nat, extension@),
{
    proof {
        reveal_strlit("_");
        reveal_strlit(".");
        assert("_"@ =~= seq!['_']);
        assert("."@ =~= seq!['.']);
    }
    let mut name = String::from_str(prefix);
    name.append("_");
    push_padded(&mut name, first, 4);
    name.append("_");
    push_padded(&mut name, last, 4);
    name.append(".");
    name.append(extension);
    name
}

/// A number in base ten, with `-` in front of it where it is negative.
pub open spec fn signed_decimal(value: int) -> Seq<char> {
    if value < 0 {
        seq!['-'] + decimal_digits((-value) as nat)
    } else {
        decimal_digits(value as nat)
    }
}

/// Appends `value` in base ten, with its sign where it is negative.
pub fn push_signed(out: &mut String, value: i32)
    ensures
        final(out)@ == old(out)@ + signed_decimal(value as int),
{
    if value < 0 {
        proof {
            reveal_strlit("-");
            assert("-"@ =~= seq!['-']);
        }
        out.append("-");
        let magnitude: i64 = -(value as i64);
        push_decimal(out, magnitude as usize);
        assert(out@ == old(out)@ + signed_decimal(value as int));
    } else {
        push_decimal(out, value as usize);
    }
}

} // verus!
