//! Text building blocks: decimal numbers, padding and comparison.

use vstd::prelude::*;
use vstd::string::*;
use vstd::utf8::*;

verus! {

/// The character for a decimal digit.
pub open spec fn digit_char(digit: nat) -> char {
    (48 + digit) as char
}

/// The decimal form of `number`, without leading zeros.
pub open spec fn decimal(number: nat) -> Seq<char>
    decreases number,
{
    if number < 10 {
        seq![digit_char(number)]
    } else {
        decimal(number / 10).push(digit_char(number % 10))
    }
}

/// `count` copies of `fill`.
pub open spec fn repeated(fill: char, count: nat) -> Seq<char> {
    Seq::new(count, |i: int| fill)
}

/// `text` with as many `fill` characters in front as bring it to `width`.
pub open spec fn pad_front(text: Seq<char>, fill: char, width: nat) -> Seq<char> {
    if text.len() < width {
        repeated(fill, (width - text.len()) as nat) + text
    } else {
        text
    }
}

/// `text` with as many `fill` characters behind as bring it to `width`.
pub open spec fn pad_back(text: Seq<char>, fill: char, width: nat) -> Seq<char> {
    if text.len() < width {
        text + repeated(fill, (width - text.len()) as nat)
    } else {
        text
    }
}

/// Whether `text` is one or more decimal digits.
pub open spec fn is_digits(text: Seq<char>) -> bool {
    &&& text.len() > 0
    &&& forall|i: int| 0 <= i < text.len() ==> '0' <= #[trigger] text[i] <= '9'
}

/// The number that a sequence of decimal digits denotes.
pub open spec fn decimal_value(text: Seq<char>) -> nat
    decreases text.len(),
{
    if text.len() == 0 {
        0
    } else {
        10 * decimal_value(text.drop_last()) + (text.last() as nat - 48) as nat
    }
}

/// The decimal form of a number is made of digits and denotes the number.
pub proof fn lemma_decimal_round_trip(number: nat)
    ensures
        is_digits(decimal(number)),
        decimal_value(decimal(number)) == number,
    decreases number,
{
    if number < 10 {
        let text = seq![digit_char(number)];
        assert(text.drop_last() =~= Seq::<char>::empty());
        assert(decimal_value(text.drop_last()) == 0);
    } else {
        lemma_decimal_round_trip(number / 10);
        let front = decimal(number / 10);
        assert(front.push(digit_char(number % 10)).drop_last() =~= front);
    }
}

proof fn lemma_leading_zeros(count: nat, digits: Seq<char>)
    ensures
        decimal_value(repeated('0', count) + digits) == decimal_value(digits),
    decreases digits.len(), count,
{
    let text = repeated('0', count) + digits;
    if digits.len() > 0 {
        assert(text.drop_last() =~= repeated('0', count) + digits.drop_last());
        assert(text.last() == digits.last());
        lemma_leading_zeros(count, digits.drop_last());
    } else if count > 0 {
        assert(text.drop_last() =~= repeated('0', (count - 1) as nat) + digits);
        assert(text.last() == '0');
        lemma_leading_zeros((count - 1) as nat, digits);
    } else {
        assert(text =~= digits);
    }
}

/// Zeros in front of the decimal form of a number do not change what it denotes.
pub proof fn lemma_zero_padding(number: nat, width: nat)
    ensures
        decimal_value(pad_front(decimal(number), '0', width)) == number,
{
    lemma_decimal_round_trip(number);
    if decimal(number).len() < width {
        lemma_leading_zeros((width - decimal(number).len()) as nat, decimal(number));
    }
}

/// Ten raised to `digits`: the first number with more digits.
pub open spec fn pow10(digits: nat) -> nat
    decreases digits,
{
    if digits == 0 {
        1
    } else {
        10 * pow10((digits - 1) as nat)
    }
}

/// A number below ten raised to `digits` has at most as many digits.
pub proof fn lemma_decimal_length(number: nat, digits: nat)
    requires
        0 < digits,
        number < pow10(digits),
    ensures
        decimal(number).len() <= digits,
    decreases digits,
{
    reveal_with_fuel(pow10, 2);
    if number >= 10 {
        lemma_decimal_length(number / 10, (digits - 1) as nat);
    }
}

/// A 128-bit number has at most 39 digits.
pub proof fn lemma_decimal_fits(number: u128)
    ensures
        decimal(number as nat).len() <= 39,
{
    reveal_with_fuel(pow10, 40);
    lemma_decimal_length(number as nat, 39);
}

fn digit_text(digit: u8) -> (text: &'static str)
    requires
        digit < 10,
    ensures
        text@ == seq![digit_char(digit as nat)],
{
    proof {
        reveal_strlit("0");
        reveal_strlit("1");
        reveal_strlit("2");
        reveal_strlit("3");
        reveal_strlit("4");
        reveal_strlit("5");
        reveal_strlit("6");
        reveal_strlit("7");
        reveal_strlit("8");
        reveal_strlit("9");
    }
    match digit {
        0 => "0",
        1 => "1",
        2 => "2",
        3 => "3",
        4 => "4",
        5 => "5",
        6 => "6",
        7 => "7",
        8 => "8",
        _ => "9",
    }
}

/// Renders a number in decimal.
pub fn decimal_text(number: u128) -> (text: String)
    ensures
        text@ == decimal(number as nat),
    decreases number,
{
    if number < 10 {
        let mut text = String::new();
        text.append(digit_text(number as u8));
        text
    } else {
        let mut text = decimal_text(number / 10);
        text.append(digit_text((number % 10) as u8));
        text
    }
}

/// The characters of a text, one by one.
pub fn char_vec(text: &str) -> (chars: Vec<char>)
    ensures
        chars@ == text@,
{
    let mut chars: Vec<char> = Vec::new();
    for c in iter: text.chars()
        invariant
            chars@ == iter.seq().take(iter.index()),
            iter.seq() == text@,
    {
        chars.push(c);
    }
    chars
}

/// Whether two byte sequences are the same.
pub fn same_bytes(left: &[u8], right: &[u8]) -> (same: bool)
    ensures
        same == (left@ == right@),
{
    if left.len() != right.len() {
        return false;
    }
    let mut index: usize = 0;
    while index < left.len()
        invariant
            index <= left@.len() == right@.len(),
            left@.take(index as int) =~= right@.take(index as int),
        decreases left@.len() - index,
    {
        if left[index] != right[index] {
            return false;
        }
        assert(left@.take(index + 1) =~= left@.take(index as int).push(left@[index as int]));
        assert(right@.take(index + 1) =~= right@.take(index as int).push(right@[index as int]));
        index = index + 1;
    }
    assert(left@.take(index as int) =~= left@);
    assert(right@.take(index as int) =~= right@);
    true
}

/// Texts with the same UTF-8 form are the same.
pub proof fn lemma_utf8_injective(left: Seq<char>, right: Seq<char>)
    requires
        encode_utf8(left) == encode_utf8(right),
    ensures
        left == right,
{
    encode_utf8_decode_utf8(left);
    encode_utf8_decode_utf8(right);
}

/// Whether two texts are the same.
pub fn same_text(left: &str, right: &str) -> (same: bool)
    ensures
        same == (left@ == right@),
{
    proof {
        if encode_utf8(left@) == encode_utf8(right@) {
            lemma_utf8_injective(left@, right@);
        }
    }
    same_bytes(left.as_bytes(), right.as_bytes())
}

/// The quoted and escaped form of a text, as its `Debug` impl writes it.
pub uninterp spec fn quoted(text: Seq<char>) -> Seq<char>;

/// Quotes and escapes a text by the `Debug` impl of `str`. What it writes is a
/// function of the text alone; which characters it escapes is left unsaid.
#[verifier::external_body]
pub(crate) fn quoted_text(text: &str) -> (form: String)
    ensures
        form@ == quoted(text@),
{
    format!("{:?}", text)
}

/// Reads bytes as UTF-8 by [std::str::from_utf8], which succeeds on well-formed
/// UTF-8 and on nothing else, and hands out the text that the bytes encode.
#[verifier::external_body]
pub(crate) fn utf8_text(bytes: &[u8]) -> (text: Option<String>)
    ensures
        text is Some <==> valid_utf8(bytes@),
        text matches Some(read) ==> read@ == decode_utf8(bytes@),
{
    match std::str::from_utf8(bytes) {
        Ok(text) => Some(text.to_owned()),
        Err(_) => None,
    }
}

/// Appends `count` copies of a one-character text.
pub fn append_repeated(out: &mut String, fill: &str, count: usize)
    requires
        fill@.len() == 1,
    ensures
        final(out)@ == old(out)@ + repeated(fill@[0], count as nat),
{
    let mut done: usize = 0;
    while done < count
        invariant
            done <= count,
            fill@.len() == 1,
            out@ =~= old(out)@ + repeated(fill@[0], done as nat),
        decreases count - done,
    {
        out.append(fill);
        done = done + 1;
    }
}

/// Appends a text, with blanks in front up to `width` characters.
pub fn append_right_aligned(out: &mut String, text: &str, width: usize)
    ensures
        final(out)@ == old(out)@ + pad_front(text@, ' ', width as nat),
{
    let length: usize = text.unicode_len();
    proof {
        reveal_strlit(" ");
    }
    if length < width {
        append_repeated(out, " ", width - length);
    }
    out.append(text);
    assert(out@ =~= old(out)@ + pad_front(text@, ' ', width as nat));
}

/// Appends a text, with blanks behind it up to `width` characters.
pub fn append_left_aligned(out: &mut String, text: &str, width: usize)
    ensures
        final(out)@ == old(out)@ + pad_back(text@, ' ', width as nat),
{
    let length: usize = text.unicode_len();
    proof {
        reveal_strlit(" ");
    }
    out.append(text);
    if length < width {
        append_repeated(out, " ", width - length);
    }
    assert(out@ =~= old(out)@ + pad_back(text@, ' ', width as nat));
}

/// Renders a number in decimal, with zeros in front up to `width` digits.
pub fn zero_padded(number: usize, width: usize) -> (text: String)
    ensures
        text@ == pad_front(decimal(number as nat), '0', width as nat),
{
    let digits = decimal_text(number as u128);
    let length = digits.as_str().unicode_len();
    let mut text = String::new();
    proof {
        reveal_strlit("0");
    }
    if length < width {
        append_repeated(&mut text, "0", width - length);
    }
    text.append(digits.as_str());
    text
}

/// Whether `part` stands in `text` at the given place.
pub open spec fn reads_at(text: Seq<char>, at: int, part: Seq<char>) -> bool {
    &&& 0 <= at <= at + part.len() <= text.len()
    &&& text.subrange(at, at + part.len()) == part
}

/// A padded text is as wide as it has to be, and holds the text at its one end and only
/// filling at the other.
pub proof fn lemma_padding(text: Seq<char>, fill: char, width: nat)
    ensures
        pad_front(text, fill, width).len() == (if text.len() < width {
            width
        } else {
            text.len()
        }),
        pad_front(text, fill, width).skip(pad_front(text, fill, width).len() - text.len()) == text,
        forall|i: int|
            0 <= i < width - text.len() ==> #[trigger] pad_front(text, fill, width)[i] == fill,
        pad_back(text, fill, width).len() == (if text.len() < width {
            width
        } else {
            text.len()
        }),
        pad_back(text, fill, width).take(text.len() as int) == text,
        forall|i: int|
            text.len() <= i < width ==> #[trigger] pad_back(text, fill, width)[i] == fill,
{
    let front = pad_front(text, fill, width);
    let back = pad_back(text, fill, width);
    assert(front.skip(front.len() - text.len()) =~= text);
    assert(back.take(text.len() as int) =~= text);
}

} // verus!
