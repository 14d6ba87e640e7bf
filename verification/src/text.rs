//! Text: failure reasons, number formatting, comparison and decoding.
use vstd::prelude::*;
use vstd::string::*;
use vstd::utf8::*;

verus! {

/// Why a step failed: the text shown to the operator, outermost context first.
#[derive(Debug)]
pub struct Error {
    pub text: String,
}

impl View for Error {
    type V = Seq<char>;

    open spec fn view(&self) -> Seq<char> {
        self.text@
    }
}

/// What a fallible step yields, with the failure taken as its text.
pub type Outcome<T> = Result<T, Seq<char>>;

/// A returned result with its value and its failure taken by their views.
pub open spec fn seen<T: View>(result: Result<T, Error>) -> Outcome<T::V> {
    match result {
        Ok(value) => Ok(value@),
        Err(error) => Err(error@),
    }
}

/// A returned result with its value as it is and its failure taken by its view.
pub open spec fn plain<T>(result: Result<T, Error>) -> Outcome<T> {
    match result {
        Ok(value) => Ok(value),
        Err(error) => Err(error@),
    }
}

/// A failure's text once `outer` has been put in front of it.
pub open spec fn with_context(outer: Seq<char>, cause: Seq<char>) -> Seq<char> {
    outer + ": "@ + cause
}

impl Error {
    /// A failure that reads `text`.
    pub fn new(text: &str) -> (error: Error)
        ensures
            error@ == text@,
    {
        Error { text: text.to_owned() }
    }

    /// The same failure with `outer` in front of it.
    pub fn context(self, outer: &str) -> (error: Error)
        ensures
            error@ == with_context(outer@, self@),
    {
        let mut text = outer.to_owned();
        text.append(": ");
        text.append(self.text.as_str());
        Error { text }
    }
}

/// The text of `first` followed by that of `second`.
pub fn joined(first: &str, second: &str) -> (text: String)
    ensures
        text@ == first@ + second@,
{
    let mut text = first.to_owned();
    text.append(second);
    text
}

/// The lowercase hexadecimal digit of value `digit`.
pub open spec fn digit_char(digit: nat) -> char {
    if digit < 10 {
        ('0' as nat + digit) as char
    } else {
        ('a' as nat + (digit - 10)) as char
    }
}

fn digit_text(digit: u64) -> (text: &'static str)
    requires
        digit < 16,
    ensures
        text@ == seq![digit_char(digit as nat)],
{
    proof {
        reveal_strlit("0");
        reveal_strlit("1");
        reveal_strlit("2");
        reveal_strlit("3");
        reveal_strlit("4");
        reveal_strlit("5");
        reveal_strlit("6");
        reveal_strlit("7");
        reveal_strlit("8");
        reveal_strlit("9");
        reveal_strlit("a");
        reveal_strlit("b");
        reveal_strlit("c");
        reveal_strlit("d");
        reveal_strlit("e");
        reveal_strlit("f");
    }
    match digit {
        0 => "0",
        1 => "1",
        2 => "2",
        3 => "3",
        4 => "4",
        5 => "5",
        6 => "6",
        7 => "7",
        8 => "8",
        9 => "9",
        10 => "a",
        11 => "b",
        12 => "c",
        13 => "d",
        14 => "e",
        _ => "f",
    }
}

/// The low `width` hexadecimal digits of `value`, padded with zeros on the left.
pub open spec fn hex_digits(value: nat, width: nat) -> Seq<char>
    decreases width,
{
    if width == 0 {
        Seq::empty()
    } else {
        hex_digits(value / 16, (width - 1) as nat).push(digit_char(value % 16))
    }
}

/// `value` in hexadecimal, with `width` digits.
pub fn hex_text(value: u64, width: u64) -> (text: String)
    ensures
        text@ == hex_digits(value as nat, width as nat),
    decreases width,
{
    if width == 0 {
        String::new()
    } else {
        let mut text = hex_text(value / 16, width - 1);
        text.append(digit_text(value % 16));
        text
    }
}

/// An address as it is written in messages and in the class index.
pub open spec fn address_chars(address: u64) -> Seq<char> {
    "0x"@ + hex_digits(address as nat, 16)
}

/// `address` as `0x` and sixteen hexadecimal digits.
pub fn address_text(address: u64) -> (text: String)
    ensures
        text@ == address_chars(address),
{
    let digits = hex_text(address, 16);
    joined("0x", digits.as_str())
}

/// The hexadecimal digits of a number, as many as it takes.
pub open spec fn short_hex(value: nat) -> Seq<char>
    decreases value,
{
    if value < 16 {
        seq![digit_char(value)]
    } else {
        short_hex(value / 16).push(digit_char(value % 16))
    }
}

/// The hexadecimal digits of a number, as many as it takes.
pub fn short_hex_text(value: u64) -> (text: String)
    ensures
        text@ == short_hex(value as nat),
    decreases value,
{
    if value < 16 {
        return digit_text(value).to_owned();
    }
    let mut text = short_hex_text(value / 16);
    text.append(digit_text(value % 16));
    text
}

/// The decimal digits of `value`, without leading zeros.
pub open spec fn decimal_digits(value: nat) -> Seq<char>
    decreases value,
{
    if value < 10 {
        seq![digit_char(value)]
    } else {
        decimal_digits(value / 10).push(digit_char(value % 10))
    }
}

/// `value` in decimal.
pub fn decimal_text(value: u64) -> (text: String)
    ensures
        text@ == decimal_digits(value as nat),
    decreases value,
{
    if value < 10 {
        digit_text(value).to_owned()
    } else {
        let mut text = decimal_text(value / 10);
        text.append(digit_text(value % 10));
        text
    }
}

/// Whether two byte strings are equal.
pub fn same_bytes(left: &[u8], right: &[u8]) -> (same: bool)
    ensures
        same == (left@ == right@),
{
    if left.len() != right.len() {
        return false;
    }
    let mut index: usize = 0;
    while index < left.len()
        invariant
            left@.len() == right@.len(),
            index <= left@.len(),
            forall|i: int| 0 <= i < index ==> left@[i] == right@[i],
        decreases left@.len() - index,
    {
        if left[index] != right[index] {
            return false;
        }
        index += 1;
    }
    assert(left@ =~= right@);
    true
}

/// Whether two texts are equal.
pub fn same_text(left: &str, right: &str) -> (same: bool)
    ensures
        same == (left@ == right@),
{
    proof {
        encode_utf8_decode_utf8(left@);
        encode_utf8_decode_utf8(right@);
    }
    same_bytes(left.as_bytes(), right.as_bytes())
}

/// Whether `left` comes no later than `right` in the lexicographic order of bytes.
pub open spec fn bytes_ordered(left: Seq<u8>, right: Seq<u8>) -> bool
    decreases left.len(),
{
    ||| left.len() == 0
    ||| right.len() > 0 && left[0] < right[0]
    ||| right.len() > 0 && left[0] == right[0] && bytes_ordered(left.skip(1), right.skip(1))
}

/// Whether `left` comes no later than `right` in the order of strings, which compares their bytes.
pub open spec fn text_ordered(left: Seq<char>, right: Seq<char>) -> bool {
    bytes_ordered(encode_utf8(left), encode_utf8(right))
}

/// Any two byte strings are ordered one way or the other.
pub proof fn bytes_order_is_total(left: Seq<u8>, right: Seq<u8>)
    ensures
        bytes_ordered(left, right) || bytes_ordered(right, left),
    decreases left.len(),
{
    if left.len() > 0 && right.len() > 0 && left[0] == right[0] {
        bytes_order_is_total(left.skip(1), right.skip(1));
    }
}

/// The order of byte strings chains.
pub proof fn bytes_order_is_transitive(first: Seq<u8>, second: Seq<u8>, third: Seq<u8>)
    requires
        bytes_ordered(first, second),
        bytes_ordered(second, third),
    ensures
        bytes_ordered(first, third),
    decreases first.len(),
{
    if first.len() > 0 && first[0] == second[0] && second[0] == third[0] {
        bytes_order_is_transitive(first.skip(1), second.skip(1), third.skip(1));
    }
}

/// Whether `left` comes no later than `right` in the order of strings.
pub fn text_in_order(left: &str, right: &str) -> (ordered: bool)
    ensures
        ordered == text_ordered(left@, right@),
{
    let a = left.as_bytes();
    let b = right.as_bytes();
    let mut index: usize = 0;
    assert(a@.skip(0) =~= a@);
    assert(b@.skip(0) =~= b@);
    while index < a.len() && index < b.len() && a[index] == b[index]
        invariant
            index <= a@.len(),
            index <= b@.len(),
            bytes_ordered(a@, b@) == bytes_ordered(a@.skip(index as int), b@.skip(index as int)),
        decreases a@.len() - index,
    {
        assert(a@.skip(index as int).skip(1) =~= a@.skip(index + 1));
        assert(b@.skip(index as int).skip(1) =~= b@.skip(index + 1));
        index += 1;
    }
    index == a.len() || (index < b.len() && a[index] < b[index])
}

/// What the standard library says of bytes that are not UTF-8.
pub uninterp spec fn utf8_complaint(bytes: Seq<u8>) -> Seq<char>;

/// The text that `bytes` encode, or the complaint about them.
pub open spec fn utf8_text(bytes: Seq<u8>) -> Outcome<Seq<char>> {
    if valid_utf8(bytes) {
        Ok(decode_utf8(bytes))
    } else {
        Err(utf8_complaint(bytes))
    }
}

/// Calls `String::from_utf8`. Trusted: it succeeds on exactly the byte strings that are valid
/// UTF-8 and then holds the characters that they encode; otherwise the text of its error depends
/// on the bytes alone.
#[verifier::external_body]
pub(crate) fn text_from_utf8(bytes: Vec<u8>) -> (result: Result<String, Error>)
    ensures
        match result {
            Ok(text) => valid_utf8(bytes@) && text@ == decode_utf8(bytes@),
            Err(error) => !valid_utf8(bytes@) && error@ == utf8_complaint(bytes@),
        },
{
    String::from_utf8(bytes).map_err(|error| Error { text: error.to_string() })
}

/// What a digit is worth, those above nine being lower-case letters.
pub open spec fn digit_worth(c: char) -> nat {
    if '0' <= c <= '9' {
        (c as nat - '0' as nat) as nat
    } else {
        (c as nat - 'a' as nat + 10) as nat
    }
}

/// The number that digits of the given base are read as.
pub open spec fn number_of(digits: Seq<char>, base: nat) -> nat
    decreases digits.len(),
{
    if digits.len() == 0 {
        0
    } else {
        number_of(digits.drop_last(), base) * base + digit_worth(digits.last())
    }
}

/// Whether all characters are digits of the given base.
pub open spec fn are_digits(digits: Seq<char>, base: nat) -> bool {
    forall|i: int|
        0 <= i < digits.len() ==> ('0' <= #[trigger] digits[i] <= '9' || 'a' <= digits[i] <= 'f')
            && digit_worth(digits[i]) < base
}

proof fn digits_are_worth_themselves(digit: nat)
    requires
        digit < 16,
    ensures
        digit_worth(digit_char(digit)) == digit,
        '0' <= digit_char(digit) <= '9' || 'a' <= digit_char(digit) <= 'f',
{
}

proof fn one_more_digit(digits: Seq<char>, base: nat, digit: nat)
    requires
        are_digits(digits, base),
        digit < base <= 16,
    ensures
        are_digits(digits.push(digit_char(digit)), base),
        number_of(digits.push(digit_char(digit)), base) == number_of(digits, base) * base + digit,
{
    digits_are_worth_themselves(digit);
    assert(digits.push(digit_char(digit)).drop_last() =~= digits);
}

/// A number in decimal is read as the number that it is, and starts with no zero unless it is zero.
pub proof fn decimal_digits_give_the_number(value: nat)
    ensures
        are_digits(decimal_digits(value), 10),
        number_of(decimal_digits(value), 10) == value,
        decimal_digits(value).len() > 0,
        value > 0 ==> decimal_digits(value)[0] != '0',
    decreases value,
{
    if value < 10 {
        one_more_digit(Seq::empty(), 10, value);
        assert(Seq::<char>::empty().push(digit_char(value)) =~= seq![digit_char(value)]);
    } else {
        decimal_digits_give_the_number(value / 10);
        one_more_digit(decimal_digits(value / 10), 10, value % 10);
    }
}

/// A number in hexadecimal, with as many digits as it takes, is read as the number that it is.
pub proof fn short_hex_gives_the_number(value: nat)
    ensures
        are_digits(short_hex(value), 16),
        number_of(short_hex(value), 16) == value,
        short_hex(value).len() > 0,
        value > 0 ==> short_hex(value)[0] != '0',
    decreases value,
{
    if value < 16 {
        one_more_digit(Seq::empty(), 16, value);
        assert(Seq::<char>::empty().push(digit_char(value)) =~= seq![digit_char(value)]);
    } else {
        short_hex_gives_the_number(value / 16);
        one_more_digit(short_hex(value / 16), 16, value % 16);
    }
}

/// A number of `width` hexadecimal digits has that many, and they are read as the number wherever that
/// many are enough.
pub proof fn hex_digits_give_the_number(value: nat, width: nat)
    ensures
        hex_digits(value, width).len() == width,
        are_digits(hex_digits(value, width), 16),
        value < vstd::arithmetic::power::pow(16, width) ==> number_of(hex_digits(value, width), 16)
            == value,
    decreases width,
{
    reveal(vstd::arithmetic::power::pow);
    if width == 0 {
        assert(vstd::arithmetic::power::pow(16, 0) == 1);
    } else {
        let before = (width - 1) as nat;
        hex_digits_give_the_number(value / 16, before);
        one_more_digit(hex_digits(value / 16, before), 16, value % 16);
        assert(vstd::arithmetic::power::pow(16, width) == 16 * vstd::arithmetic::power::pow(
            16,
            before,
        ));
    }
}

/// An address is told as `0x` and sixteen digits that are read as the address.
pub proof fn address_is_told_in_full(address: u64)
    ensures
        address_chars(address).len() == 18,
        address_chars(address)[0] == '0',
        address_chars(address)[1] == 'x',
        number_of(address_chars(address).skip(2), 16) == address,
{
    reveal_strlit("0x");
    hex_digits_give_the_number(address as nat, 16);
    assert(vstd::arithmetic::power::pow(16, 16) == 0x1_0000_0000_0000_0000) by {
        reveal_with_fuel(vstd::arithmetic::power::pow, 17);
    }
    assert(address_chars(address).skip(2) =~= hex_digits(address as nat, 16));
}

/// In the order of byte strings the first byte that differs decides, and a string comes before its own
/// continuations.
pub proof fn first_difference_decides(
    common: Seq<u8>,
    less: u8,
    more: u8,
    left: Seq<u8>,
    right: Seq<u8>,
)
    requires
        less < more,
    ensures
        bytes_ordered(common.push(less) + left, common.push(more) + right),
        !bytes_ordered(common.push(more) + right, common.push(less) + left),
        bytes_ordered(common, common.push(less) + left),
        !bytes_ordered(common.push(less) + left, common),
    decreases common.len(),
{
    let small = common.push(less) + left;
    let large = common.push(more) + right;
    if common.len() == 0 {
        assert(small[0] == less);
        assert(large[0] == more);
    } else {
        let rest = common.skip(1);
        first_difference_decides(rest, less, more, left, right);
        assert(small[0] == common[0] && large[0] == common[0]);
        assert(small.skip(1) =~= rest.push(less) + left);
        assert(large.skip(1) =~= rest.push(more) + right);
    }
}

/// A character takes between one and four bytes. One below 128 is its own byte; the bytes of any
/// other are all at least 128.
pub proof fn characters_in_bytes(c: char)
    ensures
        c as u32 == c as int,
        1 <= encode_scalar(c as u32).len() <= 4,
        c as u32 >= 0x80 ==> forall|i: int|
            0 <= i < encode_scalar(c as u32).len() ==> #[trigger] encode_scalar(c as u32)[i] >= 0x80,
        (c as u32) < 0x80 ==> encode_scalar(c as u32).len() == 1 && encode_scalar(c as u32)[0]
            == c as u32,
        encode_scalar(c as u32)[0] > 0x20 <==> c > ' ',
        encode_scalar(c as u32)[0] == 0x5b <==> c == '[',
{
    char_is_scalar(c);
    let s = c as u32;
    if has_width_1_encoding(s) {
        assert((s & 0x7f) as u8 == s) by (bit_vector)
            requires
                s <= 0x7f,
        ;
    } else if has_width_2_encoding(s) {
        assert(0xc0u8 | ((s >> 6) & 0x1f) as u8 >= 0x80 && 0x80u8 | (s & 0x3f) as u8 >= 0x80) by (
        bit_vector);
    } else if has_width_3_encoding(s) {
        assert(0xe0u8 | ((s >> 12) & 0x0f) as u8 >= 0x80 && 0x80u8 | ((s >> 6) & 0x3f) as u8
            >= 0x80 && 0x80u8 | (s & 0x3f) as u8 >= 0x80) by (bit_vector);
    } else {
        assert(0xf0u8 | ((s >> 18) & 0x7) as u8 >= 0x80 && 0x80u8 | ((s >> 12) & 0x3f) as u8 >= 0x80
            && 0x80u8 | ((s >> 6) & 0x3f) as u8 >= 0x80 && 0x80u8 | (s & 0x3f) as u8 >= 0x80) by (
        bit_vector);
    }
}

/// A text whose bytes are all below 128 has its characters for bytes, and so has one whose characters
/// are all below 128.
pub proof fn plain_characters_are_bytes(text: Seq<char>)
    ensures
        (forall|i: int| 0 <= i < encode_utf8(text).len() ==> #[trigger] encode_utf8(text)[i] < 0x80)
            <==> (forall|i: int| 0 <= i < text.len() ==> (#[trigger] text[i] as int) < 0x80),
        (forall|i: int| 0 <= i < text.len() ==> (#[trigger] text[i] as int) < 0x80) ==> encode_utf8(
            text,
        ).len() == text.len() && forall|i: int|
            0 <= i < text.len() ==> #[trigger] encode_utf8(text)[i] == text[i] as int,
        encode_utf8(text).len() >= text.len(),
    decreases text.len(),
{
    if text.len() > 0 {
        let rest = text.drop_first();
        let first = encode_scalar(text[0] as u32);
        let bytes = encode_utf8(text);
        let tail = encode_utf8(rest);
        characters_in_bytes(text[0]);
        plain_characters_are_bytes(rest);
        assert(bytes =~= first + tail);
        assert(bytes[0] == first[0]);
        if forall|i: int| 0 <= i < bytes.len() ==> #[trigger] bytes[i] < 0x80 {
            assert(bytes[0] < 0x80);
            assert((text[0] as u32) < 0x80) by {
                if text[0] as u32 >= 0x80 {
                    assert(encode_scalar(text[0] as u32)[0] >= 0x80);
                }
            }
            assert forall|i: int| 0 <= i < tail.len() implies #[trigger] tail[i] < 0x80 by {
                assert(bytes[first.len() + i] == tail[i]);
            }
            assert forall|i: int| 0 <= i < text.len() implies (#[trigger] text[i] as int) < 0x80 by {
                if i > 0 {
                    assert(rest[i - 1] == text[i]);
                }
            }
        }
        if forall|i: int| 0 <= i < text.len() ==> (#[trigger] text[i] as int) < 0x80 {
            assert((text[0] as u32) < 0x80);
            assert forall|i: int| 0 <= i < rest.len() implies (#[trigger] rest[i] as int) < 0x80 by {
                assert(rest[i] == text[i + 1]);
            }
            assert forall|i: int| 0 <= i < text.len() implies #[trigger] bytes[i] == text[i] as int by {
                if i > 0 {
                    assert(bytes[i] == tail[i - 1]);
                    assert(rest[i - 1] == text[i]);
                }
            }
            assert forall|i: int| 0 <= i < bytes.len() implies #[trigger] bytes[i] < 0x80 by {
                assert((text[i] as int) < 0x80);
            }
        }
    }
}

/// A failure in a context reads as the context, a colon, a blank and the failure.
pub proof fn contexts_are_told_before_failures(outer: Seq<char>, cause: Seq<char>)
    ensures
        with_context(outer, cause).len() == outer.len() + 2 + cause.len(),
        with_context(outer, cause).take(outer.len() as int) == outer,
        with_context(outer, cause)[outer.len() as int] == ':',
        with_context(outer, cause)[outer.len() as int + 1] == ' ',
        with_context(outer, cause).skip(outer.len() as int + 2) == cause,
{
    reveal_strlit(": ");
    assert(with_context(outer, cause).take(outer.len() as int) =~= outer);
    assert(with_context(outer, cause).skip(outer.len() as int + 2) =~= cause);
}

} // verus!
