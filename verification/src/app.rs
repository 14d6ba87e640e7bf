//! What the operator asks for, and the index of classes that is written for them.
use vstd::prelude::*;
use vstd::utf8::encode_utf8;

use crate::hotspot::dictionary::{ClassView, DiscoveredClass};
use crate::lists::views;
use crate::text::{
    address_chars, address_is_told_in_full, address_text, are_digits, decimal_digits,
    decimal_digits_give_the_number, digit_worth, plain, plain_characters_are_bytes, with_context,
    Error, Outcome,
};

verus! {

/// The target and the directory that the results go to.
#[derive(Debug, Clone)]
pub struct AppConfig {
    pub pid: u32,
    pub output: String,
}

/// What the digits from `index` on add to a number that so far is `value`: each has to be a decimal
/// digit, and the number may not outgrow 32 bits. The first digit that is wrong decides.
pub open spec fn digits_from(digits: Seq<u8>, index: nat, value: nat) -> Outcome<u32>
    decreases digits.len() - index,
{
    if index >= digits.len() {
        Ok(value as u32)
    } else if !(0x30 <= digits[index as int] <= 0x39) {
        Err("invalid digit found in string"@)
    } else {
        let next = value * 10 + (digits[index as int] - 0x30) as nat;
        if next > u32::MAX {
            Err("number too large to fit in target type"@)
        } else {
            digits_from(digits, index + 1, next)
        }
    }
}

/// The number that a text of decimal digits, with or without a plus sign, stands for.
pub open spec fn number_of(text: Seq<u8>) -> Outcome<u32> {
    if text.len() == 0 {
        Err("cannot parse integer from empty string"@)
    } else if text[0] == 0x2b && text.len() > 1 {
        digits_from(text, 1, 0)
    } else {
        digits_from(text, 0, 0)
    }
}

/// The process id that the operator typed.
pub open spec fn pid_of(text: Seq<char>) -> Outcome<u32> {
    match number_of(encode_utf8(text)) {
        Ok(pid) => Ok(pid),
        Err(reason) => Err(with_context("PID must be an unsigned integer"@, reason)),
    }
}

/// The directory that the operator typed, or the default for none.
pub open spec fn output_of(text: Seq<char>) -> Seq<char> {
    if text.len() == 0 {
        "dump"@
    } else {
        text
    }
}

fn parse_number(text: &[u8]) -> (result: Result<u32, Error>)
    ensures
        plain(result) == number_of(text@),
{
    if text.len() == 0 {
        return Err(Error::new("cannot parse integer from empty string"));
    }
    let mut index: usize = if text[0] == 0x2b && text.len() > 1 {
        1
    } else {
        0
    };
    let mut value: u32 = 0;
    while index < text.len()
        invariant
            index <= text@.len(),
            number_of(text@) == digits_from(text@, index as nat, value as nat),
        decreases text@.len() - index,
    {
        let digit = text[index];
        if digit < 0x30 || digit > 0x39 {
            return Err(Error::new("invalid digit found in string"));
        }
        let next = value as u64 * 10 + (digit - 0x30) as u64;
        if next > 0xffff_ffff {
            return Err(Error::new("number too large to fit in target type"));
        }
        value = next as u32;
        index += 1;
    }
    Ok(value)
}

/// The configuration from what the operator typed for the process id and for the directory, each
/// without blanks around it.
pub fn config_from(pid_text: &str, output_text: &str) -> (result: Result<AppConfig, Error>)
    ensures
        match pid_of(pid_text@) {
            Err(reason) => result matches Err(error) && error@ == reason,
            Ok(pid) => result matches Ok(config) && config.pid == pid && config.output@ == output_of(
                output_text@,
            ),
        },
{
    let pid = match parse_number(pid_text.as_bytes()) {
        Ok(pid) => pid,
        Err(error) => {
            return Err(error.context("PID must be an unsigned integer"));
        },
    };
    let output = if output_text.as_bytes().len() == 0 {
        assert(vstd::utf8::decode_utf8(encode_utf8(output_text@)) == output_text@);
        "dump".to_owned()
    } else {
        output_text.to_owned()
    };
    Ok(AppConfig { pid, output })
}

/// The index of classes: a line for each, with the address of its `Klass` and its name.
pub open spec fn index_of(classes: Seq<ClassView>) -> Seq<char>
    decreases classes.len(),
{
    if classes.len() == 0 {
        Seq::empty()
    } else {
        index_of(classes.drop_last()) + address_chars(classes.last().klass) + " "@
            + classes.last().internal_name + "\n"@
    }
}

/// The index of classes.
pub fn class_index(classes: &Vec<DiscoveredClass>) -> (index: String)
    ensures
        index@ == index_of(views(classes@)),
{
    let mut text = String::new();
    let mut next: usize = 0;
    assert(views(classes@).take(0) =~= Seq::empty());
    while next < classes.len()
        invariant
            next <= classes@.len(),
            text@ == index_of(views(classes@).take(next as int)),
        decreases classes@.len() - next,
    {
        let class = &classes[next];
        assert(views(classes@).take(next + 1).drop_last() =~= views(classes@).take(next as int));
        text.append(address_text(class.klass).as_str());
        text.append(" ");
        text.append(class.internal_name.as_str());
        text.append("\n");
        next += 1;
    }
    assert(views(classes@).take(next as int) =~= views(classes@));
    text
}

/// A text without the plus sign that it may start with.
pub open spec fn without_plus(text: Seq<char>) -> Seq<char> {
    if text.len() > 1 && text[0] == '+' {
        text.skip(1)
    } else {
        text
    }
}

/// Whether a text is a number in decimal: digits, before which a plus sign may stand, that are read as
/// `value`.
pub open spec fn is_decimal(text: Seq<char>, value: u32) -> bool {
    let digits = without_plus(text);
    &&& digits.len() > 0
    &&& forall|i: int| 0 <= i < digits.len() ==> '0' <= #[trigger] digits[i] <= '9'
    &&& crate::text::number_of(digits, 10) == value
}

/// The first digits of a number are read as no more than the whole.
proof fn number_grows(digits: Seq<char>, count: int)
    requires
        0 <= count <= digits.len(),
        forall|i: int| 0 <= i < digits.len() ==> '0' <= #[trigger] digits[i] <= '9',
    ensures
        crate::text::number_of(digits.take(count), 10) <= crate::text::number_of(digits, 10),
    decreases digits.len(),
{
    if count == digits.len() {
        assert(digits.take(count) =~= digits);
    } else {
        let shorter = digits.drop_last();
        assert forall|i: int| 0 <= i < shorter.len() implies '0' <= #[trigger] shorter[i] <= '9' by {
            assert(shorter[i] == digits[i]);
        }
        number_grows(shorter, count);
        assert(shorter.take(count) =~= digits.take(count));
    }
}

proof fn digits_are_read(
    bytes: Seq<u8>,
    digits: Seq<char>,
    start: nat,
    index: nat,
    value: nat,
    number: u32,
)
    requires
        start <= index <= bytes.len(),
        bytes.len() == start + digits.len(),
        forall|i: int|
            0 <= i < digits.len() ==> #[trigger] digits[i] as int == bytes[start + i],
        forall|i: int| 0 <= i < index - start ==> '0' <= #[trigger] digits[i] <= '9',
        value == crate::text::number_of(digits.take(index - start), 10),
        value <= u32::MAX,
    ensures
        digits_from(bytes, index, value) == Ok::<u32, Seq<char>>(number) <==> (forall|i: int|
            0 <= i < digits.len() ==> '0' <= #[trigger] digits[i] <= '9')
            && crate::text::number_of(digits, 10) == number,
    decreases bytes.len() - index,
{
    let at = index - start;
    if index == bytes.len() {
        assert(digits.take(at) =~= digits);
    } else {
        let digit = digits[at];
        assert(digit as int == bytes[index as int]);
        let more = digits.take(at + 1);
        assert(more.drop_last() =~= digits.take(at));
        assert(more.last() == digit);
        if '0' <= digit <= '9' {
            let next = value * 10 + (bytes[index as int] - 0x30) as nat;
            assert(digit_worth(digit) == bytes[index as int] - 0x30);
            assert(crate::text::number_of(more, 10) == next);
            if next <= u32::MAX {
                assert forall|i: int| 0 <= i < at + 1 implies '0' <= #[trigger] digits[i]
                    <= '9' by {}
                digits_are_read(bytes, digits, start, index + 1, next, number);
            } else if forall|i: int|
                0 <= i < digits.len() ==> '0' <= #[trigger] digits[i] <= '9' {
                number_grows(digits, at + 1);
            }
        } else {
            assert(!('0' <= digits[at] <= '9'));
        }
    }
}

proof fn wrong_bytes_are_no_digits(bytes: Seq<u8>, at: int, index: nat, value: nat)
    requires
        index <= at < bytes.len(),
        bytes[at] >= 0x80,
    ensures
        digits_from(bytes, index, value) is Err,
    decreases at - index,
{
    if index < at && 0x30 <= bytes[index as int] <= 0x39 {
        wrong_bytes_are_no_digits(
            bytes,
            at,
            index + 1,
            value * 10 + (bytes[index as int] - 0x30) as nat,
        );
    }
}

/// What the operator typed is taken for a process id if and only if it is a number in decimal of 32
/// bits, and then for that number.
pub proof fn process_ids_are_decimal(text: Seq<char>, pid: u32)
    ensures
        pid_of(text) == Ok::<u32, Seq<char>>(pid) <==> is_decimal(text, pid),
{
    let bytes = encode_utf8(text);
    plain_characters_are_bytes(text);
    if forall|i: int| 0 <= i < text.len() ==> (#[trigger] text[i] as int) < 0x80 {
        let signed = text.len() > 1 && text[0] == '+';
        let start: nat = if signed {
            1
        } else {
            0
        };
        let digits = without_plus(text);
        assert(text.len() > 0 ==> bytes[0] == text[0] as int);
        if text.len() > 0 {
            assert forall|i: int| 0 <= i < digits.len() implies #[trigger] digits[i] as int
                == bytes[start + i] by {
                assert(bytes[start + i] == text[start + i] as int);
            }
            assert(digits.take(0) =~= Seq::<char>::empty());
            digits_are_read(bytes, digits, start, start, 0, pid);
            assert(text[0] == '+' <==> bytes[0] == 0x2b);
        }
    } else {
        let at = choose|i: int| 0 <= i < bytes.len() && !(#[trigger] bytes[i] < 0x80);
        assert(bytes[at] >= 0x80);
        if bytes.len() > 1 && bytes[0] == 0x2b {
            wrong_bytes_are_no_digits(bytes, at, 1, 0);
        } else {
            wrong_bytes_are_no_digits(bytes, at, 0, 0);
        }
        if is_decimal(text, pid) {
            let digits = without_plus(text);
            assert forall|i: int| 0 <= i < text.len() implies (#[trigger] text[i] as int) < 0x80 by {
                if digits.len() < text.len() {
                    if i > 0 {
                        assert(digits[i - 1] == text[i]);
                    }
                } else {
                    assert(digits[i] == text[i]);
                }
            }
        }
    }
}

/// Every process id is taken for itself once it was told in decimal.
pub proof fn told_process_ids_are_read_back(pid: u32)
    ensures
        pid_of(decimal_digits(pid as nat)) == Ok::<u32, Seq<char>>(pid),
{
    let digits = decimal_digits(pid as nat);
    decimal_digits_give_the_number(pid as nat);
    assert(are_digits(digits, 10));
    assert forall|i: int| 0 <= i < digits.len() implies '0' <= #[trigger] digits[i] <= '9' by {}
    assert(digits[0] != '+');
    process_ids_are_decimal(digits, pid);
}

/// The index has a line for each class in order: one with a class behind others has the line of the
/// class behind those of the others. A line is the address in full, a blank, the name and the end of
/// the line.
pub proof fn index_has_a_line_for_each_class(classes: Seq<ClassView>, class: ClassView)
    ensures
        index_of(Seq::empty()).len() == 0,
        ({
            let line = index_of(classes.push(class)).skip(index_of(classes).len() as int);
            &&& index_of(classes.push(class)).take(index_of(classes).len() as int) == index_of(
                classes,
            )
            &&& line.len() == 20 + class.internal_name.len()
            &&& line[0] == '0'
            &&& line[1] == 'x'
            &&& crate::text::number_of(line.subrange(2, 18), 16) == class.klass
            &&& line[18] == ' '
            &&& line.subrange(19, line.len() - 1) == class.internal_name
            &&& line.last() == '\n'
        }),
{
    reveal_strlit(" ");
    reveal_strlit("\n");
    let more = classes.push(class);
    assert(more.drop_last() =~= classes);
    let before = index_of(classes);
    let all = index_of(more);
    let line = all.skip(before.len() as int);
    assert(all == before + address_chars(class.klass) + " "@ + class.internal_name + "\n"@);
    assert(all.take(before.len() as int) =~= before);
    address_is_told_in_full(class.klass);
    let address = address_chars(class.klass);
    assert(line =~= address + " "@ + class.internal_name + "\n"@);
    assert(line.subrange(2, 18) =~= address.skip(2));
    assert(line.subrange(19, line.len() - 1) =~= class.internal_name);
}

/// The results go where the operator says, and to `dump` if they say nothing.
pub proof fn results_go_to_a_directory(text: Seq<char>)
    ensures
        text.len() == 0 ==> output_of(text) == "dump"@,
        text.len() > 0 ==> output_of(text) == text,
{
}

} // verus!
