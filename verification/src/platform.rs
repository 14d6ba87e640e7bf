//! The target process as the library sees it: its modules, its readable memory, its host.
use vstd::prelude::*;

use crate::bytes::{get_le16, get_le32, get_le64, le16, le32, le64};
use crate::text::{
    address_chars, address_text, decimal_digits, decimal_text, joined, plain, seen, text_from_utf8,
    utf8_text, Error, Outcome,
};

verus! {

/// A module that is loaded in the target.
#[derive(Debug, Clone)]
pub struct ModuleInfo {
    pub name: String,
    pub base: u64,
    pub size: usize,
}

/// A range of the target's memory that is committed and can be read.
#[derive(Debug, Clone, Copy, PartialEq, Eq, Structural)]
pub struct MemoryRegion {
    pub base: u64,
    pub size: usize,
}

/// What a target's memory holds: the outcome of reading so many bytes at an address.
pub type Contents = spec_fn(u64, nat) -> Outcome<Seq<u8>>;

/// Whether each read that succeeds yields as many bytes as were asked for.
pub open spec fn reads_are_exact(memory: Contents) -> bool {
    forall|address: u64, length: nat| #[trigger]
        memory(address, length) matches Ok(bytes) ==> bytes.len() == length
}

/// What reading a `u16` at `address` yields.
pub open spec fn u16_at(memory: Contents, address: u64) -> Outcome<u16> {
    match memory(address, 2) {
        Ok(bytes) => Ok(le16(bytes)),
        Err(reason) => Err(reason),
    }
}

/// What reading a `u32` at `address` yields.
pub open spec fn u32_at(memory: Contents, address: u64) -> Outcome<u32> {
    match memory(address, 4) {
        Ok(bytes) => Ok(le32(bytes)),
        Err(reason) => Err(reason),
    }
}

/// What reading a `u64` at `address` yields.
pub open spec fn u64_at(memory: Contents, address: u64) -> Outcome<u64> {
    match memory(address, 8) {
        Ok(bytes) => Ok(le64(bytes)),
        Err(reason) => Err(reason),
    }
}

/// The bytes from `address` up to the first zero byte, which has to come within `limit` bytes:
/// `None` when it does not.
pub open spec fn c_bytes_at(memory: Contents, address: u64, limit: nat) -> Outcome<Option<Seq<u8>>>
    decreases limit,
{
    if limit == 0 {
        Ok(None)
    } else {
        match memory(address, 1) {
            Err(reason) => Err(reason),
            Ok(byte) => if byte[0] == 0 {
                Ok(Some(Seq::empty()))
            } else {
                match c_bytes_at(memory, address.wrapping_add(1), (limit - 1) as nat) {
                    Ok(Some(rest)) => Ok(Some(seq![byte[0]] + rest)),
                    other => other,
                }
            },
        }
    }
}

/// What reading a zero-terminated string at `address` yields.
pub open spec fn c_string_at(memory: Contents, address: u64, limit: nat) -> Outcome<Seq<char>> {
    match c_bytes_at(memory, address, limit) {
        Err(reason) => Err(reason),
        Ok(Some(bytes)) => utf8_text(bytes),
        Ok(None) => Err("unterminated string at "@ + address_chars(address)),
    }
}

/// The memory of a target, read by address.
///
/// The contract is that of memory which stands still: what a read yields depends on the address
/// and the length alone. An implementation over a live target has to keep what it has read. No
/// read is promised to succeed.
pub trait RemoteMemory {
    /// What the memory holds. An implementation that does not say leaves it open.
    closed spec fn contents(&self) -> Contents {
        arbitrary()
    }

    /// Fills `destination` from `address`.
    fn read_exact(&self, address: u64, destination: &mut [u8]) -> (result: Result<(), Error>)
        ensures
            final(destination)@.len() == old(destination)@.len(),
            match self.contents()(address, old(destination)@.len()) {
                Ok(bytes) => result is Ok && final(destination)@ == bytes,
                Err(reason) => result matches Err(error) && error@ == reason,
            },
    ;

    /// The `u16` at `address`.
    fn read_u16(&self, address: u64) -> (result: Result<u16, Error>)
        ensures
            seen(result) == u16_at(self.contents(), address),
    {
        let mut bytes = [0u8; 2];
        self.read_exact(address, &mut bytes)?;
        assert(bytes@.subrange(0, 2) =~= bytes@);
        Ok(get_le16(&bytes, 0))
    }

    /// The `u32` at `address`.
    fn read_u32(&self, address: u64) -> (result: Result<u32, Error>)
        ensures
            seen(result) == u32_at(self.contents(), address),
    {
        let mut bytes = [0u8; 4];
        self.read_exact(address, &mut bytes)?;
        assert(bytes@.subrange(0, 4) =~= bytes@);
        Ok(get_le32(&bytes, 0))
    }

    /// The `u64` at `address`.
    fn read_u64(&self, address: u64) -> (result: Result<u64, Error>)
        ensures
            seen(result) == u64_at(self.contents(), address),
    {
        let mut bytes = [0u8; 8];
        self.read_exact(address, &mut bytes)?;
        assert(bytes@.subrange(0, 8) =~= bytes@);
        Ok(get_le64(&bytes, 0))
    }

    /// The zero-terminated string at `address`, of fewer than `max_length` bytes.
    fn read_c_string(&self, address: u64, max_length: usize) -> (result: Result<String, Error>)
        ensures
            seen(result) == c_string_at(self.contents(), address, max_length as nat),
    {
        let mut value: Vec<u8> = Vec::new();
        let mut offset: usize = 0;
        while offset < max_length
            invariant
                offset <= max_length,
                c_bytes_at(self.contents(), address, max_length as nat) == prefixed(
                    value@,
                    c_bytes_at(
                        self.contents(),
                        address.wrapping_add(offset as u64),
                        (max_length - offset) as nat,
                    ),
                ),
            decreases max_length - offset,
        {
            let mut byte = [0u8; 1];
            let at = address.wrapping_add(offset as u64);
            self.read_exact(at, &mut byte)?;
            if byte[0] == 0 {
                assert(value@ + Seq::<u8>::empty() =~= value@);
                return text_from_utf8(value);
            }
            let ghost before = value@;
            value.push(byte[0]);
            proof {
                let rest = c_bytes_at(
                    self.contents(),
                    at.wrapping_add(1),
                    (max_length - offset - 1) as nat,
                );
                if let Ok(Some(tail)) = rest {
                    assert(before + (seq![byte[0]] + tail) =~= value@ + tail);
                }
            }
            offset += 1;
        }
        let location = address_text(address);
        Err(Error { text: joined("unterminated string at ", location.as_str()) })
    }
}

/// The `length` bytes at `address`.
pub fn read_bytes<M: RemoteMemory>(memory: &M, address: u64, length: usize) -> (result: Result<
    Vec<u8>,
    Error,
>)
    ensures
        seen(result) == memory.contents()(address, length as nat),
        result matches Ok(bytes) ==> bytes@.len() == length,
{
    let mut bytes: Vec<u8> = vec![0u8; length];
    memory.read_exact(address, bytes.as_mut_slice())?;
    Ok(bytes)
}

/// `bytes` followed by the bytes of a string whose end was found.
pub open spec fn prefixed(bytes: Seq<u8>, rest: Outcome<Option<Seq<u8>>>) -> Outcome<
    Option<Seq<u8>>,
> {
    match rest {
        Ok(Some(tail)) => Ok(Some(bytes + tail)),
        other => other,
    }
}

/// Whether `bytes` lie from `address` on, one by one, none of them is zero, and the next one is.
pub open spec fn lie_before_a_zero(memory: Contents, address: u64, bytes: Seq<u8>) -> bool {
    &&& forall|i: int|
        0 <= i < bytes.len() ==> #[trigger] bytes[i] != 0 && (memory(
            address.wrapping_add(i as u64),
            1,
        ) matches Ok(byte) && byte[0] == bytes[i])
    &&& memory(address.wrapping_add(bytes.len() as u64), 1) matches Ok(byte)
    &&& byte[0] == 0
}

proof fn one_byte_more_lies_before_a_zero(
    memory: Contents,
    address: u64,
    first: u8,
    rest: Seq<u8>,
)
    requires
        rest.len() < u64::MAX,
    ensures
        lie_before_a_zero(memory, address, seq![first] + rest) <==> {
            &&& first != 0
            &&& memory(address, 1) matches Ok(byte)
            &&& byte[0] == first
            &&& lie_before_a_zero(memory, address.wrapping_add(1), rest)
        },
{
    let bytes = seq![first] + rest;
    let next = address.wrapping_add(1);
    assert(bytes[0] == first);
    assert(address.wrapping_add(0) == address);
    assert(next.wrapping_add(rest.len() as u64) == address.wrapping_add(bytes.len() as u64));
    if lie_before_a_zero(memory, address, bytes) {
        assert forall|i: int| 0 <= i < rest.len() implies #[trigger] rest[i] != 0 && (memory(
            next.wrapping_add(i as u64),
            1,
        ) matches Ok(byte) && byte[0] == rest[i]) by {
            assert(rest[i] == bytes[i + 1]);
            assert(next.wrapping_add(i as u64) == address.wrapping_add((i + 1) as u64));
        }
    }
    if first != 0 && (memory(address, 1) matches Ok(byte) && byte[0] == first)
        && lie_before_a_zero(memory, next, rest) {
        assert forall|i: int| 0 <= i < bytes.len() implies #[trigger] bytes[i] != 0 && (memory(
            address.wrapping_add(i as u64),
            1,
        ) matches Ok(byte) && byte[0] == bytes[i]) by {
            if i > 0 {
                assert(bytes[i] == rest[i - 1]);
                assert(next.wrapping_add((i - 1) as u64) == address.wrapping_add(i as u64));
            }
        }
    }
}

proof fn nothing_lies_before_a_zero(memory: Contents, address: u64)
    ensures
        lie_before_a_zero(memory, address, Seq::empty()) <==> {
            &&& memory(address, 1) matches Ok(byte)
            &&& byte[0] == 0
        },
{
    assert(address.wrapping_add(0) == address);
}

/// The bytes of a zero-terminated string are those that lie from its address on, one by one; none of
/// them is zero, the next one is, and there are fewer of them than were looked at.
pub proof fn c_bytes_end_at_the_first_zero(memory: Contents, address: u64, limit: nat)
    requires
        limit <= usize::MAX,
    ensures
        c_bytes_at(memory, address, limit) matches Ok(Some(bytes)) ==> bytes.len() < limit
            && lie_before_a_zero(memory, address, bytes),
    decreases limit,
{
    if limit > 0 {
        let next = address.wrapping_add(1);
        c_bytes_end_at_the_first_zero(memory, next, (limit - 1) as nat);
        nothing_lies_before_a_zero(memory, address);
        if let Ok(byte) = memory(address, 1) {
            if byte[0] != 0 {
                if let Ok(Some(rest)) = c_bytes_at(memory, next, (limit - 1) as nat) {
                    one_byte_more_lies_before_a_zero(memory, address, byte[0], rest);
                }
            }
        }
    }
}

/// What is known of the rights that this process has: only a Windows host tells.
#[derive(Debug, Clone, Copy, PartialEq, Eq, Structural)]
pub enum Elevation {
    NotWindows,
    Limited,
    Elevated,
}

/// Whether this process may open a target: only with administrator privileges, and only on Windows.
pub fn ensure_elevated(elevation: Elevation) -> (result: Result<(), Error>)
    ensures
        plain(result) == match elevation {
            Elevation::NotWindows => Err("jvm_ext_dumper runs only on Windows"@),
            Elevation::Limited => Err(
                "administrator privileges are required; start CMD or PowerShell as Administrator"@,
            ),
            Elevation::Elevated => Ok(()),
        },
{
    match elevation {
        Elevation::NotWindows => Err(Error::new("jvm_ext_dumper runs only on Windows")),
        Elevation::Limited => Err(
            Error::new(
                "administrator privileges are required; start CMD or PowerShell as Administrator",
            ),
        ),
        Elevation::Elevated => Ok(()),
    }
}

/// Whether a handle that was handed over can be one of a process.
pub fn check_handle(raw_handle: u64, invalid: u64) -> (result: Result<(), Error>)
    ensures
        plain(result) == if raw_handle == 0 || raw_handle == invalid {
            Err("supplied HANDLE is NULL or INVALID_HANDLE_VALUE"@)
        } else {
            Ok(())
        },
{
    if raw_handle == 0 || raw_handle == invalid {
        return Err(Error::new("supplied HANDLE is NULL or INVALID_HANDLE_VALUE"));
    }
    Ok(())
}

/// Whether a handle belongs to the process that it was handed over for.
pub fn check_owner(actual_pid: u32, pid: u32) -> (result: Result<(), Error>)
    ensures
        plain(result) == if actual_pid != pid {
            Err(
                "supplied HANDLE belongs to PID "@ + decimal_digits(actual_pid as nat)
                    + ", expected PID "@ + decimal_digits(pid as nat),
            )
        } else {
            Ok(())
        },
{
    if actual_pid != pid {
        let mut text = joined(
            "supplied HANDLE belongs to PID ",
            decimal_text(actual_pid as u64).as_str(),
        );
        text = joined(text.as_str(), ", expected PID ");
        return Err(Error { text: joined(text.as_str(), decimal_text(pid as u64).as_str()) });
    }
    Ok(())
}

/// The state of a range of pages that is backed by memory.
pub const MEM_COMMIT: u32 = 0x1000;

/// The protections of pages that cannot be read: guard pages, and those without access.
pub const PAGE_UNREADABLE: u32 = 0x101;

/// What the host says of the range of pages that an address lies in.
#[derive(Debug, Clone, Copy, PartialEq, Eq, Structural)]
pub struct PageRange {
    pub base: usize,
    pub size: usize,
    pub state: u32,
    pub protect: u32,
}

/// Whether a range is memory that can be read.
pub open spec fn is_readable(range: PageRange) -> bool {
    range.state == MEM_COMMIT && range.protect & PAGE_UNREADABLE == 0 && range.size != 0
}

/// Where to ask next once `range` was told for `address`: behind the range, if that is further on.
pub open spec fn next_query(address: usize, range: PageRange) -> Option<usize> {
    if range.base + range.size <= usize::MAX && range.base + range.size > address {
        Some((range.base + range.size) as usize)
    } else {
        None
    }
}

/// A walk through the address space of a target, range by range.
#[derive(Debug)]
pub struct RegionWalk {
    pub address: usize,
    pub regions: Vec<MemoryRegion>,
}

impl RegionWalk {
    /// A walk from the lowest address on.
    pub fn new() -> (walk: Self)
        ensures
            walk.address == 0,
            walk.regions@ == Seq::<MemoryRegion>::empty(),
    {
        Self { address: 0, regions: Vec::new() }
    }

    /// Takes what the host says of the range at the address of the walk, and goes on to the next
    /// one. Whether there is one: the walk only ever goes up, so it ends.
    pub fn step(&mut self, range: &PageRange) -> (more: bool)
        ensures
            final(self).regions@ == if is_readable(*range) {
                old(self).regions@.push(MemoryRegion { base: range.base as u64, size: range.size })
            } else {
                old(self).regions@
            },
            match next_query(old(self).address, *range) {
                Some(next) => more && final(self).address == next,
                None => !more && final(self).address == old(self).address,
            },
            more ==> final(self).address > old(self).address,
    {
        if range.state == MEM_COMMIT && range.protect & PAGE_UNREADABLE == 0 && range.size != 0 {
            self.regions.push(MemoryRegion { base: range.base as u64, size: range.size });
        }
        match range.base.checked_add(range.size) {
            Some(next) => {
                if next <= self.address {
                    return false;
                }
                self.address = next;
                true
            },
            None => false,
        }
    }
}

/// Whether a unit is the first half of a surrogate pair.
pub open spec fn is_high_surrogate(unit: u16) -> bool {
    0xd800 <= unit <= 0xdbff
}

/// Whether a unit is the second half of a surrogate pair.
pub open spec fn is_low_surrogate(unit: u16) -> bool {
    0xdc00 <= unit <= 0xdfff
}

/// The text that UTF-16 units encode, with U+FFFD for each half of a pair that stands alone.
pub open spec fn utf16_text(units: Seq<u16>) -> Seq<char>
    decreases units.len(),
{
    if units.len() == 0 {
        Seq::empty()
    } else if units.len() > 1 && is_high_surrogate(units[0]) && is_low_surrogate(units[1]) {
        seq![(0x1_0000 + (units[0] - 0xd800) * 0x400 + (units[1] - 0xdc00)) as char] + utf16_text(
            units.skip(2),
        )
    } else if is_high_surrogate(units[0]) || is_low_surrogate(units[0]) {
        seq!['\u{fffd}'] + utf16_text(units.skip(1))
    } else {
        seq![units[0] as char] + utf16_text(units.skip(1))
    }
}

/// The units before the first that is zero, or all of them.
pub open spec fn until_zero(units: Seq<u16>) -> Seq<u16>
    decreases units.len(),
{
    if units.len() == 0 || units[0] == 0 {
        Seq::empty()
    } else {
        seq![units[0]] + until_zero(units.skip(1))
    }
}

/// Calls `String::from_utf16_lossy`. Trusted: units outside of surrogate pairs stand for
/// themselves, a pair for the character that it encodes, and a half without its other half is
/// replaced by U+FFFD.
#[verifier::external_body]
fn text_from_utf16(units: &Vec<u16>) -> (text: String)
    ensures
        text@ == utf16_text(units@),
{
    String::from_utf16_lossy(units.as_slice())
}

/// The text in a buffer of UTF-16 units that a zero may end.
pub fn wide_c_string(value: &[u16]) -> (text: String)
    ensures
        text@ == utf16_text(until_zero(value@)),
{
    let mut units: Vec<u16> = Vec::new();
    let mut index: usize = 0;
    proof {
        assert(value@.skip(0) =~= value@);
        assert(units@ + until_zero(value@) =~= until_zero(value@));
    }
    while index < value.len() && value[index] != 0
        invariant
            index <= value@.len(),
            until_zero(value@) == units@ + until_zero(value@.skip(index as int)),
        decreases value@.len() - index,
    {
        let ghost before = units@;
        let ghost rest = until_zero(value@.skip(index + 1));
        units.push(value[index]);
        proof {
            assert(value@.skip(index as int).skip(1) =~= value@.skip(index + 1));
            assert(before + (seq![value@[index as int]] + rest) =~= units@ + rest);
        }
        index += 1;
    }
    assert(units@ + Seq::<u16>::empty() =~= units@);
    text_from_utf16(&units)
}

/// A range can be read if it is committed, is not empty, and is neither without access nor a guard: the
/// bits 0 and 8 of its protection are clear.
pub proof fn ranges_are_readable_by_their_bits(range: PageRange)
    ensures
        is_readable(range) <==> {
            &&& range.state == 0x1000
            &&& range.size > 0
            &&& (range.protect >> 0) & 1 == 0
            &&& (range.protect >> 8) & 1 == 0
        },
{
    let protect = range.protect;
    assert(protect & 0x101 == 0 <==> (protect >> 0) & 1 == 0 && (protect >> 8) & 1 == 0) by (
    bit_vector);
}

/// The next place to ask is right behind a range, unless that is out of the address space or not
/// further on.
pub proof fn walk_goes_on_behind_the_range(address: usize, range: PageRange, next: usize)
    ensures
        next_query(address, range) == Some(next) <==> range.base + range.size == next && next
            > address,
{
}

/// Bytes that lie before a zero are a string if they are fewer than may be looked at.
pub proof fn bytes_before_a_zero_are_a_string(
    memory: Contents,
    address: u64,
    limit: nat,
    bytes: Seq<u8>,
)
    requires
        bytes.len() < limit <= usize::MAX,
        lie_before_a_zero(memory, address, bytes),
    ensures
        c_bytes_at(memory, address, limit) == Ok::<Option<Seq<u8>>, Seq<char>>(Some(bytes)),
    decreases bytes.len(),
{
    if bytes.len() == 0 {
        assert(bytes =~= Seq::<u8>::empty());
        nothing_lies_before_a_zero(memory, address);
    } else {
        let rest = bytes.skip(1);
        assert(bytes =~= seq![bytes[0]] + rest);
        one_byte_more_lies_before_a_zero(memory, address, bytes[0], rest);
        bytes_before_a_zero_are_a_string(
            memory,
            address.wrapping_add(1),
            (limit - 1) as nat,
            rest,
        );
    }
}

/// The units of a text are those before the first zero, or all of them.
pub proof fn units_end_at_the_first_zero(units: Seq<u16>)
    ensures
        until_zero(units).len() <= units.len(),
        forall|i: int|
            0 <= i < until_zero(units).len() ==> #[trigger] until_zero(units)[i] == units[i]
                && units[i] != 0,
        until_zero(units).len() < units.len() ==> units[until_zero(units).len() as int] == 0,
    decreases units.len(),
{
    if units.len() > 0 && units[0] != 0 {
        let rest = units.skip(1);
        units_end_at_the_first_zero(rest);
        let found = until_zero(units);
        let tail = until_zero(rest);
        assert forall|i: int| 0 <= i < found.len() implies #[trigger] found[i] == units[i]
            && units[i] != 0 by {
            if i > 0 {
                assert(found[i] == tail[i - 1]);
                assert(rest[i - 1] == units[i]);
            }
        }
        if found.len() < units.len() {
            assert(rest[tail.len() as int] == units[found.len() as int]);
        }
    }
}

/// Units outside of surrogate pairs are the characters that they number.
pub proof fn plain_units_are_characters(units: Seq<u16>)
    requires
        forall|i: int| 0 <= i < units.len() ==> !(0xd800 <= #[trigger] units[i] <= 0xdfff),
    ensures
        utf16_text(units).len() == units.len(),
        forall|i: int|
            0 <= i < units.len() ==> (#[trigger] utf16_text(units)[i]) as u32 == units[i],
    decreases units.len(),
{
    if units.len() > 0 {
        let rest = units.skip(1);
        assert forall|i: int| 0 <= i < rest.len() implies !(0xd800 <= #[trigger] rest[i]
            <= 0xdfff) by {
            assert(rest[i] == units[i + 1]);
        }
        plain_units_are_characters(rest);
        let text = utf16_text(units);
        let tail = utf16_text(rest);
        assert(!(0xd800 <= units[0] <= 0xdfff));
        assert forall|i: int| 0 <= i < units.len() implies (#[trigger] text[i]) as u32 == units[i] by {
            if i > 0 {
                assert(text[i] == tail[i - 1]);
                assert(rest[i - 1] == units[i]);
            }
        }
    }
}

/// Numbers are read from as many bytes as they have, the first byte being the lowest.
pub proof fn numbers_are_read_low_byte_first(memory: Contents, address: u64)
    ensures
        u16_at(memory, address) matches Ok(value) ==> (memory(address, 2) matches Ok(bytes) && value
            == bytes[0] + 0x100 * bytes[1]),
        u32_at(memory, address) matches Ok(value) ==> (memory(address, 4) matches Ok(bytes) && value
            == bytes[0] + 0x100 * bytes[1] + 0x1_0000 * bytes[2] + 0x100_0000 * bytes[3]),
        u64_at(memory, address) matches Ok(value) ==> (memory(address, 8) matches Ok(bytes) && value
            == le32(bytes) + 0x1_0000_0000 * le32(bytes.skip(4))),
        u16_at(memory, address) is Ok <==> memory(address, 2) is Ok,
        u32_at(memory, address) is Ok <==> memory(address, 4) is Ok,
        u64_at(memory, address) is Ok <==> memory(address, 8) is Ok,
{
}

/// A character beyond the first 65536 is read back from the two units that it is split into: ten bits
/// behind 0xd800, and the ten lower ones behind 0xdc00.
pub proof fn pairs_are_read_back(c: char, rest: Seq<u16>)
    requires
        c as int >= 0x1_0000,
    ensures
        ({
            let high = (0xd800 + (c as int - 0x1_0000) / 0x400) as u16;
            let low = (0xdc00 + (c as int - 0x1_0000) % 0x400) as u16;
            utf16_text(seq![high, low] + rest) == seq![c] + utf16_text(rest)
        }),
{
    let high = (0xd800 + (c as int - 0x1_0000) / 0x400) as u16;
    let low = (0xdc00 + (c as int - 0x1_0000) % 0x400) as u16;
    let units = seq![high, low] + rest;
    assert(high == 0xd800 + (c as int - 0x1_0000) / 0x400);
    assert(low == 0xdc00 + (c as int - 0x1_0000) % 0x400);
    assert((high - 0xd800) * 0x400 + (low - 0xdc00) == c as int - 0x1_0000);
    assert(units[0] == high && units[1] == low);
    assert(units.skip(2) =~= rest);
}

/// Half of a pair that stands alone is read as U+FFFD: a second half that comes first, and a first half
/// that no second half follows.
pub proof fn single_halves_are_replaced(unit: u16, rest: Seq<u16>)
    requires
        0xdc00 <= unit < 0xe000 || (0xd800 <= unit < 0xdc00 && (rest.len() == 0 || !(0xdc00
            <= rest[0] < 0xe000))),
    ensures
        utf16_text(seq![unit] + rest) == seq!['\u{fffd}'] + utf16_text(rest),
{
    let units = seq![unit] + rest;
    assert(units.skip(1) =~= rest);
    if rest.len() > 0 {
        assert(units[1] == rest[0]);
    }
}

} // verus!
