//! Searching bytes: for a pattern at any position, for words at aligned addresses.
use vstd::prelude::*;

use crate::bytes::{get_le64, le64, little_endian_numbers_have_their_bytes};

verus! {

/// Whether `needle` lies in `haystack` at position `at`.
pub open spec fn occurs_at(haystack: Seq<u8>, needle: Seq<u8>, at: int) -> bool {
    &&& 0 <= at
    &&& at + needle.len() <= haystack.len()
    &&& haystack.subrange(at, at + needle.len()) == needle
}

/// The positions from `from` on at which `needle` lies in `haystack`, in increasing order.
pub open spec fn occurrences_from(haystack: Seq<u8>, needle: Seq<u8>, from: nat) -> Seq<nat>
    decreases haystack.len() - from,
{
    if from >= haystack.len() {
        Seq::empty()
    } else if occurs_at(haystack, needle, from as int) {
        seq![from] + occurrences_from(haystack, needle, from + 1)
    } else {
        occurrences_from(haystack, needle, from + 1)
    }
}

/// The positions at which `needle` lies in `haystack`, in increasing order. They may overlap.
pub open spec fn occurrences(haystack: Seq<u8>, needle: Seq<u8>) -> Seq<nat> {
    occurrences_from(haystack, needle, 0)
}

/// Positions as numbers.
pub open spec fn positions(found: Seq<usize>) -> Seq<nat> {
    Seq::new(found.len(), |i: int| found[i] as nat)
}

fn matches_at(haystack: &[u8], needle: &[u8], at: usize) -> (found: bool)
    requires
        at + needle@.len() <= haystack@.len(),
    ensures
        found == occurs_at(haystack@, needle@, at as int),
{
    let ghost window = haystack@.subrange(at as int, at + needle@.len());
    let mut index: usize = 0;
    while index < needle.len()
        invariant
            index <= needle@.len(),
            at + needle@.len() <= haystack.len(),
            window == haystack@.subrange(at as int, at + needle@.len()),
            forall|i: int| 0 <= i < index ==> window[i] == needle@[i],
        decreases needle@.len() - index,
    {
        assert(window[index as int] == haystack@[at + index]);
        if haystack[at + index] != needle[index] {
            return false;
        }
        index += 1;
    }
    assert(window =~= needle@);
    true
}

/// The positions at which `needle` lies in `haystack`, in increasing order.
pub fn find_subslices(haystack: &[u8], needle: &[u8]) -> (found: Vec<usize>)
    requires
        needle@.len() > 0,
    ensures
        positions(found@) == occurrences(haystack@, needle@),
{
    let mut found: Vec<usize> = Vec::new();
    let mut at: usize = 0;
    assert(positions(found@) + occurrences(haystack@, needle@) =~= occurrences(haystack@, needle@));
    while at < haystack.len() && needle.len() <= haystack.len() - at
        invariant
            needle@.len() > 0,
            at <= haystack@.len(),
            occurrences(haystack@, needle@) == positions(found@) + occurrences_from(
                haystack@,
                needle@,
                at as nat,
            ),
        decreases haystack@.len() - at,
    {
        if matches_at(haystack, needle, at) {
            let ghost before = positions(found@);
            let ghost rest = occurrences_from(haystack@, needle@, (at + 1) as nat);
            found.push(at);
            assert(positions(found@) =~= before.push(at as nat));
            assert(before + (seq![at as nat] + rest) =~= positions(found@) + rest);
        }
        at += 1;
    }
    proof {
        nothing_occurs_from(haystack@, needle@, at as nat);
        assert(positions(found@) + Seq::<nat>::empty() =~= positions(found@));
    }
    found
}

/// A pattern that no longer fits does not occur.
proof fn nothing_occurs_from(haystack: Seq<u8>, needle: Seq<u8>, from: nat)
    requires
        needle.len() > haystack.len() - from,
    ensures
        occurrences_from(haystack, needle, from) == Seq::<nat>::empty(),
    decreases haystack.len() - from,
{
    if from < haystack.len() {
        nothing_occurs_from(haystack, needle, from + 1);
    }
}

/// The positions that are found are exactly those at which the pattern lies, and each is found
/// once, in order.
pub proof fn occurrences_are_complete(haystack: Seq<u8>, needle: Seq<u8>)
    requires
        needle.len() > 0,
    ensures
        forall|at: nat| occurs_at(haystack, needle, at as int) <==> #[trigger] occurrences(
            haystack,
            needle,
        ).contains(at),
        forall|i: int, j: int|
            0 <= i < j < occurrences(haystack, needle).len() ==> occurrences(haystack, needle)[i]
                < occurrences(haystack, needle)[j],
{
    occurrences_complete_from(haystack, needle, 0);
}

proof fn occurrences_complete_from(haystack: Seq<u8>, needle: Seq<u8>, from: nat)
    requires
        needle.len() > 0,
    ensures
        ({
            let found = occurrences_from(haystack, needle, from);
            &&& forall|at: nat|
                from <= at && occurs_at(haystack, needle, at as int) <==> #[trigger] found.contains(
                    at,
                )
            &&& forall|i: int| 0 <= i < found.len() ==> from <= #[trigger] found[i]
            &&& forall|i: int, j: int| 0 <= i < j < found.len() ==> found[i] < found[j]
        }),
    decreases haystack.len() - from,
{
    let found = occurrences_from(haystack, needle, from);
    if from < haystack.len() {
        let rest = occurrences_from(haystack, needle, from + 1);
        occurrences_complete_from(haystack, needle, from + 1);
        if occurs_at(haystack, needle, from as int) {
            assert(found == seq![from] + rest);
            assert forall|at: nat|
                from <= at && occurs_at(haystack, needle, at as int) implies #[trigger] found.contains(
                at,
            ) by {
                if at == from {
                    assert(found[0] == at);
                } else {
                    assert(rest.contains(at));
                    let i = choose|i: int| 0 <= i < rest.len() && rest[i] == at;
                    assert(found[i + 1] == at);
                }
            }
            assert forall|at: nat| #[trigger] found.contains(at) implies from <= at && occurs_at(
                haystack,
                needle,
                at as int,
            ) by {
                let i = choose|i: int| 0 <= i < found.len() && found[i] == at;
                if i > 0 {
                    assert(rest[i - 1] == at);
                    assert(rest.contains(at));
                }
            }
            assert forall|i: int| 0 <= i < found.len() implies from <= #[trigger] found[i] by {
                if i > 0 {
                    assert(found[i] == rest[i - 1]);
                }
            }
            assert forall|i: int, j: int| 0 <= i < j < found.len() implies found[i] < found[j] by {
                assert(found[j] == rest[j - 1]);
                if i > 0 {
                    assert(found[i] == rest[i - 1]);
                }
            }
        }
    }
}

/// How far the first address that is a multiple of eight lies behind `address`.
pub open spec fn to_alignment(address: u64) -> nat {
    ((8 - address % 8) % 8) as nat
}

/// How far the first address that is a multiple of eight lies behind `address`.
pub fn alignment_gap(address: u64) -> (gap: usize)
    ensures
        gap == to_alignment(address),
        gap < 8,
{
    ((8 - address % 8) % 8) as usize
}

/// The word at position `at` of some bytes.
#[verifier::opaque]
pub open spec fn word_at(bytes: Seq<u8>, at: nat) -> u64 {
    le64(bytes.subrange(at as int, (at + 8) as int))
}

/// The word at position `at` of some bytes.
pub fn read_word(bytes: &[u8], at: usize) -> (word: u64)
    requires
        at + 8 <= bytes@.len(),
    ensures
        word == word_at(bytes@, at as nat),
{
    reveal(word_at);
    get_le64(bytes, at)
}

/// The gap leads to the next multiple of eight: less than eight bytes, and none from one that is a
/// multiple itself.
pub proof fn gap_leads_to_the_next_multiple(address: u64)
    ensures
        to_alignment(address) < 8,
        (address + to_alignment(address)) % 8 == 0,
        address % 8 == 0 ==> to_alignment(address) == 0,
{
}

/// A pattern lies at a position if it fits there and each of its bytes is there.
pub proof fn patterns_lie_byte_by_byte(haystack: Seq<u8>, needle: Seq<u8>, at: int)
    ensures
        occurs_at(haystack, needle, at) <==> {
            &&& 0 <= at
            &&& at + needle.len() <= haystack.len()
            &&& forall|i: int| 0 <= i < needle.len() ==> haystack[at + i] == #[trigger] needle[i]
        },
{
    if 0 <= at && at + needle.len() <= haystack.len() {
        let window = haystack.subrange(at, at + needle.len());
        if occurs_at(haystack, needle, at) {
            assert forall|i: int| 0 <= i < needle.len() implies haystack[at + i]
                == #[trigger] needle[i] by {
                assert(window[i] == haystack[at + i]);
            }
        }
        if forall|i: int| 0 <= i < needle.len() ==> haystack[at + i] == #[trigger] needle[i] {
            assert(window =~= needle);
        }
    }
}

/// The word at a position has the eight bytes from there on, the first one being the lowest.
pub proof fn words_have_eight_bytes(bytes: Seq<u8>, at: int)
    requires
        0 <= at,
        at + 8 <= bytes.len(),
    ensures
        word_at(bytes, at as nat) == bytes[at] + 0x100 * bytes[at + 1] + 0x1_0000 * bytes[at + 2]
            + 0x100_0000 * bytes[at + 3] + 0x1_0000_0000 * bytes[at + 4] + 0x100_0000_0000
            * bytes[at + 5] + 0x1_0000_0000_0000 * bytes[at + 6] + 0x100_0000_0000_0000 * bytes[at
            + 7],
{
    reveal(word_at);
    let window = bytes.subrange(at, at + 8);
    little_endian_numbers_have_their_bytes(window);
    assert(window[0] == bytes[at] && window[1] == bytes[at + 1] && window[2] == bytes[at + 2]
        && window[3] == bytes[at + 3] && window[4] == bytes[at + 4] && window[5] == bytes[at + 5]
        && window[6] == bytes[at + 6] && window[7] == bytes[at + 7]);
}

} // verus!
