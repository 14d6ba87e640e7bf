//! Memory read page by page.
use vstd::prelude::*;

use crate::platform::Contents;

verus! {

/// The size of a page.
pub const PAGE_SIZE: usize = 0x1000;

/// A piece of memory that was read at once: its bytes, unless it could not be read.
pub struct Piece {
    pub address: u64,
    pub bytes: Option<Seq<u8>>,
}

/// What reading `length` bytes at `address` gives as a piece.
pub open spec fn piece_at(memory: Contents, address: u64, length: nat) -> Piece {
    Piece {
        address,
        bytes: match memory(address, length) {
            Ok(bytes) => Some(bytes),
            Err(_) => None,
        },
    }
}

/// The lesser of two numbers.
pub open spec fn least(a: nat, b: nat) -> nat {
    if a < b {
        a
    } else {
        b
    }
}

/// The pages of the `size` bytes at `address`, from the byte `from` on.
pub open spec fn page_pieces(memory: Contents, address: u64, size: nat, from: nat) -> Seq<Piece>
    decreases size - from,
{
    if from >= size {
        Seq::empty()
    } else {
        let length = least(PAGE_SIZE as nat, (size - from) as nat);
        seq![piece_at(memory, address.wrapping_add(from as u64), length)] + page_pieces(
            memory,
            address,
            size,
            from + length,
        )
    }
}

/// The pieces of some memory are its pages of 4096 bytes in order, each with what reading it gives;
/// the last one may be shorter, and none is left out.
pub proof fn pieces_are_pages(memory: Contents, address: u64, size: nat, from: nat)
    ensures
        ({
            let pieces = page_pieces(memory, address, size, from);
            &&& from < size ==> 4096 * (pieces.len() - 1) < size - from <= 4096 * pieces.len()
            &&& from >= size ==> pieces.len() == 0
            &&& forall|i: int|
                0 <= i < pieces.len() ==> #[trigger] pieces[i] == piece_at(
                    memory,
                    address.wrapping_add((from + 4096 * i) as u64),
                    if size - from - 4096 * i < 4096 {
                        (size - from - 4096 * i) as nat
                    } else {
                        4096
                    },
                )
        }),
    decreases size - from,
{
    if from < size {
        let length = least(PAGE_SIZE as nat, (size - from) as nat);
        let rest = page_pieces(memory, address, size, from + length);
        pieces_are_pages(memory, address, size, from + length);
        let pieces = page_pieces(memory, address, size, from);
        assert forall|i: int| 0 <= i < pieces.len() implies #[trigger] pieces[i] == piece_at(
            memory,
            address.wrapping_add((from + 4096 * i) as u64),
            if size - from - 4096 * i < 4096 {
                (size - from - 4096 * i) as nat
            } else {
                4096
            },
        ) by {
            if i > 0 {
                assert(pieces[i] == rest[i - 1]);
                assert(from + length + 4096 * (i - 1) == from + 4096 * i);
            }
        }
    }
}

/// A piece has the bytes that reading it gives, and none if it cannot be read.
pub proof fn piece_is_what_is_read(memory: Contents, address: u64, length: nat, bytes: Seq<u8>)
    ensures
        piece_at(memory, address, length).address == address,
        piece_at(memory, address, length).bytes == Some(bytes) <==> memory(address, length) == Ok::<
            Seq<u8>,
            Seq<char>,
        >(bytes),
{
}

} // verus!
