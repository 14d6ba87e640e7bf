//! How regions are read: in chunks, and in pages where a chunk cannot be read.
use vstd::prelude::*;

use super::scan::{chunk_pieces, holds_symbol, region_pieces, runs, Run};
use super::shape::{is_symbol_of, symbols_are_recognized};
use crate::pages::{least, Piece};
use crate::platform::{Contents, MemoryRegion};

verus! {

/// The bytes of chunk `index` of a region: four MiB, or what is left.
pub open spec fn chunk_size(region: MemoryRegion, index: nat) -> nat {
    if region.size - 0x40_0000 * index < 0x40_0000 {
        (region.size - 0x40_0000 * index) as nat
    } else {
        0x40_0000
    }
}

/// The pieces of the chunk at some byte of a region come before those of the rest.
proof fn chunk_comes_first(memory: Contents, region: MemoryRegion, from: nat)
    requires
        from < region.size,
    ensures
        ({
            let length = least(0x40_0000, (region.size - from) as nat);
            region_pieces(memory, region, from) == chunk_pieces(
                memory,
                region.base.wrapping_add(from as u64),
                length,
            ) + region_pieces(memory, region, from + length)
        }),
{
}

proof fn chunk_is_among_the_pieces(
    memory: Contents,
    region: MemoryRegion,
    from: nat,
    index: nat,
) -> (at: int)
    requires
        from + 0x40_0000 * index < region.size,
    ensures
        ({
            let place = from + 0x40_0000 * index;
            let pieces = region_pieces(memory, region, from);
            let chunk = chunk_pieces(
                memory,
                region.base.wrapping_add(place as u64),
                least(0x40_0000, (region.size - place) as nat),
            );
            &&& 0 <= at
            &&& at + chunk.len() <= pieces.len()
            &&& pieces.subrange(at, at + chunk.len()) == chunk
        }),
    decreases index,
{
    chunk_comes_first(memory, region, from);
    let length = least(0x40_0000, (region.size - from) as nat);
    let first = chunk_pieces(memory, region.base.wrapping_add(from as u64), length);
    let rest = region_pieces(memory, region, from + length);
    let pieces = region_pieces(memory, region, from);
    if index == 0 {
        assert(pieces.subrange(0, first.len() as int) =~= first);
        0
    } else {
        let before = (index - 1) as nat;
        assert(length == 0x40_0000);
        assert(from + length + 0x40_0000 * before == from + 0x40_0000 * index);
        let at = chunk_is_among_the_pieces(memory, region, from + length, before);
        let place = from + 0x40_0000 * index;
        let chunk = chunk_pieces(
            memory,
            region.base.wrapping_add(place as u64),
            least(0x40_0000, (region.size - place) as nat),
        );
        assert(pieces.subrange(first.len() + at, first.len() + at + chunk.len())
            =~= rest.subrange(at, at + chunk.len()));
        first.len() + at
    }
}

/// A region is read in chunks of four MiB, none of which is left out: the pieces of each are among those
/// of the region, one after the other.
pub proof fn regions_are_read_in_chunks(memory: Contents, region: MemoryRegion, index: nat) -> (at:
    int)
    requires
        0x40_0000 * index < region.size,
    ensures
        ({
            let pieces = region_pieces(memory, region, 0);
            let chunk = chunk_pieces(
                memory,
                region.base.wrapping_add((0x40_0000 * index) as u64),
                chunk_size(region, index),
            );
            &&& 0 <= at
            &&& at + chunk.len() <= pieces.len()
            &&& pieces.subrange(at, at + chunk.len()) == chunk
        }),
{
    chunk_is_among_the_pieces(memory, region, 0, index)
}

/// A chunk that can be read is one piece with all of its bytes.
pub proof fn readable_chunks_are_one_piece(
    memory: Contents,
    address: u64,
    size: nat,
    bytes: Seq<u8>,
)
    requires
        memory(address, size) == Ok::<Seq<u8>, Seq<char>>(bytes),
    ensures
        chunk_pieces(memory, address, size) == seq![Piece { address, bytes: Some(bytes) }],
{
}

/// Pieces that could be read one after the other make up one run, which has their bytes and starts where
/// the first of them does.
pub proof fn readable_pieces_make_one_run(pieces: Seq<Piece>, piece: Piece, bytes: Seq<u8>)
    requires
        pieces.len() > 0,
        forall|i: int|
            0 <= i < pieces.len() ==> ((#[trigger] pieces[i]).bytes matches Some(read) && read.len()
                > 0),
        piece.bytes == Some(bytes),
    ensures
        runs(pieces).len() == 1,
        runs(pieces)[0].base == pieces[0].address,
        runs(pieces)[0].bytes.len() > 0,
        runs(pieces.push(piece)).len() == 1,
        runs(pieces.push(piece))[0] == (Run {
            base: pieces[0].address,
            bytes: runs(pieces)[0].bytes + bytes,
        }),
    decreases pieces.len(),
{
    let last = pieces.last();
    let before = pieces.drop_last();
    let read = last.bytes->Some_0;
    assert(pieces[pieces.len() - 1].bytes is Some);
    assert(before.push(last) =~= pieces);
    if before.len() > 0 {
        assert forall|i: int| 0 <= i < before.len() implies ((
        #[trigger] before[i]).bytes matches Some(read) && read.len() > 0) by {
            assert(pieces[i] == before[i]);
        }
        readable_pieces_make_one_run(before, last, read);
        assert(before[0] == pieces[0]);
    } else {
        assert(before =~= Seq::<Piece>::empty());
        assert(runs(before).len() == 1);
        assert(runs(before).drop_last() =~= Seq::<Run>::empty());
        assert(runs(pieces) =~= seq![Run { base: last.address, bytes: Seq::empty() + read }]);
        assert(Seq::<u8>::empty() + read =~= read);
    }
    assert(pieces.push(piece).drop_last() =~= pieces);
    assert(runs(pieces).drop_last() =~= Seq::<Run>::empty());
}

/// A piece that could not be read ends a run: what was read before is left as it is, and what follows
/// starts anew.
pub proof fn unreadable_pieces_end_a_run(pieces: Seq<Piece>, piece: Piece)
    requires
        piece.bytes is None,
    ensures
        runs(pieces.push(piece)).len() == runs(pieces).len() + 1,
        runs(pieces.push(piece)).drop_last() == runs(pieces),
        runs(pieces.push(piece)).last().bytes.len() == 0,
{
    assert(pieces.push(piece).drop_last() =~= pieces);
    assert(runs(pieces.push(piece)).drop_last() =~= runs(pieces));
}

/// A text that was found is that of a symbol if it lies at a multiple of eight, eight bytes behind the
/// start of a symbol of that text.
pub proof fn symbols_start_before_their_text(
    memory: Contents,
    body: Seq<u8>,
    base: u64,
    position: nat,
)
    ensures
        ({
            let text = base.wrapping_add(position as u64);
            holds_symbol(memory, body, base, position) <==> text >= 8 && text % 8 == 0
                && is_symbol_of(memory, (text - 8) as u64, body)
        }),
{
    let text = base.wrapping_add(position as u64);
    symbols_are_recognized(memory, (text - 8) as u64, body);
}

} // verus!
