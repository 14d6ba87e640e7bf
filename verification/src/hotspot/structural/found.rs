//! What the scans of the target's memory find, and that they miss nothing.
use vstd::prelude::*;

use super::layout::is_symbol;
use super::scan::{
    chunk_pieces, distinct, distinct_holds_the_same, first, holds_symbol, region_pieces, runs,
    symbols_at, symbols_found, symbols_in, symbols_in_regions, words_found, words_from, words_in,
    words_in_piece, words_in_regions, Run, SCAN_CHUNK,
};
use crate::pages::{least, page_pieces, Piece, PAGE_SIZE};
use crate::platform::{reads_are_exact, Contents, MemoryRegion};
use crate::search::{occurrences, occurrences_are_complete, occurs_at, to_alignment, word_at};

verus! {

/// Whether a run holds, at `position`, the body of the symbol at `symbol`.
pub open spec fn run_holds(
    memory: Contents,
    body: Seq<u8>,
    run: Run,
    position: nat,
    symbol: u64,
) -> bool {
    &&& occurs_at(run.bytes, body, position as int)
    &&& holds_symbol(memory, body, run.base, position)
    &&& symbol == run.base.wrapping_add(position as u64) - 8
}

/// Whether one of the runs holds the body of the symbol at `symbol`.
pub open spec fn runs_hold(
    memory: Contents,
    body: Seq<u8>,
    runs: Seq<Run>,
    symbol: u64,
) -> bool {
    exists|run: int, position: nat|
        0 <= run < runs.len() && #[trigger] run_holds(memory, body, runs[run], position, symbol)
}

/// Whether one of the regions holds the body of the symbol at `symbol`, wherever in the region it
/// lies: its bytes may have been read in several pieces.
pub open spec fn regions_hold(
    memory: Contents,
    body: Seq<u8>,
    regions: Seq<MemoryRegion>,
    symbol: u64,
) -> bool {
    exists|region: int|
        0 <= region < regions.len() && runs_hold(
            memory,
            body,
            runs(region_pieces(memory, #[trigger] regions[region], 0)),
            symbol,
        )
}

/// A joined list has what one of its parts has.
proof fn joined_contains(a: Seq<u64>, b: Seq<u64>, item: u64)
    ensures
        (a + b).contains(item) <==> a.contains(item) || b.contains(item),
{
    if a.contains(item) {
        let i = choose|i: int| 0 <= i < a.len() && a[i] == item;
        assert((a + b)[i] == item);
    }
    if b.contains(item) {
        let i = choose|i: int| 0 <= i < b.len() && b[i] == item;
        assert((a + b)[a.len() + i] == item);
    }
    if (a + b).contains(item) {
        let i = choose|i: int| 0 <= i < (a + b).len() && (a + b)[i] == item;
        if i >= a.len() {
            assert(b[i - a.len()] == item);
        }
    }
}

proof fn symbols_at_positions(
    memory: Contents,
    body: Seq<u8>,
    base: u64,
    found: Seq<nat>,
    symbol: u64,
)
    ensures
        symbols_at(memory, body, base, found).contains(symbol) <==> exists|i: int|
            0 <= i < found.len() && holds_symbol(memory, body, base, #[trigger] found[i]) && symbol
                == base.wrapping_add(found[i] as u64) - 8,
    decreases found.len(),
{
    if found.len() > 0 {
        let start = found.drop_last();
        symbols_at_positions(memory, body, base, start, symbol);
        let before = symbols_at(memory, body, base, start);
        let all = symbols_at(memory, body, base, found);
        let last = found.last();
        if before.contains(symbol) {
            let i = choose|i: int|
                0 <= i < start.len() && holds_symbol(memory, body, base, #[trigger] start[i])
                    && symbol == base.wrapping_add(start[i] as u64) - 8;
            assert(found[i] == start[i]);
            let k = choose|k: int| 0 <= k < before.len() && before[k] == symbol;
            assert(all[k] == symbol);
        }
        if holds_symbol(memory, body, base, last) {
            let added = (base.wrapping_add(last as u64) - 8) as u64;
            assert(all == before.push(added));
            assert(all.last() == added);
            assert(found[found.len() - 1] == last);
            if all.contains(symbol) && symbol != added {
                let k = choose|k: int| 0 <= k < all.len() && all[k] == symbol;
                assert(before[k] == symbol);
            }
        }
        if exists|i: int|
            0 <= i < found.len() && holds_symbol(memory, body, base, #[trigger] found[i]) && symbol
                == base.wrapping_add(found[i] as u64) - 8 {
            let i = choose|i: int|
                0 <= i < found.len() && holds_symbol(memory, body, base, #[trigger] found[i])
                    && symbol == base.wrapping_add(found[i] as u64) - 8;
            if i < start.len() {
                assert(start[i] == found[i]);
                assert(before.contains(symbol));
            }
        }
    }
}

proof fn symbols_of_run(memory: Contents, body: Seq<u8>, run: Run, symbol: u64)
    requires
        body.len() > 0,
    ensures
        symbols_at(memory, body, run.base, occurrences(run.bytes, body)).contains(symbol)
            <==> exists|position: nat| #[trigger] run_holds(memory, body, run, position, symbol),
{
    let found = occurrences(run.bytes, body);
    occurrences_are_complete(run.bytes, body);
    symbols_at_positions(memory, body, run.base, found, symbol);
    if symbols_at(memory, body, run.base, found).contains(symbol) {
        let i = choose|i: int|
            0 <= i < found.len() && holds_symbol(memory, body, run.base, #[trigger] found[i])
                && symbol == run.base.wrapping_add(found[i] as u64) - 8;
        assert(found.contains(found[i]));
        assert(run_holds(memory, body, run, found[i], symbol));
    }
    if exists|position: nat| #[trigger] run_holds(memory, body, run, position, symbol) {
        let position = choose|position: nat| #[trigger]
            run_holds(memory, body, run, position, symbol);
        assert(found.contains(position));
        let i = choose|i: int| 0 <= i < found.len() && found[i] == position;
        assert(holds_symbol(memory, body, run.base, found[i]));
    }
}

proof fn symbols_of_runs(memory: Contents, body: Seq<u8>, runs: Seq<Run>, symbol: u64)
    requires
        body.len() > 0,
    ensures
        symbols_in(memory, body, runs).contains(symbol) <==> runs_hold(memory, body, runs, symbol),
    decreases runs.len(),
{
    if runs.len() > 0 {
        let start = runs.drop_last();
        let last = runs.last();
        symbols_of_runs(memory, body, start, symbol);
        symbols_of_run(memory, body, last, symbol);
        joined_contains(
            symbols_in(memory, body, start),
            symbols_at(memory, body, last.base, occurrences(last.bytes, body)),
            symbol,
        );
        if runs_hold(memory, body, start, symbol) {
            let (run, position) = choose|run: int, position: nat|
                0 <= run < start.len() && #[trigger] run_holds(
                    memory,
                    body,
                    start[run],
                    position,
                    symbol,
                );
            assert(runs[run] == start[run]);
            assert(run_holds(memory, body, runs[run], position, symbol));
        }
        if exists|position: nat| #[trigger] run_holds(memory, body, last, position, symbol) {
            let position = choose|position: nat| #[trigger]
                run_holds(memory, body, last, position, symbol);
            assert(run_holds(memory, body, runs[runs.len() - 1], position, symbol));
        }
        if runs_hold(memory, body, runs, symbol) {
            let (run, position) = choose|run: int, position: nat|
                0 <= run < runs.len() && #[trigger] run_holds(
                    memory,
                    body,
                    runs[run],
                    position,
                    symbol,
                );
            if run < start.len() {
                assert(run_holds(memory, body, start[run], position, symbol));
            }
        }
    }
}

proof fn symbols_of_regions(
    memory: Contents,
    body: Seq<u8>,
    regions: Seq<MemoryRegion>,
    symbol: u64,
)
    requires
        body.len() > 0,
    ensures
        symbols_in_regions(memory, body, regions).contains(symbol) <==> regions_hold(
            memory,
            body,
            regions,
            symbol,
        ),
    decreases regions.len(),
{
    if regions.len() > 0 {
        let start = regions.drop_last();
        let of_last = runs(region_pieces(memory, regions.last(), 0));
        symbols_of_regions(memory, body, start, symbol);
        symbols_of_runs(memory, body, of_last, symbol);
        joined_contains(
            symbols_in_regions(memory, body, start),
            symbols_in(memory, body, of_last),
            symbol,
        );
        if regions_hold(memory, body, start, symbol) {
            let region = choose|region: int|
                0 <= region < start.len() && runs_hold(
                    memory,
                    body,
                    runs(region_pieces(memory, #[trigger] start[region], 0)),
                    symbol,
                );
            assert(regions[region] == start[region]);
        }
        if regions_hold(memory, body, regions, symbol) {
            let region = choose|region: int|
                0 <= region < regions.len() && runs_hold(
                    memory,
                    body,
                    runs(region_pieces(memory, #[trigger] regions[region], 0)),
                    symbol,
                );
            if region < start.len() {
                assert(start[region] == regions[region]);
            }
        }
    }
}

proof fn distinct_has_no_duplicates(items: Seq<u64>)
    ensures
        distinct(items).no_duplicates(),
    decreases items.len(),
{
    if items.len() > 0 {
        distinct_has_no_duplicates(items.drop_last());
        let before = distinct(items.drop_last());
        let last = items.last();
        if !before.contains(last) {
            assert forall|i: int, j: int|
                0 <= i < before.len() + 1 && 0 <= j < before.len() + 1 && i != j implies before.push(
                last,
            )[i] != before.push(last)[j] by {
                if i == before.len() {
                    assert(before.contains(before[j]));
                } else if j == before.len() {
                    assert(before.contains(before[i]));
                }
            }
        }
    }
}

/// A scan for symbols gives each at most once, only symbols of the text that start at a multiple of
/// eight, no more than it may, and every one whose body lies in the regions unless it may give no
/// more.
pub proof fn scan_finds_the_symbols(
    memory: Contents,
    regions: Seq<MemoryRegion>,
    body: Seq<u8>,
    limit: nat,
)
    ensures
        symbols_found(memory, regions, body, limit) matches Ok(symbols) ==> {
            &&& symbols.len() <= limit
            &&& symbols.no_duplicates()
            &&& forall|i: int|
                0 <= i < symbols.len() ==> {
                    &&& (#[trigger] symbols[i]) % 8 == 0
                    &&& is_symbol(memory, symbols[i], Some(body))
                    &&& regions_hold(memory, body, regions, symbols[i])
                }
            &&& forall|symbol: u64| #[trigger]
                regions_hold(memory, body, regions, symbol) ==> symbols.contains(symbol)
                    || symbols.len() == limit
        },
{
    if body.len() > 0 {
        let all = distinct(symbols_in_regions(memory, body, regions));
        let symbols = first(limit, all);
        distinct_has_no_duplicates(symbols_in_regions(memory, body, regions));
        assert forall|symbol: u64| all.contains(symbol) <==> #[trigger] regions_hold(
            memory,
            body,
            regions,
            symbol,
        ) by {
            distinct_holds_the_same(symbols_in_regions(memory, body, regions), symbol);
            symbols_of_regions(memory, body, regions, symbol);
        }
        assert forall|i: int| 0 <= i < symbols.len() implies {
            &&& (#[trigger] symbols[i]) % 8 == 0
            &&& is_symbol(memory, symbols[i], Some(body))
            &&& regions_hold(memory, body, regions, symbols[i])
        } by {
            assert(all[i] == symbols[i]);
            assert(all.contains(symbols[i]));
            assert(regions_hold(memory, body, regions, symbols[i]));
        }
    }
}

/// Whether a piece has the word `wanted` at `address`.
pub open spec fn piece_holds(piece: Piece, wanted: u64, address: u64) -> bool {
    piece.bytes matches Some(bytes) && exists|at: nat|
        at + 8 <= bytes.len() && #[trigger] word_at(bytes, at) == wanted && address
            == piece.address.wrapping_add(at as u64)
}

/// Whether one of the regions has the word `wanted` at `address`, in a piece that was read at once.
pub open spec fn regions_hold_word(
    memory: Contents,
    regions: Seq<MemoryRegion>,
    wanted: u64,
    address: u64,
) -> bool {
    exists|region: int, piece: int|
        0 <= region < regions.len() && 0 <= piece < region_pieces(
            memory,
            regions[region],
            0,
        ).len() && piece_holds(
            #[trigger] region_pieces(memory, regions[region], 0)[piece],
            wanted,
            address,
        )
}

/// Whether `word` is where a block has the word `wanted` at its byte `at`, one of those that lie
/// a multiple of eight behind the byte `from`.
spec fn stands_at(
    bytes: Seq<u8>,
    address: u64,
    wanted: u64,
    from: nat,
    at: nat,
    word: u64,
) -> bool {
    &&& from <= at
    &&& at + 8 <= bytes.len()
    &&& (at - from) % 8 == 0
    &&& word_at(bytes, at) == wanted
    &&& word == address.wrapping_add(at as u64)
}

proof fn words_from_position(
    bytes: Seq<u8>,
    address: u64,
    wanted: u64,
    from: nat,
    word: u64,
)
    ensures
        words_from(bytes, address, wanted, from).contains(word) <==> exists|at: nat| #[trigger]
            stands_at(bytes, address, wanted, from, at, word),
    decreases bytes.len() - from,
{
    if from + 8 <= bytes.len() {
        let rest = words_from(bytes, address, wanted, from + 8);
        words_from_position(bytes, address, wanted, from + 8, word);
        let here = address.wrapping_add(from as u64);
        if word_at(bytes, from) == wanted {
            joined_contains(seq![here], rest, word);
            assert(seq![here].contains(word) <==> word == here) by {
                assert(seq![here][0] == here);
            }
            if word == here {
                assert(stands_at(bytes, address, wanted, from, from, word));
            }
        }
        if rest.contains(word) {
            let at = choose|at: nat| #[trigger]
                stands_at(bytes, address, wanted, from + 8, at, word);
            assert(stands_at(bytes, address, wanted, from, at, word));
        }
        if exists|at: nat| #[trigger] stands_at(bytes, address, wanted, from, at, word) {
            let at = choose|at: nat| #[trigger] stands_at(bytes, address, wanted, from, at, word);
            if at != from {
                assert(stands_at(bytes, address, wanted, from + 8, at, word));
            }
        }
    }
}

/// A byte of a block lies at a multiple of eight if it lies a multiple of eight behind the first one
/// that does.
proof fn aligned_bytes(address: u64, at: nat)
    requires
        at <= u64::MAX,
    ensures
        address.wrapping_add(at as u64) % 8 == 0 <==> to_alignment(address) <= at && (at
            - to_alignment(address)) % 8 == 0,
{
    let sum = address + at;
    let wrapped = address.wrapping_add(at as u64);
    assert(wrapped == sum || wrapped == sum - 0x1_0000_0000_0000_0000);
    assert(wrapped % 8 == sum % 8);
    let gap = to_alignment(address);
    assert((address + gap) % 8 == 0);
    assert(gap < 8);
}

proof fn words_of_piece(piece: Piece, wanted: u64, word: u64)
    requires
        piece.bytes matches Some(bytes) ==> bytes.len() <= u64::MAX,
    ensures
        words_in_piece(piece, wanted).contains(word) <==> word % 8 == 0 && piece_holds(
            piece,
            wanted,
            word,
        ),
{
    if let Some(bytes) = piece.bytes {
        let start = to_alignment(piece.address);
        words_from_position(bytes, piece.address, wanted, start, word);
        if words_in_piece(piece, wanted).contains(word) {
            let at = choose|at: nat| #[trigger]
                stands_at(bytes, piece.address, wanted, start, at, word);
            aligned_bytes(piece.address, at);
            assert(word_at(bytes, at) == wanted);
        }
        if word % 8 == 0 && piece_holds(piece, wanted, word) {
            let at = choose|at: nat|
                at + 8 <= bytes.len() && #[trigger] word_at(bytes, at) == wanted && word
                    == piece.address.wrapping_add(at as u64);
            aligned_bytes(piece.address, at);
            assert(stands_at(bytes, piece.address, wanted, start, at, word));
        }
    }
}

proof fn words_of_pieces(pieces: Seq<Piece>, wanted: u64, word: u64)
    requires
        are_short(pieces),
    ensures
        words_in(pieces, wanted).contains(word) <==> word % 8 == 0 && exists|i: int|
            0 <= i < pieces.len() && piece_holds(#[trigger] pieces[i], wanted, word),
    decreases pieces.len(),
{
    if pieces.len() > 0 {
        let start = pieces.drop_last();
        assert forall|i: int| 0 <= i < start.len() implies ((#[trigger] start[i]).bytes matches Some(
            bytes,
        ) ==> bytes.len() <= u64::MAX) by {
            assert(start[i] == pieces[i]);
        }
        words_of_pieces(start, wanted, word);
        words_of_piece(pieces.last(), wanted, word);
        joined_contains(words_in(start, wanted), words_in_piece(pieces.last(), wanted), word);
        if word % 8 == 0 && exists|i: int|
            0 <= i < start.len() && piece_holds(#[trigger] start[i], wanted, word) {
            let i = choose|i: int|
                0 <= i < start.len() && piece_holds(#[trigger] start[i], wanted, word);
            assert(piece_holds(pieces[i], wanted, word));
        }
        if piece_holds(pieces.last(), wanted, word) {
            assert(piece_holds(pieces[pieces.len() - 1], wanted, word));
        }
        if exists|i: int| 0 <= i < pieces.len() && piece_holds(#[trigger] pieces[i], wanted, word) {
            let i = choose|i: int|
                0 <= i < pieces.len() && piece_holds(#[trigger] pieces[i], wanted, word);
            if i < start.len() {
                assert(piece_holds(start[i], wanted, word));
            }
        }
    }
}

/// No piece is longer than a number of bytes can be.
spec fn are_short(pieces: Seq<Piece>) -> bool {
    forall|i: int|
        0 <= i < pieces.len() ==> ((#[trigger] pieces[i]).bytes matches Some(bytes) ==> bytes.len()
            <= u64::MAX)
}

proof fn pages_are_short(memory: Contents, address: u64, size: nat, from: nat)
    requires
        reads_are_exact(memory),
        size <= u64::MAX,
    ensures
        are_short(page_pieces(memory, address, size, from)),
    decreases size - from,
{
    if from < size {
        let length = least(PAGE_SIZE as nat, (size - from) as nat);
        pages_are_short(memory, address, size, from + length);
    }
}

proof fn region_is_in_short_pieces(memory: Contents, region: MemoryRegion, from: nat)
    requires
        reads_are_exact(memory),
    ensures
        are_short(region_pieces(memory, region, from)),
    decreases region.size - from,
{
    if from < region.size {
        let length = least(SCAN_CHUNK as nat, (region.size - from) as nat);
        let address = region.base.wrapping_add(from as u64);
        pages_are_short(memory, address, length, 0);
        region_is_in_short_pieces(memory, region, from + length);
        assert(are_short(chunk_pieces(memory, address, length)));
    }
}

proof fn words_of_regions(
    memory: Contents,
    regions: Seq<MemoryRegion>,
    wanted: u64,
    word: u64,
)
    requires
        reads_are_exact(memory),
    ensures
        words_in_regions(memory, regions, wanted).contains(word) <==> word % 8 == 0
            && regions_hold_word(memory, regions, wanted, word),
    decreases regions.len(),
{
    if regions.len() > 0 {
        let start = regions.drop_last();
        let of_last = region_pieces(memory, regions.last(), 0);
        words_of_regions(memory, start, wanted, word);
        region_is_in_short_pieces(memory, regions.last(), 0);
        words_of_pieces(of_last, wanted, word);
        joined_contains(
            words_in_regions(memory, start, wanted),
            words_in(of_last, wanted),
            word,
        );
        if regions_hold_word(memory, start, wanted, word) {
            let (region, piece) = choose|region: int, piece: int|
                0 <= region < start.len() && 0 <= piece < region_pieces(
                    memory,
                    start[region],
                    0,
                ).len() && piece_holds(
                    #[trigger] region_pieces(memory, start[region], 0)[piece],
                    wanted,
                    word,
                );
            assert(regions[region] == start[region]);
            assert(piece_holds(region_pieces(memory, regions[region], 0)[piece], wanted, word));
        }
        if exists|i: int| 0 <= i < of_last.len() && piece_holds(#[trigger] of_last[i], wanted, word) {
            let i = choose|i: int|
                0 <= i < of_last.len() && piece_holds(#[trigger] of_last[i], wanted, word);
            assert(piece_holds(
                region_pieces(memory, regions[regions.len() - 1], 0)[i],
                wanted,
                word,
            ));
        }
        if regions_hold_word(memory, regions, wanted, word) {
            let (region, piece) = choose|region: int, piece: int|
                0 <= region < regions.len() && 0 <= piece < region_pieces(
                    memory,
                    regions[region],
                    0,
                ).len() && piece_holds(
                    #[trigger] region_pieces(memory, regions[region], 0)[piece],
                    wanted,
                    word,
                );
            if region < start.len() {
                assert(start[region] == regions[region]);
                assert(piece_holds(region_pieces(memory, start[region], 0)[piece], wanted, word));
            } else {
                assert(piece_holds(of_last[piece], wanted, word));
            }
        }
    }
}

/// A scan for a word gives only addresses that are a multiple of eight and at which the regions
/// have the word, no more than it may, and every one of them unless it may give no more.
pub proof fn scan_finds_the_words(
    memory: Contents,
    regions: Seq<MemoryRegion>,
    wanted: u64,
    limit: nat,
)
    requires
        reads_are_exact(memory),
    ensures
        ({
            let found = words_found(memory, regions, wanted, limit);
            &&& found.len() <= limit
            &&& forall|i: int|
                0 <= i < found.len() ==> (#[trigger] found[i]) % 8 == 0 && regions_hold_word(
                    memory,
                    regions,
                    wanted,
                    found[i],
                )
            &&& forall|address: u64|
                address % 8 == 0 && #[trigger] regions_hold_word(memory, regions, wanted, address)
                    ==> found.contains(address) || found.len() == limit
        }),
{
    let all = words_in_regions(memory, regions, wanted);
    let found = words_found(memory, regions, wanted, limit);
    assert forall|i: int| 0 <= i < found.len() implies (#[trigger] found[i]) % 8 == 0
        && regions_hold_word(memory, regions, wanted, found[i]) by {
        assert(all[i] == found[i]);
        assert(all.contains(found[i]));
        words_of_regions(memory, regions, wanted, found[i]);
    }
    assert forall|address: u64|
        address % 8 == 0 && #[trigger] regions_hold_word(
            memory,
            regions,
            wanted,
            address,
        ) implies found.contains(address) || found.len() == limit by {
        words_of_regions(memory, regions, wanted, address);
    }
}

} // verus!
