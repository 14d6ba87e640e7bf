//! Scanning the readable memory of the target: for symbols of a given text and for words.
use std::collections::HashSet;
use vstd::prelude::*;

use super::layout::{is_symbol, valid_symbol_at};
use crate::bytes::put_bytes;
use crate::pages::{least, page_pieces, piece_at, Piece, PAGE_SIZE};
use crate::platform::{read_bytes, Contents, MemoryRegion, RemoteMemory};
use crate::search::{
    alignment_gap, find_subslices, occurrences, occurrences_are_complete, occurrences_from,
    occurs_at, positions, read_word, to_alignment, word_at,
};
use crate::text::{seen, Error, Outcome};

verus! {

broadcast use vstd::std_specs::hash::group_hash_axioms;

/// How much is read at once where all of it can be read.
pub const SCAN_CHUNK: usize = 0x40_0000;

/// The pieces of the `size` bytes at `address`: one, or their pages if not all of it can be read.
pub open spec fn chunk_pieces(memory: Contents, address: u64, size: nat) -> Seq<Piece> {
    match memory(address, size) {
        Ok(bytes) => seq![Piece { address, bytes: Some(bytes) }],
        Err(_) => page_pieces(memory, address, size, 0),
    }
}

/// The pieces of a region, from the byte `from` on.
pub open spec fn region_pieces(memory: Contents, region: MemoryRegion, from: nat) -> Seq<Piece>
    decreases region.size - from,
{
    if from >= region.size {
        Seq::empty()
    } else {
        let length = least(SCAN_CHUNK as nat, (region.size - from) as nat);
        chunk_pieces(memory, region.base.wrapping_add(from as u64), length) + region_pieces(
            memory,
            region,
            from + length,
        )
    }
}

/// A run of memory that was read without a gap.
pub struct Run {
    pub base: u64,
    pub bytes: Seq<u8>,
}

/// A run with no bytes.
pub open spec fn no_run() -> Run {
    Run { base: 0, bytes: Seq::empty() }
}

/// A run with the bytes of the next piece.
pub open spec fn extended(run: Run, address: u64, bytes: Seq<u8>) -> Run {
    Run {
        base: if run.bytes.len() == 0 {
            address
        } else {
            run.base
        },
        bytes: run.bytes + bytes,
    }
}

/// The runs that consecutive pieces make up: a piece that could not be read ends one. The last run
/// is the one that the next piece would belong to.
pub open spec fn runs(pieces: Seq<Piece>) -> Seq<Run>
    decreases pieces.len(),
{
    if pieces.len() == 0 {
        seq![no_run()]
    } else {
        let before = runs(pieces.drop_last());
        match pieces.last().bytes {
            None => before.push(no_run()),
            Some(bytes) => before.drop_last().push(
                extended(before.last(), pieces.last().address, bytes),
            ),
        }
    }
}

/// Whether the body at a position of a run from `base` on is that of a symbol: the symbol starts
/// eight bytes before its body, at a multiple of eight.
pub open spec fn holds_symbol(memory: Contents, body: Seq<u8>, base: u64, position: nat) -> bool {
    let body_at = base.wrapping_add(position as u64);
    &&& body_at >= 8
    &&& (body_at - 8) % 8 == 0
    &&& is_symbol(memory, (body_at - 8) as u64, Some(body))
}

/// The symbols that have their bodies at the given positions of a run from `base` on.
pub open spec fn symbols_at(
    memory: Contents,
    body: Seq<u8>,
    base: u64,
    found: Seq<nat>,
) -> Seq<u64>
    decreases found.len(),
{
    if found.len() == 0 {
        Seq::empty()
    } else {
        let before = symbols_at(memory, body, base, found.drop_last());
        if holds_symbol(memory, body, base, found.last()) {
            before.push((base.wrapping_add(found.last() as u64) - 8) as u64)
        } else {
            before
        }
    }
}

/// The symbols of the text `body` in the runs, in order: wherever a run holds the text.
pub open spec fn symbols_in(memory: Contents, body: Seq<u8>, runs: Seq<Run>) -> Seq<u64>
    decreases runs.len(),
{
    if runs.len() == 0 {
        Seq::empty()
    } else {
        symbols_in(memory, body, runs.drop_last()) + symbols_at(
            memory,
            body,
            runs.last().base,
            occurrences(runs.last().bytes, body),
        )
    }
}

/// The symbols of the text `body` in the regions, in order.
pub open spec fn symbols_in_regions(
    memory: Contents,
    body: Seq<u8>,
    regions: Seq<MemoryRegion>,
) -> Seq<u64>
    decreases regions.len(),
{
    if regions.len() == 0 {
        Seq::empty()
    } else {
        symbols_in_regions(memory, body, regions.drop_last()) + symbols_in(
            memory,
            body,
            runs(region_pieces(memory, regions.last(), 0)),
        )
    }
}

/// The items without those that are there earlier already.
pub open spec fn distinct(items: Seq<u64>) -> Seq<u64>
    decreases items.len(),
{
    if items.len() == 0 {
        Seq::empty()
    } else {
        let before = distinct(items.drop_last());
        if before.contains(items.last()) {
            before
        } else {
            before.push(items.last())
        }
    }
}

/// The first `limit` items, or all if there are fewer.
pub open spec fn first(limit: nat, items: Seq<u64>) -> Seq<u64> {
    if items.len() <= limit {
        items
    } else {
        items.take(limit as int)
    }
}

/// The first `limit` symbols of the text `body` in the regions.
pub open spec fn symbols_found(
    memory: Contents,
    regions: Seq<MemoryRegion>,
    body: Seq<u8>,
    limit: nat,
) -> Outcome<Seq<u64>> {
    if body.len() == 0 {
        Err("empty scan pattern"@)
    } else {
        Ok(first(limit, distinct(symbols_in_regions(memory, body, regions))))
    }
}

/// The last `count` bytes, or all if there are fewer.
pub open spec fn last_bytes(bytes: Seq<u8>, count: nat) -> Seq<u8> {
    if bytes.len() <= count {
        bytes
    } else {
        bytes.skip(bytes.len() - count)
    }
}

/// Positions moved up by `by`.
pub open spec fn moved(found: Seq<nat>, by: nat) -> Seq<nat> {
    Seq::new(found.len(), |i: int| found[i] + by)
}

/// Two sequences agree on whether a pattern that lies in their common part occurs.
proof fn occurs_alike(a: Seq<u8>, b: Seq<u8>, needle: Seq<u8>, at: int, by: int)
    requires
        0 <= at,
        0 <= at + by,
        at + needle.len() <= a.len(),
        at + by + needle.len() <= b.len(),
        forall|i: int| at <= i < at + needle.len() ==> #[trigger] a[i] == b[i + by],
    ensures
        occurs_at(a, needle, at) == occurs_at(b, needle, at + by),
{
    assert(a.subrange(at, at + needle.len()) =~= b.subrange(at + by, at + by + needle.len()));
}

/// What lies in `run` up to `split` is found in `run` alone.
proof fn occurrences_before(run: Seq<u8>, more: Seq<u8>, needle: Seq<u8>, from: nat, split: nat)
    requires
        needle.len() > 0,
        from <= split <= run.len(),
        split + needle.len() > run.len(),
        split == 0 || split + needle.len() == run.len() + 1,
    ensures
        occurrences_from(run + more, needle, from) == occurrences_from(run, needle, from)
            + occurrences_from(run + more, needle, split),
    decreases split - from,
{
    if from == split {
        nothing_left(run, needle, from);
        assert(Seq::<nat>::empty() + occurrences_from(run + more, needle, split)
            =~= occurrences_from(run + more, needle, split));
    } else {
        occurrences_before(run, more, needle, from + 1, split);
        occurs_alike(run, run + more, needle, from as int, 0);
        let rest = occurrences_from(run, needle, from + 1);
        let tail = occurrences_from(run + more, needle, split);
        assert(seq![from] + (rest + tail) =~= (seq![from] + rest) + tail);
    }
}

proof fn nothing_left(run: Seq<u8>, needle: Seq<u8>, from: nat)
    requires
        from + needle.len() > run.len(),
    ensures
        occurrences_from(run, needle, from) == Seq::<nat>::empty(),
    decreases run.len() - from,
{
    if from < run.len() {
        nothing_left(run, needle, from + 1);
    }
}

/// What lies behind `by` is found in what is left without the first `by` bytes.
proof fn occurrences_moved(all: Seq<u8>, rest: Seq<u8>, needle: Seq<u8>, from: nat, by: nat)
    requires
        by <= all.len(),
        rest == all.skip(by as int),
    ensures
        occurrences_from(all, needle, from + by) == moved(
            occurrences_from(rest, needle, from),
            by,
        ),
    decreases rest.len() - from,
{
    if from < rest.len() {
        occurrences_moved(all, rest, needle, from + 1, by);
        if from + needle.len() <= rest.len() {
            occurs_alike(rest, all, needle, from as int, by as int);
        }
        let found = occurrences_from(rest, needle, from + 1);
        assert(from + by + 1 == from + 1 + by);
        assert(moved(seq![from] + found, by) =~= seq![from + by] + moved(found, by));
    } else {
        assert(moved(Seq::empty(), by) =~= Seq::empty());
    }
}

/// A text that is found in a run once more bytes were read was there already, or lies in those
/// bytes and the few before them that can hold a part of it.
proof fn occurrences_extend(run: Seq<u8>, more: Seq<u8>, needle: Seq<u8>)
    requires
        needle.len() > 0,
    ensures
        ({
            let tail = last_bytes(run, (needle.len() - 1) as nat);
            occurrences(run + more, needle) == occurrences(run, needle) + moved(
                occurrences(tail + more, needle),
                (run.len() - tail.len()) as nat,
            )
        }),
{
    let tail = last_bytes(run, (needle.len() - 1) as nat);
    let split = (run.len() - tail.len()) as nat;
    occurrences_before(run, more, needle, 0, split);
    assert((run + more).skip(split as int) =~= tail + more);
    occurrences_moved(run + more, tail + more, needle, 0, split);
}

proof fn symbols_at_joined(memory: Contents, body: Seq<u8>, base: u64, a: Seq<nat>, b: Seq<nat>)
    ensures
        symbols_at(memory, body, base, a + b) == symbols_at(memory, body, base, a) + symbols_at(
            memory,
            body,
            base,
            b,
        ),
    decreases b.len(),
{
    if b.len() == 0 {
        assert(a + b =~= a);
        assert(symbols_at(memory, body, base, a) + Seq::<u64>::empty() =~= symbols_at(
            memory,
            body,
            base,
            a,
        ));
    } else {
        assert((a + b).drop_last() =~= a + b.drop_last());
        symbols_at_joined(memory, body, base, a, b.drop_last());
        let left = symbols_at(memory, body, base, a);
        let right = symbols_at(memory, body, base, b.drop_last());
        let item = (base.wrapping_add(b.last() as u64) - 8) as u64;
        assert((left + right).push(item) =~= left + right.push(item));
    }
}

/// What is distinct in a list starts what is distinct in a longer one.
proof fn distinct_extends(items: Seq<u64>, more: Seq<u64>)
    ensures
        distinct(items).len() <= distinct(items + more).len(),
        distinct(items + more).take(distinct(items).len() as int) == distinct(items),
    decreases more.len(),
{
    if more.len() == 0 {
        assert(items + more =~= items);
    } else {
        distinct_extends(items, more.drop_last());
        assert((items + more).drop_last() =~= items + more.drop_last());
        assert(distinct(items + more).take(distinct(items).len() as int) =~= distinct(
            items + more.drop_last(),
        ).take(distinct(items).len() as int));
    }
}

/// Leaving out repetitions leaves out no item.
pub proof fn distinct_holds_the_same(items: Seq<u64>, item: u64)
    ensures
        distinct(items).contains(item) == items.contains(item),
    decreases items.len(),
{
    if items.len() > 0 {
        let before = distinct(items.drop_last());
        distinct_holds_the_same(items.drop_last(), item);
        let last = items.last();
        assert(items =~= items.drop_last().push(last));
        if items.drop_last().contains(item) {
            let i = choose|i: int| 0 <= i < items.drop_last().len() && items.drop_last()[i] == item;
            assert(items[i] == item);
        }
        if items.contains(item) && item != last {
            let i = choose|i: int| 0 <= i < items.len() && items[i] == item;
            assert(items.drop_last()[i] == item);
        }
        if item == last {
            assert(items[items.len() - 1] == item);
            assert(before.push(item)[before.len() as int] == item);
        }
        if before.contains(item) {
            let i = choose|i: int| 0 <= i < before.len() && before[i] == item;
            assert(before.push(last)[i] == item);
        }
        if before.push(last).contains(item) && item != last {
            let i = choose|i: int| 0 <= i < before.push(last).len() && before.push(last)[i] == item;
            assert(before[i] == item);
        }
    }
}

/// Once there are enough, more items change nothing.
proof fn enough_is_enough(limit: nat, items: Seq<u64>, more: Seq<u64>)
    requires
        distinct(items).len() >= limit,
    ensures
        first(limit, distinct(items + more)) == first(limit, distinct(items)),
{
    distinct_extends(items, more);
    let all = distinct(items + more);
    let start = distinct(items);
    assert(all.take(limit as int) =~= start.take(limit as int)) by {
        assert forall|i: int| 0 <= i < limit implies all[i] == start[i] by {
            assert(all.take(start.len() as int)[i] == start[i]);
        }
    }
    assert(start.take(start.len() as int) =~= start);
    if all.len() == limit {
        assert(all.take(limit as int) =~= all);
    }
}

/// Whether the last run of the pieces, if it has bytes, ends where `address` is.
spec fn ends_at(pieces: Seq<Piece>, address: u64) -> bool {
    let run = runs(pieces).last();
    run.bytes.len() > 0 ==> run.base.wrapping_add(run.bytes.len() as u64) == address
}

/// How many bytes the last run of the pieces has.
spec fn open_length(pieces: Seq<Piece>) -> nat {
    runs(pieces).last().bytes.len()
}

/// A piece that was read extends the last run.
proof fn run_goes_on(pieces: Seq<Piece>, address: u64, bytes: Seq<u8>)
    requires
        ends_at(pieces, address),
        open_length(pieces) + bytes.len() <= u64::MAX,
    ensures
        ({
            let more = pieces.push(Piece { address, bytes: Some(bytes) });
            &&& runs(more) == runs(pieces).drop_last().push(
                extended(runs(pieces).last(), address, bytes),
            )
            &&& ends_at(more, address.wrapping_add(bytes.len() as u64))
            &&& open_length(more) == open_length(pieces) + bytes.len()
        }),
{
    let more = pieces.push(Piece { address, bytes: Some(bytes) });
    assert(more.drop_last() =~= pieces);
}

/// A piece that could not be read ends the last run.
proof fn run_ends(pieces: Seq<Piece>, address: u64)
    ensures
        ({
            let more = pieces.push(Piece { address, bytes: None });
            &&& runs(more) == runs(pieces).push(no_run())
            &&& open_length(more) == 0
        }),
{
    let more = pieces.push(Piece { address, bytes: None });
    assert(more.drop_last() =~= pieces);
}

proof fn there_is_a_run(pieces: Seq<Piece>)
    ensures
        runs(pieces).len() > 0,
    decreases pieces.len(),
{
    if pieces.len() > 0 {
        there_is_a_run(pieces.drop_last());
    }
}

/// The positions of a text in the last run of the pieces that were not there before the run had
/// `bytes` added.
spec fn positions_behind(body: Seq<u8>, pieces: Seq<Piece>, bytes: Seq<u8>) -> Seq<nat> {
    let run = runs(pieces).last();
    let tail = last_bytes(run.bytes, (body.len() - 1) as nat);
    moved(occurrences(tail + bytes, body), (run.bytes.len() - tail.len()) as nat)
}

/// The symbols that a piece adds.
spec fn symbols_behind(
    memory: Contents,
    body: Seq<u8>,
    pieces: Seq<Piece>,
    address: u64,
    bytes: Seq<u8>,
) -> Seq<u64> {
    symbols_at(
        memory,
        body,
        extended(runs(pieces).last(), address, bytes).base,
        positions_behind(body, pieces, bytes),
    )
}

proof fn piece_adds_symbols(
    memory: Contents,
    body: Seq<u8>,
    pieces: Seq<Piece>,
    address: u64,
    bytes: Seq<u8>,
)
    requires
        body.len() > 0,
    ensures
        symbols_in(memory, body, runs(pieces.push(Piece { address, bytes: Some(bytes) })))
            == symbols_in(memory, body, runs(pieces)) + symbols_behind(
            memory,
            body,
            pieces,
            address,
            bytes,
        ),
{
    let before = runs(pieces);
    let next = extended(before.last(), address, bytes);
    let more = pieces.push(Piece { address, bytes: Some(bytes) });
    there_is_a_run(pieces);
    assert(more.drop_last() =~= pieces);
    assert(before.drop_last().push(next).drop_last() =~= before.drop_last());
    occurrences_extend(before.last().bytes, bytes, body);
    let old_found = occurrences(before.last().bytes, body);
    let new_found = positions_behind(body, pieces, bytes);
    symbols_at_joined(memory, body, next.base, old_found, new_found);
    if before.last().bytes.len() == 0 {
        assert(old_found =~= Seq::empty());
        assert(symbols_at(memory, body, before.last().base, old_found) == symbols_at(
            memory,
            body,
            next.base,
            old_found,
        ));
    }
    let closed = symbols_in(memory, body, before.drop_last());
    let open = symbols_at(memory, body, next.base, old_found);
    let added = symbols_behind(memory, body, pieces, address, bytes);
    assert(symbols_in(memory, body, before) == closed + open);
    assert(symbols_in(memory, body, runs(more)) == closed + (open + added));
    assert(closed + (open + added) =~= (closed + open) + added);
}

/// More pieces add symbols behind those that are there.
proof fn pieces_add_symbols(memory: Contents, body: Seq<u8>, pieces: Seq<Piece>, more: Seq<Piece>)
    requires
        body.len() > 0,
    ensures
        exists|added: Seq<u64>|
            symbols_in(memory, body, runs(pieces + more)) == symbols_in(memory, body, runs(pieces))
                + added,
    decreases more.len(),
{
    let start = symbols_in(memory, body, runs(pieces));
    if more.len() == 0 {
        assert(pieces + more =~= pieces);
        assert(start =~= start + Seq::<u64>::empty());
    } else {
        let all = pieces + more;
        assert(all.drop_last() =~= pieces + more.drop_last());
        pieces_add_symbols(memory, body, pieces, more.drop_last());
        let added = choose|added: Seq<u64>|
            symbols_in(memory, body, runs(all.drop_last())) == start + added;
        let before = runs(all.drop_last());
        there_is_a_run(all.drop_last());
        match all.last().bytes {
            None => {
                assert(before.push(no_run()).drop_last() =~= before);
                assert(occurrences(Seq::<u8>::empty(), body) =~= Seq::empty());
                assert(symbols_in(memory, body, runs(all)) =~= start + added);
            },
            Some(bytes) => {
                let last = all.drop_last();
                assert(all =~= last.push(Piece { address: all.last().address, bytes: Some(bytes) }));
                piece_adds_symbols(memory, body, last, all.last().address, bytes);
                let more_added = symbols_behind(memory, body, last, all.last().address, bytes);
                assert((start + added) + more_added =~= start + (added + more_added));
            },
        }
    }
}

/// Whether `seen` holds all of `found` and, beside them, nothing that is a symbol.
spec fn remembers(memory: Contents, body: Seq<u8>, seen: Set<u64>, found: Seq<u64>) -> bool {
    &&& forall|symbol: u64| #[trigger]
        seen.contains(symbol) && is_symbol(memory, symbol, Some(body)) ==> found.contains(symbol)
    &&& forall|symbol: u64| #[trigger] found.contains(symbol) ==> seen.contains(symbol)
}

/// Collects the symbols of a text from pieces of memory. A few bytes are kept from one piece to
/// the next, so that a text that lies across both is found. The symbols of `earlier` regions come
/// first; `pieces` are those of the region at hand.
struct SymbolCollector<'a> {
    body: &'a [u8],
    limit: usize,
    tail: Vec<u8>,
    seen: HashSet<u64>,
    symbols: Vec<u64>,
    earlier: Ghost<Seq<u64>>,
    pieces: Ghost<Seq<Piece>>,
}

fn last_of(bytes: &Vec<u8>, count: usize) -> (kept: Vec<u8>)
    ensures
        kept@ == last_bytes(bytes@, count as nat),
{
    let mut kept: Vec<u8> = Vec::new();
    let start: usize = if bytes.len() <= count {
        0
    } else {
        bytes.len() - count
    };
    let mut index: usize = start;
    while index < bytes.len()
        invariant
            start <= index <= bytes@.len(),
            kept@ == bytes@.subrange(start as int, index as int),
        decreases bytes@.len() - index,
    {
        kept.push(bytes[index]);
        assert(kept@ =~= bytes@.subrange(start as int, index + 1));
        index += 1;
    }
    assert(kept@ =~= last_bytes(bytes@, count as nat));
    kept
}

impl<'a> SymbolCollector<'a> {
    /// The symbols in all that was collected from.
    spec fn found(&self, memory: Contents) -> Seq<u64> {
        self.earlier@ + symbols_in(memory, self.body@, runs(self.pieces@))
    }

    /// Whether the first symbols are collected and, while more may come, what is kept fits.
    spec fn wf(&self, memory: Contents) -> bool {
        &&& self.body@.len() > 0
        &&& self.symbols@ == first(self.limit as nat, distinct(self.found(memory)))
        &&& self.symbols@.len() < self.limit ==> {
            &&& self.tail@ == last_bytes(
                runs(self.pieces@).last().bytes,
                (self.body@.len() - 1) as nat,
            )
            &&& remembers(memory, self.body@, self.seen@, self.found(memory))
        }
    }

    /// Whether only the pieces, and what was found in them, differ.
    spec fn same_task(&self, other: &Self) -> bool {
        &&& self.body@ == other.body@
        &&& self.limit == other.limit
        &&& self.earlier@ == other.earlier@
    }

    fn new(body: &'a [u8], limit: usize, Ghost(memory): Ghost<Contents>) -> (collector: Self)
        requires
            body@.len() > 0,
        ensures
            collector.wf(memory),
            collector.body@ == body@,
            collector.limit == limit,
            collector.earlier@ == Seq::<u64>::empty(),
            collector.pieces@ == Seq::<Piece>::empty(),
    {
        let collector = Self {
            body,
            limit,
            tail: Vec::new(),
            seen: HashSet::new(),
            symbols: Vec::new(),
            earlier: Ghost(Seq::empty()),
            pieces: Ghost(Seq::empty()),
        };
        proof {
            no_pieces_no_symbols(memory, body@);
            assert(collector.found(memory) =~= Seq::empty());
            assert(collector.tail@ =~= Seq::empty());
        }
        collector
    }

    fn is_full(&self) -> (full: bool)
        ensures
            full == (self.symbols@.len() == self.limit),
    {
        self.symbols.len() == self.limit
    }

    /// Goes on to the next region.
    fn next_region(&mut self, Ghost(memory): Ghost<Contents>)
        requires
            old(self).wf(memory),
        ensures
            final(self).wf(memory),
            final(self).body@ == old(self).body@,
            final(self).limit == old(self).limit,
            final(self).symbols@ == old(self).symbols@,
            final(self).earlier@ == old(self).found(memory),
            final(self).pieces@ == Seq::<Piece>::empty(),
    {
        self.tail = Vec::new();
        proof {
            let found = self.found(memory);
            self.earlier@ = found;
            self.pieces@ = Seq::empty();
            no_pieces_no_symbols(memory, self.body@);
            assert(self.found(memory) =~= found);
            assert(self.tail@ =~= Seq::empty());
        }
    }

    /// Notes that the piece at `address` could not be read.
    fn skip(&mut self, address: u64, Ghost(memory): Ghost<Contents>)
        requires
            old(self).wf(memory),
        ensures
            final(self).wf(memory),
            final(self).same_task(old(self)),
            final(self).pieces@ == old(self).pieces@.push(Piece { address, bytes: None }),
    {
        self.tail = Vec::new();
        proof {
            let before = self.pieces@;
            let found = self.found(memory);
            run_ends(before, address);
            self.pieces@ = before.push(Piece { address, bytes: None });
            assert(runs(before).push(no_run()).drop_last() =~= runs(before));
            assert(occurrences(Seq::<u8>::empty(), self.body@) =~= Seq::empty());
            assert(self.found(memory) =~= found);
            assert(self.tail@ =~= Seq::empty());
        }
    }

    /// Collects from a piece that follows the pieces so far.
    fn collect<M: RemoteMemory>(&mut self, memory: &M, block: &[u8], address: u64)
        requires
            old(self).wf(memory.contents()),
            old(self).symbols@.len() < old(self).limit,
            ends_at(old(self).pieces@, address),
            open_length(old(self).pieces@) + block@.len() <= u64::MAX,
        ensures
            final(self).wf(memory.contents()),
            final(self).same_task(old(self)),
            final(self).pieces@ == old(self).pieces@.push(Piece { address, bytes: Some(block@) }),
    {
        let ghost contents = memory.contents();
        let ghost body = self.body@;
        let ghost pieces = self.pieces@;
        let ghost run = runs(pieces).last();
        let ghost base = extended(run, address, block@).base;
        let ghost before = self.found(contents);
        let ghost tail = self.tail@;
        let ghost behind = positions_behind(body, pieces, block@);
        let tail_len = self.tail.len();
        put_bytes(&mut self.tail, block);
        let found = find_subslices(self.tail.as_slice(), self.body);
        let mut index: usize = 0;
        proof {
            occurrences_are_complete(self.tail@, body);
            assert(behind.take(0) =~= Seq::empty());
            assert(before + Seq::<u64>::empty() =~= before);
        }
        while index < found.len() && self.symbols.len() < self.limit
            invariant
                index <= found@.len(),
                contents == memory.contents(),
                self.body@ == body,
                self.limit == old(self).limit,
                self.earlier == old(self).earlier,
                self.pieces == old(self).pieces,
                self.tail@ == tail + block@,
                tail_len == tail.len(),
                pieces == self.pieces@,
                run == runs(pieces).last(),
                base == extended(run, address, block@).base,
                tail == last_bytes(run.bytes, (body.len() - 1) as nat),
                behind == positions_behind(body, pieces, block@),
                positions(found@) == occurrences(tail + block@, body),
                body.len() > 0,
                forall|at: nat| #[trigger]
                    occurrences(tail + block@, body).contains(at) ==> occurs_at(
                        tail + block@,
                        body,
                        at as int,
                    ),
                ends_at(pieces, address),
                open_length(pieces) + block@.len() <= u64::MAX,
                self.symbols@ == first(
                    self.limit as nat,
                    distinct(before + symbols_at(contents, body, base, behind.take(index as int))),
                ),
                self.symbols@.len() < self.limit ==> remembers(
                    contents,
                    body,
                    self.seen@,
                    before + symbols_at(contents, body, base, behind.take(index as int)),
                ),
            decreases found@.len() - index,
        {
            let at = found[index];
            let body_at = address.wrapping_sub(tail_len as u64).wrapping_add(at as u64);
            let ghost so_far = before + symbols_at(
                contents,
                body,
                base,
                behind.take(index as int),
            );
            proof {
                let all = occurrences(tail + block@, body);
                assert(all[index as int] == at as nat);
                assert(all.contains(at as nat));
                assert(behind[index as int] == at + (run.bytes.len() - tail.len()));
                assert(body_at == base.wrapping_add(behind[index as int] as u64));
                assert(behind.take(index + 1).drop_last() =~= behind.take(index as int));
                assert(self.symbols@ == distinct(so_far));
            }
            if body_at >= 8 && (body_at - 8) % 8 == 0 {
                let symbol = body_at - 8;
                proof {
                    symbol_is_remembered(contents, body, self.seen@, so_far, symbol);
                    assert(so_far.push(symbol) =~= before + symbols_at(
                        contents,
                        body,
                        base,
                        behind.take(index as int),
                    ).push(symbol));
                }
                if self.seen.insert(symbol) {
                    if valid_symbol_at(memory, symbol, Some(self.body)) {
                        self.symbols.push(symbol);
                    }
                }
            }
            index += 1;
        }
        proof {
            let done = behind.take(index as int);
            let rest = behind.skip(index as int);
            assert(behind =~= done + rest);
            symbols_at_joined(contents, body, base, done, rest);
            let so_far = before + symbols_at(contents, body, base, done);
            let left = symbols_at(contents, body, base, rest);
            assert(before + symbols_behind(contents, body, pieces, address, block@) =~= so_far
                + left);
            if index < found@.len() {
                enough_is_enough(self.limit as nat, so_far, left);
            } else {
                assert(rest =~= Seq::empty());
                assert(so_far + left =~= so_far);
            }
            piece_adds_symbols(contents, body, pieces, address, block@);
            run_goes_on(pieces, address, block@);
            tail_of_tail(run.bytes, block@, (body.len() - 1) as nat);
            self.pieces@ = pieces.push(Piece { address, bytes: Some(block@) });
            assert(self.found(contents) =~= so_far + left);
        }
        self.tail = last_of(&self.tail, self.body.len() - 1);
    }

    /// Once enough symbols are collected, the pieces that were left out do not matter.
    proof fn enough(self, memory: Contents, more: Seq<Piece>)
        requires
            self.wf(memory),
            self.symbols@.len() == self.limit,
        ensures
            self.symbols@ == first(
                self.limit as nat,
                distinct(
                    self.earlier@ + symbols_in(memory, self.body@, runs(self.pieces@ + more)),
                ),
            ),
    {
        pieces_add_symbols(memory, self.body@, self.pieces@, more);
        let start = symbols_in(memory, self.body@, runs(self.pieces@));
        let added = choose|added: Seq<u64>|
            symbols_in(memory, self.body@, runs(self.pieces@ + more)) == start + added;
        enough_is_enough(self.limit as nat, self.found(memory), added);
        assert(self.earlier@ + (start + added) =~= self.found(memory) + added);
    }
}

/// The last bytes of a run are among its last bytes so far and those that were added.
proof fn tail_of_tail(run: Seq<u8>, more: Seq<u8>, count: nat)
    ensures
        last_bytes(last_bytes(run, count) + more, count) == last_bytes(run + more, count),
{
    assert(last_bytes(last_bytes(run, count) + more, count) =~= last_bytes(run + more, count));
}

/// One more symbol is remembered or known already.
proof fn symbol_is_remembered(
    memory: Contents,
    body: Seq<u8>,
    seen: Set<u64>,
    found: Seq<u64>,
    symbol: u64,
)
    requires
        remembers(memory, body, seen, found),
    ensures
        ({
            let more = found.push(symbol);
            if is_symbol(memory, symbol, Some(body)) {
                &&& remembers(memory, body, seen.insert(symbol), more)
                &&& distinct(more) == if seen.contains(symbol) {
                    distinct(found)
                } else {
                    distinct(found).push(symbol)
                }
            } else {
                remembers(memory, body, seen.insert(symbol), found)
            }
        }),
{
    let more = found.push(symbol);
    assert(more.drop_last() =~= found);
    distinct_holds_the_same(found, symbol);
    assert forall|other: u64| #[trigger] more.contains(other) implies found.contains(other) || other
        == symbol by {
        let i = choose|i: int| 0 <= i < more.len() && more[i] == other;
        if i < found.len() {
            assert(found[i] == other);
        }
    }
    assert forall|other: u64| #[trigger] found.contains(other) implies more.contains(other) by {
        let i = choose|i: int| 0 <= i < found.len() && found[i] == other;
        assert(more[i] == other);
    }
    assert(more[found.len() as int] == symbol);
    if seen.contains(symbol) {
        assert(seen.insert(symbol) =~= seen);
    }
}

proof fn no_pieces_no_symbols(memory: Contents, body: Seq<u8>)
    ensures
        symbols_in(memory, body, runs(Seq::empty())) == Seq::<u64>::empty(),
        runs(Seq::<Piece>::empty()).last().bytes == Seq::<u8>::empty(),
{
    let only = runs(Seq::<Piece>::empty());
    assert(only.drop_last() =~= Seq::empty());
    assert(occurrences(Seq::<u8>::empty(), body) =~= Seq::empty());
    assert(symbols_in(memory, body, Seq::empty()) =~= Seq::empty());
    assert(symbols_at(memory, body, 0, Seq::empty()) =~= Seq::empty());
    assert(symbols_in(memory, body, only) =~= Seq::empty());
}

/// Collects from the pages of the `size` bytes at `address`.
fn scan_pages<M: RemoteMemory>(
    memory: &M,
    collector: &mut SymbolCollector<'_>,
    address: u64,
    size: usize,
)
    requires
        old(collector).wf(memory.contents()),
        old(collector).symbols@.len() < old(collector).limit,
        ends_at(old(collector).pieces@, address),
        open_length(old(collector).pieces@) + size <= u64::MAX,
    ensures
        final(collector).wf(memory.contents()),
        final(collector).same_task(old(collector)),
        final(collector).pieces@ == old(collector).pieces@ + page_pieces(
            memory.contents(),
            address,
            size as nat,
            0,
        ),
        final(collector).symbols@.len() < final(collector).limit ==> {
            &&& ends_at(final(collector).pieces@, address.wrapping_add(size as u64))
            &&& open_length(final(collector).pieces@) <= open_length(old(collector).pieces@) + size
        },
{
    let ghost contents = memory.contents();
    let ghost all = collector.pieces@ + page_pieces(contents, address, size as nat, 0);
    let ghost length = open_length(collector.pieces@);
    let mut offset: usize = 0;
    while offset < size && !collector.is_full()
        invariant
            offset <= size,
            contents == memory.contents(),
            collector.wf(contents),
            collector.same_task(old(collector)),
            length + size <= u64::MAX,
            collector.pieces@ + page_pieces(contents, address, size as nat, offset as nat) == all,
            ends_at(collector.pieces@, address.wrapping_add(offset as u64)),
            open_length(collector.pieces@) <= length + offset,
        decreases size - offset,
    {
        let page_size = if size - offset < PAGE_SIZE {
            size - offset
        } else {
            PAGE_SIZE
        };
        let page_address = address.wrapping_add(offset as u64);
        let ghost before = collector.pieces@;
        let ghost rest = page_pieces(contents, address, size as nat, (offset + page_size) as nat);
        match read_bytes(memory, page_address, page_size) {
            Ok(page) => {
                proof {
                    run_goes_on(before, page_address, page@);
                }
                collector.collect(memory, page.as_slice(), page_address);
            },
            Err(_) => {
                proof {
                    run_ends(before, page_address);
                }
                collector.skip(page_address, Ghost(contents));
            },
        }
        proof {
            let piece = piece_at(contents, page_address, page_size as nat);
            assert(collector.pieces@ == before.push(piece));
            assert(before + (seq![piece] + rest) =~= before.push(piece) + rest);
        }
        offset += page_size;
    }
    proof {
        let rest = page_pieces(contents, address, size as nat, offset as nat);
        if offset < size {
            collector.enough(contents, rest);
            collector.pieces@ = all;
        } else {
            assert(collector.pieces@ + rest =~= collector.pieces@);
        }
    }
}

/// Collects from a region.
fn scan_region<M: RemoteMemory>(
    memory: &M,
    collector: &mut SymbolCollector<'_>,
    region: &MemoryRegion,
)
    requires
        old(collector).wf(memory.contents()),
        old(collector).pieces@ == Seq::<Piece>::empty(),
    ensures
        final(collector).wf(memory.contents()),
        final(collector).same_task(old(collector)),
        final(collector).pieces@ == region_pieces(memory.contents(), *region, 0),
{
    let ghost contents = memory.contents();
    let ghost all = region_pieces(contents, *region, 0);
    let mut offset: usize = 0;
    proof {
        no_pieces_no_symbols(contents, collector.body@);
        assert(collector.pieces@ + all =~= all);
    }
    while offset < region.size && !collector.is_full()
        invariant
            offset <= region.size,
            contents == memory.contents(),
            collector.wf(contents),
            collector.same_task(old(collector)),
            collector.pieces@ + region_pieces(contents, *region, offset as nat) == all,
            collector.symbols@.len() < collector.limit ==> {
                &&& ends_at(collector.pieces@, region.base.wrapping_add(offset as u64))
                &&& open_length(collector.pieces@) <= offset
            },
        decreases region.size - offset,
    {
        let size = if region.size - offset < SCAN_CHUNK {
            region.size - offset
        } else {
            SCAN_CHUNK
        };
        let address = region.base.wrapping_add(offset as u64);
        let ghost before = collector.pieces@;
        let ghost rest = region_pieces(contents, *region, (offset + size) as nat);
        match read_bytes(memory, address, size) {
            Ok(block) => {
                proof {
                    run_goes_on(before, address, block@);
                }
                collector.collect(memory, block.as_slice(), address);
                assert(collector.pieces@ =~= before + chunk_pieces(contents, address, size as nat));
            },
            Err(_) => {
                scan_pages(memory, collector, address, size);
            },
        }
        proof {
            let chunk = chunk_pieces(contents, address, size as nat);
            assert(collector.pieces@ == before + chunk);
            assert(before + (chunk + rest) =~= (before + chunk) + rest);
        }
        offset += size;
    }
    proof {
        let rest = region_pieces(contents, *region, offset as nat);
        if offset < region.size {
            collector.enough(contents, rest);
            collector.pieces@ = all;
        } else {
            assert(collector.pieces@ + rest =~= collector.pieces@);
        }
    }
}

/// Enough symbols of some regions are enough of more regions.
proof fn enough_of_regions(
    memory: Contents,
    body: Seq<u8>,
    regions: Seq<MemoryRegion>,
    index: int,
    limit: nat,
)
    requires
        0 <= index <= regions.len(),
        distinct(symbols_in_regions(memory, body, regions.take(index))).len() >= limit,
    ensures
        first(limit, distinct(symbols_in_regions(memory, body, regions))) == first(
            limit,
            distinct(symbols_in_regions(memory, body, regions.take(index))),
        ),
    decreases regions.len() - index,
{
    if index < regions.len() {
        let upto = regions.take(index + 1);
        let some = symbols_in_regions(memory, body, regions.take(index));
        let more = symbols_in(memory, body, runs(region_pieces(memory, regions[index], 0)));
        assert(upto.drop_last() =~= regions.take(index));
        enough_is_enough(limit, some, more);
        distinct_extends(some, more);
        enough_of_regions(memory, body, regions, index + 1, limit);
    } else {
        assert(regions.take(index) =~= regions);
    }
}

/// The first `limit` symbols of the text `body` in the regions.
pub fn scan_symbols<M: RemoteMemory>(
    memory: &M,
    regions: &Vec<MemoryRegion>,
    body: &[u8],
    limit: usize,
) -> (result: Result<Vec<u64>, Error>)
    ensures
        seen(result) == symbols_found(memory.contents(), regions@, body@, limit as nat),
{
    if body.len() == 0 {
        return Err(Error::new("empty scan pattern"));
    }
    let ghost contents = memory.contents();
    let mut collector = SymbolCollector::new(body, limit, Ghost(contents));
    let mut index: usize = 0;
    proof {
        assert(regions@.take(0) =~= Seq::empty());
        no_pieces_no_symbols(contents, body@);
        assert(collector.found(contents) =~= Seq::empty());
    }
    while index < regions.len() && !collector.is_full()
        invariant
            index <= regions@.len(),
            contents == memory.contents(),
            collector.wf(contents),
            collector.body@ == body@,
            collector.limit == limit,
            collector.found(contents) == symbols_in_regions(
                contents,
                body@,
                regions@.take(index as int),
            ),
        decreases regions@.len() - index,
    {
        collector.next_region(Ghost(contents));
        scan_region(memory, &mut collector, &regions[index]);
        proof {
            assert(regions@.take(index + 1).drop_last() =~= regions@.take(index as int));
        }
        index += 1;
    }
    proof {
        if index < regions@.len() {
            enough_of_regions(contents, body@, regions@, index as int, limit as nat);
        } else {
            assert(regions@.take(index as int) =~= regions@);
        }
    }
    Ok(collector.symbols)
}

/// The addresses from the byte `at` on, in steps of eight, at which a block has the word `wanted`.
pub open spec fn words_from(bytes: Seq<u8>, address: u64, wanted: u64, at: nat) -> Seq<u64>
    decreases bytes.len() - at,
{
    if at + 8 > bytes.len() {
        Seq::empty()
    } else if word_at(bytes, at) == wanted {
        seq![address.wrapping_add(at as u64)] + words_from(bytes, address, wanted, at + 8)
    } else {
        words_from(bytes, address, wanted, at + 8)
    }
}

/// The addresses that are a multiple of eight at which a piece has the word `wanted`.
pub open spec fn words_in_piece(piece: Piece, wanted: u64) -> Seq<u64> {
    match piece.bytes {
        None => Seq::empty(),
        Some(bytes) => words_from(bytes, piece.address, wanted, to_alignment(piece.address)),
    }
}

/// The addresses at which the pieces have the word `wanted`, in order.
pub open spec fn words_in(pieces: Seq<Piece>, wanted: u64) -> Seq<u64>
    decreases pieces.len(),
{
    if pieces.len() == 0 {
        Seq::empty()
    } else {
        words_in(pieces.drop_last(), wanted) + words_in_piece(pieces.last(), wanted)
    }
}

/// The addresses at which the regions have the word `wanted`, in order.
pub open spec fn words_in_regions(
    memory: Contents,
    regions: Seq<MemoryRegion>,
    wanted: u64,
) -> Seq<u64>
    decreases regions.len(),
{
    if regions.len() == 0 {
        Seq::empty()
    } else {
        words_in_regions(memory, regions.drop_last(), wanted) + words_in(
            region_pieces(memory, regions.last(), 0),
            wanted,
        )
    }
}

/// The first `limit` addresses at which the regions have the word `wanted`.
pub open spec fn words_found(
    memory: Contents,
    regions: Seq<MemoryRegion>,
    wanted: u64,
    limit: nat,
) -> Seq<u64> {
    first(limit, words_in_regions(memory, regions, wanted))
}

/// Once there are enough, more items at the end change nothing.
proof fn enough_words(limit: nat, items: Seq<u64>, more: Seq<u64>)
    ensures
        first(limit, first(limit, items) + more) == first(limit, items + more),
        items.len() >= limit ==> first(limit, items + more) == first(limit, items),
{
    assert(first(limit, first(limit, items) + more) =~= first(limit, items + more));
    if items.len() >= limit {
        assert(first(limit, items + more) =~= first(limit, items));
    }
}

proof fn words_joined(a: Seq<Piece>, b: Seq<Piece>, wanted: u64)
    ensures
        words_in(a + b, wanted) == words_in(a, wanted) + words_in(b, wanted),
    decreases b.len(),
{
    if b.len() == 0 {
        assert(a + b =~= a);
        assert(words_in(a, wanted) + Seq::<u64>::empty() =~= words_in(a, wanted));
    } else {
        assert((a + b).drop_last() =~= a + b.drop_last());
        words_joined(a, b.drop_last(), wanted);
        let left = words_in(a, wanted);
        let right = words_in(b.drop_last(), wanted);
        let last = words_in_piece(b.last(), wanted);
        assert((left + right) + last =~= left + (right + last));
    }
}

proof fn words_in_one(piece: Piece, wanted: u64)
    ensures
        words_in(seq![piece], wanted) == words_in_piece(piece, wanted),
{
    assert(seq![piece].drop_last() =~= Seq::empty());
    assert(words_in(Seq::empty(), wanted) =~= Seq::empty());
    assert(words_in(seq![piece], wanted) =~= words_in_piece(piece, wanted));
}

/// The words of the pieces so far, followed by those of the next ones.
proof fn words_go_on(limit: nat, start: Seq<u64>, done: Seq<Piece>, next: Seq<Piece>, wanted: u64)
    ensures
        first(limit, start + words_in(done + next, wanted)) == first(
            limit,
            first(limit, start + words_in(done, wanted)) + words_in(next, wanted),
        ),
        first(limit, start + words_in(done, wanted)).len() >= limit ==> first(
            limit,
            start + words_in(done + next, wanted),
        ) == first(limit, start + words_in(done, wanted)),
{
    words_joined(done, next, wanted);
    let so_far = start + words_in(done, wanted);
    enough_words(limit, so_far, words_in(next, wanted));
    assert(start + words_in(done + next, wanted) =~= so_far + words_in(next, wanted));
}

/// Adds the addresses at which a block has the word `wanted` to `hits`, up to `limit`.
fn collect_aligned_u64(bytes: &Vec<u8>, address: u64, wanted: u64, hits: &mut Vec<u64>, limit: usize)
    requires
        old(hits)@.len() <= limit,
    ensures
        final(hits)@ == first(
            limit as nat,
            old(hits)@ + words_from(bytes@, address, wanted, to_alignment(address)),
        ),
{
    let ghost all = old(hits)@ + words_from(bytes@, address, wanted, to_alignment(address));
    let mut at: usize = alignment_gap(address);
    while hits.len() < limit && at < bytes.len() && bytes.len() - at >= 8
        invariant
            hits@.len() <= limit,
            all == hits@ + words_from(bytes@, address, wanted, at as nat),
        decreases bytes@.len() - at,
    {
        if read_word(bytes.as_slice(), at) == wanted {
            let hit = address.wrapping_add(at as u64);
            let ghost before = hits@;
            let ghost rest = words_from(bytes@, address, wanted, (at + 8) as nat);
            hits.push(hit);
            assert(before + (seq![hit] + rest) =~= hits@ + rest);
        }
        at += 8;
    }
    proof {
        let rest = words_from(bytes@, address, wanted, at as nat);
        if hits@.len() < limit {
            assert(hits@ + rest =~= hits@);
        } else {
            enough_words(limit as nat, hits@, rest);
        }
    }
}

fn scan_u64_pages<M: RemoteMemory>(
    memory: &M,
    address: u64,
    size: usize,
    wanted: u64,
    hits: &mut Vec<u64>,
    limit: usize,
)
    requires
        old(hits)@.len() <= limit,
    ensures
        final(hits)@ == first(
            limit as nat,
            old(hits)@ + words_in(page_pieces(memory.contents(), address, size as nat, 0), wanted),
        ),
{
    let ghost contents = memory.contents();
    let ghost all = page_pieces(contents, address, size as nat, 0);
    let ghost mut done: Seq<Piece> = Seq::empty();
    let mut offset: usize = 0;
    proof {
        assert(done + all =~= all);
        assert(hits@ + words_in(done, wanted) =~= hits@);
    }
    while offset < size && hits.len() < limit
        invariant
            offset <= size,
            contents == memory.contents(),
            done + page_pieces(contents, address, size as nat, offset as nat) == all,
            hits@.len() <= limit,
            hits@ == first(limit as nat, old(hits)@ + words_in(done, wanted)),
        decreases size - offset,
    {
        let page_size = if size - offset < PAGE_SIZE {
            size - offset
        } else {
            PAGE_SIZE
        };
        let page_address = address.wrapping_add(offset as u64);
        let ghost piece = piece_at(contents, page_address, page_size as nat);
        let ghost rest = page_pieces(contents, address, size as nat, (offset + page_size) as nat);
        proof {
            words_go_on(limit as nat, old(hits)@, done, seq![piece], wanted);
            words_in_one(piece, wanted);
            assert(hits@ + Seq::<u64>::empty() =~= hits@);
            assert(done + (seq![piece] + rest) =~= (done + seq![piece]) + rest);
            done = done + seq![piece];
        }
        if let Ok(page) = read_bytes(memory, page_address, page_size) {
            collect_aligned_u64(&page, page_address, wanted, hits, limit);
        }
        offset += page_size;
    }
    proof {
        let rest = page_pieces(contents, address, size as nat, offset as nat);
        words_go_on(limit as nat, old(hits)@, done, rest, wanted);
        if offset >= size {
            assert(done + rest =~= done);
        }
    }
}

fn scan_u64_region<M: RemoteMemory>(
    memory: &M,
    region: &MemoryRegion,
    wanted: u64,
    hits: &mut Vec<u64>,
    limit: usize,
)
    requires
        old(hits)@.len() <= limit,
    ensures
        final(hits)@ == first(
            limit as nat,
            old(hits)@ + words_in(region_pieces(memory.contents(), *region, 0), wanted),
        ),
{
    let ghost contents = memory.contents();
    let ghost all = region_pieces(contents, *region, 0);
    let ghost mut done: Seq<Piece> = Seq::empty();
    let mut offset: usize = 0;
    proof {
        assert(done + all =~= all);
        assert(hits@ + words_in(done, wanted) =~= hits@);
    }
    while offset < region.size && hits.len() < limit
        invariant
            offset <= region.size,
            contents == memory.contents(),
            done + region_pieces(contents, *region, offset as nat) == all,
            hits@.len() <= limit,
            hits@ == first(limit as nat, old(hits)@ + words_in(done, wanted)),
        decreases region.size - offset,
    {
        let size = if region.size - offset < SCAN_CHUNK {
            region.size - offset
        } else {
            SCAN_CHUNK
        };
        let address = region.base.wrapping_add(offset as u64);
        let ghost chunk = chunk_pieces(contents, address, size as nat);
        let ghost rest = region_pieces(contents, *region, (offset + size) as nat);
        proof {
            words_go_on(limit as nat, old(hits)@, done, chunk, wanted);
            assert(done + (chunk + rest) =~= (done + chunk) + rest);
            done = done + chunk;
        }
        match read_bytes(memory, address, size) {
            Ok(bytes) => {
                proof {
                    words_in_one(Piece { address, bytes: Some(bytes@) }, wanted);
                }
                collect_aligned_u64(&bytes, address, wanted, hits, limit);
            },
            Err(_) => {
                scan_u64_pages(memory, address, size, wanted, hits, limit);
            },
        }
        offset += size;
    }
    proof {
        let rest = region_pieces(contents, *region, offset as nat);
        words_go_on(limit as nat, old(hits)@, done, rest, wanted);
        if offset >= region.size {
            assert(done + rest =~= done);
        }
    }
}

/// The first `limit` addresses at which the regions have the word `wanted`.
pub fn scan_u64<M: RemoteMemory>(
    memory: &M,
    regions: &Vec<MemoryRegion>,
    wanted: u64,
    limit: usize,
) -> (hits: Vec<u64>)
    ensures
        hits@ == words_found(memory.contents(), regions@, wanted, limit as nat),
{
    let ghost contents = memory.contents();
    let mut hits: Vec<u64> = Vec::new();
    let mut index: usize = 0;
    assert(regions@.take(0) =~= Seq::empty());
    while index < regions.len()
        invariant
            index <= regions@.len(),
            contents == memory.contents(),
            hits@.len() <= limit,
            hits@ == first(
                limit as nat,
                words_in_regions(contents, regions@.take(index as int), wanted),
            ),
        decreases regions@.len() - index,
    {
        proof {
            let upto = regions@.take(index + 1);
            assert(upto.drop_last() =~= regions@.take(index as int));
            enough_words(
                limit as nat,
                words_in_regions(contents, regions@.take(index as int), wanted),
                words_in(region_pieces(contents, regions@[index as int], 0), wanted),
            );
        }
        scan_u64_region(memory, &regions[index], wanted, &mut hits, limit);
        index += 1;
    }
    assert(regions@.take(index as int) =~= regions@);
    hits
}

} // verus!
