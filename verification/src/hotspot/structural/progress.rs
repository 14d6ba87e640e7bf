//! What the operator is told of a search by shape, as far as it came.
use vstd::prelude::*;
use vstd::utf8::encode_utf8;

use super::layout::OBJECT_NAME;
use super::scan::{symbols_found, words_found};
use super::{
    anchor_of, structure_from, symbols_tried, total_size, AnchorCandidate, MAX_ANCHOR_HITS,
    MAX_POINTER_HITS,
};
use crate::platform::{u64_at, Contents, MemoryRegion};
use crate::report::NoteView;
use crate::text::{
    address_chars, address_text, decimal_digits, decimal_text, short_hex, short_hex_text,
};

verus! {

/// How much is searched.
pub open spec fn regions_line(count: nat, bytes: u64) -> Seq<char> {
    "stripped HotSpot fallback: scanning "@ + decimal_digits(count) + " readable regions ("@
        + decimal_digits((bytes / 1024 / 1024) as nat) + " MiB)"@
}

/// How many symbols may be that of `java/lang/Object`.
pub open spec fn symbols_line(count: nat) -> Seq<char> {
    "structural anchors: "@ + decimal_digits(count) + " valid java/lang/Object Symbol candidates"@
}

/// How often a symbol is referred to.
pub open spec fn references_line(symbol: u64, count: nat) -> Seq<char> {
    "Object Symbol candidate "@ + address_chars(symbol) + ": "@ + decimal_digits(count)
        + " aligned references"@
}

/// How many classes, and how many graphs of a class and its pool, the references led to.
pub open spec fn candidates_line(klass_candidates: nat, core_graphs: nat) -> Seq<char> {
    "structural candidates: klass-vtable="@ + decimal_digits(klass_candidates)
        + " self-consistent CP graphs="@ + decimal_digits(core_graphs)
}

/// The layout that the best candidate tells.
pub open spec fn layout_line(best: AnchorCandidate) -> Seq<char> {
    "structural layout: Symbol="@ + address_chars(best.symbol) + " InstanceKlass="@ + address_chars(
        best.klass,
    ) + " name=0x"@ + short_hex(best.layout.klass_name as nat) + " constants=0x"@ + short_hex(
        best.layout.ik_constants as nat,
    ) + " CP.tags=0x"@ + short_hex(best.layout.cp_tags as nat) + " CP.size=0x"@ + short_hex(
        best.layout.cp_size as nat,
    ) + " profile-score="@ + decimal_digits(best.score as nat) + "/7"@
}

/// How many classes the pools led to.
pub open spec fn classes_line(count: nat) -> Seq<char> {
    "structural ConstantPool traversal: "@ + decimal_digits(count) + " validated classes"@
}

/// What is told of the references to the first `count` symbols.
pub open spec fn reference_notes(
    memory: Contents,
    regions: Seq<MemoryRegion>,
    symbols: Seq<u64>,
    count: nat,
) -> Seq<NoteView> {
    Seq::new(
        count,
        |i: int|
            NoteView::Info(
                references_line(
                    symbols[i],
                    words_found(memory, regions, symbols[i], MAX_POINTER_HITS as nat).len(),
                ),
            ),
    )
}

/// What is told once the best candidate is known: its layout, and the classes that hang on it if
/// they are found and hold.
pub open spec fn structure_notes(
    memory: Contents,
    regions: Seq<MemoryRegion>,
    jvm_base: u64,
    jvm_end: u64,
    best: AnchorCandidate,
) -> Seq<NoteView> {
    if u64_at(memory, best.klass.wrapping_add(best.layout.ik_constants)) matches Ok(object_pool)
        && u64_at(memory, object_pool) is Ok {
        let told = seq![NoteView::Info(layout_line(best))];
        match structure_from(memory, regions, jvm_base, jvm_end, best) {
            Err(_) => told,
            Ok(found) => told.push(NoteView::Info(classes_line(found.classes.len()))),
        }
    } else {
        Seq::empty()
    }
}

/// What is told once the symbols are known.
pub open spec fn anchor_notes(
    memory: Contents,
    regions: Seq<MemoryRegion>,
    symbols: Seq<u64>,
    jvm_base: u64,
    jvm_end: u64,
) -> Seq<NoteView> {
    let told = reference_notes(memory, regions, symbols, symbols.len());
    match anchor_of(memory, regions, symbols, jvm_base, jvm_end) {
        Err(_) => told,
        Ok(best) => {
            let search = symbols_tried(memory, regions, jvm_base, jvm_end, symbols, symbols.len());
            told.push(
                NoteView::Info(candidates_line(search.klass_candidates, search.core_graphs)),
            ) + structure_notes(memory, regions, jvm_base, jvm_end, best)
        },
    }
}

/// What is told of a search of the regions, up to where it fails if it does.
pub open spec fn search_notes(
    memory: Contents,
    regions: Seq<MemoryRegion>,
    jvm_base: u64,
    jvm_size: nat,
) -> Seq<NoteView> {
    if regions.len() == 0 {
        Seq::empty()
    } else {
        let told = seq![NoteView::Info(regions_line(regions.len(), total_size(regions)))];
        match symbols_found(
            memory,
            regions,
            encode_utf8(OBJECT_NAME@),
            MAX_ANCHOR_HITS as nat,
        ) {
            Err(_) => told,
            Ok(symbols) => if symbols.len() == 0 {
                told
            } else if jvm_base + jvm_size > u64::MAX {
                told.push(NoteView::Info(symbols_line(symbols.len())))
            } else {
                told.push(NoteView::Info(symbols_line(symbols.len()))) + anchor_notes(
                    memory,
                    regions,
                    symbols,
                    jvm_base,
                    (jvm_base + jvm_size) as u64,
                )
            },
        }
    }
}

/// Tells how much is searched.
pub fn tell_regions(count: usize, bytes: u64) -> (line: String)
    ensures
        line@ == regions_line(count as nat, bytes),
{
    let mut line = "stripped HotSpot fallback: scanning ".to_owned();
    line.append(decimal_text(count as u64).as_str());
    line.append(" readable regions (");
    line.append(decimal_text(bytes / 1024 / 1024).as_str());
    line.append(" MiB)");
    line
}

/// Tells how many symbols there are to try.
pub fn tell_symbols(count: usize) -> (line: String)
    ensures
        line@ == symbols_line(count as nat),
{
    let mut line = "structural anchors: ".to_owned();
    line.append(decimal_text(count as u64).as_str());
    line.append(" valid java/lang/Object Symbol candidates");
    line
}

/// Tells how often a symbol is referred to.
pub fn tell_references(symbol: u64, count: usize) -> (line: String)
    ensures
        line@ == references_line(symbol, count as nat),
{
    let mut line = "Object Symbol candidate ".to_owned();
    line.append(address_text(symbol).as_str());
    line.append(": ");
    line.append(decimal_text(count as u64).as_str());
    line.append(" aligned references");
    line
}

/// Tells what the references led to.
pub fn tell_candidates(klass_candidates: u64, core_graphs: u64) -> (line: String)
    ensures
        line@ == candidates_line(klass_candidates as nat, core_graphs as nat),
{
    let mut line = "structural candidates: klass-vtable=".to_owned();
    line.append(decimal_text(klass_candidates).as_str());
    line.append(" self-consistent CP graphs=");
    line.append(decimal_text(core_graphs).as_str());
    line
}

/// Tells the layout that the best candidate tells.
pub fn tell_layout(best: &AnchorCandidate) -> (line: String)
    ensures
        line@ == layout_line(*best),
{
    let mut line = "structural layout: Symbol=".to_owned();
    line.append(address_text(best.symbol).as_str());
    line.append(" InstanceKlass=");
    line.append(address_text(best.klass).as_str());
    line.append(" name=0x");
    line.append(short_hex_text(best.layout.klass_name).as_str());
    line.append(" constants=0x");
    line.append(short_hex_text(best.layout.ik_constants).as_str());
    line.append(" CP.tags=0x");
    line.append(short_hex_text(best.layout.cp_tags).as_str());
    line.append(" CP.size=0x");
    line.append(short_hex_text(best.layout.cp_size).as_str());
    line.append(" profile-score=");
    line.append(decimal_text(best.score as u64).as_str());
    line.append("/7");
    line
}

/// Tells how many classes the pools led to.
pub fn tell_classes(count: usize) -> (line: String)
    ensures
        line@ == classes_line(count as nat),
{
    let mut line = "structural ConstantPool traversal: ".to_owned();
    line.append(decimal_text(count as u64).as_str());
    line.append(" validated classes");
    line
}

} // verus!
