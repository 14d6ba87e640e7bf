//! The fallback for a HotSpot that describes itself nowhere: its structures are recognized by
//! their shape in the target's memory.
pub mod anchors;
pub mod found;
pub mod layout;
pub mod names;
pub mod offsets;
pub mod profile;
pub mod progress;
pub mod regions;
pub mod scan;
pub mod shape;
pub mod validated;

use std::collections::HashSet;
use vstd::prelude::*;
use vstd::utf8::encode_utf8;

use self::layout::{
    core_layout_of, infer_core_layout, profile_entries, profile_score, profile_sizes,
    profile_vmstructs, profile_vmtypes, read_symbol, symbol_text, validate_jdk8_profile, within,
    CoreLayout, OBJECT_NAME,
};
use self::offsets::{IK_MAJOR_VERSION, KLASS_SUPER};
use self::progress::{
    candidates_line, classes_line, layout_line, reference_notes, references_line, regions_line,
    search_notes, structure_notes, symbols_line, tell_candidates, tell_classes, tell_layout,
    tell_references, tell_regions, tell_symbols,
};
use self::scan::{scan_symbols, scan_u64, symbols_found, words_found};
use super::dictionary::{sort_by_name, sorted_arrangement, ClassView, DiscoveredClass};
use super::vmstructs::VmStructTable;
use super::vmtypes::VmTypes;
use crate::lists::{views, views_push};
use crate::platform::{u16_at, u32_at, u64_at, Contents, MemoryRegion, RemoteMemory};
use crate::report::{note, Note, NoteView};
use crate::text::{decimal_digits, decimal_text, joined, plain, same_text, Error, Outcome};

verus! {

broadcast use vstd::std_specs::hash::group_hash_axioms;

/// The most symbols that are tried as that of `java/lang/Object`.
pub const MAX_ANCHOR_HITS: usize = 64;

/// The most references to a symbol that are tried.
pub const MAX_POINTER_HITS: usize = 100_000;

/// The most classes that a target is believed to have.
pub const MAX_CLASSES: usize = 1_000_000;

/// What was found by shape: the tables of the profile, the classes, and where they hang.
pub struct StructuralDiscovery {
    pub structs: VmStructTable,
    pub types: VmTypes,
    pub classes: Vec<DiscoveredClass>,
    pub object_symbol: u64,
    pub object_klass: u64,
    pub constant_pool_vtable: u64,
    pub constant_pool_size: u64,
    pub scanned_bytes: u64,
}

/// A class that may be `java/lang/Object`, and how well it fits.
#[derive(Debug, Clone, Copy, PartialEq, Eq, Structural)]
pub struct AnchorCandidate {
    pub score: usize,
    pub symbol: u64,
    pub klass: u64,
    pub layout: CoreLayout,
}

/// How far the search for `java/lang/Object` has come: the best candidate, and how many classes and
/// how many graphs of a class and its pool were met.
pub struct AnchorSearch {
    pub best: Option<AnchorCandidate>,
    pub klass_candidates: nat,
    pub core_graphs: nat,
}

/// The search once a reference to `symbol` at `location` was tried as the name of a class that
/// starts `name_offset` before it. Of equally good candidates the first is kept.
#[verifier::opaque]
pub open spec fn offset_tried(
    memory: Contents,
    jvm_base: u64,
    jvm_end: u64,
    symbol: u64,
    location: u64,
    name_offset: u64,
    search: AnchorSearch,
) -> AnchorSearch {
    if location < name_offset {
        search
    } else {
        let klass = (location - name_offset) as u64;
        match u64_at(memory, klass) {
            Err(_) => search,
            Ok(vtable) => if !within(jvm_base, jvm_end, vtable) {
                search
            } else {
                let met = AnchorSearch {
                    klass_candidates: search.klass_candidates + 1,
                    ..search
                };
                match core_layout_of(memory, klass, name_offset, jvm_base, jvm_end) {
                    Err(_) => met,
                    Ok(layout) => {
                        let score = profile_score(
                            memory,
                            klass,
                            layout,
                            jvm_base,
                            jvm_end,
                        ) as usize;
                        AnchorSearch {
                            best: if search.best matches Some(old) && score <= old.score {
                                search.best
                            } else {
                                Some(AnchorCandidate { score, symbol, klass, layout })
                            },
                            core_graphs: met.core_graphs + 1,
                            ..met
                        }
                    },
                }
            },
        }
    }
}

/// The search once a reference was tried with the offsets from `name_offset` on.
pub open spec fn offsets_tried(
    memory: Contents,
    jvm_base: u64,
    jvm_end: u64,
    symbol: u64,
    location: u64,
    name_offset: u64,
    search: AnchorSearch,
) -> AnchorSearch
    decreases 0x88 - name_offset,
{
    if name_offset > 0x80 {
        search
    } else {
        offsets_tried(
            memory,
            jvm_base,
            jvm_end,
            symbol,
            location,
            (name_offset + 8) as u64,
            offset_tried(memory, jvm_base, jvm_end, symbol, location, name_offset, search),
        )
    }
}

/// The search once the first `count` references to `symbol` were tried.
pub open spec fn locations_tried(
    memory: Contents,
    jvm_base: u64,
    jvm_end: u64,
    symbol: u64,
    locations: Seq<u64>,
    count: nat,
    search: AnchorSearch,
) -> AnchorSearch
    decreases count,
{
    if count == 0 {
        search
    } else {
        offsets_tried(
            memory,
            jvm_base,
            jvm_end,
            symbol,
            locations[count - 1],
            8,
            locations_tried(
                memory,
                jvm_base,
                jvm_end,
                symbol,
                locations,
                (count - 1) as nat,
                search,
            ),
        )
    }
}

/// The search once the first `count` symbols were tried.
pub open spec fn symbols_tried(
    memory: Contents,
    regions: Seq<MemoryRegion>,
    jvm_base: u64,
    jvm_end: u64,
    symbols: Seq<u64>,
    count: nat,
) -> AnchorSearch
    decreases count,
{
    if count == 0 {
        AnchorSearch { best: None, klass_candidates: 0, core_graphs: 0 }
    } else {
        let symbol = symbols[count - 1];
        let locations = words_found(memory, regions, symbol, MAX_POINTER_HITS as nat);
        locations_tried(
            memory,
            jvm_base,
            jvm_end,
            symbol,
            locations,
            locations.len(),
            symbols_tried(memory, regions, jvm_base, jvm_end, symbols, (count - 1) as nat),
        )
    }
}

/// The best candidate for `java/lang/Object`, given the symbols that have its name.
pub open spec fn anchor_of(
    memory: Contents,
    regions: Seq<MemoryRegion>,
    symbols: Seq<u64>,
    jvm_base: u64,
    jvm_end: u64,
) -> Outcome<AnchorCandidate> {
    let search = symbols_tried(memory, regions, jvm_base, jvm_end, symbols, symbols.len());
    match search.best {
        Some(best) => Ok(best),
        None => Err(
            "could not connect java/lang/Object Symbol to an InstanceKlass/ConstantPool graph (klass-vtable candidates="@
                + decimal_digits(search.klass_candidates) + ", CP graphs="@ + decimal_digits(
                search.core_graphs,
            ) + ")"@,
        ),
    }
}

/// Whether a name is that of a class in internal form: not empty, not too long, not that of an
/// array, and without blanks and control characters.
pub open spec fn is_internal_name(name: Seq<char>) -> bool {
    let bytes = encode_utf8(name);
    &&& 0 < bytes.len() <= 4096
    &&& bytes[0] != 0x5b
    &&& forall|i: int| 0 <= i < bytes.len() ==> bytes[i] > 0x20
}

/// The class at `klass`, if it is one whose pool is at `pool`.
pub open spec fn class_of_pool(
    memory: Contents,
    core: CoreLayout,
    jvm_base: u64,
    jvm_end: u64,
    pool: u64,
    klass: u64,
) -> Option<ClassView> {
    let belongs = {
        &&& u64_at(memory, klass) matches Ok(vtable) && within(jvm_base, jvm_end, vtable)
        &&& u64_at(memory, klass.wrapping_add(core.ik_constants)) == Ok::<u64, Seq<char>>(pool)
        &&& u64_at(memory, pool.wrapping_add(core.cp_tags)) matches Ok(tags) && (u32_at(
            memory,
            pool.wrapping_add(core.cp_length),
        ) matches Ok(length) && 2 <= length < 65535 && u32_at(memory, tags) == Ok::<u32, Seq<char>>(
            length,
        ))
    };
    if !belongs {
        None
    } else {
        match u64_at(memory, klass.wrapping_add(core.klass_name)) {
            Err(_) => None,
            Ok(symbol) => match symbol_text(memory, symbol) {
                Err(_) => None,
                Ok(name) => if is_internal_name(name) {
                    Some(ClassView { klass, internal_name: name })
                } else {
                    None
                },
            },
        }
    }
}

/// What was met of the pools: the classes that they belong to, and those of them that are valid.
pub struct PoolWalk {
    pub klasses: Set<u64>,
    pub classes: Seq<ClassView>,
}

/// The walk once the pool at `pool` was met. A class is looked at once.
pub open spec fn pool_met(
    memory: Contents,
    core: CoreLayout,
    jvm_base: u64,
    jvm_end: u64,
    pool: u64,
    walk: PoolWalk,
) -> PoolWalk {
    match u64_at(memory, pool.wrapping_add(core.cp_holder)) {
        Err(_) => walk,
        Ok(klass) => if klass == 0 || walk.klasses.contains(klass) {
            walk
        } else {
            PoolWalk {
                klasses: walk.klasses.insert(klass),
                classes: match class_of_pool(memory, core, jvm_base, jvm_end, pool, klass) {
                    Some(class) => walk.classes.push(class),
                    None => walk.classes,
                },
            }
        },
    }
}

/// The walk once the first `count` pools were met.
pub open spec fn pools_met(
    memory: Contents,
    core: CoreLayout,
    jvm_base: u64,
    jvm_end: u64,
    pools: Seq<u64>,
    count: nat,
) -> PoolWalk
    decreases count,
{
    if count == 0 {
        PoolWalk { klasses: Set::empty(), classes: Seq::empty() }
    } else {
        pool_met(
            memory,
            core,
            jvm_base,
            jvm_end,
            pools[count - 1],
            pools_met(memory, core, jvm_base, jvm_end, pools, (count - 1) as nat),
        )
    }
}

/// The classes whose pools, recognized by their virtual table, lie in the regions.
pub open spec fn classes_by_pool(
    memory: Contents,
    regions: Seq<MemoryRegion>,
    cp_vtable: u64,
    core: CoreLayout,
    jvm_base: u64,
    jvm_end: u64,
) -> Outcome<Seq<ClassView>> {
    let pools = words_found(memory, regions, cp_vtable, (MAX_CLASSES + 1) as nat);
    if pools.len() > MAX_CLASSES {
        Err("ConstantPool candidate safety limit exceeded"@)
    } else {
        Ok(pools_met(memory, core, jvm_base, jvm_end, pools, pools.len()).classes)
    }
}

/// The first of the classes that has the name `name`.
pub open spec fn class_named(classes: Seq<ClassView>, name: Seq<char>) -> Option<ClassView>
    decreases classes.len(),
{
    if classes.len() == 0 {
        None
    } else if classes[0].internal_name == name {
        Some(classes[0])
    } else {
        class_named(classes.skip(1), name)
    }
}

/// Whether the class `name` was found and derives from `object`, is one of Java 8, and is the
/// holder of its pool.
pub open spec fn anchor_check(
    memory: Contents,
    classes: Seq<ClassView>,
    core: CoreLayout,
    object: u64,
    name: Seq<char>,
) -> Outcome<()> {
    match class_named(classes, name) {
        None => Err("structural validation did not find "@ + name),
        Some(class) => match u64_at(memory, class.klass.wrapping_add(KLASS_SUPER)) {
            Err(reason) => Err(reason),
            Ok(super_klass) => if super_klass != object {
                Err(name + " does not have java/lang/Object at inferred Klass::_super"@)
            } else {
                match u16_at(memory, class.klass.wrapping_add(IK_MAJOR_VERSION)) {
                    Err(reason) => Err(reason),
                    Ok(major) => if major != 52 {
                        Err(name + " is not a Java 8 class at inferred version offsets"@)
                    } else {
                        match u64_at(memory, class.klass.wrapping_add(core.ik_constants)) {
                            Err(reason) => Err(reason),
                            Ok(pool) => match u64_at(memory, pool.wrapping_add(core.cp_holder)) {
                                Err(reason) => Err(reason),
                                Ok(holder) => if holder != class.klass {
                                    Err(name + " failed ConstantPool::_pool_holder cross-check"@)
                                } else {
                                    Ok(())
                                },
                            },
                        }
                    },
                }
            },
        },
    }
}

/// Whether the classes that every target has were found where the layout says.
pub open spec fn anchors_check(memory: Contents, classes: Seq<ClassView>, core: CoreLayout) -> Outcome<
    (),
> {
    match class_named(classes, "java/lang/Object"@) {
        None => Err("enumeration lost java/lang/Object"@),
        Some(object) => match anchor_check(
            memory,
            classes,
            core,
            object.klass,
            "java/lang/String"@,
        ) {
            Err(reason) => Err(reason),
            Ok(_) => match anchor_check(
                memory,
                classes,
                core,
                object.klass,
                "java/lang/Class"@,
            ) {
                Err(reason) => Err(reason),
                Ok(_) => anchor_check(memory, classes, core, object.klass, "java/lang/System"@),
            },
        },
    }
}

/// What is found by shape, the classes in the order in which they were met.
pub struct StructureView {
    pub core: CoreLayout,
    pub classes: Seq<ClassView>,
    pub object_symbol: u64,
    pub object_klass: u64,
    pub constant_pool_vtable: u64,
    pub scanned_bytes: u64,
}

/// The sizes of the regions added up, modulo the range of the sum.
pub open spec fn total_size(regions: Seq<MemoryRegion>) -> u64
    decreases regions.len(),
{
    if regions.len() == 0 {
        0
    } else {
        total_size(regions.drop_last()).wrapping_add(regions.last().size as u64)
    }
}

/// What hangs on the best candidate for `java/lang/Object`.
pub open spec fn structure_from(
    memory: Contents,
    regions: Seq<MemoryRegion>,
    jvm_base: u64,
    jvm_end: u64,
    best: AnchorCandidate,
) -> Outcome<StructureView> {
    match u64_at(memory, best.klass.wrapping_add(best.layout.ik_constants)) {
        Err(reason) => Err(reason),
        Ok(object_pool) => match u64_at(memory, object_pool) {
            Err(reason) => Err(reason),
            Ok(constant_pool_vtable) => match classes_by_pool(
                memory,
                regions,
                constant_pool_vtable,
                best.layout,
                jvm_base,
                jvm_end,
            ) {
                Err(reason) => Err(reason),
                Ok(classes) => match anchors_check(memory, classes, best.layout) {
                    Err(reason) => Err(reason),
                    Ok(_) => Ok(
                        StructureView {
                            core: best.layout,
                            classes,
                            object_symbol: best.symbol,
                            object_klass: best.klass,
                            constant_pool_vtable,
                            scanned_bytes: total_size(regions),
                        },
                    ),
                },
            },
        },
    }
}

/// What is found by shape in the regions of a target whose `jvm.dll` is at `jvm_base`.
pub open spec fn structure_of(
    memory: Contents,
    regions: Seq<MemoryRegion>,
    jvm_base: u64,
    jvm_size: nat,
) -> Outcome<StructureView> {
    if regions.len() == 0 {
        Err("the target has no readable committed memory regions"@)
    } else {
        match symbols_found(
            memory,
            regions,
            encode_utf8(OBJECT_NAME@),
            MAX_ANCHOR_HITS as nat,
        ) {
            Err(reason) => Err(reason),
            Ok(symbols) => if symbols.len() == 0 {
                Err(
                    "java/lang/Object was found, but no occurrence has a valid JDK 8 Symbol header"@,
                )
            } else if jvm_base + jvm_size > u64::MAX {
                Err("jvm.dll address overflow"@)
            } else {
                let jvm_end = (jvm_base + jvm_size) as u64;
                match anchor_of(memory, regions, symbols, jvm_base, jvm_end) {
                    Err(reason) => Err(reason),
                    Ok(best) => structure_from(memory, regions, jvm_base, jvm_end, best),
                }
            },
        }
    }
}

/// The counters and the best candidate of a running search.
struct Search {
    best: Option<AnchorCandidate>,
    klass_candidates: u64,
    core_graphs: u64,
}

impl View for Search {
    type V = AnchorSearch;

    closed spec fn view(&self) -> AnchorSearch {
        AnchorSearch {
            best: self.best,
            klass_candidates: self.klass_candidates as nat,
            core_graphs: self.core_graphs as nat,
        }
    }
}

impl Search {
    /// Whether a candidate was counted if there is one.
    spec fn is_sound(self) -> bool {
        self.best is Some ==> self.core_graphs > 0
    }
}

fn try_offset<M: RemoteMemory>(
    memory: &M,
    jvm_base: u64,
    jvm_end: u64,
    symbol: u64,
    location: u64,
    name_offset: u64,
    search: &mut Search,
)
    requires
        old(search).core_graphs <= old(search).klass_candidates < u64::MAX,
        old(search).is_sound(),
    ensures
        final(search).is_sound(),
        final(search)@ == offset_tried(
            memory.contents(),
            jvm_base,
            jvm_end,
            symbol,
            location,
            name_offset,
            old(search)@,
        ),
        final(search).core_graphs <= final(search).klass_candidates <= old(search).klass_candidates
            + 1,
{
    reveal(offset_tried);
    if location < name_offset {
        return ;
    }
    let klass = location - name_offset;
    let vtable = match memory.read_u64(klass) {
        Ok(vtable) => vtable,
        Err(_) => {
            return ;
        },
    };
    if vtable < jvm_base || vtable >= jvm_end {
        return ;
    }
    search.klass_candidates += 1;
    let layout = match infer_core_layout(memory, klass, name_offset, jvm_base, jvm_end) {
        Ok(layout) => layout,
        Err(_) => {
            return ;
        },
    };
    search.core_graphs += 1;
    let score = validate_jdk8_profile(memory, klass, &layout, jvm_base, jvm_end);
    let better = match &search.best {
        Some(old) => score > old.score,
        None => true,
    };
    if better {
        search.best = Some(AnchorCandidate { score, symbol, klass, layout });
    }
}

fn try_location<M: RemoteMemory>(
    memory: &M,
    jvm_base: u64,
    jvm_end: u64,
    symbol: u64,
    location: u64,
    search: &mut Search,
)
    requires
        old(search).core_graphs <= old(search).klass_candidates < u64::MAX - 16,
        old(search).is_sound(),
    ensures
        final(search).is_sound(),
        final(search)@ == offsets_tried(
            memory.contents(),
            jvm_base,
            jvm_end,
            symbol,
            location,
            8,
            old(search)@,
        ),
        final(search).core_graphs <= final(search).klass_candidates <= old(search).klass_candidates
            + 16,
{
    let mut name_offset: u64 = 8;
    while name_offset <= 0x80
        invariant
            8 <= name_offset <= 0x88,
            name_offset % 8 == 0,
            search.is_sound(),
            old(search).klass_candidates < u64::MAX - 16,
            search.core_graphs <= search.klass_candidates,
            search.klass_candidates <= old(search).klass_candidates + name_offset / 8 - 1,
            offsets_tried(
                memory.contents(),
                jvm_base,
                jvm_end,
                symbol,
                location,
                8,
                old(search)@,
            ) == offsets_tried(
                memory.contents(),
                jvm_base,
                jvm_end,
                symbol,
                location,
                name_offset,
                search@,
            ),
        decreases 0x88 - name_offset,
    {
        try_offset(memory, jvm_base, jvm_end, symbol, location, name_offset, search);
        name_offset += 8;
    }
}

fn try_symbol<M: RemoteMemory>(
    memory: &M,
    regions: &Vec<MemoryRegion>,
    jvm_base: u64,
    jvm_end: u64,
    symbol: u64,
    search: &mut Search,
    notes: &mut Vec<Note>,
)
    requires
        old(search).core_graphs <= old(search).klass_candidates <= 0x1000_0000,
        old(search).is_sound(),
    ensures
        final(search).is_sound(),
        views(final(notes)@) == views(old(notes)@).push(
            NoteView::Info(
                references_line(
                    symbol,
                    words_found(
                        memory.contents(),
                        regions@,
                        symbol,
                        MAX_POINTER_HITS as nat,
                    ).len(),
                ),
            ),
        ),
        ({
            let locations = words_found(
                memory.contents(),
                regions@,
                symbol,
                MAX_POINTER_HITS as nat,
            );
            final(search)@ == locations_tried(
                memory.contents(),
                jvm_base,
                jvm_end,
                symbol,
                locations,
                locations.len(),
                old(search)@,
            )
        }),
        final(search).core_graphs <= final(search).klass_candidates <= old(search).klass_candidates
            + 1_600_000,
{
    let locations = scan_u64(memory, regions, symbol, MAX_POINTER_HITS);
    note(notes, tell_references(symbol, locations.len()));
    let mut index: usize = 0;
    while index < locations.len()
        invariant
            index <= locations@.len() <= MAX_POINTER_HITS,
            search.is_sound(),
            old(search).klass_candidates <= 0x1000_0000,
            search.core_graphs <= search.klass_candidates,
            search.klass_candidates <= old(search).klass_candidates + 16 * index,
            search@ == locations_tried(
                memory.contents(),
                jvm_base,
                jvm_end,
                symbol,
                locations@,
                index as nat,
                old(search)@,
            ),
        decreases locations@.len() - index,
    {
        try_location(memory, jvm_base, jvm_end, symbol, locations[index], search);
        index += 1;
    }
}

/// Finds the best candidate for `java/lang/Object`, and counts the classes and the graphs that were
/// met. Tells of each symbol how often it is referred to.
fn find_best_anchor<M: RemoteMemory>(
    memory: &M,
    regions: &Vec<MemoryRegion>,
    symbols: &Vec<u64>,
    jvm_base: u64,
    jvm_end: u64,
    notes: &mut Vec<Note>,
) -> (result: Result<(AnchorCandidate, u64, u64), Error>)
    requires
        symbols@.len() <= MAX_ANCHOR_HITS,
    ensures
        match anchor_of(memory.contents(), regions@, symbols@, jvm_base, jvm_end) {
            Err(reason) => result matches Err(error) && error@ == reason,
            Ok(best) => {
                let search = symbols_tried(
                    memory.contents(),
                    regions@,
                    jvm_base,
                    jvm_end,
                    symbols@,
                    symbols@.len(),
                );
                &&& result matches Ok((found, klass_candidates, core_graphs))
                &&& found == best
                &&& klass_candidates == search.klass_candidates
                &&& core_graphs == search.core_graphs
                &&& 1 <= core_graphs <= klass_candidates
            },
        },
        views(final(notes)@) == views(old(notes)@) + reference_notes(
            memory.contents(),
            regions@,
            symbols@,
            symbols@.len(),
        ),
{
    let ghost start = views(notes@);
    let mut search = Search { best: None, klass_candidates: 0, core_graphs: 0 };
    let mut index: usize = 0;
    assert(start + reference_notes(memory.contents(), regions@, symbols@, 0) =~= start);
    while index < symbols.len()
        invariant
            index <= symbols@.len() <= MAX_ANCHOR_HITS,
            search.is_sound(),
            search.core_graphs <= search.klass_candidates,
            search.klass_candidates <= 1_600_000 * index,
            search@ == symbols_tried(
                memory.contents(),
                regions@,
                jvm_base,
                jvm_end,
                symbols@,
                index as nat,
            ),
            views(notes@) == start + reference_notes(
                memory.contents(),
                regions@,
                symbols@,
                index as nat,
            ),
        decreases symbols@.len() - index,
    {
        try_symbol(memory, regions, jvm_base, jvm_end, symbols[index], &mut search, notes);
        assert(views(notes@) =~= start + reference_notes(
            memory.contents(),
            regions@,
            symbols@,
            (index + 1) as nat,
        ));
        index += 1;
    }
    match search.best {
        Some(best) => Ok((best, search.klass_candidates, search.core_graphs)),
        None => {
            let mut text = joined(
                "could not connect java/lang/Object Symbol to an InstanceKlass/ConstantPool graph (klass-vtable candidates=",
                decimal_text(search.klass_candidates).as_str(),
            );
            text = joined(text.as_str(), ", CP graphs=");
            text = joined(text.as_str(), decimal_text(search.core_graphs).as_str());
            Err(Error { text: joined(text.as_str(), ")") })
        },
    }
}

/// Whether a name is that of a class in internal form.
pub fn valid_internal_name(name: &str) -> (valid: bool)
    ensures
        valid == is_internal_name(name@),
{
    let bytes = name.as_bytes();
    if bytes.len() == 0 || bytes.len() > 4096 || bytes[0] == 0x5b {
        return false;
    }
    let mut index: usize = 0;
    while index < bytes.len()
        invariant
            index <= bytes@.len(),
            bytes@ == encode_utf8(name@),
            forall|i: int| 0 <= i < index ==> bytes@[i] > 0x20,
        decreases bytes@.len() - index,
    {
        if bytes[index] <= 0x20 {
            return false;
        }
        index += 1;
    }
    true
}

fn read_class_of_pool<M: RemoteMemory>(
    memory: &M,
    core: &CoreLayout,
    jvm_base: u64,
    jvm_end: u64,
    pool: u64,
    klass: u64,
) -> (class: Option<DiscoveredClass>)
    ensures
        match class_of_pool(memory.contents(), *core, jvm_base, jvm_end, pool, klass) {
            None => class is None,
            Some(view) => class matches Some(found) && found@ == view,
        },
{
    match memory.read_u64(klass) {
        Ok(vtable) => if vtable < jvm_base || vtable >= jvm_end {
            return None;
        },
        Err(_) => {
            return None;
        },
    }
    match memory.read_u64(klass.wrapping_add(core.ik_constants)) {
        Ok(own) => if own != pool {
            return None;
        },
        Err(_) => {
            return None;
        },
    }
    let tags = match memory.read_u64(pool.wrapping_add(core.cp_tags)) {
        Ok(tags) => tags,
        Err(_) => {
            return None;
        },
    };
    let length = match memory.read_u32(pool.wrapping_add(core.cp_length)) {
        Ok(length) => length,
        Err(_) => {
            return None;
        },
    };
    if length < 2 || length >= 65535 {
        return None;
    }
    match memory.read_u32(tags) {
        Ok(tag_length) => if tag_length != length {
            return None;
        },
        Err(_) => {
            return None;
        },
    }
    let symbol = match memory.read_u64(klass.wrapping_add(core.klass_name)) {
        Ok(symbol) => symbol,
        Err(_) => {
            return None;
        },
    };
    let internal_name = match read_symbol(memory, symbol) {
        Ok(name) => name,
        Err(_) => {
            return None;
        },
    };
    if !valid_internal_name(internal_name.as_str()) {
        return None;
    }
    Some(DiscoveredClass { klass, internal_name })
}

fn enumerate_constant_pools<M: RemoteMemory>(
    memory: &M,
    regions: &Vec<MemoryRegion>,
    cp_vtable: u64,
    core: &CoreLayout,
    jvm_base: u64,
    jvm_end: u64,
) -> (result: Result<Vec<DiscoveredClass>, Error>)
    ensures
        match classes_by_pool(memory.contents(), regions@, cp_vtable, *core, jvm_base, jvm_end) {
            Err(reason) => result matches Err(error) && error@ == reason,
            Ok(met) => result matches Ok(classes) && views(classes@) == met,
        },
{
    let pools = scan_u64(memory, regions, cp_vtable, MAX_CLASSES + 1);
    if pools.len() > MAX_CLASSES {
        return Err(Error::new("ConstantPool candidate safety limit exceeded"));
    }
    let mut klasses: HashSet<u64> = HashSet::new();
    let mut classes: Vec<DiscoveredClass> = Vec::new();
    let mut index: usize = 0;
    assert(views(classes@) =~= Seq::empty());
    while index < pools.len()
        invariant
            index <= pools@.len(),
            ({
                let walk = pools_met(
                    memory.contents(),
                    *core,
                    jvm_base,
                    jvm_end,
                    pools@,
                    index as nat,
                );
                &&& klasses@ == walk.klasses
                &&& views(classes@) == walk.classes
            }),
        decreases pools@.len() - index,
    {
        let pool = pools[index];
        if let Ok(klass) = memory.read_u64(pool.wrapping_add(core.cp_holder)) {
            if klass != 0 && klasses.insert(klass) {
                if let Some(class) = read_class_of_pool(
                    memory,
                    core,
                    jvm_base,
                    jvm_end,
                    pool,
                    klass,
                ) {
                    proof {
                        views_push(classes@, class);
                    }
                    classes.push(class);
                }
            }
        }
        assert(klasses@ =~= pools_met(
            memory.contents(),
            *core,
            jvm_base,
            jvm_end,
            pools@,
            (index + 1) as nat,
        ).klasses);
        index += 1;
    }
    Ok(classes)
}

fn find_class<'a>(classes: &'a Vec<DiscoveredClass>, name: &str) -> (found: Option<
    &'a DiscoveredClass,
>)
    ensures
        match class_named(views(classes@), name@) {
            None => found is None,
            Some(view) => found matches Some(class) && class@ == view,
        },
{
    let ghost all = views(classes@);
    let mut index: usize = 0;
    assert(all.skip(0) =~= all);
    while index < classes.len()
        invariant
            index <= classes@.len(),
            all == views(classes@),
            class_named(all, name@) == class_named(all.skip(index as int), name@),
        decreases classes@.len() - index,
    {
        let class = &classes[index];
        assert(all.skip(index as int)[0] == class@);
        if same_text(class.internal_name.as_str(), name) {
            return Some(class);
        }
        assert(all.skip(index as int).skip(1) =~= all.skip(index + 1));
        index += 1;
    }
    None
}

fn check_anchor<M: RemoteMemory>(
    memory: &M,
    classes: &Vec<DiscoveredClass>,
    core: &CoreLayout,
    object: u64,
    name: &str,
) -> (result: Result<(), Error>)
    ensures
        plain(result) == anchor_check(memory.contents(), views(classes@), *core, object, name@),
{
    let class = match find_class(classes, name) {
        Some(class) => class,
        None => {
            return Err(Error { text: joined("structural validation did not find ", name) });
        },
    };
    if memory.read_u64(class.klass.wrapping_add(KLASS_SUPER))? != object {
        return Err(
            Error {
                text: joined(name, " does not have java/lang/Object at inferred Klass::_super"),
            },
        );
    }
    if memory.read_u16(class.klass.wrapping_add(IK_MAJOR_VERSION))? != 52 {
        return Err(
            Error { text: joined(name, " is not a Java 8 class at inferred version offsets") },
        );
    }
    let pool = memory.read_u64(class.klass.wrapping_add(core.ik_constants))?;
    if memory.read_u64(pool.wrapping_add(core.cp_holder))? != class.klass {
        return Err(Error { text: joined(name, " failed ConstantPool::_pool_holder cross-check") });
    }
    Ok(())
}

fn validate_anchor_set<M: RemoteMemory>(
    memory: &M,
    classes: &Vec<DiscoveredClass>,
    core: &CoreLayout,
) -> (result: Result<(), Error>)
    ensures
        plain(result) == anchors_check(memory.contents(), views(classes@), *core),
{
    let object = match find_class(classes, "java/lang/Object") {
        Some(class) => class.klass,
        None => {
            return Err(Error::new("enumeration lost java/lang/Object"));
        },
    };
    check_anchor(memory, classes, core, object, "java/lang/String")?;
    check_anchor(memory, classes, core, object, "java/lang/Class")?;
    check_anchor(memory, classes, core, object, "java/lang/System")
}

fn add_sizes(regions: &Vec<MemoryRegion>) -> (total: u64)
    ensures
        total == total_size(regions@),
{
    let mut total: u64 = 0;
    let mut index: usize = 0;
    assert(regions@.take(0) =~= Seq::empty());
    while index < regions.len()
        invariant
            index <= regions@.len(),
            total == total_size(regions@.take(index as int)),
        decreases regions@.len() - index,
    {
        assert(regions@.take(index + 1).drop_last() =~= regions@.take(index as int));
        total = total.wrapping_add(regions[index].size as u64);
        index += 1;
    }
    assert(regions@.take(index as int) =~= regions@);
    total
}

/// Finds what hangs on the best candidate: the virtual table of the pools, and the classes.
fn find_classes<M: RemoteMemory>(
    memory: &M,
    regions: &Vec<MemoryRegion>,
    jvm_base: u64,
    jvm_end: u64,
    best: &AnchorCandidate,
    notes: &mut Vec<Note>,
) -> (result: Result<(u64, Vec<DiscoveredClass>), Error>)
    ensures
        match structure_from(memory.contents(), regions@, jvm_base, jvm_end, *best) {
            Err(reason) => result matches Err(error) && error@ == reason,
            Ok(found) => result matches Ok((vtable, classes)) && vtable
                == found.constant_pool_vtable && views(classes@) == found.classes,
        },
        views(final(notes)@) == views(old(notes)@) + structure_notes(
            memory.contents(),
            regions@,
            jvm_base,
            jvm_end,
            *best,
        ),
{
    assert(views(notes@) + Seq::<NoteView>::empty() =~= views(notes@));
    let object_pool = memory.read_u64(best.klass.wrapping_add(best.layout.ik_constants))?;
    let constant_pool_vtable = memory.read_u64(object_pool)?;
    let ghost told = NoteView::Info(layout_line(*best));
    note(notes, tell_layout(best));
    assert(views(notes@) =~= views(old(notes)@) + seq![told]);
    let classes = enumerate_constant_pools(
        memory,
        regions,
        constant_pool_vtable,
        &best.layout,
        jvm_base,
        jvm_end,
    )?;
    validate_anchor_set(memory, &classes, &best.layout)?;
    note(notes, tell_classes(classes.len()));
    assert(views(notes@) =~= views(old(notes)@) + seq![told].push(
        NoteView::Info(classes_line(classes@.len())),
    ));
    Ok((constant_pool_vtable, classes))
}

/// Finds the classes of the target by shape, and tells how far the search came.
pub fn discover<M: RemoteMemory>(
    memory: &M,
    regions: &Vec<MemoryRegion>,
    jvm_base: u64,
    jvm_size: usize,
    notes: &mut Vec<Note>,
) -> (result: Result<StructuralDiscovery, Error>)
    ensures
        match structure_of(memory.contents(), regions@, jvm_base, jvm_size as nat) {
            Err(reason) => result matches Err(error) && error@ == reason,
            Ok(found) => {
                &&& result matches Ok(discovery)
                &&& discovery.structs@ == profile_entries(found.core)
                &&& discovery.types@ == profile_sizes(found.core.cp_size)
                &&& sorted_arrangement(views(discovery.classes@), found.classes)
                &&& discovery.object_symbol == found.object_symbol
                &&& discovery.object_klass == found.object_klass
                &&& discovery.constant_pool_vtable == found.constant_pool_vtable
                &&& discovery.constant_pool_size == found.core.cp_size
                &&& discovery.scanned_bytes == found.scanned_bytes
            },
        },
        views(final(notes)@) == views(old(notes)@) + search_notes(
            memory.contents(),
            regions@,
            jvm_base,
            jvm_size as nat,
        ),
{
    let ghost start = views(notes@);
    let ghost contents = memory.contents();
    assert(start + Seq::<NoteView>::empty() =~= start);
    let scanned_bytes = add_sizes(regions);
    if regions.len() == 0 {
        return Err(Error::new("the target has no readable committed memory regions"));
    }
    let ghost first = seq![NoteView::Info(regions_line(regions@.len(), scanned_bytes))];
    note(notes, tell_regions(regions.len(), scanned_bytes));
    assert(views(notes@) =~= start + first);
    let symbols = scan_symbols(memory, regions, OBJECT_NAME.as_bytes(), MAX_ANCHOR_HITS)?;
    if symbols.len() == 0 {
        return Err(
            Error::new(
                "java/lang/Object was found, but no occurrence has a valid JDK 8 Symbol header",
            ),
        );
    }
    let ghost second = first.push(NoteView::Info(symbols_line(symbols@.len())));
    note(notes, tell_symbols(symbols.len()));
    assert(views(notes@) =~= start + second);
    let jvm_end = match jvm_base.checked_add(jvm_size as u64) {
        Some(jvm_end) => jvm_end,
        None => {
            return Err(Error::new("jvm.dll address overflow"));
        },
    };
    let ghost references = reference_notes(contents, regions@, symbols@, symbols@.len());
    let anchor = find_best_anchor(memory, regions, &symbols, jvm_base, jvm_end, notes);
    assert(views(notes@) =~= start + (second + references));
    let (best, klass_candidates, core_graphs) = anchor?;
    let ghost counted = references.push(
        NoteView::Info(candidates_line(klass_candidates as nat, core_graphs as nat)),
    );
    note(notes, tell_candidates(klass_candidates, core_graphs));
    assert(views(notes@) =~= start + (second + counted));
    let found = find_classes(memory, regions, jvm_base, jvm_end, &best, notes);
    assert(views(notes@) =~= start + (second + (counted + structure_notes(
        contents,
        regions@,
        jvm_base,
        jvm_end,
        best,
    ))));
    let (constant_pool_vtable, classes) = found?;
    Ok(
        StructuralDiscovery {
            structs: profile_vmstructs(best.layout),
            types: profile_vmtypes(best.layout.cp_size),
            classes: sort_by_name(classes),
            object_symbol: best.symbol,
            object_klass: best.klass,
            constant_pool_vtable,
            constant_pool_size: best.layout.cp_size,
            scanned_bytes,
        },
    )
}

} // verus!
