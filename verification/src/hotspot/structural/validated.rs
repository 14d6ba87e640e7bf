//! What the profile of JDK 8 is, and by what a class is held against it.
use vstd::prelude::*;
use vstd::utf8::encode_utf8;

use super::layout::{
    methods_in_profile, plausible_method, plausible_methods, profile_entries, profile_score,
    profile_sizes, CoreLayout,
};
use super::profile::profile_is_complete;
use super::progress::{reference_notes, regions_line, search_notes};
use super::scan::{symbols_found, words_found};
use super::{
    anchor_of, anchors_check, class_named, classes_by_pool, locations_tried, structure_of,
    symbols_tried, total_size, AnchorCandidate, StructureView,
};
use crate::hotspot::dictionary::ClassView;
use crate::hotspot::reconstruct::layout_of;
use crate::platform::{u16_at, u32_at, u64_at, Contents, MemoryRegion};
use crate::report::NoteView;
use crate::text::{address_chars, decimal_digits, short_hex};

verus! {

/// The profile has the offsets that were told from memory, and those of an x64 build of JDK 8 for the
/// rest.
pub proof fn profile_is_that_of_jdk_8(core: CoreLayout)
    ensures
        ({
            &&& layout_of(profile_entries(core), profile_sizes(core.cp_size)) matches Ok(layout)
            &&& layout.klass_name == core.klass_name
            &&& layout.klass_super == 0x78
            &&& layout.klass_flags == 0xa4
            &&& layout.ik_constants == core.ik_constants
            &&& layout.ik_generic == 0xf8
            &&& layout.ik_field_count == 0xfe
            &&& layout.ik_minor == 0x10a
            &&& layout.ik_major == 0x10c
            &&& layout.ik_methods == 0x178
            &&& layout.ik_interfaces == 0x188
            &&& layout.ik_fields == 0x1a8
            &&& layout.cp_tags == core.cp_tags
            &&& layout.cp_length == core.cp_length
            &&& layout.cp_size == core.cp_size
            &&& layout.cp_cache == 0x18
            &&& layout.cp_operands == 0x28
            &&& layout.cp_reference_map == 0x38
            &&& layout.symbol_len == 0
            &&& layout.symbol_body == 8
            &&& layout.array_len == 0
            &&& layout.array_ptr_data == 8
            &&& layout.method_const == 0x08
            &&& layout.method_flags == 0x28
            &&& layout.cm_stackmap == 0x10
            &&& layout.cm_size == 0x18
            &&& layout.cm_flags == 0x1c
            &&& layout.cm_code_size == 0x20
            &&& layout.cm_name == 0x22
            &&& layout.cm_sig == 0x24
            &&& layout.cm_max_stack == 0x28
            &&& layout.cm_max_locals == 0x2a
            &&& layout.cm_header_size == 0x30
            &&& layout.cache_length == 0
            &&& layout.cache_header_size == 0x10
            &&& layout.cache_entry_indices == 0
            &&& layout.cache_entry_size == 0x20
        }),
{
    profile_is_complete(core);
}

/// Whether the `index`-th tag behind `tags` is that of a text, of `length` tags.
pub open spec fn is_text_tag(memory: Contents, tags: u64, length: u32, index: u16) -> bool {
    &&& index < length
    &&& memory(tags.wrapping_add(4).wrapping_add(index as u64), 1) matches Ok(tag)
    &&& tag[0] == 1
}

/// A slot holds a method of a pool if the method is an object of the module, its `ConstMethod` has that
/// pool, and its name and its signature are texts in it.
pub proof fn method_of_a_pool_is_recognized(
    memory: Contents,
    slot: u64,
    pool: u64,
    tags: u64,
    length: u32,
    jvm_base: u64,
    jvm_end: u64,
    method: u64,
    vtable: u64,
    const_method: u64,
    name: u16,
    signature: u16,
)
    requires
        u64_at(memory, slot) == Ok::<u64, Seq<char>>(method),
        u64_at(memory, method) == Ok::<u64, Seq<char>>(vtable),
        u64_at(memory, method.wrapping_add(8)) == Ok::<u64, Seq<char>>(const_method),
        u16_at(memory, const_method.wrapping_add(0x22)) == Ok::<u16, Seq<char>>(name),
        u16_at(memory, const_method.wrapping_add(0x24)) == Ok::<u16, Seq<char>>(signature),
    ensures
        plausible_method(memory, slot, pool, tags, length, jvm_base, jvm_end) <==> {
            &&& jvm_base <= vtable < jvm_end
            &&& u64_at(memory, const_method.wrapping_add(8)) == Ok::<u64, Seq<char>>(pool)
            &&& is_text_tag(memory, tags, length, name)
            &&& is_text_tag(memory, tags, length, signature)
        },
{
}

/// Each slot that holds a method of the pool counts once, and no other counts.
pub proof fn methods_of_a_pool_are_counted(
    memory: Contents,
    slots: u64,
    count: nat,
    pool: u64,
    tags: u64,
    length: u32,
    jvm_base: u64,
    jvm_end: u64,
)
    ensures
        plausible_methods(memory, slots, 0, pool, tags, length, jvm_base, jvm_end) == 0,
        plausible_methods(memory, slots, count + 1, pool, tags, length, jvm_base, jvm_end)
            == plausible_methods(memory, slots, count, pool, tags, length, jvm_base, jvm_end) + (
        if plausible_method(
            memory,
            slots.wrapping_add((8 * count) as u64),
            pool,
            tags,
            length,
            jvm_base,
            jvm_end,
        ) {
            1nat
        } else {
            0
        }),
{
}

/// Of the methods of the class at `object` the first twelve are looked at, if it has between four and
/// 256, against the pool that it has.
pub proof fn first_methods_are_looked_at(
    memory: Contents,
    object: u64,
    core: CoreLayout,
    jvm_base: u64,
    jvm_end: u64,
    methods: u64,
    count: u32,
    pool: u64,
    tags: u64,
    length: u32,
)
    requires
        u64_at(memory, object.wrapping_add(0x178)) == Ok::<u64, Seq<char>>(methods),
        u32_at(memory, methods) == Ok::<u32, Seq<char>>(count),
        u64_at(memory, object.wrapping_add(core.ik_constants)) == Ok::<u64, Seq<char>>(pool),
        u64_at(memory, pool.wrapping_add(core.cp_tags)) == Ok::<u64, Seq<char>>(tags),
        u32_at(memory, pool.wrapping_add(core.cp_length)) == Ok::<u32, Seq<char>>(length),
    ensures
        methods_in_profile(memory, object, core, jvm_base, jvm_end) == if methods != 0 && 3 < count
            < 257 {
            plausible_methods(
                memory,
                methods.wrapping_add(8),
                if count > 12 {
                    12nat
                } else {
                    count as nat
                },
                pool,
                tags,
                length,
                jvm_base,
                jvm_end,
            )
        } else {
            0
        },
{
}

/// Whether the class at `object` has no superclass, is public and made for `invokespecial` to look in
/// its superclass, and is one of Java 8.
pub open spec fn has_traits_of_object(memory: Contents, object: u64, access: u32) -> bool {
    &&& u64_at(memory, object.wrapping_add(0x78)) == Ok::<u64, Seq<char>>(0)
    &&& u32_at(memory, object.wrapping_add(0xa4)) == Ok::<u32, Seq<char>>(access)
    &&& access as int % 0x1_0000 == 0x21
    &&& u16_at(memory, object.wrapping_add(0x10c)) == Ok::<u16, Seq<char>>(52)
}

/// A class fits the profile as well as it has traits of it: its name at 0x10, its pool at 0xd0, no
/// superclass, the flags and the version of `java/lang/Object` count one each, and four of its methods
/// count two. Seven is reached by all of them together and not otherwise.
pub proof fn profile_is_scored_by_traits(
    memory: Contents,
    object: u64,
    core: CoreLayout,
    jvm_base: u64,
    jvm_end: u64,
)
    ensures
        ({
            let score = profile_score(memory, object, core, jvm_base, jvm_end);
            let name: int = if core.klass_name == 0x10 {
                1
            } else {
                0
            };
            let constants: int = if core.ik_constants == 0xd0 {
                1
            } else {
                0
            };
            let root: int = if u64_at(memory, object.wrapping_add(0x78)) == Ok::<u64, Seq<char>>(
                0,
            ) {
                1
            } else {
                0
            };
            let version: int = if u16_at(memory, object.wrapping_add(0x10c)) == Ok::<
                u16,
                Seq<char>,
            >(52) {
                1
            } else {
                0
            };
            let flags: int = if u32_at(memory, object.wrapping_add(0xa4)) matches Ok(access)
                && access as int % 0x1_0000 == 0x21 {
                1
            } else {
                0
            };
            let methods: int = if methods_in_profile(memory, object, core, jvm_base, jvm_end) > 3 {
                2
            } else {
                0
            };
            &&& score == name + constants + root + version + flags + methods
            &&& score <= 7
            &&& score == 7 <==> {
                &&& core.klass_name == 0x10
                &&& core.ik_constants == 0xd0
                &&& exists|access: u32| has_traits_of_object(memory, object, access)
                &&& methods_in_profile(memory, object, core, jvm_base, jvm_end) > 3
            }
        }),
{
    if let Ok(access) = u32_at(memory, object.wrapping_add(0xa4)) {
        if profile_score(memory, object, core, jvm_base, jvm_end) == 7 {
            assert(has_traits_of_object(memory, object, access));
        }
    }
}

/// Looking for a name gives the first class that has it.
pub proof fn class_of_a_name_is_the_first(classes: Seq<ClassView>, name: Seq<char>)
    ensures
        match class_named(classes, name) {
            Some(class) => exists|i: int|
                0 <= i < classes.len() && #[trigger] classes[i] == class && class.internal_name
                    == name && forall|j: int|
                    0 <= j < i ==> (#[trigger] classes[j]).internal_name != name,
            None => forall|i: int|
                0 <= i < classes.len() ==> (#[trigger] classes[i]).internal_name != name,
        },
    decreases classes.len(),
{
    if classes.len() > 0 && classes[0].internal_name != name {
        let rest = classes.skip(1);
        class_of_a_name_is_the_first(rest, name);
        if let Some(class) = class_named(rest, name) {
            let i = choose|i: int|
                0 <= i < rest.len() && #[trigger] rest[i] == class && forall|j: int|
                    0 <= j < i ==> (#[trigger] rest[j]).internal_name != name;
            assert(classes[i + 1] == class);
            assert forall|j: int| 0 <= j < i + 1 implies (#[trigger] classes[j]).internal_name
                != name by {
                if j > 0 {
                    assert(rest[j - 1] == classes[j]);
                }
            }
        } else {
            assert forall|i: int| 0 <= i < classes.len() implies (#[trigger] classes[i]).internal_name
                != name by {
                if i > 0 {
                    assert(rest[i - 1] == classes[i]);
                }
            }
        }
    } else if classes.len() > 0 {
        assert(classes[0].internal_name == name);
    }
}

/// Whether the class at `klass` derives from the one at `object`, is one of Java 8, and is the holder of
/// its pool.
pub open spec fn is_held_to_object(
    memory: Contents,
    core: CoreLayout,
    object: u64,
    klass: u64,
) -> bool {
    &&& u64_at(memory, klass.wrapping_add(0x78)) == Ok::<u64, Seq<char>>(object)
    &&& u16_at(memory, klass.wrapping_add(0x10c)) == Ok::<u16, Seq<char>>(52)
    &&& u64_at(memory, klass.wrapping_add(core.ik_constants)) matches Ok(pool)
    &&& u64_at(memory, pool.wrapping_add(core.cp_holder)) == Ok::<u64, Seq<char>>(klass)
}

/// Classes are validated if and only if `java/lang/Object` is among them and `java/lang/String`,
/// `java/lang/Class` and `java/lang/System` are held to it.
pub proof fn classes_are_validated_by_three(
    memory: Contents,
    classes: Seq<ClassView>,
    core: CoreLayout,
)
    ensures
        anchors_check(memory, classes, core) is Ok <==> {
            &&& class_named(classes, "java/lang/Object"@) matches Some(object)
            &&& class_named(classes, "java/lang/String"@) matches Some(string)
            &&& is_held_to_object(memory, core, object.klass, string.klass)
            &&& class_named(classes, "java/lang/Class"@) matches Some(class)
            &&& is_held_to_object(memory, core, object.klass, class.klass)
            &&& class_named(classes, "java/lang/System"@) matches Some(system)
            &&& is_held_to_object(memory, core, object.klass, system.klass)
        },
{
}

/// The bytes of the regions are added up.
pub proof fn bytes_are_added_up(regions: Seq<MemoryRegion>, region: MemoryRegion)
    ensures
        total_size(Seq::empty()) == 0,
        total_size(regions.push(region)) == (total_size(regions) + region.size)
            % 0x1_0000_0000_0000_0000,
{
    assert(regions.push(region).drop_last() =~= regions);
}

/// What is found by shape hangs on the best candidate: its symbol, its address and its layout are those
/// of the candidate, and the pools are recognized by the first word of its own. It is found if and only
/// if the classes of these pools are validated.
pub proof fn structure_hangs_on_the_anchor(
    memory: Contents,
    regions: Seq<MemoryRegion>,
    jvm_base: u64,
    jvm_size: nat,
    symbols: Seq<u64>,
    best: AnchorCandidate,
    pool: u64,
    vtable: u64,
)
    requires
        regions.len() > 0,
        jvm_base + jvm_size <= u64::MAX,
        symbols.len() > 0,
        symbols_found(memory, regions, encode_utf8("java/lang/Object"@), 64) == Ok::<
            Seq<u64>,
            Seq<char>,
        >(symbols),
        anchor_of(memory, regions, symbols, jvm_base, (jvm_base + jvm_size) as u64) == Ok::<
            AnchorCandidate,
            Seq<char>,
        >(best),
        u64_at(memory, best.klass.wrapping_add(best.layout.ik_constants)) == Ok::<u64, Seq<char>>(
            pool,
        ),
        u64_at(memory, pool) == Ok::<u64, Seq<char>>(vtable),
    ensures
        ({
            let classes = classes_by_pool(
                memory,
                regions,
                vtable,
                best.layout,
                jvm_base,
                (jvm_base + jvm_size) as u64,
            );
            &&& structure_of(memory, regions, jvm_base, jvm_size) is Ok <==> (classes matches Ok(
                classes,
            ) && anchors_check(memory, classes, best.layout) is Ok)
            &&& structure_of(memory, regions, jvm_base, jvm_size) matches Ok(found) ==> {
                &&& found.core == best.layout
                &&& found.object_symbol == best.symbol
                &&& found.object_klass == best.klass
                &&& found.constant_pool_vtable == vtable
                &&& found.scanned_bytes == total_size(regions)
                &&& classes == Ok::<Seq<ClassView>, Seq<char>>(found.classes)
            }
        }),
{
}

/// Nothing is found by shape without regions, without a symbol of `java/lang/Object`, without a
/// candidate, or where the module does not fit the address space.
pub proof fn nothing_hangs_on_no_anchor(
    memory: Contents,
    regions: Seq<MemoryRegion>,
    jvm_base: u64,
    jvm_size: nat,
)
    ensures
        structure_of(memory, regions, jvm_base, jvm_size) is Ok ==> {
            &&& regions.len() > 0
            &&& jvm_base + jvm_size <= u64::MAX
            &&& symbols_found(memory, regions, encode_utf8("java/lang/Object"@), 64) matches Ok(
                symbols,
            )
            &&& symbols.len() > 0
            &&& anchor_of(memory, regions, symbols, jvm_base, (jvm_base + jvm_size) as u64) is Ok
        },
{
}

/// Each symbol is tried with up to 100000 references to it, behind those of the symbols before it.
pub proof fn symbols_are_tried_in_turn(
    memory: Contents,
    regions: Seq<MemoryRegion>,
    jvm_base: u64,
    jvm_end: u64,
    symbols: Seq<u64>,
    count: nat,
)
    requires
        count < symbols.len(),
    ensures
        ({
            let symbol = symbols[count as int];
            let references = words_found(memory, regions, symbol, 100_000);
            symbols_tried(memory, regions, jvm_base, jvm_end, symbols, count + 1)
                == locations_tried(
                memory,
                jvm_base,
                jvm_end,
                symbol,
                references,
                references.len(),
                symbols_tried(memory, regions, jvm_base, jvm_end, symbols, count),
            )
        }),
{
}

/// What is searched is told in full MiB: what is left over is dropped.
pub proof fn searched_bytes_are_told_in_full_units(count: nat, mib: u64, bytes: u64)
    requires
        1048576 * mib <= bytes < 1048576 * (mib + 1),
    ensures
        regions_line(count, bytes) == "stripped HotSpot fallback: scanning "@ + decimal_digits(
            count,
        ) + " readable regions ("@ + decimal_digits(mib as nat) + " MiB)"@,
{
    assert(bytes / 1024 / 1024 == mib);
}

/// A search that finds the classes is told of step by step: the regions, the symbols, the references to
/// each symbol in turn, the candidates, the layout of the best one, and how many classes there are.
pub proof fn search_is_told_step_by_step(
    memory: Contents,
    regions: Seq<MemoryRegion>,
    jvm_base: u64,
    jvm_size: nat,
    symbols: Seq<u64>,
    best: AnchorCandidate,
    found: StructureView,
)
    requires
        symbols_found(memory, regions, encode_utf8("java/lang/Object"@), 64) == Ok::<
            Seq<u64>,
            Seq<char>,
        >(symbols),
        anchor_of(memory, regions, symbols, jvm_base, (jvm_base + jvm_size) as u64) == Ok::<
            AnchorCandidate,
            Seq<char>,
        >(best),
        structure_of(memory, regions, jvm_base, jvm_size) == Ok::<StructureView, Seq<char>>(found),
    ensures
        ({
            let notes = search_notes(memory, regions, jvm_base, jvm_size);
            let count = symbols.len() as int;
            let search = symbols_tried(
                memory,
                regions,
                jvm_base,
                (jvm_base + jvm_size) as u64,
                symbols,
                symbols.len(),
            );
            &&& notes.len() == count + 5
            &&& notes[0] == NoteView::Info(regions_line(regions.len(), found.scanned_bytes))
            &&& notes[1] == NoteView::Info(
                "structural anchors: "@ + decimal_digits(symbols.len())
                    + " valid java/lang/Object Symbol candidates"@,
            )
            &&& forall|i: int|
                0 <= i < count ==> #[trigger] notes[2 + i] == NoteView::Info(
                    "Object Symbol candidate "@ + address_chars(symbols[i]) + ": "@
                        + decimal_digits(words_found(memory, regions, symbols[i], 100_000).len())
                        + " aligned references"@,
                )
            &&& notes[count + 2] == NoteView::Info(
                "structural candidates: klass-vtable="@ + decimal_digits(search.klass_candidates)
                    + " self-consistent CP graphs="@ + decimal_digits(search.core_graphs),
            )
            &&& notes[count + 3] == NoteView::Info(
                "structural layout: Symbol="@ + address_chars(found.object_symbol)
                    + " InstanceKlass="@ + address_chars(found.object_klass) + " name=0x"@
                    + short_hex(found.core.klass_name as nat) + " constants=0x"@ + short_hex(
                    found.core.ik_constants as nat,
                ) + " CP.tags=0x"@ + short_hex(found.core.cp_tags as nat) + " CP.size=0x"@
                    + short_hex(found.core.cp_size as nat) + " profile-score="@ + decimal_digits(
                    best.score as nat,
                ) + "/7"@,
            )
            &&& notes[count + 4] == NoteView::Info(
                "structural ConstantPool traversal: "@ + decimal_digits(found.classes.len())
                    + " validated classes"@,
            )
        }),
{
    let notes = search_notes(memory, regions, jvm_base, jvm_size);
    let references = reference_notes(memory, regions, symbols, symbols.len());
    assert forall|i: int| 0 <= i < symbols.len() implies #[trigger] notes[2 + i]
        == references[i] by {}
}

/// A search that fails is told of as far as it came: nothing where there are no regions, the regions
/// where no symbol is found, and the references to every symbol where these lead to no class.
pub proof fn search_is_told_as_far_as_it_came(
    memory: Contents,
    regions: Seq<MemoryRegion>,
    jvm_base: u64,
    jvm_size: nat,
)
    ensures
        ({
            let notes = search_notes(memory, regions, jvm_base, jvm_size);
            let symbols = symbols_found(memory, regions, encode_utf8("java/lang/Object"@), 64);
            let end = (jvm_base + jvm_size) as u64;
            &&& regions.len() == 0 ==> notes.len() == 0
            &&& regions.len() > 0 ==> notes.len() > 0 && notes[0] == NoteView::Info(
                regions_line(regions.len(), total_size(regions)),
            )
            &&& regions.len() > 0 && symbols is Err ==> notes.len() == 1
            &&& symbols matches Ok(found) ==> {
                &&& regions.len() > 0 && found.len() == 0 ==> notes.len() == 1
                &&& regions.len() > 0 && found.len() > 0 && jvm_base + jvm_size > u64::MAX
                    ==> notes.len() == 2
                &&& regions.len() > 0 && found.len() > 0 && jvm_base + jvm_size <= u64::MAX
                    && anchor_of(memory, regions, found, jvm_base, end) is Err ==> notes.len()
                    == found.len() + 2
            }
        }),
{
}

} // verus!
