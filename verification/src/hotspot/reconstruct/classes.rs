//! What a loaded class is as a whole, and its bootstrap methods.
use vstd::prelude::*;
use vstd::utf8::encode_utf8;

use super::fields::{array_slot, has_bit};
use super::image::{class_image, lineage_in, members_of, with_names};
use super::members::{
    bootstrap_at, bootstraps_from, bootstraps_of, fields_of, interfaces_from, interfaces_of,
    methods_of, operand_pair, operands_from,
};
use super::methods::{has_access, stands_at};
use super::pool::{klass_name_bytes, pool_at, with_class, CpView};
use super::slots::class_is_held_once;
use super::Layout;
use crate::hotspot::dictionary::ClassView;
use crate::platform::{u16_at, u32_at, u64_at, Contents};

verus! {

/// Whether the two slots that start at `slot` of the table of operands at `table`, which has `length`
/// slots, hold `value`: the low half first.
pub open spec fn is_operand_pair(
    memory: Contents,
    table: u64,
    length: nat,
    slot: nat,
    value: nat,
) -> bool {
    &&& slot + 2 <= length
    &&& array_slot(memory, table, slot) matches Ok(low)
    &&& array_slot(memory, table, slot + 1) matches Ok(high)
    &&& value == low + 0x1_0000 * high
}

/// Whether `entry` is the bootstrap method whose operands start at slot `offset`: its handle, how many
/// arguments it has, and these.
pub open spec fn is_bootstrap(
    memory: Contents,
    table: u64,
    length: nat,
    offset: nat,
    entry: Seq<u16>,
) -> bool {
    &&& entry.len() >= 1
    &&& offset + 1 + entry.len() <= length
    &&& array_slot(memory, table, offset) == Ok::<u16, Seq<char>>(entry[0])
    &&& array_slot(memory, table, offset + 1) matches Ok(arguments)
    &&& entry.len() == 1 + arguments
    &&& forall|i: nat|
        1 <= i < entry.len() ==> array_slot(memory, table, offset + 1 + i) == Ok::<u16, Seq<char>>(
            #[trigger] entry[i as int],
        )
}

/// Whether `entry` is the bootstrap method number `index`, whose offset stands in two slots of its own
/// at the start of the table.
pub open spec fn is_bootstrap_number(
    memory: Contents,
    table: u64,
    length: nat,
    index: nat,
    entry: Seq<u16>,
) -> bool {
    exists|offset: nat| #[trigger]
        is_operand_pair(memory, table, length, 2 * index, offset) && is_bootstrap(
            memory,
            table,
            length,
            offset,
            entry,
        )
}

/// Whether `entries` are the bootstrap methods in the table of operands at `table`. The offsets come
/// first, so that the first of them tells how many there are.
pub open spec fn are_bootstraps(
    memory: Contents,
    table: u64,
    length: nat,
    entries: Seq<Seq<u16>>,
) -> bool {
    &&& 2 <= length <= 65535
    &&& is_operand_pair(memory, table, length, 0, 2 * entries.len())
    &&& 2 * entries.len() <= length
    &&& forall|i: nat|
        i < entries.len() ==> is_bootstrap_number(
            memory,
            table,
            length,
            i,
            #[trigger] entries[i as int],
        )
}

proof fn operands_are_read(
    memory: Contents,
    table: u64,
    length: nat,
    index: nat,
    count: nat,
    operands: Seq<u16>,
)
    ensures
        operands_from(memory, table, length, index, count) == Ok::<Seq<u16>, Seq<char>>(operands)
            <==> {
            &&& operands.len() == count
            &&& count > 0 ==> index + count <= length
            &&& forall|i: nat|
                i < count ==> array_slot(memory, table, index + i) == Ok::<u16, Seq<char>>(
                    #[trigger] operands[i as int],
                )
        },
    decreases count,
{
    if count == 0 {
        if operands.len() == 0 {
            assert(operands =~= Seq::<u16>::empty());
        }
    } else {
        let rest = operands_from(memory, table, length, index + 1, (count - 1) as nat);
        if operands.len() == count {
            let tail = operands.subrange(1, operands.len() as int);
            assert(operands =~= seq![operands[0]] + tail);
            operands_are_read(memory, table, length, index + 1, (count - 1) as nat, tail);
            if operands_from(memory, table, length, index, count) == Ok::<Seq<u16>, Seq<char>>(
                operands,
            ) {
                let head = array_slot(memory, table, index)->Ok_0;
                assert((seq![head] + rest->Ok_0).subrange(1, operands.len() as int) =~= rest->Ok_0);
                assert(operands[0] == head);
                assert forall|i: nat| i < count implies array_slot(memory, table, index + i)
                    == Ok::<u16, Seq<char>>(#[trigger] operands[i as int]) by {
                    if i > 0 {
                        let before = (i - 1) as nat;
                        assert(tail[before as int] == operands[i as int]);
                        assert(index + 1 + before == index + i);
                    }
                }
            }
            if index + count <= length && forall|i: nat|
                i < count ==> array_slot(memory, table, index + i) == Ok::<u16, Seq<char>>(
                    #[trigger] operands[i as int],
                ) {
                assert(array_slot(memory, table, index + 0) == Ok::<u16, Seq<char>>(
                    operands[0nat as int],
                ));
                assert forall|i: nat| i < count - 1 implies array_slot(memory, table, index + 1 + i)
                    == Ok::<u16, Seq<char>>(#[trigger] tail[i as int]) by {
                    let next = i + 1;
                    assert(tail[i as int] == operands[next as int]);
                    assert(array_slot(memory, table, index + next) == Ok::<u16, Seq<char>>(
                        operands[next as int],
                    ));
                }
            }
        } else if rest is Ok {
            operands_are_read(memory, table, length, index + 1, (count - 1) as nat, rest->Ok_0);
        }
    }
}

/// The bootstrap method at an offset is its handle and its arguments.
pub proof fn bootstrap_is_read(
    memory: Contents,
    table: u64,
    length: nat,
    offset: nat,
    entry: Seq<u16>,
)
    ensures
        bootstrap_at(memory, table, length, offset) == Ok::<Seq<u16>, Seq<char>>(entry)
            <==> is_bootstrap(memory, table, length, offset, entry),
{
    if let Ok(arguments) = array_slot(memory, table, offset + 1) {
        let rest = operands_from(memory, table, length, offset + 2, arguments as nat);
        if rest is Ok {
            operands_are_read(memory, table, length, offset + 2, arguments as nat, rest->Ok_0);
        }
        if entry.len() >= 1 {
            let tail = entry.subrange(1, entry.len() as int);
            assert(entry =~= seq![entry[0]] + tail);
            operands_are_read(memory, table, length, offset + 2, arguments as nat, tail);
            if bootstrap_at(memory, table, length, offset) == Ok::<Seq<u16>, Seq<char>>(entry) {
                let head = array_slot(memory, table, offset)->Ok_0;
                assert((seq![head] + rest->Ok_0).subrange(1, entry.len() as int) =~= rest->Ok_0);
                assert(entry[0] == head);
                assert forall|i: nat| 1 <= i < entry.len() implies array_slot(
                    memory,
                    table,
                    offset + 1 + i,
                ) == Ok::<u16, Seq<char>>(#[trigger] entry[i as int]) by {
                    let before = (i - 1) as nat;
                    assert(tail[before as int] == entry[i as int]);
                    assert(offset + 2 + before == offset + 1 + i);
                }
            }
            if is_bootstrap(memory, table, length, offset, entry) {
                assert forall|i: nat| i < arguments implies array_slot(
                    memory,
                    table,
                    offset + 2 + i,
                ) == Ok::<u16, Seq<char>>(#[trigger] tail[i as int]) by {
                    let next = i + 1;
                    assert(tail[i as int] == entry[next as int]);
                    assert(offset + 1 + next == offset + 2 + i);
                }
            }
        }
    }
}

proof fn bootstraps_are_read(
    memory: Contents,
    table: u64,
    length: nat,
    count: nat,
    index: nat,
    entries: Seq<Seq<u16>>,
)
    requires
        index <= count,
    ensures
        bootstraps_from(memory, table, length, count, index) == Ok::<Seq<Seq<u16>>, Seq<char>>(
            entries,
        ) <==> {
            &&& entries.len() == count - index
            &&& forall|i: nat|
                i < entries.len() ==> is_bootstrap_number(
                    memory,
                    table,
                    length,
                    index + i,
                    #[trigger] entries[i as int],
                )
        },
    decreases count - index,
{
    if index == count {
        if entries.len() == 0 {
            assert(entries =~= Seq::<Seq<u16>>::empty());
        }
    } else {
        let rest = bootstraps_from(memory, table, length, count, index + 1);
        let whole = bootstraps_from(memory, table, length, count, index);
        if let Ok(offset) = operand_pair(memory, table, length, index * 2) {
            assert(is_operand_pair(memory, table, length, 2 * index, offset as nat));
            if let Ok(first) = bootstrap_at(memory, table, length, offset as nat) {
                bootstrap_is_read(memory, table, length, offset as nat, first);
                assert(is_bootstrap_number(memory, table, length, index, first));
            }
        }
        if entries.len() == count - index {
            let tail = entries.subrange(1, entries.len() as int);
            assert(entries =~= seq![entries[0]] + tail);
            bootstraps_are_read(memory, table, length, count, index + 1, tail);
            if whole == Ok::<Seq<Seq<u16>>, Seq<char>>(entries) {
                let offset = operand_pair(memory, table, length, index * 2)->Ok_0;
                let first = bootstrap_at(memory, table, length, offset as nat)->Ok_0;
                assert((seq![first] + rest->Ok_0).subrange(1, entries.len() as int) =~= rest->Ok_0);
                assert(entries[0] == first);
                assert forall|i: nat| i < entries.len() implies is_bootstrap_number(
                    memory,
                    table,
                    length,
                    index + i,
                    #[trigger] entries[i as int],
                ) by {
                    if i > 0 {
                        let before = (i - 1) as nat;
                        assert(tail[before as int] == entries[i as int]);
                        assert(index + 1 + before == index + i);
                    }
                }
            }
            if forall|i: nat|
                i < entries.len() ==> is_bootstrap_number(
                    memory,
                    table,
                    length,
                    index + i,
                    #[trigger] entries[i as int],
                ) {
                assert(is_bootstrap_number(
                    memory,
                    table,
                    length,
                    index + 0,
                    entries[0nat as int],
                ));
                let offset = choose|offset: nat| #[trigger]
                    is_operand_pair(memory, table, length, 2 * index, offset) && is_bootstrap(
                        memory,
                        table,
                        length,
                        offset,
                        entries[0],
                    );
                bootstrap_is_read(memory, table, length, offset, entries[0]);
                assert(operand_pair(memory, table, length, index * 2) == Ok::<u64, Seq<char>>(
                    offset as u64,
                ));
                assert forall|i: nat| i < tail.len() implies is_bootstrap_number(
                    memory,
                    table,
                    length,
                    index + 1 + i,
                    #[trigger] tail[i as int],
                ) by {
                    let next = i + 1;
                    assert(tail[i as int] == entries[next as int]);
                    assert(index + next == index + 1 + i);
                }
            }
        } else if rest is Ok {
            bootstraps_are_read(memory, table, length, count, index + 1, rest->Ok_0);
        }
    }
}

/// A class has the bootstrap methods that the operands of its pool list, and is refused only if these
/// are no such list. A pool without operands lists none.
pub proof fn bootstraps_are_those_of_the_operands(
    memory: Contents,
    pool: u64,
    layout: Layout,
    table: u64,
    length: u32,
    entries: Seq<Seq<u16>>,
)
    requires
        u64_at(memory, pool.wrapping_add(layout.cp_operands)) == Ok::<u64, Seq<char>>(table),
        table != 0 ==> u32_at(memory, table.wrapping_add(layout.array_len)) == Ok::<u32, Seq<char>>(
            length,
        ),
    ensures
        table == 0 ==> bootstraps_of(memory, pool, layout) == Ok::<Seq<Seq<u16>>, Seq<char>>(
            Seq::empty(),
        ),
        table != 0 ==> (bootstraps_of(memory, pool, layout) == Ok::<Seq<Seq<u16>>, Seq<char>>(
            entries,
        ) <==> are_bootstraps(memory, table, length as nat, entries)),
{
    if table != 0 {
        if let Ok(first) = operand_pair(memory, table, length as nat, 0) {
            assert(is_operand_pair(memory, table, length as nat, 0, first as nat));
            if first % 2 == 0 {
                let count = (first / 2) as nat;
                bootstraps_are_read(memory, table, length as nat, count, 0, entries);
                assert forall|i: nat| i < entries.len() implies (is_bootstrap_number(
                    memory,
                    table,
                    length as nat,
                    i,
                    #[trigger] entries[i as int],
                ) <==> is_bootstrap_number(
                    memory,
                    table,
                    length as nat,
                    0 + i,
                    entries[i as int],
                )) by {
                    assert(0 + i == i);
                }
            }
        }
    }
}

/// The bits that a class file gives to the flags of a class.
pub open spec fn is_class_bit(n: u16) -> bool {
    ||| n == 0  // public
    ||| n == 4  // final
    ||| n == 5  // super
    ||| n == 9  // interface
    ||| n == 10  // abstract
    ||| n == 12  // synthetic
    ||| n == 13  // annotation
    ||| n == 14  // enum
}

proof fn class_bits_are_kept(access: u32, n: u16)
    requires
        n < 16,
    ensures
        has_bit((access % 0x1_0000) as u16 & 0x7631, n) <==> has_access(access, n) && is_class_bit(n),
{
    assert((((access % 0x1_0000) as u16 & 0x7631) >> n) & 1 == 1 <==> (access >> n) & 1 == 1 && (n
        == 0 || n == 4 || n == 5 || n == 9 || n == 10 || n == 12 || n == 13 || n == 14)) by (
    bit_vector)
        requires
            n < 16,
    ;
}

/// Whether `generic` is the generic signature of the class at `klass`: zero stands for none.
pub open spec fn is_class_signature(
    memory: Contents,
    klass: u64,
    layout: Layout,
    generic: Option<u16>,
) -> bool {
    match generic {
        None => stands_at(memory, klass.wrapping_add(layout.ik_generic), 0),
        Some(index) => index != 0 && stands_at(
            memory,
            klass.wrapping_add(layout.ik_generic),
            index,
        ),
    }
}

/// What is read of a class has its version, the flags that a class file gives a class and no others,
/// its generic signature, its fields, its methods and its bootstrap methods. The name of an attribute
/// is there exactly if some part needs it.
pub proof fn class_is_what_it_holds(
    memory: Contents,
    class: ClassView,
    layout: Layout,
    access: u32,
    pool: u64,
)
    requires
        u32_at(memory, class.klass.wrapping_add(layout.klass_flags)) == Ok::<u32, Seq<char>>(access),
        u64_at(memory, class.klass.wrapping_add(layout.ik_constants)) == Ok::<u64, Seq<char>>(pool),
    ensures
        class_image(memory, class, layout) matches Ok(image) ==> {
            &&& pool != 0
            &&& stands_at(memory, class.klass.wrapping_add(layout.ik_minor), image.minor)
            &&& stands_at(memory, class.klass.wrapping_add(layout.ik_major), image.major)
            &&& forall|n: u16|
                n < 16 ==> (#[trigger] has_bit(image.flags, n) <==> has_access(access, n)
                    && is_class_bit(n))
            &&& is_class_signature(memory, class.klass, layout, image.generic)
            &&& fields_of(memory, class.klass, layout) matches Ok(fields)
            &&& image.fields == fields
            &&& pool_at(memory, pool, layout) matches Ok(entries)
            &&& lineage_in(memory, class, layout, entries) matches Ok(lineage)
            &&& methods_of(memory, class.klass, pool, layout, lineage.pool) matches Ok(methods)
            &&& image.methods == methods
            &&& bootstraps_of(memory, pool, layout) matches Ok(bootstrap_methods)
            &&& image.bootstrap_methods == bootstrap_methods
            &&& image.names.code is Some <==> exists|i: int|
                0 <= i < methods.len() && (#[trigger] methods[i]).code is Some
            &&& image.names.stack_map is Some <==> exists|i: int|
                0 <= i < methods.len() && ((#[trigger] methods[i]).code matches Some(code)
                    && code.stack_map is Some)
            &&& image.names.signature is Some <==> {
                ||| image.generic is Some
                ||| exists|i: int| 0 <= i < fields.len() && (#[trigger] fields[i]).generic is Some
                ||| exists|i: int| 0 <= i < methods.len() && (#[trigger] methods[i]).generic is Some
            }
            &&& image.names.bootstrap_methods is Some <==> bootstrap_methods.len() > 0
        },
{
    let kept = (access % 0x1_0000) as u16 & 0x7631;
    assert forall|n: u16| n < 16 implies #[trigger] has_bit(kept, n) == (has_access(access, n)
        && is_class_bit(n)) by {
        class_bits_are_kept(access, n);
    }
    if let Ok(image) = class_image(memory, class, layout) {
        assert(image.flags == kept);
    }
}

/// A class is read if each of its parts is, and its pool has room for the names of its attributes.
pub proof fn class_is_read_if_its_parts_are(
    memory: Contents,
    class: ClassView,
    layout: Layout,
    pool: u64,
)
    requires
        u64_at(memory, class.klass.wrapping_add(layout.ik_constants)) == Ok::<u64, Seq<char>>(pool),
        pool != 0,
        pool_at(memory, pool, layout) matches Ok(entries) && lineage_in(
            memory,
            class,
            layout,
            entries,
        ) matches Ok(lineage) && lineage.pool.len() <= 65531 && methods_of(
            memory,
            class.klass,
            pool,
            layout,
            lineage.pool,
        ) is Ok,
        fields_of(memory, class.klass, layout) is Ok,
        bootstraps_of(memory, pool, layout) is Ok,
        u32_at(memory, class.klass.wrapping_add(layout.klass_flags)) is Ok,
        u16_at(memory, class.klass.wrapping_add(layout.ik_generic)) is Ok,
        u16_at(memory, class.klass.wrapping_add(layout.ik_minor)) is Ok,
        u16_at(memory, class.klass.wrapping_add(layout.ik_major)) is Ok,
    ensures
        class_image(memory, class, layout) is Ok,
{
    let entries = pool_at(memory, pool, layout)->Ok_0;
    let lineage = lineage_in(memory, class, layout, entries)->Ok_0;
    assert(members_of(memory, class.klass, pool, layout, lineage.pool) is Ok);
    let members = members_of(memory, class.klass, pool, layout, lineage.pool)->Ok_0;
    assert(with_names(lineage.pool, members) is Ok);
}

/// Whether slot `index` of an array refers to a class whose name can be read.
pub open spec fn names_a_class(memory: Contents, layout: Layout, slots: u64, index: int) -> bool {
    &&& u64_at(memory, slots.wrapping_add((8 * index) as u64)) matches Ok(klass)
    &&& klass_name_bytes(memory, klass, layout) is Ok
}

proof fn interfaces_are_added(
    memory: Contents,
    layout: Layout,
    slots: u64,
    count: nat,
    index: nat,
    pool: Seq<CpView>,
    done: Seq<u16>,
)
    requires
        index <= count <= 65535,
        pool.len() + 2 * (count - index) <= 65535,
        forall|i: int| index <= i < count ==> #[trigger] names_a_class(memory, layout, slots, i),
    ensures
        interfaces_from(memory, slots, layout, count, index, pool, done) matches Ok(found)
            && found.1.len() == done.len() + (count - index) && found.0.len() <= pool.len() + 2 * (
        count - index),
    decreases count - index,
{
    if index < count {
        assert(names_a_class(memory, layout, slots, index as int));
        let klass = u64_at(memory, slots.wrapping_add((index * 8) as u64))->Ok_0;
        let name = klass_name_bytes(memory, klass, layout)->Ok_0;
        class_is_held_once(pool, name, 0);
        if let (grown, Ok(class)) = with_class(pool, name) {
            interfaces_are_added(memory, layout, slots, count, index + 1, grown, done.push(class));
        }
    }
}

/// A class with up to 65535 interfaces has them read if their names can be and its pool has room for
/// them. A class without an array has none.
pub proof fn interfaces_are_read_if_they_fit(
    memory: Contents,
    layout: Layout,
    array: u64,
    count: u32,
    pool: Seq<CpView>,
)
    requires
        array != 0 ==> u32_at(memory, array.wrapping_add(layout.array_len)) == Ok::<u32, Seq<char>>(
            count,
        ),
    ensures
        array == 0 ==> interfaces_of(memory, array, layout, pool) == Ok::<
            (Seq<CpView>, Seq<u16>),
            Seq<char>,
        >((pool, Seq::empty())),
        array != 0 && count > 65535 ==> interfaces_of(memory, array, layout, pool) is Err,
        array != 0 && pool.len() + 2 * count <= 65535 && (forall|i: int|
            0 <= i < count ==> #[trigger] names_a_class(
                memory,
                layout,
                array.wrapping_add(layout.array_ptr_data),
                i,
            )) ==> (interfaces_of(memory, array, layout, pool) matches Ok(found) && found.1.len()
            == count),
{
    let slots = array.wrapping_add(layout.array_ptr_data);
    if array != 0 && pool.len() + 2 * count <= 65535 && forall|i: int|
        0 <= i < count ==> #[trigger] names_a_class(memory, layout, slots, i) {
        interfaces_are_added(memory, layout, slots, count as nat, 0, pool, Seq::empty());
    }
}

/// A class whose pool has room is read with its superclass and its interfaces if their names can be.
pub proof fn lineage_is_read_if_it_fits(
    memory: Contents,
    class: ClassView,
    layout: Layout,
    pool: Seq<CpView>,
    parent: u64,
    array: u64,
    count: u32,
)
    requires
        u64_at(memory, class.klass.wrapping_add(layout.klass_super)) == Ok::<u64, Seq<char>>(parent),
        parent != 0 ==> klass_name_bytes(memory, parent, layout) is Ok,
        u64_at(memory, class.klass.wrapping_add(layout.ik_interfaces)) == Ok::<u64, Seq<char>>(
            array,
        ),
        array != 0 ==> u32_at(memory, array.wrapping_add(layout.array_len)) == Ok::<u32, Seq<char>>(
            count,
        ),
        array != 0 ==> forall|i: int|
            0 <= i < count ==> #[trigger] names_a_class(
                memory,
                layout,
                array.wrapping_add(layout.array_ptr_data),
                i,
            ),
        pool.len() + 4 + 2 * count <= 65535,
    ensures
        lineage_in(memory, class, layout, pool) matches Ok(lineage) && (array != 0
            ==> lineage.interfaces.len() == count),
{
    let name = encode_utf8(class.internal_name);
    class_is_held_once(pool, name, 0);
    if let (own, Ok(_)) = with_class(pool, name) {
        if parent != 0 {
            let parent_name = klass_name_bytes(memory, parent, layout)->Ok_0;
            class_is_held_once(own, parent_name, 0);
            if let (derived, Ok(_)) = with_class(own, parent_name) {
                interfaces_are_read_if_they_fit(memory, layout, array, count, derived);
            }
        } else {
            interfaces_are_read_if_they_fit(memory, layout, array, count, own);
        }
    }
}

} // verus!
