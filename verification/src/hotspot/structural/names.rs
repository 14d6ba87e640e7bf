//! Which names are those of classes, and which classes the pools lead to.
use vstd::prelude::*;
use vstd::utf8::{
    decode_utf8_encode_utf8, encode_scalar, encode_utf8, encode_utf8_decode_utf8,
    encode_utf8_valid_utf8,
};

use super::anchors::{enumerated_classes_are_those_of_the_pools, is_first_held_by, is_led_to};
use super::layout::{symbol_text, CoreLayout};
use super::scan::words_found;
use super::{class_of_pool, classes_by_pool, is_internal_name};
use crate::hotspot::dictionary::ClassView;
use crate::platform::{reads_are_exact, u16_at, u32_at, u64_at, Contents, MemoryRegion};
use crate::text::characters_in_bytes;

verus! {

/// Whether a class may have the name: it has characters, none of them a blank or a control character,
/// is not that of an array, and takes at most 4096 bytes.
pub open spec fn is_class_name(name: Seq<char>) -> bool {
    &&& name.len() > 0
    &&& name[0] != '['
    &&& forall|i: int| 0 <= i < name.len() ==> #[trigger] name[i] > ' '
    &&& encode_utf8(name).len() <= 4096
}

proof fn blanks_in_bytes(name: Seq<char>)
    ensures
        (forall|i: int| 0 <= i < encode_utf8(name).len() ==> #[trigger] encode_utf8(name)[i] > 0x20)
            <==> (forall|i: int| 0 <= i < name.len() ==> #[trigger] name[i] > ' '),
        encode_utf8(name).len() >= name.len(),
        name.len() > 0 ==> (encode_utf8(name)[0] == 0x5b <==> name[0] == '['),
    decreases name.len(),
{
    if name.len() > 0 {
        let rest = name.drop_first();
        let first = encode_scalar(name[0] as u32);
        let bytes = encode_utf8(name);
        let tail = encode_utf8(rest);
        characters_in_bytes(name[0]);
        blanks_in_bytes(rest);
        assert(bytes =~= first + tail);
        assert(bytes[0] == first[0]);
        if forall|i: int| 0 <= i < bytes.len() ==> #[trigger] bytes[i] > 0x20 {
            assert forall|i: int| 0 <= i < tail.len() implies #[trigger] tail[i] > 0x20 by {
                assert(bytes[first.len() + i] == tail[i]);
            }
            assert forall|i: int| 0 <= i < name.len() implies #[trigger] name[i] > ' ' by {
                if i > 0 {
                    assert(rest[i - 1] == name[i]);
                }
            }
        }
        if forall|i: int| 0 <= i < name.len() ==> #[trigger] name[i] > ' ' {
            assert forall|i: int| 0 <= i < rest.len() implies #[trigger] rest[i] > ' ' by {
                assert(rest[i] == name[i + 1]);
            }
            assert forall|i: int| 0 <= i < bytes.len() implies #[trigger] bytes[i] > 0x20 by {
                if i < first.len() {
                    assert(bytes[i] == first[i]);
                } else {
                    assert(bytes[i] == tail[i - first.len()]);
                }
            }
        }
    }
}

/// The names that are taken for those of classes are the ones that a class may have.
pub proof fn names_of_classes_are_accepted(name: Seq<char>)
    ensures
        is_internal_name(name) <==> is_class_name(name),
{
    blanks_in_bytes(name);
    if is_internal_name(name) {
        assert forall|i: int| 0 <= i < encode_utf8(name).len() implies #[trigger] encode_utf8(
            name,
        )[i] > 0x20 by {}
    }
}

proof fn characters_behind(name: Seq<char>, c: char)
    ensures
        encode_utf8(name.push(c)) == encode_utf8(name) + encode_scalar(c as u32),
    decreases name.len(),
{
    if name.len() == 0 {
        assert(name.push(c).drop_first() =~= Seq::<char>::empty());
        assert(encode_utf8(name.push(c).drop_first()) =~= Seq::<u8>::empty());
        assert(encode_utf8(name.push(c)) =~= encode_scalar(c as u32));
        assert(encode_utf8(name) + encode_scalar(c as u32) =~= encode_scalar(c as u32));
    } else {
        characters_behind(name.drop_first(), c);
        assert(name.push(c).drop_first() =~= name.drop_first().push(c));
        assert(encode_utf8(name.push(c)) =~= encode_utf8(name) + encode_scalar(c as u32));
    }
}

/// A name of a class that gets one more character is still one, as long as it fits: whatever the
/// character is, unless it is a blank or a control character.
pub proof fn longer_names_are_accepted(name: Seq<char>, c: char)
    requires
        is_internal_name(name),
        c > ' ',
        encode_utf8(name).len() + encode_scalar(c as u32).len() <= 4096,
    ensures
        is_internal_name(name.push(c)),
{
    names_of_classes_are_accepted(name);
    characters_behind(name, c);
    let longer = name.push(c);
    assert forall|i: int| 0 <= i < longer.len() implies #[trigger] longer[i] > ' ' by {
        if i < name.len() {
            assert(longer[i] == name[i]);
        }
    }
    names_of_classes_are_accepted(longer);
}

/// The name of an inner class is accepted with that of its outer class: a dollar may follow any name
/// that leaves room for it.
pub proof fn dollar_may_follow(name: Seq<char>)
    requires
        is_internal_name(name),
        encode_utf8(name).len() < 4096,
    ensures
        is_internal_name(name.push('$')),
{
    characters_in_bytes('$');
    longer_names_are_accepted(name, '$');
}

/// Whether the pool at `pool` and the class at `klass` are those of a class called `name`: the class is
/// an object of the module and has the pool, the pool is as long as its tags, and the symbol of the
/// name has its length in two bytes and its text eight bytes further on.
pub open spec fn are_class_and_pool(
    memory: Contents,
    core: CoreLayout,
    jvm_base: u64,
    jvm_end: u64,
    pool: u64,
    klass: u64,
    name: Seq<char>,
) -> bool {
    &&& u64_at(memory, klass) matches Ok(vtable)
    &&& jvm_base <= vtable < jvm_end
    &&& u64_at(memory, klass.wrapping_add(core.ik_constants)) == Ok::<u64, Seq<char>>(pool)
    &&& u64_at(memory, pool.wrapping_add(core.cp_tags)) matches Ok(tags)
    &&& u32_at(memory, pool.wrapping_add(core.cp_length)) matches Ok(length)
    &&& 1 < length <= 65534
    &&& u32_at(memory, tags) == Ok::<u32, Seq<char>>(length)
    &&& u64_at(memory, klass.wrapping_add(core.klass_name)) matches Ok(symbol)
    &&& u16_at(memory, symbol) matches Ok(size)
    &&& size == encode_utf8(name).len()
    &&& memory(symbol.wrapping_add(8), size as nat) == Ok::<Seq<u8>, Seq<char>>(encode_utf8(name))
    &&& is_class_name(name)
}

/// A class with its pool is recognized if and only if they are those of a class with a name.
pub proof fn class_and_pool_are_recognized(
    memory: Contents,
    core: CoreLayout,
    jvm_base: u64,
    jvm_end: u64,
    pool: u64,
    klass: u64,
    name: Seq<char>,
)
    requires
        reads_are_exact(memory),
    ensures
        class_of_pool(memory, core, jvm_base, jvm_end, pool, klass) == Some(
            ClassView { klass, internal_name: name },
        ) <==> are_class_and_pool(memory, core, jvm_base, jvm_end, pool, klass, name),
{
    names_of_classes_are_accepted(name);
    encode_utf8_valid_utf8(name);
    encode_utf8_decode_utf8(name);
    blanks_in_bytes(name);
    if let Ok(symbol) = u64_at(memory, klass.wrapping_add(core.klass_name)) {
        if let Ok(size) = u16_at(memory, symbol) {
            if let Ok(bytes) = memory(symbol.wrapping_add(8), size as nat) {
                if symbol_text(memory, symbol) is Ok {
                    decode_utf8_encode_utf8(bytes);
                }
            }
        }
    }
}

/// Every class whose pool is found and which has a name is among the classes discovered, and no other
/// is. Where several pools name a class as their holder, the first one counts.
pub proof fn named_classes_are_discovered(
    memory: Contents,
    regions: Seq<MemoryRegion>,
    cp_vtable: u64,
    core: CoreLayout,
    jvm_base: u64,
    jvm_end: u64,
    klass: u64,
    name: Seq<char>,
)
    requires
        reads_are_exact(memory),
        words_found(memory, regions, cp_vtable, 1_000_001).len() <= 1_000_000,
    ensures
        ({
            let pools = words_found(memory, regions, cp_vtable, 1_000_001);
            &&& classes_by_pool(memory, regions, cp_vtable, core, jvm_base, jvm_end) matches Ok(
                classes,
            )
            &&& classes.contains(ClassView { klass, internal_name: name }) <==> klass != 0
                && exists|i: int|
                0 <= i < pools.len() && #[trigger] is_first_held_by(memory, core, pools, i, klass)
                    && are_class_and_pool(memory, core, jvm_base, jvm_end, pools[i], klass, name)
        }),
{
    let pools = words_found(memory, regions, cp_vtable, 1_000_001);
    enumerated_classes_are_those_of_the_pools(memory, regions, cp_vtable, core, jvm_base, jvm_end);
    let class = ClassView { klass, internal_name: name };
    assert forall|i: int| 0 <= i < pools.len() implies (class_of_pool(
        memory,
        core,
        jvm_base,
        jvm_end,
        #[trigger] pools[i],
        klass,
    ) == Some(class)) == are_class_and_pool(
        memory,
        core,
        jvm_base,
        jvm_end,
        pools[i],
        klass,
        name,
    ) by {
        class_and_pool_are_recognized(memory, core, jvm_base, jvm_end, pools[i], klass, name);
    }
    if is_led_to(memory, core, jvm_base, jvm_end, pools, pools.len(), class) {
        let i = choose|i: int|
            0 <= i < pools.len() && #[trigger] is_first_held_by(memory, core, pools, i, klass)
                && class_of_pool(memory, core, jvm_base, jvm_end, pools[i], klass) == Some(class);
        assert(are_class_and_pool(memory, core, jvm_base, jvm_end, pools[i], klass, name));
    }
    if exists|i: int|
        0 <= i < pools.len() && #[trigger] is_first_held_by(memory, core, pools, i, klass)
            && are_class_and_pool(memory, core, jvm_base, jvm_end, pools[i], klass, name) {
        let i = choose|i: int|
            0 <= i < pools.len() && #[trigger] is_first_held_by(memory, core, pools, i, klass)
                && are_class_and_pool(memory, core, jvm_base, jvm_end, pools[i], klass, name);
        assert(class_of_pool(memory, core, jvm_base, jvm_end, pools[i], klass) == Some(class));
        assert(is_led_to(memory, core, jvm_base, jvm_end, pools, pools.len(), class));
    }
}

/// More than a million pools are refused.
pub proof fn too_many_pools_are_refused(
    memory: Contents,
    regions: Seq<MemoryRegion>,
    cp_vtable: u64,
    core: CoreLayout,
    jvm_base: u64,
    jvm_end: u64,
)
    requires
        words_found(memory, regions, cp_vtable, 1_000_001).len() > 1_000_000,
    ensures
        classes_by_pool(memory, regions, cp_vtable, core, jvm_base, jvm_end) is Err,
{
}

} // verus!
