//! The layout of an unexported HotSpot: what can be told from its memory, and the profile of JDK 8
//! for the rest.
use vstd::hash_map::StringHashMap;
use vstd::prelude::*;
use vstd::utf8::encode_utf8;

use super::offsets::{
    CONST_METHOD_CODE_SIZE, CONST_METHOD_CONSTANT_POOL, CONST_METHOD_FLAGS, CONST_METHOD_MAX_LOCALS,
    CONST_METHOD_MAX_STACK, CONST_METHOD_NAME_INDEX, CONST_METHOD_SIGNATURE_INDEX,
    CONST_METHOD_SIZE, CONST_METHOD_STACKMAP_DATA, CP_CACHE, CP_OPERANDS, CP_REFERENCE_MAP,
    IK_FIELDS, IK_GENERIC_SIGNATURE_INDEX, IK_JAVA_FIELDS_COUNT, IK_LOCAL_INTERFACES,
    IK_MAJOR_VERSION, IK_METHODS, IK_MINOR_VERSION, KLASS_ACCESS_FLAGS, KLASS_SUPER,
    METHOD_ACCESS_FLAGS, METHOD_CONST_METHOD,
};
use crate::hotspot::vmstructs::{EntryView, VmStructEntry, VmStructTable};
use crate::hotspot::vmtypes::VmTypes;
use crate::lists::{views, views_push};
use crate::platform::{read_bytes, u16_at, u32_at, u64_at, Contents, RemoteMemory};
use crate::text::{same_bytes, seen, text_from_utf8, utf8_text, with_context, Error, Outcome};

verus! {

/// The name of the class at the root of all, in internal form.
pub const OBJECT_NAME: &'static str = "java/lang/Object";

/// What was told from memory: where a class has its name and its constant pool, and where a pool
/// has its tags, its holder and its length, and at which size its slots start.
#[derive(Debug, Clone, Copy, PartialEq, Eq, Structural)]
pub struct CoreLayout {
    pub klass_name: u64,
    pub ik_constants: u64,
    pub cp_tags: u64,
    pub cp_holder: u64,
    pub cp_length: u64,
    pub cp_size: u64,
}

/// Whether an address lies in the module.
pub open spec fn within(start: u64, end: u64, address: u64) -> bool {
    start <= address < end
}

/// Whether there is a symbol at `symbol`: of the expected bytes, or else of any without a zero.
pub open spec fn is_symbol(memory: Contents, symbol: u64, expected: Option<Seq<u8>>) -> bool {
    &&& symbol != 0
    &&& u16_at(memory, symbol) matches Ok(length) && 1 <= length <= 4096 && (memory(
        symbol.wrapping_add(8),
        length as nat,
    ) matches Ok(body) && match expected {
        None => !body.contains(0u8),
        Some(value) => body == value,
    })
}

/// The text of the symbol at `symbol`.
pub open spec fn symbol_text(memory: Contents, symbol: u64) -> Outcome<Seq<char>> {
    match u16_at(memory, symbol) {
        Err(reason) => Err(reason),
        Ok(length) => if length == 0 || length > 4096 {
            Err("invalid Symbol length"@)
        } else {
            match memory(symbol.wrapping_add(8), length as nat) {
                Err(reason) => Err(reason),
                Ok(bytes) => match utf8_text(bytes) {
                    Err(reason) => Err(with_context("class name Symbol is not UTF-8"@, reason)),
                    Ok(text) => Ok(text),
                },
            }
        },
    }
}

/// How many of the tags mark a text.
pub open spec fn text_tags(tags: Seq<u8>) -> nat
    decreases tags.len(),
{
    if tags.len() == 0 {
        0
    } else {
        text_tags(tags.drop_last()) + if tags.last() == 1 {
            1nat
        } else {
            0
        }
    }
}

/// Whether, with slots from `size` on, each slot that is tagged as a text holds a symbol.
pub open spec fn texts_are_symbols(memory: Contents, pool: u64, size: u64, tags: Seq<u8>) -> bool {
    forall|i: int|
        0 <= i < tags.len() && #[trigger] tags[i] == 1 ==> (u64_at(
            memory,
            pool.wrapping_add(size).wrapping_add((i * 8) as u64),
        ) matches Ok(symbol) && is_symbol(memory, symbol, None))
}

/// The first size from `size` on with which the slots fit the tags.
pub open spec fn size_from(memory: Contents, pool: u64, tags: Seq<u8>, size: u64) -> Option<u64>
    decreases 0xa8 - size,
{
    if size > 0xa0 {
        None
    } else if texts_are_symbols(memory, pool, size, tags) {
        Some(size)
    } else {
        size_from(memory, pool, tags, (size + 8) as u64)
    }
}

/// The size of a pool without its slots, told from those of its first slots that hold a text: at
/// least four of them.
pub open spec fn pool_size(memory: Contents, pool: u64, tags: u64, length: nat) -> Option<u64> {
    let sample = if length < 512 {
        length
    } else {
        512
    };
    match memory(tags.wrapping_add(4), sample) {
        Err(_) => None,
        Ok(tag_bytes) => if text_tags(tag_bytes) < 4 {
            None
        } else {
            size_from(memory, pool, tag_bytes, 0x38)
        },
    }
}

/// The first offset from `cp_length` on at which the pool has the length of its tags, together
/// with the pool's size.
pub open spec fn length_from(
    memory: Contents,
    pool: u64,
    tags: u64,
    tag_length: u32,
    cp_length: u64,
) -> Option<(u64, u64)>
    decreases 0x64 - cp_length,
{
    if cp_length > 0x60 {
        None
    } else if u32_at(memory, pool.wrapping_add(cp_length)) == Ok::<u32, Seq<char>>(tag_length)
        && pool_size(memory, pool, tags, tag_length as nat) is Some {
        Some((cp_length, pool_size(memory, pool, tags, tag_length as nat).unwrap()))
    } else {
        length_from(memory, pool, tags, tag_length, (cp_length + 4) as u64)
    }
}

/// The offset of the length and the size of the pool, if it has its tags at `cp_tags`.
pub open spec fn length_with_tags(memory: Contents, pool: u64, cp_tags: u64) -> Option<(u64, u64)> {
    match u64_at(memory, pool.wrapping_add(cp_tags)) {
        Err(_) => None,
        Ok(tags) => match u32_at(memory, tags) {
            Err(_) => None,
            Ok(tag_length) => if 2 <= tag_length < 65535 {
                length_from(memory, pool, tags, tag_length, 0x20)
            } else {
                None
            },
        },
    }
}

/// The first offset from `cp_tags` on at which the pool may have its tags, with the offset of its
/// length and its size.
pub open spec fn tags_from(memory: Contents, pool: u64, cp_tags: u64) -> Option<(u64, u64, u64)>
    decreases 0x48 - cp_tags,
{
    if cp_tags > 0x40 {
        None
    } else {
        match length_with_tags(memory, pool, cp_tags) {
            Some((cp_length, cp_size)) => Some((cp_tags, cp_length, cp_size)),
            None => tags_from(memory, pool, (cp_tags + 8) as u64),
        }
    }
}

/// The first offset from `cp_holder` on at which the pool may refer to the class `klass`, with
/// the offsets of its tags and its length and its size.
pub open spec fn holder_from(memory: Contents, klass: u64, pool: u64, cp_holder: u64) -> Option<
    (u64, u64, u64, u64),
>
    decreases 0x58 - cp_holder,
{
    if cp_holder > 0x50 {
        None
    } else if u64_at(memory, pool.wrapping_add(cp_holder)) == Ok::<u64, Seq<char>>(klass)
        && tags_from(memory, pool, 8) is Some {
        let (cp_tags, cp_length, cp_size) = tags_from(memory, pool, 8).unwrap();
        Some((cp_holder, cp_tags, cp_length, cp_size))
    } else {
        holder_from(memory, klass, pool, (cp_holder + 8) as u64)
    }
}

/// The offsets in the pool that the class has at `ik_constants`, if that is a pool: an object of
/// the module that refers back to the class.
pub open spec fn pool_at_offset(
    memory: Contents,
    klass: u64,
    ik_constants: u64,
    jvm_base: u64,
    jvm_end: u64,
) -> Option<(u64, u64, u64, u64)> {
    match u64_at(memory, klass.wrapping_add(ik_constants)) {
        Err(_) => None,
        Ok(pool) => if pool == 0 {
            None
        } else {
            match u64_at(memory, pool) {
                Err(_) => None,
                Ok(vtable) => if within(jvm_base, jvm_end, vtable) {
                    holder_from(memory, klass, pool, 8)
                } else {
                    None
                },
            }
        },
    }
}

/// The layout with the first offset from `ik_constants` on at which the class has a pool.
pub open spec fn constants_from(
    memory: Contents,
    klass: u64,
    klass_name: u64,
    jvm_base: u64,
    jvm_end: u64,
    ik_constants: u64,
) -> Option<CoreLayout>
    decreases 0x208 - ik_constants,
{
    if ik_constants > 0x200 {
        None
    } else {
        match pool_at_offset(memory, klass, ik_constants, jvm_base, jvm_end) {
            Some((cp_holder, cp_tags, cp_length, cp_size)) => Some(
                CoreLayout { klass_name, ik_constants, cp_tags, cp_holder, cp_length, cp_size },
            ),
            None => constants_from(
                memory,
                klass,
                klass_name,
                jvm_base,
                jvm_end,
                (ik_constants + 8) as u64,
            ),
        }
    }
}

/// The layout told from the class `java/lang/Object` at `klass`, which has its name at
/// `klass_name`.
pub open spec fn core_layout_of(
    memory: Contents,
    klass: u64,
    klass_name: u64,
    jvm_base: u64,
    jvm_end: u64,
) -> Outcome<CoreLayout> {
    match u64_at(memory, klass.wrapping_add(klass_name)) {
        Err(reason) => Err(reason),
        Ok(symbol) => if !is_symbol(memory, symbol, Some(encode_utf8(OBJECT_NAME@))) {
            Err("Klass name does not point to Object Symbol"@)
        } else {
            match constants_from(memory, klass, klass_name, jvm_base, jvm_end, 0x80) {
                Some(layout) => Ok(layout),
                None => Err(
                    "no self-consistent ConstantPool was found from Object InstanceKlass"@,
                ),
            }
        },
    }
}

/// Whether there is a symbol at `symbol`: of the expected bytes, or else of any without a zero.
pub fn valid_symbol_at<M: RemoteMemory>(memory: &M, symbol: u64, expected: Option<&[u8]>) -> (valid:
    bool)
    ensures
        valid == is_symbol(
            memory.contents(),
            symbol,
            match expected {
                None => None,
                Some(value) => Some(value@),
            },
        ),
{
    if symbol == 0 {
        return false;
    }
    let length = match memory.read_u16(symbol) {
        Ok(length) => length,
        Err(_) => {
            return false;
        },
    };
    if length == 0 || length > 4096 {
        return false;
    }
    let body = match read_bytes(memory, symbol.wrapping_add(8), length as usize) {
        Ok(body) => body,
        Err(_) => {
            return false;
        },
    };
    match expected {
        Some(value) => same_bytes(body.as_slice(), value),
        None => no_zero(&body),
    }
}

fn no_zero(bytes: &Vec<u8>) -> (none: bool)
    ensures
        none == !bytes@.contains(0u8),
{
    let mut index: usize = 0;
    while index < bytes.len()
        invariant
            index <= bytes@.len(),
            forall|i: int| 0 <= i < index ==> bytes@[i] != 0,
        decreases bytes@.len() - index,
    {
        if bytes[index] == 0 {
            assert(bytes@.contains(bytes@[index as int]));
            return false;
        }
        index += 1;
    }
    true
}

/// The text of the symbol at `symbol`.
pub fn read_symbol<M: RemoteMemory>(memory: &M, symbol: u64) -> (result: Result<String, Error>)
    ensures
        seen(result) == symbol_text(memory.contents(), symbol),
{
    let length = memory.read_u16(symbol)?;
    if length == 0 || length > 4096 {
        return Err(Error::new("invalid Symbol length"));
    }
    let bytes = read_bytes(memory, symbol.wrapping_add(8), length as usize)?;
    match text_from_utf8(bytes) {
        Ok(text) => Ok(text),
        Err(error) => Err(error.context("class name Symbol is not UTF-8")),
    }
}

fn count_text_tags(tags: &Vec<u8>) -> (count: usize)
    ensures
        count == text_tags(tags@),
{
    let mut count: usize = 0;
    let mut index: usize = 0;
    assert(tags@.take(0) =~= Seq::empty());
    while index < tags.len()
        invariant
            index <= tags@.len(),
            count <= index,
            count == text_tags(tags@.take(index as int)),
        decreases tags@.len() - index,
    {
        assert(tags@.take(index + 1).drop_last() =~= tags@.take(index as int));
        if tags[index] == 1 {
            count += 1;
        }
        index += 1;
    }
    assert(tags@.take(index as int) =~= tags@);
    count
}

fn texts_fit<M: RemoteMemory>(memory: &M, pool: u64, size: u64, tags: &Vec<u8>) -> (fit: bool)
    requires
        tags@.len() <= 512,
    ensures
        fit == texts_are_symbols(memory.contents(), pool, size, tags@),
{
    let mut index: usize = 0;
    while index < tags.len()
        invariant
            index <= tags@.len() <= 512,
            forall|i: int|
                0 <= i < index && #[trigger] tags@[i] == 1 ==> (u64_at(
                    memory.contents(),
                    pool.wrapping_add(size).wrapping_add((i * 8) as u64),
                ) matches Ok(symbol) && is_symbol(memory.contents(), symbol, None)),
        decreases tags@.len() - index,
    {
        if tags[index] == 1 {
            let slot = pool.wrapping_add(size).wrapping_add(index as u64 * 8);
            let symbol = match memory.read_u64(slot) {
                Ok(symbol) => symbol,
                Err(_) => {
                    assert(tags@[index as int] == 1);
                    return false;
                },
            };
            if !valid_symbol_at(memory, symbol, None) {
                assert(tags@[index as int] == 1);
                return false;
            }
        }
        index += 1;
    }
    true
}

fn infer_cp_size<M: RemoteMemory>(memory: &M, pool: u64, tags: u64, length: u32) -> (size: Option<
    u64,
>)
    ensures
        size == pool_size(memory.contents(), pool, tags, length as nat),
{
    let sample: usize = if length < 512 {
        length as usize
    } else {
        512
    };
    let tag_bytes = match read_bytes(memory, tags.wrapping_add(4), sample) {
        Ok(tag_bytes) => tag_bytes,
        Err(_) => {
            return None;
        },
    };
    if count_text_tags(&tag_bytes) < 4 {
        return None;
    }
    let mut size: u64 = 0x38;
    while size <= 0xa0
        invariant
            0x38 <= size <= 0xa8,
            tag_bytes@.len() <= 512,
            pool_size(memory.contents(), pool, tags, length as nat) == size_from(
                memory.contents(),
                pool,
                tag_bytes@,
                size,
            ),
        decreases 0xa8 - size,
    {
        if texts_fit(memory, pool, size, &tag_bytes) {
            return Some(size);
        }
        size += 8;
    }
    None
}

fn find_length<M: RemoteMemory>(memory: &M, pool: u64, cp_tags: u64) -> (found: Option<(u64, u64)>)
    ensures
        found == length_with_tags(memory.contents(), pool, cp_tags),
{
    let tags = match memory.read_u64(pool.wrapping_add(cp_tags)) {
        Ok(tags) => tags,
        Err(_) => {
            return None;
        },
    };
    let tag_length = match memory.read_u32(tags) {
        Ok(tag_length) => tag_length,
        Err(_) => {
            return None;
        },
    };
    if tag_length < 2 || tag_length >= 65535 {
        return None;
    }
    let mut cp_length: u64 = 0x20;
    while cp_length <= 0x60
        invariant
            0x20 <= cp_length <= 0x64,
            length_with_tags(memory.contents(), pool, cp_tags) == length_from(
                memory.contents(),
                pool,
                tags,
                tag_length,
                cp_length,
            ),
        decreases 0x64 - cp_length,
    {
        if let Ok(value) = memory.read_u32(pool.wrapping_add(cp_length)) {
            if value == tag_length {
                if let Some(cp_size) = infer_cp_size(memory, pool, tags, tag_length) {
                    return Some((cp_length, cp_size));
                }
            }
        }
        cp_length += 4;
    }
    None
}

fn find_tags<M: RemoteMemory>(memory: &M, pool: u64) -> (found: Option<(u64, u64, u64)>)
    ensures
        found == tags_from(memory.contents(), pool, 8),
{
    let mut cp_tags: u64 = 8;
    while cp_tags <= 0x40
        invariant
            8 <= cp_tags <= 0x48,
            tags_from(memory.contents(), pool, 8) == tags_from(memory.contents(), pool, cp_tags),
        decreases 0x48 - cp_tags,
    {
        if let Some((cp_length, cp_size)) = find_length(memory, pool, cp_tags) {
            return Some((cp_tags, cp_length, cp_size));
        }
        cp_tags += 8;
    }
    None
}

fn find_holder<M: RemoteMemory>(memory: &M, klass: u64, pool: u64) -> (found: Option<
    (u64, u64, u64, u64),
>)
    ensures
        found == holder_from(memory.contents(), klass, pool, 8),
{
    let mut cp_holder: u64 = 8;
    while cp_holder <= 0x50
        invariant
            8 <= cp_holder <= 0x58,
            holder_from(memory.contents(), klass, pool, 8) == holder_from(
                memory.contents(),
                klass,
                pool,
                cp_holder,
            ),
        decreases 0x58 - cp_holder,
    {
        if let Ok(holder) = memory.read_u64(pool.wrapping_add(cp_holder)) {
            if holder == klass {
                if let Some((cp_tags, cp_length, cp_size)) = find_tags(memory, pool) {
                    return Some((cp_holder, cp_tags, cp_length, cp_size));
                }
            }
        }
        cp_holder += 8;
    }
    None
}

fn find_pool<M: RemoteMemory>(
    memory: &M,
    klass: u64,
    ik_constants: u64,
    jvm_base: u64,
    jvm_end: u64,
) -> (found: Option<(u64, u64, u64, u64)>)
    ensures
        found == pool_at_offset(memory.contents(), klass, ik_constants, jvm_base, jvm_end),
{
    let pool = match memory.read_u64(klass.wrapping_add(ik_constants)) {
        Ok(pool) => pool,
        Err(_) => {
            return None;
        },
    };
    if pool == 0 {
        return None;
    }
    let vtable = match memory.read_u64(pool) {
        Ok(vtable) => vtable,
        Err(_) => {
            return None;
        },
    };
    if vtable < jvm_base || vtable >= jvm_end {
        return None;
    }
    find_holder(memory, klass, pool)
}

/// Tells the layout from the class `java/lang/Object` at `klass`, which has its name at
/// `klass_name`.
pub fn infer_core_layout<M: RemoteMemory>(
    memory: &M,
    klass: u64,
    klass_name: u64,
    jvm_base: u64,
    jvm_end: u64,
) -> (result: Result<CoreLayout, Error>)
    ensures
        match core_layout_of(memory.contents(), klass, klass_name, jvm_base, jvm_end) {
            Err(reason) => result matches Err(error) && error@ == reason,
            Ok(layout) => result == Ok::<CoreLayout, Error>(layout),
        },
{
    let symbol = memory.read_u64(klass.wrapping_add(klass_name))?;
    if !valid_symbol_at(memory, symbol, Some(OBJECT_NAME.as_bytes())) {
        return Err(Error::new("Klass name does not point to Object Symbol"));
    }
    let mut ik_constants: u64 = 0x80;
    while ik_constants <= 0x200
        invariant
            0x80 <= ik_constants <= 0x208,
            constants_from(memory.contents(), klass, klass_name, jvm_base, jvm_end, 0x80)
                == constants_from(
                memory.contents(),
                klass,
                klass_name,
                jvm_base,
                jvm_end,
                ik_constants,
            ),
            core_layout_of(memory.contents(), klass, klass_name, jvm_base, jvm_end) == (
            match constants_from(memory.contents(), klass, klass_name, jvm_base, jvm_end, 0x80) {
                Some(layout) => Ok::<CoreLayout, Seq<char>>(layout),
                None => Err(
                    "no self-consistent ConstantPool was found from Object InstanceKlass"@,
                ),
            }),
        decreases 0x208 - ik_constants,
    {
        if let Some((cp_holder, cp_tags, cp_length, cp_size)) = find_pool(
            memory,
            klass,
            ik_constants,
            jvm_base,
            jvm_end,
        ) {
            return Ok(
                CoreLayout { klass_name, ik_constants, cp_tags, cp_holder, cp_length, cp_size },
            );
        }
        ik_constants += 8;
    }
    Err(Error::new("no self-consistent ConstantPool was found from Object InstanceKlass"))
}

/// What a read yields, or zero where it fails.
pub open spec fn or_zero(value: Outcome<u64>) -> u64 {
    match value {
        Ok(value) => value,
        Err(_) => 0,
    }
}

/// The number in an index, or the largest where the read fails.
pub open spec fn index_or_max(value: Outcome<u16>) -> u32 {
    match value {
        Ok(value) => value as u32,
        Err(_) => 0xffff,
    }
}

/// Whether the pool's tags at `tags` mark the text at `index`, which is one of `length`.
pub open spec fn tagged_text(memory: Contents, tags: u64, length: u32, index: u32) -> bool {
    &&& index < length
    &&& memory(tags.wrapping_add(4).wrapping_add(index as u64), 1) matches Ok(tag) && tag[0] == 1
}

/// Whether the slot at `slot` holds a method of the pool at `pool`, with a name and a signature
/// from it. `tags` and `length` are those of the pool.
pub open spec fn plausible_method(
    memory: Contents,
    slot: u64,
    pool: u64,
    tags: u64,
    length: u32,
    jvm_base: u64,
    jvm_end: u64,
) -> bool {
    let method = or_zero(u64_at(memory, slot));
    let vtable = or_zero(u64_at(memory, method));
    let const_method = or_zero(u64_at(memory, method.wrapping_add(METHOD_CONST_METHOD)));
    let name = index_or_max(u16_at(memory, const_method.wrapping_add(CONST_METHOD_NAME_INDEX)));
    let signature = index_or_max(
        u16_at(memory, const_method.wrapping_add(CONST_METHOD_SIGNATURE_INDEX)),
    );
    &&& within(jvm_base, jvm_end, vtable)
    &&& u64_at(memory, const_method.wrapping_add(CONST_METHOD_CONSTANT_POOL)) == Ok::<
        u64,
        Seq<char>,
    >(pool)
    &&& tagged_text(memory, tags, length, name)
    &&& tagged_text(memory, tags, length, signature)
}

/// How many of the first `count` slots from `slots` on hold a method of the pool.
pub open spec fn plausible_methods(
    memory: Contents,
    slots: u64,
    count: nat,
    pool: u64,
    tags: u64,
    length: u32,
    jvm_base: u64,
    jvm_end: u64,
) -> nat
    decreases count,
{
    if count == 0 {
        0
    } else {
        let slot = slots.wrapping_add(((count - 1) * 8) as u64);
        plausible_methods(
            memory,
            slots,
            (count - 1) as nat,
            pool,
            tags,
            length,
            jvm_base,
            jvm_end,
        ) + if plausible_method(memory, slot, pool, tags, length, jvm_base, jvm_end) {
            1nat
        } else {
            0
        }
    }
}

/// How many of the first methods of the class fit the profile: of up to twelve, if the class has
/// between four and 256.
pub open spec fn methods_in_profile(
    memory: Contents,
    object: u64,
    core: CoreLayout,
    jvm_base: u64,
    jvm_end: u64,
) -> nat {
    let methods = or_zero(u64_at(memory, object.wrapping_add(IK_METHODS)));
    if methods == 0 {
        0
    } else {
        match u32_at(memory, methods) {
            Err(_) => 0,
            Ok(count) => if 4 <= count <= 256 {
                let pool = or_zero(u64_at(memory, object.wrapping_add(core.ik_constants)));
                let tags = or_zero(u64_at(memory, pool.wrapping_add(core.cp_tags)));
                let length = match u32_at(memory, pool.wrapping_add(core.cp_length)) {
                    Ok(length) => length,
                    Err(_) => 0,
                };
                plausible_methods(
                    memory,
                    methods.wrapping_add(8),
                    if count < 12 {
                        count as nat
                    } else {
                        12
                    },
                    pool,
                    tags,
                    length,
                    jvm_base,
                    jvm_end,
                )
            } else {
                0
            },
        }
    }
}

/// One point for a trait that is there.
pub open spec fn point(there: bool) -> nat {
    if there {
        1
    } else {
        0
    }
}

/// How well the class `java/lang/Object` at `object` fits the profile of JDK 8: a point for each of
/// five traits, and two for its methods.
pub open spec fn profile_score(
    memory: Contents,
    object: u64,
    core: CoreLayout,
    jvm_base: u64,
    jvm_end: u64,
) -> nat {
    point(core.klass_name == 0x10) + point(core.ik_constants == 0xd0) + point(
        u64_at(memory, object.wrapping_add(KLASS_SUPER)) == Ok::<u64, Seq<char>>(0),
    ) + point(
        u32_at(memory, object.wrapping_add(KLASS_ACCESS_FLAGS)) matches Ok(flags) && flags
            % 0x1_0000 == 0x21,
    ) + point(
        u16_at(memory, object.wrapping_add(IK_MAJOR_VERSION)) == Ok::<u16, Seq<char>>(52),
    ) + 2 * point(methods_in_profile(memory, object, core, jvm_base, jvm_end) >= 4)
}

fn u64_or_zero<M: RemoteMemory>(memory: &M, address: u64) -> (value: u64)
    ensures
        value == or_zero(u64_at(memory.contents(), address)),
{
    match memory.read_u64(address) {
        Ok(value) => value,
        Err(_) => 0,
    }
}

fn u16_or_max<M: RemoteMemory>(memory: &M, address: u64) -> (value: u32)
    ensures
        value == index_or_max(u16_at(memory.contents(), address)),
{
    match memory.read_u16(address) {
        Ok(value) => value as u32,
        Err(_) => 0xffff,
    }
}

fn read_u8<M: RemoteMemory>(memory: &M, address: u64) -> (value: Option<u8>)
    ensures
        match memory.contents()(address, 1) {
            Ok(byte) => value == Some(byte[0]),
            Err(_) => value is None,
        },
{
    let mut byte = [0u8; 1];
    match memory.read_exact(address, &mut byte) {
        Ok(()) => Some(byte[0]),
        Err(_) => None,
    }
}

fn is_tagged_text<M: RemoteMemory>(memory: &M, tags: u64, length: u32, index: u32) -> (is: bool)
    ensures
        is == tagged_text(memory.contents(), tags, length, index),
{
    if index >= length {
        return false;
    }
    match read_u8(memory, tags.wrapping_add(4).wrapping_add(index as u64)) {
        Some(tag) => tag == 1,
        None => false,
    }
}

fn is_plausible_method<M: RemoteMemory>(
    memory: &M,
    slot: u64,
    pool: u64,
    tags: u64,
    length: u32,
    jvm_base: u64,
    jvm_end: u64,
) -> (is: bool)
    ensures
        is == plausible_method(memory.contents(), slot, pool, tags, length, jvm_base, jvm_end),
{
    let method = u64_or_zero(memory, slot);
    let vtable = u64_or_zero(memory, method);
    let const_method = u64_or_zero(memory, method.wrapping_add(METHOD_CONST_METHOD));
    if vtable < jvm_base || vtable >= jvm_end {
        return false;
    }
    match memory.read_u64(const_method.wrapping_add(CONST_METHOD_CONSTANT_POOL)) {
        Ok(value) => if value != pool {
            return false;
        },
        Err(_) => {
            return false;
        },
    }
    let name = u16_or_max(memory, const_method.wrapping_add(CONST_METHOD_NAME_INDEX));
    let signature = u16_or_max(memory, const_method.wrapping_add(CONST_METHOD_SIGNATURE_INDEX));
    is_tagged_text(memory, tags, length, name) && is_tagged_text(memory, tags, length, signature)
}

fn count_methods_in_profile<M: RemoteMemory>(
    memory: &M,
    object: u64,
    core: &CoreLayout,
    jvm_base: u64,
    jvm_end: u64,
) -> (valid: u32)
    ensures
        valid == methods_in_profile(memory.contents(), object, *core, jvm_base, jvm_end),
{
    let methods = u64_or_zero(memory, object.wrapping_add(IK_METHODS));
    if methods == 0 {
        return 0;
    }
    let count = match memory.read_u32(methods) {
        Ok(count) => count,
        Err(_) => {
            return 0;
        },
    };
    if count < 4 || count > 256 {
        return 0;
    }
    let pool = u64_or_zero(memory, object.wrapping_add(core.ik_constants));
    let tags = u64_or_zero(memory, pool.wrapping_add(core.cp_tags));
    let length = match memory.read_u32(pool.wrapping_add(core.cp_length)) {
        Ok(length) => length,
        Err(_) => 0,
    };
    let slots = methods.wrapping_add(8);
    let count: u32 = if count < 12 {
        count
    } else {
        12
    };
    let mut valid: u32 = 0;
    let mut index: u32 = 0;
    while index < count
        invariant
            index <= count <= 12,
            valid <= index,
            valid == plausible_methods(
                memory.contents(),
                slots,
                index as nat,
                pool,
                tags,
                length,
                jvm_base,
                jvm_end,
            ),
        decreases count - index,
    {
        let slot = slots.wrapping_add(index as u64 * 8);
        if is_plausible_method(memory, slot, pool, tags, length, jvm_base, jvm_end) {
            valid += 1;
        }
        index += 1;
    }
    valid
}

/// How well the class `java/lang/Object` at `object` fits the profile of JDK 8, in points of seven.
pub fn validate_jdk8_profile<M: RemoteMemory>(
    memory: &M,
    object: u64,
    core: &CoreLayout,
    jvm_base: u64,
    jvm_end: u64,
) -> (score: usize)
    ensures
        score == profile_score(memory.contents(), object, *core, jvm_base, jvm_end),
        score <= 7,
{
    let mut score: usize = 0;
    if core.klass_name == 0x10 {
        score += 1;
    }
    if core.ik_constants == 0xd0 {
        score += 1;
    }
    if let Ok(super_klass) = memory.read_u64(object.wrapping_add(KLASS_SUPER)) {
        if super_klass == 0 {
            score += 1;
        }
    }
    if let Ok(flags) = memory.read_u32(object.wrapping_add(KLASS_ACCESS_FLAGS)) {
        if flags % 0x1_0000 == 0x21 {
            score += 1;
        }
    }
    if let Ok(major) = memory.read_u16(object.wrapping_add(IK_MAJOR_VERSION)) {
        if major == 52 {
            score += 1;
        }
    }
    if count_methods_in_profile(memory, object, core, jvm_base, jvm_end) >= 4 {
        score += 2;
    }
    score
}

/// A field that lies in its structure.
pub open spec fn described(struct_name: Seq<char>, field_name: Seq<char>, offset: u64) -> EntryView {
    EntryView { struct_name, field_name, offset, address: 0 }
}

/// The fields of the profile: those that were told from memory, and those of JDK 8.
pub open spec fn profile_entries(core: CoreLayout) -> Seq<EntryView> {
    Seq::empty()
        .push(described("Klass"@, "_name"@, core.klass_name))
        .push(described("Klass"@, "_super"@, KLASS_SUPER))
        .push(described("Klass"@, "_access_flags"@, KLASS_ACCESS_FLAGS))
        .push(described("Symbol"@, "_length"@, 0))
        .push(described("Symbol"@, "_body"@, 8))
        .push(described("InstanceKlass"@, "_constants"@, core.ik_constants))
        .push(described("InstanceKlass"@, "_fields"@, IK_FIELDS))
        .push(described("InstanceKlass"@, "_java_fields_count"@, IK_JAVA_FIELDS_COUNT))
        .push(described("InstanceKlass"@, "_methods"@, IK_METHODS))
        .push(described("InstanceKlass"@, "_local_interfaces"@, IK_LOCAL_INTERFACES))
        .push(described("InstanceKlass"@, "_major_version"@, IK_MAJOR_VERSION))
        .push(described("InstanceKlass"@, "_minor_version"@, IK_MINOR_VERSION))
        .push(described("InstanceKlass"@, "_generic_signature_index"@, IK_GENERIC_SIGNATURE_INDEX))
        .push(described("ConstantPool"@, "_tags"@, core.cp_tags))
        .push(described("ConstantPool"@, "_length"@, core.cp_length))
        .push(described("ConstantPool"@, "_cache"@, CP_CACHE))
        .push(described("ConstantPool"@, "_reference_map"@, CP_REFERENCE_MAP))
        .push(described("ConstantPool"@, "_operands"@, CP_OPERANDS))
        .push(described("Array<Klass*>"@, "_length"@, 0))
        .push(described("Array<Klass*>"@, "_data[0]"@, 8))
        .push(described("Method"@, "_constMethod"@, METHOD_CONST_METHOD))
        .push(described("Method"@, "_access_flags"@, METHOD_ACCESS_FLAGS))
        .push(described("ConstMethod"@, "_name_index"@, CONST_METHOD_NAME_INDEX))
        .push(described("ConstMethod"@, "_signature_index"@, CONST_METHOD_SIGNATURE_INDEX))
        .push(described("ConstMethod"@, "_flags"@, CONST_METHOD_FLAGS))
        .push(described("ConstMethod"@, "_code_size"@, CONST_METHOD_CODE_SIZE))
        .push(described("ConstMethod"@, "_constMethod_size"@, CONST_METHOD_SIZE))
        .push(described("ConstMethod"@, "_max_stack"@, CONST_METHOD_MAX_STACK))
        .push(described("ConstMethod"@, "_max_locals"@, CONST_METHOD_MAX_LOCALS))
        .push(described("ConstMethod"@, "_stackmap_data"@, CONST_METHOD_STACKMAP_DATA))
        .push(described("ConstantPoolCache"@, "_length"@, 0))
        .push(described("ConstantPoolCacheEntry"@, "_indices"@, 0))
}

/// The sizes of the profile.
pub open spec fn profile_sizes(cp_size: u64) -> Map<Seq<char>, u64> {
    Map::empty().insert("ConstantPool"@, cp_size).insert("ConstMethod"@, 0x30).insert(
        "ConstantPoolCache"@,
        0x10,
    ).insert("ConstantPoolCacheEntry"@, 0x20)
}

fn describe(entries: &mut Vec<VmStructEntry>, struct_name: &str, field_name: &str, offset: u64)
    ensures
        views(final(entries)@) == views(old(entries)@).push(
            described(struct_name@, field_name@, offset),
        ),
{
    let entry = VmStructEntry {
        struct_name: struct_name.to_owned(),
        field_name: field_name.to_owned(),
        offset,
        address: 0,
    };
    proof {
        views_push(entries@, entry);
    }
    entries.push(entry);
}

/// The table of the fields of the profile.
pub fn profile_vmstructs(core: CoreLayout) -> (table: VmStructTable)
    ensures
        table@ == profile_entries(core),
{
    let mut entries: Vec<VmStructEntry> = Vec::new();
    assert(views(entries@) =~= Seq::empty());
    describe(&mut entries, "Klass", "_name", core.klass_name);
    describe(&mut entries, "Klass", "_super", KLASS_SUPER);
    describe(&mut entries, "Klass", "_access_flags", KLASS_ACCESS_FLAGS);
    describe(&mut entries, "Symbol", "_length", 0);
    describe(&mut entries, "Symbol", "_body", 8);
    describe(&mut entries, "InstanceKlass", "_constants", core.ik_constants);
    describe(&mut entries, "InstanceKlass", "_fields", IK_FIELDS);
    describe(&mut entries, "InstanceKlass", "_java_fields_count", IK_JAVA_FIELDS_COUNT);
    describe(&mut entries, "InstanceKlass", "_methods", IK_METHODS);
    describe(&mut entries, "InstanceKlass", "_local_interfaces", IK_LOCAL_INTERFACES);
    describe(&mut entries, "InstanceKlass", "_major_version", IK_MAJOR_VERSION);
    describe(&mut entries, "InstanceKlass", "_minor_version", IK_MINOR_VERSION);
    describe(&mut entries, "InstanceKlass", "_generic_signature_index", IK_GENERIC_SIGNATURE_INDEX);
    describe(&mut entries, "ConstantPool", "_tags", core.cp_tags);
    describe(&mut entries, "ConstantPool", "_length", core.cp_length);
    describe(&mut entries, "ConstantPool", "_cache", CP_CACHE);
    describe(&mut entries, "ConstantPool", "_reference_map", CP_REFERENCE_MAP);
    describe(&mut entries, "ConstantPool", "_operands", CP_OPERANDS);
    describe(&mut entries, "Array<Klass*>", "_length", 0);
    describe(&mut entries, "Array<Klass*>", "_data[0]", 8);
    describe(&mut entries, "Method", "_constMethod", METHOD_CONST_METHOD);
    describe(&mut entries, "Method", "_access_flags", METHOD_ACCESS_FLAGS);
    describe(&mut entries, "ConstMethod", "_name_index", CONST_METHOD_NAME_INDEX);
    describe(&mut entries, "ConstMethod", "_signature_index", CONST_METHOD_SIGNATURE_INDEX);
    describe(&mut entries, "ConstMethod", "_flags", CONST_METHOD_FLAGS);
    describe(&mut entries, "ConstMethod", "_code_size", CONST_METHOD_CODE_SIZE);
    describe(&mut entries, "ConstMethod", "_constMethod_size", CONST_METHOD_SIZE);
    describe(&mut entries, "ConstMethod", "_max_stack", CONST_METHOD_MAX_STACK);
    describe(&mut entries, "ConstMethod", "_max_locals", CONST_METHOD_MAX_LOCALS);
    describe(&mut entries, "ConstMethod", "_stackmap_data", CONST_METHOD_STACKMAP_DATA);
    describe(&mut entries, "ConstantPoolCache", "_length", 0);
    describe(&mut entries, "ConstantPoolCacheEntry", "_indices", 0);
    VmStructTable::inferred(entries)
}

/// The table of the sizes of the profile.
pub fn profile_vmtypes(cp_size: u64) -> (types: VmTypes)
    ensures
        types@ == profile_sizes(cp_size),
{
    let mut sizes: StringHashMap<u64> = StringHashMap::new();
    sizes.insert("ConstantPool".to_owned(), cp_size);
    sizes.insert("ConstMethod".to_owned(), 0x30);
    sizes.insert("ConstantPoolCache".to_owned(), 0x10);
    sizes.insert("ConstantPoolCacheEntry".to_owned(), 0x20);
    VmTypes::inferred(sizes)
}

} // verus!
