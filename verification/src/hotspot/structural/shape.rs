//! By what a class and its pool are recognized where nothing describes them.
use vstd::prelude::*;
use vstd::utf8::encode_utf8;

use super::layout::{
    constants_from, core_layout_of, holder_from, is_symbol, length_from, length_with_tags,
    pool_at_offset, pool_size, size_from, tags_from, text_tags, texts_are_symbols, CoreLayout,
};
use crate::platform::{u16_at, u32_at, u64_at, Contents};

verus! {

/// Whether there is a symbol at `symbol`: between one and 4096 bytes that are not zero, their number
/// in the first two bytes, and themselves eight bytes further on.
pub open spec fn has_symbol(memory: Contents, symbol: u64) -> bool {
    &&& symbol != 0
    &&& u16_at(memory, symbol) matches Ok(length)
    &&& 0 < length < 4097
    &&& memory(symbol.wrapping_add(8), length as nat) matches Ok(body)
    &&& forall|i: int| 0 <= i < body.len() ==> #[trigger] body[i] != 0
}

/// Whether the symbol at `symbol` has the bytes `text`.
pub open spec fn is_symbol_of(memory: Contents, symbol: u64, text: Seq<u8>) -> bool {
    &&& symbol != 0
    &&& u16_at(memory, symbol) matches Ok(length)
    &&& 0 < length < 4097
    &&& memory(symbol.wrapping_add(8), length as nat) == Ok::<Seq<u8>, Seq<char>>(text)
}

/// Symbols are recognized by their shape.
pub proof fn symbols_are_recognized(memory: Contents, symbol: u64, text: Seq<u8>)
    ensures
        is_symbol(memory, symbol, None) <==> has_symbol(memory, symbol),
        is_symbol(memory, symbol, Some(text)) <==> is_symbol_of(memory, symbol, text),
{
    if let Ok(length) = u16_at(memory, symbol) {
        if let Ok(body) = memory(symbol.wrapping_add(8), length as nat) {
            if body.contains(0u8) {
                let i = choose|i: int| 0 <= i < body.len() && body[i] == 0u8;
                assert(body[i] == 0);
            }
            if exists|i: int| 0 <= i < body.len() && body[i] == 0 {
                let i = choose|i: int| 0 <= i < body.len() && body[i] == 0;
                assert(body.contains(body[i]));
            }
        }
    }
}

/// The tags of texts are counted.
pub proof fn tags_of_texts_are_counted(tags: Seq<u8>)
    ensures
        text_tags(tags) == tags.to_multiset().count(1u8),
    decreases tags.len(),
{
    broadcast use vstd::seq_lib::group_to_multiset_ensures;

    if tags.len() == 0 {
        assert(tags =~= Seq::<u8>::empty());
    } else {
        tags_of_texts_are_counted(tags.drop_last());
        assert(tags =~= tags.drop_last().push(tags.last()));
    }
}

/// Whether, with slots that start `size` behind the pool, each of the slots that has the tag of a text
/// holds a symbol.
pub open spec fn texts_fit(memory: Contents, pool: u64, size: u64, tags: Seq<u8>) -> bool {
    forall|i: int|
        0 <= i < tags.len() && #[trigger] tags[i] == 1 ==> slot_has_symbol(memory, pool, size, i)
}

/// Whether slot `index` holds a symbol.
pub open spec fn slot_has_symbol(memory: Contents, pool: u64, size: u64, index: int) -> bool {
    &&& u64_at(memory, pool.wrapping_add(size).wrapping_add((8 * index) as u64)) matches Ok(symbol)
    &&& has_symbol(memory, symbol)
}

/// Whether a pool with the tags `tags` may have its slots at `size`.
pub open spec fn size_fits(memory: Contents, pool: u64, tags: Seq<u8>, size: u64) -> bool {
    &&& 0x38 <= size <= 0xa0
    &&& size % 8 == 0
    &&& texts_fit(memory, pool, size, tags)
}

proof fn texts_are_told(memory: Contents, pool: u64, size: u64, tags: Seq<u8>)
    ensures
        texts_are_symbols(memory, pool, size, tags) <==> texts_fit(memory, pool, size, tags),
{
    assert forall|i: int| 0 <= i < tags.len() && #[trigger] tags[i] == 1 implies (u64_at(
        memory,
        pool.wrapping_add(size).wrapping_add((i * 8) as u64),
    ) matches Ok(symbol) && is_symbol(memory, symbol, None)) == slot_has_symbol(
        memory,
        pool,
        size,
        i,
    ) by {
        if let Ok(symbol) = u64_at(memory, pool.wrapping_add(size).wrapping_add((i * 8) as u64)) {
            symbols_are_recognized(memory, symbol, Seq::empty());
        }
    }
    if texts_are_symbols(memory, pool, size, tags) {
        assert(texts_fit(memory, pool, size, tags));
    }
    if texts_fit(memory, pool, size, tags) {
        assert forall|i: int| 0 <= i < tags.len() && #[trigger] tags[i] == 1 implies (u64_at(
            memory,
            pool.wrapping_add(size).wrapping_add((i * 8) as u64),
        ) matches Ok(symbol) && is_symbol(memory, symbol, None)) by {
            assert(slot_has_symbol(memory, pool, size, i));
        }
    }
}

proof fn first_size_is_found(memory: Contents, pool: u64, tags: Seq<u8>, from: u64)
    requires
        from % 8 == 0,
        0x38 <= from <= 0xa8,
    ensures
        match size_from(memory, pool, tags, from) {
            Some(size) => {
                &&& from <= size
                &&& size_fits(memory, pool, tags, size)
                &&& forall|other: u64|
                    from <= other < size ==> !#[trigger] size_fits(memory, pool, tags, other)
            },
            None => forall|other: u64|
                from <= other ==> !#[trigger] size_fits(memory, pool, tags, other),
        },
    decreases 0xa8 - from,
{
    texts_are_told(memory, pool, from, tags);
    if from <= 0xa0 && !texts_are_symbols(memory, pool, from, tags) {
        first_size_is_found(memory, pool, tags, (from + 8) as u64);
        assert forall|other: u64| from <= other < from + 8 implies !#[trigger] size_fits(
            memory,
            pool,
            tags,
            other,
        ) by {
            if other != from {
                assert(other % 8 != 0);
            }
        }
    }
}

/// Whether a pool of `length` slots with its tags at `tags` may have its slots at `size`: up to 512
/// tags are looked at, and at least four of them have to be those of texts.
pub open spec fn pool_may_have_size(
    memory: Contents,
    pool: u64,
    tags: u64,
    length: nat,
    size: u64,
) -> bool {
    let sample: nat = if length > 512 {
        512
    } else {
        length
    };
    &&& memory(tags.wrapping_add(4), sample) matches Ok(bytes)
    &&& bytes.to_multiset().count(1u8) >= 4
    &&& size_fits(memory, pool, bytes, size)
}

/// The size of a pool is the first one that it may have.
pub proof fn pool_size_is_the_first_that_fits(memory: Contents, pool: u64, tags: u64, length: nat)
    ensures
        match pool_size(memory, pool, tags, length) {
            Some(size) => {
                &&& pool_may_have_size(memory, pool, tags, length, size)
                &&& forall|other: u64|
                    other < size ==> !#[trigger] pool_may_have_size(
                        memory,
                        pool,
                        tags,
                        length,
                        other,
                    )
            },
            None => forall|other: u64|
                !#[trigger] pool_may_have_size(memory, pool, tags, length, other),
        },
{
    let sample: nat = if length > 512 {
        512
    } else {
        length
    };
    if let Ok(bytes) = memory(tags.wrapping_add(4), sample) {
        tags_of_texts_are_counted(bytes);
        first_size_is_found(memory, pool, bytes, 0x38);
        assert forall|other: u64|
            pool_may_have_size(memory, pool, tags, length, other) == (
            bytes.to_multiset().count(1u8) >= 4 && #[trigger] size_fits(
                memory,
                pool,
                bytes,
                other,
            )) by {}
    }
}

/// Whether the pool has the length of its tags at `place`, and may have some size.
pub open spec fn length_fits(
    memory: Contents,
    pool: u64,
    tags: u64,
    length: u32,
    place: u64,
) -> bool {
    &&& 0x20 <= place <= 0x60
    &&& place % 4 == 0
    &&& u32_at(memory, pool.wrapping_add(place)) == Ok::<u32, Seq<char>>(length)
    &&& exists|size: u64| pool_may_have_size(memory, pool, tags, length as nat, size)
}

proof fn first_length_is_found(memory: Contents, pool: u64, tags: u64, length: u32, from: u64)
    requires
        from % 4 == 0,
        0x20 <= from <= 0x64,
    ensures
        match length_from(memory, pool, tags, length, from) {
            Some((place, size)) => {
                &&& from <= place
                &&& length_fits(memory, pool, tags, length, place)
                &&& pool_size(memory, pool, tags, length as nat) == Some(size)
                &&& forall|other: u64|
                    from <= other < place ==> !#[trigger] length_fits(
                        memory,
                        pool,
                        tags,
                        length,
                        other,
                    )
            },
            None => forall|other: u64|
                from <= other ==> !#[trigger] length_fits(memory, pool, tags, length, other),
        },
    decreases 0x64 - from,
{
    pool_size_is_the_first_that_fits(memory, pool, tags, length as nat);
    if let Some(size) = pool_size(memory, pool, tags, length as nat) {
        assert(pool_may_have_size(memory, pool, tags, length as nat, size));
    }
    if from <= 0x60 && !(u32_at(memory, pool.wrapping_add(from)) == Ok::<u32, Seq<char>>(length)
        && pool_size(memory, pool, tags, length as nat) is Some) {
        first_length_is_found(memory, pool, tags, length, (from + 4) as u64);
        assert forall|other: u64| from <= other < from + 4 implies !#[trigger] length_fits(
            memory,
            pool,
            tags,
            length,
            other,
        ) by {
            if other != from {
                assert(other % 4 != 0);
            }
        }
    }
}

/// Whether the pool may have its tags at `place` and its length at `length_place`: as many tags as
/// slots, between two and 65534.
pub open spec fn tags_fit(memory: Contents, pool: u64, place: u64, length_place: u64) -> bool {
    &&& 8 <= place <= 0x40
    &&& place % 8 == 0
    &&& u64_at(memory, pool.wrapping_add(place)) matches Ok(tags)
    &&& u32_at(memory, tags) matches Ok(length)
    &&& 1 < length < 65535
    &&& length_fits(memory, pool, tags, length, length_place)
}

/// Whether the pool may have its tags at `place`.
pub open spec fn tags_may_be_at(memory: Contents, pool: u64, place: u64) -> bool {
    exists|length_place: u64| tags_fit(memory, pool, place, length_place)
}

proof fn length_is_found_with_tags(memory: Contents, pool: u64, place: u64)
    requires
        8 <= place <= 0x40,
        place % 8 == 0,
    ensures
        match length_with_tags(memory, pool, place) {
            Some((length_place, size)) => {
                &&& tags_fit(memory, pool, place, length_place)
                &&& forall|other: u64|
                    other < length_place ==> !#[trigger] tags_fit(memory, pool, place, other)
                &&& u64_at(memory, pool.wrapping_add(place)) matches Ok(tags)
                &&& u32_at(memory, tags) matches Ok(length)
                &&& pool_size(memory, pool, tags, length as nat) == Some(size)
            },
            None => !tags_may_be_at(memory, pool, place),
        },
{
    if let Ok(tags) = u64_at(memory, pool.wrapping_add(place)) {
        if let Ok(length) = u32_at(memory, tags) {
            first_length_is_found(memory, pool, tags, length, 0x20);
            assert forall|other: u64| #[trigger] tags_fit(memory, pool, place, other) implies
                length_fits(memory, pool, tags, length, other) by {}
        }
    }
}

proof fn first_tags_are_found(memory: Contents, pool: u64, from: u64)
    requires
        from % 8 == 0,
        8 <= from <= 0x48,
    ensures
        match tags_from(memory, pool, from) {
            Some((place, length_place, size)) => {
                &&& from <= place
                &&& tags_may_be_at(memory, pool, place)
                &&& forall|other: u64|
                    from <= other < place ==> !#[trigger] tags_may_be_at(memory, pool, other)
                &&& length_with_tags(memory, pool, place) == Some((length_place, size))
            },
            None => forall|other: u64|
                from <= other ==> !#[trigger] tags_may_be_at(memory, pool, other),
        },
    decreases 0x48 - from,
{
    if from <= 0x40 {
        length_is_found_with_tags(memory, pool, from);
        if let Some((length_place, size)) = length_with_tags(memory, pool, from) {
            assert(tags_may_be_at(memory, pool, from));
        } else {
            first_tags_are_found(memory, pool, (from + 8) as u64);
            assert forall|other: u64| from <= other < from + 8 implies !#[trigger] tags_may_be_at(
                memory,
                pool,
                other,
            ) by {
                if other != from {
                    assert(other % 8 != 0);
                }
            }
        }
    } else {
        assert forall|other: u64| from <= other implies !#[trigger] tags_may_be_at(
            memory,
            pool,
            other,
        ) by {}
    }
}

/// Whether the pool names the class at `klass` as its holder at `place`.
pub open spec fn holder_is_at(memory: Contents, klass: u64, pool: u64, place: u64) -> bool {
    &&& 8 <= place <= 0x50
    &&& place % 8 == 0
    &&& u64_at(memory, pool.wrapping_add(place)) == Ok::<u64, Seq<char>>(klass)
}

proof fn first_holder_is_found(memory: Contents, klass: u64, pool: u64, from: u64)
    requires
        from % 8 == 0,
        8 <= from <= 0x58,
    ensures
        match holder_from(memory, klass, pool, from) {
            Some((holder, tags, length, size)) => {
                &&& from <= holder
                &&& holder_is_at(memory, klass, pool, holder)
                &&& forall|other: u64|
                    from <= other < holder ==> !#[trigger] holder_is_at(memory, klass, pool, other)
                &&& tags_from(memory, pool, 8) == Some((tags, length, size))
            },
            None => tags_from(memory, pool, 8) is None || forall|other: u64|
                from <= other ==> !#[trigger] holder_is_at(memory, klass, pool, other),
        },
    decreases 0x58 - from,
{
    if from <= 0x50 && !(u64_at(memory, pool.wrapping_add(from)) == Ok::<u64, Seq<char>>(klass)
        && tags_from(memory, pool, 8) is Some) {
        first_holder_is_found(memory, klass, pool, (from + 8) as u64);
        assert forall|other: u64|
            tags_from(memory, pool, 8) is Some && from <= other < from + 8 implies
            !#[trigger] holder_is_at(memory, klass, pool, other) by {
            if other != from {
                assert(other % 8 != 0);
            }
        }
    }
}

/// Whether the class at `klass` may have its pool at `place`: an object of the module that names the
/// class as its holder and has tags.
#[verifier::opaque]
pub open spec fn pool_may_be_at(
    memory: Contents,
    klass: u64,
    jvm_base: u64,
    jvm_end: u64,
    place: u64,
) -> bool {
    &&& 0x80 <= place <= 0x200
    &&& place % 8 == 0
    &&& u64_at(memory, klass.wrapping_add(place)) matches Ok(pool)
    &&& pool != 0
    &&& u64_at(memory, pool) matches Ok(vtable)
    &&& jvm_base <= vtable < jvm_end
    &&& exists|holder: u64| holder_is_at(memory, klass, pool, holder)
    &&& exists|tags: u64| tags_may_be_at(memory, pool, tags)
}

/// Whether each offset of `core` is the first that fits, given the pool of the class at `klass`.
#[verifier::opaque]
pub open spec fn is_first_fit(memory: Contents, klass: u64, core: CoreLayout) -> bool {
    &&& u64_at(memory, klass.wrapping_add(core.ik_constants)) matches Ok(pool)
    &&& holder_is_at(memory, klass, pool, core.cp_holder)
    &&& forall|other: u64|
        other < core.cp_holder ==> !#[trigger] holder_is_at(memory, klass, pool, other)
    &&& tags_may_be_at(memory, pool, core.cp_tags)
    &&& forall|other: u64| other < core.cp_tags ==> !#[trigger] tags_may_be_at(memory, pool, other)
    &&& tags_fit(memory, pool, core.cp_tags, core.cp_length)
    &&& forall|other: u64|
        other < core.cp_length ==> !#[trigger] tags_fit(memory, pool, core.cp_tags, other)
    &&& u64_at(memory, pool.wrapping_add(core.cp_tags)) matches Ok(tags)
    &&& u32_at(memory, tags) matches Ok(length)
    &&& pool_may_have_size(memory, pool, tags, length as nat, core.cp_size)
    &&& forall|other: u64|
        other < core.cp_size ==> !#[trigger] pool_may_have_size(
            memory,
            pool,
            tags,
            length as nat,
            other,
        )
}

/// The places of pools are multiples of eight between 0x80 and 0x200.
proof fn pools_are_at_multiples(
    memory: Contents,
    klass: u64,
    jvm_base: u64,
    jvm_end: u64,
    place: u64,
)
    ensures
        pool_may_be_at(memory, klass, jvm_base, jvm_end, place) ==> 0x80 <= place <= 0x200 && place
            % 8 == 0,
{
    reveal(pool_may_be_at);
}

proof fn pool_is_found_at_offset(
    memory: Contents,
    klass: u64,
    place: u64,
    name: u64,
    jvm_base: u64,
    jvm_end: u64,
)
    requires
        0x80 <= place <= 0x200,
        place % 8 == 0,
    ensures
        match pool_at_offset(memory, klass, place, jvm_base, jvm_end) {
            Some((cp_holder, cp_tags, cp_length, cp_size)) => pool_may_be_at(
                memory,
                klass,
                jvm_base,
                jvm_end,
                place,
            ) && is_first_fit(
                memory,
                klass,
                CoreLayout {
                    klass_name: name,
                    ik_constants: place,
                    cp_tags,
                    cp_holder,
                    cp_length,
                    cp_size,
                },
            ),
            None => !pool_may_be_at(memory, klass, jvm_base, jvm_end, place),
        },
{
    reveal(pool_may_be_at);
    reveal(is_first_fit);
    if let Ok(pool) = u64_at(memory, klass.wrapping_add(place)) {
        first_holder_is_found(memory, klass, pool, 8);
        first_tags_are_found(memory, pool, 8);
        if let Some((tags_place, length_place, size)) = tags_from(memory, pool, 8) {
            length_is_found_with_tags(memory, pool, tags_place);
            let tags = u64_at(memory, pool.wrapping_add(tags_place))->Ok_0;
            let length = u32_at(memory, tags)->Ok_0;
            pool_size_is_the_first_that_fits(memory, pool, tags, length as nat);
        }
        assert forall|other: u64| other < 8 implies !#[trigger] holder_is_at(
            memory,
            klass,
            pool,
            other,
        ) by {}
        assert forall|other: u64| other < 8 implies !#[trigger] tags_may_be_at(
            memory,
            pool,
            other,
        ) by {}
    }
}

proof fn first_pool_is_found(
    memory: Contents,
    klass: u64,
    name: u64,
    jvm_base: u64,
    jvm_end: u64,
    from: u64,
)
    requires
        from % 8 == 0,
        0x80 <= from <= 0x208,
    ensures
        match constants_from(memory, klass, name, jvm_base, jvm_end, from) {
            Some(core) => {
                &&& core.klass_name == name
                &&& from <= core.ik_constants
                &&& pool_may_be_at(memory, klass, jvm_base, jvm_end, core.ik_constants)
                &&& is_first_fit(memory, klass, core)
                &&& forall|other: u64|
                    from <= other < core.ik_constants ==> !#[trigger] pool_may_be_at(
                        memory,
                        klass,
                        jvm_base,
                        jvm_end,
                        other,
                    )
            },
            None => forall|other: u64|
                from <= other ==> !#[trigger] pool_may_be_at(
                    memory,
                    klass,
                    jvm_base,
                    jvm_end,
                    other,
                ),
        },
    decreases 0x208 - from,
{
    if from <= 0x200 {
        pool_is_found_at_offset(memory, klass, from, name, jvm_base, jvm_end);
        if pool_at_offset(memory, klass, from, jvm_base, jvm_end) is None {
            first_pool_is_found(memory, klass, name, jvm_base, jvm_end, (from + 8) as u64);
            assert forall|other: u64| from <= other < from + 8 implies !#[trigger] pool_may_be_at(
                memory,
                klass,
                jvm_base,
                jvm_end,
                other,
            ) by {
                pools_are_at_multiples(memory, klass, jvm_base, jvm_end, other);
            }
        }
    } else {
        assert forall|other: u64| from <= other implies !#[trigger] pool_may_be_at(
            memory,
            klass,
            jvm_base,
            jvm_end,
            other,
        ) by {
            pools_are_at_multiples(memory, klass, jvm_base, jvm_end, other);
        }
    }
}

/// A layout is told from a class if and only if the class is called `java/lang/Object` and may have a
/// pool somewhere. It is the first one that fits: the first place of a pool, and in the pool the first
/// places of the holder, of the tags and of the length, and the first size.
pub proof fn layout_is_the_first_that_fits(
    memory: Contents,
    klass: u64,
    name: u64,
    jvm_base: u64,
    jvm_end: u64,
)
    ensures
        core_layout_of(memory, klass, name, jvm_base, jvm_end) is Ok <==> {
            &&& u64_at(memory, klass.wrapping_add(name)) matches Ok(symbol)
            &&& is_symbol_of(memory, symbol, encode_utf8("java/lang/Object"@))
            &&& exists|place: u64| pool_may_be_at(memory, klass, jvm_base, jvm_end, place)
        },
        core_layout_of(memory, klass, name, jvm_base, jvm_end) matches Ok(core) ==> {
            &&& core.klass_name == name
            &&& pool_may_be_at(memory, klass, jvm_base, jvm_end, core.ik_constants)
            &&& forall|other: u64|
                other < core.ik_constants ==> !#[trigger] pool_may_be_at(
                    memory,
                    klass,
                    jvm_base,
                    jvm_end,
                    other,
                )
            &&& is_first_fit(memory, klass, core)
        },
{
    if let Ok(symbol) = u64_at(memory, klass.wrapping_add(name)) {
        symbols_are_recognized(memory, symbol, encode_utf8("java/lang/Object"@));
    }
    first_pool_is_found(memory, klass, name, jvm_base, jvm_end, 0x80);
    assert forall|other: u64| #[trigger] pool_may_be_at(
        memory,
        klass,
        jvm_base,
        jvm_end,
        other,
    ) implies other >= 0x80 by {
        pools_are_at_multiples(memory, klass, jvm_base, jvm_end, other);
    }
}

} // verus!
