//! What a dictionary is made of: where its parts lie, and the names of its classes.
use vstd::prelude::*;
use vstd::utf8::{
    decode_utf8_encode_utf8, encode_utf8, encode_utf8_decode_utf8, encode_utf8_valid_utf8,
};

use super::dictionary::{
    buckets_walked, chain_walked, dictionary_classes, dictionary_offsets, klass_name_at, unmarked,
    ClassView, DictionaryOffsets, WalkState,
};
use super::reconstruct::described::{first_row_is_found, lies_at};
use super::vmstructs::{first_entry, EntryView};
use crate::platform::{u16_at, u32_at, u64_at, Contents};

verus! {

/// An address loses the mark in its lowest bit and nothing else.
pub proof fn mark_is_the_lowest_bit(pointer: u64)
    ensures
        unmarked(pointer) == pointer - pointer % 2,
        pointer % 2 == 0 ==> unmarked(pointer) == pointer,
        unmarked(unmarked(pointer)) == unmarked(pointer),
{
    assert(pointer & 0xffff_ffff_ffff_fffe == pointer - pointer % 2) by (bit_vector);
    assert((pointer & 0xffff_ffff_ffff_fffe) & 0xffff_ffff_ffff_fffe == pointer
        & 0xffff_ffff_ffff_fffe) by (bit_vector);
}

/// The offsets of a walk are those of the rows about the fields that it reads.
pub proof fn walk_is_described(vm: Seq<EntryView>, offsets: DictionaryOffsets)
    ensures
        dictionary_offsets(vm) == Ok::<DictionaryOffsets, Seq<char>>(offsets) <==> {
            &&& lies_at(vm, "BasicHashtable<mtInternal>"@, "_table_size"@, offsets.table_size)
            &&& lies_at(vm, "BasicHashtable<mtInternal>"@, "_buckets"@, offsets.buckets)
            &&& lies_at(vm, "HashtableBucket<mtInternal>"@, "_entry"@, offsets.bucket_entry)
            &&& lies_at(vm, "BasicHashtableEntry<mtInternal>"@, "_next"@, offsets.next)
            &&& lies_at(vm, "IntptrHashtableEntry"@, "_literal"@, offsets.literal)
            &&& lies_at(vm, "Klass"@, "_name"@, offsets.klass_name)
            &&& lies_at(vm, "Symbol"@, "_length"@, offsets.symbol_length)
            &&& lies_at(vm, "Symbol"@, "_body"@, offsets.symbol_body)
        },
{
    assert forall|structure: Seq<char>, field: Seq<char>, offset: u64| #[trigger]
        lies_at(vm, structure, field, offset) == (first_entry(vm, structure, field) is Some
            && first_entry(vm, structure, field)->Some_0.offset == offset) by {
        first_row_is_found(vm, structure, field, offset);
    }
}

/// Whether the class at `klass` is called `name`: its symbol has as many bytes as its length says, at
/// least one, and they are those of the name.
pub open spec fn is_called(
    memory: Contents,
    klass: u64,
    offsets: DictionaryOffsets,
    name: Seq<char>,
) -> bool {
    &&& u64_at(memory, klass.wrapping_add(offsets.klass_name)) matches Ok(symbol)
    &&& symbol != 0
    &&& u16_at(memory, symbol.wrapping_add(offsets.symbol_length)) matches Ok(length)
    &&& length > 0
    &&& memory(symbol.wrapping_add(offsets.symbol_body), length as nat) == Ok::<Seq<u8>, Seq<char>>(
        encode_utf8(name),
    )
}

/// The name of a class is that of its symbol.
pub proof fn class_is_called_by_its_symbol(
    memory: Contents,
    klass: u64,
    offsets: DictionaryOffsets,
    name: Seq<char>,
)
    ensures
        klass_name_at(memory, klass, offsets) == Ok::<Seq<char>, Seq<char>>(name) <==> is_called(
            memory,
            klass,
            offsets,
            name,
        ),
{
    encode_utf8_valid_utf8(name);
    encode_utf8_decode_utf8(name);
    if klass_name_at(memory, klass, offsets) is Ok {
        let symbol = u64_at(memory, klass.wrapping_add(offsets.klass_name))->Ok_0;
        let length = u16_at(memory, symbol.wrapping_add(offsets.symbol_length))->Ok_0;
        decode_utf8_encode_utf8(
            memory(symbol.wrapping_add(offsets.symbol_body), length as nat)->Ok_0,
        );
    }
}

/// Whether bucket `bucket` is there and has no entry.
pub open spec fn is_empty_bucket(
    memory: Contents,
    offsets: DictionaryOffsets,
    buckets: u64,
    bucket: nat,
) -> bool {
    u64_at(
        memory,
        buckets.wrapping_add((8 * bucket) as u64).wrapping_add(offsets.bucket_entry),
    ) matches Ok(entry) && entry < 2
}

proof fn empty_buckets_are_walked(
    memory: Contents,
    offsets: DictionaryOffsets,
    buckets: u64,
    table_size: u32,
    bucket: nat,
    state: WalkState,
)
    requires
        bucket <= table_size,
        forall|i: nat|
            bucket <= i < table_size ==> #[trigger] is_empty_bucket(memory, offsets, buckets, i),
    ensures
        buckets_walked(memory, offsets, buckets, table_size, bucket, state) == Ok::<
            WalkState,
            Seq<char>,
        >(state),
    decreases table_size - bucket,
{
    if bucket < table_size {
        assert(is_empty_bucket(memory, offsets, buckets, bucket));
        let address = buckets.wrapping_add((bucket * 8) as u64);
        mark_is_the_lowest_bit(u64_at(memory, address.wrapping_add(offsets.bucket_entry))->Ok_0);
        empty_buckets_are_walked(memory, offsets, buckets, table_size, bucket + 1, state);
    }
}

/// A dictionary is refused if it is at zero, if its buckets are, or if it has none or more than a million
/// of them. One whose buckets are empty has no classes.
pub proof fn dictionaries_of_any_size_are_walked(
    memory: Contents,
    dictionary: u64,
    vm: Seq<EntryView>,
    offsets: DictionaryOffsets,
    table_size: u32,
    buckets: u64,
)
    requires
        dictionary_offsets(vm) == Ok::<DictionaryOffsets, Seq<char>>(offsets),
        u32_at(memory, dictionary.wrapping_add(offsets.table_size)) == Ok::<u32, Seq<char>>(
            table_size,
        ),
        u64_at(memory, dictionary.wrapping_add(offsets.buckets)) == Ok::<u64, Seq<char>>(buckets),
    ensures
        dictionary == 0 || buckets == 0 || table_size == 0 || table_size > 1_000_000
            ==> dictionary_classes(memory, dictionary, vm) is Err,
        dictionary != 0 && buckets != 0 && 1 <= table_size <= 1_000_000 && (forall|i: nat|
            i < table_size ==> #[trigger] is_empty_bucket(memory, offsets, buckets, i))
            ==> dictionary_classes(memory, dictionary, vm) == Ok::<Seq<ClassView>, Seq<char>>(
            Seq::empty(),
        ),
{
    let start = WalkState {
        entries: Seq::empty(),
        klasses: Set::empty(),
        classes: Seq::empty(),
    };
    if forall|i: nat| i < table_size ==> #[trigger] is_empty_bucket(memory, offsets, buckets, i) {
        empty_buckets_are_walked(memory, offsets, buckets, table_size, 0, start);
    }
}

/// A chain ends at zero and at an entry that was met before. Otherwise its entry is met: the class that
/// it holds counts if it is one, is new and has a name, and the chain goes on with the next entry,
/// whose mark is taken off. Ten million entries are too many.
pub proof fn chains_are_followed(
    memory: Contents,
    offsets: DictionaryOffsets,
    entry: u64,
    state: WalkState,
)
    ensures
        ({
            let after = chain_walked(memory, offsets, entry, state);
            if entry == 0 || state.entries.contains(entry) {
                after == Ok::<WalkState, Seq<char>>(state)
            } else if state.entries.len() >= 10_000_000 {
                after is Err
            } else {
                match (
                    u64_at(memory, entry.wrapping_add(offsets.literal)),
                    u64_at(memory, entry.wrapping_add(offsets.next)),
                ) {
                    (Ok(klass), Ok(next)) => {
                        let is_new = klass != 0 && !state.klasses.contains(klass);
                        after == chain_walked(
                            memory,
                            offsets,
                            (next - next % 2) as u64,
                            WalkState {
                                entries: state.entries.push(entry),
                                klasses: if is_new {
                                    state.klasses.insert(klass)
                                } else {
                                    state.klasses
                                },
                                classes: match klass_name_at(memory, klass, offsets) {
                                    Ok(internal_name) => if is_new {
                                        state.classes.push(ClassView { klass, internal_name })
                                    } else {
                                        state.classes
                                    },
                                    Err(_) => state.classes,
                                },
                            },
                        )
                    },
                    _ => after is Err,
                }
            }
        }),
{
    if let Ok(next) = u64_at(memory, entry.wrapping_add(offsets.next)) {
        mark_is_the_lowest_bit(next);
    }
}

} // verus!
