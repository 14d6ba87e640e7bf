//! What the slots of a constant pool in the target stand for.
use vstd::prelude::*;

use super::pool::{
    adding_text_extends_the_pool, class_slot_name, extends, first_class, first_occurrence,
    first_utf8, klass_name_bytes, names_class, pool_at, pool_entry, pool_from, symbol_bytes,
    utf8_at, with_class, with_utf8, CpView,
};
use super::Layout;
use crate::platform::{reads_are_exact, u16_at, u32_at, u64_at, Contents};

verus! {

/// Whether the symbol at `symbol` has the bytes `text`: its length stands in two bytes, its text at
/// the place of the body.
pub open spec fn symbol_has_text(
    memory: Contents,
    layout: Layout,
    symbol: int,
    text: Seq<u8>,
) -> bool {
    &&& 0 < symbol <= u64::MAX
    &&& u16_at(memory, (symbol as u64).wrapping_add(layout.symbol_len)) matches Ok(length)
    &&& text.len() == length
    &&& memory((symbol as u64).wrapping_add(layout.symbol_body), text.len()) == Ok::<
        Seq<u8>,
        Seq<char>,
    >(text)
}

/// Whether entry `index` of the pool is the text `text`.
pub open spec fn has_text(pool: Seq<CpView>, index: int, text: Seq<u8>) -> bool {
    0 <= index < pool.len() && pool[index] == CpView::Utf8(text)
}

/// Whether the class of a slot is called `name`. Tag 7 marks a class that was resolved, whose slot
/// holds its `Klass`, or one that was not linked, whose slot holds the index of its name. The other
/// two mark an unresolved one, whose slot holds the symbol of its name with a mark in the lowest bit.
pub open spec fn slot_names_class(
    memory: Contents,
    layout: Layout,
    pool: Seq<CpView>,
    tag: u8,
    raw: u64,
    name: Seq<u8>,
) -> bool {
    if tag != 7 {
        symbol_has_text(memory, layout, raw - raw % 2, name)
    } else if raw < 0x1_0000_0000 {
        has_text(pool, (raw % 0x1_0000) as int, name)
    } else {
        &&& u64_at(memory, raw.wrapping_add(layout.klass_name)) matches Ok(symbol)
        &&& symbol_has_text(memory, layout, symbol as int, name)
    }
}

/// Whether entry `index` of the pool is the name of the class of a slot.
pub open spec fn slot_has_class(
    memory: Contents,
    layout: Layout,
    pool: Seq<CpView>,
    tag: u8,
    raw: u64,
    index: int,
) -> bool {
    exists|name: Seq<u8>| #[trigger]
        has_text(pool, index, name) && slot_names_class(memory, layout, pool, tag, raw, name)
}

/// Whether entry `index` of the pool is the text of the symbol that a slot holds.
pub open spec fn slot_has_string(
    memory: Contents,
    layout: Layout,
    pool: Seq<CpView>,
    raw: u64,
    index: int,
) -> bool {
    exists|text: Seq<u8>| #[trigger]
        has_text(pool, index, text) && symbol_has_text(memory, layout, raw as int, text)
}

/// Whether a slot with `tag` and the value `raw` stands for `entry` of the pool. Pairs of indices
/// have the first in the low half of a 32-bit word and the second in the high half.
pub open spec fn slot_stands_for(
    memory: Contents,
    layout: Layout,
    pool: Seq<CpView>,
    tag: u8,
    raw: u64,
    entry: CpView,
) -> bool {
    let first = raw as int % 0x1_0000;
    let second = raw as int / 0x1_0000 % 0x1_0000;
    match entry {
        CpView::Empty => tag == 0,
        CpView::Utf8(text) => tag == 1 && symbol_has_text(memory, layout, raw as int, text),
        CpView::Integer(value) => tag == 3 && value == raw as int % 0x1_0000_0000,
        CpView::Float(bits) => tag == 4 && bits == raw as int % 0x1_0000_0000,
        CpView::Long(value) => tag == 5 && value == raw,
        CpView::Double(bits) => tag == 6 && bits == raw,
        CpView::Class(name) => if tag == 101 {
            name == first
        } else {
            &&& tag == 7 || tag == 100 || tag == 103
            &&& slot_has_class(memory, layout, pool, tag, raw, name as int)
        },
        CpView::String(text) => if tag == 102 {
            text == first
        } else {
            tag == 8 && slot_has_string(memory, layout, pool, raw, text as int)
        },
        CpView::Ref(kind, class, name_type) => {
            &&& tag == 9 || tag == 10 || tag == 11
            &&& kind == tag
            &&& class == first
            &&& name_type == second
        },
        CpView::NameType(name, descriptor) => tag == 12 && name == first && descriptor == second,
        CpView::MethodHandle(kind, reference) => {
            &&& tag == 15 || tag == 104
            &&& kind == raw as int % 0x100
            &&& reference == second
        },
        CpView::MethodType(descriptor) => (tag == 16 || tag == 105) && descriptor == first,
        CpView::InvokeDynamic(bootstrap, name_type) => {
            tag == 18 && bootstrap == first && name_type == second
        },
    }
}

/// Whether a slot with `tag` holds its value itself: no memory has to be read for it.
pub open spec fn holds_its_value(tag: u8) -> bool {
    match tag {
        0 => true,
        3 => true,
        4 => true,
        5 => true,
        6 => true,
        9 => true,
        10 => true,
        11 => true,
        12 => true,
        15 => true,
        16 => true,
        18 => true,
        101 => true,
        102 => true,
        104 => true,
        105 => true,
        _ => false,
    }
}

/// Whether the pool has `text`, or has room for it.
pub open spec fn can_hold(pool: Seq<CpView>, text: Seq<u8>) -> bool {
    pool.len() < 65535 || exists|index: int| #[trigger] has_text(pool, index, text)
}

/// Whether a slot with `tag` and the value `raw` can be read: a text, a string or a class needs the
/// text that it is about, and the last two an entry for it.
pub open spec fn slot_can_be_read(
    memory: Contents,
    layout: Layout,
    pool: Seq<CpView>,
    tag: u8,
    raw: u64,
) -> bool {
    ||| holds_its_value(tag)
    ||| tag == 1 && exists|text: Seq<u8>| symbol_has_text(memory, layout, raw as int, text)
    ||| tag == 8 && exists|text: Seq<u8>| #[trigger]
        symbol_has_text(memory, layout, raw as int, text) && can_hold(pool, text)
    ||| (tag == 7 || tag == 100 || tag == 103) && exists|text: Seq<u8>| #[trigger]
        slot_names_class(memory, layout, pool, tag, raw, text) && can_hold(pool, text)
}

/// A text is put into the pool unless it is there: then the first index that has it is given and
/// nothing changes. A new one comes last. Only a full pool that does not have it refuses it.
pub proof fn text_is_held_once(pool: Seq<CpView>, text: Seq<u8>, at: int)
    requires
        pool.len() <= 65535,
    ensures
        with_utf8(pool, text).1 is Ok <==> can_hold(pool, text),
        has_text(pool, at, text) ==> {
            &&& with_utf8(pool, text).0 == pool
            &&& with_utf8(pool, text).1 matches Ok(index)
            &&& index <= at
            &&& has_text(pool, index as int, text)
        },
        (forall|i: int| !has_text(pool, i, text)) && pool.len() < 65535 ==> with_utf8(pool, text)
            == (pool.push(CpView::Utf8(text)), Ok::<u16, Seq<char>>(pool.len() as u16)),
{
    if has_text(pool, at, text) {
        first_occurrence(pool, text, at);
        let chosen = choose|index: int| first_utf8(pool, text, index);
        assert(has_text(pool, chosen, text));
    }
    if exists|index: int| has_text(pool, index, text) {
        first_occurrence(pool, text, choose|index: int| has_text(pool, index, text));
    }
    if exists|index: int| first_utf8(pool, text, index) {
        let chosen = choose|index: int| first_utf8(pool, text, index);
        assert(has_text(pool, chosen, text));
    }
}

/// A class is put into the pool unless it is there: then an index that has it is given and nothing
/// changes. A new one comes last and is refused only for want of room.
pub proof fn class_is_held_once(pool: Seq<CpView>, name: Seq<u8>, at: int)
    requires
        pool.len() <= 65535,
    ensures
        0 <= at < pool.len() && names_class(pool, name, at) ==> {
            &&& with_class(pool, name).0 == pool
            &&& with_class(pool, name).1 matches Ok(index)
            &&& index <= at
            &&& names_class(pool, name, index as int)
        },
        pool.len() + 2 <= 65535 ==> with_class(pool, name).1 is Ok,
        pool.len() == 65534 && has_text(pool, at, name) ==> with_class(pool, name).1 is Ok,
        with_class(pool, name).0.len() <= pool.len() + 2,
{
    if 0 <= at < pool.len() && names_class(pool, name, at) {
        first_class_occurrence(pool, name, at);
    }
    text_is_held_once(pool, name, at);
}

proof fn first_class_occurrence(pool: Seq<CpView>, name: Seq<u8>, at: int)
    requires
        0 <= at < pool.len(),
        names_class(pool, name, at),
    ensures
        exists|index: int| first_class(pool, name, index),
        forall|index: int| first_class(pool, name, index) ==> index <= at,
    decreases at,
{
    if forall|earlier: int| 0 <= earlier < at ==> !names_class(pool, name, earlier) {
        assert(first_class(pool, name, at));
    } else {
        let earlier = choose|earlier: int| 0 <= earlier < at && names_class(pool, name, earlier);
        first_class_occurrence(pool, name, earlier);
    }
}

/// The symbol at an address other than zero can be read if and only if it has some text.
proof fn symbols_have_their_text(memory: Contents, layout: Layout, symbol: u64, text: Seq<u8>)
    requires
        reads_are_exact(memory),
        text.len() < 0x1_0000,
    ensures
        symbol_bytes(memory, symbol, layout) == Ok::<Seq<u8>, Seq<char>>(text) <==> symbol_has_text(
            memory,
            layout,
            symbol as int,
            text,
        ),
{
}

/// A slot is read if and only if it can be; the entry that comes out is what the slot stands for.
pub proof fn slot_is_read(
    memory: Contents,
    layout: Layout,
    pool: Seq<CpView>,
    index: nat,
    tag: u8,
    raw: u64,
)
    requires
        reads_are_exact(memory),
        pool.len() <= 65535,
    ensures
        pool_entry(memory, layout, pool, index, tag, raw) is Ok <==> slot_can_be_read(
            memory,
            layout,
            pool,
            tag,
            raw,
        ),
        pool_entry(memory, layout, pool, index, tag, raw) matches Ok((grown, entry))
            ==> slot_stands_for(memory, layout, grown, tag, raw, entry) && extends(grown, pool)
            && forall|i: int| pool.len() <= i < grown.len() ==> grown[i] is Utf8,
{
    assert(raw & 0xffff_ffff_ffff_fffe == raw - raw % 2) by (bit_vector);
    if tag == 1 || tag == 8 {
        if let Ok(text) = symbol_bytes(memory, raw, layout) {
            symbols_have_their_text(memory, layout, raw, text);
            adding_text_extends_the_pool(pool, text);
            text_is_held_once(pool, text, 0);
            if let (grown, Ok(at)) = with_utf8(pool, text) {
                assert(has_text(grown, at as int, text));
                assert(slot_has_string(memory, layout, grown, raw, at as int));
            }
        }
        assert forall|text: Seq<u8>| symbol_has_text(memory, layout, raw as int, text) implies
            symbol_bytes(memory, raw, layout) == Ok::<Seq<u8>, Seq<char>>(text) by {}
    }
    if tag == 7 || tag == 100 || tag == 103 {
        if let Ok(name) = class_slot_name(memory, layout, pool, tag, raw) {
            adding_text_extends_the_pool(pool, name);
            text_is_held_once(pool, name, 0);
            assert(slot_names_class(memory, layout, pool, tag, raw, name));
            if let (grown, Ok(at)) = with_utf8(pool, name) {
                assert(has_text(grown, at as int, name));
                assert(slot_names_class(memory, layout, grown, tag, raw, name));
                assert(slot_has_class(memory, layout, grown, tag, raw, at as int));
            }
        }
        assert forall|name: Seq<u8>| slot_names_class(
            memory,
            layout,
            pool,
            tag,
            raw,
            name,
        ) implies class_slot_name(memory, layout, pool, tag, raw) == Ok::<Seq<u8>, Seq<char>>(
            name,
        ) by {}
    }
}

/// Where slot `index` of the pool whose first slot stands at `base` stands.
pub open spec fn slot_address(base: u64, index: int) -> u64 {
    base.wrapping_add((8 * index) as u64)
}

/// Whether slot `index` could be read, and entry `index` of the pool is what it stands for.
pub open spec fn slot_is_kept(
    memory: Contents,
    layout: Layout,
    base: u64,
    tags: Seq<u8>,
    pool: Seq<CpView>,
    index: int,
) -> bool {
    &&& u64_at(memory, slot_address(base, index)) matches Ok(raw)
    &&& slot_stands_for(memory, layout, pool, tags[index], raw, pool[index])
}

/// What a slot stands for is the same in a pool that has the same texts and more.
proof fn more_text_changes_no_entry(
    memory: Contents,
    layout: Layout,
    pool: Seq<CpView>,
    grown: Seq<CpView>,
    tag: u8,
    raw: u64,
    entry: CpView,
)
    requires
        slot_stands_for(memory, layout, pool, tag, raw, entry),
        forall|i: int, text: Seq<u8>|
            has_text(pool, i, text) ==> #[trigger] has_text(grown, i, text),
    ensures
        slot_stands_for(memory, layout, grown, tag, raw, entry),
{
    match entry {
        CpView::Class(name) => {
            if tag != 101 {
                let text = choose|text: Seq<u8>| #[trigger]
                    has_text(pool, name as int, text) && slot_names_class(
                        memory,
                        layout,
                        pool,
                        tag,
                        raw,
                        text,
                    );
                assert(has_text(grown, name as int, text));
                assert(has_text(pool, (raw % 0x1_0000) as int, text) ==> has_text(
                    grown,
                    (raw % 0x1_0000) as int,
                    text,
                ));
                assert(slot_names_class(memory, layout, grown, tag, raw, text));
                assert(slot_has_class(memory, layout, grown, tag, raw, name as int));
            }
        },
        CpView::String(index) => {
            if tag != 102 {
                let text = choose|text: Seq<u8>| #[trigger]
                    has_text(pool, index as int, text) && symbol_has_text(
                        memory,
                        layout,
                        raw as int,
                        text,
                    );
                assert(has_text(grown, index as int, text));
                assert(slot_has_string(memory, layout, grown, raw, index as int));
            }
        },
        _ => {},
    }
}

/// The slots from the `index`-th on become what they stand for; the other entries are kept, and what
/// comes behind them is text.
proof fn slots_from(
    memory: Contents,
    layout: Layout,
    base: u64,
    tags: Seq<u8>,
    index: nat,
    pool: Seq<CpView>,
)
    requires
        reads_are_exact(memory),
        tags.len() <= pool.len() <= 65535,
        tags.len() < 65500,
        forall|i: int| index <= i < tags.len() ==> pool[i] is Empty,
    ensures
        pool_from(memory, layout, base, tags, index, pool) matches Ok(entries) ==> {
            &&& pool.len() <= entries.len() <= 65535
            &&& forall|i: int|
                0 <= i < pool.len() && !(index <= i < tags.len()) ==> entries[i] == pool[i]
            &&& forall|i: int| pool.len() <= i < entries.len() ==> entries[i] is Utf8
            &&& forall|i: int|
                index <= i < tags.len() ==> #[trigger] slot_is_kept(
                    memory,
                    layout,
                    base,
                    tags,
                    entries,
                    i,
                )
        },
        (forall|i: int|
            index <= i < tags.len() ==> holds_its_value(#[trigger] tags[i]) && u64_at(
                memory,
                slot_address(base, i),
            ) is Ok) ==> pool_from(memory, layout, base, tags, index, pool) is Ok,
    decreases tags.len() - index,
{
    if index < tags.len() {
        assert(slot_address(base, index as int) == base.wrapping_add((index * 8) as u64));
        if let Ok(raw) = u64_at(memory, base.wrapping_add((index * 8) as u64)) {
            let tag = tags[index as int];
            slot_is_read(memory, layout, pool, index, tag, raw);
            if let Ok((grown, entry)) = pool_entry(memory, layout, pool, index, tag, raw) {
                let next = grown.update(index as int, entry);
                slots_from(memory, layout, base, tags, index + 1, next);
                if let Ok(entries) = pool_from(memory, layout, base, tags, index + 1, next) {
                    assert(entries[index as int] == entry);
                    assert forall|i: int, text: Seq<u8>| has_text(grown, i, text) implies #[trigger]
                    has_text(entries, i, text) by {
                        assert(i < index || i >= tags.len()) by {
                            if index <= i < tags.len() {
                                assert(grown[i] == pool[i]);
                            }
                        }
                        if i < pool.len() {
                            assert(entries[i] == next[i]);
                        } else {
                            assert(entries[i] == next[i]);
                        }
                    }
                    more_text_changes_no_entry(memory, layout, grown, entries, tag, raw, entry);
                    assert(slot_is_kept(memory, layout, base, tags, entries, index as int));
                    assert forall|i: int|
                        0 <= i < pool.len() && !(index <= i < tags.len()) implies entries[i]
                        == pool[i] by {
                        assert(entries[i] == next[i]);
                        assert(grown[i] == pool[i]);
                    }
                    assert forall|i: int| pool.len() <= i < entries.len() implies entries[i]
                        is Utf8 by {
                        if i < next.len() {
                            assert(entries[i] == next[i]);
                            assert(grown[i] is Utf8);
                        }
                    }
                }
            }
        }
    }
}

/// Whether the target's pool at `address` has the tags `tags`, one for each slot.
pub open spec fn pool_has_tags(
    memory: Contents,
    address: u64,
    layout: Layout,
    tags: Seq<u8>,
) -> bool {
    &&& u32_at(memory, address.wrapping_add(layout.cp_length)) matches Ok(length)
    &&& length == tags.len()
    &&& 0 < length <= 65499
    &&& u64_at(memory, address.wrapping_add(layout.cp_tags)) matches Ok(array)
    &&& array != 0
    &&& memory(array.wrapping_add(4), tags.len()) == Ok::<Seq<u8>, Seq<char>>(tags)
}

/// The pool of a class has an entry for each slot of the target's, which is what the slot stands for;
/// behind these come texts alone. It is read where every slot holds its value itself and can be read.
pub proof fn pool_is_what_its_slots_stand_for(
    memory: Contents,
    address: u64,
    layout: Layout,
    tags: Seq<u8>,
)
    requires
        reads_are_exact(memory),
        pool_has_tags(memory, address, layout, tags),
    ensures
        pool_at(memory, address, layout) matches Ok(pool) ==> {
            &&& tags.len() <= pool.len() <= 65535
            &&& pool[0] is Empty
            &&& forall|i: int|
                1 <= i < tags.len() ==> #[trigger] slot_is_kept(
                    memory,
                    layout,
                    address.wrapping_add(layout.cp_size),
                    tags,
                    pool,
                    i,
                )
            &&& forall|i: int| tags.len() <= i < pool.len() ==> pool[i] is Utf8
        },
        (forall|i: int|
            1 <= i < tags.len() ==> holds_its_value(#[trigger] tags[i]) && u64_at(
                memory,
                slot_address(address.wrapping_add(layout.cp_size), i),
            ) is Ok) ==> pool_at(memory, address, layout) is Ok,
{
    slots_from(
        memory,
        layout,
        address.wrapping_add(layout.cp_size),
        tags,
        1,
        Seq::new(tags.len(), |i: int| CpView::Empty),
    );
}

/// A pool is read only where the target's pool has tags.
pub proof fn pool_without_tags_is_refused(memory: Contents, address: u64, layout: Layout)
    requires
        reads_are_exact(memory),
        forall|tags: Seq<u8>| !pool_has_tags(memory, address, layout, tags),
    ensures
        pool_at(memory, address, layout) is Err,
{
    if let Ok(length) = u32_at(memory, address.wrapping_add(layout.cp_length)) {
        if let Ok(array) = u64_at(memory, address.wrapping_add(layout.cp_tags)) {
            if let Ok(tags) = memory(array.wrapping_add(4), length as nat) {
                assert(!pool_has_tags(memory, address, layout, tags));
            }
        }
    }
}

/// Whether a slot with `tag` stands for a class.
pub open spec fn is_class_tag(tag: u8) -> bool {
    tag == 7 || tag == 100 || tag == 101 || tag == 103
}

/// In the pool of a class the first index of a field or method that is referred to leads to a class
/// and the second to a name and a type, where the tags of the slots that they name say so; the name
/// and the type lead to texts in the same way.
pub proof fn references_lead_to_classes(
    memory: Contents,
    address: u64,
    layout: Layout,
    tags: Seq<u8>,
    index: int,
    raw: u64,
)
    requires
        reads_are_exact(memory),
        pool_has_tags(memory, address, layout, tags),
        1 <= index < tags.len(),
        u64_at(memory, slot_address(address.wrapping_add(layout.cp_size), index)) == Ok::<
            u64,
            Seq<char>,
        >(raw),
    ensures
        ({
            let first = (raw % 0x1_0000) as int;
            let second = (raw / 0x1_0000 % 0x1_0000) as int;
            pool_at(memory, address, layout) matches Ok(pool) ==> {
                &&& 9 <= tags[index] <= 11 && 0 < first < tags.len() && is_class_tag(tags[first])
                    ==> pool[index] is Ref && pool[pool[index]->Ref_1 as int] is Class
                &&& 9 <= tags[index] <= 11 && 0 < second < tags.len() && tags[second] == 12
                    ==> pool[index] is Ref && pool[pool[index]->Ref_2 as int] is NameType
                &&& tags[index] == 12 && 0 < first < tags.len() && tags[first] == 1 ==> pool[index]
                    is NameType && pool[pool[index]->NameType_0 as int] is Utf8
                &&& tags[index] == 12 && 0 < second < tags.len() && tags[second] == 1
                    ==> pool[index] is NameType && pool[pool[index]->NameType_1 as int] is Utf8
                &&& tags[index] == 18 && 0 < second < tags.len() && tags[second] == 12
                    ==> pool[index] is InvokeDynamic && pool[pool[index]->InvokeDynamic_1 as int]
                    is NameType
            }
        }),
{
    let base = address.wrapping_add(layout.cp_size);
    let first = (raw % 0x1_0000) as int;
    let second = (raw / 0x1_0000 % 0x1_0000) as int;
    pool_is_what_its_slots_stand_for(memory, address, layout, tags);
    if let Ok(pool) = pool_at(memory, address, layout) {
        assert(slot_is_kept(memory, layout, base, tags, pool, index));
        if 0 < first < tags.len() {
            assert(slot_is_kept(memory, layout, base, tags, pool, first));
        }
        if 0 < second < tags.len() {
            assert(slot_is_kept(memory, layout, base, tags, pool, second));
        }
    }
}

/// The text at an index of a pool is what the entry there is, if it is a text.
pub proof fn texts_are_found_by_index(pool: Seq<CpView>, index: u16, text: Seq<u8>)
    ensures
        utf8_at(pool, index) == Ok::<Seq<u8>, Seq<char>>(text) <==> has_text(
            pool,
            index as int,
            text,
        ),
{
}

/// The name of a class is the text of the symbol that its `Klass` refers to.
pub proof fn classes_are_named_by_symbols(
    memory: Contents,
    klass: u64,
    layout: Layout,
    name: Seq<u8>,
)
    requires
        reads_are_exact(memory),
    ensures
        klass_name_bytes(memory, klass, layout) == Ok::<Seq<u8>, Seq<char>>(name) <==> {
            &&& u64_at(memory, klass.wrapping_add(layout.klass_name)) matches Ok(symbol)
            &&& symbol_has_text(memory, layout, symbol as int, name)
        },
{
}

} // verus!
