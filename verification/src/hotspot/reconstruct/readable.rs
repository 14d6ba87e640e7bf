//! What is reconstructed is a class file: a reader finds in it what was read of the class.
use vstd::prelude::*;
use vstd::utf8::encode_utf8;

use super::bytecode::{restored_code_is_standard, standard_from};
use super::classfile::{any_code, any_signature, any_stack_map, bootstraps_fit};
use super::image::{
    class_image, lineage_in, members_of, reconstructed, with_name, with_names, with_super,
    MembersView,
};
use super::members::{
    bootstrap_at, bootstraps_from, bootstraps_of, code_of, exception_cursor, exceptions_from,
    field_extent, fields_from, fields_of, interfaces_from, method_in, methods_from, methods_of,
    operand_at, operand_pair, operands_from, MethodView,
};
use super::pool::{
    adding_class_extends_the_pool, adding_text_extends_the_pool, class_slot_name, extends,
    klass_name_bytes, pool_at, pool_entry, pool_from, symbol_bytes, with_class, with_utf8, CpView,
    MAX_POOL,
};
use super::reading::{
    class_file_reads_back, class_in, class_parts, is_class_pool, is_paired, is_tellable, is_wide,
};
use super::Layout;
use crate::hotspot::dictionary::ClassView;
use crate::platform::{reads_are_exact, u16_at, u32_at, u64_at, Contents};

verus! {

/// Whether the tags of a pool are those of a loaded class: behind the tag of a wide entry stands a
/// zero, and nowhere else but at the start.
pub open spec fn tags_are_paired(tags: Seq<u8>) -> bool {
    &&& tags.len() > 0
    &&& forall|i: int|
        1 <= i < tags.len() ==> (#[trigger] tags[i] == 0 <==> i > 1 && (tags[i - 1] == 5 || tags[i
            - 1] == 6))
    &&& tags.len() > 1 ==> tags.last() != 5 && tags.last() != 6
}

/// Whether the pool at `pool` has such tags.
pub open spec fn pool_is_tagged(memory: Contents, pool: u64, layout: Layout) -> bool {
    u32_at(memory, pool.wrapping_add(layout.cp_length)) matches Ok(length) && u64_at(
        memory,
        pool.wrapping_add(layout.cp_tags),
    ) matches Ok(tags) && memory(tags.wrapping_add(4), length as nat) matches Ok(tag_bytes)
        && tags_are_paired(tag_bytes)
}

/// Whether an entry is of the kind that its tag says.
spec fn fits_tag(entry: CpView, tag: u8) -> bool {
    &&& entry is Empty <==> tag == 0
    &&& is_wide(entry) <==> tag == 5 || tag == 6
    &&& entry !is Empty ==> is_tellable(entry)
}

/// Whether the texts in a pool fit their lengths.
spec fn texts_fit(pool: Seq<CpView>) -> bool {
    forall|i: int| 0 <= i < pool.len() ==> ((#[trigger] pool[i]) is Utf8 ==> is_tellable(pool[i]))
}

/// Whether the slots of a pool are filled as in a class file, said slot by slot.
spec fn slots_are_filled(pool: Seq<CpView>) -> bool {
    &&& pool.len() > 0
    &&& pool[0] is Empty
    &&& forall|i: int|
        1 <= i < pool.len() ==> (#[trigger] pool[i] is Empty <==> i > 1 && is_wide(pool[i - 1]))
    &&& forall|i: int| 1 <= i < pool.len() ==> (#[trigger] pool[i] is Empty || is_tellable(pool[i]))
    &&& !is_wide(pool.last())
}

proof fn filled_slots_are_paired(pool: Seq<CpView>, from: int)
    requires
        slots_are_filled(pool),
        1 <= from <= pool.len(),
        from < pool.len() ==> pool[from] !is Empty,
    ensures
        is_paired(pool.skip(from)),
    decreases pool.len() - from,
{
    let rest = pool.skip(from);
    if from < pool.len() {
        assert(rest[0] == pool[from]);
        if is_wide(pool[from]) {
            assert(from + 1 < pool.len()) by {
                if from + 1 == pool.len() {
                    assert(pool.last() == pool[from]);
                }
            }
            assert(pool[from + 1] is Empty);
            assert(rest[1] == pool[from + 1]);
            if from + 2 < pool.len() {
                assert(pool[from + 2] is Empty <==> is_wide(pool[from + 1]));
            }
            filled_slots_are_paired(pool, from + 2);
            assert(rest.skip(2) =~= pool.skip(from + 2));
        } else {
            if from + 1 < pool.len() {
                assert(pool[from + 1] is Empty <==> is_wide(pool[from]));
            }
            filled_slots_are_paired(pool, from + 1);
            assert(rest.skip(1) =~= pool.skip(from + 1));
        }
    }
}

proof fn filled_slots_make_a_class_pool(pool: Seq<CpView>)
    requires
        slots_are_filled(pool),
    ensures
        is_class_pool(pool),
{
    if pool.len() > 1 {
        assert(pool[1] is Empty <==> 1 > 1 && is_wide(pool[0]));
    }
    filled_slots_are_paired(pool, 1);
}

/// An entry of one slot at the end keeps the slots filled.
proof fn one_more_slot(pool: Seq<CpView>, entry: CpView)
    requires
        slots_are_filled(pool),
        is_tellable(entry),
        !is_wide(entry),
    ensures
        slots_are_filled(pool.push(entry)),
{
    let more = pool.push(entry);
    assert forall|i: int| 1 <= i < more.len() implies (#[trigger] more[i] is Empty <==> i > 1
        && is_wide(more[i - 1])) by {
        if i < pool.len() {
            assert(pool[i] is Empty <==> i > 1 && is_wide(pool[i - 1]));
        } else {
            assert(more[i - 1] == pool.last());
        }
    }
    assert forall|i: int| 1 <= i < more.len() implies (#[trigger] more[i] is Empty || is_tellable(
        more[i],
    )) by {
        if i < pool.len() {
            assert(pool[i] is Empty || is_tellable(pool[i]));
        }
    }
}

proof fn text_keeps_slots(pool: Seq<CpView>, text: Seq<u8>)
    requires
        slots_are_filled(pool),
        text.len() <= 65535,
    ensures
        slots_are_filled(with_utf8(pool, text).0),
{
    one_more_slot(pool, CpView::Utf8(text));
}

proof fn class_keeps_slots(pool: Seq<CpView>, name: Seq<u8>)
    requires
        slots_are_filled(pool),
        name.len() <= 65535,
    ensures
        slots_are_filled(with_class(pool, name).0),
{
    text_keeps_slots(pool, name);
    let (named, outcome) = with_utf8(pool, name);
    if let Ok(index) = outcome {
        one_more_slot(named, CpView::Class(index));
    }
}

/// A symbol's text fits its length.
proof fn symbol_fits(memory: Contents, symbol: u64, layout: Layout)
    requires
        reads_are_exact(memory),
    ensures
        symbol_bytes(memory, symbol, layout) matches Ok(text) ==> text.len() <= 65535,
{
}

proof fn klass_name_fits(memory: Contents, klass: u64, layout: Layout)
    requires
        reads_are_exact(memory),
    ensures
        klass_name_bytes(memory, klass, layout) matches Ok(name) ==> name.len() <= 65535,
{
    if let Ok(symbol) = u64_at(memory, klass.wrapping_add(layout.klass_name)) {
        symbol_fits(memory, symbol, layout);
    }
}

proof fn slot_name_fits(memory: Contents, layout: Layout, pool: Seq<CpView>, tag: u8, raw: u64)
    requires
        reads_are_exact(memory),
        texts_fit(pool),
    ensures
        class_slot_name(memory, layout, pool, tag, raw) matches Ok(name) ==> name.len() <= 65535,
{
    klass_name_fits(memory, raw, layout);
    symbol_fits(memory, raw & 0xffff_ffff_ffff_fffe, layout);
}

proof fn text_keeps_texts(pool: Seq<CpView>, text: Seq<u8>)
    requires
        texts_fit(pool),
        text.len() <= 65535,
    ensures
        texts_fit(with_utf8(pool, text).0),
{
    let grown = with_utf8(pool, text).0;
    assert forall|i: int| 0 <= i < grown.len() && (#[trigger] grown[i]) is Utf8 implies is_tellable(
        grown[i],
    ) by {
        if i < pool.len() {
            assert(pool[i] is Utf8 ==> is_tellable(pool[i]));
        }
    }
}

/// One slot of the pool: its entry is of the kind that its tag says, and the texts still fit.
proof fn entry_fits(
    memory: Contents,
    layout: Layout,
    pool: Seq<CpView>,
    index: nat,
    tag: u8,
    raw: u64,
)
    requires
        reads_are_exact(memory),
        texts_fit(pool),
        pool.len() <= MAX_POOL,
    ensures
        pool_entry(memory, layout, pool, index, tag, raw) matches Ok((grown, entry)) ==> {
            &&& extends(grown, pool)
            &&& texts_fit(grown)
            &&& fits_tag(entry, tag)
            &&& forall|i: int| pool.len() <= i < grown.len() ==> #[trigger] grown[i] is Utf8
        },
{
    symbol_fits(memory, raw, layout);
    slot_name_fits(memory, layout, pool, tag, raw);
    if let Ok(text) = symbol_bytes(memory, raw, layout) {
        adding_text_extends_the_pool(pool, text);
        text_keeps_texts(pool, text);
    }
    if let Ok(name) = class_slot_name(memory, layout, pool, tag, raw) {
        adding_text_extends_the_pool(pool, name);
        text_keeps_texts(pool, name);
    }
}

/// Whether the first `index` slots of a pool fit their tags, and the slots behind those with tags
/// hold texts.
spec fn filled_upto(pool: Seq<CpView>, tags: Seq<u8>, index: int) -> bool {
    &&& tags.len() <= pool.len() <= MAX_POOL
    &&& pool[0] is Empty
    &&& texts_fit(pool)
    &&& forall|i: int| 1 <= i < index ==> fits_tag(#[trigger] pool[i], tags[i])
    &&& forall|i: int| tags.len() <= i < pool.len() ==> #[trigger] pool[i] is Utf8
}

proof fn slot_is_filled(
    memory: Contents,
    layout: Layout,
    pool: Seq<CpView>,
    tags: Seq<u8>,
    index: nat,
    raw: u64,
)
    requires
        reads_are_exact(memory),
        1 <= index < tags.len(),
        filled_upto(pool, tags, index as int),
    ensures
        pool_entry(memory, layout, pool, index, tags[index as int], raw) matches Ok((grown, entry))
            ==> filled_upto(grown.update(index as int, entry), tags, (index + 1) as int),
{
    let tag = tags[index as int];
    entry_fits(memory, layout, pool, index, tag, raw);
    if let Ok((grown, entry)) = pool_entry(memory, layout, pool, index, tag, raw) {
        let next = grown.update(index as int, entry);
        assert(next[0] == pool[0]);
        assert forall|i: int|
            0 <= i < next.len() && (#[trigger] next[i]) is Utf8 implies is_tellable(next[i]) by {
            if i != index {
                assert(next[i] == grown[i]);
            }
        }
        assert forall|i: int| 1 <= i < index + 1 implies fits_tag(#[trigger] next[i], tags[i]) by {
            if i != index {
                assert(next[i] == pool[i]);
            }
        }
        assert forall|i: int| tags.len() <= i < next.len() implies #[trigger] next[i] is Utf8 by {
            assert(next[i] == grown[i]);
            if i < pool.len() {
                assert(grown[i] == pool[i]);
            }
        }
    }
}

proof fn pool_is_filled_from(
    memory: Contents,
    layout: Layout,
    base: u64,
    tags: Seq<u8>,
    index: nat,
    pool: Seq<CpView>,
)
    requires
        reads_are_exact(memory),
        1 <= index,
        index <= tags.len(),
        filled_upto(pool, tags, index as int),
    ensures
        pool_from(memory, layout, base, tags, index, pool) matches Ok(entries) ==> filled_upto(
            entries,
            tags,
            tags.len() as int,
        ),
    decreases tags.len() - index,
{
    if index < tags.len() {
        if let Ok(raw) = u64_at(memory, base.wrapping_add((index * 8) as u64)) {
            slot_is_filled(memory, layout, pool, tags, index, raw);
            if let Ok((grown, entry)) = pool_entry(
                memory,
                layout,
                pool,
                index,
                tags[index as int],
                raw,
            ) {
                pool_is_filled_from(
                    memory,
                    layout,
                    base,
                    tags,
                    index + 1,
                    grown.update(index as int, entry),
                );
            }
        }
    }
}

/// A pool with the tags of a loaded class is read as the pool of a class file.
proof fn tagged_pool_is_filled(memory: Contents, address: u64, layout: Layout)
    requires
        reads_are_exact(memory),
        pool_is_tagged(memory, address, layout),
    ensures
        pool_at(memory, address, layout) matches Ok(pool) ==> slots_are_filled(pool) && pool.len()
            <= MAX_POOL,
{
    if let Ok(length) = u32_at(memory, address.wrapping_add(layout.cp_length)) {
        if let Ok(tags) = u64_at(memory, address.wrapping_add(layout.cp_tags)) {
            if let Ok(tag_bytes) = memory(tags.wrapping_add(4), length as nat) {
                if 1 <= length < 65500 && tags != 0 {
                    let start = Seq::new(length as nat, |i: int| CpView::Empty);
                    let base = address.wrapping_add(layout.cp_size);
                    pool_is_filled_from(memory, layout, base, tag_bytes, 1, start);
                    if let Ok(pool) = pool_from(memory, layout, base, tag_bytes, 1, start) {
                        filled_slots(pool, tag_bytes);
                    }
                }
            }
        }
    }
}

proof fn filled_slots(pool: Seq<CpView>, tags: Seq<u8>)
    requires
        filled_upto(pool, tags, tags.len() as int),
        tags_are_paired(tags),
    ensures
        slots_are_filled(pool),
{
    assert forall|i: int| 1 <= i < pool.len() implies (#[trigger] pool[i] is Empty <==> i > 1
        && is_wide(pool[i - 1])) by {
        if i < tags.len() {
            assert(fits_tag(pool[i], tags[i]));
            if i > 1 {
                assert(fits_tag(pool[i - 1], tags[i - 1]));
            }
        } else if i > 1 {
            if i - 1 < tags.len() {
                assert(fits_tag(pool[i - 1], tags[i - 1]));
                assert(tags[i - 1] == tags.last());
            }
        }
    }
    assert forall|i: int| 1 <= i < pool.len() implies (#[trigger] pool[i] is Empty || is_tellable(
        pool[i],
    )) by {
        if i < tags.len() {
            assert(fits_tag(pool[i], tags[i]));
        }
    }
    let last = pool.len() - 1;
    if last >= 1 && last < tags.len() {
        assert(fits_tag(pool[last], tags[last]));
    }
}

proof fn interfaces_keep_slots(
    memory: Contents,
    slots: u64,
    layout: Layout,
    count: nat,
    index: nat,
    pool: Seq<CpView>,
    done: Seq<u16>,
)
    requires
        reads_are_exact(memory),
        slots_are_filled(pool),
        pool.len() <= MAX_POOL,
        done.len() == index,
        index <= count,
    ensures
        interfaces_from(memory, slots, layout, count, index, pool, done) matches Ok((grown, all))
            ==> slots_are_filled(grown) && grown.len() <= MAX_POOL && all.len() == count,
    decreases count - index,
{
    if index < count {
        if let Ok(klass) = u64_at(memory, slots.wrapping_add((index * 8) as u64)) {
            klass_name_fits(memory, klass, layout);
            if let Ok(name) = klass_name_bytes(memory, klass, layout) {
                class_keeps_slots(pool, name);
                adding_class_extends_the_pool(pool, name);
                if let (grown, Ok(class)) = with_class(pool, name) {
                    interfaces_keep_slots(
                        memory,
                        slots,
                        layout,
                        count,
                        index + 1,
                        grown,
                        done.push(class),
                    );
                }
            }
        }
    }
}

proof fn lineage_keeps_slots(
    memory: Contents,
    class: ClassView,
    layout: Layout,
    pool: Seq<CpView>,
)
    requires
        reads_are_exact(memory),
        slots_are_filled(pool),
        pool.len() <= MAX_POOL,
        encode_utf8(class.internal_name).len() <= 65535,
    ensures
        lineage_in(memory, class, layout, pool) matches Ok(lineage) ==> {
            &&& slots_are_filled(lineage.pool)
            &&& lineage.pool.len() <= MAX_POOL
            &&& lineage.interfaces.len() <= 65535
        },
{
    let name = encode_utf8(class.internal_name);
    class_keeps_slots(pool, name);
    adding_class_extends_the_pool(pool, name);
    if let (own, Ok(_)) = with_class(pool, name) {
        if let Ok(super_klass) = u64_at(memory, class.klass.wrapping_add(layout.klass_super)) {
            klass_name_fits(memory, super_klass, layout);
            if let Ok(super_name) = klass_name_bytes(memory, super_klass, layout) {
                class_keeps_slots(own, super_name);
                adding_class_extends_the_pool(own, super_name);
            }
            if let Ok((derived, _)) = with_super(memory, super_klass, layout, own) {
                if let Ok(array) = u64_at(
                    memory,
                    class.klass.wrapping_add(layout.ik_interfaces),
                ) {
                    if let Ok(count) = u32_at(memory, array.wrapping_add(layout.array_len)) {
                        interfaces_keep_slots(
                            memory,
                            array.wrapping_add(layout.array_ptr_data),
                            layout,
                            count as nat,
                            0,
                            derived,
                            Seq::empty(),
                        );
                    }
                }
            }
        }
    }
}

proof fn name_keeps_slots(pool: Seq<CpView>, needed: bool, name: Seq<char>)
    requires
        slots_are_filled(pool),
        pool.len() <= MAX_POOL,
        encode_utf8(name).len() <= 65535,
    ensures
        with_name(pool, needed, name) matches Ok((grown, index)) ==> {
            &&& slots_are_filled(grown)
            &&& grown.len() <= MAX_POOL
            &&& index is Some <==> needed
        },
{
    text_keeps_slots(pool, encode_utf8(name));
    adding_text_extends_the_pool(pool, encode_utf8(name));
}

/// A character takes at most four bytes.
proof fn utf8_is_short(chars: Seq<char>)
    ensures
        encode_utf8(chars).len() <= 4 * chars.len(),
    decreases chars.len(),
{
    if chars.len() > 0 {
        utf8_is_short(chars.drop_first());
    }
}

/// The pool once it names the attributes, and the names: those that the members need.
proof fn names_keep_slots(pool: Seq<CpView>, members: MembersView)
    requires
        slots_are_filled(pool),
        pool.len() <= MAX_POOL,
    ensures
        with_names(pool, members) matches Ok((grown, names)) ==> {
            &&& slots_are_filled(grown)
            &&& grown.len() <= MAX_POOL
            &&& names.code is Some <==> any_code(members.methods)
            &&& names.stack_map is Some <==> any_stack_map(members.methods)
            &&& names.signature is Some <==> any_signature(
                members.generic,
                members.fields,
                members.methods,
            )
            &&& names.bootstrap_methods is Some <==> members.bootstrap_methods.len() > 0
        },
{
    reveal_strlit("Code");
    reveal_strlit("StackMapTable");
    reveal_strlit("Signature");
    reveal_strlit("BootstrapMethods");
    utf8_is_short("Code"@);
    utf8_is_short("StackMapTable"@);
    utf8_is_short("Signature"@);
    utf8_is_short("BootstrapMethods"@);
    let code = any_code(members.methods);
    let stack_map = any_stack_map(members.methods);
    let signature = any_signature(members.generic, members.fields, members.methods);
    let bootstraps = members.bootstrap_methods.len() > 0;
    name_keeps_slots(pool, code, "Code"@);
    if let Ok((first, _)) = with_name(pool, code, "Code"@) {
        name_keeps_slots(first, stack_map, "StackMapTable"@);
        if let Ok((second, _)) = with_name(first, stack_map, "StackMapTable"@) {
            name_keeps_slots(second, signature, "Signature"@);
            if let Ok((third, _)) = with_name(second, signature, "Signature"@) {
                name_keeps_slots(third, bootstraps, "BootstrapMethods"@);
            }
        }
    }
}

proof fn fields_are_counted(
    memory: Contents,
    array: u64,
    array_length: nat,
    count: nat,
    index: nat,
    slot: nat,
)
    requires
        index <= count,
    ensures
        fields_from(memory, array, array_length, count, index, slot) matches Ok(fields)
            ==> fields.len() == count - index,
    decreases count - index,
{
    if index < count {
        let record = array.wrapping_add(4).wrapping_add((index * 12) as u64);
        if let Ok(flags) = u16_at(memory, record) {
            fields_are_counted(
                memory,
                array,
                array_length,
                count,
                index + 1,
                if flags & 0x0800 == 0 {
                    slot
                } else {
                    slot + 1
                },
            );
        }
    }
}

proof fn fields_fit(memory: Contents, klass: u64, layout: Layout)
    ensures
        fields_of(memory, klass, layout) matches Ok(fields) ==> fields.len() <= 65535,
{
    if let Ok(count) = u16_at(memory, klass.wrapping_add(layout.ik_field_count)) {
        if let Ok(array) = u64_at(memory, klass.wrapping_add(layout.ik_fields)) {
            if let Ok(length) = u32_at(memory, array.wrapping_add(layout.array_len)) {
                if let Ok((_, base)) = field_extent(memory, array, 0, length as nat) {
                    fields_are_counted(memory, array, length as nat, count as nat, 0, base);
                }
            }
        }
    }
}

proof fn exceptions_are_counted(memory: Contents, start: u64, count: nat, index: nat)
    requires
        index <= count,
    ensures
        exceptions_from(memory, start, count, index) matches Ok(rows) ==> rows.len() == count
            - index,
    decreases count - index,
{
    if index < count {
        exceptions_are_counted(memory, start, count, index + 1);
    }
}

proof fn code_fits(memory: Contents, cm: u64, pool: u64, flags: u16, layout: Layout)
    requires
        reads_are_exact(memory),
    ensures
        code_of(memory, cm, pool, flags, layout) matches Ok(code) ==> code.wf() && standard_from(
            code.bytes,
            0,
        ),
{
    if let Ok(size) = u16_at(memory, cm.wrapping_add(layout.cm_code_size)) {
        if let Ok(bytes) = memory(cm.wrapping_add(layout.cm_header_size), size as nat) {
            restored_code_is_standard(memory, pool, layout, bytes);
        }
    }
    if let Ok(cursor) = exception_cursor(memory, cm, flags, layout) {
        if let Ok(count) = u16_at(memory, cursor) {
            if cursor >= count * 8 {
                exceptions_are_counted(memory, (cursor - count * 8) as u64, count as nat, 0);
            }
        }
    }
}

proof fn method_fits(
    memory: Contents,
    slot: u64,
    pool: u64,
    layout: Layout,
    entries: Seq<CpView>,
)
    requires
        reads_are_exact(memory),
    ensures
        method_in(memory, slot, pool, layout, entries) matches Ok(Some(method)) ==> method.wf()
            && has_standard_code(method),
{
    reveal(method_in);
    if let Ok(method) = u64_at(memory, slot) {
        if let Ok(cm) = u64_at(memory, method.wrapping_add(layout.method_const)) {
            if let Ok(flags) = u16_at(memory, cm.wrapping_add(layout.cm_flags)) {
                code_fits(memory, cm, pool, flags, layout);
            }
        }
    }
}

/// Whether a method's code, if it has any, is a run of whole instructions none of which is
/// HotSpot's own.
pub open spec fn has_standard_code(method: MethodView) -> bool {
    method.code matches Some(code) ==> standard_from(code.bytes, 0)
}

proof fn methods_fit_from(
    memory: Contents,
    slots: u64,
    pool: u64,
    layout: Layout,
    entries: Seq<CpView>,
    count: nat,
    index: nat,
)
    requires
        reads_are_exact(memory),
        index <= count,
    ensures
        methods_from(memory, slots, pool, layout, entries, count, index) matches Ok(methods) ==> {
            &&& methods.len() <= count - index
            &&& forall|i: int|
                0 <= i < methods.len() ==> (#[trigger] methods[i]).wf() && has_standard_code(
                    methods[i],
                )
        },
    decreases count - index,
{
    if index < count {
        let slot = slots.wrapping_add((index * 8) as u64);
        method_fits(memory, slot, pool, layout, entries);
        methods_fit_from(memory, slots, pool, layout, entries, count, index + 1);
        if let Ok(Some(method)) = method_in(memory, slot, pool, layout, entries) {
            if let Ok(others) = methods_from(
                memory,
                slots,
                pool,
                layout,
                entries,
                count,
                index + 1,
            ) {
                let all = seq![method] + others;
                assert forall|i: int| 0 <= i < all.len() implies (#[trigger] all[i]).wf()
                    && has_standard_code(all[i]) by {
                    if i > 0 {
                        assert(all[i] == others[i - 1]);
                    }
                }
            }
        }
    }
}

proof fn methods_fit(
    memory: Contents,
    klass: u64,
    pool: u64,
    layout: Layout,
    entries: Seq<CpView>,
)
    requires
        reads_are_exact(memory),
    ensures
        methods_of(memory, klass, pool, layout, entries) matches Ok(methods) ==> {
            &&& methods.len() <= 65535
            &&& forall|i: int|
                0 <= i < methods.len() ==> (#[trigger] methods[i]).wf() && has_standard_code(
                    methods[i],
                )
        },
{
    if let Ok(array) = u64_at(memory, klass.wrapping_add(layout.ik_methods)) {
        if let Ok(count) = u32_at(memory, array.wrapping_add(layout.array_len)) {
            methods_fit_from(
                memory,
                array.wrapping_add(layout.array_ptr_data),
                pool,
                layout,
                entries,
                count as nat,
                0,
            );
        }
    }
}

proof fn operands_are_counted(
    memory: Contents,
    table: u64,
    length: nat,
    index: nat,
    count: nat,
)
    ensures
        operands_from(memory, table, length, index, count) matches Ok(operands) ==> operands.len()
            == count,
    decreases count,
{
    if count > 0 {
        operands_are_counted(memory, table, length, index + 1, (count - 1) as nat);
    }
}

proof fn bootstraps_fit_from(
    memory: Contents,
    table: u64,
    length: nat,
    count: nat,
    index: nat,
)
    requires
        index <= count,
    ensures
        bootstraps_from(memory, table, length, count, index) matches Ok(methods) ==> {
            &&& methods.len() == count - index
            &&& forall|i: int|
                0 <= i < methods.len() ==> 1 <= (#[trigger] methods[i]).len() <= 65536
        },
    decreases count - index,
{
    if index < count {
        bootstraps_fit_from(memory, table, length, count, index + 1);
        if let Ok(offset) = operand_pair(memory, table, length, index * 2) {
            if let Ok(arguments) = operand_at(memory, table, length, (offset + 1) as nat) {
                operands_are_counted(
                    memory,
                    table,
                    length,
                    (offset + 2) as nat,
                    arguments as nat,
                );
            }
            if let Ok(entry) = bootstrap_at(memory, table, length, offset as nat) {
                if let Ok(others) = bootstraps_from(memory, table, length, count, index + 1) {
                    let all = seq![entry] + others;
                    assert forall|i: int| 0 <= i < all.len() implies 1 <= (
                    #[trigger] all[i]).len() <= 65536 by {
                        if i > 0 {
                            assert(all[i] == others[i - 1]);
                        }
                    }
                }
            }
        }
    }
}

proof fn read_bootstraps_fit(memory: Contents, pool: u64, layout: Layout)
    ensures
        bootstraps_of(memory, pool, layout) matches Ok(methods) ==> bootstraps_fit(methods),
{
    if let Ok(table) = u64_at(memory, pool.wrapping_add(layout.cp_operands)) {
        if let Ok(length) = u32_at(memory, table.wrapping_add(layout.array_len)) {
            if let Ok(first) = operand_pair(memory, table, length as nat, 0) {
                bootstraps_fit_from(memory, table, length as nat, (first / 2) as nat, 0);
            }
        }
    }
}

/// What is read of a class whose pool has the tags of a loaded class can be encoded, its pool is
/// that of a class file, and its methods have no bytecode of HotSpot's own.
pub proof fn image_is_encodable(memory: Contents, class: ClassView, layout: Layout)
    requires
        reads_are_exact(memory),
        encode_utf8(class.internal_name).len() <= 65535,
        u64_at(memory, class.klass.wrapping_add(layout.ik_constants)) matches Ok(pool)
            ==> pool_is_tagged(memory, pool, layout),
    ensures
        class_image(memory, class, layout) matches Ok(image) ==> {
            &&& image.wf()
            &&& is_class_pool(image.pool)
            &&& forall|i: int|
                0 <= i < image.methods.len() ==> has_standard_code(#[trigger] image.methods[i])
        },
{
    if let Ok(pool) = u64_at(memory, class.klass.wrapping_add(layout.ik_constants)) {
        tagged_pool_is_filled(memory, pool, layout);
        if let Ok(entries) = pool_at(memory, pool, layout) {
            lineage_keeps_slots(memory, class, layout, entries);
            if let Ok(lineage) = lineage_in(memory, class, layout, entries) {
                fields_fit(memory, class.klass, layout);
                methods_fit(memory, class.klass, pool, layout, lineage.pool);
                read_bootstraps_fit(memory, pool, layout);
                if let Ok(members) = members_of(memory, class.klass, pool, layout, lineage.pool) {
                    names_keep_slots(lineage.pool, members);
                    if let Ok((named, _)) = with_names(lineage.pool, members) {
                        filled_slots_make_a_class_pool(named);
                    }
                }
            }
        }
    }
}

/// A class whose pool has the tags of a loaded class is reconstructed as a class file: a reader
/// finds in it exactly what was read of the class, and no bytecode of HotSpot's own.
pub proof fn reconstructed_class_reads_back(memory: Contents, class: ClassView, layout: Layout)
    requires
        reads_are_exact(memory),
        encode_utf8(class.internal_name).len() <= 65535,
        u64_at(memory, class.klass.wrapping_add(layout.ik_constants)) matches Ok(pool)
            ==> pool_is_tagged(memory, pool, layout),
    ensures
        reconstructed(memory, class, layout) matches Ok(bytes) ==> {
            &&& class_image(memory, class, layout) matches Ok(image)
            &&& class_in(bytes) == Some(class_parts(image))
            &&& forall|i: int|
                0 <= i < image.methods.len() ==> has_standard_code(#[trigger] image.methods[i])
        },
{
    image_is_encodable(memory, class, layout);
    if let Ok(image) = class_image(memory, class, layout) {
        class_file_reads_back(image);
    }
}

} // verus!
