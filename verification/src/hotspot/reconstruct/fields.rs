//! What the field array of a loaded class lists.
use vstd::prelude::*;

use super::members::{field_extent, fields_from, fields_of, FieldOut};
use super::Layout;
use crate::platform::{u16_at, u32_at, u64_at, Contents};
use crate::text::Outcome;

verus! {

/// Whether bit `n` of `flags` is set, the lowest being bit 0.
pub open spec fn has_bit(flags: u16, n: u16) -> bool {
    (flags >> n) & 1 == 1
}

/// The bits that a class file gives to the flags of a field.
pub open spec fn is_field_bit(n: u16) -> bool {
    ||| n == 0  // public
    ||| n == 1  // private
    ||| n == 2  // protected
    ||| n == 3  // static
    ||| n == 4  // final
    ||| n == 6  // volatile
    ||| n == 7  // transient
    ||| n == 12  // synthetic
    ||| n == 14  // enum
}

/// The bit by which HotSpot marks a field that has a generic signature.
pub open spec fn is_signed(flags: u16) -> bool {
    has_bit(flags, 11)
}

/// Slot `slot` of the field array at `array`: two bytes, the first behind the length.
pub open spec fn array_slot(memory: Contents, array: u64, slot: nat) -> Outcome<u16> {
    u16_at(memory, array.wrapping_add(4).wrapping_add((2 * slot) as u64))
}

/// Slot `part` of record `record`. A record has six slots; the first three are the flags, the name and
/// the descriptor.
pub open spec fn record_part(memory: Contents, array: u64, record: nat, part: nat) -> Outcome<u16> {
    array_slot(memory, array, 6 * record + part)
}

/// How many of the first `records` records have a generic signature.
pub open spec fn signed_before(memory: Contents, array: u64, records: nat) -> nat
    decreases records,
{
    if records == 0 {
        0
    } else {
        let before = signed_before(memory, array, (records - 1) as nat);
        if record_part(memory, array, (records - 1) as nat, 0) matches Ok(flags) && is_signed(flags) {
            before + 1
        } else {
            before
        }
    }
}

/// Whether an array of `length` slots is `records` records followed by one slot for each record that
/// has a generic signature.
pub open spec fn is_field_array(memory: Contents, array: u64, records: nat, length: nat) -> bool {
    &&& length == 6 * records + signed_before(memory, array, records)
    &&& forall|i: nat| i < records ==> (#[trigger] record_part(memory, array, i, 0)) is Ok
}

/// The slot with the generic signature of record `index`, which has one.
pub open spec fn signature_slot(memory: Contents, array: u64, records: nat, index: nat) -> nat {
    6 * records + signed_before(memory, array, index)
}

/// Whether `field` is what record `index` lists.
pub open spec fn is_listed(
    memory: Contents,
    array: u64,
    records: nat,
    index: nat,
    field: FieldOut,
) -> bool {
    &&& record_part(memory, array, index, 0) matches Ok(raw)
    &&& forall|n: u16|
        n < 16 ==> (#[trigger] has_bit(field.flags, n) <==> has_bit(raw, n) && is_field_bit(n))
    &&& record_part(memory, array, index, 1) == Ok::<u16, Seq<char>>(field.name)
    &&& record_part(memory, array, index, 2) == Ok::<u16, Seq<char>>(field.descriptor)
    &&& if is_signed(raw) {
        &&& array_slot(memory, array, signature_slot(memory, array, records, index)) matches Ok(
            generic,
        )
        &&& field.generic == if generic == 0 {
            None::<u16>
        } else {
            Some(generic)
        }
    } else {
        field.generic is None
    }
}

/// Whether all that record `index` lists can be read.
pub open spec fn can_be_listed(memory: Contents, array: u64, records: nat, index: nat) -> bool {
    &&& record_part(memory, array, index, 0) matches Ok(raw)
    &&& record_part(memory, array, index, 1) is Ok
    &&& record_part(memory, array, index, 2) is Ok
    &&& is_signed(raw) ==> array_slot(
        memory,
        array,
        signature_slot(memory, array, records, index),
    ) is Ok
}

proof fn field_bits_are_kept(raw: u16, n: u16)
    requires
        n < 16,
    ensures
        has_bit(raw & 0x50df, n) <==> has_bit(raw, n) && is_field_bit(n),
        is_signed(raw) <==> raw & 0x0800 != 0,
{
    assert(((raw & 0x50df) >> n) & 1 == 1 <==> (raw >> n) & 1 == 1 && (n == 0 || n == 1 || n == 2
        || n == 3 || n == 4 || n == 6 || n == 7 || n == 12 || n == 14)) by (bit_vector)
        requires
            n < 16,
    ;
    assert((raw >> 11) & 1 == 1 <==> raw & 0x0800 != 0) by (bit_vector);
}

/// Fewer records have a generic signature among the first ones.
proof fn signed_grows(memory: Contents, array: u64, less: nat, more: nat)
    requires
        less <= more,
    ensures
        signed_before(memory, array, less) <= signed_before(memory, array, more),
    decreases more,
{
    if less < more {
        signed_grows(memory, array, less, (more - 1) as nat);
    }
}

proof fn extent_is_that_of_the_array(
    memory: Contents,
    array: u64,
    records: nat,
    length: nat,
    from: nat,
)
    requires
        is_field_array(memory, array, records, length),
        length <= u32::MAX,
        from <= records,
    ensures
        field_extent(
            memory,
            array,
            from,
            (length - signed_before(memory, array, from)) as nat,
        ) == Ok::<(nat, nat), Seq<char>>((records, 6 * records)),
    decreases records - from,
{
    signed_grows(memory, array, from, records);
    if from < records {
        assert(record_part(memory, array, from, 0) is Ok);
        field_bits_are_kept(record_part(memory, array, from, 0)->Ok_0, 0);
        extent_is_that_of_the_array(memory, array, records, length, from + 1);
    }
}

proof fn array_is_found(
    memory: Contents,
    array: u64,
    length: nat,
    from: nat,
    base: nat,
)
    requires
        length <= u32::MAX,
        base + signed_before(memory, array, from) == length,
        forall|i: nat| i < from ==> (#[trigger] record_part(memory, array, i, 0)) is Ok,
    ensures
        field_extent(memory, array, from, base) matches Ok((records, end)) ==> end == 6 * records
            ==> is_field_array(memory, array, records, length),
    decreases base + 12 - from * 6,
{
    if from * 6 < base {
        if let Ok(flags) = record_part(memory, array, from, 0) {
            field_bits_are_kept(flags, 0);
            let next = if is_signed(flags) {
                (base - 1) as nat
            } else {
                base
            };
            array_is_found(memory, array, length, from + 1, next);
        }
    }
}

proof fn records_are_listed(
    memory: Contents,
    array: u64,
    records: nat,
    length: nat,
    count: nat,
    index: nat,
)
    requires
        is_field_array(memory, array, records, length),
        length <= u32::MAX,
        index <= count <= records,
    ensures
        ({
            let slot = 6 * records + signed_before(memory, array, index);
            let fields = fields_from(memory, array, length, count, index, slot);
            &&& fields is Ok <==> forall|i: nat|
                index <= i < count ==> #[trigger] can_be_listed(memory, array, records, i)
            &&& fields matches Ok(fields) ==> fields.len() == count - index && forall|i: nat|
                index <= i < count ==> #[trigger] is_listed(
                    memory,
                    array,
                    records,
                    i,
                    fields[i - index],
                )
        }),
    decreases count - index,
{
    if index < count {
        let slot = 6 * records + signed_before(memory, array, index);
        signed_grows(memory, array, index + 1, records);
        assert(record_part(memory, array, index, 0) is Ok);
        let raw = record_part(memory, array, index, 0)->Ok_0;
        assert forall|n: u16| n < 16 implies #[trigger] has_bit(raw & 0x50df, n) == (has_bit(raw, n)
            && is_field_bit(n)) by {
            field_bits_are_kept(raw, n);
        }
        field_bits_are_kept(raw, 0);
        records_are_listed(memory, array, records, length, count, index + 1);
        let fields = fields_from(memory, array, length, count, index, slot);
        let next = signed_before(memory, array, index + 1);
        let rest = fields_from(memory, array, length, count, index + 1, 6 * records + next);
        let record = array.wrapping_add(4).wrapping_add((index * 12) as u64);
        assert(array.wrapping_add(4).wrapping_add((2 * (6 * index + 1)) as u64)
            == record.wrapping_add(2));
        assert(array.wrapping_add(4).wrapping_add((2 * (6 * index + 2)) as u64)
            == record.wrapping_add(4));
        if fields is Ok {
            assert(can_be_listed(memory, array, records, index));
            assert(rest is Ok);
            assert forall|i: nat| index <= i < count implies can_be_listed(
                memory,
                array,
                records,
                i,
            ) by {
                if i > index {
                    assert(can_be_listed(memory, array, records, i));
                }
            }
            let listed = fields->Ok_0;
            assert(listed[0].flags == raw & 0x50df);
            assert(is_listed(memory, array, records, index, listed[0]));
            assert forall|i: nat| index <= i < count implies #[trigger] is_listed(
                memory,
                array,
                records,
                i,
                listed[i - index],
            ) by {
                if i > index {
                    assert(listed[i - index] == rest->Ok_0[i - (index + 1)]);
                    assert(is_listed(memory, array, records, i, rest->Ok_0[i - (index + 1)]));
                }
            }
        } else if forall|i: nat|
            index <= i < count ==> #[trigger] can_be_listed(memory, array, records, i) {
            assert(can_be_listed(memory, array, records, index));
        }
    }
}

/// A class lists its fields in the order of the records of its field array: with the flags that a
/// class file gives a field and no others, the name, the descriptor and the generic signature. The
/// records behind those are the JVM's own and are not listed. A class is refused only if what a
/// record lists cannot be read.
pub proof fn fields_are_those_of_the_records(
    memory: Contents,
    klass: u64,
    layout: Layout,
    array: u64,
    records: nat,
    length: u32,
    count: u16,
)
    requires
        u16_at(memory, klass.wrapping_add(layout.ik_field_count)) == Ok::<u16, Seq<char>>(count),
        u64_at(memory, klass.wrapping_add(layout.ik_fields)) == Ok::<u64, Seq<char>>(array),
        array != 0,
        u32_at(memory, array.wrapping_add(layout.array_len)) == Ok::<u32, Seq<char>>(length),
        is_field_array(memory, array, records, length as nat),
        count <= records,
    ensures
        fields_of(memory, klass, layout) is Ok <==> forall|i: nat|
            i < count ==> #[trigger] can_be_listed(memory, array, records, i),
        fields_of(memory, klass, layout) matches Ok(fields) ==> fields.len() == count && forall|
            i: nat,
        |
            i < count ==> #[trigger] is_listed(memory, array, records, i, fields[i as int]),
{
    extent_is_that_of_the_array(memory, array, records, length as nat, 0);
    records_are_listed(memory, array, records, length as nat, count as nat, 0);
    if fields_of(memory, klass, layout) is Ok && count > 0 {
        let fields = fields_of(memory, klass, layout)->Ok_0;
        assert forall|i: nat| i < count implies #[trigger] is_listed(
            memory,
            array,
            records,
            i,
            fields[i as int],
        ) by {
            assert(is_listed(memory, array, records, i, fields[i - 0]));
        }
    }
}

/// A class with fields is accepted only if its field array is a run of records with the slots of
/// their generic signatures behind them, and has a record for each field. A class without fields is
/// always accepted.
pub proof fn fields_come_from_a_field_array(memory: Contents, klass: u64, layout: Layout, count: u16)
    requires
        u16_at(memory, klass.wrapping_add(layout.ik_field_count)) == Ok::<u16, Seq<char>>(count),
        u64_at(memory, klass.wrapping_add(layout.ik_fields)) is Ok,
    ensures
        count == 0 ==> fields_of(memory, klass, layout) == Ok::<Seq<FieldOut>, Seq<char>>(
            Seq::empty(),
        ),
        count > 0 && fields_of(memory, klass, layout) is Ok ==> {
            &&& u64_at(memory, klass.wrapping_add(layout.ik_fields)) matches Ok(array)
            &&& array != 0
            &&& u32_at(memory, array.wrapping_add(layout.array_len)) matches Ok(length)
            &&& exists|records: nat| #[trigger]
                is_field_array(memory, array, records, length as nat) && count <= records
        },
{
    if count > 0 && fields_of(memory, klass, layout) is Ok {
        let array = u64_at(memory, klass.wrapping_add(layout.ik_fields))->Ok_0;
        let length = u32_at(memory, array.wrapping_add(layout.array_len))->Ok_0;
        array_is_found(memory, array, length as nat, 0, length as nat);
        let (records, end) = field_extent(memory, array, 0, length as nat)->Ok_0;
        assert(is_field_array(memory, array, records, length as nat));
    }
}

} // verus!
