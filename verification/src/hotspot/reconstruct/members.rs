//! The fields, methods, interfaces and bootstrap methods of a loaded class.
use vstd::prelude::*;

use super::bytecode::{restore_bytecodes, restored_code};
use super::classfile::bootstraps_fit;
use super::pool::{
    cp_utf8, ensure_class, klass_name, klass_name_bytes, utf8_at, with_class, Cp, CpView, MAX_POOL,
};
use super::Layout;
use crate::lists::{followed_by, followed_by_nothing, followed_by_push, views, views_push};
use crate::platform::{read_bytes, u16_at, u32_at, u64_at, Contents, RemoteMemory};
use crate::text::{plain, seen, Error, Outcome};

verus! {

/// A field as the class file lists it.
#[derive(Debug, Clone, Copy, PartialEq, Eq, Structural)]
pub struct FieldOut {
    pub flags: u16,
    pub name: u16,
    pub descriptor: u16,
    pub generic: Option<u16>,
}

/// A row of a method's exception table.
#[derive(Debug, Clone, Copy, PartialEq, Eq, Structural)]
pub struct ExceptionOut {
    pub start_pc: u16,
    pub end_pc: u16,
    pub handler_pc: u16,
    pub catch_type: u16,
}

/// The code of a method as the class file holds it.
#[derive(Debug)]
pub struct CodeOut {
    pub max_stack: u16,
    pub max_locals: u16,
    pub bytes: Vec<u8>,
    pub exceptions: Vec<ExceptionOut>,
    pub stack_map: Option<Vec<u8>>,
}

/// The code of a method, its tables as sequences.
pub struct CodeView {
    pub max_stack: u16,
    pub max_locals: u16,
    pub bytes: Seq<u8>,
    pub exceptions: Seq<ExceptionOut>,
    pub stack_map: Option<Seq<u8>>,
}

/// An optional array of bytes as an optional sequence.
pub open spec fn optional_bytes(bytes: Option<Vec<u8>>) -> Option<Seq<u8>> {
    match bytes {
        Some(bytes) => Some(bytes@),
        None => None,
    }
}

impl View for CodeOut {
    type V = CodeView;

    open spec fn view(&self) -> CodeView {
        CodeView {
            max_stack: self.max_stack,
            max_locals: self.max_locals,
            bytes: self.bytes@,
            exceptions: self.exceptions@,
            stack_map: optional_bytes(self.stack_map),
        }
    }
}

/// A method as the class file lists it.
#[derive(Debug)]
pub struct MethodOut {
    pub flags: u16,
    pub name: u16,
    pub descriptor: u16,
    pub generic: Option<u16>,
    pub code: Option<CodeOut>,
}

/// A method, its code as sequences.
pub struct MethodView {
    pub flags: u16,
    pub name: u16,
    pub descriptor: u16,
    pub generic: Option<u16>,
    pub code: Option<CodeView>,
}

impl View for MethodOut {
    type V = MethodView;

    open spec fn view(&self) -> MethodView {
        MethodView {
            flags: self.flags,
            name: self.name,
            descriptor: self.descriptor,
            generic: self.generic,
            code: match self.code {
                Some(code) => Some(code@),
                None => None,
            },
        }
    }
}

/// An index, unless it is the zero that stands for none.
pub open spec fn unless_zero(value: u16) -> Option<u16> {
    if value == 0 {
        None
    } else {
        Some(value)
    }
}

/// An index, unless it is the zero that stands for none.
pub fn nonzero(value: u16) -> (index: Option<u16>)
    ensures
        index == unless_zero(value),
{
    if value == 0 {
        None
    } else {
        Some(value)
    }
}

/// The flags of the `record`-th six-slot record of the field array at `array`.
pub open spec fn field_flags_at(memory: Contents, array: u64, record: nat) -> Outcome<u16> {
    u16_at(memory, array.wrapping_add(4).wrapping_add((record * 12) as u64))
}

/// Walks the six-slot records, the JVM's own fields among them, from the `records`-th to where the
/// generic signatures start: one slot at the end of the array belongs to each record that has a
/// signature. Gives the number of records and the slot at which the signatures start.
pub open spec fn field_extent(memory: Contents, array: u64, records: nat, generic_base: nat) -> Outcome<
    (nat, nat),
>
    decreases generic_base + 12 - records * 6,
{
    if records * 6 < generic_base {
        match field_flags_at(memory, array, records) {
            Err(reason) => Err(reason),
            Ok(flags) => field_extent(
                memory,
                array,
                records + 1,
                if flags & 0x0800 != 0 {
                    (generic_base - 1) as nat
                } else {
                    generic_base
                },
            ),
        }
    } else {
        Ok((records, generic_base))
    }
}

/// The generic signature of a field whose flags are `flags`, the next one being in `slot`.
pub open spec fn field_generic(
    memory: Contents,
    array: u64,
    array_length: nat,
    flags: u16,
    slot: nat,
) -> Outcome<Option<u16>> {
    if flags & 0x0800 == 0 {
        Ok(None)
    } else if slot >= array_length {
        Err("missing field generic signature"@)
    } else {
        match u16_at(memory, array.wrapping_add(4).wrapping_add((slot * 2) as u64)) {
            Err(reason) => Err(reason),
            Ok(value) => Ok(unless_zero(value)),
        }
    }
}

/// The fields from the `index`-th to the last of `count`, the next generic signature being in
/// `slot`. The flags that only HotSpot knows are taken off.
pub open spec fn fields_from(
    memory: Contents,
    array: u64,
    array_length: nat,
    count: nat,
    index: nat,
    slot: nat,
) -> Outcome<Seq<FieldOut>>
    decreases count - index,
{
    if index >= count {
        Ok(Seq::empty())
    } else {
        let record = array.wrapping_add(4).wrapping_add((index * 12) as u64);
        match u16_at(memory, record) {
            Err(reason) => Err(reason),
            Ok(flags) => match field_generic(memory, array, array_length, flags, slot) {
                Err(reason) => Err(reason),
                Ok(generic) => match u16_at(memory, record.wrapping_add(2)) {
                    Err(reason) => Err(reason),
                    Ok(name) => match u16_at(memory, record.wrapping_add(4)) {
                        Err(reason) => Err(reason),
                        Ok(descriptor) => followed_by(
                            seq![FieldOut { flags: flags & 0x50df, name, descriptor, generic }],
                            fields_from(
                                memory,
                                array,
                                array_length,
                                count,
                                index + 1,
                                if flags & 0x0800 == 0 {
                                    slot
                                } else {
                                    slot + 1
                                },
                            ),
                        ),
                    },
                },
            },
        }
    }
}

/// The declared fields of the class at `klass`.
pub open spec fn fields_of(memory: Contents, klass: u64, layout: Layout) -> Outcome<Seq<FieldOut>> {
    match u16_at(memory, klass.wrapping_add(layout.ik_field_count)) {
        Err(reason) => Err(reason),
        Ok(count) => match u64_at(memory, klass.wrapping_add(layout.ik_fields)) {
            Err(reason) => Err(reason),
            Ok(array) => if count == 0 {
                Ok(Seq::empty())
            } else if array == 0 {
                Err("null fields"@)
            } else {
                match u32_at(memory, array.wrapping_add(layout.array_len)) {
                    Err(reason) => Err(reason),
                    Ok(length) => match field_extent(memory, array, 0, length as nat) {
                        Err(reason) => Err(reason),
                        Ok((records, generic_base)) => if records * 6 != generic_base || count
                            > records {
                            Err("malformed field table"@)
                        } else {
                            fields_from(
                                memory,
                                array,
                                length as nat,
                                count as nat,
                                0,
                                generic_base,
                            )
                        },
                    },
                }
            },
        },
    }
}

/// Counts the records of a field array of `length` slots.
fn read_field_extent<M: RemoteMemory>(memory: &M, array: u64, length: u32) -> (result: Result<
    (u64, u64),
    Error,
>)
    ensures
        match field_extent(memory.contents(), array, 0, length as nat) {
            Err(reason) => result matches Err(error) && error@ == reason,
            Ok((records, generic_base)) => result matches Ok(extent) && extent.0 == records
                && extent.1 == generic_base,
        },
        result matches Ok(extent) ==> extent.0 * 6 <= length + 6 && extent.1 <= length,
{
    let mut generic_base: u64 = length as u64;
    let mut records: u64 = 0;
    while records * 6 < generic_base
        invariant
            generic_base <= length,
            records * 6 <= length + 6,
            field_extent(memory.contents(), array, 0, length as nat) == field_extent(
                memory.contents(),
                array,
                records as nat,
                generic_base as nat,
            ),
        decreases generic_base + 12 - records * 6,
    {
        let flags = memory.read_u16(array.wrapping_add(4).wrapping_add(records * 12))?;
        if flags & 0x0800 != 0 {
            generic_base -= 1;
        }
        records += 1;
    }
    Ok((records, generic_base))
}

/// Reads the declared fields of the class at `klass`.
pub fn read_fields<M: RemoteMemory>(memory: &M, klass: u64, layout: &Layout) -> (result: Result<
    Vec<FieldOut>,
    Error,
>)
    ensures
        seen(result) == fields_of(memory.contents(), klass, *layout),
        result matches Ok(fields) ==> fields@.len() <= 65535,
{
    let count = memory.read_u16(klass.wrapping_add(layout.ik_field_count))?;
    let array = memory.read_u64(klass.wrapping_add(layout.ik_fields))?;
    let mut out: Vec<FieldOut> = Vec::new();
    if count == 0 {
        return Ok(out);
    }
    if array == 0 {
        return Err(Error::new("null fields"));
    }
    let length = memory.read_u32(array.wrapping_add(layout.array_len))?;
    let (records, generic_base) = read_field_extent(memory, array, length)?;
    if records * 6 != generic_base || count as u64 > records {
        return Err(Error::new("malformed field table"));
    }
    let mut slot: u64 = generic_base;
    let mut index: u16 = 0;
    proof {
        followed_by_nothing(
            Seq::empty(),
            fields_from(
                memory.contents(),
                array,
                length as nat,
                count as nat,
                0,
                generic_base as nat,
            ),
        );
    }
    while index < count
        invariant
            index <= count,
            out@.len() == index,
            slot <= length,
            fields_of(memory.contents(), klass, *layout) == followed_by(
                out@,
                fields_from(
                    memory.contents(),
                    array,
                    length as nat,
                    count as nat,
                    index as nat,
                    slot as nat,
                ),
            ),
        decreases count - index,
    {
        let record = array.wrapping_add(4).wrapping_add(index as u64 * 12);
        let raw_flags = memory.read_u16(record)?;
        let generic = if raw_flags & 0x0800 != 0 {
            if slot >= length as u64 {
                return Err(Error::new("missing field generic signature"));
            }
            let value = memory.read_u16(array.wrapping_add(4).wrapping_add(slot * 2))?;
            slot += 1;
            nonzero(value)
        } else {
            None
        };
        let field = FieldOut {
            // Bits that only HotSpot knows are not part of the class file.
            flags: raw_flags & 0x50df,
            name: memory.read_u16(record.wrapping_add(2))?,
            descriptor: memory.read_u16(record.wrapping_add(4))?,
            generic,
        };
        proof {
            followed_by_push(
                out@,
                field,
                fields_from(
                    memory.contents(),
                    array,
                    length as nat,
                    count as nat,
                    (index + 1) as nat,
                    slot as nat,
                ),
            );
        }
        out.push(field);
        index += 1;
    }
    proof {
        followed_by_nothing(out@, Err(Seq::empty()));
    }
    Ok(out)
}

/// One if the flag `mask` is set.
pub open spec fn flag_count(flags: u16, mask: u16) -> nat {
    if flags & mask != 0 {
        1
    } else {
        0
    }
}

/// How many pointers to annotations end a `ConstMethod` with the given flags.
pub open spec fn annotation_pointers(flags: u16) -> nat {
    flag_count(flags, 0x0080) + flag_count(flags, 0x0100) + flag_count(flags, 0x0200) + flag_count(
        flags,
        0x0400,
    )
}

/// The address of the last slot before the pointers to annotations, at the end of the
/// `ConstMethod` at `cm`. The tables of a method are stored backwards from there.
pub open spec fn tail_of(memory: Contents, cm: u64, flags: u16, layout: Layout) -> Outcome<u64> {
    match u32_at(memory, cm.wrapping_add(layout.cm_size)) {
        Err(reason) => Err(reason),
        Ok(words) => if words == 0 || words > 0x100_0000 {
            Err("invalid ConstMethod size"@)
        } else {
            Ok(
                cm.wrapping_add((words * 8) as u64).wrapping_sub(
                    (annotation_pointers(flags) * 8) as u64,
                ).wrapping_sub(2),
            )
        },
    }
}

/// The index of a method's generic signature.
pub open spec fn generic_of(memory: Contents, cm: u64, flags: u16, layout: Layout) -> Outcome<u16> {
    match tail_of(memory, cm, flags, layout) {
        Err(reason) => Err(reason),
        Ok(tail) => u16_at(memory, tail),
    }
}

/// The slot before a table that is stored backwards from `cursor`: its length, then rows of
/// `width` slots.
pub open spec fn before_table(memory: Contents, cursor: u64, width: nat) -> Outcome<u64> {
    match u16_at(memory, cursor) {
        Err(reason) => Err(reason),
        Ok(length) => if cursor < length * width * 2 + 2 {
            Err("ConstMethod tail underflow"@)
        } else {
            Ok((cursor - (length * width * 2 + 2)) as u64)
        },
    }
}

/// The slot before a table that is there only if the flag `mask` is set.
pub open spec fn before_optional_table(
    memory: Contents,
    flags: u16,
    mask: u16,
    cursor: u64,
    width: nat,
) -> Outcome<u64> {
    if flags & mask != 0 {
        before_table(memory, cursor, width)
    } else {
        Ok(cursor)
    }
}

/// The slot with the length of the exception table: it comes before the generic signature, the
/// checked exceptions and the method parameters, as far as the method has them.
pub open spec fn exception_cursor(memory: Contents, cm: u64, flags: u16, layout: Layout) -> Outcome<
    u64,
> {
    match tail_of(memory, cm, flags, layout) {
        Err(reason) => Err(reason),
        Ok(tail) => {
            let unsigned = if flags & 0x0010 != 0 {
                tail.wrapping_sub(2)
            } else {
                tail
            };
            match before_optional_table(memory, flags, 0x0020, unsigned, 2) {
                Err(reason) => Err(reason),
                Ok(cursor) => before_optional_table(memory, flags, 0x0002, cursor, 1),
            }
        },
    }
}

/// The row of an exception table at `row`.
pub open spec fn exception_at(memory: Contents, row: u64) -> Outcome<ExceptionOut> {
    match u16_at(memory, row) {
        Err(reason) => Err(reason),
        Ok(start_pc) => match u16_at(memory, row.wrapping_add(2)) {
            Err(reason) => Err(reason),
            Ok(end_pc) => match u16_at(memory, row.wrapping_add(4)) {
                Err(reason) => Err(reason),
                Ok(handler_pc) => match u16_at(memory, row.wrapping_add(6)) {
                    Err(reason) => Err(reason),
                    Ok(catch_type) => Ok(
                        ExceptionOut { start_pc, end_pc, handler_pc, catch_type },
                    ),
                },
            },
        },
    }
}

/// The rows from the `index`-th to the last of `count`, the first being at `start`.
pub open spec fn exceptions_from(memory: Contents, start: u64, count: nat, index: nat) -> Outcome<
    Seq<ExceptionOut>,
>
    decreases count - index,
{
    if index >= count {
        Ok(Seq::empty())
    } else {
        match exception_at(memory, start.wrapping_add((index * 8) as u64)) {
            Err(reason) => Err(reason),
            Ok(row) => followed_by(seq![row], exceptions_from(memory, start, count, index + 1)),
        }
    }
}

/// The exception table of the `ConstMethod` at `cm`.
pub open spec fn exceptions_of(memory: Contents, cm: u64, flags: u16, layout: Layout) -> Outcome<
    Seq<ExceptionOut>,
> {
    if flags & 0x0008 == 0 {
        Ok(Seq::empty())
    } else {
        match exception_cursor(memory, cm, flags, layout) {
            Err(reason) => Err(reason),
            Ok(cursor) => match u16_at(memory, cursor) {
                Err(reason) => Err(reason),
                Ok(count) => if cursor < count * 8 {
                    Err("exception table underflow"@)
                } else {
                    exceptions_from(memory, (cursor - count * 8) as u64, count as nat, 0)
                },
            },
        }
    }
}

/// The array of bytes at `address`, if there is one.
pub open spec fn byte_array_at(memory: Contents, address: u64, layout: Layout) -> Outcome<
    Option<Seq<u8>>,
> {
    if address == 0 {
        Ok(None)
    } else {
        match u32_at(memory, address.wrapping_add(layout.array_len)) {
            Err(reason) => Err(reason),
            Ok(length) => if length > 0x100_0000 {
                Err("oversized u1 array"@)
            } else {
                match memory(address.wrapping_add(4), length as nat) {
                    Err(reason) => Err(reason),
                    Ok(bytes) => Ok(Some(bytes)),
                }
            },
        }
    }
}

/// The restored bytecodes of the `ConstMethod` at `cm`, whose pool is at `pool`.
pub open spec fn bytecodes_of(memory: Contents, cm: u64, pool: u64, layout: Layout) -> Outcome<
    Seq<u8>,
> {
    match u16_at(memory, cm.wrapping_add(layout.cm_code_size)) {
        Err(reason) => Err(reason),
        Ok(size) => if size == 0 {
            Err("concrete method has empty bytecode"@)
        } else {
            match memory(cm.wrapping_add(layout.cm_header_size), size as nat) {
                Err(reason) => Err(reason),
                Ok(bytes) => match restored_code(memory, pool, layout, bytes) {
                    (_, Err(reason)) => Err(reason),
                    (restored, Ok(_)) => Ok(restored),
                },
            }
        },
    }
}

/// The code of the `ConstMethod` at `cm`, whose pool is at `pool`.
pub open spec fn code_of(
    memory: Contents,
    cm: u64,
    pool: u64,
    flags: u16,
    layout: Layout,
) -> Outcome<CodeView> {
    match bytecodes_of(memory, cm, pool, layout) {
        Err(reason) => Err(reason),
        Ok(bytes) => match exceptions_of(memory, cm, flags, layout) {
            Err(reason) => Err(reason),
            Ok(exceptions) => match u64_at(memory, cm.wrapping_add(layout.cm_stackmap)) {
                Err(reason) => Err(reason),
                Ok(stack_map_at) => match byte_array_at(memory, stack_map_at, layout) {
                    Err(reason) => Err(reason),
                    Ok(stack_map) => match u16_at(memory, cm.wrapping_add(layout.cm_max_stack)) {
                        Err(reason) => Err(reason),
                        Ok(max_stack) => match u16_at(
                            memory,
                            cm.wrapping_add(layout.cm_max_locals),
                        ) {
                            Err(reason) => Err(reason),
                            Ok(max_locals) => Ok(
                                CodeView { max_stack, max_locals, bytes, exceptions, stack_map },
                            ),
                        },
                    },
                },
            },
        },
    }
}

/// The method at `method` whose `ConstMethod` is at `cm`. Its name has to be in the pool; a method
/// that is neither native nor abstract has code.
pub open spec fn method_parts(
    memory: Contents,
    method: u64,
    cm: u64,
    pool: u64,
    layout: Layout,
    entries: Seq<CpView>,
) -> Outcome<MethodView> {
    match u16_at(memory, cm.wrapping_add(layout.cm_name)) {
        Err(reason) => Err(reason),
        Ok(name) => match u16_at(memory, cm.wrapping_add(layout.cm_sig)) {
            Err(reason) => Err(reason),
            Ok(descriptor) => match utf8_at(entries, name) {
                Err(reason) => Err(reason),
                Ok(_) => match u32_at(memory, method.wrapping_add(layout.method_flags)) {
                    Err(reason) => Err(reason),
                    Ok(access) => match u16_at(memory, cm.wrapping_add(layout.cm_flags)) {
                        Err(reason) => Err(reason),
                        Ok(cm_flags) => method_with_code(
                            memory,
                            cm,
                            pool,
                            layout,
                            cm_flags,
                            name,
                            descriptor,
                            (access % 0x1_0000) as u16 & 0x1dff,
                        ),
                    },
                },
            },
        },
    }
}

/// The method once its names and flags are known: its signature and its code.
pub open spec fn method_with_code(
    memory: Contents,
    cm: u64,
    pool: u64,
    layout: Layout,
    cm_flags: u16,
    name: u16,
    descriptor: u16,
    flags: u16,
) -> Outcome<MethodView> {
    let signature = if cm_flags & 0x0010 != 0 {
        generic_of(memory, cm, cm_flags, layout)
    } else {
        Ok(0)
    };
    match signature {
        Err(reason) => Err(reason),
        Ok(generic) => if flags & 0x0500 != 0 {
            Ok(MethodView { flags, name, descriptor, generic: unless_zero(generic), code: None })
        } else {
            match code_of(memory, cm, pool, cm_flags, layout) {
                Err(reason) => Err(reason),
                Ok(code) => Ok(
                    MethodView {
                        flags,
                        name,
                        descriptor,
                        generic: unless_zero(generic),
                        code: Some(code),
                    },
                ),
            }
        },
    }
}

/// The method in slot `slot`: none if the slot is empty or the method has no `ConstMethod`.
#[verifier::opaque]
pub open spec fn method_in(
    memory: Contents,
    slot: u64,
    pool: u64,
    layout: Layout,
    entries: Seq<CpView>,
) -> Outcome<Option<MethodView>> {
    match u64_at(memory, slot) {
        Err(reason) => Err(reason),
        Ok(method) => if method == 0 {
            Ok(None)
        } else {
            match u64_at(memory, method.wrapping_add(layout.method_const)) {
                Err(reason) => Err(reason),
                Ok(cm) => if cm == 0 {
                    Ok(None)
                } else {
                    match method_parts(memory, method, cm, pool, layout, entries) {
                        Err(reason) => Err(reason),
                        Ok(parts) => Ok(Some(parts)),
                    }
                },
            }
        },
    }
}

/// The methods from the `index`-th slot to the last of `count`, the first slot being at `slots`.
pub open spec fn methods_from(
    memory: Contents,
    slots: u64,
    pool: u64,
    layout: Layout,
    entries: Seq<CpView>,
    count: nat,
    index: nat,
) -> Outcome<Seq<MethodView>>
    decreases count - index,
{
    if index >= count {
        Ok(Seq::empty())
    } else {
        match method_in(memory, slots.wrapping_add((index * 8) as u64), pool, layout, entries) {
            Err(reason) => Err(reason),
            Ok(None) => methods_from(memory, slots, pool, layout, entries, count, index + 1),
            Ok(Some(method)) => followed_by(
                seq![method],
                methods_from(memory, slots, pool, layout, entries, count, index + 1),
            ),
        }
    }
}

/// The methods of the class at `klass`, whose pool is at `pool` and holds `entries`.
pub open spec fn methods_of(
    memory: Contents,
    klass: u64,
    pool: u64,
    layout: Layout,
    entries: Seq<CpView>,
) -> Outcome<Seq<MethodView>> {
    match u64_at(memory, klass.wrapping_add(layout.ik_methods)) {
        Err(reason) => Err(reason),
        Ok(array) => if array == 0 {
            Ok(Seq::empty())
        } else {
            match u32_at(memory, array.wrapping_add(layout.array_len)) {
                Err(reason) => Err(reason),
                Ok(count) => if count > 65535 {
                    Err("methods"@)
                } else {
                    methods_from(
                        memory,
                        array.wrapping_add(layout.array_ptr_data),
                        pool,
                        layout,
                        entries,
                        count as nat,
                        0,
                    )
                },
            }
        },
    }
}

fn set_flags(flags: u16, mask: u16) -> (count: u64)
    ensures
        count == flag_count(flags, mask),
        count <= 1,
{
    if flags & mask != 0 {
        1
    } else {
        0
    }
}

fn method_tail_cursor<M: RemoteMemory>(memory: &M, cm: u64, flags: u16, layout: &Layout) -> (result: Result<
    u64,
    Error,
>)
    ensures
        seen(result) == tail_of(memory.contents(), cm, flags, *layout),
{
    let words = memory.read_u32(cm.wrapping_add(layout.cm_size))?;
    if words == 0 || words > 0x100_0000 {
        return Err(Error::new("invalid ConstMethod size"));
    }
    let pointers = set_flags(flags, 0x0080) + set_flags(flags, 0x0100) + set_flags(flags, 0x0200)
        + set_flags(flags, 0x0400);
    Ok(cm.wrapping_add(words as u64 * 8).wrapping_sub(pointers * 8).wrapping_sub(2))
}

fn read_method_generic<M: RemoteMemory>(memory: &M, cm: u64, flags: u16, layout: &Layout) -> (result: Result<
    u16,
    Error,
>)
    ensures
        seen(result) == generic_of(memory.contents(), cm, flags, *layout),
{
    let tail = method_tail_cursor(memory, cm, flags, layout)?;
    memory.read_u16(tail)
}

fn skip_tail_table<M: RemoteMemory>(memory: &M, cursor: u64, width: u64) -> (result: Result<
    u64,
    Error,
>)
    requires
        1 <= width <= 2,
    ensures
        seen(result) == before_table(memory.contents(), cursor, width as nat),
{
    let length = memory.read_u16(cursor)? as u64;
    let bytes = if width == 1 {
        length * 2 + 2
    } else {
        length * 4 + 2
    };
    if cursor < bytes {
        return Err(Error::new("ConstMethod tail underflow"));
    }
    Ok(cursor - bytes)
}

fn find_exception_table<M: RemoteMemory>(memory: &M, cm: u64, flags: u16, layout: &Layout) -> (result: Result<
    u64,
    Error,
>)
    ensures
        seen(result) == exception_cursor(memory.contents(), cm, flags, *layout),
{
    let mut cursor = method_tail_cursor(memory, cm, flags, layout)?;
    if flags & 0x0010 != 0 {
        cursor = cursor.wrapping_sub(2);
    }
    if flags & 0x0020 != 0 {
        cursor = skip_tail_table(memory, cursor, 2)?;
    }
    if flags & 0x0002 != 0 {
        cursor = skip_tail_table(memory, cursor, 1)?;
    }
    Ok(cursor)
}

fn read_exception<M: RemoteMemory>(memory: &M, row: u64) -> (result: Result<ExceptionOut, Error>)
    ensures
        plain(result) == exception_at(memory.contents(), row),
{
    Ok(
        ExceptionOut {
            start_pc: memory.read_u16(row)?,
            end_pc: memory.read_u16(row.wrapping_add(2))?,
            handler_pc: memory.read_u16(row.wrapping_add(4))?,
            catch_type: memory.read_u16(row.wrapping_add(6))?,
        },
    )
}

fn read_exception_table<M: RemoteMemory>(memory: &M, cm: u64, flags: u16, layout: &Layout) -> (result: Result<
    Vec<ExceptionOut>,
    Error,
>)
    ensures
        seen(result) == exceptions_of(memory.contents(), cm, flags, *layout),
        result matches Ok(rows) ==> rows@.len() <= 65535,
{
    let mut out: Vec<ExceptionOut> = Vec::new();
    if flags & 0x0008 == 0 {
        return Ok(out);
    }
    let cursor = find_exception_table(memory, cm, flags, layout)?;
    let count = memory.read_u16(cursor)?;
    if cursor < count as u64 * 8 {
        return Err(Error::new("exception table underflow"));
    }
    let start = cursor - count as u64 * 8;
    let mut index: u16 = 0;
    proof {
        followed_by_nothing(
            Seq::empty(),
            exceptions_from(memory.contents(), start, count as nat, 0),
        );
    }
    while index < count
        invariant
            index <= count,
            out@.len() == index,
            exceptions_of(memory.contents(), cm, flags, *layout) == followed_by(
                out@,
                exceptions_from(memory.contents(), start, count as nat, index as nat),
            ),
        decreases count - index,
    {
        let row = read_exception(memory, start.wrapping_add(index as u64 * 8))?;
        proof {
            followed_by_push(
                out@,
                row,
                exceptions_from(memory.contents(), start, count as nat, (index + 1) as nat),
            );
        }
        out.push(row);
        index += 1;
    }
    proof {
        followed_by_nothing(out@, Err(Seq::empty()));
    }
    Ok(out)
}

fn read_u1_array<M: RemoteMemory>(memory: &M, address: u64, layout: &Layout) -> (result: Result<
    Option<Vec<u8>>,
    Error,
>)
    ensures
        match byte_array_at(memory.contents(), address, *layout) {
            Err(reason) => result matches Err(error) && error@ == reason,
            Ok(view) => result matches Ok(bytes) && optional_bytes(bytes) == view,
        },
        result matches Ok(Some(bytes)) ==> bytes@.len() <= 0x100_0000,
{
    if address == 0 {
        return Ok(None);
    }
    let length = memory.read_u32(address.wrapping_add(layout.array_len))?;
    if length > 0x100_0000 {
        return Err(Error::new("oversized u1 array"));
    }
    Ok(Some(read_bytes(memory, address.wrapping_add(4), length as usize)?))
}

fn read_code<M: RemoteMemory>(
    memory: &M,
    cm: u64,
    pool: u64,
    cm_flags: u16,
    layout: &Layout,
) -> (result: Result<CodeOut, Error>)
    ensures
        seen(result) == code_of(memory.contents(), cm, pool, cm_flags, *layout),
        result matches Ok(code) ==> code@.wf(),
{
    let size = memory.read_u16(cm.wrapping_add(layout.cm_code_size))?;
    if size == 0 {
        return Err(Error::new("concrete method has empty bytecode"));
    }
    let mut bytes = read_bytes(memory, cm.wrapping_add(layout.cm_header_size), size as usize)?;
    restore_bytecodes(memory, pool, layout, bytes.as_mut_slice())?;
    let exceptions = read_exception_table(memory, cm, cm_flags, layout)?;
    let stack_map_at = memory.read_u64(cm.wrapping_add(layout.cm_stackmap))?;
    let stack_map = read_u1_array(memory, stack_map_at, layout)?;
    Ok(
        CodeOut {
            max_stack: memory.read_u16(cm.wrapping_add(layout.cm_max_stack))?,
            max_locals: memory.read_u16(cm.wrapping_add(layout.cm_max_locals))?,
            bytes,
            exceptions,
            stack_map,
        },
    )
}

fn read_method<M: RemoteMemory>(
    memory: &M,
    slot: u64,
    pool: u64,
    layout: &Layout,
    entries: &Vec<Cp>,
) -> (result: Result<Option<MethodOut>, Error>)
    ensures
        match method_in(memory.contents(), slot, pool, *layout, views(entries@)) {
            Err(reason) => result matches Err(error) && error@ == reason,
            Ok(None) => result matches Ok(None),
            Ok(Some(view)) => result matches Ok(Some(method)) && method@ == view && view.wf(),
        },
{
    reveal(method_in);
    let method = memory.read_u64(slot)?;
    if method == 0 {
        return Ok(None);
    }
    let cm = memory.read_u64(method.wrapping_add(layout.method_const))?;
    if cm == 0 {
        return Ok(None);
    }
    let name = memory.read_u16(cm.wrapping_add(layout.cm_name))?;
    let descriptor = memory.read_u16(cm.wrapping_add(layout.cm_sig))?;
    cp_utf8(entries, name)?;
    let access = memory.read_u32(method.wrapping_add(layout.method_flags))?;
    let flags = (access % 0x1_0000) as u16 & 0x1dff;
    let cm_flags = memory.read_u16(cm.wrapping_add(layout.cm_flags))?;
    let generic = if cm_flags & 0x0010 != 0 {
        nonzero(read_method_generic(memory, cm, cm_flags, layout)?)
    } else {
        None
    };
    // An interface may declare static and default methods: whatever is neither native nor
    // abstract has code.
    let code = if flags & 0x0500 == 0 {
        Some(read_code(memory, cm, pool, cm_flags, layout)?)
    } else {
        None
    };
    Ok(Some(MethodOut { flags, name, descriptor, generic, code }))
}

/// Reads the methods of the class at `klass`, whose pool is at `pool` and holds `entries`.
pub fn read_methods<M: RemoteMemory>(
    memory: &M,
    klass: u64,
    pool: u64,
    layout: &Layout,
    entries: &Vec<Cp>,
) -> (result: Result<Vec<MethodOut>, Error>)
    ensures
        match methods_of(memory.contents(), klass, pool, *layout, views(entries@)) {
            Err(reason) => result matches Err(error) && error@ == reason,
            Ok(methods) => {
                &&& result matches Ok(out) && views(out@) == methods && out@.len() <= 65535
                &&& forall|i: int| 0 <= i < methods.len() ==> (#[trigger] methods[i]).wf()
            },
        },
{
    let array = memory.read_u64(klass.wrapping_add(layout.ik_methods))?;
    let mut out: Vec<MethodOut> = Vec::new();
    assert(views(out@) =~= Seq::empty());
    if array == 0 {
        return Ok(out);
    }
    let count = memory.read_u32(array.wrapping_add(layout.array_len))?;
    if count > 65535 {
        return Err(Error::new("methods"));
    }
    let slots = array.wrapping_add(layout.array_ptr_data);
    let ghost total = methods_of(memory.contents(), klass, pool, *layout, views(entries@));
    let mut index: u32 = 0;
    proof {
        followed_by_nothing(Seq::empty(), total);
    }
    while index < count
        invariant
            index <= count <= 65535,
            out@.len() <= index,
            forall|i: int| 0 <= i < views(out@).len() ==> (#[trigger] views(out@)[i]).wf(),
            slots == array.wrapping_add(layout.array_ptr_data),
            total == methods_of(memory.contents(), klass, pool, *layout, views(entries@)),
            total == followed_by(
                views(out@),
                methods_from(
                    memory.contents(),
                    slots,
                    pool,
                    *layout,
                    views(entries@),
                    count as nat,
                    index as nat,
                ),
            ),
        decreases count - index,
    {
        let slot = slots.wrapping_add(index as u64 * 8);
        let method = read_method(memory, slot, pool, layout, entries)?;
        if let Some(method) = method {
            proof {
                views_push(out@, method);
                followed_by_push(
                    views(out@),
                    method@,
                    methods_from(
                        memory.contents(),
                        slots,
                        pool,
                        *layout,
                        views(entries@),
                        count as nat,
                        (index + 1) as nat,
                    ),
                );
            }
            out.push(method);
        }
        index += 1;
    }
    proof {
        followed_by_nothing(views(out@), Err(Seq::empty()));
    }
    Ok(out)
}

/// Slot `index` of the table of bootstrap operands at `table`, which has `length` slots.
pub open spec fn operand_at(memory: Contents, table: u64, length: nat, index: nat) -> Outcome<u16> {
    if index >= length {
        Err("bootstrap operand out of range"@)
    } else {
        u16_at(memory, table.wrapping_add(4).wrapping_add((index * 2) as u64))
    }
}

/// The 32-bit number in the slots `index` and `index + 1` of a table of bootstrap operands.
pub open spec fn operand_pair(memory: Contents, table: u64, length: nat, index: nat) -> Outcome<
    u64,
> {
    match operand_at(memory, table, length, index) {
        Err(reason) => Err(reason),
        Ok(low) => match operand_at(memory, table, length, index + 1) {
            Err(reason) => Err(reason),
            Ok(high) => Ok((low + 0x1_0000 * high) as u64),
        },
    }
}

/// The `count` slots of a table of bootstrap operands from `index` on.
pub open spec fn operands_from(
    memory: Contents,
    table: u64,
    length: nat,
    index: nat,
    count: nat,
) -> Outcome<Seq<u16>>
    decreases count,
{
    if count == 0 {
        Ok(Seq::empty())
    } else {
        match operand_at(memory, table, length, index) {
            Err(reason) => Err(reason),
            Ok(operand) => followed_by(
                seq![operand],
                operands_from(memory, table, length, index + 1, (count - 1) as nat),
            ),
        }
    }
}

/// The bootstrap method whose operands start at slot `offset`: its method handle, followed by its
/// arguments.
pub open spec fn bootstrap_at(memory: Contents, table: u64, length: nat, offset: nat) -> Outcome<
    Seq<u16>,
> {
    match operand_at(memory, table, length, offset) {
        Err(reason) => Err(reason),
        Ok(handle) => match operand_at(memory, table, length, offset + 1) {
            Err(reason) => Err(reason),
            Ok(arguments) => followed_by(
                seq![handle],
                operands_from(memory, table, length, offset + 2, arguments as nat),
            ),
        },
    }
}

/// The bootstrap methods from the `index`-th to the last of `count`: the table starts with the
/// offset of each.
pub open spec fn bootstraps_from(
    memory: Contents,
    table: u64,
    length: nat,
    count: nat,
    index: nat,
) -> Outcome<Seq<Seq<u16>>>
    decreases count - index,
{
    if index >= count {
        Ok(Seq::empty())
    } else {
        match operand_pair(memory, table, length, index * 2) {
            Err(reason) => Err(reason),
            Ok(offset) => match bootstrap_at(memory, table, length, offset as nat) {
                Err(reason) => Err(reason),
                Ok(entry) => followed_by(
                    seq![entry],
                    bootstraps_from(memory, table, length, count, index + 1),
                ),
            },
        }
    }
}

/// The bootstrap methods of the pool at `pool`. The first offset tells how many there are.
pub open spec fn bootstraps_of(memory: Contents, pool: u64, layout: Layout) -> Outcome<
    Seq<Seq<u16>>,
> {
    match u64_at(memory, pool.wrapping_add(layout.cp_operands)) {
        Err(reason) => Err(reason),
        Ok(table) => if table == 0 {
            Ok(Seq::empty())
        } else {
            match u32_at(memory, table.wrapping_add(layout.array_len)) {
                Err(reason) => Err(reason),
                Ok(length) => if !(2 <= length <= 65535) {
                    Err("invalid bootstrap operands"@)
                } else {
                    match operand_pair(memory, table, length as nat, 0) {
                        Err(reason) => Err(reason),
                        Ok(first) => if first > length || first % 2 != 0 {
                            Err("invalid bootstrap operand index"@)
                        } else {
                            bootstraps_from(
                                memory,
                                table,
                                length as nat,
                                (first / 2) as nat,
                                0,
                            )
                        },
                    }
                },
            }
        },
    }
}

/// The pool and the list of interfaces once the interfaces from the `index`-th to the last of
/// `count` were added; the first slot is at `slots`.
pub open spec fn interfaces_from(
    memory: Contents,
    slots: u64,
    layout: Layout,
    count: nat,
    index: nat,
    pool: Seq<CpView>,
    done: Seq<u16>,
) -> Outcome<(Seq<CpView>, Seq<u16>)>
    decreases count - index,
{
    if index >= count {
        Ok((pool, done))
    } else {
        match u64_at(memory, slots.wrapping_add((index * 8) as u64)) {
            Err(reason) => Err(reason),
            Ok(klass) => match klass_name_bytes(memory, klass, layout) {
                Err(reason) => Err(reason),
                Ok(name) => match with_class(pool, name) {
                    (_, Err(reason)) => Err(reason),
                    (grown, Ok(class)) => interfaces_from(
                        memory,
                        slots,
                        layout,
                        count,
                        index + 1,
                        grown,
                        done.push(class),
                    ),
                },
            },
        }
    }
}

/// The pool once it holds the interfaces in the array at `array`, and their indices.
pub open spec fn interfaces_of(
    memory: Contents,
    array: u64,
    layout: Layout,
    pool: Seq<CpView>,
) -> Outcome<(Seq<CpView>, Seq<u16>)> {
    if array == 0 {
        Ok((pool, Seq::empty()))
    } else {
        match u32_at(memory, array.wrapping_add(layout.array_len)) {
            Err(reason) => Err(reason),
            Ok(count) => if count > 65535 {
                Err("interfaces"@)
            } else {
                interfaces_from(
                    memory,
                    array.wrapping_add(layout.array_ptr_data),
                    layout,
                    count as nat,
                    0,
                    pool,
                    Seq::empty(),
                )
            },
        }
    }
}

fn read_operand<M: RemoteMemory>(memory: &M, table: u64, length: u64, index: u64) -> (result: Result<
    u16,
    Error,
>)
    requires
        length <= 65535,
    ensures
        seen(result) == operand_at(memory.contents(), table, length as nat, index as nat),
{
    if index >= length {
        return Err(Error::new("bootstrap operand out of range"));
    }
    memory.read_u16(table.wrapping_add(4).wrapping_add(index * 2))
}

fn read_operand_pair<M: RemoteMemory>(memory: &M, table: u64, length: u64, index: u64) -> (result:
    Result<u64, Error>)
    requires
        length <= 65535,
        index <= 65535,
    ensures
        seen(result) == operand_pair(memory.contents(), table, length as nat, index as nat),
        result matches Ok(value) ==> value <= 0xffff_ffff,
{
    let low = read_operand(memory, table, length, index)? as u64;
    let high = read_operand(memory, table, length, index + 1)? as u64;
    Ok(low + 0x1_0000 * high)
}

fn read_bootstrap<M: RemoteMemory>(memory: &M, table: u64, length: u64, offset: u64) -> (result:
    Result<Vec<u16>, Error>)
    requires
        length <= 65535,
        offset <= 0xffff_ffff,
    ensures
        seen(result) == bootstrap_at(memory.contents(), table, length as nat, offset as nat),
        result matches Ok(entry) ==> 1 <= entry@.len() <= 65536,
{
    let handle = read_operand(memory, table, length, offset)?;
    let count = read_operand(memory, table, length, offset + 1)?;
    let mut entry: Vec<u16> = Vec::new();
    entry.push(handle);
    let mut index: u16 = 0;
    assert(entry@ =~= seq![handle]);
    while index < count
        invariant
            index <= count,
            length <= 65535,
            offset <= 0xffff_ffff,
            entry@.len() == index + 1,
            bootstrap_at(memory.contents(), table, length as nat, offset as nat) == followed_by(
                entry@,
                operands_from(
                    memory.contents(),
                    table,
                    length as nat,
                    (offset + 2 + index) as nat,
                    (count - index) as nat,
                ),
            ),
        decreases count - index,
    {
        let operand = read_operand(memory, table, length, offset + 2 + index as u64)?;
        proof {
            followed_by_push(
                entry@,
                operand,
                operands_from(
                    memory.contents(),
                    table,
                    length as nat,
                    (offset + 2 + index + 1) as nat,
                    (count - index - 1) as nat,
                ),
            );
        }
        entry.push(operand);
        index += 1;
    }
    proof {
        followed_by_nothing(entry@, Err(Seq::empty()));
    }
    Ok(entry)
}

/// Reads the bootstrap methods of the pool at `pool`: the method handle of each, followed by its
/// arguments.
pub fn read_bootstrap_methods<M: RemoteMemory>(memory: &M, pool: u64, layout: &Layout) -> (result:
    Result<Vec<Vec<u16>>, Error>)
    ensures
        match bootstraps_of(memory.contents(), pool, *layout) {
            Err(reason) => result matches Err(error) && error@ == reason,
            Ok(methods) => result matches Ok(out) && views(out@) == methods && bootstraps_fit(
                methods,
            ),
        },
{
    let table = memory.read_u64(pool.wrapping_add(layout.cp_operands))?;
    let mut out: Vec<Vec<u16>> = Vec::new();
    assert(views(out@) =~= Seq::empty());
    if table == 0 {
        return Ok(out);
    }
    let length = memory.read_u32(table.wrapping_add(layout.array_len))? as u64;
    if length < 2 || length > 65535 {
        return Err(Error::new("invalid bootstrap operands"));
    }
    let first = read_operand_pair(memory, table, length, 0)?;
    if first > length || first % 2 != 0 {
        return Err(Error::new("invalid bootstrap operand index"));
    }
    let count = first / 2;
    let ghost total = bootstraps_of(memory.contents(), pool, *layout);
    let mut index: u64 = 0;
    proof {
        followed_by_nothing(
            Seq::empty(),
            bootstraps_from(memory.contents(), table, length as nat, count as nat, 0),
        );
    }
    while index < count
        invariant
            index <= count <= 32767,
            2 <= length <= 65535,
            out@.len() == index,
            forall|i: int| 0 <= i < out@.len() ==> 1 <= #[trigger] views(out@)[i].len() <= 65536,
            total == bootstraps_of(memory.contents(), pool, *layout),
            total == followed_by(
                views(out@),
                bootstraps_from(
                    memory.contents(),
                    table,
                    length as nat,
                    count as nat,
                    index as nat,
                ),
            ),
        decreases count - index,
    {
        let offset = read_operand_pair(memory, table, length, index * 2)?;
        let entry = read_bootstrap(memory, table, length, offset)?;
        proof {
            views_push(out@, entry);
            followed_by_push(
                views(out@),
                entry@,
                bootstraps_from(
                    memory.contents(),
                    table,
                    length as nat,
                    count as nat,
                    (index + 1) as nat,
                ),
            );
        }
        out.push(entry);
        index += 1;
    }
    proof {
        followed_by_nothing(views(out@), Err(Seq::empty()));
    }
    Ok(out)
}

/// Reads the array of interfaces at `array` and puts their classes into the pool.
pub fn read_interfaces<M: RemoteMemory>(
    memory: &M,
    array: u64,
    layout: &Layout,
    pool: &mut Vec<Cp>,
) -> (result: Result<Vec<u16>, Error>)
    requires
        old(pool)@.len() <= MAX_POOL,
    ensures
        match interfaces_of(memory.contents(), array, *layout, views(old(pool)@)) {
            Err(reason) => result matches Err(error) && error@ == reason,
            Ok((grown, indices)) => result matches Ok(out) && out@ == indices && views(final(pool)@)
                == grown,
        },
        result matches Ok(out) ==> out@.len() <= 65535,
        old(pool)@.len() <= final(pool)@.len() <= MAX_POOL,
{
    let mut out: Vec<u16> = Vec::new();
    if array == 0 {
        return Ok(out);
    }
    let count = memory.read_u32(array.wrapping_add(layout.array_len))?;
    if count > 65535 {
        return Err(Error::new("interfaces"));
    }
    let slots = array.wrapping_add(layout.array_ptr_data);
    let ghost total = interfaces_of(memory.contents(), array, *layout, views(pool@));
    let mut index: u32 = 0;
    while index < count
        invariant
            index <= count <= 65535,
            out@.len() == index,
            old(pool)@.len() <= pool@.len() <= MAX_POOL,
            total == interfaces_of(memory.contents(), array, *layout, views(old(pool)@)),
            total == interfaces_from(
                memory.contents(),
                slots,
                *layout,
                count as nat,
                index as nat,
                views(pool@),
                out@,
            ),
        decreases count - index,
    {
        let klass = memory.read_u64(slots.wrapping_add(index as u64 * 8))?;
        let name = klass_name(memory, klass, layout)?;
        let class = ensure_class(pool, name.as_slice())?;
        out.push(class);
        index += 1;
    }
    Ok(out)
}

} // verus!
