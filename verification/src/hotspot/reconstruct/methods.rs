//! What the `Method` and the `ConstMethod` of a loaded method hold.
use vstd::prelude::*;

use super::bytecode::restored_code;
use super::fields::has_bit;
use super::members::{
    annotation_pointers, before_optional_table, code_of, exception_at, exception_cursor,
    exceptions_from, exceptions_of, generic_of, method_in, method_parts, methods_from, methods_of,
    tail_of, CodeView, ExceptionOut, MethodView,
};
use super::pool::CpView;
use super::Layout;
use crate::platform::{u16_at, u32_at, u64_at, Contents};

verus! {

/// Whether bit `n` of the access flags of a method is set, the lowest being bit 0.
pub open spec fn has_access(access: u32, n: u16) -> bool {
    (access >> n) & 1 == 1
}

/// The bits that a class file gives to the flags of a method.
pub open spec fn is_method_bit(n: u16) -> bool {
    ||| n == 0  // public
    ||| n == 1  // private
    ||| n == 2  // protected
    ||| n == 3  // static
    ||| n == 4  // final
    ||| n == 5  // synchronized
    ||| n == 6  // bridge
    ||| n == 7  // varargs
    ||| n == 8  // native
    ||| n == 10  // abstract
    ||| n == 11  // strict
    ||| n == 12  // synthetic
}

/// Whether a method has code: it is neither native nor abstract.
pub open spec fn runs_code(access: u32) -> bool {
    !has_access(access, 8) && !has_access(access, 10)
}

/// How many pointers to annotations end a `ConstMethod`: to those of the method, of its parameters,
/// of types and of the default.
pub open spec fn annotations(flags: u16) -> int {
    let method: int = if has_bit(flags, 7) {
        1
    } else {
        0
    };
    let parameters: int = if has_bit(flags, 8) {
        1
    } else {
        0
    };
    let types: int = if has_bit(flags, 9) {
        1
    } else {
        0
    };
    let default: int = if has_bit(flags, 10) {
        1
    } else {
        0
    };
    method + parameters + types + default
}

/// The address that lies `offset` away from `address`.
pub open spec fn away(address: u64, offset: int) -> u64 {
    ((address + offset) % 0x1_0000_0000_0000_0000) as u64
}

/// Whether `tail` is the last slot before the pointers to annotations. The size of a `ConstMethod` is
/// counted in words of eight bytes.
pub open spec fn is_tail(memory: Contents, layout: Layout, cm: u64, flags: u16, tail: u64) -> bool {
    &&& u32_at(memory, cm.wrapping_add(layout.cm_size)) matches Ok(words)
    &&& 0 < words <= 0x100_0000
    &&& tail == away(cm, 8 * words - 8 * annotations(flags) - 2)
}

/// Whether `generic` is the generic signature of a method. One that has none has not the flag for it.
pub open spec fn is_generic(
    memory: Contents,
    layout: Layout,
    cm: u64,
    flags: u16,
    generic: Option<u16>,
) -> bool {
    if has_bit(flags, 4) {
        exists|tail: u64, index: u16| #[trigger]
            is_tail(memory, layout, cm, flags, tail) && #[trigger] stands_at(memory, tail, index) && (
            generic == if index == 0 {
                None::<u16>
            } else {
                Some(index)
            })
    } else {
        generic is None
    }
}

/// Whether the two bytes at `address` are `value`.
pub open spec fn stands_at(memory: Contents, address: u64, value: u16) -> bool {
    u16_at(memory, address) == Ok::<u16, Seq<char>>(value)
}

/// Whether `before` is the slot before a table that is stored backwards from `cursor`, if it is there:
/// its length and then rows of `width` bytes.
pub open spec fn is_before(
    memory: Contents,
    there: bool,
    width: int,
    cursor: u64,
    before: u64,
) -> bool {
    if there {
        &&& u16_at(memory, cursor) matches Ok(rows)
        &&& before == cursor - 2 - width * rows
    } else {
        before == cursor
    }
}

/// Whether the row of an exception table at `at` is `row`.
pub open spec fn is_row(memory: Contents, at: int, row: ExceptionOut) -> bool {
    &&& stands_at(memory, at as u64, row.start_pc)
    &&& stands_at(memory, (at + 2) as u64, row.end_pc)
    &&& stands_at(memory, (at + 4) as u64, row.handler_pc)
    &&& stands_at(memory, (at + 6) as u64, row.catch_type)
}

/// Whether `rows` are the rows of the exception table whose length stands at `cursor`: they come right
/// before it.
pub open spec fn are_rows(memory: Contents, cursor: u64, rows: Seq<ExceptionOut>) -> bool {
    &&& u16_at(memory, cursor) matches Ok(count)
    &&& rows.len() == count
    &&& 8 * count <= cursor
    &&& forall|i: int|
        0 <= i < count ==> is_row(memory, cursor - 8 * count + 8 * i, #[trigger] rows[i])
}

/// The slot before the generic signature, if there is one.
pub open spec fn before_generic(flags: u16, tail: u64) -> u64 {
    if has_bit(flags, 4) {
        away(tail, -2)
    } else {
        tail
    }
}

/// Whether the length of the exception table stands at `cursor`. Before the tail come the generic
/// signature, the parameters of the method and the checked exceptions, as far as the flags say that
/// they are there.
pub open spec fn is_exception_cursor(
    memory: Contents,
    layout: Layout,
    cm: u64,
    flags: u16,
    cursor: u64,
) -> bool {
    exists|tail: u64, parameters: u64| #[trigger]
        is_tail(memory, layout, cm, flags, tail) && is_before(
            memory,
            has_bit(flags, 5),
            4,
            before_generic(flags, tail),
            parameters,
        ) && #[trigger] is_before(memory, has_bit(flags, 1), 2, parameters, cursor)
}

/// Whether `rows` is the exception table of a method. One that has none has not the flag for it.
pub open spec fn are_exceptions(
    memory: Contents,
    layout: Layout,
    cm: u64,
    flags: u16,
    rows: Seq<ExceptionOut>,
) -> bool {
    if has_bit(flags, 3) {
        exists|cursor: u64| #[trigger]
            is_exception_cursor(memory, layout, cm, flags, cursor) && are_rows(memory, cursor, rows)
    } else {
        rows.len() == 0
    }
}

/// Whether `stack_map` is what the array of bytes at `address` holds: its length, then its bytes. No
/// address means no array.
pub open spec fn is_stack_map(
    memory: Contents,
    layout: Layout,
    address: u64,
    stack_map: Option<Seq<u8>>,
) -> bool {
    match stack_map {
        None => address == 0,
        Some(bytes) => {
            &&& address != 0
            &&& u32_at(memory, address.wrapping_add(layout.array_len)) matches Ok(length)
            &&& length <= 0x100_0000
            &&& memory(address.wrapping_add(4), length as nat) == Ok::<Seq<u8>, Seq<char>>(bytes)
        },
    }
}

/// Whether `code` is the code of a method whose pool is at `pool`: its bytecodes, restored, which
/// follow the header, its exception table, its stack map and its two limits.
pub open spec fn is_code(
    memory: Contents,
    layout: Layout,
    cm: u64,
    pool: u64,
    flags: u16,
    code: CodeView,
) -> bool {
    &&& u16_at(memory, cm.wrapping_add(layout.cm_code_size)) matches Ok(size)
    &&& size > 0
    &&& memory(cm.wrapping_add(layout.cm_header_size), size as nat) matches Ok(bytecodes)
    &&& restored_code(memory, pool, layout, bytecodes).1 is Ok
    &&& restored_code(memory, pool, layout, bytecodes).0 == code.bytes
    &&& are_exceptions(memory, layout, cm, flags, code.exceptions)
    &&& u64_at(memory, cm.wrapping_add(layout.cm_stackmap)) matches Ok(address)
    &&& is_stack_map(memory, layout, address, code.stack_map)
    &&& stands_at(memory, cm.wrapping_add(layout.cm_max_stack), code.max_stack)
    &&& stands_at(memory, cm.wrapping_add(layout.cm_max_locals), code.max_locals)
}

/// Whether `found` is the method at `method` whose `ConstMethod` is at `cm`, of a class whose pool is at
/// `pool` and holds `entries`. Its flags are those that a class file gives a method and no others. It
/// has code exactly if it is neither native nor abstract: of any other method nothing of the code is
/// looked at.
pub open spec fn is_method(
    memory: Contents,
    layout: Layout,
    method: u64,
    cm: u64,
    pool: u64,
    entries: Seq<CpView>,
    found: MethodView,
) -> bool {
    &&& stands_at(memory, cm.wrapping_add(layout.cm_name), found.name)
    &&& stands_at(memory, cm.wrapping_add(layout.cm_sig), found.descriptor)
    &&& found.name < entries.len()
    &&& entries[found.name as int] is Utf8
    &&& u32_at(memory, method.wrapping_add(layout.method_flags)) matches Ok(access)
    &&& forall|n: u16|
        n < 16 ==> (#[trigger] has_bit(found.flags, n) <==> has_access(access, n) && is_method_bit(
            n,
        ))
    &&& u16_at(memory, cm.wrapping_add(layout.cm_flags)) matches Ok(flags)
    &&& is_generic(memory, layout, cm, flags, found.generic)
    &&& found.code is Some <==> runs_code(access)
    &&& found.code matches Some(code) ==> is_code(memory, layout, cm, pool, flags, code)
}

proof fn method_flags_are_bits(flags: u16)
    ensures
        flags & 0x0002 != 0 <==> has_bit(flags, 1),
        flags & 0x0008 != 0 <==> has_bit(flags, 3),
        flags & 0x0010 != 0 <==> has_bit(flags, 4),
        flags & 0x0020 != 0 <==> has_bit(flags, 5),
        flags & 0x0080 != 0 <==> has_bit(flags, 7),
        flags & 0x0100 != 0 <==> has_bit(flags, 8),
        flags & 0x0200 != 0 <==> has_bit(flags, 9),
        flags & 0x0400 != 0 <==> has_bit(flags, 10),
        annotation_pointers(flags) == annotations(flags),
{
    assert((flags & 0x0002 != 0 <==> (flags >> 1) & 1 == 1) && (flags & 0x0008 != 0 <==> (flags
        >> 3) & 1 == 1) && (flags & 0x0010 != 0 <==> (flags >> 4) & 1 == 1) && (flags & 0x0020 != 0
        <==> (flags >> 5) & 1 == 1) && (flags & 0x0080 != 0 <==> (flags >> 7) & 1 == 1) && (flags
        & 0x0100 != 0 <==> (flags >> 8) & 1 == 1) && (flags & 0x0200 != 0 <==> (flags >> 9) & 1
        == 1) && (flags & 0x0400 != 0 <==> (flags >> 10) & 1 == 1)) by (bit_vector);
}

proof fn tail_is_the_last_slot(memory: Contents, layout: Layout, cm: u64, flags: u16, tail: u64)
    ensures
        tail_of(memory, cm, flags, layout) == Ok::<u64, Seq<char>>(tail) <==> is_tail(
            memory,
            layout,
            cm,
            flags,
            tail,
        ),
{
    method_flags_are_bits(flags);
    if let Ok(words) = u32_at(memory, cm.wrapping_add(layout.cm_size)) {
        if 0 < words <= 0x100_0000 {
            let offset: int = 8 * words - 8 * annotations(flags) - 2;
            let found = tail_of(memory, cm, flags, layout)->Ok_0;
            assert(found == cm + offset || found == cm + offset - 0x1_0000_0000_0000_0000 || found
                == cm + offset + 0x1_0000_0000_0000_0000);
            assert(found == away(cm, offset));
        }
    }
}

/// The generic signature of a method stands in the last slot before the pointers to annotations.
pub proof fn generic_signature_is_the_last_slot(
    memory: Contents,
    layout: Layout,
    cm: u64,
    flags: u16,
    index: u16,
)
    requires
        has_bit(flags, 4),
    ensures
        generic_of(memory, cm, flags, layout) == Ok::<u16, Seq<char>>(index) <==> exists|tail: u64|
         #[trigger] is_tail(memory, layout, cm, flags, tail) && stands_at(memory, tail, index),
{
    if let Ok(tail) = tail_of(memory, cm, flags, layout) {
        tail_is_the_last_slot(memory, layout, cm, flags, tail);
    }
    assert forall|tail: u64| #[trigger] is_tail(memory, layout, cm, flags, tail) implies tail_of(
        memory,
        cm,
        flags,
        layout,
    ) == Ok::<u64, Seq<char>>(tail) by {
        tail_is_the_last_slot(memory, layout, cm, flags, tail);
    }
}

proof fn rows_are_read(
    memory: Contents,
    start: u64,
    count: nat,
    index: nat,
    rows: Seq<ExceptionOut>,
)
    requires
        index <= count,
        start + 8 * count <= u64::MAX,
    ensures
        exceptions_from(memory, start, count, index) == Ok::<Seq<ExceptionOut>, Seq<char>>(rows)
            <==> rows.len() == count - index && forall|i: int|
            0 <= i < rows.len() ==> is_row(memory, start + 8 * (index + i), #[trigger] rows[i]),
    decreases count - index,
{
    if index == count {
        if rows.len() == 0 {
            assert(rows =~= Seq::<ExceptionOut>::empty());
        }
    } else {
        let at = start.wrapping_add((index * 8) as u64);
        let rest = exceptions_from(memory, start, count, index + 1);
        if rows.len() == count - index {
            let tail = rows.subrange(1, rows.len() as int);
            rows_are_read(memory, start, count, index + 1, tail);
            assert(rows =~= seq![rows[0]] + tail);
            if exceptions_from(memory, start, count, index) == Ok::<
                Seq<ExceptionOut>,
                Seq<char>,
            >(rows) {
                assert((seq![exception_at(memory, at)->Ok_0] + rest->Ok_0).subrange(
                    1,
                    rows.len() as int,
                ) =~= rest->Ok_0);
                assert(rest == Ok::<Seq<ExceptionOut>, Seq<char>>(tail));
                assert(rows[0] == exception_at(memory, at)->Ok_0);
                assert forall|i: int| 0 <= i < rows.len() implies is_row(
                    memory,
                    start + 8 * (index + i),
                    #[trigger] rows[i],
                ) by {
                    if i > 0 {
                        assert(rows[i] == tail[i - 1]);
                    }
                }
            }
            if forall|i: int|
                0 <= i < rows.len() ==> is_row(memory, start + 8 * (index + i), #[trigger] rows[i]) {
                assert(is_row(memory, start + 8 * (index + 0), rows[0]));
                assert(exception_at(memory, at) == Ok::<ExceptionOut, Seq<char>>(rows[0]));
                assert forall|i: int| 0 <= i < tail.len() implies is_row(
                    memory,
                    start + 8 * (index + 1 + i),
                    #[trigger] tail[i],
                ) by {
                    assert(tail[i] == rows[i + 1]);
                    assert(is_row(memory, start + 8 * (index + (i + 1)), rows[i + 1]));
                }
            }
        } else if exceptions_from(memory, start, count, index) is Ok {
            rows_are_read(memory, start, count, index + 1, rest->Ok_0);
        }
    }
}

proof fn cursor_is_found(memory: Contents, layout: Layout, cm: u64, flags: u16, cursor: u64)
    ensures
        exception_cursor(memory, cm, flags, layout) == Ok::<u64, Seq<char>>(cursor)
            <==> is_exception_cursor(memory, layout, cm, flags, cursor),
{
    method_flags_are_bits(flags);
    assert forall|tail: u64| #[trigger] is_tail(memory, layout, cm, flags, tail) implies tail_of(
        memory,
        cm,
        flags,
        layout,
    ) == Ok::<u64, Seq<char>>(tail) by {
        tail_is_the_last_slot(memory, layout, cm, flags, tail);
    }
    if let Ok(tail) = tail_of(memory, cm, flags, layout) {
        tail_is_the_last_slot(memory, layout, cm, flags, tail);
        assert(away(tail, -2) == tail.wrapping_sub(2)) by {
            if tail >= 2 {
                assert((tail - 2) % 0x1_0000_0000_0000_0000 == tail - 2);
            } else {
                assert((tail - 2) % 0x1_0000_0000_0000_0000 == tail - 2 + 0x1_0000_0000_0000_0000);
            }
        }
        if let Ok(parameters) = before_optional_table(
            memory,
            flags,
            0x0020,
            before_generic(flags, tail),
            2,
        ) {
            assert(is_before(
                memory,
                has_bit(flags, 5),
                4,
                before_generic(flags, tail),
                parameters,
            ));
            if let Ok(found) = before_optional_table(memory, flags, 0x0002, parameters, 1) {
                assert(is_before(memory, has_bit(flags, 1), 2, parameters, found));
            }
        }
    }
}

/// The exception table of a method is the one whose length stands before the generic signature, the
/// parameters of the method and its checked exceptions.
pub proof fn exceptions_are_the_rows_before_the_tail(
    memory: Contents,
    layout: Layout,
    cm: u64,
    flags: u16,
    rows: Seq<ExceptionOut>,
)
    ensures
        exceptions_of(memory, cm, flags, layout) == Ok::<Seq<ExceptionOut>, Seq<char>>(rows)
            <==> are_exceptions(memory, layout, cm, flags, rows),
{
    method_flags_are_bits(flags);
    if has_bit(flags, 3) {
        assert forall|cursor: u64| #[trigger]
            is_exception_cursor(memory, layout, cm, flags, cursor) implies exception_cursor(
            memory,
            cm,
            flags,
            layout,
        ) == Ok::<u64, Seq<char>>(cursor) by {
            cursor_is_found(memory, layout, cm, flags, cursor);
        }
        if let Ok(cursor) = exception_cursor(memory, cm, flags, layout) {
            cursor_is_found(memory, layout, cm, flags, cursor);
            if let Ok(count) = u16_at(memory, cursor) {
                if 8 * count <= cursor {
                    let start = (cursor - count * 8) as u64;
                    rows_are_read(memory, start, count as nat, 0, rows);
                    if are_rows(memory, cursor, rows) {
                        assert forall|i: int| 0 <= i < rows.len() implies is_row(
                            memory,
                            start + 8 * (0 + i),
                            #[trigger] rows[i],
                        ) by {
                            assert(is_row(memory, cursor - 8 * count + 8 * i, rows[i]));
                        }
                    }
                    if rows.len() == count && forall|i: int|
                        0 <= i < rows.len() ==> is_row(
                            memory,
                            start + 8 * (0 + i),
                            #[trigger] rows[i],
                        ) {
                        assert forall|i: int| 0 <= i < count implies is_row(
                            memory,
                            cursor - 8 * count + 8 * i,
                            #[trigger] rows[i],
                        ) by {
                            assert(is_row(memory, start + 8 * (0 + i), rows[i]));
                        }
                        assert(are_rows(memory, cursor, rows));
                    }
                }
            }
        }
    } else if rows.len() == 0 {
        assert(rows =~= Seq::<ExceptionOut>::empty());
    }
}

/// A method that has code has the code that its `ConstMethod` holds, and is refused only if that
/// cannot be read.
pub proof fn code_is_that_of_the_method(
    memory: Contents,
    layout: Layout,
    cm: u64,
    pool: u64,
    flags: u16,
    code: CodeView,
)
    ensures
        code_of(memory, cm, pool, flags, layout) == Ok::<CodeView, Seq<char>>(code) <==> is_code(
            memory,
            layout,
            cm,
            pool,
            flags,
            code,
        ),
{
    exceptions_are_the_rows_before_the_tail(memory, layout, cm, flags, code.exceptions);
    if let Ok(found) = code_of(memory, cm, pool, flags, layout) {
        exceptions_are_the_rows_before_the_tail(memory, layout, cm, flags, found.exceptions);
    }
}

proof fn method_bits_are_kept(access: u32, n: u16)
    requires
        n < 16,
    ensures
        has_bit((access % 0x1_0000) as u16 & 0x1dff, n) <==> has_access(access, n) && is_method_bit(
            n,
        ),
        (access % 0x1_0000) as u16 & 0x1dff & 0x0500 == 0 <==> runs_code(access),
{
    assert((((access % 0x1_0000) as u16 & 0x1dff) >> n) & 1 == 1 <==> (access >> n) & 1 == 1 && (n
        == 0 || n == 1 || n == 2 || n == 3 || n == 4 || n == 5 || n == 6 || n == 7 || n == 8 || n
        == 10 || n == 11 || n == 12)) by (bit_vector)
        requires
            n < 16,
    ;
    assert((access % 0x1_0000) as u16 & 0x1dff & 0x0500 == 0 <==> !((access >> 8) & 1 == 1) && !((
    access >> 10) & 1 == 1)) by (bit_vector);
}

/// Flags with the same bits are the same.
pub proof fn bits_make_the_flags(left: u16, right: u16)
    requires
        forall|n: u16| n < 16 ==> (#[trigger] has_bit(left, n) <==> has_bit(right, n)),
    ensures
        left == right,
{
    assert(has_bit(left, 0) == has_bit(right, 0) && has_bit(left, 1) == has_bit(right, 1)
        && has_bit(left, 2) == has_bit(right, 2) && has_bit(left, 3) == has_bit(right, 3)
        && has_bit(left, 4) == has_bit(right, 4) && has_bit(left, 5) == has_bit(right, 5)
        && has_bit(left, 6) == has_bit(right, 6) && has_bit(left, 7) == has_bit(right, 7)
        && has_bit(left, 8) == has_bit(right, 8) && has_bit(left, 9) == has_bit(right, 9)
        && has_bit(left, 10) == has_bit(right, 10) && has_bit(left, 11) == has_bit(right, 11)
        && has_bit(left, 12) == has_bit(right, 12) && has_bit(left, 13) == has_bit(right, 13)
        && has_bit(left, 14) == has_bit(right, 14) && has_bit(left, 15) == has_bit(right, 15));
    assert(left == right) by (bit_vector)
        requires
            ((left >> 0) & 1 == 1) == ((right >> 0) & 1 == 1),
            ((left >> 1) & 1 == 1) == ((right >> 1) & 1 == 1),
            ((left >> 2) & 1 == 1) == ((right >> 2) & 1 == 1),
            ((left >> 3) & 1 == 1) == ((right >> 3) & 1 == 1),
            ((left >> 4) & 1 == 1) == ((right >> 4) & 1 == 1),
            ((left >> 5) & 1 == 1) == ((right >> 5) & 1 == 1),
            ((left >> 6) & 1 == 1) == ((right >> 6) & 1 == 1),
            ((left >> 7) & 1 == 1) == ((right >> 7) & 1 == 1),
            ((left >> 8) & 1 == 1) == ((right >> 8) & 1 == 1),
            ((left >> 9) & 1 == 1) == ((right >> 9) & 1 == 1),
            ((left >> 10) & 1 == 1) == ((right >> 10) & 1 == 1),
            ((left >> 11) & 1 == 1) == ((right >> 11) & 1 == 1),
            ((left >> 12) & 1 == 1) == ((right >> 12) & 1 == 1),
            ((left >> 13) & 1 == 1) == ((right >> 13) & 1 == 1),
            ((left >> 14) & 1 == 1) == ((right >> 14) & 1 == 1),
            ((left >> 15) & 1 == 1) == ((right >> 15) & 1 == 1),
    ;
}

proof fn signature_is_found(
    memory: Contents,
    layout: Layout,
    cm: u64,
    flags: u16,
    generic: Option<u16>,
)
    ensures
        is_generic(memory, layout, cm, flags, generic) <==> {
            let signature = if flags & 0x0010 != 0 {
                generic_of(memory, cm, flags, layout)
            } else {
                Ok(0)
            };
            signature matches Ok(index) && generic == (if index == 0 {
                None::<u16>
            } else {
                Some(index)
            })
        },
{
    method_flags_are_bits(flags);
    if has_bit(flags, 4) {
        if let Ok(index) = generic_of(memory, cm, flags, layout) {
            generic_signature_is_the_last_slot(memory, layout, cm, flags, index);
        }
        if is_generic(memory, layout, cm, flags, generic) {
            let (tail, index) = choose|tail: u64, index: u16| #[trigger]
                is_tail(memory, layout, cm, flags, tail) && #[trigger] stands_at(
                    memory,
                    tail,
                    index,
                ) && (generic == if index == 0 {
                    None::<u16>
                } else {
                    Some(index)
                });
            generic_signature_is_the_last_slot(memory, layout, cm, flags, index);
        }
    }
}

/// The method at an address is what its `Method` and its `ConstMethod` hold, and is refused only if
/// that cannot be read.
pub proof fn method_is_what_it_holds(
    memory: Contents,
    layout: Layout,
    method: u64,
    cm: u64,
    pool: u64,
    entries: Seq<CpView>,
    found: MethodView,
)
    ensures
        method_parts(memory, method, cm, pool, layout, entries) == Ok::<MethodView, Seq<char>>(
            found,
        ) <==> is_method(memory, layout, method, cm, pool, entries, found),
{
    if let Ok(access) = u32_at(memory, method.wrapping_add(layout.method_flags)) {
        let kept = (access % 0x1_0000) as u16 & 0x1dff;
        assert forall|n: u16| n < 16 implies #[trigger] has_bit(kept, n) == (has_access(access, n)
            && is_method_bit(n)) by {
            method_bits_are_kept(access, n);
        }
        method_bits_are_kept(access, 0);
        if let Ok(flags) = u16_at(memory, cm.wrapping_add(layout.cm_flags)) {
            signature_is_found(memory, layout, cm, flags, found.generic);
            if let Some(code) = found.code {
                code_is_that_of_the_method(memory, layout, cm, pool, flags, code);
            }
            if let Ok(code) = code_of(memory, cm, pool, flags, layout) {
                code_is_that_of_the_method(memory, layout, cm, pool, flags, code);
            }
            if is_method(memory, layout, method, cm, pool, entries, found) {
                assert forall|n: u16| n < 16 implies (#[trigger] has_bit(found.flags, n) <==> has_bit(
                    kept,
                    n,
                )) by {
                    assert(has_bit(kept, n) == (has_access(access, n) && is_method_bit(n)));
                }
                bits_make_the_flags(found.flags, kept);
            }
        }
    }
}

/// A native or abstract method is read whatever is said of its code.
pub proof fn method_without_code_is_read(
    memory: Contents,
    layout: Layout,
    method: u64,
    cm: u64,
    pool: u64,
    entries: Seq<CpView>,
    access: u32,
    name: u16,
)
    requires
        stands_at(memory, cm.wrapping_add(layout.cm_name), name),
        name < entries.len(),
        entries[name as int] is Utf8,
        u16_at(memory, cm.wrapping_add(layout.cm_sig)) is Ok,
        u32_at(memory, method.wrapping_add(layout.method_flags)) == Ok::<u32, Seq<char>>(access),
        has_access(access, 8) || has_access(access, 10),
        u16_at(memory, cm.wrapping_add(layout.cm_flags)) matches Ok(flags) && !has_bit(flags, 4),
    ensures
        method_parts(memory, method, cm, pool, layout, entries) matches Ok(found)
            && found.code is None,
{
    let flags = u16_at(memory, cm.wrapping_add(layout.cm_flags))->Ok_0;
    let kept = (access % 0x1_0000) as u16 & 0x1dff;
    assert forall|n: u16| n < 16 implies #[trigger] has_bit(kept, n) == (has_access(access, n)
        && is_method_bit(n)) by {
        method_bits_are_kept(access, n);
    }
    let found = MethodView {
        flags: kept,
        name,
        descriptor: u16_at(memory, cm.wrapping_add(layout.cm_sig))->Ok_0,
        generic: None,
        code: None,
    };
    assert(is_method(memory, layout, method, cm, pool, entries, found));
    method_is_what_it_holds(memory, layout, method, cm, pool, entries, found);
}

/// Slot `index` of the array of methods whose first slot is at `slots`.
pub open spec fn method_slot(slots: u64, index: int) -> u64 {
    slots.wrapping_add((8 * index) as u64)
}

/// Whether a slot refers to a method that has a `ConstMethod`.
pub open spec fn has_method(memory: Contents, layout: Layout, slot: u64) -> bool {
    &&& u64_at(memory, slot) matches Ok(method)
    &&& method != 0
    &&& u64_at(memory, method.wrapping_add(layout.method_const)) matches Ok(cm)
    &&& cm != 0
}

/// Whether `found` is the method that a slot refers to.
pub open spec fn is_method_in(
    memory: Contents,
    layout: Layout,
    slot: u64,
    pool: u64,
    entries: Seq<CpView>,
    found: MethodView,
) -> bool {
    &&& has_method(memory, layout, slot)
    &&& u64_at(memory, slot) matches Ok(method)
    &&& u64_at(memory, method.wrapping_add(layout.method_const)) matches Ok(cm)
    &&& is_method(memory, layout, method, cm, pool, entries, found)
}

/// Whether a slot refers to nothing: to no method, or to one that has no `ConstMethod`.
pub open spec fn is_vacant(memory: Contents, layout: Layout, slot: u64) -> bool {
    &&& u64_at(memory, slot) matches Ok(method)
    &&& method == 0 || u64_at(memory, method.wrapping_add(layout.method_const)) == Ok::<
        u64,
        Seq<char>,
    >(0)
}

/// A slot gives the method that it refers to, if there is one.
pub proof fn slot_gives_its_method(
    memory: Contents,
    layout: Layout,
    slot: u64,
    pool: u64,
    entries: Seq<CpView>,
    found: MethodView,
)
    ensures
        method_in(memory, slot, pool, layout, entries) == Ok::<Option<MethodView>, Seq<char>>(
            Some(found),
        ) <==> is_method_in(memory, layout, slot, pool, entries, found),
        method_in(memory, slot, pool, layout, entries) == Ok::<Option<MethodView>, Seq<char>>(None)
            <==> is_vacant(memory, layout, slot),
{
    reveal(method_in);
    if let Ok(method) = u64_at(memory, slot) {
        if let Ok(cm) = u64_at(memory, method.wrapping_add(layout.method_const)) {
            method_is_what_it_holds(memory, layout, method, cm, pool, entries, found);
        }
    }
}

/// How many of the first `index` slots refer to a method.
pub open spec fn methods_before(memory: Contents, layout: Layout, slots: u64, index: nat) -> nat
    decreases index,
{
    if index == 0 {
        0
    } else {
        let before = methods_before(memory, layout, slots, (index - 1) as nat);
        if has_method(memory, layout, method_slot(slots, index - 1)) {
            before + 1
        } else {
            before
        }
    }
}

/// Whether a slot is vacant or its method can be read.
pub open spec fn slot_is_sound(
    memory: Contents,
    layout: Layout,
    slot: u64,
    pool: u64,
    entries: Seq<CpView>,
) -> bool {
    ||| is_vacant(memory, layout, slot)
    ||| exists|found: MethodView| is_method_in(memory, layout, slot, pool, entries, found)
}

proof fn methods_are_counted(memory: Contents, layout: Layout, slots: u64, less: nat, more: nat)
    requires
        less <= more,
    ensures
        methods_before(memory, layout, slots, less) <= methods_before(memory, layout, slots, more),
    decreases more,
{
    if less < more {
        methods_are_counted(memory, layout, slots, less, (more - 1) as nat);
    }
}

proof fn methods_of_the_slots(
    memory: Contents,
    layout: Layout,
    slots: u64,
    pool: u64,
    entries: Seq<CpView>,
    count: nat,
    index: nat,
)
    requires
        index <= count <= 65535,
    ensures
        ({
            let methods = methods_from(memory, slots, pool, layout, entries, count, index);
            let done = methods_before(memory, layout, slots, index);
            &&& methods is Ok <==> forall|i: int|
                index <= i < count ==> slot_is_sound(
                    memory,
                    layout,
                    #[trigger] method_slot(slots, i),
                    pool,
                    entries,
                )
            &&& methods matches Ok(methods) ==> {
                &&& methods.len() == methods_before(memory, layout, slots, count) - done
                &&& forall|i: int|
                    index <= i < count && has_method(
                        memory,
                        layout,
                        #[trigger] method_slot(slots, i),
                    ) ==> is_method_in(
                        memory,
                        layout,
                        method_slot(slots, i),
                        pool,
                        entries,
                        methods[methods_before(memory, layout, slots, i as nat) - done],
                    )
            }
        }),
    decreases count - index,
{
    if index < count {
        let slot = method_slot(slots, index as int);
        assert(slot == slots.wrapping_add((index * 8) as u64));
        let done = methods_before(memory, layout, slots, index);
        let first = method_in(memory, slot, pool, layout, entries);
        let methods = methods_from(memory, slots, pool, layout, entries, count, index);
        let rest = methods_from(memory, slots, pool, layout, entries, count, index + 1);
        methods_of_the_slots(memory, layout, slots, pool, entries, count, index + 1);
        assert forall|found: MethodView| is_method_in(
            memory,
            layout,
            slot,
            pool,
            entries,
            found,
        ) implies first == Ok::<Option<MethodView>, Seq<char>>(Some(found)) by {
            slot_gives_its_method(memory, layout, slot, pool, entries, found);
        }
        if let Ok(Some(found)) = first {
            slot_gives_its_method(memory, layout, slot, pool, entries, found);
            assert(slot_is_sound(memory, layout, slot, pool, entries));
            if rest is Ok {
                let listed = methods->Ok_0;
                assert(listed == seq![found] + rest->Ok_0);
                assert forall|i: int|
                    index <= i < count && has_method(
                        memory,
                        layout,
                        #[trigger] method_slot(slots, i),
                    ) implies is_method_in(
                    memory,
                    layout,
                    method_slot(slots, i),
                    pool,
                    entries,
                    listed[methods_before(memory, layout, slots, i as nat) - done],
                ) by {
                    if i > index {
                        methods_are_counted(memory, layout, slots, index + 1, i as nat);
                        methods_are_counted(memory, layout, slots, (i + 1) as nat, count);
                        let at = methods_before(memory, layout, slots, i as nat) - done;
                        assert(methods_before(memory, layout, slots, (i + 1) as nat)
                            == methods_before(memory, layout, slots, i as nat) + 1);
                        assert(listed[at] == rest->Ok_0[at - 1]);
                    }
                }
            }
        } else {
            let anything = arbitrary::<MethodView>();
            slot_gives_its_method(memory, layout, slot, pool, entries, anything);
            if first is Ok {
                assert(is_vacant(memory, layout, slot));
                assert(slot_is_sound(memory, layout, slot, pool, entries));
                assert(methods == rest);
            }
        }
    }
}

/// A class lists the methods that the slots of its array refer to, in their order; a vacant slot gives
/// none. A class is refused only if a slot or its method cannot be read.
pub proof fn methods_are_those_of_the_slots(
    memory: Contents,
    layout: Layout,
    klass: u64,
    pool: u64,
    entries: Seq<CpView>,
    array: u64,
    count: u32,
)
    requires
        u64_at(memory, klass.wrapping_add(layout.ik_methods)) == Ok::<u64, Seq<char>>(array),
        array != 0,
        u32_at(memory, array.wrapping_add(layout.array_len)) == Ok::<u32, Seq<char>>(count),
    ensures
        ({
            let slots = array.wrapping_add(layout.array_ptr_data);
            let methods = methods_of(memory, klass, pool, layout, entries);
            &&& methods is Ok <==> count <= 65535 && forall|i: int|
                0 <= i < count ==> slot_is_sound(
                    memory,
                    layout,
                    #[trigger] method_slot(slots, i),
                    pool,
                    entries,
                )
            &&& methods matches Ok(methods) ==> {
                &&& methods.len() == methods_before(memory, layout, slots, count as nat)
                &&& forall|i: int|
                    0 <= i < count && has_method(
                        memory,
                        layout,
                        #[trigger] method_slot(slots, i),
                    ) ==> is_method_in(
                        memory,
                        layout,
                        method_slot(slots, i),
                        pool,
                        entries,
                        methods[methods_before(memory, layout, slots, i as nat) as int],
                    )
            }
        }),
{
    let slots = array.wrapping_add(layout.array_ptr_data);
    if count <= 65535 {
        methods_of_the_slots(memory, layout, slots, pool, entries, count as nat, 0);
        if let Ok(methods) = methods_of(memory, klass, pool, layout, entries) {
            assert forall|i: int|
                0 <= i < count && has_method(
                    memory,
                    layout,
                    #[trigger] method_slot(slots, i),
                ) implies is_method_in(
                memory,
                layout,
                method_slot(slots, i),
                pool,
                entries,
                methods[methods_before(memory, layout, slots, i as nat) as int],
            ) by {
                let at = methods_before(memory, layout, slots, i as nat);
                assert(methods[at - methods_before(memory, layout, slots, 0)] == methods[at as int]);
            }
        }
    }
}

/// A class without an array of methods has none.
pub proof fn class_without_methods(
    memory: Contents,
    layout: Layout,
    klass: u64,
    pool: u64,
    entries: Seq<CpView>,
)
    requires
        u64_at(memory, klass.wrapping_add(layout.ik_methods)) == Ok::<u64, Seq<char>>(0),
    ensures
        methods_of(memory, klass, pool, layout, entries) == Ok::<Seq<MethodView>, Seq<char>>(
            Seq::empty(),
        ),
{
}

} // verus!
