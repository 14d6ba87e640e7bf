//! What the instructions that HotSpot writes over those of a class file stand for.
use vstd::prelude::*;

use super::bytecode::{
    instruction_has_length, instruction_size, restored_code, restored_from, restored_instruction,
    restoring_is_local, restoring_keeps_length, size_is_local,
};
use super::Layout;
use crate::platform::{u16_at, u32_at, u64_at, Contents};

verus! {

pub const LDC: u8 = 18;

pub const LDC_W: u8 = 19;

pub const ILOAD: u8 = 21;

pub const ALOAD_0: u8 = 42;

pub const CALOAD: u8 = 52;

pub const LOOKUPSWITCH: u8 = 171;

pub const RETURN: u8 = 177;

pub const GETFIELD: u8 = 180;

pub const PUTFIELD: u8 = 181;

pub const INVOKEVIRTUAL: u8 = 182;

/// The opcode that stands in the class file where the code of a loaded class has `opcode`. HotSpot's
/// own opcodes are the ones from 203 on; the others are those of the class file.
pub open spec fn standard_opcode(opcode: u8) -> u8 {
    match opcode {
        203 => GETFIELD,
        204 => GETFIELD,
        205 => GETFIELD,
        206 => GETFIELD,
        207 => GETFIELD,
        208 => GETFIELD,
        209 => GETFIELD,
        210 => GETFIELD,
        211 => PUTFIELD,
        212 => PUTFIELD,
        213 => PUTFIELD,
        214 => PUTFIELD,
        215 => PUTFIELD,
        216 => PUTFIELD,
        217 => PUTFIELD,
        218 => PUTFIELD,
        219 => PUTFIELD,
        220 => ALOAD_0,
        221 => ALOAD_0,
        222 => ALOAD_0,
        223 => ALOAD_0,
        224 => ILOAD,
        225 => ILOAD,
        226 => ILOAD,
        227 => INVOKEVIRTUAL,
        228 => LOOKUPSWITCH,
        229 => LOOKUPSWITCH,
        230 => LDC,
        231 => LDC_W,
        232 => RETURN,
        233 => INVOKEVIRTUAL,
        _ => opcode,
    }
}

/// The second instruction where one of HotSpot's stands for two: where it starts, and its opcode.
pub open spec fn second_opcode(opcode: u8) -> Option<(int, u8)> {
    match opcode {
        221 => Some((1, GETFIELD)),
        222 => Some((1, GETFIELD)),
        223 => Some((1, GETFIELD)),
        225 => Some((2, ILOAD)),
        226 => Some((2, CALOAD)),
        _ => None,
    }
}

/// Where behind its opcode an instruction of a linked class has the index of a cache entry of two
/// bytes: the accesses to fields and the invocations, but for `invokedynamic`.
pub open spec fn member_operand(opcode: u8) -> Option<int> {
    match opcode {
        178 => Some(1),
        179 => Some(1),
        180 => Some(1),
        181 => Some(1),
        182 => Some(1),
        183 => Some(1),
        184 => Some(1),
        185 => Some(1),
        221 => Some(2),
        222 => Some(2),
        223 => Some(2),
        227 => Some(1),
        233 => Some(1),
        _ => if 203 <= opcode && opcode <= 219 {
            Some(1)
        } else {
            None
        },
    }
}

/// Two bytes as a class file has them: the higher first.
pub open spec fn class_file_pair(code: Seq<u8>, at: int) -> int {
    0x100 * code[at] + code[at + 1]
}

/// Two bytes as the target's machine has them: the lower first.
pub open spec fn native_pair(code: Seq<u8>, at: int) -> int {
    code[at] + 0x100 * code[at + 1]
}

/// Four bytes as the target's machine has them.
pub open spec fn native_word(code: Seq<u8>, at: int) -> int {
    native_pair(code, at) + 0x1_0000 * native_pair(code, at + 2)
}

/// The cache entry that a rewritten `invokedynamic` names: by its index or by the complement of it.
pub open spec fn dynamic_entry(raw: int, length: u32) -> int {
    if raw < length {
        raw
    } else {
        0xffff_ffff - raw
    }
}

/// How many entries the cache at `cache` has.
pub open spec fn cache_has(memory: Contents, cache: u64, layout: Layout, length: u32) -> bool {
    u32_at(memory, cache.wrapping_add(layout.cache_length)) == Ok::<u32, Seq<char>>(length)
}

/// Whether entry `entry` of the cache of the pool at `pool` stands for entry `index` of the pool: the
/// low half of the entry's first word is the index.
pub open spec fn cache_tells(
    memory: Contents,
    pool: u64,
    layout: Layout,
    entry: int,
    index: int,
) -> bool {
    &&& u64_at(memory, pool.wrapping_add(layout.cp_cache)) matches Ok(cache)
    &&& cache != 0
    &&& u32_at(memory, cache.wrapping_add(layout.cache_length)) matches Ok(length)
    &&& 0 <= entry < length
    &&& u64_at(
        memory,
        cache.wrapping_add(layout.cache_header_size).wrapping_add(
            (entry as u64).wrapping_mul(layout.cache_entry_size),
        ).wrapping_add(layout.cache_entry_indices),
    ) matches Ok(word)
    &&& index == word as int % 0x1_0000
}

/// Whether entry `entry` of the reference map of the pool at `pool` stands for entry `index` of the
/// pool.
pub open spec fn map_tells(
    memory: Contents,
    pool: u64,
    layout: Layout,
    entry: int,
    index: int,
) -> bool {
    &&& u64_at(memory, pool.wrapping_add(layout.cp_reference_map)) matches Ok(map)
    &&& map != 0
    &&& u32_at(memory, map.wrapping_add(layout.array_len)) matches Ok(length)
    &&& 0 <= entry < length
    &&& u16_at(memory, map.wrapping_add(4).wrapping_add((2 * entry) as u64)) matches Ok(value)
    &&& index == value
}

/// Whether `out` has, where `code` of a linked class has the instruction at `bci`, what that
/// instruction stands for. Bytes that no clause speaks of are those of `code`.
pub open spec fn is_what_it_stands_for(
    memory: Contents,
    pool: u64,
    layout: Layout,
    cache: u64,
    code: Seq<u8>,
    out: Seq<u8>,
    bci: int,
    size: int,
) -> bool {
    let opcode = code[bci];
    &&& out[bci] == standard_opcode(opcode)
    &&& second_opcode(opcode) matches Some((behind, second)) ==> out[bci + behind] == second
    &&& member_operand(opcode) matches Some(behind) ==> cache_tells(
        memory,
        pool,
        layout,
        native_pair(code, bci + behind),
        class_file_pair(out, bci + behind),
    )
    &&& opcode == 186 ==> {
        let raw = native_word(code, bci + 1);
        &&& out[bci + 3] == 0
        &&& out[bci + 4] == 0
        &&& exists|length: u32| #[trigger]
            cache_has(memory, cache, layout, length) && cache_tells(
                memory,
                pool,
                layout,
                dynamic_entry(raw, length),
                class_file_pair(out, bci + 1),
            )
    }
    &&& opcode == 230 ==> exists|index: int| #[trigger]
        map_tells(memory, pool, layout, code[bci + 1] as int, index) && out[bci + 1] == index % 0x100
    &&& opcode == 231 ==> map_tells(
        memory,
        pool,
        layout,
        native_pair(code, bci + 1),
        class_file_pair(out, bci + 1),
    )
    &&& forall|i: int|
        bci < i < bci + size ==> #[trigger] out[i] == code[i] || is_overwritten(opcode, i - bci)
}

/// Whether the byte that lies `behind` behind an opcode is not that of the class file.
pub open spec fn is_overwritten(opcode: u8, behind: int) -> bool {
    ||| second_opcode(opcode) matches Some((at, _)) && behind == at
    ||| member_operand(opcode) matches Some(at) && (behind == at || behind == at + 1)
    ||| opcode == 186 && 1 <= behind <= 4
    ||| opcode == 230 && behind == 1
    ||| opcode == 231 && 1 <= behind <= 2
}

/// Whether the instruction at `bci` of a linked class can be restored: it is no breakpoint, and what
/// it refers to is there.
pub open spec fn can_be_restored(
    memory: Contents,
    pool: u64,
    layout: Layout,
    cache: u64,
    code: Seq<u8>,
    bci: int,
) -> bool {
    let opcode = code[bci];
    &&& opcode != 202
    &&& member_operand(opcode) matches Some(behind) ==> exists|index: int| #[trigger]
        cache_tells(memory, pool, layout, native_pair(code, bci + behind), index)
    &&& opcode == 186 ==> {
        let raw = native_word(code, bci + 1);
        exists|length: u32, index: int| #[trigger]
            cache_has(memory, cache, layout, length) && #[trigger] cache_tells(
                memory,
                pool,
                layout,
                dynamic_entry(raw, length),
                index,
            )
    }
    &&& opcode == 230 ==> exists|index: int| #[trigger]
        map_tells(memory, pool, layout, code[bci + 1] as int, index)
    &&& opcode == 231 ==> exists|index: int| #[trigger]
        map_tells(memory, pool, layout, native_pair(code, bci + 1), index)
}

/// An instruction of a linked class is restored if it can be, and only if; what comes out is what it
/// stands for.
pub proof fn linked_instruction_is_restored(
    memory: Contents,
    pool: u64,
    layout: Layout,
    cache: u64,
    code: Seq<u8>,
    bci: int,
)
    requires
        0 <= bci,
        instruction_size(code, bci) matches Ok(size) && bci + size <= code.len(),
        u64_at(memory, pool.wrapping_add(layout.cp_cache)) == Ok::<u64, Seq<char>>(cache),
        cache != 0,
    ensures
        ({
            let (out, outcome) = restored_instruction(memory, pool, layout, cache, code, bci);
            &&& outcome is Ok <==> can_be_restored(memory, pool, layout, cache, code, bci)
            &&& outcome is Ok ==> is_what_it_stands_for(
                memory,
                pool,
                layout,
                cache,
                code,
                out,
                bci,
                instruction_size(code, bci)->Ok_0,
            )
        }),
{
    reveal(restored_instruction);
    let opcode = code[bci];
    let size = instruction_size(code, bci)->Ok_0;
    let (out, outcome) = restored_instruction(memory, pool, layout, cache, code, bci);
    if let Some(behind) = member_operand(opcode) {
        let at = bci + behind;
        let entry = native_pair(code, at);
        assert(code.subrange(at, at + 2)[0] == code[at]);
        assert(code.subrange(at, at + 2)[1] == code[at + 1]);
        if outcome is Ok {
            assert(cache_tells(memory, pool, layout, entry, class_file_pair(out, at)));
        }
        if exists|index: int| #[trigger] cache_tells(memory, pool, layout, entry, index) {
            assert(outcome is Ok);
        }
    } else if opcode == 186 {
        let word = code.subrange(bci + 1, bci + 5);
        assert(word[0] == code[bci + 1]);
        assert(word[1] == code[bci + 2]);
        assert(word[2] == code[bci + 3]);
        assert(word[3] == code[bci + 4]);
        let raw = native_word(code, bci + 1);
        if let Ok(length) = u32_at(memory, cache.wrapping_add(layout.cache_length)) {
            assert(cache_has(memory, cache, layout, length));
            if outcome is Ok {
                assert(cache_tells(
                    memory,
                    pool,
                    layout,
                    dynamic_entry(raw, length),
                    class_file_pair(out, bci + 1),
                ));
            }
        }
    } else if opcode == 230 {
        if let Ok(index) = super::bytecode::mapped_cp_index(
            memory,
            pool,
            code[bci + 1] as u16,
            layout,
        ) {
            assert(map_tells(memory, pool, layout, code[bci + 1] as int, index as int));
        }
    } else if opcode == 231 {
        assert(code.subrange(bci + 1, bci + 3)[0] == code[bci + 1]);
        assert(code.subrange(bci + 1, bci + 3)[1] == code[bci + 2]);
        if let Ok(index) = super::bytecode::mapped_cp_index(
            memory,
            pool,
            native_pair(code, bci + 1) as u16,
            layout,
        ) {
            assert(map_tells(memory, pool, layout, native_pair(code, bci + 1), index as int));
            if outcome is Ok {
                assert(class_file_pair(out, bci + 1) == index);
            }
        }
    }
}

/// Whether every instruction of `code` from `bci` on, whole and in a linked class, stands in `out` as
/// what it stands for.
pub open spec fn each_is_restored(
    memory: Contents,
    pool: u64,
    layout: Layout,
    cache: u64,
    code: Seq<u8>,
    out: Seq<u8>,
    bci: int,
) -> bool
    decreases code.len() - bci,
{
    bci < code.len() ==> {
        &&& instruction_size(code, bci) matches Ok(size)
        &&& 1 <= size <= code.len() - bci
        &&& is_what_it_stands_for(memory, pool, layout, cache, code, out, bci, size)
        &&& each_is_restored(memory, pool, layout, cache, code, out, bci + size)
    }
}

/// Whether `code` is, from `bci` on, a run of whole instructions each of which can be restored.
pub open spec fn each_can_be_restored(
    memory: Contents,
    pool: u64,
    layout: Layout,
    cache: u64,
    code: Seq<u8>,
    bci: int,
) -> bool
    decreases code.len() - bci,
{
    bci < code.len() ==> {
        &&& instruction_size(code, bci) matches Ok(size)
        &&& 1 <= size <= code.len() - bci
        &&& can_be_restored(memory, pool, layout, cache, code, bci)
        &&& each_can_be_restored(memory, pool, layout, cache, code, bci + size)
    }
}

/// What a run of instructions is depends on its own bytes alone.
proof fn runs_are_local(
    memory: Contents,
    pool: u64,
    layout: Layout,
    cache: u64,
    left: Seq<u8>,
    right: Seq<u8>,
    out: Seq<u8>,
    bci: int,
)
    requires
        0 <= bci,
        left.len() == right.len(),
        forall|i: int| bci <= i < left.len() ==> left[i] == right[i],
    ensures
        each_can_be_restored(memory, pool, layout, cache, left, bci) ==> each_can_be_restored(
            memory,
            pool,
            layout,
            cache,
            right,
            bci,
        ),
        each_is_restored(memory, pool, layout, cache, left, out, bci) ==> each_is_restored(
            memory,
            pool,
            layout,
            cache,
            right,
            out,
            bci,
        ),
    decreases left.len() - bci,
{
    if bci < left.len() {
        if let Ok(size) = instruction_size(left, bci) {
            if 1 <= size <= left.len() - bci {
                size_is_local(left, right, bci);
                runs_are_local(memory, pool, layout, cache, left, right, out, bci + size);
                if can_be_restored(memory, pool, layout, cache, left, bci) {
                    same_bytes_are_restored_alike(
                        memory,
                        pool,
                        layout,
                        cache,
                        left,
                        right,
                        out,
                        out,
                        bci,
                        size,
                    );
                }
                if is_what_it_stands_for(memory, pool, layout, cache, left, out, bci, size) {
                    same_bytes_are_restored_alike(
                        memory,
                        pool,
                        layout,
                        cache,
                        left,
                        right,
                        out,
                        out,
                        bci,
                        size,
                    );
                }
            }
        }
    }
}

/// What an instruction stands for depends on its own bytes alone.
proof fn same_bytes_are_restored_alike(
    memory: Contents,
    pool: u64,
    layout: Layout,
    cache: u64,
    left: Seq<u8>,
    right: Seq<u8>,
    out: Seq<u8>,
    other: Seq<u8>,
    bci: int,
    size: int,
)
    requires
        0 <= bci,
        instruction_size(left, bci) == Ok::<int, Seq<char>>(size),
        bci + size <= left.len(),
        forall|i: int| bci <= i < bci + size ==> left[i] == right[i],
        forall|i: int| bci <= i < bci + size ==> out[i] == other[i],
    ensures
        can_be_restored(memory, pool, layout, cache, left, bci) ==> can_be_restored(
            memory,
            pool,
            layout,
            cache,
            right,
            bci,
        ),
        is_what_it_stands_for(memory, pool, layout, cache, left, out, bci, size)
            ==> is_what_it_stands_for(memory, pool, layout, cache, right, other, bci, size),
{
    let opcode = left[bci];
    assert(opcode == right[bci]);
    if let Some(behind) = member_operand(opcode) {
        assert(behind + 2 <= size);
        assert(native_pair(left, bci + behind) == native_pair(right, bci + behind));
        assert(class_file_pair(out, bci + behind) == class_file_pair(other, bci + behind));
    }
    if opcode == 186 {
        assert(native_word(left, bci + 1) == native_word(right, bci + 1));
        assert(class_file_pair(out, bci + 1) == class_file_pair(other, bci + 1));
    }
    if opcode == 231 {
        assert(native_pair(left, bci + 1) == native_pair(right, bci + 1));
        assert(class_file_pair(out, bci + 1) == class_file_pair(other, bci + 1));
    }
    if is_what_it_stands_for(memory, pool, layout, cache, left, out, bci, size) {
        assert forall|i: int| bci < i < bci + size implies #[trigger] other[i] == right[i]
            || is_overwritten(opcode, i - bci) by {
            assert(out[i] == left[i] || is_overwritten(opcode, i - bci));
        }
    }
}

proof fn linked_run_is_restored(
    memory: Contents,
    pool: u64,
    layout: Layout,
    cache: u64,
    code: Seq<u8>,
    bci: nat,
)
    requires
        bci <= code.len(),
        u64_at(memory, pool.wrapping_add(layout.cp_cache)) == Ok::<u64, Seq<char>>(cache),
        cache != 0,
    ensures
        ({
            let (out, outcome) = restored_from(memory, pool, layout, cache, code, bci);
            &&& outcome is Ok <==> each_can_be_restored(
                memory,
                pool,
                layout,
                cache,
                code,
                bci as int,
            )
            &&& outcome is Ok ==> each_is_restored(
                memory,
                pool,
                layout,
                cache,
                code,
                out,
                bci as int,
            )
            &&& out.len() == code.len()
            &&& forall|i: int| 0 <= i < bci ==> out[i] == code[i]
        }),
    decreases code.len() - bci,
{
    if bci < code.len() {
        if let Ok(size) = instruction_size(code, bci as int) {
            if bci + size <= code.len() {
                instruction_has_length(code, bci as int);
                linked_instruction_is_restored(memory, pool, layout, cache, code, bci as int);
                restoring_keeps_length(memory, pool, layout, cache, code, bci as int);
                restoring_is_local(memory, pool, layout, cache, code, bci as int);
                let (next, step) = restored_instruction(
                    memory,
                    pool,
                    layout,
                    cache,
                    code,
                    bci as int,
                );
                if step is Ok {
                    linked_run_is_restored(memory, pool, layout, cache, next, (bci + size) as nat);
                    let out = restored_from(
                        memory,
                        pool,
                        layout,
                        cache,
                        next,
                        (bci + size) as nat,
                    ).0;
                    runs_are_local(memory, pool, layout, cache, next, code, out, bci + size);
                    runs_are_local(memory, pool, layout, cache, code, next, out, bci + size);
                    same_bytes_are_restored_alike(
                        memory,
                        pool,
                        layout,
                        cache,
                        code,
                        code,
                        next,
                        out,
                        bci as int,
                        size,
                    );
                    assert forall|i: int| 0 <= i < bci implies out[i] == code[i] by {
                        assert(next[i] == code[i]);
                    }
                }
            }
        }
    }
}

/// The code of a linked class is restored if and only if it is a run of whole instructions each of
/// which can be restored. Then each stands in the result as what it stands for.
pub proof fn linked_code_is_restored(
    memory: Contents,
    pool: u64,
    layout: Layout,
    cache: u64,
    code: Seq<u8>,
)
    requires
        u64_at(memory, pool.wrapping_add(layout.cp_cache)) == Ok::<u64, Seq<char>>(cache),
        cache != 0,
    ensures
        ({
            let (out, outcome) = restored_code(memory, pool, layout, code);
            &&& outcome is Ok <==> each_can_be_restored(memory, pool, layout, cache, code, 0)
            &&& outcome is Ok ==> each_is_restored(memory, pool, layout, cache, code, out, 0)
            &&& out.len() == code.len()
        }),
{
    linked_run_is_restored(memory, pool, layout, cache, code, 0);
}

/// Whether `code` is, from `bci` on, a run of whole instructions that a class file may hold: none is
/// HotSpot's own or a breakpoint, and the last two bytes of an `invokedynamic` are zero.
pub open spec fn each_is_plain(code: Seq<u8>, bci: int) -> bool
    decreases code.len() - bci,
{
    bci < code.len() ==> {
        &&& instruction_size(code, bci) matches Ok(size)
        &&& 1 <= size <= code.len() - bci
        &&& code[bci] < 202
        &&& code[bci] == 186 ==> code[bci + 3] == 0 && code[bci + 4] == 0
        &&& each_is_plain(code, bci + size)
    }
}

proof fn unlinked_run_is_plain(
    memory: Contents,
    pool: u64,
    layout: Layout,
    code: Seq<u8>,
    bci: nat,
)
    ensures
        restored_from(memory, pool, layout, 0, code, bci).1 is Ok <==> each_is_plain(
            code,
            bci as int,
        ),
    decreases code.len() - bci,
{
    reveal(restored_instruction);
    if bci < code.len() {
        if let Ok(size) = instruction_size(code, bci as int) {
            if bci + size <= code.len() {
                instruction_has_length(code, bci as int);
                unlinked_run_is_plain(memory, pool, layout, code, (bci + size) as nat);
            }
        }
    }
}

/// The code of a class that was never linked is accepted if and only if a class file may hold it.
pub proof fn unlinked_code_is_plain(memory: Contents, pool: u64, layout: Layout, code: Seq<u8>)
    requires
        u64_at(memory, pool.wrapping_add(layout.cp_cache)) == Ok::<u64, Seq<char>>(0),
    ensures
        restored_code(memory, pool, layout, code).1 is Ok <==> each_is_plain(code, 0),
{
    unlinked_run_is_plain(memory, pool, layout, code, 0);
}

/// How many bytes of operands follow an opcode of the class file; `None` where that depends on the
/// operands, and for an opcode that is none of the class file's.
pub open spec fn operand_bytes(opcode: u8) -> Option<int> {
    if opcode > 201 || opcode == 170 || opcode == 171 || opcode == 196 {
        None
    } else if names_a_local(opcode) || opcode == 16 || opcode == 18 || opcode == 188 {
        Some(1)
    } else if opcode == 185 || opcode == 186 || opcode == 200 || opcode == 201 {
        Some(4)
    } else if opcode == 197 {
        Some(3)
    } else if branches(opcode) || refers_to_the_pool(opcode) || opcode == 17 || opcode == 132 {
        Some(2)
    } else {
        Some(0)
    }
}

/// The loads, stores and `ret` that name a local variable in an operand.
pub open spec fn names_a_local(opcode: u8) -> bool {
    20 < opcode < 26 || 53 < opcode < 59 || opcode == 169
}

/// The jumps with an offset of two bytes.
pub open spec fn branches(opcode: u8) -> bool {
    152 < opcode < 169 || opcode == 198 || opcode == 199
}

/// The instructions with a constant-pool index of two bytes and nothing else.
pub open spec fn refers_to_the_pool(opcode: u8) -> bool {
    opcode == 19 || opcode == 20 || 177 < opcode < 185 || opcode == 187 || opcode == 189 || opcode
        == 192 || opcode == 193
}

/// Four bytes as a class file has them, taken as signed.
pub open spec fn class_file_word(code: Seq<u8>, at: int) -> int {
    let word = 0x1_0000 * class_file_pair(code, at) + class_file_pair(code, at + 2);
    if code[at] < 0x80 {
        word
    } else {
        word - 0x1_0000_0000
    }
}

/// Whether the words of a switch at `at` start at `start`: at the first multiple of four behind the
/// opcode.
pub open spec fn switch_starts(at: int, start: int) -> bool {
    at < start <= at + 4 && start % 4 == 0
}

/// An instruction of the class file is as long as its opcode and operands; one of HotSpot's own is as
/// long as the instructions that it stands for. A `wide` is as long as the instruction that it widens
/// and once more its operands. A switch holds its words from the first multiple of four on: a default,
/// the two bounds or the number of pairs, and one word for each value or two for each pair.
pub proof fn instruction_is_as_long_as_its_operands(code: Seq<u8>, at: int, start: int)
    requires
        0 <= at < code.len(),
        switch_starts(at, start),
    ensures
        operand_bytes(code[at]) matches Some(operands) ==> instruction_size(code, at) == Ok::<
            int,
            Seq<char>,
        >(1 + operands),
        ({
            let first = standard_opcode(code[at]);
            &&& code[at] > 202 && operand_bytes(first) is Some && second_opcode(code[at]) is None
                ==> instruction_size(code, at) == Ok::<int, Seq<char>>(
                1 + operand_bytes(first)->Some_0,
            )
            &&& second_opcode(code[at]) matches Some((behind, second)) ==> behind == 1
                + operand_bytes(first)->Some_0 && instruction_size(code, at) == Ok::<
                int,
                Seq<char>,
            >(behind + 1 + operand_bytes(second)->Some_0)
        }),
        code[at] > 233 ==> instruction_size(code, at) is Err,
        code[at] == 196 && at + 1 < code.len() ==> instruction_size(code, at) == Ok::<
            int,
            Seq<char>,
        >(
            if code[at + 1] == 132 {
                6
            } else {
                4
            },
        ),
        code[at] == 170 && start + 12 <= code.len() ==> {
            let low = class_file_word(code, start + 4);
            let high = class_file_word(code, start + 8);
            if low <= high <= low + 65535 {
                instruction_size(code, at) == Ok::<int, Seq<char>>(
                    start + 12 + 4 * (high - low + 1) - at,
                )
            } else {
                instruction_size(code, at) is Err
            }
        },
        standard_opcode(code[at]) == 171 && start + 8 <= code.len() ==> {
            let pairs = class_file_word(code, start + 4);
            if 0 <= pairs <= 65535 {
                instruction_size(code, at) == Ok::<int, Seq<char>>(start + 8 + 8 * pairs - at)
            } else {
                instruction_size(code, at) is Err
            }
        },
        code[at] == 196 && at + 1 == code.len() ==> instruction_size(code, at) is Err,
        code[at] == 170 && start + 12 > code.len() ==> instruction_size(code, at) is Err,
        standard_opcode(code[at]) == 171 && start + 8 > code.len() ==> instruction_size(
            code,
            at,
        ) is Err,
{
    assert(start == at + 4 - at % 4);
    if start + 8 <= code.len() {
        let word = code.subrange(start + 4, start + 8);
        assert(word[0] == code[start + 4] && word[1] == code[start + 5] && word[2] == code[start
            + 6] && word[3] == code[start + 7]);
    }
    if start + 12 <= code.len() {
        let word = code.subrange(start + 8, start + 12);
        assert(word[0] == code[start + 8] && word[1] == code[start + 9] && word[2] == code[start
            + 10] && word[3] == code[start + 11]);
    }
}

} // verus!
