//! Restoring the bytecodes that HotSpot rewrites when it links a class.
use vstd::prelude::*;

use super::Layout;
use crate::bytes::{be32, get_be32, get_le16, get_le32, le16, le32};
use crate::platform::{u16_at, u32_at, u64_at, Contents, RemoteMemory};
use crate::text::{decimal_digits, decimal_text, joined, seen, Error, Outcome};

verus! {

/// The constant-pool index that entry `cache_index` of a pool's cache stands for.
pub open spec fn cached_cp_index(
    memory: Contents,
    constant_pool: u64,
    cache_index: u32,
    layout: Layout,
) -> Outcome<u16> {
    match u64_at(memory, constant_pool.wrapping_add(layout.cp_cache)) {
        Err(reason) => Err(reason),
        Ok(cache) => if cache == 0 {
            Err("rewritten bytecode without ConstantPoolCache"@)
        } else {
            match u32_at(memory, cache.wrapping_add(layout.cache_length)) {
                Err(reason) => Err(reason),
                Ok(length) => if cache_index >= length {
                    Err(
                        "constant-pool cache index "@ + decimal_digits(cache_index as nat) + " >= "@
                            + decimal_digits(length as nat),
                    )
                } else {
                    let entry = cache.wrapping_add(layout.cache_header_size).wrapping_add(
                        (cache_index as u64).wrapping_mul(layout.cache_entry_size),
                    );
                    match u64_at(memory, entry.wrapping_add(layout.cache_entry_indices)) {
                        Err(reason) => Err(reason),
                        Ok(indices) => Ok((indices % 0x1_0000) as u16),
                    }
                },
            }
        },
    }
}

/// The constant-pool index that entry `index` of a pool's reference map stands for.
pub open spec fn mapped_cp_index(
    memory: Contents,
    constant_pool: u64,
    index: u16,
    layout: Layout,
) -> Outcome<u16> {
    match u64_at(memory, constant_pool.wrapping_add(layout.cp_reference_map)) {
        Err(reason) => Err(reason),
        Ok(map) => if map == 0 {
            Err("fast ldc without reference map"@)
        } else {
            match u32_at(memory, map.wrapping_add(layout.array_len)) {
                Err(reason) => Err(reason),
                Ok(length) => if index >= length {
                    Err("reference-map index out of range"@)
                } else {
                    u16_at(memory, map.wrapping_add(4).wrapping_add((index * 2) as u64))
                },
            }
        },
    }
}

/// The value of a 32-bit word taken as signed.
pub open spec fn signed32(word: u32) -> int {
    if word < 0x8000_0000 {
        word as int
    } else {
        word - 0x1_0000_0000
    }
}

/// Whether four bytes stand at `position`.
pub open spec fn has_word(code: Seq<u8>, position: int) -> bool {
    position + 4 <= code.len()
}

/// The signed word at `position`.
pub open spec fn word_at(code: Seq<u8>, position: int) -> int {
    signed32(be32(code.subrange(position, position + 4)))
}

/// The length of the `tableswitch` or `lookupswitch` at `at`, whose operands start at the next
/// multiple of four.
pub open spec fn switch_size(code: Seq<u8>, at: int, table: bool) -> Outcome<int> {
    let aligned = at + 4 - at % 4;
    if !has_word(code, aligned + 4) {
        Err("truncated switch"@)
    } else if table {
        let low = word_at(code, aligned + 4);
        if !has_word(code, aligned + 8) {
            Err("truncated switch"@)
        } else {
            let high = word_at(code, aligned + 8);
            if high < low || high - low > 65535 {
                Err("invalid tableswitch"@)
            } else {
                Ok(aligned - at + (3 + (high - low + 1)) * 4)
            }
        }
    } else {
        let pairs = word_at(code, aligned + 4);
        if !(0 <= pairs <= 65535) {
            Err("invalid lookupswitch"@)
        } else {
            Ok(aligned - at + (2 + pairs * 2) * 4)
        }
    }
}

/// The length of the instruction at `at`, HotSpot's own ones among them.
pub open spec fn instruction_size(code: Seq<u8>, at: int) -> Outcome<int> {
    let opcode = code[at];
    if opcode == 16 || opcode == 18 || 21 <= opcode <= 25 || 54 <= opcode <= 58 || opcode == 169
        || opcode == 188 || opcode == 224 || opcode == 230 {
        Ok(2)
    } else if opcode == 17 || opcode == 19 || opcode == 20 || opcode == 132 || 153 <= opcode <= 168
        || 178 <= opcode <= 184 || opcode == 187 || opcode == 189 || opcode == 192 || opcode == 193
        || opcode == 198 || opcode == 199 || 203 <= opcode <= 219 || opcode == 227 || opcode == 231
        || opcode == 233 {
        Ok(3)
    } else if opcode == 197 || 221 <= opcode <= 223 {
        Ok(4)
    } else if opcode == 185 || opcode == 186 || opcode == 200 || opcode == 201 {
        Ok(5)
    } else if opcode == 196 {
        if at + 1 >= code.len() {
            Err("truncated wide"@)
        } else if code[at + 1] == 132 {
            Ok(6)
        } else {
            Ok(4)
        }
    } else if opcode == 170 {
        switch_size(code, at, true)
    } else if opcode == 171 || opcode == 228 || opcode == 229 {
        switch_size(code, at, false)
    } else if opcode == 225 {
        Ok(4)
    } else if opcode == 226 {
        Ok(3)
    } else if opcode <= 233 {
        Ok(1)
    } else {
        Err("invalid bytecode "@ + decimal_digits(opcode as nat))
    }
}

/// `code` with the two bytes of `value` at `at`, most significant first.
pub open spec fn with_u2(code: Seq<u8>, at: int, value: u16) -> Seq<u8> {
    code.update(at, (value / 0x100) as u8).update(at + 1, (value % 0x100) as u8)
}

/// `code` with the cache index at `at` replaced by the constant-pool index that it stands for.
pub open spec fn with_member(
    memory: Contents,
    constant_pool: u64,
    layout: Layout,
    code: Seq<u8>,
    at: int,
) -> (Seq<u8>, Outcome<()>) {
    let index = le16(code.subrange(at, at + 2)) as u32;
    match cached_cp_index(memory, constant_pool, index, layout) {
        Err(reason) => (code, Err(reason)),
        Ok(original) => (with_u2(code, at, original), Ok(())),
    }
}

/// A message that names the bytecode index it is about.
pub open spec fn at_bci(message: Seq<char>, bci: int) -> Seq<char> {
    message + " at bci "@ + decimal_digits(bci as nat)
}

/// The code after the rewritten `invokedynamic` at `bci` was restored, and how that went.
pub open spec fn restored_invokedynamic(
    memory: Contents,
    constant_pool: u64,
    layout: Layout,
    cache: u64,
    code: Seq<u8>,
    bci: int,
) -> (Seq<u8>, Outcome<()>) {
    let raw = le32(code.subrange(bci + 1, bci + 5));
    match u32_at(memory, cache.wrapping_add(layout.cache_length)) {
        Err(reason) => (code, Err(reason)),
        Ok(cache_length) => {
            let index = if raw < cache_length {
                raw
            } else {
                (0xffff_ffff - raw) as u32
            };
            match cached_cp_index(memory, constant_pool, index, layout) {
                Err(reason) => (code, Err(reason)),
                Ok(original) => (
                    with_u2(code, bci + 1, original).update(bci + 3, 0).update(bci + 4, 0),
                    Ok(()),
                ),
            }
        },
    }
}

/// An instruction is at least one byte long.
pub proof fn instruction_has_length(code: Seq<u8>, at: int)
    ensures
        instruction_size(code, at) matches Ok(size) ==> size >= 1,
{
}

/// Restoring an instruction keeps the length of the code.
pub proof fn restoring_keeps_length(
    memory: Contents,
    constant_pool: u64,
    layout: Layout,
    cache: u64,
    code: Seq<u8>,
    bci: int,
)
    requires
        0 <= bci,
        instruction_size(code, bci) matches Ok(size) && bci + size <= code.len(),
    ensures
        restored_instruction(memory, constant_pool, layout, cache, code, bci).0.len() == code.len(),
{
    reveal(restored_instruction);
}

/// The code after the instruction at `bci` was restored, and how that went. `cache` is the
/// address of the pool's cache: the code was rewritten when there is one.
#[verifier::opaque]
pub open spec fn restored_instruction(
    memory: Contents,
    constant_pool: u64,
    layout: Layout,
    cache: u64,
    code: Seq<u8>,
    bci: int,
) -> (Seq<u8>, Outcome<()>) {
    let opcode = code[bci];
    let rewritten = cache != 0;
    if 203 <= opcode <= 233 && !rewritten {
        (
            code,
            Err(
                at_bci(
                    "HotSpot fast bytecode "@ + decimal_digits(opcode as nat)
                        + " without ConstantPoolCache"@,
                    bci,
                ),
            ),
        )
    } else if 178 <= opcode <= 185 && rewritten {
        with_member(memory, constant_pool, layout, code, bci + 1)
    } else if opcode == 186 && rewritten {
        restored_invokedynamic(memory, constant_pool, layout, cache, code, bci)
    } else if opcode == 186 {
        if code[bci + 3] != 0 || code[bci + 4] != 0 {
            (code, Err(at_bci("unrewritten invokedynamic has non-zero reserved bytes"@, bci)))
        } else {
            (code, Ok(()))
        }
    } else if 203 <= opcode <= 210 {
        with_member(memory, constant_pool, layout, code.update(bci, 180), bci + 1)
    } else if 211 <= opcode <= 219 {
        with_member(memory, constant_pool, layout, code.update(bci, 181), bci + 1)
    } else if opcode == 220 {
        (code.update(bci, 42), Ok(()))
    } else if 221 <= opcode <= 223 {
        with_member(
            memory,
            constant_pool,
            layout,
            code.update(bci, 42).update(bci + 1, 180),
            bci + 2,
        )
    } else if opcode == 224 {
        (code.update(bci, 21), Ok(()))
    } else if opcode == 225 {
        (code.update(bci, 21).update(bci + 2, 21), Ok(()))
    } else if opcode == 226 {
        (code.update(bci, 21).update(bci + 2, 52), Ok(()))
    } else if opcode == 227 || opcode == 233 {
        with_member(memory, constant_pool, layout, code.update(bci, 182), bci + 1)
    } else if opcode == 228 || opcode == 229 {
        (code.update(bci, 171), Ok(()))
    } else if opcode == 230 {
        let renamed = code.update(bci, 18);
        match mapped_cp_index(memory, constant_pool, code[bci + 1] as u16, layout) {
            Err(reason) => (renamed, Err(reason)),
            Ok(original) => (renamed.update(bci + 1, (original % 0x100) as u8), Ok(())),
        }
    } else if opcode == 231 {
        let renamed = code.update(bci, 19);
        let index = le16(code.subrange(bci + 1, bci + 3));
        match mapped_cp_index(memory, constant_pool, index, layout) {
            Err(reason) => (renamed, Err(reason)),
            Ok(original) => (with_u2(renamed, bci + 1, original), Ok(())),
        }
    } else if opcode == 232 {
        (code.update(bci, 177), Ok(()))
    } else if opcode == 202 {
        (code, Err(at_bci("active breakpoint"@, bci)))
    } else {
        (code, Ok(()))
    }
}

/// The code after the instructions from `bci` on were restored, and how that went.
pub open spec fn restored_from(
    memory: Contents,
    constant_pool: u64,
    layout: Layout,
    cache: u64,
    code: Seq<u8>,
    bci: nat,
) -> (Seq<u8>, Outcome<()>)
    decreases code.len() - bci,
{
    if bci >= code.len() {
        (code, Ok(()))
    } else {
        match instruction_size(code, bci as int) {
            Err(reason) => (code, Err(reason)),
            Ok(size) => if bci + size > code.len() {
                (code, Err(at_bci("truncated bytecode"@, bci as int)))
            } else {
                let (restored, outcome) = restored_instruction(
                    memory,
                    constant_pool,
                    layout,
                    cache,
                    code,
                    bci as int,
                );
                proof {
                    instruction_has_length(code, bci as int);
                    restoring_keeps_length(memory, constant_pool, layout, cache, code, bci as int);
                }
                match outcome {
                    Err(reason) => (restored, Err(reason)),
                    Ok(_) => restored_from(
                        memory,
                        constant_pool,
                        layout,
                        cache,
                        restored,
                        (bci + size) as nat,
                    ),
                }
            },
        }
    }
}

/// The code after restoration, and how that went.
pub open spec fn restored_code(
    memory: Contents,
    constant_pool: u64,
    layout: Layout,
    code: Seq<u8>,
) -> (Seq<u8>, Outcome<()>) {
    match u64_at(memory, constant_pool.wrapping_add(layout.cp_cache)) {
        Err(reason) => (code, Err(reason)),
        Ok(cache) => restored_from(memory, constant_pool, layout, cache, code, 0),
    }
}

fn cache_cp_index<M: RemoteMemory>(
    memory: &M,
    constant_pool: u64,
    cache_index: u32,
    layout: &Layout,
) -> (result: Result<u16, Error>)
    ensures
        seen(result) == cached_cp_index(memory.contents(), constant_pool, cache_index, *layout),
{
    let cache = memory.read_u64(constant_pool.wrapping_add(layout.cp_cache))?;
    if cache == 0 {
        return Err(Error::new("rewritten bytecode without ConstantPoolCache"));
    }
    let length = memory.read_u32(cache.wrapping_add(layout.cache_length))?;
    if cache_index >= length {
        let mut text = joined(
            "constant-pool cache index ",
            decimal_text(cache_index as u64).as_str(),
        );
        text = joined(text.as_str(), " >= ");
        text = joined(text.as_str(), decimal_text(length as u64).as_str());
        return Err(Error { text });
    }
    let entry = cache.wrapping_add(layout.cache_header_size).wrapping_add(
        (cache_index as u64).wrapping_mul(layout.cache_entry_size),
    );
    let indices = memory.read_u64(entry.wrapping_add(layout.cache_entry_indices))?;
    Ok((indices % 0x1_0000) as u16)
}

fn reference_cp_index<M: RemoteMemory>(
    memory: &M,
    constant_pool: u64,
    index: u16,
    layout: &Layout,
) -> (result: Result<u16, Error>)
    ensures
        seen(result) == mapped_cp_index(memory.contents(), constant_pool, index, *layout),
{
    let map = memory.read_u64(constant_pool.wrapping_add(layout.cp_reference_map))?;
    if map == 0 {
        return Err(Error::new("fast ldc without reference map"));
    }
    let length = memory.read_u32(map.wrapping_add(layout.array_len))?;
    if index as u32 >= length {
        return Err(Error::new("reference-map index out of range"));
    }
    memory.read_u16(map.wrapping_add(4).wrapping_add(index as u64 * 2))
}

fn signed_word(code: &[u8], position: usize) -> (word: i64)
    requires
        position + 4 <= code.len(),
    ensures
        word == word_at(code@, position as int),
{
    let word = get_be32(code, position);
    if word < 0x8000_0000 {
        word as i64
    } else {
        word as i64 - 0x1_0000_0000
    }
}

fn switch_length(code: &[u8], at: usize, table: bool) -> (result: Result<usize, Error>)
    requires
        at < code.len(),
    ensures
        match switch_size(code@, at as int, table) {
            Err(reason) => result matches Err(error) && error@ == reason,
            Ok(size) => result matches Ok(length) && length == size,
        },
{
    let padding: usize = 4 - at % 4;
    let rest: usize = code.len() - at;
    if rest < padding + 8 {
        return Err(Error::new("truncated switch"));
    }
    let first = signed_word(code, at + padding + 4);
    if table {
        if rest < padding + 12 {
            return Err(Error::new("truncated switch"));
        }
        let high = signed_word(code, at + padding + 8);
        if high < first || high - first > 65535 {
            return Err(Error::new("invalid tableswitch"));
        }
        Ok(padding + (3 + (high - first + 1) as usize) * 4)
    } else {
        if first < 0 || first > 65535 {
            return Err(Error::new("invalid lookupswitch"));
        }
        Ok(padding + (2 + first as usize * 2) * 4)
    }
}

fn bytecode_length(code: &[u8], at: usize) -> (result: Result<usize, Error>)
    requires
        at < code.len(),
    ensures
        match instruction_size(code@, at as int) {
            Err(reason) => result matches Err(error) && error@ == reason,
            Ok(size) => result matches Ok(length) && length == size,
        },
{
    let opcode = code[at];
    match opcode {
        16 | 18 | 21..=25 | 54..=58 | 169 | 188 | 224 | 230 => Ok(2),
        17
        | 19
        | 20
        | 132
        | 153..=168
        | 178..=184
        | 187
        | 189
        | 192
        | 193
        | 198
        | 199
        | 203..=219
        | 227
        | 231
        | 233 => Ok(3),
        197 | 221..=223 => Ok(4),
        185 | 186 | 200 | 201 => Ok(5),
        196 => {
            if at + 1 >= code.len() {
                Err(Error::new("truncated wide"))
            } else if code[at + 1] == 132 {
                Ok(6)
            } else {
                Ok(4)
            }
        },
        170 => switch_length(code, at, true),
        171 | 228 | 229 => switch_length(code, at, false),
        225 => Ok(4),
        226 => Ok(3),
        _ => if opcode <= 233 {
            Ok(1)
        } else {
            Err(Error { text: joined("invalid bytecode ", decimal_text(opcode as u64).as_str()) })
        },
    }
}

fn put_u2(code: &mut [u8], at: usize, value: u16)
    requires
        at + 2 <= old(code).len(),
    ensures
        final(code)@ == with_u2(old(code)@, at as int, value),
{
    code[at] = (value / 0x100) as u8;
    code[at + 1] = (value % 0x100) as u8;
}

fn restore_cache_u2<M: RemoteMemory>(
    memory: &M,
    constant_pool: u64,
    layout: &Layout,
    code: &mut [u8],
    at: usize,
) -> (result: Result<(), Error>)
    requires
        at + 2 <= old(code).len(),
    ensures
        (final(code)@, seen(result)) == with_member(
            memory.contents(),
            constant_pool,
            *layout,
            old(code)@,
            at as int,
        ),
{
    let index = get_le16(code, at) as u32;
    let original = cache_cp_index(memory, constant_pool, index, layout)?;
    put_u2(code, at, original);
    Ok(())
}

fn bci_error(message: &str, bci: usize) -> (error: Error)
    ensures
        error@ == at_bci(message@, bci as int),
{
    let text = joined(message, " at bci ");
    Error { text: joined(text.as_str(), decimal_text(bci as u64).as_str()) }
}

/// Restores one instruction.
fn restore_instruction<M: RemoteMemory>(
    memory: &M,
    constant_pool: u64,
    layout: &Layout,
    cache: u64,
    code: &mut [u8],
    bci: usize,
) -> (result: Result<(), Error>)
    requires
        bci < old(code).len(),
        instruction_size(old(code)@, bci as int) matches Ok(size) && bci + size <= old(code).len(),
    ensures
        (final(code)@, seen(result)) == restored_instruction(
            memory.contents(),
            constant_pool,
            *layout,
            cache,
            old(code)@,
            bci as int,
        ),
{
    proof {
        reveal(restored_instruction);
    }
    let opcode = code[bci];
    let rewritten = cache != 0;
    if 203 <= opcode && opcode <= 233 && !rewritten {
        let mut text = joined("HotSpot fast bytecode ", decimal_text(opcode as u64).as_str());
        text = joined(text.as_str(), " without ConstantPoolCache");
        return Err(bci_error(text.as_str(), bci));
    }
    match opcode {
        178..=185 => if rewritten {
            restore_cache_u2(memory, constant_pool, layout, code, bci + 1)
        } else {
            Ok(())
        },
        186 => if rewritten {
            let raw = get_le32(code, bci + 1);
            let cache_length = memory.read_u32(cache.wrapping_add(layout.cache_length))?;
            let index = if raw < cache_length {
                raw
            } else {
                0xffff_ffff - raw
            };
            let cp_index = cache_cp_index(memory, constant_pool, index, layout)?;
            put_u2(code, bci + 1, cp_index);
            code[bci + 3] = 0;
            code[bci + 4] = 0;
            Ok(())
        } else if code[bci + 3] != 0 || code[bci + 4] != 0 {
            Err(bci_error("unrewritten invokedynamic has non-zero reserved bytes", bci))
        } else {
            Ok(())
        },
        203..=210 => {
            code[bci] = 180;
            restore_cache_u2(memory, constant_pool, layout, code, bci + 1)
        },
        211..=219 => {
            code[bci] = 181;
            restore_cache_u2(memory, constant_pool, layout, code, bci + 1)
        },
        220 => {
            code[bci] = 42;
            Ok(())
        },
        221..=223 => {
            code[bci] = 42;
            code[bci + 1] = 180;
            restore_cache_u2(memory, constant_pool, layout, code, bci + 2)
        },
        224 => {
            code[bci] = 21;
            Ok(())
        },
        225 => {
            code[bci] = 21;
            code[bci + 2] = 21;
            Ok(())
        },
        226 => {
            code[bci] = 21;
            code[bci + 2] = 52;
            Ok(())
        },
        227 | 233 => {
            code[bci] = 182;
            restore_cache_u2(memory, constant_pool, layout, code, bci + 1)
        },
        228 | 229 => {
            code[bci] = 171;
            Ok(())
        },
        230 => {
            let index = code[bci + 1] as u16;
            code[bci] = 18;
            let original = reference_cp_index(memory, constant_pool, index, layout)?;
            code[bci + 1] = (original % 0x100) as u8;
            Ok(())
        },
        231 => {
            let index = get_le16(code, bci + 1);
            code[bci] = 19;
            let original = reference_cp_index(memory, constant_pool, index, layout)?;
            put_u2(code, bci + 1, original);
            Ok(())
        },
        232 => {
            code[bci] = 177;
            Ok(())
        },
        202 => Err(bci_error("active breakpoint", bci)),
        _ => Ok(()),
    }
}

/// Puts the bytecodes and operands that `code` had in its class file back in place of those that
/// HotSpot wrote over them.
pub fn restore_bytecodes<M: RemoteMemory>(
    memory: &M,
    constant_pool: u64,
    layout: &Layout,
    code: &mut [u8],
) -> (result: Result<(), Error>)
    ensures
        (final(code)@, seen(result)) == restored_code(
            memory.contents(),
            constant_pool,
            *layout,
            old(code)@,
        ),
        final(code)@.len() == old(code)@.len(),
{
    let cache = memory.read_u64(constant_pool.wrapping_add(layout.cp_cache))?;
    let ghost total = restored_code(memory.contents(), constant_pool, *layout, code@);
    let mut bci: usize = 0;
    while bci < code.len()
        invariant
            bci <= code@.len(),
            code@.len() == old(code)@.len(),
            total == restored_code(memory.contents(), constant_pool, *layout, old(code)@),
            total == restored_from(
                memory.contents(),
                constant_pool,
                *layout,
                cache,
                code@,
                bci as nat,
            ),
        decreases code@.len() - bci,
    {
        let length = bytecode_length(code, bci)?;
        if length > code.len() - bci {
            return Err(bci_error("truncated bytecode", bci));
        }
        proof {
            instruction_has_length(code@, bci as int);
            restoring_keeps_length(
                memory.contents(),
                constant_pool,
                *layout,
                cache,
                code@,
                bci as int,
            );
        }
        restore_instruction(memory, constant_pool, layout, cache, code, bci)?;
        bci += length;
    }
    Ok(())
}

/// Whether `code` is, from `bci` to its end, a run of whole instructions that a class file may
/// hold: no opcode is HotSpot's own.
pub open spec fn standard_from(code: Seq<u8>, bci: nat) -> bool
    decreases code.len() - bci,
{
    if bci >= code.len() {
        bci == code.len()
    } else {
        &&& code[bci as int] <= 201
        &&& instruction_size(code, bci as int) matches Ok(size) && 1 <= size <= code.len() - bci
            && standard_from(code, (bci + size) as nat)
    }
}

/// The length of an instruction depends on its own bytes alone.
pub proof fn size_is_local(left: Seq<u8>, right: Seq<u8>, at: int)
    requires
        0 <= at,
        left.len() == right.len(),
        instruction_size(left, at) matches Ok(size) && at + size <= left.len() && forall|i: int|
            at <= i < at + size ==> left[i] == right[i],
    ensures
        instruction_size(right, at) == instruction_size(left, at),
{
    let size = instruction_size(left, at)->Ok_0;
    let aligned = at + 4 - at % 4;
    assert(left[at] == right[at]);
    if left[at] == 170 || left[at] == 171 || left[at] == 228 || left[at] == 229 {
        assert(left.subrange(aligned + 4, aligned + 8) =~= right.subrange(aligned + 4, aligned + 8));
        if left[at] == 170 {
            assert(left.subrange(aligned + 8, aligned + 12) =~= right.subrange(
                aligned + 8,
                aligned + 12,
            ));
        }
    }
}

/// Restoring an instruction changes no other.
pub proof fn restoring_is_local(
    memory: Contents,
    constant_pool: u64,
    layout: Layout,
    cache: u64,
    code: Seq<u8>,
    bci: int,
)
    requires
        0 <= bci,
        instruction_size(code, bci) matches Ok(size) && bci + size <= code.len(),
    ensures
        forall|i: int|
            0 <= i < code.len() && !(bci <= i < bci + instruction_size(code, bci)->Ok_0)
                ==> #[trigger] restored_instruction(
                memory,
                constant_pool,
                layout,
                cache,
                code,
                bci,
            ).0[i] == code[i],
{
    reveal(restored_instruction);
}

/// A restored instruction, once what follows it is standard, is standard too.
proof fn restored_instruction_is_standard(
    memory: Contents,
    constant_pool: u64,
    layout: Layout,
    cache: u64,
    code: Seq<u8>,
    bci: nat,
    after: Seq<u8>,
)
    requires
        instruction_size(code, bci as int) matches Ok(size) && bci + size <= code.len()
            && standard_from(after, (bci + size) as nat),
        after.len() == code.len(),
        ({
            let step = restored_instruction(
                memory,
                constant_pool,
                layout,
                cache,
                code,
                bci as int,
            );
            &&& step.1 is Ok
            &&& forall|i: int|
                bci <= i < bci + instruction_size(code, bci as int)->Ok_0 ==> after[i] == step.0[i]
        }),
    ensures
        standard_from(after, bci),
{
    reveal(restored_instruction);
    restoring_keeps_length(memory, constant_pool, layout, cache, code, bci as int);
    let size = instruction_size(code, bci as int)->Ok_0;
    let restored = restored_instruction(
        memory,
        constant_pool,
        layout,
        cache,
        code,
        bci as int,
    ).0;
    let opcode = code[bci as int];
    if 221 <= opcode <= 223 {
        assert(after[bci as int] == 42);
        assert(after[(bci + 1) as int] == 180);
        assert(standard_from(after, bci + 1));
    } else if opcode == 225 {
        assert(after[bci as int] == 21);
        assert(after[(bci + 2) as int] == 21);
        assert(standard_from(after, bci + 2));
    } else if opcode == 226 {
        assert(after[bci as int] == 21);
        assert(after[(bci + 2) as int] == 52);
        assert(standard_from(after, bci + 2));
    } else if opcode == 228 || opcode == 229 {
        let renamed = code.update(bci as int, 171);
        let aligned = bci + 4 - bci % 4;
        assert(code.subrange(aligned + 4, aligned + 8) =~= renamed.subrange(
            aligned + 4,
            aligned + 8,
        ));
        size_is_local(renamed, after, bci as int);
    } else if opcode <= 201 && !(178 <= opcode <= 186) {
        assert(restored == code);
        size_is_local(code, after, bci as int);
    } else {
        assert(after[bci as int] == restored[bci as int]);
    }
}

/// Restoring keeps what stands before, the length, and leaves standard instructions.
proof fn restored_run_is_standard(
    memory: Contents,
    constant_pool: u64,
    layout: Layout,
    cache: u64,
    code: Seq<u8>,
    bci: nat,
)
    requires
        bci <= code.len(),
    ensures
        ({
            let run = restored_from(memory, constant_pool, layout, cache, code, bci);
            &&& run.0.len() == code.len()
            &&& forall|i: int| 0 <= i < bci ==> run.0[i] == code[i]
            &&& run.1 is Ok ==> standard_from(run.0, bci)
        }),
    decreases code.len() - bci,
{
    if bci < code.len() {
        if let Ok(size) = instruction_size(code, bci as int) {
            if bci + size <= code.len() {
                instruction_has_length(code, bci as int);
                restoring_keeps_length(memory, constant_pool, layout, cache, code, bci as int);
                restoring_is_local(memory, constant_pool, layout, cache, code, bci as int);
                let step = restored_instruction(
                    memory,
                    constant_pool,
                    layout,
                    cache,
                    code,
                    bci as int,
                );
                if step.1 is Ok {
                    let next = (bci + size) as nat;
                    restored_run_is_standard(memory, constant_pool, layout, cache, step.0, next);
                    let run = restored_from(memory, constant_pool, layout, cache, step.0, next);
                    assert forall|i: int| 0 <= i < bci implies run.0[i] == code[i] by {
                        assert(step.0[i] == code[i]);
                    }
                    if run.1 is Ok {
                        restored_instruction_is_standard(
                            memory,
                            constant_pool,
                            layout,
                            cache,
                            code,
                            bci,
                            run.0,
                        );
                    }
                }
            }
        }
    }
}

/// Restored code is as long as it was, and is a run of whole instructions none of which is
/// HotSpot's own.
pub proof fn restored_code_is_standard(
    memory: Contents,
    constant_pool: u64,
    layout: Layout,
    code: Seq<u8>,
)
    ensures
        restored_code(memory, constant_pool, layout, code).0.len() == code.len(),
        restored_code(memory, constant_pool, layout, code).1 is Ok ==> standard_from(
            restored_code(memory, constant_pool, layout, code).0,
            0,
        ),
{
    if let Ok(cache) = u64_at(memory, constant_pool.wrapping_add(layout.cp_cache)) {
        restored_run_is_standard(memory, constant_pool, layout, cache, code, 0);
    }
}

proof fn unlinked_run_is_kept(
    memory: Contents,
    constant_pool: u64,
    layout: Layout,
    code: Seq<u8>,
    bci: nat,
)
    ensures
        restored_from(memory, constant_pool, layout, 0, code, bci).0 == code,
    decreases code.len() - bci,
{
    reveal(restored_instruction);
    if bci < code.len() {
        if let Ok(size) = instruction_size(code, bci as int) {
            if bci + size <= code.len() {
                instruction_has_length(code, bci as int);
                unlinked_run_is_kept(memory, constant_pool, layout, code, (bci + size) as nat);
            }
        }
    }
}

/// The code of a class whose pool has no cache was never rewritten: it is left as it is.
pub proof fn unlinked_code_is_kept(
    memory: Contents,
    constant_pool: u64,
    layout: Layout,
    code: Seq<u8>,
)
    requires
        u64_at(memory, constant_pool.wrapping_add(layout.cp_cache)) == Ok::<u64, Seq<char>>(0),
    ensures
        restored_code(memory, constant_pool, layout, code).0 == code,
{
    unlinked_run_is_kept(memory, constant_pool, layout, code, 0);
}

} // verus!
