//! Constant pools: read from the target, extended by what the class file needs.
use vstd::prelude::*;

use super::Layout;
use crate::bytes::copied;
use crate::lists::{views, views_push};
use crate::platform::{
    read_bytes, reads_are_exact, u16_at, u32_at, u64_at, Contents, RemoteMemory,
};
use crate::text::{decimal_digits, decimal_text, joined, same_bytes, seen, Error, Outcome};

verus! {

/// The most entries that the pool of a class file may have, its unused first one included.
pub const MAX_POOL: usize = 65535;

/// An entry of a constant pool. Indices are those of the class file.
#[derive(Debug)]
pub enum Cp {
    Utf8(Vec<u8>),
    Integer(u32),
    Float(u32),
    Long(u64),
    Double(u64),
    Class(u16),
    String(u16),
    Ref(u8, u16, u16),
    NameType(u16, u16),
    MethodHandle(u8, u16),
    MethodType(u16),
    InvokeDynamic(u16, u16),
    Empty,
}

/// An entry of a constant pool, its text as a sequence of bytes.
pub enum CpView {
    Utf8(Seq<u8>),
    Integer(u32),
    Float(u32),
    Long(u64),
    Double(u64),
    Class(u16),
    String(u16),
    Ref(u8, u16, u16),
    NameType(u16, u16),
    MethodHandle(u8, u16),
    MethodType(u16),
    InvokeDynamic(u16, u16),
    Empty,
}

impl View for Cp {
    type V = CpView;

    open spec fn view(&self) -> CpView {
        match *self {
            Cp::Utf8(text) => CpView::Utf8(text@),
            Cp::Integer(value) => CpView::Integer(value),
            Cp::Float(bits) => CpView::Float(bits),
            Cp::Long(value) => CpView::Long(value),
            Cp::Double(bits) => CpView::Double(bits),
            Cp::Class(name) => CpView::Class(name),
            Cp::String(text) => CpView::String(text),
            Cp::Ref(tag, class, name_type) => CpView::Ref(tag, class, name_type),
            Cp::NameType(name, descriptor) => CpView::NameType(name, descriptor),
            Cp::MethodHandle(kind, reference) => CpView::MethodHandle(kind, reference),
            Cp::MethodType(descriptor) => CpView::MethodType(descriptor),
            Cp::InvokeDynamic(bootstrap, name_type) => CpView::InvokeDynamic(bootstrap, name_type),
            Cp::Empty => CpView::Empty,
        }
    }
}

/// The bytes of the symbol at `symbol`.
pub open spec fn symbol_bytes(memory: Contents, symbol: u64, layout: Layout) -> Outcome<Seq<u8>> {
    if symbol == 0 {
        Err("null symbol"@)
    } else {
        match u16_at(memory, symbol.wrapping_add(layout.symbol_len)) {
            Err(reason) => Err(reason),
            Ok(length) => memory(symbol.wrapping_add(layout.symbol_body), length as nat),
        }
    }
}

/// The bytes of the name of the class at `klass`.
pub open spec fn klass_name_bytes(memory: Contents, klass: u64, layout: Layout) -> Outcome<
    Seq<u8>,
> {
    match u64_at(memory, klass.wrapping_add(layout.klass_name)) {
        Err(reason) => Err(reason),
        Ok(symbol) => symbol_bytes(memory, symbol, layout),
    }
}

/// The text at `index` of a pool.
pub open spec fn utf8_at(pool: Seq<CpView>, index: u16) -> Outcome<Seq<u8>> {
    if index < pool.len() && pool[index as int] is Utf8 {
        Ok(pool[index as int]->Utf8_0)
    } else {
        Err("bad utf8 index "@ + decimal_digits(index as nat))
    }
}

/// Whether `index` is the first at which the pool holds `text`.
pub open spec fn first_utf8(pool: Seq<CpView>, text: Seq<u8>, index: int) -> bool {
    &&& 0 <= index < pool.len()
    &&& pool[index] == CpView::Utf8(text)
    &&& forall|earlier: int| 0 <= earlier < index ==> pool[earlier] != CpView::Utf8(text)
}

/// The pool once it holds `text`, and the index of the text: an entry that is there already is
/// used again.
pub open spec fn with_utf8(pool: Seq<CpView>, text: Seq<u8>) -> (Seq<CpView>, Outcome<u16>) {
    if exists|index: int| first_utf8(pool, text, index) {
        (pool, Ok((choose|index: int| first_utf8(pool, text, index)) as u16))
    } else if pool.len() >= MAX_POOL {
        (pool, Err("cp full"@))
    } else {
        (pool.push(CpView::Utf8(text)), Ok(pool.len() as u16))
    }
}

/// Whether entry `index` of the pool is the class `name`.
pub open spec fn names_class(pool: Seq<CpView>, name: Seq<u8>, index: int) -> bool {
    pool[index] is Class && utf8_at(pool, pool[index]->Class_0) == Ok::<Seq<u8>, Seq<char>>(name)
}

/// Whether `index` is the first at which the pool holds the class `name`.
pub open spec fn first_class(pool: Seq<CpView>, name: Seq<u8>, index: int) -> bool {
    &&& 0 <= index < pool.len()
    &&& names_class(pool, name, index)
    &&& forall|earlier: int| 0 <= earlier < index ==> !names_class(pool, name, earlier)
}

/// The pool once it holds the class `name`, and the index of the class: an entry that is there
/// already is used again.
pub open spec fn with_class(pool: Seq<CpView>, name: Seq<u8>) -> (Seq<CpView>, Outcome<u16>) {
    if exists|index: int| first_class(pool, name, index) {
        (pool, Ok((choose|index: int| first_class(pool, name, index)) as u16))
    } else {
        let (named, outcome) = with_utf8(pool, name);
        match outcome {
            Err(reason) => (named, Err(reason)),
            Ok(name_index) => if named.len() >= MAX_POOL {
                (named, Err("cp full"@))
            } else {
                (named.push(CpView::Class(name_index)), Ok(named.len() as u16))
            },
        }
    }
}

/// The low half of a 32-bit pair.
pub open spec fn low_half(raw: u64) -> u16 {
    (raw % 0x1_0000) as u16
}

/// The high half of a 32-bit pair.
pub open spec fn high_half(raw: u64) -> u16 {
    ((raw / 0x1_0000) % 0x1_0000) as u16
}

/// The name of the class that a slot with one of the class tags refers to: a resolved class holds
/// a `Klass`, an unresolved one a symbol that may be marked, and one that was not linked yet an
/// index.
pub open spec fn class_slot_name(
    memory: Contents,
    layout: Layout,
    pool: Seq<CpView>,
    tag: u8,
    raw: u64,
) -> Outcome<Seq<u8>> {
    if tag == 7 && raw > 0xffff_ffff {
        klass_name_bytes(memory, raw, layout)
    } else if tag == 7 {
        utf8_at(pool, low_half(raw))
    } else {
        symbol_bytes(memory, raw & 0xffff_ffff_ffff_fffe, layout)
    }
}

/// The pool and the entry that slot `index` of the target's pool, with the given tag and value,
/// stands for. A class or a string may add its text to the pool.
pub open spec fn pool_entry(
    memory: Contents,
    layout: Layout,
    pool: Seq<CpView>,
    index: nat,
    tag: u8,
    raw: u64,
) -> Outcome<(Seq<CpView>, CpView)> {
    if tag == 1 {
        match symbol_bytes(memory, raw, layout) {
            Err(reason) => Err(reason),
            Ok(text) => Ok((pool, CpView::Utf8(text))),
        }
    } else if tag == 3 {
        Ok((pool, CpView::Integer((raw % 0x1_0000_0000) as u32)))
    } else if tag == 4 {
        Ok((pool, CpView::Float((raw % 0x1_0000_0000) as u32)))
    } else if tag == 5 {
        Ok((pool, CpView::Long(raw)))
    } else if tag == 6 {
        Ok((pool, CpView::Double(raw)))
    } else if tag == 7 || tag == 100 || tag == 103 {
        match class_slot_name(memory, layout, pool, tag, raw) {
            Err(reason) => Err(reason),
            Ok(name) => match with_utf8(pool, name) {
                (_, Err(reason)) => Err(reason),
                (named, Ok(name_index)) => Ok((named, CpView::Class(name_index))),
            },
        }
    } else if tag == 101 {
        Ok((pool, CpView::Class(low_half(raw))))
    } else if tag == 8 {
        match symbol_bytes(memory, raw, layout) {
            Err(reason) => Err(reason),
            Ok(text) => match with_utf8(pool, text) {
                (_, Err(reason)) => Err(reason),
                (worded, Ok(text_index)) => Ok((worded, CpView::String(text_index))),
            },
        }
    } else if tag == 102 {
        Ok((pool, CpView::String(low_half(raw))))
    } else if 9 <= tag <= 11 {
        Ok((pool, CpView::Ref(tag, low_half(raw), high_half(raw))))
    } else if tag == 12 {
        Ok((pool, CpView::NameType(low_half(raw), high_half(raw))))
    } else if tag == 15 || tag == 104 {
        Ok((pool, CpView::MethodHandle((raw % 0x100) as u8, high_half(raw))))
    } else if tag == 16 || tag == 105 {
        Ok((pool, CpView::MethodType(low_half(raw))))
    } else if tag == 18 {
        Ok((pool, CpView::InvokeDynamic(low_half(raw), high_half(raw))))
    } else if tag == 0 {
        Ok((pool, CpView::Empty))
    } else {
        Err(
            "unsupported constant-pool tag "@ + decimal_digits(tag as nat) + " at "@
                + decimal_digits(index),
        )
    }
}

/// The pool once its slots from the `index`-th on were read. `base` is the address of slot 0.
pub open spec fn pool_from(
    memory: Contents,
    layout: Layout,
    base: u64,
    tags: Seq<u8>,
    index: nat,
    pool: Seq<CpView>,
) -> Outcome<Seq<CpView>>
    decreases tags.len() - index,
{
    if index >= tags.len() {
        Ok(pool)
    } else {
        match u64_at(memory, base.wrapping_add((index * 8) as u64)) {
            Err(reason) => Err(reason),
            Ok(raw) => match pool_entry(memory, layout, pool, index, tags[index as int], raw) {
                Err(reason) => Err(reason),
                Ok((grown, entry)) => pool_from(
                    memory,
                    layout,
                    base,
                    tags,
                    index + 1,
                    grown.update(index as int, entry),
                ),
            },
        }
    }
}

/// The pool of the `ConstantPool` at `address`.
pub open spec fn pool_at(memory: Contents, address: u64, layout: Layout) -> Outcome<Seq<CpView>> {
    match u32_at(memory, address.wrapping_add(layout.cp_length)) {
        Err(reason) => Err(reason),
        Ok(length) => if !(1 <= length < 65500) {
            Err("cp length"@)
        } else {
            match u64_at(memory, address.wrapping_add(layout.cp_tags)) {
                Err(reason) => Err(reason),
                Ok(tags) => if tags == 0 {
                    Err("null tags"@)
                } else {
                    match memory(tags.wrapping_add(4), length as nat) {
                        Err(reason) => Err(reason),
                        Ok(tag_bytes) => pool_from(
                            memory,
                            layout,
                            address.wrapping_add(layout.cp_size),
                            tag_bytes,
                            1,
                            Seq::new(length as nat, |i: int| CpView::Empty),
                        ),
                    }
                },
            }
        },
    }
}

/// The bytes of the symbol at `symbol`.
pub fn symbol<M: RemoteMemory>(memory: &M, address: u64, layout: &Layout) -> (result: Result<
    Vec<u8>,
    Error,
>)
    ensures
        seen(result) == symbol_bytes(memory.contents(), address, *layout),
{
    if address == 0 {
        return Err(Error::new("null symbol"));
    }
    let length = memory.read_u16(address.wrapping_add(layout.symbol_len))?;
    read_bytes(memory, address.wrapping_add(layout.symbol_body), length as usize)
}

/// The bytes of the name of the class at `klass`.
pub fn klass_name<M: RemoteMemory>(memory: &M, klass: u64, layout: &Layout) -> (result: Result<
    Vec<u8>,
    Error,
>)
    ensures
        seen(result) == klass_name_bytes(memory.contents(), klass, *layout),
{
    let pointer = memory.read_u64(klass.wrapping_add(layout.klass_name))?;
    symbol(memory, pointer, layout)
}

/// The text at `index` of a pool.
pub fn cp_utf8(pool: &Vec<Cp>, index: u16) -> (result: Result<&Vec<u8>, Error>)
    ensures
        seen(result) == utf8_at(views(pool@), index),
{
    if (index as usize) < pool.len() {
        if let Cp::Utf8(text) = &pool[index as usize] {
            return Ok(text);
        }
    }
    Err(Error { text: joined("bad utf8 index ", decimal_text(index as u64).as_str()) })
}

/// Puts `text` into the pool, unless it is there, and gives its index.
pub fn add_utf8(pool: &mut Vec<Cp>, text: Vec<u8>) -> (result: Result<u16, Error>)
    requires
        old(pool)@.len() <= MAX_POOL,
    ensures
        (views(final(pool)@), seen(result)) == with_utf8(views(old(pool)@), text@),
{
    let ghost before = views(pool@);
    let mut index: usize = 0;
    while index < pool.len()
        invariant
            index <= pool@.len() <= MAX_POOL,
            before == views(pool@),
            forall|earlier: int| 0 <= earlier < index ==> before[earlier] != CpView::Utf8(text@),
        decreases pool@.len() - index,
    {
        assert(before[index as int] == pool@[index as int]@);
        if let Cp::Utf8(present) = &pool[index] {
            if same_bytes(present.as_slice(), text.as_slice()) {
                proof {
                    assert(first_utf8(before, text@, index as int));
                    let chosen = choose|i: int| first_utf8(before, text@, i);
                    assert(chosen == index) by {
                        if chosen < index {
                            assert(before[chosen] != CpView::Utf8(text@));
                        }
                    }
                }
                return Ok(index as u16);
            }
        }
        index += 1;
    }
    if pool.len() >= MAX_POOL {
        return Err(Error::new("cp full"));
    }
    let entry = Cp::Utf8(text);
    proof {
        views_push(pool@, entry);
    }
    pool.push(entry);
    Ok((pool.len() - 1) as u16)
}

/// Puts the class `name` into the pool, unless it is there, and gives its index.
pub fn ensure_class(pool: &mut Vec<Cp>, name: &[u8]) -> (result: Result<u16, Error>)
    requires
        old(pool)@.len() <= MAX_POOL,
    ensures
        (views(final(pool)@), seen(result)) == with_class(views(old(pool)@), name@),
{
    let ghost before = views(pool@);
    let mut index: usize = 0;
    while index < pool.len()
        invariant
            index <= pool@.len() <= MAX_POOL,
            before == views(pool@),
            forall|earlier: int| 0 <= earlier < index ==> !names_class(before, name@, earlier),
        decreases pool@.len() - index,
    {
        assert(before[index as int] == pool@[index as int]@);
        if let Cp::Class(name_index) = &pool[index] {
            if let Ok(text) = cp_utf8(pool, *name_index) {
                if same_bytes(text.as_slice(), name) {
                    proof {
                        assert(first_class(before, name@, index as int));
                        let chosen = choose|i: int| first_class(before, name@, i);
                        assert(chosen == index) by {
                            if chosen < index {
                                assert(!names_class(before, name@, chosen));
                            }
                        }
                    }
                    return Ok(index as u16);
                }
            }
        }
        index += 1;
    }
    let name_index = add_utf8(pool, copied(name))?;
    if pool.len() >= MAX_POOL {
        return Err(Error::new("cp full"));
    }
    let entry = Cp::Class(name_index);
    proof {
        views_push(pool@, entry);
    }
    pool.push(entry);
    Ok((pool.len() - 1) as u16)
}

fn class_name_of_slot<M: RemoteMemory>(
    memory: &M,
    layout: &Layout,
    pool: &Vec<Cp>,
    tag: u8,
    raw: u64,
) -> (result: Result<Vec<u8>, Error>)
    ensures
        seen(result) == class_slot_name(memory.contents(), *layout, views(pool@), tag, raw),
{
    if tag == 7 && raw > 0xffff_ffff {
        klass_name(memory, raw, layout)
    } else if tag == 7 {
        let text = cp_utf8(pool, (raw % 0x1_0000) as u16)?;
        Ok(copied(text.as_slice()))
    } else {
        symbol(memory, raw & 0xffff_ffff_ffff_fffe, layout)
    }
}

fn read_entry<M: RemoteMemory>(
    memory: &M,
    layout: &Layout,
    pool: &mut Vec<Cp>,
    index: usize,
    tag: u8,
    raw: u64,
) -> (result: Result<Cp, Error>)
    requires
        old(pool)@.len() <= MAX_POOL,
    ensures
        match pool_entry(
            memory.contents(),
            *layout,
            views(old(pool)@),
            index as nat,
            tag,
            raw,
        ) {
            Err(reason) => result matches Err(error) && error@ == reason,
            Ok((grown, view)) => result matches Ok(entry) && entry@ == view && views(final(pool)@)
                == grown,
        },
        old(pool)@.len() <= final(pool)@.len() <= MAX_POOL,
{
    let low = (raw % 0x1_0000) as u16;
    let high = ((raw / 0x1_0000) % 0x1_0000) as u16;
    match tag {
        1 => Ok(Cp::Utf8(symbol(memory, raw, layout)?)),
        3 => Ok(Cp::Integer((raw % 0x1_0000_0000) as u32)),
        4 => Ok(Cp::Float((raw % 0x1_0000_0000) as u32)),
        5 => Ok(Cp::Long(raw)),
        6 => Ok(Cp::Double(raw)),
        7 | 100 | 103 => {
            let name = class_name_of_slot(memory, layout, pool, tag, raw)?;
            Ok(Cp::Class(add_utf8(pool, name)?))
        },
        101 => Ok(Cp::Class(low)),
        8 => {
            let text = symbol(memory, raw, layout)?;
            Ok(Cp::String(add_utf8(pool, text)?))
        },
        102 => Ok(Cp::String(low)),
        9..=11 => Ok(Cp::Ref(tag, low, high)),
        12 => Ok(Cp::NameType(low, high)),
        15 | 104 => Ok(Cp::MethodHandle((raw % 0x100) as u8, high)),
        16 | 105 => Ok(Cp::MethodType(low)),
        18 => Ok(Cp::InvokeDynamic(low, high)),
        0 => Ok(Cp::Empty),
        _ => {
            let mut text = joined(
                "unsupported constant-pool tag ",
                decimal_text(tag as u64).as_str(),
            );
            text = joined(text.as_str(), " at ");
            Err(Error { text: joined(text.as_str(), decimal_text(index as u64).as_str()) })
        },
    }
}

/// Reads the pool of the `ConstantPool` at `address`.
pub fn read_cp<M: RemoteMemory>(memory: &M, address: u64, layout: &Layout) -> (result: Result<
    Vec<Cp>,
    Error,
>)
    ensures
        match pool_at(memory.contents(), address, *layout) {
            Err(reason) => result matches Err(error) && error@ == reason,
            Ok(pool) => result matches Ok(entries) && views(entries@) == pool && 1
                <= entries@.len() <= MAX_POOL,
        },
{
    let length = memory.read_u32(address.wrapping_add(layout.cp_length))?;
    if length < 1 || length >= 65500 {
        return Err(Error::new("cp length"));
    }
    let tags = memory.read_u64(address.wrapping_add(layout.cp_tags))?;
    if tags == 0 {
        return Err(Error::new("null tags"));
    }
    let tag_bytes = read_bytes(memory, tags.wrapping_add(4), length as usize)?;
    let mut pool: Vec<Cp> = Vec::new();
    while pool.len() < length as usize
        invariant
            pool@.len() <= length,
            forall|i: int| 0 <= i < pool@.len() ==> #[trigger] pool@[i]@ == CpView::Empty,
        decreases length - pool@.len(),
    {
        pool.push(Cp::Empty);
    }
    let base = address.wrapping_add(layout.cp_size);
    let mut index: usize = 1;
    assert(views(pool@) =~= Seq::new(length as nat, |i: int| CpView::Empty));
    while index < tag_bytes.len()
        invariant
            1 <= index <= tag_bytes@.len(),
            tag_bytes@.len() == length,
            tag_bytes@.len() <= pool@.len() <= MAX_POOL,
            pool_at(memory.contents(), address, *layout) == pool_from(
                memory.contents(),
                *layout,
                base,
                tag_bytes@,
                index as nat,
                views(pool@),
            ),
        decreases tag_bytes@.len() - index,
    {
        let raw = memory.read_u64(base.wrapping_add(index as u64 * 8))?;
        let entry = read_entry(memory, layout, &mut pool, index, tag_bytes[index], raw)?;
        let ghost grown = views(pool@);
        pool[index] = entry;
        assert(views(pool@) =~= grown.update(index as int, entry@));
        index += 1;
    }
    Ok(pool)
}

/// Whether `grown` starts with the entries of `pool`, has only texts and classes behind them, and
/// still fits a class file.
pub open spec fn extends(grown: Seq<CpView>, pool: Seq<CpView>) -> bool {
    &&& pool.len() <= grown.len() <= MAX_POOL
    &&& forall|i: int| 0 <= i < pool.len() ==> grown[i] == pool[i]
    &&& forall|i: int|
        pool.len() <= i < grown.len() ==> (#[trigger] grown[i]) is Utf8 || grown[i] is Class
}

/// Adding a text keeps all entries where they are, the index is that of the text, and adding it
/// once more changes nothing.
pub proof fn adding_text_extends_the_pool(pool: Seq<CpView>, text: Seq<u8>)
    requires
        pool.len() <= MAX_POOL,
    ensures
        ({
            let (grown, outcome) = with_utf8(pool, text);
            &&& extends(grown, pool)
            &&& outcome matches Ok(index) ==> utf8_at(grown, index) == Ok::<Seq<u8>, Seq<char>>(
                text,
            )
            &&& outcome is Ok ==> with_utf8(grown, text) == (grown, outcome)
        }),
{
    let (grown, outcome) = with_utf8(pool, text);
    if !(exists|index: int| first_utf8(pool, text, index)) && outcome is Ok {
        let at = pool.len() as int;
        assert forall|earlier: int| 0 <= earlier < at implies grown[earlier] != CpView::Utf8(
            text,
        ) by {
            if grown[earlier] == CpView::Utf8(text) {
                first_occurrence(pool, text, earlier);
            }
        }
        assert(first_utf8(grown, text, at));
        let chosen = choose|index: int| first_utf8(grown, text, index);
        assert(chosen == at) by {
            if chosen < at {
                assert(grown[chosen] != CpView::Utf8(text));
            }
        }
    }
}

/// A text that is in the pool is there at a first index.
pub proof fn first_occurrence(pool: Seq<CpView>, text: Seq<u8>, at: int)
    requires
        0 <= at < pool.len(),
        pool[at] == CpView::Utf8(text),
    ensures
        exists|index: int| first_utf8(pool, text, index),
    decreases at,
{
    if forall|earlier: int| 0 <= earlier < at ==> pool[earlier] != CpView::Utf8(text) {
        assert(first_utf8(pool, text, at));
    } else {
        let earlier = choose|earlier: int|
            0 <= earlier < at && pool[earlier] == CpView::Utf8(text);
        first_occurrence(pool, text, earlier);
    }
}

/// Adding a class keeps all entries where they are, and the index is that of a class of that name.
pub proof fn adding_class_extends_the_pool(pool: Seq<CpView>, name: Seq<u8>)
    requires
        pool.len() <= MAX_POOL,
    ensures
        ({
            let (grown, outcome) = with_class(pool, name);
            &&& extends(grown, pool)
            &&& outcome matches Ok(index) ==> index < grown.len() && names_class(
                grown,
                name,
                index as int,
            )
        }),
{
    adding_text_extends_the_pool(pool, name);
}

/// What a pool holds, it still holds once it was extended.
pub proof fn extending_keeps_names(grown: Seq<CpView>, pool: Seq<CpView>, text: Seq<u8>, index: u16)
    requires
        extends(grown, pool),
        index < pool.len(),
    ensures
        utf8_at(pool, index) == Ok::<Seq<u8>, Seq<char>>(text) ==> utf8_at(grown, index) == Ok::<
            Seq<u8>,
            Seq<char>,
        >(text),
        names_class(pool, text, index as int) ==> names_class(grown, text, index as int),
{
}

proof fn pool_size_from(
    memory: Contents,
    layout: Layout,
    base: u64,
    tags: Seq<u8>,
    index: nat,
    pool: Seq<CpView>,
)
    requires
        1 <= tags.len() <= pool.len() <= MAX_POOL,
    ensures
        pool_from(memory, layout, base, tags, index, pool) matches Ok(entries) ==> 1
            <= entries.len() <= MAX_POOL,
    decreases tags.len() - index,
{
    if index < tags.len() {
        if let Ok(raw) = u64_at(memory, base.wrapping_add((index * 8) as u64)) {
            let tag = tags[index as int];
            if let Ok(name) = class_slot_name(memory, layout, pool, tag, raw) {
                adding_text_extends_the_pool(pool, name);
            }
            if let Ok(text) = symbol_bytes(memory, raw, layout) {
                adding_text_extends_the_pool(pool, text);
            }
            if let Ok((grown, entry)) = pool_entry(memory, layout, pool, index, tag, raw) {
                pool_size_from(
                    memory,
                    layout,
                    base,
                    tags,
                    index + 1,
                    grown.update(index as int, entry),
                );
            }
        }
    }
}

/// A pool that was read fits a class file.
pub proof fn pool_fits(memory: Contents, address: u64, layout: Layout)
    requires
        reads_are_exact(memory),
    ensures
        pool_at(memory, address, layout) matches Ok(pool) ==> 1 <= pool.len() <= MAX_POOL,
{
    if let Ok(length) = u32_at(memory, address.wrapping_add(layout.cp_length)) {
        if let Ok(tags) = u64_at(memory, address.wrapping_add(layout.cp_tags)) {
            if let Ok(tag_bytes) = memory(tags.wrapping_add(4), length as nat) {
                if 1 <= length < 65500 {
                    pool_size_from(
                        memory,
                        layout,
                        address.wrapping_add(layout.cp_size),
                        tag_bytes,
                        1,
                        Seq::new(length as nat, |i: int| CpView::Empty),
                    );
                }
            }
        }
    }
}

} // verus!
