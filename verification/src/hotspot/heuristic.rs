//! The tables of a HotSpot that does not export them, found in the image of its module by the
//! strings that they point to.
use std::collections::HashSet;
use vstd::hash_map::StringHashMap;
use vstd::prelude::*;
use vstd::utf8::encode_utf8;

use super::vmstructs::{EntryView, VmStructEntry, VmStructTable, MAX_NAME};
use super::vmtypes::VmTypes;
use crate::bytes::copied;
use crate::lists::{followed_by, followed_by_nothing, followed_by_push, views, views_push};
use crate::pages::{page_pieces, piece_at, Piece, PAGE_SIZE};
use crate::platform::{c_string_at, read_bytes, u32_at, u64_at, Contents, RemoteMemory};
use crate::search::{
    alignment_gap, find_subslices, occurrences, positions, read_word, to_alignment, word_at,
};
use crate::text::{decimal_digits, decimal_text, joined, same_text, seen, Error, Outcome};

verus! {

broadcast use vstd::std_specs::hash::group_hash_axioms;

/// How far the rows of the table of fields are apart.
pub const VMSTRUCT_STRIDE: u64 = 48;

/// How far the rows of the table of types are apart.
pub const VMTYPE_STRIDE: u64 = 40;

/// The most rows that a table is believed to have.
pub const MAX_ROWS: u64 = 100_000;

/// The largest module whose image is taken.
pub const MAX_IMAGE: usize = 0x2000_0000;

/// The tables that were found.
pub struct InferredLayout {
    pub structs: VmStructTable,
    pub types: VmTypes,
}

/// A page of the image of a module.
pub struct Page {
    pub base: u64,
    pub bytes: Vec<u8>,
}

/// A page, its bytes as a sequence.
pub struct PageView {
    pub base: u64,
    pub bytes: Seq<u8>,
}

impl View for Page {
    type V = PageView;

    open spec fn view(&self) -> PageView {
        PageView { base: self.base, bytes: self.bytes@ }
    }
}

/// The readable pages of a module.
pub struct ModuleImage {
    pub pages: Vec<Page>,
}

impl View for ModuleImage {
    type V = Seq<PageView>;

    open spec fn view(&self) -> Seq<PageView> {
        views(self.pages@)
    }
}

/// Those of the pieces that could be read.
pub open spec fn readable(pieces: Seq<Piece>) -> Seq<PageView>
    decreases pieces.len(),
{
    if pieces.len() == 0 {
        Seq::empty()
    } else {
        let before = readable(pieces.drop_last());
        match pieces.last().bytes {
            Some(bytes) => before.push(PageView { base: pieces.last().address, bytes }),
            None => before,
        }
    }
}

/// The readable pages of the module at `base`.
pub open spec fn image_of(memory: Contents, base: u64, size: nat) -> Outcome<Seq<PageView>> {
    if size == 0 || size > MAX_IMAGE {
        Err("unreasonable jvm.dll image size"@)
    } else {
        let pages = readable(page_pieces(memory, base, size, 0));
        if pages.len() == 0 {
            Err("no readable pages in jvm.dll"@)
        } else {
            Ok(pages)
        }
    }
}

/// The addresses at the given positions of a page.
pub open spec fn addresses_at(base: u64, found: Seq<nat>) -> Seq<u64> {
    Seq::new(found.len(), |i: int| base.wrapping_add(found[i] as u64))
}

/// The addresses at which the pages hold the bytes `needle`, in order.
pub open spec fn addresses_of(pages: Seq<PageView>, needle: Seq<u8>) -> Seq<u64>
    decreases pages.len(),
{
    if pages.len() == 0 {
        Seq::empty()
    } else {
        addresses_of(pages.drop_last(), needle) + addresses_at(
            pages.last().base,
            occurrences(pages.last().bytes, needle),
        )
    }
}

/// The addresses at which the pages hold `text` with its terminator.
pub open spec fn strings_of(pages: Seq<PageView>, text: Seq<char>) -> Seq<u64> {
    addresses_of(pages, encode_utf8(text).push(0u8))
}

/// The addresses from the byte `at` of a page on, in steps of eight, at which it has one of the
/// words `wanted`.
pub open spec fn pointers_from(page: PageView, wanted: Set<u64>, at: nat) -> Seq<u64>
    decreases page.bytes.len() - at,
{
    if at + 8 > page.bytes.len() {
        Seq::empty()
    } else if wanted.contains(word_at(page.bytes, at)) {
        seq![page.base.wrapping_add(at as u64)] + pointers_from(page, wanted, at + 8)
    } else {
        pointers_from(page, wanted, at + 8)
    }
}

/// The addresses that are a multiple of eight at which the pages have one of the words `wanted`.
pub open spec fn pointers_of(pages: Seq<PageView>, wanted: Set<u64>) -> Seq<u64>
    decreases pages.len(),
{
    if pages.len() == 0 {
        Seq::empty()
    } else {
        pointers_of(pages.drop_last(), wanted) + pointers_from(
            pages.last(),
            wanted,
            to_alignment(pages.last().base),
        )
    }
}

/// Whether a byte belongs to the text of a table.
pub open spec fn is_printable(byte: u8) -> bool {
    byte == 9 || 0x20 <= byte <= 0x7e
}

/// The string at `address`, which has to be printable and not empty.
pub open spec fn table_string_at(memory: Contents, address: u64) -> Outcome<Seq<char>> {
    match c_string_at(memory, address, MAX_NAME as nat) {
        Err(reason) => Err(reason),
        Ok(text) => {
            let bytes = encode_utf8(text);
            if bytes.len() > 0 && forall|i: int| 0 <= i < bytes.len() ==> is_printable(
                #[trigger] bytes[i],
            ) {
                Ok(text)
            } else {
                Err("invalid table string"@)
            }
        },
    }
}

/// A string that is checked only if there is one.
pub open spec fn table_string_check(memory: Contents, address: u64) -> Outcome<()> {
    if address == 0 {
        Ok(())
    } else {
        match table_string_at(memory, address) {
            Err(reason) => Err(reason),
            Ok(_) => Ok(()),
        }
    }
}

/// What a row says of a field once its numbers are known: its names.
pub open spec fn row_named(
    memory: Contents,
    struct_name_at: u64,
    field_name_at: u64,
    type_string_at: u64,
    offset: u64,
    address: u64,
) -> Outcome<Option<EntryView>> {
    match table_string_at(memory, struct_name_at) {
        Err(reason) => Err(reason),
        Ok(struct_name) => match table_string_at(memory, field_name_at) {
            Err(reason) => Err(reason),
            Ok(field_name) => match table_string_check(memory, type_string_at) {
                Err(reason) => Err(reason),
                Ok(_) => Ok(Some(EntryView { struct_name, field_name, offset, address })),
            },
        },
    }
}

/// The row of a table of fields at `row`: none at the end of the table.
pub open spec fn vmstruct_row(memory: Contents, row: u64) -> Outcome<Option<EntryView>> {
    match u64_at(memory, row) {
        Err(reason) => Err(reason),
        Ok(struct_name_at) => if struct_name_at == 0 {
            Ok(None)
        } else {
            match u64_at(memory, row.wrapping_add(8)) {
                Err(reason) => Err(reason),
                Ok(field_name_at) => if field_name_at == 0 {
                    Err("invalid VMStruct field pointer"@)
                } else {
                    match u64_at(memory, row.wrapping_add(16)) {
                        Err(reason) => Err(reason),
                        Ok(type_string_at) => match u32_at(memory, row.wrapping_add(24)) {
                            Err(reason) => Err(reason),
                            Ok(is_static) => if is_static > 1 {
                                Err("invalid VMStruct static marker"@)
                            } else {
                                match u64_at(memory, row.wrapping_add(32)) {
                                    Err(reason) => Err(reason),
                                    Ok(offset) => match u64_at(memory, row.wrapping_add(40)) {
                                        Err(reason) => Err(reason),
                                        Ok(address) => if is_static == 0 && offset > 0x1_0000 {
                                            Err("implausible VMStruct offset"@)
                                        } else {
                                            row_named(
                                                memory,
                                                struct_name_at,
                                                field_name_at,
                                                type_string_at,
                                                offset,
                                                address,
                                            )
                                        },
                                    },
                                }
                            },
                        },
                    }
                },
            }
        },
    }
}

/// Where the table with a row at `row` starts: up to `steps` rows before it.
pub open spec fn vmstructs_start(memory: Contents, row: u64, steps: nat) -> Outcome<u64>
    decreases steps,
{
    if steps == 0 || row < VMSTRUCT_STRIDE {
        Ok(row)
    } else {
        match vmstruct_row(memory, (row - VMSTRUCT_STRIDE) as u64) {
            Err(reason) => Err(reason),
            Ok(None) => Ok(row),
            Ok(Some(_)) => vmstructs_start(
                memory,
                (row - VMSTRUCT_STRIDE) as u64,
                (steps - 1) as nat,
            ),
        }
    }
}

/// The rows of the table at `start` from the `index`-th on, up to its end.
pub open spec fn vmstructs_from(memory: Contents, start: u64, index: nat) -> Outcome<Seq<EntryView>>
    decreases MAX_ROWS - index,
{
    if index >= MAX_ROWS {
        Ok(Seq::empty())
    } else {
        match vmstruct_row(memory, start.wrapping_add((index * VMSTRUCT_STRIDE) as u64)) {
            Err(reason) => Err(reason),
            Ok(None) => Ok(Seq::empty()),
            Ok(Some(entry)) => followed_by(
                seq![entry],
                vmstructs_from(memory, start, index + 1),
            ),
        }
    }
}

/// The table of fields that has a row at `anchor`.
pub open spec fn vmstructs_around(memory: Contents, anchor: u64) -> Outcome<Seq<EntryView>> {
    match vmstructs_start(memory, anchor, MAX_ROWS as nat) {
        Err(reason) => Err(reason),
        Ok(start) => match vmstructs_from(memory, start, 0) {
            Err(reason) => Err(reason),
            Ok(entries) => if entries.len() < 100 {
                Err("VMStructs candidate is too short"@)
            } else {
                Ok(entries)
            },
        },
    }
}

/// The fields that the table has to describe.
pub open spec fn required_fields() -> Seq<(Seq<char>, Seq<char>)> {
    seq![
        ("SystemDictionary"@, "_dictionary"@),
        ("BasicHashtable<mtInternal>"@, "_table_size"@),
        ("BasicHashtable<mtInternal>"@, "_buckets"@),
        ("HashtableBucket<mtInternal>"@, "_entry"@),
        ("BasicHashtableEntry<mtInternal>"@, "_next"@),
        ("IntptrHashtableEntry"@, "_literal"@),
        ("Klass"@, "_name"@),
        ("Klass"@, "_super"@),
        ("Klass"@, "_access_flags"@),
        ("Symbol"@, "_length"@),
        ("Symbol"@, "_body"@),
        ("InstanceKlass"@, "_constants"@),
        ("InstanceKlass"@, "_fields"@),
        ("InstanceKlass"@, "_methods"@),
        ("ConstantPool"@, "_tags"@),
        ("ConstantPool"@, "_length"@),
        ("Method"@, "_constMethod"@),
        ("ConstMethod"@, "_code_size"@),
    ]
}

/// Whether some entry describes the field.
pub open spec fn describes(entries: Seq<EntryView>, field: (Seq<char>, Seq<char>)) -> bool {
    exists|i: int|
        0 <= i < entries.len() && (#[trigger] entries[i]).struct_name == field.0
            && entries[i].field_name == field.1
}

/// How many of the first `count` required fields the entries describe.
pub open spec fn fields_described(entries: Seq<EntryView>, count: nat) -> nat
    decreases count,
{
    if count == 0 {
        0
    } else {
        fields_described(entries, (count - 1) as nat) + if describes(
            entries,
            required_fields()[count - 1],
        ) {
            1nat
        } else {
            0
        }
    }
}

/// How many of the required fields the entries describe.
pub open spec fn vmstructs_score(entries: Seq<EntryView>) -> nat {
    fields_described(entries, 18)
}

/// The better of a candidate so far and the table around `row`, if that is one: the score and the
/// entries. Of equally good ones the first is kept.
pub open spec fn vmstructs_tried(
    memory: Contents,
    fields: Set<u64>,
    row: u64,
    best: Option<(nat, Seq<EntryView>)>,
) -> Option<(nat, Seq<EntryView>)> {
    let field_name_at = match u64_at(memory, row.wrapping_add(8)) {
        Ok(pointer) => pointer,
        Err(_) => 0,
    };
    if !fields.contains(field_name_at) {
        best
    } else {
        match vmstructs_around(memory, row) {
            Err(_) => best,
            Ok(entries) => if best matches Some(old) && vmstructs_score(entries) <= old.0 {
                best
            } else {
                Some((vmstructs_score(entries), entries))
            },
        }
    }
}

/// The best of the tables around the first `count` rows.
pub open spec fn vmstructs_best(
    memory: Contents,
    fields: Set<u64>,
    rows: Seq<u64>,
    count: nat,
) -> Option<(nat, Seq<EntryView>)>
    decreases count,
{
    if count == 0 {
        None
    } else {
        vmstructs_tried(
            memory,
            fields,
            rows[count - 1],
            vmstructs_best(memory, fields, rows, (count - 1) as nat),
        )
    }
}

/// The table of fields that the pages of the module hold.
pub open spec fn vmstructs_in(memory: Contents, pages: Seq<PageView>) -> Outcome<Seq<EntryView>> {
    let names = strings_of(pages, "SystemDictionary"@);
    let fields = strings_of(pages, "_dictionary"@);
    if names.len() == 0 || fields.len() == 0 {
        Err("VMStruct anchor strings are absent"@)
    } else {
        let rows = pointers_of(pages, names.to_set());
        match vmstructs_best(memory, fields.to_set(), rows, rows.len()) {
            None => Err("could not locate a valid internal VMStructs table"@),
            Some((score, entries)) => if score < 18 {
                Err(
                    "internal VMStructs candidate failed validation ("@ + decimal_digits(score)
                        + "/18 required fields)"@,
                )
            } else {
                Ok(entries)
            },
        }
    }
}

/// Whether the three markers of a type at `row`, from `offset` on, are truth values.
pub open spec fn markers_check(memory: Contents, row: u64, offset: u64) -> Outcome<()>
    decreases 28 - offset,
{
    if offset > 24 {
        Ok(())
    } else {
        match u32_at(memory, row.wrapping_add(offset)) {
            Err(reason) => Err(reason),
            Ok(marker) => if marker > 1 {
                Err("invalid VMType boolean"@)
            } else {
                markers_check(memory, row, (offset + 4) as u64)
            },
        }
    }
}

/// The row of a table of types at `row`: the name and the size, or none at the end of the table.
pub open spec fn vmtype_row(memory: Contents, row: u64) -> Outcome<Option<(Seq<char>, u64)>> {
    match u64_at(memory, row) {
        Err(reason) => Err(reason),
        Ok(name_at) => if name_at == 0 {
            Ok(None)
        } else {
            match u64_at(memory, row.wrapping_add(8)) {
                Err(reason) => Err(reason),
                Ok(super_at) => match markers_check(memory, row, 16) {
                    Err(reason) => Err(reason),
                    Ok(_) => match u64_at(memory, row.wrapping_add(32)) {
                        Err(reason) => Err(reason),
                        Ok(size) => if size == 0 || size > 0x1_0000 {
                            Err("implausible VMType size"@)
                        } else {
                            match table_string_at(memory, name_at) {
                                Err(reason) => Err(reason),
                                Ok(name) => match table_string_check(memory, super_at) {
                                    Err(reason) => Err(reason),
                                    Ok(_) => Ok(Some((name, size))),
                                },
                            }
                        },
                    },
                },
            }
        },
    }
}

/// Where the table with a row at `row` starts: up to `steps` rows before it.
pub open spec fn vmtypes_start(memory: Contents, row: u64, steps: nat) -> Outcome<u64>
    decreases steps,
{
    if steps == 0 || row < VMTYPE_STRIDE {
        Ok(row)
    } else {
        match vmtype_row(memory, (row - VMTYPE_STRIDE) as u64) {
            Err(reason) => Err(reason),
            Ok(None) => Ok(row),
            Ok(Some(_)) => vmtypes_start(
                memory,
                (row - VMTYPE_STRIDE) as u64,
                (steps - 1) as nat,
            ),
        }
    }
}

/// `sizes` with the rows of the table at `start` from the `index`-th on added. A later row for a
/// name replaces an earlier one.
pub open spec fn vmtypes_from(
    memory: Contents,
    start: u64,
    index: nat,
    sizes: Map<Seq<char>, u64>,
) -> Outcome<Map<Seq<char>, u64>>
    decreases MAX_ROWS - index,
{
    if index >= MAX_ROWS {
        Ok(sizes)
    } else {
        match vmtype_row(memory, start.wrapping_add((index * VMTYPE_STRIDE) as u64)) {
            Err(reason) => Err(reason),
            Ok(None) => Ok(sizes),
            Ok(Some((name, size))) => vmtypes_from(
                memory,
                start,
                index + 1,
                sizes.insert(name, size),
            ),
        }
    }
}

/// The sizes in the table of types that has a row at `anchor`.
pub open spec fn vmtypes_around(memory: Contents, anchor: u64) -> Outcome<Map<Seq<char>, u64>> {
    match vmtypes_start(memory, anchor, MAX_ROWS as nat) {
        Err(reason) => Err(reason),
        Ok(start) => match vmtypes_from(memory, start, 0, Map::empty()) {
            Err(reason) => Err(reason),
            Ok(sizes) => if sizes.len() < 50 {
                Err("VMTypes candidate is too short"@)
            } else {
                Ok(sizes)
            },
        },
    }
}

/// One for a type whose size is known.
pub open spec fn known(sizes: Map<Seq<char>, u64>, name: Seq<char>) -> nat {
    if sizes.contains_key(name) {
        1
    } else {
        0
    }
}

/// How many of the four required types have a size.
pub open spec fn vmtypes_score(sizes: Map<Seq<char>, u64>) -> nat {
    known(sizes, "ConstantPool"@) + known(sizes, "ConstMethod"@) + known(
        sizes,
        "ConstantPoolCache"@,
    ) + known(sizes, "ConstantPoolCacheEntry"@)
}

/// The better of a candidate so far and the table around `row`, if that is one: the score and the
/// sizes. Of equally good ones the first is kept.
pub open spec fn vmtypes_tried(
    memory: Contents,
    row: u64,
    best: Option<(nat, Map<Seq<char>, u64>)>,
) -> Option<(nat, Map<Seq<char>, u64>)> {
    match vmtypes_around(memory, row) {
        Err(_) => best,
        Ok(sizes) => if best matches Some(old) && vmtypes_score(sizes) <= old.0 {
            best
        } else {
            Some((vmtypes_score(sizes), sizes))
        },
    }
}

/// The best of the tables around the first `count` rows.
pub open spec fn vmtypes_best(memory: Contents, rows: Seq<u64>, count: nat) -> Option<
    (nat, Map<Seq<char>, u64>),
>
    decreases count,
{
    if count == 0 {
        None
    } else {
        vmtypes_tried(memory, rows[count - 1], vmtypes_best(memory, rows, (count - 1) as nat))
    }
}

/// The sizes in the table of types that the pages of the module hold.
pub open spec fn vmtypes_in(memory: Contents, pages: Seq<PageView>) -> Outcome<
    Map<Seq<char>, u64>,
> {
    let names = strings_of(pages, "ConstantPool"@);
    if names.len() == 0 {
        Err("VMTypes anchor string is absent"@)
    } else {
        let rows = pointers_of(pages, names.to_set());
        match vmtypes_best(memory, rows, rows.len()) {
            None => Err("could not locate a valid internal VMTypes table"@),
            Some((score, sizes)) => if score != 4 {
                Err("internal VMTypes candidate failed validation"@)
            } else {
                Ok(sizes)
            },
        }
    }
}

/// The tables that the module at `base` holds: the fields and the sizes.
pub open spec fn tables_in(memory: Contents, base: u64, size: nat) -> Outcome<
    (Seq<EntryView>, Map<Seq<char>, u64>),
> {
    match image_of(memory, base, size) {
        Err(reason) => Err(reason),
        Ok(pages) => match vmstructs_in(memory, pages) {
            Err(reason) => Err(reason),
            Ok(entries) => match vmtypes_in(memory, pages) {
                Err(reason) => Err(reason),
                Ok(sizes) => Ok((entries, sizes)),
            },
        },
    }
}

impl ModuleImage {
    /// Takes the image of the module at `base`.
    pub fn capture<M: RemoteMemory>(memory: &M, base: u64, size: usize) -> (result: Result<
        Self,
        Error,
    >)
        ensures
            seen(result) == image_of(memory.contents(), base, size as nat),
    {
        if size == 0 || size > MAX_IMAGE {
            return Err(Error::new("unreasonable jvm.dll image size"));
        }
        let ghost contents = memory.contents();
        let ghost all = page_pieces(contents, base, size as nat, 0);
        let ghost mut done: Seq<Piece> = Seq::empty();
        let mut pages: Vec<Page> = Vec::new();
        let mut offset: usize = 0;
        proof {
            assert(done + all =~= all);
            assert(views(pages@) =~= Seq::empty());
        }
        while offset < size
            invariant
                offset <= size,
                contents == memory.contents(),
                done + page_pieces(contents, base, size as nat, offset as nat) == all,
                views(pages@) == readable(done),
            decreases size - offset,
        {
            let length = if size - offset < PAGE_SIZE {
                size - offset
            } else {
                PAGE_SIZE
            };
            let address = base.wrapping_add(offset as u64);
            proof {
                let piece = piece_at(contents, address, length as nat);
                let rest = page_pieces(contents, base, size as nat, (offset + length) as nat);
                assert(done + (seq![piece] + rest) =~= done.push(piece) + rest);
                assert(done.push(piece).drop_last() =~= done);
                done = done.push(piece);
            }
            if let Ok(bytes) = read_bytes(memory, address, length) {
                let page = Page { base: address, bytes };
                proof {
                    views_push(pages@, page);
                }
                pages.push(page);
            }
            offset += length;
        }
        assert(done =~= all);
        if pages.len() == 0 {
            return Err(Error::new("no readable pages in jvm.dll"));
        }
        Ok(Self { pages })
    }

    /// The addresses at which the image holds `value` with its terminator.
    pub fn find_c_strings(&self, value: &str) -> (addresses: Vec<u64>)
        ensures
            addresses@ == strings_of(self@, value@),
    {
        let mut needle = copied(value.as_bytes());
        needle.push(0);
        let mut result: Vec<u64> = Vec::new();
        let mut index: usize = 0;
        assert(self@.take(0) =~= Seq::empty());
        while index < self.pages.len()
            invariant
                index <= self.pages@.len(),
                needle@ == encode_utf8(value@).push(0u8),
                result@ == addresses_of(self@.take(index as int), needle@),
            decreases self.pages@.len() - index,
        {
            let page = &self.pages[index];
            let found = find_subslices(page.bytes.as_slice(), needle.as_slice());
            let ghost before = result@;
            let mut hit: usize = 0;
            while hit < found.len()
                invariant
                    hit <= found@.len(),
                    result@ == before + addresses_at(
                        page.base,
                        positions(found@).take(hit as int),
                    ),
                decreases found@.len() - hit,
            {
                result.push(page.base.wrapping_add(found[hit] as u64));
                assert(result@ =~= before + addresses_at(
                    page.base,
                    positions(found@).take(hit + 1),
                ));
                hit += 1;
            }
            proof {
                assert(positions(found@).take(hit as int) =~= positions(found@));
                assert(self@.take(index + 1).drop_last() =~= self@.take(index as int));
                assert(self@.take(index + 1).last() == page@);
            }
            index += 1;
        }
        assert(self@.take(index as int) =~= self@);
        result
    }

    /// The addresses that are a multiple of eight at which the image has one of the words
    /// `wanted`.
    pub fn aligned_pointer_locations(&self, wanted: &HashSet<u64>) -> (locations: Vec<u64>)
        ensures
            locations@ == pointers_of(self@, wanted@),
    {
        let mut result: Vec<u64> = Vec::new();
        let mut index: usize = 0;
        assert(self@.take(0) =~= Seq::empty());
        while index < self.pages.len()
            invariant
                index <= self.pages@.len(),
                result@ == pointers_of(self@.take(index as int), wanted@),
            decreases self.pages@.len() - index,
        {
            let page = &self.pages[index];
            let ghost before = result@;
            let mut at: usize = alignment_gap(page.base);
            let ghost all = pointers_from(page@, wanted@, at as nat);
            assert(before + all =~= result@ + all);
            while at < page.bytes.len() && page.bytes.len() - at >= 8
                invariant
                    before + all == result@ + pointers_from(page@, wanted@, at as nat),
                decreases page.bytes@.len() - at,
            {
                let value = read_word(page.bytes.as_slice(), at);
                if wanted.contains(&value) {
                    let ghost rest = pointers_from(page@, wanted@, (at + 8) as nat);
                    let ghost so_far = result@;
                    result.push(page.base.wrapping_add(at as u64));
                    assert(so_far + (seq![page.base.wrapping_add(at as u64)] + rest) =~= result@
                        + rest);
                }
                at += 8;
            }
            proof {
                assert(result@ + Seq::<u64>::empty() =~= result@);
                assert(self@.take(index + 1).drop_last() =~= self@.take(index as int));
                assert(self@.take(index + 1).last() == page@);
            }
            index += 1;
        }
        assert(self@.take(index as int) =~= self@);
        result
    }
}

fn set_of(items: &Vec<u64>) -> (set: HashSet<u64>)
    ensures
        set@ == items@.to_set(),
{
    let mut set: HashSet<u64> = HashSet::new();
    let mut index: usize = 0;
    while index < items.len()
        invariant
            index <= items@.len(),
            forall|item: u64| #[trigger]
                set@.contains(item) <==> items@.take(index as int).contains(item),
        decreases items@.len() - index,
    {
        let ghost before = items@.take(index as int);
        let ghost after = items@.take(index + 1);
        set.insert(items[index]);
        proof {
            assert(after =~= before.push(items@[index as int]));
            assert forall|item: u64| #[trigger] set@.contains(item) <==> after.contains(item) by {
                if before.contains(item) {
                    let i = choose|i: int| 0 <= i < before.len() && before[i] == item;
                    assert(after[i] == item);
                }
                if item == items@[index as int] {
                    assert(after[index as int] == item);
                }
                if after.contains(item) && item != items@[index as int] {
                    let i = choose|i: int| 0 <= i < after.len() && after[i] == item;
                    assert(before[i] == item);
                }
            }
        }
        index += 1;
    }
    proof {
        assert(items@.take(index as int) =~= items@);
        assert(set@ =~= items@.to_set());
    }
    set
}

fn read_table_string<M: RemoteMemory>(memory: &M, address: u64) -> (result: Result<String, Error>)
    ensures
        seen(result) == table_string_at(memory.contents(), address),
{
    let value = memory.read_c_string(address, MAX_NAME)?;
    let bytes = value.as_str().as_bytes();
    if bytes.len() == 0 {
        return Err(Error::new("invalid table string"));
    }
    let mut index: usize = 0;
    while index < bytes.len()
        invariant
            index <= bytes@.len(),
            bytes@ == encode_utf8(value@),
            c_string_at(memory.contents(), address, MAX_NAME as nat) == Ok::<Seq<char>, Seq<char>>(
                value@,
            ),
            forall|i: int| 0 <= i < index ==> is_printable(#[trigger] bytes@[i]),
        decreases bytes@.len() - index,
    {
        let byte = bytes[index];
        if byte != 9 && (byte < 0x20 || byte > 0x7e) {
            assert(!is_printable(bytes@[index as int]));
            return Err(Error::new("invalid table string"));
        }
        index += 1;
    }
    Ok(value)
}

fn check_table_string<M: RemoteMemory>(memory: &M, address: u64) -> (result: Result<(), Error>)
    ensures
        match table_string_check(memory.contents(), address) {
            Err(reason) => result matches Err(error) && error@ == reason,
            Ok(_) => result is Ok,
        },
{
    if address != 0 {
        read_table_string(memory, address)?;
    }
    Ok(())
}

fn read_vmstruct_row<M: RemoteMemory>(memory: &M, row: u64) -> (result: Result<
    Option<VmStructEntry>,
    Error,
>)
    ensures
        match vmstruct_row(memory.contents(), row) {
            Err(reason) => result matches Err(error) && error@ == reason,
            Ok(None) => result matches Ok(None),
            Ok(Some(view)) => result matches Ok(Some(entry)) && entry@ == view,
        },
{
    let struct_name_at = memory.read_u64(row)?;
    if struct_name_at == 0 {
        return Ok(None);
    }
    let field_name_at = memory.read_u64(row.wrapping_add(8))?;
    if field_name_at == 0 {
        return Err(Error::new("invalid VMStruct field pointer"));
    }
    let type_string_at = memory.read_u64(row.wrapping_add(16))?;
    let is_static = memory.read_u32(row.wrapping_add(24))?;
    if is_static > 1 {
        return Err(Error::new("invalid VMStruct static marker"));
    }
    let offset = memory.read_u64(row.wrapping_add(32))?;
    let address = memory.read_u64(row.wrapping_add(40))?;
    if is_static == 0 && offset > 0x1_0000 {
        return Err(Error::new("implausible VMStruct offset"));
    }
    let struct_name = read_table_string(memory, struct_name_at)?;
    let field_name = read_table_string(memory, field_name_at)?;
    check_table_string(memory, type_string_at)?;
    Ok(Some(VmStructEntry { struct_name, field_name, offset, address }))
}

fn find_vmstructs_start<M: RemoteMemory>(memory: &M, anchor: u64) -> (result: Result<u64, Error>)
    ensures
        seen(result) == vmstructs_start(memory.contents(), anchor, MAX_ROWS as nat),
{
    let mut start = anchor;
    let mut steps: u64 = MAX_ROWS;
    while steps > 0 && start >= VMSTRUCT_STRIDE
        invariant
            vmstructs_start(memory.contents(), anchor, MAX_ROWS as nat) == vmstructs_start(
                memory.contents(),
                start,
                steps as nat,
            ),
        decreases steps,
    {
        let previous = start - VMSTRUCT_STRIDE;
        if read_vmstruct_row(memory, previous)?.is_none() {
            return Ok(start);
        }
        start = previous;
        steps -= 1;
    }
    Ok(start)
}

fn parse_vmstruct_table<M: RemoteMemory>(memory: &M, anchor: u64) -> (result: Result<
    Vec<VmStructEntry>,
    Error,
>)
    ensures
        match vmstructs_around(memory.contents(), anchor) {
            Err(reason) => result matches Err(error) && error@ == reason,
            Ok(entries) => result matches Ok(found) && views(found@) == entries,
        },
{
    let start = find_vmstructs_start(memory, anchor)?;
    let mut entries: Vec<VmStructEntry> = Vec::new();
    let mut index: u64 = 0;
    let ghost all = vmstructs_from(memory.contents(), start, 0);
    proof {
        assert(views(entries@) =~= Seq::empty());
        followed_by_nothing(Seq::empty(), all);
    }
    while index < MAX_ROWS
        invariant_except_break
            index <= MAX_ROWS,
            vmstructs_start(memory.contents(), anchor, MAX_ROWS as nat) == Ok::<u64, Seq<char>>(
                start,
            ),
            all == vmstructs_from(memory.contents(), start, 0),
            all == followed_by(
                views(entries@),
                vmstructs_from(memory.contents(), start, index as nat),
            ),
        ensures
            all == Ok::<Seq<EntryView>, Seq<char>>(views(entries@)),
        decreases MAX_ROWS - index,
    {
        let row = start.wrapping_add(index * VMSTRUCT_STRIDE);
        match read_vmstruct_row(memory, row)? {
            Some(entry) => {
                proof {
                    views_push(entries@, entry);
                    followed_by_push(
                        views(entries@),
                        entry@,
                        vmstructs_from(memory.contents(), start, (index + 1) as nat),
                    );
                }
                entries.push(entry);
            },
            None => {
                proof {
                    followed_by_nothing(views(entries@), Err(Seq::empty()));
                }
                break;
            },
        }
        index += 1;
        proof {
            followed_by_nothing(views(entries@), Err(Seq::empty()));
        }
    }
    if entries.len() < 100 {
        return Err(Error::new("VMStructs candidate is too short"));
    }
    Ok(entries)
}

fn required_field(index: usize) -> (field: (&'static str, &'static str))
    requires
        index < 18,
    ensures
        (field.0@, field.1@) == required_fields()[index as int],
{
    match index {
        0 => ("SystemDictionary", "_dictionary"),
        1 => ("BasicHashtable<mtInternal>", "_table_size"),
        2 => ("BasicHashtable<mtInternal>", "_buckets"),
        3 => ("HashtableBucket<mtInternal>", "_entry"),
        4 => ("BasicHashtableEntry<mtInternal>", "_next"),
        5 => ("IntptrHashtableEntry", "_literal"),
        6 => ("Klass", "_name"),
        7 => ("Klass", "_super"),
        8 => ("Klass", "_access_flags"),
        9 => ("Symbol", "_length"),
        10 => ("Symbol", "_body"),
        11 => ("InstanceKlass", "_constants"),
        12 => ("InstanceKlass", "_fields"),
        13 => ("InstanceKlass", "_methods"),
        14 => ("ConstantPool", "_tags"),
        15 => ("ConstantPool", "_length"),
        16 => ("Method", "_constMethod"),
        _ => ("ConstMethod", "_code_size"),
    }
}

fn is_described(entries: &Vec<VmStructEntry>, struct_name: &str, field_name: &str) -> (is: bool)
    ensures
        is == describes(views(entries@), (struct_name@, field_name@)),
{
    let ghost all = views(entries@);
    let mut index: usize = 0;
    while index < entries.len()
        invariant
            index <= entries@.len(),
            all == views(entries@),
            forall|i: int|
                0 <= i < index ==> !((#[trigger] all[i]).struct_name == struct_name@
                    && all[i].field_name == field_name@),
        decreases entries@.len() - index,
    {
        let entry = &entries[index];
        assert(all[index as int] == entry@);
        if same_text(entry.struct_name.as_str(), struct_name) && same_text(
            entry.field_name.as_str(),
            field_name,
        ) {
            return true;
        }
        index += 1;
    }
    false
}

fn vmstruct_score(entries: &Vec<VmStructEntry>) -> (score: u64)
    ensures
        score == vmstructs_score(views(entries@)),
        score <= 18,
{
    let mut score: u64 = 0;
    let mut index: usize = 0;
    while index < 18
        invariant
            index <= 18,
            score <= index,
            score == fields_described(views(entries@), index as nat),
        decreases 18 - index,
    {
        let (struct_name, field_name) = required_field(index);
        if is_described(entries, struct_name, field_name) {
            score += 1;
        }
        index += 1;
    }
    score
}

/// A scored candidate, its entries as a sequence.
spec fn scored_entries(best: Option<(u64, Vec<VmStructEntry>)>) -> Option<(nat, Seq<EntryView>)> {
    match best {
        None => None,
        Some((score, entries)) => Some((score as nat, views(entries@))),
    }
}

fn infer_vmstructs<M: RemoteMemory>(memory: &M, image: &ModuleImage) -> (result: Result<
    VmStructTable,
    Error,
>)
    ensures
        seen(result) == vmstructs_in(memory.contents(), image@),
{
    let names = image.find_c_strings("SystemDictionary");
    let fields = image.find_c_strings("_dictionary");
    if names.len() == 0 || fields.len() == 0 {
        return Err(Error::new("VMStruct anchor strings are absent"));
    }
    let wanted = set_of(&names);
    let fields = set_of(&fields);
    let rows = image.aligned_pointer_locations(&wanted);
    let mut best: Option<(u64, Vec<VmStructEntry>)> = None;
    let mut index: usize = 0;
    while index < rows.len()
        invariant
            index <= rows@.len(),
            scored_entries(best) == vmstructs_best(
                memory.contents(),
                fields@,
                rows@,
                index as nat,
            ),
        decreases rows@.len() - index,
    {
        let row = rows[index];
        let field_name_at = match memory.read_u64(row.wrapping_add(8)) {
            Ok(pointer) => pointer,
            Err(_) => 0,
        };
        if fields.contains(&field_name_at) {
            if let Ok(entries) = parse_vmstruct_table(memory, row) {
                let score = vmstruct_score(&entries);
                let better = match &best {
                    Some(old) => score > old.0,
                    None => true,
                };
                if better {
                    best = Some((score, entries));
                }
            }
        }
        index += 1;
    }
    match best {
        None => Err(Error::new("could not locate a valid internal VMStructs table")),
        Some((score, entries)) => {
            if score < 18 {
                let text = joined(
                    "internal VMStructs candidate failed validation (",
                    decimal_text(score).as_str(),
                );
                return Err(Error { text: joined(text.as_str(), "/18 required fields)") });
            }
            Ok(VmStructTable::inferred(entries))
        },
    }
}

fn check_markers<M: RemoteMemory>(memory: &M, row: u64) -> (result: Result<(), Error>)
    ensures
        match markers_check(memory.contents(), row, 16) {
            Err(reason) => result matches Err(error) && error@ == reason,
            Ok(_) => result is Ok,
        },
{
    let mut offset: u64 = 16;
    while offset <= 24
        invariant
            16 <= offset <= 28,
            markers_check(memory.contents(), row, 16) == markers_check(
                memory.contents(),
                row,
                offset,
            ),
        decreases 28 - offset,
    {
        if memory.read_u32(row.wrapping_add(offset))? > 1 {
            return Err(Error::new("invalid VMType boolean"));
        }
        offset += 4;
    }
    Ok(())
}

fn read_vmtype_row<M: RemoteMemory>(memory: &M, row: u64) -> (result: Result<
    Option<(String, u64)>,
    Error,
>)
    ensures
        match vmtype_row(memory.contents(), row) {
            Err(reason) => result matches Err(error) && error@ == reason,
            Ok(None) => result matches Ok(None),
            Ok(Some((name, size))) => result matches Ok(Some(found)) && found.0@ == name && found.1
                == size,
        },
{
    let name_at = memory.read_u64(row)?;
    if name_at == 0 {
        return Ok(None);
    }
    let super_at = memory.read_u64(row.wrapping_add(8))?;
    check_markers(memory, row)?;
    let size = memory.read_u64(row.wrapping_add(32))?;
    if size == 0 || size > 0x1_0000 {
        return Err(Error::new("implausible VMType size"));
    }
    let name = read_table_string(memory, name_at)?;
    check_table_string(memory, super_at)?;
    Ok(Some((name, size)))
}

fn find_vmtypes_start<M: RemoteMemory>(memory: &M, anchor: u64) -> (result: Result<u64, Error>)
    ensures
        seen(result) == vmtypes_start(memory.contents(), anchor, MAX_ROWS as nat),
{
    let mut start = anchor;
    let mut steps: u64 = MAX_ROWS;
    while steps > 0 && start >= VMTYPE_STRIDE
        invariant
            vmtypes_start(memory.contents(), anchor, MAX_ROWS as nat) == vmtypes_start(
                memory.contents(),
                start,
                steps as nat,
            ),
        decreases steps,
    {
        let previous = start - VMTYPE_STRIDE;
        if read_vmtype_row(memory, previous)?.is_none() {
            return Ok(start);
        }
        start = previous;
        steps -= 1;
    }
    Ok(start)
}

fn parse_vmtype_table<M: RemoteMemory>(memory: &M, anchor: u64) -> (result: Result<
    StringHashMap<u64>,
    Error,
>)
    ensures
        seen(result) == vmtypes_around(memory.contents(), anchor),
{
    let start = find_vmtypes_start(memory, anchor)?;
    let mut sizes: StringHashMap<u64> = StringHashMap::new();
    let mut index: u64 = 0;
    let ghost all = vmtypes_from(memory.contents(), start, 0, Map::empty());
    while index < MAX_ROWS
        invariant_except_break
            index <= MAX_ROWS,
            vmtypes_start(memory.contents(), anchor, MAX_ROWS as nat) == Ok::<u64, Seq<char>>(
                start,
            ),
            all == vmtypes_from(memory.contents(), start, 0, Map::empty()),
            all == vmtypes_from(memory.contents(), start, index as nat, sizes@),
        ensures
            all == Ok::<Map<Seq<char>, u64>, Seq<char>>(sizes@),
        decreases MAX_ROWS - index,
    {
        let row = start.wrapping_add(index * VMTYPE_STRIDE);
        match read_vmtype_row(memory, row)? {
            Some((name, size)) => {
                sizes.insert(name, size);
            },
            None => {
                break;
            },
        }
        index += 1;
    }
    if sizes.len() < 50 {
        return Err(Error::new("VMTypes candidate is too short"));
    }
    Ok(sizes)
}

fn vmtype_score(sizes: &StringHashMap<u64>) -> (score: u64)
    ensures
        score == vmtypes_score(sizes@),
{
    let mut score: u64 = 0;
    if sizes.contains_key("ConstantPool") {
        score += 1;
    }
    if sizes.contains_key("ConstMethod") {
        score += 1;
    }
    if sizes.contains_key("ConstantPoolCache") {
        score += 1;
    }
    if sizes.contains_key("ConstantPoolCacheEntry") {
        score += 1;
    }
    score
}

/// A scored candidate, its sizes as a map.
spec fn scored_sizes(best: Option<(u64, StringHashMap<u64>)>) -> Option<
    (nat, Map<Seq<char>, u64>),
> {
    match best {
        None => None,
        Some((score, sizes)) => Some((score as nat, sizes@)),
    }
}

fn infer_vmtypes<M: RemoteMemory>(memory: &M, image: &ModuleImage) -> (result: Result<
    VmTypes,
    Error,
>)
    ensures
        seen(result) == vmtypes_in(memory.contents(), image@),
{
    let names = image.find_c_strings("ConstantPool");
    if names.len() == 0 {
        return Err(Error::new("VMTypes anchor string is absent"));
    }
    let wanted = set_of(&names);
    let rows = image.aligned_pointer_locations(&wanted);
    let mut best: Option<(u64, StringHashMap<u64>)> = None;
    let mut index: usize = 0;
    while index < rows.len()
        invariant
            index <= rows@.len(),
            scored_sizes(best) == vmtypes_best(memory.contents(), rows@, index as nat),
        decreases rows@.len() - index,
    {
        if let Ok(sizes) = parse_vmtype_table(memory, rows[index]) {
            let score = vmtype_score(&sizes);
            let better = match &best {
                Some(old) => score > old.0,
                None => true,
            };
            if better {
                best = Some((score, sizes));
            }
        }
        index += 1;
    }
    match best {
        None => Err(Error::new("could not locate a valid internal VMTypes table")),
        Some((score, sizes)) => {
            if score != 4 {
                return Err(Error::new("internal VMTypes candidate failed validation"));
            }
            Ok(VmTypes::inferred(sizes))
        },
    }
}

/// Finds the tables in the module at `module_base`.
pub fn infer<M: RemoteMemory>(memory: &M, module_base: u64, module_size: usize) -> (result: Result<
    InferredLayout,
    Error,
>)
    ensures
        match tables_in(memory.contents(), module_base, module_size as nat) {
            Err(reason) => result matches Err(error) && error@ == reason,
            Ok((entries, sizes)) => result matches Ok(found) && found.structs@ == entries
                && found.types@ == sizes,
        },
{
    let image = ModuleImage::capture(memory, module_base, module_size)?;
    let structs = infer_vmstructs(memory, &image)?;
    let types = infer_vmtypes(memory, &image)?;
    Ok(InferredLayout { structs, types })
}

/// The best candidate was scored by what it describes, and it has enough rows.
proof fn best_vmstructs_is_scored(memory: Contents, fields: Set<u64>, rows: Seq<u64>, count: nat)
    ensures
        vmstructs_best(memory, fields, rows, count) matches Some((score, entries)) ==> score
            == vmstructs_score(entries) && entries.len() >= 100,
    decreases count,
{
    if count > 0 {
        best_vmstructs_is_scored(memory, fields, rows, (count - 1) as nat);
    }
}

proof fn best_vmtypes_is_scored(memory: Contents, rows: Seq<u64>, count: nat)
    ensures
        vmtypes_best(memory, rows, count) matches Some((score, sizes)) ==> score == vmtypes_score(
            sizes,
        ) && sizes.len() >= 50,
    decreases count,
{
    if count > 0 {
        best_vmtypes_is_scored(memory, rows, (count - 1) as nat);
    }
}

proof fn full_score_describes_all(entries: Seq<EntryView>, count: nat)
    ensures
        fields_described(entries, count) <= count,
        fields_described(entries, count) == count ==> forall|i: int|
            0 <= i < count ==> describes(entries, #[trigger] required_fields()[i]),
    decreases count,
{
    if count > 0 {
        full_score_describes_all(entries, (count - 1) as nat);
    }
}

/// Tables are taken only if they are complete: every required field is described and every
/// required type has a size.
pub proof fn inferred_tables_are_complete(memory: Contents, base: u64, size: nat)
    ensures
        tables_in(memory, base, size) matches Ok((entries, sizes)) ==> {
            &&& entries.len() >= 100
            &&& forall|i: int|
                0 <= i < 18 ==> describes(entries, #[trigger] required_fields()[i])
            &&& sizes.len() >= 50
            &&& sizes.contains_key("ConstantPool"@)
            &&& sizes.contains_key("ConstMethod"@)
            &&& sizes.contains_key("ConstantPoolCache"@)
            &&& sizes.contains_key("ConstantPoolCacheEntry"@)
        },
{
    if let Ok(pages) = image_of(memory, base, size) {
        let fields = strings_of(pages, "_dictionary"@).to_set();
        let rows = pointers_of(pages, strings_of(pages, "SystemDictionary"@).to_set());
        best_vmstructs_is_scored(memory, fields, rows, rows.len());
        if let Ok(entries) = vmstructs_in(memory, pages) {
            full_score_describes_all(entries, 18);
        }
        let type_rows = pointers_of(pages, strings_of(pages, "ConstantPool"@).to_set());
        best_vmtypes_is_scored(memory, type_rows, type_rows.len());
    }
}

} // verus!
