//! What the exports of a module and the tables of a HotSpot are.
use vstd::prelude::*;

use super::pe::{
    export_at, export_directory, export_tables, exports_from, exports_of, ExportTables,
};
use super::vmstructs::{
    exported_row_layout, exported_table, exported_value, table_row, table_rows, type_string_check,
    EntryView, RowLayout,
};
use super::vmtypes::{exported_sizes, sizes_from};
use crate::platform::{c_string_at, u16_at, u32_at, u64_at, Contents};

verus! {

/// Whether the zero-terminated string at `address`, of at most 512 bytes with its terminator, is `name`.
pub open spec fn name_at(memory: Contents, address: u64, name: Seq<char>) -> bool {
    c_string_at(memory, address, 512) == Ok::<Seq<char>, Seq<char>>(name)
}

/// Whether the headers of the module at `base` lead to the export directory at `directory`: the letters
/// `MZ`, at 0x3c the place of the letters `PE` and two zeros, 24 bytes behind these the magic of a
/// 64-bit module, and 112 bytes behind that the place of the directory.
pub open spec fn leads_to_directory(memory: Contents, base: u64, directory: u64) -> bool {
    &&& u16_at(memory, base) == Ok::<u16, Seq<char>>(0x5a4d)
    &&& u32_at(memory, base.wrapping_add(0x3c)) matches Ok(headers)
    &&& u32_at(memory, base.wrapping_add(headers as u64)) == Ok::<u32, Seq<char>>(0x4550)
    &&& u16_at(memory, base.wrapping_add(headers as u64).wrapping_add(24)) == Ok::<u16, Seq<char>>(
        0x20b,
    )
    &&& u32_at(memory, base.wrapping_add(headers as u64).wrapping_add(136)) matches Ok(place)
    &&& place != 0
    &&& directory == base.wrapping_add(place as u64)
}

/// The table whose place relative to `base` stands at `at`.
pub open spec fn table_at(memory: Contents, base: u64, at: u64, table: u64) -> bool {
    u32_at(memory, at) matches Ok(place) && table == base.wrapping_add(place as u64)
}

/// Whether row `index` of the export directory at `directory` exports `name` at `address`. The row has
/// a name and an ordinal, which is the row of the function.
pub open spec fn is_export(
    memory: Contents,
    base: u64,
    directory: u64,
    index: nat,
    name: Seq<char>,
    address: u64,
) -> bool {
    &&& u32_at(memory, directory.wrapping_add(20)) matches Ok(functions)
    &&& u32_at(memory, directory.wrapping_add(28)) matches Ok(functions_place)
    &&& u32_at(memory, directory.wrapping_add(32)) matches Ok(names_place)
    &&& u32_at(memory, directory.wrapping_add(36)) matches Ok(ordinals_place)
    &&& u32_at(
        memory,
        base.wrapping_add(names_place as u64).wrapping_add((4 * index) as u64),
    ) matches Ok(name_place)
    &&& name_at(memory, base.wrapping_add(name_place as u64), name)
    &&& u16_at(
        memory,
        base.wrapping_add(ordinals_place as u64).wrapping_add((2 * index) as u64),
    ) matches Ok(ordinal)
    &&& ordinal < functions
    &&& u32_at(
        memory,
        base.wrapping_add(functions_place as u64).wrapping_add((4 * ordinal) as u64),
    ) matches Ok(place)
    &&& address == base.wrapping_add(place as u64)
}

/// Whether row `index` exports `name`.
pub open spec fn exports_name(
    memory: Contents,
    base: u64,
    directory: u64,
    index: nat,
    name: Seq<char>,
) -> bool {
    exists|address: u64| is_export(memory, base, directory, index, name, address)
}

/// Whether row `index` exports something.
pub open spec fn has_export(memory: Contents, base: u64, directory: u64, index: nat) -> bool {
    exists|name: Seq<char>| exports_name(memory, base, directory, index, name)
}

/// Whether `exports` are the exports in the first `count` rows: of several rows for a name the last
/// one counts.
pub open spec fn are_exports(
    memory: Contents,
    base: u64,
    directory: u64,
    count: nat,
    exports: Map<Seq<char>, u64>,
) -> bool {
    &&& forall|index: nat|
        index < count ==> #[trigger] has_export(memory, base, directory, index)
    &&& forall|name: Seq<char>| #[trigger]
        exports.contains_key(name) ==> exists|index: nat|
            index < count && #[trigger] is_export(
                memory,
                base,
                directory,
                index,
                name,
                exports[name],
            )
    &&& forall|index: nat, name: Seq<char>, address: u64|
        index < count && #[trigger] is_export(memory, base, directory, index, name, address) && (
        forall|later: nat|
            index < later < count ==> !#[trigger] exports_name(
                memory,
                base,
                directory,
                later,
                name,
            )) ==> exports.contains_key(name) && exports[name] == address
}

proof fn directory_is_found(memory: Contents, base: u64, directory: u64)
    ensures
        export_directory(memory, base) == Ok::<u64, Seq<char>>(directory) <==> leads_to_directory(
            memory,
            base,
            directory,
        ),
{
    if let Ok(headers) = u32_at(memory, base.wrapping_add(0x3c)) {
        let nt = base.wrapping_add(headers as u64);
        assert(nt.wrapping_add(24).wrapping_add(112) == nt.wrapping_add(136));
    }
}

proof fn export_is_read(
    memory: Contents,
    base: u64,
    directory: u64,
    tables: ExportTables,
    index: nat,
    name: Seq<char>,
    address: u64,
)
    requires
        export_tables(memory, base, directory) == Ok::<ExportTables, Seq<char>>(tables),
    ensures
        export_at(memory, base, tables, index) == Ok::<(Seq<char>, u64), Seq<char>>((name, address))
            <==> is_export(memory, base, directory, index, name, address),
{
}

proof fn exports_are_collected(
    memory: Contents,
    base: u64,
    directory: u64,
    tables: ExportTables,
    index: nat,
    found: Map<Seq<char>, u64>,
)
    requires
        export_tables(memory, base, directory) == Ok::<ExportTables, Seq<char>>(tables),
        index <= tables.name_count,
        are_exports(memory, base, directory, index, found),
    ensures
        exports_from(memory, base, tables, index, found) matches Ok(exports) ==> are_exports(
            memory,
            base,
            directory,
            tables.name_count as nat,
            exports,
        ),
        exports_from(memory, base, tables, index, found) is Ok <==> forall|i: nat|
            index <= i < tables.name_count ==> #[trigger] has_export(memory, base, directory, i),
    decreases tables.name_count - index,
{
    if index < tables.name_count {
        assert forall|name: Seq<char>, address: u64| #[trigger]
            is_export(memory, base, directory, index, name, address) implies export_at(
            memory,
            base,
            tables,
            index,
        ) == Ok::<(Seq<char>, u64), Seq<char>>((name, address)) by {
            export_is_read(memory, base, directory, tables, index, name, address);
        }
        if let Ok((name, address)) = export_at(memory, base, tables, index) {
            export_is_read(memory, base, directory, tables, index, name, address);
            let grown = found.insert(name, address);
            assert(exports_name(memory, base, directory, index, name));
            assert(has_export(memory, base, directory, index));
            assert forall|other: Seq<char>| #[trigger]
                grown.contains_key(other) implies exists|i: nat|
                i < index + 1 && #[trigger] is_export(
                    memory,
                    base,
                    directory,
                    i,
                    other,
                    grown[other],
                ) by {
                if other == name {
                    assert(is_export(memory, base, directory, index, other, grown[other]));
                } else {
                    assert(found.contains_key(other));
                    let i = choose|i: nat|
                        i < index && #[trigger] is_export(
                            memory,
                            base,
                            directory,
                            i,
                            other,
                            found[other],
                        );
                    assert(is_export(memory, base, directory, i, other, grown[other]));
                }
            }
            assert forall|i: nat, other: Seq<char>, place: u64|
                i < index + 1 && #[trigger] is_export(memory, base, directory, i, other, place) && (
                forall|later: nat|
                    i < later < index + 1 ==> !#[trigger] exports_name(
                        memory,
                        base,
                        directory,
                        later,
                        other,
                    )) implies grown.contains_key(other) && grown[other] == place by {
                if i < index {
                    assert(!exports_name(memory, base, directory, index, other));
                    assert(other != name);
                }
            }
            assert(are_exports(memory, base, directory, index + 1, grown));
            exports_are_collected(memory, base, directory, tables, index + 1, grown);
        } else {
            assert forall|name: Seq<char>| !#[trigger] exports_name(
                memory,
                base,
                directory,
                index,
                name,
            ) by {
                if exports_name(memory, base, directory, index, name) {
                    let address = choose|address: u64|
                        is_export(memory, base, directory, index, name, address);
                    assert(is_export(memory, base, directory, index, name, address));
                }
            }
            assert(!has_export(memory, base, directory, index));
        }
    }
}

/// The exports of a module are those in the rows of its export directory. They are refused only if the
/// headers do not lead to one, or a row cannot be read, or there are more than 100000.
pub proof fn exports_are_those_of_the_directory(
    memory: Contents,
    base: u64,
    directory: u64,
    functions: u32,
    names: u32,
)
    requires
        leads_to_directory(memory, base, directory),
        u32_at(memory, directory.wrapping_add(20)) == Ok::<u32, Seq<char>>(functions),
        u32_at(memory, directory.wrapping_add(24)) == Ok::<u32, Seq<char>>(names),
    ensures
        exports_of(memory, base) matches Ok(exports) ==> are_exports(
            memory,
            base,
            directory,
            names as nat,
            exports,
        ),
        exports_of(memory, base) is Ok ==> functions <= 100_000 && names <= 100_000,
        functions <= 100_000 && names <= 100_000 && u32_at(memory, directory.wrapping_add(28)) is Ok
            && u32_at(memory, directory.wrapping_add(32)) is Ok && u32_at(
            memory,
            directory.wrapping_add(36),
        ) is Ok ==> (exports_of(memory, base) is Ok <==> forall|i: nat|
            i < names ==> #[trigger] has_export(memory, base, directory, i)),
{
    directory_is_found(memory, base, directory);
    assert(are_exports(memory, base, directory, 0, Map::empty()));
    if let Ok(tables) = export_tables(memory, base, directory) {
        exports_are_collected(memory, base, directory, tables, 0, Map::empty());
    }
}

/// A module whose headers lead to no export directory is refused.
pub proof fn module_without_directory_is_refused(memory: Contents, base: u64)
    requires
        forall|directory: u64| !leads_to_directory(memory, base, directory),
    ensures
        exports_of(memory, base) is Err,
{
    if let Ok(directory) = export_directory(memory, base) {
        directory_is_found(memory, base, directory);
    }
}

/// Whether the exported variable `name` holds `value`.
pub open spec fn holds(
    memory: Contents,
    exports: Map<Seq<char>, u64>,
    name: Seq<char>,
    value: u64,
) -> bool {
    &&& exports.contains_key(name)
    &&& u64_at(memory, exports[name]) == Ok::<u64, Seq<char>>(value)
}

/// Whether the exported variables say that the rows of the table of fields are laid out as `layout`
/// says.
pub open spec fn rows_are_laid_out(
    memory: Contents,
    exports: Map<Seq<char>, u64>,
    layout: RowLayout,
) -> bool {
    &&& holds(memory, exports, "gHotSpotVMStructEntryTypeNameOffset"@, layout.struct_name)
    &&& holds(memory, exports, "gHotSpotVMStructEntryFieldNameOffset"@, layout.field_name)
    &&& holds(memory, exports, "gHotSpotVMStructEntryTypeStringOffset"@, layout.type_string)
    &&& holds(memory, exports, "gHotSpotVMStructEntryIsStaticOffset"@, layout.is_static)
    &&& holds(memory, exports, "gHotSpotVMStructEntryOffsetOffset"@, layout.offset)
    &&& holds(memory, exports, "gHotSpotVMStructEntryAddressOffset"@, layout.address)
    &&& holds(memory, exports, "gHotSpotVMStructEntryArrayStride"@, layout.stride)
}

/// Where row `index` of a table stands.
pub open spec fn row_at(table: u64, stride: u64, index: nat) -> u64 {
    table.wrapping_add((index as u64).wrapping_mul(stride))
}

/// Whether `entry` is the row at `row`: its two names, its offset and its address. The string of its
/// type may be missing but has to be one if it is there, and the marker of a static field has to be
/// readable.
pub open spec fn is_row_entry(
    memory: Contents,
    row: u64,
    layout: RowLayout,
    entry: EntryView,
) -> bool {
    &&& u64_at(memory, row.wrapping_add(layout.struct_name)) matches Ok(struct_name)
    &&& struct_name != 0
    &&& name_at(memory, struct_name, entry.struct_name)
    &&& u64_at(memory, row.wrapping_add(layout.field_name)) matches Ok(field_name)
    &&& field_name != 0
    &&& name_at(memory, field_name, entry.field_name)
    &&& u64_at(memory, row.wrapping_add(layout.offset)) == Ok::<u64, Seq<char>>(entry.offset)
    &&& u64_at(memory, row.wrapping_add(layout.address)) == Ok::<u64, Seq<char>>(entry.address)
    &&& u64_at(memory, row.wrapping_add(layout.type_string)) matches Ok(type_string)
    &&& type_string == 0 || exists|name: Seq<char>| name_at(memory, type_string, name)
    &&& u32_at(memory, row.wrapping_add(layout.is_static)) is Ok
}

/// Whether `entries` are the rows of the table, from the `index`-th on: it ends at the first row that
/// has no name of a structure, and has fewer than 100000 rows.
pub open spec fn are_rows(
    memory: Contents,
    table: u64,
    layout: RowLayout,
    index: nat,
    entries: Seq<EntryView>,
) -> bool {
    &&& index + entries.len() < 100_000
    &&& forall|i: nat|
        i < entries.len() ==> is_row_entry(
            memory,
            row_at(table, layout.stride, index + i),
            layout,
            #[trigger] entries[i as int],
        )
    &&& u64_at(
        memory,
        row_at(table, layout.stride, index + entries.len()).wrapping_add(layout.struct_name),
    ) == Ok::<u64, Seq<char>>(0)
}

proof fn row_is_read(memory: Contents, row: u64, layout: RowLayout, index: nat, entry: EntryView)
    ensures
        table_row(memory, row, layout, index) == Ok::<Option<EntryView>, Seq<char>>(Some(entry))
            <==> is_row_entry(memory, row, layout, entry),
        table_row(memory, row, layout, index) == Ok::<Option<EntryView>, Seq<char>>(None)
            <==> u64_at(memory, row.wrapping_add(layout.struct_name)) == Ok::<u64, Seq<char>>(0),
{
    if let Ok(type_string) = u64_at(memory, row.wrapping_add(layout.type_string)) {
        if let Ok(name) = c_string_at(memory, type_string, 512) {
            assert(name_at(memory, type_string, name));
        }
        assert(type_string != 0 ==> (type_string_check(memory, type_string) is Ok <==> exists|
            name: Seq<char>,
        |
            name_at(memory, type_string, name)));
    }
}

proof fn rows_are_read(
    memory: Contents,
    table: u64,
    layout: RowLayout,
    index: nat,
    entries: Seq<EntryView>,
)
    ensures
        table_rows(memory, table, layout, index) == Ok::<Seq<EntryView>, Seq<char>>(entries)
            <==> are_rows(memory, table, layout, index, entries),
    decreases 100_000 - index,
{
    if index < 100_000 {
        let row = row_at(table, layout.stride, index);
        let first = table_row(memory, row, layout, index);
        let rest = table_rows(memory, table, layout, index + 1);
        let whole = table_rows(memory, table, layout, index);
        if let Ok(Some(entry)) = first {
            row_is_read(memory, row, layout, index, entry);
        } else {
            row_is_read(memory, row, layout, index, arbitrary::<EntryView>());
        }
        if entries.len() == 0 {
            assert(index + entries.len() == index);
            assert(entries =~= Seq::<EntryView>::empty());
        } else {
            let tail = entries.subrange(1, entries.len() as int);
            assert(entries =~= seq![entries[0]] + tail);
            rows_are_read(memory, table, layout, index + 1, tail);
            row_is_read(memory, row, layout, index, entries[0]);
            if whole == Ok::<Seq<EntryView>, Seq<char>>(entries) {
                assert(first is Ok);
                if let Ok(Some(entry)) = first {
                    assert((seq![entry] + rest->Ok_0).subrange(1, entries.len() as int)
                        =~= rest->Ok_0);
                    assert(entries[0] == entry);
                }
                assert forall|i: nat| i < entries.len() implies is_row_entry(
                    memory,
                    row_at(table, layout.stride, index + i),
                    layout,
                    #[trigger] entries[i as int],
                ) by {
                    if i > 0 {
                        let before = (i - 1) as nat;
                        assert(tail[before as int] == entries[i as int]);
                        assert(index + 1 + before == index + i);
                    } else {
                        assert(index + i == index);
                    }
                }
                assert(index + 1 + tail.len() == index + entries.len());
            }
            if are_rows(memory, table, layout, index, entries) {
                assert(is_row_entry(
                    memory,
                    row_at(table, layout.stride, index + 0),
                    layout,
                    entries[0nat as int],
                ));
                assert forall|i: nat| i < tail.len() implies is_row_entry(
                    memory,
                    row_at(table, layout.stride, index + 1 + i),
                    layout,
                    #[trigger] tail[i as int],
                ) by {
                    let next = i + 1;
                    assert(tail[i as int] == entries[next as int]);
                    assert(index + next == index + 1 + i);
                }
                assert(index + 1 + tail.len() == index + entries.len());
                assert(are_rows(memory, table, layout, index + 1, tail));
            }
        }
    }
}

/// The table of fields is the rows that the exported variables lead to.
pub proof fn fields_are_those_of_the_table(
    memory: Contents,
    exports: Map<Seq<char>, u64>,
    table: u64,
    layout: RowLayout,
    entries: Seq<EntryView>,
)
    requires
        holds(memory, exports, "gHotSpotVMStructs"@, table),
        rows_are_laid_out(memory, exports, layout),
    ensures
        exported_table(memory, exports) == Ok::<Seq<EntryView>, Seq<char>>(entries) <==> table != 0
            && 32 <= layout.stride <= 256 && are_rows(memory, table, layout, 0, entries),
{
    assert(exported_row_layout(memory, exports) == Ok::<RowLayout, Seq<char>>(layout));
    rows_are_read(memory, table, layout, 0, entries);
}

/// The table of fields is refused unless the exported variables lead to one.
pub proof fn table_without_variables_is_refused(memory: Contents, exports: Map<Seq<char>, u64>)
    ensures
        exported_table(memory, exports) is Ok ==> exists|table: u64, layout: RowLayout|
            holds(memory, exports, "gHotSpotVMStructs"@, table) && rows_are_laid_out(
                memory,
                exports,
                layout,
            ),
{
    if exported_table(memory, exports) is Ok {
        let table = exported_value(memory, exports, "gHotSpotVMStructs"@)->Ok_0;
        let layout = exported_row_layout(memory, exports)->Ok_0;
        assert(holds(memory, exports, "gHotSpotVMStructs"@, table));
        assert(rows_are_laid_out(memory, exports, layout));
    }
}

/// The table of types: where it stands, how far its rows are apart, and where a row has its name and
/// its size.
pub struct TypeTable {
    pub table: u64,
    pub stride: u64,
    pub name: u64,
    pub size: u64,
}

/// Whether row `index` of the table of types says that the type `name` has the size `size`.
pub open spec fn is_sized(
    memory: Contents,
    types: TypeTable,
    index: nat,
    name: Seq<char>,
    size: u64,
) -> bool {
    let row = row_at(types.table, types.stride, index);
    &&& u64_at(memory, row.wrapping_add(types.name)) matches Ok(pointer)
    &&& pointer != 0
    &&& name_at(memory, pointer, name)
    &&& u64_at(memory, row.wrapping_add(types.size)) == Ok::<u64, Seq<char>>(size)
}

/// Whether row `index` is about the type `name`.
pub open spec fn is_about_type(
    memory: Contents,
    types: TypeTable,
    index: nat,
    name: Seq<char>,
) -> bool {
    exists|size: u64| is_sized(memory, types, index, name, size)
}

/// Whether row `index` is about some type.
pub open spec fn has_type(memory: Contents, types: TypeTable, index: nat) -> bool {
    exists|name: Seq<char>| is_about_type(memory, types, index, name)
}

/// Whether `sizes` are the sizes in the first `count` rows of the table of types: of several rows for a
/// name the last one counts.
pub open spec fn are_sizes(
    memory: Contents,
    types: TypeTable,
    count: nat,
    sizes: Map<Seq<char>, u64>,
) -> bool {
    &&& forall|name: Seq<char>| #[trigger]
        sizes.contains_key(name) ==> exists|index: nat|
            index < count && #[trigger] is_sized(memory, types, index, name, sizes[name])
    &&& forall|index: nat, name: Seq<char>, size: u64|
        index < count && #[trigger] is_sized(memory, types, index, name, size) && (forall|
            later: nat,
        |
            index < later < count ==> !#[trigger] is_about_type(memory, types, later, name))
            ==> sizes.contains_key(name) && sizes[name] == size
}

/// Whether the table of types has, from row `from` on, rows up to the `count`-th: each of them is about
/// a type, and the next has no name.
pub open spec fn has_type_rows(memory: Contents, types: TypeTable, from: nat, count: nat) -> bool {
    &&& from <= count < 100_000
    &&& forall|index: nat| from <= index < count ==> #[trigger] has_type(memory, types, index)
    &&& u64_at(
        memory,
        row_at(types.table, types.stride, count).wrapping_add(types.name),
    ) == Ok::<u64, Seq<char>>(0)
}

proof fn one_more_size(
    memory: Contents,
    types: TypeTable,
    index: nat,
    found: Map<Seq<char>, u64>,
    name: Seq<char>,
    size: u64,
)
    requires
        are_sizes(memory, types, index, found),
        is_sized(memory, types, index, name, size),
    ensures
        are_sizes(memory, types, index + 1, found.insert(name, size)),
{
    let grown = found.insert(name, size);
    assert(is_about_type(memory, types, index, name));
    assert forall|other: Seq<char>| #[trigger] grown.contains_key(other) implies exists|i: nat|
        i < index + 1 && #[trigger] is_sized(memory, types, i, other, grown[other]) by {
        if other == name {
            assert(is_sized(memory, types, index, other, grown[other]));
        } else {
            assert(found.contains_key(other));
            let i = choose|i: nat|
                i < index && #[trigger] is_sized(memory, types, i, other, found[other]);
            assert(is_sized(memory, types, i, other, grown[other]));
        }
    }
    assert forall|i: nat, other: Seq<char>, known: u64|
        i < index + 1 && #[trigger] is_sized(memory, types, i, other, known) && (forall|later: nat|
            i < later < index + 1 ==> !#[trigger] is_about_type(memory, types, later, other))
        implies grown.contains_key(other) && grown[other] == known by {
        if i < index {
            assert(!is_about_type(memory, types, index, other));
            assert(other != name);
        }
    }
}

proof fn sizes_are_collected(
    memory: Contents,
    types: TypeTable,
    index: nat,
    count: nat,
    found: Map<Seq<char>, u64>,
)
    requires
        has_type_rows(memory, types, index, count),
        are_sizes(memory, types, index, found),
    ensures
        sizes_from(
            memory,
            types.table,
            types.name,
            types.size,
            types.stride,
            index,
            found,
        ) matches Ok(sizes) && are_sizes(memory, types, count, sizes),
    decreases count - index,
{
    if index < count {
        assert(has_type(memory, types, index));
        let name = choose|name: Seq<char>| is_about_type(memory, types, index, name);
        assert(is_about_type(memory, types, index, name));
        let size = choose|size: u64| is_sized(memory, types, index, name, size);
        one_more_size(memory, types, index, found, name, size);
        sizes_are_collected(memory, types, index + 1, count, found.insert(name, size));
    }
}

/// The sizes of types are those in the rows of the table that the exported variables lead to.
pub proof fn sizes_are_those_of_the_table(
    memory: Contents,
    exports: Map<Seq<char>, u64>,
    types: TypeTable,
    count: nat,
)
    requires
        holds(memory, exports, "gHotSpotVMTypes"@, types.table),
        holds(memory, exports, "gHotSpotVMTypeEntryTypeNameOffset"@, types.name),
        holds(memory, exports, "gHotSpotVMTypeEntrySizeOffset"@, types.size),
        holds(memory, exports, "gHotSpotVMTypeEntryArrayStride"@, types.stride),
        has_type_rows(memory, types, 0, count),
    ensures
        exported_sizes(memory, exports) is Ok <==> types.table != 0 && 24 <= types.stride <= 256,
        exported_sizes(memory, exports) matches Ok(sizes) ==> are_sizes(
            memory,
            types,
            count,
            sizes,
        ),
{
    sizes_are_collected(memory, types, 0, count, Map::empty());
}

} // verus!
