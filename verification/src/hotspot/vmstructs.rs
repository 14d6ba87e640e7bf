//! The table in which HotSpot describes the fields of its structures.
use vstd::hash_map::StringHashMap;
use vstd::prelude::*;

use crate::lists::{followed_by, followed_by_nothing, followed_by_push, views, views_push};
use crate::platform::{c_string_at, u32_at, u64_at, Contents, RemoteMemory};
use crate::text::{
    decimal_digits, decimal_text, joined, plain, same_text, seen, with_context, Error, Outcome,
};

verus! {

/// The most rows that a table is believed to have.
pub const MAX_VM_STRUCTS: u64 = 100_000;

/// The longest name that is read, with its terminator.
pub const MAX_NAME: usize = 512;

/// A described field: where it lies in its structure, or at which address if it is static.
#[derive(Debug, Clone)]
pub struct VmStructEntry {
    pub struct_name: String,
    pub field_name: String,
    pub offset: u64,
    pub address: u64,
}

/// A described field, its names as sequences of characters.
pub struct EntryView {
    pub struct_name: Seq<char>,
    pub field_name: Seq<char>,
    pub offset: u64,
    pub address: u64,
}

impl View for VmStructEntry {
    type V = EntryView;

    open spec fn view(&self) -> EntryView {
        EntryView {
            struct_name: self.struct_name@,
            field_name: self.field_name@,
            offset: self.offset,
            address: self.address,
        }
    }
}

/// The described fields, in the order of the table.
#[derive(Debug)]
pub struct VmStructTable {
    pub entries: Vec<VmStructEntry>,
}

impl View for VmStructTable {
    type V = Seq<EntryView>;

    open spec fn view(&self) -> Seq<EntryView> {
        views(self.entries@)
    }
}

/// The first of `entries` that describes the field `field_name` of `struct_name`.
pub open spec fn first_entry(
    entries: Seq<EntryView>,
    struct_name: Seq<char>,
    field_name: Seq<char>,
) -> Option<EntryView>
    decreases entries.len(),
{
    if entries.len() == 0 {
        None
    } else if entries[0].struct_name == struct_name && entries[0].field_name == field_name {
        Some(entries[0])
    } else {
        first_entry(entries.skip(1), struct_name, field_name)
    }
}

/// The value of the exported variable `name`.
pub open spec fn exported_value(
    memory: Contents,
    exports: Map<Seq<char>, u64>,
    name: Seq<char>,
) -> Outcome<u64> {
    if !exports.contains_key(name) {
        Err("jvm.dll does not export "@ + name)
    } else {
        match u64_at(memory, exports[name]) {
            Err(reason) => Err(with_context("cannot read exported value "@ + name, reason)),
            Ok(value) => Ok(value),
        }
    }
}

/// Where the columns of the table lie in a row, and how far the rows are apart.
#[derive(Debug, Clone, Copy)]
pub struct RowLayout {
    pub struct_name: u64,
    pub field_name: u64,
    pub type_string: u64,
    pub is_static: u64,
    pub offset: u64,
    pub address: u64,
    pub stride: u64,
}

/// The columns as the exported variables give them.
pub open spec fn exported_row_layout(memory: Contents, exports: Map<Seq<char>, u64>) -> Outcome<
    RowLayout,
> {
    match exported_value(memory, exports, "gHotSpotVMStructEntryTypeNameOffset"@) {
        Err(reason) => Err(reason),
        Ok(struct_name) => match exported_value(
            memory,
            exports,
            "gHotSpotVMStructEntryFieldNameOffset"@,
        ) {
            Err(reason) => Err(reason),
            Ok(field_name) => match exported_value(
                memory,
                exports,
                "gHotSpotVMStructEntryTypeStringOffset"@,
            ) {
                Err(reason) => Err(reason),
                Ok(type_string) => match exported_value(
                    memory,
                    exports,
                    "gHotSpotVMStructEntryIsStaticOffset"@,
                ) {
                    Err(reason) => Err(reason),
                    Ok(is_static) => match exported_value(
                        memory,
                        exports,
                        "gHotSpotVMStructEntryOffsetOffset"@,
                    ) {
                        Err(reason) => Err(reason),
                        Ok(offset) => match exported_value(
                            memory,
                            exports,
                            "gHotSpotVMStructEntryAddressOffset"@,
                        ) {
                            Err(reason) => Err(reason),
                            Ok(address) => match exported_value(
                                memory,
                                exports,
                                "gHotSpotVMStructEntryArrayStride"@,
                            ) {
                                Err(reason) => Err(reason),
                                Ok(stride) => Ok(
                                    RowLayout {
                                        struct_name,
                                        field_name,
                                        type_string,
                                        is_static,
                                        offset,
                                        address,
                                        stride,
                                    },
                                ),
                            },
                        },
                    },
                },
            },
        },
    }
}

/// The names, the offset and the address of a row whose name pointers are known. The last column
/// has to be readable too.
pub open spec fn row_entry(
    memory: Contents,
    row: u64,
    layout: RowLayout,
    struct_name_ptr: u64,
    field_name_ptr: u64,
) -> Outcome<EntryView> {
    match c_string_at(memory, struct_name_ptr, MAX_NAME as nat) {
        Err(reason) => Err(reason),
        Ok(struct_name) => match c_string_at(memory, field_name_ptr, MAX_NAME as nat) {
            Err(reason) => Err(reason),
            Ok(field_name) => match u64_at(memory, row.wrapping_add(layout.offset)) {
                Err(reason) => Err(reason),
                Ok(offset) => match u64_at(memory, row.wrapping_add(layout.address)) {
                    Err(reason) => Err(reason),
                    Ok(address) => match u32_at(memory, row.wrapping_add(layout.is_static)) {
                        Err(reason) => Err(reason),
                        Ok(_) => Ok(EntryView { struct_name, field_name, offset, address }),
                    },
                },
            },
        },
    }
}

/// The row at address `row`, the `index`-th of its table: `None` at the end of the table.
pub open spec fn table_row(memory: Contents, row: u64, layout: RowLayout, index: nat) -> Outcome<
    Option<EntryView>,
> {
    match u64_at(memory, row.wrapping_add(layout.struct_name)) {
        Err(reason) => Err(reason),
        Ok(struct_name_ptr) => if struct_name_ptr == 0 {
            Ok(None)
        } else {
            match u64_at(memory, row.wrapping_add(layout.field_name)) {
                Err(reason) => Err(reason),
                Ok(field_name_ptr) => if field_name_ptr == 0 {
                    Err("VMStructs entry #"@ + decimal_digits(index) + " has no field name"@)
                } else {
                    match u64_at(memory, row.wrapping_add(layout.type_string)) {
                        Err(reason) => Err(reason),
                        Ok(type_string_ptr) => match type_string_check(memory, type_string_ptr) {
                            Err(reason) => Err(reason),
                            Ok(_) => match row_entry(
                                memory,
                                row,
                                layout,
                                struct_name_ptr,
                                field_name_ptr,
                            ) {
                                Err(reason) => Err(reason),
                                Ok(entry) => Ok(Some(entry)),
                            },
                        },
                    }
                },
            }
        },
    }
}

/// A row may go without a type string; one that it points to has to be readable.
pub open spec fn type_string_check(memory: Contents, pointer: u64) -> Outcome<()> {
    if pointer == 0 {
        Ok(())
    } else {
        match c_string_at(memory, pointer, MAX_NAME as nat) {
            Err(reason) => Err(reason),
            Ok(_) => Ok(()),
        }
    }
}

/// The rows from the `index`-th on, up to the end of the table.
pub open spec fn table_rows(
    memory: Contents,
    table: u64,
    layout: RowLayout,
    index: nat,
) -> Outcome<Seq<EntryView>>
    decreases MAX_VM_STRUCTS - index,
{
    if index >= MAX_VM_STRUCTS {
        Err("VMStructs table exceeds safety limit"@)
    } else {
        let row = table.wrapping_add((index as u64).wrapping_mul(layout.stride));
        match table_row(memory, row, layout, index) {
            Err(reason) => Err(reason),
            Ok(None) => Ok(Seq::empty()),
            Ok(Some(entry)) => followed_by(
                seq![entry],
                table_rows(memory, table, layout, index + 1),
            ),
        }
    }
}

/// The exported table.
pub open spec fn exported_table(memory: Contents, exports: Map<Seq<char>, u64>) -> Outcome<
    Seq<EntryView>,
> {
    match exported_value(memory, exports, "gHotSpotVMStructs"@) {
        Err(reason) => Err(reason),
        Ok(table) => match exported_row_layout(memory, exports) {
            Err(reason) => Err(reason),
            Ok(layout) => if table == 0 || !(32 <= layout.stride <= 256) {
                Err("invalid VMStructs table layout"@)
            } else {
                table_rows(memory, table, layout, 0)
            },
        },
    }
}

fn read_export_u64<M: RemoteMemory>(
    memory: &M,
    exports: &StringHashMap<u64>,
    name: &str,
) -> (result: Result<u64, Error>)
    ensures
        seen(result) == exported_value(memory.contents(), exports@, name@),
{
    match exports.get(name) {
        None => Err(Error { text: joined("jvm.dll does not export ", name) }),
        Some(address) => match memory.read_u64(*address) {
            Ok(value) => Ok(value),
            Err(error) => Err(error.context(joined("cannot read exported value ", name).as_str())),
        },
    }
}

fn read_row_layout<M: RemoteMemory>(memory: &M, exports: &StringHashMap<u64>) -> (result: Result<
    RowLayout,
    Error,
>)
    ensures
        plain(result) == exported_row_layout(memory.contents(), exports@),
{
    Ok(
        RowLayout {
            struct_name: read_export_u64(memory, exports, "gHotSpotVMStructEntryTypeNameOffset")?,
            field_name: read_export_u64(memory, exports, "gHotSpotVMStructEntryFieldNameOffset")?,
            type_string: read_export_u64(memory, exports, "gHotSpotVMStructEntryTypeStringOffset")?,
            is_static: read_export_u64(memory, exports, "gHotSpotVMStructEntryIsStaticOffset")?,
            offset: read_export_u64(memory, exports, "gHotSpotVMStructEntryOffsetOffset")?,
            address: read_export_u64(memory, exports, "gHotSpotVMStructEntryAddressOffset")?,
            stride: read_export_u64(memory, exports, "gHotSpotVMStructEntryArrayStride")?,
        },
    )
}

fn read_row<M: RemoteMemory>(memory: &M, row: u64, layout: &RowLayout, index: u64) -> (result: Result<
    Option<VmStructEntry>,
    Error,
>)
    ensures
        match table_row(memory.contents(), row, *layout, index as nat) {
            Err(reason) => result matches Err(error) && error@ == reason,
            Ok(None) => result matches Ok(None),
            Ok(Some(view)) => result matches Ok(Some(entry)) && entry@ == view,
        },
{
    let struct_name_ptr = memory.read_u64(row.wrapping_add(layout.struct_name))?;
    if struct_name_ptr == 0 {
        return Ok(None);
    }
    let field_name_ptr = memory.read_u64(row.wrapping_add(layout.field_name))?;
    if field_name_ptr == 0 {
        let text = joined("VMStructs entry #", decimal_text(index).as_str());
        return Err(Error { text: joined(text.as_str(), " has no field name") });
    }
    let type_string_ptr = memory.read_u64(row.wrapping_add(layout.type_string))?;
    if type_string_ptr != 0 {
        memory.read_c_string(type_string_ptr, MAX_NAME)?;
    }
    let entry = VmStructEntry {
        struct_name: memory.read_c_string(struct_name_ptr, MAX_NAME)?,
        field_name: memory.read_c_string(field_name_ptr, MAX_NAME)?,
        offset: memory.read_u64(row.wrapping_add(layout.offset))?,
        address: memory.read_u64(row.wrapping_add(layout.address))?,
    };
    // Reading the marker is part of validating the row, though nothing needs its value.
    memory.read_u32(row.wrapping_add(layout.is_static))?;
    Ok(Some(entry))
}

impl VmStructTable {
    pub(crate) fn inferred(entries: Vec<VmStructEntry>) -> (table: Self)
        ensures
            table.entries == entries,
    {
        Self { entries }
    }

    /// Reads the table that the exported variables describe.
    pub fn read<M: RemoteMemory>(memory: &M, exports: &StringHashMap<u64>) -> (result: Result<
        Self,
        Error,
    >)
        ensures
            seen(result) == exported_table(memory.contents(), exports@),
    {
        let table = read_export_u64(memory, exports, "gHotSpotVMStructs")?;
        let layout = read_row_layout(memory, exports)?;
        if table == 0 || layout.stride < 32 || layout.stride > 256 {
            return Err(Error::new("invalid VMStructs table layout"));
        }
        let mut entries: Vec<VmStructEntry> = Vec::new();
        let mut index: u64 = 0;
        proof {
            assert(views(entries@) =~= Seq::empty());
            followed_by_nothing(
                Seq::empty(),
                table_rows(memory.contents(), table, layout, 0),
            );
        }
        while index < MAX_VM_STRUCTS
            invariant
                index <= MAX_VM_STRUCTS,
                exported_table(memory.contents(), exports@) == followed_by(
                    views(entries@),
                    table_rows(memory.contents(), table, layout, index as nat),
                ),
            decreases MAX_VM_STRUCTS - index,
        {
            let row = table.wrapping_add(index.wrapping_mul(layout.stride));
            match read_row(memory, row, &layout, index)? {
                None => {
                    proof {
                        followed_by_nothing(views(entries@), Err(Seq::empty()));
                    }
                    return Ok(Self { entries });
                },
                Some(entry) => {
                    proof {
                        views_push(entries@, entry);
                        followed_by_push(
                            views(entries@),
                            entry@,
                            table_rows(memory.contents(), table, layout, (index + 1) as nat),
                        );
                    }
                    entries.push(entry);
                },
            }
            index += 1;
        }
        Err(Error::new("VMStructs table exceeds safety limit"))
    }

    /// The first entry for the field `field_name` of `struct_name`.
    pub fn find(&self, struct_name: &str, field_name: &str) -> (result: Option<&VmStructEntry>)
        ensures
            match result {
                Some(entry) => first_entry(self@, struct_name@, field_name@) == Some(entry@),
                None => first_entry(self@, struct_name@, field_name@) is None,
            },
    {
        let mut index: usize = 0;
        assert(self@.skip(0) =~= self@);
        while index < self.entries.len()
            invariant
                index <= self.entries@.len(),
                first_entry(self@, struct_name@, field_name@) == first_entry(
                    self@.skip(index as int),
                    struct_name@,
                    field_name@,
                ),
            decreases self.entries@.len() - index,
        {
            let entry = &self.entries[index];
            assert(self@.skip(index as int)[0] == entry@);
            if same_text(entry.struct_name.as_str(), struct_name) && same_text(
                entry.field_name.as_str(),
                field_name,
            ) {
                return Some(entry);
            }
            assert(self@.skip(index as int).skip(1) =~= self@.skip(index + 1));
            index += 1;
        }
        None
    }
}

} // verus!
