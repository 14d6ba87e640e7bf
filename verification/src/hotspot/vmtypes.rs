//! The table in which HotSpot gives the sizes of its types.
use vstd::hash_map::StringHashMap;
use vstd::prelude::*;

use super::vmstructs::MAX_NAME;
use crate::platform::{c_string_at, u64_at, Contents, RemoteMemory};
use crate::text::{joined, seen, Error, Outcome};

verus! {

/// The most rows that a table is believed to have.
pub const LIMIT: u64 = 100_000;

/// The sizes of types, by name.
pub struct VmTypes {
    sizes: StringHashMap<u64>,
}

impl View for VmTypes {
    type V = Map<Seq<char>, u64>;

    closed spec fn view(&self) -> Map<Seq<char>, u64> {
        self.sizes@
    }
}

/// The size of the type `name`.
pub open spec fn size_of_type(sizes: Map<Seq<char>, u64>, name: Seq<char>) -> Outcome<u64> {
    if sizes.contains_key(name) {
        Ok(sizes[name])
    } else {
        Err("VMTypes has no size for "@ + name)
    }
}

/// The value of the exported variable `name`.
pub open spec fn exported_number(
    memory: Contents,
    exports: Map<Seq<char>, u64>,
    name: Seq<char>,
) -> Outcome<u64> {
    if exports.contains_key(name) {
        u64_at(memory, exports[name])
    } else {
        Err("jvm.dll does not export "@ + name)
    }
}

/// `sizes` with the rows from the `index`-th on added, up to the end of the table. A later row for
/// a name replaces an earlier one.
pub open spec fn sizes_from(
    memory: Contents,
    table: u64,
    name_off: u64,
    size_off: u64,
    stride: u64,
    index: nat,
    sizes: Map<Seq<char>, u64>,
) -> Outcome<Map<Seq<char>, u64>>
    decreases LIMIT - index,
{
    if index >= LIMIT {
        Err("VMTypes safety limit exceeded"@)
    } else {
        let row = table.wrapping_add((index as u64).wrapping_mul(stride));
        match u64_at(memory, row.wrapping_add(name_off)) {
            Err(reason) => Err(reason),
            Ok(pointer) => if pointer == 0 {
                Ok(sizes)
            } else {
                match c_string_at(memory, pointer, MAX_NAME as nat) {
                    Err(reason) => Err(reason),
                    Ok(name) => match u64_at(memory, row.wrapping_add(size_off)) {
                        Err(reason) => Err(reason),
                        Ok(size) => sizes_from(
                            memory,
                            table,
                            name_off,
                            size_off,
                            stride,
                            index + 1,
                            sizes.insert(name, size),
                        ),
                    },
                }
            },
        }
    }
}

/// The exported table.
pub open spec fn exported_sizes(memory: Contents, exports: Map<Seq<char>, u64>) -> Outcome<
    Map<Seq<char>, u64>,
> {
    match exported_number(memory, exports, "gHotSpotVMTypes"@) {
        Err(reason) => Err(reason),
        Ok(table) => match exported_number(
            memory,
            exports,
            "gHotSpotVMTypeEntryTypeNameOffset"@,
        ) {
            Err(reason) => Err(reason),
            Ok(name_off) => match exported_number(
                memory,
                exports,
                "gHotSpotVMTypeEntrySizeOffset"@,
            ) {
                Err(reason) => Err(reason),
                Ok(size_off) => match exported_number(
                    memory,
                    exports,
                    "gHotSpotVMTypeEntryArrayStride"@,
                ) {
                    Err(reason) => Err(reason),
                    Ok(stride) => if table == 0 || !(24 <= stride <= 256) {
                        Err("invalid VMTypes layout"@)
                    } else {
                        sizes_from(memory, table, name_off, size_off, stride, 0, Map::empty())
                    },
                },
            },
        },
    }
}

fn exported<M: RemoteMemory>(memory: &M, exports: &StringHashMap<u64>, name: &str) -> (result: Result<
    u64,
    Error,
>)
    ensures
        seen(result) == exported_number(memory.contents(), exports@, name@),
{
    match exports.get(name) {
        None => Err(Error { text: joined("jvm.dll does not export ", name) }),
        Some(address) => memory.read_u64(*address),
    }
}

impl VmTypes {
    pub(crate) fn inferred(sizes: StringHashMap<u64>) -> (types: Self)
        ensures
            types@ == sizes@,
    {
        Self { sizes }
    }

    /// Reads the table that the exported variables describe.
    pub fn read<M: RemoteMemory>(memory: &M, exports: &StringHashMap<u64>) -> (result: Result<
        Self,
        Error,
    >)
        ensures
            seen(result) == exported_sizes(memory.contents(), exports@),
    {
        let table = exported(memory, exports, "gHotSpotVMTypes")?;
        let name_off = exported(memory, exports, "gHotSpotVMTypeEntryTypeNameOffset")?;
        let size_off = exported(memory, exports, "gHotSpotVMTypeEntrySizeOffset")?;
        let stride = exported(memory, exports, "gHotSpotVMTypeEntryArrayStride")?;
        if table == 0 || stride < 24 || stride > 256 {
            return Err(Error::new("invalid VMTypes layout"));
        }
        let mut sizes: StringHashMap<u64> = StringHashMap::new();
        let mut index: u64 = 0;
        while index < LIMIT
            invariant
                index <= LIMIT,
                exported_sizes(memory.contents(), exports@) == sizes_from(
                    memory.contents(),
                    table,
                    name_off,
                    size_off,
                    stride,
                    index as nat,
                    sizes@,
                ),
            decreases LIMIT - index,
        {
            let row = table.wrapping_add(index.wrapping_mul(stride));
            let pointer = memory.read_u64(row.wrapping_add(name_off))?;
            if pointer == 0 {
                return Ok(Self { sizes });
            }
            let name = memory.read_c_string(pointer, MAX_NAME)?;
            let size = memory.read_u64(row.wrapping_add(size_off))?;
            sizes.insert(name, size);
            index += 1;
        }
        Err(Error::new("VMTypes safety limit exceeded"))
    }

    /// The size of the type `name`.
    pub fn size(&self, name: &str) -> (result: Result<u64, Error>)
        ensures
            seen(result) == size_of_type(self@, name@),
    {
        match self.sizes.get(name) {
            Some(size) => Ok(*size),
            None => Err(Error { text: joined("VMTypes has no size for ", name) }),
        }
    }
}

} // verus!
