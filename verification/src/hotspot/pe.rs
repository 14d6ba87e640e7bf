//! The export directory of a module in the PE format.
use vstd::hash_map::StringHashMap;
use vstd::prelude::*;

use super::vmstructs::MAX_NAME;
use crate::platform::{c_string_at, u16_at, u32_at, Contents, RemoteMemory};
use crate::text::{
    decimal_digits, decimal_text, joined, plain, seen, with_context, Error, Outcome,
};

verus! {

pub const DOS_MAGIC: u16 = 0x5a4d;

pub const PE_MAGIC: u32 = 0x0000_4550;

pub const PE32_PLUS_MAGIC: u16 = 0x20b;

/// The most exports that a module is believed to have.
pub const MAX_EXPORTS: u32 = 100_000;

/// A module in the target's memory.
pub struct RemotePe<'a, M> {
    pub memory: &'a M,
    pub base: u64,
}

/// The tables of an export directory and how many rows they have.
#[derive(Debug, Clone, Copy)]
pub struct ExportTables {
    pub function_count: u32,
    pub name_count: u32,
    pub functions: u64,
    pub names: u64,
    pub ordinals: u64,
}

/// The address of the optional header of the module at `base`.
pub open spec fn optional_header(memory: Contents, base: u64) -> Outcome<u64> {
    match u16_at(memory, base) {
        Err(reason) => Err(reason),
        Ok(dos_magic) => if dos_magic != DOS_MAGIC {
            Err("jvm.dll has an invalid DOS header"@)
        } else {
            match u32_at(memory, base.wrapping_add(0x3c)) {
                Err(reason) => Err(reason),
                Ok(nt_rva) => {
                    let nt = base.wrapping_add(nt_rva as u64);
                    match u32_at(memory, nt) {
                        Err(reason) => Err(reason),
                        Ok(pe_magic) => if pe_magic != PE_MAGIC {
                            Err("jvm.dll has an invalid PE signature"@)
                        } else {
                            Ok(nt.wrapping_add(24))
                        },
                    }
                },
            }
        },
    }
}

/// The address of the export directory of the module at `base`.
pub open spec fn export_directory(memory: Contents, base: u64) -> Outcome<u64> {
    match optional_header(memory, base) {
        Err(reason) => Err(reason),
        Ok(optional) => match u16_at(memory, optional) {
            Err(reason) => Err(reason),
            Ok(magic) => if magic != PE32_PLUS_MAGIC {
                Err("target jvm.dll is not PE32+; only x64 HotSpot is currently supported"@)
            } else {
                match u32_at(memory, optional.wrapping_add(112)) {
                    Err(reason) => Err(reason),
                    Ok(export_rva) => if export_rva == 0 {
                        Err("jvm.dll has no PE export directory"@)
                    } else {
                        Ok(base.wrapping_add(export_rva as u64))
                    },
                }
            },
        },
    }
}

/// The tables of the export directory at `directory`.
pub open spec fn export_tables(memory: Contents, base: u64, directory: u64) -> Outcome<
    ExportTables,
> {
    match u32_at(memory, directory.wrapping_add(20)) {
        Err(reason) => Err(reason),
        Ok(function_count) => match u32_at(memory, directory.wrapping_add(24)) {
            Err(reason) => Err(reason),
            Ok(name_count) => if name_count > MAX_EXPORTS || function_count > MAX_EXPORTS {
                Err("unreasonable PE export count"@)
            } else {
                match u32_at(memory, directory.wrapping_add(28)) {
                    Err(reason) => Err(reason),
                    Ok(functions) => match u32_at(memory, directory.wrapping_add(32)) {
                        Err(reason) => Err(reason),
                        Ok(names) => match u32_at(memory, directory.wrapping_add(36)) {
                            Err(reason) => Err(reason),
                            Ok(ordinals) => Ok(
                                ExportTables {
                                    function_count,
                                    name_count,
                                    functions: base.wrapping_add(functions as u64),
                                    names: base.wrapping_add(names as u64),
                                    ordinals: base.wrapping_add(ordinals as u64),
                                },
                            ),
                        },
                    },
                }
            },
        },
    }
}

/// The name and the address of the export in row `index`.
pub open spec fn export_at(memory: Contents, base: u64, tables: ExportTables, index: nat) -> Outcome<
    (Seq<char>, u64),
> {
    match u32_at(memory, tables.names.wrapping_add((index * 4) as u64)) {
        Err(reason) => Err(reason),
        Ok(name_rva) => match c_string_at(
            memory,
            base.wrapping_add(name_rva as u64),
            MAX_NAME as nat,
        ) {
            Err(reason) => Err(
                with_context("invalid PE export name #"@ + decimal_digits(index), reason),
            ),
            Ok(name) => match u16_at(memory, tables.ordinals.wrapping_add((index * 2) as u64)) {
                Err(reason) => Err(reason),
                Ok(ordinal) => if ordinal >= tables.function_count {
                    Err("invalid PE export ordinal for "@ + name)
                } else {
                    match u32_at(memory, tables.functions.wrapping_add((ordinal * 4) as u64)) {
                        Err(reason) => Err(reason),
                        Ok(function_rva) => Ok((name, base.wrapping_add(function_rva as u64))),
                    }
                },
            },
        },
    }
}

/// `found` with the exports from row `index` on added. A later row for a name replaces an earlier
/// one.
pub open spec fn exports_from(
    memory: Contents,
    base: u64,
    tables: ExportTables,
    index: nat,
    found: Map<Seq<char>, u64>,
) -> Outcome<Map<Seq<char>, u64>>
    decreases tables.name_count - index,
{
    if index >= tables.name_count {
        Ok(found)
    } else {
        match export_at(memory, base, tables, index) {
            Err(reason) => Err(reason),
            Ok((name, address)) => exports_from(
                memory,
                base,
                tables,
                index + 1,
                found.insert(name, address),
            ),
        }
    }
}

/// The exports of the module at `base`: the address of each, by name.
pub open spec fn exports_of(memory: Contents, base: u64) -> Outcome<Map<Seq<char>, u64>> {
    match export_directory(memory, base) {
        Err(reason) => Err(reason),
        Ok(directory) => match export_tables(memory, base, directory) {
            Err(reason) => Err(reason),
            Ok(tables) => exports_from(memory, base, tables, 0, Map::empty()),
        },
    }
}

impl<'a, M: RemoteMemory> RemotePe<'a, M> {
    /// The module at `base`.
    pub fn new(memory: &'a M, base: u64) -> (module: Self)
        ensures
            module.memory == memory,
            module.base == base,
    {
        Self { memory, base }
    }

    fn directory(&self) -> (result: Result<u64, Error>)
        ensures
            seen(result) == export_directory(self.memory.contents(), self.base),
    {
        if self.memory.read_u16(self.base)? != DOS_MAGIC {
            return Err(Error::new("jvm.dll has an invalid DOS header"));
        }
        let nt = self.base.wrapping_add(self.memory.read_u32(self.base.wrapping_add(0x3c))? as u64);
        if self.memory.read_u32(nt)? != PE_MAGIC {
            return Err(Error::new("jvm.dll has an invalid PE signature"));
        }
        let optional = nt.wrapping_add(24);
        if self.memory.read_u16(optional)? != PE32_PLUS_MAGIC {
            return Err(
                Error::new(
                    "target jvm.dll is not PE32+; only x64 HotSpot is currently supported",
                ),
            );
        }
        let export_rva = self.memory.read_u32(optional.wrapping_add(112))?;
        if export_rva == 0 {
            return Err(Error::new("jvm.dll has no PE export directory"));
        }
        Ok(self.base.wrapping_add(export_rva as u64))
    }

    fn tables(&self, directory: u64) -> (result: Result<ExportTables, Error>)
        ensures
            plain(result) == export_tables(self.memory.contents(), self.base, directory),
    {
        let function_count = self.memory.read_u32(directory.wrapping_add(20))?;
        let name_count = self.memory.read_u32(directory.wrapping_add(24))?;
        if name_count > MAX_EXPORTS || function_count > MAX_EXPORTS {
            return Err(Error::new("unreasonable PE export count"));
        }
        let functions = self.memory.read_u32(directory.wrapping_add(28))?;
        let names = self.memory.read_u32(directory.wrapping_add(32))?;
        let ordinals = self.memory.read_u32(directory.wrapping_add(36))?;
        Ok(
            ExportTables {
                function_count,
                name_count,
                functions: self.base.wrapping_add(functions as u64),
                names: self.base.wrapping_add(names as u64),
                ordinals: self.base.wrapping_add(ordinals as u64),
            },
        )
    }

    fn export(&self, tables: &ExportTables, index: u32) -> (result: Result<(String, u64), Error>)
        ensures
            match export_at(self.memory.contents(), self.base, *tables, index as nat) {
                Err(reason) => result matches Err(error) && error@ == reason,
                Ok((name, address)) => result matches Ok(export) && export.0@ == name && export.1
                    == address,
            },
    {
        let name_rva = self.memory.read_u32(tables.names.wrapping_add(index as u64 * 4))?;
        let name = match self.memory.read_c_string(
            self.base.wrapping_add(name_rva as u64),
            MAX_NAME,
        ) {
            Ok(name) => name,
            Err(error) => {
                let outer = joined(
                    "invalid PE export name #",
                    decimal_text(index as u64).as_str(),
                );
                return Err(error.context(outer.as_str()));
            },
        };
        let ordinal = self.memory.read_u16(tables.ordinals.wrapping_add(index as u64 * 2))?;
        if ordinal as u32 >= tables.function_count {
            return Err(Error { text: joined("invalid PE export ordinal for ", name.as_str()) });
        }
        let function_rva = self.memory.read_u32(
            tables.functions.wrapping_add(ordinal as u64 * 4),
        )?;
        Ok((name, self.base.wrapping_add(function_rva as u64)))
    }

    /// The exports of the module: the address of each, by name.
    pub fn exports(&self) -> (result: Result<StringHashMap<u64>, Error>)
        ensures
            seen(result) == exports_of(self.memory.contents(), self.base),
    {
        let directory = self.directory()?;
        let tables = self.tables(directory)?;
        let mut found: StringHashMap<u64> = StringHashMap::new();
        let mut index: u32 = 0;
        while index < tables.name_count
            invariant
                index <= tables.name_count,
                exports_of(self.memory.contents(), self.base) == exports_from(
                    self.memory.contents(),
                    self.base,
                    tables,
                    index as nat,
                    found@,
                ),
            decreases tables.name_count - index,
        {
            let (name, address) = self.export(&tables, index)?;
            found.insert(name, address);
            index += 1;
        }
        Ok(found)
    }
}

} // verus!
