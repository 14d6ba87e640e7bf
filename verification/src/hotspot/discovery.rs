//! Finding HotSpot in the target and reporting what it holds.
use vstd::prelude::*;
use vstd::utf8::encode_utf8;

use super::dictionary::{
    are_distinct, dictionary_classes, sorted_arrangement, sorted_by_name, sorting_keeps_classes,
    walk, walked_classes_are_those_in_the_chains, ClassView, DiscoveredClass,
};
use super::heuristic::{infer, tables_in};
use super::pe::{exports_of, RemotePe};
use super::reconstruct::archive::ClassFile;
use super::reconstruct::{dump_all, dump_of};
use super::structural::anchors::found_structure_is_validated;
use super::structural::layout::{profile_entries, profile_sizes};
use super::structural::progress::search_notes;
use super::structural::{discover, structure_of};
use super::vmstructs::{exported_table, first_entry, EntryView, VmStructTable};
use super::vmtypes::{exported_sizes, VmTypes};
use crate::lists::views;
use crate::platform::{u64_at, Contents, MemoryRegion, ModuleInfo, RemoteMemory};
use crate::report::{Note, NoteView};
use crate::text::{
    decimal_digits, decimal_text, joined, plain_characters_are_bytes, seen, with_context, Error,
    Outcome,
};

verus! {

/// Classes that every target has.
pub const ANCHOR_CLASSES: [&'static str; 4] = [
    "java/lang/Object",
    "java/lang/Class",
    "java/lang/String",
    "java/lang/Short",
];

/// What hangs on `java/lang/Object` where HotSpot was found by shape.
#[derive(Debug, Clone, Copy, PartialEq, Eq, Structural)]
pub struct StructuralAnchors {
    pub object_symbol: u64,
    pub object_klass: u64,
    pub constant_pool_vtable: u64,
    pub constant_pool_size: u64,
}

/// What was found, and what became of it.
#[derive(Debug)]
pub struct DiscoveryReport {
    pub jvm_module_base: u64,
    pub jvm_module_size: usize,
    pub anchors: [&'static str; 4],
    pub next_step: &'static str,
    pub vmstruct_count: usize,
    pub layout_source: String,
    pub scanned_bytes: Option<u64>,
    pub structural_anchors: Option<StructuralAnchors>,
    pub system_dictionary_storage: Option<u64>,
    pub system_dictionary: Option<u64>,
    pub classes: Vec<DiscoveredClass>,
    pub classfiles_written: usize,
    pub classfiles_failed: usize,
    pub classfile_failures: Vec<String>,
    pub archive_duplicates: usize,
    pub archive: Vec<ClassFile>,
}

/// What was found, before the classes are put in order.
pub struct LocatedView {
    pub vm: Seq<EntryView>,
    pub types: Map<Seq<char>, u64>,
    pub classes: Seq<ClassView>,
    pub storage: Option<u64>,
    pub dictionary: Option<u64>,
    pub layout_source: Seq<char>,
    pub scanned_bytes: Option<u64>,
    pub anchors: Option<StructuralAnchors>,
}

/// A letter in lower case, any other byte as it is.
pub open spec fn lower_case(byte: u8) -> u8 {
    if 0x41 <= byte <= 0x5a {
        (byte + 0x20) as u8
    } else {
        byte
    }
}

/// Whether two texts are the same but for the case of ASCII letters.
pub open spec fn same_but_for_case(left: Seq<char>, right: Seq<char>) -> bool {
    let a = encode_utf8(left);
    let b = encode_utf8(right);
    &&& a.len() == b.len()
    &&& forall|i: int| 0 <= i < a.len() ==> lower_case(a[i]) == lower_case(#[trigger] b[i])
}

/// The first module that is `jvm.dll`, in any case.
pub open spec fn jvm_module(modules: Seq<ModuleInfo>) -> Option<ModuleInfo>
    decreases modules.len(),
{
    if modules.len() == 0 {
        None
    } else if same_but_for_case(modules[0].name@, "jvm.dll"@) {
        Some(modules[0])
    } else {
        jvm_module(modules.skip(1))
    }
}

/// The storage of the system dictionary, its value and the classes that it holds, as far as the
/// fields `vm` describe them.
pub open spec fn dictionary_walked(memory: Contents, vm: Seq<EntryView>) -> Outcome<
    (Option<u64>, Option<u64>, Seq<ClassView>),
> {
    match first_entry(vm, "SystemDictionary"@, "_dictionary"@) {
        None => Ok((None, None, Seq::empty())),
        Some(entry) => match u64_at(memory, entry.address) {
            Err(reason) => Err(reason),
            Ok(dictionary) => if dictionary == 0 {
                Ok((Some(entry.address), Some(dictionary), Seq::empty()))
            } else {
                match dictionary_classes(memory, dictionary, vm) {
                    Err(reason) => Err(reason),
                    Ok(classes) => Ok((Some(entry.address), Some(dictionary), classes)),
                }
            },
        },
    }
}

/// What the tables `vm` and `types` lead to.
pub open spec fn located_by_tables(
    memory: Contents,
    vm: Seq<EntryView>,
    types: Map<Seq<char>, u64>,
    layout_source: Seq<char>,
) -> Outcome<LocatedView> {
    match dictionary_walked(memory, vm) {
        Err(reason) => Err(reason),
        Ok((storage, dictionary, classes)) => Ok(
            LocatedView {
                vm,
                types,
                classes,
                storage,
                dictionary,
                layout_source,
                scanned_bytes: None,
                anchors: None,
            },
        ),
    }
}

/// The tables that the module exports.
pub open spec fn exported_tables(memory: Contents, exports: Map<Seq<char>, u64>) -> Outcome<
    (Seq<EntryView>, Map<Seq<char>, u64>),
> {
    match exported_table(memory, exports) {
        Err(reason) => Err(reason),
        Ok(vm) => match exported_sizes(memory, exports) {
            Err(reason) => Err(reason),
            Ok(types) => Ok((vm, types)),
        },
    }
}

/// The tables that the module at `base` exports, if it exports anything.
pub open spec fn tables_exported(memory: Contents, base: u64) -> Outcome<
    (Seq<EntryView>, Map<Seq<char>, u64>),
> {
    match exports_of(memory, base) {
        Err(reason) => Err(reason),
        Ok(exports) => exported_tables(memory, exports),
    }
}

/// What is found by shape, given the outcome of listing the readable regions.
pub open spec fn located_by_shape(
    memory: Contents,
    base: u64,
    size: nat,
    regions: Outcome<Seq<MemoryRegion>>,
) -> Outcome<LocatedView> {
    match regions {
        Err(reason) => Err(reason),
        Ok(regions) => match structure_of(memory, regions, base, size) {
            Err(reason) => Err(reason),
            Ok(found) => Ok(
                LocatedView {
                    vm: profile_entries(found.core),
                    types: profile_sizes(found.core.cp_size),
                    classes: found.classes,
                    storage: None,
                    dictionary: None,
                    layout_source: "validated x64 HotSpot 8 structural profile"@,
                    scanned_bytes: Some(found.scanned_bytes),
                    anchors: Some(
                        StructuralAnchors {
                            object_symbol: found.object_symbol,
                            object_klass: found.object_klass,
                            constant_pool_vtable: found.constant_pool_vtable,
                            constant_pool_size: found.core.cp_size,
                        },
                    ),
                },
            ),
        },
    }
}

/// What is found in the module at `base`: by the tables that it exports, or else by those in its
/// image, or else by shape.
pub open spec fn located_in(
    memory: Contents,
    base: u64,
    size: nat,
    regions: Outcome<Seq<MemoryRegion>>,
) -> Outcome<LocatedView> {
    match tables_exported(memory, base) {
        Ok((vm, types)) => located_by_tables(
            memory,
            vm,
            types,
            "exported gHotSpotVMStructs/gHotSpotVMTypes"@,
        ),
        Err(export_reason) => match tables_in(memory, base, size) {
            Ok((vm, types)) => located_by_tables(
                memory,
                vm,
                types,
                "internal VM tables (exports unavailable: "@ + export_reason + ")"@,
            ),
            Err(table_reason) => match located_by_shape(memory, base, size, regions) {
                Ok(located) => Ok(located),
                Err(reason) => Err(
                    with_context(
                        "HotSpot exports failed ("@ + export_reason
                            + "); internal tables failed ("@ + table_reason
                            + "); structural fallback failed"@,
                        reason,
                    ),
                ),
            },
        },
    }
}

/// What is told of the search for the module at `base`: something only where it is searched by
/// shape.
pub open spec fn located_notes(
    memory: Contents,
    base: u64,
    size: nat,
    regions: Outcome<Seq<MemoryRegion>>,
) -> Seq<NoteView> {
    if tables_exported(memory, base) is Ok || tables_in(memory, base, size) is Ok {
        Seq::empty()
    } else {
        match regions {
            Err(_) => Seq::empty(),
            Ok(regions) => search_notes(memory, regions, base, size),
        }
    }
}

/// Whether a report tells what was found in `module` and what became of its classes. They are in
/// the order of their names; classes of one name may be in any order.
pub open spec fn reports(
    report: DiscoveryReport,
    memory: Contents,
    module: ModuleInfo,
    located: LocatedView,
) -> bool {
    let dump = dump_of(memory, views(report.classes@), located.vm, located.types);
    &&& report.jvm_module_base == module.base
    &&& report.jvm_module_size == module.size
    &&& report.anchors == ANCHOR_CLASSES
    &&& report.next_step@ == "optional debug and annotation attributes"@
    &&& report.vmstruct_count == located.vm.len()
    &&& report.layout_source@ == located.layout_source
    &&& report.scanned_bytes == located.scanned_bytes
    &&& report.structural_anchors == located.anchors
    &&& report.system_dictionary_storage == located.storage
    &&& report.system_dictionary == located.dictionary
    &&& sorted_arrangement(views(report.classes@), located.classes)
    &&& report.classfiles_written == dump.written
    &&& report.classfiles_failed == dump.failed
    &&& views(report.classfile_failures@) == dump.failures
    &&& report.archive_duplicates == dump.duplicates
    &&& views(report.archive@) == dump.archive
}

/// What was found, the classes in the order of their names.
struct Located {
    vmstructs: VmStructTable,
    vmtypes: VmTypes,
    classes: Vec<DiscoveredClass>,
    storage: Option<u64>,
    dictionary: Option<u64>,
    layout_source: String,
    scanned_bytes: Option<u64>,
    anchors: Option<StructuralAnchors>,
}

impl Located {
    /// Whether this is what `view` says.
    spec fn stands_for(self, view: LocatedView) -> bool {
        &&& self.vmstructs@ == view.vm
        &&& self.vmtypes@ == view.types
        &&& sorted_arrangement(views(self.classes@), view.classes)
        &&& self.storage == view.storage
        &&& self.dictionary == view.dictionary
        &&& self.layout_source@ == view.layout_source
        &&& self.scanned_bytes == view.scanned_bytes
        &&& self.anchors == view.anchors
    }
}

fn to_lower_case(byte: u8) -> (lower: u8)
    ensures
        lower == lower_case(byte),
{
    if byte >= 0x41 && byte <= 0x5a {
        byte + 0x20
    } else {
        byte
    }
}

fn is_same_but_for_case(left: &str, right: &str) -> (same: bool)
    ensures
        same == same_but_for_case(left@, right@),
{
    let a = left.as_bytes();
    let b = right.as_bytes();
    if a.len() != b.len() {
        return false;
    }
    let mut index: usize = 0;
    while index < a.len()
        invariant
            a@ == encode_utf8(left@),
            b@ == encode_utf8(right@),
            a@.len() == b@.len(),
            index <= a@.len(),
            forall|i: int| 0 <= i < index ==> lower_case(a@[i]) == lower_case(#[trigger] b@[i]),
        decreases a@.len() - index,
    {
        if to_lower_case(a[index]) != to_lower_case(b[index]) {
            return false;
        }
        index += 1;
    }
    true
}

fn find_jvm(modules: &Vec<ModuleInfo>) -> (found: Option<&ModuleInfo>)
    ensures
        match jvm_module(modules@) {
            None => found is None,
            Some(module) => found matches Some(it) && *it == module,
        },
{
    let mut index: usize = 0;
    assert(modules@.skip(0) =~= modules@);
    while index < modules.len()
        invariant
            index <= modules@.len(),
            jvm_module(modules@) == jvm_module(modules@.skip(index as int)),
        decreases modules@.len() - index,
    {
        let module = &modules[index];
        assert(modules@.skip(index as int)[0] == *module);
        if is_same_but_for_case(module.name.as_str(), "jvm.dll") {
            return Some(module);
        }
        assert(modules@.skip(index as int).skip(1) =~= modules@.skip(index + 1));
        index += 1;
    }
    None
}

fn walk_dictionary<M: RemoteMemory>(memory: &M, vmstructs: &VmStructTable) -> (result: Result<
    (Option<u64>, Option<u64>, Vec<DiscoveredClass>),
    Error,
>)
    ensures
        match dictionary_walked(memory.contents(), vmstructs@) {
            Err(reason) => result matches Err(error) && error@ == reason,
            Ok((storage, dictionary, classes)) => {
                &&& result matches Ok(found)
                &&& found.0 == storage
                &&& found.1 == dictionary
                &&& sorted_arrangement(views(found.2@), classes)
            },
        },
{
    match vmstructs.find("SystemDictionary", "_dictionary") {
        None => {
            let classes: Vec<DiscoveredClass> = Vec::new();
            assert(views(classes@) =~= Seq::empty());
            Ok((None, None, classes))
        },
        Some(entry) => {
            let dictionary = memory.read_u64(entry.address)?;
            if dictionary == 0 {
                let classes: Vec<DiscoveredClass> = Vec::new();
                assert(views(classes@) =~= Seq::empty());
                return Ok((Some(entry.address), Some(dictionary), classes));
            }
            let classes = walk(memory, dictionary, vmstructs)?;
            Ok((Some(entry.address), Some(dictionary), classes))
        },
    }
}

fn locate_by_tables<M: RemoteMemory>(
    memory: &M,
    vmstructs: VmStructTable,
    vmtypes: VmTypes,
    layout_source: String,
) -> (result: Result<Located, Error>)
    ensures
        match located_by_tables(memory.contents(), vmstructs@, vmtypes@, layout_source@) {
            Err(reason) => result matches Err(error) && error@ == reason,
            Ok(view) => result matches Ok(located) && located.stands_for(view),
        },
{
    let (storage, dictionary, classes) = walk_dictionary(memory, &vmstructs)?;
    Ok(
        Located {
            vmstructs,
            vmtypes,
            classes,
            storage,
            dictionary,
            layout_source,
            scanned_bytes: None,
            anchors: None,
        },
    )
}

fn locate_by_shape<M: RemoteMemory>(
    memory: &M,
    module: &ModuleInfo,
    regions: Result<Vec<MemoryRegion>, Error>,
    notes: &mut Vec<Note>,
) -> (result: Result<Located, Error>)
    ensures
        views(final(notes)@) == views(old(notes)@) + match seen(regions) {
            Err(_) => Seq::empty(),
            Ok(listed) => search_notes(
                memory.contents(),
                listed,
                module.base,
                module.size as nat,
            ),
        },
        match located_by_shape(
            memory.contents(),
            module.base,
            module.size as nat,
            seen(regions),
        ) {
            Err(reason) => result matches Err(error) && error@ == reason,
            Ok(view) => result matches Ok(located) && located.stands_for(view),
        },
{
    assert(views(notes@) + Seq::<NoteView>::empty() =~= views(notes@));
    let regions = regions?;
    let found = discover(memory, &regions, module.base, module.size, notes)?;
    Ok(
        Located {
            vmstructs: found.structs,
            vmtypes: found.types,
            classes: found.classes,
            storage: None,
            dictionary: None,
            layout_source: "validated x64 HotSpot 8 structural profile".to_owned(),
            scanned_bytes: Some(found.scanned_bytes),
            anchors: Some(
                StructuralAnchors {
                    object_symbol: found.object_symbol,
                    object_klass: found.object_klass,
                    constant_pool_vtable: found.constant_pool_vtable,
                    constant_pool_size: found.constant_pool_size,
                },
            ),
        },
    )
}

fn read_exported_tables<M: RemoteMemory>(memory: &M, base: u64) -> (result: Result<
    (VmStructTable, VmTypes),
    Error,
>)
    ensures
        match tables_exported(memory.contents(), base) {
            Err(reason) => result matches Err(error) && error@ == reason,
            Ok((vm, types)) => result matches Ok(found) && found.0@ == vm && found.1@ == types,
        },
{
    let exports = RemotePe::new(memory, base).exports()?;
    let structs = VmStructTable::read(memory, &exports)?;
    let types = VmTypes::read(memory, &exports)?;
    Ok((structs, types))
}

fn locate<M: RemoteMemory>(
    memory: &M,
    module: &ModuleInfo,
    regions: Result<Vec<MemoryRegion>, Error>,
    notes: &mut Vec<Note>,
) -> (result: Result<Located, Error>)
    ensures
        views(final(notes)@) == views(old(notes)@) + located_notes(
            memory.contents(),
            module.base,
            module.size as nat,
            seen(regions),
        ),
        match located_in(memory.contents(), module.base, module.size as nat, seen(regions)) {
            Err(reason) => result matches Err(error) && error@ == reason,
            Ok(view) => result matches Ok(located) && located.stands_for(view),
        },
{
    assert(views(notes@) + Seq::<NoteView>::empty() =~= views(notes@));
    let export_error = match read_exported_tables(memory, module.base) {
        Ok((structs, types)) => {
            return locate_by_tables(
                memory,
                structs,
                types,
                "exported gHotSpotVMStructs/gHotSpotVMTypes".to_owned(),
            );
        },
        Err(error) => error,
    };
    let table_error = match infer(memory, module.base, module.size) {
        Ok(inferred) => {
            let mut source = joined(
                "internal VM tables (exports unavailable: ",
                export_error.text.as_str(),
            );
            source = joined(source.as_str(), ")");
            return locate_by_tables(memory, inferred.structs, inferred.types, source);
        },
        Err(error) => error,
    };
    match locate_by_shape(memory, module, regions, notes) {
        Ok(located) => Ok(located),
        Err(error) => {
            let mut outer = joined("HotSpot exports failed (", export_error.text.as_str());
            outer = joined(outer.as_str(), "); internal tables failed (");
            outer = joined(outer.as_str(), table_error.text.as_str());
            outer = joined(outer.as_str(), "); structural fallback failed");
            Err(error.context(outer.as_str()))
        },
    }
}

/// Finds HotSpot in the target `pid` and reconstructs its classes. `modules` are those of the
/// target; `regions` is the outcome of listing its readable memory, which counts only where
/// HotSpot has to be found by shape. How far such a search came is told in `notes`.
pub fn locate_hotspot<M: RemoteMemory>(
    memory: &M,
    pid: u32,
    modules: &Vec<ModuleInfo>,
    regions: Result<Vec<MemoryRegion>, Error>,
    notes: &mut Vec<Note>,
) -> (result: Result<DiscoveryReport, Error>)
    ensures
        views(final(notes)@) == views(old(notes)@) + match jvm_module(modules@) {
            None => Seq::empty(),
            Some(module) => located_notes(
                memory.contents(),
                module.base,
                module.size as nat,
                seen(regions),
            ),
        },
        match jvm_module(modules@) {
            None => result matches Err(error) && error@ == "jvm.dll is not loaded in PID "@
                + decimal_digits(pid as nat),
            Some(module) => match located_in(
                memory.contents(),
                module.base,
                module.size as nat,
                seen(regions),
            ) {
                Err(reason) => result matches Err(error) && error@ == reason,
                Ok(located) => result matches Ok(report) && reports(
                    report,
                    memory.contents(),
                    module,
                    located,
                ),
            },
        },
{
    assert(views(notes@) + Seq::<NoteView>::empty() =~= views(notes@));
    let module = match find_jvm(modules) {
        Some(module) => module,
        None => {
            return Err(
                Error {
                    text: joined(
                        "jvm.dll is not loaded in PID ",
                        decimal_text(pid as u64).as_str(),
                    ),
                },
            );
        },
    };
    let located = locate(memory, module, regions, notes)?;
    let dump = dump_all(memory, &located.classes, &located.vmstructs, &located.vmtypes);
    Ok(
        DiscoveryReport {
            jvm_module_base: module.base,
            jvm_module_size: module.size,
            anchors: ANCHOR_CLASSES,
            next_step: "optional debug and annotation attributes",
            vmstruct_count: located.vmstructs.entries.len(),
            layout_source: located.layout_source,
            scanned_bytes: located.scanned_bytes,
            structural_anchors: located.anchors,
            system_dictionary_storage: located.storage,
            system_dictionary: located.dictionary,
            classes: located.classes,
            classfiles_written: dump.written,
            classfiles_failed: dump.failed,
            classfile_failures: dump.failures,
            archive_duplicates: dump.duplicates,
            archive: dump.archive,
        },
    )
}

/// The anchors are in internal form: each has a slash in it.
pub proof fn anchors_use_internal_names(index: int)
    requires
        0 <= index < 4,
    ensures
        ANCHOR_CLASSES[index]@.contains('/'),
{
    reveal_strlit("java/lang/Object");
    reveal_strlit("java/lang/Class");
    reveal_strlit("java/lang/String");
    reveal_strlit("java/lang/Short");
    assert("java/lang/Object"@[4] == '/');
    assert("java/lang/Class"@[4] == '/');
    assert("java/lang/String"@[4] == '/');
    assert("java/lang/Short"@[4] == '/');
}

/// The tables that the module exports come first; those in its image count only where the exports
/// do not serve, or there are none; and memory is searched by shape only where neither serves. So where there are
/// tables, it makes no difference which regions can be read.
pub proof fn sources_are_tried_in_order(
    memory: Contents,
    base: u64,
    size: nat,
    regions: Outcome<Seq<MemoryRegion>>,
)
    ensures
        tables_exported(memory, base) matches Ok((vm, types)) ==> located_in(
            memory,
            base,
            size,
            regions,
        ) == located_by_tables(
            memory,
            vm,
            types,
            "exported gHotSpotVMStructs/gHotSpotVMTypes"@,
        ),
        tables_exported(memory, base) matches Err(reason) ==> (tables_in(
            memory,
            base,
            size,
        ) matches Ok((vm, types)) ==> located_in(memory, base, size, regions) == located_by_tables(
            memory,
            vm,
            types,
            "internal VM tables (exports unavailable: "@ + reason + ")"@,
        )),
        tables_exported(memory, base) is Err && tables_in(memory, base, size) is Err ==> (
        located_by_shape(memory, base, size, regions) matches Ok(located) ==> located_in(
            memory,
            base,
            size,
            regions,
        ) == Ok::<LocatedView, Seq<char>>(located)),
        tables_exported(memory, base) is Ok || tables_in(memory, base, size) is Ok ==> forall|
            others: Outcome<Seq<MemoryRegion>>,
        | #[trigger]
            located_in(memory, base, size, others) == located_in(memory, base, size, regions),
{
}

/// However HotSpot was found, no class is found twice.
pub proof fn located_classes_are_distinct(
    memory: Contents,
    base: u64,
    size: nat,
    regions: Outcome<Seq<MemoryRegion>>,
)
    ensures
        located_in(memory, base, size, regions) matches Ok(located) ==> are_distinct(
            located.classes,
        ),
{
    if let Ok(located) = located_in(memory, base, size, regions) {
        if let Some(dictionary) = located.dictionary {
            walked_classes_are_those_in_the_chains(memory, dictionary, located.vm);
        }
        if let Ok(regions) = regions {
            found_structure_is_validated(memory, regions, base, size);
        }
    }
}

/// A report lists the classes that were found, each once: none is lost and none is added when they
/// are put in order.
pub proof fn reported_classes_are_those_located(
    report: DiscoveryReport,
    memory: Contents,
    module: ModuleInfo,
    regions: Outcome<Seq<MemoryRegion>>,
    located: LocatedView,
)
    requires
        located_in(memory, module.base, module.size as nat, regions) == Ok::<
            LocatedView,
            Seq<char>,
        >(located),
        reports(report, memory, module, located),
    ensures
        are_distinct(views(report.classes@)),
        sorted_by_name(views(report.classes@)),
        forall|class: ClassView| #[trigger]
            views(report.classes@).contains(class) <==> located.classes.contains(class),
{
    located_classes_are_distinct(memory, module.base, module.size as nat, regions);
    sorting_keeps_classes(views(report.classes@), located.classes);
}

/// Whether a character is the letter `lower`, in either case.
pub open spec fn is_letter(c: char, lower: char) -> bool {
    c == lower || c as int + 32 == lower as int
}

/// Whether a name is `jvm.dll`, each letter in either case.
pub open spec fn is_jvm_name(name: Seq<char>) -> bool {
    &&& name.len() == 7
    &&& is_letter(name[0], 'j')
    &&& is_letter(name[1], 'v')
    &&& is_letter(name[2], 'm')
    &&& name[3] == '.'
    &&& is_letter(name[4], 'd')
    &&& is_letter(name[5], 'l')
    &&& is_letter(name[6], 'l')
}

proof fn jvm_is_recognized(name: Seq<char>)
    ensures
        same_but_for_case(name, "jvm.dll"@) <==> is_jvm_name(name),
{
    let jvm = "jvm.dll"@;
    reveal_strlit("jvm.dll");
    let a = encode_utf8(name);
    let b = encode_utf8(jvm);
    plain_characters_are_bytes(jvm);
    plain_characters_are_bytes(name);
    assert forall|i: int| 0 <= i < jvm.len() implies (#[trigger] jvm[i] as int) < 0x80 by {}
    assert(b.len() == 7);
    assert(b[0] == 0x6a && b[1] == 0x76 && b[2] == 0x6d && b[3] == 0x2e && b[4] == 0x64 && b[5]
        == 0x6c && b[6] == 0x6c) by {
        assert(b[0] == jvm[0] as int && b[1] == jvm[1] as int && b[2] == jvm[2] as int && b[3]
            == jvm[3] as int && b[4] == jvm[4] as int && b[5] == jvm[5] as int && b[6]
            == jvm[6] as int);
    }
    if same_but_for_case(name, jvm) {
        assert forall|i: int| 0 <= i < a.len() implies #[trigger] a[i] < 0x80 by {
            assert(lower_case(a[i]) == lower_case(b[i]));
        }
        assert(forall|i: int| 0 <= i < name.len() ==> (#[trigger] name[i] as int) < 0x80);
        assert(a[0] == name[0] as int && a[1] == name[1] as int && a[2] == name[2] as int && a[3]
            == name[3] as int && a[4] == name[4] as int && a[5] == name[5] as int && a[6]
            == name[6] as int);
        assert(lower_case(a[0]) == lower_case(b[0]) && lower_case(a[1]) == lower_case(b[1])
            && lower_case(a[2]) == lower_case(b[2]) && lower_case(a[3]) == lower_case(b[3])
            && lower_case(a[4]) == lower_case(b[4]) && lower_case(a[5]) == lower_case(b[5])
            && lower_case(a[6]) == lower_case(b[6]));
    }
    if is_jvm_name(name) {
        assert forall|i: int| 0 <= i < name.len() implies (#[trigger] name[i] as int) < 0x80 by {
            assert(i == 0 || i == 1 || i == 2 || i == 3 || i == 4 || i == 5 || i == 6);
        }
        assert(a[0] == name[0] as int && a[1] == name[1] as int && a[2] == name[2] as int && a[3]
            == name[3] as int && a[4] == name[4] as int && a[5] == name[5] as int && a[6]
            == name[6] as int);
        assert forall|i: int| 0 <= i < a.len() implies lower_case(a[i]) == lower_case(
            #[trigger] b[i],
        ) by {
            assert(i == 0 || i == 1 || i == 2 || i == 3 || i == 4 || i == 5 || i == 6);
        }
    }
}

/// The module of HotSpot is the first that is called `jvm.dll`, in whatever case.
pub proof fn module_is_the_first_jvm(modules: Seq<ModuleInfo>)
    ensures
        match jvm_module(modules) {
            Some(module) => exists|i: int|
                0 <= i < modules.len() && #[trigger] modules[i] == module && is_jvm_name(
                    module.name@,
                ) && forall|j: int| 0 <= j < i ==> !is_jvm_name((#[trigger] modules[j]).name@),
            None => forall|i: int|
                0 <= i < modules.len() ==> !is_jvm_name((#[trigger] modules[i]).name@),
        },
    decreases modules.len(),
{
    if modules.len() > 0 {
        jvm_is_recognized(modules[0].name@);
        let rest = modules.skip(1);
        module_is_the_first_jvm(rest);
        if is_jvm_name(modules[0].name@) {
            assert(modules[0] == jvm_module(modules)->Some_0);
        } else if let Some(module) = jvm_module(rest) {
            let i = choose|i: int|
                0 <= i < rest.len() && #[trigger] rest[i] == module && forall|j: int|
                    0 <= j < i ==> !is_jvm_name((#[trigger] rest[j]).name@);
            assert(modules[i + 1] == module);
            assert forall|j: int| 0 <= j < i + 1 implies !is_jvm_name(
                (#[trigger] modules[j]).name@,
            ) by {
                if j > 0 {
                    assert(rest[j - 1] == modules[j]);
                }
            }
        } else {
            assert forall|i: int| 0 <= i < modules.len() implies !is_jvm_name(
                (#[trigger] modules[i]).name@,
            ) by {
                if i > 0 {
                    assert(rest[i - 1] == modules[i]);
                }
            }
        }
    }
}

/// The classes of a HotSpot whose fields are described are those of its system dictionary, the address
/// of which stands where the description of `SystemDictionary::_dictionary` says. One that describes
/// no such field, or has no dictionary yet, has none.
pub proof fn classes_come_from_the_dictionary(
    memory: Contents,
    vm: Seq<EntryView>,
    entry: EntryView,
    dictionary: u64,
)
    requires
        first_entry(vm, "SystemDictionary"@, "_dictionary"@) == Some(entry),
        u64_at(memory, entry.address) == Ok::<u64, Seq<char>>(dictionary),
    ensures
        dictionary == 0 ==> (dictionary_walked(memory, vm) matches Ok(found) && found.2.len() == 0),
        dictionary != 0 ==> (dictionary_walked(memory, vm) is Ok <==> dictionary_classes(
            memory,
            dictionary,
            vm,
        ) is Ok),
        dictionary_walked(memory, vm) matches Ok(found) ==> {
            &&& found.0 == Some(entry.address)
            &&& found.1 == Some(dictionary)
            &&& dictionary != 0 ==> dictionary_classes(memory, dictionary, vm) == Ok::<
                Seq<ClassView>,
                Seq<char>,
            >(found.2)
        },
{
}

/// The tables that a module exports are those that its exported variables lead to, and serve only
/// together.
pub proof fn exported_tables_serve_together(
    memory: Contents,
    base: u64,
    vm: Seq<EntryView>,
    types: Map<Seq<char>, u64>,
)
    ensures
        tables_exported(memory, base) == Ok::<
            (Seq<EntryView>, Map<Seq<char>, u64>),
            Seq<char>,
        >((vm, types)) <==> {
            &&& exports_of(memory, base) matches Ok(exports)
            &&& exported_table(memory, exports) == Ok::<Seq<EntryView>, Seq<char>>(vm)
            &&& exported_sizes(memory, exports) == Ok::<Map<Seq<char>, u64>, Seq<char>>(types)
        },
{
}

/// What tables lead to is the classes of the dictionary; nothing is scanned for it.
pub proof fn tables_lead_to_the_dictionary(
    memory: Contents,
    vm: Seq<EntryView>,
    types: Map<Seq<char>, u64>,
    source: Seq<char>,
)
    ensures
        located_by_tables(memory, vm, types, source) is Ok <==> dictionary_walked(memory, vm) is Ok,
        located_by_tables(memory, vm, types, source) matches Ok(located) ==> {
            &&& located.vm == vm
            &&& located.types == types
            &&& located.layout_source == source
            &&& located.scanned_bytes is None
            &&& located.anchors is None
            &&& dictionary_walked(memory, vm) == Ok::<
                (Option<u64>, Option<u64>, Seq<ClassView>),
                Seq<char>,
            >((located.storage, located.dictionary, located.classes))
        },
{
}

/// What is found by shape comes without a dictionary, with the tables of the profile for its layout and
/// with what it hangs on.
pub proof fn shape_leads_to_its_anchors(
    memory: Contents,
    base: u64,
    size: nat,
    regions: Seq<MemoryRegion>,
)
    ensures
        located_by_shape(memory, base, size, Ok(regions)) is Ok <==> structure_of(
            memory,
            regions,
            base,
            size,
        ) is Ok,
        located_by_shape(memory, base, size, Ok(regions)) matches Ok(located) ==> {
            &&& structure_of(memory, regions, base, size) matches Ok(found)
            &&& located.vm == profile_entries(found.core)
            &&& located.types == profile_sizes(found.core.cp_size)
            &&& located.classes == found.classes
            &&& located.storage is None
            &&& located.dictionary is None
            &&& located.scanned_bytes == Some(found.scanned_bytes)
            &&& located.anchors matches Some(anchors)
            &&& anchors.object_symbol == found.object_symbol
            &&& anchors.object_klass == found.object_klass
            &&& anchors.constant_pool_vtable == found.constant_pool_vtable
            &&& anchors.constant_pool_size == found.core.cp_size
        },
{
}

/// Something is told of a search only where memory was searched by shape.
pub proof fn searches_are_told_of_where_they_happen(
    memory: Contents,
    base: u64,
    size: nat,
    regions: Outcome<Seq<MemoryRegion>>,
)
    ensures
        tables_exported(memory, base) is Ok ==> located_notes(memory, base, size, regions).len()
            == 0,
        tables_in(memory, base, size) is Ok ==> located_notes(memory, base, size, regions).len()
            == 0,
        regions is Err ==> located_notes(memory, base, size, regions).len() == 0,
        tables_exported(memory, base) is Err && tables_in(memory, base, size) is Err ==> (
        regions matches Ok(regions) ==> located_notes(memory, base, size, Ok(regions))
            == search_notes(memory, regions, base, size)),
{
}

} // verus!
