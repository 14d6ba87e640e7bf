//! Class files from the metadata of loaded classes.
pub mod archive;
pub mod bytecode;
pub mod classes;
pub mod classfile;
pub mod described;
pub mod dump;
pub mod fields;
pub mod image;
pub mod instructions;
pub mod members;
pub mod methods;
pub mod pool;
pub mod readable;
pub mod reading;
pub mod slots;

use vstd::hash_map::StringHashMap;
use vstd::prelude::*;
use vstd::utf8::encode_utf8;

use self::archive::{
    entry_for, entry_name, name_is_safe, names_fit, safe_name, ClassFile, NAME_LIMIT,
};
use self::image::{reconstruct, reconstructed};
use super::dictionary::{ClassView, DiscoveredClass};
use super::vmstructs::{first_entry, EntryView, VmStructTable};
use super::vmtypes::{size_of_type, VmTypes};
use crate::lists::{views, views_push};
use crate::platform::{Contents, RemoteMemory};
use crate::text::{joined, plain, seen, with_context, Error, Outcome};

verus! {

/// Where the fields that reconstruction reads lie in HotSpot's structures, and the sizes of the
/// structures that data follow.
#[derive(Debug, Clone, Copy, PartialEq, Eq, Structural)]
pub struct Layout {
    pub ik_constants: u64,
    pub ik_fields: u64,
    pub ik_field_count: u64,
    pub ik_methods: u64,
    pub ik_interfaces: u64,
    pub ik_major: u64,
    pub ik_minor: u64,
    pub ik_generic: u64,
    pub klass_flags: u64,
    pub klass_super: u64,
    pub klass_name: u64,
    pub cp_tags: u64,
    pub cp_length: u64,
    pub cp_size: u64,
    pub cp_cache: u64,
    pub cp_reference_map: u64,
    pub cp_operands: u64,
    pub symbol_len: u64,
    pub symbol_body: u64,
    pub array_len: u64,
    pub array_ptr_data: u64,
    pub method_const: u64,
    pub method_flags: u64,
    pub cm_name: u64,
    pub cm_sig: u64,
    pub cm_flags: u64,
    pub cm_code_size: u64,
    pub cm_size: u64,
    pub cm_max_stack: u64,
    pub cm_max_locals: u64,
    pub cm_stackmap: u64,
    pub cm_header_size: u64,
    pub cache_length: u64,
    pub cache_entry_indices: u64,
    pub cache_header_size: u64,
    pub cache_entry_size: u64,
}

/// The layout with zero for every offset and size.
pub open spec fn zero_layout() -> Layout {
    Layout {
        ik_constants: 0,
        ik_fields: 0,
        ik_field_count: 0,
        ik_methods: 0,
        ik_interfaces: 0,
        ik_major: 0,
        ik_minor: 0,
        ik_generic: 0,
        klass_flags: 0,
        klass_super: 0,
        klass_name: 0,
        cp_tags: 0,
        cp_length: 0,
        cp_size: 0,
        cp_cache: 0,
        cp_reference_map: 0,
        cp_operands: 0,
        symbol_len: 0,
        symbol_body: 0,
        array_len: 0,
        array_ptr_data: 0,
        method_const: 0,
        method_flags: 0,
        cm_name: 0,
        cm_sig: 0,
        cm_flags: 0,
        cm_code_size: 0,
        cm_size: 0,
        cm_max_stack: 0,
        cm_max_locals: 0,
        cm_stackmap: 0,
        cm_header_size: 0,
        cache_length: 0,
        cache_entry_indices: 0,
        cache_header_size: 0,
        cache_entry_size: 0,
    }
}

impl Default for Layout {
    fn default() -> (layout: Layout)
        ensures
            layout == zero_layout(),
    {
        Layout {
            ik_constants: 0,
            ik_fields: 0,
            ik_field_count: 0,
            ik_methods: 0,
            ik_interfaces: 0,
            ik_major: 0,
            ik_minor: 0,
            ik_generic: 0,
            klass_flags: 0,
            klass_super: 0,
            klass_name: 0,
            cp_tags: 0,
            cp_length: 0,
            cp_size: 0,
            cp_cache: 0,
            cp_reference_map: 0,
            cp_operands: 0,
            symbol_len: 0,
            symbol_body: 0,
            array_len: 0,
            array_ptr_data: 0,
            method_const: 0,
            method_flags: 0,
            cm_name: 0,
            cm_sig: 0,
            cm_flags: 0,
            cm_code_size: 0,
            cm_size: 0,
            cm_max_stack: 0,
            cm_max_locals: 0,
            cm_stackmap: 0,
            cm_header_size: 0,
            cache_length: 0,
            cache_entry_indices: 0,
            cache_header_size: 0,
            cache_entry_size: 0,
        }
    }
}

/// The offset of the field `field_name` of `struct_name`.
pub open spec fn offset_of(
    vm: Seq<EntryView>,
    struct_name: Seq<char>,
    field_name: Seq<char>,
) -> Outcome<u64> {
    match first_entry(vm, struct_name, field_name) {
        Some(entry) => Ok(entry.offset),
        None => Err("missing "@ + struct_name + "::"@ + field_name),
    }
}

/// A layout with one more value put in. The first value that is missing decides the failure.
pub open spec fn filled(
    layout: Outcome<Layout>,
    value: Outcome<u64>,
    put: spec_fn(Layout, u64) -> Layout,
) -> Outcome<Layout> {
    match layout {
        Err(reason) => Err(reason),
        Ok(so_far) => match value {
            Err(reason) => Err(reason),
            Ok(value) => Ok(put(so_far, value)),
        },
    }
}

/// `layout` with the offsets and sizes of the class filled in.
pub open spec fn class_layout(vm: Seq<EntryView>, layout: Outcome<Layout>) -> Outcome<Layout> {
    let l1 = filled(
        layout,
        offset_of(vm, "InstanceKlass"@, "_constants"@),
        |l: Layout, v: u64| Layout { ik_constants: v, ..l },
    );
    let l2 = filled(
        l1,
        offset_of(vm, "InstanceKlass"@, "_fields"@),
        |l: Layout, v: u64| Layout { ik_fields: v, ..l },
    );
    let l3 = filled(
        l2,
        offset_of(vm, "InstanceKlass"@, "_java_fields_count"@),
        |l: Layout, v: u64| Layout { ik_field_count: v, ..l },
    );
    let l4 = filled(
        l3,
        offset_of(vm, "InstanceKlass"@, "_methods"@),
        |l: Layout, v: u64| Layout { ik_methods: v, ..l },
    );
    let l5 = filled(
        l4,
        offset_of(vm, "InstanceKlass"@, "_local_interfaces"@),
        |l: Layout, v: u64| Layout { ik_interfaces: v, ..l },
    );
    let l6 = filled(
        l5,
        offset_of(vm, "InstanceKlass"@, "_major_version"@),
        |l: Layout, v: u64| Layout { ik_major: v, ..l },
    );
    let l7 = filled(
        l6,
        offset_of(vm, "InstanceKlass"@, "_minor_version"@),
        |l: Layout, v: u64| Layout { ik_minor: v, ..l },
    );
    let l8 = filled(
        l7,
        offset_of(vm, "InstanceKlass"@, "_generic_signature_index"@),
        |l: Layout, v: u64| Layout { ik_generic: v, ..l },
    );
    let l9 = filled(
        l8,
        offset_of(vm, "Klass"@, "_access_flags"@),
        |l: Layout, v: u64| Layout { klass_flags: v, ..l },
    );
    let l10 = filled(
        l9,
        offset_of(vm, "Klass"@, "_super"@),
        |l: Layout, v: u64| Layout { klass_super: v, ..l },
    );
    filled(
        l10,
        offset_of(vm, "Klass"@, "_name"@),
        |l: Layout, v: u64| Layout { klass_name: v, ..l },
    )
}

/// `layout` with the offsets and sizes of the constant pool, of symbols and of arrays filled in.
pub open spec fn pool_layout(
    vm: Seq<EntryView>,
    types: Map<Seq<char>, u64>,
    layout: Outcome<Layout>,
) -> Outcome<Layout> {
    let l1 = filled(
        layout,
        offset_of(vm, "ConstantPool"@, "_tags"@),
        |l: Layout, v: u64| Layout { cp_tags: v, ..l },
    );
    let l2 = filled(
        l1,
        offset_of(vm, "ConstantPool"@, "_length"@),
        |l: Layout, v: u64| Layout { cp_length: v, ..l },
    );
    let l3 = filled(
        l2,
        size_of_type(types, "ConstantPool"@),
        |l: Layout, v: u64| Layout { cp_size: v, ..l },
    );
    let l4 = filled(
        l3,
        offset_of(vm, "ConstantPool"@, "_cache"@),
        |l: Layout, v: u64| Layout { cp_cache: v, ..l },
    );
    let l5 = filled(
        l4,
        offset_of(vm, "ConstantPool"@, "_reference_map"@),
        |l: Layout, v: u64| Layout { cp_reference_map: v, ..l },
    );
    let l6 = filled(
        l5,
        offset_of(vm, "ConstantPool"@, "_operands"@),
        |l: Layout, v: u64| Layout { cp_operands: v, ..l },
    );
    let l7 = filled(
        l6,
        offset_of(vm, "Symbol"@, "_length"@),
        |l: Layout, v: u64| Layout { symbol_len: v, ..l },
    );
    let l8 = filled(
        l7,
        offset_of(vm, "Symbol"@, "_body"@),
        |l: Layout, v: u64| Layout { symbol_body: v, ..l },
    );
    let l9 = filled(
        l8,
        offset_of(vm, "Array<Klass*>"@, "_length"@),
        |l: Layout, v: u64| Layout { array_len: v, ..l },
    );
    filled(
        l9,
        offset_of(vm, "Array<Klass*>"@, "_data[0]"@),
        |l: Layout, v: u64| Layout { array_ptr_data: v, ..l },
    )
}

/// `layout` with the offsets and sizes of methods filled in.
pub open spec fn method_layout(
    vm: Seq<EntryView>,
    types: Map<Seq<char>, u64>,
    layout: Outcome<Layout>,
) -> Outcome<Layout> {
    let l1 = filled(
        layout,
        offset_of(vm, "Method"@, "_constMethod"@),
        |l: Layout, v: u64| Layout { method_const: v, ..l },
    );
    let l2 = filled(
        l1,
        offset_of(vm, "Method"@, "_access_flags"@),
        |l: Layout, v: u64| Layout { method_flags: v, ..l },
    );
    let l3 = filled(
        l2,
        offset_of(vm, "ConstMethod"@, "_name_index"@),
        |l: Layout, v: u64| Layout { cm_name: v, ..l },
    );
    let l4 = filled(
        l3,
        offset_of(vm, "ConstMethod"@, "_signature_index"@),
        |l: Layout, v: u64| Layout { cm_sig: v, ..l },
    );
    let l5 = filled(
        l4,
        offset_of(vm, "ConstMethod"@, "_flags"@),
        |l: Layout, v: u64| Layout { cm_flags: v, ..l },
    );
    let l6 = filled(
        l5,
        offset_of(vm, "ConstMethod"@, "_code_size"@),
        |l: Layout, v: u64| Layout { cm_code_size: v, ..l },
    );
    let l7 = filled(
        l6,
        offset_of(vm, "ConstMethod"@, "_constMethod_size"@),
        |l: Layout, v: u64| Layout { cm_size: v, ..l },
    );
    let l8 = filled(
        l7,
        offset_of(vm, "ConstMethod"@, "_max_stack"@),
        |l: Layout, v: u64| Layout { cm_max_stack: v, ..l },
    );
    let l9 = filled(
        l8,
        offset_of(vm, "ConstMethod"@, "_max_locals"@),
        |l: Layout, v: u64| Layout { cm_max_locals: v, ..l },
    );
    let l10 = filled(
        l9,
        offset_of(vm, "ConstMethod"@, "_stackmap_data"@),
        |l: Layout, v: u64| Layout { cm_stackmap: v, ..l },
    );
    filled(
        l10,
        size_of_type(types, "ConstMethod"@),
        |l: Layout, v: u64| Layout { cm_header_size: v, ..l },
    )
}

/// `layout` with the offsets and sizes of the cache of the constant pool filled in.
pub open spec fn cache_layout(
    vm: Seq<EntryView>,
    types: Map<Seq<char>, u64>,
    layout: Outcome<Layout>,
) -> Outcome<Layout> {
    let l1 = filled(
        layout,
        offset_of(vm, "ConstantPoolCache"@, "_length"@),
        |l: Layout, v: u64| Layout { cache_length: v, ..l },
    );
    let l2 = filled(
        l1,
        offset_of(vm, "ConstantPoolCacheEntry"@, "_indices"@),
        |l: Layout, v: u64| Layout { cache_entry_indices: v, ..l },
    );
    let l3 = filled(
        l2,
        size_of_type(types, "ConstantPoolCache"@),
        |l: Layout, v: u64| Layout { cache_header_size: v, ..l },
    );
    filled(
        l3,
        size_of_type(types, "ConstantPoolCacheEntry"@),
        |l: Layout, v: u64| Layout { cache_entry_size: v, ..l },
    )
}

/// The layout that the tables `vm` and `types` describe.
#[verifier::opaque]
pub open spec fn layout_of(vm: Seq<EntryView>, types: Map<Seq<char>, u64>) -> Outcome<Layout> {
    cache_layout(
        vm,
        types,
        method_layout(
            vm,
            types,
            pool_layout(vm, types, class_layout(vm, Ok(zero_layout()))),
        ),
    )
}

fn offset(vm: &VmStructTable, struct_name: &str, field_name: &str) -> (result: Result<u64, Error>)
    ensures
        plain(result) == offset_of(vm@, struct_name@, field_name@),
{
    match vm.find(struct_name, field_name) {
        Some(entry) => Ok(entry.offset),
        None => {
            let mut text = joined("missing ", struct_name);
            text = joined(text.as_str(), "::");
            Err(Error { text: joined(text.as_str(), field_name) })
        },
    }
}

fn read_class_layout(vm: &VmStructTable, layout: Layout) -> (result: Result<Layout, Error>)
    ensures
        plain(result) == class_layout(vm@, Ok(layout)),
{
    Ok(
        Layout {
            ik_constants: offset(vm, "InstanceKlass", "_constants")?,
            ik_fields: offset(vm, "InstanceKlass", "_fields")?,
            ik_field_count: offset(vm, "InstanceKlass", "_java_fields_count")?,
            ik_methods: offset(vm, "InstanceKlass", "_methods")?,
            ik_interfaces: offset(vm, "InstanceKlass", "_local_interfaces")?,
            ik_major: offset(vm, "InstanceKlass", "_major_version")?,
            ik_minor: offset(vm, "InstanceKlass", "_minor_version")?,
            ik_generic: offset(vm, "InstanceKlass", "_generic_signature_index")?,
            klass_flags: offset(vm, "Klass", "_access_flags")?,
            klass_super: offset(vm, "Klass", "_super")?,
            klass_name: offset(vm, "Klass", "_name")?,
            ..layout
        },
    )
}

fn read_pool_layout(vm: &VmStructTable, types: &VmTypes, layout: Layout) -> (result: Result<Layout, Error>)
    ensures
        plain(result) == pool_layout(vm@, types@, Ok(layout)),
{
    Ok(
        Layout {
            cp_tags: offset(vm, "ConstantPool", "_tags")?,
            cp_length: offset(vm, "ConstantPool", "_length")?,
            cp_size: types.size("ConstantPool")?,
            cp_cache: offset(vm, "ConstantPool", "_cache")?,
            cp_reference_map: offset(vm, "ConstantPool", "_reference_map")?,
            cp_operands: offset(vm, "ConstantPool", "_operands")?,
            symbol_len: offset(vm, "Symbol", "_length")?,
            symbol_body: offset(vm, "Symbol", "_body")?,
            array_len: offset(vm, "Array<Klass*>", "_length")?,
            array_ptr_data: offset(vm, "Array<Klass*>", "_data[0]")?,
            ..layout
        },
    )
}

fn read_method_layout(vm: &VmStructTable, types: &VmTypes, layout: Layout) -> (result: Result<Layout, Error>)
    ensures
        plain(result) == method_layout(vm@, types@, Ok(layout)),
{
    Ok(
        Layout {
            method_const: offset(vm, "Method", "_constMethod")?,
            method_flags: offset(vm, "Method", "_access_flags")?,
            cm_name: offset(vm, "ConstMethod", "_name_index")?,
            cm_sig: offset(vm, "ConstMethod", "_signature_index")?,
            cm_flags: offset(vm, "ConstMethod", "_flags")?,
            cm_code_size: offset(vm, "ConstMethod", "_code_size")?,
            cm_size: offset(vm, "ConstMethod", "_constMethod_size")?,
            cm_max_stack: offset(vm, "ConstMethod", "_max_stack")?,
            cm_max_locals: offset(vm, "ConstMethod", "_max_locals")?,
            cm_stackmap: offset(vm, "ConstMethod", "_stackmap_data")?,
            cm_header_size: types.size("ConstMethod")?,
            ..layout
        },
    )
}

fn read_cache_layout(vm: &VmStructTable, types: &VmTypes, layout: Layout) -> (result: Result<Layout, Error>)
    ensures
        plain(result) == cache_layout(vm@, types@, Ok(layout)),
{
    Ok(
        Layout {
            cache_length: offset(vm, "ConstantPoolCache", "_length")?,
            cache_entry_indices: offset(vm, "ConstantPoolCacheEntry", "_indices")?,
            cache_header_size: types.size("ConstantPoolCache")?,
            cache_entry_size: types.size("ConstantPoolCacheEntry")?,
            ..layout
        },
    )
}

impl Layout {
    /// The layout that the tables describe, if they describe all of it.
    pub fn new(vm: &VmStructTable, types: &VmTypes) -> (result: Result<Layout, Error>)
        ensures
            plain(result) == layout_of(vm@, types@),
    {
        reveal(layout_of);
        let layout = read_class_layout(vm, Layout::default())?;
        let layout = read_pool_layout(vm, types, layout)?;
        let layout = read_method_layout(vm, types, layout)?;
        read_cache_layout(vm, types, layout)
    }
}

/// The most failures that a report spells out.
pub const MAX_FAILURES: usize = 8;

/// What became of the classes: the class files for the archive and how many classes they are, how
/// many failed and the first of the reasons, and how many had the name of an earlier one.
#[derive(Debug)]
pub struct DumpReport {
    pub written: usize,
    pub failed: usize,
    pub duplicates: usize,
    pub failures: Vec<String>,
    pub archive: Vec<ClassFile>,
}

/// What became of the classes, its counts as numbers and its lists as sequences.
pub struct DumpView {
    pub written: nat,
    pub failed: nat,
    pub duplicates: nat,
    pub failures: Seq<Seq<char>>,
    pub archive: Seq<(Seq<char>, Seq<u8>)>,
}

impl View for DumpReport {
    type V = DumpView;

    open spec fn view(&self) -> DumpView {
        DumpView {
            written: self.written as nat,
            failed: self.failed as nat,
            duplicates: self.duplicates as nat,
            failures: views(self.failures@),
            archive: views(self.archive@),
        }
    }
}

/// Whether the archive has a file of the name `entry`.
pub open spec fn archived(archive: Seq<(Seq<char>, Seq<u8>)>, entry: Seq<char>) -> bool {
    exists|i: int| 0 <= i < archive.len() && (#[trigger] archive[i]).0 == entry
}

/// The class file of a class that may be archived under its name.
#[verifier::opaque]
pub open spec fn archivable(memory: Contents, class: ClassView, layout: Layout) -> Outcome<
    Seq<u8>,
> {
    match reconstructed(memory, class, layout) {
        Err(reason) => Err(reason),
        Ok(bytes) => if !safe_name(class.internal_name) {
            Err("unsafe class name"@)
        } else if encode_utf8(entry_name(class.internal_name)).len() >= NAME_LIMIT {
            Err("class name too long"@)
        } else {
            Ok(bytes)
        },
    }
}

/// The report of no class.
pub open spec fn empty_report() -> DumpView {
    DumpView {
        written: 0,
        failed: 0,
        duplicates: 0,
        failures: Seq::empty(),
        archive: Seq::empty(),
    }
}

/// The report once one more class was dealt with. Of several classes of one name, which different
/// class loaders may have loaded, the first is archived.
pub open spec fn reported(
    memory: Contents,
    layout: Layout,
    report: DumpView,
    class: ClassView,
) -> DumpView {
    match archivable(memory, class, layout) {
        Err(reason) => DumpView {
            failed: report.failed + 1,
            failures: if report.failures.len() < MAX_FAILURES {
                report.failures.push(with_context(class.internal_name, reason))
            } else {
                report.failures
            },
            ..report
        },
        Ok(bytes) => if archived(report.archive, entry_name(class.internal_name)) {
            DumpView { duplicates: report.duplicates + 1, ..report }
        } else {
            DumpView {
                written: report.written + 1,
                archive: report.archive.push((entry_name(class.internal_name), bytes)),
                ..report
            }
        },
    }
}

/// The report of `classes`, each dealt with in turn.
pub open spec fn report_of(memory: Contents, layout: Layout, classes: Seq<ClassView>) -> DumpView
    decreases classes.len(),
{
    if classes.len() == 0 {
        empty_report()
    } else {
        reported(
            memory,
            layout,
            report_of(memory, layout, classes.drop_last()),
            classes.last(),
        )
    }
}

/// The report of `classes`, given the tables that describe the layout: without a layout every
/// class fails, for one reason.
pub open spec fn dump_of(
    memory: Contents,
    classes: Seq<ClassView>,
    vm: Seq<EntryView>,
    types: Map<Seq<char>, u64>,
) -> DumpView {
    match layout_of(vm, types) {
        Ok(layout) => report_of(memory, layout, classes),
        Err(_) => DumpView {
            failed: classes.len(),
            failures: seq!["HotSpot layout is missing required VMStructs/VMTypes entries"@],
            ..empty_report()
        },
    }
}

fn class_bytes<M: RemoteMemory>(
    memory: &M,
    class: &DiscoveredClass,
    layout: &Layout,
) -> (result: Result<Vec<u8>, Error>)
    ensures
        seen(result) == archivable(memory.contents(), class@, *layout),
{
    reveal(archivable);
    let bytes = reconstruct(memory, class, layout)?;
    if !name_is_safe(class.internal_name.as_str()) {
        return Err(Error::new("unsafe class name"));
    }
    if entry_for(class.internal_name.as_str()).as_str().as_bytes().len() >= NAME_LIMIT {
        return Err(Error::new("class name too long"));
    }
    Ok(bytes)
}

/// Reconstructs `classes` for the archive.
pub fn dump_all<M: RemoteMemory>(
    memory: &M,
    classes: &Vec<DiscoveredClass>,
    vm: &VmStructTable,
    types: &VmTypes,
) -> (report: DumpReport)
    ensures
        report@ == dump_of(memory.contents(), views(classes@), vm@, types@),
{
    let mut report = DumpReport {
        written: 0,
        failed: 0,
        duplicates: 0,
        failures: Vec::new(),
        archive: Vec::new(),
    };
    assert(views(report.failures@) =~= Seq::empty());
    assert(views(report.archive@) =~= Seq::empty());
    let layout = match Layout::new(vm, types) {
        Ok(layout) => layout,
        Err(_) => {
            report.failed = classes.len();
            let reason = "HotSpot layout is missing required VMStructs/VMTypes entries".to_owned();
            proof {
                views_push(report.failures@, reason);
            }
            report.failures.push(reason);
            assert(report@.failures =~= seq![reason@]);
            return report;
        },
    };
    let mut held: StringHashMap<bool> = StringHashMap::new();
    let mut index: usize = 0;
    assert(views(classes@).take(0) =~= Seq::empty());
    while index < classes.len()
        invariant
            index <= classes@.len(),
            report.written + report.failed + report.duplicates == index,
            forall|entry: Seq<char>|
                held@.contains_key(entry) <==> #[trigger] archived(report@.archive, entry),
            report@ == report_of(memory.contents(), layout, views(classes@).take(index as int)),
        decreases classes@.len() - index,
    {
        let class = &classes[index];
        let ghost before = report@;
        let ghost upto = views(classes@).take(index + 1);
        assert(upto.drop_last() =~= views(classes@).take(index as int));
        assert(upto.last() == class@);
        match class_bytes(memory, class, &layout) {
            Err(error) => {
                report.failed += 1;
                if report.failures.len() < MAX_FAILURES {
                    let failure = error.context(class.internal_name.as_str()).text;
                    proof {
                        views_push(report.failures@, failure);
                    }
                    report.failures.push(failure);
                }
                assert(report@.archive == before.archive);
            },
            Ok(bytes) => {
                let entry = entry_for(class.internal_name.as_str());
                if held.contains_key(entry.as_str()) {
                    report.duplicates += 1;
                    assert(report@.archive == before.archive);
                } else {
                    held.insert(entry_for(class.internal_name.as_str()), true);
                    let file = ClassFile { entry, bytes };
                    proof {
                        views_push(report.archive@, file);
                        archiving_adds_a_name(before.archive, file@.0, file@.1);
                    }
                    report.archive.push(file);
                    report.written += 1;
                    assert(report@.archive == before.archive.push(file@));
                }
            },
        }
        index += 1;
    }
    assert(views(classes@).take(index as int) =~= views(classes@));
    report
}

proof fn archiving_adds_a_name(
    archive: Seq<(Seq<char>, Seq<u8>)>,
    name: Seq<char>,
    bytes: Seq<u8>,
)
    ensures
        forall|entry: Seq<char>| #[trigger]
            archived(archive.push((name, bytes)), entry) <==> archived(archive, entry) || entry
                == name,
{
    let more = archive.push((name, bytes));
    assert forall|entry: Seq<char>| archived(archive, entry) || entry == name implies #[trigger]
        archived(more, entry) by {
        if entry == name {
            assert(more[archive.len() as int].0 == entry);
        } else {
            let i = choose|i: int| 0 <= i < archive.len() && (#[trigger] archive[i]).0 == entry;
            assert(more[i].0 == entry);
        }
    }
    assert forall|entry: Seq<char>| #[trigger] archived(more, entry) implies archived(
        archive,
        entry,
    ) || entry == name by {
        let i = choose|i: int| 0 <= i < more.len() && (#[trigger] more[i]).0 == entry;
        if i < archive.len() {
            assert(archive[i].0 == entry);
        }
    }
}

/// Every class is counted once: as archived, as failed or as a duplicate. The archive holds the
/// archived ones, and the reasons are those of the first failures.
pub proof fn every_class_is_counted(
    memory: Contents,
    classes: Seq<ClassView>,
    vm: Seq<EntryView>,
    types: Map<Seq<char>, u64>,
)
    ensures
        ({
            let report = dump_of(memory, classes, vm, types);
            &&& report.written + report.failed + report.duplicates == classes.len()
            &&& report.archive.len() == report.written
            &&& layout_of(vm, types) is Ok ==> report.failures.len() == if report.failed
                < MAX_FAILURES {
                report.failed
            } else {
                MAX_FAILURES as nat
            }
        }),
{
    if let Ok(layout) = layout_of(vm, types) {
        report_counts(memory, layout, classes);
    }
}

proof fn report_counts(memory: Contents, layout: Layout, classes: Seq<ClassView>)
    ensures
        ({
            let report = report_of(memory, layout, classes);
            &&& report.written + report.failed + report.duplicates == classes.len()
            &&& report.archive.len() == report.written
            &&& report.failures.len() == if report.failed < MAX_FAILURES {
                report.failed
            } else {
                MAX_FAILURES as nat
            }
        }),
    decreases classes.len(),
{
    if classes.len() > 0 {
        report_counts(memory, layout, classes.drop_last());
    }
}

/// No two files of the archive have the same name.
pub proof fn archive_names_are_distinct(
    memory: Contents,
    classes: Seq<ClassView>,
    vm: Seq<EntryView>,
    types: Map<Seq<char>, u64>,
)
    ensures
        ({
            let archive = dump_of(memory, classes, vm, types).archive;
            forall|i: int, j: int|
                0 <= i < j < archive.len() ==> (#[trigger] archive[i]).0 != (
                #[trigger] archive[j]).0
        }),
    decreases classes.len(),
{
    if let Ok(layout) = layout_of(vm, types) {
        if classes.len() > 0 {
            archive_names_are_distinct(memory, classes.drop_last(), vm, types);
            let before = report_of(memory, layout, classes.drop_last()).archive;
            let archive = report_of(memory, layout, classes).archive;
            assert(before == dump_of(memory, classes.drop_last(), vm, types).archive);
            assert forall|i: int, j: int| 0 <= i < j < archive.len() implies (
            #[trigger] archive[i]).0 != (#[trigger] archive[j]).0 by {
                assert(before[i] == archive[i]);
                if j < before.len() {
                    assert(before[j] == archive[j]);
                } else {
                    assert(archive[j].0 == entry_name(classes.last().internal_name));
                    assert(!archived(before, archive[j].0));
                }
            }
        }
    }
}

/// A file of the archive is the class file of one of the classes, under the name of that class,
/// which is safe and not too long.
pub proof fn archive_holds_class_files(
    memory: Contents,
    classes: Seq<ClassView>,
    vm: Seq<EntryView>,
    types: Map<Seq<char>, u64>,
    index: int,
)
    requires
        0 <= index < dump_of(memory, classes, vm, types).archive.len(),
    ensures
        ({
            let (entry, bytes) = dump_of(memory, classes, vm, types).archive[index];
            exists|i: int|
                0 <= i < classes.len() && entry == entry_name(
                    (#[trigger] classes[i]).internal_name,
                ) && safe_name(classes[i].internal_name) && encode_utf8(entry).len() < NAME_LIMIT && (
                layout_of(vm, types) matches Ok(layout)
                    && reconstructed(memory, classes[i], layout) == Ok::<Seq<u8>, Seq<char>>(bytes))
        }),
    decreases classes.len(),
{
    if let Ok(layout) = layout_of(vm, types) {
        if classes.len() > 0 {
            let before = report_of(memory, layout, classes.drop_last()).archive;
            if index < before.len() {
                archive_holds_class_files(memory, classes.drop_last(), vm, types, index);
                let (entry, bytes) = before[index];
                let i = choose|i: int|
                    0 <= i < classes.drop_last().len() && entry == entry_name(
                        (#[trigger] classes.drop_last()[i]).internal_name,
                    ) && safe_name(classes.drop_last()[i].internal_name) && encode_utf8(entry).len()
                        < NAME_LIMIT && reconstructed(
                        memory,
                        classes.drop_last()[i],
                        layout,
                    ) == Ok::<Seq<u8>, Seq<char>>(bytes);
                assert(classes[i] == classes.drop_last()[i]);
            } else {
                reveal(archivable);
                assert(classes[classes.len() - 1] == classes.last());
            }
        }
    }
}

/// The names of the archive fit, so that there is room for it unless one of its files is too large.
pub proof fn archive_names_fit(
    memory: Contents,
    classes: Seq<ClassView>,
    vm: Seq<EntryView>,
    types: Map<Seq<char>, u64>,
)
    ensures
        names_fit(dump_of(memory, classes, vm, types).archive),
{
    let archive = dump_of(memory, classes, vm, types).archive;
    archive_names_are_distinct(memory, classes, vm, types);
    assert forall|i: int| 0 <= i < archive.len() implies encode_utf8(
        (#[trigger] archive[i]).0,
    ).len() < NAME_LIMIT by {
        archive_holds_class_files(memory, classes, vm, types, i);
    }
}

/// The archive has a file for every class that can be archived: if not that class itself, then an
/// earlier one of the same name.
pub proof fn archivable_classes_are_archived(
    memory: Contents,
    classes: Seq<ClassView>,
    vm: Seq<EntryView>,
    types: Map<Seq<char>, u64>,
    layout: Layout,
    index: int,
)
    requires
        layout_of(vm, types) == Ok::<Layout, Seq<char>>(layout),
        0 <= index < classes.len(),
        archivable(memory, classes[index], layout) is Ok,
    ensures
        archived(
            dump_of(memory, classes, vm, types).archive,
            entry_name(classes[index].internal_name),
        ),
    decreases classes.len(),
{
    let before = report_of(memory, layout, classes.drop_last());
    let class = classes.last();
    if let Ok(bytes) = archivable(memory, class, layout) {
        archiving_adds_a_name(before.archive, entry_name(class.internal_name), bytes);
    }
    if index < classes.len() - 1 {
        assert(classes.drop_last()[index] == classes[index]);
        archivable_classes_are_archived(memory, classes.drop_last(), vm, types, layout, index);
    }
}

} // verus!
