use jvm_ext_dumper::hotspot::dictionary::walk;
use jvm_ext_dumper::hotspot::discovery::{locate_hotspot, ANCHOR_CLASSES};
use jvm_ext_dumper::hotspot::heuristic::infer;
use jvm_ext_dumper::hotspot::inspect;
use jvm_ext_dumper::hotspot::pe::RemotePe;
use jvm_ext_dumper::hotspot::vmstructs::{VmStructEntry, VmStructTable};
use jvm_ext_dumper::hotspot::vmtypes::VmTypes;
use jvm_ext_dumper::platform::{MemoryRegion, ModuleInfo, RemoteMemory};
use jvm_ext_dumper::text::Error;

/// The module `jvm.dll`, from `BASE` on, and what hangs on it.
struct Memory {
    bytes: Vec<u8>,
    free: u64,
}

const BASE: u64 = 0x18_0000;
const SIZE: usize = 0x2_0000;

impl Memory {
    fn new() -> Memory {
        Memory {
            bytes: vec![0; SIZE],
            free: BASE + 0x1_0000,
        }
    }

    fn put(&mut self, at: u64, bytes: &[u8]) {
        let start = (at - BASE) as usize;
        self.bytes[start..start + bytes.len()].copy_from_slice(bytes);
    }

    fn put_u16(&mut self, at: u64, value: u16) {
        self.put(at, &value.to_le_bytes());
    }

    fn put_u32(&mut self, at: u64, value: u32) {
        self.put(at, &value.to_le_bytes());
    }

    fn put_u64(&mut self, at: u64, value: u64) {
        self.put(at, &value.to_le_bytes());
    }

    fn text(&mut self, text: &str) -> u64 {
        let at = self.free;
        self.put(at, text.as_bytes());
        self.free += text.len() as u64 + 1;
        at
    }

    fn symbol(&mut self, text: &str) -> u64 {
        self.free = (self.free + 7) / 8 * 8;
        let at = self.free;
        self.put_u16(at, text.len() as u16);
        self.put(at + 8, text.as_bytes());
        self.free += 8 + text.len() as u64;
        at
    }

    /// The headers of a module with the given exports, each a variable of eight bytes.
    fn put_module(&mut self, exports: &[(&str, u64)]) {
        self.put_u16(BASE, 0x5a4d);
        self.put_u32(BASE + 0x3c, 0x80);
        self.put_u32(BASE + 0x80, 0x4550);
        self.put_u16(BASE + 0x98, 0x20b);
        self.put_u32(BASE + 0x98 + 112, 0x200);
        let count = exports.len() as u64;
        self.put_u32(BASE + 0x214, count as u32);
        self.put_u32(BASE + 0x218, count as u32);
        self.put_u32(BASE + 0x21c, 0x300);
        self.put_u32(BASE + 0x220, 0x400);
        self.put_u32(BASE + 0x224, 0x500);
        for (index, (name, value)) in exports.iter().enumerate() {
            let index = index as u64;
            let ordinal = count - 1 - index;
            let name = self.text(name);
            self.put_u32(BASE + 0x400 + index * 4, (name - BASE) as u32);
            self.put_u16(BASE + 0x500 + index * 2, ordinal as u16);
            self.put_u32(BASE + 0x300 + ordinal * 4, 0x600 + ordinal as u32 * 8);
            self.put_u64(BASE + 0x600 + ordinal * 8, *value);
        }
    }

    fn put_vmstruct(&mut self, row: u64, entry: (&str, &str, u64, u64)) {
        let name = self.text(entry.0);
        let field = self.text(entry.1);
        let kind = self.text("u8");
        self.put_u64(row, name);
        self.put_u64(row + 8, field);
        self.put_u64(row + 16, kind);
        self.put_u32(row + 24, (entry.3 != 0) as u32);
        self.put_u64(row + 32, entry.2);
        self.put_u64(row + 40, entry.3);
    }

    fn put_vmtype(&mut self, row: u64, name: &str, size: u64) {
        let name = self.text(name);
        self.put_u64(row, name);
        self.put_u64(row + 32, size);
    }
}

impl RemoteMemory for Memory {
    fn read_exact(&self, address: u64, destination: &mut [u8]) -> Result<(), Error> {
        let length = destination.len() as u64;
        let inside = address >= BASE
            && address
                .checked_add(length)
                .map_or(false, |end| end <= BASE + SIZE as u64);
        if !inside {
            return Err(Error::new("out of range"));
        }
        let start = (address - BASE) as usize;
        destination.copy_from_slice(&self.bytes[start..start + destination.len()]);
        Ok(())
    }
}

const STRUCTS: u64 = BASE + 0x2000;
const TYPES: u64 = BASE + 0x6000;

const EXPORTS: [(&str, u64); 12] = [
    ("gHotSpotVMStructs", STRUCTS),
    ("gHotSpotVMStructEntryTypeNameOffset", 0),
    ("gHotSpotVMStructEntryFieldNameOffset", 8),
    ("gHotSpotVMStructEntryTypeStringOffset", 16),
    ("gHotSpotVMStructEntryIsStaticOffset", 24),
    ("gHotSpotVMStructEntryOffsetOffset", 32),
    ("gHotSpotVMStructEntryAddressOffset", 40),
    ("gHotSpotVMStructEntryArrayStride", 48),
    ("gHotSpotVMTypes", TYPES),
    ("gHotSpotVMTypeEntryTypeNameOffset", 0),
    ("gHotSpotVMTypeEntrySizeOffset", 32),
    ("gHotSpotVMTypeEntryArrayStride", 40),
];

/// The fields that walking the dictionary and checking the tables need.
const FIELDS: [(&str, &str, u64, u64); 18] = [
    ("SystemDictionary", "_dictionary", 0, BASE + 0x900),
    ("BasicHashtable<mtInternal>", "_table_size", 0, 0),
    ("BasicHashtable<mtInternal>", "_buckets", 8, 0),
    ("HashtableBucket<mtInternal>", "_entry", 0, 0),
    ("BasicHashtableEntry<mtInternal>", "_next", 8, 0),
    ("IntptrHashtableEntry", "_literal", 16, 0),
    ("Klass", "_name", 0x10, 0),
    ("Klass", "_super", 0x78, 0),
    ("Klass", "_access_flags", 0xa4, 0),
    ("Symbol", "_length", 0, 0),
    ("Symbol", "_body", 8, 0),
    ("InstanceKlass", "_constants", 0xd0, 0),
    ("InstanceKlass", "_fields", 0x1a8, 0),
    ("InstanceKlass", "_methods", 0x178, 0),
    ("ConstantPool", "_tags", 0x10, 0),
    ("ConstantPool", "_length", 0x40, 0),
    ("Method", "_constMethod", 8, 0),
    ("ConstMethod", "_code_size", 0x20, 0),
];

const SIZES: [(&str, u64); 4] = [
    ("ConstantPool", 0x50),
    ("ConstMethod", 0x30),
    ("ConstantPoolCache", 0x10),
    ("ConstantPoolCacheEntry", 0x20),
];

/// A dictionary of two buckets, with the classes `b/B`, `a/A` and one that has no name.
fn put_dictionary(memory: &mut Memory) {
    memory.put_u64(BASE + 0x900, BASE + 0x910);
    memory.put_u32(BASE + 0x910, 2);
    memory.put_u64(BASE + 0x918, BASE + 0x930);
    memory.put_u64(BASE + 0x930, BASE + 0x941);
    memory.put_u64(BASE + 0x938, BASE + 0x960);
    // The first chain has two entries and leads back to its start.
    memory.put_u64(BASE + 0x948, BASE + 0x980);
    memory.put_u64(BASE + 0x950, BASE + 0xa00);
    memory.put_u64(BASE + 0x988, BASE + 0x940);
    memory.put_u64(BASE + 0x990, BASE + 0xb00);
    // The second chain has an entry for a class that was met and one without a name.
    memory.put_u64(BASE + 0x968, BASE + 0x9a0);
    memory.put_u64(BASE + 0x970, BASE + 0xa00);
    memory.put_u64(BASE + 0x9b0, BASE + 0xc00);
    let name = memory.symbol("b/B");
    memory.put_u64(BASE + 0xa10, name);
    let name = memory.symbol("a/A");
    memory.put_u64(BASE + 0xb10, name);
}

fn exported() -> Memory {
    let mut memory = Memory::new();
    memory.put_module(&EXPORTS);
    for (index, entry) in FIELDS.iter().enumerate() {
        memory.put_vmstruct(STRUCTS + index as u64 * 48, *entry);
    }
    for (index, (name, size)) in SIZES.iter().enumerate() {
        memory.put_vmtype(TYPES + index as u64 * 40, name, *size);
    }
    put_dictionary(&mut memory);
    memory
}

/// The same tables without their exports, long enough to be believed.
fn unexported() -> Memory {
    let mut memory = Memory::new();
    memory.put_module(&[("other", 1)]);
    for index in 0..100u64 {
        memory.put_vmstruct(STRUCTS + index * 48, ("Filler", "_field", index, 0));
    }
    for (index, entry) in FIELDS.iter().enumerate() {
        memory.put_vmstruct(STRUCTS + (100 + index as u64) * 48, *entry);
    }
    for index in 0..60u64 {
        let name = format!("Filler{index}");
        memory.put_vmtype(TYPES + index * 40, &name, 8);
    }
    for (index, (name, size)) in SIZES.iter().enumerate() {
        memory.put_vmtype(TYPES + (60 + index as u64) * 40, name, *size);
    }
    put_dictionary(&mut memory);
    memory
}

fn modules() -> Vec<ModuleInfo> {
    vec![
        ModuleInfo {
            name: "java.exe".to_owned(),
            base: 0x1000,
            size: 0x1000,
        },
        ModuleInfo {
            name: "JVM.dll".to_owned(),
            base: BASE,
            size: SIZE,
        },
    ]
}

#[test]
fn bootstrap_anchors_use_internal_names() {
    assert!(ANCHOR_CLASSES.iter().all(|name| name.contains('/')));
}

#[test]
fn exports_are_read_by_name() {
    let memory = exported();
    let exports = RemotePe::new(&memory, BASE).exports().unwrap();
    assert_eq!(exports.len(), 12);
    assert_eq!(exports.get("gHotSpotVMStructs"), Some(&(BASE + 0x600 + 11 * 8)));
    assert_eq!(exports.get("gHotSpotVMTypeEntryArrayStride"), Some(&(BASE + 0x600)));
    assert_eq!(exports.get("nothing"), None);
}

fn export_failure(change: fn(&mut Memory)) -> String {
    let mut memory = exported();
    change(&mut memory);
    match RemotePe::new(&memory, BASE).exports() {
        Ok(_) => panic!("exports"),
        Err(error) => error.text,
    }
}

#[test]
fn broken_modules_are_refused() {
    assert_eq!(
        export_failure(|m| m.put_u16(BASE, 0)),
        "jvm.dll has an invalid DOS header"
    );
    assert_eq!(
        export_failure(|m| m.put_u32(BASE + 0x80, 0)),
        "jvm.dll has an invalid PE signature"
    );
    assert_eq!(
        export_failure(|m| m.put_u16(BASE + 0x98, 0x10b)),
        "target jvm.dll is not PE32+; only x64 HotSpot is currently supported"
    );
    assert_eq!(
        export_failure(|m| m.put_u32(BASE + 0x98 + 112, 0)),
        "jvm.dll has no PE export directory"
    );
    assert_eq!(
        export_failure(|m| m.put_u32(BASE + 0x218, 100_001)),
        "unreasonable PE export count"
    );
    assert_eq!(
        export_failure(|m| m.put_u16(BASE + 0x502, 12)),
        "invalid PE export ordinal for gHotSpotVMStructEntryTypeNameOffset"
    );
    assert_eq!(
        export_failure(|m| m.put_u32(BASE + 0x404, 0xffff_fff0)),
        "invalid PE export name #1: out of range"
    );
}

#[test]
fn strings_end_at_a_zero_within_the_limit() {
    let mut memory = Memory::new();
    memory.put(BASE, b"abc\0def\0");
    assert_eq!(memory.read_c_string(BASE, 4).unwrap(), "abc");
    assert_eq!(memory.read_c_string(BASE + 3, 1).unwrap(), "");
    assert_eq!(
        memory.read_c_string(BASE, 3).unwrap_err().text,
        "unterminated string at 0x0000000000180000"
    );
    memory.put(BASE, &[0x61, 0xff]);
    let complaint = String::from_utf8(vec![0x61, 0xff, 0x63]).unwrap_err();
    assert_eq!(
        memory.read_c_string(BASE, 9).unwrap_err().text,
        complaint.to_string()
    );
    assert_eq!(memory.read_u16(BASE).unwrap(), 0xff61);
    assert_eq!(memory.read_u32(BASE).unwrap(), 0x0063_ff61);
    assert_eq!(memory.read_u64(BASE).unwrap(), 0x0066_6564_0063_ff61);
}

#[test]
fn exported_tables_are_read() {
    let memory = exported();
    let exports = RemotePe::new(&memory, BASE).exports().unwrap();
    let table = VmStructTable::read(&memory, &exports).unwrap();
    assert_eq!(table.entries.len(), 18);
    assert_eq!(table.find("Klass", "_super").unwrap().offset, 0x78);
    assert_eq!(
        table.find("SystemDictionary", "_dictionary").unwrap().address,
        BASE + 0x900
    );
    assert!(table.find("Klass", "_missing").is_none());
    let types = VmTypes::read(&memory, &exports).unwrap();
    assert_eq!(types.size("ConstMethod").unwrap(), 0x30);
    assert_eq!(
        types.size("Missing").unwrap_err().text,
        "VMTypes has no size for Missing"
    );
}

#[test]
fn absent_exports_are_named() {
    let memory = unexported();
    let exports = RemotePe::new(&memory, BASE).exports().unwrap();
    assert_eq!(
        VmStructTable::read(&memory, &exports).unwrap_err().text,
        "jvm.dll does not export gHotSpotVMStructs"
    );
    match VmTypes::read(&memory, &exports) {
        Ok(_) => panic!("types"),
        Err(error) => assert_eq!(error.text, "jvm.dll does not export gHotSpotVMTypes"),
    }
}

#[test]
fn dictionary_classes_come_once_in_the_order_of_their_names() {
    let memory = exported();
    let exports = RemotePe::new(&memory, BASE).exports().unwrap();
    let table = VmStructTable::read(&memory, &exports).unwrap();
    let classes = walk(&memory, BASE + 0x910, &table).unwrap();
    let found: Vec<(u64, &str)> = classes
        .iter()
        .map(|class| (class.klass, class.internal_name.as_str()))
        .collect();
    assert_eq!(found, [(BASE + 0xb00, "a/A"), (BASE + 0xa00, "b/B")]);
}

#[test]
fn broken_dictionaries_are_refused() {
    let mut memory = exported();
    let exports = RemotePe::new(&memory, BASE).exports().unwrap();
    let table = VmStructTable::read(&memory, &exports).unwrap();
    assert_eq!(
        walk(&memory, 0, &table).unwrap_err().text,
        "SystemDictionary::_dictionary is null"
    );
    memory.put_u32(BASE + 0x910, 0);
    assert_eq!(
        walk(&memory, BASE + 0x910, &table).unwrap_err().text,
        "invalid Dictionary layout: table_size=0, buckets=0x0000000000180930"
    );
    let bare = VmStructTable {
        entries: vec![VmStructEntry {
            struct_name: "Klass".to_owned(),
            field_name: "_name".to_owned(),
            offset: 0,
            address: 0,
        }],
    };
    assert_eq!(
        walk(&memory, BASE + 0x910, &bare).unwrap_err().text,
        "VMStructs has no BasicHashtable<mtInternal>::_table_size"
    );
}

#[test]
fn unexported_tables_are_found_in_the_image() {
    let memory = unexported();
    let found = infer(&memory, BASE, SIZE).unwrap();
    assert_eq!(found.structs.entries.len(), 118);
    assert_eq!(found.structs.find("Filler", "_field").unwrap().offset, 0);
    assert_eq!(found.structs.find("ConstMethod", "_code_size").unwrap().offset, 0x20);
    assert_eq!(found.types.size("ConstantPool").unwrap(), 0x50);
    assert_eq!(found.types.size("Filler7").unwrap(), 8);
}

fn infer_failure(memory: &Memory, size: usize) -> String {
    match infer(memory, BASE, size) {
        Ok(_) => panic!("inferred"),
        Err(error) => error.text,
    }
}

#[test]
fn incomplete_tables_are_refused() {
    let mut memory = unexported();
    assert_eq!(infer_failure(&memory, 0), "unreasonable jvm.dll image size");
    assert_eq!(
        infer_failure(&memory, 0x2000_0001),
        "unreasonable jvm.dll image size"
    );
    assert_eq!(
        infer_failure(&Memory::new(), SIZE),
        "VMStruct anchor strings are absent"
    );
    memory.put_u64(STRUCTS + 117 * 48, 0);
    assert_eq!(
        infer_failure(&memory, SIZE),
        "internal VMStructs candidate failed validation (17/18 required fields)"
    );
    let mut memory = unexported();
    memory.put_u64(TYPES + 63 * 40, 0);
    assert_eq!(
        infer_failure(&memory, SIZE),
        "internal VMTypes candidate failed validation"
    );
    let mut memory = unexported();
    memory.put_u64(STRUCTS + 60 * 48, 0);
    assert_eq!(
        infer_failure(&memory, SIZE),
        "could not locate a valid internal VMStructs table"
    );
}

fn no_regions() -> Result<Vec<MemoryRegion>, Error> {
    Err(Error::new("not listed"))
}

#[test]
fn exported_tables_come_first() {
    let memory = exported();
    let report = locate_hotspot(&memory, 7, &modules(), no_regions(), &mut Vec::new()).unwrap();
    assert_eq!(report.jvm_module_base, BASE);
    assert_eq!(report.jvm_module_size, SIZE);
    assert_eq!(report.anchors, ANCHOR_CLASSES);
    assert_eq!(report.next_step, "optional debug and annotation attributes");
    assert_eq!(report.vmstruct_count, 18);
    assert_eq!(report.layout_source, "exported gHotSpotVMStructs/gHotSpotVMTypes");
    assert_eq!(report.system_dictionary_storage, Some(BASE + 0x900));
    assert_eq!(report.system_dictionary, Some(BASE + 0x910));
    assert_eq!(report.scanned_bytes, None);
    assert!(report.structural_anchors.is_none());
    assert_eq!(report.classes.len(), 2);
    assert_eq!(report.classfiles_written, 0);
    assert_eq!(report.classfiles_failed, 2);
    assert_eq!(report.archive_duplicates, 0);
    assert_eq!(
        report.classfile_failures,
        ["HotSpot layout is missing required VMStructs/VMTypes entries"]
    );
}

#[test]
fn tables_in_the_image_come_second() {
    let memory = unexported();
    let report = locate_hotspot(&memory, 7, &modules(), no_regions(), &mut Vec::new()).unwrap();
    assert_eq!(
        report.layout_source,
        "internal VM tables (exports unavailable: jvm.dll does not export gHotSpotVMStructs)"
    );
    assert_eq!(report.vmstruct_count, 118);
    assert_eq!(report.classes.len(), 2);
}

#[test]
fn tables_in_the_image_serve_a_module_without_an_export_directory() {
    let mut memory = unexported();
    memory.put_u32(BASE + 0x98 + 112, 0);
    let mut notes = Vec::new();
    let report = locate_hotspot(&memory, 7, &modules(), no_regions(), &mut notes).unwrap();
    assert_eq!(
        report.layout_source,
        "internal VM tables (exports unavailable: jvm.dll has no PE export directory)"
    );
    assert_eq!(report.vmstruct_count, 118);
    assert_eq!(report.classes.len(), 2);
    assert!(report.structural_anchors.is_none());
    assert!(notes.is_empty());
}

#[test]
fn a_module_without_an_export_directory_is_searched_by_all_means() {
    let mut memory = Memory::new();
    memory.put_module(&[]);
    memory.put_u32(BASE + 0x98 + 112, 0);
    assert_eq!(
        locate_hotspot(&memory, 7, &modules(), no_regions(), &mut Vec::new())
            .unwrap_err()
            .text,
        "HotSpot exports failed (jvm.dll has no PE export directory); internal tables failed (VMStruct anchor strings are absent); structural fallback failed: not listed"
    );
}

#[test]
fn the_shape_comes_last_and_all_failures_are_told() {
    let mut memory = Memory::new();
    memory.put_module(&[]);
    let outer = "HotSpot exports failed (jvm.dll does not export gHotSpotVMStructs); internal tables failed (VMStruct anchor strings are absent); structural fallback failed";
    assert_eq!(
        locate_hotspot(&memory, 7, &modules(), no_regions(), &mut Vec::new())
            .unwrap_err()
            .text,
        format!("{outer}: not listed")
    );
    assert_eq!(
        locate_hotspot(&memory, 7, &modules(), Ok(Vec::new()), &mut Vec::new())
            .unwrap_err()
            .text,
        format!("{outer}: the target has no readable committed memory regions")
    );
}

#[test]
fn a_target_without_hotspot_is_refused() {
    let memory = exported();
    let others = vec![ModuleInfo {
        name: "jvm.dll2".to_owned(),
        base: BASE,
        size: SIZE,
    }];
    assert_eq!(
        locate_hotspot(&memory, 31, &others, no_regions(), &mut Vec::new())
            .unwrap_err()
            .text,
        "jvm.dll is not loaded in PID 31"
    );
}

#[test]
fn nothing_is_archived_without_class_files() {
    let memory = exported();
    let inspection = inspect(&memory, 7, &modules(), no_regions(), &mut Vec::new()).unwrap();
    assert!(inspection.jar.is_none());
    assert_eq!(inspection.report.classes.len(), 2);
}
