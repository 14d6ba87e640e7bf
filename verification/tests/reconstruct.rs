use std::io::Read;

use jvm_ext_dumper::hotspot::dictionary::DiscoveredClass;
use jvm_ext_dumper::hotspot::reconstruct::archive::{make_jar, name_is_safe, ClassFile};
use jvm_ext_dumper::hotspot::reconstruct::image::{read_image, reconstruct};
use jvm_ext_dumper::hotspot::reconstruct::pool::{add_utf8, cp_utf8, ensure_class, Cp};
use jvm_ext_dumper::hotspot::reconstruct::{dump_all, Layout};
use jvm_ext_dumper::hotspot::structural::layout::{
    profile_vmstructs, profile_vmtypes, CoreLayout,
};
use jvm_ext_dumper::hotspot::vmstructs::VmStructTable;
use jvm_ext_dumper::platform::RemoteMemory;
use jvm_ext_dumper::text::Error;

struct Memory(Vec<u8>);

impl Memory {
    fn put(&mut self, at: u64, bytes: &[u8]) {
        let start = at as usize;
        self.0[start..start + bytes.len()].copy_from_slice(bytes);
    }

    fn put_u16(&mut self, at: u64, value: u16) {
        self.put(at, &value.to_le_bytes());
    }

    fn put_u32(&mut self, at: u64, value: u32) {
        self.put(at, &value.to_le_bytes());
    }

    fn put_u64(&mut self, at: u64, value: u64) {
        self.put(at, &value.to_le_bytes());
    }

    fn put_symbol(&mut self, at: u64, text: &str) {
        self.put_u16(at, text.len() as u16);
        self.put(at + 8, text.as_bytes());
    }
}

impl RemoteMemory for Memory {
    fn read_exact(&self, address: u64, destination: &mut [u8]) -> Result<(), Error> {
        let length = destination.len() as u64;
        if address.checked_add(length).map_or(true, |end| end > self.0.len() as u64) {
            return Err(Error::new("out of range"));
        }
        let start = address as usize;
        destination.copy_from_slice(&self.0[start..start + destination.len()]);
        Ok(())
    }
}

const CORE: CoreLayout = CoreLayout {
    klass_name: 0x10,
    ik_constants: 0xd0,
    cp_tags: 0x10,
    cp_holder: 0x20,
    cp_length: 0x40,
    cp_size: 0x50,
};

const KLASS: u64 = 0x1000;
const POOL: u64 = 0x2000;
const TAGS: u64 = 0x2800;
const CONST_METHOD: u64 = 0x5300;

fn layout() -> Layout {
    Layout::new(&profile_vmstructs(CORE), &profile_vmtypes(CORE.cp_size)).unwrap()
}

fn foo() -> DiscoveredClass {
    DiscoveredClass {
        klass: KLASS,
        internal_name: "Foo".to_owned(),
    }
}

/// The class `Foo` with a field and the method `void run() { return; }`.
fn memory() -> Memory {
    let mut memory = Memory(vec![0; 0x8000]);
    memory.put_symbol(0x3000, "Foo");
    memory.put_symbol(0x3040, "run");
    memory.put_symbol(0x3080, "()V");
    memory.put_symbol(0x30c0, "hi");
    memory.put_symbol(0x3100, "java/lang/Object");
    memory.put_u64(0x4010, 0x3100);
    memory.put_u64(POOL + 0x10, TAGS);
    memory.put_u32(POOL + 0x40, 9);
    memory.put_u32(TAGS, 9);
    memory.put(TAGS + 4, &[0, 1, 100, 1, 1, 3, 5, 0, 8]);
    for (index, raw) in [
        (1, 0x3000),
        (2, 0x3001),
        (3, 0x3040),
        (4, 0x3080),
        (5, 7),
        (6, 0x0102_0304_0506_0708),
        (8, 0x30c0),
    ] {
        memory.put_u64(POOL + 0x50 + index * 8, raw);
    }
    memory.put_u64(KLASS + 0xd0, POOL);
    memory.put_u64(KLASS + 0x78, 0x4000);
    memory.put_u32(KLASS + 0xa4, 0x8000_0021);
    memory.put_u16(KLASS + 0x10c, 52);
    memory.put_u16(KLASS + 0xfe, 1);
    memory.put_u64(KLASS + 0x1a8, 0x5000);
    memory.put_u64(KLASS + 0x178, 0x5100);
    memory.put_u32(0x5000, 6);
    memory.put_u16(0x5004, 0x2002);
    memory.put_u16(0x5006, 3);
    memory.put_u16(0x5008, 4);
    memory.put_u32(0x5100, 1);
    memory.put_u64(0x5108, 0x5200);
    memory.put_u64(0x5208, CONST_METHOD);
    memory.put_u32(0x5228, 0x0800_0001);
    memory.put_u32(CONST_METHOD + 0x18, 16);
    memory.put_u16(CONST_METHOD + 0x20, 1);
    memory.put_u16(CONST_METHOD + 0x22, 3);
    memory.put_u16(CONST_METHOD + 0x24, 4);
    memory.put_u16(CONST_METHOD + 0x28, 1);
    memory.put_u16(CONST_METHOD + 0x2a, 2);
    memory.put(CONST_METHOD + 0x30, &[177]);
    memory
}

fn utf8(text: &str) -> Vec<u8> {
    let mut bytes = vec![1];
    bytes.extend((text.len() as u16).to_be_bytes());
    bytes.extend(text.as_bytes());
    bytes
}

fn expected_head(count: u16) -> Vec<u8> {
    let mut bytes = vec![0xca, 0xfe, 0xba, 0xbe, 0, 0, 0, 52];
    bytes.extend(count.to_be_bytes());
    bytes.extend(utf8("Foo"));
    bytes.extend([7, 0, 1]);
    bytes.extend(utf8("run"));
    bytes.extend(utf8("()V"));
    bytes.extend([3, 0, 0, 0, 7]);
    bytes.extend([5, 1, 2, 3, 4, 5, 6, 7, 8]);
    bytes.extend([8, 0, 9]);
    bytes.extend(utf8("hi"));
    bytes.extend(utf8("java/lang/Object"));
    bytes.extend([7, 0, 10]);
    bytes
}

#[test]
fn class_file_is_rebuilt_byte_for_byte() {
    let mut expected = expected_head(13);
    expected.extend(utf8("Code"));
    expected.extend([0, 0x21, 0, 2, 0, 11, 0, 0]);
    expected.extend([0, 1]);
    expected.extend([0, 2, 0, 3, 0, 4, 0, 0]);
    expected.extend([0, 1]);
    expected.extend([0, 1, 0, 3, 0, 4, 0, 1]);
    expected.extend([0, 12, 0, 0, 0, 13]);
    expected.extend([0, 1, 0, 2, 0, 0, 0, 1, 177, 0, 0, 0, 0]);
    expected.extend([0, 0]);
    assert_eq!(reconstruct(&memory(), &foo(), &layout()).unwrap(), expected);
}

#[test]
fn signatures_stack_maps_exceptions_and_bootstraps_are_kept() {
    let mut memory = memory();
    // The class has a generic signature and an interface.
    memory.put_u16(KLASS + 0xf8, 4);
    memory.put_u64(KLASS + 0x188, 0x6000);
    memory.put_u32(0x6000, 1);
    memory.put_u64(0x6008, 0x4000);
    // The field has one, packed behind the fields.
    memory.put_u32(0x5000, 7);
    memory.put_u16(0x5004, 0x0802);
    memory.put_u16(0x5010, 3);
    // The method has one, and an exception table before it; a pointer to annotations ends it.
    memory.put_u16(CONST_METHOD + 0x1c, 0x0098);
    let tail = CONST_METHOD + 16 * 8 - 8 - 2;
    memory.put_u16(tail, 1);
    memory.put_u16(tail - 2, 1);
    memory.put_u16(tail - 10, 0);
    memory.put_u16(tail - 8, 1);
    memory.put_u16(tail - 6, 0);
    memory.put_u16(tail - 4, 2);
    // It has a stack map.
    memory.put_u64(CONST_METHOD + 0x10, 0x6100);
    memory.put_u32(0x6100, 3);
    memory.put(0x6104, &[0, 1, 9]);
    // The pool has one bootstrap method with an argument.
    memory.put_u64(POOL + 0x28, 0x6200);
    memory.put_u32(0x6200, 5);
    memory.put(0x6204, &[2, 0, 0, 0, 6, 0, 1, 0, 8, 0]);

    let image = read_image(&memory, &foo(), &layout()).unwrap();
    assert_eq!(image.generic, Some(4));
    assert_eq!(image.interfaces, [11]);
    assert_eq!(image.fields[0].generic, Some(3));
    assert_eq!(image.fields[0].flags, 2);
    assert_eq!(image.methods[0].generic, Some(1));
    assert_eq!(image.bootstrap_methods, [vec![6, 8]]);

    let mut expected = expected_head(16);
    expected.extend(utf8("Code"));
    expected.extend(utf8("StackMapTable"));
    expected.extend(utf8("Signature"));
    expected.extend(utf8("BootstrapMethods"));
    expected.extend([0, 0x21, 0, 2, 0, 11, 0, 1, 0, 11]);
    expected.extend([0, 1]);
    expected.extend([0, 2, 0, 3, 0, 4, 0, 1, 0, 14, 0, 0, 0, 2, 0, 3]);
    expected.extend([0, 1]);
    expected.extend([0, 1, 0, 3, 0, 4, 0, 2]);
    expected.extend([0, 12, 0, 0, 0, 30]);
    expected.extend([0, 1, 0, 2, 0, 0, 0, 1, 177]);
    expected.extend([0, 1, 0, 0, 0, 1, 0, 0, 0, 2]);
    expected.extend([0, 1, 0, 13, 0, 0, 0, 3, 0, 1, 9]);
    expected.extend([0, 14, 0, 0, 0, 2, 0, 1]);
    expected.extend([0, 2]);
    expected.extend([0, 14, 0, 0, 0, 2, 0, 4]);
    expected.extend([0, 15, 0, 0, 0, 8, 0, 1, 0, 6, 0, 1, 0, 8]);
    assert_eq!(reconstruct(&memory, &foo(), &layout()).unwrap(), expected);
}

fn failure(change: fn(&mut Memory)) -> String {
    let mut memory = memory();
    change(&mut memory);
    reconstruct(&memory, &foo(), &layout()).unwrap_err().text
}

#[test]
fn reconstruction_failures_say_why() {
    assert_eq!(failure(|m| m.put_u64(KLASS + 0xd0, 0)), "null cp");
    assert_eq!(failure(|m| m.put_u32(POOL + 0x40, 0)), "cp length");
    assert_eq!(failure(|m| m.put_u32(POOL + 0x40, 65500)), "cp length");
    assert_eq!(failure(|m| m.put_u64(POOL + 0x10, 0)), "null tags");
    assert_eq!(
        failure(|m| m.put(TAGS + 9, &[99])),
        "unsupported constant-pool tag 99 at 5"
    );
    assert_eq!(failure(|m| m.put_u64(POOL + 0x58, 0)), "null symbol");
    assert_eq!(failure(|m| m.put(TAGS + 9, &[7])), "bad utf8 index 7");
    assert_eq!(failure(|m| m.put_u64(KLASS + 0x1a8, 0)), "null fields");
    assert_eq!(failure(|m| m.put_u32(0x5000, 5)), "malformed field table");
    assert_eq!(failure(|m| m.put_u32(0x5100, 65536)), "methods");
    assert_eq!(
        failure(|m| m.put_u16(CONST_METHOD + 0x22, 5)),
        "bad utf8 index 5"
    );
    assert_eq!(
        failure(|m| m.put_u16(CONST_METHOD + 0x20, 0)),
        "concrete method has empty bytecode"
    );
    assert_eq!(
        failure(|m| {
            m.put_u64(CONST_METHOD + 0x10, 0x6100);
            m.put_u32(0x6100, 0x100_0001);
        }),
        "oversized u1 array"
    );
    assert_eq!(
        failure(|m| {
            m.put_u16(CONST_METHOD + 0x1c, 0x10);
            m.put_u32(CONST_METHOD + 0x18, 0);
        }),
        "invalid ConstMethod size"
    );
    assert_eq!(
        failure(|m| {
            m.put_u64(KLASS + 0x188, 0x6000);
            m.put_u32(0x6000, 65536);
        }),
        "interfaces"
    );
    assert_eq!(
        failure(|m| {
            m.put_u64(POOL + 0x28, 0x6200);
            m.put_u32(0x6200, 1);
        }),
        "invalid bootstrap operands"
    );
    assert_eq!(
        failure(|m| {
            m.put_u64(POOL + 0x28, 0x6200);
            m.put_u32(0x6200, 4);
            m.put_u16(0x6204, 3);
        }),
        "invalid bootstrap operand index"
    );
    assert_eq!(
        failure(|m| {
            m.put_u64(POOL + 0x28, 0x6200);
            m.put_u32(0x6200, 3);
            m.put_u16(0x6204, 2);
        }),
        "bootstrap operand out of range"
    );
    assert_eq!(failure(|m| m.put_u64(0x4010, 0x7fff_0000)), "out of range");
}

#[test]
fn abstract_and_native_methods_have_no_code() {
    let mut memory = memory();
    memory.put_u32(0x5228, 0x0401);
    let image = read_image(&memory, &foo(), &layout()).unwrap();
    assert!(image.methods[0].code.is_none());
    assert_eq!(image.methods[0].flags, 0x0401);
    assert!(image.names.code.is_none());
}

#[test]
fn pool_additions_are_shared() {
    let mut pool = vec![Cp::Empty, Cp::Utf8(b"a".to_vec())];
    assert_eq!(add_utf8(&mut pool, b"a".to_vec()).unwrap(), 1);
    assert_eq!(add_utf8(&mut pool, b"b".to_vec()).unwrap(), 2);
    assert_eq!(ensure_class(&mut pool, b"b").unwrap(), 3);
    assert_eq!(ensure_class(&mut pool, b"b").unwrap(), 3);
    assert_eq!(ensure_class(&mut pool, b"c").unwrap(), 5);
    assert_eq!(pool.len(), 6);
    assert_eq!(cp_utf8(&pool, 4).unwrap(), b"c");
    assert_eq!(cp_utf8(&pool, 3).unwrap_err().text, "bad utf8 index 3");
    assert_eq!(cp_utf8(&pool, 9).unwrap_err().text, "bad utf8 index 9");
    let mut full = Vec::new();
    while full.len() < 65535 {
        full.push(Cp::Empty);
    }
    assert_eq!(add_utf8(&mut full, b"a".to_vec()).unwrap_err().text, "cp full");
    full.pop();
    assert_eq!(ensure_class(&mut full, b"a").unwrap_err().text, "cp full");
}

#[test]
fn missing_fields_are_named() {
    let nothing = VmStructTable {
        entries: Vec::new(),
    };
    let types = profile_vmtypes(0x50);
    assert_eq!(
        Layout::new(&nothing, &types).unwrap_err().text,
        "missing InstanceKlass::_constants"
    );
    let layout = layout();
    assert_eq!(layout.klass_name, 0x10);
    assert_eq!(layout.ik_constants, 0xd0);
    assert_eq!(layout.cp_size, 0x50);
    assert_eq!(layout.cm_header_size, 0x30);
    assert_eq!(layout.array_ptr_data, 8);
    assert_eq!(layout.cm_max_locals, 0x2a);
    assert_eq!(layout.ik_minor, 0x10a);
    assert_eq!(layout.ik_major, 0x10c);
}

#[test]
fn class_names_stay_below_the_root() {
    for name in ["a/B", "B", "a/...", "a/.b/c", "a//b", "", "a/"] {
        assert!(name_is_safe(name), "{name}");
    }
    for name in ["/a", "a\\b", ".", "..", "a/..", "../a", "a/./b", "a/../b", "\\"] {
        assert!(!name_is_safe(name), "{name}");
    }
}

fn class(klass: u64, name: &str) -> DiscoveredClass {
    DiscoveredClass {
        klass,
        internal_name: name.to_owned(),
    }
}

#[test]
fn every_class_is_archived_failed_or_a_duplicate() {
    let memory = memory();
    let vm = profile_vmstructs(CORE);
    let types = profile_vmtypes(CORE.cp_size);
    let mut classes = vec![
        class(KLASS, "Foo"),
        class(KLASS, "Foo"),
        class(KLASS, "foo"),
        class(KLASS, "../Foo"),
        class(0x6000, "Broken"),
    ];
    let report = dump_all(&memory, &classes, &vm, &types);
    assert_eq!(report.written, 2);
    assert_eq!(report.duplicates, 1);
    assert_eq!(report.failed, 2);
    assert_eq!(report.failures, ["../Foo: unsafe class name", "Broken: null cp"]);
    assert_eq!(report.archive.len(), 2);
    assert_eq!(report.archive[0].entry, "Foo.class");
    assert_eq!(report.archive[1].entry, "foo.class");
    assert_eq!(
        report.archive[0].bytes,
        reconstruct(&memory, &foo(), &layout()).unwrap()
    );

    while classes.len() < 20 {
        classes.push(class(0x6000, "Broken"));
    }
    let report = dump_all(&memory, &classes, &vm, &types);
    assert_eq!(report.failed, 17);
    assert_eq!(report.failures.len(), 8);
}

#[test]
fn a_class_whose_name_has_no_room_fails_alone() {
    let memory = memory();
    let vm = profile_vmstructs(CORE);
    let types = profile_vmtypes(CORE.cp_size);
    let longest = "n".repeat(65504 - 6);
    let longer = "n".repeat(65505 - 6);
    let classes = vec![class(KLASS, &longer), class(KLASS, &longest), class(KLASS, "Foo")];
    let report = dump_all(&memory, &classes, &vm, &types);
    assert_eq!(report.written, 2);
    assert_eq!(report.failed, 1);
    assert_eq!(report.failures, [format!("{longer}: class name too long")]);
    assert!(make_jar(&report.archive).is_ok());
}

#[test]
fn without_a_layout_every_class_fails() {
    let nothing = VmStructTable {
        entries: Vec::new(),
    };
    let classes = vec![class(KLASS, "Foo"), class(KLASS, "Bar")];
    let report = dump_all(&memory(), &classes, &nothing, &profile_vmtypes(0x50));
    assert_eq!(report.written, 0);
    assert_eq!(report.failed, 2);
    assert_eq!(
        report.failures,
        ["HotSpot layout is missing required VMStructs/VMTypes entries"]
    );
    assert!(report.archive.is_empty());
}

fn file(entry: &str, bytes: &[u8]) -> ClassFile {
    ClassFile {
        entry: entry.to_owned(),
        bytes: bytes.to_vec(),
    }
}

#[test]
fn archives_hold_the_files_that_went_in() {
    let long = vec![7u8; 100_000];
    let files = vec![
        file("a/B.class", &[1, 2, 3]),
        file("a/b.class", &[]),
        file("\u{e9}.class", &long),
    ];
    let jar = make_jar(&files).unwrap();
    let mut archive = zip::ZipArchive::new(std::io::Cursor::new(jar)).unwrap();
    assert_eq!(archive.len(), 3);
    for (index, expected) in files.iter().enumerate() {
        let mut entry = archive.by_index(index).unwrap();
        assert_eq!(entry.name().unwrap().to_string(), expected.entry);
        assert!(entry.compression() == zip::CompressionMethod::Deflated);
        let mut bytes = Vec::new();
        entry.read_to_end(&mut bytes).unwrap();
        assert_eq!(bytes, expected.bytes);
    }
    let jar = make_jar(&Vec::new()).unwrap();
    assert_eq!(zip::ZipArchive::new(std::io::Cursor::new(jar)).unwrap().len(), 0);
}

#[test]
fn archives_refuse_two_files_of_one_name() {
    let files = vec![file("a.class", &[1]), file("a.class", &[2])];
    assert!(make_jar(&files).is_err());
}

#[test]
fn archives_refuse_names_that_do_not_fit_a_header() {
    let longest = "n".repeat(65504);
    assert!(make_jar(&vec![file(&longest, &[1])]).is_ok());
    let longer = "n".repeat(65505);
    assert!(make_jar(&vec![file(&longer, &[1])]).is_err());
}
