use std::io::Read;

use jvm_ext_dumper::hotspot::dictionary::DiscoveredClass;
use jvm_ext_dumper::hotspot::discovery::{DiscoveryReport, StructuralAnchors, ANCHOR_CLASSES};
use jvm_ext_dumper::hotspot::inspect;
use jvm_ext_dumper::platform::{MemoryRegion, ModuleInfo, RemoteMemory};
use jvm_ext_dumper::report::{describe_discovery, describe_results, Note};
use jvm_ext_dumper::text::{short_hex_text, Error};

const JVM: u64 = 0x10_0000;
const JVM_SIZE: usize = 0x1000;
const HEAP: u64 = JVM + JVM_SIZE as u64;
const SIZE: usize = 0x1_0000;

/// The module `jvm.dll`, which describes nothing, and the memory behind it.
struct Memory(Vec<u8>);

impl Memory {
    fn put(&mut self, at: u64, bytes: &[u8]) {
        let start = (at - JVM) as usize;
        self.0[start..start + bytes.len()].copy_from_slice(bytes);
    }

    fn put_u16(&mut self, at: u64, value: u16) {
        self.put(at, &value.to_le_bytes());
    }

    fn put_u32(&mut self, at: u64, value: u32) {
        self.put(at, &value.to_le_bytes());
    }

    fn put_u64(&mut self, at: u64, value: u64) {
        self.put(at, &value.to_le_bytes());
    }

    fn put_symbol(&mut self, at: u64, text: &str) {
        self.put_u16(at, text.len() as u16);
        self.put(at + 8, text.as_bytes());
    }

    /// A class without members, whose pool has its name in every slot.
    fn put_class(&mut self, klass: u64, pool: u64, name: u64, parent: u64) {
        let nothing = HEAP + 0x80;
        self.put_u64(klass, JVM + 0x100);
        self.put_u64(klass + 0x10, name);
        self.put_u64(klass + 0x78, parent);
        self.put_u32(klass + 0xa4, 0x21);
        self.put_u64(klass + 0xd0, pool);
        self.put_u16(klass + 0x10c, 52);
        self.put_u64(klass + 0x178, nothing);
        self.put_u64(klass + 0x188, nothing);
        self.put_u64(klass + 0x1a8, nothing);
        let tags = pool + 0x200;
        self.put_u64(pool, JVM + 0x200);
        self.put_u64(pool + 8, tags);
        self.put_u64(pool + 0x20, klass);
        self.put_u32(pool + 0x40, 6);
        self.put_u32(tags, 6);
        self.put(tags + 4, &[0, 1, 1, 1, 1, 1]);
        for slot in 1..6u64 {
            self.put_u64(pool + 0x50 + slot * 8, name);
        }
    }
}

impl RemoteMemory for Memory {
    fn read_exact(&self, address: u64, destination: &mut [u8]) -> Result<(), Error> {
        let length = destination.len() as u64;
        let inside = address >= JVM
            && address
                .checked_add(length)
                .map_or(false, |end| end <= JVM + self.0.len() as u64);
        if !inside {
            return Err(Error::new("out of range"));
        }
        let start = (address - JVM) as usize;
        destination.copy_from_slice(&self.0[start..start + destination.len()]);
        Ok(())
    }
}

const NAMES: [&str; 5] = [
    "java/lang/Object",
    "java/lang/String",
    "java/lang/Class",
    "java/lang/System",
    "java/lang/Object",
];

fn klass(index: u64) -> u64 {
    HEAP + 0x1000 + index * 0x800
}

fn pool(index: u64) -> u64 {
    HEAP + 0x8000 + index * 0x800
}

/// The classes that every target has, and another `java/lang/Object` that fits less well.
fn memory() -> Memory {
    let mut memory = Memory(vec![0; JVM_SIZE + SIZE]);
    memory.put_u16(JVM, 0x5a4d);
    memory.put_u32(JVM + 0x3c, 0x80);
    memory.put_u32(JVM + 0x80, 0x4550);
    memory.put_u16(JVM + 0x98, 0x20b);
    memory.put_u32(JVM + 0x98 + 112, 0x200);
    for (index, name) in NAMES.iter().enumerate() {
        let index = index as u64;
        let symbol = HEAP + 0x100 + index * 0x40;
        let parent = if index == 0 { 0 } else { klass(0) };
        memory.put_symbol(symbol, name);
        memory.put_class(klass(index), pool(index), symbol, parent);
    }
    memory
}

fn modules() -> Vec<ModuleInfo> {
    vec![ModuleInfo {
        name: "jvm.dll".to_owned(),
        base: JVM,
        size: JVM_SIZE,
    }]
}

fn regions() -> Result<Vec<MemoryRegion>, Error> {
    Ok(vec![MemoryRegion {
        base: HEAP,
        size: SIZE,
    }])
}

fn utf8(text: &str) -> Vec<u8> {
    let mut bytes = vec![1];
    bytes.extend((text.len() as u16).to_be_bytes());
    bytes.extend(text.as_bytes());
    bytes
}

#[test]
fn a_target_found_by_shape_is_archived() {
    let inspection = inspect(&memory(), 7, &modules(), regions(), &mut Vec::new()).unwrap();
    let report = inspection.report;
    assert_eq!(
        report.layout_source,
        "validated x64 HotSpot 8 structural profile"
    );
    let found: Vec<(u64, &str)> = report
        .classes
        .iter()
        .map(|class| (class.klass, class.internal_name.as_str()))
        .collect();
    assert_eq!(found.len(), 5);
    assert_eq!(found[0], (klass(2), "java/lang/Class"));
    assert_eq!(found[1].1, "java/lang/Object");
    assert_eq!(found[2].1, "java/lang/Object");
    assert_eq!(found[1].0 + found[2].0, klass(0) + klass(4));
    assert_eq!(found[3], (klass(1), "java/lang/String"));
    assert_eq!(found[4], (klass(3), "java/lang/System"));
    assert_eq!(report.classfile_failures, Vec::<String>::new());
    assert_eq!(report.classfiles_written, 4);
    assert_eq!(report.classfiles_failed, 0);
    assert_eq!(report.archive_duplicates, 1);
    assert_eq!(report.scanned_bytes, Some(SIZE as u64));

    let jar = inspection.jar.unwrap();
    let mut archive = zip::ZipArchive::new(std::io::Cursor::new(jar)).unwrap();
    assert_eq!(archive.len(), 4);
    let mut expected = vec![0xca, 0xfe, 0xba, 0xbe, 0, 0, 0, 52, 0, 9];
    for _ in 0..5 {
        expected.extend(utf8("java/lang/System"));
    }
    expected.extend([7, 0, 1]);
    expected.extend(utf8("java/lang/Object"));
    expected.extend([7, 0, 7]);
    expected.extend([0, 0x21, 0, 6, 0, 8, 0, 0, 0, 0, 0, 0, 0, 0]);
    let mut entry = archive.by_name("java/lang/System.class").unwrap();
    let mut bytes = Vec::new();
    entry.read_to_end(&mut bytes).unwrap();
    assert_eq!(bytes, expected);
}

#[test]
fn a_search_by_shape_is_told_of() {
    let mut notes = Vec::new();
    inspect(&memory(), 7, &modules(), regions(), &mut notes).unwrap();
    let told = lines(notes);
    assert_eq!(told.len(), 7);
    assert_eq!(
        told[..4],
        [
            info("stripped HotSpot fallback: scanning 1 readable regions (0 MiB)"),
            info("structural anchors: 2 valid java/lang/Object Symbol candidates"),
            info("Object Symbol candidate 0x0000000000101100: 6 aligned references"),
            info("Object Symbol candidate 0x0000000000101200: 6 aligned references"),
        ]
    );
    assert_eq!(
        told[4],
        info("structural candidates: klass-vtable=12 self-consistent CP graphs=2")
    );
    assert_eq!(
        told[5..],
        [
            info("structural layout: Symbol=0x0000000000101100 InstanceKlass=0x0000000000102000 name=0x10 constants=0xd0 CP.tags=0x8 CP.size=0x50 profile-score=5/7"),
            info("structural ConstantPool traversal: 5 validated classes"),
        ]
    );
}

#[test]
fn a_search_that_fails_is_told_of_as_far_as_it_came() {
    let mut memory = memory();
    memory.put_u16(klass(2) + 0x10c, 51);
    let mut notes = vec![Note::Info("before".to_owned())];
    let failure = match inspect(&memory, 7, &modules(), regions(), &mut notes) {
        Ok(_) => panic!("inspected"),
        Err(error) => error.text,
    };
    assert!(failure.ends_with("java/lang/Class is not a Java 8 class at inferred version offsets"));
    let told = lines(notes);
    assert_eq!(told.len(), 7);
    assert_eq!(told[0], info("before"));
    assert!(told[6].1.starts_with("structural layout: "));

    let mut notes = Vec::new();
    let nothing = vec![MemoryRegion {
        base: HEAP + 0x8000,
        size: 0x1000,
    }];
    assert!(inspect(&memory, 7, &modules(), Ok(nothing), &mut notes).is_err());
    assert_eq!(
        lines(notes),
        [info("stripped HotSpot fallback: scanning 1 readable regions (0 MiB)")]
    );
}

#[test]
fn the_best_candidate_is_the_anchor() {
    let mut memory = memory();
    // Swapped, so that the one that fits less well comes first.
    memory.put_u64(klass(0) + 0x78, klass(4));
    memory.put_u64(klass(4) + 0x78, 0);
    for index in 1..4 {
        memory.put_u64(klass(index) + 0x78, klass(0));
    }
    let report = inspect(&memory, 7, &modules(), regions(), &mut Vec::new()).unwrap().report;
    assert_eq!(
        report.structural_anchors,
        Some(StructuralAnchors {
            object_symbol: HEAP + 0x100 + 4 * 0x40,
            object_klass: klass(4),
            constant_pool_vtable: JVM + 0x200,
            constant_pool_size: 0x50,
        })
    );
}

#[test]
fn a_class_with_two_pools_is_found_once() {
    let mut memory = memory();
    // Another pool that says it is that of `java/lang/String`.
    memory.put_u64(pool(5), JVM + 0x200);
    memory.put_u64(pool(5) + 0x20, klass(1));
    let report = inspect(&memory, 7, &modules(), regions(), &mut Vec::new()).unwrap().report;
    assert_eq!(report.classes.len(), 5);
}

fn report() -> DiscoveryReport {
    DiscoveryReport {
        jvm_module_base: 0x1234,
        jvm_module_size: 3 * 1024 + 5,
        anchors: ANCHOR_CLASSES,
        next_step: "rest",
        vmstruct_count: 12,
        layout_source: "tables".to_owned(),
        scanned_bytes: None,
        structural_anchors: None,
        system_dictionary_storage: Some(0x10),
        system_dictionary: Some(0x20),
        classes: vec![DiscoveredClass {
            klass: 1,
            internal_name: "A".to_owned(),
        }],
        classfiles_written: 1,
        classfiles_failed: 2,
        classfile_failures: vec!["B: null cp".to_owned()],
        archive_duplicates: 0,
        archive: Vec::new(),
    }
}

fn lines(notes: Vec<Note>) -> Vec<(&'static str, String)> {
    notes
        .into_iter()
        .map(|note| match note {
            Note::Info(line) => ("info", line),
            Note::Warning(line) => ("warning", line),
        })
        .collect()
}

fn info(line: &str) -> (&'static str, String) {
    ("info", line.to_owned())
}

fn warning(line: &str) -> (&'static str, String) {
    ("warning", line.to_owned())
}

#[test]
fn discoveries_are_described() {
    let mut report = report();
    assert_eq!(
        lines(describe_discovery(&report)),
        [
            info("HotSpot module: base=0x0000000000001234, size=3 KiB"),
            info("bootstrap anchors: java/lang/Object, java/lang/Class, java/lang/String, java/lang/Short"),
            info("VMStructs: 12 entries"),
            info("layout source: tables"),
            info("SystemDictionary::_dictionary: storage=0x0000000000000010 value=0x0000000000000020"),
        ]
    );
    report.system_dictionary = None;
    report.scanned_bytes = Some(5 * 1024 * 1024 + 1);
    report.structural_anchors = Some(StructuralAnchors {
        object_symbol: 1,
        object_klass: 2,
        constant_pool_vtable: 3,
        constant_pool_size: 0x50,
    });
    assert_eq!(
        lines(describe_discovery(&report))[4..],
        [
            info("structural scan: 5 MiB readable memory"),
            info("anchors: Object Symbol=0x0000000000000001 Klass=0x0000000000000002 CP.vtable=0x0000000000000003 CP.size=0x50"),
            info("class source: validated ConstantPool -> InstanceKlass graph"),
        ]
    );
}

#[test]
fn results_are_described() {
    let mut report = report();
    assert_eq!(
        lines(describe_results(&report, "out/classes.jar", "out")),
        [
            info("discovered classes: 1 (index written to classes.txt)"),
            info("classfiles: archived=1 failed=2"),
            warning("classfile skipped: B: null cp"),
            info("JAR written to out/classes.jar (1 case-sensitive entries, 0 exact-name duplicates skipped)"),
            info("next: rest"),
            info("output=out"),
            info("external metadata traversal completed"),
        ]
    );
    report.archive_duplicates = 3;
    assert_eq!(
        lines(describe_results(&report, "out/classes.jar", "out"))[3..5],
        [
            info("JAR written to out/classes.jar (1 case-sensitive entries, 3 exact-name duplicates skipped)"),
            warning("exact-name duplicates from different class loaders skipped: 3"),
        ]
    );
}

#[test]
fn short_numbers_have_no_leading_zeros() {
    assert_eq!(short_hex_text(0), "0");
    assert_eq!(short_hex_text(0x50), "50");
    assert_eq!(short_hex_text(u64::MAX), "ffffffffffffffff");
}
