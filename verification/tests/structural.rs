use jvm_ext_dumper::hotspot::structural::layout::{read_symbol, valid_symbol_at};
use jvm_ext_dumper::hotspot::structural::scan::{scan_symbols, scan_u64};
use jvm_ext_dumper::hotspot::structural::{discover, valid_internal_name};
use jvm_ext_dumper::platform::{MemoryRegion, RemoteMemory};
use jvm_ext_dumper::search::find_subslices;
use jvm_ext_dumper::text::Error;

/// Memory from `base` on, of which some pages cannot be read.
struct Memory {
    base: u64,
    bytes: Vec<u8>,
    gaps: Vec<u64>,
}

impl Memory {
    fn new(base: u64, size: usize) -> Memory {
        Memory {
            base,
            bytes: vec![0; size],
            gaps: Vec::new(),
        }
    }

    fn put(&mut self, at: u64, bytes: &[u8]) {
        let start = (at - self.base) as usize;
        self.bytes[start..start + bytes.len()].copy_from_slice(bytes);
    }

    fn put_u16(&mut self, at: u64, value: u16) {
        self.put(at, &value.to_le_bytes());
    }

    fn put_u32(&mut self, at: u64, value: u32) {
        self.put(at, &value.to_le_bytes());
    }

    fn put_u64(&mut self, at: u64, value: u64) {
        self.put(at, &value.to_le_bytes());
    }

    fn put_symbol(&mut self, at: u64, text: &str) {
        self.put_u16(at, text.len() as u16);
        self.put(at + 8, text.as_bytes());
    }

    fn region(&self) -> Vec<MemoryRegion> {
        vec![MemoryRegion {
            base: self.base,
            size: self.bytes.len(),
        }]
    }
}

impl RemoteMemory for Memory {
    fn read_exact(&self, address: u64, destination: &mut [u8]) -> Result<(), Error> {
        let end = match address.checked_add(destination.len() as u64) {
            Some(end) => end,
            None => return Err(Error::new("out of range")),
        };
        if address < self.base || end > self.base + self.bytes.len() as u64 {
            return Err(Error::new("out of range"));
        }
        if self.gaps.iter().any(|gap| *gap < end && address < *gap + 0x1000) {
            return Err(Error::new("gap"));
        }
        let start = (address - self.base) as usize;
        destination.copy_from_slice(&self.bytes[start..start + destination.len()]);
        Ok(())
    }
}

#[test]
fn internal_name_filter_rejects_arrays_and_controls() {
    assert!(valid_internal_name("java/lang/Object"));
    assert!(!valid_internal_name("[Ljava/lang/Object;"));
    assert!(!valid_internal_name("bad\nname"));
}

#[test]
fn internal_names_are_short_and_not_empty() {
    assert!(!valid_internal_name(""));
    assert!(!valid_internal_name("a b"));
    assert!(valid_internal_name(&"x".repeat(4096)));
    assert!(!valid_internal_name(&"x".repeat(4097)));
    assert!(valid_internal_name("\u{e9}"));
}

#[test]
fn substring_scanner_reports_overlapping_hits() {
    assert_eq!(find_subslices(b"aaaa", b"aa"), [0, 1, 2]);
}

#[test]
fn substring_scanner_needs_the_whole_pattern() {
    assert_eq!(find_subslices(b"abcab", b"abc"), [0]);
    assert_eq!(find_subslices(b"ab", b"abc"), []);
    assert_eq!(find_subslices(b"", b"a"), []);
}

#[test]
fn symbols_are_recognized() {
    let mut memory = Memory::new(0x1000, 0x100);
    memory.put_symbol(0x1010, "Foo");
    assert!(valid_symbol_at(&memory, 0x1010, Some(b"Foo")));
    assert!(valid_symbol_at(&memory, 0x1010, None));
    assert!(!valid_symbol_at(&memory, 0x1010, Some(b"Fop")));
    assert!(!valid_symbol_at(&memory, 0, None));
    assert!(!valid_symbol_at(&memory, 0x1080, None));
    assert_eq!(read_symbol(&memory, 0x1010).unwrap(), "Foo");
    assert_eq!(read_symbol(&memory, 0x1080).unwrap_err().text, "invalid Symbol length");
    memory.put(0x1018, &[0xff, 0xfe, 0x41]);
    let complaint = String::from_utf8(vec![0xff, 0xfe, 0x41]).unwrap_err();
    assert_eq!(
        read_symbol(&memory, 0x1010).unwrap_err().text,
        format!("class name Symbol is not UTF-8: {complaint}")
    );
}

#[test]
fn symbols_are_found_once_aligned_and_up_to_the_limit() {
    let mut memory = Memory::new(0x10000, 0x4000);
    memory.put_symbol(0x10100, "needle");
    memory.put_symbol(0x10204, "needle");
    memory.put_symbol(0x10300, "needle");
    memory.put_symbol(0x10400, "needles");
    memory.put_symbol(0x10500, "needle");
    let regions = memory.region();
    let found = scan_symbols(&memory, &regions, b"needle", 10).unwrap();
    assert_eq!(found, [0x10100, 0x10300, 0x10500]);
    let found = scan_symbols(&memory, &regions, b"needle", 2).unwrap();
    assert_eq!(found, [0x10100, 0x10300]);
    assert_eq!(scan_symbols(&memory, &regions, b"needle", 0).unwrap(), []);
    assert_eq!(
        scan_symbols(&memory, &regions, b"", 1).unwrap_err().text,
        "empty scan pattern"
    );
    let twice = vec![regions[0], regions[0]];
    let found = scan_symbols(&memory, &twice, b"needle", 10).unwrap();
    assert_eq!(found, [0x10100, 0x10300, 0x10500]);
}

#[test]
fn symbols_across_pages_and_chunks_are_found() {
    let chunk = 0x40_0000u64;
    let mut memory = Memory::new(0x10000, 0x40_3000);
    memory.put_symbol(0x10000 + 0x0ff0, "crosspage");
    memory.put_symbol(0x10000 + chunk - 16, "crosschunk");
    let regions = memory.region();
    assert_eq!(
        scan_symbols(&memory, &regions, b"crosspage", 4).unwrap(),
        [0x10ff0]
    );
    assert_eq!(
        scan_symbols(&memory, &regions, b"crosschunk", 4).unwrap(),
        [0x10000 + chunk - 16]
    );
    // With a gap elsewhere the pages are read one by one.
    memory.gaps.push(0x14000);
    assert_eq!(
        scan_symbols(&memory, &regions, b"crosspage", 4).unwrap(),
        [0x10ff0]
    );
    // A symbol that reaches into the gap is not one.
    memory.put_symbol(0x10000 + 0x3ff0, "crosspage");
    assert_eq!(
        scan_symbols(&memory, &regions, b"crosspage", 4).unwrap(),
        [0x10ff0]
    );
}

#[test]
fn words_are_found_at_aligned_addresses_around_gaps() {
    let mut memory = Memory::new(0x20000, 0x5000);
    let wanted = 0x1122_3344_5566_7788u64;
    memory.put_u64(0x20008, wanted);
    memory.put_u64(0x20104, wanted);
    memory.put_u64(0x22ff8, wanted);
    memory.put_u64(0x24ff8, wanted);
    let regions = memory.region();
    assert_eq!(
        scan_u64(&memory, &regions, wanted, 9),
        [0x20008, 0x22ff8, 0x24ff8]
    );
    assert_eq!(scan_u64(&memory, &regions, wanted, 2), [0x20008, 0x22ff8]);
    assert_eq!(scan_u64(&memory, &regions, wanted, 0), []);
    memory.gaps.push(0x22000);
    assert_eq!(scan_u64(&memory, &regions, wanted, 9), [0x20008, 0x24ff8]);
    let odd = vec![MemoryRegion {
        base: 0x20001,
        size: 0x100,
    }];
    assert_eq!(scan_u64(&memory, &odd, wanted, 9), [0x20008]);
}

const JVM: u64 = 0x10_0000;
const HEAP: u64 = 0x20_0000;

/// A class with its pool, recognizable by shape.
fn put_class(memory: &mut Memory, klass: u64, pool: u64, name: u64, parent: u64) {
    memory.put_u64(klass, JVM + 0x100);
    memory.put_u64(klass + 0x10, name);
    memory.put_u64(klass + 0x78, parent);
    memory.put_u32(klass + 0xa4, 0x21);
    memory.put_u64(klass + 0xd0, pool);
    memory.put_u16(klass + 0x10c, 52);
    let tags = pool + 0x200;
    memory.put_u64(pool, JVM + 0x200);
    memory.put_u64(pool + 8, tags);
    memory.put_u64(pool + 0x20, klass);
    memory.put_u32(pool + 0x40, 6);
    memory.put_u32(tags, 6);
    memory.put(tags + 4, &[0, 1, 1, 1, 1, 1]);
    for slot in 1..6u64 {
        memory.put_u64(pool + 0x50 + slot * 8, name);
    }
}

fn java_heap() -> Memory {
    let mut memory = Memory::new(HEAP, 0x1_0000);
    let names = [
        "java/lang/Object",
        "java/lang/String",
        "java/lang/Class",
        "java/lang/System",
    ];
    for (index, name) in names.iter().enumerate() {
        let index = index as u64;
        let klass = HEAP + 0x1000 + index * 0x800;
        let parent = if index == 0 { 0 } else { HEAP + 0x1000 };
        memory.put_symbol(HEAP + 0x100 + index * 0x40, name);
        put_class(
            &mut memory,
            klass,
            HEAP + 0x8000 + index * 0x800,
            HEAP + 0x100 + index * 0x40,
            parent,
        );
    }
    memory
}

#[test]
fn classes_are_discovered_by_shape() {
    let memory = java_heap();
    let found = discover(&memory, &memory.region(), JVM, 0x1000, &mut Vec::new()).unwrap();
    let names: Vec<&str> = found
        .classes
        .iter()
        .map(|class| class.internal_name.as_str())
        .collect();
    assert_eq!(
        names,
        [
            "java/lang/Class",
            "java/lang/Object",
            "java/lang/String",
            "java/lang/System"
        ]
    );
    assert_eq!(found.object_symbol, HEAP + 0x100);
    assert_eq!(found.object_klass, HEAP + 0x1000);
    assert_eq!(found.constant_pool_vtable, JVM + 0x200);
    assert_eq!(found.constant_pool_size, 0x50);
    assert_eq!(found.scanned_bytes, 0x1_0000);
    assert_eq!(found.structs.find("Klass", "_name").unwrap().offset, 0x10);
    assert_eq!(found.structs.find("ConstantPool", "_tags").unwrap().offset, 8);
    assert_eq!(found.structs.find("ConstantPool", "_length").unwrap().offset, 0x40);
    assert_eq!(found.types.size("ConstantPool").unwrap(), 0x50);
    assert_eq!(found.types.size("ConstMethod").unwrap(), 0x30);
}

#[test]
fn discovery_by_shape_says_why_it_fails() {
    let fails = |memory: &Memory, regions: &Vec<MemoryRegion>, base: u64| -> String {
        match discover(memory, regions, base, 0x1000, &mut Vec::new()) {
            Ok(_) => panic!("discovered"),
            Err(error) => error.text,
        }
    };
    let mut memory = java_heap();
    let regions = memory.region();
    assert_eq!(
        fails(&memory, &Vec::new(), JVM),
        "the target has no readable committed memory regions"
    );
    assert_eq!(
        fails(&memory, &regions, u64::MAX - 1),
        "jvm.dll address overflow"
    );
    assert_eq!(
        fails(&memory, &regions, 0x5000_0000),
        "could not connect java/lang/Object Symbol to an InstanceKlass/ConstantPool graph (klass-vtable candidates=0, CP graphs=0)"
    );
    memory.put_u16(HEAP + 0x2800 + 0x10c - 0x800, 51);
    assert_eq!(
        fails(&memory, &regions, JVM),
        "java/lang/Class is not a Java 8 class at inferred version offsets"
    );
    let mut memory = java_heap();
    memory.put_u64(HEAP + 0x1800 + 0x78, 0);
    assert_eq!(
        fails(&memory, &regions, JVM),
        "java/lang/String does not have java/lang/Object at inferred Klass::_super"
    );
    let mut memory = java_heap();
    memory.put_u64(HEAP + 0x2800 + 0x10, 0);
    assert_eq!(
        fails(&memory, &regions, JVM),
        "structural validation did not find java/lang/System"
    );
    let mut memory = java_heap();
    memory.put_u16(HEAP + 0x100, 0);
    assert_eq!(
        fails(&memory, &regions, JVM),
        "java/lang/Object was found, but no occurrence has a valid JDK 8 Symbol header"
    );
}
