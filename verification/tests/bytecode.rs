use jvm_ext_dumper::hotspot::reconstruct::bytecode::restore_bytecodes;
use jvm_ext_dumper::hotspot::reconstruct::Layout;
use jvm_ext_dumper::platform::RemoteMemory;
use jvm_ext_dumper::text::Error;

struct Memory(Vec<u8>);

impl RemoteMemory for Memory {
    fn read_exact(&self, address: u64, destination: &mut [u8]) -> Result<(), Error> {
        let start = address as usize;
        let end = start + destination.len();
        match self.0.get(start..end) {
            Some(bytes) => {
                destination.copy_from_slice(bytes);
                Ok(())
            }
            None => Err(Error::new("test memory OOB")),
        }
    }
}

impl Memory {
    fn put(&mut self, at: usize, bytes: &[u8]) {
        self.0[at..at + bytes.len()].copy_from_slice(bytes);
    }
}

/// A pool at 16 whose cache, at 64, has two entries, and whose reference map, at 160, has three.
fn linked() -> (Memory, Layout) {
    let mut memory = Memory(vec![0; 256]);
    let layout = Layout {
        cp_cache: 8,
        cp_reference_map: 16,
        cache_header_size: 16,
        cache_entry_size: 32,
        ..Layout::default()
    };
    memory.put(24, &64u64.to_le_bytes());
    memory.put(32, &160u64.to_le_bytes());
    memory.put(64, &2u32.to_le_bytes());
    memory.put(80, &0xab_0203u64.to_le_bytes());
    memory.put(112, &0x0405u64.to_le_bytes());
    memory.put(160, &3u32.to_le_bytes());
    memory.put(164, &[0x11, 0x01, 0x22, 0x00, 0x33, 0x03]);
    (memory, layout)
}

fn restored(code: &[u8]) -> Result<Vec<u8>, String> {
    let (memory, layout) = linked();
    let mut code = code.to_vec();
    match restore_bytecodes(&memory, 16, &layout, &mut code) {
        Ok(()) => Ok(code),
        Err(error) => Err(error.text),
    }
}

fn unlinked(code: &[u8]) -> Result<Vec<u8>, String> {
    let memory = Memory(vec![0; 64]);
    let layout = Layout {
        cp_cache: 8,
        ..Layout::default()
    };
    let mut code = code.to_vec();
    match restore_bytecodes(&memory, 16, &layout, &mut code) {
        Ok(()) => Ok(code),
        Err(error) => Err(error.text),
    }
}

#[test]
fn unrewritten_member_reference_keeps_classfile_cp_index() {
    let memory = Memory(vec![0; 64]);
    let layout = Layout {
        cp_cache: 8,
        ..Layout::default()
    };
    let mut code = vec![180, 0x12, 0x34, 177];

    restore_bytecodes(&memory, 16, &layout, &mut code).unwrap();

    assert_eq!(code, [180, 0x12, 0x34, 177]);
}

#[test]
fn unrewritten_invokedynamic_keeps_cp_index_and_reserved_bytes() {
    let memory = Memory(vec![0; 64]);
    let layout = Layout {
        cp_cache: 8,
        ..Layout::default()
    };
    let mut code = vec![186, 0x00, 0x2a, 0, 0, 177];

    restore_bytecodes(&memory, 16, &layout, &mut code).unwrap();

    assert_eq!(code, [186, 0x00, 0x2a, 0, 0, 177]);
}

#[test]
fn rewritten_members_get_their_pool_index_back() {
    assert_eq!(restored(&[180, 0, 0, 177]).unwrap(), [180, 0x02, 0x03, 177]);
    assert_eq!(restored(&[182, 1, 0]).unwrap(), [182, 0x04, 0x05]);
    assert_eq!(restored(&[185, 1, 0, 1, 0]).unwrap(), [185, 0x04, 0x05, 1, 0]);
}

#[test]
fn rewritten_invokedynamic_takes_a_plain_or_an_inverted_index() {
    assert_eq!(restored(&[186, 1, 0, 0, 0]).unwrap(), [186, 0x04, 0x05, 0, 0]);
    assert_eq!(restored(&[186, 0xff, 0xff, 0xff, 0xff]).unwrap(), [186, 0x02, 0x03, 0, 0]);
    assert_eq!(restored(&[186, 0xfe, 0xff, 0xff, 0xff]).unwrap(), [186, 0x04, 0x05, 0, 0]);
}

#[test]
fn fast_bytecodes_become_standard_ones() {
    assert_eq!(restored(&[203, 0, 0]).unwrap(), [180, 0x02, 0x03]);
    assert_eq!(restored(&[219, 1, 0]).unwrap(), [181, 0x04, 0x05]);
    assert_eq!(restored(&[220]).unwrap(), [42]);
    assert_eq!(restored(&[222, 207, 1, 0]).unwrap(), [42, 180, 0x04, 0x05]);
    assert_eq!(restored(&[224, 5]).unwrap(), [21, 5]);
    assert_eq!(restored(&[225, 5, 21, 6]).unwrap(), [21, 5, 21, 6]);
    assert_eq!(restored(&[226, 5, 0]).unwrap(), [21, 5, 52]);
    assert_eq!(restored(&[227, 0, 0]).unwrap(), [182, 0x02, 0x03]);
    assert_eq!(restored(&[232]).unwrap(), [177]);
    assert_eq!(restored(&[233, 1, 0]).unwrap(), [182, 0x04, 0x05]);
}

#[test]
fn fast_loads_go_through_the_reference_map() {
    assert_eq!(restored(&[230, 1]).unwrap(), [18, 0x22]);
    assert_eq!(restored(&[231, 2, 0]).unwrap(), [19, 0x03, 0x33]);
    assert_eq!(restored(&[230, 3]).unwrap_err(), "reference-map index out of range");
}

#[test]
fn fast_switches_become_lookup_switches() {
    let mut code = vec![228, 0, 0, 0];
    code.extend([0, 0, 0, 20]);
    code.extend([0, 0, 0, 1]);
    code.extend([0, 0, 0, 7, 0, 0, 0, 21]);
    code.push(177);
    let mut expected = code.clone();
    expected[0] = 171;
    assert_eq!(restored(&code).unwrap(), expected);
}

#[test]
fn restored_code_keeps_its_length_and_has_standard_opcodes() {
    let code = [203, 0, 0, 220, 230, 0, 196, 21, 1, 0, 232];
    let out = restored(&code).unwrap();
    assert_eq!(out, [180, 0x02, 0x03, 42, 18, 0x11, 196, 21, 1, 0, 177]);
    assert_eq!(out.len(), code.len());
}

#[test]
fn unlinked_code_is_returned_as_it_is() {
    let code = [178, 1, 2, 18, 9, 19, 1, 2, 186, 0, 1, 0, 0, 177];
    assert_eq!(unlinked(&code).unwrap(), code);
}

#[test]
fn bytecode_failures_say_what_and_where() {
    assert_eq!(
        restored(&[180, 2, 0]).unwrap_err(),
        "constant-pool cache index 2 >= 2"
    );
    assert_eq!(restored(&[0, 180, 0]).unwrap_err(), "truncated bytecode at bci 1");
    assert_eq!(restored(&[202]).unwrap_err(), "active breakpoint at bci 0");
    assert!(restored(&[234]).is_err());
    assert_eq!(
        unlinked(&[0, 203, 0, 0]).unwrap_err(),
        "HotSpot fast bytecode 203 without ConstantPoolCache at bci 1"
    );
    assert_eq!(
        unlinked(&[186, 0, 1, 1, 0]).unwrap_err(),
        "unrewritten invokedynamic has non-zero reserved bytes at bci 0"
    );
}
