//! Where the fields of HotSpot's structures lie in x64 builds of JDK 8.
use vstd::prelude::*;

verus! {

pub const KLASS_SUPER: u64 = 0x78;

pub const KLASS_ACCESS_FLAGS: u64 = 0xa4;

pub const IK_GENERIC_SIGNATURE_INDEX: u64 = 0xf8;

pub const IK_JAVA_FIELDS_COUNT: u64 = 0xfe;

pub const IK_MINOR_VERSION: u64 = 0x10a;

pub const IK_MAJOR_VERSION: u64 = 0x10c;

pub const IK_METHODS: u64 = 0x178;

pub const IK_LOCAL_INTERFACES: u64 = 0x188;

pub const IK_FIELDS: u64 = 0x1a8;

pub const CP_CACHE: u64 = 0x18;

pub const CP_OPERANDS: u64 = 0x28;

pub const CP_REFERENCE_MAP: u64 = 0x38;

pub const METHOD_CONST_METHOD: u64 = 0x08;

pub const METHOD_ACCESS_FLAGS: u64 = 0x28;

pub const CONST_METHOD_CONSTANT_POOL: u64 = 0x08;

pub const CONST_METHOD_STACKMAP_DATA: u64 = 0x10;

pub const CONST_METHOD_SIZE: u64 = 0x18;

pub const CONST_METHOD_FLAGS: u64 = 0x1c;

pub const CONST_METHOD_CODE_SIZE: u64 = 0x20;

pub const CONST_METHOD_NAME_INDEX: u64 = 0x22;

pub const CONST_METHOD_SIGNATURE_INDEX: u64 = 0x24;

pub const CONST_METHOD_MAX_STACK: u64 = 0x28;

pub const CONST_METHOD_MAX_LOCALS: u64 = 0x2a;

} // verus!
