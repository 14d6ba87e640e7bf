//! The profile is complete: it gives a layout, whatever was told from memory.
use vstd::prelude::*;

use super::layout::{profile_entries, profile_sizes, CoreLayout};
use super::offsets::{
    CONST_METHOD_CODE_SIZE, CONST_METHOD_FLAGS, CONST_METHOD_MAX_LOCALS, CONST_METHOD_MAX_STACK,
    CONST_METHOD_NAME_INDEX, CONST_METHOD_SIGNATURE_INDEX, CONST_METHOD_SIZE,
    CONST_METHOD_STACKMAP_DATA, CP_CACHE, CP_OPERANDS, CP_REFERENCE_MAP, IK_FIELDS,
    IK_GENERIC_SIGNATURE_INDEX, IK_JAVA_FIELDS_COUNT, IK_LOCAL_INTERFACES, IK_MAJOR_VERSION,
    IK_METHODS, IK_MINOR_VERSION, KLASS_ACCESS_FLAGS, KLASS_SUPER, METHOD_ACCESS_FLAGS,
    METHOD_CONST_METHOD,
};
use crate::hotspot::reconstruct::{layout_of, offset_of, Layout};
use crate::hotspot::vmstructs::{first_entry, EntryView};
use crate::hotspot::vmtypes::size_of_type;

verus! {

/// The layout of the profile: the offsets that were told from memory, and those of JDK 8.
pub open spec fn profile_layout(core: CoreLayout) -> Layout {
    Layout {
        ik_constants: core.ik_constants,
        ik_fields: IK_FIELDS,
        ik_field_count: IK_JAVA_FIELDS_COUNT,
        ik_methods: IK_METHODS,
        ik_interfaces: IK_LOCAL_INTERFACES,
        ik_major: IK_MAJOR_VERSION,
        ik_minor: IK_MINOR_VERSION,
        ik_generic: IK_GENERIC_SIGNATURE_INDEX,
        klass_flags: KLASS_ACCESS_FLAGS,
        klass_super: KLASS_SUPER,
        klass_name: core.klass_name,
        cp_tags: core.cp_tags,
        cp_length: core.cp_length,
        cp_size: core.cp_size,
        cp_cache: CP_CACHE,
        cp_reference_map: CP_REFERENCE_MAP,
        cp_operands: CP_OPERANDS,
        symbol_len: 0,
        symbol_body: 8,
        array_len: 0,
        array_ptr_data: 8,
        method_const: METHOD_CONST_METHOD,
        method_flags: METHOD_ACCESS_FLAGS,
        cm_name: CONST_METHOD_NAME_INDEX,
        cm_sig: CONST_METHOD_SIGNATURE_INDEX,
        cm_flags: CONST_METHOD_FLAGS,
        cm_code_size: CONST_METHOD_CODE_SIZE,
        cm_size: CONST_METHOD_SIZE,
        cm_max_stack: CONST_METHOD_MAX_STACK,
        cm_max_locals: CONST_METHOD_MAX_LOCALS,
        cm_stackmap: CONST_METHOD_STACKMAP_DATA,
        cm_header_size: 0x30,
        cache_length: 0,
        cache_entry_indices: 0,
        cache_header_size: 0x10,
        cache_entry_size: 0x20,
    }
}

proof fn first_entry_push(entries: Seq<EntryView>, entry: EntryView, s: Seq<char>, f: Seq<char>)
    ensures
        first_entry(entries.push(entry), s, f) == match first_entry(entries, s, f) {
            Some(found) => Some(found),
            None => if entry.struct_name == s && entry.field_name == f {
                Some(entry)
            } else {
                None
            },
        },
    decreases entries.len(),
{
    if entries.len() > 0 {
        assert(entries.push(entry).skip(1) =~= entries.skip(1).push(entry));
        first_entry_push(entries.skip(1), entry, s, f);
    } else {
        assert(entries.push(entry).skip(1) =~= Seq::empty());
        assert(first_entry(Seq::empty(), s, f) is None);
    }
}

/// How an entry is found in a table that was built entry by entry.
proof fn first_entry_of_pushes()
    ensures
        forall|s: Seq<char>, f: Seq<char>| #[trigger]
            first_entry(Seq::empty(), s, f) is None,
        forall|entries: Seq<EntryView>, entry: EntryView, s: Seq<char>, f: Seq<char>| #[trigger]
            first_entry(entries.push(entry), s, f) == match first_entry(entries, s, f) {
                Some(found) => Some(found),
                None => if entry.struct_name == s && entry.field_name == f {
                    Some(entry)
                } else {
                    None
                },
            },
{
    assert forall|entries: Seq<EntryView>, entry: EntryView, s: Seq<char>, f: Seq<char>| #[trigger]
        first_entry(entries.push(entry), s, f) == match first_entry(entries, s, f) {
            Some(found) => Some(found),
            None => if entry.struct_name == s && entry.field_name == f {
                Some(entry)
            } else {
                None
            },
        } by {
        first_entry_push(entries, entry, s, f);
    }
}

/// What tells the names of the structures apart.
proof fn struct_names()
    ensures
        "Klass"@.len() == 5,
        "Symbol"@.len() == 6,
        "InstanceKlass"@.len() == 13,
        "ConstantPool"@.len() == 12,
        "Array<Klass*>"@.len() == 13,
        "Method"@.len() == 6,
        "ConstMethod"@.len() == 11,
        "ConstantPoolCache"@.len() == 17,
        "ConstantPoolCacheEntry"@.len() == 22,
        "Symbol"@[0] == 'S',
        "Method"@[0] == 'M',
        "InstanceKlass"@[0] == 'I',
        "Array<Klass*>"@[0] == 'A',
{
    reveal_strlit("Klass");
    reveal_strlit("Symbol");
    reveal_strlit("InstanceKlass");
    reveal_strlit("ConstantPool");
    reveal_strlit("Array<Klass*>");
    reveal_strlit("Method");
    reveal_strlit("ConstMethod");
    reveal_strlit("ConstantPoolCache");
    reveal_strlit("ConstantPoolCacheEntry");
}

proof fn klass_offsets(core: CoreLayout)
    ensures
        offset_of(profile_entries(core), "Klass"@, "_name"@) == Ok::<u64, Seq<char>>(
            core.klass_name,
        ),
        offset_of(profile_entries(core), "Klass"@, "_super"@) == Ok::<u64, Seq<char>>(
            KLASS_SUPER,
        ),
        offset_of(profile_entries(core), "Klass"@, "_access_flags"@) == Ok::<u64, Seq<char>>(
            KLASS_ACCESS_FLAGS,
        ),
{
    first_entry_of_pushes();
    struct_names();
    reveal_strlit("_name");
    reveal_strlit("_super");
    reveal_strlit("_access_flags");
    assert("_name"@.len() == 5);
    assert("_super"@.len() == 6);
    assert("_access_flags"@.len() == 13);
}

proof fn symbol_offsets(core: CoreLayout)
    ensures
        offset_of(profile_entries(core), "Symbol"@, "_length"@) == Ok::<u64, Seq<char>>(
            0,
        ),
        offset_of(profile_entries(core), "Symbol"@, "_body"@) == Ok::<u64, Seq<char>>(
            8,
        ),
{
    first_entry_of_pushes();
    struct_names();
    reveal_strlit("_length");
    reveal_strlit("_body");
    assert("_length"@.len() == 7);
    assert("_body"@.len() == 5);
}

proof fn instance_klass_offsets(core: CoreLayout)
    ensures
        offset_of(profile_entries(core), "InstanceKlass"@, "_constants"@) == Ok::<u64, Seq<char>>(
            core.ik_constants,
        ),
        offset_of(profile_entries(core), "InstanceKlass"@, "_fields"@) == Ok::<u64, Seq<char>>(
            IK_FIELDS,
        ),
        offset_of(profile_entries(core), "InstanceKlass"@, "_java_fields_count"@) == Ok::<u64, Seq<char>>(
            IK_JAVA_FIELDS_COUNT,
        ),
        offset_of(profile_entries(core), "InstanceKlass"@, "_methods"@) == Ok::<u64, Seq<char>>(
            IK_METHODS,
        ),
        offset_of(profile_entries(core), "InstanceKlass"@, "_local_interfaces"@) == Ok::<u64, Seq<char>>(
            IK_LOCAL_INTERFACES,
        ),
        offset_of(profile_entries(core), "InstanceKlass"@, "_major_version"@) == Ok::<u64, Seq<char>>(
            IK_MAJOR_VERSION,
        ),
        offset_of(profile_entries(core), "InstanceKlass"@, "_minor_version"@) == Ok::<u64, Seq<char>>(
            IK_MINOR_VERSION,
        ),
        offset_of(profile_entries(core), "InstanceKlass"@, "_generic_signature_index"@) == Ok::<u64, Seq<char>>(
            IK_GENERIC_SIGNATURE_INDEX,
        ),
{
    first_entry_of_pushes();
    struct_names();
    reveal_strlit("_constants");
    reveal_strlit("_fields");
    reveal_strlit("_java_fields_count");
    reveal_strlit("_methods");
    reveal_strlit("_local_interfaces");
    reveal_strlit("_major_version");
    reveal_strlit("_minor_version");
    reveal_strlit("_generic_signature_index");
    assert("_constants"@.len() == 10);
    assert("_fields"@.len() == 7);
    assert("_java_fields_count"@.len() == 18);
    assert("_methods"@.len() == 8);
    assert("_local_interfaces"@.len() == 17);
    assert("_major_version"@.len() == 14);
    assert("_minor_version"@.len() == 14);
    assert("_generic_signature_index"@.len() == 24);
    assert("_major_version"@[2] == 'a');
    assert("_minor_version"@[2] == 'i');
}

proof fn constant_pool_offsets(core: CoreLayout)
    ensures
        offset_of(profile_entries(core), "ConstantPool"@, "_tags"@) == Ok::<u64, Seq<char>>(
            core.cp_tags,
        ),
        offset_of(profile_entries(core), "ConstantPool"@, "_length"@) == Ok::<u64, Seq<char>>(
            core.cp_length,
        ),
        offset_of(profile_entries(core), "ConstantPool"@, "_cache"@) == Ok::<u64, Seq<char>>(
            CP_CACHE,
        ),
        offset_of(profile_entries(core), "ConstantPool"@, "_reference_map"@) == Ok::<u64, Seq<char>>(
            CP_REFERENCE_MAP,
        ),
        offset_of(profile_entries(core), "ConstantPool"@, "_operands"@) == Ok::<u64, Seq<char>>(
            CP_OPERANDS,
        ),
{
    first_entry_of_pushes();
    struct_names();
    reveal_strlit("_tags");
    reveal_strlit("_length");
    reveal_strlit("_cache");
    reveal_strlit("_reference_map");
    reveal_strlit("_operands");
    assert("_tags"@.len() == 5);
    assert("_length"@.len() == 7);
    assert("_cache"@.len() == 6);
    assert("_reference_map"@.len() == 14);
    assert("_operands"@.len() == 9);
}

proof fn array_offsets(core: CoreLayout)
    ensures
        offset_of(profile_entries(core), "Array<Klass*>"@, "_length"@) == Ok::<u64, Seq<char>>(
            0,
        ),
        offset_of(profile_entries(core), "Array<Klass*>"@, "_data[0]"@) == Ok::<u64, Seq<char>>(
            8,
        ),
{
    first_entry_of_pushes();
    struct_names();
    reveal_strlit("_length");
    reveal_strlit("_data[0]");
    assert("_length"@.len() == 7);
    assert("_data[0]"@.len() == 8);
}

proof fn method_offsets(core: CoreLayout)
    ensures
        offset_of(profile_entries(core), "Method"@, "_constMethod"@) == Ok::<u64, Seq<char>>(
            METHOD_CONST_METHOD,
        ),
        offset_of(profile_entries(core), "Method"@, "_access_flags"@) == Ok::<u64, Seq<char>>(
            METHOD_ACCESS_FLAGS,
        ),
{
    first_entry_of_pushes();
    struct_names();
    reveal_strlit("_constMethod");
    reveal_strlit("_access_flags");
    assert("_constMethod"@.len() == 12);
    assert("_access_flags"@.len() == 13);
}

proof fn const_method_offsets(core: CoreLayout)
    ensures
        offset_of(profile_entries(core), "ConstMethod"@, "_name_index"@) == Ok::<u64, Seq<char>>(
            CONST_METHOD_NAME_INDEX,
        ),
        offset_of(profile_entries(core), "ConstMethod"@, "_signature_index"@) == Ok::<u64, Seq<char>>(
            CONST_METHOD_SIGNATURE_INDEX,
        ),
        offset_of(profile_entries(core), "ConstMethod"@, "_flags"@) == Ok::<u64, Seq<char>>(
            CONST_METHOD_FLAGS,
        ),
        offset_of(profile_entries(core), "ConstMethod"@, "_code_size"@) == Ok::<u64, Seq<char>>(
            CONST_METHOD_CODE_SIZE,
        ),
        offset_of(profile_entries(core), "ConstMethod"@, "_constMethod_size"@) == Ok::<u64, Seq<char>>(
            CONST_METHOD_SIZE,
        ),
        offset_of(profile_entries(core), "ConstMethod"@, "_max_stack"@) == Ok::<u64, Seq<char>>(
            CONST_METHOD_MAX_STACK,
        ),
        offset_of(profile_entries(core), "ConstMethod"@, "_max_locals"@) == Ok::<u64, Seq<char>>(
            CONST_METHOD_MAX_LOCALS,
        ),
        offset_of(profile_entries(core), "ConstMethod"@, "_stackmap_data"@) == Ok::<u64, Seq<char>>(
            CONST_METHOD_STACKMAP_DATA,
        ),
{
    first_entry_of_pushes();
    struct_names();
    reveal_strlit("_name_index");
    reveal_strlit("_signature_index");
    reveal_strlit("_flags");
    reveal_strlit("_code_size");
    reveal_strlit("_constMethod_size");
    reveal_strlit("_max_stack");
    reveal_strlit("_max_locals");
    reveal_strlit("_stackmap_data");
    assert("_name_index"@.len() == 11);
    assert("_signature_index"@.len() == 16);
    assert("_flags"@.len() == 6);
    assert("_code_size"@.len() == 10);
    assert("_constMethod_size"@.len() == 17);
    assert("_max_stack"@.len() == 10);
    assert("_max_locals"@.len() == 11);
    assert("_stackmap_data"@.len() == 14);
    assert("_name_index"@[1] == 'n');
    assert("_max_locals"@[1] == 'm');
    assert("_code_size"@[1] == 'c');
    assert("_max_stack"@[1] == 'm');
}

proof fn cache_offsets(core: CoreLayout)
    ensures
        offset_of(profile_entries(core), "ConstantPoolCache"@, "_length"@) == Ok::<u64, Seq<char>>(
            0,
        ),
{
    first_entry_of_pushes();
    struct_names();
}

proof fn cache_entry_offsets(core: CoreLayout)
    ensures
        offset_of(profile_entries(core), "ConstantPoolCacheEntry"@, "_indices"@) == Ok::<u64, Seq<char>>(
            0,
        ),
{
    first_entry_of_pushes();
    struct_names();
}

/// The profile gives a layout, and in it each offset and size is the one that was told from memory
/// or else that of JDK 8.
pub proof fn profile_is_complete(core: CoreLayout)
    ensures
        layout_of(profile_entries(core), profile_sizes(core.cp_size)) == Ok::<Layout, Seq<char>>(
            profile_layout(core),
        ),
{
    reveal(layout_of);
    klass_offsets(core);
    symbol_offsets(core);
    instance_klass_offsets(core);
    constant_pool_offsets(core);
    array_offsets(core);
    method_offsets(core);
    const_method_offsets(core);
    cache_offsets(core);
    cache_entry_offsets(core);
    struct_names();
    assert(size_of_type(profile_sizes(core.cp_size), "ConstantPool"@) == Ok::<u64, Seq<char>>(
        core.cp_size,
    ));
    assert(size_of_type(profile_sizes(core.cp_size), "ConstMethod"@) == Ok::<u64, Seq<char>>(0x30));
    assert(size_of_type(profile_sizes(core.cp_size), "ConstantPoolCache"@) == Ok::<u64, Seq<char>>(
        0x10,
    ));
    assert(size_of_type(profile_sizes(core.cp_size), "ConstantPoolCacheEntry"@) == Ok::<
        u64,
        Seq<char>,
    >(0x20));
}

} // verus!
