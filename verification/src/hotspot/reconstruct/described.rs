//! Where a layout comes from: the rows and sizes by which the tables describe it.
use vstd::prelude::*;

use super::{cache_layout, class_layout, layout_of, method_layout, pool_layout, zero_layout, Layout};
use crate::hotspot::vmstructs::{first_entry, EntryView};

verus! {

/// Whether row `index` of the table is about the field `field` of `structure`.
pub open spec fn is_about(
    vm: Seq<EntryView>,
    index: int,
    structure: Seq<char>,
    field: Seq<char>,
) -> bool {
    &&& 0 <= index < vm.len()
    &&& vm[index].struct_name == structure
    &&& vm[index].field_name == field
}

/// Whether the first row about the field `field` of `structure` gives its offset as `offset`.
pub open spec fn lies_at(
    vm: Seq<EntryView>,
    structure: Seq<char>,
    field: Seq<char>,
    offset: u64,
) -> bool {
    exists|index: int| #[trigger]
        is_about(vm, index, structure, field) && vm[index].offset == offset && forall|earlier: int|
            0 <= earlier < index ==> !is_about(vm, earlier, structure, field)
}

/// Whether the type `name` has the size `size`.
pub open spec fn has_size(types: Map<Seq<char>, u64>, name: Seq<char>, size: u64) -> bool {
    types.contains_key(name) && types[name] == size
}

/// Whether `layout` is what the tables say of classes.
pub open spec fn classes_are_described(vm: Seq<EntryView>, layout: Layout) -> bool {
    &&& lies_at(vm, "InstanceKlass"@, "_constants"@, layout.ik_constants)
    &&& lies_at(vm, "InstanceKlass"@, "_fields"@, layout.ik_fields)
    &&& lies_at(vm, "InstanceKlass"@, "_java_fields_count"@, layout.ik_field_count)
    &&& lies_at(vm, "InstanceKlass"@, "_methods"@, layout.ik_methods)
    &&& lies_at(vm, "InstanceKlass"@, "_local_interfaces"@, layout.ik_interfaces)
    &&& lies_at(vm, "InstanceKlass"@, "_major_version"@, layout.ik_major)
    &&& lies_at(vm, "InstanceKlass"@, "_minor_version"@, layout.ik_minor)
    &&& lies_at(vm, "InstanceKlass"@, "_generic_signature_index"@, layout.ik_generic)
    &&& lies_at(vm, "Klass"@, "_access_flags"@, layout.klass_flags)
    &&& lies_at(vm, "Klass"@, "_super"@, layout.klass_super)
    &&& lies_at(vm, "Klass"@, "_name"@, layout.klass_name)
}

/// Whether `layout` is what the tables say of constant pools, symbols and arrays.
pub open spec fn pools_are_described(
    vm: Seq<EntryView>,
    types: Map<Seq<char>, u64>,
    layout: Layout,
) -> bool {
    &&& lies_at(vm, "ConstantPool"@, "_tags"@, layout.cp_tags)
    &&& lies_at(vm, "ConstantPool"@, "_length"@, layout.cp_length)
    &&& lies_at(vm, "ConstantPool"@, "_cache"@, layout.cp_cache)
    &&& lies_at(vm, "ConstantPool"@, "_reference_map"@, layout.cp_reference_map)
    &&& lies_at(vm, "ConstantPool"@, "_operands"@, layout.cp_operands)
    &&& has_size(types, "ConstantPool"@, layout.cp_size)
    &&& lies_at(vm, "Symbol"@, "_length"@, layout.symbol_len)
    &&& lies_at(vm, "Symbol"@, "_body"@, layout.symbol_body)
    &&& lies_at(vm, "Array<Klass*>"@, "_length"@, layout.array_len)
    &&& lies_at(vm, "Array<Klass*>"@, "_data[0]"@, layout.array_ptr_data)
}

/// Whether `layout` is what the tables say of methods.
pub open spec fn methods_are_described(
    vm: Seq<EntryView>,
    types: Map<Seq<char>, u64>,
    layout: Layout,
) -> bool {
    &&& lies_at(vm, "Method"@, "_constMethod"@, layout.method_const)
    &&& lies_at(vm, "Method"@, "_access_flags"@, layout.method_flags)
    &&& lies_at(vm, "ConstMethod"@, "_name_index"@, layout.cm_name)
    &&& lies_at(vm, "ConstMethod"@, "_signature_index"@, layout.cm_sig)
    &&& lies_at(vm, "ConstMethod"@, "_flags"@, layout.cm_flags)
    &&& lies_at(vm, "ConstMethod"@, "_code_size"@, layout.cm_code_size)
    &&& lies_at(vm, "ConstMethod"@, "_constMethod_size"@, layout.cm_size)
    &&& lies_at(vm, "ConstMethod"@, "_max_stack"@, layout.cm_max_stack)
    &&& lies_at(vm, "ConstMethod"@, "_max_locals"@, layout.cm_max_locals)
    &&& lies_at(vm, "ConstMethod"@, "_stackmap_data"@, layout.cm_stackmap)
    &&& has_size(types, "ConstMethod"@, layout.cm_header_size)
}

/// Whether `layout` is what the tables say of the cache of a constant pool.
pub open spec fn caches_are_described(
    vm: Seq<EntryView>,
    types: Map<Seq<char>, u64>,
    layout: Layout,
) -> bool {
    &&& lies_at(vm, "ConstantPoolCache"@, "_length"@, layout.cache_length)
    &&& lies_at(vm, "ConstantPoolCacheEntry"@, "_indices"@, layout.cache_entry_indices)
    &&& has_size(types, "ConstantPoolCache"@, layout.cache_header_size)
    &&& has_size(types, "ConstantPoolCacheEntry"@, layout.cache_entry_size)
}

/// Looking for a field gives the first row about it.
pub proof fn first_row_is_found(
    vm: Seq<EntryView>,
    structure: Seq<char>,
    field: Seq<char>,
    offset: u64,
)
    ensures
        (first_entry(vm, structure, field) matches Some(entry) && entry.offset == offset)
            <==> lies_at(vm, structure, field, offset),
        first_entry(vm, structure, field) matches Some(entry) ==> exists|index: int| #[trigger]
            is_about(vm, index, structure, field) && vm[index] == entry && forall|earlier: int|
                0 <= earlier < index ==> !is_about(vm, earlier, structure, field),
        first_entry(vm, structure, field) is None <==> forall|index: int|
            !is_about(vm, index, structure, field),
    decreases vm.len(),
{
    if vm.len() > 0 {
        let rest = vm.skip(1);
        first_row_is_found(rest, structure, field, offset);
        assert forall|index: int| #[trigger] is_about(rest, index, structure, field) == is_about(
            vm,
            index + 1,
            structure,
            field,
        ) || index < 0 || index >= rest.len() by {
            if 0 <= index < rest.len() {
                assert(rest[index] == vm[index + 1]);
            }
        }
        if is_about(vm, 0, structure, field) {
            assert(lies_at(vm, structure, field, vm[0].offset));
            if lies_at(vm, structure, field, offset) {
                let index = choose|index: int| #[trigger]
                    is_about(vm, index, structure, field) && vm[index].offset == offset && forall|
                        earlier: int,
                    |
                        0 <= earlier < index ==> !is_about(vm, earlier, structure, field);
                assert(index == 0);
            }
        } else {
            if lies_at(rest, structure, field, offset) {
                let index = choose|index: int| #[trigger]
                    is_about(rest, index, structure, field) && rest[index].offset == offset
                        && forall|earlier: int|
                        0 <= earlier < index ==> !is_about(rest, earlier, structure, field);
                assert(is_about(vm, index + 1, structure, field));
                assert forall|earlier: int| 0 <= earlier < index + 1 implies !is_about(
                    vm,
                    earlier,
                    structure,
                    field,
                ) by {
                    if earlier > 0 {
                        assert(!is_about(rest, earlier - 1, structure, field));
                    }
                }
                assert(lies_at(vm, structure, field, offset));
            }
            if lies_at(vm, structure, field, offset) {
                let index = choose|index: int| #[trigger]
                    is_about(vm, index, structure, field) && vm[index].offset == offset && forall|
                        earlier: int,
                    |
                        0 <= earlier < index ==> !is_about(vm, earlier, structure, field);
                assert(is_about(rest, index - 1, structure, field));
                assert forall|earlier: int| 0 <= earlier < index - 1 implies !is_about(
                    rest,
                    earlier,
                    structure,
                    field,
                ) by {
                    assert(!is_about(vm, earlier + 1, structure, field));
                }
                assert(lies_at(rest, structure, field, offset));
            }
            if let Some(entry) = first_entry(rest, structure, field) {
                let index = choose|index: int| #[trigger]
                    is_about(rest, index, structure, field) && rest[index] == entry && forall|
                        earlier: int,
                    |
                        0 <= earlier < index ==> !is_about(rest, earlier, structure, field);
                assert(is_about(vm, index + 1, structure, field));
                assert forall|earlier: int| 0 <= earlier < index + 1 implies !is_about(
                    vm,
                    earlier,
                    structure,
                    field,
                ) by {
                    if earlier > 0 {
                        assert(!is_about(rest, earlier - 1, structure, field));
                    }
                }
            } else {
                assert forall|index: int| !is_about(vm, index, structure, field) by {
                    if index > 0 {
                        assert(!is_about(rest, index - 1, structure, field));
                    }
                }
            }
        }
    }
}

/// A layout has each offset from the row about its field, and each size from that of its type.
pub proof fn layout_is_described(vm: Seq<EntryView>, types: Map<Seq<char>, u64>)
    ensures
        layout_of(vm, types) matches Ok(layout) ==> {
            &&& classes_are_described(vm, layout)
            &&& pools_are_described(vm, types, layout)
            &&& methods_are_described(vm, types, layout)
            &&& caches_are_described(vm, types, layout)
        },
{
    reveal(layout_of);
    assert forall|structure: Seq<char>, field: Seq<char>|
        (#[trigger] first_entry(vm, structure, field)) is Some implies lies_at(
        vm,
        structure,
        field,
        first_entry(vm, structure, field)->Some_0.offset,
    ) by {
        first_row_is_found(
            vm,
            structure,
            field,
            first_entry(vm, structure, field)->Some_0.offset,
        );
    }
}

/// A layout that the tables describe is found.
pub proof fn described_layout_is_found(
    vm: Seq<EntryView>,
    types: Map<Seq<char>, u64>,
    layout: Layout,
)
    requires
        classes_are_described(vm, layout),
        pools_are_described(vm, types, layout),
        methods_are_described(vm, types, layout),
        caches_are_described(vm, types, layout),
    ensures
        layout_of(vm, types) == Ok::<Layout, Seq<char>>(layout),
{
    reveal(layout_of);
    assert forall|structure: Seq<char>, field: Seq<char>, offset: u64| #[trigger]
        lies_at(vm, structure, field, offset) implies first_entry(vm, structure, field) is Some
        && first_entry(vm, structure, field)->Some_0.offset == offset by {
        first_row_is_found(vm, structure, field, offset);
    }
    let classes = class_layout(vm, Ok(zero_layout()));
    assert(classes is Ok);
    let pools = pool_layout(vm, types, classes);
    assert(pools is Ok);
    let methods = method_layout(vm, types, pools);
    assert(methods is Ok);
    assert(cache_layout(vm, types, methods) == Ok::<Layout, Seq<char>>(layout));
}

} // verus!
