//! A loaded class, read as a whole.
use vstd::prelude::*;
use vstd::utf8::encode_utf8;

use super::classfile::{
    any_code, any_signature, any_stack_map, bootstraps_fit, class_file, write_class_file,
    AttributeNames, ClassImage, ImageView,
};
use super::members::{
    bootstraps_of, fields_of, interfaces_from, interfaces_of, methods_of, nonzero, read_bootstrap_methods,
    read_fields, read_interfaces, read_methods, unless_zero, FieldOut, MethodOut, MethodView,
};
use super::pool::{
    add_utf8, adding_class_extends_the_pool, adding_text_extends_the_pool, ensure_class, extends,
    extending_keeps_names, klass_name, klass_name_bytes, names_class, pool_at, pool_fits, read_cp,
    utf8_at, with_class, with_utf8, Cp, CpView, MAX_POOL,
};
use super::Layout;
use crate::bytes::copied;
use crate::hotspot::dictionary::{ClassView, DiscoveredClass};
use crate::lists::views;
use crate::platform::{reads_are_exact, u16_at, u32_at, u64_at, Contents, RemoteMemory};
use crate::text::{seen, Error, Outcome};

verus! {

/// What a class descends from: its pool, extended by the classes that it names, and its own index,
/// that of its superclass and those of its interfaces.
pub struct LineageView {
    pub pool: Seq<CpView>,
    pub this_class: u16,
    pub super_class: u16,
    pub interfaces: Seq<u16>,
}

/// What a class declares.
pub struct MembersView {
    pub fields: Seq<FieldOut>,
    pub methods: Seq<MethodView>,
    pub generic: Option<u16>,
    pub bootstrap_methods: Seq<Seq<u16>>,
}

/// The pool once it holds the superclass at `klass`, and its index: zero for none.
pub open spec fn with_super(
    memory: Contents,
    klass: u64,
    layout: Layout,
    pool: Seq<CpView>,
) -> Outcome<(Seq<CpView>, u16)> {
    if klass == 0 {
        Ok((pool, 0))
    } else {
        match klass_name_bytes(memory, klass, layout) {
            Err(reason) => Err(reason),
            Ok(name) => match with_class(pool, name) {
                (_, Err(reason)) => Err(reason),
                (grown, Ok(index)) => Ok((grown, index)),
            },
        }
    }
}

/// The lineage of a class whose pool holds `pool`.
pub open spec fn lineage_in(
    memory: Contents,
    class: ClassView,
    layout: Layout,
    pool: Seq<CpView>,
) -> Outcome<LineageView> {
    match with_class(pool, encode_utf8(class.internal_name)) {
        (_, Err(reason)) => Err(reason),
        (own, Ok(this_class)) => match u64_at(
            memory,
            class.klass.wrapping_add(layout.klass_super),
        ) {
            Err(reason) => Err(reason),
            Ok(super_klass) => match with_super(memory, super_klass, layout, own) {
                Err(reason) => Err(reason),
                Ok((derived, super_class)) => match u64_at(
                    memory,
                    class.klass.wrapping_add(layout.ik_interfaces),
                ) {
                    Err(reason) => Err(reason),
                    Ok(array) => match interfaces_of(memory, array, layout, derived) {
                        Err(reason) => Err(reason),
                        Ok((grown, interfaces)) => Ok(
                            LineageView { pool: grown, this_class, super_class, interfaces },
                        ),
                    },
                },
            },
        },
    }
}

/// The members of the class at `klass`, whose pool is at `pool` and holds `entries`.
pub open spec fn members_of(
    memory: Contents,
    klass: u64,
    pool: u64,
    layout: Layout,
    entries: Seq<CpView>,
) -> Outcome<MembersView> {
    match fields_of(memory, klass, layout) {
        Err(reason) => Err(reason),
        Ok(fields) => match u32_at(memory, klass.wrapping_add(layout.klass_flags)) {
            Err(reason) => Err(reason),
            Ok(_) => match methods_of(memory, klass, pool, layout, entries) {
                Err(reason) => Err(reason),
                Ok(methods) => match u16_at(memory, klass.wrapping_add(layout.ik_generic)) {
                    Err(reason) => Err(reason),
                    Ok(generic) => match bootstraps_of(memory, pool, layout) {
                        Err(reason) => Err(reason),
                        Ok(bootstrap_methods) => Ok(
                            MembersView {
                                fields,
                                methods,
                                generic: unless_zero(generic),
                                bootstrap_methods,
                            },
                        ),
                    },
                },
            },
        },
    }
}

/// The pool once it names an attribute, if that is needed, and the index of the name.
pub open spec fn with_name(pool: Seq<CpView>, needed: bool, name: Seq<char>) -> Outcome<
    (Seq<CpView>, Option<u16>),
> {
    if needed {
        match with_utf8(pool, encode_utf8(name)) {
            (_, Err(reason)) => Err(reason),
            (grown, Ok(index)) => Ok((grown, Some(index))),
        }
    } else {
        Ok((pool, None))
    }
}

/// The pool once it names the attributes that the members need.
pub open spec fn with_names(pool: Seq<CpView>, members: MembersView) -> Outcome<
    (Seq<CpView>, AttributeNames),
> {
    match with_name(pool, any_code(members.methods), "Code"@) {
        Err(reason) => Err(reason),
        Ok((pool, code)) => match with_name(
            pool,
            any_stack_map(members.methods),
            "StackMapTable"@,
        ) {
            Err(reason) => Err(reason),
            Ok((pool, stack_map)) => match with_name(
                pool,
                any_signature(members.generic, members.fields, members.methods),
                "Signature"@,
            ) {
                Err(reason) => Err(reason),
                Ok((pool, signature)) => match with_name(
                    pool,
                    members.bootstrap_methods.len() > 0,
                    "BootstrapMethods"@,
                ) {
                    Err(reason) => Err(reason),
                    Ok((pool, bootstrap_methods)) => Ok(
                        (pool, AttributeNames { code, stack_map, signature, bootstrap_methods }),
                    ),
                },
            },
        },
    }
}

/// The class once its lineage and its members are known.
pub open spec fn image_with(
    memory: Contents,
    klass: u64,
    layout: Layout,
    lineage: LineageView,
    members: MembersView,
) -> Outcome<ImageView> {
    match with_names(lineage.pool, members) {
        Err(reason) => Err(reason),
        Ok((pool, names)) => match u16_at(memory, klass.wrapping_add(layout.ik_minor)) {
            Err(reason) => Err(reason),
            Ok(minor) => match u16_at(memory, klass.wrapping_add(layout.ik_major)) {
                Err(reason) => Err(reason),
                Ok(major) => match u32_at(memory, klass.wrapping_add(layout.klass_flags)) {
                    Err(reason) => Err(reason),
                    Ok(flags) => Ok(
                        ImageView {
                            minor,
                            major,
                            pool,
                            flags: (flags % 0x1_0000) as u16 & 0x7631,
                            this_class: lineage.this_class,
                            super_class: lineage.super_class,
                            interfaces: lineage.interfaces,
                            fields: members.fields,
                            methods: members.methods,
                            generic: members.generic,
                            bootstrap_methods: members.bootstrap_methods,
                            names,
                        },
                    ),
                },
            },
        },
    }
}

/// What is read of a class.
pub open spec fn class_image(memory: Contents, class: ClassView, layout: Layout) -> Outcome<
    ImageView,
> {
    match u64_at(memory, class.klass.wrapping_add(layout.ik_constants)) {
        Err(reason) => Err(reason),
        Ok(pool) => if pool == 0 {
            Err("null cp"@)
        } else {
            match pool_at(memory, pool, layout) {
                Err(reason) => Err(reason),
                Ok(entries) => match lineage_in(memory, class, layout, entries) {
                    Err(reason) => Err(reason),
                    Ok(lineage) => match members_of(
                        memory,
                        class.klass,
                        pool,
                        layout,
                        lineage.pool,
                    ) {
                        Err(reason) => Err(reason),
                        Ok(members) => image_with(memory, class.klass, layout, lineage, members),
                    },
                },
            }
        },
    }
}

/// The class file of a class.
pub open spec fn reconstructed(memory: Contents, class: ClassView, layout: Layout) -> Outcome<
    Seq<u8>,
> {
    match class_image(memory, class, layout) {
        Err(reason) => Err(reason),
        Ok(image) => Ok(class_file(image)),
    }
}

struct Lineage {
    pool: Vec<Cp>,
    this_class: u16,
    super_class: u16,
    interfaces: Vec<u16>,
}

impl View for Lineage {
    type V = LineageView;

    closed spec fn view(&self) -> LineageView {
        LineageView {
            pool: views(self.pool@),
            this_class: self.this_class,
            super_class: self.super_class,
            interfaces: self.interfaces@,
        }
    }
}

struct Members {
    fields: Vec<FieldOut>,
    methods: Vec<MethodOut>,
    generic: Option<u16>,
    bootstrap_methods: Vec<Vec<u16>>,
}

impl View for Members {
    type V = MembersView;

    closed spec fn view(&self) -> MembersView {
        MembersView {
            fields: self.fields@,
            methods: views(self.methods@),
            generic: self.generic,
            bootstrap_methods: views(self.bootstrap_methods@),
        }
    }
}

impl MembersView {
    /// Whether the lists fit the counts of a class file, and each bootstrap method has a handle.
    pub open spec fn wf(self) -> bool {
        &&& self.fields.len() <= 65535
        &&& self.methods.len() <= 65535
        &&& forall|i: int| 0 <= i < self.methods.len() ==> (#[trigger] self.methods[i]).wf()
        &&& bootstraps_fit(self.bootstrap_methods)
    }
}

fn read_lineage<M: RemoteMemory>(
    memory: &M,
    class: &DiscoveredClass,
    layout: &Layout,
    pool: Vec<Cp>,
) -> (result: Result<Lineage, Error>)
    requires
        1 <= pool@.len() <= MAX_POOL,
    ensures
        seen(result) == lineage_in(memory.contents(), class@, *layout, views(pool@)),
        result matches Ok(lineage) ==> 1 <= lineage@.pool.len() <= MAX_POOL
            && lineage@.interfaces.len() <= 65535,
{
    let mut pool = pool;
    let this_class = ensure_class(&mut pool, class.internal_name.as_str().as_bytes())?;
    let super_klass = memory.read_u64(class.klass.wrapping_add(layout.klass_super))?;
    let super_class = if super_klass == 0 {
        0
    } else {
        let name = klass_name(memory, super_klass, layout)?;
        ensure_class(&mut pool, name.as_slice())?
    };
    let array = memory.read_u64(class.klass.wrapping_add(layout.ik_interfaces))?;
    let interfaces = read_interfaces(memory, array, layout, &mut pool)?;
    Ok(Lineage { pool, this_class, super_class, interfaces })
}

fn read_members<M: RemoteMemory>(
    memory: &M,
    klass: u64,
    pool: u64,
    layout: &Layout,
    entries: &Vec<Cp>,
) -> (result: Result<Members, Error>)
    ensures
        seen(result) == members_of(memory.contents(), klass, pool, *layout, views(entries@)),
        result matches Ok(members) ==> members@.wf(),
{
    let fields = read_fields(memory, klass, layout)?;
    // The flags of the class are read here and, for the class file, once more at the end.
    memory.read_u32(klass.wrapping_add(layout.klass_flags))?;
    let methods = read_methods(memory, klass, pool, layout, entries)?;
    let generic = nonzero(memory.read_u16(klass.wrapping_add(layout.ik_generic))?);
    let bootstrap_methods = read_bootstrap_methods(memory, pool, layout)?;
    Ok(Members { fields, methods, generic, bootstrap_methods })
}

fn needs_code(methods: &Vec<MethodOut>) -> (needed: bool)
    ensures
        needed == any_code(views(methods@)),
{
    let mut index: usize = 0;
    while index < methods.len()
        invariant
            index <= methods@.len(),
            forall|i: int| 0 <= i < index ==> (#[trigger] views(methods@)[i]).code is None,
        decreases methods@.len() - index,
    {
        assert(views(methods@)[index as int] == methods@[index as int]@);
        if methods[index].code.is_some() {
            return true;
        }
        index += 1;
    }
    false
}

fn needs_stack_map(methods: &Vec<MethodOut>) -> (needed: bool)
    ensures
        needed == any_stack_map(views(methods@)),
{
    let mut index: usize = 0;
    while index < methods.len()
        invariant
            index <= methods@.len(),
            forall|i: int|
                0 <= i < index ==> ((#[trigger] views(methods@)[i]).code matches Some(code)
                    ==> code.stack_map is None),
        decreases methods@.len() - index,
    {
        assert(views(methods@)[index as int] == methods@[index as int]@);
        if let Some(code) = &methods[index].code {
            if code.stack_map.is_some() {
                return true;
            }
        }
        index += 1;
    }
    false
}

fn needs_signature(generic: Option<u16>, fields: &Vec<FieldOut>, methods: &Vec<MethodOut>) -> (needed: bool)
    ensures
        needed == any_signature(generic, fields@, views(methods@)),
{
    if generic.is_some() {
        return true;
    }
    let mut index: usize = 0;
    while index < fields.len()
        invariant
            index <= fields@.len(),
            forall|i: int| 0 <= i < index ==> (#[trigger] fields@[i]).generic is None,
        decreases fields@.len() - index,
    {
        if fields[index].generic.is_some() {
            return true;
        }
        index += 1;
    }
    let mut index: usize = 0;
    while index < methods.len()
        invariant
            index <= methods@.len(),
            forall|i: int| 0 <= i < index ==> (#[trigger] views(methods@)[i]).generic is None,
        decreases methods@.len() - index,
    {
        assert(views(methods@)[index as int] == methods@[index as int]@);
        if methods[index].generic.is_some() {
            return true;
        }
        index += 1;
    }
    false
}

fn add_name(pool: &mut Vec<Cp>, needed: bool, name: &str) -> (result: Result<Option<u16>, Error>)
    requires
        1 <= old(pool)@.len() <= MAX_POOL,
    ensures
        match with_name(views(old(pool)@), needed, name@) {
            Err(reason) => result matches Err(error) && error@ == reason,
            Ok((grown, index)) => result == Ok::<Option<u16>, Error>(index) && views(final(pool)@)
                == grown,
        },
        1 <= final(pool)@.len() <= MAX_POOL,
{
    if needed {
        let index = add_utf8(pool, copied(name.as_bytes()))?;
        Ok(Some(index))
    } else {
        Ok(None)
    }
}

fn add_names(pool: &mut Vec<Cp>, members: &Members) -> (result: Result<AttributeNames, Error>)
    requires
        1 <= old(pool)@.len() <= MAX_POOL,
    ensures
        match with_names(views(old(pool)@), members@) {
            Err(reason) => result matches Err(error) && error@ == reason,
            Ok((grown, names)) => result == Ok::<AttributeNames, Error>(names)
                && views(final(pool)@) == grown,
        },
        1 <= final(pool)@.len() <= MAX_POOL,
{
    let code = add_name(pool, needs_code(&members.methods), "Code")?;
    let stack_map = add_name(pool, needs_stack_map(&members.methods), "StackMapTable")?;
    let signature = add_name(
        pool,
        needs_signature(members.generic, &members.fields, &members.methods),
        "Signature",
    )?;
    let bootstrap_methods = add_name(
        pool,
        members.bootstrap_methods.len() > 0,
        "BootstrapMethods",
    )?;
    Ok(AttributeNames { code, stack_map, signature, bootstrap_methods })
}

/// Reads all that the class file of `class` holds.
pub fn read_image<M: RemoteMemory>(memory: &M, class: &DiscoveredClass, layout: &Layout) -> (result:
    Result<ClassImage, Error>)
    ensures
        seen(result) == class_image(memory.contents(), class@, *layout),
        result matches Ok(image) ==> image@.wf(),
{
    let klass = class.klass;
    let pool_at = memory.read_u64(klass.wrapping_add(layout.ik_constants))?;
    if pool_at == 0 {
        return Err(Error::new("null cp"));
    }
    let pool = read_cp(memory, pool_at, layout)?;
    let lineage = read_lineage(memory, class, layout, pool)?;
    let members = read_members(memory, klass, pool_at, layout, &lineage.pool)?;
    let mut pool = lineage.pool;
    let names = add_names(&mut pool, &members)?;
    let minor = memory.read_u16(klass.wrapping_add(layout.ik_minor))?;
    let major = memory.read_u16(klass.wrapping_add(layout.ik_major))?;
    let flags = memory.read_u32(klass.wrapping_add(layout.klass_flags))?;
    Ok(
        ClassImage {
            minor,
            major,
            pool,
            flags: (flags % 0x1_0000) as u16 & 0x7631,
            this_class: lineage.this_class,
            super_class: lineage.super_class,
            interfaces: lineage.interfaces,
            fields: members.fields,
            methods: members.methods,
            generic: members.generic,
            bootstrap_methods: members.bootstrap_methods,
            names,
        },
    )
}

/// The class file of `class`.
pub fn reconstruct<M: RemoteMemory>(
    memory: &M,
    class: &DiscoveredClass,
    layout: &Layout,
) -> (result: Result<Vec<u8>, Error>)
    ensures
        seen(result) == reconstructed(memory.contents(), class@, *layout),
{
    let image = read_image(memory, class, layout)?;
    Ok(write_class_file(&image))
}

/// Whether the entry of the pool at `index` is the class that the pointer at `slot` leads to.
pub open spec fn is_class_behind(
    memory: Contents,
    slot: u64,
    layout: Layout,
    pool: Seq<CpView>,
    index: u16,
) -> bool {
    &&& u64_at(memory, slot) matches Ok(klass)
    &&& klass_name_bytes(memory, klass, layout) matches Ok(name)
    &&& index < pool.len()
    &&& names_class(pool, name, index as int)
}

/// Whether `index` stands for the superclass of the class at `klass`: zero for none.
pub open spec fn is_super_of(
    memory: Contents,
    klass: u64,
    layout: Layout,
    pool: Seq<CpView>,
    index: u16,
) -> bool {
    let slot = klass.wrapping_add(layout.klass_super);
    if u64_at(memory, slot) == Ok::<u64, Seq<char>>(0) {
        index == 0
    } else {
        is_class_behind(memory, slot, layout, pool, index)
    }
}

/// Whether `indices` stand for the interfaces that the class at `klass` declares, in order.
pub open spec fn are_interfaces_of(
    memory: Contents,
    klass: u64,
    layout: Layout,
    pool: Seq<CpView>,
    indices: Seq<u16>,
) -> bool {
    &&& u64_at(memory, klass.wrapping_add(layout.ik_interfaces)) matches Ok(array)
    &&& if array == 0 {
        indices.len() == 0
    } else {
        &&& u32_at(memory, array.wrapping_add(layout.array_len)) matches Ok(count)
        &&& indices.len() == count
        &&& forall|i: int|
            0 <= i < count ==> is_class_behind(
                memory,
                array.wrapping_add(layout.array_ptr_data).wrapping_add((i * 8) as u64),
                layout,
                pool,
                #[trigger] indices[i],
            )
    }
}

proof fn interfaces_extend(
    memory: Contents,
    slots: u64,
    layout: Layout,
    count: nat,
    index: nat,
    pool: Seq<CpView>,
    done: Seq<u16>,
)
    requires
        pool.len() <= MAX_POOL,
        done.len() == index <= count,
    ensures
        interfaces_from(memory, slots, layout, count, index, pool, done) matches Ok((grown, indices))
            ==> {
            &&& extends(grown, pool)
            &&& indices.len() == count
            &&& forall|i: int| 0 <= i < index ==> indices[i] == done[i]
            &&& forall|i: int|
                index <= i < count ==> is_class_behind(
                    memory,
                    slots.wrapping_add((i * 8) as u64),
                    layout,
                    grown,
                    #[trigger] indices[i],
                )
        },
    decreases count - index,
{
    if index < count {
        if let Ok(klass) = u64_at(memory, slots.wrapping_add((index * 8) as u64)) {
            if let Ok(name) = klass_name_bytes(memory, klass, layout) {
                adding_class_extends_the_pool(pool, name);
                if let (own, Ok(class)) = with_class(pool, name) {
                    let more = done.push(class);
                    interfaces_extend(memory, slots, layout, count, index + 1, own, more);
                    if let Ok((grown, indices)) = interfaces_from(
                        memory,
                        slots,
                        layout,
                        count,
                        index + 1,
                        own,
                        more,
                    ) {
                        extending_keeps_names(grown, own, name, class);
                        assert(indices[index as int] == class);
                        assert forall|i: int| 0 <= i < index implies indices[i] == done[i] by {
                            assert(more[i] == done[i]);
                        }
                        assert forall|i: int| index <= i < count implies is_class_behind(
                            memory,
                            slots.wrapping_add((i * 8) as u64),
                            layout,
                            grown,
                            #[trigger] indices[i],
                        ) by {}
                    }
                }
            }
        }
    }
}

/// Extending the pool once more keeps what it says of the lineage.
proof fn extending_keeps_lineage(
    memory: Contents,
    klass: u64,
    layout: Layout,
    grown: Seq<CpView>,
    lineage: LineageView,
)
    requires
        extends(grown, lineage.pool),
        is_super_of(memory, klass, layout, lineage.pool, lineage.super_class),
        are_interfaces_of(memory, klass, layout, lineage.pool, lineage.interfaces),
    ensures
        is_super_of(memory, klass, layout, grown, lineage.super_class),
        are_interfaces_of(memory, klass, layout, grown, lineage.interfaces),
{
}

/// What is read of a class can be told from its file. The pool starts with the one that was read, so
/// that every index in it still stands for the same entry, and only texts and classes were added.
/// The index of the class is that of its name, those of the superclass and of the interfaces are
/// those of the classes that were read, and those of the attribute names are those of the names.
pub proof fn image_names_itself(memory: Contents, class: ClassView, layout: Layout)
    requires
        reads_are_exact(memory),
    ensures
        class_image(memory, class, layout) matches Ok(image) ==> {
            &&& image.this_class < image.pool.len() <= MAX_POOL
            &&& names_class(image.pool, encode_utf8(class.internal_name), image.this_class as int)
            &&& is_super_of(memory, class.klass, layout, image.pool, image.super_class)
            &&& are_interfaces_of(memory, class.klass, layout, image.pool, image.interfaces)
            &&& image.names.code matches Some(index) ==> utf8_at(image.pool, index) == Ok::<
                Seq<u8>,
                Seq<char>,
            >(encode_utf8("Code"@))
            &&& image.names.stack_map matches Some(index) ==> utf8_at(image.pool, index) == Ok::<
                Seq<u8>,
                Seq<char>,
            >(encode_utf8("StackMapTable"@))
            &&& image.names.signature matches Some(index) ==> utf8_at(image.pool, index) == Ok::<
                Seq<u8>,
                Seq<char>,
            >(encode_utf8("Signature"@))
            &&& image.names.bootstrap_methods matches Some(index) ==> utf8_at(image.pool, index)
                == Ok::<Seq<u8>, Seq<char>>(encode_utf8("BootstrapMethods"@))
            &&& u64_at(memory, class.klass.wrapping_add(layout.ik_constants)) matches Ok(pool)
            &&& pool_at(memory, pool, layout) matches Ok(entries)
            &&& extends(image.pool, entries)
        },
{
    if let Ok(pool) = u64_at(memory, class.klass.wrapping_add(layout.ik_constants)) {
        pool_fits(memory, pool, layout);
        if let Ok(entries) = pool_at(memory, pool, layout) {
            lineage_names_the_class(memory, class, layout, entries);
            if let Ok(lineage) = lineage_in(memory, class, layout, entries) {
                if let Ok(members) = members_of(memory, class.klass, pool, layout, lineage.pool) {
                    names_stay(lineage.pool, members);
                    if let Ok((named, _)) = with_names(lineage.pool, members) {
                        extending_keeps_names(
                            named,
                            lineage.pool,
                            encode_utf8(class.internal_name),
                            lineage.this_class,
                        );
                        extending_keeps_lineage(memory, class.klass, layout, named, lineage);
                    }
                }
            }
        }
    }
}

proof fn lineage_names_the_class(
    memory: Contents,
    class: ClassView,
    layout: Layout,
    pool: Seq<CpView>,
)
    requires
        pool.len() <= MAX_POOL,
    ensures
        lineage_in(memory, class, layout, pool) matches Ok(lineage) ==> {
            &&& extends(lineage.pool, pool)
            &&& lineage.this_class < lineage.pool.len()
            &&& names_class(
                lineage.pool,
                encode_utf8(class.internal_name),
                lineage.this_class as int,
            )
            &&& is_super_of(memory, class.klass, layout, lineage.pool, lineage.super_class)
            &&& are_interfaces_of(memory, class.klass, layout, lineage.pool, lineage.interfaces)
        },
{
    let name = encode_utf8(class.internal_name);
    adding_class_extends_the_pool(pool, name);
    if let (own, Ok(this_class)) = with_class(pool, name) {
        if let Ok(super_klass) = u64_at(memory, class.klass.wrapping_add(layout.klass_super)) {
            if let Ok(super_name) = klass_name_bytes(memory, super_klass, layout) {
                adding_class_extends_the_pool(own, super_name);
            }
            if let Ok((derived, super_class)) = with_super(memory, super_klass, layout, own) {
                extending_keeps_names(derived, own, name, this_class);
                assert(is_super_of(memory, class.klass, layout, derived, super_class));
                if let Ok(array) = u64_at(
                    memory,
                    class.klass.wrapping_add(layout.ik_interfaces),
                ) {
                    if let Ok(count) = u32_at(memory, array.wrapping_add(layout.array_len)) {
                        interfaces_extend(
                            memory,
                            array.wrapping_add(layout.array_ptr_data),
                            layout,
                            count as nat,
                            0,
                            derived,
                            Seq::empty(),
                        );
                    }
                    if let Ok((grown, interfaces)) = interfaces_of(memory, array, layout, derived) {
                        extending_keeps_names(grown, derived, name, this_class);
                        if super_klass != 0 {
                            if let Ok(super_name) = klass_name_bytes(memory, super_klass, layout) {
                                extending_keeps_names(grown, derived, super_name, super_class);
                            }
                        }
                        assert(extends(grown, pool));
                        assert(are_interfaces_of(
                            memory,
                            class.klass,
                            layout,
                            grown,
                            interfaces,
                        ));
                    }
                }
            }
        }
    }
}

proof fn name_extends(pool: Seq<CpView>, needed: bool, name: Seq<char>)
    requires
        pool.len() <= MAX_POOL,
    ensures
        with_name(pool, needed, name) matches Ok((grown, index)) ==> {
            &&& extends(grown, pool)
            &&& index matches Some(index) ==> index < grown.len() && utf8_at(grown, index) == Ok::<
                Seq<u8>,
                Seq<char>,
            >(encode_utf8(name))
        },
{
    adding_text_extends_the_pool(pool, encode_utf8(name));
}

proof fn names_stay(pool: Seq<CpView>, members: MembersView)
    requires
        pool.len() <= MAX_POOL,
    ensures
        with_names(pool, members) matches Ok((grown, names)) ==> {
            &&& extends(grown, pool)
            &&& names.code matches Some(index) ==> utf8_at(grown, index) == Ok::<
                Seq<u8>,
                Seq<char>,
            >(encode_utf8("Code"@))
            &&& names.stack_map matches Some(index) ==> utf8_at(grown, index) == Ok::<
                Seq<u8>,
                Seq<char>,
            >(encode_utf8("StackMapTable"@))
            &&& names.signature matches Some(index) ==> utf8_at(grown, index) == Ok::<
                Seq<u8>,
                Seq<char>,
            >(encode_utf8("Signature"@))
            &&& names.bootstrap_methods matches Some(index) ==> utf8_at(grown, index) == Ok::<
                Seq<u8>,
                Seq<char>,
            >(encode_utf8("BootstrapMethods"@))
        },
{
    let code = any_code(members.methods);
    let stack_map = any_stack_map(members.methods);
    let signature = any_signature(members.generic, members.fields, members.methods);
    let bootstraps = members.bootstrap_methods.len() > 0;
    name_extends(pool, code, "Code"@);
    if let Ok((first, _)) = with_name(pool, code, "Code"@) {
        name_extends(first, stack_map, "StackMapTable"@);
        if let Ok((second, _)) = with_name(first, stack_map, "StackMapTable"@) {
            name_extends(second, signature, "Signature"@);
            if let Ok((third, _)) = with_name(second, signature, "Signature"@) {
                name_extends(third, bootstraps, "BootstrapMethods"@);
            }
        }
    }
}

} // verus!
