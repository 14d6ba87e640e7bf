//! The class file format: what is written for each part of a reconstructed class.
use vstd::prelude::*;

use super::members::{CodeOut, CodeView, ExceptionOut, FieldOut, MethodOut, MethodView};
use super::pool::{Cp, CpView, MAX_POOL};
use crate::bytes::{be16_bytes, be32_bytes, be64_bytes, put_bytes};
use crate::lists::views;
use crate::text::{plain, Error, Outcome};

verus! {

/// A class, complete but for its encoding. The names are the pool indices of the names of the
/// attributes that the class has.
#[derive(Debug)]
pub struct ClassImage {
    pub minor: u16,
    pub major: u16,
    pub pool: Vec<Cp>,
    pub flags: u16,
    pub this_class: u16,
    pub super_class: u16,
    pub interfaces: Vec<u16>,
    pub fields: Vec<FieldOut>,
    pub methods: Vec<MethodOut>,
    pub generic: Option<u16>,
    pub bootstrap_methods: Vec<Vec<u16>>,
    pub names: AttributeNames,
}

/// The pool indices of the names of the attributes, each there if it is needed.
#[derive(Debug, Clone, Copy, PartialEq, Eq, Structural)]
pub struct AttributeNames {
    pub code: Option<u16>,
    pub stack_map: Option<u16>,
    pub signature: Option<u16>,
    pub bootstrap_methods: Option<u16>,
}

/// A class, its lists as sequences.
pub struct ImageView {
    pub minor: u16,
    pub major: u16,
    pub pool: Seq<CpView>,
    pub flags: u16,
    pub this_class: u16,
    pub super_class: u16,
    pub interfaces: Seq<u16>,
    pub fields: Seq<FieldOut>,
    pub methods: Seq<MethodView>,
    pub generic: Option<u16>,
    pub bootstrap_methods: Seq<Seq<u16>>,
    pub names: AttributeNames,
}

impl View for ClassImage {
    type V = ImageView;

    open spec fn view(&self) -> ImageView {
        ImageView {
            minor: self.minor,
            major: self.major,
            pool: views(self.pool@),
            flags: self.flags,
            this_class: self.this_class,
            super_class: self.super_class,
            interfaces: self.interfaces@,
            fields: self.fields@,
            methods: views(self.methods@),
            generic: self.generic,
            bootstrap_methods: views(self.bootstrap_methods@),
            names: self.names,
        }
    }
}

/// Whether some method has code.
pub open spec fn any_code(methods: Seq<MethodView>) -> bool {
    exists|i: int| 0 <= i < methods.len() && (#[trigger] methods[i]).code is Some
}

/// Whether some method has code with a stack map.
pub open spec fn any_stack_map(methods: Seq<MethodView>) -> bool {
    exists|i: int|
        0 <= i < methods.len() && ((#[trigger] methods[i]).code matches Some(code)
            && code.stack_map is Some)
}

/// Whether the class, some field or some method has a generic signature.
pub open spec fn any_signature(
    generic: Option<u16>,
    fields: Seq<FieldOut>,
    methods: Seq<MethodView>,
) -> bool {
    ||| generic is Some
    ||| exists|i: int| 0 <= i < fields.len() && (#[trigger] fields[i]).generic is Some
    ||| exists|i: int| 0 <= i < methods.len() && (#[trigger] methods[i]).generic is Some
}

impl CodeView {
    /// Whether the code fits the counts and lengths of a class file.
    pub open spec fn wf(self) -> bool {
        &&& self.bytes.len() <= 65535
        &&& self.exceptions.len() <= 65535
        &&& self.stack_map matches Some(stack_map) ==> stack_map.len() <= 0x100_0000
    }
}

impl MethodView {
    /// Whether the code, if there is any, fits the counts and lengths of a class file.
    pub open spec fn wf(self) -> bool {
        self.code matches Some(code) ==> code.wf()
    }
}

/// Whether bootstrap methods fit a class file: each has a method handle, and they and their
/// arguments fit their counts and the length of their attribute.
pub open spec fn bootstraps_fit(methods: Seq<Seq<u16>>) -> bool {
    &&& methods.len() <= 32767
    &&& forall|i: int| 0 <= i < methods.len() ==> 1 <= (#[trigger] methods[i]).len() <= 65536
}

impl ImageView {
    /// Whether the class can be encoded: its lists fit their counts, and its pool names exactly
    /// the attributes that it has.
    pub open spec fn wf(self) -> bool {
        &&& 1 <= self.pool.len() <= MAX_POOL
        &&& self.interfaces.len() <= 65535
        &&& self.fields.len() <= 65535
        &&& self.methods.len() <= 65535
        &&& forall|i: int| 0 <= i < self.methods.len() ==> (#[trigger] self.methods[i]).wf()
        &&& bootstraps_fit(self.bootstrap_methods)
        &&& self.names.code is Some <==> any_code(self.methods)
        &&& self.names.stack_map is Some <==> any_stack_map(self.methods)
        &&& self.names.signature is Some <==> any_signature(
            self.generic,
            self.fields,
            self.methods,
        )
        &&& self.names.bootstrap_methods is Some <==> self.bootstrap_methods.len() > 0
    }
}

/// What `written` gives for each item, one after the other.
pub open spec fn each<T>(items: Seq<T>, written: spec_fn(T) -> Seq<u8>) -> Seq<u8>
    decreases items.len(),
{
    if items.len() == 0 {
        Seq::empty()
    } else {
        each(items.drop_last(), written) + written(items.last())
    }
}

proof fn each_step<T>(items: Seq<T>, index: int, written: spec_fn(T) -> Seq<u8>)
    requires
        0 <= index < items.len(),
    ensures
        each(items.take(index + 1), written) == each(items.take(index), written) + written(
            items[index],
        ),
{
    assert(items.take(index + 1).drop_last() =~= items.take(index));
}

/// The bytes of a list of 16-bit numbers.
pub open spec fn u2_bytes(values: Seq<u16>) -> Seq<u8> {
    each(values, |value: u16| be16_bytes(value))
}

/// A length as the four bytes of an attribute's length.
pub open spec fn length_bytes(length: nat) -> Seq<u8> {
    be32_bytes((length % 0x1_0000_0000) as u32)
}

/// A length as the two bytes of a count.
pub open spec fn count_bytes(length: nat) -> Seq<u8> {
    be16_bytes((length % 0x1_0000) as u16)
}

/// An attribute: its name, its length, and what it holds.
pub open spec fn attribute_bytes(name: u16, body: Seq<u8>) -> Seq<u8> {
    be16_bytes(name) + length_bytes(body.len()) + body
}

/// An entry of the constant pool. The entry that stands for none, such as the second half of a
/// `Long`, takes no bytes.
pub open spec fn cp_bytes(entry: CpView) -> Seq<u8> {
    match entry {
        CpView::Empty => Seq::empty(),
        CpView::Utf8(text) => seq![1u8] + count_bytes(text.len()) + text,
        CpView::Integer(value) => seq![3u8] + be32_bytes(value),
        CpView::Float(bits) => seq![4u8] + be32_bytes(bits),
        CpView::Long(value) => seq![5u8] + be64_bytes(value),
        CpView::Double(bits) => seq![6u8] + be64_bytes(bits),
        CpView::Class(name) => seq![7u8] + be16_bytes(name),
        CpView::String(text) => seq![8u8] + be16_bytes(text),
        CpView::Ref(tag, class, name_type) => seq![tag] + be16_bytes(class) + be16_bytes(name_type),
        CpView::NameType(name, descriptor) => seq![12u8] + be16_bytes(name) + be16_bytes(
            descriptor,
        ),
        CpView::MethodHandle(kind, reference) => seq![15u8, kind] + be16_bytes(reference),
        CpView::MethodType(descriptor) => seq![16u8] + be16_bytes(descriptor),
        CpView::InvokeDynamic(bootstrap, name_type) => seq![18u8] + be16_bytes(bootstrap)
            + be16_bytes(name_type),
    }
}

/// The constant pool: its count, and every entry but the unused first one.
pub open spec fn pool_bytes(pool: Seq<CpView>) -> Seq<u8> {
    count_bytes(pool.len()) + each(pool.skip(1), |entry: CpView| cp_bytes(entry))
}

/// The attribute that holds a generic signature.
pub open spec fn signature_bytes(name: u16, signature: u16) -> Seq<u8> {
    attribute_bytes(name, be16_bytes(signature))
}

/// The attribute that holds a generic signature, if there is one.
pub open spec fn optional_signature_bytes(name: Option<u16>, signature: Option<u16>) -> Seq<u8> {
    match signature {
        None => Seq::empty(),
        Some(signature) => signature_bytes(name.unwrap(), signature),
    }
}

/// One for a part that is there, zero for one that is not.
pub open spec fn one_if(present: bool) -> nat {
    if present {
        1
    } else {
        0
    }
}

/// A field.
pub open spec fn field_bytes(names: AttributeNames, field: FieldOut) -> Seq<u8> {
    be16_bytes(field.flags) + be16_bytes(field.name) + be16_bytes(field.descriptor) + count_bytes(
        one_if(field.generic is Some),
    ) + optional_signature_bytes(names.signature, field.generic)
}

/// A row of an exception table.
pub open spec fn exception_bytes(row: ExceptionOut) -> Seq<u8> {
    be16_bytes(row.start_pc) + be16_bytes(row.end_pc) + be16_bytes(row.handler_pc) + be16_bytes(
        row.catch_type,
    )
}

/// What a `Code` attribute holds.
pub open spec fn code_body(names: AttributeNames, code: CodeView) -> Seq<u8> {
    be16_bytes(code.max_stack) + be16_bytes(code.max_locals) + length_bytes(code.bytes.len())
        + code.bytes + count_bytes(code.exceptions.len()) + each(
        code.exceptions,
        |row: ExceptionOut| exception_bytes(row),
    ) + count_bytes(one_if(code.stack_map is Some)) + (match code.stack_map {
        None => Seq::empty(),
        Some(stack_map) => attribute_bytes(names.stack_map.unwrap(), stack_map),
    })
}

/// A method.
pub open spec fn method_bytes(names: AttributeNames, method: MethodView) -> Seq<u8> {
    be16_bytes(method.flags) + be16_bytes(method.name) + be16_bytes(method.descriptor)
        + count_bytes(one_if(method.code is Some) + one_if(method.generic is Some)) + (
    match method.code {
        None => Seq::empty(),
        Some(code) => attribute_bytes(names.code.unwrap(), code_body(names, code)),
    }) + optional_signature_bytes(names.signature, method.generic)
}

/// A bootstrap method: its method handle, then its arguments with their count.
pub open spec fn bootstrap_bytes(method: Seq<u16>) -> Seq<u8> {
    be16_bytes(method[0]) + count_bytes((method.len() - 1) as nat) + u2_bytes(method.skip(1))
}

/// What the `BootstrapMethods` attribute holds.
pub open spec fn bootstraps_body(methods: Seq<Seq<u16>>) -> Seq<u8> {
    count_bytes(methods.len()) + each(methods, |method: Seq<u16>| bootstrap_bytes(method))
}

/// The attributes of the class itself.
pub open spec fn class_attributes(image: ImageView) -> Seq<u8> {
    count_bytes(one_if(image.generic is Some) + one_if(image.bootstrap_methods.len() > 0))
        + optional_signature_bytes(image.names.signature, image.generic) + (
    if image.bootstrap_methods.len() == 0 {
        Seq::empty()
    } else {
        attribute_bytes(
            image.names.bootstrap_methods.unwrap(),
            bootstraps_body(image.bootstrap_methods),
        )
    })
}

/// The class file.
pub open spec fn class_file(image: ImageView) -> Seq<u8> {
    be32_bytes(0xcafe_babe) + be16_bytes(image.minor) + be16_bytes(image.major) + pool_bytes(
        image.pool,
    ) + be16_bytes(image.flags) + be16_bytes(image.this_class) + be16_bytes(image.super_class)
        + count_bytes(image.interfaces.len()) + u2_bytes(image.interfaces) + count_bytes(
        image.fields.len(),
    ) + each(image.fields, |field: FieldOut| field_bytes(image.names, field)) + count_bytes(
        image.methods.len(),
    ) + each(image.methods, |method: MethodView| method_bytes(image.names, method))
        + class_attributes(image)
}

fn put_u1(out: &mut Vec<u8>, value: u8)
    ensures
        final(out)@ == old(out)@ + seq![value],
{
    out.push(value);
    assert(out@ =~= old(out)@ + seq![value]);
}

fn put_u2(out: &mut Vec<u8>, value: u16)
    ensures
        final(out)@ == old(out)@ + be16_bytes(value),
{
    out.push((value / 0x100) as u8);
    out.push((value % 0x100) as u8);
    assert(out@ =~= old(out)@ + be16_bytes(value));
}

fn put_u4(out: &mut Vec<u8>, value: u32)
    ensures
        final(out)@ == old(out)@ + be32_bytes(value),
{
    put_u2(out, (value / 0x1_0000) as u16);
    put_u2(out, (value % 0x1_0000) as u16);
    assert(out@ =~= old(out)@ + be32_bytes(value));
}

fn put_u8(out: &mut Vec<u8>, value: u64)
    ensures
        final(out)@ == old(out)@ + be64_bytes(value),
{
    put_u4(out, (value / 0x1_0000_0000) as u32);
    put_u4(out, (value % 0x1_0000_0000) as u32);
    assert(out@ =~= old(out)@ + be64_bytes(value));
}

fn put_count(out: &mut Vec<u8>, length: usize)
    ensures
        final(out)@ == old(out)@ + count_bytes(length as nat),
{
    put_u2(out, (length % 0x1_0000) as u16);
}

fn put_length(out: &mut Vec<u8>, length: usize)
    ensures
        final(out)@ == old(out)@ + length_bytes(length as nat),
{
    put_u4(out, (length as u64 % 0x1_0000_0000) as u32);
}

fn write_attribute(out: &mut Vec<u8>, name: u16, body: &Vec<u8>)
    ensures
        final(out)@ == old(out)@ + attribute_bytes(name, body@),
{
    put_u2(out, name);
    put_length(out, body.len());
    put_bytes(out, body.as_slice());
    assert(out@ =~= old(out)@ + attribute_bytes(name, body@));
}

fn write_cp(out: &mut Vec<u8>, entry: &Cp)
    ensures
        final(out)@ == old(out)@ + cp_bytes(entry@),
{
    match entry {
        Cp::Empty => {},
        Cp::Utf8(text) => {
            put_u1(out, 1);
            put_count(out, text.len());
            put_bytes(out, text.as_slice());
        },
        Cp::Integer(value) => {
            put_u1(out, 3);
            put_u4(out, *value);
        },
        Cp::Float(bits) => {
            put_u1(out, 4);
            put_u4(out, *bits);
        },
        Cp::Long(value) => {
            put_u1(out, 5);
            put_u8(out, *value);
        },
        Cp::Double(bits) => {
            put_u1(out, 6);
            put_u8(out, *bits);
        },
        Cp::Class(name) => {
            put_u1(out, 7);
            put_u2(out, *name);
        },
        Cp::String(text) => {
            put_u1(out, 8);
            put_u2(out, *text);
        },
        Cp::Ref(tag, class, name_type) => {
            put_u1(out, *tag);
            put_u2(out, *class);
            put_u2(out, *name_type);
        },
        Cp::NameType(name, descriptor) => {
            put_u1(out, 12);
            put_u2(out, *name);
            put_u2(out, *descriptor);
        },
        Cp::MethodHandle(kind, reference) => {
            put_u1(out, 15);
            put_u1(out, *kind);
            put_u2(out, *reference);
        },
        Cp::MethodType(descriptor) => {
            put_u1(out, 16);
            put_u2(out, *descriptor);
        },
        Cp::InvokeDynamic(bootstrap, name_type) => {
            put_u1(out, 18);
            put_u2(out, *bootstrap);
            put_u2(out, *name_type);
        },
    }
    assert(out@ =~= old(out)@ + cp_bytes(entry@));
}

fn write_pool(out: &mut Vec<u8>, pool: &Vec<Cp>)
    requires
        1 <= pool@.len(),
    ensures
        final(out)@ == old(out)@ + pool_bytes(views(pool@)),
{
    put_count(out, pool.len());
    let ghost start = out@;
    let ghost entries = views(pool@).skip(1);
    let ghost written = |entry: CpView| cp_bytes(entry);
    let mut index: usize = 1;
    assert(entries.take(0) =~= Seq::empty());
    while index < pool.len()
        invariant
            entries == views(pool@).skip(1),
            written == (|entry: CpView| cp_bytes(entry)),
            1 <= index <= pool@.len(),
            out@ == start + each(entries.take(index - 1), written),
        decreases pool@.len() - index,
    {
        write_cp(out, &pool[index]);
        proof {
            each_step(entries, index - 1, written);
            assert(entries[index - 1] == pool@[index as int]@);
            assert(out@ =~= start + each(entries.take(index as int), written));
        }
        index += 1;
    }
    assert(entries.take(index - 1) =~= entries);
    assert(out@ =~= old(out)@ + pool_bytes(views(pool@)));
}

fn write_signature(out: &mut Vec<u8>, name: u16, signature: u16)
    ensures
        final(out)@ == old(out)@ + signature_bytes(name, signature),
{
    put_u2(out, name);
    put_u4(out, 2);
    put_u2(out, signature);
    assert(out@ =~= old(out)@ + signature_bytes(name, signature));
}

fn write_optional_signature(out: &mut Vec<u8>, name: Option<u16>, signature: Option<u16>)
    requires
        signature is Some ==> name is Some,
    ensures
        final(out)@ == old(out)@ + optional_signature_bytes(name, signature),
{
    if let Some(signature) = signature {
        write_signature(out, name.unwrap(), signature);
    } else {
        assert(out@ =~= old(out)@ + Seq::<u8>::empty());
    }
}

fn write_u2s(out: &mut Vec<u8>, values: &Vec<u16>, from: usize)
    requires
        from <= values@.len(),
    ensures
        final(out)@ == old(out)@ + u2_bytes(values@.skip(from as int)),
{
    let ghost start = out@;
    let ghost items = values@.skip(from as int);
    let ghost written = |value: u16| be16_bytes(value);
    let mut index: usize = from;
    assert(items.take(0) =~= Seq::empty());
    assert(out@ =~= start + each(items.take(0), written));
    while index < values.len()
        invariant
            from <= index <= values@.len(),
            items == values@.skip(from as int),
            written == (|value: u16| be16_bytes(value)),
            out@ == start + each(items.take(index - from), written),
        decreases values@.len() - index,
    {
        put_u2(out, values[index]);
        proof {
            each_step(items, index - from, written);
            assert(out@ =~= start + each(items.take(index + 1 - from), written));
        }
        index += 1;
    }
    assert(items.take(index - from) =~= items);
}

fn write_fields(out: &mut Vec<u8>, names: &AttributeNames, fields: &Vec<FieldOut>)
    requires
        forall|i: int|
            0 <= i < fields@.len() && (#[trigger] fields@[i]).generic is Some
                ==> names.signature is Some,
    ensures
        final(out)@ == old(out)@ + each(
            fields@,
            |field: FieldOut| field_bytes(*names, field),
        ),
{
    let ghost start = out@;
    let ghost written = |field: FieldOut| field_bytes(*names, field);
    let mut index: usize = 0;
    assert(fields@.take(0) =~= Seq::empty());
    assert(out@ =~= start + each(fields@.take(0), written));
    while index < fields.len()
        invariant
            index <= fields@.len(),
            forall|i: int|
                0 <= i < fields@.len() && (#[trigger] fields@[i]).generic is Some
                    ==> names.signature is Some,
            written == (|field: FieldOut| field_bytes(*names, field)),
            out@ == start + each(fields@.take(index as int), written),
        decreases fields@.len() - index,
    {
        let field = &fields[index];
        put_u2(out, field.flags);
        put_u2(out, field.name);
        put_u2(out, field.descriptor);
        put_count(out, usize_if(field.generic.is_some()));
        write_optional_signature(out, names.signature, field.generic);
        proof {
            each_step(fields@, index as int, written);
            assert(out@ =~= start + each(fields@.take(index + 1), written));
        }
        index += 1;
    }
    assert(fields@.take(index as int) =~= fields@);
}

fn usize_if(present: bool) -> (count: usize)
    ensures
        count == one_if(present),
{
    if present {
        1
    } else {
        0
    }
}

fn write_exceptions(out: &mut Vec<u8>, rows: &Vec<ExceptionOut>)
    ensures
        final(out)@ == old(out)@ + each(rows@, |row: ExceptionOut| exception_bytes(row)),
{
    let ghost start = out@;
    let ghost written = |row: ExceptionOut| exception_bytes(row);
    let mut index: usize = 0;
    assert(rows@.take(0) =~= Seq::empty());
    assert(out@ =~= start + each(rows@.take(0), written));
    while index < rows.len()
        invariant
            index <= rows@.len(),
            written == (|row: ExceptionOut| exception_bytes(row)),
            out@ == start + each(rows@.take(index as int), written),
        decreases rows@.len() - index,
    {
        let row = &rows[index];
        put_u2(out, row.start_pc);
        put_u2(out, row.end_pc);
        put_u2(out, row.handler_pc);
        put_u2(out, row.catch_type);
        proof {
            each_step(rows@, index as int, written);
            assert(out@ =~= start + each(rows@.take(index + 1), written));
        }
        index += 1;
    }
    assert(rows@.take(index as int) =~= rows@);
}

/// Writes a `Code` attribute under the name `name`. Nothing is written of code with a stack map if
/// the pool does not name such an attribute.
fn write_code(out: &mut Vec<u8>, name: u16, names: &AttributeNames, code: &CodeOut) -> (result:
    Result<(), Error>)
    ensures
        if code.stack_map is Some && names.stack_map is None {
            &&& result matches Err(error) && error@ == "StackMapTable CP entry"@
            &&& final(out)@ == old(out)@
        } else {
            &&& result is Ok
            &&& final(out)@ == old(out)@ + attribute_bytes(name, code_body(*names, code@))
        },
{
    let mut body: Vec<u8> = Vec::new();
    put_u2(&mut body, code.max_stack);
    put_u2(&mut body, code.max_locals);
    put_length(&mut body, code.bytes.len());
    put_bytes(&mut body, code.bytes.as_slice());
    put_count(&mut body, code.exceptions.len());
    write_exceptions(&mut body, &code.exceptions);
    put_count(&mut body, usize_if(code.stack_map.is_some()));
    if let Some(stack_map) = &code.stack_map {
        match names.stack_map {
            Some(stack_map_name) => {
                write_attribute(&mut body, stack_map_name, stack_map);
            },
            None => {
                return Err(Error::new("StackMapTable CP entry"));
            },
        }
    }
    assert(body@ =~= code_body(*names, code@));
    write_attribute(out, name, &body);
    Ok(())
}

fn write_method(out: &mut Vec<u8>, names: &AttributeNames, method: &MethodOut)
    requires
        method.code is Some ==> names.code is Some,
        method.code matches Some(code) && code.stack_map is Some ==> names.stack_map is Some,
        method.generic is Some ==> names.signature is Some,
    ensures
        final(out)@ == old(out)@ + method_bytes(*names, method@),
{
    put_u2(out, method.flags);
    put_u2(out, method.name);
    put_u2(out, method.descriptor);
    put_count(out, usize_if(method.code.is_some()) + usize_if(method.generic.is_some()));
    if let Some(code) = &method.code {
        let result = write_code(out, names.code.unwrap(), names, code);
        assert(result is Ok);
    }
    write_optional_signature(out, names.signature, method.generic);
    assert(out@ =~= old(out)@ + method_bytes(*names, method@));
}

/// Whether the attributes of each method have their names.
pub open spec fn methods_named(names: AttributeNames, methods: Seq<MethodView>) -> bool {
    &&& any_code(methods) ==> names.code is Some
    &&& any_stack_map(methods) ==> names.stack_map is Some
    &&& forall|i: int|
        0 <= i < methods.len() && (#[trigger] methods[i]).generic is Some
            ==> names.signature is Some
}

fn write_methods(out: &mut Vec<u8>, names: &AttributeNames, methods: &Vec<MethodOut>)
    requires
        methods_named(*names, views(methods@)),
    ensures
        final(out)@ == old(out)@ + each(
            views(methods@),
            |method: MethodView| method_bytes(*names, method),
        ),
{
    let ghost start = out@;
    let ghost items = views(methods@);
    let ghost written = |method: MethodView| method_bytes(*names, method);
    let mut index: usize = 0;
    assert(items.take(0) =~= Seq::empty());
    assert(out@ =~= start + each(items.take(0), written));
    while index < methods.len()
        invariant
            index <= methods@.len(),
            items == views(methods@),
            methods_named(*names, items),
            written == (|method: MethodView| method_bytes(*names, method)),
            out@ == start + each(items.take(index as int), written),
        decreases methods@.len() - index,
    {
        assert(items[index as int] == methods@[index as int]@);
        write_method(out, names, &methods[index]);
        proof {
            each_step(items, index as int, written);
            assert(out@ =~= start + each(items.take(index + 1), written));
        }
        index += 1;
    }
    assert(items.take(index as int) =~= items);
}

/// Whether bootstrap methods can be written: they fit their count, and each has a method handle.
pub open spec fn bootstraps_check(methods: Seq<Seq<u16>>) -> Outcome<()> {
    if methods.len() > 65535 {
        Err("too many bootstrap methods"@)
    } else if exists|i: int| 0 <= i < methods.len() && (#[trigger] methods[i]).len() == 0 {
        Err("empty bootstrap method"@)
    } else {
        Ok(())
    }
}

/// Writes the `BootstrapMethods` attribute under the name `name`, or nothing if the methods cannot
/// be written.
fn write_bootstrap_methods(out: &mut Vec<u8>, name: u16, methods: &Vec<Vec<u16>>) -> (result:
    Result<(), Error>)
    ensures
        plain(result) == bootstraps_check(views(methods@)),
        final(out)@ == match bootstraps_check(views(methods@)) {
            Err(_) => old(out)@,
            Ok(_) => old(out)@ + attribute_bytes(name, bootstraps_body(views(methods@))),
        },
{
    if methods.len() > 65535 {
        return Err(Error::new("too many bootstrap methods"));
    }
    let mut body: Vec<u8> = Vec::new();
    put_count(&mut body, methods.len());
    let ghost start = body@;
    let ghost items = views(methods@);
    let ghost written = |method: Seq<u16>| bootstrap_bytes(method);
    let mut index: usize = 0;
    assert(items.take(0) =~= Seq::empty());
    assert(body@ =~= start + each(items.take(0), written));
    while index < methods.len()
        invariant
            index <= methods@.len(),
            items == views(methods@),
            methods@.len() <= 65535,
            out@ == old(out)@,
            forall|i: int| 0 <= i < index ==> 1 <= (#[trigger] items[i]).len(),
            written == (|method: Seq<u16>| bootstrap_bytes(method)),
            body@ == start + each(items.take(index as int), written),
        decreases methods@.len() - index,
    {
        let method = &methods[index];
        assert(items[index as int] == method@);
        if method.len() == 0 {
            return Err(Error::new("empty bootstrap method"));
        }
        put_u2(&mut body, method[0]);
        put_count(&mut body, method.len() - 1);
        write_u2s(&mut body, method, 1);
        proof {
            each_step(items, index as int, written);
            assert(body@ =~= start + each(items.take(index + 1), written));
        }
        index += 1;
    }
    assert(items.take(index as int) =~= items);
    assert(body@ =~= bootstraps_body(items));
    write_attribute(out, name, &body);
    Ok(())
}

/// Encodes a class.
pub fn write_class_file(image: &ClassImage) -> (out: Vec<u8>)
    requires
        image@.wf(),
    ensures
        out@ == class_file(image@),
{
    let names = &image.names;
    let mut out: Vec<u8> = Vec::new();
    put_u4(&mut out, 0xcafe_babe);
    put_u2(&mut out, image.minor);
    put_u2(&mut out, image.major);
    write_pool(&mut out, &image.pool);
    put_u2(&mut out, image.flags);
    put_u2(&mut out, image.this_class);
    put_u2(&mut out, image.super_class);
    put_count(&mut out, image.interfaces.len());
    write_u2s(&mut out, &image.interfaces, 0);
    put_count(&mut out, image.fields.len());
    write_fields(&mut out, names, &image.fields);
    put_count(&mut out, image.methods.len());
    write_methods(&mut out, names, &image.methods);
    assert(image.interfaces@.skip(0) =~= image.interfaces@);
    let ghost before = out@;
    let bootstrap = image.bootstrap_methods.len() > 0;
    put_count(&mut out, usize_if(image.generic.is_some()) + usize_if(bootstrap));
    write_optional_signature(&mut out, names.signature, image.generic);
    if bootstrap {
        let result = write_bootstrap_methods(
            &mut out,
            names.bootstrap_methods.unwrap(),
            &image.bootstrap_methods,
        );
        assert(result is Ok);
    }
    assert(out@ =~= before + class_attributes(image@));
    assert(out@ =~= class_file(image@));
    out
}

/// Bootstrap methods are written if and only if their number fits in two bytes and each has a handle.
pub proof fn bootstraps_are_written_if_they_fit(methods: Seq<Seq<u16>>)
    ensures
        bootstraps_check(methods) is Ok <==> methods.len() < 65536 && forall|i: int|
            0 <= i < methods.len() ==> 1 <= (#[trigger] methods[i]).len(),
{
}

} // verus!
