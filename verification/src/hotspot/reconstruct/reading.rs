//! What a reader of class files finds in the files that are written.
use vstd::prelude::*;

use super::classfile::{
    attribute_bytes, bootstrap_bytes, bootstraps_body, bootstraps_fit, class_attributes,
    class_file, code_body, count_bytes, cp_bytes, each, exception_bytes, field_bytes, length_bytes,
    method_bytes, one_if, optional_signature_bytes, pool_bytes, u2_bytes, AttributeNames,
    ImageView,
};
use super::members::{CodeView, ExceptionOut, FieldOut, MethodView};
use super::pool::CpView;
use crate::bytes::{be16_bytes, be32_bytes, be64_bytes};

verus! {

/// Reads something at the start of some bytes: what it is, and the bytes behind it.
pub type Reader<T> = spec_fn(Seq<u8>) -> Option<(T, Seq<u8>)>;

/// Reads `count` bytes.
#[verifier::opaque]
pub open spec fn bytes_in(bytes: Seq<u8>, count: nat) -> Option<(Seq<u8>, Seq<u8>)> {
    if bytes.len() < count {
        None
    } else {
        Some((bytes.take(count as int), bytes.skip(count as int)))
    }
}

/// Reads a 16-bit number.
#[verifier::opaque]
pub open spec fn u2_in(bytes: Seq<u8>) -> Option<(u16, Seq<u8>)> {
    if bytes.len() < 2 {
        None
    } else {
        Some(((bytes[0] * 0x100 + bytes[1]) as u16, bytes.skip(2)))
    }
}

/// Reads a 32-bit number.
#[verifier::opaque]
pub open spec fn u4_in(bytes: Seq<u8>) -> Option<(u32, Seq<u8>)> {
    match u2_in(bytes) {
        None => None,
        Some((high, rest)) => match u2_in(rest) {
            None => None,
            Some((low, rest)) => Some(((high * 0x1_0000 + low) as u32, rest)),
        },
    }
}

/// Reads a 64-bit number.
#[verifier::opaque]
pub open spec fn u8_in(bytes: Seq<u8>) -> Option<(u64, Seq<u8>)> {
    match u4_in(bytes) {
        None => None,
        Some((high, rest)) => match u4_in(rest) {
            None => None,
            Some((low, rest)) => Some(((high * 0x1_0000_0000 + low) as u64, rest)),
        },
    }
}

/// Reads `count` things, one after the other.
pub open spec fn list_in<T>(reader: Reader<T>, bytes: Seq<u8>, count: nat) -> Option<
    (Seq<T>, Seq<u8>),
>
    decreases count,
{
    if count == 0 {
        Some((Seq::empty(), bytes))
    } else {
        match reader(bytes) {
            None => None,
            Some((item, rest)) => match list_in(reader, rest, (count - 1) as nat) {
                None => None,
                Some((items, rest)) => Some((seq![item] + items, rest)),
            },
        }
    }
}

/// Reads a count and as many things.
pub open spec fn counted_in<T>(reader: Reader<T>, bytes: Seq<u8>) -> Option<(Seq<T>, Seq<u8>)> {
    match u2_in(bytes) {
        None => None,
        Some((count, rest)) => list_in(reader, rest, count as nat),
    }
}

/// Reads an entry of a constant pool.
#[verifier::opaque]
pub open spec fn entry_in(bytes: Seq<u8>) -> Option<(CpView, Seq<u8>)> {
    if bytes.len() == 0 {
        None
    } else {
        let tag = bytes[0];
        let rest = bytes.skip(1);
        if tag == 1 {
            match u2_in(rest) {
                None => None,
                Some((length, rest)) => match bytes_in(rest, length as nat) {
                    None => None,
                    Some((text, rest)) => Some((CpView::Utf8(text), rest)),
                },
            }
        } else if tag == 3 || tag == 4 {
            match u4_in(rest) {
                None => None,
                Some((value, rest)) => if tag == 3 {
                    Some((CpView::Integer(value), rest))
                } else {
                    Some((CpView::Float(value), rest))
                },
            }
        } else if tag == 5 || tag == 6 {
            match u8_in(rest) {
                None => None,
                Some((value, rest)) => if tag == 5 {
                    Some((CpView::Long(value), rest))
                } else {
                    Some((CpView::Double(value), rest))
                },
            }
        } else if tag == 7 || tag == 8 || tag == 16 {
            match u2_in(rest) {
                None => None,
                Some((index, rest)) => if tag == 7 {
                    Some((CpView::Class(index), rest))
                } else if tag == 8 {
                    Some((CpView::String(index), rest))
                } else {
                    Some((CpView::MethodType(index), rest))
                },
            }
        } else if tag == 15 {
            if rest.len() == 0 {
                None
            } else {
                match u2_in(rest.skip(1)) {
                    None => None,
                    Some((index, behind)) => Some((CpView::MethodHandle(rest[0], index), behind)),
                }
            }
        } else if 9 <= tag <= 12 || tag == 18 {
            match u2_in(rest) {
                None => None,
                Some((first, rest)) => match u2_in(rest) {
                    None => None,
                    Some((second, rest)) => if tag == 12 {
                        Some((CpView::NameType(first, second), rest))
                    } else if tag == 18 {
                        Some((CpView::InvokeDynamic(first, second), rest))
                    } else {
                        Some((CpView::Ref(tag, first, second), rest))
                    },
                },
            }
        } else {
            None
        }
    }
}

/// Whether an entry takes two slots of the pool.
pub open spec fn is_wide(entry: CpView) -> bool {
    entry is Long || entry is Double
}

/// Reads as many entries as fill `slots` slots. The second slot of a wide entry is empty.
pub open spec fn entries_in(bytes: Seq<u8>, slots: nat) -> Option<(Seq<CpView>, Seq<u8>)>
    decreases slots,
{
    if slots == 0 {
        Some((Seq::empty(), bytes))
    } else {
        match entry_in(bytes) {
            None => None,
            Some((entry, rest)) => if !is_wide(entry) {
                match entries_in(rest, (slots - 1) as nat) {
                    None => None,
                    Some((entries, rest)) => Some((seq![entry] + entries, rest)),
                }
            } else if slots < 2 {
                None
            } else {
                match entries_in(rest, (slots - 2) as nat) {
                    None => None,
                    Some((entries, rest)) => Some((seq![entry, CpView::Empty] + entries, rest)),
                }
            },
        }
    }
}

/// Reads a constant pool: its count, then its entries behind the unused first one.
pub open spec fn pool_in(bytes: Seq<u8>) -> Option<(Seq<CpView>, Seq<u8>)> {
    match u2_in(bytes) {
        None => None,
        Some((count, rest)) => if count == 0 {
            None
        } else {
            match entries_in(rest, (count - 1) as nat) {
                None => None,
                Some((entries, rest)) => Some((seq![CpView::Empty] + entries, rest)),
            }
        },
    }
}

/// Reads an attribute: its name, and what it holds.
#[verifier::opaque]
pub open spec fn attribute_in(bytes: Seq<u8>) -> Option<((u16, Seq<u8>), Seq<u8>)> {
    match u2_in(bytes) {
        None => None,
        Some((name, rest)) => match u4_in(rest) {
            None => None,
            Some((length, rest)) => match bytes_in(rest, length as nat) {
                None => None,
                Some((body, rest)) => Some(((name, body), rest)),
            },
        },
    }
}

/// Reads a list of attributes with its count.
pub open spec fn attributes_in(bytes: Seq<u8>) -> Option<(Seq<(u16, Seq<u8>)>, Seq<u8>)> {
    counted_in(|bytes: Seq<u8>| attribute_in(bytes), bytes)
}

/// A field or a method, with its attributes.
pub struct MemberParts {
    pub flags: u16,
    pub name: u16,
    pub descriptor: u16,
    pub attributes: Seq<(u16, Seq<u8>)>,
}

/// Reads a field or a method.
pub open spec fn member_in(bytes: Seq<u8>) -> Option<(MemberParts, Seq<u8>)> {
    match u2_in(bytes) {
        None => None,
        Some((flags, rest)) => match u2_in(rest) {
            None => None,
            Some((name, rest)) => match u2_in(rest) {
                None => None,
                Some((descriptor, rest)) => match attributes_in(rest) {
                    None => None,
                    Some((attributes, rest)) => Some(
                        (MemberParts { flags, name, descriptor, attributes }, rest),
                    ),
                },
            },
        },
    }
}

/// The parts of a class file.
pub struct ClassParts {
    pub minor: u16,
    pub major: u16,
    pub pool: Seq<CpView>,
    pub flags: u16,
    pub this_class: u16,
    pub super_class: u16,
    pub interfaces: Seq<u16>,
    pub fields: Seq<MemberParts>,
    pub methods: Seq<MemberParts>,
    pub attributes: Seq<(u16, Seq<u8>)>,
}

/// Reads the lists of a class: its interfaces, its fields, its methods and its attributes.
pub open spec fn lists_in(bytes: Seq<u8>) -> Option<
    (Seq<u16>, Seq<MemberParts>, Seq<MemberParts>, Seq<(u16, Seq<u8>)>),
> {
    match counted_in(|bytes: Seq<u8>| u2_in(bytes), bytes) {
        None => None,
        Some((interfaces, rest)) => match counted_in(|bytes: Seq<u8>| member_in(bytes), rest) {
            None => None,
            Some((fields, rest)) => match counted_in(|bytes: Seq<u8>| member_in(bytes), rest) {
                None => None,
                Some((methods, rest)) => match attributes_in(rest) {
                    None => None,
                    Some((attributes, rest)) => if rest.len() == 0 {
                        Some((interfaces, fields, methods, attributes))
                    } else {
                        None
                    },
                },
            },
        },
    }
}

/// Reads what stands behind the constant pool of a class file.
pub open spec fn class_behind(
    bytes: Seq<u8>,
    minor: u16,
    major: u16,
    pool: Seq<CpView>,
) -> Option<ClassParts> {
    match u2_in(bytes) {
        None => None,
        Some((flags, rest)) => match u2_in(rest) {
            None => None,
            Some((this_class, rest)) => match u2_in(rest) {
                None => None,
                Some((super_class, rest)) => match lists_in(rest) {
                    None => None,
                    Some((interfaces, fields, methods, attributes)) => Some(
                        ClassParts {
                            minor,
                            major,
                            pool,
                            flags,
                            this_class,
                            super_class,
                            interfaces,
                            fields,
                            methods,
                            attributes,
                        },
                    ),
                },
            },
        },
    }
}

/// Reads a class file.
pub open spec fn class_in(bytes: Seq<u8>) -> Option<ClassParts> {
    match u4_in(bytes) {
        None => None,
        Some((magic, rest)) => if magic != 0xcafe_babe {
            None
        } else {
            match u2_in(rest) {
                None => None,
                Some((minor, rest)) => match u2_in(rest) {
                    None => None,
                    Some((major, rest)) => match pool_in(rest) {
                        None => None,
                        Some((pool, rest)) => class_behind(rest, minor, major, pool),
                    },
                },
            }
        },
    }
}

/// The attribute that holds a generic signature, if there is one.
pub open spec fn signature_attributes(name: Option<u16>, signature: Option<u16>) -> Seq<
    (u16, Seq<u8>),
> {
    match signature {
        None => Seq::empty(),
        Some(signature) => seq![(name.unwrap(), be16_bytes(signature))],
    }
}

/// The parts of a field.
pub open spec fn field_parts(names: AttributeNames, field: FieldOut) -> MemberParts {
    MemberParts {
        flags: field.flags,
        name: field.name,
        descriptor: field.descriptor,
        attributes: signature_attributes(names.signature, field.generic),
    }
}

/// The parts of a method.
pub open spec fn method_parts(names: AttributeNames, method: MethodView) -> MemberParts {
    MemberParts {
        flags: method.flags,
        name: method.name,
        descriptor: method.descriptor,
        attributes: (match method.code {
            None => Seq::empty(),
            Some(code) => seq![(names.code.unwrap(), code_body(names, code))],
        }) + signature_attributes(names.signature, method.generic),
    }
}

/// The parts of a class.
pub open spec fn class_parts(image: ImageView) -> ClassParts {
    ClassParts {
        minor: image.minor,
        major: image.major,
        pool: image.pool,
        flags: image.flags,
        this_class: image.this_class,
        super_class: image.super_class,
        interfaces: image.interfaces,
        fields: Seq::new(image.fields.len(), |i: int| field_parts(image.names, image.fields[i])),
        methods: Seq::new(
            image.methods.len(),
            |i: int| method_parts(image.names, image.methods[i]),
        ),
        attributes: signature_attributes(image.names.signature, image.generic) + (
        if image.bootstrap_methods.len() == 0 {
            Seq::empty()
        } else {
            seq![
                (
                    image.names.bootstrap_methods.unwrap(),
                    bootstraps_body(image.bootstrap_methods),
                ),
            ]
        }),
    }
}

/// Whether an entry can be told from its bytes: it is not empty, its text fits its length, and a
/// reference has the tag of one.
pub open spec fn is_tellable(entry: CpView) -> bool {
    match entry {
        CpView::Empty => false,
        CpView::Utf8(text) => text.len() <= 65535,
        CpView::Ref(tag, _, _) => 9 <= tag <= 11,
        _ => true,
    }
}

/// Whether the entries fill their slots as in a class file: an empty slot stands behind each wide
/// entry, and nowhere else.
pub open spec fn is_paired(entries: Seq<CpView>) -> bool
    decreases entries.len(),
{
    if entries.len() == 0 {
        true
    } else if !is_tellable(entries[0]) {
        false
    } else if is_wide(entries[0]) {
        entries.len() >= 2 && entries[1] is Empty && is_paired(entries.skip(2))
    } else {
        is_paired(entries.skip(1))
    }
}

/// Whether a pool is as in a class file.
pub open spec fn is_class_pool(pool: Seq<CpView>) -> bool {
    pool.len() > 0 && pool[0] is Empty && is_paired(pool.skip(1))
}

proof fn regroup(a: Seq<u8>, b: Seq<u8>, c: Seq<u8>)
    ensures
        (a + b) + c == a + (b + c),
{
    assert((a + b) + c =~= a + (b + c));
}

proof fn u2_reads(value: u16, rest: Seq<u8>)
    ensures
        u2_in(be16_bytes(value) + rest) == Some((value, rest)),
{
    reveal(u2_in);
    assert((be16_bytes(value) + rest).skip(2) =~= rest);
}

proof fn u4_reads(value: u32, rest: Seq<u8>)
    ensures
        u4_in(be32_bytes(value) + rest) == Some((value, rest)),
{
    reveal(u4_in);
    let high = (value / 0x1_0000) as u16;
    let low = (value % 0x1_0000) as u16;
    regroup(be16_bytes(high), be16_bytes(low), rest);
    u2_reads(high, be16_bytes(low) + rest);
    u2_reads(low, rest);
}

proof fn u8_reads(value: u64, rest: Seq<u8>)
    ensures
        u8_in(be64_bytes(value) + rest) == Some((value, rest)),
{
    reveal(u8_in);
    let high = (value / 0x1_0000_0000) as u32;
    let low = (value % 0x1_0000_0000) as u32;
    regroup(be32_bytes(high), be32_bytes(low), rest);
    u4_reads(high, be32_bytes(low) + rest);
    u4_reads(low, rest);
}

proof fn bytes_read(bytes: Seq<u8>, rest: Seq<u8>)
    ensures
        bytes_in(bytes + rest, bytes.len()) == Some((bytes, rest)),
{
    reveal(bytes_in);
    assert((bytes + rest).take(bytes.len() as int) =~= bytes);
    assert((bytes + rest).skip(bytes.len() as int) =~= rest);
}

/// A tag stands before what it marks.
proof fn tag_then(tag: u8, body: Seq<u8>, rest: Seq<u8>)
    ensures
        ((seq![tag] + body) + rest).len() > 0,
        ((seq![tag] + body) + rest)[0] == tag,
        ((seq![tag] + body) + rest).skip(1) == body + rest,
{
    assert(((seq![tag] + body) + rest).skip(1) =~= body + rest);
}

proof fn pair_reads(tag: u8, first: u16, second: u16, rest: Seq<u8>)
    ensures
        ({
            let bytes = ((seq![tag] + be16_bytes(first)) + be16_bytes(second)) + rest;
            &&& bytes.len() > 0
            &&& bytes[0] == tag
            &&& u2_in(bytes.skip(1)) == Some((first, be16_bytes(second) + rest))
            &&& u2_in(be16_bytes(second) + rest) == Some((second, rest))
        }),
{
    let a = be16_bytes(first);
    let b = be16_bytes(second);
    regroup(seq![tag], a, b);
    tag_then(tag, a + b, rest);
    regroup(a, b, rest);
    u2_reads(first, b + rest);
    u2_reads(second, rest);
}

proof fn text_reads(text: Seq<u8>, rest: Seq<u8>)
    requires
        text.len() <= 65535,
    ensures
        ({
            let bytes = ((seq![1u8] + count_bytes(text.len())) + text) + rest;
            &&& bytes.len() > 0
            &&& bytes[0] == 1
            &&& u2_in(bytes.skip(1)) == Some((text.len() as u16, text + rest))
            &&& bytes_in(text + rest, text.len()) == Some((text, rest))
        }),
{
    let length = count_bytes(text.len());
    regroup(seq![1u8], length, text);
    tag_then(1, length + text, rest);
    regroup(length, text, rest);
    u2_reads(text.len() as u16, text + rest);
    bytes_read(text, rest);
}

proof fn handle_reads(kind: u8, index: u16, rest: Seq<u8>)
    ensures
        ({
            let bytes = (seq![15u8, kind] + be16_bytes(index)) + rest;
            &&& bytes.len() > 0
            &&& bytes[0] == 15
            &&& bytes.skip(1).len() > 0
            &&& bytes.skip(1)[0] == kind
            &&& u2_in(bytes.skip(1).skip(1)) == Some((index, rest))
        }),
{
    let bytes = (seq![15u8, kind] + be16_bytes(index)) + rest;
    assert(bytes.skip(1).skip(1) =~= be16_bytes(index) + rest);
    u2_reads(index, rest);
}

/// An entry of the pool that can be told from its bytes is read back.
pub proof fn entry_reads_back(entry: CpView, rest: Seq<u8>)
    requires
        is_tellable(entry),
    ensures
        entry_in(cp_bytes(entry) + rest) == Some((entry, rest)),
{
    reveal(entry_in);
    match entry {
        CpView::Empty => {},
        CpView::Utf8(text) => {
            text_reads(text, rest);
        },
        CpView::Integer(value) => {
            tag_then(3, be32_bytes(value), rest);
            u4_reads(value, rest);
        },
        CpView::Float(value) => {
            tag_then(4, be32_bytes(value), rest);
            u4_reads(value, rest);
        },
        CpView::Long(value) => {
            tag_then(5, be64_bytes(value), rest);
            u8_reads(value, rest);
        },
        CpView::Double(value) => {
            tag_then(6, be64_bytes(value), rest);
            u8_reads(value, rest);
        },
        CpView::Class(index) => {
            tag_then(7, be16_bytes(index), rest);
            u2_reads(index, rest);
        },
        CpView::String(index) => {
            tag_then(8, be16_bytes(index), rest);
            u2_reads(index, rest);
        },
        CpView::MethodType(index) => {
            tag_then(16, be16_bytes(index), rest);
            u2_reads(index, rest);
        },
        CpView::MethodHandle(kind, index) => {
            handle_reads(kind, index, rest);
        },
        CpView::Ref(tag, first, second) => {
            pair_reads(tag, first, second, rest);
        },
        CpView::NameType(first, second) => {
            pair_reads(12, first, second, rest);
        },
        CpView::InvokeDynamic(first, second) => {
            pair_reads(18, first, second, rest);
        },
    }
}

/// What is written for a list starts with what is written for its first item.
proof fn each_from_the_front<T>(items: Seq<T>, written: spec_fn(T) -> Seq<u8>)
    requires
        items.len() > 0,
    ensures
        each(items, written) == written(items[0]) + each(items.skip(1), written),
    decreases items.len(),
{
    let front = items.drop_last();
    if front.len() == 0 {
        assert(items.skip(1) =~= Seq::empty());
        assert(each(front, written) =~= Seq::empty());
        assert(each(items.skip(1), written) =~= Seq::empty());
        assert(each(items, written) =~= written(items[0]) + each(items.skip(1), written));
    } else {
        each_from_the_front(front, written);
        assert(items.skip(1).drop_last() =~= front.skip(1));
        regroup(written(items[0]), each(front.skip(1), written), written(items.last()));
    }
}

/// A list whose items are read back is read back.
proof fn list_reads<S, T>(
    items: Seq<S>,
    written: spec_fn(S) -> Seq<u8>,
    reader: Reader<T>,
    shown: spec_fn(S) -> T,
    rest: Seq<u8>,
)
    requires
        forall|i: int, behind: Seq<u8>|
            0 <= i < items.len() ==> #[trigger] reader(written(items[i]) + behind) == Some(
                (shown(items[i]), behind),
            ),
    ensures
        list_in(reader, each(items, written) + rest, items.len()) == Some(
            (Seq::new(items.len(), |i: int| shown(items[i])), rest),
        ),
    decreases items.len(),
{
    let all = Seq::new(items.len(), |i: int| shown(items[i]));
    if items.len() == 0 {
        assert(each(items, written) + rest =~= rest);
        assert(all =~= Seq::empty());
    } else {
        let others = items.skip(1);
        each_from_the_front(items, written);
        regroup(written(items[0]), each(others, written), rest);
        let behind = each(others, written) + rest;
        assert(reader(written(items[0]) + behind) == Some((shown(items[0]), behind)));
        assert forall|i: int, behind: Seq<u8>| 0 <= i < others.len() implies #[trigger] reader(
            written(others[i]) + behind,
        ) == Some((shown(others[i]), behind)) by {
            assert(others[i] == items[i + 1]);
            assert(reader(written(items[i + 1]) + behind) == Some((shown(items[i + 1]), behind)));
        }
        list_reads(others, written, reader, shown, rest);
        assert(all =~= seq![shown(items[0])] + Seq::new(
            others.len(),
            |i: int| shown(others[i]),
        ));
    }
}

/// A list with its count is read back.
proof fn counted_reads<S, T>(
    items: Seq<S>,
    written: spec_fn(S) -> Seq<u8>,
    reader: Reader<T>,
    shown: spec_fn(S) -> T,
    rest: Seq<u8>,
)
    requires
        items.len() <= 65535,
        forall|i: int, behind: Seq<u8>|
            0 <= i < items.len() ==> #[trigger] reader(written(items[i]) + behind) == Some(
                (shown(items[i]), behind),
            ),
    ensures
        counted_in(reader, (count_bytes(items.len()) + each(items, written)) + rest) == Some(
            (Seq::new(items.len(), |i: int| shown(items[i])), rest),
        ),
{
    let body = each(items, written);
    regroup(count_bytes(items.len()), body, rest);
    u2_reads(items.len() as u16, body + rest);
    list_reads(items, written, reader, shown, rest);
}

proof fn entries_read(entries: Seq<CpView>, rest: Seq<u8>)
    requires
        is_paired(entries),
    ensures
        entries_in(each(entries, |entry: CpView| cp_bytes(entry)) + rest, entries.len()) == Some(
            (entries, rest),
        ),
    decreases entries.len(),
{
    let written = |entry: CpView| cp_bytes(entry);
    if entries.len() == 0 {
        assert(each(entries, written) + rest =~= rest);
        assert(entries =~= Seq::empty());
    } else {
        let first = entries[0];
        each_from_the_front(entries, written);
        if is_wide(first) {
            let others = entries.skip(2);
            each_from_the_front(entries.skip(1), written);
            assert(entries.skip(1).skip(1) =~= others);
            assert(written(entries[1]) + each(others, written) =~= each(others, written));
            regroup(written(first), each(others, written), rest);
            entry_reads_back(first, each(others, written) + rest);
            entries_read(others, rest);
            assert(entries =~= seq![first, CpView::Empty] + others);
        } else {
            let others = entries.skip(1);
            regroup(written(first), each(others, written), rest);
            entry_reads_back(first, each(others, written) + rest);
            entries_read(others, rest);
            assert(entries =~= seq![first] + others);
        }
    }
}

proof fn pool_reads(pool: Seq<CpView>, rest: Seq<u8>)
    requires
        is_class_pool(pool),
        pool.len() <= 65535,
    ensures
        pool_in(pool_bytes(pool) + rest) == Some((pool, rest)),
{
    let body = each(pool.skip(1), |entry: CpView| cp_bytes(entry));
    regroup(count_bytes(pool.len()), body, rest);
    u2_reads(pool.len() as u16, body + rest);
    entries_read(pool.skip(1), rest);
    assert(pool =~= seq![CpView::Empty] + pool.skip(1));
}

/// An attribute whose length fits is read back.
pub proof fn attribute_reads_back(name: u16, body: Seq<u8>, rest: Seq<u8>)
    requires
        body.len() <= u32::MAX,
    ensures
        attribute_in(attribute_bytes(name, body) + rest) == Some(((name, body), rest)),
{
    reveal(attribute_in);
    let length = length_bytes(body.len());
    regroup(be16_bytes(name) + length, body, rest);
    regroup(be16_bytes(name), length, body + rest);
    u2_reads(name, length + (body + rest));
    u4_reads(body.len() as u32, body + rest);
    bytes_read(body, rest);
}

/// What is written for attributes.
spec fn attribute_list(attributes: Seq<(u16, Seq<u8>)>) -> Seq<u8> {
    each(attributes, |attribute: (u16, Seq<u8>)| attribute_bytes(attribute.0, attribute.1))
}

proof fn attributes_read(attributes: Seq<(u16, Seq<u8>)>, rest: Seq<u8>)
    requires
        attributes.len() <= 65535,
        forall|i: int| 0 <= i < attributes.len() ==> (#[trigger] attributes[i]).1.len() <= u32::MAX,
    ensures
        attributes_in((count_bytes(attributes.len()) + attribute_list(attributes)) + rest) == Some(
            (attributes, rest),
        ),
{
    let written = |attribute: (u16, Seq<u8>)| attribute_bytes(attribute.0, attribute.1);
    let reader = |bytes: Seq<u8>| attribute_in(bytes);
    let shown = |attribute: (u16, Seq<u8>)| attribute;
    assert forall|i: int, behind: Seq<u8>| 0 <= i < attributes.len() implies #[trigger] reader(
        written(attributes[i]) + behind,
    ) == Some((shown(attributes[i]), behind)) by {
        attribute_reads_back(attributes[i].0, attributes[i].1, behind);
    }
    counted_reads(attributes, written, reader, shown, rest);
    assert(Seq::new(attributes.len(), |i: int| shown(attributes[i])) =~= attributes);
}

proof fn no_attributes()
    ensures
        attribute_list(Seq::empty()) == Seq::<u8>::empty(),
{
}

proof fn one_attribute(attribute: (u16, Seq<u8>))
    ensures
        attribute_list(seq![attribute]) == attribute_bytes(attribute.0, attribute.1),
{
    let written = |attribute: (u16, Seq<u8>)| attribute_bytes(attribute.0, attribute.1);
    assert(seq![attribute].drop_last() =~= Seq::empty());
    assert(each(Seq::<(u16, Seq<u8>)>::empty(), written) =~= Seq::empty());
    assert(attribute_list(seq![attribute]) =~= attribute_bytes(attribute.0, attribute.1));
}

proof fn two_attributes(first: (u16, Seq<u8>), second: (u16, Seq<u8>))
    ensures
        attribute_list(seq![first, second]) == attribute_bytes(first.0, first.1) + attribute_bytes(
            second.0,
            second.1,
        ),
{
    one_attribute(first);
    assert(seq![first, second].drop_last() =~= seq![first]);
}

proof fn member_reads(parts: MemberParts, rest: Seq<u8>)
    requires
        parts.attributes.len() <= 65535,
        forall|i: int|
            0 <= i < parts.attributes.len() ==> (#[trigger] parts.attributes[i]).1.len()
                <= u32::MAX,
    ensures
        member_in(
            (((be16_bytes(parts.flags) + be16_bytes(parts.name)) + be16_bytes(parts.descriptor)) + (
            count_bytes(parts.attributes.len()) + attribute_list(parts.attributes))) + rest,
        ) == Some((parts, rest)),
{
    let flags = be16_bytes(parts.flags);
    let name = be16_bytes(parts.name);
    let descriptor = be16_bytes(parts.descriptor);
    let list = count_bytes(parts.attributes.len()) + attribute_list(parts.attributes);
    regroup((flags + name) + descriptor, list, rest);
    regroup(flags + name, descriptor, list + rest);
    regroup(flags, name, descriptor + (list + rest));
    u2_reads(parts.flags, name + (descriptor + (list + rest)));
    u2_reads(parts.name, descriptor + (list + rest));
    u2_reads(parts.descriptor, list + rest);
    attributes_read(parts.attributes, rest);
}

/// A field is read back.
proof fn field_reads(names: AttributeNames, field: FieldOut, rest: Seq<u8>)
    requires
        field.generic is Some ==> names.signature is Some,
    ensures
        member_in(field_bytes(names, field) + rest) == Some((field_parts(names, field), rest)),
{
    let parts = field_parts(names, field);
    no_attributes();
    if let Some(signature) = field.generic {
        one_attribute((names.signature.unwrap(), be16_bytes(signature)));
    }
    member_reads(parts, rest);
    let head = (be16_bytes(field.flags) + be16_bytes(field.name)) + be16_bytes(field.descriptor);
    regroup(
        head,
        count_bytes(parts.attributes.len()),
        optional_signature_bytes(names.signature, field.generic),
    );
}

/// How long the body of a `Code` attribute is.
proof fn code_body_fits(names: AttributeNames, code: CodeView)
    requires
        code.wf(),
    ensures
        code_body(names, code).len() <= u32::MAX,
{
    exceptions_length(code.exceptions);
}

proof fn exceptions_length(rows: Seq<ExceptionOut>)
    ensures
        each(rows, |row: ExceptionOut| exception_bytes(row)).len() == 8 * rows.len(),
    decreases rows.len(),
{
    if rows.len() > 0 {
        exceptions_length(rows.drop_last());
    }
}

/// A method is read back.
proof fn method_reads(names: AttributeNames, method: MethodView, rest: Seq<u8>)
    requires
        method.wf(),
        method.code is Some ==> names.code is Some,
        method.generic is Some ==> names.signature is Some,
    ensures
        member_in(method_bytes(names, method) + rest) == Some((method_parts(names, method), rest)),
{
    let parts = method_parts(names, method);
    let head = (be16_bytes(method.flags) + be16_bytes(method.name)) + be16_bytes(method.descriptor);
    let signature = optional_signature_bytes(names.signature, method.generic);
    let count = count_bytes(parts.attributes.len());
    no_attributes();
    match method.code {
        None => {
            if let Some(index) = method.generic {
                one_attribute((names.signature.unwrap(), be16_bytes(index)));
            }
            assert(parts.attributes =~= signature_attributes(names.signature, method.generic));
            assert(((head + count) + Seq::<u8>::empty()) + signature =~= head + (count + signature));
        },
        Some(code) => {
            let body = code_body(names, code);
            let attribute = (names.code.unwrap(), body);
            code_body_fits(names, code);
            match method.generic {
                None => {
                    one_attribute(attribute);
                    assert(parts.attributes =~= seq![attribute]);
                },
                Some(index) => {
                    let second = (names.signature.unwrap(), be16_bytes(index));
                    two_attributes(attribute, second);
                    assert(parts.attributes =~= seq![attribute, second]);
                },
            }
            let written = attribute_bytes(attribute.0, attribute.1);
            assert(((head + count) + written) + signature =~= head + (count + (written
                + signature)));
            assert(written + Seq::<u8>::empty() =~= written);
        },
    }
    member_reads(parts, rest);
}

proof fn u2s_length(values: Seq<u16>)
    ensures
        u2_bytes(values).len() == 2 * values.len(),
    decreases values.len(),
{
    if values.len() > 0 {
        u2s_length(values.drop_last());
    }
}

proof fn bootstraps_length(methods: Seq<Seq<u16>>)
    requires
        forall|i: int| 0 <= i < methods.len() ==> 1 <= (#[trigger] methods[i]).len() <= 65536,
    ensures
        each(methods, |method: Seq<u16>| bootstrap_bytes(method)).len() <= 131074 * methods.len(),
    decreases methods.len(),
{
    if methods.len() > 0 {
        let others = methods.drop_last();
        assert forall|i: int| 0 <= i < others.len() implies 1 <= (#[trigger] others[i]).len()
            <= 65536 by {
            assert(others[i] == methods[i]);
        }
        bootstraps_length(others);
        let last = methods.last();
        assert(last == methods[methods.len() - 1]);
        u2s_length(last.skip(1));
    }
}

proof fn class_attributes_read(image: ImageView)
    requires
        image.wf(),
    ensures
        attributes_in(class_attributes(image)) == Some(
            (class_parts(image).attributes, Seq::<u8>::empty()),
        ),
{
    let attributes = class_parts(image).attributes;
    let count = count_bytes(attributes.len());
    let signature = optional_signature_bytes(image.names.signature, image.generic);
    no_attributes();
    if image.bootstrap_methods.len() == 0 {
        if let Some(index) = image.generic {
            one_attribute((image.names.signature.unwrap(), be16_bytes(index)));
        }
        assert(attributes =~= signature_attributes(image.names.signature, image.generic));
        assert(class_attributes(image) =~= (count + attribute_list(attributes))
            + Seq::<u8>::empty());
    } else {
        let body = bootstraps_body(image.bootstrap_methods);
        let attribute = (image.names.bootstrap_methods.unwrap(), body);
        bootstraps_length(image.bootstrap_methods);
        match image.generic {
            None => {
                one_attribute(attribute);
                assert(attributes =~= seq![attribute]);
            },
            Some(index) => {
                let first = (image.names.signature.unwrap(), be16_bytes(index));
                two_attributes(first, attribute);
                assert(attributes =~= seq![first, attribute]);
            },
        }
        assert(class_attributes(image) =~= (count + attribute_list(attributes))
            + Seq::<u8>::empty());
    }
    attributes_read(attributes, Seq::empty());
}

proof fn lists_read(image: ImageView)
    requires
        image.wf(),
    ensures
        ({
            let parts = class_parts(image);
            let interfaces = count_bytes(image.interfaces.len()) + u2_bytes(image.interfaces);
            let fields = count_bytes(image.fields.len()) + each(
                image.fields,
                |field: FieldOut| field_bytes(image.names, field),
            );
            let methods = count_bytes(image.methods.len()) + each(
                image.methods,
                |method: MethodView| method_bytes(image.names, method),
            );
            lists_in(interfaces + (fields + (methods + class_attributes(image)))) == Some(
                (parts.interfaces, parts.fields, parts.methods, parts.attributes),
            )
        }),
{
    let parts = class_parts(image);
    let names = image.names;
    let attributes = class_attributes(image);
    class_attributes_read(image);

    let write_method = |method: MethodView| method_bytes(names, method);
    let show_method = |method: MethodView| method_parts(names, method);
    let read_member = |bytes: Seq<u8>| member_in(bytes);
    assert forall|i: int, behind: Seq<u8>|
        0 <= i < image.methods.len() implies #[trigger] read_member(
        write_method(image.methods[i]) + behind,
    ) == Some((show_method(image.methods[i]), behind)) by {
        assert(image.methods[i].wf());
        method_reads(names, image.methods[i], behind);
    }
    counted_reads(image.methods, write_method, read_member, show_method, attributes);
    assert(Seq::new(image.methods.len(), |i: int| show_method(image.methods[i]))
        =~= parts.methods);
    let methods = count_bytes(image.methods.len()) + each(image.methods, write_method);

    let write_field = |field: FieldOut| field_bytes(names, field);
    let show_field = |field: FieldOut| field_parts(names, field);
    assert forall|i: int, behind: Seq<u8>|
        0 <= i < image.fields.len() implies #[trigger] read_member(
        write_field(image.fields[i]) + behind,
    ) == Some((show_field(image.fields[i]), behind)) by {
        field_reads(names, image.fields[i], behind);
    }
    counted_reads(image.fields, write_field, read_member, show_field, methods + attributes);
    assert(Seq::new(image.fields.len(), |i: int| show_field(image.fields[i])) =~= parts.fields);
    let fields = count_bytes(image.fields.len()) + each(image.fields, write_field);

    u2s_read(image.interfaces, fields + (methods + attributes));
}

proof fn u2s_read(values: Seq<u16>, rest: Seq<u8>)
    requires
        values.len() <= 65535,
    ensures
        counted_in(
            |bytes: Seq<u8>| u2_in(bytes),
            (count_bytes(values.len()) + u2_bytes(values)) + rest,
        ) == Some((values, rest)),
{
    let written = |value: u16| be16_bytes(value);
    let reader = |bytes: Seq<u8>| u2_in(bytes);
    let shown = |value: u16| value;
    assert forall|i: int, behind: Seq<u8>| 0 <= i < values.len() implies #[trigger] reader(
        written(values[i]) + behind,
    ) == Some((shown(values[i]), behind)) by {
        u2_reads(values[i], behind);
    }
    counted_reads(values, written, reader, shown, rest);
    assert(Seq::new(values.len(), |i: int| shown(values[i])) =~= values);
}

/// A class file is read back: a reader finds the versions, the constant pool, the flags, the
/// indices, the members and the attributes that were written, and nothing else. This holds of
/// every class whose pool is that of a class file.
pub proof fn class_file_reads_back(image: ImageView)
    requires
        image.wf(),
        is_class_pool(image.pool),
    ensures
        class_in(class_file(image)) == Some(class_parts(image)),
{
    let magic = be32_bytes(0xcafe_babe);
    let minor = be16_bytes(image.minor);
    let major = be16_bytes(image.major);
    let pool = pool_bytes(image.pool);
    let flags = be16_bytes(image.flags);
    let this_class = be16_bytes(image.this_class);
    let super_class = be16_bytes(image.super_class);
    let interface_count = count_bytes(image.interfaces.len());
    let interfaces = u2_bytes(image.interfaces);
    let field_count = count_bytes(image.fields.len());
    let fields = each(image.fields, |field: FieldOut| field_bytes(image.names, field));
    let method_count = count_bytes(image.methods.len());
    let methods = each(image.methods, |method: MethodView| method_bytes(image.names, method));
    let attributes = class_attributes(image);

    let head = ((((((magic + minor) + major) + pool) + flags) + this_class) + super_class);
    let lists = (interface_count + interfaces) + ((field_count + fields) + ((method_count + methods)
        + attributes));
    class_file_in_two(image);
    assert(class_file(image) == head + lists);

    let behind_pool = flags + (this_class + (super_class + lists));
    regroup(((((magic + minor) + major) + pool) + flags) + this_class, super_class, lists);
    regroup((((magic + minor) + major) + pool) + flags, this_class, super_class + lists);
    regroup(((magic + minor) + major) + pool, flags, this_class + (super_class + lists));
    regroup((magic + minor) + major, pool, behind_pool);
    regroup(magic + minor, major, pool + behind_pool);
    regroup(magic, minor, major + (pool + behind_pool));

    u4_reads(0xcafe_babe, minor + (major + (pool + behind_pool)));
    u2_reads(image.minor, major + (pool + behind_pool));
    u2_reads(image.major, pool + behind_pool);
    pool_reads(image.pool, behind_pool);
    u2_reads(image.flags, this_class + (super_class + lists));
    u2_reads(image.this_class, super_class + lists);
    u2_reads(image.super_class, lists);
    lists_read(image);
}

/// A class file is what stands before its lists, and its lists.
proof fn class_file_in_two(image: ImageView)
    ensures
        ({
            let head = ((((((be32_bytes(0xcafe_babe) + be16_bytes(image.minor)) + be16_bytes(
                image.major,
            )) + pool_bytes(image.pool)) + be16_bytes(image.flags)) + be16_bytes(image.this_class))
                + be16_bytes(image.super_class));
            let interfaces = count_bytes(image.interfaces.len()) + u2_bytes(image.interfaces);
            let fields = count_bytes(image.fields.len()) + each(
                image.fields,
                |field: FieldOut| field_bytes(image.names, field),
            );
            let methods = count_bytes(image.methods.len()) + each(
                image.methods,
                |method: MethodView| method_bytes(image.names, method),
            );
            class_file(image) == head + (interfaces + (fields + (methods + class_attributes(
                image,
            ))))
        }),
{
    let head = ((((((be32_bytes(0xcafe_babe) + be16_bytes(image.minor)) + be16_bytes(image.major))
        + pool_bytes(image.pool)) + be16_bytes(image.flags)) + be16_bytes(image.this_class))
        + be16_bytes(image.super_class));
    let a = count_bytes(image.interfaces.len());
    let b = u2_bytes(image.interfaces);
    let c = count_bytes(image.fields.len());
    let d = each(image.fields, |field: FieldOut| field_bytes(image.names, field));
    let e = count_bytes(image.methods.len());
    let f = each(image.methods, |method: MethodView| method_bytes(image.names, method));
    let g = class_attributes(image);
    let whole = (((((head + a) + b) + c) + d) + e) + f;
    assert(class_file(image) == whole + g);
    regroup(head, a, b);
    regroup(head + (a + b), c, d);
    regroup((head + (a + b)) + (c + d), e, f);
    assert(whole == ((head + (a + b)) + (c + d)) + (e + f));
    regroup((head + (a + b)) + (c + d), e + f, g);
    regroup(head + (a + b), c + d, (e + f) + g);
    regroup(head, a + b, (c + d) + ((e + f) + g));
}

/// The parts of a `Code` attribute.
pub struct CodeParts {
    pub max_stack: u16,
    pub max_locals: u16,
    pub bytes: Seq<u8>,
    pub exceptions: Seq<ExceptionOut>,
    pub attributes: Seq<(u16, Seq<u8>)>,
}

/// Reads a row of an exception table.
pub open spec fn exception_in(bytes: Seq<u8>) -> Option<(ExceptionOut, Seq<u8>)> {
    match u2_in(bytes) {
        None => None,
        Some((start_pc, rest)) => match u2_in(rest) {
            None => None,
            Some((end_pc, rest)) => match u2_in(rest) {
                None => None,
                Some((handler_pc, rest)) => match u2_in(rest) {
                    None => None,
                    Some((catch_type, rest)) => Some(
                        (ExceptionOut { start_pc, end_pc, handler_pc, catch_type }, rest),
                    ),
                },
            },
        },
    }
}

/// Reads what stands behind the bytecodes in a `Code` attribute.
pub open spec fn code_behind(bytes: Seq<u8>, max_stack: u16, max_locals: u16, code: Seq<u8>) -> Option<
    CodeParts,
> {
    match counted_in(|bytes: Seq<u8>| exception_in(bytes), bytes) {
        None => None,
        Some((exceptions, rest)) => match attributes_in(rest) {
            None => None,
            Some((attributes, rest)) => if rest.len() == 0 {
                Some(CodeParts { max_stack, max_locals, bytes: code, exceptions, attributes })
            } else {
                None
            },
        },
    }
}

/// Reads what a `Code` attribute holds.
pub open spec fn code_in(bytes: Seq<u8>) -> Option<CodeParts> {
    match u2_in(bytes) {
        None => None,
        Some((max_stack, rest)) => match u2_in(rest) {
            None => None,
            Some((max_locals, rest)) => match u4_in(rest) {
                None => None,
                Some((length, rest)) => match bytes_in(rest, length as nat) {
                    None => None,
                    Some((code, rest)) => code_behind(rest, max_stack, max_locals, code),
                },
            },
        },
    }
}

/// The parts of the code of a method.
pub open spec fn code_parts(names: AttributeNames, code: CodeView) -> CodeParts {
    CodeParts {
        max_stack: code.max_stack,
        max_locals: code.max_locals,
        bytes: code.bytes,
        exceptions: code.exceptions,
        attributes: match code.stack_map {
            None => Seq::empty(),
            Some(stack_map) => seq![(names.stack_map.unwrap(), stack_map)],
        },
    }
}

proof fn exception_reads(row: ExceptionOut, rest: Seq<u8>)
    ensures
        exception_in(exception_bytes(row) + rest) == Some((row, rest)),
{
    let a = be16_bytes(row.start_pc);
    let b = be16_bytes(row.end_pc);
    let c = be16_bytes(row.handler_pc);
    let d = be16_bytes(row.catch_type);
    regroup((a + b) + c, d, rest);
    regroup(a + b, c, d + rest);
    regroup(a, b, c + (d + rest));
    u2_reads(row.start_pc, b + (c + (d + rest)));
    u2_reads(row.end_pc, c + (d + rest));
    u2_reads(row.handler_pc, d + rest);
    u2_reads(row.catch_type, rest);
}

/// The code of a method is read back from its attribute: the limits, the bytecodes, the exception
/// table and the stack map.
pub proof fn code_reads_back(names: AttributeNames, code: CodeView)
    requires
        code.wf(),
        code.stack_map is Some ==> names.stack_map is Some,
    ensures
        code_in(code_body(names, code)) == Some(code_parts(names, code)),
{
    let parts = code_parts(names, code);
    let max_stack = be16_bytes(code.max_stack);
    let max_locals = be16_bytes(code.max_locals);
    let length = length_bytes(code.bytes.len());
    let bytes = code.bytes;
    let row_count = count_bytes(code.exceptions.len());
    let rows = each(code.exceptions, |row: ExceptionOut| exception_bytes(row));
    let count = count_bytes(one_if(code.stack_map is Some));
    let stack_map = match code.stack_map {
        None => Seq::empty(),
        Some(stack_map) => attribute_bytes(names.stack_map.unwrap(), stack_map),
    };
    let table = row_count + rows;
    let attributes = count + stack_map;
    let start = ((max_stack + max_locals) + length) + bytes;
    assert(code_body(names, code) == (((start + row_count) + rows) + count) + stack_map);
    regroup(start, row_count, rows);
    regroup(start + table, count, stack_map);
    regroup(start, table, attributes);
    regroup((max_stack + max_locals) + length, bytes, table + attributes);
    regroup(max_stack + max_locals, length, bytes + (table + attributes));
    regroup(max_stack, max_locals, length + (bytes + (table + attributes)));

    u2_reads(code.max_stack, max_locals + (length + (bytes + (table + attributes))));
    u2_reads(code.max_locals, length + (bytes + (table + attributes)));
    u4_reads(code.bytes.len() as u32, bytes + (table + attributes));
    bytes_read(bytes, table + attributes);

    let written = |row: ExceptionOut| exception_bytes(row);
    let reader = |bytes: Seq<u8>| exception_in(bytes);
    let shown = |row: ExceptionOut| row;
    assert forall|i: int, behind: Seq<u8>| 0 <= i < code.exceptions.len() implies #[trigger] reader(
        written(code.exceptions[i]) + behind,
    ) == Some((shown(code.exceptions[i]), behind)) by {
        exception_reads(code.exceptions[i], behind);
    }
    counted_reads(code.exceptions, written, reader, shown, attributes);
    assert(Seq::new(code.exceptions.len(), |i: int| shown(code.exceptions[i]))
        =~= code.exceptions);

    no_attributes();
    if let Some(map) = code.stack_map {
        one_attribute((names.stack_map.unwrap(), map));
    }
    assert(attributes =~= (count_bytes(parts.attributes.len()) + attribute_list(parts.attributes))
        + Seq::<u8>::empty());
    attributes_read(parts.attributes, Seq::empty());
}

/// Reads a bootstrap method: its method handle, followed by its arguments.
pub open spec fn bootstrap_in(bytes: Seq<u8>) -> Option<(Seq<u16>, Seq<u8>)> {
    match u2_in(bytes) {
        None => None,
        Some((handle, rest)) => match counted_in(|bytes: Seq<u8>| u2_in(bytes), rest) {
            None => None,
            Some((arguments, rest)) => Some((seq![handle] + arguments, rest)),
        },
    }
}

/// The bootstrap methods are read back from their attribute.
pub proof fn bootstraps_read_back(methods: Seq<Seq<u16>>)
    requires
        bootstraps_fit(methods),
    ensures
        counted_in(|bytes: Seq<u8>| bootstrap_in(bytes), bootstraps_body(methods)) == Some(
            (methods, Seq::<u8>::empty()),
        ),
{
    let written = |method: Seq<u16>| bootstrap_bytes(method);
    let reader = |bytes: Seq<u8>| bootstrap_in(bytes);
    let shown = |method: Seq<u16>| method;
    assert forall|i: int, behind: Seq<u8>| 0 <= i < methods.len() implies #[trigger] reader(
        written(methods[i]) + behind,
    ) == Some((shown(methods[i]), behind)) by {
        let method = methods[i];
        let handle = be16_bytes(method[0]);
        let arguments = method.skip(1);
        let list = count_bytes(arguments.len()) + u2_bytes(arguments);
        regroup(handle, count_bytes(arguments.len()), u2_bytes(arguments));
        regroup(handle, list, behind);
        u2_reads(method[0], list + behind);
        u2s_read(arguments, behind);
        assert(seq![method[0]] + arguments =~= method);
    }
    counted_reads(methods, written, reader, shown, Seq::empty());
    assert(Seq::new(methods.len(), |i: int| shown(methods[i])) =~= methods);
    assert(bootstraps_body(methods) + Seq::<u8>::empty() =~= bootstraps_body(methods));
}

} // verus!
