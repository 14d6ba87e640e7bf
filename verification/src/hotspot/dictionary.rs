//! The classes of HotSpot's system dictionary.
use std::collections::HashSet;
use vstd::prelude::*;

use super::vmstructs::{first_entry, EntryView, VmStructTable};
use crate::lists::{views, views_push};
use crate::platform::{read_bytes, u16_at, u32_at, u64_at, Contents, RemoteMemory};
use crate::text::{
    address_chars, address_text, bytes_order_is_total, bytes_order_is_transitive, decimal_digits,
    decimal_text, joined, plain, seen, text_from_utf8, text_in_order, text_ordered, utf8_text,
    with_context, Error, Outcome,
};

verus! {

broadcast use vstd::std_specs::hash::group_hash_axioms;

/// The most buckets that a dictionary is believed to have.
pub const MAX_BUCKETS: u32 = 1_000_000;

/// The most entries that a dictionary is believed to have.
pub const MAX_ENTRIES: usize = 10_000_000;

/// A loaded class: the address of its `Klass` and its name in internal form.
#[derive(Debug, Clone)]
pub struct DiscoveredClass {
    pub klass: u64,
    pub internal_name: String,
}

/// A loaded class, its name as a sequence of characters.
pub struct ClassView {
    pub klass: u64,
    pub internal_name: Seq<char>,
}

impl View for DiscoveredClass {
    type V = ClassView;

    open spec fn view(&self) -> ClassView {
        ClassView { klass: self.klass, internal_name: self.internal_name@ }
    }
}

/// Whether classes stand in the order of their names.
pub open spec fn sorted_by_name(classes: Seq<ClassView>) -> bool {
    forall|i: int, j: int|
        0 <= i <= j < classes.len() ==> text_ordered(
            classes[i].internal_name,
            classes[j].internal_name,
        )
}

/// Whether `sorted` holds the classes of `classes`, each as often, in the order of their names.
pub open spec fn sorted_arrangement(sorted: Seq<ClassView>, classes: Seq<ClassView>) -> bool {
    &&& sorted_by_name(sorted)
    &&& sorted.to_multiset() == classes.to_multiset()
}

/// Whether no name of `classes` comes after one of `later`.
spec fn none_after(classes: Seq<ClassView>, later: Seq<ClassView>) -> bool {
    forall|i: int, j: int|
        0 <= i < classes.len() && 0 <= j < later.len() ==> text_ordered(
            classes[i].internal_name,
            later[j].internal_name,
        )
}

/// Whether classes stand in the opposite order of their names.
spec fn sorted_backwards(classes: Seq<ClassView>) -> bool {
    forall|i: int, j: int|
        0 <= i <= j < classes.len() ==> text_ordered(
            classes[j].internal_name,
            classes[i].internal_name,
        )
}

/// The last class of `from` comes after all that is left and before all that was taken.
proof fn taking_the_last(from: Seq<ClassView>, other: Seq<ClassView>, taken: Seq<ClassView>)
    requires
        from.len() > 0,
        sorted_by_name(from),
        sorted_by_name(other),
        sorted_backwards(taken),
        none_after(from, taken),
        none_after(other, taken),
        other.len() > 0 ==> text_ordered(other.last().internal_name, from.last().internal_name),
    ensures
        sorted_by_name(from.drop_last()),
        sorted_backwards(taken.push(from.last())),
        none_after(from.drop_last(), taken.push(from.last())),
        none_after(other, taken.push(from.last())),
        from.to_multiset() == from.drop_last().to_multiset().insert(from.last()),
        taken.push(from.last()).to_multiset() == taken.to_multiset().insert(from.last()),
{
    broadcast use vstd::seq_lib::group_to_multiset_ensures;

    let item = from.last();
    let more = taken.push(item);
    assert(from =~= from.drop_last().push(item));
    assert(text_ordered(item.internal_name, item.internal_name)) by {
        assert(text_ordered(from[from.len() - 1].internal_name, from[from.len() - 1].internal_name));
    }
    assert forall|i: int, j: int| 0 <= i <= j < more.len() implies text_ordered(
        more[j].internal_name,
        more[i].internal_name,
    ) by {
        if j == taken.len() && i < j {
            assert(text_ordered(from[from.len() - 1].internal_name, taken[i].internal_name));
        }
    }
    assert forall|i: int, j: int|
        0 <= i < from.drop_last().len() && 0 <= j < more.len() implies text_ordered(
        from.drop_last()[i].internal_name,
        more[j].internal_name,
    ) by {
        if j == taken.len() {
            assert(text_ordered(from[i].internal_name, from[from.len() - 1].internal_name));
        } else {
            assert(text_ordered(from[i].internal_name, taken[j].internal_name));
        }
    }
    assert forall|i: int, j: int| 0 <= i < other.len() && 0 <= j < more.len() implies text_ordered(
        other[i].internal_name,
        more[j].internal_name,
    ) by {
        if j == taken.len() {
            assert(text_ordered(other[i].internal_name, other[other.len() - 1].internal_name));
            bytes_order_is_transitive(
                vstd::utf8::encode_utf8(other[i].internal_name),
                vstd::utf8::encode_utf8(other.last().internal_name),
                vstd::utf8::encode_utf8(item.internal_name),
            );
        } else {
            assert(text_ordered(other[i].internal_name, taken[j].internal_name));
        }
    }
}

proof fn multiset_push(classes: Seq<ClassView>, class: ClassView)
    ensures
        classes.push(class).to_multiset() == classes.to_multiset().insert(class),
{
    broadcast use vstd::seq_lib::group_to_multiset_ensures;

}

/// Merges two lists that are in the order of names.
fn merged(left: Vec<DiscoveredClass>, right: Vec<DiscoveredClass>) -> (out: Vec<DiscoveredClass>)
    requires
        sorted_by_name(views(left@)),
        sorted_by_name(views(right@)),
    ensures
        sorted_by_name(views(out@)),
        views(out@).to_multiset() == views(left@).to_multiset().add(views(right@).to_multiset()),
{
    broadcast use vstd::seq_lib::group_to_multiset_ensures;

    let ghost all = views(left@).to_multiset().add(views(right@).to_multiset());
    let mut left = left;
    let mut right = right;
    let mut taken: Vec<DiscoveredClass> = Vec::new();
    proof {
        assert(views(taken@) =~= Seq::empty());
    }
    while left.len() > 0 || right.len() > 0
        invariant
            sorted_by_name(views(left@)),
            sorted_by_name(views(right@)),
            sorted_backwards(views(taken@)),
            none_after(views(left@), views(taken@)),
            none_after(views(right@), views(taken@)),
            all =~= views(left@).to_multiset().add(views(right@).to_multiset()).add(
                views(taken@).to_multiset(),
            ),
        decreases left@.len() + right@.len(),
    {
        let from_left = if left.len() == 0 {
            false
        } else if right.len() == 0 {
            true
        } else {
            let a = &left[left.len() - 1].internal_name;
            let b = &right[right.len() - 1].internal_name;
            proof {
                bytes_order_is_total(
                    vstd::utf8::encode_utf8(a@),
                    vstd::utf8::encode_utf8(b@),
                );
            }
            !text_in_order(a.as_str(), b.as_str())
        };
        let ghost l = views(left@);
        let ghost r = views(right@);
        let ghost t = views(taken@);
        proof {
            if from_left {
                taking_the_last(l, r, t);
            } else {
                taking_the_last(r, l, t);
            }
        }
        let class = if from_left {
            left.pop()
        } else {
            right.pop()
        };
        if let Some(class) = class {
            proof {
                views_push(taken@, class);
            }
            taken.push(class);
        }
        proof {
            if from_left {
                assert(views(left@) =~= l.drop_last());
            } else {
                assert(views(right@) =~= r.drop_last());
            }
        }
    }
    let mut out: Vec<DiscoveredClass> = Vec::new();
    let ghost backwards = views(taken@);
    proof {
        assert(views(left@) =~= Seq::empty());
        assert(views(right@) =~= Seq::empty());
        assert(views(out@) =~= Seq::empty());
        assert(all =~= backwards.to_multiset());
    }
    while taken.len() > 0
        invariant
            taken@.len() <= backwards.len(),
            views(taken@) == backwards.take(taken@.len() as int),
            out@.len() == backwards.len() - taken@.len(),
            forall|i: int|
                0 <= i < out@.len() ==> #[trigger] views(out@)[i] == backwards[backwards.len() - 1 - i],
            all =~= views(taken@).to_multiset().add(views(out@).to_multiset()),
        decreases taken@.len(),
    {
        let ghost t = views(taken@);
        let ghost o = views(out@);
        if let Some(class) = taken.pop() {
            proof {
                views_push(out@, class);
                assert(t =~= views(taken@).push(class@));
            }
            out.push(class);
            proof {
                assert(views(taken@) =~= backwards.take(taken@.len() as int));
                assert(t == backwards.take((taken@.len() + 1) as int));
                assert(class@ == t.last());
                assert(class@ == backwards[taken@.len() as int]);
                multiset_push(views(taken@), class@);
                multiset_push(o, class@);
            }
        }
    }
    assert(views(taken@) =~= Seq::empty());
    assert(all =~= views(out@).to_multiset());
    out
}

/// Puts classes in the order of their names.
pub fn sort_by_name(classes: Vec<DiscoveredClass>) -> (sorted: Vec<DiscoveredClass>)
    ensures
        sorted_arrangement(views(sorted@), views(classes@)),
    decreases classes@.len(),
{
    broadcast use vstd::seq_lib::group_to_multiset_ensures;

    if classes.len() < 2 {
        proof {
            let name = views(classes@)[0].internal_name;
            bytes_order_is_total(vstd::utf8::encode_utf8(name), vstd::utf8::encode_utf8(name));
        }
        return classes;
    }
    let mut left = classes;
    let middle: usize = left.len() / 2;
    let right = left.split_off(middle);
    proof {
        assert(views(classes@) =~= views(left@) + views(right@));
        vstd::seq_lib::lemma_multiset_commutative(views(left@), views(right@));
    }
    merged(sort_by_name(left), sort_by_name(right))
}

/// Where the fields lie that a walk of the dictionary reads.
#[derive(Debug, Clone, Copy)]
pub struct DictionaryOffsets {
    pub table_size: u64,
    pub buckets: u64,
    pub bucket_entry: u64,
    pub next: u64,
    pub literal: u64,
    pub klass_name: u64,
    pub symbol_length: u64,
    pub symbol_body: u64,
}

/// The offset that `vm` gives for a field.
pub open spec fn described_offset(
    vm: Seq<EntryView>,
    struct_name: Seq<char>,
    field_name: Seq<char>,
) -> Outcome<u64> {
    match first_entry(vm, struct_name, field_name) {
        Some(entry) => Ok(entry.offset),
        None => Err("VMStructs has no "@ + struct_name + "::"@ + field_name),
    }
}

/// The offsets that `vm` gives.
pub open spec fn dictionary_offsets(vm: Seq<EntryView>) -> Outcome<DictionaryOffsets> {
    match described_offset(vm, "BasicHashtable<mtInternal>"@, "_table_size"@) {
        Err(reason) => Err(reason),
        Ok(table_size) => match described_offset(
            vm,
            "BasicHashtable<mtInternal>"@,
            "_buckets"@,
        ) {
            Err(reason) => Err(reason),
            Ok(buckets) => match described_offset(vm, "HashtableBucket<mtInternal>"@, "_entry"@) {
                Err(reason) => Err(reason),
                Ok(bucket_entry) => match described_offset(
                    vm,
                    "BasicHashtableEntry<mtInternal>"@,
                    "_next"@,
                ) {
                    Err(reason) => Err(reason),
                    Ok(next) => match described_offset(
                        vm,
                        "IntptrHashtableEntry"@,
                        "_literal"@,
                    ) {
                        Err(reason) => Err(reason),
                        Ok(literal) => match described_offset(vm, "Klass"@, "_name"@) {
                            Err(reason) => Err(reason),
                            Ok(klass_name) => match described_offset(
                                vm,
                                "Symbol"@,
                                "_length"@,
                            ) {
                                Err(reason) => Err(reason),
                                Ok(symbol_length) => match described_offset(
                                    vm,
                                    "Symbol"@,
                                    "_body"@,
                                ) {
                                    Err(reason) => Err(reason),
                                    Ok(symbol_body) => Ok(
                                        DictionaryOffsets {
                                            table_size,
                                            buckets,
                                            bucket_entry,
                                            next,
                                            literal,
                                            klass_name,
                                            symbol_length,
                                            symbol_body,
                                        },
                                    ),
                                },
                            },
                        },
                    },
                },
            },
        },
    }
}

/// The name of the class at `klass`.
pub open spec fn klass_name_at(memory: Contents, klass: u64, offsets: DictionaryOffsets) -> Outcome<
    Seq<char>,
> {
    match u64_at(memory, klass.wrapping_add(offsets.klass_name)) {
        Err(reason) => Err(reason),
        Ok(symbol) => if symbol == 0 {
            Err("null Klass::_name"@)
        } else {
            match u16_at(memory, symbol.wrapping_add(offsets.symbol_length)) {
                Err(reason) => Err(reason),
                Ok(length) => if length == 0 {
                    Err("invalid Symbol length"@)
                } else {
                    match memory(symbol.wrapping_add(offsets.symbol_body), length as nat) {
                        Err(reason) => Err(reason),
                        Ok(bytes) => match utf8_text(bytes) {
                            Ok(name) => Ok(name),
                            Err(reason) => Err(
                                with_context(
                                    "class Symbol is not modified UTF-8 compatible ASCII/UTF-8"@,
                                    reason,
                                ),
                            ),
                        },
                    }
                },
            }
        },
    }
}

/// How far a walk has come: the entries that it went through, the classes that these stand for,
/// and those of the classes whose names could be read.
pub struct WalkState {
    pub entries: Seq<u64>,
    pub klasses: Set<u64>,
    pub classes: Seq<ClassView>,
}

/// An address without the mark that HotSpot keeps in its lowest bit.
pub open spec fn unmarked(pointer: u64) -> u64 {
    pointer & 0xffff_ffff_ffff_fffe
}

/// The state once the class at `klass` was met: a class counts once, and a class whose name cannot
/// be read is left out.
pub open spec fn class_met(
    memory: Contents,
    offsets: DictionaryOffsets,
    klass: u64,
    state: WalkState,
) -> WalkState {
    if klass == 0 || state.klasses.contains(klass) {
        state
    } else {
        WalkState {
            klasses: state.klasses.insert(klass),
            classes: match klass_name_at(memory, klass, offsets) {
                Ok(internal_name) => state.classes.push(ClassView { klass, internal_name }),
                Err(_) => state.classes,
            },
            ..state
        }
    }
}

/// The state once the chain that starts at `entry` was followed, to its end or to an entry that
/// was met before.
pub open spec fn chain_walked(
    memory: Contents,
    offsets: DictionaryOffsets,
    entry: u64,
    state: WalkState,
) -> Outcome<WalkState>
    decreases MAX_ENTRIES + 1 - state.entries.len(),
{
    if entry == 0 || state.entries.contains(entry) {
        Ok(state)
    } else if state.entries.len() >= MAX_ENTRIES {
        Err("Dictionary entry safety limit exceeded"@)
    } else {
        let met = WalkState { entries: state.entries.push(entry), ..state };
        match u64_at(memory, entry.wrapping_add(offsets.literal)) {
            Err(reason) => Err(reason),
            Ok(klass) => match u64_at(memory, entry.wrapping_add(offsets.next)) {
                Err(reason) => Err(reason),
                Ok(next) => chain_walked(
                    memory,
                    offsets,
                    unmarked(next),
                    class_met(memory, offsets, klass, met),
                ),
            },
        }
    }
}

/// The state once the buckets from the `bucket`-th to the last were walked.
pub open spec fn buckets_walked(
    memory: Contents,
    offsets: DictionaryOffsets,
    buckets: u64,
    table_size: u32,
    bucket: nat,
    state: WalkState,
) -> Outcome<WalkState>
    decreases table_size - bucket,
{
    if bucket >= table_size {
        Ok(state)
    } else {
        let address = buckets.wrapping_add((bucket * 8) as u64);
        match u64_at(memory, address.wrapping_add(offsets.bucket_entry)) {
            Err(reason) => Err(reason),
            Ok(entry) => match chain_walked(memory, offsets, unmarked(entry), state) {
                Err(reason) => Err(reason),
                Ok(after) => buckets_walked(
                    memory,
                    offsets,
                    buckets,
                    table_size,
                    bucket + 1,
                    after,
                ),
            },
        }
    }
}

/// The classes of the dictionary at `dictionary`, in the order in which they are met.
pub open spec fn dictionary_classes(
    memory: Contents,
    dictionary: u64,
    vm: Seq<EntryView>,
) -> Outcome<Seq<ClassView>> {
    if dictionary == 0 {
        Err("SystemDictionary::_dictionary is null"@)
    } else {
        match dictionary_offsets(vm) {
            Err(reason) => Err(reason),
            Ok(offsets) => match u32_at(memory, dictionary.wrapping_add(offsets.table_size)) {
                Err(reason) => Err(reason),
                Ok(table_size) => match u64_at(memory, dictionary.wrapping_add(offsets.buckets)) {
                    Err(reason) => Err(reason),
                    Ok(buckets) => if table_size == 0 || table_size > MAX_BUCKETS || buckets == 0 {
                        Err(
                            "invalid Dictionary layout: table_size="@ + decimal_digits(
                                table_size as nat,
                            ) + ", buckets="@ + address_chars(buckets),
                        )
                    } else {
                        match buckets_walked(
                            memory,
                            offsets,
                            buckets,
                            table_size,
                            0,
                            WalkState {
                                entries: Seq::empty(),
                                klasses: Set::empty(),
                                classes: Seq::empty(),
                            },
                        ) {
                            Err(reason) => Err(reason),
                            Ok(state) => Ok(state.classes),
                        }
                    },
                },
            },
        }
    }
}

fn offset(vm: &VmStructTable, struct_name: &str, field_name: &str) -> (result: Result<u64, Error>)
    ensures
        seen(result) == described_offset(vm@, struct_name@, field_name@),
{
    match vm.find(struct_name, field_name) {
        Some(entry) => Ok(entry.offset),
        None => {
            let mut text = joined("VMStructs has no ", struct_name);
            text = joined(text.as_str(), "::");
            Err(Error { text: joined(text.as_str(), field_name) })
        },
    }
}

fn read_offsets(vm: &VmStructTable) -> (result: Result<DictionaryOffsets, Error>)
    ensures
        plain(result) == dictionary_offsets(vm@),
{
    Ok(
        DictionaryOffsets {
            table_size: offset(vm, "BasicHashtable<mtInternal>", "_table_size")?,
            buckets: offset(vm, "BasicHashtable<mtInternal>", "_buckets")?,
            bucket_entry: offset(vm, "HashtableBucket<mtInternal>", "_entry")?,
            next: offset(vm, "BasicHashtableEntry<mtInternal>", "_next")?,
            literal: offset(vm, "IntptrHashtableEntry", "_literal")?,
            klass_name: offset(vm, "Klass", "_name")?,
            symbol_length: offset(vm, "Symbol", "_length")?,
            symbol_body: offset(vm, "Symbol", "_body")?,
        },
    )
}

fn read_klass_name<M: RemoteMemory>(
    memory: &M,
    klass: u64,
    offsets: &DictionaryOffsets,
) -> (result: Result<String, Error>)
    ensures
        seen(result) == klass_name_at(memory.contents(), klass, *offsets),
{
    let symbol = memory.read_u64(klass.wrapping_add(offsets.klass_name))?;
    if symbol == 0 {
        return Err(Error::new("null Klass::_name"));
    }
    let length = memory.read_u16(symbol.wrapping_add(offsets.symbol_length))?;
    if length == 0 {
        return Err(Error::new("invalid Symbol length"));
    }
    let bytes = read_bytes(memory, symbol.wrapping_add(offsets.symbol_body), length as usize)?;
    match text_from_utf8(bytes) {
        Ok(name) => Ok(name),
        Err(error) => Err(
            error.context("class Symbol is not modified UTF-8 compatible ASCII/UTF-8"),
        ),
    }
}

/// What a walk keeps while it runs.
struct Walk {
    entries: HashSet<u64>,
    klasses: HashSet<u64>,
    classes: Vec<DiscoveredClass>,
}

impl Walk {
    /// Whether the walk has come as far as `state` says.
    spec fn stands_for(self, state: WalkState) -> bool {
        &&& forall|entry: u64| #[trigger] self.entries@.contains(entry) <==> state.entries.contains(
            entry,
        )
        &&& self.entries@.finite()
        &&& self.entries@.len() == state.entries.len()
        &&& self.klasses@ == state.klasses
        &&& views(self.classes@) == state.classes
    }

    /// Follows the chain that starts at `first`.
    fn follow<M: RemoteMemory>(
        &mut self,
        memory: &M,
        offsets: &DictionaryOffsets,
        first: u64,
        Ghost(state): Ghost<WalkState>,
    ) -> (result: Result<(), Error>)
        requires
            old(self).stands_for(state),
        ensures
            match chain_walked(memory.contents(), *offsets, first, state) {
                Err(reason) => result matches Err(error) && error@ == reason,
                Ok(after) => result is Ok && final(self).stands_for(after),
            },
    {
        let ghost mut now = state;
        let mut entry = first;
        while entry != 0
            invariant
                self.stands_for(now),
                chain_walked(memory.contents(), *offsets, first, state) == chain_walked(
                    memory.contents(),
                    *offsets,
                    entry,
                    now,
                ),
            ensures
                chain_walked(memory.contents(), *offsets, first, state) == Ok::<
                    WalkState,
                    Seq<char>,
                >(now),
            decreases MAX_ENTRIES + 1 - now.entries.len(),
        {
            if self.entries.contains(&entry) {
                break;
            }
            if self.entries.len() >= MAX_ENTRIES {
                return Err(Error::new("Dictionary entry safety limit exceeded"));
            }
            self.entries.insert(entry);
            let klass = memory.read_u64(entry.wrapping_add(offsets.literal))?;
            let ghost met = WalkState { entries: now.entries.push(entry), ..now };
            proof {
                assert forall|e: u64| #[trigger]
                    self.entries@.contains(e) <==> met.entries.contains(e) by {
                    if e == entry {
                        assert(met.entries[met.entries.len() - 1] == entry);
                    } else if now.entries.contains(e) {
                        let i = choose|i: int| 0 <= i < now.entries.len() && now.entries[i] == e;
                        assert(met.entries[i] == e);
                    } else if met.entries.contains(e) {
                        let i = choose|i: int| 0 <= i < met.entries.len() && met.entries[i] == e;
                        assert(now.entries[i] == e);
                    }
                }
            }
            if klass != 0 && self.klasses.insert(klass) {
                if let Ok(internal_name) = read_klass_name(memory, klass, offsets) {
                    let class = DiscoveredClass { klass, internal_name };
                    proof {
                        views_push(self.classes@, class);
                    }
                    self.classes.push(class);
                }
            }
            let next = memory.read_u64(entry.wrapping_add(offsets.next))?;
            proof {
                now = class_met(memory.contents(), *offsets, klass, met);
                assert(self.klasses@ =~= now.klasses);
            }
            entry = next & 0xffff_ffff_ffff_fffe;
        }
        Ok(())
    }
}

/// The classes of the dictionary at `dictionary`, in the order of their names. Each class comes
/// once, and none whose name cannot be read.
pub fn walk<M: RemoteMemory>(memory: &M, dictionary: u64, vm: &VmStructTable) -> (result: Result<
    Vec<DiscoveredClass>,
    Error,
>)
    ensures
        match dictionary_classes(memory.contents(), dictionary, vm@) {
            Err(reason) => result matches Err(error) && error@ == reason,
            Ok(met) => result matches Ok(classes) && sorted_arrangement(views(classes@), met),
        },
{
    if dictionary == 0 {
        return Err(Error::new("SystemDictionary::_dictionary is null"));
    }
    let offsets = read_offsets(vm)?;
    let table_size = memory.read_u32(dictionary.wrapping_add(offsets.table_size))?;
    let buckets = memory.read_u64(dictionary.wrapping_add(offsets.buckets))?;
    if table_size == 0 || table_size > MAX_BUCKETS || buckets == 0 {
        let mut text = joined(
            "invalid Dictionary layout: table_size=",
            decimal_text(table_size as u64).as_str(),
        );
        text = joined(text.as_str(), ", buckets=");
        return Err(Error { text: joined(text.as_str(), address_text(buckets).as_str()) });
    }
    let mut walk = Walk {
        entries: HashSet::new(),
        klasses: HashSet::new(),
        classes: Vec::new(),
    };
    let ghost start = WalkState {
        entries: Seq::empty(),
        klasses: Set::empty(),
        classes: Seq::empty(),
    };
    let ghost mut state = start;
    let mut bucket: u32 = 0;
    assert(views(walk.classes@) =~= Seq::empty());
    while bucket < table_size
        invariant
            bucket <= table_size <= MAX_BUCKETS,
            walk.stands_for(state),
            buckets_walked(memory.contents(), offsets, buckets, table_size, 0, start)
                == buckets_walked(
                memory.contents(),
                offsets,
                buckets,
                table_size,
                bucket as nat,
                state,
            ),
            match dictionary_classes(memory.contents(), dictionary, vm@) {
                Err(reason) => buckets_walked(
                    memory.contents(),
                    offsets,
                    buckets,
                    table_size,
                    0,
                    start,
                ) == Err::<WalkState, Seq<char>>(reason),
                Ok(classes) => buckets_walked(
                    memory.contents(),
                    offsets,
                    buckets,
                    table_size,
                    0,
                    start,
                ) matches Ok(end) && end.classes == classes,
            },
        decreases table_size - bucket,
    {
        let address = buckets.wrapping_add(bucket as u64 * 8);
        let entry = memory.read_u64(address.wrapping_add(offsets.bucket_entry))?;
        walk.follow(memory, &offsets, entry & 0xffff_ffff_ffff_fffe, Ghost(state))?;
        proof {
            state = chain_walked(memory.contents(), offsets, unmarked(entry), state)->Ok_0;
        }
        bucket += 1;
    }
    Ok(sort_by_name(walk.classes))
}

/// Whether no two classes are at one address, and none is at zero.
pub open spec fn are_distinct(classes: Seq<ClassView>) -> bool {
    &&& forall|i: int| 0 <= i < classes.len() ==> (#[trigger] classes[i]).klass != 0
    &&& forall|i: int, j: int|
        0 <= i < j < classes.len() ==> (#[trigger] classes[i]).klass != (#[trigger] classes[j]).klass
}

/// The entry that is `steps` steps behind `entry` in its chain.
pub open spec fn entry_behind(
    memory: Contents,
    offsets: DictionaryOffsets,
    entry: u64,
    steps: nat,
) -> Option<u64>
    decreases steps,
{
    if entry == 0 {
        None
    } else if steps == 0 {
        Some(entry)
    } else {
        match u64_at(memory, entry.wrapping_add(offsets.next)) {
            Err(_) => None,
            Ok(next) => entry_behind(memory, offsets, unmarked(next), (steps - 1) as nat),
        }
    }
}

/// The entry that is `steps` steps behind the first one of a bucket.
pub open spec fn entry_in_bucket(
    memory: Contents,
    offsets: DictionaryOffsets,
    buckets: u64,
    bucket: nat,
    steps: nat,
) -> Option<u64> {
    let address = buckets.wrapping_add((bucket * 8) as u64);
    match u64_at(memory, address.wrapping_add(offsets.bucket_entry)) {
        Err(_) => None,
        Ok(entry) => entry_behind(memory, offsets, unmarked(entry), steps),
    }
}

/// Whether an entry holds the class at `klass`.
pub open spec fn holds_klass(
    memory: Contents,
    offsets: DictionaryOffsets,
    entry: u64,
    klass: u64,
) -> bool {
    u64_at(memory, entry.wrapping_add(offsets.literal)) == Ok::<u64, Seq<char>>(klass)
}

/// Whether an entry is in the chain of one of the buckets.
pub open spec fn is_chained(
    memory: Contents,
    offsets: DictionaryOffsets,
    buckets: u64,
    table_size: u32,
    entry: u64,
) -> bool {
    exists|bucket: nat, steps: nat|
        bucket < table_size && #[trigger] entry_in_bucket(
            memory,
            offsets,
            buckets,
            bucket,
            steps,
        ) == Some(entry)
}

/// Whether the chain of one of the buckets holds the class at `klass`.
pub open spec fn is_in_chains(
    memory: Contents,
    offsets: DictionaryOffsets,
    buckets: u64,
    table_size: u32,
    klass: u64,
) -> bool {
    exists|entry: u64|
        is_chained(memory, offsets, buckets, table_size, entry) && #[trigger] holds_klass(
            memory,
            offsets,
            entry,
            klass,
        )
}

/// Whether the classes are, once each, those at the addresses `klasses` whose names can be read.
spec fn is_orderly(
    memory: Contents,
    offsets: DictionaryOffsets,
    klasses: Set<u64>,
    classes: Seq<ClassView>,
) -> bool {
    &&& are_distinct(classes)
    &&& forall|class: ClassView| #[trigger]
        classes.contains(class) <==> {
            &&& klasses.contains(class.klass)
            &&& klass_name_at(memory, class.klass, offsets) == Ok::<Seq<char>, Seq<char>>(
                class.internal_name,
            )
        }
    &&& !klasses.contains(0)
}

proof fn met_class_is_orderly(
    memory: Contents,
    offsets: DictionaryOffsets,
    klass: u64,
    state: WalkState,
)
    requires
        is_orderly(memory, offsets, state.klasses, state.classes),
    ensures
        ({
            let after = class_met(memory, offsets, klass, state);
            is_orderly(memory, offsets, after.klasses, after.classes)
        }),
{
    let after = class_met(memory, offsets, klass, state);
    if klass != 0 && !state.klasses.contains(klass) {
        assert forall|i: int| 0 <= i < state.classes.len() implies (
        #[trigger] state.classes[i]).klass != klass by {
            assert(state.classes.contains(state.classes[i]));
        }
        assert forall|i: int, j: int| 0 <= i < j < after.classes.len() implies (
        #[trigger] after.classes[i]).klass != (#[trigger] after.classes[j]).klass by {
            assert(after.classes[i] == state.classes[i]);
            if j < state.classes.len() {
                assert(after.classes[j] == state.classes[j]);
            }
        }
        assert forall|class: ClassView| #[trigger] after.classes.contains(class) <==> {
            &&& after.klasses.contains(class.klass)
            &&& klass_name_at(memory, class.klass, offsets) == Ok::<Seq<char>, Seq<char>>(
                class.internal_name,
            )
        } by {
            if let Ok(name) = klass_name_at(memory, klass, offsets) {
                let added = ClassView { klass, internal_name: name };
                assert(after.classes == state.classes.push(added));
                assert(after.classes.last() == added);
                if state.classes.contains(class) {
                    let i = choose|i: int| 0 <= i < state.classes.len() && state.classes[i] == class;
                    assert(after.classes[i] == class);
                }
                if after.classes.contains(class) && class != added {
                    let i = choose|i: int| 0 <= i < after.classes.len() && after.classes[i] == class;
                    assert(state.classes[i] == class);
                    assert(state.classes.contains(class));
                }
                if class.klass == klass {
                    assert(class.internal_name == name ==> class == added);
                }
            }
            assert(state.classes.contains(class) ==> state.klasses.contains(class.klass));
        }
    }
}

/// Whether every entry that was met had its class met, and is followed by nothing, by an entry
/// that was met, or by the one that is next.
spec fn is_followed(
    memory: Contents,
    offsets: DictionaryOffsets,
    state: WalkState,
    entry: u64,
    next: u64,
) -> bool {
    &&& u64_at(memory, entry.wrapping_add(offsets.literal)) matches Ok(klass) && (klass == 0
        || state.klasses.contains(klass))
    &&& u64_at(memory, entry.wrapping_add(offsets.next)) matches Ok(pointer) && (unmarked(pointer)
        == 0 || state.entries.contains(unmarked(pointer)) || unmarked(pointer) == next)
}

/// Whether what was met is what the chains hold, but for what follows `next`.
spec fn is_accounted(
    memory: Contents,
    offsets: DictionaryOffsets,
    buckets: u64,
    table_size: u32,
    state: WalkState,
    next: u64,
) -> bool {
    &&& is_orderly(memory, offsets, state.klasses, state.classes)
    &&& forall|entry: u64| #[trigger]
        state.entries.contains(entry) ==> is_followed(memory, offsets, state, entry, next)
            && is_chained(memory, offsets, buckets, table_size, entry)
    &&& forall|klass: u64| #[trigger]
        state.klasses.contains(klass) ==> is_in_chains(
            memory,
            offsets,
            buckets,
            table_size,
            klass,
        )
    &&& next == 0 || is_chained(memory, offsets, buckets, table_size, next)
}

/// What is one step behind an entry that is some steps behind another.
proof fn one_step_more(
    memory: Contents,
    offsets: DictionaryOffsets,
    first: u64,
    steps: nat,
    entry: u64,
)
    requires
        entry_behind(memory, offsets, first, steps) == Some(entry),
    ensures
        entry != 0,
        u64_at(memory, entry.wrapping_add(offsets.next)) matches Ok(pointer) ==> unmarked(
            pointer,
        ) != 0 ==> entry_behind(memory, offsets, first, steps + 1) == Some(unmarked(pointer)),
    decreases steps,
{
    reveal_with_fuel(entry_behind, 2);
    if steps > 0 {
        if let Ok(pointer) = u64_at(memory, first.wrapping_add(offsets.next)) {
            one_step_more(memory, offsets, unmarked(pointer), (steps - 1) as nat, entry);
        }
    }
}

proof fn successor_is_chained(
    memory: Contents,
    offsets: DictionaryOffsets,
    buckets: u64,
    table_size: u32,
    entry: u64,
)
    requires
        is_chained(memory, offsets, buckets, table_size, entry),
    ensures
        u64_at(memory, entry.wrapping_add(offsets.next)) matches Ok(pointer) ==> unmarked(
            pointer,
        ) != 0 ==> is_chained(memory, offsets, buckets, table_size, unmarked(pointer)),
{
    let (bucket, steps) = choose|bucket: nat, steps: nat|
        bucket < table_size && #[trigger] entry_in_bucket(
            memory,
            offsets,
            buckets,
            bucket,
            steps,
        ) == Some(entry);
    let address = buckets.wrapping_add((bucket * 8) as u64);
    if let Ok(first) = u64_at(memory, address.wrapping_add(offsets.bucket_entry)) {
        one_step_more(memory, offsets, unmarked(first), steps, entry);
        if let Ok(pointer) = u64_at(memory, entry.wrapping_add(offsets.next)) {
            if unmarked(pointer) != 0 {
                assert(entry_in_bucket(memory, offsets, buckets, bucket, steps + 1) == Some(
                    unmarked(pointer),
                ));
            }
        }
    }
}

proof fn chain_is_accounted(
    memory: Contents,
    offsets: DictionaryOffsets,
    buckets: u64,
    table_size: u32,
    entry: u64,
    state: WalkState,
)
    requires
        is_accounted(memory, offsets, buckets, table_size, state, entry),
    ensures
        chain_walked(memory, offsets, entry, state) matches Ok(after) ==> {
            &&& is_accounted(memory, offsets, buckets, table_size, after, 0)
            &&& forall|met: u64| #[trigger]
                state.entries.contains(met) ==> after.entries.contains(met)
            &&& entry == 0 || after.entries.contains(entry)
        },
    decreases MAX_ENTRIES + 1 - state.entries.len(),
{
    if entry != 0 && !state.entries.contains(entry) && state.entries.len() < MAX_ENTRIES {
        let met = WalkState { entries: state.entries.push(entry), ..state };
        if let Ok(klass) = u64_at(memory, entry.wrapping_add(offsets.literal)) {
            if let Ok(pointer) = u64_at(memory, entry.wrapping_add(offsets.next)) {
                let next = unmarked(pointer);
                let after = class_met(memory, offsets, klass, met);
                met_class_is_orderly(memory, offsets, klass, met);
                successor_is_chained(memory, offsets, buckets, table_size, entry);
                assert(after.entries == state.entries.push(entry));
                assert(after.entries.last() == entry);
                assert forall|e: u64| #[trigger] state.entries.contains(e) implies after.entries.contains(
                    e,
                ) by {
                    let i = choose|i: int| 0 <= i < state.entries.len() && state.entries[i] == e;
                    assert(after.entries[i] == e);
                }
                assert forall|e: u64| #[trigger] after.entries.contains(e) implies is_followed(
                    memory,
                    offsets,
                    after,
                    e,
                    next,
                ) && is_chained(memory, offsets, buckets, table_size, e) by {
                    if e != entry {
                        let i = choose|i: int| 0 <= i < after.entries.len() && after.entries[i] == e;
                        assert(state.entries[i] == e);
                        assert(state.entries.contains(e));
                    }
                }
                assert forall|k: u64| #[trigger] after.klasses.contains(k) implies is_in_chains(
                    memory,
                    offsets,
                    buckets,
                    table_size,
                    k,
                ) by {
                    if !state.klasses.contains(k) {
                        assert(holds_klass(memory, offsets, entry, k));
                    }
                }
                assert(after.entries.contains(entry));
                chain_is_accounted(memory, offsets, buckets, table_size, next, after);
            }
        }
    } else if entry != 0 && state.entries.contains(entry) {
        assert forall|e: u64| #[trigger] state.entries.contains(e) implies is_followed(
            memory,
            offsets,
            state,
            e,
            0,
        ) by {}
    }
}

proof fn buckets_are_accounted(
    memory: Contents,
    offsets: DictionaryOffsets,
    buckets: u64,
    table_size: u32,
    bucket: nat,
    state: WalkState,
)
    requires
        is_accounted(memory, offsets, buckets, table_size, state, 0),
    ensures
        buckets_walked(memory, offsets, buckets, table_size, bucket, state) matches Ok(after) ==> {
            &&& is_accounted(memory, offsets, buckets, table_size, after, 0)
            &&& forall|met: u64| #[trigger]
                state.entries.contains(met) ==> after.entries.contains(met)
            &&& forall|b: nat|
                bucket <= b < table_size ==> (#[trigger] entry_in_bucket(
                    memory,
                    offsets,
                    buckets,
                    b,
                    0,
                ) matches Some(first) ==> after.entries.contains(first))
        },
    decreases table_size - bucket,
{
    if bucket < table_size {
        let address = buckets.wrapping_add((bucket * 8) as u64);
        if let Ok(pointer) = u64_at(memory, address.wrapping_add(offsets.bucket_entry)) {
            let first = unmarked(pointer);
            if first != 0 {
                assert(entry_in_bucket(memory, offsets, buckets, bucket, 0) == Some(first));
            }
            assert forall|e: u64| #[trigger] state.entries.contains(e) implies is_followed(
                memory,
                offsets,
                state,
                e,
                first,
            ) by {}
            chain_is_accounted(memory, offsets, buckets, table_size, first, state);
            if let Ok(after) = chain_walked(memory, offsets, first, state) {
                buckets_are_accounted(memory, offsets, buckets, table_size, bucket + 1, after);
            }
        }
    }
}

/// All that is behind an entry that was met was met.
proof fn what_is_behind_was_met(
    memory: Contents,
    offsets: DictionaryOffsets,
    state: WalkState,
    entry: u64,
    steps: nat,
)
    requires
        forall|e: u64| #[trigger]
            state.entries.contains(e) ==> is_followed(memory, offsets, state, e, 0),
        entry == 0 || state.entries.contains(entry),
    ensures
        entry_behind(memory, offsets, entry, steps) matches Some(last) ==> state.entries.contains(
            last,
        ),
    decreases steps,
{
    if entry != 0 && steps > 0 {
        if let Ok(pointer) = u64_at(memory, entry.wrapping_add(offsets.next)) {
            what_is_behind_was_met(
                memory,
                offsets,
                state,
                unmarked(pointer),
                (steps - 1) as nat,
            );
        }
    }
}

/// A walk gives each class once, and it gives the classes that the chains of the buckets hold and
/// whose names can be read: all of them, and no others. Chains that run in circles or into one
/// another make no difference.
pub proof fn walked_classes_are_those_in_the_chains(
    memory: Contents,
    dictionary: u64,
    vm: Seq<EntryView>,
)
    ensures
        dictionary_classes(memory, dictionary, vm) matches Ok(classes) ==> {
            &&& are_distinct(classes)
            &&& dictionary_offsets(vm) matches Ok(offsets)
            &&& u32_at(memory, dictionary.wrapping_add(offsets.table_size)) matches Ok(table_size)
            &&& u64_at(memory, dictionary.wrapping_add(offsets.buckets)) matches Ok(buckets)
            &&& forall|class: ClassView| #[trigger]
                classes.contains(class) <==> {
                    &&& class.klass != 0
                    &&& is_in_chains(memory, offsets, buckets, table_size, class.klass)
                    &&& klass_name_at(memory, class.klass, offsets) == Ok::<Seq<char>, Seq<char>>(
                        class.internal_name,
                    )
                }
        },
{
    if let Ok(classes) = dictionary_classes(memory, dictionary, vm) {
        let offsets = dictionary_offsets(vm)->Ok_0;
        let table_size = u32_at(memory, dictionary.wrapping_add(offsets.table_size))->Ok_0;
        let buckets = u64_at(memory, dictionary.wrapping_add(offsets.buckets))->Ok_0;
        let start = WalkState {
            entries: Seq::empty(),
            klasses: Set::empty(),
            classes: Seq::empty(),
        };
        buckets_are_accounted(memory, offsets, buckets, table_size, 0, start);
        let state = buckets_walked(memory, offsets, buckets, table_size, 0, start)->Ok_0;
        assert(state.classes == classes);
        assert forall|klass: u64|
            klass != 0 && #[trigger] is_in_chains(
                memory,
                offsets,
                buckets,
                table_size,
                klass,
            ) implies state.klasses.contains(klass) by {
            let entry = choose|entry: u64|
                is_chained(memory, offsets, buckets, table_size, entry) && #[trigger] holds_klass(
                    memory,
                    offsets,
                    entry,
                    klass,
                );
            let (bucket, steps) = choose|bucket: nat, steps: nat|
                bucket < table_size && #[trigger] entry_in_bucket(
                    memory,
                    offsets,
                    buckets,
                    bucket,
                    steps,
                ) == Some(entry);
            let address = buckets.wrapping_add((bucket * 8) as u64);
            let first = unmarked(
                u64_at(memory, address.wrapping_add(offsets.bucket_entry))->Ok_0,
            );
            assert(first != 0);
            assert(entry_in_bucket(memory, offsets, buckets, bucket, 0) == Some(first));
            what_is_behind_was_met(memory, offsets, state, first, steps);
            assert(state.entries.contains(entry));
        }
    }
}

/// Putting classes in order loses none, adds none and keeps them distinct.
pub proof fn sorting_keeps_classes(sorted: Seq<ClassView>, classes: Seq<ClassView>)
    requires
        sorted_arrangement(sorted, classes),
    ensures
        sorted.len() == classes.len(),
        forall|class: ClassView| #[trigger] sorted.contains(class) <==> classes.contains(class),
        are_distinct(classes) ==> are_distinct(sorted),
{
    broadcast use vstd::seq_lib::group_to_multiset_ensures;

    assert(sorted.len() == sorted.to_multiset().len());
    assert(classes.len() == classes.to_multiset().len());
    assert forall|class: ClassView| #[trigger] sorted.contains(class) <==> classes.contains(
        class,
    ) by {
        assert(sorted.contains(class) <==> sorted.to_multiset().count(class) > 0);
        assert(classes.contains(class) <==> classes.to_multiset().count(class) > 0);
    }
    if are_distinct(classes) {
        assert(classes.no_duplicates()) by {
            assert forall|i: int, j: int|
                0 <= i < classes.len() && 0 <= j < classes.len() && i != j implies classes[i]
                != classes[j] by {
                if i < j {
                    assert(classes[i].klass != classes[j].klass);
                } else {
                    assert(classes[j].klass != classes[i].klass);
                }
            }
        }
        classes.lemma_multiset_has_no_duplicates();
        sorted.lemma_multiset_has_no_duplicates_conv();
        assert forall|i: int| 0 <= i < sorted.len() implies (#[trigger] sorted[i]).klass != 0 by {
            assert(sorted.contains(sorted[i]));
            let a = choose|a: int| 0 <= a < classes.len() && classes[a] == sorted[i];
            assert(classes[a].klass != 0);
        }
        assert forall|i: int, j: int| 0 <= i < j < sorted.len() implies (#[trigger] sorted[i]).klass
            != (#[trigger] sorted[j]).klass by {
            assert(sorted.contains(sorted[i]));
            assert(sorted.contains(sorted[j]));
            let a = choose|a: int| 0 <= a < classes.len() && classes[a] == sorted[i];
            let b = choose|b: int| 0 <= b < classes.len() && classes[b] == sorted[j];
            assert(a != b);
            if a < b {
                assert(classes[a].klass != classes[b].klass);
            } else {
                assert(classes[b].klass != classes[a].klass);
            }
        }
    }
}

} // verus!
