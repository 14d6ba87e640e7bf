//! By what the tables in the image of a module are recognized.
use vstd::prelude::*;
use vstd::utf8::{encode_scalar, encode_utf8};

use super::heuristic::{
    addresses_at, addresses_of, describes, fields_described, image_of,
    inferred_tables_are_complete, is_printable, markers_check, pointers_from, pointers_of,
    readable, required_fields, strings_of, table_string_at, table_string_check, tables_in,
    vmstruct_row, vmstructs_around, vmstructs_best, vmstructs_from, vmstructs_in, vmstructs_score,
    vmstructs_start, vmstructs_tried, vmtype_row, vmtypes_around, vmtypes_best, vmtypes_from,
    vmtypes_in, vmtypes_score, vmtypes_start, PageView,
};
use super::vmstructs::EntryView;
use crate::pages::Piece;
use crate::platform::{c_string_at, u32_at, u64_at, Contents};
use crate::search::{occurrences, occurrences_are_complete, occurs_at, to_alignment, word_at};
use crate::text::characters_in_bytes;

verus! {

/// Whether a character may stand in a table: it is printable or a tab.
pub open spec fn is_table_char(c: char) -> bool {
    c == '\t' || ' ' <= c <= '~'
}

/// Whether the string at `address`, of at most 512 bytes with its terminator, is `text`, which has
/// characters, all of them such as may stand in a table.
pub open spec fn is_table_string(memory: Contents, address: u64, text: Seq<char>) -> bool {
    &&& c_string_at(memory, address, 512) == Ok::<Seq<char>, Seq<char>>(text)
    &&& text.len() > 0
    &&& forall|i: int| 0 <= i < text.len() ==> is_table_char(#[trigger] text[i])
}

/// Whether there is such a string at `address`, or no address.
pub open spec fn may_be_string(memory: Contents, address: u64) -> bool {
    address == 0 || exists|text: Seq<char>| is_table_string(memory, address, text)
}

proof fn char_is_printable(c: char)
    ensures
        is_table_char(c) <==> forall|i: int|
            0 <= i < encode_scalar(c as u32).len() ==> is_printable(
                #[trigger] encode_scalar(c as u32)[i],
            ),
{
    characters_in_bytes(c);
    assert((c as u32) < 0x80 || encode_scalar(c as u32)[0] >= 0x80);
    if is_table_char(c) {
        assert((c as u32) < 0x80);
    }
}

proof fn text_is_printable(text: Seq<char>)
    ensures
        (forall|i: int| 0 <= i < text.len() ==> is_table_char(#[trigger] text[i])) <==> forall|
            i: int,
        |
            0 <= i < encode_utf8(text).len() ==> is_printable(#[trigger] encode_utf8(text)[i]),
        text.len() > 0 <==> encode_utf8(text).len() > 0,
    decreases text.len(),
{
    if text.len() > 0 {
        let rest = text.drop_first();
        let first = encode_scalar(text[0] as u32);
        let bytes = encode_utf8(text);
        let tail = encode_utf8(rest);
        characters_in_bytes(text[0]);
        char_is_printable(text[0]);
        text_is_printable(rest);
        assert(bytes =~= first + tail);
        if forall|i: int| 0 <= i < bytes.len() ==> is_printable(#[trigger] bytes[i]) {
            assert forall|i: int| 0 <= i < first.len() implies is_printable(
                #[trigger] encode_scalar(text[0] as u32)[i],
            ) by {
                assert(bytes[i] == first[i]);
            }
            assert forall|i: int| 0 <= i < tail.len() implies is_printable(#[trigger] tail[i]) by {
                assert(bytes[first.len() + i] == tail[i]);
            }
            assert forall|i: int| 0 <= i < text.len() implies is_table_char(#[trigger] text[i]) by {
                if i > 0 {
                    assert(rest[i - 1] == text[i]);
                }
            }
        }
        if forall|i: int| 0 <= i < text.len() ==> is_table_char(#[trigger] text[i]) {
            assert(is_table_char(text[0]));
            assert forall|i: int| 0 <= i < rest.len() implies is_table_char(#[trigger] rest[i]) by {
                assert(rest[i] == text[i + 1]);
            }
            assert forall|i: int| 0 <= i < bytes.len() implies is_printable(#[trigger] bytes[i]) by {
                if i < first.len() {
                    assert(bytes[i] == first[i]);
                    assert(is_printable(encode_scalar(text[0] as u32)[i]));
                } else {
                    assert(bytes[i] == tail[i - first.len()]);
                }
            }
        }
    }
}

/// The strings of tables are recognized by their characters.
pub proof fn table_strings_are_recognized(memory: Contents, address: u64, text: Seq<char>)
    ensures
        table_string_at(memory, address) == Ok::<Seq<char>, Seq<char>>(text) <==> is_table_string(
            memory,
            address,
            text,
        ),
        table_string_check(memory, address) is Ok <==> may_be_string(memory, address),
{
    text_is_printable(text);
    if let Ok(found) = c_string_at(memory, address, 512) {
        text_is_printable(found);
        if table_string_at(memory, address) is Ok {
            assert(is_table_string(memory, address, found));
        }
    }
}

/// Whether `entry` is the row of a table of fields at `row`: the names of the structure and of the
/// field, that of the type, which may be missing, whether the field is static, its offset and its
/// address. The offset of a field that is not static is at most 0x10000.
pub open spec fn is_field_row(memory: Contents, row: u64, entry: EntryView) -> bool {
    &&& u64_at(memory, row) matches Ok(structure)
    &&& structure != 0
    &&& is_table_string(memory, structure, entry.struct_name)
    &&& u64_at(memory, row.wrapping_add(8)) matches Ok(field)
    &&& field != 0
    &&& is_table_string(memory, field, entry.field_name)
    &&& u64_at(memory, row.wrapping_add(16)) matches Ok(type_string)
    &&& may_be_string(memory, type_string)
    &&& u32_at(memory, row.wrapping_add(24)) matches Ok(is_static)
    &&& is_static == 0 || is_static == 1
    &&& u64_at(memory, row.wrapping_add(32)) == Ok::<u64, Seq<char>>(entry.offset)
    &&& u64_at(memory, row.wrapping_add(40)) == Ok::<u64, Seq<char>>(entry.address)
    &&& is_static == 0 ==> entry.offset <= 0x1_0000
}

/// Whether the table ends at `row`: there is no name.
pub open spec fn ends_at(memory: Contents, row: u64) -> bool {
    u64_at(memory, row) == Ok::<u64, Seq<char>>(0)
}

/// The rows of a table of fields are recognized by what they hold.
pub proof fn field_rows_are_recognized(memory: Contents, row: u64, entry: EntryView)
    ensures
        vmstruct_row(memory, row) == Ok::<Option<EntryView>, Seq<char>>(Some(entry))
            <==> is_field_row(memory, row, entry),
        vmstruct_row(memory, row) == Ok::<Option<EntryView>, Seq<char>>(None) <==> ends_at(
            memory,
            row,
        ),
{
    if let Ok(structure) = u64_at(memory, row) {
        table_strings_are_recognized(memory, structure, entry.struct_name);
        if let Ok(field) = u64_at(memory, row.wrapping_add(8)) {
            table_strings_are_recognized(memory, field, entry.field_name);
        }
        if let Ok(type_string) = u64_at(memory, row.wrapping_add(16)) {
            table_strings_are_recognized(memory, type_string, Seq::empty());
        }
    }
}

/// Whether the row of a table of types at `row` gives the type `name` the size `size`: its name, that of
/// the type that it derives from, which may be missing, three truth values, and the size, which is at
/// least one and at most 0x10000.
pub open spec fn is_type_row(memory: Contents, row: u64, name: Seq<char>, size: u64) -> bool {
    &&& u64_at(memory, row) matches Ok(name_at)
    &&& name_at != 0
    &&& is_table_string(memory, name_at, name)
    &&& u64_at(memory, row.wrapping_add(8)) matches Ok(parent)
    &&& may_be_string(memory, parent)
    &&& is_truth_value(memory, row.wrapping_add(16))
    &&& is_truth_value(memory, row.wrapping_add(20))
    &&& is_truth_value(memory, row.wrapping_add(24))
    &&& u64_at(memory, row.wrapping_add(32)) == Ok::<u64, Seq<char>>(size)
    &&& 1 <= size <= 0x1_0000
}

/// Whether the four bytes at `address` are zero or one.
pub open spec fn is_truth_value(memory: Contents, address: u64) -> bool {
    u32_at(memory, address) matches Ok(value) && (value == 0 || value == 1)
}

/// The rows of a table of types are recognized by what they hold.
pub proof fn type_rows_are_recognized(memory: Contents, row: u64, name: Seq<char>, size: u64)
    ensures
        vmtype_row(memory, row) == Ok::<Option<(Seq<char>, u64)>, Seq<char>>(Some((name, size)))
            <==> is_type_row(memory, row, name, size),
        vmtype_row(memory, row) == Ok::<Option<(Seq<char>, u64)>, Seq<char>>(None) <==> ends_at(
            memory,
            row,
        ),
{
    reveal_with_fuel(markers_check, 4);
    if let Ok(name_at) = u64_at(memory, row) {
        table_strings_are_recognized(memory, name_at, name);
        if let Ok(parent) = u64_at(memory, row.wrapping_add(8)) {
            table_strings_are_recognized(memory, parent, Seq::empty());
        }
    }
}

/// Whether there is a row of a table of fields at `row`.
pub open spec fn has_field_row(memory: Contents, row: u64) -> bool {
    exists|entry: EntryView| is_field_row(memory, row, entry)
}

/// The table with a row at `row` starts `before` rows of 48 bytes before it: there are rows up to there,
/// and the table ends before that, or memory does, or 100000 rows were gone back.
pub proof fn fields_start_behind_an_end(memory: Contents, row: u64, steps: nat)
    ensures
        vmstructs_start(memory, row, steps) matches Ok(start) ==> {
            let before = (row - start) / 48;
            &&& start <= row
            &&& row == start + 48 * before
            &&& 0 <= before <= steps
            &&& forall|i: int|
                1 <= i <= before ==> #[trigger] has_field_row(memory, row_before(row, 48, i))
            &&& before == steps || start < 48 || ends_at(memory, (start - 48) as u64)
        },
    decreases steps,
{
    if steps > 0 && row >= 48 {
        let previous = (row - 48) as u64;
        if let Ok(Some(entry)) = vmstruct_row(memory, previous) {
            field_rows_are_recognized(memory, previous, entry);
            fields_start_behind_an_end(memory, previous, (steps - 1) as nat);
            if let Ok(start) = vmstructs_start(memory, previous, (steps - 1) as nat) {
                let before = (row - start) / 48;
                assert(before == (previous - start) / 48 + 1);
                assert forall|i: int| 1 <= i <= before implies #[trigger] has_field_row(
                    memory,
                    row_before(row, 48, i),
                ) by {
                    if i == 1 {
                        assert(row_before(row, 48, 1) == previous);
                    } else {
                        assert(row_before(row, 48, i) == row_before(previous, 48, i - 1));
                    }
                }
            }
        } else {
            field_rows_are_recognized(memory, previous, arbitrary::<EntryView>());
        }
    }
}

/// The row that lies `index` rows before `row`.
pub open spec fn row_before(row: u64, stride: int, index: int) -> u64 {
    (row - stride * index) as u64
}

/// Whether `entries` are the rows of the table of fields at `start`, from the `index`-th on: up to its
/// end, or up to 100000 of them.
pub open spec fn are_field_rows(
    memory: Contents,
    start: u64,
    index: nat,
    entries: Seq<EntryView>,
) -> bool {
    &&& forall|i: nat|
        i < entries.len() ==> is_field_row(
            memory,
            field_row_at(start, index + i),
            #[trigger] entries[i as int],
        )
    &&& index + entries.len() == 100_000 || (index + entries.len() < 100_000 && ends_at(
        memory,
        field_row_at(start, index + entries.len()),
    ))
}

/// Row `index` of the table of fields at `start`.
pub open spec fn field_row_at(start: u64, index: nat) -> u64 {
    start.wrapping_add((48 * index) as u64)
}

proof fn field_rows_are_collected(
    memory: Contents,
    start: u64,
    index: nat,
    entries: Seq<EntryView>,
)
    requires
        index <= 100_000,
    ensures
        vmstructs_from(memory, start, index) == Ok::<Seq<EntryView>, Seq<char>>(entries)
            <==> are_field_rows(memory, start, index, entries),
    decreases 100_000 - index,
{
    let whole = vmstructs_from(memory, start, index);
    if index == 100_000 {
        if entries.len() == 0 {
            assert(entries =~= Seq::<EntryView>::empty());
        }
    } else {
        let row = field_row_at(start, index);
        let first = vmstruct_row(memory, row);
        let rest = vmstructs_from(memory, start, index + 1);
        if let Ok(Some(entry)) = first {
            field_rows_are_recognized(memory, row, entry);
        } else {
            field_rows_are_recognized(memory, row, arbitrary::<EntryView>());
        }
        if entries.len() == 0 {
            assert(index + entries.len() == index);
            assert(entries =~= Seq::<EntryView>::empty());
        } else {
            let tail = entries.subrange(1, entries.len() as int);
            assert(entries =~= seq![entries[0]] + tail);
            field_rows_are_collected(memory, start, index + 1, tail);
            field_rows_are_recognized(memory, row, entries[0]);
            if whole == Ok::<Seq<EntryView>, Seq<char>>(entries) {
                if let Ok(Some(entry)) = first {
                    assert((seq![entry] + rest->Ok_0).subrange(1, entries.len() as int)
                        =~= rest->Ok_0);
                    assert(entries[0] == entry);
                }
                assert forall|i: nat| i < entries.len() implies is_field_row(
                    memory,
                    field_row_at(start, index + i),
                    #[trigger] entries[i as int],
                ) by {
                    if i > 0 {
                        let before = (i - 1) as nat;
                        assert(tail[before as int] == entries[i as int]);
                        assert(index + 1 + before == index + i);
                    } else {
                        assert(index + i == index);
                    }
                }
                assert(index + 1 + tail.len() == index + entries.len());
            }
            if are_field_rows(memory, start, index, entries) {
                assert(is_field_row(
                    memory,
                    field_row_at(start, index + 0),
                    entries[0nat as int],
                ));
                assert forall|i: nat| i < tail.len() implies is_field_row(
                    memory,
                    field_row_at(start, index + 1 + i),
                    #[trigger] tail[i as int],
                ) by {
                    let next = i + 1;
                    assert(tail[i as int] == entries[next as int]);
                    assert(index + next == index + 1 + i);
                }
                assert(index + 1 + tail.len() == index + entries.len());
                assert(are_field_rows(memory, start, index + 1, tail));
            }
        }
    }
}

/// The table of fields around a row is its rows from its start on, and is taken if there are at least
/// a hundred.
pub proof fn fields_around_a_row(
    memory: Contents,
    anchor: u64,
    start: u64,
    entries: Seq<EntryView>,
)
    requires
        vmstructs_start(memory, anchor, 100_000) == Ok::<u64, Seq<char>>(start),
    ensures
        vmstructs_around(memory, anchor) == Ok::<Seq<EntryView>, Seq<char>>(entries)
            <==> entries.len() >= 100 && are_field_rows(memory, start, 0, entries),
{
    field_rows_are_collected(memory, start, 0, entries);
}

/// Whether `entries` is the table of fields around a row whose field name is one of `fields`, and is taken
/// to be at 0 if it cannot be read.
pub open spec fn offers_fields(
    memory: Contents,
    fields: Set<u64>,
    row: u64,
    entries: Seq<EntryView>,
) -> bool {
    &&& match u64_at(memory, row.wrapping_add(8)) {
        Ok(field) => fields.contains(field),
        Err(_) => fields.contains(0),
    }
    &&& vmstructs_around(memory, row) == Ok::<Seq<EntryView>, Seq<char>>(entries)
}

proof fn one_more_table_is_tried(
    memory: Contents,
    fields: Set<u64>,
    row: u64,
    old: Option<(nat, Seq<EntryView>)>,
)
    ensures
        ({
            let best = vmstructs_tried(memory, fields, row, old);
            &&& old matches Some((score, _)) ==> best is Some && score <= best->Some_0.0
            &&& best == old || {
                &&& best matches Some((score, kept))
                &&& offers_fields(memory, fields, row, kept)
                &&& score == vmstructs_score(kept)
                &&& old matches Some((less, _)) ==> less < score
            }
            &&& forall|entries: Seq<EntryView>| #[trigger]
                offers_fields(memory, fields, row, entries) ==> best is Some && vmstructs_score(
                    entries,
                ) <= best->Some_0.0
        }),
{
}

/// Of the tables of fields around rows that name one of the wanted fields, one that describes the most
/// of the required fields is kept, and of several such tables the first.
pub proof fn best_fields_are_kept(
    memory: Contents,
    fields: Set<u64>,
    rows: Seq<u64>,
    count: nat,
)
    requires
        count <= rows.len(),
    ensures
        forall|i: int, entries: Seq<EntryView>|
            0 <= i < count && #[trigger] offers_fields(memory, fields, rows[i], entries) ==> {
                &&& vmstructs_best(memory, fields, rows, count) matches Some((score, kept))
                &&& vmstructs_score(entries) <= score
            },
        vmstructs_best(memory, fields, rows, count) matches Some((score, kept)) ==> {
            &&& score == vmstructs_score(kept)
            &&& exists|i: int|
                0 <= i < count && #[trigger] offers_fields(memory, fields, rows[i], kept)
                    && none_scores_before(memory, fields, rows, i, score)
        },
    decreases count,
{
    if count > 0 {
        let before = (count - 1) as nat;
        best_fields_are_kept(memory, fields, rows, before);
        let old = vmstructs_best(memory, fields, rows, before);
        let best = vmstructs_best(memory, fields, rows, count);
        one_more_table_is_tried(memory, fields, rows[count - 1], old);
        assert forall|i: int, entries: Seq<EntryView>|
            0 <= i < count && #[trigger] offers_fields(
                memory,
                fields,
                rows[i],
                entries,
            ) implies best is Some && vmstructs_score(entries) <= best->Some_0.0 by {
            if i == count - 1 {
                assert(offers_fields(memory, fields, rows[count - 1], entries));
            }
        }
        if best != old {
            let kept = best->Some_0.1;
            assert(offers_fields(memory, fields, rows[count - 1], kept));
            assert(none_scores_before(memory, fields, rows, count - 1, best->Some_0.0));
        }
    }
}

/// Whether every table of fields around one of the first `count` rows scores less than `score`.
pub open spec fn none_scores_before(
    memory: Contents,
    fields: Set<u64>,
    rows: Seq<u64>,
    count: int,
    score: nat,
) -> bool {
    forall|i: int, entries: Seq<EntryView>|
        0 <= i < count && #[trigger] offers_fields(memory, fields, rows[i], entries)
            ==> vmstructs_score(entries) < score
}

/// Whether `sizes` is the table of types around a row.
pub open spec fn offers_types(memory: Contents, row: u64, sizes: Map<Seq<char>, u64>) -> bool {
    vmtypes_around(memory, row) == Ok::<Map<Seq<char>, u64>, Seq<char>>(sizes)
}

/// Whether every table of types around one of the first `count` rows scores less than `score`.
pub open spec fn no_types_score_before(
    memory: Contents,
    rows: Seq<u64>,
    count: int,
    score: nat,
) -> bool {
    forall|i: int, sizes: Map<Seq<char>, u64>|
        0 <= i < count && #[trigger] offers_types(memory, rows[i], sizes) ==> vmtypes_score(sizes)
            < score
}

/// Of the tables of types around rows, one that has the most of the required types is kept, and of
/// several such tables the first.
pub proof fn best_types_are_kept(memory: Contents, rows: Seq<u64>, count: nat)
    requires
        count <= rows.len(),
    ensures
        forall|i: int, sizes: Map<Seq<char>, u64>|
            0 <= i < count && #[trigger] offers_types(memory, rows[i], sizes) ==> {
                &&& vmtypes_best(memory, rows, count) matches Some((score, kept))
                &&& vmtypes_score(sizes) <= score
            },
        vmtypes_best(memory, rows, count) matches Some((score, kept)) ==> {
            &&& score == vmtypes_score(kept)
            &&& exists|i: int|
                0 <= i < count && #[trigger] offers_types(memory, rows[i], kept)
                    && no_types_score_before(memory, rows, i, score)
        },
    decreases count,
{
    if count > 0 {
        let before = (count - 1) as nat;
        best_types_are_kept(memory, rows, before);
        let old = vmtypes_best(memory, rows, before);
        let best = vmtypes_best(memory, rows, count);
        if best != old {
            assert(offers_types(memory, rows[count - 1], best->Some_0.1));
            assert(no_types_score_before(memory, rows, count - 1, best->Some_0.0));
        }
    }
}

/// Whether there is a row of a table of types at `row`.
pub open spec fn has_type_row(memory: Contents, row: u64) -> bool {
    exists|name: Seq<char>, size: u64| is_type_row(memory, row, name, size)
}

/// The table of types with a row at `row` starts `before` rows of 40 bytes before it: there are rows up
/// to there, and the table ends before that, or memory does, or 100000 rows were gone back.
pub proof fn types_start_behind_an_end(memory: Contents, row: u64, steps: nat)
    ensures
        vmtypes_start(memory, row, steps) matches Ok(start) ==> {
            let before = (row - start) / 40;
            &&& start <= row
            &&& row == start + 40 * before
            &&& 0 <= before <= steps
            &&& forall|i: int|
                1 <= i <= before ==> #[trigger] has_type_row(memory, row_before(row, 40, i))
            &&& before == steps || start < 40 || ends_at(memory, (start - 40) as u64)
        },
    decreases steps,
{
    if steps > 0 && row >= 40 {
        let previous = (row - 40) as u64;
        if let Ok(Some((name, size))) = vmtype_row(memory, previous) {
            type_rows_are_recognized(memory, previous, name, size);
            types_start_behind_an_end(memory, previous, (steps - 1) as nat);
            if let Ok(start) = vmtypes_start(memory, previous, (steps - 1) as nat) {
                let before = (row - start) / 40;
                assert(before == (previous - start) / 40 + 1);
                assert forall|i: int| 1 <= i <= before implies #[trigger] has_type_row(
                    memory,
                    row_before(row, 40, i),
                ) by {
                    if i == 1 {
                        assert(row_before(row, 40, 1) == previous);
                    } else {
                        assert(row_before(row, 40, i) == row_before(previous, 40, i - 1));
                    }
                }
            }
        } else {
            type_rows_are_recognized(memory, previous, Seq::empty(), 0);
        }
    }
}

/// Row `index` of the table of types at `start`.
pub open spec fn type_row_at(start: u64, index: nat) -> u64 {
    start.wrapping_add((40 * index) as u64)
}

/// Whether row `index` gives the type `name` the size `size`.
pub open spec fn is_size_in(
    memory: Contents,
    start: u64,
    index: nat,
    name: Seq<char>,
    size: u64,
) -> bool {
    is_type_row(memory, type_row_at(start, index), name, size)
}

/// Whether row `index` is about the type `name`.
pub open spec fn is_type_in(memory: Contents, start: u64, index: nat, name: Seq<char>) -> bool {
    exists|size: u64| is_size_in(memory, start, index, name, size)
}

/// Whether `sizes` are the sizes in the first `count` rows: of several rows for a name the last one
/// counts.
pub open spec fn are_type_rows(
    memory: Contents,
    start: u64,
    count: nat,
    sizes: Map<Seq<char>, u64>,
) -> bool {
    &&& forall|name: Seq<char>| #[trigger]
        sizes.contains_key(name) ==> exists|index: nat|
            index < count && #[trigger] is_size_in(memory, start, index, name, sizes[name])
    &&& forall|index: nat, name: Seq<char>, size: u64|
        index < count && #[trigger] is_size_in(memory, start, index, name, size) && (forall|
            later: nat,
        |
            index < later < count ==> !#[trigger] is_type_in(memory, start, later, name))
            ==> sizes.contains_key(name) && sizes[name] == size
}

/// Whether `sizes` are the sizes in the rows up to the end of the table, or in the first 100000 of them.
pub open spec fn are_all_type_rows(
    memory: Contents,
    start: u64,
    sizes: Map<Seq<char>, u64>,
) -> bool {
    exists|count: nat|
        count <= 100_000 && (count == 100_000 || ends_at(memory, type_row_at(start, count)))
            && #[trigger] are_type_rows(memory, start, count, sizes)
}

proof fn one_more_type_row(
    memory: Contents,
    start: u64,
    index: nat,
    found: Map<Seq<char>, u64>,
    name: Seq<char>,
    size: u64,
)
    requires
        are_type_rows(memory, start, index, found),
        is_size_in(memory, start, index, name, size),
    ensures
        are_type_rows(memory, start, index + 1, found.insert(name, size)),
{
    let grown = found.insert(name, size);
    assert(is_type_in(memory, start, index, name));
    assert forall|other: Seq<char>| #[trigger] grown.contains_key(other) implies exists|i: nat|
        i < index + 1 && #[trigger] is_size_in(memory, start, i, other, grown[other]) by {
        if other == name {
            assert(is_size_in(memory, start, index, other, grown[other]));
        } else {
            assert(found.contains_key(other));
            let i = choose|i: nat|
                i < index && #[trigger] is_size_in(memory, start, i, other, found[other]);
            assert(is_size_in(memory, start, i, other, grown[other]));
        }
    }
    assert forall|i: nat, other: Seq<char>, known: u64|
        i < index + 1 && #[trigger] is_size_in(memory, start, i, other, known) && (forall|
            later: nat,
        |
            i < later < index + 1 ==> !#[trigger] is_type_in(memory, start, later, other))
        implies grown.contains_key(other) && grown[other] == known by {
        if i < index {
            assert(!is_type_in(memory, start, index, other));
            assert(other != name);
        } else {
            type_rows_are_recognized(memory, type_row_at(start, index), name, size);
            type_rows_are_recognized(memory, type_row_at(start, index), other, known);
        }
    }
}

proof fn type_rows_are_collected(
    memory: Contents,
    start: u64,
    index: nat,
    found: Map<Seq<char>, u64>,
)
    requires
        index <= 100_000,
        are_type_rows(memory, start, index, found),
    ensures
        vmtypes_from(memory, start, index, found) matches Ok(sizes) ==> are_all_type_rows(
            memory,
            start,
            sizes,
        ),
    decreases 100_000 - index,
{
    if index < 100_000 {
        let row = type_row_at(start, index);
        if let Ok(Some((name, size))) = vmtype_row(memory, row) {
            type_rows_are_recognized(memory, row, name, size);
            one_more_type_row(memory, start, index, found, name, size);
            let grown = found.insert(name, size);
            type_rows_are_collected(memory, start, index + 1, grown);
            assert(vmtypes_from(memory, start, index, found) == vmtypes_from(
                memory,
                start,
                index + 1,
                grown,
            ));
        } else {
            type_rows_are_recognized(memory, row, Seq::empty(), 0);
            if let Ok(sizes) = vmtypes_from(memory, start, index, found) {
                assert(ends_at(memory, type_row_at(start, index)));
                assert(sizes == found);
                assert(are_type_rows(memory, start, index, sizes));
            }
        }
    } else {
        assert(are_type_rows(memory, start, index, found));
    }
}

/// The table of types around a row has the sizes of its rows from its start on, up to its end or up to
/// 100000 of them, and is taken only if it has at least fifty.
pub proof fn types_around_a_row(memory: Contents, anchor: u64, start: u64)
    requires
        vmtypes_start(memory, anchor, 100_000) == Ok::<u64, Seq<char>>(start),
    ensures
        vmtypes_around(memory, anchor) matches Ok(sizes) ==> sizes.len() >= 50 && are_all_type_rows(
            memory,
            start,
            sizes,
        ),
{
    type_rows_are_collected(memory, start, 0, Map::empty());
}

/// The pages of an image are the pieces that could be read, in order.
pub proof fn image_is_the_readable_pages(pieces: Seq<Piece>, piece: Piece)
    ensures
        readable(Seq::empty()) == Seq::<PageView>::empty(),
        readable(pieces.push(piece)) == match piece.bytes {
            Some(bytes) => readable(pieces).push(PageView { base: piece.address, bytes }),
            None => readable(pieces),
        },
{
    assert(pieces.push(piece).drop_last() =~= pieces);
}

/// An image is taken of a module of up to 512 MiB, and only if a page of it can be read.
pub proof fn images_are_taken(memory: Contents, base: u64, size: nat)
    ensures
        image_of(memory, base, size) is Ok <==> 0 < size <= 536870912 && readable(
            crate::pages::page_pieces(memory, base, size, 0),
        ).len() > 0,
{
}

/// Whether a page has the bytes `needle` at `address`.
pub open spec fn page_has(page: PageView, needle: Seq<u8>, address: u64) -> bool {
    exists|at: nat| #[trigger]
        occurs_at(page.bytes, needle, at as int) && address == page.base.wrapping_add(at as u64)
}

/// The addresses of some bytes in an image are those at which a page has them.
pub proof fn bytes_are_found_in_the_image(pages: Seq<PageView>, needle: Seq<u8>, address: u64)
    requires
        needle.len() > 0,
    ensures
        addresses_of(pages, needle).contains(address) <==> exists|i: int|
            0 <= i < pages.len() && page_has(#[trigger] pages[i], needle, address),
    decreases pages.len(),
{
    if pages.len() > 0 {
        let before = addresses_of(pages.drop_last(), needle);
        let page = pages.last();
        let found = occurrences(page.bytes, needle);
        let here = addresses_at(page.base, found);
        bytes_are_found_in_the_image(pages.drop_last(), needle, address);
        occurrences_are_complete(page.bytes, needle);
        assert(addresses_of(pages, needle) == before + here);
        if here.contains(address) {
            let i = choose|i: int| 0 <= i < here.len() && here[i] == address;
            assert(found.contains(found[i]));
            assert(occurs_at(page.bytes, needle, found[i] as int));
            assert(page_has(pages[pages.len() - 1], needle, address));
        }
        if page_has(page, needle, address) {
            let at = choose|at: nat| #[trigger]
                occurs_at(page.bytes, needle, at as int) && address == page.base.wrapping_add(
                    at as u64,
                );
            assert(found.contains(at));
            let i = choose|i: int| 0 <= i < found.len() && found[i] == at;
            assert((before + here)[before.len() + i] == address);
        }
        if before.contains(address) {
            let i = choose|i: int| 0 <= i < before.len() && before[i] == address;
            assert((before + here)[i] == address);
            let j = choose|j: int|
                0 <= j < pages.drop_last().len() && page_has(
                    #[trigger] pages.drop_last()[j],
                    needle,
                    address,
                );
            assert(page_has(pages[j], needle, address));
        }
        if (before + here).contains(address) {
            let i = choose|i: int| 0 <= i < (before + here).len() && (before + here)[i] == address;
            if i < before.len() {
                assert(before[i] == address);
            } else {
                assert(here[i - before.len()] == address);
            }
        }
        if exists|i: int| 0 <= i < pages.len() && page_has(#[trigger] pages[i], needle, address) {
            let i = choose|i: int|
                0 <= i < pages.len() && page_has(#[trigger] pages[i], needle, address);
            if i < pages.len() - 1 {
                assert(page_has(pages.drop_last()[i], needle, address));
            }
        }
    }
}

/// Whether byte `at` of a page lies at a multiple of eight and starts one of the words `wanted`, and
/// `address` is its address.
pub open spec fn points_at(
    page: PageView,
    wanted: Set<u64>,
    at: nat,
    address: u64,
) -> bool {
    &&& at + 8 <= page.bytes.len()
    &&& (page.base + at) % 8 == 0
    &&& wanted.contains(word_at(page.bytes, at))
    &&& address == page.base.wrapping_add(at as u64)
}

/// Whether a page has one of the words `wanted` at `address`.
pub open spec fn page_points(page: PageView, wanted: Set<u64>, address: u64) -> bool {
    exists|at: nat| points_at(page, wanted, at, address)
}

proof fn pointers_in_a_page(page: PageView, wanted: Set<u64>, from: nat, address: u64)
    requires
        (page.base + from) % 8 == 0,
    ensures
        pointers_from(page, wanted, from).contains(address) <==> exists|at: nat|
            from <= at && #[trigger] points_at(page, wanted, at, address),
    decreases page.bytes.len() - from,
{
    let found = pointers_from(page, wanted, from);
    if from + 8 <= page.bytes.len() {
        let rest = pointers_from(page, wanted, from + 8);
        pointers_in_a_page(page, wanted, from + 8, address);
        let here = page.base.wrapping_add(from as u64);
        assert forall|at: nat| from <= at && #[trigger] points_at(page, wanted, at, address) implies
            at == from || at >= from + 8 by {}
        if wanted.contains(word_at(page.bytes, from)) {
            assert(found == seq![here] + rest);
            assert(found[0] == here);
            if found.contains(address) {
                let i = choose|i: int| 0 <= i < found.len() && found[i] == address;
                if i == 0 {
                    assert(points_at(page, wanted, from, address));
                } else {
                    assert(rest[i - 1] == address);
                }
            }
            if rest.contains(address) {
                let i = choose|i: int| 0 <= i < rest.len() && rest[i] == address;
                assert(found[i + 1] == address);
            }
        }
        if rest.contains(address) {
            let at = choose|at: nat|
                from + 8 <= at && #[trigger] points_at(page, wanted, at, address);
            assert(points_at(page, wanted, at, address));
        }
        if exists|at: nat| from <= at && #[trigger] points_at(page, wanted, at, address) {
            let at = choose|at: nat| from <= at && #[trigger] points_at(page, wanted, at, address);
            if at == from {
                assert(found[0] == address);
            } else {
                assert(points_at(page, wanted, at, address));
            }
        }
    }
}

/// The places of pointers in an image are the multiples of eight at which a page has one of the words
/// wanted.
pub proof fn pointers_are_found_in_the_image(
    pages: Seq<PageView>,
    wanted: Set<u64>,
    address: u64,
)
    ensures
        pointers_of(pages, wanted).contains(address) <==> exists|i: int|
            0 <= i < pages.len() && page_points(#[trigger] pages[i], wanted, address),
    decreases pages.len(),
{
    if pages.len() > 0 {
        let before = pointers_of(pages.drop_last(), wanted);
        let page = pages.last();
        let gap = to_alignment(page.base);
        let here = pointers_from(page, wanted, gap);
        pointers_are_found_in_the_image(pages.drop_last(), wanted, address);
        assert((page.base + gap) % 8 == 0);
        pointers_in_a_page(page, wanted, gap, address);
        assert(here.contains(address) <==> page_points(page, wanted, address)) by {
            if page_points(page, wanted, address) {
                let at = choose|at: nat| points_at(page, wanted, at, address);
                assert(at >= gap);
                assert(gap <= at && points_at(page, wanted, at, address));
            }
            if here.contains(address) {
                let at = choose|at: nat| gap <= at && #[trigger] points_at(page, wanted, at, address);
                assert(points_at(page, wanted, at, address));
            }
        }
        let all = before + here;
        assert(pointers_of(pages, wanted) == all);
        if here.contains(address) {
            let i = choose|i: int| 0 <= i < here.len() && here[i] == address;
            assert(all[before.len() + i] == address);
            assert(page_points(pages[pages.len() - 1], wanted, address));
        }
        if before.contains(address) {
            let i = choose|i: int| 0 <= i < before.len() && before[i] == address;
            assert(all[i] == address);
            let j = choose|j: int|
                0 <= j < pages.drop_last().len() && page_points(
                    #[trigger] pages.drop_last()[j],
                    wanted,
                    address,
                );
            assert(page_points(pages[j], wanted, address));
        }
        if all.contains(address) {
            let i = choose|i: int| 0 <= i < all.len() && all[i] == address;
            if i < before.len() {
                assert(before[i] == address);
            } else {
                assert(here[i - before.len()] == address);
            }
        }
        if exists|i: int| 0 <= i < pages.len() && page_points(#[trigger] pages[i], wanted, address) {
            let i = choose|i: int|
                0 <= i < pages.len() && page_points(#[trigger] pages[i], wanted, address);
            if i < pages.len() - 1 {
                assert(page_points(pages.drop_last()[i], wanted, address));
            }
        }
    }
}

/// Whether the entries describe the field `field` of `structure`.
pub open spec fn describe(
    entries: Seq<EntryView>,
    structure: Seq<char>,
    field: Seq<char>,
) -> bool {
    exists|i: int|
        0 <= i < entries.len() && (#[trigger] entries[i]).struct_name == structure
            && entries[i].field_name == field
}

/// Tables that are found in the image of a module describe each field that the rest depends on, and
/// have the size of each type.
pub proof fn found_tables_describe_what_is_needed(memory: Contents, base: u64, size: nat)
    ensures
        tables_in(memory, base, size) matches Ok((entries, sizes)) ==> {
            &&& describe(entries, "SystemDictionary"@, "_dictionary"@)
            &&& describe(entries, "BasicHashtable<mtInternal>"@, "_table_size"@)
            &&& describe(entries, "BasicHashtable<mtInternal>"@, "_buckets"@)
            &&& describe(entries, "HashtableBucket<mtInternal>"@, "_entry"@)
            &&& describe(entries, "BasicHashtableEntry<mtInternal>"@, "_next"@)
            &&& describe(entries, "IntptrHashtableEntry"@, "_literal"@)
            &&& describe(entries, "Klass"@, "_name"@)
            &&& describe(entries, "Klass"@, "_super"@)
            &&& describe(entries, "Klass"@, "_access_flags"@)
            &&& describe(entries, "Symbol"@, "_length"@)
            &&& describe(entries, "Symbol"@, "_body"@)
            &&& describe(entries, "InstanceKlass"@, "_constants"@)
            &&& describe(entries, "InstanceKlass"@, "_fields"@)
            &&& describe(entries, "InstanceKlass"@, "_methods"@)
            &&& describe(entries, "ConstantPool"@, "_tags"@)
            &&& describe(entries, "ConstantPool"@, "_length"@)
            &&& describe(entries, "Method"@, "_constMethod"@)
            &&& describe(entries, "ConstMethod"@, "_code_size"@)
            &&& sizes.contains_key("ConstantPool"@)
            &&& sizes.contains_key("ConstMethod"@)
            &&& sizes.contains_key("ConstantPoolCache"@)
            &&& sizes.contains_key("ConstantPoolCacheEntry"@)
        },
{
    inferred_tables_are_complete(memory, base, size);
    if let Ok((entries, sizes)) = tables_in(memory, base, size) {
        let fields = required_fields();
        assert forall|i: int| 0 <= i < 18 implies describe(
            entries,
            (#[trigger] fields[i]).0,
            fields[i].1,
        ) by {
            assert(describes(entries, required_fields()[i]));
        }
        assert(fields[0] == ("SystemDictionary"@, "_dictionary"@));
        assert(fields[1] == ("BasicHashtable<mtInternal>"@, "_table_size"@));
        assert(fields[2] == ("BasicHashtable<mtInternal>"@, "_buckets"@));
        assert(fields[3] == ("HashtableBucket<mtInternal>"@, "_entry"@));
        assert(fields[4] == ("BasicHashtableEntry<mtInternal>"@, "_next"@));
        assert(fields[5] == ("IntptrHashtableEntry"@, "_literal"@));
        assert(fields[6] == ("Klass"@, "_name"@));
        assert(fields[7] == ("Klass"@, "_super"@));
        assert(fields[8] == ("Klass"@, "_access_flags"@));
        assert(fields[9] == ("Symbol"@, "_length"@));
        assert(fields[10] == ("Symbol"@, "_body"@));
        assert(fields[11] == ("InstanceKlass"@, "_constants"@));
        assert(fields[12] == ("InstanceKlass"@, "_fields"@));
        assert(fields[13] == ("InstanceKlass"@, "_methods"@));
        assert(fields[14] == ("ConstantPool"@, "_tags"@));
        assert(fields[15] == ("ConstantPool"@, "_length"@));
        assert(fields[16] == ("Method"@, "_constMethod"@));
        assert(fields[17] == ("ConstMethod"@, "_code_size"@));
    }
}

/// Tables are looked for where an image points at the names that they start from: that of fields around
/// a row for `SystemDictionary::_dictionary`, that of types around a row for `ConstantPool`.
pub proof fn tables_are_found_around_their_anchors(memory: Contents, pages: Seq<PageView>)
    ensures
        vmstructs_in(memory, pages) matches Ok(entries) ==> is_around_a_field(
            memory,
            pages,
            entries,
        ),
        vmtypes_in(memory, pages) matches Ok(sizes) ==> is_around_a_type(memory, pages, sizes),
{
    let names = strings_of(pages, "SystemDictionary"@);
    let rows = pointers_of(pages, names.to_set());
    best_fields_are_kept(memory, strings_of(pages, "_dictionary"@).to_set(), rows, rows.len());
    if let Ok(entries) = vmstructs_in(memory, pages) {
        let i = choose|i: int|
            0 <= i < rows.len() && vmstructs_around(memory, #[trigger] rows[i]) == Ok::<
                Seq<EntryView>,
                Seq<char>,
            >(entries);
        assert(rows.contains(rows[i]));
    }
    let types = pointers_of(pages, strings_of(pages, "ConstantPool"@).to_set());
    best_types_are_kept(memory, types, types.len());
    if let Ok(sizes) = vmtypes_in(memory, pages) {
        let i = choose|i: int|
            0 <= i < types.len() && vmtypes_around(memory, #[trigger] types[i]) == Ok::<
                Map<Seq<char>, u64>,
                Seq<char>,
            >(sizes);
        assert(types.contains(types[i]));
    }
}

/// Whether `entries` is the table of fields around a place that points at `SystemDictionary`.
pub open spec fn is_around_a_field(
    memory: Contents,
    pages: Seq<PageView>,
    entries: Seq<EntryView>,
) -> bool {
    exists|row: u64|
        pointers_of(pages, strings_of(pages, "SystemDictionary"@).to_set()).contains(row)
            && #[trigger] vmstructs_around(memory, row) == Ok::<Seq<EntryView>, Seq<char>>(entries)
}

/// Whether `sizes` is the table of types around a place that points at `ConstantPool`.
pub open spec fn is_around_a_type(
    memory: Contents,
    pages: Seq<PageView>,
    sizes: Map<Seq<char>, u64>,
) -> bool {
    exists|row: u64|
        pointers_of(pages, strings_of(pages, "ConstantPool"@).to_set()).contains(row) && #[trigger]
            vmtypes_around(memory, row) == Ok::<Map<Seq<char>, u64>, Seq<char>>(sizes)
}

/// The strings of an image are found with their terminators.
pub proof fn strings_end_with_a_zero(pages: Seq<PageView>, text: Seq<char>, address: u64)
    ensures
        strings_of(pages, text).contains(address) <==> exists|i: int|
            0 <= i < pages.len() && page_has(
                #[trigger] pages[i],
                encode_utf8(text) + seq![0u8],
                address,
            ),
{
    assert(encode_utf8(text).push(0u8) =~= encode_utf8(text) + seq![0u8]);
    bytes_are_found_in_the_image(pages, encode_utf8(text).push(0u8), address);
}

/// A table of fields is gone back through as long as there are rows: it starts behind an end, at the start
/// of memory, or where the steps are used up.
pub proof fn fields_start_where_their_rows_do(
    memory: Contents,
    row: u64,
    steps: nat,
    before: nat,
)
    requires
        before <= steps,
        48 * before <= row,
        forall|i: int|
            1 <= i <= before ==> #[trigger] has_field_row(memory, row_before(row, 48, i)),
        before == steps || row - 48 * before < 48 || ends_at(
            memory,
            row_before(row, 48, before as int + 1),
        ),
    ensures
        vmstructs_start(memory, row, steps) == Ok::<u64, Seq<char>>(
            row_before(row, 48, before as int),
        ),
    decreases steps,
{
    if steps > 0 && row >= 48 {
        let previous = row_before(row, 48, 1);
        if before == 0 {
            field_rows_are_recognized(memory, previous, arbitrary::<EntryView>());
        } else {
            assert(has_field_row(memory, row_before(row, 48, 1)));
            let entry = choose|entry: EntryView| is_field_row(memory, previous, entry);
            field_rows_are_recognized(memory, previous, entry);
            assert forall|i: int| 1 <= i <= before - 1 implies #[trigger] has_field_row(
                memory,
                row_before(previous, 48, i),
            ) by {
                assert(row_before(previous, 48, i) == row_before(row, 48, i + 1));
            }
            fields_start_where_their_rows_do(
                memory,
                previous,
                (steps - 1) as nat,
                (before - 1) as nat,
            );
        }
    }
}

/// A table of types is gone back through as long as there are rows: it starts behind an end, at the start
/// of memory, or where the steps are used up.
pub proof fn types_start_where_their_rows_do(
    memory: Contents,
    row: u64,
    steps: nat,
    before: nat,
)
    requires
        before <= steps,
        40 * before <= row,
        forall|i: int|
            1 <= i <= before ==> #[trigger] has_type_row(memory, row_before(row, 40, i)),
        before == steps || row - 40 * before < 40 || ends_at(
            memory,
            row_before(row, 40, before as int + 1),
        ),
    ensures
        vmtypes_start(memory, row, steps) == Ok::<u64, Seq<char>>(
            row_before(row, 40, before as int),
        ),
    decreases steps,
{
    if steps > 0 && row >= 40 {
        let previous = row_before(row, 40, 1);
        if before == 0 {
            type_rows_are_recognized(memory, previous, Seq::empty(), 0);
        } else {
            assert(has_type_row(memory, row_before(row, 40, 1)));
            let (name, size) = choose|name: Seq<char>, size: u64|
                is_type_row(memory, previous, name, size);
            type_rows_are_recognized(memory, previous, name, size);
            assert forall|i: int| 1 <= i <= before - 1 implies #[trigger] has_type_row(
                memory,
                row_before(previous, 40, i),
            ) by {
                assert(row_before(previous, 40, i) == row_before(row, 40, i + 1));
            }
            types_start_where_their_rows_do(
                memory,
                previous,
                (steps - 1) as nat,
                (before - 1) as nat,
            );
        }
    }
}

proof fn type_rows_are_collected_to_their_end(
    memory: Contents,
    start: u64,
    index: nat,
    count: nat,
    found: Map<Seq<char>, u64>,
)
    requires
        index <= count <= 100_000,
        forall|i: nat| i < count ==> has_type_row(memory, #[trigger] type_row_at(start, i)),
        count == 100_000 || ends_at(memory, type_row_at(start, count)),
        are_type_rows(memory, start, index, found),
    ensures
        vmtypes_from(memory, start, index, found) matches Ok(sizes) && are_type_rows(
            memory,
            start,
            count,
            sizes,
        ),
    decreases count - index,
{
    let row = type_row_at(start, index);
    if index < count {
        assert(has_type_row(memory, type_row_at(start, index)));
        let (name, size) = choose|name: Seq<char>, size: u64| is_type_row(memory, row, name, size);
        type_rows_are_recognized(memory, row, name, size);
        assert(is_size_in(memory, start, index, name, size));
        one_more_type_row(memory, start, index, found, name, size);
        let grown = found.insert(name, size);
        type_rows_are_collected_to_their_end(memory, start, index + 1, count, grown);
        assert(vmtypes_from(memory, start, index, found) == vmtypes_from(
            memory,
            start,
            index + 1,
            grown,
        ));
    } else {
        type_rows_are_recognized(memory, row, Seq::empty(), 0);
    }
}

/// Whether the table of types around `anchor` is taken if `sizes` are enough, and is made of these.
pub open spec fn are_taken_if_enough(
    memory: Contents,
    anchor: u64,
    sizes: Map<Seq<char>, u64>,
) -> bool {
    &&& sizes.len() >= 50 ==> offers_types(memory, anchor, sizes)
    &&& sizes.len() < 50 ==> vmtypes_around(memory, anchor) is Err
}

/// A table of types whose rows are all well formed is taken with all of them if these give at least
/// fifty types a size.
pub proof fn types_are_taken_up_to_their_end(
    memory: Contents,
    anchor: u64,
    start: u64,
    count: nat,
)
    requires
        vmtypes_start(memory, anchor, 100_000) == Ok::<u64, Seq<char>>(start),
        count <= 100_000,
        forall|i: nat| i < count ==> has_type_row(memory, #[trigger] type_row_at(start, i)),
        count == 100_000 || ends_at(memory, type_row_at(start, count)),
    ensures
        exists|sizes: Map<Seq<char>, u64>| #[trigger]
            are_type_rows(memory, start, count, sizes) && are_taken_if_enough(
                memory,
                anchor,
                sizes,
            ),
{
    type_rows_are_collected_to_their_end(memory, start, 0, count, Map::empty());
    let sizes = vmtypes_from(memory, start, 0, Map::empty())->Ok_0;
    assert(are_type_rows(memory, start, count, sizes));
    assert(are_taken_if_enough(memory, anchor, sizes));
}

/// Whether a table describes every required field.
pub open spec fn are_complete_fields(entries: Seq<EntryView>) -> bool {
    forall|i: int| 0 <= i < 18 ==> describes(entries, #[trigger] required_fields()[i])
}

/// Whether a table has every required type.
pub open spec fn are_complete_types(sizes: Map<Seq<char>, u64>) -> bool {
    &&& sizes.contains_key("ConstantPool"@)
    &&& sizes.contains_key("ConstMethod"@)
    &&& sizes.contains_key("ConstantPoolCache"@)
    &&& sizes.contains_key("ConstantPoolCacheEntry"@)
}

proof fn fields_are_counted(entries: Seq<EntryView>, count: nat)
    requires
        count <= 18,
    ensures
        fields_described(entries, count) <= count,
        fields_described(entries, count) == count <==> forall|i: int|
            0 <= i < count ==> describes(entries, #[trigger] required_fields()[i]),
    decreases count,
{
    if count > 0 {
        fields_are_counted(entries, (count - 1) as nat);
        assert(describes(entries, required_fields()[count - 1]) || !describes(
            entries,
            required_fields()[count - 1],
        ));
    }
}

/// A table of fields is found if and only if an image points at the name of `SystemDictionary` in a row
/// that names `_dictionary`, and the table around such a row describes every required field.
pub proof fn complete_fields_are_found(memory: Contents, pages: Seq<PageView>)
    ensures
        vmstructs_in(memory, pages) is Ok <==> exists|row: u64, entries: Seq<EntryView>|
            pointers_of(pages, strings_of(pages, "SystemDictionary"@).to_set()).contains(row)
                && #[trigger] offers_fields(
                memory,
                strings_of(pages, "_dictionary"@).to_set(),
                row,
                entries,
            ) && are_complete_fields(entries),
{
    let names = strings_of(pages, "SystemDictionary"@);
    let fields = strings_of(pages, "_dictionary"@);
    let rows = pointers_of(pages, names.to_set());
    best_fields_are_kept(memory, fields.to_set(), rows, rows.len());
    assert forall|entries: Seq<EntryView>| #[trigger] vmstructs_score(entries) <= 18 && (
    vmstructs_score(entries) == 18 <==> are_complete_fields(entries)) by {
        fields_are_counted(entries, 18);
    }
    if let Ok(entries) = vmstructs_in(memory, pages) {
        let i = choose|i: int|
            0 <= i < rows.len() && #[trigger] offers_fields(
                memory,
                fields.to_set(),
                rows[i],
                entries,
            );
        assert(rows.contains(rows[i]));
    }
    assert forall|row: u64, entries: Seq<EntryView>|
        rows.contains(row) && #[trigger] offers_fields(memory, fields.to_set(), row, entries)
            && are_complete_fields(entries) implies vmstructs_in(memory, pages) is Ok by {
        pointers_are_found_in_the_image(pages, names.to_set(), row);
        if names.len() == 0 {
            assert(names.to_set() =~= Set::empty());
        }
        let i = choose|i: int| 0 <= i < rows.len() && rows[i] == row;
        assert(offers_fields(memory, fields.to_set(), rows[i], entries));
    }
}

/// A table of types is found if and only if an image points at the name of `ConstantPool` in a row
/// around which there is a table that has every required type.
pub proof fn complete_types_are_found(memory: Contents, pages: Seq<PageView>)
    ensures
        vmtypes_in(memory, pages) is Ok <==> exists|row: u64, sizes: Map<Seq<char>, u64>|
            pointers_of(pages, strings_of(pages, "ConstantPool"@).to_set()).contains(row)
                && #[trigger] offers_types(memory, row, sizes) && are_complete_types(sizes),
{
    let names = strings_of(pages, "ConstantPool"@);
    let rows = pointers_of(pages, names.to_set());
    best_types_are_kept(memory, rows, rows.len());
    if let Ok(sizes) = vmtypes_in(memory, pages) {
        let i = choose|i: int|
            0 <= i < rows.len() && #[trigger] offers_types(memory, rows[i], sizes);
        assert(rows.contains(rows[i]));
    }
    assert forall|row: u64, sizes: Map<Seq<char>, u64>|
        rows.contains(row) && #[trigger] offers_types(memory, row, sizes) && are_complete_types(
            sizes,
        ) implies vmtypes_in(memory, pages) is Ok by {
        pointers_are_found_in_the_image(pages, names.to_set(), row);
        if names.len() == 0 {
            assert(names.to_set() =~= Set::empty());
        }
        let i = choose|i: int| 0 <= i < rows.len() && rows[i] == row;
        assert(offers_types(memory, rows[i], sizes));
    }
}

} // verus!
