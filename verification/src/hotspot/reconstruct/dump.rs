//! What becomes of the classes of a target.
use vstd::prelude::*;
use vstd::utf8::encode_utf8;

use super::archive::{entry_name, safe_name};
use super::image::reconstructed;
use super::{archivable, archived, dump_of, every_class_is_counted, layout_of, report_of, Layout};
use crate::hotspot::dictionary::ClassView;
use crate::hotspot::vmstructs::EntryView;
use crate::platform::Contents;

verus! {

/// A class is archived if and only if it can be reconstructed and its name is safe and, as that of a
/// file, takes fewer than 65505 bytes. What is archived is what was reconstructed.
pub proof fn classes_are_archived_as_reconstructed(
    memory: Contents,
    class: ClassView,
    layout: Layout,
    bytes: Seq<u8>,
)
    ensures
        archivable(memory, class, layout) == Ok::<Seq<u8>, Seq<char>>(bytes) <==> {
            &&& reconstructed(memory, class, layout) == Ok::<Seq<u8>, Seq<char>>(bytes)
            &&& safe_name(class.internal_name)
            &&& encode_utf8(entry_name(class.internal_name)).len() <= 65504
        },
{
    reveal(archivable);
}

/// One more class adds one to the classes that were archived, that failed or that had the name of an
/// earlier one. What was archived and told before stays as it was. A class that fails is told of with
/// its name and the reason, unless eight were.
pub proof fn one_more_class_is_dealt_with(
    memory: Contents,
    layout: Layout,
    classes: Seq<ClassView>,
    class: ClassView,
)
    ensures
        ({
            let before = report_of(memory, layout, classes);
            let after = report_of(memory, layout, classes.push(class));
            let name = class.internal_name + ".class"@;
            match archivable(memory, class, layout) {
                Err(reason) => {
                    &&& after.failed == before.failed + 1
                    &&& after.written == before.written
                    &&& after.duplicates == before.duplicates
                    &&& after.archive == before.archive
                    &&& before.failures.len() < 8 ==> after.failures == before.failures.push(
                        class.internal_name + ": "@ + reason,
                    )
                    &&& before.failures.len() >= 8 ==> after.failures == before.failures
                },
                Ok(bytes) => {
                    &&& after.failed == before.failed
                    &&& after.failures == before.failures
                    &&& if exists|i: int|
                        0 <= i < before.archive.len() && (#[trigger] before.archive[i]).0 == name {
                        &&& after.duplicates == before.duplicates + 1
                        &&& after.written == before.written
                        &&& after.archive == before.archive
                    } else {
                        &&& after.duplicates == before.duplicates
                        &&& after.written == before.written + 1
                        &&& after.archive == before.archive.push((name, bytes))
                    }
                },
            }
        }),
{
    assert(classes.push(class).drop_last() =~= classes);
}

/// What the first classes give comes first, whatever classes follow.
pub proof fn later_classes_come_behind(
    memory: Contents,
    layout: Layout,
    classes: Seq<ClassView>,
    more: Seq<ClassView>,
)
    ensures
        ({
            let before = report_of(memory, layout, classes);
            let after = report_of(memory, layout, classes + more);
            &&& before.archive.len() <= after.archive.len()
            &&& after.archive.take(before.archive.len() as int) == before.archive
            &&& before.failures.len() <= after.failures.len()
            &&& after.failures.take(before.failures.len() as int) == before.failures
        }),
    decreases more.len(),
{
    let before = report_of(memory, layout, classes);
    if more.len() == 0 {
        assert(classes + more =~= classes);
        assert(before.archive.take(before.archive.len() as int) =~= before.archive);
        assert(before.failures.take(before.failures.len() as int) =~= before.failures);
    } else {
        let shorter = classes + more.drop_last();
        later_classes_come_behind(memory, layout, classes, more.drop_last());
        assert((classes + more).drop_last() =~= shorter);
        let middle = report_of(memory, layout, shorter);
        let after = report_of(memory, layout, classes + more);
        assert(after.archive.take(before.archive.len() as int) =~= middle.archive.take(
            before.archive.len() as int,
        ));
        assert(after.failures.take(before.failures.len() as int) =~= middle.failures.take(
            before.failures.len() as int,
        ));
    }
}

/// What is archived under a name is one of the classes of that name.
proof fn names_come_from_classes(memory: Contents, layout: Layout, classes: Seq<ClassView>, at: int)
    requires
        0 <= at < report_of(memory, layout, classes).archive.len(),
    ensures
        exists|i: int|
            0 <= i < classes.len() && archivable(memory, #[trigger] classes[i], layout) is Ok
                && entry_name(classes[i].internal_name) == report_of(
                memory,
                layout,
                classes,
            ).archive[at].0,
    decreases classes.len(),
{
    if classes.len() > 0 {
        let shorter = classes.drop_last();
        let before = report_of(memory, layout, shorter);
        let after = report_of(memory, layout, classes);
        if at < before.archive.len() {
            names_come_from_classes(memory, layout, shorter, at);
            let i = choose|i: int|
                0 <= i < shorter.len() && archivable(memory, #[trigger] shorter[i], layout) is Ok
                    && entry_name(shorter[i].internal_name) == before.archive[at].0;
            assert(classes[i] == shorter[i]);
            assert(after.archive[at] == before.archive[at]);
        } else {
            assert(classes[classes.len() - 1] == classes.last());
        }
    }
}

/// Of several classes of one name the first that can be archived is, with its own class file.
pub proof fn first_class_of_a_name_is_archived(
    memory: Contents,
    layout: Layout,
    classes: Seq<ClassView>,
    index: int,
    bytes: Seq<u8>,
)
    requires
        0 <= index < classes.len(),
        archivable(memory, classes[index], layout) == Ok::<Seq<u8>, Seq<char>>(bytes),
        forall|i: int|
            0 <= i < index ==> (#[trigger] classes[i]).internal_name
                != classes[index].internal_name || archivable(memory, classes[i], layout) is Err,
    ensures
        report_of(memory, layout, classes).archive.contains(
            (entry_name(classes[index].internal_name), bytes),
        ),
{
    let class = classes[index];
    let name = entry_name(class.internal_name);
    let earlier = classes.take(index);
    let until = classes.take(index + 1);
    let before = report_of(memory, layout, earlier);
    assert(until.drop_last() =~= earlier);
    assert(until.last() == class);
    if archived(before.archive, name) {
        let at = choose|at: int|
            0 <= at < before.archive.len() && (#[trigger] before.archive[at]).0 == name;
        names_come_from_classes(memory, layout, earlier, at);
        let i = choose|i: int|
            0 <= i < earlier.len() && archivable(memory, #[trigger] earlier[i], layout) is Ok
                && entry_name(earlier[i].internal_name) == name;
        assert(classes[i] == earlier[i]);
        super::archive::files_are_named_after_classes(
            classes[i].internal_name,
            class.internal_name,
        );
    }
    let after = report_of(memory, layout, until);
    assert(after.archive.last() == (name, bytes));
    let more = classes.skip(index + 1);
    later_classes_come_behind(memory, layout, until, more);
    assert(until + more =~= classes);
    let all = report_of(memory, layout, classes).archive;
    assert(all.take(after.archive.len() as int)[after.archive.len() - 1] == (name, bytes));
    assert(all[after.archive.len() - 1] == (name, bytes));
}

/// Where the layout is not known, every class fails, none is archived, and one reason is told.
pub proof fn classes_without_a_layout_fail(
    memory: Contents,
    classes: Seq<ClassView>,
    vm: Seq<EntryView>,
    types: Map<Seq<char>, u64>,
)
    requires
        layout_of(vm, types) is Err,
    ensures
        ({
            let report = dump_of(memory, classes, vm, types);
            &&& report.failed == classes.len()
            &&& report.written == 0
            &&& report.duplicates == 0
            &&& report.archive.len() == 0
            &&& report.failures.len() == 1
        }),
{
}

/// At most eight failures are told of, and fewer only if fewer classes failed.
pub proof fn eight_failures_are_told(
    memory: Contents,
    classes: Seq<ClassView>,
    vm: Seq<EntryView>,
    types: Map<Seq<char>, u64>,
)
    requires
        layout_of(vm, types) is Ok,
    ensures
        ({
            let report = dump_of(memory, classes, vm, types);
            &&& report.failures.len() <= 8
            &&& report.failures.len() < 8 ==> report.failures.len() == report.failed
        }),
{
    every_class_is_counted(memory, classes, vm, types);
}

} // verus!
