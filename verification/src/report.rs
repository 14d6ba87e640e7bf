//! What the operator is told about an inspection.
use vstd::prelude::*;

use crate::hotspot::discovery::{DiscoveryReport, StructuralAnchors};
use crate::lists::views;
use crate::text::{
    address_chars, address_text, decimal_digits, decimal_text, short_hex, short_hex_text,
};

verus! {

/// A line for the operator.
#[derive(Debug)]
pub enum Note {
    Info(String),
    Warning(String),
}

/// A line for the operator, by its text.
pub enum NoteView {
    Info(Seq<char>),
    Warning(Seq<char>),
}

impl View for Note {
    type V = NoteView;

    open spec fn view(&self) -> NoteView {
        match self {
            Note::Info(text) => NoteView::Info(text@),
            Note::Warning(text) => NoteView::Warning(text@),
        }
    }
}

/// Where HotSpot was found.
pub open spec fn module_line(base: u64, size: usize) -> Seq<char> {
    "HotSpot module: base="@ + address_chars(base) + ", size="@ + decimal_digits(
        (size / 1024) as nat,
    ) + " KiB"@
}

/// The classes that every target has.
pub open spec fn anchors_line(anchors: [&'static str; 4]) -> Seq<char> {
    "bootstrap anchors: "@ + anchors[0]@ + ", "@ + anchors[1]@ + ", "@ + anchors[2]@ + ", "@
        + anchors[3]@
}

/// How much memory was searched by shape.
pub open spec fn scan_line(bytes: u64) -> Seq<char> {
    "structural scan: "@ + decimal_digits((bytes / 1024 / 1024) as nat) + " MiB readable memory"@
}

/// What hangs on `java/lang/Object`.
pub open spec fn structure_line(anchors: StructuralAnchors) -> Seq<char> {
    "anchors: Object Symbol="@ + address_chars(anchors.object_symbol) + " Klass="@ + address_chars(
        anchors.object_klass,
    ) + " CP.vtable="@ + address_chars(anchors.constant_pool_vtable) + " CP.size=0x"@ + short_hex(
        anchors.constant_pool_size as nat,
    )
}

/// Where the classes were found: in the dictionary if it was found, or else by their pools.
pub open spec fn source_line(storage: Option<u64>, dictionary: Option<u64>) -> Seq<char> {
    match (storage, dictionary) {
        (Some(storage), Some(dictionary)) => "SystemDictionary::_dictionary: storage="@
            + address_chars(storage) + " value="@ + address_chars(dictionary),
        _ => "class source: validated ConstantPool -> InstanceKlass graph"@,
    }
}

/// What is told of how HotSpot and its classes were found.
pub open spec fn found_notes(report: DiscoveryReport) -> Seq<NoteView> {
    let start = Seq::<NoteView>::empty().push(
        NoteView::Info(module_line(report.jvm_module_base, report.jvm_module_size)),
    ).push(NoteView::Info(anchors_line(report.anchors))).push(
        NoteView::Info(
            "VMStructs: "@ + decimal_digits(report.vmstruct_count as nat) + " entries"@,
        ),
    ).push(NoteView::Info("layout source: "@ + report.layout_source@));
    let scanned = match report.scanned_bytes {
        Some(bytes) => start.push(NoteView::Info(scan_line(bytes))),
        None => start,
    };
    let anchored = match report.structural_anchors {
        Some(anchors) => scanned.push(NoteView::Info(structure_line(anchors))),
        None => scanned,
    };
    anchored.push(
        NoteView::Info(source_line(report.system_dictionary_storage, report.system_dictionary)),
    )
}

/// What is told of the classes that were left out.
pub open spec fn skipped_notes(failures: Seq<Seq<char>>) -> Seq<NoteView> {
    Seq::new(failures.len(), |i: int| NoteView::Warning("classfile skipped: "@ + failures[i]))
}

/// What the archive holds.
pub open spec fn archive_line(jar_path: Seq<char>, written: usize, duplicates: usize) -> Seq<char> {
    "JAR written to "@ + jar_path + " ("@ + decimal_digits(written as nat)
        + " case-sensitive entries, "@ + decimal_digits(duplicates as nat)
        + " exact-name duplicates skipped)"@
}

/// What is told of the results, which were written to the directory `output`.
pub open spec fn result_notes(
    report: DiscoveryReport,
    jar_path: Seq<char>,
    output: Seq<char>,
) -> Seq<NoteView> {
    let counted = Seq::<NoteView>::empty().push(
        NoteView::Info(
            "discovered classes: "@ + decimal_digits(report.classes@.len())
                + " (index written to classes.txt)"@,
        ),
    ).push(
        NoteView::Info(
            "classfiles: archived="@ + decimal_digits(report.classfiles_written as nat)
                + " failed="@ + decimal_digits(report.classfiles_failed as nat),
        ),
    ) + skipped_notes(views(report.classfile_failures@));
    let archived = counted.push(
        NoteView::Info(
            archive_line(jar_path, report.classfiles_written, report.archive_duplicates),
        ),
    );
    let warned = if report.archive_duplicates > 0 {
        archived.push(
            NoteView::Warning(
                "exact-name duplicates from different class loaders skipped: "@ + decimal_digits(
                    report.archive_duplicates as nat,
                ),
            ),
        )
    } else {
        archived
    };
    warned.push(NoteView::Info("next: "@ + report.next_step@)).push(
        NoteView::Info("output="@ + output),
    ).push(NoteView::Info("external metadata traversal completed"@))
}

/// Adds a line.
pub fn note(notes: &mut Vec<Note>, line: String)
    ensures
        views(final(notes)@) == views(old(notes)@).push(NoteView::Info(line@)),
{
    notes.push(Note::Info(line));
    assert(views(notes@) =~= views(old(notes)@).push(NoteView::Info(line@)));
}

/// Adds a warning.
fn warn(notes: &mut Vec<Note>, line: String)
    ensures
        views(final(notes)@) == views(old(notes)@).push(NoteView::Warning(line@)),
{
    notes.push(Note::Warning(line));
    assert(views(notes@) =~= views(old(notes)@).push(NoteView::Warning(line@)));
}

fn tell_module(base: u64, size: usize) -> (line: String)
    ensures
        line@ == module_line(base, size),
{
    let mut line = "HotSpot module: base=".to_owned();
    line.append(address_text(base).as_str());
    line.append(", size=");
    line.append(decimal_text((size / 1024) as u64).as_str());
    line.append(" KiB");
    line
}

fn tell_anchors(anchors: &[&'static str; 4]) -> (line: String)
    ensures
        line@ == anchors_line(*anchors),
{
    let mut line = "bootstrap anchors: ".to_owned();
    line.append(anchors[0]);
    line.append(", ");
    line.append(anchors[1]);
    line.append(", ");
    line.append(anchors[2]);
    line.append(", ");
    line.append(anchors[3]);
    line
}

fn tell_structure(anchors: &StructuralAnchors) -> (line: String)
    ensures
        line@ == structure_line(*anchors),
{
    let mut line = "anchors: Object Symbol=".to_owned();
    line.append(address_text(anchors.object_symbol).as_str());
    line.append(" Klass=");
    line.append(address_text(anchors.object_klass).as_str());
    line.append(" CP.vtable=");
    line.append(address_text(anchors.constant_pool_vtable).as_str());
    line.append(" CP.size=0x");
    line.append(short_hex_text(anchors.constant_pool_size).as_str());
    line
}

fn tell_source(storage: Option<u64>, dictionary: Option<u64>) -> (line: String)
    ensures
        line@ == source_line(storage, dictionary),
{
    match (storage, dictionary) {
        (Some(storage), Some(dictionary)) => {
            let mut line = "SystemDictionary::_dictionary: storage=".to_owned();
            line.append(address_text(storage).as_str());
            line.append(" value=");
            line.append(address_text(dictionary).as_str());
            line
        },
        _ => "class source: validated ConstantPool -> InstanceKlass graph".to_owned(),
    }
}

fn tell_archive(jar_path: &str, written: usize, duplicates: usize) -> (line: String)
    ensures
        line@ == archive_line(jar_path@, written, duplicates),
{
    let mut line = "JAR written to ".to_owned();
    line.append(jar_path);
    line.append(" (");
    line.append(decimal_text(written as u64).as_str());
    line.append(" case-sensitive entries, ");
    line.append(decimal_text(duplicates as u64).as_str());
    line.append(" exact-name duplicates skipped)");
    line
}

/// Tells how HotSpot and its classes were found.
pub fn describe_discovery(report: &DiscoveryReport) -> (notes: Vec<Note>)
    ensures
        views(notes@) == found_notes(*report),
{
    let mut notes: Vec<Note> = Vec::new();
    assert(views(notes@) =~= Seq::empty());
    note(&mut notes, tell_module(report.jvm_module_base, report.jvm_module_size));
    note(&mut notes, tell_anchors(&report.anchors));
    let mut line = "VMStructs: ".to_owned();
    line.append(decimal_text(report.vmstruct_count as u64).as_str());
    line.append(" entries");
    note(&mut notes, line);
    let mut line = "layout source: ".to_owned();
    line.append(report.layout_source.as_str());
    note(&mut notes, line);
    if let Some(bytes) = report.scanned_bytes {
        let mut line = "structural scan: ".to_owned();
        line.append(decimal_text(bytes / 1024 / 1024).as_str());
        line.append(" MiB readable memory");
        note(&mut notes, line);
    }
    if let Some(anchors) = &report.structural_anchors {
        note(&mut notes, tell_structure(anchors));
    }
    note(&mut notes, tell_source(report.system_dictionary_storage, report.system_dictionary));
    notes
}

/// Tells what the results are that were written to the directory `output`, the archive among them
/// to `jar_path`.
pub fn describe_results(report: &DiscoveryReport, jar_path: &str, output: &str) -> (notes: Vec<Note>)
    ensures
        views(notes@) == result_notes(*report, jar_path@, output@),
{
    let mut notes: Vec<Note> = Vec::new();
    assert(views(notes@) =~= Seq::empty());
    let mut line = "discovered classes: ".to_owned();
    line.append(decimal_text(report.classes.len() as u64).as_str());
    line.append(" (index written to classes.txt)");
    note(&mut notes, line);
    let mut line = "classfiles: archived=".to_owned();
    line.append(decimal_text(report.classfiles_written as u64).as_str());
    line.append(" failed=");
    line.append(decimal_text(report.classfiles_failed as u64).as_str());
    note(&mut notes, line);
    let ghost start = views(notes@);
    let ghost failures = views(report.classfile_failures@);
    let mut next: usize = 0;
    assert(start + skipped_notes(failures.take(0)) =~= start);
    while next < report.classfile_failures.len()
        invariant
            next <= report.classfile_failures@.len(),
            failures == views(report.classfile_failures@),
            views(notes@) == start + skipped_notes(failures.take(next as int)),
        decreases report.classfile_failures@.len() - next,
    {
        let mut line = "classfile skipped: ".to_owned();
        line.append(report.classfile_failures[next].as_str());
        warn(&mut notes, line);
        assert(views(notes@) =~= start + skipped_notes(failures.take(next + 1)));
        next += 1;
    }
    assert(failures.take(next as int) =~= failures);
    note(
        &mut notes,
        tell_archive(jar_path, report.classfiles_written, report.archive_duplicates),
    );
    if report.archive_duplicates > 0 {
        let mut line = "exact-name duplicates from different class loaders skipped: ".to_owned();
        line.append(decimal_text(report.archive_duplicates as u64).as_str());
        warn(&mut notes, line);
    }
    let mut line = "next: ".to_owned();
    line.append(report.next_step);
    note(&mut notes, line);
    let mut line = "output=".to_owned();
    line.append(output);
    note(&mut notes, line);
    note(&mut notes, "external metadata traversal completed".to_owned());
    notes
}

/// Sizes are told in full KiB and MiB: what is left over is dropped.
pub proof fn sizes_are_told_in_full_units(base: u64, kib: usize, mib: u64, size: usize, bytes: u64)
    requires
        1024 * kib <= size < 1024 * (kib + 1),
        1048576 * mib <= bytes < 1048576 * (mib + 1),
    ensures
        module_line(base, size) == "HotSpot module: base="@ + address_chars(base) + ", size="@
            + decimal_digits(kib as nat) + " KiB"@,
        scan_line(bytes) == "structural scan: "@ + decimal_digits(mib as nat)
            + " MiB readable memory"@,
{
    assert(size / 1024 == kib);
    assert(bytes / 1024 / 1024 == mib);
}

/// How many of the notes are warnings.
pub open spec fn warnings(notes: Seq<NoteView>) -> nat
    decreases notes.len(),
{
    if notes.len() == 0 {
        0
    } else {
        warnings(notes.drop_last()) + if notes.last() is Warning {
            1nat
        } else {
            0
        }
    }
}

proof fn one_more_note(notes: Seq<NoteView>, note: NoteView)
    ensures
        warnings(notes.push(note)) == warnings(notes) + if note is Warning {
            1nat
        } else {
            0
        },
{
    assert(notes.push(note).drop_last() =~= notes);
}

proof fn skipped_classes_are_warned_of(notes: Seq<NoteView>, failures: Seq<Seq<char>>)
    ensures
        warnings(notes + skipped_notes(failures)) == warnings(notes) + failures.len(),
    decreases failures.len(),
{
    if failures.len() == 0 {
        assert(notes + skipped_notes(failures) =~= notes);
    } else {
        let before = failures.drop_last();
        skipped_classes_are_warned_of(notes, before);
        let last = NoteView::Warning("classfile skipped: "@ + failures.last());
        assert(notes + skipped_notes(failures) =~= (notes + skipped_notes(before)).push(last));
        one_more_note(notes + skipped_notes(before), last);
    }
}

/// The operator is warned of each class that was left out, and once of duplicates if there are any;
/// nothing else is a warning.
pub proof fn warnings_are_of_what_is_missing(
    report: DiscoveryReport,
    jar_path: Seq<char>,
    output: Seq<char>,
)
    ensures
        warnings(found_notes(report)) == 0,
        warnings(result_notes(report, jar_path, output)) == report.classfile_failures@.len() + (
        if report.archive_duplicates > 0 {
            1nat
        } else {
            0
        }),
        found_notes(report).len() == 5 + (if report.scanned_bytes is Some {
            1nat
        } else {
            0
        }) + (if report.structural_anchors is Some {
            1nat
        } else {
            0
        }),
{
    assert forall|notes: Seq<NoteView>, note: NoteView| #[trigger]
        warnings(notes.push(note)) == warnings(notes) + if note is Warning {
            1nat
        } else {
            0
        } by {
        one_more_note(notes, note);
    }
    let failures = views(report.classfile_failures@);
    let start = Seq::<NoteView>::empty().push(
        NoteView::Info(
            "discovered classes: "@ + decimal_digits(report.classes@.len())
                + " (index written to classes.txt)"@,
        ),
    ).push(
        NoteView::Info(
            "classfiles: archived="@ + decimal_digits(report.classfiles_written as nat)
                + " failed="@ + decimal_digits(report.classfiles_failed as nat),
        ),
    );
    skipped_classes_are_warned_of(start, failures);
}

/// What is told of the discovery: the module, the classes that every target has, the fields, where the
/// layout comes from, and at the end where the classes come from.
pub proof fn discovery_is_told_line_by_line(report: DiscoveryReport)
    ensures
        ({
            let notes = found_notes(report);
            &&& notes[0] == NoteView::Info(
                module_line(report.jvm_module_base, report.jvm_module_size),
            )
            &&& notes[1] == NoteView::Info(
                "bootstrap anchors: "@ + report.anchors[0]@ + ", "@ + report.anchors[1]@ + ", "@
                    + report.anchors[2]@ + ", "@ + report.anchors[3]@,
            )
            &&& notes[2] == NoteView::Info(
                "VMStructs: "@ + decimal_digits(report.vmstruct_count as nat) + " entries"@,
            )
            &&& notes[3] == NoteView::Info("layout source: "@ + report.layout_source@)
            &&& report.scanned_bytes matches Some(bytes) ==> notes[4] == NoteView::Info(
                scan_line(bytes),
            )
            &&& report.structural_anchors matches Some(anchors) ==> notes[notes.len() - 2]
                == NoteView::Info(structure_line(anchors))
            &&& notes.last() == NoteView::Info(
                source_line(report.system_dictionary_storage, report.system_dictionary),
            )
        }),
{
}

/// What is told of the results: how many classes there are, how many were archived and how many failed,
/// each class that was left out, the archive, the duplicates if there are any, what comes next, where
/// the results are, and that the traversal is complete.
pub proof fn results_are_told_line_by_line(
    report: DiscoveryReport,
    jar_path: Seq<char>,
    output: Seq<char>,
)
    ensures
        ({
            let notes = result_notes(report, jar_path, output);
            let failures = report.classfile_failures@.len() as int;
            let behind: int = if report.archive_duplicates > 0 {
                failures + 4
            } else {
                failures + 3
            };
            &&& notes.len() == behind + 3
            &&& notes[0] == NoteView::Info(
                "discovered classes: "@ + decimal_digits(report.classes@.len())
                    + " (index written to classes.txt)"@,
            )
            &&& notes[1] == NoteView::Info(
                "classfiles: archived="@ + decimal_digits(report.classfiles_written as nat)
                    + " failed="@ + decimal_digits(report.classfiles_failed as nat),
            )
            &&& forall|i: int|
                0 <= i < failures ==> #[trigger] notes[2 + i] == NoteView::Warning(
                    "classfile skipped: "@ + report.classfile_failures@[i]@,
                )
            &&& notes[failures + 2] == NoteView::Info(
                "JAR written to "@ + jar_path + " ("@ + decimal_digits(
                    report.classfiles_written as nat,
                ) + " case-sensitive entries, "@ + decimal_digits(report.archive_duplicates as nat)
                    + " exact-name duplicates skipped)"@,
            )
            &&& report.archive_duplicates > 0 ==> notes[failures + 3] == NoteView::Warning(
                "exact-name duplicates from different class loaders skipped: "@ + decimal_digits(
                    report.archive_duplicates as nat,
                ),
            )
            &&& notes[behind] == NoteView::Info("next: "@ + report.next_step@)
            &&& notes[behind + 1] == NoteView::Info("output="@ + output)
            &&& notes[behind + 2] == NoteView::Info("external metadata traversal completed"@)
        }),
{
}

/// The line about the source of the classes names the dictionary where there is one, and the line about
/// the structure names the anchors.
pub proof fn sources_are_told(storage: u64, dictionary: u64, anchors: StructuralAnchors)
    ensures
        source_line(Some(storage), Some(dictionary)) == "SystemDictionary::_dictionary: storage="@
            + address_chars(storage) + " value="@ + address_chars(dictionary),
        source_line(None, None) == "class source: validated ConstantPool -> InstanceKlass graph"@,
        structure_line(anchors) == "anchors: Object Symbol="@ + address_chars(anchors.object_symbol)
            + " Klass="@ + address_chars(anchors.object_klass) + " CP.vtable="@ + address_chars(
            anchors.constant_pool_vtable,
        ) + " CP.size=0x"@ + short_hex(anchors.constant_pool_size as nat),
{
}

} // verus!
