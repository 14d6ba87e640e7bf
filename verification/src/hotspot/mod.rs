//! HotSpot 8 metadata: locating it, walking it and turning it back into class files.
pub mod chains;
pub mod dictionary;
pub mod discovery;
pub mod heuristic;
pub mod inferred;
pub mod pe;
pub mod reconstruct;
pub mod structural;
pub mod tables;
pub mod vmstructs;
pub mod vmtypes;

use vstd::prelude::*;

use self::discovery::{
    jvm_module, locate_hotspot, located_in, located_notes, reports, DiscoveryReport,
};
use self::reconstruct::archive::{files_of, have_room, make_jar, SIZE_LIMIT};
use self::reconstruct::archive_names_fit;
use crate::lists::views;
use crate::platform::{MemoryRegion, ModuleInfo, RemoteMemory};
use crate::report::Note;
use crate::text::{decimal_digits, seen, Error};

verus! {

/// What was found in a target, and the archive of the class files if there are any.
#[derive(Debug)]
pub struct Inspection {
    pub report: DiscoveryReport,
    pub jar: Option<Vec<u8>>,
}

/// Finds HotSpot in the target `pid`, reconstructs its classes and archives them.
///
/// How far a search by shape came is told in `notes`, whatever comes of the inspection.
///
/// Where HotSpot is found, the inspection fails only over a class file that is too large.
pub fn inspect<M: RemoteMemory>(
    memory: &M,
    pid: u32,
    modules: &Vec<ModuleInfo>,
    regions: Result<Vec<MemoryRegion>, Error>,
    notes: &mut Vec<Note>,
) -> (result: Result<Inspection, Error>)
    ensures
        views(final(notes)@) == views(old(notes)@) + match jvm_module(modules@) {
            None => Seq::empty(),
            Some(module) => located_notes(
                memory.contents(),
                module.base,
                module.size as nat,
                seen(regions),
            ),
        },
        match jvm_module(modules@) {
            None => result matches Err(error) && error@ == "jvm.dll is not loaded in PID "@
                + decimal_digits(pid as nat),
            Some(module) => match located_in(
                memory.contents(),
                module.base,
                module.size as nat,
                seen(regions),
            ) {
                Err(reason) => result matches Err(error) && error@ == reason,
                Ok(located) => match result {
                    Ok(inspection) => {
                        let report = inspection.report;
                        &&& reports(report, memory.contents(), module, located)
                        &&& inspection.jar is Some <==> report.classfiles_written > 0
                        &&& inspection.jar matches Some(bytes) ==> have_room(views(report.archive@))
                            && files_of(bytes@) == views(report.archive@)
                    },
                    Err(error) => {
                        &&& error@ == "class file too large"@
                        &&& exists|report: DiscoveryReport|
                            #![trigger reports(report, memory.contents(), module, located)]
                            reports(report, memory.contents(), module, located)
                                && report.classfiles_written > 0 && exists|i: int|
                                0 <= i < report.archive@.len() && (
                                #[trigger] report.archive@[i]).bytes@.len() >= SIZE_LIMIT
                    },
                },
            },
        },
{
    let report = locate_hotspot(memory, pid, modules, regions, notes)?;
    if report.classfiles_written == 0 {
        return Ok(Inspection { report, jar: None });
    }
    proof {
        if let Some(module) = jvm_module(modules@) {
            if let Ok(located) = located_in(
                memory.contents(),
                module.base,
                module.size as nat,
                seen(regions),
            ) {
                archive_names_fit(
                    memory.contents(),
                    views(report.classes@),
                    located.vm,
                    located.types,
                );
                if !have_room(views(report.archive@)) {
                    let i = choose|i: int|
                        0 <= i < views(report.archive@).len() && (#[trigger] views(
                            report.archive@,
                        )[i]).1.len() >= SIZE_LIMIT;
                    assert(report.archive@[i].bytes@.len() >= SIZE_LIMIT);
                }
            }
        }
    }
    match make_jar(&report.archive) {
        Ok(jar) => Ok(Inspection { report, jar: Some(jar) }),
        Err(error) => Err(error),
    }
}

} // verus!
