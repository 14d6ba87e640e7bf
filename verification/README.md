# jvm_ext_dumper

Dumps the classes of a running HotSpot 8 from outside: it reads the metadata that HotSpot keeps in
its memory and rebuilds class files from it. The library is verified with Verus; `app/` is the
program around it.

Run the program as Administrator and enter the PID of a Java process. It writes `classes.txt`, an
index of the classes that it found, and `classes.jar`, the class files.

## How it works

HotSpot's layout is taken from the tables `gHotSpotVMStructs` and `gHotSpotVMTypes` that `jvm.dll`
exports. If it does not export them, they are searched for in its image. If they are not there
either, the structures are recognized by their shape, starting from the `Symbol` of
`java/lang/Object` and following `ConstantPool` and `InstanceKlass`.

## Layout

| Path | What it holds |
| --- | --- |
| `src/app.rs` | what the operator asks for, and the index of classes |
| `src/report.rs` | what the operator is told |
| `src/platform.rs` | the memory of a target and the rules for opening one |
| `src/search.rs`, `src/pages.rs`, `src/bytes.rs`, `src/text.rs`, `src/lists.rs` | searching, reading by page, numbers, text, lists |
| `src/hotspot/pe.rs` | the exports of `jvm.dll` |
| `src/hotspot/vmstructs.rs`, `src/hotspot/vmtypes.rs` | the tables that are exported |
| `src/hotspot/heuristic.rs` | the tables in the image |
| `src/hotspot/structural.rs`, `src/hotspot/structural/` | recognition by shape |
| `src/hotspot/dictionary.rs` | the classes of the system dictionary |
| `src/hotspot/discovery.rs` | which of these is used, and the report |
| `src/hotspot/reconstruct.rs`, `src/hotspot/reconstruct/` | from a class in memory to a class file, and the archive |
| `app/` | prompts, logging, files, and the Windows calls |

## What is trusted

Verus proves the library against its contracts. Taken on trust are the decoding of UTF-8 and UTF-16
by the standard library, the `zip` crate that writes the archive, and that the memory of a target
yields the same bytes each time it is read: the trait `RemoteMemory` says so, and `app/` keeps every
page that it has read.
