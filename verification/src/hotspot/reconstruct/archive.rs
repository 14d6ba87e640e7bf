//! The archive that the class files go into.
use std::io::Write;
use vstd::prelude::*;
use vstd::utf8::encode_utf8;

use crate::lists::views;
use crate::text::{joined, Error};

verus! {

/// The byte of `/`, which parts a path.
pub const SLASH: u8 = 0x2f;

/// The byte of `\`, which parts a path on some hosts.
pub const BACKSLASH: u8 = 0x5c;

/// The byte of `.`.
pub const DOT: u8 = 0x2e;

/// The length of a name, in bytes, from which on it has no room in the header of a file.
pub const NAME_LIMIT: usize = 65505;

/// The size from which on a file does not fit the fields of a plain archive.
pub const SIZE_LIMIT: usize = 0xffff_ffff;

/// The largest size at which a file stays below `SIZE_LIMIT` even if deflating makes it longer.
pub const SMALL_SIZE: usize = 0x7fff_ffff;

/// A file of the archive: its name and its bytes.
#[derive(Debug)]
pub struct ClassFile {
    pub entry: String,
    pub bytes: Vec<u8>,
}

impl View for ClassFile {
    type V = (Seq<char>, Seq<u8>);

    open spec fn view(&self) -> (Seq<char>, Seq<u8>) {
        (self.entry@, self.bytes@)
    }
}

/// The name in the archive of the class file of the class `name`.
pub open spec fn entry_name(name: Seq<char>) -> Seq<char> {
    name + ".class"@
}

/// The name in the archive of the class file of the class `name`.
pub fn entry_for(name: &str) -> (entry: String)
    ensures
        entry@ == entry_name(name@),
{
    joined(name, ".class")
}

/// Whether `start` and `end` bound a part of a path: what lies between two slashes, or between one
/// and an end of the path.
pub open spec fn is_part(path: Seq<u8>, start: int, end: int) -> bool {
    &&& 0 <= start <= end <= path.len()
    &&& start == 0 || path[start - 1] == SLASH
    &&& end == path.len() || path[end] == SLASH
    &&& forall|i: int| start <= i < end ==> path[i] != SLASH
}

/// Whether a part of a path stands for a directory that is not named by it.
pub open spec fn is_dots(part: Seq<u8>) -> bool {
    part == seq![DOT] || part == seq![DOT, DOT]
}

/// Whether a path stays below the root that it is taken from, on every host: it does not start at
/// the root, it has no backslash, and no part of it is `.` or `..`.
pub open spec fn safe_path(path: Seq<u8>) -> bool {
    &&& !(path.len() > 0 && path[0] == SLASH)
    &&& forall|i: int| 0 <= i < path.len() ==> path[i] != BACKSLASH
    &&& forall|start: int, end: int| #[trigger]
        is_part(path, start, end) ==> !is_dots(path.subrange(start, end))
}

/// Whether the class `name` may give a file of the archive its name.
pub open spec fn safe_name(name: Seq<char>) -> bool {
    safe_path(encode_utf8(name))
}

/// The two bounds of the part that a position lies in are its only ones.
proof fn part_is_unique(path: Seq<u8>, start: int, end: int, other: int, other_end: int)
    requires
        is_part(path, start, end),
        is_part(path, other, other_end),
        start <= other <= end,
    ensures
        start == other,
        end == other_end,
{
    if other > start {
        assert(path[other - 1] == SLASH);
    }
    if end < other_end {
        assert(path[end] == SLASH);
    }
    if other_end < end {
        assert(path[other_end] == SLASH);
    }
}

/// Whether a path stays below the root that it is taken from.
fn path_is_safe(path: &[u8]) -> (safe: bool)
    ensures
        safe == safe_path(path@),
{
    if path.len() > 0 && path[0] == SLASH {
        return false;
    }
    let mut start: usize = 0;
    let mut index: usize = 0;
    while index < path.len()
        invariant
            0 <= start <= index <= path@.len(),
            path@.len() > 0 ==> path@[0] != SLASH,
            forall|i: int| 0 <= i < index ==> path@[i] != BACKSLASH,
            forall|i: int| start <= i < index ==> path@[i] != SLASH,
            start == 0 || path@[start - 1] == SLASH,
            forall|s: int, e: int| #[trigger]
                is_part(path@, s, e) && s < start ==> !is_dots(path@.subrange(s, e)),
        decreases path@.len() - index,
    {
        if path[index] == BACKSLASH {
            return false;
        }
        if path[index] == SLASH {
            assert(is_part(path@, start as int, index as int));
            if part_is_dots(path, start, index) {
                return false;
            }
            assert forall|s: int, e: int| #[trigger]
                is_part(path@, s, e) && s < index + 1 implies !is_dots(path@.subrange(s, e)) by {
                if s >= start {
                    part_is_unique(path@, start as int, index as int, s, e);
                }
            }
            start = index + 1;
        }
        index += 1;
    }
    assert(is_part(path@, start as int, index as int));
    if part_is_dots(path, start, index) {
        return false;
    }
    assert forall|s: int, e: int| #[trigger] is_part(path@, s, e) implies !is_dots(
        path@.subrange(s, e),
    ) by {
        if s >= start {
            part_is_unique(path@, start as int, index as int, s, e);
        }
    }
    true
}

fn part_is_dots(path: &[u8], start: usize, end: usize) -> (dots: bool)
    requires
        start <= end <= path@.len(),
    ensures
        dots == is_dots(path@.subrange(start as int, end as int)),
{
    let ghost part = path@.subrange(start as int, end as int);
    proof {
        assert(seq![DOT].len() == 1 && seq![DOT][0] == DOT);
        assert(seq![DOT, DOT].len() == 2 && seq![DOT, DOT][0] == DOT && seq![DOT, DOT][1] == DOT);
        assert(part.len() == end - start);
    }
    if end - start == 1 {
        proof {
            assert(part[0] == path@[start as int]);
            if path@[start as int] == DOT {
                assert(part =~= seq![DOT]);
            }
        }
        path[start] == DOT
    } else if end - start == 2 {
        proof {
            assert(part[0] == path@[start as int]);
            assert(part[1] == path@[start + 1]);
            if path@[start as int] == DOT && path@[start + 1] == DOT {
                assert(part =~= seq![DOT, DOT]);
            }
        }
        path[start] == DOT && path[start + 1] == DOT
    } else {
        false
    }
}

/// Whether the class `name` may give a file of the archive its name.
pub fn name_is_safe(name: &str) -> (safe: bool)
    ensures
        safe == safe_name(name@),
{
    path_is_safe(name.as_bytes())
}

/// An archive under construction: a `zip::ZipWriter` over a buffer in memory.
#[verifier::external_body]
pub struct JarWriter {
    zip: zip::ZipWriter<std::io::Cursor<Vec<u8>>>,
}

/// The files that an archive under construction holds, in order: their names and their bytes.
pub uninterp spec fn files_in(writer: JarWriter) -> Seq<(Seq<char>, Seq<u8>)>;

/// Whether an archive under construction can be gone on with: no call on it has failed, its last
/// file, if it has one, is still open, and no file that was started as a small one is larger than
/// `SMALL_SIZE`.
pub uninterp spec fn in_order(writer: JarWriter) -> bool;

/// Whether the last file of an archive under construction was started as one that may be large.
pub uninterp spec fn may_be_large(writer: JarWriter) -> bool;

/// The files that an archive in the ZIP format holds, in the order of its directory: their names
/// and their bytes once decompressed.
pub uninterp spec fn files_of(archive: Seq<u8>) -> Seq<(Seq<char>, Seq<u8>)>;

/// Calls `zip::ZipWriter::new`. Trusted: the archive holds no file yet, and can be gone on with.
#[verifier::external_body]
fn new_archive() -> (writer: JarWriter)
    ensures
        files_in(writer) == Seq::<(Seq<char>, Seq<u8>)>::empty(),
        in_order(writer),
{
    JarWriter { zip: zip::ZipWriter::new(std::io::Cursor::new(Vec::new())) }
}

/// Whether an archive takes the names of the files: no two are the same, and none is too long.
pub open spec fn names_fit(files: Seq<(Seq<char>, Seq<u8>)>) -> bool {
    &&& forall|i: int, j: int|
        0 <= i < j < files.len() ==> (#[trigger] files[i]).0 != (#[trigger] files[j]).0
    &&& forall|i: int|
        0 <= i < files.len() ==> encode_utf8((#[trigger] files[i]).0).len() < NAME_LIMIT
}

/// Whether an archive has room for the files: it takes their names, and none is too large.
pub open spec fn have_room(files: Seq<(Seq<char>, Seq<u8>)>) -> bool {
    &&& names_fit(files)
    &&& forall|i: int| 0 <= i < files.len() ==> (#[trigger] files[i]).1.len() < SIZE_LIMIT
}

/// Whether a file may be named `name`: none of the files is, and the name is not too long.
pub open spec fn is_free(files: Seq<(Seq<char>, Seq<u8>)>, name: Seq<char>) -> bool {
    &&& forall|i: int| 0 <= i < files.len() ==> (#[trigger] files[i]).0 != name
    &&& encode_utf8(name).len() < NAME_LIMIT
}

/// Calls `zip::ZipWriter::start_file`, for a file that is to be deflated, and that may be large if
/// `large` says so. Trusted: the call fails on a name that the archive holds already, and on one
/// that does not fit the header of a file, which has to stay below 64 KiB with its 30 bytes and the
/// name. It succeeds on any other: the file before the new one can be completed, since it is not
/// larger than it may be, and what is written goes to memory. Then the archive holds one file more,
/// of that name and empty so far, and can be gone on with. Not said: with which text the call fails,
/// and what the archive holds once it has.
#[verifier::external_body]
fn start_file(writer: &mut JarWriter, name: &str, large: bool) -> (result: Result<(), Error>)
    requires
        in_order(*old(writer)),
    ensures
        result is Ok <==> is_free(files_in(*old(writer)), name@),
        result is Ok ==> files_in(*final(writer)) == files_in(*old(writer)).push(
            (name@, Seq::empty()),
        ) && in_order(*final(writer)) && may_be_large(*final(writer)) == large,
{
    let options = zip::write::SimpleFileOptions::default().compression_method(
        zip::CompressionMethod::Deflated,
    ).large_file(large);
    writer.zip.start_file(name, options).map_err(|error| Error { text: error.to_string() })
}

/// The files once bytes were appended to the last of them.
pub open spec fn appended(files: Seq<(Seq<char>, Seq<u8>)>, bytes: Seq<u8>) -> Seq<
    (Seq<char>, Seq<u8>),
> {
    files.drop_last().push((files.last().0, files.last().1 + bytes))
}

/// Calls `write_all` on a `zip::ZipWriter`. Trusted: bytes that do not make a small file too large
/// are appended to the last file of the archive. The call does not fail on them: the encoder refuses
/// no bytes, and what it gives goes to memory.
#[verifier::external_body]
fn write_file(writer: &mut JarWriter, bytes: &[u8]) -> (result: Result<(), Error>)
    requires
        in_order(*old(writer)),
        files_in(*old(writer)).len() > 0,
        may_be_large(*old(writer)) || files_in(*old(writer)).last().1.len() + bytes@.len()
            <= SMALL_SIZE,
    ensures
        result is Ok,
        files_in(*final(writer)) == appended(files_in(*old(writer)), bytes@),
        in_order(*final(writer)),
        may_be_large(*final(writer)) == may_be_large(*old(writer)),
{
    writer.zip.write_all(bytes).map_err(|error| Error { text: error.to_string() })
}

/// Calls `zip::ZipWriter::finish`. Trusted: the bytes are an archive of the files that were written.
/// The call does not fail: the last file can be completed, and the directory, in the larger form
/// where the archive needs it, goes to memory. Not said: which of the archives of the files it gives.
#[verifier::external_body]
fn finish_archive(writer: JarWriter) -> (result: Result<Vec<u8>, Error>)
    requires
        in_order(writer),
    ensures
        result is Ok,
        result matches Ok(bytes) ==> files_of(bytes@) == files_in(writer),
{
    let finished = writer.zip.finish();
    finished.map(|cursor| cursor.into_inner()).map_err(|error| Error { text: error.to_string() })
}

/// The archive of `files`, in their order: one that holds exactly the files, if there is room for
/// them. What is said of names that do not fit is up to the archiver.
pub fn make_jar(files: &Vec<ClassFile>) -> (result: Result<Vec<u8>, Error>)
    ensures
        result is Ok <==> have_room(views(files@)),
        result matches Ok(bytes) ==> files_of(bytes@) == views(files@),
        names_fit(views(files@)) ==> (result matches Err(error) ==> error@
            == "class file too large"@),
{
    let mut writer = new_archive();
    let mut index: usize = 0;
    assert(views(files@).take(0) =~= Seq::empty());
    while index < files.len()
        invariant
            index <= files@.len(),
            files_in(writer) == views(files@).take(index as int),
            in_order(writer),
            have_room(views(files@).take(index as int)),
        decreases files@.len() - index,
    {
        let file = &files[index];
        let ghost before = files_in(writer);
        assert(Seq::<u8>::empty() + file.bytes@ =~= file.bytes@);
        assert(appended(before.push((file.entry@, Seq::empty())), file.bytes@) =~= before.push(
            file@,
        ));
        assert(views(files@).take(index + 1) =~= before.push(file@));
        assert(views(files@)[index as int] == file@);
        if file.bytes.len() >= SIZE_LIMIT {
            return Err(Error::new("class file too large"));
        }
        proof {
            if names_fit(views(files@)) {
                assert forall|i: int| 0 <= i < before.len() implies (#[trigger] before[i]).0
                    != file.entry@ by {
                    assert(views(files@)[i] == before[i]);
                }
            }
        }
        start_file(&mut writer, file.entry.as_str(), file.bytes.len() > SMALL_SIZE)?;
        write_file(&mut writer, file.bytes.as_slice())?;
        assert(have_room(before.push(file@)));
        index += 1;
    }
    assert(views(files@).take(index as int) =~= views(files@));
    finish_archive(writer)
}

/// A path that starts with a slash or has a backslash is not safe.
pub proof fn rooted_paths_are_not_safe(path: Seq<u8>, at: int)
    requires
        0 <= at < path.len(),
        path[0] == 0x2f || path[at] == 0x5c,
    ensures
        !safe_path(path),
{
}

/// A path that goes up or stays where it is between two of its parts is not safe, wherever it does so:
/// in the middle, at its start, at its end or altogether.
pub proof fn paths_with_dots_are_not_safe(left: Seq<u8>, right: Seq<u8>, dots: Seq<u8>)
    requires
        dots == seq![0x2eu8] || dots == seq![0x2eu8, 0x2eu8],
    ensures
        !safe_path(left.push(0x2f) + dots + seq![0x2fu8] + right),
        !safe_path(dots + seq![0x2fu8] + right),
        !safe_path(left.push(0x2f) + dots),
        !safe_path(dots),
{
    let size = dots.len() as int;
    let middle = left.push(0x2f) + dots + seq![0x2fu8] + right;
    let start = left.len() as int + 1;
    assert(middle.subrange(start, start + size) =~= dots);
    assert(middle[start - 1] == 0x2f);
    assert(middle[start + size] == 0x2f);
    assert forall|i: int| start <= i < start + size implies middle[i] != SLASH by {
        assert(middle[i] == dots[i - start]);
    }
    assert(is_part(middle, start, start + size));
    let first = dots + seq![0x2fu8] + right;
    assert(first.subrange(0, size) =~= dots);
    assert(first[size] == 0x2f);
    assert forall|i: int| 0 <= i < size implies first[i] != SLASH by {
        assert(first[i] == dots[i]);
    }
    assert(is_part(first, 0, size));
    let last = left.push(0x2f) + dots;
    assert(last.subrange(start, start + size) =~= dots);
    assert(last[start - 1] == 0x2f);
    assert forall|i: int| start <= i < start + size implies last[i] != SLASH by {
        assert(last[i] == dots[i - start]);
    }
    assert(is_part(last, start, start + size));
    assert(dots.subrange(0, size) =~= dots);
    assert forall|i: int| 0 <= i < size implies dots[i] != SLASH by {}
    assert(is_part(dots, 0, size));
}

/// Whether the byte before `at` or the one behind it is part of a name: neither a dot nor a slash.
pub open spec fn is_in_a_name(path: Seq<u8>, at: int) -> bool {
    ||| at > 0 && path[at - 1] != 0x2e && path[at - 1] != 0x2f
    ||| at + 1 < path.len() && path[at + 1] != 0x2e && path[at + 1] != 0x2f
}

/// A path that does not start with a slash, has no backslash, and has dots only in names is safe.
pub proof fn paths_of_names_are_safe(path: Seq<u8>)
    requires
        path.len() > 0 ==> path[0] != 0x2f,
        forall|i: int| 0 <= i < path.len() ==> #[trigger] path[i] != 0x5c,
        forall|i: int|
            0 <= i < path.len() && #[trigger] path[i] == 0x2e ==> is_in_a_name(path, i),
    ensures
        safe_path(path),
{
    assert forall|start: int, end: int| #[trigger] is_part(path, start, end) implies !is_dots(
        path.subrange(start, end),
    ) by {
        let part = path.subrange(start, end);
        if is_dots(part) {
            assert(part.len() == end - start);
            assert(part.len() == seq![DOT].len() || part.len() == seq![DOT, DOT].len());
            assert(part[0] == 0x2e);
            assert(part[0] == path[start]);
            assert(is_in_a_name(path, start));
            if part.len() == 2 {
                assert(part[1] == 0x2e);
                assert(path[start + 1] == 0x2e);
            }
        }
    }
}

/// The file of a class has the name of the class and six characters more, so that two classes share a
/// file only if they share a name.
pub proof fn files_are_named_after_classes(left: Seq<char>, right: Seq<char>)
    ensures
        entry_name(left).len() == left.len() + 6,
        entry_name(left).take(left.len() as int) == left,
        entry_name(left).skip(left.len() as int) == ".class"@,
        entry_name(left) == entry_name(right) ==> left == right,
{
    reveal_strlit(".class");
    assert(entry_name(left).take(left.len() as int) =~= left);
    assert(entry_name(left).skip(left.len() as int) =~= ".class"@);
    assert(entry_name(right).take(right.len() as int) =~= right);
}

/// An archive has room for files whose names differ and take fewer than 65505 bytes each, and which
/// themselves take fewer than 4294967295 bytes.
pub proof fn archives_have_room(files: Seq<(Seq<char>, Seq<u8>)>)
    ensures
        have_room(files) <==> {
            &&& forall|i: int, j: int|
                0 <= i < files.len() && 0 <= j < files.len() && i != j ==> (
                #[trigger] files[i]).0 != (#[trigger] files[j]).0
            &&& forall|i: int|
                0 <= i < files.len() ==> encode_utf8((#[trigger] files[i]).0).len() <= 65504
                    && files[i].1.len() <= 4294967294
        },
{
    if have_room(files) {
        assert forall|i: int, j: int|
            0 <= i < files.len() && 0 <= j < files.len() && i != j implies (#[trigger] files[i]).0
            != (#[trigger] files[j]).0 by {
            if i < j {
                assert(files[i].0 != files[j].0);
            } else {
                assert(files[j].0 != files[i].0);
            }
        }
    }
}

} // verus!
