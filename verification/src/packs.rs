//! Free preset collections the app can download (the palette's "Get Free Presets").
//!
//! Each is pinned to one commit, so what gets installed can't change underneath us.

use crate::import::{is_preset_file, is_preset_name};
use crate::numeral::{decimal, push_decimal};
use crate::text::{
    ascii_lower, begins, chars_of, index_of, next_char, part, split, string_of, text_eq, views,
};
use std::io::{Cursor, Read};
use vstd::prelude::*;
use zip::ZipArchive;

verus! {

#[derive(Clone, Copy, Debug)]
pub struct Pack {
    pub name: &'static str,
    /// Folder under the presets directory (its sub-folders become groups).
    pub folder: &'static str,
    pub repo: &'static str,
    pub commit: &'static str,
    /// Folder inside the repository that holds the presets.
    pub subdir: &'static str,
}

/// The packs that there are.
pub fn packs() -> (r: [Pack; 2])
    ensures
        r@ == seq![
            (Pack {
                name: "~450 Lightroom film presets",
                folder: "Film Presets (peva3)",
                repo: "peva3/Lightroom-Presets",
                commit: "f22f4d8057aaaada6df3f0ed7fbe6b952a30db77",
                subdir: "Presets",
            }),
            (Pack {
                name: "~300 film LUTs (G'MIC)",
                folder: "Film LUTs (GMIC)",
                repo: "YahiaAngelo/Film-Luts",
                commit: "af957b631a304e6be94778b96cb3395de3438e9f",
                subdir: "luts",
            }),
        ],
{
    [
        Pack {
            name: "~450 Lightroom film presets",
            folder: "Film Presets (peva3)",
            repo: "peva3/Lightroom-Presets",
            commit: "f22f4d8057aaaada6df3f0ed7fbe6b952a30db77",
            subdir: "Presets",
        },
        Pack {
            name: "~300 film LUTs (G'MIC)",
            folder: "Film LUTs (GMIC)",
            repo: "YahiaAngelo/Film-Luts",
            commit: "af957b631a304e6be94778b96cb3395de3438e9f",
            subdir: "luts",
        },
    ]
}

/// Refuse anything unreasonably large (the packs are ~2 MB and ~26 MB).
pub const MAX_DOWNLOAD: u64 = 104857600;

/// Where a pack is downloaded from.
pub fn url(pack: &Pack) -> (r: String)
    ensures
        r@ == "https://codeload.github.com/"@ + pack.repo@ + "/zip/"@ + pack.commit@,
{
    let mut out = "https://codeload.github.com/".to_owned();
    out.append(pack.repo);
    out.append("/zip/");
    out.append(pack.commit);
    out
}

/// The message while pack `i` of `count` is downloaded.
pub fn downloading(pack: &Pack, i: usize, count: usize) -> (r: String)
    requires
        i < usize::MAX,
    ensures
        r@ == "Downloading "@ + pack.name@ + " ("@ + decimal((i + 1) as nat) + "/"@ + decimal(
            count as nat,
        ) + ")…"@,
{
    let mut out = "Downloading ".to_owned();
    out.append(pack.name);
    out.append(" (");
    push_decimal(&mut out, i as u64 + 1);
    out.append("/");
    push_decimal(&mut out, count as u64);
    out.append(")…");
    out
}

/// The message while a pack is unpacked.
pub fn unpacking(pack: &Pack) -> (r: String)
    ensures
        r@ == "Unpacking "@ + pack.name@ + "…"@,
{
    let mut out = "Unpacking ".to_owned();
    out.append(pack.name);
    out.append("…");
    out
}

/// The note on where a pack comes from, saved beside its presets as `SOURCE.txt`.
pub fn source_note(pack: &Pack) -> (r: String)
    ensures
        r@ == "From https://github.com/"@ + pack.repo@ + " at commit "@ + pack.commit@
            + " (MIT licence, see LICENSE.txt).\n"@,
{
    let mut out = "From https://github.com/".to_owned();
    out.append(pack.repo);
    out.append(" at commit ");
    out.append(pack.commit);
    out.append(" (MIT licence, see LICENSE.txt).\n");
    out
}

// ---------------------------------------------------------------------------------------------
// Archives
// ---------------------------------------------------------------------------------------------

#[verifier::external_type_specification]
#[verifier::external_body]
#[verifier::reject_recursive_types(T)]
pub struct ExCursor<T>(std::io::Cursor<T>);

#[verifier::external_type_specification]
#[verifier::external_body]
#[verifier::reject_recursive_types(R)]
pub struct ExZipArchive<R>(zip::ZipArchive<R>);

/// The bytes that an archive was opened from.
pub uninterp spec fn archive_bytes(a: ZipArchive<Cursor<Vec<u8>>>) -> Seq<u8>;

/// The number of entries in an archive, or the message why it is none.
pub uninterp spec fn archive_count(bytes: Seq<u8>) -> Result<nat, Seq<char>>;

/// The data of an entry, or the message why it cannot be had.
pub uninterp spec fn archive_data(bytes: Seq<u8>, i: nat) -> Result<Seq<u8>, Seq<char>>;

/// `ZipArchive::new` on bytes in memory, and `ZipArchive::len`. Whether there is an archive, how many
/// entries it has and the message where there is none are functions of the bytes.
#[verifier::external_body]
fn open_archive(bytes: Vec<u8>) -> (r: Result<(ZipArchive<Cursor<Vec<u8>>>, usize), String>)
    ensures
        match r {
            Ok((a, n)) => archive_bytes(a) == bytes@ && archive_count(bytes@) == Ok::<nat, Seq<char>>(
                n as nat,
            ),
            Err(e) => archive_count(bytes@) == Err::<nat, Seq<char>>(e@),
        },
{
    let archive = ZipArchive::new(Cursor::new(bytes)).map_err(|e| e.to_string())?;
    let n = archive.len();
    Ok((archive, n))
}

/// A path that stays below the folder that it is taken relative to: no part of it leads up or holds a
/// separator.
pub open spec fn is_enclosed(path: Seq<Seq<char>>) -> bool {
    forall|i: int|
        0 <= i < path.len() ==> (#[trigger] path[i]).len() > 0 && path[i] != "."@ && path[i] != ".."@
            && !path[i].contains('/') && !path[i].contains('\\')
}

/// A character that file names can hold on every machine.
pub open spec fn is_file_char(c: char) -> bool {
    (' ' <= c && c <= '~' && c != '<' && c != '>' && c != ':' && c != '"' && c != '/' && c != '\\' && c
        != '|' && c != '?' && c != '*') || c >= '\u{80}'
}

/// How long a text is in UTF-16.
pub open spec fn utf16_len(s: Seq<char>) -> nat
    decreases s.len(),
{
    if s.len() == 0 {
        0
    } else {
        utf16_len(s.drop_last()) + if s.last() >= '\u{10000}' {
            2nat
        } else {
            1nat
        }
    }
}

/// A text without the blanks at its end.
pub open spec fn without_blanks(s: Seq<char>) -> Seq<char>
    decreases s.len(),
{
    if s.len() > 0 && s.last() == ' ' {
        without_blanks(s.drop_last())
    } else {
        s
    }
}

/// A name that stands for a device on some machines, whatever its extension.
pub open spec fn is_device(name: Seq<char>) -> bool {
    let w = ascii_lower(without_blanks(name.take(next_char(name, '.', 0))));
    w == "con"@ || w == "prn"@ || w == "aux"@ || w == "nul"@ || w == "conin$"@ || w == "conout$"@ || w
        == "clock$"@ || (w.len() == 4 && (begins(w, "com"@) || begins(w, "lpt"@)))
}

/// A name that can be given to a file on every machine.
pub open spec fn is_file_name(name: Seq<char>) -> bool {
    &&& name.len() > 0
    &&& utf16_len(name) <= 255
    &&& forall|i: int| 0 <= i < name.len() ==> is_file_char(#[trigger] name[i])
    &&& name.last() != '.'
    &&& name.last() != ' '
    &&& !is_device(name)
}

/// The parts of an entry's name, between slashes of either kind, empty ones included.
pub open spec fn name_parts(name: Seq<char>) -> Seq<Seq<char>> {
    split(name.map_values(|c: char| if c == '\\' { '/' } else { c }), '/')
}

/// A part of a name that is no name of a file or folder: empty, or one that stays or leads up.
pub open spec fn is_step(part: Seq<char>) -> bool {
    part.len() == 0 || part == "."@ || part == ".."@
}

/// Where the parts of a name lead: one that is empty or stays leads nowhere, one that leads up takes the
/// last one away. None where they lead outside.
pub open spec fn resolved(parts: Seq<Seq<char>>) -> Option<Seq<Seq<char>>>
    decreases parts.len(),
{
    if parts.len() == 0 {
        Some(seq![])
    } else {
        match resolved(parts.drop_last()) {
            Some(before) => if parts.last() == ".."@ {
                if before.len() == 0 {
                    None
                } else {
                    Some(before.drop_last())
                }
            } else if is_step(parts.last()) {
                Some(before)
            } else {
                Some(before.push(parts.last()))
            },
            None => None,
        }
    }
}

/// A name without a zero, a drive or the two slashes that a network or device path begins with.
pub open spec fn is_simple(name: Seq<char>) -> bool {
    let parts = name_parts(name);
    &&& !name.contains('\0')
    &&& !(parts.len() > 2 && parts[0].len() == 0 && parts[1].len() == 0)
    &&& forall|i: int|
        0 <= i < parts.len() ==> !((#[trigger] parts[i]).len() > 1 && parts[i][1] == ':')
}

/// A simple name that names files and folders by names that can be given to them on every machine.
pub open spec fn is_ordinary(name: Seq<char>) -> bool {
    let parts = name_parts(name);
    is_simple(name) && forall|i: int|
        0 <= i < parts.len() ==> is_step(#[trigger] parts[i]) || is_file_name(parts[i])
}

/// The name of an entry, none where it cannot be read, or the message why there is no entry.
pub uninterp spec fn archive_entry(bytes: Seq<u8>, i: nat) -> Result<Option<Seq<char>>, Seq<char>>;

/// The path of an entry: below the folder that it is taken relative to, or none. It is where the parts of
/// a simple name lead, unless the machine does not take one of them for the name of a file; an ordinary
/// name is taken on every machine. A name with a zero has no path.
pub open spec fn path_fits(
    path: EntryPath,
    entry: Result<Option<Seq<char>>, Seq<char>>,
) -> bool {
    match entry {
        Err(e) => path == Err::<Option<Seq<Seq<char>>>, Seq<char>>(e),
        Ok(None) => path == Ok::<Option<Seq<Seq<char>>>, Seq<char>>(None),
        Ok(Some(name)) => match path {
            Ok(found) => {
                &&& found matches Some(p) ==> is_enclosed(p)
                &&& is_simple(name) && found is Some ==> found == resolved(name_parts(name))
                &&& is_ordinary(name) ==> found == resolved(name_parts(name))
                &&& name.contains('\0') ==> found is None
            },
            Err(_) => false,
        },
    }
}

/// `ZipArchive::by_index` and `ZipFile::enclosed_name` as the parts of the path: `None` for a name that
/// leads outside or that the machine does not take for a file. No path that is given leads outside, and
/// that of a simple name is where its parts lead; names with a drive, or of a network or device, are not
/// spoken of. (On Windows the function panics on a part whose third and fourth byte belong to one
/// character; the archive's bytes do not show that in a way that could be asked for.)
#[verifier::external_body]
fn entry_path(a: &mut ZipArchive<Cursor<Vec<u8>>>, i: usize) -> (r: Result<
    Option<Vec<String>>,
    String,
>)
    ensures
        archive_bytes(*final(a)) == archive_bytes(*old(a)),
        path_fits(path_view(r), archive_entry(archive_bytes(*old(a)), i as nat)),
{
    let entry = a.by_index(i).map_err(|e| e.to_string())?;
    let path = entry.enclosed_name();
    Ok(path.map(|p| p.iter().map(|c| c.to_string_lossy().into_owned()).collect()))
}

/// `ZipArchive::by_index` and reading the entry to its end: a function of the bytes and the place.
#[verifier::external_body]
fn entry_data(a: &mut ZipArchive<Cursor<Vec<u8>>>, i: usize) -> (r: Result<Vec<u8>, String>)
    ensures
        archive_bytes(*final(a)) == archive_bytes(*old(a)),
        match r {
            Ok(d) => archive_data(archive_bytes(*old(a)), i as nat) == Ok::<Seq<u8>, Seq<char>>(d@),
            Err(e) => archive_data(archive_bytes(*old(a)), i as nat) == Err::<Seq<u8>, Seq<char>>(e@),
        },
{
    let mut entry = a.by_index(i).map_err(|e| e.to_string())?;
    let mut data = Vec::new();
    entry.read_to_end(&mut data).map_err(|e| e.to_string())?;
    Ok(data)
}

// ---------------------------------------------------------------------------------------------
// Unpacking
// ---------------------------------------------------------------------------------------------

/// What an entry's path is: its parts, none where it leads outside, or an error.
pub type EntryPath = Result<Option<Seq<Seq<char>>>, Seq<char>>;

/// The folders that a path names: its parts but for empty ones and those that stay where they are.
pub open spec fn folders(parts: Seq<Seq<char>>) -> Seq<Seq<char>>
    decreases parts.len(),
{
    if parts.len() == 0 {
        seq![]
    } else {
        let before = folders(parts.drop_last());
        if parts.last().len() == 0 || parts.last() == "."@ {
            before
        } else {
            before.push(parts.last())
        }
    }
}

/// A path from the root, or from the folder one is in: an entry never has such a path.
pub open spec fn is_anchored(subdir: Seq<char>) -> bool {
    split(subdir, '/')[0] == "."@ || begins(subdir, "/"@)
}

/// Where an entry of a pack is saved, below the pack's folder, and whether it is a preset: the licence,
/// and the presets in `subdir` with their sub-folders; nothing else. Archives from GitHub wrap
/// everything in a "<repo>-<commit>/" folder, which is left out.
pub open spec fn target_of(path: Seq<Seq<char>>, subdir: Seq<char>) -> Option<(Seq<Seq<char>>, bool)> {
    let within = folders(split(subdir, '/'));
    let k = 1 + within.len() as int;
    if path.len() == 2 && path[1] == "LICENSE"@ {
        Some((seq!["LICENSE.txt"@], false))
    } else if path.len() > k && path.subrange(1, k) == within && !is_anchored(subdir)
        && is_preset_name(path.last()) {
        Some((path.skip(k), true))
    } else {
        None
    }
}

/// A file to save: its path below the pack's folder, its data, and whether it is a preset.
pub type FileView = (Seq<Seq<char>>, Seq<u8>, bool);

/// What has been unpacked: the files, and the error that ended it.
pub type UnpackedView = (Seq<FileView>, Option<Seq<char>>);

/// What one more entry adds.
pub open spec fn with_entry(
    before: UnpackedView,
    path: EntryPath,
    data: Result<Seq<u8>, Seq<char>>,
    subdir: Seq<char>,
) -> UnpackedView {
    if before.1 is Some {
        before
    } else {
        match path {
            Err(e) => (before.0, Some(e)),
            Ok(None) => before,
            Ok(Some(p)) => match target_of(p, subdir) {
                Some((t, preset)) => match data {
                    Ok(d) => (before.0.push((t, d, preset)), None),
                    Err(e) => (before.0, Some(e)),
                },
                None => before,
            },
        }
    }
}

/// What the first `n` entries with these paths give.
pub open spec fn unpacked_of(
    paths: Seq<EntryPath>,
    bytes: Seq<u8>,
    subdir: Seq<char>,
    n: nat,
) -> UnpackedView
    decreases n,
{
    if n == 0 {
        (seq![], None)
    } else {
        with_entry(
            unpacked_of(paths, bytes, subdir, (n - 1) as nat),
            paths[n - 1],
            archive_data(bytes, (n - 1) as nat),
            subdir,
        )
    }
}

/// A file to save, below the pack's folder.
pub struct PackFile {
    pub path: Vec<String>,
    pub data: Vec<u8>,
    pub preset: bool,
}

/// A list of files as views.
pub open spec fn files_view(f: Seq<PackFile>) -> Seq<FileView> {
    f.map_values(|x: PackFile| (views(x.path@), x.data@, x.preset))
}

/// How many of the files are presets.
pub open spec fn preset_count(f: Seq<FileView>) -> nat
    decreases f.len(),
{
    if f.len() == 0 {
        0
    } else {
        preset_count(f.drop_last()) + if f.last().2 {
            1nat
        } else {
            0nat
        }
    }
}

/// What unpacking gives: the files to save, how many of them are presets, and the error that ended it
/// early. The files found before the error are to be saved all the same.
pub struct Unpacked {
    pub files: Vec<PackFile>,
    pub presets: usize,
    pub error: Option<String>,
}

/// Each path fits the entry of an archive that it belongs to.
pub open spec fn all_fit(paths: Seq<EntryPath>, bytes: Seq<u8>) -> bool {
    forall|i: int| 0 <= i < paths.len() ==> path_fits(#[trigger] paths[i], archive_entry(bytes, i as nat))
}

/// A path that fits an entry.
spec fn fitting(entry: Result<Option<Seq<char>>, Seq<char>>) -> EntryPath {
    match entry {
        Err(e) => Err(e),
        Ok(None) => Ok(None),
        Ok(Some(name)) => if is_ordinary(name) {
            Ok(resolved(name_parts(name)))
        } else {
            Ok(None)
        },
    }
}

/// Where parts lead that are file names or steps is below the folder.
proof fn lemma_resolved_is_enclosed(parts: Seq<Seq<char>>)
    requires
        forall|i: int| 0 <= i < parts.len() ==> is_step(#[trigger] parts[i]) || is_file_name(parts[i]),
    ensures
        resolved(parts) matches Some(p) ==> is_enclosed(p),
    decreases parts.len(),
{
    reveal_strlit(".");
    reveal_strlit("..");
    if parts.len() > 0 {
        let shorter = parts.drop_last();
        assert forall|i: int| 0 <= i < shorter.len() implies is_step(#[trigger] shorter[i])
            || is_file_name(shorter[i]) by {
            assert(shorter[i] == parts[i]);
        }
        lemma_resolved_is_enclosed(shorter);
        assert(parts[parts.len() - 1] == parts.last());
        if let Some(p) = resolved(parts) {
            let before = resolved(shorter)->0;
            assert forall|i: int| 0 <= i < p.len() implies (#[trigger] p[i]).len() > 0 && p[i] != "."@
                && p[i] != ".."@ && !p[i].contains('/') && !p[i].contains('\\') by {
                if i < before.len() {
                    assert(p[i] == before[i]);
                } else {
                    assert(p[i] == parts.last());
                }
            }
        }
    }
}

proof fn lemma_fitting(entry: Result<Option<Seq<char>>, Seq<char>>)
    ensures
        path_fits(fitting(entry), entry),
{
    if let Ok(Some(name)) = entry {
        if is_ordinary(name) {
            lemma_resolved_is_enclosed(name_parts(name));
        }
    }
}

/// The view of an entry's path.
pub open spec fn path_view(r: Result<Option<Vec<String>>, String>) -> EntryPath {
    match r {
        Ok(Some(p)) => Ok(Some(views(p@))),
        Ok(None) => Ok(None),
        Err(e) => Err(e@),
    }
}

fn folder_parts(subdir: &[char]) -> (r: Vec<String>)
    ensures
        views(r@) == folders(split(subdir@, '/')),
{
    let mut out: Vec<String> = Vec::new();
    assert(views(out@) =~= seq![]);
    let mut rest: &[char] = subdir;
    let ghost parts = split(subdir@, '/');
    let ghost mut done: Seq<Seq<char>> = seq![];
    assert(done + parts == parts);
    loop
        invariant_except_break
            done + split(rest@, '/') == parts,
            views(out@) == folders(done),
        ensures
            views(out@) == folders(parts),
        decreases rest@.len(),
    {
        let e: usize = index_of(rest, '/', 0);
        let piece = part(rest, 0, e);
        let ghost before = done;
        proof {
            done = done.push(piece@);
            assert(done.drop_last() == before);
        }
        let folder = string_of(piece);
        let ghost had = views(out@);
        if piece.len() > 0 && !text_eq(folder.as_str(), ".") {
            out.push(folder);
            assert(views(out@) =~= had.push(piece@));
        }
        if e >= rest.len() {
            assert(piece@ == rest@);
            assert(done == parts);
            break;
        }
        let next = part(rest, e + 1, rest.len());
        assert(next@ == rest@.skip(e + 1));
        assert(piece@ == rest@.take(e as int));
        assert(done + split(next@, '/') == before + (seq![piece@] + split(next@, '/')));
        rest = next;
    }
    out
}

fn anchored(subdir: &[char]) -> (r: bool)
    ensures
        r == is_anchored(subdir@),
{
    let e: usize = index_of(subdir, '/', 0);
    let first = part(subdir, 0, e);
    assert(split(subdir@, '/')[0] == first@);
    crate::text::is_text(first, ".") || crate::text::begins_with(subdir, "/")
}

/// Whether the parts of `path` behind the first begin with those of `within`.
fn lies_in(path: &[String], within: &[String]) -> (r: bool)
    requires
        path@.len() > within@.len(),
    ensures
        r == (views(path@).subrange(1, 1 + within@.len() as int) == views(within@)),
{
    let ghost a = views(path@).subrange(1, 1 + within@.len() as int);
    let ghost b = views(within@);
    let mut i: usize = 0;
    while i < within.len()
        invariant
            i <= within@.len(),
            path@.len() > within@.len(),
            a == views(path@).subrange(1, 1 + within@.len() as int),
            b == views(within@),
            forall|k: int| 0 <= k < i ==> a[k] == b[k],
        decreases within.len() - i,
    {
        assert(a[i as int] == path@[i + 1]@);
        assert(b[i as int] == within@[i as int]@);
        if !text_eq(path[i + 1].as_str(), within[i].as_str()) {
            return false;
        }
        i = i + 1;
    }
    assert(a =~= b);
    true
}

/// The parts of a path from number `k` on.
fn parts_from(path: &[String], k: usize) -> (r: Vec<String>)
    requires
        k <= path@.len(),
    ensures
        views(r@) == views(path@).skip(k as int),
{
    let ghost parts = views(path@);
    let mut t: Vec<String> = Vec::new();
    let mut i: usize = k;
    assert(views(t@) =~= parts.subrange(k as int, k as int));
    while i < path.len()
        invariant
            k <= i <= path@.len(),
            parts == views(path@),
            views(t@) == parts.subrange(k as int, i as int),
        decreases path.len() - i,
    {
        let ghost had = views(t@);
        t.push(path[i].clone());
        assert(views(t@) =~= had.push(parts[i as int]));
        assert(views(t@) =~= parts.subrange(k as int, i + 1));
        i = i + 1;
    }
    assert(views(t@) =~= parts.skip(k as int));
    t
}

/// Where an entry of a pack is saved, and whether it is a preset.
pub fn target(path: &[String], subdir: &str) -> (r: Option<(Vec<String>, bool)>)
    ensures
        match r {
            Some((t, preset)) => target_of(views(path@), subdir@) == Some((views(t@), preset)),
            None => target_of(views(path@), subdir@) is None,
        },
{
    let ghost parts = views(path@);
    if path.len() < 2 {
        return None;
    }
    assert(parts[1] == path@[1]@);
    assert(parts.last() == path@.last()@);
    if path.len() == 2 && text_eq(path[1].as_str(), "LICENSE") {
        let mut t: Vec<String> = Vec::new();
        t.push("LICENSE.txt".to_owned());
        assert(views(t@) =~= seq!["LICENSE.txt"@]);
        return Some((t, false));
    }
    let folder = chars_of(subdir);
    let within = folder_parts(&folder);
    assert(views(within@).len() == within@.len());
    if path.len() - 1 > within.len() && lies_in(path, &within) && !anchored(&folder)
        && is_preset_file(path[path.len() - 1].as_str()) {
        return Some((parts_from(path, within.len() + 1), true));
    }
    None
}

/// `u` is what the `n` entries of an archive give, whatever paths those of them turn out to have whose
/// names are not ordinary.
pub open spec fn unpacks(u: Unpacked, bytes: Seq<u8>, subdir: Seq<char>, n: nat) -> bool {
    &&& u.presets == preset_count(files_view(u.files@))
    &&& exists|paths: Seq<EntryPath>|
        {
            &&& paths.len() == n
            &&& all_fit(paths, bytes)
            &&& #[trigger] unpacked_of(paths, bytes, subdir, n) == (
                files_view(u.files@),
                crate::preset::opt_view(u.error),
            )
        }
}

/// Takes the pack's preset files out of its archive, keeping their sub-folders, and its licence.
/// Whatever paths the entries turn out to have, every file is one that [`target_of`] admits, and an
/// error ends the unpacking.
pub fn unpack(zip_bytes: Vec<u8>, pack: &Pack) -> (r: Result<Unpacked, String>)
    ensures
        match archive_count(zip_bytes@) {
            Err(e) => r matches Err(x) && x@ == "bad archive: "@ + e,
            Ok(n) => match r {
                Ok(u) => unpacks(u, zip_bytes@, pack.subdir@, n),
                Err(_) => false,
            },
        },
{
    let ghost bytes = zip_bytes@;
    let (mut archive, n) = match open_archive(zip_bytes) {
        Ok(x) => x,
        Err(e) => {
            let mut message = "bad archive: ".to_owned();
            message.append(e.as_str());
            return Err(message);
        },
    };
    let mut files: Vec<PackFile> = Vec::new();
    let mut presets: usize = 0;
    let mut error: Option<String> = None;
    let mut i: usize = 0;
    let ghost mut paths: Seq<EntryPath> = seq![];
    assert(files_view(files@) =~= seq![]);
    while i < n
        invariant
            i <= n,
            archive_bytes(archive) == bytes,
            paths.len() == i,
            all_fit(paths, bytes),
            presets == preset_count(files_view(files@)),
            presets <= i,
            unpacked_of(paths, bytes, pack.subdir@, i as nat) == (
                files_view(files@),
                crate::preset::opt_view(error),
            ),
        decreases n - i,
    {
        let ghost had = files_view(files@);
        let ghost before = paths;
        if error.is_some() {
            proof {
                let entry = archive_entry(bytes, i as nat);
                lemma_fitting(entry);
                paths = paths.push(fitting(entry));
                lemma_unpacked_extends(before, paths, bytes, pack.subdir@, i as nat);
            }
        } else {
            let found = entry_path(&mut archive, i);
            proof {
                paths = paths.push(path_view(found));
                lemma_unpacked_extends(before, paths, bytes, pack.subdir@, i as nat);
                assert(paths[i as int] == path_view(found));
            }
            match found {
                Err(e) => {
                    error = Some(e);
                },
                Ok(None) => {},
                Ok(Some(p)) => {
                    if let Some((path, preset)) = target(&p, pack.subdir) {
                        match entry_data(&mut archive, i) {
                            Ok(data) => {
                                let ghost entry = (views(path@), data@, preset);
                                files.push(PackFile { path, data, preset });
                                assert(files_view(files@) =~= had.push(entry));
                                assert(files_view(files@).drop_last() =~= had);
                                if preset {
                                    presets = presets + 1;
                                }
                            },
                            Err(e) => {
                                error = Some(e);
                            },
                        }
                    }
                },
            }
        }
        i = i + 1;
    }
    let u = Unpacked { files, presets, error };
    assert(archive_count(zip_bytes@) == Ok::<nat, Seq<char>>(n as nat));
    assert(unpacked_of(paths, zip_bytes@, pack.subdir@, n as nat) == (
        files_view(u.files@),
        crate::preset::opt_view(u.error),
    ));
    assert(unpacks(u, zip_bytes@, pack.subdir@, n as nat));
    Ok(u)
}

/// What the first entries give does not depend on those behind them.
proof fn lemma_unpacked_extends(
    a: Seq<EntryPath>,
    b: Seq<EntryPath>,
    bytes: Seq<u8>,
    subdir: Seq<char>,
    n: nat,
)
    requires
        n <= a.len(),
        a.len() <= b.len(),
        forall|i: int| 0 <= i < a.len() ==> a[i] == b[i],
    ensures
        unpacked_of(a, bytes, subdir, n) == unpacked_of(b, bytes, subdir, n),
    decreases n,
{
    if n > 0 {
        lemma_unpacked_extends(a, b, bytes, subdir, (n - 1) as nat);
    }
}

/// Nothing lands outside the pack's folder, and nothing but the licence and presets lands in it.
pub proof fn law_unpacked_stays_inside(
    paths: Seq<EntryPath>,
    bytes: Seq<u8>,
    subdir: Seq<char>,
    n: nat,
    k: int,
)
    requires
        n <= paths.len(),
        all_fit(paths, bytes),
        0 <= k < unpacked_of(paths, bytes, subdir, n).0.len(),
    ensures
        ({
            let f = unpacked_of(paths, bytes, subdir, n).0[k];
            &&& f.0.len() > 0
            &&& f.0 == seq!["LICENSE.txt"@] || is_enclosed(f.0)
            &&& f.2 ==> is_preset_name(f.0.last())
            &&& !f.2 ==> f.0 == seq!["LICENSE.txt"@]
        }),
    decreases n,
{
    if n > 0 {
        let before = unpacked_of(paths, bytes, subdir, (n - 1) as nat);
        if k < before.0.len() {
            law_unpacked_stays_inside(paths, bytes, subdir, (n - 1) as nat, k);
        } else {
            assert(path_fits(paths[n - 1], archive_entry(bytes, (n - 1) as nat)));
            let p = paths[n - 1]->Ok_0->0;
            assert(is_enclosed(p));
            let f = unpacked_of(paths, bytes, subdir, n).0[k];
            if f.2 {
                let k = 1 + folders(split(subdir, '/')).len() as int;
                assert(f.0 == p.skip(k));
                assert forall|i: int| 0 <= i < f.0.len() implies (#[trigger] f.0[i]).len() > 0
                    && f.0[i] != "."@ && f.0[i] != ".."@ && !f.0[i].contains('/')
                    && !f.0[i].contains('\\') by {
                    assert(f.0[i] == p[i + k]);
                }
                assert(f.0.last() == p.last());
            }
        }
    }
}

/// Where every entry has an ordinary name, what is unpacked is the same on every machine.
pub proof fn law_ordinary_archives_unpack_alike(
    a: Seq<EntryPath>,
    b: Seq<EntryPath>,
    bytes: Seq<u8>,
    subdir: Seq<char>,
    n: nat,
)
    requires
        a.len() == n,
        b.len() == n,
        all_fit(a, bytes),
        all_fit(b, bytes),
        forall|i: nat|
            i < n ==> match #[trigger] archive_entry(bytes, i) {
                Ok(Some(name)) => is_ordinary(name),
                _ => true,
            },
    ensures
        unpacked_of(a, bytes, subdir, n) == unpacked_of(b, bytes, subdir, n),
{
    assert forall|i: int| 0 <= i < n implies a[i] == b[i] by {
        assert(path_fits(a[i], archive_entry(bytes, i as nat)));
        assert(path_fits(b[i], archive_entry(bytes, i as nat)));
    }
    assert(a =~= b);
}

/// Every preset of the pack's folder is unpacked, however deep in it it lies, and keeps its sub-folders; and the
/// licence is.
pub proof fn law_every_preset_is_unpacked(wrap: Seq<char>, within: Seq<Seq<char>>, rest: Seq<Seq<char>>, subdir: Seq<char>)
    requires
        folders(split(subdir, '/')) == within,
        !is_anchored(subdir),
        rest.len() > 0,
        is_preset_name(rest.last()),
        rest.last() != "LICENSE"@,
    ensures
        target_of(seq![wrap] + within + rest, subdir) == Some((rest, true)),
        target_of(seq![wrap, "LICENSE"@], subdir) == Some((seq!["LICENSE.txt"@], false)),
{
    let path = seq![wrap] + within + rest;
    let k = 1 + within.len() as int;
    assert(path.last() == rest.last());
    assert(path.len() == 2 ==> path[1] == path.last());
    assert(path.subrange(1, k) =~= within);
    assert(path.skip(k) =~= rest);
}

/// What lies outside of the pack's folder, or is no preset, is left out.
pub proof fn law_other_files_are_left_out(path: Seq<Seq<char>>, subdir: Seq<char>)
    requires
        target_of(path, subdir) is None,
    ensures
        !(path.len() == 2 && path[1] == "LICENSE"@),
        is_anchored(subdir) || !is_preset_name(path.last()) || !exists|wrap: Seq<char>, rest: Seq<Seq<char>>|
            rest.len() > 0 && path == #[trigger] (seq![wrap] + folders(split(subdir, '/')) + rest),
{
    let within = folders(split(subdir, '/'));
    if !is_anchored(subdir) && is_preset_name(path.last()) {
        assert forall|wrap: Seq<char>, rest: Seq<Seq<char>>|
            rest.len() > 0 implies path != #[trigger] (seq![wrap] + within + rest) by {
            if path == seq![wrap] + within + rest {
                assert(path.subrange(1, 1 + within.len() as int) =~= within);
            }
        }
    }
}

} // verus!
