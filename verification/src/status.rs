//! What the status line says.

use crate::numeral::{decimal, push_decimal};
use crate::preset::opt_view;
use crate::text::joined;
use vstd::prelude::*;

verus! {

/// What is said where a command needs a photo.
pub const OPEN_A_PHOTO_FIRST: &'static str = "Open a photo first (or wait for it to finish loading).";

/// What is said while the photo is rendered for the clipboard.
pub const COPYING: &'static str = "Copying…";

/// What is said where there is no clipboard.
pub const NO_CLIPBOARD: &'static str = "Copy failed: no clipboard available.";

/// `a` between two texts.
pub open spec fn between(before: Seq<char>, a: Seq<char>, after: Seq<char>) -> Seq<char> {
    before + a + after
}

fn wrap(before: &str, a: &str, after: &str) -> (r: String)
    ensures
        r@ == between(before@, a@, after@),
{
    let mut out = joined(before, a);
    out.append(after);
    out
}

/// A size in pixels.
pub open spec fn size_text(size: (u32, u32)) -> Seq<char> {
    decimal(size.0 as nat) + "×"@ + decimal(size.1 as nat)
}

fn push_size(out: &mut String, size: (u32, u32))
    ensures
        final(out)@ == old(out)@ + size_text(size),
{
    let ghost had = out@;
    push_decimal(out, size.0 as u64);
    out.append("×");
    push_decimal(out, size.1 as u64);
    assert(out@ =~= had + size_text(size));
}

/// What is said at first; `look` is what was taken over from the terminal.
pub fn welcome(look: Option<&str>) -> (r: String)
    ensures
        r@ == match look {
            Some(l) => between("Open or drop a photo to start. ("@, l@, ")"@),
            None => "Open or drop a photo to start."@,
        },
{
    match look {
        Some(l) => wrap("Open or drop a photo to start. (", l, ")"),
        None => "Open or drop a photo to start.".to_owned(),
    }
}

/// What is said where preset files could not be loaded.
pub fn skipped(errors: &[String]) -> (r: Option<String>)
    ensures
        opt_view(r) == if errors@.len() > 0 {
            Some(
                "Skipped "@ + decimal(errors@.len()) + " preset file(s): "@ + errors@[0]@,
            )
        } else {
            None
        },
{
    if errors.len() == 0 {
        return None;
    }
    let mut out = "Skipped ".to_owned();
    push_decimal(&mut out, errors.len() as u64);
    out.append(" preset file(s): ");
    out.append(errors[0].as_str());
    Some(out)
}

/// What is said while a photo loads.
pub fn loading(path: &str) -> (r: String)
    ensures
        r@ == between("Loading "@, path@, "…"@),
{
    wrap("Loading ", path, "…")
}

/// What is said where a photo cannot be opened.
pub fn could_not_open(path: &str, error: &str) -> (r: String)
    ensures
        r@ == between("Could not open "@, path@, ": "@) + error@,
{
    joined(wrap("Could not open ", path, ": ").as_str(), error)
}

/// What is said of a photo that has been decoded in `ms` milliseconds.
pub fn loaded(name: &str, provisional: bool, size: (u32, u32), ms: u64) -> (r: String)
    ensures
        r@ == if provisional {
            name@ + " — preview in "@ + decimal(ms as nat) + " ms, loading full resolution…"@
        } else {
            name@ + " — "@ + size_text(size) + " — loaded in "@ + decimal(ms as nat) + " ms"@
        },
{
    if provisional {
        let mut out = joined(name, " — preview in ");
        push_decimal(&mut out, ms);
        out.append(" ms, loading full resolution…");
        out
    } else {
        let mut out = joined(name, " — ");
        push_size(&mut out, size);
        out.append(" — loaded in ");
        push_decimal(&mut out, ms);
        out.append(" ms");
        out
    }
}

/// What is said of a finished crop; `full` is whether it is the whole photo.
pub fn cropped(full: bool, size: (u32, u32)) -> (r: String)
    ensures
        r@ == if full {
            "No crop."@
        } else {
            between("Cropped to "@, size_text(size), "."@)
        },
{
    if full {
        return "No crop.".to_owned();
    }
    let mut out = "Cropped to ".to_owned();
    push_size(&mut out, size);
    out.append(".");
    out
}

/// What is said of imported presets.
pub fn imported(count: usize, errors: &[String]) -> (r: String)
    ensures
        r@ == if errors@.len() == 0 {
            between("Imported "@, decimal(count as nat), " preset(s)."@)
        } else {
            between("Imported "@, decimal(count as nat), " preset(s), "@) + decimal(errors@.len())
                + " failed — "@ + errors@[0]@
        },
{
    let mut out = "Imported ".to_owned();
    push_decimal(&mut out, count as u64);
    if errors.len() == 0 {
        out.append(" preset(s).");
    } else {
        out.append(" preset(s), ");
        push_decimal(&mut out, errors.len() as u64);
        out.append(" failed — ");
        out.append(errors[0].as_str());
    }
    out
}

/// What is said of a folder without photos.
pub fn no_photos(dir: &str) -> (r: String)
    ensures
        r@ == "No photos in "@ + dir@,
{
    joined("No photos in ", dir)
}

/// What is said of a photo that has been copied.
pub fn copied(size: (u32, u32)) -> (r: String)
    ensures
        r@ == between("Copied "@, size_text(size), " to the clipboard."@),
{
    let mut out = "Copied ".to_owned();
    push_size(&mut out, size);
    out.append(" to the clipboard.");
    out
}

/// What is said where copying fails.
pub fn copy_failed(error: &str) -> (r: String)
    ensures
        r@ == "Copy failed: "@ + error@,
{
    joined("Copy failed: ", error)
}

/// What is said while a photo is exported.
pub fn exporting(path: &str) -> (r: String)
    ensures
        r@ == between("Exporting "@, path@, "…"@),
{
    wrap("Exporting ", path, "…")
}

/// What is said of an export that has ended.
pub fn exported(result: Result<&str, &str>) -> (r: String)
    ensures
        r@ == match result {
            Ok(path) => "Exported "@ + path@,
            Err(error) => "Export failed: "@ + error@,
        },
{
    match result {
        Ok(path) => joined("Exported ", path),
        Err(error) => joined("Export failed: ", error),
    }
}

/// Which photo of the folder this is.
pub fn position(at: usize, count: usize) -> (r: String)
    requires
        at < count,
    ensures
        r@ == between(decimal((at + 1) as nat), " / "@, decimal(count as nat)),
{
    let mut out = String::new();
    push_decimal(&mut out, at as u64 + 1);
    out.append(" / ");
    push_decimal(&mut out, count as u64);
    assert(out@ =~= between(decimal((at + 1) as nat), " / "@, decimal(count as nat)));
    out
}

} // verus!
