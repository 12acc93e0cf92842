//! The export dialog: what it offers, and the name that it suggests for the file.

use crate::export::{long_side, size_table, sizes, sizes_view, Plan, Size, CUSTOM};
use crate::names::stem;
use crate::numeral::{decimal, push_decimal};
use crate::text::{joined, text_eq};
use vstd::prelude::*;

verus! {

/// The formats on offer: name and extension.
pub const FORMATS: [(&'static str, &'static str); 3] = [("JPEG", "jpg"), ("PNG", "png"), ("TIFF", "tif")];

/// The place of JPEG among the formats: the only one with a quality.
pub const JPEG: usize = 0;

/// The place of TIFF among the formats: the only one without metadata.
pub const TIFF: usize = 2;

/// Choices in the export dialog, kept for the session.
#[derive(Clone, Copy, PartialEq, Eq, Debug)]
pub struct ExportSettings {
    pub size: usize,
    pub custom_edge: u32,
    pub fill: bool,
    pub format: usize,
    pub quality: u8,
    /// Copy the photo's GPS position into the export.
    pub keep_gps: bool,
}

/// What the dialog offers.
#[derive(Clone, Copy, PartialEq, Eq, Debug)]
pub struct Rows {
    pub long_edge: bool,
    pub fill: bool,
    pub quality: bool,
    pub metadata: bool,
}

/// The chosen size: the custom long edge where it says so.
pub open spec fn chosen_size(st: ExportSettings) -> Size {
    let size = size_table()[st.size as int].2;
    if size == Size::LongEdge(0) {
        Size::LongEdge(st.custom_edge)
    } else {
        size
    }
}

impl ExportSettings {
    /// Both choices are among those on offer.
    pub open spec fn wf(self) -> bool {
        self.size < size_table().len() && self.format < FORMATS@.len()
    }

    /// What is chosen at first.
    pub fn new() -> (r: ExportSettings)
        ensures
            r.wf(),
            r == (ExportSettings {
                size: 0,
                custom_edge: 2560,
                fill: true,
                format: 0,
                quality: 92,
                keep_gps: true,
            }),
    {
        ExportSettings { size: 0, custom_edge: 2560, fill: true, format: 0, quality: 92, keep_gps: true }
    }

    /// The chosen size.
    pub fn export_size(&self) -> (r: Size)
        requires
            self.wf(),
        ensures
            r == chosen_size(*self),
    {
        let all = sizes();
        assert(sizes_view(all@)[self.size as int].2 == all@[self.size as int].size);
        match all[self.size].size {
            Size::LongEdge(n) => {
                if n == 0 {
                    Size::LongEdge(self.custom_edge)
                } else {
                    Size::LongEdge(n)
                }
            },
            size => size,
        }
    }

    /// What the dialog offers for these choices.
    pub fn rows(&self) -> (r: Rows)
        requires
            self.wf(),
        ensures
            r.long_edge == (self.size == CUSTOM),
            r.fill == (size_table()[self.size as int].2 is Exact),
            r.quality == (self.format == JPEG),
            r.metadata == (self.format != TIFF),
    {
        let all = sizes();
        assert(sizes_view(all@)[self.size as int].2 == all@[self.size as int].size);
        let fill = match all[self.size].size {
            Size::Exact(_, _) => true,
            _ => false,
        };
        Rows {
            long_edge: self.size == CUSTOM,
            fill,
            quality: self.format == JPEG,
            metadata: self.format != TIFF,
        }
    }
}

/// A size in pixels.
pub open spec fn pixels_text(size: (u32, u32)) -> Seq<char> {
    decimal(size.0 as nat) + " × "@ + decimal(size.1 as nat)
}

fn push_pixels(out: &mut String, size: (u32, u32))
    ensures
        final(out)@ == old(out)@ + pixels_text(size),
{
    let ghost had = out@;
    push_decimal(out, size.0 as u64);
    out.append(" × ");
    push_decimal(out, size.1 as u64);
    assert(out@ =~= had + pixels_text(size));
}

/// What the dialog says of the size of the file, and of the photo where it is resized.
pub fn note(plan: Plan) -> (r: String)
    ensures
        r@ == if plan.output != plan.render {
            pixels_text(plan.output) + " px (resized from "@ + pixels_text(plan.render) + ")"@
        } else {
            pixels_text(plan.output) + " px"@
        },
{
    let mut out = String::new();
    push_pixels(&mut out, plan.output);
    assert(out@ =~= pixels_text(plan.output));
    if plan.output.0 != plan.render.0 || plan.output.1 != plan.render.1 {
        out.append(" px (resized from ");
        push_pixels(&mut out, plan.render);
        out.append(")");
    } else {
        out.append(" px");
    }
    out
}

/// What a name says of the size that was chosen.
pub open spec fn suffix_of(slug: Seq<char>, output: (u32, u32)) -> Seq<char> {
    if slug == "original"@ {
        seq![]
    } else if slug == "custom"@ {
        " - "@ + decimal(long_side(output)) + "px"@
    } else {
        " - "@ + slug
    }
}

fn suffix(slug: &str, output: (u32, u32)) -> (r: String)
    ensures
        r@ == suffix_of(slug@, output),
{
    if text_eq(slug, "original") {
        String::new()
    } else if text_eq(slug, "custom") {
        let longer: u32 = if output.0 >= output.1 {
            output.0
        } else {
            output.1
        };
        let mut out = " - ".to_owned();
        push_decimal(&mut out, longer as u64);
        out.append("px");
        out
    } else {
        joined(" - ", slug)
    }
}

/// The name that is suggested for the export of a photo named `file`, with a preset of this name.
pub fn suggested_name(file: Option<&str>, preset: &str, st: &ExportSettings, output: (u32, u32)) -> (r:
    String)
    requires
        st.wf(),
    ensures
        r@ == crate::export::original_stem(crate::export::str_view(file)) + " - "@ + preset@ + suffix_of(
            size_table()[st.size as int].1,
            output,
        ) + "."@ + FORMATS@[st.format as int].1@,
{
    let all = sizes();
    assert(sizes_view(all@)[st.size as int].1 == all@[st.size as int].slug@);
    let mut out = match file {
        Some(f) => stem(f),
        None => "photo".to_owned(),
    };
    out.append(" - ");
    out.append(preset);
    out.append(suffix(all[st.size].slug, output).as_str());
    out.append(".");
    out.append(FORMATS[st.format].1);
    out
}

} // verus!
