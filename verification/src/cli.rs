//! Headless commands: batch-apply a preset, or render a contact sheet of all presets. What a command
//! line asks for.

use crate::export::{eq_ignore_case, find, same_but_case, size_named, Size};
use crate::names::{stem, stem_of};
use crate::numeral::{decimal, is_number, is_numeral, parse_unsigned, push_decimal, unsigned};
use crate::preset::opt_view;
use crate::text::{
    chars_of, index_of, joined, part, split, string_of, text_eq, trim, trimmed, views,
};
use crate::unicode::{debug_text, quoted};
use vstd::prelude::*;

verus! {

/// What the commands are.
pub const USAGE: &'static str = "usage:
  bp_photos [PHOTO]                                   open the app
  bp_photos apply --preset NAME [--amount 1.0] [--crop X0,Y0,X1,Y1] [--size SIZE] [--fit] [--quality 92] [--no-gps] IN... --out DIR
      --crop    crop edges as fractions 0..1 of width/height
      --size    original, instagram-portrait, instagram-square, instagram-landscape, instagram-story,
                x-post, x-large, facebook, web, or a number (long edge in px)
      --fit     fit inside fixed formats instead of cropping to fill them
      --no-gps  leave the photo's location out of the exported metadata
  bp_photos sheet PHOTO OUT.jpg [FILTER]              contact sheet of every preset (optionally filtered)
  bp_photos presets                                   list installed presets and any that fail to load
  bp_photos recommend PHOTO [SHEET.jpg]               presets recommended for a photo (and a sheet of them)";

/// A word that names a command.
pub open spec fn names_command(a: Seq<char>) -> bool {
    a == "apply"@ || a == "sheet"@ || a == "presets"@ || a == "bench"@ || a == "recommend"@ || a
        == "--help"@ || a == "-h"@
}

/// Whether a word names a command.
pub fn is_command(arg: &str) -> (r: bool)
    ensures
        r == names_command(arg@),
{
    text_eq(arg, "apply") || text_eq(arg, "sheet") || text_eq(arg, "presets") || text_eq(
        arg,
        "bench",
    ) || text_eq(arg, "recommend") || text_eq(arg, "--help") || text_eq(arg, "-h")
}

/// What a command line asks for.
pub enum Request {
    /// Apply a preset; the options are still to be read.
    Apply,
    /// List the presets.
    Presets,
    /// Recommend presets for a photo, and save a sheet of them.
    Recommend { photo: String, sheet: Option<String> },
    /// Time the steps of opening each of the photos that follow.
    Bench,
    /// Save a sheet of the presets whose name or group holds the filter.
    Sheet { photo: String, out: String, filter: String },
    /// Show the usage.
    Usage,
}

/// What a command line asks for, or the message why it asks for nothing.
pub open spec fn asks(r: Result<Request, String>, args: Seq<Seq<char>>) -> bool {
    let a = args[0];
    if a == "apply"@ {
        r matches Ok(Request::Apply)
    } else if a == "presets"@ {
        r matches Ok(Request::Presets)
    } else if a == "bench"@ {
        r matches Ok(Request::Bench)
    } else if a == "recommend"@ {
        if args.len() < 2 {
            r matches Err(e) && e@ == USAGE@
        } else {
            r matches Ok(Request::Recommend { photo, sheet }) && photo@ == args[1] && opt_view(sheet)
                == if args.len() > 2 {
                Some(args[2])
            } else {
                None
            }
        }
    } else if a == "sheet"@ {
        if args.len() == 3 || args.len() == 4 {
            r matches Ok(Request::Sheet { photo, out, filter }) && photo@ == args[1] && out@
                == args[2] && filter@ == if args.len() == 4 {
                args[3]
            } else {
                seq![]
            }
        } else {
            r matches Err(e) && e@ == USAGE@
        }
    } else {
        r matches Ok(Request::Usage)
    }
}

/// What a command line asks for. It holds at least the command's name.
pub fn request(args: &[String]) -> (r: Result<Request, String>)
    requires
        args@.len() > 0,
    ensures
        asks(r, views(args@)),
{
    let ghost words = views(args@);
    assert(words[0] == args@[0]@);
    assert(args@.len() > 1 ==> words[1] == args@[1]@);
    assert(args@.len() > 2 ==> words[2] == args@[2]@);
    assert(args@.len() > 3 ==> words[3] == args@[3]@);
    let a = args[0].as_str();
    if text_eq(a, "apply") {
        Ok(Request::Apply)
    } else if text_eq(a, "presets") {
        Ok(Request::Presets)
    } else if text_eq(a, "bench") {
        Ok(Request::Bench)
    } else if text_eq(a, "recommend") {
        if args.len() < 2 {
            Err(USAGE.to_owned())
        } else {
            let sheet = if args.len() > 2 {
                Some(args[2].clone())
            } else {
                None
            };
            Ok(Request::Recommend { photo: args[1].clone(), sheet })
        }
    } else if text_eq(a, "sheet") {
        if args.len() == 3 {
            let filter = String::new();
            assert(filter@ =~= seq![]);
            Ok(Request::Sheet { photo: args[1].clone(), out: args[2].clone(), filter })
        } else if args.len() == 4 {
            Ok(
                Request::Sheet {
                    photo: args[1].clone(),
                    out: args[2].clone(),
                    filter: args[3].clone(),
                },
            )
        } else {
            Err(USAGE.to_owned())
        }
    } else {
        Ok(Request::Usage)
    }
}

// ---------------------------------------------------------------------------------------------
// Options of `apply`
// ---------------------------------------------------------------------------------------------

/// What the options say so far.
pub struct OptionsView {
    pub preset: Option<Seq<char>>,
    pub amount: Option<Seq<char>>,
    pub out: Option<Seq<char>>,
    pub crop: Option<Seq<Seq<char>>>,
    pub size: Size,
    pub fill: bool,
    pub quality: u8,
    pub keep_gps: bool,
    pub inputs: Seq<Seq<char>>,
}

/// What holds where no option says otherwise.
pub open spec fn default_options() -> OptionsView {
    OptionsView {
        preset: None,
        amount: None,
        out: None,
        crop: None,
        size: Size::Original,
        fill: true,
        quality: 92,
        keep_gps: true,
        inputs: seq![],
    }
}

/// The numerals between the commas of a text; what is no numeral is passed over.
pub open spec fn crop_numbers(parts: Seq<Seq<char>>) -> Seq<Seq<char>>
    decreases parts.len(),
{
    if parts.len() == 0 {
        seq![]
    } else {
        let before = crop_numbers(parts.drop_last());
        if is_number(trim(parts.last())) {
            before.push(trim(parts.last()))
        } else {
            before
        }
    }
}

/// The numerals of a `--crop`; none where its value is missing.
pub open spec fn crop_of(value: Option<Seq<char>>) -> Seq<Seq<char>> {
    match value {
        Some(v) => crop_numbers(split(v, ',')),
        None => seq![],
    }
}

/// The size that a `--size` names: a number of pixels for the long edge, or a slug.
pub open spec fn size_of(v: Seq<char>) -> Option<Size> {
    match unsigned(v, u32::MAX as nat) {
        Some(n) => if n > 0 {
            Some(Size::LongEdge(n as u32))
        } else {
            size_named(v, 0)
        },
        None => size_named(v, 0),
    }
}

/// The quality that a `--quality` gives.
pub open spec fn quality_of(v: Option<Seq<char>>) -> Option<nat> {
    match v {
        Some(s) => match unsigned(s, 255) {
            Some(q) => if 1 <= q <= 100 {
                Some(q)
            } else {
                None
            },
            None => None,
        },
        None => None,
    }
}

/// A word that takes the next word as its value.
pub open spec fn takes_value(a: Seq<char>) -> bool {
    a == "--preset"@ || a == "--amount"@ || a == "--out"@ || a == "--size"@ || a == "--quality"@ || a
        == "--crop"@
}

/// The word behind word `i`.
pub open spec fn value_at(args: Seq<Seq<char>>, i: int) -> Option<Seq<char>> {
    if 0 <= i + 1 < args.len() {
        Some(args[i + 1])
    } else {
        None
    }
}

/// The message on a bad `--crop`.
pub open spec fn crop_message() -> Seq<char> {
    "--crop needs X0,Y0,X1,Y1 with 0 <= X0 < X1 <= 1 and 0 <= Y0 < Y1 <= 1"@
}

/// What one word, and its value, say; or the message why they say nothing. `valid` is whether the
/// numbers of a `--crop` are in order.
pub open spec fn with_option(
    st: OptionsView,
    a: Seq<char>,
    v: Option<Seq<char>>,
    valid: bool,
) -> Result<OptionsView, Seq<char>> {
    if a == "--preset"@ {
        Ok(OptionsView { preset: v, ..st })
    } else if a == "--amount"@ {
        match v {
            Some(n) => if is_number(n) {
                Ok(OptionsView { amount: Some(n), ..st })
            } else {
                Err("bad --amount"@)
            },
            None => Err("bad --amount"@),
        }
    } else if a == "--out"@ {
        Ok(OptionsView { out: v, ..st })
    } else if a == "--size"@ {
        match v {
            Some(s) => match size_of(s) {
                Some(size) => Ok(OptionsView { size, ..st }),
                None => Err("unknown size "@ + debug_text(s)),
            },
            None => Err("--size needs a value"@),
        }
    } else if a == "--fit"@ {
        Ok(OptionsView { fill: false, ..st })
    } else if a == "--no-gps"@ {
        Ok(OptionsView { keep_gps: false, ..st })
    } else if a == "--quality"@ {
        match quality_of(v) {
            Some(q) => Ok(OptionsView { quality: q as u8, ..st }),
            None => Err("--quality needs 1-100"@),
        }
    } else if a == "--crop"@ {
        if crop_of(v).len() == 4 && valid {
            Ok(OptionsView { crop: Some(crop_of(v)), ..st })
        } else {
            Err(crop_message())
        }
    } else {
        Ok(OptionsView { inputs: st.inputs.push(a), ..st })
    }
}

/// Whether `--crop` number `k` is said to be in order.
pub open spec fn crop_is_valid(valid: Seq<bool>, k: int) -> bool {
    0 <= k < valid.len() && valid[k]
}

/// What the words from `i` on say; `k` is the number of `--crop` options before them.
pub open spec fn options_from(
    args: Seq<Seq<char>>,
    i: int,
    st: OptionsView,
    valid: Seq<bool>,
    k: int,
) -> Result<OptionsView, Seq<char>>
    decreases args.len() + 1 - i,
{
    if i < 0 || i >= args.len() {
        Ok(st)
    } else {
        let a = args[i];
        match with_option(st, a, value_at(args, i), crop_is_valid(valid, k)) {
            Ok(next) => options_from(
                args,
                if takes_value(a) {
                    i + 2
                } else {
                    i + 1
                },
                next,
                valid,
                if a == "--crop"@ {
                    k + 1
                } else {
                    k
                },
            ),
            Err(e) => Err(e),
        }
    }
}

/// The numerals of every `--crop` from word `i` on, in order.
pub open spec fn crops_from(args: Seq<Seq<char>>, i: int) -> Seq<Seq<Seq<char>>>
    decreases args.len() + 1 - i,
{
    if i < 0 || i >= args.len() {
        seq![]
    } else {
        let a = args[i];
        let next = if takes_value(a) {
            i + 2
        } else {
            i + 1
        };
        if a == "--crop"@ {
            seq![crop_of(value_at(args, i))] + crops_from(args, next)
        } else {
            crops_from(args, next)
        }
    }
}

/// What a command line for `apply` says: the preset and the folder to save in are needed.
pub open spec fn options_of(args: Seq<Seq<char>>, valid: Seq<bool>) -> Result<OptionsView, Seq<char>> {
    match options_from(args, 0, default_options(), valid, 0) {
        Ok(st) => if st.preset is Some && st.out is Some {
            Ok(st)
        } else {
            Err(USAGE@)
        },
        Err(e) => Err(e),
    }
}

/// The options of `apply`. The amount and the crop are kept as their numerals; where there are none,
/// the amount is 1 and the crop is the whole photo.
pub struct Options {
    pub preset: Option<String>,
    pub amount: Option<String>,
    pub out: Option<String>,
    pub crop: Option<Vec<String>>,
    pub size: Size,
    pub fill: bool,
    pub quality: u8,
    pub keep_gps: bool,
    pub inputs: Vec<String>,
}

impl View for Options {
    type V = OptionsView;

    open spec fn view(&self) -> OptionsView {
        OptionsView {
            preset: opt_view(self.preset),
            amount: opt_view(self.amount),
            out: opt_view(self.out),
            crop: match self.crop {
                Some(c) => Some(views(c@)),
                None => None,
            },
            size: self.size,
            fill: self.fill,
            quality: self.quality,
            keep_gps: self.keep_gps,
            inputs: views(self.inputs@),
        }
    }
}

fn read_crop(value: Option<&String>) -> (r: Vec<String>)
    ensures
        views(r@) == crop_of(
            match value {
                Some(v) => Some(v@),
                None => None,
            },
        ),
{
    let mut out: Vec<String> = Vec::new();
    assert(views(out@) =~= seq![]);
    let text = match value {
        Some(v) => chars_of(v.as_str()),
        None => {
            return out;
        },
    };
    let mut rest: &[char] = &text;
    let ghost parts = split(text@, ',');
    let ghost mut done: Seq<Seq<char>> = seq![];
    assert(done + parts == parts);
    loop
        invariant_except_break
            done + split(rest@, ',') == parts,
            views(out@) == crop_numbers(done),
        ensures
            views(out@) == crop_numbers(parts),
        decreases rest@.len(),
    {
        let e: usize = index_of(rest, ',', 0);
        let piece = part(rest, 0, e);
        let ghost before = done;
        proof {
            done = done.push(piece@);
            assert(done.drop_last() == before);
        }
        let n = trimmed(piece);
        let ghost had = views(out@);
        if is_numeral(n) {
            out.push(string_of(n));
            assert(views(out@) =~= had.push(n@));
        }
        if e >= rest.len() {
            assert(piece@ == rest@);
            assert(done == parts);
            break;
        }
        let next = part(rest, e + 1, rest.len());
        assert(next@ == rest@.skip(e + 1));
        assert(piece@ == rest@.take(e as int));
        assert(done + split(next@, ',') == before + (seq![piece@] + split(next@, ',')));
        rest = next;
    }
    out
}

fn has_value(a: &str) -> (r: bool)
    ensures
        r == takes_value(a@),
{
    text_eq(a, "--preset") || text_eq(a, "--amount") || text_eq(a, "--out") || text_eq(a, "--size")
        || text_eq(a, "--quality") || text_eq(a, "--crop")
}

fn read_size(v: &str) -> (r: Option<Size>)
    ensures
        r == size_of(v@),
{
    let text = chars_of(v);
    match parse_unsigned(&text, u32::MAX) {
        Some(n) => {
            if n > 0 {
                Some(Size::LongEdge(n))
            } else {
                find(v)
            }
        },
        None => find(v),
    }
}

fn read_quality(v: Option<&String>) -> (r: Option<u8>)
    ensures
        match r {
            Some(q) => quality_of(
                match v {
                    Some(s) => Some(s@),
                    None => None,
                },
            ) == Some(q as nat),
            None => quality_of(
                match v {
                    Some(s) => Some(s@),
                    None => None,
                },
            ) is None,
        },
{
    match v {
        Some(s) => {
            let text = chars_of(s.as_str());
            match parse_unsigned(&text, 255) {
                Some(q) => {
                    if 1 <= q && q <= 100 {
                        Some(q as u8)
                    } else {
                        None
                    }
                },
                None => None,
            }
        },
        None => None,
    }
}

fn copied(v: Option<&String>) -> (r: Option<String>)
    ensures
        opt_view(r) == match v {
            Some(s) => Some(s@),
            None => None,
        },
{
    match v {
        Some(s) => Some(s.clone()),
        None => None,
    }
}

impl Options {
    fn new() -> (r: Options)
        ensures
            r@ == default_options(),
    {
        let r = Options {
            preset: None,
            amount: None,
            out: None,
            crop: None,
            size: Size::Original,
            fill: true,
            quality: 92,
            keep_gps: true,
            inputs: Vec::new(),
        };
        assert(r@.inputs =~= seq![]);
        r
    }

    fn read(&mut self, a: &String, v: Option<&String>, valid: bool) -> (r: Result<(), String>)
        ensures
            ({
                let value = match v {
                    Some(s) => Some(s@),
                    None => None,
                };
                match r {
                    Ok(_) => with_option(old(self)@, a@, value, valid) == Ok::<
                        OptionsView,
                        Seq<char>,
                    >(final(self)@),
                    Err(e) => with_option(old(self)@, a@, value, valid) == Err::<
                        OptionsView,
                        Seq<char>,
                    >(e@),
                }
            }),
    {
        let word = a.as_str();
        if text_eq(word, "--preset") {
            self.preset = copied(v);
        } else if text_eq(word, "--amount") {
            match v {
                Some(n) => {
                    let text = chars_of(n.as_str());
                    if is_numeral(&text) {
                        self.amount = Some(n.clone());
                    } else {
                        return Err("bad --amount".to_owned());
                    }
                },
                None => {
                    return Err("bad --amount".to_owned());
                },
            }
        } else if text_eq(word, "--out") {
            self.out = copied(v);
        } else if text_eq(word, "--size") {
            match v {
                Some(s) => match read_size(s.as_str()) {
                    Some(size) => {
                        self.size = size;
                    },
                    None => {
                        return Err(joined("unknown size ", quoted(s.as_str()).as_str()));
                    },
                },
                None => {
                    return Err("--size needs a value".to_owned());
                },
            }
        } else if text_eq(word, "--fit") {
            self.fill = false;
        } else if text_eq(word, "--no-gps") {
            self.keep_gps = false;
        } else if text_eq(word, "--quality") {
            match read_quality(v) {
                Some(q) => {
                    self.quality = q;
                },
                None => {
                    return Err("--quality needs 1-100".to_owned());
                },
            }
        } else if text_eq(word, "--crop") {
            let numbers = read_crop(v);
            assert(views(numbers@).len() == numbers@.len());
            if numbers.len() == 4 && valid {
                self.crop = Some(numbers);
            } else {
                return Err(
                    "--crop needs X0,Y0,X1,Y1 with 0 <= X0 < X1 <= 1 and 0 <= Y0 < Y1 <= 1".to_owned(),
                );
            }
        } else {
            let ghost had = views(self.inputs@);
            self.inputs.push(a.clone());
            assert(views(self.inputs@) =~= had.push(a@));
        }
        Ok(())
    }
}

/// The numerals of every `--crop` among the options of `apply`, in order. Each is in order where there
/// are four, between 0 and 1, the first below the third and the second below the fourth.
pub fn crops(args: &[String]) -> (r: Vec<Vec<String>>)
    ensures
        r@.map_values(|v: Vec<String>| views(v@)) == crops_from(views(args@), 0),
{
    let ghost words = views(args@);
    let ghost whole = crops_from(words, 0);
    let mut out: Vec<Vec<String>> = Vec::new();
    let mut i: usize = 0;
    let ghost mut at: int = 0;
    let ghost seen = out@.map_values(|v: Vec<String>| views(v@));
    assert(seen + whole =~= whole);
    while i < args.len()
        invariant
            words == views(args@),
            at == i || (i == args@.len() && at >= i),
            out@.map_values(|v: Vec<String>| views(v@)) + crops_from(words, at) == whole,
        decreases args.len() - i,
    {
        let a = args[i].as_str();
        assert(words[i as int] == a@);
        let v = if i + 1 < args.len() {
            Some(&args[i + 1])
        } else {
            None
        };
        assert(i + 1 < args@.len() ==> words[i + 1] == args@[i + 1]@);
        let ghost had = out@.map_values(|v: Vec<String>| views(v@));
        let ghost next = if takes_value(a@) {
            i + 2
        } else {
            i + 1
        };
        if text_eq(a, "--crop") {
            let numbers = read_crop(v);
            let ghost item = views(numbers@);
            out.push(numbers);
            assert(out@.map_values(|v: Vec<String>| views(v@)) =~= had.push(item));
            assert(out@.map_values(|v: Vec<String>| views(v@)) + crops_from(words, next) =~= had + (
            seq![item] + crops_from(words, next)));
        }
        proof {
            at = next;
        }
        if has_value(a) && args.len() - i > 2 {
            i = i + 2;
        } else if has_value(a) {
            i = args.len();
        } else {
            i = i + 1;
        }
    }
    assert(crops_from(words, at) =~= seq![]);
    assert(out@.map_values(|v: Vec<String>| views(v@)) =~= whole);
    out
}

/// What the options of `apply` say. `valid` says of every `--crop`, in order (see [`crops`]), whether
/// its numbers are in order.
pub fn apply_options(args: &[String], valid: &[bool]) -> (r: Result<Options, String>)
    ensures
        match r {
            Ok(o) => options_of(views(args@), valid@) == Ok::<OptionsView, Seq<char>>(o@),
            Err(e) => options_of(views(args@), valid@) == Err::<OptionsView, Seq<char>>(e@),
        },
{
    let ghost words = views(args@);
    let ghost whole = options_from(words, 0, default_options(), valid@, 0);
    let mut st = Options::new();
    let mut i: usize = 0;
    let mut k: usize = 0;
    let ghost mut at: int = 0;
    while i < args.len()
        invariant
            words == views(args@),
            whole == options_from(words, 0, default_options(), valid@, 0),
            at == i || (i == args@.len() && at >= i),
            k <= i,
            options_from(words, at, st@, valid@, k as int) == whole,
        decreases args.len() - i,
    {
        let a = &args[i];
        assert(words[i as int] == a@);
        let v = if i + 1 < args.len() {
            Some(&args[i + 1])
        } else {
            None
        };
        assert(i + 1 < args@.len() ==> words[i + 1] == args@[i + 1]@);
        let ok = k < valid.len() && valid[k];
        match st.read(a, v, ok) {
            Ok(_) => {},
            Err(e) => {
                return Err(e);
            },
        }
        proof {
            at = if takes_value(a@) {
                i + 2
            } else {
                i + 1
            };
        }
        if text_eq(a.as_str(), "--crop") {
            k = k + 1;
        }
        if has_value(a.as_str()) && args.len() - i > 2 {
            i = i + 2;
        } else if has_value(a.as_str()) {
            i = args.len();
        } else {
            i = i + 1;
        }
    }
    if st.preset.is_some() && st.out.is_some() {
        Ok(st)
    } else {
        Err(USAGE.to_owned())
    }
}

// ---------------------------------------------------------------------------------------------
// Presets
// ---------------------------------------------------------------------------------------------

/// The first place from `i` on with this group; the length where there is none.
pub open spec fn group_place(counts: Seq<(Seq<char>, nat)>, group: Seq<char>, i: int) -> int
    decreases counts.len() - i,
{
    if i < 0 || i >= counts.len() {
        counts.len() as int
    } else if counts[i].0 == group {
        i
    } else {
        group_place(counts, group, i + 1)
    }
}

/// The counts with one more of this group.
pub open spec fn counted_one(counts: Seq<(Seq<char>, nat)>, group: Seq<char>) -> Seq<
    (Seq<char>, nat),
> {
    let i = group_place(counts, group, 0);
    if 0 <= i < counts.len() {
        counts.update(i, (group, counts[i].1 + 1))
    } else {
        counts.push((group, 1))
    }
}

/// How often each group occurs, in the order in which they first occur.
pub open spec fn counted(groups: Seq<Seq<char>>) -> Seq<(Seq<char>, nat)>
    decreases groups.len(),
{
    if groups.len() == 0 {
        seq![]
    } else {
        counted_one(counted(groups.drop_last()), groups.last())
    }
}

/// What a list of counts says.
pub open spec fn counts_view(counts: Seq<(String, usize)>) -> Seq<(Seq<char>, nat)> {
    counts.map_values(|c: (String, usize)| (c.0@, c.1 as nat))
}

proof fn lemma_group_place(counts: Seq<(Seq<char>, nat)>, group: Seq<char>, i: int)
    requires
        0 <= i <= counts.len(),
    ensures
        ({
            let p = group_place(counts, group, i);
            &&& i <= p <= counts.len()
            &&& p < counts.len() ==> counts[p].0 == group
            &&& forall|k: int| i <= k < p ==> (#[trigger] counts[k]).0 != group
        }),
    decreases counts.len() - i,
{
    if i < counts.len() && counts[i].0 != group {
        lemma_group_place(counts, group, i + 1);
    }
}

/// How often a text occurs.
pub open spec fn occurrences(groups: Seq<Seq<char>>, group: Seq<char>) -> nat
    decreases groups.len(),
{
    if groups.len() == 0 {
        0
    } else {
        occurrences(groups.drop_last(), group) + if groups.last() == group {
            1nat
        } else {
            0nat
        }
    }
}

/// Every group is listed exactly once, with the number of its presets.
pub proof fn law_groups_are_counted(groups: Seq<Seq<char>>, group: Seq<char>)
    ensures
        ({
            let counts = counted(groups);
            let p = group_place(counts, group, 0);
            &&& p < counts.len() ==> counts[p].1 == occurrences(groups, group)
            &&& p < counts.len() <==> occurrences(groups, group) > 0
            &&& forall|k: int| 0 <= k < counts.len() && k != p ==> (#[trigger] counts[k]).0 != group
        }),
    decreases groups.len(),
{
    if groups.len() > 0 {
        let before = counted(groups.drop_last());
        let counts = counted(groups);
        let last = groups.last();
        law_groups_are_counted(groups.drop_last(), group);
        law_groups_are_counted(groups.drop_last(), last);
        lemma_group_place(before, group, 0);
        lemma_group_place(before, last, 0);
        lemma_group_place(counts, group, 0);
        let p = group_place(counts, group, 0);
        let q = group_place(before, last, 0);
        let o = group_place(before, group, 0);
        if group == last {
            assert(counts[q].0 == group);
            assert(forall|k: int| 0 <= k < q ==> (#[trigger] counts[k]).0 == before[k].0);
            assert(p == q);
        } else if o < before.len() {
            assert(counts[o] == before[o]);
            assert(forall|k: int| 0 <= k < before.len() ==> (#[trigger] counts[k]).0 == before[k].0);
            assert(p == o);
        } else {
            assert(forall|k: int| 0 <= k < before.len() ==> (#[trigger] counts[k]).0 == before[k].0);
        }
    }
}

fn group_index(counts: &Vec<(String, usize)>, group: &str) -> (r: usize)
    ensures
        r == group_place(counts_view(counts@), group@, 0),
        r <= counts@.len(),
{
    let ghost all = counts_view(counts@);
    let mut i: usize = 0;
    while i < counts.len()
        invariant
            i <= counts@.len(),
            all == counts_view(counts@),
            group_place(all, group@, 0) == group_place(all, group@, i as int),
        decreases counts.len() - i,
    {
        assert(all[i as int].0 == counts@[i as int].0@);
        if text_eq(counts[i].0.as_str(), group) {
            return i;
        }
        i = i + 1;
    }
    i
}

proof fn lemma_count_bound(groups: Seq<Seq<char>>, k: int)
    requires
        0 <= k < counted(groups).len(),
    ensures
        counted(groups)[k].1 <= groups.len(),
    decreases groups.len(),
{
    if groups.len() > 0 {
        let before = counted(groups.drop_last());
        lemma_group_place(before, groups.last(), 0);
        if k < before.len() {
            lemma_count_bound(groups.drop_last(), k);
        }
    }
}

/// How many presets each group has, the groups in the order in which they first occur.
pub fn group_counts(groups: &[String]) -> (r: Vec<(String, usize)>)
    ensures
        counts_view(r@) == counted(views(groups@)),
{
    let mut out: Vec<(String, usize)> = Vec::new();
    let ghost all = views(groups@);
    assert(all.take(0) =~= seq![]);
    assert(counts_view(out@) =~= seq![]);
    let mut i: usize = 0;
    while i < groups.len()
        invariant
            i <= groups@.len(),
            all == views(groups@),
            counts_view(out@) == counted(all.take(i as int)),
        decreases groups.len() - i,
    {
        let ghost had = counts_view(out@);
        assert(all.take(i + 1).drop_last() =~= all.take(i as int));
        assert(all.take(i + 1).last() == groups@[i as int]@);
        let p: usize = group_index(&out, groups[i].as_str());
        if p < out.len() {
            proof {
                lemma_count_bound(all.take(i as int), p as int);
                assert(had[p as int].1 == out@[p as int].1);
            }
            let n: usize = out[p].1 + 1;
            out.set(p, (groups[i].clone(), n));
            assert(counts_view(out@) =~= had.update(p as int, (groups@[i as int]@, n as nat)));
        } else {
            out.push((groups[i].clone(), 1));
            assert(counts_view(out@) =~= had.push((groups@[i as int]@, 1)));
        }
        i = i + 1;
    }
    assert(all.take(all.len() as int) =~= all);
    out
}

/// The first place from `i` on with this name, whatever the case of its ASCII letters.
pub open spec fn named(names: Seq<Seq<char>>, name: Seq<char>, i: int) -> Option<int>
    decreases names.len() - i,
{
    if i < 0 || i >= names.len() {
        None
    } else if same_but_case(names[i], name) {
        Some(i)
    } else {
        named(names, name, i + 1)
    }
}

/// The preset of this name, whatever the case of its ASCII letters; or the message that there is none.
pub fn find_preset(names: &[String], name: &str) -> (r: Result<usize, String>)
    ensures
        match r {
            Ok(i) => named(views(names@), name@, 0) == Some(i as int) && i < names@.len(),
            Err(e) => named(views(names@), name@, 0) is None && e@ == "no preset named "@
                + debug_text(name@),
        },
{
    let ghost all = views(names@);
    let mut i: usize = 0;
    while i < names.len()
        invariant
            i <= names@.len(),
            all == views(names@),
            named(all, name@, 0) == named(all, name@, i as int),
        decreases names.len() - i,
    {
        assert(all[i as int] == names@[i as int]@);
        if eq_ignore_case(names[i].as_str(), name) {
            return Ok(i);
        }
        i = i + 1;
    }
    Err(joined("no preset named ", quoted(name).as_str()))
}

/// The name under which the edited copy of a photo is saved.
pub fn output_name(file: &str) -> (r: String)
    ensures
        r@ == stem_of(file@) + ".jpg"@,
{
    joined(stem(file).as_str(), ".jpg")
}

// ---------------------------------------------------------------------------------------------
// The list of presets
// ---------------------------------------------------------------------------------------------

/// A number in at least `width` characters, with blanks before it.
pub open spec fn right_aligned(n: nat, width: nat) -> Seq<char> {
    let d = decimal(n);
    if d.len() < width {
        Seq::new((width - d.len()) as nat, |i: int| ' ') + d
    } else {
        d
    }
}

fn push_right_aligned(out: &mut String, n: usize, width: usize)
    ensures
        final(out)@ == old(out)@ + right_aligned(n as nat, width as nat),
{
    let ghost had = out@;
    let mut digits = String::new();
    push_decimal(&mut digits, n as u64);
    assert(digits@ =~= decimal(n as nat));
    let chars = chars_of(digits.as_str());
    let mut k: usize = chars.len();
    while k < width
        invariant
            chars@ == decimal(n as nat),
            k >= chars@.len(),
            k <= width || k == chars@.len(),
            out@ == had + Seq::new((k - chars@.len()) as nat, |i: int| ' '),
        decreases width - k,
    {
        let ghost blanks = (k - chars@.len()) as nat;
        out.push(' ');
        assert(out@ =~= had + Seq::new((blanks + 1) as nat, |i: int| ' '));
        k = k + 1;
    }
    out.append(digits.as_str());
    assert(out@ =~= had + right_aligned(n as nat, width as nat));
}

/// The line on one group.
pub open spec fn group_line(count: (Seq<char>, nat)) -> Seq<char> {
    "  "@ + right_aligned(count.1, 4) + "  "@ + count.0
}

/// The first line of the list.
pub open spec fn list_heading(dir: Seq<char>, presets: nat, groups: nat) -> Seq<char> {
    dir + ": "@ + decimal(presets) + " presets in "@ + decimal(groups) + " groups"@
}

/// The list of the presets in `dir`: how many there are, how many in each group, and what failed to load.
pub open spec fn listing(dir: Seq<char>, groups: Seq<Seq<char>>, errors: Seq<Seq<char>>) -> Seq<
    Seq<char>,
> {
    let counts = counted(groups);
    seq![list_heading(dir, groups.len(), counts.len())] + counts.map_values(
        |c: (Seq<char>, nat)| group_line(c),
    ) + errors.map_values(|e: Seq<char>| "  failed: "@ + e)
}

/// The list of the presets in `dir`, whose groups are `groups`, and of what failed to load.
pub fn list_presets(dir: &str, groups: &[String], errors: &[String]) -> (r: Vec<String>)
    ensures
        views(r@) == listing(dir@, views(groups@), views(errors@)),
{
    let counts = group_counts(groups);
    let ghost all = counts_view(counts@);
    let mut out: Vec<String> = Vec::new();
    let mut first = joined(dir, ": ");
    push_decimal(&mut first, groups.len() as u64);
    first.append(" presets in ");
    push_decimal(&mut first, counts.len() as u64);
    first.append(" groups");
    let ghost head = seq![first@];
    out.push(first);
    assert(views(out@) =~= head);
    let ghost line = |c: (Seq<char>, nat)| group_line(c);
    assert(head + all.take(0).map_values(line) =~= head);
    let mut i: usize = 0;
    while i < counts.len()
        invariant
            i <= counts@.len(),
            all == counts_view(counts@),
            line == (|c: (Seq<char>, nat)| group_line(c)),
            views(out@) == head + all.take(i as int).map_values(line),
        decreases counts.len() - i,
    {
        let ghost had = views(out@);
        let mut text = "  ".to_owned();
        push_right_aligned(&mut text, counts[i].1, 4);
        text.append("  ");
        text.append(counts[i].0.as_str());
        assert(all[i as int] == (counts@[i as int].0@, counts@[i as int].1 as nat));
        let ghost t = text@;
        assert(t == group_line(all[i as int]));
        out.push(text);
        assert(views(out@) =~= had.push(t));
        assert(views(out@) =~= head + all.take(i + 1).map_values(line));
        i = i + 1;
    }
    assert(all.take(all.len() as int) =~= all);
    let ghost upper = views(out@);
    let ghost failed = |e: Seq<char>| "  failed: "@ + e;
    let ghost bad = views(errors@);
    assert(upper + bad.take(0).map_values(failed) =~= upper);
    i = 0;
    while i < errors.len()
        invariant
            i <= errors@.len(),
            bad == views(errors@),
            failed == (|e: Seq<char>| "  failed: "@ + e),
            views(out@) == upper + bad.take(i as int).map_values(failed),
        decreases errors.len() - i,
    {
        let ghost had = views(out@);
        let text = joined("  failed: ", errors[i].as_str());
        assert(bad[i as int] == errors@[i as int]@);
        let ghost t = text@;
        out.push(text);
        assert(views(out@) =~= had.push(t));
        assert(views(out@) =~= upper + bad.take(i + 1).map_values(failed));
        i = i + 1;
    }
    assert(bad.take(bad.len() as int) =~= bad);
    out
}

/// An option sets what it is named after, and nothing else; a value that it cannot take is refused.
pub proof fn law_option_sets_its_own(st: OptionsView, v: Seq<char>, n: nat, valid: bool)
    requires
        is_number(v),
        1 <= n <= 100,
    ensures
        with_option(st, "--preset"@, Some(v), valid) == Ok::<OptionsView, Seq<char>>(OptionsView { preset: Some(v), ..st }),
        with_option(st, "--amount"@, Some(v), valid) == Ok::<OptionsView, Seq<char>>(OptionsView { amount: Some(v), ..st }),
        with_option(st, "--out"@, Some(v), valid) == Ok::<OptionsView, Seq<char>>(OptionsView { out: Some(v), ..st }),
        with_option(st, "--size"@, Some(decimal(n)), valid) == Ok::<OptionsView, Seq<char>>(
            OptionsView { size: Size::LongEdge(n as u32), ..st },
        ),
        with_option(st, "--quality"@, Some(decimal(n)), valid) == Ok::<OptionsView, Seq<char>>(
            OptionsView { quality: n as u8, ..st },
        ),
        with_option(st, "--fit"@, None, valid) == Ok::<OptionsView, Seq<char>>(OptionsView { fill: false, ..st }),
        with_option(st, "--no-gps"@, None, valid) == Ok::<OptionsView, Seq<char>>(OptionsView { keep_gps: false, ..st }),
        with_option(st, "--quality"@, Some(decimal(n + 100)), valid) is Err,
{
    lemma_options_differ();
    crate::numeral::law_decimal_is_read_back(n, u32::MAX as nat);
    crate::numeral::law_decimal_is_read_back(n, 255);
    crate::numeral::law_decimal_is_read_back(n + 100, 255);
}

/// The options are told apart by their third letter.
proof fn lemma_options_differ()
    ensures
        "--preset"@[2] == 'p' && "--amount"@[2] == 'a' && "--out"@[2] == 'o' && "--size"@[2] == 's',
        "--fit"@[2] == 'f' && "--no-gps"@[2] == 'n' && "--quality"@[2] == 'q' && "--crop"@[2] == 'c',
        "--preset"@[0] == '-' && "--amount"@[0] == '-' && "--out"@[0] == '-' && "--size"@[0] == '-',
        "--fit"@[0] == '-' && "--no-gps"@[0] == '-' && "--quality"@[0] == '-' && "--crop"@[0] == '-',
        "--preset"@.len() > 2 && "--amount"@.len() > 2 && "--out"@.len() > 2 && "--size"@.len() > 2,
        "--fit"@.len() > 2 && "--no-gps"@.len() > 2 && "--quality"@.len() > 2 && "--crop"@.len() > 2,
{
    reveal_strlit("--preset");
    reveal_strlit("--amount");
    reveal_strlit("--out");
    reveal_strlit("--size");
    reveal_strlit("--fit");
    reveal_strlit("--no-gps");
    reveal_strlit("--quality");
    reveal_strlit("--crop");
}

/// Words that are no options are the photos, all of them and in order.
pub proof fn law_other_words_are_photos(args: Seq<Seq<char>>, i: int, st: OptionsView, valid: Seq<bool>, k: int)
    requires
        0 <= i <= args.len(),
        forall|j: int| 0 <= j < args.len() ==> (#[trigger] args[j]).len() > 0 && args[j][0] != '-',
    ensures
        options_from(args, i, st, valid, k) == Ok::<OptionsView, Seq<char>>(
            OptionsView { inputs: st.inputs + args.skip(i), ..st },
        ),
    decreases args.len() - i,
{
    lemma_options_differ();
    if i < args.len() {
        let a = args[i];
        assert(a[0] != '-');
        let next = OptionsView { inputs: st.inputs.push(a), ..st };
        assert(with_option(st, a, value_at(args, i), crop_is_valid(valid, k)) == Ok::<OptionsView, Seq<char>>(next));
        law_other_words_are_photos(args, i + 1, next, valid, k);
        assert(next.inputs + args.skip(i + 1) =~= st.inputs + args.skip(i));
    } else {
        assert(st.inputs + args.skip(i) =~= st.inputs);
    }
}

/// A command line is read word by word: an option and its value count first, and the words behind them go on from
/// there.
pub proof fn law_options_count_in_turn(a: Seq<char>, v: Seq<char>, rest: Seq<Seq<char>>, st: OptionsView, valid: Seq<bool>)
    requires
        takes_value(a),
        a != "--crop"@,
        with_option(st, a, Some(v), crop_is_valid(valid, 0)) is Ok,
    ensures
        options_from(seq![a, v] + rest, 0, st, valid, 0) == options_from(
            rest,
            0,
            with_option(st, a, Some(v), crop_is_valid(valid, 0))->Ok_0,
            valid,
            0,
        ),
{
    let args = seq![a, v] + rest;
    assert(args[0] == a && args[1] == v);
    assert(rest =~= args.skip(2));
    lemma_options_shift(args, rest, 2, 0, with_option(st, a, Some(v), crop_is_valid(valid, 0))->Ok_0, valid, 0);
}

proof fn lemma_options_shift(
    args: Seq<Seq<char>>,
    rest: Seq<Seq<char>>,
    n: int,
    i: int,
    st: OptionsView,
    valid: Seq<bool>,
    k: int,
)
    requires
        0 <= n <= args.len(),
        rest == args.skip(n),
        0 <= i,
    ensures
        options_from(args, n + i, st, valid, k) == options_from(rest, i, st, valid, k),
    decreases rest.len() + 1 - i,
{
    if i < rest.len() {
        assert(rest[i] == args[n + i]);
        assert(value_at(rest, i) == value_at(args, n + i));
        let a = rest[i];
        match with_option(st, a, value_at(rest, i), crop_is_valid(valid, k)) {
            Ok(next) => {
                let step = if takes_value(a) {
                    2int
                } else {
                    1
                };
                let more = if a == "--crop"@ {
                    k + 1
                } else {
                    k
                };
                lemma_options_shift(args, rest, n, i + step, next, valid, more);
            },
            Err(_) => {},
        }
    }
}

} // verus!
