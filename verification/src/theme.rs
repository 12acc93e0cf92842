//! Borrows the look of the user's Ghostty terminal: its font and colour theme.
//!
//! Reads Ghostty's config (`font-family`, `font-size`, `theme`, and colour overrides), says which
//! theme files to load, turns the terminal's colours into those of the interface, and picks the
//! font's file among the installed ones. Anything missing falls back to the defaults.

use crate::numeral::{parse_unsigned, unsigned};
use crate::preset::opt_view;
use crate::single::{round, rounded};
use crate::text::{
    ascii_lower_char, begins, chars_of, find, halves, has_text, index_of, is_alnum, is_digit,
    is_text, joined, lower_char, next_char, part, split_once, string_of, strip, strip_start,
    stripped, stripped_start, text_eq, trim, trimmed, views,
};
use vstd::prelude::*;

verus! {

/// An opaque colour.
#[derive(Clone, Copy, PartialEq, Eq, Debug, Structural)]
pub struct Color {
    pub r: u8,
    pub g: u8,
    pub b: u8,
}

// ---------------------------------------------------------------------------------------------
// Reading colours
// ---------------------------------------------------------------------------------------------

/// The value of a hexadecimal digit.
pub open spec fn hex_digit(c: char) -> Option<nat> {
    if is_digit(c) {
        Some((c as nat - '0' as nat) as nat)
    } else if 'a' <= c && c <= 'f' {
        Some((c as nat - 'a' as nat + 10) as nat)
    } else if 'A' <= c && c <= 'F' {
        Some((c as nat - 'A' as nat + 10) as nat)
    } else {
        None
    }
}

/// The number that hexadecimal digits stand for.
pub open spec fn hex_value(s: Seq<char>) -> Option<nat>
    decreases s.len(),
{
    if s.len() == 0 {
        Some(0)
    } else {
        match (hex_value(s.drop_last()), hex_digit(s.last())) {
            (Some(n), Some(d)) => Some(n * 16 + d),
            _ => None,
        }
    }
}

/// The colour of a number: red above green above blue.
pub open spec fn color_of_number(n: nat) -> Color {
    Color {
        r: ((n / 65536) % 256) as u8,
        g: ((n / 256) % 256) as u8,
        b: (n % 256) as u8,
    }
}

/// The colour that `#rrggbb` stands for; the `#` may be missing or repeated, and a plus sign may
/// stand for the first digit.
pub open spec fn color_of(v: Seq<char>) -> Option<Color> {
    let hex = strip_start(trim(v), '#');
    let digits = if hex.len() > 0 && hex[0] == '+' {
        hex.skip(1)
    } else {
        hex
    };
    if hex.len() != 6 {
        None
    } else {
        match hex_value(digits) {
            Some(n) => Some(color_of_number(n)),
            None => None,
        }
    }
}

fn hex(c: char) -> (r: Option<u32>)
    ensures
        match r {
            Some(n) => hex_digit(c) == Some(n as nat) && n < 16,
            None => hex_digit(c) is None,
        },
{
    if is_digit(c) {
        Some(c as u32 - 48)
    } else if 'a' <= c && c <= 'f' {
        Some(c as u32 - 87)
    } else if 'A' <= c && c <= 'F' {
        Some(c as u32 - 55)
    } else {
        None
    }
}

proof fn lemma_hex_prefix(s: Seq<char>, k: int)
    requires
        0 <= k <= s.len(),
        hex_value(s.take(k)) is None,
    ensures
        hex_value(s) is None,
    decreases s.len(),
{
    if k < s.len() {
        assert(s.drop_last().take(k) == s.take(k));
        lemma_hex_prefix(s.drop_last(), k);
    } else {
        assert(s.take(k) == s);
    }
}

/// The colour that `#rrggbb` stands for.
pub fn parse_color(v: &[char]) -> (r: Option<Color>)
    ensures
        r == color_of(v@),
{
    let text = stripped_start(trimmed(v), '#');
    if text.len() != 6 {
        return None;
    }
    let digits = if text[0] == '+' {
        part(text, 1, 6)
    } else {
        text
    };
    assert(text@.subrange(1, 6) == text@.skip(1));
    let mut n: u32 = 0;
    let mut limit: u32 = 1;
    let mut i: usize = 0;
    assert(digits@.take(0) == Seq::<char>::empty());
    while i < digits.len()
        invariant
            i <= digits@.len() <= 6,
            text@ == strip_start(trim(v@), '#'),
            text@.len() == 6,
            digits@ == if text@[0] == '+' {
                text@.skip(1)
            } else {
                text@
            },
            n < limit,
            limit <= 0x100_0000,
            i == 0 ==> limit == 1,
            i == 1 ==> limit == 16,
            i == 2 ==> limit == 256,
            i == 3 ==> limit == 4096,
            i == 4 ==> limit == 65536,
            i == 5 ==> limit == 0x10_0000,
            hex_value(digits@.take(i as int)) == Some(n as nat),
        decreases digits.len() - i,
    {
        assert(digits@.take(i + 1).drop_last() == digits@.take(i as int));
        match hex(digits[i]) {
            Some(d) => {
                n = n * 16 + d;
                limit = limit * 16;
            },
            None => {
                proof {
                    assert(hex_value(digits@.take(i + 1)) is None);
                    lemma_hex_prefix(digits@, i + 1);
                }
                return None;
            },
        }
        i = i + 1;
    }
    assert(digits@.take(i as int) == digits@);
    Some(Color { r: ((n / 65536) % 256) as u8, g: ((n / 256) % 256) as u8, b: (n % 256) as u8 })
}

// ---------------------------------------------------------------------------------------------
// Config lines
// ---------------------------------------------------------------------------------------------

/// The key and the value of a line `key = value`; comments and other lines have none. Quotes round
/// the value are dropped.
pub open spec fn kv_line(raw: Seq<char>) -> Option<(Seq<char>, Seq<char>)> {
    let line = trim(raw);
    if line.len() == 0 || line[0] == '#' {
        None
    } else {
        match split_once(line, '=') {
            Some((k, v)) => Some((trim(k), strip(trim(v), '"'))),
            None => None,
        }
    }
}

/// A list of one pair, or of none.
pub open spec fn pair_list(p: Option<(Seq<char>, Seq<char>)>) -> Seq<(Seq<char>, Seq<char>)> {
    match p {
        Some(kv) => seq![kv],
        None => seq![],
    }
}

/// The `key = value` lines of a text, in order.
pub open spec fn kv_of(text: Seq<char>) -> Seq<(Seq<char>, Seq<char>)>
    decreases text.len(),
{
    let e = next_char(text, '\n', 0);
    let head = pair_list(kv_line(text.take(e)));
    if 0 <= e < text.len() {
        head + kv_of(text.skip(e + 1))
    } else {
        head
    }
}

/// The pairs as views.
pub open spec fn kv_views(v: Seq<(String, String)>) -> Seq<(Seq<char>, Seq<char>)> {
    v.map_values(|p: (String, String)| (p.0@, p.1@))
}

fn read_line(raw: &[char]) -> (r: Option<(String, String)>)
    ensures
        match r {
            Some((k, v)) => kv_line(raw@) == Some((k@, v@)),
            None => kv_line(raw@) is None,
        },
{
    let line = trimmed(raw);
    if line.len() == 0 || line[0] == '#' {
        return None;
    }
    match halves(line, '=') {
        Some((k, v)) => Some((string_of(trimmed(k)), string_of(stripped(trimmed(v), '"')))),
        None => None,
    }
}

/// `key = value` lines, in order (keys like `palette` repeat).
pub fn parse_kv(text: &str) -> (r: Vec<(String, String)>)
    ensures
        kv_views(r@) == kv_of(text@),
{
    let chars = chars_of(text);
    let mut rest: &[char] = &chars;
    let mut out: Vec<(String, String)> = Vec::new();
    let ghost whole = kv_of(text@);
    assert(kv_views(out@) + whole == whole);
    loop
        invariant_except_break
            kv_views(out@) + kv_of(rest@) == whole,
        ensures
            kv_views(out@) == whole,
        decreases rest@.len(),
    {
        let e: usize = index_of(rest, '\n', 0);
        let line = part(rest, 0, e);
        assert(line@ == rest@.take(e as int));
        let ghost had = kv_views(out@);
        let ghost head = pair_list(kv_line(line@));
        match read_line(line) {
            Some((k, v)) => {
                out.push((k, v));
            },
            None => {},
        }
        assert(kv_views(out@) == had + head);
        if e >= rest.len() {
            break;
        }
        let next = part(rest, e + 1, rest.len());
        assert(next@ == rest@.skip(e + 1));
        assert(kv_views(out@) + kv_of(next@) == had + (head + kv_of(next@)));
        rest = next;
    }
    out
}

/// The value of the last line with this key.
pub open spec fn last_value_of(kv: Seq<(Seq<char>, Seq<char>)>, key: Seq<char>) -> Option<Seq<char>>
    decreases kv.len(),
{
    if kv.len() == 0 {
        None
    } else if kv.last().0 == key {
        Some(kv.last().1)
    } else {
        last_value_of(kv.drop_last(), key)
    }
}

/// The value of the last line with this key.
pub fn last_value<'a>(config: &'a [(String, String)], key: &str) -> (r: Option<&'a String>)
    ensures
        match r {
            Some(v) => last_value_of(kv_views(config@), key@) == Some(v@),
            None => last_value_of(kv_views(config@), key@) is None,
        },
{
    let ghost kv = kv_views(config@);
    let mut n: usize = config.len();
    assert(kv.take(n as int) == kv);
    while n > 0
        invariant
            n <= config@.len(),
            kv == kv_views(config@),
            last_value_of(kv, key@) == last_value_of(kv.take(n as int), key@),
        decreases n,
    {
        assert(kv.take(n as int).last() == kv[n - 1]);
        assert(kv.take(n as int).drop_last() == kv.take(n - 1));
        assert(kv[n - 1] == (config@[n - 1].0@, config@[n - 1].1@));
        if text_eq(config[n - 1].0.as_str(), key) {
            return Some(&config[n - 1].1);
        }
        n = n - 1;
    }
    None
}

// ---------------------------------------------------------------------------------------------
// Colour schemes
// ---------------------------------------------------------------------------------------------

/// Terminal colours that matter for the UI.
pub struct Colors {
    pub background: Option<Color>,
    pub foreground: Option<Color>,
    pub selection_bg: Option<Color>,
    pub selection_fg: Option<Color>,
    pub cursor: Option<Color>,
    /// 256 entries, `None` where the palette does not set a colour.
    pub palette: Vec<Option<Color>>,
}

/// What [`Colors`] hold.
pub struct ColorsView {
    pub background: Option<Color>,
    pub foreground: Option<Color>,
    pub selection_bg: Option<Color>,
    pub selection_fg: Option<Color>,
    pub cursor: Option<Color>,
    pub palette: Map<u8, Color>,
}

/// No colour at all.
pub open spec fn no_colors() -> ColorsView {
    ColorsView {
        background: None,
        foreground: None,
        selection_bg: None,
        selection_fg: None,
        cursor: None,
        palette: Map::empty(),
    }
}

/// The colours with what a config line sets. A colour that cannot be read is unset; a palette
/// entry that cannot be read is left as it is.
pub open spec fn applied(c: ColorsView, key: Seq<char>, value: Seq<char>) -> ColorsView {
    if key == "background"@ {
        ColorsView { background: color_of(value), ..c }
    } else if key == "foreground"@ {
        ColorsView { foreground: color_of(value), ..c }
    } else if key == "selection-background"@ {
        ColorsView { selection_bg: color_of(value), ..c }
    } else if key == "selection-foreground"@ {
        ColorsView { selection_fg: color_of(value), ..c }
    } else if key == "cursor-color"@ {
        ColorsView { cursor: color_of(value), ..c }
    } else if key == "palette"@ {
        match split_once(value, '=') {
            Some((i, v)) => match (unsigned(trim(i), 255), color_of(v)) {
                (Some(n), Some(color)) => ColorsView {
                    palette: c.palette.insert(n as u8, color),
                    ..c
                },
                _ => c,
            },
            None => c,
        }
    } else {
        c
    }
}

/// The colours with what all lines set, in order.
pub open spec fn applied_all(c: ColorsView, kv: Seq<(Seq<char>, Seq<char>)>) -> ColorsView
    decreases kv.len(),
{
    if kv.len() == 0 {
        c
    } else {
        applied(applied_all(c, kv.drop_last()), kv.last().0, kv.last().1)
    }
}

/// The first of two colours that is set.
pub open spec fn first_set(a: Option<Color>, b: Option<Color>) -> Option<Color> {
    match a {
        Some(c) => Some(c),
        None => b,
    }
}

/// `base` with the colours that `over` sets.
pub open spec fn merge(base: ColorsView, over: ColorsView) -> ColorsView {
    ColorsView {
        background: first_set(over.background, base.background),
        foreground: first_set(over.foreground, base.foreground),
        selection_bg: first_set(over.selection_bg, base.selection_bg),
        selection_fg: first_set(over.selection_fg, base.selection_fg),
        cursor: first_set(over.cursor, base.cursor),
        palette: base.palette.union_prefer_right(over.palette),
    }
}

impl View for Colors {
    type V = ColorsView;

    open spec fn view(&self) -> ColorsView {
        ColorsView {
            background: self.background,
            foreground: self.foreground,
            selection_bg: self.selection_bg,
            selection_fg: self.selection_fg,
            cursor: self.cursor,
            palette: palette_map(self.palette@),
        }
    }
}

/// The entries of the palette that are set.
pub open spec fn palette_map(p: Seq<Option<Color>>) -> Map<u8, Color> {
    Map::new(|i: u8| p[i as int] is Some, |i: u8| p[i as int]->Some_0)
}

fn either(a: Option<Color>, b: Option<Color>) -> (r: Option<Color>)
    ensures
        r == first_set(a, b),
{
    match a {
        Some(c) => Some(c),
        None => b,
    }
}

impl Colors {
    /// The palette has an entry for every number.
    pub open spec fn wf(self) -> bool {
        self.palette@.len() == 256
    }

    /// No colour at all.
    pub fn new() -> (r: Colors)
        ensures
            r.wf(),
            r@ == no_colors(),
    {
        let mut palette: Vec<Option<Color>> = Vec::new();
        let mut i: usize = 0;
        while i < 256
            invariant
                i <= 256,
                palette@.len() == i,
                forall|k: int| 0 <= k < i ==> (#[trigger] palette@[k]) is None,
            decreases 256 - i,
        {
            palette.push(None);
            i = i + 1;
        }
        assert(palette_map(palette@) =~= Map::<u8, Color>::empty());
        Colors {
            background: None,
            foreground: None,
            selection_bg: None,
            selection_fg: None,
            cursor: None,
            palette,
        }
    }

    /// The palette's colour `i`.
    pub fn palette_color(&self, i: u8) -> (r: Option<Color>)
        requires
            self.wf(),
        ensures
            r == if self@.palette.dom().contains(i) {
                Some(self@.palette[i])
            } else {
                None
            },
    {
        self.palette[i as usize]
    }

    /// Takes over what a config line sets.
    pub fn apply(&mut self, key: &str, value: &str)
        requires
            old(self).wf(),
        ensures
            final(self).wf(),
            final(self)@ == applied(old(self)@, key@, value@),
    {
        let v = chars_of(value);
        if text_eq(key, "background") {
            self.background = parse_color(&v);
        } else if text_eq(key, "foreground") {
            self.foreground = parse_color(&v);
        } else if text_eq(key, "selection-background") {
            self.selection_bg = parse_color(&v);
        } else if text_eq(key, "selection-foreground") {
            self.selection_fg = parse_color(&v);
        } else if text_eq(key, "cursor-color") {
            self.cursor = parse_color(&v);
        } else if text_eq(key, "palette") {
            if let Some((number, color)) = halves(&v, '=') {
                if let (Some(n), Some(c)) = (parse_unsigned(trimmed(number), 255), parse_color(color)) {
                    let ghost before = self.palette@;
                    self.palette.set(n as usize, Some(c));
                    assert(palette_map(self.palette@) =~= palette_map(before).insert(n as u8, c));
                }
            }
        }
    }

    /// Takes over what all lines of a config set.
    pub fn apply_all(&mut self, config: &[(String, String)])
        requires
            old(self).wf(),
        ensures
            final(self).wf(),
            final(self)@ == applied_all(old(self)@, kv_views(config@)),
    {
        let ghost start = self@;
        let ghost kv = kv_views(config@);
        let mut i: usize = 0;
        assert(kv.take(0) == Seq::<(Seq<char>, Seq<char>)>::empty());
        while i < config.len()
            invariant
                i <= config@.len(),
                kv == kv_views(config@),
                self.wf(),
                self@ == applied_all(start, kv.take(i as int)),
            decreases config.len() - i,
        {
            assert(kv.take(i + 1).drop_last() == kv.take(i as int));
            assert(kv.take(i + 1).last() == (config@[i as int].0@, config@[i as int].1@));
            self.apply(config[i].0.as_str(), config[i].1.as_str());
            i = i + 1;
        }
        assert(kv.take(i as int) == kv);
    }

    /// These colours, with those that `over` sets in their place.
    pub fn merged(&self, over: &Colors) -> (r: Colors)
        requires
            self.wf(),
            over.wf(),
        ensures
            r.wf(),
            r@ == merge(self@, over@),
    {
        let mut palette: Vec<Option<Color>> = Vec::new();
        let mut i: usize = 0;
        while i < 256
            invariant
                i <= 256,
                self.wf(),
                over.wf(),
                palette@.len() == i,
                forall|k: int|
                    0 <= k < i ==> (#[trigger] palette@[k]) == first_set(
                        over.palette@[k],
                        self.palette@[k],
                    ),
            decreases 256 - i,
        {
            palette.push(either(over.palette[i], self.palette[i]));
            i = i + 1;
        }
        assert(palette_map(palette@) =~= palette_map(self.palette@).union_prefer_right(
            palette_map(over.palette@),
        ));
        Colors {
            background: either(over.background, self.background),
            foreground: either(over.foreground, self.foreground),
            selection_bg: either(over.selection_bg, self.selection_bg),
            selection_fg: either(over.selection_fg, self.selection_fg),
            cursor: either(over.cursor, self.cursor),
            palette,
        }
    }
}

/// What a merge sets is what the overriding colours set, and what they leave unset is the base's.
pub proof fn law_merge_overrides(base: ColorsView, over: ColorsView, i: u8)
    ensures
        over.background is Some ==> merge(base, over).background == over.background,
        over.background is None ==> merge(base, over).background == base.background,
        over.palette.dom().contains(i) ==> merge(base, over).palette[i] == over.palette[i],
        !over.palette.dom().contains(i) && base.palette.dom().contains(i) ==> merge(
            base,
            over,
        ).palette[i] == base.palette[i],
        merge(base, over).palette.dom() == base.palette.dom().union(over.palette.dom()),
        merge(base, no_colors()) == base,
        merge(no_colors(), over) == over,
        merge(merge(base, over), over) == merge(base, over),
{
    assert(merge(base, over).palette.dom() =~= base.palette.dom().union(over.palette.dom()));
    assert(merge(base, no_colors()).palette =~= base.palette);
    assert(merge(no_colors(), over).palette =~= over.palette);
    assert(merge(merge(base, over), over).palette =~= merge(base, over).palette);
}

// ---------------------------------------------------------------------------------------------
// The interface's colours
// ---------------------------------------------------------------------------------------------

/// The weights of the channels in a colour's brightness, as multiples of 2^-32: the single
/// precision numbers nearest to 0.2126, 0.7152 and 0.0722.
pub const WEIGHT_R: u128 = 913110016;

pub const WEIGHT_G: u128 = 3071760640;

pub const WEIGHT_B: u128 = 310096640;

/// Half of full brightness, 128, as a multiple of 2^-32.
pub const MIDDLE: u128 = 0x80_0000_0000;

/// The brightness of a colour, `0.2126 r + 0.7152 g + 0.0722 b`, every step rounded to single
/// precision.
pub open spec fn brightness(c: Color) -> nat {
    rounded(
        rounded(rounded(WEIGHT_R as nat * c.r as nat) + rounded(WEIGHT_G as nat * c.g as nat))
            + rounded(WEIGHT_B as nat * c.b as nat),
    )
}

/// A colour of less than half brightness.
pub open spec fn dark(c: Color) -> bool {
    brightness(c) < MIDDLE
}

/// Whether a colour is of less than half brightness.
pub fn is_dark(c: Color) -> (r: bool)
    ensures
        r == dark(c),
{
    let x: u128 = round(round(WEIGHT_R * c.r as u128) + round(WEIGHT_G * c.g as u128));
    round(x + round(WEIGHT_B * c.b as u128)) < MIDDLE
}

/// The whole number nearest to the point that lies `percent` of the way from `x` to `y`, the
/// larger of two equally near.
pub open spec fn mix_channel(x: int, y: int, percent: int) -> int {
    (200 * x + 2 * (y - x) * percent + 100) / 200
}

/// The colour that lies `percent` of the way from `a` to `b`.
pub open spec fn mixed(a: Color, b: Color, percent: int) -> Color {
    Color {
        r: mix_channel(a.r as int, b.r as int, percent) as u8,
        g: mix_channel(a.g as int, b.g as int, percent) as u8,
        b: mix_channel(a.b as int, b.b as int, percent) as u8,
    }
}

fn mix_one(x: u8, y: u8, percent: u8) -> (r: u8)
    requires
        percent <= 100,
    ensures
        r == mix_channel(x as int, y as int, percent as int),
{
    let a: i64 = x as i64;
    let b: i64 = y as i64;
    let p: i64 = percent as i64;
    assert(-25500 <= (b - a) * p <= 25500 && 2 * ((b - a) * p) == 2 * (b - a) * p && 100 * a + (b
        - a) * p <= 25500 && 0 <= 100 * a + (b - a) * p) by (nonlinear_arith)
        requires
            0 <= a <= 255,
            0 <= b <= 255,
            0 <= p <= 100,
    ;
    ((200 * a + 2 * ((b - a) * p) + 100) / 200) as u8
}

/// The colour that lies `percent` of the way from `a` to `b`.
pub fn mix(a: Color, b: Color, percent: u8) -> (r: Color)
    requires
        percent <= 100,
    ensures
        r == mixed(a, b, percent as int),
{
    Color {
        r: mix_one(a.r, b.r, percent),
        g: mix_one(a.g, b.g, percent),
        b: mix_one(a.b, b.b, percent),
    }
}

/// A mix begins with one colour and ends with the other, and mixing a colour with itself changes
/// nothing.
pub proof fn law_mix_ends(a: Color, b: Color, percent: int)
    requires
        0 <= percent <= 100,
    ensures
        mixed(a, b, 0) == a,
        mixed(a, b, 100) == b,
        mixed(a, a, percent) == a,
{
    assert(2 * (a.r - a.r) * percent == 0 && 2 * (a.g - a.g) * percent == 0 && 2 * (a.b - a.b)
        * percent == 0) by (nonlinear_arith);
}

/// The colours of the interface. `None` leaves the default.
#[derive(Clone, Copy, Debug)]
pub struct Scheme {
    /// Start from the dark defaults, else from the light ones.
    pub dark: bool,
    pub panel_fill: Color,
    pub window_fill: Color,
    pub window_stroke: Color,
    pub extreme_bg: Color,
    pub faint_bg: Color,
    pub code_bg: Color,
    pub hyperlink: Option<Color>,
    pub warn_fg: Option<Color>,
    pub error_fg: Option<Color>,
    pub selection_bg: Option<Color>,
    pub selection_stroke: Color,
    /// The text cursor, and the outline of hovered and pressed widgets.
    pub accent: Option<Color>,
    pub frame_stroke: Color,
    pub frame_text: Color,
    pub inactive_fill: Color,
    pub hovered_fill: Color,
    pub active_fill: Color,
    pub open_fill: Color,
    pub widget_text: Color,
    pub inactive_text: Color,
}

pub open spec fn black() -> Color {
    Color { r: 0, g: 0, b: 0 }
}

/// An entry of a palette.
pub open spec fn entry(p: Map<u8, Color>, i: u8) -> Option<Color> {
    if p.dom().contains(i) {
        Some(p[i])
    } else {
        None
    }
}

/// The interface's colours for a terminal with background `bg` and foreground `fg`.
pub open spec fn scheme_for(c: ColorsView, bg: Color, fg: Color) -> Scheme {
    let accent = first_set(c.cursor, entry(c.palette, 4));
    let zero = entry(c.palette, 0);
    Scheme {
        dark: dark(bg),
        panel_fill: bg,
        window_fill: mixed(bg, fg, 3),
        window_stroke: mixed(bg, fg, 15),
        extreme_bg: match zero {
            Some(p) => if p != bg {
                p
            } else {
                mixed(bg, black(), 30)
            },
            None => mixed(bg, black(), 30),
        },
        faint_bg: mixed(bg, fg, 4),
        code_bg: mixed(bg, fg, 8),
        hyperlink: first_set(first_set(entry(c.palette, 12), entry(c.palette, 4)), accent),
        warn_fg: entry(c.palette, 3),
        error_fg: entry(c.palette, 1),
        selection_bg: first_set(c.selection_bg, accent),
        selection_stroke: match c.selection_fg {
            Some(x) => x,
            None => fg,
        },
        accent,
        frame_stroke: mixed(bg, fg, 12),
        frame_text: mixed(bg, fg, 85),
        inactive_fill: mixed(bg, fg, 8),
        hovered_fill: mixed(bg, fg, 15),
        active_fill: mixed(bg, fg, 22),
        open_fill: mixed(bg, fg, 12),
        widget_text: fg,
        inactive_text: mixed(mixed(bg, fg, 60), fg, 60),
    }
}

/// The interface's colours for a terminal's; none where the background or the foreground is not
/// set.
pub open spec fn scheme_of(c: ColorsView) -> Option<Scheme> {
    match (c.background, c.foreground) {
        (Some(bg), Some(fg)) => Some(scheme_for(c, bg, fg)),
        _ => None,
    }
}

/// The interface's colours built from a terminal colour scheme.
pub fn visuals(c: &Colors) -> (r: Option<Scheme>)
    requires
        c.wf(),
    ensures
        r == scheme_of(c@),
{
    let (bg, fg) = match (c.background, c.foreground) {
        (Some(bg), Some(fg)) => (bg, fg),
        _ => {
            return None;
        },
    };
    let accent = either(c.cursor, c.palette_color(4));
    let dimmed = mix(bg, Color { r: 0, g: 0, b: 0 }, 30);
    let extreme_bg = match c.palette_color(0) {
        Some(p) => if p != bg {
            p
        } else {
            dimmed
        },
        None => dimmed,
    };
    let selection_stroke = match c.selection_fg {
        Some(x) => x,
        None => fg,
    };
    Some(
        Scheme {
            dark: is_dark(bg),
            panel_fill: bg,
            window_fill: mix(bg, fg, 3),
            window_stroke: mix(bg, fg, 15),
            extreme_bg,
            faint_bg: mix(bg, fg, 4),
            code_bg: mix(bg, fg, 8),
            hyperlink: either(either(c.palette_color(12), c.palette_color(4)), accent),
            warn_fg: c.palette_color(3),
            error_fg: c.palette_color(1),
            selection_bg: either(c.selection_bg, accent),
            selection_stroke,
            accent,
            frame_stroke: mix(bg, fg, 12),
            frame_text: mix(bg, fg, 85),
            inactive_fill: mix(bg, fg, 8),
            hovered_fill: mix(bg, fg, 15),
            active_fill: mix(bg, fg, 22),
            open_fill: mix(bg, fg, 12),
            widget_text: fg,
            inactive_text: mix(mix(bg, fg, 60), fg, 60),
        },
    )
}

// ---------------------------------------------------------------------------------------------
// Themes
// ---------------------------------------------------------------------------------------------

/// Which theme files a config asks for.
pub enum ThemeRequest {
    /// `light:Name,dark:Name`: a theme for each mode, as far as named.
    Pair { light: Option<String>, dark: Option<String> },
    /// One theme, for the mode that its background is of.
    Single(String),
    /// No theme.
    Nothing,
}

/// The names for the light and the dark mode that a list of parts gives; the last one counts.
pub open spec fn named_themes(parts: Seq<Seq<char>>) -> (Option<Seq<char>>, Option<Seq<char>>)
    decreases parts.len(),
{
    if parts.len() == 0 {
        (None, None)
    } else {
        let before = named_themes(parts.drop_last());
        match split_once(parts.last(), ':') {
            Some((mode, name)) => if mode == "light"@ {
                (Some(trim(name)), before.1)
            } else if mode == "dark"@ {
                (before.0, Some(trim(name)))
            } else {
                before
            },
            None => before,
        }
    }
}

/// The theme that the value of `theme` asks for.
pub open spec fn requests(r: ThemeRequest, spec: Option<Seq<char>>) -> bool {
    match spec {
        Some(s) => if find(s, ":"@) is Some {
            r matches ThemeRequest::Pair { light, dark } && (opt_view(light), opt_view(dark))
                == named_themes(crate::text::split(s, ','))
        } else {
            r matches ThemeRequest::Single(name) && name@ == s
        },
        None => r is Nothing,
    }
}

fn read_part(part_text: &[char], light: &mut Option<String>, dark: &mut Option<String>)
    ensures
        match split_once(part_text@, ':') {
            Some((mode, name)) => if mode == "light"@ {
                opt_view(*final(light)) == Some(trim(name)) && *final(dark) == *old(dark)
            } else if mode == "dark"@ {
                opt_view(*final(dark)) == Some(trim(name)) && *final(light) == *old(light)
            } else {
                *final(light) == *old(light) && *final(dark) == *old(dark)
            },
            None => *final(light) == *old(light) && *final(dark) == *old(dark),
        },
{
    if let Some((mode, name)) = halves(part_text, ':') {
        if is_text(mode, "light") {
            *light = Some(string_of(trimmed(name)));
        } else if is_text(mode, "dark") {
            *dark = Some(string_of(trimmed(name)));
        }
    }
}

/// Which theme files the value of `theme` asks for.
pub fn theme_request(spec: Option<&String>) -> (r: ThemeRequest)
    ensures
        requests(
            r,
            match spec {
                Some(s) => Some(s@),
                None => None,
            },
        ),
{
    let text = match spec {
        Some(s) => chars_of(s.as_str()),
        None => {
            return ThemeRequest::Nothing;
        },
    };
    if !has_text(&text, ":") {
        return ThemeRequest::Single(string_of(&text));
    }
    let mut light: Option<String> = None;
    let mut dark: Option<String> = None;
    let mut rest: &[char] = &text;
    let ghost parts = crate::text::split(text@, ',');
    let ghost mut done: Seq<Seq<char>> = seq![];
    assert(done + parts == parts);
    loop
        invariant_except_break
            done + crate::text::split(rest@, ',') == parts,
            (opt_view(light), opt_view(dark)) == named_themes(done),
        ensures
            (opt_view(light), opt_view(dark)) == named_themes(parts),
        decreases rest@.len(),
    {
        let e: usize = index_of(rest, ',', 0);
        let piece = part(rest, 0, e);
        let ghost before = done;
        proof {
            done = done.push(piece@);
            assert(done.drop_last() == before);
        }
        read_part(piece, &mut light, &mut dark);
        if e >= rest.len() {
            assert(piece@ == rest@);
            assert(done == parts);
            break;
        }
        let next = part(rest, e + 1, rest.len());
        assert(next@ == rest@.skip(e + 1));
        assert(piece@ == rest@.take(e as int));
        assert(done + crate::text::split(next@, ',') == before + (seq![piece@]
            + crate::text::split(next@, ',')));
        rest = next;
    }
    ThemeRequest::Pair { light, dark }
}

/// The look that a config gives: the colours of the dark and of the light mode, and a note of where
/// they came from.
pub struct Look {
    pub dark: Option<Scheme>,
    pub light: Option<Scheme>,
    pub note: Option<String>,
}

/// The colours that may be missing.
pub open spec fn opt_colors(c: Option<Colors>) -> Option<ColorsView> {
    match c {
        Some(x) => Some(x@),
        None => None,
    }
}

/// The interface's colours for a theme, with the config's own colours in the place of the theme's.
pub open spec fn overridden(theme: Option<ColorsView>, inline: ColorsView) -> Option<Scheme> {
    match theme {
        Some(t) => scheme_of(merge(t, inline)),
        None => None,
    }
}

/// Colours with a dark background are for the dark mode; all others for the light one.
pub open spec fn for_dark(c: ColorsView) -> bool {
    c.background matches Some(bg) && dark(bg)
}

/// The look that follows from a request, the themes that could be loaded for it, and the config's
/// own colours.
pub open spec fn look_follows(
    r: Look,
    spec: Option<Seq<char>>,
    light: Option<ColorsView>,
    dark_theme: Option<ColorsView>,
    single: Option<ColorsView>,
    inline: ColorsView,
) -> bool {
    match spec {
        Some(s) => if find(s, ":"@) is Some {
            &&& r.light == overridden(light, inline)
            &&& r.dark == overridden(dark_theme, inline)
            &&& opt_view(r.note) == Some("theme "@ + s)
        } else {
            match single {
                Some(t) => {
                    &&& r.dark == if for_dark(t) {
                        overridden(single, inline)
                    } else {
                        None
                    }
                    &&& r.light == if for_dark(t) {
                        None
                    } else {
                        overridden(single, inline)
                    }
                    &&& opt_view(r.note) == Some("theme "@ + s)
                },
                None => r.dark is None && r.light is None && r.note is None,
            }
        },
        None => if inline.background is Some {
            &&& r.dark == if for_dark(inline) {
                scheme_of(merge(inline, inline))
            } else {
                None
            }
            &&& r.light == if for_dark(inline) {
                None
            } else {
                scheme_of(merge(inline, inline))
            }
            &&& opt_view(r.note) == Some("config colours"@)
        } else {
            r.dark is None && r.light is None && r.note is None
        },
    }
}

fn scheme_over(theme: &Option<Colors>, inline: &Colors) -> (r: Option<Scheme>)
    requires
        inline.wf(),
        theme matches Some(t) ==> t.wf(),
    ensures
        r == overridden(opt_colors(*theme), inline@),
{
    match theme {
        Some(t) => visuals(&t.merged(inline)),
        None => None,
    }
}

fn wants_dark(c: &Colors) -> (r: bool)
    ensures
        r == for_dark(c@),
{
    match c.background {
        Some(bg) => is_dark(bg),
        None => false,
    }
}

/// The look that follows from the value of `theme`, the themes that could be loaded for it (by
/// [`theme_request`]), and the config's own colours, which override the theme's.
pub fn resolve(
    spec: Option<&String>,
    light: &Option<Colors>,
    dark_theme: &Option<Colors>,
    single: &Option<Colors>,
    inline: &Colors,
) -> (r: Look)
    requires
        inline.wf(),
        light matches Some(t) ==> t.wf(),
        dark_theme matches Some(t) ==> t.wf(),
        single matches Some(t) ==> t.wf(),
    ensures
        look_follows(
            r,
            match spec {
                Some(s) => Some(s@),
                None => None,
            },
            opt_colors(*light),
            opt_colors(*dark_theme),
            opt_colors(*single),
            inline@,
        ),
{
    match spec {
        Some(s) => {
            let text = chars_of(s.as_str());
            if has_text(&text, ":") {
                Look {
                    dark: scheme_over(dark_theme, inline),
                    light: scheme_over(light, inline),
                    note: Some(joined("theme ", s.as_str())),
                }
            } else {
                match single {
                    Some(t) => {
                        let scheme = scheme_over(single, inline);
                        let note = Some(joined("theme ", s.as_str()));
                        if wants_dark(t) {
                            Look { dark: scheme, light: None, note }
                        } else {
                            Look { dark: None, light: scheme, note }
                        }
                    },
                    None => Look { dark: None, light: None, note: None },
                }
            }
        },
        None => {
            if inline.background.is_some() {
                let scheme = visuals(&inline.merged(inline));
                let note = Some("config colours".to_owned());
                if wants_dark(inline) {
                    Look { dark: scheme, light: None, note }
                } else {
                    Look { dark: None, light: scheme, note }
                }
            } else {
                Look { dark: None, light: None, note: None }
            }
        },
    }
}

/// What was taken over from the terminal.
pub struct GhosttyLook {
    pub summary: String,
}

/// The message on what was taken over; none where nothing was.
pub open spec fn summary_of(note: Option<Seq<char>>, font: Option<Seq<char>>) -> Option<Seq<char>> {
    match (note, font) {
        (Some(n), Some(f)) => Some("Ghostty look: "@ + n + ", "@ + "font "@ + f),
        (Some(n), None) => Some("Ghostty look: "@ + n),
        (None, Some(f)) => Some("Ghostty look: "@ + "font "@ + f),
        (None, None) => None,
    }
}

/// The message on what was taken over: where the colours came from, and the font family that was
/// found.
pub fn ghostty_look(note: Option<String>, font: Option<String>) -> (r: Option<GhosttyLook>)
    ensures
        match r {
            Some(look) => summary_of(opt_view(note), opt_view(font)) == Some(look.summary@),
            None => summary_of(opt_view(note), opt_view(font)) is None,
        },
{
    let mut summary = "Ghostty look: ".to_owned();
    match (note, font) {
        (Some(n), Some(f)) => {
            summary.append(n.as_str());
            summary.append(", ");
            summary.append("font ");
            summary.append(f.as_str());
            Some(GhosttyLook { summary })
        },
        (Some(n), None) => {
            summary.append(n.as_str());
            Some(GhosttyLook { summary })
        },
        (None, Some(f)) => {
            summary.append("font ");
            summary.append(f.as_str());
            Some(GhosttyLook { summary })
        },
        (None, None) => None,
    }
}

// ---------------------------------------------------------------------------------------------
// Fonts
// ---------------------------------------------------------------------------------------------

/// The ASCII letters and digits of a name, in lower case.
pub open spec fn normal(s: Seq<char>) -> Seq<char>
    decreases s.len(),
{
    if s.len() == 0 {
        seq![]
    } else if is_alnum(s.last()) {
        normal(s.drop_last()).push(ascii_lower_char(s.last()))
    } else {
        normal(s.drop_last())
    }
}

/// The ASCII letters and digits of a name, in lower case.
pub fn normalise(s: &str) -> (r: Vec<char>)
    ensures
        r@ == normal(s@),
{
    let chars = chars_of(s);
    let mut out: Vec<char> = Vec::new();
    let mut i: usize = 0;
    assert(chars@.take(0) == Seq::<char>::empty());
    while i < chars.len()
        invariant
            i <= chars@.len(),
            out@ == normal(chars@.take(i as int)),
        decreases chars.len() - i,
    {
        assert(chars@.take(i + 1).drop_last() == chars@.take(i as int));
        if is_alnum(chars[i]) {
            out.push(lower_char(chars[i]));
        }
        i = i + 1;
    }
    assert(chars@.take(i as int) == chars@);
    out
}

/// Words in a font's file name that tell a style other than the regular one.
pub const STYLES: [&'static str; 14] = [
    "bold",
    "italic",
    "oblique",
    "condensed",
    "light",
    "thin",
    "black",
    "medium",
    "semi",
    "extra",
    "heavy",
    "retina",
    "book",
    "nerd",
];

/// A text that holds one of [`STYLES`].
pub open spec fn is_styled(s: Seq<char>) -> bool {
    exists|i: int| 0 <= i < STYLES@.len() && find(s, (#[trigger] STYLES@[i])@) is Some
}

/// How well a font file suits a family, from the file's stem: whether more than `regular` follows
/// the family's name, and how long the name is. `None` where the name is another one or tells
/// another style.
pub open spec fn font_key(want: Seq<char>, stem: Seq<char>) -> Option<(nat, nat)> {
    let name = normal(stem);
    if !begins(name, want) {
        None
    } else {
        let rest = name.skip(want.len() as int);
        if rest == "regular"@ || rest.len() == 0 {
            Some((0nat, name.len()))
        } else if !is_styled(rest) {
            Some((1nat, name.len()))
        } else {
            None
        }
    }
}

/// The first of two keys is smaller.
pub open spec fn key_less(a: (nat, nat), b: (nat, nat)) -> bool {
    a.0 < b.0 || (a.0 == b.0 && a.1 < b.1)
}

/// `best` is the first of the files that suit the family best; `None` where none suits it.
pub open spec fn is_best_font(
    best: Option<usize>,
    want: Seq<char>,
    stems: Seq<Seq<char>>,
    n: int,
) -> bool {
    match best {
        Some(b) => {
            &&& b < n
            &&& font_key(want, stems[b as int]) matches Some(k)
            &&& forall|j: int|
                0 <= j < n ==> match #[trigger] font_key(want, stems[j]) {
                    Some(other) => !key_less(other, k) && (j < b ==> key_less(k, other)),
                    None => true,
                }
        },
        None => forall|j: int| 0 <= j < n ==> #[trigger] font_key(want, stems[j]) is None,
    }
}

fn styled(s: &[char]) -> (r: bool)
    ensures
        r == is_styled(s@),
{
    let mut i: usize = 0;
    while i < STYLES.len()
        invariant
            i <= STYLES@.len(),
            forall|k: int| 0 <= k < i ==> find(s@, (#[trigger] STYLES@[k])@) is None,
        decreases STYLES.len() - i,
    {
        if has_text(s, STYLES[i]) {
            assert(find(s@, STYLES@[i as int]@) is Some);
            return true;
        }
        i = i + 1;
    }
    false
}

fn key_of_font(want: &[char], stem: &str) -> (r: Option<(usize, usize)>)
    ensures
        match r {
            Some((a, b)) => font_key(want@, stem@) == Some((a as nat, b as nat)),
            None => font_key(want@, stem@) is None,
        },
{
    let name = normalise(stem);
    if !crate::text::matches_at(&name, want, 0) {
        return None;
    }
    let rest = part(&name, want.len(), name.len());
    assert(rest@ == name@.skip(want@.len() as int));
    if is_text(rest, "regular") || rest.len() == 0 {
        Some((0, name.len()))
    } else if !styled(rest) {
        Some((1, name.len()))
    } else {
        None
    }
}

/// Finds the regular-weight file for a font family by its file name, e.g. "TX-02" for
/// TX-02-Regular.otf, among the files with these stems.
pub fn best_font(family: &str, stems: &[String]) -> (r: Option<usize>)
    ensures
        is_best_font(r, normal(family@), views(stems@), stems@.len() as int),
{
    let want = normalise(family);
    let ghost names = views(stems@);
    let mut best: Option<usize> = None;
    let mut key: (usize, usize) = (0, 0);
    let mut i: usize = 0;
    while i < stems.len()
        invariant
            i <= stems@.len(),
            names == views(stems@),
            want@ == normal(family@),
            is_best_font(best, want@, names, i as int),
            best matches Some(b) ==> font_key(want@, names[b as int]) == Some(
                (key.0 as nat, key.1 as nat),
            ),
        decreases stems.len() - i,
    {
        assert(names[i as int] == stems@[i as int]@);
        if let Some(k) = key_of_font(&want, stems[i].as_str()) {
            let better = best.is_none() || k.0 < key.0 || (k.0 == key.0 && k.1 < key.1);
            if better {
                best = Some(i);
                key = k;
            }
        }
        i = i + 1;
    }
    best
}

// ---------------------------------------------------------------------------------------------
// Where to look
// ---------------------------------------------------------------------------------------------

/// A folder that the places below are relative to.
#[derive(Clone, Copy, PartialEq, Eq, Debug, Structural)]
pub enum Base {
    /// The user's config folder, where the environment names one.
    Config,
    /// The user's home.
    Home,
    /// Ghostty's resources, where the environment names them.
    Resources,
    /// The file system's root.
    Root,
}

/// The files that a config is read from; the first that exists counts.
pub fn config_places() -> (r: [(Base, &'static str); 6])
    ensures
        r@ == seq![
            (Base::Config, "ghostty/config"),
            (Base::Config, "ghostty/config.ghostty"),
            (Base::Home, ".config/ghostty/config"),
            (Base::Home, ".config/ghostty/config.ghostty"),
            (Base::Home, "Library/Application Support/com.mitchellh.ghostty/config"),
            (Base::Home, "Library/Application Support/com.mitchellh.ghostty/config.ghostty"),
        ],
{
    [
        (Base::Config, "ghostty/config"),
        (Base::Config, "ghostty/config.ghostty"),
        (Base::Home, ".config/ghostty/config"),
        (Base::Home, ".config/ghostty/config.ghostty"),
        (Base::Home, "Library/Application Support/com.mitchellh.ghostty/config"),
        (Base::Home, "Library/Application Support/com.mitchellh.ghostty/config.ghostty"),
    ]
}

/// The folders that themes are looked for in, in order.
pub fn theme_places() -> (r: [(Base, &'static str); 6])
    ensures
        r@ == seq![
            (Base::Config, "ghostty/themes"),
            (Base::Home, ".config/ghostty/themes"),
            (Base::Resources, "themes"),
            (Base::Root, "Applications/Ghostty.app/Contents/Resources/ghostty/themes"),
            (Base::Root, "usr/share/ghostty/themes"),
            (Base::Root, "usr/local/share/ghostty/themes"),
        ],
{
    [
        (Base::Config, "ghostty/themes"),
        (Base::Home, ".config/ghostty/themes"),
        (Base::Resources, "themes"),
        (Base::Root, "Applications/Ghostty.app/Contents/Resources/ghostty/themes"),
        (Base::Root, "usr/share/ghostty/themes"),
        (Base::Root, "usr/local/share/ghostty/themes"),
    ]
}

/// The folders that fonts are looked for in, in order.
pub fn font_places() -> (r: [(Base, &'static str); 7])
    ensures
        r@ == seq![
            (Base::Home, "Library/Fonts"),
            (Base::Home, ".local/share/fonts"),
            (Base::Home, ".fonts"),
            (Base::Root, "Library/Fonts"),
            (Base::Root, "System/Library/Fonts"),
            (Base::Root, "usr/share/fonts"),
            (Base::Root, "usr/local/share/fonts"),
        ],
{
    [
        (Base::Home, "Library/Fonts"),
        (Base::Home, ".local/share/fonts"),
        (Base::Home, ".fonts"),
        (Base::Root, "Library/Fonts"),
        (Base::Root, "System/Library/Fonts"),
        (Base::Root, "usr/share/fonts"),
        (Base::Root, "usr/local/share/fonts"),
    ]
}

/// A mixed channel is the whole number nearest to the point that lies so many hundredths of the way.
pub proof fn law_mix_is_nearest(x: u8, y: u8, percent: int)
    requires
        0 <= percent <= 100,
    ensures
        -50 <= 100 * (mix_channel(x as int, y as int, percent) - x) - (y - x) * percent <= 50,
        x <= y ==> x <= mix_channel(x as int, y as int, percent) <= y,
        y <= x ==> y <= mix_channel(x as int, y as int, percent) <= x,
{
    let d = (y - x) * percent;
    assert(2 * (y - x) * percent == 2 * d) by (nonlinear_arith)
        requires
            d == (y - x) * percent,
    ;
    assert(x <= y ==> 0 <= d <= 100 * (y - x)) by (nonlinear_arith)
        requires
            d == (y - x) * percent,
            0 <= percent <= 100,
    ;
    assert(y <= x ==> 100 * (y - x) <= d <= 0) by (nonlinear_arith)
        requires
            d == (y - x) * percent,
            0 <= percent <= 100,
    ;
}

/// The brightness of a colour is made of red, green and blue in the usual parts, to a ten-thousandth; so black is dark
/// and white is not.
pub proof fn law_brightness_is_weighted(c: Color)
    ensures
        -0x1_0000_0000 <= 10000 * brightness(c) - (2126 * c.r + 7152 * c.g + 722 * c.b) * 0x1_0000_0000 <= 0x1_0000_0000,
        2126 * c.r + 7152 * c.g + 722 * c.b < 1279999 ==> dark(c),
        2126 * c.r + 7152 * c.g + 722 * c.b > 1280001 ==> !dark(c),
{
    crate::single::lemma_rounded_bound(WEIGHT_R as nat * c.r as nat);
    crate::single::lemma_rounded_bound(WEIGHT_G as nat * c.g as nat);
    crate::single::lemma_rounded_bound(WEIGHT_B as nat * c.b as nat);
    let x = rounded(WEIGHT_R as nat * c.r as nat) + rounded(WEIGHT_G as nat * c.g as nat);
    crate::single::lemma_rounded_bound(x);
    crate::single::lemma_rounded_bound(rounded(x) + rounded(WEIGHT_B as nat * c.b as nat));
}

/// The interface has the terminal's colours: its background behind the panels, its foreground for the text, the colours of
/// the selection where the terminal has them, and its red and yellow for errors and warnings. It is dark where
/// the background is.
pub proof fn law_scheme_is_the_terminals(c: ColorsView, bg: Color, fg: Color)
    requires
        c.background == Some(bg),
        c.foreground == Some(fg),
    ensures
        scheme_of(c) matches Some(s) && {
            &&& s.panel_fill == bg
            &&& s.widget_text == fg
            &&& s.dark == dark(bg)
            &&& c.selection_bg is Some ==> s.selection_bg == c.selection_bg
            &&& c.selection_fg matches Some(x) ==> s.selection_stroke == x
            &&& c.cursor is Some ==> s.accent == c.cursor
            &&& c.palette.dom().contains(1) ==> s.error_fg == Some(c.palette[1])
            &&& c.palette.dom().contains(3) ==> s.warn_fg == Some(c.palette[3])
            &&& c.palette.dom().contains(12) ==> s.hyperlink == Some(c.palette[12])
        },
{
}

} // verus!
