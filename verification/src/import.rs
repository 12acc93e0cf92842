//! Loading presets from Lightroom `.xmp` / `.lrtemplate` files and `.cube` LUTs.

use crate::names::{extension_of, stem, stem_of};
use crate::numeral::{decimal, is_number, is_numeral, parse_unsigned, push_decimal, unsigned};
use crate::order::{path_views, sort_paths, sorts_paths};
use crate::preset::{
    curve_view, entries_view, opt_view, Adjustments, Balance, Band, CurvePoint, Domain, Entry,
    EntryView, Lut3d, Parametric, Triple, Wheel, BANDS,
};
use crate::text::{
    begins, begins_with, chars_of, contains_text, find, find_text, index_of, is_digit, is_letter,
    is_name_char, is_space, is_text, join, join_texts, joined, next_char, part, replace, replaced,
    string_of, strip, strip_start, stripped, stripped_start, text_eq, trim, trim_start, trimmed,
    trimmed_start, views,
};
use crate::unicode::{from_utf8_lossy, lossy_text, lowercase, lowercase_of};
use vstd::prelude::*;

verus! {

/// The extensions of the files that presets are read from.
pub const PRESET_EXTENSIONS: [&'static str; 3] = ["xmp", "lrtemplate", "cube"];

/// A file name with one of [`PRESET_EXTENSIONS`], in any case.
pub open spec fn is_preset_name(name: Seq<char>) -> bool {
    match extension_of(name) {
        Some(e) => e == "xmp"@ || e == "lrtemplate"@ || e == "cube"@,
        None => false,
    }
}

/// Whether a file of this name is a preset.
pub fn is_preset_file(name: &str) -> (r: bool)
    ensures
        r == is_preset_name(name@),
{
    match extension(name) {
        Some(e) => contains_text(&PRESET_EXTENSIONS, e.as_str()),
        None => false,
    }
}

/// The extension of a file name in lower case, where the name has one.
pub fn extension(name: &str) -> (r: Option<String>)
    ensures
        opt_view(r) == extension_of(name@),
{
    crate::names::extension(name)
}

/// The folders between `root` and `file`, both given as the parts of a path.
pub open spec fn folders_between(root: Seq<Seq<char>>, file: Seq<Seq<char>>) -> Seq<Seq<char>> {
    if file.len() > 0 && root.len() <= file.len() - 1 && root == file.take(root.len() as int) {
        file.subrange(root.len() as int, file.len() - 1)
    } else {
        seq![]
    }
}

/// The group of a preset: the folders between the presets root and the file.
pub open spec fn group_of(root: Seq<Seq<char>>, file: Seq<Seq<char>>) -> Seq<char> {
    let parts = folders_between(root, file);
    if parts.len() == 0 {
        "Imported"@
    } else {
        join(parts, " / "@)
    }
}

/// One group per folder: presets in the same folder are in the same group.
pub proof fn law_one_group_per_folder(root: Seq<Seq<char>>, a: Seq<Seq<char>>, b: Seq<Seq<char>>)
    requires
        a.len() > 0,
        b.len() > 0,
        a.drop_last() == b.drop_last(),
    ensures
        group_of(root, a) == group_of(root, b),
{
    let p = a.drop_last();
    assert(p.len() == a.len() - 1 && p.len() == b.len() - 1);
    let n = root.len() as int;
    if n <= p.len() {
        assert(a.take(n) =~= p.take(n));
        assert(b.take(n) =~= p.take(n));
        assert(a.subrange(n, a.len() - 1) =~= p.skip(n));
        assert(b.subrange(n, b.len() - 1) =~= p.skip(n));
    }
}

/// Group name from the folders between the presets root and the file, e.g. "Film LUTs / bw".
/// Both are given as the parts of their paths.
pub fn group_for(root: &[String], file: &[String]) -> (r: String)
    ensures
        r@ == group_of(views(root@), views(file@)),
{
    let ghost rv = views(root@);
    let ghost fv = views(file@);
    if file.len() == 0 || root.len() > file.len() - 1 {
        return "Imported".to_owned();
    }
    let mut i: usize = 0;
    while i < root.len()
        invariant
            i <= root@.len(),
            root@.len() < file@.len(),
            forall|k: int| 0 <= k < i ==> root@[k]@ == file@[k]@,
            rv == views(root@),
            fv == views(file@),
        decreases root.len() - i,
    {
        if !text_eq(root[i].as_str(), file[i].as_str()) {
            assert(rv[i as int] != fv.take(rv.len() as int)[i as int]);
            return "Imported".to_owned();
        }
        i = i + 1;
    }
    assert(rv =~= fv.take(rv.len() as int)) by {
        assert forall|k: int| 0 <= k < rv.len() implies rv[k] == fv[k] by {
            assert(root@[k]@ == file@[k]@);
        }
    }
    if root.len() == file.len() - 1 {
        return "Imported".to_owned();
    }
    let parts = vstd::slice::slice_subrange(file, root.len(), file.len() - 1);
    assert(views(parts@) =~= fv.subrange(rv.len() as int, fv.len() - 1));
    join_texts(parts, " / ")
}

// ---------------------------------------------------------------------------------------------
// Settings
// ---------------------------------------------------------------------------------------------

/// The value of a setting; numbers are kept as their numerals.
pub enum Setting {
    Num(String),
    Text(String),
    List(Vec<String>),
}

/// What a [`Setting`] holds.
pub enum SettingView {
    Num(Seq<char>),
    Text(Seq<char>),
    List(Seq<Seq<char>>),
}

impl View for Setting {
    type V = SettingView;

    open spec fn view(&self) -> SettingView {
        match self {
            Setting::Num(s) => SettingView::Num(s@),
            Setting::Text(s) => SettingView::Text(s@),
            Setting::List(v) => SettingView::List(views(v@)),
        }
    }
}

/// The settings of a preset by name. Setting a name again replaces its value.
pub struct Settings {
    log: Vec<(String, Setting)>,
}

/// What a list of settings amounts to, the later ones winning.
pub open spec fn settings_of(log: Seq<(String, Setting)>) -> Map<Seq<char>, SettingView>
    decreases log.len(),
{
    if log.len() == 0 {
        Map::empty()
    } else {
        settings_of(log.drop_last()).insert(log.last().0@, log.last().1@)
    }
}

impl View for Settings {
    type V = Map<Seq<char>, SettingView>;

    closed spec fn view(&self) -> Map<Seq<char>, SettingView> {
        settings_of(self.log@)
    }
}

impl Settings {
    /// No setting.
    pub fn new() -> (r: Settings)
        ensures
            r@ == Map::<Seq<char>, SettingView>::empty(),
    {
        Settings { log: Vec::new() }
    }

    /// Sets `key` to `value`.
    pub fn insert(&mut self, key: String, value: Setting)
        ensures
            final(self)@ == old(self)@.insert(key@, value@),
    {
        let ghost before = self.log@;
        self.log.push((key, value));
        assert(self.log@.drop_last() == before);
    }

    /// Whether nothing is set.
    pub fn is_empty(&self) -> (r: bool)
        ensures
            r == (self@.dom() == Set::<Seq<char>>::empty()),
    {
        proof {
            if self.log@.len() > 0 {
                assert(self@.dom().contains(self.log@.last().0@));
            } else {
                assert(self@.dom() =~= Set::<Seq<char>>::empty());
            }
        }
        self.log.len() == 0
    }

    /// The value of `key`, where it is set.
    pub fn get(&self, key: &str) -> (r: Option<&Setting>)
        ensures
            match r {
                Some(v) => self@.dom().contains(key@) && self@[key@] == v@,
                None => !self@.dom().contains(key@),
            },
    {
        let mut n: usize = self.log.len();
        assert(self.log@.take(n as int) == self.log@);
        while n > 0
            invariant
                n <= self.log@.len(),
                self@.dom().contains(key@) == settings_of(
                    self.log@.take(n as int),
                ).dom().contains(key@),
                self@.dom().contains(key@) ==> self@[key@] == settings_of(
                    self.log@.take(n as int),
                )[key@],
            decreases n,
        {
            assert(self.log@.take(n as int).drop_last() == self.log@.take(n - 1));
            assert(self.log@.take(n as int).last() == self.log@[n - 1]);
            if text_eq(self.log[n - 1].0.as_str(), key) {
                return Some(&self.log[n - 1].1);
            }
            n = n - 1;
        }
        None
    }
}

// ---------------------------------------------------------------------------------------------
// Values
// ---------------------------------------------------------------------------------------------

/// The value that a text stands for: a number where the text, without the white space round it
/// and the plus signs before it, is a numeral.
pub open spec fn value_of(s: Seq<char>) -> SettingView {
    let t = trim(s);
    let n = strip_start(t, '+');
    if is_number(n) {
        SettingView::Num(n)
    } else {
        SettingView::Text(t)
    }
}

/// The value that a text stands for.
pub fn value_from_str(s: &[char]) -> (r: Setting)
    ensures
        r@ == value_of(s@),
{
    let t = trimmed(s);
    let n = stripped_start(t, '+');
    if is_numeral(n) {
        Setting::Num(string_of(n))
    } else {
        Setting::Text(string_of(t))
    }
}

/// The first place at or after `i` that holds a comma or white space; the length of `s` where
/// none does.
pub open spec fn next_break(s: Seq<char>, i: int) -> int
    decreases s.len() - i,
{
    if i < 0 || i >= s.len() {
        s.len() as int
    } else if s[i] == ',' || is_space(s[i]) {
        i
    } else {
        next_break(s, i + 1)
    }
}

/// The numerals in a text, between commas and white space, without their plus signs. What is no
/// numeral is passed over.
pub open spec fn numbers_of(s: Seq<char>) -> Seq<Seq<char>>
    decreases s.len(),
{
    let e = next_break(s, 0);
    let t = strip_start(s.take(e), '+');
    let head = if is_number(t) {
        seq![t]
    } else {
        seq![]
    };
    if 0 <= e < s.len() {
        head + numbers_of(s.skip(e + 1))
    } else {
        head
    }
}

/// The numerals in several texts.
pub open spec fn numbers_of_all(items: Seq<Seq<char>>) -> Seq<Seq<char>>
    decreases items.len(),
{
    if items.len() == 0 {
        seq![]
    } else {
        numbers_of_all(items.drop_last()) + numbers_of(items.last())
    }
}

fn find_break(s: &[char]) -> (r: usize)
    ensures
        r == next_break(s@, 0),
        r <= s@.len(),
{
    let mut k: usize = 0;
    while k < s.len() && !(s[k] == ',' || is_space(s[k]))
        invariant
            k <= s@.len(),
            next_break(s@, 0) == next_break(s@, k as int),
        decreases s.len() - k,
    {
        k = k + 1;
    }
    k
}

/// Appends the numerals in a text to `out`.
fn push_numbers(out: &mut Vec<String>, s: &[char])
    ensures
        views(final(out)@) == views(old(out)@) + numbers_of(s@),
{
    let ghost before = views(out@);
    let ghost whole = numbers_of(s@);
    let mut rest = s;
    loop
        invariant_except_break
            views(out@) + numbers_of(rest@) == before + whole,
        ensures
            views(out@) == before + whole,
        decreases rest@.len(),
    {
        let e: usize = find_break(rest);
        let t = stripped_start(part(rest, 0, e), '+');
        assert(rest@.subrange(0, e as int) == rest@.take(e as int));
        let ghost had = views(out@);
        let numeral = is_numeral(t);
        if numeral {
            out.push(string_of(t));
            assert(views(out@) == had + seq![t@]);
        } else {
            assert(views(out@) == had + Seq::<Seq<char>>::empty());
        }
        if e >= rest.len() {
            break;
        }
        let ghost tail = rest@.skip(e + 1);
        let next = part(rest, e + 1, rest.len());
        assert(next@ == tail);
        assert(views(out@) + numbers_of(next@) == had + numbers_of(rest@));
        rest = next;
    }
}

/// The numerals in a text, between commas and white space.
pub fn numbers(s: &[char]) -> (r: Vec<String>)
    ensures
        views(r@) == numbers_of(s@),
{
    let mut out: Vec<String> = Vec::new();
    push_numbers(&mut out, s);
    assert(views(out@) == numbers_of(s@));
    out
}

/// `s` with the five entities of XML as the characters that they stand for; `&amp;` comes last,
/// so that what it gives is not taken for an entity again.
pub open spec fn unescaped(s: Seq<char>) -> Seq<char> {
    let s = replace(s, "&lt;"@, "<"@);
    let s = replace(s, "&gt;"@, ">"@);
    let s = replace(s, "&quot;"@, "\""@);
    let s = replace(s, "&apos;"@, "'"@);
    replace(s, "&amp;"@, "&"@)
}

/// `s` with the entities of XML as the characters that they stand for.
pub fn unescape(s: &[char]) -> (r: Vec<char>)
    ensures
        r@ == unescaped(s@),
{
    let a = replaced(s, "&lt;", "<");
    let b = replaced(&a, "&gt;", ">");
    let c = replaced(&b, "&quot;", "\"");
    let d = replaced(&c, "&apos;", "'");
    replaced(&d, "&amp;", "&")
}

/// The characters that XML writes as entities, in the order in which [`unescaped`] gives them back.
pub open spec fn special() -> Seq<char> {
    seq!['<', '>', '"', '\'', '&']
}

/// The entity of a character that XML writes as one.
pub open spec fn entity(c: char) -> Seq<char> {
    if c == '<' {
        seq!['&', 'l', 't', ';']
    } else if c == '>' {
        seq!['&', 'g', 't', ';']
    } else if c == '"' {
        seq!['&', 'q', 'u', 'o', 't', ';']
    } else if c == '\'' {
        seq!['&', 'a', 'p', 'o', 's', ';']
    } else {
        seq!['&', 'a', 'm', 'p', ';']
    }
}

/// A character as XML writes it, where the first `n` of the special ones are written as they are.
pub open spec fn escaped_char(c: char, n: int) -> Seq<char> {
    if special().skip(n).contains(c) {
        entity(c)
    } else {
        seq![c]
    }
}

/// A text as XML writes it, where the first `n` of the special characters are written as they are.
pub open spec fn escaped_from(s: Seq<char>, n: int) -> Seq<char>
    decreases s.len(),
{
    if s.len() == 0 {
        seq![]
    } else {
        escaped_char(s[0], n) + escaped_from(s.skip(1), n)
    }
}

/// A text as XML writes it: the characters `&`, `<`, `>`, `"` and `'` as their entities.
pub open spec fn escaped(s: Seq<char>) -> Seq<char> {
    escaped_from(s, 0)
}

/// An entity does not begin inside of `head`: the characters of `head` stay as they are.
proof fn lemma_replace_behind(head: Seq<char>, tail: Seq<char>, p: Seq<char>, w: Seq<char>)
    requires
        p.len() > 0,
        p[0] == '&',
        !head.contains('&'),
    ensures
        replace(head + tail, p, w) == head + replace(tail, p, w),
    decreases head.len(),
{
    let s = head + tail;
    if head.len() == 0 {
        assert(s =~= tail);
        assert(head + replace(tail, p, w) =~= replace(tail, p, w));
    } else {
        assert(s[0] == head[0]);
        assert(head.contains(head[0]));
        if begins(s, p) {
            assert(s.subrange(0, p.len() as int)[0] == s[0]);
        }
        let rest = head.skip(1);
        assert forall|i: int| 0 <= i < rest.len() implies rest[i] != '&' by {
            assert(rest[i] == head[i + 1]);
            assert(head.contains(head[i + 1]));
        }
        assert(s.skip(1) =~= rest + tail);
        lemma_replace_behind(rest, tail, p, w);
        assert(seq![head[0]] + (rest + replace(tail, p, w)) =~= head + replace(tail, p, w));
    }
}

/// Where the entity of special character `n` is replaced, exactly that character is given back.
proof fn lemma_one_entity(s: Seq<char>, n: int)
    requires
        0 <= n < 5,
    ensures
        replace(escaped_from(s, n), entity(special()[n]), seq![special()[n]]) == escaped_from(s, n + 1),
    decreases s.len(),
{
    let c = special()[n];
    let p = entity(c);
    let w = seq![c];
    if s.len() > 0 {
        let x = s[0];
        let rest = escaped_from(s.skip(1), n);
        let all = escaped_char(x, n) + rest;
        lemma_one_entity(s.skip(1), n);
        let here = special().skip(n);
        let later = special().skip(n + 1);
        assert(here[0] == c);
        assert(later =~= here.skip(1));
        if x == c {
            assert(here.contains(x));
            assert forall|i: int| 0 <= i < later.len() implies later[i] != x by {
                assert(later[i] == special()[n + 1 + i]);
            }
            assert(all.subrange(0, p.len() as int) =~= p);
            assert(all.skip(p.len() as int) =~= rest);
            assert(replace(all, p, w) == w + replace(rest, p, w));
        } else if here.contains(x) {
            let i = here.index_of(x);
            assert(later[i - 1] == x);
            assert(later.contains(x));
            let e = entity(x);
            assert(all[0] == '&' && all[1] == e[1] && all[2] == e[2] && all[3] == e[3]);
            if begins(all, p) {
                let start = all.subrange(0, p.len() as int);
                assert(start[1] == all[1] && start[2] == all[2]);
            }
            let inner = e.skip(1);
            assert(all.skip(1) =~= inner + rest);
            lemma_replace_behind(inner, rest, p, w);
            assert(seq![all[0]] + (inner + replace(rest, p, w)) =~= e + replace(rest, p, w));
        } else {
            assert(!later.contains(x)) by {
                if later.contains(x) {
                    let i = later.index_of(x);
                    assert(here[i + 1] == x);
                }
            }
            assert(special()[4] == '&');
            assert(here[4 - n] == '&');
            assert(!w.contains('&') || n == 4);
            lemma_replace_behind(seq![x], rest, p, w);
        }
    }
}

/// A text in which nothing is written as an entity is the text itself.
proof fn lemma_nothing_escaped(s: Seq<char>)
    ensures
        escaped_from(s, 5) == s,
    decreases s.len(),
{
    if s.len() > 0 {
        lemma_nothing_escaped(s.skip(1));
        assert(special().skip(5) =~= seq![]);
        assert(seq![s[0]] + s.skip(1) =~= s);
    } else {
        assert(escaped_from(s, 5) =~= s);
    }
}

/// What the literals of [`unescaped`] hold.
proof fn lemma_entities()
    ensures
        "&lt;"@ == entity(special()[0]) && "<"@ == seq![special()[0]],
        "&gt;"@ == entity(special()[1]) && ">"@ == seq![special()[1]],
        "&quot;"@ == entity(special()[2]) && "\""@ == seq![special()[2]],
        "&apos;"@ == entity(special()[3]) && "'"@ == seq![special()[3]],
        "&amp;"@ == entity(special()[4]) && "&"@ == seq![special()[4]],
{
    reveal_strlit("&lt;");
    reveal_strlit("&gt;");
    reveal_strlit("&quot;");
    reveal_strlit("&apos;");
    reveal_strlit("&amp;");
    reveal_strlit("<");
    reveal_strlit(">");
    reveal_strlit("\"");
    reveal_strlit("'");
    reveal_strlit("&");
}

/// Unescaping undoes exactly one level of escaping: what XML writes for a text is read as that text,
/// whatever the text holds, entities among it.
pub proof fn law_unescaping_undoes_escaping(s: Seq<char>)
    ensures
        unescaped(escaped(s)) == s,
{
    lemma_entities();
    lemma_one_entity(s, 0);
    lemma_one_entity(s, 1);
    lemma_one_entity(s, 2);
    lemma_one_entity(s, 3);
    lemma_one_entity(s, 4);
    lemma_nothing_escaped(s);
}

/// A text without `&` is left as it is.
pub proof fn law_plain_text_is_left(s: Seq<char>)
    requires
        !s.contains('&'),
    ensures
        unescaped(s) == s,
{
    lemma_entities();
    assert(s + seq![] =~= s);
    assert forall|n: int| 0 <= n < 5 implies replace(
        s,
        entity(#[trigger] special()[n]),
        seq![special()[n]],
    ) == s by {
        lemma_replace_behind(s, seq![], entity(special()[n]), seq![special()[n]]);
    }
    assert(special()[0] == '<');
    assert(special()[1] == '>');
    assert(special()[2] == '"');
    assert(special()[3] == '\'');
    assert(special()[4] == '&');
}

// ---------------------------------------------------------------------------------------------
// XMP
// ---------------------------------------------------------------------------------------------

/// The text of the first list item in `s` and what follows it.
pub open spec fn li_first(s: Seq<char>) -> Option<(Seq<char>, Seq<char>)> {
    match find(s, "<rdf:li"@) {
        Some(i) => {
            let after = s.skip(i);
            let gt = next_char(after, '>', 0);
            let body = after.skip(gt + 1);
            if gt < after.len() {
                match find(body, "</rdf:li>"@) {
                    Some(end) => Some((body.take(end), body.skip(end))),
                    None => None,
                }
            } else {
                None
            }
        },
        None => None,
    }
}

/// What follows a list item is shorter than the text that the item was found in.
pub proof fn lemma_li_first(s: Seq<char>)
    ensures
        match li_first(s) {
            Some((_, rest)) => rest.len() < s.len(),
            None => true,
        },
{
    crate::text::lemma_find_from(s, "<rdf:li"@, 0);
    if let Some(i) = find(s, "<rdf:li"@) {
        let after = s.skip(i);
        crate::text::lemma_next_char(after, '>', 0);
        let body = after.skip(next_char(after, '>', 0) + 1);
        crate::text::lemma_find_from(body, "</rdf:li>"@, 0);
    }
}

/// The texts of the list items in `s`, unescaped and without the white space round them.
pub open spec fn li_items_of(s: Seq<char>) -> Seq<Seq<char>>
    decreases s.len(),
{
    proof {
        lemma_li_first(s);
    }
    match li_first(s) {
        Some((item, rest)) => seq![unescaped(trim(item))] + li_items_of(rest),
        None => seq![],
    }
}

/// The texts of the list items in `s`.
pub fn li_items(inner: &[char]) -> (r: Vec<String>)
    ensures
        views(r@) == li_items_of(inner@),
{
    let mut out: Vec<String> = Vec::new();
    let mut rest = inner;
    let ghost whole = li_items_of(inner@);
    assert(views(out@) + whole == whole);
    loop
        invariant_except_break
            views(out@) + li_items_of(rest@) == whole,
        ensures
            views(out@) == whole,
        decreases rest@.len(),
    {
        assert(views(out@) + Seq::<Seq<char>>::empty() == views(out@));
        proof {
            lemma_li_first(rest@);
        }
        let i: usize = match find_text(rest, "<rdf:li") {
            Some(i) => i,
            None => {
                break;
            },
        };
        let after = part(rest, i, rest.len());
        assert(after@ == rest@.skip(i as int));
        let gt: usize = index_of(after, '>', 0);
        if gt >= after.len() {
            break;
        }
        let body = part(after, gt + 1, after.len());
        assert(body@ == after@.skip(gt + 1));
        let end: usize = match find_text(body, "</rdf:li>") {
            Some(end) => end,
            None => {
                break;
            },
        };
        let item = trimmed(part(body, 0, end));
        assert(body@.subrange(0, end as int) == body@.take(end as int));
        let text = unescape(item);
        let ghost had = views(out@);
        out.push(string_of(&text));
        let next = part(body, end, body.len());
        assert(next@ == body@.skip(end as int));
        assert(views(out@) == had.push(text@));
        assert(views(out@) + li_items_of(next@) == had + (seq![text@] + li_items_of(next@)));
        rest = next;
    }
    out
}

/// The name and the settings of a preset.
pub type Found = (Option<Seq<char>>, Map<Seq<char>, SettingView>);

/// The end of the name that begins at `i`.
pub open spec fn name_end(s: Seq<char>, i: int) -> int
    decreases s.len() - i,
{
    if 0 <= i < s.len() && is_name_char(s[i]) {
        name_end(s, i + 1)
    } else {
        i
    }
}

/// A name ends within the text.
pub proof fn lemma_name_end(s: Seq<char>, i: int)
    requires
        0 <= i <= s.len(),
    ensures
        i <= name_end(s, i) <= s.len(),
        i < s.len() && is_name_char(s[i]) ==> i < name_end(s, i),
    decreases s.len() - i,
{
    if i < s.len() && is_name_char(s[i]) {
        lemma_name_end(s, i + 1);
    }
}

/// What stands between the quotes of `="..."`, where the closing one is there.
pub open spec fn quoted_value(tail: Seq<char>) -> Option<Seq<char>> {
    let val = tail.skip("=\""@.len() as int);
    let q = next_char(val, '"', 0);
    if q < val.len() {
        Some(val.take(q))
    } else {
        None
    }
}

/// What stands inside the element `key` whose start tag `tail` continues, and the text from its
/// end tag on.
pub open spec fn element_body(tail: Seq<char>, key: Seq<char>) -> Option<(Seq<char>, Seq<char>)> {
    let start = next_char(tail, '>', 0);
    match find(tail, "</crs:"@ + key + ">"@) {
        Some(end) => if start < end {
            Some((tail.subrange(start + 1, end), tail.skip(end)))
        } else {
            None
        },
        None => None,
    }
}

/// The preset with what an element gives it: its name, a value, or a list of numbers.
pub open spec fn with_element(acc: Found, key: Seq<char>, inner: Seq<char>) -> Found {
    let items = li_items_of(inner);
    if key == "Name"@ {
        (
            if items.len() > 0 && items[0].len() > 0 {
                Some(items[0])
            } else {
                None
            },
            acc.1,
        )
    } else if items.len() == 0 {
        (acc.0, acc.1.insert(key, value_of(unescaped(inner))))
    } else {
        (acc.0, acc.1.insert(key, SettingView::List(numbers_of_all(items))))
    }
}

/// The preset with what the first `crs:` name in `rest` gives it, and the text to go on from:
/// an attribute `crs:Key="value"`, or an element `<crs:Key>...</crs:Key>`.
pub open spec fn xmp_next(rest: Seq<char>, acc: Found) -> Option<(Seq<char>, Found)> {
    match find(rest, "crs:"@) {
        Some(i) => {
            let after = rest.skip(i + "crs:"@.len());
            let key = after.take(name_end(after, 0));
            let tail = after.skip(name_end(after, 0));
            if begins(tail, "=\""@) {
                match quoted_value(tail) {
                    Some(v) => Some((after, (acc.0, acc.1.insert(key, value_of(unescaped(v)))))),
                    None => Some((after, acc)),
                }
            } else if i > 0 && rest[i - 1] == '<' && key.len() > 0 {
                match element_body(tail, key) {
                    Some((inner, next)) => Some((next, with_element(acc, key, inner))),
                    None => Some((after, acc)),
                }
            } else {
                Some((after, acc))
            }
        },
        None => None,
    }
}

/// The text to go on from is shorter.
pub proof fn lemma_xmp_next(rest: Seq<char>, acc: Found)
    ensures
        match xmp_next(rest, acc) {
            Some((next, _)) => next.len() < rest.len(),
            None => true,
        },
{
    reveal_strlit("crs:");
    crate::text::lemma_find_from(rest, "crs:"@, 0);
    if let Some(i) = find(rest, "crs:"@) {
        let after = rest.skip(i + "crs:"@.len());
        lemma_name_end(after, 0);
        let key = after.take(name_end(after, 0));
        let tail = after.skip(name_end(after, 0));
        crate::text::lemma_find_from(tail, "</crs:"@ + key + ">"@, 0);
    }
}

/// The preset with everything that `rest` gives it, in order.
pub open spec fn xmp_from(rest: Seq<char>, acc: Found) -> Found
    decreases rest.len(),
{
    proof {
        lemma_xmp_next(rest, acc);
    }
    match xmp_next(rest, acc) {
        Some((next, more)) => xmp_from(next, more),
        None => acc,
    }
}

/// The name and the settings in an XMP preset.
pub open spec fn xmp_of(xml: Seq<char>) -> Found {
    xmp_from(xml, (None, Map::empty()))
}

fn end_of_name(s: &[char], i: usize) -> (r: usize)
    requires
        i <= s@.len(),
    ensures
        r == name_end(s@, i as int),
        i <= r <= s@.len(),
{
    let mut k: usize = i;
    while k < s.len() && is_name_char(s[k])
        invariant
            i <= k <= s@.len(),
            name_end(s@, i as int) == name_end(s@, k as int),
        decreases s.len() - k,
    {
        k = k + 1;
    }
    k
}

fn value_in_quotes<'a>(tail: &'a [char]) -> (r: Option<&'a [char]>)
    requires
        begins(tail@, "=\""@),
    ensures
        match r {
            Some(v) => quoted_value(tail@) == Some(v@),
            None => quoted_value(tail@) is None,
        },
{
    proof {
        reveal_strlit("=\"");
    }
    let val = part(tail, 2, tail.len());
    assert(val@ == tail@.skip("=\""@.len() as int));
    let q: usize = index_of(val, '"', 0);
    if q < val.len() {
        let v = part(val, 0, q);
        assert(v@ == val@.take(q as int));
        Some(v)
    } else {
        None
    }
}

fn body_of_element<'a>(tail: &'a [char], key: &[char]) -> (r: Option<(&'a [char], &'a [char])>)
    ensures
        match r {
            Some((inner, next)) => element_body(tail@, key@) == Some((inner@, next@)),
            None => element_body(tail@, key@) is None,
        },
{
    let mut close = "</crs:".to_owned();
    crate::text::push_chars(&mut close, key);
    close.append(">");
    let start: usize = index_of(tail, '>', 0);
    match find_text(tail, close.as_str()) {
        Some(end) => {
            if start < end {
                let inner = part(tail, start + 1, end);
                let next = part(tail, end, tail.len());
                assert(next@ == tail@.skip(end as int));
                Some((inner, next))
            } else {
                None
            }
        },
        None => None,
    }
}

fn take_element(name: &mut Option<String>, settings: &mut Settings, key: &[char], inner: &[char])
    ensures
        (opt_view(*final(name)), final(settings)@) == with_element(
            (opt_view(*old(name)), old(settings)@),
            key@,
            inner@,
        ),
{
    let items = li_items(inner);
    let ghost texts = views(items@);
    if is_text(key, "Name") {
        if items.len() > 0 {
            assert(texts[0] == items@[0]@);
            let first = chars_of(items[0].as_str());
            if first.len() > 0 {
                *name = Some(string_of(&first));
            } else {
                *name = None;
            }
        } else {
            *name = None;
        }
    } else if items.len() == 0 {
        let text = unescape(inner);
        settings.insert(string_of(key), value_from_str(&text));
    } else {
        let mut nums: Vec<String> = Vec::new();
        let mut i: usize = 0;
        assert(texts.take(0) == Seq::<Seq<char>>::empty());
        assert(views(nums@) == Seq::<Seq<char>>::empty());
        while i < items.len()
            invariant
                i <= items@.len(),
                texts == views(items@),
                views(nums@) == numbers_of_all(texts.take(i as int)),
            decreases items.len() - i,
        {
            let item = chars_of(items[i].as_str());
            push_numbers(&mut nums, &item);
            assert(texts.take(i + 1).drop_last() == texts.take(i as int));
            assert(texts.take(i + 1).last() == item@);
            i = i + 1;
        }
        assert(texts.take(i as int) == texts);
        settings.insert(string_of(key), Setting::List(nums));
    }
}

/// Extracts `crs:*` settings from an XMP preset, both attribute form
/// (`crs:Exposure2012="+0.50"`) and element form (curves, names).
pub fn parse_xmp(xml: &str) -> (r: (Option<String>, Settings))
    ensures
        (opt_view(r.0), r.1@) == xmp_of(xml@),
{
    let text = chars_of(xml);
    let mut rest: &[char] = &text;
    let mut name: Option<String> = None;
    let mut settings = Settings::new();
    loop
        invariant_except_break
            xmp_from(rest@, (opt_view(name), settings@)) == xmp_of(xml@),
        ensures
            (opt_view(name), settings@) == xmp_of(xml@),
        decreases rest@.len(),
    {
        proof {
            lemma_xmp_next(rest@, (opt_view(name), settings@));
            reveal_strlit("crs:");
        }
        let i: usize = match find_text(rest, "crs:") {
            Some(i) => i,
            None => {
                break;
            },
        };
        let n: usize = rest.len();
        let after = part(rest, i + 4, n);
        assert(after@ == rest@.skip(i + "crs:"@.len()));
        let k: usize = end_of_name(after, 0);
        let key = part(after, 0, k);
        assert(key@ == after@.take(k as int));
        let tail = part(after, k, after.len());
        assert(tail@ == after@.skip(k as int));
        if begins_with(tail, "=\"") {
            if let Some(v) = value_in_quotes(tail) {
                let text = unescape(v);
                settings.insert(string_of(key), value_from_str(&text));
            }
            rest = after;
        } else if i > 0 && rest[i - 1] == '<' && k > 0 {
            match body_of_element(tail, key) {
                Some((inner, next)) => {
                    take_element(&mut name, &mut settings, key, inner);
                    rest = next;
                },
                None => {
                    rest = after;
                },
            }
        } else {
            rest = after;
        }
    }
    (name, settings)
}

// ---------------------------------------------------------------------------------------------
// Lightroom templates
// ---------------------------------------------------------------------------------------------

/// The text of `field = "..."` where it first stands in `lua`; none where it is empty or a key
/// to be translated (`$$$/...`).
pub open spec fn lua_field(lua: Seq<char>, field: Seq<char>) -> Option<Seq<char>> {
    match find(lua, field + " = \""@) {
        Some(i) => {
            let rest = lua.skip(i + field.len() + " = \""@.len());
            let end = next_char(rest, '"', 0);
            let text = rest.take(end);
            if end < rest.len() && text.len() > 0 && !begins(text, "$$$"@) {
                Some(text)
            } else {
                None
            }
        },
        None => None,
    }
}

/// The text of `field = "..."` where it first stands in `lua`.
pub fn lua_string_field(lua: &[char], field: &str) -> (r: Option<String>)
    ensures
        opt_view(r) == lua_field(lua@, field@),
{
    let pat = joined(field, " = \"");
    let pat_len: usize = chars_of(pat.as_str()).len();
    let n: usize = lua.len();
    match find_text(lua, pat.as_str()) {
        Some(i) => {
            let rest = part(lua, i + pat_len, n);
            assert(rest@ == lua@.skip(i + field@.len() + " = \""@.len()));
            let end: usize = index_of(rest, '"', 0);
            let text = part(rest, 0, end);
            assert(text@ == rest@.take(end as int));
            if end < rest.len() && text.len() > 0 && !begins_with(text, "$$$") {
                Some(string_of(text))
            } else {
                None
            }
        },
        None => None,
    }
}

/// The first place at or after `i` that ends a bare value: a comma, a line end or a brace.
pub open spec fn bare_end(s: Seq<char>, i: int) -> int
    decreases s.len() - i,
{
    if i < 0 || i >= s.len() {
        s.len() as int
    } else if s[i] == ',' || s[i] == '\n' || s[i] == '}' {
        i
    } else {
        bare_end(s, i + 1)
    }
}

/// The settings with what follows `key =`: a list in braces, a text in quotes, or a bare value.
/// A list without numbers, and what is not closed, sets nothing.
pub open spec fn with_lua_value(
    m: Map<Seq<char>, SettingView>,
    key: Seq<char>,
    value: Seq<char>,
) -> Map<Seq<char>, SettingView> {
    if value.len() > 0 && value[0] == '{' {
        let list = value.skip(1);
        let end = next_char(list, '}', 0);
        if end < list.len() && numbers_of(list.take(end)).len() > 0 {
            m.insert(key, SettingView::List(numbers_of(list.take(end))))
        } else {
            m
        }
    } else if value.len() > 0 && value[0] == '"' {
        let text = value.skip(1);
        let end = next_char(text, '"', 0);
        if end < text.len() {
            m.insert(key, SettingView::Text(text.take(end)))
        } else {
            m
        }
    } else {
        m.insert(key, value_of(value.take(bare_end(value, 0))))
    }
}

/// The settings with what the text from `i` on gives them: every name that is followed by `=`.
pub open spec fn lua_from(
    body: Seq<char>,
    i: int,
    m: Map<Seq<char>, SettingView>,
) -> Map<Seq<char>, SettingView>
    decreases body.len() - i,
{
    proof {
        if 0 <= i < body.len() {
            lemma_name_end(body, i);
        }
    }
    if i < 0 || i >= body.len() {
        m
    } else if !is_letter(body[i]) || (i > 0 && is_name_char(body[i - 1])) {
        lua_from(body, i + 1, m)
    } else {
        let j = name_end(body, i);
        let rest = trim_start(body.skip(j));
        if rest.len() > 0 && rest[0] == '=' {
            lua_from(body, j, with_lua_value(m, body.subrange(i, j), trim_start(rest.skip(1))))
        } else {
            lua_from(body, j, m)
        }
    }
}

/// The part of a template that holds the settings.
pub open spec fn lua_body(lua: Seq<char>) -> Seq<char> {
    match find(lua, "settings"@) {
        Some(i) => lua.skip(i),
        None => lua,
    }
}

/// The name and the settings in a Lightroom Classic template.
pub open spec fn lrtemplate_of(lua: Seq<char>) -> Found {
    (
        match lua_field(lua, "title"@) {
            Some(t) => Some(t),
            None => lua_field(lua, "internalName"@),
        },
        lua_from(lua_body(lua), 0, Map::empty()),
    )
}

fn take_lua_value(settings: &mut Settings, key: &[char], value: &[char])
    ensures
        final(settings)@ == with_lua_value(old(settings)@, key@, value@),
{
    if value.len() > 0 && value[0] == '{' {
        let list = part(value, 1, value.len());
        assert(list@ == value@.skip(1));
        let end: usize = index_of(list, '}', 0);
        if end < list.len() {
            let inner = part(list, 0, end);
            assert(inner@ == list@.take(end as int));
            let nums = numbers(inner);
            assert(views(nums@).len() == nums@.len());
            if nums.len() > 0 {
                settings.insert(string_of(key), Setting::List(nums));
            }
        }
    } else if value.len() > 0 && value[0] == '"' {
        let text = part(value, 1, value.len());
        assert(text@ == value@.skip(1));
        let end: usize = index_of(text, '"', 0);
        if end < text.len() {
            let inner = part(text, 0, end);
            assert(inner@ == text@.take(end as int));
            settings.insert(string_of(key), Setting::Text(string_of(inner)));
        }
    } else {
        let mut end: usize = 0;
        while end < value.len() && !(value[end] == ',' || value[end] == '\n' || value[end] == '}')
            invariant
                end <= value@.len(),
                bare_end(value@, 0) == bare_end(value@, end as int),
            decreases value.len() - end,
        {
            end = end + 1;
        }
        let bare = part(value, 0, end);
        assert(bare@ == value@.take(end as int));
        settings.insert(string_of(key), value_from_str(bare));
    }
}

/// Extracts settings from a Lightroom Classic `.lrtemplate` (a Lua table).
pub fn parse_lrtemplate(lua: &str) -> (r: (Option<String>, Settings))
    ensures
        (opt_view(r.0), r.1@) == lrtemplate_of(lua@),
{
    let text = chars_of(lua);
    let name = match lua_string_field(&text, "title") {
        Some(t) => Some(t),
        None => lua_string_field(&text, "internalName"),
    };
    let body: &[char] = match find_text(&text, "settings") {
        Some(i) => {
            let b = part(&text, i, text.len());
            assert(b@ == text@.skip(i as int));
            b
        },
        None => &text,
    };
    let mut settings = Settings::new();
    let mut i: usize = 0;
    let ghost whole = lua_from(body@, 0, Map::empty());
    while i < body.len()
        invariant
            i <= body@.len(),
            lua_from(body@, i as int, settings@) == whole,
        decreases body.len() - i,
    {
        proof {
            lemma_name_end(body@, i as int);
        }
        if !is_letter(body[i]) || (i > 0 && is_name_char(body[i - 1])) {
            i = i + 1;
        } else {
            let j: usize = end_of_name(body, i);
            let key = part(body, i, j);
            let after = part(body, j, body.len());
            assert(after@ == body@.skip(j as int));
            let rest = trimmed_start(after);
            if rest.len() > 0 && rest[0] == '=' {
                let value = part(rest, 1, rest.len());
                assert(value@ == rest@.skip(1));
                take_lua_value(&mut settings, key, trimmed_start(value));
            }
            i = j;
        }
    }
    (name, settings)
}

// ---------------------------------------------------------------------------------------------
// Sliders
// ---------------------------------------------------------------------------------------------

/// The numeral of a setting, where it is set to a number.
pub open spec fn num_of(m: Map<Seq<char>, SettingView>, key: Seq<char>) -> Option<Seq<char>> {
    if m.dom().contains(key) {
        match m[key] {
            SettingView::Num(n) => Some(n),
            _ => None,
        }
    } else {
        None
    }
}

/// The numeral of the first of two settings that is set to a number.
pub open spec fn either_num(
    m: Map<Seq<char>, SettingView>,
    first: Seq<char>,
    second: Seq<char>,
) -> Option<Seq<char>> {
    match num_of(m, first) {
        Some(n) => Some(n),
        None => num_of(m, second),
    }
}

/// The setting holds the text `word`, in any case.
pub open spec fn says(m: Map<Seq<char>, SettingView>, key: Seq<char>, word: Seq<char>) -> bool {
    m.dom().contains(key) && match m[key] {
        SettingView::Text(t) => lowercase_of(t) == word,
        _ => false,
    }
}

/// The points that a list of numbers gives, two numbers each; a number left over is dropped.
pub open spec fn pairs(v: Seq<Seq<char>>) -> Seq<(Seq<char>, Seq<char>)> {
    Seq::new((v.len() / 2) as nat, |i: int| (v[2 * i], v[2 * i + 1]))
}

/// The curve that a setting gives: a list of at least two points.
pub open spec fn curve_of(
    m: Map<Seq<char>, SettingView>,
    key: Seq<char>,
) -> Option<Seq<(Seq<char>, Seq<char>)>> {
    if m.dom().contains(key) {
        match m[key] {
            SettingView::List(v) => if v.len() >= 4 {
                Some(pairs(v))
            } else {
                None
            },
            _ => None,
        }
    } else {
        None
    }
}

/// The points of a curve; none where it is not set.
pub open spec fn points(c: Option<Seq<(Seq<char>, Seq<char>)>>) -> Seq<(Seq<char>, Seq<char>)> {
    match c {
        Some(p) => p,
        None => seq![],
    }
}

/// White balance: a relative slider (JPEG presets) wins over an absolute reading (RAW presets),
/// which counts only where the preset does not keep the camera's white balance.
pub open spec fn balances(
    b: Balance,
    m: Map<Seq<char>, SettingView>,
    relative: Seq<char>,
    absolute: Seq<char>,
) -> bool {
    match (num_of(m, relative), num_of(m, absolute)) {
        (Some(t), _) => b matches Balance::Relative(x) && x@ == t,
        (None, Some(k)) => if says(m, "WhiteBalance"@, "as shot"@) {
            b is AsShot
        } else {
            b matches Balance::Absolute(x) && x@ == k
        },
        _ => b is AsShot,
    }
}

/// The sliders of the colour band `name`.
pub open spec fn band_follows(b: Band, m: Map<Seq<char>, SettingView>, name: Seq<char>) -> bool {
    &&& opt_view(b.hue) == num_of(m, "HueAdjustment"@ + name)
    &&& opt_view(b.saturation) == num_of(m, "SaturationAdjustment"@ + name)
    &&& opt_view(b.luminance) == num_of(m, "LuminanceAdjustment"@ + name)
    &&& opt_view(b.gray) == num_of(m, "GrayMixer"@ + name)
}

/// The sliders stand as the settings say.
pub open spec fn follows(a: Adjustments, m: Map<Seq<char>, SettingView>) -> bool {
    &&& opt_view(a.exposure) == either_num(m, "Exposure2012"@, "Exposure"@)
    &&& opt_view(a.contrast) == either_num(m, "Contrast2012"@, "Contrast"@)
    &&& opt_view(a.highlights) == either_num(m, "Highlights2012"@, "HighlightRecovery"@)
    &&& opt_view(a.shadows) == either_num(m, "Shadows2012"@, "FillLight"@)
    &&& opt_view(a.whites) == num_of(m, "Whites2012"@)
    &&& opt_view(a.blacks) == num_of(m, "Blacks2012"@)
    &&& opt_view(a.clarity) == either_num(m, "Clarity2012"@, "Clarity"@)
    &&& opt_view(a.dehaze) == num_of(m, "Dehaze"@)
    &&& opt_view(a.vibrance) == num_of(m, "Vibrance"@)
    &&& opt_view(a.saturation) == num_of(m, "Saturation"@)
    &&& opt_view(a.tint_balance) == either_num(m, "SplitToningBalance"@, "ColorGradeBalance"@)
    &&& opt_view(a.shadow_tint.hue) == either_num(m, "SplitToningShadowHue"@, "ColorGradeShadowHue"@)
    &&& opt_view(a.shadow_tint.saturation) == either_num(m, "SplitToningShadowSaturation"@, "ColorGradeShadowSat"@)
    &&& opt_view(a.highlight_tint.hue) == either_num(m, "SplitToningHighlightHue"@, "ColorGradeHighlightHue"@)
    &&& opt_view(a.highlight_tint.saturation) == either_num(m, "SplitToningHighlightSaturation"@, "ColorGradeHighlightSat"@)
    &&& opt_view(a.midtone_tint.hue) == num_of(m, "ColorGradeMidtoneHue"@)
    &&& opt_view(a.midtone_tint.saturation) == num_of(m, "ColorGradeMidtoneSat"@)
    &&& opt_view(a.global_tint.hue) == num_of(m, "ColorGradeGlobalHue"@)
    &&& opt_view(a.global_tint.saturation) == num_of(m, "ColorGradeGlobalSat"@)
    &&& opt_view(a.vignette) == either_num(m, "PostCropVignetteAmount"@, "VignetteAmount"@)
    &&& opt_view(a.grain) == num_of(m, "GrainAmount"@)
    &&& opt_view(a.parametric.shadows) == num_of(m, "ParametricShadows"@)
    &&& opt_view(a.parametric.darks) == num_of(m, "ParametricDarks"@)
    &&& opt_view(a.parametric.lights) == num_of(m, "ParametricLights"@)
    &&& opt_view(a.parametric.highlights) == num_of(m, "ParametricHighlights"@)
    &&& a.grayscale == (says(m, "ConvertToGrayscale"@, "true"@) || says(
        m,
        "Treatment"@,
        "blackandwhite"@,
    ))
    &&& curve_view(a.curve@) == match curve_of(m, "ToneCurvePV2012"@) {
        Some(p) => p,
        None => points(curve_of(m, "ToneCurve"@)),
    }
    &&& curve_view(a.curve_red@) == points(curve_of(m, "ToneCurvePV2012Red"@))
    &&& curve_view(a.curve_green@) == points(curve_of(m, "ToneCurvePV2012Green"@))
    &&& curve_view(a.curve_blue@) == points(curve_of(m, "ToneCurvePV2012Blue"@))
    &&& balances(a.temperature, m, "IncrementalTemperature"@, "Temperature"@)
    &&& balances(a.tint, m, "IncrementalTint"@, "Tint"@)
    &&& a.bands@.len() == BANDS@.len()
    &&& forall|i: int|
        0 <= i < BANDS@.len() ==> band_follows(#[trigger] a.bands@[i], m, BANDS@[i]@)
}

fn num(s: &Settings, key: &str) -> (r: Option<String>)
    ensures
        opt_view(r) == num_of(s@, key@),
{
    match s.get(key) {
        Some(Setting::Num(n)) => Some(n.clone()),
        _ => None,
    }
}

fn first_num(s: &Settings, first: &str, second: &str) -> (r: Option<String>)
    ensures
        opt_view(r) == either_num(s@, first@, second@),
{
    match num(s, first) {
        Some(n) => Some(n),
        None => num(s, second),
    }
}

fn text_is(s: &Settings, key: &str, word: &str) -> (r: bool)
    ensures
        r == says(s@, key@, word@),
{
    match s.get(key) {
        Some(Setting::Text(t)) => {
            let low = lowercase(t.as_str());
            text_eq(low.as_str(), word)
        },
        _ => false,
    }
}

fn curve(s: &Settings, key: &str) -> (r: Option<Vec<CurvePoint>>)
    ensures
        match r {
            Some(c) => curve_of(s@, key@) == Some(curve_view(c@)),
            None => curve_of(s@, key@) is None,
        },
{
    match s.get(key) {
        Some(Setting::List(v)) => {
            if v.len() < 4 {
                assert(views(v@).len() == v@.len());
                return None;
            }
            let mut out: Vec<CurvePoint> = Vec::new();
            let n: usize = v.len() / 2;
            let mut i: usize = 0;
            while i < n
                invariant
                    n == v@.len() / 2,
                    n <= usize::MAX / 2,
                    i <= n,
                    out@.len() == i,
                    forall|k: int|
                        0 <= k < i ==> (#[trigger] out@[k]).x@ == v@[2 * k]@ && out@[k].y@ == v@[2 * k
                            + 1]@,
                decreases n - i,
            {
                out.push(CurvePoint { x: v[2 * i].clone(), y: v[2 * i + 1].clone() });
                i = i + 1;
            }
            assert(curve_view(out@) =~= pairs(views(v@)));
            Some(out)
        },
        _ => None,
    }
}

fn curve_or_none(s: &Settings, key: &str) -> (r: Vec<CurvePoint>)
    ensures
        curve_view(r@) == points(curve_of(s@, key@)),
{
    match curve(s, key) {
        Some(c) => c,
        None => {
            let c: Vec<CurvePoint> = Vec::new();
            assert(curve_view(c@) == Seq::<(Seq<char>, Seq<char>)>::empty());
            c
        },
    }
}

fn balance(s: &Settings, relative: &str, absolute: &str) -> (r: Balance)
    ensures
        balances(r, s@, relative@, absolute@),
{
    match num(s, relative) {
        Some(t) => Balance::Relative(t),
        None => match num(s, absolute) {
            Some(k) => {
                if text_is(s, "WhiteBalance", "as shot") {
                    Balance::AsShot
                } else {
                    Balance::Absolute(k)
                }
            },
            None => Balance::AsShot,
        },
    }
}

fn bands(s: &Settings) -> (r: Vec<Band>)
    ensures
        r@.len() == BANDS@.len(),
        forall|i: int| 0 <= i < BANDS@.len() ==> band_follows(#[trigger] r@[i], s@, BANDS@[i]@),
{
    let mut out: Vec<Band> = Vec::new();
    let mut i: usize = 0;
    while i < BANDS.len()
        invariant
            i <= BANDS@.len(),
            out@.len() == i,
            forall|k: int| 0 <= k < i ==> band_follows(#[trigger] out@[k], s@, BANDS@[k]@),
        decreases BANDS.len() - i,
    {
        let name = BANDS[i];
        let band = Band {
            hue: num(s, joined("HueAdjustment", name).as_str()),
            saturation: num(s, joined("SaturationAdjustment", name).as_str()),
            luminance: num(s, joined("LuminanceAdjustment", name).as_str()),
            gray: num(s, joined("GrayMixer", name).as_str()),
        };
        out.push(band);
        i = i + 1;
    }
    out
}

/// Maps Lightroom / Camera Raw setting names onto our sliders.
pub fn adjustments(s: &Settings) -> (r: Adjustments)
    ensures
        follows(r, s@),
{
    Adjustments {
        exposure: first_num(s, "Exposure2012", "Exposure"),
        contrast: first_num(s, "Contrast2012", "Contrast"),
        highlights: first_num(s, "Highlights2012", "HighlightRecovery"),
        shadows: first_num(s, "Shadows2012", "FillLight"),
        whites: num(s, "Whites2012"),
        blacks: num(s, "Blacks2012"),
        clarity: first_num(s, "Clarity2012", "Clarity"),
        dehaze: num(s, "Dehaze"),
        temperature: balance(s, "IncrementalTemperature", "Temperature"),
        tint: balance(s, "IncrementalTint", "Tint"),
        vibrance: num(s, "Vibrance"),
        saturation: num(s, "Saturation"),
        bands: bands(s),
        grayscale: text_is(s, "ConvertToGrayscale", "true") || text_is(
            s,
            "Treatment",
            "blackandwhite",
        ),
        shadow_tint: Wheel {
            hue: first_num(s, "SplitToningShadowHue", "ColorGradeShadowHue"),
            saturation: first_num(s, "SplitToningShadowSaturation", "ColorGradeShadowSat"),
        },
        highlight_tint: Wheel {
            hue: first_num(s, "SplitToningHighlightHue", "ColorGradeHighlightHue"),
            saturation: first_num(s, "SplitToningHighlightSaturation", "ColorGradeHighlightSat"),
        },
        midtone_tint: Wheel {
            hue: num(s, "ColorGradeMidtoneHue"),
            saturation: num(s, "ColorGradeMidtoneSat"),
        },
        global_tint: Wheel {
            hue: num(s, "ColorGradeGlobalHue"),
            saturation: num(s, "ColorGradeGlobalSat"),
        },
        tint_balance: first_num(s, "SplitToningBalance", "ColorGradeBalance"),
        vignette: first_num(s, "PostCropVignetteAmount", "VignetteAmount"),
        grain: num(s, "GrainAmount"),
        curve: match curve(s, "ToneCurvePV2012") {
            Some(c) => c,
            None => curve_or_none(s, "ToneCurve"),
        },
        curve_red: curve_or_none(s, "ToneCurvePV2012Red"),
        curve_green: curve_or_none(s, "ToneCurvePV2012Green"),
        curve_blue: curve_or_none(s, "ToneCurvePV2012Blue"),
        parametric: Parametric {
            shadows: num(s, "ParametricShadows"),
            darks: num(s, "ParametricDarks"),
            lights: num(s, "ParametricLights"),
            highlights: num(s, "ParametricHighlights"),
        },
    }
}

// ---------------------------------------------------------------------------------------------
// Colour tables
// ---------------------------------------------------------------------------------------------

/// Three numerals.
pub type TripleView = (Seq<char>, Seq<char>, Seq<char>);

/// What the lines of a `.cube` file have given so far.
pub struct CubeState {
    pub size: nat,
    pub title: Option<Seq<char>>,
    pub min: TripleView,
    pub max: TripleView,
    pub data: Seq<EntryView>,
}

/// Before the first line: the domain is 0 to 1.
pub open spec fn cube_start() -> CubeState {
    CubeState {
        size: 0,
        title: None,
        min: ("0"@, "0"@, "0"@),
        max: ("1"@, "1"@, "1"@),
        data: seq![],
    }
}

/// The end of the word that begins at `i`.
pub open spec fn word_end(s: Seq<char>, i: int) -> int
    decreases s.len() - i,
{
    if 0 <= i < s.len() && !is_space(s[i]) {
        word_end(s, i + 1)
    } else {
        i
    }
}

/// The first word of a text that begins with one.
pub open spec fn first_word(s: Seq<char>) -> Seq<char> {
    s.take(word_end(s, 0))
}

/// The text behind its first word.
pub open spec fn behind_word(s: Seq<char>) -> Seq<char> {
    s.skip(word_end(s, 0))
}

/// Three numerals as a triple.
pub open spec fn triple_of(v: Seq<Seq<char>>) -> TripleView {
    (v[0], v[1], v[2])
}

/// What one line of a `.cube` file adds, or the error that it is.
pub open spec fn cube_line(raw: Seq<char>, st: CubeState) -> Result<CubeState, Seq<char>> {
    let line = trim(raw);
    let first = first_word(line);
    let after = behind_word(line);
    if line.len() == 0 || line[0] == '#' {
        Ok(st)
    } else if first == "TITLE"@ {
        let t = strip(trim(after), '"');
        Ok(
            CubeState {
                title: if t.len() > 0 {
                    Some(t)
                } else {
                    None
                },
                ..st
            },
        )
    } else if first == "LUT_3D_SIZE"@ {
        match unsigned(first_word(trim_start(after)), u32::MAX as nat) {
            Some(n) => Ok(CubeState { size: n, ..st }),
            None => Err("bad LUT_3D_SIZE"@),
        }
    } else if first == "LUT_1D_SIZE"@ {
        Err("1D LUTs are not supported"@)
    } else if first == "DOMAIN_MIN"@ || first == "DOMAIN_MAX"@ {
        let v = numbers_of(after);
        if v.len() != 3 {
            Ok(st)
        } else if first == "DOMAIN_MIN"@ {
            Ok(CubeState { min: triple_of(v), ..st })
        } else {
            Ok(CubeState { max: triple_of(v), ..st })
        }
    } else if is_digit(line[0]) || line[0] == '-' || line[0] == '.' {
        let v = numbers_of(line);
        if v.len() == 3 {
            Ok(CubeState { data: st.data.push((triple_of(v), st.min, st.max)), ..st })
        } else {
            Ok(st)
        }
    } else {
        Ok(st)
    }
}

/// What all lines of a text add, or the first error among them.
pub open spec fn cube_lines(text: Seq<char>, st: CubeState) -> Result<CubeState, Seq<char>>
    decreases text.len(),
{
    let e = next_char(text, '\n', 0);
    match cube_line(text.take(e), st) {
        Ok(next) => if 0 <= e < text.len() {
            cube_lines(text.skip(e + 1), next)
        } else {
            Ok(next)
        },
        Err(error) => Err(error),
    }
}

/// The message for a table with the wrong number of entries.
pub open spec fn wrong_count(size: nat, found: nat) -> Seq<char> {
    "expected "@ + decimal(size) + "\u{b3} entries, found "@ + decimal(found)
}

/// The title and the entries of a `.cube` file: there has to be one entry for each point of the
/// grid.
pub open spec fn cube_of(text: Seq<char>) -> Result<CubeState, Seq<char>> {
    match cube_lines(text, cube_start()) {
        Ok(st) => if st.size >= 2 && st.data.len() == st.size * st.size * st.size {
            Ok(st)
        } else {
            Err(wrong_count(st.size, st.data.len()))
        },
        Err(error) => Err(error),
    }
}

fn end_of_word(s: &[char]) -> (r: usize)
    ensures
        r == word_end(s@, 0),
        r <= s@.len(),
{
    let mut k: usize = 0;
    while k < s.len() && !is_space(s[k])
        invariant
            k <= s@.len(),
            word_end(s@, 0) == word_end(s@, k as int),
        decreases s.len() - k,
    {
        k = k + 1;
    }
    k
}

fn copy_triple(t: &Triple) -> (r: Triple)
    ensures
        r@ == t@,
{
    Triple { r: t.r.clone(), g: t.g.clone(), b: t.b.clone() }
}

fn triple_from(v: &Vec<String>) -> (r: Triple)
    requires
        v@.len() == 3,
    ensures
        r@ == triple_of(views(v@)),
{
    Triple { r: v[0].clone(), g: v[1].clone(), b: v[2].clone() }
}

/// A `.cube` file as far as it has been read.
struct CubeReader {
    size: u32,
    title: Option<String>,
    domains: Vec<Domain>,
    data: Vec<Entry>,
}

impl CubeReader {
    spec fn wf(self) -> bool {
        &&& self.domains@.len() > 0
        &&& forall|i: int|
            0 <= i < self.data@.len() ==> (#[trigger] self.data@[i]).domain < self.domains@.len()
    }

    spec fn state(self) -> CubeState {
        CubeState {
            size: self.size as nat,
            title: opt_view(self.title),
            min: self.domains@.last().min@,
            max: self.domains@.last().max@,
            data: entries_view(self.data@, self.domains@),
        }
    }

    fn new() -> (r: CubeReader)
        ensures
            r.wf(),
            r.state() == cube_start(),
    {
        let min = Triple { r: "0".to_owned(), g: "0".to_owned(), b: "0".to_owned() };
        let max = Triple { r: "1".to_owned(), g: "1".to_owned(), b: "1".to_owned() };
        let mut domains: Vec<Domain> = Vec::new();
        domains.push(Domain { min, max });
        let r = CubeReader { size: 0, title: None, domains, data: Vec::new() };
        assert(r.state().data =~= cube_start().data);
        r
    }

    fn set_domain(&mut self, lower: bool, t: Triple)
        requires
            old(self).wf(),
        ensures
            final(self).wf(),
            final(self).state() == if lower {
                (CubeState { min: t@, ..old(self).state() })
            } else {
                (CubeState { max: t@, ..old(self).state() })
            },
    {
        let ghost before = *self;
        let last: usize = self.domains.len() - 1;
        let domain = if lower {
            Domain { min: t, max: copy_triple(&self.domains[last].max) }
        } else {
            Domain { min: copy_triple(&self.domains[last].min), max: t }
        };
        self.domains.push(domain);
        assert(entries_view(self.data@, self.domains@) =~= entries_view(
            before.data@,
            before.domains@,
        )) by {
            assert forall|i: int| 0 <= i < self.data@.len() implies self.domains@[(
            #[trigger] self.data@[i]).domain as int] == before.domains@[self.data@[i].domain as int] by {}
        }
    }

    fn add_entry(&mut self, t: Triple)
        requires
            old(self).wf(),
        ensures
            final(self).wf(),
            final(self).state() == (CubeState {
                data: old(self).state().data.push(
                    (t@, old(self).state().min, old(self).state().max),
                ),
                ..old(self).state()
            }),
    {
        let ghost before = *self;
        let domain: usize = self.domains.len() - 1;
        self.data.push(Entry { value: t, domain });
        assert(self.state().data =~= before.state().data.push(
            (t@, before.state().min, before.state().max),
        ));
    }

    fn line(&mut self, raw: &[char]) -> (r: Result<(), String>)
        requires
            old(self).wf(),
        ensures
            final(self).wf(),
            match r {
                Ok(_) => cube_line(raw@, old(self).state()) == Ok::<CubeState, Seq<char>>(
                    final(self).state(),
                ),
                Err(e) => cube_line(raw@, old(self).state()) == Err::<CubeState, Seq<char>>(e@),
            },
    {
        let line = trimmed(raw);
        if line.len() == 0 || line[0] == '#' {
            return Ok(());
        }
        let e: usize = end_of_word(line);
        let first = part(line, 0, e);
        assert(first@ == first_word(line@));
        let after = part(line, e, line.len());
        assert(after@ == behind_word(line@));
        if is_text(first, "TITLE") {
            let t = stripped(trimmed(after), '"');
            if t.len() > 0 {
                self.title = Some(string_of(t));
            } else {
                self.title = None;
            }
        } else if is_text(first, "LUT_3D_SIZE") {
            let more = trimmed_start(after);
            let word = part(more, 0, end_of_word(more));
            assert(word@ == first_word(more@));
            match parse_unsigned(word, u32::MAX) {
                Some(n) => {
                    self.size = n;
                },
                None => {
                    return Err("bad LUT_3D_SIZE".to_owned());
                },
            }
        } else if is_text(first, "LUT_1D_SIZE") {
            return Err("1D LUTs are not supported".to_owned());
        } else if is_text(first, "DOMAIN_MIN") || is_text(first, "DOMAIN_MAX") {
            let v = numbers(after);
            assert(views(v@).len() == v@.len());
            if v.len() == 3 {
                self.set_domain(is_text(first, "DOMAIN_MIN"), triple_from(&v));
            }
        } else if is_digit(line[0]) || line[0] == '-' || line[0] == '.' {
            let v = numbers(line);
            assert(views(v@).len() == v@.len());
            if v.len() == 3 {
                self.add_entry(triple_from(&v));
            }
        }
        Ok(())
    }
}

/// Whether a table of `size` has `found` entries, as it should.
fn complete(size: u32, found: usize) -> (r: bool)
    ensures
        r == (size >= 2 && found == size * size * size),
{
    let n: u128 = size as u128;
    assert(n * n <= 0xffff_ffff * 0xffff_ffff) by (nonlinear_arith)
        requires
            n <= 0xffff_ffff,
    ;
    let square: u128 = n * n;
    assert(square * n <= 0xffff_ffff * 0xffff_ffff * 0xffff_ffff) by (nonlinear_arith)
        requires
            n <= 0xffff_ffff,
            square <= 0xffff_ffff * 0xffff_ffff,
    ;
    size >= 2 && found as u128 == square * n
}

/// Parses an Adobe / Resolve `.cube` 3D LUT.
pub fn parse_cube(text: &str) -> (r: Result<(Option<String>, Lut3d), String>)
    ensures
        match r {
            Ok((title, lut)) => {
                &&& lut.wf()
                &&& cube_of(text@) matches Ok(st)
                &&& st.title == opt_view(title)
                &&& st.size == lut.size
                &&& st.data == lut.entries()
            },
            Err(e) => cube_of(text@) == Err::<CubeState, Seq<char>>(e@),
        },
{
    let chars = chars_of(text);
    let mut rest: &[char] = &chars;
    let mut reader = CubeReader::new();
    loop
        invariant_except_break
            reader.wf(),
            cube_lines(rest@, reader.state()) == cube_lines(text@, cube_start()),
        ensures
            reader.wf(),
            cube_lines(text@, cube_start()) == Ok::<CubeState, Seq<char>>(reader.state()),
        decreases rest@.len(),
    {
        let e: usize = index_of(rest, '\n', 0);
        let line = part(rest, 0, e);
        assert(line@ == rest@.take(e as int));
        match reader.line(line) {
            Ok(_) => {},
            Err(error) => {
                return Err(error);
            },
        }
        if e >= rest.len() {
            break;
        }
        let next = part(rest, e + 1, rest.len());
        assert(next@ == rest@.skip(e + 1));
        rest = next;
    }
    assert(reader.state().data.len() == reader.data@.len());
    let found: usize = reader.data.len();
    if !complete(reader.size, found) {
        let mut message = "expected ".to_owned();
        push_decimal(&mut message, reader.size as u64);
        message.append("\u{b3} entries, found ");
        push_decimal(&mut message, found as u64);
        return Err(message);
    }
    let CubeReader { size, title, domains, data } = reader;
    Ok((title, Lut3d { size, domains, data }))
}

// ---------------------------------------------------------------------------------------------
// Files
// ---------------------------------------------------------------------------------------------

/// What a preset does: move the sliders, or look colours up in a table.
pub enum Content {
    Sliders(Adjustments),
    Table(Lut3d),
}

/// A preset from a file.
pub struct Preset {
    pub name: String,
    pub group: String,
    pub content: Content,
}

/// The name that a preset gives itself, or else that of its file.
pub open spec fn preset_name(own: Option<Seq<char>>, file: Seq<char>) -> Seq<char> {
    match own {
        Some(n) => n,
        None => stem_of(file),
    }
}

/// A preset that moves the sliders as `found` says, or the message `empty` where it sets nothing.
pub open spec fn gives_sliders(
    r: Result<Preset, String>,
    found: Found,
    file: Seq<char>,
    group: Seq<char>,
    empty: Seq<char>,
) -> bool {
    if found.1.dom() == Set::<Seq<char>>::empty() {
        r matches Err(e) && e@ == empty
    } else {
        match r {
            Ok(Preset { name, group: g, content: Content::Sliders(a) }) => name@ == preset_name(
                found.0,
                file,
            ) && g@ == group && follows(a, found.1),
            _ => false,
        }
    }
}

/// What loading a file named `file` with the text `text` gives.
pub open spec fn gives_preset(
    r: Result<Preset, String>,
    file: Seq<char>,
    text: Seq<char>,
    group: Seq<char>,
) -> bool {
    let e = extension_of(file);
    if e == Some("cube"@) {
        match cube_of(text) {
            Ok(st) => match r {
                Ok(Preset { name, group: g, content: Content::Table(lut) }) => {
                    &&& name@ == preset_name(st.title, file)
                    &&& g@ == group
                    &&& lut.wf()
                    &&& lut.size == st.size
                    &&& lut.entries() == st.data
                },
                _ => false,
            },
            Err(m) => r matches Err(x) && x@ == m,
        }
    } else if e == Some("xmp"@) {
        gives_sliders(r, xmp_of(text), file, group, "no Camera Raw settings found"@)
    } else if e == Some("lrtemplate"@) {
        gives_sliders(r, lrtemplate_of(text), file, group, "no develop settings found"@)
    } else {
        r matches Err(x) && x@ == "unsupported file type"@
    }
}

fn or_stem(own: Option<String>, file: &str) -> (r: String)
    ensures
        r@ == preset_name(opt_view(own), file@),
{
    match own {
        Some(n) => n,
        None => stem(file),
    }
}

fn sliders_preset(
    found: (Option<String>, Settings),
    file: &str,
    group: &str,
    empty: &str,
) -> (r: Result<Preset, String>)
    ensures
        gives_sliders(r, (opt_view(found.0), found.1@), file@, group@, empty@),
{
    let (own, settings) = found;
    if settings.is_empty() {
        return Err(empty.to_owned());
    }
    Ok(
        Preset {
            name: or_stem(own, file),
            group: group.to_owned(),
            content: Content::Sliders(adjustments(&settings)),
        },
    )
}

/// Reads a preset from the text of the file named `file`.
pub fn load_text(text: &str, file: &str, group: &str) -> (r: Result<Preset, String>)
    ensures
        gives_preset(r, file@, text@, group@),
{
    let e = match extension(file) {
        Some(e) => e,
        None => {
            return Err("unsupported file type".to_owned());
        },
    };
    if text_eq(e.as_str(), "cube") {
        match parse_cube(text) {
            Ok((title, lut)) => Ok(
                Preset {
                    name: or_stem(title, file),
                    group: group.to_owned(),
                    content: Content::Table(lut),
                },
            ),
            Err(m) => Err(m),
        }
    } else if text_eq(e.as_str(), "xmp") {
        sliders_preset(parse_xmp(text), file, group, "no Camera Raw settings found")
    } else if text_eq(e.as_str(), "lrtemplate") {
        sliders_preset(parse_lrtemplate(text), file, group, "no develop settings found")
    } else {
        Err("unsupported file type".to_owned())
    }
}

/// Reads a preset from the contents of the file named `file`. Bytes that are no UTF-8 are read as
/// replacement characters.
pub fn load_file(contents: &[u8], file: &str, group: &str) -> (r: Result<Preset, String>)
    ensures
        gives_preset(r, file@, lossy_text(contents@), group@),
{
    let text = from_utf8_lossy(contents);
    load_text(text.as_str(), file, group)
}

/// What reading the preset at `path`, given as the parts of its path, gives: a preset in the group of its
/// folders below `root`. `read` is what reading the file gave; an error is reported behind `shown`.
pub open spec fn gives_entry(
    r: Result<Preset, String>,
    root: Seq<Seq<char>>,
    path: Seq<Seq<char>>,
    shown: Seq<char>,
    read: Result<Vec<u8>, String>,
) -> bool {
    match read {
        Ok(bytes) => exists|inner: Result<Preset, String>|
            {
                &&& #[trigger] gives_preset(inner, path.last(), lossy_text(bytes@), group_of(root, path))
                &&& match inner {
                    Ok(p) => r == Ok::<Preset, String>(p),
                    Err(e) => r matches Err(x) && x@ == shown + ": "@ + e@,
                }
            },
        Err(e) => r matches Err(x) && x@ == shown + ": "@ + e@,
    }
}

/// Reads the preset at `path`, given as the parts of its path, into the group of its folders below
/// `root`. `read` is what reading the file gave; an error is reported behind `shown`.
pub fn load_entry(
    root: &[String],
    path: &[String],
    shown: &str,
    read: &Result<Vec<u8>, String>,
) -> (r: Result<Preset, String>)
    requires
        path@.len() > 0,
    ensures
        gives_entry(r, views(root@), views(path@), shown@, *read),
{
    assert(views(path@).last() == path@.last()@);
    let inner = match read {
        Ok(bytes) => {
            let group = group_for(root, path);
            let loaded = load_file(bytes, path[path.len() - 1].as_str(), group.as_str());
            assert(gives_preset(
                loaded,
                path@.last()@,
                lossy_text(bytes@),
                group_of(views(root@), views(path@)),
            ));
            loaded
        },
        Err(e) => Err(e.clone()),
    };
    let ghost got = inner;
    assert(read is Ok ==> gives_preset(
        got,
        path@.last()@,
        lossy_text(read->Ok_0@),
        group_of(views(root@), views(path@)),
    ));
    match inner {
        Ok(p) => {
            let r: Result<Preset, String> = Ok(p);
            assert(got == r);
            r
        },
        Err(e) => {
            let mut message = shown.to_owned();
            message.append(": ");
            message.append(e.as_str());
            Err(message)
        },
    }
}

/// A preset file: the parts of its path, how errors name it, and what reading it gave.
pub struct PresetFile {
    pub path: Vec<String>,
    pub shown: String,
    pub read: Result<Vec<u8>, String>,
}

/// The paths of preset files.
pub open spec fn file_paths(files: Seq<PresetFile>) -> Seq<Seq<Seq<char>>> {
    files.map_values(|f: PresetFile| views(f.path@))
}

/// The presets among `results`, each with the place in `order` that it has, and the errors.
pub open spec fn parted(order: Seq<usize>, results: Seq<Result<Preset, String>>) -> (
    Seq<(usize, Preset)>,
    Seq<String>,
)
    decreases results.len(),
{
    if results.len() == 0 {
        (seq![], seq![])
    } else {
        let before = parted(order, results.drop_last());
        match results.last() {
            Ok(p) => (before.0.push((order[results.len() - 1], p)), before.1),
            Err(e) => (before.0, before.1.push(e)),
        }
    }
}

/// What loading all of `files` gives: they are taken in the order of their paths, and each is a preset or
/// an error.
pub open spec fn loads_all(
    found: Seq<(usize, Preset)>,
    errors: Seq<String>,
    root: Seq<Seq<char>>,
    files: Seq<PresetFile>,
) -> bool {
    exists|order: Seq<usize>, results: Seq<Result<Preset, String>>|
        {
            &&& sorts_paths(order, file_paths(files))
            &&& results.len() == files.len()
            &&& forall|k: int|
                0 <= k < files.len() ==> {
                    let f = files[order[k] as int];
                    gives_entry(#[trigger] results[k], root, views(f.path@), f.shown@, f.read)
                }
            &&& #[trigger] parted(order, results) == (found, errors)
        }
}

/// Loads preset files, those of a folder and its sub-folders, in the order of their paths. Gives the presets,
/// each with the place of its file in `files`, and the errors.
pub fn load_all(root: &[String], files: &[PresetFile]) -> (r: (Vec<(usize, Preset)>, Vec<String>))
    requires
        forall|i: int| 0 <= i < files@.len() ==> (#[trigger] files@[i]).path@.len() > 0,
    ensures
        loads_all(r.0@, r.1@, views(root@), files@),
{
    let mut paths: Vec<Vec<String>> = Vec::new();
    let mut i: usize = 0;
    while i < files.len()
        invariant
            i <= files@.len(),
            paths@.len() == i,
            forall|k: int| 0 <= k < i ==> views((#[trigger] paths@[k])@) == views(files@[k].path@),
        decreases files.len() - i,
    {
        paths.push(copied(&files[i].path));
        i = i + 1;
    }
    let order = sort_paths(&paths);
    assert(path_views(paths@) =~= file_paths(files@));
    let mut found: Vec<(usize, Preset)> = Vec::new();
    let mut errors: Vec<String> = Vec::new();
    let ghost mut results: Seq<Result<Preset, String>> = seq![];
    let mut k: usize = 0;
    while k < order.len()
        invariant
            k <= order@.len(),
            order@.len() == files@.len(),
            forall|a: int| 0 <= a < order@.len() ==> (#[trigger] order@[a]) < files@.len(),
            forall|a: int| 0 <= a < files@.len() ==> (#[trigger] files@[a]).path@.len() > 0,
            results.len() == k,
            forall|a: int|
                0 <= a < k ==> {
                    let f = files@[order@[a] as int];
                    gives_entry(#[trigger] results[a], views(root@), views(f.path@), f.shown@, f.read)
                },
            parted(order@, results) == (found@, errors@),
        decreases order.len() - k,
    {
        let at: usize = order[k];
        let f = &files[at];
        let loaded = load_entry(root, &f.path, f.shown.as_str(), &f.read);
        let ghost before = results;
        proof {
            results = results.push(loaded);
            assert(results.drop_last() =~= before);
        }
        match loaded {
            Ok(p) => {
                found.push((at, p));
            },
            Err(e) => {
                errors.push(e);
            },
        }
        k = k + 1;
    }
    (found, errors)
}

fn copied(path: &[String]) -> (r: Vec<String>)
    ensures
        views(r@) == views(path@),
{
    let mut out: Vec<String> = Vec::new();
    let mut i: usize = 0;
    while i < path.len()
        invariant
            i <= path@.len(),
            out@.len() == i,
            forall|k: int| 0 <= k < i ==> (#[trigger] out@[k])@ == path@[k]@,
        decreases path.len() - i,
    {
        out.push(path[i].clone());
        i = i + 1;
    }
    assert(views(out@) =~= views(path@));
    out
}

// ---------------------------------------------------------------------------------------------
// Keeping imported presets
// ---------------------------------------------------------------------------------------------

/// The folder, among those of the presets, that an imported file or folder is kept in: a folder keeps its
/// name, and files go together.
pub open spec fn import_folder_of(folder: bool, name: Option<Seq<char>>) -> Seq<char> {
    match name {
        Some(n) => if folder {
            n
        } else {
            "Imported"@
        },
        None => "Imported"@,
    }
}

/// The folder, among those of the presets, that an imported file or folder of this name is kept in.
pub fn import_folder(folder: bool, name: Option<&str>) -> (r: String)
    ensures
        r@ == import_folder_of(
            folder,
            match name {
                Some(n) => Some(n@),
                None => None,
            },
        ),
{
    match name {
        Some(n) => {
            if folder {
                n.to_owned()
            } else {
                "Imported".to_owned()
            }
        },
        None => "Imported".to_owned(),
    }
}

/// Whether a preset was loaded from `dest` already, so that it is not imported again.
pub fn is_imported(sources: &[String], dest: &str) -> (r: bool)
    ensures
        r == views(sources@).contains(dest@),
{
    let ghost all = views(sources@);
    let mut i: usize = 0;
    while i < sources.len()
        invariant
            i <= sources@.len(),
            all == views(sources@),
            forall|k: int| 0 <= k < i ==> #[trigger] all[k] != dest@,
        decreases sources.len() - i,
    {
        assert(all[i as int] == sources@[i as int]@);
        if text_eq(sources[i].as_str(), dest) {
            return true;
        }
        i = i + 1;
    }
    false
}

/// A preset's group is named after the folders that it lies in: the folder's own name, behind that of the folder round it;
/// a preset that lies in none is imported.
pub proof fn law_group_is_named_after_its_folders(
    root: Seq<Seq<char>>,
    between: Seq<Seq<char>>,
    folder: Seq<char>,
    file: Seq<char>,
)
    ensures
        group_of(root, root + seq![file]) == "Imported"@,
        group_of(root, root + seq![folder, file]) == folder,
        between.len() > 0 ==> group_of(root, root + between.push(folder).push(file)) == group_of(
            root,
            root + between.push(file),
        ) + " / "@ + folder,
{
    let n = root.len() as int;
    let a = root + seq![file];
    assert(a.take(n) =~= root);
    assert(a.subrange(n, a.len() - 1) =~= Seq::<Seq<char>>::empty());
    let b = root + seq![folder, file];
    assert(b.take(n) =~= root);
    assert(b.subrange(n, b.len() - 1) =~= seq![folder]);
    let c = root + between.push(folder).push(file);
    assert(c.take(n) =~= root);
    assert(c.subrange(n, c.len() - 1) =~= between.push(folder));
    let d = root + between.push(file);
    assert(d.take(n) =~= root);
    assert(d.subrange(n, d.len() - 1) =~= between);
    assert(between.push(folder).drop_last() =~= between);
}

/// Every file that is loaded gives a preset or an error, one of them, and the presets stand in the order of their files'
/// paths.
pub proof fn law_every_file_is_loaded_or_reported(order: Seq<usize>, results: Seq<Result<Preset, String>>)
    requires
        results.len() <= order.len(),
    ensures
        parted(order, results).0.len() + parted(order, results).1.len() == results.len(),
        forall|k: int|
            0 <= k < results.len() ==> match #[trigger] results[k] {
                Ok(p) => parted(order, results).0.contains((order[k], p)),
                Err(e) => parted(order, results).1.contains(e),
            },
    decreases results.len(),
{
    if results.len() > 0 {
        let shorter = results.drop_last();
        law_every_file_is_loaded_or_reported(order, shorter);
        let before = parted(order, shorter);
        let after = parted(order, results);
        assert forall|k: int| 0 <= k < results.len() implies match #[trigger] results[k] {
            Ok(p) => after.0.contains((order[k], p)),
            Err(e) => after.1.contains(e),
        } by {
            if k < shorter.len() {
                assert(shorter[k] == results[k]);
                match results[k] {
                    Ok(p) => {
                        let i = before.0.index_of((order[k], p));
                        assert(after.0[i] == (order[k], p));
                    },
                    Err(e) => {
                        let i = before.1.index_of(e);
                        assert(after.1[i] == e);
                    },
                }
            } else {
                match results[k] {
                    Ok(p) => {
                        assert(after.0[after.0.len() - 1] == (order[k], p));
                    },
                    Err(e) => {
                        assert(after.1[after.1.len() - 1] == e);
                    },
                }
            }
        }
    }
}

} // verus!
