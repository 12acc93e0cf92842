//! Preset and theme files as programs write them, and that they are read back: what is written into one is what
//! is found in it.

use crate::import::{
    band_follows, bare_end, behind_word, cube_line, cube_lines, cube_of, cube_start, curve_of,
    element_body, escaped, escaped_char, first_word, follows, gives_preset,
    law_unescaping_undoes_escaping, li_first, li_items_of, lrtemplate_of, lua_body, lua_field,
    lua_from, name_end, next_break, numbers_of, numbers_of_all, pairs, quoted_value, special,
    unescaped, value_of, with_element, with_lua_value, word_end, xmp_from, xmp_next, xmp_of,
    Content, CubeState, Found, Preset, SettingView, TripleView,
};
use crate::names::extension_of;
use crate::numeral::{
    decimal, is_number, law_decimal_is_read_back, lemma_decimal_round_trip, unsigned,
};
use crate::preset::{curve_view, opt_view, Adjustments, BANDS, Balance, CurvePoint, Lut3d};
use crate::text::{
    begins, find, is_digit, is_letter, is_name_char, is_space, lemma_find_from, next_char,
    occurs_at, split, split_once, strip, strip_end, strip_start, trim, trim_end, trim_start,
};
use crate::theme::{
    applied, color_of, color_of_number, hex_digit, hex_value, kv_line, kv_of, named_themes,
    requests, Color, ColorsView, ThemeRequest,
};
use crate::unicode::lowercase_of;
use vstd::prelude::*;

verus! {

// ---------------------------------------------------------------------------------------------
// Numerals
// ---------------------------------------------------------------------------------------------

/// A character that numerals are written between.
pub open spec fn is_break(c: char) -> bool {
    c == ',' || is_space(c)
}

/// A numeral as programs write it: without a plus sign, and with nothing in it that ends a numeral.
pub open spec fn is_plain(s: Seq<char>) -> bool {
    &&& is_number(s)
    &&& s.len() > 0
    &&& s[0] != '+'
    &&& forall|i: int| 0 <= i < s.len() ==> !is_break(#[trigger] s[i])
}

/// What stands between two numerals: commas and white space.
pub open spec fn is_gap(s: Seq<char>) -> bool {
    s.len() > 0 && forall|i: int| 0 <= i < s.len() ==> is_break(#[trigger] s[i])
}

/// Words with `gap` between each two.
pub open spec fn spaced(words: Seq<Seq<char>>, gap: Seq<char>) -> Seq<char>
    decreases words.len(),
{
    if words.len() == 0 {
        seq![]
    } else if words.len() == 1 {
        words[0]
    } else {
        words[0] + gap + spaced(words.skip(1), gap)
    }
}

proof fn lemma_next_break(s: Seq<char>, i: int, k: int)
    requires
        0 <= i <= k <= s.len(),
        forall|j: int| i <= j < k ==> !is_break(#[trigger] s[j]),
        k < s.len() ==> is_break(s[k]),
    ensures
        next_break(s, i) == k,
    decreases k - i,
{
    if i < k {
        lemma_next_break(s, i + 1, k);
    }
}

/// Nothing is no numeral.
proof fn lemma_empty_is_no_number()
    ensures
        !is_number(Seq::<char>::empty()),
{
    reveal_strlit("inf");
    reveal_strlit("infinity");
    reveal_strlit("nan");
    let e = Seq::<char>::empty();
    assert(crate::text::ascii_lower(e).len() == 0);
}

proof fn lemma_numbers_behind_gap(gap: Seq<char>, rest: Seq<char>)
    requires
        forall|i: int| 0 <= i < gap.len() ==> is_break(#[trigger] gap[i]),
    ensures
        numbers_of(gap + rest) == numbers_of(rest),
    decreases gap.len(),
{
    let s = gap + rest;
    if gap.len() == 0 {
        assert(s =~= rest);
    } else {
        assert(s[0] == gap[0]);
        lemma_next_break(s, 0, 0);
        lemma_empty_is_no_number();
        assert(s.take(0) =~= Seq::<char>::empty());
        assert(s.skip(1) =~= gap.skip(1) + rest);
        lemma_numbers_behind_gap(gap.skip(1), rest);
        assert(Seq::<Seq<char>>::empty() + numbers_of(s.skip(1)) =~= numbers_of(s.skip(1)));
    }
}

proof fn lemma_numbers_word(word: Seq<char>, gap: Seq<char>, rest: Seq<char>)
    requires
        is_plain(word),
        is_gap(gap),
    ensures
        numbers_of(word) == seq![word],
        numbers_of(word + gap + rest) == seq![word] + numbers_of(rest),
{
    lemma_next_break(word, 0, word.len() as int);
    assert(word.take(word.len() as int) =~= word);
    assert(strip_start(word, '+') == word);
    let s = word + gap + rest;
    let n = word.len() as int;
    assert forall|j: int| 0 <= j < n implies !is_break(#[trigger] s[j]) by {
        assert(s[j] == word[j]);
    }
    assert(s[n] == gap[0]);
    lemma_next_break(s, 0, n);
    assert(s.take(n) =~= word);
    assert(s.skip(n + 1) =~= gap.skip(1) + rest);
    lemma_numbers_behind_gap(gap.skip(1), rest);
}

/// Numerals are read back: all of them, in order, whatever stands between them.
pub proof fn law_numbers_are_read_back(words: Seq<Seq<char>>, gap: Seq<char>)
    requires
        is_gap(gap),
        forall|i: int| 0 <= i < words.len() ==> is_plain(#[trigger] words[i]),
    ensures
        numbers_of(spaced(words, gap)) == words,
    decreases words.len(),
{
    if words.len() == 0 {
        lemma_next_break(Seq::<char>::empty(), 0, 0);
        lemma_empty_is_no_number();
        assert(Seq::<char>::empty().take(0) =~= Seq::<char>::empty());
        assert(numbers_of(spaced(words, gap)) =~= words);
    } else if words.len() == 1 {
        lemma_numbers_word(words[0], gap, seq![]);
        assert(seq![words[0]] =~= words);
    } else {
        law_numbers_are_read_back(words.skip(1), gap);
        lemma_numbers_word(words[0], gap, spaced(words.skip(1), gap));
        assert(seq![words[0]] + words.skip(1) =~= words);
    }
}

// ---------------------------------------------------------------------------------------------
// Colour tables
// ---------------------------------------------------------------------------------------------

/// A numeral as the lines of a table begin with: a digit, a minus sign or a point comes first.
pub open spec fn begins_an_entry(s: Seq<char>) -> bool {
    is_plain(s) && (is_digit(s[0]) || s[0] == '-' || s[0] == '.')
}

/// Three numerals as a line of a table.
pub open spec fn is_entry(t: TripleView) -> bool {
    begins_an_entry(t.0) && is_plain(t.1) && is_plain(t.2)
}

/// White space within a line.
pub open spec fn is_blank(gap: Seq<char>) -> bool {
    is_gap(gap) && !gap.contains('\n') && !gap.contains(',')
}

/// A line with red, green and blue.
pub open spec fn entry_line(t: TripleView, gap: Seq<char>) -> Seq<char> {
    t.0 + gap + t.1 + gap + t.2
}

/// The lines of a table, one for each entry.
pub open spec fn table_text(table: Seq<TripleView>, gap: Seq<char>) -> Seq<char>
    decreases table.len(),
{
    if table.len() == 0 {
        seq![]
    } else {
        entry_line(table[0], gap) + seq!['\n'] + table_text(table.skip(1), gap)
    }
}

proof fn lemma_next_char(s: Seq<char>, c: char, i: int, k: int)
    requires
        0 <= i <= k <= s.len(),
        forall|j: int| i <= j < k ==> #[trigger] s[j] != c,
        k < s.len() ==> s[k] == c,
    ensures
        next_char(s, c, i) == k,
    decreases k - i,
{
    if i < k {
        lemma_next_char(s, c, i + 1, k);
    }
}

/// The lines of a text are taken one after the other.
proof fn lemma_cube_line_by_line(line: Seq<char>, rest: Seq<char>, st: CubeState)
    requires
        !line.contains('\n'),
        cube_line(line, st) is Ok,
    ensures
        cube_lines(line + seq!['\n'] + rest, st) == cube_lines(rest, cube_line(line, st)->Ok_0),
{
    let s = line + seq!['\n'] + rest;
    let n = line.len() as int;
    assert forall|j: int| 0 <= j < n implies #[trigger] s[j] != '\n' by {
        assert(s[j] == line[j]);
        assert(line.contains(line[j]));
    }
    assert(s[n] == '\n');
    lemma_next_char(s, '\n', 0, n);
    assert(s.take(n) =~= line);
    assert(s.skip(n + 1) =~= rest);
}

/// A text that neither begins nor ends with white space is left as it is.
proof fn lemma_trim_tight(s: Seq<char>)
    requires
        s.len() > 0,
        !is_space(s[0]),
        !is_space(s.last()),
    ensures
        trim(s) == s,
        trim_start(s) == s,
{
}

proof fn lemma_word_end(s: Seq<char>, i: int, k: int)
    requires
        0 <= i <= k <= s.len(),
        forall|j: int| i <= j < k ==> !is_space(#[trigger] s[j]),
        k < s.len() ==> is_space(s[k]),
    ensures
        word_end(s, i) == k,
    decreases k - i,
{
    if i < k {
        lemma_word_end(s, i + 1, k);
    }
}

/// What the words that begin the other lines hold.
proof fn lemma_keywords(word: Seq<char>)
    requires
        word.len() > 0,
        is_digit(word[0]) || word[0] == '-' || word[0] == '.',
    ensures
        word != "TITLE"@,
        word != "LUT_3D_SIZE"@,
        word != "LUT_1D_SIZE"@,
        word != "DOMAIN_MIN"@,
        word != "DOMAIN_MAX"@,
{
    reveal_strlit("TITLE");
    reveal_strlit("LUT_3D_SIZE");
    reveal_strlit("LUT_1D_SIZE");
    reveal_strlit("DOMAIN_MIN");
    reveal_strlit("DOMAIN_MAX");
}

proof fn lemma_three_numbers(t: TripleView, gap: Seq<char>)
    requires
        is_plain(t.0),
        is_plain(t.1),
        is_plain(t.2),
        is_gap(gap),
    ensures
        numbers_of(entry_line(t, gap)) == seq![t.0, t.1, t.2],
{
    let words = seq![t.0, t.1, t.2];
    law_numbers_are_read_back(words, gap);
    assert(words.skip(1) =~= seq![t.1, t.2]);
    assert(words.skip(1).skip(1) =~= seq![t.2]);
    assert(spaced(words.skip(1).skip(1), gap) == t.2);
    assert(spaced(words.skip(1), gap) == t.1 + gap + t.2);
    assert(spaced(words, gap) =~= entry_line(t, gap));
}

/// A line of three numerals adds one entry: its red is the first of them, its green the second and its blue
/// the third. Nothing else changes.
pub proof fn law_line_is_an_entry(t: TripleView, gap: Seq<char>, st: CubeState)
    requires
        is_entry(t),
        is_blank(gap),
    ensures
        cube_line(entry_line(t, gap), st) matches Ok(next) && {
            &&& next.data.len() == st.data.len() + 1
            &&& next.data.last().0.0 == t.0
            &&& next.data.last().0.1 == t.1
            &&& next.data.last().0.2 == t.2
            &&& next.data.last().1 == st.min
            &&& next.data.last().2 == st.max
            &&& next.data.drop_last() == st.data
            &&& next.size == st.size
            &&& next.title == st.title
            &&& next.min == st.min
            &&& next.max == st.max
        },
{
    let line = entry_line(t, gap);
    assert(line[0] == t.0[0]);
    assert(line.last() == t.2.last());
    assert(t.2[t.2.len() - 1] == t.2.last());
    lemma_trim_tight(line);
    let n = t.0.len() as int;
    assert forall|j: int| 0 <= j < n implies !is_space(#[trigger] line[j]) by {
        assert(line[j] == t.0[j]);
    }
    assert(line[n] == gap[0]);
    assert(gap.contains(gap[0]));
    lemma_word_end(line, 0, n);
    assert(first_word(line) =~= t.0);
    lemma_keywords(t.0);
    lemma_three_numbers(t, gap);
    let next = cube_line(line, st)->Ok_0;
    assert(next.data.drop_last() =~= st.data);
}

/// The lines of a table add its entries, in order.
proof fn lemma_table_is_read(table: Seq<TripleView>, gap: Seq<char>, st: CubeState)
    requires
        is_blank(gap),
        forall|i: int| 0 <= i < table.len() ==> is_entry(#[trigger] table[i]),
    ensures
        cube_lines(table_text(table, gap), st) == Ok::<CubeState, Seq<char>>(
            CubeState {
                data: st.data + table.map_values(|t: TripleView| (t, st.min, st.max)),
                ..st
            },
        ),
    decreases table.len(),
{
    let added = table.map_values(|t: TripleView| (t, st.min, st.max));
    if table.len() == 0 {
        let e = Seq::<char>::empty();
        assert(e.take(0) =~= e);
        assert(trim(e) =~= e);
        assert(st.data + added =~= st.data);
    } else {
        let line = entry_line(table[0], gap);
        law_line_is_an_entry(table[0], gap, st);
        lemma_entry_has_no_line_end(table[0], gap);
        lemma_cube_line_by_line(line, table_text(table.skip(1), gap), st);
        let next = cube_line(line, st)->Ok_0;
        assert(next.data =~= st.data.push((table[0], st.min, st.max)));
        lemma_table_is_read(table.skip(1), gap, next);
        assert(next.data + table.skip(1).map_values(|t: TripleView| (t, st.min, st.max)) =~= st.data + added);
    }
}

proof fn lemma_entry_has_no_line_end(t: TripleView, gap: Seq<char>)
    requires
        is_plain(t.0),
        is_plain(t.1),
        is_plain(t.2),
        is_blank(gap),
    ensures
        !entry_line(t, gap).contains('\n'),
{
    let line = entry_line(t, gap);
    assert(is_space('\n'));
    let (a, b) = (t.0 + gap, t.0 + gap + t.1);
    assert forall|j: int| 0 <= j < line.len() implies #[trigger] line[j] != '\n' by {
        let n = gap.len() as int;
        if j < t.0.len() {
            assert(line[j] == t.0[j]);
        } else if j < a.len() {
            assert(line[j] == gap[j - t.0.len()]);
            assert(gap.contains(gap[j - t.0.len()]));
        } else if j < b.len() {
            assert(line[j] == t.1[j - a.len()]);
        } else if j < b.len() + n {
            assert(line[j] == gap[j - b.len()]);
            assert(gap.contains(gap[j - b.len()]));
        } else {
            assert(line[j] == t.2[j - b.len() - n]);
        }
    }
}

/// A word and what is said of it, with a blank between.
pub open spec fn keyword_line(word: Seq<char>, said: Seq<char>) -> Seq<char> {
    word + seq![' '] + said
}

/// A title that can be written between quotes on a line.
pub open spec fn is_title(t: Seq<char>) -> bool {
    &&& t.len() > 0
    &&& !t.contains('\n')
    &&& t[0] != '"'
    &&& t.last() != '"'
}

/// A `.cube` file: the title, the size, the domain, and the entries, a line each.
pub open spec fn cube_text(
    title: Seq<char>,
    size: nat,
    min: TripleView,
    max: TripleView,
    table: Seq<TripleView>,
    gap: Seq<char>,
) -> Seq<char> {
    keyword_line("TITLE"@, seq!['"'] + title + seq!['"']) + seq!['\n'] + (keyword_line(
        "LUT_3D_SIZE"@,
        decimal(size),
    ) + seq!['\n'] + (keyword_line("DOMAIN_MIN"@, entry_line(min, gap)) + seq!['\n'] + (keyword_line(
        "DOMAIN_MAX"@,
        entry_line(max, gap),
    ) + seq!['\n'] + table_text(table, gap))))
}

proof fn lemma_keyword_line(word: Seq<char>, said: Seq<char>)
    requires
        word.len() > 0,
        forall|j: int| 0 <= j < word.len() ==> !is_space(#[trigger] word[j]),
        said.len() > 0,
        !is_space(said[0]),
        !is_space(said.last()),
    ensures
        ({
            let line = keyword_line(word, said);
            &&& trim(line) == line
            &&& line.len() > 0
            &&& line[0] == word[0]
            &&& first_word(line) == word
            &&& behind_word(line) == seq![' '] + said
            &&& trim(seq![' '] + said) == said
            &&& trim_start(seq![' '] + said) == said
        }),
{
    let line = keyword_line(word, said);
    assert(line[0] == word[0]);
    assert(line.last() == said.last());
    lemma_trim_tight(line);
    let n = word.len() as int;
    assert forall|j: int| 0 <= j < n implies !is_space(#[trigger] line[j]) by {
        assert(line[j] == word[j]);
    }
    assert(line[n] == ' ');
    assert(is_space(' '));
    lemma_word_end(line, 0, n);
    assert(line.take(n) =~= word);
    assert(line.skip(n) =~= seq![' '] + said);
    let after = seq![' '] + said;
    assert(after[0] == ' ');
    assert(after.skip(1) =~= said);
    assert(trim_start(after) == trim_start(said));
    lemma_trim_tight(said);
}

/// A title is read back.
pub proof fn law_title_is_read_back(title: Seq<char>, st: CubeState)
    requires
        is_title(title),
    ensures
        cube_line(keyword_line("TITLE"@, seq!['"'] + title + seq!['"']), st) == Ok::<CubeState, Seq<char>>(
            CubeState { title: Some(title), ..st },
        ),
{
    reveal_strlit("TITLE");
    let said = seq!['"'] + title + seq!['"'];
    assert(said[0] == '"' && said.last() == '"');
    lemma_keyword_line("TITLE"@, said);
    let open = title + seq!['"'];
    assert(said.skip(1) =~= open);
    assert(open[0] == title[0]);
    assert(strip_start(said, '"') == strip_start(open, '"'));
    assert(strip_start(open, '"') == open);
    assert(open.last() == '"');
    assert(open.drop_last() =~= title);
    assert(strip_end(open, '"') == strip_end(title, '"'));
    assert(strip_end(title, '"') == title);
}

/// The size of a table is read back.
pub proof fn law_size_is_read_back(size: nat, st: CubeState)
    requires
        size <= u32::MAX,
    ensures
        cube_line(keyword_line("LUT_3D_SIZE"@, decimal(size)), st) == Ok::<CubeState, Seq<char>>(
            CubeState { size, ..st },
        ),
{
    reveal_strlit("TITLE");
    reveal_strlit("LUT_3D_SIZE");
    let said = decimal(size);
    lemma_decimal_round_trip(size);
    assert(is_digit(said[0]) && is_digit(said[said.len() - 1]));
    assert("TITLE"@[0] != "LUT_3D_SIZE"@[0]);
    lemma_keyword_line("LUT_3D_SIZE"@, said);
    lemma_word_end(said, 0, said.len() as int);
    assert(first_word(said) =~= said);
    law_decimal_is_read_back(size, u32::MAX as nat);
}

/// The bounds of a domain are read back: red, green and blue in that order, the lower ones as the lower ones.
pub proof fn law_domain_is_read_back(t: TripleView, gap: Seq<char>, st: CubeState)
    requires
        is_plain(t.0),
        is_plain(t.1),
        is_plain(t.2),
        is_blank(gap),
    ensures
        cube_line(keyword_line("DOMAIN_MIN"@, entry_line(t, gap)), st) == Ok::<CubeState, Seq<char>>(
            CubeState { min: (t.0, t.1, t.2), ..st },
        ),
        cube_line(keyword_line("DOMAIN_MAX"@, entry_line(t, gap)), st) == Ok::<CubeState, Seq<char>>(
            CubeState { max: (t.0, t.1, t.2), ..st },
        ),
{
    reveal_strlit("TITLE");
    reveal_strlit("LUT_3D_SIZE");
    reveal_strlit("LUT_1D_SIZE");
    reveal_strlit("DOMAIN_MIN");
    reveal_strlit("DOMAIN_MAX");
    let (lower, upper) = ("DOMAIN_MIN"@, "DOMAIN_MAX"@);
    assert(lower[0] == 'D' && upper[0] == 'D' && lower[8] != upper[8]);
    assert("TITLE"@[0] != 'D' && "LUT_3D_SIZE"@[0] != 'D' && "LUT_1D_SIZE"@[0] != 'D');
    let said = entry_line(t, gap);
    assert(said[0] == t.0[0]);
    assert(said.last() == t.2[t.2.len() - 1]);
    lemma_keyword_line(lower, said);
    lemma_keyword_line(upper, said);
    lemma_three_numbers(t, gap);
    lemma_numbers_behind_gap(seq![' '], said);
}

/// A colour table is read back: whatever is written line by line as red, green and blue is the table that
/// `lut` holds, where `lut` is what reading the file gives; and so are the title, the size and the domain.
pub proof fn law_cube_is_read_back(
    title: Seq<char>,
    size: nat,
    min: TripleView,
    max: TripleView,
    table: Seq<TripleView>,
    gap: Seq<char>,
    lut: Lut3d,
    i: int,
)
    requires
        is_title(title),
        2 <= size <= u32::MAX,
        is_plain(min.0) && is_plain(min.1) && is_plain(min.2),
        is_plain(max.0) && is_plain(max.1) && is_plain(max.2),
        table.len() == size * size * size,
        forall|k: int| 0 <= k < table.len() ==> is_entry(#[trigger] table[k]),
        is_blank(gap),
        cube_of(cube_text(title, size, min, max, table, gap)) matches Ok(st) ==> lut.entries() == st.data,
        0 <= i < table.len(),
    ensures
        cube_of(cube_text(title, size, min, max, table, gap)) matches Ok(st) && st.title == Some(title)
            && st.size == size && st.data.len() == table.len(),
        ({
            let e = lut.data@[i];
            let d = lut.domains@[e.domain as int];
            &&& lut.data@.len() == table.len()
            &&& e.value.r@ == table[i].0 && e.value.g@ == table[i].1 && e.value.b@ == table[i].2
            &&& d.min.r@ == min.0 && d.min.g@ == min.1 && d.min.b@ == min.2
            &&& d.max.r@ == max.0 && d.max.g@ == max.1 && d.max.b@ == max.2
        }),
{
    let titled = keyword_line("TITLE"@, seq!['"'] + title + seq!['"']);
    let sized = keyword_line("LUT_3D_SIZE"@, decimal(size));
    let lower = keyword_line("DOMAIN_MIN"@, entry_line(min, gap));
    let upper = keyword_line("DOMAIN_MAX"@, entry_line(max, gap));
    let d = table_text(table, gap);
    let c = upper + seq!['\n'] + d;
    let b = lower + seq!['\n'] + c;
    let a = sized + seq!['\n'] + b;
    let s0 = cube_start();
    let s1 = CubeState { title: Some(title), ..s0 };
    let s2 = CubeState { size, ..s1 };
    let s3 = CubeState { min, ..s2 };
    let s4 = CubeState { max, ..s3 };
    law_title_is_read_back(title, s0);
    law_size_is_read_back(size, s1);
    law_domain_is_read_back(min, gap, s2);
    law_domain_is_read_back(max, gap, s3);
    lemma_headers_have_no_line_end(title, size, min, max, gap);
    lemma_cube_line_by_line(titled, a, s0);
    lemma_cube_line_by_line(sized, b, s1);
    lemma_cube_line_by_line(lower, c, s2);
    lemma_cube_line_by_line(upper, d, s3);
    lemma_table_is_read(table, gap, s4);
    let data = table.map_values(|t: TripleView| (t, min, max));
    assert(s0.data + data =~= data);
    let st = cube_of(cube_text(title, size, min, max, table, gap))->Ok_0;
    assert(st.data == data);
    assert(lut.entries()[i] == data[i]);
    assert(lut.entries().len() == lut.data@.len());
}

proof fn lemma_headers_have_no_line_end(
    title: Seq<char>,
    size: nat,
    min: TripleView,
    max: TripleView,
    gap: Seq<char>,
)
    requires
        is_title(title),
        is_plain(min.0) && is_plain(min.1) && is_plain(min.2),
        is_plain(max.0) && is_plain(max.1) && is_plain(max.2),
        is_blank(gap),
    ensures
        !keyword_line("TITLE"@, seq!['"'] + title + seq!['"']).contains('\n'),
        !keyword_line("LUT_3D_SIZE"@, decimal(size)).contains('\n'),
        !keyword_line("DOMAIN_MIN"@, entry_line(min, gap)).contains('\n'),
        !keyword_line("DOMAIN_MAX"@, entry_line(max, gap)).contains('\n'),
{
    reveal_strlit("TITLE");
    reveal_strlit("LUT_3D_SIZE");
    reveal_strlit("DOMAIN_MIN");
    reveal_strlit("DOMAIN_MAX");
    lemma_decimal_round_trip(size);
    lemma_entry_has_no_line_end(min, gap);
    lemma_entry_has_no_line_end(max, gap);
    let said = seq!['"'] + title + seq!['"'];
    assert forall|j: int| 0 <= j < said.len() implies #[trigger] said[j] != '\n' by {
        if 0 < j < said.len() - 1 {
            assert(said[j] == title[j - 1]);
            assert(title.contains(title[j - 1]));
        }
    }
    lemma_no_line_end("TITLE"@, said);
    lemma_no_line_end("LUT_3D_SIZE"@, decimal(size));
    lemma_no_line_end("DOMAIN_MIN"@, entry_line(min, gap));
    lemma_no_line_end("DOMAIN_MAX"@, entry_line(max, gap));
}

proof fn lemma_no_line_end(word: Seq<char>, said: Seq<char>)
    requires
        !word.contains('\n'),
        !said.contains('\n'),
    ensures
        !keyword_line(word, said).contains('\n'),
{
    let line = keyword_line(word, said);
    assert forall|j: int| 0 <= j < line.len() implies #[trigger] line[j] != '\n' by {
        if j < word.len() {
            assert(word.contains(word[j]));
        } else if j > word.len() {
            assert(line[j] == said[j - word.len() - 1]);
            assert(said.contains(said[j - word.len() - 1]));
        }
    }
}

// ---------------------------------------------------------------------------------------------
// Searching
// ---------------------------------------------------------------------------------------------

/// Where a pattern does not begin before the end of `pre`, it is found in what follows.
proof fn lemma_find_behind(pre: Seq<char>, rest: Seq<char>, p: Seq<char>)
    requires
        p.len() > 0,
        forall|j: int| 0 <= j < pre.len() ==> !#[trigger] occurs_at(pre + rest, p, j),
    ensures
        find(pre + rest, p) == match find(rest, p) {
            Some(i) => Some(i + pre.len()),
            None => None,
        },
{
    let s = pre + rest;
    let n = pre.len() as int;
    lemma_find_from(s, p, 0);
    lemma_find_from(rest, p, 0);
    assert forall|i: int| 0 <= i implies #[trigger] occurs_at(rest, p, i) == occurs_at(s, p, n + i) by {
        if i + p.len() <= rest.len() {
            assert(s.subrange(n + i, n + i + p.len()) =~= rest.subrange(i, i + p.len()));
        }
    }
    match find(s, p) {
        Some(k) => {
            assert(k >= n);
            assert(occurs_at(rest, p, k - n));
            let i = find(rest, p)->0;
            assert(occurs_at(s, p, n + i));
            if i < k - n {
                assert(!occurs_at(s, p, n + i));
            }
        },
        None => {
            if let Some(i) = find(rest, p) {
                assert(occurs_at(s, p, n + i));
            }
        },
    }
}

/// What a pattern that begins a text is found at.
proof fn lemma_find_here(p: Seq<char>, rest: Seq<char>)
    ensures
        find(p + rest, p) == Some(0int),
{
    let s = p + rest;
    assert(s.subrange(0, p.len() as int) =~= p);
    assert(occurs_at(s, p, 0));
}

// ---------------------------------------------------------------------------------------------
// XMP
// ---------------------------------------------------------------------------------------------

/// Escaped text holds none of the characters that end it, and begins and ends with white space only where
/// the text does.
proof fn lemma_escaped(s: Seq<char>)
    ensures
        forall|j: int|
            0 <= j < escaped(s).len() ==> #[trigger] escaped(s)[j] != '<' && escaped(s)[j] != '>' && escaped(
                s,
            )[j] != '"',
        s.len() > 0 ==> escaped(s).len() > 0,
        s.len() > 0 && !is_space(s[0]) ==> !is_space(escaped(s)[0]),
        s.len() > 0 && !is_space(s.last()) ==> !is_space(escaped(s).last()),
        s.len() == 0 ==> escaped(s).len() == 0,
    decreases s.len(),
{
    if s.len() > 0 {
        let rest = s.skip(1);
        lemma_escaped(rest);
        let head = escaped_char(s[0], 0);
        assert(escaped(s) == head + escaped(rest));
        assert(special().skip(0) =~= special());
        assert(special()[0] == '<' && special()[1] == '>' && special()[2] == '"' && special()[3] == '\''
            && special()[4] == '&');
        assert(special().contains('<') && special().contains('>') && special().contains('"')) by {
            assert(special()[0] == '<' && special()[1] == '>' && special()[2] == '"');
        }
        assert(!is_space('&') && !is_space(';'));
        assert forall|j: int| 0 <= j < escaped(s).len() implies #[trigger] escaped(s)[j] != '<' && escaped(
            s,
        )[j] != '>' && escaped(s)[j] != '"' by {
            if j < head.len() {
                assert(escaped(s)[j] == head[j]);
            } else {
                assert(escaped(s)[j] == escaped(rest)[j - head.len()]);
            }
        }
        assert(escaped(s)[0] == head[0]);
        if rest.len() > 0 {
            assert(rest.last() == s.last());
            assert(escaped(s).last() == escaped(rest).last());
        } else {
            assert(escaped(s).last() == head.last());
            assert(s.last() == s[0]);
        }
    }
}

/// A text that neither begins nor ends with white space.
pub open spec fn is_tight(s: Seq<char>) -> bool {
    s.len() > 0 ==> !is_space(s[0]) && !is_space(s.last())
}

/// Reading an escaped text gives the text.
proof fn lemma_escaped_is_read(s: Seq<char>)
    requires
        is_tight(s),
    ensures
        unescaped(escaped(s)) == s,
        unescaped(trim(escaped(s))) == s,
{
    law_unescaping_undoes_escaping(s);
    lemma_escaped(s);
    if s.len() > 0 {
        lemma_trim_tight(escaped(s));
    }
}

/// A list item with attributes.
pub open spec fn item_text(attributes: Seq<char>, item: Seq<char>) -> Seq<char> {
    "<rdf:li"@ + attributes + ">"@ + escaped(item) + "</rdf:li>"@
}

/// List items, one after the other.
pub open spec fn items_text(attributes: Seq<char>, items: Seq<Seq<char>>) -> Seq<char>
    decreases items.len(),
{
    if items.len() == 0 {
        seq![]
    } else {
        item_text(attributes, items[0]) + items_text(attributes, items.skip(1))
    }
}

/// Text in which no list item begins is passed over.
proof fn lemma_items_behind(pre: Seq<char>, rest: Seq<char>)
    requires
        forall|j: int| 0 <= j < pre.len() ==> !#[trigger] occurs_at(pre + rest, "<rdf:li"@, j),
    ensures
        li_items_of(pre + rest) == li_items_of(rest),
{
    lemma_item_tags();
    lemma_find_behind(pre, rest, "<rdf:li"@);
    lemma_find_from(rest, "<rdf:li"@, 0);
    if let Some(i) = find(rest, "<rdf:li"@) {
        assert((pre + rest).skip(i + pre.len()) =~= rest.skip(i));
    }
    assert(li_first(pre + rest) == li_first(rest));
}

/// What the tags of a list item begin with.
proof fn lemma_item_tags()
    ensures
        "<rdf:li"@.len() == 7,
        "<rdf:li"@[0] == '<',
        "<rdf:li"@[1] == 'r',
        forall|j: int| 0 <= j < 7 ==> "<rdf:li"@[j] != '>',
        "</rdf:li>"@.len() == 9,
        "</rdf:li>"@[0] == '<',
        "</rdf:li>"@[1] == '/',
        forall|j: int| 0 < j < 9 ==> "</rdf:li>"@[j] != '<',
        ">"@.len() == 1,
        ">"@[0] == '>',
{
    reveal_strlit("<rdf:li");
    reveal_strlit("</rdf:li>");
    reveal_strlit(">");
}

/// No list item begins in an end tag.
proof fn lemma_end_tag_is_no_item(rest: Seq<char>)
    ensures
        li_items_of("</rdf:li>"@ + rest) == li_items_of(rest),
{
    lemma_item_tags();
    let close = "</rdf:li>"@;
    let left = close + rest;
    assert forall|j: int| 0 <= j < close.len() implies !#[trigger] occurs_at(left, "<rdf:li"@, j) by {
        if occurs_at(left, "<rdf:li"@, j) {
            let here = left.subrange(j, j + 7);
            assert(here[0] == left[j] && here[1] == left[j + 1]);
            assert(left[j] == close[j]);
            if j == 0 {
                assert(left[1] == close[1]);
            }
        }
    }
    lemma_items_behind(close, rest);
}

/// Escaped text goes on to the next tag.
proof fn lemma_find_end_tag(item: Seq<char>, close: Seq<char>, rest: Seq<char>)
    requires
        close.len() > 0,
        close[0] == '<',
    ensures
        find(escaped(item) + (close + rest), close) == Some(escaped(item).len() as int),
{
    lemma_escaped(item);
    let e = escaped(item);
    let body = e + (close + rest);
    assert forall|j: int| 0 <= j < e.len() implies !#[trigger] occurs_at(body, close, j) by {
        if occurs_at(body, close, j) {
            assert(body.subrange(j, j + close.len())[0] == body[j]);
            assert(body[j] == e[j]);
        }
    }
    lemma_find_behind(e, close + rest, close);
    lemma_find_here(close, rest);
}

/// The end of a start tag.
proof fn lemma_start_tag_ends(attributes: Seq<char>, rest: Seq<char>)
    requires
        !attributes.contains('>'),
    ensures
        ({
            let s = "<rdf:li"@ + attributes + ">"@ + rest;
            &&& find(s, "<rdf:li"@) == Some(0int)
            &&& next_char(s, '>', 0) == 7 + attributes.len()
            &&& s.skip(8 + attributes.len() as int) == rest
        }),
{
    lemma_item_tags();
    let s = "<rdf:li"@ + attributes + ">"@ + rest;
    assert(s =~= "<rdf:li"@ + (attributes + ">"@ + rest));
    lemma_find_here("<rdf:li"@, attributes + ">"@ + rest);
    let n = 7 + attributes.len() as int;
    assert forall|j: int| 0 <= j < n implies #[trigger] s[j] != '>' by {
        if j < 7 {
            assert(s[j] == "<rdf:li"@[j]);
        } else {
            assert(s[j] == attributes[j - 7]);
            assert(attributes.contains(attributes[j - 7]));
        }
    }
    assert(s[n] == '>');
    lemma_next_char(s, '>', 0, n);
    assert(s.skip(n + 1) =~= rest);
}

/// The first list item is read, and the others are left.
proof fn lemma_item_is_read(attributes: Seq<char>, item: Seq<char>, rest: Seq<char>)
    requires
        !attributes.contains('>'),
        is_tight(item),
    ensures
        li_items_of(item_text(attributes, item) + rest) == seq![item] + li_items_of(rest),
{
    lemma_escaped_is_read(item);
    let e = escaped(item);
    let close = "</rdf:li>"@;
    let body = e + (close + rest);
    let s = item_text(attributes, item) + rest;
    assert(s =~= "<rdf:li"@ + attributes + ">"@ + body);
    lemma_start_tag_ends(attributes, body);
    assert(s.skip(0) =~= s);
    lemma_item_tags();
    lemma_find_end_tag(item, close, rest);
    assert(body.take(e.len() as int) =~= e);
    assert(body.skip(e.len() as int) =~= close + rest);
    assert(li_first(s) == Some((e, close + rest)));
    lemma_end_tag_is_no_item(rest);
}

/// List items are read back: all of them, in order.
pub proof fn law_items_are_read_back(attributes: Seq<char>, items: Seq<Seq<char>>, rest: Seq<char>)
    requires
        !attributes.contains('>'),
        forall|i: int| 0 <= i < items.len() ==> is_tight(#[trigger] items[i]),
        find(rest, "<rdf:li"@) is None,
    ensures
        li_items_of(items_text(attributes, items) + rest) == items,
    decreases items.len(),
{
    if items.len() == 0 {
        assert(items_text(attributes, items) + rest =~= rest);
        assert(li_items_of(rest) =~= items);
    } else {
        let more = items_text(attributes, items.skip(1));
        law_items_are_read_back(attributes, items.skip(1), rest);
        lemma_item_is_read(attributes, items[0], more + rest);
        assert(items_text(attributes, items) + rest =~= item_text(attributes, items[0]) + (more + rest));
        assert(seq![items[0]] + items.skip(1) =~= items);
    }
}

/// What the texts round the settings hold.
proof fn lemma_marks()
    ensures
        "crs:"@ == seq!['c', 'r', 's', ':'],
        "</crs:"@.len() == 6,
        "</crs:"@[0] == '<' && "</crs:"@[1] == '/' && "</crs:"@[2] == 'c',
        "</crs:"@.skip(2) == "crs:"@,
        ">"@ == seq!['>'],
        "=\""@ == seq!['=', '"'],
{
    reveal_strlit("crs:");
    reveal_strlit("</crs:");
    reveal_strlit(">");
    reveal_strlit("=\"");
    assert("crs:"@ =~= seq!['c', 'r', 's', ':']);
    assert("</crs:"@.skip(2) =~= "crs:"@);
    assert(">"@ =~= seq!['>']);
    assert("=\""@ =~= seq!['=', '"']);
}

/// Text in which no setting begins is passed over.
proof fn lemma_settings_behind(pre: Seq<char>, rest: Seq<char>, acc: Found)
    requires
        forall|j: int| 0 <= j < pre.len() ==> !#[trigger] occurs_at(pre + rest, "crs:"@, j),
        pre.len() > 0,
        pre.last() != '<',
    ensures
        xmp_from(pre + rest, acc) == xmp_from(rest, acc),
{
    lemma_marks();
    let s = pre + rest;
    lemma_find_behind(pre, rest, "crs:"@);
    lemma_find_from(rest, "crs:"@, 0);
    if let Some(i) = find(rest, "crs:"@) {
        let n = pre.len() as int;
        assert(s.skip(i + n + 4) =~= rest.skip(i + 4));
        if i > 0 {
            assert(s[i + n - 1] == rest[i - 1]);
        } else {
            assert(s[n - 1] == pre.last());
        }
    }
    assert(xmp_next(s, acc) == xmp_next(rest, acc));
}

/// The name of a setting.
pub open spec fn is_key(key: Seq<char>) -> bool {
    key.len() > 0 && forall|i: int| 0 <= i < key.len() ==> is_name_char(#[trigger] key[i])
}

proof fn lemma_name_end(s: Seq<char>, i: int, k: int)
    requires
        0 <= i <= k <= s.len(),
        forall|j: int| i <= j < k ==> is_name_char(#[trigger] s[j]),
        k < s.len() ==> !is_name_char(s[k]),
    ensures
        name_end(s, i) == k,
    decreases k - i,
{
    if i < k {
        lemma_name_end(s, i + 1, k);
    }
}

/// The name of a setting is read up to what follows it.
proof fn lemma_key_is_read(key: Seq<char>, rest: Seq<char>)
    requires
        is_key(key),
        rest.len() > 0,
        !is_name_char(rest[0]),
    ensures
        name_end(key + rest, 0) == key.len(),
        (key + rest).take(key.len() as int) == key,
        (key + rest).skip(key.len() as int) == rest,
{
    let s = key + rest;
    let n = key.len() as int;
    assert forall|j: int| 0 <= j < n implies is_name_char(#[trigger] s[j]) by {
        assert(s[j] == key[j]);
    }
    assert(s[n] == rest[0]);
    lemma_name_end(s, 0, n);
    assert(s.take(n) =~= key);
    assert(s.skip(n) =~= rest);
}

/// No setting begins in the name of one, and in the mark behind it.
proof fn lemma_key_holds_no_setting(key: Seq<char>, mark: char, rest: Seq<char>, j: int)
    requires
        is_key(key),
        mark == '>' || mark == '=',
        0 <= j <= key.len(),
    ensures
        !occurs_at(key + seq![mark] + rest, "crs:"@, j),
{
    lemma_marks();
    let s = key + seq![mark] + rest;
    if occurs_at(s, "crs:"@, j) {
        let here = s.subrange(j, j + 4);
        assert(here[0] == s[j] && here[1] == s[j + 1] && here[2] == s[j + 2] && here[3] == s[j + 3]);
        let n = key.len() as int;
        assert(s[n] == mark);
        if j + 3 < n {
            assert(s[j + 3] == key[j + 3]);
            assert(is_name_char(':'));
        }
    }
}

/// The end tag of a setting.
pub open spec fn end_tag(key: Seq<char>) -> Seq<char> {
    "</crs:"@ + key + ">"@
}

/// No setting begins in the end tag of one.
proof fn lemma_end_tag_is_no_setting(key: Seq<char>, rest: Seq<char>, acc: Found)
    requires
        is_key(key),
    ensures
        xmp_from(end_tag(key) + rest, acc) == xmp_from(rest, acc),
{
    lemma_marks();
    let after = key + seq!['>'] + rest;
    let s = end_tag(key) + rest;
    let pre = seq!['<', '/'];
    assert(s =~= pre + ("crs:"@ + after));
    assert forall|j: int| 0 <= j < 2 implies !#[trigger] occurs_at(pre + ("crs:"@ + after), "crs:"@, j) by {
        let t = pre + ("crs:"@ + after);
        if occurs_at(t, "crs:"@, j) {
            assert(t.subrange(j, j + 4)[0] == t[j]);
        }
    }
    lemma_find_behind(pre, "crs:"@ + after, "crs:"@);
    lemma_find_here("crs:"@, after);
    assert(s.skip(6) =~= after);
    assert(after =~= key + (seq!['>'] + rest));
    lemma_key_is_read(key, seq!['>'] + rest);
    let tail = seq!['>'] + rest;
    assert(!begins(tail, "=\""@)) by {
        if begins(tail, "=\""@) {
            assert(tail.subrange(0, 2)[0] == tail[0]);
        }
    }
    assert(s[1] == '/');
    assert(xmp_next(s, acc) == Some((after, acc)));
    let head = key + seq!['>'];
    assert forall|j: int| 0 <= j < head.len() implies !#[trigger] occurs_at(head + rest, "crs:"@, j) by {
        lemma_key_holds_no_setting(key, '>', rest, j);
    }
    lemma_settings_behind(head, rest, acc);
}

/// No end tag of a setting begins in the text, or goes on from its end.
pub open spec fn is_calm(t: Seq<char>) -> bool {
    forall|j: int|
        0 <= j < t.len() && #[trigger] t[j] == '<' ==> j + 2 < t.len() && !(t[j + 1] == '/' && t[j + 2] == 'c')
}

proof fn lemma_calm(a: Seq<char>, b: Seq<char>)
    requires
        is_calm(a),
        is_calm(b),
    ensures
        is_calm(a + b),
{
    let s = a + b;
    assert forall|j: int| 0 <= j < s.len() && #[trigger] s[j] == '<' implies j + 2 < s.len() && !(s[j + 1] == '/'
        && s[j + 2] == 'c') by {
        if j < a.len() {
            assert(a[j] == '<');
            assert(s[j + 1] == a[j + 1] && s[j + 2] == a[j + 2]);
        } else {
            let i = j - a.len();
            assert(b[i] == '<');
            assert(s[j + 1] == b[i + 1] && s[j + 2] == b[i + 2]);
        }
    }
}

/// An element is read: everything up to its end tag belongs to it.
proof fn lemma_element_is_read(key: Seq<char>, inner: Seq<char>, rest: Seq<char>, acc: Found)
    requires
        is_key(key),
        is_calm(inner),
    ensures
        xmp_from(seq!['<'] + "crs:"@ + key + seq!['>'] + inner + end_tag(key) + rest, acc) == xmp_from(
            rest,
            with_element(acc, key, inner),
        ),
{
    lemma_marks();
    let close = end_tag(key);
    let tail = seq!['>'] + inner + (close + rest);
    let after = key + tail;
    let s = seq!['<'] + "crs:"@ + key + seq!['>'] + inner + close + rest;
    let pre = seq!['<'];
    assert(s =~= pre + ("crs:"@ + after));
    assert(!occurs_at(pre + ("crs:"@ + after), "crs:"@, 0)) by {
        let t = pre + ("crs:"@ + after);
        if occurs_at(t, "crs:"@, 0) {
            assert(t.subrange(0, 4)[0] == t[0]);
        }
    }
    lemma_find_behind(pre, "crs:"@ + after, "crs:"@);
    lemma_find_here("crs:"@, after);
    assert(s.skip(5) =~= after);
    assert(tail[0] == '>');
    lemma_key_is_read(key, tail);
    assert(!begins(tail, "=\""@)) by {
        if begins(tail, "=\""@) {
            assert(tail.subrange(0, 2)[0] == tail[0]);
        }
    }
    assert(s[0] == '<');
    lemma_element_body(key, inner, rest);
    assert(xmp_next(s, acc) == Some((close + rest, with_element(acc, key, inner))));
    lemma_end_tag_is_no_setting(key, rest, with_element(acc, key, inner));
}

proof fn lemma_element_body(key: Seq<char>, inner: Seq<char>, rest: Seq<char>)
    requires
        is_calm(inner),
    ensures
        element_body(seq!['>'] + inner + (end_tag(key) + rest), key) == Some((inner, end_tag(key) + rest)),
{
    lemma_marks();
    let close = end_tag(key);
    let head = seq!['>'] + inner;
    let tail = head + (close + rest);
    assert(close[0] == '<' && close[1] == '/' && close[2] == 'c');
    assert(tail[0] == '>');
    lemma_next_char(tail, '>', 0, 0);
    assert forall|j: int| 0 <= j < head.len() implies !#[trigger] occurs_at(tail, close, j) by {
        if occurs_at(tail, close, j) {
            let here = tail.subrange(j, j + close.len());
            assert(here[0] == tail[j] && here[1] == tail[j + 1] && here[2] == tail[j + 2]);
            if j > 0 {
                assert(inner[j - 1] == tail[j]);
                assert(inner[j] == tail[j + 1] && inner[j + 1] == tail[j + 2]);
            }
        }
    }
    lemma_find_behind(head, close + rest, close);
    lemma_find_here(close, rest);
    assert(tail.subrange(1, head.len() as int) =~= inner);
    assert(tail.skip(head.len() as int) =~= close + rest);
}

/// No setting begins in the text.
pub open spec fn is_quiet(t: Seq<char>) -> bool {
    forall|j: int| !#[trigger] occurs_at(t, "crs:"@, j)
}

/// An attribute is read: its value is what stands between the quotes.
proof fn lemma_attribute_is_read(key: Seq<char>, text: Seq<char>, rest: Seq<char>, acc: Found)
    requires
        is_key(key),
        is_quiet(escaped(text)),
    ensures
        xmp_from("crs:"@ + key + seq!['=', '"'] + escaped(text) + seq!['"', ' '] + rest, acc) == xmp_from(
            rest,
            (acc.0, acc.1.insert(key, value_of(text))),
        ),
{
    lemma_marks();
    lemma_escaped(text);
    law_unescaping_undoes_escaping(text);
    let e = escaped(text);
    let val = e + (seq!['"', ' '] + rest);
    let tail = seq!['=', '"'] + val;
    let after = key + tail;
    let s = "crs:"@ + key + seq!['=', '"'] + e + seq!['"', ' '] + rest;
    assert(s =~= "crs:"@ + after);
    lemma_find_here("crs:"@, after);
    assert(s.skip(4) =~= after);
    assert(tail[0] == '=');
    lemma_key_is_read(key, tail);
    assert(tail.subrange(0, 2) =~= "=\""@);
    assert(tail.skip(2) =~= val);
    let n = e.len() as int;
    assert forall|j: int| 0 <= j < n implies #[trigger] val[j] != '"' by {
        assert(val[j] == e[j]);
    }
    assert(val[n] == '"');
    lemma_next_char(val, '"', 0, n);
    assert(val.take(n) =~= e);
    assert(quoted_value(tail) == Some(e));
    let more = (acc.0, acc.1.insert(key, value_of(text)));
    assert(xmp_next(s, acc) == Some((after, more)));
    lemma_attribute_is_passed(key, e, rest, more);
}

proof fn lemma_attribute_is_passed(key: Seq<char>, e: Seq<char>, rest: Seq<char>, acc: Found)
    requires
        is_key(key),
        is_quiet(e),
    ensures
        xmp_from(key + (seq!['=', '"'] + (e + (seq!['"', ' '] + rest))), acc) == xmp_from(rest, acc),
{
    lemma_marks();
    let pre = key + seq!['='] + seq!['"'] + e + seq!['"', ' '];
    let s = pre + rest;
    let k = key.len() as int;
    let n = e.len() as int;
    assert(s =~= key + (seq!['=', '"'] + (e + (seq!['"', ' '] + rest))));
    assert forall|j: int| 0 <= j < pre.len() implies !#[trigger] occurs_at(s, "crs:"@, j) by {
        if j <= k {
            assert(s =~= key + seq!['='] + (seq!['"'] + e + seq!['"', ' '] + rest));
            lemma_key_holds_no_setting(key, '=', seq!['"'] + e + seq!['"', ' '] + rest, j);
        } else if occurs_at(s, "crs:"@, j) {
            let here = s.subrange(j, j + 4);
            assert(here[0] == s[j] && here[1] == s[j + 1] && here[2] == s[j + 2] && here[3] == s[j + 3]);
            assert(s[k + 1] == '"' && s[k + 2 + n] == '"' && s[k + 3 + n] == ' ');
            if j + 4 <= k + 2 + n {
                let i = j - k - 2;
                assert(e.subrange(i, i + 4) =~= here);
                assert(occurs_at(e, "crs:"@, i));
            }
        }
    }
    assert(pre.last() == ' ');
    lemma_settings_behind(pre, rest, acc);
}

/// A value that can be written as text: a numeral, or a text that is none, without white space round it.
pub open spec fn is_value(v: SettingView) -> bool {
    match v {
        SettingView::Num(n) => is_number(n) && n.len() > 0 && is_tight(n) && n[0] != '+',
        SettingView::Text(t) => is_tight(t) && !is_number(strip_start(t, '+')),
        SettingView::List(_) => false,
    }
}

/// The text of a value.
pub open spec fn value_text(v: SettingView) -> Seq<char> {
    match v {
        SettingView::Num(n) => n,
        SettingView::Text(t) => t,
        SettingView::List(_) => seq![],
    }
}

/// A value is read back from its text: numerals as numbers, other texts as texts.
pub proof fn law_value_is_read_back(v: SettingView)
    requires
        is_value(v),
    ensures
        value_of(value_text(v)) == v,
{
    let t = value_text(v);
    if t.len() > 0 {
        lemma_trim_tight(t);
    } else {
        assert(trim(t) =~= t);
    }
}

/// A plus sign before a number does not count.
pub proof fn law_plus_does_not_count(n: Seq<char>)
    requires
        is_value(SettingView::Num(n)),
    ensures
        value_of(seq!['+'] + n) == SettingView::Num(n),
{
    let t = seq!['+'] + n;
    assert(t[0] == '+' && t.last() == n.last());
    assert(!is_space('+'));
    lemma_trim_tight(t);
    assert(t.skip(1) =~= n);
    assert(strip_start(t, '+') == strip_start(n, '+'));
}

/// The numerals of all items, in order.
pub open spec fn all_words(items: Seq<Seq<Seq<char>>>) -> Seq<Seq<char>>
    decreases items.len(),
{
    if items.len() == 0 {
        seq![]
    } else {
        all_words(items.drop_last()) + items.last()
    }
}

/// The texts of list items: the numerals of each, with a comma and a blank between.
pub open spec fn item_texts(items: Seq<Seq<Seq<char>>>) -> Seq<Seq<char>> {
    items.map_values(|words: Seq<Seq<char>>| spaced(words, seq![',', ' ']))
}

/// Items that each are one numeral or more.
pub open spec fn are_items(items: Seq<Seq<Seq<char>>>) -> bool {
    items.len() > 0 && forall|i: int, k: int|
        0 <= i < items.len() && 0 <= k < items[i].len() ==> is_plain(#[trigger] items[i][k])
}

/// One thing that an XMP preset says.
pub enum Said {
    /// `crs:Key="value"`.
    Attribute { key: Seq<char>, value: SettingView },
    /// `<crs:Key>value</crs:Key>`.
    Element { key: Seq<char>, value: SettingView },
    /// `<crs:Key><rdf:Seq><rdf:li>x, y</rdf:li>...</rdf:Seq></crs:Key>`.
    Numbers { key: Seq<char>, items: Seq<Seq<Seq<char>>> },
    /// `<crs:Name><rdf:Alt><rdf:li xml:lang="x-default">Name</rdf:li></rdf:Alt></crs:Name>`.
    Named { name: Seq<char> },
    /// Anything else, such as the tags round the settings.
    Markup { text: Seq<char> },
}

/// What can be said.
pub open spec fn can_be_said(w: Said) -> bool {
    match w {
        Said::Attribute { key, value } => is_key(key) && is_value(value) && is_quiet(
            escaped(value_text(value)),
        ),
        Said::Element { key, value } => is_key(key) && key != "Name"@ && is_value(value),
        Said::Numbers { key, items } => is_key(key) && key != "Name"@ && are_items(items),
        Said::Named { name } => name.len() > 0 && is_tight(name),
        Said::Markup { text } => text.len() > 0 && is_quiet(text) && (text.last() == '>' || text.last() == ' '
            || text.last() == '\n'),
    }
}

/// What is inside of a list of numbers.
pub open spec fn numbers_inner(items: Seq<Seq<Seq<char>>>) -> Seq<char> {
    "<rdf:Seq>"@ + items_text(seq![], item_texts(items)) + "</rdf:Seq>"@
}

/// What is inside of a name.
pub open spec fn name_inner(name: Seq<char>) -> Seq<char> {
    "<rdf:Alt>"@ + items_text(" xml:lang=\"x-default\""@, seq![name]) + "</rdf:Alt>"@
}

/// How it is written.
pub open spec fn said_text(w: Said) -> Seq<char> {
    match w {
        Said::Attribute { key, value } => "crs:"@ + key + seq!['=', '"'] + escaped(value_text(value)) + seq![
            '"',
            ' ',
        ],
        Said::Element { key, value } => seq!['<'] + "crs:"@ + key + seq!['>'] + escaped(value_text(value))
            + end_tag(key),
        Said::Numbers { key, items } => seq!['<'] + "crs:"@ + key + seq!['>'] + numbers_inner(items) + end_tag(
            key,
        ),
        Said::Named { name } => seq!['<'] + "crs:"@ + "Name"@ + seq!['>'] + name_inner(name) + end_tag("Name"@),
        Said::Markup { text } => text,
    }
}

/// What it means for the preset: the setting has that value, all numbers of all items in order; or the preset
/// has that name.
pub open spec fn meant(acc: Found, w: Said) -> Found {
    match w {
        Said::Attribute { key, value } => (acc.0, acc.1.insert(key, value)),
        Said::Element { key, value } => (acc.0, acc.1.insert(key, value)),
        Said::Numbers { key, items } => (acc.0, acc.1.insert(key, SettingView::List(all_words(items)))),
        Said::Named { name } => (Some(name), acc.1),
        Said::Markup { text } => acc,
    }
}

/// A whole preset file.
pub open spec fn xmp_text(all: Seq<Said>) -> Seq<char>
    decreases all.len(),
{
    if all.len() == 0 {
        seq![]
    } else {
        said_text(all[0]) + xmp_text(all.skip(1))
    }
}

/// What a whole preset file means, after what is known already.
pub open spec fn all_meant(acc: Found, all: Seq<Said>) -> Found
    decreases all.len(),
{
    if all.len() == 0 {
        acc
    } else {
        all_meant(meant(acc, all[0]), all.skip(1))
    }
}

/// Escaped text holds no tags.
proof fn lemma_escaped_is_calm(s: Seq<char>)
    ensures
        is_calm(escaped(s)),
        find(escaped(s), "<rdf:li"@) is None,
{
    lemma_escaped(s);
    lemma_item_tags();
    let e = escaped(s);
    lemma_find_from(e, "<rdf:li"@, 0);
    if let Some(i) = find(e, "<rdf:li"@) {
        assert(e.subrange(i, i + 7)[0] == e[i]);
    }
}

/// Items are calm.
proof fn lemma_items_are_calm(attributes: Seq<char>, items: Seq<Seq<char>>)
    requires
        !attributes.contains('<'),
    ensures
        is_calm(items_text(attributes, items)),
    decreases items.len(),
{
    if items.len() > 0 {
        lemma_items_are_calm(attributes, items.skip(1));
        lemma_item_is_calm(attributes, items[0]);
        lemma_calm(item_text(attributes, items[0]), items_text(attributes, items.skip(1)));
    }
}

proof fn lemma_item_is_calm(attributes: Seq<char>, item: Seq<char>)
    requires
        !attributes.contains('<'),
    ensures
        is_calm(item_text(attributes, item)),
{
    reveal_strlit("<rdf:li");
    reveal_strlit("</rdf:li>");
    reveal_strlit(">");
    let (a, b, c, d) = ("<rdf:li"@, ">"@, escaped(item), "</rdf:li>"@);
    assert(is_calm(a));
    assert(is_calm(attributes)) by {
        assert forall|j: int| 0 <= j < attributes.len() implies #[trigger] attributes[j] != '<' by {
            assert(attributes.contains(attributes[j]));
        }
    }
    assert(is_calm(b));
    lemma_escaped_is_calm(item);
    assert(is_calm(d));
    lemma_calm(a, attributes);
    lemma_calm(a + attributes, b);
    lemma_calm(a + attributes + b, c);
    lemma_calm(a + attributes + b + c, d);
}

/// A list in a container: the container's tags hold no item and no end tag of a setting.
proof fn lemma_container(open: Seq<char>, close: Seq<char>, attributes: Seq<char>, items: Seq<Seq<char>>)
    requires
        open.len() == 9 && open[0] == '<' && open[1] == 'r' && open[5] != 'l',
        forall|j: int| 0 < j < 9 ==> #[trigger] open[j] != '<',
        close.len() == 10 && close[0] == '<' && close[1] == '/' && close[2] == 'r',
        forall|j: int| 0 < j < 10 ==> #[trigger] close[j] != '<',
        !attributes.contains('>'),
        !attributes.contains('<'),
        forall|i: int| 0 <= i < items.len() ==> is_tight(#[trigger] items[i]),
    ensures
        is_calm(open + items_text(attributes, items) + close),
        li_items_of(open + items_text(attributes, items) + close) == items,
{
    reveal_strlit("<rdf:li");
    let tag = "<rdf:li"@;
    let middle = items_text(attributes, items);
    let s = open + middle + close;
    lemma_items_are_calm(attributes, items);
    lemma_calm(open, middle);
    lemma_calm(open + middle, close);
    lemma_find_from(close, tag, 0);
    if let Some(i) = find(close, tag) {
        let here = close.subrange(i, i + 7);
        assert(here[0] == close[i] && here[1] == close[i + 1]);
    }
    law_items_are_read_back(attributes, items, close);
    assert(s =~= open + (middle + close));
    assert forall|j: int| 0 <= j < open.len() implies !#[trigger] occurs_at(open + (middle + close), tag, j) by {
        let t = open + (middle + close);
        if occurs_at(t, tag, j) {
            let here = t.subrange(j, j + 7);
            assert(here[0] == t[j] && here[5] == t[j + 5]);
            assert(t[j] == open[j]);
            if j == 0 {
                assert(t[5] == open[5]);
            }
        }
    }
    lemma_items_behind(open, middle + close);
}

/// The numbers of all items are read, in order.
proof fn lemma_all_numbers(items: Seq<Seq<Seq<char>>>)
    requires
        forall|i: int, k: int|
            0 <= i < items.len() && 0 <= k < items[i].len() ==> is_plain(#[trigger] items[i][k]),
    ensures
        numbers_of_all(item_texts(items)) == all_words(items),
    decreases items.len(),
{
    if items.len() > 0 {
        let shorter = items.drop_last();
        assert forall|i: int, k: int| 0 <= i < shorter.len() && 0 <= k < shorter[i].len() implies is_plain(
            #[trigger] shorter[i][k],
        ) by {
            assert(is_plain(items[i][k]));
        }
        lemma_all_numbers(shorter);
        assert(item_texts(items).drop_last() =~= item_texts(shorter));
        let words = items.last();
        assert forall|k: int| 0 <= k < words.len() implies is_plain(#[trigger] words[k]) by {
            assert(is_plain(items[items.len() - 1][k]));
        }
        assert(is_space(' '));
        law_numbers_are_read_back(words, seq![',', ' ']);
    }
}

/// Numerals with gaps between them neither begin nor end with white space.
proof fn lemma_spaced_is_tight(words: Seq<Seq<char>>, gap: Seq<char>)
    requires
        forall|k: int| 0 <= k < words.len() ==> is_plain(#[trigger] words[k]),
    ensures
        is_tight(spaced(words, gap)),
        words.len() > 0 ==> spaced(words, gap).len() > 0,
    decreases words.len(),
{
    if words.len() > 0 {
        let first = words[0];
        assert(!is_break(first[0]) && !is_break(first[first.len() - 1]));
        if words.len() > 1 {
            let rest = spaced(words.skip(1), gap);
            lemma_spaced_is_tight(words.skip(1), gap);
            assert(spaced(words, gap) == first + gap + rest);
            assert(spaced(words, gap)[0] == first[0]);
            assert(spaced(words, gap).last() == rest.last());
        }
    }
}

/// A list of numbers is read back, whole.
proof fn lemma_numbers_element(key: Seq<char>, items: Seq<Seq<Seq<char>>>, acc: Found)
    requires
        key != "Name"@,
        are_items(items),
    ensures
        is_calm(numbers_inner(items)),
        with_element(acc, key, numbers_inner(items)) == (
            acc.0,
            acc.1.insert(key, SettingView::List(all_words(items))),
        ),
{
    reveal_strlit("<rdf:Seq>");
    reveal_strlit("</rdf:Seq>");
    let texts = item_texts(items);
    assert forall|i: int| 0 <= i < texts.len() implies is_tight(#[trigger] texts[i]) by {
        let words = items[i];
        assert forall|k: int| 0 <= k < words.len() implies is_plain(#[trigger] words[k]) by {
            assert(is_plain(items[i][k]));
        }
        lemma_spaced_is_tight(words, seq![',', ' ']);
    }
    lemma_container("<rdf:Seq>"@, "</rdf:Seq>"@, seq![], texts);
    lemma_all_numbers(items);
}

/// A name is read back.
proof fn lemma_name_element(name: Seq<char>, acc: Found)
    requires
        name.len() > 0,
        is_tight(name),
    ensures
        is_calm(name_inner(name)),
        with_element(acc, "Name"@, name_inner(name)) == (Some(name), acc.1),
{
    reveal_strlit("<rdf:Alt>");
    reveal_strlit("</rdf:Alt>");
    reveal_strlit(" xml:lang=\"x-default\"");
    lemma_container("<rdf:Alt>"@, "</rdf:Alt>"@, " xml:lang=\"x-default\""@, seq![name]);
}

/// Whatever an XMP preset says is understood.
proof fn lemma_said_is_understood(w: Said, rest: Seq<char>, acc: Found)
    requires
        can_be_said(w),
    ensures
        xmp_from(said_text(w) + rest, acc) == xmp_from(rest, meant(acc, w)),
{
    match w {
        Said::Attribute { key, value } => {
            law_value_is_read_back(value);
            lemma_attribute_is_read(key, value_text(value), rest, acc);
        },
        Said::Element { key, value } => {
            let text = value_text(value);
            law_value_is_read_back(value);
            lemma_escaped_is_calm(text);
            law_unescaping_undoes_escaping(text);
            lemma_element_is_read(key, escaped(text), rest, acc);
            assert(li_items_of(escaped(text)).len() == 0);
        },
        Said::Numbers { key, items } => {
            lemma_numbers_element(key, items, acc);
            lemma_element_is_read(key, numbers_inner(items), rest, acc);
        },
        Said::Named { name } => {
            reveal_strlit("Name");
            lemma_name_element(name, acc);
            lemma_element_is_read("Name"@, name_inner(name), rest, acc);
        },
        Said::Markup { text } => {
            lemma_marks();
            let s = text + rest;
            assert forall|j: int| 0 <= j < text.len() implies !#[trigger] occurs_at(s, "crs:"@, j) by {
                if occurs_at(s, "crs:"@, j) {
                    let here = s.subrange(j, j + 4);
                    assert(here[0] == s[j] && here[1] == s[j + 1] && here[2] == s[j + 2]);
                    if j + 4 <= text.len() {
                        assert(text.subrange(j, j + 4) =~= here);
                        assert(occurs_at(text, "crs:"@, j));
                    } else {
                        assert(s[text.len() - 1] == text.last());
                    }
                }
            }
            lemma_settings_behind(text, rest, acc);
        },
    }
}

proof fn lemma_all_is_understood(all: Seq<Said>, acc: Found)
    requires
        forall|i: int| 0 <= i < all.len() ==> can_be_said(#[trigger] all[i]),
    ensures
        xmp_from(xmp_text(all), acc) == all_meant(acc, all),
    decreases all.len(),
{
    if all.len() > 0 {
        lemma_said_is_understood(all[0], xmp_text(all.skip(1)), acc);
        lemma_all_is_understood(all.skip(1), meant(acc, all[0]));
    } else {
        lemma_marks();
        lemma_find_from(xmp_text(all), "crs:"@, 0);
    }
}

/// An XMP preset is read back: its name and its settings are what was written as attributes and elements,
/// value by value, and a list has all its numbers in order. The last of several settings of one name counts.
pub proof fn law_xmp_is_read_back(all: Seq<Said>)
    requires
        forall|i: int| 0 <= i < all.len() ==> can_be_said(#[trigger] all[i]),
    ensures
        xmp_of(xmp_text(all)) == all_meant((None, Map::empty()), all),
{
    lemma_all_is_understood(all, (None, Map::empty()));
}

// ---------------------------------------------------------------------------------------------
// What the sliders make of it
// ---------------------------------------------------------------------------------------------

/// The setting that something written sets.
pub open spec fn sets(w: Said, key: Seq<char>) -> bool {
    match w {
        Said::Attribute { key: k, value } => k == key,
        Said::Element { key: k, value } => k == key,
        Said::Numbers { key: k, items } => k == key,
        _ => false,
    }
}

proof fn lemma_meant_in_turn(acc: Found, a: Seq<Said>, b: Seq<Said>)
    ensures
        all_meant(acc, a + b) == all_meant(all_meant(acc, a), b),
    decreases a.len(),
{
    if a.len() == 0 {
        assert(a + b =~= b);
    } else {
        assert((a + b)[0] == a[0]);
        assert((a + b).skip(1) =~= a.skip(1) + b);
        lemma_meant_in_turn(meant(acc, a[0]), a.skip(1), b);
    }
}

proof fn lemma_meant_stays(acc: Found, all: Seq<Said>, key: Seq<char>)
    requires
        forall|i: int| 0 <= i < all.len() ==> !sets(#[trigger] all[i], key),
        acc.1.dom().contains(key),
    ensures
        all_meant(acc, all).1.dom().contains(key),
        all_meant(acc, all).1[key] == acc.1[key],
    decreases all.len(),
{
    if all.len() > 0 {
        assert(!sets(all[0], key));
        lemma_meant_stays(meant(acc, all[0]), all.skip(1), key);
    }
}

/// A setting is found as it was written, wherever in the file it stands, unless it is written again later.
pub proof fn law_setting_is_found(before: Seq<Said>, w: Said, after: Seq<Said>, key: Seq<char>)
    requires
        forall|i: int| 0 <= i < before.len() ==> can_be_said(#[trigger] before[i]),
        can_be_said(w),
        forall|i: int| 0 <= i < after.len() ==> can_be_said(#[trigger] after[i]),
        sets(w, key),
        forall|i: int| 0 <= i < after.len() ==> !sets(#[trigger] after[i], key),
    ensures
        ({
            let found = xmp_of(xmp_text(before.push(w) + after)).1;
            &&& found.dom().contains(key)
            &&& w matches Said::Attribute { key: _, value } ==> found[key] == value
            &&& w matches Said::Element { key: _, value } ==> found[key] == value
            &&& w matches Said::Numbers { key: _, items } ==> found[key] == SettingView::List(all_words(items))
        }),
{
    let all = before.push(w) + after;
    assert forall|i: int| 0 <= i < all.len() implies can_be_said(#[trigger] all[i]) by {
        if i < before.len() {
            assert(all[i] == before[i]);
        } else if i > before.len() {
            assert(all[i] == after[i - before.len() - 1]);
        }
    }
    let start: Found = (None, Map::empty());
    law_xmp_is_read_back(all);
    lemma_meant_in_turn(start, before.push(w), after);
    assert(before.push(w) =~= before + seq![w]);
    lemma_meant_in_turn(start, before, seq![w]);
    let mid = all_meant(start, before);
    assert(seq![w].skip(1) =~= seq![]);
    assert(all_meant(meant(mid, w), seq![w].skip(1)) == meant(mid, w));
    assert(all_meant(mid, seq![w]) == meant(mid, w));
    lemma_meant_stays(meant(mid, w), after, key);
}

/// The points of a curve as list items, two numerals each.
pub open spec fn point_items(points: Seq<(Seq<char>, Seq<char>)>) -> Seq<Seq<Seq<char>>> {
    points.map_values(|p: (Seq<char>, Seq<char>)| seq![p.0, p.1])
}

proof fn lemma_point_words(points: Seq<(Seq<char>, Seq<char>)>)
    ensures
        all_words(point_items(points)).len() == 2 * points.len(),
        forall|i: int|
            0 <= i < points.len() ==> all_words(point_items(points))[2 * i] == (#[trigger] points[i]).0
                && all_words(point_items(points))[2 * i + 1] == points[i].1,
    decreases points.len(),
{
    if points.len() > 0 {
        let shorter = points.drop_last();
        lemma_point_words(shorter);
        let items = point_items(points);
        assert(items.drop_last() =~= point_items(shorter));
        assert(items.last() =~= seq![points.last().0, points.last().1]);
        assert forall|i: int| 0 <= i < points.len() implies all_words(items)[2 * i] == (#[trigger] points[i]).0
            && all_words(items)[2 * i + 1] == points[i].1 by {
            if i < shorter.len() {
                assert(shorter[i] == points[i]);
            }
        }
    }
}

/// The curve has these points: as many, each where it was, and none besides.
pub open spec fn has_points(curve: Seq<CurvePoint>, points: Seq<(Seq<char>, Seq<char>)>) -> bool {
    &&& curve.len() == points.len()
    &&& forall|i: int|
        0 <= i < points.len() ==> (#[trigger] curve[i]).x@ == points[i].0 && curve[i].y@ == points[i].1
}

/// Tone curves are read back: a curve of two points or more that an XMP preset holds, one list item for each
/// point, is the curve that the sliders `a` of the preset have; all its points, in order. So are the curves
/// of the colours.
pub proof fn law_tone_curve_is_read_back(
    before: Seq<Said>,
    key: Seq<char>,
    points: Seq<(Seq<char>, Seq<char>)>,
    after: Seq<Said>,
    a: Adjustments,
)
    requires
        forall|i: int| 0 <= i < before.len() ==> can_be_said(#[trigger] before[i]),
        forall|i: int| 0 <= i < after.len() ==> can_be_said(#[trigger] after[i]),
        forall|i: int| 0 <= i < after.len() ==> !sets(#[trigger] after[i], key),
        is_key(key),
        key != "Name"@,
        points.len() >= 2,
        forall|i: int| 0 <= i < points.len() ==> is_plain((#[trigger] points[i]).0) && is_plain(points[i].1),
        follows(
            a,
            xmp_of(xmp_text(before.push(Said::Numbers { key, items: point_items(points) }) + after)).1,
        ),
    ensures
        key == "ToneCurvePV2012"@ ==> has_points(a.curve@, points),
        key == "ToneCurvePV2012Red"@ ==> has_points(a.curve_red@, points),
        key == "ToneCurvePV2012Green"@ ==> has_points(a.curve_green@, points),
        key == "ToneCurvePV2012Blue"@ ==> has_points(a.curve_blue@, points),
{
    let items = point_items(points);
    let w = Said::Numbers { key, items };
    assert forall|i: int, k: int| 0 <= i < items.len() && 0 <= k < items[i].len() implies is_plain(
        #[trigger] items[i][k],
    ) by {
        assert(is_plain(points[i].0) && is_plain(points[i].1));
    }
    law_setting_is_found(before, w, after, key);
    lemma_point_words(points);
    let found = xmp_of(xmp_text(before.push(w) + after)).1;
    let v = all_words(items);
    assert(curve_of(found, key) == Some(pairs(v)));
    assert forall|curve: Seq<CurvePoint>| curve_view(curve) == pairs(v) implies #[trigger] has_points(
        curve,
        points,
    ) by {
        assert(curve_view(curve).len() == curve.len());
        assert forall|i: int| 0 <= i < points.len() implies (#[trigger] curve[i]).x@ == points[i].0
            && curve[i].y@ == points[i].1 by {
            assert(curve_view(curve)[i] == pairs(v)[i]);
            assert(points[i] == points[i]);
        }
    }
}

/// How far the slider is moved that the setting `key` is named after.
pub open spec fn slider_named(a: Adjustments, key: Seq<char>) -> Option<Option<Seq<char>>> {
    if key == "Exposure2012"@ {
        Some(opt_view(a.exposure))
    } else if key == "Contrast2012"@ {
        Some(opt_view(a.contrast))
    } else if key == "Highlights2012"@ {
        Some(opt_view(a.highlights))
    } else if key == "Shadows2012"@ {
        Some(opt_view(a.shadows))
    } else if key == "Whites2012"@ {
        Some(opt_view(a.whites))
    } else if key == "Blacks2012"@ {
        Some(opt_view(a.blacks))
    } else if key == "Clarity2012"@ {
        Some(opt_view(a.clarity))
    } else if key == "Dehaze"@ {
        Some(opt_view(a.dehaze))
    } else if key == "Vibrance"@ {
        Some(opt_view(a.vibrance))
    } else if key == "Saturation"@ {
        Some(opt_view(a.saturation))
    } else if key == "SplitToningBalance"@ {
        Some(opt_view(a.tint_balance))
    } else if key == "SplitToningShadowHue"@ {
        Some(opt_view(a.shadow_tint.hue))
    } else if key == "SplitToningShadowSaturation"@ {
        Some(opt_view(a.shadow_tint.saturation))
    } else if key == "SplitToningHighlightHue"@ {
        Some(opt_view(a.highlight_tint.hue))
    } else if key == "SplitToningHighlightSaturation"@ {
        Some(opt_view(a.highlight_tint.saturation))
    } else if key == "ColorGradeMidtoneHue"@ {
        Some(opt_view(a.midtone_tint.hue))
    } else if key == "ColorGradeMidtoneSat"@ {
        Some(opt_view(a.midtone_tint.saturation))
    } else if key == "ColorGradeGlobalHue"@ {
        Some(opt_view(a.global_tint.hue))
    } else if key == "ColorGradeGlobalSat"@ {
        Some(opt_view(a.global_tint.saturation))
    } else if key == "PostCropVignetteAmount"@ {
        Some(opt_view(a.vignette))
    } else if key == "GrainAmount"@ {
        Some(opt_view(a.grain))
    } else if key == "ParametricShadows"@ {
        Some(opt_view(a.parametric.shadows))
    } else if key == "ParametricDarks"@ {
        Some(opt_view(a.parametric.darks))
    } else if key == "ParametricLights"@ {
        Some(opt_view(a.parametric.lights))
    } else if key == "ParametricHighlights"@ {
        Some(opt_view(a.parametric.highlights))
    } else {
        None
    }
}

/// How far the slider is moved that `key` was the name of in older versions, and its newer name.
pub open spec fn older_slider(a: Adjustments, key: Seq<char>) -> Option<(Option<Seq<char>>, Seq<char>)> {
    if key == "Exposure"@ {
        Some((opt_view(a.exposure), "Exposure2012"@))
    } else if key == "Contrast"@ {
        Some((opt_view(a.contrast), "Contrast2012"@))
    } else if key == "HighlightRecovery"@ {
        Some((opt_view(a.highlights), "Highlights2012"@))
    } else if key == "FillLight"@ {
        Some((opt_view(a.shadows), "Shadows2012"@))
    } else if key == "Clarity"@ {
        Some((opt_view(a.clarity), "Clarity2012"@))
    } else if key == "ColorGradeBalance"@ {
        Some((opt_view(a.tint_balance), "SplitToningBalance"@))
    } else if key == "ColorGradeShadowHue"@ {
        Some((opt_view(a.shadow_tint.hue), "SplitToningShadowHue"@))
    } else if key == "ColorGradeShadowSat"@ {
        Some((opt_view(a.shadow_tint.saturation), "SplitToningShadowSaturation"@))
    } else if key == "ColorGradeHighlightHue"@ {
        Some((opt_view(a.highlight_tint.hue), "SplitToningHighlightHue"@))
    } else if key == "ColorGradeHighlightSat"@ {
        Some((opt_view(a.highlight_tint.saturation), "SplitToningHighlightSaturation"@))
    } else if key == "VignetteAmount"@ {
        Some((opt_view(a.vignette), "PostCropVignetteAmount"@))
    } else {
        None
    }
}

/// Sliders stand where the settings of their names say: the newer name counts, and the older one where no
/// number stands under the newer.
pub proof fn law_slider_follows_its_setting(a: Adjustments, m: Map<Seq<char>, SettingView>, key: Seq<char>)
    requires
        follows(a, m),
    ensures
        m.dom().contains(key) ==> match (slider_named(a, key), m[key]) {
            (Some(at), SettingView::Num(n)) => at == Some(n),
            _ => true,
        },
        m.dom().contains(key) ==> match (older_slider(a, key), m[key]) {
            (Some((at, newer)), SettingView::Num(n)) => !m.dom().contains(newer) ==> at == Some(n),
            _ => true,
        },
        (forall|k: Seq<char>| #[trigger] m.dom().contains(k) ==> !(m[k] is Num)) ==> match slider_named(a, key) {
            Some(at) => at is None,
            None => true,
        },
{
}

/// The number that a setting has.
pub open spec fn is_number_in(m: Map<Seq<char>, SettingView>, key: Seq<char>, n: Seq<char>) -> bool {
    m.dom().contains(key) && m[key] == SettingView::Num(n)
}

/// White balance: a relative reading is taken as it is; an absolute one counts where there is no relative one and
/// nothing is said of the camera's white balance; without either the photo stays as shot.
pub proof fn law_balance_follows_its_settings(a: Adjustments, m: Map<Seq<char>, SettingView>, n: Seq<char>)
    requires
        follows(a, m),
    ensures
        is_number_in(m, "IncrementalTemperature"@, n) ==> (a.temperature matches Balance::Relative(t) && t@ == n),
        is_number_in(m, "IncrementalTint"@, n) ==> (a.tint matches Balance::Relative(t) && t@ == n),
        is_number_in(m, "Temperature"@, n) && !m.dom().contains("IncrementalTemperature"@) && !m.dom().contains(
            "WhiteBalance"@,
        ) ==> (a.temperature matches Balance::Absolute(t) && t@ == n),
        is_number_in(m, "Tint"@, n) && !m.dom().contains("IncrementalTint"@) && !m.dom().contains("WhiteBalance"@)
            ==> (a.tint matches Balance::Absolute(t) && t@ == n),
        !m.dom().contains("IncrementalTemperature"@) && !m.dom().contains("Temperature"@)
            ==> a.temperature is AsShot,
        !m.dom().contains("IncrementalTint"@) && !m.dom().contains("Tint"@) ==> a.tint is AsShot,
{
}

/// The sliders of every colour stand where the settings of that colour say.
pub proof fn law_bands_follow_their_settings(
    a: Adjustments,
    m: Map<Seq<char>, SettingView>,
    i: int,
    n: Seq<char>,
)
    requires
        follows(a, m),
        0 <= i < BANDS@.len(),
    ensures
        is_number_in(m, "HueAdjustment"@ + BANDS@[i]@, n) ==> opt_view(a.bands@[i].hue) == Some(n),
        is_number_in(m, "SaturationAdjustment"@ + BANDS@[i]@, n) ==> opt_view(a.bands@[i].saturation) == Some(n),
        is_number_in(m, "LuminanceAdjustment"@ + BANDS@[i]@, n) ==> opt_view(a.bands@[i].luminance) == Some(n),
        is_number_in(m, "GrayMixer"@ + BANDS@[i]@, n) ==> opt_view(a.bands@[i].gray) == Some(n),
{
    assert(band_follows(a.bands@[i], m, BANDS@[i]@));
}

/// A preset without the settings that ask for it is in colour.
pub proof fn law_colour_is_the_rule(a: Adjustments, m: Map<Seq<char>, SettingView>)
    requires
        follows(a, m),
        !m.dom().contains("ConvertToGrayscale"@),
        !m.dom().contains("Treatment"@),
    ensures
        !a.grayscale,
{
}

// ---------------------------------------------------------------------------------------------
// Lightroom templates
// ---------------------------------------------------------------------------------------------

/// A setting as a template writes it.
pub struct LuaSaid {
    pub key: Seq<char>,
    pub value: SettingView,
}

/// A text without the characters that a template sets values off with.
pub open spec fn is_bare(t: Seq<char>) -> bool {
    forall|i: int|
        0 <= i < t.len() ==> {
            let c = #[trigger] t[i];
            c != ',' && c != '\n' && c != '{' && c != '}' && c != '=' && c != '"'
        }
}

/// What a template can say: a number, a text between quotes, or a list of numbers in braces.
pub open spec fn can_be_lua(w: LuaSaid) -> bool {
    &&& is_key(w.key) && is_letter(w.key[0])
    &&& match w.value {
        SettingView::Num(n) => is_value(w.value) && is_bare(n),
        SettingView::Text(t) => !t.contains('"') && !t.contains('='),
        SettingView::List(words) => words.len() > 0 && forall|i: int|
            0 <= i < words.len() ==> is_plain(#[trigger] words[i]) && is_bare(words[i]),
    }
}

/// The text of a value in a template.
pub open spec fn lua_value_text(v: SettingView) -> Seq<char> {
    match v {
        SettingView::Num(n) => n,
        SettingView::Text(t) => seq!['"'] + t + seq!['"'],
        SettingView::List(words) => seq!['{'] + spaced(words, seq![',', ' ']) + seq!['}'],
    }
}

/// `Key = value,` on a line.
pub open spec fn lua_line(w: LuaSaid) -> Seq<char> {
    w.key + seq![' ', '=', ' '] + lua_value_text(w.value) + seq![',', '\n']
}

/// The lines of a template.
pub open spec fn lua_text(all: Seq<LuaSaid>) -> Seq<char>
    decreases all.len(),
{
    if all.len() == 0 {
        seq![]
    } else {
        lua_line(all[0]) + lua_text(all.skip(1))
    }
}

/// The settings that the lines set, after those that are set already.
pub open spec fn lua_meant(m: Map<Seq<char>, SettingView>, all: Seq<LuaSaid>) -> Map<Seq<char>, SettingView>
    decreases all.len(),
{
    if all.len() == 0 {
        m
    } else {
        lua_meant(m.insert(all[0].key, all[0].value), all.skip(1))
    }
}

proof fn lemma_trim_start_at(s: Seq<char>, k: int) -> (at: int)
    requires
        0 <= k < s.len(),
        !is_space(s[k]),
    ensures
        0 <= at <= k,
        !is_space(s[at]),
        trim_start(s) == s.skip(at),
        forall|j: int| 0 <= j < at ==> is_space(#[trigger] s[j]),
    decreases k,
{
    if is_space(s[0]) {
        assert(s.skip(1)[k - 1] == s[k]);
        let at = lemma_trim_start_at(s.skip(1), k - 1);
        assert(s.skip(1).skip(at) =~= s.skip(at + 1));
        assert(s[at + 1] == s.skip(1)[at]);
        assert forall|j: int| 0 <= j < at + 1 implies is_space(#[trigger] s[j]) by {
            if j > 0 {
                assert(s[j] == s.skip(1)[j - 1]);
            }
        }
        at + 1
    } else {
        assert(s.skip(0) =~= s);
        0
    }
}

/// Text that sets nothing is passed over: there is no `=` up to the mark at `c`, and no letter behind it.
proof fn lemma_lua_passes(body: Seq<char>, i: int, c: int, k: int, m: Map<Seq<char>, SettingView>)
    requires
        0 <= i <= k <= body.len(),
        c < k,
        i <= c + 1,
        0 <= c,
        !is_name_char(body[c]),
        !is_space(body[c]),
        forall|x: int| i <= x <= c ==> #[trigger] body[x] != '=',
        forall|x: int| c < x < k ==> !is_letter(#[trigger] body[x]),
    ensures
        lua_from(body, i, m) == lua_from(body, k, m),
    decreases k - i,
{
    if i < k {
        if i > c {
            lemma_lua_ends(body, i, k, m);
        } else if !is_letter(body[i]) || (i > 0 && is_name_char(body[i - 1])) {
            lemma_lua_passes(body, i + 1, c, k, m);
        } else {
            let j = name_end(body, i);
            lemma_name_end_before(body, i, c);
            let rest = body.skip(j);
            assert(rest[c - j] == body[c]);
            let at = lemma_trim_start_at(rest, c - j);
            assert(trim_start(rest)[0] == rest[at]);
            assert(rest[at] == body[j + at]);
            lemma_lua_passes(body, j, c, k, m);
        }
    }
}

proof fn lemma_lua_ends(body: Seq<char>, i: int, k: int, m: Map<Seq<char>, SettingView>)
    requires
        0 <= i <= k <= body.len(),
        forall|x: int| i <= x < k ==> !is_letter(#[trigger] body[x]),
    ensures
        lua_from(body, i, m) == lua_from(body, k, m),
    decreases k - i,
{
    if i < k {
        lemma_lua_ends(body, i + 1, k, m);
    }
}

proof fn lemma_name_end_before(s: Seq<char>, i: int, c: int)
    requires
        0 <= i <= c < s.len(),
        !is_name_char(s[c]),
    ensures
        i <= name_end(s, i) <= c,
        is_name_char(s[i]) ==> i < name_end(s, i),
    decreases c - i,
{
    if is_name_char(s[i]) {
        lemma_name_end_before(s, i + 1, c);
    }
}

/// Numerals with gaps between them do not hold what neither the numerals nor the gaps hold.
proof fn lemma_spaced_avoids(words: Seq<Seq<char>>, gap: Seq<char>, c: char)
    requires
        !gap.contains(c),
        forall|i: int| 0 <= i < words.len() ==> !(#[trigger] words[i]).contains(c),
    ensures
        !spaced(words, gap).contains(c),
    decreases words.len(),
{
    if words.len() > 1 {
        let rest = spaced(words.skip(1), gap);
        lemma_spaced_avoids(words.skip(1), gap, c);
        let s = words[0] + gap + rest;
        assert forall|j: int| 0 <= j < s.len() implies #[trigger] s[j] != c by {
            let n = words[0].len() as int;
            let g = gap.len() as int;
            if j < n {
                assert(words[0].contains(words[0][j]));
            } else if j < n + g {
                assert(gap.contains(gap[j - n]));
            } else {
                assert(s[j] == rest[j - n - g]);
                assert(rest.contains(rest[j - n - g]));
            }
        }
    } else if words.len() == 1 {
        assert(!words[0].contains(c));
    }
}

/// A value in a template holds no `=`, and begins with no white space.
proof fn lemma_lua_value(w: LuaSaid)
    requires
        can_be_lua(w),
    ensures
        lua_value_text(w.value).len() > 0,
        !is_space(lua_value_text(w.value)[0]),
        forall|j: int| 0 <= j < lua_value_text(w.value).len() ==> #[trigger] lua_value_text(w.value)[j] != '=',
{
    let t = lua_value_text(w.value);
    match w.value {
        SettingView::Num(n) => {},
        SettingView::Text(x) => {
            assert forall|j: int| 0 <= j < t.len() implies #[trigger] t[j] != '=' by {
                if 0 < j < t.len() - 1 {
                    assert(t[j] == x[j - 1]);
                    assert(x.contains(x[j - 1]));
                }
            }
        },
        SettingView::List(words) => {
            let inner = spaced(words, seq![',', ' ']);
            assert forall|i: int| 0 <= i < words.len() implies !(#[trigger] words[i]).contains('=') by {
                assert(is_bare(words[i]));
            }
            lemma_spaced_avoids(words, seq![',', ' '], '=');
            assert forall|j: int| 0 <= j < t.len() implies #[trigger] t[j] != '=' by {
                if 0 < j < t.len() - 1 {
                    assert(t[j] == inner[j - 1]);
                    assert(inner.contains(inner[j - 1]));
                }
            }
        },
    }
}

/// A value in a template is read back.
proof fn lemma_lua_value_is_read(m: Map<Seq<char>, SettingView>, w: LuaSaid, rest: Seq<char>)
    requires
        can_be_lua(w),
    ensures
        with_lua_value(m, w.key, lua_value_text(w.value) + (seq![',', '\n'] + rest)) == m.insert(w.key, w.value),
{
    let t = lua_value_text(w.value);
    let value = t + (seq![',', '\n'] + rest);
    match w.value {
        SettingView::Num(n) => {
            assert(value[0] == n[0]);
            assert forall|j: int| 0 <= j < n.len() implies !(#[trigger] value[j] == ',' || value[j] == '\n'
                || value[j] == '}') by {
                assert(value[j] == n[j]);
            }
            assert(value[n.len() as int] == ',');
            lemma_bare_end(value, 0, n.len() as int);
            assert(value.take(n.len() as int) =~= n);
            law_value_is_read_back(w.value);
        },
        SettingView::Text(x) => {
            assert(value[0] == '"');
            let text = value.skip(1);
            let k = x.len() as int;
            assert forall|j: int| 0 <= j < k implies #[trigger] text[j] != '"' by {
                assert(text[j] == x[j]);
                assert(x.contains(x[j]));
            }
            assert(text[k] == '"');
            lemma_next_char(text, '"', 0, k);
            assert(text.take(k) =~= x);
        },
        SettingView::List(words) => {
            assert(value[0] == '{');
            let inner = spaced(words, seq![',', ' ']);
            let list = value.skip(1);
            let k = inner.len() as int;
            assert forall|i: int| 0 <= i < words.len() implies !(#[trigger] words[i]).contains('}') by {
                assert(is_bare(words[i]));
            }
            lemma_spaced_avoids(words, seq![',', ' '], '}');
            assert forall|j: int| 0 <= j < k implies #[trigger] list[j] != '}' by {
                assert(list[j] == inner[j]);
                assert(inner.contains(inner[j]));
            }
            assert(list[k] == '}');
            lemma_next_char(list, '}', 0, k);
            assert(list.take(k) =~= inner);
            assert(is_space(' '));
            law_numbers_are_read_back(words, seq![',', ' ']);
        },
    }
}

proof fn lemma_bare_end(s: Seq<char>, i: int, k: int)
    requires
        0 <= i <= k < s.len(),
        forall|j: int| i <= j < k ==> !(#[trigger] s[j] == ',' || s[j] == '\n' || s[j] == '}'),
        s[k] == ',' || s[k] == '\n' || s[k] == '}',
    ensures
        bare_end(s, i) == k,
    decreases k - i,
{
    if i < k {
        lemma_bare_end(s, i + 1, k);
    }
}

/// A name that is followed by ` = ` sets its setting to what stands behind.
proof fn lemma_lua_key_is_read(body: Seq<char>, i: int, j: int, m: Map<Seq<char>, SettingView>)
    requires
        0 <= i < j,
        j + 3 < body.len(),
        is_letter(body[i]),
        i > 0 ==> !is_name_char(body[i - 1]),
        forall|x: int| i <= x < j ==> is_name_char(#[trigger] body[x]),
        body[j] == ' ' && body[j + 1] == '=' && body[j + 2] == ' ',
        !is_space(body[j + 3]),
    ensures
        lua_from(body, i, m) == lua_from(
            body,
            j + 3,
            with_lua_value(m, body.subrange(i, j), body.skip(j + 3)),
        ),
{
    lemma_name_end(body, i, j);
    assert(is_space(' '));
    let behind = body.skip(j);
    assert(behind[0] == body[j] && behind[1] == body[j + 1]);
    let at = lemma_trim_start_at(behind, 1);
    assert(at == 1);
    let said = behind.skip(1).skip(1);
    assert(said =~= body.skip(j + 2));
    assert(said[0] == body[j + 2] && said[1] == body[j + 3]);
    let at2 = lemma_trim_start_at(said, 1);
    assert(at2 == 1);
    assert(said.skip(1) =~= body.skip(j + 3));
    let next = with_lua_value(m, body.subrange(i, j), body.skip(j + 3));
    assert(lua_from(body, i, m) == lua_from(body, j, next));
    assert(!is_letter(' ') && !is_letter('='));
    assert forall|x: int| j <= x < j + 3 implies !is_letter(#[trigger] body[x]) by {
        assert(x == j || x == j + 1 || x == j + 2);
    }
    lemma_lua_ends(body, j, j + 3, next);
}

/// A line of a template sets its setting, and nothing else.
proof fn lemma_lua_line_is_read(pre: Seq<char>, w: LuaSaid, rest: Seq<char>, m: Map<Seq<char>, SettingView>)
    requires
        can_be_lua(w),
        pre.len() > 0 ==> !is_name_char(pre.last()),
    ensures
        lua_from(pre + lua_line(w) + rest, pre.len() as int, m) == lua_from(
            pre + lua_line(w) + rest,
            (pre.len() + lua_line(w).len()) as int,
            m.insert(w.key, w.value),
        ),
{
    lemma_lua_value(w);
    let key = w.key;
    let t = lua_value_text(w.value);
    let body = pre + lua_line(w) + rest;
    let i = pre.len() as int;
    let j = i + key.len();
    let v = j + 3;
    let c = v + t.len();
    assert(body[i] == key[0]);
    if i > 0 {
        assert(body[i - 1] == pre.last());
    }
    assert forall|x: int| i <= x < j implies is_name_char(#[trigger] body[x]) by {
        assert(body[x] == key[x - i]);
    }
    assert(body[v] == t[0]);
    assert(body[c] == ',' && body[c + 1] == '\n');
    assert(body.subrange(i, j) =~= key);
    assert(body.skip(v) =~= t + (seq![',', '\n'] + rest));
    lemma_lua_key_is_read(body, i, j, m);
    lemma_lua_value_is_read(m, w, rest);
    assert forall|x: int| v <= x <= c implies #[trigger] body[x] != '=' by {
        if x < c {
            assert(body[x] == t[x - v]);
        }
    }
    lemma_lua_passes(body, v, c, c + 2, m.insert(key, w.value));
}

proof fn lemma_lua_lines_are_read(
    pre: Seq<char>,
    all: Seq<LuaSaid>,
    tail: Seq<char>,
    m: Map<Seq<char>, SettingView>,
)
    requires
        forall|i: int| 0 <= i < all.len() ==> can_be_lua(#[trigger] all[i]),
        pre.len() > 0 ==> !is_name_char(pre.last()),
        forall|x: int| 0 <= x < tail.len() ==> !is_letter(#[trigger] tail[x]),
    ensures
        lua_from(pre + lua_text(all) + tail, pre.len() as int, m) == lua_meant(m, all),
    decreases all.len(),
{
    let body = pre + lua_text(all) + tail;
    if all.len() == 0 {
        assert forall|x: int| pre.len() <= x < body.len() implies !is_letter(#[trigger] body[x]) by {
            assert(body[x] == tail[x - pre.len()]);
        }
        lemma_lua_ends(body, pre.len() as int, body.len() as int, m);
    } else {
        let w = all[0];
        let more = lua_text(all.skip(1));
        lemma_lua_line_is_read(pre, w, more + tail, m);
        assert(body =~= pre + lua_line(w) + (more + tail));
        let next = pre + lua_line(w);
        assert(next.last() == '\n');
        lemma_lua_lines_are_read(next, all.skip(1), tail, m.insert(w.key, w.value));
        assert(body =~= next + more + tail);
    }
}

/// A template up to its settings: the title, and what opens the table of the settings.
pub open spec fn lua_head(title: Seq<char>) -> Seq<char> {
    "s = {\n\ttitle = \""@ + title + "\",\n\tvalue = {\n"@
}

/// A template: its title, and its settings in a table.
pub open spec fn lrtemplate_text(title: Seq<char>, all: Seq<LuaSaid>) -> Seq<char> {
    lua_head(title) + ("settings"@ + seq![' ', '=', ' ', '{', '\n'] + lua_text(all) + "},\n},\n}\n"@)
}

/// A title that a template can have: it is not empty, is no key to be translated, and does not name the
/// table of the settings.
pub open spec fn is_lua_title(t: Seq<char>) -> bool {
    &&& t.len() > 0
    &&& !t.contains('"')
    &&& !begins(t, "$$$"@)
    &&& forall|j: int| !#[trigger] occurs_at(t, "settings"@, j)
}

/// The title of a template is read back.
pub proof fn law_lua_title_is_read_back(title: Seq<char>, rest: Seq<char>)
    requires
        is_lua_title(title),
    ensures
        lua_field(lua_head(title) + rest, "title"@) == Some(title),
{
    reveal_strlit("s = {\n\ttitle = \"");
    reveal_strlit("\",\n\tvalue = {\n");
    reveal_strlit("title");
    reveal_strlit(" = \"");
    let pat = "title"@ + " = \""@;
    let pre = "s = {\n\t"@;
    reveal_strlit("s = {\n\t");
    let more = title + "\",\n\tvalue = {\n"@ + rest;
    let lua = lua_head(title) + rest;
    assert("s = {\n\ttitle = \""@ =~= pre + pat);
    assert(lua =~= pre + (pat + more));
    assert forall|j: int| 0 <= j < pre.len() implies !#[trigger] occurs_at(pre + (pat + more), pat, j) by {
        let s = pre + (pat + more);
        if occurs_at(s, pat, j) {
            assert(s.subrange(j, j + pat.len())[0] == s[j]);
            assert(s[j] == pre[j]);
        }
    }
    lemma_find_behind(pre, pat + more, pat);
    lemma_find_here(pat, more);
    assert(lua.skip(16) =~= more);
    let n = title.len() as int;
    assert forall|j: int| 0 <= j < n implies #[trigger] more[j] != '"' by {
        assert(more[j] == title[j]);
        assert(title.contains(title[j]));
    }
    assert(more[n] == '"');
    lemma_next_char(more, '"', 0, n);
    assert(more.take(n) =~= title);
}

/// The settings of a template begin where the table is named.
proof fn lemma_lua_body(title: Seq<char>, rest: Seq<char>)
    requires
        is_lua_title(title),
    ensures
        lua_body(lua_head(title) + ("settings"@ + rest)) == "settings"@ + rest,
{
    reveal_strlit("s = {\n\ttitle = \"");
    reveal_strlit("\",\n\tvalue = {\n");
    reveal_strlit("settings");
    let (a, b) = ("s = {\n\ttitle = \""@, "\",\n\tvalue = {\n"@);
    let pat = "settings"@;
    let head = lua_head(title);
    let lua = head + (pat + rest);
    let n = title.len() as int;
    assert forall|j: int| 0 <= j < head.len() implies !#[trigger] occurs_at(lua, pat, j) by {
        if occurs_at(lua, pat, j) {
            let here = lua.subrange(j, j + 8);
            assert(here[0] == lua[j] && here[1] == lua[j + 1]);
            if j < 16 {
                assert(lua[j] == a[j]);
                if j == 0 {
                    assert(lua[1] == a[1]);
                }
            } else if j < 16 + n {
                if j + 8 <= 16 + n {
                    assert(title.subrange(j - 16, j - 16 + 8) =~= here);
                    assert(occurs_at(title, pat, j - 16));
                } else {
                    assert(lua[16 + n] == b[0]);
                    assert(here[16 + n - j] == lua[16 + n]);
                    assert(pat[16 + n - j] != '"');
                }
            } else {
                assert(lua[j] == b[j - 16 - n]);
            }
        }
    }
    lemma_find_behind(head, pat + rest, pat);
    lemma_find_here(pat, rest);
    assert(lua.skip(head.len() as int) =~= pat + rest);
}

proof fn lemma_lua_meant(m: Map<Seq<char>, SettingView>, all: Seq<LuaSaid>, i: int, key: Seq<char>)
    requires
        0 <= i <= all.len(),
        forall|j: int| i < j < all.len() ==> (#[trigger] all[j]).key != key,
        i < all.len() ==> all[i].key == key,
        i == all.len() ==> forall|j: int| 0 <= j < all.len() ==> (#[trigger] all[j]).key != key,
    ensures
        i < all.len() ==> lua_meant(m, all).dom().contains(key) && lua_meant(m, all)[key] == all[i].value,
        i == all.len() ==> lua_meant(m, all).dom().contains(key) == m.dom().contains(key) && (
        m.dom().contains(key) ==> lua_meant(m, all)[key] == m[key]),
    decreases all.len(),
{
    if all.len() > 0 {
        let rest = all.skip(1);
        let next = m.insert(all[0].key, all[0].value);
        if i == 0 {
            assert forall|j: int| 0 <= j < rest.len() implies (#[trigger] rest[j]).key != key by {
                assert(all[j + 1].key != key);
            }
            lemma_lua_meant(next, rest, rest.len() as int, key);
        } else {
            assert forall|j: int| i - 1 < j < rest.len() implies (#[trigger] rest[j]).key != key by {
                assert(all[j + 1].key != key);
            }
            if i == all.len() {
                assert(all[0].key != key);
                assert forall|j: int| 0 <= j < rest.len() implies (#[trigger] rest[j]).key != key by {
                    assert(all[j + 1].key != key);
                }
            }
            lemma_lua_meant(next, rest, i - 1, key);
        }
    }
}

/// A template is read back: its title is the name, every setting has the value that was written last under
/// its name, lists with all their numbers in order; and nothing else is set but, at most, the name of
/// the table itself.
pub proof fn law_lrtemplate_is_read_back(title: Seq<char>, all: Seq<LuaSaid>, i: int, other: Seq<char>)
    requires
        is_lua_title(title),
        forall|k: int| 0 <= k < all.len() ==> can_be_lua(#[trigger] all[k]),
        0 <= i < all.len(),
        forall|k: int| i < k < all.len() ==> (#[trigger] all[k]).key != all[i].key,
        other != "settings"@,
        forall|k: int| 0 <= k < all.len() ==> (#[trigger] all[k]).key != other,
    ensures
        lrtemplate_of(lrtemplate_text(title, all)).0 == Some(title),
        lrtemplate_of(lrtemplate_text(title, all)).1.dom().contains(all[i].key),
        lrtemplate_of(lrtemplate_text(title, all)).1[all[i].key] == all[i].value,
        !lrtemplate_of(lrtemplate_text(title, all)).1.dom().contains(other),
{
    let tail = "},\n},\n}\n"@;
    reveal_strlit("},\n},\n}\n");
    reveal_strlit("settings");
    let open = seq![' ', '=', ' ', '{', '\n'];
    let rest = open + lua_text(all) + tail;
    let lua = lrtemplate_text(title, all);
    assert("settings"@ + open + lua_text(all) + tail =~= "settings"@ + rest);
    law_lua_title_is_read_back(title, "settings"@ + rest);
    lemma_lua_body(title, rest);
    let body = "settings"@ + rest;
    assert(lua == lua_head(title) + body);
    let pre = "settings"@ + open;
    assert(body =~= pre + lua_text(all) + tail);
    assert(body[8] == ' ' && body[9] == '=' && body[10] == ' ' && body[11] == '{' && body[12] == '\n');
    assert forall|x: int| 0 <= x < 8 implies is_name_char(#[trigger] body[x]) by {
        assert(body[x] == "settings"@[x]);
    }
    assert(body[0] == 's');
    assert(body.subrange(0, 8) =~= "settings"@);
    assert(!is_space('{'));
    let m0 = Map::<Seq<char>, SettingView>::empty();
    let value = body.skip(11);
    assert(value[0] == '{');
    let m1 = with_lua_value(m0, "settings"@, value);
    lemma_lua_key_is_read(body, 0, 8, m0);
    assert(!is_letter('{') && !is_letter('\n'));
    lemma_lua_ends(body, 11, 13, m1);
    assert(pre.last() == '\n');
    lemma_lua_lines_are_read(pre, all, tail, m1);
    lemma_lua_meant(m1, all, i, all[i].key);
    lemma_lua_meant(m1, all, all.len() as int, other);
}

// ---------------------------------------------------------------------------------------------
// Themes
// ---------------------------------------------------------------------------------------------

/// A hexadecimal digit, as a small letter or a capital.
pub open spec fn hex_char(d: nat, capital: bool) -> char {
    if d < 10 {
        ('0' as nat + d) as char
    } else if capital {
        ('A' as nat + d - 10) as char
    } else {
        ('a' as nat + d - 10) as char
    }
}

/// The two hexadecimal digits of a byte.
pub open spec fn hex_byte(b: u8, capital: bool) -> Seq<char> {
    seq![hex_char(b as nat / 16, capital), hex_char(b as nat % 16, capital)]
}

/// A colour as `#rrggbb`.
pub open spec fn color_text(c: Color, capital: bool) -> Seq<char> {
    seq!['#'] + hex_byte(c.r, capital) + hex_byte(c.g, capital) + hex_byte(c.b, capital)
}

proof fn lemma_hex_char(d: nat, capital: bool)
    requires
        d < 16,
    ensures
        hex_digit(hex_char(d, capital)) == Some(d),
        !is_space(hex_char(d, capital)),
        hex_char(d, capital) != '+',
        hex_char(d, capital) != '#',
{
}

/// The six digits of a colour.
pub open spec fn color_digits(c: Color, capital: bool) -> Seq<char> {
    hex_byte(c.r, capital) + hex_byte(c.g, capital) + hex_byte(c.b, capital)
}

proof fn lemma_color_number(c: Color)
    ensures
        color_of_number(((c.r * 256 + c.g) * 256 + c.b) as nat) == c,
{
    let (r, g, b) = (c.r as nat, c.g as nat, c.b as nat);
    let n = (r * 256 + g) * 256 + b;
    assert(n / 65536 == r && n / 256 == r * 256 + g && n % 256 == b);
    assert((n / 256) % 256 == g);
}

proof fn lemma_color_digits(c: Color, capital: bool)
    ensures
        hex_value(color_digits(c, capital)) == Some(((c.r * 256 + c.g) * 256 + c.b) as nat),
{
    let (r, g, b) = (c.r as nat, c.g as nat, c.b as nat);
    let h1 = seq![hex_char(r / 16, capital)];
    let h2 = h1.push(hex_char(r % 16, capital));
    let h3 = h2.push(hex_char(g / 16, capital));
    let h4 = h3.push(hex_char(g % 16, capital));
    let h5 = h4.push(hex_char(b / 16, capital));
    assert(color_digits(c, capital) =~= h5.push(hex_char(b % 16, capital)));
    assert(h1 =~= Seq::<char>::empty().push(hex_char(r / 16, capital)));
    lemma_hex_push(Seq::<char>::empty(), 0, r / 16, capital);
    lemma_hex_push(h1, r / 16, r % 16, capital);
    lemma_hex_push(h2, r, g / 16, capital);
    lemma_hex_push(h3, r * 16 + g / 16, g % 16, capital);
    lemma_hex_push(h4, r * 256 + g, b / 16, capital);
    lemma_hex_push(h5, (r * 256 + g) * 16 + b / 16, b % 16, capital);
}

/// A colour is read back: the first two digits are red, then come green and blue. The `#` may be missing.
pub proof fn law_color_is_read_back(c: Color, capital: bool)
    ensures
        color_of(color_text(c, capital)) == Some(c),
        color_of(color_digits(c, capital)) == Some(c),
{
    lemma_hex_char(c.r as nat / 16, capital);
    lemma_hex_char(c.b as nat % 16, capital);
    let t = color_text(c, capital);
    let h = color_digits(c, capital);
    assert(t =~= seq!['#'] + h);
    assert(h[0] == hex_char(c.r as nat / 16, capital));
    assert(h.last() == hex_char(c.b as nat % 16, capital));
    assert(t[0] == '#' && t.last() == h.last());
    assert(!is_space('#'));
    lemma_trim_tight(t);
    lemma_trim_tight(h);
    assert(t.skip(1) =~= h);
    assert(strip_start(h, '#') == h);
    assert(strip_start(t, '#') == strip_start(t.skip(1), '#'));
    lemma_color_digits(c, capital);
    lemma_color_number(c);
}

proof fn lemma_hex_push(s: Seq<char>, n: nat, d: nat, capital: bool)
    requires
        hex_value(s) == Some(n),
        d < 16,
    ensures
        hex_value(s.push(hex_char(d, capital))) == Some(n * 16 + d),
{
    let t = s.push(hex_char(d, capital));
    lemma_hex_char(d, capital);
    assert(t.drop_last() =~= s);
    assert(t.last() == hex_char(d, capital));
}

/// A key and a value that can stand on a line of a theme.
pub open spec fn is_pair(kv: (Seq<char>, Seq<char>)) -> bool {
    &&& kv.0.len() > 0 && is_tight(kv.0) && !kv.0.contains('=') && !kv.0.contains('\n') && kv.0[0] != '#'
    &&& kv.1.len() > 0 && is_tight(kv.1) && !kv.1.contains('\n') && kv.1[0] != '"' && kv.1.last() != '"'
}

/// `key = value`, with or without quotes.
pub open spec fn pair_line(kv: (Seq<char>, Seq<char>), quoted: bool) -> Seq<char> {
    if quoted {
        kv.0 + seq![' ', '=', ' '] + (seq!['"'] + kv.1 + seq!['"'])
    } else {
        kv.0 + seq![' ', '=', ' '] + kv.1
    }
}

/// The lines of a theme.
pub open spec fn theme_text(lines: Seq<(Seq<char>, Seq<char>)>, quoted: bool) -> Seq<char>
    decreases lines.len(),
{
    if lines.len() == 0 {
        seq![]
    } else {
        pair_line(lines[0], quoted) + seq!['\n'] + theme_text(lines.skip(1), quoted)
    }
}

/// Quotes round a text are dropped.
proof fn lemma_quotes_are_dropped(t: Seq<char>)
    requires
        t.len() > 0,
        t[0] != '"',
        t.last() != '"',
    ensures
        strip(t, '"') == t,
        strip(seq!['"'] + t + seq!['"'], '"') == t,
{
    let said = seq!['"'] + t + seq!['"'];
    let open = t + seq!['"'];
    assert(said[0] == '"');
    assert(said.skip(1) =~= open);
    assert(open[0] == t[0]);
    assert(strip_start(said, '"') == strip_start(open, '"'));
    assert(strip_start(open, '"') == open);
    assert(open.last() == '"');
    assert(open.drop_last() =~= t);
    assert(strip_end(open, '"') == strip_end(t, '"'));
}

/// A line is read back: its key is what stands before the `=`, its value what stands behind it.
pub proof fn law_pair_is_read_back(kv: (Seq<char>, Seq<char>), quoted: bool)
    requires
        is_pair(kv),
    ensures
        kv_line(pair_line(kv, quoted)) == Some(kv),
{
    let (k, v) = kv;
    let said = if quoted {
        seq!['"'] + v + seq!['"']
    } else {
        v
    };
    let line = pair_line(kv, quoted);
    assert(line =~= k + seq![' ', '=', ' '] + said);
    assert(line[0] == k[0] && line.last() == said.last());
    assert(said.last() == '"' || said.last() == v.last());
    assert(!is_space('"') && is_space(' '));
    lemma_trim_tight(line);
    let n = k.len() as int + 1;
    assert forall|j: int| 0 <= j < n implies #[trigger] line[j] != '=' by {
        if j < k.len() {
            assert(line[j] == k[j]);
            assert(k.contains(k[j]));
        }
    }
    assert(line[n] == '=');
    lemma_next_char(line, '=', 0, n);
    let left = line.take(n);
    let right = line.skip(n + 1);
    assert(left =~= k.push(' '));
    assert(right =~= seq![' '] + said);
    assert(left.drop_last() =~= k);
    assert(left[0] == k[0]);
    assert(trim_start(left) == left);
    assert(trim_end(left) == trim_end(k));
    assert(trim_end(k) == k);
    assert(right[0] == ' ' && right.skip(1) =~= said);
    assert(trim_start(right) == trim_start(said));
    lemma_trim_tight(said);
    lemma_quotes_are_dropped(v);
}

/// A theme is read back: all its keys and values, in order.
pub proof fn law_theme_is_read_back(lines: Seq<(Seq<char>, Seq<char>)>, quoted: bool)
    requires
        forall|i: int| 0 <= i < lines.len() ==> is_pair(#[trigger] lines[i]),
    ensures
        kv_of(theme_text(lines, quoted)) == lines,
    decreases lines.len(),
{
    let text = theme_text(lines, quoted);
    if lines.len() == 0 {
        assert(text.take(0) =~= Seq::<char>::empty());
        assert(trim(Seq::<char>::empty()) =~= Seq::<char>::empty());
        assert(kv_of(text) =~= lines);
    } else {
        let line = pair_line(lines[0], quoted);
        law_pair_is_read_back(lines[0], quoted);
        law_theme_is_read_back(lines.skip(1), quoted);
        let (k, v) = lines[0];
        let n = line.len() as int;
        assert forall|j: int| 0 <= j < n implies #[trigger] text[j] != '\n' by {
            assert(text[j] == line[j]);
            let x = k.len() as int;
            if j < x {
                assert(line[j] == k[j]);
                assert(k.contains(k[j]));
            } else if j < x + 3 {
            } else if quoted {
                if x + 4 <= j < n - 1 {
                    assert(line[j] == v[j - x - 4]);
                    assert(v.contains(v[j - x - 4]));
                }
            } else {
                assert(line[j] == v[j - x - 3]);
                assert(v.contains(v[j - x - 3]));
            }
        }
        assert(text[n] == '\n');
        lemma_next_char(text, '\n', 0, n);
        assert(text.take(n) =~= line);
        assert(text.skip(n + 1) =~= theme_text(lines.skip(1), quoted));
        assert(seq![lines[0]] + lines.skip(1) =~= lines);
    }
}

/// A line that sets a colour sets that one, and no other.
pub proof fn law_colour_line_sets_its_colour(c: ColorsView, x: Color, capital: bool)
    ensures
        applied(c, "background"@, color_text(x, capital)) == (ColorsView { background: Some(x), ..c }),
        applied(c, "foreground"@, color_text(x, capital)) == (ColorsView { foreground: Some(x), ..c }),
        applied(c, "selection-background"@, color_text(x, capital)) == (ColorsView { selection_bg: Some(x), ..c }),
        applied(c, "selection-foreground"@, color_text(x, capital)) == (ColorsView { selection_fg: Some(x), ..c }),
        applied(c, "cursor-color"@, color_text(x, capital)) == (ColorsView { cursor: Some(x), ..c }),
{
    law_color_is_read_back(x, capital);
    reveal_strlit("background");
    reveal_strlit("foreground");
    reveal_strlit("selection-background");
    reveal_strlit("selection-foreground");
    reveal_strlit("cursor-color");
    assert("background"@[0] != "foreground"@[0]);
    assert("selection-background"@[10] != "selection-foreground"@[10]);
}

/// A line of the palette sets the entry of its number.
pub proof fn law_palette_line_sets_its_entry(c: ColorsView, n: u8, x: Color, capital: bool)
    ensures
        applied(c, "palette"@, decimal(n as nat) + seq!['='] + color_text(x, capital)) == (ColorsView {
            palette: c.palette.insert(n, x),
            ..c
        }),
{
    law_color_is_read_back(x, capital);
    lemma_decimal_round_trip(n as nat);
    law_decimal_is_read_back(n as nat, 255);
    let d = decimal(n as nat);
    let t = color_text(x, capital);
    let v = d + seq!['='] + t;
    let k = d.len() as int;
    assert forall|j: int| 0 <= j < k implies #[trigger] v[j] != '=' by {
        assert(v[j] == d[j]);
        assert(is_digit(d[j]));
    }
    assert(v[k] == '=');
    lemma_next_char(v, '=', 0, k);
    assert(v.take(k) =~= d);
    assert(v.skip(k + 1) =~= t);
    assert(is_digit(d[0]) && is_digit(d[k - 1]));
    lemma_trim_tight(d);
    reveal_strlit("background");
    reveal_strlit("foreground");
    reveal_strlit("selection-background");
    reveal_strlit("selection-foreground");
    reveal_strlit("cursor-color");
    reveal_strlit("palette");
    assert("palette"@[0] == 'p');
}

/// The name of a theme, as it can stand in a list.
pub open spec fn is_theme_name(t: Seq<char>) -> bool {
    is_tight(t) && !t.contains(',') && !t.contains(':')
}

/// A theme for each mode is asked for by the name behind the mode, whichever comes first.
pub proof fn law_themes_are_asked_for(light: Seq<char>, dark: Seq<char>, r: ThemeRequest)
    requires
        is_theme_name(light),
        is_theme_name(dark),
    ensures
        requests(r, Some("light:"@ + light + seq![','] + ("dark:"@ + dark))) ==> (r matches ThemeRequest::Pair {
            light: l,
            dark: d,
        } && opt_view(l) == Some(light) && opt_view(d) == Some(dark)),
        requests(r, Some("dark:"@ + dark + seq![','] + ("light:"@ + light))) ==> (r matches ThemeRequest::Pair {
            light: l,
            dark: d,
        } && opt_view(l) == Some(light) && opt_view(d) == Some(dark)),
{
    reveal_strlit("light:");
    reveal_strlit("dark:");
    reveal_strlit("light");
    reveal_strlit("dark");
    let (a, b) = ("light:"@ + light, "dark:"@ + dark);
    assert("light:"@ =~= "light"@ + seq![':']);
    assert("dark:"@ =~= "dark"@ + seq![':']);
    lemma_mode_is_read("light"@, light);
    lemma_mode_is_read("dark"@, dark);
    assert(a =~= "light"@ + seq![':'] + light);
    assert(b =~= "dark"@ + seq![':'] + dark);
    assert(a[5] == ':' && b[4] == ':');
    assert forall|j: int| 0 <= j < a.len() implies #[trigger] a[j] != ',' by {
        if j >= 6 {
            assert(a[j] == light[j - 6]);
            assert(light.contains(light[j - 6]));
        }
    }
    assert forall|j: int| 0 <= j < b.len() implies #[trigger] b[j] != ',' by {
        if j >= 5 {
            assert(b[j] == dark[j - 5]);
            assert(dark.contains(dark[j - 5]));
        }
    }
    lemma_two_themes(a, b);
    lemma_two_themes(b, a);
    assert("light"@.len() != "dark"@.len());
    let none: (Option<Seq<char>>, Option<Seq<char>>) = (None, None);
    assert(named_themes(Seq::<Seq<char>>::empty()) == none);
    assert(seq![a].drop_last() =~= Seq::<Seq<char>>::empty());
    assert(seq![b].drop_last() =~= Seq::<Seq<char>>::empty());
    assert(seq![a, b].drop_last() =~= seq![a]);
    assert(seq![b, a].drop_last() =~= seq![b]);
    assert(named_themes(seq![a]) == (Some(light), None::<Seq<char>>));
    assert(named_themes(seq![b]) == (None::<Seq<char>>, Some(dark)));
}

/// The mode stands before the colon, and the name behind it.
proof fn lemma_mode_is_read(mode: Seq<char>, name: Seq<char>)
    requires
        is_tight(name),
        !mode.contains(':'),
    ensures
        split_once(mode + seq![':'] + name, ':') == Some((mode, name)),
        trim(name) == name,
{
    let s = mode + seq![':'] + name;
    let n = mode.len() as int;
    assert forall|j: int| 0 <= j < n implies #[trigger] s[j] != ':' by {
        assert(s[j] == mode[j]);
        assert(mode.contains(mode[j]));
    }
    assert(s[n] == ':');
    lemma_next_char(s, ':', 0, n);
    assert(s.take(n) =~= mode);
    assert(s.skip(n + 1) =~= name);
    if name.len() > 0 {
        lemma_trim_tight(name);
    } else {
        assert(trim(name) =~= name);
    }
}

/// Two parts with a comma between them are taken apart.
proof fn lemma_two_themes(a: Seq<char>, b: Seq<char>)
    requires
        !a.contains(','),
        !b.contains(','),
        a.contains(':'),
    ensures
        split(a + seq![','] + b, ',') == seq![a, b],
        find(a + seq![','] + b, ":"@) is Some,
{
    reveal_strlit(":");
    let s = a + seq![','] + b;
    let n = a.len() as int;
    assert forall|j: int| 0 <= j < n implies #[trigger] s[j] != ',' by {
        assert(s[j] == a[j]);
        assert(a.contains(a[j]));
    }
    assert(s[n] == ',');
    lemma_next_char(s, ',', 0, n);
    assert(s.take(n) =~= a);
    assert(s.skip(n + 1) =~= b);
    assert forall|j: int| 0 <= j < b.len() implies #[trigger] b[j] != ',' by {
        assert(b.contains(b[j]));
    }
    lemma_next_char(b, ',', 0, b.len() as int);
    assert(split(b, ',') =~= seq![b]);
    assert(seq![a] + seq![b] =~= seq![a, b]);
    lemma_find_from(s, ":"@, 0);
    let k = a.index_of(':');
    assert(s[k] == ':');
    assert(s.subrange(k, k + 1) =~= ":"@);
    assert(occurs_at(s, ":"@, k));
}

/// A `.cube` file is loaded as its table, under its title; an `.xmp` file as the sliders that its settings say, under
/// its name.
pub proof fn law_preset_files_are_loaded(
    r: Result<Preset, String>,
    file: Seq<char>,
    text: Seq<char>,
    group: Seq<char>,
    title: Seq<char>,
)
    requires
        gives_preset(r, file, text, group),
    ensures
        extension_of(file) == Some("cube"@) ==> match cube_of(text) {
            Ok(st) => r matches Ok(p) && p.group@ == group && (st.title == Some(title) ==> p.name@ == title) && (
            p.content matches Content::Table(lut) && lut.entries() == st.data && lut.size == st.size),
            Err(e) => r matches Err(x) && x@ == e,
        },
        extension_of(file) == Some("xmp"@) && xmp_of(text).0 == Some(title) ==> match r {
            Ok(p) => p.group@ == group && p.name@ == title && (p.content matches Content::Sliders(a) && follows(
                a,
                xmp_of(text).1,
            )),
            Err(_) => xmp_of(text).1.dom() == Set::<Seq<char>>::empty(),
        },
        extension_of(file) == Some("lrtemplate"@) && lrtemplate_of(text).0 == Some(title) ==> match r {
            Ok(p) => p.group@ == group && p.name@ == title && (p.content matches Content::Sliders(a) && follows(
                a,
                lrtemplate_of(text).1,
            )),
            Err(_) => lrtemplate_of(text).1.dom() == Set::<Seq<char>>::empty(),
        },
{
    reveal_strlit("cube");
    reveal_strlit("xmp");
    reveal_strlit("lrtemplate");
    assert("cube"@.len() != "xmp"@.len() && "xmp"@.len() != "lrtemplate"@.len() && "cube"@.len()
        != "lrtemplate"@.len());
}

/// A curve needs two points: with fewer numbers there is none, and a number that is left over is no point. Where the newer
/// tone curve is missing, the older one counts.
pub proof fn law_curves_need_two_points(a: Adjustments, m: Map<Seq<char>, SettingView>, v: Seq<Seq<char>>)
    requires
        follows(a, m),
    ensures
        m.dom().contains("ToneCurvePV2012Red"@) && m["ToneCurvePV2012Red"@] == SettingView::List(v)
            ==> a.curve_red@.len() == if v.len() < 4 {
            0
        } else {
            v.len() / 2
        },
        !m.dom().contains("ToneCurvePV2012Red"@) ==> a.curve_red@.len() == 0,
        !m.dom().contains("ToneCurvePV2012Green"@) ==> a.curve_green@.len() == 0,
        !m.dom().contains("ToneCurvePV2012Blue"@) ==> a.curve_blue@.len() == 0,
        !m.dom().contains("ToneCurvePV2012"@) && m.dom().contains("ToneCurve"@) && m["ToneCurve"@] == SettingView::List(
            v,
        ) && v.len() >= 4 ==> a.curve@.len() == v.len() / 2 && a.curve@[0].x@ == v[0] && a.curve@[0].y@ == v[1],
        !m.dom().contains("ToneCurvePV2012"@) && !m.dom().contains("ToneCurve"@) ==> a.curve@.len() == 0,
{
    assert(curve_view(a.curve_red@).len() == a.curve_red@.len());
    assert(curve_view(a.curve_green@).len() == a.curve_green@.len());
    assert(curve_view(a.curve_blue@).len() == a.curve_blue@.len());
    assert(curve_view(a.curve@).len() == a.curve@.len());
    if !m.dom().contains("ToneCurvePV2012"@) && m.dom().contains("ToneCurve"@) && m["ToneCurve"@] == SettingView::List(
        v,
    ) && v.len() >= 4 {
        assert(curve_view(a.curve@)[0] == pairs(v)[0]);
    }
}

/// A preset that keeps the camera's white balance keeps it, whatever absolute reading it has; and one that asks for black
/// and white is black and white.
pub proof fn law_words_are_heeded(a: Adjustments, m: Map<Seq<char>, SettingView>, t: Seq<char>)
    requires
        follows(a, m),
    ensures
        m.dom().contains("WhiteBalance"@) && m["WhiteBalance"@] == SettingView::Text(t) && lowercase_of(t) == "as shot"@
            && !m.dom().contains("IncrementalTemperature"@) && !m.dom().contains("IncrementalTint"@)
            ==> a.temperature is AsShot && a.tint is AsShot,
        m.dom().contains("ConvertToGrayscale"@) && m["ConvertToGrayscale"@] == SettingView::Text(t) && lowercase_of(t)
            == "true"@ ==> a.grayscale,
        m.dom().contains("Treatment"@) && m["Treatment"@] == SettingView::Text(t) && lowercase_of(t)
            == "blackandwhite"@ ==> a.grayscale,
{
}

/// A table is taken only where it has one entry for each point of its grid, of at least two points a side.
pub proof fn law_tables_are_complete(text: Seq<char>)
    ensures
        cube_of(text) matches Ok(st) ==> st.size >= 2 && st.data.len() == st.size * st.size * st.size,
{
}

/// A table with too few or too many lines is refused, and the message says how many there are.
pub proof fn law_wrong_count_is_refused(size: nat, table: Seq<TripleView>, gap: Seq<char>)
    requires
        size <= u32::MAX,
        forall|k: int| 0 <= k < table.len() ==> is_entry(#[trigger] table[k]),
        is_blank(gap),
        table.len() != size * size * size,
    ensures
        cube_of(keyword_line("LUT_3D_SIZE"@, decimal(size)) + seq!['\n'] + table_text(table, gap)) == Err::<
            CubeState,
            Seq<char>,
        >("expected "@ + decimal(size) + "\u{b3} entries, found "@ + decimal(table.len())),
{
    let sized = keyword_line("LUT_3D_SIZE"@, decimal(size));
    law_size_is_read_back(size, cube_start());
    lemma_decimal_round_trip(size);
    reveal_strlit("LUT_3D_SIZE");
    lemma_no_line_end("LUT_3D_SIZE"@, decimal(size));
    lemma_cube_line_by_line(sized, table_text(table, gap), cube_start());
    let st = CubeState { size, ..cube_start() };
    lemma_table_is_read(table, gap, st);
    let data = table.map_values(|t: TripleView| (t, st.min, st.max));
    assert(st.data + data =~= data);
}

/// Tables of one dimension are refused, and so is a size that is no number.
pub proof fn law_other_tables_are_refused(said: Seq<char>, st: CubeState)
    requires
        said.len() > 0,
        is_tight(said),
        forall|j: int| 0 <= j < said.len() ==> !is_space(#[trigger] said[j]),
    ensures
        cube_line(keyword_line("LUT_1D_SIZE"@, said), st) is Err,
        unsigned(said, u32::MAX as nat) is None ==> cube_line(keyword_line("LUT_3D_SIZE"@, said), st) is Err,
{
    reveal_strlit("TITLE");
    reveal_strlit("LUT_3D_SIZE");
    reveal_strlit("LUT_1D_SIZE");
    assert("TITLE"@[0] != "LUT_1D_SIZE"@[0] && "LUT_3D_SIZE"@[4] != "LUT_1D_SIZE"@[4]);
    lemma_keyword_line("LUT_1D_SIZE"@, said);
    lemma_keyword_line("LUT_3D_SIZE"@, said);
    lemma_word_end(said, 0, said.len() as int);
    assert(first_word(said) =~= said);
}

/// Comments, empty lines and lines that say nothing of a table change nothing.
pub proof fn law_comments_are_passed_over(said: Seq<char>, st: CubeState)
    requires
        said.len() > 0,
        !is_space(said.last()),
    ensures
        cube_line(seq!['#'] + said, st) == Ok::<CubeState, Seq<char>>(st),
        cube_line(seq![], st) == Ok::<CubeState, Seq<char>>(st),
{
    let line = seq!['#'] + said;
    assert(line[0] == '#' && line.last() == said.last() && !is_space('#'));
    lemma_trim_tight(line);
    assert(trim(Seq::<char>::empty()) =~= Seq::<char>::empty());
}

} // verus!
