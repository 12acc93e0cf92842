//! A command palette (Shift+⌘P), like VS Code's: type to filter, arrows + Enter to run.

use crate::order::{precedes, sort_numbers};
use crate::text::{chars_of, index_of, is_space, next_char, replace, replaced, string_of};
use crate::unicode::{alphanumeric_of, is_alphanumeric, lowercase, lowercase_of};
use vstd::prelude::*;

verus! {

#[derive(Clone, Copy, PartialEq, Eq, Debug, Structural)]
pub enum Command {
    OpenFile,
    OpenFolder,
    QuickExport,
    CopyToClipboard,
    GetFreePresets,
    ImportPresetFiles,
    ImportPresetFolder,
    ShowPresetsFolder,
}

/// Every command: what it does, its name in the palette, and its shortcut (see [`shortcut`]).
pub const COMMANDS: [(Command, &'static str, &'static str); 8] = [
    (Command::OpenFile, "Open File…", "Cmd+O"),
    (Command::OpenFolder, "Open Folder…", "Shift+Cmd+O"),
    (Command::QuickExport, "Quick Export (save as name-edited)", "Cmd+S"),
    (Command::CopyToClipboard, "Copy to Clipboard", "Cmd+C"),
    (Command::GetFreePresets, "Get Free Presets (750 film looks, 30 MB download)", ""),
    (Command::ImportPresetFiles, "Import Presets… (.xmp, .lrtemplate, .cube)", ""),
    (Command::ImportPresetFolder, "Import Preset Folder…", ""),
    (Command::ShowPresetsFolder, "Show Presets Folder", ""),
];

/// A shortcut label for the platform: "Shift+⌘O" on macOS, "Shift+Ctrl+O" elsewhere.
/// (Shift is spelled out: the ⇧ glyph is missing from common UI fonts.)
pub fn shortcut(keys: &str, macos: bool) -> (r: String)
    ensures
        r@ == replace(
            keys@,
            "Cmd+"@,
            if macos {
                "⌘"@
            } else {
                "Ctrl+"@
            },
        ),
{
    let k = chars_of(keys);
    let with = if macos {
        "⌘"
    } else {
        "Ctrl+"
    };
    string_of(&replaced(&k, "Cmd+", with))
}

// ---------------------------------------------------------------------------------------------
// Matching
// ---------------------------------------------------------------------------------------------

/// What it costs to find a character at `at`, looking from `pos` on: what was passed over, and two
/// more where no word begins there.
pub open spec fn match_cost(name: Seq<char>, pos: int, at: int) -> nat {
    (at - pos + if at == 0 || !alphanumeric_of(name[at - 1]) {
        0int
    } else {
        2int
    }) as nat
}

/// The score of matching the characters of `query`, white space aside, in order in `name` from
/// `pos` on, each at the first place where it stands.
pub open spec fn fuzzy_from(query: Seq<char>, name: Seq<char>, pos: int) -> Option<nat>
    decreases query.len(),
{
    if query.len() == 0 {
        Some(0)
    } else if is_space(query[0]) {
        fuzzy_from(query.skip(1), name, pos)
    } else {
        let at = next_char(name, query[0], pos);
        if at >= name.len() {
            None
        } else {
            match fuzzy_from(query.skip(1), name, at + 1) {
                Some(rest) => Some(match_cost(name, pos, at) + rest),
                None => None,
            }
        }
    }
}

/// The score of a query for a name, in any case.
pub open spec fn score_of(query: Seq<char>, name: Seq<char>) -> Option<nat> {
    fuzzy_from(lowercase_of(query), lowercase_of(name), 0)
}

/// The sum of a cost and a score.
pub open spec fn plus(cost: nat, rest: Option<nat>) -> Option<nat> {
    match rest {
        Some(r) => Some(cost + r),
        None => None,
    }
}

/// Fuzzy match of a query and a name that are both in lower case.
pub fn fuzzy(query: &[char], name: &[char]) -> (r: Option<u128>)
    ensures
        match r {
            Some(n) => fuzzy_from(query@, name@, 0) == Some(n as nat) && n <= 3 * usize::MAX,
            None => fuzzy_from(query@, name@, 0) is None,
        },
{
    let mut pos: usize = 0;
    let mut score: u128 = 0;
    let mut i: usize = 0;
    assert(query@.skip(0) == query@);
    while i < query.len()
        invariant
            i <= query@.len(),
            pos <= name@.len(),
            score <= 3 * pos,
            plus(score as nat, fuzzy_from(query@.skip(i as int), name@, pos as int)) == fuzzy_from(
                query@,
                name@,
                0,
            ),
        decreases query.len() - i,
    {
        let q = query[i];
        assert(query@.skip(i as int).skip(1) == query@.skip(i + 1));
        if !is_space(q) {
            let at: usize = index_of(name, q, pos);
            if at >= name.len() {
                return None;
            }
            let word_start = at == 0 || !is_alphanumeric(name[at - 1]);
            score = score + (at - pos) as u128 + if word_start {
                0
            } else {
                2
            };
            pos = at + 1;
        }
        i = i + 1;
    }
    Some(score)
}

/// Fuzzy match: every query character appears in order. Lower scores are better (tighter
/// matches, and matches at word starts); `None` if it doesn't match.
pub fn score(query: &str, name: &str) -> (r: Option<u128>)
    ensures
        match r {
            Some(n) => score_of(query@, name@) == Some(n as nat) && n <= 3 * usize::MAX,
            None => score_of(query@, name@) is None,
        },
{
    let q = chars_of(lowercase(query).as_str());
    let n = chars_of(lowercase(name).as_str());
    fuzzy(&q, &n)
}

/// The empty query matches every name, at no cost.
pub proof fn law_empty_query_matches(name: Seq<char>)
    ensures
        fuzzy_from(seq![], name, 0) == Some(0nat),
{
}

/// A query of white space matches like the empty one, and white space in front of a query changes
/// nothing.
pub proof fn law_space_is_ignored(c: char, query: Seq<char>, name: Seq<char>, pos: int)
    requires
        is_space(c),
    ensures
        fuzzy_from(seq![c] + query, name, pos) == fuzzy_from(query, name, pos),
{
    assert((seq![c] + query).skip(1) == query);
}

/// Typing more never improves a match: what the longer query matches, the shorter one matched already, and at
/// no higher cost.
pub proof fn law_typing_more_never_improves(
    query: Seq<char>,
    more: Seq<char>,
    name: Seq<char>,
    pos: int,
)
    requires
        fuzzy_from(query + more, name, pos) is Some,
    ensures
        fuzzy_from(query, name, pos) is Some,
        fuzzy_from(query, name, pos)->0 <= fuzzy_from(query + more, name, pos)->0,
    decreases query.len(),
{
    if query.len() > 0 {
        let all = query + more;
        assert(all[0] == query[0]);
        assert(all.skip(1) =~= query.skip(1) + more);
        if is_space(query[0]) {
            law_typing_more_never_improves(query.skip(1), more, name, pos);
        } else {
            let at = next_char(name, query[0], pos);
            law_typing_more_never_improves(query.skip(1), more, name, at + 1);
        }
    }
}

/// `list` holds the numbers of the names with a score, each once, the lowest score first and equal
/// scores in the order of the names.
pub open spec fn lists_matches(list: Seq<usize>, scores: Seq<Option<nat>>) -> bool {
    &&& forall|i: int|
        0 <= i < list.len() ==> (#[trigger] list[i]) < scores.len() && scores[list[i] as int] is Some
    &&& forall|i: int, j: int|
        0 <= i < j < list.len() ==> {
            let a = #[trigger] list[i];
            let b = #[trigger] list[j];
            scores[a as int]->0 < scores[b as int]->0 || (scores[a as int]->0
                == scores[b as int]->0 && a < b)
        }
    &&& forall|c: int| 0 <= c < scores.len() && (#[trigger] scores[c]) is Some ==> list.contains(
        c as usize,
    )
}

/// The score of a query for every command.
pub open spec fn command_scores(query: Seq<char>) -> Seq<Option<nat>> {
    Seq::new(COMMANDS@.len(), |i: int| score_of(query, COMMANDS@[i].1@))
}

/// The commands that match `query`, the best first, as places in [`COMMANDS`].
pub fn matching(query: &str) -> (r: Vec<usize>)
    ensures
        lists_matches(r@, command_scores(query@)),
{
    let ghost scores = command_scores(query@);
    let mut hits: Vec<usize> = Vec::new();
    let mut keys: Vec<i128> = Vec::new();
    let mut i: usize = 0;
    while i < COMMANDS.len()
        invariant
            i <= COMMANDS@.len(),
            scores == command_scores(query@),
            hits@.len() == keys@.len(),
            forall|k: int|
                0 <= k < hits@.len() ==> (#[trigger] hits@[k]) < i && scores[hits@[k] as int] is Some
                    && keys@[k] == scores[hits@[k] as int]->0,
            forall|k: int, m: int|
                0 <= k < m < hits@.len() ==> (#[trigger] hits@[k]) < (#[trigger] hits@[m]),
            forall|c: int| 0 <= c < i && (#[trigger] scores[c]) is Some ==> hits@.contains(c as usize),
        decreases COMMANDS.len() - i,
    {
        let ghost before = hits@;
        assert(scores[i as int] == score_of(query@, COMMANDS@[i as int].1@));
        match score(query, COMMANDS[i].1) {
            Some(n) => {
                hits.push(i);
                keys.push(n as i128);
                assert(hits@[hits@.len() - 1] == i);
            },
            None => {},
        }
        assert forall|c: int| 0 <= c < i + 1 && (#[trigger] scores[c]) is Some implies hits@.contains(
            c as usize,
        ) by {
            if c < i {
                let k = choose|k: int| 0 <= k < before.len() && before[k] == c as usize;
                assert(hits@[k] == c as usize);
            }
        }
        i = i + 1;
    }
    let order = sort_numbers(&keys);
    let mut out: Vec<usize> = Vec::new();
    let mut j: usize = 0;
    while j < order.len()
        invariant
            j <= order@.len(),
            order@.len() == hits@.len(),
            forall|k: int| 0 <= k < order@.len() ==> (#[trigger] order@[k]) < hits@.len(),
            out@.len() == j,
            forall|k: int| 0 <= k < j ==> (#[trigger] out@[k]) == hits@[order@[k] as int],
        decreases order.len() - j,
    {
        out.push(hits[order[j]]);
        j = j + 1;
    }
    assert forall|c: int| 0 <= c < scores.len() && (#[trigger] scores[c]) is Some implies out@.contains(
        c as usize,
    ) by {
        let k = choose|k: int| 0 <= k < hits@.len() && hits@[k] == c as usize;
        assert(order@.contains(k as usize));
        let m = choose|m: int| 0 <= m < order@.len() && order@[m] == k as usize;
        assert(out@[m] == c as usize);
    }
    assert forall|a: int, b: int| 0 <= a < b < out@.len() implies {
        let x = #[trigger] out@[a];
        let y = #[trigger] out@[b];
        scores[x as int]->0 < scores[y as int]->0 || (scores[x as int]->0 == scores[y as int]->0 && x
            < y)
    } by {
        assert(precedes(keys@, order@[a], order@[b]));
    }
    out
}

// ---------------------------------------------------------------------------------------------
// The palette
// ---------------------------------------------------------------------------------------------

pub struct Palette {
    open: bool,
    query: String,
    selected: usize,
    /// Focus the search box on the first frame after opening.
    focus: bool,
}

/// What a [`Palette`] holds.
pub struct PaletteView {
    pub open: bool,
    pub query: Seq<char>,
    pub selected: nat,
    pub focus: bool,
}

impl View for Palette {
    type V = PaletteView;

    closed spec fn view(&self) -> PaletteView {
        PaletteView {
            open: self.open,
            query: self.query@,
            selected: self.selected as nat,
            focus: self.focus,
        }
    }
}

/// The row that is selected once the keys of a frame are taken in: within the list, moved up or
/// down by one where there is room.
pub open spec fn moved(selected: nat, up: bool, down: bool, rows: nat) -> nat {
    let last = if rows == 0 {
        0nat
    } else {
        (rows - 1) as nat
    };
    let s = if selected <= last {
        selected
    } else {
        last
    };
    let s = if up && s > 0 {
        (s - 1) as nat
    } else {
        s
    };
    if down && s + 1 < rows {
        s + 1
    } else {
        s
    }
}

impl Default for Palette {
    fn default() -> (r: Palette)
        ensures
            r@ == (PaletteView { open: false, query: seq![], selected: 0, focus: false }),
    {
        Palette { open: false, query: String::new(), selected: 0, focus: false }
    }
}

impl Palette {
    /// Whether the palette is shown.
    pub fn is_open(&self) -> (r: bool)
        ensures
            r == self@.open,
    {
        self.open
    }

    /// What has been typed.
    pub fn query(&self) -> (r: &String)
        ensures
            r@ == self@.query,
    {
        &self.query
    }

    /// The selected row.
    pub fn selected(&self) -> (r: usize)
        ensures
            r == self@.selected,
    {
        self.selected
    }

    /// Opens or closes the palette. It opens empty, on the first row, with the search box in focus.
    pub fn toggle(&mut self)
        ensures
            final(self)@ == (PaletteView {
                open: !old(self)@.open,
                query: seq![],
                selected: 0,
                focus: !old(self)@.open,
            }),
    {
        self.open = !self.open;
        self.query = String::new();
        self.selected = 0;
        self.focus = self.open;
    }

    /// Begins a frame: takes in the keys, and gives the rows to show (as places in [`COMMANDS`])
    /// and the command that Enter runs. A closed palette shows nothing and ignores the keys.
    pub fn begin(&mut self, up: bool, down: bool, enter: bool) -> (r: Option<
        (Vec<usize>, Option<Command>),
    >)
        ensures
            match r {
                Some((rows, chosen)) => {
                    &&& old(self)@.open
                    &&& lists_matches(rows@, command_scores(old(self)@.query))
                    &&& final(self)@ == (PaletteView {
                        selected: moved(old(self)@.selected, up, down, rows@.len()),
                        ..old(self)@
                    })
                    &&& chosen == if enter && rows@.len() > 0 {
                        Some(COMMANDS@[rows@[final(self)@.selected as int] as int].0)
                    } else {
                        None
                    }
                },
                None => !old(self)@.open && *final(self) == *old(self),
            },
    {
        if !self.open {
            return None;
        }
        let rows = matching(self.query.as_str());
        let last: usize = if rows.len() == 0 {
            0
        } else {
            rows.len() - 1
        };
        if self.selected > last {
            self.selected = last;
        }
        if up && self.selected > 0 {
            self.selected = self.selected - 1;
        }
        if down && self.selected < last {
            self.selected = self.selected + 1;
        }
        let chosen = if enter && rows.len() > 0 {
            Some(COMMANDS[rows[self.selected]].0)
        } else {
            None
        };
        Some((rows, chosen))
    }

    /// Whether to focus the search box: on the first frame after opening.
    pub fn take_focus(&mut self) -> (r: bool)
        ensures
            r == old(self)@.focus,
            final(self)@ == (PaletteView { focus: false, ..old(self)@ }),
    {
        let r = self.focus;
        self.focus = false;
        r
    }

    /// The user has changed the query: the first row is selected.
    pub fn edited(&mut self, query: String)
        ensures
            final(self)@ == (PaletteView { query: query@, selected: 0, ..old(self)@ }),
    {
        self.query = query;
        self.selected = 0;
    }

    /// The pointer is over a row: it is selected.
    pub fn hovered(&mut self, row: usize)
        ensures
            final(self)@ == (PaletteView { selected: row as nat, ..old(self)@ }),
    {
        self.selected = row;
    }

    /// Ends a frame: the palette closes on Escape, when a command was chosen, and on a click
    /// outside.
    pub fn end(&mut self, escape: bool, chosen: Option<Command>, clicked_outside: bool)
        ensures
            final(self)@ == (PaletteView {
                open: old(self)@.open && !(escape || chosen is Some || clicked_outside),
                ..old(self)@
            }),
    {
        if escape || chosen.is_some() || clicked_outside {
            self.open = false;
        }
    }
}

/// The selected row is always one of those shown, where any is.
pub proof fn law_selection_in_list(selected: nat, up: bool, down: bool, rows: nat)
    requires
        rows > 0,
    ensures
        moved(selected, up, down, rows) < rows,
{
}

/// The characters of a query that count.
pub open spec fn letters_of(query: Seq<char>) -> Seq<char>
    decreases query.len(),
{
    if query.len() == 0 {
        query
    } else if is_space(query[0]) {
        letters_of(query.skip(1))
    } else {
        seq![query[0]] + letters_of(query.skip(1))
    }
}

/// The letters stand in the name at these places, in order, from `pos` on.
pub open spec fn stand_at(letters: Seq<char>, name: Seq<char>, places: Seq<int>, pos: int) -> bool {
    &&& places.len() == letters.len()
    &&& forall|i: int| 0 <= i < places.len() ==> pos <= #[trigger] places[i] < name.len() && name[places[i]] == letters[i]
    &&& forall|i: int, j: int| 0 <= i < j < places.len() ==> #[trigger] places[i] < #[trigger] places[j]
}

/// A query matches a name wherever its characters stand in the name in order.
pub proof fn law_letters_in_order_match(query: Seq<char>, name: Seq<char>, pos: int, places: Seq<int>)
    requires
        0 <= pos <= name.len(),
        stand_at(letters_of(query), name, places, pos),
    ensures
        fuzzy_from(query, name, pos) is Some,
    decreases query.len(),
{
    if query.len() > 0 {
        if is_space(query[0]) {
            law_letters_in_order_match(query.skip(1), name, pos, places);
        } else {
            let letters = letters_of(query);
            let at = next_char(name, query[0], pos);
            crate::text::lemma_next_char(name, query[0], pos);
            let first = places[0];
            assert(letters[0] == query[0]);
            assert(pos <= first < name.len() && name[first] == query[0]);
            assert(at <= first);
            let rest = places.skip(1);
            let more = letters_of(query.skip(1));
            assert(letters.skip(1) =~= more);
            assert forall|i: int| 0 <= i < rest.len() implies at + 1 <= #[trigger] rest[i] < name.len()
                && name[rest[i]] == more[i] by {
                assert(rest[i] == places[i + 1]);
                assert(places[0] < places[i + 1]);
                assert(letters[i + 1] == more[i]);
            }
            assert forall|i: int, j: int| 0 <= i < j < rest.len() implies #[trigger] rest[i] < #[trigger] rest[j] by {
                assert(places[i + 1] < places[j + 1]);
            }
            law_letters_in_order_match(query.skip(1), name, at + 1, rest);
        }
    }
}

/// A query that matches a name has its characters in the name, in order.
pub proof fn law_match_has_its_letters(query: Seq<char>, name: Seq<char>, pos: int) -> (places: Seq<int>)
    requires
        0 <= pos <= name.len(),
        fuzzy_from(query, name, pos) is Some,
    ensures
        stand_at(letters_of(query), name, places, pos),
    decreases query.len(),
{
    if query.len() == 0 {
        seq![]
    } else if is_space(query[0]) {
        law_match_has_its_letters(query.skip(1), name, pos)
    } else {
        let at = next_char(name, query[0], pos);
        crate::text::lemma_next_char(name, query[0], pos);
        let rest = law_match_has_its_letters(query.skip(1), name, at + 1);
        let places = seq![at] + rest;
        let letters = letters_of(query);
        assert forall|i: int| 0 <= i < places.len() implies pos <= #[trigger] places[i] < name.len()
            && name[places[i]] == letters[i] by {
            if i > 0 {
                assert(places[i] == rest[i - 1]);
                assert(letters[i] == letters_of(query.skip(1))[i - 1]);
            }
        }
        assert forall|i: int, j: int| 0 <= i < j < places.len() implies #[trigger] places[i] < #[trigger] places[j] by {
            assert(places[j] == rest[j - 1]);
            if i > 0 {
                assert(places[i] == rest[i - 1]);
            }
        }
        places
    }
}

} // verus!
