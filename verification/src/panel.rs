//! The preset panel: which presets are shown, in which sections, and how the arrow keys move through
//! them.

use crate::numeral::{decimal, push_decimal};
use crate::text::{chars_of, find, has_text, join, join_texts, joined, text_eq, views};
use crate::unicode::{lowercase, lowercase_of};
use vstd::prelude::*;

verus! {

/// A preset as the panel lists it.
pub struct Item {
    pub name: String,
    pub group: String,
    /// Part of the program, and not read from a file.
    pub builtin: bool,
}

/// The name, the group, and whether the preset is built in.
pub type ItemView = (Seq<char>, Seq<char>, bool);

/// What the listed presets are.
pub open spec fn items_view(items: Seq<Item>) -> Seq<ItemView> {
    items.map_values(|p: Item| (p.name@, p.group@, p.builtin))
}

// ---------------------------------------------------------------------------------------------
// Filter
// ---------------------------------------------------------------------------------------------

/// The name or the group holds the filter, whatever the case.
pub open spec fn is_shown(item: ItemView, filter: Seq<char>) -> bool {
    let f = lowercase_of(filter);
    find(lowercase_of(item.0), f) is Some || find(lowercase_of(item.1), f) is Some
}

/// Those of the first `n` presets that the filter shows, in order.
pub open spec fn shown(items: Seq<ItemView>, filter: Seq<char>, n: nat) -> Seq<usize>
    decreases n,
{
    if n == 0 {
        seq![]
    } else {
        let before = shown(items, filter, (n - 1) as nat);
        if is_shown(items[n - 1], filter) {
            before.push((n - 1) as usize)
        } else {
            before
        }
    }
}

/// The presets that the filter shows, in order.
pub fn visible(items: &[Item], filter: &str) -> (r: Vec<usize>)
    ensures
        r@ == shown(items_view(items@), filter@, items@.len()),
{
    let ghost all = items_view(items@);
    let f = lowercase(filter);
    let mut out: Vec<usize> = Vec::new();
    let mut i: usize = 0;
    while i < items.len()
        invariant
            i <= items@.len(),
            all == items_view(items@),
            f@ == lowercase_of(filter@),
            out@ == shown(all, filter@, i as nat),
        decreases items.len() - i,
    {
        assert(all[i as int] == (items@[i as int].name@, items@[i as int].group@, items@[i as int].builtin));
        let name = chars_of(lowercase(items[i].name.as_str()).as_str());
        let group = chars_of(lowercase(items[i].group.as_str()).as_str());
        if has_text(&name, f.as_str()) || has_text(&group, f.as_str()) {
            out.push(i);
        }
        i = i + 1;
    }
    out
}

/// Every shown index is one of a preset that the filter shows, every such preset is shown, and the
/// order is kept.
pub proof fn law_filter_shows_what_matches(items: Seq<ItemView>, filter: Seq<char>, n: nat)
    requires
        n <= items.len(),
        n <= usize::MAX,
    ensures
        ({
            let s = shown(items, filter, n);
            &&& forall|k: int| 0 <= k < s.len() ==> (#[trigger] s[k]) < n && is_shown(items[s[k] as int], filter)
            &&& forall|i: int|
                0 <= i < n && #[trigger] is_shown(items[i], filter) ==> s.contains(i as usize)
            &&& forall|j: int, k: int| 0 <= j < k < s.len() ==> #[trigger] s[j] < #[trigger] s[k]
        }),
    decreases n,
{
    if n > 0 {
        law_filter_shows_what_matches(items, filter, (n - 1) as nat);
        let before = shown(items, filter, (n - 1) as nat);
        let s = shown(items, filter, n);
        assert forall|i: int| 0 <= i < n && #[trigger] is_shown(items[i], filter) implies s.contains(
            i as usize,
        ) by {
            if i == n - 1 {
                assert(s.last() == i as usize);
            } else {
                let k = choose|k: int| 0 <= k < before.len() && before[k] == i as usize;
                assert(s[k] == i as usize);
            }
        }
    }
}

// ---------------------------------------------------------------------------------------------
// Sections
// ---------------------------------------------------------------------------------------------

/// A collapsible section of the panel.
pub struct Section {
    pub title: String,
    pub id: String,
    pub items: Vec<usize>,
    /// Open unless the user has closed it.
    pub open: bool,
    /// The section of recommendations.
    pub recommended: bool,
}

/// What a [`Section`] holds.
pub struct SectionView {
    pub title: Seq<char>,
    pub id: Seq<char>,
    pub items: Seq<usize>,
    pub open: bool,
    pub recommended: bool,
}

impl View for Section {
    type V = SectionView;

    open spec fn view(&self) -> SectionView {
        SectionView {
            title: self.title@,
            id: self.id@,
            items: self.items@,
            open: self.open,
            recommended: self.recommended,
        }
    }
}

/// What the sections are.
pub open spec fn sections_view(v: Seq<Section>) -> Seq<SectionView> {
    v.map_values(|s: Section| s@)
}

/// The groups of the presets, in the order in which they first occur.
pub open spec fn groups_of(items: Seq<ItemView>, of: Seq<usize>) -> Seq<Seq<char>>
    decreases of.len(),
{
    if of.len() == 0 {
        seq![]
    } else {
        let before = groups_of(items, of.drop_last());
        let g = items[of.last() as int].1;
        if before.contains(g) {
            before
        } else {
            before.push(g)
        }
    }
}

/// Those of the presets that are in this group, in order.
pub open spec fn members(items: Seq<ItemView>, of: Seq<usize>, group: Seq<char>) -> Seq<usize>
    decreases of.len(),
{
    if of.len() == 0 {
        seq![]
    } else {
        let before = members(items, of.drop_last(), group);
        if items[of.last() as int].1 == group {
            before.push(of.last())
        } else {
            before
        }
    }
}

/// The section of a group: open at first where its first preset is built in.
pub open spec fn group_section(items: Seq<ItemView>, of: Seq<usize>, group: Seq<char>) -> SectionView {
    let m = members(items, of, group);
    SectionView {
        title: group,
        id: group,
        items: m,
        open: m.len() > 0 && items[m[0] as int].2,
        recommended: false,
    }
}

/// The section of recommendations.
pub open spec fn recommended_section(recommended: Seq<usize>) -> SectionView {
    SectionView {
        title: "★ Recommended for this photo"@,
        id: "recommended"@,
        items: recommended,
        open: true,
        recommended: true,
    }
}

/// The sections of the panel: the recommendations, unless the user filters or there are none, and one
/// for each group.
pub open spec fn sections_of(
    items: Seq<ItemView>,
    of: Seq<usize>,
    filtering: bool,
    has_photo: bool,
    recommended: Seq<usize>,
) -> Seq<SectionView> {
    let first = if !filtering && has_photo && recommended.len() > 0 {
        seq![recommended_section(recommended)]
    } else {
        seq![]
    };
    first + groups_of(items, of).map_values(|g: Seq<char>| group_section(items, of, g))
}

fn has_group(groups: &Vec<String>, group: &str) -> (r: bool)
    ensures
        r == views(groups@).contains(group@),
{
    let ghost all = views(groups@);
    let mut i: usize = 0;
    while i < groups.len()
        invariant
            i <= groups@.len(),
            all == views(groups@),
            forall|k: int| 0 <= k < i ==> #[trigger] all[k] != group@,
        decreases groups.len() - i,
    {
        assert(all[i as int] == groups@[i as int]@);
        if text_eq(groups[i].as_str(), group) {
            return true;
        }
        i = i + 1;
    }
    false
}

fn list_groups(items: &[Item], of: &[usize]) -> (r: Vec<String>)
    requires
        forall|k: int| 0 <= k < of@.len() ==> #[trigger] of@[k] < items@.len(),
    ensures
        views(r@) == groups_of(items_view(items@), of@),
{
    let ghost all = items_view(items@);
    let mut out: Vec<String> = Vec::new();
    assert(views(out@) =~= seq![]);
    assert(of@.take(0) =~= seq![]);
    let mut i: usize = 0;
    while i < of.len()
        invariant
            i <= of@.len(),
            all == items_view(items@),
            forall|k: int| 0 <= k < of@.len() ==> #[trigger] of@[k] < items@.len(),
            views(out@) == groups_of(all, of@.take(i as int)),
        decreases of.len() - i,
    {
        let ghost had = views(out@);
        assert(of@.take(i + 1).drop_last() =~= of@.take(i as int));
        let p = &items[of[i]];
        assert(all[of@[i as int] as int].1 == p.group@);
        if !has_group(&out, p.group.as_str()) {
            out.push(p.group.clone());
            assert(views(out@) =~= had.push(p.group@));
        }
        i = i + 1;
    }
    assert(of@.take(of@.len() as int) =~= of@);
    out
}

fn list_members(items: &[Item], of: &[usize], group: &str) -> (r: Vec<usize>)
    requires
        forall|k: int| 0 <= k < of@.len() ==> #[trigger] of@[k] < items@.len(),
    ensures
        r@ == members(items_view(items@), of@, group@),
        forall|k: int| 0 <= k < r@.len() ==> #[trigger] r@[k] < items@.len(),
{
    let ghost all = items_view(items@);
    let mut out: Vec<usize> = Vec::new();
    assert(of@.take(0) =~= seq![]);
    let mut i: usize = 0;
    while i < of.len()
        invariant
            i <= of@.len(),
            all == items_view(items@),
            forall|k: int| 0 <= k < of@.len() ==> #[trigger] of@[k] < items@.len(),
            forall|k: int| 0 <= k < out@.len() ==> #[trigger] out@[k] < items@.len(),
            out@ == members(all, of@.take(i as int), group@),
        decreases of.len() - i,
    {
        assert(of@.take(i + 1).drop_last() =~= of@.take(i as int));
        let p = &items[of[i]];
        assert(all[of@[i as int] as int].1 == p.group@);
        if text_eq(p.group.as_str(), group) {
            out.push(of[i]);
        }
        i = i + 1;
    }
    assert(of@.take(of@.len() as int) =~= of@);
    out
}

/// The sections of the panel, which shows the presets `of`.
pub fn sections(
    items: &[Item],
    of: &[usize],
    filtering: bool,
    has_photo: bool,
    recommended: &[usize],
) -> (r: Vec<Section>)
    requires
        forall|k: int| 0 <= k < of@.len() ==> #[trigger] of@[k] < items@.len(),
    ensures
        sections_view(r@) == sections_of(
            items_view(items@),
            of@,
            filtering,
            has_photo,
            recommended@,
        ),
{
    let ghost all = items_view(items@);
    let mut out: Vec<Section> = Vec::new();
    if !filtering && has_photo && recommended.len() > 0 {
        let mut all: Vec<usize> = Vec::new();
        all.extend_from_slice(recommended);
        assert(all@ =~= recommended@);
        out.push(
            Section {
                title: "★ Recommended for this photo".to_owned(),
                id: "recommended".to_owned(),
                items: all,
                open: true,
                recommended: true,
            },
        );
    }
    let ghost first = sections_view(out@);
    let groups = list_groups(items, of);
    let ghost each = |g: Seq<char>| group_section(all, of@, g);
    let ghost names = views(groups@);
    assert(first + names.take(0).map_values(each) =~= first);
    let mut i: usize = 0;
    while i < groups.len()
        invariant
            i <= groups@.len(),
            all == items_view(items@),
            names == views(groups@),
            each == (|g: Seq<char>| group_section(all, of@, g)),
            forall|k: int| 0 <= k < of@.len() ==> #[trigger] of@[k] < items@.len(),
            sections_view(out@) == first + names.take(i as int).map_values(each),
        decreases groups.len() - i,
    {
        let ghost had = sections_view(out@);
        let group = groups[i].as_str();
        assert(names[i as int] == group@);
        let m = list_members(items, of, group);
        let open = m.len() > 0 && items[m[0]].builtin;
        let s = Section {
            title: group.to_owned(),
            id: group.to_owned(),
            items: m,
            open,
            recommended: false,
        };
        let ghost sv = s@;
        assert(sv == group_section(all, of@, group@));
        out.push(s);
        assert(sections_view(out@) =~= had.push(sv));
        assert(names.take(i + 1).map_values(each) =~= names.take(i as int).map_values(each).push(sv));
        assert(sections_view(out@) =~= first + names.take(i + 1).map_values(each));
        i = i + 1;
    }
    assert(names.take(names.len() as int) =~= names);
    assert(first =~= if !filtering && has_photo && recommended@.len() > 0 {
        seq![recommended_section(recommended@)]
    } else {
        seq![]
    });
    out
}

proof fn lemma_groups(items: Seq<ItemView>, of: Seq<usize>, g: Seq<char>)
    ensures
        groups_of(items, of).contains(g) <==> members(items, of, g).len() > 0,
        forall|i: int, j: int|
            0 <= i < j < groups_of(items, of).len() ==> groups_of(items, of)[i] != groups_of(
                items,
                of,
            )[j],
    decreases of.len(),
{
    if of.len() > 0 {
        let rest = of.drop_last();
        let before = groups_of(items, rest);
        lemma_groups(items, rest, g);
        let last = items[of.last() as int].1;
        if !before.contains(last) {
            let now = groups_of(items, of);
            assert(now == before.push(last));
            assert(now.last() == last);
            if before.contains(g) {
                let k = choose|k: int| 0 <= k < before.len() && before[k] == g;
                assert(now[k] == g);
            }
            assert forall|i: int, j: int| 0 <= i < j < now.len() implies now[i] != now[j] by {
                if j == before.len() {
                    assert(now[i] == before[i]);
                    assert(before.contains(before[i]));
                }
            }
        }
    }
}

/// The groups of the panel differ, none of them is empty, and each shown preset has its group among
/// them: every preset can be found in exactly one group.
pub proof fn law_every_preset_has_a_section(items: Seq<ItemView>, of: Seq<usize>, k: int)
    requires
        0 <= k < of.len(),
    ensures
        groups_of(items, of).contains(items[of[k] as int].1),
        members(items, of, items[of[k] as int].1).contains(of[k]),
        forall|i: int, j: int|
            0 <= i < j < groups_of(items, of).len() ==> groups_of(items, of)[i] != groups_of(
                items,
                of,
            )[j],
        forall|i: int|
            0 <= i < groups_of(items, of).len() ==> members(
                items,
                of,
                #[trigger] groups_of(items, of)[i],
            ).len() > 0,
    decreases of.len(),
{
    let g = items[of[k] as int].1;
    lemma_members(items, of, k);
    lemma_groups(items, of, g);
    assert forall|i: int| 0 <= i < groups_of(items, of).len() implies members(
        items,
        of,
        #[trigger] groups_of(items, of)[i],
    ).len() > 0 by {
        let h = groups_of(items, of)[i];
        assert(groups_of(items, of).contains(h));
        lemma_groups(items, of, h);
    }
}

proof fn lemma_members(items: Seq<ItemView>, of: Seq<usize>, k: int)
    requires
        0 <= k < of.len(),
    ensures
        members(items, of, items[of[k] as int].1).contains(of[k]),
    decreases of.len(),
{
    let g = items[of[k] as int].1;
    let m = members(items, of, g);
    if k == of.len() - 1 {
        assert(m.last() == of[k]);
    } else {
        let rest = of.drop_last();
        lemma_members(items, rest, k);
        let b = members(items, rest, g);
        let j = choose|j: int| 0 <= j < b.len() && b[j] == of[k];
        assert(m[j] == of[k]);
    }
}

/// The title of a section, with the number of its presets.
pub fn heading(title: &str, count: usize) -> (r: String)
    ensures
        r@ == title@ + "  ("@ + decimal(count as nat) + ")"@,
{
    let mut out = joined(title, "  (");
    push_decimal(&mut out, count as u64);
    out.append(")");
    out
}

/// The first place from `k` on where `indices` has `i`.
pub open spec fn index_place(indices: Seq<usize>, i: usize, k: int) -> Option<int>
    decreases indices.len() - k,
{
    if k < 0 || k >= indices.len() {
        None
    } else if indices[k] == i {
        Some(k)
    } else {
        index_place(indices, i, k + 1)
    }
}

/// Why preset `i` is recommended, where `recommended` are the recommended presets and `reasons` says why
/// each of them is: the reasons in one line. None where there is no reason to give.
pub fn note(recommended: &[usize], reasons: &[Vec<String>], i: usize) -> (r: Option<String>)
    requires
        recommended@.len() == reasons@.len(),
    ensures
        ({
            let text = match index_place(recommended@, i, 0) {
                Some(k) => join(views(reasons@[k]@), " · "@),
                None => seq![],
            };
            match r {
                Some(t) => t@ == text && text.len() > 0,
                None => text.len() == 0,
            }
        }),
{
    let mut k: usize = 0;
    while k < recommended.len()
        invariant
            k <= recommended@.len(),
            recommended@.len() == reasons@.len(),
            index_place(recommended@, i, 0) == index_place(recommended@, i, k as int),
        decreases recommended.len() - k,
    {
        if recommended[k] == i {
            let text = join_texts(reasons[k].as_slice(), " · ");
            if text_eq(text.as_str(), "") {
                proof {
                    reveal_strlit("");
                }
                return None;
            }
            proof {
                reveal_strlit("");
                if text@.len() == 0 {
                    assert(text@ =~= ""@);
                }
            }
            return Some(text);
        }
        k = k + 1;
    }
    None
}

// ---------------------------------------------------------------------------------------------
// Arrow keys
// ---------------------------------------------------------------------------------------------

/// What a cell of the panel shows: a preset, in a section.
pub struct Cell {
    pub preset: usize,
    pub section: String,
}

/// The preset and the section of each cell.
pub open spec fn cells_view(cells: Seq<Cell>) -> Seq<(usize, Seq<char>)> {
    cells.map_values(|c: Cell| (c.preset, c.section@))
}

/// The first cell from `k` on with this preset; in this section, where one is given.
pub open spec fn cell_place(
    cells: Seq<(usize, Seq<char>)>,
    preset: usize,
    section: Option<Seq<char>>,
    k: int,
) -> Option<int>
    decreases cells.len() - k,
{
    if k < 0 || k >= cells.len() {
        None
    } else if cells[k].0 == preset && (section is Some ==> section == Some(cells[k].1)) {
        Some(k)
    } else {
        cell_place(cells, preset, section, k + 1)
    }
}

/// The cell of the selected preset: the one in the section that it was selected in, or else the first.
pub open spec fn selected_cell(
    cells: Seq<(usize, Seq<char>)>,
    preset: usize,
    section: Seq<char>,
) -> Option<int> {
    match cell_place(cells, preset, Some(section), 0) {
        Some(k) => Some(k),
        None => cell_place(cells, preset, None, 0),
    }
}

/// The cell of the selected preset: the one in the section that it was selected in, or else the first.
pub fn current_cell(cells: &[Cell], preset: usize, section: &str) -> (r: Option<usize>)
    ensures
        match r {
            Some(k) => selected_cell(cells_view(cells@), preset, section@) == Some(k as int) && k
                < cells@.len(),
            None => selected_cell(cells_view(cells@), preset, section@) is None,
        },
{
    let ghost all = cells_view(cells@);
    let mut k: usize = 0;
    while k < cells.len()
        invariant
            k <= cells@.len(),
            all == cells_view(cells@),
            cell_place(all, preset, Some(section@), 0) == cell_place(
                all,
                preset,
                Some(section@),
                k as int,
            ),
        decreases cells.len() - k,
    {
        assert(all[k as int] == (cells@[k as int].preset, cells@[k as int].section@));
        if cells[k].preset == preset && text_eq(cells[k].section.as_str(), section) {
            return Some(k);
        }
        k = k + 1;
    }
    k = 0;
    while k < cells.len()
        invariant
            k <= cells@.len(),
            all == cells_view(cells@),
            cell_place(all, preset, Some(section@), 0) is None,
            cell_place(all, preset, None, 0) == cell_place(all, preset, None, k as int),
        decreases cells.len() - k,
    {
        assert(all[k as int] == (cells@[k as int].preset, cells@[k as int].section@));
        if cells[k].preset == preset {
            return Some(k);
        }
        k = k + 1;
    }
    None
}

/// The first of the least distances among those that count.
pub open spec fn is_nearest(r: Option<int>, among: Seq<bool>, distance: Seq<i32>) -> bool {
    match r {
        Some(i) => {
            &&& 0 <= i < among.len()
            &&& among[i]
            &&& forall|k: int| 0 <= k < among.len() && #[trigger] among[k] ==> distance[i] <= distance[k]
            &&& forall|k: int| 0 <= k < i && #[trigger] among[k] ==> distance[i] < distance[k]
        },
        None => forall|k: int| 0 <= k < among.len() ==> !#[trigger] among[k],
    }
}

/// Which of those that count is nearest; the first of several. Distances are given by numbers that are
/// ordered as they are.
pub fn nearest(among: &[bool], distance: &[i32]) -> (r: Option<usize>)
    requires
        among@.len() == distance@.len(),
    ensures
        is_nearest(
            match r {
                Some(i) => Some(i as int),
                None => None,
            },
            among@,
            distance@,
        ),
{
    let mut best: Option<usize> = None;
    let mut k: usize = 0;
    while k < among.len()
        invariant
            k <= among@.len(),
            among@.len() == distance@.len(),
            is_nearest(
                match best {
                    Some(i) => Some(i as int),
                    None => None,
                },
                among@.take(k as int),
                distance@,
            ),
            best matches Some(i) ==> i < k,
        decreases among.len() - k,
    {
        let ghost had = among@.take(k as int);
        let ghost now = among@.take(k + 1);
        assert(forall|j: int| 0 <= j < k ==> had[j] == #[trigger] now[j]);
        assert(now[k as int] == among@[k as int]);
        if among[k] {
            let closer = match best {
                Some(i) => distance[k] < distance[i],
                None => true,
            };
            if closer {
                best = Some(k);
                assert(forall|j: int| 0 <= j < k && #[trigger] now[j] ==> had[j]);
            }
        }
        assert(forall|j: int| 0 <= j <= k && #[trigger] now[j] ==> j == k || had[j]);
        k = k + 1;
    }
    assert(among@.take(k as int) =~= among@);
    best
}

/// The arrow keys that were pressed.
#[derive(Clone, Copy, PartialEq, Eq, Debug)]
pub struct Arrows {
    pub left: bool,
    pub right: bool,
    pub up: bool,
    pub down: bool,
}

/// Where arrow keys lead from cell `current` of `count` cells: left and right step through them, up and
/// down go to the nearest cell of those that are `in_row`. The first cell where none is selected.
pub open spec fn steps_to(
    r: int,
    count: int,
    current: Option<int>,
    keys: Arrows,
    in_row: Seq<bool>,
    distance: Seq<i32>,
) -> bool {
    match current {
        None => r == 0,
        Some(c) => if keys.left {
            r == if c > 0 {
                c - 1
            } else {
                0
            }
        } else if keys.right {
            r == if c + 1 < count {
                c + 1
            } else {
                count - 1
            }
        } else if keys.up || keys.down {
            is_nearest(Some(r), in_row, distance) || (r == c && is_nearest(None, in_row, distance))
        } else {
            r == c
        },
    }
}

/// Next cell for arrow keys, over cells in display order: left/right step through them; up/down pick
/// the closest of the cells in the nearest row in that direction.
///
/// `in_row` marks the cells of that row, and `distance` says how far to the side each cell is.
pub fn grid_step(
    count: usize,
    current: Option<usize>,
    keys: Arrows,
    in_row: &[bool],
    distance: &[i32],
) -> (r: usize)
    requires
        current matches Some(c) ==> c < count,
        in_row@.len() == distance@.len(),
    ensures
        steps_to(
            r as int,
            count as int,
            match current {
                Some(c) => Some(c as int),
                None => None,
            },
            keys,
            in_row@,
            distance@,
        ),
{
    match current {
        None => 0,
        Some(c) => {
            if keys.left {
                if c > 0 {
                    c - 1
                } else {
                    0
                }
            } else if keys.right {
                if c < count - 1 {
                    c + 1
                } else {
                    count - 1
                }
            } else if keys.up || keys.down {
                match nearest(in_row, distance) {
                    Some(i) => i,
                    None => c,
                }
            } else {
                c
            }
        },
    }
}

/// The arrow keys never leave the cells: from a cell they lead to a cell.
pub proof fn law_arrows_stay_in_the_grid(
    r: int,
    count: int,
    current: Option<int>,
    keys: Arrows,
    in_row: Seq<bool>,
    distance: Seq<i32>,
)
    requires
        count > 0,
        in_row.len() == count,
        current matches Some(c) ==> 0 <= c < count,
        steps_to(r, count, current, keys, in_row, distance),
    ensures
        0 <= r < count,
{
}

/// Right undoes left, except at the first cell.
pub proof fn law_right_undoes_left(
    count: int,
    c: int,
    back: int,
    forth: int,
    in_row: Seq<bool>,
    distance: Seq<i32>,
)
    requires
        0 < c < count,
        steps_to(
            back,
            count,
            Some(c),
            Arrows { left: true, right: false, up: false, down: false },
            in_row,
            distance,
        ),
        steps_to(
            forth,
            count,
            Some(back),
            Arrows { left: false, right: true, up: false, down: false },
            in_row,
            distance,
        ),
    ensures
        forth == c,
{
}

} // verus!
