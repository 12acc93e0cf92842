//! Stepping through the photos in a folder, with the neighbours decoded ahead of time.
//!
//! A photo is named by the text of its path. Listing a folder and decoding are the caller's; the
//! browser says what to decode and takes in what has been decoded.

use crate::loader::{bytes_of, is_photo, is_photo_name, Decoded, Pixels};
use crate::order::{sort_texts, text_le, text_precedes};
use crate::text::{chars_of, text_eq, views};
use crate::unicode::{lowercase, lowercase_of};
use vstd::prelude::*;

verus! {

/// Don't keep decoded neighbours larger than this in memory.
pub const MAX_CACHED_BYTES: u128 = 419430400;

/// A photo and what decoding it gave.
pub type Loaded = (String, Result<Decoded, String>);

// ---------------------------------------------------------------------------------------------
// Listing
// ---------------------------------------------------------------------------------------------

/// An entry of a folder: its name, and whether it is a file.
pub struct Entry {
    pub name: String,
    pub is_file: bool,
}

/// An entry that is shown: a photo that is not hidden.
pub open spec fn is_listed(e: Entry) -> bool {
    e.is_file && is_photo_name(e.name@) && !(e.name@.len() > 0 && e.name@[0] == '.')
}

/// `r` lists the entries that are shown, each once, by their names in lower case; equal names in the
/// order of the entries.
pub open spec fn lists(r: Seq<usize>, entries: Seq<Entry>) -> bool {
    &&& forall|i: int| 0 <= i < r.len() ==> (#[trigger] r[i]) < entries.len() && is_listed(
        entries[r[i] as int],
    )
    &&& forall|i: int, j: int|
        0 <= i < j < r.len() ==> {
            let a = #[trigger] r[i];
            let b = #[trigger] r[j];
            let x = lowercase_of(entries[a as int].name@);
            let y = lowercase_of(entries[b as int].name@);
            text_le(x, y) && (x == y ==> a < b)
        }
    &&& forall|k: int| 0 <= k < entries.len() && is_listed(#[trigger] entries[k]) ==> r.contains(
        k as usize,
    )
}

fn listed(e: &Entry) -> (r: bool)
    ensures
        r == is_listed(*e),
{
    if !e.is_file || !is_photo(e.name.as_str()) {
        return false;
    }
    let name = chars_of(e.name.as_str());
    !(name.len() > 0 && name[0] == '.')
}

/// Photos in a folder, sorted by file name (case-insensitive), skipping hidden files, as places among
/// the folder's entries.
pub fn list_photos(entries: &[Entry]) -> (r: Vec<usize>)
    ensures
        lists(r@, entries@),
{
    let mut kept: Vec<usize> = Vec::new();
    let mut keys: Vec<String> = Vec::new();
    let mut i: usize = 0;
    while i < entries.len()
        invariant
            i <= entries@.len(),
            kept@.len() == keys@.len(),
            forall|k: int|
                0 <= k < kept@.len() ==> (#[trigger] kept@[k]) < i && is_listed(
                    entries@[kept@[k] as int],
                ) && keys@[k]@ == lowercase_of(entries@[kept@[k] as int].name@),
            forall|k: int, m: int|
                0 <= k < m < kept@.len() ==> (#[trigger] kept@[k]) < (#[trigger] kept@[m]),
            forall|c: int| 0 <= c < i && is_listed(#[trigger] entries@[c]) ==> kept@.contains(
                c as usize,
            ),
        decreases entries.len() - i,
    {
        let ghost before = kept@;
        if listed(&entries[i]) {
            kept.push(i);
            keys.push(lowercase(entries[i].name.as_str()));
            assert(kept@[kept@.len() - 1] == i);
        }
        assert forall|c: int| 0 <= c < i + 1 && is_listed(#[trigger] entries@[c]) implies kept@.contains(
            c as usize,
        ) by {
            if c < i {
                let k = choose|k: int| 0 <= k < before.len() && before[k] == c as usize;
                assert(kept@[k] == c as usize);
            }
        }
        i = i + 1;
    }
    let order = sort_texts(&keys);
    let mut out: Vec<usize> = Vec::new();
    let mut j: usize = 0;
    while j < order.len()
        invariant
            j <= order@.len(),
            order@.len() == kept@.len(),
            forall|k: int| 0 <= k < order@.len() ==> (#[trigger] order@[k]) < kept@.len(),
            out@.len() == j,
            forall|k: int| 0 <= k < j ==> (#[trigger] out@[k]) == kept@[order@[k] as int],
        decreases order.len() - j,
    {
        out.push(kept[order[j]]);
        j = j + 1;
    }
    assert forall|c: int| 0 <= c < entries@.len() && is_listed(#[trigger] entries@[c]) implies out@.contains(
        c as usize,
    ) by {
        let k = choose|k: int| 0 <= k < kept@.len() && kept@[k] == c as usize;
        assert(order@.contains(k as usize));
        let m = choose|m: int| 0 <= m < order@.len() && order@[m] == k as usize;
        assert(out@[m] == c as usize);
    }
    assert forall|a: int, b: int| 0 <= a < b < out@.len() implies {
        let x = #[trigger] out@[a];
        let y = #[trigger] out@[b];
        let p = lowercase_of(entries@[x as int].name@);
        let q = lowercase_of(entries@[y as int].name@);
        text_le(p, q) && (p == q ==> x < y)
    } by {
        assert(text_precedes(views(keys@), order@[a], order@[b]));
        assert(views(keys@)[order@[a] as int] == keys@[order@[a] as int]@);
        assert(views(keys@)[order@[b] as int] == keys@[order@[b] as int]@);
    }
    out
}

// ---------------------------------------------------------------------------------------------
// The browser
// ---------------------------------------------------------------------------------------------

pub struct Browser {
    dir: Option<String>,
    /// Photos in `dir`, sorted by name.
    pub files: Vec<String>,
    cache: Vec<(String, Decoded)>,
    inflight: Vec<String>,
    /// A photo the user moved to while it was still being preloaded.
    pub pending: Option<String>,
}

/// What a [`Browser`] holds.
pub struct BrowserView {
    pub dir: Option<Seq<char>>,
    pub files: Seq<Seq<char>>,
    pub cache: Seq<(Seq<char>, Decoded)>,
    pub inflight: Seq<Seq<char>>,
    pub pending: Option<Seq<char>>,
}

/// Decoded photos with the views of their paths.
pub open spec fn cache_view(c: Seq<(String, Decoded)>) -> Seq<(Seq<char>, Decoded)> {
    c.map_values(|p: (String, Decoded)| (p.0@, p.1))
}

impl View for Browser {
    type V = BrowserView;

    closed spec fn view(&self) -> BrowserView {
        BrowserView {
            dir: crate::preset::opt_view(self.dir),
            files: views(self.files@),
            cache: cache_view(self.cache@),
            inflight: views(self.inflight@),
            pending: crate::preset::opt_view(self.pending),
        }
    }
}

/// The first place of a path in a list.
pub open spec fn place_of(files: Seq<Seq<char>>, path: Seq<char>, i: int) -> Option<int>
    decreases files.len() - i,
{
    if i < 0 || i >= files.len() {
        None
    } else if files[i] == path {
        Some(i)
    } else {
        place_of(files, path, i + 1)
    }
}

/// `place_of` gives the first place, and `None` only where the path is not in the list.
pub proof fn lemma_place_of(files: Seq<Seq<char>>, path: Seq<char>, i: int)
    requires
        0 <= i,
    ensures
        match place_of(files, path, i) {
            Some(k) => i <= k < files.len() && files[k] == path && forall|j: int|
                i <= j < k ==> #[trigger] files[j] != path,
            None => forall|j: int| i <= j < files.len() ==> #[trigger] files[j] != path,
        },
    decreases files.len() - i,
{
    if i < files.len() && files[i] != path {
        lemma_place_of(files, path, i + 1);
    }
}

/// The photo `delta` places from `photo`, where there is one.
pub open spec fn neighbour_of(files: Seq<Seq<char>>, photo: Seq<char>, delta: int) -> Option<Seq<char>> {
    match place_of(files, photo, 0) {
        Some(i) => if 0 <= i + delta < files.len() {
            Some(files[i + delta])
        } else {
            None
        },
        None => None,
    }
}

/// A list of one path, or of none.
pub open spec fn path_list(o: Option<Seq<char>>) -> Seq<Seq<char>> {
    match o {
        Some(p) => seq![p],
        None => seq![],
    }
}

/// The photos either side of `current`, the next one first.
pub open spec fn wanted_around(files: Seq<Seq<char>>, current: Seq<char>) -> Seq<Seq<char>> {
    path_list(neighbour_of(files, current, 1)) + path_list(neighbour_of(files, current, -1))
}

/// The decoded photos among those in `wanted`.
pub open spec fn kept_cache(
    cache: Seq<(Seq<char>, Decoded)>,
    wanted: Seq<Seq<char>>,
) -> Seq<(Seq<char>, Decoded)>
    decreases cache.len(),
{
    if cache.len() == 0 {
        cache
    } else if wanted.contains(cache.last().0) {
        kept_cache(cache.drop_last(), wanted).push(cache.last())
    } else {
        kept_cache(cache.drop_last(), wanted)
    }
}

/// A path is among the decoded photos.
pub open spec fn is_cached(cache: Seq<(Seq<char>, Decoded)>, path: Seq<char>) -> bool {
    exists|i: int| 0 <= i < cache.len() && (#[trigger] cache[i]).0 == path
}

/// The photos of `wanted` to decode: those that are neither decoded nor being decoded.
pub open spec fn to_start(
    wanted: Seq<Seq<char>>,
    cache: Seq<(Seq<char>, Decoded)>,
    inflight: Seq<Seq<char>>,
) -> Seq<Seq<char>>
    decreases wanted.len(),
{
    if wanted.len() == 0 {
        seq![]
    } else {
        let before = to_start(wanted.drop_last(), cache, inflight);
        if (inflight + before).contains(wanted.last()) || is_cached(cache, wanted.last()) {
            before
        } else {
            before.push(wanted.last())
        }
    }
}

/// The photos being decoded once `path` has arrived.
pub open spec fn without(inflight: Seq<Seq<char>>, path: Seq<char>) -> Seq<Seq<char>>
    decreases inflight.len(),
{
    if inflight.len() == 0 {
        inflight
    } else if inflight.last() == path {
        without(inflight.drop_last(), path)
    } else {
        without(inflight.drop_last(), path).push(inflight.last())
    }
}

/// The browser and the awaited photo, once a decoded photo has arrived: the awaited one is handed on;
/// any other is kept, unless it could not be decoded or is too large.
pub open spec fn arrived(
    st: (BrowserView, Option<Loaded>),
    message: Loaded,
) -> (BrowserView, Option<Loaded>) {
    let b = BrowserView { inflight: without(st.0.inflight, message.0@), ..st.0 };
    if b.pending == Some(message.0@) {
        (BrowserView { pending: None, ..b }, Some(message))
    } else {
        match message.1 {
            Ok(d) => if bytes_of(d.pixels) <= MAX_CACHED_BYTES {
                (BrowserView { cache: b.cache.push((message.0@, d)), ..b }, st.1)
            } else {
                (b, st.1)
            },
            Err(_) => (b, st.1),
        }
    }
}

/// The browser and the awaited photo, once several decoded photos have arrived.
pub open spec fn arrived_all(b: BrowserView, messages: Seq<Loaded>) -> (BrowserView, Option<Loaded>)
    decreases messages.len(),
{
    if messages.len() == 0 {
        (b, None)
    } else {
        arrived(arrived_all(b, messages.drop_last()), messages.last())
    }
}

/// The bytes that a decoded photo takes.
pub fn size_of(d: &Decoded) -> (r: u128)
    ensures
        r == bytes_of(d.pixels),
{
    match &d.pixels {
        Pixels::Srgb8(p) => p.len() as u128,
        Pixels::LinearF16(p) => p.len() as u128 * 2,
    }
}

fn find_path(files: &[String], path: &str) -> (r: Option<usize>)
    ensures
        match r {
            Some(i) => place_of(views(files@), path@, 0) == Some(i as int) && i < files@.len(),
            None => place_of(views(files@), path@, 0) is None,
        },
{
    let ghost all = views(files@);
    let mut i: usize = 0;
    while i < files.len()
        invariant
            i <= files@.len(),
            all == views(files@),
            place_of(all, path@, 0) == place_of(all, path@, i as int),
        decreases files.len() - i,
    {
        assert(all[i as int] == files@[i as int]@);
        if text_eq(files[i].as_str(), path) {
            return Some(i);
        }
        i = i + 1;
    }
    None
}

fn has_path(files: &[String], path: &str) -> (r: bool)
    ensures
        r == views(files@).contains(path@),
{
    proof {
        lemma_place_of(views(files@), path@, 0);
    }
    match find_path(files, path) {
        Some(i) => {
            assert(views(files@)[i as int] == path@);
            true
        },
        None => false,
    }
}

fn has_cached(cache: &Vec<(String, Decoded)>, path: &str) -> (r: bool)
    ensures
        r == is_cached(cache_view(cache@), path@),
{
    let ghost all = cache_view(cache@);
    let mut i: usize = 0;
    while i < cache.len()
        invariant
            i <= cache@.len(),
            all == cache_view(cache@),
            forall|k: int| 0 <= k < i ==> (#[trigger] all[k]).0 != path@,
        decreases cache.len() - i,
    {
        assert(all[i as int].0 == cache@[i as int].0@);
        if text_eq(cache[i].0.as_str(), path) {
            return true;
        }
        i = i + 1;
    }
    false
}

fn same_dir(a: &Option<String>, b: &Option<String>) -> (r: bool)
    ensures
        r == (crate::preset::opt_view(*a) == crate::preset::opt_view(*b)),
{
    match (a, b) {
        (Some(x), Some(y)) => text_eq(x.as_str(), y.as_str()),
        (None, None) => true,
        _ => false,
    }
}

/// The first place from `i` on where the cache holds this photo.
pub open spec fn cached_place(cache: Seq<(Seq<char>, Decoded)>, path: Seq<char>, i: int) -> Option<
    int,
>
    decreases cache.len() - i,
{
    if i < 0 || i >= cache.len() {
        None
    } else if cache[i].0 == path {
        Some(i)
    } else {
        cached_place(cache, path, i + 1)
    }
}

/// What is left once a preloaded photo is taken, and the photo. The last photo of the cache takes its
/// place.
pub open spec fn taken(b: BrowserView, path: Seq<char>) -> (BrowserView, Option<Decoded>) {
    match cached_place(b.cache, path, 0) {
        Some(i) => (
            BrowserView { cache: b.cache.update(i, b.cache.last()).drop_last(), ..b },
            Some(b.cache[i].1),
        ),
        None => (b, None),
    }
}

/// A browser that has seen no folder yet.
pub open spec fn empty_browser() -> BrowserView {
    BrowserView { dir: None, files: seq![], cache: seq![], inflight: seq![], pending: None }
}

/// The browser once the listing of a folder was handed over for a photo: it counts where the folder is
/// another one or the photo is new, and what was decoded ahead is forgotten then.
pub open spec fn indexed(
    b: BrowserView,
    photo: Seq<char>,
    dir: Option<Seq<char>>,
    listing: Seq<Seq<char>>,
) -> BrowserView {
    if dir != b.dir || !b.files.contains(photo) {
        BrowserView { dir, files: listing, cache: seq![], ..b }
    } else {
        b
    }
}

/// The browser once it looks ahead from `current`, and the photos to decode.
pub open spec fn prefetched(b: BrowserView, current: Seq<char>) -> (BrowserView, Seq<Seq<char>>) {
    let wanted = wanted_around(b.files, current);
    let kept = kept_cache(b.cache, wanted);
    let start = to_start(wanted, kept, b.inflight);
    (BrowserView { cache: kept, inflight: b.inflight + start, ..b }, start)
}

impl Browser {
    pub fn new() -> (r: Browser)
        ensures
            r@ == empty_browser(),
    {
        let r = Browser {
            dir: None,
            files: Vec::new(),
            cache: Vec::new(),
            inflight: Vec::new(),
            pending: None,
        };
        assert(r@.files =~= seq![] && r@.cache =~= seq![] && r@.inflight =~= seq![]);
        r
    }

    /// Whether the folder has to be listed for `photo` in `dir`: it is another one, or the photo is
    /// new to us.
    pub fn is_stale(&self, photo: &str, dir: &Option<String>) -> (r: bool)
        ensures
            r == (crate::preset::opt_view(*dir) != self@.dir || !self@.files.contains(photo@)),
    {
        !same_dir(dir, &self.dir) || !has_path(&self.files, photo)
    }

    /// Takes over the listing of the folder `dir` that contains `photo`, if it changed or the photo
    /// is new to us (see [`Browser::is_stale`]). What was decoded ahead in another listing is
    /// forgotten.
    pub fn index(&mut self, photo: &str, dir: Option<String>, listing: Vec<String>)
        ensures
            final(self)@ == indexed(
                old(self)@,
                photo@,
                crate::preset::opt_view(dir),
                views(listing@),
            ),
    {
        if self.is_stale(photo, &dir) {
            self.files = listing;
            self.cache = Vec::new();
            self.dir = dir;
            assert(self@.cache =~= seq![]);
        }
    }

    pub fn position(&self, photo: &str) -> (r: Option<usize>)
        ensures
            match r {
                Some(i) => place_of(self@.files, photo@, 0) == Some(i as int),
                None => place_of(self@.files, photo@, 0) is None,
            },
    {
        find_path(&self.files, photo)
    }

    pub fn neighbour(&self, photo: &str, delta: isize) -> (r: Option<String>)
        ensures
            crate::preset::opt_view(r) == neighbour_of(self@.files, photo@, delta as int),
    {
        match find_path(&self.files, photo) {
            Some(i) => {
                let at: i128 = i as i128 + delta as i128;
                if 0 <= at && at < self.files.len() as i128 {
                    assert(self@.files[at as int] == self.files@[at as int]@);
                    Some(self.files[at as usize].clone())
                } else {
                    None
                }
            },
            None => None,
        }
    }

    /// A preloaded photo, removed from the cache.
    pub fn take(&mut self, path: &str) -> (r: Option<Decoded>)
        ensures
            (final(self)@, r) == taken(old(self)@, path@),
    {
        let ghost all = self@.cache;
        let mut i: usize = 0;
        while i < self.cache.len()
            invariant
                i <= self.cache@.len(),
                *self == *old(self),
                all == cache_view(self.cache@),
                all == old(self)@.cache,
                cached_place(all, path@, 0) == cached_place(all, path@, i as int),
            decreases self.cache.len() - i,
        {
            assert(all[i as int].0 == self.cache@[i as int].0@);
            if text_eq(self.cache[i].0.as_str(), path) {
                let (_, d) = self.cache.swap_remove(i);
                assert(self@.cache =~= all.update(i as int, all.last()).drop_last());
                return Some(d);
            }
            i = i + 1;
        }
        None
    }

    /// The user waits for this photo, or for none.
    pub fn wait_for(&mut self, path: Option<String>)
        ensures
            final(self)@ == (BrowserView {
                pending: crate::preset::opt_view(path),
                ..old(self)@
            }),
    {
        self.pending = path;
    }

    pub fn is_inflight(&self, path: &str) -> (r: bool)
        ensures
            r == self@.inflight.contains(path@),
    {
        has_path(&self.inflight, path)
    }

    fn forget_all_but(&mut self, wanted: &[String])
        ensures
            final(self)@ == (BrowserView {
                cache: kept_cache(old(self)@.cache, views(wanted@)),
                ..old(self)@
            }),
    {
        let mut kept: Vec<(String, Decoded)> = Vec::new();
        let mut all: Vec<(String, Decoded)> = Vec::new();
        let ghost before = self@;
        std::mem::swap(&mut all, &mut self.cache);
        let ghost items = cache_view(all@);
        let ghost w = views(wanted@);
        assert(items.take(0) =~= seq![]);
        assert(cache_view(kept@) =~= seq![]);
        for x in it: all.into_iter()
            invariant
                it.seq() == all@,
                items == cache_view(all@),
                w == views(wanted@),
                cache_view(kept@) == kept_cache(items.take(it.index()), w),
        {
            let ghost i = it.index();
            let ghost had = cache_view(kept@);
            assert(items.take(i + 1).drop_last() == items.take(i));
            assert(items.take(i + 1).last() == (x.0@, x.1));
            if has_path(wanted, x.0.as_str()) {
                kept.push(x);
                assert(cache_view(kept@) =~= had.push(items[i]));
            }
        }
        assert(items.take(items.len() as int) == items);
        self.cache = kept;
    }

    /// Forgets all decoded photos but those either side of `current`, and gives those to decode; they
    /// count as being decoded from then on.
    pub fn prefetch(&mut self, current: &str) -> (r: Vec<String>)
        ensures
            (final(self)@, views(r@)) == prefetched(old(self)@, current@),
    {
        let mut wanted: Vec<String> = Vec::new();
        let ghost old_inflight = self@.inflight;
        assert(views(wanted@) =~= seq![]);
        if let Some(p) = self.neighbour(current, 1) {
            wanted.push(p);
        }
        assert(views(wanted@) =~= path_list(neighbour_of(self@.files, current@, 1)));
        if let Some(p) = self.neighbour(current, -1) {
            wanted.push(p);
        }
        assert(views(wanted@) =~= wanted_around(self@.files, current@));
        self.forget_all_but(&wanted);
        let ghost after = self@;
        let ghost w = views(wanted@);
        let mut start: Vec<String> = Vec::new();
        let mut i: usize = 0;
        assert(w.take(0) =~= seq![]);
        assert(views(start@) =~= seq![]);
        assert(old_inflight + views(start@) =~= old_inflight);
        while i < wanted.len()
            invariant
                i <= wanted@.len(),
                w == views(wanted@),
                views(start@) == to_start(w.take(i as int), after.cache, old_inflight),
                self@ == (BrowserView { inflight: old_inflight + views(start@), ..after }),
            decreases wanted.len() - i,
        {
            let ghost had = views(start@);
            assert(w.take(i + 1).drop_last() == w.take(i as int));
            assert(w.take(i + 1).last() == wanted@[i as int]@);
            let path = wanted[i].as_str();
            if !has_path(&self.inflight, path) && !has_cached(&self.cache, path) {
                let ghost flying = self@.inflight;
                self.inflight.push(path.to_owned());
                assert(self@.inflight =~= flying.push(path@));
                start.push(path.to_owned());
                assert(views(start@) =~= had.push(path@));
                assert(self@.inflight =~= old_inflight + views(start@));
            }
            i = i + 1;
        }
        assert(w.take(i as int) == w);
        start
    }

    fn drop_inflight(&mut self, path: &str)
        ensures
            final(self)@ == (BrowserView {
                inflight: without(old(self)@.inflight, path@),
                ..old(self)@
            }),
    {
        let mut kept: Vec<String> = Vec::new();
        let ghost all = self@.inflight;
        let mut i: usize = 0;
        assert(all.take(0) =~= seq![]);
        assert(views(kept@) =~= seq![]);
        while i < self.inflight.len()
            invariant
                i <= self.inflight@.len(),
                *self == *old(self),
                all == views(self.inflight@),
                views(kept@) == without(all.take(i as int), path@),
            decreases self.inflight.len() - i,
        {
            let ghost had = views(kept@);
            assert(all.take(i + 1).drop_last() == all.take(i as int));
            assert(all.take(i + 1).last() == self.inflight@[i as int]@);
            if !text_eq(self.inflight[i].as_str(), path) {
                kept.push(self.inflight[i].clone());
                assert(views(kept@) =~= had.push(all[i as int]));
            }
            i = i + 1;
        }
        assert(all.take(i as int) == all);
        self.inflight = kept;
    }

    /// Collects finished preloads; returns the one the user is waiting for, if it arrived.
    pub fn poll(&mut self, messages: Vec<Loaded>) -> (r: Option<Loaded>)
        ensures
            (final(self)@, r) == arrived_all(old(self)@, messages@),
    {
        let mut ready: Option<Loaded> = None;
        let ghost start = self@;
        assert(messages@.take(0) =~= seq![]);
        for message in it: messages.into_iter()
            invariant
                it.seq() == messages@,
                (self@, ready) == arrived_all(start, messages@.take(it.index())),
        {
            let ghost i = it.index();
            assert(messages@.take(i + 1).drop_last() == messages@.take(i));
            assert(messages@.take(i + 1).last() == message);
            let (path, result) = message;
            self.drop_inflight(path.as_str());
            let awaited = match &self.pending {
                Some(p) => text_eq(p.as_str(), path.as_str()),
                None => false,
            };
            if awaited {
                self.pending = None;
                ready = Some((path, result));
            } else if let Ok(d) = result {
                if size_of(&d) <= MAX_CACHED_BYTES {
                    let ghost had = self@.cache;
                    self.cache.push((path, d));
                    assert(self@.cache =~= had.push((path@, d)));
                }
            }
        }
        assert(messages@.take(messages@.len() as int) == messages@);
        ready
    }

    /// Whether photos are being decoded.
    pub fn busy(&self) -> (r: bool)
        ensures
            r == (self@.inflight.len() > 0),
    {
        self.inflight.len() > 0
    }
}

// ---------------------------------------------------------------------------------------------
// What stepping and preloading promise
// ---------------------------------------------------------------------------------------------

/// Stepping back undoes stepping forward: where no file is listed twice, the photo `-delta` from the
/// one that is `delta` from here is this one.
pub proof fn law_neighbour_round_trip(files: Seq<Seq<char>>, photo: Seq<char>, delta: int)
    requires
        files.no_duplicates(),
        neighbour_of(files, photo, delta) is Some,
    ensures
        neighbour_of(files, neighbour_of(files, photo, delta)->0, -delta) == Some(photo),
{
    lemma_place_of(files, photo, 0);
    let i = place_of(files, photo, 0)->0;
    let there = files[i + delta];
    lemma_place_of(files, there, 0);
    let j = place_of(files, there, 0)->0;
    assert(files[j] == files[i + delta]);
    assert(j == i + delta);
}

/// Stepping by one from each photo but the last visits them in order.
pub proof fn law_next_is_successor(files: Seq<Seq<char>>, i: int)
    requires
        files.no_duplicates(),
        0 <= i < files.len() - 1,
    ensures
        neighbour_of(files, files[i], 1) == Some(files[i + 1]),
{
    lemma_place_of(files, files[i], 0);
    let j = place_of(files, files[i], 0)->0;
    assert(files[j] == files[i]);
    assert(j == i);
}

/// There is nothing before the first photo and nothing behind the last.
pub proof fn law_ends_have_no_neighbour(files: Seq<Seq<char>>)
    requires
        files.no_duplicates(),
        files.len() > 0,
    ensures
        neighbour_of(files, files[0], -1) is None,
        neighbour_of(files, files.last(), 1) is None,
{
    lemma_place_of(files, files[0], 0);
    lemma_place_of(files, files.last(), 0);
    let j = place_of(files, files.last(), 0)->0;
    assert(files[j] == files[files.len() - 1]);
}

/// Every decoded photo that is kept is one of those wanted.
pub proof fn law_cache_holds_wanted_only(
    cache: Seq<(Seq<char>, Decoded)>,
    wanted: Seq<Seq<char>>,
    i: int,
)
    requires
        0 <= i < kept_cache(cache, wanted).len(),
    ensures
        wanted.contains(kept_cache(cache, wanted)[i].0),
        cache.contains(kept_cache(cache, wanted)[i]),
    decreases cache.len(),
{
    if cache.len() > 0 {
        let shorter = kept_cache(cache.drop_last(), wanted);
        if i < shorter.len() {
            law_cache_holds_wanted_only(cache.drop_last(), wanted, i);
            let d = cache.drop_last();
            let k = choose|k: int| 0 <= k < d.len() && d[k] == shorter[i];
            assert(cache[k] == kept_cache(cache, wanted)[i]);
        } else {
            assert(cache[cache.len() - 1] == kept_cache(cache, wanted)[i]);
        }
    }
}

/// A photo is never decoded twice at the same time: where no photo is being decoded twice, none is
/// after more have been started.
pub proof fn law_no_photo_twice_in_flight(
    wanted: Seq<Seq<char>>,
    cache: Seq<(Seq<char>, Decoded)>,
    inflight: Seq<Seq<char>>,
)
    requires
        inflight.no_duplicates(),
    ensures
        (inflight + to_start(wanted, cache, inflight)).no_duplicates(),
    decreases wanted.len(),
{
    if wanted.len() > 0 {
        law_no_photo_twice_in_flight(wanted.drop_last(), cache, inflight);
        let before = to_start(wanted.drop_last(), cache, inflight);
        let x = wanted.last();
        let all = inflight + before;
        if !all.contains(x) && !is_cached(cache, x) {
            assert(inflight + before.push(x) =~= all.push(x));
            assert forall|i: int, j: int|
                0 <= i < all.push(x).len() && 0 <= j < all.push(x).len() && i != j implies all.push(
                x,
            )[i] != all.push(x)[j] by {
                if i == all.len() {
                    assert(all[j] != x);
                } else if j == all.len() {
                    assert(all[i] != x);
                }
            }
        }
    } else {
        assert(inflight + to_start(wanted, cache, inflight) =~= inflight);
    }
}

/// A photo that has arrived is not being decoded any more; every other one still is.
pub proof fn law_arrival_ends_decoding(
    inflight: Seq<Seq<char>>,
    path: Seq<char>,
    other: Seq<char>,
)
    requires
        other != path,
    ensures
        !without(inflight, path).contains(path),
        without(inflight, path).contains(other) == inflight.contains(other),
    decreases inflight.len(),
{
    if inflight.len() > 0 {
        let shorter = inflight.drop_last();
        law_arrival_ends_decoding(shorter, path, other);
        let last = inflight.last();
        let rest = without(shorter, path);
        if inflight.contains(other) {
            let k = choose|k: int| 0 <= k < inflight.len() && inflight[k] == other;
            if k < shorter.len() {
                assert(shorter[k] == other);
                let m = choose|m: int| 0 <= m < rest.len() && rest[m] == other;
                assert(without(inflight, path)[m] == other);
            } else {
                assert(without(inflight, path)[rest.len() as int] == other);
            }
        }
        if without(inflight, path).contains(other) {
            let m = choose|m: int|
                0 <= m < without(inflight, path).len() && without(inflight, path)[m] == other;
            if m < rest.len() {
                assert(rest[m] == other);
                let k = choose|k: int| 0 <= k < shorter.len() && shorter[k] == other;
                assert(inflight[k] == other);
            } else {
                assert(inflight[inflight.len() - 1] == other);
            }
        }
        if without(inflight, path).contains(path) {
            let m = choose|m: int|
                0 <= m < without(inflight, path).len() && without(inflight, path)[m] == path;
            if m < rest.len() {
                assert(rest[m] == path);
            }
        }
    }
}

/// The decoded photos are all small enough to keep.
pub open spec fn cache_is_small(cache: Seq<(Seq<char>, Decoded)>) -> bool {
    forall|i: int| 0 <= i < cache.len() ==> bytes_of((#[trigger] cache[i]).1.pixels) <= MAX_CACHED_BYTES
}

/// Photos that arrive never put more than one of the largest size each into memory.
pub proof fn law_cache_stays_small(b: BrowserView, messages: Seq<Loaded>)
    requires
        cache_is_small(b.cache),
    ensures
        cache_is_small(arrived_all(b, messages).0.cache),
    decreases messages.len(),
{
    if messages.len() > 0 {
        law_cache_stays_small(b, messages.drop_last());
    }
}

/// What a browser keeps to: no photo is being decoded twice, none is decoded twice, and none that is
/// decoded is being decoded.
pub open spec fn is_consistent(b: BrowserView) -> bool {
    &&& b.inflight.no_duplicates()
    &&& forall|i: int, j: int|
        0 <= i < j < b.cache.len() ==> (#[trigger] b.cache[i]).0 != (#[trigger] b.cache[j]).0
    &&& forall|i: int| 0 <= i < b.cache.len() ==> !b.inflight.contains((#[trigger] b.cache[i]).0)
}

/// Messages of photos that are being decoded, one of each at most.
pub open spec fn are_expected(b: BrowserView, messages: Seq<Loaded>) -> bool {
    &&& forall|i: int| 0 <= i < messages.len() ==> b.inflight.contains((#[trigger] messages[i]).0@)
    &&& forall|i: int, j: int|
        0 <= i < j < messages.len() ==> (#[trigger] messages[i]).0@ != (#[trigger] messages[j]).0@
}

/// One use of a browser.
pub enum Step {
    Index { photo: Seq<char>, dir: Option<Seq<char>>, listing: Seq<Seq<char>> },
    Prefetch { current: Seq<char> },
    Poll { messages: Seq<Loaded> },
    Take { path: Seq<char> },
    WaitFor { awaited: Option<Seq<char>> },
}

/// The browser after one use.
pub open spec fn stepped(b: BrowserView, step: Step) -> BrowserView {
    match step {
        Step::Index { photo, dir, listing } => indexed(b, photo, dir, listing),
        Step::Prefetch { current } => prefetched(b, current).0,
        Step::Poll { messages } => arrived_all(b, messages).0,
        Step::Take { path } => taken(b, path).0,
        Step::WaitFor { awaited } => BrowserView { pending: awaited, ..b },
    }
}

/// The browser after several uses of a new one.
pub open spec fn reached(steps: Seq<Step>) -> BrowserView
    decreases steps.len(),
{
    if steps.len() == 0 {
        empty_browser()
    } else {
        stepped(reached(steps.drop_last()), steps.last())
    }
}

/// Every message in these uses is of a photo that is being decoded then.
pub open spec fn is_run(steps: Seq<Step>) -> bool
    decreases steps.len(),
{
    steps.len() == 0 || {
        &&& is_run(steps.drop_last())
        &&& match steps.last() {
            Step::Poll { messages } => are_expected(reached(steps.drop_last()), messages),
            _ => true,
        }
    }
}

proof fn lemma_without_keeps_distinct(inflight: Seq<Seq<char>>, path: Seq<char>)
    requires
        inflight.no_duplicates(),
    ensures
        without(inflight, path).no_duplicates(),
    decreases inflight.len(),
{
    if inflight.len() > 0 {
        let shorter = inflight.drop_last();
        lemma_without_keeps_distinct(shorter, path);
        let rest = without(shorter, path);
        let last = inflight.last();
        if last != path {
            assert(!shorter.contains(last));
            law_arrival_ends_decoding(shorter, path, last);
            assert forall|i: int, j: int|
                0 <= i < rest.push(last).len() && 0 <= j < rest.push(last).len() && i
                    != j implies rest.push(last)[i] != rest.push(last)[j] by {
                if i == rest.len() {
                    assert(rest.contains(rest[j]));
                } else if j == rest.len() {
                    assert(rest.contains(rest[i]));
                }
            }
        }
    }
}

proof fn lemma_arrivals_keep_consistent(b: BrowserView, messages: Seq<Loaded>)
    requires
        is_consistent(b),
        are_expected(b, messages),
    ensures
        is_consistent(arrived_all(b, messages).0),
        forall|p: Seq<char>|
            b.inflight.contains(p) && (forall|i: int|
                0 <= i < messages.len() ==> (#[trigger] messages[i]).0@ != p)
                ==> #[trigger] arrived_all(b, messages).0.inflight.contains(p),
    decreases messages.len(),
{
    if messages.len() > 0 {
        let shorter = messages.drop_last();
        assert forall|i: int| 0 <= i < shorter.len() implies b.inflight.contains(
            (#[trigger] shorter[i]).0@,
        ) by {
            assert(messages[i] == shorter[i]);
        }
        assert forall|i: int, j: int| 0 <= i < j < shorter.len() implies (#[trigger] shorter[i]).0@
            != (#[trigger] shorter[j]).0@ by {
            assert(messages[i] == shorter[i] && messages[j] == shorter[j]);
        }
        lemma_arrivals_keep_consistent(b, shorter);
        let mid = arrived_all(b, shorter).0;
        let path = messages.last().0@;
        assert(messages[messages.len() - 1].0@ == path);
        assert forall|i: int| 0 <= i < shorter.len() implies (#[trigger] shorter[i]).0@ != path by {
            assert(messages[i] == shorter[i]);
        }
        assert(mid.inflight.contains(path));
        lemma_without_keeps_distinct(mid.inflight, path);
        let left = without(mid.inflight, path);
        let end = arrived_all(b, messages).0;
        assert(end.inflight == left);
        assert forall|i: int| 0 <= i < end.cache.len() implies !left.contains(
            (#[trigger] end.cache[i]).0,
        ) by {
            let q = end.cache[i].0;
            if i < mid.cache.len() {
                assert(mid.cache[i] == end.cache[i]);
                law_arrival_ends_decoding(mid.inflight, path, q);
            } else {
                law_arrival_ends_decoding(mid.inflight, path, path.push('x'));
            }
        }
        assert forall|i: int, j: int| 0 <= i < j < end.cache.len() implies (#[trigger] end.cache[i]).0
            != (#[trigger] end.cache[j]).0 by {
            assert(mid.cache[i] == end.cache[i]);
            if j < mid.cache.len() {
                assert(mid.cache[j] == end.cache[j]);
            }
        }
        assert forall|p: Seq<char>|
            b.inflight.contains(p) && (forall|i: int|
                0 <= i < messages.len() ==> (#[trigger] messages[i]).0@ != p) implies #[trigger] end.inflight.contains(p) by {
            assert forall|i: int| 0 <= i < shorter.len() implies (#[trigger] shorter[i]).0@ != p by {
                assert(messages[i] == shorter[i]);
            }
            assert(mid.inflight.contains(p));
            law_arrival_ends_decoding(mid.inflight, path, p);
        }
    }
}

proof fn lemma_kept_is_distinct(cache: Seq<(Seq<char>, Decoded)>, wanted: Seq<Seq<char>>)
    requires
        forall|i: int, j: int|
            0 <= i < j < cache.len() ==> (#[trigger] cache[i]).0 != (#[trigger] cache[j]).0,
    ensures
        ({
            let kept = kept_cache(cache, wanted);
            forall|i: int, j: int|
                0 <= i < j < kept.len() ==> (#[trigger] kept[i]).0 != (#[trigger] kept[j]).0
        }),
    decreases cache.len(),
{
    if cache.len() > 0 {
        let shorter = cache.drop_last();
        assert forall|i: int, j: int| 0 <= i < j < shorter.len() implies (#[trigger] shorter[i]).0
            != (#[trigger] shorter[j]).0 by {
            assert(cache[i] == shorter[i] && cache[j] == shorter[j]);
        }
        lemma_kept_is_distinct(shorter, wanted);
        let rest = kept_cache(shorter, wanted);
        let kept = kept_cache(cache, wanted);
        assert forall|i: int, j: int| 0 <= i < j < kept.len() implies (#[trigger] kept[i]).0
            != (#[trigger] kept[j]).0 by {
            assert(kept[i] == rest[i]);
            if j < rest.len() {
                assert(kept[j] == rest[j]);
            } else {
                law_cache_holds_wanted_only(shorter, wanted, i);
                let k = choose|k: int| 0 <= k < shorter.len() && shorter[k] == rest[i];
                assert(cache[k] == rest[i]);
                assert(cache[cache.len() - 1] == kept[j]);
            }
        }
    }
}

proof fn lemma_started_is_not_cached(
    wanted: Seq<Seq<char>>,
    cache: Seq<(Seq<char>, Decoded)>,
    inflight: Seq<Seq<char>>,
    p: Seq<char>,
)
    requires
        to_start(wanted, cache, inflight).contains(p),
    ensures
        !is_cached(cache, p),
    decreases wanted.len(),
{
    if wanted.len() > 0 {
        let before = to_start(wanted.drop_last(), cache, inflight);
        let start = to_start(wanted, cache, inflight);
        let k = choose|k: int| 0 <= k < start.len() && start[k] == p;
        if k < before.len() {
            assert(before[k] == p);
            lemma_started_is_not_cached(wanted.drop_last(), cache, inflight, p);
        }
    }
}

proof fn lemma_prefetch_keeps_consistent(b: BrowserView, current: Seq<char>)
    requires
        is_consistent(b),
    ensures
        is_consistent(prefetched(b, current).0),
{
    let wanted = wanted_around(b.files, current);
    let kept = kept_cache(b.cache, wanted);
    let start = to_start(wanted, kept, b.inflight);
    law_no_photo_twice_in_flight(wanted, kept, b.inflight);
    lemma_kept_is_distinct(b.cache, wanted);
    assert forall|i: int| 0 <= i < kept.len() implies !(b.inflight + start).contains(
        (#[trigger] kept[i]).0,
    ) by {
        let p = kept[i].0;
        law_cache_holds_wanted_only(b.cache, wanted, i);
        let k = choose|k: int| 0 <= k < b.cache.len() && b.cache[k] == kept[i];
        assert(!b.inflight.contains(b.cache[k].0));
        if start.contains(p) {
            lemma_started_is_not_cached(wanted, kept, b.inflight, p);
        }
        let all = b.inflight + start;
        if all.contains(p) {
            let m = choose|m: int| 0 <= m < all.len() && all[m] == p;
            if m < b.inflight.len() {
                assert(b.inflight[m] == p);
            } else {
                assert(start[m - b.inflight.len()] == p);
            }
        }
    }
}

proof fn lemma_cached_place(cache: Seq<(Seq<char>, Decoded)>, path: Seq<char>, i: int)
    requires
        0 <= i,
    ensures
        match cached_place(cache, path, i) {
            Some(k) => i <= k < cache.len() && cache[k].0 == path,
            None => forall|j: int| i <= j < cache.len() ==> (#[trigger] cache[j]).0 != path,
        },
    decreases cache.len() - i,
{
    if i < cache.len() && cache[i].0 != path {
        lemma_cached_place(cache, path, i + 1);
    }
}

/// Where no photo is decoded twice, a photo is found in the one place that holds it.
proof fn lemma_only_place(cache: Seq<(Seq<char>, Decoded)>, path: Seq<char>, k: int)
    requires
        0 <= k < cache.len(),
        cache[k].0 == path,
        forall|i: int, j: int|
            0 <= i < j < cache.len() ==> (#[trigger] cache[i]).0 != (#[trigger] cache[j]).0,
    ensures
        cached_place(cache, path, 0) == Some(k),
{
    lemma_cached_place(cache, path, 0);
    let m = cached_place(cache, path, 0)->0;
    assert(cache[m].0 == cache[k].0);
}

/// A preloaded photo is taken once: taking it again at once gives nothing. Taking it changes neither what
/// the others give nor the listing, the photo waited for and those being decoded. A photo that is
/// still being decoded is not there to be taken.
pub proof fn law_photo_is_taken_once(b: BrowserView, path: Seq<char>, other: Seq<char>)
    requires
        is_consistent(b),
        other != path,
    ensures
        ({
            let after = taken(b, path).0;
            &&& taken(after, path).1 is None
            &&& taken(after, other).1 == taken(b, other).1
            &&& after.dir == b.dir
            &&& after.files == b.files
            &&& after.pending == b.pending
            &&& after.inflight == b.inflight
            &&& is_consistent(after)
        }),
        b.inflight.contains(path) ==> taken(b, path).1 is None,
{
    lemma_cached_place(b.cache, path, 0);
    if let Some(k) = cached_place(b.cache, path, 0) {
        let after = taken(b, path).0;
        let c = after.cache;
        let n = b.cache.len() - 1;
        assert forall|i: int| 0 <= i < c.len() implies (#[trigger] c[i]) == b.cache[if i == k {
            n
        } else {
            i
        }] by {}
        assert forall|i: int, j: int| 0 <= i < j < c.len() implies (#[trigger] c[i]).0
            != (#[trigger] c[j]).0 by {
            let x = if i == k {
                n
            } else {
                i
            };
            let y = if j == k {
                n
            } else {
                j
            };
            assert(b.cache[x].0 != b.cache[y].0);
        }
        assert forall|i: int| 0 <= i < c.len() implies (#[trigger] c[i]).0 != path by {
            let x = if i == k {
                n
            } else {
                i
            };
            assert(b.cache[x].0 != b.cache[k].0);
        }
        lemma_cached_place(c, path, 0);
        lemma_cached_place(b.cache, other, 0);
        lemma_cached_place(c, other, 0);
        if let Some(m) = cached_place(b.cache, other, 0) {
            let at = if m == n {
                k
            } else {
                m
            };
            assert(c[at] == b.cache[m]);
            lemma_only_place(c, other, at);
        } else if let Some(at) = cached_place(c, other, 0) {
            assert(c[at].0 == b.cache[if at == k {
                n
            } else {
                at
            }].0);
        }
    }
}

/// However a browser is used, as long as messages come of photos that are being decoded: no photo is
/// decoded twice, or decoded and being decoded at once.
pub proof fn law_preloading_is_consistent(steps: Seq<Step>)
    requires
        is_run(steps),
    ensures
        is_consistent(reached(steps)),
    decreases steps.len(),
{
    if steps.len() > 0 {
        law_preloading_is_consistent(steps.drop_last());
        let b = reached(steps.drop_last());
        match steps.last() {
            Step::Index { photo, dir, listing } => {},
            Step::Prefetch { current } => {
                lemma_prefetch_keeps_consistent(b, current);
            },
            Step::Poll { messages } => {
                lemma_arrivals_keep_consistent(b, messages);
            },
            Step::Take { path } => {
                let other = path.push('x');
                assert(other.len() != path.len());
                law_photo_is_taken_once(b, path, other);
            },
            Step::WaitFor { awaited } => {},
        }
    }
}

} // verus!
