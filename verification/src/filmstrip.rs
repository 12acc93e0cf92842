//! Thumbnails of the photos in the current folder, loaded in the background, nearest first: which
//! ones to keep, which ones to make, and in what order.

use crate::text::{text_eq, views};
use vstd::prelude::*;

verus! {

/// Longest edge of filmstrip thumbnails, in pixels (enough for a 2x display).
pub const THUMB_PX: u32 = 256;

/// How many thumbnails are made at a time.
pub const WORKERS: usize = 3;

/// Thumbnails further than this from the current photo are dropped to bound memory.
pub const KEEP_WITHIN: usize = 150;

/// How far a thumbnail is.
#[derive(Clone, Copy, PartialEq, Eq, Debug, Structural)]
pub enum Slot {
    Queued,
    Ready,
    Failed,
}

// ---------------------------------------------------------------------------------------------
// The queue
// ---------------------------------------------------------------------------------------------

/// Paths waiting for a worker, each with a priority (lower = sooner).
pub struct Queue {
    jobs: Vec<(String, usize)>,
}

/// Jobs with the views of their paths.
pub open spec fn jobs_view(j: Seq<(String, usize)>) -> Seq<(Seq<char>, usize)> {
    j.map_values(|p: (String, usize)| (p.0@, p.1))
}

impl View for Queue {
    type V = Seq<(Seq<char>, usize)>;

    closed spec fn view(&self) -> Seq<(Seq<char>, usize)> {
        jobs_view(self.jobs@)
    }
}

/// Job `i` comes first: none has a lower priority number, and none before it an equal one.
pub open spec fn is_first(jobs: Seq<(Seq<char>, usize)>, i: int) -> bool {
    &&& 0 <= i < jobs.len()
    &&& forall|j: int| 0 <= j < jobs.len() ==> jobs[i].1 <= (#[trigger] jobs[j]).1
    &&& forall|j: int| 0 <= j < i ==> jobs[i].1 < (#[trigger] jobs[j]).1
}

impl Queue {
    /// Nothing waits.
    pub fn new() -> (r: Queue)
        ensures
            r@ == Seq::<(Seq<char>, usize)>::empty(),
    {
        let r = Queue { jobs: Vec::new() };
        assert(r@ =~= seq![]);
        r
    }

    /// Whether nothing waits.
    pub fn is_empty(&self) -> (r: bool)
        ensures
            r == (self@.len() == 0),
    {
        self.jobs.len() == 0
    }

    /// Takes the job that comes first; the last one moves to its place.
    pub fn take(&mut self) -> (r: Option<String>)
        ensures
            match r {
                Some(p) => exists|i: int|
                    {
                        &&& #[trigger] is_first(old(self)@, i)
                        &&& p@ == old(self)@[i].0
                        &&& final(self)@ == old(self)@.update(i, old(self)@.last()).drop_last()
                    },
                None => old(self)@.len() == 0 && final(self)@ == old(self)@,
            },
    {
        if self.jobs.len() == 0 {
            return None;
        }
        let ghost all = self@;
        let mut best: usize = 0;
        let mut i: usize = 1;
        while i < self.jobs.len()
            invariant
                1 <= i <= self.jobs@.len(),
                best < i,
                *self == *old(self),
                all == jobs_view(self.jobs@),
                all == old(self)@,
                forall|j: int| 0 <= j < i ==> all[best as int].1 <= (#[trigger] all[j]).1,
                forall|j: int| 0 <= j < best ==> all[best as int].1 < (#[trigger] all[j]).1,
            decreases self.jobs.len() - i,
        {
            assert(all[i as int].1 == self.jobs@[i as int].1);
            assert(all[best as int].1 == self.jobs@[best as int].1);
            if self.jobs[i].1 < self.jobs[best].1 {
                best = i;
            }
            i = i + 1;
        }
        let (path, _) = self.jobs.swap_remove(best);
        assert(is_first(old(self)@, best as int));
        assert(self@ =~= all.update(best as int, all.last()).drop_last());
        Some(path)
    }
}

// ---------------------------------------------------------------------------------------------
// The window round the current photo
// ---------------------------------------------------------------------------------------------

/// The distance between two places.
pub open spec fn gap(i: int, cur: int) -> int {
    if i >= cur {
        i - cur
    } else {
        cur - i
    }
}

/// The last place of a path among the first `n` files that is near the current one.
pub open spec fn near_place(files: Seq<Seq<char>>, cur: int, path: Seq<char>, n: int) -> Option<int>
    decreases n,
{
    if n <= 0 {
        None
    } else if gap(n - 1, cur) <= KEEP_WITHIN && files[n - 1] == path {
        Some(n - 1)
    } else {
        near_place(files, cur, path, n - 1)
    }
}

/// How far a path is from the current photo, where it is near.
pub open spec fn rank(files: Seq<Seq<char>>, cur: int, path: Seq<char>) -> Option<int> {
    match near_place(files, cur, path, files.len() as int) {
        Some(i) => Some(gap(i, cur)),
        None => None,
    }
}

/// The slots with the views of their paths.
pub open spec fn slots_view(s: Seq<(String, Slot)>) -> Seq<(Seq<char>, Slot)> {
    s.map_values(|p: (String, Slot)| (p.0@, p.1))
}

/// The paths of slots.
pub open spec fn paths_of(s: Seq<(Seq<char>, Slot)>) -> Seq<Seq<char>> {
    s.map_values(|p: (Seq<char>, Slot)| p.0)
}

/// The slot of a path.
pub open spec fn slot_of(s: Seq<(Seq<char>, Slot)>, path: Seq<char>) -> Option<Slot>
    decreases s.len(),
{
    if s.len() == 0 {
        None
    } else if s.last().0 == path {
        Some(s.last().1)
    } else {
        slot_of(s.drop_last(), path)
    }
}

/// What a finished thumbnail makes of a slot.
pub open spec fn outcome(ok: bool) -> Slot {
    if ok {
        Slot::Ready
    } else {
        Slot::Failed
    }
}

/// The slots once the thumbnail of `path` is finished; one that is no longer wanted is ignored.
pub open spec fn finished(s: Seq<(Seq<char>, Slot)>, path: Seq<char>, ok: bool) -> Seq<
    (Seq<char>, Slot),
> {
    s.map_values(
        |p: (Seq<char>, Slot)|
            if p.0 == path {
                (p.0, outcome(ok))
            } else {
                p
            },
    )
}

/// The slots once several thumbnails are finished.
pub open spec fn finished_all(s: Seq<(Seq<char>, Slot)>, done: Seq<(String, bool)>) -> Seq<
    (Seq<char>, Slot),
>
    decreases done.len(),
{
    if done.len() == 0 {
        s
    } else {
        finished(finished_all(s, done.drop_last()), done.last().0@, done.last().1)
    }
}

/// The slots of the files near the current one.
pub open spec fn near_slots(
    s: Seq<(Seq<char>, Slot)>,
    files: Seq<Seq<char>>,
    cur: int,
) -> Seq<(Seq<char>, Slot)>
    decreases s.len(),
{
    if s.len() == 0 {
        s
    } else if rank(files, cur, s.last().0) is Some {
        near_slots(s.drop_last(), files, cur).push(s.last())
    } else {
        near_slots(s.drop_last(), files, cur)
    }
}

/// The jobs of the files near the current one, each with its distance as its priority.
pub open spec fn near_jobs(
    j: Seq<(Seq<char>, usize)>,
    files: Seq<Seq<char>>,
    cur: int,
) -> Seq<(Seq<char>, usize)>
    decreases j.len(),
{
    if j.len() == 0 {
        j
    } else {
        match rank(files, cur, j.last().0) {
            Some(r) => near_jobs(j.drop_last(), files, cur).push((j.last().0, r as usize)),
            None => near_jobs(j.drop_last(), files, cur),
        }
    }
}

/// The paths among the first `n` files that are near and have no slot yet, in order.
pub open spec fn new_paths(
    files: Seq<Seq<char>>,
    cur: int,
    have: Seq<Seq<char>>,
    n: int,
) -> Seq<Seq<char>>
    decreases n,
{
    if n <= 0 {
        seq![]
    } else {
        let before = new_paths(files, cur, have, n - 1);
        let p = files[n - 1];
        if gap(n - 1, cur) <= KEEP_WITHIN && !have.contains(p) && !before.contains(p) {
            before.push(p)
        } else {
            before
        }
    }
}

/// New slots, waiting.
pub open spec fn queued(paths: Seq<Seq<char>>) -> Seq<(Seq<char>, Slot)> {
    paths.map_values(|p: Seq<char>| (p, Slot::Queued))
}

/// New jobs, each with its distance as its priority.
pub open spec fn ranked(paths: Seq<Seq<char>>, files: Seq<Seq<char>>, cur: int) -> Seq<
    (Seq<char>, usize),
> {
    paths.map_values(
        |p: Seq<char>|
            (
                p,
                match rank(files, cur, p) {
                    Some(r) => r as usize,
                    None => 0,
                },
            ),
    )
}

/// The place of the current photo; the first where none is current.
pub open spec fn center(current: Option<usize>) -> int {
    match current {
        Some(i) => i as int,
        None => 0,
    }
}

proof fn lemma_near_place(files: Seq<Seq<char>>, cur: int, path: Seq<char>, n: int)
    ensures
        match near_place(files, cur, path, n) {
            Some(i) => 0 <= i < n && gap(i, cur) <= KEEP_WITHIN && files[i] == path,
            None => forall|i: int|
                0 <= i < n && gap(i, cur) <= KEEP_WITHIN ==> #[trigger] files[i] != path,
        },
    decreases n,
{
    if n > 0 && !(gap(n - 1, cur) <= KEEP_WITHIN && files[n - 1] == path) {
        lemma_near_place(files, cur, path, n - 1);
    }
}

fn distance(a: usize, b: usize) -> (r: usize)
    ensures
        r == gap(a as int, b as int),
{
    if a >= b {
        a - b
    } else {
        b - a
    }
}

fn rank_of(files: &[String], cur: usize, path: &str) -> (r: Option<usize>)
    ensures
        match r {
            Some(n) => rank(views(files@), cur as int, path@) == Some(n as int),
            None => rank(views(files@), cur as int, path@) is None,
        },
{
    let ghost all = views(files@);
    // Nothing behind the window can be near.
    let mut n: usize = if cur < files.len() && files.len() - cur > KEEP_WITHIN + 1 {
        cur + KEEP_WITHIN + 1
    } else {
        files.len()
    };
    proof {
        lemma_far_behind(all, cur as int, path@, n as int, all.len() as int);
    }
    while n > 0
        invariant
            n <= files@.len(),
            all == views(files@),
            near_place(all, cur as int, path@, all.len() as int) == near_place(
                all,
                cur as int,
                path@,
                n as int,
            ),
        decreases n,
    {
        assert(all[n - 1] == files@[n - 1]@);
        if distance(n - 1, cur) <= KEEP_WITHIN {
            if text_eq(files[n - 1].as_str(), path) {
                return Some(distance(n - 1, cur));
            }
        } else if n - 1 < cur {
            proof {
                lemma_far_before(all, cur as int, path@, n as int);
            }
            return None;
        }
        n = n - 1;
    }
    None
}

proof fn lemma_far_behind(files: Seq<Seq<char>>, cur: int, path: Seq<char>, n: int, m: int)
    requires
        0 <= n <= m,
        n == m || n == cur + KEEP_WITHIN + 1,
    ensures
        near_place(files, cur, path, m) == near_place(files, cur, path, n),
    decreases m,
{
    if n < m {
        lemma_far_behind(files, cur, path, n, m - 1);
    }
}

proof fn lemma_far_before(files: Seq<Seq<char>>, cur: int, path: Seq<char>, n: int)
    requires
        n - 1 < cur,
        cur - (n - 1) > KEEP_WITHIN,
    ensures
        near_place(files, cur, path, n) is None,
    decreases n,
{
    if n > 0 {
        lemma_far_before(files, cur, path, n - 1);
    }
}

/// The thumbnails of a folder, as far as they are made.
pub struct Filmstrip {
    slots: Vec<(String, Slot)>,
}

impl View for Filmstrip {
    type V = Seq<(Seq<char>, Slot)>;

    closed spec fn view(&self) -> Seq<(Seq<char>, Slot)> {
        slots_view(self.slots@)
    }
}

/// The slots after an update: those of files near the current one, with what has been finished, and
/// new ones for the files near it that had none.
pub open spec fn updated_slots(
    s: Seq<(Seq<char>, Slot)>,
    done: Seq<(String, bool)>,
    files: Seq<Seq<char>>,
    cur: int,
) -> Seq<(Seq<char>, Slot)> {
    let kept = near_slots(finished_all(s, done), files, cur);
    kept + queued(new_paths(files, cur, paths_of(kept), files.len() as int))
}

/// The jobs after an update: those of files near the current one, and one for each new slot; all with
/// their distance as their priority.
pub open spec fn updated_jobs(
    j: Seq<(Seq<char>, usize)>,
    s: Seq<(Seq<char>, Slot)>,
    done: Seq<(String, bool)>,
    files: Seq<Seq<char>>,
    cur: int,
) -> Seq<(Seq<char>, usize)> {
    let kept = near_slots(finished_all(s, done), files, cur);
    near_jobs(j, files, cur) + ranked(
        new_paths(files, cur, paths_of(kept), files.len() as int),
        files,
        cur,
    )
}

fn in_slots(slots: &Vec<(String, Slot)>, path: &str) -> (r: bool)
    ensures
        r == paths_of(slots_view(slots@)).contains(path@),
{
    let ghost all = paths_of(slots_view(slots@));
    let mut i: usize = 0;
    while i < slots.len()
        invariant
            i <= slots@.len(),
            all == paths_of(slots_view(slots@)),
            forall|k: int| 0 <= k < i ==> #[trigger] all[k] != path@,
        decreases slots.len() - i,
    {
        assert(all[i as int] == slots@[i as int].0@);
        if text_eq(slots[i].0.as_str(), path) {
            return true;
        }
        i = i + 1;
    }
    false
}

impl Filmstrip {
    pub fn new() -> (r: Filmstrip)
        ensures
            r@ == Seq::<(Seq<char>, Slot)>::empty(),
    {
        let r = Filmstrip { slots: Vec::new() };
        assert(r@ =~= seq![]);
        r
    }

    fn finish(&mut self, path: &str, ok: bool)
        ensures
            final(self)@ == finished(old(self)@, path@, ok),
    {
        let ghost all = self@;
        let state = if ok {
            Slot::Ready
        } else {
            Slot::Failed
        };
        let mut i: usize = 0;
        while i < self.slots.len()
            invariant
                i <= self.slots@.len(),
                self.slots@.len() == all.len(),
                state == outcome(ok),
                forall|k: int| 0 <= k < i ==> (#[trigger] self@[k]) == finished(all, path@, ok)[k],
                forall|k: int| i <= k < all.len() ==> (#[trigger] self@[k]) == all[k],
            decreases self.slots.len() - i,
        {
            let ghost before = self@;
            assert(before[i as int] == (self.slots@[i as int].0@, self.slots@[i as int].1));
            if text_eq(self.slots[i].0.as_str(), path) {
                let name = self.slots[i].0.clone();
                self.slots.set(i, (name, state));
                assert(self@ =~= before.update(i as int, (path@, state)));
            }
            i = i + 1;
        }
        assert(self@ =~= finished(all, path@, ok));
    }

    fn keep_near(&mut self, files: &[String], cur: usize)
        ensures
            final(self)@ == near_slots(old(self)@, views(files@), cur as int),
    {
        let mut all: Vec<(String, Slot)> = Vec::new();
        std::mem::swap(&mut all, &mut self.slots);
        let ghost items = slots_view(all@);
        let ghost f = views(files@);
        let mut kept: Vec<(String, Slot)> = Vec::new();
        assert(items.take(0) =~= seq![]);
        assert(slots_view(kept@) =~= seq![]);
        for x in it: all.into_iter()
            invariant
                it.seq() == all@,
                items == slots_view(all@),
                f == views(files@),
                slots_view(kept@) == near_slots(items.take(it.index()), f, cur as int),
        {
            let ghost i = it.index();
            let ghost had = slots_view(kept@);
            assert(items.take(i + 1).drop_last() == items.take(i));
            assert(items.take(i + 1).last() == (x.0@, x.1));
            if rank_of(files, cur, x.0.as_str()).is_some() {
                kept.push(x);
                assert(slots_view(kept@) =~= had.push(items[i]));
            }
        }
        assert(items.take(items.len() as int) == items);
        self.slots = kept;
    }

    /// Takes in the thumbnails that are finished (a path, and whether it could be made), drops those
    /// of `files` that are far from the current one, and queues those near it that are missing,
    /// nearest first. Gives whether anything was queued.
    pub fn update(
        &mut self,
        queue: &mut Queue,
        done: Vec<(String, bool)>,
        files: &[String],
        current: Option<usize>,
    ) -> (added: bool)
        ensures
            final(self)@ == updated_slots(old(self)@, done@, views(files@), center(current)),
            final(queue)@ == updated_jobs(
                old(queue)@,
                old(self)@,
                done@,
                views(files@),
                center(current),
            ),
            added == (final(self)@.len() > near_slots(
                finished_all(old(self)@, done@),
                views(files@),
                center(current),
            ).len()),
    {
        let cur: usize = match current {
            Some(i) => i,
            None => 0,
        };
        let ghost f = views(files@);
        let ghost start = self@;
        let mut i: usize = 0;
        assert(done@.take(0) =~= seq![]);
        while i < done.len()
            invariant
                i <= done@.len(),
                self@ == finished_all(start, done@.take(i as int)),
            decreases done.len() - i,
        {
            assert(done@.take(i + 1).drop_last() == done@.take(i as int));
            assert(done@.take(i + 1).last() == done@[i as int]);
            self.finish(done[i].0.as_str(), done[i].1);
            i = i + 1;
        }
        assert(done@.take(i as int) == done@);
        self.keep_near(files, cur);
        queue.keep_near(files, cur);
        let ghost kept = self@;
        let ghost kept_jobs = queue@;
        let ghost have = paths_of(kept);
        let mut n: usize = if cur > KEEP_WITHIN {
            cur - KEEP_WITHIN
        } else {
            0
        };
        if n > files.len() {
            n = files.len();
        }
        proof {
            lemma_none_before(f, cur as int, have, n as int);
        }
        let mut added = false;
        let ghost mut fresh: Seq<Seq<char>> = seq![];
        assert(kept + queued(fresh) =~= kept);
        assert(kept_jobs + ranked(fresh, f, cur as int) =~= kept_jobs);
        while n < files.len() && (n < cur || n - cur <= KEEP_WITHIN)
            invariant
                n <= files@.len(),
                n <= cur ==> cur - n <= KEEP_WITHIN || n == files@.len(),
                n > cur ==> n - cur <= KEEP_WITHIN + 1,
                f == views(files@),
                have == paths_of(kept),
                fresh == new_paths(f, cur as int, have, n as int),
                self@ == kept + queued(fresh),
                queue@ == kept_jobs + ranked(fresh, f, cur as int),
                added == (fresh.len() > 0),
            decreases files.len() - n,
        {
            let path = files[n].as_str();
            assert(f[n as int] == path@);
            proof {
                lemma_near_place(f, cur as int, path@, f.len() as int);
                lemma_paths_of(kept, fresh);
            }
            if !in_slots(&self.slots, path) {
                let ghost slots_before = self@;
                let ghost jobs_before = queue@;
                let ghost fresh_before = fresh;
                let priority: usize = match rank_of(files, cur, path) {
                    Some(r) => r,
                    None => 0,
                };
                self.slots.push((path.to_owned(), Slot::Queued));
                queue.jobs.push((path.to_owned(), priority));
                added = true;
                proof {
                    fresh = fresh.push(path@);
                }
                assert(self@ =~= slots_before.push((path@, Slot::Queued)));
                assert(queue@ =~= jobs_before.push((path@, priority)));
                assert(self@ =~= kept + queued(fresh));
                assert(queue@ =~= kept_jobs + ranked(fresh, f, cur as int));
            }
            n = n + 1;
        }
        proof {
            lemma_none_behind(f, cur as int, have, n as int, f.len() as int);
        }
        added
    }

    /// How far the thumbnail of a photo is.
    pub fn get(&self, path: &str) -> (r: Option<Slot>)
        ensures
            r == slot_of(self@, path@),
    {
        let ghost all = self@;
        let mut n: usize = self.slots.len();
        assert(all.take(n as int) == all);
        while n > 0
            invariant
                n <= self.slots@.len(),
                all == slots_view(self.slots@),
                slot_of(all, path@) == slot_of(all.take(n as int), path@),
            decreases n,
        {
            assert(all.take(n as int).last() == (self.slots@[n - 1].0@, self.slots@[n - 1].1));
            assert(all.take(n as int).drop_last() == all.take(n - 1));
            if text_eq(self.slots[n - 1].0.as_str(), path) {
                return Some(self.slots[n - 1].1);
            }
            n = n - 1;
        }
        None
    }

    /// Some thumbnails are still being made.
    pub fn loading(&self) -> (r: bool)
        ensures
            r == exists|i: int| 0 <= i < self@.len() && (#[trigger] self@[i]).1 == Slot::Queued,
    {
        let mut i: usize = 0;
        while i < self.slots.len()
            invariant
                i <= self.slots@.len(),
                forall|k: int| 0 <= k < i ==> (#[trigger] self@[k]).1 != Slot::Queued,
            decreases self.slots.len() - i,
        {
            assert(self@[i as int].1 == self.slots@[i as int].1);
            if self.slots[i].1 == Slot::Queued {
                return true;
            }
            i = i + 1;
        }
        false
    }

    /// Whether the thumbnail of a photo could not be made.
    pub fn failed(&self, path: &str) -> (r: bool)
        ensures
            r == (slot_of(self@, path@) == Some(Slot::Failed)),
    {
        match self.get(path) {
            Some(s) => s == Slot::Failed,
            None => false,
        }
    }
}

impl Queue {
    fn keep_near(&mut self, files: &[String], cur: usize)
        ensures
            final(self)@ == near_jobs(old(self)@, views(files@), cur as int),
    {
        let mut all: Vec<(String, usize)> = Vec::new();
        std::mem::swap(&mut all, &mut self.jobs);
        let ghost items = jobs_view(all@);
        let ghost f = views(files@);
        let mut kept: Vec<(String, usize)> = Vec::new();
        assert(items.take(0) =~= seq![]);
        assert(jobs_view(kept@) =~= seq![]);
        for x in it: all.into_iter()
            invariant
                it.seq() == all@,
                items == jobs_view(all@),
                f == views(files@),
                jobs_view(kept@) == near_jobs(items.take(it.index()), f, cur as int),
        {
            let ghost i = it.index();
            let ghost had = jobs_view(kept@);
            assert(items.take(i + 1).drop_last() == items.take(i));
            assert(items.take(i + 1).last() == (x.0@, x.1));
            if let Some(r) = rank_of(files, cur, x.0.as_str()) {
                let (path, _) = x;
                kept.push((path, r));
                assert(jobs_view(kept@) =~= had.push((path@, r)));
            }
        }
        assert(items.take(items.len() as int) == items);
        self.jobs = kept;
    }
}

proof fn lemma_none_before(files: Seq<Seq<char>>, cur: int, have: Seq<Seq<char>>, n: int)
    requires
        n <= 0 || n <= cur - KEEP_WITHIN,
    ensures
        new_paths(files, cur, have, n) == Seq::<Seq<char>>::empty(),
    decreases n,
{
    if n > 0 {
        lemma_none_before(files, cur, have, n - 1);
    }
}

proof fn lemma_none_behind(files: Seq<Seq<char>>, cur: int, have: Seq<Seq<char>>, n: int, m: int)
    requires
        0 <= n <= m,
        n == m || n > cur + KEEP_WITHIN,
    ensures
        new_paths(files, cur, have, m) == new_paths(files, cur, have, n),
    decreases m,
{
    if n < m {
        lemma_none_behind(files, cur, have, n, m - 1);
    }
}

proof fn lemma_paths_of(kept: Seq<(Seq<char>, Slot)>, fresh: Seq<Seq<char>>)
    ensures
        forall|p: Seq<char>|
            #[trigger] paths_of(kept + queued(fresh)).contains(p) <==> paths_of(kept).contains(p)
                || fresh.contains(p),
{
    let all = paths_of(kept + queued(fresh));
    assert forall|p: Seq<char>| #[trigger] all.contains(p) <==> paths_of(kept).contains(p)
        || fresh.contains(p) by {
        if all.contains(p) {
            let i = choose|i: int| 0 <= i < all.len() && all[i] == p;
            if i < kept.len() {
                assert(paths_of(kept)[i] == p);
            } else {
                assert(fresh[i - kept.len()] == p);
            }
        }
        if paths_of(kept).contains(p) {
            let i = choose|i: int| 0 <= i < kept.len() && paths_of(kept)[i] == p;
            assert(all[i] == p);
        }
        if fresh.contains(p) {
            let i = choose|i: int| 0 <= i < fresh.len() && fresh[i] == p;
            assert(all[kept.len() + i] == p);
        }
    }
}

// ---------------------------------------------------------------------------------------------
// What an update promises
// ---------------------------------------------------------------------------------------------

/// No path has two slots.
pub open spec fn distinct(s: Seq<(Seq<char>, Slot)>) -> bool {
    paths_of(s).no_duplicates()
}

proof fn lemma_near_slots(s: Seq<(Seq<char>, Slot)>, files: Seq<Seq<char>>, cur: int)
    ensures
        forall|i: int|
            0 <= i < near_slots(s, files, cur).len() ==> rank(
                files,
                cur,
                (#[trigger] near_slots(s, files, cur)[i]).0,
            ) is Some && s.contains(near_slots(s, files, cur)[i]),
        distinct(s) ==> distinct(near_slots(s, files, cur)),
        forall|i: int|
            0 <= i < s.len() && rank(files, cur, (#[trigger] s[i]).0) is Some ==> near_slots(
                s,
                files,
                cur,
            ).contains(s[i]),
    decreases s.len(),
{
    if s.len() > 0 {
        let shorter = s.drop_last();
        let before = near_slots(shorter, files, cur);
        let after = near_slots(s, files, cur);
        lemma_near_slots(shorter, files, cur);
        assert forall|i: int| 0 <= i < after.len() implies rank(
            files,
            cur,
            (#[trigger] after[i]).0,
        ) is Some && s.contains(after[i]) by {
            if i < before.len() {
                assert(after[i] == before[i]);
                let k = choose|k: int| 0 <= k < shorter.len() && shorter[k] == before[i];
                assert(s[k] == after[i]);
            } else {
                assert(s[s.len() - 1] == after[i]);
            }
        }
        if distinct(s) {
            assert forall|i: int, j: int| 0 <= i < j < shorter.len() implies paths_of(shorter)[i]
                != paths_of(shorter)[j] by {
                assert(paths_of(s)[i] != paths_of(s)[j]);
            }
            assert(distinct(shorter));
            assert forall|i: int, j: int| 0 <= i < after.len() && 0 <= j < after.len() && i != j implies
                paths_of(after)[i] != paths_of(after)[j] by {
                if i < before.len() && j < before.len() {
                    assert(paths_of(before)[i] != paths_of(before)[j]);
                } else {
                    let k = if i < before.len() {
                        i
                    } else {
                        j
                    };
                    let m = choose|m: int| 0 <= m < shorter.len() && shorter[m] == before[k];
                    assert(paths_of(s)[m] != paths_of(s)[s.len() - 1]);
                }
            }
        }
        assert forall|i: int| 0 <= i < s.len() && rank(files, cur, (#[trigger] s[i]).0) is Some implies
            after.contains(s[i]) by {
            if i < shorter.len() {
                assert(shorter[i] == s[i]);
                assert(before.contains(shorter[i]));
                let k = choose|k: int| 0 <= k < before.len() && before[k] == s[i];
                assert(after[k] == s[i]);
            } else {
                assert(after[before.len() as int] == s[i]);
            }
        }
    }
}

proof fn lemma_new_paths(files: Seq<Seq<char>>, cur: int, have: Seq<Seq<char>>, n: int)
    requires
        n <= files.len(),
    ensures
        new_paths(files, cur, have, n).no_duplicates(),
        forall|i: int|
            0 <= i < new_paths(files, cur, have, n).len() ==> !have.contains(
                #[trigger] new_paths(files, cur, have, n)[i],
            ) && exists|k: int|
                0 <= k < n && gap(k, cur) <= KEEP_WITHIN && #[trigger] files[k] == new_paths(
                    files,
                    cur,
                    have,
                    n,
                )[i],
        forall|k: int|
            0 <= k < n && gap(k, cur) <= KEEP_WITHIN ==> have.contains(#[trigger] files[k])
                || new_paths(files, cur, have, n).contains(files[k]),
    decreases n,
{
    if n > 0 {
        lemma_new_paths(files, cur, have, n - 1);
        let before = new_paths(files, cur, have, n - 1);
        let after = new_paths(files, cur, have, n);
        let p = files[n - 1];
        assert forall|i: int| 0 <= i < after.len() implies !have.contains(#[trigger] after[i])
            && exists|k: int|
            0 <= k < n && gap(k, cur) <= KEEP_WITHIN && #[trigger] files[k] == after[i] by {
            if i < before.len() {
                assert(after[i] == before[i]);
                let k = choose|k: int|
                    0 <= k < n - 1 && gap(k, cur) <= KEEP_WITHIN && #[trigger] files[k] == before[i];
                assert(files[k] == after[i]);
            } else {
                assert(files[n - 1] == after[i]);
            }
        }
        assert forall|k: int| 0 <= k < n && gap(k, cur) <= KEEP_WITHIN implies have.contains(
            #[trigger] files[k],
        ) || after.contains(files[k]) by {
            if k < n - 1 {
                if before.contains(files[k]) {
                    let i = choose|i: int| 0 <= i < before.len() && before[i] == files[k];
                    assert(after[i] == files[k]);
                }
            } else if !have.contains(p) && !before.contains(p) {
                assert(after[before.len() as int] == p);
            } else if before.contains(p) {
                let i = choose|i: int| 0 <= i < before.len() && before[i] == p;
                assert(after[i] == p);
            }
        }
    }
}

proof fn lemma_finished_all(s: Seq<(Seq<char>, Slot)>, done: Seq<(String, bool)>)
    ensures
        paths_of(finished_all(s, done)) == paths_of(s),
    decreases done.len(),
{
    if done.len() > 0 {
        lemma_finished_all(s, done.drop_last());
        assert(paths_of(finished_all(s, done)) =~= paths_of(finished_all(s, done.drop_last())));
    }
}

/// After an update every photo near the current one has exactly one slot, and no other photo has any:
/// what is kept in memory is bounded by the window.
pub proof fn law_slots_cover_the_window(
    s: Seq<(Seq<char>, Slot)>,
    done: Seq<(String, bool)>,
    files: Seq<Seq<char>>,
    cur: int,
)
    requires
        distinct(s),
    ensures
        distinct(updated_slots(s, done, files, cur)),
        forall|i: int|
            0 <= i < updated_slots(s, done, files, cur).len() ==> rank(
                files,
                cur,
                (#[trigger] updated_slots(s, done, files, cur)[i]).0,
            ) is Some,
        forall|k: int|
            0 <= k < files.len() && gap(k, cur) <= KEEP_WITHIN ==> paths_of(
                updated_slots(s, done, files, cur),
            ).contains(#[trigger] files[k]),
{
    let f = finished_all(s, done);
    lemma_finished_all(s, done);
    assert(distinct(f));
    let kept = near_slots(f, files, cur);
    lemma_near_slots(f, files, cur);
    let have = paths_of(kept);
    let fresh = new_paths(files, cur, have, files.len() as int);
    lemma_new_paths(files, cur, have, files.len() as int);
    lemma_paths_of(kept, fresh);
    let all = updated_slots(s, done, files, cur);
    assert forall|i: int| 0 <= i < all.len() implies rank(files, cur, (#[trigger] all[i]).0) is Some by {
        if i < kept.len() {
            assert(all[i] == kept[i]);
        } else {
            let p = fresh[i - kept.len()];
            lemma_near_place(files, cur, p, files.len() as int);
        }
    }
    assert forall|i: int, j: int| 0 <= i < all.len() && 0 <= j < all.len() && i != j implies paths_of(
        all,
    )[i] != paths_of(all)[j] by {
        if i < kept.len() && j < kept.len() {
            assert(paths_of(kept)[i] != paths_of(kept)[j]);
        } else if i >= kept.len() && j >= kept.len() {
            assert(fresh[i - kept.len()] != fresh[j - kept.len()]);
        } else if i < kept.len() {
            assert(have[i] == paths_of(all)[i]);
            assert(!have.contains(fresh[j - kept.len()]));
        } else {
            assert(have[j] == paths_of(all)[j]);
            assert(!have.contains(fresh[i - kept.len()]));
        }
    }
}

/// A thumbnail that is ready stays ready as long as its photo is near the current one.
pub proof fn law_ready_stays_ready(
    s: Seq<(Seq<char>, Slot)>,
    files: Seq<Seq<char>>,
    cur: int,
    path: Seq<char>,
)
    requires
        s.contains((path, Slot::Ready)),
        rank(files, cur, path) is Some,
    ensures
        updated_slots(s, seq![], files, cur).contains((path, Slot::Ready)),
{
    lemma_near_slots(s, files, cur);
    let i = choose|i: int| 0 <= i < s.len() && s[i] == (path, Slot::Ready);
    assert(near_slots(s, files, cur).contains(s[i]));
    let kept = near_slots(s, files, cur);
    let k = choose|k: int| 0 <= k < kept.len() && kept[k] == (path, Slot::Ready);
    assert(updated_slots(s, seq![], files, cur)[k] == (path, Slot::Ready));
}

/// After an update every job is for a photo near the current one, and its priority is the distance.
pub proof fn law_jobs_are_ranked(
    j: Seq<(Seq<char>, usize)>,
    s: Seq<(Seq<char>, Slot)>,
    done: Seq<(String, bool)>,
    files: Seq<Seq<char>>,
    cur: int,
    i: int,
)
    requires
        0 <= cur,
        0 <= i < updated_jobs(j, s, done, files, cur).len(),
    ensures
        rank(files, cur, updated_jobs(j, s, done, files, cur)[i].0) == Some(
            updated_jobs(j, s, done, files, cur)[i].1 as int,
        ),
{
    let kept = near_slots(finished_all(s, done), files, cur);
    let have = paths_of(kept);
    let fresh = new_paths(files, cur, have, files.len() as int);
    let old_jobs = near_jobs(j, files, cur);
    if i < old_jobs.len() {
        lemma_near_jobs(j, files, cur, i);
    } else {
        lemma_new_paths(files, cur, have, files.len() as int);
        let p = fresh[i - old_jobs.len()];
        lemma_near_place(files, cur, p, files.len() as int);
    }
}

proof fn lemma_near_jobs(j: Seq<(Seq<char>, usize)>, files: Seq<Seq<char>>, cur: int, i: int)
    requires
        0 <= i < near_jobs(j, files, cur).len(),
    ensures
        rank(files, cur, near_jobs(j, files, cur)[i].0) == Some(
            near_jobs(j, files, cur)[i].1 as int,
        ),
    decreases j.len(),
{
    if j.len() > 0 {
        let before = near_jobs(j.drop_last(), files, cur);
        lemma_near_place(files, cur, j.last().0, files.len() as int);
        if i < before.len() {
            lemma_near_jobs(j.drop_last(), files, cur, i);
        }
    }
}

/// A photo is ranked by how many places it is from the current one, either way; one that is more than [`KEEP_WITHIN`] places
/// away has no rank.
pub proof fn law_rank_is_the_distance(files: Seq<Seq<char>>, cur: int, k: int)
    requires
        files.no_duplicates(),
        0 <= k < files.len(),
    ensures
        k >= cur && k - cur <= KEEP_WITHIN ==> rank(files, cur, files[k]) == Some(k - cur),
        k <= cur && cur - k <= KEEP_WITHIN ==> rank(files, cur, files[k]) == Some(cur - k),
        k - cur > KEEP_WITHIN || cur - k > KEEP_WITHIN ==> rank(files, cur, files[k]) is None,
{
    lemma_near_place(files, cur, files[k], files.len() as int);
    if let Some(i) = near_place(files, cur, files[k], files.len() as int) {
        assert(files[i] == files[k]);
        assert(i == k);
    }
}

/// Every photo that gets a slot gets a job, and waits; a photo that had one keeps what became of it.
pub proof fn law_new_photos_get_jobs(
    j: Seq<(Seq<char>, usize)>,
    s: Seq<(Seq<char>, Slot)>,
    done: Seq<(String, bool)>,
    files: Seq<Seq<char>>,
    cur: int,
    k: int,
)
    requires
        distinct(s),
        0 <= k < files.len(),
        gap(k, cur) <= KEEP_WITHIN,
        !paths_of(s).contains(files[k]),
    ensures
        updated_slots(s, done, files, cur).contains((files[k], Slot::Queued)),
        exists|r: usize| updated_jobs(j, s, done, files, cur).contains((files[k], r)),
{
    let f = finished_all(s, done);
    lemma_finished_all(s, done);
    let kept = near_slots(f, files, cur);
    lemma_near_slots(f, files, cur);
    let have = paths_of(kept);
    let fresh = new_paths(files, cur, have, files.len() as int);
    lemma_new_paths(files, cur, have, files.len() as int);
    let p = files[k];
    assert(!have.contains(p)) by {
        if have.contains(p) {
            let i = have.index_of(p);
            assert(kept[i].0 == p);
            assert(f.contains(kept[i]));
            let m = f.index_of(kept[i]);
            assert(paths_of(f)[m] == p);
            assert(paths_of(s)[m] == p);
        }
    }
    let i = fresh.index_of(p);
    let slots = updated_slots(s, done, files, cur);
    assert(slots[kept.len() + i] == (p, Slot::Queued));
    let jobs = updated_jobs(j, s, done, files, cur);
    let at = near_jobs(j, files, cur).len() + i;
    assert(jobs[at].0 == p);
    assert(jobs.contains((p, jobs[at].1)));
}

} // verus!
