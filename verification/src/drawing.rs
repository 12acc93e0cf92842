//! What is drawn in a frame: thumbnails as they come into view, and the views that are out of date.

use crate::session::{Dirty, Session, SessionView, ThumbsView};
use vstd::prelude::*;

verus! {

// ---------------------------------------------------------------------------------------------
// Thumbnails
// ---------------------------------------------------------------------------------------------

/// What there is of a thumbnail that comes into view.
#[derive(Clone, Copy, PartialEq, Eq, Debug, Structural)]
pub enum Thumb {
    /// There is no photo to show.
    NoPhoto,
    /// It has to be created.
    New,
    /// It is there.
    Known,
}

/// The thumbnails with room for `n` presets.
pub open spec fn padded(fresh: Seq<Option<bool>>, n: nat) -> Seq<Option<bool>> {
    if fresh.len() < n {
        fresh + Seq::new((n - fresh.len()) as nat, |i: int| None)
    } else {
        fresh
    }
}

/// The thumbnails once that of preset `i` of `n` is asked for: it is queued unless it is fresh.
pub open spec fn thumb_asked(t: ThumbsView, i: int, n: nat) -> ThumbsView {
    let room = padded(t.fresh, n);
    ThumbsView {
        fresh: room.update(i, Some(true)),
        queue: if room[i] == Some(true) {
            t.queue
        } else {
            t.queue.push(i as usize)
        },
    }
}

/// What there is of the thumbnail of preset `i`.
pub open spec fn thumb_at(s: SessionView, i: int) -> Thumb {
    if s.photo is None {
        Thumb::NoPhoto
    } else if 0 <= i < s.thumbs.fresh.len() && s.thumbs.fresh[i] is Some {
        Thumb::Known
    } else {
        Thumb::New
    }
}

/// The thumbnails that have to be rendered: the queued ones that there are.
pub open spec fn to_render(queue: Seq<usize>, fresh: Seq<Option<bool>>) -> Seq<usize>
    decreases queue.len(),
{
    if queue.len() == 0 {
        seq![]
    } else {
        let before = to_render(queue.drop_last(), fresh);
        let i = queue.last();
        if i < fresh.len() && fresh[i as int] is Some {
            before.push(i)
        } else {
            before
        }
    }
}

impl Session {
    /// The thumbnail of a preset comes into view: it is queued for rendering if needed. Called while
    /// laying out the grid, so only thumbnails on screen are ever rendered.
    pub fn thumb_for(&mut self, index: usize, presets: usize) -> (r: Thumb)
        requires
            old(self)@.wf(),
            index < presets,
        ensures
            r == thumb_at(old(self)@, index as int),
            final(self)@ == if r == Thumb::NoPhoto {
                old(self)@
            } else {
                (SessionView {
                    thumbs: thumb_asked(old(self)@.thumbs, index as int, presets as nat),
                    ..old(self)@
                })
            },
            final(self)@.wf(),
    {
        if self.photo.is_none() {
            return Thumb::NoPhoto;
        }
        let r = if index < self.thumbs.fresh.len() && self.thumbs.fresh[index].is_some() {
            Thumb::Known
        } else {
            Thumb::New
        };
        pad(&mut self.thumbs.fresh, presets);
        let is_fresh = match self.thumbs.fresh[index] {
            Some(f) => f,
            None => false,
        };
        self.thumbs.fresh.set(index, Some(true));
        if !is_fresh {
            self.thumbs.queue.push(index);
        }
        r
    }
}

fn pad(fresh: &mut Vec<Option<bool>>, n: usize)
    ensures
        final(fresh)@ == padded(old(fresh)@, n as nat),
{
    let ghost had = fresh@;
    while fresh.len() < n
        invariant
            had.len() <= fresh@.len(),
            fresh@.len() <= n || fresh@.len() == had.len(),
            fresh@ == had + Seq::new((fresh@.len() - had.len()) as nat, |i: int| None),
        decreases n - fresh.len(),
    {
        let ghost k = (fresh@.len() - had.len()) as nat;
        fresh.push(None);
        assert(fresh@ =~= had + Seq::new((k + 1) as nat, |i: int| None));
    }
    assert(fresh@ =~= padded(had, n as nat));
}

/// A thumbnail is queued once: asking for it again before it is rendered changes nothing.
pub proof fn law_thumb_is_queued_once(t: ThumbsView, i: int, n: nat)
    requires
        0 <= i < n,
    ensures
        thumb_asked(thumb_asked(t, i, n), i, n) == thumb_asked(t, i, n),
{
    let once = thumb_asked(t, i, n);
    assert(padded(once.fresh, n) =~= once.fresh);
    assert(thumb_asked(once, i, n).fresh =~= once.fresh);
}

// ---------------------------------------------------------------------------------------------
// Views
// ---------------------------------------------------------------------------------------------

/// What is drawn in a frame, beside the preview.
pub struct Drawing {
    pub thumbs: Vec<usize>,
    /// The untouched photo.
    pub original: bool,
    /// The zoomed view of the edited photo, and of the untouched one.
    pub zoomed: bool,
    pub zoomed_original: bool,
}

/// Something is out of date.
pub open spec fn needs_drawing(s: SessionView) -> bool {
    s.photo is Some && (s.dirty.preview || s.dirty.original || s.dirty.zoom || s.thumbs.queue.len()
        > 0)
}

/// The state once everything is drawn.
pub open spec fn drawn(s: SessionView) -> SessionView {
    SessionView {
        dirty: Dirty { preview: false, original: false, zoom: false, ..s.dirty },
        thumbs: ThumbsView { queue: seq![], ..s.thumbs },
        ..s
    }
}

/// The state once the views have the sizes for the crop, where they had not (`views`, `thumbs`).
pub open spec fn resized(s: SessionView, views: bool, thumbs: bool) -> SessionView {
    SessionView {
        dirty: Dirty {
            preview: s.dirty.preview || views,
            original: s.dirty.original || views,
            recs: s.dirty.recs || thumbs,
            ..s.dirty
        },
        thumbs: if thumbs {
            ThumbsView { fresh: seq![], ..s.thumbs }
        } else {
            s.thumbs
        },
        ..s
    }
}

fn list_to_render(queue: &Vec<usize>, fresh: &Vec<Option<bool>>) -> (r: Vec<usize>)
    ensures
        r@ == to_render(queue@, fresh@),
{
    let mut out: Vec<usize> = Vec::new();
    assert(queue@.take(0) =~= seq![]);
    let mut k: usize = 0;
    while k < queue.len()
        invariant
            k <= queue@.len(),
            out@ == to_render(queue@.take(k as int), fresh@),
        decreases queue.len() - k,
    {
        assert(queue@.take(k + 1).drop_last() =~= queue@.take(k as int));
        let i: usize = queue[k];
        if i < fresh.len() && fresh[i].is_some() {
            out.push(i);
        }
        k = k + 1;
    }
    assert(queue@.take(k as int) =~= queue@);
    out
}

impl Session {
    /// Whether the views and the thumbnails have to be made anew for the displayed crop, where
    /// `view_matches` and `thumbs_match` say whether they were made for it. While cropping the view shows
    /// the whole frame so there is something to crop into, and the thumbnails stay as they are.
    pub fn sync_targets(&mut self, view_matches: bool, thumbs_match: bool) -> (r: (bool, bool))
        requires
            old(self)@.wf(),
        ensures
            r.0 == (old(self)@.photo is Some && !view_matches),
            r.1 == (old(self)@.photo is Some && !old(self)@.modes.cropping && !thumbs_match),
            final(self)@ == resized(old(self)@, r.0, r.1),
            final(self)@.wf(),
    {
        if self.photo.is_none() {
            return (false, false);
        }
        if !view_matches {
            self.dirty.preview = true;
            self.dirty.original = true;
        }
        let thumbs = !self.modes.cropping && !thumbs_match;
        if thumbs {
            self.thumbs.fresh = Vec::new();
            self.dirty.recs = true;
        }
        (!view_matches, thumbs)
    }

    /// Takes whatever is out of date, to be drawn in a single submission. `zoom_views` says whether there
    /// are zoomed views. None where nothing is out of date.
    pub fn take_drawing(&mut self, zoom_views: bool) -> (r: Option<Drawing>)
        requires
            old(self)@.wf(),
        ensures
            match r {
                None => !needs_drawing(old(self)@) && final(self)@ == old(self)@,
                Some(d) => {
                    &&& needs_drawing(old(self)@)
                    &&& final(self)@ == drawn(old(self)@)
                    &&& d.thumbs@ == to_render(old(self)@.thumbs.queue, old(self)@.thumbs.fresh)
                    &&& d.original == old(self)@.dirty.original
                    &&& d.zoomed == (zoom_views && (old(self)@.dirty.zoom || old(self)@.dirty.preview))
                    &&& d.zoomed_original == (zoom_views && old(self)@.dirty.zoom)
                },
            },
            final(self)@.wf(),
    {
        if self.photo.is_none() || !(self.dirty.preview || self.dirty.original || self.dirty.zoom
            || self.thumbs.queue.len() > 0) {
            return None;
        }
        let thumbs = list_to_render(&self.thumbs.queue, &self.thumbs.fresh);
        let d = Drawing {
            thumbs,
            original: self.dirty.original,
            zoomed: zoom_views && (self.dirty.zoom || self.dirty.preview),
            zoomed_original: zoom_views && self.dirty.zoom,
        };
        self.thumbs.queue = Vec::new();
        self.dirty.preview = false;
        self.dirty.original = false;
        self.dirty.zoom = false;
        Some(d)
    }
}

/// Once everything is drawn, nothing is left to draw until something changes.
pub proof fn law_drawn_is_up_to_date(s: SessionView)
    ensures
        !needs_drawing(drawn(s)),
        drawn(drawn(s)) == drawn(s),
{
}

/// A thumbnail that comes into view is rendered in that frame, unless it is fresh already.
pub proof fn law_visible_thumb_is_rendered(t: ThumbsView, i: int, n: nat)
    requires
        0 <= i < n <= usize::MAX,
        padded(t.fresh, n)[i] != Some(true),
    ensures
        to_render(thumb_asked(t, i, n).queue, thumb_asked(t, i, n).fresh).contains(i as usize),
{
    let u = thumb_asked(t, i, n);
    let r = to_render(u.queue, u.fresh);
    assert(u.queue.last() == i as usize);
    assert(u.fresh[i] == Some(true));
    assert(r.last() == i as usize);
}

} // verus!
