//! What the window shows and how it answers the user: the photo, the selection, the crop tool, the zoom
//! and what has to be drawn again.

use crate::browse::{neighbour_of, taken, Browser, BrowserView};
use crate::loader::Decoded;
use crate::panel::{cells_view, current_cell, grid_step, selected_cell, steps_to, Arrows, Cell};
use crate::preset::opt_view;
use crate::text::text_eq;
use vstd::prelude::*;

verus! {

/// The photo on screen.
pub struct Shown {
    pub path: String,
    /// Showing the embedded preview while the full image decodes.
    pub provisional: bool,
}

/// How far the recommendations for a photo are.
#[derive(Clone, Copy, PartialEq, Eq, Debug, Structural)]
pub enum Stage {
    /// Nothing under way.
    Idle,
    /// Every preset is being rendered.
    Rendering,
    /// The renderings are being scored.
    Scoring,
}

/// What the window is doing.
#[derive(Clone, Copy, PartialEq, Eq, Debug)]
pub struct Modes {
    /// The crop tool is open.
    pub cropping: bool,
    /// The locked ratio is rotated by 90 degrees.
    pub crop_flip: bool,
    /// Zoomed in, and not fitted to the window.
    pub zoomed: bool,
    pub side_by_side: bool,
    pub show_original: bool,
    pub show_filmstrip: bool,
    pub export_dialog: bool,
    pub exporting: bool,
    pub copying: bool,
}

/// What has to be drawn or computed again.
#[derive(Clone, Copy, PartialEq, Eq, Debug)]
pub struct Dirty {
    pub preview: bool,
    pub original: bool,
    pub zoom: bool,
    /// The recommendations (new photo, crop or presets).
    pub recs: bool,
}

/// The selected preset.
pub struct Selection {
    pub preset: usize,
    /// Section the selection was made in (a preset can appear in "Recommended" and its group).
    pub section: String,
    pub scroll_to: bool,
}

/// The thumbnails of the presets.
pub struct Thumbs {
    /// Per preset whose thumbnail there is: whether it is rendered for the current photo and crop.
    pub fresh: Vec<Option<bool>>,
    /// Thumbnails that became visible and need rendering this frame.
    pub queue: Vec<usize>,
}

/// The state of the window.
pub struct Session {
    pub photo: Option<Shown>,
    /// The photo most recently asked for (it may still be loading).
    pub target: Option<String>,
    /// The photo the filmstrip last scrolled to, so it follows the current photo.
    pub filmstrip_at: Option<String>,
    pub selection: Selection,
    pub modes: Modes,
    pub dirty: Dirty,
    pub stage: Stage,
    /// Presets recommended for the current photo, best first.
    pub recommended: Vec<usize>,
    pub thumbs: Thumbs,
}

/// What a [`Selection`] holds: the preset, its section, and whether to scroll to it.
pub struct SelectionView {
    pub preset: usize,
    pub section: Seq<char>,
    pub scroll_to: bool,
}

impl View for Selection {
    type V = SelectionView;

    open spec fn view(&self) -> SelectionView {
        SelectionView { preset: self.preset, section: self.section@, scroll_to: self.scroll_to }
    }
}

/// What [`Thumbs`] hold.
pub struct ThumbsView {
    pub fresh: Seq<Option<bool>>,
    pub queue: Seq<usize>,
}

impl View for Thumbs {
    type V = ThumbsView;

    open spec fn view(&self) -> ThumbsView {
        ThumbsView { fresh: self.fresh@, queue: self.queue@ }
    }
}

/// What a [`Session`] holds.
pub struct SessionView {
    pub photo: Option<(Seq<char>, bool)>,
    pub target: Option<Seq<char>>,
    pub filmstrip_at: Option<Seq<char>>,
    pub selection: SelectionView,
    pub modes: Modes,
    pub dirty: Dirty,
    pub stage: Stage,
    pub recommended: Seq<usize>,
    pub thumbs: ThumbsView,
}

/// The path of the photo, and whether it is its quick preview.
pub open spec fn shown_view(p: Option<Shown>) -> Option<(Seq<char>, bool)> {
    match p {
        Some(p) => Some((p.path@, p.provisional)),
        None => None,
    }
}

impl View for Session {
    type V = SessionView;

    open spec fn view(&self) -> SessionView {
        SessionView {
            photo: shown_view(self.photo),
            target: opt_view(self.target),
            filmstrip_at: opt_view(self.filmstrip_at),
            selection: self.selection@,
            modes: self.modes,
            dirty: self.dirty,
            stage: self.stage,
            recommended: self.recommended@,
            thumbs: self.thumbs@,
        }
    }
}

impl SessionView {
    /// There is a photo, and it is more than its quick preview.
    pub open spec fn is_loaded(self) -> bool {
        self.photo matches Some(p) && !p.1
    }

    /// The photo can be zoomed.
    pub open spec fn zoom_available(self) -> bool {
        self.is_loaded() && !self.modes.cropping
    }

    /// Only a photo can be cropped, and the crop tool shows all of it: it is not zoomed.
    pub open spec fn wf(self) -> bool {
        self.modes.cropping ==> self.photo is Some && !self.modes.zoomed
    }
}

/// What the window does at first.
pub open spec fn initial_modes(filmstrip: bool) -> Modes {
    Modes {
        cropping: false,
        crop_flip: false,
        zoomed: false,
        side_by_side: false,
        show_original: false,
        show_filmstrip: filmstrip,
        export_dialog: false,
        exporting: false,
        copying: false,
    }
}

/// The state of a window without a photo.
pub open spec fn initial_view(filmstrip: bool) -> SessionView {
    SessionView {
        photo: None,
        target: None,
        filmstrip_at: None,
        selection: SelectionView { preset: 0, section: seq![], scroll_to: false },
        modes: initial_modes(filmstrip),
        dirty: Dirty { preview: false, original: false, zoom: false, recs: false },
        stage: Stage::Idle,
        recommended: seq![],
        thumbs: ThumbsView { fresh: seq![], queue: seq![] },
    }
}

/// What the application has to do.
#[derive(Clone, Copy, PartialEq, Eq, Debug, Structural)]
pub enum Act {
    /// Render the photo like an export, onto the clipboard.
    Copy,
    /// Remember the crop, to restore it on cancel.
    StartCrop,
    /// Leave the crop tool; restore the crop unless it is kept.
    FinishCrop { keep: bool },
    /// Fit the crop to the locked ratio.
    ApplyRatio,
    /// Show the photo at 100%.
    ZoomIn,
    /// Let go of the zoomed views.
    ZoomOut,
    /// Remember whether the filmstrip is shown.
    SaveFilmstrip { show: bool },
    /// Step to the next or the previous photo of the folder.
    Navigate { next: bool },
    /// Move the selection with the arrow keys.
    MoveSelection,
}

// ---------------------------------------------------------------------------------------------
// Photos
// ---------------------------------------------------------------------------------------------

/// The state once a photo, or its quick preview, has been decoded.
pub open spec fn with_photo(s: SessionView, path: Seq<char>, provisional: bool) -> SessionView {
    let upgrade = s.photo == Some((path, true));
    SessionView {
        photo: Some((path, provisional)),
        modes: Modes { cropping: s.modes.cropping && upgrade, ..s.modes },
        recommended: if upgrade {
            s.recommended
        } else {
            seq![]
        },
        thumbs: ThumbsView { fresh: seq![], ..s.thumbs },
        dirty: Dirty { preview: true, original: true, zoom: true, recs: true },
        ..s
    }
}

impl Session {
    /// A window without a photo.
    pub fn new(filmstrip: bool) -> (r: Session)
        ensures
            r@ == initial_view(filmstrip),
            r@.wf(),
    {
        Session {
            photo: None,
            target: None,
            filmstrip_at: None,
            selection: Selection { preset: 0, section: String::new(), scroll_to: false },
            modes: Modes {
                cropping: false,
                crop_flip: false,
                zoomed: false,
                side_by_side: false,
                show_original: false,
                show_filmstrip: filmstrip,
                export_dialog: false,
                exporting: false,
                copying: false,
            },
            dirty: Dirty { preview: false, original: false, zoom: false, recs: false },
            stage: Stage::Idle,
            recommended: Vec::new(),
            thumbs: Thumbs { fresh: Vec::new(), queue: Vec::new() },
        }
    }

    /// Whether the photo is more than its quick preview, so that it can be exported and copied.
    pub fn is_loaded(&self) -> (r: bool)
        ensures
            r == self@.is_loaded(),
    {
        match &self.photo {
            Some(p) => !p.provisional,
            None => false,
        }
    }

    /// Whether the photo can be zoomed.
    pub fn zoom_available(&self) -> (r: bool)
        ensures
            r == self@.zoom_available(),
    {
        self.is_loaded() && !self.modes.cropping
    }

    /// Whether the quick preview of this photo is on screen.
    fn previews(&self, path: &str) -> (r: bool)
        ensures
            r == (self@.photo == Some((path@, true))),
    {
        match &self.photo {
            Some(p) => p.provisional && text_eq(p.path.as_str(), path),
            None => false,
        }
    }

    /// A photo has been decoded. Upgrading the embedded preview to the full image keeps the crop (and
    /// crop tool) as is: the result is whether it does.
    pub fn finish_load(&mut self, path: String, provisional: bool) -> (r: bool)
        requires
            old(self)@.wf(),
        ensures
            r == (old(self)@.photo == Some((path@, true))),
            final(self)@ == with_photo(old(self)@, path@, provisional),
            final(self)@.wf(),
    {
        let upgrade = self.previews(path.as_str());
        if !upgrade {
            self.modes.cropping = false;
            self.recommended = Vec::new();
        }
        self.photo = Some(Shown { path, provisional });
        self.thumbs.fresh = Vec::new();
        self.dirty = Dirty { preview: true, original: true, zoom: true, recs: true };
        upgrade
    }
}

/// How another photo of the folder comes on screen.
pub enum Goto {
    /// It is there already.
    Stay,
    /// It was decoded ahead: show it.
    Show(Decoded),
    /// It is being decoded ahead: it is shown when it arrives.
    Wait,
    /// It has to be opened.
    Open,
}

/// The state, and what is known of the folder, after asking for another photo; and how it comes on
/// screen.
pub open spec fn gone_to(s: SessionView, b: BrowserView, next: Seq<char>) -> (
    SessionView,
    BrowserView,
    Goto,
) {
    if s.target == Some(next) {
        (s, b, Goto::Stay)
    } else {
        let s2 = SessionView { target: Some(next), ..s };
        let b2 = BrowserView { pending: None, ..b };
        match taken(b2, next) {
            (b3, Some(d)) => (s2, b3, Goto::Show(d)),
            (_, None) => if b.inflight.contains(next) {
                (s2, BrowserView { pending: Some(next), ..b2 }, Goto::Wait)
            } else {
                (s2, b2, Goto::Open)
            },
        }
    }
}

impl Session {
    /// Shows another photo from the current folder, using its preload if there is one.
    pub fn goto(&mut self, browser: &mut Browser, next: String) -> (r: Goto)
        ensures
            (final(self)@, final(browser)@, r) == gone_to(old(self)@, old(browser)@, next@),
    {
        let there = match &self.target {
            Some(t) => text_eq(t.as_str(), next.as_str()),
            None => false,
        };
        if there {
            return Goto::Stay;
        }
        self.target = Some(next.clone());
        browser.wait_for(None);
        match browser.take(next.as_str()) {
            Some(d) => Goto::Show(d),
            None => {
                if browser.is_inflight(next.as_str()) {
                    browser.wait_for(Some(next));
                    Goto::Wait
                } else {
                    Goto::Open
                }
            },
        }
    }

    /// The previous (-1) or next (+1) photo in the folder, seen from the one most recently asked for.
    pub fn navigate(&self, browser: &Browser, next: bool) -> (r: Option<String>)
        ensures
            opt_view(r) == match self@.target {
                Some(t) => neighbour_of(
                    browser@.files,
                    t,
                    if next {
                        1
                    } else {
                        -1
                    },
                ),
                None => None,
            },
    {
        match &self.target {
            Some(t) => {
                let delta: isize = if next {
                    1
                } else {
                    -1
                };
                browser.neighbour(t.as_str(), delta)
            },
            None => None,
        }
    }

    /// A photo is opened: it is the one asked for, and the user waits for no other.
    pub fn open(&mut self, browser: &mut Browser, path: String)
        ensures
            final(self)@ == (SessionView { target: Some(path@), ..old(self)@ }),
            final(browser)@ == (BrowserView { pending: None, ..old(browser)@ }),
    {
        browser.wait_for(None);
        self.target = Some(path);
    }
}

// ---------------------------------------------------------------------------------------------
// Crop and zoom
// ---------------------------------------------------------------------------------------------

/// The state once the zoom is turned on or off, and what there is to do.
pub open spec fn zoom_toggled(s: SessionView) -> (SessionView, Seq<Act>) {
    if s.modes.zoomed {
        (SessionView { modes: Modes { zoomed: false, ..s.modes }, ..s }, seq![Act::ZoomOut])
    } else if s.zoom_available() {
        (SessionView { modes: Modes { zoomed: true, ..s.modes }, ..s }, seq![Act::ZoomIn])
    } else {
        (s, seq![])
    }
}

/// The state once the crop tool is opened.
pub open spec fn crop_started(s: SessionView) -> (SessionView, Seq<Act>) {
    let (z, acts) = if s.modes.zoomed {
        zoom_toggled(s)
    } else {
        (s, seq![])
    };
    if s.photo is Some {
        (
            SessionView { modes: Modes { cropping: true, side_by_side: false, ..z.modes }, ..z },
            acts.push(Act::StartCrop),
        )
    } else {
        (z, acts)
    }
}

/// The state once the crop tool is closed.
pub open spec fn crop_finished(s: SessionView, keep: bool) -> (SessionView, Seq<Act>) {
    if s.modes.cropping {
        (
            SessionView { modes: Modes { cropping: false, ..s.modes }, ..s },
            if s.photo is Some {
                seq![Act::FinishCrop { keep }]
            } else {
                seq![]
            },
        )
    } else {
        (s, seq![])
    }
}

/// The state once the filmstrip is shown or hidden.
pub open spec fn filmstrip_set(s: SessionView, show: bool) -> (SessionView, Seq<Act>) {
    (
        SessionView { modes: Modes { show_filmstrip: show, ..s.modes }, filmstrip_at: None, ..s },
        seq![Act::SaveFilmstrip { show }],
    )
}

impl Session {
    /// Turns the 100% view on or off.
    pub fn toggle_zoom(&mut self, acts: &mut Vec<Act>)
        requires
            old(self)@.wf(),
        ensures
            final(self)@ == zoom_toggled(old(self)@).0,
            final(acts)@ == old(acts)@ + zoom_toggled(old(self)@).1,
            final(self)@.wf(),
    {
        let ghost had = acts@;
        if self.modes.zoomed {
            self.modes.zoomed = false;
            acts.push(Act::ZoomOut);
            assert(acts@ =~= had + seq![Act::ZoomOut]);
        } else if self.zoom_available() {
            self.modes.zoomed = true;
            acts.push(Act::ZoomIn);
            assert(acts@ =~= had + seq![Act::ZoomIn]);
        } else {
            assert(acts@ =~= had + seq![]);
        }
    }

    /// Opens the crop tool.
    pub fn start_crop(&mut self, acts: &mut Vec<Act>)
        requires
            old(self)@.wf(),
        ensures
            final(self)@ == crop_started(old(self)@).0,
            final(acts)@ == old(acts)@ + crop_started(old(self)@).1,
            final(self)@.wf(),
    {
        let ghost had = acts@;
        if self.modes.zoomed {
            self.toggle_zoom(acts);
        } else {
            assert(acts@ =~= had + seq![]);
        }
        let ghost zoomed_out = acts@;
        if self.photo.is_some() {
            self.modes.cropping = true;
            self.modes.side_by_side = false;
            acts.push(Act::StartCrop);
            assert(acts@ =~= had + crop_started(old(self)@).1);
        }
    }

    /// Closes the crop tool; the crop is restored unless it is kept.
    pub fn finish_crop(&mut self, keep: bool, acts: &mut Vec<Act>)
        requires
            old(self)@.wf(),
        ensures
            final(self)@ == crop_finished(old(self)@, keep).0,
            final(acts)@ == old(acts)@ + crop_finished(old(self)@, keep).1,
            final(self)@.wf(),
    {
        let ghost had = acts@;
        if self.modes.cropping {
            self.modes.cropping = false;
            if self.photo.is_some() {
                acts.push(Act::FinishCrop { keep });
            }
        }
        assert(acts@ =~= had + crop_finished(old(self)@, keep).1);
    }

    /// Shows or hides the filmstrip. It scrolls to the current photo when it appears.
    pub fn set_filmstrip(&mut self, show: bool, acts: &mut Vec<Act>)
        requires
            old(self)@.wf(),
        ensures
            final(self)@ == filmstrip_set(old(self)@, show).0,
            final(acts)@ == old(acts)@ + filmstrip_set(old(self)@, show).1,
            final(self)@.wf(),
    {
        let ghost had = acts@;
        self.modes.show_filmstrip = show;
        self.filmstrip_at = None;
        acts.push(Act::SaveFilmstrip { show });
        assert(acts@ =~= had + seq![Act::SaveFilmstrip { show }]);
    }
}

// ---------------------------------------------------------------------------------------------
// Keys
// ---------------------------------------------------------------------------------------------

/// The keys that were pressed since the last frame. The letters and brackets count only without a
/// modifier (so that copying does not crop).
#[derive(Clone, Copy, PartialEq, Eq, Debug)]
pub struct Keys {
    /// The shortcut for exporting.
    pub export: bool,
    /// The shortcut for copying.
    pub copy: bool,
    pub enter: bool,
    pub escape: bool,
    pub c: bool,
    pub f: bool,
    pub x: bool,
    pub y: bool,
    pub z: bool,
    pub open_bracket: bool,
    pub close_bracket: bool,
    /// Any of the arrow keys.
    pub arrow: bool,
}

/// Keys while the crop tool is open: arrows etc. stay inactive.
pub open spec fn crop_keys(s: SessionView, keys: Keys) -> (SessionView, Seq<Act>) {
    if keys.enter || keys.c {
        crop_finished(s, true)
    } else if keys.escape {
        crop_finished(s, false)
    } else if keys.x {
        (
            SessionView { modes: Modes { crop_flip: !s.modes.crop_flip, ..s.modes }, ..s },
            seq![Act::ApplyRatio],
        )
    } else {
        (s, seq![])
    }
}

/// One step where `on`, and none otherwise.
pub open spec fn step_if(on: bool, step: (SessionView, Seq<Act>), s: SessionView) -> (
    SessionView,
    Seq<Act>,
) {
    if on {
        step
    } else {
        (s, seq![])
    }
}

/// The keys for cropping and for the filmstrip, one after the other.
#[verifier::opaque]
pub open spec fn tool_keys(s: SessionView, keys: Keys) -> (SessionView, Seq<Act>) {
    let (s1, a1) = step_if(keys.c, crop_started(s), s);
    let (s2, a2) = step_if(keys.f, filmstrip_set(s1, !s1.modes.show_filmstrip), s1);
    (s2, a1 + a2)
}

/// The keys for zooming, one after the other.
#[verifier::opaque]
pub open spec fn zoom_keys(s: SessionView, keys: Keys) -> (SessionView, Seq<Act>) {
    let (s1, a1) = step_if(keys.z, zoom_toggled(s), s);
    let (s2, a2) = step_if(s1.modes.zoomed && keys.escape, zoom_toggled(s1), s1);
    (s2, a1 + a2)
}

/// Keys while the photo is on screen: each does its own, one after the other.
pub open spec fn view_keys(s: SessionView, keys: Keys) -> (SessionView, Seq<Act>) {
    let (s1, a1) = tool_keys(s, keys);
    let (s2, a2) = zoom_keys(s1, keys);
    (compared_if(keys.y, s2), a1 + a2 + moves(keys))
}

/// The comparison turned on or off where `on`.
pub open spec fn compared_if(on: bool, s: SessionView) -> SessionView {
    if on {
        SessionView { modes: Modes { side_by_side: !s.modes.side_by_side, ..s.modes }, ..s }
    } else {
        s
    }
}

/// The steps to other photos and presets.
pub open spec fn moves(keys: Keys) -> Seq<Act> {
    (if keys.open_bracket {
        seq![Act::Navigate { next: false }]
    } else {
        seq![]
    }) + (if keys.close_bracket {
        seq![Act::Navigate { next: true }]
    } else {
        seq![]
    }) + (if keys.arrow {
        seq![Act::MoveSelection]
    } else {
        seq![]
    })
}

/// What keys do. They do nothing while a dialog or the palette is open or a text is typed (`blocked`).
pub open spec fn keys_pressed(s: SessionView, keys: Keys, blocked: bool) -> (SessionView, Seq<Act>) {
    if s.modes.export_dialog || blocked {
        (s, seq![])
    } else if s.is_loaded() && !s.modes.cropping && keys.export {
        (SessionView { modes: Modes { export_dialog: true, ..s.modes }, ..s }, seq![])
    } else if s.is_loaded() && !s.modes.cropping && !s.modes.copying && keys.copy {
        (s, seq![Act::Copy])
    } else if s.modes.cropping {
        crop_keys(s, keys)
    } else {
        view_keys(s, keys)
    }
}

fn push_moves(keys: Keys, acts: &mut Vec<Act>)
    ensures
        final(acts)@ == old(acts)@ + moves(keys),
{
    let ghost had = acts@;
    if keys.open_bracket {
        acts.push(Act::Navigate { next: false });
    }
    if keys.close_bracket {
        acts.push(Act::Navigate { next: true });
    }
    if keys.arrow {
        acts.push(Act::MoveSelection);
    }
    assert(acts@ =~= had + moves(keys));
}

impl Session {
    fn press_while_cropping(&mut self, keys: Keys, acts: &mut Vec<Act>)
        requires
            old(self)@.wf(),
        ensures
            final(self)@ == crop_keys(old(self)@, keys).0,
            final(acts)@ == old(acts)@ + crop_keys(old(self)@, keys).1,
            final(self)@.wf(),
    {
        let ghost had = acts@;
        if keys.enter || keys.c {
            self.finish_crop(true, acts);
        } else if keys.escape {
            self.finish_crop(false, acts);
        } else if keys.x {
            self.modes.crop_flip = !self.modes.crop_flip;
            acts.push(Act::ApplyRatio);
            assert(acts@ =~= had + seq![Act::ApplyRatio]);
        } else {
            assert(acts@ =~= had + seq![]);
        }
    }

    fn press_tools(&mut self, keys: Keys, acts: &mut Vec<Act>)
        requires
            old(self)@.wf(),
        ensures
            final(self)@ == tool_keys(old(self)@, keys).0,
            final(acts)@ == old(acts)@ + tool_keys(old(self)@, keys).1,
            final(self)@.wf(),
    {
        proof {
            reveal(tool_keys);
        }
        let ghost had = acts@;
        let ghost s0 = self@;
        if keys.c {
            self.start_crop(acts);
        }
        let ghost (s1, a1) = step_if(keys.c, crop_started(s0), s0);
        assert(self@ == s1 && acts@ =~= had + a1);
        if keys.f {
            let show = !self.modes.show_filmstrip;
            self.set_filmstrip(show, acts);
        }
        let ghost (s2, a2) = step_if(keys.f, filmstrip_set(s1, !s1.modes.show_filmstrip), s1);
        assert(self@ == s2 && acts@ =~= had + (a1 + a2));
    }

    fn press_zoom(&mut self, keys: Keys, acts: &mut Vec<Act>)
        requires
            old(self)@.wf(),
        ensures
            final(self)@ == zoom_keys(old(self)@, keys).0,
            final(acts)@ == old(acts)@ + zoom_keys(old(self)@, keys).1,
            final(self)@.wf(),
    {
        proof {
            reveal(zoom_keys);
        }
        let ghost had = acts@;
        let ghost s0 = self@;
        if keys.z {
            self.toggle_zoom(acts);
        }
        let ghost (s1, a1) = step_if(keys.z, zoom_toggled(s0), s0);
        assert(self@ == s1 && acts@ =~= had + a1);
        if self.modes.zoomed && keys.escape {
            self.toggle_zoom(acts);
        }
        let ghost (s2, a2) = step_if(s1.modes.zoomed && keys.escape, zoom_toggled(s1), s1);
        assert(self@ == s2 && acts@ =~= had + (a1 + a2));
    }

    fn press_while_viewing(&mut self, keys: Keys, acts: &mut Vec<Act>)
        requires
            old(self)@.wf(),
        ensures
            final(self)@ == view_keys(old(self)@, keys).0,
            final(acts)@ == old(acts)@ + view_keys(old(self)@, keys).1,
            final(self)@.wf(),
    {
        let ghost had = acts@;
        let ghost (s1, a1) = tool_keys(self@, keys);
        let ghost (s2, a2) = zoom_keys(s1, keys);
        self.press_tools(keys, acts);
        self.press_zoom(keys, acts);
        push_moves(keys, acts);
        if keys.y {
            self.modes.side_by_side = !self.modes.side_by_side;
        }
        assert(acts@ =~= had + (a1 + a2 + moves(keys)));
    }

    /// Keys were pressed. While a dialog or the palette is open or a text is typed (`blocked`), they do
    /// nothing here. The result is what the application has to do, in order.
    pub fn press(&mut self, keys: Keys, blocked: bool) -> (acts: Vec<Act>)
        requires
            old(self)@.wf(),
        ensures
            (final(self)@, acts@) == keys_pressed(old(self)@, keys, blocked),
            final(self)@.wf(),
    {
        let mut acts: Vec<Act> = Vec::new();
        if self.modes.export_dialog || blocked {
            return acts;
        }
        let free = self.is_loaded() && !self.modes.cropping;
        if free && keys.export {
            self.modes.export_dialog = true;
            return acts;
        }
        if free && !self.modes.copying && keys.copy {
            acts.push(Act::Copy);
            assert(acts@ =~= seq![Act::Copy]);
            return acts;
        }
        if self.modes.cropping {
            self.press_while_cropping(keys, &mut acts);
            assert(acts@ =~= crop_keys(old(self)@, keys).1);
        } else {
            self.press_while_viewing(keys, &mut acts);
            assert(acts@ =~= view_keys(old(self)@, keys).1);
        }
        acts
    }
}

/// While the crop tool is open, only its own keys do anything: the arrow keys, the brackets and the
/// shortcuts for zooming, comparing, exporting and copying leave everything as it is.
pub proof fn law_cropping_ignores_other_keys(s: SessionView, keys: Keys, blocked: bool)
    requires
        s.modes.cropping,
        !keys.enter,
        !keys.escape,
        !keys.c,
        !keys.x,
    ensures
        keys_pressed(s, keys, blocked) == (s, Seq::<Act>::empty()),
{
}

/// Opening and closing the crop tool with its key leaves the window as it was, up to the zoom and the
/// comparison, which the crop tool turns off.
pub proof fn law_crop_key_toggles(s: SessionView, keys: Keys)
    requires
        s.photo is Some,
        !s.modes.cropping,
        !s.modes.export_dialog,
        keys == (Keys {
            export: false,
            copy: false,
            enter: false,
            escape: false,
            c: true,
            f: false,
            x: false,
            y: false,
            z: false,
            open_bracket: false,
            close_bracket: false,
            arrow: false,
        }),
    ensures
        keys_pressed(keys_pressed(s, keys, false).0, keys, false).0 == (SessionView {
            modes: Modes { zoomed: false, side_by_side: false, ..s.modes },
            ..s
        }),
{
    reveal(tool_keys);
    reveal(zoom_keys);
}

/// Upgrading the quick preview of a photo to the full image keeps the crop tool open and the
/// recommendations listed; another photo closes the tool and clears them.
pub proof fn law_upgrade_keeps_the_crop_tool(
    s: SessionView,
    path: Seq<char>,
    other: Seq<char>,
    provisional: bool,
)
    requires
        s.photo == Some((path, true)),
        other != path,
    ensures
        with_photo(s, path, provisional).modes == s.modes,
        with_photo(s, path, provisional).recommended == s.recommended,
        !with_photo(s, other, provisional).modes.cropping,
        with_photo(s, other, provisional).recommended.len() == 0,
{
}

// ---------------------------------------------------------------------------------------------
// Selection
// ---------------------------------------------------------------------------------------------

/// The state once a preset is selected: the preview is drawn again where it is another one.
pub open spec fn selected_preset(s: SessionView, preset: usize) -> SessionView {
    if s.selection.preset == preset {
        s
    } else {
        SessionView {
            selection: SelectionView { preset, ..s.selection },
            dirty: Dirty { preview: true, ..s.dirty },
            ..s
        }
    }
}

/// The state once a preset is selected in a section, and scrolled to where `scroll`.
pub open spec fn selected_in(s: SessionView, preset: usize, section: Seq<char>, scroll: bool) -> SessionView {
    let t = selected_preset(s, preset);
    SessionView {
        selection: SelectionView {
            section,
            scroll_to: s.selection.scroll_to || scroll,
            ..t.selection
        },
        ..t
    }
}

/// The state once `count` presets behind the first `first_new` have been imported: the first of them is
/// selected.
pub open spec fn presets_added(s: SessionView, first_new: usize, count: usize) -> SessionView {
    let t = SessionView { dirty: Dirty { recs: true, ..s.dirty }, ..s };
    if count > 0 {
        let u = selected_preset(t, first_new);
        SessionView { selection: SelectionView { scroll_to: true, ..u.selection }, ..u }
    } else {
        t
    }
}

impl Session {
    /// Selects a preset.
    pub fn select(&mut self, preset: usize)
        requires
            old(self)@.wf(),
        ensures
            final(self)@ == selected_preset(old(self)@, preset),
            final(self)@.wf(),
    {
        if preset != self.selection.preset {
            self.selection.preset = preset;
            self.dirty.preview = true;
        }
    }

    fn select_in(&mut self, preset: usize, section: String, scroll: bool)
        requires
            old(self)@.wf(),
        ensures
            final(self)@ == selected_in(old(self)@, preset, section@, scroll),
            final(self)@.wf(),
    {
        if preset != self.selection.preset {
            self.dirty.preview = true;
        }
        let scroll_to = self.selection.scroll_to || scroll;
        self.selection = Selection { preset, section, scroll_to };
    }

    /// A preset was clicked in a section.
    pub fn clicked(&mut self, preset: usize, section: String)
        requires
            old(self)@.wf(),
        ensures
            final(self)@ == selected_in(old(self)@, preset, section@, false),
            final(self)@.wf(),
    {
        self.select_in(preset, section, false);
    }

    /// Moves the selection through the grid as it's shown (see [`grid_step`]). Collapsed groups have no
    /// cells and are skipped. `in_row` marks the cells of the nearest row in the direction of the keys,
    /// and `distance` says how far to the side each cell is.
    pub fn move_selection(&mut self, cells: &[Cell], keys: Arrows, in_row: &[bool], distance: &[i32])
        requires
            old(self)@.wf(),
            in_row@.len() == cells@.len(),
            distance@.len() == cells@.len(),
        ensures
            cells@.len() == 0 ==> final(self)@ == old(self)@,
            cells@.len() > 0 ==> exists|i: int|
                {
                    &&& 0 <= i < cells@.len()
                    &&& #[trigger] steps_to(
                        i,
                        cells@.len() as int,
                        selected_cell(
                            cells_view(cells@),
                            old(self)@.selection.preset,
                            old(self)@.selection.section,
                        ),
                        keys,
                        in_row@,
                        distance@,
                    )
                    &&& final(self)@ == selected_in(
                        old(self)@,
                        cells@[i].preset,
                        cells@[i].section@,
                        true,
                    )
                },
            final(self)@.wf(),
    {
        if cells.len() == 0 {
            return;
        }
        let current = current_cell(cells, self.selection.preset, self.selection.section.as_str());
        let i: usize = grid_step(cells.len(), current, keys, in_row, distance);
        proof {
            crate::panel::law_arrows_stay_in_the_grid(
                i as int,
                cells@.len() as int,
                selected_cell(
                    cells_view(cells@),
                    old(self)@.selection.preset,
                    old(self)@.selection.section,
                ),
                keys,
                in_row@,
                distance@,
            );
        }
        self.select_in(cells[i].preset, cells[i].section.clone(), true);
    }

    /// Presets have been imported behind the first `first_new`.
    pub fn add_presets(&mut self, first_new: usize, count: usize)
        requires
            old(self)@.wf(),
        ensures
            final(self)@ == presets_added(old(self)@, first_new, count),
            final(self)@.wf(),
    {
        self.dirty.recs = true;
        if count > 0 {
            self.select(first_new);
            self.selection.scroll_to = true;
        }
    }

    /// A cell is laid out: whether to scroll to it. That is so once for the selected preset in its
    /// section.
    pub fn scrolls_to(&mut self, preset: usize, section: &str) -> (r: bool)
        requires
            old(self)@.wf(),
        ensures
            r == (preset == old(self)@.selection.preset && old(self)@.selection.scroll_to && (section@
                == old(self)@.selection.section || old(self)@.selection.section.len() == 0)),
            final(self)@ == (SessionView {
                selection: SelectionView {
                    scroll_to: old(self)@.selection.scroll_to && !r,
                    ..old(self)@.selection
                },
                ..old(self)@
            }),
            final(self)@.wf(),
    {
        let r = preset == self.selection.preset && self.selection.scroll_to && (text_eq(
            section,
            self.selection.section.as_str(),
        ) || text_eq(self.selection.section.as_str(), ""));
        proof {
            reveal_strlit("");
            if self.selection.section@.len() == 0 {
                assert(self.selection.section@ =~= ""@);
            }
        }
        if r {
            self.selection.scroll_to = false;
        }
        r
    }
}

// ---------------------------------------------------------------------------------------------
// Recommendations
// ---------------------------------------------------------------------------------------------

/// Recommendations can be started: they are needed, none are under way, and there is a photo that is not
/// being cropped.
pub open spec fn can_recommend(s: SessionView) -> bool {
    s.dirty.recs && s.stage == Stage::Idle && !s.modes.cropping && s.photo is Some
}

impl Session {
    /// Starts (re)computing recommendations when needed; one job at a time. The result is whether to
    /// render every preset now.
    pub fn start_recommendations(&mut self) -> (r: bool)
        requires
            old(self)@.wf(),
        ensures
            r == can_recommend(old(self)@),
            final(self)@ == if r {
                (SessionView {
                    dirty: Dirty { recs: false, ..old(self)@.dirty },
                    stage: Stage::Rendering,
                    ..old(self)@
                })
            } else {
                old(self)@
            },
            final(self)@.wf(),
    {
        let idle = match self.stage {
            Stage::Idle => true,
            _ => false,
        };
        if !self.dirty.recs || !idle || self.modes.cropping || self.photo.is_none() {
            return false;
        }
        self.dirty.recs = false;
        self.stage = Stage::Rendering;
        true
    }

    /// The presets have been rendered: they are scored next.
    pub fn presets_rendered(&mut self)
        requires
            old(self)@.wf(),
            old(self)@.stage == Stage::Rendering,
        ensures
            final(self)@ == (SessionView { stage: Stage::Scoring, ..old(self)@ }),
            final(self)@.wf(),
    {
        self.stage = Stage::Scoring;
    }

    /// The recommendations have been computed.
    pub fn presets_scored(&mut self, recommended: Vec<usize>)
        requires
            old(self)@.wf(),
            old(self)@.stage == Stage::Scoring,
        ensures
            final(self)@ == (SessionView {
                stage: Stage::Idle,
                recommended: recommended@,
                ..old(self)@
            }),
            final(self)@.wf(),
    {
        self.recommended = recommended;
        self.stage = Stage::Idle;
    }

    /// Whether recommendations are under way, so that the window has to look for them.
    pub fn is_recommending(&self) -> (r: bool)
        ensures
            r == (self@.stage != Stage::Idle),
    {
        match self.stage {
            Stage::Idle => false,
            _ => true,
        }
    }
}

// ---------------------------------------------------------------------------------------------
// What single keys do
// ---------------------------------------------------------------------------------------------

/// No key is pressed.
pub open spec fn no_keys() -> Keys {
    Keys {
        export: false,
        copy: false,
        enter: false,
        escape: false,
        c: false,
        f: false,
        x: false,
        y: false,
        z: false,
        open_bracket: false,
        close_bracket: false,
        arrow: false,
    }
}

/// A photo is on screen, and nothing is open over it.
pub open spec fn is_viewing(s: SessionView) -> bool {
    s.is_loaded() && !s.modes.cropping && !s.modes.export_dialog && !s.modes.copying
}

/// The shortcuts of the window: exporting opens the dialog and does nothing else; copying copies; the brackets step to the
/// previous and the next photo, and the arrows move the selection; none of these changes how the photo is shown.
pub proof fn law_shortcuts_do_their_own(s: SessionView)
    requires
        is_viewing(s),
    ensures
        ({
            let (t, acts) = keys_pressed(s, Keys { export: true, ..no_keys() }, false);
            t.modes.export_dialog && acts.len() == 0 && s == (SessionView {
                modes: Modes { export_dialog: false, ..t.modes },
                ..t
            })
        }),
        keys_pressed(s, Keys { copy: true, ..no_keys() }, false) == (s, seq![Act::Copy]),
        keys_pressed(s, Keys { open_bracket: true, ..no_keys() }, false) == (s, seq![Act::Navigate { next: false }]),
        keys_pressed(s, Keys { close_bracket: true, ..no_keys() }, false) == (s, seq![Act::Navigate { next: true }]),
        keys_pressed(s, Keys { arrow: true, ..no_keys() }, false) == (s, seq![Act::MoveSelection]),
        keys_pressed(s, no_keys(), false) == (s, Seq::<Act>::empty()),
{
    reveal(tool_keys);
    reveal(zoom_keys);
    let none = Seq::<Act>::empty();
    assert(none + none =~= none);
    assert(none + seq![Act::Navigate { next: false }] =~= seq![Act::Navigate { next: false }]);
    assert(none + seq![Act::Navigate { next: true }] =~= seq![Act::Navigate { next: true }]);
    assert(none + seq![Act::MoveSelection] =~= seq![Act::MoveSelection]);
    assert(seq![Act::Navigate { next: false }] + none =~= seq![Act::Navigate { next: false }]);
    assert(seq![Act::Navigate { next: true }] + none =~= seq![Act::Navigate { next: true }]);
}

/// Zooming, comparing and the filmstrip are switches: pressing the key turns what it stands for on or off, and pressing it
/// again leaves the window as it was.
pub proof fn law_switches_switch_back(s: SessionView)
    requires
        is_viewing(s),
    ensures
        ({
            let keys = Keys { z: true, ..no_keys() };
            let t = keys_pressed(s, keys, false).0;
            t.modes.zoomed != s.modes.zoomed && keys_pressed(t, keys, false).0 == s
        }),
        ({
            let keys = Keys { y: true, ..no_keys() };
            let t = keys_pressed(s, keys, false).0;
            t.modes.side_by_side != s.modes.side_by_side && keys_pressed(t, keys, false).0 == s
        }),
        ({
            let keys = Keys { f: true, ..no_keys() };
            let t = keys_pressed(s, keys, false).0;
            &&& t.modes.show_filmstrip != s.modes.show_filmstrip
            &&& keys_pressed(t, keys, false).0.modes == s.modes
            &&& keys_pressed(s, keys, false).1.contains(Act::SaveFilmstrip { show: t.modes.show_filmstrip })
        }),
{
    reveal(tool_keys);
    reveal(zoom_keys);
    let keys = Keys { f: true, ..no_keys() };
    let acts = keys_pressed(s, keys, false).1;
    assert(acts[0] == Act::SaveFilmstrip { show: !s.modes.show_filmstrip });
}

/// The crop tool is left with the crop kept, or as it was before: the enter key keeps it, the escape key does not.
pub proof fn law_crop_is_kept_or_not(s: SessionView)
    requires
        s.modes.cropping,
        s.photo is Some,
        !s.modes.export_dialog,
    ensures
        ({
            let (t, acts) = keys_pressed(s, Keys { enter: true, ..no_keys() }, false);
            !t.modes.cropping && acts == seq![Act::FinishCrop { keep: true }]
        }),
        ({
            let (t, acts) = keys_pressed(s, Keys { escape: true, ..no_keys() }, false);
            !t.modes.cropping && acts == seq![Act::FinishCrop { keep: false }]
        }),
        ({
            let (t, acts) = keys_pressed(s, Keys { x: true, ..no_keys() }, false);
            t.modes.cropping && t.modes.crop_flip != s.modes.crop_flip && acts == seq![Act::ApplyRatio]
        }),
{
}

/// While a dialog or the palette is open, or a text is typed, no key does anything to the photo.
pub proof fn law_typing_does_nothing(s: SessionView, keys: Keys, blocked: bool)
    requires
        blocked || s.modes.export_dialog,
    ensures
        keys_pressed(s, keys, blocked).0 == s,
        keys_pressed(s, keys, blocked).1.len() == 0,
{
}

} // verus!
