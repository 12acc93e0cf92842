//! What the middle of the window shows, what holding the photo does, and the scripted runs that take a
//! screenshot or step through a folder.

use crate::session::{
    Dirty, Modes, Selection, SelectionView, Session, SessionView, Stage,
};
use vstd::prelude::*;

verus! {

/// What the middle of the window shows.
#[derive(Clone, Copy, PartialEq, Eq, Debug, Structural)]
pub enum Screen {
    /// The crop tool over the whole frame.
    Cropping,
    /// A part of the photo, to be dragged.
    Zoomed,
    /// The photo before and after.
    Compare,
    /// The photo, fitted to the window.
    Fitted,
    /// A hint that a photo can be opened.
    Empty,
}

/// What the middle of the window shows.
pub open spec fn screen_of(s: SessionView) -> Screen {
    if s.modes.cropping {
        Screen::Cropping
    } else if s.photo is None {
        Screen::Empty
    } else if s.modes.zoomed && s.zoom_available() {
        Screen::Zoomed
    } else if s.modes.side_by_side {
        Screen::Compare
    } else {
        Screen::Fitted
    }
}

/// The untouched photo is shown in place of the edited one: while the mouse button is held on it, except
/// at 100% where dragging pans, or while the key for it is held. Never in the comparison, which shows it
/// anyway.
pub open spec fn shows_original(s: SessionView, held: bool, key: bool) -> bool {
    !s.modes.side_by_side && ((held && !(s.modes.zoomed && s.zoom_available())) || key)
}

/// The hint over the photo.
pub open spec fn tip_of(s: SessionView) -> Seq<char> {
    if s.modes.zoomed && s.zoom_available() {
        "Drag to pan · pinch to zoom · double-click or Z for the whole photo · hold \\ to see the original"@
    } else {
        "Scroll to change the amount · hold the mouse button (or \\) to see the original · pinch, double-click or Z to zoom"@
    }
}

/// The answer to a command that needs a photo and runs once at a time.
#[derive(Clone, Copy, PartialEq, Eq, Debug, Structural)]
pub enum Answer {
    /// There is no photo, or it is still loading.
    NotReady,
    /// The command is under way already.
    Busy,
    Go,
}

impl Session {
    /// What the middle of the window shows.
    pub fn screen(&self) -> (r: Screen)
        ensures
            r == screen_of(self@),
    {
        if self.modes.cropping {
            Screen::Cropping
        } else if self.photo.is_none() {
            Screen::Empty
        } else if self.modes.zoomed && self.zoom_available() {
            Screen::Zoomed
        } else if self.modes.side_by_side {
            Screen::Compare
        } else {
            Screen::Fitted
        }
    }

    /// The zoomed views are let go: e.g. the next photo is still showing its quick preview, which is shown
    /// fitted meanwhile.
    pub fn zoom_is_off(&self) -> (r: bool)
        ensures
            r == (self@.modes.zoomed && !self@.zoom_available()),
    {
        self.modes.zoomed && !self.zoom_available()
    }

    /// The mouse button is held on the photo (`held`), or the key that shows the untouched photo (`key`).
    pub fn hold(&mut self, held: bool, key: bool)
        requires
            old(self)@.wf(),
        ensures
            final(self)@ == (SessionView {
                modes: Modes {
                    show_original: shows_original(old(self)@, held, key),
                    ..old(self)@.modes
                },
                dirty: Dirty {
                    preview: old(self)@.dirty.preview || shows_original(old(self)@, held, key) != old(
                        self,
                    )@.modes.show_original,
                    ..old(self)@.dirty
                },
                ..old(self)@
            }),
            final(self)@.wf(),
    {
        let zoomed = self.modes.zoomed && self.zoom_available();
        let original = !self.modes.side_by_side && ((held && !zoomed) || key);
        if original != self.modes.show_original {
            self.modes.show_original = original;
            self.dirty.preview = true;
        }
    }

    /// The hint over the photo.
    pub fn tip(&self) -> (r: &'static str)
        ensures
            r@ == tip_of(self@),
    {
        if self.modes.zoomed && self.zoom_available() {
            "Drag to pan · pinch to zoom · double-click or Z for the whole photo · hold \\ to see the original"
        } else {
            "Scroll to change the amount · hold the mouse button (or \\) to see the original · pinch, double-click or Z to zoom"
        }
    }

    /// Whether the photo can be copied now.
    pub fn ask_copy(&self) -> (r: Answer)
        ensures
            r == if !self@.is_loaded() {
                Answer::NotReady
            } else if self@.modes.copying {
                Answer::Busy
            } else {
                Answer::Go
            },
    {
        if !self.is_loaded() {
            Answer::NotReady
        } else if self.modes.copying {
            Answer::Busy
        } else {
            Answer::Go
        }
    }

    /// Whether the photo can be exported now.
    pub fn ask_export(&self) -> (r: Answer)
        ensures
            r == if !self@.is_loaded() {
                Answer::NotReady
            } else if self@.modes.exporting {
                Answer::Busy
            } else {
                Answer::Go
            },
    {
        if !self.is_loaded() {
            Answer::NotReady
        } else if self.modes.exporting {
            Answer::Busy
        } else {
            Answer::Go
        }
    }
}

/// Comparing and holding do not mix: the untouched photo never takes the place of the edited one in the
/// comparison.
pub proof fn law_comparison_shows_the_edit(s: SessionView, held: bool, key: bool)
    requires
        screen_of(s) == Screen::Compare,
    ensures
        !shows_original(s, held, key),
{
}

// ---------------------------------------------------------------------------------------------
// Scripted runs
// ---------------------------------------------------------------------------------------------

/// Frames to wait for thumbnails to render before the window is captured.
pub const CAPTURE_FRAME: u32 = 12;

/// What a scripted screenshot does in a frame.
#[derive(Clone, Copy, PartialEq, Eq, Debug, Structural)]
pub enum Shot {
    /// Nothing yet.
    Wait,
    /// The best recommendation is selected; the views that were asked for are opened.
    Prepare,
    /// The window is captured.
    Capture,
}

/// What there is to capture: the full image is loaded and its recommendations settled (not the quick
/// preview's), and so are the thumbnails of the filmstrip, once it is shown (from the first frame on).
pub open spec fn is_settled(s: SessionView, frames: u32, filmstrip_loading: bool) -> bool {
    &&& s.is_loaded()
    &&& s.recommended.len() > 0
    &&& !s.dirty.recs
    &&& s.stage == Stage::Idle
    &&& !(frames > 0 && s.modes.show_filmstrip && filmstrip_loading)
}

/// The state in which the window is captured.
pub open spec fn prepared(s: SessionView, compare: bool, filmstrip: bool) -> SessionView {
    SessionView {
        selection: SelectionView {
            preset: s.recommended[0],
            section: "recommended"@,
            ..s.selection
        },
        dirty: Dirty { preview: true, ..s.dirty },
        modes: Modes { side_by_side: compare, show_filmstrip: filmstrip, ..s.modes },
        ..s
    }
}

/// What a scripted run through the folder does.
#[derive(Clone, Copy, PartialEq, Eq, Debug, Structural)]
pub enum Tour {
    Wait,
    Next,
    Quit,
}

impl Session {
    fn is_ready(&self, frames: u32, filmstrip_loading: bool) -> (r: bool)
        ensures
            r == is_settled(self@, frames, filmstrip_loading),
    {
        let idle = match self.stage {
            Stage::Idle => true,
            _ => false,
        };
        self.is_loaded() && self.recommended.len() > 0 && !self.dirty.recs && idle && !(frames > 0
            && self.modes.show_filmstrip && filmstrip_loading)
    }

    /// A frame of a scripted screenshot, `frames` frames after all was there. The result is that number
    /// for the next frame, and what happens in this one.
    pub fn drive_screenshot(
        &mut self,
        frames: u32,
        filmstrip_loading: bool,
        compare: bool,
        filmstrip: bool,
    ) -> (r: (u32, Shot))
        requires
            old(self)@.wf(),
            frames < u32::MAX,
        ensures
            !is_settled(old(self)@, frames, filmstrip_loading) ==> r == (frames, Shot::Wait),
            is_settled(old(self)@, frames, filmstrip_loading) ==> r.0 == frames + 1 && r.1 == if r.0
                == 1 {
                Shot::Prepare
            } else if r.0 == CAPTURE_FRAME {
                Shot::Capture
            } else {
                Shot::Wait
            },
            final(self)@ == if r.1 == Shot::Prepare {
                prepared(old(self)@, compare, filmstrip)
            } else {
                old(self)@
            },
            final(self)@.wf(),
    {
        if !self.is_ready(frames, filmstrip_loading) {
            return (frames, Shot::Wait);
        }
        let now: u32 = frames + 1;
        if now == 1 {
            let preset: usize = self.recommended[0];
            let scroll_to = self.selection.scroll_to;
            self.selection = Selection { preset, section: "recommended".to_owned(), scroll_to };
            self.dirty.preview = true;
            self.modes.side_by_side = compare;
            self.modes.show_filmstrip = filmstrip;
            (now, Shot::Prepare)
        } else if now == CAPTURE_FRAME {
            (now, Shot::Capture)
        } else {
            (now, Shot::Wait)
        }
    }

    /// A frame of a scripted run through the folder: where it is time for the next photo (`due`) and this
    /// one is loaded, it steps on, or ends behind the last (`at_end`).
    pub fn drive_tour(&self, due: bool, at_end: bool) -> (r: Tour)
        ensures
            r == if due && self@.is_loaded() {
                if at_end {
                    Tour::Quit
                } else {
                    Tour::Next
                }
            } else {
                Tour::Wait
            },
    {
        if due && self.is_loaded() {
            if at_end {
                Tour::Quit
            } else {
                Tour::Next
            }
        } else {
            Tour::Wait
        }
    }
}

/// The window shows the crop tool while it is open, else nothing without a photo, else the photo; at full size only where
/// it is zoomed, and beside the original only where it is compared.
pub proof fn law_screen_follows_the_modes(s: SessionView)
    ensures
        screen_of(s) == Screen::Cropping <==> s.modes.cropping,
        screen_of(s) == Screen::Empty <==> s.photo is None && !s.modes.cropping,
        screen_of(s) == Screen::Zoomed ==> s.modes.zoomed && s.is_loaded(),
        s.modes.zoomed && s.is_loaded() && !s.modes.cropping ==> screen_of(s) == Screen::Zoomed,
        screen_of(s) == Screen::Compare ==> s.modes.side_by_side && !s.modes.cropping,
        screen_of(s) == Screen::Fitted ==> !s.modes.side_by_side && s.photo is Some,
{
}

/// The key for the original shows it wherever the photo is not compared; the mouse does so only where it does not pan.
pub proof fn law_original_is_shown_while_held(s: SessionView)
    ensures
        !s.modes.side_by_side ==> shows_original(s, false, true),
        !shows_original(s, false, false),
        !s.modes.side_by_side && !s.modes.zoomed ==> shows_original(s, true, false),
        s.modes.side_by_side ==> !shows_original(s, true, true),
        s.modes.zoomed && s.zoom_available() ==> !shows_original(s, true, false),
{
}

} // verus!
