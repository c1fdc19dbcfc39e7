//! The decisions of animated playback: which frame comes next, how many
//! passes are left, and how long to wait so that frames keep their declared
//! delays without drift. The caller performs the waiting and the output.
use vstd::prelude::*;
use crate::color::Color;
use crate::pixel::{Frame, Rgba, transparent_black};
use crate::compose::{overlay, overlaid_of, canvas_extent, extent};
use crate::canvas_size::CanvasSize;
use crate::size::cap;
use crate::style::Style;

verus! {

/// The pixel a background colour fills with.
pub open spec fn background_pixel(color: Color) -> Rgba {
    match color {
        Color::Transparent => transparent_black(),
        Color::Solid(rgb) => rgb.spec_to_rgba(),
    }
}

/// Fills the whole image with the background colour.
pub fn fill_color(image: &mut Frame, color: Color)
    requires
        old(image).wf(),
    ensures
        final(image).wf(),
        final(image).width == old(image).width,
        final(image).height == old(image).height,
        final(image).all(background_pixel(color)),
{
    match color {
        Color::Transparent => image.fill(Rgba::transparent()),
        Color::Solid(rgb) => image.fill(rgb.to_rgba()),
    }
}

/// Playback state: the frame count, the next frame of the current pass, the
/// passes left (`None`: forever), the deadline of the last frame shown, and
/// whether playback was cancelled.
pub struct Player {
    pub frame_count: usize,
    pub next_index: usize,
    pub loops_left: Option<i64>,
    pub timestamp: u64,
    pub cancelled: bool,
}

/// The state after one frame of `delay` was shown at time `now`, and the
/// time to sleep before the next one. The deadline advances by exactly the
/// delay, whatever the clock says; the sleep is what is left of the delay
/// after the time already spent since the previous deadline.
pub open spec fn shown_step(s: Player, t: Player, now: u64, delay: u64, sleep: u64) -> bool {
    let elapsed: int = if now >= s.timestamp { now - s.timestamp } else { 0 };
    &&& t == Player { timestamp: (s.timestamp + delay) as u64, ..s }
    &&& sleep == (if delay > elapsed { delay - elapsed } else { 0 })
}

pub open spec fn sum(ds: Seq<u64>) -> nat
    decreases ds.len(),
{
    if ds.len() == 0 { 0 } else { sum(ds.drop_last()) + ds.last() as nat }
}

impl Player {
    pub open spec fn wf(self) -> bool {
        &&& self.next_index <= self.frame_count
        &&& self.loops_left matches Some(l) ==> (l >= 0 && (self.next_index > 0 ==> l >= 1))
    }

    /// Playback of `frame_count` frames, `loop_count` times (negative: forever),
    /// starting at time `start`.
    pub fn new(frame_count: usize, loop_count: i64, start: u64) -> (r: Player)
        ensures
            r.wf(),
            r == (Player {
                frame_count,
                next_index: 0,
                loops_left: if loop_count < 0 { None } else { Some(loop_count) },
                timestamp: start,
                cancelled: false,
            }),
    {
        Player {
            frame_count,
            next_index: 0,
            loops_left: if loop_count < 0 { None } else { Some(loop_count) },
            timestamp: start,
            cancelled: false,
        }
    }

    /// The index of the frame to show next, or `None` when playback is over.
    /// A pass that ended uses up one of the passes left.
    pub fn next_frame(&mut self) -> (r: Option<usize>)
        requires
            old(self).wf(),
        ensures
            final(self).wf(),
            ({
                let s = *old(self);
                let wrapped = s.next_index == s.frame_count && s.frame_count > 0 && !s.cancelled;
                let left = if wrapped {
                    match s.loops_left {
                        Some(l) => Some((l - 1) as i64),
                        None => None,
                    }
                } else {
                    s.loops_left
                };
                let index: usize = if wrapped { 0 } else { s.next_index };
                if s.cancelled || s.frame_count == 0 {
                    r is None && *final(self) == s
                } else if left matches Some(l) && l <= 0 {
                    r is None && *final(self) == (Player { next_index: index, loops_left: left, ..s })
                } else {
                    r == Some(index) && *final(self) == (Player {
                        next_index: (index + 1) as usize,
                        loops_left: left,
                        ..s
                    })
                }
            }),
    {
        if self.cancelled || self.frame_count == 0 {
            return None;
        }
        if self.next_index == self.frame_count {
            self.next_index = 0;
            if let Some(l) = self.loops_left {
                self.loops_left = Some(l - 1);
            }
        }
        if let Some(l) = self.loops_left {
            if l <= 0 {
                return None;
            }
        }
        let index = self.next_index;
        self.next_index = index + 1;
        Some(index)
    }

    /// Records that a frame of `delay` was shown at time `now`; returns how
    /// long to sleep before the next frame.
    pub fn frame_shown(&mut self, now: u64, delay: u64) -> (sleep: u64)
        requires
            old(self).timestamp + delay <= u64::MAX,
        ensures
            shown_step(*old(self), *final(self), now, delay, sleep),
            final(self).wf() == old(self).wf(),
    {
        let elapsed: u64 = if now >= self.timestamp { now - self.timestamp } else { 0 };
        self.timestamp = self.timestamp + delay;
        if delay > elapsed { delay - elapsed } else { 0 }
    }

    /// Stops playback: no further frame is handed out.
    pub fn cancel(&mut self)
        ensures
            *final(self) == (Player { cancelled: true, ..*old(self) }),
    {
        self.cancelled = true;
    }
}

/// Deadlines do not drift: over frames with delays `ds`, shown at any times
/// `nows`, the deadline reached is the start plus the sum of the delays.
pub proof fn lemma_deadlines_add_up(states: Seq<Player>, nows: Seq<u64>, ds: Seq<u64>, sleeps: Seq<u64>)
    requires
        states.len() == ds.len() + 1,
        nows.len() == ds.len(),
        sleeps.len() == ds.len(),
        forall|k: int| 0 <= k < ds.len() ==> #[trigger] shown_step(states[k], states[k + 1], nows[k], ds[k], sleeps[k]),
        states[0].timestamp + sum(ds) <= u64::MAX,
    ensures
        states.last().timestamp == states[0].timestamp + sum(ds),
    decreases ds.len(),
{
    if ds.len() > 0 {
        let n = ds.len() - 1;
        assert(sum(ds.drop_last()) <= sum(ds));
        lemma_deadlines_add_up(states.drop_last(), nows.drop_last(), ds.drop_last(), sleeps.drop_last());
        assert(shown_step(states[n], states[n + 1], nows[n], ds[n], sleeps[n]));
        assert(states.drop_last().last() == states[n]);
    }
}

/// Lays the next animation frame, whose top left corner is at (`left`, `top`),
/// onto the full-size `canvas`. On a solid background the canvas is filled
/// and the frame blended over it. On a transparent background the canvas is
/// cleared unless the frame covers it exactly, and the frame's pixels are
/// copied in; this fails, changing nothing more, when the frame does not fit.
pub fn compose_frame(canvas: &mut Frame, frame: &Frame, left: u32, top: u32, background: Color) -> (r: bool)
    requires
        old(canvas).wf(),
        frame.wf(),
    ensures
        final(canvas).wf(),
        final(canvas).width == old(canvas).width,
        final(canvas).height == old(canvas).height,
        background is Solid ==> r && final(canvas).pixels@ == overlaid_of(
            old(canvas).width as nat,
            old(canvas).height as nat,
            Seq::new(old(canvas).pixels@.len(), |i: int| background_pixel(background)),
            frame.width as nat,
            frame.height as nat,
            frame.pixels@,
            left as int,
            top as int,
        ),
        background is Transparent ==> ({
            let cleared = frame.width != old(canvas).width || frame.height != old(canvas).height
                || left != 0 || top != 0;
            &&& r == old(canvas).holds_at(frame, left as nat, top as nat)
            &&& r ==> forall|px: int, py: int|
                0 <= px < old(canvas).width && 0 <= py < old(canvas).height ==> #[trigger] final(canvas).at(px, py) == (if left <= px < left + frame.width && top <= py < top
                    + frame.height {
                    frame.at(px - left, py - top)
                } else if cleared {
                    transparent_black()
                } else {
                    old(canvas).at(px, py)
                })
        }),
{
    match background {
        Color::Solid(rgb) => {
            canvas.fill(rgb.to_rgba());
            assert(canvas.pixels@ =~= Seq::new(canvas.pixels@.len(), |i: int| background_pixel(background)));
            overlay(canvas, frame, left as i64, top as i64);
            true
        },
        Color::Transparent => {
            let ghost before = *canvas;
            if frame.width != canvas.width || frame.height != canvas.height || left != 0 || top != 0 {
                canvas.fill(Rgba::transparent());
            }
            let ghost cleared = *canvas;
            let r = canvas.copy_from(frame, left, top);
            proof {
                if r {
                    assert forall|px: int, py: int|
                        0 <= px < before.width && 0 <= py < before.height implies #[trigger] canvas.at(
                            px,
                            py,
                        ) == (if left <= px < left + frame.width && top <= py < top + frame.height {
                            frame.at(px - left, py - top)
                        } else if frame.width != before.width || frame.height != before.height
                            || left != 0 || top != 0 {
                            transparent_black()
                        } else {
                            before.at(px, py)
                        }) by {
                        crate::pixel::lemma_index_in_grid(px, py, before.width as int, before.height as int);
                    }
                }
            }
            r
        },
    }
}

/// Whether a canvas of `canvas_width` columns reaches the terminal's right
/// edge, where the cursor stays on the last column after a glyph. Without a
/// known terminal width it is assumed to.
pub fn reaches_right_edge(canvas_width: u32, terminal_width: Option<usize>) -> (r: bool)
    ensures
        r == (match terminal_width {
            Some(t) => canvas_width as nat >= t,
            None => true,
        }),
{
    match terminal_width {
        Some(t) => canvas_width as usize >= t,
        None => true,
    }
}

/// The canvas for a terminal of `cols` x `rows` character cells: a pixel
/// column per cell and two pixel rows per cell, capped at the largest `u32`.
pub open spec fn window_size(terminal: Option<(usize, usize)>) -> Option<(nat, nat)> {
    match terminal {
        Some((cols, rows)) => Some((cap(cols as nat), cap(2 * rows as nat))),
        None => None,
    }
}

/// The size of the canvas that frames are composed onto, or `None` when each
/// frame is encoded at its own size: a fixed size (rows counted in character
/// cells), the terminal window when its size is known, or, sized after the
/// image, the extent of a position or the image itself on a solid background.
pub open spec fn planned_canvas(
    canvas: CanvasSize,
    style: Style,
    background: Color,
    image_width: u32,
    image_height: u32,
    terminal: Option<(usize, usize)>,
) -> Option<(nat, nat)> {
    match canvas {
        CanvasSize::Exact(w, rows) => Some((w as nat, cap(2 * rows as nat))),
        CanvasSize::Window => window_size(terminal),
        CanvasSize::Image => match style {
            Style::Position(_, _, _) => Some(extent(style, image_width, image_height)),
            _ => match background {
                Color::Solid(_) => Some((image_width as nat, image_height as nat)),
                Color::Transparent => None,
            },
        },
    }
}

pub open spec fn as_nat_pair(r: Option<(u32, u32)>) -> Option<(nat, nat)> {
    match r {
        Some((w, h)) => Some((w as nat, h as nat)),
        None => None,
    }
}

fn cap_usize(v: usize) -> (r: u32)
    ensures
        r as nat == cap(v as nat),
{
    if v as u64 > 0xffff_ffff { 0xffff_ffff } else { v as u32 }
}

fn double_rows(rows: u64) -> (r: u32)
    ensures
        r as nat == cap(2 * rows as nat),
{
    if rows > 0x7fff_ffff { 0xffff_ffff } else { (rows * 2) as u32 }
}

/// The canvas for the terminal window, when its size is known.
pub fn window_canvas(terminal: Option<(usize, usize)>) -> (r: Option<(u32, u32)>)
    ensures
        as_nat_pair(r) == window_size(terminal),
{
    match terminal {
        Some((cols, rows)) => Some((cap_usize(cols), double_rows(rows as u64))),
        None => None,
    }
}

/// The size of the canvas that frames are composed onto, if any.
pub fn canvas_plan(
    canvas: CanvasSize,
    style: Style,
    background: Color,
    image_width: u32,
    image_height: u32,
    terminal: Option<(usize, usize)>,
) -> (r: Option<(u32, u32)>)
    ensures
        as_nat_pair(r) == planned_canvas(canvas, style, background, image_width, image_height, terminal),
{
    match canvas {
        CanvasSize::Exact(w, rows) => Some((w, double_rows(rows as u64))),
        CanvasSize::Window => window_canvas(terminal),
        CanvasSize::Image => match style {
            Style::Position(_, _, _) => Some(canvas_extent(style, image_width, image_height)),
            _ => match background {
                Color::Solid(_) => Some((image_width, image_height)),
                Color::Transparent => None,
            },
        },
    }
}

/// What preparing the window canvas did.
#[derive(Debug, Clone, Copy, PartialEq, Eq, Structural)]
pub enum WindowUpdate {
    /// Same size: the canvas was filled with the background.
    Kept,
    /// The terminal's size changed: both canvases were made anew.
    Resized,
    /// The new size cannot be held in memory: nothing changed.
    TooLarge,
}

/// Prepares the window canvas for the next frame. When the terminal's size
/// is known and differs from the canvas, the canvas is made anew at that size
/// filled with the background, and the previous frame anew as transparent,
/// so that the next encoding paints every cell (the caller clears the
/// screen). Otherwise the canvas is filled with the background.
pub fn refresh_window_canvas(
    canvas: &mut Frame,
    prev: &mut Frame,
    terminal: Option<(usize, usize)>,
    background: Color,
) -> (r: WindowUpdate)
    requires
        old(canvas).wf(),
        old(prev).wf(),
    ensures
        final(canvas).wf(),
        final(prev).wf(),
        ({
            let size = window_size(terminal);
            let (w, h): (nat, nat) = match size {
                Some(d) => d,
                None => (old(canvas).width as nat, old(canvas).height as nat),
            };
            let same = w == old(canvas).width && h == old(canvas).height;
            if same {
                &&& r == WindowUpdate::Kept
                &&& final(canvas).width == old(canvas).width
                &&& final(canvas).height == old(canvas).height
                &&& final(canvas).all(background_pixel(background))
                &&& *final(prev) == *old(prev)
            } else if w * h * 4 <= usize::MAX {
                &&& r == WindowUpdate::Resized
                &&& final(canvas).width == w
                &&& final(canvas).height == h
                &&& final(canvas).all(background_pixel(background))
                &&& final(prev).width == w
                &&& final(prev).height == h
                &&& final(prev).all(transparent_black())
            } else {
                &&& r == WindowUpdate::TooLarge
                &&& *final(canvas) == *old(canvas)
                &&& *final(prev) == *old(prev)
            }
        }),
{
    let size = window_canvas(terminal);
    let (w, h) = match size {
        Some(d) => d,
        None => (canvas.width, canvas.height),
    };
    if w == canvas.width && h == canvas.height {
        fill_color(canvas, background);
        return WindowUpdate::Kept;
    }
    proof {
        crate::pixel::lemma_u32_product(w, h);
    }
    if (w as u64) * (h as u64) > (usize::MAX / 4) as u64 {
        return WindowUpdate::TooLarge;
    }
    let mut fresh = Frame::new(w, h);
    fill_color(&mut fresh, background);
    let blank = Frame::new(w, h);
    *canvas = fresh;
    *prev = blank;
    WindowUpdate::Resized
}

} // verus!
