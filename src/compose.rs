//! Composition: where a style places the source on the canvas, and the
//! drawing itself, which resamples and blends through the `image` crate.
use vstd::prelude::*;
use crate::pixel::{Frame, Rgba};
use crate::filter::FilterType;
use crate::size::{Size, cap};
use crate::style::Style;
use image::imageops;
use image::imageops::FilterType as Kind;
use image::RgbaImage;

verus! {

/// The pixels that `image::imageops::resize` makes of a `width` x `height`
/// image when asked for `new_width` x `new_height` with `filter`.
pub uninterp spec fn resized_of(
    width: nat,
    height: nat,
    pixels: Seq<Rgba>,
    new_width: nat,
    new_height: nat,
    filter: FilterType,
) -> Seq<Rgba>;

/// The pixels that `image::imageops::overlay` leaves in a `width` x `height`
/// image after blending the `top_width` x `top_height` image `top` onto it
/// with its top left corner at (`x`, `y`).
pub uninterp spec fn overlaid_of(
    width: nat,
    height: nat,
    pixels: Seq<Rgba>,
    top_width: nat,
    top_height: nat,
    top: Seq<Rgba>,
    x: int,
    y: int,
) -> Seq<Rgba>;

/// Relies on `image::imageops::resize`: it returns an image of exactly the
/// requested size, resampled from `src` with the given filter, and a copy of
/// `src` when the size is unchanged.
#[verifier::external_body]
fn resize(src: &Frame, new_width: u32, new_height: u32, filter: FilterType) -> (r: Frame)
    requires
        src.wf(),
        new_width as nat * new_height as nat * 4 <= usize::MAX,
    ensures
        r.wf(),
        r.width == new_width,
        r.height == new_height,
        r.pixels@ == resized_of(
            src.width as nat,
            src.height as nat,
            src.pixels@,
            new_width as nat,
            new_height as nat,
            filter,
        ),
        new_width == src.width && new_height == src.height ==> r.pixels@ == src.pixels@,
{
    let raw: Vec<u8> = src.pixels.iter().flat_map(|p| [p.r, p.g, p.b, p.a]).collect();
    let img = RgbaImage::from_raw(src.width, src.height, raw).unwrap();
    let kind = match filter {
        FilterType::Nearest => Kind::Nearest,
        FilterType::Triangle => Kind::Triangle,
        FilterType::CatmullRom => Kind::CatmullRom,
        FilterType::Gaussian => Kind::Gaussian,
        FilterType::Lanczos3 => Kind::Lanczos3,
    };
    let out = imageops::resize(&img, new_width, new_height, kind);
    let pixels = out.pixels().map(|p| Rgba { r: p[0], g: p[1], b: p[2], a: p[3] }).collect();
    Frame { width: new_width, height: new_height, pixels }
}

/// Relies on `image::imageops::overlay`: it blends `top` onto `bottom` with
/// the corner at (`x`, `y`), clipped to `bottom`, whose size it keeps.
#[verifier::external_body]
pub(crate) fn overlay(bottom: &mut Frame, top: &Frame, x: i64, y: i64)
    requires
        old(bottom).wf(),
        top.wf(),
    ensures
        final(bottom).wf(),
        final(bottom).width == old(bottom).width,
        final(bottom).height == old(bottom).height,
        final(bottom).pixels@ == overlaid_of(
            old(bottom).width as nat,
            old(bottom).height as nat,
            old(bottom).pixels@,
            top.width as nat,
            top.height as nat,
            top.pixels@,
            x as int,
            y as int,
        ),
{
    let raw: Vec<u8> = bottom.pixels.iter().flat_map(|p| [p.r, p.g, p.b, p.a]).collect();
    let mut img = RgbaImage::from_raw(bottom.width, bottom.height, raw).unwrap();
    let raw_top: Vec<u8> = top.pixels.iter().flat_map(|p| [p.r, p.g, p.b, p.a]).collect();
    let top_img = RgbaImage::from_raw(top.width, top.height, raw_top).unwrap();
    imageops::overlay(&mut img, &top_img, x, y);
    bottom.pixels = img.pixels().map(|p| Rgba { r: p[0], g: p[1], b: p[2], a: p[3] }).collect();
}

/// The source, drawn at `width` x `height` with its top left corner at (`x`, `y`).
#[derive(Debug, Clone, Copy, PartialEq, Eq, Structural)]
pub struct Placement {
    pub width: u32,
    pub height: u32,
    pub x: i64,
    pub y: i64,
}

/// Half of `v`, rounded toward zero.
pub open spec fn half(v: int) -> int {
    if v >= 0 { v / 2 } else { -((-v) / 2) }
}

fn half_exec(v: i64) -> (r: i64)
    ensures
        r == half(v as int),
{
    if v >= 0 { v / 2 } else { -((-(v as i128)) / 2) as i64 }
}

pub open spec fn place(width: nat, height: nat, x: int, y: int) -> Placement {
    Placement { width: width as u32, height: height as u32, x: x as i64, y: y as i64 }
}

/// The source at its own size, centred on the canvas.
pub open spec fn centered(iw: nat, ih: nat, cw: nat, ch: nat) -> Seq<Placement> {
    seq![place(iw, ih, half(cw - iw), half(ch - ih))]
}

/// The source scaled to fit the canvas keeping its aspect, centred: the
/// smaller fit (`contain`) or the larger one that covers the canvas.
pub open spec fn fitted(iw: nat, ih: nat, cw: nat, ch: nat, cover: bool) -> Seq<Placement> {
    if iw == cw && ih == ch {
        seq![place(iw, ih, 0, 0)]
    } else if iw == 0 || ih == 0 {
        Seq::empty()
    } else {
        let hq = ih * cw / iw;
        if (cover && hq < ch) || (!cover && hq > ch) {
            let w = cap(iw * ch / ih);
            seq![place(w, ch, half(cw - w), 0)]
        } else {
            let h = cap(hq);
            seq![place(cw, h, 0, half(ch - h))]
        }
    }
}

/// Copies of the source along the row at `y`, from column `x` on.
pub open spec fn tile_row(iw: nat, ih: nat, cw: nat, y: nat, x: nat) -> Seq<Placement>
    decreases (if x < cw { cw - x } else { 0 }),
{
    if iw == 0 || x >= cw {
        Seq::empty()
    } else {
        seq![place(iw, ih, x as int, y as int)] + tile_row(iw, ih, cw, y, x + iw)
    }
}

/// Copies of the source over the rows from `y` down.
pub open spec fn tile_rows(iw: nat, ih: nat, cw: nat, ch: nat, y: nat) -> Seq<Placement>
    decreases (if y < ch { ch - y } else { 0 }),
{
    if ih == 0 || y >= ch {
        Seq::empty()
    } else {
        tile_row(iw, ih, cw, y, 0) + tile_rows(iw, ih, cw, ch, y + ih)
    }
}

impl Style {
    /// Where the style draws a `iw` x `ih` source on a `cw` x `ch` canvas, in order.
    pub open spec fn placements(self, iw: nat, ih: nat, cw: nat, ch: nat) -> Seq<Placement> {
        match self {
            Style::Center => centered(iw, ih, cw, ch),
            Style::Tile => tile_rows(iw, ih, cw, ch, 0),
            Style::Position(px, py, size) => if size.resolvable(iw as u32, ih as u32) {
                let (w, h) = size.resolved(iw as u32, ih as u32);
                let x = match px {
                    Some(v) => v as int,
                    None => half(cw - w),
                };
                let y = match py {
                    Some(v) => v as int,
                    None => half(ch - h),
                };
                if w > 0 && h > 0 {
                    seq![place(w, h, x, y)]
                } else {
                    Seq::empty()
                }
            } else {
                Seq::empty()
            },
            Style::Cover => fitted(iw, ih, cw, ch, true),
            Style::Contain => fitted(iw, ih, cw, ch, false),
            Style::ShrinkToFit => if iw <= cw && ih <= ch {
                centered(iw, ih, cw, ch)
            } else {
                fitted(iw, ih, cw, ch, false)
            },
        }
    }
}

/// Only a placement whose pixels can be addressed is resampled.
pub open spec fn fits(p: Placement) -> bool {
    p.width as nat * p.height as nat * 4 <= usize::MAX
}

/// The canvas pixels after drawing `image` at placement `p`. The source is
/// resampled when the placement's size differs from its own; a placement too
/// large to hold in memory draws nothing.
pub open spec fn draw_one(cw: nat, ch: nat, pix: Seq<Rgba>, image: Frame, p: Placement, filter: FilterType) -> Seq<Rgba> {
    if p.width == image.width && p.height == image.height {
        overlaid_of(cw, ch, pix, image.width as nat, image.height as nat, image.pixels@, p.x as int, p.y as int)
    } else if fits(p) {
        overlaid_of(
            cw,
            ch,
            pix,
            p.width as nat,
            p.height as nat,
            resized_of(
                image.width as nat,
                image.height as nat,
                image.pixels@,
                p.width as nat,
                p.height as nat,
                filter,
            ),
            p.x as int,
            p.y as int,
        )
    } else {
        pix
    }
}

/// The canvas pixels after drawing `image` at each placement of `ps` in turn.
pub open spec fn draw_all(cw: nat, ch: nat, pix: Seq<Rgba>, image: Frame, ps: Seq<Placement>, filter: FilterType) -> Seq<Rgba>
    decreases ps.len(),
{
    if ps.len() == 0 {
        pix
    } else {
        draw_all(cw, ch, draw_one(cw, ch, pix, image, ps[0], filter), image, ps.drop_first(), filter)
    }
}

fn centered_layout(iw: u32, ih: u32, cw: u32, ch: u32) -> (r: Vec<Placement>)
    ensures
        r@ == centered(iw as nat, ih as nat, cw as nat, ch as nat),
{
    let x = half_exec(cw as i64 - iw as i64);
    let y = half_exec(ch as i64 - ih as i64);
    let r = vec![Placement { width: iw, height: ih, x, y }];
    assert(r@ =~= centered(iw as nat, ih as nat, cw as nat, ch as nat));
    r
}

fn fitted_layout(iw: u32, ih: u32, cw: u32, ch: u32, cover: bool) -> (r: Vec<Placement>)
    ensures
        r@ == fitted(iw as nat, ih as nat, cw as nat, ch as nat, cover),
{
    if iw == cw && ih == ch {
        let r = vec![Placement { width: iw, height: ih, x: 0, y: 0 }];
        assert(r@ =~= fitted(iw as nat, ih as nat, cw as nat, ch as nat, cover));
        return r;
    }
    if iw == 0 || ih == 0 {
        let r: Vec<Placement> = Vec::new();
        assert(r@ =~= fitted(iw as nat, ih as nat, cw as nat, ch as nat, cover));
        return r;
    }
    proof {
        crate::pixel::lemma_u32_product(ih, cw);
        crate::pixel::lemma_u32_product(iw, ch);
    }
    let h64: u64 = (ih as u64) * (cw as u64) / (iw as u64);
    let r;
    if (cover && h64 < ch as u64) || (!cover && h64 > ch as u64) {
        let w64: u64 = (iw as u64) * (ch as u64) / (ih as u64);
        let w: u32 = if w64 > 0xffff_ffff { 0xffff_ffff } else { w64 as u32 };
        let x = half_exec(cw as i64 - w as i64);
        r = vec![Placement { width: w, height: ch, x, y: 0 }];
    } else {
        let h: u32 = if h64 > 0xffff_ffff { 0xffff_ffff } else { h64 as u32 };
        let y = half_exec(ch as i64 - h as i64);
        r = vec![Placement { width: cw, height: h, x: 0, y }];
    }
    assert(r@ =~= fitted(iw as nat, ih as nat, cw as nat, ch as nat, cover));
    r
}

proof fn lemma_tile_rows_without_width(ih: nat, cw: nat, ch: nat, y: nat)
    ensures
        tile_rows(0, ih, cw, ch, y) == Seq::<Placement>::empty(),
    decreases (if y < ch { ch - y } else { 0 }),
{
    if ih > 0 && y < ch {
        lemma_tile_rows_without_width(ih, cw, ch, y + ih);
        assert(tile_rows(0, ih, cw, ch, y) =~= Seq::<Placement>::empty());
    }
}

fn tile_layout(iw: u32, ih: u32, cw: u32, ch: u32) -> (r: Vec<Placement>)
    ensures
        r@ == tile_rows(iw as nat, ih as nat, cw as nat, ch as nat, 0),
{
    let mut v: Vec<Placement> = Vec::new();
    if iw == 0 || ih == 0 {
        proof {
            if iw == 0 {
                lemma_tile_rows_without_width(ih as nat, cw as nat, ch as nat, 0);
            }
        }
        assert(v@ =~= tile_rows(iw as nat, ih as nat, cw as nat, ch as nat, 0));
        return v;
    }
    let ghost all = tile_rows(iw as nat, ih as nat, cw as nat, ch as nat, 0);
    let mut y: u64 = 0;
    assert(v@ + all =~= all);
    while y < ch as u64
        invariant
            iw > 0,
            ih > 0,
            y <= ch as u64 + ih as u64,
            all == tile_rows(iw as nat, ih as nat, cw as nat, ch as nat, 0),
            v@ + tile_rows(iw as nat, ih as nat, cw as nat, ch as nat, y as nat) == all,
        decreases ch as u64 + ih as u64 - y,
    {
        let ghost rest = tile_rows(iw as nat, ih as nat, cw as nat, ch as nat, (y + ih as u64) as nat);
        assert(v@ + tile_row(iw as nat, ih as nat, cw as nat, y as nat, 0) + rest =~= all);
        let mut x: u64 = 0;
        while x < cw as u64
            invariant
                iw > 0,
                ih > 0,
                y < ch,
                x <= cw as u64 + iw as u64,
                v@ + tile_row(iw as nat, ih as nat, cw as nat, y as nat, x as nat) + rest == all,
            decreases cw as u64 + iw as u64 - x,
        {
            let ghost before = v@;
            v.push(Placement { width: iw, height: ih, x: x as i64, y: y as i64 });
            assert(v@ + tile_row(iw as nat, ih as nat, cw as nat, y as nat, (x + iw as u64) as nat) + rest
                =~= before + tile_row(iw as nat, ih as nat, cw as nat, y as nat, x as nat) + rest);
            x = x + iw as u64;
        }
        assert(v@ + rest =~= all);
        y = y + ih as u64;
    }
    assert(v@ =~= all);
    v
}

/// Whether `size` resolves against a `iw` x `ih` source.
fn resolvable(size: Size, iw: u32, ih: u32) -> (r: bool)
    ensures
        r == size.resolvable(iw, ih),
{
    match size {
        Size::Scale(z) => z != 0,
        Size::Width(_) => iw > 0,
        Size::Height(_) => ih > 0,
        Size::Exact(_, _) => true,
    }
}

impl Style {
    /// Where the style draws a source of `image_width` x `image_height` on a
    /// canvas of `canvas_width` x `canvas_height`, in drawing order.
    pub fn layout(&self, image_width: u32, image_height: u32, canvas_width: u32, canvas_height: u32) -> (r: Vec<Placement>)
        ensures
            r@ == self.placements(
                image_width as nat,
                image_height as nat,
                canvas_width as nat,
                canvas_height as nat,
            ),
    {
        let (iw, ih, cw, ch) = (image_width, image_height, canvas_width, canvas_height);
        match *self {
            Style::Center => centered_layout(iw, ih, cw, ch),
            Style::Tile => tile_layout(iw, ih, cw, ch),
            Style::Position(px, py, size) => {
                let mut r: Vec<Placement> = Vec::new();
                if resolvable(size, iw, ih) {
                    let (w, h) = size.to_size(iw, ih);
                    let x: i64 = match px {
                        Some(v) => v as i64,
                        None => half_exec(cw as i64 - w as i64),
                    };
                    let y: i64 = match py {
                        Some(v) => v as i64,
                        None => half_exec(ch as i64 - h as i64),
                    };
                    if w > 0 && h > 0 {
                        r.push(Placement { width: w, height: h, x, y });
                    }
                }
                assert(r@ =~= self.placements(iw as nat, ih as nat, cw as nat, ch as nat));
                r
            },
            Style::Cover => fitted_layout(iw, ih, cw, ch, true),
            Style::Contain => fitted_layout(iw, ih, cw, ch, false),
            Style::ShrinkToFit => {
                if iw <= cw && ih <= ch {
                    centered_layout(iw, ih, cw, ch)
                } else {
                    fitted_layout(iw, ih, cw, ch, false)
                }
            },
        }
    }

    /// Draws `image` onto `canvas` as the style places it, resampling with `filter`.
    pub fn paint(&self, image: &Frame, canvas: &mut Frame, filter: FilterType)
        requires
            image.wf(),
            old(canvas).wf(),
        ensures
            final(canvas).wf(),
            final(canvas).width == old(canvas).width,
            final(canvas).height == old(canvas).height,
            final(canvas).pixels@ == draw_all(
                old(canvas).width as nat,
                old(canvas).height as nat,
                old(canvas).pixels@,
                *image,
                self.placements(
                    image.width as nat,
                    image.height as nat,
                    old(canvas).width as nat,
                    old(canvas).height as nat,
                ),
                filter,
            ),
    {
        let ps = self.layout(image.width, image.height, canvas.width, canvas.height);
        let ghost cw = canvas.width as nat;
        let ghost ch = canvas.height as nat;
        let ghost goal = draw_all(cw, ch, canvas.pixels@, *image, ps@, filter);
        let mut i: usize = 0;
        assert(ps@.skip(0) =~= ps@);
        while i < ps.len()
            invariant
                image.wf(),
                canvas.wf(),
                canvas.width as nat == cw,
                canvas.height as nat == ch,
                i <= ps@.len(),
                goal == draw_all(cw, ch, canvas.pixels@, *image, ps@.skip(i as int), filter),
            decreases ps@.len() - i,
        {
            let p = ps[i];
            proof {
                crate::pixel::lemma_u32_product(p.width, p.height);
            }
            assert(ps@.skip(i as int).drop_first() =~= ps@.skip(i as int + 1));
            if p.width == image.width && p.height == image.height {
                overlay(canvas, image, p.x, p.y);
            } else if p.width as u64 * p.height as u64 <= (usize::MAX / 4) as u64 {
                let resized = resize(image, p.width, p.height, filter);
                overlay(canvas, &resized, p.x, p.y);
            }
            i = i + 1;
        }
        assert(ps@.skip(i as int) =~= Seq::<Placement>::empty());
    }
}

/// The canvas that holds a `iw` x `ih` image drawn with `style` when the
/// canvas is sized after the image: a position grows it to reach the drawn
/// image's far corner (saturating at the largest `u32`, and not below zero).
pub open spec fn extent(style: Style, iw: u32, ih: u32) -> (nat, nat) {
    match style {
        Style::Position(px, py, size) => if size.resolvable(iw, ih) {
            let (w, h) = size.resolved(iw, ih);
            let x: int = match px { Some(v) => v as int, None => 0 };
            let y: int = match py { Some(v) => v as int, None => 0 };
            (
                if w + x < 0 { 0 } else { cap((w + x) as nat) },
                if h + y < 0 { 0 } else { cap((h + y) as nat) },
            )
        } else {
            (0, 0)
        },
        _ => (iw as nat, ih as nat),
    }
}

fn grow(side: u32, offset: Option<i32>) -> (r: u32)
    ensures
        r == ({
            let o: int = match offset { Some(v) => v as int, None => 0 };
            if side + o < 0 { 0 } else { cap((side + o) as nat) }
        }),
{
    let o: i64 = match offset {
        Some(v) => v as i64,
        None => 0,
    };
    let t: i64 = side as i64 + o;
    if t < 0 {
        0
    } else if t > 0xffff_ffff {
        0xffff_ffff
    } else {
        t as u32
    }
}

/// The size of a canvas sized after a `image_width` x `image_height` image.
pub fn canvas_extent(style: Style, image_width: u32, image_height: u32) -> (r: (u32, u32))
    ensures
        (r.0 as nat, r.1 as nat) == extent(style, image_width, image_height),
{
    match style {
        Style::Position(px, py, size) => {
            if resolvable(size, image_width, image_height) {
                let (w, h) = size.to_size(image_width, image_height);
                (grow(w, px), grow(h, py))
            } else {
                (0, 0)
            }
        },
        _ => (image_width, image_height),
    }
}

} // verus!
