use vstd::prelude::*;

verus! {

/// One RGBA pixel; equality is bytewise.
#[derive(Debug, Clone, Copy, PartialEq, Eq, Structural)]
pub struct Rgba {
    pub r: u8,
    pub g: u8,
    pub b: u8,
    pub a: u8,
}

/// An opaque RGB colour.
#[derive(Debug, Clone, Copy, PartialEq, Eq, Structural)]
pub struct Rgb {
    pub r: u8,
    pub g: u8,
    pub b: u8,
}

/// The fully transparent black pixel.
pub open spec fn transparent_black() -> Rgba {
    Rgba { r: 0, g: 0, b: 0, a: 0 }
}

impl Rgb {
    pub open spec fn spec_to_rgba(self) -> Rgba {
        Rgba { r: self.r, g: self.g, b: self.b, a: 255 }
    }

    /// The same colour, fully opaque.
    pub fn to_rgba(&self) -> (r: Rgba)
        ensures
            r == self.spec_to_rgba(),
    {
        Rgba { r: self.r, g: self.g, b: self.b, a: 255 }
    }
}

impl Rgba {
    pub fn transparent() -> (r: Rgba)
        ensures
            r == transparent_black(),
    {
        Rgba { r: 0, g: 0, b: 0, a: 0 }
    }
}

/// A width x height grid of pixels, stored row by row.
#[derive(Debug, Clone)]
pub struct Frame {
    pub width: u32,
    pub height: u32,
    pub pixels: Vec<Rgba>,
}

impl Frame {
    /// The pixel count matches the dimensions, and the pixels' bytes can be
    /// addressed.
    pub open spec fn wf(&self) -> bool {
        &&& self.pixels@.len() == self.width as nat * self.height as nat
        &&& self.pixels@.len() * 4 <= usize::MAX
    }

    /// The pixel at column `x` of row `y`.
    pub open spec fn at(&self, x: int, y: int) -> Rgba {
        self.pixels@[y * self.width + x]
    }

    /// Every pixel of the frame is `c`.
    pub open spec fn all(&self, c: Rgba) -> bool {
        forall|i: int| 0 <= i < self.pixels@.len() ==> self.pixels@[i] == c
    }

    /// A frame of the given size, every pixel `c`.
    pub fn filled(width: u32, height: u32, c: Rgba) -> (f: Frame)
        requires
            width as nat * height as nat * 4 <= usize::MAX,
        ensures
            f.wf(),
            f.width == width,
            f.height == height,
            f.all(c),
    {
        let n: usize = (width as usize) * (height as usize);
        let mut pixels: Vec<Rgba> = Vec::with_capacity(n);
        let mut i: usize = 0;
        while i < n
            invariant
                i <= n,
                pixels@.len() == i,
                forall|k: int| 0 <= k < i ==> pixels@[k] == c,
            decreases n - i,
        {
            pixels.push(c);
            i = i + 1;
        }
        Frame { width, height, pixels }
    }

    /// A fully transparent frame of the given size.
    pub fn new(width: u32, height: u32) -> (f: Frame)
        requires
            width as nat * height as nat * 4 <= usize::MAX,
        ensures
            f.wf(),
            f.width == width,
            f.height == height,
            f.all(transparent_black()),
    {
        Frame::filled(width, height, Rgba::transparent())
    }

    /// A frame over the given pixels, or `None` when their number does not
    /// match the dimensions.
    pub fn from_pixels(width: u32, height: u32, pixels: Vec<Rgba>) -> (r: Option<Frame>)
        ensures
            r is Some <==> pixels@.len() == width as nat * height as nat && pixels@.len() * 4
                <= usize::MAX,
            r is Some ==> r->0.wf() && r->0.width == width && r->0.height == height
                && r->0.pixels@ == pixels@,
    {
        proof {
            lemma_u32_product(width, height);
        }
        if (width as u64) * (height as u64) == pixels.len() as u64 && pixels.len() <= usize::MAX / 4 {
            Some(Frame { width, height, pixels })
        } else {
            None
        }
    }

    pub fn get_pixel(&self, x: u32, y: u32) -> (p: Rgba)
        requires
            self.wf(),
            x < self.width,
            y < self.height,
        ensures
            p == self.at(x as int, y as int),
    {
        let n: usize = self.pixels.len();
        proof {
            lemma_index_in_grid(x as int, y as int, self.width as int, self.height as int);
        }
        self.pixels[y as usize * self.width as usize + x as usize]
    }

    /// Sets every pixel to `c`.
    pub fn fill(&mut self, c: Rgba)
        requires
            old(self).wf(),
        ensures
            final(self).wf(),
            final(self).width == old(self).width,
            final(self).height == old(self).height,
            final(self).all(c),
    {
        let n: usize = self.pixels.len();
        let mut i: usize = 0;
        while i < n
            invariant
                i <= n,
                self.wf(),
                self.pixels@.len() == n,
                self.width == old(self).width,
                self.height == old(self).height,
                forall|k: int| 0 <= k < i ==> self.pixels@[k] == c,
            decreases n - i,
        {
            self.pixels.set(i, c);
            i = i + 1;
        }
    }
}

/// The product of two `u32` values fits in a `u64`.
pub proof fn lemma_u32_product(a: u32, b: u32)
    ensures
        a as nat * b as nat <= u64::MAX,
{
    assert(a as nat * b as nat <= 0xffff_ffff * 0xffff_ffff) by (nonlinear_arith)
        requires a <= 0xffff_ffffnat, b <= 0xffff_ffffnat;
}

/// A cell of a `w` x `h` grid lies inside its row-major storage.
pub proof fn lemma_index_in_grid(x: int, y: int, w: int, h: int)
    requires
        0 <= x < w,
        0 <= y < h,
    ensures
        0 <= y * w + x < w * h,
        y * w + x <= usize::MAX || w * h > usize::MAX,
{
    assert(y * w + x < w * h) by (nonlinear_arith)
        requires 0 <= x < w, 0 <= y < h;
    assert(0 <= y * w) by (nonlinear_arith)
        requires 0 <= y, 0 <= w;
}

impl Frame {
    /// `other` placed with its top left corner at (`x`, `y`) lies inside.
    pub open spec fn holds_at(&self, other: &Frame, x: nat, y: nat) -> bool {
        x + other.width <= self.width && y + other.height <= self.height
    }

    /// The pixel at (`px`, `py`) after copying `other` to (`x`, `y`).
    pub open spec fn copied_at(&self, other: &Frame, x: nat, y: nat, px: int, py: int) -> Rgba {
        if x <= px < x + other.width && y <= py < y + other.height {
            other.at(px - x, py - y)
        } else {
            self.at(px, py)
        }
    }

    /// Copies `other` (no blending) with its top left corner at (`x`, `y`).
    /// Fails, changing nothing, when it does not fit inside.
    pub fn copy_from(&mut self, other: &Frame, x: u32, y: u32) -> (r: bool)
        requires
            old(self).wf(),
            other.wf(),
        ensures
            final(self).wf(),
            final(self).width == old(self).width,
            final(self).height == old(self).height,
            r == old(self).holds_at(other, x as nat, y as nat),
            !r ==> *final(self) == *old(self),
            r ==> forall|px: int, py: int|
                0 <= px < old(self).width && 0 <= py < old(self).height ==> #[trigger] final(self).at(
                    px,
                    py,
                ) == old(self).copied_at(other, x as nat, y as nat, px, py),
    {
        if x as u64 + other.width as u64 > self.width as u64 || y as u64 + other.height as u64
            > self.height as u64 {
            return false;
        }
        let ghost orig = *self;
        let w = self.width;
        let ow = other.width;
        let oh = other.height;
        let mut k: u32 = 0;
        while k < oh
            invariant
                self.wf(),
                other.wf(),
                self.width == w && self.height == orig.height,
                orig.wf(),
                w == orig.width,
                ow == other.width,
                oh == other.height,
                x + ow <= w,
                y + oh <= orig.height,
                k <= oh,
                forall|px: int, py: int|
                    0 <= px < w && 0 <= py < orig.height ==> #[trigger] self.at(px, py) == (if x <= px
                        < x + ow && y <= py < y + k {
                        other.at(px - x, py - y)
                    } else {
                        orig.at(px, py)
                    }),
            decreases oh - k,
        {
            let mut i: u32 = 0;
            while i < ow
                invariant
                    self.wf(),
                    other.wf(),
                    self.width == w && self.height == orig.height,
                    orig.wf(),
                    w == orig.width,
                    ow == other.width,
                    oh == other.height,
                    x + ow <= w,
                    y + oh <= orig.height,
                    k < oh,
                    i <= ow,
                    forall|px: int, py: int|
                        0 <= px < w && 0 <= py < orig.height ==> #[trigger] self.at(px, py) == (if x
                            <= px < x + ow && (y <= py < y + k || (py == y + k && px < x + i)) {
                            other.at(px - x, py - y)
                        } else {
                            orig.at(px, py)
                        }),
                decreases ow - i,
            {
                let p = other.get_pixel(i, k);
                let ghost before = *self;
                let n: usize = self.pixels.len();
                proof {
                    lemma_index_in_grid((x + i) as int, (y + k) as int, w as int, orig.height as int);
                }
                let idx: usize = (y + k) as usize * w as usize + (x + i) as usize;
                self.pixels.set(idx, p);
                proof {
                    assert forall|px: int, py: int|
                        0 <= px < w && 0 <= py < orig.height implies #[trigger] self.at(px, py) == (if x
                            <= px < x + ow && (y <= py < y + k || (py == y + k && px < x + i + 1)) {
                            other.at(px - x, py - y)
                        } else {
                            orig.at(px, py)
                        }) by {
                        lemma_index_in_grid(px, py, w as int, orig.height as int);
                        lemma_grid_index_unique(px, py, (x + i) as int, (y + k) as int, w as int);
                        assert(before.at(px, py) == before.pixels@[py * w + px]);
                    }
                }
                i = i + 1;
            }
            k = k + 1;
        }
        true
    }
}

/// Distinct cells of a grid of width `w` have distinct row-major indices.
pub proof fn lemma_grid_index_unique(a: int, b: int, c: int, d: int, w: int)
    requires
        0 <= a < w,
        0 <= c < w,
        0 <= b,
        0 <= d,
    ensures
        (b * w + a == d * w + c) <==> (a == c && b == d),
{
    if b * w + a == d * w + c {
        if b < d {
            assert(b * w + a < d * w + c) by (nonlinear_arith)
                requires b < d, 0 <= a < w, 0 <= c;
        } else if b > d {
            assert(b * w + a > d * w + c) by (nonlinear_arith)
                requires b > d, 0 <= c < w, 0 <= a;
        }
    }
}

} // verus!
