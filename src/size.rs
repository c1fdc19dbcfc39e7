//! Resolution of a requested size against the source image's size.
use vstd::prelude::*;

verus! {

pub const U32_MAX: u64 = 0xffff_ffff;

/// The largest `u32`.
pub open spec fn u32_cap() -> nat {
    0xffff_ffff
}

/// A requested size: a zoom, a width or height (the other derived), or both.
#[derive(Debug, Clone, Copy, PartialEq, Eq, Structural)]
pub enum Size {
    /// `z >= 1` multiplies both sides by `z`; `z <= -1` divides them by `-z`.
    Scale(i32),
    Width(u32),
    Height(u32),
    Exact(u32, u32),
}

/// `v` capped at the largest `u32`.
pub open spec fn cap(v: nat) -> nat {
    if v > u32_cap() { u32_cap() } else { v }
}

/// Zooming (`w`, `h`) by `z >= 1`. When a side would exceed the largest
/// `u32`, the larger side becomes that maximum and the other is scaled by
/// the same ratio (rounded down).
pub open spec fn zoomed(z: nat, w: nat, h: nat) -> (nat, nat) {
    if w > h {
        if w * z > u32_cap() {
            (u32_cap(), u32_cap() * h / w)
        } else {
            (w * z, h * z)
        }
    } else {
        if h * z > u32_cap() {
            (if h == 0 { 0 } else { u32_cap() * w / h }, u32_cap())
        } else {
            (w * z, h * z)
        }
    }
}

impl Size {
    /// The inputs on which resolution is defined: no zero zoom, and a
    /// derived side needs a non-zero source side to divide by.
    pub open spec fn resolvable(self, image_width: u32, image_height: u32) -> bool {
        match self {
            Size::Scale(z) => z != 0,
            Size::Width(_) => image_width > 0,
            Size::Height(_) => image_height > 0,
            Size::Exact(_, _) => true,
        }
    }

    /// The size that `self` resolves to for a source of the given size.
    pub open spec fn resolved(self, image_width: u32, image_height: u32) -> (nat, nat) {
        let w = image_width as nat;
        let h = image_height as nat;
        match self {
            Size::Scale(z) => if z >= 1 {
                zoomed(z as nat, w, h)
            } else {
                (w / ((-z) as nat), h / ((-z) as nat))
            },
            Size::Width(nw) => (nw as nat, cap(nw as nat * h / w)),
            Size::Height(nh) => (cap(nh as nat * w / h), nh as nat),
            Size::Exact(ew, eh) => (ew as nat, eh as nat),
        }
    }

    /// Resolves the size against a source of `image_width` x `image_height`.
    pub fn to_size(&self, image_width: u32, image_height: u32) -> (r: (u32, u32))
        requires
            self.resolvable(image_width, image_height),
        ensures
            (r.0 as nat, r.1 as nat) == self.resolved(image_width, image_height),
    {
        proof {
            crate::pixel::lemma_u32_product(image_width, image_height);
        }
        match *self {
            Size::Scale(z) => {
                if z >= 1 {
                    let zu = z as u64;
                    let w = image_width as u64;
                    let h = image_height as u64;
                    if w > h {
                        if w > U32_MAX / zu {
                            proof {
                                lemma_floor_div_bound(w as nat, zu as nat);
                                lemma_scaled_fits(u32_cap(), h as nat, w as nat);
                            }
                            (U32_MAX as u32, (U32_MAX * h / w) as u32)
                        } else {
                            proof {
                                lemma_floor_div_bound(w as nat, zu as nat);
                                lemma_mul_le(h as nat, w as nat, zu as nat);
                            }
                            ((w * zu) as u32, (h * zu) as u32)
                        }
                    } else {
                        if h > U32_MAX / zu {
                            proof {
                                lemma_floor_div_bound(h as nat, zu as nat);
                                if h > 0 {
                                    lemma_scaled_fits(u32_cap(), w as nat, h as nat);
                                }
                            }
                            if h == 0 {
                                (0, U32_MAX as u32)
                            } else {
                                ((U32_MAX * w / h) as u32, U32_MAX as u32)
                            }
                        } else {
                            proof {
                                lemma_floor_div_bound(h as nat, zu as nat);
                                lemma_mul_le(w as nat, h as nat, zu as nat);
                            }
                            ((w * zu) as u32, (h * zu) as u32)
                        }
                    }
                } else {
                    let k: u32 = (-(z as i64)) as u32;
                    (image_width / k, image_height / k)
                }
            },
            Size::Width(nw) => {
                proof {
                    crate::pixel::lemma_u32_product(nw, image_height);
                }
                let v: u64 = (nw as u64) * (image_height as u64) / (image_width as u64);
                (nw, if v > U32_MAX { U32_MAX as u32 } else { v as u32 })
            },
            Size::Height(nh) => {
                proof {
                    crate::pixel::lemma_u32_product(nh, image_width);
                }
                let v: u64 = (nh as u64) * (image_width as u64) / (image_height as u64);
                (if v > U32_MAX { U32_MAX as u32 } else { v as u32 }, nh)
            },
            Size::Exact(ew, eh) => (ew, eh),
        }
    }
}

/// `a * z` fits in `m` exactly when `a` is at most `m / z` (rounded down).
proof fn lemma_floor_div_bound(a: nat, z: nat)
    requires
        z >= 1,
    ensures
        a > u32_cap() / z <==> a * z > u32_cap(),
{
    let m = u32_cap();
    let q = m / z;
    assert(q * z <= m && m < (q + 1) * z) by (nonlinear_arith)
        requires z >= 1, q == m / z;
    if a > q {
        assert(a * z >= (q + 1) * z) by (nonlinear_arith)
            requires a >= q + 1, z >= 1;
    } else {
        assert(a * z <= q * z) by (nonlinear_arith)
            requires a <= q, z >= 1;
    }
}

proof fn lemma_mul_le(a: nat, b: nat, z: nat)
    requires
        a <= b,
    ensures
        a * z <= b * z,
{
    assert(a * z <= b * z) by (nonlinear_arith)
        requires a <= b;
}

/// `m * a / b <= m` when `a <= b`, and the product `m * a` fits in a `u64`.
proof fn lemma_scaled_fits(m: nat, a: nat, b: nat)
    requires
        a <= b,
        b > 0,
        m <= u32_cap(),
        a <= u32_cap(),
    ensures
        m * a / b <= m,
        m * a <= u64::MAX,
{
    assert(m * a <= m * b) by (nonlinear_arith)
        requires a <= b;
    assert(m * a / b <= m * b / b) by (nonlinear_arith)
        requires m * a <= m * b, b > 0;
    assert(m * b / b == m) by (nonlinear_arith)
        requires b > 0;
    assert(m * a <= u32_cap() * u32_cap()) by (nonlinear_arith)
        requires m <= u32_cap(), a <= u32_cap();
}

/// Zooming by `z >= 1` gives sides that fit in a `u32`. Without saturation
/// both sides are multiplied by `z`; with it the larger side is the `u32`
/// maximum and the other keeps the source's aspect ratio, rounded down.
pub proof fn lemma_zoom_saturates_keeping_aspect(z: i32, w: u32, h: u32)
    requires
        z >= 1,
    ensures
        ({
            let r = Size::Scale(z).resolved(w, h);
            &&& r.0 <= u32_cap()
            &&& r.1 <= u32_cap()
            &&& (w as nat * z as nat <= u32_cap() && h as nat * z as nat <= u32_cap())
                ==> r == (w as nat * z as nat, h as nat * z as nat)
            &&& (w > h && w as nat * z as nat > u32_cap()) ==> r.0 == u32_cap()
                && r.1 * w <= u32_cap() * h < (r.1 + 1) * w
            &&& (w <= h && h as nat * z as nat > u32_cap()) ==> r.1 == u32_cap()
                && r.0 * h <= u32_cap() * w < (r.0 + 1) * h
        }),
{
    let zn = z as nat;
    let wn = w as nat;
    let hn = h as nat;
    let m = u32_cap();
    let r = Size::Scale(z).resolved(w, h);
    if wn > hn {
        if wn * zn > m {
            lemma_scaled_fits(m, hn, wn);
            let q = m * hn / wn;
            assert(q * wn <= m * hn < (q + 1) * wn) by (nonlinear_arith)
                requires wn > 0, q == m * hn / wn;
        } else {
            lemma_mul_le(hn, wn, zn);
        }
    } else {
        if hn * zn > m {
            assert(hn > 0) by (nonlinear_arith)
                requires hn * zn > m;
            lemma_scaled_fits(m, wn, hn);
            let q = m * wn / hn;
            assert(q * hn <= m * wn < (q + 1) * hn) by (nonlinear_arith)
                requires hn > 0, q == m * wn / hn;
        } else {
            lemma_mul_le(wn, hn, zn);
        }
    }
}

} // verus!
