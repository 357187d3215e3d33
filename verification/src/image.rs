//! The image buffer and the plain-text pixel-map encoder.
//!
//! `write_ppm` turns accumulated per-pixel color sums into the final
//! document: every channel is averaged over the sample count, gamma
//! corrected by a square root, clamped to `[0, 0.999]`, scaled by 256 and
//! rounded down to an integer in `[0, 255]`.  `ppm_spec` states the output
//! byte for byte, rows emitted top to bottom.
use vstd::prelude::*;

use crate::clamp;
use crate::clamp_spec;
use crate::algebra::Vec3;
use crate::algebra::vec_wf;
use crate::fixed::Fx;
use crate::fixed::SCALE;
use crate::fixed::fdiv;
use crate::fixed::fsqrt;
use crate::fixed::fx_wf;
use crate::fixed::tdiv;

verus! {

/// A color is the same triple as a vector; components conceptually in
/// `[0, 1]`, transiently larger while samples accumulate.
pub type Color = Vec3;

/// The decimal digits of `n`, most significant first, as ASCII bytes.
pub open spec fn dec_seq(n: nat) -> Seq<u8>
    decreases n,
{
    if n < 10 {
        seq![(48 + n) as u8]
    } else {
        dec_seq(n / 10).push((48 + (n % 10)) as u8)
    }
}

/// The encoded value of one channel: mean over the samples (an exact grid
/// division by the sample count), square-root gamma correction, clamp to
/// `[0, 0.999]`, scale by 256 and round down.  A negative accumulator
/// (which no integrator output produces) encodes as zero rather than
/// poisoning the document.
pub open spec fn channel_spec(c: Fx, spp: int) -> int
    recommends
        spp >= 1,
{
    let m = fdiv(c, Fx { v: (spp * SCALE) as i128 });
    let m2 = if m.v < 0 {
        Fx { v: 0 }
    } else {
        m
    };
    let rs = fsqrt(m2);
    let cl = clamp_spec(rs, Fx { v: 0 }, Fx { v: 999000 });
    (256 * cl.v) / (SCALE as int)
}

/// The text of one pixel: "R G B" and a newline.
pub open spec fn pixel_line(c: Color, spp: int) -> Seq<u8> {
    dec_seq(channel_spec(c.x, spp) as nat) + seq![32u8] + dec_seq(channel_spec(c.y, spp) as nat)
        + seq![32u8] + dec_seq(channel_spec(c.z, spp) as nat) + seq![10u8]
}

/// The document header: "P3", the dimensions, and the channel maximum 255.
pub open spec fn ppm_header(w: nat, h: nat) -> Seq<u8> {
    seq![80u8, 51u8, 10u8] + dec_seq(w) + seq![32u8] + dec_seq(h) + seq![10u8] + seq![
        50u8,
        53u8,
        53u8,
        10u8,
    ]
}

/// The first `k` cells of row `y`, in ascending x order.
pub open spec fn row_cells(data: Seq<Color>, w: int, y: int, spp: int, k: int) -> Seq<u8>
    decreases k,
{
    if k <= 0 {
        Seq::empty()
    } else {
        row_cells(data, w, y, spp, k - 1) + pixel_line(data[y * w + (k - 1)], spp)
    }
}

/// The last `k` stored rows, emitted from row `k - 1` downward: storage has
/// row 0 at the bottom, the document has it last.
pub open spec fn rows_suffix(data: Seq<Color>, w: int, spp: int, k: int) -> Seq<u8>
    decreases k,
{
    if k <= 0 {
        Seq::empty()
    } else {
        row_cells(data, w, k - 1, spp, w) + rows_suffix(data, w, spp, k - 1)
    }
}

/// The whole document for a `w` by `h` buffer averaged over `spp` samples.
pub open spec fn ppm_spec(w: int, h: int, data: Seq<Color>, spp: int) -> Seq<u8> {
    ppm_header(w as nat, h as nat) + rows_suffix(data, w, spp, h)
}

/// Append the decimal digits of `n` to `out`.
fn push_decimal(out: &mut Vec<u8>, n: u64)
    ensures
        final(out)@ == old(out)@ + dec_seq(n as nat),
    decreases n,
{
    if n < 10 {
        out.push(48 + n as u8);
        assert(final(out)@ =~= old(out)@ + dec_seq(n as nat));
    } else {
        push_decimal(out, n / 10);
        out.push(48 + (n % 10) as u8);
        assert(final(out)@ =~= old(out)@ + dec_seq(n as nat));
    }
}

/// Encode one channel of one pixel.
fn to_channel(c: Fx, samples_per_pixel: i32) -> (r: u8)
    requires
        fx_wf(c),
        samples_per_pixel >= 1,
    ensures
        r as int == channel_spec(c, samples_per_pixel as int),
{
    let sppfx = Fx::from_int(samples_per_pixel as i64);
    assert(sppfx.v == samples_per_pixel * SCALE);
    let m = c.div(sppfx);
    let m2 = if m.v < 0 {
        Fx::zero()
    } else {
        m
    };
    let rs = m2.sqrt();
    let cl = clamp(rs, Fx::zero(), Fx::from_raw(999000));
    assert(0 <= cl.v <= 999000);
    let q = Fx::from_int(256).mul(cl);
    proof {
        assert(256 * SCALE * cl.v == (256 * cl.v) * (SCALE as int)) by (nonlinear_arith)
            requires
                SCALE == 1000000,
        ;
        vstd::arithmetic::div_mod::lemma_div_by_multiple(256 * cl.v, SCALE as int);
        assert(tdiv(256 * SCALE * cl.v, SCALE as int) == 256 * cl.v);
        assert(q.v == 256 * cl.v);
    }
    let qi: u128 = q.v as u128;
    let ch: u128 = qi / 1000000;
    proof {
        vstd::arithmetic::div_mod::lemma_div_is_ordered(256 * cl.v, 255744000, SCALE as int);
        vstd::arithmetic::div_mod::lemma_div_pos_is_pos(256 * cl.v, SCALE as int);
        assert(ch == (256 * cl.v) / (SCALE as int));
        assert(ch <= 255);
    }
    ch as u8
}

/// A dense buffer of accumulated, unnormalized per-pixel color sums,
/// stored row-major with row 0 at the bottom of the rendered image.
pub struct Image {
    pub width: usize,
    pub height: usize,
    pub pixel_data: Vec<Color>,
}

/// The buffer covers its dimensions and every stored color is on the grid.
pub open spec fn image_wf(img: Image) -> bool {
    &&& img.pixel_data@.len() == img.width * img.height
    &&& forall|i: int|
        0 <= i < img.pixel_data@.len() ==> vec_wf(#[trigger] img.pixel_data@[i])
}

impl Image {
    /// An empty buffer for a `width` by `height` image.
    pub fn new(width: usize, height: usize) -> (r: Image)
        ensures
            r.width == width,
            r.height == height,
            r.pixel_data@ =~= Seq::<Color>::empty(),
    {
        Image { width, height, pixel_data: Vec::new() }
    }

    /// Replace the stored pixel sums.
    pub fn set_data(&mut self, pixel_data: Vec<Color>)
        ensures
            final(self).width == old(self).width,
            final(self).height == old(self).height,
            final(self).pixel_data == pixel_data,
    {
        self.pixel_data = pixel_data;
    }

    /// Serialize the buffer as a plain-text pixel map, rows top to bottom.
    #[verifier::rlimit(100)]
    pub fn write_ppm(&self, samples_per_pixel: i32) -> (out: Vec<u8>)
        requires
            image_wf(*self),
            samples_per_pixel >= 1,
        ensures
            out@ == ppm_spec(
                self.width as int,
                self.height as int,
                self.pixel_data@,
                samples_per_pixel as int,
            ),
    {
        let ghost data = self.pixel_data@;
        let ghost w = self.width as int;
        let ghost spp = samples_per_pixel as int;
        let mut out: Vec<u8> = Vec::new();
        out.push(80);
        out.push(51);
        out.push(10);
        push_decimal(&mut out, self.width as u64);
        out.push(32);
        push_decimal(&mut out, self.height as u64);
        out.push(10);
        out.push(50);
        out.push(53);
        out.push(53);
        out.push(10);
        proof {
            assert(out@ =~= ppm_header(self.width as nat, self.height as nat));
        }

        let mut yr: usize = self.height;
        while yr > 0
            invariant
                0 <= yr <= self.height,
                image_wf(*self),
                samples_per_pixel >= 1,
                data == self.pixel_data@,
                w == self.width as int,
                spp == samples_per_pixel as int,
                ppm_spec(w, self.height as int, data, spp) =~= out@ + rows_suffix(
                    data,
                    w,
                    spp,
                    yr as int,
                ),
            decreases yr,
        {
            let y = yr - 1;
            let n = self.pixel_data.len();
            assert(n == self.pixel_data@.len());
            let ghost base = out@;
            let mut x: usize = 0;
            while x < self.width
                invariant
                    0 <= x <= self.width,
                    0 <= y < self.height,
                    yr == y + 1,
                    n == self.pixel_data@.len(),
                    image_wf(*self),
                    samples_per_pixel >= 1,
                    data == self.pixel_data@,
                    w == self.width as int,
                    spp == samples_per_pixel as int,
                    out@ =~= base + row_cells(data, w, y as int, spp, x as int),
                decreases self.width - x,
            {
                proof {
                    assert((self.width as int) * (y as int) + (x as int) < w * (
                    self.height as int)) by (nonlinear_arith)
                        requires
                            0 <= (y as int) < (self.height as int),
                            0 <= (x as int) < w,
                            w == self.width as int,
                    ;
                    assert(w * (self.height as int) == self.pixel_data@.len());
                    assert(self.pixel_data@.len() <= usize::MAX);
                }
                let idx = self.width * y + x;
                let c = self.pixel_data[idx];
                let cr = to_channel(c.x, samples_per_pixel);
                push_decimal(&mut out, cr as u64);
                out.push(32);
                let cg = to_channel(c.y, samples_per_pixel);
                push_decimal(&mut out, cg as u64);
                out.push(32);
                let cb = to_channel(c.z, samples_per_pixel);
                push_decimal(&mut out, cb as u64);
                out.push(10);
                proof {
                    assert(row_cells(data, w, y as int, spp, x as int + 1) == row_cells(
                        data,
                        w,
                        y as int,
                        spp,
                        x as int,
                    ) + pixel_line(data[(y as int) * w + (x as int)], spp));
                    assert(out@ =~= base + row_cells(data, w, y as int, spp, x as int + 1));
                }
                x = x + 1;
            }
            proof {
                assert(ppm_spec(w, self.height as int, data, spp) =~= out@ + rows_suffix(
                    data,
                    w,
                    spp,
                    y as int,
                ));
            }
            yr = yr - 1;
        }
        proof {
            assert(out@ =~= ppm_spec(w, self.height as int, data, spp));
        }
        out
    }
}

} // verus!
