use crate::color::clamp_byte;
use crate::types::PixelFormat;
use vstd::arithmetic::div_mod::lemma_fundamental_div_mod_converse;
use vstd::prelude::*;

verus! {

/// Luma of one RGB pixel (BT.601-like integer weights).
pub open spec fn luma_of(r: int, g: int, b: int) -> u8 {
    clamp_byte((77 * r + 150 * g + 29 * b) / 256) as u8
}

/// Blue-difference chroma of one RGB pixel.
pub open spec fn cb_of(r: int, g: int, b: int) -> u8 {
    clamp_byte((-43 * r - 85 * g + 128 * b) / 256 + 128) as u8
}

/// Red-difference chroma of one RGB pixel.
pub open spec fn cr_of(r: int, g: int, b: int) -> u8 {
    clamp_byte((128 * r - 107 * g - 21 * b) / 256 + 128) as u8
}

/// The RGB pixel of a `(y, cb, cr)` triple: `(r, g, b)`.
pub open spec fn rgb_of(y: int, cb: int, cr: int) -> (u8, u8, u8) {
    let cbb = cb - 128;
    let crr = cr - 128;
    (
        clamp_byte(y + (359 * crr) / 256) as u8,
        clamp_byte(y - (88 * cbb + 183 * crr) / 256) as u8,
        clamp_byte(y + (454 * cbb) / 256) as u8,
    )
}

/// Whether a format carries colour.
pub fn is_color(fmt: PixelFormat) -> (r: bool)
    ensures
        r == (fmt != PixelFormat::Gray8),
{
    match fmt {
        PixelFormat::Gray8 => false,
        PixelFormat::Rgb8 => true,
        PixelFormat::Rgba8 => true,
    }
}

/// `v >> 8` on a signed value: division by 256 rounded down.
fn shr8(v: i32) -> (r: i32)
    requires
        -0x100_0000 <= v <= 0x100_0000,
    ensures
        r == v as int / 256,
{
    if v >= 0 {
        v / 256
    } else {
        let r = -((-v + 255) / 256);
        assert(r == v as int / 256) by (nonlinear_arith)
            requires
                v < 0,
                r == -((-v + 255) / 256),
        ;
        r
    }
}

fn clamp_u8(x: i32) -> (r: u8)
    ensures
        r == clamp_byte(x as int),
{
    if x < 0 {
        0
    } else if x > 255 {
        255
    } else {
        x as u8
    }
}

/// Splits interleaved RGB into full-resolution Y, Cb and Cr planes.
pub fn rgb_to_ycbcr_planar(rgb: &[u8], w: usize, h: usize) -> (r: (Vec<u8>, Vec<u8>, Vec<u8>))
    requires
        rgb@.len() == w * h * 3,
    ensures
        r.0@.len() == w * h && r.1@.len() == w * h && r.2@.len() == w * h,
        forall|i: int|
            0 <= i < w * h ==> {
                let (rr, gg, bb) = (rgb@[3 * i] as int, rgb@[3 * i + 1] as int, rgb@[3 * i + 2] as int);
                &&& #[trigger] r.0@[i] == luma_of(rr, gg, bb)
                &&& r.1@[i] == cb_of(rr, gg, bb)
                &&& r.2@[i] == cr_of(rr, gg, bb)
            },
{
    let n = rgb.len() / 3;
    assert(n == w * h);
    let mut y: Vec<u8> = Vec::new();
    let mut cb: Vec<u8> = Vec::new();
    let mut cr: Vec<u8> = Vec::new();
    let mut i: usize = 0;
    while i < n
        invariant
            n == w * h,
            rgb@.len() == n * 3,
            i <= n,
            y@.len() == i && cb@.len() == i && cr@.len() == i,
            forall|k: int|
                0 <= k < i ==> {
                    let (rr, gg, bb) = (rgb@[3 * k] as int, rgb@[3 * k + 1] as int, rgb@[3 * k + 2] as int);
                    &&& #[trigger] y@[k] == luma_of(rr, gg, bb)
                    &&& cb@[k] == cb_of(rr, gg, bb)
                    &&& cr@[k] == cr_of(rr, gg, bb)
                },
        decreases n - i,
    {
        let len = rgb.len();
        assert(i * 3 + 2 < len) by (nonlinear_arith)
            requires
                i < n,
                len == n * 3,
        ;
        let r = rgb[i * 3] as i32;
        let g = rgb[i * 3 + 1] as i32;
        let b = rgb[i * 3 + 2] as i32;
        y.push(clamp_u8(shr8(77 * r + 150 * g + 29 * b)));
        cb.push(clamp_u8(shr8(-43 * r - 85 * g + 128 * b) + 128));
        cr.push(clamp_u8(shr8(128 * r - 107 * g - 21 * b) + 128));
        i = i + 1;
    }
    (y, cb, cr)
}

/// Merges full-resolution Y, Cb and Cr planes into interleaved RGB.
pub fn ycbcr_to_rgb_planar(y: &[u8], cb: &[u8], cr: &[u8], w: usize, h: usize) -> (r: Vec<u8>)
    requires
        y@.len() == w * h,
        cb@.len() == w * h,
        cr@.len() == w * h,
        w * h * 3 <= usize::MAX,
    ensures
        r@.len() == w * h * 3,
        forall|i: int|
            0 <= i < w * h ==> {
                let (rr, gg, bb) = rgb_of(y@[i] as int, cb@[i] as int, cr@[i] as int);
                #[trigger] r@[3 * i] == rr && r@[3 * i + 1] == gg && r@[3 * i + 2] == bb
            },
{
    let n = y.len();
    let mut out: Vec<u8> = Vec::new();
    let mut i: usize = 0;
    while i < n
        invariant
            n == w * h,
            n * 3 <= usize::MAX,
            y@.len() == n && cb@.len() == n && cr@.len() == n,
            i <= n,
            out@.len() == 3 * i,
            forall|k: int|
                0 <= k < i ==> {
                    let (rr, gg, bb) = rgb_of(y@[k] as int, cb@[k] as int, cr@[k] as int);
                    #[trigger] out@[3 * k] == rr && out@[3 * k + 1] == gg && out@[3 * k + 2] == bb
                },
        decreases n - i,
    {
        assert(i * 3 + 3 <= n * 3) by (nonlinear_arith)
            requires
                i < n,
        ;
        let ghost before = out@;
        let yy = y[i] as i32;
        let cbb = cb[i] as i32 - 128;
        let crr = cr[i] as i32 - 128;
        out.push(clamp_u8(yy + shr8(359 * crr)));
        out.push(clamp_u8(yy - shr8(88 * cbb + 183 * crr)));
        out.push(clamp_u8(yy + shr8(454 * cbb)));
        proof {
            assert forall|k: int|
                0 <= k < i + 1 implies {
                    let (rr, gg, bb) = rgb_of(y@[k] as int, cb@[k] as int, cr@[k] as int);
                    #[trigger] out@[3 * k] == rr && out@[3 * k + 1] == gg && out@[3 * k + 2] == bb
                } by {
                if k < i {
                    assert(out@[3 * k] == before[3 * k]);
                    assert(out@[3 * k + 1] == before[3 * k + 1]);
                    assert(out@[3 * k + 2] == before[3 * k + 2]);
                }
            }
        }
        i = i + 1;
    }
    out
}

/// One sample of a `w` x `h` plane, with its weight: `(value, 1)` inside,
/// `(0, 0)` outside.
pub open spec fn sample_at(ch: Seq<u8>, w: nat, h: nat, x: nat, y: nat) -> (int, int) {
    if x < w && y < h {
        (ch[(y * w + x) as int] as int, 1)
    } else {
        (0, 0)
    }
}

/// The mean, rounded down, of the samples of the 2x2 block at `(x2, y2)`
/// that lie inside the plane.
pub open spec fn block_mean(ch: Seq<u8>, w: nat, h: nat, x2: nat, y2: nat) -> u8 {
    let a = sample_at(ch, w, h, 2 * x2, 2 * y2);
    let b = sample_at(ch, w, h, 2 * x2 + 1, 2 * y2);
    let c = sample_at(ch, w, h, 2 * x2, 2 * y2 + 1);
    let d = sample_at(ch, w, h, 2 * x2 + 1, 2 * y2 + 1);
    ((a.0 + b.0 + c.0 + d.0) / (a.1 + b.1 + c.1 + d.1)) as u8
}

fn block_sample(ch: &[u8], w: usize, h: usize, x: usize, y: usize) -> (r: (u32, u32))
    requires
        w * h <= ch@.len(),
    ensures
        r.0 == sample_at(ch@, w as nat, h as nat, x as nat, y as nat).0,
        r.1 == sample_at(ch@, w as nat, h as nat, x as nat, y as nat).1,
{
    if x < w && y < h {
        let n = ch.len();
        assert(y * w + x < n) by (nonlinear_arith)
            requires
                x < w,
                y < h,
                w * h <= n,
        ;
        assert(y * w <= y * w + x) by (nonlinear_arith)
            requires
                x >= 0,
        ;
        (ch[y * w + x] as u32, 1)
    } else {
        (0, 0)
    }
}

/// Halves a plane in both directions, each output sample the mean of the
/// (up to four) input samples of its block.
pub fn downsample_420(ch: &[u8], w: usize, h: usize) -> (r: (Vec<u8>, usize, usize))
    requires
        w * h <= ch@.len(),
        w < usize::MAX,
        h < usize::MAX,
    ensures
        r.1 == (w + 1) / 2,
        r.2 == (h + 1) / 2,
        r.0@.len() == r.1 * r.2,
        forall|i: int|
            0 <= i < r.0@.len() ==> r.0@[i] == block_mean(
                ch@,
                w as nat,
                h as nat,
                (i % r.1 as int) as nat,
                (i / r.1 as int) as nat,
            ),
{
    let w2 = (w + 1) / 2;
    let h2 = (h + 1) / 2;
    let mut out: Vec<u8> = Vec::new();
    let mut y2: usize = 0;
    while y2 < h2
        invariant
            w2 == (w + 1) / 2,
            h2 == (h + 1) / 2,
            w * h <= ch@.len(),
            y2 <= h2,
            out@.len() == y2 * w2,
            forall|i: int|
                0 <= i < out@.len() ==> out@[i] == block_mean(
                    ch@,
                    w as nat,
                    h as nat,
                    (i % w2 as int) as nat,
                    (i / w2 as int) as nat,
                ),
        decreases h2 - y2,
    {
        let mut x2: usize = 0;
        while x2 < w2
            invariant
                w2 == (w + 1) / 2,
                h2 == (h + 1) / 2,
                w * h <= ch@.len(),
                y2 < h2,
                x2 <= w2,
                out@.len() == y2 * w2 + x2,
                forall|i: int|
                    0 <= i < out@.len() ==> out@[i] == block_mean(
                        ch@,
                        w as nat,
                        h as nat,
                        (i % w2 as int) as nat,
                        (i / w2 as int) as nat,
                    ),
            decreases w2 - x2,
        {
            let (a, ca) = block_sample(ch, w, h, 2 * x2, 2 * y2);
            let (b, cb) = block_sample(ch, w, h, 2 * x2 + 1, 2 * y2);
            let (c, cc) = block_sample(ch, w, h, 2 * x2, 2 * y2 + 1);
            let (d, cd) = block_sample(ch, w, h, 2 * x2 + 1, 2 * y2 + 1);
            let ghost i = out@.len() as int;
            proof {
                lemma_fundamental_div_mod_converse(i, w2 as int, y2 as int, x2 as int);
            }
            out.push(((a + b + c + d) / (ca + cb + cc + cd)) as u8);
            x2 = x2 + 1;
        }
        assert(y2 * w2 + w2 == (y2 + 1) * w2) by (nonlinear_arith);
        y2 = y2 + 1;
    }
    assert(h2 * w2 == w2 * h2) by (nonlinear_arith);
    (out, w2, h2)
}

/// Doubles a half-resolution plane to `w` x `h` by repeating each sample.
pub fn upsample_420_nn(ch_small: &[u8], w2: usize, h2: usize, w: usize, h: usize) -> (r: Vec<u8>)
    requires
        w * h <= usize::MAX,
        w > 0 && h > 0 ==> ((h - 1) / 2) * w2 + (w - 1) / 2 < ch_small@.len(),
    ensures
        r@ == Seq::new(
            (w * h) as nat,
            |i: int| ch_small@[((i / w as int) / 2) * w2 + (i % w as int) / 2],
        ),
{
    let ghost target = Seq::new(
        (w * h) as nat,
        |i: int| ch_small@[((i / w as int) / 2) * w2 + (i % w as int) / 2],
    );
    let cl = ch_small.len();
    let mut out: Vec<u8> = Vec::new();
    let mut y: usize = 0;
    while y < h
        invariant
            w * h <= usize::MAX,
            w > 0 && h > 0 ==> ((h - 1) / 2) * w2 + (w - 1) / 2 < cl,
            cl == ch_small@.len(),
            y <= h,
            target == Seq::new(
                (w * h) as nat,
                |i: int| ch_small@[((i / w as int) / 2) * w2 + (i % w as int) / 2],
            ),
            out@ == target.take(y * w),
        decreases h - y,
    {
        let mut x: usize = 0;
        while x < w
            invariant
                w * h <= usize::MAX,
                w > 0 && h > 0 ==> ((h - 1) / 2) * w2 + (w - 1) / 2 < cl,
                cl == ch_small@.len(),
                y < h,
                x <= w,
                target == Seq::new(
                    (w * h) as nat,
                    |i: int| ch_small@[((i / w as int) / 2) * w2 + (i % w as int) / 2],
                ),
                out@ == target.take(y * w + x),
            decreases w - x,
        {
            assert((y / 2) * w2 <= (y / 2) * w2 + x / 2 <= ((h - 1) / 2) * w2 + (w - 1) / 2) by (nonlinear_arith)
                requires
                    x < w,
                    y < h,
            ;
            assert(y * w + x < w * h) by (nonlinear_arith)
                requires
                    x < w,
                    y < h,
            ;
            proof {
                lemma_fundamental_div_mod_converse(y * w + x, w as int, y as int, x as int);
            }
            out.push(ch_small[(y / 2) * w2 + x / 2]);
            x = x + 1;
            assert(out@ =~= target.take(y * w + x));
        }
        assert(y * w + w == (y + 1) * w) by (nonlinear_arith);
        y = y + 1;
    }
    assert(h * w == w * h) by (nonlinear_arith);
    assert(out@ =~= target);
    out
}

} // verus!
