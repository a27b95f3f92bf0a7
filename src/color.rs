use vstd::arithmetic::div_mod::lemma_fundamental_div_mod_converse;
use vstd::prelude::*;

verus! {

/// `v` limited to `[0, 255]`.
pub open spec fn clamp_byte(v: int) -> int {
    if v < 0 {
        0
    } else if v > 255 {
        255
    } else {
        v
    }
}

/// `x >> 1` on a signed value: halving, rounded down.
pub open spec fn half_floor(x: int) -> int {
    if x >= 0 {
        x / 2
    } else {
        -((1 - x) / 2)
    }
}

/// The forward YCoCg-R lifting of one pixel, each output kept to its low
/// eight bits: `(y, co, cg)`.
pub open spec fn ycocg_forward(r: int, g: int, b: int) -> (u8, u8, u8) {
    let co = r - b;
    let t = b + half_floor(co);
    let cg = g - t;
    let y = t + half_floor(cg);
    ((y % 256) as u8, (co % 256) as u8, (cg % 256) as u8)
}

/// The inverse lifting of one stored `(y, co, cg)` pixel, each output clamped
/// to a byte: `(r, g, b)`.
pub open spec fn ycocg_inverse(y: int, co: int, cg: int) -> (u8, u8, u8) {
    let t = y - half_floor(cg);
    let g = cg + t;
    let b = t - half_floor(co);
    let r = b + co;
    (clamp_byte(r) as u8, clamp_byte(g) as u8, clamp_byte(b) as u8)
}

/// Component `k` (0, 1 or 2) of a byte triple.
pub open spec fn pick(t: (u8, u8, u8), k: int) -> u8 {
    if k == 0 {
        t.0
    } else if k == 1 {
        t.1
    } else {
        t.2
    }
}

/// `s` with `f` applied to the first three bytes of every whole pixel of
/// `stride` bytes; other bytes (alpha, a trailing partial pixel) unchanged.
pub open spec fn map_pixels(s: Seq<u8>, stride: int, forward: bool) -> Seq<u8> {
    Seq::new(
        s.len(),
        |i: int|
            {
                let p = i / stride;
                let k = i % stride;
                let base = p * stride;
                if base + stride <= s.len() && k < 3 {
                    let (a, b, c) = (s[base] as int, s[base + 1] as int, s[base + 2] as int);
                    if forward {
                        pick(ycocg_forward(a, b, c), k)
                    } else {
                        pick(ycocg_inverse(a, b, c), k)
                    }
                } else {
                    s[i]
                }
            },
    )
}

/// The pixel condition under which the transform round-trips.
pub open spec fn pixel_invertible(r: u8, g: u8, b: u8) -> bool {
    b <= r && b + (r - b) / 2 <= g
}

/// Every whole pixel of `s` satisfies [`pixel_invertible`].
pub open spec fn invertible_pixels(s: Seq<u8>, stride: int) -> bool {
    forall|p: int|
        #![trigger s[p * stride]]
        0 <= p && (p + 1) * stride <= s.len() ==> pixel_invertible(
            s[p * stride],
            s[p * stride + 1],
            s[p * stride + 2],
        )
}

/// The inverse transform undoes the forward one on a buffer whose pixels
/// all round-trip.
pub proof fn lemma_map_pixels_inverse(s: Seq<u8>, stride: int)
    requires
        stride == 3 || stride == 4,
        invertible_pixels(s, stride),
    ensures
        map_pixels(map_pixels(s, stride, true), stride, false) == s,
{
    let s1 = map_pixels(s, stride, true);
    let s2 = map_pixels(s1, stride, false);
    assert forall|i: int| 0 <= i < s.len() implies s2[i] == s[i] by {
        let p = i / stride;
        let k = i % stride;
        let base = p * stride;
        vstd::arithmetic::div_mod::lemma_fundamental_div_mod(i, stride);
        if base + stride <= s.len() && k < 3 {
            lemma_pixel_index(base, p, stride, 0);
            lemma_pixel_index(base + 1, p, stride, 1);
            lemma_pixel_index(base + 2, p, stride, 2);
            assert(0 <= p) by (nonlinear_arith)
                requires
                    i >= 0,
                    stride > 0,
                    p == i / stride,
            ;
            assert(pixel_invertible(s[p * stride], s[p * stride + 1], s[p * stride + 2]));
            ycocg_round_trip(s[base], s[base + 1], s[base + 2]);
            assert(i == base + k);
        }
    }
    assert(s2 =~= s);
}

/// The forward transform keeps only eight bits of each output, so it is not
/// one to one: `(127, 129, 127)` and `(255, 1, 255)` are stored as the same
/// `(128, 0, 2)`. No inverse can give back both, which is why the round trip
/// of [`ycocg_round_trip`] is stated for the pixels on which it holds.
pub proof fn ycocg_forward_collides()
    ensures
        ycocg_forward(127, 129, 127) == ycocg_forward(255, 1, 255),
        ycocg_forward(127, 129, 127) == (128u8, 0u8, 2u8),
{
}

/// A pixel survives the forward then inverse transform exactly when
/// `r >= b` and `g >= b + ((r - b) >> 1)`, so that neither chroma value
/// wraps. (Elsewhere, e.g. `(0, 0, 1)`, the wrapped chroma is read back as
/// an unsigned byte and the pixel changes.)
pub proof fn ycocg_round_trip(r: u8, g: u8, b: u8)
    requires
        b <= r,
        b + (r - b) / 2 <= g,
    ensures
        ({
            let (y, co, cg) = ycocg_forward(r as int, g as int, b as int);
            ycocg_inverse(y as int, co as int, cg as int) == (r, g, b)
        }),
{
    let (ri, gi, bi) = (r as int, g as int, b as int);
    let co = ri - bi;
    assert(half_floor(co) == co / 2);
    let t = bi + co / 2;
    let cg = gi - t;
    assert(0 <= cg <= 255);
    assert(half_floor(cg) == cg / 2);
    let y = t + cg / 2;
    assert(0 <= y <= 255);
    assert(ycocg_forward(ri, gi, bi) == (y as u8, co as u8, cg as u8));
    assert((y as u8) as int == y);
    assert((co as u8) as int == co);
    assert((cg as u8) as int == cg);
    let t2 = y - half_floor(cg);
    assert(t2 == t);
    assert(cg + t2 == gi);
    assert(t2 - half_floor(co) == bi);
}

fn floor_half(x: i32) -> (r: i32)
    requires
        -10000 <= x <= 10000,
    ensures
        r == half_floor(x as int),
{
    if x >= 0 {
        x / 2
    } else {
        -((1 - x) / 2)
    }
}

fn low_byte(x: i32) -> (r: u8)
    requires
        -1024 <= x <= 10000,
    ensures
        r == (x as int % 256) as u8,
{
    ((x + 1024) % 256) as u8
}

fn clamp_u8(x: i32) -> (r: u8)
    ensures
        r == clamp_byte(x as int),
{
    if x < 0 {
        0
    } else if x > 255 {
        255
    } else {
        x as u8
    }
}

/// Index `i` is channel `k` of pixel `p`.
pub proof fn lemma_pixel_index(i: int, p: int, stride: int, k: int)
    requires
        stride > 0,
        0 <= k < stride,
        i == p * stride + k,
    ensures
        i / stride == p,
        i % stride == k,
{
    lemma_fundamental_div_mod_converse(i, stride, p, k);
}

/// Applies the forward (`forward`) or inverse YCoCg-R transform in place to
/// every whole pixel of 3 (or, with `has_alpha`, 4) bytes; alpha and any
/// trailing partial pixel pass through.
pub fn ycocg_in_place(buf: &mut Vec<u8>, has_alpha: bool, forward: bool)
    ensures
        final(buf)@ == map_pixels(old(buf)@, if has_alpha { 4 } else { 3 }, forward),
{
    let stride: usize = if has_alpha {
        4
    } else {
        3
    };
    let ghost orig = buf@;
    let n = buf.len() / stride;
    let mut p: usize = 0;
    while p < n
        invariant
            n as int == orig.len() as int / stride as int,
            stride == (if has_alpha { 4usize } else { 3usize }),
            p <= n,
            buf@.len() == orig.len(),
            forall|i: int| 0 <= i < p * stride ==> buf@[i] == #[trigger] map_pixels(orig, stride as int, forward)[i],
            forall|i: int| p * stride <= i < orig.len() ==> buf@[i] == orig[i],
        decreases n - p,
    {
        let len = buf.len();
        assert(p * stride + stride <= len) by (nonlinear_arith)
            requires
                len == orig.len(),
                p < n,
                n as int == orig.len() as int / stride as int,
                stride > 0,
        ;
        let base = p * stride;
        let a = buf[base] as i32;
        let b = buf[base + 1] as i32;
        let c = buf[base + 2] as i32;
        let (o0, o1, o2) = if forward {
            let co = a - c;
            let t = c + floor_half(co);
            let cg = b - t;
            let y = t + floor_half(cg);
            (low_byte(y), low_byte(co), low_byte(cg))
        } else {
            let t = a - floor_half(c);
            let g = c + t;
            let bb = t - floor_half(b);
            let r = bb + b;
            (clamp_u8(r), clamp_u8(g), clamp_u8(bb))
        };
        buf.set(base, o0);
        buf.set(base + 1, o1);
        buf.set(base + 2, o2);
        proof {
            let m = map_pixels(orig, stride as int, forward);
            assert forall|i: int| 0 <= i < (p + 1) * stride implies buf@[i] == #[trigger] m[i] by {
                if i >= p * stride {
                    let k = i - p * stride;
                    lemma_pixel_index(i, p as int, stride as int, k);
                    lemma_pixel_index(base as int, p as int, stride as int, 0);
                }
            }
            assert((p + 1) * stride == p * stride + stride) by (nonlinear_arith);
        }
        p = p + 1;
    }
    proof {
        let m = map_pixels(orig, stride as int, forward);
        assert forall|i: int| n * stride <= i < orig.len() implies buf@[i] == #[trigger] m[i] by {
            let q = i / stride as int;
            assert(q >= n) by (nonlinear_arith)
                requires
                    i >= n * stride,
                    q == i / stride as int,
                    stride > 0,
                    i < orig.len(),
                    n as int == orig.len() as int / stride as int,
            ;
            assert(q * stride + stride > orig.len()) by (nonlinear_arith)
                requires
                    q >= n,
                    n as int == orig.len() as int / stride as int,
                    stride > 0,
            ;
        }
        assert(buf@ =~= m);
    }
}

} // verus!
