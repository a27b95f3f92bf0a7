use vstd::arithmetic::power2::{lemma2_to64, lemma_pow2_strictly_increases, lemma_pow2_unfold, pow2};
use vstd::prelude::*;

verus! {

/// `bits` clamped to the supported range `[1, 15]`.
pub open spec fn clamp_bits(bits: u8) -> nat {
    if bits < 1 {
        1
    } else if bits > 15 {
        15
    } else {
        bits as nat
    }
}

/// Half the level count, less one: the number of positive bins.
pub open spec fn half_levels(bits: u8) -> int {
    pow2(clamp_bits(bits)) / 2 - 1
}

/// The bin width: the least step for which `half_levels` steps span 0..=255.
pub open spec fn step_for(bits: u8) -> int {
    let half = half_levels(bits);
    let s = (255 + half - 1) / half;
    if s < 1 {
        1
    } else {
        s
    }
}

/// `v` limited to `[lo, hi]`.
pub open spec fn clamp_int(v: int, lo: int, hi: int) -> int {
    if v < lo {
        lo
    } else if v > hi {
        hi
    } else {
        v
    }
}

/// Mid-tread rounding of `r` to a multiple of `step`, away from zero at the
/// half-way point, limited to the 16-bit signed range.
pub open spec fn quantize_spec(step: int, r: int) -> int {
    let mag = if r >= 0 { r } else { -r };
    let m = (mag + step / 2) / step * step;
    clamp_int(if r >= 0 { m } else { -m }, -32768, 32767)
}

/// Dequantization is a pass-through.
pub open spec fn dequantize_spec(q: int) -> int {
    q
}

/// A signed uniform quantizer for prediction residuals.
#[derive(Debug, Clone)]
pub struct SignedUniformQuant {
    bits: u8,
    step: i16,
}

impl SignedUniformQuant {
    pub closed spec fn spec_step(&self) -> int {
        self.step as int
    }

    pub closed spec fn spec_bits(&self) -> nat {
        self.bits as nat
    }

    /// The step lies in `1..=255`.
    pub closed spec fn wf(&self) -> bool {
        1 <= self.step <= 255
    }

    /// A quantizer for `bits` bits, clamped to at most 15. Fewer than two
    /// bits leave no positive bin, so they have no step.
    pub fn new(bits: u8) -> (r: Self)
        requires
            bits >= 2,
        ensures
            r.wf(),
            1 <= r.spec_step() <= 255,
            r.spec_step() == step_for(bits),
            r.spec_bits() == clamp_bits(bits),
    {
        let b: u8 = if bits < 1 {
            1
        } else if bits > 15 {
            15
        } else {
            bits
        };
        proof {
            lemma2_to64();
        }
        let mut levels: i32 = 1;
        let mut i: u8 = 0;
        while i < b
            invariant
                b == clamp_bits(bits),
                i <= b,
                b <= 15,
                levels == pow2(i as nat),
                levels <= 32768,
            decreases b - i,
        {
            proof {
                lemma2_to64();
                lemma_pow2_unfold((i + 1) as nat);
                if i + 1 < 15 {
                    lemma_pow2_strictly_increases((i + 1) as nat, 15);
                }
            }
            levels = levels * 2;
            i = i + 1;
        }
        let half = levels / 2 - 1;
        assert(half >= 1) by {
            lemma2_to64();
            if b > 2 {
                lemma_pow2_strictly_increases(2, b as nat);
            }
        };
        let s = (255 + half - 1) / half;
        assert(1 <= s <= 255) by (nonlinear_arith)
            requires
                half >= 1,
                half <= 16383,
                s as int == (255 + half - 1) as int / half as int,
        ;
        let step: i16 = if s < 1 {
            1
        } else {
            s as i16
        };
        SignedUniformQuant { bits: b, step }
    }

    /// The bin width.
    pub fn step(&self) -> (r: i16)
        ensures
            r == self.spec_step(),
    {
        self.step
    }

    /// Rounds `r` to the nearest multiple of the step (half-way values away
    /// from zero), limited to the 16-bit signed range.
    pub fn quantize(&self, r: i16) -> (q: i16)
        requires
            self.wf(),
        ensures
            q == quantize_spec(self.spec_step(), r as int),
    {
        let s = self.step as i32;
        let ri = r as i32;
        let mag: i32 = if ri >= 0 {
            ri
        } else {
            -ri
        };
        let bins = (mag + s / 2) / s;
        assert(0 <= bins * s <= mag + s / 2) by (nonlinear_arith)
            requires
                s >= 1,
                mag >= 0,
                bins as int == (mag + s / 2) as int / s as int,
        ;
        let m = bins * s;
        let q: i32 = if ri >= 0 {
            m
        } else {
            -m
        };
        if q < -32768 {
            -32768
        } else if q > 32767 {
            32767
        } else {
            q as i16
        }
    }

    /// Returns `q` unchanged: any scaling by the step is left to the caller,
    /// which must not apply it twice.
    pub fn dequantize(&self, q: i16) -> (r: i16)
        ensures
            r == dequantize_spec(q as int),
    {
        q
    }
}

/// Zero stays zero, and dequantizing a quantized residual hands it back
/// unchanged, since dequantization is a pass-through.
pub proof fn quantizer_identities(q: SignedUniformQuant, r: i16)
    requires
        q.wf(),
    ensures
        quantize_spec(q.spec_step(), 0) == 0,
        dequantize_spec(quantize_spec(q.spec_step(), r as int)) == quantize_spec(q.spec_step(), r as int),
{
    let s = q.spec_step();
    assert((0 + s / 2) / s == 0) by (nonlinear_arith)
        requires
            1 <= s,
    ;
}

} // verus!
