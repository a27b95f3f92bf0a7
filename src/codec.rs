use crate::codec_varint::{unzigzag, zigzag, zigzag_i32, zigzags};
use crate::color::{
    clamp_byte, invertible_pixels, lemma_map_pixels_inverse, map_pixels, ycocg_in_place,
};
use crate::error::MoeqiError;
use crate::quant::{quantize_spec, step_for, SignedUniformQuant};
use crate::types::{CodecConfig, ColorTransform, Image, PixelFormat};
use crate::varint::{
    decode_u32_var, encode_u32_var, lemma_parse_step, lemma_parse_varints, lemma_varints_take,
    parse_overflows,
    parse_vars, prepend, varints,
};
use vstd::arithmetic::div_mod::lemma_fundamental_div_mod_converse;
use vstd::prelude::*;
use vstd::slice::{slice_subrange, slice_to_vec};

verus! {

/// The quantizer step that `quant_bits` calls for; `None` when lossless.
pub open spec fn quant_step(bits: u8) -> Option<int> {
    if bits == 0 {
        None
    } else {
        Some(step_for(bits))
    }
}

/// Whether the colour transform applies to an image of `format` under `cfg`.
pub open spec fn transforms(cfg: CodecConfig, format: PixelFormat) -> bool {
    cfg.color_transform == ColorTransform::YCoCgR && format != PixelFormat::Gray8
}

/// The pixel stride of the colour transform for a colour format.
pub open spec fn stride_of(format: PixelFormat) -> int {
    if format == PixelFormat::Rgba8 {
        4
    } else {
        3
    }
}

/// The bytes that prediction works on: the data, colour-transformed where
/// `cfg` asks for it.
pub open spec fn encode_planes(data: Seq<u8>, format: PixelFormat, cfg: CodecConfig) -> Seq<u8> {
    if transforms(cfg, format) {
        map_pixels(data, stride_of(format), true)
    } else {
        data
    }
}

/// Channel `c` of pixel `(x, y)` in an interleaved buffer.
pub open spec fn sample(buf: Seq<u8>, w: nat, ch: nat, y: nat, c: nat, x: nat) -> int {
    buf[((y * w + x) * ch + c) as int] as int
}

/// The residual coded for `cur` against predictor state `prev`.
pub open spec fn residual(prev: int, cur: int, q: Option<int>) -> int {
    match q {
        None => cur - prev,
        Some(s) => quantize_spec(s, cur - prev),
    }
}

/// The encoder's predictor state before pixel `x` of channel `c` in row `y`.
pub open spec fn enc_prev(
    buf: Seq<u8>,
    w: nat,
    ch: nat,
    y: nat,
    c: nat,
    x: nat,
    q: Option<int>,
    strict: bool,
) -> int
    decreases x,
{
    if x == 0 {
        0
    } else {
        let p = enc_prev(buf, w, ch, y, c, (x - 1) as nat, q, strict);
        let cur = sample(buf, w, ch, y, c, (x - 1) as nat);
        if strict {
            clamp_byte(p + residual(p, cur, q))
        } else {
            cur
        }
    }
}

/// The residual coded for pixel `x` of channel `c` in row `y`.
pub open spec fn enc_residual_at(
    buf: Seq<u8>,
    w: nat,
    ch: nat,
    y: nat,
    c: nat,
    x: nat,
    q: Option<int>,
    strict: bool,
) -> int {
    residual(enc_prev(buf, w, ch, y, c, x, q, strict), sample(buf, w, ch, y, c, x), q)
}

/// Every residual in stream order: rows, then channels, then pixels.
pub open spec fn enc_residuals(
    buf: Seq<u8>,
    w: nat,
    h: nat,
    ch: nat,
    q: Option<int>,
    strict: bool,
) -> Seq<i16> {
    Seq::new(
        h * ch * w,
        |k: int|
            enc_residual_at(
                buf,
                w,
                ch,
                ((k / w as int) / ch as int) as nat,
                ((k / w as int) % ch as int) as nat,
                (k % w as int) as nat,
                q,
                strict,
            ) as i16,
    )
}

/// The payload that encoding `img` under `cfg` produces.
pub open spec fn encoded_payload(img: Image, cfg: CodecConfig) -> Seq<u8> {
    varints(
        zigzags(
            enc_residuals(
                encode_planes(img.data@, img.format, cfg),
                img.width as nat,
                img.height as nat,
                img.format.spec_channels(),
                quant_step(cfg.quant_bits),
                cfg.strict_recon,
            ),
        ),
    )
}

/// A decoded varint read as a 16-bit zigzag code.
pub open spec fn unzigzag16(u: u32) -> int {
    unzigzag((u % 65536) as int)
}

/// The decoder's value of pixel `x - 1` of channel `c` in row `y` (0 for
/// `x == 0`).
pub open spec fn dec_prev(vals: Seq<u32>, w: nat, ch: nat, y: nat, c: nat, x: nat) -> int
    decreases x,
{
    if x == 0 {
        0
    } else {
        clamp_byte(
            dec_prev(vals, w, ch, y, c, (x - 1) as nat) + unzigzag16(
                vals[((y * ch + c) * w + x - 1) as int],
            ),
        )
    }
}

/// The interleaved bytes that the decoded values reconstruct.
pub open spec fn dec_planes(vals: Seq<u32>, w: nat, h: nat, ch: nat) -> Seq<u8> {
    Seq::new(
        w * h * ch,
        |i: int|
            dec_prev(
                vals,
                w,
                ch,
                ((i / ch as int) / w as int) as nat,
                (i % ch as int) as nat,
                ((i / ch as int) % w as int + 1) as nat,
            ) as u8,
    )
}

/// The pixel data that decoding produces from the decoded values.
pub open spec fn decoded_data(
    vals: Seq<u32>,
    w: nat,
    h: nat,
    format: PixelFormat,
    cfg: CodecConfig,
) -> Seq<u8> {
    let planes = dec_planes(vals, w, h, format.spec_channels());
    if transforms(cfg, format) {
        map_pixels(planes, stride_of(format), false)
    } else {
        planes
    }
}

proof fn lemma_index(w: int, h: int, ch: int, y: int, c: int, x: int)
    requires
        0 <= y < h,
        0 <= c < ch,
        0 <= x < w,
    ensures
        0 <= (y * w + x) * ch + c < w * h * ch,
        0 <= (y * ch + c) * w + x < h * ch * w,
        h * ch * w == w * h * ch,
        y * w <= y * w + x <= (y * w + x) * ch + c,
        y * ch <= y * ch + c <= (y * ch + c) * w + x,
        ((y * w + x) * ch + c) / ch == y * w + x,
        ((y * w + x) * ch + c) % ch == c,
        (y * w + x) / w == y,
        (y * w + x) % w == x,
        ((y * ch + c) * w + x) / w == y * ch + c,
        ((y * ch + c) * w + x) % w == x,
        (y * ch + c) / ch == y,
        (y * ch + c) % ch == c,
{
    assert(0 <= (y * w + x) * ch + c < w * h * ch) by (nonlinear_arith)
        requires
            0 <= y < h,
            0 <= c < ch,
            0 <= x < w,
    ;
    assert(0 <= (y * ch + c) * w + x < h * ch * w) by (nonlinear_arith)
        requires
            0 <= y < h,
            0 <= c < ch,
            0 <= x < w,
    ;
    assert(0 <= y * w + x && 0 <= y * ch + c) by (nonlinear_arith)
        requires
            0 <= y,
            0 <= c,
            0 <= x,
            0 <= w,
            0 <= ch,
    ;
    assert(h * ch * w == w * h * ch) by (nonlinear_arith);
    assert(y * w + x <= (y * w + x) * ch + c) by (nonlinear_arith)
        requires
            0 <= y * w + x,
            1 <= ch,
            0 <= c,
    ;
    assert(y * ch + c <= (y * ch + c) * w + x) by (nonlinear_arith)
        requires
            0 <= y * ch + c,
            1 <= w,
            0 <= x,
    ;
    lemma_fundamental_div_mod_converse((y * w + x) * ch + c, ch, y * w + x, c);
    lemma_fundamental_div_mod_converse(y * w + x, w, y, x);
    lemma_fundamental_div_mod_converse((y * ch + c) * w + x, w, y * ch + c, x);
    lemma_fundamental_div_mod_converse(y * ch + c, ch, y, c);
}

proof fn lemma_quantize_bound(s: int, r: int)
    requires
        1 <= s <= 255,
        -255 <= r <= 255,
    ensures
        -400 <= quantize_spec(s, r) <= 400,
{
    let mag = if r >= 0 { r } else { -r };
    assert(0 <= (mag + s / 2) / s * s <= mag + s / 2) by (nonlinear_arith)
        requires
            1 <= s,
            0 <= mag,
    ;
}

/// Encodes the pixels of `img` as a residual payload (no container header).
/// Fails with `InvalidData` where the buffer does not match the declared
/// dimensions, or where `quant_bits` is 1, which leaves the quantizer no bin.
pub fn encode_payload(img: &Image, cfg: CodecConfig) -> (r: Result<Vec<u8>, MoeqiError>)
    ensures
        !img.wf() ==> r is Err && r->Err_0 is InvalidData,
        img.wf() && cfg.quant_bits == 1 ==> r is Err && r->Err_0 is InvalidData,
        img.wf() && cfg.quant_bits != 1 ==> r is Ok && r->Ok_0@ == encoded_payload(*img, cfg),
{
    if !img.validate() {
        return Err(MoeqiError::InvalidData("image data length mismatch"));
    }
    if cfg.quant_bits == 1 {
        return Err(MoeqiError::InvalidData("quant_bits leaves no quantization bin"));
    }
    let mut buf = slice_to_vec(img.data.as_slice());
    if cfg.color_transform == ColorTransform::YCoCgR {
        match img.format {
            PixelFormat::Rgb8 => ycocg_in_place(&mut buf, false, true),
            PixelFormat::Rgba8 => ycocg_in_place(&mut buf, true, true),
            PixelFormat::Gray8 => {},
        }
    }
    let q = if cfg.quant_bits == 0 {
        None
    } else {
        Some(SignedUniformQuant::new(cfg.quant_bits))
    };
    let ghost qs = quant_step(cfg.quant_bits);
    assert(qs is Some ==> 1 <= qs->0 <= 255);
    let ch = img.format.channels();
    let w = img.width as usize;
    let h = img.height as usize;
    let ghost planes = encode_planes(img.data@, img.format, cfg);
    let ghost zs = zigzags(enc_residuals(planes, w as nat, h as nat, ch as nat, qs, cfg.strict_recon));
    assert(buf@ == planes);
    let mut out: Vec<u8> = Vec::new();
    let mut y: usize = 0;
    proof {
        assert(zs.take(0) =~= seq![]);
        assert(varints(zs.take(0)) == Seq::<u8>::empty());
        assert(out@ =~= Seq::<u8>::empty());
        assert(y * ch * w == 0) by (nonlinear_arith)
            requires
                y == 0,
        ;
        assert(zs.take((y * ch * w) as int) =~= seq![]);
    }
    while y < h
        invariant
            y <= h,
            buf@ == planes,
            buf@.len() == w * h * ch,
            ch == img.format.spec_channels(),
            1 <= ch <= 4,
            q is Some <==> qs is Some,
            q is Some ==> q->0.wf() && q->0.spec_step() == qs->0,
            qs is Some ==> 1 <= qs->0 <= 255,
            zs == zigzags(enc_residuals(planes, w as nat, h as nat, ch as nat, qs, cfg.strict_recon)),
            out@ == varints(zs.take((y * ch * w) as int)),
        decreases h - y,
    {
        let mut c: usize = 0;
        while c < ch
            invariant
                y < h,
                c <= ch,
                buf@ == planes,
                buf@.len() == w * h * ch,
                1 <= ch <= 4,
                q is Some <==> qs is Some,
                q is Some ==> q->0.wf() && q->0.spec_step() == qs->0,
                qs is Some ==> 1 <= qs->0 <= 255,
                zs == zigzags(enc_residuals(planes, w as nat, h as nat, ch as nat, qs, cfg.strict_recon)),
                out@ == varints(zs.take(((y * ch + c) * w) as int)),
            decreases ch - c,
        {
            let mut prev: i32 = 0;
            let mut x: usize = 0;
            while x < w
                invariant
                    y < h,
                    c < ch,
                    x <= w,
                    buf@ == planes,
                    buf@.len() == w * h * ch,
                    1 <= ch <= 4,
                    q is Some <==> qs is Some,
                    q is Some ==> q->0.wf() && q->0.spec_step() == qs->0,
                    qs is Some ==> 1 <= qs->0 <= 255,
                    zs == zigzags(enc_residuals(planes, w as nat, h as nat, ch as nat, qs, cfg.strict_recon)),
                    out@ == varints(zs.take(((y * ch + c) * w + x) as int)),
                    prev == enc_prev(planes, w as nat, ch as nat, y as nat, c as nat, x as nat, qs, cfg.strict_recon),
                    0 <= prev <= 255,
                decreases w - x,
            {
                proof {
                    lemma_index(w as int, h as int, ch as int, y as int, c as int, x as int);
                }
                let idx = (y * w + x) * ch + c;
                let cur = buf[idx] as i32;
                let mut res: i32 = cur - prev;
                match &q {
                    Some(qz) => {
                        proof {
                            lemma_quantize_bound(qs->0, res as int);
                        }
                        res = qz.quantize(res as i16) as i32;
                    },
                    None => {},
                }
                let k = (y * ch + c) * w + x;
                proof {
                    let ki = k as int;
                    let yy = ((ki / w as int) / ch as int) as nat;
                    let cc = ((ki / w as int) % ch as int) as nat;
                    let xx = (ki % w as int) as nat;
                    assert(yy == y && cc == c && xx == x);
                    assert(res == enc_residual_at(planes, w as nat, ch as nat, y as nat, c as nat, x as nat, qs, cfg.strict_recon));
                    assert(zs[k as int] == zigzag(res as int) as u32);
                    lemma_varints_take(zs, k as nat);
                }
                encode_u32_var(zigzag_i32(res), &mut out);
                if cfg.strict_recon {
                    let s = prev + res;
                    prev = if s < 0 {
                        0
                    } else if s > 255 {
                        255
                    } else {
                        s
                    };
                } else {
                    prev = cur;
                }
                x = x + 1;
            }
            proof {
                assert((y * ch + c) * w + w == (y * ch + c + 1) * w) by (nonlinear_arith);
            }
            c = c + 1;
        }
        proof {
            assert((y * ch + ch) * w == (y + 1) * ch * w) by (nonlinear_arith);
        }
        y = y + 1;
    }
    proof {
        assert(zs.take((h * ch * w) as int) =~= zs);
    }
    Ok(out)
}

/// What decoding `payload` as a `width` x `height` image of `format` under
/// `cfg` gives: the image where every varint parses, else the error of the
/// first one that does not.
pub open spec fn payload_decodes_to(
    payload: Seq<u8>,
    width: u32,
    height: u32,
    format: PixelFormat,
    cfg: CodecConfig,
    r: Result<Image, MoeqiError>,
) -> bool {
    let n = width as nat * height as nat * format.spec_channels();
    match parse_vars(payload, n) {
        Some(vals) => r is Ok && r->Ok_0.width == width && r->Ok_0.height == height
            && r->Ok_0.format == format && r->Ok_0.data@ == decoded_data(
            vals,
            width as nat,
            height as nat,
            format,
            cfg,
        ),
        None => r is Err && if parse_overflows(payload, n) {
            r->Err_0 is InvalidData
        } else {
            r->Err_0 == MoeqiError::Eof
        },
    }
}

/// The residual of a 16-bit zigzag code.
pub fn unzigzag_u16(v: u16) -> (r: i32)
    ensures
        r == unzigzag(v as int),
        -32768 <= r <= 32767,
{
    if v % 2 == 0 {
        (v / 2) as i32
    } else {
        -((v / 2) as i32) - 1
    }
}

/// Decodes a residual payload (no container header) into an image of the
/// given dimensions and format. Fails where a varint of the payload is cut
/// short (`Eof`) or runs past five bytes (`InvalidData`).
pub fn decode_payload(
    payload: &[u8],
    width: u32,
    height: u32,
    format: PixelFormat,
    cfg: CodecConfig,
) -> (r: Result<Image, MoeqiError>)
    ensures
        payload_decodes_to(payload@, width, height, format, cfg, r),
{
    let q = if cfg.quant_bits >= 2 {
        Some(SignedUniformQuant::new(cfg.quant_bits))
    } else {
        None
    };
    let ch = format.channels();
    let w = width as usize;
    let h = height as usize;
    let wi = width as u128;
    let hi = height as u128;
    assert(wi * hi * 4 <= 0xFFFF_FFFF * 0xFFFF_FFFF * 4) by (nonlinear_arith)
        requires
            wi <= 0xFFFF_FFFF,
            hi <= 0xFFFF_FFFF,
    ;
    assert(wi * hi * (ch as u128) <= wi * hi * 4) by (nonlinear_arith)
        requires
            ch <= 4,
    ;
    let total: u128 = wi * hi * ch as u128;
    let ghost n = total as nat;
    let mut vals: Vec<u32> = Vec::new();
    let mut i: usize = 0;
    proof {
        assert(payload@.skip(0) =~= payload@);
        match parse_vars(payload@, n) {
            Some(t) => {
                assert(vals@ + t =~= t);
            },
            None => {},
        }
    }
    while (vals.len() as u128) < total
        invariant
            n == total,
            n == width as nat * height as nat * format.spec_channels(),
            i <= payload@.len(),
            vals@.len() <= i,
            vals@.len() <= n,
            parse_vars(payload@, n) == prepend(
                vals@,
                parse_vars(payload@.skip(i as int), (n - vals@.len()) as nat),
            ),
            parse_overflows(payload@, n) == parse_overflows(
                payload@.skip(i as int),
                (n - vals@.len()) as nat,
            ),
        decreases n - vals@.len(),
    {
        let rest = slice_subrange(payload, i, payload.len());
        proof {
            assert(rest@ =~= payload@.skip(i as int));
        }
        let ghost rem = (n - vals@.len()) as nat;
        match decode_u32_var(rest) {
            Ok((u, used)) => {
                proof {
                    lemma_parse_step(payload@, i as nat, rem);
                    let tail = parse_vars(payload@.skip(i + used), (rem - 1) as nat);
                    match tail {
                        Some(t) => {
                            assert(vals@ + (seq![u] + t) =~= vals@.push(u) + t);
                        },
                        None => {},
                    }
                }
                vals.push(u);
                i = i + used;
            },
            Err(e) => {
                return Err(e);
            },
        }
    }
    proof {
        assert(vals@ + seq![] =~= vals@);
    }
    let nv = vals.len();
    let ghost vs = vals@;
    let ghost planes = dec_planes(vs, w as nat, h as nat, ch as nat);
    let mut data: Vec<u8> = Vec::new();
    let mut y: usize = 0;
    proof {
        assert(data@ =~= planes.take(0));
        assert(y * w * ch == 0) by (nonlinear_arith)
            requires
                y == 0,
        ;
    }
    while y < h
        invariant
            vals@ == vs,
            vs.len() == n,
            n == nv,
            n == w * h * ch,
            1 <= ch <= 4,
            ch == format.spec_channels(),
            y <= h,
            planes == dec_planes(vs, w as nat, h as nat, ch as nat),
            data@ == planes.take((y * w * ch) as int),
        decreases h - y,
    {
        let mut prevs: Vec<i32> = Vec::new();
        let mut c0: usize = 0;
        while c0 < ch
            invariant
                c0 <= ch,
                prevs@.len() == c0,
                forall|j: int| 0 <= j < c0 ==> prevs@[j] == 0,
            decreases ch - c0,
        {
            prevs.push(0);
            c0 = c0 + 1;
        }
        let mut x: usize = 0;
        proof {
            assert(y * w * ch == (y * w + 0) * ch);
        }
        while x < w
            invariant
                vals@ == vs,
                vs.len() == n,
                n == nv,
            n == nv,
                n == w * h * ch,
                1 <= ch <= 4,
                y < h,
                x <= w,
                planes == dec_planes(vs, w as nat, h as nat, ch as nat),
                data@ == planes.take(((y * w + x) * ch) as int),
                prevs@.len() == ch,
                forall|j: int|
                    0 <= j < ch ==> prevs@[j] == dec_prev(
                        vs,
                        w as nat,
                        ch as nat,
                        y as nat,
                        j as nat,
                        x as nat,
                    ),
            decreases w - x,
        {
            let mut c: usize = 0;
            while c < ch
                invariant
                    vals@ == vs,
                    vs.len() == n,
                    n == nv,
                n == nv,
            n == nv,
                    n == w * h * ch,
                    1 <= ch <= 4,
                    y < h,
                    x < w,
                    c <= ch,
                    planes == dec_planes(vs, w as nat, h as nat, ch as nat),
                    data@ == planes.take(((y * w + x) * ch + c) as int),
                    prevs@.len() == ch,
                    forall|j: int|
                        0 <= j < ch ==> prevs@[j] == dec_prev(
                            vs,
                            w as nat,
                            ch as nat,
                            y as nat,
                            j as nat,
                            if j < c {
                                (x + 1) as nat
                            } else {
                                x as nat
                            },
                        ),
                    forall|j: int| 0 <= j < ch ==> 0 <= #[trigger] prevs@[j] <= 255,
                decreases ch - c,
            {
                proof {
                    lemma_index(w as int, h as int, ch as int, y as int, c as int, x as int);
                }
                let k = (y * ch + c) * w + x;
                let u = vals[k];
                let mut res = unzigzag_u16((u % 65536) as u16);
                match &q {
                    Some(qz) => {
                        res = qz.dequantize(res as i16) as i32;
                    },
                    None => {},
                }
                let ghost p0 = prevs@[c as int];
                let s = prevs[c] + res;
                let cur: i32 = if s < 0 {
                    0
                } else if s > 255 {
                    255
                } else {
                    s
                };
                data.push(cur as u8);
                prevs.set(c, cur);
                proof {
                    let idx = (y * w + x) * ch + c;
                    assert(p0 == dec_prev(vs, w as nat, ch as nat, y as nat, c as nat, x as nat));
                    assert(res == unzigzag16(vs[k as int]));
                    assert(cur == dec_prev(vs, w as nat, ch as nat, y as nat, c as nat, (x + 1) as nat));
                    assert(((idx as int / ch as int) / w as int) as nat == y);
                    assert((idx as int % ch as int) as nat == c);
                    assert(((idx as int / ch as int) % w as int + 1) as nat == x + 1);
                    assert(planes[idx as int] == cur as u8);
                    assert(data@ =~= planes.take(idx + 1));
                }
                c = c + 1;
            }
            proof {
                assert((y * w + x) * ch + ch == (y * w + (x + 1)) * ch) by (nonlinear_arith);
            }
            x = x + 1;
        }
        proof {
            assert((y * w + w) * ch == (y + 1) * w * ch) by (nonlinear_arith);
        }
        y = y + 1;
    }
    proof {
        assert(planes.take((h * w * ch) as int) =~= planes) by {
            assert(h * w * ch == w * h * ch) by (nonlinear_arith);
        }
    }
    if cfg.color_transform == ColorTransform::YCoCgR {
        match format {
            PixelFormat::Rgb8 => ycocg_in_place(&mut data, false, false),
            PixelFormat::Rgba8 => ycocg_in_place(&mut data, true, false),
            PixelFormat::Gray8 => {},
        }
    }
    Ok(Image { width, height, format, data })
}

proof fn lemma_enc_prev_lossless(buf: Seq<u8>, w: nat, ch: nat, y: nat, c: nat, x: nat)
    ensures
        enc_prev(buf, w, ch, y, c, x, None, true) == if x == 0 {
            0
        } else {
            sample(buf, w, ch, y, c, (x - 1) as nat)
        },
{
}

proof fn lemma_dec_prev_lossless(buf: Seq<u8>, w: nat, h: nat, ch: nat, y: nat, c: nat, x: nat)
    requires
        y < h,
        c < ch,
        x <= w,
    ensures
        dec_prev(zigzags(enc_residuals(buf, w, h, ch, None, true)), w, ch, y, c, x) == if x == 0 {
            0
        } else {
            sample(buf, w, ch, y, c, (x - 1) as nat)
        },
    decreases x,
{
    if x > 0 {
        let zs = zigzags(enc_residuals(buf, w, h, ch, None, true));
        lemma_dec_prev_lossless(buf, w, h, ch, y, c, (x - 1) as nat);
        lemma_index(w as int, h as int, ch as int, y as int, c as int, x - 1);
        let k = (y * ch + c) * w + x - 1;
        lemma_enc_prev_lossless(buf, w, ch, y, c, (x - 1) as nat);
        let r = enc_residual_at(buf, w, ch, y, c, (x - 1) as nat, None, true);
        assert(-255 <= r <= 255);
        assert(zs[k as int] == zigzag(r) as u32);
        assert(unzigzag16(zs[k as int]) == r);
    }
}

/// Lossless coding with strict reconstruction gives every image back:
/// decoding the payload that encoding produces yields the same dimensions,
/// format and bytes. Under the colour transform this needs every pixel to
/// satisfy `r >= b` and `g >= b + ((r - b) >> 1)`; other pixels change.
pub proof fn lossless_round_trip(img: Image, cfg: CodecConfig)
    requires
        img.wf(),
        cfg.quant_bits == 0,
        cfg.strict_recon,
        transforms(cfg, img.format) ==> invertible_pixels(img.data@, stride_of(img.format)),
    ensures
        payload_decodes_to(
            encoded_payload(img, cfg),
            img.width,
            img.height,
            img.format,
            cfg,
            Ok::<Image, MoeqiError>(img),
        ),
{
    let w = img.width as nat;
    let h = img.height as nat;
    let ch = img.format.spec_channels();
    let buf = encode_planes(img.data@, img.format, cfg);
    let res = enc_residuals(buf, w, h, ch, None, true);
    let zs = zigzags(res);
    assert(quant_step(cfg.quant_bits) is None);
    lemma_parse_varints(zs, seq![]);
    assert(varints(zs) + seq![] =~= varints(zs));
    assert(h * ch * w == w * h * ch) by (nonlinear_arith);
    let planes = dec_planes(zs, w, h, ch);
    assert forall|i: int| 0 <= i < w * h * ch implies planes[i] == buf[i] by {
        let p = i / ch as int;
        let c = i % ch as int;
        let y = p / w as int;
        let x = p % w as int;
        vstd::arithmetic::div_mod::lemma_fundamental_div_mod(i, ch as int);
        vstd::arithmetic::div_mod::lemma_fundamental_div_mod(p, w as int);
        assert(0 <= p < w * h) by (nonlinear_arith)
            requires
                0 <= i < w * h * ch,
                i == ch * p + c,
                0 <= c < ch,
        ;
        assert(0 <= y < h) by (nonlinear_arith)
            requires
                0 <= p < w * h,
                p == w * y + x,
                0 <= x < w,
        ;
        lemma_dec_prev_lossless(buf, w, h, ch, y as nat, c as nat, (x + 1) as nat);
        assert(i == (y * w + x) * ch + c) by (nonlinear_arith)
            requires
                i == ch * p + c,
                p == w * y + x,
        ;
    }
    assert(planes =~= buf);
    if transforms(cfg, img.format) {
        lemma_map_pixels_inverse(img.data@, stride_of(img.format));
    }
}

} // verus!
