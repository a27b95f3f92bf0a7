use crate::codec::{
    decode_payload, encode_payload, encoded_payload, lossless_round_trip, payload_decodes_to,
    stride_of, transforms,
};
use crate::color::invertible_pixels;
use crate::error::MoeqiError;
use crate::types::{CodecConfig, CodecKind, ColorTransform, Image, PixelFormat};
use vstd::prelude::*;
use vstd::slice::slice_subrange;

verus! {

/// `MOEQI1`.
pub open spec fn magic() -> Seq<u8> {
    seq![77u8, 79u8, 69u8, 81u8, 73u8, 49u8]
}

/// The four little-endian bytes of `v`.
pub open spec fn le32(v: u32) -> Seq<u8> {
    seq![
        (v % 256) as u8,
        ((v / 256) % 256) as u8,
        ((v / 65536) % 256) as u8,
        ((v / 16777216) % 256) as u8,
    ]
}

/// The little-endian `u32` at offset `o` of `s`.
pub open spec fn read_le32(s: Seq<u8>, o: int) -> u32 {
    (s[o] as int + 256 * s[o + 1] as int + 65536 * s[o + 2] as int + 16777216 * s[o
        + 3] as int) as u32
}

/// The container tag of a pixel format.
pub open spec fn format_tag(f: PixelFormat) -> u8 {
    match f {
        PixelFormat::Gray8 => 1,
        PixelFormat::Rgb8 => 3,
        PixelFormat::Rgba8 => 4,
    }
}

/// The pixel format of a container tag.
pub open spec fn format_of_tag(t: u8) -> Option<PixelFormat> {
    if t == 1 {
        Some(PixelFormat::Gray8)
    } else if t == 3 {
        Some(PixelFormat::Rgb8)
    } else if t == 4 {
        Some(PixelFormat::Rgba8)
    } else {
        None
    }
}

/// The container tag of a colour transform.
pub open spec fn transform_tag(t: ColorTransform) -> u8 {
    match t {
        ColorTransform::Identity => 0,
        ColorTransform::YCoCgR => 1,
    }
}

/// The colour transform of a container tag.
pub open spec fn transform_of_tag(t: u8) -> Option<ColorTransform> {
    if t == 0 {
        Some(ColorTransform::Identity)
    } else if t == 1 {
        Some(ColorTransform::YCoCgR)
    } else {
        None
    }
}

/// The container that holds `payload` for `img` under `cfg`.
pub open spec fn container(img: Image, cfg: CodecConfig, payload: Seq<u8>) -> Seq<u8> {
    magic() + le32(img.width) + le32(img.height) + seq![
        format_tag(img.format),
        cfg.quant_bits,
        if cfg.strict_recon { 1u8 } else { 0u8 },
        transform_tag(cfg.color_transform),
    ] + le32(payload.len() as u32) + payload
}

/// The configuration that a well-formed header states.
pub open spec fn header_config(b: Seq<u8>) -> CodecConfig {
    CodecConfig {
        codec: CodecKind::PredictVarint,
        quant_bits: b[15],
        strict_recon: b[16] != 0,
        color_transform: transform_of_tag(b[17])->0,
    }
}

fn push_le32(v: u32, out: &mut Vec<u8>)
    ensures
        final(out)@ == old(out)@ + le32(v),
{
    out.push((v % 256) as u8);
    out.push(((v / 256) % 256) as u8);
    out.push(((v / 65536) % 256) as u8);
    out.push(((v / 16777216) % 256) as u8);
    assert(final(out)@ =~= old(out)@ + le32(v));
}

fn get_le32(b: &[u8], o: usize) -> (r: u32)
    requires
        o + 4 <= b@.len(),
    ensures
        r == read_le32(b@, o as int),
{
    b[o] as u32 + 256 * b[o + 1] as u32 + 65536 * b[o + 2] as u32 + 16777216 * b[o + 3] as u32
}

/// Encodes `img` into the simple container: the header, then the payload
/// of [`encode_payload`]. Fails as that does, and with `InvalidData` where
/// the payload does not fit a 32-bit length.
pub fn encode(img: &Image, cfg: CodecConfig) -> (r: Result<Vec<u8>, MoeqiError>)
    ensures
        !img.wf() || cfg.quant_bits == 1 ==> r is Err && r->Err_0 is InvalidData,
        img.wf() && cfg.quant_bits != 1 && encoded_payload(*img, cfg).len() <= u32::MAX ==> r
            is Ok && r->Ok_0@ == container(*img, cfg, encoded_payload(*img, cfg)),
        img.wf() && cfg.quant_bits != 1 && encoded_payload(*img, cfg).len() > u32::MAX ==> r
            is Err && r->Err_0 is InvalidData,
{
    let payload = match encode_payload(img, cfg) {
        Ok(p) => p,
        Err(e) => {
            return Err(e);
        },
    };
    if payload.len() > 0xFFFF_FFFF {
        return Err(MoeqiError::InvalidData("payload too large"));
    }
    let mut out: Vec<u8> = Vec::new();
    out.push(77);
    out.push(79);
    out.push(69);
    out.push(81);
    out.push(73);
    out.push(49);
    push_le32(img.width, &mut out);
    push_le32(img.height, &mut out);
    out.push(
        match img.format {
            PixelFormat::Gray8 => 1,
            PixelFormat::Rgb8 => 3,
            PixelFormat::Rgba8 => 4,
        },
    );
    out.push(cfg.quant_bits);
    out.push(
        if cfg.strict_recon {
            1
        } else {
            0
        },
    );
    out.push(
        match cfg.color_transform {
            ColorTransform::Identity => 0,
            ColorTransform::YCoCgR => 1,
        },
    );
    push_le32(payload.len() as u32, &mut out);
    let ghost head = out@;
    let mut i: usize = 0;
    while i < payload.len()
        invariant
            i <= payload@.len(),
            out@ == head + payload@.take(i as int),
        decreases payload@.len() - i,
    {
        out.push(payload[i]);
        i = i + 1;
        assert(out@ =~= head + payload@.take(i as int));
    }
    assert(payload@.take(payload@.len() as int) =~= payload@);
    assert(out@ =~= container(*img, cfg, encoded_payload(*img, cfg)));
    Ok(out)
}

/// Decodes a simple container into the image and the configuration it was
/// written with. Fails with `InvalidData` on a short header, a wrong magic or
/// an unknown format or transform tag, with `Eof` where the payload is
/// shorter than declared, and otherwise as [`decode_payload`].
pub fn decode(bytes: &[u8]) -> (r: Result<(Image, CodecConfig), MoeqiError>)
    ensures
        bytes@.len() < 22 ==> r is Err && r->Err_0 is InvalidData,
        bytes@.len() >= 22 && bytes@.take(6) != magic() ==> r is Err && r->Err_0 is InvalidData,
        bytes@.len() >= 22 && bytes@.take(6) == magic() && (format_of_tag(bytes@[14]) is None
            || transform_of_tag(bytes@[17]) is None) ==> r is Err && r->Err_0 is InvalidData,
        ({
            let b = bytes@;
            let pay_len = read_le32(b, 18) as int;
            b.len() >= 22 && b.take(6) == magic() && format_of_tag(b[14]) is Some
                && transform_of_tag(b[17]) is Some ==> if b.len() < 22 + pay_len {
                r == Err::<(Image, CodecConfig), MoeqiError>(MoeqiError::Eof)
            } else {
                payload_decodes_to(
                    b.subrange(22, 22 + pay_len),
                    read_le32(b, 6),
                    read_le32(b, 10),
                    format_of_tag(b[14])->0,
                    header_config(b),
                    match r {
                        Ok((img, _)) => Ok(img),
                        Err(e) => Err(e),
                    },
                ) && (r is Ok ==> r->Ok_0.1 == header_config(b))
            }
        }),
{
    if bytes.len() < 22 {
        return Err(MoeqiError::InvalidData("too small"));
    }
    if !(bytes[0] == 77 && bytes[1] == 79 && bytes[2] == 69 && bytes[3] == 81 && bytes[4] == 73
        && bytes[5] == 49) {
        proof {
            assert(bytes@.take(6) != magic()) by {
                if bytes@.take(6) == magic() {
                    assert(bytes@.take(6)[0] == 77);
                }
            }
        }
        return Err(MoeqiError::InvalidData("bad magic"));
    }
    assert(bytes@.take(6) =~= magic());
    let width = get_le32(bytes, 6);
    let height = get_le32(bytes, 10);
    let fmt = match bytes[14] {
        1 => PixelFormat::Gray8,
        3 => PixelFormat::Rgb8,
        4 => PixelFormat::Rgba8,
        _ => {
            return Err(MoeqiError::InvalidData("bad pixel format"));
        },
    };
    let quant_bits = bytes[15];
    let strict_recon = bytes[16] != 0;
    let color_transform = match bytes[17] {
        0 => ColorTransform::Identity,
        1 => ColorTransform::YCoCgR,
        _ => {
            return Err(MoeqiError::InvalidData("bad color transform"));
        },
    };
    let pay_len = get_le32(bytes, 18) as usize;
    if bytes.len() - 22 < pay_len {
        return Err(MoeqiError::Eof);
    }
    let payload = slice_subrange(bytes, 22, 22 + pay_len);
    let cfg = CodecConfig { codec: CodecKind::PredictVarint, quant_bits, strict_recon, color_transform };
    match decode_payload(payload, width, height, fmt, cfg) {
        Ok(img) => Ok((img, cfg)),
        Err(e) => Err(e),
    }
}

proof fn lemma_le32_read(v: u32, pre: Seq<u8>, post: Seq<u8>)
    ensures
        read_le32(pre + le32(v) + post, pre.len() as int) == v,
{
    let s = pre + le32(v) + post;
    let o = pre.len() as int;
    assert(s[o] == (v % 256) as u8);
    assert(s[o + 1] == ((v / 256) % 256) as u8);
    assert(s[o + 2] == ((v / 65536) % 256) as u8);
    assert(s[o + 3] == ((v / 16777216) % 256) as u8);
    let x = v as int;
    assert(x % 256 + 256 * ((x / 256) % 256) + 65536 * ((x / 65536) % 256) + 16777216 * ((x
        / 16777216) % 256) == x) by (nonlinear_arith)
        requires
            0 <= x < 0x1_0000_0000,
    ;
}

/// The container that encoding writes reads back as the same image and
/// configuration: its header holds the dimensions, format and settings, and
/// its payload decodes to the image whenever the payload round-trips (see
/// [`lossless_round_trip`]).
pub proof fn container_round_trip(img: Image, cfg: CodecConfig)
    requires
        img.wf(),
        cfg.quant_bits == 0,
        cfg.strict_recon,
        cfg.codec == CodecKind::PredictVarint,
        transforms(cfg, img.format) ==> invertible_pixels(img.data@, stride_of(img.format)),
        encoded_payload(img, cfg).len() <= u32::MAX,
    ensures
        ({
            let b = container(img, cfg, encoded_payload(img, cfg));
            let pay_len = read_le32(b, 18) as int;
            &&& b.len() >= 22
            &&& b.take(6) == magic()
            &&& format_of_tag(b[14]) == Some(img.format)
            &&& transform_of_tag(b[17]) is Some
            &&& b.len() == 22 + pay_len
            &&& read_le32(b, 6) == img.width
            &&& read_le32(b, 10) == img.height
            &&& header_config(b) == cfg
            &&& payload_decodes_to(
                b.subrange(22, 22 + pay_len),
                read_le32(b, 6),
                read_le32(b, 10),
                format_of_tag(b[14])->0,
                header_config(b),
                Ok::<Image, MoeqiError>(img),
            )
        }),
{
    let p = encoded_payload(img, cfg);
    let tags = seq![
        format_tag(img.format),
        cfg.quant_bits,
        if cfg.strict_recon { 1u8 } else { 0u8 },
        transform_tag(cfg.color_transform),
    ];
    let b = container(img, cfg, p);
    lossless_round_trip(img, cfg);
    lemma_le32_read(img.width, magic(), le32(img.height) + tags + le32(p.len() as u32) + p);
    assert(b =~= magic() + le32(img.width) + (le32(img.height) + tags + le32(p.len() as u32) + p));
    lemma_le32_read(img.height, magic() + le32(img.width), tags + le32(p.len() as u32) + p);
    assert(b =~= (magic() + le32(img.width)) + le32(img.height) + (tags + le32(p.len() as u32) + p));
    lemma_le32_read(p.len() as u32, magic() + le32(img.width) + le32(img.height) + tags, p);
    assert(b =~= (magic() + le32(img.width) + le32(img.height) + tags) + le32(p.len() as u32) + p);
    assert(b.take(6) =~= magic());
    assert(b.subrange(22, 22 + p.len() as int) =~= p);
    assert(b[14] == format_tag(img.format));
    assert(b[15] == cfg.quant_bits);
    assert(b[16] == (if cfg.strict_recon { 1u8 } else { 0u8 }));
    assert(b[17] == transform_tag(cfg.color_transform));
}

} // verus!
