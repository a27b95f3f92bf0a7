use moeqi::binary;
use moeqi::codec::{decode_payload, encode_payload, unzigzag_u16};
use moeqi::codec_varint::{decode_varint_i16, encode_varint_i16};
use moeqi::varint::{decode_u32_var, encode_u32_var};
use moeqi::{decode, encode, CodecConfig, CodecKind, ColorTransform, Image, MoeqiError, PixelFormat, SignedUniformQuant};

fn cfg(quant_bits: u8, strict_recon: bool, color_transform: ColorTransform) -> CodecConfig {
    CodecConfig { codec: CodecKind::PredictVarint, quant_bits, strict_recon, color_transform }
}

#[test]
fn roundtrip_small_values() {
    let vals: Vec<i16> = vec![0, 1, -1, 2, -2, 127, -128, 300, -300, i16::MAX, i16::MIN];
    let enc = encode_varint_i16(&vals);
    let dec = decode_varint_i16(&enc, vals.len()).unwrap();
    assert_eq!(dec, vals);
}

#[test]
fn decode_rejects_truncated() {
    let vals: Vec<i16> = vec![0, 1, -1, 2, -2, 127];
    let mut enc = encode_varint_i16(&vals);
    enc.pop(); // truncate
    assert!(decode_varint_i16(&enc, vals.len()).is_err());
}

#[test]
fn zigzag_varint_extremes_round_trip() {
    for v in [i16::MIN, -1, 0, 1, i16::MAX] {
        let enc = encode_varint_i16(&[v]);
        assert_eq!(decode_varint_i16(&enc, 1), Ok(vec![v]));
        let mut cut = enc.clone();
        cut.pop();
        assert!(decode_varint_i16(&cut, 1).is_err());
    }
    assert_eq!(encode_varint_i16(&[-1, 1, -2]), vec![1, 2, 3]);
    assert_eq!(encode_varint_i16(&[i16::MIN]), vec![0xFF, 0xFF, 0x03]);
}

#[test]
fn varint_encodes_leb128() {
    let mut out = vec![9u8];
    encode_u32_var(300, &mut out);
    assert_eq!(out, vec![9, 0xAC, 0x02]);
    assert_eq!(decode_u32_var(&[0xAC, 0x02, 7]), Ok((300, 2)));
    let mut big = Vec::new();
    encode_u32_var(u32::MAX, &mut big);
    assert_eq!(big, vec![0xFF, 0xFF, 0xFF, 0xFF, 0x0F]);
    assert_eq!(decode_u32_var(&big), Ok((u32::MAX, 5)));
}

#[test]
fn varint_decode_errors() {
    assert_eq!(decode_u32_var(&[]), Err(MoeqiError::Eof));
    assert_eq!(decode_u32_var(&[0x80, 0x80]), Err(MoeqiError::Eof));
    assert!(matches!(decode_u32_var(&[0x80, 0x80, 0x80, 0x80, 0x80, 0x01]), Err(MoeqiError::InvalidData(_))));
    // a fifth byte whose high bits do not fit 32 bits is truncated
    assert_eq!(decode_u32_var(&[0x80, 0x80, 0x80, 0x80, 0x7F]), Ok((0xF000_0000, 5)));
}

#[test]
fn quantizer_steps_and_identities() {
    assert_eq!(SignedUniformQuant::new(2).step(), 255);
    assert_eq!(SignedUniformQuant::new(4).step(), 37);
    assert_eq!(SignedUniformQuant::new(8).step(), 3);
    assert_eq!(SignedUniformQuant::new(15).step(), 1);
    assert_eq!(SignedUniformQuant::new(200).step(), 1);
    let q = SignedUniformQuant::new(4);
    assert_eq!(q.quantize(0), 0);
    assert_eq!(q.quantize(100), 111);
    assert_eq!(q.quantize(-61), -74);
    assert_eq!(q.quantize(18), 0);
    assert_eq!(q.quantize(19), 37);
    assert_eq!(q.quantize(-19), -37);
    assert_eq!(SignedUniformQuant::new(2).quantize(i16::MAX), 32640);
    assert_eq!(SignedUniformQuant::new(2).quantize(i16::MIN), -32768);
    for r in [-300i16, -5, 0, 7, 255] {
        assert_eq!(q.dequantize(q.quantize(r)), q.quantize(r));
    }
}

#[test]
fn payload_of_gray_image() {
    let img = Image { width: 2, height: 2, format: PixelFormat::Gray8, data: vec![10, 20, 30, 40] };
    let p = encode_payload(&img, cfg(0, true, ColorTransform::Identity)).unwrap();
    assert_eq!(p, vec![20, 20, 60, 20]);
}

#[test]
fn lossy_payload_tracks_reconstruction() {
    let img = Image { width: 3, height: 1, format: PixelFormat::Gray8, data: vec![100, 50, 200] };
    let c = cfg(4, true, ColorTransform::Identity);
    let p = encode_payload(&img, c).unwrap();
    assert_eq!(p, vec![222, 1, 147, 1, 168, 2]);
    let back = decode_payload(&p, 3, 1, PixelFormat::Gray8, c).unwrap();
    assert_eq!(back.data, vec![111, 37, 185]);
}

#[test]
fn encode_rejects_bad_input() {
    let img = Image { width: 2, height: 2, format: PixelFormat::Rgb8, data: vec![0; 11] };
    assert!(matches!(encode(&img, CodecConfig::default()), Err(MoeqiError::InvalidData(_))));
    let ok = Image { width: 1, height: 1, format: PixelFormat::Gray8, data: vec![3] };
    assert!(matches!(encode(&ok, cfg(1, true, ColorTransform::Identity)), Err(MoeqiError::InvalidData(_))));
}

#[test]
fn container_round_trip_gray() {
    let img = Image { width: 2, height: 2, format: PixelFormat::Gray8, data: vec![10, 20, 30, 40] };
    let c = cfg(0, true, ColorTransform::Identity);
    let bytes = encode(&img, c).unwrap();
    assert_eq!(bytes.len(), 22 + 4);
    assert_eq!(&bytes[0..6], b"MOEQI1");
    assert_eq!(&bytes[6..10], &[2, 0, 0, 0]);
    assert_eq!(&bytes[14..18], &[1, 0, 1, 0]);
    assert_eq!(&bytes[18..22], &[4, 0, 0, 0]);
    let (back, c2) = decode(&bytes).unwrap();
    assert_eq!(back, img);
    assert_eq!(c2, c);

    let mut bad = bytes.clone();
    bad[0] = b'X';
    assert!(matches!(decode(&bad), Err(MoeqiError::InvalidData(_))));

    let mut short = bytes.clone();
    short.pop();
    assert_eq!(decode(&short), Err(MoeqiError::Eof));

    assert!(matches!(decode(&bytes[0..21]), Err(MoeqiError::InvalidData(_))));
    let mut fmt = bytes.clone();
    fmt[14] = 2;
    assert!(matches!(decode(&fmt), Err(MoeqiError::InvalidData(_))));
    let mut tr = bytes.clone();
    tr[17] = 2;
    assert!(matches!(binary::decode(&tr), Err(MoeqiError::InvalidData(_))));
}

#[test]
fn container_round_trip_colour() {
    // pixels with r >= b and g >= b + (r - b) / 2 survive the colour transform
    let data = vec![200, 150, 100, 255, 128, 255, 90, 0, 10, 10, 10, 7];
    let img = Image { width: 3, height: 1, format: PixelFormat::Rgba8, data: data.clone() };
    let c = CodecConfig::default();
    let (back, _) = decode(&encode(&img, c).unwrap()).unwrap();
    assert_eq!(back.data, data);

    let rgb = Image { width: 2, height: 1, format: PixelFormat::Rgb8, data: vec![0, 0, 1, 5, 6, 7] };
    let plain = cfg(0, true, ColorTransform::Identity);
    let (back, _) = decode(&encode(&rgb, plain).unwrap()).unwrap();
    assert_eq!(back, rgb);
    // (0, 0, 1) wraps its chroma and does not come back under the transform
    let (changed, _) = decode(&encode(&rgb, CodecConfig::default()).unwrap()).unwrap();
    assert_eq!(&changed.data[0..3], &[128, 0, 0]);
}

#[test]
fn empty_image_round_trip() {
    let img = Image { width: 0, height: 5, format: PixelFormat::Rgb8, data: vec![] };
    let (back, _) = decode(&encode(&img, CodecConfig::default()).unwrap()).unwrap();
    assert_eq!(back, img);
}

#[test]
fn default_config() {
    let c = CodecConfig::default();
    assert_eq!(c.quant_bits, 0);
    assert!(c.strict_recon);
    assert_eq!(c.color_transform, ColorTransform::YCoCgR);
    assert_eq!(c.codec, CodecKind::PredictVarint);
}

#[test]
fn error_messages() {
    assert_eq!(MoeqiError::Eof.message(), "unexpected EOF");
    assert_eq!(MoeqiError::InvalidData("x").message(), "invalid data: x");
}

#[test]
fn colour_transform_collision() {
    // two different pixels are stored as the same bytes, so at most one comes back
    let a = Image { width: 1, height: 1, format: PixelFormat::Rgb8, data: vec![127, 129, 127] };
    let b = Image { width: 1, height: 1, format: PixelFormat::Rgb8, data: vec![255, 1, 255] };
    let c = CodecConfig::default();
    let ea = encode(&a, c).unwrap();
    assert_eq!(ea, encode(&b, c).unwrap());
    let (back, _) = decode(&ea).unwrap();
    assert_eq!(back.data, vec![127, 129, 127]);
}

#[test]
fn unzigzag_codes() {
    assert_eq!(unzigzag_u16(0), 0);
    assert_eq!(unzigzag_u16(1), -1);
    assert_eq!(unzigzag_u16(65534), 32767);
    assert_eq!(unzigzag_u16(65535), -32768);
}
