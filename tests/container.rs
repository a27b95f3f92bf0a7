use moeqi::decode::{neighbors, LumaDecoder};
use moeqi::huff::{build_tree, decode_huff_i16};
use moeqi::model::FEAT;
use moeqi::mqb::{half_to_f32_bits, pack_mqb, parse_mqb};
use moeqi::planar::{downsample_420, is_color, rgb_to_ycbcr_planar, upsample_420_nn, ycbcr_to_rgb_planar};
use moeqi::{Bitstream, Codec, ExpertWeights, MoeqiError, Model, PixelFormat};

#[test]
fn canonical_huffman_order() {
    // (1, -3) sorts before (1, 5): -3 gets code 0, 5 gets code 1
    assert_eq!(decode_huff_i16(&[0x01], 1, &[5, -3], &[1, 1]), Ok(vec![5]));
    assert_eq!(decode_huff_i16(&[0x02], 2, &[5, -3], &[1, 1]), Ok(vec![-3, 5]));
    let tree = build_tree(&[5, -3], &[1, 1]).unwrap();
    assert_eq!(tree.len(), 3);
    assert_eq!(tree[tree[0].left].sym, Some(-3));
    assert_eq!(tree[tree[0].right].sym, Some(5));
}

#[test]
fn huffman_longer_codes() {
    // lengths 1, 2, 2: codes 0, 10, 11 for 7, 8, 9
    let syms = [9i16, 7, 8];
    let lens = [2u8, 1, 2];
    // bits, least significant first: 0 | 1 0 | 1 1 | 0  => 0b0_11_01_0 = 0x1A
    assert_eq!(decode_huff_i16(&[0x1A], 4, &syms, &lens), Ok(vec![7, 8, 9, 7]));
    assert_eq!(decode_huff_i16(&[0x1A], 9, &syms, &lens), Err(()));
}

#[test]
fn huffman_bad_tables() {
    assert_eq!(build_tree(&[1, 2], &[1]).err(), Some(()));
    assert_eq!(build_tree(&[], &[]).err(), Some(()));
    assert_eq!(build_tree(&[1], &[33]).err(), Some(()));
    // a single code of length 2 leaves the right branch of the root empty
    assert_eq!(decode_huff_i16(&[0x01], 1, &[4], &[2]), Err(()));
    assert_eq!(decode_huff_i16(&[0x00], 1, &[4], &[2]), Ok(vec![4]));
}

#[test]
fn half_float_patterns() {
    assert_eq!(f32::from_bits(half_to_f32_bits(0x3C00)), 1.0);
    assert_eq!(f32::from_bits(half_to_f32_bits(0x0000)), 0.0);
    assert_eq!(half_to_f32_bits(0x8000), 0x8000_0000);
    assert!(f32::from_bits(half_to_f32_bits(0x7C01)).is_nan());
    assert_eq!(half_to_f32_bits(0x7C01) & 0x7F80_0000, 0x7F80_0000);
    assert_eq!(f32::from_bits(half_to_f32_bits(0x7C00)), f32::INFINITY);
    assert_eq!(f32::from_bits(half_to_f32_bits(0xC000)), -2.0);
    assert_eq!(f32::from_bits(half_to_f32_bits(0x0001)), 2.0f32.powi(-24));
    assert_eq!(f32::from_bits(half_to_f32_bits(0x3555)), 0.333251953125);
}

fn container(version: u8, codec: u8, quant_wr: u8, quant_we: u8) -> Vec<u8> {
    let mut b = b"MOEQIBIN".to_vec();
    b.extend_from_slice(&[version, 0, codec, quant_wr, quant_we]);
    b.extend_from_slice(&2u16.to_le_bytes()); // w
    b.extend_from_slice(&2u16.to_le_bytes()); // h
    b.extend_from_slice(&3u16.to_le_bytes()); // qstep
    b.extend_from_slice(&1u16.to_le_bytes()); // experts
    b.extend_from_slice(&1u32.to_le_bytes()); // residuals
    b.extend_from_slice(&[10, 20]); // first row
    b.extend_from_slice(&[10, 30]); // first column
    if codec == 1 {
        b.extend_from_slice(&1u32.to_le_bytes());
        b.push(0x01);
        b.extend_from_slice(&2u16.to_le_bytes());
        b.extend_from_slice(&(-2i16).to_le_bytes());
        b.push(1);
        b.extend_from_slice(&4i16.to_le_bytes());
        b.push(1);
    } else {
        b.extend_from_slice(&1u32.to_le_bytes());
        b.push(4); // zigzag of 2
    }
    for i in 0..FEAT {
        b.extend_from_slice(&(i as f32).to_bits().to_le_bytes());
    }
    match quant_we {
        0 => {
            for _ in 0..FEAT {
                b.extend_from_slice(&0.5f32.to_bits().to_le_bytes());
            }
        }
        1 => {
            for _ in 0..FEAT {
                b.extend_from_slice(&0x3800u16.to_le_bytes());
            }
        }
        _ => {
            b.extend_from_slice(&0.25f32.to_bits().to_le_bytes());
            for i in 0..FEAT {
                b.push((i as i8 - 3) as u8);
            }
        }
    }
    b
}

#[test]
fn parse_model_container() {
    let bs = parse_mqb(&container(2, 0, 0, 0)).unwrap();
    assert_eq!((bs.w, bs.h, bs.qstep, bs.residuals_count), (2, 2, 3, 1));
    assert_eq!(bs.codec, Codec::Varint);
    assert_eq!(bs.first_row, vec![10, 20]);
    assert_eq!(bs.first_col, vec![10, 30]);
    assert_eq!(bs.payload, vec![4]);
    assert_eq!(bs.model.e, 1);
    assert_eq!(f32::from_bits(bs.model.wr_row(0)[6]), 6.0);
    assert_eq!(bs.model.we, ExpertWeights::Bits(vec![0.5f32.to_bits(); 7]));

    let half = parse_mqb(&container(2, 0, 0, 1)).unwrap();
    assert_eq!(half.model.we, ExpertWeights::Bits(vec![0.5f32.to_bits(); 7]));

    let int8 = parse_mqb(&container(2, 0, 0, 2)).unwrap();
    assert_eq!(
        int8.model.we,
        ExpertWeights::Scaled { scale: 0.25f32.to_bits(), q: vec![-3, -2, -1, 0, 1, 2, 3] }
    );

    let huff = parse_mqb(&container(2, 1, 0, 0)).unwrap();
    assert_eq!(huff.codec, Codec::Huff);
    assert_eq!(huff.huff_symbols, vec![-2, 4]);
    assert_eq!(huff.huff_lengths, vec![1, 1]);
}

#[test]
fn model_container_header_errors() {
    let mut bad_magic = container(2, 0, 0, 0);
    bad_magic[0] = b'X';
    assert!(matches!(parse_mqb(&bad_magic), Err(MoeqiError::Format(_))));
    assert!(matches!(parse_mqb(&container(3, 0, 0, 0)), Err(MoeqiError::Unsupported(_))));
    assert!(matches!(parse_mqb(&container(2, 0, 1, 0)), Err(MoeqiError::Unsupported(_))));
    assert!(matches!(parse_mqb(&container(2, 2, 0, 0)), Err(MoeqiError::Unsupported(_))));
    assert!(matches!(parse_mqb(&container(2, 0, 0, 3)), Err(MoeqiError::Unsupported(_))));
    let mut short = container(2, 0, 0, 0);
    short.pop();
    assert!(matches!(parse_mqb(&short), Err(MoeqiError::Format(_))));
    assert!(matches!(parse_mqb(b"MOEQI"), Err(MoeqiError::Format(_))));
}

#[test]
fn packer_is_unsupported() {
    let bs = parse_mqb(&container(2, 0, 0, 0)).unwrap();
    assert!(matches!(pack_mqb(&bs), Err(MoeqiError::Unsupported(_))));
}

#[test]
fn luma_decoder_steps() {
    let bs = parse_mqb(&container(2, 0, 0, 0)).unwrap();
    let mut d = LumaDecoder::new(&bs).unwrap();
    assert!(!d.finished());
    assert_eq!(d.context(), Some((30, 20, 10)));
    d.push(100); // 100 + 2 * 3
    assert!(d.finished());
    assert_eq!(d.context(), None);
    assert_eq!(d.finish(), vec![10, 20, 30, 106]);

    let huff = parse_mqb(&container(2, 1, 0, 0)).unwrap();
    let mut d = LumaDecoder::new(&huff).unwrap();
    d.push(5); // code 1 is 4: 5 + 4 * 3
    assert_eq!(d.finish(), vec![10, 20, 30, 17]);
}

#[test]
fn luma_decoder_errors() {
    let mut bs = parse_mqb(&container(2, 0, 0, 0)).unwrap();
    bs.residuals_count = 2;
    assert!(matches!(LumaDecoder::new(&bs), Err(MoeqiError::Format(_))));
    bs.residuals_count = 1;
    bs.first_col = vec![1];
    assert!(matches!(LumaDecoder::new(&bs), Err(MoeqiError::Format(_))));
    bs.first_col = vec![1, 2];
    bs.payload = vec![0x80];
    assert!(matches!(LumaDecoder::new(&bs), Err(MoeqiError::Decode(_))));
    let mut hb = parse_mqb(&container(2, 1, 0, 0)).unwrap();
    hb.huff_lengths = vec![];
    assert!(matches!(LumaDecoder::new(&hb), Err(MoeqiError::Decode(_))));
}

#[test]
fn neighbours_substitute_at_borders() {
    let luma = [1u8, 2, 3, 4, 5, 6];
    assert_eq!(neighbors(0, 0, 3, &luma), (1, 1, 1));
    assert_eq!(neighbors(2, 0, 3, &luma), (2, 3, 3));
    assert_eq!(neighbors(0, 1, 3, &luma), (4, 1, 4));
    assert_eq!(neighbors(2, 1, 3, &luma), (5, 3, 2));
}

#[test]
fn planar_helpers() {
    assert!(is_color(PixelFormat::Rgb8));
    assert!(is_color(PixelFormat::Rgba8));
    assert!(!is_color(PixelFormat::Gray8));
    let (y, cb, cr) = rgb_to_ycbcr_planar(&[255, 255, 255, 255, 0, 0], 2, 1);
    assert_eq!(y, vec![255, 76]);
    assert_eq!(cb, vec![128, 85]);
    assert_eq!(cr, vec![128, 255]);
    let rgb = ycbcr_to_rgb_planar(&[100], &[128], &[228], 1, 1);
    assert_eq!(rgb, vec![240, 29, 100]);
    let (small, w2, h2) = downsample_420(&[1, 3, 5, 7, 9, 11], 3, 2);
    assert_eq!((w2, h2), (2, 1));
    assert_eq!(small, vec![5, 8]);
    assert_eq!(upsample_420_nn(&[1, 2], 2, 1, 3, 2), vec![1, 1, 2, 1, 1, 2]);
}

#[test]
fn model_rows() {
    let m = Model { e: 2, wr: (0..14).collect(), we: ExpertWeights::Bits(vec![0; 14]) };
    assert_eq!(m.wr_row(1), &[7, 8, 9, 10, 11, 12, 13]);
    let _ = Bitstream {
        w: 0,
        h: 0,
        qstep: 0,
        codec: Codec::Varint,
        first_row: vec![],
        first_col: vec![],
        residuals_count: 0,
        payload: vec![],
        huff_symbols: vec![],
        huff_lengths: vec![],
        model: m,
    };
}

#[test]
fn huffman_zero_count_is_empty() {
    assert_eq!(decode_huff_i16(&[], 0, &[5, -3], &[1, 1]), Ok(vec![]));
    assert_eq!(decode_huff_i16(&[0xFF], 0, &[5, -3], &[1, 1]), Ok(vec![]));
    assert_eq!(decode_huff_i16(&[], 0, &[5], &[]), Err(()));
}

#[test]
fn huffman_plane_of_width_one() {
    let mut bs = parse_mqb(&container(2, 1, 0, 0)).unwrap();
    bs.w = 1;
    bs.first_row = vec![10];
    bs.residuals_count = 0;
    bs.payload = vec![];
    let d = LumaDecoder::new(&bs).unwrap();
    assert!(d.finished());
    assert_eq!(d.context(), None);
    assert_eq!(d.finish(), vec![10, 30]);
}
