use crate::binary::read_le32;
use crate::bitstream::{Bitstream, Codec};
use crate::error::MoeqiError;
use crate::model::{ExpertWeights, Model, FEAT};
use vstd::arithmetic::power2::{lemma2_to64, lemma_pow2_strictly_increases, lemma_pow2_unfold, pow2};
use vstd::prelude::*;

verus! {

/// The container version this parser reads.
pub const VERSION: u8 = 2;

/// `MOEQIBIN`.
pub open spec fn mqb_magic() -> Seq<u8> {
    seq![77u8, 79u8, 69u8, 81u8, 73u8, 66u8, 73u8, 78u8]
}

/// The little-endian `u16` at offset `o` of `s`.
pub open spec fn read_le16(s: Seq<u8>, o: int) -> u16 {
    (s[o] as int + 256 * s[o + 1] as int) as u16
}

/// Subnormal half-precision mantissa: how many doublings bring `m` to at
/// least 1024.
pub open spec fn norm_shift(m: nat) -> nat
    decreases 2048 - m,
{
    if m == 0 || m >= 1024 {
        0
    } else {
        1 + norm_shift(m * 2)
    }
}

/// The single-precision bit pattern of the half-precision value `h`:
/// signed zeros, subnormals (normalised), infinities and NaNs (payload
/// kept), and normal values (exponent rebiased from 15 to 127).
pub open spec fn half_to_f32_bits_spec(h: u16) -> u32 {
    let sign = h as int / 32768;
    let exp = (h as int / 1024) % 32;
    let frac = h as int % 1024;
    let s = sign * 0x8000_0000;
    if exp == 0 {
        if frac == 0 {
            s as u32
        } else {
            let k = norm_shift(frac as nat);
            let m = frac * pow2(k) as int;
            (s + (127 - 14 - k) * 0x80_0000 + (m % 1024) * 0x2000) as u32
        }
    } else if exp == 31 {
        (s + 0xff * 0x80_0000 + frac * 0x2000) as u32
    } else {
        (s + (exp - 15 + 127) * 0x80_0000 + frac * 0x2000) as u32
    }
}

proof fn lemma_norm_shift(m: nat)
    requires
        0 < m < 1024,
    ensures
        1 <= norm_shift(m) <= 10,
        1024 <= m * pow2(norm_shift(m)) < 2048,
        m * pow2((norm_shift(m) - 1) as nat) < 1024,
    decreases 1024 - m,
{
    lemma2_to64();
    if m * 2 < 1024 {
        lemma_norm_shift(m * 2);
        let k = norm_shift(m * 2);
        assert(norm_shift(m) == 1 + k);
        lemma_pow2_unfold(k + 1);
        lemma_pow2_unfold(k);
        assert(m * pow2(k + 1) == (m * 2) * pow2(k)) by (nonlinear_arith)
            requires
                pow2(k + 1) == 2 * pow2(k),
        ;
        assert(m * pow2(k) == (m * 2) * pow2((k - 1) as nat)) by (nonlinear_arith)
            requires
                pow2(k) == 2 * pow2((k - 1) as nat),
        ;
        assert((norm_shift(m) - 1) as nat == k);
        assert(m * pow2((norm_shift(m) - 1) as nat) < 1024);
    } else {
        assert(norm_shift(m * 2) == 0);
        assert(norm_shift(m) == 1);
        assert((norm_shift(m) - 1) as nat == 0);
        assert(m * pow2(0) == m);
    }
    let n = norm_shift(m);
    if n > 10 {
        if n > 11 {
            lemma_pow2_strictly_increases(10, (n - 1) as nat);
        }
        assert(m * pow2((n - 1) as nat) >= pow2((n - 1) as nat)) by (nonlinear_arith)
            requires
                m >= 1,
        ;
    }
}

/// Converts a half-precision bit pattern to the single-precision bit pattern
/// of the same value.
pub fn half_to_f32_bits(h: u16) -> (r: u32)
    ensures
        r == half_to_f32_bits_spec(h),
{
    let sign = (h / 32768) as u32;
    let exp = ((h / 1024) % 32) as u32;
    let frac = (h % 1024) as u32;
    let s = sign * 0x8000_0000;
    if exp == 0 {
        if frac == 0 {
            s
        } else {
            proof {
                lemma_norm_shift(frac as nat);
                lemma2_to64();
            }
            let mut m: u32 = frac;
            let mut k: u32 = 0;
            while m < 1024
                invariant
                    0 < frac < 1024,
                    k <= 10,
                    0 < m,
                    m == frac * pow2(k as nat),
                    norm_shift(m as nat) + k == norm_shift(frac as nat),
                    norm_shift(frac as nat) <= 10,
                    m < 2048,
                decreases 2048 - m,
            {
                proof {
                    lemma_pow2_unfold((k + 1) as nat);
                    assert(frac * pow2((k + 1) as nat) == m * 2) by (nonlinear_arith)
                        requires
                            m == frac * pow2(k as nat),
                            pow2((k + 1) as nat) == 2 * pow2(k as nat),
                    ;
                }
                m = m * 2;
                k = k + 1;
            }
            s + (127 - 14 - k) * 0x80_0000 + (m % 1024) * 0x2000
        }
    } else if exp == 31 {
        s + 0xff * 0x80_0000 + frac * 0x2000
    } else {
        s + (exp + 112) * 0x80_0000 + frac * 0x2000
    }
}

/// A half-precision NaN (exponent field 31, mantissa not zero) converts to a
/// single-precision NaN: all eight exponent bits set, mantissa not zero.
pub proof fn half_nan_stays_nan(h: u16)
    requires
        (h as int / 1024) % 32 == 31,
        h as int % 1024 != 0,
    ensures
        (half_to_f32_bits_spec(h) as int / 0x80_0000) % 256 == 255,
        half_to_f32_bits_spec(h) as int % 0x80_0000 != 0,
{
    let sign = h as int / 32768;
    let frac = h as int % 1024;
    let v = sign * 0x8000_0000 + 0xff * 0x80_0000 + frac * 0x2000;
    assert(0 <= sign <= 1);
    assert(0 < frac * 0x2000 < 0x80_0000);
    assert(v / 0x80_0000 == sign * 256 + 255);
    assert(v % 0x80_0000 == frac * 0x2000);
}

/// Width, height, step and expert count of a header.
pub open spec fn mqb_w(b: Seq<u8>) -> int {
    read_le16(b, 13) as int
}

pub open spec fn mqb_h(b: Seq<u8>) -> int {
    read_le16(b, 15) as int
}

pub open spec fn mqb_e(b: Seq<u8>) -> int {
    read_le16(b, 19) as int
}

/// Offset of the payload length.
pub open spec fn off_pay_len(b: Seq<u8>) -> int {
    25 + mqb_w(b) + mqb_h(b)
}

/// Offset just past the payload.
pub open spec fn off_after_pay(b: Seq<u8>) -> int {
    off_pay_len(b) + 4 + read_le32(b, off_pay_len(b)) as int
}

/// Whether the residuals are Huffman coded (else varint).
pub open spec fn mqb_huff(b: Seq<u8>) -> bool {
    b[10] == 1
}

/// The number of Huffman table entries.
pub open spec fn mqb_nsym(b: Seq<u8>) -> int {
    read_le16(b, off_after_pay(b)) as int
}

/// Offset of the router weights.
pub open spec fn off_wr(b: Seq<u8>) -> int {
    if mqb_huff(b) {
        off_after_pay(b) + 2 + 3 * mqb_nsym(b)
    } else {
        off_after_pay(b)
    }
}

/// Offset of the expert weights.
pub open spec fn off_we(b: Seq<u8>) -> int {
    off_wr(b) + 28 * mqb_e(b)
}

/// Bytes that the expert weights take in scheme `b[12]`.
pub open spec fn we_size(b: Seq<u8>) -> int {
    if b[12] == 0 {
        28 * mqb_e(b)
    } else if b[12] == 1 {
        14 * mqb_e(b)
    } else {
        4 + 7 * mqb_e(b)
    }
}

/// Every field that the header declares lies inside `b`.
pub open spec fn mqb_fits(b: Seq<u8>) -> bool {
    &&& b.len() >= off_pay_len(b) + 4
    &&& b.len() >= off_after_pay(b)
    &&& mqb_huff(b) ==> b.len() >= off_after_pay(b) + 2
    &&& b.len() >= off_we(b) + we_size(b)
}

/// How parsing `b` ends: 0 with a bitstream, 1 with a `Format` error
/// (short input, bad magic), 2 with an `Unsupported` one (version, codec id,
/// router or expert weight precision).
pub open spec fn mqb_outcome(b: Seq<u8>) -> int {
    if b.len() < 10 || b.take(8) != mqb_magic() {
        1
    } else if b[8] != VERSION {
        2
    } else if b.len() < 11 {
        1
    } else if b[10] > 1 {
        2
    } else if b.len() < 12 {
        1
    } else if b[11] != 0 {
        2
    } else if b.len() < 13 {
        1
    } else if b[12] > 2 {
        2
    } else if !mqb_fits(b) {
        1
    } else {
        0
    }
}

/// `n` little-endian `u32`s from offset `o`.
pub open spec fn le32s(b: Seq<u8>, o: int, n: nat) -> Seq<u32> {
    Seq::new(n, |i: int| read_le32(b, o + 4 * i))
}

/// `n` half-precision weights from offset `o`, as single-precision bits.
pub open spec fn halves(b: Seq<u8>, o: int, n: nat) -> Seq<u32> {
    Seq::new(n, |i: int| half_to_f32_bits_spec(read_le16(b, o + 2 * i)))
}

/// `n` signed bytes from offset `o`.
pub open spec fn signed_bytes(b: Seq<u8>, o: int, n: nat) -> Seq<i8> {
    Seq::new(n, |i: int| b[o + i] as i8)
}

/// The expert weights that `b` declares.
pub open spec fn mqb_we(b: Seq<u8>, we: ExpertWeights) -> bool {
    let n = (7 * mqb_e(b)) as nat;
    let o = off_we(b);
    if b[12] == 0 {
        we matches ExpertWeights::Bits(v) && v@ == le32s(b, o, n)
    } else if b[12] == 1 {
        we matches ExpertWeights::Bits(v) && v@ == halves(b, o, n)
    } else {
        we matches ExpertWeights::Scaled { scale, q } && scale == read_le32(b, o) && q@
            == signed_bytes(b, o + 4, n)
    }
}

/// `bs` holds what the container `b` declares.
pub open spec fn mqb_parsed(b: Seq<u8>, bs: Bitstream) -> bool {
    let w = mqb_w(b);
    let h = mqb_h(b);
    let ot = off_after_pay(b) + 2;
    &&& bs.w == read_le16(b, 13)
    &&& bs.h == read_le16(b, 15)
    &&& bs.qstep == read_le16(b, 17)
    &&& bs.model.e == read_le16(b, 19)
    &&& bs.residuals_count == read_le32(b, 21)
    &&& bs.codec == (if mqb_huff(b) { Codec::Huff } else { Codec::Varint })
    &&& bs.first_row@ == b.subrange(25, 25 + w)
    &&& bs.first_col@ == b.subrange(25 + w, 25 + w + h)
    &&& bs.payload@ == b.subrange(off_pay_len(b) + 4, off_after_pay(b))
    &&& mqb_huff(b) ==> bs.huff_symbols@ == Seq::new(
        mqb_nsym(b) as nat,
        |i: int| read_le16(b, ot + 3 * i) as i16,
    ) && bs.huff_lengths@ == Seq::new(mqb_nsym(b) as nat, |i: int| b[ot + 3 * i + 2])
    &&& !mqb_huff(b) ==> bs.huff_symbols@.len() == 0 && bs.huff_lengths@.len() == 0
    &&& bs.model.wr@ == le32s(b, off_wr(b), (7 * mqb_e(b)) as nat)
    &&& mqb_we(b, bs.model.we)
    &&& bs.model.wf()
}

fn rd_u8(data: &[u8], o: &mut usize) -> (r: Result<u8, MoeqiError>)
    requires
        *old(o) <= data@.len(),
    ensures
        *old(o) + 1 <= data@.len() ==> r == Ok::<u8, MoeqiError>(data@[*old(o) as int]) && *final(o)
            == *old(o) + 1,
        *old(o) + 1 > data@.len() ==> r is Err && r->Err_0 is Format,
        *final(o) <= data@.len(),
{
    if data.len() - *o < 1 {
        return Err(MoeqiError::Format("eof"));
    }
    let v = data[*o];
    *o = *o + 1;
    Ok(v)
}

fn rd_u16(data: &[u8], o: &mut usize) -> (r: Result<u16, MoeqiError>)
    requires
        *old(o) <= data@.len(),
    ensures
        *old(o) + 2 <= data@.len() ==> r == Ok::<u16, MoeqiError>(read_le16(data@, *old(o) as int))
            && *final(o) == *old(o) + 2,
        *old(o) + 2 > data@.len() ==> r is Err && r->Err_0 is Format,
        *final(o) <= data@.len(),
{
    if data.len() - *o < 2 {
        return Err(MoeqiError::Format("eof"));
    }
    let v = data[*o] as u16 + 256 * data[*o + 1] as u16;
    *o = *o + 2;
    Ok(v)
}

fn rd_u32(data: &[u8], o: &mut usize) -> (r: Result<u32, MoeqiError>)
    requires
        *old(o) <= data@.len(),
    ensures
        *old(o) + 4 <= data@.len() ==> r == Ok::<u32, MoeqiError>(read_le32(data@, *old(o) as int))
            && *final(o) == *old(o) + 4,
        *old(o) + 4 > data@.len() ==> r is Err && r->Err_0 is Format,
        *final(o) <= data@.len(),
{
    if data.len() - *o < 4 {
        return Err(MoeqiError::Format("eof"));
    }
    let i = *o;
    let v = data[i] as u32 + 256 * data[i + 1] as u32 + 65536 * data[i + 2] as u32 + 16777216
        * data[i + 3] as u32;
    *o = i + 4;
    Ok(v)
}

fn rd_bytes(data: &[u8], o: &mut usize, n: usize) -> (r: Result<Vec<u8>, MoeqiError>)
    requires
        *old(o) <= data@.len(),
    ensures
        *old(o) + n <= data@.len() ==> r is Ok && r->Ok_0@ == data@.subrange(
            *old(o) as int,
            *old(o) + n,
        ) && *final(o) == *old(o) + n,
        *old(o) + n > data@.len() ==> r is Err && r->Err_0 is Format,
        *final(o) <= data@.len(),
{
    if data.len() - *o < n {
        return Err(MoeqiError::Format("eof"));
    }
    let start = *o;
    let v = vstd::slice::slice_to_vec(vstd::slice::slice_subrange(data, start, start + n));
    *o = start + n;
    Ok(v)
}

fn rd_u32_vec(data: &[u8], o: &mut usize, n: usize) -> (r: Result<Vec<u32>, MoeqiError>)
    requires
        *old(o) <= data@.len(),
        n <= 0x100_0000,
    ensures
        *old(o) + 4 * n <= data@.len() ==> r is Ok && r->Ok_0@ == le32s(data@, *old(o) as int, n as nat)
            && *final(o) == *old(o) + 4 * n,
        *old(o) + 4 * n > data@.len() ==> r is Err && r->Err_0 is Format,
        *final(o) <= data@.len(),
{
    let start = *o;
    let mut out: Vec<u32> = Vec::new();
    let mut i: usize = 0;
    while i < n
        invariant
            start == *old(o),
            start <= data@.len(),
            i <= n <= 0x100_0000,
            *o == start + 4 * i,
            *o <= data@.len(),
            out@ == le32s(data@, start as int, n as nat).take(i as int),
        decreases n - i,
    {
        let v = rd_u32(data, o)?;
        out.push(v);
        i = i + 1;
        assert(out@ =~= le32s(data@, start as int, n as nat).take(i as int));
    }
    assert(out@ =~= le32s(data@, start as int, n as nat));
    Ok(out)
}

fn rd_half_vec(data: &[u8], o: &mut usize, n: usize) -> (r: Result<Vec<u32>, MoeqiError>)
    requires
        *old(o) <= data@.len(),
        n <= 0x100_0000,
    ensures
        *old(o) + 2 * n <= data@.len() ==> r is Ok && r->Ok_0@ == halves(data@, *old(o) as int, n as nat)
            && *final(o) == *old(o) + 2 * n,
        *old(o) + 2 * n > data@.len() ==> r is Err && r->Err_0 is Format,
        *final(o) <= data@.len(),
{
    let start = *o;
    let mut out: Vec<u32> = Vec::new();
    let mut i: usize = 0;
    while i < n
        invariant
            start == *old(o),
            start <= data@.len(),
            i <= n <= 0x100_0000,
            *o == start + 2 * i,
            *o <= data@.len(),
            out@ == halves(data@, start as int, n as nat).take(i as int),
        decreases n - i,
    {
        let half = rd_u16(data, o)?;
        out.push(half_to_f32_bits(half));
        i = i + 1;
        assert(out@ =~= halves(data@, start as int, n as nat).take(i as int));
    }
    assert(out@ =~= halves(data@, start as int, n as nat));
    Ok(out)
}

/// Parses a model-embedding container. Fails with `Format` on short input
/// or a wrong magic, and with `Unsupported` on a version other than 2, an
/// unknown codec id, router weights other than full precision, or an unknown
/// expert weight scheme.
pub fn parse_mqb(bytes: &[u8]) -> (r: Result<Bitstream, MoeqiError>)
    ensures
        mqb_outcome(bytes@) == 1 ==> r is Err && r->Err_0 is Format,
        mqb_outcome(bytes@) == 2 ==> r is Err && r->Err_0 is Unsupported,
        mqb_outcome(bytes@) == 0 ==> r is Ok && mqb_parsed(bytes@, r->Ok_0),
{
    let ghost b = bytes@;
    if bytes.len() < 10 {
        return Err(MoeqiError::Format("too small"));
    }
    if !(bytes[0] == 77 && bytes[1] == 79 && bytes[2] == 69 && bytes[3] == 81 && bytes[4] == 73
        && bytes[5] == 66 && bytes[6] == 73 && bytes[7] == 78) {
        proof {
            if b.take(8) == mqb_magic() {
                assert(b.take(8)[0] == b[0]);
                assert(b.take(8)[7] == b[7]);
            }
        }
        return Err(MoeqiError::Format("bad magic"));
    }
    assert(b.take(8) =~= mqb_magic());
    let mut o: usize = 8;
    let ver = rd_u8(bytes, &mut o)?;
    if ver != VERSION {
        return Err(MoeqiError::Unsupported("version"));
    }
    let _flags = rd_u8(bytes, &mut o)?;
    let codec_id = rd_u8(bytes, &mut o)?;
    let codec = match codec_id {
        0 => Codec::Varint,
        1 => Codec::Huff,
        _ => {
            return Err(MoeqiError::Unsupported("codec"));
        },
    };
    let quant_wr = rd_u8(bytes, &mut o)?;
    if quant_wr != 0 {
        return Err(MoeqiError::Unsupported("quant_wr"));
    }
    let quant_we = rd_u8(bytes, &mut o)?;
    if quant_we > 2 {
        return Err(MoeqiError::Unsupported("quant_we"));
    }
    let w = rd_u16(bytes, &mut o)?;
    let h = rd_u16(bytes, &mut o)?;
    let qstep = rd_u16(bytes, &mut o)?;
    let e = rd_u16(bytes, &mut o)?;
    let residuals_count = rd_u32(bytes, &mut o)?;
    let first_row = rd_bytes(bytes, &mut o, w as usize)?;
    let first_col = rd_bytes(bytes, &mut o, h as usize)?;
    let payload_len = rd_u32(bytes, &mut o)? as usize;
    let payload = rd_bytes(bytes, &mut o, payload_len)?;
    assert(o == off_after_pay(b));
    let mut huff_symbols: Vec<i16> = Vec::new();
    let mut huff_lengths: Vec<u8> = Vec::new();
    if codec_id == 1 {
        let nsym = rd_u16(bytes, &mut o)? as usize;
        let ghost ot = o as int;
        let mut i: usize = 0;
        while i < nsym
            invariant
                b == bytes@,
                mqb_outcome(b) != 2,
                mqb_outcome(b) == 0 ==> ot + 3 * nsym <= b.len() && mqb_fits(b),
                b.len() >= 13 && b[10] == 1,
                ot == off_after_pay(b) + 2,
                nsym == mqb_nsym(b),
                i <= nsym,
                o == ot + 3 * i,
                o <= b.len(),
                huff_symbols@ == Seq::new(nsym as nat, |k: int| read_le16(b, ot + 3 * k) as i16).take(
                    i as int,
                ),
                huff_lengths@ == Seq::new(nsym as nat, |k: int| b[ot + 3 * k + 2]).take(i as int),
            decreases nsym - i,
        {
            let lo = rd_u8(bytes, &mut o)?;
            let hi = rd_u8(bytes, &mut o)?;
            let v: u16 = lo as u16 + 256 * hi as u16;
            let sym = #[verifier::truncate] (v as i16);
            let ln = rd_u8(bytes, &mut o)?;
            huff_symbols.push(sym);
            huff_lengths.push(ln);
            i = i + 1;
            assert(huff_symbols@ =~= Seq::new(nsym as nat, |k: int| read_le16(b, ot + 3 * k) as i16).take(
                i as int,
            ));
            assert(huff_lengths@ =~= Seq::new(nsym as nat, |k: int| b[ot + 3 * k + 2]).take(i as int));
        }
        assert(huff_symbols@ =~= Seq::new(nsym as nat, |k: int| read_le16(b, ot + 3 * k) as i16));
        assert(huff_lengths@ =~= Seq::new(nsym as nat, |k: int| b[ot + 3 * k + 2]));
    }
    assert(o == off_wr(b));
    let nvals = e as usize * FEAT;
    let wr = rd_u32_vec(bytes, &mut o, nvals)?;
    assert(o == off_we(b));
    let we = if quant_we == 0 {
        ExpertWeights::Bits(rd_u32_vec(bytes, &mut o, nvals)?)
    } else if quant_we == 1 {
        ExpertWeights::Bits(rd_half_vec(bytes, &mut o, nvals)?)
    } else {
        let scale = rd_u32(bytes, &mut o)?;
        assert(o == off_we(b) + 4);
        let raw = rd_bytes(bytes, &mut o, nvals)?;
        let mut q: Vec<i8> = Vec::new();
        let mut i: usize = 0;
        while i < raw.len()
            invariant
                b == bytes@,
                i <= raw@.len(),
                0 <= off_we(b),
                off_we(b) + 4 + nvals <= b.len(),
                raw@.len() == nvals,
                raw@ == b.subrange(off_we(b) + 4, off_we(b) + 4 + nvals),
                q@ == signed_bytes(b, off_we(b) + 4, nvals as nat).take(i as int),
            decreases raw@.len() - i,
        {
            assert(raw@[i as int] == b[off_we(b) + 4 + i]);
            q.push(#[verifier::truncate] (raw[i] as i8));
            i = i + 1;
            assert(q@ =~= signed_bytes(b, off_we(b) + 4, nvals as nat).take(i as int));
        }
        assert(q@ =~= signed_bytes(b, off_we(b) + 4, nvals as nat));
        ExpertWeights::Scaled { scale, q }
    };
    Ok(
        Bitstream {
            w,
            h,
            qstep,
            codec,
            first_row,
            first_col,
            residuals_count,
            payload,
            huff_symbols,
            huff_lengths,
            model: Model { e, wr, we },
        },
    )
}

/// Writing this container is not offered: always fails with `Unsupported`.
pub fn pack_mqb(bs: &Bitstream) -> (r: Result<Vec<u8>, MoeqiError>)
    ensures
        r is Err && r->Err_0 is Unsupported,
{
    Err(MoeqiError::Unsupported("packer not implemented"))
}

} // verus!
