use crate::varint::{
    decode_u32_var, encode_u32_var, lemma_parse_step, lemma_parse_varints,
    lemma_varints_take, parse_vars, prepend, var_stop, varint_of, varints,
};
use vstd::prelude::*;
use vstd::slice::slice_subrange;

verus! {

/// Zigzag of a signed value: 0, -1, 1, -2, 2, ... map to 0, 1, 2, 3, 4, ...
pub open spec fn zigzag(x: int) -> int {
    if x >= 0 {
        2 * x
    } else {
        -2 * x - 1
    }
}

/// The inverse of [`zigzag`].
pub open spec fn unzigzag(u: int) -> int {
    if u % 2 == 0 {
        u / 2
    } else {
        -(u / 2) - 1
    }
}

/// `v` limited to the 16-bit signed range.
pub open spec fn clamp_i16(v: int) -> i16 {
    if v < -32768 {
        -32768i16
    } else if v > 32767 {
        32767i16
    } else {
        v as i16
    }
}

/// Zigzag maps the 16-bit signed range one to one onto `0..=65535`, and
/// [`unzigzag`] inverts it: `-32768` goes to 65535, `32767` to 65534, `-1`
/// to 1.
pub proof fn zigzag_round_trip(v: int)
    requires
        -32768 <= v <= 32767,
    ensures
        0 <= zigzag(v) <= 65535,
        unzigzag(zigzag(v)) == v,
        zigzag(-32768) == 65535,
        zigzag(32767) == 65534,
        zigzag(-1) == 1,
{
}

/// The zigzag codes of a list of residuals.
pub open spec fn zigzags(vals: Seq<i16>) -> Seq<u32> {
    vals.map_values(|v: i16| zigzag(v as int) as u32)
}

/// The residuals that a list of zigzag codes stands for.
pub open spec fn unzigzags(us: Seq<u32>) -> Seq<i16> {
    us.map_values(|u: u32| clamp_i16(unzigzag(u as int)))
}

/// The first `n` residuals of a varint stream, where it holds them.
pub open spec fn residuals_of(s: Seq<u8>, n: nat) -> Option<Seq<i16>> {
    match parse_vars(s, n) {
        Some(us) => Some(unzigzags(us)),
        None => None,
    }
}

/// A stream that holds `n` residuals yields exactly `n` of them.
pub proof fn lemma_residuals_len(s: Seq<u8>, n: nat)
    requires
        residuals_of(s, n) is Some,
    ensures
        residuals_of(s, n)->0.len() == n,
{
    lemma_parse_vars_len(s, n);
}

proof fn lemma_parse_vars_len(s: Seq<u8>, n: nat)
    requires
        parse_vars(s, n) is Some,
    ensures
        parse_vars(s, n)->0.len() == n,
    decreases n,
{
    if n > 0 {
        lemma_parse_vars_len(s.skip(var_stop(s) + 1), (n - 1) as nat);
    }
}

pub(crate) fn zigzag_i32(x: i32) -> (r: u32)
    ensures
        r == zigzag(x as int),
{
    if x >= 0 {
        (x as u32) * 2
    } else {
        ((-(x as i64)) * 2 - 1) as u32
    }
}

pub(crate) fn unzigzag_u32(u: u32) -> (r: i32)
    ensures
        r == unzigzag(u as int),
{
    if u % 2 == 0 {
        (u / 2) as i32
    } else {
        -((u / 2) as i32) - 1
    }
}

/// Encodes residuals as zigzag varints, one after another.
pub fn encode_varint_i16(vals: &[i16]) -> (r: Vec<u8>)
    ensures
        r@ == varints(zigzags(vals@)),
{
    let mut out: Vec<u8> = Vec::new();
    let mut k: usize = 0;
    while k < vals.len()
        invariant
            k <= vals@.len(),
            out@ == varints(zigzags(vals@).take(k as int)),
        decreases vals@.len() - k,
    {
        let u = zigzag_i32(vals[k] as i32);
        encode_u32_var(u, &mut out);
        proof {
            lemma_varints_take(zigzags(vals@), k as nat);
        }
        k = k + 1;
    }
    proof {
        assert(zigzags(vals@).take(vals@.len() as int) =~= zigzags(vals@));
    }
    out
}

/// Decodes exactly `count` residuals from a zigzag varint stream; values
/// outside the 16-bit range are clamped. Fails where a varint is cut short or
/// runs past five bytes.
pub fn decode_varint_i16(data: &[u8], count: usize) -> (r: Result<Vec<i16>, ()>)
    ensures
        match residuals_of(data@, count as nat) {
            Some(vals) => r is Ok && r->Ok_0@ == vals,
            None => r is Err,
        },
{
    let mut out: Vec<i16> = Vec::new();
    let mut i: usize = 0;
    let ghost us: Seq<u32> = seq![];
    proof {
        assert(data@.skip(0) =~= data@);
        match parse_vars(data@, count as nat) {
            Some(t) => {
                assert(us + t =~= t);
            },
            None => {},
        }
    }
    while out.len() < count
        invariant
            i <= data@.len(),
            out@.len() <= count,
            us.len() == out@.len(),
            out@ == unzigzags(us),
            parse_vars(data@, count as nat) == prepend(
                us,
                parse_vars(data@.skip(i as int), (count - out@.len()) as nat),
            ),
        decreases count - out@.len(),
    {
        let rest = slice_subrange(data, i, data.len());
        proof {
            assert(rest@ =~= data@.skip(i as int));
        }
        match decode_u32_var(rest) {
            Ok((u, used)) => {
                proof {
                    lemma_parse_step(data@, i as nat, (count - out@.len()) as nat);
                    assert(prepend(us, prepend(seq![u], parse_vars(data@.skip(i + used), (count - out@.len() - 1) as nat)))
                        == prepend(us.push(u), parse_vars(data@.skip(i + used), (count - out@.len() - 1) as nat))) by {
                        assert(us + seq![u] =~= us.push(u));
                        match parse_vars(data@.skip(i + used), (count - out@.len() - 1) as nat) {
                            Some(t) => {
                                assert(us + (seq![u] + t) =~= us.push(u) + t);
                            },
                            None => {},
                        }
                    }
                    us = us.push(u);
                }
                let v = unzigzag_u32(u);
                let c: i16 = if v < -32768 {
                    -32768
                } else if v > 32767 {
                    32767
                } else {
                    v as i16
                };
                out.push(c);
                i = i + used;
                proof {
                    assert(out@ =~= unzigzags(us));
                }
            },
            Err(_) => {
                return Err(());
            },
        }
    }
    proof {
        assert(us + seq![] =~= us);
    }
    Ok(out)
}

/// Decoding the encoding of any residual list gives it back, and dropping the
/// last byte of a non-empty encoding makes the decode fail.
pub proof fn residual_stream_round_trip(vals: Seq<i16>)
    ensures
        residuals_of(varints(zigzags(vals)), vals.len()) == Some(vals),
        vals.len() > 0 ==> residuals_of(varints(zigzags(vals)).drop_last(), vals.len()) is None,
{
    let zs = zigzags(vals);
    lemma_parse_varints(zs, seq![]);
    assert(varints(zs) + seq![] =~= varints(zs));
    assert forall|k: int| 0 <= k < vals.len() implies unzigzags(zs)[k] == vals[k] by {
        let v = vals[k] as int;
        assert(zs[k] == zigzag(v) as u32);
    }
    assert(unzigzags(zs) =~= vals);
    if vals.len() > 0 {
        lemma_truncated_fails(zs);
    }
}

proof fn lemma_truncated_fails(us: Seq<u32>)
    requires
        us.len() > 0,
    ensures
        parse_vars(varints(us).drop_last(), us.len()) is None,
    decreases us.len(),
{
    let t = us.drop_first();
    let head = varint_of(us[0] as nat);
    if t.len() == 0 {
        assert(varints(t) == Seq::<u8>::empty());
        assert(varints(us).drop_last() =~= head.drop_last());
        crate::varint::lemma_cut_varint_fails(us[0] as nat);
    } else {
        lemma_truncated_fails(t);
        let s = varints(us).drop_last();
        assert(s =~= head + varints(t).drop_last());
        crate::varint::lemma_varint_round_trip(us[0] as nat, varints(t).drop_last());
        assert(s.skip(var_stop(s) + 1) =~= varints(t).drop_last());
    }
}

} // verus!
