use crate::error::MoeqiError;
use vstd::prelude::*;

verus! {

/// `128^n`.
pub open spec fn pow128(n: nat) -> nat
    decreases n,
{
    if n == 0 {
        1
    } else {
        128 * pow128((n - 1) as nat)
    }
}

/// The LEB128 bytes of `v`: seven bits per byte, low bits first, the high
/// bit set on every byte but the last.
pub open spec fn varint_of(v: nat) -> Seq<u8>
    decreases v,
{
    if v < 128 {
        seq![v as u8]
    } else {
        seq![(v % 128 + 128) as u8] + varint_of(v / 128)
    }
}

/// The LEB128 bytes of each value in turn.
pub open spec fn varints(vals: Seq<u32>) -> Seq<u8>
    decreases vals.len(),
{
    if vals.len() == 0 {
        seq![]
    } else {
        varint_of(vals[0] as nat) + varints(vals.drop_first())
    }
}

/// The payload bits of the first `n` bytes of `s`, low bits first.
pub open spec fn var_value(s: Seq<u8>, n: nat) -> nat
    decreases n,
{
    if n == 0 || s.len() == 0 {
        0
    } else {
        (s[0] % 128) as nat + 128 * var_value(s.drop_first(), (n - 1) as nat)
    }
}

/// The index of the first byte at or after `i`, among the first five bytes of
/// `s`, whose continuation bit is clear; -1 where there is none.
pub open spec fn var_stop_from(s: Seq<u8>, i: nat) -> int
    decreases 5 - i,
{
    if i >= 5 || i >= s.len() {
        -1
    } else if s[i as int] < 128 {
        i as int
    } else {
        var_stop_from(s, i + 1)
    }
}

/// The index of the byte that ends the varint at the front of `s`, or -1
/// where it is cut short or runs past five bytes.
pub open spec fn var_stop(s: Seq<u8>) -> int {
    var_stop_from(s, 0)
}

/// The value of the varint at the front of `s`, truncated to 32 bits.
pub open spec fn var_decoded(s: Seq<u8>) -> u32 {
    (var_value(s, (var_stop(s) + 1) as nat) % 0x1_0000_0000) as u32
}

/// The first `n` varints of `s`, or `None` where one of them is cut short or
/// runs past five bytes.
pub open spec fn parse_vars(s: Seq<u8>, n: nat) -> Option<Seq<u32>>
    decreases n,
{
    if n == 0 {
        Some(seq![])
    } else if var_stop(s) < 0 {
        None
    } else {
        match parse_vars(s.skip(var_stop(s) + 1), (n - 1) as nat) {
            Some(rest) => Some(seq![var_decoded(s)] + rest),
            None => None,
        }
    }
}

/// Where `parse_vars(s, n)` fails: whether the failing varint ran past five
/// bytes (rather than being cut short by the end of `s`).
pub open spec fn parse_overflows(s: Seq<u8>, n: nat) -> bool
    decreases n,
{
    if n == 0 {
        false
    } else if var_stop(s) < 0 {
        s.len() >= 5
    } else {
        parse_overflows(s.skip(var_stop(s) + 1), (n - 1) as nat)
    }
}

/// The bytes that the first `n` varints of `s` take up, where they parse.
pub open spec fn parse_len(s: Seq<u8>, n: nat) -> nat
    decreases n,
{
    if n == 0 || var_stop(s) < 0 {
        0
    } else {
        (var_stop(s) + 1) as nat + parse_len(s.skip(var_stop(s) + 1), (n - 1) as nat)
    }
}

proof fn lemma_var_value_step(s: Seq<u8>, i: nat)
    requires
        i < s.len(),
    ensures
        var_value(s, i + 1) == var_value(s, i) + (s[i as int] % 128) as nat * pow128(i),
    decreases i,
{
    if i == 0 {
        assert(var_value(s.drop_first(), 0) == 0);
        assert(pow128(0) == 1);
    } else {
        assert(pow128(i) == 128 * pow128((i - 1) as nat));
        lemma_var_value_step(s.drop_first(), (i - 1) as nat);
        let a = var_value(s.drop_first(), (i - 1) as nat);
        let d = (s[i as int] % 128) as nat;
        let p = pow128((i - 1) as nat);
        assert(s.drop_first()[i - 1] == s[i as int]);
        assert(128 * (a + d * p) == 128 * a + d * (128 * p)) by (nonlinear_arith);
        assert(var_value(s, i + 1) == (s[0] % 128) as nat + 128 * var_value(s.drop_first(), i));
        assert(var_value(s, i) == (s[0] % 128) as nat + 128 * a);
    }
}

proof fn lemma_var_stop_from_scan(s: Seq<u8>, i: nat, j: nat)
    requires
        i <= j < 5,
        j < s.len(),
        s[j as int] < 128,
        forall|k: int| i <= k < j ==> s[k] >= 128,
    ensures
        var_stop_from(s, i) == j,
    decreases j - i,
{
    if i < j {
        lemma_var_stop_from_scan(s, i + 1, j);
    }
}

proof fn lemma_var_stop_from_none(s: Seq<u8>, i: nat)
    requires
        i <= 5,
        forall|k: int| i <= k < 5 && k < s.len() ==> s[k] >= 128,
    ensures
        var_stop_from(s, i) == -1,
    decreases 5 - i,
{
    if i < 5 && i < s.len() {
        lemma_var_stop_from_none(s, i + 1);
    }
}

/// The varint of a 32-bit value at the front of a stream decodes to it and
/// takes exactly its own bytes.
pub proof fn lemma_varint_round_trip(v: nat, rest: Seq<u8>)
    requires
        v < 0x1_0000_0000,
    ensures
        1 <= varint_of(v).len() <= 5,
        var_stop(varint_of(v) + rest) == varint_of(v).len() - 1,
        var_value(varint_of(v) + rest, varint_of(v).len()) == v,
        var_decoded(varint_of(v) + rest) == v,
{
    assert(pow128(5) == 0x8_0000_0000) by {
        reveal_with_fuel(pow128, 6);
    }
    lemma_varint_shape(v, rest, 5);
    let s = varint_of(v) + rest;
    let n = varint_of(v).len();
    lemma_var_stop_from_scan(s, 0, (n - 1) as nat);
}

proof fn lemma_varint_shape(v: nat, rest: Seq<u8>, k: nat)
    requires
        v < pow128(k),
        k >= 1,
    ensures
        1 <= varint_of(v).len() <= k,
        varint_of(v)[varint_of(v).len() - 1] < 128,
        forall|i: int| 0 <= i < varint_of(v).len() - 1 ==> varint_of(v)[i] >= 128,
        var_value(varint_of(v) + rest, varint_of(v).len()) == v,
    decreases v,
{
    let s = varint_of(v) + rest;
    if v < 128 {
        assert(s.drop_first() == rest);
        assert(var_value(rest, 0) == 0);
    } else {
        if k == 1 {
            assert(pow128(1) == 128 * pow128(0));
        }
        assert(k >= 2);
        assert(v / 128 < pow128((k - 1) as nat)) by (nonlinear_arith)
            requires
                v < 128 * pow128((k - 1) as nat),
        ;
        lemma_varint_shape(v / 128, rest, (k - 1) as nat);
        let t = varint_of(v / 128);
        assert(varint_of(v) == seq![(v % 128 + 128) as u8] + t);
        assert(s.drop_first() == t + rest);
        assert(varint_of(v)[varint_of(v).len() - 1] == t[t.len() - 1]);
        assert forall|i: int| 0 <= i < varint_of(v).len() - 1 implies varint_of(v)[i] >= 128 by {
            if i > 0 {
                assert(varint_of(v)[i] == t[i - 1]);
            }
        }
        assert(v == v % 128 + 128 * (v / 128));
    }
}

/// The varints of a list are those of its first `k` values followed by
/// the rest.
pub proof fn lemma_varints_take(vals: Seq<u32>, k: nat)
    requires
        k < vals.len(),
    ensures
        varints(vals.take(k as int + 1)) == varints(vals.take(k as int)) + varint_of(vals[k as int] as nat),
    decreases k,
{
    if k == 0 {
        assert(vals.take(1).drop_first() =~= seq![]);
        assert(varints(vals.take(0)) == Seq::<u8>::empty());
        assert(varints(seq![]) == Seq::<u8>::empty());
        assert(varints(vals.take(1)) == varint_of(vals[0] as nat) + varints(vals.take(1).drop_first()));
        assert(varints(vals.take(1)) =~= varint_of(vals[0] as nat));
    } else {
        let t = vals.drop_first();
        lemma_varints_take(t, (k - 1) as nat);
        assert(vals.take(k as int + 1).drop_first() =~= t.take(k as int));
        assert(vals.take(k as int).drop_first() =~= t.take(k - 1));
        assert(t[k - 1] == vals[k as int]);
        assert(varints(vals.take(k as int + 1)) == varint_of(vals[0] as nat) + varints(t.take(k as int)));
        assert(varints(vals.take(k as int)) == varint_of(vals[0] as nat) + varints(t.take(k - 1)));
        assert(varints(vals.take(k as int + 1)) =~= varints(vals.take(k as int)) + varint_of(vals[k as int] as nat));
    }
}

/// Parsing the varints of a list, whatever follows them, gives the list back
/// and takes exactly their bytes.
pub proof fn lemma_parse_varints(vals: Seq<u32>, rest: Seq<u8>)
    ensures
        parse_vars(varints(vals) + rest, vals.len()) == Some(vals),
        parse_len(varints(vals) + rest, vals.len()) == varints(vals).len(),
    decreases vals.len(),
{
    if vals.len() > 0 {
        let t = vals.drop_first();
        let head = varint_of(vals[0] as nat);
        let s = varints(vals) + rest;
        lemma_parse_varints(t, rest);
        lemma_varint_round_trip(vals[0] as nat, varints(t) + rest);
        assert(s =~= head + (varints(t) + rest));
        assert(s.skip(var_stop(s) + 1) =~= varints(t) + rest);
        assert(seq![vals[0]] + t =~= vals);
    } else {
        assert(varints(vals) == Seq::<u8>::empty());
    }
}

/// Appends the LEB128 bytes of `v` to `out`.
pub fn encode_u32_var(value: u32, out: &mut Vec<u8>)
    ensures
        final(out)@ == old(out)@ + varint_of(value as nat),
{
    let mut v = value;
    while v >= 0x80
        invariant
            out@ + varint_of(v as nat) == old(out)@ + varint_of(value as nat),
        decreases v,
    {
        let ghost before = out@;
        out.push((v % 128 + 128) as u8);
        proof {
            assert(varint_of(v as nat) == seq![(v % 128 + 128) as u8] + varint_of((v / 128) as nat));
            assert(before + varint_of(v as nat) =~= out@ + varint_of((v / 128) as nat));
        }
        v = v / 128;
    }
    out.push(v as u8);
    proof {
        assert(varint_of(v as nat) == seq![v as u8]);
    }
}

/// Reads one varint from the front of `input`: its value (bits past the
/// thirty-second dropped) and the bytes it took. Fails with `InvalidData`
/// where five bytes all carry the continuation bit, and with `Eof` where the
/// input ends first.
pub fn decode_u32_var(input: &[u8]) -> (r: Result<(u32, usize), MoeqiError>)
    ensures
        var_stop(input@) >= 0 ==> r == Ok::<(u32, usize), MoeqiError>(
            (var_decoded(input@), (var_stop(input@) + 1) as usize),
        ),
        var_stop(input@) < 0 && input@.len() >= 5 ==> r is Err && r->Err_0 is InvalidData,
        var_stop(input@) < 0 && input@.len() < 5 ==> r == Err::<(u32, usize), MoeqiError>(
            MoeqiError::Eof,
        ),
{
    proof {
        assert(pow128(4) == 0x1000_0000) by {
            reveal_with_fuel(pow128, 5);
        }
    }
    let mut i: usize = 0;
    let mut val: u64 = 0;
    let mut mult: u64 = 1;
    while i < input.len()
        invariant
            i <= 4,
            i <= input@.len(),
            val == var_value(input@, i as nat),
            val < pow128(i as nat),
            mult == pow128(i as nat),
            mult <= pow128(4),
            forall|k: int| 0 <= k < i ==> input@[k] >= 128,
        decreases input@.len() - i,
    {
        let b = input[i];
        proof {
            lemma_var_value_step(input@, i as nat);
            assert(pow128(4) == 0x1000_0000) by {
                reveal_with_fuel(pow128, 5);
            }
            assert((b % 128) as nat * mult + val < 128 * mult) by (nonlinear_arith)
                requires
                    val < mult,
                    b % 128 < 128,
            ;
            assert(pow128(i as nat + 1) == 128 * pow128(i as nat));
        }
        val = val + (b % 128) as u64 * mult;
        if b < 128 {
            proof {
                lemma_var_stop_from_scan(input@, 0, i as nat);
            }
            return Ok(((val % 0x1_0000_0000) as u32, i + 1));
        }
        if i == 4 {
            proof {
                lemma_var_stop_from_none(input@, 0);
            }
            return Err(MoeqiError::InvalidData("varint overflow"));
        }
        i = i + 1;
        mult = mult * 128;
        proof {
            if i < 4 {
                assert(pow128(4) == 128 * pow128(3));
                assert(pow128(3) == 128 * pow128(2));
                assert(pow128(2) == 128 * pow128(1));
                assert(pow128(1) == 128 * pow128(0));
            }
        }
    }
    proof {
        lemma_var_stop_from_none(input@, 0);
    }
    Err(MoeqiError::Eof)
}

/// `o` with `p` put in front of the values it holds.
pub open spec fn prepend(p: Seq<u32>, o: Option<Seq<u32>>) -> Option<Seq<u32>> {
    match o {
        Some(rest) => Some(p + rest),
        None => None,
    }
}

/// A 32-bit value's varint without its last byte is cut short.
pub proof fn lemma_cut_varint_fails(v: nat)
    requires
        v < 0x1_0000_0000,
    ensures
        var_stop(varint_of(v).drop_last()) < 0,
{
    assert(pow128(5) == 0x8_0000_0000) by {
        reveal_with_fuel(pow128, 6);
    }
    lemma_varint_shape(v, seq![], 5);
    lemma_var_stop_from_none(varint_of(v).drop_last(), 0);
}

/// One step of a sequential parse from offset `i`.
pub proof fn lemma_parse_step(s: Seq<u8>, i: nat, n: nat)
    requires
        i <= s.len(),
        n >= 1,
        var_stop(s.skip(i as int)) >= 0,
    ensures
        ({
            let j = i + var_stop(s.skip(i as int)) + 1;
            &&& j <= s.len()
            &&& parse_vars(s.skip(i as int), n) == prepend(
                seq![var_decoded(s.skip(i as int))],
                parse_vars(s.skip(j), (n - 1) as nat),
            )
            &&& parse_overflows(s.skip(i as int), n) == parse_overflows(s.skip(j), (n - 1) as nat)
            &&& parse_len(s.skip(i as int), n) == j - i + parse_len(s.skip(j), (n - 1) as nat)
        }),
{
    let t = s.skip(i as int);
    let j = i + var_stop(t) + 1;
    lemma_var_stop_bounds(t, 0);
    assert(t.skip(var_stop(t) + 1) =~= s.skip(j));
}

proof fn lemma_var_stop_bounds(s: Seq<u8>, i: nat)
    ensures
        var_stop_from(s, i) < s.len(),
        var_stop_from(s, i) >= 0 ==> var_stop_from(s, i) >= i && var_stop_from(s, i) < 5,
    decreases 5 - i,
{
    if i < 5 && i < s.len() && s[i as int] >= 128 {
        lemma_var_stop_bounds(s, i + 1);
    }
}

} // verus!
