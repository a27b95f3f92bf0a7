use crate::bitstream::{Bitstream, Codec};
use crate::codec_varint::{decode_varint_i16, residuals_of};
use crate::color::clamp_byte;
use crate::error::MoeqiError;
use crate::huff::{decode_huff_i16, pairs_sorted, table_ok, table_pairs, tree_of, walk};
use vstd::prelude::*;

verus! {

/// The residual count that a `w` x `h` plane calls for.
pub open spec fn inner_count(w: nat, h: nat) -> nat {
    (if w > 0 { w - 1 } else { 0 }) as nat * (if h > 0 { h - 1 } else { 0 }) as nat
}

/// The plane before prediction: zeros, with the top row and then the left
/// column copied in (the column wins at the corner).
pub open spec fn seeded(row: Seq<u8>, col: Seq<u8>, w: nat, h: nat) -> Seq<u8> {
    Seq::new(
        w * h,
        |i: int|
            if w > 0 && i % (w as int) == 0 {
                col[i / (w as int)]
            } else if i < w {
                row[i]
            } else {
                0u8
            },
    )
}

/// The borders have the plane's width and height, and the residual count
/// is that of the interior.
pub open spec fn shape_ok(bs: Bitstream) -> bool {
    bs.first_row@.len() == bs.w && bs.first_col@.len() == bs.h && bs.residuals_count
        == inner_count(bs.w as nat, bs.h as nat)
}

/// The residuals a Huffman-coded stream holds under the canonical tree of
/// some ordering `s` of its table.
pub open spec fn huff_residuals(bs: Bitstream, s: Seq<(u8, i16)>) -> Option<Seq<i16>> {
    walk(tree_of(s, s.len()), bs.payload@, 0, 0, seq![], bs.residuals_count as nat)
}

/// The left, upper and upper-left neighbours of pixel `(x, y)`; a missing
/// neighbour is replaced by the pixel itself.
pub open spec fn neighbors_spec(x: nat, y: nat, w: nat, luma: Seq<u8>) -> (u8, u8, u8) {
    let idx = (y * w + x) as int;
    let cur = luma[idx];
    (
        if x > 0 { luma[idx - 1] } else { cur },
        if y > 0 { luma[idx - w] } else { cur },
        if x > 0 && y > 0 { luma[idx - w - 1] } else { cur },
    )
}

/// The left, upper and upper-left neighbours of pixel `(x, y)` of a plane of
/// width `w`, each replaced by the pixel itself where it would fall outside.
pub fn neighbors(x: usize, y: usize, w: usize, luma: &[u8]) -> (r: (u8, u8, u8))
    requires
        x < w,
        y * w + x < luma@.len(),
    ensures
        r == neighbors_spec(x as nat, y as nat, w as nat, luma@),
{
    let n = luma.len();
    assert(y * w <= y * w + x < n) by (nonlinear_arith)
        requires
            y * w + x < n,
            x < w,
    ;
    let idx = y * w + x;
    let cur = luma[idx];
    assert(y > 0 ==> idx >= w + x) by (nonlinear_arith)
        requires
            idx == y * w + x,
    ;
    let l = if x > 0 {
        luma[idx - 1]
    } else {
        cur
    };
    let u = if y > 0 {
        luma[idx - w]
    } else {
        cur
    };
    let ul = if x > 0 && y > 0 {
        luma[idx - w - 1]
    } else {
        cur
    };
    (l, u, ul)
}

/// Reconstruction of the luma plane of a model-embedding container, one
/// interior pixel at a time in raster order. The caller computes each
/// prediction from the neighbours that [`LumaDecoder::context`] reports and
/// hands it to [`LumaDecoder::push`].
pub struct LumaDecoder {
    w: usize,
    h: usize,
    qstep: i64,
    residuals: Vec<i16>,
    recon: Vec<u8>,
    x: usize,
    y: usize,
    ri: usize,
}

impl LumaDecoder {
    pub closed spec fn spec_w(&self) -> nat {
        self.w as nat
    }

    pub closed spec fn spec_h(&self) -> nat {
        self.h as nat
    }

    pub closed spec fn spec_qstep(&self) -> int {
        self.qstep as int
    }

    pub closed spec fn spec_residuals(&self) -> Seq<i16> {
        self.residuals@
    }

    /// The plane as reconstructed so far.
    pub closed spec fn spec_recon(&self) -> Seq<u8> {
        self.recon@
    }

    /// How many interior pixels are done.
    pub closed spec fn spec_done(&self) -> nat {
        self.ri as nat
    }

    /// The interior pixel to decode next.
    pub closed spec fn spec_pos(&self) -> (nat, nat) {
        (self.x as nat, self.y as nat)
    }

    pub closed spec fn wf(&self) -> bool {
        &&& self.recon@.len() == self.w * self.h
        &&& self.residuals@.len() == inner_count(self.w as nat, self.h as nat)
        &&& 0 <= self.qstep <= 65535
        &&& self.ri <= self.residuals@.len()
        &&& self.ri < self.residuals@.len() ==> {
            &&& 1 <= self.x < self.w
            &&& 1 <= self.y < self.h
            &&& self.ri == (self.y - 1) * (self.w - 1) + (self.x - 1)
        }
    }

    /// Whether every interior pixel is done.
    pub open spec fn spec_finished(&self) -> bool {
        self.spec_done() >= self.spec_residuals().len()
    }

    /// Checks the borders and the residual count, decodes the residuals with
    /// the stream's coder and seeds the plane with the borders. Fails with
    /// `Format` on a border or count mismatch and with `Decode` where the
    /// residual stream does not decode.
    pub fn new(bs: &Bitstream) -> (r: Result<LumaDecoder, MoeqiError>)
        ensures
            !shape_ok(*bs) ==> r is Err && r->Err_0 is Format,
            shape_ok(*bs) && bs.codec == Codec::Varint ==> match residuals_of(
                bs.payload@,
                bs.residuals_count as nat,
            ) {
                Some(v) => r is Ok && r->Ok_0.spec_residuals() == v,
                None => r is Err && r->Err_0 is Decode,
            },
            shape_ok(*bs) && bs.codec == Codec::Huff && !table_ok(bs.huff_symbols@, bs.huff_lengths@)
                ==> r is Err && r->Err_0 is Decode,
            shape_ok(*bs) && bs.codec == Codec::Huff && table_ok(bs.huff_symbols@, bs.huff_lengths@)
                ==> exists|s: Seq<(u8, i16)>|
                pairs_sorted(s) && s.to_multiset() == table_pairs(
                    bs.huff_symbols@,
                    bs.huff_lengths@,
                ).to_multiset() && match huff_residuals(*bs, s) {
                    Some(v) => r is Ok && r->Ok_0.spec_residuals() == v,
                    None => r is Err && r->Err_0 is Decode,
                },
            r is Ok ==> r->Ok_0.wf() && r->Ok_0.spec_w() == bs.w && r->Ok_0.spec_h() == bs.h
                && r->Ok_0.spec_qstep() == bs.qstep && r->Ok_0.spec_done() == 0
                && r->Ok_0.spec_recon() == seeded(bs.first_row@, bs.first_col@, bs.w as nat, bs.h as nat),
            r is Ok && !r->Ok_0.spec_finished() ==> r->Ok_0.spec_pos() == (1nat, 1nat),
    {
        let w = bs.w as usize;
        let h = bs.h as usize;
        if bs.first_row.len() != w {
            return Err(MoeqiError::Format("first_row length"));
        }
        if bs.first_col.len() != h {
            return Err(MoeqiError::Format("first_col length"));
        }
        let wm: usize = if w > 0 {
            w - 1
        } else {
            0
        };
        let hm: usize = if h > 0 {
            h - 1
        } else {
            0
        };
        assert(wm * hm < 0x1_0000_0000) by (nonlinear_arith)
            requires
                wm < 65536,
                hm < 65536,
        ;
        let expected = (wm * hm) as u32;
        if bs.residuals_count != expected {
            return Err(MoeqiError::Format("residuals_count mismatch"));
        }
        let ghost mut s0: Seq<(u8, i16)> = seq![];
        let residuals = match bs.codec {
            Codec::Varint => match decode_varint_i16(bs.payload.as_slice(), bs.residuals_count as usize) {
                Ok(v) => {
                    proof {
                        crate::codec_varint::lemma_residuals_len(bs.payload@, bs.residuals_count as nat);
                    }
                    v
                },
                Err(()) => {
                    return Err(MoeqiError::Decode("varint"));
                },
            },
            Codec::Huff => {
                let res = decode_huff_i16(
                    bs.payload.as_slice(),
                    bs.residuals_count as usize,
                    bs.huff_symbols.as_slice(),
                    bs.huff_lengths.as_slice(),
                );
                proof {
                    if table_ok(bs.huff_symbols@, bs.huff_lengths@) {
                        s0 = choose|s: Seq<(u8, i16)>|
                            pairs_sorted(s) && s.to_multiset() == table_pairs(
                                bs.huff_symbols@,
                                bs.huff_lengths@,
                            ).to_multiset() && match walk(
                                tree_of(s, s.len()),
                                bs.payload@,
                                0,
                                0,
                                seq![],
                                bs.residuals_count as nat,
                            ) {
                                Some(v) => res is Ok && res->Ok_0@ == v,
                                None => res is Err,
                            };
                        assert(pairs_sorted(s0));
                        if res is Ok {
                            crate::huff::lemma_walk_len(
                                tree_of(s0, s0.len()),
                                bs.payload@,
                                0,
                                0,
                                seq![],
                                bs.residuals_count as nat,
                            );
                        }
                    }
                }
                match res {
                    Ok(v) => v,
                    Err(()) => {
                        return Err(MoeqiError::Decode("huff"));
                    },
                }
            },
        };
        let ghost target = seeded(bs.first_row@, bs.first_col@, w as nat, h as nat);
        assert(w * h <= 65535 * 65535) by (nonlinear_arith)
            requires
                w <= 65535,
                h <= 65535,
        ;
        let n = w * h;
        let mut recon: Vec<u8> = Vec::new();
        let mut i: usize = 0;
        while i < n
            invariant
                n == w * h,
                i <= n,
                w == bs.w,
                bs.first_row@.len() == w,
                bs.first_col@.len() == h,
                target == seeded(bs.first_row@, bs.first_col@, w as nat, h as nat),
                recon@ == target.take(i as int),
            decreases n - i,
        {
            let v = if w > 0 && i % w == 0 {
                proof {
                    assert(i / w < h) by (nonlinear_arith)
                        requires
                            i < w * h,
                            w > 0,
                    ;
                }
                bs.first_col[i / w]
            } else if i < w {
                bs.first_row[i]
            } else {
                0
            };
            recon.push(v);
            i = i + 1;
            assert(recon@ =~= target.take(i as int));
        }
        assert(recon@ =~= target);
        assert(residuals@.len() == inner_count(w as nat, h as nat));
        assert(residuals@.len() > 0 ==> w >= 2 && h >= 2) by (nonlinear_arith)
            requires
                residuals@.len() == wm * hm,
                wm == (if w > 0 { w - 1 } else { 0 }),
                hm == (if h > 0 { h - 1 } else { 0 }),
        ;
        Ok(
            LumaDecoder {
                w,
                h,
                qstep: bs.qstep as i64,
                residuals,
                recon,
                x: 1,
                y: 1,
                ri: 0,
            },
        )
    }

    /// While pixels remain, the next one is interior: neither in the top row
    /// nor in the left column, and inside the plane.
    pub proof fn lemma_pos_interior(&self)
        requires
            self.wf(),
            !self.spec_finished(),
        ensures
            1 <= self.spec_pos().0 < self.spec_w(),
            1 <= self.spec_pos().1 < self.spec_h(),
            self.spec_recon().len() == self.spec_w() * self.spec_h(),
    {
    }

    /// Whether every interior pixel is done.
    pub fn finished(&self) -> (r: bool)
        requires
            self.wf(),
        ensures
            r == self.spec_finished(),
    {
        self.ri >= self.residuals.len()
    }

    /// The left, upper and upper-left neighbours of the pixel to decode
    /// next; `None` once every interior pixel is done.
    pub fn context(&self) -> (r: Option<(u8, u8, u8)>)
        requires
            self.wf(),
        ensures
            self.spec_finished() ==> r is None,
            !self.spec_finished() ==> r == Some(
                neighbors_spec(self.spec_pos().0, self.spec_pos().1, self.spec_w(), self.spec_recon()),
            ),
    {
        if self.ri >= self.residuals.len() {
            return None;
        }
        assert(self.y * self.w + self.x < self.w * self.h) by (nonlinear_arith)
            requires
                self.y < self.h,
                self.x < self.w,
        ;
        Some(neighbors(self.x, self.y, self.w, self.recon.as_slice()))
    }

    /// Sets the pixel to decode next to `pred` plus its residual times the
    /// quantizer step, clamped to a byte, and moves on in raster order.
    pub fn push(&mut self, pred: i32)
        requires
            old(self).wf(),
            !old(self).spec_finished(),
        ensures
            final(self).wf(),
            final(self).spec_w() == old(self).spec_w(),
            final(self).spec_h() == old(self).spec_h(),
            final(self).spec_qstep() == old(self).spec_qstep(),
            final(self).spec_residuals() == old(self).spec_residuals(),
            final(self).spec_done() == old(self).spec_done() + 1,
            1 <= old(self).spec_pos().0 < old(self).spec_w(),
            1 <= old(self).spec_pos().1 < old(self).spec_h(),
            forall|i: int|
                0 <= i < old(self).spec_recon().len() && (i < old(self).spec_w() || i % (old(
                    self,
                ).spec_w() as int) == 0) ==> #[trigger] final(self).spec_recon()[i] == old(
                    self,
                ).spec_recon()[i],
            ({
                let (x, y) = old(self).spec_pos();
                let q = old(self).spec_residuals()[old(self).spec_done() as int];
                &&& final(self).spec_recon() == old(self).spec_recon().update(
                    (y * old(self).spec_w() + x) as int,
                    clamp_byte(pred + q * old(self).spec_qstep()) as u8,
                )
                &&& !final(self).spec_finished() ==> final(self).spec_pos() == if x + 1 < old(
                    self,
                ).spec_w() {
                    (x + 1, y)
                } else {
                    (1nat, y + 1)
                }
            }),
    {
        let n = self.recon.len();
        assert(self.y * self.w <= self.y * self.w + self.x < self.w * self.h) by (nonlinear_arith)
            requires
                self.y < self.h,
                self.x < self.w,
        ;
        let idx = self.y * self.w + self.x;
        proof {
            vstd::arithmetic::div_mod::lemma_fundamental_div_mod_converse(
                idx as int,
                self.w as int,
                self.y as int,
                self.x as int,
            );
            assert(idx >= self.w) by (nonlinear_arith)
                requires
                    idx == self.y * self.w + self.x,
                    self.y >= 1,
            ;
        }
        let q = self.residuals[self.ri] as i64;
        assert(-32768 * 65535 <= q * self.qstep <= 32767 * 65535) by (nonlinear_arith)
            requires
                -32768 <= q <= 32767,
                0 <= self.qstep <= 65535,
        ;
        let v = pred as i64 + q * self.qstep;
        let c: u8 = if v < 0 {
            0
        } else if v > 255 {
            255
        } else {
            v as u8
        };
        self.recon.set(idx, c);
        let rl = self.residuals.len();
        let ghost old_ri = self.ri;
        let ghost ox = self.x;
        let ghost oy = self.y;
        self.ri = self.ri + 1;
        if self.x + 1 < self.w {
            self.x = self.x + 1;
        } else {
            self.x = 1;
            self.y = self.y + 1;
        }
        proof {
            if self.ri < self.residuals@.len() {
                assert(self.ri == (self.y - 1) * (self.w - 1) + (self.x - 1)) by (nonlinear_arith)
                    requires
                        self.ri == old_ri + 1,
                        old_ri == (oy - 1) * (self.w - 1) + (ox - 1),
                        1 <= ox < self.w,
                        (ox + 1 < self.w && self.x == ox + 1 && self.y == oy) || (ox + 1 >= self.w
                            && self.x == 1 && self.y == oy + 1),
                ;
                assert(self.y < self.h) by (nonlinear_arith)
                    requires
                        self.ri < (self.w - 1) * (self.h - 1),
                        self.ri == (self.y - 1) * (self.w - 1) + (self.x - 1),
                        1 <= self.x < self.w,
                        1 <= self.y,
                ;
            }
        }
    }

    /// The reconstructed plane.
    pub fn finish(self) -> (r: Vec<u8>)
        ensures
            r@ == self.spec_recon(),
    {
        self.recon
    }
}

} // verus!
