//! Predictive still-image codec: a reversible colour transform, left-neighbour
//! and router/expert prediction, a signed uniform quantizer, zigzag varint and
//! canonical Huffman residual coding, and two binary containers.
use vstd::prelude::*;

pub mod binary;
pub mod bitstream;
pub mod codec;
pub mod codec_varint;
pub mod color;
pub mod decode;
pub mod error;
pub mod huff;
pub mod model;
pub mod mqb;
pub mod planar;
pub mod quant;
pub mod types;
pub mod varint;

pub use bitstream::{Bitstream, Codec};
pub use error::MoeqiError;
pub use model::{ExpertWeights, Model};
pub use quant::SignedUniformQuant;
pub use types::{CodecConfig, CodecKind, ColorTransform, Image, PixelFormat};

verus! {

/// Encodes `img` into the `MOEQI1` container; see [`binary::encode`].
pub fn encode(img: &Image, cfg: CodecConfig) -> (r: Result<Vec<u8>, MoeqiError>)
    ensures
        !img.wf() || cfg.quant_bits == 1 ==> r is Err && r->Err_0 is InvalidData,
        img.wf() && cfg.quant_bits != 1 && codec::encoded_payload(*img, cfg).len() <= u32::MAX ==> r
            is Ok && r->Ok_0@ == binary::container(*img, cfg, codec::encoded_payload(*img, cfg)),
        img.wf() && cfg.quant_bits != 1 && codec::encoded_payload(*img, cfg).len() > u32::MAX ==> r
            is Err && r->Err_0 is InvalidData,
{
    binary::encode(img, cfg)
}

/// Decodes an `MOEQI1` container into the image and the configuration it
/// was written with; see [`binary::decode`].
pub fn decode(bytes: &[u8]) -> (r: Result<(Image, CodecConfig), MoeqiError>)
    ensures
        bytes@.len() < 22 ==> r is Err && r->Err_0 is InvalidData,
        bytes@.len() >= 22 && bytes@.take(6) != binary::magic() ==> r is Err && r->Err_0 is InvalidData,
        bytes@.len() >= 22 && bytes@.take(6) == binary::magic() && (binary::format_of_tag(bytes@[14])
            is None || binary::transform_of_tag(bytes@[17]) is None) ==> r is Err && r->Err_0 is InvalidData,
        ({
            let b = bytes@;
            let pay_len = binary::read_le32(b, 18) as int;
            b.len() >= 22 && b.take(6) == binary::magic() && binary::format_of_tag(b[14]) is Some
                && binary::transform_of_tag(b[17]) is Some && b.len() >= 22 + pay_len ==> r is Ok
                ==> r->Ok_0.1 == binary::header_config(b)
        }),
        ({
            let b = bytes@;
            let pay_len = binary::read_le32(b, 18) as int;
            b.len() >= 22 && b.take(6) == binary::magic() && binary::format_of_tag(b[14]) is Some
                && binary::transform_of_tag(b[17]) is Some ==> if b.len() < 22 + pay_len {
                r == Err::<(Image, CodecConfig), MoeqiError>(MoeqiError::Eof)
            } else {
                codec::payload_decodes_to(
                    b.subrange(22, 22 + pay_len),
                    binary::read_le32(b, 6),
                    binary::read_le32(b, 10),
                    binary::format_of_tag(b[14])->0,
                    binary::header_config(b),
                    match r {
                        Ok((img, _)) => Ok(img),
                        Err(e) => Err(e),
                    },
                )
            }
        }),
{
    binary::decode(bytes)
}

} // verus!
