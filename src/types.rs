use vstd::prelude::*;

verus! {

/// The layout of one pixel in an [`Image`] buffer.
#[derive(Debug, Clone, Copy, PartialEq, Eq, Structural)]
pub enum PixelFormat {
    Gray8,
    Rgb8,
    Rgba8,
}

impl PixelFormat {
    /// Bytes per pixel.
    pub open spec fn spec_channels(self) -> nat {
        match self {
            PixelFormat::Gray8 => 1,
            PixelFormat::Rgb8 => 3,
            PixelFormat::Rgba8 => 4,
        }
    }

    pub fn channels(self) -> (r: usize)
        ensures
            r == self.spec_channels(),
    {
        match self {
            PixelFormat::Gray8 => 1,
            PixelFormat::Rgb8 => 3,
            PixelFormat::Rgba8 => 4,
        }
    }
}

/// A tightly packed, row-major image.
#[derive(Debug, Clone, PartialEq, Eq)]
pub struct Image {
    pub width: u32,
    pub height: u32,
    pub format: PixelFormat,
    /// Row-major, tightly packed.
    pub data: Vec<u8>,
}

impl Image {
    /// The buffer length that the dimensions and format call for.
    pub open spec fn spec_expected_len(&self) -> nat {
        self.width as nat * self.height as nat * self.format.spec_channels()
    }

    /// The buffer holds exactly one byte per channel per pixel.
    pub open spec fn wf(&self) -> bool {
        self.data@.len() == self.spec_expected_len()
    }

    pub fn expected_len(&self) -> (r: usize)
        requires
            self.spec_expected_len() <= usize::MAX,
        ensures
            r == self.spec_expected_len(),
    {
        let wh = self.width as usize * self.height as usize;
        assert(self.width as nat * self.height as nat <= self.spec_expected_len()) by (nonlinear_arith)
            requires self.format.spec_channels() >= 1;
        wh * self.format.channels()
    }

    pub fn validate(&self) -> (r: bool)
        ensures
            r == self.wf(),
    {
        let w = self.width as u128;
        let h = self.height as u128;
        assert(w * h * 4 <= 0xFFFF_FFFF * 0xFFFF_FFFF * 4) by (nonlinear_arith)
            requires
                w <= 0xFFFF_FFFF,
                h <= 0xFFFF_FFFF,
        ;
        let c = self.format.channels() as u128;
        assert(w * h * c <= w * h * 4) by (nonlinear_arith)
            requires
                c <= 4,
        ;
        let total = w * h * c;
        self.data.len() as u128 == total
    }
}

/// The entropy-coding scheme of the simple container.
#[derive(Debug, Clone, Copy, PartialEq, Eq, Structural)]
pub enum CodecKind {
    PredictVarint,
}

/// The colour decorrelation applied before prediction.
#[derive(Debug, Clone, Copy, PartialEq, Eq, Structural)]
pub enum ColorTransform {
    Identity,
    /// Reversible integer transform (better residuals for RGB/RGBA).
    YCoCgR,
}

/// Settings of one encode or decode call.
#[derive(Debug, Clone, Copy, PartialEq, Eq, Structural)]
pub struct CodecConfig {
    pub codec: CodecKind,
    /// 0 = lossless (no quantization); otherwise signed uniform quantization
    /// of the residuals.
    pub quant_bits: u8,
    /// Advance the encoder's predictor with the reconstructed value, as the
    /// decoder does, rather than with the input pixel value.
    pub strict_recon: bool,
    pub color_transform: ColorTransform,
}

impl Default for CodecConfig {
    fn default() -> (r: Self)
        ensures
            r == (CodecConfig {
                codec: CodecKind::PredictVarint,
                quant_bits: 0,
                strict_recon: true,
                color_transform: ColorTransform::YCoCgR,
            }),
    {
        CodecConfig {
            codec: CodecKind::PredictVarint,
            quant_bits: 0,
            strict_recon: true,
            color_transform: ColorTransform::YCoCgR,
        }
    }
}

} // verus!
