use vstd::prelude::*;

verus! {

/// Every failure the codec reports. No stage recovers locally: any error
/// aborts the whole encode or decode call.
#[derive(Debug, Clone, Copy, PartialEq, Eq)]
pub enum MoeqiError {
    /// Malformed sizes or shapes, or bad field values in a container.
    InvalidData(&'static str),
    /// Structural violations of the model-embedding bitstream.
    Format(&'static str),
    /// An unknown version, codec id or weight-precision scheme.
    Unsupported(&'static str),
    /// The input ended in the middle of a value.
    Eof,
    /// A failure inside an entropy decoder.
    Decode(&'static str),
}

impl MoeqiError {
    /// A human-readable description of the error.
    pub fn message(&self) -> (r: String)
        ensures
            match self {
                MoeqiError::InvalidData(s) => r@ == "invalid data: "@ + s@,
                MoeqiError::Format(s) => r@ == "format error: "@ + s@,
                MoeqiError::Unsupported(s) => r@ == "unsupported: "@ + s@,
                MoeqiError::Eof => r@ == "unexpected EOF"@,
                MoeqiError::Decode(s) => r@ == "decode error: "@ + s@,
            },
    {
        match self {
            MoeqiError::InvalidData(s) => {
                let mut m = String::from_str("invalid data: ");
                m.append(s);
                m
            },
            MoeqiError::Format(s) => {
                let mut m = String::from_str("format error: ");
                m.append(s);
                m
            },
            MoeqiError::Unsupported(s) => {
                let mut m = String::from_str("unsupported: ");
                m.append(s);
                m
            },
            MoeqiError::Eof => String::from_str("unexpected EOF"),
            MoeqiError::Decode(s) => {
                let mut m = String::from_str("decode error: ");
                m.append(s);
                m
            },
        }
    }
}

} // verus!
