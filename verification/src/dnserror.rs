//! Error kinds shared by the decoding and encoding paths.

use vstd::prelude::*;

verus! {

/// The ways a single datagram can defeat the codec. Every kind is fatal to
/// parsing or serializing that one datagram, never to the caller's process.
#[derive(Clone, Copy, Debug, PartialEq, Eq, Structural)]
pub enum ErrorKind {
    /// A read or seek would have gone past the datagram's bounds.
    BufferExhausted,
    /// The budget for compression-pointer jumps was exceeded while reading a
    /// name, which means the pointers cycle back on themselves.
    CompressionLoop,
    /// A domain-name label longer than 63 bytes was handed to the encoder.
    LabelTooLong,
    /// A value could not be reinterpreted at the expected integer width,
    /// such as a character that does not fit in one wire byte.
    FieldConversion,
}

impl ErrorKind {
    /// A short human-readable description of the kind.
    pub fn as_str(&self) -> (r: &'static str)
        ensures
            r@ =~= self.text(),
    {
        let s: &'static str = match *self {
            ErrorKind::BufferExhausted => "end of buffer",
            ErrorKind::CompressionLoop => "compression pointer loop",
            ErrorKind::LabelTooLong => "label too long",
            ErrorKind::FieldConversion => "field conversion failed",
        };
        proof {
            reveal_strlit("end of buffer");
            reveal_strlit("compression pointer loop");
            reveal_strlit("label too long");
            reveal_strlit("field conversion failed");
        }
        s
    }

    /// What `as_str` returns for each kind.
    pub open spec fn text(self) -> Seq<char> {
        match self {
            ErrorKind::BufferExhausted => "end of buffer"@,
            ErrorKind::CompressionLoop => "compression pointer loop"@,
            ErrorKind::LabelTooLong => "label too long"@,
            ErrorKind::FieldConversion => "field conversion failed"@,
        }
    }
}

/// The error type every fallible codec operation returns.
#[derive(Clone, Debug, PartialEq, Eq)]
pub enum DnsError {
    /// A structural failure while decoding or encoding one datagram.
    Regular(ErrorKind),
    /// A failure reported by a caller-supplied description.
    Other(String),
}

impl DnsError {
    /// A human-readable description of the error, for diagnostics.
    pub fn message(&self) -> (r: String)
        ensures
            r@ == (match *self {
                DnsError::Regular(k) => k.text(),
                DnsError::Other(ref s) => s@,
            }),
    {
        match self {
            DnsError::Regular(k) => String::from_str(k.as_str()),
            DnsError::Other(s) => s.clone(),
        }
    }

    /// The kind behind this error, when it is a structural one.
    pub fn kind(&self) -> (r: Option<ErrorKind>)
        ensures
            r == (match *self {
                DnsError::Regular(k) => Some(k),
                DnsError::Other(_) => None::<ErrorKind>,
            }),
    {
        match self {
            DnsError::Regular(k) => Some(*k),
            DnsError::Other(_) => None,
        }
    }
}

} // verus!
