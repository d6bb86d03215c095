use vstd::prelude::*;

verus! {

/// Why a decode failed: the recoverable final-symbol case, or anything else.
#[derive(Clone, Copy, Debug, PartialEq, Eq, Structural)]
pub enum DecodeErrorKind {
    /// The last symbol of the final group carries non-zero unused bits.
    InvalidLastSymbol,
    /// Any other failure: a byte outside the alphabet, or a bad length.
    Other,
}

/// What decoding a byte string under standard padded base64 yields: the
/// decoded bytes, or the kind of failure. The outcome is a function of the
/// input bytes alone.
pub uninterp spec fn b64_decode(s: Seq<u8>) -> Result<Seq<u8>, DecodeErrorKind>;

/// Relies on base64::decode_config_buf with base64::STANDARD (padded
/// standard alphabet): on success the decoded bytes are appended to the
/// buffer, on failure the error tells the invalid-last-symbol case apart
/// from the rest.
#[verifier::external_body]
fn b64_decode_raw(input: &Vec<u8>) -> (r: Result<Vec<u8>, DecodeErrorKind>)
    ensures
        match b64_decode(input@) {
            Ok(d) => r matches Ok(v) && v@ == d,
            Err(k) => r == Err::<Vec<u8>, DecodeErrorKind>(k),
        },
{
    let mut buf = Vec::new();
    match base64::decode_config_buf(input, base64::STANDARD, &mut buf) {
        Ok(()) => Ok(buf),
        Err(base64::DecodeError::InvalidLastSymbol(_, _)) => Err(
            DecodeErrorKind::InvalidLastSymbol,
        ),
        Err(_) => Err(DecodeErrorKind::Other),
    }
}

/// How one decode attempt ends: decoded bytes, a recoverable bad tail, or a
/// failure the search treats as fatal.
pub enum DecodeOutcome {
    Decoded(Vec<u8>),
    InvalidTail,
    Fatal,
}

/// Decode a candidate haystack and classify the outcome: the decoded bytes
/// on success, the recoverable invalid-tail case for a bad final symbol,
/// and the fatal case for every other failure.
pub fn decode_guess(haystack: &Vec<u8>) -> (r: DecodeOutcome)
    ensures
        match r {
            DecodeOutcome::Decoded(v) => b64_decode(haystack@) matches Ok(d) && d == v@,
            DecodeOutcome::InvalidTail => b64_decode(haystack@) == Err::<Seq<u8>, DecodeErrorKind>(
                DecodeErrorKind::InvalidLastSymbol,
            ),
            DecodeOutcome::Fatal => b64_decode(haystack@) == Err::<Seq<u8>, DecodeErrorKind>(
                DecodeErrorKind::Other,
            ),
        },
{
    match b64_decode_raw(haystack) {
        Ok(v) => DecodeOutcome::Decoded(v),
        Err(DecodeErrorKind::InvalidLastSymbol) => DecodeOutcome::InvalidTail,
        Err(DecodeErrorKind::Other) => DecodeOutcome::Fatal,
    }
}

} // verus!
