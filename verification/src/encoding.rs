//! The name-decoding policy of the archive reader.
//!
//! Each central-directory entry stores its name as raw bytes together with a
//! flag bit that declares the bytes to be UTF-8. When the bit is unset, a
//! caller-configured encoding decides how the bytes are read: strict UTF-8
//! (optionally falling back to the legacy Shift-JIS-compatible decoding) or
//! Shift-JIS-compatible decoding outright, which never fails because
//! undecodable sequences become replacement characters.

use vstd::prelude::*;
use vstd::string::StrSliceExecFns;
use vstd::utf8::decode_utf8;
use vstd::utf8::valid_utf8;

verus! {

/// Everything that can go wrong while reading an archive's directory.
#[derive(Clone, Copy, Debug, PartialEq, Eq, Structural)]
pub enum ZipError {
    /// Structural mismatch: missing or unreconciled end-of-central-directory
    /// record, a bad entry signature, or a truncated field.
    MalformedArchive,
    /// The declared or configured encoding cannot represent the stored bytes.
    EncodingError,
    /// The configured encoding name is not supported.
    ConfigurationError,
}

/// The configured encoding used for names whose UTF-8 flag bit is unset.
#[derive(Clone, Copy, Debug, PartialEq, Eq, Structural)]
pub enum NameEncoding {
    Utf8,
    Cp932,
}

/// What to do under `NameEncoding::Utf8` when the stored bytes are not
/// valid UTF-8: fail, or fall back to the Shift-JIS-compatible decoding.
#[derive(Clone, Copy, Debug, PartialEq, Eq, Structural)]
pub enum FallbackPolicy {
    Strict,
    LegacyFallback,
}

/// The text produced by the Shift-JIS-compatible decoding of the given
/// bytes. The decoding is total — malformed sequences come out as
/// replacement characters — and depends on the bytes alone, so the result
/// is named rather than spelled out.
pub uninterp spec fn shift_jis_decoding(bytes: Seq<u8>) -> Seq<char>;

/// Relies on `encoding_rs::Encoding::decode` called on
/// `encoding_rs::SHIFT_JIS`: it is total, replaces malformed sequences with
/// the replacement character (after sniffing a leading byte-order mark), and
/// its result is a function of the input bytes alone. The length bound keeps
/// the call away from the allocation-size overflow its documentation warns
/// about.
#[verifier::external_body]
fn decode_shift_jis(bytes: &Vec<u8>) -> (r: String)
    requires
        bytes@.len() <= 0xffff,
    ensures
        r@ == shift_jis_decoding(bytes@),
{
    let (text, _, _) = encoding_rs::SHIFT_JIS.decode(bytes.as_slice());
    text.into_owned()
}

/// Relies on `String::from_utf8`: it succeeds exactly when the bytes are
/// valid UTF-8 and then returns the string made of those bytes, whose
/// characters are `vstd::utf8::decode_utf8` of the input.
#[verifier::external_body]
fn decode_utf8_strict(bytes: &Vec<u8>) -> (r: Option<String>)
    ensures
        r is Some <==> valid_utf8(bytes@),
        r matches Some(s) ==> s@ == decode_utf8(bytes@),
{
    match String::from_utf8(bytes.clone()) {
        Ok(s) => Some(s),
        Err(_) => None,
    }
}

/// The decoded form of a stored name: the flag bit forces strict UTF-8;
/// otherwise the configured encoding and fallback policy decide.
pub open spec fn decoded_name(
    bytes: Seq<u8>,
    utf8_flag: bool,
    enc: NameEncoding,
    fb: FallbackPolicy,
) -> Result<Seq<char>, ZipError> {
    if utf8_flag {
        if valid_utf8(bytes) {
            Ok(decode_utf8(bytes))
        } else {
            Err(ZipError::EncodingError)
        }
    } else {
        match enc {
            NameEncoding::Cp932 => Ok(shift_jis_decoding(bytes)),
            NameEncoding::Utf8 => if valid_utf8(bytes) {
                Ok(decode_utf8(bytes))
            } else if fb == FallbackPolicy::LegacyFallback {
                Ok(shift_jis_decoding(bytes))
            } else {
                Err(ZipError::EncodingError)
            },
        }
    }
}

/// An executable `Result<String, _>` agrees with a spec-level
/// `Result<Seq<char>, _>` exactly.
pub open spec fn name_result_matches(
    r: Result<String, ZipError>,
    m: Result<Seq<char>, ZipError>,
) -> bool {
    match (r, m) {
        (Ok(s), Ok(t)) => s@ == t,
        (Err(e1), Err(e2)) => e1 == e2,
        _ => false,
    }
}

/// Decode one stored name under the configured policy.
pub fn decode_name(
    bytes: &Vec<u8>,
    utf8_flag: bool,
    enc: NameEncoding,
    fb: FallbackPolicy,
) -> (r: Result<String, ZipError>)
    requires
        bytes@.len() <= 0xffff,
    ensures
        name_result_matches(r, decoded_name(bytes@, utf8_flag, enc, fb)),
{
    if utf8_flag {
        match decode_utf8_strict(bytes) {
            Some(s) => Ok(s),
            None => Err(ZipError::EncodingError),
        }
    } else {
        match enc {
            NameEncoding::Cp932 => Ok(decode_shift_jis(bytes)),
            NameEncoding::Utf8 => match decode_utf8_strict(bytes) {
                Some(s) => Ok(s),
                None => if fb == FallbackPolicy::LegacyFallback {
                    Ok(decode_shift_jis(bytes))
                } else {
                    Err(ZipError::EncodingError)
                },
            },
        }
    }
}

/// Character-for-character equality of two strings.
fn str_eq(a: &str, b: &str) -> (r: bool)
    ensures
        r == (a@ == b@),
{
    let n = a.unicode_len();
    if n != b.unicode_len() {
        proof {
            if a@ == b@ {
                assert(a@.len() == b@.len());
            }
        }
        return false;
    }
    let mut i: usize = 0;
    while i < n
        invariant
            i <= n,
            n == a@.len(),
            n == b@.len(),
            forall|j: int| 0 <= j < i ==> a@[j] == b@[j],
        decreases n - i,
    {
        if a.get_char(i) != b.get_char(i) {
            proof {
                if a@ == b@ {
                    assert(a@[i as int] == b@[i as int]);
                }
            }
            return false;
        }
        i = i + 1;
    }
    proof {
        assert(a@ =~= b@);
    }
    true
}

/// How a configured encoding name is read: exactly `utf8` or `cp932`,
/// anything else being a configuration error.
pub open spec fn spec_parse_encoding(s: Seq<char>) -> Result<NameEncoding, ZipError> {
    if s == "utf8"@ {
        Ok(NameEncoding::Utf8)
    } else if s == "cp932"@ {
        Ok(NameEncoding::Cp932)
    } else {
        Err(ZipError::ConfigurationError)
    }
}

/// Validate a configured encoding name, before any entry is looked at.
pub fn parse_encoding(s: &str) -> (r: Result<NameEncoding, ZipError>)
    ensures
        r == spec_parse_encoding(s@),
{
    if str_eq(s, "utf8") {
        Ok(NameEncoding::Utf8)
    } else if str_eq(s, "cp932") {
        Ok(NameEncoding::Cp932)
    } else {
        Err(ZipError::ConfigurationError)
    }
}

/// Law: an entry whose UTF-8 flag bit is set decodes the same way under
/// every configured encoding and fallback policy — to the UTF-8 reading of
/// its bytes when they are valid UTF-8, and to an encoding error otherwise.
pub proof fn lemma_utf8_flag_overrides_policy(
    bytes: Seq<u8>,
    enc1: NameEncoding,
    fb1: FallbackPolicy,
    enc2: NameEncoding,
    fb2: FallbackPolicy,
)
    ensures
        decoded_name(bytes, true, enc1, fb1) == decoded_name(bytes, true, enc2, fb2),
        valid_utf8(bytes) ==> decoded_name(bytes, true, enc1, fb1) == Ok::<
            Seq<char>,
            ZipError,
        >(decode_utf8(bytes)),
        !valid_utf8(bytes) ==> decoded_name(bytes, true, enc1, fb1) == Err::<
            Seq<char>,
            ZipError,
        >(ZipError::EncodingError),
{
}

/// Law: a name whose bytes are not valid UTF-8 and whose flag bit is unset
/// decodes without error under `Cp932` (and under `Utf8` with the legacy
/// fallback) to the Shift-JIS-compatible reading, while the strict `Utf8`
/// policy rejects it with an encoding error.
pub proof fn lemma_encoding_fallback(bytes: Seq<u8>, fb: FallbackPolicy)
    requires
        !valid_utf8(bytes),
    ensures
        decoded_name(bytes, false, NameEncoding::Cp932, fb) == Ok::<
            Seq<char>,
            ZipError,
        >(shift_jis_decoding(bytes)),
        decoded_name(bytes, false, NameEncoding::Utf8, FallbackPolicy::Strict) == Err::<
            Seq<char>,
            ZipError,
        >(ZipError::EncodingError),
        decoded_name(bytes, false, NameEncoding::Utf8, FallbackPolicy::LegacyFallback) == Ok::<
            Seq<char>,
            ZipError,
        >(shift_jis_decoding(bytes)),
{
}

} // verus!
