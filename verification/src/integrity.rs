//! Digest-token extraction from a checksum body, and digest comparison.

use vstd::prelude::*;
use vstd::string::{StrSliceExecFns, StringExecFns};
use crate::error::ArchiveError;
use crate::strutil::{str_chars, vec_chars_eq};

verus! {

/// A lowercase hexadecimal digit.
pub open spec fn is_hex_char(c: char) -> bool {
    (48 <= c as u32 && c as u32 <= 57) || (97 <= c as u32 && c as u32 <= 102)
}

/// A 64-character lowercase hexadecimal token starts at index `i` of `s`.
pub open spec fn hex_token_at(s: Seq<char>, i: int) -> bool {
    &&& 0 <= i
    &&& i + 64 <= s.len()
    &&& forall|k: int| i <= k < i + 64 ==> is_hex_char(s[k])
}

/// Returns whether a 64-character token starts at `i`.
fn window_is_hex(chars: &Vec<char>, i: usize) -> (r: bool)
    requires
        i + 64 <= chars@.len(),
    ensures
        r == hex_token_at(chars@, i as int),
{
    let n = chars.len();
    let mut k: usize = 0;
    while k < 64
        invariant
            i + 64 <= chars@.len(),
            n == chars@.len(),
            k <= 64,
            forall|m: int| i <= m < i + k ==> is_hex_char(chars@[m]),
        decreases 64 - k,
    {
        let c = chars[i + k];
        let u = c as u32;
        if !((48 <= u && u <= 57) || (97 <= u && u <= 102)) {
            assert(!is_hex_char(chars@[i + k as int]));
            return false;
        }
        k = k + 1;
    }
    true
}

/// Extracts the leftmost 64-character lowercase hexadecimal token of `text`,
/// wherever it appears, independent of the surrounding formatting.
pub fn find_hex_token(text: &str) -> (r: Option<String>)
    ensures
        match r {
            Some(t) => exists|i: int|
                hex_token_at(text@, i) && (forall|m: int| 0 <= m < i ==> !hex_token_at(text@, m))
                    && t@ == text@.subrange(i, i + 64),
            None => forall|i: int| !hex_token_at(text@, i),
        },
        r is Some <==> exists|i: int| hex_token_at(text@, i),
{
    let chars = str_chars(text);
    let n = chars.len();
    if n < 64 {
        return None;
    }
    let mut i: usize = 0;
    while i <= n - 64
        invariant
            64 <= n == text@.len(),
            chars@ == text@,
            i <= n,
            forall|m: int| 0 <= m < i ==> !hex_token_at(text@, m),
        decreases n - i,
    {
        if window_is_hex(&chars, i) {
            let sub = text.substring_char(i, i + 64);
            let t = String::from_str(sub);
            return Some(t);
        }
        i = i + 1;
    }
    proof {
        assert forall|m: int| !hex_token_at(text@, m) by {
            if hex_token_at(text@, m) {
                assert(0 <= m && m + 64 <= n);
            }
        }
    }
    None
}

/// Extracts the digest token from a checksum body; when no token is present
/// the error carries the archive asset's name.
pub fn extract_hash(text: &str, asset_name: &str) -> (r: Result<String, ArchiveError>)
    ensures
        match r {
            Ok(t) => exists|i: int|
                hex_token_at(text@, i) && (forall|m: int| 0 <= m < i ==> !hex_token_at(text@, m))
                    && t@ == text@.subrange(i, i + 64),
            Err(ArchiveError::AssetHashNotFound(n)) => (forall|i: int| !hex_token_at(text@, i))
                && n@ == asset_name@,
            Err(_) => false,
        },
        r is Ok <==> exists|i: int| hex_token_at(text@, i),
{
    match find_hex_token(text) {
        Some(t) => Ok(t),
        None => Err(ArchiveError::AssetHashNotFound(String::from_str(asset_name))),
    }
}

/// Compares the expected digest against the digest computed from the fetched
/// bytes; they must agree before extraction may proceed.
pub fn check_digest(expected: &str, actual: &str) -> (r: Result<(), ArchiveError>)
    ensures
        r is Ok <==> expected@ == actual@,
        match r {
            Ok(()) => expected@ == actual@,
            Err(ArchiveError::IntegrityMismatch { expected: e, actual: a }) => expected@ != actual@
                && e@ == expected@ && a@ == actual@,
            Err(_) => false,
        },
{
    let ec = str_chars(expected);
    let ac = str_chars(actual);
    if vec_chars_eq(&ec, &ac) {
        Ok(())
    } else {
        Err(
            ArchiveError::IntegrityMismatch {
                expected: String::from_str(expected),
                actual: String::from_str(actual),
            },
        )
    }
}

} // verus!
