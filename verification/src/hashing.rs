//! The `hash` and `verify` operations: salt and version validation, the calls
//! into the bcrypt library, and the byte-level handling of the formatted
//! digest that crosses the boundary. The bcrypt algorithm itself is an
//! external collaborator, named but not restated: its formatted digest and
//! its verification verdict appear in contracts as uninterpreted functions of
//! the inputs, with only what the library's own source shows stated of them.

use vstd::prelude::*;
use vstd::utf8::{valid_utf8, decode_utf8, encode_utf8, is_ascii_chars};
use crate::bridge::FatalError;

verus! {

broadcast use vstd::utf8::group_utf8_lib;

/// The four historically-defined bcrypt hash-string formats.
#[derive(Clone, Copy, PartialEq, Eq, Structural, Debug)]
pub enum Version {
    A,
    X,
    Y,
    B,
}

/// The tag character of a version, as it appears in the formatted digest.
pub open spec fn version_char(v: Version) -> char {
    match v {
        Version::A => 'a',
        Version::X => 'x',
        Version::Y => 'y',
        Version::B => 'b',
    }
}

/// The version selected by a one-byte discriminator (the boundary passes it
/// widened to 32 bits; only the low byte counts).
pub open spec fn version_of_byte(v: u32) -> Option<Version> {
    if v % 256 == 97 {
        Some(Version::A)
    } else if v % 256 == 120 {
        Some(Version::X)
    } else if v % 256 == 121 {
        Some(Version::Y)
    } else if v % 256 == 98 {
        Some(Version::B)
    } else {
        None
    }
}

/// Maps the boundary's version discriminator to a version, if it names one.
pub fn version_from_tag(version: u32) -> (r: Option<Version>)
    ensures
        r == version_of_byte(version),
{
    let b: u32 = version % 256;
    if b == 97 {
        Some(Version::A)
    } else if b == 120 {
        Some(Version::X)
    } else if b == 121 {
        Some(Version::Y)
    } else if b == 98 {
        Some(Version::B)
    } else {
        None
    }
}

/// The characters of the formatted bcrypt digest for the given password,
/// cost, 16-byte salt and version tag. The digest is a pure function of
/// these four inputs; its value is delegated to the bcrypt library and left
/// uninterpreted here.
pub uninterp spec fn bcrypt_hash_chars(password: Seq<u8>, cost: u32, salt: Seq<u8>, version: char) -> Seq<char>;

/// The bcrypt library's verdict on a password against a formatted hash
/// string: `None` when the string is malformed or carries an unsupported
/// cost, otherwise `Some` of whether the password matches. A pure function
/// of the two inputs, left uninterpreted here.
pub uninterp spec fn bcrypt_verify_of(password: Seq<u8>, hash: Seq<char>) -> Option<bool>;

/// Relies on `bcrypt::hash_with_salt` and `bcrypt::HashParts::format_for_version`:
/// hashing with an explicit 16-byte salt succeeds exactly when the cost lies
/// in the supported 4..=31 range, and the formatted digest is 60 ASCII
/// characters of the shape `$2<v>$<two-digit cost>$<22+31 base64 characters>`.
/// Relies on `bcrypt::verify` accepting its own formatted output: parsing the
/// digest recovers the same cost and salt, rehashing the same password gives
/// the same digest bytes, so the verdict on the producing password is a match.
#[verifier::external_body]
fn bcrypt_format_hash(password: &[u8], cost: u32, salt: &[u8], version: Version) -> (r: Option<String>)
    requires
        salt@.len() == 16,
    ensures
        r is Some <==> 4 <= cost <= 31,
        r matches Some(s) ==> {
            &&& s@ == bcrypt_hash_chars(password@, cost, salt@, version_char(version))
            &&& s@.len() == 60
            &&& is_ascii_chars(s@)
            &&& s@[0] == '$' && s@[1] == '2' && s@[2] == version_char(version) && s@[3] == '$'
            &&& s@[4] as int == 48 + cost as int / 10
            &&& s@[5] as int == 48 + cost as int % 10
            &&& s@[6] == '$'
            &&& bcrypt_verify_of(password@, s@) == Some(true)
        },
{
    let v = match version {
        Version::A => bcrypt::Version::TwoA,
        Version::X => bcrypt::Version::TwoX,
        Version::Y => bcrypt::Version::TwoY,
        Version::B => bcrypt::Version::TwoB,
    };
    let salt16: [u8; 16] = match salt.try_into() {
        Ok(a) => a,
        Err(_) => return None,
    };
    bcrypt::hash_with_salt(password, cost, salt16).ok().map(|p| p.format_for_version(v))
}

/// Relies on `bcrypt::verify`: a deterministic verdict computed from the
/// password and the hash string alone (parse, rehash, constant-time compare),
/// with an error exactly for hash strings it cannot parse.
#[verifier::external_body]
fn bcrypt_check(password: &[u8], hash: &str) -> (r: Option<bool>)
    ensures
        r == bcrypt_verify_of(password@, hash@),
{
    bcrypt::verify(password, hash).ok()
}

/// Relies on `core::str::from_utf8`: succeeds exactly on valid UTF-8 and
/// returns the decoded character sequence.
#[verifier::external_body]
fn bytes_as_str(bytes: &[u8]) -> (r: Option<&str>)
    ensures
        r is Some <==> valid_utf8(bytes@),
        r matches Some(s) ==> s@ == decode_utf8(bytes@),
{
    core::str::from_utf8(bytes).ok()
}

/// The characters of the digest that `hash` produces for these inputs.
pub open spec fn digest_chars(password: Seq<u8>, cost: u32, salt: Seq<u8>, v: Version) -> Seq<char> {
    bcrypt_hash_chars(password, cost, salt, version_char(v))
}

/// The bytes that `hash` writes into the output buffer for these inputs.
pub open spec fn digest_bytes(password: Seq<u8>, cost: u32, salt: Seq<u8>, v: Version) -> Seq<u8> {
    encode_utf8(digest_chars(password, cost, salt, v))
}

/// What a successful `hash` guarantees of the digest it produced: 60 ASCII
/// characters, the `$2<v>$<cc>$` prefix embedding the version tag and the
/// two decimal digits of the cost, and acceptance of the producing password
/// by the verification verdict.
pub open spec fn digest_facts(password: Seq<u8>, cost: u32, salt: Seq<u8>, v: Version) -> bool {
    let cs = digest_chars(password, cost, salt, v);
    &&& cs.len() == 60
    &&& is_ascii_chars(cs)
    &&& cs[0] == '$' && cs[1] == '2' && cs[2] == version_char(v) && cs[3] == '$'
    &&& cs[4] as int == 48 + cost as int / 10
    &&& cs[5] as int == 48 + cost as int % 10
    &&& cs[6] == '$'
    &&& bcrypt_verify_of(password, cs) == Some(true)
}

/// The hash operation. Validates that the salt is exactly 16 bytes and that
/// the discriminator names a version, invokes the bcrypt library, and writes
/// the 60-byte formatted digest into the front of the caller's output
/// buffer, returning the digest's length. Every failure is one of the fatal
/// conditions, reported for the panic bridge, and leaves the buffer
/// untouched; the checks happen in the order the boundary defines them, so a
/// bad salt wins over a bad version, and only an undersized buffer detected
/// after hashing yields the buffer-too-small condition.
pub fn hash(password: &[u8], salt: &[u8], output: &mut Vec<u8>, version: u32, cost: u32) -> (r: Result<usize, FatalError>)
    ensures
        r is Ok <==> {
            &&& salt@.len() == 16
            &&& version_of_byte(version) is Some
            &&& 4 <= cost <= 31
            &&& old(output)@.len() >= 60
        },
        salt@.len() != 16 ==> r == Err::<usize, FatalError>(FatalError::BadSaltLength),
        salt@.len() == 16 && version_of_byte(version) is None
            ==> r == Err::<usize, FatalError>(FatalError::BadVersion { version }),
        salt@.len() == 16 && version_of_byte(version) is Some && !(4 <= cost <= 31)
            ==> r == Err::<usize, FatalError>(FatalError::HashFailed),
        salt@.len() == 16 && version_of_byte(version) is Some && 4 <= cost <= 31
            && old(output)@.len() < 60 ==> r == Err::<usize, FatalError>(FatalError::OutputTooSmall),
        r is Err ==> final(output)@ == old(output)@,
        r matches Ok(n) ==> {
            let v = version_of_byte(version)->0;
            &&& n == 60
            &&& final(output)@.len() == old(output)@.len()
            &&& final(output)@.subrange(0, 60) == digest_bytes(password@, cost, salt@, v)
            &&& forall|i: int| 60 <= i < old(output)@.len()
                ==> final(output)@[i] == old(output)@[i]
            &&& digest_facts(password@, cost, salt@, v)
        },
{
    if salt.len() != 16 {
        return Err(FatalError::BadSaltLength);
    }
    let v = match version_from_tag(version) {
        Some(v) => v,
        None => return Err(FatalError::BadVersion { version }),
    };
    let formatted = match bcrypt_format_hash(password, cost, salt, v) {
        Some(s) => s,
        None => return Err(FatalError::HashFailed),
    };
    let bytes: &[u8] = formatted.as_str().as_bytes();
    assert(bytes@ == digest_bytes(password@, cost, salt@, v));
    assert(bytes@.len() == 60);
    if output.len() < 60 {
        return Err(FatalError::OutputTooSmall);
    }
    let ghost out0 = output@;
    let mut i: usize = 0;
    while i < 60
        invariant
            i <= 60,
            bytes@.len() == 60,
            out0.len() >= 60,
            output@.len() == out0.len(),
            forall|j: int| 0 <= j < i ==> output@[j] == bytes@[j],
            forall|j: int| i <= j < out0.len() ==> output@[j] == out0[j],
        decreases 60 - i,
    {
        output[i] = bytes[i];
        i += 1;
    }
    assert(output@.subrange(0, 60) =~= bytes@);
    Ok(60)
}

/// The verify operation. Decodes the stored hash string as UTF-8, asks the
/// bcrypt library for its verdict on the password, and reports the match
/// flag: 1 for a match, 0 otherwise. A hash that is not valid UTF-8, or that
/// the library cannot parse, is a fatal condition, never a reported
/// mismatch.
pub fn verify(password: &[u8], hash: &[u8]) -> (r: Result<u8, FatalError>)
    ensures
        r == Err::<u8, FatalError>(FatalError::BadUtf8) <==> !valid_utf8(hash@),
        valid_utf8(hash@) ==> (r == Err::<u8, FatalError>(FatalError::VerifyFailed)
            <==> bcrypt_verify_of(password@, decode_utf8(hash@)) is None),
        valid_utf8(hash@) && bcrypt_verify_of(password@, decode_utf8(hash@)) is Some
            ==> r == Ok::<u8, FatalError>(
                if bcrypt_verify_of(password@, decode_utf8(hash@))->0 { 1u8 } else { 0u8 },
            ),
{
    let s = match bytes_as_str(hash) {
        Some(s) => s,
        None => return Err(FatalError::BadUtf8),
    };
    let m = match bcrypt_check(password, s) {
        Some(m) => m,
        None => return Err(FatalError::VerifyFailed),
    };
    Ok(if m { 1 } else { 0 })
}

/// Hashing and then verifying the same password against the digest just
/// produced always reports a match: for every password, 16-byte salt,
/// supported cost and known version tag, the round trip returns the match
/// flag 1.
pub fn hash_then_verify(password: &[u8], salt: &[u8], version: u32, cost: u32) -> (r: Result<u8, FatalError>)
    ensures
        salt@.len() == 16 && version_of_byte(version) is Some && 4 <= cost <= 31
            ==> r == Ok::<u8, FatalError>(1u8),
{
    let mut out: Vec<u8> = Vec::new();
    let mut i: usize = 0;
    while i < 60
        invariant
            out@.len() == i,
            i <= 60,
        decreases 60 - i,
    {
        out.push(0u8);
        i += 1;
    }
    match hash(password, salt, &mut out, version, cost) {
        Ok(_) => {
            proof {
                let v = version_of_byte(version)->0;
                assert(out@.subrange(0, 60) =~= out@);
                assert(out@ == digest_bytes(password@, cost, salt@, v));
                assert(decode_utf8(out@) == digest_chars(password@, cost, salt@, v));
            }
            verify(password, out.as_slice())
        },
        Err(e) => Err(e),
    }
}

/// Hashing is deterministic: the digest is a function of the password, salt,
/// cost and version alone, so identical inputs always yield byte-identical
/// digests.
pub proof fn lemma_hash_deterministic(p1: Seq<u8>, p2: Seq<u8>, c1: u32, c2: u32, s1: Seq<u8>, s2: Seq<u8>, v1: Version, v2: Version)
    requires
        p1 == p2,
        c1 == c2,
        s1 == s2,
        v1 == v2,
    ensures
        digest_bytes(p1, c1, s1, v1) == digest_bytes(p2, c2, s2, v2),
{
}

/// Two distinct costs in the supported range render distinct two-digit cost
/// fields, and each digest embeds its own cost's digits (an `ensures` of
/// `hash`): a change of cost alone is therefore visible in the formatted
/// string's cost field, which still names the cost that produced it.
pub proof fn lemma_distinct_costs_distinct_digits(c1: u32, c2: u32)
    requires
        4 <= c1 <= 31,
        4 <= c2 <= 31,
        c1 != c2,
    ensures
        48 + c1 as int / 10 != 48 + c2 as int / 10 || 48 + c1 as int % 10 != 48 + c2 as int % 10,
{
    vstd::arithmetic::div_mod::lemma_fundamental_div_mod(c1 as int, 10);
    vstd::arithmetic::div_mod::lemma_fundamental_div_mod(c2 as int, 10);
}

} // verus!
