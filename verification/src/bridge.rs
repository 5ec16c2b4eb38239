//! The panic bridge: every unrecoverable condition the shim can detect is a
//! `FatalError`, and each one renders to the diagnostic message that is handed
//! to the host's panic callback as a `(pointer, length)` byte buffer.

use vstd::prelude::*;
use vstd::utf8::encode_utf8;

verus! {

/// Every condition the shim treats as fatal. There is no recoverable error
/// channel at the boundary: the host receives a rendered message and must not
/// reuse the module instance afterwards.
#[derive(Clone, Copy, PartialEq, Eq, Structural, Debug)]
pub enum FatalError {
    /// The arena could not serve an allocation of `requested` bytes.
    OutOfMemory { requested: usize },
    /// A salt that is not exactly 16 bytes long was handed to `hash`.
    BadSaltLength,
    /// A version tag outside `'a'`, `'x'`, `'y'`, `'b'` was handed to `hash`.
    BadVersion { version: u32 },
    /// The bcrypt algorithm rejected its inputs (the cost is out of range).
    HashFailed,
    /// The hash string handed to `verify` is not valid UTF-8.
    BadUtf8,
    /// The bcrypt algorithm rejected the hash string as malformed.
    VerifyFailed,
    /// The caller-supplied output buffer is shorter than the digest.
    OutputTooSmall,
}

/// The decimal rendering of `n`, most significant digit first, as ASCII bytes.
pub open spec fn decimal_digits(n: nat) -> Seq<u8>
    decreases n,
{
    if n < 10 {
        seq![(48 + n) as u8]
    } else {
        decimal_digits(n / 10) + seq![(48 + n % 10) as u8]
    }
}

/// The diagnostic message that the panic bridge reports for each fatal
/// condition, as the UTF-8 bytes handed to the host callback.
pub open spec fn message_spec(e: FatalError) -> Seq<u8> {
    match e {
        FatalError::OutOfMemory { requested } => encode_utf8("Memory allocation of "@)
            + decimal_digits(requested as nat) + encode_utf8(" bytes failed"@),
        FatalError::BadSaltLength => encode_utf8("Salt is not 16 bytes long"@),
        FatalError::BadVersion { version } => encode_utf8("Invalid version: "@)
            + decimal_digits(version as nat),
        FatalError::HashFailed => encode_utf8("Failed to hash password"@),
        FatalError::BadUtf8 => encode_utf8("Hash is invalid UTF-8"@),
        FatalError::VerifyFailed => encode_utf8("Failed to verify hash"@),
        FatalError::OutputTooSmall => encode_utf8("Output buffer is too small for the digest"@),
    }
}

/// Appends the UTF-8 bytes of `s` to `out`.
fn push_str_bytes(out: &mut Vec<u8>, s: &str)
    ensures
        final(out)@ == old(out)@ + encode_utf8(s@),
{
    out.extend_from_slice(s.as_bytes());
}

/// Appends the decimal rendering of `n` to `out`.
fn push_decimal(out: &mut Vec<u8>, n: usize)
    ensures
        final(out)@ == old(out)@ + decimal_digits(n as nat),
    decreases n,
{
    if n < 10 {
        out.push(48 + n as u8);
        assert(final(out)@ =~= old(out)@ + decimal_digits(n as nat));
    } else {
        push_decimal(out, n / 10);
        out.push(48 + (n % 10) as u8);
        assert(final(out)@ =~= old(out)@ + decimal_digits(n as nat));
    }
}

/// Renders the diagnostic message for a fatal condition. The host-facing glue
/// hands these bytes to the imported `panic(ptr, len)` callback.
pub fn panic_message(e: &FatalError) -> (r: Vec<u8>)
    ensures
        r@ == message_spec(*e),
{
    let mut out: Vec<u8> = Vec::new();
    match e {
        FatalError::OutOfMemory { requested } => {
            push_str_bytes(&mut out, "Memory allocation of ");
            push_decimal(&mut out, *requested);
            push_str_bytes(&mut out, " bytes failed");
        },
        FatalError::BadSaltLength => {
            push_str_bytes(&mut out, "Salt is not 16 bytes long");
        },
        FatalError::BadVersion { version } => {
            push_str_bytes(&mut out, "Invalid version: ");
            push_decimal(&mut out, *version as usize);
        },
        FatalError::HashFailed => {
            push_str_bytes(&mut out, "Failed to hash password");
        },
        FatalError::BadUtf8 => {
            push_str_bytes(&mut out, "Hash is invalid UTF-8");
        },
        FatalError::VerifyFailed => {
            push_str_bytes(&mut out, "Failed to verify hash");
        },
        FatalError::OutputTooSmall => {
            push_str_bytes(&mut out, "Output buffer is too small for the digest");
        },
    }
    out
}

/// The message reported when an allocation of `size` bytes cannot be served:
/// the allocation-failure hook of the shim renders this and routes it to the
/// panic bridge.
pub fn alloc_error_handler(size: usize) -> (r: Vec<u8>)
    ensures
        r@ == message_spec(FatalError::OutOfMemory { requested: size }),
{
    panic_message(&FatalError::OutOfMemory { requested: size })
}

} // verus!
