use bcrypt_shim::bridge::FatalError;
use bcrypt_shim::hashing::{hash, hash_then_verify, verify};

fn hash_to_string(password: &[u8], salt: &[u8], version: u32, cost: u32) -> String {
    let mut out = vec![0u8; 60];
    let n = hash(password, salt, &mut out, version, cost).expect("hash must succeed");
    assert_eq!(n, 60);
    String::from_utf8(out).expect("digest is ASCII")
}

#[test]
fn reference_digest_cost_ten() {
    let digest = hash_to_string(b"password", b"saltsaltsaltsalt", u32::from(b'b'), 10);
    assert_eq!(digest.len(), 60);
    assert!(digest.starts_with("$2b$10$"));
    assert_eq!(digest, "$2b$10$a0DqbFLfZFPxWUvya0Dqb.IpP9MckeNpzVzfsitFCjAfJfE9QJxG6");
}

#[test]
fn reference_digest_cost_thirteen() {
    let digest = hash_to_string(b"password", b"saltsaltsaltsalt", u32::from(b'b'), 13);
    assert_eq!(digest.len(), 60);
    assert!(digest.starts_with("$2b$13$"));
    assert_eq!(digest, "$2b$13$a0DqbFLfZFPxWUvya0Dqb.wTG4CV893mPts/.OQ2H8VnQmAsmuOFa");
    let other = hash_to_string(b"password", b"saltsaltsaltsalt", u32::from(b'b'), 10);
    assert_ne!(digest, other);
}

#[test]
fn known_fixed_salt_vector() {
    // vector reproducible with any standard bcrypt implementation
    let salt = [38u8, 113, 212, 141, 108, 213, 195, 166, 201, 38, 20, 13, 47, 40, 104, 18];
    let digest = hash_to_string(b"My S3cre7 P@55w0rd!", &salt, u32::from(b'b'), 5);
    assert_eq!(digest, "$2b$05$HlFShUxTu4ZHHfOLJwfmCeDj/kuKFKboanXtDJXxCC7aIPTUgxNDe");
}

#[test]
fn hash_then_verify_reports_match() {
    for version in [b'a', b'x', b'y', b'b'] {
        let r = hash_then_verify(b"hunter2", b"0123456789abcdef", u32::from(version), 4);
        assert_eq!(r, Ok(1));
    }
    let r = hash_then_verify(b"", b"0123456789abcdef", u32::from(b'b'), 5);
    assert_eq!(r, Ok(1));
}

#[test]
fn changed_password_reports_mismatch() {
    let digest = hash_to_string(b"password", b"saltsaltsaltsalt", u32::from(b'b'), 4);
    assert_eq!(verify(b"passwore", digest.as_bytes()), Ok(0));
    assert_eq!(verify(b"passwor", digest.as_bytes()), Ok(0));
    assert_eq!(verify(b"", digest.as_bytes()), Ok(0));
    assert_eq!(verify(b"password", digest.as_bytes()), Ok(1));
}

#[test]
fn hash_is_deterministic() {
    let d1 = hash_to_string(b"repeatable", b"saltsaltsaltsalt", u32::from(b'y'), 6);
    let d2 = hash_to_string(b"repeatable", b"saltsaltsaltsalt", u32::from(b'y'), 6);
    assert_eq!(d1, d2);
}

#[test]
fn cost_change_changes_digest_but_keeps_cost_field() {
    let d4 = hash_to_string(b"password", b"saltsaltsaltsalt", u32::from(b'b'), 4);
    let d5 = hash_to_string(b"password", b"saltsaltsaltsalt", u32::from(b'b'), 5);
    assert_ne!(d4, d5);
    assert_eq!(&d4[4..6], "04");
    assert_eq!(&d5[4..6], "05");
    // everything outside the cost field is driven by the cost too: the
    // derived hash part differs while salt part is identical
    assert_eq!(&d4[7..29], &d5[7..29]);
    assert_ne!(&d4[29..], &d5[29..]);
}

#[test]
fn wrong_salt_length_is_fatal() {
    let mut out = vec![0u8; 60];
    let r = hash(b"password", b"shortsalt", &mut out, u32::from(b'b'), 4);
    assert_eq!(r, Err(FatalError::BadSaltLength));
    let r = hash(b"password", b"saltsaltsaltsalt!", &mut out, u32::from(b'b'), 4);
    assert_eq!(r, Err(FatalError::BadSaltLength));
    assert_eq!(out, vec![0u8; 60]);
}

#[test]
fn short_output_buffer_is_fatal() {
    let mut out = vec![0u8; 59];
    let r = hash(b"password", b"saltsaltsaltsalt", &mut out, u32::from(b'b'), 4);
    assert_eq!(r, Err(FatalError::OutputTooSmall));
    assert_eq!(out, vec![0u8; 59]);
}

#[test]
fn unknown_version_is_fatal() {
    let mut out = vec![0u8; 60];
    let r = hash(b"password", b"saltsaltsaltsalt", &mut out, u32::from(b'q'), 4);
    assert_eq!(r, Err(FatalError::BadVersion { version: u32::from(b'q') }));
}

#[test]
fn cost_out_of_range_is_fatal() {
    let mut out = vec![0u8; 60];
    let r = hash(b"password", b"saltsaltsaltsalt", &mut out, u32::from(b'b'), 3);
    assert_eq!(r, Err(FatalError::HashFailed));
    let r = hash(b"password", b"saltsaltsaltsalt", &mut out, u32::from(b'b'), 32);
    assert_eq!(r, Err(FatalError::HashFailed));
}

#[test]
fn verify_rejects_invalid_utf8() {
    let bad = [0xffu8, 0xfe, 0x24, 0x32];
    assert_eq!(verify(b"password", &bad), Err(FatalError::BadUtf8));
}

#[test]
fn verify_rejects_malformed_hash() {
    assert_eq!(verify(b"password", b"abc"), Err(FatalError::VerifyFailed));
    assert_eq!(
        verify(b"password", b"$2b$99$aaaaaaaaaaaaaaaaaaaaaaaaaaaaaaaaaaaaaaaaaaaaaaaaaaaaa"),
        Err(FatalError::VerifyFailed)
    );
}

#[test]
fn verify_accepts_externally_generated_hash() {
    // produced by an unrelated bcrypt implementation
    let h = b"$2a$04$UuTkLRZZ6QofpDOlMz32MuuxEHA43WOemOYHPz6.SjsVsyO1tDU96";
    assert_eq!(verify(b"password", h), Ok(1));
    assert_eq!(verify(b"not the password", h), Ok(0));
}

#[test]
fn output_buffer_tail_is_preserved() {
    let mut out = vec![7u8; 100];
    let n = hash(b"pw", b"saltsaltsaltsalt", &mut out, u32::from(b'a'), 4).unwrap();
    assert_eq!(n, 60);
    assert_eq!(&out[60..], &[7u8; 40][..]);
    assert_eq!(out[0], b'$');
}
