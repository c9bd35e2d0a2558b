use sha2::Digest;
use sumcheck::field::Fp;
use sumcheck::transcript::Transcript;

#[test]
fn same_appends_give_same_challenge() {
    let mut t1 = Transcript::new(b"test");
    let mut t2 = Transcript::new(b"test");
    t1.append_scalar(b"x", Fp::new(5));
    t2.append_scalar(b"x", Fp::new(5));
    assert_eq!(t1.challenge_scalar(b"challenge"), t2.challenge_scalar(b"challenge"));
}

#[test]
fn different_appends_give_different_challenge() {
    let mut t1 = Transcript::new(b"test");
    let mut t2 = Transcript::new(b"test");
    t1.append_scalar(b"x", Fp::new(5));
    t2.append_scalar(b"x", Fp::new(6));
    assert_ne!(t1.challenge_scalar(b"challenge"), t2.challenge_scalar(b"challenge"));
}

#[test]
fn different_labels_give_different_challenge() {
    let mut t1 = Transcript::new(b"test");
    let mut t2 = Transcript::new(b"test");
    t1.append_scalar(b"x", Fp::new(5));
    t2.append_scalar(b"y", Fp::new(5));
    assert_ne!(t1.challenge_scalar(b"challenge"), t2.challenge_scalar(b"challenge"));
}

#[test]
fn different_append_order_gives_different_challenge() {
    let mut t1 = Transcript::new(b"test");
    let mut t2 = Transcript::new(b"test");
    t1.append_scalar(b"x", Fp::new(5));
    t1.append_scalar(b"y", Fp::new(6));
    t2.append_scalar(b"y", Fp::new(6));
    t2.append_scalar(b"x", Fp::new(5));
    assert_ne!(t1.challenge_scalar(b"challenge"), t2.challenge_scalar(b"challenge"));
}

#[test]
fn challenge_changes_after_append() {
    let mut transcript = Transcript::new(b"test");
    transcript.append_scalar(b"x", Fp::new(5));
    let first = transcript.challenge_scalar(b"challenge");
    transcript.append_scalar(b"y", Fp::new(6));
    let second = transcript.challenge_scalar(b"challenge");
    assert_ne!(first, second);
}

#[test]
fn consecutive_challenges_give_different_challenge() {
    let mut transcript = Transcript::new(b"test");
    transcript.append_scalar(b"x", Fp::new(5));
    let first = transcript.challenge_scalar(b"challenge");
    let second = transcript.challenge_scalar(b"challenge");
    assert_ne!(first, second);
}

#[test]
fn scalar_vector_appends_give_different_challenge() {
    let mut t1 = Transcript::new(b"test");
    let mut t2 = Transcript::new(b"test");
    t1.append_scalars(b"x", &[Fp::new(5), Fp::new(6)]);
    t2.append_scalar(b"x", Fp::new(5));
    t2.append_scalar(b"x", Fp::new(6));
    assert_ne!(t1.challenge_scalar(b"challenge"), t2.challenge_scalar(b"challenge"));
}

#[test]
fn different_initial_labels_give_different_challenge() {
    let mut t1 = Transcript::new(b"test");
    let mut t2 = Transcript::new(b"other");
    assert_ne!(t1.challenge_scalar(b"challenge"), t2.challenge_scalar(b"challenge"));
}

#[test]
fn challenge_is_sha256_of_log_and_label_reduced() {
    // The challenge is the SHA-256 digest of everything absorbed followed by
    // the label, read as a little-endian integer modulo the prime.
    let mut t = Transcript::new(b"ab");
    let c = t.challenge_scalar(b"cd");
    let digest = sha2::Sha256::digest(b"abcd");
    assert_eq!(c, Fp::from_bytes_reduce(&digest));
    // afterwards the log is "abcd" followed by the digest
    let mut log = b"abcd".to_vec();
    log.extend_from_slice(&digest);
    log.extend_from_slice(b"e");
    let expected = Fp::from_bytes_reduce(&sha2::Sha256::digest(&log));
    assert_eq!(t.challenge_scalar(b"e"), expected);
}

#[test]
fn append_scalar_absorbs_label_and_le_bytes() {
    let mut t = Transcript::new(b"");
    t.append_scalar(b"x", Fp::new(0x0102));
    let c = t.challenge_scalar(b"");
    let digest = sha2::Sha256::digest([b'x', 2, 1, 0, 0, 0, 0, 0, 0]);
    assert_eq!(c, Fp::from_bytes_reduce(&digest));
}
