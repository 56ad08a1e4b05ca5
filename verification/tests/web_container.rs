//! The record that holds the web app.

use freechess::web_container::{decode_state, encode_state, signing_bytes};

#[test]
fn state_round_trips() {
    let metadata = b"metadata bytes";
    let webapp = b"a pretend tar.xz archive";
    let state = encode_state(metadata, webapp);
    let (m, w) = decode_state(&state).expect("decodes");
    assert_eq!(m, metadata);
    assert_eq!(w, webapp);
}

#[test]
fn truncated_state_is_an_error_not_a_panic() {
    let full = encode_state(b"meta", b"web");
    for cut in 0..full.len() {
        assert!(decode_state(&full[..cut]).is_err(), "should reject {cut}");
    }
}

#[test]
fn a_length_field_claiming_more_than_the_buffer_is_rejected() {
    let mut state = encode_state(b"meta", b"web");
    state[..8].copy_from_slice(&u64::MAX.to_be_bytes());
    assert!(decode_state(&state).is_err());
}

#[test]
fn signing_bytes_are_version_prefixed() {
    let a = signing_bytes(1, b"same archive");
    let b = signing_bytes(2, b"same archive");
    assert_ne!(a, b, "a version bump must change the signed bytes");
    assert_eq!(&a[..4], &1u32.to_be_bytes());
}
