//! The contract of the web app: which releases it takes.

use freechess::crypto::{Signature, SigningKey};
use freechess::web_container::{encode_state, sign_release, WebContainerMetadata};
use freechess::web_contract::{
    ContractFault, Offer, Release, WebContainerContract, MAX_METADATA_SIZE,
};

const METADATA: &[u8] = b"metadata";

fn publisher() -> SigningKey {
    SigningKey::from_bytes(&[3u8; 32])
}

fn parameters() -> [u8; 32] {
    publisher().verifying_key().to_bytes()
}

fn release(version: u32, webapp: &[u8]) -> Release {
    Release {
        state: encode_state(METADATA, webapp),
        metadata: Ok(sign_release(&publisher(), version, webapp)),
    }
}

fn nothing() -> Release {
    Release { state: Vec::new(), metadata: Err("no metadata".to_string()) }
}

#[test]
fn a_release_that_its_publisher_signed_is_valid() {
    assert_eq!(WebContainerContract::validate_bytes(&parameters(), &release(4, b"app")), Ok(4));
    assert_eq!(WebContainerContract::validate_state(&parameters(), &release(4, b"app")), Ok(4));
}

#[test]
fn no_state_at_all_is_valid() {
    assert_eq!(WebContainerContract::validate_state(&parameters(), &nothing()), Ok(0));
}

#[test]
fn parameters_must_be_a_public_key() {
    assert_eq!(
        WebContainerContract::validate_bytes(&[1u8; 31], &release(4, b"app")),
        Err(ContractFault::Other(
            "parameters must be a 32-byte verifying key, got 31 bytes".to_string()
        ))
    );
    let mut no_point = [0u8; 32];
    no_point[0] = 2;
    match WebContainerContract::validate_bytes(&no_point, &release(4, b"app")) {
        Err(ContractFault::Other(reason)) => {
            assert!(reason.starts_with("invalid publisher key: "), "{reason}")
        }
        other => panic!("{other:?}"),
    }
}

#[test]
fn a_state_that_is_cut_short_does_not_read() {
    let mut short = release(4, b"app");
    short.state.pop();
    assert!(matches!(
        WebContainerContract::validate_bytes(&parameters(), &short),
        Err(ContractFault::Deser(_))
    ));
}

#[test]
fn metadata_that_does_not_read_is_reported() {
    let unread = Release { metadata: Err("bad byte".to_string()), ..release(4, b"app") };
    assert_eq!(
        WebContainerContract::validate_bytes(&parameters(), &unread),
        Err(ContractFault::Deser("could not decode metadata: bad byte".to_string()))
    );
}

#[test]
fn metadata_has_a_limit() {
    let long = Release {
        state: encode_state(&vec![0u8; MAX_METADATA_SIZE + 1], b"app"),
        ..release(4, b"app")
    };
    assert_eq!(
        WebContainerContract::validate_bytes(&parameters(), &long),
        Err(ContractFault::Other("metadata is 1025 bytes, over the 1024 limit".to_string()))
    );
}

#[test]
fn version_zero_is_no_release() {
    assert_eq!(
        WebContainerContract::validate_bytes(&parameters(), &release(0, b"app")),
        Err(ContractFault::InvalidState)
    );
}

#[test]
fn a_signature_is_for_one_version_and_one_app() {
    let signed = sign_release(&publisher(), 4, b"app");
    for (version, webapp) in [(5u32, &b"app"[..]), (4, b"other")] {
        let altered = Release {
            state: encode_state(METADATA, webapp),
            metadata: Ok(WebContainerMetadata { version, signature: signed.signature }),
        };
        match WebContainerContract::validate_bytes(&parameters(), &altered) {
            Err(ContractFault::InvalidSignature(reason)) => {
                assert!(reason.starts_with("webapp signature does not verify: "), "{reason}")
            }
            other => panic!("{other:?}"),
        }
    }
}

#[test]
fn a_key_of_small_order_signs_for_nobody() {
    let mut weak = [0u8; 32];
    weak[0] = 1;
    let mut forged = [0u8; 64];
    forged[0] = 1;
    let release = Release {
        state: encode_state(METADATA, b"app"),
        metadata: Ok(WebContainerMetadata { version: 1, signature: Signature(forged) }),
    };
    assert!(matches!(
        WebContainerContract::validate_bytes(&weak, &release),
        Err(ContractFault::InvalidSignature(_))
    ));
}

#[test]
fn the_newest_release_stays() {
    let current = release(2, b"two");
    let offers = vec![
        Offer::Whole(release(1, b"one")),
        Offer::Whole(release(5, b"five")),
        Offer::Whole(release(3, b"three")),
    ];
    assert_eq!(
        WebContainerContract::update_state(&parameters(), &current, &offers),
        Ok(release(5, b"five").state)
    );
    assert_eq!(
        WebContainerContract::update_state(
            &parameters(),
            &current,
            &vec![Offer::Whole(release(1, b"one"))]
        ),
        Ok(current.state)
    );
}

#[test]
fn two_releases_come_in_alike_in_either_order() {
    let one = || Offer::Whole(release(1, b"one"));
    let two = || Offer::Whole(release(2, b"two"));
    let first = WebContainerContract::update_state(&parameters(), &nothing(), &vec![one(), two()]);
    let second = WebContainerContract::update_state(&parameters(), &nothing(), &vec![two(), one()]);
    assert_eq!(first, second);
    assert_eq!(first, Ok(release(2, b"two").state));
}

#[test]
fn an_app_is_not_patched() {
    assert_eq!(
        WebContainerContract::update_state(
            &parameters(),
            &release(2, b"two"),
            &vec![Offer::Whole(release(3, b"three")), Offer::Partial]
        ),
        Err(ContractFault::InvalidUpdate)
    );
}

#[test]
fn a_summary_is_the_version() {
    assert_eq!(
        WebContainerContract::summarize_state(&release(258, b"app")),
        Ok(vec![0, 0, 1, 2])
    );
    assert_eq!(WebContainerContract::summarize_state(&nothing()), Ok(vec![0, 0, 0, 0]));
}

#[test]
fn who_is_behind_is_sent_the_whole_app() {
    let ours = release(3, b"app");
    assert_eq!(
        WebContainerContract::get_state_delta(&ours, &[0, 0, 0, 2]),
        Ok(ours.state.clone())
    );
    assert_eq!(WebContainerContract::get_state_delta(&ours, &[0, 0, 0, 3]), Ok(Vec::new()));
    assert_eq!(WebContainerContract::get_state_delta(&ours, b"unread"), Ok(ours.state.clone()));
    assert_eq!(WebContainerContract::get_state_delta(&nothing(), &[0, 0, 0, 0]), Ok(Vec::new()));
}
