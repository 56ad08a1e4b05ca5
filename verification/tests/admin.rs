//! Administration: who may act, and that copies agree on who may.

use freechess::admin::{
    AdminAction, AdminGrant, AdministrationV1, Announcement, Migration, ServiceState, Takedown,
    MAX_ANNOUNCEMENTS,
};
use freechess::crypto::SigningKey;
use freechess::identity::{GameId, PlayerId};
use freechess::lobby::{LobbyParametersV1, LobbyStateV1};
use rand::rngs::OsRng;
use rand::RngCore;

const T0: i64 = 1_700_000_000_000;

fn key() -> SigningKey {
    let mut seed = [0u8; 32];
    OsRng.fill_bytes(&mut seed);
    SigningKey::from_bytes(&seed)
}

fn params() -> LobbyParametersV1 {
    LobbyParametersV1::default()
}

/// Apply actions through the real merge path.
fn apply(admin: &mut AdministrationV1, actions: Vec<AdminAction>) -> Result<(), String> {
    let parent = LobbyStateV1::default();
    admin.apply_delta(&parent, &params(), &Some(actions))?;
    admin.prune();
    Ok(())
}

#[test]
fn the_first_claim_becomes_admin() {
    let alice = key();
    let mut admin = AdministrationV1::default();
    apply(
        &mut admin,
        vec![AdminAction::Grant(AdminGrant::claim(
            &alice,
            "alice".to_string(),
            T0,
        ))],
    )
    .unwrap();

    assert!(admin.is_admin(PlayerId::from(&alice.verifying_key())));
    admin.check().expect("a single claim is well-formed");
}

#[test]
fn a_second_self_claim_cannot_create_a_rival_root() {
    let alice = key();
    let bob = key();
    let mut admin = AdministrationV1::default();

    apply(
        &mut admin,
        vec![
            AdminAction::Grant(AdminGrant::claim(&alice, "alice".to_string(), T0)),
            AdminAction::Grant(AdminGrant::claim(&bob, "bob".to_string(), T0 + 5000)),
        ],
    )
    .unwrap();

    assert!(admin.is_admin(PlayerId::from(&alice.verifying_key())));
    assert!(
        !admin.is_admin(PlayerId::from(&bob.verifying_key())),
        "the later claim must lose"
    );
    admin.check().unwrap();
}

#[test]
fn the_claim_race_resolves_identically_in_any_order() {
    let alice = key();
    let bob = key();
    let a = AdminAction::Grant(AdminGrant::claim(&alice, "alice".to_string(), T0));
    let b = AdminAction::Grant(AdminGrant::claim(&bob, "bob".to_string(), T0 + 5000));

    let mut forward = AdministrationV1::default();
    apply(&mut forward, vec![a.clone(), b.clone()]).unwrap();
    let mut backward = AdministrationV1::default();
    apply(&mut backward, vec![b, a]).unwrap();

    assert_eq!(forward, backward, "the root race must converge");
}

#[test]
fn merging_the_same_claim_twice_changes_nothing() {
    let alice = key();
    let claim = AdminAction::Grant(AdminGrant::claim(&alice, "alice".to_string(), T0));
    let mut admin = AdministrationV1::default();
    apply(&mut admin, vec![claim.clone()]).unwrap();
    let once = admin.clone();
    apply(&mut admin, vec![claim]).unwrap();
    assert_eq!(once, admin, "merge must be idempotent");
}

#[test]
fn an_admin_can_promote_someone_and_they_can_promote_further() {
    let root = key();
    let second = key();
    let third = key();
    let mut admin = AdministrationV1::default();

    apply(
        &mut admin,
        vec![AdminAction::Grant(AdminGrant::claim(
            &root,
            "root".to_string(),
            T0,
        ))],
    )
    .unwrap();
    apply(
        &mut admin,
        vec![AdminAction::Grant(AdminGrant::grant(
            &root,
            second.verifying_key(),
            "second".to_string(),
            T0 + 1000,
        ))],
    )
    .unwrap();
    apply(
        &mut admin,
        vec![AdminAction::Grant(AdminGrant::grant(
            &second,
            third.verifying_key(),
            "third".to_string(),
            T0 + 2000,
        ))],
    )
    .unwrap();

    assert!(admin.is_admin(PlayerId::from(&second.verifying_key())));
    assert!(admin.is_admin(PlayerId::from(&third.verifying_key())));
    assert_eq!(admin.admins.len(), 3);
    admin.check().unwrap();
}

#[test]
fn a_non_admin_cannot_promote_anyone() {
    let root = key();
    let outsider = key();
    let target = key();
    let mut admin = AdministrationV1::default();

    apply(
        &mut admin,
        vec![AdminAction::Grant(AdminGrant::claim(
            &root,
            "root".to_string(),
            T0,
        ))],
    )
    .unwrap();
    apply(
        &mut admin,
        vec![AdminAction::Grant(AdminGrant::grant(
            &outsider,
            target.verifying_key(),
            "sneaky".to_string(),
            T0 + 1000,
        ))],
    )
    .unwrap();

    assert!(!admin.is_admin(PlayerId::from(&target.verifying_key())));
    assert_eq!(admin.admins.len(), 1);
}

#[test]
fn a_grant_with_a_forged_signature_is_rejected() {
    let root = key();
    let impostor = key();
    let target = key();
    let mut admin = AdministrationV1::default();
    apply(
        &mut admin,
        vec![AdminAction::Grant(AdminGrant::claim(
            &root,
            "root".to_string(),
            T0,
        ))],
    )
    .unwrap();

    let mut forged = AdminGrant::grant(&impostor, target.verifying_key(), "x".to_string(), T0 + 1);
    forged.granted_by = root.verifying_key();

    let err = apply(&mut admin, vec![AdminAction::Grant(forged)]).expect_err("must reject");
    assert!(err.contains("invalid signature"), "got: {err}");
}

#[test]
fn a_full_state_put_of_self_appointed_admins_is_rejected() {
    let alice = key();
    let bob = key();
    let mut admin = AdministrationV1::default();
    for k in [&alice, &bob] {
        let g = AdminGrant::claim(k, "x".to_string(), T0);
        admin.admins.grants.insert(g.grantee_id(), g);
    }
    let err = admin.check().expect_err("must reject");
    assert!(err.contains("more than one root"), "got: {err}");
}

#[test]
fn only_an_admin_can_publish_an_announcement() {
    let root = key();
    let outsider = key();
    let mut admin = AdministrationV1::default();
    apply(
        &mut admin,
        vec![AdminAction::Grant(AdminGrant::claim(
            &root,
            "root".to_string(),
            T0,
        ))],
    )
    .unwrap();

    apply(
        &mut admin,
        vec![AdminAction::Announce(Announcement::new(
            &outsider,
            "spam".to_string(),
            T0 + 1,
        ))],
    )
    .unwrap();
    assert!(admin.announcements.is_empty(), "outsider must be ignored");

    apply(
        &mut admin,
        vec![AdminAction::Announce(Announcement::new(
            &root,
            "scheduled maintenance".to_string(),
            T0 + 2,
        ))],
    )
    .unwrap();
    assert_eq!(admin.announcements.len(), 1);
    assert_eq!(
        admin.recent_announcements()[0].text,
        "scheduled maintenance"
    );
    admin.check().unwrap();
}

#[test]
fn a_tampered_announcement_is_rejected() {
    let root = key();
    let mut admin = AdministrationV1::default();
    apply(
        &mut admin,
        vec![AdminAction::Grant(AdminGrant::claim(
            &root,
            "root".to_string(),
            T0,
        ))],
    )
    .unwrap();

    let mut a = Announcement::new(&root, "original".to_string(), T0 + 1);
    a.text = "rewritten".to_string();
    apply(&mut admin, vec![AdminAction::Announce(a)]).unwrap();
    assert!(admin.announcements.is_empty());
}

#[test]
fn announcements_are_capped_deterministically() {
    let root = key();
    let mut admin = AdministrationV1::default();
    apply(
        &mut admin,
        vec![AdminAction::Grant(AdminGrant::claim(
            &root,
            "root".to_string(),
            T0,
        ))],
    )
    .unwrap();

    let actions: Vec<AdminAction> = (0..(MAX_ANNOUNCEMENTS + 10))
        .map(|i| {
            AdminAction::Announce(Announcement::new(
                &root,
                format!("notice {i}"),
                T0 + 1000 + i as i64,
            ))
        })
        .collect();
    let mut reversed = actions.clone();
    reversed.reverse();

    apply(&mut admin, actions).unwrap();
    assert_eq!(admin.announcements.len(), MAX_ANNOUNCEMENTS);

    let mut other = AdministrationV1::default();
    apply(
        &mut other,
        vec![AdminAction::Grant(AdminGrant::claim(
            &root,
            "root".to_string(),
            T0,
        ))],
    )
    .unwrap();
    apply(&mut other, reversed).unwrap();
    assert_eq!(admin, other, "the cap must not depend on arrival order");
}

#[test]
fn only_an_admin_can_take_a_game_down() {
    let root = key();
    let outsider = key();
    let game = GameId([9u8; 32]);
    let mut admin = AdministrationV1::default();
    apply(
        &mut admin,
        vec![AdminAction::Grant(AdminGrant::claim(
            &root,
            "root".to_string(),
            T0,
        ))],
    )
    .unwrap();

    apply(
        &mut admin,
        vec![AdminAction::TakeDown(Takedown::new(
            &outsider,
            game,
            "because".to_string(),
            T0 + 1,
        ))],
    )
    .unwrap();
    assert!(!admin.is_taken_down(&game));

    apply(
        &mut admin,
        vec![AdminAction::TakeDown(Takedown::new(
            &root,
            game,
            "abuse".to_string(),
            T0 + 2,
        ))],
    )
    .unwrap();
    assert!(admin.is_taken_down(&game));
    admin.check().unwrap();
}

#[test]
fn an_admin_can_mark_the_service_unavailable() {
    let root = key();
    let mut admin = AdministrationV1::default();
    apply(
        &mut admin,
        vec![AdminAction::Grant(AdminGrant::claim(
            &root,
            "root".to_string(),
            T0,
        ))],
    )
    .unwrap();
    assert!(admin.available(), "available by default");

    apply(
        &mut admin,
        vec![AdminAction::Service(ServiceState::new(
            &root,
            false,
            "down for maintenance".to_string(),
            T0 + 1,
        ))],
    )
    .unwrap();
    assert!(!admin.available());
    assert_eq!(
        admin.service_message().as_deref(),
        Some("down for maintenance")
    );

    apply(
        &mut admin,
        vec![AdminAction::Service(ServiceState::new(
            &root,
            true,
            String::new(),
            T0 + 2,
        ))],
    )
    .unwrap();
    assert!(admin.available());
    admin.check().unwrap();
}

#[test]
fn a_non_admin_cannot_change_service_state() {
    let root = key();
    let outsider = key();
    let mut admin = AdministrationV1::default();
    apply(
        &mut admin,
        vec![AdminAction::Grant(AdminGrant::claim(
            &root,
            "root".to_string(),
            T0,
        ))],
    )
    .unwrap();

    apply(
        &mut admin,
        vec![AdminAction::Service(ServiceState::new(
            &outsider,
            false,
            "hijacked".to_string(),
            T0 + 1,
        ))],
    )
    .unwrap();
    assert!(
        admin.available(),
        "outsider must not be able to shut it down"
    );
}

#[test]
fn grants_from_a_root_that_loses_the_race_are_revoked() {
    let alice = key();
    let bob = key();
    let carol = key();

    let mut admin = AdministrationV1::default();
    apply(
        &mut admin,
        vec![
            AdminAction::Grant(AdminGrant::claim(&bob, "bob".to_string(), T0 + 5000)),
            AdminAction::Grant(AdminGrant::grant(
                &bob,
                carol.verifying_key(),
                "carol".to_string(),
                T0 + 6000,
            )),
        ],
    )
    .unwrap();
    apply(
        &mut admin,
        vec![AdminAction::Announce(Announcement::new(
            &bob,
            "bob was here".to_string(),
            T0 + 7000,
        ))],
    )
    .unwrap();
    assert_eq!(admin.admins.len(), 2);
    assert_eq!(admin.announcements.len(), 1);

    apply(
        &mut admin,
        vec![AdminAction::Grant(AdminGrant::claim(
            &alice,
            "alice".to_string(),
            T0,
        ))],
    )
    .unwrap();

    assert!(admin.is_admin(PlayerId::from(&alice.verifying_key())));
    assert!(!admin.is_admin(PlayerId::from(&bob.verifying_key())));
    assert!(!admin.is_admin(PlayerId::from(&carol.verifying_key())));
    assert!(
        admin.announcements.is_empty(),
        "content from a revoked admin must go too"
    );
    admin.check().unwrap();
}

#[test]
fn tests_prune_is_idempotent() {
    let root = key();
    let second = key();
    let mut admin = AdministrationV1::default();
    apply(
        &mut admin,
        vec![
            AdminAction::Grant(AdminGrant::claim(&root, "root".to_string(), T0)),
            AdminAction::Grant(AdminGrant::grant(
                &root,
                second.verifying_key(),
                "second".to_string(),
                T0 + 1,
            )),
            AdminAction::Announce(Announcement::new(&root, "hello".to_string(), T0 + 2)),
        ],
    )
    .unwrap();

    let once = admin.clone();
    admin.prune();
    assert_eq!(once, admin);
}

#[test]
fn peers_holding_different_announcements_exchange_them() {
    let root = key();
    let claim = AdminAction::Grant(AdminGrant::claim(&root, "root".to_string(), T0));

    let mut peer1 = AdministrationV1::default();
    apply(&mut peer1, vec![claim.clone()]).unwrap();
    let mut peer2 = peer1.clone();

    apply(
        &mut peer1,
        vec![AdminAction::Announce(Announcement::new(
            &root,
            "first notice".to_string(),
            T0 + 1_000,
        ))],
    )
    .unwrap();
    apply(
        &mut peer2,
        vec![AdminAction::Announce(Announcement::new(
            &root,
            "second notice".to_string(),
            T0 + 2_000,
        ))],
    )
    .unwrap();

    assert_eq!(peer1.announcements.len(), peer2.announcements.len());
    assert_ne!(peer1.announcements, peer2.announcements);

    let parent = LobbyStateV1::default();
    let s1 = peer1.summarize(&parent, &params());
    let d = peer2
        .delta(&parent, &params(), &s1)
        .expect("a differing announcement set must ship");
    peer1.apply_delta(&parent, &params(), &Some(d)).unwrap();
    peer1.prune();

    let s2 = peer2.summarize(&parent, &params());
    if let Some(d) = peer1.delta(&parent, &params(), &s2) {
        peer2.apply_delta(&parent, &params(), &Some(d)).unwrap();
        peer2.prune();
    }

    assert_eq!(peer1.announcements.len(), 2);
    assert_eq!(peer1.announcements, peer2.announcements);
}

/// A plausible-looking contract id: 32 bytes, base58. The notice refuses
/// anything else so a client can render it as a link without sanitising.
fn an_address() -> String {
    GameId([7u8; 32]).to_base58()
}

#[test]
fn only_an_admin_may_announce_a_migration() {
    let root = key();
    let stranger = key();
    let mut admin = AdministrationV1::default();
    apply(
        &mut admin,
        vec![AdminAction::Grant(AdminGrant::claim(
            &root,
            "root".to_string(),
            T0,
        ))],
    )
    .unwrap();

    let forged = Migration::announce(&stranger, an_address(), "moved".to_string(), T0 + 1000);
    let err = forged.verify(&admin.admins).expect_err("must reject");
    assert!(err.contains("only an admin"), "got: {err}");

    apply(&mut admin, vec![AdminAction::Migrate(forged)]).unwrap();
    assert!(admin.migration().is_none(), "a stranger seated a migration");
    assert!(admin.accepting_new_games());
}

#[test]
fn a_migration_address_must_be_a_real_contract_id() {
    let root = key();
    let mut admin = AdministrationV1::default();
    apply(
        &mut admin,
        vec![AdminAction::Grant(AdminGrant::claim(
            &root,
            "root".to_string(),
            T0,
        ))],
    )
    .unwrap();

    let junk = Migration::announce(
        &root,
        "javascript:alert(1)".to_string(),
        "moved".to_string(),
        T0 + 1000,
    );
    let err = junk.verify(&admin.admins).expect_err("must reject");
    assert!(err.contains("valid contract id"), "got: {err}");
}

#[test]
fn a_migration_can_be_announced_and_called_off() {
    let root = key();
    let mut admin = AdministrationV1::default();
    apply(
        &mut admin,
        vec![AdminAction::Grant(AdminGrant::claim(
            &root,
            "root".to_string(),
            T0,
        ))],
    )
    .unwrap();
    assert!(admin.accepting_new_games());

    let notice = Migration::announce(&root, an_address(), "we moved".to_string(), T0 + 1000);
    apply(&mut admin, vec![AdminAction::Migrate(notice)]).unwrap();
    assert_eq!(admin.migration().unwrap().new_address, an_address());
    assert!(!admin.accepting_new_games(), "new games must be locked");

    let cancel = Migration::cancel(&root, T0 + 2000);
    apply(&mut admin, vec![AdminAction::Migrate(cancel)]).unwrap();
    assert!(admin.migration().is_none());
    assert!(admin.accepting_new_games());
}

#[test]
fn competing_migration_notices_converge() {
    let root = key();
    let second = key();
    let mut base = AdministrationV1::default();
    apply(
        &mut base,
        vec![AdminAction::Grant(AdminGrant::claim(
            &root,
            "root".to_string(),
            T0,
        ))],
    )
    .unwrap();
    apply(
        &mut base,
        vec![AdminAction::Grant(AdminGrant::grant(
            &root,
            second.verifying_key(),
            "second".to_string(),
            T0 + 100,
        ))],
    )
    .unwrap();

    let a = AdminAction::Migrate(Migration::announce(
        &root,
        an_address(),
        "a".to_string(),
        T0 + 1000,
    ));
    let b = AdminAction::Migrate(Migration::announce(
        &second,
        GameId([9u8; 32]).to_base58(),
        "b".to_string(),
        T0 + 1000,
    ));

    let mut peer1 = base.clone();
    apply(&mut peer1, vec![a.clone()]).unwrap();
    apply(&mut peer1, vec![b.clone()]).unwrap();

    let mut peer2 = base;
    apply(&mut peer2, vec![b]).unwrap();
    apply(&mut peer2, vec![a]).unwrap();

    assert_eq!(peer1.migration, peer2.migration, "must converge");
    assert!(peer1.migration().is_some());
}

#[test]
fn a_revoked_admins_migration_is_dropped() {
    let alice = key();
    let bob = key();
    let mut admin = AdministrationV1::default();

    apply(
        &mut admin,
        vec![AdminAction::Grant(AdminGrant::claim(
            &bob,
            "bob".to_string(),
            T0 + 5000,
        ))],
    )
    .unwrap();
    let notice = Migration::announce(&bob, an_address(), "moved".to_string(), T0 + 6000);
    apply(&mut admin, vec![AdminAction::Migrate(notice)]).unwrap();
    assert!(admin.migration().is_some(), "premise: bob's notice is live");

    apply(
        &mut admin,
        vec![AdminAction::Grant(AdminGrant::claim(
            &alice,
            "alice".to_string(),
            T0,
        ))],
    )
    .unwrap();
    assert!(
        admin.migration().is_none(),
        "the notice outlived the admin who signed it"
    );
    assert!(admin.accepting_new_games());
}

fn id(key: &SigningKey) -> PlayerId {
    PlayerId::from(&key.verifying_key())
}

fn seeded(n: u8) -> SigningKey {
    SigningKey::from_bytes(&[n; 32])
}

fn appointed(by: &SigningKey, whom: &SigningKey, at: i64) -> AdminAction {
    AdminAction::Grant(AdminGrant::grant(by, whom.verifying_key(), "admin".to_string(), at))
}

fn claimed(key: &SigningKey, at: i64) -> AdminAction {
    AdminAction::Grant(AdminGrant::claim(key, "root".to_string(), at))
}

/// What a copy holds once it has merged another.
fn merged(a: &AdministrationV1, b: &AdministrationV1) -> AdministrationV1 {
    let parent = LobbyStateV1::default();
    let mut next = a.clone();
    let told = next.summarize(&parent, &params());
    let delta = b.delta(&parent, &params(), &told);
    next.apply_delta(&parent, &params(), &delta).unwrap();
    next.prune();
    next.check().unwrap();
    next
}

#[test]
fn whoever_a_dropped_admin_appointed_goes_too() {
    let root = seeded(1);
    let mut actions = vec![claimed(&root, T0)];
    for n in 0..49 {
        actions.push(appointed(&root, &seeded(10 + n), T0 + 3));
    }
    let (late, early) = (seeded(100), seeded(101));
    actions.push(appointed(&root, &late, T0 + 4));
    actions.push(appointed(&late, &early, T0 + 2));

    let mut admin = AdministrationV1::default();
    apply(&mut admin, actions).unwrap();
    assert!(admin.is_admin(id(&root)));
    assert!(!admin.is_admin(id(&late)));
    assert!(!admin.is_admin(id(&early)), "its appointer was dropped");
    assert!(admin.admins.len() <= 50);
    admin.check().unwrap();

    let once = admin.clone();
    admin.prune();
    assert_eq!(once, admin);
}

#[test]
fn fifty_admins_are_all_kept() {
    let root = seeded(1);
    let mut actions = vec![claimed(&root, T0)];
    for n in 0..49 {
        actions.push(appointed(&root, &seeded(10 + n), T0 + 3));
    }
    let mut admin = AdministrationV1::default();
    apply(&mut admin, actions).unwrap();
    assert_eq!(admin.admins.len(), 50);
    admin.check().unwrap();
}

#[test]
fn a_notice_by_one_who_lost_office_stands_in_nobodys_way() {
    let (loser, winner) = (seeded(1), seeded(2));
    let mut a = AdministrationV1::default();
    apply(
        &mut a,
        vec![
            claimed(&loser, T0 + 1000),
            AdminAction::Service(ServiceState::new(&loser, false, "mine".to_string(), T0 + 9000)),
            AdminAction::TakeDown(Takedown::new(
                &loser,
                GameId([7; 32]),
                "mine".to_string(),
                T0 + 1500,
            )),
        ],
    )
    .unwrap();
    let mut b = AdministrationV1::default();
    apply(
        &mut b,
        vec![
            claimed(&winner, T0),
            AdminAction::Service(ServiceState::new(&winner, false, "ours".to_string(), T0 + 5000)),
            AdminAction::TakeDown(Takedown::new(
                &winner,
                GameId([7; 32]),
                "ours".to_string(),
                T0 + 2000,
            )),
        ],
    )
    .unwrap();

    let ab = merged(&a, &b);
    assert_eq!(ab, merged(&b, &a));
    assert!(!ab.is_admin(id(&loser)));
    assert_eq!(ab.service_message(), Some("ours".to_string()));
    assert!(ab.is_taken_down(&GameId([7; 32])));
}

#[test]
fn copies_agree_while_an_appointment_spreads() {
    let (root, second) = (seeded(1), seeded(2));
    let mut a = AdministrationV1::default();
    apply(&mut a, vec![claimed(&root, T0)]).unwrap();
    let mut b = a.clone();
    apply(
        &mut b,
        vec![
            appointed(&root, &second, T0 + 1),
            AdminAction::Announce(Announcement::new(&second, "hello".to_string(), T0 + 2)),
        ],
    )
    .unwrap();
    apply(
        &mut a,
        vec![AdminAction::Announce(Announcement::new(&root, "welcome".to_string(), T0 + 3))],
    )
    .unwrap();
    let ab = merged(&a, &b);
    assert_eq!(ab, merged(&b, &a));
    assert_eq!(merged(&ab, &b), ab);
    assert_eq!(ab.admins.len(), 2);
    assert_eq!(ab.recent_announcements().len(), 2);
}

#[test]
fn three_copies_of_administration_agree_in_any_order() {
    let (root, second) = (seeded(1), seeded(2));
    let mut start = AdministrationV1::default();
    apply(&mut start, vec![claimed(&root, T0)]).unwrap();
    let mut a = start.clone();
    apply(&mut a, vec![appointed(&root, &second, T0 + 1)]).unwrap();
    let mut b = start.clone();
    apply(
        &mut b,
        vec![AdminAction::Announce(Announcement::new(&root, "one".to_string(), T0 + 2))],
    )
    .unwrap();
    let mut c = start.clone();
    apply(
        &mut c,
        vec![AdminAction::Service(ServiceState::new(&root, true, "up".to_string(), T0 + 3))],
    )
    .unwrap();
    assert_eq!(merged(&merged(&a, &b), &c), merged(&a, &merged(&b, &c)));
    assert_eq!(merged(&merged(&a, &b), &b), merged(&a, &b));
}

#[test]
fn two_appointments_at_one_time_tie_by_who_made_them() {
    let (root, second, third) = (seeded(1), seeded(2), seeded(3));
    let both = vec![claimed(&root, T0), appointed(&root, &second, T0 + 1)];
    let mut a = AdministrationV1::default();
    apply(&mut a, both.clone()).unwrap();
    let mut b = a.clone();
    apply(&mut a, vec![appointed(&root, &third, T0 + 2)]).unwrap();
    apply(&mut b, vec![appointed(&second, &third, T0 + 2)]).unwrap();
    assert_ne!(a, b);
    let ab = merged(&a, &b);
    assert_eq!(ab, merged(&b, &a));
    let by = ab.admins.grants.get(&id(&third)).unwrap().granted_by;
    let first = if root.verifying_key().0 < second.verifying_key().0 { &root } else { &second };
    assert_eq!(by, first.verifying_key());
}

#[test]
fn one_text_by_two_admins_ties_by_their_signatures() {
    let (root, second) = (seeded(1), seeded(2));
    let mut a = AdministrationV1::default();
    apply(&mut a, vec![claimed(&root, T0), appointed(&root, &second, T0 + 1)]).unwrap();
    let mut b = a.clone();
    let mine = Announcement::new(&root, "same".to_string(), T0 + 5);
    let theirs = Announcement::new(&second, "same".to_string(), T0 + 5);
    assert_eq!(mine.id, theirs.id);
    let lower =
        if mine.signature.0 < theirs.signature.0 { mine.clone() } else { theirs.clone() };
    apply(&mut a, vec![AdminAction::Announce(mine)]).unwrap();
    apply(&mut b, vec![AdminAction::Announce(theirs)]).unwrap();
    let ab = merged(&a, &b);
    assert_eq!(ab, merged(&b, &a));
    assert_eq!(ab.recent_announcements(), vec![&lower]);
}

#[test]
fn rival_administrations_give_way_in_any_order() {
    let (late, soon, second) = (seeded(1), seeded(2), seeded(3));
    let mut a = AdministrationV1::default();
    apply(
        &mut a,
        vec![
            claimed(&late, T0 + 1000),
            AdminAction::Announce(Announcement::new(&late, "mine".to_string(), T0 + 2000)),
        ],
    )
    .unwrap();
    let mut b = AdministrationV1::default();
    apply(
        &mut b,
        vec![
            claimed(&soon, T0),
            AdminAction::Service(ServiceState::new(&soon, true, "up".to_string(), T0 + 3)),
        ],
    )
    .unwrap();
    let mut c = AdministrationV1::default();
    apply(
        &mut c,
        vec![
            claimed(&soon, T0),
            appointed(&soon, &second, T0 + 1),
            AdminAction::Announce(Announcement::new(&second, "ours".to_string(), T0 + 5)),
        ],
    )
    .unwrap();

    assert_eq!(merged(&a, &b), b, "the sooner claim is left as it was");
    assert_eq!(merged(&b, &a), b);
    assert_eq!(merged(&merged(&a, &b), &a), b, "who gave way stays out");
    let bc = merged(&b, &c);
    assert_eq!(merged(&merged(&a, &b), &c), merged(&a, &bc));
    assert_eq!(merged(&merged(&b, &a), &c), merged(&b, &merged(&a, &c)));
    assert_eq!(merged(&bc, &a), merged(&b, &merged(&c, &a)));
    assert_eq!(merged(&a, &bc), bc);
    assert_eq!(bc.admins.len(), 2);

    let mut d = AdministrationV1::default();
    apply(&mut d, vec![claimed(&seeded(4), T0 + 500)]).unwrap();
    assert_eq!(merged(&merged(&a, &d), &b), merged(&a, &merged(&d, &b)));
    assert_eq!(merged(&merged(&a, &d), &a), d);
}

#[test]
fn admins_without_room_leave_alike_in_any_order() {
    let root = seeded(1);
    let copy = |from: u8, n: u8| {
        let mut actions = vec![claimed(&root, T0)];
        for i in from..from + n {
            actions.push(appointed(&root, &seeded(10 + i), T0 + 1000 - i as i64));
        }
        actions.push(AdminAction::Announce(Announcement::new(
            &root,
            "hello".to_string(),
            T0 + 2000 + from as i64,
        )));
        let mut admin = AdministrationV1::default();
        apply(&mut admin, actions).unwrap();
        admin
    };
    let (a, b, c) = (copy(0, 40), copy(30, 30), copy(55, 25));
    let ab = merged(&a, &b);
    assert_eq!(ab.admins.len(), 50);
    assert!(!ab.is_admin(id(&seeded(10))), "the last to be appointed leave");
    let all = merged(&ab, &c);
    assert_eq!(all, merged(&a, &merged(&b, &c)));
    assert_eq!(all, merged(&merged(&c, &a), &b));
    assert_eq!(all.admins.len(), 50);
    assert_eq!(merged(&ab, &a), ab);
    assert_eq!(merged(&ab, &b), ab);
    assert_eq!(all.recent_announcements().len(), 3);
}
