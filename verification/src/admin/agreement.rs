//! Why two copies of administration agree.

use super::notices::{
    absorb_migration, absorb_service, announcement_fault, migration_fault, service_fault,
    takedown_fault, Announcement, Migration, ServiceState, Takedown,
};
use super::office::{
    admin_after, admin_change, admin_fault, admin_pruned, admin_told, all_acted, all_actions,
    announced_by, announcement_faults, grants_in, heard, law_only_admins_are_heard,
    no_administration, taken_down_by, takedown_faults, AdminAction, AdminView,
};
use super::{admins_pruned, AdminGrant, AdminsV1};
use crate::game::sig_rank;
use crate::identity::{id_of, GameId, PlayerId};
use crate::join::{
    filed, heeded, join, law_joining_commutes, law_joining_twice_is_joining_once,
    lemma_heeded_is_joined, lemma_told_alike, lemma_values_join,
};
use crate::ledger::{
    entries_after, entry_key, entry_over, lemma_checked_is_sound, lemma_entries_ordered,
    lemma_sound_entries_come_in, told_apart, Entry,
};
use crate::lists::values_of;
use crate::sorted_map::{lemma_listing_entry, lemma_listing_place, listing};
use crate::text::lemma_no_fault;
use vstd::prelude::*;

verus! {

proof fn lemma_grants_in_both(s: Seq<AdminAction>, t: Seq<AdminAction>)
    ensures
        grants_in(s + t) == grants_in(s) + grants_in(t),
    decreases t.len(),
{
    if t.len() == 0 {
        assert(s + t =~= s);
        assert(grants_in(s) + grants_in(t) =~= grants_in(s));
    } else {
        lemma_grants_in_both(s, t.drop_last());
        assert((s + t).drop_last() =~= s + t.drop_last());
        assert(grants_in(s + t) =~= grants_in(s) + grants_in(t));
    }
}

proof fn lemma_grants_of_grants(gs: Seq<AdminGrant>)
    ensures
        grants_in(gs.map_values(|g: AdminGrant| AdminAction::Grant(g))) == gs,
    decreases gs.len(),
{
    let acts = gs.map_values(|g: AdminGrant| AdminAction::Grant(g));
    if gs.len() > 0 {
        assert(acts.drop_last() =~= gs.drop_last().map_values(|g: AdminGrant| AdminAction::Grant(g)));
        lemma_grants_of_grants(gs.drop_last());
    }
    assert(grants_in(acts) =~= gs);
}

proof fn lemma_no_grants(acts: Seq<AdminAction>)
    requires
        forall|i: int| 0 <= i < acts.len() ==> !((#[trigger] acts[i]) is Grant),
    ensures
        grants_in(acts) == Seq::<AdminGrant>::empty(),
    decreases acts.len(),
{
    if acts.len() > 0 {
        assert forall|i: int| 0 <= i < acts.drop_last().len() implies !((#[trigger] acts.drop_last()[i]) is Grant) by {
            assert(acts.drop_last()[i] == acts[i]);
        }
        lemma_no_grants(acts.drop_last());
        assert(!(acts[acts.len() - 1] is Grant));
    }
}

/// The appointments among everything that administrators have done.
proof fn lemma_all_grants(b: AdminView)
    ensures
        grants_in(all_actions(b)) == values_of(b.grants),
{
    let gs = values_of(b.grants).map_values(|g: AdminGrant| AdminAction::Grant(g));
    let xs = values_of(b.announcements).map_values(|x: Announcement| AdminAction::Announce(x));
    let ts = values_of(b.takedowns).map_values(|x: Takedown| AdminAction::TakeDown(x));
    let ss = match b.service {
        Some(s) => seq![AdminAction::Service(s)],
        None => Seq::empty(),
    };
    let ms = match b.migration {
        Some(m) => seq![AdminAction::Migrate(m)],
        None => Seq::empty(),
    };
    lemma_grants_in_both(gs + xs + ts + ss, ms);
    lemma_grants_in_both(gs + xs + ts, ss);
    lemma_grants_in_both(gs + xs, ts);
    lemma_grants_in_both(gs, xs);
    lemma_grants_of_grants(values_of(b.grants));
    lemma_no_grants(xs);
    lemma_no_grants(ts);
    lemma_no_grants(ss);
    lemma_no_grants(ms);
    assert(grants_in(all_actions(b)) =~= values_of(b.grants));
}

proof fn lemma_acted_on_both(a: AdminView, s: Seq<AdminAction>, t: Seq<AdminAction>)
    ensures
        all_acted(a, s + t) == all_acted(all_acted(a, s), t),
    decreases t.len(),
{
    if t.len() == 0 {
        assert(s + t =~= s);
    } else {
        assert((s + t).drop_last() =~= s + t.drop_last());
        lemma_acted_on_both(a, s, t.drop_last());
    }
}

proof fn lemma_grants_change_nothing(a: AdminView, gs: Seq<AdminGrant>)
    ensures
        all_acted(a, gs.map_values(|g: AdminGrant| AdminAction::Grant(g))) == a,
    decreases gs.len(),
{
    let acts = gs.map_values(|g: AdminGrant| AdminAction::Grant(g));
    if gs.len() > 0 {
        assert(acts.drop_last() =~= gs.drop_last().map_values(|g: AdminGrant| AdminAction::Grant(g)));
        lemma_grants_change_nothing(a, gs.drop_last());
    }
}

proof fn lemma_announcements_come_in(
    a: AdminView,
    xs: Seq<Announcement>,
    office: Map<PlayerId, AdminGrant>,
)
    requires
        forall|i: int| 0 <= i < xs.len() ==> announcement_fault(#[trigger] xs[i], office) is None,
    ensures
        all_acted(a, xs.map_values(|x: Announcement| AdminAction::Announce(x))) == (AdminView {
            announcements: heeded(
                a.announcements,
                xs,
                entry_key::<AdminsV1, Announcement>(),
                entry_over::<AdminsV1, Announcement>(),
                announced_by(a.grants),
            ),
            ..a
        }),
    decreases xs.len(),
{
    let acts = xs.map_values(|x: Announcement| AdminAction::Announce(x));
    if xs.len() > 0 {
        let front = xs.drop_last();
        assert(acts.drop_last() =~= front.map_values(|x: Announcement| AdminAction::Announce(x)));
        assert forall|i: int| 0 <= i < front.len() implies announcement_fault(
            #[trigger] front[i],
            office,
        ) is None by {
            assert(front[i] == xs[i]);
        }
        lemma_announcements_come_in(a, front, office);
        assert(announcement_fault(xs[xs.len() - 1], office) is None);
        assert(acts.last() == AdminAction::Announce(xs.last()));
    }
}

proof fn lemma_takedowns_come_in(
    a: AdminView,
    xs: Seq<Takedown>,
    office: Map<PlayerId, AdminGrant>,
)
    requires
        forall|i: int| 0 <= i < xs.len() ==> takedown_fault(#[trigger] xs[i], office) is None,
    ensures
        all_acted(a, xs.map_values(|x: Takedown| AdminAction::TakeDown(x))) == (AdminView {
            takedowns: heeded(
                a.takedowns,
                xs,
                entry_key::<AdminsV1, Takedown>(),
                entry_over::<AdminsV1, Takedown>(),
                taken_down_by(a.grants),
            ),
            ..a
        }),
    decreases xs.len(),
{
    let acts = xs.map_values(|x: Takedown| AdminAction::TakeDown(x));
    if xs.len() > 0 {
        let front = xs.drop_last();
        assert(acts.drop_last() =~= front.map_values(|x: Takedown| AdminAction::TakeDown(x)));
        assert forall|i: int| 0 <= i < front.len() implies takedown_fault(
            #[trigger] front[i],
            office,
        ) is None by {
            assert(front[i] == xs[i]);
        }
        lemma_takedowns_come_in(a, front, office);
        assert(takedown_fault(xs[xs.len() - 1], office) is None);
        assert(acts.last() == AdminAction::TakeDown(xs.last()));
    }
}

/// What passes the check is sound, part for part.
pub proof fn lemma_checked_notices(a: AdminView)
    requires
        a.announcements.dom().finite(),
        a.takedowns.dom().finite(),
        admin_fault(a) is None,
    ensures
        filed(a.announcements, entry_key::<AdminsV1, Announcement>()),
        filed(a.takedowns, entry_key::<AdminsV1, Takedown>()),
        forall|i: int|
            0 <= i < values_of(a.announcements).len() ==> announcement_fault(
                #[trigger] values_of(a.announcements)[i],
                a.grants,
            ) is None,
        forall|i: int|
            0 <= i < values_of(a.takedowns).len() ==> takedown_fault(
                #[trigger] values_of(a.takedowns)[i],
                a.grants,
            ) is None,
{
    let f = announcement_faults(a.announcements, a.grants);
    let n = listing(a.announcements).len();
    lemma_no_fault(f, n);
    assert forall|k: [u8; 16]| #[trigger] a.announcements.contains_key(k) implies a.announcements[k].id
        == k by {
        let i = lemma_listing_place(a.announcements, k);
        assert(f(i) is None);
    }
    assert forall|i: int| 0 <= i < n implies announcement_fault(
        #[trigger] values_of(a.announcements)[i],
        a.grants,
    ) is None by {
        assert(f(i) is None);
    }
    let g = takedown_faults(a.takedowns, a.grants);
    let m = listing(a.takedowns).len();
    lemma_no_fault(g, m);
    assert forall|k: GameId| #[trigger] a.takedowns.contains_key(k) implies a.takedowns[k].game_id
        == k by {
        let i = lemma_listing_place(a.takedowns, k);
        assert(g(i) is None);
    }
    assert forall|i: int| 0 <= i < m implies takedown_fault(
        #[trigger] values_of(a.takedowns)[i],
        a.grants,
    ) is None by {
        assert(g(i) is None);
    }
}

/// The administrators that two copies come to know between them.
pub open spec fn admins_between(a: AdminView, b: AdminView) -> Map<PlayerId, AdminGrant> {
    admins_pruned(join(a.grants, b.grants, entry_over::<(), AdminGrant>()))
}

/// What two statements on the service make, where both are heard.
pub open spec fn service_joined(
    mine: Option<ServiceState>,
    theirs: Option<ServiceState>,
) -> Option<ServiceState> {
    match theirs {
        Some(s) => absorb_service(mine, s),
        None => mine,
    }
}

/// What two words of a move make, where both are heard.
pub open spec fn migration_joined(
    mine: Option<Migration>,
    theirs: Option<Migration>,
) -> Option<Migration> {
    match theirs {
        Some(m) => absorb_migration(mine, m),
        None => mine,
    }
}

/// The administrators that two copies come to know, and all that either copy
/// holds of what these said.
pub open spec fn administrations_joined(a: AdminView, b: AdminView) -> AdminView {
    let admins = admins_between(a, b);
    let (x, y) = (heard(a, admins), heard(b, admins));
    AdminView {
        grants: admins,
        announcements: join(
            x.announcements,
            y.announcements,
            entry_over::<AdminsV1, Announcement>(),
        ),
        takedowns: join(x.takedowns, y.takedowns, entry_over::<AdminsV1, Takedown>()),
        service: service_joined(x.service, y.service),
        migration: migration_joined(x.migration, y.migration),
    }
}

/// Whether a copy of administration is as checks and pruning leave it.
pub open spec fn settled(a: AdminView) -> bool {
    &&& a.grants.dom().finite() && a.announcements.dom().finite() && a.takedowns.dom().finite()
    &&& admin_fault(a) is None
    &&& admin_pruned(a) == a
}

/// The appointments of another copy are joined.
proof fn lemma_grants_join(a: AdminView, b: AdminView)
    requires
        settled(a),
        settled(b),
    ensures
        entries_after::<(), AdminGrant>(a.grants, grants_in(all_actions(b)), ()) == (
            join(a.grants, b.grants, entry_over::<(), AdminGrant>()),
            None::<Seq<char>>,
        ),
{
    lemma_all_grants(b);
    lemma_checked_is_sound::<(), AdminGrant>(b.grants, ());
    let gs = values_of(b.grants);
    assert forall|i: int| 0 <= i < gs.len() implies AdminGrant::entry_fault(
        #[trigger] gs[i],
        (),
    ) is None by {
        lemma_listing_entry(b.grants, i);
        assert(b.grants.contains_key(listing(b.grants)[i].0));
    }
    lemma_sound_entries_come_in::<(), AdminGrant>(a.grants, gs, ());
    lemma_entries_ordered::<(), AdminGrant>();
    lemma_values_join::<PlayerId, AdminGrant>(
        a.grants,
        b.grants,
        entry_key::<(), AdminGrant>(),
        entry_over::<(), AdminGrant>(),
    );
}

/// Administration once one more statement may have come in.
proof fn lemma_statements_come_in(
    a: AdminView,
    s: Option<ServiceState>,
    m: Option<Migration>,
    office: Map<PlayerId, AdminGrant>,
)
    requires
        s matches Some(x) ==> service_fault(x, office) is None,
        m matches Some(x) ==> migration_fault(x, office) is None,
    ensures
        all_acted(
            a,
            (match s {
                Some(x) => seq![AdminAction::Service(x)],
                None => Seq::empty(),
            }) + (match m {
                Some(x) => seq![AdminAction::Migrate(x)],
                None => Seq::empty(),
            }),
        ) == (AdminView {
            service: match s {
                Some(x) => if a.grants.contains_key(id_of(x.author)) {
                    absorb_service(a.service, x)
                } else {
                    a.service
                },
                None => a.service,
            },
            migration: match m {
                Some(x) => if a.grants.contains_key(id_of(x.author)) {
                    absorb_migration(a.migration, x)
                } else {
                    a.migration
                },
                None => a.migration,
            },
            ..a
        }),
{
    reveal_with_fuel(all_acted, 3);
    let ss = match s {
        Some(x) => seq![AdminAction::Service(x)],
        None => Seq::empty(),
    };
    let ms = match m {
        Some(x) => seq![AdminAction::Migrate(x)],
        None => Seq::empty(),
    };
    lemma_acted_on_both(a, ss, ms);
    match s {
        Some(x) => {
            assert(ss.drop_last() =~= Seq::<AdminAction>::empty());
            assert(ss.last() == AdminAction::Service(x));
        },
        None => {},
    }
    match m {
        Some(x) => {
            assert(ms.drop_last() =~= Seq::<AdminAction>::empty());
            assert(ms.last() == AdminAction::Migrate(x));
        },
        None => {},
    }
}

/// What another copy holds comes in as far as it is heard.
proof fn lemma_notices_come_in(x: AdminView, b: AdminView)
    requires
        settled(b),
    ensures
        all_acted(x, all_actions(b)) == (AdminView {
            grants: x.grants,
            announcements: join(
                x.announcements,
                heard(b, x.grants).announcements,
                entry_over::<AdminsV1, Announcement>(),
            ),
            takedowns: join(
                x.takedowns,
                heard(b, x.grants).takedowns,
                entry_over::<AdminsV1, Takedown>(),
            ),
            service: service_joined(x.service, heard(b, x.grants).service),
            migration: migration_joined(x.migration, heard(b, x.grants).migration),
        }),
{
    let gs = values_of(b.grants).map_values(|g: AdminGrant| AdminAction::Grant(g));
    let xs = values_of(b.announcements).map_values(|x: Announcement| AdminAction::Announce(x));
    let ts = values_of(b.takedowns).map_values(|x: Takedown| AdminAction::TakeDown(x));
    let ss = match b.service {
        Some(s) => seq![AdminAction::Service(s)],
        None => Seq::empty(),
    };
    let ms = match b.migration {
        Some(m) => seq![AdminAction::Migrate(m)],
        None => Seq::empty(),
    };
    lemma_checked_notices(b);
    assert(gs + xs + ts + ss + ms =~= gs + xs + ts + (ss + ms));
    lemma_acted_on_both(x, gs + xs + ts, ss + ms);
    lemma_acted_on_both(x, gs + xs, ts);
    lemma_acted_on_both(x, gs, xs);
    lemma_grants_change_nothing(x, values_of(b.grants));
    lemma_announcements_come_in(x, values_of(b.announcements), b.grants);
    lemma_heeded_is_joined(
        x.announcements,
        b.announcements,
        entry_key::<AdminsV1, Announcement>(),
        entry_over::<AdminsV1, Announcement>(),
        announced_by(x.grants),
    );
    let x1 = all_acted(x, xs);
    lemma_takedowns_come_in(x1, values_of(b.takedowns), b.grants);
    lemma_heeded_is_joined(
        x.takedowns,
        b.takedowns,
        entry_key::<AdminsV1, Takedown>(),
        entry_over::<AdminsV1, Takedown>(),
        taken_down_by(x.grants),
    );
    lemma_statements_come_in(all_acted(x1, ts), b.service, b.migration, b.grants);
}

/// Taking in all that another copy holds joins the two.
proof fn lemma_taking_all_in(a: AdminView, b: AdminView)
    requires
        settled(a),
        settled(b),
    ensures
        admin_after(a, all_actions(b)) == (administrations_joined(a, b), None::<Seq<char>>),
{
    lemma_grants_join(a, b);
    lemma_notices_come_in(heard(a, admins_between(a, b)), b);
}

/// Whether what two copies say of the service and of a move can be told apart:
/// what shares a mark, or time and signature, is one statement.
pub open spec fn statements_told_apart(a: AdminView, b: AdminView) -> bool {
    &&& admin_told(a).service == admin_told(b).service ==> a.service == b.service
    &&& admin_told(a).migration == admin_told(b).migration ==> a.migration == b.migration
    &&& (a.service is Some && b.service is Some && a.service->0.at == b.service->0.at && sig_rank(
        a.service->0.signature,
    ) == sig_rank(b.service->0.signature) ==> a.service == b.service)
    &&& (a.migration is Some && b.migration is Some && a.migration->0.at == b.migration->0.at
        && sig_rank(a.migration->0.signature) == sig_rank(b.migration->0.signature) ==> a.migration
        == b.migration)
}

/// Whether two copies of administration can be brought together: what differs
/// can be told apart.
pub open spec fn alike(a: AdminView, b: AdminView) -> bool {
    &&& settled(a) && settled(b)
    &&& told_apart::<(), AdminGrant>(a.grants, b.grants)
    &&& told_apart::<AdminsV1, Announcement>(a.announcements, b.announcements)
    &&& told_apart::<AdminsV1, Takedown>(a.takedowns, b.takedowns)
    &&& statements_told_apart(a, b)
}

/// What an administration holds once another copy has sent what it may, before
/// it is pruned.
pub open spec fn admin_synced(a: AdminView, b: AdminView) -> (AdminView, Option<Seq<char>>) {
    match admin_change(b, admin_told(a)) {
        Some(acts) => admin_after(a, acts),
        None => (a, None),
    }
}

/// What is settled has only what its own administrators said.
pub proof fn lemma_settled_is_heard(a: AdminView)
    requires
        settled(a),
    ensures
        admins_pruned(a.grants) == a.grants,
        heard(a, a.grants) == a,
{
    law_only_admins_are_heard(a);
    assert(heard(a, a.grants) =~= a);
}

/// An administration joined with itself is itself.
pub proof fn lemma_joined_with_itself(a: AdminView)
    requires
        settled(a),
    ensures
        administrations_joined(a, a) == a,
{
    lemma_entries_ordered::<(), AdminGrant>();
    lemma_entries_ordered::<AdminsV1, Announcement>();
    lemma_entries_ordered::<AdminsV1, Takedown>();
    law_joining_twice_is_joining_once(a.grants, a.grants, entry_over::<(), AdminGrant>());
    law_joining_twice_is_joining_once(
        a.announcements,
        a.announcements,
        entry_over::<AdminsV1, Announcement>(),
    );
    law_joining_twice_is_joining_once(
        a.takedowns,
        a.takedowns,
        entry_over::<AdminsV1, Takedown>(),
    );
    lemma_settled_is_heard(a);
    assert(administrations_joined(a, a) =~= a);
}

/// An administration joined with none is itself.
proof fn lemma_joined_with_none(a: AdminView)
    requires
        settled(a),
    ensures
        administrations_joined(a, no_administration()) == a,
{
    let b = no_administration();
    assert(join(a.grants, b.grants, entry_over::<(), AdminGrant>()) =~= a.grants);
    lemma_settled_is_heard(a);
    assert(join(
        a.announcements,
        heard(b, a.grants).announcements,
        entry_over::<AdminsV1, Announcement>(),
    ) =~= a.announcements);
    assert(join(a.takedowns, heard(b, a.grants).takedowns, entry_over::<AdminsV1, Takedown>())
        =~= a.takedowns);
    assert(administrations_joined(a, b) =~= a);
}

/// Where nothing is sent, there was nothing to send.
pub proof fn lemma_silence(a: AdminView, b: AdminView)
    requires
        alike(a, b),
        admin_change(b, admin_told(a)) is None,
    ensures
        a == b || b == no_administration(),
{
    if admin_told(a) == admin_told(b) {
        lemma_told_alike::<PlayerId, AdminGrant>(a.grants, b.grants);
        lemma_told_alike::<[u8; 16], Announcement>(a.announcements, b.announcements);
        lemma_told_alike::<GameId, Takedown>(a.takedowns, b.takedowns);
        assert(a =~= b);
    } else {
        let gs = values_of(b.grants).map_values(|g: AdminGrant| AdminAction::Grant(g));
        assert(all_actions(b).len() >= gs.len());
        assert(listing(b.grants).len() == 0);
        assert forall|k: PlayerId| !b.grants.contains_key(k) by {
            if b.grants.contains_key(k) {
                let i = lemma_listing_place(b.grants, k);
            }
        }
        lemma_unheard(b);
        assert(b.grants =~= Map::<PlayerId, AdminGrant>::empty());
        assert(b =~= no_administration());
    }
}

/// Without administrators there is no administration.
proof fn lemma_unheard(a: AdminView)
    requires
        settled(a),
        forall|k: PlayerId| !a.grants.contains_key(k),
    ensures
        a.announcements == Map::<[u8; 16], Announcement>::empty(),
        a.takedowns == Map::<GameId, Takedown>::empty(),
        a.service is None,
        a.migration is None,
{
    law_only_admins_are_heard(a);
    assert(a.announcements =~= Map::<[u8; 16], Announcement>::empty());
    assert(a.takedowns =~= Map::<GameId, Takedown>::empty());
}

/// What another sends joins its copy.
proof fn lemma_syncing_joins_administrations(a: AdminView, b: AdminView)
    requires
        alike(a, b),
    ensures
        admin_synced(a, b) == (administrations_joined(a, b), None::<Seq<char>>),
{
    if admin_change(b, admin_told(a)) is None {
        lemma_silence(a, b);
        lemma_joined_with_itself(a);
        lemma_joined_with_none(a);
    } else {
        lemma_taking_all_in(a, b);
    }
}

/// Two administrations join alike either way.
pub proof fn law_administrations_join_alike(a: AdminView, b: AdminView)
    requires
        alike(a, b),
    ensures
        administrations_joined(a, b) == administrations_joined(b, a),
{
    lemma_entries_ordered::<(), AdminGrant>();
    lemma_entries_ordered::<AdminsV1, Announcement>();
    lemma_entries_ordered::<AdminsV1, Takedown>();
    law_joining_commutes(a.grants, b.grants, entry_over::<(), AdminGrant>());
    let admins = admins_between(a, b);
    let (x, y) = (heard(a, admins), heard(b, admins));
    law_joining_commutes(x.announcements, y.announcements, entry_over::<AdminsV1, Announcement>());
    law_joining_commutes(x.takedowns, y.takedowns, entry_over::<AdminsV1, Takedown>());
    assert(administrations_joined(a, b) =~= administrations_joined(b, a));
}

/// Two copies hold the same once each has taken in what the other sent: the
/// administrators that they come to know between them, and all that either
/// held of what these said, whoever lost office on the way.
pub proof fn law_administrations_agree(a: AdminView, b: AdminView)
    requires
        alike(a, b),
    ensures
        admin_synced(a, b) == (administrations_joined(a, b), None::<Seq<char>>),
        admin_synced(b, a) == admin_synced(a, b),
        admin_pruned(admin_synced(b, a).0) == admin_pruned(admin_synced(a, b).0),
{
    assert(alike(b, a));
    lemma_syncing_joins_administrations(a, b);
    lemma_syncing_joins_administrations(b, a);
    law_administrations_join_alike(a, b);
}

} // verus!
