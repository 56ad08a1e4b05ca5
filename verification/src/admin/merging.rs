//! Why copies of administration can be merged in any order, and any number of
//! times.

use super::agreement::{
    admin_synced, administrations_joined, admins_between, alike, law_administrations_agree,
    lemma_checked_notices,
    lemma_settled_is_heard, migration_joined, service_joined, settled, statements_told_apart,
};
use super::notices::{Announcement, Takedown};
use super::office::{
    admin_change, admin_pruned, admin_told, announced_by, heard, taken_down_by, AdminView,
};
use super::pruning::{
    law_pruning_administration_twice_is_pruning_it_once,
    law_pruning_admins_twice_is_pruning_them_once, law_updates_keep_administration_valid,
};
use super::succession::{lemma_joined_grants_filed, offices_alike};
use super::{
    admins_pruned, filed, lemma_chain_is_part, part_of, AdminGrant, AdminsV1, MAX_ANNOUNCEMENTS,
    MAX_TAKEDOWNS,
};
use crate::identity::{id_of, GameId, PlayerId};
use crate::join::{all_apart, apart, join, law_joining_twice_is_joining_once};
use crate::ledger::{
    capped, entry_key, entry_over, joinable, lemma_capped_joins_in_any_order, lemma_checked_is_sound,
    lemma_entries_ordered, steady, told_apart, Entry,
};
use vstd::prelude::*;

verus! {

/// The appointments of two copies together.
pub open spec fn joined_grants(
    a: Map<PlayerId, AdminGrant>,
    b: Map<PlayerId, AdminGrant>,
) -> Map<PlayerId, AdminGrant> {
    join(a, b, entry_over::<(), AdminGrant>())
}

/// The administrators of two copies together.
pub open spec fn office_of(a: AdminView, b: AdminView) -> Map<PlayerId, AdminGrant> {
    joined_grants(a.grants, b.grants)
}

/// Whether all that a copy holds was said by some administrators.
pub open spec fn all_heard(a: AdminView, admins: Map<PlayerId, AdminGrant>) -> bool {
    heard(a, admins) == a.with_grants(admins)
}

/// Whether whoever loses office where two copies meet had said nothing.
pub open spec fn silent_leave(a: AdminView, b: AdminView) -> bool {
    all_heard(a, admins_between(a, b)) && all_heard(b, admins_between(a, b))
}

/// Whoever is left where two copies meet, and all that the copies hold, cut to
/// what is kept.
pub open spec fn all_said(a: AdminView, b: AdminView) -> AdminView {
    AdminView {
        grants: admins_between(a, b),
        announcements: capped::<AdminsV1, Announcement>(
            join(a.announcements, b.announcements, entry_over::<AdminsV1, Announcement>()),
            MAX_ANNOUNCEMENTS as nat,
        ),
        takedowns: capped::<AdminsV1, Takedown>(
            join(a.takedowns, b.takedowns, entry_over::<AdminsV1, Takedown>()),
            MAX_TAKEDOWNS as nat,
        ),
        service: service_joined(a.service, b.service),
        migration: migration_joined(a.migration, b.migration),
    }
}

impl AdminView {
    /// The same, under other administrators.
    pub open spec fn with_grants(self, grants: Map<PlayerId, AdminGrant>) -> AdminView {
        AdminView { grants, ..self }
    }
}

/// All that copies in which everyone stays in office hold is heard.
pub proof fn law_nobody_unheard_where_nobody_leaves(a: AdminView, admins: Map<PlayerId, AdminGrant>)
    requires
        settled(a),
        forall|k: PlayerId| #[trigger] a.grants.contains_key(k) ==> admins.contains_key(k),
    ensures
        all_heard(a, admins),
{
    lemma_settled_is_heard(a);
    assert forall|k: [u8; 16]| #[trigger] a.announcements.contains_key(k) implies announced_by(
        admins,
    )(a.announcements[k]) by {
        assert(heard(a, a.grants).announcements.contains_key(k));
    }
    assert forall|k: GameId| #[trigger] a.takedowns.contains_key(k) implies taken_down_by(admins)(
        a.takedowns[k],
    ) by {
        assert(heard(a, a.grants).takedowns.contains_key(k));
    }
    assert(heard(a, admins) =~= a.with_grants(admins));
}

/// The administrators that two copies come to know are as pruning leaves them.
proof fn lemma_between_is_pruned(a: AdminView, b: AdminView)
    requires
        settled(a),
        settled(b),
    ensures
        admins_pruned(admins_between(a, b)) == admins_between(a, b),
        admins_between(a, b).dom().finite(),
        filed(admins_between(a, b)),
        part_of(admins_between(a, b), office_of(a, b)),
{
    lemma_checked_parts(a);
    lemma_checked_parts(b);
    lemma_joined_grants_filed(a.grants, b.grants);
    law_pruning_admins_twice_is_pruning_them_once(office_of(a, b));
    lemma_chain_is_part(office_of(a, b));
}

/// Where whoever leaves had said nothing, a copy that has merged another holds
/// all that both said.
proof fn lemma_merged_is_all_said(a: AdminView, b: AdminView)
    requires
        alike(a, b),
        silent_leave(a, b),
    ensures
        admin_pruned(administrations_joined(a, b)) == all_said(a, b),
{
    let j = administrations_joined(a, b);
    let g = admins_between(a, b);
    lemma_between_is_pruned(a, b);
    let h = heard(j, g);
    assert(h.announcements =~= j.announcements) by {
        assert forall|k: [u8; 16]| #[trigger] j.announcements.contains_key(k) implies announced_by(
            g,
        )(j.announcements[k]) by {
            if a.announcements.contains_key(k) {
                assert(heard(a, g).announcements.contains_key(k));
            }
            if b.announcements.contains_key(k) {
                assert(heard(b, g).announcements.contains_key(k));
            }
        }
    }
    assert(h.takedowns =~= j.takedowns) by {
        assert forall|k: GameId| #[trigger] j.takedowns.contains_key(k) implies taken_down_by(g)(
            j.takedowns[k],
        ) by {
            if a.takedowns.contains_key(k) {
                assert(heard(a, g).takedowns.contains_key(k));
            }
            if b.takedowns.contains_key(k) {
                assert(heard(b, g).takedowns.contains_key(k));
            }
        }
    }
    assert(heard(a, g).service == a.service && heard(b, g).service == b.service);
    assert(heard(a, g).migration == a.migration && heard(b, g).migration == b.migration);
    assert(h.service == j.service && h.migration == j.migration);
    assert(admin_pruned(j) =~= all_said(a, b));
}

/// What a copy holds once it has merged another: what was sent, taken in and
/// pruned.
pub open spec fn admin_merged(a: AdminView, b: AdminView) -> AdminView {
    admin_pruned(admin_synced(a, b).0)
}

/// What copies in order make is in order.
proof fn lemma_merged_is_settled(a: AdminView, b: AdminView)
    requires
        alike(a, b),
    ensures
        settled(admin_merged(a, b)),
{
    law_administrations_agree(a, b);
    let x = admin_synced(a, b).0;
    lemma_checked_is_sound::<(), AdminGrant>(a.grants, ());
    lemma_checked_is_sound::<(), AdminGrant>(b.grants, ());
    lemma_checked_parts(a);
    lemma_checked_parts(b);
    lemma_joined_parts(a, b);
    lemma_pruned_parts(x);
    law_pruning_administration_twice_is_pruning_it_once(x);
    if let Some(acts) = admin_change(b, admin_told(a)) {
        law_updates_keep_administration_valid(a, acts);
    }
}

/// What passes the check is filed.
proof fn lemma_checked_parts(a: AdminView)
    requires
        settled(a),
    ensures
        filed(a.grants),
        crate::join::filed(a.announcements, entry_key::<AdminsV1, Announcement>()),
        crate::join::filed(a.takedowns, entry_key::<AdminsV1, Takedown>()),
{
    lemma_checked_is_sound::<(), AdminGrant>(a.grants, ());
    lemma_checked_notices(a);
}

/// What two copies make is finite and filed, as they are.
proof fn lemma_joined_parts(a: AdminView, b: AdminView)
    requires
        settled(a),
        settled(b),
        filed(a.grants),
        filed(b.grants),
        crate::join::filed(a.announcements, entry_key::<AdminsV1, Announcement>()),
        crate::join::filed(b.announcements, entry_key::<AdminsV1, Announcement>()),
        crate::join::filed(a.takedowns, entry_key::<AdminsV1, Takedown>()),
        crate::join::filed(b.takedowns, entry_key::<AdminsV1, Takedown>()),
    ensures
        ({
            let x = administrations_joined(a, b);
            &&& x.grants.dom().finite() && filed(x.grants)
            &&& x.announcements.dom().finite() && x.takedowns.dom().finite()
            &&& crate::join::filed(x.announcements, entry_key::<AdminsV1, Announcement>())
            &&& crate::join::filed(x.takedowns, entry_key::<AdminsV1, Takedown>())
        }),
{
    let x = administrations_joined(a, b);
    let g = office_of(a, b);
    assert(g.dom() =~= a.grants.dom().union(b.grants.dom()));
    assert(filed(g)) by {
        assert forall|k: PlayerId| #[trigger] g.contains_key(k) implies id_of(g[k].grantee) == k by {
            assert(a.grants.contains_key(k) || b.grants.contains_key(k));
        }
    }
    lemma_chain_is_part(g);
    assert(x.announcements.dom().subset_of(a.announcements.dom().union(b.announcements.dom())));
    vstd::set_lib::lemma_len_subset(
        x.announcements.dom(),
        a.announcements.dom().union(b.announcements.dom()),
    );
    assert(x.takedowns.dom().subset_of(a.takedowns.dom().union(b.takedowns.dom())));
    vstd::set_lib::lemma_len_subset(x.takedowns.dom(), a.takedowns.dom().union(b.takedowns.dom()));
    assert forall|k: [u8; 16]| #[trigger] x.announcements.contains_key(k) implies x.announcements[k].id
        == k by {
        assert(a.announcements.contains_key(k) || b.announcements.contains_key(k));
    }
    assert forall|k: GameId| #[trigger] x.takedowns.contains_key(k) implies x.takedowns[k].game_id
        == k by {
        assert(a.takedowns.contains_key(k) || b.takedowns.contains_key(k));
    }
}

/// Pruning leaves something finite.
proof fn lemma_pruned_parts(x: AdminView)
    requires
        x.grants.dom().finite() && filed(x.grants),
        x.announcements.dom().finite() && x.takedowns.dom().finite(),
    ensures
        admin_pruned(x).grants.dom().finite(),
        admin_pruned(x).announcements.dom().finite(),
        admin_pruned(x).takedowns.dom().finite(),
{
    let p = admin_pruned(x);
    lemma_chain_is_part(x.grants);
    assert(p.announcements.dom().subset_of(x.announcements.dom()));
    vstd::set_lib::lemma_len_subset(p.announcements.dom(), x.announcements.dom());
    assert(p.takedowns.dom().subset_of(x.takedowns.dom()));
    vstd::set_lib::lemma_len_subset(p.takedowns.dom(), x.takedowns.dom());
}

/// What is made of two maps, and cut, can be told apart from what both can.
proof fn lemma_told_apart_joined<P, E: Entry<P>>(
    a: Map<E::Key, E::V>,
    b: Map<E::Key, E::V>,
    c: Map<E::Key, E::V>,
    x: Map<E::Key, E::V>,
)
    requires
        told_apart::<P, E>(a, c),
        told_apart::<P, E>(b, c),
        forall|k: E::Key| #[trigger]
            x.contains_key(k) ==> (a.contains_key(k) && x[k] == a[k]) || (b.contains_key(k) && x[k]
                == b[k]),
    ensures
        told_apart::<P, E>(x, c),
        told_apart::<P, E>(c, x),
{
    assert forall|k: E::Key|
        #![trigger x.contains_key(k), c.contains_key(k)]
        x.contains_key(k) && c.contains_key(k) implies (E::mark_of(x[k]) == E::mark_of(c[k])
        ==> x[k] == c[k]) && apart(entry_over::<P, E>(), x[k], c[k]) by {
        if a.contains_key(k) && x[k] == a[k] {
            assert(apart(entry_over::<P, E>(), a[k], c[k]));
        } else {
            assert(apart(entry_over::<P, E>(), b[k], c[k]));
        }
    }
    assert forall|k: E::Key|
        #![trigger c.contains_key(k), x.contains_key(k)]
        c.contains_key(k) && x.contains_key(k) implies (E::mark_of(c[k]) == E::mark_of(x[k])
        ==> c[k] == x[k]) && apart(entry_over::<P, E>(), c[k], x[k]) by {
        assert(apart(entry_over::<P, E>(), x[k], c[k]));
    }
}

/// What two copies made can be brought together with whatever both can.
pub proof fn lemma_merged_alike(a: AdminView, b: AdminView, c: AdminView)
    requires
        alike(a, b),
        alike(a, c),
        alike(b, c),
    ensures
        alike(admin_merged(a, b), c),
        alike(c, admin_merged(a, b)),
        admin_merged(a, b) == admin_pruned(administrations_joined(a, b)),
{
    law_administrations_agree(a, b);
    lemma_merged_is_settled(a, b);
    lemma_between_is_pruned(a, b);
    let x = admin_merged(a, b);
    assert forall|k: PlayerId| #[trigger] x.grants.contains_key(k) implies (a.grants.contains_key(k)
        && x.grants[k] == a.grants[k]) || (b.grants.contains_key(k) && x.grants[k]
        == b.grants[k]) by {
        assert(admins_between(a, b).contains_key(k));
        assert(office_of(a, b).contains_key(k));
    }
    lemma_told_apart_joined::<(), AdminGrant>(a.grants, b.grants, c.grants, x.grants);
    lemma_told_apart_joined::<AdminsV1, Announcement>(
        a.announcements,
        b.announcements,
        c.announcements,
        x.announcements,
    );
    lemma_told_apart_joined::<AdminsV1, Takedown>(
        a.takedowns,
        b.takedowns,
        c.takedowns,
        x.takedowns,
    );
    assert(x.service is None || x.service == a.service || x.service == b.service);
    assert(x.migration is None || x.migration == a.migration || x.migration == b.migration);
    assert(statements_told_apart(x, c));
    assert(statements_told_apart(c, x));
}

/// Whether the same administrators are left whichever two of three copies meet
/// first, whoever leaves had said nothing, and of their notices none stands
/// further back than one it replaces, or there is room for all.
pub open spec fn office_is_steady(a: AdminView, b: AdminView, c: AdminView) -> bool {
    let all = admins_pruned(joined_grants(office_of(a, b), c.grants));
    &&& offices_alike(a.grants, b.grants, c.grants)
    &&& silent_leave(a, b) && silent_leave(b, c)
    &&& all_heard(a, all) && all_heard(b, all) && all_heard(c, all)
    &&& steady::<AdminsV1, Announcement>(
        a.announcements,
        b.announcements,
        c.announcements,
        MAX_ANNOUNCEMENTS as nat,
    )
    &&& steady::<AdminsV1, Takedown>(
        a.takedowns,
        b.takedowns,
        c.takedowns,
        MAX_TAKEDOWNS as nat,
    )
}

/// What two copies said is heard wherever both are.
proof fn lemma_all_said_is_heard(
    a: AdminView,
    b: AdminView,
    admins: Map<PlayerId, AdminGrant>,
)
    requires
        all_heard(a, admins),
        all_heard(b, admins),
    ensures
        all_heard(all_said(a, b), admins),
{
    let x = all_said(a, b);
    assert forall|k: [u8; 16]| #[trigger] x.announcements.contains_key(k) implies announced_by(
        admins,
    )(x.announcements[k]) by {
        if a.announcements.contains_key(k) {
            assert(heard(a, admins).announcements.contains_key(k));
        }
        if b.announcements.contains_key(k) {
            assert(heard(b, admins).announcements.contains_key(k));
        }
    }
    assert forall|k: GameId| #[trigger] x.takedowns.contains_key(k) implies taken_down_by(admins)(
        x.takedowns[k],
    ) by {
        if a.takedowns.contains_key(k) {
            assert(heard(a, admins).takedowns.contains_key(k));
        }
        if b.takedowns.contains_key(k) {
            assert(heard(b, admins).takedowns.contains_key(k));
        }
    }
    assert(heard(a, admins).service == a.service && heard(b, admins).service == b.service);
    assert(heard(a, admins).migration == a.migration && heard(b, admins).migration
        == b.migration);
    assert(heard(x, admins) =~= x.with_grants(admins));
}

/// All that three copies hold is the same, whichever two come first.
proof fn lemma_all_said_in_any_order(a: AdminView, b: AdminView, c: AdminView)
    requires
        alike(a, b),
        alike(b, c),
        alike(a, c),
        office_is_steady(a, b, c),
    ensures
        all_said(all_said(a, b), c) == all_said(a, all_said(b, c)),
{
    lemma_checked_parts(a);
    lemma_checked_parts(b);
    lemma_checked_parts(c);
    lemma_capped_joins_in_any_order::<AdminsV1, Announcement>(
        a.announcements,
        b.announcements,
        c.announcements,
        MAX_ANNOUNCEMENTS as nat,
    );
    lemma_capped_joins_in_any_order::<AdminsV1, Takedown>(
        a.takedowns,
        b.takedowns,
        c.takedowns,
        MAX_TAKEDOWNS as nat,
    );
    let p = all_said(all_said(a, b), c);
    let q = all_said(a, all_said(b, c));
    assert(p.service == q.service);
    assert(p.migration == q.migration);
    assert(p =~= q);
}

/// Three copies of administration hold the same once they have merged one
/// another, whichever two merge first, where the same administrators are left
/// and whoever leaves had said nothing. Who had spoken by then may have had a
/// notice in the place of one that stands.
pub proof fn law_administrations_merge_in_any_order(a: AdminView, b: AdminView, c: AdminView)
    requires
        alike(a, b),
        alike(b, c),
        alike(a, c),
        office_is_steady(a, b, c),
    ensures
        admin_merged(admin_merged(a, b), c) == admin_merged(a, admin_merged(b, c)),
        admin_merged(a, b) == all_said(a, b),
        admin_merged(b, c) == all_said(b, c),
{
    assert(alike(b, a) && alike(c, a) && alike(c, b));
    lemma_merged_alike(a, b, c);
    lemma_merged_alike(b, c, a);
    lemma_merged_is_all_said(a, b);
    lemma_merged_is_all_said(b, c);
    let x = all_said(a, b);
    let y = all_said(b, c);
    let all = admins_pruned(joined_grants(office_of(a, b), c.grants));
    assert(admins_between(x, c) == all);
    assert(admins_between(a, y) == all);
    lemma_all_said_is_heard(a, b, all);
    lemma_all_said_is_heard(b, c, all);
    law_administrations_agree(x, c);
    law_administrations_agree(a, y);
    lemma_merged_is_all_said(x, c);
    lemma_merged_is_all_said(a, y);
    lemma_all_said_in_any_order(a, b, c);
}

/// Whether nobody who lost office where two copies met comes back when the
/// second comes in again, and what its administrators said is steady.
pub open spec fn nobody_returns(a: AdminView, b: AdminView) -> bool {
    let left = admins_between(a, b);
    let (x, y) = (heard(a, left), heard(b, left));
    &&& admins_pruned(joined_grants(left, b.grants)) == left
    &&& steady::<AdminsV1, Announcement>(
        x.announcements,
        y.announcements,
        y.announcements,
        MAX_ANNOUNCEMENTS as nat,
    )
    &&& steady::<AdminsV1, Takedown>(
        x.takedowns,
        y.takedowns,
        y.takedowns,
        MAX_TAKEDOWNS as nat,
    )
}

/// A copy of administration that was merged already adds nothing, as long as
/// nobody who lost office comes back by it.
pub proof fn law_merging_administration_again_changes_nothing(a: AdminView, b: AdminView)
    requires
        alike(a, b),
        alike(b, b),
        nobody_returns(a, b),
    ensures
        admin_merged(admin_merged(a, b), b) == admin_merged(a, b),
{
    let m = admin_merged(a, b);
    let left = admins_between(a, b);
    let (x, y) = (heard(a, left), heard(b, left));
    lemma_merged_alike(a, b, b);
    lemma_merged_in_parts(a, b);
    lemma_merged_in_parts(m, b);
    assert(admins_between(m, b) == left);
    lemma_settled_is_heard(m);
    assert(heard(m, left) == m);
    lemma_heard_again(a, b, left);
    lemma_notices_again::<Announcement>(
        x.announcements,
        y.announcements,
        MAX_ANNOUNCEMENTS as nat,
    );
    lemma_notices_again::<Takedown>(x.takedowns, y.takedowns, MAX_TAKEDOWNS as nat);
    let n = admin_merged(m, b);
    assert(n.service == m.service);
    assert(n.migration == m.migration);
    assert(n =~= m);
}

/// What two copies make, part for part.
pub proof fn lemma_merged_in_parts(a: AdminView, b: AdminView)
    requires
        alike(a, b),
    ensures
        ({
            let m = admin_merged(a, b);
            let left = admins_between(a, b);
            let (x, y) = (heard(a, left), heard(b, left));
            &&& m.grants == left
            &&& m.announcements == capped::<AdminsV1, Announcement>(
                join(x.announcements, y.announcements, entry_over::<AdminsV1, Announcement>()),
                MAX_ANNOUNCEMENTS as nat,
            )
            &&& m.takedowns == capped::<AdminsV1, Takedown>(
                join(x.takedowns, y.takedowns, entry_over::<AdminsV1, Takedown>()),
                MAX_TAKEDOWNS as nat,
            )
            &&& m.service == service_joined(x.service, y.service)
            &&& m.migration == migration_joined(x.migration, y.migration)
        }),
{
    law_administrations_agree(a, b);
    lemma_between_is_pruned(a, b);
    lemma_joined_is_heard(a, b);
}

/// What two copies make was said by those who are left.
proof fn lemma_joined_is_heard(a: AdminView, b: AdminView)
    ensures
        heard(administrations_joined(a, b), admins_between(a, b)) == administrations_joined(a, b),
{
    let j = administrations_joined(a, b);
    let g = admins_between(a, b);
    assert forall|k: [u8; 16]| #[trigger] j.announcements.contains_key(k) implies announced_by(g)(
        j.announcements[k],
    ) by {
        assert(heard(a, g).announcements.contains_key(k) || heard(b, g).announcements.contains_key(
            k,
        ));
    }
    assert forall|k: GameId| #[trigger] j.takedowns.contains_key(k) implies taken_down_by(g)(
        j.takedowns[k],
    ) by {
        assert(heard(a, g).takedowns.contains_key(k) || heard(b, g).takedowns.contains_key(k));
    }
    assert(heard(j, g) =~= j);
}

/// What is left of a copy that others than its administrators said is filed as
/// the copy is.
proof fn lemma_heard_parts(a: AdminView, admins: Map<PlayerId, AdminGrant>)
    requires
        settled(a),
    ensures
        ({
            let x = heard(a, admins);
            &&& x.announcements.dom().finite() && x.takedowns.dom().finite()
            &&& crate::join::filed(x.announcements, entry_key::<AdminsV1, Announcement>())
            &&& crate::join::filed(x.takedowns, entry_key::<AdminsV1, Takedown>())
            &&& part_of(x.announcements, a.announcements)
            &&& part_of(x.takedowns, a.takedowns)
        }),
{
    lemma_checked_parts(a);
    let x = heard(a, admins);
    assert(x.announcements.dom().subset_of(a.announcements.dom()));
    vstd::set_lib::lemma_len_subset(x.announcements.dom(), a.announcements.dom());
    assert(x.takedowns.dom().subset_of(a.takedowns.dom()));
    vstd::set_lib::lemma_len_subset(x.takedowns.dom(), a.takedowns.dom());
}

/// What can be told apart still can where some of it is not heard.
proof fn lemma_heard_again(a: AdminView, b: AdminView, admins: Map<PlayerId, AdminGrant>)
    requires
        alike(a, b),
        alike(b, b),
    ensures
        ({
            let (x, y) = (heard(a, admins), heard(b, admins));
            &&& joinable::<AdminsV1, Announcement>(x.announcements, y.announcements)
            &&& joinable::<AdminsV1, Announcement>(y.announcements, y.announcements)
            &&& joinable::<AdminsV1, Takedown>(x.takedowns, y.takedowns)
            &&& joinable::<AdminsV1, Takedown>(y.takedowns, y.takedowns)
        }),
{
    lemma_heard_parts(a, admins);
    lemma_heard_parts(b, admins);
    let (x, y) = (heard(a, admins), heard(b, admins));
    lemma_parts_apart(x.announcements, a.announcements, y.announcements, b.announcements, entry_over::<AdminsV1, Announcement>());
    lemma_parts_apart(x.takedowns, a.takedowns, y.takedowns, b.takedowns, entry_over::<AdminsV1, Takedown>());
}

/// Parts of maps that can be told apart can be.
proof fn lemma_parts_apart<K, V>(
    p: Map<K, V>,
    a: Map<K, V>,
    q: Map<K, V>,
    b: Map<K, V>,
    over: spec_fn(V, V) -> bool,
)
    requires
        part_of(p, a),
        part_of(q, b),
        all_apart(over, a, b),
    ensures
        all_apart(over, p, q),
        all_apart(over, q, q),
{
    assert forall|k: K|
        #![trigger p.contains_key(k), q.contains_key(k)]
        p.contains_key(k) && q.contains_key(k) implies apart(over, p[k], q[k]) by {
        assert(a.contains_key(k) && b.contains_key(k));
        assert(apart(over, a[k], b[k]));
    }
}

/// What was joined and cut already adds nothing.
proof fn lemma_notices_again<E: Entry<AdminsV1>>(
    a: Map<E::Key, E::V>,
    b: Map<E::Key, E::V>,
    cap: nat,
)
    requires
        joinable::<AdminsV1, E>(a, b),
        joinable::<AdminsV1, E>(b, b),
        steady::<AdminsV1, E>(a, b, b, cap),
    ensures
        ({
            let x = capped::<AdminsV1, E>(join(a, b, entry_over::<AdminsV1, E>()), cap);
            capped::<AdminsV1, E>(join(x, b, entry_over::<AdminsV1, E>()), cap) == x
        }),
{
    lemma_entries_ordered::<AdminsV1, E>();
    lemma_capped_joins_in_any_order::<AdminsV1, E>(a, b, b, cap);
    law_joining_twice_is_joining_once(a, b, entry_over::<AdminsV1, E>());
}

} // verus!
