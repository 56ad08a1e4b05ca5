//! Why pruning administration twice is pruning it once, and why what pruning
//! leaves is valid.

use super::notices::{
    announcement_fault, migration_fault, service_fault, takedown_fault, Announcement, Takedown,
};
use super::office::{
    admin_after, admin_fault, admin_pruned, all_acted, announced_by, announcement_faults,
    grants_in, heard, taken_down_by, takedown_faults, AdminAction, AdminView,
};
use super::{
    admins_fault, admins_pruned, chain, claims_in, filed, first_claim, foremost_admins,
    law_admins_go_back_to_the_root, lemma_chain_is_part, lemma_chain_within, lemma_enough_passes,
    lemma_first_claim_is_held, lemma_passes_are_part, lemma_passes_by_known, lemma_passes_keep,
    lemma_settled_is_closed, lemma_value_is_held, part_of, pass, passes, self_claim, AdminGrant,
    AdminsV1, MAX_ADMINS, MAX_ANNOUNCEMENTS, MAX_TAKEDOWNS,
};
use crate::identity::{id_of, GameId, PlayerId};
use crate::ledger::{
    entries_after, entry_key, entry_order, law_cut_maps_fit, law_sound_maps_stay_sound,
    lemma_checked_is_sound, sound_map,
};
use crate::lists::{values_of, with_value};
use crate::order::{before, lemma_the_first_stays};
use crate::sorted_map::{
    lemma_as_map_finite, lemma_listed, lemma_listing_entry, lemma_listing_place, listing,
    restricted,
};
use crate::text::lemma_no_fault;
use vstd::prelude::*;

verus! {

/// Whether whoever appointed one of a set of administrators is of the set.
pub open spec fn self_standing(p: Map<PlayerId, AdminGrant>) -> bool {
    forall|k: PlayerId| #[trigger] p.contains_key(k) ==> p.contains_key(id_of(p[k].granted_by))
}

/// Where only one appointment is a claim, it is the first, and the only one.
proof fn lemma_only_claim(grants: Seq<AdminGrant>, i: int)
    requires
        0 <= i < grants.len(),
        self_claim(grants[i]),
        forall|j: int| 0 <= j < grants.len() && j != i ==> !self_claim(#[trigger] grants[j]),
    ensures
        first_claim(grants) == Some(grants[i]),
        claims_in(grants) == 1,
    decreases grants.len(),
{
    let front = grants.drop_last();
    if i < front.len() {
        assert(front[i] == grants[i]);
        assert forall|j: int| 0 <= j < front.len() && j != i implies !self_claim(
            #[trigger] front[j],
        ) by {
            assert(front[j] == grants[j]);
        }
        lemma_only_claim(front, i);
        assert(!self_claim(grants[grants.len() - 1]));
    } else {
        assert forall|j: int| 0 <= j < front.len() implies !self_claim(#[trigger] front[j]) by {
            assert(front[j] == grants[j]);
        }
        lemma_no_claim(front);
        assert(grants[i] == grants.last());
    }
}

proof fn lemma_no_claim(grants: Seq<AdminGrant>)
    requires
        forall|j: int| 0 <= j < grants.len() ==> !self_claim(#[trigger] grants[j]),
    ensures
        first_claim(grants) is None,
        claims_in(grants) == 0,
    decreases grants.len(),
{
    if grants.len() > 0 {
        let front = grants.drop_last();
        assert forall|j: int| 0 <= j < front.len() implies !self_claim(#[trigger] front[j]) by {
            assert(front[j] == grants[j]);
        }
        lemma_no_claim(front);
        assert(!self_claim(grants[grants.len() - 1]));
    }
}

/// Who is of the chain and not its root claims nothing.
proof fn lemma_root_alone_claims(m: Map<PlayerId, AdminGrant>, k: PlayerId)
    requires
        m.dom().finite(),
        filed(m),
        first_claim(values_of(m)) is Some,
        chain(values_of(m)).contains_key(k),
        k != id_of((first_claim(values_of(m))->0).grantee),
    ensures
        !self_claim(chain(values_of(m))[k]),
{
    let vals = values_of(m);
    let root = first_claim(vals)->0;
    let start = Map::empty().insert(id_of(root.grantee), root);
    lemma_passes_by_known(vals, start, vals.len(), k);
}

/// A chain has one claim in it, the root's.
pub proof fn lemma_one_claim_in_chain(m: Map<PlayerId, AdminGrant>)
    requires
        m.dom().finite(),
        filed(m),
        first_claim(values_of(m)) is Some,
    ensures
        ({
            let c = chain(values_of(m));
            let root = first_claim(values_of(m))->0;
            &&& c.contains_key(id_of(root.grantee))
            &&& c[id_of(root.grantee)] == root
            &&& first_claim(values_of(c)) == Some(root)
            &&& claims_in(values_of(c)) == 1
        }),
{
    let c = chain(values_of(m));
    let root = first_claim(values_of(m))->0;
    let r = id_of(root.grantee);
    lemma_chain_within(m);
    lemma_first_claim_is_held(values_of(m));
    let h = choose|h: int| 0 <= h < values_of(m).len() && #[trigger] values_of(m)[h] == root;
    lemma_value_is_held(m, h);
    law_admins_go_back_to_the_root(m, r);
    assert forall|k: PlayerId| #[trigger] c.contains_key(k) && k != r implies !self_claim(
        c[k],
    ) by {
        lemma_root_alone_claims(m, k);
    }
    lemma_one_claim(c, root);
}

/// Where all but one of a set claim nothing, that one is the root.
pub proof fn lemma_one_claim(p: Map<PlayerId, AdminGrant>, root: AdminGrant)
    requires
        p.dom().finite(),
        self_claim(root),
        p.contains_key(id_of(root.grantee)),
        p[id_of(root.grantee)] == root,
        forall|k: PlayerId| #[trigger]
            p.contains_key(k) && k != id_of(root.grantee) ==> !self_claim(p[k]),
    ensures
        first_claim(values_of(p)) == Some(root),
        claims_in(values_of(p)) == 1,
{
    let i = lemma_listing_place(p, id_of(root.grantee));
    let mine = values_of(p);
    assert forall|j: int| 0 <= j < mine.len() && j != i implies !self_claim(
        #[trigger] mine[j],
    ) by {
        lemma_listing_entry(p, j);
        lemma_listed(p);
        let (low, high) = if i < j {
            (i, j)
        } else {
            (j, i)
        };
        assert(listing(p)[low].0 != listing(p)[high].0);
    }
    lemma_only_claim(mine, i);
}

/// The root is among the first, where there is one.
proof fn lemma_root_is_foremost(m: Map<PlayerId, AdminGrant>)
    requires
        m.dom().finite(),
        filed(m),
    ensures
        first_claim(values_of(foremost_admins(m))) == first_claim(values_of(m)),
{
    lemma_chain_is_part(m);
    let c = chain(values_of(m));
    let f = foremost_admins(m);
    if first_claim(values_of(m)) is Some {
        let root = first_claim(values_of(m))->0;
        let r = id_of(root.grantee);
        lemma_one_claim_in_chain(m);
        lemma_first_claim_is_held(values_of(m));
        assert forall|k: PlayerId| #[trigger] f.contains_key(k) && k != r implies !self_claim(
            f[k],
        ) by {
            lemma_root_alone_claims(m, k);
        }
        assert forall|k: PlayerId| #[trigger] c.contains_key(k) implies !before(
            entry_order::<(), AdminGrant>()(k, c[k]),
            entry_order::<(), AdminGrant>()(r, root),
        ) by {
            if k != r {
                lemma_root_alone_claims(m, k);
            }
        }
        lemma_the_first_stays(c, entry_order::<(), AdminGrant>(), MAX_ADMINS as nat, r);
        lemma_one_claim(f, root);
    } else {
        assert(c =~= Map::empty());
        assert(f =~= Map::empty());
        lemma_nobody_claims(f);
    }
}

proof fn lemma_nobody_claims(m: Map<PlayerId, AdminGrant>)
    requires
        m.dom().finite(),
        forall|k: PlayerId| !(#[trigger] m.contains_key(k)),
    ensures
        first_claim(values_of(m)) is None,
        values_of(m).len() == 0,
{
    if values_of(m).len() > 0 {
        lemma_listing_entry(m, 0);
    }
}

/// Whoever of a self-standing set becomes known in a look at all appointments
/// is known where only the set was looked at, once nothing new comes up there.
proof fn lemma_pass_within(
    m: Map<PlayerId, AdminGrant>,
    n: int,
    known: Map<PlayerId, AdminGrant>,
    p: Map<PlayerId, AdminGrant>,
    d: Map<PlayerId, AdminGrant>,
)
    requires
        m.dom().finite(),
        filed(m),
        0 <= n <= values_of(m).len(),
        p.dom().finite(),
        part_of(p, m),
        self_standing(p),
        forall|k: PlayerId| #[trigger]
            known.contains_key(k) && p.contains_key(k) ==> d.contains_key(k),
        pass(values_of(p), d) == d,
    ensures
        forall|k: PlayerId| #[trigger]
            pass(values_of(m).take(n), known).contains_key(k) && p.contains_key(k)
                ==> d.contains_key(k),
    decreases n,
{
    let all = values_of(m);
    if n > 0 {
        assert(all.take(n).drop_last() =~= all.take(n - 1));
        let g = all[n - 1];
        assert(all.take(n).last() == g);
        let so_far = pass(all.take(n - 1), known);
        lemma_pass_within(m, n - 1, known, p, d);
        lemma_value_is_held(m, n - 1);
        let k = id_of(g.grantee);
        if pass(all.take(n), known).contains_key(k) && !so_far.contains_key(k) && p.contains_key(
            k,
        ) {
            let i = lemma_listing_place(p, k);
            assert(values_of(p)[i] == g);
            assert(so_far.contains_key(id_of(g.granted_by)));
            lemma_settled_is_closed(values_of(p), d, i);
        }
    }
}

proof fn lemma_passes_within(
    m: Map<PlayerId, AdminGrant>,
    n: nat,
    known: Map<PlayerId, AdminGrant>,
    p: Map<PlayerId, AdminGrant>,
    d: Map<PlayerId, AdminGrant>,
)
    requires
        m.dom().finite(),
        filed(m),
        p.dom().finite(),
        part_of(p, m),
        self_standing(p),
        forall|k: PlayerId| #[trigger]
            known.contains_key(k) && p.contains_key(k) ==> d.contains_key(k),
        pass(values_of(p), d) == d,
    ensures
        forall|k: PlayerId| #[trigger]
            passes(values_of(m), known, n).contains_key(k) && p.contains_key(k)
                ==> d.contains_key(k),
    decreases n,
{
    if n > 0 {
        let all = values_of(m);
        lemma_passes_within(m, (n - 1) as nat, known, p, d);
        assert(all.take(all.len() as int) =~= all);
        lemma_pass_within(m, all.len() as int, passes(all, known, (n - 1) as nat), p, d);
    }
}

/// Looking at a set from one of its members ends within the set, where nothing
/// new comes up.
proof fn lemma_looking_settles(p: Map<PlayerId, AdminGrant>, k: PlayerId)
    requires
        p.dom().finite(),
        filed(p),
        p.contains_key(k),
    ensures
        ({
            let d = passes(values_of(p), Map::empty().insert(k, p[k]), values_of(p).len());
            &&& pass(values_of(p), d) == d
            &&& part_of(d, p)
            &&& d.contains_key(k)
        }),
{
    let mine = values_of(p);
    let start = Map::empty().insert(k, p[k]);
    let d = passes(mine, start, mine.len());
    lemma_passes_keep(mine, start, mine.len());
    assert(start.contains_key(k));
    lemma_passes_are_part(p, start, mine.len());
    assert(start.dom() =~= Set::empty().insert(k));
    lemma_enough_passes(p, start, mine.len());
    assert(d.dom().subset_of(p.dom()));
    vstd::set_lib::lemma_len_subset(d.dom(), p.dom());
    lemma_listed(p);
    lemma_as_map_finite(listing(p));
}

/// All in a chain go back to its root by way of one another.
pub proof fn lemma_chain_stands(m: Map<PlayerId, AdminGrant>)
    requires
        m.dom().finite(),
        filed(m),
    ensures
        self_standing(chain(values_of(m))),
        chain(values_of(chain(values_of(m)))) == chain(values_of(m)),
{
    let p = chain(values_of(m));
    lemma_chain_within(m);
    if first_claim(values_of(m)) is Some {
        let root = first_claim(values_of(m))->0;
        lemma_first_claim_is_held(values_of(m));
        lemma_one_claim_in_chain(m);
        assert forall|k: PlayerId| #[trigger] p.contains_key(k) implies p.contains_key(
            id_of(p[k].granted_by),
        ) by {
            law_admins_go_back_to_the_root(m, k);
        }
        lemma_chain_by_looking(m, root);
    } else {
        lemma_nobody_claims(p);
        assert(chain(values_of(p)) =~= p);
    }
}

proof fn lemma_chain_by_looking(m: Map<PlayerId, AdminGrant>, root: AdminGrant)
    requires
        m.dom().finite(),
        filed(m),
        self_standing(chain(values_of(m))),
        part_of(chain(values_of(m)), m),
        chain(values_of(m)).dom().finite(),
        filed(chain(values_of(m))),
        first_claim(values_of(m)) == Some(root),
        first_claim(values_of(chain(values_of(m)))) == Some(root),
        chain(values_of(m)).contains_key(id_of(root.grantee)),
        chain(values_of(m))[id_of(root.grantee)] == root,
    ensures
        chain(values_of(chain(values_of(m)))) == chain(values_of(m)),
{
    let p = chain(values_of(m));
    let d = chain(values_of(p));
    let start = Map::empty().insert(id_of(root.grantee), root);
    lemma_looking_settles(p, id_of(root.grantee));
    lemma_passes_within(m, values_of(m).len(), start, p, d);
    assert(d =~= p);
}

/// Where there are not too many administrators, none is dropped.
proof fn lemma_few_are_kept(m: Map<PlayerId, AdminGrant>)
    requires
        m.dom().finite(),
        filed(m),
        listing(chain(values_of(m))).len() <= MAX_ADMINS,
    ensures
        admins_pruned(m) == chain(values_of(m)),
{
    lemma_chain_stands(m);
    assert(foremost_admins(m) == chain(values_of(m)));
}

/// Pruning drops every appointment that does not go back to the first claim:
/// the first claim stays, each other one that stays is by somebody who stays,
/// no more stay than may, none is changed, and none stays where nobody claims.
pub proof fn law_pruning_keeps_the_chain(m: Map<PlayerId, AdminGrant>)
    requires
        m.dom().finite(),
        filed(m),
    ensures
        part_of(admins_pruned(m), m),
        admins_pruned(m).dom().finite(),
        listing(admins_pruned(m)).len() <= MAX_ADMINS,
        match first_claim(values_of(m)) {
            Some(root) => {
                &&& admins_pruned(m).contains_key(id_of(root.grantee))
                &&& first_claim(values_of(admins_pruned(m))) == Some(root)
                &&& forall|k: PlayerId| #[trigger]
                    admins_pruned(m).contains_key(k) && k != id_of(root.grantee) ==> !self_claim(
                        m[k],
                    ) && admins_pruned(m).contains_key(id_of(m[k].granted_by))
            },
            None => admins_pruned(m) == Map::<PlayerId, AdminGrant>::empty(),
        },
{
    let p = admins_pruned(m);
    let f = foremost_admins(m);
    lemma_chain_is_part(m);
    lemma_root_is_foremost(m);
    lemma_pruned_fit(m);
    if first_claim(values_of(m)) is Some {
        lemma_one_claim_in_chain(f);
        assert forall|k: PlayerId| #[trigger] p.contains_key(k) && k != id_of(
            (first_claim(values_of(m))->0).grantee,
        ) implies !self_claim(m[k]) && p.contains_key(id_of(m[k].granted_by)) by {
            assert(f.contains_key(k));
            law_admins_go_back_to_the_root(f, k);
        }
    }
}

/// No more administrators are kept than there may be.
proof fn lemma_pruned_fit(m: Map<PlayerId, AdminGrant>)
    requires
        m.dom().finite(),
        filed(m),
    ensures
        listing(admins_pruned(m)).len() <= MAX_ADMINS,
{
    let p = admins_pruned(m);
    let f = foremost_admins(m);
    lemma_chain_is_part(m);
    let c = chain(values_of(m));
    assert forall|k: PlayerId| #[trigger] c.contains_key(k) implies id_of(c[k].grantee) == k by {
        assert(m.contains_key(k));
    }
    assert(crate::join::filed(c, entry_key::<(), AdminGrant>()));
    law_cut_maps_fit::<(), AdminGrant>(c, (), MAX_ADMINS as nat);
    assert(p.dom().subset_of(f.dom()));
    vstd::set_lib::lemma_len_subset(p.dom(), f.dom());
    lemma_listed(p);
    lemma_as_map_finite(listing(p));
    lemma_listed(f);
    lemma_as_map_finite(listing(f));
}

/// Pruning the administrators twice is pruning them once.
pub proof fn law_pruning_admins_twice_is_pruning_them_once(m: Map<PlayerId, AdminGrant>)
    requires
        m.dom().finite(),
        filed(m),
    ensures
        admins_pruned(admins_pruned(m)) == admins_pruned(m),
{
    lemma_chain_is_part(m);
    lemma_chain_stands(foremost_admins(m));
    lemma_pruned_fit(m);
    lemma_few_are_kept(admins_pruned(m));
}

/// What pruning leaves of the administrators passes the check.
pub proof fn law_pruned_admins_pass(m: Map<PlayerId, AdminGrant>)
    requires
        m.dom().finite(),
        sound_map::<(), AdminGrant>(m, ()),
    ensures
        admins_fault(admins_pruned(m)) is None,
{
    let p = admins_pruned(m);
    assert(filed(m));
    lemma_chain_is_part(m);
    lemma_pruned_fit(m);
    law_pruning_admins_twice_is_pruning_them_once(m);
    assert(sound_map::<(), AdminGrant>(p, ()));
    lemma_checked_is_sound::<(), AdminGrant>(p, ());
    if listing(p).len() > 0 {
        lemma_listing_entry(p, 0);
        assert(first_claim(values_of(foremost_admins(m))) is Some);
        lemma_one_claim_in_chain(foremost_admins(m));
    }
}

/// While there are no more administrators than there may be, all that go back
/// to the first claim are kept.
pub proof fn law_few_admins_are_all_kept(m: Map<PlayerId, AdminGrant>)
    requires
        m.dom().finite(),
        filed(m),
        listing(chain(values_of(m))).len() <= MAX_ADMINS,
    ensures
        admins_pruned(m) == chain(values_of(m)),
{
    lemma_few_are_kept(m);
}

/// What is kept of a map by what it holds is a part of it.
proof fn lemma_kept_is_finite<K, V>(m: Map<K, V>, cond: spec_fn(K, V) -> bool)
    requires
        m.dom().finite(),
    ensures
        restricted(m, cond).dom().finite(),
{
    assert(restricted(m, cond).dom().subset_of(m.dom()));
    vstd::set_lib::lemma_len_subset(restricted(m, cond).dom(), m.dom());
}

/// Pruning administration twice is pruning it once.
pub proof fn law_pruning_administration_twice_is_pruning_it_once(a: AdminView)
    requires
        a.grants.dom().finite() && a.announcements.dom().finite() && a.takedowns.dom().finite(),
        filed(a.grants),
        crate::join::filed(a.announcements, entry_key::<AdminsV1, Announcement>()),
        crate::join::filed(a.takedowns, entry_key::<AdminsV1, Takedown>()),
    ensures
        admin_pruned(admin_pruned(a)) == admin_pruned(a),
{
    law_pruning_admins_twice_is_pruning_them_once(a.grants);
    let p = admin_pruned(a);
    let admins = admins_pruned(a.grants);
    let xs = restricted(a.announcements, with_value(announced_by(admins)));
    lemma_kept_is_finite(a.announcements, with_value(announced_by(admins)));
    let ts = restricted(a.takedowns, with_value(taken_down_by(admins)));
    lemma_kept_is_finite(a.takedowns, with_value(taken_down_by(admins)));
    let place = arbitrary::<AdminsV1>();
    law_cut_maps_fit::<AdminsV1, Announcement>(xs, place, MAX_ANNOUNCEMENTS as nat);
    law_cut_maps_fit::<AdminsV1, Takedown>(ts, place, MAX_TAKEDOWNS as nat);
    assert(restricted(p.announcements, with_value(announced_by(admins))) =~= p.announcements);
    assert(restricted(p.takedowns, with_value(taken_down_by(admins))) =~= p.takedowns);
    assert(admin_pruned(p) =~= p);
}

/// Whether every notice is filed under its own id, and some administrator or
/// other could have given it.
pub open spec fn notices_sound(a: AdminView) -> bool {
    &&& a.announcements.dom().finite() && a.takedowns.dom().finite()
    &&& forall|k: [u8; 16]| #[trigger]
        a.announcements.contains_key(k) ==> a.announcements[k].id == k && could_announce(
            a.announcements[k],
        )
    &&& forall|k: GameId| #[trigger]
        a.takedowns.contains_key(k) ==> a.takedowns[k].game_id == k && could_take_down(
            a.takedowns[k],
        )
    &&& a.service matches Some(s) ==> exists|admins: Map<PlayerId, AdminGrant>|
        service_fault(s, admins) is None
    &&& a.migration matches Some(m) ==> exists|admins: Map<PlayerId, AdminGrant>|
        migration_fault(m, admins) is None
}

pub open spec fn could_announce(x: Announcement) -> bool {
    exists|admins: Map<PlayerId, AdminGrant>| announcement_fault(x, admins) is None
}

pub open spec fn could_take_down(x: Takedown) -> bool {
    exists|admins: Map<PlayerId, AdminGrant>| takedown_fault(x, admins) is None
}

/// The notices of administration that passes the check are sound.
proof fn lemma_checked_notices(a: AdminView)
    requires
        a.announcements.dom().finite() && a.takedowns.dom().finite(),
        admin_fault(a) is None,
    ensures
        notices_sound(a),
{
    let xs = announcement_faults(a.announcements, a.grants);
    let ts = takedown_faults(a.takedowns, a.grants);
    lemma_no_fault(xs, listing(a.announcements).len());
    lemma_no_fault(ts, listing(a.takedowns).len());
    assert forall|k: [u8; 16]| #[trigger] a.announcements.contains_key(k) implies
        a.announcements[k].id == k && could_announce(a.announcements[k]) by {
        let i = lemma_listing_place(a.announcements, k);
        assert(xs(i) is None);
        assert(announcement_fault(a.announcements[k], a.grants) is None);
    }
    assert forall|k: GameId| #[trigger] a.takedowns.contains_key(k) implies
        a.takedowns[k].game_id == k && could_take_down(a.takedowns[k]) by {
        let i = lemma_listing_place(a.takedowns, k);
        assert(ts(i) is None);
        assert(takedown_fault(a.takedowns[k], a.grants) is None);
    }
}

/// What some said of what is sound is sound.
proof fn lemma_heard_stays_sound(a: AdminView, admins: Map<PlayerId, AdminGrant>)
    requires
        notices_sound(a),
    ensures
        notices_sound(heard(a, admins)),
{
    lemma_kept_is_finite(a.announcements, with_value(announced_by(admins)));
    lemma_kept_is_finite(a.takedowns, with_value(taken_down_by(admins)));
}

/// Whatever administrators do, what they said stays sound.
proof fn lemma_acts_stay_sound(a: AdminView, actions: Seq<AdminAction>)
    requires
        notices_sound(a),
    ensures
        notices_sound(all_acted(a, actions)),
        all_acted(a, actions).grants == a.grants,
    decreases actions.len(),
{
    if actions.len() > 0 {
        let before = all_acted(a, actions.drop_last());
        lemma_acts_stay_sound(a, actions.drop_last());
        match actions.last() {
            AdminAction::Announce(x) => {
                if announcement_fault(x, a.grants) is None {
                    assert(could_announce(x));
                }
            },
            AdminAction::TakeDown(x) => {
                if takedown_fault(x, a.grants) is None {
                    assert(could_take_down(x));
                }
            },
            _ => {},
        }
    }
}

/// What is left of sound notices passes the check.
proof fn lemma_pruned_notices_pass(a: AdminView)
    requires
        notices_sound(a),
        admins_fault(admins_pruned(a.grants)) is None,
    ensures
        admin_fault(admin_pruned(a)) is None,
{
    let p = admin_pruned(a);
    let admins = p.grants;
    let xs = announcement_faults(p.announcements, admins);
    let ts = takedown_faults(p.takedowns, admins);
    assert(p.announcements.dom().subset_of(a.announcements.dom()));
    vstd::set_lib::lemma_len_subset(p.announcements.dom(), a.announcements.dom());
    assert(p.takedowns.dom().subset_of(a.takedowns.dom()));
    vstd::set_lib::lemma_len_subset(p.takedowns.dom(), a.takedowns.dom());
    assert forall|i: int| 0 <= i < listing(p.announcements).len() implies (#[trigger] xs(
        i,
    )) is None by {
        lemma_listing_entry(p.announcements, i);
        let x = listing(p.announcements)[i].1;
        assert(a.announcements.contains_key(listing(p.announcements)[i].0));
        assert(could_announce(x));
        let heard = choose|heard: Map<PlayerId, AdminGrant>| announcement_fault(x, heard) is None;
        assert(announcement_fault(x, heard) is None);
        assert(announced_by(admins)(x));
    }
    lemma_no_fault(xs, listing(p.announcements).len());
    assert forall|i: int| 0 <= i < listing(p.takedowns).len() implies (#[trigger] ts(i)) is None by {
        lemma_listing_entry(p.takedowns, i);
        let x = listing(p.takedowns)[i].1;
        assert(a.takedowns.contains_key(listing(p.takedowns)[i].0));
        assert(could_take_down(x));
        let heard = choose|heard: Map<PlayerId, AdminGrant>| takedown_fault(x, heard) is None;
        assert(takedown_fault(x, heard) is None);
        assert(taken_down_by(admins)(x));
    }
    lemma_no_fault(ts, listing(p.takedowns).len());
}

/// Administration that passes the check passes it again once an update has come
/// in and it was pruned.
pub proof fn law_updates_keep_administration_valid(a: AdminView, actions: Seq<AdminAction>)
    requires
        a.grants.dom().finite() && a.announcements.dom().finite() && a.takedowns.dom().finite(),
        admin_fault(a) is None,
        admin_after(a, actions).1 is None,
    ensures
        admin_fault(admin_pruned(admin_after(a, actions).0)) is None,
{
    lemma_checked_notices(a);
    lemma_checked_is_sound::<(), AdminGrant>(a.grants, ());
    law_sound_maps_stay_sound::<(), AdminGrant>(a.grants, grants_in(actions), ());
    let grants = entries_after::<(), AdminGrant>(a.grants, grants_in(actions), ()).0;
    assert(filed(grants));
    lemma_chain_is_part(grants);
    let start = heard(a, admins_pruned(grants));
    lemma_heard_stays_sound(a, admins_pruned(grants));
    lemma_acts_stay_sound(start, actions);
    law_pruned_admins_pass(start.grants);
    lemma_pruned_notices_pass(all_acted(start, actions));
}

/// Administrators that pass the check are not pruned.
proof fn lemma_checked_admins_stay(m: Map<PlayerId, AdminGrant>)
    requires
        m.dom().finite(),
        admins_fault(m) is None,
    ensures
        admins_pruned(m) == m,
{
    if listing(m).len() == 0 {
        lemma_listed(m);
        assert(values_of(m) =~= Seq::<AdminGrant>::empty());
        assert(m =~= Map::empty());
        assert(admins_pruned(m) =~= m);
    }
}

/// Administration that passes the check passes it once pruned.
pub proof fn lemma_pruned_administration_passes(a: AdminView)
    requires
        a.grants.dom().finite() && a.announcements.dom().finite() && a.takedowns.dom().finite(),
        admin_fault(a) is None,
    ensures
        admin_fault(admin_pruned(a)) is None,
{
    lemma_checked_notices(a);
    lemma_checked_admins_stay(a.grants);
    lemma_pruned_notices_pass(a);
}

} // verus!
