//! What is left where copies of administration meet that go back to different
//! claims.

use super::agreement::{
    admins_between, alike, law_administrations_agree, lemma_settled_is_heard, settled,
};
use super::merging::{admin_merged, joined_grants, lemma_merged_alike, lemma_merged_in_parts};
use super::notices::{Announcement, Takedown};
use super::office::{admin_pruned, announced_by, heard, taken_down_by, AdminView};
use super::pruning::law_pruning_keeps_the_chain;
use super::succession::{
    law_the_sooner_claim_wins, lemma_first_of, lemma_joined_grants_filed, lemma_none_is_sooner,
    lemma_one_is_sooner, lemma_root_is_in, rival_sets, standing,
};
use super::{first_claim, self_claim, sooner, AdminGrant, AdminsV1};
use crate::identity::{id_of, GameId, PlayerId};
use crate::join::join;
use crate::ledger::entry_over;
use crate::lists::values_of;
use vstd::prelude::*;

verus! {

/// The claim that an administration goes back to.
pub open spec fn root_of(a: AdminView) -> Option<AdminGrant> {
    first_claim(values_of(a.grants))
}

/// Whether two copies go back to different claims and share no administrator.
pub open spec fn rivals(a: AdminView, b: AdminView) -> bool {
    rival_sets(a.grants, b.grants)
}

/// Whether two copies go back to one claim.
pub open spec fn one_root(a: AdminView, b: AdminView) -> bool {
    &&& standing(a.grants) && standing(b.grants)
    &&& root_of(a) == root_of(b)
}

/// Of a rival nothing is heard.
proof fn lemma_rivals_are_not_heard(a: AdminView, b: AdminView)
    requires
        settled(a),
        settled(b),
        rivals(a, b),
    ensures
        ({
            let y = heard(b, a.grants);
            &&& y.announcements == Map::<[u8; 16], Announcement>::empty()
            &&& y.takedowns == Map::<GameId, Takedown>::empty()
            &&& y.service is None
            &&& y.migration is None
        }),
{
    let y = heard(b, a.grants);
    lemma_settled_is_heard(b);
    assert forall|k: [u8; 16]| !y.announcements.contains_key(k) by {
        if y.announcements.contains_key(k) {
            assert(heard(b, b.grants).announcements.contains_key(k));
            assert(announced_by(b.grants)(b.announcements[k]));
        }
    }
    assert forall|k: GameId| !y.takedowns.contains_key(k) by {
        if y.takedowns.contains_key(k) {
            assert(heard(b, b.grants).takedowns.contains_key(k));
            assert(taken_down_by(b.grants)(b.takedowns[k]));
        }
    }
    assert(y.announcements =~= Map::<[u8; 16], Announcement>::empty());
    assert(y.takedowns =~= Map::<GameId, Takedown>::empty());
}

/// Of two rival administrations the one with the sooner claim is left as it
/// was, whichever copy merges the other, and whatever the other had said.
pub proof fn law_rivals_give_way(a: AdminView, b: AdminView)
    requires
        alike(a, b),
        rivals(a, b),
        sooner(root_of(a)->0, root_of(b)->0),
    ensures
        admin_merged(a, b) == a,
        admin_merged(b, a) == a,
{
    law_administrations_agree(a, b);
    law_the_sooner_claim_wins(a.grants, b.grants);
    lemma_merged_in_parts(a, b);
    lemma_settled_is_heard(a);
    lemma_rivals_are_not_heard(a, b);
    assert(admins_between(a, b) == a.grants);
    let y = heard(b, a.grants);
    assert(join(a.announcements, y.announcements, entry_over::<AdminsV1, Announcement>())
        =~= a.announcements);
    assert(join(a.takedowns, y.takedowns, entry_over::<AdminsV1, Takedown>()) =~= a.takedowns);
    assert(admin_pruned(a) == a);
    assert(admin_merged(a, b) =~= a);
}

/// One of two rivals has the sooner claim.
proof fn lemma_rivals_are_settled(a: AdminView, b: AdminView)
    requires
        rivals(a, b),
    ensures
        sooner(root_of(a)->0, root_of(b)->0) != sooner(root_of(b)->0, root_of(a)->0),
        rivals(b, a),
{
    lemma_root_is_in(a.grants);
    lemma_root_is_in(b.grants);
    lemma_one_is_sooner(root_of(a)->0, root_of(b)->0);
    assert(a.grants.contains_key(id_of((root_of(a)->0).grantee)));
    assert(b.grants.contains_key(id_of((root_of(b)->0).grantee)));
}

/// What copies that go back to one claim make goes back to it too, and is a
/// rival to whatever both are.
proof fn lemma_rival_to_both(a: AdminView, b: AdminView, c: AdminView)
    requires
        alike(b, c),
        rivals(a, b),
        rivals(a, c),
        one_root(b, c),
    ensures
        rivals(a, admin_merged(b, c)),
        root_of(admin_merged(b, c)) == root_of(b),
{
    let j = joined_grants(b.grants, c.grants);
    let root = root_of(b)->0;
    lemma_merged_in_parts(b, c);
    lemma_joined_grants_filed(b.grants, c.grants);
    lemma_root_is_in(b.grants);
    lemma_root_is_in(c.grants);
    assert forall|k: PlayerId| #[trigger] j.contains_key(k) && self_claim(j[k]) implies !sooner(
        j[k],
        root,
    ) by {
        if b.grants.contains_key(k) && j[k] == b.grants[k] {
            lemma_none_is_sooner(b.grants, k);
        } else {
            lemma_none_is_sooner(c.grants, k);
        }
    }
    assert(b.grants.contains_key(id_of(root.grantee)));
    lemma_first_of(j, root);
    law_pruning_keeps_the_chain(j);
    super::pruning::law_pruning_admins_twice_is_pruning_them_once(j);
    super::lemma_chain_is_part(j);
    let m = admin_merged(b, c).grants;
    assert forall|k: PlayerId| !(#[trigger] a.grants.contains_key(k)
        && #[trigger] m.contains_key(k)) by {
        if m.contains_key(k) {
            assert(j.contains_key(k));
        }
    }
}

/// Whether three copies meet of which some are rivals: any two are rivals, or
/// go back to one claim, and not all go back to one.
pub open spec fn rivals_meet(a: AdminView, b: AdminView, c: AdminView) -> bool {
    &&& rivals(a, b) || one_root(a, b)
    &&& rivals(b, c) || one_root(b, c)
    &&& rivals(a, c) || one_root(a, c)
    &&& !(one_root(a, b) && one_root(b, c))
}

/// Where the last two of three copies go back to one claim and the first to
/// another, the order does not matter.
proof fn lemma_one_against_two(a: AdminView, b: AdminView, c: AdminView)
    requires
        alike(a, b) && alike(b, c) && alike(a, c),
        rivals(a, b),
        rivals(a, c),
        one_root(b, c),
    ensures
        admin_merged(admin_merged(a, b), c) == admin_merged(a, admin_merged(b, c)),
{
    let y = admin_merged(b, c);
    assert(alike(b, a) && alike(c, a));
    lemma_rivals_are_settled(a, b);
    lemma_rival_to_both(a, b, c);
    lemma_merged_alike(b, c, a);
    lemma_rivals_are_settled(a, y);
    lemma_rivals_are_settled(a, c);
    if sooner(root_of(a)->0, root_of(b)->0) {
        law_rivals_give_way(a, b);
        law_rivals_give_way(a, c);
        law_rivals_give_way(a, y);
    } else {
        law_rivals_give_way(b, a);
        law_rivals_give_way(y, a);
    }
}

/// Where the middle one of three copies is a rival to both others, the order
/// does not matter.
proof fn lemma_one_between_two(a: AdminView, b: AdminView, c: AdminView)
    requires
        alike(a, b) && alike(b, c) && alike(a, c),
        rivals(a, b),
        rivals(b, c),
        one_root(a, c),
    ensures
        admin_merged(admin_merged(a, b), c) == admin_merged(a, admin_merged(b, c)),
{
    assert(alike(b, a) && alike(c, b));
    lemma_rivals_are_settled(a, b);
    lemma_rivals_are_settled(b, c);
    if sooner(root_of(b)->0, root_of(a)->0) {
        law_rivals_give_way(b, a);
        law_rivals_give_way(b, c);
    } else {
        law_rivals_give_way(a, b);
        law_rivals_give_way(c, b);
    }
}

/// Where all three copies are rivals, the order does not matter.
proof fn lemma_three_rivals(a: AdminView, b: AdminView, c: AdminView)
    requires
        alike(a, b) && alike(b, c) && alike(a, c),
        rivals(a, b),
        rivals(b, c),
        rivals(a, c),
    ensures
        admin_merged(admin_merged(a, b), c) == admin_merged(a, admin_merged(b, c)),
{
    assert(alike(b, a) && alike(c, b) && alike(c, a));
    lemma_rivals_are_settled(a, b);
    lemma_rivals_are_settled(b, c);
    lemma_rivals_are_settled(a, c);
    if sooner(root_of(a)->0, root_of(b)->0) {
        law_rivals_give_way(a, b);
    } else {
        law_rivals_give_way(b, a);
    }
    if sooner(root_of(b)->0, root_of(c)->0) {
        law_rivals_give_way(b, c);
    } else {
        law_rivals_give_way(c, b);
    }
    if sooner(root_of(a)->0, root_of(c)->0) {
        law_rivals_give_way(a, c);
    } else {
        law_rivals_give_way(c, a);
    }
}

/// Three copies of administration hold the same once they have merged one
/// another, whichever two merge first, where some go back to another claim than
/// others and share no administrator with them. Whoever loses office may have
/// said anything.
pub proof fn law_rivals_merge_in_any_order(a: AdminView, b: AdminView, c: AdminView)
    requires
        alike(a, b),
        alike(b, c),
        alike(a, c),
        rivals_meet(a, b, c),
    ensures
        admin_merged(admin_merged(a, b), c) == admin_merged(a, admin_merged(b, c)),
{
    assert(alike(b, a) && alike(c, b) && alike(c, a));
    lemma_no_rival_to_oneself(a, b);
    lemma_no_rival_to_oneself(b, c);
    lemma_no_rival_to_oneself(a, c);
    if one_root(b, c) {
        lemma_one_against_two(a, b, c);
    } else if one_root(a, b) {
        lemma_rivals_are_settled(a, c);
        lemma_rivals_are_settled(b, c);
        lemma_one_against_two(c, a, b);
        lemma_one_against_two(c, b, a);
        lemma_merged_alike(a, b, c);
        lemma_merged_alike(b, c, a);
        lemma_merged_alike(c, a, b);
        law_administrations_agree(admin_merged(a, b), c);
        law_administrations_agree(a, admin_merged(b, c));
        law_administrations_agree(c, b);
        law_administrations_agree(a, b);
    } else if one_root(a, c) {
        lemma_one_between_two(a, b, c);
    } else {
        lemma_three_rivals(a, b, c);
    }
}

/// Copies that go back to one claim are no rivals.
proof fn lemma_no_rival_to_oneself(a: AdminView, b: AdminView)
    ensures
        !(rivals(a, b) && one_root(a, b)),
{
    if rivals(a, b) && one_root(a, b) {
        lemma_root_is_in(a.grants);
        lemma_root_is_in(b.grants);
        assert(a.grants.contains_key(id_of((root_of(a)->0).grantee)));
        assert(b.grants.contains_key(id_of((root_of(a)->0).grantee)));
    }
}

/// Nobody who gave way to a rival comes back when the rival's copy, or their
/// own, comes in again.
pub proof fn law_rivals_stay_out(a: AdminView, b: AdminView)
    requires
        alike(a, b),
        rivals(a, b),
        alike(b, b),
    ensures
        admin_merged(admin_merged(a, b), b) == admin_merged(a, b),
{
    assert(alike(b, a));
    lemma_rivals_are_settled(a, b);
    if sooner(root_of(a)->0, root_of(b)->0) {
        law_rivals_give_way(a, b);
    } else {
        law_rivals_give_way(b, a);
        lemma_merged_with_itself(b);
    }
}

/// A copy merged with itself is itself.
proof fn lemma_merged_with_itself(a: AdminView)
    requires
        alike(a, a),
    ensures
        admin_merged(a, a) == a,
{
    super::agreement::lemma_joined_with_itself(a);
    law_administrations_agree(a, a);
}

} // verus!
