//! Who is in office where copies meet that know of different appointments.

use super::merging::joined_grants;
use super::pruning::{
    law_few_admins_are_all_kept, lemma_chain_stands, lemma_one_claim, lemma_one_claim_in_chain,
    self_standing,
};
use super::{
    admins_pruned, chain, filed, first_claim, foremost_admins, law_admins_go_back_to_the_root,
    law_the_root_is_the_first_claim, lemma_chain_within, lemma_first_claim_is_held,
    lemma_value_is_held, part_of, pass, passes, self_claim, sooner, AdminGrant, MAX_ADMINS,
};
use crate::bytes::lemma_be_value_injective;
use crate::cutting::never_sinks;
use crate::identity::{id_of, PlayerId};
use crate::join::{
    all_apart, apart, law_joining_commutes, law_joining_is_associative,
    law_joining_twice_is_joining_once,
};
use crate::ledger::{
    capped, entry_key, entry_order, entry_over, joinable, lemma_capped_joins_in_any_order,
    lemma_entries_ordered, steady,
};
use crate::lists::values_of;
use crate::order::{before, law_the_foremost_stay, lemma_the_first_stays};
use crate::sorted_map::{lemma_listing_place, listing};
use vstd::prelude::*;

verus! {

/// Looking at appointments stays within a set that holds whomever its members
/// appointed.
proof fn lemma_pass_stays_in(
    q: Map<PlayerId, AdminGrant>,
    n: int,
    known: Map<PlayerId, AdminGrant>,
    d: Set<PlayerId>,
)
    requires
        q.dom().finite(),
        filed(q),
        0 <= n <= values_of(q).len(),
        forall|k: PlayerId| #[trigger] known.contains_key(k) ==> d.contains(k),
        forall|k: PlayerId| #[trigger]
            q.contains_key(k) && !self_claim(q[k]) && d.contains(id_of(q[k].granted_by))
                ==> d.contains(k),
    ensures
        forall|k: PlayerId| #[trigger]
            pass(values_of(q).take(n), known).contains_key(k) ==> d.contains(k),
    decreases n,
{
    let all = values_of(q);
    if n > 0 {
        assert(all.take(n).drop_last() =~= all.take(n - 1));
        lemma_pass_stays_in(q, n - 1, known, d);
        lemma_value_is_held(q, n - 1);
        let g = all[n - 1];
        assert(all.take(n).last() == g);
        let so_far = pass(all.take(n - 1), known);
        assert forall|k: PlayerId| #[trigger] pass(all.take(n), known).contains_key(
            k,
        ) implies d.contains(k) by {
            if so_far.contains_key(k) {
                assert(pass(values_of(q).take(n - 1), known).contains_key(k));
            } else {
                assert(so_far.contains_key(id_of(g.granted_by)));
                assert(q.contains_key(k) && q[k] == g);
            }
        }
    }
}

proof fn lemma_passes_stay_in(
    q: Map<PlayerId, AdminGrant>,
    n: nat,
    known: Map<PlayerId, AdminGrant>,
    d: Set<PlayerId>,
)
    requires
        q.dom().finite(),
        filed(q),
        forall|k: PlayerId| #[trigger] known.contains_key(k) ==> d.contains(k),
        forall|k: PlayerId| #[trigger]
            q.contains_key(k) && !self_claim(q[k]) && d.contains(id_of(q[k].granted_by))
                ==> d.contains(k),
    ensures
        forall|k: PlayerId| #[trigger]
            passes(values_of(q), known, n).contains_key(k) ==> d.contains(k),
    decreases n,
{
    if n > 0 {
        let all = values_of(q);
        lemma_passes_stay_in(q, (n - 1) as nat, known, d);
        assert(all.take(all.len() as int) =~= all);
        lemma_pass_stays_in(q, all.len() as int, passes(all, known, (n - 1) as nat), d);
    }
}

/// A chain stays within a set that holds its root and whomever its members
/// appointed.
proof fn lemma_chain_stays_in(q: Map<PlayerId, AdminGrant>, d: Set<PlayerId>)
    requires
        q.dom().finite(),
        filed(q),
        first_claim(values_of(q)) matches Some(root) ==> d.contains(id_of(root.grantee)),
        forall|k: PlayerId| #[trigger]
            q.contains_key(k) && !self_claim(q[k]) && d.contains(id_of(q[k].granted_by))
                ==> d.contains(k),
    ensures
        forall|k: PlayerId| #[trigger] chain(values_of(q)).contains_key(k) ==> d.contains(k),
{
    if let Some(root) = first_claim(values_of(q)) {
        lemma_passes_stay_in(
            q,
            values_of(q).len(),
            Map::empty().insert(id_of(root.grantee), root),
            d,
        );
    }
}

/// More appointments under the same root leave nobody out.
proof fn lemma_chain_grows(p: Map<PlayerId, AdminGrant>, m: Map<PlayerId, AdminGrant>)
    requires
        p.dom().finite() && filed(p),
        m.dom().finite() && filed(m),
        part_of(p, m),
        first_claim(values_of(p)) == first_claim(values_of(m)),
    ensures
        part_of(chain(values_of(p)), chain(values_of(m))),
{
    let d = chain(values_of(m));
    lemma_chain_within(p);
    lemma_chain_within(m);
    if let Some(root) = first_claim(values_of(m)) {
        lemma_root_is_in(m);
        law_admins_go_back_to_the_root(m, id_of(root.grantee));
        assert forall|k: PlayerId| #[trigger]
            p.contains_key(k) && !self_claim(p[k]) && d.dom().contains(
                id_of(p[k].granted_by),
            ) implies d.dom().contains(k) by {
            law_admins_go_back_to_the_root(m, k);
        }
        lemma_chain_stays_in(p, d.dom());
        assert forall|k: PlayerId| #[trigger] chain(values_of(p)).contains_key(
            k,
        ) implies d.contains_key(k) && chain(values_of(p))[k] == d[k] by {
            assert(d.dom().contains(k));
            assert(p.contains_key(k));
        }
    }
}

/// The first claim is filed under its player.
pub proof fn lemma_root_is_in(m: Map<PlayerId, AdminGrant>)
    requires
        m.dom().finite(),
        filed(m),
        first_claim(values_of(m)) is Some,
    ensures
        ({
            let root = first_claim(values_of(m))->0;
            &&& m.contains_key(id_of(root.grantee))
            &&& m[id_of(root.grantee)] == root
            &&& self_claim(root)
        }),
{
    let vals = values_of(m);
    lemma_first_claim_is_held(vals);
    let h = choose|h: int| 0 <= h < vals.len() && #[trigger] vals[h] == first_claim(vals)->0;
    lemma_value_is_held(m, h);
}

/// Of claims by different players one is sooner.
pub proof fn lemma_one_is_sooner(a: AdminGrant, b: AdminGrant)
    ensures
        sooner(a, b) || sooner(b, a) || a.grantee == b.grantee,
        !(sooner(a, b) && sooner(b, a)),
{
    if !sooner(a, b) && !sooner(b, a) {
        lemma_be_value_injective(a.grantee.0@, b.grantee.0@);
        assert(a.grantee.0 =~= b.grantee.0);
    }
}

/// A claim that no other of a map is sooner than is the first.
pub proof fn lemma_first_of(m: Map<PlayerId, AdminGrant>, root: AdminGrant)
    requires
        m.dom().finite(),
        filed(m),
        self_claim(root),
        m.contains_key(id_of(root.grantee)),
        m[id_of(root.grantee)] == root,
        forall|k: PlayerId| #[trigger]
            m.contains_key(k) && self_claim(m[k]) ==> !sooner(m[k], root),
    ensures
        first_claim(values_of(m)) == Some(root),
{
    let i = lemma_listing_place(m, id_of(root.grantee));
    law_the_root_is_the_first_claim(values_of(m), i);
    let first = first_claim(values_of(m))->0;
    lemma_root_is_in(m);
    assert(m.contains_key(id_of(first.grantee)));
    lemma_one_is_sooner(first, root);
}

/// No claim of a map is sooner than the first.
pub proof fn lemma_none_is_sooner(m: Map<PlayerId, AdminGrant>, k: PlayerId)
    requires
        m.dom().finite(),
        filed(m),
        m.contains_key(k),
        self_claim(m[k]),
    ensures
        first_claim(values_of(m)) is Some,
        !sooner(m[k], first_claim(values_of(m))->0),
{
    let i = lemma_listing_place(m, k);
    law_the_root_is_the_first_claim(values_of(m), i);
}

/// The appointments of two copies are filed, as those of each are.
pub proof fn lemma_joined_grants_filed(
    a: Map<PlayerId, AdminGrant>,
    b: Map<PlayerId, AdminGrant>,
)
    requires
        a.dom().finite() && filed(a),
        b.dom().finite() && filed(b),
    ensures
        joined_grants(a, b).dom().finite(),
        filed(joined_grants(a, b)),
{
    let j = joined_grants(a, b);
    assert(j.dom() =~= a.dom().union(b.dom()));
    assert forall|k: PlayerId| #[trigger] j.contains_key(k) implies id_of(j[k].grantee) == k by {
        assert(a.contains_key(k) || b.contains_key(k));
    }
}

/// Whoever lost office where two copies met does not come back when the second
/// comes in again, where there is room for all who go back to the root, and
/// whoever lost it is appointed in the second copy as where both meet.
pub proof fn law_who_lost_office_stays_out(
    a: Map<PlayerId, AdminGrant>,
    b: Map<PlayerId, AdminGrant>,
)
    requires
        a.dom().finite() && filed(a),
        b.dom().finite() && filed(b),
        listing(chain(values_of(joined_grants(a, b)))).len() <= MAX_ADMINS,
        forall|k: PlayerId| #[trigger]
            b.contains_key(k) && !admins_pruned(joined_grants(a, b)).contains_key(k)
                ==> joined_grants(a, b)[k] == b[k],
    ensures
        admins_pruned(joined_grants(admins_pruned(joined_grants(a, b)), b)) == admins_pruned(
            joined_grants(a, b),
        ),
{
    let j = joined_grants(a, b);
    lemma_joined_grants_filed(a, b);
    law_few_admins_are_all_kept(j);
    let g = chain(values_of(j));
    lemma_chain_within(j);
    lemma_joined_grants_filed(g, b);
    let m = joined_grants(g, b);
    lemma_entries_ordered::<(), AdminGrant>();
    law_joining_twice_is_joining_once(a, b, entry_over::<(), AdminGrant>());
    assert forall|k: PlayerId| #[trigger] m.contains_key(k) implies j.contains_key(k) && m[k]
        == j[k] by {
        if g.contains_key(k) {
            assert(joined_grants(j, b)[k] == j[k]);
        }
    }
    assert(part_of(m, j));
    assert forall|k: PlayerId| #[trigger] g.contains_key(k) implies m.contains_key(k) && g[k]
        == m[k] by {
        assert(m.contains_key(k));
    }
    assert(part_of(g, m));
    lemma_chain_of_part(m, j);
    law_few_admins_are_all_kept(m);
}

/// A part of the appointments that holds all who go back to the root has the
/// same chain.
proof fn lemma_chain_of_part(m: Map<PlayerId, AdminGrant>, j: Map<PlayerId, AdminGrant>)
    requires
        j.dom().finite() && filed(j),
        m.dom().finite() && filed(m),
        part_of(m, j),
        part_of(chain(values_of(j)), m),
    ensures
        chain(values_of(m)) == chain(values_of(j)),
{
    let g = chain(values_of(j));
    lemma_chain_within(j);
    if let Some(root) = first_claim(values_of(j)) {
        lemma_root_is_in(j);
        lemma_one_claim_in_chain(j);
        assert(g.contains_key(id_of(root.grantee)));
        assert(m.contains_key(id_of(root.grantee)));
        assert forall|k: PlayerId| #[trigger] m.contains_key(k) && self_claim(m[k]) implies !sooner(
            m[k],
            root,
        ) by {
            lemma_none_is_sooner(j, k);
        }
        lemma_first_of(m, root);
    } else {
        lemma_no_root(j, g);
        lemma_no_root(j, m);
    }
    lemma_chain_grows(m, j);
    lemma_chain_grows(g, m);
    lemma_chain_stands(j);
    assert(chain(values_of(m)) =~= g);
}

/// Where nobody claims to be the first, nobody of a part does.
proof fn lemma_no_root(m: Map<PlayerId, AdminGrant>, p: Map<PlayerId, AdminGrant>)
    requires
        m.dom().finite() && filed(m),
        p.dom().finite() && filed(p),
        part_of(p, m),
        first_claim(values_of(m)) is None,
    ensures
        first_claim(values_of(p)) is None,
{
    if first_claim(values_of(p)) is Some {
        lemma_root_is_in(p);
        let r = id_of((first_claim(values_of(p))->0).grantee);
        assert(m.contains_key(r));
        lemma_none_is_sooner(m, r);
    }
}

/// Whether a set of administrators is a chain from a root of their own, with
/// room for all.
pub open spec fn standing(m: Map<PlayerId, AdminGrant>) -> bool {
    &&& m.dom().finite() && filed(m)
    &&& admins_pruned(m) == m
    &&& first_claim(values_of(m)) is Some
}

/// Whether two sets of administrators go back to different claims and share
/// nobody.
pub open spec fn rival_sets(
    a: Map<PlayerId, AdminGrant>,
    b: Map<PlayerId, AdminGrant>,
) -> bool {
    &&& standing(a) && standing(b)
    &&& forall|k: PlayerId| !(#[trigger] a.contains_key(k) && #[trigger] b.contains_key(k))
}

/// Of two rival sets of administrators, the one with the sooner claim is left.
pub proof fn law_the_sooner_claim_wins(
    a: Map<PlayerId, AdminGrant>,
    b: Map<PlayerId, AdminGrant>,
)
    requires
        rival_sets(a, b),
        sooner(first_claim(values_of(a))->0, first_claim(values_of(b))->0),
    ensures
        admins_pruned(joined_grants(a, b)) == a,
{
    let j = joined_grants(a, b);
    lemma_joined_grants_filed(a, b);
    lemma_root_is_in(a);
    lemma_root_is_in(b);
    let (ra, rb) = (first_claim(values_of(a))->0, first_claim(values_of(b))->0);
    assert(part_of(a, j)) by {
        assert forall|k: PlayerId| #[trigger] a.contains_key(k) implies j.contains_key(k) && a[k]
            == j[k] by {
            assert(!b.contains_key(k));
        }
    }
    assert forall|k: PlayerId| #[trigger] j.contains_key(k) && self_claim(j[k]) implies !sooner(
        j[k],
        ra,
    ) by {
        if a.contains_key(k) {
            lemma_none_is_sooner(a, k);
        } else {
            lemma_none_is_sooner(b, k);
        }
    }
    lemma_first_of(j, ra);
    lemma_standing_is_chain(a);
    lemma_standing_is_chain(b);
    assert forall|k: PlayerId| #[trigger]
        j.contains_key(k) && !self_claim(j[k]) && a.dom().contains(
            id_of(j[k].granted_by),
        ) implies a.dom().contains(k) by {
        if !a.contains_key(k) {
            assert(b.contains_key(k));
            assert(b.contains_key(id_of(b[k].granted_by)));
        }
    }
    lemma_chain_stays_in(j, a.dom());
    lemma_chain_grows(a, j);
    lemma_chain_within(j);
    let c = chain(values_of(j));
    assert forall|k: PlayerId| #[trigger] c.contains_key(k) implies a.contains_key(k) by {
        assert(a.dom().contains(k));
    }
    assert(c =~= a);
    law_few_admins_are_all_kept(j);
}

/// A set as pruning leaves it is its own chain, and fits.
proof fn lemma_standing_is_chain(m: Map<PlayerId, AdminGrant>)
    requires
        standing(m),
    ensures
        chain(values_of(m)) == m,
        self_standing(m),
        listing(m).len() <= MAX_ADMINS,
{
    super::lemma_chain_is_part(m);
    super::pruning::law_pruning_keeps_the_chain(m);
    lemma_chain_stands(foremost_admins(m));
    lemma_chain_stands(m);
    assert(foremost_admins(m) =~= m);
}

/// Whether all of a set of administrators go back to one claim, each appointed
/// after whoever appointed them. The set may be empty.
pub open spec fn under(m: Map<PlayerId, AdminGrant>, root: AdminGrant) -> bool {
    &&& m.dom().finite() && filed(m)
    &&& self_claim(root)
    &&& forall|k: PlayerId| #[trigger]
        m.contains_key(k) ==> m.contains_key(id_of(root.grantee)) && m[id_of(root.grantee)] == root
            && if k == id_of(root.grantee) {
            true
        } else {
            &&& !self_claim(m[k])
            &&& m.contains_key(id_of(m[k].granted_by))
            &&& m[id_of(m[k].granted_by)].at < m[k].at
        }
}

/// Whoever was appointed in order goes back to the root.
proof fn lemma_goes_back(m: Map<PlayerId, AdminGrant>, root: AdminGrant, k: PlayerId)
    requires
        under(m, root),
        first_claim(values_of(m)) == Some(root),
        m.contains_key(k),
    ensures
        chain(values_of(m)).contains_key(k),
    decreases m[k].at - i64::MIN,
{
    law_admins_go_back_to_the_root(m, k);
    if k != id_of(root.grantee) {
        lemma_goes_back(m, root, id_of(m[k].granted_by));
    }
}

/// A set that was appointed in order is its own chain.
proof fn lemma_under_is_chain(m: Map<PlayerId, AdminGrant>, root: AdminGrant)
    requires
        under(m, root),
    ensures
        chain(values_of(m)) == m,
{
    lemma_chain_within(m);
    if exists|k: PlayerId| m.contains_key(k) {
        let some = choose|k: PlayerId| m.contains_key(k);
        assert(m.contains_key(some));
        lemma_one_claim(m, root);
        assert forall|k: PlayerId| #[trigger] m.contains_key(k) implies chain(
            values_of(m),
        ).contains_key(k) by {
            lemma_goes_back(m, root, k);
        }
    }
    assert(chain(values_of(m)) =~= m);
}

/// What is kept of a set that was appointed in order is the first of it, and
/// was appointed in order.
proof fn lemma_under_is_cut(m: Map<PlayerId, AdminGrant>, root: AdminGrant)
    requires
        under(m, root),
    ensures
        admins_pruned(m) == capped::<(), AdminGrant>(m, MAX_ADMINS as nat),
        under(admins_pruned(m), root),
{
    let order = entry_order::<(), AdminGrant>();
    let f = capped::<(), AdminGrant>(m, MAX_ADMINS as nat);
    lemma_under_is_chain(m, root);
    assert(foremost_admins(m) == f);
    let r = id_of(root.grantee);
    assert(f.dom().subset_of(m.dom()));
    vstd::set_lib::lemma_len_subset(f.dom(), m.dom());
    assert forall|k: PlayerId| #[trigger] f.contains_key(k) implies f.contains_key(r) && f[r]
        == root && (k == r || (!self_claim(f[k]) && f.contains_key(id_of(f[k].granted_by)) && f[id_of(
        f[k].granted_by,
    )].at < f[k].at)) by {
        assert(m.contains_key(k));
        assert forall|x: PlayerId| #[trigger] m.contains_key(x) implies !before(
            order(x, m[x]),
            order(r, root),
        ) by {}
        lemma_the_first_stays(m, order, MAX_ADMINS as nat, r);
        if k != r {
            let g = id_of(m[k].granted_by);
            assert(m.contains_key(g));
            if !f.contains_key(g) {
                law_the_foremost_stay(m, order, MAX_ADMINS as nat, k, g);
                assert(order(g, m[g]).1 < order(k, m[k]).1);
                assert(g == r || order(g, m[g]).0 == 1);
            }
        }
    }
    assert(under(f, root));
    lemma_under_is_chain(f, root);
}

/// Two sets under one claim, appointed in order, are so together, and nobody
/// stands further back for it.
proof fn lemma_under_together(
    a: Map<PlayerId, AdminGrant>,
    b: Map<PlayerId, AdminGrant>,
    root: AdminGrant,
)
    requires
        under(a, root),
        under(b, root),
    ensures
        under(joined_grants(a, b), root),
        never_sinks(a, b, entry_over::<(), AdminGrant>(), entry_order::<(), AdminGrant>()),
{
    let j = joined_grants(a, b);
    let r = id_of(root.grantee);
    lemma_joined_grants_filed(a, b);
    assert forall|k: PlayerId| #[trigger] j.contains_key(k) implies j.contains_key(r) && j[r]
        == root && (k == r || (!self_claim(j[k]) && j.contains_key(id_of(j[k].granted_by)) && j[id_of(
        j[k].granted_by,
    )].at < j[k].at)) by {
        if a.contains_key(k) && j[k] == a[k] {
            assert(a.contains_key(r));
            if k != r {
                let g = id_of(a[k].granted_by);
                assert(a.contains_key(g));
                assert(j[g].at <= a[g].at);
            }
        } else {
            assert(b.contains_key(k));
            assert(b.contains_key(r));
            if k != r {
                let g = id_of(b[k].granted_by);
                assert(b.contains_key(g));
                assert(j[g].at <= b[g].at);
            }
        }
    }
}

/// Whether the same administrators are left, whichever two of three copies meet
/// first.
pub open spec fn offices_alike(
    a: Map<PlayerId, AdminGrant>,
    b: Map<PlayerId, AdminGrant>,
    c: Map<PlayerId, AdminGrant>,
) -> bool {
    let all = admins_pruned(joined_grants(joined_grants(a, b), c));
    &&& admins_pruned(joined_grants(admins_pruned(joined_grants(a, b)), c)) == all
    &&& admins_pruned(joined_grants(a, admins_pruned(joined_grants(b, c)))) == all
}

/// The same administrators are left, whichever two of three copies meet first,
/// where all go back to one claim and each was appointed after whoever appointed
/// them. Who leaves does so for want of room.
pub proof fn law_offices_alike_when_appointed_in_order(
    a: Map<PlayerId, AdminGrant>,
    b: Map<PlayerId, AdminGrant>,
    c: Map<PlayerId, AdminGrant>,
    root: AdminGrant,
)
    requires
        under(a, root) && under(b, root) && under(c, root),
        joinable::<(), AdminGrant>(a, b),
        joinable::<(), AdminGrant>(b, c),
        joinable::<(), AdminGrant>(a, c),
    ensures
        offices_alike(a, b, c),
{
    let x = joined_grants(a, b);
    let y = joined_grants(b, c);
    lemma_under_together(a, b, root);
    lemma_under_together(b, c, root);
    lemma_under_together(a, c, root);
    lemma_under_is_cut(x, root);
    lemma_under_is_cut(y, root);
    lemma_under_together(admins_pruned(x), c, root);
    lemma_under_together(a, admins_pruned(y), root);
    lemma_under_together(x, c, root);
    lemma_under_is_cut(joined_grants(admins_pruned(x), c), root);
    lemma_under_is_cut(joined_grants(a, admins_pruned(y)), root);
    lemma_under_is_cut(joined_grants(x, c), root);
    assert(steady::<(), AdminGrant>(a, b, c, MAX_ADMINS as nat));
    lemma_capped_joins_in_any_order::<(), AdminGrant>(a, b, c, MAX_ADMINS as nat);
}

/// Whoever left for want of room where two copies met does not come back when
/// the second comes in again, where all go back to one claim and each was
/// appointed after whoever appointed them.
pub proof fn law_who_found_no_room_stays_out(
    a: Map<PlayerId, AdminGrant>,
    b: Map<PlayerId, AdminGrant>,
    root: AdminGrant,
)
    requires
        under(a, root) && under(b, root),
        joinable::<(), AdminGrant>(a, b),
        joinable::<(), AdminGrant>(b, b),
    ensures
        admins_pruned(joined_grants(admins_pruned(joined_grants(a, b)), b)) == admins_pruned(
            joined_grants(a, b),
        ),
{
    law_offices_alike_when_appointed_in_order(a, b, b, root);
    lemma_entries_ordered::<(), AdminGrant>();
    law_joining_twice_is_joining_once(a, b, entry_over::<(), AdminGrant>());
}

/// The same administrators are left, whichever two of three copies meet first,
/// where nobody leaves.
pub proof fn law_offices_alike_where_nobody_leaves(
    a: Map<PlayerId, AdminGrant>,
    b: Map<PlayerId, AdminGrant>,
    c: Map<PlayerId, AdminGrant>,
)
    requires
        admins_pruned(joined_grants(a, b)) == joined_grants(a, b),
        admins_pruned(joined_grants(b, c)) == joined_grants(b, c),
    ensures
        offices_alike(a, b, c),
{
    lemma_entries_ordered::<(), AdminGrant>();
    law_joining_is_associative(a, b, c, entry_over::<(), AdminGrant>());
}

/// Whether there is room for all who go back to the root.
pub open spec fn room_in_office(m: Map<PlayerId, AdminGrant>) -> bool {
    listing(chain(values_of(m))).len() <= MAX_ADMINS
}

/// Whether whoever loses office where two copies meet has lost it for good by
/// the time a third comes in.
pub open spec fn loss_lasts(
    a: Map<PlayerId, AdminGrant>,
    b: Map<PlayerId, AdminGrant>,
    all: Map<PlayerId, AdminGrant>,
) -> bool {
    let left = admins_pruned(joined_grants(a, b));
    forall|k: PlayerId| #[trigger]
        joined_grants(a, b).contains_key(k) && !left.contains_key(k) ==> !admins_pruned(
            all,
        ).contains_key(k)
}

/// Whether whoever is out of office where all copies meet is appointed in one
/// copy as there.
pub open spec fn appointed_alike(
    a: Map<PlayerId, AdminGrant>,
    all: Map<PlayerId, AdminGrant>,
) -> bool {
    forall|k: PlayerId| #[trigger]
        a.contains_key(k) && !admins_pruned(all).contains_key(k) ==> a[k] == all[k]
}

/// Those left of two copies, and a third, are left as of all three.
proof fn lemma_losses_last(
    a: Map<PlayerId, AdminGrant>,
    b: Map<PlayerId, AdminGrant>,
    c: Map<PlayerId, AdminGrant>,
)
    requires
        a.dom().finite() && filed(a),
        b.dom().finite() && filed(b),
        c.dom().finite() && filed(c),
        room_in_office(joined_grants(a, b)),
        room_in_office(joined_grants(joined_grants(a, b), c)),
        loss_lasts(a, b, joined_grants(joined_grants(a, b), c)),
        appointed_alike(c, joined_grants(joined_grants(a, b), c)),
    ensures
        admins_pruned(joined_grants(admins_pruned(joined_grants(a, b)), c)) == admins_pruned(
            joined_grants(joined_grants(a, b), c),
        ),
{
    let ab = joined_grants(a, b);
    let j = joined_grants(ab, c);
    lemma_joined_grants_filed(a, b);
    lemma_joined_grants_filed(ab, c);
    law_few_admins_are_all_kept(ab);
    law_few_admins_are_all_kept(j);
    lemma_chain_within(ab);
    lemma_chain_within(j);
    let x = chain(values_of(ab));
    let g = chain(values_of(j));
    lemma_joined_grants_filed(x, c);
    let m = joined_grants(x, c);
    assert forall|k: PlayerId| #[trigger] m.contains_key(k) implies j.contains_key(k) && m[k]
        == j[k] by {
        if x.contains_key(k) {
            assert(ab.contains_key(k) && x[k] == ab[k]);
        } else if ab.contains_key(k) {
            assert(!g.contains_key(k));
            assert(c[k] == j[k]);
        }
    }
    assert(part_of(m, j));
    assert forall|k: PlayerId| #[trigger] g.contains_key(k) implies m.contains_key(k) && g[k]
        == m[k] by {
        assert(j.contains_key(k));
        if ab.contains_key(k) {
            assert(x.contains_key(k));
        }
        assert(m.contains_key(k));
    }
    assert(part_of(g, m));
    lemma_chain_of_part(m, j);
    law_few_admins_are_all_kept(m);
}

/// The same administrators are left, whichever two of three copies meet first,
/// where there is room for all who go back to the root, whoever loses office on
/// the way has lost it for good, and the copies appoint them alike.
pub proof fn law_offices_alike_where_losses_last(
    a: Map<PlayerId, AdminGrant>,
    b: Map<PlayerId, AdminGrant>,
    c: Map<PlayerId, AdminGrant>,
)
    requires
        joinable::<(), AdminGrant>(a, b),
        joinable::<(), AdminGrant>(b, c),
        joinable::<(), AdminGrant>(a, c),
        ({
            let all = joined_grants(joined_grants(a, b), c);
            &&& room_in_office(joined_grants(a, b)) && room_in_office(joined_grants(b, c))
            &&& room_in_office(all)
            &&& loss_lasts(a, b, all) && loss_lasts(b, c, all)
            &&& appointed_alike(a, all) && appointed_alike(c, all)
        }),
    ensures
        offices_alike(a, b, c),
{
    let over = entry_over::<(), AdminGrant>();
    let ab = joined_grants(a, b);
    let bc = joined_grants(b, c);
    let y = admins_pruned(bc);
    assert(filed(a) && filed(b) && filed(c)) by {
        assert forall|k: PlayerId| #[trigger] a.contains_key(k) implies id_of(a[k].grantee) == k by {
            assert(entry_key::<(), AdminGrant>()(a[k]) == k);
        }
        assert forall|k: PlayerId| #[trigger] b.contains_key(k) implies id_of(b[k].grantee) == k by {
            assert(entry_key::<(), AdminGrant>()(b[k]) == k);
        }
        assert forall|k: PlayerId| #[trigger] c.contains_key(k) implies id_of(c[k].grantee) == k by {
            assert(entry_key::<(), AdminGrant>()(c[k]) == k);
        }
    }
    lemma_entries_ordered::<(), AdminGrant>();
    law_joining_is_associative(a, b, c, over);
    lemma_joined_apart(b, c, a);
    law_joining_commutes(bc, a, over);
    assert(joined_grants(bc, a) == joined_grants(ab, c));
    lemma_losses_last(a, b, c);
    lemma_losses_last(b, c, a);
    lemma_joined_grants_filed(b, c);
    super::lemma_chain_is_part(bc);
    assert forall|k: PlayerId|
        #![trigger y.contains_key(k), a.contains_key(k)]
        y.contains_key(k) && a.contains_key(k) implies apart(over, y[k], a[k]) by {
        assert(bc.contains_key(k));
        assert(apart(over, bc[k], a[k]));
    }
    law_joining_commutes(y, a, over);
}

/// What two copies make can be told apart from what both can.
proof fn lemma_joined_apart(
    a: Map<PlayerId, AdminGrant>,
    b: Map<PlayerId, AdminGrant>,
    c: Map<PlayerId, AdminGrant>,
)
    requires
        all_apart(entry_over::<(), AdminGrant>(), c, a),
        all_apart(entry_over::<(), AdminGrant>(), c, b),
    ensures
        all_apart(entry_over::<(), AdminGrant>(), joined_grants(a, b), c),
{
    let over = entry_over::<(), AdminGrant>();
    let j = joined_grants(a, b);
    assert forall|k: PlayerId|
        #![trigger j.contains_key(k), c.contains_key(k)]
        j.contains_key(k) && c.contains_key(k) implies apart(over, j[k], c[k]) by {
        if a.contains_key(k) && j[k] == a[k] {
            assert(apart(over, c[k], a[k]));
        } else {
            assert(b.contains_key(k));
            assert(apart(over, c[k], b[k]));
        }
    }
}

} // verus!
