//! Why copies of a game that has started can be merged in any order, and any
//! number of times.

use super::certification::Proposed;
use super::claims::{
    all_claims_apart, by_slot, claim_over, claims_apart, claims_sound, lemma_claims_ordered,
    lemma_slots_tell, lemma_syncing_claims, signatures_tell, well_ordered,
};
use super::clocks::{
    clocks_fault, clocks_pruned, filed_fault, filed_faults, of_players, ClockAttestation,
};
use super::conclusion::{
    claim_fault, claims_after, sigs_of, untold_claims, SignedConclusion,
};
use super::convergence::{
    but_proposals, clock_over, copies_joined, kin, lemma_kin_turned, lemma_merging_joins,
    lemma_no_proposals, lemma_proposals_decide_nothing, lemma_valid_claims_sound,
    lemma_whole_but_proposals, move_over, whole,
};
use super::moves::{law_pruned_moves_pass, moves_pruned};
use super::replica::{
    game_merged, game_pruned, law_merging_a_like_copy_changes_nothing,
};
use super::validity::{law_no_proposals_stand, law_ordered_claims_pass};
use super::{keys_of, ChessGameParametersV1, GameView};
use crate::crypto::VerifyingKey;
use crate::identity::{GameId, PlayerId};
use crate::join::{
    join, law_joining_is_associative, law_joining_twice_is_joining_once, orders,
};
use crate::sorted_map::{lemma_listing_entry, lemma_listing_place, listing};
use crate::text::lemma_no_fault;
use vstd::prelude::*;

verus! {

/// Whether the moves of two copies together all stand. They do unless a player
/// signed two moves for one ply, and the rest was played after the one that
/// gives way.
pub open spec fn lines_stand(a: GameView, b: GameView, params: ChessGameParametersV1) -> bool {
    moves_pruned(join(a.moves, b.moves, move_over()), params.game_id, keys_of(a)) == join(
        a.moves,
        b.moves,
        move_over(),
    )
}

/// Whether nobody has put forward a certificate.
pub open spec fn uncertified(g: GameView) -> bool {
    g.proposals =~= Map::<[u8; 32], Proposed>::empty()
}

/// Attestations pass the check just where each of them does.
proof fn lemma_clocks_checked(
    m: Map<PlayerId, ClockAttestation>,
    game_id: GameId,
    keys: (VerifyingKey, VerifyingKey),
)
    requires
        m.dom().finite(),
    ensures
        clocks_fault(m, game_id, Some(keys)) is None <==> forall|k: PlayerId| #[trigger]
            m.contains_key(k) ==> filed_fault(k, m[k], game_id, keys) is None,
{
    let faults = filed_faults(m, game_id, keys);
    lemma_no_fault(faults, listing(m).len());
    if clocks_fault(m, game_id, Some(keys)) is None {
        assert forall|k: PlayerId| #[trigger] m.contains_key(k) implies filed_fault(
            k,
            m[k],
            game_id,
            keys,
        ) is None by {
            let i = lemma_listing_place(m, k);
            assert(faults(i) is None);
        }
    }
    if forall|k: PlayerId| #[trigger]
        m.contains_key(k) ==> filed_fault(k, m[k], game_id, keys) is None {
        assert forall|i: int| 0 <= i < listing(m).len() implies (#[trigger] faults(i)) is None by {
            lemma_listing_entry(m, i);
        }
    }
}

/// What two copies make is in order as they are.
proof fn lemma_joined_whole(a: GameView, b: GameView, params: ChessGameParametersV1)
    requires
        a.setup is Some,
        whole(a, params),
        whole(b, params),
        kin(a, b),
        uncertified(a),
        lines_stand(a, b, params),
    ensures
        whole(copies_joined(a, b, params), params),
        uncertified(copies_joined(a, b, params)),
        forall|c: SignedConclusion| #[trigger]
            copies_joined(a, b, params).claims.contains(c) ==> a.claims.contains(c)
                || b.claims.contains(c),
{
    let x = copies_joined(a, b, params);
    let id = params.game_id;
    let keys = keys_of(a);
    assert(keys_of(b) == keys && keys_of(x) == keys);
    assert(x.moves.dom() =~= a.moves.dom().union(b.moves.dom()));
    assert(x.clocks.dom() =~= a.clocks.dom().union(b.clocks.dom()));
    lemma_valid_claims_sound(a.claims, keys, id);
    lemma_valid_claims_sound(b.claims, keys, id);
    lemma_syncing_claims(a.claims, b.claims, keys, id);
    assert forall|i: int| 0 <= i < x.claims.len() implies claim_fault(
        #[trigger] x.claims[i],
        keys,
        id,
    ) is None by {
        assert(x.claims.contains(x.claims[i]));
        if a.claims.contains(x.claims[i]) {
            let j = choose|j: int| 0 <= j < a.claims.len() && a.claims[j] == x.claims[i];
            assert(claim_fault(a.claims[j], keys, id) is None);
        } else {
            let j = choose|j: int| 0 <= j < b.claims.len() && b.claims[j] == x.claims[i];
            assert(claim_fault(b.claims[j], keys, id) is None);
        }
    }
    law_ordered_claims_pass(x.claims, keys, id);
    law_pruned_moves_pass(x.moves, id, keys);
    lemma_clocks_checked(a.clocks, id, keys->0);
    lemma_clocks_checked(b.clocks, id, keys->0);
    lemma_clocks_checked(x.clocks, id, keys->0);
    law_no_proposals_stand(x, params);
    lemma_joined_is_pruned(a, b, params);
}

/// There is nothing to prune in what two copies make.
proof fn lemma_joined_is_pruned(a: GameView, b: GameView, params: ChessGameParametersV1)
    requires
        a.setup is Some,
        whole(a, params),
        whole(b, params),
        kin(a, b),
        uncertified(a),
        lines_stand(a, b, params),
    ensures
        game_pruned(copies_joined(a, b, params), params) == copies_joined(a, b, params),
{
    let x = copies_joined(a, b, params);
    let keys = keys_of(a);
    assert(keys_of(b) == keys && keys_of(x) == keys);
    assert forall|k: PlayerId| #[trigger] x.clocks.contains_key(k) implies of_players(keys->0)(
        k,
        x.clocks[k],
    ) by {
        if a.clocks.contains_key(k) {
            assert(clocks_pruned(a.clocks, keys).contains_key(k));
        } else {
            assert(clocks_pruned(b.clocks, keys).contains_key(k));
        }
    }
    assert(clocks_pruned(x.clocks, keys) =~= x.clocks);
    lemma_no_proposals(keys, true);
    lemma_no_proposals(keys, false);
    assert(game_pruned(x, params) =~= x);
}

/// A copy that merges another whose moves stand with its own holds the two as
/// one.
proof fn lemma_merged_is_joined(a: GameView, b: GameView, params: ChessGameParametersV1)
    requires
        a.setup is Some,
        whole(a, params),
        whole(b, params),
        kin(a, b),
        uncertified(a),
        uncertified(b),
        lines_stand(a, b, params),
    ensures
        game_merged(a, b, params) == (copies_joined(a, b, params), None::<Seq<char>>),
{
    lemma_whole_but_proposals(a, params);
    lemma_whole_but_proposals(b, params);
    lemma_merging_joins(a, b, params);
    lemma_joined_is_pruned(a, b, params);
    let m = game_merged(a, b, params).0;
    assert(m =~= GameView { proposals: m.proposals, ..but_proposals(m) });
}

/// What can be told apart from two copies can be told apart from the two as
/// one.
proof fn lemma_joined_kin(
    a: GameView,
    b: GameView,
    c: GameView,
    params: ChessGameParametersV1,
)
    requires
        kin(a, c),
        kin(b, c),
        forall|x: SignedConclusion| #[trigger]
            copies_joined(a, b, params).claims.contains(x) ==> a.claims.contains(x)
                || b.claims.contains(x),
    ensures
        kin(copies_joined(a, b, params), c),
{
    let x = copies_joined(a, b, params);
    assert forall|k: u32| #[trigger] x.moves.contains_key(k) implies (a.moves.contains_key(k)
        && x.moves[k] == a.moves[k]) || (b.moves.contains_key(k) && x.moves[k] == b.moves[k]) by {}
    assert forall|k: PlayerId| #[trigger] x.clocks.contains_key(k) implies (a.clocks.contains_key(k)
        && x.clocks[k] == a.clocks[k]) || (b.clocks.contains_key(k) && x.clocks[k]
        == b.clocks[k]) by {}
    assert forall|i: int| 0 <= i < x.claims.len() implies a.claims.contains(#[trigger] x.claims[i])
        || b.claims.contains(x.claims[i]) by {
        assert(x.claims.contains(x.claims[i]));
    }
    lemma_claims_kin(a.claims, b.claims, x.claims, c.claims);
}

proof fn lemma_claims_kin(
    a: Seq<SignedConclusion>,
    b: Seq<SignedConclusion>,
    x: Seq<SignedConclusion>,
    c: Seq<SignedConclusion>,
)
    requires
        all_claims_apart(a, c),
        all_claims_apart(b, c),
        signatures_tell(a, c),
        signatures_tell(b, c),
        forall|i: int|
            0 <= i < x.len() ==> a.contains(#[trigger] x[i]) || b.contains(x[i]),
    ensures
        all_claims_apart(x, c),
        signatures_tell(x, c),
{
    assert forall|i: int, j: int| 0 <= i < x.len() && 0 <= j < c.len() implies claims_apart(
        #[trigger] x[i],
        #[trigger] c[j],
    ) && (x[i].signature.0@ == c[j].signature.0@ ==> x[i] == c[j]) by {
        if a.contains(x[i]) {
            let k = choose|k: int| 0 <= k < a.len() && a[k] == x[i];
            assert(claims_apart(a[k], c[j]));
        } else {
            let k = choose|k: int| 0 <= k < b.len() && b[k] == x[i];
            assert(claims_apart(b[k], c[j]));
        }
    }
}

/// A list of claims once another copy has sent what it was not told.
spec fn claims_joined(
    a: Seq<SignedConclusion>,
    b: Seq<SignedConclusion>,
    keys: Option<(VerifyingKey, VerifyingKey)>,
    game_id: GameId,
) -> Seq<SignedConclusion> {
    claims_after(a, untold_claims(b, sigs_of(a)), keys, game_id).0
}

proof fn lemma_claims_join_in_any_order(
    a: Seq<SignedConclusion>,
    b: Seq<SignedConclusion>,
    c: Seq<SignedConclusion>,
    keys: Option<(VerifyingKey, VerifyingKey)>,
    game_id: GameId,
)
    requires
        well_ordered(a) && well_ordered(b) && well_ordered(c),
        claims_sound(b, keys, game_id) && claims_sound(c, keys, game_id),
        claims_sound(claims_joined(b, c, keys, game_id), keys, game_id),
        all_claims_apart(a, b) && signatures_tell(a, b),
        all_claims_apart(b, c) && signatures_tell(b, c),
        all_claims_apart(claims_joined(a, b, keys, game_id), c),
        signatures_tell(claims_joined(a, b, keys, game_id), c),
        all_claims_apart(a, claims_joined(b, c, keys, game_id)),
        signatures_tell(a, claims_joined(b, c, keys, game_id)),
    ensures
        claims_joined(claims_joined(a, b, keys, game_id), c, keys, game_id) == claims_joined(
            a,
            claims_joined(b, c, keys, game_id),
            keys,
            game_id,
        ),
{
    let x = claims_joined(a, b, keys, game_id);
    let y = claims_joined(b, c, keys, game_id);
    lemma_syncing_claims(a, b, keys, game_id);
    lemma_syncing_claims(b, c, keys, game_id);
    lemma_syncing_claims(x, c, keys, game_id);
    lemma_syncing_claims(a, y, keys, game_id);
    lemma_claims_ordered();
    law_joining_is_associative(by_slot(a), by_slot(b), by_slot(c), claim_over());
    lemma_slots_tell(
        claims_joined(x, c, keys, game_id),
        claims_joined(a, y, keys, game_id),
    );
}

/// Three copies make the same, whichever two are taken first.
proof fn lemma_joined_in_any_order(
    a: GameView,
    b: GameView,
    c: GameView,
    params: ChessGameParametersV1,
)
    requires
        whole(a, params),
        whole(b, params),
        whole(c, params),
        kin(a, b),
        kin(b, c),
        kin(copies_joined(a, b, params), c),
        kin(a, copies_joined(b, c, params)),
        whole(copies_joined(b, c, params), params),
    ensures
        copies_joined(copies_joined(a, b, params), c, params) == copies_joined(
            a,
            copies_joined(b, c, params),
            params,
        ),
{
    let x = copies_joined(a, b, params);
    let y = copies_joined(b, c, params);
    let id = params.game_id;
    let keys = keys_of(a);
    assert(keys_of(b) == keys && keys_of(c) == keys && keys_of(x) == keys && keys_of(y) == keys);
    assert(copies_joined(x, c, params).moves == copies_joined(a, y, params).moves) by {
        assert(orders(move_over()));
        law_joining_is_associative(a.moves, b.moves, c.moves, move_over());
    }
    assert(copies_joined(x, c, params).clocks == copies_joined(a, y, params).clocks) by {
        assert(orders(clock_over()));
        law_joining_is_associative(a.clocks, b.clocks, c.clocks, clock_over());
    }
    assert(copies_joined(x, c, params).claims == copies_joined(a, y, params).claims) by {
        lemma_valid_claims_sound(b.claims, keys, id);
        lemma_valid_claims_sound(c.claims, keys, id);
        lemma_valid_claims_sound(y.claims, keys, id);
        assert(x.claims == claims_joined(a.claims, b.claims, keys, id));
        assert(y.claims == claims_joined(b.claims, c.claims, keys, id));
        lemma_claims_join_in_any_order(a.claims, b.claims, c.claims, keys, id);
    }
    assert(copies_joined(x, c, params) =~= copies_joined(a, y, params));
}

/// Three copies without proposals hold the same once they have merged one
/// another, whichever two merge first.
pub proof fn lemma_bare_copies_merge_in_any_order(
    a: GameView,
    b: GameView,
    c: GameView,
    params: ChessGameParametersV1,
)
    requires
        a.setup is Some,
        whole(a, params) && whole(b, params) && whole(c, params),
        kin(a, b) && kin(b, c) && kin(a, c),
        uncertified(a) && uncertified(b) && uncertified(c),
        lines_stand(a, b, params),
        lines_stand(b, c, params),
    ensures
        ({
            let x = copies_joined(a, b, params);
            let y = copies_joined(b, c, params);
            &&& game_merged(a, b, params) == (x, None::<Seq<char>>)
            &&& game_merged(b, c, params) == (y, None::<Seq<char>>)
            &&& whole(x, params) && whole(y, params)
            &&& kin(x, c) && kin(a, y)
            &&& copies_joined(x, c, params) == copies_joined(a, y, params)
            &&& game_merged(x, c, params) == game_merged(a, y, params)
        }),
{
    let x = copies_joined(a, b, params);
    let y = copies_joined(b, c, params);
    assert(keys_of(b) == keys_of(a));
    lemma_joined_whole(a, b, params);
    lemma_joined_whole(b, c, params);
    lemma_merged_is_joined(a, b, params);
    lemma_merged_is_joined(b, c, params);
    lemma_joined_kin(a, b, c, params);
    lemma_kin_turned(a, b);
    lemma_kin_turned(a, c);
    lemma_joined_kin(b, c, a, params);
    lemma_kin_turned(y, a);
    lemma_joined_in_any_order(a, b, c, params);
    lemma_whole_but_proposals(a, params);
    lemma_whole_but_proposals(c, params);
    lemma_whole_but_proposals(x, params);
    lemma_whole_but_proposals(y, params);
    lemma_merging_joins(x, c, params);
    lemma_merging_joins(a, y, params);
    let p = game_merged(x, c, params).0;
    let q = game_merged(a, y, params).0;
    assert(p =~= GameView { proposals: p.proposals, ..but_proposals(p) });
    assert(q =~= GameView { proposals: q.proposals, ..but_proposals(q) });
}

/// What two copies hold once one has merged the other, but for proposals.
proof fn lemma_merged_but_proposals(a: GameView, b: GameView, params: ChessGameParametersV1)
    requires
        whole(but_proposals(a), params),
        whole(but_proposals(b), params),
        kin(a, b),
    ensures
        game_merged(a, b, params).1 is None,
        but_proposals(game_merged(a, b, params).0) == but_proposals(
            game_merged(but_proposals(a), but_proposals(b), params).0,
        ),
{
    let (p, q) = (but_proposals(a), but_proposals(b));
    assert(but_proposals(p) =~= p);
    assert(but_proposals(q) =~= q);
    assert(kin(p, q));
    lemma_merging_joins(a, b, params);
    lemma_merging_joins(p, q, params);
    let x = copies_joined(a, b, params);
    assert(copies_joined(p, q, params) =~= but_proposals(x));
    lemma_proposals_decide_nothing(x, params);
    lemma_proposals_decide_nothing(but_proposals(x), params);
    assert(but_proposals(but_proposals(x)) =~= but_proposals(x));
}

/// Three copies of a game hold the same once they have merged one another,
/// whichever two merge first, where the moves of the first two that merge
/// stand. Proposals for a certificate are left out, unless there are none: a
/// game that is open again drops them.
pub proof fn law_merging_is_associative(
    a: GameView,
    b: GameView,
    c: GameView,
    params: ChessGameParametersV1,
)
    requires
        a.setup is Some,
        whole(a, params) && whole(b, params) && whole(c, params),
        kin(a, b) && kin(b, c) && kin(a, c),
        lines_stand(a, b, params),
        lines_stand(b, c, params),
    ensures
        game_merged(game_merged(a, b, params).0, c, params).1 is None,
        game_merged(a, game_merged(b, c, params).0, params).1 is None,
        but_proposals(game_merged(game_merged(a, b, params).0, c, params).0) == but_proposals(
            game_merged(a, game_merged(b, c, params).0, params).0,
        ),
        uncertified(a) && uncertified(b) && uncertified(c) ==> game_merged(
            game_merged(a, b, params).0,
            c,
            params,
        ) == game_merged(a, game_merged(b, c, params).0, params),
{
    let (p, q, r) = (but_proposals(a), but_proposals(b), but_proposals(c));
    lemma_whole_but_proposals(a, params);
    lemma_whole_but_proposals(b, params);
    lemma_whole_but_proposals(c, params);
    assert(kin(p, q) && kin(q, r) && kin(p, r));
    assert(keys_of(p) == keys_of(a) && keys_of(q) == keys_of(b));
    lemma_bare_copies_merge_in_any_order(p, q, r, params);
    lemma_merged_but_proposals(a, b, params);
    lemma_merged_but_proposals(b, c, params);
    let x = copies_joined(p, q, params);
    let y = copies_joined(q, r, params);
    let m = game_merged(a, b, params).0;
    let n = game_merged(b, c, params).0;
    assert(but_proposals(x) =~= x);
    assert(but_proposals(y) =~= y);
    assert(but_proposals(m) == x);
    assert(but_proposals(n) == y);
    assert(kin(m, c));
    assert(kin(a, n));
    lemma_merged_but_proposals(m, c, params);
    lemma_merged_but_proposals(a, n, params);
    if uncertified(a) && uncertified(b) && uncertified(c) {
        assert(p =~= a);
        assert(q =~= b);
        assert(r =~= c);
    }
}

/// A copy that was merged already adds nothing, where the moves of the two
/// stand. Proposals for a certificate are left out, unless there are none.
pub proof fn law_merging_twice_is_merging_once(
    a: GameView,
    b: GameView,
    params: ChessGameParametersV1,
)
    requires
        a.setup is Some,
        whole(a, params) && whole(b, params),
        kin(a, b) && kin(b, b),
        b.proposals.dom().finite(),
        lines_stand(a, b, params),
    ensures
        game_merged(game_merged(a, b, params).0, b, params).1 is None,
        but_proposals(game_merged(game_merged(a, b, params).0, b, params).0) == but_proposals(
            game_merged(a, b, params).0,
        ),
        uncertified(a) && uncertified(b) ==> game_merged(
            game_merged(a, b, params).0,
            b,
            params,
        ) == game_merged(a, b, params),
{
    assert(lines_stand(b, b, params)) by {
        assert(orders(move_over()));
        law_joining_twice_is_joining_once(b.moves, b.moves, move_over());
    }
    law_merging_is_associative(a, b, b, params);
    assert(game_merged(b, b, params).0 == b) by {
        law_merging_a_like_copy_changes_nothing(b, params);
    }
    assert(game_merged(a, b, params).1 is None) by {
        lemma_whole_but_proposals(a, params);
        lemma_whole_but_proposals(b, params);
        lemma_merging_joins(a, b, params);
    }
}

} // verus!
