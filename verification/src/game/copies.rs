//! Why copies of a game agree in full: on who is seated, on what was played and
//! claimed, and on the certificates that were put forward.

use super::certification::{
    by_players, lemma_proposals_ordered, lemma_sound_proposals_come_in, outcome_of,
    proposal_fault, proposal_faults, proposal_key, proposal_over, proposals_after,
    proposals_fault, proposals_pruned, Outcome, Proposed, SignedCertificateProposal,
};
use super::claims::{
    all_claims_apart, claims_sound, law_claims_agree, lemma_apart_turned, lemma_signatures_turned,
    lemma_syncing_claims, signatures_tell, well_ordered,
};
use super::clocks::{attestation_fault, clocks_pruned, ClockAttestation};
use super::conclusion::{
    claims_after, decides, sigs_of, undecided, untold_claims, SignedConclusion,
};
use super::convergence::{
    but_proposals, clock_key, clock_over, copies_joined, kin, lemma_kin_turned, lemma_maps_turned,
    lemma_proposals_decide_nothing, lemma_sound_attestations_come_in,
    lemma_sound_moves_come_in, lemma_standing_moves_sound, lemma_valid_claims_sound,
    lemma_valid_clocks_sound, lemma_whole_but_proposals, move_key, move_over, whole,
};
use super::merging::{lemma_bare_copies_merge_in_any_order, lines_stand};
use super::moves::{moves_pruned, signed_move_fault, AuthorizedMove};
use super::replica::{
    game_after, game_fault, game_merged, game_pruned, game_told, game_untold,
    law_merging_a_like_copy_changes_nothing, no_change, with_claims, with_clocks, with_moves,
    with_proposals, with_slot,
};
use super::opponent::{slot_pruned, SignedJoin};
use super::seating::{
    law_seating_spreads, law_seats_agree, lemma_slots_sync, lemma_waiting_is_bare, offer_over,
    slots_joined, slots_told_apart, waiting,
};
use super::{keys_of, over, result_of, ChessGameParametersV1, GameView};
use crate::identity::{GameId, PlayerId};
use crate::join::{
    all_apart, apart, filed, join, law_joining_commutes, law_joining_is_associative,
    law_joining_twice_is_joining_once, law_syncing_joins, marks_tell, orders,
};
use crate::sorted_map::{lemma_listed, lemma_listing_entry, lemma_listing_place, listing};
use crate::sync::{marks_of, missing, Record};
use crate::text::lemma_no_fault;
use vstd::prelude::*;

verus! {

/// Whether a copy of a game is in order, whether it waits or has started:
/// nothing is wrong with it, and there is nothing in it to prune.
pub open spec fn in_order(g: GameView, params: ChessGameParametersV1) -> bool {
    &&& g.setup is Some
    &&& g.moves.dom().finite() && g.clocks.dom().finite() && g.proposals.dom().finite()
    &&& well_ordered(g.claims)
    &&& filed(g.proposals, proposal_key())
    &&& game_fault(g, g, params) is None
    &&& game_pruned(g, params) == g
}

/// Whether what two copies of one game hold can be told apart: by marks, and by
/// which of two records stays.
pub open spec fn copies_told_apart(a: GameView, b: GameView) -> bool {
    &&& a.setup == b.setup
    &&& slots_told_apart(a.slot, b.slot)
    &&& marks_tell::<u32, AuthorizedMove>(a.moves, b.moves)
    &&& all_apart(move_over(), a.moves, b.moves)
    &&& marks_tell::<PlayerId, ClockAttestation>(a.clocks, b.clocks)
    &&& all_apart(clock_over(), a.clocks, b.clocks)
    &&& all_claims_apart(a.claims, b.claims)
    &&& signatures_tell(a.claims, b.claims)
    &&& marks_tell::<[u8; 32], SignedCertificateProposal>(a.proposals, b.proposals)
    &&& all_apart(proposal_over(), a.proposals, b.proposals)
}

/// A copy with who is seated once another copy has told of it.
pub open spec fn seated_by(a: GameView, b: GameView) -> GameView {
    GameView { slot: slots_joined(a.slot, b.slot), ..a }
}

/// All that two copies of a game hold.
pub open spec fn all_held(a: GameView, b: GameView, params: ChessGameParametersV1) -> GameView {
    GameView {
        setup: a.setup,
        slot: slots_joined(a.slot, b.slot),
        moves: join(a.moves, b.moves, move_over()),
        clocks: join(a.clocks, b.clocks, clock_over()),
        claims: claims_after(
            a.claims,
            untold_claims(b.claims, sigs_of(a.claims)),
            keys_of(seated_by(a, b)),
            params.game_id,
        ).0,
        proposals: join(a.proposals, b.proposals, proposal_over()),
    }
}

/// Whether the claims and the proposals of two copies are still right where the
/// copies meet: they are by those who play then, and the proposals tell the
/// game as it is then.
pub open spec fn still_right(a: GameView, b: GameView, params: ChessGameParametersV1) -> bool {
    let all = all_held(a, b, params);
    &&& claims_sound(a.claims, keys_of(all), params.game_id)
    &&& claims_sound(b.claims, keys_of(all), params.game_id)
    &&& proposals_fault(a.proposals, outcome_of(all), params.game_id) is None
    &&& proposals_fault(b.proposals, outcome_of(all), params.game_id) is None
}

/// Proposals with which nothing is wrong come in.
proof fn lemma_proposals_sync(a: GameView, b: GameView, g: GameView, params: ChessGameParametersV1)
    requires
        a.proposals.dom().finite(),
        b.proposals.dom().finite(),
        filed(b.proposals, proposal_key()),
        marks_tell::<[u8; 32], SignedCertificateProposal>(a.proposals, b.proposals),
        proposals_fault(b.proposals, outcome_of(g), params.game_id) is None,
    ensures
        proposals_after(
            a.proposals,
            missing::<[u8; 32], SignedCertificateProposal>(
                listing(b.proposals),
                marks_of::<[u8; 32], SignedCertificateProposal>(listing(a.proposals)),
            ),
            outcome_of(g),
            params.game_id,
        ) == join(a.proposals, b.proposals, proposal_over()),
{
    let o = outcome_of(g);
    let id = params.game_id;
    let ps = missing::<[u8; 32], SignedCertificateProposal>(
        listing(b.proposals),
        marks_of::<[u8; 32], SignedCertificateProposal>(listing(a.proposals)),
    );
    lemma_proposals_ordered();
    law_syncing_joins::<[u8; 32], SignedCertificateProposal>(
        a.proposals,
        b.proposals,
        proposal_key(),
        proposal_over(),
    );
    let faults = proposal_faults(b.proposals, o, id);
    lemma_no_fault(faults, listing(b.proposals).len());
    assert forall|i: int| 0 <= i < ps.len() implies proposal_fault(
        #[trigger] ps[i],
        o,
        id,
    ) is None by {
        let k = choose|k: [u8; 32]| b.proposals.contains_key(k) && b.proposals[k] == ps[i];
        let j = lemma_listing_place(b.proposals, k);
        assert(faults(j) is None);
    }
    lemma_sound_proposals_come_in(a.proposals, ps, o, id);
}

/// Taking in the moves and the attestations that were not told joins them.
proof fn lemma_play_syncs(a: GameView, b: GameView, g: GameView, params: ChessGameParametersV1)
    requires
        in_order(a, params),
        in_order(b, params),
        copies_told_apart(a, b),
        g.moves == a.moves,
        g.clocks == a.clocks,
    ensures
        ({
            let d = game_untold(b, game_told(a));
            let g3 = GameView { moves: join(a.moves, b.moves, move_over()), ..g };
            let g4 = GameView { clocks: join(a.clocks, b.clocks, clock_over()), ..g3 };
            &&& with_moves(g, d, params) == (g3, None::<Seq<char>>)
            &&& with_clocks(g3, d, params) == (g4, None::<Seq<char>>)
        }),
{
    let id = params.game_id;
    let told = game_told(a);
    let d = game_untold(b, told);
    lemma_standing_moves_sound(b.moves, id, keys_of(b));
    lemma_valid_clocks_sound(b.clocks, id, keys_of(b));
    assert(orders(move_over()));
    assert(orders(clock_over()));
    law_syncing_joins::<u32, AuthorizedMove>(a.moves, b.moves, move_key(), move_over());
    law_syncing_joins::<PlayerId, ClockAttestation>(
        a.clocks,
        b.clocks,
        clock_key(),
        clock_over(),
    );
    let ms = missing::<u32, AuthorizedMove>(listing(b.moves), told.moves);
    let ks = missing::<PlayerId, ClockAttestation>(listing(b.clocks), told.clocks);
    assert forall|i: int| 0 <= i < ms.len() implies signed_move_fault(
        #[trigger] ms[i],
        id,
    ) is None by {
        let k = choose|k: u32| b.moves.contains_key(k) && b.moves[k] == ms[i];
    }
    assert forall|i: int| 0 <= i < ks.len() implies attestation_fault(
        #[trigger] ks[i],
        id,
    ) is None by {
        let k = choose|k: PlayerId| b.clocks.contains_key(k) && b.clocks[k] == ks[i];
    }
    lemma_sound_moves_come_in(a.moves, ms, id);
    lemma_sound_attestations_come_in(a.clocks, ks, id);
    let g3 = GameView { moves: join(a.moves, b.moves, move_over()), ..g };
    let g4 = GameView { clocks: join(a.clocks, b.clocks, clock_over()), ..g3 };
    assert(with_moves(g, d, params).0 =~= g3);
    assert(with_clocks(g3, d, params).0 =~= g4);
}

/// A copy that takes in what another sends holds what is left of all that the
/// two hold.
pub proof fn lemma_merging_leaves_all(a: GameView, b: GameView, params: ChessGameParametersV1)
    requires
        in_order(a, params),
        in_order(b, params),
        copies_told_apart(a, b),
        still_right(a, b, params),
    ensures
        game_merged(a, b, params) == (
            game_pruned(all_held(a, b, params), params),
            None::<Seq<char>>,
        ),
{
    let id = params.game_id;
    let told = game_told(a);
    let d = game_untold(b, told);
    let all = all_held(a, b, params);
    let keys = keys_of(all);
    assert(d.setup is None);
    lemma_slots_sync(a.slot, b.slot, a.setup, params);
    let g2 = seated_by(a, b);
    assert(keys_of(g2) == keys);
    assert(with_slot(a, d, params).1 is None && with_slot(a, d, params).0 =~= g2);
    lemma_play_syncs(a, b, g2, params);
    let g3 = GameView { moves: all.moves, ..g2 };
    let g4 = GameView { clocks: all.clocks, ..g3 };
    assert(keys_of(g4) == keys);
    lemma_syncing_claims(a.claims, b.claims, keys, id);
    let g5 = GameView { claims: all.claims, ..g4 };
    assert(with_claims(g4, d, params).1 is None && with_claims(g4, d, params).0 =~= g5);
    lemma_outcome_hangs_on(g5, all);
    lemma_proposals_sync(a, b, g5, params);
    assert(with_proposals(g5, d, params) =~= all);
    assert(game_after(a, d, params) == (game_pruned(all, params), None::<Seq<char>>));
    if d == no_change() {
        assert(all =~= a);
    }
}

/// The outcome hangs on the terms, on who is seated, on what was played and on
/// what was claimed, and on nothing else.
pub proof fn lemma_outcome_hangs_on(g: GameView, h: GameView)
    requires
        g.setup == h.setup,
        g.slot.seated == h.slot.seated,
        g.moves == h.moves,
        g.clocks == h.clocks,
        g.claims == h.claims,
    ensures
        outcome_of(g) == outcome_of(h),
{
    assert(keys_of(g) == keys_of(h));
    assert forall|c: SignedConclusion| #[trigger] decides(c, g) == decides(c, h) by {}
    assert(undecided(g) =~= undecided(h));
}

proof fn lemma_told_apart_turned(a: GameView, b: GameView)
    requires
        copies_told_apart(a, b),
    ensures
        copies_told_apart(b, a),
{
    lemma_apart_turned(a.claims, b.claims);
    lemma_signatures_turned(a.claims, b.claims);
    lemma_maps_turned::<u32, AuthorizedMove>(a.moves, b.moves, move_over());
    lemma_maps_turned::<PlayerId, ClockAttestation>(a.clocks, b.clocks, clock_over());
    lemma_maps_turned::<[u8; 32], SignedCertificateProposal>(
        a.proposals,
        b.proposals,
        proposal_over(),
    );
    lemma_maps_turned::<[u8; 32], SignedJoin>(a.slot.offers, b.slot.offers, offer_over());
}

/// All that two copies hold is the same either way.
proof fn lemma_all_held_alike(a: GameView, b: GameView, params: ChessGameParametersV1)
    requires
        in_order(a, params),
        in_order(b, params),
        copies_told_apart(a, b),
        still_right(a, b, params),
    ensures
        all_held(a, b, params) == all_held(b, a, params),
{
    let (p, q) = (all_held(a, b, params), all_held(b, a, params));
    assert(p.moves == q.moves) by {
        assert(orders(move_over()));
        law_joining_commutes(a.moves, b.moves, move_over());
    }
    assert(p.clocks == q.clocks) by {
        assert(orders(clock_over()));
        law_joining_commutes(a.clocks, b.clocks, clock_over());
    }
    assert(p.proposals == q.proposals) by {
        lemma_proposals_ordered();
        law_joining_commutes(a.proposals, b.proposals, proposal_over());
    }
    assert(p.slot == q.slot) by {
        law_seats_agree(a.slot, b.slot, a.setup, params);
        lemma_told_apart_turned(a, b);
        law_seats_agree(b.slot, a.slot, a.setup, params);
    }
    assert(keys_of(p) == keys_of(q));
    law_claims_agree(a.claims, b.claims, keys_of(p), params.game_id);
    assert(p =~= q);
}

/// Two copies of a game that merge each other are the same, in full: on who is
/// seated, even where the creator seated two, on what was played, attested and
/// claimed, and on the certificates put forward. Left out are claims by one who
/// lost the seat, and certificates that no longer tell the game as it is.
pub proof fn law_copies_agree_in_full(a: GameView, b: GameView, params: ChessGameParametersV1)
    requires
        in_order(a, params),
        in_order(b, params),
        copies_told_apart(a, b),
        still_right(a, b, params),
    ensures
        game_merged(a, b, params) == (
            game_pruned(all_held(a, b, params), params),
            None::<Seq<char>>,
        ),
        game_merged(b, a, params) == game_merged(a, b, params),
{
    lemma_all_held_alike(a, b, params);
    lemma_told_apart_turned(a, b);
    lemma_merging_leaves_all(a, b, params);
    lemma_merging_leaves_all(b, a, params);
}

/// Where the outcome is the same in two copies and in what they make, their
/// claims and their certificates stay right.
pub proof fn law_one_outcome_stays_right(a: GameView, b: GameView, params: ChessGameParametersV1)
    requires
        in_order(a, params),
        in_order(b, params),
        outcome_of(a) == outcome_of(all_held(a, b, params)),
        outcome_of(b) == outcome_of(all_held(a, b, params)),
    ensures
        still_right(a, b, params),
{
    lemma_valid_claims_sound(a.claims, keys_of(a), params.game_id);
    lemma_valid_claims_sound(b.claims, keys_of(b), params.game_id);
}

/// Where nothing was claimed and no certificate was put forward, nothing can
/// turn wrong, whoever is seated in either copy.
pub proof fn law_unclaimed_copies_stay_right(
    a: GameView,
    b: GameView,
    params: ChessGameParametersV1,
)
    requires
        a.claims.len() == 0 && b.claims.len() == 0,
        a.proposals =~= Map::<[u8; 32], Proposed>::empty(),
        b.proposals =~= Map::<[u8; 32], Proposed>::empty(),
    ensures
        still_right(a, b, params),
{
    lemma_listed(a.proposals);
    lemma_listed(b.proposals);
    if listing(a.proposals).len() > 0 {
        lemma_listing_entry(a.proposals, 0);
    }
    if listing(b.proposals).len() > 0 {
        lemma_listing_entry(b.proposals, 0);
    }
}

/// A copy that waits is in order.
proof fn lemma_waiting_in_order(b: GameView, params: ChessGameParametersV1)
    requires
        waiting(b, params),
    ensures
        in_order(b, params),
        b.claims == Seq::<SignedConclusion>::empty(),
        b.moves == Map::<u32, AuthorizedMove>::empty(),
        b.clocks == Map::<PlayerId, ClockAttestation>::empty(),
        b.proposals == Map::<[u8; 32], Proposed>::empty(),
{
    lemma_waiting_is_bare(b, params);
}

/// All that a copy that waits and one that has started hold is what the second
/// holds, offers apart.
proof fn lemma_held_by_one(a: GameView, b: GameView, params: ChessGameParametersV1)
    requires
        whole(a, params),
        a.setup == b.setup,
        b.slot.seated is None,
        b.claims == Seq::<SignedConclusion>::empty(),
        b.moves == Map::<u32, AuthorizedMove>::empty(),
        b.clocks == Map::<PlayerId, ClockAttestation>::empty(),
        b.proposals == Map::<[u8; 32], Proposed>::empty(),
    ensures
        all_held(b, a, params) == (GameView { slot: slots_joined(b.slot, a.slot), ..a }),
        slots_joined(b.slot, a.slot).seated == a.slot.seated,
{
    let all = all_held(b, a, params);
    let keys = keys_of(a);
    assert(keys_of(seated_by(b, a)) == keys);
    lemma_valid_claims_sound(a.claims, keys, params.game_id);
    law_claims_agree(b.claims, a.claims, keys, params.game_id);
    lemma_nothing_untold(sigs_of(a.claims));
    assert(all.moves =~= a.moves);
    assert(all.clocks =~= a.clocks);
    assert(all.proposals =~= a.proposals);
    assert(all =~= GameView { slot: slots_joined(b.slot, a.slot), ..a });
}

/// Once a copy knows who plays, one that waits comes to hold all that it holds,
/// certificates and all, and it learns nothing itself.
pub proof fn law_seating_spreads_in_full(a: GameView, b: GameView, params: ChessGameParametersV1)
    requires
        in_order(a, params),
        whole(a, params),
        waiting(b, params),
        a.setup == b.setup,
        slots_told_apart(a.slot, b.slot),
    ensures
        game_merged(a, b, params) == (a, None::<Seq<char>>),
        game_merged(b, a, params) == (a, None::<Seq<char>>),
{
    law_seating_spreads(a, b, params);
    lemma_waiting_in_order(b, params);
    lemma_held_by_one(a, b, params);
    let all = all_held(b, a, params);
    assert(copies_told_apart(b, a)) by {
        lemma_maps_turned::<[u8; 32], SignedJoin>(a.slot.offers, b.slot.offers, offer_over());
    }
    assert(keys_of(all) == keys_of(a));
    assert(still_right(b, a, params)) by {
        lemma_valid_claims_sound(a.claims, keys_of(a), params.game_id);
        lemma_outcome_hangs_on(all, a);
        lemma_no_proposals_are_right(b, all, params);
    }
    lemma_merging_leaves_all(b, a, params);
    lemma_pruned_alike(all, a, params);
}

/// Two records that differ in the offers alone are pruned alike once somebody
/// is seated.
proof fn lemma_pruned_alike(g: GameView, h: GameView, params: ChessGameParametersV1)
    requires
        g == (GameView { slot: g.slot, ..h }),
        g.slot.seated == h.slot.seated,
        h.slot.seated is Some,
    ensures
        game_pruned(g, params) == game_pruned(h, params),
{
    assert(slot_pruned(g.slot) =~= slot_pruned(h.slot));
    assert(keys_of(g) == keys_of(h));
}

proof fn lemma_nothing_untold(told: Seq<Seq<u8>>)
    ensures
        untold_claims(Seq::<SignedConclusion>::empty(), told) == Seq::<SignedConclusion>::empty(),
{
}

/// No proposals are all right.
proof fn lemma_no_proposals_are_right(
    b: GameView,
    g: GameView,
    params: ChessGameParametersV1,
)
    requires
        b.proposals =~= Map::<[u8; 32], Proposed>::empty(),
    ensures
        proposals_fault(b.proposals, outcome_of(g), params.game_id) is None,
{
    lemma_listed(b.proposals);
    if listing(b.proposals).len() > 0 {
        lemma_listing_entry(b.proposals, 0);
    }
}

/// Proposals of two copies pass together where each does.
proof fn lemma_proposals_pass_together(
    a: Map<[u8; 32], Proposed>,
    b: Map<[u8; 32], Proposed>,
    o: Outcome,
    game_id: GameId,
)
    requires
        a.dom().finite() && b.dom().finite(),
        proposals_fault(a, o, game_id) is None,
        proposals_fault(b, o, game_id) is None,
    ensures
        proposals_fault(join(a, b, proposal_over()), o, game_id) is None,
        join(a, b, proposal_over()).dom().finite(),
        forall|k: [u8; 32]| #[trigger]
            join(a, b, proposal_over()).contains_key(k) ==> proposal_fault(
                join(a, b, proposal_over())[k],
                o,
                game_id,
            ) is None,
{
    let j = join(a, b, proposal_over());
    assert(j.dom() =~= a.dom().union(b.dom()));
    lemma_no_fault(proposal_faults(a, o, game_id), listing(a).len());
    lemma_no_fault(proposal_faults(b, o, game_id), listing(b).len());
    let faults = proposal_faults(j, o, game_id);
    assert forall|k: [u8; 32]| #[trigger] j.contains_key(k) implies proposal_fault(
        j[k],
        o,
        game_id,
    ) is None by {
        if a.contains_key(k) && j[k] == a[k] {
            let i = lemma_listing_place(a, k);
            assert(proposal_faults(a, o, game_id)(i) is None);
        } else {
            let i = lemma_listing_place(b, k);
            assert(proposal_faults(b, o, game_id)(i) is None);
        }
    }
    assert forall|i: int| 0 <= i < listing(j).len() implies (#[trigger] faults(i)) is None by {
        lemma_listing_entry(j, i);
    }
    lemma_no_fault(faults, listing(j).len());
}

/// Where the seat is the same, all that two copies hold is the two as one, and
/// their proposals.
proof fn lemma_all_held_of_kin(a: GameView, b: GameView, params: ChessGameParametersV1)
    requires
        whole(a, params),
        whole(b, params),
        kin(a, b),
    ensures
        all_held(a, b, params) == (GameView {
            proposals: join(a.proposals, b.proposals, proposal_over()),
            ..copies_joined(a, b, params)
        }),
        but_proposals(all_held(a, b, params)) == copies_joined(
            but_proposals(a),
            but_proposals(b),
            params,
        ),
{
    assert(slot_pruned(a.slot) == a.slot);
    assert(slot_pruned(b.slot) == b.slot);
    assert(slots_joined(a.slot, b.slot) =~= a.slot);
    assert(seated_by(a, b) =~= a);
    assert(keys_of(but_proposals(a)) == keys_of(a));
    let all = all_held(a, b, params);
    assert(all =~= GameView {
        proposals: join(a.proposals, b.proposals, proposal_over()),
        ..copies_joined(a, b, params)
    });
    assert(but_proposals(all) =~= copies_joined(but_proposals(a), but_proposals(b), params));
}

/// There is nothing to prune in the proposals of two copies whose proposals are
/// right.
proof fn lemma_right_proposals_stay(a: GameView, b: GameView, params: ChessGameParametersV1)
    requires
        in_order(a, params),
        in_order(b, params),
        keys_of(a) == keys_of(b),
        keys_of(a) is Some,
        still_right(a, b, params),
        keys_of(all_held(a, b, params)) == keys_of(a),
    ensures
        proposals_pruned(
            all_held(a, b, params).proposals,
            keys_of(a),
            over(result_of(all_held(a, b, params))),
        ) == all_held(a, b, params).proposals,
{
    let all = all_held(a, b, params);
    let keys = keys_of(a);
    let o = outcome_of(all);
    lemma_proposals_pass_together(a.proposals, b.proposals, o, params.game_id);
    let kept = proposals_pruned(all.proposals, keys, over(result_of(all)));
    assert forall|k: [u8; 32]| #[trigger] all.proposals.contains_key(k) implies kept.contains_key(
        k,
    ) by {
        assert(proposal_fault(all.proposals[k], o, params.game_id) is None);
        if a.proposals.contains_key(k) {
            assert(game_pruned(a, params).proposals.contains_key(k));
        } else {
            assert(game_pruned(b, params).proposals.contains_key(k));
        }
        assert(by_players(keys->0)(k, all.proposals[k]));
    }
    assert(kept =~= all.proposals);
}

/// All that two copies hold is in order, where their moves stand together and
/// their proposals are right.
proof fn lemma_all_held_in_order(a: GameView, b: GameView, params: ChessGameParametersV1)
    requires
        in_order(a, params),
        in_order(b, params),
        whole(a, params),
        whole(b, params),
        kin(a, b),
        still_right(a, b, params),
        whole(but_proposals(all_held(a, b, params)), params),
    ensures
        game_pruned(all_held(a, b, params), params) == all_held(a, b, params),
        in_order(all_held(a, b, params), params),
        whole(all_held(a, b, params), params),
{
    let x = all_held(a, b, params);
    let x0 = but_proposals(x);
    lemma_all_held_of_kin(a, b, params);
    assert(keys_of(x) == keys_of(a) && keys_of(b) == keys_of(a) && keys_of(x0) == keys_of(a));
    lemma_right_proposals_stay(a, b, params);
    lemma_proposals_pass_together(
        a.proposals,
        b.proposals,
        outcome_of(x),
        params.game_id,
    );
    lemma_proposals_decide_nothing(x, params);
    let p = game_pruned(x, params);
    assert(but_proposals(p) == x0);
    assert(p.slot == x.slot && p.moves == x.moves && p.clocks == x.clocks && p.claims == x.claims
        && p.setup == x.setup) by {
        assert(but_proposals(p).slot == x0.slot);
        assert(but_proposals(p).moves == x0.moves);
        assert(but_proposals(p).clocks == x0.clocks);
        assert(but_proposals(p).claims == x0.claims);
        assert(but_proposals(p).setup == x0.setup);
    }
    let g1 = GameView {
        slot: slot_pruned(x.slot),
        moves: moves_pruned(x.moves, params.game_id, keys_of(x)),
        clocks: clocks_pruned(x.clocks, keys_of(x)),
        ..x
    };
    lemma_outcome_hangs_on(g1, x);
    assert(p.proposals == x.proposals);
    assert(p =~= x);
    assert(filed(x.proposals, proposal_key())) by {
        assert forall|k: [u8; 32]| #[trigger] x.proposals.contains_key(k) implies proposal_key()(
            x.proposals[k],
        ) == k by {
            assert(a.proposals.contains_key(k) || b.proposals.contains_key(k));
        }
    }
    lemma_outcome_hangs_on(x, x0);
    assert(game_fault(x, x, params) is None);
}

/// Whether the certificates of three copies tell the game as it is where all
/// three meet.
pub open spec fn certificates_right(
    a: GameView,
    b: GameView,
    c: GameView,
    params: ChessGameParametersV1,
) -> bool {
    let o = outcome_of(all_held(all_held(a, b, params), c, params));
    &&& proposals_fault(a.proposals, o, params.game_id) is None
    &&& proposals_fault(b.proposals, o, params.game_id) is None
    &&& proposals_fault(c.proposals, o, params.game_id) is None
}

/// Where the outcome is the same in three copies and where all three meet, their
/// certificates tell the game as it is there.
pub proof fn law_one_outcome_is_right_in_three(
    a: GameView,
    b: GameView,
    c: GameView,
    params: ChessGameParametersV1,
)
    requires
        in_order(a, params) && in_order(b, params) && in_order(c, params),
        ({
            let o = outcome_of(all_held(all_held(a, b, params), c, params));
            outcome_of(a) == o && outcome_of(b) == o && outcome_of(c) == o
        }),
    ensures
        certificates_right(a, b, c, params),
{
}

/// What two copies hold can be told apart from what both can.
proof fn lemma_all_held_told_apart(
    a: GameView,
    b: GameView,
    c: GameView,
    params: ChessGameParametersV1,
)
    requires
        whole(a, params),
        whole(b, params),
        kin(a, b),
        copies_told_apart(a, c),
        copies_told_apart(b, c),
        kin(but_proposals(all_held(a, b, params)), but_proposals(c)),
    ensures
        copies_told_apart(all_held(a, b, params), c),
        copies_told_apart(c, all_held(a, b, params)),
        kin(all_held(a, b, params), c),
{
    let x = all_held(a, b, params);
    lemma_all_held_of_kin(a, b, params);
    assert forall|k: [u8; 32]|
        #![trigger x.proposals.contains_key(k), c.proposals.contains_key(k)]
        x.proposals.contains_key(k) && c.proposals.contains_key(k) implies apart(
        proposal_over(),
        x.proposals[k],
        c.proposals[k],
    ) && (SignedCertificateProposal::mark_of(x.proposals[k])
        == SignedCertificateProposal::mark_of(c.proposals[k]) ==> x.proposals[k]
        == c.proposals[k]) by {
        if a.proposals.contains_key(k) && x.proposals[k] == a.proposals[k] {
            assert(apart(proposal_over(), a.proposals[k], c.proposals[k]));
        } else {
            assert(apart(proposal_over(), b.proposals[k], c.proposals[k]));
        }
    }
    assert(x.slot == a.slot);
    lemma_told_apart_turned(x, c);
}

/// What three copies hold is the same, whichever two come first.
proof fn lemma_all_held_in_any_order(
    a: GameView,
    b: GameView,
    c: GameView,
    params: ChessGameParametersV1,
)
    requires
        whole(a, params) && whole(b, params) && whole(c, params),
        kin(a, b) && kin(b, c),
        whole(all_held(a, b, params), params),
        whole(all_held(b, c, params), params),
        kin(all_held(a, b, params), c),
        kin(a, all_held(b, c, params)),
        copies_joined(
            copies_joined(but_proposals(a), but_proposals(b), params),
            but_proposals(c),
            params,
        ) == copies_joined(
            but_proposals(a),
            copies_joined(but_proposals(b), but_proposals(c), params),
            params,
        ),
    ensures
        all_held(all_held(a, b, params), c, params) == all_held(a, all_held(b, c, params), params),
{
    let x = all_held(a, b, params);
    let y = all_held(b, c, params);
    lemma_all_held_of_kin(a, b, params);
    lemma_all_held_of_kin(b, c, params);
    lemma_all_held_of_kin(x, c, params);
    lemma_all_held_of_kin(a, y, params);
    lemma_proposals_ordered();
    law_joining_is_associative(a.proposals, b.proposals, c.proposals, proposal_over());
    let (p, q) = (all_held(x, c, params), all_held(a, y, params));
    assert(but_proposals(p) == but_proposals(q));
    assert(p =~= GameView { proposals: p.proposals, ..but_proposals(p) });
    assert(q =~= GameView { proposals: q.proposals, ..but_proposals(q) });
}

/// Three copies of a game hold the same in full once they have merged one
/// another, whichever two merge first, where the moves of the first two that
/// merge stand, and the certificates that were put forward tell the game as it
/// is.
pub proof fn law_merging_in_any_order_in_full(
    a: GameView,
    b: GameView,
    c: GameView,
    params: ChessGameParametersV1,
)
    requires
        in_order(a, params) && in_order(b, params) && in_order(c, params),
        whole(a, params) && whole(b, params) && whole(c, params),
        kin(a, b) && kin(b, c) && kin(a, c),
        copies_told_apart(a, b) && copies_told_apart(b, c) && copies_told_apart(a, c),
        lines_stand(a, b, params),
        lines_stand(b, c, params),
        still_right(a, b, params),
        still_right(b, c, params),
        certificates_right(a, b, c, params),
    ensures
        game_merged(a, b, params).1 is None,
        game_merged(game_merged(a, b, params).0, c, params).1 is None,
        game_merged(game_merged(a, b, params).0, c, params) == game_merged(
            a,
            game_merged(b, c, params).0,
            params,
        ),
        game_merged(game_merged(a, b, params).0, c, params).0 == game_pruned(
            all_held(all_held(a, b, params), c, params),
            params,
        ),
{
    let (p, q, r) = (but_proposals(a), but_proposals(b), but_proposals(c));
    let x = all_held(a, b, params);
    let y = all_held(b, c, params);
    lemma_whole_but_proposals(a, params);
    lemma_whole_but_proposals(b, params);
    lemma_whole_but_proposals(c, params);
    assert(kin(p, q) && kin(q, r) && kin(p, r));
    assert(keys_of(p) == keys_of(a) && keys_of(q) == keys_of(b));
    lemma_bare_copies_merge_in_any_order(p, q, r, params);
    lemma_all_held_of_kin(a, b, params);
    lemma_all_held_of_kin(b, c, params);
    lemma_all_held_in_order(a, b, params);
    lemma_all_held_in_order(b, c, params);
    lemma_all_held_told_apart(a, b, c, params);
    lemma_told_apart_turned(a, b);
    lemma_told_apart_turned(a, c);
    lemma_kin_turned(p, copies_joined(q, r, params));
    lemma_all_held_told_apart(b, c, a, params);
    lemma_kin_turned(y, a);
    lemma_all_held_in_any_order(a, b, c, params);
    lemma_merging_leaves_all(a, b, params);
    lemma_merging_leaves_all(b, c, params);
    assert(keys_of(all_held(x, c, params)) == keys_of(a)) by {
        lemma_all_held_of_kin(x, c, params);
    }
    lemma_in_order_is_sound(a, params);
    lemma_in_order_is_sound(b, params);
    lemma_in_order_is_sound(c, params);
    lemma_in_order_is_sound(x, params);
    lemma_in_order_is_sound(y, params);
    lemma_right_in_three(a, b, c, params);
    lemma_merging_leaves_all(x, c, params);
    lemma_merging_leaves_all(a, y, params);
}

/// The claims of a copy in order are sound.
proof fn lemma_in_order_is_sound(g: GameView, params: ChessGameParametersV1)
    requires
        in_order(g, params),
    ensures
        claims_sound(g.claims, keys_of(g), params.game_id),
        g.proposals.dom().finite(),
{
    lemma_valid_claims_sound(g.claims, keys_of(g), params.game_id);
}

/// Where three copies meet, what two of them made stays right.
proof fn lemma_right_in_three(
    a: GameView,
    b: GameView,
    c: GameView,
    params: ChessGameParametersV1,
)
    requires
        a.proposals.dom().finite() && b.proposals.dom().finite() && c.proposals.dom().finite(),
        claims_sound(a.claims, keys_of(a), params.game_id),
        claims_sound(c.claims, keys_of(a), params.game_id),
        claims_sound(all_held(a, b, params).claims, keys_of(a), params.game_id),
        claims_sound(all_held(b, c, params).claims, keys_of(a), params.game_id),
        keys_of(all_held(all_held(a, b, params), c, params)) == keys_of(a),
        all_held(all_held(a, b, params), c, params) == all_held(
            a,
            all_held(b, c, params),
            params,
        ),
        all_held(a, b, params).proposals == join(a.proposals, b.proposals, proposal_over()),
        all_held(b, c, params).proposals == join(b.proposals, c.proposals, proposal_over()),
        certificates_right(a, b, c, params),
    ensures
        still_right(all_held(a, b, params), c, params),
        still_right(a, all_held(b, c, params), params),
{
    let o = outcome_of(all_held(all_held(a, b, params), c, params));
    lemma_proposals_pass_together(a.proposals, b.proposals, o, params.game_id);
    lemma_proposals_pass_together(b.proposals, c.proposals, o, params.game_id);
}

/// A copy of a game that was merged already adds nothing, in full.
pub proof fn law_merging_again_in_full(a: GameView, b: GameView, params: ChessGameParametersV1)
    requires
        in_order(a, params) && in_order(b, params),
        whole(a, params) && whole(b, params),
        kin(a, b) && kin(b, b),
        copies_told_apart(a, b) && copies_told_apart(b, b),
        lines_stand(a, b, params),
        still_right(a, b, params),
        still_right(b, b, params),
        certificates_right(a, b, b, params),
    ensures
        game_merged(game_merged(a, b, params).0, b, params) == game_merged(a, b, params),
{
    assert(lines_stand(b, b, params)) by {
        assert(orders(move_over()));
        law_joining_twice_is_joining_once(b.moves, b.moves, move_over());
    }
    law_merging_in_any_order_in_full(a, b, b, params);
    assert(game_merged(b, b, params).0 == b) by {
        law_merging_a_like_copy_changes_nothing(b, params);
    }
}

} // verus!
