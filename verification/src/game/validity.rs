//! Why a valid game that takes in an update stays valid: whoever keeps a copy
//! checks the whole of it after every update, and drops the update where the
//! check fails.

use super::certification::{outcome_of, proposals_fault, Proposed};
use super::claims::{
    all_claims_apart, claims_sound, lemma_few_slots, lemma_sound_claims_come_in, well_ordered,
};
use super::clocks::{
    attestation_fault, clocks_after, clocks_fault, clocks_pruned, filed_faults, of_players,
    ClockAttestation,
};
use super::conclusion::{
    claim_fault, claims_after, claims_fault, held_claim_faults, SignedConclusion,
};
use super::convergence::{claims_in, lemma_valid_claims_sound, lemma_valid_clocks_sound};
use super::moves::{law_pruned_moves_pass, moves_after, AuthorizedMove};
use super::opponent::{
    offer_fault, offer_faults, offers_after, slot_after, slot_fault, slot_pruned, SignedJoin,
    SlotChange, SlotView, MAX_JOIN_OFFERS,
};
use super::replica::{
    game_after, game_fault, game_pruned, with_claims, with_clocks, with_moves, with_proposals,
    with_setup, with_slot, GameChange,
};
use super::setup::{place_fault, SignedGameSetup};
use super::{keys_of, ChessGameParametersV1, GameView};
use crate::crypto::VerifyingKey;
use crate::identity::{id_of, GameId, PlayerId};
use crate::sorted_map::{
    first_entries, lemma_first_entries, lemma_listed, lemma_listing_entry, lemma_listing_place,
    listing, Ranked,
};
use crate::text::{first_fault, lemma_no_fault};
use vstd::prelude::*;

verus! {

/// Whether every offer is sound.
pub open spec fn offers_sound(
    m: Map<[u8; 32], SignedJoin>,
    setup: Option<SignedGameSetup>,
    params: ChessGameParametersV1,
) -> bool {
    forall|k: [u8; 32]| #[trigger] m.contains_key(k) ==> offer_fault(m[k], setup, params) is None
}

pub proof fn lemma_offers_checked(
    m: Map<[u8; 32], SignedJoin>,
    setup: Option<SignedGameSetup>,
    params: ChessGameParametersV1,
)
    requires
        m.dom().finite(),
    ensures
        first_fault(offer_faults(m, setup, params), listing(m).len()) is None <==> offers_sound(
            m,
            setup,
            params,
        ),
{
    let faults = offer_faults(m, setup, params);
    lemma_no_fault(faults, listing(m).len());
    if first_fault(faults, listing(m).len()) is None {
        assert forall|k: [u8; 32]| #[trigger] m.contains_key(k) implies offer_fault(
            m[k],
            setup,
            params,
        ) is None by {
            let i = lemma_listing_place(m, k);
            assert(faults(i) is None);
        }
    }
    if offers_sound(m, setup, params) {
        assert forall|i: int| 0 <= i < listing(m).len() implies (#[trigger] faults(i)) is None by {
            lemma_listing_entry(m, i);
        }
    }
}

proof fn lemma_offers_stay_sound(
    m: Map<[u8; 32], SignedJoin>,
    incoming: Seq<SignedJoin>,
    setup: Option<SignedGameSetup>,
    params: ChessGameParametersV1,
)
    requires
        m.dom().finite(),
        offers_sound(m, setup, params),
    ensures
        offers_after(m, incoming, setup, params).0.dom().finite(),
        offers_sound(offers_after(m, incoming, setup, params).0, setup, params),
    decreases incoming.len(),
{
    if incoming.len() > 0 {
        lemma_offers_stay_sound(m, incoming.drop_last(), setup, params);
    }
}

/// What is cut is of what was there.
proof fn lemma_cut_is_part<K: Ranked, V>(m: Map<K, V>, n: int, k: K)
    requires
        m.dom().finite(),
        0 <= n,
        first_entries(m, n).contains_key(k),
    ensures
        m.contains_key(k),
        m[k] == first_entries(m, n)[k],
{
    if listing(m).len() > n {
        lemma_first_entries(m, n);
        let cut = first_entries(m, n);
        let i = lemma_listing_place(cut, k);
        assert(listing(cut)[i] == listing(m)[i]);
        lemma_listing_entry(m, i);
    }
}

/// A seat's record with which nothing is wrong takes in an update and is pruned,
/// and nothing is wrong with it.
proof fn lemma_slot_stays_valid(
    s: SlotView,
    d: SlotChange,
    setup: Option<SignedGameSetup>,
    params: ChessGameParametersV1,
)
    requires
        s.offers.dom().finite(),
        slot_fault(s, setup, params) is None,
        slot_after(s, d, setup, params).1 is None,
    ensures
        slot_after(s, d, setup, params).0.offers.dom().finite(),
        slot_fault(slot_after(s, d, setup, params).0, setup, params) is None,
{
    lemma_offers_checked(s.offers, setup, params);
    lemma_offers_stay_sound(s.offers, d.offers, setup, params);
    lemma_offers_checked(offers_after(s.offers, d.offers, setup, params).0, setup, params);
}

proof fn lemma_pruned_slot_valid(
    s: SlotView,
    setup: Option<SignedGameSetup>,
    params: ChessGameParametersV1,
)
    requires
        s.offers.dom().finite(),
        slot_fault(s, setup, params) is None,
    ensures
        slot_fault(slot_pruned(s), setup, params) is None,
{
    let left = slot_pruned(s).offers;
    lemma_offers_checked(s.offers, setup, params);
    lemma_first_entries(s.offers, MAX_JOIN_OFFERS as int);
    assert(left.dom().finite());
    assert forall|k: [u8; 32]| #[trigger] left.contains_key(k) implies offer_fault(
        left[k],
        setup,
        params,
    ) is None by {
        lemma_cut_is_part(s.offers, MAX_JOIN_OFFERS as int, k);
    }
    lemma_offers_checked(left, setup, params);
}

/// Moves that come in are finitely many.
proof fn lemma_moves_stay_finite(
    m: Map<u32, AuthorizedMove>,
    incoming: Seq<AuthorizedMove>,
    game_id: GameId,
)
    requires
        m.dom().finite(),
    ensures
        moves_after(m, incoming, game_id).0.dom().finite(),
    decreases incoming.len(),
{
    if incoming.len() > 0 {
        lemma_moves_stay_finite(m, incoming.drop_last(), game_id);
    }
}

/// Whether every attestation is signed, and filed under its player.
pub open spec fn clocks_sound(m: Map<PlayerId, ClockAttestation>, game_id: GameId) -> bool {
    forall|k: PlayerId|
        #[trigger] m.contains_key(k) ==> k == id_of(m[k].player) && attestation_fault(
            m[k],
            game_id,
        ) is None
}

proof fn lemma_clocks_stay_sound(
    m: Map<PlayerId, ClockAttestation>,
    incoming: Seq<ClockAttestation>,
    game_id: GameId,
)
    requires
        m.dom().finite(),
        clocks_sound(m, game_id),
    ensures
        clocks_after(m, incoming, game_id).0.dom().finite(),
        clocks_sound(clocks_after(m, incoming, game_id).0, game_id),
    decreases incoming.len(),
{
    if incoming.len() > 0 {
        lemma_clocks_stay_sound(m, incoming.drop_last(), game_id);
    }
}

/// Whether handles tell the players of a game: whoever attests under a player's
/// handle is that player.
pub open spec fn handles_tell(
    m: Map<PlayerId, ClockAttestation>,
    keys: (VerifyingKey, VerifyingKey),
) -> bool {
    forall|k: PlayerId| #[trigger]
        m.contains_key(k) ==> (id_of(m[k].player) == id_of(keys.0) ==> m[k].player == keys.0) && (
        id_of(m[k].player) == id_of(keys.1) ==> m[k].player == keys.1)
}

/// What is left of sound attestations once they are pruned passes the check.
pub proof fn law_pruned_clocks_pass(
    m: Map<PlayerId, ClockAttestation>,
    game_id: GameId,
    keys: Option<(VerifyingKey, VerifyingKey)>,
)
    requires
        m.dom().finite(),
        clocks_sound(m, game_id),
        keys matches Some(ks) ==> handles_tell(m, ks),
    ensures
        clocks_fault(clocks_pruned(m, keys), game_id, keys) is None,
{
    let left = clocks_pruned(m, keys);
    assert(left.dom().subset_of(m.dom()));
    vstd::set_lib::lemma_len_subset(left.dom(), m.dom());
    match keys {
        Some(ks) => {
            let faults = filed_faults(left, game_id, ks);
            assert forall|i: int| 0 <= i < listing(left).len() implies (#[trigger] faults(
                i,
            )) is None by {
                lemma_listing_entry(left, i);
                let k = listing(left)[i].0;
                assert(m.contains_key(k) && of_players(ks)(k, m[k]));
            }
            lemma_no_fault(faults, listing(left).len());
        },
        None => {
            if listing(left).len() > 0 {
                lemma_listing_entry(left, 0);
            }
        },
    }
}

/// Claims that all came in are sound.
proof fn lemma_claims_that_came_in(
    claims: Seq<SignedConclusion>,
    cs: Seq<SignedConclusion>,
    keys: Option<(VerifyingKey, VerifyingKey)>,
    game_id: GameId,
)
    requires
        claims_after(claims, cs, keys, game_id).1 is None,
    ensures
        claims_sound(cs, keys, game_id),
    decreases cs.len(),
{
    if cs.len() > 0 {
        let front = cs.drop_last();
        lemma_claims_that_came_in(claims, front, keys, game_id);
        assert forall|i: int| 0 <= i < cs.len() implies claim_fault(
            #[trigger] cs[i],
            keys,
            game_id,
        ) is None by {
            if i < front.len() {
                assert(front[i] == cs[i]);
            }
        }
    }
}

/// Sound claims, one for each slot and in order, pass the check.
pub proof fn law_ordered_claims_pass(
    claims: Seq<SignedConclusion>,
    keys: Option<(VerifyingKey, VerifyingKey)>,
    game_id: GameId,
)
    requires
        well_ordered(claims),
        claims_sound(claims, keys, game_id),
    ensures
        claims_fault(claims, keys, game_id) is None,
{
    match keys {
        Some(ks) => lemma_few_slots(claims, ks, game_id),
        None => {
            if claims.len() > 0 {
                assert(claim_fault(claims[0], keys, game_id) is None);
            }
        },
    }
    let faults = held_claim_faults(claims, keys, game_id);
    assert forall|i: int| 0 <= i < claims.len() implies (#[trigger] faults(i)) is None by {
        assert(claim_fault(claims[i], keys, game_id) is None);
    }
    lemma_no_fault(faults, claims.len());
}

proof fn lemma_claims_stay_valid(
    claims: Seq<SignedConclusion>,
    cs: Seq<SignedConclusion>,
    keys: Option<(VerifyingKey, VerifyingKey)>,
    game_id: GameId,
)
    requires
        well_ordered(claims),
        claims_sound(claims, keys, game_id),
        claims_after(claims, cs, keys, game_id).1 is None,
        all_claims_apart(claims, cs),
        all_claims_apart(cs, cs),
    ensures
        claims_fault(claims_after(claims, cs, keys, game_id).0, keys, game_id) is None,
        well_ordered(claims_after(claims, cs, keys, game_id).0),
{
    lemma_claims_that_came_in(claims, cs, keys, game_id);
    lemma_sound_claims_come_in(claims, cs, keys, game_id);
    let all = claims_after(claims, cs, keys, game_id).0;
    assert forall|i: int| 0 <= i < all.len() implies claim_fault(
        #[trigger] all[i],
        keys,
        game_id,
    ) is None by {
        assert(all.contains(all[i]));
        if claims.contains(all[i]) {
            let j = choose|j: int| 0 <= j < claims.len() && claims[j] == all[i];
            assert(claim_fault(claims[j], keys, game_id) is None);
        } else {
            let j = choose|j: int| 0 <= j < cs.len() && cs[j] == all[i];
            assert(claim_fault(cs[j], keys, game_id) is None);
        }
    }
    law_ordered_claims_pass(all, keys, game_id);
}

/// A game that is pruned is valid, where its parts are sound.
proof fn lemma_pruned_game_valid(g: GameView, params: ChessGameParametersV1)
    requires
        g.slot.offers.dom().finite(),
        g.moves.dom().finite(),
        g.clocks.dom().finite(),
        place_fault(g.setup, params) is None,
        slot_fault(g.slot, g.setup, params) is None,
        clocks_sound(g.clocks, params.game_id),
        keys_of(g) matches Some(ks) ==> handles_tell(g.clocks, ks),
        claims_fault(g.claims, keys_of(g), params.game_id) is None,
        proposals_stand(game_pruned(g, params), params),
    ensures
        game_fault(game_pruned(g, params), game_pruned(g, params), params) is None,
{
    let keys = keys_of(g);
    assert(keys_of(game_pruned(g, params)) == keys);
    lemma_pruned_slot_valid(g.slot, g.setup, params);
    law_pruned_moves_pass(g.moves, params.game_id, keys);
    law_pruned_clocks_pass(g.clocks, params.game_id, keys);
}

/// Whether every certificate that was put forward tells the game as it is.
pub open spec fn proposals_stand(g: GameView, params: ChessGameParametersV1) -> bool {
    proposals_fault(g.proposals, outcome_of(g), params.game_id) is None
}

/// A game for which no certificate was put forward has none that is wrong.
pub proof fn law_no_proposals_stand(g: GameView, params: ChessGameParametersV1)
    requires
        g.proposals =~= Map::<[u8; 32], Proposed>::empty(),
    ensures
        proposals_stand(g, params),
{
    lemma_listed(g.proposals);
    if listing(g.proposals).len() > 0 {
        lemma_listing_entry(g.proposals, 0);
    }
}

/// While the seat stays with who took it, a valid game's claims stay its
/// players'.
pub proof fn law_claims_stay_their_claimants(
    claims: Seq<SignedConclusion>,
    before: Option<(VerifyingKey, VerifyingKey)>,
    now: Option<(VerifyingKey, VerifyingKey)>,
    game_id: GameId,
)
    requires
        claims_fault(claims, before, game_id) is None,
        before is Some ==> now == before,
    ensures
        claims_sound(claims, now, game_id),
{
    lemma_valid_claims_sound(claims, before, game_id);
    assert forall|i: int| 0 <= i < claims.len() implies claim_fault(
        #[trigger] claims[i],
        now,
        game_id,
    ) is None by {
        assert(claim_fault(claims[i], before, game_id) is None);
    }
}

/// A valid game that takes in an update stays valid, as long as the offers it
/// held are for the terms that it has now, the claims are by those who play it
/// now, and the certificates put forward tell it as it is now. Where two claims
/// share time and signature they must be one, and a handle must tell who
/// attests.
pub proof fn law_updates_keep_games_valid(
    g: GameView,
    d: GameChange,
    params: ChessGameParametersV1,
)
    requires
        g.slot.offers.dom().finite(),
        g.moves.dom().finite(),
        g.clocks.dom().finite(),
        well_ordered(g.claims),
        game_fault(g, g, params) is None,
        slot_fault(g.slot, game_after(g, d, params).0.setup, params) is None,
        all_claims_apart(g.claims, claims_in(d)),
        all_claims_apart(claims_in(d), claims_in(d)),
        game_after(g, d, params).1 is None,
        claims_sound(g.claims, keys_of(game_after(g, d, params).0), params.game_id),
        proposals_stand(game_after(g, d, params).0, params),
        keys_of(game_after(g, d, params).0) matches Some(ks) ==> handles_tell(
            with_clocks(g, d, params).0.clocks,
            ks,
        ),
    ensures
        game_fault(game_after(g, d, params).0, game_after(g, d, params).0, params) is None,
        well_ordered(game_after(g, d, params).0.claims),
{
    let id = params.game_id;
    let g1 = with_setup(g, d, params).0;
    assert(g1.setup == game_after(g, d, params).0.setup);
    let g2 = with_slot(g1, d, params).0;
    match d.slot {
        Some(c) => lemma_slot_stays_valid(g.slot, c, g1.setup, params),
        None => {},
    }
    let g3 = with_moves(g2, d, params).0;
    match d.moves {
        Some(ms) => lemma_moves_stay_finite(g.moves, ms, id),
        None => {},
    }
    let g4 = with_clocks(g3, d, params).0;
    lemma_valid_clocks_sound(g.clocks, id, keys_of(g));
    assert(clocks_sound(g.clocks, id));
    match d.clocks {
        Some(cs) => lemma_clocks_stay_sound(g.clocks, cs, id),
        None => {},
    }
    let g5 = with_claims(g4, d, params).0;
    let g6 = with_proposals(g5, d, params);
    assert(game_after(g, d, params).0 == game_pruned(g6, params));
    assert(keys_of(g4) == keys_of(g6));
    assert(keys_of(game_pruned(g6, params)) == keys_of(g6));
    match d.claims {
        Some(cs) => {
            assert(claims_in(d) == cs);
            lemma_claims_stay_valid(g.claims, cs, keys_of(g4), id);
        },
        None => law_ordered_claims_pass(g.claims, keys_of(g4), id),
    }
    lemma_pruned_game_valid(g6, params);
}

} // verus!
