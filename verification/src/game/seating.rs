//! Why copies of a game agree on who plays it.

use super::certification::Proposed;
use super::claims::law_claims_agree;
use super::clocks::{attestation_fault, ClockAttestation};
use super::conclusion::{held_claim_faults, sigs_of, untold_claims, SignedConclusion};
use super::convergence::{
    but_proposals, claims_in, clock_key, clock_over, clocks_in, lemma_nothing_missing,
    lemma_sound_attestations_come_in, lemma_sound_moves_come_in, lemma_standing_moves_sound,
    lemma_valid_claims_sound, lemma_valid_clocks_sound, move_key, move_over, moves_in, whole,
};
use super::moves::{kept_len, moves_pruned, signed_move_fault, AuthorizedMove};
use super::opponent::{
    absorb_decline, absorb_seat, offer_fault, offers_after, slot_after, slot_change, slot_fault,
    slot_pruned, slot_told, slot_untold, SignedJoin, SlotView,
};
use super::replica::{
    game_after, game_fault, game_merged, game_pruned, game_told, game_untold, no_change,
    with_claims, with_clocks, with_moves, with_proposals, GameChange,
};
use super::setup::SignedGameSetup;
use super::validity::lemma_offers_checked;
use super::{keys_of, sig_rank, ChessGameParametersV1, GameView};
use crate::identity::{digest_of, PlayerId};
use crate::join::{
    all_apart, filed, join, law_joining_commutes, law_syncing_joins, marks_tell, orders, taken,
};
use crate::sorted_map::listing;
use crate::sync::missing;
use crate::text::lemma_no_fault;
use vstd::prelude::*;

verus! {

pub open spec fn offer_key() -> spec_fn(SignedJoin) -> [u8; 32] {
    |j: SignedJoin| j.player.0
}

pub open spec fn offer_over() -> spec_fn(SignedJoin, SignedJoin) -> bool {
    |a: SignedJoin, b: SignedJoin| sig_rank(a.signature) < sig_rank(b.signature)
}

/// Two records of a seat as one.
pub open spec fn slots_joined(s: SlotView, t: SlotView) -> SlotView {
    SlotView {
        offers: join(s.offers, t.offers, offer_over()),
        seated: match t.seated {
            Some(a) => absorb_seat(s.seated, a),
            None => s.seated,
        },
        declined: match t.declined {
            Some(d) => absorb_decline(s.declined, d),
            None => s.declined,
        },
    }
}

/// Whether two records of a seat can be told apart: offers are filed under
/// their players, and what bears one signature, or one mark, is one thing.
pub open spec fn slots_told_apart(s: SlotView, t: SlotView) -> bool {
    &&& s.offers.dom().finite() && t.offers.dom().finite()
    &&& filed(s.offers, offer_key()) && filed(t.offers, offer_key())
    &&& marks_tell::<[u8; 32], SignedJoin>(s.offers, t.offers)
    &&& all_apart(offer_over(), s.offers, t.offers)
    &&& (s.seated is Some && t.seated is Some && (digest_of(s.seated->0.signature) == digest_of(
        t.seated->0.signature,
    ) || sig_rank(s.seated->0.signature) == sig_rank(t.seated->0.signature)) ==> s.seated
        == t.seated)
    &&& (s.declined is Some && t.declined is Some && (digest_of(s.declined->0.signature)
        == digest_of(t.declined->0.signature) || sig_rank(s.declined->0.signature) == sig_rank(
        t.declined->0.signature,
    )) ==> s.declined == t.declined)
}

/// A record of a seat once another has sent what it was not told.
pub open spec fn slot_synced(
    s: SlotView,
    t: SlotView,
    setup: Option<SignedGameSetup>,
    params: ChessGameParametersV1,
) -> (SlotView, Option<Seq<char>>) {
    match slot_change(t, slot_told(s)) {
        Some(d) => slot_after(s, d, setup, params),
        None => (s, None),
    }
}

/// Sound offers all come in.
proof fn lemma_sound_offers_come_in(
    m: Map<[u8; 32], SignedJoin>,
    js: Seq<SignedJoin>,
    setup: Option<SignedGameSetup>,
    params: ChessGameParametersV1,
)
    requires
        forall|i: int| 0 <= i < js.len() ==> offer_fault(#[trigger] js[i], setup, params) is None,
    ensures
        offers_after(m, js, setup, params) == (
            taken(m, js, offer_key(), offer_over()),
            None::<Seq<char>>,
        ),
    decreases js.len(),
{
    if js.len() > 0 {
        let front = js.drop_last();
        assert forall|i: int| 0 <= i < front.len() implies offer_fault(
            #[trigger] front[i],
            setup,
            params,
        ) is None by {
            assert(front[i] == js[i]);
        }
        lemma_sound_offers_come_in(m, front, setup, params);
        assert(offer_fault(js[js.len() - 1], setup, params) is None);
    }
}

/// Taking in what was not told joins two records of a seat.
pub proof fn lemma_slots_sync(
    s: SlotView,
    t: SlotView,
    setup: Option<SignedGameSetup>,
    params: ChessGameParametersV1,
)
    requires
        slot_fault(t, setup, params) is None,
        slots_told_apart(s, t),
    ensures
        slot_synced(s, t, setup, params) == (slots_joined(s, t), None::<Seq<char>>),
        slot_after(s, slot_untold(t, slot_told(s)), setup, params) == (
            slots_joined(s, t),
            None::<Seq<char>>,
        ),
{
    let d = slot_untold(t, slot_told(s));
    lemma_offers_checked(t.offers, setup, params);
    assert(orders(offer_over()));
    law_syncing_joins::<[u8; 32], SignedJoin>(s.offers, t.offers, offer_key(), offer_over());
    assert forall|i: int| 0 <= i < d.offers.len() implies offer_fault(
        #[trigger] d.offers[i],
        setup,
        params,
    ) is None by {
        let k = choose|k: [u8; 32]| t.offers.contains_key(k) && t.offers[k] == d.offers[i];
    }
    lemma_sound_offers_come_in(s.offers, d.offers, setup, params);
    assert(slot_after(s, d, setup, params).0 =~= slots_joined(s, t));
    if slot_change(t, slot_told(s)) is None {
        assert(d.offers.len() == 0);
        assert(slots_joined(s, t) =~= s);
    }
}

/// Two records of a seat that take in each other's are the same, whoever was
/// seated and whoever was not.
pub proof fn law_seats_agree(
    s: SlotView,
    t: SlotView,
    setup: Option<SignedGameSetup>,
    params: ChessGameParametersV1,
)
    requires
        slot_fault(s, setup, params) is None,
        slot_fault(t, setup, params) is None,
        slots_told_apart(s, t),
    ensures
        slot_synced(s, t, setup, params) == (slots_joined(s, t), None::<Seq<char>>),
        slot_synced(t, s, setup, params) == slot_synced(s, t, setup, params),
{
    assert(slots_told_apart(t, s));
    lemma_slots_sync(s, t, setup, params);
    lemma_slots_sync(t, s, setup, params);
    assert(orders(offer_over()));
    law_joining_commutes(s.offers, t.offers, offer_over());
    assert(slots_joined(s, t) =~= slots_joined(t, s));
}

/// Whether a copy of a game that waits for an opponent is in order: nothing is
/// wrong with it, and there is nothing in it to prune.
pub open spec fn waiting(g: GameView, params: ChessGameParametersV1) -> bool {
    &&& g.setup is Some
    &&& g.slot.seated is None
    &&& g.moves.dom().finite()
    &&& g.clocks.dom().finite()
    &&& game_fault(g, g, params) is None
    &&& game_pruned(g, params) == g
}

/// In a game that waits nothing has been played.
pub proof fn lemma_waiting_is_bare(g: GameView, params: ChessGameParametersV1)
    requires
        waiting(g, params),
    ensures
        keys_of(g) is None,
        g.moves == Map::<u32, AuthorizedMove>::empty(),
        g.clocks == Map::<PlayerId, ClockAttestation>::empty(),
        g.claims == Seq::<SignedConclusion>::empty(),
        g.proposals == Map::<[u8; 32], Proposed>::empty(),
        slot_pruned(g.slot) == g.slot,
        slot_fault(g.slot, g.setup, params) is None,
{
    let keys = keys_of(g);
    assert(kept_len(g.moves, params.game_id, keys) == 0);
    assert(moves_pruned(g.moves, params.game_id, keys) =~= Map::<u32, AuthorizedMove>::empty());
    if g.claims.len() > 0 {
        let faults = held_claim_faults(g.claims, keys, params.game_id);
        lemma_no_fault(faults, g.claims.len());
        assert(faults(0) is None);
    }
    assert(g.claims =~= Seq::<SignedConclusion>::empty());
}

/// What a copy sends in which nothing has been played.
proof fn lemma_waiting_sends(g: GameView, b: GameView, params: ChessGameParametersV1)
    requires
        waiting(b, params),
        g.setup is Some,
    ensures
        game_untold(b, game_told(g)) == (GameChange {
            slot: slot_change(b.slot, slot_told(g.slot)),
            ..no_change()
        }),
{
    let told = game_told(g);
    lemma_waiting_is_bare(b, params);
    lemma_nothing_missing::<u32, AuthorizedMove>(b.moves, told.moves);
    lemma_nothing_missing::<PlayerId, ClockAttestation>(b.clocks, told.clocks);
    lemma_nothing_missing::<[u8; 32], super::certification::SignedCertificateProposal>(
        b.proposals,
        told.proposals,
    );
}

/// Two copies of a game that waits for an opponent agree once they have merged
/// each other: on the offers, and on whether the challenge was declined.
pub proof fn law_waiting_copies_agree(a: GameView, b: GameView, params: ChessGameParametersV1)
    requires
        waiting(a, params),
        waiting(b, params),
        a.setup == b.setup,
        slots_told_apart(a.slot, b.slot),
    ensures
        game_merged(a, b, params) == (
            (GameView { slot: slot_pruned(slots_joined(a.slot, b.slot)), ..a }),
            None::<Seq<char>>,
        ),
        game_merged(b, a, params) == game_merged(a, b, params),
{
    lemma_waiting_is_bare(a, params);
    lemma_waiting_is_bare(b, params);
    law_seats_agree(a.slot, b.slot, a.setup, params);
    lemma_merging_waiting(a, b, params);
    assert(slots_told_apart(b.slot, a.slot));
    lemma_merging_waiting(b, a, params);
}

proof fn lemma_merging_waiting(a: GameView, b: GameView, params: ChessGameParametersV1)
    requires
        waiting(a, params),
        waiting(b, params),
        a.setup == b.setup,
        slots_told_apart(a.slot, b.slot),
    ensures
        game_merged(a, b, params) == (
            (GameView { slot: slot_pruned(slots_joined(a.slot, b.slot)), ..a }),
            None::<Seq<char>>,
        ),
{
    lemma_waiting_is_bare(a, params);
    lemma_waiting_is_bare(b, params);
    lemma_waiting_sends(a, b, params);
    lemma_slots_sync(a.slot, b.slot, a.setup, params);
    let d = game_untold(b, game_told(a));
    let joined = GameView { slot: slots_joined(a.slot, b.slot), ..a };
    let want = GameView { slot: slot_pruned(slots_joined(a.slot, b.slot)), ..a };
    assert(keys_of(joined) is None);
    assert(game_pruned(joined, params) =~= want) by {
        assert(moves_pruned(joined.moves, params.game_id, keys_of(joined)) =~= a.moves);
    }
    if d == no_change() {
        assert(slots_joined(a.slot, b.slot) == a.slot);
    } else {
        assert(game_after(a, d, params).0 == game_pruned(joined, params));
    }
}

/// Once a copy knows who plays, one that does not comes to hold all that it
/// holds, and it learns nothing itself, up to proposals for a certificate.
pub proof fn law_seating_spreads(a: GameView, b: GameView, params: ChessGameParametersV1)
    requires
        a.setup is Some,
        whole(a, params),
        waiting(b, params),
        a.setup == b.setup,
        slots_told_apart(a.slot, b.slot),
    ensures
        game_merged(a, b, params) == (a, None::<Seq<char>>),
        game_merged(b, a, params).1 is None,
        but_proposals(game_merged(b, a, params).0) == but_proposals(a),
{
    lemma_seated_learns_nothing(a, b, params);
    lemma_waiting_learns_all(a, b, params);
}

proof fn lemma_seated_learns_nothing(a: GameView, b: GameView, params: ChessGameParametersV1)
    requires
        a.setup is Some,
        whole(a, params),
        waiting(b, params),
        a.setup == b.setup,
        slots_told_apart(a.slot, b.slot),
    ensures
        game_merged(a, b, params) == (a, None::<Seq<char>>),
{
    lemma_waiting_is_bare(b, params);
    lemma_waiting_sends(a, b, params);
    lemma_slots_sync(a.slot, b.slot, a.setup, params);
    let d = game_untold(b, game_told(a));
    let joined = GameView { slot: slots_joined(a.slot, b.slot), ..a };
    assert(joined.slot.seated == a.slot.seated);
    assert(slot_pruned(a.slot) == a.slot);
    assert(slot_pruned(joined.slot) =~= a.slot);
    assert(keys_of(joined) == keys_of(a));
    assert(game_pruned(joined, params) =~= game_pruned(a, params));
    if d != no_change() {
        assert(game_after(a, d, params).0 == game_pruned(joined, params));
    }
}

proof fn lemma_waiting_learns_all(a: GameView, b: GameView, params: ChessGameParametersV1)
    requires
        a.setup is Some,
        whole(a, params),
        waiting(b, params),
        a.setup == b.setup,
        slots_told_apart(a.slot, b.slot),
    ensures
        game_merged(b, a, params).1 is None,
        but_proposals(game_merged(b, a, params).0) == but_proposals(a),
{
    let id = params.game_id;
    let keys = keys_of(a);
    let told = game_told(b);
    let d = game_untold(a, told);
    lemma_waiting_is_bare(b, params);
    assert(slots_told_apart(b.slot, a.slot));
    lemma_slots_sync(b.slot, a.slot, a.setup, params);
    let slot = slots_joined(b.slot, a.slot);
    assert(slot.seated == a.slot.seated);
    assert(slot_pruned(a.slot) == a.slot);
    assert(slot_pruned(slot) =~= a.slot);
    let g2 = GameView { slot, ..b };
    assert(keys_of(g2) == keys);
    lemma_standing_moves_sound(a.moves, id, keys);
    lemma_valid_clocks_sound(a.clocks, id, keys);
    lemma_valid_claims_sound(a.claims, keys, id);
    assert(orders(move_over()));
    assert(orders(clock_over()));
    law_syncing_joins::<u32, AuthorizedMove>(b.moves, a.moves, move_key(), move_over());
    law_syncing_joins::<PlayerId, ClockAttestation>(
        b.clocks,
        a.clocks,
        clock_key(),
        clock_over(),
    );
    assert(join(b.moves, a.moves, move_over()) =~= a.moves);
    assert(join(b.clocks, a.clocks, clock_over()) =~= a.clocks);
    let ms = moves_in(d);
    let ks = clocks_in(d);
    let cs = claims_in(d);
    assert(ms =~= missing::<u32, AuthorizedMove>(listing(a.moves), told.moves));
    assert(ks =~= missing::<PlayerId, ClockAttestation>(listing(a.clocks), told.clocks));
    assert(cs =~= untold_claims(a.claims, told.claims));
    assert forall|i: int| 0 <= i < ms.len() implies signed_move_fault(
        #[trigger] ms[i],
        id,
    ) is None by {
        let k = choose|k: u32| a.moves.contains_key(k) && a.moves[k] == ms[i];
    }
    assert forall|i: int| 0 <= i < ks.len() implies attestation_fault(
        #[trigger] ks[i],
        id,
    ) is None by {
        let k = choose|k: PlayerId| a.clocks.contains_key(k) && a.clocks[k] == ks[i];
    }
    let none = Seq::<SignedConclusion>::empty();
    law_claims_agree(none, a.claims, keys, id);
    assert(untold_claims(none, sigs_of(a.claims)) =~= none);
    lemma_sound_moves_come_in(b.moves, ms, id);
    lemma_sound_attestations_come_in(b.clocks, ks, id);
    assert(d.slot is Some);
    let g3 = with_moves(g2, d, params).0;
    assert(g3 =~= GameView { moves: a.moves, ..g2 });
    let g4 = with_clocks(g3, d, params).0;
    assert(g4 =~= GameView { clocks: a.clocks, ..g3 });
    let g5 = with_claims(g4, d, params).0;
    assert(g5 =~= GameView { claims: a.claims, ..g4 });
    let g6 = with_proposals(g5, d, params);
    assert(keys_of(g6) == keys);
    assert(but_proposals(game_pruned(g6, params)) =~= but_proposals(a));
}

} // verus!
