//! What a game's record is once something has come in: which moves stand, what
//! each update changes, and what the whole must hold to.

use super::certification::{is_winner, Proposed};
use super::clocks::{clocks_fault, filed_faults, ClockAttestation};
use super::conclusion::{claim_fault, claims_fault, held_claim_faults, SignedConclusion};
use super::moves::{
    kept_len, law_moves_are_their_movers, listed_moves, moves_after, moves_fault, moves_of,
    moves_pruned, run, run_len, signed_move_bytes, signed_move_fault, standing, AuthorizedMove,
};
use super::opponent::{
    decline_fault, invited, offer_fault, offer_faults, seat_fault, slot_after, slot_fault,
    slot_pruned, SlotChange, SlotView,
};
use super::replica::{game_after, game_fault, no_change, with_moves, GameChange};
use super::setup::{setup_fault, SignedGameSetup};
use super::{keys_of, line_of, playable, played, ChessGameParametersV1, GameView};
use crate::bytes::lex_less;
use crate::certificate::record_bytes;
use crate::chess::game::{line_after, line_fault, new_line, replay_fault};
use crate::chess::types::Move;
use crate::crypto::{signature_fault, VerifyingKey};
use crate::identity::{id_of, GameId, PlayerId};
use crate::prefix::lemma_leading;
use crate::sorted_map::{lemma_listing_entry, lemma_listing_place, listing};
use crate::text::lemma_no_fault;
use vstd::prelude::*;

verus! {

/// Whether there is a move on record for a ply that was made as it should be:
/// for that ply, by whose turn it was, signed, no earlier than the one before, and legal after
/// all that came before.
pub open spec fn fairly_made(
    m: Map<u32, AuthorizedMove>,
    game_id: GameId,
    white: VerifyingKey,
    black: VerifyingKey,
    ply: int,
) -> bool {
    let am = m[ply as u32];
    &&& m.contains_key(ply as u32)
    &&& am.ply == ply
    &&& ply % 2 == 0 ==> am.player == white
    &&& ply % 2 == 1 ==> am.player == black
    &&& am.played_at > 0
    &&& signature_fault(
        am.player.0,
        signed_move_bytes(game_id, am.ply, am.mv, am.played_at),
        am.signature.0,
    ) is None
    &&& ply > 0 ==> m[(ply - 1) as u32].played_at <= am.played_at
    &&& line_fault(
        line_after(new_line(), Seq::new(ply as nat, |i: int| m[i as u32].mv)),
        am.mv,
    ) is None
}

/// Whether all moves up to a ply are on record and were made as they should be.
pub open spec fn all_fairly_made(
    m: Map<u32, AuthorizedMove>,
    game_id: GameId,
    white: VerifyingKey,
    black: VerifyingKey,
    ply: int,
) -> bool {
    forall|j: int|
        0 <= j <= ply ==> #[trigger] fairly_made(m, game_id, white, black, j)
}

/// A move stays on record if it and all before it are there and were made as
/// they should be, and no other stays.
pub proof fn law_moves_stand_on_those_before(
    m: Map<u32, AuthorizedMove>,
    game_id: GameId,
    white: VerifyingKey,
    black: VerifyingKey,
    ply: u32,
)
    requires
        ply < u32::MAX,
    ensures
        ({
            let kept = moves_pruned(m, game_id, Some((white, black)));
            &&& kept.contains_key(ply) <==> all_fairly_made(m, game_id, white, black, ply as int)
            &&& kept.contains_key(ply) ==> kept[ply] == m[ply]
        }),
        !moves_pruned(m, game_id, None).contains_key(ply),
{
    let keys = (white, black);
    let there = |i: int| m.contains_key(i as u32);
    let good = standing(run(m), game_id, keys);
    lemma_leading(there, u32::MAX as nat);
    lemma_leading(good, run_len(m));
    let n = kept_len(m, game_id, Some(keys));
    let kept = moves_pruned(m, game_id, Some(keys));
    assert(kept.contains_key(ply) <==> m.contains_key(ply) && (ply as nat) < n);
    assert(n <= run_len(m));
    assert forall|j: int| 0 <= j < run_len(m) implies (#[trigger] good(j) <==> fairly_made(
        m,
        game_id,
        white,
        black,
        j,
    )) by {
        assert(there(j));
        assert(moves_of(run(m)).take(j) =~= Seq::new(j as nat, |i: int| m[i as u32].mv));
    }
    if (ply as nat) < n {
        assert forall|j: int| 0 <= j <= ply implies #[trigger] fairly_made(
            m,
            game_id,
            white,
            black,
            j,
        ) by {
            assert(there(j));
            assert(good(j));
        }
        assert(there(ply as int));
        assert(m.contains_key(ply));
        assert(all_fairly_made(m, game_id, white, black, ply as int));
    } else {
        assert(n <= ply);
        if all_fairly_made(m, game_id, white, black, ply as int) {
            assert(fairly_made(m, game_id, white, black, n as int));
            if n < run_len(m) {
                assert(!good(n as int));
            } else {
                assert(!there(n as int));
            }
            assert(false);
        }
        assert(!kept.contains_key(ply));
    }
}

/// Whoever's turn it is and makes a legal move, signs it and dates it no earlier
/// than the last has it played, and nothing else changes in the moves.
pub proof fn law_a_fair_move_is_played(
    g: GameView,
    am: AuthorizedMove,
    params: ChessGameParametersV1,
    white: VerifyingKey,
    black: VerifyingKey,
)
    requires
        keys_of(g) == Some((white, black)),
        g.moves == moves_pruned(g.moves, params.game_id, Some((white, black))),
        played(g).len() < u32::MAX - 1,
        am.ply == played(g).len(),
        am.player == (if am.ply % 2 == 0 {
            white
        } else {
            black
        }),
        am.played_at > 0,
        signature_fault(
            am.player.0,
            signed_move_bytes(params.game_id, am.ply, am.mv, am.played_at),
            am.signature.0,
        ) is None,
        am.ply > 0 ==> g.moves[(am.ply - 1) as u32].played_at <= am.played_at,
        line_fault(line_after(new_line(), played(g)), am.mv) is None,
    ensures
        ({
            let d = GameChange { moves: Some(seq![am]), ..no_change() };
            let (h, e) = game_after(g, d, params);
            &&& e is None
            &&& h.moves == g.moves.insert(am.ply, am)
            &&& h.claims == g.claims && h.setup == g.setup
        }),
{
    let ms = seq![am];
    let d = GameChange { moves: Some(ms), ..no_change() };
    assert(ms.drop_last() =~= Seq::<AuthorizedMove>::empty());
    assert(moves_after(g.moves, ms.drop_last(), params.game_id) == (g.moves, None::<Seq<char>>));
    lemma_a_fair_move_joins(g.moves, am, params.game_id, white, black);
    assert(with_moves(g, d, params) == (
        GameView { moves: g.moves.insert(am.ply, am), ..g },
        None::<Seq<char>>,
    ));
}

proof fn lemma_a_fair_move_joins(
    m: Map<u32, AuthorizedMove>,
    am: AuthorizedMove,
    game_id: GameId,
    white: VerifyingKey,
    black: VerifyingKey,
)
    requires
        m == moves_pruned(m, game_id, Some((white, black))),
        am.ply < u32::MAX - 1,
        am.ply == run_len(m),
        am.ply > 0 ==> m[(am.ply - 1) as u32].played_at <= am.played_at,
        am.player == (if am.ply % 2 == 0 {
            white
        } else {
            black
        }),
        signed_move_fault(am, game_id) is None,
        line_fault(line_after(new_line(), moves_of(run(m))), am.mv) is None,
    ensures
        !m.contains_key(am.ply),
        moves_pruned(m.insert(am.ply, am), game_id, Some((white, black))) == m.insert(am.ply, am),
{
    let n = am.ply;
    let after = m.insert(n, am);
    let kept = moves_pruned(after, game_id, Some((white, black)));
    let there = |i: int| m.contains_key(i as u32);
    lemma_leading(there, u32::MAX as nat);
    assert(!there(n as int));
    assert forall|j: int| 0 <= j <= n implies #[trigger] fairly_made(
        after,
        game_id,
        white,
        black,
        j,
    ) by {
        let before = Seq::new(j as nat, |i: int| after[i as u32].mv);
        if j < n {
            assert(there(j));
            law_moves_stand_on_those_before(m, game_id, white, black, j as u32);
            assert(fairly_made(m, game_id, white, black, j));
            assert(before =~= Seq::new(j as nat, |i: int| m[i as u32].mv));
        } else {
            assert(before =~= moves_of(run(m)));
        }
    }
    assert forall|k: u32| #[trigger] after.contains_key(k) implies kept.contains_key(k) by {
        if k != n {
            lemma_leading(standing(run(m), game_id, (white, black)), run_len(m));
            assert(moves_pruned(m, game_id, Some((white, black))).contains_key(k));
        }
        assert(k <= n);
        law_moves_stand_on_those_before(after, game_id, white, black, k);
        assert(all_fairly_made(after, game_id, white, black, k as int));
    }
    assert(kept =~= after);
}

/// A record passes if its terms do, its seat, moves and clocks do by them, its
/// claims are the players' and its proposals are of how the game ended.
pub proof fn law_sound_records(g: GameView, params: ChessGameParametersV1)
    ensures
        game_fault(g, g, params) is None <==> {
            &&& g.setup is Some ==> setup_fault(g.setup->0, params) is None
            &&& slot_fault(g.slot, g.setup, params) is None
            &&& moves_fault(g.moves, params.game_id, keys_of(g)) is None
            &&& clocks_fault(g.clocks, params.game_id, keys_of(g)) is None
            &&& claims_fault(g.claims, keys_of(g), params.game_id) is None
            &&& super::certification::proposals_fault(
                g.proposals,
                super::certification::outcome_of(g),
                params.game_id,
            ) is None
        },
{
}

/// A record of the seat passes if each offer does and is filed under who made
/// it, the seat was given by the creator, and a refusal is by who was challenged.
pub proof fn law_sound_seatings(
    s: SlotView,
    setup: Option<SignedGameSetup>,
    params: ChessGameParametersV1,
    k: [u8; 32],
)
    requires
        s.offers.dom().finite(),
        slot_fault(s, setup, params) is None,
    ensures
        s.offers.contains_key(k) ==> offer_fault(s.offers[k], setup, params) is None,
        s.seated is Some ==> seat_fault(s.seated->0, setup, params) is None,
        s.declined is Some ==> decline_fault(s.declined->0, params, invited(setup)) is None,
{
    let faults = offer_faults(s.offers, setup, params);
    lemma_no_fault(faults, listing(s.offers).len());
    if s.offers.contains_key(k) {
        let i = lemma_listing_place(s.offers, k);
        assert(faults(i) is None);
    }
}

/// Claims pass if there are at most six, each passes, and no player has two of
/// one kind.
pub proof fn law_sound_claims(
    claims: Seq<SignedConclusion>,
    keys: Option<(VerifyingKey, VerifyingKey)>,
    game_id: GameId,
)
    ensures
        claims_fault(claims, keys, game_id) is None <==> {
            &&& claims.len() <= 6
            &&& forall|i: int|
                0 <= i < claims.len() ==> claim_fault(#[trigger] claims[i], keys, game_id) is None
            &&& forall|i: int, j: int|
                0 <= i < j < claims.len() ==> id_of((#[trigger] claims[i]).claimant) != id_of(
                    (#[trigger] claims[j]).claimant,
                ) || claims[i].kind != claims[j].kind
        },
{
    let faults = held_claim_faults(claims, keys, game_id);
    lemma_no_fault(faults, claims.len());
    if claims_fault(claims, keys, game_id) is None {
        assert forall|i: int| 0 <= i < claims.len() implies claim_fault(
            #[trigger] claims[i],
            keys,
            game_id,
        ) is None by {
            assert(faults(i) is None);
        }
        assert forall|i: int, j: int| 0 <= i < j < claims.len() implies id_of(
            (#[trigger] claims[i]).claimant,
        ) != id_of((#[trigger] claims[j]).claimant) || claims[i].kind != claims[j].kind by {
            assert(faults(j) is None);
        }
    }
}

/// Clocks pass if there are none, or if there are players and each attestation
/// passes, is a player's and is filed under them.
pub proof fn law_sound_clocks(
    m: Map<PlayerId, ClockAttestation>,
    game_id: GameId,
    white: VerifyingKey,
    black: VerifyingKey,
)
    requires
        m.dom().finite(),
    ensures
        clocks_fault(m, game_id, Some((white, black))) is None <==> forall|k: PlayerId| #[trigger]
            m.contains_key(k) ==> {
                &&& m[k].player == white || m[k].player == black
                &&& k == id_of(m[k].player)
                &&& super::clocks::attestation_fault(m[k], game_id) is None
            },
        clocks_fault(m, game_id, None) is None <==> listing(m).len() == 0,
{
    let faults = filed_faults(m, game_id, (white, black));
    lemma_no_fault(faults, listing(m).len());
    if clocks_fault(m, game_id, Some((white, black))) is None {
        assert forall|k: PlayerId| #[trigger] m.contains_key(k) implies {
            &&& m[k].player == white || m[k].player == black
            &&& k == id_of(m[k].player)
            &&& super::clocks::attestation_fault(m[k], game_id) is None
        } by {
            let i = lemma_listing_place(m, k);
            assert(faults(i) is None);
        }
    } else {
        let i = choose|i: int| 0 <= i < listing(m).len() && (#[trigger] faults(i)) is Some;
        lemma_listing_entry(m, i);
    }
}

/// What comes in for the seat of a game takes the place that is empty, and
/// leaves the rest.
pub proof fn law_seat_updates_bring_what_they_have(
    s: SlotView,
    d: SlotChange,
    setup: Option<SignedGameSetup>,
    params: ChessGameParametersV1,
)
    requires
        slot_after(s, d, setup, params).1 is None,
    ensures
        ({
            let r = slot_after(s, d, setup, params).0;
            &&& d.seated is None ==> r.seated == s.seated
            &&& d.seated is Some && s.seated is None ==> r.seated == d.seated
            &&& d.seated is Some ==> seat_fault(d.seated->0, setup, params) is None
            &&& d.declined is None ==> r.declined == s.declined
            &&& d.declined is Some && s.declined is None ==> r.declined == d.declined
            &&& d.declined is Some ==> decline_fault(d.declined->0, params, invited(setup)) is None
            &&& d.offers.len() == 0 ==> r.offers == s.offers
        }),
{
}

/// An update without some part leaves that part of the record as it was, but
/// for what is pruned; and what is pruned leaves the terms and the claims.
pub proof fn law_updates_leave_what_they_do_not_bring(
    g: GameView,
    d: GameChange,
    params: ChessGameParametersV1,
)
    requires
        game_after(g, d, params).1 is None,
    ensures
        ({
            let h = game_after(g, d, params).0;
            &&& d.setup is None ==> h.setup == g.setup
            &&& d.setup is Some && g.setup is None ==> h.setup == d.setup
            &&& d.slot is None ==> h.slot == slot_pruned(g.slot)
            &&& d.moves is None && h.slot.seated is Some && h.setup is Some ==> h.moves
                == moves_pruned(g.moves, params.game_id, keys_of(h))
            &&& d.claims is None ==> h.claims == g.claims
        }),
{
}

/// The moves on record pass if each, and all before it, were made as they should
/// be.
pub proof fn law_sound_moves_on_record(
    m: Map<u32, AuthorizedMove>,
    game_id: GameId,
    white: VerifyingKey,
    black: VerifyingKey,
)
    requires
        m.dom().finite(),
        !m.contains_key(u32::MAX),
    ensures
        moves_fault(m, game_id, Some((white, black))) is None <==> forall|ply: u32| #[trigger]
            m.contains_key(ply) ==> all_fairly_made(m, game_id, white, black, ply as int),
        moves_fault(m, game_id, None) is None <==> listing(m).len() == 0,
{
    let keys = (white, black);
    if moves_fault(m, game_id, Some(keys)) is None {
        assert forall|ply: u32| #[trigger] m.contains_key(ply) implies all_fairly_made(
            m,
            game_id,
            white,
            black,
            ply as int,
        ) by {
            lemma_listed_moves_are_fair(m, game_id, white, black, ply);
        }
    }
    if forall|ply: u32| #[trigger]
        m.contains_key(ply) ==> all_fairly_made(m, game_id, white, black, ply as int) {
        let kept = moves_pruned(m, game_id, Some(keys));
        assert forall|ply: u32| #[trigger] m.contains_key(ply) implies kept.contains_key(ply) by {
            law_moves_stand_on_those_before(m, game_id, white, black, ply);
        }
        assert(kept =~= m);
        super::moves::law_pruned_moves_pass(m, game_id, Some(keys));
    }
}

proof fn lemma_listed_moves_are_fair(
    m: Map<u32, AuthorizedMove>,
    game_id: GameId,
    white: VerifyingKey,
    black: VerifyingKey,
    ply: u32,
)
    requires
        m.dom().finite(),
        moves_fault(m, game_id, Some((white, black))) is None,
        m.contains_key(ply),
    ensures
        all_fairly_made(m, game_id, white, black, ply as int),
{
    let all = listed_moves(m);
    law_moves_are_their_movers(m, game_id, (white, black), ply);
    assert forall|j: int| 0 <= j < all.len() implies m.contains_key(j as u32) && #[trigger] all[j]
        == m[j as u32] by {
        lemma_listing_entry(m, j);
    }
    assert forall|j: int| 0 <= j <= ply implies #[trigger] fairly_made(
        m,
        game_id,
        white,
        black,
        j,
    ) by {
        assert(all[j] == m[j as u32]);
        law_moves_are_their_movers(m, game_id, (white, black), j as u32);
        assert(moves_of(all).take(j) =~= Seq::new(j as nat, |i: int| m[i as u32].mv)) by {
            assert forall|i: int| 0 <= i < j implies moves_of(all).take(j)[i] == #[trigger] m[i as u32].mv by {
                assert(all[i] == m[i as u32]);
            }
        }
        if j > 0 {
            assert(all[j - 1] == m[(j - 1) as u32]);
        }
    }
}

/// Where the moves on record were made as they should be, the board shows all of
/// them.
pub proof fn law_the_board_shows_every_move(
    g: GameView,
    game_id: GameId,
    white: VerifyingKey,
    black: VerifyingKey,
)
    requires
        forall|ply: u32| #[trigger]
            g.moves.contains_key(ply) && ply < u32::MAX ==> all_fairly_made(
                g.moves,
                game_id,
                white,
                black,
                ply as int,
            ),
    ensures
        playable(g) == played(g),
        line_of(g) == line_after(new_line(), played(g)),
{
    let m = g.moves;
    let there = |i: int| m.contains_key(i as u32);
    lemma_leading(there, u32::MAX as nat);
    assert forall|j: int| 0 <= j < played(g).len() implies line_fault(
        line_after(new_line(), #[trigger] played(g).take(j)),
        played(g)[j],
    ) is None by {
        assert(there(j));
        assert(all_fairly_made(m, game_id, white, black, (j as u32) as int));
        assert(fairly_made(m, game_id, white, black, j));
        assert(played(g).take(j) =~= Seq::new(j as nat, |i: int| m[i as u32].mv));
    }
    lemma_all_replay(played(g), played(g).len() as int);
    assert(played(g).take(played(g).len() as int) =~= played(g));
}

proof fn lemma_all_replay(moves: Seq<Move>, n: int)
    requires
        0 <= n <= moves.len(),
        forall|j: int|
            0 <= j < moves.len() ==> line_fault(
                line_after(new_line(), #[trigger] moves.take(j)),
                moves[j],
            ) is None,
    ensures
        replay_fault(new_line(), moves.take(n)) is None,
    decreases n,
{
    if n > 0 {
        lemma_all_replay(moves, n - 1);
        assert(moves.take(n).drop_last() =~= moves.take(n - 1));
        assert(moves.take(n).last() == moves[n - 1]);
    }
}

/// Of two proposed records both players should sign the one whose bytes come
/// first, whoever proposed it.
pub proof fn law_the_record_to_sign_is_the_first_in_order(
    m: Map<[u8; 32], Proposed>,
    i: int,
    j: int,
)
    requires
        is_winner(m, i),
        0 <= j < listing(m).len(),
    ensures
        !lex_less(record_bytes(listing(m)[j].1.record), record_bytes(listing(m)[i].1.record)),
        is_winner(m, j) ==> i == j,
{
    if i < j {
        assert(!is_winner(m, j)) by {
            if is_winner(m, j) {
                assert(lex_less(
                    record_bytes(listing(m)[j].1.record),
                    record_bytes(listing(m)[i].1.record),
                ));
            }
        }
    }
}

/// Byte strings come in the order of their first bytes, and after those of the
/// rest.
pub proof fn law_bytes_come_in_order(a: Seq<u8>, b: Seq<u8>, x: u8, y: u8)
    ensures
        x < y ==> lex_less(seq![x] + a, seq![y] + b),
        x > y ==> !lex_less(seq![x] + a, seq![y] + b),
        lex_less(seq![x] + a, seq![x] + b) == lex_less(a, b),
        lex_less(Seq::empty(), seq![x] + a),
        !lex_less(a, Seq::empty()),
{
    assert((seq![x] + a).skip(1) =~= a);
    assert((seq![y] + b).skip(1) =~= b);
    assert((seq![x] + b).skip(1) =~= b);
}

} // verus!
