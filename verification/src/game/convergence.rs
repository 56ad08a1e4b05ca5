//! Why copies of a game that has started agree.

use super::certification::{proposals_pruned, Proposed, SignedCertificateProposal};
use super::claims::{
    all_claims_apart, claims_sound, law_claims_agree, law_claims_in_any_order,
    lemma_sound_claims_come_in, signatures_tell, well_ordered,
};
use super::clocks::{
    attestation_fault, clocks_after, clocks_fault, clocks_pruned, filed_faults, no_later,
    of_players, ClockAttestation,
};
use super::conclusion::{
    claim_fault, claims_after, claims_fault, held_claim_faults, sigs_of, untold_claims,
    SignedConclusion,
};
use super::moves::{
    below, kept_len, law_pruning_moves_is_idempotent, lemma_front_stands, lemma_pruned_run,
    moves_after, moves_pruned, run, run_len, signed_move_fault, standing, AuthorizedMove,
};
use super::opponent::{law_slot_pruning_is_idempotent, slot_pruned, SignedJoin};
use super::replica::{
    game_after, game_fault, game_merged, game_pruned, game_told, game_untold, no_change,
    with_claims, with_clocks, with_moves, with_proposals, GameChange,
};
use super::{keys_of, over, result_of, sig_rank, ChessGameParametersV1, GameView};
use crate::crypto::VerifyingKey;
use crate::identity::{id_of, GameId, PlayerId};
use crate::join::{
    all_apart, apart, filed, join, kept_keys, law_joining_commutes, law_syncing_joins,
    law_updates_come_in_once, law_updates_commute, lemma_taken_kept, lists_apart, marks_tell,
    orders, put, taken,
};
use crate::prefix::{lemma_leading, lemma_leading_is};
use crate::sorted_map::{lemma_listed, lemma_listing_entry, listing};
use crate::sync::missing;
use crate::text::lemma_no_fault;
use vstd::prelude::*;

verus! {

pub open spec fn move_key() -> spec_fn(AuthorizedMove) -> u32 {
    |am: AuthorizedMove| am.ply
}

pub open spec fn move_over() -> spec_fn(AuthorizedMove, AuthorizedMove) -> bool {
    |a: AuthorizedMove, b: AuthorizedMove| sig_rank(a.signature) < sig_rank(b.signature)
}

pub open spec fn clock_key() -> spec_fn(ClockAttestation) -> PlayerId {
    |a: ClockAttestation| id_of(a.player)
}

pub open spec fn clock_over() -> spec_fn(ClockAttestation, ClockAttestation) -> bool {
    |a: ClockAttestation, b: ClockAttestation| !no_later(a, b)
}

pub open spec fn moves_sound(ms: Seq<AuthorizedMove>, game_id: GameId) -> bool {
    forall|i: int| 0 <= i < ms.len() ==> signed_move_fault(#[trigger] ms[i], game_id) is None
}

pub open spec fn attestations_sound(cs: Seq<ClockAttestation>, game_id: GameId) -> bool {
    forall|i: int| 0 <= i < cs.len() ==> attestation_fault(#[trigger] cs[i], game_id) is None
}

/// Signed moves all come in.
pub proof fn lemma_sound_moves_come_in(
    m: Map<u32, AuthorizedMove>,
    ms: Seq<AuthorizedMove>,
    game_id: GameId,
)
    requires
        moves_sound(ms, game_id),
    ensures
        moves_after(m, ms, game_id) == (
            taken(m, ms, move_key(), move_over()),
            None::<Seq<char>>,
        ),
    decreases ms.len(),
{
    if ms.len() > 0 {
        let front = ms.drop_last();
        assert forall|i: int| 0 <= i < front.len() implies signed_move_fault(
            #[trigger] front[i],
            game_id,
        ) is None by {
            assert(front[i] == ms[i]);
        }
        lemma_sound_moves_come_in(m, front, game_id);
        assert(signed_move_fault(ms[ms.len() - 1], game_id) is None);
    }
}

/// Signed attestations all come in.
pub proof fn lemma_sound_attestations_come_in(
    m: Map<PlayerId, ClockAttestation>,
    cs: Seq<ClockAttestation>,
    game_id: GameId,
)
    requires
        attestations_sound(cs, game_id),
    ensures
        clocks_after(m, cs, game_id) == (
            taken(m, cs, clock_key(), clock_over()),
            None::<Seq<char>>,
        ),
    decreases cs.len(),
{
    if cs.len() > 0 {
        let front = cs.drop_last();
        assert forall|i: int| 0 <= i < front.len() implies attestation_fault(
            #[trigger] front[i],
            game_id,
        ) is None by {
            assert(front[i] == cs[i]);
        }
        lemma_sound_attestations_come_in(m, front, game_id);
        assert(attestation_fault(cs[cs.len() - 1], game_id) is None);
    }
}

/// The attestations of an update.
pub open spec fn clocks_in(d: GameChange) -> Seq<ClockAttestation> {
    match d.clocks {
        Some(cs) => cs,
        None => Seq::empty(),
    }
}

/// The claims of an update.
pub open spec fn claims_in(d: GameChange) -> Seq<SignedConclusion> {
    match d.claims {
        Some(cs) => cs,
        None => Seq::empty(),
    }
}

/// The moves of an update.
pub open spec fn moves_in(d: GameChange) -> Seq<AuthorizedMove> {
    match d.moves {
        Some(ms) => ms,
        None => Seq::empty(),
    }
}

/// Whether an update holds nothing but moves, attestations and claims, and all of
/// them are sound.
pub open spec fn sound_play(g: GameView, d: GameChange, params: ChessGameParametersV1) -> bool {
    &&& d.setup is None && d.slot is None && d.proposals is None
    &&& moves_sound(moves_in(d), params.game_id)
    &&& attestations_sound(clocks_in(d), params.game_id)
    &&& claims_sound(claims_in(d), keys_of(g), params.game_id)
    &&& all_claims_apart(g.claims, claims_in(d))
    &&& all_claims_apart(claims_in(d), claims_in(d))
}

/// A record once such an update has come in.
pub open spec fn played_on(g: GameView, d: GameChange, params: ChessGameParametersV1) -> GameView {
    GameView {
        moves: taken(g.moves, moves_in(d), move_key(), move_over()),
        clocks: taken(g.clocks, clocks_in(d), clock_key(), clock_over()),
        claims: claims_after(g.claims, claims_in(d), keys_of(g), params.game_id).0,
        ..g
    }
}

/// What such an update does, all of it at once.
pub proof fn lemma_play_comes_in(g: GameView, d: GameChange, params: ChessGameParametersV1)
    requires
        well_ordered(g.claims),
        sound_play(g, d, params),
    ensures
        game_after(g, d, params) == (
            game_pruned(played_on(g, d, params), params),
            None::<Seq<char>>,
        ),
        well_ordered(game_after(g, d, params).0.claims),
        keys_of(game_after(g, d, params).0) == keys_of(g),
{
    lemma_sound_moves_come_in(g.moves, moves_in(d), params.game_id);
    lemma_sound_attestations_come_in(g.clocks, clocks_in(d), params.game_id);
    lemma_sound_claims_come_in(g.claims, claims_in(d), keys_of(g), params.game_id);
    let g3 = with_moves(g, d, params).0;
    assert(g3 =~= GameView { moves: played_on(g, d, params).moves, ..g });
    let g4 = with_clocks(g3, d, params).0;
    assert(g4 =~= GameView { clocks: played_on(g, d, params).clocks, ..g3 });
    let g5 = with_claims(g4, d, params).0;
    assert(keys_of(g4) == keys_of(g));
    assert(g5 =~= played_on(g, d, params));
}

/// A record but for its proposals.
pub open spec fn but_proposals(g: GameView) -> GameView {
    GameView { proposals: Map::empty(), ..g }
}

/// The attestations that are kept are told by their keys.
pub open spec fn player_ids(keys: (VerifyingKey, VerifyingKey)) -> spec_fn(PlayerId) -> bool {
    |id: PlayerId| id == id_of(keys.0) || id == id_of(keys.1)
}

proof fn lemma_clocks_kept(
    m: Map<PlayerId, ClockAttestation>,
    cs: Seq<ClockAttestation>,
    keys: Option<(VerifyingKey, VerifyingKey)>,
)
    ensures
        clocks_pruned(
            taken(clocks_pruned(m, keys), cs, clock_key(), clock_over()),
            keys,
        ) == clocks_pruned(taken(m, cs, clock_key(), clock_over()), keys),
{
    if keys is Some {
        let keep = player_ids(keys->0);
        assert(of_players(keys->0) =~= kept_keys(keep));
        lemma_taken_kept(m, cs, clock_key(), clock_over(), keep);
    }
}

/// Attestations and claims come in alike in either order, up to proposals for a
/// certificate: a game that is open again drops those. Where two attestations
/// of one player, or two claims, share time and signature they must be one.
pub proof fn law_game_updates_commute(
    g: GameView,
    d1: GameChange,
    d2: GameChange,
    params: ChessGameParametersV1,
)
    requires
        g.slot.offers.dom().finite(),
        well_ordered(g.claims),
        d1.moves is None && d2.moves is None,
        sound_play(g, d1, params),
        sound_play(g, d2, params),
        lists_apart(clocks_in(d1), clocks_in(d2), clock_key(), clock_over()),
        all_claims_apart(claims_in(d1), claims_in(d2)),
    ensures
        ({
            let x = game_after(game_after(g, d1, params).0, d2, params);
            let y = game_after(game_after(g, d2, params).0, d1, params);
            &&& x.1 is None && y.1 is None
            &&& but_proposals(x.0) == but_proposals(y.0)
            &&& g.proposals =~= Map::<[u8; 32], Proposed>::empty() ==> x.0 == y.0
        }),
{
    let keys = keys_of(g);
    let id = params.game_id;
    lemma_play_comes_in(g, d1, params);
    lemma_play_comes_in(g, d2, params);
    let x1 = game_after(g, d1, params).0;
    let y1 = game_after(g, d2, params).0;
    let (c1, c2) = (claims_in(d1), claims_in(d2));
    let (k1, k2) = (clocks_in(d1), clocks_in(d2));
    lemma_apart_both(g.claims, c1, c2, keys, id);
    lemma_play_comes_in(x1, d2, params);
    lemma_play_comes_in(y1, d1, params);
    law_claims_in_any_order(g.claims, c1, c2, keys, id);
    lemma_clocks_kept(taken(g.clocks, k1, clock_key(), clock_over()), k2, keys);
    lemma_clocks_kept(taken(g.clocks, k2, clock_key(), clock_over()), k1, keys);
    assert(orders(clock_over()));
    law_updates_commute(g.clocks, k1, k2, clock_key(), clock_over());
    law_pruning_moves_is_idempotent(g.moves, id, keys);
    law_slot_pruning_is_idempotent(g.slot);
    assert(moves_in(d1) =~= Seq::<AuthorizedMove>::empty());
    assert(moves_in(d2) =~= Seq::<AuthorizedMove>::empty());
    let x = game_after(x1, d2, params).0;
    let y = game_after(y1, d1, params).0;
    assert(but_proposals(x) =~= but_proposals(y));
    if g.proposals =~= Map::<[u8; 32], Proposed>::empty() {
        lemma_no_proposals(keys, true);
        lemma_no_proposals(keys, false);
        assert(x.proposals =~= Map::empty());
        assert(y.proposals =~= Map::empty());
        assert(x =~= y);
    }
}

pub proof fn lemma_no_proposals(keys: Option<(VerifyingKey, VerifyingKey)>, is_over: bool)
    ensures
        proposals_pruned(Map::<[u8; 32], Proposed>::empty(), keys, is_over) == Map::<
            [u8; 32],
            Proposed,
        >::empty(),
{
    assert(proposals_pruned(Map::<[u8; 32], Proposed>::empty(), keys, is_over) =~= Map::empty());
}

/// Claims that came in stay apart from those that come.
proof fn lemma_apart_both(
    claims: Seq<SignedConclusion>,
    xs: Seq<SignedConclusion>,
    ys: Seq<SignedConclusion>,
    keys: Option<(VerifyingKey, VerifyingKey)>,
    game_id: GameId,
)
    requires
        well_ordered(claims),
        claims_sound(xs, keys, game_id),
        claims_sound(ys, keys, game_id),
        all_claims_apart(claims, xs),
        all_claims_apart(claims, ys),
        all_claims_apart(xs, xs),
        all_claims_apart(xs, ys),
        all_claims_apart(ys, ys),
    ensures
        all_claims_apart(claims_after(claims, xs, keys, game_id).0, ys),
        all_claims_apart(claims_after(claims, ys, keys, game_id).0, xs),
        all_claims_apart(claims_after(claims, xs, keys, game_id).0, xs),
{
    super::claims::lemma_apart_turned(xs, ys);
    super::claims::lemma_apart_after(claims, xs, ys, keys, game_id);
    super::claims::lemma_apart_after(claims, ys, xs, keys, game_id);
    super::claims::lemma_apart_after(claims, xs, xs, keys, game_id);
}

/// A move that came in already, into a record of moves that stand, changes
/// nothing once what does not stand is dropped.
proof fn lemma_one_move_once(
    m: Map<u32, AuthorizedMove>,
    x: AuthorizedMove,
    game_id: GameId,
    keys: Option<(VerifyingKey, VerifyingKey)>,
)
    requires
        moves_pruned(m, game_id, keys) == m,
    ensures
        ({
            let p = moves_pruned(put(m, x, move_key(), move_over()), game_id, keys);
            moves_pruned(put(p, x, move_key(), move_over()), game_id, keys) == p
        }),
{
    let all = put(m, x, move_key(), move_over());
    let p = moves_pruned(all, game_id, keys);
    let again = put(p, x, move_key(), move_over());
    let n = kept_len(all, game_id, keys);
    law_pruning_moves_is_idempotent(all, game_id, keys);
    lemma_pruned_run(all, game_id, keys);
    if p.contains_key(x.ply) {
        assert(again == p);
    } else if keys is Some {
        let ks = keys->0;
        assert(again == p.insert(x.ply, x));
        let present = |i: int| again.contains_key(i as u32);
        let had = |i: int| p.contains_key(i as u32);
        let held = |i: int| all.contains_key(i as u32);
        lemma_leading(had, u32::MAX as nat);
        lemma_leading(held, u32::MAX as nat);
        lemma_leading(standing(run(all), game_id, ks), run_len(all));
        assert(x.ply >= n) by {
            if x.ply < n {
                assert(held(x.ply as int));
                assert(all.contains_key(x.ply));
            }
        }
        assert forall|i: int| 0 <= i < n implies #[trigger] present(i) by {
            assert(had(i));
        }
        let left = standing(run(again), game_id, ks);
        if x.ply as nat == n && n < u32::MAX {
            assert(present(n as int));
            if n + 1 < u32::MAX {
                assert(!present(n as int + 1)) by {
                    assert((n as int + 1) as u32 == n + 1);
                }
            }
            assert forall|i: int| 0 <= i < n + 1 implies #[trigger] present(i) by {
                if i < n {
                    assert(had(i));
                }
            }
            lemma_leading_is(present, u32::MAX as nat, (n + 1) as nat);
            assert forall|i: int| 0 <= i < n implies #[trigger] run(again)[i] == run(all)[i] by {
                assert(had(i));
                assert(run(p)[i] == run(all)[i]);
            }
            assert(held(n as int)) by {
                assert(all.contains_key(x.ply));
            }
            assert forall|i: int| 0 <= i < n + 1 implies #[trigger] held(i) by {
                if i < n {
                    assert(had(i));
                }
            }
            assert(run_len(all) >= n + 1) by {
                if run_len(all) == n {
                    assert(!held(n as int));
                }
            }
            if all[x.ply] == x {
                assert(run(again) =~= run(all).take(n as int + 1));
                lemma_front_stands(run(all), n as int + 1, game_id, ks, n as int);
            } else {
                assert(all =~= m);
                assert(m.contains_key(x.ply));
                assert(moves_pruned(m, game_id, keys).contains_key(x.ply));
            }
            assert(!standing(run(all), game_id, ks)(n as int));
            assert(!left(n as int)) by {
                if all[x.ply] != x {
                    assert(false);
                }
            }
            assert forall|i: int| 0 <= i < n implies #[trigger] left(i) by {
                assert(standing(run(all), game_id, ks)(i));
                lemma_front_stands(run(all), n as int, game_id, ks, i);
                lemma_front_stands(run(again), n as int, game_id, ks, i);
                assert(run(again).take(n as int) =~= run(all).take(n as int));
            }
            lemma_leading_is(left, run_len(again), n);
        } else {
            if n < u32::MAX {
                assert(!present(n as int)) by {
                    assert((n as int) as u32 == n);
                    if p.contains_key(n as u32) {
                        assert(below(n)(n as u32, p[n as u32]));
                    }
                }
            }
            lemma_leading_is(present, u32::MAX as nat, n);
            assert forall|i: int| 0 <= i < n implies #[trigger] run(again)[i] == run(p)[i] by {
                assert(had(i));
            }
            assert(run(again) =~= run(p));
            assert forall|i: int| 0 <= i < n implies #[trigger] left(i) by {
                assert(standing(run(all), game_id, ks)(i));
                lemma_front_stands(run(all), n as int, game_id, ks, i);
            }
            lemma_leading_is(left, n, n);
        }
        assert(kept_len(again, game_id, keys) == n);
        assert(moves_pruned(again, game_id, keys) =~= p) by {
            assert forall|k: u32| p.contains_key(k) implies (k as nat) < n by {
                assert(below(n)(k, all[k]));
            }
        }
    } else {
        assert(moves_pruned(again, game_id, keys) =~= p);
    }
}

/// An update of moves, attestations and claims that came in already changes
/// nothing, where it holds no more than one move and the record's own moves
/// stand.
pub proof fn law_game_updates_come_in_once(
    g: GameView,
    d: GameChange,
    params: ChessGameParametersV1,
)
    requires
        g.slot.offers.dom().finite(),
        well_ordered(g.claims),
        moves_pruned(g.moves, params.game_id, keys_of(g)) == g.moves,
        sound_play(g, d, params),
        moves_in(d).len() <= 1,
    ensures
        game_after(game_after(g, d, params).0, d, params) == (
            game_after(g, d, params).0,
            None::<Seq<char>>,
        ),
{
    lemma_play_comes_in(g, d, params);
    let x = game_after(g, d, params).0;
    let cs = claims_in(d);
    super::claims::lemma_apart_after(g.claims, cs, cs, keys_of(g), params.game_id);
    lemma_play_comes_in(x, d, params);
    let again = game_after(x, d, params).0;
    lemma_play_twice(g, d, params);
    lemma_result_without_proposals(played_on(g, d, params), x, params);
    lemma_result_without_proposals(played_on(x, d, params), again, params);
    assert(result_of(again) == result_of(x)) by {
        lemma_result_but_proposals(again);
        lemma_result_but_proposals(x);
    }
    assert(again.proposals == x.proposals) by {
        lemma_proposals_twice(g.proposals, keys_of(g), over(result_of(x)));
    }
    assert(again =~= GameView { proposals: x.proposals, ..but_proposals(again) });
    assert(x =~= GameView { proposals: x.proposals, ..but_proposals(x) });
}

proof fn lemma_proposals_twice(
    m: Map<[u8; 32], Proposed>,
    keys: Option<(VerifyingKey, VerifyingKey)>,
    is_over: bool,
)
    ensures
        proposals_pruned(proposals_pruned(m, keys, is_over), keys, is_over) == proposals_pruned(
            m,
            keys,
            is_over,
        ),
{
    assert(proposals_pruned(proposals_pruned(m, keys, is_over), keys, is_over)
        =~= proposals_pruned(m, keys, is_over));
}

/// Playing on twice is playing on once, but for proposals.
proof fn lemma_play_twice(g: GameView, d: GameChange, params: ChessGameParametersV1)
    requires
        g.slot.offers.dom().finite(),
        well_ordered(g.claims),
        moves_pruned(g.moves, params.game_id, keys_of(g)) == g.moves,
        sound_play(g, d, params),
        moves_in(d).len() <= 1,
    ensures
        ({
            let x = game_pruned(played_on(g, d, params), params);
            but_proposals(game_pruned(played_on(x, d, params), params)) == but_proposals(x)
        }),
{
    let keys = keys_of(g);
    let id = params.game_id;
    let cs = claims_in(d);
    let ks = clocks_in(d);
    let x = game_pruned(played_on(g, d, params), params);
    let again = game_pruned(played_on(x, d, params), params);
    assert(keys_of(x) == keys);
    assert(again.claims == x.claims) by {
        law_claims_in_any_order(g.claims, cs, cs, keys, id);
    }
    assert(again.clocks == x.clocks) by {
        lemma_clocks_kept(taken(g.clocks, ks, clock_key(), clock_over()), ks, keys);
        assert(orders(clock_over()));
        law_updates_come_in_once(g.clocks, ks, clock_key(), clock_over());
    }
    assert(again.slot == x.slot) by {
        law_slot_pruning_is_idempotent(g.slot);
    }
    assert(again.moves == x.moves) by {
        lemma_moves_twice(g.moves, moves_in(d), id, keys);
    }
    assert(but_proposals(again) =~= but_proposals(x));
}

proof fn lemma_moves_twice(
    m: Map<u32, AuthorizedMove>,
    ms: Seq<AuthorizedMove>,
    game_id: GameId,
    keys: Option<(VerifyingKey, VerifyingKey)>,
)
    requires
        moves_pruned(m, game_id, keys) == m,
        ms.len() <= 1,
    ensures
        ({
            let p = moves_pruned(taken(m, ms, move_key(), move_over()), game_id, keys);
            moves_pruned(taken(p, ms, move_key(), move_over()), game_id, keys) == p
        }),
{
    if ms.len() == 1 {
        let none = ms.drop_last();
        assert(none =~= Seq::<AuthorizedMove>::empty());
        let p = moves_pruned(put(m, ms[0], move_key(), move_over()), game_id, keys);
        assert(taken(m, none, move_key(), move_over()) == m);
        assert(taken(p, none, move_key(), move_over()) == p);
        lemma_one_move_once(m, ms[0], game_id, keys);
    }
}

/// The result does not depend on proposals.
proof fn lemma_result_but_proposals(g: GameView)
    ensures
        result_of(but_proposals(g)) == result_of(g),
{
    lemma_decides_but_proposals(g);
    assert(super::conclusion::undecided(but_proposals(g)) =~= super::conclusion::undecided(g));
}

proof fn lemma_decides_but_proposals(g: GameView)
    ensures
        forall|c: SignedConclusion| #[trigger]
            super::conclusion::decides(c, but_proposals(g)) == super::conclusion::decides(c, g),
{
}

/// What is left of a record's proposals depends on the result of what is left.
proof fn lemma_result_without_proposals(
    full: GameView,
    left: GameView,
    params: ChessGameParametersV1,
)
    requires
        left == game_pruned(full, params),
    ensures
        left.proposals == proposals_pruned(full.proposals, keys_of(full), over(result_of(left))),
{
    let g1 = GameView { proposals: full.proposals, ..left };
    lemma_result_but_proposals(g1);
    lemma_result_but_proposals(left);
    assert(but_proposals(g1) =~= but_proposals(left));
    assert(g1 =~= GameView {
        slot: slot_pruned(full.slot),
        moves: moves_pruned(full.moves, params.game_id, keys_of(full)),
        clocks: clocks_pruned(full.clocks, keys_of(full)),
        ..full
    });
}

/// Whether a copy of a game that has started is in order: nothing is wrong with
/// it, and there is nothing in it to prune.
pub open spec fn whole(g: GameView, params: ChessGameParametersV1) -> bool {
    &&& g.slot.seated is Some
    &&& g.moves.dom().finite()
    &&& g.clocks.dom().finite()
    &&& well_ordered(g.claims)
    &&& game_fault(g, g, params) is None
    &&& game_pruned(g, params) == g
}

/// Whether two copies are of one game, and what they hold can be told apart:
/// by marks, and by which of two records stays.
pub open spec fn kin(a: GameView, b: GameView) -> bool {
    &&& a.setup == b.setup
    &&& a.slot.seated == b.slot.seated
    &&& marks_tell::<u32, AuthorizedMove>(a.moves, b.moves)
    &&& all_apart(move_over(), a.moves, b.moves)
    &&& marks_tell::<PlayerId, ClockAttestation>(a.clocks, b.clocks)
    &&& all_apart(clock_over(), a.clocks, b.clocks)
    &&& all_claims_apart(a.claims, b.claims)
    &&& signatures_tell(a.claims, b.claims)
}

/// Two copies as one.
pub open spec fn copies_joined(
    a: GameView,
    b: GameView,
    params: ChessGameParametersV1,
) -> GameView {
    GameView {
        moves: join(a.moves, b.moves, move_over()),
        clocks: join(a.clocks, b.clocks, clock_over()),
        claims: claims_after(
            a.claims,
            untold_claims(b.claims, sigs_of(a.claims)),
            keys_of(a),
            params.game_id,
        ).0,
        ..a
    }
}

/// Moves that stand are filed under their plies, and signed.
pub proof fn lemma_standing_moves_sound(
    m: Map<u32, AuthorizedMove>,
    game_id: GameId,
    keys: Option<(VerifyingKey, VerifyingKey)>,
)
    requires
        moves_pruned(m, game_id, keys) == m,
    ensures
        filed(m, move_key()),
        forall|k: u32|
            #[trigger] m.contains_key(k) ==> signed_move_fault(m[k], game_id) is None,
{
    let n = kept_len(m, game_id, keys);
    assert forall|k: u32| #[trigger] m.contains_key(k) implies m[k].ply == k && signed_move_fault(
        m[k],
        game_id,
    ) is None by {
        assert(moves_pruned(m, game_id, keys).contains_key(k));
        assert(below(n)(k, m[k]));
        lemma_leading(standing(run(m), game_id, keys->0), run_len(m));
        assert(standing(run(m), game_id, keys->0)(k as int));
        assert(run(m)[k as int] == m[k]);
    }
}

/// Attestations with which nothing is wrong are filed under their players, and
/// signed.
pub proof fn lemma_valid_clocks_sound(
    m: Map<PlayerId, ClockAttestation>,
    game_id: GameId,
    keys: Option<(VerifyingKey, VerifyingKey)>,
)
    requires
        m.dom().finite(),
        clocks_fault(m, game_id, keys) is None,
    ensures
        filed(m, clock_key()),
        forall|k: PlayerId|
            #[trigger] m.contains_key(k) ==> attestation_fault(m[k], game_id) is None,
{
    assert forall|k: PlayerId| #[trigger] m.contains_key(k) implies id_of(m[k].player) == k
        && attestation_fault(m[k], game_id) is None by {
        let i = crate::sorted_map::lemma_listing_place(m, k);
        let faults = filed_faults(m, game_id, keys->0);
        lemma_no_fault(faults, listing(m).len());
        assert(faults(i) is None);
    }
}

/// Claims with which nothing is wrong are sound.
pub proof fn lemma_valid_claims_sound(
    claims: Seq<SignedConclusion>,
    keys: Option<(VerifyingKey, VerifyingKey)>,
    game_id: GameId,
)
    requires
        claims_fault(claims, keys, game_id) is None,
    ensures
        claims_sound(claims, keys, game_id),
{
    assert forall|i: int| 0 <= i < claims.len() implies claim_fault(
        #[trigger] claims[i],
        keys,
        game_id,
    ) is None by {
        let faults = held_claim_faults(claims, keys, game_id);
        lemma_no_fault(faults, claims.len());
        assert(faults(i) is None);
    }
}

pub proof fn lemma_nothing_missing<K: crate::sorted_map::Ranked, R: crate::sync::Record>(
    m: Map<K, R::V>,
    marks: Seq<(K, u64)>,
)
    requires
        m =~= Map::<K, R::V>::empty(),
    ensures
        missing::<K, R>(listing(m), marks).len() == 0,
{
    lemma_listed(m);
    if listing(m).len() > 0 {
        lemma_listing_entry(m, 0);
    }
}

/// An update of play comes in alike with proposals and without.
proof fn lemma_play_comes_in_with_proposals(
    g: GameView,
    d: GameChange,
    params: ChessGameParametersV1,
)
    requires
        well_ordered(g.claims),
        sound_play(g, (GameChange { proposals: None, ..d }), params),
    ensures
        game_after(g, d, params).1 is None,
        but_proposals(game_after(g, d, params).0) == but_proposals(
            game_pruned(played_on(g, d, params), params),
        ),
        d.proposals is None ==> game_after(g, d, params).0 == game_pruned(
            played_on(g, d, params),
            params,
        ),
{
    let plain = GameChange { proposals: None, ..d };
    lemma_play_comes_in(g, plain, params);
    lemma_sound_moves_come_in(g.moves, moves_in(d), params.game_id);
    lemma_sound_attestations_come_in(g.clocks, clocks_in(d), params.game_id);
    lemma_sound_claims_come_in(g.claims, claims_in(d), keys_of(g), params.game_id);
    assert(moves_in(plain) == moves_in(d));
    let full = played_on(g, d, params);
    let g3 = with_moves(g, d, params).0;
    assert(g3 =~= GameView { moves: full.moves, ..g });
    let g4 = with_clocks(g3, d, params).0;
    assert(g4 =~= GameView { clocks: full.clocks, ..g3 });
    let g5 = with_claims(g4, d, params).0;
    assert(keys_of(g4) == keys_of(g));
    assert(g5 =~= full);
    let g6 = with_proposals(g5, d, params);
    assert(keys_of(g6) == keys_of(g5));
    assert(but_proposals(game_pruned(g6, params)) =~= but_proposals(game_pruned(full, params)));
}

/// Proposals do not decide who plays, nor what else is left of a game.
pub proof fn lemma_proposals_decide_nothing(g: GameView, params: ChessGameParametersV1)
    ensures
        keys_of(but_proposals(g)) == keys_of(g),
        but_proposals(game_pruned(g, params)) == game_pruned(but_proposals(g), params),
{
    let h = but_proposals(g);
    lemma_no_proposals(keys_of(g), true);
    lemma_no_proposals(keys_of(g), false);
    assert(but_proposals(game_pruned(g, params)) =~= game_pruned(h, params));
}

/// A copy in order is in order without its proposals.
pub proof fn lemma_whole_but_proposals(g: GameView, params: ChessGameParametersV1)
    requires
        whole(g, params),
    ensures
        whole(but_proposals(g), params),
{
    let h = but_proposals(g);
    lemma_proposals_decide_nothing(g, params);
    super::validity::law_no_proposals_stand(h, params);
    assert(keys_of(h) == keys_of(g));
}

/// A copy that takes in what another sends holds the two as one, whatever
/// either holds of proposals.
pub proof fn lemma_merging_joins(a: GameView, b: GameView, params: ChessGameParametersV1)
    requires
        whole(but_proposals(a), params),
        whole(but_proposals(b), params),
        kin(a, b),
    ensures
        game_merged(a, b, params).1 is None,
        but_proposals(game_merged(a, b, params).0) == but_proposals(
            game_pruned(copies_joined(a, b, params), params),
        ),
        b.proposals =~= Map::<[u8; 32], Proposed>::empty() && a.proposals =~= Map::<
            [u8; 32],
            Proposed,
        >::empty() ==> game_merged(a, b, params).0.proposals =~= Map::<[u8; 32], Proposed>::empty(),
{
    let keys = keys_of(a);
    let id = params.game_id;
    let told = game_told(a);
    let d = game_untold(b, told);
    assert(keys_of(b) == keys);
    lemma_proposals_decide_nothing(a, params);
    lemma_proposals_decide_nothing(b, params);
    assert(slot_pruned(but_proposals(b).slot) == b.slot);
    lemma_standing_moves_sound(b.moves, id, keys);
    lemma_valid_clocks_sound(b.clocks, id, keys);
    lemma_valid_claims_sound(b.claims, keys, id);
    assert(orders(move_over()));
    assert(orders(clock_over()));
    law_syncing_joins::<u32, AuthorizedMove>(a.moves, b.moves, move_key(), move_over());
    law_syncing_joins::<PlayerId, ClockAttestation>(
        a.clocks,
        b.clocks,
        clock_key(),
        clock_over(),
    );
    super::claims::lemma_syncing_claims(a.claims, b.claims, keys, id);
    let ms = missing::<u32, AuthorizedMove>(listing(b.moves), told.moves);
    let ks = missing::<PlayerId, ClockAttestation>(listing(b.clocks), told.clocks);
    let cs = untold_claims(b.claims, told.claims);
    assert(moves_in(d) =~= ms);
    assert(clocks_in(d) =~= ks);
    assert(claims_in(d) =~= cs);
    assert(d.setup is None);
    lemma_nothing_missing::<[u8; 32], SignedJoin>(b.slot.offers, told.slot.offers);
    assert(slot_pruned(b.slot) == b.slot);
    assert(d.slot is None);
    assert forall|i: int| 0 <= i < ms.len() implies signed_move_fault(
        #[trigger] ms[i],
        id,
    ) is None by {
        let k = choose|k: u32| b.moves.contains_key(k) && b.moves[k] == ms[i];
    }
    assert forall|i: int| 0 <= i < ks.len() implies attestation_fault(
        #[trigger] ks[i],
        id,
    ) is None by {
        let k = choose|k: PlayerId| b.clocks.contains_key(k) && b.clocks[k] == ks[i];
    }
    super::claims::lemma_untold_sound(a.claims, b.claims, keys, id);
    lemma_play_comes_in_with_proposals(a, d, params);
    assert(played_on(a, d, params) =~= copies_joined(a, b, params));
    if d == no_change() {
        assert(ms.len() == 0 && ks.len() == 0 && cs.len() == 0);
        assert(played_on(a, d, params) =~= a);
    }
    if b.proposals =~= Map::<[u8; 32], Proposed>::empty() && a.proposals =~= Map::<
        [u8; 32],
        Proposed,
    >::empty() {
        lemma_nothing_missing::<[u8; 32], SignedCertificateProposal>(b.proposals, told.proposals);
        lemma_no_proposals(keys, true);
        lemma_no_proposals(keys, false);
        assert(d.proposals is None);
    }
}

/// Two copies of a game that send each other what they were not told agree, up
/// to proposals for a certificate, even where a player signed two moves for one
/// ply.
pub proof fn law_copies_agree(a: GameView, b: GameView, params: ChessGameParametersV1)
    requires
        whole(a, params),
        whole(b, params),
        kin(a, b),
    ensures
        game_merged(a, b, params).1 is None,
        game_merged(b, a, params).1 is None,
        but_proposals(game_merged(a, b, params).0) == but_proposals(game_merged(b, a, params).0),
        a.proposals =~= Map::<[u8; 32], Proposed>::empty() && b.proposals =~= Map::<
            [u8; 32],
            Proposed,
        >::empty() ==> game_merged(a, b, params).0 == game_merged(b, a, params).0,
{
    lemma_kin_turned(a, b);
    lemma_whole_but_proposals(a, params);
    lemma_whole_but_proposals(b, params);
    lemma_merging_joins(a, b, params);
    lemma_merging_joins(b, a, params);
    lemma_joined_alike(a, b, params);
    if a.proposals =~= Map::<[u8; 32], Proposed>::empty() && b.proposals =~= Map::<
        [u8; 32],
        Proposed,
    >::empty() {
        let p = game_merged(a, b, params).0;
        let q = game_merged(b, a, params).0;
        assert(p =~= GameView { proposals: p.proposals, ..but_proposals(p) });
        assert(q =~= GameView { proposals: q.proposals, ..but_proposals(q) });
    }
}

pub proof fn lemma_kin_turned(a: GameView, b: GameView)
    requires
        kin(a, b),
    ensures
        kin(b, a),
{
    super::claims::lemma_apart_turned(a.claims, b.claims);
    super::claims::lemma_signatures_turned(a.claims, b.claims);
    lemma_maps_turned::<u32, AuthorizedMove>(a.moves, b.moves, move_over());
    lemma_maps_turned::<PlayerId, ClockAttestation>(a.clocks, b.clocks, clock_over());
}

/// Two copies are the same as one either way.
proof fn lemma_joined_alike(a: GameView, b: GameView, params: ChessGameParametersV1)
    requires
        whole(a, params),
        whole(b, params),
        kin(a, b),
    ensures
        but_proposals(game_pruned(copies_joined(a, b, params), params)) == but_proposals(
            game_pruned(copies_joined(b, a, params), params),
        ),
{
    let keys = keys_of(a);
    let id = params.game_id;
    let p = copies_joined(a, b, params);
    let q = copies_joined(b, a, params);
    assert(keys_of(b) == keys);
    assert(p.moves == q.moves) by {
        assert(orders(move_over()));
        law_joining_commutes(a.moves, b.moves, move_over());
    }
    assert(p.clocks == q.clocks) by {
        assert(orders(clock_over()));
        law_joining_commutes(a.clocks, b.clocks, clock_over());
    }
    assert(p.claims == q.claims) by {
        lemma_valid_claims_sound(a.claims, keys, id);
        lemma_valid_claims_sound(b.claims, keys, id);
        law_claims_agree(a.claims, b.claims, keys, id);
    }
    assert(p.slot == q.slot) by {
        assert(slot_pruned(a.slot) == a.slot);
        assert(slot_pruned(b.slot) == b.slot);
        assert(a.slot =~= b.slot);
    }
    assert(keys_of(p) == keys_of(q));
    let x = game_pruned(p, params);
    let y = game_pruned(q, params);
    assert(but_proposals(x) =~= but_proposals(y));
}

pub proof fn lemma_maps_turned<K, R: crate::sync::Record>(
    a: Map<K, R::V>,
    b: Map<K, R::V>,
    over: spec_fn(R::V, R::V) -> bool,
)
    requires
        marks_tell::<K, R>(a, b),
        all_apart(over, a, b),
    ensures
        marks_tell::<K, R>(b, a),
        all_apart(over, b, a),
{
    assert forall|k: K|
        #![trigger b.contains_key(k), a.contains_key(k)]
        b.contains_key(k) && a.contains_key(k) implies apart(over, b[k], a[k]) && (R::mark_of(
        b[k],
    ) == R::mark_of(a[k]) ==> b[k] == a[k]) by {
        assert(apart(over, a[k], b[k]));
    }
}

} // verus!
