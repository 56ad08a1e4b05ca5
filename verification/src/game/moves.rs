//! The signed moves.
//!
//! A move is signed over the game, its ply, the move and the time. It counts
//! only under the key of the side to move at that ply, so nobody but the two
//! players can move, and neither can move for the other.

use super::{domain, domain_bytes, sig_less, sig_rank, ChessGameParametersV1, ChessGameStateV1};
use crate::bytes::{le32, le_i64, push_all, push_i64, push_u32};
use crate::chess::board::{all_valid, move_error_text};
use crate::chess::game::{line_after, line_fault, line_next, new_line, replay_fault, Game, Line};
use crate::chess::types::{move_bytes, Move};
use crate::crypto::{Signature, SigningKey, VerifyingKey};
use crate::identity::{digest_of, sig_fault, signature_digest, verify_sig, GameId};
use crate::prefix::{leading, lemma_leading, lemma_leading_is};
use crate::sorted_map::{
    lemma_flagged_map, lemma_listed, lemma_listing_entry, lemma_listing_place, listing, restricted,
    views, SortedMap,
};
use crate::sync::{held, marks_of, missing, missing_from, summarize_map, Record};
use crate::text::{
    digits, fault, first_fault, lemma_first_fault_stays, lemma_no_fault, number_after,
    push_decimal, with_number,
};
use vstd::prelude::*;
use vstd::string::*;

verus! {

/// A move, signed by the player who made it.
#[derive(Debug, Clone, Copy, PartialEq, Eq)]
pub struct AuthorizedMove {
    /// The half-move's number, from 0 for White's first.
    pub ply: u32,
    pub mv: Move,
    /// When the move was made, in Unix milliseconds.
    pub played_at: i64,
    /// The mover's key.
    pub player: VerifyingKey,
    pub signature: Signature,
}

impl View for AuthorizedMove {
    type V = AuthorizedMove;

    open spec fn view(&self) -> AuthorizedMove {
        *self
    }
}

impl Record for AuthorizedMove {
    open spec fn mark_of(v: AuthorizedMove) -> u64 {
        digest_of(v.signature)
    }

    fn read_mark(&self) -> (r: u64) {
        signature_digest(&self.signature)
    }

    fn duplicate(&self) -> (r: Self) {
        *self
    }
}

/// What a mover signs.
pub open spec fn signed_move_bytes(game_id: GameId, ply: u32, mv: Move, played_at: i64) -> Seq<u8> {
    domain("move:"@) + game_id.0@ + le32(ply) + move_bytes(mv) + le_i64(played_at)
}

/// What is wrong with a signed move by itself.
pub open spec fn signed_move_fault(am: AuthorizedMove, game_id: GameId) -> Option<Seq<char>> {
    if am.played_at <= 0 {
        Some("move at ply "@ + digits(am.ply as nat) + " has non-positive timestamp"@)
    } else {
        sig_fault(
            am.player,
            signed_move_bytes(game_id, am.ply, am.mv, am.played_at),
            am.signature,
            "move at ply "@ + digits(am.ply as nat),
        )
    }
}

impl AuthorizedMove {
    fn signing_bytes(game_id: &GameId, ply: u32, mv: &Move, played_at: i64) -> (r: Vec<u8>)
        ensures
            r@ == signed_move_bytes(*game_id, ply, *mv, played_at),
    {
        let mut buf = domain_bytes("move:");
        push_all(&mut buf, game_id.0.as_slice());
        push_u32(&mut buf, ply);
        let bytes = mv.signing_bytes();
        push_all(&mut buf, bytes.as_slice());
        push_i64(&mut buf, played_at);
        buf
    }

    pub fn new(key: &SigningKey, game_id: &GameId, ply: u32, mv: Move, played_at: i64) -> (r:
        AuthorizedMove)
        ensures
            r.ply == ply,
            r.mv == mv,
            r.played_at == played_at,
            r.player == key.public(),
            r.signature == key.signed(signed_move_bytes(*game_id, ply, mv, played_at)),
            played_at > 0 ==> signed_move_fault(r, *game_id) is None,
    {
        let message = AuthorizedMove::signing_bytes(game_id, ply, &mv, played_at);
        let signature = key.sign(message.as_slice());
        AuthorizedMove { ply, mv, played_at, player: key.verifying_key(), signature }
    }

    /// Whether the move is its author's. That its author may make it is
    /// another matter.
    pub fn verify_signature(&self, game_id: &GameId) -> (r: Result<(), String>)
        ensures
            fault(r) == signed_move_fault(*self, *game_id),
    {
        if self.played_at <= 0 {
            return Err(with_number("move at ply ", self.ply as u128, " has non-positive timestamp"));
        }
        let message = AuthorizedMove::signing_bytes(game_id, self.ply, &self.mv, self.played_at);
        let what = number_after("move at ply ", self.ply as u128);
        verify_sig(&self.player, message.as_slice(), &self.signature, what.as_str())
    }
}

/// How many plies, from the first, have a move.
pub open spec fn run_len(m: Map<u32, AuthorizedMove>) -> nat {
    leading(|i: int| m.contains_key(i as u32), u32::MAX as nat)
}

/// The moves from the first ply up to the first gap.
pub open spec fn run(m: Map<u32, AuthorizedMove>) -> Seq<AuthorizedMove> {
    Seq::new(run_len(m), |i: int| m[i as u32])
}

pub open spec fn moves_of(run: Seq<AuthorizedMove>) -> Seq<Move> {
    Seq::new(run.len(), |i: int| run[i].mv)
}

pub open spec fn stamps_of(run: Seq<AuthorizedMove>) -> Seq<i64> {
    Seq::new(run.len(), |i: int| run[i].played_at)
}

/// Moves name squares of the board.
pub open spec fn moves_valid(m: Map<u32, AuthorizedMove>) -> bool {
    forall|k: u32| #[trigger] m.contains_key(k) ==> m[k].mv.valid()
}

/// The key that owns the side to move at a ply. White plays the even ones.
pub open spec fn key_at(keys: (VerifyingKey, VerifyingKey), ply: int) -> VerifyingKey {
    if ply % 2 == 0 {
        keys.0
    } else {
        keys.1
    }
}

/// Where the game stands before a ply.
pub open spec fn line_before(run: Seq<AuthorizedMove>, i: int) -> Line {
    line_after(new_line(), moves_of(run).take(i))
}

/// Whether the move at a ply stands, given that those before it do: it is its
/// mover's, its mover's to make, in time, and legal.
pub open spec fn stands(
    run: Seq<AuthorizedMove>,
    game_id: GameId,
    keys: (VerifyingKey, VerifyingKey),
    i: int,
) -> bool {
    &&& run[i].player == key_at(keys, i)
    &&& run[i].ply == i
    &&& signed_move_fault(run[i], game_id) is None
    &&& i > 0 ==> run[i - 1].played_at <= run[i].played_at
    &&& line_fault(line_before(run, i), run[i].mv) is None
}

pub open spec fn standing(
    run: Seq<AuthorizedMove>,
    game_id: GameId,
    keys: (VerifyingKey, VerifyingKey),
) -> spec_fn(int) -> bool {
    |i: int| stands(run, game_id, keys, i)
}

/// How many moves stand.
pub open spec fn kept_len(
    m: Map<u32, AuthorizedMove>,
    game_id: GameId,
    keys: Option<(VerifyingKey, VerifyingKey)>,
) -> nat {
    match keys {
        Some(ks) => leading(standing(run(m), game_id, ks), run_len(m)),
        None => 0,
    }
}

/// The entries below a ply.
pub open spec fn below(n: nat) -> spec_fn(u32, AuthorizedMove) -> bool {
    |k: u32, am: AuthorizedMove| (k as nat) < n
}

/// The moves that stand.
pub open spec fn moves_pruned(
    m: Map<u32, AuthorizedMove>,
    game_id: GameId,
    keys: Option<(VerifyingKey, VerifyingKey)>,
) -> Map<u32, AuthorizedMove> {
    restricted(m, below(kept_len(m, game_id, keys)))
}

/// The moves in the order of their plies.
pub open spec fn listed_moves(m: Map<u32, AuthorizedMove>) -> Seq<AuthorizedMove> {
    Seq::new(listing(m).len(), |i: int| listing(m)[i].1)
}

/// Whether the plies run from 0 without a gap.
pub open spec fn gapless(m: Map<u32, AuthorizedMove>) -> bool {
    forall|i: int| 0 <= i < listing(m).len() ==> (#[trigger] listing(m)[i]).0 == i
}

/// What is wrong with the move at a ply, where those before it are right.
pub open spec fn ply_fault(
    run: Seq<AuthorizedMove>,
    game_id: GameId,
    keys: (VerifyingKey, VerifyingKey),
    i: int,
) -> Option<Seq<char>> {
    let ply = digits(i as nat);
    if run[i].ply != i {
        Some("move stored at ply "@ + ply + " claims ply "@ + digits(run[i].ply as nat))
    } else if run[i].player != key_at(keys, i) {
        Some(
            "move at ply "@ + ply
                + " was signed by a key that does not own the side to move"@,
        )
    } else if signed_move_fault(run[i], game_id) is Some {
        signed_move_fault(run[i], game_id)
    } else if i > 0 && run[i].played_at < run[i - 1].played_at {
        Some("move at ply "@ + ply + " goes backwards in time"@)
    } else {
        match line_fault(line_before(run, i), run[i].mv) {
            Some(e) => Some("illegal move at ply "@ + ply + ": "@ + move_error_text(e)),
            None => None,
        }
    }
}

pub open spec fn ply_faults(
    run: Seq<AuthorizedMove>,
    game_id: GameId,
    keys: (VerifyingKey, VerifyingKey),
) -> spec_fn(int) -> Option<Seq<char>> {
    |i: int| ply_fault(run, game_id, keys, i)
}

/// What is wrong with a game's moves.
pub open spec fn moves_fault(
    m: Map<u32, AuthorizedMove>,
    game_id: GameId,
    keys: Option<(VerifyingKey, VerifyingKey)>,
) -> Option<Seq<char>> {
    if listing(m).len() == 0 {
        None
    } else if keys is None {
        Some("moves recorded before an opponent joined the game"@)
    } else if !gapless(m) {
        Some("move list has gaps or out-of-range plies"@)
    } else {
        first_fault(ply_faults(listed_moves(m), game_id, keys->0), listing(m).len())
    }
}

/// Of two moves at one ply the one whose signature comes first stays.
pub open spec fn absorb_move(
    m: Map<u32, AuthorizedMove>,
    am: AuthorizedMove,
) -> Map<u32, AuthorizedMove> {
    if m.contains_key(am.ply) && sig_rank(m[am.ply].signature) <= sig_rank(am.signature) {
        m
    } else {
        m.insert(am.ply, am)
    }
}

/// The moves once a list of them has come in, up to the first bad one, and
/// what was wrong with that.
pub open spec fn moves_after(
    m: Map<u32, AuthorizedMove>,
    incoming: Seq<AuthorizedMove>,
    game_id: GameId,
) -> (Map<u32, AuthorizedMove>, Option<Seq<char>>)
    decreases incoming.len(),
{
    if incoming.len() == 0 {
        (m, None)
    } else {
        let (before, e) = moves_after(m, incoming.drop_last(), game_id);
        if e is Some {
            (before, e)
        } else if signed_move_fault(incoming.last(), game_id) is Some {
            (before, signed_move_fault(incoming.last(), game_id))
        } else {
            (absorb_move(before, incoming.last()), None)
        }
    }
}

/// Nothing comes in after a bad move.
proof fn lemma_moves_stop(
    m: Map<u32, AuthorizedMove>,
    incoming: Seq<AuthorizedMove>,
    game_id: GameId,
    n: int,
)
    requires
        0 <= n <= incoming.len(),
        moves_after(m, incoming.take(n), game_id).1 is Some,
    ensures
        moves_after(m, incoming, game_id) == moves_after(m, incoming.take(n), game_id),
    decreases incoming.len(),
{
    if n == incoming.len() {
        assert(incoming.take(n) =~= incoming);
    } else {
        assert(incoming.drop_last().take(n) =~= incoming.take(n));
        lemma_moves_stop(m, incoming.drop_last(), game_id, n);
    }
}

/// The moves of a game, by ply.
#[derive(Debug, Clone, PartialEq, Eq)]
pub struct MovesV1 {
    pub moves: SortedMap<u32, AuthorizedMove>,
}

impl View for MovesV1 {
    type V = Map<u32, AuthorizedMove>;

    open spec fn view(&self) -> Map<u32, AuthorizedMove> {
        self.moves@
    }
}

impl Default for MovesV1 {
    fn default() -> (r: Self)
        ensures
            r@ == Map::<u32, AuthorizedMove>::empty(),
    {
        MovesV1 { moves: SortedMap::new() }
    }
}

impl MovesV1 {
    pub fn is_empty(&self) -> (r: bool)
        ensures
            r == (listing(self@).len() == 0),
    {
        self.moves.len() == 0
    }

    pub fn len(&self) -> (r: usize)
        ensures
            r == listing(self@).len(),
            self@.dom().finite(),
            r == self@.dom().len(),
    {
        self.moves.len()
    }

    /// How many plies, from the first, have a move.
    fn run_length(&self) -> (r: u32)
        ensures
            r == run_len(self@),
    {
        let mut n: u32 = 0;
        let ghost good = |i: int| self@.contains_key(i as u32);
        while n < u32::MAX && self.moves.contains_key(&n)
            invariant
                good == (|i: int| self@.contains_key(i as u32)),
                forall|i: int| 0 <= i < n ==> #[trigger] good(i),
            decreases u32::MAX - n,
        {
            assert(good(n as int));
            n = n + 1;
        }
        proof {
            lemma_leading_is(good, u32::MAX as nat, n as nat);
        }
        n
    }

    /// The move at a ply of the run.
    fn at(&self, ply: u32) -> (r: AuthorizedMove)
        requires
            ply < run_len(self@),
        ensures
            r == run(self@)[ply as int],
            self@.contains_key(ply),
            r == self@[ply],
    {
        let ghost good = |i: int| self@.contains_key(i as u32);
        proof {
            lemma_leading(good, u32::MAX as nat);
            assert(good(ply as int));
        }
        *self.moves.get(&ply).unwrap()
    }

    /// The moves from the first ply up to the first gap.
    pub fn move_list(&self) -> (r: Vec<Move>)
        ensures
            r@ == moves_of(run(self@)),
            moves_valid(self@) ==> all_valid(r@),
    {
        let n = self.run_length();
        let mut out: Vec<Move> = Vec::new();
        let mut ply: u32 = 0;
        while ply < n
            invariant
                ply <= n,
                n == run_len(self@),
                out@ == moves_of(run(self@)).take(ply as int),
                moves_valid(self@) ==> all_valid(out@),
            decreases n - ply,
        {
            out.push(self.at(ply).mv);
            assert(out@ =~= moves_of(run(self@)).take(ply + 1));
            ply = ply + 1;
        }
        assert(out@ =~= moves_of(run(self@)));
        out
    }

    /// The times of the moves from the first ply up to the first gap.
    pub fn timestamps(&self) -> (r: Vec<i64>)
        ensures
            r@ == stamps_of(run(self@)),
            r@.len() <= u32::MAX,
    {
        let n = self.run_length();
        let mut out: Vec<i64> = Vec::new();
        let mut ply: u32 = 0;
        while ply < n
            invariant
                ply <= n,
                n == run_len(self@),
                out@ == stamps_of(run(self@)).take(ply as int),
            decreases n - ply,
        {
            out.push(self.at(ply).played_at);
            assert(out@ =~= stamps_of(run(self@)).take(ply + 1));
            ply = ply + 1;
        }
        assert(out@ =~= stamps_of(run(self@)));
        out
    }

    fn absorb(&mut self, incoming: AuthorizedMove)
        ensures
            final(self)@ == absorb_move(old(self)@, incoming),
    {
        let stays = match self.moves.get(&incoming.ply) {
            Some(existing) => !sig_less(&incoming.signature, &existing.signature),
            None => false,
        };
        if !stays {
            self.moves.insert(incoming.ply, incoming);
        }
    }

    /// How many moves stand.
    fn standing_length(&self, game_id: &GameId, keys: (VerifyingKey, VerifyingKey)) -> (r: u32)
        requires
            moves_valid(self@),
        ensures
            r == kept_len(self@, *game_id, Some(keys)),
    {
        let n = self.run_length();
        let ghost all = run(self@);
        let ghost good = standing(all, *game_id, keys);
        let mut game = Game::new();
        let mut last: i64 = i64::MIN;
        let mut ply: u32 = 0;
        assert(moves_of(all).take(0) =~= Seq::<Move>::empty());
        while ply < n
            invariant
                ply <= n,
                n == run_len(self@),
                moves_valid(self@),
                all == run(self@),
                good == standing(all, *game_id, keys),
                game.wf(),
                game.line() == line_before(all, ply as int),
                last == (if ply == 0 {
                    i64::MIN
                } else {
                    all[ply - 1].played_at
                }),
                forall|i: int| 0 <= i < ply ==> #[trigger] good(i),
            decreases n - ply,
        {
            let am = self.at(ply);
            let expected = if ply % 2 == 0 {
                keys.0
            } else {
                keys.1
            };
            let mut fine = am.player.same(&expected) && am.ply == ply && am.played_at >= last;
            if fine {
                fine = match am.verify_signature(game_id) {
                    Ok(()) => true,
                    Err(_) => false,
                };
            }
            if fine {
                let ghost before = game;
                fine = match game.play(am.mv) {
                    Ok(_) => true,
                    Err(_) => false,
                };
                proof {
                    let next = moves_of(all).take(ply + 1);
                    assert(next.drop_last() =~= moves_of(all).take(ply as int));
                    assert(next.last() == am.mv);
                }
            }
            assert(good(ply as int) == fine);
            if !fine {
                proof {
                    lemma_leading_is(good, n as nat, ply as nat);
                }
                return ply;
            }
            last = am.played_at;
            ply = ply + 1;
        }
        proof {
            lemma_leading_is(good, n as nat, ply as nat);
        }
        ply
    }

    /// Keep the moves that stand.
    pub fn prune(&mut self, game_id: &GameId, keys: Option<(VerifyingKey, VerifyingKey)>)
        requires
            moves_valid(old(self)@),
        ensures
            final(self)@ == moves_pruned(old(self)@, *game_id, keys),
            moves_valid(final(self)@),
    {
        let keep: u32 = match keys {
            Some(ks) => self.standing_length(game_id, ks),
            None => 0,
        };
        let n = self.moves.len();
        let ghost es = self.moves.spec_entries();
        let ghost cond = below(keep as nat);
        let mut flags: Vec<bool> = Vec::new();
        let mut i: usize = 0;
        while i < n
            invariant
                i <= n,
                n == self.moves.spec_entries().len(),
                es == self.moves.spec_entries(),
                cond == below(keep as nat),
                flags@.len() == i,
                forall|j: int| 0 <= j < i ==> #[trigger] flags@[j] == cond(es[j].0, es[j].1),
            decreases n - i,
        {
            flags.push(self.moves.key_at(i) < keep);
            i = i + 1;
        }
        self.moves.keep_flagged(&flags);
        proof {
            lemma_flagged_map(es, flags@, cond);
        }
    }

    /// Check every move against the two players.
    pub fn check(&self, game_id: &GameId, keys: Option<(VerifyingKey, VerifyingKey)>) -> (r: Result<
        (),
        String,
    >)
        requires
            moves_valid(self@),
        ensures
            fault(r) == moves_fault(self@, *game_id, keys),
    {
        let n = self.moves.len();
        if n == 0 {
            return Ok(());
        }
        let ks = match keys {
            Some(ks) => ks,
            None => {
                return Err("moves recorded before an opponent joined the game".to_string());
            },
        };
        let mut i: usize = 0;
        while i < n
            invariant
                i <= n,
                n == listing(self@).len(),
                n == self.moves.spec_entries().len(),
                self.moves.spec_entries() == listing(self@),
                keys == Some(ks),
                listing(self@).len() > 0,
                forall|j: int| 0 <= j < i ==> (#[trigger] listing(self@)[j]).0 == j,
            decreases n - i,
        {
            if self.moves.key_at(i) as usize != i {
                assert(listing(self@)[i as int].0 != i);
                assert(!gapless(self@));
                return Err("move list has gaps or out-of-range plies".to_string());
            }
            i = i + 1;
        }
        assert(gapless(self@));
        self.check_plies(game_id, ks)
    }

    fn check_plies(&self, game_id: &GameId, keys: (VerifyingKey, VerifyingKey)) -> (r: Result<
        (),
        String,
    >)
        requires
            moves_valid(self@),
            gapless(self@),
        ensures
            fault(r) == first_fault(
                ply_faults(listed_moves(self@), *game_id, keys),
                listing(self@).len(),
            ),
    {
        let n = self.moves.len();
        let ghost all = listed_moves(self@);
        let ghost faults = ply_faults(all, *game_id, keys);
        let mut game = Game::new();
        let mut last: i64 = i64::MIN;
        let mut i: usize = 0;
        assert(moves_of(all).take(0) =~= Seq::<Move>::empty());
        while i < n
            invariant
                i <= n,
                n == listing(self@).len(),
                n == self.moves.spec_entries().len(),
                self.moves.spec_entries() == listing(self@),
                self@.dom().finite(),
                moves_valid(self@),
                gapless(self@),
                all == listed_moves(self@),
                faults == ply_faults(all, *game_id, keys),
                game.wf(),
                game.line() == line_before(all, i as int),
                last == (if i == 0 {
                    i64::MIN
                } else {
                    all[i - 1].played_at
                }),
                first_fault(faults, i as nat) is None,
            decreases n - i,
        {
            let am = *self.moves.value_at(i);
            let ply = self.moves.key_at(i);
            proof {
                assert(listing(self@)[i as int].0 == i);
                lemma_listing_entry(self@, i as int);
                assert(all[i as int] == am);
                let next = moves_of(all).take(i + 1);
                assert(next.drop_last() =~= moves_of(all).take(i as int));
                assert(next.last() == am.mv);
            }
            match AuthorizedMove::check_ply(&am, ply, keys, last, game_id, &mut game) {
                Ok(()) => {},
                Err(e) => {
                    proof {
                        assert(faults(i as int) == Some(e@));
                        lemma_first_fault_stays(faults, (i + 1) as nat, n as nat);
                    }
                    return Err(e);
                },
            }
            assert(faults(i as int) is None);
            last = am.played_at;
            i = i + 1;
        }
        Ok(())
    }

    pub fn verify(&self, parent: &ChessGameStateV1, params: &ChessGameParametersV1) -> (r: Result<
        (),
        String,
    >)
        requires
            moves_valid(self@),
        ensures
            fault(r) == moves_fault(self@, params.game_id, super::keys_of(parent@)),
    {
        self.check(&params.game_id, parent.player_keys())
    }

    pub fn summarize(&self, _parent: &ChessGameStateV1, _params: &ChessGameParametersV1) -> (r: Vec<
        (u32, u64),
    >)
        ensures
            r@ == marks_of::<u32, AuthorizedMove>(listing(self@)),
    {
        assert(views(self.moves@) =~= self.moves@);
        summarize_map(&self.moves)
    }

    pub fn delta(
        &self,
        _parent: &ChessGameStateV1,
        _params: &ChessGameParametersV1,
        old_summary: &Vec<(u32, u64)>,
    ) -> (r: Option<Vec<AuthorizedMove>>)
        ensures
            match r {
                Some(d) => d@ == missing::<u32, AuthorizedMove>(listing(self@), old_summary@) && d@.len() > 0,
                None => missing::<u32, AuthorizedMove>(listing(self@), old_summary@).len() == 0,
            },
    {
        assert(views(self.moves@) =~= self.moves@);
        let out = missing_from(&self.moves, old_summary);
        assert(held(out@) =~= out@);
        if out.len() == 0 {
            None
        } else {
            Some(out)
        }
    }

    /// Take in moves, up to the first bad one.
    pub fn take_in(&mut self, game_id: &GameId, incoming: &Vec<AuthorizedMove>) -> (r: Result<
        (),
        String,
    >)
        ensures
            (final(self)@, fault(r)) == moves_after(old(self)@, incoming@, *game_id),
    {
        let ghost before = self@;
        let mut i: usize = 0;
        while i < incoming.len()
            invariant
                i <= incoming@.len(),
                before == old(self)@,
                moves_after(before, incoming@.take(i as int), *game_id) == (
                    self@,
                    None::<Seq<char>>,
                ),
            decreases incoming.len() - i,
        {
            let ghost next = incoming@.take(i + 1);
            assert(next.drop_last() =~= incoming@.take(i as int));
            assert(next.last() == incoming@[i as int]);
            match incoming[i].verify_signature(game_id) {
                Ok(()) => {},
                Err(e) => {
                    proof {
                        lemma_moves_stop(before, incoming@, *game_id, i + 1);
                    }
                    return Err(e);
                },
            }
            self.absorb(incoming[i]);
            i = i + 1;
        }
        assert(incoming@.take(incoming@.len() as int) =~= incoming@);
        Ok(())
    }

    pub fn apply_delta(
        &mut self,
        _parent: &ChessGameStateV1,
        params: &ChessGameParametersV1,
        delta: &Option<Vec<AuthorizedMove>>,
    ) -> (r: Result<(), String>)
        ensures
            match *delta {
                Some(d) => (final(self)@, fault(r)) == moves_after(old(self)@, d@, params.game_id),
                None => r is Ok && final(self)@ == old(self)@,
            },
    {
        match delta {
            Some(d) => self.take_in(&params.game_id, d),
            None => Ok(()),
        }
    }
}

impl AuthorizedMove {
    /// Check the move at a ply, and play it where it is right.
    fn check_ply(
        am: &AuthorizedMove,
        ply: u32,
        keys: (VerifyingKey, VerifyingKey),
        last: i64,
        game_id: &GameId,
        game: &mut Game,
    ) -> (r: Result<(), String>)
        requires
            am.mv.valid(),
            old(game).wf(),
        ensures
            final(game).wf(),
            fault(r) is None ==> final(game).line() == line_next(old(game).line(), am.mv),
            fault(r) == (if am.ply != ply {
                Some(
                    "move stored at ply "@ + digits(ply as nat) + " claims ply "@ + digits(
                        am.ply as nat,
                    ),
                )
            } else if am.player != key_at(keys, ply as int) {
                Some(
                    "move at ply "@ + digits(ply as nat)
                        + " was signed by a key that does not own the side to move"@,
                )
            } else if signed_move_fault(*am, *game_id) is Some {
                signed_move_fault(*am, *game_id)
            } else if am.played_at < last {
                Some("move at ply "@ + digits(ply as nat) + " goes backwards in time"@)
            } else {
                match line_fault(old(game).line(), am.mv) {
                    Some(e) => Some(
                        "illegal move at ply "@ + digits(ply as nat) + ": "@ + move_error_text(e),
                    ),
                    None => None,
                }
            }),
    {
        if am.ply != ply {
            let mut text = with_number("move stored at ply ", ply as u128, " claims ply ");
            push_decimal(&mut text, am.ply as u128);
            return Err(text);
        }
        let expected = if ply % 2 == 0 {
            keys.0
        } else {
            keys.1
        };
        if !am.player.same(&expected) {
            return Err(
                with_number(
                    "move at ply ",
                    ply as u128,
                    " was signed by a key that does not own the side to move",
                ),
            );
        }
        match am.verify_signature(game_id) {
            Ok(()) => {},
            Err(e) => return Err(e),
        }
        if am.played_at < last {
            return Err(with_number("move at ply ", ply as u128, " goes backwards in time"));
        }
        let failed = match game.play(am.mv) {
            Ok(_) => None,
            Err(e) => Some(e),
        };
        match failed {
            None => Ok(()),
            Some(e) => {
                let mut text = with_number("illegal move at ply ", ply as u128, ": ");
                let why = e.message();
                text.push_str(why.as_str());
                Err(text)
            },
        }
    }
}

/// Two moves come in alike in either order. Where two moves at one ply share a
/// signature they must be one move.
pub proof fn law_moves_commute(
    m: Map<u32, AuthorizedMove>,
    a: AuthorizedMove,
    b: AuthorizedMove,
)
    requires
        sig_rank(a.signature) == sig_rank(b.signature) ==> a == b,
    ensures
        absorb_move(absorb_move(m, a), b) == absorb_move(absorb_move(m, b), a),
{
    assert(absorb_move(absorb_move(m, a), b) =~= absorb_move(absorb_move(m, b), a));
}

/// A move that came in already changes nothing.
pub proof fn law_moves_come_in_once(m: Map<u32, AuthorizedMove>, a: AuthorizedMove)
    ensures
        absorb_move(absorb_move(m, a), a) == absorb_move(m, a),
{
}

/// What pruning leaves is the front of the run.
pub proof fn lemma_pruned_run(
    m: Map<u32, AuthorizedMove>,
    game_id: GameId,
    keys: Option<(VerifyingKey, VerifyingKey)>,
)
    ensures
        run_len(moves_pruned(m, game_id, keys)) == kept_len(m, game_id, keys),
        kept_len(m, game_id, keys) <= run_len(m),
        run(moves_pruned(m, game_id, keys)) == run(m).take(kept_len(m, game_id, keys) as int),
{
    let n = kept_len(m, game_id, keys);
    let p = moves_pruned(m, game_id, keys);
    let good = |i: int| m.contains_key(i as u32);
    lemma_leading(good, u32::MAX as nat);
    if keys is Some {
        lemma_leading(standing(run(m), game_id, keys->0), run_len(m));
    }
    let left = |i: int| p.contains_key(i as u32);
    assert forall|i: int| 0 <= i < n implies #[trigger] left(i) by {
        assert(good(i));
    }
    lemma_leading_is(left, u32::MAX as nat, n);
    assert forall|i: int| 0 <= i < n implies #[trigger] p[i as u32] == m[i as u32] by {
        assert(left(i));
    }
    assert(run(p) =~= run(m).take(n as int));
}

/// The front of a run stands where the run does.
pub proof fn lemma_front_stands(
    all: Seq<AuthorizedMove>,
    n: int,
    game_id: GameId,
    keys: (VerifyingKey, VerifyingKey),
    i: int,
)
    requires
        0 <= i < n <= all.len(),
    ensures
        stands(all.take(n), game_id, keys, i) == stands(all, game_id, keys, i),
{
    assert(moves_of(all.take(n)).take(i) =~= moves_of(all).take(i));
}

/// Pruning what was pruned changes nothing.
pub proof fn law_pruning_moves_is_idempotent(
    m: Map<u32, AuthorizedMove>,
    game_id: GameId,
    keys: Option<(VerifyingKey, VerifyingKey)>,
)
    ensures
        moves_pruned(moves_pruned(m, game_id, keys), game_id, keys) == moves_pruned(
            m,
            game_id,
            keys,
        ),
{
    let n = kept_len(m, game_id, keys);
    let p = moves_pruned(m, game_id, keys);
    lemma_pruned_run(m, game_id, keys);
    if keys is Some {
        let ks = keys->0;
        let good = standing(run(m), game_id, ks);
        lemma_leading(good, run_len(m));
        let left = standing(run(p), game_id, ks);
        assert forall|i: int| 0 <= i < n implies #[trigger] left(i) by {
            assert(good(i));
            lemma_front_stands(run(m), n as int, game_id, ks, i);
        }
        lemma_leading_is(left, n, n);
    }
    assert(moves_pruned(p, game_id, keys) =~= p);
}

/// What pruning leaves passes the check that a whole record is put to.
pub proof fn law_pruned_moves_pass(
    m: Map<u32, AuthorizedMove>,
    game_id: GameId,
    keys: Option<(VerifyingKey, VerifyingKey)>,
)
    requires
        m.dom().finite(),
    ensures
        moves_fault(moves_pruned(m, game_id, keys), game_id, keys) is None,
{
    let n = kept_len(m, game_id, keys);
    let p = moves_pruned(m, game_id, keys);
    lemma_pruned_run(m, game_id, keys);
    assert(p.dom().subset_of(m.dom()));
    vstd::set_lib::lemma_len_subset(p.dom(), m.dom());
    lemma_run_is_all(p, n);
    if keys is Some {
        let ks = keys->0;
        let good = standing(run(m), game_id, ks);
        lemma_leading(good, run_len(m));
        let faults = ply_faults(listed_moves(p), game_id, ks);
        assert forall|i: int| 0 <= i < n implies (#[trigger] faults(i)) is None by {
            assert(good(i));
            lemma_front_stands(run(m), n as int, game_id, ks, i);
        }
        lemma_no_fault(faults, n);
    }
}

/// A record of plies below `n`, all of them, lists its run.
pub proof fn lemma_run_is_all(p: Map<u32, AuthorizedMove>, n: nat)
    requires
        p.dom().finite(),
        n == run_len(p),
        forall|k: u32| p.contains_key(k) ==> (k as nat) < n,
    ensures
        gapless(p),
        listing(p).len() == n,
        listed_moves(p) == run(p),
{
    lemma_listed(p);
    let es = listing(p);
    let good = |i: int| p.contains_key(i as u32);
    lemma_leading(good, u32::MAX as nat);
    let want = Seq::new(n, |i: int| (i as u32, p[i as u32]));
    assert forall|i: int, j: int| 0 <= i < j < want.len() implies crate::sorted_map::Ranked::rank(
        (#[trigger] want[i]).0,
    ) < crate::sorted_map::Ranked::rank((#[trigger] want[j]).0) by {}
    assert forall|k: u32| crate::sorted_map::as_map(want).contains_key(k) <==> p.contains_key(
        k,
    ) by {
        if p.contains_key(k) {
            assert(want[k as int].0 == k);
        }
        if crate::sorted_map::has_key(want, k) {
            let i = crate::sorted_map::index_of_key(want, k);
            assert(good(i));
        }
    }
    assert forall|k: u32| p.contains_key(k) implies crate::sorted_map::as_map(want)[k] == p[k] by {
        crate::sorted_map::lemma_as_map_entry(want, k as int);
    }
    assert(crate::sorted_map::as_map(want) =~= p);
    crate::sorted_map::lemma_listing(want);
    assert(es == want);
    assert(listed_moves(p) =~= run(p));
}

/// The moves that stand can be played through.
pub proof fn law_standing_moves_replay(
    m: Map<u32, AuthorizedMove>,
    game_id: GameId,
    keys: (VerifyingKey, VerifyingKey),
)
    ensures
        replay_fault(new_line(), moves_of(run(moves_pruned(m, game_id, Some(keys))))) is None,
{
    lemma_pruned_run(m, game_id, Some(keys));
    let n = kept_len(m, game_id, Some(keys));
    lemma_leading(standing(run(m), game_id, keys), run_len(m));
    lemma_prefix_replays(run(m), game_id, keys, n as int);
    assert(moves_of(run(m).take(n as int)) =~= moves_of(run(m)).take(n as int));
}

proof fn lemma_prefix_replays(
    all: Seq<AuthorizedMove>,
    game_id: GameId,
    keys: (VerifyingKey, VerifyingKey),
    n: int,
)
    requires
        0 <= n <= all.len(),
        forall|i: int| 0 <= i < n ==> #[trigger] standing(all, game_id, keys)(i),
    ensures
        replay_fault(new_line(), moves_of(all).take(n)) is None,
    decreases n,
{
    if n > 0 {
        lemma_prefix_replays(all, game_id, keys, n - 1);
        assert(moves_of(all).take(n).drop_last() =~= moves_of(all).take(n - 1));
        assert(standing(all, game_id, keys)(n - 1));
    }
}

/// In a record that passes the check, every move was signed by the player whose
/// turn it was, for that game and that ply, no earlier than the one before it,
/// and it was legal where it was played.
pub proof fn law_moves_are_their_movers(
    m: Map<u32, AuthorizedMove>,
    game_id: GameId,
    keys: (VerifyingKey, VerifyingKey),
    ply: u32,
)
    requires
        m.dom().finite(),
        moves_fault(m, game_id, Some(keys)) is None,
        m.contains_key(ply),
    ensures
        ply < listed_moves(m).len(),
        listed_moves(m)[ply as int] == m[ply],
        stands(listed_moves(m), game_id, keys, ply as int),
{
    let i = crate::sorted_map::lemma_listing_place(m, ply);
    assert(gapless(m));
    let faults = ply_faults(listed_moves(m), game_id, keys);
    lemma_no_fault(faults, listing(m).len());
    assert(faults(i) is None);
}

} // verus!
