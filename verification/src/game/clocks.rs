//! The time each player has signed for.
//!
//! A record has no clock of its own, and a claim that an opponent ran out of
//! time is worth nothing on the claimant's word. So each player keeps signing
//! the time they see, and such a claim is judged by what the loser signed.

use super::setup::{estimated_secs, TimeControl};
use super::{domain, domain_bytes, sig_less, sig_rank, ChessGameParametersV1, ChessGameStateV1};
use crate::bytes::{le_i64, push_all, push_i64};
use crate::crypto::{Signature, SigningKey, VerifyingKey};
use crate::identity::{
    digest_of, id_of, sig_fault, signature_digest, verify_sig, GameId, PlayerId,
};
use crate::sorted_map::{lemma_flagged_map, listing, restricted, views, SortedMap};
use crate::sync::{held, marks_of, missing, missing_from, summarize_map, Record};
use crate::text::{fault, first_fault, lemma_first_fault_stays};
use vstd::prelude::*;
use vstd::string::*;

verus! {

/// How often a client signs the time anew.
pub const CLOCK_TICK_MS: i64 = 10_000;

/// The shortest silence that forfeits a game, whatever its clock.
pub const MIN_ABSENCE_FORFEIT_MS: i64 = 30_000;

/// The longest silence that a game's clock can call for.
pub const MAX_ABSENCE_FORFEIT_MS: i64 = 600_000;

/// How long a player may be silent before the game is forfeit: a tenth of the
/// time the game is taken to last, within bounds.
pub open spec fn absence_ms(tc: TimeControl) -> int {
    let tenth = estimated_secs(tc) * 100;
    if tenth < MIN_ABSENCE_FORFEIT_MS {
        MIN_ABSENCE_FORFEIT_MS as int
    } else if tenth > MAX_ABSENCE_FORFEIT_MS {
        MAX_ABSENCE_FORFEIT_MS as int
    } else {
        tenth
    }
}

/// How long a player may be silent before the game is forfeit.
pub fn absence_forfeit_ms(time_control: &TimeControl) -> (r: i64)
    ensures
        r == absence_ms(*time_control),
{
    let tenth: i64 = (time_control.initial_secs as i64 + 40 * time_control.increment_secs as i64)
        * 100;
    if tenth < MIN_ABSENCE_FORFEIT_MS {
        MIN_ABSENCE_FORFEIT_MS
    } else if tenth > MAX_ABSENCE_FORFEIT_MS {
        MAX_ABSENCE_FORFEIT_MS
    } else {
        tenth
    }
}

/// A player's signed word that they are here, and of the time they see.
#[derive(Debug, Clone, Copy, PartialEq, Eq)]
pub struct ClockAttestation {
    pub player: VerifyingKey,
    /// Unix milliseconds, by the signer's own clock.
    pub at: i64,
    pub signature: Signature,
}

impl View for ClockAttestation {
    type V = ClockAttestation;

    open spec fn view(&self) -> ClockAttestation {
        *self
    }
}

impl Record for ClockAttestation {
    open spec fn mark_of(v: ClockAttestation) -> u64 {
        digest_of(v.signature)
    }

    fn read_mark(&self) -> (r: u64) {
        signature_digest(&self.signature)
    }

    fn duplicate(&self) -> (r: Self) {
        *self
    }
}

/// What a player signs for the time.
pub open spec fn clock_bytes(game_id: GameId, at: i64) -> Seq<u8> {
    domain("clock:"@) + game_id.0@ + le_i64(at)
}

/// What is wrong with an attestation by itself.
pub open spec fn attestation_fault(a: ClockAttestation, game_id: GameId) -> Option<Seq<char>> {
    if a.at <= 0 {
        Some("clock attestation has a non-positive timestamp"@)
    } else {
        sig_fault(a.player, clock_bytes(game_id, a.at), a.signature, "clock attestation"@)
    }
}

/// Whether an attestation is no later than another: by time, then by their
/// signatures.
pub open spec fn no_later(a: ClockAttestation, b: ClockAttestation) -> bool {
    a.at < b.at || (a.at == b.at && sig_rank(a.signature) <= sig_rank(b.signature))
}

impl ClockAttestation {
    fn signing_bytes(game_id: &GameId, at: i64) -> (r: Vec<u8>)
        ensures
            r@ == clock_bytes(*game_id, at),
    {
        let mut buf = domain_bytes("clock:");
        push_all(&mut buf, game_id.0.as_slice());
        push_i64(&mut buf, at);
        buf
    }

    pub fn new(key: &SigningKey, game_id: &GameId, at: i64) -> (r: ClockAttestation)
        ensures
            r.player == key.public(),
            r.at == at,
            r.signature == key.signed(clock_bytes(*game_id, at)),
            at > 0 ==> attestation_fault(r, *game_id) is None,
    {
        let message = ClockAttestation::signing_bytes(game_id, at);
        ClockAttestation { player: key.verifying_key(), at, signature: key.sign(message.as_slice()) }
    }

    pub fn player_id(&self) -> (r: PlayerId)
        ensures
            r == id_of(self.player),
    {
        PlayerId::from(&self.player)
    }

    /// Whether the attestation is its author's. That its author plays in the
    /// game is another matter.
    pub fn verify_signature(&self, game_id: &GameId) -> (r: Result<(), String>)
        ensures
            fault(r) == attestation_fault(*self, *game_id),
    {
        if self.at <= 0 {
            return Err("clock attestation has a non-positive timestamp".to_string());
        }
        let message = ClockAttestation::signing_bytes(game_id, self.at);
        verify_sig(&self.player, message.as_slice(), &self.signature, "clock attestation")
    }
}

/// Of two attestations by one player the later one stays.
pub open spec fn absorb_attestation(
    m: Map<PlayerId, ClockAttestation>,
    a: ClockAttestation,
) -> Map<PlayerId, ClockAttestation> {
    let id = id_of(a.player);
    if m.contains_key(id) && no_later(a, m[id]) {
        m
    } else {
        m.insert(id, a)
    }
}

/// The attestations once a list of them has come in, up to the first bad one,
/// and what was wrong with that.
pub open spec fn clocks_after(
    m: Map<PlayerId, ClockAttestation>,
    incoming: Seq<ClockAttestation>,
    game_id: GameId,
) -> (Map<PlayerId, ClockAttestation>, Option<Seq<char>>)
    decreases incoming.len(),
{
    if incoming.len() == 0 {
        (m, None)
    } else {
        let (before, e) = clocks_after(m, incoming.drop_last(), game_id);
        if e is Some {
            (before, e)
        } else if attestation_fault(incoming.last(), game_id) is Some {
            (before, attestation_fault(incoming.last(), game_id))
        } else {
            (absorb_attestation(before, incoming.last()), None)
        }
    }
}

/// Nothing comes in after a bad attestation.
proof fn lemma_clocks_stop(
    m: Map<PlayerId, ClockAttestation>,
    incoming: Seq<ClockAttestation>,
    game_id: GameId,
    n: int,
)
    requires
        0 <= n <= incoming.len(),
        clocks_after(m, incoming.take(n), game_id).1 is Some,
    ensures
        clocks_after(m, incoming, game_id) == clocks_after(m, incoming.take(n), game_id),
    decreases incoming.len(),
{
    if n == incoming.len() {
        assert(incoming.take(n) =~= incoming);
    } else {
        assert(incoming.drop_last().take(n) =~= incoming.take(n));
        lemma_clocks_stop(m, incoming.drop_last(), game_id, n);
    }
}

/// The handles of the two players.
pub open spec fn of_players(keys: (VerifyingKey, VerifyingKey)) -> spec_fn(
    PlayerId,
    ClockAttestation,
) -> bool {
    |id: PlayerId, a: ClockAttestation| id == id_of(keys.0) || id == id_of(keys.1)
}

/// The attestations of the two players.
pub open spec fn clocks_pruned(
    m: Map<PlayerId, ClockAttestation>,
    keys: Option<(VerifyingKey, VerifyingKey)>,
) -> Map<PlayerId, ClockAttestation> {
    match keys {
        Some(ks) => restricted(m, of_players(ks)),
        None => Map::empty(),
    }
}

/// What is wrong with an attestation in a game.
pub open spec fn filed_fault(
    id: PlayerId,
    a: ClockAttestation,
    game_id: GameId,
    keys: (VerifyingKey, VerifyingKey),
) -> Option<Seq<char>> {
    if a.player != keys.0 && a.player != keys.1 {
        Some("clock attestation from someone who is not a player"@)
    } else if id != id_of(a.player) {
        Some("clock attestation is filed under the wrong player"@)
    } else {
        attestation_fault(a, game_id)
    }
}

pub open spec fn filed_faults(
    m: Map<PlayerId, ClockAttestation>,
    game_id: GameId,
    keys: (VerifyingKey, VerifyingKey),
) -> spec_fn(int) -> Option<Seq<char>> {
    |i: int| filed_fault(listing(m)[i].0, listing(m)[i].1, game_id, keys)
}

/// What is wrong with a game's attestations.
pub open spec fn clocks_fault(
    m: Map<PlayerId, ClockAttestation>,
    game_id: GameId,
    keys: Option<(VerifyingKey, VerifyingKey)>,
) -> Option<Seq<char>> {
    if listing(m).len() == 0 {
        None
    } else {
        match keys {
            None => Some("clock attestations recorded before an opponent joined"@),
            Some(ks) => first_fault(filed_faults(m, game_id, ks), listing(m).len()),
        }
    }
}

/// The latest time a player has signed for.
pub open spec fn attested(m: Map<PlayerId, ClockAttestation>, key: VerifyingKey) -> Option<i64> {
    if m.contains_key(id_of(key)) {
        Some(m[id_of(key)].at)
    } else {
        None
    }
}

/// The latest attestation of each player.
#[derive(Debug, Clone, PartialEq, Eq)]
pub struct ClocksV1 {
    pub attestations: SortedMap<PlayerId, ClockAttestation>,
}

impl View for ClocksV1 {
    type V = Map<PlayerId, ClockAttestation>;

    open spec fn view(&self) -> Map<PlayerId, ClockAttestation> {
        self.attestations@
    }
}

impl Default for ClocksV1 {
    fn default() -> (r: Self)
        ensures
            r@ == Map::<PlayerId, ClockAttestation>::empty(),
    {
        ClocksV1 { attestations: SortedMap::new() }
    }
}

impl ClocksV1 {
    /// The latest time a player has signed for, if they ever did.
    pub fn attested_at(&self, key: &VerifyingKey) -> (r: Option<i64>)
        ensures
            r == attested(self@, *key),
    {
        match self.attestations.get(&PlayerId::from(key)) {
            Some(a) => Some(a.at),
            None => None,
        }
    }

    fn absorb(&mut self, incoming: ClockAttestation)
        ensures
            final(self)@ == absorb_attestation(old(self)@, incoming),
    {
        let id = incoming.player_id();
        let stays = match self.attestations.get(&id) {
            Some(existing) => incoming.at < existing.at || (incoming.at == existing.at && !sig_less(
                &existing.signature,
                &incoming.signature,
            )),
            None => false,
        };
        if !stays {
            self.attestations.insert(id, incoming);
        }
    }

    /// Keep the attestations of the two players.
    pub fn prune(&mut self, keys: Option<(VerifyingKey, VerifyingKey)>)
        ensures
            final(self)@ == clocks_pruned(old(self)@, keys),
    {
        match keys {
            Some(ks) => {
                let white = PlayerId::from(&ks.0);
                let black = PlayerId::from(&ks.1);
                let n = self.attestations.len();
                let ghost es = self.attestations.spec_entries();
                let ghost cond = of_players(ks);
                let mut flags: Vec<bool> = Vec::new();
                let mut i: usize = 0;
                while i < n
                    invariant
                        i <= n,
                        n == self.attestations.spec_entries().len(),
                        es == self.attestations.spec_entries(),
                        cond == of_players(ks),
                        white == id_of(ks.0),
                        black == id_of(ks.1),
                        flags@.len() == i,
                        forall|j: int|
                            0 <= j < i ==> #[trigger] flags@[j] == cond(es[j].0, es[j].1),
                    decreases n - i,
                {
                    let id = self.attestations.key_at(i);
                    flags.push(id.same(&white) || id.same(&black));
                    i = i + 1;
                }
                self.attestations.keep_flagged(&flags);
                proof {
                    lemma_flagged_map(es, flags@, cond);
                }
            },
            None => self.attestations.clear(),
        }
    }

    /// Check every attestation against the two players.
    pub fn check(&self, game_id: &GameId, keys: Option<(VerifyingKey, VerifyingKey)>) -> (r: Result<
        (),
        String,
    >)
        ensures
            fault(r) == clocks_fault(self@, *game_id, keys),
    {
        let n = self.attestations.len();
        if n == 0 {
            return Ok(());
        }
        let ks = match keys {
            Some(ks) => ks,
            None => {
                return Err("clock attestations recorded before an opponent joined".to_string());
            },
        };
        let ghost faults = filed_faults(self@, *game_id, ks);
        let mut i: usize = 0;
        while i < n
            invariant
                i <= n,
                n == listing(self@).len(),
                n == self.attestations.spec_entries().len(),
                self.attestations.spec_entries() == listing(self@),
                n > 0,
                keys == Some(ks),
                faults == filed_faults(self@, *game_id, ks),
                first_fault(faults, i as nat) is None,
            decreases n - i,
        {
            match self.attestations.value_at(i).check_filed(
                self.attestations.key_at(i),
                game_id,
                ks,
            ) {
                Ok(()) => {},
                Err(e) => {
                    proof {
                        assert(faults(i as int) == Some(e@));
                        lemma_first_fault_stays(faults, (i + 1) as nat, n as nat);
                    }
                    return Err(e);
                },
            }
            assert(faults(i as int) is None);
            i = i + 1;
        }
        Ok(())
    }

    pub fn verify(&self, parent: &ChessGameStateV1, params: &ChessGameParametersV1) -> (r: Result<
        (),
        String,
    >)
        ensures
            fault(r) == clocks_fault(self@, params.game_id, super::keys_of(parent@)),
    {
        self.check(&params.game_id, parent.player_keys())
    }

    pub fn summarize(&self, _parent: &ChessGameStateV1, _params: &ChessGameParametersV1) -> (r: Vec<
        (PlayerId, u64),
    >)
        ensures
            r@ == marks_of::<PlayerId, ClockAttestation>(listing(self@)),
    {
        assert(views(self.attestations@) =~= self.attestations@);
        summarize_map(&self.attestations)
    }

    pub fn delta(
        &self,
        _parent: &ChessGameStateV1,
        _params: &ChessGameParametersV1,
        old_summary: &Vec<(PlayerId, u64)>,
    ) -> (r: Option<Vec<ClockAttestation>>)
        ensures
            match r {
                Some(d) => d@ == missing::<PlayerId, ClockAttestation>(listing(self@), old_summary@) && d@.len() > 0,
                None => missing::<PlayerId, ClockAttestation>(listing(self@), old_summary@).len() == 0,
            },
    {
        assert(views(self.attestations@) =~= self.attestations@);
        let out = missing_from(&self.attestations, old_summary);
        assert(held(out@) =~= out@);
        if out.len() == 0 {
            None
        } else {
            Some(out)
        }
    }

    /// Take in attestations, up to the first bad one.
    pub fn take_in(&mut self, game_id: &GameId, incoming: &Vec<ClockAttestation>) -> (r: Result<
        (),
        String,
    >)
        ensures
            (final(self)@, fault(r)) == clocks_after(old(self)@, incoming@, *game_id),
    {
        let ghost before = self@;
        let mut i: usize = 0;
        while i < incoming.len()
            invariant
                i <= incoming@.len(),
                before == old(self)@,
                clocks_after(before, incoming@.take(i as int), *game_id) == (
                    self@,
                    None::<Seq<char>>,
                ),
            decreases incoming.len() - i,
        {
            let ghost next = incoming@.take(i + 1);
            assert(next.drop_last() =~= incoming@.take(i as int));
            assert(next.last() == incoming@[i as int]);
            match incoming[i].verify_signature(game_id) {
                Ok(()) => {},
                Err(e) => {
                    proof {
                        lemma_clocks_stop(before, incoming@, *game_id, i + 1);
                    }
                    return Err(e);
                },
            }
            self.absorb(incoming[i]);
            i = i + 1;
        }
        assert(incoming@.take(incoming@.len() as int) =~= incoming@);
        Ok(())
    }

    pub fn apply_delta(
        &mut self,
        _parent: &ChessGameStateV1,
        params: &ChessGameParametersV1,
        delta: &Option<Vec<ClockAttestation>>,
    ) -> (r: Result<(), String>)
        ensures
            match *delta {
                Some(d) => (final(self)@, fault(r)) == clocks_after(old(self)@, d@, params.game_id),
                None => r is Ok && final(self)@ == old(self)@,
            },
    {
        match delta {
            Some(d) => self.take_in(&params.game_id, d),
            None => Ok(()),
        }
    }
}

impl ClockAttestation {
    fn check_filed(&self, id: PlayerId, game_id: &GameId, keys: (VerifyingKey, VerifyingKey)) -> (r:
        Result<(), String>)
        ensures
            fault(r) == filed_fault(id, *self, *game_id, keys),
    {
        if !self.player.same(&keys.0) && !self.player.same(&keys.1) {
            return Err("clock attestation from someone who is not a player".to_string());
        }
        if !id.same(&self.player_id()) {
            return Err("clock attestation is filed under the wrong player".to_string());
        }
        self.verify_signature(game_id)
    }
}

/// Two attestations come in alike in either order. Where two of one player
/// share time and signature they must be one.
pub proof fn law_attestations_commute(
    m: Map<PlayerId, ClockAttestation>,
    a: ClockAttestation,
    b: ClockAttestation,
)
    requires
        a.at == b.at && sig_rank(a.signature) == sig_rank(b.signature) ==> a == b,
    ensures
        absorb_attestation(absorb_attestation(m, a), b) == absorb_attestation(
            absorb_attestation(m, b),
            a,
        ),
{
    assert(absorb_attestation(absorb_attestation(m, a), b) =~= absorb_attestation(
        absorb_attestation(m, b),
        a,
    ));
}

/// An attestation that came in already changes nothing.
pub proof fn law_attestations_come_in_once(
    m: Map<PlayerId, ClockAttestation>,
    a: ClockAttestation,
)
    ensures
        absorb_attestation(absorb_attestation(m, a), a) == absorb_attestation(m, a),
{
}

/// The time a player has signed for only moves on.
pub proof fn law_attested_time_advances(
    m: Map<PlayerId, ClockAttestation>,
    a: ClockAttestation,
    key: VerifyingKey,
)
    requires
        attested(m, key) is Some,
    ensures
        attested(absorb_attestation(m, a), key) is Some,
        attested(m, key)->0 <= attested(absorb_attestation(m, a), key)->0,
{
}

/// Pruning what was pruned changes nothing.
pub proof fn law_pruning_clocks_is_idempotent(
    m: Map<PlayerId, ClockAttestation>,
    keys: Option<(VerifyingKey, VerifyingKey)>,
)
    ensures
        clocks_pruned(clocks_pruned(m, keys), keys) == clocks_pruned(m, keys),
{
    assert(clocks_pruned(clocks_pruned(m, keys), keys) =~= clocks_pruned(m, keys));
}

} // verus!
