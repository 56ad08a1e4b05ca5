//! How a game ends off the board: a resignation, an agreed draw, time.
//!
//! Every claim that a game is over is kept, one for each player and kind, and
//! which of them decides the game is read off the whole record. A claim that
//! is not borne out does nothing, and cannot keep out one that is.

use super::{
    color_in, domain, domain_bytes, keys_of, provable, sig_less, sig_rank, ChessGameParametersV1,
    ChessGameStateV1, DrawReason, GameResult, GameView, WinReason,
};
use crate::bytes::{le32, le_i64, push_all, push_i64, push_u32, same_bytes};
use crate::chess::types::Color;
use crate::crypto::{Signature, SigningKey, VerifyingKey};
use crate::identity::{id_of, sig_fault, verify_sig, GameId, PlayerId};
use crate::prefix::{leading, lemma_leading_is};
use crate::text::{digits, fault, first_fault, lemma_first_fault_stays, push_decimal};
use vstd::prelude::*;
use vstd::string::*;

verus! {

/// How long after it became provable a claim on time may be dated.
pub const TIMEOUT_CLAIM_WINDOW_MS: i64 = 60_000;

/// How many claims two players can hold, one of each kind each.
pub const MAX_CONCLUSIONS: usize = 6;

#[derive(Debug, Clone, Copy, PartialEq, Eq, Structural)]
pub enum ConclusionKind {
    /// The signer gives up.
    Resignation,
    /// Both players signed for a draw.
    DrawAgreement,
    /// The signer claims that the opponent's time ran out.
    TimeoutClaim,
}

/// A signed statement that the game is over.
#[derive(Debug, Clone, Copy, PartialEq, Eq)]
pub struct SignedConclusion {
    pub kind: ConclusionKind,
    pub claimant: VerifyingKey,
    /// How many plies the game had.
    pub at_ply: u32,
    /// Unix milliseconds.
    pub at: i64,
    pub signature: Signature,
    /// The opponent's signature, on a draw.
    pub countersignature: Option<Signature>,
    /// The opponent's key, on a draw.
    pub counterparty: Option<VerifyingKey>,
}

pub open spec fn tag_of_kind(kind: ConclusionKind) -> u8 {
    match kind {
        ConclusionKind::Resignation => 0,
        ConclusionKind::DrawAgreement => 1,
        ConclusionKind::TimeoutClaim => 2,
    }
}

/// A kind as one byte.
pub fn kind_tag(kind: ConclusionKind) -> (r: u8)
    ensures
        r == tag_of_kind(kind),
{
    match kind {
        ConclusionKind::Resignation => 0,
        ConclusionKind::DrawAgreement => 1,
        ConclusionKind::TimeoutClaim => 2,
    }
}

/// What a claimant signs.
pub open spec fn conclusion_bytes(
    game_id: GameId,
    kind: ConclusionKind,
    at_ply: u32,
    at: i64,
) -> Seq<u8> {
    domain("conclusion:"@) + game_id.0@ + seq![tag_of_kind(kind)] + le32(at_ply) + le_i64(at)
}

/// What a claimant signs.
pub fn conclusion_signing_bytes(
    game_id: &GameId,
    kind: ConclusionKind,
    at_ply: u32,
    at: i64,
) -> (r: Vec<u8>)
    ensures
        r@ == conclusion_bytes(*game_id, kind, at_ply, at),
{
    let mut buf = domain_bytes("conclusion:");
    push_all(&mut buf, game_id.0.as_slice());
    let ghost head = buf@;
    buf.push(kind_tag(kind));
    assert(buf@ =~= head + seq![tag_of_kind(kind)]);
    push_u32(&mut buf, at_ply);
    push_i64(&mut buf, at);
    buf
}

pub open spec fn bytes_of_claim(c: SignedConclusion, game_id: GameId) -> Seq<u8> {
    conclusion_bytes(game_id, c.kind, c.at_ply, c.at)
}

/// Whether a claim comes before another: by time, then by their signatures.
pub open spec fn earlier(a: SignedConclusion, b: SignedConclusion) -> bool {
    a.at < b.at || (a.at == b.at && sig_rank(a.signature) < sig_rank(b.signature))
}

/// Where a claim belongs: one place for each player and kind.
pub open spec fn slot_of(c: SignedConclusion) -> (PlayerId, u8) {
    (id_of(c.claimant), tag_of_kind(c.kind))
}

/// What is wrong with a claim in a game.
pub open spec fn claim_fault(
    c: SignedConclusion,
    keys: Option<(VerifyingKey, VerifyingKey)>,
    game_id: GameId,
) -> Option<Seq<char>> {
    match keys {
        None => Some("a game with no opponent cannot be concluded"@),
        Some((white, black)) => if c.claimant != white && c.claimant != black {
            Some("conclusion signed by someone who is not a player in this game"@)
        } else if c.at <= 0 {
            Some("conclusion timestamp must be positive"@)
        } else if sig_fault(
            c.claimant,
            bytes_of_claim(c, game_id),
            c.signature,
            "conclusion"@,
        ) is Some {
            sig_fault(c.claimant, bytes_of_claim(c, game_id), c.signature, "conclusion"@)
        } else {
            match c.kind {
                ConclusionKind::Resignation => None,
                ConclusionKind::TimeoutClaim => None,
                ConclusionKind::DrawAgreement => match (c.countersignature, c.counterparty) {
                    (None, _) => Some("draw agreement lacks a countersignature"@),
                    (Some(_), None) => Some("draw agreement lacks a counterparty key"@),
                    (Some(sig), Some(key)) => if key != (if c.claimant == white {
                        black
                    } else {
                        white
                    }) {
                        Some("draw countersigned by the wrong key"@)
                    } else {
                        sig_fault(key, bytes_of_claim(c, game_id), sig, "draw countersignature"@)
                    },
                },
            }
        },
    }
}

/// Whether a claim decides a game. A resignation and an agreed draw do; a
/// claim on time does where the loser's own word on the time bears it out.
pub open spec fn decides(c: SignedConclusion, g: GameView) -> bool {
    match c.kind {
        ConclusionKind::Resignation => true,
        ConclusionKind::DrawAgreement => true,
        ConclusionKind::TimeoutClaim => match color_in(keys_of(g), c.claimant) {
            Some(winner) => match provable(g, winner.other(), c.at_ply as int) {
                Some(p) => p <= c.at <= p + TIMEOUT_CLAIM_WINDOW_MS,
                None => false,
            },
            None => false,
        },
    }
}

/// The result that a claim is for.
pub open spec fn claimed_result(
    c: SignedConclusion,
    keys: Option<(VerifyingKey, VerifyingKey)>,
) -> Option<GameResult> {
    match color_in(keys, c.claimant) {
        None => None,
        Some(color) => Some(
            match c.kind {
                ConclusionKind::DrawAgreement => GameResult::Draw(DrawReason::Agreement),
                ConclusionKind::Resignation => match color {
                    Color::White => GameResult::BlackWins(WinReason::Resignation),
                    Color::Black => GameResult::WhiteWins(WinReason::Resignation),
                },
                ConclusionKind::TimeoutClaim => match color {
                    Color::White => GameResult::WhiteWins(WinReason::Timeout),
                    Color::Black => GameResult::BlackWins(WinReason::Timeout),
                },
            },
        ),
    }
}

impl SignedConclusion {
    /// Give up.
    pub fn resign(key: &SigningKey, game_id: &GameId, at_ply: u32, at: i64) -> (r: SignedConclusion)
        ensures
            r.kind == ConclusionKind::Resignation,
            r.claimant == key.public(),
            r.at_ply == at_ply,
            r.at == at,
            r.signature == key.signed(bytes_of_claim(r, *game_id)),
            r.countersignature is None,
            r.counterparty is None,
            sig_fault(r.claimant, bytes_of_claim(r, *game_id), r.signature, "conclusion"@) is None,
    {
        let bytes = conclusion_signing_bytes(game_id, ConclusionKind::Resignation, at_ply, at);
        SignedConclusion {
            kind: ConclusionKind::Resignation,
            claimant: key.verifying_key(),
            at_ply,
            at,
            signature: key.sign(bytes.as_slice()),
            countersignature: None,
            counterparty: None,
        }
    }

    /// A draw that both players sign.
    pub fn draw_agreement(
        proposer: &SigningKey,
        accepter: &SigningKey,
        game_id: &GameId,
        at_ply: u32,
        at: i64,
    ) -> (r: SignedConclusion)
        ensures
            r.kind == ConclusionKind::DrawAgreement,
            r.claimant == proposer.public(),
            r.at_ply == at_ply,
            r.at == at,
            r.signature == proposer.signed(bytes_of_claim(r, *game_id)),
            r.countersignature == Some(accepter.signed(bytes_of_claim(r, *game_id))),
            r.counterparty == Some(accepter.public()),
            sig_fault(r.claimant, bytes_of_claim(r, *game_id), r.signature, "conclusion"@) is None,
            sig_fault(
                accepter.public(),
                bytes_of_claim(r, *game_id),
                r.countersignature->0,
                "draw countersignature"@,
            ) is None,
    {
        let bytes = conclusion_signing_bytes(game_id, ConclusionKind::DrawAgreement, at_ply, at);
        SignedConclusion {
            kind: ConclusionKind::DrawAgreement,
            claimant: proposer.verifying_key(),
            at_ply,
            at,
            signature: proposer.sign(bytes.as_slice()),
            countersignature: Some(accepter.sign(bytes.as_slice())),
            counterparty: Some(accepter.verifying_key()),
        }
    }

    /// Claim that the opponent's time ran out.
    pub fn claim_timeout(key: &SigningKey, game_id: &GameId, at_ply: u32, at: i64) -> (r:
        SignedConclusion)
        ensures
            r.kind == ConclusionKind::TimeoutClaim,
            r.claimant == key.public(),
            r.at_ply == at_ply,
            r.at == at,
            r.signature == key.signed(bytes_of_claim(r, *game_id)),
            r.countersignature is None,
            r.counterparty is None,
            sig_fault(r.claimant, bytes_of_claim(r, *game_id), r.signature, "conclusion"@) is None,
    {
        let bytes = conclusion_signing_bytes(game_id, ConclusionKind::TimeoutClaim, at_ply, at);
        SignedConclusion {
            kind: ConclusionKind::TimeoutClaim,
            claimant: key.verifying_key(),
            at_ply,
            at,
            signature: key.sign(bytes.as_slice()),
            countersignature: None,
            counterparty: None,
        }
    }

    fn signing_bytes(&self, game_id: &GameId) -> (r: Vec<u8>)
        ensures
            r@ == bytes_of_claim(*self, *game_id),
    {
        conclusion_signing_bytes(game_id, self.kind, self.at_ply, self.at)
    }

    /// What claims are ordered by.
    pub fn order_key(&self) -> (r: (i64, [u8; 64]))
        ensures
            r == (self.at, self.signature.0),
    {
        (self.at, self.signature.0)
    }

    fn comes_before(&self, other: &SignedConclusion) -> (r: bool)
        ensures
            r == earlier(*self, *other),
    {
        self.at < other.at || (self.at == other.at && sig_less(&self.signature, &other.signature))
    }

    pub fn claimant_id(&self) -> (r: PlayerId)
        ensures
            r == id_of(self.claimant),
    {
        PlayerId::from(&self.claimant)
    }

    fn shares_slot(&self, other: &SignedConclusion) -> (r: bool)
        ensures
            r == (slot_of(*self) == slot_of(*other)),
    {
        self.claimant_id().same(&other.claimant_id()) && kind_tag(self.kind) == kind_tag(other.kind)
    }

    /// Whether the claim decides the game.
    pub fn is_effective(&self, parent: &ChessGameStateV1) -> (r: bool)
        requires
            parent@.wf(),
        ensures
            r == decides(*self, parent@),
    {
        match self.kind {
            ConclusionKind::Resignation => true,
            ConclusionKind::DrawAgreement => true,
            ConclusionKind::TimeoutClaim => match parent.color_of(&self.claimant) {
                Some(winner) => match parent.timeout_provable_at(winner.opposite(), self.at_ply) {
                    Some(p) => self.at >= p && self.at as i128 <= p as i128
                        + TIMEOUT_CLAIM_WINDOW_MS as i128,
                    None => false,
                },
                None => false,
            },
        }
    }

    /// Check the claim as a statement of its author on this game. Whether it
    /// decides the game is another matter.
    pub fn verify(&self, parent: &ChessGameStateV1, params: &ChessGameParametersV1) -> (r: Result<
        (),
        String,
    >)
        ensures
            fault(r) == claim_fault(*self, keys_of(parent@), params.game_id),
    {
        self.check(parent.player_keys(), &params.game_id)
    }

    fn check(&self, keys: Option<(VerifyingKey, VerifyingKey)>, game_id: &GameId) -> (r: Result<
        (),
        String,
    >)
        ensures
            fault(r) == claim_fault(*self, keys, *game_id),
    {
        let (white, black) = match keys {
            Some(ks) => ks,
            None => return Err("a game with no opponent cannot be concluded".to_string()),
        };
        if !self.claimant.same(&white) && !self.claimant.same(&black) {
            return Err("conclusion signed by someone who is not a player in this game".to_string());
        }
        if self.at <= 0 {
            return Err("conclusion timestamp must be positive".to_string());
        }
        let message = self.signing_bytes(game_id);
        match verify_sig(&self.claimant, message.as_slice(), &self.signature, "conclusion") {
            Ok(()) => {},
            Err(e) => return Err(e),
        }
        match self.kind {
            ConclusionKind::Resignation => Ok(()),
            ConclusionKind::TimeoutClaim => Ok(()),
            ConclusionKind::DrawAgreement => {
                let sig = match self.countersignature {
                    Some(sig) => sig,
                    None => return Err("draw agreement lacks a countersignature".to_string()),
                };
                let key = match self.counterparty {
                    Some(key) => key,
                    None => return Err("draw agreement lacks a counterparty key".to_string()),
                };
                let expected = if self.claimant.same(&white) {
                    black
                } else {
                    white
                };
                if !key.same(&expected) {
                    return Err("draw countersigned by the wrong key".to_string());
                }
                verify_sig(&key, message.as_slice(), &sig, "draw countersignature")
            },
        }
    }

    /// The result that the claim is for.
    pub fn result(&self, parent: &ChessGameStateV1) -> (r: Option<GameResult>)
        ensures
            r == claimed_result(*self, keys_of(parent@)),
    {
        match parent.color_of(&self.claimant) {
            None => None,
            Some(color) => Some(
                match self.kind {
                    ConclusionKind::DrawAgreement => GameResult::Draw(DrawReason::Agreement),
                    ConclusionKind::Resignation => match color {
                        Color::White => GameResult::BlackWins(WinReason::Resignation),
                        Color::Black => GameResult::WhiteWins(WinReason::Resignation),
                    },
                    ConclusionKind::TimeoutClaim => match color {
                        Color::White => GameResult::WhiteWins(WinReason::Timeout),
                        Color::Black => GameResult::BlackWins(WinReason::Timeout),
                    },
                },
            ),
        }
    }
}

pub open spec fn undecided(g: GameView) -> spec_fn(int) -> bool {
    |i: int| !decides(g.claims[i], g)
}

/// The first claim that decides a game.
pub open spec fn deciding_claim(g: GameView) -> Option<SignedConclusion> {
    let n = leading(undecided(g), g.claims.len());
    if n < g.claims.len() {
        Some(g.claims[n as int])
    } else {
        None
    }
}

/// The result by claim, where one decides the game.
pub open spec fn concluded(g: GameView) -> Option<GameResult> {
    match deciding_claim(g) {
        Some(c) => claimed_result(c, keys_of(g)),
        None => None,
    }
}

pub open spec fn other_slot(claims: Seq<SignedConclusion>, c: SignedConclusion) -> spec_fn(
    int,
) -> bool {
    |i: int| slot_of(claims[i]) != slot_of(c)
}

/// Where the first claim with a claim's slot stands.
pub open spec fn slot_index(claims: Seq<SignedConclusion>, c: SignedConclusion) -> nat {
    leading(other_slot(claims, c), claims.len())
}

/// A claim put into an ordered list, behind those that do not come after it.
pub open spec fn inserted(claims: Seq<SignedConclusion>, c: SignedConclusion) -> Seq<
    SignedConclusion,
>
    decreases claims.len(),
{
    if claims.len() == 0 || !earlier(c, claims.last()) {
        claims.push(c)
    } else {
        inserted(claims.drop_last(), c).push(claims.last())
    }
}

/// Claims in order, those that tie as they stood.
pub open spec fn in_order(claims: Seq<SignedConclusion>) -> Seq<SignedConclusion>
    decreases claims.len(),
{
    if claims.len() == 0 {
        claims
    } else {
        inserted(in_order(claims.drop_last()), claims.last())
    }
}

/// The claims with one more, before they are put in order. Of two in one slot
/// the earlier stays.
pub open spec fn joined(claims: Seq<SignedConclusion>, c: SignedConclusion) -> Seq<
    SignedConclusion,
> {
    let i = slot_index(claims, c);
    if i == claims.len() {
        claims.push(c)
    } else if earlier(c, claims[i as int]) {
        claims.update(i as int, c)
    } else {
        claims
    }
}

/// The claims with one more.
pub open spec fn absorb_claim(claims: Seq<SignedConclusion>, c: SignedConclusion) -> Seq<
    SignedConclusion,
> {
    in_order(joined(claims, c))
}

/// The claims once a list of them has come in, up to the first bad one, and
/// what was wrong with that.
pub open spec fn claims_after(
    claims: Seq<SignedConclusion>,
    incoming: Seq<SignedConclusion>,
    keys: Option<(VerifyingKey, VerifyingKey)>,
    game_id: GameId,
) -> (Seq<SignedConclusion>, Option<Seq<char>>)
    decreases incoming.len(),
{
    if incoming.len() == 0 {
        (claims, None)
    } else {
        let (before, e) = claims_after(claims, incoming.drop_last(), keys, game_id);
        if e is Some {
            (before, e)
        } else if claim_fault(incoming.last(), keys, game_id) is Some {
            (before, claim_fault(incoming.last(), keys, game_id))
        } else {
            (absorb_claim(before, incoming.last()), None)
        }
    }
}

/// Nothing comes in after a bad claim.
proof fn lemma_claims_stop(
    claims: Seq<SignedConclusion>,
    incoming: Seq<SignedConclusion>,
    keys: Option<(VerifyingKey, VerifyingKey)>,
    game_id: GameId,
    n: int,
)
    requires
        0 <= n <= incoming.len(),
        claims_after(claims, incoming.take(n), keys, game_id).1 is Some,
    ensures
        claims_after(claims, incoming, keys, game_id) == claims_after(
            claims,
            incoming.take(n),
            keys,
            game_id,
        ),
    decreases incoming.len(),
{
    if n == incoming.len() {
        assert(incoming.take(n) =~= incoming);
    } else {
        assert(incoming.drop_last().take(n) =~= incoming.take(n));
        lemma_claims_stop(claims, incoming.drop_last(), keys, game_id, n);
    }
}

/// What is wrong with a claim among those before it.
pub open spec fn held_claim_fault(
    claims: Seq<SignedConclusion>,
    keys: Option<(VerifyingKey, VerifyingKey)>,
    game_id: GameId,
    i: int,
) -> Option<Seq<char>> {
    if claim_fault(claims[i], keys, game_id) is Some {
        claim_fault(claims[i], keys, game_id)
    } else if exists|j: int| 0 <= j < i && slot_of(#[trigger] claims[j]) == slot_of(claims[i]) {
        Some("two conclusions of the same kind from the same player"@)
    } else {
        None
    }
}

pub open spec fn held_claim_faults(
    claims: Seq<SignedConclusion>,
    keys: Option<(VerifyingKey, VerifyingKey)>,
    game_id: GameId,
) -> spec_fn(int) -> Option<Seq<char>> {
    |i: int| held_claim_fault(claims, keys, game_id, i)
}

/// What is wrong with a game's claims.
pub open spec fn claims_fault(
    claims: Seq<SignedConclusion>,
    keys: Option<(VerifyingKey, VerifyingKey)>,
    game_id: GameId,
) -> Option<Seq<char>> {
    if claims.len() > MAX_CONCLUSIONS {
        Some(
            digits(claims.len()) + " conclusions recorded, over the "@ + digits(
                MAX_CONCLUSIONS as nat,
            ) + " a two-player game admits"@,
        )
    } else {
        first_fault(held_claim_faults(claims, keys, game_id), claims.len())
    }
}

/// Whether a signature was told.
pub open spec fn sig_told(told: Seq<Seq<u8>>, c: SignedConclusion) -> bool {
    exists|i: int| 0 <= i < told.len() && (#[trigger] told[i]) == c.signature.0@
}

/// What a list of byte strings holds.
pub open spec fn byte_strings(v: Seq<Vec<u8>>) -> Seq<Seq<u8>> {
    Seq::new(v.len(), |i: int| v[i]@)
}

/// The signatures of a list of claims.
pub open spec fn sigs_of(claims: Seq<SignedConclusion>) -> Seq<Seq<u8>> {
    Seq::new(claims.len(), |i: int| claims[i].signature.0@)
}

/// The claims whose signatures were not told.
pub open spec fn untold_claims(claims: Seq<SignedConclusion>, told: Seq<Seq<u8>>) -> Seq<
    SignedConclusion,
>
    decreases claims.len(),
{
    if claims.len() == 0 {
        Seq::empty()
    } else {
        let rest = untold_claims(claims.drop_last(), told);
        if sig_told(told, claims.last()) {
            rest
        } else {
            rest.push(claims.last())
        }
    }
}

/// The claims on how a game ended.
#[derive(Debug, Clone, PartialEq, Eq)]
pub struct ConclusionV1 {
    /// In the order of [`SignedConclusion::order_key`].
    pub claims: Vec<SignedConclusion>,
}

impl View for ConclusionV1 {
    type V = Seq<SignedConclusion>;

    open spec fn view(&self) -> Seq<SignedConclusion> {
        self.claims@
    }
}

impl Default for ConclusionV1 {
    fn default() -> (r: Self)
        ensures
            r@ == Seq::<SignedConclusion>::empty(),
    {
        ConclusionV1 { claims: Vec::new() }
    }
}

impl ConclusionV1 {
    pub fn single(claim: SignedConclusion) -> (r: ConclusionV1)
        ensures
            r@ == seq![claim],
    {
        let mut claims: Vec<SignedConclusion> = Vec::new();
        claims.push(claim);
        assert(claims@ =~= seq![claim]);
        ConclusionV1 { claims }
    }

    pub fn is_empty(&self) -> (r: bool)
        ensures
            r == (self@.len() == 0),
    {
        self.claims.len() == 0
    }

    /// The first claim that decides a game.
    pub fn effective(&self, parent: &ChessGameStateV1) -> (r: Option<&SignedConclusion>)
        requires
            parent@.wf(),
        ensures
            match r {
                Some(c) => deciding_claim((GameView { claims: self@, ..parent@ })) == Some(*c),
                None => deciding_claim((GameView { claims: self@, ..parent@ })) is None,
            },
    {
        let ghost g = GameView { claims: self@, ..parent@ };
        let ghost none = undecided(g);
        let mut i: usize = 0;
        while i < self.claims.len()
            invariant
                i <= self.claims@.len(),
                parent@.wf(),
                g == (GameView { claims: self@, ..parent@ }),
                none == undecided(g),
                forall|j: int| 0 <= j < i ==> #[trigger] none(j),
            decreases self.claims.len() - i,
        {
            let found = self.claims[i].is_effective(parent);
            proof {
                super::lemma_claims_are_not_evidence(parent@, self@);
                assert(found == decides(self.claims@[i as int], g));
                assert(none(i as int) == !found);
            }
            if found {
                proof {
                    lemma_leading_is(none, g.claims.len(), i as nat);
                }
                return Some(&self.claims[i]);
            }
            i = i + 1;
        }
        proof {
            lemma_leading_is(none, g.claims.len(), i as nat);
        }
        None
    }

    /// The result by claim, where one decides the game.
    pub fn result_with(&self, parent: &ChessGameStateV1) -> (r: Option<GameResult>)
        requires
            parent@.wf(),
        ensures
            r == concluded((GameView { claims: self@, ..parent@ })),
    {
        match self.effective(parent) {
            Some(c) => c.result(parent),
            None => None,
        }
    }

    fn absorb(&mut self, incoming: SignedConclusion)
        ensures
            final(self)@ == absorb_claim(old(self)@, incoming),
    {
        let ghost before = self@;
        let ghost apart = other_slot(before, incoming);
        let n = self.claims.len();
        let mut i: usize = 0;
        while i < n && !self.claims[i].shares_slot(&incoming)
            invariant
                i <= n,
                n == self.claims@.len(),
                self.claims@ == before,
                apart == other_slot(before, incoming),
                forall|j: int| 0 <= j < i ==> #[trigger] apart(j),
            decreases n - i,
        {
            assert(apart(i as int));
            i = i + 1;
        }
        proof {
            lemma_leading_is(apart, before.len(), i as nat);
        }
        if i == n {
            self.claims.push(incoming);
        } else if incoming.comes_before(&self.claims[i]) {
            self.claims[i] = incoming;
        }
        assert(self.claims@ =~= joined(before, incoming));
        self.sort();
    }

    /// Put the claims in order.
    fn sort(&mut self)
        ensures
            final(self)@ == in_order(old(self)@),
    {
        let mut out: Vec<SignedConclusion> = Vec::new();
        let mut i: usize = 0;
        assert(self.claims@.take(0) =~= Seq::<SignedConclusion>::empty());
        while i < self.claims.len()
            invariant
                i <= self.claims@.len(),
                self.claims@ == old(self).claims@,
                out@ == in_order(self.claims@.take(i as int)),
            decreases self.claims.len() - i,
        {
            let c = self.claims[i];
            assert(self.claims@.take(i + 1).drop_last() =~= self.claims@.take(i as int));
            insert_claim(&mut out, c);
            i = i + 1;
        }
        assert(self.claims@.take(self.claims@.len() as int) =~= self.claims@);
        self.claims = out;
    }

    pub fn verify(&self, parent: &ChessGameStateV1, params: &ChessGameParametersV1) -> (r: Result<
        (),
        String,
    >)
        ensures
            fault(r) == claims_fault(self@, keys_of(parent@), params.game_id),
    {
        let n = self.claims.len();
        if n > MAX_CONCLUSIONS {
            let mut text = String::new();
            push_decimal(&mut text, n as u128);
            text.push_str(" conclusions recorded, over the ");
            push_decimal(&mut text, MAX_CONCLUSIONS as u128);
            text.push_str(" a two-player game admits");
            assert(text@ =~= claims_fault(self@, keys_of(parent@), params.game_id)->0);
            return Err(text);
        }
        let keys = parent.player_keys();
        let ghost faults = held_claim_faults(self@, keys, params.game_id);
        let mut i: usize = 0;
        while i < n
            invariant
                i <= n,
                n == self.claims@.len(),
                n <= MAX_CONCLUSIONS,
                keys == keys_of(parent@),
                faults == held_claim_faults(self@, keys, params.game_id),
                first_fault(faults, i as nat) is None,
            decreases n - i,
        {
            match self.check_at(i, keys, &params.game_id) {
                Ok(()) => {},
                Err(e) => {
                    proof {
                        assert(faults(i as int) == Some(e@));
                        lemma_first_fault_stays(faults, (i + 1) as nat, n as nat);
                    }
                    return Err(e);
                },
            }
            assert(faults(i as int) is None);
            i = i + 1;
        }
        Ok(())
    }

    fn check_at(
        &self,
        i: usize,
        keys: Option<(VerifyingKey, VerifyingKey)>,
        game_id: &GameId,
    ) -> (r: Result<(), String>)
        requires
            i < self@.len(),
        ensures
            fault(r) == held_claim_fault(self@, keys, *game_id, i as int),
    {
        match self.claims[i].check(keys, game_id) {
            Ok(()) => {},
            Err(e) => return Err(e),
        }
        let mut j: usize = 0;
        while j < i
            invariant
                j <= i,
                i < self@.len(),
                claim_fault(self@[i as int], keys, *game_id) is None,
                forall|k: int| 0 <= k < j ==> slot_of(#[trigger] self@[k]) != slot_of(self@[i as int]),
            decreases i - j,
        {
            if self.claims[j].shares_slot(&self.claims[i]) {
                assert(slot_of(self@[j as int]) == slot_of(self@[i as int]));
                return Err("two conclusions of the same kind from the same player".to_string());
            }
            j = j + 1;
        }
        Ok(())
    }

    pub fn summarize(&self, _parent: &ChessGameStateV1, _params: &ChessGameParametersV1) -> (r: Vec<
        Vec<u8>,
    >)
        ensures
            byte_strings(r@) == sigs_of(self@),
    {
        let mut out: Vec<Vec<u8>> = Vec::new();
        let mut i: usize = 0;
        while i < self.claims.len()
            invariant
                i <= self.claims@.len(),
                out@.len() == i,
                forall|j: int| 0 <= j < i ==> (#[trigger] out@[j])@ == self@[j].signature.0@,
            decreases self.claims.len() - i,
        {
            let mut bytes: Vec<u8> = Vec::new();
            push_all(&mut bytes, self.claims[i].signature.0.as_slice());
            assert(bytes@ =~= self@[i as int].signature.0@);
            out.push(bytes);
            i = i + 1;
        }
        assert(byte_strings(out@) =~= sigs_of(self@));
        out
    }

    pub fn delta(
        &self,
        _parent: &ChessGameStateV1,
        _params: &ChessGameParametersV1,
        old_summary: &Vec<Vec<u8>>,
    ) -> (r: Option<Vec<SignedConclusion>>)
        ensures
            match r {
                Some(d) => d@ == untold_claims(self@, byte_strings(old_summary@)) && d@.len() > 0,
                None => untold_claims(self@, byte_strings(old_summary@)).len() == 0,
            },
    {
        let mut out: Vec<SignedConclusion> = Vec::new();
        let mut i: usize = 0;
        while i < self.claims.len()
            invariant
                i <= self.claims@.len(),
                out@ == untold_claims(self@.take(i as int), byte_strings(old_summary@)),
            decreases self.claims.len() - i,
        {
            assert(self@.take(i + 1).drop_last() =~= self@.take(i as int));
            if !was_signed(old_summary, &self.claims[i]) {
                out.push(self.claims[i]);
            }
            i = i + 1;
        }
        assert(self@.take(self@.len() as int) =~= self@);
        if out.len() == 0 {
            None
        } else {
            Some(out)
        }
    }

    /// Take in claims, up to the first bad one.
    pub fn take_in(
        &mut self,
        keys: Option<(VerifyingKey, VerifyingKey)>,
        game_id: &GameId,
        incoming: &Vec<SignedConclusion>,
    ) -> (r: Result<(), String>)
        ensures
            (final(self)@, fault(r)) == claims_after(old(self)@, incoming@, keys, *game_id),
    {
        let ghost before = self@;
        let mut i: usize = 0;
        while i < incoming.len()
            invariant
                i <= incoming@.len(),
                before == old(self)@,
                claims_after(before, incoming@.take(i as int), keys, *game_id) == (
                    self@,
                    None::<Seq<char>>,
                ),
            decreases incoming.len() - i,
        {
            let ghost next = incoming@.take(i + 1);
            assert(next.drop_last() =~= incoming@.take(i as int));
            assert(next.last() == incoming@[i as int]);
            match incoming[i].check(keys, game_id) {
                Ok(()) => {},
                Err(e) => {
                    proof {
                        lemma_claims_stop(before, incoming@, keys, *game_id, i + 1);
                    }
                    return Err(e);
                },
            }
            self.absorb(incoming[i]);
            i = i + 1;
        }
        assert(incoming@.take(incoming@.len() as int) =~= incoming@);
        Ok(())
    }

    pub fn apply_delta(
        &mut self,
        parent: &ChessGameStateV1,
        params: &ChessGameParametersV1,
        delta: &Option<Vec<SignedConclusion>>,
    ) -> (r: Result<(), String>)
        ensures
            match *delta {
                Some(d) => (final(self)@, fault(r)) == claims_after(
                    old(self)@,
                    d@,
                    keys_of(parent@),
                    params.game_id,
                ),
                None => r is Ok && final(self)@ == old(self)@,
            },
    {
        match delta {
            Some(d) => self.take_in(parent.player_keys(), &params.game_id, d),
            None => Ok(()),
        }
    }
}

fn was_signed(told: &Vec<Vec<u8>>, c: &SignedConclusion) -> (r: bool)
    ensures
        r == sig_told(byte_strings(told@), *c),
{
    let mut i: usize = 0;
    while i < told.len()
        invariant
            i <= told@.len(),
            forall|j: int| 0 <= j < i ==> (#[trigger] told@[j])@ != c.signature.0@,
        decreases told.len() - i,
    {
        if same_bytes(told[i].as_slice(), c.signature.0.as_slice()) {
            assert(byte_strings(told@)[i as int] == c.signature.0@);
            return true;
        }
        i = i + 1;
    }
    false
}

/// Put a claim into an ordered list, behind those that do not come after it.
fn insert_claim(claims: &mut Vec<SignedConclusion>, c: SignedConclusion)
    ensures
        final(claims)@ == inserted(old(claims)@, c),
{
    let ghost before = claims@;
    let n = claims.len();
    let mut i: usize = n;
    let ghost mut tail = Seq::<SignedConclusion>::empty();
    assert(before.take(n as int) =~= before);
    assert(inserted(before, c) =~= inserted(before.take(i as int), c) + tail);
    while i > 0 && c.comes_before(&claims[i - 1])
        invariant
            i <= n,
            n == before.len(),
            claims@ == before,
            tail == before.skip(i as int),
            inserted(before, c) == inserted(before.take(i as int), c) + tail,
        decreases i,
    {
        proof {
            let front = before.take(i as int);
            assert(front.drop_last() =~= before.take(i - 1));
            assert(front.last() == before[i - 1]);
            let grown = before.skip(i - 1);
            assert(inserted(before.take(i - 1), c) + grown =~= inserted(front, c) + tail);
            tail = grown;
        }
        i = i - 1;
    }
    claims.insert(i, c);
    assert(claims@ =~= before.take(i as int).push(c) + tail);
}

} // verus!
