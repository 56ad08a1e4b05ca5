//! The second seat: offers to take it, the creator's choice among them, and
//! the invited player's refusal.
//!
//! An offer alone seats nobody. The seat is filled once the creator
//! countersigns one offer, so that no claim about time decides who plays.

use super::setup::{
    enough_work, first_nonce, leading_zero_bits, nickname_fault, search_nonce, SignedGameSetup,
    MAX_NICKNAME_LEN, POW_DIFFICULTY_BITS,
};
use super::{
    domain, domain_bytes, push_text, sig_less, sig_rank, text_field, ChessGameParametersV1,
    ChessGameStateV1,
};
use crate::bytes::{le64, le_i64, push_all, push_i64, push_u64};
use crate::crypto::{blake3_digest, blake3_hash, Signature, SigningKey, VerifyingKey};
use crate::identity::{
    digest_of, id_of, sig_fault, signature_digest, verify_sig, GameId, PlayerId,
};
use crate::sorted_map::{first_entries, lemma_first_entries, listing, views, SortedMap};
use crate::sync::{held, marks_of, missing, missing_from, summarize_map, Record};
use crate::text::{fault, first_fault, lemma_first_fault_stays};
use vstd::prelude::*;
use vstd::string::*;

verus! {

/// How many offers a game keeps while its seat is open.
pub const MAX_JOIN_OFFERS: usize = 16;

/// A challenger's offer to take the open seat.
#[derive(Debug, PartialEq, Eq)]
pub struct SignedJoin {
    pub player: VerifyingKey,
    /// When the challenger says the offer was made, in Unix milliseconds. It
    /// feeds the clocks and decides nothing else.
    pub joined_at: i64,
    pub nickname: String,
    /// Shows the work that making an offer takes.
    pub pow_nonce: u64,
    pub signature: Signature,
}

impl Clone for SignedJoin {
    fn clone(&self) -> (r: Self)
        ensures
            r == *self,
    {
        SignedJoin {
            player: self.player,
            joined_at: self.joined_at,
            nickname: self.nickname.clone(),
            pow_nonce: self.pow_nonce,
            signature: self.signature,
        }
    }
}

impl View for SignedJoin {
    type V = SignedJoin;

    open spec fn view(&self) -> SignedJoin {
        *self
    }
}

impl Record for SignedJoin {
    open spec fn mark_of(v: SignedJoin) -> u64 {
        digest_of(v.signature)
    }

    fn read_mark(&self) -> (r: u64) {
        signature_digest(&self.signature)
    }

    fn duplicate(&self) -> (r: Self) {
        self.clone()
    }
}

/// What is hashed to show an offer's work, but for the nonce.
pub open spec fn offer_prefix(game_id: GameId, player: VerifyingKey) -> Seq<u8> {
    domain("joinpow:"@) + game_id.0@ + player.0@
}

/// The digest that shows an offer's work.
pub open spec fn offer_digest(game_id: GameId, player: VerifyingKey, nonce: u64) -> [u8; 32] {
    blake3_digest(offer_prefix(game_id, player) + le64(nonce))
}

/// What a challenger signs.
pub open spec fn join_bytes(
    game_id: GameId,
    player: VerifyingKey,
    joined_at: i64,
    nickname: Seq<char>,
    nonce: u64,
) -> Seq<u8> {
    domain("join:"@) + game_id.0@ + player.0@ + le_i64(joined_at) + le64(nonce) + text_field(
        nickname,
    )
}

pub open spec fn bytes_of_join(game_id: GameId, j: SignedJoin) -> Seq<u8> {
    join_bytes(game_id, j.player, j.joined_at, j.nickname@, j.pow_nonce)
}

/// What is wrong with an offer under a game's parameters.
pub open spec fn join_fault(j: SignedJoin, params: ChessGameParametersV1) -> Option<Seq<char>> {
    if j.player == params.creator {
        Some("the creator cannot join their own game"@)
    } else if nickname_fault(j.nickname@) is Some {
        nickname_fault(j.nickname@)
    } else if j.joined_at <= 0 {
        Some("joined_at must be positive"@)
    } else if !enough_work(offer_digest(params.game_id, j.player, j.pow_nonce)) {
        Some("join does not carry enough proof-of-work"@)
    } else {
        sig_fault(j.player, bytes_of_join(params.game_id, j), j.signature, "join"@)
    }
}

/// The player a game's terms invite, if they invite one.
pub open spec fn invited(setup: Option<SignedGameSetup>) -> Option<VerifyingKey> {
    match setup {
        Some(s) => s.setup.challenged,
        None => None,
    }
}

/// Only the invited player may take up a challenge.
pub open spec fn invitation_fault(j: SignedJoin, setup: Option<SignedGameSetup>) -> Option<
    Seq<char>,
> {
    match invited(setup) {
        Some(key) => if key != j.player {
            Some("this game is a direct challenge to a different player"@)
        } else {
            None
        },
        None => None,
    }
}

/// What is wrong with an offer in a game.
pub open spec fn offer_fault(
    j: SignedJoin,
    setup: Option<SignedGameSetup>,
    params: ChessGameParametersV1,
) -> Option<Seq<char>> {
    match join_fault(j, params) {
        Some(e) => Some(e),
        None => invitation_fault(j, setup),
    }
}

impl SignedJoin {
    fn work_bytes(game_id: &GameId, player: &VerifyingKey) -> (r: Vec<u8>)
        ensures
            r@ == offer_prefix(*game_id, *player),
    {
        let mut buf = domain_bytes("joinpow:");
        push_all(&mut buf, game_id.0.as_slice());
        push_all(&mut buf, player.0.as_slice());
        buf
    }

    fn pow_digest(game_id: &GameId, player: &VerifyingKey, pow_nonce: u64) -> (r: [u8; 32])
        ensures
            r == offer_digest(*game_id, *player, pow_nonce),
    {
        let mut buf = SignedJoin::work_bytes(game_id, player);
        push_u64(&mut buf, pow_nonce);
        blake3_hash(buf.as_slice())
    }

    fn signing_bytes(
        game_id: &GameId,
        player: &VerifyingKey,
        joined_at: i64,
        nickname: &str,
        pow_nonce: u64,
    ) -> (r: Vec<u8>)
        ensures
            r@ == join_bytes(*game_id, *player, joined_at, nickname@, pow_nonce),
    {
        let mut buf = domain_bytes("join:");
        push_all(&mut buf, game_id.0.as_slice());
        push_all(&mut buf, player.0.as_slice());
        push_i64(&mut buf, joined_at);
        push_u64(&mut buf, pow_nonce);
        push_text(&mut buf, nickname);
        buf
    }

    /// Do the work for an offer and sign it.
    pub fn new(key: &SigningKey, game_id: &GameId, joined_at: i64, nickname: String) -> (r:
        SignedJoin)
        ensures
            r.player == key.public(),
            r.joined_at == joined_at,
            r.nickname == nickname,
            first_nonce(offer_prefix(*game_id, r.player), r.pow_nonce),
            r.signature == key.signed(bytes_of_join(*game_id, r)),
            sig_fault(r.player, bytes_of_join(*game_id, r), r.signature, "join"@) is None,
    {
        let player = key.verifying_key();
        let pow_nonce = search_nonce(SignedJoin::work_bytes(game_id, &player));
        let message = SignedJoin::signing_bytes(
            game_id,
            &player,
            joined_at,
            nickname.as_str(),
            pow_nonce,
        );
        let signature = key.sign(message.as_slice());
        SignedJoin { player, joined_at, nickname, pow_nonce, signature }
    }

    pub fn player_id(&self) -> (r: PlayerId)
        ensures
            r == id_of(self.player),
    {
        PlayerId::from(&self.player)
    }

    pub fn verify(&self, params: &ChessGameParametersV1) -> (r: Result<(), String>)
        ensures
            fault(r) == join_fault(*self, *params),
    {
        if self.player.same(&params.creator) {
            return Err("the creator cannot join their own game".to_string());
        }
        if self.nickname.as_str().len() > MAX_NICKNAME_LEN {
            return Err("nickname longer than 32 bytes".to_string());
        }
        if self.joined_at <= 0 {
            return Err("joined_at must be positive".to_string());
        }
        let digest = SignedJoin::pow_digest(&params.game_id, &self.player, self.pow_nonce);
        if leading_zero_bits(digest.as_slice()) < POW_DIFFICULTY_BITS {
            return Err("join does not carry enough proof-of-work".to_string());
        }
        let message = SignedJoin::signing_bytes(
            &params.game_id,
            &self.player,
            self.joined_at,
            self.nickname.as_str(),
            self.pow_nonce,
        );
        verify_sig(&self.player, message.as_slice(), &self.signature, "join")
    }

    /// Only the invited player may take up a challenge.
    fn check_invitation(&self, setup: &Option<SignedGameSetup>) -> (r: Result<(), String>)
        ensures
            fault(r) == invitation_fault(*self, *setup),
    {
        match setup {
            Some(s) => match s.setup.challenged {
                Some(key) => if !key.same(&self.player) {
                    Err("this game is a direct challenge to a different player".to_string())
                } else {
                    Ok(())
                },
                None => Ok(()),
            },
            None => Ok(()),
        }
    }

    fn check_offer(&self, setup: &Option<SignedGameSetup>, params: &ChessGameParametersV1) -> (r:
        Result<(), String>)
        ensures
            fault(r) == offer_fault(*self, *setup, *params),
    {
        match self.verify(params) {
            Ok(()) => self.check_invitation(setup),
            Err(e) => Err(e),
        }
    }
}

/// The invited player's refusal of a challenge.
#[derive(Debug, Clone, Copy, PartialEq, Eq)]
pub struct SignedDecline {
    pub player: VerifyingKey,
    pub at: i64,
    pub signature: Signature,
}

/// What the invited player signs to refuse.
pub open spec fn decline_bytes(game_id: GameId, player: VerifyingKey, at: i64) -> Seq<u8> {
    domain("decline:"@) + game_id.0@ + player.0@ + le_i64(at)
}

pub open spec fn decline_fault(
    d: SignedDecline,
    params: ChessGameParametersV1,
    challenged: Option<VerifyingKey>,
) -> Option<Seq<char>> {
    match challenged {
        None => Some("only a direct challenge can be declined"@),
        Some(key) => if d.player != key {
            Some("only the challenged player may decline"@)
        } else if d.at <= 0 {
            Some("decline timestamp must be positive"@)
        } else {
            sig_fault(
                d.player,
                decline_bytes(params.game_id, d.player, d.at),
                d.signature,
                "decline"@,
            )
        },
    }
}

fn decline_signing_bytes(game_id: &GameId, player: &VerifyingKey, at: i64) -> (r: Vec<u8>)
    ensures
        r@ == decline_bytes(*game_id, *player, at),
{
    let mut buf = domain_bytes("decline:");
    push_all(&mut buf, game_id.0.as_slice());
    push_all(&mut buf, player.0.as_slice());
    push_i64(&mut buf, at);
    buf
}

impl SignedDecline {
    pub fn new(key: &SigningKey, game_id: &GameId, at: i64) -> (r: SignedDecline)
        ensures
            r.player == key.public(),
            r.at == at,
            r.signature == key.signed(decline_bytes(*game_id, r.player, at)),
            sig_fault(r.player, decline_bytes(*game_id, r.player, at), r.signature, "decline"@) is None,
    {
        let player = key.verifying_key();
        let message = decline_signing_bytes(game_id, &player, at);
        SignedDecline { player, at, signature: key.sign(message.as_slice()) }
    }

    pub fn player_id(&self) -> (r: PlayerId)
        ensures
            r == id_of(self.player),
    {
        PlayerId::from(&self.player)
    }

    pub fn verify(
        &self,
        params: &ChessGameParametersV1,
        challenged: Option<VerifyingKey>,
    ) -> (r: Result<(), String>)
        ensures
            fault(r) == decline_fault(*self, *params, challenged),
    {
        match challenged {
            None => Err("only a direct challenge can be declined".to_string()),
            Some(key) => {
                if !self.player.same(&key) {
                    return Err("only the challenged player may decline".to_string());
                }
                if self.at <= 0 {
                    return Err("decline timestamp must be positive".to_string());
                }
                let message = decline_signing_bytes(&params.game_id, &self.player, self.at);
                verify_sig(&self.player, message.as_slice(), &self.signature, "decline")
            },
        }
    }
}

/// The creator's countersignature, which seats one challenger.
#[derive(Debug, PartialEq, Eq)]
pub struct SignedAcceptance {
    pub join: SignedJoin,
    pub signature: Signature,
}

impl Clone for SignedAcceptance {
    fn clone(&self) -> (r: Self)
        ensures
            r == *self,
    {
        SignedAcceptance { join: self.join.clone(), signature: self.signature }
    }
}

/// What the creator signs to seat a challenger. The offer's own signature is
/// in it, and that covers the whole offer.
pub open spec fn acceptance_bytes(game_id: GameId, j: SignedJoin) -> Seq<u8> {
    domain("accept:"@) + game_id.0@ + j.player.0@ + j.signature.0@
}

pub open spec fn acceptance_fault(a: SignedAcceptance, params: ChessGameParametersV1) -> Option<
    Seq<char>,
> {
    match join_fault(a.join, params) {
        Some(e) => Some(e),
        None => sig_fault(
            params.creator,
            acceptance_bytes(params.game_id, a.join),
            a.signature,
            "seat acceptance"@,
        ),
    }
}

/// What is wrong with a filled seat in a game.
pub open spec fn seat_fault(
    a: SignedAcceptance,
    setup: Option<SignedGameSetup>,
    params: ChessGameParametersV1,
) -> Option<Seq<char>> {
    match acceptance_fault(a, params) {
        Some(e) => Some(e),
        None => invitation_fault(a.join, setup),
    }
}

impl SignedAcceptance {
    fn signing_bytes(game_id: &GameId, join: &SignedJoin) -> (r: Vec<u8>)
        ensures
            r@ == acceptance_bytes(*game_id, *join),
    {
        let mut buf = domain_bytes("accept:");
        push_all(&mut buf, game_id.0.as_slice());
        push_all(&mut buf, join.player.0.as_slice());
        push_all(&mut buf, join.signature.0.as_slice());
        buf
    }

    /// Countersign an offer.
    pub fn new(key: &SigningKey, game_id: &GameId, join: SignedJoin) -> (r: SignedAcceptance)
        ensures
            r.join == join,
            r.signature == key.signed(acceptance_bytes(*game_id, join)),
            sig_fault(
                key.public(),
                acceptance_bytes(*game_id, join),
                r.signature,
                "seat acceptance"@,
            ) is None,
    {
        let message = SignedAcceptance::signing_bytes(game_id, &join);
        let signature = key.sign(message.as_slice());
        SignedAcceptance { join, signature }
    }

    pub fn verify(&self, params: &ChessGameParametersV1) -> (r: Result<(), String>)
        ensures
            fault(r) == acceptance_fault(*self, *params),
    {
        match self.join.verify(params) {
            Ok(()) => {},
            Err(e) => return Err(e),
        }
        let message = SignedAcceptance::signing_bytes(&params.game_id, &self.join);
        verify_sig(&params.creator, message.as_slice(), &self.signature, "seat acceptance")
    }

    fn check_seat(&self, setup: &Option<SignedGameSetup>, params: &ChessGameParametersV1) -> (r:
        Result<(), String>)
        ensures
            fault(r) == seat_fault(*self, *setup, *params),
    {
        match self.verify(params) {
            Ok(()) => self.join.check_invitation(setup),
            Err(e) => Err(e),
        }
    }
}

/// The second seat: the offers on the table, the countersigned seat, and a
/// refusal.
#[derive(Debug, Clone, PartialEq, Eq)]
pub struct OpponentSlotV1 {
    /// Offers, each under its challenger's key.
    pub offers: SortedMap<[u8; 32], SignedJoin>,
    pub seated: Option<SignedAcceptance>,
    pub declined: Option<SignedDecline>,
}

/// What the seat's record holds.
#[verifier::ext_equal]
pub struct SlotView {
    pub offers: Map<[u8; 32], SignedJoin>,
    pub seated: Option<SignedAcceptance>,
    pub declined: Option<SignedDecline>,
}

impl View for OpponentSlotV1 {
    type V = SlotView;

    open spec fn view(&self) -> SlotView {
        SlotView { offers: self.offers@, seated: self.seated, declined: self.declined }
    }
}

pub open spec fn empty_slot() -> SlotView {
    SlotView { offers: Map::empty(), seated: None, declined: None }
}

impl Default for OpponentSlotV1 {
    fn default() -> (r: Self)
        ensures
            r@ == empty_slot(),
    {
        OpponentSlotV1 { offers: SortedMap::new(), seated: None, declined: None }
    }
}

/// Of two offers from one player the one whose signature comes first stays.
pub open spec fn absorb_offer(
    offers: Map<[u8; 32], SignedJoin>,
    j: SignedJoin,
) -> Map<[u8; 32], SignedJoin> {
    if offers.contains_key(j.player.0) && sig_rank(offers[j.player.0].signature) <= sig_rank(
        j.signature,
    ) {
        offers
    } else {
        offers.insert(j.player.0, j)
    }
}

/// Of two seats the one whose signature comes first stays.
pub open spec fn absorb_seat(
    seated: Option<SignedAcceptance>,
    a: SignedAcceptance,
) -> Option<SignedAcceptance> {
    match seated {
        Some(current) => if sig_rank(a.signature) < sig_rank(current.signature) {
            Some(a)
        } else {
            seated
        },
        None => Some(a),
    }
}

/// Of two refusals the one whose signature comes first stays.
pub open spec fn absorb_decline(
    declined: Option<SignedDecline>,
    d: SignedDecline,
) -> Option<SignedDecline> {
    match declined {
        Some(current) => if sig_rank(d.signature) < sig_rank(current.signature) {
            Some(d)
        } else {
            declined
        },
        None => Some(d),
    }
}

/// The offers once a list of them has come in, up to the first bad one, and
/// what was wrong with that.
pub open spec fn offers_after(
    offers: Map<[u8; 32], SignedJoin>,
    incoming: Seq<SignedJoin>,
    setup: Option<SignedGameSetup>,
    params: ChessGameParametersV1,
) -> (Map<[u8; 32], SignedJoin>, Option<Seq<char>>)
    decreases incoming.len(),
{
    if incoming.len() == 0 {
        (offers, None)
    } else {
        let (before, e) = offers_after(offers, incoming.drop_last(), setup, params);
        if e is Some {
            (before, e)
        } else if offer_fault(incoming.last(), setup, params) is Some {
            (before, offer_fault(incoming.last(), setup, params))
        } else {
            (absorb_offer(before, incoming.last()), None)
        }
    }
}

/// The seat's record once an update has come in, up to the first bad part of
/// it, and what was wrong with that.
pub open spec fn slot_after(
    s: SlotView,
    d: SlotChange,
    setup: Option<SignedGameSetup>,
    params: ChessGameParametersV1,
) -> (SlotView, Option<Seq<char>>) {
    let (offers, e) = offers_after(s.offers, d.offers, setup, params);
    let s1 = SlotView { offers, ..s };
    if e is Some {
        (s1, e)
    } else {
        let seat_e = match d.seated {
            Some(a) => seat_fault(a, setup, params),
            None => None,
        };
        if seat_e is Some {
            (s1, seat_e)
        } else {
            let s2 = SlotView {
                seated: match d.seated {
                    Some(a) => absorb_seat(s.seated, a),
                    None => s.seated,
                },
                ..s1
            };
            match d.declined {
                None => (s2, None),
                Some(dec) => if decline_fault(dec, params, invited(setup)) is Some {
                    (s2, decline_fault(dec, params, invited(setup)))
                } else {
                    (SlotView { declined: absorb_decline(s.declined, dec), ..s2 }, None)
                },
            }
        }
    }
}

/// What is left of the record: a filled seat makes the rest moot, a refusal
/// makes the offers moot, and too many offers are cut.
pub open spec fn slot_pruned(s: SlotView) -> SlotView {
    if s.seated is Some {
        SlotView { offers: Map::empty(), seated: s.seated, declined: None }
    } else if s.declined is Some {
        SlotView { offers: Map::empty(), ..s }
    } else {
        SlotView { offers: first_entries(s.offers, MAX_JOIN_OFFERS as int), ..s }
    }
}

pub open spec fn offer_faults(
    offers: Map<[u8; 32], SignedJoin>,
    setup: Option<SignedGameSetup>,
    params: ChessGameParametersV1,
) -> spec_fn(int) -> Option<Seq<char>> {
    |i: int| offer_fault(listing(offers)[i].1, setup, params)
}

/// What is wrong with the seat's record.
pub open spec fn slot_fault(
    s: SlotView,
    setup: Option<SignedGameSetup>,
    params: ChessGameParametersV1,
) -> Option<Seq<char>> {
    let offers = first_fault(offer_faults(s.offers, setup, params), listing(s.offers).len());
    let seat = match s.seated {
        Some(a) => seat_fault(a, setup, params),
        None => None,
    };
    if offers is Some {
        offers
    } else if seat is Some {
        seat
    } else {
        match s.declined {
            Some(d) => decline_fault(d, params, invited(setup)),
            None => None,
        }
    }
}

/// What a peer tells of its record: marks of the offers, the seat and the
/// refusal.
pub type OpponentSummary = (Vec<([u8; 32], u64)>, Option<u64>, Option<u64>);

/// What is told of a record of the seat.
#[verifier::ext_equal]
pub struct SlotTold {
    pub offers: Seq<([u8; 32], u64)>,
    pub seated: Option<u64>,
    pub declined: Option<u64>,
}

pub open spec fn slot_told(s: SlotView) -> SlotTold {
    SlotTold {
        offers: marks_of::<[u8; 32], SignedJoin>(listing(s.offers)),
        seated: match s.seated {
            Some(a) => Some(digest_of(a.signature)),
            None => None,
        },
        declined: match s.declined {
            Some(d) => Some(digest_of(d.signature)),
            None => None,
        },
    }
}

/// What a summary tells.
pub open spec fn told_in(summary: OpponentSummary) -> SlotTold {
    SlotTold { offers: summary.0@, seated: summary.1, declined: summary.2 }
}

/// An update of the seat's record.
#[verifier::ext_equal]
pub struct SlotChange {
    pub offers: Seq<SignedJoin>,
    pub seated: Option<SignedAcceptance>,
    pub declined: Option<SignedDecline>,
}

/// What was not told of a record of the seat.
pub open spec fn slot_untold(s: SlotView, told: SlotTold) -> SlotChange {
    SlotChange {
        offers: missing::<[u8; 32], SignedJoin>(listing(s.offers), told.offers),
        seated: match s.seated {
            Some(a) => if told.seated == Some(digest_of(a.signature)) {
                None
            } else {
                Some(a)
            },
            None => None,
        },
        declined: match s.declined {
            Some(d) => if told.declined == Some(digest_of(d.signature)) {
                None
            } else {
                Some(d)
            },
            None => None,
        },
    }
}

/// What is sent to one who told of a record of the seat.
pub open spec fn slot_change(s: SlotView, told: SlotTold) -> Option<SlotChange> {
    let change = slot_untold(s, told);
    if change.offers.len() == 0 && change.seated is None && change.declined is None {
        None
    } else {
        Some(change)
    }
}

impl OpponentSlotV1 {
    /// The seated opponent. Without one there is no legal move.
    pub fn get(&self) -> (r: Option<&SignedJoin>)
        ensures
            match r {
                Some(j) => self@.seated is Some && *j == self@.seated->0.join,
                None => self@.seated is None,
            },
    {
        match &self.seated {
            Some(a) => Some(&a.join),
            None => None,
        }
    }

    pub fn is_declined(&self) -> (r: bool)
        ensures
            r == (self@.declined is Some),
    {
        self.declined.is_some()
    }

    pub fn accepted(&self) -> (r: Option<&SignedAcceptance>)
        ensures
            match r {
                Some(a) => self@.seated == Some(*a),
                None => self@.seated is None,
            },
    {
        self.seated.as_ref()
    }

    /// The offers the creator can still accept, by key.
    pub fn pending_offers(&self) -> (r: Vec<&SignedJoin>)
        ensures
            r@.len() == listing(self@.offers).len(),
            forall|i: int| 0 <= i < r@.len() ==> *(#[trigger] r@[i]) == listing(self@.offers)[i].1,
    {
        let _ = self.offers.len();
        self.offers.values()
    }

    pub fn has_offer_from(&self, player: &VerifyingKey) -> (r: bool)
        ensures
            r == self@.offers.contains_key(player.0),
    {
        self.offers.contains_key(&player.0)
    }

    fn absorb_offer(&mut self, incoming: SignedJoin)
        ensures
            final(self)@ == (SlotView {
                offers: absorb_offer(old(self)@.offers, incoming),
                ..old(self)@
            }),
    {
        let stays = match self.offers.get(&incoming.player.0) {
            Some(existing) => !sig_less(&incoming.signature, &existing.signature),
            None => false,
        };
        if !stays {
            self.offers.insert(incoming.player.0, incoming);
        }
    }

    fn absorb_decline(&mut self, incoming: SignedDecline)
        ensures
            final(self)@ == (SlotView {
                declined: absorb_decline(old(self)@.declined, incoming),
                ..old(self)@
            }),
    {
        let stays = match &self.declined {
            Some(current) => !sig_less(&incoming.signature, &current.signature),
            None => false,
        };
        if !stays {
            self.declined = Some(incoming);
        }
    }

    fn absorb_seat(&mut self, incoming: SignedAcceptance)
        ensures
            final(self)@ == (SlotView {
                seated: absorb_seat(old(self)@.seated, incoming),
                ..old(self)@
            }),
    {
        let stays = match &self.seated {
            Some(current) => !sig_less(&incoming.signature, &current.signature),
            None => false,
        };
        if !stays {
            self.seated = Some(incoming);
        }
    }

    /// Drop what the record no longer has a use for.
    pub fn prune(&mut self)
        ensures
            final(self)@ == slot_pruned(old(self)@),
    {
        if self.seated.is_some() {
            self.offers.clear();
            self.declined = None;
        } else if self.declined.is_some() {
            self.offers.clear();
        } else {
            let n = self.offers.len();
            if n > MAX_JOIN_OFFERS {
                self.offers.truncate(MAX_JOIN_OFFERS);
            }
        }
    }

    /// Check the record against a game's terms.
    pub fn check(&self, setup: &Option<SignedGameSetup>, params: &ChessGameParametersV1) -> (r:
        Result<(), String>)
        ensures
            fault(r) == slot_fault(self@, *setup, *params),
    {
        let n = self.offers.len();
        let ghost faults = offer_faults(self@.offers, *setup, *params);
        let mut i: usize = 0;
        while i < n
            invariant
                i <= n,
                n == self.offers.spec_entries().len(),
                self.offers.spec_entries() == listing(self.offers@),
                faults == offer_faults(self@.offers, *setup, *params),
                first_fault(faults, i as nat) is None,
            decreases n - i,
        {
            match self.offers.value_at(i).check_offer(setup, params) {
                Ok(()) => {},
                Err(e) => {
                    proof {
                        assert(faults(i as int) == Some(e@));
                        lemma_first_fault_stays(faults, (i + 1) as nat, n as nat);
                    }
                    return Err(e);
                },
            }
            assert(faults(i as int) is None);
            i = i + 1;
        }
        match &self.seated {
            Some(a) => match a.check_seat(setup, params) {
                Ok(()) => {},
                Err(e) => return Err(e),
            },
            None => {},
        }
        match &self.declined {
            Some(d) => {
                let challenged = match setup {
                    Some(s) => s.setup.challenged,
                    None => None,
                };
                d.verify(params, challenged)
            },
            None => Ok(()),
        }
    }

    pub fn verify(&self, parent: &ChessGameStateV1, params: &ChessGameParametersV1) -> (r: Result<
        (),
        String,
    >)
        ensures
            fault(r) == slot_fault(self@, parent@.setup, *params),
    {
        self.check(&parent.setup.0, params)
    }

    pub fn summarize(&self, _parent: &ChessGameStateV1, _params: &ChessGameParametersV1) -> (r:
        OpponentSummary)
        ensures
            told_in(r) == slot_told(self@),
    {
        let seated = match &self.seated {
            Some(a) => Some(signature_digest(&a.signature)),
            None => None,
        };
        let declined = match &self.declined {
            Some(d) => Some(signature_digest(&d.signature)),
            None => None,
        };
        assert(views(self.offers@) =~= self.offers@);
        (summarize_map(&self.offers), seated, declined)
    }

    pub fn delta(
        &self,
        _parent: &ChessGameStateV1,
        _params: &ChessGameParametersV1,
        old_summary: &OpponentSummary,
    ) -> (r: Option<OpponentDelta>)
        ensures
            match r {
                Some(d) => slot_change(self@, told_in(*old_summary)) == Some(d@),
                None => slot_change(self@, told_in(*old_summary)) is None,
            },
    {
        assert(views(self.offers@) =~= self.offers@);
        let offers = missing_from(&self.offers, &old_summary.0);
        assert(held(offers@) =~= offers@);
        let seated = match &self.seated {
            Some(a) => if old_summary.1 == Some(signature_digest(&a.signature)) {
                None
            } else {
                Some(a.clone())
            },
            None => None,
        };
        let declined = match &self.declined {
            Some(d) => if old_summary.2 == Some(signature_digest(&d.signature)) {
                None
            } else {
                Some(*d)
            },
            None => None,
        };
        if offers.len() == 0 && seated.is_none() && declined.is_none() {
            None
        } else {
            Some(OpponentDelta { offers, seated, declined })
        }
    }

    /// Take in an update, up to the first bad part of it.
    pub fn take_in(
        &mut self,
        setup: &Option<SignedGameSetup>,
        params: &ChessGameParametersV1,
        d: &OpponentDelta,
    ) -> (r: Result<(), String>)
        ensures
            (final(self)@, fault(r)) == slot_after(old(self)@, d@, *setup, *params),
    {
        let ghost before = self@;
        let mut i: usize = 0;
        while i < d.offers.len()
            invariant
                i <= d.offers@.len(),
                self@ == (SlotView { offers: self@.offers, ..before }),
                before == old(self)@,
                offers_after(before.offers, d.offers@.take(i as int), *setup, *params) == (
                    self@.offers,
                    None::<Seq<char>>,
                ),
            decreases d.offers.len() - i,
        {
            let ghost next = d.offers@.take(i + 1);
            assert(next.drop_last() =~= d.offers@.take(i as int));
            assert(next.last() == d.offers@[i as int]);
            match d.offers[i].check_offer(setup, params) {
                Ok(()) => {},
                Err(e) => {
                    proof {
                        lemma_offers_stop(before.offers, d.offers@, *setup, *params, i + 1);
                    }
                    return Err(e);
                },
            }
            self.absorb_offer(d.offers[i].clone());
            i = i + 1;
        }
        assert(d.offers@.take(d.offers@.len() as int) =~= d.offers@);
        match &d.seated {
            Some(a) => {
                match a.check_seat(setup, params) {
                    Ok(()) => {},
                    Err(e) => return Err(e),
                }
                self.absorb_seat(a.clone());
            },
            None => {},
        }
        match &d.declined {
            Some(dec) => {
                let challenged = match setup {
                    Some(s) => s.setup.challenged,
                    None => None,
                };
                match dec.verify(params, challenged) {
                    Ok(()) => {},
                    Err(e) => return Err(e),
                }
                self.absorb_decline(*dec);
            },
            None => {},
        }
        Ok(())
    }

    pub fn apply_delta(
        &mut self,
        parent: &ChessGameStateV1,
        params: &ChessGameParametersV1,
        delta: &Option<OpponentDelta>,
    ) -> (r: Result<(), String>)
        ensures
            match *delta {
                Some(d) => (final(self)@, fault(r)) == slot_after(
                    old(self)@,
                    d@,
                    parent@.setup,
                    *params,
                ),
                None => r is Ok && final(self)@ == old(self)@,
            },
    {
        match delta {
            Some(d) => self.take_in(&parent.setup.0, params, d),
            None => Ok(()),
        }
    }
}

/// Nothing comes in after a bad offer.
proof fn lemma_offers_stop(
    offers: Map<[u8; 32], SignedJoin>,
    incoming: Seq<SignedJoin>,
    setup: Option<SignedGameSetup>,
    params: ChessGameParametersV1,
    n: int,
)
    requires
        0 <= n <= incoming.len(),
        offers_after(offers, incoming.take(n), setup, params).1 is Some,
    ensures
        offers_after(offers, incoming, setup, params) == offers_after(
            offers,
            incoming.take(n),
            setup,
            params,
        ),
    decreases incoming.len(),
{
    if n == incoming.len() {
        assert(incoming.take(n) =~= incoming);
    } else {
        assert(incoming.drop_last().take(n) =~= incoming.take(n));
        lemma_offers_stop(offers, incoming.drop_last(), setup, params, n);
    }
}

/// An update of the seat's record.
#[derive(Debug, Clone, PartialEq, Eq)]
pub struct OpponentDelta {
    pub offers: Vec<SignedJoin>,
    pub seated: Option<SignedAcceptance>,
    pub declined: Option<SignedDecline>,
}

impl View for OpponentDelta {
    type V = SlotChange;

    open spec fn view(&self) -> SlotChange {
        SlotChange { offers: self.offers@, seated: self.seated, declined: self.declined }
    }
}

impl OpponentDelta {
    /// What a challenger sends.
    pub fn offer(join: SignedJoin) -> (r: OpponentDelta)
        ensures
            r@ == (SlotChange { offers: seq![join], seated: None, declined: None }),
    {
        let mut offers: Vec<SignedJoin> = Vec::new();
        offers.push(join);
        assert(offers@ =~= seq![join]);
        OpponentDelta { offers, seated: None, declined: None }
    }

    /// What the creator sends to start the game.
    pub fn seat(acceptance: SignedAcceptance) -> (r: OpponentDelta)
        ensures
            r@ == (SlotChange { offers: Seq::empty(), seated: Some(acceptance), declined: None }),
    {
        OpponentDelta { offers: Vec::new(), seated: Some(acceptance), declined: None }
    }

    /// What the invited player sends to refuse.
    pub fn decline(decline: SignedDecline) -> (r: OpponentDelta)
        ensures
            r@ == (SlotChange { offers: Seq::empty(), seated: None, declined: Some(decline) }),
    {
        OpponentDelta { offers: Vec::new(), seated: None, declined: Some(decline) }
    }
}

/// Two offers come in alike in either order. Where two offers of one player
/// share a signature they must be one offer.
pub proof fn law_offers_commute(
    offers: Map<[u8; 32], SignedJoin>,
    a: SignedJoin,
    b: SignedJoin,
)
    requires
        sig_rank(a.signature) == sig_rank(b.signature) ==> a == b,
    ensures
        absorb_offer(absorb_offer(offers, a), b) == absorb_offer(absorb_offer(offers, b), a),
{
    assert(absorb_offer(absorb_offer(offers, a), b) =~= absorb_offer(absorb_offer(offers, b), a));
}

/// An offer that came in already changes nothing.
pub proof fn law_offers_come_in_once(offers: Map<[u8; 32], SignedJoin>, a: SignedJoin)
    ensures
        absorb_offer(absorb_offer(offers, a), a) == absorb_offer(offers, a),
{
}

/// Two seats come in alike in either order, so a creator who countersigns two
/// offers does not split the peers.
pub proof fn law_seats_commute(
    seated: Option<SignedAcceptance>,
    a: SignedAcceptance,
    b: SignedAcceptance,
)
    requires
        sig_rank(a.signature) == sig_rank(b.signature) ==> a == b,
    ensures
        absorb_seat(absorb_seat(seated, a), b) == absorb_seat(absorb_seat(seated, b), a),
        absorb_seat(absorb_seat(seated, a), a) == absorb_seat(seated, a),
{
}

/// Two refusals come in alike in either order.
pub proof fn law_declines_commute(
    declined: Option<SignedDecline>,
    a: SignedDecline,
    b: SignedDecline,
)
    requires
        sig_rank(a.signature) == sig_rank(b.signature) ==> a == b,
    ensures
        absorb_decline(absorb_decline(declined, a), b) == absorb_decline(
            absorb_decline(declined, b),
            a,
        ),
        absorb_decline(absorb_decline(declined, a), a) == absorb_decline(declined, a),
{
}

/// Nobody takes a seat without the creator: whoever sits there was
/// countersigned under the key in the game's parameters.
pub proof fn law_only_the_creator_seats(
    s: SlotView,
    setup: Option<SignedGameSetup>,
    params: ChessGameParametersV1,
)
    requires
        slot_fault(s, setup, params) is None,
        s.seated is Some,
    ensures
        crate::crypto::signature_fault(
            params.creator.0,
            acceptance_bytes(params.game_id, s.seated->0.join),
            s.seated->0.signature.0,
        ) is None,
        s.seated->0.join.player != params.creator,
        invited(setup) matches Some(key) ==> s.seated->0.join.player == key,
{
}

/// An offer leaves a filled seat as it is.
pub proof fn law_offers_leave_the_seat(
    s: SlotView,
    d: SlotChange,
    setup: Option<SignedGameSetup>,
    params: ChessGameParametersV1,
)
    requires
        d.seated is None,
    ensures
        slot_after(s, d, setup, params).0.seated == s.seated,
{
}

/// Pruning what was pruned changes nothing.
pub proof fn law_slot_pruning_is_idempotent(s: SlotView)
    requires
        s.offers.dom().finite(),
    ensures
        slot_pruned(slot_pruned(s)) == slot_pruned(s),
{
    if s.seated is None && s.declined is None {
        lemma_first_entries(s.offers, MAX_JOIN_OFFERS as int);
    }
}

} // verus!
