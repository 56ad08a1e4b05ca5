//! How the two players come to sign one record of their game.
//!
//! Each publishes the record they signed. Both must sign the same one, and two
//! of its entries, when the game finished and what the players were rated,
//! neither can work out alone. So one proposes and the other signs what was
//! proposed, or leaves the game unrated.

use super::{
    keys_of, over, played, result_of, sig_less, sig_rank, ChessGameParametersV1, ChessGameStateV1,
    GameResult, GameView,
};
use crate::bytes::{comes_first, lex_less};
use crate::certificate::{
    record_bytes, same_moves, CertificateDraft, Certified, GameCertificate, GameRecord,
    MAX_CERTIFICATE_TIME_MS,
};
use crate::chess::types::Move;
use crate::crypto::{Signature, SigningKey, VerifyingKey};
use crate::elo::{MAX_ELO, MIN_ELO};
use crate::game::setup::SignedGameSetup;
use crate::identity::{digest_of, sig_fault, signature_digest, verify_sig, GameId};
use crate::join::{orders, taken};
use crate::sorted_map::{
    lemma_flagged_map, lemma_listing_views, listing, restricted, views, SortedMap,
};
use crate::sync::{held, marks_of, missing, missing_from, summarize_map, Record};
use crate::text::{fault, first_fault, lemma_first_fault_stays};
use vstd::prelude::*;
use vstd::string::*;

verus! {

/// A record under one player's signature.
#[verifier::ext_equal]
pub struct Proposed {
    pub record: GameRecord,
    pub signer: VerifyingKey,
    pub signature: Signature,
}

/// One player's signature over a record, for the other to sign the same.
#[derive(Debug, PartialEq, Eq)]
pub struct SignedCertificateProposal {
    pub draft: CertificateDraft,
    pub signer: VerifyingKey,
    pub signature: Signature,
}

impl View for SignedCertificateProposal {
    type V = Proposed;

    open spec fn view(&self) -> Proposed {
        Proposed { record: self.draft@, signer: self.signer, signature: self.signature }
    }
}

impl Clone for SignedCertificateProposal {
    fn clone(&self) -> (r: Self)
        ensures
            r@ == self@,
    {
        SignedCertificateProposal {
            draft: self.draft.clone(),
            signer: self.signer,
            signature: self.signature,
        }
    }
}

impl Record for SignedCertificateProposal {
    open spec fn mark_of(v: Proposed) -> u64 {
        digest_of(v.signature)
    }

    fn read_mark(&self) -> (r: u64) {
        signature_digest(&self.signature)
    }

    fn duplicate(&self) -> (r: Self) {
        self.clone()
    }
}

/// What a game's record says of the game that is to be certified.
#[verifier::ext_equal]
pub struct Outcome {
    pub keys: Option<(VerifyingKey, VerifyingKey)>,
    pub result: GameResult,
    pub moves: Seq<Move>,
    pub setup: Option<SignedGameSetup>,
}

pub open spec fn outcome_of(g: GameView) -> Outcome {
    Outcome { keys: keys_of(g), result: result_of(g), moves: played(g), setup: g.setup }
}

/// What is wrong with a proposal for a game, the first thing first.
pub open spec fn proposal_fault(p: Proposed, o: Outcome, game_id: GameId) -> Option<Seq<char>> {
    match o.keys {
        None => Some("a game with no opponent cannot be certified"@),
        Some((white, black)) => if p.signer != white && p.signer != black {
            Some("only the two players may certify a game"@)
        } else if p.record.game_id != game_id {
            Some("certificate draft is for a different game"@)
        } else if p.record.white != white || p.record.black != black {
            Some("certificate draft names different players"@)
        } else if !over(o.result) {
            Some("the game is not over"@)
        } else if p.record.result != o.result {
            Some("certificate draft claims a different result"@)
        } else if p.record.moves != o.moves {
            Some("certificate draft carries a different move list"@)
        } else if o.setup is None {
            Some("the game has no setup"@)
        } else if p.record.time_control != o.setup->0.setup.time_control {
            Some("certificate draft claims a different time control"@)
        } else if p.record.finished_at < p.record.started_at || p.record.finished_at
            > MAX_CERTIFICATE_TIME_MS {
            Some("certificate draft has an implausible finish time"@)
        } else if !(MIN_ELO <= p.record.white_rating_before <= MAX_ELO) || !(MIN_ELO
            <= p.record.black_rating_before <= MAX_ELO) {
            Some("certificate draft has an out-of-range rating"@)
        } else {
            sig_fault(p.signer, record_bytes(p.record), p.signature, "certificate proposal"@)
        },
    }
}

fn rated(rating: i32) -> (r: bool)
    ensures
        r == (MIN_ELO <= rating <= MAX_ELO),
{
    MIN_ELO <= rating && rating <= MAX_ELO
}

impl SignedCertificateProposal {
    pub fn new(key: &SigningKey, draft: CertificateDraft) -> (r: SignedCertificateProposal)
        ensures
            r@ == (Proposed {
                record: draft@,
                signer: key.public(),
                signature: key.signed(record_bytes(draft@)),
            }),
            sig_fault(
                r@.signer,
                record_bytes(draft@),
                r@.signature,
                "certificate proposal"@,
            ) is None,
    {
        let signature = draft.sign(key);
        SignedCertificateProposal { draft, signer: key.verifying_key(), signature }
    }

    /// Whether two proposals are of one record.
    pub fn agrees_with(&self, other: &SignedCertificateProposal) -> (r: bool)
        ensures
            r == (self@.record == other@.record),
    {
        self.draft.same_record(&other.draft)
    }

    /// What rival records are ordered by.
    pub fn draft_order(&self) -> (r: Vec<u8>)
        ensures
            r@ == record_bytes(self@.record),
    {
        self.draft.signing_bytes()
    }

    /// Check the proposal against the game as its record has it.
    pub fn verify(&self, parent: &ChessGameStateV1, params: &ChessGameParametersV1) -> (r: Result<
        (),
        String,
    >)
        requires
            parent@.wf(),
        ensures
            fault(r) == proposal_fault(self@, outcome_of(parent@), params.game_id),
    {
        let moves = parent.moves.move_list();
        self.check(parent.player_keys(), parent.result(), &moves, &parent.setup.0, &params.game_id)
    }

    fn check(
        &self,
        keys: Option<(VerifyingKey, VerifyingKey)>,
        result: GameResult,
        moves: &Vec<Move>,
        setup: &Option<SignedGameSetup>,
        game_id: &GameId,
    ) -> (r: Result<(), String>)
        ensures
            fault(r) == proposal_fault(
                self@,
                (Outcome { keys, result, moves: moves@, setup: *setup }),
                *game_id,
            ),
    {
        let (white, black) = match keys {
            Some(ks) => ks,
            None => return Err("a game with no opponent cannot be certified".to_string()),
        };
        if !self.signer.same(&white) && !self.signer.same(&black) {
            return Err("only the two players may certify a game".to_string());
        }
        if !self.draft.game_id.same(game_id) {
            return Err("certificate draft is for a different game".to_string());
        }
        if !self.draft.white.same(&white) || !self.draft.black.same(&black) {
            return Err("certificate draft names different players".to_string());
        }
        if !result.is_over() {
            return Err("the game is not over".to_string());
        }
        if self.draft.result != result {
            return Err("certificate draft claims a different result".to_string());
        }
        if !same_moves(&self.draft.moves, moves) {
            return Err("certificate draft carries a different move list".to_string());
        }
        match setup {
            None => return Err("the game has no setup".to_string()),
            Some(s) => {
                if self.draft.time_control != s.setup.time_control {
                    return Err("certificate draft claims a different time control".to_string());
                }
            },
        }
        if self.draft.finished_at < self.draft.started_at || self.draft.finished_at
            > MAX_CERTIFICATE_TIME_MS {
            return Err("certificate draft has an implausible finish time".to_string());
        }
        if !rated(self.draft.white_rating_before) || !rated(self.draft.black_rating_before) {
            return Err("certificate draft has an out-of-range rating".to_string());
        }
        let message = self.draft.signing_bytes();
        verify_sig(&self.signer, message.as_slice(), &self.signature, "certificate proposal")
    }
}

/// Whether a proposal is to be kept over another by the same player: by the
/// bytes of their records, then by their signatures.
pub open spec fn kept_over(a: Proposed, b: Proposed) -> bool {
    let (x, y) = (record_bytes(a.record), record_bytes(b.record));
    lex_less(x, y) || (x == y && sig_rank(a.signature) <= sig_rank(b.signature))
}

/// Of two proposals by one player one stays.
pub open spec fn absorb_proposal(m: Map<[u8; 32], Proposed>, p: Proposed) -> Map<
    [u8; 32],
    Proposed,
> {
    if m.contains_key(p.signer.0) && kept_over(m[p.signer.0], p) {
        m
    } else {
        m.insert(p.signer.0, p)
    }
}

/// The proposals once a list of them has come in. Those that are wrong are
/// passed over.
pub open spec fn proposals_after(
    m: Map<[u8; 32], Proposed>,
    incoming: Seq<Proposed>,
    o: Outcome,
    game_id: GameId,
) -> Map<[u8; 32], Proposed>
    decreases incoming.len(),
{
    if incoming.len() == 0 {
        m
    } else {
        let before = proposals_after(m, incoming.drop_last(), o, game_id);
        if proposal_fault(incoming.last(), o, game_id) is Some {
            before
        } else {
            absorb_proposal(before, incoming.last())
        }
    }
}

pub open spec fn by_players(keys: (VerifyingKey, VerifyingKey)) -> spec_fn([u8; 32], Proposed) -> bool {
    |k: [u8; 32], p: Proposed| k == keys.0.0 || k == keys.1.0
}

/// The two players' proposals, once the game is over.
pub open spec fn proposals_pruned(
    m: Map<[u8; 32], Proposed>,
    keys: Option<(VerifyingKey, VerifyingKey)>,
    is_over: bool,
) -> Map<[u8; 32], Proposed> {
    match keys {
        Some(ks) => if is_over {
            restricted(m, by_players(ks))
        } else {
            Map::empty()
        },
        None => Map::empty(),
    }
}

pub open spec fn proposal_faults(m: Map<[u8; 32], Proposed>, o: Outcome, game_id: GameId) -> spec_fn(
    int,
) -> Option<Seq<char>> {
    |i: int| proposal_fault(listing(m)[i].1, o, game_id)
}

/// What is wrong with a game's proposals.
pub open spec fn proposals_fault(
    m: Map<[u8; 32], Proposed>,
    o: Outcome,
    game_id: GameId,
) -> Option<Seq<char>> {
    first_fault(proposal_faults(m, o, game_id), listing(m).len())
}

/// The certificate that two agreeing proposals make.
pub open spec fn certificate_of(
    m: Map<[u8; 32], Proposed>,
    keys: Option<(VerifyingKey, VerifyingKey)>,
) -> Option<Certified> {
    match keys {
        None => None,
        Some((white, black)) => if !m.contains_key(white.0) || !m.contains_key(black.0)
            || m[white.0].record != m[black.0].record {
            None
        } else {
            Some(
                Certified {
                    record: m[white.0].record,
                    white_signature: m[white.0].signature,
                    black_signature: m[black.0].signature,
                },
            )
        },
    }
}

/// Whether the record at a place is the one that both players should sign: none
/// comes before it, and none that ties with it stands before it.
pub open spec fn is_winner(m: Map<[u8; 32], Proposed>, i: int) -> bool {
    let es = listing(m);
    &&& 0 <= i < es.len()
    &&& forall|j: int|
        0 <= j < es.len() ==> !lex_less(
            record_bytes((#[trigger] es[j]).1.record),
            record_bytes(es[i].1.record),
        )
    &&& forall|j: int|
        0 <= j < i ==> lex_less(
            record_bytes(es[i].1.record),
            record_bytes((#[trigger] es[j]).1.record),
        )
}

/// The two halves of a certificate.
#[derive(Debug, Clone, PartialEq, Eq)]
pub struct CertificationV1 {
    /// Proposals, each under its signer's key.
    pub proposals: SortedMap<[u8; 32], SignedCertificateProposal>,
}

impl View for CertificationV1 {
    type V = Map<[u8; 32], Proposed>;

    open spec fn view(&self) -> Map<[u8; 32], Proposed> {
        views(self.proposals@)
    }
}

impl Default for CertificationV1 {
    fn default() -> (r: Self)
        ensures
            r@ == Map::<[u8; 32], Proposed>::empty(),
    {
        let r = CertificationV1 { proposals: SortedMap::new() };
        assert(r@ =~= Map::<[u8; 32], Proposed>::empty());
        r
    }
}

impl CertificationV1 {
    pub fn is_empty(&self) -> (r: bool)
        ensures
            r == (listing(self@).len() == 0),
    {
        let n = self.proposals.len();
        proof {
            lemma_listing_views(self.proposals@);
        }
        n == 0
    }

    pub fn proposal_by(&self, player: &VerifyingKey) -> (r: Option<&SignedCertificateProposal>)
        ensures
            match r {
                Some(p) => self@.contains_key(player.0) && self@[player.0] == p@,
                None => !self@.contains_key(player.0),
            },
    {
        self.proposals.get(&player.0)
    }

    /// The certificate, once both players have signed one record.
    pub fn certificate(&self, parent: &ChessGameStateV1) -> (r: Option<GameCertificate>)
        ensures
            match r {
                Some(c) => certificate_of(self@, keys_of(parent@)) == Some(c@),
                None => certificate_of(self@, keys_of(parent@)) is None,
            },
    {
        let (white, black) = match parent.player_keys() {
            Some(keys) => keys,
            None => return None,
        };
        let by_white = match self.proposal_by(&white) {
            Some(p) => p,
            None => return None,
        };
        let by_black = match self.proposal_by(&black) {
            Some(p) => p,
            None => return None,
        };
        if !by_white.agrees_with(by_black) {
            return None;
        }
        Some(by_white.draft.clone().assemble(by_white.signature, by_black.signature))
    }

    /// The record that both players should sign.
    pub fn winning_draft(&self) -> (r: Option<&CertificateDraft>)
        ensures
            match r {
                Some(d) => exists|i: int| #[trigger]
                    is_winner(self@, i) && listing(self@)[i].1.record == d@,
                None => listing(self@).len() == 0,
            },
    {
        let n = self.proposals.len();
        proof {
            lemma_listing_views(self.proposals@);
        }
        if n == 0 {
            return None;
        }
        let ghost es = listing(self@);
        let mut best: usize = 0;
        let mut order = self.proposals.value_at(0).draft_order();
        let mut i: usize = 1;
        proof {
            crate::bytes::lemma_lex_total(order@, order@);
        }
        while i < n
            invariant
                1 <= i <= n,
                best < i,
                n == self.proposals.spec_entries().len(),
                self.proposals.spec_entries() == listing(self.proposals@),
                es.len() == n,
                forall|j: int|
                    0 <= j < n ==> #[trigger] es[j] == (
                        listing(self.proposals@)[j].0,
                        listing(self.proposals@)[j].1@,
                    ),
                order@ == record_bytes(es[best as int].1.record),
                forall|j: int|
                    0 <= j < i ==> !lex_less(record_bytes((#[trigger] es[j]).1.record), order@),
                forall|j: int|
                    0 <= j < best ==> lex_less(order@, record_bytes((#[trigger] es[j]).1.record)),
            decreases n - i,
        {
            let next = self.proposals.value_at(i).draft_order();
            assert(es[i as int].1 == listing(self.proposals@)[i as int].1@);
            if comes_first(next.as_slice(), order.as_slice()) {
                proof {
                    let old_order = order@;
                    assert forall|j: int| 0 <= j < i implies lex_less(
                        next@,
                        record_bytes((#[trigger] es[j]).1.record),
                    ) by {
                        let x = record_bytes(es[j].1.record);
                        crate::bytes::lemma_lex_total(old_order, x);
                        if lex_less(old_order, x) {
                            crate::bytes::lemma_lex_transitive(next@, old_order, x);
                        }
                    }
                    assert forall|j: int| 0 <= j < i implies !lex_less(
                        record_bytes((#[trigger] es[j]).1.record),
                        next@,
                    ) by {
                        crate::bytes::lemma_lex_total(record_bytes(es[j].1.record), next@);
                    }
                    crate::bytes::lemma_lex_total(next@, next@);
                }
                order = next;
                best = i;
            }
            i = i + 1;
        }
        assert(is_winner(self@, best as int));
        Some(&self.proposals.value_at(best).draft)
    }

    fn absorb(&mut self, incoming: SignedCertificateProposal)
        ensures
            final(self)@ == absorb_proposal(old(self)@, incoming@),
    {
        let stays = match self.proposals.get(&incoming.signer.0) {
            Some(current) => {
                let x = current.draft_order();
                let y = incoming.draft_order();
                proof {
                    crate::bytes::lemma_lex_total(x@, y@);
                }
                comes_first(x.as_slice(), y.as_slice()) || (!comes_first(
                    y.as_slice(),
                    x.as_slice(),
                ) && !sig_less(&incoming.signature, &current.signature))
            },
            None => false,
        };
        if !stays {
            let ghost before = self.proposals@;
            let ghost added = incoming;
            self.proposals.insert(incoming.signer.0, incoming);
            assert(views(before.insert(added.signer.0, added)) =~= views(before).insert(
                added.signer.0,
                added@,
            ));
        }
    }

    /// Keep the two players' proposals, once the game is over.
    pub fn prune(&mut self, keys: Option<(VerifyingKey, VerifyingKey)>, is_over: bool)
        ensures
            final(self)@ == proposals_pruned(old(self)@, keys, is_over),
    {
        let ghost before = self.proposals@;
        let ks = match keys {
            Some(ks) => ks,
            None => {
                self.proposals.clear();
                assert(self@ =~= Map::<[u8; 32], Proposed>::empty());
                return;
            },
        };
        if !is_over {
            self.proposals.clear();
            assert(self@ =~= Map::<[u8; 32], Proposed>::empty());
            return;
        }
        let n = self.proposals.len();
        let ghost es = self.proposals.spec_entries();
        let ghost cond = |k: [u8; 32], p: SignedCertificateProposal|
            k == ks.0.0 || k == ks.1.0;
        let mut flags: Vec<bool> = Vec::new();
        let mut i: usize = 0;
        while i < n
            invariant
                i <= n,
                n == self.proposals.spec_entries().len(),
                es == self.proposals.spec_entries(),
                cond == (|k: [u8; 32], p: SignedCertificateProposal|
                    k == ks.0.0 || k == ks.1.0),
                flags@.len() == i,
                forall|j: int| 0 <= j < i ==> #[trigger] flags@[j] == cond(es[j].0, es[j].1),
            decreases n - i,
        {
            let k = self.proposals.key_at(i);
            flags.push(
                crate::bytes::bytes_equal(&k, &ks.0.0) || crate::bytes::bytes_equal(&k, &ks.1.0),
            );
            i = i + 1;
        }
        self.proposals.keep_flagged(&flags);
        proof {
            lemma_flagged_map(es, flags@, cond);
            assert(views(restricted(before, cond)) =~= restricted(views(before), by_players(ks)));
        }
    }

    pub fn verify(&self, parent: &ChessGameStateV1, params: &ChessGameParametersV1) -> (r: Result<
        (),
        String,
    >)
        requires
            parent@.wf(),
        ensures
            fault(r) == proposals_fault(self@, outcome_of(parent@), params.game_id),
    {
        let n = self.proposals.len();
        proof {
            lemma_listing_views(self.proposals@);
        }
        let ghost faults = proposal_faults(self@, outcome_of(parent@), params.game_id);
        let mut i: usize = 0;
        while i < n
            invariant
                i <= n,
                parent@.wf(),
                n == self.proposals.spec_entries().len(),
                self.proposals.spec_entries() == listing(self.proposals@),
                n == listing(self@).len(),
                forall|j: int|
                    0 <= j < n ==> #[trigger] listing(self@)[j] == (
                        listing(self.proposals@)[j].0,
                        listing(self.proposals@)[j].1@,
                    ),
                faults == proposal_faults(self@, outcome_of(parent@), params.game_id),
                first_fault(faults, i as nat) is None,
            decreases n - i,
        {
            assert(listing(self@)[i as int].1 == listing(self.proposals@)[i as int].1@);
            match self.proposals.value_at(i).verify(parent, params) {
                Ok(()) => {},
                Err(e) => {
                    proof {
                        assert(faults(i as int) == Some(e@));
                        lemma_first_fault_stays(faults, (i + 1) as nat, n as nat);
                    }
                    return Err(e);
                },
            }
            assert(faults(i as int) is None);
            i = i + 1;
        }
        Ok(())
    }

    pub fn summarize(&self, _parent: &ChessGameStateV1, _params: &ChessGameParametersV1) -> (r: Vec<
        ([u8; 32], u64),
    >)
        ensures
            r@ == marks_of::<[u8; 32], SignedCertificateProposal>(listing(self@)),
    {
        summarize_map(&self.proposals)
    }

    pub fn delta(
        &self,
        _parent: &ChessGameStateV1,
        _params: &ChessGameParametersV1,
        old_summary: &Vec<([u8; 32], u64)>,
    ) -> (r: Option<Vec<SignedCertificateProposal>>)
        ensures
            match r {
                Some(d) => held(d@) == missing::<[u8; 32], SignedCertificateProposal>(
                    listing(self@),
                    old_summary@,
                ) && d@.len() > 0,
                None => missing::<[u8; 32], SignedCertificateProposal>(
                    listing(self@),
                    old_summary@,
                ).len() == 0,
            },
    {
        let out = missing_from(&self.proposals, old_summary);
        assert(held(out@).len() == out@.len());
        if out.len() == 0 {
            None
        } else {
            Some(out)
        }
    }

    /// Take in the proposals that are right for a game.
    pub fn take_in(
        &mut self,
        keys: Option<(VerifyingKey, VerifyingKey)>,
        result: GameResult,
        moves: &Vec<Move>,
        setup: &Option<SignedGameSetup>,
        game_id: &GameId,
        incoming: &Vec<SignedCertificateProposal>,
    )
        ensures
            final(self)@ == proposals_after(
                old(self)@,
                held(incoming@),
                (Outcome { keys, result, moves: moves@, setup: *setup }),
                *game_id,
            ),
    {
        let ghost before = self@;
        let ghost all = held(incoming@);
        let ghost o = Outcome { keys, result, moves: moves@, setup: *setup };
        let mut i: usize = 0;
        assert(all.take(0) =~= Seq::<Proposed>::empty());
        while i < incoming.len()
            invariant
                i <= incoming@.len(),
                all == held(incoming@),
                o == (Outcome { keys, result, moves: moves@, setup: *setup }),
                self@ == proposals_after(before, all.take(i as int), o, *game_id),
            decreases incoming.len() - i,
        {
            let ghost next = all.take(i + 1);
            assert(next.drop_last() =~= all.take(i as int));
            assert(next.last() == incoming@[i as int]@);
            match incoming[i].check(keys, result, moves, setup, game_id) {
                Ok(()) => self.absorb(incoming[i].clone()),
                Err(_) => {},
            }
            i = i + 1;
        }
        assert(all.take(all.len() as int) =~= all);
    }

    pub fn apply_delta(
        &mut self,
        parent: &ChessGameStateV1,
        params: &ChessGameParametersV1,
        delta: &Option<Vec<SignedCertificateProposal>>,
    ) -> (r: Result<(), String>)
        requires
            parent@.wf(),
        ensures
            r is Ok,
            final(self)@ == (match *delta {
                Some(d) => proposals_after(
                    old(self)@,
                    held(d@),
                    outcome_of(parent@),
                    params.game_id,
                ),
                None => old(self)@,
            }),
    {
        match delta {
            Some(d) => {
                let moves = parent.moves.move_list();
                self.take_in(
                    parent.player_keys(),
                    parent.result(),
                    &moves,
                    &parent.setup.0,
                    &params.game_id,
                    d,
                );
                Ok(())
            },
            None => Ok(()),
        }
    }
}

/// Two proposals come in alike in either order. Where two of one player share
/// record and signature they must be one.
pub proof fn law_proposals_commute(m: Map<[u8; 32], Proposed>, a: Proposed, b: Proposed)
    requires
        record_bytes(a.record) == record_bytes(b.record) && sig_rank(a.signature) == sig_rank(
            b.signature,
        ) ==> a == b,
    ensures
        absorb_proposal(absorb_proposal(m, a), b) == absorb_proposal(absorb_proposal(m, b), a),
{
    let (x, y) = (record_bytes(a.record), record_bytes(b.record));
    crate::bytes::lemma_lex_total(x, y);
    if a.signer == b.signer && m.contains_key(a.signer.0) {
        let z = record_bytes(m[a.signer.0].record);
        crate::bytes::lemma_lex_total(z, x);
        crate::bytes::lemma_lex_total(z, y);
        if lex_less(z, x) && lex_less(x, y) {
            crate::bytes::lemma_lex_transitive(z, x, y);
        }
        if lex_less(z, y) && lex_less(y, x) {
            crate::bytes::lemma_lex_transitive(z, y, x);
        }
    }
    if a.signer.0 == b.signer.0 {
        assert(a.signer == b.signer);
    }
    assert(absorb_proposal(absorb_proposal(m, a), b) =~= absorb_proposal(
        absorb_proposal(m, b),
        a,
    ));
}

/// What a proposal is filed under.
pub open spec fn proposal_key() -> spec_fn(Proposed) -> [u8; 32] {
    |p: Proposed| p.signer.0
}

/// Whether a proposal takes the place of another.
pub open spec fn proposal_over() -> spec_fn(Proposed, Proposed) -> bool {
    |p: Proposed, q: Proposed| !kept_over(q, p)
}

/// Proposals are ordered by what they record, then by their signatures.
pub proof fn lemma_proposals_ordered()
    ensures
        orders(proposal_over()),
{
    let over = proposal_over();
    assert forall|x: Proposed| !(#[trigger] over(x, x)) by {
        crate::bytes::lemma_lex_total(record_bytes(x.record), record_bytes(x.record));
    }
    assert forall|x: Proposed, y: Proposed, z: Proposed|
        #![trigger over(x, y), over(y, z)]
        over(x, y) && over(y, z) implies over(x, z) by {
        lemma_proposals_three(x, y, z);
    }
    assert forall|x: Proposed, y: Proposed, z: Proposed|
        #![trigger over(x, z), over(x, y)]
        over(x, z) implies over(x, y) || over(y, z) by {
        lemma_proposals_three(x, y, z);
    }
}

proof fn lemma_proposals_three(x: Proposed, y: Proposed, z: Proposed)
    ensures
        !kept_over(y, x) && !kept_over(z, y) ==> !kept_over(z, x),
        !kept_over(z, x) ==> !kept_over(y, x) || !kept_over(z, y),
{
    let (u, v, w) = (record_bytes(x.record), record_bytes(y.record), record_bytes(z.record));
    crate::bytes::lemma_lex_total(u, v);
    crate::bytes::lemma_lex_total(v, w);
    crate::bytes::lemma_lex_total(u, w);
    if lex_less(u, v) && lex_less(v, w) {
        crate::bytes::lemma_lex_transitive(u, v, w);
    }
    if lex_less(w, v) && lex_less(v, u) {
        crate::bytes::lemma_lex_transitive(w, v, u);
    }
}

/// A proposal that came in already changes nothing.
pub proof fn law_proposals_come_in_once(m: Map<[u8; 32], Proposed>, p: Proposed)
    ensures
        absorb_proposal(absorb_proposal(m, p), p) == absorb_proposal(m, p),
{
    crate::bytes::lemma_lex_total(record_bytes(p.record), record_bytes(p.record));
}

/// Whether a proposal is there, or one that stays over it.
spec fn covered(m: Map<[u8; 32], Proposed>, p: Proposed) -> bool {
    m.contains_key(p.signer.0) && kept_over(m[p.signer.0], p)
}

proof fn lemma_covered_stays(m: Map<[u8; 32], Proposed>, p: Proposed, q: Proposed)
    ensures
        covered(m, p) ==> covered(absorb_proposal(m, q), p),
        covered(absorb_proposal(m, p), p),
{
    crate::bytes::lemma_lex_total(record_bytes(p.record), record_bytes(p.record));
    if covered(m, p) && q.signer.0 == p.signer.0 {
        lemma_proposals_three(p, q, m[p.signer.0]);
    }
}

/// What came in stays, or gives way to what stays over it.
proof fn lemma_proposal_stays_covered(
    m: Map<[u8; 32], Proposed>,
    incoming: Seq<Proposed>,
    o: Outcome,
    game_id: GameId,
    i: int,
)
    requires
        0 <= i < incoming.len(),
        proposal_fault(incoming[i], o, game_id) is None,
    ensures
        covered(proposals_after(m, incoming, o, game_id), incoming[i]),
    decreases incoming.len(),
{
    let front = incoming.drop_last();
    let before = proposals_after(m, front, o, game_id);
    lemma_covered_stays(before, incoming[i], incoming.last());
    if i < front.len() {
        assert(front[i] == incoming[i]);
        lemma_proposal_stays_covered(m, front, o, game_id, i);
    } else {
        assert(incoming.last() == incoming[i]);
    }
}

/// Proposals that are covered already add nothing.
proof fn lemma_covered_add_nothing(
    m: Map<[u8; 32], Proposed>,
    incoming: Seq<Proposed>,
    o: Outcome,
    game_id: GameId,
)
    requires
        forall|i: int|
            0 <= i < incoming.len() && proposal_fault(#[trigger] incoming[i], o, game_id) is None
                ==> covered(m, incoming[i]),
    ensures
        proposals_after(m, incoming, o, game_id) == m,
    decreases incoming.len(),
{
    if incoming.len() > 0 {
        let front = incoming.drop_last();
        assert forall|i: int|
            0 <= i < front.len() && proposal_fault(#[trigger] front[i], o, game_id) is None implies
            covered(m, front[i]) by {
            assert(front[i] == incoming[i]);
        }
        lemma_covered_add_nothing(m, front, o, game_id);
        assert(incoming[incoming.len() - 1] == incoming.last());
    }
}

/// An update of proposals that came in already changes nothing.
pub proof fn law_proposal_updates_come_in_once(
    m: Map<[u8; 32], Proposed>,
    incoming: Seq<Proposed>,
    o: Outcome,
    game_id: GameId,
)
    ensures
        proposals_after(proposals_after(m, incoming, o, game_id), incoming, o, game_id)
            == proposals_after(m, incoming, o, game_id),
{
    let after = proposals_after(m, incoming, o, game_id);
    assert forall|i: int|
        0 <= i < incoming.len() && proposal_fault(#[trigger] incoming[i], o, game_id) is None implies
        covered(after, incoming[i]) by {
        lemma_proposal_stays_covered(m, incoming, o, game_id, i);
    }
    lemma_covered_add_nothing(after, incoming, o, game_id);
}

/// Proposals with which nothing is wrong all come in.
pub proof fn lemma_sound_proposals_come_in(
    m: Map<[u8; 32], Proposed>,
    incoming: Seq<Proposed>,
    o: Outcome,
    game_id: GameId,
)
    requires
        forall|i: int|
            0 <= i < incoming.len() ==> proposal_fault(#[trigger] incoming[i], o, game_id) is None,
    ensures
        proposals_after(m, incoming, o, game_id) == taken(
            m,
            incoming,
            proposal_key(),
            proposal_over(),
        ),
    decreases incoming.len(),
{
    if incoming.len() > 0 {
        let front = incoming.drop_last();
        assert forall|i: int| 0 <= i < front.len() implies proposal_fault(
            #[trigger] front[i],
            o,
            game_id,
        ) is None by {
            assert(front[i] == incoming[i]);
        }
        lemma_sound_proposals_come_in(m, front, o, game_id);
        assert(proposal_fault(incoming[incoming.len() - 1], o, game_id) is None);
    }
}

/// What the two players of a finished game both signed for makes a certificate
/// that holds, where the record does.
pub proof fn law_agreement_makes_a_certificate(
    m: Map<[u8; 32], Proposed>,
    o: Outcome,
    game_id: GameId,
)
    requires
        o.keys is Some,
        m.contains_key((o.keys->0).0.0),
        m.contains_key((o.keys->0).1.0),
        m[(o.keys->0).0.0].signer == (o.keys->0).0,
        m[(o.keys->0).1.0].signer == (o.keys->0).1,
        m[(o.keys->0).0.0].record == m[(o.keys->0).1.0].record,
        proposal_fault(m[(o.keys->0).0.0], o, game_id) is None,
        proposal_fault(m[(o.keys->0).1.0], o, game_id) is None,
        crate::certificate::terms_fault(m[(o.keys->0).0.0].record) is None,
        crate::certificate::position_fault(m[(o.keys->0).0.0].record) is None,
    ensures
        certificate_of(m, o.keys) is Some,
        crate::certificate::cert_fault(certificate_of(m, o.keys)->0) is None,
{
}

} // verus!
