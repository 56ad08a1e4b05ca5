//! How two copies of a game's record are held against each other and merged.

use super::certification::{
    outcome_of, proposals_after, proposals_fault, proposals_pruned, Proposed,
    SignedCertificateProposal,
};
use super::clocks::{clocks_after, clocks_fault, clocks_pruned, ClockAttestation};
use super::conclusion::{
    byte_strings, claims_after, claims_fault, sigs_of, untold_claims, SignedConclusion,
};
use super::moves::{
    moves_after, moves_fault, moves_pruned, moves_valid, AuthorizedMove,
};
use super::opponent::{
    slot_after, slot_change, slot_fault, slot_pruned, slot_told, told_in, OpponentDelta,
    OpponentSummary, SlotChange, SlotTold,
};
use super::setup::{place_fault, setup_after, SignedGameSetup};
use super::{keys_of, over, result_of, ChessGameParametersV1, ChessGameStateV1, GameView};
use crate::identity::PlayerId;
use crate::sorted_map::listing;
use crate::sync::{held, law_equal_peers_exchange_nothing, marks_of, missing};
use crate::text::fault;
use vstd::prelude::*;
use vstd::string::*;

verus! {

/// What a peer tells of its copy of a game.
#[derive(Debug, PartialEq, Eq)]
pub struct ChessGameStateV1Summary {
    pub setup: bool,
    pub opponent: OpponentSummary,
    pub moves: Vec<(u32, u64)>,
    pub clocks: Vec<(PlayerId, u64)>,
    pub conclusion: Vec<Vec<u8>>,
    pub certification: Vec<([u8; 32], u64)>,
}

/// What is told of a copy of a game.
#[verifier::ext_equal]
pub struct GameTold {
    pub setup: bool,
    pub slot: SlotTold,
    pub moves: Seq<(u32, u64)>,
    pub clocks: Seq<(PlayerId, u64)>,
    pub claims: Seq<Seq<u8>>,
    pub proposals: Seq<([u8; 32], u64)>,
}

impl View for ChessGameStateV1Summary {
    type V = GameTold;

    open spec fn view(&self) -> GameTold {
        GameTold {
            setup: self.setup,
            slot: told_in(self.opponent),
            moves: self.moves@,
            clocks: self.clocks@,
            claims: byte_strings(self.conclusion@),
            proposals: self.certification@,
        }
    }
}

pub open spec fn game_told(g: GameView) -> GameTold {
    GameTold {
        setup: g.setup is Some,
        slot: slot_told(g.slot),
        moves: marks_of::<u32, AuthorizedMove>(listing(g.moves)),
        clocks: marks_of::<PlayerId, ClockAttestation>(listing(g.clocks)),
        claims: sigs_of(g.claims),
        proposals: marks_of::<[u8; 32], SignedCertificateProposal>(listing(g.proposals)),
    }
}

/// An update of a game.
#[derive(Debug, Clone, PartialEq, Eq)]
pub struct ChessGameStateV1Delta {
    pub setup: Option<SignedGameSetup>,
    pub opponent: Option<OpponentDelta>,
    pub moves: Option<Vec<AuthorizedMove>>,
    pub clocks: Option<Vec<ClockAttestation>>,
    pub conclusion: Option<Vec<SignedConclusion>>,
    pub certification: Option<Vec<SignedCertificateProposal>>,
}

/// What an update of a game holds.
#[verifier::ext_equal]
pub struct GameChange {
    pub setup: Option<SignedGameSetup>,
    pub slot: Option<SlotChange>,
    pub moves: Option<Seq<AuthorizedMove>>,
    pub clocks: Option<Seq<ClockAttestation>>,
    pub claims: Option<Seq<SignedConclusion>>,
    pub proposals: Option<Seq<Proposed>>,
}

pub open spec fn no_change() -> GameChange {
    GameChange {
        setup: None,
        slot: None,
        moves: None,
        clocks: None,
        claims: None,
        proposals: None,
    }
}

impl View for ChessGameStateV1Delta {
    type V = GameChange;

    open spec fn view(&self) -> GameChange {
        GameChange {
            setup: self.setup,
            slot: match self.opponent {
                Some(d) => Some(d@),
                None => None,
            },
            moves: match self.moves {
                Some(v) => Some(v@),
                None => None,
            },
            clocks: match self.clocks {
                Some(v) => Some(v@),
                None => None,
            },
            claims: match self.conclusion {
                Some(v) => Some(v@),
                None => None,
            },
            proposals: match self.certification {
                Some(v) => Some(held(v@)),
                None => None,
            },
        }
    }
}

impl GameChange {
    /// Moves name squares of the board.
    pub open spec fn wf(self) -> bool {
        self.moves matches Some(ms) ==> forall|i: int|
            0 <= i < ms.len() ==> (#[trigger] ms[i]).mv.valid()
    }
}

impl Default for ChessGameStateV1Delta {
    fn default() -> (r: Self)
        ensures
            r@ == no_change(),
    {
        ChessGameStateV1Delta {
            setup: None,
            opponent: None,
            moves: None,
            clocks: None,
            conclusion: None,
            certification: None,
        }
    }
}

impl Default for ChessGameStateV1 {
    fn default() -> (r: Self)
        ensures
            r@ == empty_game(),
            r@.wf(),
    {
        ChessGameStateV1 {
            setup: super::setup::GameSetupV1(None),
            opponent: super::opponent::OpponentSlotV1::default(),
            moves: super::moves::MovesV1::default(),
            clocks: super::clocks::ClocksV1::default(),
            conclusion: super::conclusion::ConclusionV1::default(),
            certification: super::certification::CertificationV1::default(),
        }
    }
}

/// A record that holds nothing.
pub open spec fn empty_game() -> GameView {
    GameView {
        setup: None,
        slot: super::opponent::empty_slot(),
        moves: Map::empty(),
        clocks: Map::empty(),
        claims: Seq::empty(),
        proposals: Map::empty(),
    }
}

/// A list to send, where there is anything to send.
pub open spec fn some_list<A>(s: Seq<A>) -> Option<Seq<A>> {
    if s.len() == 0 {
        None
    } else {
        Some(s)
    }
}

/// What a copy of a game holds that was not told.
pub open spec fn game_untold(g: GameView, told: GameTold) -> GameChange {
    GameChange {
        setup: if told.setup {
            None
        } else {
            g.setup
        },
        slot: slot_change(g.slot, told.slot),
        moves: some_list(missing::<u32, AuthorizedMove>(listing(g.moves), told.moves)),
        clocks: some_list(missing::<PlayerId, ClockAttestation>(listing(g.clocks), told.clocks)),
        claims: some_list(untold_claims(g.claims, told.claims)),
        proposals: some_list(
            missing::<[u8; 32], SignedCertificateProposal>(listing(g.proposals), told.proposals),
        ),
    }
}

/// What is sent to one who told of a copy of a game.
pub open spec fn game_change(g: GameView, told: GameTold) -> Option<GameChange> {
    if game_untold(g, told) == no_change() {
        None
    } else {
        Some(game_untold(g, told))
    }
}

/// What is left of a record: the players' moves that stand, their clocks, and
/// their proposals once the game is over.
pub open spec fn game_pruned(g: GameView, params: ChessGameParametersV1) -> GameView {
    let g1 = GameView {
        slot: slot_pruned(g.slot),
        moves: moves_pruned(g.moves, params.game_id, keys_of(g)),
        clocks: clocks_pruned(g.clocks, keys_of(g)),
        ..g
    };
    GameView {
        proposals: proposals_pruned(g.proposals, keys_of(g), over(result_of(g1))),
        ..g1
    }
}

/// A record with the terms of an update taken in, and what was wrong with them.
pub open spec fn with_setup(g: GameView, d: GameChange, params: ChessGameParametersV1) -> (
    GameView,
    Option<Seq<char>>,
) {
    match d.setup {
        Some(s) => {
            let (setup, e) = setup_after(g.setup, s, params);
            (GameView { setup, ..g }, e)
        },
        None => (g, None),
    }
}

/// A record with an update of the seat taken in.
pub open spec fn with_slot(g: GameView, d: GameChange, params: ChessGameParametersV1) -> (
    GameView,
    Option<Seq<char>>,
) {
    match d.slot {
        Some(c) => {
            let (slot, e) = slot_after(g.slot, c, g.setup, params);
            (GameView { slot, ..g }, e)
        },
        None => (g, None),
    }
}

/// A record with the moves of an update taken in.
pub open spec fn with_moves(g: GameView, d: GameChange, params: ChessGameParametersV1) -> (
    GameView,
    Option<Seq<char>>,
) {
    match d.moves {
        Some(ms) => {
            let (moves, e) = moves_after(g.moves, ms, params.game_id);
            (GameView { moves, ..g }, e)
        },
        None => (g, None),
    }
}

/// A record with the attestations of an update taken in.
pub open spec fn with_clocks(g: GameView, d: GameChange, params: ChessGameParametersV1) -> (
    GameView,
    Option<Seq<char>>,
) {
    match d.clocks {
        Some(cs) => {
            let (clocks, e) = clocks_after(g.clocks, cs, params.game_id);
            (GameView { clocks, ..g }, e)
        },
        None => (g, None),
    }
}

/// A record with the claims of an update taken in.
pub open spec fn with_claims(g: GameView, d: GameChange, params: ChessGameParametersV1) -> (
    GameView,
    Option<Seq<char>>,
) {
    match d.claims {
        Some(cs) => {
            let (claims, e) = claims_after(g.claims, cs, keys_of(g), params.game_id);
            (GameView { claims, ..g }, e)
        },
        None => (g, None),
    }
}

/// A record with the proposals of an update taken in.
pub open spec fn with_proposals(
    g: GameView,
    d: GameChange,
    params: ChessGameParametersV1,
) -> GameView {
    match d.proposals {
        Some(ps) => GameView {
            proposals: proposals_after(g.proposals, ps, outcome_of(g), params.game_id),
            ..g
        },
        None => g,
    }
}

/// A record once an update has come in: part after part, each judged by what
/// came in before it, then pruned. The first thing that is wrong ends it.
pub open spec fn game_after(g: GameView, d: GameChange, params: ChessGameParametersV1) -> (
    GameView,
    Option<Seq<char>>,
) {
    let (g1, e1) = with_setup(g, d, params);
    if e1 is Some {
        (g1, e1)
    } else {
        let (g2, e2) = with_slot(g1, d, params);
        if e2 is Some {
            (g2, e2)
        } else {
            let (g3, e3) = with_moves(g2, d, params);
            if e3 is Some {
                (g3, e3)
            } else {
                let (g4, e4) = with_clocks(g3, d, params);
                if e4 is Some {
                    (g4, e4)
                } else {
                    let (g5, e5) = with_claims(g4, d, params);
                    if e5 is Some {
                        (g5, e5)
                    } else {
                        (game_pruned(with_proposals(g5, d, params), params), None)
                    }
                }
            }
        }
    }
}

/// What is wrong with a record, judged by `parent`, the first thing first.
pub open spec fn game_fault(
    g: GameView,
    parent: GameView,
    params: ChessGameParametersV1,
) -> Option<Seq<char>> {
    let keys = keys_of(parent);
    if place_fault(g.setup, params) is Some {
        place_fault(g.setup, params)
    } else if slot_fault(g.slot, parent.setup, params) is Some {
        slot_fault(g.slot, parent.setup, params)
    } else if moves_fault(g.moves, params.game_id, keys) is Some {
        moves_fault(g.moves, params.game_id, keys)
    } else if clocks_fault(g.clocks, params.game_id, keys) is Some {
        clocks_fault(g.clocks, params.game_id, keys)
    } else if claims_fault(g.claims, keys, params.game_id) is Some {
        claims_fault(g.claims, keys, params.game_id)
    } else {
        proposals_fault(g.proposals, outcome_of(parent), params.game_id)
    }
}

/// Moves of the board stay moves of the board.
pub proof fn lemma_moves_stay_valid(
    m: Map<u32, AuthorizedMove>,
    incoming: Seq<AuthorizedMove>,
    game_id: crate::identity::GameId,
)
    requires
        moves_valid(m),
        forall|i: int| 0 <= i < incoming.len() ==> (#[trigger] incoming[i]).mv.valid(),
    ensures
        moves_valid(moves_after(m, incoming, game_id).0),
    decreases incoming.len(),
{
    if incoming.len() > 0 {
        let front = incoming.drop_last();
        assert forall|i: int| 0 <= i < front.len() implies (#[trigger] front[i]).mv.valid() by {
            assert(front[i] == incoming[i]);
        }
        lemma_moves_stay_valid(m, front, game_id);
        assert(incoming[incoming.len() - 1].mv.valid());
    }
}

impl ChessGameStateV1 {
    /// Drop what the record cannot justify.
    pub fn prune(&mut self, params: &ChessGameParametersV1) -> (r: Result<(), String>)
        requires
            old(self)@.wf(),
        ensures
            r is Ok,
            final(self)@ == game_pruned(old(self)@, *params),
            final(self)@.wf(),
    {
        let keys = self.player_keys();
        self.opponent.prune();
        self.moves.prune(&params.game_id, keys);
        self.clocks.prune(keys);
        let ghost before = self@;
        let is_over = self.result().is_over();
        assert(before.proposals == old(self)@.proposals);
        self.certification.prune(keys, is_over);
        assert(self@ =~= game_pruned(old(self)@, *params));
        Ok(())
    }

    /// Check the whole record, judged by `parent`.
    pub fn verify(&self, parent: &ChessGameStateV1, params: &ChessGameParametersV1) -> (r: Result<
        (),
        String,
    >)
        requires
            self@.wf(),
            parent@.wf(),
        ensures
            fault(r) == game_fault(self@, parent@, *params),
    {
        match self.setup.verify(parent, params) {
            Ok(()) => {},
            Err(e) => return Err(e),
        }
        match self.opponent.verify(parent, params) {
            Ok(()) => {},
            Err(e) => return Err(e),
        }
        match self.moves.verify(parent, params) {
            Ok(()) => {},
            Err(e) => return Err(e),
        }
        match self.clocks.verify(parent, params) {
            Ok(()) => {},
            Err(e) => return Err(e),
        }
        match self.conclusion.verify(parent, params) {
            Ok(()) => {},
            Err(e) => return Err(e),
        }
        self.certification.verify(parent, params)
    }

    /// What to tell of this copy.
    pub fn summarize(&self, parent: &ChessGameStateV1, params: &ChessGameParametersV1) -> (r:
        ChessGameStateV1Summary)
        ensures
            r@ == game_told(self@),
    {
        ChessGameStateV1Summary {
            setup: self.setup.summarize(parent, params),
            opponent: self.opponent.summarize(parent, params),
            moves: self.moves.summarize(parent, params),
            clocks: self.clocks.summarize(parent, params),
            conclusion: self.conclusion.summarize(parent, params),
            certification: self.certification.summarize(parent, params),
        }
    }

    /// What to send to a peer that told of its copy.
    pub fn delta(
        &self,
        parent: &ChessGameStateV1,
        params: &ChessGameParametersV1,
        old_summary: &ChessGameStateV1Summary,
    ) -> (r: Option<ChessGameStateV1Delta>)
        ensures
            match r {
                Some(d) => game_change(self@, old_summary@) == Some(d@),
                None => game_change(self@, old_summary@) is None,
            },
    {
        let d = ChessGameStateV1Delta {
            setup: self.setup.delta(parent, params, &old_summary.setup),
            opponent: self.opponent.delta(parent, params, &old_summary.opponent),
            moves: self.moves.delta(parent, params, &old_summary.moves),
            clocks: self.clocks.delta(parent, params, &old_summary.clocks),
            conclusion: self.conclusion.delta(parent, params, &old_summary.conclusion),
            certification: self.certification.delta(parent, params, &old_summary.certification),
        };
        assert(d@ =~= game_untold(self@, old_summary@));
        if d.setup.is_none() && d.opponent.is_none() && d.moves.is_none() && d.clocks.is_none()
            && d.conclusion.is_none() && d.certification.is_none() {
            assert(d@ =~= no_change());
            None
        } else {
            assert(d@ != no_change());
            Some(d)
        }
    }

    fn take_in(&mut self, params: &ChessGameParametersV1, d: &ChessGameStateV1Delta) -> (r: Result<
        (),
        String,
    >)
        requires
            old(self)@.wf(),
            d@.wf(),
        ensures
            (final(self)@, fault(r)) == game_after(old(self)@, d@, *params),
            final(self)@.wf(),
    {
        let ghost g = self@;
        match self.setup.take_in(params, &d.setup) {
            Ok(()) => {},
            Err(e) => return Err(e),
        }
        assert(self@ =~= with_setup(g, d@, *params).0);
        let ghost g = self@;
        match &d.opponent {
            Some(c) => match self.opponent.take_in(&self.setup.0, params, c) {
                Ok(()) => {},
                Err(e) => return Err(e),
            },
            None => {},
        }
        assert(self@ =~= with_slot(g, d@, *params).0);
        let ghost g = self@;
        match &d.moves {
            Some(ms) => {
                proof {
                    lemma_moves_stay_valid(self@.moves, ms@, params.game_id);
                }
                match self.moves.take_in(&params.game_id, ms) {
                    Ok(()) => {},
                    Err(e) => return Err(e),
                }
            },
            None => {},
        }
        assert(self@ =~= with_moves(g, d@, *params).0);
        let ghost g = self@;
        match &d.clocks {
            Some(cs) => match self.clocks.take_in(&params.game_id, cs) {
                Ok(()) => {},
                Err(e) => return Err(e),
            },
            None => {},
        }
        assert(self@ =~= with_clocks(g, d@, *params).0);
        let ghost g = self@;
        let keys = self.player_keys();
        match &d.conclusion {
            Some(cs) => match self.conclusion.take_in(keys, &params.game_id, cs) {
                Ok(()) => {},
                Err(e) => return Err(e),
            },
            None => {},
        }
        assert(self@ =~= with_claims(g, d@, *params).0);
        let ghost g = self@;
        match &d.certification {
            Some(ps) => {
                let result = self.result();
                let moves = self.moves.move_list();
                self.certification.take_in(
                    keys,
                    result,
                    &moves,
                    &self.setup.0,
                    &params.game_id,
                    ps,
                );
            },
            None => {},
        }
        assert(self@ =~= with_proposals(g, d@, *params));
        self.prune(params)
    }

    /// Take in an update.
    pub fn apply_delta(
        &mut self,
        _parent: &ChessGameStateV1,
        params: &ChessGameParametersV1,
        delta: &Option<ChessGameStateV1Delta>,
    ) -> (r: Result<(), String>)
        requires
            old(self)@.wf(),
            *delta matches Some(d) ==> d@.wf(),
        ensures
            match *delta {
                Some(d) => (final(self)@, fault(r)) == game_after(old(self)@, d@, *params),
                None => r is Ok && final(self)@ == old(self)@,
            },
            final(self)@.wf(),
    {
        match delta {
            Some(d) => self.take_in(params, d),
            None => Ok(()),
        }
    }

    /// Take in what another copy holds.
    pub fn merge(
        &mut self,
        parent: &ChessGameStateV1,
        params: &ChessGameParametersV1,
        other: &ChessGameStateV1,
    ) -> (r: Result<(), String>)
        requires
            old(self)@.wf(),
            other@.wf(),
        ensures
            (final(self)@, fault(r)) == game_merged(old(self)@, other@, *params),
            final(self)@.wf(),
    {
        let told = self.summarize(parent, params);
        let delta = other.delta(parent, params, &told);
        let _ = other.moves.len();
        proof {
            lemma_sent_moves_valid(other.moves, told.moves@);
        }
        self.apply_delta(parent, params, &delta)
    }
}

/// What is sent of a record of moves of the board is moves of the board.
proof fn lemma_sent_moves_valid(moves: super::moves::MovesV1, marks: Seq<(u32, u64)>)
    requires
        moves_valid(moves@),
        moves@.dom().finite(),
    ensures
        forall|i: int|
            0 <= i < missing::<u32, AuthorizedMove>(listing(moves@), marks).len() ==> (
            #[trigger] missing::<u32, AuthorizedMove>(listing(moves@), marks)[i]).mv.valid(),
{
    let es = listing(moves@);
    assert forall|i: int| 0 <= i < es.len() implies (#[trigger] es[i]).1.mv.valid() by {
        crate::sorted_map::lemma_listing_entry(moves@, i);
    }
    lemma_missing_moves(es, marks);
}

proof fn lemma_missing_moves(es: Seq<(u32, AuthorizedMove)>, marks: Seq<(u32, u64)>)
    requires
        forall|i: int| 0 <= i < es.len() ==> (#[trigger] es[i]).1.mv.valid(),
    ensures
        forall|i: int|
            0 <= i < missing::<u32, AuthorizedMove>(es, marks).len() ==> (
            #[trigger] missing::<u32, AuthorizedMove>(es, marks)[i]).mv.valid(),
    decreases es.len(),
{
    if es.len() > 0 {
        let front = es.drop_last();
        assert forall|i: int| 0 <= i < front.len() implies (#[trigger] front[i]).1.mv.valid() by {
            assert(front[i] == es[i]);
        }
        lemma_missing_moves(front, marks);
        assert(es[es.len() - 1].1.mv.valid());
    }
}

/// A copy once it has taken in what another holds.
pub open spec fn game_merged(g: GameView, other: GameView, params: ChessGameParametersV1) -> (
    GameView,
    Option<Seq<char>>,
) {
    match game_change(other, game_told(g)) {
        Some(d) => game_after(g, d, params),
        None => (g, None),
    }
}

proof fn lemma_no_untold_claims(claims: Seq<SignedConclusion>, told: Seq<Seq<u8>>)
    requires
        forall|i: int|
            0 <= i < claims.len() ==> super::conclusion::sig_told(told, #[trigger] claims[i]),
    ensures
        untold_claims(claims, told).len() == 0,
    decreases claims.len(),
{
    if claims.len() > 0 {
        let front = claims.drop_last();
        assert forall|i: int| 0 <= i < front.len() implies super::conclusion::sig_told(
            told,
            #[trigger] front[i],
        ) by {
            assert(front[i] == claims[i]);
        }
        lemma_no_untold_claims(front, told);
        assert(super::conclusion::sig_told(told, claims[claims.len() - 1]));
    }
}

/// A copy that merges one like itself stays as it is.
pub proof fn law_merging_a_like_copy_changes_nothing(
    g: GameView,
    params: ChessGameParametersV1,
)
    requires
        g.slot.offers.dom().finite(),
        g.moves.dom().finite(),
        g.clocks.dom().finite(),
        g.proposals.dom().finite(),
    ensures
        game_change(g, game_told(g)) is None,
        game_merged(g, g, params) == (g, None::<Seq<char>>),
{
    law_equal_peers_exchange_nothing::<[u8; 32], super::opponent::SignedJoin>(g.slot.offers);
    law_equal_peers_exchange_nothing::<u32, AuthorizedMove>(g.moves);
    law_equal_peers_exchange_nothing::<PlayerId, ClockAttestation>(g.clocks);
    law_equal_peers_exchange_nothing::<[u8; 32], SignedCertificateProposal>(g.proposals);
    assert forall|i: int| 0 <= i < g.claims.len() implies super::conclusion::sig_told(
        sigs_of(g.claims),
        #[trigger] g.claims[i],
    ) by {
        assert(sigs_of(g.claims)[i] == g.claims[i].signature.0@);
    }
    lemma_no_untold_claims(g.claims, sigs_of(g.claims));
    assert(game_untold(g, game_told(g)) =~= no_change());
}

} // verus!
