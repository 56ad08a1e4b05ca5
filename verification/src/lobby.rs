//! The lobby: the games that are open or being played, the ranking, who is
//! around, and what administrators have to say.

pub mod agreement;
pub mod crowding;
pub mod entry;
pub mod games;
pub mod merging;
pub mod queries;
pub mod validity;

pub use entry::{LobbyEntry, SignedSnapshot};
pub use games::{
    LobbyGamesV1, MAX_LISTINGS_PER_CREATOR, MAX_LOBBY_ENTRIES, MAX_OPEN_PER_CREATOR,
};

use crate::admin::office::{
    admin_after, admin_change, admin_fault, admin_pruned, admin_told, no_administration,
    AdminTold, AdminView, AdministrationSummary,
};
use crate::admin::{AdminAction, AdministrationV1};
use crate::chess::Color;
use crate::game::replica::some_list;
use crate::identity::{id_of, GameId, PlayerId};
use crate::leaderboard::{
    board_fault, LeaderboardV1, RankEntry, RankView, LEADERBOARD_SIZE,
};
use crate::ledger::{
    all_entries_valid, all_incoming_valid, capped, entries_after, lemma_sent_entries_valid,
};
use crate::presence::{all_presence_fault, PresenceV1, SignedPresence, MAX_PRESENCE_ENTRIES};
use crate::search::{blank, is_blank};
use crate::sorted_map::listing;
use crate::sync::{held, law_equal_peers_exchange_nothing, marks_of, missing};
use crate::text::fault;
use entry::challenger_name;
use games::{games_after, games_fault, games_pruned};
use vstd::prelude::*;
use vstd::string::*;

verus! {

pub const LOBBY_NAMESPACE: &'static str = "freechess:lobby:v1";

/// What the lobby is known by.
#[derive(Debug, Clone, PartialEq, Eq)]
pub struct LobbyParametersV1 {
    /// Different names are different lobbies.
    pub namespace: String,
}

impl Default for LobbyParametersV1 {
    fn default() -> (r: Self)
        ensures
            r.namespace@ == LOBBY_NAMESPACE@,
    {
        LobbyParametersV1 { namespace: LOBBY_NAMESPACE.to_string() }
    }
}

/// The whole lobby.
#[derive(Debug, Clone, PartialEq, Eq)]
pub struct LobbyStateV1 {
    pub games: LobbyGamesV1,
    pub leaderboard: LeaderboardV1,
    pub presence: PresenceV1,
    pub administration: AdministrationV1,
}

/// What the lobby holds.
#[verifier::ext_equal]
pub struct LobbyView {
    pub games: Map<GameId, LobbyEntry>,
    pub board: Map<PlayerId, RankView>,
    pub presence: Map<PlayerId, SignedPresence>,
    pub admin: AdminView,
}

impl View for LobbyStateV1 {
    type V = LobbyView;

    open spec fn view(&self) -> LobbyView {
        LobbyView {
            games: self.games@,
            board: self.leaderboard@,
            presence: self.presence@,
            admin: self.administration@,
        }
    }
}

impl LobbyView {
    /// The games that the ranking cites name squares of the board.
    pub open spec fn wf(self) -> bool {
        all_entries_valid::<(), RankEntry>(self.board)
    }
}

pub open spec fn empty_lobby() -> LobbyView {
    LobbyView {
        games: Map::empty(),
        board: Map::empty(),
        presence: Map::empty(),
        admin: no_administration(),
    }
}

impl Default for LobbyStateV1 {
    fn default() -> (r: Self)
        ensures
            r@ == empty_lobby(),
            r@.wf(),
    {
        LobbyStateV1 {
            games: LobbyGamesV1::default(),
            leaderboard: LeaderboardV1::default(),
            presence: PresenceV1::default(),
            administration: AdministrationV1::default(),
        }
    }
}

/// What a player is called: as they call themselves now, or as a record of
/// old has it.
pub open spec fn name_shown(
    presence: Map<PlayerId, SignedPresence>,
    player: PlayerId,
    embedded: Seq<char>,
) -> Seq<char> {
    if presence.contains_key(player) && !blank(presence[player].nickname@) {
        presence[player].nickname@
    } else {
        embedded
    }
}

/// What the second player of a game is called.
pub open spec fn challenger_shown(presence: Map<PlayerId, SignedPresence>, e: LobbyEntry) -> Seq<
    char,
> {
    match e.opponent {
        Some(a) => name_shown(presence, id_of(a.join.player), a.join.nickname@),
        None => challenger_name(e),
    }
}

/// What White and Black of a game are called.
pub open spec fn names_shown(presence: Map<PlayerId, SignedPresence>, e: LobbyEntry) -> (
    Seq<char>,
    Seq<char>,
) {
    let creator = name_shown(
        presence,
        id_of(e.setup.creator),
        e.setup.setup.creator_nickname@,
    );
    match e.setup.setup.creator_plays {
        Color::White => (creator, challenger_shown(presence, e)),
        Color::Black => (challenger_shown(presence, e), creator),
    }
}

/// What a peer tells of its copy of the lobby.
#[derive(Debug, PartialEq, Eq)]
pub struct LobbyStateV1Summary {
    pub games: Vec<(GameId, u64)>,
    pub leaderboard: Vec<(PlayerId, u64)>,
    pub presence: Vec<(PlayerId, u64)>,
    pub administration: AdministrationSummary,
}

/// What is told of a copy of the lobby.
#[verifier::ext_equal]
pub struct LobbyTold {
    pub games: Seq<(GameId, u64)>,
    pub board: Seq<(PlayerId, u64)>,
    pub presence: Seq<(PlayerId, u64)>,
    pub admin: AdminTold,
}

impl View for LobbyStateV1Summary {
    type V = LobbyTold;

    open spec fn view(&self) -> LobbyTold {
        LobbyTold {
            games: self.games@,
            board: self.leaderboard@,
            presence: self.presence@,
            admin: self.administration@,
        }
    }
}

pub open spec fn lobby_told(l: LobbyView) -> LobbyTold {
    LobbyTold {
        games: marks_of::<GameId, LobbyEntry>(listing(l.games)),
        board: marks_of::<PlayerId, RankEntry>(listing(l.board)),
        presence: marks_of::<PlayerId, SignedPresence>(listing(l.presence)),
        admin: admin_told(l.admin),
    }
}

/// An update of the lobby.
#[derive(Debug, PartialEq, Eq)]
pub struct LobbyStateV1Delta {
    pub games: Option<Vec<LobbyEntry>>,
    pub leaderboard: Option<Vec<RankEntry>>,
    pub presence: Option<Vec<SignedPresence>>,
    pub administration: Option<Vec<AdminAction>>,
}

/// What an update of the lobby holds.
#[verifier::ext_equal]
pub struct LobbyChange {
    pub games: Option<Seq<LobbyEntry>>,
    pub board: Option<Seq<RankView>>,
    pub presence: Option<Seq<SignedPresence>>,
    pub admin: Option<Seq<AdminAction>>,
}

impl View for LobbyStateV1Delta {
    type V = LobbyChange;

    open spec fn view(&self) -> LobbyChange {
        LobbyChange {
            games: match self.games {
                Some(v) => Some(v@),
                None => None,
            },
            board: match self.leaderboard {
                Some(v) => Some(held(v@)),
                None => None,
            },
            presence: match self.presence {
                Some(v) => Some(v@),
                None => None,
            },
            admin: match self.administration {
                Some(v) => Some(v@),
                None => None,
            },
        }
    }
}

impl LobbyChange {
    /// The games that the ranking cites name squares of the board.
    pub open spec fn wf(self) -> bool {
        self.board matches Some(es) ==> all_incoming_valid::<(), RankEntry>(es)
    }
}

pub open spec fn no_lobby_change() -> LobbyChange {
    LobbyChange { games: None, board: None, presence: None, admin: None }
}

/// What a copy of the lobby holds that was not told.
pub open spec fn lobby_untold(l: LobbyView, told: LobbyTold) -> LobbyChange {
    LobbyChange {
        games: some_list(missing::<GameId, LobbyEntry>(listing(l.games), told.games)),
        board: some_list(missing::<PlayerId, RankEntry>(listing(l.board), told.board)),
        presence: some_list(
            missing::<PlayerId, SignedPresence>(listing(l.presence), told.presence),
        ),
        admin: admin_change(l.admin, told.admin),
    }
}

/// What is sent to one who told of a copy of the lobby.
pub open spec fn lobby_change(l: LobbyView, told: LobbyTold) -> Option<LobbyChange> {
    if lobby_untold(l, told) == no_lobby_change() {
        None
    } else {
        Some(lobby_untold(l, told))
    }
}

/// The lobby within its limits.
pub open spec fn lobby_pruned(l: LobbyView) -> LobbyView {
    LobbyView {
        games: games_pruned(l.games),
        board: capped::<(), RankEntry>(l.board, LEADERBOARD_SIZE as nat),
        presence: capped::<(), SignedPresence>(l.presence, MAX_PRESENCE_ENTRIES as nat),
        admin: admin_pruned(l.admin),
    }
}

/// The lobby once an update has come in: part after part, then pruned. The
/// first thing that is wrong ends it.
pub open spec fn lobby_after(l: LobbyView, d: LobbyChange) -> (LobbyView, Option<Seq<char>>) {
    let (games, e1) = match d.games {
        Some(es) => games_after(l.games, es),
        None => (l.games, None),
    };
    let (board, e2) = match d.board {
        Some(es) => entries_after::<(), RankEntry>(l.board, es, ()),
        None => (l.board, None),
    };
    let (presence, e3) = match d.presence {
        Some(es) => entries_after::<(), SignedPresence>(l.presence, es, ()),
        None => (l.presence, None),
    };
    let (admin, e4) = match d.admin {
        Some(acts) => admin_after(l.admin, acts),
        None => (l.admin, None),
    };
    if e1 is Some {
        (LobbyView { games, ..l }, e1)
    } else if e2 is Some {
        (LobbyView { games, board, ..l }, e2)
    } else if e3 is Some {
        (LobbyView { games, board, presence, ..l }, e3)
    } else if e4 is Some {
        (LobbyView { games, board, presence, admin }, e4)
    } else {
        (lobby_pruned(LobbyView { games, board, presence, admin }), None)
    }
}

/// A copy once it has taken in what another holds.
pub open spec fn lobby_merged(l: LobbyView, other: LobbyView) -> (LobbyView, Option<Seq<char>>) {
    match lobby_change(other, lobby_told(l)) {
        Some(d) => lobby_after(l, d),
        None => (l, None),
    }
}

/// What is wrong with the lobby, the first thing first.
pub open spec fn lobby_fault(l: LobbyView) -> Option<Seq<char>> {
    if games_fault(l.games) is Some {
        games_fault(l.games)
    } else if board_fault(l.board) is Some {
        board_fault(l.board)
    } else if all_presence_fault(l.presence) is Some {
        all_presence_fault(l.presence)
    } else {
        admin_fault(l.admin)
    }
}

impl LobbyStateV1 {
    /// What a player is called: as they call themselves now, or as a record of
    /// old has it.
    pub fn display_name(&self, player: PlayerId, embedded: &str) -> (r: String)
        ensures
            r@ == name_shown(self@.presence, player, embedded@),
    {
        match self.presence.players.get(&player) {
            Some(p) => if !is_blank(p.nickname.as_str()) {
                p.nickname.clone()
            } else {
                embedded.to_string()
            },
            None => embedded.to_string(),
        }
    }

    /// What White and Black of a game are called.
    pub fn game_names(&self, entry: &LobbyEntry) -> (r: (String, String))
        ensures
            (r.0@, r.1@) == names_shown(self@.presence, *entry),
    {
        let (white, black) = entry.nicknames();
        let creator = entry.creator_id();
        match entry.setup.setup.creator_plays {
            Color::White => {
                let first = self.display_name(creator, white.as_str());
                match &entry.opponent {
                    Some(a) => (first, self.display_name(a.join.player_id(), black.as_str())),
                    None => (first, black),
                }
            },
            Color::Black => {
                let second = self.display_name(creator, black.as_str());
                match &entry.opponent {
                    Some(a) => (self.display_name(a.join.player_id(), white.as_str()), second),
                    None => (white, second),
                }
            },
        }
    }

    /// Keep the lobby within its limits.
    pub fn prune(&mut self, _params: &LobbyParametersV1) -> (r: Result<(), String>)
        ensures
            r is Ok,
            final(self)@ == lobby_pruned(old(self)@),
            old(self)@.wf() ==> final(self)@.wf(),
    {
        self.games.enforce_quotas();
        self.leaderboard.prune();
        self.presence.prune();
        self.administration.prune();
        Ok(())
    }

    pub fn verify(&self, parent: &LobbyStateV1, params: &LobbyParametersV1) -> (r: Result<
        (),
        String,
    >)
        requires
            self@.wf(),
        ensures
            fault(r) == lobby_fault(self@),
    {
        match self.games.verify(parent, params) {
            Ok(()) => {},
            Err(e) => return Err(e),
        }
        match self.leaderboard.verify(parent, params) {
            Ok(()) => {},
            Err(e) => return Err(e),
        }
        match self.presence.verify(parent, params) {
            Ok(()) => {},
            Err(e) => return Err(e),
        }
        self.administration.verify(parent, params)
    }

    /// What to tell of this copy.
    pub fn summarize(&self, parent: &LobbyStateV1, params: &LobbyParametersV1) -> (r:
        LobbyStateV1Summary)
        ensures
            r@ == lobby_told(self@),
    {
        LobbyStateV1Summary {
            games: self.games.summarize(parent, params),
            leaderboard: self.leaderboard.summarize(parent, params),
            presence: self.presence.summarize(parent, params),
            administration: self.administration.summarize(parent, params),
        }
    }

    /// What to send to a peer that told of its copy.
    pub fn delta(
        &self,
        parent: &LobbyStateV1,
        params: &LobbyParametersV1,
        old_summary: &LobbyStateV1Summary,
    ) -> (r: Option<LobbyStateV1Delta>)
        ensures
            match r {
                Some(d) => lobby_change(self@, old_summary@) == Some(d@),
                None => lobby_change(self@, old_summary@) is None,
            },
    {
        let d = LobbyStateV1Delta {
            games: self.games.delta(parent, params, &old_summary.games),
            leaderboard: self.leaderboard.delta(parent, params, &old_summary.leaderboard),
            presence: self.presence.delta(parent, params, &old_summary.presence),
            administration: self.administration.delta(
                parent,
                params,
                &old_summary.administration,
            ),
        };
        assert(d@ =~= lobby_untold(self@, old_summary@));
        if d.games.is_none() && d.leaderboard.is_none() && d.presence.is_none()
            && d.administration.is_none() {
            assert(d@ =~= no_lobby_change());
            None
        } else {
            assert(d@ != no_lobby_change());
            Some(d)
        }
    }

    fn take_in(&mut self, params: &LobbyParametersV1, d: &LobbyStateV1Delta) -> (r: Result<
        (),
        String,
    >)
        requires
            d@.wf(),
        ensures
            (final(self)@, fault(r)) == lobby_after(old(self)@, d@),
            old(self)@.wf() ==> final(self)@.wf(),
    {
        match &d.games {
            Some(es) => match self.games.take_in(es) {
                Ok(()) => {},
                Err(e) => return Err(e),
            },
            None => {},
        }
        match &d.leaderboard {
            Some(es) => match self.leaderboard.take_in(es) {
                Ok(()) => {},
                Err(e) => return Err(e),
            },
            None => {},
        }
        match &d.presence {
            Some(es) => match self.presence.take_in(es) {
                Ok(()) => {},
                Err(e) => return Err(e),
            },
            None => {},
        }
        match &d.administration {
            Some(acts) => match self.administration.take_in(acts) {
                Ok(()) => {},
                Err(e) => return Err(e),
            },
            None => {},
        }
        self.prune(params)
    }

    /// Take in an update.
    pub fn apply_delta(
        &mut self,
        _parent: &LobbyStateV1,
        params: &LobbyParametersV1,
        delta: &Option<LobbyStateV1Delta>,
    ) -> (r: Result<(), String>)
        requires
            *delta matches Some(d) ==> d@.wf(),
        ensures
            match *delta {
                Some(d) => (final(self)@, fault(r)) == lobby_after(old(self)@, d@),
                None => r is Ok && final(self)@ == old(self)@,
            },
            old(self)@.wf() ==> final(self)@.wf(),
    {
        match delta {
            Some(d) => self.take_in(params, d),
            None => Ok(()),
        }
    }

    /// Take in what another copy holds.
    pub fn merge(
        &mut self,
        parent: &LobbyStateV1,
        params: &LobbyParametersV1,
        other: &LobbyStateV1,
    ) -> (r: Result<(), String>)
        requires
            other@.wf(),
        ensures
            (final(self)@, fault(r)) == lobby_merged(old(self)@, other@),
            old(self)@.wf() ==> final(self)@.wf(),
    {
        let told = self.summarize(parent, params);
        let delta = other.delta(parent, params, &told);
        let _ = other.leaderboard.len();
        proof {
            lemma_sent_entries_valid::<(), RankEntry>(other@.board, told@.board);
        }
        self.apply_delta(parent, params, &delta)
    }
}

/// A copy that merges one like itself stays as it is.
pub proof fn law_merging_a_like_lobby_changes_nothing(l: LobbyView)
    requires
        l.games.dom().finite(),
        l.board.dom().finite(),
        l.presence.dom().finite(),
    ensures
        lobby_change(l, lobby_told(l)) is None,
        lobby_merged(l, l) == (l, None::<Seq<char>>),
{
    law_equal_peers_exchange_nothing::<GameId, LobbyEntry>(l.games);
    law_equal_peers_exchange_nothing::<PlayerId, RankEntry>(l.board);
    law_equal_peers_exchange_nothing::<PlayerId, SignedPresence>(l.presence);
    assert(lobby_untold(l, lobby_told(l)) =~= no_lobby_change());
}

} // verus!
