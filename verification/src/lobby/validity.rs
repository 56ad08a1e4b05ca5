//! Why a lobby that passes the check passes it after every update.

use super::agreement::lemma_checked_listings;
use super::entry::{listed_players, listing_fault, snapshot_bytes, LobbyEntry, MAX_FEN_LEN};
use super::games::{
    game_absorbed, games_after, games_fault, games_pruned, law_limits_hold,
    law_pruning_games_twice_is_pruning_once, listing_faults,
};
use super::{lobby_after, lobby_fault, lobby_pruned, LobbyChange, LobbyView};
use crate::admin::notices::{Announcement, Takedown};
use crate::admin::office::{admin_fault, admin_pruned};
use crate::admin::pruning::{
    law_pruning_administration_twice_is_pruning_it_once, law_updates_keep_administration_valid,
    lemma_pruned_administration_passes,
};
use crate::admin::AdminsV1;
use crate::game::opponent::seat_fault;
use crate::game::setup::setup_fault;
use crate::game::ChessGameParametersV1;
use crate::identity::{id_of, sig_fault, GameId, PlayerId};
use crate::leaderboard::{board_fault, RankEntry, LEADERBOARD_SIZE};
use crate::ledger::{
    capped, entries_after, entries_fault, entry_key, law_all_good_entries_come_in,
    law_cut_maps_fit, law_sound_maps_stay_sound, lemma_checked_is_sound, Entry,
};
use crate::presence::{all_presence_fault, SignedPresence, MAX_PRESENCE_ENTRIES};
use crate::sorted_map::{lemma_listing_entry, listing};
use crate::text::lemma_no_fault;
use vstd::prelude::*;
use vstd::utf8::encode_utf8;

verus! {

/// Whether the snapshot of a listing is by one of its players.
pub open spec fn told_by_player(e: LobbyEntry) -> bool {
    e.snapshot matches Some(s) ==> listed_players(e).contains(s.author)
}

/// Whether nothing is wrong with a listing, whoever its snapshot is by.
pub open spec fn sound_but_for_author(e: LobbyEntry) -> bool {
    let params = ChessGameParametersV1 { creator: e.setup.creator, game_id: e.game_id };
    &&& setup_fault(e.setup, params) is None
    &&& e.opponent matches Some(a) ==> seat_fault(a, Some(e.setup), params) is None
    &&& e.snapshot matches Some(s) ==> {
        &&& encode_utf8(s.fen@).len() as usize <= MAX_FEN_LEN
        &&& sig_fault(s.author, snapshot_bytes(e.game_id, s), s.signature, "snapshot"@) is None
    }
}

pub proof fn lemma_sound_listing(e: LobbyEntry)
    ensures
        listing_fault(e) is None <==> sound_but_for_author(e) && told_by_player(e),
{
}

/// Whether two listings of one game are by one creator and invite the same.
pub open spec fn one_offer(a: LobbyEntry, b: LobbyEntry) -> bool {
    a.game_id == b.game_id ==> a.setup.creator == b.setup.creator && a.setup.setup.challenged
        == b.setup.setup.challenged
}

/// Whether listings of one game, there or coming in, are by one creator and
/// invite the same.
pub open spec fn offers_match(m: Map<GameId, LobbyEntry>, incoming: Seq<LobbyEntry>) -> bool {
    &&& forall|k: GameId, i: int|
        #![trigger m.contains_key(k), incoming[i]]
        m.contains_key(k) && 0 <= i < incoming.len() ==> one_offer(m[k], incoming[i])
    &&& forall|i: int, j: int|
        #![trigger incoming[i], incoming[j]]
        0 <= i < incoming.len() && 0 <= j < incoming.len() ==> one_offer(incoming[i], incoming[j])
}

pub open spec fn listings_sound_but_for_authors(m: Map<GameId, LobbyEntry>) -> bool {
    forall|k: GameId| #[trigger]
        m.contains_key(k) ==> m[k].game_id == k && sound_but_for_author(m[k])
}

/// One more listing leaves them sound.
proof fn lemma_absorbed_stays_sound(m: Map<GameId, LobbyEntry>, e: LobbyEntry)
    requires
        listings_sound_but_for_authors(m),
        m.contains_key(e.game_id) ==> one_offer(m[e.game_id], e),
        listing_fault(e) is None,
    ensures
        listings_sound_but_for_authors(game_absorbed(m, e)),
{
    lemma_sound_listing(e);
}

/// Listings stay sound as others come in, and stay offers of the same.
proof fn lemma_listings_stay_sound(
    m: Map<GameId, LobbyEntry>,
    incoming: Seq<LobbyEntry>,
    n: int,
)
    requires
        m.dom().finite(),
        listings_sound_but_for_authors(m),
        offers_match(m, incoming),
        0 <= n <= incoming.len(),
    ensures
        games_after(m, incoming.take(n)).0.dom().finite(),
        listings_sound_but_for_authors(games_after(m, incoming.take(n)).0),
        offers_match(games_after(m, incoming.take(n)).0, incoming),
    decreases n,
{
    if n == 0 {
        assert(incoming.take(n) =~= Seq::empty());
    } else {
        lemma_listings_stay_sound(m, incoming, n - 1);
        assert(incoming.take(n).drop_last() =~= incoming.take(n - 1));
        let e = incoming[n - 1];
        assert(incoming.take(n).last() == e);
        let (so_far, fault) = games_after(m, incoming.take(n - 1));
        if fault is None && listing_fault(e) is None {
            assert(so_far.contains_key(e.game_id) ==> one_offer(so_far[e.game_id], e));
            lemma_absorbed_stays_sound(so_far, e);
            let now = game_absorbed(so_far, e);
            assert forall|k: GameId, i: int|
                #![trigger now.contains_key(k), incoming[i]]
                now.contains_key(k) && 0 <= i < incoming.len() implies one_offer(
                now[k],
                incoming[i],
            ) by {
                assert(so_far.contains_key(k) || k == e.game_id);
                if so_far.contains_key(k) {
                    assert(one_offer(so_far[k], incoming[i]));
                    if k == e.game_id {
                        assert(so_far[k].game_id == k);
                    }
                }
            }
        }
    }
}

/// What is left of sound listings passes the check.
pub proof fn lemma_pruned_listings_pass(m: Map<GameId, LobbyEntry>)
    requires
        m.dom().finite(),
        listings_sound_but_for_authors(m),
        forall|k: GameId| #[trigger]
            games_pruned(m).contains_key(k) ==> told_by_player(games_pruned(m)[k]),
    ensures
        games_fault(games_pruned(m)) is None,
{
    let left = games_pruned(m);
    law_limits_hold(m, arbitrary());
    let faults = listing_faults(left);
    assert forall|i: int| 0 <= i < listing(left).len() implies (#[trigger] faults(i)) is None by {
        lemma_listing_entry(left, i);
        let k = listing(left)[i].0;
        assert(m.contains_key(k) && m[k] == left[k]);
        lemma_sound_listing(left[k]);
    }
    lemma_no_fault(faults, listing(left).len());
}

/// A map that is cut after entries came in passes the check.
proof fn lemma_cut_entries_pass<E: Entry<()>>(
    m: Map<E::Key, E::V>,
    incoming: Option<Seq<E::V>>,
    cap: nat,
)
    requires
        m.dom().finite(),
        entries_fault::<(), E>(m, ()) is None,
    ensures
        ({
            let all = match incoming {
                Some(es) => entries_after::<(), E>(m, es, ()).0,
                None => m,
            };
            &&& listing(capped::<(), E>(all, cap)).len() <= cap
            &&& entries_fault::<(), E>(capped::<(), E>(all, cap), ()) is None
            &&& capped::<(), E>(capped::<(), E>(all, cap), cap) == capped::<(), E>(all, cap)
        }),
{
    let all = match incoming {
        Some(es) => entries_after::<(), E>(m, es, ()).0,
        None => m,
    };
    lemma_checked_is_sound::<(), E>(m, ());
    if incoming is Some {
        law_sound_maps_stay_sound::<(), E>(m, incoming->0, ());
    }
    assert(crate::join::filed(all, entry_key::<(), E>()));
    law_cut_maps_fit::<(), E>(all, (), cap);
    lemma_checked_is_sound::<(), E>(capped::<(), E>(all, cap), ());
}

/// A lobby that passes the check passes it once an update has come in, unless
/// the update shows two games under one id, or seats somebody else in a game
/// and leaves a snapshot by the player who sat there.
pub proof fn law_updates_keep_lobbies_valid(l: LobbyView, d: LobbyChange)
    requires
        l.games.dom().finite() && l.board.dom().finite() && l.presence.dom().finite(),
        l.admin.grants.dom().finite() && l.admin.announcements.dom().finite()
            && l.admin.takedowns.dom().finite(),
        lobby_fault(l) is None,
        lobby_after(l, d).1 is None,
        d.games matches Some(es) ==> offers_match(l.games, es),
        forall|k: GameId| #[trigger]
            lobby_after(l, d).0.games.contains_key(k) ==> told_by_player(
                lobby_after(l, d).0.games[k],
            ),
    ensures
        lobby_fault(lobby_after(l, d).0) is None,
{
    lemma_games_stay_valid(l, d);
    lemma_cut_entries_pass::<RankEntry>(l.board, d.board, LEADERBOARD_SIZE as nat);
    lemma_cut_entries_pass::<SignedPresence>(l.presence, d.presence, MAX_PRESENCE_ENTRIES as nat);
    match d.admin {
        Some(acts) => law_updates_keep_administration_valid(l.admin, acts),
        None => lemma_pruned_administration_passes(l.admin),
    }
}

proof fn lemma_games_stay_valid(l: LobbyView, d: LobbyChange)
    requires
        l.games.dom().finite(),
        lobby_fault(l) is None,
        lobby_after(l, d).1 is None,
        d.games matches Some(es) ==> offers_match(l.games, es),
        forall|k: GameId| #[trigger]
            lobby_after(l, d).0.games.contains_key(k) ==> told_by_player(
                lobby_after(l, d).0.games[k],
            ),
    ensures
        games_fault(lobby_after(l, d).0.games) is None,
{
    let all = match d.games {
        Some(es) => games_after(l.games, es).0,
        None => l.games,
    };
    assert(lobby_after(l, d).0.games == games_pruned(all));
    lemma_checked_listings(l.games);
    assert forall|k: GameId| #[trigger] l.games.contains_key(k) implies l.games[k].game_id == k
        && sound_but_for_author(l.games[k]) by {
        lemma_sound_listing(l.games[k]);
    }
    if d.games is Some {
        let es = d.games->0;
        lemma_listings_stay_sound(l.games, es, es.len() as int);
        assert(es.take(es.len() as int) =~= es);
    }
    lemma_pruned_listings_pass(all);
}

/// Pruning a lobby twice is pruning it once.
pub proof fn law_pruning_lobbies_twice_is_pruning_once(l: LobbyView)
    requires
        l.games.dom().finite() && l.board.dom().finite() && l.presence.dom().finite(),
        l.admin.grants.dom().finite() && l.admin.announcements.dom().finite()
            && l.admin.takedowns.dom().finite(),
        crate::join::filed(l.board, entry_key::<(), RankEntry>()),
        crate::join::filed(l.presence, entry_key::<(), SignedPresence>()),
        crate::join::filed(l.admin.announcements, entry_key::<AdminsV1, Announcement>()),
        crate::join::filed(l.admin.takedowns, entry_key::<AdminsV1, Takedown>()),
        crate::admin::filed(l.admin.grants),
    ensures
        lobby_pruned(lobby_pruned(l)) == lobby_pruned(l),
{
    law_pruning_games_twice_is_pruning_once(l.games);
    law_cut_maps_fit::<(), RankEntry>(l.board, (), LEADERBOARD_SIZE as nat);
    law_cut_maps_fit::<(), SignedPresence>(l.presence, (), MAX_PRESENCE_ENTRIES as nat);
    law_pruning_administration_twice_is_pruning_it_once(l.admin);
}

/// A lobby passes if its games, its leaderboard, who is around and its
/// administration do.
pub proof fn law_sound_lobbies(l: LobbyView)
    ensures
        lobby_fault(l) is None <==> {
            &&& games_fault(l.games) is None
            &&& board_fault(l.board) is None
            &&& all_presence_fault(l.presence) is None
            &&& admin_fault(l.admin) is None
        },
{
}

/// A lobby keeps at most two hundred entries of its leaderboard and five hundred
/// of who is around, and drops none while there is room.
pub proof fn law_lobbies_have_room(l: LobbyView)
    ensures
        ({
            let p = lobby_pruned(l);
            &&& listing(l.board).len() <= 200 ==> p.board == l.board
            &&& listing(l.presence).len() <= 500 ==> p.presence == l.presence
            &&& p.games == games_pruned(l.games)
            &&& p.admin == admin_pruned(l.admin)
            &&& forall|k: PlayerId| #[trigger]
                p.board.contains_key(k) ==> l.board.contains_key(k) && p.board[k] == l.board[k]
            &&& forall|k: PlayerId| #[trigger]
                p.presence.contains_key(k) ==> l.presence.contains_key(k) && p.presence[k]
                    == l.presence[k]
        }),
{
}

/// An update of a lobby leaves what it does not bring, but for what is pruned.
pub proof fn law_lobby_updates_leave_what_they_do_not_bring(l: LobbyView, d: LobbyChange)
    requires
        lobby_after(l, d).1 is None,
    ensures
        ({
            let (r, p) = (lobby_after(l, d).0, lobby_pruned(l));
            &&& d.games is None ==> r.games == p.games
            &&& d.board is None ==> r.board == p.board
            &&& d.presence is None ==> r.presence == p.presence
            &&& d.admin is None ==> r.admin == p.admin
        }),
{
}

/// A heartbeat that an update brings is there afterwards, or a later one of the
/// same player, while there is room for five hundred.
pub proof fn law_heartbeats_that_come_are_there(l: LobbyView, d: LobbyChange, i: int)
    requires
        lobby_after(l, d).1 is None,
        d.presence is Some,
        0 <= i < (d.presence->0).len(),
        listing(
            entries_after::<(), SignedPresence>(l.presence, d.presence->0, ()).0,
        ).len() <= 500,
    ensures
        ({
            let r = lobby_after(l, d).0;
            let p = (d.presence->0)[i];
            &&& r.presence.contains_key(id_of(p.player))
            &&& r.presence[id_of(p.player)].updated_at >= p.updated_at
        }),
{
    law_all_good_entries_come_in::<(), SignedPresence>(
        l.presence,
        d.presence->0,
        (),
    );
    let p = (d.presence->0)[i];
    assert(<SignedPresence as Entry<()>>::key_of(p) == id_of(p.player));
}

} // verus!
