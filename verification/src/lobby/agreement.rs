//! Why two copies of the lobby agree.

use super::entry::{entry_merged, listing_fault, seals_tell, LobbyEntry};
use super::games::{games_after, games_fault, listing_faults};
use super::{
    lobby_after, lobby_change, lobby_fault, lobby_merged, lobby_pruned, lobby_told, lobby_untold,
    LobbyView,
};
use crate::admin::agreement::{administrations_joined, alike, law_administrations_agree};
use crate::identity::GameId;
use crate::join::{
    join, law_joining_commutes, lemma_told_of_map, marks_tell,
};
use crate::leaderboard::RankEntry;
use crate::ledger::{
    entry_over, law_peers_agree, lemma_checked_reconcile, told_apart,
};
use crate::presence::SignedPresence;
use crate::sorted_map::{
    as_map, lemma_as_map_last, lemma_listed, lemma_listing_entry, lemma_listing_place, listing,
    sorted,
};
use crate::sync::{marks_of, missing, told, Record};
use crate::text::lemma_no_fault;
use vstd::prelude::*;

verus! {

/// The listings of two copies, those of one game merged.
pub open spec fn listings_joined(a: Map<GameId, LobbyEntry>, b: Map<GameId, LobbyEntry>) -> Map<
    GameId,
    LobbyEntry,
> {
    Map::new(
        |k: GameId| a.contains_key(k) || b.contains_key(k),
        |k: GameId|
            if a.contains_key(k) && b.contains_key(k) {
                entry_merged(a[k], b[k])
            } else if a.contains_key(k) {
                a[k]
            } else {
                b[k]
            },
    )
}

/// Whether the listings of two copies can be told apart: of one game they show
/// one setup, and what bears one signature, or one mark, is one thing.
pub open spec fn listings_told_apart(
    a: Map<GameId, LobbyEntry>,
    b: Map<GameId, LobbyEntry>,
) -> bool {
    &&& marks_tell::<GameId, LobbyEntry>(a, b)
    &&& forall|k: GameId|
        #![trigger a.contains_key(k), b.contains_key(k)]
        a.contains_key(k) && b.contains_key(k) ==> a[k].setup == b[k].setup && seals_tell(
            a[k],
            b[k],
        )
}

/// Whether every listing is filed under its game, and nothing is wrong with it.
pub open spec fn listings_sound(m: Map<GameId, LobbyEntry>) -> bool {
    forall|k: GameId| #[trigger]
        m.contains_key(k) ==> m[k].game_id == k && listing_fault(m[k]) is None
}

pub proof fn lemma_checked_listings(m: Map<GameId, LobbyEntry>)
    requires
        m.dom().finite(),
        games_fault(m) is None,
    ensures
        listings_sound(m),
{
    let faults = listing_faults(m);
    lemma_no_fault(faults, listing(m).len());
    assert forall|k: GameId| #[trigger] m.contains_key(k) implies m[k].game_id == k
        && listing_fault(m[k]) is None by {
        let i = lemma_listing_place(m, k);
        assert(faults(i) is None);
    }
}

proof fn lemma_listings_step(
    a: Map<GameId, LobbyEntry>,
    es: Seq<(GameId, LobbyEntry)>,
    marks: Seq<(GameId, u64)>,
)
    requires
        sorted(es),
        forall|i: int|
            0 <= i < es.len() ==> (#[trigger] es[i]).1.game_id == es[i].0 && listing_fault(
                es[i].1,
            ) is None,
        forall|i: int|
            0 <= i < es.len() ==> (told(marks, (#[trigger] es[i]).0) == Some(
                LobbyEntry::mark_of(es[i].1),
            ) ==> a.contains_key(es[i].0) && a[es[i].0] == es[i].1),
    ensures
        games_after(a, missing::<GameId, LobbyEntry>(es, marks)) == (
            listings_joined(a, as_map(es)),
            None::<Seq<char>>,
        ),
    decreases es.len(),
{
    let sent = missing::<GameId, LobbyEntry>(es, marks);
    if es.len() == 0 {
        assert(listings_joined(a, as_map(es)) =~= a);
    } else {
        let front = es.drop_last();
        let (k, v) = es.last();
        lemma_as_map_last(es);
        assert forall|i: int| 0 <= i < front.len() implies (#[trigger] front[i]).1.game_id
            == front[i].0 && listing_fault(front[i].1) is None && (told(marks, front[i].0) == Some(
            LobbyEntry::mark_of(front[i].1),
        ) ==> a.contains_key(front[i].0) && a[front[i].0] == front[i].1) by {
            assert(front[i] == es[i]);
        }
        lemma_listings_step(a, front, marks);
        assert(es[es.len() - 1] == (k, v));
        let m = as_map(front);
        let so_far = listings_joined(a, m);
        if told(marks, k) == Some(LobbyEntry::mark_of(v)) {
            assert(entry_merged(v, v) == v);
            assert(listings_joined(a, m.insert(k, v)) =~= so_far);
        } else {
            assert(sent.drop_last() =~= missing::<GameId, LobbyEntry>(front, marks));
            assert(so_far.contains_key(k) == a.contains_key(k));
            assert(listings_joined(a, m.insert(k, v)) =~= super::games::game_absorbed(so_far, v));
        }
    }
}

/// Taking in what was not told joins the listings, either way alike.
proof fn lemma_listings_agree(a: Map<GameId, LobbyEntry>, b: Map<GameId, LobbyEntry>)
    requires
        a.dom().finite(),
        b.dom().finite(),
        games_fault(a) is None,
        games_fault(b) is None,
        listings_told_apart(a, b),
    ensures
        games_after(
            a,
            missing::<GameId, LobbyEntry>(listing(b), marks_of::<GameId, LobbyEntry>(listing(a))),
        ) == (listings_joined(a, b), None::<Seq<char>>),
{
    lemma_checked_listings(b);
    lemma_listed(b);
    let es = listing(b);
    let marks = marks_of::<GameId, LobbyEntry>(listing(a));
    assert forall|i: int| 0 <= i < es.len() implies (#[trigger] es[i]).1.game_id == es[i].0
        && listing_fault(es[i].1) is None && (told(marks, es[i].0) == Some(
        LobbyEntry::mark_of(es[i].1),
    ) ==> a.contains_key(es[i].0) && a[es[i].0] == es[i].1) by {
        lemma_listing_entry(b, i);
        lemma_told_of_map::<GameId, LobbyEntry>(a, es[i].0);
        assert(b.contains_key(es[i].0));
    }
    lemma_listings_step(a, es, marks);
}

/// Listings join alike either way.
pub proof fn law_listings_join_alike(a: Map<GameId, LobbyEntry>, b: Map<GameId, LobbyEntry>)
    requires
        listings_sound(a),
        listings_sound(b),
        listings_told_apart(a, b),
    ensures
        listings_joined(a, b) == listings_joined(b, a),
{
    assert forall|k: GameId| listings_joined(a, b).contains_key(k) implies listings_joined(a, b)[k]
        == listings_joined(b, a)[k] by {
        if a.contains_key(k) && b.contains_key(k) {
            super::entry::law_listings_merge_alike(a[k], b[k], b[k]);
        }
    }
    assert(listings_joined(a, b) =~= listings_joined(b, a));
}

/// Whether a copy of the lobby is as checks and pruning leave it.
pub open spec fn kept(l: LobbyView) -> bool {
    &&& l.games.dom().finite() && l.board.dom().finite() && l.presence.dom().finite()
    &&& lobby_fault(l) is None
    &&& lobby_pruned(l) == l
}

/// All that two copies of the lobby hold.
pub open spec fn lobbies_joined(a: LobbyView, b: LobbyView) -> LobbyView {
    LobbyView {
        games: listings_joined(a.games, b.games),
        board: join(a.board, b.board, entry_over::<(), RankEntry>()),
        presence: join(a.presence, b.presence, entry_over::<(), SignedPresence>()),
        admin: administrations_joined(a.admin, b.admin),
    }
}

/// Whether two copies of the lobby can be brought together: what differs can be
/// told apart.
pub open spec fn lobbies_alike(a: LobbyView, b: LobbyView) -> bool {
    &&& kept(a) && kept(b)
    &&& listings_told_apart(a.games, b.games)
    &&& told_apart::<(), RankEntry>(a.board, b.board)
    &&& told_apart::<(), SignedPresence>(a.presence, b.presence)
    &&& alike(a.admin, b.admin)
}

/// What a copy holds once it has merged another.
proof fn lemma_merging_joins_lobbies(a: LobbyView, b: LobbyView)
    requires
        lobbies_alike(a, b),
    ensures
        lobby_merged(a, b) == (lobby_pruned(lobbies_joined(a, b)), None::<Seq<char>>),
{
    lemma_listings_agree(a.games, b.games);
    lemma_checked_reconcile::<(), RankEntry>(a.board, b.board, ());
    law_peers_agree::<(), RankEntry>(a.board, b.board, ());
    lemma_checked_reconcile::<(), SignedPresence>(a.presence, b.presence, ());
    law_peers_agree::<(), SignedPresence>(a.presence, b.presence, ());
    law_administrations_agree(a.admin, b.admin);
    let d = lobby_untold(b, lobby_told(a));
    match lobby_change(b, lobby_told(a)) {
        Some(c) => {
            assert(c == d);
            assert(lobby_after(a, d) == (lobby_pruned(lobbies_joined(a, b)), None::<Seq<char>>));
        },
        None => {
            assert(lobbies_joined(a, b) =~= a);
        },
    }
}

/// Two copies of the lobby that merge each other are the same: each holds what
/// pruning leaves of all that either held.
pub proof fn law_lobbies_agree(a: LobbyView, b: LobbyView)
    requires
        lobbies_alike(a, b),
    ensures
        lobby_merged(a, b) == (lobby_pruned(lobbies_joined(a, b)), None::<Seq<char>>),
        lobby_merged(b, a) == lobby_merged(a, b),
{
    assert(lobbies_alike(b, a));
    lemma_merging_joins_lobbies(a, b);
    lemma_merging_joins_lobbies(b, a);
    lemma_checked_listings(a.games);
    lemma_checked_listings(b.games);
    law_listings_join_alike(a.games, b.games);
    crate::ledger::lemma_entries_ordered::<(), RankEntry>();
    crate::ledger::lemma_entries_ordered::<(), SignedPresence>();
    law_joining_commutes(a.board, b.board, entry_over::<(), RankEntry>());
    law_joining_commutes(a.presence, b.presence, entry_over::<(), SignedPresence>());
    law_administrations_agree(a.admin, b.admin);
    law_administrations_agree(b.admin, a.admin);
    assert(lobbies_joined(a, b) =~= lobbies_joined(b, a));
}

} // verus!
