//! Why copies of the lobby can be merged in any order, and any number of times.

use super::agreement::{
    kept, law_lobbies_agree, lemma_checked_listings, listings_joined, listings_told_apart,
    listings_sound, lobbies_alike,
};
use super::crowding::{agreed, law_giving_way_early_changes_nothing, one_limit, together};
use super::entry::{entry_merged, law_listings_merge_alike, LobbyEntry};
use super::games::{
    games_fault, games_pruned, law_limits_hold, law_pruning_games_twice_is_pruning_once,
};
use super::validity::{
    lemma_pruned_listings_pass, lemma_sound_listing, sound_but_for_author, told_by_player,
};
use super::{lobby_fault, lobby_merged, lobby_pruned, LobbyView};
use crate::admin::agreement::{alike, law_administrations_agree};
use crate::admin::merging::{
    admin_merged, law_administrations_merge_in_any_order,
    law_merging_administration_again_changes_nothing, lemma_merged_alike, nobody_returns,
    office_is_steady,
};
use crate::admin::rivals::{law_rivals_merge_in_any_order, law_rivals_stay_out, rivals, rivals_meet};
use crate::identity::GameId;
use crate::join::{join, law_joining_twice_is_joining_once};
use crate::leaderboard::{RankEntry, LEADERBOARD_SIZE};
use crate::ledger::{
    capped, entries_fault, entry_over, law_cut_maps_fit, lemma_capped_joins_in_any_order, lemma_checked_is_sound,
    lemma_checked_reconcile, lemma_cut_reconciles, lemma_entries_ordered, lemma_joined_reconciles,
    reconcilable, steady, Entry,
};
use crate::presence::{SignedPresence, MAX_PRESENCE_ENTRIES};
use crate::sorted_map::listing;
use vstd::prelude::*;

verus! {

/// Whether each snapshot is still by a player once the listings of two copies
/// are merged.
pub open spec fn listings_told_by_players(
    a: Map<GameId, LobbyEntry>,
    b: Map<GameId, LobbyEntry>,
) -> bool {
    let left = games_pruned(listings_joined(a, b));
    forall|k: GameId| #[trigger] left.contains_key(k) ==> told_by_player(left[k])
}

/// Listings of three copies join alike, whichever two come first.
pub proof fn law_listings_join_in_any_order(
    a: Map<GameId, LobbyEntry>,
    b: Map<GameId, LobbyEntry>,
    c: Map<GameId, LobbyEntry>,
)
    requires
        games_fault(a) is None && games_fault(b) is None && games_fault(c) is None,
        a.dom().finite() && b.dom().finite() && c.dom().finite(),
        listings_told_apart(a, b),
        listings_told_apart(b, c),
        listings_told_apart(a, c),
    ensures
        listings_joined(listings_joined(a, b), c) == listings_joined(a, listings_joined(b, c)),
        listings_joined(b, b) == b,
{
    lemma_checked_listings(a);
    lemma_checked_listings(b);
    lemma_checked_listings(c);
    let p = listings_joined(listings_joined(a, b), c);
    let q = listings_joined(a, listings_joined(b, c));
    assert forall|k: GameId| p.contains_key(k) implies p[k] == q[k] by {
        if a.contains_key(k) && b.contains_key(k) && c.contains_key(k) {
            law_listings_merge_alike(a[k], b[k], c[k]);
        }
    }
    assert(p =~= q);
    assert(listings_joined(b, b) =~= b);
}

/// What is left of the listings of two copies passes the check.
proof fn lemma_merged_listings_pass(a: Map<GameId, LobbyEntry>, b: Map<GameId, LobbyEntry>)
    requires
        games_fault(a) is None && games_fault(b) is None,
        a.dom().finite() && b.dom().finite(),
        listings_told_apart(a, b),
        listings_told_by_players(a, b),
    ensures
        games_pruned(listings_joined(a, b)).dom().finite(),
        games_fault(games_pruned(listings_joined(a, b))) is None,
        games_pruned(games_pruned(listings_joined(a, b))) == games_pruned(listings_joined(a, b)),
{
    let all = listings_joined(a, b);
    lemma_checked_listings(a);
    lemma_checked_listings(b);
    assert(all.dom() =~= a.dom().union(b.dom()));
    assert forall|k: GameId| #[trigger] all.contains_key(k) implies all[k].game_id == k
        && sound_but_for_author(all[k]) by {
        if a.contains_key(k) {
            lemma_sound_listing(a[k]);
        }
        if b.contains_key(k) {
            lemma_sound_listing(b[k]);
        }
    }
    lemma_pruned_listings_pass(all);
    law_pruning_games_twice_is_pruning_once(all);
    law_limits_hold(all, arbitrary());
}

/// What is made of two copies of a map, and cut, is in order, and can be brought
/// together with what both can.
proof fn lemma_cut_is_in_order<E: Entry<()>>(
    a: Map<E::Key, E::V>,
    b: Map<E::Key, E::V>,
    c: Map<E::Key, E::V>,
    cap: nat,
)
    requires
        reconcilable::<(), E>(a, b, ()),
        reconcilable::<(), E>(b, c, ()),
        reconcilable::<(), E>(a, c, ()),
    ensures
        ({
            let x = capped::<(), E>(join(a, b, entry_over::<(), E>()), cap);
            &&& reconcilable::<(), E>(x, c, ())
            &&& reconcilable::<(), E>(c, x, ())
            &&& listing(x).len() <= cap
            &&& entries_fault::<(), E>(x, ()) is None
            &&& capped::<(), E>(x, cap) == x
        }),
{
    let j = join(a, b, entry_over::<(), E>());
    lemma_joined_reconciles::<(), E>(a, b, c, ());
    lemma_cut_reconciles::<(), E>(j, c, (), cap);
    law_cut_maps_fit::<(), E>(j, (), cap);
    lemma_checked_is_sound::<(), E>(capped::<(), E>(j, cap), ());
}

/// Whether what two copies list can be told apart from what a third does.
pub open spec fn listings_apart(a: LobbyView, b: LobbyView, c: LobbyView) -> bool {
    &&& listings_told_by_players(a.games, b.games)
    &&& listings_told_apart(listings_joined(a.games, b.games), c.games)
    &&& listings_told_apart(c.games, listings_joined(a.games, b.games))
}

/// Whether there is room for the listings of two copies.
pub open spec fn room_for_listings(a: LobbyView, b: LobbyView) -> bool {
    games_pruned(listings_joined(a.games, b.games)) == listings_joined(a.games, b.games)
}

/// What can be told apart from all can be from a part.
proof fn lemma_part_told_apart(
    part: Map<GameId, LobbyEntry>,
    all: Map<GameId, LobbyEntry>,
    c: Map<GameId, LobbyEntry>,
)
    requires
        forall|k: GameId| #[trigger]
            part.contains_key(k) ==> all.contains_key(k) && part[k] == all[k],
        listings_told_apart(all, c),
        listings_told_apart(c, all),
    ensures
        listings_told_apart(part, c),
        listings_told_apart(c, part),
{
}

/// What two copies made can be brought together with whatever both can.
proof fn lemma_merged_lobbies_alike(a: LobbyView, b: LobbyView, c: LobbyView)
    requires
        lobbies_alike(a, b),
        lobbies_alike(b, c),
        lobbies_alike(a, c),
        listings_apart(a, b, c),
        alike(admin_merged(a.admin, b.admin), c.admin),
    ensures
        lobbies_alike(lobby_merged(a, b).0, c),
        lobbies_alike(c, lobby_merged(a, b).0),
        lobby_merged(a, b).0.admin == admin_merged(a.admin, b.admin),
{
    law_lobbies_agree(a, b);
    let x = lobby_merged(a, b).0;
    law_administrations_agree(a.admin, b.admin);
    assert(x.admin == admin_merged(a.admin, b.admin));
    lemma_merged_listings_pass(a.games, b.games);
    let all = listings_joined(a.games, b.games);
    assert forall|k: GameId| #[trigger] x.games.contains_key(k) implies all.contains_key(k)
        && x.games[k] == all[k] by {}
    lemma_part_told_apart(x.games, all, c.games);
    lemma_checked_reconcile::<(), RankEntry>(a.board, b.board, ());
    lemma_checked_reconcile::<(), RankEntry>(b.board, c.board, ());
    lemma_checked_reconcile::<(), RankEntry>(a.board, c.board, ());
    lemma_cut_is_in_order::<RankEntry>(a.board, b.board, c.board, LEADERBOARD_SIZE as nat);
    lemma_checked_reconcile::<(), SignedPresence>(a.presence, b.presence, ());
    lemma_checked_reconcile::<(), SignedPresence>(b.presence, c.presence, ());
    lemma_checked_reconcile::<(), SignedPresence>(a.presence, c.presence, ());
    lemma_cut_is_in_order::<SignedPresence>(
        a.presence,
        b.presence,
        c.presence,
        MAX_PRESENCE_ENTRIES as nat,
    );
    assert(lobby_pruned(x) =~= x);
    assert(lobby_fault(x) is None);
    assert(kept(x));
}

/// Whether, in the ranking and among those seen, nothing of three copies stands
/// further back than what it replaces, or there is room for all.
pub open spec fn lobbies_steady(a: LobbyView, b: LobbyView, c: LobbyView) -> bool {
    &&& steady::<(), RankEntry>(a.board, b.board, c.board, LEADERBOARD_SIZE as nat)
    &&& steady::<(), SignedPresence>(
        a.presence,
        b.presence,
        c.presence,
        MAX_PRESENCE_ENTRIES as nat,
    )
}

/// Whether it does not matter which two of three administrations meet first:
/// they are steady, or some give way to rivals.
pub open spec fn offices_settle(a: LobbyView, b: LobbyView, c: LobbyView) -> bool {
    office_is_steady(a.admin, b.admin, c.admin) || rivals_meet(a.admin, b.admin, c.admin)
}

/// Whether it does not matter when the listings of three copies give way: the
/// first two find room for all, or the copies agree on what they share and only
/// one limit drops listings.
pub open spec fn listings_settle(a: LobbyView, b: LobbyView, c: LobbyView) -> bool {
    ||| room_for_listings(a, b) && room_for_listings(b, c)
    ||| {
        &&& agreed(a.games, b.games) && agreed(b.games, c.games) && agreed(a.games, c.games)
        &&& one_limit(together(a.games, b.games), c.games)
        &&& one_limit(together(b.games, c.games), a.games)
    }
}

/// Listings on which copies agree are joined as they are.
proof fn lemma_agreed_listings_join(a: Map<GameId, LobbyEntry>, b: Map<GameId, LobbyEntry>)
    requires
        listings_sound(a),
        listings_sound(b),
        agreed(a, b),
        listings_told_apart(a, b),
    ensures
        listings_joined(a, b) == together(a, b),
        listings_joined(b, a) == together(a, b),
        listings_sound(together(a, b)),
{
    assert forall|k: GameId| a.contains_key(k) && b.contains_key(k) implies entry_merged(
        a[k],
        a[k],
    ) == a[k] by {
        law_listings_merge_alike(a[k], b[k], b[k]);
    }
    assert(listings_joined(a, b) =~= together(a, b));
    assert(listings_joined(b, a) =~= together(a, b));
}

/// What is made of two copies that agree gives way alike, early or late.
proof fn lemma_agreed_listings_give_way(
    a: Map<GameId, LobbyEntry>,
    b: Map<GameId, LobbyEntry>,
    c: Map<GameId, LobbyEntry>,
)
    requires
        listings_sound(a) && listings_sound(b) && listings_sound(c),
        a.dom().finite() && b.dom().finite() && c.dom().finite(),
        agreed(a, b) && agreed(b, c) && agreed(a, c),
        listings_told_apart(a, b),
        listings_told_apart(listings_joined(a, b), c),
        listings_told_apart(c, listings_joined(a, b)),
        one_limit(together(a, b), c),
    ensures
        ({
            let x = games_pruned(listings_joined(a, b));
            &&& games_pruned(listings_joined(x, c)) == games_pruned(together(together(a, b), c))
            &&& games_pruned(listings_joined(c, x)) == games_pruned(together(together(a, b), c))
        }),
{
    lemma_agreed_listings_join(a, b);
    let all = together(a, b);
    let x = games_pruned(all);
    assert(all.dom() =~= a.dom().union(b.dom()));
    assert(agreed(all, c));
    law_giving_way_early_changes_nothing(all, c);
    assert(agreed(x, c));
    lemma_part_told_apart(x, all, c);
    lemma_agreed_listings_join(x, c);
}

/// The listings of three copies are the same, whichever two merge first.
proof fn lemma_listings_settle(a: LobbyView, b: LobbyView, c: LobbyView)
    requires
        lobbies_alike(a, b),
        lobbies_alike(b, c),
        lobbies_alike(a, c),
        listings_apart(a, b, c),
        listings_apart(b, c, a),
        listings_settle(a, b, c),
    ensures
        games_pruned(
            listings_joined(games_pruned(listings_joined(a.games, b.games)), c.games),
        ) == games_pruned(
            listings_joined(a.games, games_pruned(listings_joined(b.games, c.games))),
        ),
{
    law_listings_join_in_any_order(a.games, b.games, c.games);
    if !(room_for_listings(a, b) && room_for_listings(b, c)) {
        lemma_checked_listings(a.games);
        lemma_checked_listings(b.games);
        lemma_checked_listings(c.games);
        lemma_agreed_listings_give_way(a.games, b.games, c.games);
        lemma_agreed_listings_give_way(b.games, c.games, a.games);
        assert(together(together(a.games, b.games), c.games) =~= together(
            together(b.games, c.games),
            a.games,
        ));
    }
}

/// Three copies of the lobby hold the same once they have merged one another,
/// whichever two merge first, where it does not matter when listings give way,
/// nor which administrations meet first, and what else they hold is steady.
pub proof fn law_lobbies_merge_in_any_order(a: LobbyView, b: LobbyView, c: LobbyView)
    requires
        lobbies_alike(a, b),
        lobbies_alike(b, c),
        lobbies_alike(a, c),
        listings_apart(a, b, c),
        listings_apart(b, c, a),
        listings_settle(a, b, c),
        offices_settle(a, b, c),
        lobbies_steady(a, b, c),
    ensures
        lobby_merged(lobby_merged(a, b).0, c).1 is None,
        lobby_merged(lobby_merged(a, b).0, c) == lobby_merged(a, lobby_merged(b, c).0),
{
    assert(lobbies_alike(b, a) && lobbies_alike(c, a) && lobbies_alike(c, b));
    if office_is_steady(a.admin, b.admin, c.admin) {
        law_administrations_merge_in_any_order(a.admin, b.admin, c.admin);
    } else {
        law_rivals_merge_in_any_order(a.admin, b.admin, c.admin);
    }
    lemma_merged_alike(a.admin, b.admin, c.admin);
    lemma_merged_alike(b.admin, c.admin, a.admin);
    lemma_merged_lobbies_alike(a, b, c);
    lemma_merged_lobbies_alike(b, c, a);
    lemma_listings_settle(a, b, c);
    lemma_lobbies_come_out_alike(a, b, c);
}

/// Three copies hold the same where their listings and their administrations
/// do.
proof fn lemma_lobbies_come_out_alike(a: LobbyView, b: LobbyView, c: LobbyView)
    requires
        lobbies_alike(a, b),
        lobbies_alike(b, c),
        lobbies_alike(a, c),
        lobbies_alike(lobby_merged(a, b).0, c),
        lobbies_alike(a, lobby_merged(b, c).0),
        games_pruned(
            listings_joined(games_pruned(listings_joined(a.games, b.games)), c.games),
        ) == games_pruned(
            listings_joined(a.games, games_pruned(listings_joined(b.games, c.games))),
        ),
        admin_merged(admin_merged(a.admin, b.admin), c.admin) == admin_merged(
            a.admin,
            admin_merged(b.admin, c.admin),
        ),
        lobbies_steady(a, b, c),
    ensures
        lobby_merged(lobby_merged(a, b).0, c).1 is None,
        lobby_merged(lobby_merged(a, b).0, c) == lobby_merged(a, lobby_merged(b, c).0),
{
    let x = lobby_merged(a, b).0;
    let y = lobby_merged(b, c).0;
    law_lobbies_agree(a, b);
    law_lobbies_agree(b, c);
    law_lobbies_agree(x, c);
    law_lobbies_agree(a, y);
    law_administrations_agree(a.admin, b.admin);
    law_administrations_agree(b.admin, c.admin);
    law_administrations_agree(x.admin, c.admin);
    law_administrations_agree(a.admin, y.admin);
    let p = lobby_merged(x, c).0;
    let q = lobby_merged(a, y).0;
    assert(p.games == q.games);
    assert(p.admin == q.admin);
    assert(p.board == q.board) by {
        lemma_checked_reconcile::<(), RankEntry>(a.board, b.board, ());
        lemma_checked_reconcile::<(), RankEntry>(b.board, c.board, ());
        lemma_checked_reconcile::<(), RankEntry>(a.board, c.board, ());
        lemma_capped_joins_in_any_order::<(), RankEntry>(
            a.board,
            b.board,
            c.board,
            LEADERBOARD_SIZE as nat,
        );
    }
    assert(p.presence == q.presence) by {
        lemma_checked_reconcile::<(), SignedPresence>(a.presence, b.presence, ());
        lemma_checked_reconcile::<(), SignedPresence>(b.presence, c.presence, ());
        lemma_checked_reconcile::<(), SignedPresence>(a.presence, c.presence, ());
        lemma_capped_joins_in_any_order::<(), SignedPresence>(
            a.presence,
            b.presence,
            c.presence,
            MAX_PRESENCE_ENTRIES as nat,
        );
    }
    assert(p =~= q);
}

/// Whether no listing that gave way where two copies met comes back when the
/// second comes in again: all that the second lists found room, or the copies
/// agree on what they share and only one limit drops listings.
pub open spec fn no_listing_returns(a: LobbyView, b: LobbyView) -> bool {
    ||| forall|k: GameId| #[trigger]
        b.games.contains_key(k) ==> lobby_merged(a, b).0.games.contains_key(k)
    ||| agreed(a.games, b.games) && one_limit(together(a.games, b.games), b.games)
}

/// A copy of the lobby that was merged already adds nothing, where no listing
/// that gave way comes back, nor anybody who lost office, and what else they
/// hold is steady.
pub proof fn law_merging_a_lobby_again_changes_nothing(a: LobbyView, b: LobbyView)
    requires
        lobbies_alike(a, b),
        lobbies_alike(b, b),
        listings_apart(a, b, b),
        no_listing_returns(a, b),
        nobody_returns(a.admin, b.admin) || rivals(a.admin, b.admin),
        lobbies_steady(a, b, b),
    ensures
        lobby_merged(lobby_merged(a, b).0, b) == lobby_merged(a, b),
{
    if nobody_returns(a.admin, b.admin) {
        law_merging_administration_again_changes_nothing(a.admin, b.admin);
    } else {
        law_rivals_stay_out(a.admin, b.admin);
    }
    lemma_merged_alike(a.admin, b.admin, b.admin);
    lemma_merged_lobbies_alike(a, b, b);
    law_lobbies_agree(a, b);
    let x = lobby_merged(a, b).0;
    law_lobbies_agree(x, b);
    law_administrations_agree(x.admin, b.admin);
    let p = lobby_merged(x, b).0;
    assert(p.admin == x.admin);
    assert(p.games == x.games) by {
        lemma_merged_listings_pass(a.games, b.games);
        lemma_checked_listings(a.games);
        lemma_checked_listings(b.games);
        if agreed(a.games, b.games) && one_limit(together(a.games, b.games), b.games) {
            lemma_agreed_listings_give_way(a.games, b.games, b.games);
            lemma_agreed_listings_join(a.games, b.games);
            assert(together(together(a.games, b.games), b.games) =~= together(a.games, b.games));
        } else {
            lemma_listed_again(a.games, b.games, x.games);
        }
    }
    assert(p.board == x.board) by {
        lemma_checked_reconcile::<(), RankEntry>(a.board, b.board, ());
        lemma_checked_reconcile::<(), RankEntry>(b.board, b.board, ());
        lemma_cut_again::<RankEntry>(a.board, b.board, LEADERBOARD_SIZE as nat);
    }
    assert(p.presence == x.presence) by {
        lemma_checked_reconcile::<(), SignedPresence>(a.presence, b.presence, ());
        lemma_checked_reconcile::<(), SignedPresence>(b.presence, b.presence, ());
        lemma_cut_again::<SignedPresence>(
            a.presence,
            b.presence,
            MAX_PRESENCE_ENTRIES as nat,
        );
    }
    assert(p =~= x);
}

/// Listings that are there already add nothing.
proof fn lemma_listed_again(
    a: Map<GameId, LobbyEntry>,
    b: Map<GameId, LobbyEntry>,
    x: Map<GameId, LobbyEntry>,
)
    requires
        listings_sound(a),
        listings_sound(b),
        listings_told_apart(a, b),
        x == games_pruned(listings_joined(a, b)),
        forall|k: GameId| #[trigger] b.contains_key(k) ==> x.contains_key(k),
    ensures
        listings_joined(x, b) == x,
{
    assert forall|k: GameId| #[trigger] x.contains_key(k) implies listings_joined(x, b)[k]
        == x[k] by {
        if b.contains_key(k) && a.contains_key(k) {
            law_listings_merge_alike(a[k], b[k], b[k]);
        }
    }
    assert(listings_joined(x, b) =~= x);
}

/// What was joined and cut already adds nothing.
proof fn lemma_cut_again<E: Entry<()>>(a: Map<E::Key, E::V>, b: Map<E::Key, E::V>, cap: nat)
    requires
        reconcilable::<(), E>(a, b, ()),
        reconcilable::<(), E>(b, b, ()),
        steady::<(), E>(a, b, b, cap),
    ensures
        ({
            let x = capped::<(), E>(join(a, b, entry_over::<(), E>()), cap);
            capped::<(), E>(join(x, b, entry_over::<(), E>()), cap) == x
        }),
{
    lemma_entries_ordered::<(), E>();
    lemma_capped_joins_in_any_order::<(), E>(a, b, b, cap);
    law_joining_twice_is_joining_once(a, b, entry_over::<(), E>());
}

} // verus!
