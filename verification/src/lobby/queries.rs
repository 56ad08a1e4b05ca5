//! What the lobby shows: what its games and players are called, which of them
//! are listed where and in what order, and what gives way.

use super::entry::{
    activity, entry_merged, entry_seals, listed_fen, listed_live, listed_names, listed_players,
    listed_result, listing_fault, snapshot_bytes, snapshot_fault, LobbyEntry, SignedSnapshot,
};
use super::games::{
    any_game, busiest_first, by_creation, counts_of, finished_list, for_anyone, found_list,
    games_fault, games_pruned, games_with, is_finished, is_played, listing_faults, live_list,
    made_by, meant_for, newest_first, open_list, opened_by, over_quota, own_before, waits,
    within_quota,
};
use super::{name_shown, names_shown};
use crate::chess::types::Color;
use crate::crypto::{base58, signature_fault};
use crate::game::opponent::{seat_fault, SignedAcceptance};
use crate::game::setup::setup_fault;
use crate::game::{sig_rank, ChessGameParametersV1, GameResult};
use crate::identity::{id_of, GameId, PlayerId};
use crate::lists::{
    law_choosing_keeps_the_order, law_lists_hold_what_was_asked_for, lemma_selected, selected,
    values_of,
};
use crate::order::{before, how_many, lemma_fewer_satisfy, lemma_how_many, ordered};
use crate::presence::SignedPresence;
use crate::search::{blank, law_a_game_is_found_by_any_part_of_a_name, lowercase};
use crate::sorted_map::{lemma_listing_entry, lemma_listing_place, listing, restricted};
use crate::text::lemma_no_fault;
use vstd::prelude::*;
use vstd::string::*;
use vstd::utf8::encode_utf8;

verus! {

/// How a listed game stands: as its players say; until they say anything, it
/// waits for an opponent or goes on.
pub proof fn law_listings_stand_as_their_players_say(e: LobbyEntry)
    ensures
        e.snapshot is Some ==> listed_result(e) == e.snapshot->0.result,
        e.snapshot is None && e.opponent is Some ==> listed_result(e) == GameResult::InProgress,
        e.snapshot is None && e.opponent is None ==> listed_result(e)
            == GameResult::AwaitingOpponent,
        listed_live(e) <==> e.opponent is Some && (listed_result(e) == GameResult::InProgress
            || listed_result(e) == GameResult::AwaitingOpponent),
{
}

/// In a listing the creator's name is on the creator's side, and on the other
/// side that of whoever was seated.
pub proof fn law_listings_put_names_on_their_sides(e: LobbyEntry)
    ensures
        ({
            let creator = e.setup.setup.creator_nickname@;
            let (white, black) = listed_names(e);
            &&& e.setup.setup.creator_plays == Color::White ==> white == creator
            &&& e.setup.setup.creator_plays == Color::Black ==> black == creator
            &&& e.opponent is Some && e.setup.setup.creator_plays == Color::White ==> black
                == e.opponent->0.join.nickname@
            &&& e.opponent is Some && e.setup.setup.creator_plays == Color::Black ==> white
                == e.opponent->0.join.nickname@
            &&& e.opponent is None && e.setup.setup.creator_plays == Color::White ==> black
                == "\u{2014}"@
            &&& e.opponent is None && e.setup.setup.creator_plays == Color::Black ==> white
                == "\u{2014}"@
        }),
{
}

/// A player is shown under the name they go by now, unless they go by none or
/// nothing is known of them.
pub proof fn law_players_are_shown_as_they_call_themselves(
    presence: Map<PlayerId, SignedPresence>,
    player: PlayerId,
    embedded: Seq<char>,
)
    ensures
        presence.contains_key(player) && !blank(presence[player].nickname@) ==> name_shown(
            presence,
            player,
            embedded,
        ) == presence[player].nickname@,
        !presence.contains_key(player) ==> name_shown(presence, player, embedded) == embedded,
        presence.contains_key(player) && blank(presence[player].nickname@) ==> name_shown(
            presence,
            player,
            embedded,
        ) == embedded,
{
}

/// Whoever has a side in a listed game is shown on that side, under their own
/// name.
pub proof fn law_games_are_shown_under_their_players(
    presence: Map<PlayerId, SignedPresence>,
    e: LobbyEntry,
    a: SignedAcceptance,
)
    requires
        e.opponent == Some(a),
    ensures
        ({
            let creator = name_shown(
                presence,
                id_of(e.setup.creator),
                e.setup.setup.creator_nickname@,
            );
            let joined = name_shown(presence, id_of(a.join.player), a.join.nickname@);
            &&& e.setup.setup.creator_plays == Color::White ==> names_shown(presence, e) == (
                creator,
                joined,
            )
            &&& e.setup.setup.creator_plays == Color::Black ==> names_shown(presence, e) == (
                joined,
                creator,
            )
        }),
{
}

/// While nobody is seated the creator is shown on their side and nobody on the
/// other.
pub proof fn law_open_games_are_shown_under_their_creator(
    presence: Map<PlayerId, SignedPresence>,
    e: LobbyEntry,
)
    requires
        e.opponent is None,
    ensures
        ({
            let creator = name_shown(
                presence,
                id_of(e.setup.creator),
                e.setup.setup.creator_nickname@,
            );
            &&& e.setup.setup.creator_plays == Color::White ==> names_shown(presence, e) == (
                creator,
                "\u{2014}"@,
            )
            &&& e.setup.setup.creator_plays == Color::Black ==> names_shown(presence, e) == (
                "\u{2014}"@,
                creator,
            )
        }),
{
}

/// A game was last active when its players last said how it stands, else when
/// somebody joined it, else when it was made.
pub proof fn law_activity_is_the_last_thing_heard(e: LobbyEntry)
    ensures
        e.snapshot is Some ==> activity(e) == e.snapshot->0.updated_at,
        e.snapshot is None && e.opponent is Some ==> activity(e) == e.opponent->0.join.joined_at,
        e.snapshot is None && e.opponent is None ==> activity(e) == e.setup.setup.created_at,
{
}

/// A snapshot is taken in only from a player of the game, signed, and with a
/// position that is not too long to be one.
pub proof fn law_sound_snapshots(s: SignedSnapshot, game_id: GameId, e: LobbyEntry)
    ensures
        snapshot_fault(s, game_id, listed_players(e)) is None <==> {
            &&& encode_utf8(s.fen@).len() as usize <= 100
            &&& s.author == e.setup.creator || (e.opponent is Some && s.author
                == e.opponent->0.join.player)
            &&& signature_fault(s.author.0, snapshot_bytes(game_id, s), s.signature.0) is None
        },
{
    let players = listed_players(e);
    assert(players[0] == e.setup.creator);
    if e.opponent is Some {
        assert(players[1] == e.opponent->0.join.player);
    }
}

/// A listing is sound exactly where its terms are, whoever is seated is, and
/// what is said of it is said by one of its players.
pub proof fn law_sound_listings(e: LobbyEntry)
    ensures
        listing_fault(e) is None <==> {
            let params = ChessGameParametersV1 { creator: e.setup.creator, game_id: e.game_id };
            &&& setup_fault(e.setup, params) is None
            &&& e.opponent is Some ==> seat_fault(e.opponent->0, Some(e.setup), params) is None
            &&& e.snapshot is Some ==> snapshot_fault(
                e.snapshot->0,
                e.game_id,
                listed_players(e),
            ) is None
        },
{
}

/// Two listings of one game make one that has what either knows: whoever is
/// seated, by the lower signature where two are, and the snapshot of the later
/// ply, at one ply the later one.
pub proof fn law_listings_learn_from_each_other(a: LobbyEntry, b: LobbyEntry)
    ensures
        ({
            let m = entry_merged(a, b);
            &&& m.game_id == a.game_id && m.setup == a.setup
            &&& a.opponent is None ==> m.opponent == b.opponent
            &&& b.opponent is None ==> m.opponent == a.opponent
            &&& a.opponent is Some && b.opponent is Some && sig_rank(a.opponent->0.signature)
                < sig_rank(b.opponent->0.signature) ==> m.opponent == a.opponent
            &&& a.opponent is Some && b.opponent is Some && sig_rank(b.opponent->0.signature)
                < sig_rank(a.opponent->0.signature) ==> m.opponent == b.opponent
            &&& a.snapshot is None ==> m.snapshot == b.snapshot
            &&& b.snapshot is None ==> m.snapshot == a.snapshot
            &&& a.snapshot is Some && b.snapshot is Some && a.snapshot->0.ply > b.snapshot->0.ply
                ==> m.snapshot == a.snapshot
            &&& a.snapshot is Some && b.snapshot is Some && b.snapshot->0.ply > a.snapshot->0.ply
                ==> m.snapshot == b.snapshot
            &&& a.snapshot is Some && b.snapshot is Some && a.snapshot->0.ply == b.snapshot->0.ply
                && a.snapshot->0.updated_at > b.snapshot->0.updated_at ==> m.snapshot
                == a.snapshot
            &&& a.snapshot is Some && b.snapshot is Some && a.snapshot->0.ply == b.snapshot->0.ply
                && b.snapshot->0.updated_at > a.snapshot->0.updated_at ==> m.snapshot
                == b.snapshot
        }),
{
}

/// Whether a listing is in the lobby.
pub open spec fn in_lobby(m: Map<GameId, LobbyEntry>, e: LobbyEntry) -> bool {
    exists|k: GameId| #[trigger] m.contains_key(k) && m[k] == e
}

/// The open games are all that wait for an opponent, the newest first.
pub proof fn law_open_games_are_those_that_wait(m: Map<GameId, LobbyEntry>, e: LobbyEntry)
    requires
        m.dom().finite(),
    ensures
        ({
            let list = open_list(m);
            &&& list.contains(e) <==> in_lobby(m, e) && e.opponent is None
            &&& forall|i: int, j: int|
                0 <= i < j < list.len() ==> (#[trigger] list[i]).setup.setup.created_at >= (
                #[trigger] list[j]).setup.setup.created_at
        }),
{
    law_lists_hold_what_was_asked_for(m, waits(), newest_first(), e);
    let list = ordered(selected(values_of(m), waits()), newest_first());
    assert forall|i: int, j: int| 0 <= i < j < list.len() implies (
    #[trigger] list[i]).setup.setup.created_at >= (#[trigger] list[j]).setup.setup.created_at by {
        assert(!before(newest_first()(list[j]), newest_first()(list[i])));
    }
}

/// The live games are all that have two players and are not over, the last
/// active first.
pub proof fn law_live_games_are_those_being_played(m: Map<GameId, LobbyEntry>, e: LobbyEntry)
    requires
        m.dom().finite(),
    ensures
        ({
            let list = live_list(m);
            &&& list.contains(e) <==> in_lobby(m, e) && e.opponent is Some && (listed_result(e)
                == GameResult::InProgress || listed_result(e) == GameResult::AwaitingOpponent)
            &&& forall|i: int, j: int|
                0 <= i < j < list.len() ==> activity(#[trigger] list[i]) >= activity(
                    #[trigger] list[j],
                )
        }),
{
    law_lists_hold_what_was_asked_for(m, is_played(), busiest_first(), e);
    let list = ordered(selected(values_of(m), is_played()), busiest_first());
    assert forall|i: int, j: int| 0 <= i < j < list.len() implies activity(#[trigger] list[i])
        >= activity(#[trigger] list[j]) by {
        assert(!before(busiest_first()(list[j]), busiest_first()(list[i])));
    }
}

/// The finished games are all that somebody won or that were drawn, the last
/// active first.
pub proof fn law_finished_games_are_those_decided(m: Map<GameId, LobbyEntry>, e: LobbyEntry)
    requires
        m.dom().finite(),
    ensures
        ({
            let list = finished_list(m);
            &&& list.contains(e) <==> in_lobby(m, e) && (listed_result(e) is WhiteWins
                || listed_result(e) is BlackWins || listed_result(e) is Draw)
            &&& forall|i: int, j: int|
                0 <= i < j < list.len() ==> activity(#[trigger] list[i]) >= activity(
                    #[trigger] list[j],
                )
        }),
{
    law_lists_hold_what_was_asked_for(m, is_finished(), busiest_first(), e);
    let list = ordered(selected(values_of(m), is_finished()), busiest_first());
    assert forall|i: int, j: int| 0 <= i < j < list.len() implies activity(#[trigger] list[i])
        >= activity(#[trigger] list[j]) by {
        assert(!before(busiest_first()(list[j]), busiest_first()(list[i])));
    }
}

/// The public games are the open ones that challenge nobody, and a player's
/// challenges the open ones that challenge them, the newest first.
pub proof fn law_challenges_are_for_whom_they_challenge(
    m: Map<GameId, LobbyEntry>,
    player: PlayerId,
    e: LobbyEntry,
)
    requires
        m.dom().finite(),
    ensures
        ({
            let open = open_list(m);
            let (public, theirs) = (
                selected(open, for_anyone()),
                selected(open, meant_for(player)),
            );
            &&& public.contains(e) <==> in_lobby(m, e) && e.opponent is None
                && e.setup.setup.challenged is None
            &&& theirs.contains(e) <==> in_lobby(m, e) && e.opponent is None
                && e.setup.setup.challenged is Some && id_of(e.setup.setup.challenged->0) == player
            &&& forall|i: int, j: int|
                0 <= i < j < public.len() ==> (#[trigger] public[i]).setup.setup.created_at >= (
                #[trigger] public[j]).setup.setup.created_at
            &&& forall|i: int, j: int|
                0 <= i < j < theirs.len() ==> (#[trigger] theirs[i]).setup.setup.created_at >= (
                #[trigger] theirs[j]).setup.setup.created_at
        }),
{
    let open = ordered(selected(values_of(m), waits()), newest_first());
    law_lists_hold_what_was_asked_for(m, waits(), newest_first(), e);
    lemma_selected(open, for_anyone(), e);
    lemma_selected(open, meant_for(player), e);
    law_choosing_keeps_the_order(open, for_anyone(), newest_first());
    law_choosing_keeps_the_order(open, meant_for(player), newest_first());
    let (public, theirs) = (selected(open, for_anyone()), selected(open, meant_for(player)));
    assert forall|i: int, j: int| 0 <= i < j < public.len() implies (
    #[trigger] public[i]).setup.setup.created_at >= (
    #[trigger] public[j]).setup.setup.created_at by {
        assert(!before(newest_first()(public[j]), newest_first()(public[i])));
    }
    assert forall|i: int, j: int| 0 <= i < j < theirs.len() implies (
    #[trigger] theirs[i]).setup.setup.created_at >= (
    #[trigger] theirs[j]).setup.setup.created_at by {
        assert(!before(newest_first()(theirs[j]), newest_first()(theirs[i])));
    }
}

/// A search finds every listed game in which what is looked for is any part of
/// a player's name, in lower case, or the beginning of the game's own, the last
/// active first.
pub proof fn law_searching_finds_any_part_of_a_name(
    m: Map<GameId, LobbyEntry>,
    e: LobbyEntry,
    a: Seq<char>,
    needle: Seq<char>,
    b: Seq<char>,
)
    requires
        m.dom().finite(),
        in_lobby(m, e),
        lowercase(e.setup.setup.creator_nickname@) == a + needle + b || (e.opponent is Some
            && lowercase(e.opponent->0.join.nickname@) == a + needle + b) || lowercase(
            base58(e.game_id.0@),
        ) == needle + b,
    ensures
        ordered(selected(values_of(m), games_with(needle)), busiest_first()).contains(e),
        needle.len() > 0 ==> found_list(m, needle).contains(e),
        needle.len() == 0 ==> found_list(m, needle).len() == 0,
{
    let (white, black) = listed_names(e);
    let id = lowercase(base58(e.game_id.0@));
    law_a_game_is_found_by_any_part_of_a_name(a, needle, b, lowercase(white), id);
    law_a_game_is_found_by_any_part_of_a_name(a, needle, b, lowercase(black), id);
    if id == needle + b {
        crate::search::law_a_game_is_found_by_its_beginning(
            lowercase(white),
            lowercase(black),
            needle,
            b,
        );
    }
    law_lists_hold_what_was_asked_for(m, games_with(needle), busiest_first(), e);
}

/// Whatever a search finds is listed, once for every listing, and has what was
/// looked for, the last active first.
pub proof fn law_searching_finds_nothing_else(
    m: Map<GameId, LobbyEntry>,
    e: LobbyEntry,
    needle: Seq<char>,
)
    requires
        m.dom().finite(),
    ensures
        ({
            let list = found_list(m, needle);
            &&& list.contains(e) ==> in_lobby(m, e) && crate::search::found(
                lowercase(listed_names(e).0),
                lowercase(listed_names(e).1),
                lowercase(base58(e.game_id.0@)),
                needle,
            )
            &&& forall|i: int, j: int|
                0 <= i < j < list.len() ==> activity(#[trigger] list[i]) >= activity(
                    #[trigger] list[j],
                )
        }),
{
    law_lists_hold_what_was_asked_for(m, games_with(needle), busiest_first(), e);
    let list = ordered(selected(values_of(m), games_with(needle)), busiest_first());
    assert forall|i: int, j: int| 0 <= i < j < list.len() implies activity(#[trigger] list[i])
        >= activity(#[trigger] list[j]) by {
        assert(!before(busiest_first()(list[j]), busiest_first()(list[i])));
    }
}

/// Fewer of a creator's games come before an older one's place than before a
/// newer one's.
proof fn lemma_older_has_more_before(
    m: Map<GameId, LobbyEntry>,
    newer: GameId,
    older: GameId,
    counted: spec_fn(LobbyEntry) -> bool,
)
    requires
        m.dom().finite(),
        id_of(m[newer].setup.creator) == id_of(m[older].setup.creator),
        m[newer].setup.setup.created_at > m[older].setup.setup.created_at,
    ensures
        how_many(listing(m), own_before(newer, m[newer], by_creation(), counted)) <= how_many(
            listing(m),
            own_before(older, m[older], by_creation(), counted),
        ),
{
    lemma_fewer_satisfy(
        m,
        m,
        own_before(newer, m[newer], by_creation(), counted),
        own_before(older, m[older], by_creation(), counted),
    );
}

/// Within a creator's own limits no game gives way to an older one of theirs,
/// unless it is open and the older one is not.
pub proof fn law_a_creators_newest_games_stay(
    m: Map<GameId, LobbyEntry>,
    kept: GameId,
    dropped: GameId,
)
    requires
        m.dom().finite(),
        m.contains_key(kept) && m.contains_key(dropped),
        id_of(m[kept].setup.creator) == id_of(m[dropped].setup.creator),
        within_quota(m)(kept, m[kept]),
        !within_quota(m)(dropped, m[dropped]),
        m[kept].opponent is None || m[dropped].opponent is Some,
    ensures
        m[kept].setup.setup.created_at >= m[dropped].setup.setup.created_at,
{
    if m[kept].setup.setup.created_at < m[dropped].setup.setup.created_at {
        lemma_older_has_more_before(m, dropped, kept, any_game());
        lemma_older_has_more_before(m, dropped, kept, waits());
    }
}

/// Where no creator lists more than twenty games, nor more than three that are
/// open, and there are no more than 500 in all, none gives way.
pub proof fn law_no_listing_gives_way_needlessly(m: Map<GameId, LobbyEntry>)
    requires
        m.dom().finite(),
        listing(m).len() <= 500,
        forall|p: PlayerId| (#[trigger] counts_of(m, p)).0 <= 20 && counts_of(m, p).1 <= 3,
    ensures
        games_pruned(m) == m,
{
    let own = restricted(m, within_quota(m));
    assert forall|k: GameId| #[trigger] m.contains_key(k) implies within_quota(m)(k, m[k]) by {
        let p = id_of(m[k].setup.creator);
        assert(counts_of(m, p).0 <= 20);
        lemma_one_fewer_before(m, k, any_game(), made_by(p));
        if m[k].opponent is None {
            lemma_one_fewer_before(m, k, waits(), opened_by(p));
        }
    }
    assert(own =~= m);
}

/// Fewer of a creator's games come before one of them than there are.
proof fn lemma_one_fewer_before(
    m: Map<GameId, LobbyEntry>,
    k: GameId,
    counted: spec_fn(LobbyEntry) -> bool,
    all: spec_fn(GameId, LobbyEntry) -> bool,
)
    requires
        m.dom().finite(),
        m.contains_key(k),
        all(k, m[k]),
        forall|j: GameId, f: LobbyEntry| #[trigger]
            all(j, f) <==> id_of(f.setup.creator) == id_of(m[k].setup.creator) && counted(f),
    ensures
        how_many(listing(m), own_before(k, m[k], by_creation(), counted)) < how_many(
            listing(m),
            all,
        ),
{
    let ahead = own_before(k, m[k], by_creation(), counted);
    lemma_how_many(m, ahead);
    lemma_how_many(m, all);
    let (s, t) = (restricted(m, ahead).dom(), restricted(m, all).dom());
    assert(s.subset_of(t.remove(k)));
    vstd::set_lib::lemma_len_subset(s, t.remove(k));
    assert(t.contains(k));
}

/// A pruned lobby has no more than 500 games, and no creator more than twenty in
/// it, nor more than three that are open.
pub proof fn law_the_lobby_has_its_limits(m: Map<GameId, LobbyEntry>, creator: PlayerId)
    requires
        m.dom().finite(),
    ensures
        listing(games_pruned(m)).len() <= 500,
        counts_of(games_pruned(m), creator).0 <= 20,
        counts_of(games_pruned(m), creator).1 <= 3,
        forall|k: GameId| #[trigger]
            games_pruned(m).contains_key(k) ==> m.contains_key(k) && games_pruned(m)[k] == m[k],
{
    super::games::law_limits_hold(m, creator);
}

/// The games of a lobby pass if there are at most five hundred, each is sound and
/// filed under its name, and nobody has made more than twenty or has more than
/// three that wait.
pub proof fn law_sound_lists_of_games(m: Map<GameId, LobbyEntry>)
    requires
        m.dom().finite(),
    ensures
        games_fault(m) is None <==> {
            &&& listing(m).len() <= 500
            &&& forall|k: GameId| #[trigger]
                m.contains_key(k) ==> m[k].game_id == k && listing_fault(m[k]) is None
            &&& forall|p: PlayerId|
                (#[trigger] counts_of(m, p)).0 <= 20 && counts_of(m, p).1 <= 3
        },
{
    let faults = listing_faults(m);
    lemma_no_fault(faults, listing(m).len());
    if games_fault(m) is None {
        assert forall|k: GameId| #[trigger] m.contains_key(k) implies m[k].game_id == k
            && listing_fault(m[k]) is None by {
            let i = lemma_listing_place(m, k);
            assert(faults(i) is None);
        }
        assert forall|p: PlayerId| (#[trigger] counts_of(m, p)).0 <= 20 && counts_of(m, p).1 <= 3 by {
            assert(!over_quota(m, p));
        }
    }
    if forall|k: GameId| #[trigger]
        m.contains_key(k) ==> m[k].game_id == k && listing_fault(m[k]) is None {
        assert forall|i: int| 0 <= i < listing(m).len() implies (#[trigger] faults(i)) is None by {
            lemma_listing_entry(m, i);
        }
    }
    if forall|p: PlayerId| (#[trigger] counts_of(m, p)).0 <= 20 && counts_of(m, p).1 <= 3 {
        assert forall|p: PlayerId| !#[trigger] over_quota(m, p) by {
            assert(counts_of(m, p).0 <= 20);
        }
    }
}

/// What a listing is told by covers who was seated and the last snapshot: one
/// more of either, or another, changes it.
pub proof fn law_listings_tell_of_every_change(a: LobbyEntry, b: LobbyEntry)
    requires
        entry_seals(a) == entry_seals(b),
    ensures
        a.opponent is Some <==> b.opponent is Some,
        a.snapshot is Some <==> b.snapshot is Some,
        a.opponent is Some ==> (a.opponent->0).signature.0@ == (b.opponent->0).signature.0@,
        a.snapshot is Some ==> (a.snapshot->0).signature.0@ == (b.snapshot->0).signature.0@,
{
    let (s, t) = (entry_seals(a), entry_seals(b));
    assert(s[0] == t[0]);
    let n: int = if a.opponent is Some {
        65
    } else {
        1
    };
    assert(s[n] == t[n]);
    if a.opponent is Some {
        assert(s.subrange(1, 65) =~= (a.opponent->0).signature.0@);
        assert(t.subrange(1, 65) =~= (b.opponent->0).signature.0@);
    }
    if a.snapshot is Some {
        assert(s.subrange(n + 1, n + 65) =~= (a.snapshot->0).signature.0@);
        assert(t.subrange(n + 1, n + 65) =~= (b.snapshot->0).signature.0@);
    }
}

/// Somebody's games are counted one by one, and those of them that wait.
pub proof fn law_every_game_of_a_creator_is_counted(m: Map<GameId, LobbyEntry>, creator: PlayerId)
    requires
        m.dom().finite(),
    ensures
        counts_of(m, creator).0 == m.dom().filter(
            |k: GameId| id_of(m[k].setup.creator) == creator,
        ).len(),
        counts_of(m, creator).1 == m.dom().filter(
            |k: GameId| id_of(m[k].setup.creator) == creator && m[k].opponent is None,
        ).len(),
{
    lemma_how_many(m, made_by(creator));
    lemma_how_many(m, opened_by(creator));
    assert(m.dom().filter(|k: GameId| id_of(m[k].setup.creator) == creator) =~= restricted(
        m,
        made_by(creator),
    ).dom());
    assert(m.dom().filter(
        |k: GameId| id_of(m[k].setup.creator) == creator && m[k].opponent is None,
    ) =~= restricted(m, opened_by(creator)).dom());
}

/// A listed game is shown where its last snapshot has it, and before there is
/// any, with all pieces at home and White to move.
pub proof fn law_games_are_shown_where_they_stand(e: LobbyEntry)
    ensures
        e.snapshot is Some ==> listed_fen(e) == e.snapshot->0.fen@,
        e.snapshot is None ==> listed_fen(e)
            == "rnbqkbnr/pppppppp/8/8/8/8/PPPPPPPP/RNBQKBNR w KQkq - 0 1"@,
{
}

} // verus!
