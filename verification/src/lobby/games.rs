//! The games that the lobby lists, and how many of them.
//!
//! Listing a game takes work, but keys are free, so that one party may hold
//! many. Each creator's listings are limited, and where there are too many in
//! all, the places are shared out among the creators.

use super::entry::{
    activity, entry_merged, listed_live, listed_names, listed_result, listing_fault, LobbyEntry,
};
use super::{LobbyParametersV1, LobbyStateV1};
use crate::crypto::base58;
use crate::game::over;
use crate::identity::{id_of, GameId, PlayerId};
use crate::lists::{arrange, choose_from, refs_held, select, selected, values_of};
use crate::order::{
    among_first, before, flag_first, foremost, how_many, lemma_fewer_satisfy, lemma_how_many,
    lemma_keys_ahead, ordered, place_of, placed_apart,
};
use crate::search::{found, is_found, lower, lowercase, needle_of, trim_text};
use crate::sorted_map::{lemma_flagged_map, listing, restricted, views, Ranked, SortedMap};
use crate::sync::{held, marks_of, missing, missing_from, summarize_map};
use crate::text::{
    digits, fault, first_fault, join3, lemma_first_fault_stays, push_decimal, with_number,
};
use vstd::prelude::*;
use vstd::string::*;

verus! {

/// How many open games a creator may have.
pub const MAX_OPEN_PER_CREATOR: usize = 3;

/// How many games of one creator the lobby lists.
pub const MAX_LISTINGS_PER_CREATOR: usize = 20;

/// How many games the lobby lists.
pub const MAX_LOBBY_ENTRIES: usize = 500;

/// The games of the lobby.
#[derive(Debug, PartialEq, Eq, Clone)]
pub struct LobbyGamesV1 {
    pub games: SortedMap<GameId, LobbyEntry>,
}

impl View for LobbyGamesV1 {
    type V = Map<GameId, LobbyEntry>;

    open spec fn view(&self) -> Map<GameId, LobbyEntry> {
        self.games@
    }
}

impl Default for LobbyGamesV1 {
    fn default() -> (r: Self)
        ensures
            r@ == Map::<GameId, LobbyEntry>::empty(),
    {
        LobbyGamesV1 { games: SortedMap::new() }
    }
}

/// The lobby with one more listing.
pub open spec fn game_absorbed(m: Map<GameId, LobbyEntry>, e: LobbyEntry) -> Map<
    GameId,
    LobbyEntry,
> {
    if m.contains_key(e.game_id) {
        m.insert(e.game_id, entry_merged(m[e.game_id], e))
    } else {
        m.insert(e.game_id, e)
    }
}

/// The lobby once listings have come in, up to the first bad one, and what was
/// wrong with that.
pub open spec fn games_after(m: Map<GameId, LobbyEntry>, incoming: Seq<LobbyEntry>) -> (
    Map<GameId, LobbyEntry>,
    Option<Seq<char>>,
)
    decreases incoming.len(),
{
    if incoming.len() == 0 {
        (m, None)
    } else {
        let (so_far, e) = games_after(m, incoming.drop_last());
        if e is Some {
            (so_far, e)
        } else if listing_fault(incoming.last()) is Some {
            (so_far, listing_fault(incoming.last()))
        } else {
            (game_absorbed(so_far, incoming.last()), None)
        }
    }
}

proof fn lemma_games_stop(m: Map<GameId, LobbyEntry>, incoming: Seq<LobbyEntry>, n: int)
    requires
        0 <= n <= incoming.len(),
        games_after(m, incoming.take(n)).1 is Some,
    ensures
        games_after(m, incoming) == games_after(m, incoming.take(n)),
    decreases incoming.len(),
{
    if n == incoming.len() {
        assert(incoming.take(n) =~= incoming);
    } else {
        assert(incoming.drop_last().take(n) =~= incoming.take(n));
        lemma_games_stop(m, incoming.drop_last(), n);
    }
}

/// Listings, the newest first.
pub open spec fn newest_first() -> spec_fn(LobbyEntry) -> (int, int, nat) {
    |e: LobbyEntry| (0int, -(e.setup.setup.created_at as int), e.game_id.rank())
}

/// Listings, the last active first.
pub open spec fn busiest_first() -> spec_fn(LobbyEntry) -> (int, int, nat) {
    |e: LobbyEntry| (0int, -(activity(e) as int), e.game_id.rank())
}

fn newness_key(e: &LobbyEntry) -> (k: (i128, i128, GameId))
    ensures
        place_of(k) == newest_first()(e@),
{
    (0, -(e.created_at() as i128), e.game_id)
}

fn activity_key(e: &LobbyEntry) -> (k: (i128, i128, GameId))
    ensures
        place_of(k) == busiest_first()(e@),
{
    (0, -(e.last_activity() as i128), e.game_id)
}

/// Games that are over.
pub open spec fn is_finished() -> spec_fn(LobbyEntry) -> bool {
    |e: LobbyEntry| over(listed_result(e))
}

/// Games that wait for an opponent.
pub open spec fn waits() -> spec_fn(LobbyEntry) -> bool {
    |e: LobbyEntry| e.opponent is None
}

/// Games that are being played.
pub open spec fn is_played() -> spec_fn(LobbyEntry) -> bool {
    |e: LobbyEntry| listed_live(e)
}

/// Games that anyone may join.
pub open spec fn for_anyone() -> spec_fn(LobbyEntry) -> bool {
    |e: LobbyEntry| e.setup.setup.challenged is None
}

/// Games to which a player was challenged.
pub open spec fn meant_for(player: PlayerId) -> spec_fn(LobbyEntry) -> bool {
    |e: LobbyEntry|
        match e.setup.setup.challenged {
            Some(key) => id_of(key) == player,
            None => false,
        }
}

/// Games that have a text in their players' names, or start with it.
pub open spec fn games_with(needle: Seq<char>) -> spec_fn(LobbyEntry) -> bool {
    |e: LobbyEntry|
        found(
            lowercase(listed_names(e).0),
            lowercase(listed_names(e).1),
            lowercase(base58(e.game_id.0@)),
            needle,
        )
}

fn finished(e: &LobbyEntry) -> (b: bool)
    ensures
        b == is_finished()(e@),
{
    e.result().is_over()
}

fn open(e: &LobbyEntry) -> (b: bool)
    ensures
        b == waits()(e@),
{
    e.is_open()
}

fn live(e: &LobbyEntry) -> (b: bool)
    ensures
        b == is_played()(e@),
{
    e.is_live()
}

fn public(e: &LobbyEntry) -> (b: bool)
    ensures
        b == for_anyone()(e@),
{
    e.setup.setup.challenged.is_none()
}

fn entry_matches(e: &LobbyEntry, needle: &str) -> (b: bool)
    ensures
        b == games_with(needle@)(e@),
{
    let (white, black) = e.nicknames();
    let white = lower(white.as_str());
    let black = lower(black.as_str());
    let id = lower(e.game_id.to_base58().as_str());
    is_found(white.as_str(), black.as_str(), id.as_str(), needle)
}

/// The games that wait for an opponent, the newest first.
pub open spec fn open_list(m: Map<GameId, LobbyEntry>) -> Seq<LobbyEntry> {
    ordered(selected(values_of(m), waits()), newest_first())
}

/// The games that are being played, the last active first.
pub open spec fn live_list(m: Map<GameId, LobbyEntry>) -> Seq<LobbyEntry> {
    ordered(selected(values_of(m), is_played()), busiest_first())
}

/// The games that are over, the last active first.
pub open spec fn finished_list(m: Map<GameId, LobbyEntry>) -> Seq<LobbyEntry> {
    ordered(selected(values_of(m), is_finished()), busiest_first())
}

/// The games that a text finds, the last active first. An empty one finds none.
pub open spec fn found_list(m: Map<GameId, LobbyEntry>, needle: Seq<char>) -> Seq<LobbyEntry> {
    if needle.len() == 0 {
        Seq::empty()
    } else {
        ordered(selected(values_of(m), games_with(needle)), busiest_first())
    }
}

/// Entries of one creator.
pub open spec fn made_by(creator: PlayerId) -> spec_fn(GameId, LobbyEntry) -> bool {
    |k: GameId, e: LobbyEntry| id_of(e.setup.creator) == creator
}

/// Open games of one creator.
pub open spec fn opened_by(creator: PlayerId) -> spec_fn(GameId, LobbyEntry) -> bool {
    |k: GameId, e: LobbyEntry| id_of(e.setup.creator) == creator && e.opponent is None
}

/// How many games a creator has listed, and how many of them are open.
pub open spec fn counts_of(m: Map<GameId, LobbyEntry>, creator: PlayerId) -> (nat, nat) {
    (how_many(listing(m), made_by(creator)), how_many(listing(m), opened_by(creator)))
}

/// Entries by when they were created, the newest first.
pub open spec fn by_creation() -> spec_fn(GameId, LobbyEntry) -> (int, int, nat) {
    |k: GameId, e: LobbyEntry| (0int, -(e.setup.setup.created_at as int), k.rank())
}

/// Entries by when something last happened in them, the last first.
pub open spec fn by_activity() -> spec_fn(GameId, LobbyEntry) -> (int, int, nat) {
    |k: GameId, e: LobbyEntry| (0int, -(activity(e) as int), k.rank())
}

/// Any game at all.
pub open spec fn any_game() -> spec_fn(LobbyEntry) -> bool {
    |e: LobbyEntry| true
}

/// The entries of the same creator that come before an entry and count.
pub open spec fn own_before(
    k: GameId,
    e: LobbyEntry,
    order: spec_fn(GameId, LobbyEntry) -> (int, int, nat),
    counted: spec_fn(LobbyEntry) -> bool,
) -> spec_fn(GameId, LobbyEntry) -> bool {
    |j: GameId, f: LobbyEntry|
        id_of(f.setup.creator) == id_of(e.setup.creator) && counted(f) && before(
            order(j, f),
            order(k, e),
        )
}

/// The entries that stay within their creator's limits: the newest, and of
/// those that are open the newest few.
pub open spec fn within_quota(m: Map<GameId, LobbyEntry>) -> spec_fn(GameId, LobbyEntry) -> bool {
    |k: GameId, e: LobbyEntry|
        how_many(listing(m), own_before(k, e, by_creation(), any_game())) < MAX_LISTINGS_PER_CREATOR
            && (e.opponent is None ==> how_many(
            listing(m),
            own_before(k, e, by_creation(), waits()),
        ) < MAX_OPEN_PER_CREATOR)
}

/// How many games its creator has in which something happened later.
pub open spec fn level(m: Map<GameId, LobbyEntry>, k: GameId, e: LobbyEntry) -> nat {
    how_many(listing(m), own_before(k, e, by_activity(), any_game()))
}

/// In what order the lobby's places are given out: to every creator's last
/// active game, then to everyone's second, and so on.
pub open spec fn turns(m: Map<GameId, LobbyEntry>) -> spec_fn(GameId, LobbyEntry) -> (
    int,
    int,
    nat,
) {
    |k: GameId, e: LobbyEntry| (level(m, k, e) as int, -(activity(e) as int), k.rank())
}

/// The lobby within its limits.
pub open spec fn games_pruned(m: Map<GameId, LobbyEntry>) -> Map<GameId, LobbyEntry> {
    let own = restricted(m, within_quota(m));
    foremost(own, turns(own), MAX_LOBBY_ENTRIES as nat)
}

/// Whether a creator has more than they may.
pub open spec fn over_quota(m: Map<GameId, LobbyEntry>, creator: PlayerId) -> bool {
    counts_of(m, creator).0 > MAX_LISTINGS_PER_CREATOR || counts_of(m, creator).1
        > MAX_OPEN_PER_CREATOR
}

/// The creator with the lowest handle who has more than they may.
pub open spec fn first_over_quota(m: Map<GameId, LobbyEntry>) -> Option<PlayerId> {
    if exists|p: PlayerId| over_quota(m, p) {
        Some(
            choose|p: PlayerId|
                over_quota(m, p) && forall|q: PlayerId| #[trigger]
                    over_quota(m, q) ==> p.rank() <= q.rank(),
        )
    } else {
        None
    }
}

/// What is told of a creator who has more than they may.
pub open spec fn quota_fault(creator: PlayerId, total: nat, open: nat) -> Seq<char> {
    let who = "creator "@ + base58(creator.0@) + " holds "@;
    if total > MAX_LISTINGS_PER_CREATOR {
        who + digits(total) + " listings, over the 20 cap"@
    } else {
        who + digits(open) + " open games, over the 3 cap"@
    }
}

fn quota_text(creator: PlayerId, total: usize, open: usize) -> (r: String)
    ensures
        r@ == quota_fault(creator, total as nat, open as nat),
{
    let mut text = join3("creator ", creator.to_base58().as_str(), " holds ");
    if total > MAX_LISTINGS_PER_CREATOR {
        push_decimal(&mut text, total as u128);
        text.push_str(" listings, over the 20 cap");
    } else {
        push_decimal(&mut text, open as u128);
        text.push_str(" open games, over the 3 cap");
    }
    text
}

pub open spec fn listing_faults(m: Map<GameId, LobbyEntry>) -> spec_fn(int) -> Option<Seq<char>> {
    |i: int|
        if listing(m)[i].1.game_id != listing(m)[i].0 {
            Some("lobby entry stored under the wrong game id"@)
        } else {
            listing_fault(listing(m)[i].1)
        }
}

/// What is wrong with the lobby's games, the first thing first.
pub open spec fn games_fault(m: Map<GameId, LobbyEntry>) -> Option<Seq<char>> {
    let entries = first_fault(listing_faults(m), listing(m).len());
    if listing(m).len() > MAX_LOBBY_ENTRIES {
        Some(
            "lobby holds "@ + digits(listing(m).len()) + " entries, over the "@ + digits(
                MAX_LOBBY_ENTRIES as nat,
            ) + " cap"@,
        )
    } else if entries is Some {
        entries
    } else {
        match first_over_quota(m) {
            Some(p) => Some(quota_fault(p, counts_of(m, p).0, counts_of(m, p).1)),
            None => None,
        }
    }
}

/// How many entries of the same creator come before one and count, given the
/// creators, the order and which of them count.
fn count_own_before(
    owners: &Vec<PlayerId>,
    keys: &Vec<(i128, i128, GameId)>,
    counted: &Vec<bool>,
    i: usize,
    Ghost(es): Ghost<Seq<(GameId, LobbyEntry)>>,
    Ghost(order): Ghost<spec_fn(GameId, LobbyEntry) -> (int, int, nat)>,
    Ghost(counts): Ghost<spec_fn(LobbyEntry) -> bool>,
) -> (r: usize)
    requires
        i < es.len(),
        owners@.len() == es.len(),
        keys@.len() == es.len(),
        counted@.len() == es.len(),
        forall|j: int| 0 <= j < es.len() ==> #[trigger] owners@[j] == id_of(es[j].1.setup.creator),
        forall|j: int|
            0 <= j < es.len() ==> place_of(#[trigger] keys@[j]) == order(es[j].0, es[j].1),
        forall|j: int| 0 <= j < es.len() ==> #[trigger] counted@[j] == counts(es[j].1),
    ensures
        r == how_many(es, own_before(es[i as int].0, es[i as int].1, order, counts)),
        r <= es.len(),
{
    let ghost cond = own_before(es[i as int].0, es[i as int].1, order, counts);
    let n = owners.len();
    let mut count: usize = 0;
    let mut j: usize = 0;
    while j < n
        invariant
            j <= n,
            n == es.len(),
            i < n,
            count <= j,
            owners@.len() == n,
            keys@.len() == n,
            counted@.len() == n,
            cond == own_before(es[i as int].0, es[i as int].1, order, counts),
            forall|x: int| 0 <= x < n ==> #[trigger] owners@[x] == id_of(es[x].1.setup.creator),
            forall|x: int| 0 <= x < n ==> place_of(#[trigger] keys@[x]) == order(es[x].0, es[x].1),
            forall|x: int| 0 <= x < n ==> #[trigger] counted@[x] == counts(es[x].1),
            count == how_many(es.take(j as int), cond),
        decreases n - j,
    {
        assert(es.take(j + 1).drop_last() =~= es.take(j as int));
        assert(es.take(j + 1).last() == es[j as int]);
        assert(owners@[i as int] == id_of(es[i as int].1.setup.creator));
        assert(place_of(keys@[i as int]) == order(es[i as int].0, es[i as int].1));
        if owners[j].same(&owners[i]) && counted[j] && crate::order::key_before(
            &keys[j],
            &keys[i],
        ) {
            count = count + 1;
        }
        j = j + 1;
    }
    assert(es.take(n as int) =~= es);
    count
}

impl LobbyGamesV1 {
    pub fn len(&self) -> (r: usize)
        ensures
            r == listing(self@).len(),
            self@.dom().finite(),
    {
        self.games.len()
    }

    pub fn is_empty(&self) -> (r: bool)
        ensures
            r == (listing(self@).len() == 0),
    {
        self.len() == 0
    }

    pub fn get(&self, id: &GameId) -> (r: Option<&LobbyEntry>)
        ensures
            match r {
                Some(e) => self@.contains_key(*id) && self@[*id] == *e,
                None => !self@.contains_key(*id),
            },
    {
        self.games.get(id)
    }

    fn absorb(&mut self, incoming: LobbyEntry)
        ensures
            final(self)@ == game_absorbed(old(self)@, incoming),
    {
        let id = incoming.game_id;
        let merged = match self.games.get(&id) {
            Some(current) => {
                let mut e = current.clone();
                e.absorb(incoming);
                e
            },
            None => incoming,
        };
        self.games.insert(id, merged);
    }

    /// The games that are over, the last active first.
    pub fn finished_games(&self) -> (r: Vec<&LobbyEntry>)
        ensures
            refs_held(r@) == ordered(selected(values_of(self@), is_finished()), busiest_first()),
            refs_held(r@) == finished_list(self@),
    {
        assert(views(self.games@) =~= self.games@);
        let some = select(&self.games, finished, Ghost(is_finished()));
        arrange(some, activity_key, Ghost(busiest_first()))
    }

    /// The games that wait for an opponent, the newest first.
    pub fn open_games(&self) -> (r: Vec<&LobbyEntry>)
        ensures
            refs_held(r@) == ordered(selected(values_of(self@), waits()), newest_first()),
            refs_held(r@) == open_list(self@),
    {
        assert(views(self.games@) =~= self.games@);
        let some = select(&self.games, open, Ghost(waits()));
        arrange(some, newness_key, Ghost(newest_first()))
    }

    /// The games that are being played, the last active first.
    pub fn live_games(&self) -> (r: Vec<&LobbyEntry>)
        ensures
            refs_held(r@) == ordered(selected(values_of(self@), is_played()), busiest_first()),
            refs_held(r@) == live_list(self@),
    {
        assert(views(self.games@) =~= self.games@);
        let some = select(&self.games, live, Ghost(is_played()));
        arrange(some, activity_key, Ghost(busiest_first()))
    }

    /// The games that anyone may join, the newest first.
    pub fn public_open_games(&self) -> (r: Vec<&LobbyEntry>)
        ensures
            refs_held(r@) == selected(
                ordered(selected(values_of(self@), waits()), newest_first()),
                for_anyone(),
            ),
            refs_held(r@) == selected(open_list(self@), for_anyone()),
    {
        choose_from(self.open_games(), public, Ghost(for_anyone()))
    }

    /// The open games to which a player was challenged, the newest first.
    pub fn challenges_for(&self, player: PlayerId) -> (r: Vec<&LobbyEntry>)
        ensures
            refs_held(r@) == selected(
                ordered(selected(values_of(self@), waits()), newest_first()),
                meant_for(player),
            ),
            refs_held(r@) == selected(open_list(self@), meant_for(player)),
    {
        let theirs = |e: &LobbyEntry| -> (b: bool)
            ensures
                b == meant_for(player)(e@),
        {
            match &e.setup.setup.challenged {
                Some(key) => PlayerId::from(key).same(&player),
                None => false,
            }
        };
        choose_from(self.open_games(), theirs, Ghost(meant_for(player)))
    }

    /// The games that match a query, the last active first. A blank query
    /// matches none.
    pub fn search(&self, query: &str) -> (r: Vec<&LobbyEntry>)
        ensures
            refs_held(r@) == (if needle_of(query@).len() == 0 {
                Seq::empty()
            } else {
                ordered(
                    selected(values_of(self@), games_with(needle_of(query@))),
                    busiest_first(),
                )
            }),
            refs_held(r@) == found_list(self@, needle_of(query@)),
    {
        let trimmed = trim_text(query);
        let needle = lower(trimmed.as_str());
        self.with_needle(needle.as_str())
    }

    /// The games that have a text in their names, the last active first. An
    /// empty text finds none.
    pub fn with_needle(&self, needle: &str) -> (r: Vec<&LobbyEntry>)
        ensures
            refs_held(r@) == (if needle@.len() == 0 {
                Seq::empty()
            } else {
                ordered(selected(values_of(self@), games_with(needle@)), busiest_first())
            }),
            refs_held(r@) == found_list(self@, needle@),
    {
        if needle.unicode_len() == 0 {
            let none: Vec<&LobbyEntry> = Vec::new();
            assert(refs_held(none@) =~= Seq::<LobbyEntry>::empty());
            return none;
        }
        assert(views(self.games@) =~= self.games@);
        let matching = |e: &LobbyEntry| -> (b: bool)
            ensures
                b == games_with(needle@)(e@),
        {
            entry_matches(e, needle)
        };
        let some = select(&self.games, matching, Ghost(games_with(needle@)));
        arrange(some, activity_key, Ghost(busiest_first()))
    }

    /// Who made each of the games.
    fn owners(&self) -> (r: Vec<PlayerId>)
        ensures
            r@.len() == self.games.spec_entries().len(),
            forall|j: int|
                0 <= j < r@.len() ==> #[trigger] r@[j] == id_of(
                    self.games.spec_entries()[j].1.setup.creator,
                ),
    {
        let n = self.games.len();
        let mut out: Vec<PlayerId> = Vec::new();
        let mut i: usize = 0;
        while i < n
            invariant
                i <= n,
                n == self.games.spec_entries().len(),
                out@.len() == i,
                forall|j: int|
                    0 <= j < i ==> #[trigger] out@[j] == id_of(
                        self.games.spec_entries()[j].1.setup.creator,
                    ),
            decreases n - i,
        {
            out.push(self.games.value_at(i).creator_id());
            i = i + 1;
        }
        out
    }

    /// Keep each creator within their limits.
    fn enforce_creator_quotas(&mut self)
        ensures
            final(self)@ == restricted(old(self)@, within_quota(old(self)@)),
    {
        let n = self.games.len();
        let ghost start = self@;
        let ghost es = self.games.spec_entries();
        let owners = self.owners();
        let mut all: Vec<bool> = Vec::new();
        let mut opens: Vec<bool> = Vec::new();
        let mut keys: Vec<(i128, i128, GameId)> = Vec::new();
        let mut i: usize = 0;
        while i < n
            invariant
                i <= n,
                n == self.games.spec_entries().len(),
                es == self.games.spec_entries(),
                all@.len() == i,
                opens@.len() == i,
                keys@.len() == i,
                forall|j: int| 0 <= j < i ==> #[trigger] all@[j] == any_game()(es[j].1),
                forall|j: int| 0 <= j < i ==> #[trigger] opens@[j] == waits()(es[j].1),
                forall|j: int|
                    0 <= j < i ==> place_of(#[trigger] keys@[j]) == by_creation()(es[j].0, es[j].1),
            decreases n - i,
        {
            let e = self.games.value_at(i);
            let k = self.games.key_at(i);
            all.push(true);
            opens.push(e.is_open());
            keys.push((0, -(e.created_at() as i128), k));
            i = i + 1;
        }
        let mut flags: Vec<bool> = Vec::new();
        let ghost keep = within_quota(start);
        let mut i: usize = 0;
        while i < n
            invariant
                i <= n,
                n == es.len(),
                es == listing(start),
                keep == within_quota(start),
                owners@.len() == n,
                all@.len() == n,
                opens@.len() == n,
                keys@.len() == n,
                forall|j: int|
                    0 <= j < n ==> #[trigger] owners@[j] == id_of(es[j].1.setup.creator),
                forall|j: int| 0 <= j < n ==> #[trigger] all@[j] == any_game()(es[j].1),
                forall|j: int| 0 <= j < n ==> #[trigger] opens@[j] == waits()(es[j].1),
                forall|j: int|
                    0 <= j < n ==> place_of(#[trigger] keys@[j]) == by_creation()(es[j].0, es[j].1),
                flags@.len() == i,
                forall|j: int| 0 <= j < i ==> #[trigger] flags@[j] == keep(es[j].0, es[j].1),
            decreases n - i,
        {
            let total = count_own_before(
                &owners,
                &keys,
                &all,
                i,
                Ghost(es),
                Ghost(by_creation()),
                Ghost(any_game()),
            );
            let open = count_own_before(
                &owners,
                &keys,
                &opens,
                i,
                Ghost(es),
                Ghost(by_creation()),
                Ghost(waits()),
            );
            assert(opens@[i as int] == waits()(es[i as int].1));
            flags.push(
                total < MAX_LISTINGS_PER_CREATOR && (!opens[i] || open < MAX_OPEN_PER_CREATOR),
            );
            i = i + 1;
        }
        self.games.keep_flagged(&flags);
        proof {
            lemma_flagged_map(es, flags@, keep);
        }
    }

    /// Keep the lobby within its size.
    fn enforce_size(&mut self)
        ensures
            final(self)@ == foremost(old(self)@, turns(old(self)@), MAX_LOBBY_ENTRIES as nat),
    {
        let n = self.games.len();
        let ghost start = self@;
        let ghost es = self.games.spec_entries();
        if n <= MAX_LOBBY_ENTRIES {
            return;
        }
        let owners = self.owners();
        let mut all: Vec<bool> = Vec::new();
        let mut keys: Vec<(i128, i128, GameId)> = Vec::new();
        let mut i: usize = 0;
        while i < n
            invariant
                i <= n,
                n == self.games.spec_entries().len(),
                es == self.games.spec_entries(),
                all@.len() == i,
                keys@.len() == i,
                forall|j: int| 0 <= j < i ==> #[trigger] all@[j] == any_game()(es[j].1),
                forall|j: int|
                    0 <= j < i ==> place_of(#[trigger] keys@[j]) == by_activity()(es[j].0, es[j].1),
            decreases n - i,
        {
            let e = self.games.value_at(i);
            let k = self.games.key_at(i);
            all.push(true);
            keys.push((0, -(e.last_activity() as i128), k));
            i = i + 1;
        }
        let ghost order = turns(start);
        let mut shared: Vec<(i128, i128, GameId)> = Vec::new();
        let mut i: usize = 0;
        while i < n
            invariant
                i <= n,
                n == self.games.spec_entries().len(),
                es == self.games.spec_entries(),
                es == listing(start),
                order == turns(start),
                owners@.len() == n,
                all@.len() == n,
                keys@.len() == n,
                forall|j: int|
                    0 <= j < n ==> #[trigger] owners@[j] == id_of(es[j].1.setup.creator),
                forall|j: int| 0 <= j < n ==> #[trigger] all@[j] == any_game()(es[j].1),
                forall|j: int|
                    0 <= j < n ==> place_of(#[trigger] keys@[j]) == by_activity()(es[j].0, es[j].1),
                shared@.len() == i,
                forall|j: int|
                    0 <= j < i ==> place_of(#[trigger] shared@[j]) == order(es[j].0, es[j].1),
            decreases n - i,
        {
            let rank = count_own_before(
                &owners,
                &keys,
                &all,
                i,
                Ghost(es),
                Ghost(by_activity()),
                Ghost(any_game()),
            );
            let e = self.games.value_at(i);
            let k = self.games.key_at(i);
            shared.push((rank as i128, -(e.last_activity() as i128), k));
            i = i + 1;
        }
        let flags = flag_first(&shared, MAX_LOBBY_ENTRIES);
        let ghost keep = among_first(start, order, MAX_LOBBY_ENTRIES as nat);
        proof {
            assert forall|j: int| 0 <= j < es.len() implies #[trigger] flags@[j] == keep(
                es[j].0,
                es[j].1,
            ) by {
                lemma_keys_ahead(shared@, es, order, place_of(shared@[j]));
                assert(place_of(shared@[j]) == order(es[j].0, es[j].1));
            }
        }
        self.games.keep_flagged(&flags);
        proof {
            lemma_flagged_map(es, flags@, keep);
        }
    }

    /// Keep the lobby within its limits.
    pub fn enforce_quotas(&mut self)
        ensures
            final(self)@ == games_pruned(old(self)@),
    {
        self.enforce_creator_quotas();
        self.enforce_size();
    }

    /// How many games a creator has listed, and how many of them are open.
    pub fn creator_counts(&self, creator: PlayerId) -> (r: (usize, usize))
        ensures
            (r.0 as nat, r.1 as nat) == counts_of(self@, creator),
    {
        let n = self.games.len();
        let ghost es = listing(self@);
        let mut total: usize = 0;
        let mut open: usize = 0;
        let mut i: usize = 0;
        while i < n
            invariant
                i <= n,
                n == self.games.spec_entries().len(),
                es == self.games.spec_entries(),
                total <= i,
                open <= i,
                total == how_many(es.take(i as int), made_by(creator)),
                open == how_many(es.take(i as int), opened_by(creator)),
            decreases n - i,
        {
            let e = self.games.value_at(i);
            assert(es.take(i + 1).drop_last() =~= es.take(i as int));
            assert(es.take(i + 1).last() == es[i as int]);
            if e.creator_id().same(&creator) {
                total = total + 1;
                if e.is_open() {
                    open = open + 1;
                }
            }
            i = i + 1;
        }
        assert(es.take(n as int) =~= es);
        (total, open)
    }

    /// The creator with the lowest handle who has more than they may, and how
    /// many games they have.
    fn find_over_quota(&self) -> (r: Option<(PlayerId, usize, usize)>)
        ensures
            match r {
                Some((p, total, open)) => first_over_quota(self@) == Some(p) && counts_of(
                    self@,
                    p,
                ) == (total as nat, open as nat),
                None => first_over_quota(self@) is None,
            },
    {
        let n = self.games.len();
        let ghost m = self@;
        let ghost es = listing(m);
        let mut worst: Option<(PlayerId, usize, usize)> = None;
        let mut i: usize = 0;
        while i < n
            invariant
                i <= n,
                m == self@,
                n == self.games.spec_entries().len(),
                es == self.games.spec_entries(),
                es == listing(m),
                match worst {
                    Some((p, total, open)) => over_quota(m, p) && counts_of(m, p) == (
                        total as nat,
                        open as nat,
                    ) && forall|j: int|
                        0 <= j < i && over_quota(m, id_of((#[trigger] es[j]).1.setup.creator))
                            ==> p.rank() <= id_of(es[j].1.setup.creator).rank(),
                    None => forall|j: int|
                        0 <= j < i ==> !over_quota(m, id_of((#[trigger] es[j]).1.setup.creator)),
                },
            decreases n - i,
        {
            let p = self.games.value_at(i).creator_id();
            let (total, open) = self.creator_counts(p);
            if total > MAX_LISTINGS_PER_CREATOR || open > MAX_OPEN_PER_CREATOR {
                let lower = match &worst {
                    Some(w) => p.precedes(&w.0),
                    None => true,
                };
                if lower {
                    worst = Some((p, total, open));
                }
            }
            i = i + 1;
        }
        proof {
            assert forall|q: PlayerId| over_quota(m, q) implies exists|j: int|
                0 <= j < es.len() && id_of((#[trigger] es[j]).1.setup.creator) == q by {
                lemma_some_counted(es, made_by(q), opened_by(q));
                let j = choose|j: int|
                    0 <= j < es.len() && (made_by(q)((#[trigger] es[j]).0, es[j].1)
                        || opened_by(q)(es[j].0, es[j].1));
                assert(id_of(es[j].1.setup.creator) == q);
            }
            match worst {
                Some((p, _, _)) => {
                    assert forall|q: PlayerId| #[trigger] over_quota(m, q) implies p.rank()
                        <= q.rank() by {
                        let j = choose|j: int|
                            0 <= j < es.len() && id_of((#[trigger] es[j]).1.setup.creator) == q;
                        assert(over_quota(m, id_of(es[j].1.setup.creator)));
                    }
                    let found = first_over_quota(m)->0;
                    assert(over_quota(m, found) && found.rank() == p.rank());
                    PlayerId::rank_decides(found, p);
                },
                None => {
                    assert forall|q: PlayerId| !over_quota(m, q) by {
                        if over_quota(m, q) {
                            let j = choose|j: int|
                                0 <= j < es.len() && id_of((#[trigger] es[j]).1.setup.creator)
                                    == q;
                            assert(over_quota(m, id_of(es[j].1.setup.creator)));
                        }
                    }
                },
            }
        }
        worst
    }

    pub fn verify(&self, _parent: &LobbyStateV1, _params: &LobbyParametersV1) -> (r: Result<
        (),
        String,
    >)
        ensures
            fault(r) == games_fault(self@),
    {
        let n = self.games.len();
        if n > MAX_LOBBY_ENTRIES {
            let mut text = with_number("lobby holds ", n as u128, " entries, over the ");
            push_decimal(&mut text, MAX_LOBBY_ENTRIES as u128);
            text.push_str(" cap");
            return Err(text);
        }
        match self.check_entries() {
            Ok(()) => {},
            Err(e) => return Err(e),
        }
        match self.find_over_quota() {
            Some((p, total, open)) => Err(quota_text(p, total, open)),
            None => Ok(()),
        }
    }

    fn check_entries(&self) -> (r: Result<(), String>)
        ensures
            fault(r) == first_fault(listing_faults(self@), listing(self@).len()),
    {
        let n = self.games.len();
        let ghost faults = listing_faults(self@);
        let mut i: usize = 0;
        while i < n
            invariant
                i <= n,
                n == self.games.spec_entries().len(),
                self.games.spec_entries() == listing(self@),
                faults == listing_faults(self@),
                first_fault(faults, i as nat) is None,
            decreases n - i,
        {
            let e = self.games.value_at(i);
            let k = self.games.key_at(i);
            let checked = if !e.game_id.same(&k) {
                Err("lobby entry stored under the wrong game id".to_string())
            } else {
                e.verify()
            };
            assert(fault(checked) == faults(i as int));
            match checked {
                Ok(()) => {},
                Err(e) => {
                    proof {
                        lemma_first_fault_stays(faults, (i + 1) as nat, n as nat);
                    }
                    return Err(e);
                },
            }
            i = i + 1;
        }
        Ok(())
    }

    pub fn summarize(&self, _parent: &LobbyStateV1, _params: &LobbyParametersV1) -> (r: Vec<
        (GameId, u64),
    >)
        ensures
            r@ == marks_of::<GameId, LobbyEntry>(listing(self@)),
    {
        assert(views(self.games@) =~= self.games@);
        summarize_map(&self.games)
    }

    pub fn delta(
        &self,
        _parent: &LobbyStateV1,
        _params: &LobbyParametersV1,
        old_summary: &Vec<(GameId, u64)>,
    ) -> (r: Option<Vec<LobbyEntry>>)
        ensures
            match r {
                Some(d) => d@ == missing::<GameId, LobbyEntry>(listing(self@), old_summary@)
                    && d@.len() > 0,
                None => missing::<GameId, LobbyEntry>(listing(self@), old_summary@).len() == 0,
            },
    {
        assert(views(self.games@) =~= self.games@);
        let out = missing_from(&self.games, old_summary);
        assert(held(out@) =~= out@);
        if out.len() == 0 {
            None
        } else {
            Some(out)
        }
    }

    pub fn apply_delta(
        &mut self,
        _parent: &LobbyStateV1,
        _params: &LobbyParametersV1,
        delta: &Option<Vec<LobbyEntry>>,
    ) -> (r: Result<(), String>)
        ensures
            match *delta {
                Some(d) => (final(self)@, fault(r)) == games_after(old(self)@, d@),
                None => r is Ok && final(self)@ == old(self)@,
            },
    {
        match delta {
            Some(d) => self.take_in(d),
            None => Ok(()),
        }
    }

    /// Take in listings, up to the first bad one.
    pub fn take_in(&mut self, incoming: &Vec<LobbyEntry>) -> (r: Result<(), String>)
        ensures
            (final(self)@, fault(r)) == games_after(old(self)@, incoming@),
    {
        let ghost start = self@;
        let ghost all = incoming@;
        let mut i: usize = 0;
        assert(all.take(0) =~= Seq::<LobbyEntry>::empty());
        while i < incoming.len()
            invariant
                i <= incoming@.len(),
                all == incoming@,
                start == old(self)@,
                games_after(start, all.take(i as int)) == (self@, None::<Seq<char>>),
            decreases incoming.len() - i,
        {
            let ghost next = all.take(i + 1);
            assert(next.drop_last() =~= all.take(i as int));
            assert(next.last() == all[i as int]);
            match incoming[i].verify() {
                Ok(()) => {},
                Err(e) => {
                    proof {
                        lemma_games_stop(start, all, i + 1);
                    }
                    return Err(e);
                },
            }
            self.absorb(incoming[i].clone());
            i = i + 1;
        }
        assert(all.take(all.len() as int) =~= all);
        Ok(())
    }
}

/// Where anything is counted, there is something to count.
proof fn lemma_some_counted(
    es: Seq<(GameId, LobbyEntry)>,
    a: spec_fn(GameId, LobbyEntry) -> bool,
    b: spec_fn(GameId, LobbyEntry) -> bool,
)
    requires
        how_many(es, a) > 0 || how_many(es, b) > 0,
    ensures
        exists|j: int|
            0 <= j < es.len() && (a((#[trigger] es[j]).0, es[j].1) || b(es[j].0, es[j].1)),
    decreases es.len(),
{
    let (k, e) = es.last();
    if a(k, e) || b(k, e) {
        assert(a(es[es.len() - 1].0, es[es.len() - 1].1) || b(
            es[es.len() - 1].0,
            es[es.len() - 1].1,
        ));
    } else {
        let front = es.drop_last();
        lemma_some_counted(front, a, b);
        let j = choose|j: int|
            0 <= j < front.len() && (a((#[trigger] front[j]).0, front[j].1) || b(
                front[j].0,
                front[j].1,
            ));
        assert(es[j] == front[j]);
    }
}

/// The games of one creator, or the open ones among them.
pub open spec fn own_games(creator: PlayerId, counted: spec_fn(LobbyEntry) -> bool) -> spec_fn(
    GameId,
    LobbyEntry,
) -> bool {
    |k: GameId, e: LobbyEntry| id_of(e.setup.creator) == creator && counted(e)
}

/// Of a creator's games that each have fewer than `cap` before them there are
/// no more than `cap`.
proof fn lemma_few_of_own(
    m: Map<GameId, LobbyEntry>,
    left: Map<GameId, LobbyEntry>,
    creator: PlayerId,
    counted: spec_fn(LobbyEntry) -> bool,
    cap: nat,
)
    requires
        m.dom().finite(),
        forall|k: GameId|
            #[trigger] left.contains_key(k) ==> m.contains_key(k) && left[k] == m[k],
        forall|k: GameId|
            #[trigger] left.contains_key(k) && own_games(creator, counted)(k, left[k]) ==> how_many(
                listing(m),
                own_before(k, m[k], by_creation(), counted),
            ) < cap,
    ensures
        left.dom().finite(),
        how_many(listing(left), own_games(creator, counted)) <= cap,
{
    let mine = own_games(creator, counted);
    let own = restricted(m, mine);
    let order = by_creation();
    lemma_how_many(m, mine);
    assert(left.dom().subset_of(m.dom()));
    vstd::set_lib::lemma_len_subset(left.dom(), m.dom());
    lemma_how_many(left, mine);
    assert forall|a: GameId, b: GameId|
        #![trigger own.contains_key(a), own.contains_key(b)]
        own.contains_key(a) && own.contains_key(b) && order(a, own[a]) == order(b, own[b]) implies a
        == b by {
        GameId::rank_decides(a, b);
    }
    let first = restricted(own, among_first(own, order, cap));
    crate::order::lemma_few_have_few_ahead(own, order, cap);
    let kept = restricted(left, mine);
    assert forall|k: GameId| kept.dom().contains(k) implies first.dom().contains(k) by {
        let at = order(k, m[k]);
        let ahead_here = crate::order::comes_before(order, at);
        crate::order::lemma_ahead_is_how_many(listing(own), order, at);
        lemma_fewer_satisfy(
            own,
            m,
            ahead_here,
            own_before(k, m[k], order, counted),
        );
        assert(left.contains_key(k) && mine(k, left[k]));
    }
    assert(kept.dom().subset_of(first.dom()));
    vstd::set_lib::lemma_len_subset(kept.dom(), first.dom());
}

/// A lobby that is pruned is within all of its limits: no creator has more
/// games than they may, nor more open ones, and there are not too many in all.
pub proof fn law_limits_hold(m: Map<GameId, LobbyEntry>, creator: PlayerId)
    requires
        m.dom().finite(),
    ensures
        games_pruned(m).dom().finite(),
        listing(games_pruned(m)).len() <= MAX_LOBBY_ENTRIES,
        counts_of(games_pruned(m), creator).0 <= MAX_LISTINGS_PER_CREATOR,
        counts_of(games_pruned(m), creator).1 <= MAX_OPEN_PER_CREATOR,
        first_over_quota(games_pruned(m)) is None,
{
    let own = restricted(m, within_quota(m));
    let left = games_pruned(m);
    assert(own.dom().subset_of(m.dom()));
    vstd::set_lib::lemma_len_subset(own.dom(), m.dom());
    lemma_turns_apart(own);
    crate::order::law_no_more_than_the_cap(own, turns(own), MAX_LOBBY_ENTRIES as nat);
    lemma_counts_hold(m, creator);
    if exists|p: PlayerId| over_quota(left, p) {
        let p = choose|p: PlayerId| over_quota(left, p);
        lemma_counts_hold(m, p);
    }
}

pub proof fn lemma_turns_apart(m: Map<GameId, LobbyEntry>)
    ensures
        placed_apart(m, turns(m)),
{
    let order = turns(m);
    assert forall|a: GameId, b: GameId|
        #![trigger m.contains_key(a), m.contains_key(b)]
        m.contains_key(a) && m.contains_key(b) && order(a, m[a]) == order(b, m[b]) implies a
        == b by {
        GameId::rank_decides(a, b);
    }
}

proof fn lemma_counts_hold(m: Map<GameId, LobbyEntry>, creator: PlayerId)
    requires
        m.dom().finite(),
    ensures
        counts_of(games_pruned(m), creator).0 <= MAX_LISTINGS_PER_CREATOR,
        counts_of(games_pruned(m), creator).1 <= MAX_OPEN_PER_CREATOR,
{
    let left = games_pruned(m);
    assert forall|k: GameId| #[trigger] left.contains_key(k) implies m.contains_key(k) && left[k]
        == m[k] && within_quota(m)(k, m[k]) by {}
    lemma_few_of_own(m, left, creator, any_game(), MAX_LISTINGS_PER_CREATOR as nat);
    lemma_few_of_own(m, left, creator, waits(), MAX_OPEN_PER_CREATOR as nat);
    assert(own_games(creator, any_game()) =~= made_by(creator));
    assert(own_games(creator, waits()) =~= opened_by(creator));
}

/// Pruning a lobby that is pruned changes nothing.
pub proof fn law_pruning_games_twice_is_pruning_once(m: Map<GameId, LobbyEntry>)
    requires
        m.dom().finite(),
    ensures
        games_pruned(games_pruned(m)) == games_pruned(m),
{
    let left = games_pruned(m);
    law_limits_hold(m, arbitrary());
    assert forall|k: GameId| #[trigger] left.contains_key(k) implies m.contains_key(k) && left[k]
        == m[k] && within_quota(left)(k, left[k]) by {
        assert(within_quota(m)(k, m[k]));
        assert forall|j: GameId| #[trigger] left.contains_key(j) implies m.contains_key(j)
            && m[j] == left[j] by {}
        lemma_fewer_satisfy(
            left,
            m,
            own_before(k, left[k], by_creation(), any_game()),
            own_before(k, left[k], by_creation(), any_game()),
        );
        lemma_fewer_satisfy(
            left,
            m,
            own_before(k, left[k], by_creation(), waits()),
            own_before(k, left[k], by_creation(), waits()),
        );
    }
    assert(restricted(left, within_quota(left)) =~= left);
}

/// No game gives way to one that stands further down among its own creator's
/// games, so that whoever lists many games, or holds many keys, cannot drive
/// out those who list few.
pub proof fn law_places_are_shared_out(m: Map<GameId, LobbyEntry>, kept: GameId, dropped: GameId)
    requires
        m.dom().finite(),
        games_pruned(m).contains_key(kept),
        m.contains_key(dropped),
        within_quota(m)(dropped, m[dropped]),
        !games_pruned(m).contains_key(dropped),
    ensures
        ({
            let own = restricted(m, within_quota(m));
            level(own, kept, m[kept]) <= level(own, dropped, m[dropped])
        }),
{
    let own = restricted(m, within_quota(m));
    assert(own.dom().subset_of(m.dom()));
    vstd::set_lib::lemma_len_subset(own.dom(), m.dom());
    crate::order::law_the_foremost_stay(
        own,
        turns(own),
        MAX_LOBBY_ENTRIES as nat,
        kept,
        dropped,
    );
}

} // verus!
