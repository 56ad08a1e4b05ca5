//! The shared history: every finished game, for anyone to play through.
//!
//! It is split into shards. Which shard a game belongs in is worked out from
//! the game itself, so nobody has to keep an index.

use crate::certificate::{cert_fault, color_for, Certified, GameCertificate};
use crate::chess::board::all_valid;
use crate::crypto::base58;
use crate::game::{sig_less, sig_rank};
use crate::identity::{id_of, GameId, PlayerId};
use crate::join::join;
use crate::ledger::{
    all_entries_valid, all_incoming_valid, capped, check_all, cut, entries_after, entries_fault,
    entry_order, entry_over, law_capped_meetings_in_any_order, law_capped_peers_agree,
    law_cut_maps_fit, law_meeting_again_changes_nothing, law_sound_maps_stay_sound,
    lemma_checked_is_sound, lemma_checked_reconcile, lemma_sent_entries_valid, steady, take_in,
    told_apart, Entry,
};
use crate::lists::{all_values, arrange, refs_held, select, selected, values_of};
use crate::order::{ordered, place_of};
use crate::player::newest_first;
use crate::search::{found, is_found, lower, lowercase, needle_of, trim_text};
use crate::sorted_map::{lemma_listing_views, listing, views, Ranked, SortedMap};
use crate::sync::{
    held, law_equal_peers_exchange_nothing, marks_of, missing, missing_from, summarize_map,
};
use crate::text::{
    digits, fault, join3, push_decimal, push_signed, signed_digits, with_number,
};
use vstd::prelude::*;
use vstd::string::*;

verus! {

/// How many games a shard holds.
pub const GAMES_PER_SHARD: usize = 1000;

/// How many shards a day is split into.
pub const BUCKETS: u8 = 16;

/// How long a shard's day is.
pub const SHARD_DURATION_MS: i64 = 86_400_000;

/// The name that all shards share.
pub const ARCHIVE_NAMESPACE: &'static str = "freechess:archive:v1";

/// Which shard it is.
#[derive(Debug, Clone, Copy, PartialEq, Eq, PartialOrd, Ord, Structural)]
pub struct ShardId {
    /// Days since the Unix epoch.
    pub day: i64,
    pub bucket: u8,
}

/// The day that a time is in.
pub open spec fn day_at(unix_ms: i64) -> int {
    unix_ms as int / SHARD_DURATION_MS as int
}

/// The shard that a game belongs in.
pub open spec fn shard_of(finished_at: i64, game_id: GameId) -> ShardId {
    ShardId { day: day_at(finished_at) as i64, bucket: (game_id.0@[0] % BUCKETS) as u8 }
}

/// A shard as it stands in an error.
pub open spec fn shard_name(shard: ShardId) -> Seq<char> {
    "ShardId { day: "@ + signed_digits(shard.day as int) + ", bucket: "@ + digits(
        shard.bucket as nat,
    ) + " }"@
}

fn push_shard(out: &mut String, shard: ShardId)
    ensures
        final(out)@ == old(out)@ + shard_name(shard),
{
    let ghost start = out@;
    out.push_str("ShardId { day: ");
    push_signed(out, shard.day);
    out.push_str(", bucket: ");
    push_decimal(out, shard.bucket as u128);
    out.push_str(" }");
    assert(out@ =~= start + shard_name(shard));
}

impl ShardId {
    /// The shard that a game belongs in.
    pub fn for_game(finished_at: i64, game_id: &GameId) -> (r: ShardId)
        ensures
            r == shard_of(finished_at, *game_id),
    {
        ShardId { day: ShardId::day_of(finished_at), bucket: game_id.0[0] % BUCKETS }
    }

    /// Every shard of a day.
    pub fn buckets_for_day(day: i64) -> (r: Vec<ShardId>)
        ensures
            r@ == Seq::new(BUCKETS as nat, |i: int| ShardId { day, bucket: i as u8 }),
    {
        let mut out: Vec<ShardId> = Vec::new();
        let mut bucket: u8 = 0;
        while bucket < BUCKETS
            invariant
                bucket <= BUCKETS,
                out@ == Seq::new(bucket as nat, |i: int| ShardId { day, bucket: i as u8 }),
            decreases BUCKETS - bucket,
        {
            out.push(ShardId { day, bucket });
            bucket = bucket + 1;
            assert(out@ =~= Seq::new(bucket as nat, |i: int| ShardId { day, bucket: i as u8 }));
        }
        out
    }

    /// The day that a time is in.
    pub fn day_of(unix_ms: i64) -> (r: i64)
        ensures
            r == day_at(unix_ms),
    {
        if unix_ms >= 0 {
            unix_ms / SHARD_DURATION_MS
        } else {
            let back: i64 = -(unix_ms + 1);
            let r: i64 = -1 - back / SHARD_DURATION_MS;
            assert(r == day_at(unix_ms)) by (nonlinear_arith)
                requires
                    unix_ms < 0,
                    back == -(unix_ms + 1),
                    r == -1 - back / SHARD_DURATION_MS,
                    SHARD_DURATION_MS == 86_400_000i64,
            ;
            r
        }
    }
}

/// What a shard is known by.
#[derive(Debug, Clone, PartialEq, Eq)]
pub struct ArchiveParametersV1 {
    pub namespace: String,
    pub shard: ShardId,
}

impl ArchiveParametersV1 {
    pub fn new(shard: ShardId) -> (r: ArchiveParametersV1)
        ensures
            r.namespace@ == ARCHIVE_NAMESPACE@,
            r.shard == shard,
    {
        ArchiveParametersV1 { namespace: ARCHIVE_NAMESPACE.to_string(), shard }
    }
}

/// What is wrong with a game that is filed in a shard.
impl Entry<ShardId> for GameCertificate {
    type Key = GameId;

    open spec fn key_of(v: Certified) -> GameId {
        v.record.game_id
    }

    fn read_key(&self) -> (r: GameId) {
        self.game_id
    }

    open spec fn replaces(a: Certified, b: Certified) -> bool {
        sig_rank(a.white_signature) < sig_rank(b.white_signature)
    }

    proof fn replacing_orders(a: Certified, b: Certified, c: Certified) {
    }

    fn takes_over(&self, other: &Self) -> (r: bool) {
        sig_less(&self.white_signature, &other.white_signature)
    }

    open spec fn valid(v: Certified) -> bool {
        all_valid(v.record.moves)
    }

    open spec fn entry_fault(v: Certified, place: ShardId) -> Option<Seq<char>> {
        if cert_fault(v) is Some {
            cert_fault(v)
        } else if shard_of(v.record.finished_at, v.record.game_id) != place {
            Some(
                "certificate for "@ + base58(v.record.game_id.0@)
                    + " does not belong in this shard"@,
            )
        } else {
            None
        }
    }

    fn check_entry(&self, place: &ShardId) -> (r: Result<(), String>) {
        match self.verify() {
            Ok(()) => {},
            Err(e) => return Err(e),
        }
        if ShardId::for_game(self.finished_at, &self.game_id) != *place {
            let name = self.game_id.to_base58();
            return Err(
                join3("certificate for ", name.as_str(), " does not belong in this shard"),
            );
        }
        Ok(())
    }

    open spec fn filed_fault(k: GameId, v: Certified, place: ShardId) -> Option<Seq<char>> {
        let expected = shard_of(v.record.finished_at, v.record.game_id);
        if v.record.game_id != k {
            Some("certificate stored under the wrong game id"@)
        } else if cert_fault(v) is Some {
            cert_fault(v)
        } else if expected != place {
            Some(
                "game "@ + base58(k.0@) + " belongs in shard "@ + shard_name(expected) + ", not "@
                    + shard_name(place),
            )
        } else {
            None
        }
    }

    fn check_filed(&self, k: &GameId, place: &ShardId) -> (r: Result<(), String>) {
        if !self.game_id.same(k) {
            return Err("certificate stored under the wrong game id".to_string());
        }
        match self.verify() {
            Ok(()) => {},
            Err(e) => return Err(e),
        }
        let expected = ShardId::for_game(self.finished_at, &self.game_id);
        if expected != *place {
            let name = k.to_base58();
            let mut text = join3("game ", name.as_str(), " belongs in shard ");
            push_shard(&mut text, expected);
            text.push_str(", not ");
            push_shard(&mut text, *place);
            return Err(text);
        }
        Ok(())
    }

    open spec fn order_in(k: GameId, v: Certified) -> (int, int, nat) {
        (0, -v.record.finished_at, k.rank())
    }

    fn read_order(&self, k: &GameId) -> (r: (i128, i128, GameId)) {
        (0, -(self.finished_at as i128), *k)
    }

    proof fn filing_checks(k: GameId, v: Certified, place: ShardId) {
    }

    proof fn places_differ(k: GameId, v: Certified, l: GameId, w: Certified) {
        GameId::rank_decides(k, l);
    }
}

fn news_key(c: &GameCertificate) -> (k: (i128, i128, GameId))
    ensures
        place_of(k) == newest_first()(c@),
{
    (0, -(c.finished_at as i128), c.game_id)
}

/// The games that a player took part in.
pub open spec fn played_by(player: PlayerId) -> spec_fn(Certified) -> bool {
    |c: Certified| color_for(c, player) is Some
}

/// Whether a game is found.
pub open spec fn cert_found(c: Certified, needle: Seq<char>) -> bool {
    found(
        lowercase(c.record.white_nickname),
        lowercase(c.record.black_nickname),
        lowercase(base58(c.record.game_id.0@)),
        needle,
    )
}

pub open spec fn certs_with(needle: Seq<char>) -> spec_fn(Certified) -> bool {
    |c: Certified| cert_found(c, needle)
}

/// The games, the last to finish first.
pub open spec fn recent_list(games: Map<GameId, Certified>) -> Seq<Certified> {
    ordered(values_of(games), newest_first())
}

/// The games that a player took part in, the last to finish first.
pub open spec fn own_list(games: Map<GameId, Certified>, player: PlayerId) -> Seq<Certified> {
    ordered(selected(values_of(games), played_by(player)), newest_first())
}

/// The games that a text finds, the last to finish first. An empty one finds
/// none.
pub open spec fn found_list(games: Map<GameId, Certified>, needle: Seq<char>) -> Seq<Certified> {
    if needle.len() == 0 {
        Seq::empty()
    } else {
        ordered(selected(values_of(games), certs_with(needle)), newest_first())
    }
}

fn cert_matches(c: &GameCertificate, needle: &str) -> (r: bool)
    ensures
        r == cert_found(c@, needle@),
{
    let white = lower(c.white_nickname.as_str());
    let black = lower(c.black_nickname.as_str());
    let name = c.game_id.to_base58();
    let id = lower(name.as_str());
    is_found(white.as_str(), black.as_str(), id.as_str(), needle)
}

/// The games of a shard.
#[derive(Debug, PartialEq, Eq, Clone)]
pub struct ArchivedGamesV1 {
    pub games: SortedMap<GameId, GameCertificate>,
}

impl View for ArchivedGamesV1 {
    type V = Map<GameId, Certified>;

    open spec fn view(&self) -> Map<GameId, Certified> {
        views(self.games@)
    }
}

impl Default for ArchivedGamesV1 {
    fn default() -> (r: Self)
        ensures
            r@ == Map::<GameId, Certified>::empty(),
    {
        let r = ArchivedGamesV1 { games: SortedMap::new() };
        assert(r@ =~= Map::<GameId, Certified>::empty());
        r
    }
}

/// What is wrong with the games of a shard.
pub open spec fn shard_fault(games: Map<GameId, Certified>, shard: ShardId) -> Option<Seq<char>> {
    if listing(games).len() > GAMES_PER_SHARD {
        Some(
            "shard holds "@ + digits(listing(games).len()) + " games, over the "@ + digits(
                GAMES_PER_SHARD as nat,
            ) + " cap"@,
        )
    } else {
        entries_fault::<ShardId, GameCertificate>(games, shard)
    }
}

/// What is sent to one who told of a copy of a shard.
pub open spec fn shard_change(games: Map<GameId, Certified>, told: Seq<(GameId, u64)>) -> Option<
    Seq<Certified>,
> {
    let sent = missing::<GameId, GameCertificate>(listing(games), told);
    if sent.len() == 0 {
        None
    } else {
        Some(sent)
    }
}

impl ArchivedGamesV1 {
    pub fn len(&self) -> (r: usize)
        ensures
            r == listing(self@).len(),
            self@.dom().finite(),
    {
        let n = self.games.len();
        proof {
            lemma_listing_views(self.games@);
        }
        n
    }

    pub fn is_empty(&self) -> (r: bool)
        ensures
            r == (listing(self@).len() == 0),
    {
        self.len() == 0
    }

    pub fn get(&self, id: &GameId) -> (r: Option<&GameCertificate>)
        ensures
            match r {
                Some(c) => self@.contains_key(*id) && self@[*id] == c@,
                None => !self@.contains_key(*id),
            },
    {
        self.games.get(id)
    }

    /// The games, the last to finish first.
    pub fn recent(&self) -> (r: Vec<&GameCertificate>)
        ensures
            refs_held(r@) == ordered(values_of(self@), newest_first()),
            refs_held(r@) == recent_list(self@),
    {
        arrange(all_values(&self.games), news_key, Ghost(newest_first()))
    }

    /// The games that a player took part in, the last to finish first.
    pub fn games_of(&self, player: PlayerId) -> (r: Vec<&GameCertificate>)
        ensures
            refs_held(r@) == ordered(selected(values_of(self@), played_by(player)), newest_first()),
            refs_held(r@) == own_list(self@, player),
    {
        let took_part = |c: &GameCertificate| -> (b: bool)
            ensures
                b == played_by(player)(c@),
        {
            c.involves(player)
        };
        arrange(
            select(&self.games, took_part, Ghost(played_by(player))),
            news_key,
            Ghost(newest_first()),
        )
    }

    /// The games that a query finds, the last to finish first. A blank query
    /// finds none.
    pub fn search(&self, query: &str) -> (r: Vec<&GameCertificate>)
        ensures
            refs_held(r@) == (if needle_of(query@).len() == 0 {
                Seq::empty()
            } else {
                ordered(
                    selected(values_of(self@), certs_with(needle_of(query@))),
                    newest_first(),
                )
            }),
            refs_held(r@) == found_list(self@, needle_of(query@)),
    {
        let trimmed = trim_text(query);
        let needle = lower(trimmed.as_str());
        self.with_needle(needle.as_str())
    }

    /// The games that have a text in their names, the last to finish first. An
    /// empty text finds none.
    pub fn with_needle(&self, needle: &str) -> (r: Vec<&GameCertificate>)
        ensures
            refs_held(r@) == (if needle@.len() == 0 {
                Seq::empty()
            } else {
                ordered(selected(values_of(self@), certs_with(needle@)), newest_first())
            }),
            refs_held(r@) == found_list(self@, needle@),
    {
        if needle.unicode_len() == 0 {
            let none: Vec<&GameCertificate> = Vec::new();
            assert(refs_held(none@) =~= Seq::<Certified>::empty());
            return none;
        }
        let matching = |c: &GameCertificate| -> (b: bool)
            ensures
                b == certs_with(needle@)(c@),
        {
            cert_matches(c, needle)
        };
        arrange(
            select(&self.games, matching, Ghost(certs_with(needle@))),
            news_key,
            Ghost(newest_first()),
        )
    }

    /// Keep the games that finished last.
    pub fn enforce_cap(&mut self)
        ensures
            final(self)@ == capped::<ShardId, GameCertificate>(old(self)@, GAMES_PER_SHARD as nat),
            all_entries_valid::<ShardId, GameCertificate>(old(self)@) ==> all_entries_valid::<
                ShardId,
                GameCertificate,
            >(final(self)@),
    {
        cut::<ShardId, GameCertificate>(&mut self.games, GAMES_PER_SHARD);
    }

    pub fn verify(&self, _parent: &ArchiveStateV1, params: &ArchiveParametersV1) -> (r: Result<
        (),
        String,
    >)
        requires
            all_entries_valid::<ShardId, GameCertificate>(self@),
        ensures
            fault(r) == shard_fault(self@, params.shard),
    {
        let n = self.len();
        if n > GAMES_PER_SHARD {
            let mut text = with_number("shard holds ", n as u128, " games, over the ");
            push_decimal(&mut text, GAMES_PER_SHARD as u128);
            text.push_str(" cap");
            return Err(text);
        }
        check_all::<ShardId, GameCertificate>(&self.games, &params.shard)
    }

    pub fn summarize(&self, _parent: &ArchiveStateV1, _params: &ArchiveParametersV1) -> (r: Vec<
        (GameId, u64),
    >)
        ensures
            r@ == marks_of::<GameId, GameCertificate>(listing(self@)),
    {
        summarize_map(&self.games)
    }

    pub fn delta(
        &self,
        _parent: &ArchiveStateV1,
        _params: &ArchiveParametersV1,
        old_summary: &Vec<(GameId, u64)>,
    ) -> (r: Option<Vec<GameCertificate>>)
        ensures
            match r {
                Some(d) => shard_change(self@, old_summary@) == Some(held(d@)),
                None => shard_change(self@, old_summary@) is None,
            },
    {
        let out = missing_from(&self.games, old_summary);
        assert(held(out@).len() == out@.len());
        if out.len() == 0 {
            None
        } else {
            Some(out)
        }
    }

    pub fn apply_delta(
        &mut self,
        _parent: &ArchiveStateV1,
        params: &ArchiveParametersV1,
        delta: &Option<Vec<GameCertificate>>,
    ) -> (r: Result<(), String>)
        requires
            *delta matches Some(d) ==> all_incoming_valid::<ShardId, GameCertificate>(held(d@)),
        ensures
            match *delta {
                Some(d) => (final(self)@, fault(r)) == entries_after::<ShardId, GameCertificate>(
                    old(self)@,
                    held(d@),
                    params.shard,
                ),
                None => r is Ok && final(self)@ == old(self)@,
            },
            all_entries_valid::<ShardId, GameCertificate>(old(self)@) ==> all_entries_valid::<
                ShardId,
                GameCertificate,
            >(final(self)@),
    {
        match delta {
            Some(d) => take_in::<ShardId, GameCertificate>(&mut self.games, &params.shard, d),
            None => Ok(()),
        }
    }
}

/// One shard of the shared history.
#[derive(Debug, PartialEq, Eq, Clone)]
pub struct ArchiveStateV1 {
    pub games: ArchivedGamesV1,
}

impl View for ArchiveStateV1 {
    type V = Map<GameId, Certified>;

    open spec fn view(&self) -> Map<GameId, Certified> {
        self.games@
    }
}

impl Default for ArchiveStateV1 {
    fn default() -> (r: Self)
        ensures
            r@ == Map::<GameId, Certified>::empty(),
    {
        ArchiveStateV1 { games: ArchivedGamesV1::default() }
    }
}

/// What a peer tells of its copy of a shard.
#[derive(Debug, PartialEq, Eq)]
pub struct ArchiveStateV1Summary {
    pub games: Vec<(GameId, u64)>,
}

/// An update of a shard.
#[derive(Debug, Clone, PartialEq, Eq)]
pub struct ArchiveStateV1Delta {
    pub games: Option<Vec<GameCertificate>>,
}

impl View for ArchiveStateV1Delta {
    type V = Option<Seq<Certified>>;

    open spec fn view(&self) -> Option<Seq<Certified>> {
        match self.games {
            Some(v) => Some(held(v@)),
            None => None,
        }
    }
}

impl Default for ArchiveStateV1Delta {
    fn default() -> (r: Self)
        ensures
            r@ is None,
    {
        ArchiveStateV1Delta { games: None }
    }
}

/// What is left of a shard.
pub open spec fn shard_pruned(games: Map<GameId, Certified>) -> Map<GameId, Certified> {
    capped::<ShardId, GameCertificate>(games, GAMES_PER_SHARD as nat)
}

/// A shard once an update has come in, and what was wrong with it.
pub open spec fn shard_after(
    games: Map<GameId, Certified>,
    d: Option<Seq<Certified>>,
    shard: ShardId,
) -> (Map<GameId, Certified>, Option<Seq<char>>) {
    let (next, e) = match d {
        Some(incoming) => entries_after::<ShardId, GameCertificate>(games, incoming, shard),
        None => (games, None),
    };
    if e is Some {
        (next, e)
    } else {
        (shard_pruned(next), None)
    }
}

/// A shard once it has taken in what another copy holds.
pub open spec fn shard_merged(
    games: Map<GameId, Certified>,
    other: Map<GameId, Certified>,
    shard: ShardId,
) -> (Map<GameId, Certified>, Option<Seq<char>>) {
    let d = shard_change(other, marks_of::<GameId, GameCertificate>(listing(games)));
    if d is None {
        (games, None)
    } else {
        shard_after(games, d, shard)
    }
}

impl ArchiveStateV1 {
    pub fn prune(&mut self, _params: &ArchiveParametersV1) -> (r: Result<(), String>)
        ensures
            r is Ok,
            final(self)@ == shard_pruned(old(self)@),
            all_entries_valid::<ShardId, GameCertificate>(old(self)@) ==> all_entries_valid::<
                ShardId,
                GameCertificate,
            >(final(self)@),
    {
        self.games.enforce_cap();
        Ok(())
    }

    pub fn verify(&self, parent: &ArchiveStateV1, params: &ArchiveParametersV1) -> (r: Result<
        (),
        String,
    >)
        requires
            all_entries_valid::<ShardId, GameCertificate>(self@),
        ensures
            fault(r) == shard_fault(self@, params.shard),
    {
        self.games.verify(parent, params)
    }

    /// What to tell of this copy.
    pub fn summarize(&self, parent: &ArchiveStateV1, params: &ArchiveParametersV1) -> (r:
        ArchiveStateV1Summary)
        ensures
            r.games@ == marks_of::<GameId, GameCertificate>(listing(self@)),
    {
        ArchiveStateV1Summary { games: self.games.summarize(parent, params) }
    }

    /// What to send to a peer that told of its copy.
    pub fn delta(
        &self,
        parent: &ArchiveStateV1,
        params: &ArchiveParametersV1,
        old_summary: &ArchiveStateV1Summary,
    ) -> (r: Option<ArchiveStateV1Delta>)
        ensures
            match r {
                Some(d) => d@ is Some && shard_change(self@, old_summary.games@) == d@,
                None => shard_change(self@, old_summary.games@) is None,
            },
    {
        match self.games.delta(parent, params, &old_summary.games) {
            Some(games) => Some(ArchiveStateV1Delta { games: Some(games) }),
            None => None,
        }
    }

    /// Take in an update.
    pub fn apply_delta(
        &mut self,
        parent: &ArchiveStateV1,
        params: &ArchiveParametersV1,
        delta: &Option<ArchiveStateV1Delta>,
    ) -> (r: Result<(), String>)
        requires
            *delta matches Some(d) ==> (d@ matches Some(s) ==> all_incoming_valid::<
                ShardId,
                GameCertificate,
            >(s)),
        ensures
            match *delta {
                Some(d) => (final(self)@, fault(r)) == shard_after(old(self)@, d@, params.shard),
                None => r is Ok && final(self)@ == old(self)@,
            },
            all_entries_valid::<ShardId, GameCertificate>(old(self)@) ==> all_entries_valid::<
                ShardId,
                GameCertificate,
            >(final(self)@),
    {
        match delta {
            Some(d) => {
                match self.games.apply_delta(parent, params, &d.games) {
                    Ok(()) => {},
                    Err(e) => return Err(e),
                }
                self.prune(params)
            },
            None => Ok(()),
        }
    }

    /// Take in what another copy holds.
    pub fn merge(
        &mut self,
        parent: &ArchiveStateV1,
        params: &ArchiveParametersV1,
        other: &ArchiveStateV1,
    ) -> (r: Result<(), String>)
        requires
            all_entries_valid::<ShardId, GameCertificate>(other@),
        ensures
            (final(self)@, fault(r)) == shard_merged(old(self)@, other@, params.shard),
            all_entries_valid::<ShardId, GameCertificate>(old(self)@) ==> all_entries_valid::<
                ShardId,
                GameCertificate,
            >(final(self)@),
    {
        let told = self.summarize(parent, params);
        let delta = other.delta(parent, params, &told);
        let _ = other.games.len();
        proof {
            lemma_sent_entries_valid::<ShardId, GameCertificate>(other@, told.games@);
        }
        self.apply_delta(parent, params, &delta)
    }
}

/// A game's shard is among those of the day it finished on, and that day
/// holds the time it finished at.
pub proof fn law_games_are_found_by_day(finished_at: i64, game_id: GameId)
    ensures
        shard_of(finished_at, game_id).day == day_at(finished_at),
        shard_of(finished_at, game_id).bucket < BUCKETS,
        day_at(finished_at) * SHARD_DURATION_MS <= finished_at < (day_at(finished_at) + 1)
            * SHARD_DURATION_MS,
{
    let day = day_at(finished_at);
    assert(day * 86_400_000 <= finished_at < (day + 1) * 86_400_000) by (nonlinear_arith)
        requires
            day == finished_at as int / 86_400_000,
    ;
    assert(i64::MIN <= day <= i64::MAX);
}

/// A shard that is pruned keeps no more games than it may, and those that
/// finished last.
pub proof fn law_shards_keep_the_newest(
    games: Map<GameId, Certified>,
    kept: GameId,
    dropped: GameId,
)
    requires
        games.dom().finite(),
    ensures
        listing(shard_pruned(games)).len() <= GAMES_PER_SHARD,
        shard_pruned(shard_pruned(games)) == shard_pruned(games),
        shard_pruned(games).contains_key(kept) && games.contains_key(dropped)
            && !shard_pruned(games).contains_key(dropped) ==> games[kept].record.finished_at
            >= games[dropped].record.finished_at,
{
    let order = entry_order::<ShardId, GameCertificate>();
    assert forall|a: GameId, b: GameId|
        #![trigger games.contains_key(a), games.contains_key(b)]
        games.contains_key(a) && games.contains_key(b) && order(a, games[a]) == order(
            b,
            games[b],
        ) implies a == b by {
        GameId::rank_decides(a, b);
    }
    crate::order::law_no_more_than_the_cap(games, order, GAMES_PER_SHARD as nat);
    if shard_pruned(games).contains_key(kept) && games.contains_key(dropped) && !shard_pruned(
        games,
    ).contains_key(dropped) {
        crate::order::law_the_foremost_stay(games, order, GAMES_PER_SHARD as nat, kept, dropped);
    }
}

/// A copy that merges one like itself stays as it is.
pub proof fn law_merging_a_like_shard_changes_nothing(
    games: Map<GameId, Certified>,
    shard: ShardId,
)
    requires
        games.dom().finite(),
    ensures
        shard_merged(games, games, shard) == (games, None::<Seq<char>>),
{
    law_equal_peers_exchange_nothing::<GameId, GameCertificate>(games);
}

/// A shard that passes the check passes it still once an update has come in.
pub proof fn law_updates_keep_shards_valid(
    games: Map<GameId, Certified>,
    d: Option<Seq<Certified>>,
    shard: ShardId,
)
    requires
        games.dom().finite(),
        shard_fault(games, shard) is None,
        shard_after(games, d, shard).1 is None,
    ensures
        shard_fault(shard_after(games, d, shard).0, shard) is None,
{
    lemma_checked_is_sound::<ShardId, GameCertificate>(games, shard);
    let next = match d {
        Some(incoming) => {
            law_sound_maps_stay_sound::<ShardId, GameCertificate>(games, incoming, shard);
            entries_after::<ShardId, GameCertificate>(games, incoming, shard).0
        },
        None => games,
    };
    law_cut_maps_fit::<ShardId, GameCertificate>(next, shard, GAMES_PER_SHARD as nat);
    lemma_checked_is_sound::<ShardId, GameCertificate>(shard_pruned(next), shard);
}

/// Two copies of a shard that merge each other are the same: each holds the
/// games that finished last of all that either held.
pub proof fn law_shards_agree(
    a: Map<GameId, Certified>,
    b: Map<GameId, Certified>,
    shard: ShardId,
)
    requires
        a.dom().finite(),
        b.dom().finite(),
        shard_fault(a, shard) is None,
        shard_fault(b, shard) is None,
        told_apart::<ShardId, GameCertificate>(a, b),
    ensures
        shard_merged(a, b, shard) == (
            shard_pruned(join(a, b, entry_over::<ShardId, GameCertificate>())),
            None::<Seq<char>>,
        ),
        shard_merged(b, a, shard) == shard_merged(a, b, shard),
{
    lemma_checked_reconcile::<ShardId, GameCertificate>(a, b, shard);
    law_capped_peers_agree::<ShardId, GameCertificate>(a, b, shard, GAMES_PER_SHARD as nat);
}

/// Three copies of a shard hold the same once they have merged one another,
/// whichever two merge first. Left out are two certificates of one game where
/// the one that stays finished before the other, and there is no room for all.
pub proof fn law_shards_merge_in_any_order(
    a: Map<GameId, Certified>,
    b: Map<GameId, Certified>,
    c: Map<GameId, Certified>,
    shard: ShardId,
)
    requires
        a.dom().finite() && b.dom().finite() && c.dom().finite(),
        shard_fault(a, shard) is None,
        shard_fault(b, shard) is None,
        shard_fault(c, shard) is None,
        told_apart::<ShardId, GameCertificate>(a, b),
        told_apart::<ShardId, GameCertificate>(b, c),
        told_apart::<ShardId, GameCertificate>(a, c),
        steady::<ShardId, GameCertificate>(a, b, c, GAMES_PER_SHARD as nat),
    ensures
        shard_merged(shard_merged(a, b, shard).0, c, shard).1 is None,
        shard_merged(shard_merged(a, b, shard).0, c, shard) == shard_merged(
            a,
            shard_merged(b, c, shard).0,
            shard,
        ),
{
    lemma_checked_reconcile::<ShardId, GameCertificate>(a, b, shard);
    lemma_checked_reconcile::<ShardId, GameCertificate>(b, c, shard);
    lemma_checked_reconcile::<ShardId, GameCertificate>(a, c, shard);
    law_capped_meetings_in_any_order::<ShardId, GameCertificate>(
        a,
        b,
        c,
        shard,
        GAMES_PER_SHARD as nat,
    );
}

/// A copy of a shard that was merged already adds nothing, with the same left
/// out.
pub proof fn law_merging_a_shard_again_changes_nothing(
    a: Map<GameId, Certified>,
    b: Map<GameId, Certified>,
    shard: ShardId,
)
    requires
        a.dom().finite() && b.dom().finite(),
        shard_fault(a, shard) is None,
        shard_fault(b, shard) is None,
        told_apart::<ShardId, GameCertificate>(a, b),
        told_apart::<ShardId, GameCertificate>(b, b),
        steady::<ShardId, GameCertificate>(a, b, b, GAMES_PER_SHARD as nat),
    ensures
        shard_merged(shard_merged(a, b, shard).0, b, shard) == shard_merged(a, b, shard),
{
    lemma_checked_reconcile::<ShardId, GameCertificate>(a, b, shard);
    lemma_checked_reconcile::<ShardId, GameCertificate>(b, b, shard);
    law_meeting_again_changes_nothing::<ShardId, GameCertificate>(
        a,
        b,
        shard,
        GAMES_PER_SHARD as nat,
    );
}

/// A day's games are kept in sixteen parts, by the first byte of their names.
pub proof fn law_shards_go_by_day_and_name(finished_at: i64, game_id: GameId)
    ensures
        shard_of(finished_at, game_id).bucket == game_id.0@[0] % 16,
        shard_of(finished_at, game_id).day * 86_400_000 <= finished_at < (shard_of(
            finished_at,
            game_id,
        ).day + 1) * 86_400_000,
{
    law_games_are_found_by_day(finished_at, game_id);
}

/// A game is filed in a shard exactly where its certificate holds and it finished
/// on the shard's day under a name of the shard's part.
pub proof fn law_sound_filings(c: Certified, k: GameId, shard: ShardId)
    ensures
        <GameCertificate as Entry<ShardId>>::filed_fault(k, c, shard) is None <==> {
            &&& c.record.game_id == k
            &&& cert_fault(c) is None
            &&& shard_of(c.record.finished_at, c.record.game_id) == shard
        },
        <GameCertificate as Entry<ShardId>>::entry_fault(c, shard) is None <==> {
            &&& cert_fault(c) is None
            &&& shard_of(c.record.finished_at, c.record.game_id) == shard
        },
{
}

/// A player's games in a shard are all in which they had either side, the last to
/// finish first.
pub proof fn law_players_find_their_games(
    games: Map<GameId, Certified>,
    player: PlayerId,
    c: Certified,
)
    requires
        games.dom().finite(),
    ensures
        ({
            let list = own_list(games, player);
            &&& list.contains(c) <==> (player == id_of(c.record.white) || player == id_of(
                c.record.black,
            )) && exists|k: GameId| #[trigger] games.contains_key(k) && games[k] == c
            &&& forall|i: int, j: int|
                0 <= i < j < list.len() ==> (#[trigger] list[i]).record.finished_at >= (
                #[trigger] list[j]).record.finished_at
        }),
{
    let list = ordered(selected(values_of(games), played_by(player)), newest_first());
    crate::lists::law_lists_hold_what_was_asked_for(games, played_by(player), newest_first(), c);
    assert forall|i: int, j: int| 0 <= i < j < list.len() implies (
    #[trigger] list[i]).record.finished_at >= (#[trigger] list[j]).record.finished_at by {
        assert(!crate::order::before(newest_first()(list[j]), newest_first()(list[i])));
    }
}

/// All of a shard's games, the last to finish first.
pub proof fn law_recent_games_come_first(games: Map<GameId, Certified>, c: Certified)
    requires
        games.dom().finite(),
    ensures
        ({
            let list = recent_list(games);
            &&& list.contains(c) <==> exists|k: GameId| #[trigger]
                games.contains_key(k) && games[k] == c
            &&& list.len() == games.dom().len()
            &&& forall|i: int, j: int|
                0 <= i < j < list.len() ==> (#[trigger] list[i]).record.finished_at >= (
                #[trigger] list[j]).record.finished_at
        }),
{
    let list = ordered(values_of(games), newest_first());
    crate::lists::law_lists_of_all(games, newest_first(), c);
    assert forall|i: int, j: int| 0 <= i < j < list.len() implies (
    #[trigger] list[i]).record.finished_at >= (#[trigger] list[j]).record.finished_at by {
        assert(!crate::order::before(newest_first()(list[j]), newest_first()(list[i])));
    }
}

/// A search of a shard finds every game in which what is looked for is any part
/// of a player's name, in lower case, or the beginning of the game's own.
pub proof fn law_searching_a_shard_finds_any_part_of_a_name(
    games: Map<GameId, Certified>,
    k: GameId,
    a: Seq<char>,
    needle: Seq<char>,
    b: Seq<char>,
)
    requires
        games.dom().finite(),
        games.contains_key(k),
        lowercase(games[k].record.white_nickname) == a + needle + b || lowercase(
            games[k].record.black_nickname,
        ) == a + needle + b || lowercase(base58(games[k].record.game_id.0@)) == needle + b,
    ensures
        ordered(selected(values_of(games), certs_with(needle)), newest_first()).contains(games[k]),
        needle.len() > 0 ==> found_list(games, needle).contains(games[k]),
        needle.len() == 0 ==> found_list(games, needle).len() == 0,
{
    let d = games[k].record;
    let (white, black) = (lowercase(d.white_nickname), lowercase(d.black_nickname));
    let id = lowercase(base58(d.game_id.0@));
    crate::search::law_a_game_is_found_by_any_part_of_a_name(a, needle, b, white, id);
    crate::search::law_a_game_is_found_by_any_part_of_a_name(a, needle, b, black, id);
    crate::search::law_a_game_is_found_by_its_beginning(white, black, needle, b);
    crate::lists::law_lists_hold_what_was_asked_for(
        games,
        certs_with(needle),
        newest_first(),
        games[k],
    );
}

/// What a search of a shard finds is in it and has what was looked for, the last
/// to finish first.
pub proof fn law_searching_a_shard_finds_nothing_else(
    games: Map<GameId, Certified>,
    c: Certified,
    needle: Seq<char>,
)
    requires
        games.dom().finite(),
    ensures
        ({
            let list = found_list(games, needle);
            &&& list.contains(c) ==> found(
                lowercase(c.record.white_nickname),
                lowercase(c.record.black_nickname),
                lowercase(base58(c.record.game_id.0@)),
                needle,
            ) && exists|k: GameId| #[trigger] games.contains_key(k) && games[k] == c
            &&& forall|i: int, j: int|
                0 <= i < j < list.len() ==> (#[trigger] list[i]).record.finished_at >= (
                #[trigger] list[j]).record.finished_at
        }),
{
    let list = ordered(selected(values_of(games), certs_with(needle)), newest_first());
    crate::lists::law_lists_hold_what_was_asked_for(games, certs_with(needle), newest_first(), c);
    assert forall|i: int, j: int| 0 <= i < j < list.len() implies (
    #[trigger] list[i]).record.finished_at >= (#[trigger] list[j]).record.finished_at by {
        assert(!crate::order::before(newest_first()(list[j]), newest_first()(list[i])));
    }
}

/// A shard passes if it holds at most a thousand games, each sound, filed under
/// its name and of the shard's day and bucket.
pub proof fn law_sound_shards(games: Map<GameId, Certified>, shard: ShardId)
    requires
        games.dom().finite(),
    ensures
        shard_fault(games, shard) is None <==> {
            &&& listing(games).len() <= 1000
            &&& forall|k: GameId| #[trigger]
                games.contains_key(k) ==> games[k].record.game_id == k && cert_fault(games[k])
                    is None && shard_of(games[k].record.finished_at, k) == shard
        },
{
    crate::ledger::lemma_checked_is_sound::<ShardId, GameCertificate>(games, shard);
    if crate::ledger::sound_map::<ShardId, GameCertificate>(games, shard) {
        assert forall|k: GameId| #[trigger] games.contains_key(k) implies games[k].record.game_id
            == k && cert_fault(games[k]) is None && shard_of(games[k].record.finished_at, k)
            == shard by {
            assert(<GameCertificate as Entry<ShardId>>::key_of(games[k]) == k);
        }
    }
}

/// A shard drops nothing while it has at most a thousand games.
pub proof fn law_shards_have_room(games: Map<GameId, Certified>, shard: ShardId)
    ensures
        listing(games).len() <= 1000 ==> shard_pruned(games) == games && shard_after(
            games,
            None,
            shard,
        ) == (games, None::<Seq<char>>),
{
}

} // verus!
