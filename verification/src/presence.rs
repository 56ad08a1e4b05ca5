//! Who is around: online, away, or offline.
//!
//! A player who is there keeps signing a heartbeat. One who stops fades from
//! online to away to offline as time passes, with nothing to be written.

use crate::bytes::{le_i64, push_all, push_i64};
use crate::crypto::{Signature, SigningKey, VerifyingKey};
use crate::game::setup::{nickname_fault, MAX_NICKNAME_LEN};
use crate::game::{domain, domain_bytes, push_text, sig_less, sig_rank, text_field};
use crate::identity::{
    digest_of, id_of, sig_fault, signature_digest, verify_sig, GameId, PlayerId,
};
use crate::ledger::{
    capped, check_all, cut, entries_after, entries_fault, entry_order, take_in, Entry,
};
use crate::lists::{arrange, choose_from, refs_held, select, selected, values_of};
use crate::lobby::{LobbyParametersV1, LobbyStateV1};
use crate::order::{ordered, place_of};
use crate::sorted_map::{listing, views, Ranked, SortedMap};
use crate::sync::{held, marks_of, missing, missing_from, summarize_map, Record};
use crate::text::{digits, fault, push_decimal, with_number};
use vstd::prelude::*;
use vstd::string::*;
use vstd::utf8::encode_utf8;

verus! {

/// How old a heartbeat may be for its player to count as online.
pub const ONLINE_WINDOW_MS: i64 = 90_000;

/// How old a heartbeat may be for its player not to count as offline.
pub const AWAY_WINDOW_MS: i64 = 600_000;

/// How often a client signs a heartbeat anew.
pub const HEARTBEAT_INTERVAL_MS: i64 = 30_000;

/// How many players are kept track of.
pub const MAX_PRESENCE_ENTRIES: usize = 500;

#[derive(Debug, Clone, Copy, PartialEq, Eq, Structural)]
pub enum PresenceStatus {
    Online,
    Away,
    Offline,
}

pub open spec fn status_label(status: PresenceStatus) -> Seq<char> {
    match status {
        PresenceStatus::Online => "online"@,
        PresenceStatus::Away => "away"@,
        PresenceStatus::Offline => "offline"@,
    }
}

pub open spec fn status_tag(status: PresenceStatus) -> u8 {
    match status {
        PresenceStatus::Online => 0,
        PresenceStatus::Away => 1,
        PresenceStatus::Offline => 2,
    }
}

impl PresenceStatus {
    pub fn label(self) -> (r: &'static str)
        ensures
            r@ == status_label(self),
    {
        match self {
            PresenceStatus::Online => "online",
            PresenceStatus::Away => "away",
            PresenceStatus::Offline => "offline",
        }
    }

    fn tag(self) -> (r: u8)
        ensures
            r == status_tag(self),
    {
        match self {
            PresenceStatus::Online => 0,
            PresenceStatus::Away => 1,
            PresenceStatus::Offline => 2,
        }
    }
}

/// A heartbeat.
#[derive(Debug, PartialEq, Eq)]
pub struct SignedPresence {
    pub player: VerifyingKey,
    pub nickname: String,
    pub claimed: PresenceStatus,
    /// The game that the player is watching.
    pub watching: Option<GameId>,
    pub updated_at: i64,
    pub signature: Signature,
}

impl Clone for SignedPresence {
    fn clone(&self) -> (r: Self)
        ensures
            r == *self,
    {
        SignedPresence {
            player: self.player,
            nickname: self.nickname.clone(),
            claimed: self.claimed,
            watching: self.watching,
            updated_at: self.updated_at,
            signature: self.signature,
        }
    }
}

impl View for SignedPresence {
    type V = SignedPresence;

    open spec fn view(&self) -> SignedPresence {
        *self
    }
}

impl Record for SignedPresence {
    open spec fn mark_of(v: SignedPresence) -> u64 {
        digest_of(v.signature)
    }

    fn read_mark(&self) -> (r: u64) {
        signature_digest(&self.signature)
    }

    fn duplicate(&self) -> (r: Self) {
        self.clone()
    }
}

/// The game that is watched, as bytes.
pub open spec fn watching_bytes(watching: Option<GameId>) -> Seq<u8> {
    match watching {
        Some(id) => seq![1u8] + id.0@,
        None => seq![0u8],
    }
}

/// What a player signs for a heartbeat.
pub open spec fn presence_bytes(
    player: VerifyingKey,
    nickname: Seq<char>,
    claimed: PresenceStatus,
    watching: Option<GameId>,
    updated_at: i64,
) -> Seq<u8> {
    domain("presence:"@) + player.0@ + text_field(nickname) + seq![status_tag(claimed)]
        + watching_bytes(watching) + le_i64(updated_at)
}

pub open spec fn bytes_of_presence(p: SignedPresence) -> Seq<u8> {
    presence_bytes(p.player, p.nickname@, p.claimed, p.watching, p.updated_at)
}

/// What is wrong with a heartbeat.
pub open spec fn presence_fault(p: SignedPresence) -> Option<Seq<char>> {
    if nickname_fault(p.nickname@) is Some {
        nickname_fault(p.nickname@)
    } else if p.updated_at <= 0 {
        Some("presence timestamp must be positive"@)
    } else {
        sig_fault(p.player, bytes_of_presence(p), p.signature, "presence"@)
    }
}

/// What a heartbeat tells at a time: what it claims, but less and less.
pub open spec fn status_then(p: SignedPresence, now: i64) -> PresenceStatus {
    let age = now - p.updated_at;
    if age > AWAY_WINDOW_MS {
        PresenceStatus::Offline
    } else if age > ONLINE_WINDOW_MS || p.claimed == PresenceStatus::Away {
        PresenceStatus::Away
    } else {
        p.claimed
    }
}

/// Whether a heartbeat is later than another: by time, then by their
/// signatures.
pub open spec fn later_presence(a: SignedPresence, b: SignedPresence) -> bool {
    a.updated_at > b.updated_at || (a.updated_at == b.updated_at && sig_rank(a.signature)
        > sig_rank(b.signature))
}

impl SignedPresence {
    fn signing_bytes(
        player: &VerifyingKey,
        nickname: &str,
        claimed: PresenceStatus,
        watching: Option<GameId>,
        updated_at: i64,
    ) -> (r: Vec<u8>)
        ensures
            r@ == presence_bytes(*player, nickname@, claimed, watching, updated_at),
    {
        let mut buf = domain_bytes("presence:");
        push_all(&mut buf, player.0.as_slice());
        push_text(&mut buf, nickname);
        let ghost head = buf@;
        buf.push(claimed.tag());
        assert(buf@ =~= head + seq![status_tag(claimed)]);
        let ghost head = buf@;
        match watching {
            Some(id) => {
                buf.push(1);
                push_all(&mut buf, id.0.as_slice());
            },
            None => buf.push(0),
        }
        assert(buf@ =~= head + watching_bytes(watching));
        push_i64(&mut buf, updated_at);
        buf
    }

    pub fn new(key: &SigningKey, nickname: String, claimed: PresenceStatus, updated_at: i64) -> (r:
        SignedPresence)
        ensures
            r.player == key.public(),
            r.nickname == nickname,
            r.claimed == claimed,
            r.watching is None,
            r.updated_at == updated_at,
            r.signature == key.signed(bytes_of_presence(r)),
            sig_fault(r.player, bytes_of_presence(r), r.signature, "presence"@) is None,
    {
        SignedPresence::watching_game(key, nickname, claimed, None, updated_at)
    }

    /// A heartbeat that also tells which game the player is watching.
    pub fn watching_game(
        key: &SigningKey,
        nickname: String,
        claimed: PresenceStatus,
        watching: Option<GameId>,
        updated_at: i64,
    ) -> (r: SignedPresence)
        ensures
            r.player == key.public(),
            r.nickname == nickname,
            r.claimed == claimed,
            r.watching == watching,
            r.updated_at == updated_at,
            r.signature == key.signed(bytes_of_presence(r)),
            sig_fault(r.player, bytes_of_presence(r), r.signature, "presence"@) is None,
    {
        let player = key.verifying_key();
        let message = SignedPresence::signing_bytes(
            &player,
            nickname.as_str(),
            claimed,
            watching,
            updated_at,
        );
        let signature = key.sign(message.as_slice());
        SignedPresence { player, nickname, claimed, watching, updated_at, signature }
    }

    pub fn player_id(&self) -> (r: PlayerId)
        ensures
            r == id_of(self.player),
    {
        PlayerId::from(&self.player)
    }

    pub fn verify(&self) -> (r: Result<(), String>)
        ensures
            fault(r) == presence_fault(*self),
    {
        if self.nickname.as_str().len() > MAX_NICKNAME_LEN {
            return Err("nickname longer than 32 bytes".to_string());
        }
        if self.updated_at <= 0 {
            return Err("presence timestamp must be positive".to_string());
        }
        let message = SignedPresence::signing_bytes(
            &self.player,
            self.nickname.as_str(),
            self.claimed,
            self.watching,
            self.updated_at,
        );
        verify_sig(&self.player, message.as_slice(), &self.signature, "presence")
    }

    /// What the heartbeat tells at a time.
    pub fn status_at(&self, now: i64) -> (r: PresenceStatus)
        ensures
            r == status_then(*self, now),
    {
        let age: i128 = now as i128 - self.updated_at as i128;
        if age > AWAY_WINDOW_MS as i128 {
            PresenceStatus::Offline
        } else if age > ONLINE_WINDOW_MS as i128 || self.claimed == PresenceStatus::Away {
            PresenceStatus::Away
        } else {
            self.claimed
        }
    }

    fn is_watching(&self, game: GameId) -> (r: bool)
        ensures
            r == (self.watching == Some(game)),
    {
        match self.watching {
            Some(id) => id.same(&game),
            None => false,
        }
    }
}

impl Entry<()> for SignedPresence {
    type Key = PlayerId;

    open spec fn key_of(v: SignedPresence) -> PlayerId {
        id_of(v.player)
    }

    fn read_key(&self) -> (r: PlayerId) {
        self.player_id()
    }

    open spec fn replaces(a: SignedPresence, b: SignedPresence) -> bool {
        later_presence(a, b)
    }

    proof fn replacing_orders(a: SignedPresence, b: SignedPresence, c: SignedPresence) {
    }

    fn takes_over(&self, other: &Self) -> (r: bool) {
        self.updated_at > other.updated_at || (self.updated_at == other.updated_at && sig_less(
            &other.signature,
            &self.signature,
        ))
    }

    open spec fn valid(v: SignedPresence) -> bool {
        true
    }

    open spec fn entry_fault(v: SignedPresence, place: ()) -> Option<Seq<char>> {
        presence_fault(v)
    }

    fn check_entry(&self, place: &()) -> (r: Result<(), String>) {
        self.verify()
    }

    open spec fn filed_fault(k: PlayerId, v: SignedPresence, place: ()) -> Option<Seq<char>> {
        if id_of(v.player) != k {
            Some("presence stored under the wrong player id"@)
        } else {
            presence_fault(v)
        }
    }

    fn check_filed(&self, k: &PlayerId, place: &()) -> (r: Result<(), String>) {
        if !self.player_id().same(k) {
            return Err("presence stored under the wrong player id".to_string());
        }
        self.verify()
    }

    open spec fn order_in(k: PlayerId, v: SignedPresence) -> (int, int, nat) {
        (0, -v.updated_at, k.rank())
    }

    fn read_order(&self, k: &PlayerId) -> (r: (i128, i128, PlayerId)) {
        (0, -(self.updated_at as i128), *k)
    }

    proof fn filing_checks(k: PlayerId, v: SignedPresence, place: ()) {
    }

    proof fn places_differ(k: PlayerId, v: SignedPresence, l: PlayerId, w: SignedPresence) {
        PlayerId::rank_decides(k, l);
    }
}

/// Heartbeats, the last first.
pub open spec fn last_seen_first() -> spec_fn(SignedPresence) -> (int, int, nat) {
    |p: SignedPresence| (0int, -(p.updated_at as int), id_of(p.player).rank())
}

fn seen_key(p: &SignedPresence) -> (k: (i128, i128, PlayerId))
    ensures
        place_of(k) == last_seen_first()(p@),
{
    (0, -(p.updated_at as i128), p.player_id())
}

/// Those who are not offline.
pub open spec fn around(now: i64) -> spec_fn(SignedPresence) -> bool {
    |p: SignedPresence| status_then(p, now) != PresenceStatus::Offline
}

/// Those who are not offline and watch a game.
pub open spec fn watchers(game: GameId, now: i64) -> spec_fn(SignedPresence) -> bool {
    |p: SignedPresence|
        p.watching == Some(game) && status_then(p, now) != PresenceStatus::Offline
}

/// Those who are not offline, the last seen first.
pub open spec fn active_list(m: Map<PlayerId, SignedPresence>, now: i64) -> Seq<SignedPresence> {
    ordered(selected(values_of(m), around(now)), last_seen_first())
}

/// Those who watch a game, the last seen first.
pub open spec fn watching_list(
    m: Map<PlayerId, SignedPresence>,
    game: GameId,
    now: i64,
) -> Seq<SignedPresence> {
    ordered(selected(values_of(m), watchers(game, now)), last_seen_first())
}

/// A player's status at a time: offline where nothing is known.
pub open spec fn status_in(m: Map<PlayerId, SignedPresence>, player: PlayerId, now: i64) -> PresenceStatus {
    if m.contains_key(player) {
        status_then(m[player], now)
    } else {
        PresenceStatus::Offline
    }
}

/// Those who are online.
pub open spec fn online(now: i64) -> spec_fn(SignedPresence) -> bool {
    |p: SignedPresence| status_then(p, now) == PresenceStatus::Online
}

/// Everyone but one.
pub open spec fn others(me: PlayerId) -> spec_fn(SignedPresence) -> bool {
    |p: SignedPresence| id_of(p.player) != me
}

/// What is wrong with a record of who is around.
pub open spec fn all_presence_fault(m: Map<PlayerId, SignedPresence>) -> Option<Seq<char>> {
    if listing(m).len() > MAX_PRESENCE_ENTRIES {
        Some(
            "presence holds "@ + digits(listing(m).len()) + " entries, over the "@ + digits(
                MAX_PRESENCE_ENTRIES as nat,
            ) + " cap"@,
        )
    } else {
        entries_fault::<(), SignedPresence>(m, ())
    }
}

/// The last heartbeat of each player.
#[derive(Debug, PartialEq, Eq, Clone)]
pub struct PresenceV1 {
    pub players: SortedMap<PlayerId, SignedPresence>,
}

impl View for PresenceV1 {
    type V = Map<PlayerId, SignedPresence>;

    open spec fn view(&self) -> Map<PlayerId, SignedPresence> {
        self.players@
    }
}

impl Default for PresenceV1 {
    fn default() -> (r: Self)
        ensures
            r@ == Map::<PlayerId, SignedPresence>::empty(),
    {
        PresenceV1 { players: SortedMap::new() }
    }
}

impl PresenceV1 {
    pub fn len(&self) -> (r: usize)
        ensures
            r == listing(self@).len(),
            self@.dom().finite(),
    {
        self.players.len()
    }

    pub fn is_empty(&self) -> (r: bool)
        ensures
            r == (listing(self@).len() == 0),
    {
        self.len() == 0
    }

    /// A player's status at a time: offline where nothing is known.
    pub fn status_of(&self, player: PlayerId, now: i64) -> (r: PresenceStatus)
        ensures
            r == (if self@.contains_key(player) {
                status_then(self@[player], now)
            } else {
                PresenceStatus::Offline
            }),
            r == status_in(self@, player, now),
    {
        match self.players.get(&player) {
            Some(p) => p.status_at(now),
            None => PresenceStatus::Offline,
        }
    }

    /// Those who are not offline, the last seen first.
    pub fn active(&self, now: i64) -> (r: Vec<&SignedPresence>)
        ensures
            refs_held(r@) == ordered(selected(values_of(self@), around(now)), last_seen_first()),
            refs_held(r@) == active_list(self@, now),
    {
        assert(views(self.players@) =~= self.players@);
        let there = |p: &SignedPresence| -> (b: bool)
            ensures
                b == around(now)(p@),
        {
            p.status_at(now) != PresenceStatus::Offline
        };
        arrange(
            select(&self.players, there, Ghost(around(now))),
            seen_key,
            Ghost(last_seen_first()),
        )
    }

    /// Those who watch a game, the last seen first.
    pub fn spectators_of(&self, game: GameId, now: i64) -> (r: Vec<&SignedPresence>)
        ensures
            refs_held(r@) == ordered(
                selected(values_of(self@), watchers(game, now)),
                last_seen_first(),
            ),
            refs_held(r@) == watching_list(self@, game, now),
    {
        assert(views(self.players@) =~= self.players@);
        let there = |p: &SignedPresence| -> (b: bool)
            ensures
                b == watchers(game, now)(p@),
        {
            p.is_watching(game) && p.status_at(now) != PresenceStatus::Offline
        };
        arrange(
            select(&self.players, there, Ghost(watchers(game, now))),
            seen_key,
            Ghost(last_seen_first()),
        )
    }

    /// Those whom a player can challenge, the last seen first.
    pub fn challengeable(&self, me: PlayerId, now: i64) -> (r: Vec<&SignedPresence>)
        ensures
            refs_held(r@) == selected(
                ordered(selected(values_of(self@), around(now)), last_seen_first()),
                others(me),
            ),
            refs_held(r@) == selected(active_list(self@, now), others(me)),
    {
        let other = |p: &SignedPresence| -> (b: bool)
            ensures
                b == others(me)(p@),
        {
            !p.player_id().same(&me)
        };
        choose_from(self.active(now), other, Ghost(others(me)))
    }

    /// How many are online.
    pub fn online_count(&self, now: i64) -> (r: usize)
        ensures
            r == selected(values_of(self@), online(now)).len(),
    {
        assert(views(self.players@) =~= self.players@);
        let there = |p: &SignedPresence| -> (b: bool)
            ensures
                b == online(now)(p@),
        {
            p.status_at(now) == PresenceStatus::Online
        };
        let found = select(&self.players, there, Ghost(online(now)));
        assert(refs_held(found@).len() == found@.len());
        found.len()
    }

    /// Keep the players who were seen last.
    pub fn prune(&mut self)
        ensures
            final(self)@ == capped::<(), SignedPresence>(
                old(self)@,
                MAX_PRESENCE_ENTRIES as nat,
            ),
    {
        assert(views(self.players@) =~= self.players@);
        cut::<(), SignedPresence>(&mut self.players, MAX_PRESENCE_ENTRIES);
        assert(views(self.players@) =~= self.players@);
    }

    pub fn verify(&self, _parent: &LobbyStateV1, _params: &LobbyParametersV1) -> (r: Result<
        (),
        String,
    >)
        ensures
            fault(r) == all_presence_fault(self@),
    {
        assert(views(self.players@) =~= self.players@);
        let n = self.len();
        if n > MAX_PRESENCE_ENTRIES {
            let mut text = with_number("presence holds ", n as u128, " entries, over the ");
            push_decimal(&mut text, MAX_PRESENCE_ENTRIES as u128);
            text.push_str(" cap");
            return Err(text);
        }
        check_all::<(), SignedPresence>(&self.players, &())
    }

    pub fn summarize(&self, _parent: &LobbyStateV1, _params: &LobbyParametersV1) -> (r: Vec<
        (PlayerId, u64),
    >)
        ensures
            r@ == marks_of::<PlayerId, SignedPresence>(listing(self@)),
    {
        assert(views(self.players@) =~= self.players@);
        summarize_map(&self.players)
    }

    pub fn delta(
        &self,
        _parent: &LobbyStateV1,
        _params: &LobbyParametersV1,
        old_summary: &Vec<(PlayerId, u64)>,
    ) -> (r: Option<Vec<SignedPresence>>)
        ensures
            match r {
                Some(d) => d@ == missing::<PlayerId, SignedPresence>(
                    listing(self@),
                    old_summary@,
                ) && d@.len() > 0,
                None => missing::<PlayerId, SignedPresence>(listing(self@), old_summary@).len()
                    == 0,
            },
    {
        assert(views(self.players@) =~= self.players@);
        let out = missing_from(&self.players, old_summary);
        assert(held(out@) =~= out@);
        if out.len() == 0 {
            None
        } else {
            Some(out)
        }
    }

    pub fn apply_delta(
        &mut self,
        _parent: &LobbyStateV1,
        _params: &LobbyParametersV1,
        delta: &Option<Vec<SignedPresence>>,
    ) -> (r: Result<(), String>)
        ensures
            match *delta {
                Some(d) => (final(self)@, fault(r)) == entries_after::<(), SignedPresence>(
                    old(self)@,
                    d@,
                    (),
                ),
                None => r is Ok && final(self)@ == old(self)@,
            },
    {
        match delta {
            Some(d) => self.take_in(d),
            None => Ok(()),
        }
    }

    /// Take in heartbeats, up to the first bad one.
    pub fn take_in(&mut self, incoming: &Vec<SignedPresence>) -> (r: Result<(), String>)
        ensures
            (final(self)@, fault(r)) == entries_after::<(), SignedPresence>(
                old(self)@,
                incoming@,
                (),
            ),
    {
        assert(views(self.players@) =~= self.players@);
        assert(held(incoming@) =~= incoming@);
        let r = take_in::<(), SignedPresence>(&mut self.players, &(), incoming);
        assert(views(self.players@) =~= self.players@);
        r
    }
}

/// As time passes a heartbeat tells no more than it did: who was away does not
/// come online, and who was offline does not come back.
pub proof fn law_presence_fades(p: SignedPresence, earlier: i64, later: i64)
    requires
        earlier <= later,
    ensures
        status_then(p, earlier) == PresenceStatus::Away ==> status_then(p, later)
            != PresenceStatus::Online,
        status_then(p, earlier) == PresenceStatus::Offline ==> status_then(p, later)
            != PresenceStatus::Online,
        later - p.updated_at > AWAY_WINDOW_MS ==> status_then(p, later) == PresenceStatus::Offline,
        status_then(p, later) == PresenceStatus::Online ==> later - p.updated_at
            <= ONLINE_WINDOW_MS,
{
}

/// A record that is pruned keeps no more players than it may, and those who
/// were seen last.
pub proof fn law_the_last_seen_stay(
    m: Map<PlayerId, SignedPresence>,
    kept: PlayerId,
    dropped: PlayerId,
)
    requires
        m.dom().finite(),
    ensures
        ({
            let left = capped::<(), SignedPresence>(m, MAX_PRESENCE_ENTRIES as nat);
            &&& listing(left).len() <= MAX_PRESENCE_ENTRIES
            &&& capped::<(), SignedPresence>(left, MAX_PRESENCE_ENTRIES as nat) == left
            &&& left.contains_key(kept) && m.contains_key(dropped) && !left.contains_key(dropped)
                ==> m[kept].updated_at >= m[dropped].updated_at
        }),
{
    let order = entry_order::<(), SignedPresence>();
    let left = capped::<(), SignedPresence>(m, MAX_PRESENCE_ENTRIES as nat);
    assert forall|a: PlayerId, b: PlayerId|
        #![trigger m.contains_key(a), m.contains_key(b)]
        m.contains_key(a) && m.contains_key(b) && order(a, m[a]) == order(b, m[b]) implies a
        == b by {
        PlayerId::rank_decides(a, b);
    }
    crate::order::law_no_more_than_the_cap(m, order, MAX_PRESENCE_ENTRIES as nat);
    if left.contains_key(kept) && m.contains_key(dropped) && !left.contains_key(dropped) {
        crate::order::law_the_foremost_stay(m, order, MAX_PRESENCE_ENTRIES as nat, kept, dropped);
    }
}

/// For a minute and a half a heartbeat shows what it claims, then that its player
/// is away, and after ten minutes that they are offline.
pub proof fn law_heartbeats_show_what_they_claim_for_a_while(p: SignedPresence, now: i64)
    ensures
        now - p.updated_at <= 90_000 ==> status_then(p, now) == p.claimed,
        90_000 < now - p.updated_at <= 600_000 ==> status_then(p, now) == PresenceStatus::Away,
        600_000 < now - p.updated_at ==> status_then(p, now) == PresenceStatus::Offline,
{
}

/// A heartbeat is taken in exactly where it is dated and signed by its player,
/// under a name that fits.
pub proof fn law_sound_heartbeats(p: SignedPresence)
    ensures
        presence_fault(p) is None <==> {
            &&& encode_utf8(p.nickname@).len() as usize <= 32
            &&& p.updated_at > 0
            &&& crate::crypto::signature_fault(
                p.player.0,
                bytes_of_presence(p),
                p.signature.0,
            ) is None
        },
{
}

/// Of a player's heartbeats the last one counts.
pub proof fn law_the_last_heartbeat_counts(a: SignedPresence, b: SignedPresence)
    ensures
        a.updated_at > b.updated_at ==> later_presence(a, b) && !later_presence(b, a),
        a.updated_at == b.updated_at && sig_rank(a.signature) > sig_rank(b.signature)
            ==> later_presence(a, b) && !later_presence(b, a),
        !later_presence(a, a),
{
}

/// Those around are all who are online or away, the last seen first.
pub proof fn law_those_around_are_not_offline(
    m: Map<PlayerId, SignedPresence>,
    now: i64,
    p: SignedPresence,
)
    requires
        m.dom().finite(),
    ensures
        ({
            let list = active_list(m, now);
            &&& list.contains(p) <==> (status_then(p, now) == PresenceStatus::Online || status_then(
                p,
                now,
            ) == PresenceStatus::Away) && exists|k: PlayerId| #[trigger]
                m.contains_key(k) && m[k] == p
            &&& forall|i: int, j: int|
                0 <= i < j < list.len() ==> (#[trigger] list[i]).updated_at >= (
                #[trigger] list[j]).updated_at
        }),
{
    let list = ordered(selected(values_of(m), around(now)), last_seen_first());
    crate::lists::law_lists_hold_what_was_asked_for(m, around(now), last_seen_first(), p);
    assert forall|i: int, j: int| 0 <= i < j < list.len() implies (#[trigger] list[i]).updated_at
        >= (#[trigger] list[j]).updated_at by {
        assert(!crate::order::before(last_seen_first()(list[j]), last_seen_first()(list[i])));
    }
}

/// A game's spectators are all who watch it and are not offline, the last seen
/// first.
pub proof fn law_spectators_watch_the_game(
    m: Map<PlayerId, SignedPresence>,
    game: GameId,
    now: i64,
    p: SignedPresence,
)
    requires
        m.dom().finite(),
    ensures
        ({
            let list = watching_list(m, game, now);
            &&& list.contains(p) <==> p.watching == Some(game) && status_then(p, now)
                != PresenceStatus::Offline && exists|k: PlayerId| #[trigger]
                m.contains_key(k) && m[k] == p
            &&& forall|i: int, j: int|
                0 <= i < j < list.len() ==> (#[trigger] list[i]).updated_at >= (
                #[trigger] list[j]).updated_at
        }),
{
    let list = ordered(selected(values_of(m), watchers(game, now)), last_seen_first());
    crate::lists::law_lists_hold_what_was_asked_for(m, watchers(game, now), last_seen_first(), p);
    assert forall|i: int, j: int| 0 <= i < j < list.len() implies (#[trigger] list[i]).updated_at
        >= (#[trigger] list[j]).updated_at by {
        assert(!crate::order::before(last_seen_first()(list[j]), last_seen_first()(list[i])));
    }
}

/// A player can challenge everybody around but themselves.
pub proof fn law_nobody_challenges_themselves(
    m: Map<PlayerId, SignedPresence>,
    me: PlayerId,
    now: i64,
    p: SignedPresence,
)
    ensures
        ({
            let near = active_list(m, now);
            selected(near, others(me)).contains(p) <==> near.contains(p) && id_of(p.player) != me
        }),
{
    let near = ordered(selected(values_of(m), around(now)), last_seen_first());
    crate::lists::lemma_selected(near, others(me), p);
}

/// As many are online as have a heartbeat that says so now.
pub proof fn law_those_online_are_counted(m: Map<PlayerId, SignedPresence>, now: i64)
    requires
        m.dom().finite(),
    ensures
        selected(values_of(m), online(now)).len() == m.dom().filter(
            |k: PlayerId| status_then(m[k], now) == PresenceStatus::Online,
        ).len(),
{
    let list = selected(values_of(m), online(now));
    crate::lists::law_lists_hold_what_was_asked_for(
        m,
        online(now),
        last_seen_first(),
        arbitrary(),
    );
    crate::order::law_ordering_keeps_members(list, last_seen_first(), arbitrary());
    assert(crate::sorted_map::restricted(m, crate::lists::with_value(online(now))).dom()
        =~= m.dom().filter(
        |k: PlayerId| status_then(m[k], now) == PresenceStatus::Online,
    ));
}

/// A list of who is around passes if it has at most five hundred heartbeats,
/// each sound and filed under its player.
pub proof fn law_sound_presence(m: Map<PlayerId, SignedPresence>)
    requires
        m.dom().finite(),
    ensures
        all_presence_fault(m) is None <==> {
            &&& listing(m).len() <= 500
            &&& forall|k: PlayerId| #[trigger]
                m.contains_key(k) ==> id_of(m[k].player) == k && presence_fault(m[k]) is None
        },
{
    crate::ledger::lemma_checked_is_sound::<(), SignedPresence>(m, ());
    if crate::ledger::sound_map::<(), SignedPresence>(m, ()) {
        assert forall|k: PlayerId| #[trigger] m.contains_key(k) implies id_of(m[k].player) == k
            && presence_fault(m[k]) is None by {
            assert(<SignedPresence as Entry<()>>::key_of(m[k]) == k);
        }
    }
}

/// A client that signs a heartbeat every thirty seconds may miss two and still
/// be shown as online.
pub proof fn law_two_heartbeats_may_be_missed(p: SignedPresence, now: i64)
    requires
        p.claimed == PresenceStatus::Online,
        now - p.updated_at <= 3 * HEARTBEAT_INTERVAL_MS,
    ensures
        status_then(p, now) == PresenceStatus::Online,
        HEARTBEAT_INTERVAL_MS == 30_000,
{
}

/// Who has never signed a heartbeat is offline, and so is whoever signed none for
/// ten minutes; who claims to be online is so for a minute and a half.
pub proof fn law_who_is_silent_is_offline(
    m: Map<PlayerId, SignedPresence>,
    player: PlayerId,
    now: i64,
)
    ensures
        !m.contains_key(player) ==> status_in(m, player, now) == PresenceStatus::Offline,
        m.contains_key(player) && now - m[player].updated_at > 600_000 ==> status_in(m, player, now)
            == PresenceStatus::Offline,
        m.contains_key(player) && now - m[player].updated_at <= 90_000 && m[player].claimed
            == PresenceStatus::Online ==> status_in(m, player, now) == PresenceStatus::Online,
{
}

} // verus!
