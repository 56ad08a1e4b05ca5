//! The ranking by rating.
//!
//! A place in the ranking cites its player's last certified game, in which the
//! opponent signed for both ratings. So anyone can work out what the player's
//! rating is now, and nobody has to be believed.

use crate::bytes::{le32, le_i32, le_i64, push_all, push_i32, push_i64, push_u32};
use crate::certificate::{
    cert_fault, color_for, opponent_rating, player_score, Certified, GameCertificate,
};
use crate::chess::board::all_valid;
use crate::chess::types::Color;
use crate::crypto::{Signature, SigningKey, VerifyingKey};
use crate::elo::{apply_result, rating_after, MIN_ELO, STARTING_ELO};
use crate::game::setup::{nickname_fault, MAX_NICKNAME_LEN};
use crate::game::{
    domain, domain_bytes, push_text, sig_less, sig_rank, text_field, white_score,
};
use crate::identity::{
    digest_of, id_of, sig_fault, signature_digest, verify_sig, GameId, PlayerId,
};
use crate::ledger::{
    all_entries_valid, all_incoming_valid, capped, check_all, cut, entries_after, entries_fault,
    entry_order, take_in, Entry,
};
use crate::lists::{all_values, arrange, refs_held, values_of};
use crate::lobby::{LobbyParametersV1, LobbyStateV1};
use crate::order::{ordered, place_of};
use crate::prefix::{leading, lemma_leading_is};
use crate::search::{blank, is_blank};
use crate::sorted_map::{lemma_listing_views, listing, views, Ranked, SortedMap};
use crate::sync::{held, marks_of, missing, missing_from, summarize_map, Record};
use crate::text::{
    digits, fault, push_decimal, push_signed, signed_digits, with_number,
};
use vstd::prelude::*;
use vstd::string::*;
use vstd::utf8::encode_utf8;

verus! {

/// How many players the ranking holds.
pub const LEADERBOARD_SIZE: usize = 200;

/// What a place in the ranking holds.
#[verifier::ext_equal]
pub struct RankView {
    pub player: VerifyingKey,
    pub nickname: Seq<char>,
    pub rating: i32,
    pub games_played: u32,
    pub last_game: Certified,
    pub updated_at: i64,
    pub signature: Signature,
}

/// A player's place in the ranking.
#[derive(Debug, PartialEq, Eq)]
pub struct RankEntry {
    pub player: VerifyingKey,
    pub nickname: String,
    pub rating: i32,
    pub games_played: u32,
    /// The game that the rating follows from.
    pub last_game: GameCertificate,
    pub updated_at: i64,
    pub signature: Signature,
}

impl View for RankEntry {
    type V = RankView;

    open spec fn view(&self) -> RankView {
        RankView {
            player: self.player,
            nickname: self.nickname@,
            rating: self.rating,
            games_played: self.games_played,
            last_game: self.last_game@,
            updated_at: self.updated_at,
            signature: self.signature,
        }
    }
}

impl Clone for RankEntry {
    fn clone(&self) -> (r: Self)
        ensures
            r@ == self@,
    {
        RankEntry {
            player: self.player,
            nickname: self.nickname.clone(),
            rating: self.rating,
            games_played: self.games_played,
            last_game: self.last_game.clone(),
            updated_at: self.updated_at,
            signature: self.signature,
        }
    }
}

impl Record for RankEntry {
    open spec fn mark_of(v: RankView) -> u64 {
        digest_of(v.signature)
    }

    fn read_mark(&self) -> (r: u64) {
        signature_digest(&self.signature)
    }

    fn duplicate(&self) -> (r: Self) {
        self.clone()
    }
}

/// What a player signs for a place in the ranking.
pub open spec fn rank_bytes(e: RankView) -> Seq<u8> {
    domain("rank:"@) + e.player.0@ + text_field(e.nickname) + le_i32(e.rating) + le32(
        e.games_played,
    ) + e.last_game.record.game_id.0@ + le_i64(e.updated_at)
}

/// What a player was rated before a game.
pub open spec fn own_rating(c: Certified, player: PlayerId) -> int {
    match color_for(c, player) {
        Some(Color::White) => c.record.white_rating_before as int,
        _ => c.record.black_rating_before as int,
    }
}

/// The rating that follows from the game an entry cites.
pub open spec fn rating_due(e: RankView) -> int {
    let me = id_of(e.player);
    rating_after(
        own_rating(e.last_game, me),
        if e.games_played == 0 {
            0
        } else {
            e.games_played - 1
        },
        opponent_rating(e.last_game, me)->0 as int,
        player_score(e.last_game, me)->0,
    )
}

/// What is wrong with a place in the ranking, the first thing first.
pub open spec fn rank_fault(e: RankView) -> Option<Seq<char>> {
    let me = id_of(e.player);
    if nickname_fault(e.nickname) is Some {
        nickname_fault(e.nickname)
    } else if blank(e.nickname) {
        Some("nickname must not be blank"@)
    } else if e.games_played == 0 {
        Some("a ranked player must have played at least one game"@)
    } else if e.rating < MIN_ELO {
        Some("rating below the floor"@)
    } else if sig_fault(e.player, rank_bytes(e), e.signature, "rank entry"@) is Some {
        sig_fault(e.player, rank_bytes(e), e.signature, "rank entry"@)
    } else if cert_fault(e.last_game) is Some {
        cert_fault(e.last_game)
    } else if color_for(e.last_game, me) is None {
        Some("rank entry cites a game its player did not take part in"@)
    } else if player_score(e.last_game, me) is None {
        Some("cited game has no decided result"@)
    } else if rating_due(e) != e.rating {
        Some(
            "rating "@ + signed_digits(e.rating as int)
                + " does not follow from the cited game (expected "@ + signed_digits(rating_due(e))
                + ")"@,
        )
    } else {
        None
    }
}

/// Whether an entry is later than another: by the games played, then by time,
/// then by their signatures.
pub open spec fn later_rank(a: RankView, b: RankView) -> bool {
    a.games_played > b.games_played || (a.games_played == b.games_played && (a.updated_at
        > b.updated_at || (a.updated_at == b.updated_at && sig_rank(a.signature) > sig_rank(
        b.signature,
    ))))
}

impl RankEntry {
    fn signing_bytes(
        player: &VerifyingKey,
        nickname: &str,
        rating: i32,
        games_played: u32,
        last_game_id: &GameId,
        updated_at: i64,
    ) -> (r: Vec<u8>)
        ensures
            r@ == domain("rank:"@) + player.0@ + text_field(nickname@) + le_i32(rating) + le32(
                games_played,
            ) + last_game_id.0@ + le_i64(updated_at),
    {
        let mut buf = domain_bytes("rank:");
        push_all(&mut buf, player.0.as_slice());
        push_text(&mut buf, nickname);
        push_i32(&mut buf, rating);
        push_u32(&mut buf, games_played);
        push_all(&mut buf, last_game_id.0.as_slice());
        push_i64(&mut buf, updated_at);
        buf
    }

    pub fn new(
        key: &SigningKey,
        nickname: String,
        rating: i32,
        games_played: u32,
        last_game: GameCertificate,
        updated_at: i64,
    ) -> (r: RankEntry)
        ensures
            r@.player == key.public(),
            r@.nickname == nickname@,
            r@.rating == rating,
            r@.games_played == games_played,
            r@.last_game == last_game@,
            r@.updated_at == updated_at,
            r@.signature == key.signed(rank_bytes(r@)),
            sig_fault(r@.player, rank_bytes(r@), r@.signature, "rank entry"@) is None,
    {
        let player = key.verifying_key();
        let message = RankEntry::signing_bytes(
            &player,
            nickname.as_str(),
            rating,
            games_played,
            &last_game.game_id,
            updated_at,
        );
        let signature = key.sign(message.as_slice());
        RankEntry { player, nickname, rating, games_played, last_game, updated_at, signature }
    }

    pub fn player_id(&self) -> (r: PlayerId)
        ensures
            r == id_of(self@.player),
    {
        PlayerId::from(&self.player)
    }

    /// Check the entry: its player's signature, the game it cites, and that
    /// the rating follows from that game.
    pub fn verify(&self) -> (r: Result<(), String>)
        requires
            all_valid(self@.last_game.record.moves),
        ensures
            fault(r) == rank_fault(self@),
    {
        if self.nickname.as_str().len() > MAX_NICKNAME_LEN {
            return Err("nickname longer than 32 bytes".to_string());
        }
        if is_blank(self.nickname.as_str()) {
            return Err("nickname must not be blank".to_string());
        }
        if self.games_played == 0 {
            return Err("a ranked player must have played at least one game".to_string());
        }
        if self.rating < MIN_ELO {
            return Err("rating below the floor".to_string());
        }
        let message = RankEntry::signing_bytes(
            &self.player,
            self.nickname.as_str(),
            self.rating,
            self.games_played,
            &self.last_game.game_id,
            self.updated_at,
        );
        match verify_sig(&self.player, message.as_slice(), &self.signature, "rank entry") {
            Ok(()) => {},
            Err(e) => return Err(e),
        }
        match self.last_game.verify() {
            Ok(()) => {},
            Err(e) => return Err(e),
        }
        let me = self.player_id();
        let (before, opponent) = match self.last_game.color_of(me) {
            Some(Color::White) => (
                self.last_game.white_rating_before,
                self.last_game.black_rating_before,
            ),
            Some(Color::Black) => (
                self.last_game.black_rating_before,
                self.last_game.white_rating_before,
            ),
            None => {
                return Err("rank entry cites a game its player did not take part in".to_string());
            },
        };
        let score = match self.last_game.score_for(me) {
            Some(score) => score,
            None => return Err("cited game has no decided result".to_string()),
        };
        let expected = apply_result(before, self.games_played - 1, opponent, score);
        if expected != self.rating {
            let mut text = "rating ".to_string();
            push_signed(&mut text, self.rating as i64);
            text.push_str(" does not follow from the cited game (expected ");
            push_signed(&mut text, expected as i64);
            text.push_str(")");
            return Err(text);
        }
        Ok(())
    }
}

impl Entry<()> for RankEntry {
    type Key = PlayerId;

    open spec fn key_of(v: RankView) -> PlayerId {
        id_of(v.player)
    }

    fn read_key(&self) -> (r: PlayerId) {
        self.player_id()
    }

    open spec fn replaces(a: RankView, b: RankView) -> bool {
        later_rank(a, b)
    }

    proof fn replacing_orders(a: RankView, b: RankView, c: RankView) {
    }

    fn takes_over(&self, other: &Self) -> (r: bool) {
        self.games_played > other.games_played || (self.games_played == other.games_played && (
        self.updated_at > other.updated_at || (self.updated_at == other.updated_at && sig_less(
            &other.signature,
            &self.signature,
        ))))
    }

    open spec fn valid(v: RankView) -> bool {
        all_valid(v.last_game.record.moves)
    }

    open spec fn entry_fault(v: RankView, place: ()) -> Option<Seq<char>> {
        rank_fault(v)
    }

    fn check_entry(&self, place: &()) -> (r: Result<(), String>) {
        self.verify()
    }

    open spec fn filed_fault(k: PlayerId, v: RankView, place: ()) -> Option<Seq<char>> {
        if id_of(v.player) != k {
            Some("rank entry stored under the wrong player id"@)
        } else {
            rank_fault(v)
        }
    }

    fn check_filed(&self, k: &PlayerId, place: &()) -> (r: Result<(), String>) {
        if !self.player_id().same(k) {
            return Err("rank entry stored under the wrong player id".to_string());
        }
        self.verify()
    }

    open spec fn order_in(k: PlayerId, v: RankView) -> (int, int, nat) {
        (0, -v.rating, id_of(v.player).rank())
    }

    fn read_order(&self, k: &PlayerId) -> (r: (i128, i128, PlayerId)) {
        (0, -(self.rating as i128), self.player_id())
    }

    proof fn filing_checks(k: PlayerId, v: RankView, place: ()) {
    }

    proof fn places_differ(k: PlayerId, v: RankView, l: PlayerId, w: RankView) {
        PlayerId::rank_decides(k, l);
    }
}

/// Players by rating, the best first.
pub open spec fn best_first() -> spec_fn(RankView) -> (int, int, nat) {
    |e: RankView| (0int, -(e.rating as int), id_of(e.player).rank())
}

fn rank_key(e: &RankEntry) -> (k: (i128, i128, PlayerId))
    ensures
        place_of(k) == best_first()(e@),
{
    (0, -(e.rating as i128), e.player_id())
}

/// The ranking, the best first.
pub open spec fn table(m: Map<PlayerId, RankView>) -> Seq<RankView> {
    ordered(values_of(m), best_first())
}

/// A player's rating: a newcomer's where they have no place.
pub open spec fn rating_in(m: Map<PlayerId, RankView>, player: PlayerId) -> int {
    if m.contains_key(player) {
        m[player].rating as int
    } else {
        STARTING_ELO as int
    }
}

pub open spec fn not_player(s: Seq<RankView>, player: PlayerId) -> spec_fn(int) -> bool {
    |i: int| id_of(s[i].player) != player
}

/// A player's place in the ranking, from 1.
pub open spec fn place_in_table(m: Map<PlayerId, RankView>, player: PlayerId) -> Option<int> {
    let s = table(m);
    let n = leading(not_player(s, player), s.len());
    if n < s.len() {
        Some(n as int + 1)
    } else {
        None
    }
}

/// What is wrong with a ranking.
pub open spec fn board_fault(m: Map<PlayerId, RankView>) -> Option<Seq<char>> {
    if listing(m).len() > LEADERBOARD_SIZE {
        Some(
            "leaderboard holds "@ + digits(listing(m).len()) + " entries, over the "@ + digits(
                LEADERBOARD_SIZE as nat,
            ) + " cap"@,
        )
    } else {
        entries_fault::<(), RankEntry>(m, ())
    }
}

/// The ranking.
#[derive(Debug, PartialEq, Eq, Clone)]
pub struct LeaderboardV1 {
    pub entries: SortedMap<PlayerId, RankEntry>,
}

impl View for LeaderboardV1 {
    type V = Map<PlayerId, RankView>;

    open spec fn view(&self) -> Map<PlayerId, RankView> {
        views(self.entries@)
    }
}

impl Default for LeaderboardV1 {
    fn default() -> (r: Self)
        ensures
            r@ == Map::<PlayerId, RankView>::empty(),
    {
        let r = LeaderboardV1 { entries: SortedMap::new() };
        assert(r@ =~= Map::<PlayerId, RankView>::empty());
        r
    }
}

impl LeaderboardV1 {
    pub fn len(&self) -> (r: usize)
        ensures
            r == listing(self@).len(),
            self@.dom().finite(),
    {
        let n = self.entries.len();
        proof {
            lemma_listing_views(self.entries@);
        }
        n
    }

    pub fn is_empty(&self) -> (r: bool)
        ensures
            r == (listing(self@).len() == 0),
    {
        self.len() == 0
    }

    pub fn get(&self, player: PlayerId) -> (r: Option<&RankEntry>)
        ensures
            match r {
                Some(e) => self@.contains_key(player) && self@[player] == e@,
                None => !self@.contains_key(player),
            },
    {
        self.entries.get(&player)
    }

    /// A player's rating: a newcomer's where they have no place.
    pub fn rating_of(&self, player: PlayerId) -> (r: i32)
        ensures
            r == (if self@.contains_key(player) {
                self@[player].rating
            } else {
                STARTING_ELO
            }),
            r == rating_in(self@, player),
    {
        match self.entries.get(&player) {
            Some(e) => e.rating,
            None => STARTING_ELO,
        }
    }

    /// The ranking, the best first.
    pub fn ranked(&self) -> (r: Vec<&RankEntry>)
        ensures
            refs_held(r@) == table(self@),
    {
        arrange(all_values(&self.entries), rank_key, Ghost(best_first()))
    }

    /// A player's place in the ranking, from 1.
    pub fn position_of(&self, player: PlayerId) -> (r: Option<usize>)
        ensures
            match r {
                Some(n) => place_in_table(self@, player) == Some(n as int),
                None => place_in_table(self@, player) is None,
            },
    {
        let all = self.ranked();
        let ghost s = table(self@);
        let ghost apart = not_player(s, player);
        let n = all.len();
        assert(refs_held(all@).len() == n);
        let mut i: usize = 0;
        while i < n
            invariant
                i <= n,
                n == all@.len(),
                s == table(self@),
                s == refs_held(all@),
                apart == not_player(s, player),
                forall|j: int| 0 <= j < i ==> #[trigger] apart(j),
            decreases n - i,
        {
            assert(s[i as int] == all@[i as int]@);
            if all[i].player_id().same(&player) {
                proof {
                    assert(!apart(i as int));
                    lemma_leading_is(apart, s.len(), i as nat);
                }
                return Some(i + 1);
            }
            assert(apart(i as int));
            i = i + 1;
        }
        proof {
            lemma_leading_is(apart, s.len(), i as nat);
        }
        None
    }

    /// Keep the best.
    pub fn prune(&mut self)
        ensures
            final(self)@ == capped::<(), RankEntry>(old(self)@, LEADERBOARD_SIZE as nat),
            all_entries_valid::<(), RankEntry>(old(self)@) ==> all_entries_valid::<(), RankEntry>(
                final(self)@,
            ),
    {
        cut::<(), RankEntry>(&mut self.entries, LEADERBOARD_SIZE);
    }

    pub fn verify(&self, _parent: &LobbyStateV1, _params: &LobbyParametersV1) -> (r: Result<
        (),
        String,
    >)
        requires
            all_entries_valid::<(), RankEntry>(self@),
        ensures
            fault(r) == board_fault(self@),
    {
        let n = self.len();
        if n > LEADERBOARD_SIZE {
            let mut text = with_number("leaderboard holds ", n as u128, " entries, over the ");
            push_decimal(&mut text, LEADERBOARD_SIZE as u128);
            text.push_str(" cap");
            return Err(text);
        }
        check_all::<(), RankEntry>(&self.entries, &())
    }

    pub fn summarize(&self, _parent: &LobbyStateV1, _params: &LobbyParametersV1) -> (r: Vec<
        (PlayerId, u64),
    >)
        ensures
            r@ == marks_of::<PlayerId, RankEntry>(listing(self@)),
    {
        summarize_map(&self.entries)
    }

    pub fn delta(
        &self,
        _parent: &LobbyStateV1,
        _params: &LobbyParametersV1,
        old_summary: &Vec<(PlayerId, u64)>,
    ) -> (r: Option<Vec<RankEntry>>)
        ensures
            match r {
                Some(d) => held(d@) == missing::<PlayerId, RankEntry>(
                    listing(self@),
                    old_summary@,
                ) && d@.len() > 0,
                None => missing::<PlayerId, RankEntry>(listing(self@), old_summary@).len() == 0,
            },
    {
        let out = missing_from(&self.entries, old_summary);
        assert(held(out@).len() == out@.len());
        if out.len() == 0 {
            None
        } else {
            Some(out)
        }
    }

    pub fn apply_delta(
        &mut self,
        _parent: &LobbyStateV1,
        _params: &LobbyParametersV1,
        delta: &Option<Vec<RankEntry>>,
    ) -> (r: Result<(), String>)
        requires
            *delta matches Some(d) ==> all_incoming_valid::<(), RankEntry>(held(d@)),
        ensures
            match *delta {
                Some(d) => (final(self)@, fault(r)) == entries_after::<(), RankEntry>(
                    old(self)@,
                    held(d@),
                    (),
                ),
                None => r is Ok && final(self)@ == old(self)@,
            },
            all_entries_valid::<(), RankEntry>(old(self)@) ==> all_entries_valid::<(), RankEntry>(
                final(self)@,
            ),
    {
        match delta {
            Some(d) => self.take_in(d),
            None => Ok(()),
        }
    }

    /// Take in entries, up to the first bad one.
    pub fn take_in(&mut self, incoming: &Vec<RankEntry>) -> (r: Result<(), String>)
        requires
            all_incoming_valid::<(), RankEntry>(held(incoming@)),
        ensures
            (final(self)@, fault(r)) == entries_after::<(), RankEntry>(
                old(self)@,
                held(incoming@),
                (),
            ),
            all_entries_valid::<(), RankEntry>(old(self)@) ==> all_entries_valid::<(), RankEntry>(
                final(self)@,
            ),
    {
        take_in::<(), RankEntry>(&mut self.entries, &(), incoming)
    }
}

/// No rating is taken on faith: one that holds follows from ratings that its
/// player's opponent signed for.
pub proof fn law_ratings_follow_from_games(e: RankView)
    requires
        rank_fault(e) is None,
    ensures
        e.rating == rating_due(e),
        cert_fault(e.last_game) is None,
        color_for(e.last_game, id_of(e.player)) is Some,
{
}

/// A ranking that is pruned keeps no more players than it may, and the best,
/// where every player is filed under their handle.
pub proof fn law_the_best_stay(m: Map<PlayerId, RankView>, kept: PlayerId, dropped: PlayerId)
    requires
        m.dom().finite(),
        forall|k: PlayerId| #[trigger] m.contains_key(k) ==> id_of(m[k].player) == k,
    ensures
        ({
            let left = capped::<(), RankEntry>(m, LEADERBOARD_SIZE as nat);
            &&& listing(left).len() <= LEADERBOARD_SIZE
            &&& capped::<(), RankEntry>(left, LEADERBOARD_SIZE as nat) == left
            &&& left.contains_key(kept) && m.contains_key(dropped) && !left.contains_key(dropped)
                ==> m[kept].rating >= m[dropped].rating
        }),
{
    let order = entry_order::<(), RankEntry>();
    let left = capped::<(), RankEntry>(m, LEADERBOARD_SIZE as nat);
    assert forall|a: PlayerId, b: PlayerId|
        #![trigger m.contains_key(a), m.contains_key(b)]
        m.contains_key(a) && m.contains_key(b) && order(a, m[a]) == order(b, m[b]) implies a
        == b by {
        PlayerId::rank_decides(a, b);
    }
    crate::order::law_no_more_than_the_cap(m, order, LEADERBOARD_SIZE as nat);
    if left.contains_key(kept) && m.contains_key(dropped) && !left.contains_key(dropped) {
        crate::order::law_the_foremost_stay(m, order, LEADERBOARD_SIZE as nat, kept, dropped);
    }
}

/// An entry in the ranking is sound exactly where its player signed it under a
/// name, cites a certificate of a game of theirs, and has the rating that this
/// game made of theirs.
pub proof fn law_sound_ranks(e: RankView)
    ensures
        rank_fault(e) is None <==> {
            let me = id_of(e.player);
            &&& encode_utf8(e.nickname).len() as usize <= 32
            &&& !blank(e.nickname)
            &&& e.games_played >= 1
            &&& e.rating >= 100
            &&& crate::crypto::signature_fault(e.player.0, rank_bytes(e), e.signature.0) is None
            &&& cert_fault(e.last_game) is None
            &&& me == id_of(e.last_game.record.white) || me == id_of(e.last_game.record.black)
            &&& player_score(e.last_game, me) is Some
            &&& e.rating == rating_due(e)
        },
{
}

/// The rating due to a player is what their last game makes of the rating they
/// went into it with: their own side's, against the other side's, by what their
/// side scored, after one game fewer than they have played.
pub proof fn law_ratings_are_due_by_the_last_game(e: RankView)
    requires
        e.games_played >= 1,
        id_of(e.last_game.record.white) != id_of(e.last_game.record.black),
        white_score(e.last_game.record.result) is Some,
    ensures
        ({
            let d = e.last_game.record;
            let score = white_score(d.result)->0;
            &&& id_of(e.player) == id_of(d.white) ==> rating_due(e) == rating_after(
                d.white_rating_before as int,
                e.games_played - 1,
                d.black_rating_before as int,
                score,
            )
            &&& id_of(e.player) == id_of(d.black) ==> rating_due(e) == rating_after(
                d.black_rating_before as int,
                e.games_played - 1,
                d.white_rating_before as int,
                score.inverted(),
            )
        }),
{
}

/// Of a player's entries the one after more games counts, and after as many the
/// later one.
pub proof fn law_the_latest_rank_counts(a: RankView, b: RankView)
    ensures
        a.games_played > b.games_played ==> later_rank(a, b) && !later_rank(b, a),
        a.games_played == b.games_played && a.updated_at > b.updated_at ==> later_rank(a, b)
            && !later_rank(b, a),
        !later_rank(a, a),
{
}

/// The ranking has everybody who is in it once, the best first.
pub proof fn law_the_best_come_first(m: Map<PlayerId, RankView>, e: RankView)
    requires
        m.dom().finite(),
    ensures
        table(m).contains(e) <==> exists|k: PlayerId| #[trigger] m.contains_key(k) && m[k] == e,
        table(m).len() == m.dom().len(),
        forall|i: int, j: int|
            0 <= i < j < table(m).len() ==> (#[trigger] table(m)[i]).rating >= (
            #[trigger] table(m)[j]).rating,
{
    crate::lists::law_lists_of_all(m, best_first(), e);
    assert forall|i: int, j: int| 0 <= i < j < table(m).len() implies (
    #[trigger] table(m)[i]).rating >= (#[trigger] table(m)[j]).rating by {
        assert(!crate::order::before(best_first()(table(m)[j]), best_first()(table(m)[i])));
    }
}

/// A player's place counts from one, and whoever stands before them is rated at
/// least as high. Who is not in the ranking has none.
pub proof fn law_places_count_from_one(m: Map<PlayerId, RankView>, player: PlayerId)
    requires
        m.dom().finite(),
        forall|k: PlayerId| #[trigger] m.contains_key(k) ==> id_of(m[k].player) == k,
    ensures
        place_in_table(m, player) is Some <==> m.contains_key(player),
        m.contains_key(player) ==> {
            let n = place_in_table(m, player)->0;
            &&& 1 <= n <= m.dom().len()
            &&& table(m)[n - 1] == m[player]
            &&& forall|i: int| 0 <= i < n - 1 ==> (#[trigger] table(m)[i]).rating
                >= m[player].rating && id_of(table(m)[i].player) != player
        },
{
    let s = table(m);
    crate::prefix::lemma_leading(not_player(s, player), s.len());
    let n = leading(not_player(s, player), s.len());
    if n < s.len() {
        assert(!not_player(s, player)(n as int));
        law_the_best_come_first(m, s[n as int]);
        assert(s.contains(s[n as int]));
        assert forall|i: int| 0 <= i < n implies (#[trigger] s[i]).rating >= s[n as int].rating
            && id_of(s[i].player) != player by {
            assert(not_player(s, player)(i));
        }
    }
    if m.contains_key(player) {
        law_the_best_come_first(m, m[player]);
        assert(s.contains(m[player]));
        let i = choose|i: int| 0 <= i < s.len() && s[i] == m[player];
        assert(!not_player(s, player)(i));
    }
}

/// A leaderboard passes if it has at most two hundred entries, each sound and
/// filed under its player.
pub proof fn law_sound_boards(m: Map<PlayerId, RankView>)
    requires
        m.dom().finite(),
    ensures
        board_fault(m) is None <==> {
            &&& listing(m).len() <= 200
            &&& forall|k: PlayerId| #[trigger]
                m.contains_key(k) ==> id_of(m[k].player) == k && rank_fault(m[k]) is None
        },
{
    crate::ledger::lemma_checked_is_sound::<(), RankEntry>(m, ());
    if crate::ledger::sound_map::<(), RankEntry>(m, ()) {
        assert forall|k: PlayerId| #[trigger] m.contains_key(k) implies id_of(m[k].player) == k
            && rank_fault(m[k]) is None by {
            assert(<RankEntry as Entry<()>>::key_of(m[k]) == k);
        }
    }
}

/// Whoever has no place is rated as a newcomer, and whoever has one as it says.
pub proof fn law_newcomers_are_rated_alike(m: Map<PlayerId, RankView>, e: RankView)
    ensures
        rating_in(m.insert(id_of(e.player), e), id_of(e.player)) == e.rating,
        rating_in(m.remove(id_of(e.player)), id_of(e.player)) == 1200,
{
}

} // verus!
