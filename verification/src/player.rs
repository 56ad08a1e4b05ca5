//! A player's public page: the name they chose, and their certified games.

use crate::bytes::{le_i64, push_all, push_i64};
use crate::certificate::{
    cert_fault, color_for, opponent_rating, player_score, Certified, GameCertificate,
};
use crate::chess::board::all_valid;
use crate::crypto::{base58, Signature, SigningKey, VerifyingKey};
use crate::elo::{rating_from_history, rating_of, RatedGame, Score, STARTING_ELO};
use crate::game::setup::MAX_NICKNAME_LEN;
use crate::game::{
    domain, domain_bytes, push_text, sig_less, sig_rank, text_field, white_score, GameResult,
};
use crate::identity::{
    digest_of, id_of, sig_fault, signature_digest, verify_sig, GameId, PlayerId,
};
use crate::join::join;
use crate::ledger::{
    all_entries_valid, all_incoming_valid, capped, check_all, cut, entries_after, entries_fault,
    entry_over, law_capped_peers_agree, law_cut_maps_fit, law_peers_agree,
    law_sound_maps_stay_sound, lemma_capped_joins_in_any_order, lemma_checked_is_sound,
    lemma_checked_reconcile, lemma_cut_reconciles, lemma_joined_reconciles, lemma_turned, steady,
    take_in, told_apart, Entry,
};
use crate::lists::{all_values, arrange, refs_held, values_of};
use crate::order::{ordered, place_of};
use crate::sorted_map::{lemma_listing_views, listing, views, Ranked, SortedMap};
use crate::sync::{
    held, law_equal_peers_exchange_nothing, marks_of, missing, missing_from, summarize_map,
    Record,
};
use crate::text::{
    chars_of, control, digits, fault, is_control, join2, join3, push_decimal, same_chars,
    text_between, trim_chars, trimmed, with_number,
};
use vstd::prelude::*;
use vstd::string::*;
use vstd::utf8::encode_utf8;

verus! {

/// How many certified games a page keeps.
pub const PROFILE_HISTORY_SIZE: usize = 200;

/// The least length of a name.
pub const MIN_NICKNAME_LEN: usize = 2;

/// Whose page it is.
#[derive(Debug, Clone, Copy, PartialEq, Eq)]
pub struct PlayerParametersV1 {
    pub player: VerifyingKey,
}

impl PlayerParametersV1 {
    pub fn player_id(&self) -> (r: PlayerId)
        ensures
            r == id_of(self.player),
    {
        PlayerId::from(&self.player)
    }
}

/// What is wrong with a name, the first thing first.
pub open spec fn name_fault(name: Seq<char>) -> Option<Seq<char>> {
    if (encode_utf8(trimmed(name)).len() as usize) < MIN_NICKNAME_LEN {
        Some("nickname must be at least "@ + digits(MIN_NICKNAME_LEN as nat) + " characters"@)
    } else if encode_utf8(name).len() as usize > MAX_NICKNAME_LEN {
        Some("nickname must be at most "@ + digits(MAX_NICKNAME_LEN as nat) + " bytes"@)
    } else if trimmed(name) != name {
        Some("nickname must not have leading or trailing whitespace"@)
    } else if exists|i: int| 0 <= i < name.len() && control(#[trigger] name[i]) {
        Some("nickname must not contain control characters"@)
    } else {
        None
    }
}

fn has_control(cs: &Vec<char>) -> (r: bool)
    ensures
        r == (exists|i: int| 0 <= i < cs@.len() && control(#[trigger] cs@[i])),
{
    let mut i: usize = 0;
    while i < cs.len()
        invariant
            i <= cs@.len(),
            forall|j: int| 0 <= j < i ==> !control(#[trigger] cs@[j]),
        decreases cs.len() - i,
    {
        if is_control(cs[i]) {
            return true;
        }
        i = i + 1;
    }
    false
}

/// Check a name.
pub fn validate_nickname(nickname: &str) -> (r: Result<(), String>)
    ensures
        fault(r) == name_fault(nickname@),
{
    let cs = chars_of(nickname);
    let kept = trim_chars(&cs);
    let short = text_between(&kept, 0, kept.len());
    assert(kept@.subrange(0, kept@.len() as int) =~= kept@);
    if short.as_str().len() < MIN_NICKNAME_LEN {
        return Err(
            with_number("nickname must be at least ", MIN_NICKNAME_LEN as u128, " characters"),
        );
    }
    if nickname.len() > MAX_NICKNAME_LEN {
        return Err(with_number("nickname must be at most ", MAX_NICKNAME_LEN as u128, " bytes"));
    }
    if !same_chars(&kept, &cs) {
        return Err("nickname must not have leading or trailing whitespace".to_string());
    }
    if has_control(&cs) {
        return Err("nickname must not contain control characters".to_string());
    }
    Ok(())
}

/// A name that a player chose and signed. Names are labels; two players may
/// have the same.
#[derive(Debug, PartialEq, Eq)]
pub struct SignedProfile {
    pub nickname: String,
    pub updated_at: i64,
    pub signature: Signature,
}

impl Clone for SignedProfile {
    fn clone(&self) -> (r: Self)
        ensures
            r == *self,
    {
        SignedProfile {
            nickname: self.nickname.clone(),
            updated_at: self.updated_at,
            signature: self.signature,
        }
    }
}

/// What a player signs for a name.
pub open spec fn profile_bytes(player: VerifyingKey, nickname: Seq<char>, at: i64) -> Seq<u8> {
    domain("profile:"@) + player.0@ + text_field(nickname) + le_i64(at)
}

/// What is wrong with a chosen name on a player's page.
pub open spec fn profile_fault(p: SignedProfile, player: VerifyingKey) -> Option<Seq<char>> {
    if name_fault(p.nickname@) is Some {
        name_fault(p.nickname@)
    } else {
        sig_fault(player, profile_bytes(player, p.nickname@, p.updated_at), p.signature, "profile"@)
    }
}

/// Whether a chosen name is later than another: by time, then by their
/// signatures.
pub open spec fn later_profile(a: SignedProfile, b: SignedProfile) -> bool {
    a.updated_at > b.updated_at || (a.updated_at == b.updated_at && sig_rank(a.signature)
        > sig_rank(b.signature))
}

impl SignedProfile {
    fn signing_bytes(player: &VerifyingKey, nickname: &str, updated_at: i64) -> (r: Vec<u8>)
        ensures
            r@ == profile_bytes(*player, nickname@, updated_at),
    {
        let mut buf = domain_bytes("profile:");
        push_all(&mut buf, player.0.as_slice());
        push_text(&mut buf, nickname);
        push_i64(&mut buf, updated_at);
        buf
    }

    pub fn new(key: &SigningKey, nickname: String, updated_at: i64) -> (r: SignedProfile)
        ensures
            r.nickname == nickname,
            r.updated_at == updated_at,
            r.signature == key.signed(profile_bytes(key.public(), nickname@, updated_at)),
            name_fault(nickname@) is None ==> profile_fault(r, key.public()) is None,
    {
        let player = key.verifying_key();
        let message = SignedProfile::signing_bytes(&player, nickname.as_str(), updated_at);
        let signature = key.sign(message.as_slice());
        SignedProfile { nickname, updated_at, signature }
    }

    pub fn verify(&self, params: &PlayerParametersV1) -> (r: Result<(), String>)
        ensures
            fault(r) == profile_fault(*self, params.player),
    {
        match validate_nickname(self.nickname.as_str()) {
            Ok(()) => {},
            Err(e) => return Err(e),
        }
        let message = SignedProfile::signing_bytes(
            &params.player,
            self.nickname.as_str(),
            self.updated_at,
        );
        verify_sig(&params.player, message.as_slice(), &self.signature, "profile")
    }
}

/// The place of the name on a player's page.
#[derive(Debug, PartialEq, Eq)]
pub struct ProfileV1(pub Option<SignedProfile>);

impl Clone for ProfileV1 {
    fn clone(&self) -> (r: Self)
        ensures
            r == *self,
    {
        match &self.0 {
            Some(p) => ProfileV1(Some(p.clone())),
            None => ProfileV1(None),
        }
    }
}

impl Default for ProfileV1 {
    fn default() -> (r: Self)
        ensures
            r.0 is None,
    {
        ProfileV1(None)
    }
}

/// The first characters of a text, as many as it has.
pub open spec fn first_chars(s: Seq<char>, n: int) -> Seq<char> {
    if s.len() <= n {
        s
    } else {
        s.take(n)
    }
}

/// What a player is called: by the name they chose, else by the start of
/// their handle.
pub open spec fn shown_name(profile: Option<SignedProfile>, id: PlayerId) -> Seq<char> {
    match profile {
        Some(p) => p.nickname@,
        None => "player-"@ + first_chars(base58(id.0@), 6),
    }
}

/// Of two chosen names the later stays.
pub open spec fn absorb_profile(
    current: Option<SignedProfile>,
    incoming: SignedProfile,
) -> Option<SignedProfile> {
    match current {
        Some(p) => if later_profile(incoming, p) {
            Some(incoming)
        } else {
            current
        },
        None => Some(incoming),
    }
}

/// A page's name once one has come in, and what was wrong with it.
pub open spec fn profile_after(
    current: Option<SignedProfile>,
    incoming: SignedProfile,
    player: VerifyingKey,
) -> (Option<SignedProfile>, Option<Seq<char>>) {
    if profile_fault(incoming, player) is Some {
        (current, profile_fault(incoming, player))
    } else {
        (absorb_profile(current, incoming), None)
    }
}

/// What is told of a chosen name.
pub open spec fn profile_told(profile: Option<SignedProfile>) -> Option<u64> {
    match profile {
        Some(p) => Some(digest_of(p.signature)),
        None => None,
    }
}

/// What is sent of a chosen name.
pub open spec fn profile_change(profile: Option<SignedProfile>, told: Option<u64>) -> Option<
    SignedProfile,
> {
    if profile is Some && told == profile_told(profile) {
        None
    } else {
        profile
    }
}

impl ProfileV1 {
    pub fn get(&self) -> (r: Option<&SignedProfile>)
        ensures
            match r {
                Some(p) => self.0 == Some(*p),
                None => self.0 is None,
            },
    {
        self.0.as_ref()
    }

    /// What the player is called.
    pub fn nickname_or(&self, id: PlayerId) -> (r: String)
        ensures
            r@ == shown_name(self.0, id),
    {
        match &self.0 {
            Some(p) => p.nickname.clone(),
            None => {
                let name = id.to_base58();
                let cs = chars_of(name.as_str());
                let n: usize = if cs.len() < 6 {
                    cs.len()
                } else {
                    6
                };
                let short = text_between(&cs, 0, n);
                assert(cs@.subrange(0, n as int) =~= first_chars(cs@, 6));
                join2("player-", short.as_str())
            },
        }
    }

    fn absorb(&mut self, incoming: SignedProfile)
        ensures
            final(self).0 == absorb_profile(old(self).0, incoming),
    {
        let stays = match &self.0 {
            Some(p) => !(incoming.updated_at > p.updated_at || (incoming.updated_at == p.updated_at
                && sig_less(&p.signature, &incoming.signature))),
            None => false,
        };
        if !stays {
            self.0 = Some(incoming);
        }
    }

    pub fn verify(&self, _parent: &PlayerStateV1, params: &PlayerParametersV1) -> (r: Result<
        (),
        String,
    >)
        ensures
            fault(r) == (match self.0 {
                Some(p) => profile_fault(p, params.player),
                None => None,
            }),
    {
        match &self.0 {
            Some(p) => p.verify(params),
            None => Ok(()),
        }
    }

    pub fn summarize(&self, _parent: &PlayerStateV1, _params: &PlayerParametersV1) -> (r: Option<
        u64,
    >)
        ensures
            r == profile_told(self.0),
    {
        match &self.0 {
            Some(p) => Some(signature_digest(&p.signature)),
            None => None,
        }
    }

    pub fn delta(
        &self,
        _parent: &PlayerStateV1,
        _params: &PlayerParametersV1,
        old_summary: &Option<u64>,
    ) -> (r: Option<SignedProfile>)
        ensures
            r == profile_change(self.0, *old_summary),
    {
        match &self.0 {
            Some(p) => if *old_summary == Some(signature_digest(&p.signature)) {
                None
            } else {
                Some(p.clone())
            },
            None => None,
        }
    }

    pub fn apply_delta(
        &mut self,
        _parent: &PlayerStateV1,
        params: &PlayerParametersV1,
        delta: &Option<SignedProfile>,
    ) -> (r: Result<(), String>)
        ensures
            match *delta {
                Some(p) => (final(self).0, fault(r)) == profile_after(
                    old(self).0,
                    p,
                    params.player,
                ),
                None => r is Ok && final(self).0 == old(self).0,
            },
    {
        self.take_in(params, delta)
    }

    /// Take in a chosen name.
    pub fn take_in(&mut self, params: &PlayerParametersV1, delta: &Option<SignedProfile>) -> (r:
        Result<(), String>)
        ensures
            match *delta {
                Some(p) => (final(self).0, fault(r)) == profile_after(
                    old(self).0,
                    p,
                    params.player,
                ),
                None => r is Ok && final(self).0 == old(self).0,
            },
    {
        match delta {
            Some(p) => {
                match p.verify(params) {
                    Ok(()) => {},
                    Err(e) => return Err(e),
                }
                self.absorb(p.clone());
                Ok(())
            },
            None => Ok(()),
        }
    }
}

impl Record for GameCertificate {
    open spec fn mark_of(v: Certified) -> u64 {
        digest_of(v.white_signature)
    }

    fn read_mark(&self) -> (r: u64) {
        signature_digest(&self.white_signature)
    }

    fn duplicate(&self) -> (r: Self) {
        self.clone()
    }
}

/// What is wrong with a game that is filed on a player's page.
impl Entry<PlayerId> for GameCertificate {
    type Key = GameId;

    open spec fn key_of(v: Certified) -> GameId {
        v.record.game_id
    }

    fn read_key(&self) -> (r: GameId) {
        self.game_id
    }

    open spec fn replaces(a: Certified, b: Certified) -> bool {
        sig_rank(a.white_signature) < sig_rank(b.white_signature)
    }

    proof fn replacing_orders(a: Certified, b: Certified, c: Certified) {
    }

    fn takes_over(&self, other: &Self) -> (r: bool) {
        sig_less(&self.white_signature, &other.white_signature)
    }

    open spec fn valid(v: Certified) -> bool {
        all_valid(v.record.moves)
    }

    open spec fn entry_fault(v: Certified, place: PlayerId) -> Option<Seq<char>> {
        if cert_fault(v) is Some {
            cert_fault(v)
        } else if color_for(v, place) is None {
            Some(
                "refusing to file game "@ + base58(v.record.game_id.0@)
                    + " into a profile that did not play it"@,
            )
        } else {
            None
        }
    }

    fn check_entry(&self, place: &PlayerId) -> (r: Result<(), String>) {
        match self.verify() {
            Ok(()) => {},
            Err(e) => return Err(e),
        }
        if !self.involves(*place) {
            let name = self.game_id.to_base58();
            return Err(
                join3(
                    "refusing to file game ",
                    name.as_str(),
                    " into a profile that did not play it",
                ),
            );
        }
        Ok(())
    }

    open spec fn filed_fault(k: GameId, v: Certified, place: PlayerId) -> Option<Seq<char>> {
        if v.record.game_id != k {
            Some("certificate stored under the wrong game id"@)
        } else if cert_fault(v) is Some {
            cert_fault(v)
        } else if color_for(v, place) is None {
            Some(
                "history contains game "@ + base58(k.0@)
                    + ", which this player did not take part in"@,
            )
        } else {
            None
        }
    }

    fn check_filed(&self, k: &GameId, place: &PlayerId) -> (r: Result<(), String>) {
        if !self.game_id.same(k) {
            return Err("certificate stored under the wrong game id".to_string());
        }
        match self.verify() {
            Ok(()) => {},
            Err(e) => return Err(e),
        }
        if !self.involves(*place) {
            let name = k.to_base58();
            return Err(
                join3(
                    "history contains game ",
                    name.as_str(),
                    ", which this player did not take part in",
                ),
            );
        }
        Ok(())
    }

    open spec fn order_in(k: GameId, v: Certified) -> (int, int, nat) {
        (0, -v.record.finished_at, k.rank())
    }

    fn read_order(&self, k: &GameId) -> (r: (i128, i128, GameId)) {
        (0, -(self.finished_at as i128), *k)
    }

    proof fn filing_checks(k: GameId, v: Certified, place: PlayerId) {
    }

    proof fn places_differ(k: GameId, v: Certified, l: GameId, w: Certified) {
        GameId::rank_decides(k, l);
    }
}

/// The certified games of a page.
#[derive(Debug, PartialEq, Eq, Clone)]
pub struct HistoryV1 {
    pub games: SortedMap<GameId, GameCertificate>,
}

impl View for HistoryV1 {
    type V = Map<GameId, Certified>;

    open spec fn view(&self) -> Map<GameId, Certified> {
        views(self.games@)
    }
}

impl Default for HistoryV1 {
    fn default() -> (r: Self)
        ensures
            r@ == Map::<GameId, Certified>::empty(),
    {
        let r = HistoryV1 { games: SortedMap::new() };
        assert(r@ =~= Map::<GameId, Certified>::empty());
        r
    }
}

/// Certificates by when their games finished.
pub open spec fn oldest_first() -> spec_fn(Certified) -> (int, int, nat) {
    |c: Certified| (0int, c.record.finished_at as int, c.record.game_id.rank())
}

fn age_key(c: &GameCertificate) -> (k: (i128, i128, GameId))
    ensures
        place_of(k) == oldest_first()(c@),
{
    (0, c.finished_at as i128, c.game_id)
}

/// Certificates by when their games finished, the last first.
pub open spec fn newest_first() -> spec_fn(Certified) -> (int, int, nat) {
    |c: Certified| (0int, -(c.record.finished_at as int), c.record.game_id.rank())
}

/// The games of a list that a player played, as ratings see them.
pub open spec fn rated_games(games: Seq<Certified>, player: PlayerId) -> Seq<RatedGame>
    decreases games.len(),
{
    if games.len() == 0 {
        Seq::empty()
    } else {
        let rest = rated_games(games.drop_last(), player);
        match (opponent_rating(games.last(), player), player_score(games.last(), player)) {
            (Some(opponent_rating), Some(score)) => rest.push(
                RatedGame { opponent_rating, score },
            ),
            _ => rest,
        }
    }
}

/// How many games of a list a player scored so.
pub open spec fn times_scored(games: Seq<Certified>, player: PlayerId, score: Score) -> nat
    decreases games.len(),
{
    if games.len() == 0 {
        0
    } else {
        times_scored(games.drop_last(), player, score) + (if player_score(games.last(), player)
            == Some(score) {
            1nat
        } else {
            0
        })
    }
}

/// A count held to what 32 bits can tell.
pub open spec fn to_count(n: nat) -> nat {
    if n > u32::MAX {
        u32::MAX as nat
    } else {
        n
    }
}

fn count_on(n: u32, more: bool) -> (r: u32)
    ensures
        r == (if more && n < u32::MAX {
            n + 1
        } else {
            n as int
        }),
{
    if more && n < u32::MAX {
        n + 1
    } else {
        n
    }
}

/// How often a player won, drew and lost, in this order.
pub open spec fn score_record(games: Seq<Certified>, player: PlayerId) -> (nat, nat, nat) {
    (
        to_count(times_scored(games, player, Score::Win)),
        to_count(times_scored(games, player, Score::Draw)),
        to_count(times_scored(games, player, Score::Loss)),
    )
}

/// A player's rating by the games of their page, in the order they finished.
pub open spec fn history_rating(games: Map<GameId, Certified>, player: PlayerId) -> int {
    rating_of(rated_games(ordered(values_of(games), oldest_first()), player))
}

/// What is wrong with the games of a page.
pub open spec fn history_fault(games: Map<GameId, Certified>, player: PlayerId) -> Option<
    Seq<char>,
> {
    if listing(games).len() > PROFILE_HISTORY_SIZE {
        Some(
            "history holds "@ + digits(listing(games).len()) + " games, over the "@ + digits(
                PROFILE_HISTORY_SIZE as nat,
            ) + " cap"@,
        )
    } else {
        entries_fault::<PlayerId, GameCertificate>(games, player)
    }
}

impl HistoryV1 {
    pub fn len(&self) -> (r: usize)
        ensures
            r == listing(self@).len(),
            self@.dom().finite(),
    {
        let n = self.games.len();
        proof {
            lemma_listing_views(self.games@);
        }
        n
    }

    pub fn is_empty(&self) -> (r: bool)
        ensures
            r == (listing(self@).len() == 0),
    {
        self.len() == 0
    }

    /// The games in the order they finished.
    pub fn chronological(&self) -> (r: Vec<&GameCertificate>)
        ensures
            refs_held(r@) == ordered(values_of(self@), oldest_first()),
    {
        let all = all_values(&self.games);
        arrange(all, age_key, Ghost(oldest_first()))
    }

    /// The games in the order they finished, the last first.
    pub fn recent(&self) -> (r: Vec<&GameCertificate>)
        ensures
            refs_held(r@) == ordered(values_of(self@), oldest_first()).reverse(),
    {
        let all = self.chronological();
        let n = all.len();
        let mut out: Vec<&GameCertificate> = Vec::new();
        let mut i: usize = 0;
        while i < n
            invariant
                i <= n,
                n == all@.len(),
                out@.len() == i,
                forall|j: int| 0 <= j < i ==> (#[trigger] out@[j]) == all@[n - 1 - j],
            decreases n - i,
        {
            out.push(all[n - 1 - i]);
            i = i + 1;
        }
        assert(refs_held(out@) =~= refs_held(all@).reverse());
        out
    }

    /// A player's rating by these games.
    pub fn rating(&self, player: PlayerId) -> (r: i32)
        ensures
            r == history_rating(self@, player),
    {
        let games = self.chronological();
        let ghost all = refs_held(games@);
        let mut history: Vec<RatedGame> = Vec::new();
        let mut i: usize = 0;
        assert(all.take(0) =~= Seq::<Certified>::empty());
        while i < games.len()
            invariant
                i <= games@.len(),
                all == refs_held(games@),
                history@ == rated_games(all.take(i as int), player),
            decreases games.len() - i,
        {
            let c = games[i];
            assert(all.take(i + 1).drop_last() =~= all.take(i as int));
            assert(all.take(i + 1).last() == c@);
            match (c.opponent_rating_for(player), c.score_for(player)) {
                (Some(opponent_rating), Some(score)) => {
                    history.push(RatedGame { opponent_rating, score });
                },
                _ => {},
            }
            i = i + 1;
        }
        assert(all.take(all.len() as int) =~= all);
        rating_from_history(history.as_slice())
    }

    /// A player's wins, draws and losses among these games.
    pub fn record(&self, player: PlayerId) -> (r: (u32, u32, u32))
        ensures
            r.0 == to_count(times_scored(values_of(self@), player, Score::Win)),
            r.1 == to_count(times_scored(values_of(self@), player, Score::Draw)),
            r.2 == to_count(times_scored(values_of(self@), player, Score::Loss)),
            (r.0 as nat, r.1 as nat, r.2 as nat) == score_record(values_of(self@), player),
    {
        let games = all_values(&self.games);
        let ghost all = refs_held(games@);
        let mut wins: u32 = 0;
        let mut draws: u32 = 0;
        let mut losses: u32 = 0;
        let mut i: usize = 0;
        while i < games.len()
            invariant
                i <= games@.len(),
                all == refs_held(games@),
                wins == to_count(times_scored(all.take(i as int), player, Score::Win)),
                draws == to_count(times_scored(all.take(i as int), player, Score::Draw)),
                losses == to_count(times_scored(all.take(i as int), player, Score::Loss)),
            decreases games.len() - i,
        {
            let c = games[i];
            assert(all.take(i + 1).drop_last() =~= all.take(i as int));
            assert(all.take(i + 1).last() == c@);
            let score = c.score_for(player);
            wins = count_on(wins, score == Some(Score::Win));
            draws = count_on(draws, score == Some(Score::Draw));
            losses = count_on(losses, score == Some(Score::Loss));
            i = i + 1;
        }
        assert(all.take(all.len() as int) =~= all);
        (wins, draws, losses)
    }

    /// Keep the games that finished last.
    pub fn enforce_cap(&mut self)
        ensures
            final(self)@ == capped::<PlayerId, GameCertificate>(
                old(self)@,
                PROFILE_HISTORY_SIZE as nat,
            ),
            all_entries_valid::<PlayerId, GameCertificate>(old(self)@) ==> all_entries_valid::<
                PlayerId,
                GameCertificate,
            >(final(self)@),
    {
        cut::<PlayerId, GameCertificate>(&mut self.games, PROFILE_HISTORY_SIZE);
    }

    pub fn verify(&self, _parent: &PlayerStateV1, params: &PlayerParametersV1) -> (r: Result<
        (),
        String,
    >)
        requires
            all_entries_valid::<PlayerId, GameCertificate>(self@),
        ensures
            fault(r) == history_fault(self@, id_of(params.player)),
    {
        let n = self.len();
        if n > PROFILE_HISTORY_SIZE {
            let mut text = with_number("history holds ", n as u128, " games, over the ");
            push_decimal(&mut text, PROFILE_HISTORY_SIZE as u128);
            text.push_str(" cap");
            return Err(text);
        }
        check_all::<PlayerId, GameCertificate>(&self.games, &params.player_id())
    }

    pub fn summarize(&self, _parent: &PlayerStateV1, _params: &PlayerParametersV1) -> (r: Vec<
        (GameId, u64),
    >)
        ensures
            r@ == marks_of::<GameId, GameCertificate>(listing(self@)),
    {
        summarize_map(&self.games)
    }

    pub fn delta(
        &self,
        _parent: &PlayerStateV1,
        _params: &PlayerParametersV1,
        old_summary: &Vec<(GameId, u64)>,
    ) -> (r: Option<Vec<GameCertificate>>)
        ensures
            match r {
                Some(d) => held(d@) == missing::<GameId, GameCertificate>(
                    listing(self@),
                    old_summary@,
                ) && d@.len() > 0,
                None => missing::<GameId, GameCertificate>(listing(self@), old_summary@).len() == 0,
            },
    {
        let out = missing_from(&self.games, old_summary);
        assert(held(out@).len() == out@.len());
        if out.len() == 0 {
            None
        } else {
            Some(out)
        }
    }

    pub fn apply_delta(
        &mut self,
        _parent: &PlayerStateV1,
        params: &PlayerParametersV1,
        delta: &Option<Vec<GameCertificate>>,
    ) -> (r: Result<(), String>)
        requires
            *delta matches Some(d) ==> all_incoming_valid::<PlayerId, GameCertificate>(held(d@)),
        ensures
            match *delta {
                Some(d) => (final(self)@, fault(r)) == entries_after::<PlayerId, GameCertificate>(
                    old(self)@,
                    held(d@),
                    id_of(params.player),
                ),
                None => r is Ok && final(self)@ == old(self)@,
            },
            all_entries_valid::<PlayerId, GameCertificate>(old(self)@) ==> all_entries_valid::<
                PlayerId,
                GameCertificate,
            >(final(self)@),
    {
        match delta {
            Some(d) => take_in::<PlayerId, GameCertificate>(
                &mut self.games,
                &params.player_id(),
                d,
            ),
            None => Ok(()),
        }
    }
}

/// A player's page.
#[derive(Debug, PartialEq, Eq, Clone)]
pub struct PlayerStateV1 {
    pub profile: ProfileV1,
    pub history: HistoryV1,
}

/// What a player's page holds.
#[verifier::ext_equal]
pub struct PlayerView {
    pub profile: Option<SignedProfile>,
    pub history: Map<GameId, Certified>,
}

impl View for PlayerStateV1 {
    type V = PlayerView;

    open spec fn view(&self) -> PlayerView {
        PlayerView { profile: self.profile.0, history: self.history@ }
    }
}

impl PlayerView {
    /// Moves name squares of the board.
    pub open spec fn wf(self) -> bool {
        all_entries_valid::<PlayerId, GameCertificate>(self.history)
    }
}

impl Default for PlayerStateV1 {
    fn default() -> (r: Self)
        ensures
            r@ == (PlayerView { profile: None, history: Map::empty() }),
            r@.wf(),
    {
        PlayerStateV1 { profile: ProfileV1(None), history: HistoryV1::default() }
    }
}

/// What a peer tells of its copy of a page.
#[derive(Debug, PartialEq, Eq)]
pub struct PlayerStateV1Summary {
    pub profile: Option<u64>,
    pub history: Vec<(GameId, u64)>,
}

/// An update of a page.
#[derive(Debug, Clone, PartialEq, Eq)]
pub struct PlayerStateV1Delta {
    pub profile: Option<SignedProfile>,
    pub history: Option<Vec<GameCertificate>>,
}

/// What an update of a page holds.
#[verifier::ext_equal]
pub struct PlayerChange {
    pub profile: Option<SignedProfile>,
    pub history: Option<Seq<Certified>>,
}

impl View for PlayerStateV1Delta {
    type V = PlayerChange;

    open spec fn view(&self) -> PlayerChange {
        PlayerChange {
            profile: self.profile,
            history: match self.history {
                Some(v) => Some(held(v@)),
                None => None,
            },
        }
    }
}

impl PlayerChange {
    /// Moves name squares of the board.
    pub open spec fn wf(self) -> bool {
        self.history matches Some(s) ==> all_incoming_valid::<PlayerId, GameCertificate>(s)
    }
}

impl Default for PlayerStateV1Delta {
    fn default() -> (r: Self)
        ensures
            r@ == (PlayerChange { profile: None, history: None }),
    {
        PlayerStateV1Delta { profile: None, history: None }
    }
}

/// What is sent to one who told of a copy of a page.
pub open spec fn player_change(
    p: PlayerView,
    told_profile: Option<u64>,
    told_history: Seq<(GameId, u64)>,
) -> Option<PlayerChange> {
    let profile = profile_change(p.profile, told_profile);
    let history = missing::<GameId, GameCertificate>(listing(p.history), told_history);
    if profile is None && history.len() == 0 {
        None
    } else {
        Some(
            PlayerChange {
                profile,
                history: if history.len() == 0 {
                    None
                } else {
                    Some(history)
                },
            },
        )
    }
}

/// What is left of a page.
pub open spec fn player_pruned(p: PlayerView) -> PlayerView {
    PlayerView {
        history: capped::<PlayerId, GameCertificate>(p.history, PROFILE_HISTORY_SIZE as nat),
        ..p
    }
}

/// A page once an update has come in, and what was wrong with it.
pub open spec fn player_after(p: PlayerView, d: PlayerChange, player: VerifyingKey) -> (
    PlayerView,
    Option<Seq<char>>,
) {
    let (profile, e1) = match d.profile {
        Some(incoming) => profile_after(p.profile, incoming, player),
        None => (p.profile, None),
    };
    let p1 = PlayerView { profile, ..p };
    if e1 is Some {
        (p1, e1)
    } else {
        let (history, e2) = match d.history {
            Some(incoming) => entries_after::<PlayerId, GameCertificate>(
                p.history,
                incoming,
                id_of(player),
            ),
            None => (p.history, None),
        };
        let p2 = PlayerView { history, ..p1 };
        if e2 is Some {
            (p2, e2)
        } else {
            (player_pruned(p2), None)
        }
    }
}

/// What is wrong with a page.
pub open spec fn player_fault(p: PlayerView, player: VerifyingKey) -> Option<Seq<char>> {
    let e = match p.profile {
        Some(profile) => profile_fault(profile, player),
        None => None,
    };
    if e is Some {
        e
    } else {
        history_fault(p.history, id_of(player))
    }
}

/// A page once it has taken in what another copy holds.
pub open spec fn player_merged(p: PlayerView, other: PlayerView, player: VerifyingKey) -> (
    PlayerView,
    Option<Seq<char>>,
) {
    match player_change(
        other,
        profile_told(p.profile),
        marks_of::<GameId, GameCertificate>(listing(p.history)),
    ) {
        Some(d) => player_after(p, d, player),
        None => (p, None),
    }
}

impl PlayerStateV1 {
    pub fn prune(&mut self, _params: &PlayerParametersV1) -> (r: Result<(), String>)
        ensures
            r is Ok,
            final(self)@ == player_pruned(old(self)@),
            old(self)@.wf() ==> final(self)@.wf(),
    {
        self.history.enforce_cap();
        Ok(())
    }

    /// What the player is called.
    pub fn nickname(&self, id: PlayerId) -> (r: String)
        ensures
            r@ == shown_name(self@.profile, id),
    {
        self.profile.nickname_or(id)
    }

    /// The player's rating: that of a newcomer where there are no games.
    pub fn rating(&self, id: PlayerId) -> (r: i32)
        ensures
            r == (if listing(self@.history).len() == 0 {
                STARTING_ELO as int
            } else {
                history_rating(self@.history, id)
            }),
    {
        if self.history.is_empty() {
            return STARTING_ELO;
        }
        self.history.rating(id)
    }

    pub fn games_played(&self) -> (r: u32)
        ensures
            r == (listing(self@.history).len() as usize) as u32,
    {
        self.history.len() as u32
    }

    pub fn verify(&self, parent: &PlayerStateV1, params: &PlayerParametersV1) -> (r: Result<
        (),
        String,
    >)
        requires
            self@.wf(),
        ensures
            fault(r) == player_fault(self@, params.player),
    {
        match self.profile.verify(parent, params) {
            Ok(()) => {},
            Err(e) => return Err(e),
        }
        self.history.verify(parent, params)
    }

    /// What to tell of this copy.
    pub fn summarize(&self, parent: &PlayerStateV1, params: &PlayerParametersV1) -> (r:
        PlayerStateV1Summary)
        ensures
            r.profile == profile_told(self@.profile),
            r.history@ == marks_of::<GameId, GameCertificate>(listing(self@.history)),
    {
        PlayerStateV1Summary {
            profile: self.profile.summarize(parent, params),
            history: self.history.summarize(parent, params),
        }
    }

    /// What to send to a peer that told of its copy.
    pub fn delta(
        &self,
        parent: &PlayerStateV1,
        params: &PlayerParametersV1,
        old_summary: &PlayerStateV1Summary,
    ) -> (r: Option<PlayerStateV1Delta>)
        ensures
            match r {
                Some(d) => player_change(self@, old_summary.profile, old_summary.history@) == Some(
                    d@,
                ),
                None => player_change(self@, old_summary.profile, old_summary.history@) is None,
            },
    {
        let profile = self.profile.delta(parent, params, &old_summary.profile);
        let history = self.history.delta(parent, params, &old_summary.history);
        if profile.is_none() && history.is_none() {
            None
        } else {
            Some(PlayerStateV1Delta { profile, history })
        }
    }

    /// Take in an update.
    pub fn apply_delta(
        &mut self,
        parent: &PlayerStateV1,
        params: &PlayerParametersV1,
        delta: &Option<PlayerStateV1Delta>,
    ) -> (r: Result<(), String>)
        requires
            *delta matches Some(d) ==> d@.wf(),
        ensures
            match *delta {
                Some(d) => (final(self)@, fault(r)) == player_after(old(self)@, d@, params.player),
                None => r is Ok && final(self)@ == old(self)@,
            },
            old(self)@.wf() ==> final(self)@.wf(),
    {
        match delta {
            Some(d) => {
                match self.profile.take_in(params, &d.profile) {
                    Ok(()) => {},
                    Err(e) => return Err(e),
                }
                match self.history.apply_delta(parent, params, &d.history) {
                    Ok(()) => {},
                    Err(e) => return Err(e),
                }
                self.prune(params)
            },
            None => Ok(()),
        }
    }

    /// Take in what another copy holds.
    pub fn merge(
        &mut self,
        parent: &PlayerStateV1,
        params: &PlayerParametersV1,
        other: &PlayerStateV1,
    ) -> (r: Result<(), String>)
        requires
            other@.wf(),
        ensures
            (final(self)@, fault(r)) == player_merged(old(self)@, other@, params.player),
            old(self)@.wf() ==> final(self)@.wf(),
    {
        let told = self.summarize(parent, params);
        let delta = other.delta(parent, params, &told);
        let _ = other.history.len();
        proof {
            crate::ledger::lemma_sent_entries_valid::<PlayerId, GameCertificate>(
                other.history@,
                told.history@,
            );
        }
        self.apply_delta(parent, params, &delta)
    }
}

/// Two chosen names come in alike in either order. Where two share time and
/// signature they must be one.
pub proof fn law_profiles_commute(
    current: Option<SignedProfile>,
    a: SignedProfile,
    b: SignedProfile,
)
    requires
        a.updated_at == b.updated_at && sig_rank(a.signature) == sig_rank(b.signature) ==> a == b,
    ensures
        absorb_profile(absorb_profile(current, a), b) == absorb_profile(
            absorb_profile(current, b),
            a,
        ),
        absorb_profile(absorb_profile(current, a), a) == absorb_profile(current, a),
{
}

/// A copy that merges one like itself stays as it is.
pub proof fn law_merging_a_like_page_changes_nothing(p: PlayerView, player: VerifyingKey)
    requires
        p.history.dom().finite(),
    ensures
        player_merged(p, p, player) == (p, None::<Seq<char>>),
{
    law_equal_peers_exchange_nothing::<GameId, GameCertificate>(p.history);
}

/// A page that is pruned keeps no more games than it may, and those that
/// finished last.
pub proof fn law_pages_keep_the_newest(p: PlayerView, kept: GameId, dropped: GameId)
    requires
        p.history.dom().finite(),
    ensures
        listing(player_pruned(p).history).len() <= PROFILE_HISTORY_SIZE,
        player_pruned(player_pruned(p)) == player_pruned(p),
        player_pruned(p).history.contains_key(kept) && p.history.contains_key(dropped)
            && !player_pruned(p).history.contains_key(dropped) ==> p.history[kept].record.finished_at
            >= p.history[dropped].record.finished_at,
{
    let order = crate::ledger::entry_order::<PlayerId, GameCertificate>();
    assert forall|a: GameId, b: GameId|
        #![trigger p.history.contains_key(a), p.history.contains_key(b)]
        p.history.contains_key(a) && p.history.contains_key(b) && order(a, p.history[a]) == order(
            b,
            p.history[b],
        ) implies a == b by {
        GameId::rank_decides(a, b);
    }
    crate::order::law_no_more_than_the_cap(p.history, order, PROFILE_HISTORY_SIZE as nat);
    if player_pruned(p).history.contains_key(kept) && p.history.contains_key(dropped)
        && !player_pruned(p).history.contains_key(dropped) {
        crate::order::law_the_foremost_stay(
            p.history,
            order,
            PROFILE_HISTORY_SIZE as nat,
            kept,
            dropped,
        );
    }
}

/// A page that passes the check passes it still once an update has come in.
pub proof fn law_updates_keep_pages_valid(p: PlayerView, d: PlayerChange, player: VerifyingKey)
    requires
        p.history.dom().finite(),
        player_fault(p, player) is None,
        player_after(p, d, player).1 is None,
    ensures
        player_fault(player_after(p, d, player).0, player) is None,
{
    let id = id_of(player);
    lemma_checked_is_sound::<PlayerId, GameCertificate>(p.history, id);
    let history = match d.history {
        Some(incoming) => {
            law_sound_maps_stay_sound::<PlayerId, GameCertificate>(p.history, incoming, id);
            entries_after::<PlayerId, GameCertificate>(p.history, incoming, id).0
        },
        None => p.history,
    };
    let cap = PROFILE_HISTORY_SIZE as nat;
    law_cut_maps_fit::<PlayerId, GameCertificate>(history, id, cap);
    lemma_checked_is_sound::<PlayerId, GameCertificate>(
        capped::<PlayerId, GameCertificate>(history, cap),
        id,
    );
}

/// Whether the names on two copies of a page can be told apart: what shares a
/// mark, or time and signature, is one name.
pub open spec fn names_told_apart(a: Option<SignedProfile>, b: Option<SignedProfile>) -> bool {
    a is Some && b is Some ==> {
        &&& profile_told(a) == profile_told(b) ==> a == b
        &&& a->0.updated_at == b->0.updated_at && sig_rank(a->0.signature) == sig_rank(
            b->0.signature,
        ) ==> a == b
    }
}

/// Two copies of a page that merge each other are the same.
pub proof fn law_pages_agree(a: PlayerView, b: PlayerView, player: VerifyingKey)
    requires
        a.history.dom().finite(),
        b.history.dom().finite(),
        player_fault(a, player) is None,
        player_fault(b, player) is None,
        names_told_apart(a.profile, b.profile),
        told_apart::<PlayerId, GameCertificate>(a.history, b.history),
    ensures
        player_merged(a, b, player) == player_merged(b, a, player),
        player_merged(a, b, player).1 is None,
        player_merged(a, b, player).0.history == capped::<PlayerId, GameCertificate>(
            join(a.history, b.history, entry_over::<PlayerId, GameCertificate>()),
            PROFILE_HISTORY_SIZE as nat,
        ),
{
    let id = id_of(player);
    let cap = PROFILE_HISTORY_SIZE as nat;
    lemma_checked_reconcile::<PlayerId, GameCertificate>(a.history, b.history, id);
    law_capped_peers_agree::<PlayerId, GameCertificate>(a.history, b.history, id, cap);
    law_peers_agree::<PlayerId, GameCertificate>(a.history, b.history, id);
    assert(player_merged(a, b, player).0 =~= player_merged(b, a, player).0);
}

/// Of two names the later.
pub open spec fn names_joined(
    a: Option<SignedProfile>,
    b: Option<SignedProfile>,
) -> Option<SignedProfile> {
    match b {
        Some(p) => absorb_profile(a, p),
        None => a,
    }
}

/// Two copies of a page as one.
pub open spec fn pages_joined(a: PlayerView, b: PlayerView) -> PlayerView {
    PlayerView {
        profile: names_joined(a.profile, b.profile),
        history: capped::<PlayerId, GameCertificate>(
            join(a.history, b.history, entry_over::<PlayerId, GameCertificate>()),
            PROFILE_HISTORY_SIZE as nat,
        ),
    }
}

/// Whether two copies of a page are in order and can be told apart.
pub open spec fn pages_told_apart(a: PlayerView, b: PlayerView, player: VerifyingKey) -> bool {
    &&& a.history.dom().finite() && b.history.dom().finite()
    &&& player_fault(a, player) is None
    &&& player_fault(b, player) is None
    &&& names_told_apart(a.profile, b.profile)
    &&& told_apart::<PlayerId, GameCertificate>(a.history, b.history)
}

proof fn lemma_merging_joins_pages(a: PlayerView, b: PlayerView, player: VerifyingKey)
    requires
        pages_told_apart(a, b, player),
    ensures
        player_merged(a, b, player) == (pages_joined(a, b), None::<Seq<char>>),
{
    let id = id_of(player);
    let cap = PROFILE_HISTORY_SIZE as nat;
    lemma_checked_reconcile::<PlayerId, GameCertificate>(a.history, b.history, id);
    law_capped_peers_agree::<PlayerId, GameCertificate>(a.history, b.history, id, cap);
    law_peers_agree::<PlayerId, GameCertificate>(a.history, b.history, id);
    assert(player_merged(a, b, player).0 =~= pages_joined(a, b));
}

/// Two copies as one can be told apart from whatever either can.
proof fn lemma_joined_pages_told_apart(
    a: PlayerView,
    b: PlayerView,
    c: PlayerView,
    player: VerifyingKey,
)
    requires
        pages_told_apart(a, b, player),
        pages_told_apart(b, c, player),
        pages_told_apart(a, c, player),
    ensures
        pages_told_apart(pages_joined(a, b), c, player),
        pages_told_apart(a, pages_joined(b, c), player),
{
    let id = id_of(player);
    let cap = PROFILE_HISTORY_SIZE as nat;
    let over = entry_over::<PlayerId, GameCertificate>();
    lemma_checked_reconcile::<PlayerId, GameCertificate>(a.history, b.history, id);
    lemma_checked_reconcile::<PlayerId, GameCertificate>(b.history, c.history, id);
    lemma_checked_reconcile::<PlayerId, GameCertificate>(a.history, c.history, id);
    lemma_joined_reconciles::<PlayerId, GameCertificate>(a.history, b.history, c.history, id);
    let x = join(a.history, b.history, over);
    let y = join(b.history, c.history, over);
    lemma_cut_reconciles::<PlayerId, GameCertificate>(x, c.history, id, cap);
    lemma_turned::<PlayerId, GameCertificate>(a.history, y, id);
    lemma_cut_reconciles::<PlayerId, GameCertificate>(y, a.history, id, cap);
    lemma_checked_is_sound::<PlayerId, GameCertificate>(pages_joined(a, b).history, id);
    lemma_checked_is_sound::<PlayerId, GameCertificate>(pages_joined(b, c).history, id);
}

/// Three copies of a page hold the same once they have merged one another,
/// whichever two merge first. Left out are two certificates of one game where
/// the one that stays finished before the other, and there is no room for all.
pub proof fn law_pages_merge_in_any_order(
    a: PlayerView,
    b: PlayerView,
    c: PlayerView,
    player: VerifyingKey,
)
    requires
        pages_told_apart(a, b, player),
        pages_told_apart(b, c, player),
        pages_told_apart(a, c, player),
        steady::<PlayerId, GameCertificate>(
            a.history,
            b.history,
            c.history,
            PROFILE_HISTORY_SIZE as nat,
        ),
    ensures
        player_merged(player_merged(a, b, player).0, c, player).1 is None,
        player_merged(player_merged(a, b, player).0, c, player) == player_merged(
            a,
            player_merged(b, c, player).0,
            player,
        ),
{
    let id = id_of(player);
    let cap = PROFILE_HISTORY_SIZE as nat;
    lemma_merging_joins_pages(a, b, player);
    lemma_merging_joins_pages(b, c, player);
    lemma_joined_pages_told_apart(a, b, c, player);
    let x = pages_joined(a, b);
    let y = pages_joined(b, c);
    lemma_merging_joins_pages(x, c, player);
    lemma_merging_joins_pages(a, y, player);
    assert(pages_joined(x, c).profile == pages_joined(a, y).profile);
    assert(pages_joined(x, c).history == pages_joined(a, y).history) by {
        lemma_checked_reconcile::<PlayerId, GameCertificate>(a.history, b.history, id);
        lemma_checked_reconcile::<PlayerId, GameCertificate>(b.history, c.history, id);
        lemma_checked_reconcile::<PlayerId, GameCertificate>(a.history, c.history, id);
        lemma_capped_joins_in_any_order::<PlayerId, GameCertificate>(
            a.history,
            b.history,
            c.history,
            cap,
        );
    }
    assert(pages_joined(x, c) =~= pages_joined(a, y));
}

/// A copy of a page that was merged already adds nothing, with the same left
/// out.
pub proof fn law_merging_a_page_again_changes_nothing(
    a: PlayerView,
    b: PlayerView,
    player: VerifyingKey,
)
    requires
        pages_told_apart(a, b, player),
        pages_told_apart(b, b, player),
        steady::<PlayerId, GameCertificate>(
            a.history,
            b.history,
            b.history,
            PROFILE_HISTORY_SIZE as nat,
        ),
    ensures
        player_merged(player_merged(a, b, player).0, b, player) == player_merged(a, b, player),
{
    law_pages_merge_in_any_order(a, b, b, player);
    law_merging_a_like_page_changes_nothing(b, player);
}

/// A name is one exactly where it has at least two bytes and at most 32, no white
/// space around it, and no character that controls.
pub proof fn law_sound_names(name: Seq<char>)
    ensures
        name_fault(name) is None <==> {
            &&& trimmed(name) == name
            &&& 2 <= encode_utf8(name).len() as usize <= 32
            &&& forall|i: int| 0 <= i < name.len() ==> !control(#[trigger] name[i])
        },
{
}

/// A profile is taken in exactly where its name is one and its player signed it.
pub proof fn law_sound_profiles(p: SignedProfile, player: VerifyingKey)
    ensures
        profile_fault(p, player) is None <==> {
            &&& name_fault(p.nickname@) is None
            &&& crate::crypto::signature_fault(
                player.0,
                profile_bytes(player, p.nickname@, p.updated_at),
                p.signature.0,
            ) is None
        },
{
}

/// The last profile that a player signed counts, and a player is called by it.
pub proof fn law_the_last_profile_counts(p: SignedProfile, q: SignedProfile, id: PlayerId)
    ensures
        absorb_profile(None, q) == Some(q),
        q.updated_at > p.updated_at ==> absorb_profile(Some(p), q) == Some(q),
        q.updated_at < p.updated_at ==> absorb_profile(Some(p), q) == Some(p),
        shown_name(Some(p), id) == p.nickname@,
{
}

/// Who has no profile is called a player, and by the first six characters of
/// their handle.
pub proof fn law_players_without_a_profile_have_a_name(id: PlayerId)
    requires
        base58(id.0@).len() >= 6,
    ensures
        shown_name(None, id) == "player-"@ + base58(id.0@).take(6),
{
}

/// A game is filed in a player's history exactly where its certificate holds and
/// they had a side in it.
pub proof fn law_sound_histories(c: Certified, k: GameId, player: PlayerId)
    ensures
        <GameCertificate as Entry<PlayerId>>::filed_fault(k, c, player) is None <==> {
            &&& c.record.game_id == k
            &&& cert_fault(c) is None
            &&& player == id_of(c.record.white) || player == id_of(c.record.black)
        },
        <GameCertificate as Entry<PlayerId>>::entry_fault(c, player) is None <==> {
            &&& cert_fault(c) is None
            &&& player == id_of(c.record.white) || player == id_of(c.record.black)
        },
{
}

/// A history is read in the order in which the games finished.
pub proof fn law_histories_are_read_in_order(games: Map<GameId, Certified>, c: Certified)
    requires
        games.dom().finite(),
    ensures
        ({
            let list = ordered(values_of(games), oldest_first());
            &&& list.contains(c) <==> exists|k: GameId| #[trigger]
                games.contains_key(k) && games[k] == c
            &&& list.len() == games.dom().len()
            &&& forall|i: int, j: int|
                0 <= i < j < list.len() ==> (#[trigger] list[i]).record.finished_at <= (
                #[trigger] list[j]).record.finished_at
        }),
{
    let list = ordered(values_of(games), oldest_first());
    crate::lists::law_lists_of_all(games, oldest_first(), c);
    assert forall|i: int, j: int| 0 <= i < j < list.len() implies (
    #[trigger] list[i]).record.finished_at <= (#[trigger] list[j]).record.finished_at by {
        assert(!crate::order::before(oldest_first()(list[j]), oldest_first()(list[i])));
    }
}

/// Every game of a history in which its player scored is rated, in its order,
/// against what the opponent was rated; no other is.
pub proof fn law_every_scored_game_is_rated(games: Seq<Certified>, c: Certified, player: PlayerId)
    requires
        id_of(c.record.white) != id_of(c.record.black),
    ensures
        ({
            let before = rated_games(games, player);
            let after = rated_games(games.push(c), player);
            let score = white_score(c.record.result);
            &&& player == id_of(c.record.white) && score is Some ==> after == before.push(
                RatedGame { opponent_rating: c.record.black_rating_before, score: score->0 },
            )
            &&& player == id_of(c.record.black) && score is Some ==> after == before.push(
                RatedGame {
                    opponent_rating: c.record.white_rating_before,
                    score: score->0.inverted(),
                },
            )
            &&& score is None || (player != id_of(c.record.white) && player != id_of(
                c.record.black,
            )) ==> after == before
        }),
{
    assert(games.push(c).drop_last() =~= games);
}

/// The rating of a history is that of its games in their order, one after the
/// other, from a newcomer's on.
pub proof fn law_one_more_game_moves_a_rating(
    games: Seq<Certified>,
    c: Certified,
    player: PlayerId,
)
    requires
        id_of(c.record.white) != id_of(c.record.black),
        white_score(c.record.result) is Some,
        rated_games(games, player).len() <= u32::MAX,
    ensures
        ({
            let before = rating_of(rated_games(games, player));
            let played = rated_games(games, player).len() as int;
            let after = rating_of(rated_games(games.push(c), player));
            let d = c.record;
            &&& player == id_of(d.white) ==> after == crate::elo::rating_after(
                before,
                played,
                d.black_rating_before as int,
                white_score(d.result)->0,
            )
            &&& player == id_of(d.black) ==> after == crate::elo::rating_after(
                before,
                played,
                d.white_rating_before as int,
                white_score(d.result)->0.inverted(),
            )
        }),
{
    law_every_scored_game_is_rated(games, c, player);
    let before = rated_games(games, player);
    let after = rated_games(games.push(c), player);
    if after.len() == before.len() + 1 {
        assert(after =~= before.push(after.last()));
        crate::elo::law_every_game_of_a_history_counts(before, after.last());
    }
}

/// A win is counted as a win, a draw as a draw and a loss as a loss, each once,
/// for whoever had the side.
pub proof fn law_every_score_is_counted_once(
    games: Seq<Certified>,
    c: Certified,
    player: PlayerId,
    score: Score,
)
    ensures
        times_scored(Seq::empty(), player, score) == 0,
        player_score(c, player) == Some(score) ==> times_scored(games.push(c), player, score)
            == times_scored(games, player, score) + 1,
        player_score(c, player) != Some(score) ==> times_scored(games.push(c), player, score)
            == times_scored(games, player, score),
{
    assert(games.push(c).drop_last() =~= games);
}

/// A page passes if the player signed its profile and it holds at most two
/// hundred games, each sound and their own, filed under its name.
pub proof fn law_sound_pages(p: PlayerView, player: VerifyingKey)
    requires
        p.history.dom().finite(),
    ensures
        player_fault(p, player) is None <==> {
            &&& p.profile is Some ==> profile_fault(p.profile->0, player) is None
            &&& listing(p.history).len() <= 200
            &&& forall|k: GameId| #[trigger]
                p.history.contains_key(k) ==> p.history[k].record.game_id == k && cert_fault(
                    p.history[k],
                ) is None && (id_of(player) == id_of(p.history[k].record.white) || id_of(player)
                    == id_of(p.history[k].record.black))
        },
{
    let m = p.history;
    crate::ledger::lemma_checked_is_sound::<PlayerId, GameCertificate>(m, id_of(player));
    if crate::ledger::sound_map::<PlayerId, GameCertificate>(m, id_of(player)) {
        assert forall|k: GameId| #[trigger] m.contains_key(k) implies m[k].record.game_id == k
            && cert_fault(m[k]) is None && (id_of(player) == id_of(m[k].record.white) || id_of(
            player,
        ) == id_of(m[k].record.black)) by {
            assert(<GameCertificate as Entry<PlayerId>>::key_of(m[k]) == k);
        }
    }
}

/// An update of a page brings in the later profile.
pub proof fn law_page_updates_bring_the_later_profile(
    p: PlayerView,
    d: PlayerChange,
    player: VerifyingKey,
)
    requires
        player_after(p, d, player).1 is None,
    ensures
        ({
            let r = player_after(p, d, player).0;
            &&& d.profile is None ==> r.profile == p.profile
            &&& d.profile is Some ==> {
                &&& profile_fault(d.profile->0, player) is None
                &&& r.profile is Some && (r.profile == p.profile || r.profile == d.profile)
                &&& (r.profile->0).updated_at >= (d.profile->0).updated_at
                &&& p.profile is Some ==> (r.profile->0).updated_at >= (p.profile->0).updated_at
            }
        }),
{
}

/// An update of a page brings in each of its games, while there is room for two
/// hundred, and one without games takes none away.
pub proof fn law_page_updates_bring_their_games(
    p: PlayerView,
    d: PlayerChange,
    player: VerifyingKey,
    i: int,
)
    requires
        player_after(p, d, player).1 is None,
        d.history is Some ==> 0 <= i < (d.history->0).len(),
    ensures
        ({
            let r = player_after(p, d, player).0;
            &&& d.history is None && listing(p.history).len() <= 200 ==> r.history == p.history
            &&& d.history is Some && listing(
                entries_after::<PlayerId, GameCertificate>(
                    p.history,
                    d.history->0,
                    id_of(player),
                ).0,
            ).len() <= 200 ==> r.history.contains_key((d.history->0)[i].record.game_id)
        }),
{
    if d.history is Some {
        crate::ledger::law_all_good_entries_come_in::<PlayerId, GameCertificate>(
            p.history,
            d.history->0,
            id_of(player),
        );
        assert(<GameCertificate as Entry<PlayerId>>::key_of((d.history->0)[i])
            == (d.history->0)[i].record.game_id);
    }
}

/// Everything that a page has untold is sent, and nothing where all was told.
pub proof fn law_pages_send_what_was_not_told(
    p: PlayerView,
    profile: Option<u64>,
    games: Seq<(GameId, u64)>,
    i: int,
)
    requires
        0 <= i < listing(p.history).len(),
        crate::sync::told(games, listing(p.history)[i].0) != Some(
            digest_of(listing(p.history)[i].1.white_signature),
        ),
    ensures
        ({
            let d = player_change(p, profile, games);
            &&& d is Some && (d->0).history is Some
            &&& ((d->0).history->0).contains(listing(p.history)[i].1)
            &&& p.profile is Some && profile != Some(digest_of((p.profile->0).signature)) ==> (
            d->0).profile == p.profile
        }),
{
    crate::sync::law_untold_records_are_sent::<GameId, GameCertificate>(
        listing(p.history),
        games,
        i,
    );
}

/// One more game adds one to what its side of the board came to: a win first, a
/// draw in the middle and a loss last.
pub proof fn law_records_list_wins_draws_and_losses(
    games: Seq<Certified>,
    c: Certified,
    player: PlayerId,
)
    requires
        id_of(c.record.white) != id_of(c.record.black),
        games.len() < u32::MAX,
    ensures
        ({
            let (w, d, l) = score_record(games, player);
            let after = score_record(games.push(c), player);
            let (won, lost) = match c.record.result {
                GameResult::WhiteWins(_) => (
                    player == id_of(c.record.white),
                    player == id_of(c.record.black),
                ),
                GameResult::BlackWins(_) => (
                    player == id_of(c.record.black),
                    player == id_of(c.record.white),
                ),
                _ => (false, false),
            };
            let drew = c.record.result is Draw && (player == id_of(c.record.white) || player
                == id_of(c.record.black));
            &&& won ==> after == (w + 1, d, l)
            &&& drew ==> after == (w, d + 1, l)
            &&& lost ==> after == (w, d, l + 1)
            &&& !won && !drew && !lost ==> after == (w, d, l)
        }),
        score_record(Seq::empty(), player) == (0nat, 0nat, 0nat),
{
    lemma_scored_at_most(games, player, Score::Win);
    lemma_scored_at_most(games, player, Score::Draw);
    lemma_scored_at_most(games, player, Score::Loss);
    law_every_score_is_counted_once(games, c, player, Score::Win);
    law_every_score_is_counted_once(games, c, player, Score::Draw);
    law_every_score_is_counted_once(games, c, player, Score::Loss);
}

proof fn lemma_scored_at_most(games: Seq<Certified>, player: PlayerId, score: Score)
    ensures
        times_scored(games, player, score) <= games.len(),
    decreases games.len(),
{
    if games.len() > 0 {
        lemma_scored_at_most(games.drop_last(), player, score);
    }
}

} // verus!
