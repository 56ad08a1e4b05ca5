//! A game as the lobby lists it.

use crate::bytes::{be_value, le32, le_i64, push_all, push_i64, push_u32, read_be64};
use crate::certificate::{result_tag, tag_of_result};
use crate::chess::{Color, STARTING_FEN};
use crate::crypto::{blake3_digest, blake3_hash, Signature, SigningKey, VerifyingKey};
use crate::game::opponent::{seat_fault, SignedAcceptance};
use crate::game::setup::{setup_fault, SignedGameSetup, TimeControl};
use crate::game::{
    domain, domain_bytes, over, push_text, sig_less, sig_rank, text_field,
    ChessGameParametersV1, GameResult,
};
use crate::identity::{id_of, sig_fault, verify_sig, GameId, PlayerId};
use crate::sync::Record;
use crate::text::fault;
use vstd::prelude::*;
use vstd::string::*;
use vstd::utf8::encode_utf8;

verus! {

/// How long the position in a snapshot may be, in bytes.
pub const MAX_FEN_LEN: usize = 100;

/// Where a game stands, as one of its players last said.
#[derive(Debug, PartialEq, Eq)]
pub struct SignedSnapshot {
    pub fen: String,
    pub ply: u32,
    pub result: GameResult,
    pub white_ms: i64,
    pub black_ms: i64,
    pub updated_at: i64,
    pub author: VerifyingKey,
    pub signature: Signature,
}

impl Clone for SignedSnapshot {
    fn clone(&self) -> (r: Self)
        ensures
            r == *self,
    {
        SignedSnapshot {
            fen: self.fen.clone(),
            ply: self.ply,
            result: self.result,
            white_ms: self.white_ms,
            black_ms: self.black_ms,
            updated_at: self.updated_at,
            author: self.author,
            signature: self.signature,
        }
    }
}

/// What a player signs for a snapshot.
pub open spec fn snapshot_bytes(game_id: GameId, s: SignedSnapshot) -> Seq<u8> {
    domain("snapshot:"@) + game_id.0@ + text_field(s.fen@) + le32(s.ply) + seq![
        tag_of_result(s.result),
    ] + le_i64(s.white_ms) + le_i64(s.black_ms) + le_i64(s.updated_at)
}

/// What is wrong with a snapshot, given who plays.
pub open spec fn snapshot_fault(
    s: SignedSnapshot,
    game_id: GameId,
    players: Seq<VerifyingKey>,
) -> Option<Seq<char>> {
    if encode_utf8(s.fen@).len() as usize > MAX_FEN_LEN {
        Some("snapshot FEN is implausibly long"@)
    } else if !players.contains(s.author) {
        Some("snapshot signed by someone who is not a player in this game"@)
    } else {
        sig_fault(s.author, snapshot_bytes(game_id, s), s.signature, "snapshot"@)
    }
}

/// Whether a snapshot tells of a later moment than another: by move, then by
/// time, then by their signatures.
pub open spec fn snapshot_later(a: SignedSnapshot, b: SignedSnapshot) -> bool {
    a.ply > b.ply || (a.ply == b.ply && (a.updated_at > b.updated_at || (a.updated_at
        == b.updated_at && sig_rank(a.signature) > sig_rank(b.signature))))
}

impl SignedSnapshot {
    fn signing_bytes(&self, game_id: &GameId) -> (r: Vec<u8>)
        ensures
            r@ == snapshot_bytes(*game_id, *self),
    {
        let mut buf = domain_bytes("snapshot:");
        push_all(&mut buf, game_id.0.as_slice());
        push_text(&mut buf, self.fen.as_str());
        push_u32(&mut buf, self.ply);
        let ghost head = buf@;
        buf.push(result_tag(self.result));
        assert(buf@ =~= head + seq![tag_of_result(self.result)]);
        push_i64(&mut buf, self.white_ms);
        push_i64(&mut buf, self.black_ms);
        push_i64(&mut buf, self.updated_at);
        buf
    }

    pub fn new(
        key: &SigningKey,
        game_id: &GameId,
        fen: String,
        ply: u32,
        result: GameResult,
        white_ms: i64,
        black_ms: i64,
        updated_at: i64,
    ) -> (r: SignedSnapshot)
        ensures
            r.fen == fen,
            r.ply == ply,
            r.result == result,
            r.white_ms == white_ms,
            r.black_ms == black_ms,
            r.updated_at == updated_at,
            r.author == key.public(),
            r.signature == key.signed(snapshot_bytes(*game_id, r)),
            sig_fault(r.author, snapshot_bytes(*game_id, r), r.signature, "snapshot"@) is None,
    {
        let author = key.verifying_key();
        let mut s = SignedSnapshot {
            fen,
            ply,
            result,
            white_ms,
            black_ms,
            updated_at,
            author,
            signature: Signature(vstd::array::array_fill_for_copy_types::<u8, 64>(0)),
        };
        let message = s.signing_bytes(game_id);
        s.signature = key.sign(message.as_slice());
        assert(snapshot_bytes(*game_id, s) == message@);
        s
    }

    pub fn verify(&self, game_id: &GameId, players: &Vec<VerifyingKey>) -> (r: Result<(), String>)
        ensures
            fault(r) == snapshot_fault(*self, *game_id, players@),
    {
        if self.fen.as_str().len() > MAX_FEN_LEN {
            return Err("snapshot FEN is implausibly long".to_string());
        }
        if !has_player(players, &self.author) {
            return Err("snapshot signed by someone who is not a player in this game".to_string());
        }
        let message = self.signing_bytes(game_id);
        verify_sig(&self.author, message.as_slice(), &self.signature, "snapshot")
    }

    fn is_later_than(&self, other: &SignedSnapshot) -> (r: bool)
        ensures
            r == snapshot_later(*self, *other),
    {
        self.ply > other.ply || (self.ply == other.ply && (self.updated_at > other.updated_at || (
        self.updated_at == other.updated_at && sig_less(&other.signature, &self.signature))))
    }
}

fn has_player(players: &Vec<VerifyingKey>, key: &VerifyingKey) -> (r: bool)
    ensures
        r == players@.contains(*key),
{
    let mut i: usize = 0;
    while i < players.len()
        invariant
            i <= players@.len(),
            forall|j: int| 0 <= j < i ==> players@[j] != *key,
        decreases players.len() - i,
    {
        if players[i].same(key) {
            return true;
        }
        i = i + 1;
    }
    false
}

/// A game in the lobby.
#[derive(Debug, PartialEq, Eq)]
pub struct LobbyEntry {
    pub game_id: GameId,
    pub setup: SignedGameSetup,
    /// Who took the second seat.
    pub opponent: Option<SignedAcceptance>,
    pub snapshot: Option<SignedSnapshot>,
}

impl Clone for LobbyEntry {
    fn clone(&self) -> (r: Self)
        ensures
            r == *self,
    {
        LobbyEntry {
            game_id: self.game_id,
            setup: self.setup.clone(),
            opponent: match &self.opponent {
                Some(a) => Some(a.clone()),
                None => None,
            },
            snapshot: match &self.snapshot {
                Some(s) => Some(s.clone()),
                None => None,
            },
        }
    }
}

impl View for LobbyEntry {
    type V = LobbyEntry;

    open spec fn view(&self) -> LobbyEntry {
        *self
    }
}

/// A signature that may be missing, as it goes into a mark.
pub open spec fn seal(signature: Option<Signature>) -> Seq<u8> {
    match signature {
        Some(s) => seq![1u8] + s.0@,
        None => seq![0u8],
    }
}

fn push_seal(out: &mut Vec<u8>, signature: Option<Signature>)
    ensures
        final(out)@ == old(out)@ + seal(signature),
{
    let ghost start = out@;
    match signature {
        Some(s) => {
            out.push(1);
            push_all(out, s.0.as_slice());
        },
        None => out.push(0),
    }
    assert(out@ =~= start + seal(signature));
}

/// What the mark of a listing is made of: all of it that can change.
pub open spec fn entry_seals(e: LobbyEntry) -> Seq<u8> {
    seal(
        match e.opponent {
            Some(a) => Some(a.signature),
            None => None,
        },
    ) + seal(
        match e.snapshot {
            Some(s) => Some(s.signature),
            None => None,
        },
    )
}

impl Record for LobbyEntry {
    open spec fn mark_of(v: LobbyEntry) -> u64 {
        be_value(blake3_digest(entry_seals(v))@.take(8)) as u64
    }

    fn read_mark(&self) -> (r: u64) {
        let mut buf: Vec<u8> = Vec::new();
        push_seal(
            &mut buf,
            match &self.opponent {
                Some(a) => Some(a.signature),
                None => None,
            },
        );
        push_seal(
            &mut buf,
            match &self.snapshot {
                Some(s) => Some(s.signature),
                None => None,
            },
        );
        assert(buf@ =~= entry_seals(*self));
        let hash = blake3_hash(buf.as_slice());
        let value = read_be64(hash.as_slice(), 0);
        assert(hash@.subrange(0, 8) =~= hash@.take(8));
        value
    }

    fn duplicate(&self) -> (r: Self) {
        self.clone()
    }
}

/// A listing's result, as far as the lobby knows it.
pub open spec fn listed_result(e: LobbyEntry) -> GameResult {
    match e.snapshot {
        Some(s) => s.result,
        None => if e.opponent is Some {
            GameResult::InProgress
        } else {
            GameResult::AwaitingOpponent
        },
    }
}

/// Whether a game has found an opponent and is not over.
pub open spec fn listed_live(e: LobbyEntry) -> bool {
    e.opponent is Some && !over(listed_result(e))
}

/// What stands for a player who is not there yet.
pub const NOBODY: &'static str = "\u{2014}";

/// The name of the second player.
pub open spec fn challenger_name(e: LobbyEntry) -> Seq<char> {
    match e.opponent {
        Some(a) => a.join.nickname@,
        None => NOBODY@,
    }
}

/// White's name and Black's.
pub open spec fn listed_names(e: LobbyEntry) -> (Seq<char>, Seq<char>) {
    match e.setup.setup.creator_plays {
        Color::White => (e.setup.setup.creator_nickname@, challenger_name(e)),
        Color::Black => (challenger_name(e), e.setup.setup.creator_nickname@),
    }
}

/// When something last happened in a game, as far as the lobby knows.
pub open spec fn activity(e: LobbyEntry) -> i64 {
    match e.snapshot {
        Some(s) => s.updated_at,
        None => match e.opponent {
            Some(a) => a.join.joined_at,
            None => e.setup.setup.created_at,
        },
    }
}

/// Where a listed game stands: at its start where nothing is known.
pub open spec fn listed_fen(e: LobbyEntry) -> Seq<char> {
    match e.snapshot {
        Some(s) => s.fen@,
        None => STARTING_FEN@,
    }
}

/// Who plays a listed game.
pub open spec fn listed_players(e: LobbyEntry) -> Seq<VerifyingKey> {
    match e.opponent {
        Some(a) => seq![e.setup.creator, a.join.player],
        None => seq![e.setup.creator],
    }
}

/// What is wrong with a listing, the first thing first.
pub open spec fn listing_fault(e: LobbyEntry) -> Option<Seq<char>> {
    let params = ChessGameParametersV1 { creator: e.setup.creator, game_id: e.game_id };
    let seat = match e.opponent {
        Some(a) => seat_fault(a, Some(e.setup), params),
        None => None,
    };
    if setup_fault(e.setup, params) is Some {
        setup_fault(e.setup, params)
    } else if seat is Some {
        seat
    } else {
        match e.snapshot {
            Some(s) => snapshot_fault(s, e.game_id, listed_players(e)),
            None => None,
        }
    }
}

/// Of two acceptances, the one whose signature comes first stays.
pub open spec fn seat_merged(
    mine: Option<SignedAcceptance>,
    theirs: Option<SignedAcceptance>,
) -> Option<SignedAcceptance> {
    match (mine, theirs) {
        (Some(a), Some(b)) => if sig_rank(b.signature) < sig_rank(a.signature) {
            theirs
        } else {
            mine
        },
        (None, _) => theirs,
        _ => mine,
    }
}

/// Of two snapshots, the later stays.
pub open spec fn snapshot_merged(
    mine: Option<SignedSnapshot>,
    theirs: Option<SignedSnapshot>,
) -> Option<SignedSnapshot> {
    match (mine, theirs) {
        (Some(a), Some(b)) => if snapshot_later(b, a) {
            theirs
        } else {
            mine
        },
        (None, _) => theirs,
        _ => mine,
    }
}

/// A listing with what another of the same game knows.
pub open spec fn entry_merged(mine: LobbyEntry, theirs: LobbyEntry) -> LobbyEntry {
    LobbyEntry {
        opponent: seat_merged(mine.opponent, theirs.opponent),
        snapshot: snapshot_merged(mine.snapshot, theirs.snapshot),
        ..mine
    }
}

impl LobbyEntry {
    /// A game that waits for an opponent.
    pub fn new(game_id: GameId, setup: SignedGameSetup) -> (r: LobbyEntry)
        ensures
            r == (LobbyEntry { game_id, setup, opponent: None, snapshot: None }),
    {
        LobbyEntry { game_id, setup, opponent: None, snapshot: None }
    }

    pub fn creator(&self) -> (r: VerifyingKey)
        ensures
            r == self.setup.creator,
    {
        self.setup.creator
    }

    pub fn creator_id(&self) -> (r: PlayerId)
        ensures
            r == id_of(self.setup.creator),
    {
        PlayerId::from(&self.setup.creator)
    }

    pub fn created_at(&self) -> (r: i64)
        ensures
            r == self.setup.setup.created_at,
    {
        self.setup.setup.created_at
    }

    pub fn time_control(&self) -> (r: TimeControl)
        ensures
            r == self.setup.setup.time_control,
    {
        self.setup.setup.time_control
    }

    /// Whether the game waits for an opponent.
    pub fn is_open(&self) -> (r: bool)
        ensures
            r == (self.opponent is None),
    {
        self.opponent.is_none()
    }

    pub fn is_live(&self) -> (r: bool)
        ensures
            r == listed_live(*self),
    {
        self.opponent.is_some() && !self.result().is_over()
    }

    pub fn result(&self) -> (r: GameResult)
        ensures
            r == listed_result(*self),
    {
        match &self.snapshot {
            Some(s) => s.result,
            None => if self.opponent.is_some() {
                GameResult::InProgress
            } else {
                GameResult::AwaitingOpponent
            },
        }
    }

    fn player_keys(&self) -> (r: Vec<VerifyingKey>)
        ensures
            r@ == listed_players(*self),
    {
        let mut keys: Vec<VerifyingKey> = Vec::new();
        keys.push(self.setup.creator);
        match &self.opponent {
            Some(a) => keys.push(a.join.player),
            None => {},
        }
        assert(keys@ =~= listed_players(*self));
        keys
    }

    /// White's name and Black's, a dash where there is no opponent yet.
    pub fn nicknames(&self) -> (r: (String, String))
        ensures
            (r.0@, r.1@) == listed_names(*self),
    {
        let creator = self.setup.setup.creator_nickname.clone();
        let challenger = match &self.opponent {
            Some(a) => a.join.nickname.clone(),
            None => NOBODY.to_string(),
        };
        match self.setup.setup.creator_plays {
            Color::White => (creator, challenger),
            Color::Black => (challenger, creator),
        }
    }

    /// Where the game stands: at its start where nothing is known.
    pub fn fen(&self) -> (r: String)
        ensures
            r@ == (match self.snapshot {
                Some(s) => s.fen@,
                None => STARTING_FEN@,
            }),
            r@ == listed_fen(*self),
    {
        match &self.snapshot {
            Some(s) => s.fen.clone(),
            None => STARTING_FEN.to_string(),
        }
    }

    pub fn last_activity(&self) -> (r: i64)
        ensures
            r == activity(*self),
    {
        match &self.snapshot {
            Some(s) => s.updated_at,
            None => match &self.opponent {
                Some(a) => a.join.joined_at,
                None => self.created_at(),
            },
        }
    }

    pub fn verify(&self) -> (r: Result<(), String>)
        ensures
            fault(r) == listing_fault(*self),
    {
        let params = ChessGameParametersV1 { creator: self.setup.creator, game_id: self.game_id };
        match self.setup.verify(&params) {
            Ok(()) => {},
            Err(e) => return Err(e),
        }
        match &self.opponent {
            Some(a) => {
                match a.verify(&params) {
                    Ok(()) => {},
                    Err(e) => return Err(e),
                }
                let turned_away = match &self.setup.setup.challenged {
                    Some(key) => !key.same(&a.join.player),
                    None => false,
                };
                if turned_away {
                    return Err(
                        "this game is a direct challenge to a different player".to_string(),
                    );
                }
            },
            None => {},
        }
        match &self.snapshot {
            Some(s) => s.verify(&self.game_id, &self.player_keys()),
            None => Ok(()),
        }
    }

    /// Take over what another listing of the same game knows.
    pub fn absorb(&mut self, other: LobbyEntry)
        ensures
            *final(self) == entry_merged(*old(self), other),
    {
        let keep_seat = match (&self.opponent, &other.opponent) {
            (Some(a), Some(b)) => !sig_less(&b.signature, &a.signature),
            (None, _) => false,
            _ => true,
        };
        let keep_snapshot = match (&self.snapshot, &other.snapshot) {
            (Some(a), Some(b)) => !b.is_later_than(a),
            (None, _) => false,
            _ => true,
        };
        let LobbyEntry { game_id: _, setup: _, opponent, snapshot } = other;
        if !keep_seat {
            self.opponent = opponent;
        }
        if !keep_snapshot {
            self.snapshot = snapshot;
        }
    }
}

/// Whether two listings of a game can be told apart by their signatures: what
/// bears one signature is one thing.
pub open spec fn seals_tell(a: LobbyEntry, b: LobbyEntry) -> bool {
    &&& (a.opponent is Some && b.opponent is Some && sig_rank(a.opponent->0.signature) == sig_rank(
        b.opponent->0.signature,
    ) ==> a.opponent == b.opponent)
    &&& (a.snapshot is Some && b.snapshot is Some && !snapshot_later(a.snapshot->0, b.snapshot->0)
        && !snapshot_later(b.snapshot->0, a.snapshot->0) ==> a.snapshot == b.snapshot)
}

/// Listings of one game merge alike in any order, and merging twice is merging
/// once.
pub proof fn law_listings_merge_alike(a: LobbyEntry, b: LobbyEntry, c: LobbyEntry)
    requires
        a.game_id == b.game_id && b.game_id == c.game_id,
        a.setup == b.setup && b.setup == c.setup,
        seals_tell(a, b) && seals_tell(b, c) && seals_tell(a, c),
    ensures
        entry_merged(a, b) == entry_merged(b, a),
        entry_merged(entry_merged(a, b), c) == entry_merged(a, entry_merged(b, c)),
        entry_merged(entry_merged(a, b), b) == entry_merged(a, b),
{
}

} // verus!
