//! The terms of a game, signed by its creator, and the work that creating one
//! takes.

use super::{
    domain, domain_bytes, push_text, text_field, ChessGameParametersV1, ChessGameStateV1,
};
use crate::bytes::{le32, le64, le_i64, push_all, push_i64, push_u32, push_u64};
use crate::chess::types::Color;
use crate::crypto::{blake3_digest, blake3_hash, Signature, SigningKey, VerifyingKey};
use crate::identity::{sig_fault, verify_sig, GameId};
use crate::text::{digits, fault, push_decimal, with_number};
use vstd::prelude::*;
use vstd::string::*;
use vstd::utf8::encode_utf8;

verus! {

/// How many leading zero bits a game's name must have.
pub const POW_DIFFICULTY_BITS: u32 = 16;

pub const MIN_INITIAL_SECS: u32 = 10;

pub const MAX_INITIAL_SECS: u32 = 86_400;

pub const MAX_INCREMENT_SECS: u32 = 300;

/// The longest nickname, in bytes.
pub const MAX_NICKNAME_LEN: usize = 32;

/// The clock settings of a game.
#[derive(Debug, Clone, Copy, PartialEq, Eq, Structural)]
pub struct TimeControl {
    /// Each player's time at the start, in seconds.
    pub initial_secs: u32,
    /// Seconds added after each move.
    pub increment_secs: u32,
}

impl Default for TimeControl {
    fn default() -> (r: Self)
        ensures
            r == (TimeControl { initial_secs: 600, increment_secs: 0 }),
    {
        TimeControl { initial_secs: 600, increment_secs: 0 }
    }
}

/// What is wrong with clock settings.
pub open spec fn time_fault(tc: TimeControl) -> Option<Seq<char>> {
    if !(MIN_INITIAL_SECS <= tc.initial_secs <= MAX_INITIAL_SECS) {
        Some(
            "initial time "@ + digits(tc.initial_secs as nat) + "s outside "@ + digits(
                MIN_INITIAL_SECS as nat,
            ) + "..="@ + digits(MAX_INITIAL_SECS as nat),
        )
    } else if tc.increment_secs > MAX_INCREMENT_SECS {
        Some(
            "increment "@ + digits(tc.increment_secs as nat) + "s exceeds "@ + digits(
                MAX_INCREMENT_SECS as nat,
            ),
        )
    } else {
        None
    }
}

/// How long a game is taken to last: each player's time, and the increment of
/// forty moves.
pub open spec fn estimated_secs(tc: TimeControl) -> int {
    tc.initial_secs + 40 * tc.increment_secs
}

pub open spec fn time_category(tc: TimeControl) -> Seq<char> {
    let estimated = estimated_secs(tc);
    if estimated < 180 {
        "Bullet"@
    } else if estimated < 600 {
        "Blitz"@
    } else if estimated < 1800 {
        "Rapid"@
    } else {
        "Classical"@
    }
}

/// Clock settings as chess sites write them, such as `10+5`.
pub open spec fn time_label(tc: TimeControl) -> Seq<char> {
    digits((tc.initial_secs / 60) as nat) + "+"@ + digits(tc.increment_secs as nat)
}

impl TimeControl {
    pub fn verify(&self) -> (r: Result<(), String>)
        ensures
            fault(r) == time_fault(*self),
    {
        if !(MIN_INITIAL_SECS <= self.initial_secs && self.initial_secs <= MAX_INITIAL_SECS) {
            let mut text = with_number("initial time ", self.initial_secs as u128, "s outside ");
            push_decimal(&mut text, MIN_INITIAL_SECS as u128);
            text.push_str("..=");
            push_decimal(&mut text, MAX_INITIAL_SECS as u128);
            return Err(text);
        }
        if self.increment_secs > MAX_INCREMENT_SECS {
            let mut text = with_number("increment ", self.increment_secs as u128, "s exceeds ");
            push_decimal(&mut text, MAX_INCREMENT_SECS as u128);
            return Err(text);
        }
        Ok(())
    }

    pub fn label(&self) -> (r: String)
        ensures
            r@ == time_label(*self),
    {
        let mut out = String::new();
        push_decimal(&mut out, (self.initial_secs / 60) as u128);
        out.push_str("+");
        push_decimal(&mut out, self.increment_secs as u128);
        assert(out@ =~= time_label(*self));
        out
    }

    pub fn category(&self) -> (r: &'static str)
        ensures
            r@ == time_category(*self),
    {
        let estimated: u64 = self.initial_secs as u64 + 40 * self.increment_secs as u64;
        if estimated < 180 {
            "Bullet"
        } else if estimated < 600 {
            "Blitz"
        } else if estimated < 1800 {
            "Rapid"
        } else {
            "Classical"
        }
    }
}

/// The terms of a game. All of them go into its name and under its creator's
/// signature.
#[derive(Debug, PartialEq, Eq)]
pub struct GameSetup {
    /// The side the creator takes.
    pub creator_plays: Color,
    pub time_control: TimeControl,
    /// When the game was created, in Unix milliseconds.
    pub created_at: i64,
    /// What the search for the game's name found.
    pub pow_nonce: u64,
    /// The name the creator goes by.
    pub creator_nickname: String,
    /// The only player who may take the other side, if there is one.
    pub challenged: Option<VerifyingKey>,
}

impl Clone for GameSetup {
    fn clone(&self) -> (r: Self)
        ensures
            r == *self,
    {
        GameSetup {
            creator_plays: self.creator_plays,
            time_control: self.time_control,
            created_at: self.created_at,
            pow_nonce: self.pow_nonce,
            creator_nickname: self.creator_nickname.clone(),
            challenged: self.challenged,
        }
    }
}

pub open spec fn color_tag(c: Color) -> u8 {
    match c {
        Color::White => 0,
        Color::Black => 1,
    }
}

pub open spec fn optional_key(key: Option<VerifyingKey>) -> Seq<u8> {
    match key {
        Some(k) => seq![1u8] + k.0@,
        None => seq![0u8],
    }
}

/// The side, the clock and the time as bytes.
pub open spec fn opening_bytes(s: GameSetup) -> Seq<u8> {
    seq![color_tag(s.creator_plays)] + le32(s.time_control.initial_secs) + le32(
        s.time_control.increment_secs,
    ) + le_i64(s.created_at)
}

/// The terms as bytes, but for the nonce.
pub open spec fn term_bytes(s: GameSetup) -> Seq<u8> {
    opening_bytes(s) + optional_key(s.challenged) + text_field(s.creator_nickname@)
}

/// What is hashed for a game's name, but for the nonce at its end.
pub open spec fn name_prefix(s: GameSetup, creator: VerifyingKey) -> Seq<u8> {
    domain("gameid:"@) + creator.0@ + term_bytes(s)
}

/// The name of a game with these terms.
pub open spec fn game_id_of(s: GameSetup, creator: VerifyingKey) -> GameId {
    GameId(blake3_digest(name_prefix(s, creator) + le64(s.pow_nonce)))
}

/// What the creator signs.
pub open spec fn setup_bytes(s: GameSetup, game_id: GameId) -> Seq<u8> {
    domain("setup:"@) + game_id.0@ + opening_bytes(s) + le64(s.pow_nonce) + text_field(
        s.creator_nickname@,
    ) + optional_key(s.challenged)
}

/// How many zero bits a byte starts with.
pub open spec fn zero_bits_of_byte(b: u8) -> nat {
    if b >= 128 {
        0
    } else if b >= 64 {
        1
    } else if b >= 32 {
        2
    } else if b >= 16 {
        3
    } else if b >= 8 {
        4
    } else if b >= 4 {
        5
    } else if b >= 2 {
        6
    } else if b >= 1 {
        7
    } else {
        8
    }
}

/// How many zero bits a byte string starts with.
pub open spec fn zero_bits(s: Seq<u8>) -> nat
    decreases s.len(),
{
    if s.len() == 0 {
        0
    } else if s[0] != 0 {
        zero_bits_of_byte(s[0])
    } else {
        8 + zero_bits(s.skip(1))
    }
}

/// How many zero bits a digest starts with.
pub fn leading_zero_bits(bytes: &[u8]) -> (r: u32)
    requires
        bytes@.len() * 8 <= u32::MAX,
    ensures
        r == zero_bits(bytes@),
{
    let mut count: u32 = 0;
    let mut i: usize = 0;
    assert(bytes@.skip(0) =~= bytes@);
    while i < bytes.len()
        invariant
            i <= bytes@.len(),
            bytes@.len() * 8 <= u32::MAX,
            count == 8 * i,
            zero_bits(bytes@) == count + zero_bits(bytes@.skip(i as int)),
        decreases bytes.len() - i,
    {
        let b: u8 = bytes[i];
        assert(bytes@.skip(i as int).skip(1) =~= bytes@.skip(i + 1));
        if b != 0 {
            let zeros: u32 = if b >= 128 {
                0
            } else if b >= 64 {
                1
            } else if b >= 32 {
                2
            } else if b >= 16 {
                3
            } else if b >= 8 {
                4
            } else if b >= 4 {
                5
            } else if b >= 2 {
                6
            } else {
                7
            };
            return count + zeros;
        }
        count = count + 8;
        i = i + 1;
    }
    count
}

/// Whether a digest shows enough work.
pub open spec fn enough_work(digest: [u8; 32]) -> bool {
    zero_bits(digest@) >= POW_DIFFICULTY_BITS
}

/// The first nonce, if there is one, with which a digest shows enough work.
pub open spec fn first_nonce(prefix: Seq<u8>, nonce: u64) -> bool {
    &&& forall|n: u64| n < nonce ==> !enough_work(#[trigger] blake3_digest(prefix + le64(n)))
    &&& enough_work(blake3_digest(prefix + le64(nonce))) || nonce == u64::MAX
}

/// Search for a nonce with which the digest of `prefix` and the nonce shows
/// enough work. Where none does, the search ends at the last.
pub fn search_nonce(prefix: Vec<u8>) -> (r: u64)
    ensures
        first_nonce(prefix@, r),
{
    let ghost start = prefix@;
    let mut buf = prefix;
    let fixed: usize = buf.len();
    let mut nonce: u64 = 0;
    assert(start.take(start.len() as int) =~= start);
    loop
        invariant
            start == prefix@,
            buf@.len() >= fixed,
            fixed == start.len(),
            buf@.take(fixed as int) == start,
            forall|n: u64| n < nonce ==> !enough_work(#[trigger] blake3_digest(start + le64(n))),
        decreases u64::MAX - nonce,
    {
        buf.truncate(fixed);
        assert(buf@ =~= start);
        push_u64(&mut buf, nonce);
        assert(buf@.take(fixed as int) =~= start);
        let digest = blake3_hash(buf.as_slice());
        if leading_zero_bits(digest.as_slice()) >= POW_DIFFICULTY_BITS || nonce == u64::MAX {
            return nonce;
        }
        nonce = nonce + 1;
    }
}

fn push_opening(buf: &mut Vec<u8>, s: &GameSetup)
    ensures
        final(buf)@ == old(buf)@ + opening_bytes(*s),
{
    let ghost start = buf@;
    buf.push(
        match s.creator_plays {
            Color::White => 0,
            Color::Black => 1,
        },
    );
    push_u32(buf, s.time_control.initial_secs);
    push_u32(buf, s.time_control.increment_secs);
    push_i64(buf, s.created_at);
    assert(buf@ =~= start + opening_bytes(*s));
}

fn push_optional_key(buf: &mut Vec<u8>, key: &Option<VerifyingKey>)
    ensures
        final(buf)@ == old(buf)@ + optional_key(*key),
{
    let ghost start = buf@;
    match key {
        Some(k) => {
            buf.push(1);
            push_all(buf, k.0.as_slice());
        },
        None => buf.push(0),
    }
    assert(buf@ =~= start + optional_key(*key));
}

fn push_terms(buf: &mut Vec<u8>, s: &GameSetup)
    ensures
        final(buf)@ == old(buf)@ + term_bytes(*s),
{
    let ghost start = buf@;
    push_opening(buf, s);
    push_optional_key(buf, &s.challenged);
    push_text(buf, s.creator_nickname.as_str());
    assert(buf@ =~= start + term_bytes(*s));
}

impl GameSetup {
    /// What is hashed for the game's name, but for the nonce.
    fn name_bytes(&self, creator: &VerifyingKey) -> (r: Vec<u8>)
        ensures
            r@ == name_prefix(*self, *creator),
    {
        let mut buf = domain_bytes("gameid:");
        push_all(&mut buf, creator.0.as_slice());
        push_terms(&mut buf, self);
        buf
    }

    /// The name of a game with these terms.
    pub fn derive_game_id(&self, creator: &VerifyingKey) -> (r: GameId)
        ensures
            r == game_id_of(*self, *creator),
    {
        let mut buf = self.name_bytes(creator);
        push_u64(&mut buf, self.pow_nonce);
        GameId(blake3_hash(buf.as_slice()))
    }

    /// What the creator signs.
    fn signing_bytes(&self, game_id: &GameId) -> (r: Vec<u8>)
        ensures
            r@ == setup_bytes(*self, *game_id),
    {
        let mut buf = domain_bytes("setup:");
        push_all(&mut buf, game_id.0.as_slice());
        push_opening(&mut buf, self);
        push_u64(&mut buf, self.pow_nonce);
        push_text(&mut buf, self.creator_nickname.as_str());
        push_optional_key(&mut buf, &self.challenged);
        buf
    }

    /// Terms open to anyone, with the work done.
    pub fn mine(
        creator: &VerifyingKey,
        creator_plays: Color,
        time_control: TimeControl,
        created_at: i64,
        creator_nickname: String,
    ) -> (r: GameSetup)
        ensures
            r == (GameSetup {
                creator_plays,
                time_control,
                created_at,
                pow_nonce: r.pow_nonce,
                creator_nickname,
                challenged: None,
            }),
            first_nonce(name_prefix(r, *creator), r.pow_nonce),
    {
        GameSetup::mine_challenge(
            creator,
            creator_plays,
            time_control,
            created_at,
            creator_nickname,
            None,
        )
    }

    /// Terms, perhaps for one invited opponent alone, with the work done.
    pub fn mine_challenge(
        creator: &VerifyingKey,
        creator_plays: Color,
        time_control: TimeControl,
        created_at: i64,
        creator_nickname: String,
        challenged: Option<VerifyingKey>,
    ) -> (r: GameSetup)
        ensures
            r == (GameSetup {
                creator_plays,
                time_control,
                created_at,
                pow_nonce: r.pow_nonce,
                creator_nickname,
                challenged,
            }),
            first_nonce(name_prefix(r, *creator), r.pow_nonce),
    {
        let mut setup = GameSetup {
            creator_plays,
            time_control,
            created_at,
            pow_nonce: 0,
            creator_nickname,
            challenged,
        };
        let prefix = setup.name_bytes(creator);
        setup.pow_nonce = search_nonce(prefix);
        setup
    }

    /// Sign the terms.
    pub fn sign(self, key: &SigningKey, game_id: &GameId) -> (r: SignedGameSetup)
        ensures
            r.setup == self,
            r.creator == key.public(),
            r.signature == key.signed(setup_bytes(self, *game_id)),
            sig_fault(r.creator, setup_bytes(self, *game_id), r.signature, "game setup"@) is None,
    {
        let message = self.signing_bytes(game_id);
        let signature = key.sign(message.as_slice());
        SignedGameSetup { setup: self, creator: key.verifying_key(), signature }
    }
}

/// The creator's terms with their signature.
#[derive(Debug, PartialEq, Eq)]
pub struct SignedGameSetup {
    pub setup: GameSetup,
    pub creator: VerifyingKey,
    pub signature: Signature,
}

impl Clone for SignedGameSetup {
    fn clone(&self) -> (r: Self)
        ensures
            r == *self,
    {
        SignedGameSetup {
            setup: self.setup.clone(),
            creator: self.creator,
            signature: self.signature,
        }
    }
}

pub open spec fn nickname_fault(nickname: Seq<char>) -> Option<Seq<char>> {
    if encode_utf8(nickname).len() as usize > MAX_NICKNAME_LEN {
        Some("nickname longer than 32 bytes"@)
    } else {
        None
    }
}

/// What is wrong with signed terms under a game's parameters, the first thing
/// first.
pub open spec fn setup_fault(s: SignedGameSetup, params: ChessGameParametersV1) -> Option<
    Seq<char>,
> {
    if s.creator != params.creator {
        Some("setup creator does not match contract parameters"@)
    } else if game_id_of(s.setup, s.creator) != params.game_id {
        Some("game_id is not the proof-of-work digest of the setup"@)
    } else if !enough_work(params.game_id.0) {
        Some(
            "proof-of-work too weak: "@ + digits(zero_bits(params.game_id.0@)) + " bits, need "@
                + digits(POW_DIFFICULTY_BITS as nat),
        )
    } else if time_fault(s.setup.time_control) is Some {
        time_fault(s.setup.time_control)
    } else if nickname_fault(s.setup.creator_nickname@) is Some {
        nickname_fault(s.setup.creator_nickname@)
    } else if s.setup.created_at <= 0 {
        Some("created_at must be positive"@)
    } else if s.setup.challenged == Some(s.creator) {
        Some("the creator cannot challenge themselves"@)
    } else {
        sig_fault(s.creator, setup_bytes(s.setup, params.game_id), s.signature, "game setup"@)
    }
}

impl SignedGameSetup {
    pub fn creator_key(&self) -> (r: VerifyingKey)
        ensures
            r == self.creator,
    {
        self.creator
    }

    pub fn verify(&self, params: &ChessGameParametersV1) -> (r: Result<(), String>)
        ensures
            fault(r) == setup_fault(*self, *params),
    {
        if !self.creator.same(&params.creator) {
            return Err("setup creator does not match contract parameters".to_string());
        }
        let derived = self.setup.derive_game_id(&self.creator);
        if !derived.same(&params.game_id) {
            return Err("game_id is not the proof-of-work digest of the setup".to_string());
        }
        let bits: u32 = leading_zero_bits(params.game_id.0.as_slice());
        if bits < POW_DIFFICULTY_BITS {
            let mut text = with_number("proof-of-work too weak: ", bits as u128, " bits, need ");
            push_decimal(&mut text, POW_DIFFICULTY_BITS as u128);
            return Err(text);
        }
        match self.setup.time_control.verify() {
            Ok(()) => {},
            Err(e) => return Err(e),
        }
        if self.setup.creator_nickname.as_str().len() > MAX_NICKNAME_LEN {
            return Err("nickname longer than 32 bytes".to_string());
        }
        if self.setup.created_at <= 0 {
            return Err("created_at must be positive".to_string());
        }
        let own = match &self.setup.challenged {
            Some(key) => key.same(&self.creator),
            None => false,
        };
        if own {
            return Err("the creator cannot challenge themselves".to_string());
        }
        let message = self.setup.signing_bytes(&params.game_id);
        verify_sig(&self.creator, message.as_slice(), &self.signature, "game setup")
    }
}

/// The place of the terms in a game. Once filled it stays as it is.
#[derive(Debug, PartialEq, Eq)]
pub struct GameSetupV1(pub Option<SignedGameSetup>);

impl Clone for GameSetupV1 {
    fn clone(&self) -> (r: Self)
        ensures
            r == *self,
    {
        match &self.0 {
            Some(s) => GameSetupV1(Some(s.clone())),
            None => GameSetupV1(None),
        }
    }
}

impl Default for GameSetupV1 {
    fn default() -> (r: Self)
        ensures
            r.0 is None,
    {
        GameSetupV1(None)
    }
}

/// What is wrong with the place of the terms.
pub open spec fn place_fault(
    setup: Option<SignedGameSetup>,
    params: ChessGameParametersV1,
) -> Option<Seq<char>> {
    match setup {
        Some(s) => setup_fault(s, params),
        None => None,
    }
}

/// The place of the terms once signed terms have come in, and what was wrong
/// with them.
pub open spec fn setup_after(
    setup: Option<SignedGameSetup>,
    incoming: SignedGameSetup,
    params: ChessGameParametersV1,
) -> (Option<SignedGameSetup>, Option<Seq<char>>) {
    if setup_fault(incoming, params) is Some {
        (setup, setup_fault(incoming, params))
    } else if setup is None {
        (Some(incoming), None)
    } else {
        (setup, None)
    }
}

impl GameSetupV1 {
    pub fn get(&self) -> (r: Option<&SignedGameSetup>)
        ensures
            match r {
                Some(s) => self.0 == Some(*s),
                None => self.0 is None,
            },
    {
        self.0.as_ref()
    }

    pub fn verify(&self, _parent: &ChessGameStateV1, params: &ChessGameParametersV1) -> (r: Result<
        (),
        String,
    >)
        ensures
            fault(r) == place_fault(self.0, *params),
    {
        match &self.0 {
            Some(setup) => setup.verify(params),
            None => Ok(()),
        }
    }

    pub fn summarize(&self, _parent: &ChessGameStateV1, _params: &ChessGameParametersV1) -> (r: bool)
        ensures
            r == (self.0 is Some),
    {
        self.0.is_some()
    }

    pub fn delta(
        &self,
        _parent: &ChessGameStateV1,
        _params: &ChessGameParametersV1,
        old_summary: &bool,
    ) -> (r: Option<SignedGameSetup>)
        ensures
            r == (if *old_summary {
                None
            } else {
                self.0
            }),
    {
        if *old_summary {
            None
        } else {
            match &self.0 {
                Some(s) => Some(s.clone()),
                None => None,
            }
        }
    }

    pub fn apply_delta(
        &mut self,
        _parent: &ChessGameStateV1,
        params: &ChessGameParametersV1,
        delta: &Option<SignedGameSetup>,
    ) -> (r: Result<(), String>)
        ensures
            match *delta {
                Some(d) => (final(self).0, fault(r)) == setup_after(old(self).0, d, *params),
                None => r is Ok && final(self).0 == old(self).0,
            },
    {
        self.take_in(params, delta)
    }

    /// Take in signed terms.
    pub fn take_in(&mut self, params: &ChessGameParametersV1, delta: &Option<SignedGameSetup>) -> (r:
        Result<(), String>)
        ensures
            match *delta {
                Some(d) => (final(self).0, fault(r)) == setup_after(old(self).0, d, *params),
                None => r is Ok && final(self).0 == old(self).0,
            },
    {
        match delta {
            Some(incoming) => {
                match incoming.verify(params) {
                    Ok(()) => {},
                    Err(e) => return Err(e),
                }
                if self.0.is_none() {
                    self.0 = Some(incoming.clone());
                }
                Ok(())
            },
            None => Ok(()),
        }
    }
}

} // verus!
