//! What administrators say: announcements, takedowns, whether the service is
//! there, and whether it has moved.

use super::{AdminsV1, AdminGrant, MAX_ANNOUNCEMENT_LEN, MAX_REASON_LEN};
use crate::bytes::{array_from, bytes_equal, le_i64, push_all, push_i64};
use crate::crypto::{
    base58_bytes, base58_decode, blake3_digest, blake3_hash, Signature, SigningKey, VerifyingKey,
};
use crate::game::{domain, domain_bytes, push_text, sig_less, sig_rank, text_field};
use crate::identity::{
    digest_of, id_of, sig_fault, signature_digest, verify_sig, GameId, PlayerId,
};
use crate::ledger::Entry;
use crate::search::{blank, is_blank};
use crate::sorted_map::Ranked;
use crate::sync::Record;
use crate::text::{digits, fault, with_number};
use vstd::prelude::*;
use vstd::string::*;
use vstd::utf8::encode_utf8;

verus! {

/// A public notice.
#[derive(Debug, PartialEq, Eq)]
pub struct Announcement {
    /// Worked out from what is announced, so that a notice is itself wherever
    /// it comes from.
    pub id: [u8; 16],
    pub text: String,
    pub at: i64,
    pub author: VerifyingKey,
    pub signature: Signature,
}

impl Clone for Announcement {
    fn clone(&self) -> (r: Self)
        ensures
            r == *self,
    {
        Announcement {
            id: self.id,
            text: self.text.clone(),
            at: self.at,
            author: self.author,
            signature: self.signature,
        }
    }
}

impl View for Announcement {
    type V = Announcement;

    open spec fn view(&self) -> Announcement {
        *self
    }
}

impl Record for Announcement {
    open spec fn mark_of(v: Announcement) -> u64 {
        digest_of(v.signature)
    }

    fn read_mark(&self) -> (r: u64) {
        signature_digest(&self.signature)
    }

    fn duplicate(&self) -> (r: Self) {
        self.clone()
    }
}

/// What is signed for an announcement.
pub open spec fn announcement_bytes(text: Seq<char>, at: i64) -> Seq<u8> {
    domain("announce:"@) + text_field(text) + le_i64(at)
}

/// What is signed for an announcement.
pub fn announcement_signing_bytes(text: &str, at: i64) -> (r: Vec<u8>)
    ensures
        r@ == announcement_bytes(text@, at),
{
    let mut buf = domain_bytes("announce:");
    push_text(&mut buf, text);
    push_i64(&mut buf, at);
    buf
}

/// The first 16 bytes of a digest.
pub open spec fn short_digest(bytes: Seq<u8>) -> [u8; 16] {
    choose|id: [u8; 16]| #[trigger] id@ == blake3_digest(bytes)@.take(16)
}

fn short_hash(bytes: &[u8]) -> (r: [u8; 16])
    ensures
        r == short_digest(bytes@),
{
    let hash = blake3_hash(bytes);
    let id: [u8; 16] = array_from::<16>(hash.as_slice(), 0);
    assert(id@ =~= blake3_digest(bytes@)@.take(16));
    assert(short_digest(bytes@)@ == id@);
    assert(short_digest(bytes@) =~= id);
    id
}

/// What is wrong with an announcement, given who the administrators are.
pub open spec fn announcement_fault(a: Announcement, admins: Map<PlayerId, AdminGrant>) -> Option<
    Seq<char>,
> {
    let bytes = announcement_bytes(a.text@, a.at);
    if blank(a.text@) {
        Some("announcement must not be blank"@)
    } else if encode_utf8(a.text@).len() as usize > MAX_ANNOUNCEMENT_LEN {
        Some("announcement longer than "@ + digits(MAX_ANNOUNCEMENT_LEN as nat) + " bytes"@)
    } else if a.at <= 0 {
        Some("announcement timestamp must be positive"@)
    } else if !admins.contains_key(id_of(a.author)) {
        Some("announcements may only be published by an admin"@)
    } else if a.id != short_digest(bytes) {
        Some("announcement id does not match its content"@)
    } else {
        sig_fault(a.author, bytes, a.signature, "announcement"@)
    }
}

impl Announcement {
    pub fn new(admin: &SigningKey, text: String, at: i64) -> (r: Announcement)
        ensures
            r.id == short_digest(announcement_bytes(text@, at)),
            r.text == text,
            r.at == at,
            r.author == admin.public(),
            r.signature == admin.signed(announcement_bytes(text@, at)),
            sig_fault(r.author, announcement_bytes(text@, at), r.signature, "announcement"@) is None,
    {
        let bytes = announcement_signing_bytes(text.as_str(), at);
        let id = short_hash(bytes.as_slice());
        let signature = admin.sign(bytes.as_slice());
        Announcement { id, text, at, author: admin.verifying_key(), signature }
    }

    pub fn author_id(&self) -> (r: PlayerId)
        ensures
            r == id_of(self.author),
    {
        PlayerId::from(&self.author)
    }

    pub fn verify(&self, admins: &AdminsV1) -> (r: Result<(), String>)
        ensures
            fault(r) == announcement_fault(*self, admins@),
    {
        if is_blank(self.text.as_str()) {
            return Err("announcement must not be blank".to_string());
        }
        if self.text.as_str().len() > MAX_ANNOUNCEMENT_LEN {
            return Err(
                with_number("announcement longer than ", MAX_ANNOUNCEMENT_LEN as u128, " bytes"),
            );
        }
        if self.at <= 0 {
            return Err("announcement timestamp must be positive".to_string());
        }
        if !admins.is_admin(self.author_id()) {
            return Err("announcements may only be published by an admin".to_string());
        }
        let bytes = announcement_signing_bytes(self.text.as_str(), self.at);
        let expected = short_hash(bytes.as_slice());
        if !bytes_equal(&self.id, &expected) {
            return Err("announcement id does not match its content".to_string());
        }
        verify_sig(&self.author, bytes.as_slice(), &self.signature, "announcement")
    }
}

impl Entry<AdminsV1> for Announcement {
    type Key = [u8; 16];

    open spec fn key_of(v: Announcement) -> [u8; 16] {
        v.id
    }

    fn read_key(&self) -> (r: [u8; 16]) {
        self.id
    }

    open spec fn replaces(a: Announcement, b: Announcement) -> bool {
        sig_rank(a.signature) < sig_rank(b.signature)
    }

    proof fn replacing_orders(a: Announcement, b: Announcement, c: Announcement) {
    }

    fn takes_over(&self, other: &Self) -> (r: bool) {
        sig_less(&self.signature, &other.signature)
    }

    open spec fn valid(v: Announcement) -> bool {
        true
    }

    open spec fn entry_fault(v: Announcement, place: AdminsV1) -> Option<Seq<char>> {
        announcement_fault(v, place@)
    }

    fn check_entry(&self, place: &AdminsV1) -> (r: Result<(), String>) {
        self.verify(place)
    }

    open spec fn filed_fault(k: [u8; 16], v: Announcement, place: AdminsV1) -> Option<Seq<char>> {
        if v.id != k {
            Some("announcement stored under the wrong id"@)
        } else {
            announcement_fault(v, place@)
        }
    }

    fn check_filed(&self, k: &[u8; 16], place: &AdminsV1) -> (r: Result<(), String>) {
        if !bytes_equal(&self.id, k) {
            return Err("announcement stored under the wrong id".to_string());
        }
        self.verify(place)
    }

    open spec fn order_in(k: [u8; 16], v: Announcement) -> (int, int, nat) {
        (0, -v.at, k.rank())
    }

    fn read_order(&self, k: &[u8; 16]) -> (r: (i128, i128, [u8; 16])) {
        (0, -(self.at as i128), *k)
    }

    proof fn filing_checks(k: [u8; 16], v: Announcement, place: AdminsV1) {
    }

    proof fn places_differ(k: [u8; 16], v: Announcement, l: [u8; 16], w: Announcement) {
        <[u8; 16]>::rank_decides(k, l);
    }
}

/// A mark on a game that the lobby no longer shows. The game's own record
/// knows nothing of it.
#[derive(Debug, PartialEq, Eq)]
pub struct Takedown {
    pub game_id: GameId,
    pub reason: String,
    pub at: i64,
    pub author: VerifyingKey,
    pub signature: Signature,
}

impl Clone for Takedown {
    fn clone(&self) -> (r: Self)
        ensures
            r == *self,
    {
        Takedown {
            game_id: self.game_id,
            reason: self.reason.clone(),
            at: self.at,
            author: self.author,
            signature: self.signature,
        }
    }
}

impl View for Takedown {
    type V = Takedown;

    open spec fn view(&self) -> Takedown {
        *self
    }
}

impl Record for Takedown {
    open spec fn mark_of(v: Takedown) -> u64 {
        digest_of(v.signature)
    }

    fn read_mark(&self) -> (r: u64) {
        signature_digest(&self.signature)
    }

    fn duplicate(&self) -> (r: Self) {
        self.clone()
    }
}

/// What is signed for a takedown.
pub open spec fn takedown_bytes(game_id: GameId, reason: Seq<char>, at: i64) -> Seq<u8> {
    domain("takedown:"@) + game_id.0@ + text_field(reason) + le_i64(at)
}

/// What is signed for a takedown.
pub fn takedown_signing_bytes(game_id: &GameId, reason: &str, at: i64) -> (r: Vec<u8>)
    ensures
        r@ == takedown_bytes(*game_id, reason@, at),
{
    let mut buf = domain_bytes("takedown:");
    push_all(&mut buf, game_id.0.as_slice());
    push_text(&mut buf, reason);
    push_i64(&mut buf, at);
    buf
}

/// What is wrong with a takedown, given who the administrators are.
pub open spec fn takedown_fault(t: Takedown, admins: Map<PlayerId, AdminGrant>) -> Option<
    Seq<char>,
> {
    if encode_utf8(t.reason@).len() as usize > MAX_REASON_LEN {
        Some("reason longer than "@ + digits(MAX_REASON_LEN as nat) + " bytes"@)
    } else if t.at <= 0 {
        Some("takedown timestamp must be positive"@)
    } else if !admins.contains_key(id_of(t.author)) {
        Some("games may only be taken down by an admin"@)
    } else {
        sig_fault(t.author, takedown_bytes(t.game_id, t.reason@, t.at), t.signature, "takedown"@)
    }
}

impl Takedown {
    pub fn new(admin: &SigningKey, game_id: GameId, reason: String, at: i64) -> (r: Takedown)
        ensures
            r.game_id == game_id,
            r.reason == reason,
            r.at == at,
            r.author == admin.public(),
            r.signature == admin.signed(takedown_bytes(game_id, reason@, at)),
            sig_fault(
                r.author,
                takedown_bytes(game_id, reason@, at),
                r.signature,
                "takedown"@,
            ) is None,
    {
        let bytes = takedown_signing_bytes(&game_id, reason.as_str(), at);
        let signature = admin.sign(bytes.as_slice());
        Takedown { game_id, reason, at, author: admin.verifying_key(), signature }
    }

    pub fn author_id(&self) -> (r: PlayerId)
        ensures
            r == id_of(self.author),
    {
        PlayerId::from(&self.author)
    }

    pub fn verify(&self, admins: &AdminsV1) -> (r: Result<(), String>)
        ensures
            fault(r) == takedown_fault(*self, admins@),
    {
        if self.reason.as_str().len() > MAX_REASON_LEN {
            return Err(with_number("reason longer than ", MAX_REASON_LEN as u128, " bytes"));
        }
        if self.at <= 0 {
            return Err("takedown timestamp must be positive".to_string());
        }
        if !admins.is_admin(self.author_id()) {
            return Err("games may only be taken down by an admin".to_string());
        }
        let bytes = takedown_signing_bytes(&self.game_id, self.reason.as_str(), self.at);
        verify_sig(&self.author, bytes.as_slice(), &self.signature, "takedown")
    }
}

impl Entry<AdminsV1> for Takedown {
    type Key = GameId;

    open spec fn key_of(v: Takedown) -> GameId {
        v.game_id
    }

    fn read_key(&self) -> (r: GameId) {
        self.game_id
    }

    open spec fn replaces(a: Takedown, b: Takedown) -> bool {
        a.at < b.at || (a.at == b.at && sig_rank(a.signature) < sig_rank(b.signature))
    }

    proof fn replacing_orders(a: Takedown, b: Takedown, c: Takedown) {
    }

    fn takes_over(&self, other: &Self) -> (r: bool) {
        self.at < other.at || (self.at == other.at && sig_less(&self.signature, &other.signature))
    }

    open spec fn valid(v: Takedown) -> bool {
        true
    }

    open spec fn entry_fault(v: Takedown, place: AdminsV1) -> Option<Seq<char>> {
        takedown_fault(v, place@)
    }

    fn check_entry(&self, place: &AdminsV1) -> (r: Result<(), String>) {
        self.verify(place)
    }

    open spec fn filed_fault(k: GameId, v: Takedown, place: AdminsV1) -> Option<Seq<char>> {
        if v.game_id != k {
            Some("takedown stored under the wrong game id"@)
        } else {
            takedown_fault(v, place@)
        }
    }

    fn check_filed(&self, k: &GameId, place: &AdminsV1) -> (r: Result<(), String>) {
        if !self.game_id.same(k) {
            return Err("takedown stored under the wrong game id".to_string());
        }
        self.verify(place)
    }

    open spec fn order_in(k: GameId, v: Takedown) -> (int, int, nat) {
        (0, -v.at, k.rank())
    }

    fn read_order(&self, k: &GameId) -> (r: (i128, i128, GameId)) {
        (0, -(self.at as i128), *k)
    }

    proof fn filing_checks(k: GameId, v: Takedown, place: AdminsV1) {
    }

    proof fn places_differ(k: GameId, v: Takedown, l: GameId, w: Takedown) {
        GameId::rank_decides(k, l);
    }
}

/// Whether the service is there, and why not where it is not.
#[derive(Debug, PartialEq, Eq)]
pub struct ServiceState {
    pub available: bool,
    pub message: String,
    pub at: i64,
    pub author: VerifyingKey,
    pub signature: Signature,
}

impl Clone for ServiceState {
    fn clone(&self) -> (r: Self)
        ensures
            r == *self,
    {
        ServiceState {
            available: self.available,
            message: self.message.clone(),
            at: self.at,
            author: self.author,
            signature: self.signature,
        }
    }
}

pub open spec fn flag_byte(on: bool) -> u8 {
    if on {
        1
    } else {
        0
    }
}

/// What is signed for a statement on the service.
pub open spec fn service_bytes(available: bool, message: Seq<char>, at: i64) -> Seq<u8> {
    domain("service:"@) + seq![flag_byte(available)] + text_field(message) + le_i64(at)
}

/// What is signed for a statement on the service.
pub fn service_signing_bytes(available: bool, message: &str, at: i64) -> (r: Vec<u8>)
    ensures
        r@ == service_bytes(available, message@, at),
{
    let mut buf = domain_bytes("service:");
    let ghost head = buf@;
    let flag: u8 = if available {
        1
    } else {
        0
    };
    buf.push(flag);
    assert(buf@ =~= head + seq![flag_byte(available)]);
    push_text(&mut buf, message);
    push_i64(&mut buf, at);
    buf
}

/// What is wrong with a statement on the service, given who the administrators
/// are.
pub open spec fn service_fault(s: ServiceState, admins: Map<PlayerId, AdminGrant>) -> Option<
    Seq<char>,
> {
    if encode_utf8(s.message@).len() as usize > MAX_ANNOUNCEMENT_LEN {
        Some("service message too long"@)
    } else if s.at <= 0 {
        Some("service timestamp must be positive"@)
    } else if !admins.contains_key(id_of(s.author)) {
        Some("only an admin may change service state"@)
    } else {
        sig_fault(
            s.author,
            service_bytes(s.available, s.message@, s.at),
            s.signature,
            "service state"@,
        )
    }
}

impl ServiceState {
    pub fn new(admin: &SigningKey, available: bool, message: String, at: i64) -> (r: ServiceState)
        ensures
            r.available == available,
            r.message == message,
            r.at == at,
            r.author == admin.public(),
            r.signature == admin.signed(service_bytes(available, message@, at)),
            sig_fault(
                r.author,
                service_bytes(available, message@, at),
                r.signature,
                "service state"@,
            ) is None,
    {
        let bytes = service_signing_bytes(available, message.as_str(), at);
        let signature = admin.sign(bytes.as_slice());
        ServiceState { available, message, at, author: admin.verifying_key(), signature }
    }

    pub fn author_id(&self) -> (r: PlayerId)
        ensures
            r == id_of(self.author),
    {
        PlayerId::from(&self.author)
    }

    pub fn verify(&self, admins: &AdminsV1) -> (r: Result<(), String>)
        ensures
            fault(r) == service_fault(*self, admins@),
    {
        if self.message.as_str().len() > MAX_ANNOUNCEMENT_LEN {
            return Err("service message too long".to_string());
        }
        if self.at <= 0 {
            return Err("service timestamp must be positive".to_string());
        }
        if !admins.is_admin(self.author_id()) {
            return Err("only an admin may change service state".to_string());
        }
        let bytes = service_signing_bytes(self.available, self.message.as_str(), self.at);
        verify_sig(&self.author, bytes.as_slice(), &self.signature, "service state")
    }
}

/// Of two statements on the service the later stays: by time, then by their
/// signatures.
pub open spec fn absorb_service(current: Option<ServiceState>, s: ServiceState) -> Option<
    ServiceState,
> {
    match current {
        Some(c) => if s.at > c.at || (s.at == c.at && sig_rank(s.signature) > sig_rank(
            c.signature,
        )) {
            Some(s)
        } else {
            current
        },
        None => Some(s),
    }
}

/// Word that the lobby has moved to a new address, or that it has not.
#[derive(Debug, PartialEq, Eq)]
pub struct Migration {
    /// Where the lobby has moved to.
    pub new_address: String,
    pub message: String,
    /// Whether the move stands, or is called off.
    pub active: bool,
    pub at: i64,
    pub author: VerifyingKey,
    pub signature: Signature,
}

impl Clone for Migration {
    fn clone(&self) -> (r: Self)
        ensures
            r == *self,
    {
        Migration {
            new_address: self.new_address.clone(),
            message: self.message.clone(),
            active: self.active,
            at: self.at,
            author: self.author,
            signature: self.signature,
        }
    }
}

/// What is signed for a move.
pub open spec fn migration_bytes(
    new_address: Seq<char>,
    message: Seq<char>,
    active: bool,
    at: i64,
) -> Seq<u8> {
    domain("migration:"@) + seq![flag_byte(active)] + text_field(new_address) + text_field(message)
        + le_i64(at)
}

pub open spec fn bytes_of_migration(m: Migration) -> Seq<u8> {
    migration_bytes(m.new_address@, m.message@, m.active, m.at)
}

fn migration_signing_bytes(new_address: &str, message: &str, active: bool, at: i64) -> (r: Vec<u8>)
    ensures
        r@ == migration_bytes(new_address@, message@, active, at),
{
    let mut buf = domain_bytes("migration:");
    let ghost head = buf@;
    let flag: u8 = if active {
        1
    } else {
        0
    };
    buf.push(flag);
    assert(buf@ =~= head + seq![flag_byte(active)]);
    push_text(&mut buf, new_address);
    push_text(&mut buf, message);
    push_i64(&mut buf, at);
    buf
}

/// Whether a text, read in base 58, is as long as an address.
pub open spec fn is_address(read: Option<Seq<u8>>) -> bool {
    read is Some && read->0.len() == 32
}

/// What is wrong with word of a move, given who the administrators are.
pub open spec fn migration_fault(m: Migration, admins: Map<PlayerId, AdminGrant>) -> Option<
    Seq<char>,
> {
    if encode_utf8(m.message@).len() as usize > MAX_ANNOUNCEMENT_LEN {
        Some("migration message too long"@)
    } else if m.at <= 0 {
        Some("migration timestamp must be positive"@)
    } else if !admins.contains_key(id_of(m.author)) {
        Some("only an admin may announce a migration"@)
    } else if m.active && !is_address(base58_bytes(m.new_address@)) {
        Some("migration address is not a valid contract id"@)
    } else {
        sig_fault(m.author, bytes_of_migration(m), m.signature, "migration"@)
    }
}

impl Migration {
    /// Say that the lobby has moved.
    pub fn announce(admin: &SigningKey, new_address: String, message: String, at: i64) -> (r:
        Migration)
        ensures
            r.new_address == new_address,
            r.message == message,
            r.active,
            r.at == at,
            r.author == admin.public(),
            r.signature == admin.signed(bytes_of_migration(r)),
            sig_fault(r.author, bytes_of_migration(r), r.signature, "migration"@) is None,
    {
        let bytes = migration_signing_bytes(new_address.as_str(), message.as_str(), true, at);
        let signature = admin.sign(bytes.as_slice());
        let author = admin.verifying_key();
        Migration { new_address, message, active: true, at, author, signature }
    }

    /// Call a move off.
    pub fn cancel(admin: &SigningKey, at: i64) -> (r: Migration)
        ensures
            r.new_address@.len() == 0,
            r.message@.len() == 0,
            !r.active,
            r.at == at,
            r.author == admin.public(),
            r.signature == admin.signed(bytes_of_migration(r)),
            sig_fault(r.author, bytes_of_migration(r), r.signature, "migration"@) is None,
    {
        let new_address = String::new();
        let message = String::new();
        let bytes = migration_signing_bytes(new_address.as_str(), message.as_str(), false, at);
        let signature = admin.sign(bytes.as_slice());
        let author = admin.verifying_key();
        Migration { new_address, message, active: false, at, author, signature }
    }

    pub fn author_id(&self) -> (r: PlayerId)
        ensures
            r == id_of(self.author),
    {
        PlayerId::from(&self.author)
    }

    pub fn verify(&self, admins: &AdminsV1) -> (r: Result<(), String>)
        ensures
            fault(r) == migration_fault(*self, admins@),
    {
        let read = base58_decode(self.new_address.as_str());
        self.verify_read(admins, &read)
    }

    /// Check the word of a move, given its address read in base 58.
    pub fn verify_read(&self, admins: &AdminsV1, read: &Option<Vec<u8>>) -> (r: Result<(), String>)
        ensures
            fault(r) == (if encode_utf8(self.message@).len() as usize > MAX_ANNOUNCEMENT_LEN {
                Some("migration message too long"@)
            } else if self.at <= 0 {
                Some("migration timestamp must be positive"@)
            } else if !admins@.contains_key(id_of(self.author)) {
                Some("only an admin may announce a migration"@)
            } else if self.active && (*read is None || read->0@.len() != 32) {
                Some("migration address is not a valid contract id"@)
            } else {
                sig_fault(self.author, bytes_of_migration(*self), self.signature, "migration"@)
            }),
    {
        if self.message.as_str().len() > MAX_ANNOUNCEMENT_LEN {
            return Err("migration message too long".to_string());
        }
        if self.at <= 0 {
            return Err("migration timestamp must be positive".to_string());
        }
        if !admins.is_admin(self.author_id()) {
            return Err("only an admin may announce a migration".to_string());
        }
        let proper = match read {
            Some(bytes) => bytes.len() == 32,
            None => false,
        };
        if self.active && !proper {
            return Err("migration address is not a valid contract id".to_string());
        }
        let bytes = migration_signing_bytes(
            self.new_address.as_str(),
            self.message.as_str(),
            self.active,
            self.at,
        );
        verify_sig(&self.author, bytes.as_slice(), &self.signature, "migration")
    }
}

/// Of two words of a move the later stays: by time, then by their signatures.
pub open spec fn absorb_migration(current: Option<Migration>, m: Migration) -> Option<Migration> {
    match current {
        Some(c) => if m.at > c.at || (m.at == c.at && sig_rank(m.signature) > sig_rank(
            c.signature,
        )) {
            Some(m)
        } else {
            current
        },
        None => Some(m),
    }
}

/// Two statements on the service come in alike in either order, and so do two
/// words of a move. Where two share time and signature they must be one.
pub proof fn law_statements_commute(
    service: Option<ServiceState>,
    a: ServiceState,
    b: ServiceState,
    migration: Option<Migration>,
    x: Migration,
    y: Migration,
)
    requires
        a.at == b.at && sig_rank(a.signature) == sig_rank(b.signature) ==> a == b,
        x.at == y.at && sig_rank(x.signature) == sig_rank(y.signature) ==> x == y,
    ensures
        absorb_service(absorb_service(service, a), b) == absorb_service(
            absorb_service(service, b),
            a,
        ),
        absorb_migration(absorb_migration(migration, x), y) == absorb_migration(
            absorb_migration(migration, y),
            x,
        ),
{
}

} // verus!
