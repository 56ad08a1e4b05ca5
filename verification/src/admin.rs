//! Who runs the place, and what they have said.
//!
//! The first player to claim it is an administrator, and every other one was
//! appointed by one before them. Which claim was first is settled by the
//! claims themselves, so every peer finds the same root, and whatever does not
//! go back to it falls away.

pub mod agreement;
pub mod merging;
pub mod notices;
pub mod office;
pub mod pruning;
pub mod rivals;
pub mod statements;
pub mod succession;

pub use notices::{Announcement, Migration, ServiceState, Takedown};
pub use office::{AdminAction, AdministrationV1};

use crate::bytes::{be_value, bytes_less, le_i64, push_all, push_i64};
use crate::crypto::{Signature, SigningKey, VerifyingKey};
use crate::game::setup::{nickname_fault, MAX_NICKNAME_LEN};
use crate::game::{domain, domain_bytes, push_text, sig_less, sig_rank, text_field};
use crate::identity::{digest_of, id_of, sig_fault, signature_digest, verify_sig, PlayerId};
use crate::ledger::{capped, check_all, cut, entries_fault, Entry};
use crate::lists::{all_values, arrange, refs_held, values_of};
use crate::order::{ordered, place_of};
use crate::sorted_map::{
    lemma_listing_entry, lemma_listing_place, listing, views, Ranked, SortedMap,
};
use crate::sync::Record;
use crate::text::{digits, fault, push_decimal};
use vstd::prelude::*;
use vstd::string::*;

verus! {

/// How many administrators there can be.
pub const MAX_ADMINS: usize = 50;

/// How many announcements are kept.
pub const MAX_ANNOUNCEMENTS: usize = 20;

/// How many takedowns are kept.
pub const MAX_TAKEDOWNS: usize = 500;

/// The greatest length of an announcement.
pub const MAX_ANNOUNCEMENT_LEN: usize = 500;

/// The greatest length of a takedown's reason.
pub const MAX_REASON_LEN: usize = 200;

/// An appointment as administrator. One that its holder signed is a claim to
/// be the first.
#[derive(Debug, PartialEq, Eq)]
pub struct AdminGrant {
    pub grantee: VerifyingKey,
    pub granted_by: VerifyingKey,
    pub nickname: String,
    pub at: i64,
    pub signature: Signature,
}

impl Clone for AdminGrant {
    fn clone(&self) -> (r: Self)
        ensures
            r == *self,
    {
        AdminGrant {
            grantee: self.grantee,
            granted_by: self.granted_by,
            nickname: self.nickname.clone(),
            at: self.at,
            signature: self.signature,
        }
    }
}

impl View for AdminGrant {
    type V = AdminGrant;

    open spec fn view(&self) -> AdminGrant {
        *self
    }
}

impl Record for AdminGrant {
    open spec fn mark_of(v: AdminGrant) -> u64 {
        digest_of(v.signature)
    }

    fn read_mark(&self) -> (r: u64) {
        signature_digest(&self.signature)
    }

    fn duplicate(&self) -> (r: Self) {
        self.clone()
    }
}

/// What is signed for an appointment.
pub open spec fn grant_bytes(
    grantee: VerifyingKey,
    granted_by: VerifyingKey,
    nickname: Seq<char>,
    at: i64,
) -> Seq<u8> {
    domain("admin-grant:"@) + grantee.0@ + granted_by.0@ + text_field(nickname) + le_i64(at)
}

pub open spec fn bytes_of_grant(g: AdminGrant) -> Seq<u8> {
    grant_bytes(g.grantee, g.granted_by, g.nickname@, g.at)
}

fn grant_signing_bytes(
    grantee: &VerifyingKey,
    granted_by: &VerifyingKey,
    nickname: &str,
    at: i64,
) -> (r: Vec<u8>)
    ensures
        r@ == grant_bytes(*grantee, *granted_by, nickname@, at),
{
    let mut buf = domain_bytes("admin-grant:");
    push_all(&mut buf, grantee.0.as_slice());
    push_all(&mut buf, granted_by.0.as_slice());
    push_text(&mut buf, nickname);
    push_i64(&mut buf, at);
    buf
}

/// What is wrong with an appointment by itself.
pub open spec fn grant_fault(g: AdminGrant) -> Option<Seq<char>> {
    if nickname_fault(g.nickname@) is Some {
        nickname_fault(g.nickname@)
    } else if g.at <= 0 {
        Some("grant timestamp must be positive"@)
    } else {
        sig_fault(g.granted_by, bytes_of_grant(g), g.signature, "admin grant"@)
    }
}

pub open spec fn self_claim(g: AdminGrant) -> bool {
    g.grantee == g.granted_by
}

/// Whether an appointment came before another: by time, then by whom it
/// appoints, then by who made it, then by their signatures.
pub open spec fn sooner(a: AdminGrant, b: AdminGrant) -> bool {
    let (ga, gb) = (be_value(a.grantee.0@), be_value(b.grantee.0@));
    let (ma, mb) = (be_value(a.granted_by.0@), be_value(b.granted_by.0@));
    a.at < b.at || (a.at == b.at && (ga < gb || (ga == gb && (ma < mb || (ma == mb && sig_rank(
        a.signature,
    ) < sig_rank(b.signature))))))
}

impl AdminGrant {
    /// Claim to be the first.
    pub fn claim(key: &SigningKey, nickname: String, at: i64) -> (r: AdminGrant)
        ensures
            r.grantee == key.public(),
            r.granted_by == key.public(),
            r.nickname == nickname,
            r.at == at,
            r.signature == key.signed(bytes_of_grant(r)),
            sig_fault(r.granted_by, bytes_of_grant(r), r.signature, "admin grant"@) is None,
    {
        let me = key.verifying_key();
        let message = grant_signing_bytes(&me, &me, nickname.as_str(), at);
        let signature = key.sign(message.as_slice());
        AdminGrant { grantee: me, granted_by: me, nickname, at, signature }
    }

    /// Appoint another.
    pub fn grant(admin: &SigningKey, grantee: VerifyingKey, nickname: String, at: i64) -> (r:
        AdminGrant)
        ensures
            r.grantee == grantee,
            r.granted_by == admin.public(),
            r.nickname == nickname,
            r.at == at,
            r.signature == admin.signed(bytes_of_grant(r)),
            sig_fault(r.granted_by, bytes_of_grant(r), r.signature, "admin grant"@) is None,
    {
        let granted_by = admin.verifying_key();
        let message = grant_signing_bytes(&grantee, &granted_by, nickname.as_str(), at);
        let signature = admin.sign(message.as_slice());
        AdminGrant { grantee, granted_by, nickname, at, signature }
    }

    pub fn grantee_id(&self) -> (r: PlayerId)
        ensures
            r == id_of(self.grantee),
    {
        PlayerId::from(&self.grantee)
    }

    pub fn is_self_claim(&self) -> (r: bool)
        ensures
            r == self_claim(*self),
    {
        self.grantee.same(&self.granted_by)
    }

    /// Whether the appointment is its author's. That its author may make it
    /// is another matter.
    pub fn verify_signature(&self) -> (r: Result<(), String>)
        ensures
            fault(r) == grant_fault(*self),
    {
        if self.nickname.as_str().len() > MAX_NICKNAME_LEN {
            return Err("nickname longer than 32 bytes".to_string());
        }
        if self.at <= 0 {
            return Err("grant timestamp must be positive".to_string());
        }
        let message = grant_signing_bytes(
            &self.grantee,
            &self.granted_by,
            self.nickname.as_str(),
            self.at,
        );
        verify_sig(&self.granted_by, message.as_slice(), &self.signature, "admin grant")
    }

    fn is_sooner(&self, other: &AdminGrant) -> (r: bool)
        ensures
            r == sooner(*self, *other),
    {
        if self.at != other.at {
            return self.at < other.at;
        }
        if bytes_less(&self.grantee.0, &other.grantee.0) {
            return true;
        }
        if bytes_less(&other.grantee.0, &self.grantee.0) {
            return false;
        }
        if bytes_less(&self.granted_by.0, &other.granted_by.0) {
            return true;
        }
        if bytes_less(&other.granted_by.0, &self.granted_by.0) {
            return false;
        }
        sig_less(&self.signature, &other.signature)
    }
}

impl Entry<()> for AdminGrant {
    type Key = PlayerId;

    open spec fn key_of(v: AdminGrant) -> PlayerId {
        id_of(v.grantee)
    }

    fn read_key(&self) -> (r: PlayerId) {
        self.grantee_id()
    }

    open spec fn replaces(a: AdminGrant, b: AdminGrant) -> bool {
        sooner(a, b)
    }

    proof fn replacing_orders(a: AdminGrant, b: AdminGrant, c: AdminGrant) {
    }

    fn takes_over(&self, other: &Self) -> (r: bool) {
        self.is_sooner(other)
    }

    open spec fn valid(v: AdminGrant) -> bool {
        true
    }

    open spec fn entry_fault(v: AdminGrant, place: ()) -> Option<Seq<char>> {
        grant_fault(v)
    }

    fn check_entry(&self, place: &()) -> (r: Result<(), String>) {
        self.verify_signature()
    }

    open spec fn filed_fault(k: PlayerId, v: AdminGrant, place: ()) -> Option<Seq<char>> {
        if id_of(v.grantee) != k {
            Some("admin grant stored under the wrong player id"@)
        } else {
            grant_fault(v)
        }
    }

    fn check_filed(&self, k: &PlayerId, place: &()) -> (r: Result<(), String>) {
        if !self.grantee_id().same(k) {
            return Err("admin grant stored under the wrong player id".to_string());
        }
        self.verify_signature()
    }

    open spec fn order_in(k: PlayerId, v: AdminGrant) -> (int, int, nat) {
        (
            if self_claim(v) {
                0
            } else {
                1
            },
            v.at as int,
            k.rank(),
        )
    }

    fn read_order(&self, k: &PlayerId) -> (r: (i128, i128, PlayerId)) {
        let first: i128 = if self.is_self_claim() {
            0
        } else {
            1
        };
        (first, self.at as i128, *k)
    }

    proof fn filing_checks(k: PlayerId, v: AdminGrant, place: ()) {
    }

    proof fn places_differ(k: PlayerId, v: AdminGrant, l: PlayerId, w: AdminGrant) {
        PlayerId::rank_decides(k, l);
    }
}

/// Administrators, the root first, then by when they were appointed.
pub open spec fn by_seniority() -> spec_fn(AdminGrant) -> (int, int, nat) {
    |g: AdminGrant|
        (
            if self_claim(g) {
                0int
            } else {
                1int
            },
            g.at as int,
            id_of(g.grantee).rank(),
        )
}

fn seniority_key(g: &AdminGrant) -> (k: (i128, i128, PlayerId))
    ensures
        place_of(k) == by_seniority()(g@),
{
    let first: i128 = if g.is_self_claim() {
        0
    } else {
        1
    };
    (first, g.at as i128, g.grantee_id())
}

/// The first claim among appointments.
pub open spec fn first_claim(grants: Seq<AdminGrant>) -> Option<AdminGrant>
    decreases grants.len(),
{
    if grants.len() == 0 {
        None
    } else {
        let so_far = first_claim(grants.drop_last());
        let g = grants.last();
        if self_claim(g) && (so_far is None || sooner(g, so_far->0)) {
            Some(g)
        } else {
            so_far
        }
    }
}

/// Those known to be administrators, once each appointment has been looked at
/// in turn. One counts where it is by somebody who is known by then.
pub open spec fn pass(
    grants: Seq<AdminGrant>,
    known: Map<PlayerId, AdminGrant>,
) -> Map<PlayerId, AdminGrant>
    decreases grants.len(),
{
    if grants.len() == 0 {
        known
    } else {
        let so_far = pass(grants.drop_last(), known);
        let g = grants.last();
        if so_far.contains_key(id_of(g.grantee)) || self_claim(g) || !so_far.contains_key(
            id_of(g.granted_by),
        ) {
            so_far
        } else {
            so_far.insert(id_of(g.grantee), g)
        }
    }
}

pub open spec fn passes(
    grants: Seq<AdminGrant>,
    known: Map<PlayerId, AdminGrant>,
    n: nat,
) -> Map<PlayerId, AdminGrant>
    decreases n,
{
    if n == 0 {
        known
    } else {
        pass(grants, passes(grants, known, (n - 1) as nat))
    }
}

/// The administrators: the first claim, and all that goes back to it.
pub open spec fn chain(grants: Seq<AdminGrant>) -> Map<PlayerId, AdminGrant> {
    match first_claim(grants) {
        Some(root) => passes(
            grants,
            Map::empty().insert(id_of(root.grantee), root),
            grants.len(),
        ),
        None => Map::empty(),
    }
}

/// The first of the administrators, where there are too many.
pub open spec fn foremost_admins(m: Map<PlayerId, AdminGrant>) -> Map<PlayerId, AdminGrant> {
    capped::<(), AdminGrant>(chain(values_of(m)), MAX_ADMINS as nat)
}

/// The administrators that are kept: of the first, those who go back to the
/// root by way of one another.
pub open spec fn admins_pruned(m: Map<PlayerId, AdminGrant>) -> Map<PlayerId, AdminGrant> {
    chain(values_of(foremost_admins(m)))
}

/// How many of a list of appointments are claims.
pub open spec fn claims_in(grants: Seq<AdminGrant>) -> nat
    decreases grants.len(),
{
    if grants.len() == 0 {
        0
    } else {
        claims_in(grants.drop_last()) + (if self_claim(grants.last()) {
            1nat
        } else {
            0
        })
    }
}

/// What is wrong with a set of administrators, the first thing first.
pub open spec fn admins_fault(m: Map<PlayerId, AdminGrant>) -> Option<Seq<char>> {
    if listing(m).len() > MAX_ADMINS {
        Some(
            digits(listing(m).len()) + " admins, over the "@ + digits(MAX_ADMINS as nat) + " cap"@,
        )
    } else if entries_fault::<(), AdminGrant>(m, ()) is Some {
        entries_fault::<(), AdminGrant>(m, ())
    } else if listing(m).len() == 0 {
        None
    } else if claims_in(values_of(m)) == 0 {
        Some("admin set has no root claim"@)
    } else if claims_in(values_of(m)) > 1 {
        Some("admin set has more than one root claim"@)
    } else if admins_pruned(m) != m {
        Some("admin set contains grants that do not chain back to the root"@)
    } else {
        None
    }
}

/// Another look changes nothing once one did not.
proof fn lemma_passes_settle(
    grants: Seq<AdminGrant>,
    known: Map<PlayerId, AdminGrant>,
    k: nat,
    n: nat,
)
    requires
        k <= n,
        pass(grants, passes(grants, known, k)) == passes(grants, known, k),
    ensures
        passes(grants, known, n) == passes(grants, known, k),
    decreases n,
{
    if k < n {
        lemma_passes_settle(grants, known, k, (n - 1) as nat);
    }
}

/// The administrators.
#[derive(Debug, Clone, PartialEq, Eq)]
pub struct AdminsV1 {
    pub grants: SortedMap<PlayerId, AdminGrant>,
}

impl View for AdminsV1 {
    type V = Map<PlayerId, AdminGrant>;

    open spec fn view(&self) -> Map<PlayerId, AdminGrant> {
        self.grants@
    }
}

impl Default for AdminsV1 {
    fn default() -> (r: Self)
        ensures
            r@ == Map::<PlayerId, AdminGrant>::empty(),
    {
        AdminsV1 { grants: SortedMap::new() }
    }
}

impl AdminsV1 {
    pub fn is_empty(&self) -> (r: bool)
        ensures
            r == (listing(self@).len() == 0),
    {
        self.len() == 0
    }

    pub fn len(&self) -> (r: usize)
        ensures
            r == listing(self@).len(),
            self@.dom().finite(),
            self@.dom().len() == r,
    {
        self.grants.len()
    }

    /// The first claim.
    pub fn root(&self) -> (r: Option<&AdminGrant>)
        ensures
            match r {
                Some(g) => first_claim(values_of(self@)) == Some(*g),
                None => first_claim(values_of(self@)) is None,
            },
    {
        let n = self.grants.len();
        let ghost all = values_of(self@);
        let mut best: Option<&AdminGrant> = None;
        let mut i: usize = 0;
        assert(all.take(0) =~= Seq::<AdminGrant>::empty());
        while i < n
            invariant
                i <= n,
                n == self.grants.spec_entries().len(),
                self.grants.spec_entries() == listing(self@),
                all == values_of(self@),
                match best {
                    Some(g) => first_claim(all.take(i as int)) == Some(*g),
                    None => first_claim(all.take(i as int)) is None,
                },
            decreases n - i,
        {
            let g = self.grants.value_at(i);
            assert(all.take(i + 1).drop_last() =~= all.take(i as int));
            assert(all.take(i + 1).last() == *g);
            if g.is_self_claim() {
                let first = match best {
                    Some(other) => g.is_sooner(other),
                    None => true,
                };
                if first {
                    best = Some(g);
                }
            }
            i = i + 1;
        }
        assert(all.take(n as int) =~= all);
        best
    }

    pub fn is_admin(&self, player: PlayerId) -> (r: bool)
        ensures
            r == self@.contains_key(player),
    {
        self.grants.contains_key(&player)
    }

    /// The administrators, the root first, then by when they were appointed.
    pub fn listed(&self) -> (r: Vec<&AdminGrant>)
        ensures
            refs_held(r@) == ordered(values_of(self@), by_seniority()),
    {
        assert(views(self.grants@) =~= self.grants@);
        arrange(all_values(&self.grants), seniority_key, Ghost(by_seniority()))
    }

    /// Look at each appointment in turn. Tells whether anybody became known.
    fn look(&self, known: &mut SortedMap<PlayerId, AdminGrant>) -> (changed: bool)
        ensures
            final(known)@ == pass(values_of(self@), old(known)@),
            !changed ==> final(known)@ == old(known)@,
    {
        let n = self.grants.len();
        let ghost all = values_of(self@);
        let ghost start = known@;
        let mut changed = false;
        let mut i: usize = 0;
        assert(all.take(0) =~= Seq::<AdminGrant>::empty());
        while i < n
            invariant
                i <= n,
                n == self.grants.spec_entries().len(),
                self.grants.spec_entries() == listing(self@),
                all == values_of(self@),
                start == old(known)@,
                known@ == pass(all.take(i as int), start),
                !changed ==> known@ == start,
            decreases n - i,
        {
            let g = self.grants.value_at(i);
            assert(all.take(i + 1).drop_last() =~= all.take(i as int));
            assert(all.take(i + 1).last() == *g);
            let id = g.grantee_id();
            let granter = PlayerId::from(&g.granted_by);
            if !known.contains_key(&id) && !g.is_self_claim() && known.contains_key(&granter) {
                known.insert(id, g.clone());
                changed = true;
            }
            i = i + 1;
        }
        assert(all.take(n as int) =~= all);
        changed
    }

    /// The first claim, and all that goes back to it.
    fn authorised(&self) -> (r: SortedMap<PlayerId, AdminGrant>)
        ensures
            r@ == chain(values_of(self@)),
    {
        let ghost all = values_of(self@);
        let mut known: SortedMap<PlayerId, AdminGrant> = SortedMap::new();
        let root = match self.root() {
            Some(g) => g,
            None => return known,
        };
        known.insert(root.grantee_id(), root.clone());
        let ghost start = known@;
        let n = self.len();
        let mut k: usize = 0;
        let mut settled = false;
        while k < n && !settled
            invariant
                k <= n,
                n == all.len(),
                all == values_of(self@),
                known@ == passes(all, start, k as nat),
                settled ==> pass(all, known@) == known@,
            decreases n - k + (if settled {
                0int
            } else {
                1int
            }),
        {
            let ghost before = known@;
            let changed = self.look(&mut known);
            if changed {
                k = k + 1;
            } else {
                settled = true;
            }
        }
        proof {
            if settled {
                lemma_passes_settle(all, start, k as nat, n as nat);
            }
        }
        known
    }

    /// The administrators that are kept.
    fn kept(&self) -> (r: SortedMap<PlayerId, AdminGrant>)
        ensures
            r@ == admins_pruned(self@),
    {
        let mut first = AdminsV1 { grants: self.authorised() };
        assert(views(first.grants@) =~= first.grants@);
        cut::<(), AdminGrant>(&mut first.grants, MAX_ADMINS);
        assert(views(first.grants@) =~= first.grants@);
        first.authorised()
    }

    /// Drop whatever does not go back to the first claim, and the last of the
    /// administrators where there are too many, with all that they appointed.
    pub fn prune(&mut self)
        ensures
            final(self)@ == admins_pruned(old(self)@),
    {
        self.grants = self.kept();
    }

    fn claim_count(&self) -> (r: usize)
        ensures
            r == claims_in(values_of(self@)),
    {
        let n = self.grants.len();
        let ghost all = values_of(self@);
        let mut count: usize = 0;
        let mut i: usize = 0;
        assert(all.take(0) =~= Seq::<AdminGrant>::empty());
        while i < n
            invariant
                i <= n,
                n == self.grants.spec_entries().len(),
                self.grants.spec_entries() == listing(self@),
                all == values_of(self@),
                count <= i,
                count == claims_in(all.take(i as int)),
            decreases n - i,
        {
            let g = self.grants.value_at(i);
            assert(all.take(i + 1).drop_last() =~= all.take(i as int));
            assert(all.take(i + 1).last() == *g);
            if g.is_self_claim() {
                count = count + 1;
            }
            i = i + 1;
        }
        assert(all.take(n as int) =~= all);
        count
    }

    /// Check that every administrator goes back to the first claim.
    pub fn check(&self) -> (r: Result<(), String>)
        ensures
            fault(r) == admins_fault(self@),
    {
        assert(views(self.grants@) =~= self.grants@);
        let n = self.len();
        if n > MAX_ADMINS {
            let mut text = String::new();
            push_decimal(&mut text, n as u128);
            text.push_str(" admins, over the ");
            push_decimal(&mut text, MAX_ADMINS as u128);
            text.push_str(" cap");
            assert(text@ =~= admins_fault(self@)->0);
            return Err(text);
        }
        match check_all::<(), AdminGrant>(&self.grants, &()) {
            Ok(()) => {},
            Err(e) => return Err(e),
        }
        if n == 0 {
            return Ok(());
        }
        let claims = self.claim_count();
        if claims == 0 {
            return Err("admin set has no root claim".to_string());
        }
        if claims > 1 {
            return Err("admin set has more than one root claim".to_string());
        }
        let pruned = AdminsV1 { grants: self.kept() };
        let left = pruned.len();
        proof {
            lemma_filed(self@);
            lemma_chain_is_part(self@);
            assert(pruned@ == admins_pruned(self@));
            lemma_same_size(pruned@, self@);
        }
        if left != n {
            return Err(
                "admin set contains grants that do not chain back to the root".to_string(),
            );
        }
        Ok(())
    }
}

/// Whether every appointment is filed under its holder.
pub open spec fn filed(m: Map<PlayerId, AdminGrant>) -> bool {
    forall|k: PlayerId| #[trigger] m.contains_key(k) ==> id_of(m[k].grantee) == k
}

proof fn lemma_filed(m: Map<PlayerId, AdminGrant>)
    requires
        m.dom().finite(),
        entries_fault::<(), AdminGrant>(m, ()) is None,
    ensures
        filed(m),
{
    let faults = crate::ledger::filed_faults::<(), AdminGrant>(m, ());
    crate::text::lemma_no_fault(faults, listing(m).len());
    assert forall|k: PlayerId| #[trigger] m.contains_key(k) implies id_of(m[k].grantee) == k by {
        let i = lemma_listing_place(m, k);
        assert(faults(i) is None);
    }
}

/// Whether a map is a part of another.
pub open spec fn part_of<K, V>(a: Map<K, V>, b: Map<K, V>) -> bool {
    forall|k: K| #[trigger] a.contains_key(k) ==> b.contains_key(k) && a[k] == b[k]
}

proof fn lemma_same_size(a: Map<PlayerId, AdminGrant>, b: Map<PlayerId, AdminGrant>)
    requires
        a.dom().finite(),
        b.dom().finite(),
        part_of(a, b),
    ensures
        a.dom().len() == b.dom().len() <==> a == b,
{
    if a.dom().len() == b.dom().len() {
        assert(a.dom().subset_of(b.dom()));
        vstd::set_lib::lemma_subset_equality(a.dom(), b.dom());
        assert(a =~= b);
    }
}

pub proof fn lemma_value_is_held(m: Map<PlayerId, AdminGrant>, i: int)
    requires
        m.dom().finite(),
        filed(m),
        0 <= i < values_of(m).len(),
    ensures
        m.contains_key(id_of(values_of(m)[i].grantee)),
        m[id_of(values_of(m)[i].grantee)] == values_of(m)[i],
{
    lemma_listing_entry(m, i);
}

/// Looking adds only appointments from the list.
proof fn lemma_pass_is_part(
    m: Map<PlayerId, AdminGrant>,
    n: int,
    known: Map<PlayerId, AdminGrant>,
)
    requires
        m.dom().finite(),
        filed(m),
        part_of(known, m),
        0 <= n <= values_of(m).len(),
    ensures
        part_of(pass(values_of(m).take(n), known), m),
    decreases n,
{
    let all = values_of(m);
    if n > 0 {
        assert(all.take(n).drop_last() =~= all.take(n - 1));
        assert(all.take(n).last() == all[n - 1]);
        lemma_pass_is_part(m, n - 1, known);
        lemma_value_is_held(m, n - 1);
    }
}

pub proof fn lemma_passes_are_part(
    m: Map<PlayerId, AdminGrant>,
    known: Map<PlayerId, AdminGrant>,
    n: nat,
)
    requires
        m.dom().finite(),
        filed(m),
        part_of(known, m),
    ensures
        part_of(passes(values_of(m), known, n), m),
    decreases n,
{
    if n > 0 {
        let all = values_of(m);
        lemma_passes_are_part(m, known, (n - 1) as nat);
        assert(all.take(all.len() as int) =~= all);
        lemma_pass_is_part(m, all.len() as int, passes(all, known, (n - 1) as nat));
    }
}

pub proof fn lemma_first_claim_is_held(grants: Seq<AdminGrant>)
    requires
        first_claim(grants) is Some,
    ensures
        exists|i: int| 0 <= i < grants.len() && #[trigger] grants[i] == first_claim(grants)->0,
        self_claim(first_claim(grants)->0),
    decreases grants.len(),
{
    let front = grants.drop_last();
    if first_claim(front) is Some {
        lemma_first_claim_is_held(front);
        let i = choose|i: int|
            0 <= i < front.len() && #[trigger] front[i] == first_claim(front)->0;
        assert(grants[i] == first_claim(front)->0);
    }
    assert(grants[grants.len() - 1] == grants.last());
}

/// The chain is a part of those who were appointed.
pub proof fn lemma_chain_within(m: Map<PlayerId, AdminGrant>)
    requires
        m.dom().finite(),
        filed(m),
    ensures
        part_of(chain(values_of(m)), m),
        chain(values_of(m)).dom().finite(),
        filed(chain(values_of(m))),
{
    let all = values_of(m);
    if first_claim(all) is Some {
        let root = first_claim(all)->0;
        lemma_first_claim_is_held(all);
        let i = choose|i: int| 0 <= i < all.len() && #[trigger] all[i] == root;
        lemma_value_is_held(m, i);
        let start = Map::empty().insert(id_of(root.grantee), root);
        lemma_passes_are_part(m, start, all.len());
    }
    let c = chain(all);
    assert(c.dom().subset_of(m.dom()));
    vstd::set_lib::lemma_len_subset(c.dom(), m.dom());
}

/// The administrators are a part of those who were appointed.
pub proof fn lemma_chain_is_part(m: Map<PlayerId, AdminGrant>)
    requires
        m.dom().finite(),
        filed(m),
    ensures
        part_of(chain(values_of(m)), m),
        part_of(foremost_admins(m), chain(values_of(m))),
        part_of(admins_pruned(m), foremost_admins(m)),
        part_of(admins_pruned(m), m),
        chain(values_of(m)).dom().finite(),
        foremost_admins(m).dom().finite(),
        admins_pruned(m).dom().finite(),
        filed(foremost_admins(m)),
        filed(admins_pruned(m)),
{
    lemma_chain_within(m);
    let c = chain(values_of(m));
    let f = foremost_admins(m);
    assert(f.dom().subset_of(c.dom()));
    vstd::set_lib::lemma_len_subset(f.dom(), c.dom());
    assert forall|k: PlayerId| #[trigger] f.contains_key(k) implies id_of(f[k].grantee) == k by {
        assert(c.contains_key(k) && c[k] == f[k]);
    }
    lemma_chain_within(f);
}

/// Somebody known stays known.
proof fn lemma_pass_keeps(grants: Seq<AdminGrant>, known: Map<PlayerId, AdminGrant>)
    ensures
        part_of(known, pass(grants, known)),
    decreases grants.len(),
{
    if grants.len() > 0 {
        lemma_pass_keeps(grants.drop_last(), known);
    }
}

pub proof fn lemma_passes_keep(grants: Seq<AdminGrant>, known: Map<PlayerId, AdminGrant>, n: nat)
    ensures
        part_of(known, passes(grants, known, n)),
    decreases n,
{
    if n > 0 {
        lemma_passes_keep(grants, known, (n - 1) as nat);
        lemma_pass_keeps(grants, passes(grants, known, (n - 1) as nat));
    }
}

/// Where looking changes nothing, everybody whom somebody known appointed is
/// known.
pub proof fn lemma_settled_is_closed(
    grants: Seq<AdminGrant>,
    known: Map<PlayerId, AdminGrant>,
    i: int,
)
    requires
        pass(grants, known) == known,
        0 <= i < grants.len(),
        !self_claim(grants[i]),
        known.contains_key(id_of(grants[i].granted_by)),
    ensures
        known.contains_key(id_of(grants[i].grantee)),
    decreases grants.len(),
{
    let front = grants.drop_last();
    lemma_pass_keeps(front, known);
    lemma_pass_only_adds(front, known);
    let so_far = pass(front, known);
    assert forall|k: PlayerId| so_far.contains_key(k) implies known.contains_key(k) by {
        let g = grants.last();
        if !known.contains_key(k) {
            assert(pass(grants, known).contains_key(k));
        }
    }
    assert(so_far =~= known);
    if i < front.len() {
        assert(front[i] == grants[i]);
        lemma_settled_is_closed(front, known, i);
    } else {
        assert(grants[i] == grants.last());
    }
}

proof fn lemma_pass_only_adds(grants: Seq<AdminGrant>, known: Map<PlayerId, AdminGrant>)
    ensures
        known.dom().finite() ==> pass(grants, known).dom().finite(),
        known.dom().finite() ==> known.dom().len() <= pass(grants, known).dom().len(),
        known.dom().finite() && pass(grants, known) != known ==> known.dom().len() < pass(
            grants,
            known,
        ).dom().len(),
    decreases grants.len(),
{
    if grants.len() > 0 {
        let front = grants.drop_last();
        lemma_pass_only_adds(front, known);
        lemma_pass_keeps(front, known);
    }
}

/// As many looks as there are appointments are enough.
pub proof fn lemma_enough_passes(m: Map<PlayerId, AdminGrant>, known: Map<PlayerId, AdminGrant>, n: nat)
    requires
        m.dom().finite(),
        filed(m),
        known.dom().finite(),
        part_of(known, m),
        known.dom().len() >= 1,
    ensures
        passes(values_of(m), known, n).dom().finite(),
        pass(values_of(m), passes(values_of(m), known, n)) == passes(values_of(m), known, n)
            || passes(values_of(m), known, n).dom().len() >= n + 1,
    decreases n,
{
    let all = values_of(m);
    if n > 0 {
        let before = passes(all, known, (n - 1) as nat);
        lemma_enough_passes(m, known, (n - 1) as nat);
        lemma_pass_only_adds(all, before);
    }
}

/// Everybody who goes back to the first claim is an administrator, and nobody
/// else is: each is the root or was appointed by one of them, and whom one of
/// them appointed is one of them.
pub proof fn law_admins_go_back_to_the_root(m: Map<PlayerId, AdminGrant>, k: PlayerId)
    requires
        m.dom().finite(),
        filed(m),
        m.contains_key(k),
        first_claim(values_of(m)) is Some,
    ensures
        ({
            let root = first_claim(values_of(m))->0;
            let all = chain(values_of(m));
            &&& all.contains_key(id_of(root.grantee))
            &&& all[id_of(root.grantee)] == root
            &&& all.contains_key(k) <==> k == id_of(root.grantee) || (!self_claim(m[k])
                && all.contains_key(id_of(m[k].granted_by)))
        }),
{
    let vals = values_of(m);
    let root = first_claim(vals)->0;
    lemma_first_claim_is_held(vals);
    let r = choose|r: int| 0 <= r < vals.len() && #[trigger] vals[r] == root;
    lemma_value_is_held(m, r);
    let start = Map::empty().insert(id_of(root.grantee), root);
    let all = chain(vals);
    lemma_passes_keep(vals, start, vals.len());
    assert(start.contains_key(id_of(root.grantee)));
    assert(start.dom() =~= Set::empty().insert(id_of(root.grantee)));
    lemma_enough_passes(m, start, vals.len());
    lemma_chain_is_part(m);
    assert(all.dom().subset_of(m.dom()));
    vstd::set_lib::lemma_len_subset(all.dom(), m.dom());
    crate::sorted_map::lemma_listed(m);
    crate::sorted_map::lemma_as_map_finite(listing(m));
    assert(m.dom().len() == vals.len());
    assert(pass(vals, all) == all);
    let i = lemma_listing_place(m, k);
    assert(vals[i] == m[k]);
    if !self_claim(m[k]) && all.contains_key(id_of(m[k].granted_by)) {
        lemma_settled_is_closed(vals, all, i);
    }
    if all.contains_key(k) && k != id_of(root.grantee) {
        lemma_passes_by_known(vals, start, vals.len(), k);
    }
}

/// Whoever became known was appointed by somebody known.
proof fn lemma_pass_by_known(
    grants: Seq<AdminGrant>,
    known: Map<PlayerId, AdminGrant>,
    k: PlayerId,
)
    requires
        pass(grants, known).contains_key(k),
        !known.contains_key(k),
    ensures
        !self_claim(pass(grants, known)[k]),
        pass(grants, known).contains_key(id_of(pass(grants, known)[k].granted_by)),
    decreases grants.len(),
{
    if grants.len() > 0 {
        let front = grants.drop_last();
        if pass(front, known).contains_key(k) {
            lemma_pass_by_known(front, known, k);
        }
    }
}

pub proof fn lemma_passes_by_known(
    grants: Seq<AdminGrant>,
    known: Map<PlayerId, AdminGrant>,
    n: nat,
    k: PlayerId,
)
    requires
        passes(grants, known, n).contains_key(k),
        !known.contains_key(k),
    ensures
        !self_claim(passes(grants, known, n)[k]),
        passes(grants, known, n).contains_key(id_of(passes(grants, known, n)[k].granted_by)),
    decreases n,
{
    if n > 0 {
        let before = passes(grants, known, (n - 1) as nat);
        lemma_pass_keeps(grants, before);
        if before.contains_key(k) {
            lemma_passes_by_known(grants, known, (n - 1) as nat, k);
            assert(before.contains_key(id_of(before[k].granted_by)));
        } else {
            lemma_pass_by_known(grants, before, k);
        }
    }
}

/// The first claim comes before every other: no claim is sooner.
pub proof fn law_the_root_is_the_first_claim(grants: Seq<AdminGrant>, i: int)
    requires
        0 <= i < grants.len(),
        self_claim(grants[i]),
    ensures
        first_claim(grants) is Some,
        self_claim(first_claim(grants)->0),
        !sooner(grants[i], first_claim(grants)->0),
    decreases grants.len(),
{
    let front = grants.drop_last();
    if i < front.len() {
        assert(front[i] == grants[i]);
        law_the_root_is_the_first_claim(front, i);
    } else if first_claim(front) is Some {
        lemma_first_claim_is_held(front);
    }
}

} // verus!
