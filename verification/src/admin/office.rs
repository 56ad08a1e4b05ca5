//! The whole of administration, as the lobby carries it.

use super::notices::{
    absorb_migration, absorb_service, announcement_fault, migration_fault, service_fault,
    takedown_fault, Announcement, Migration, ServiceState, Takedown,
};
use super::{
    admins_fault, admins_pruned, AdminGrant, AdminsV1, MAX_ANNOUNCEMENTS, MAX_TAKEDOWNS,
};
use crate::game::sig_less;
use crate::identity::{digest_of, id_of, signature_digest, GameId, PlayerId};
use crate::ledger::{absorb, absorbed, capped, check_all, cut, entries_after, entry_order, Entry};
use crate::lists::{all_values, arrange, keep_where, refs_held, values_of, with_value};
use crate::lobby::{LobbyParametersV1, LobbyStateV1};
use crate::order::{ordered, place_of};
use crate::search::{blank, is_blank};
use crate::sorted_map::{listing, restricted, views, Ranked, SortedMap};
use crate::sync::{marks_of, summarize_map, Record};
use crate::text::fault;
use vstd::prelude::*;
use vstd::string::*;

verus! {

/// An act of an administrator, as it is sent.
#[derive(Debug, PartialEq, Eq)]
pub enum AdminAction {
    Grant(AdminGrant),
    Announce(Announcement),
    TakeDown(Takedown),
    Service(ServiceState),
    Migrate(Migration),
}

impl Clone for AdminAction {
    fn clone(&self) -> (r: Self)
        ensures
            r == *self,
    {
        match self {
            AdminAction::Grant(g) => AdminAction::Grant(g.clone()),
            AdminAction::Announce(a) => AdminAction::Announce(a.clone()),
            AdminAction::TakeDown(t) => AdminAction::TakeDown(t.clone()),
            AdminAction::Service(s) => AdminAction::Service(s.clone()),
            AdminAction::Migrate(m) => AdminAction::Migrate(m.clone()),
        }
    }
}

/// Everything that administrators have done.
#[derive(Debug, Clone, PartialEq, Eq)]
pub struct AdministrationV1 {
    pub admins: AdminsV1,
    pub announcements: SortedMap<[u8; 16], Announcement>,
    pub takedowns: SortedMap<GameId, Takedown>,
    pub service: Option<ServiceState>,
    pub migration: Option<Migration>,
}

/// Whether the service is there.
pub open spec fn service_up(a: AdminView) -> bool {
    a.service is Some ==> (a.service->0).available
}

/// Why the service is not there, where it was said.
pub open spec fn outage_message(a: AdminView) -> Option<Seq<char>> {
    if service_up(a) || blank((a.service->0).message@) {
        None
    } else {
        Some((a.service->0).message@)
    }
}

/// Where the lobby has moved to, where it has.
pub open spec fn moved_to(a: AdminView) -> Option<Migration> {
    match a.migration {
        Some(m) => if m.active {
            Some(m)
        } else {
            None
        },
        None => None,
    }
}

/// What administration holds.
#[verifier::ext_equal]
pub struct AdminView {
    pub grants: Map<PlayerId, AdminGrant>,
    pub announcements: Map<[u8; 16], Announcement>,
    pub takedowns: Map<GameId, Takedown>,
    pub service: Option<ServiceState>,
    pub migration: Option<Migration>,
}

impl View for AdministrationV1 {
    type V = AdminView;

    open spec fn view(&self) -> AdminView {
        AdminView {
            grants: self.admins@,
            announcements: self.announcements@,
            takedowns: self.takedowns@,
            service: self.service,
            migration: self.migration,
        }
    }
}

pub open spec fn no_administration() -> AdminView {
    AdminView {
        grants: Map::empty(),
        announcements: Map::empty(),
        takedowns: Map::empty(),
        service: None,
        migration: None,
    }
}

impl Default for AdministrationV1 {
    fn default() -> (r: Self)
        ensures
            r@ == no_administration(),
    {
        AdministrationV1 {
            admins: AdminsV1::default(),
            announcements: SortedMap::new(),
            takedowns: SortedMap::new(),
            service: None,
            migration: None,
        }
    }
}

/// Announcements, the last first.
pub open spec fn latest_first() -> spec_fn(Announcement) -> (int, int, nat) {
    |a: Announcement| (0int, -(a.at as int), a.id.rank())
}

fn latest_key(a: &Announcement) -> (k: (i128, i128, [u8; 16]))
    ensures
        place_of(k) == latest_first()(a@),
{
    (0, -(a.at as i128), a.id)
}

pub open spec fn announced_by(admins: Map<PlayerId, AdminGrant>) -> spec_fn(Announcement) -> bool {
    |a: Announcement| admins.contains_key(id_of(a.author))
}

pub open spec fn taken_down_by(admins: Map<PlayerId, AdminGrant>) -> spec_fn(Takedown) -> bool {
    |t: Takedown| admins.contains_key(id_of(t.author))
}

/// What of an administration some administrators said.
pub open spec fn heard(a: AdminView, admins: Map<PlayerId, AdminGrant>) -> AdminView {
    AdminView {
        grants: admins,
        announcements: restricted(a.announcements, with_value(announced_by(admins))),
        takedowns: restricted(a.takedowns, with_value(taken_down_by(admins))),
        service: match a.service {
            Some(s) => if admins.contains_key(id_of(s.author)) {
                Some(s)
            } else {
                None
            },
            None => None,
        },
        migration: match a.migration {
            Some(m) => if admins.contains_key(id_of(m.author)) {
                Some(m)
            } else {
                None
            },
            None => None,
        },
    }
}

/// What is left of administration: the administrators who go back to the
/// root, and the latest of what they said.
pub open spec fn admin_pruned(a: AdminView) -> AdminView {
    let said = heard(a, admins_pruned(a.grants));
    AdminView {
        announcements: capped::<AdminsV1, Announcement>(
            said.announcements,
            MAX_ANNOUNCEMENTS as nat,
        ),
        takedowns: capped::<AdminsV1, Takedown>(said.takedowns, MAX_TAKEDOWNS as nat),
        ..said
    }
}

pub open spec fn announcement_faults(
    m: Map<[u8; 16], Announcement>,
    admins: Map<PlayerId, AdminGrant>,
) -> spec_fn(int) -> Option<Seq<char>> {
    |i: int|
        if listing(m)[i].1.id != listing(m)[i].0 {
            Some("announcement stored under the wrong id"@)
        } else {
            announcement_fault(listing(m)[i].1, admins)
        }
}

pub open spec fn takedown_faults(
    m: Map<GameId, Takedown>,
    admins: Map<PlayerId, AdminGrant>,
) -> spec_fn(int) -> Option<Seq<char>> {
    |i: int|
        if listing(m)[i].1.game_id != listing(m)[i].0 {
            Some("takedown stored under the wrong game id"@)
        } else {
            takedown_fault(listing(m)[i].1, admins)
        }
}

/// What is wrong with administration, the first thing first.
pub open spec fn admin_fault(a: AdminView) -> Option<Seq<char>> {
    let announcements = crate::text::first_fault(
        announcement_faults(a.announcements, a.grants),
        listing(a.announcements).len(),
    );
    let takedowns = crate::text::first_fault(
        takedown_faults(a.takedowns, a.grants),
        listing(a.takedowns).len(),
    );
    let service = match a.service {
        Some(s) => service_fault(s, a.grants),
        None => None,
    };
    if admins_fault(a.grants) is Some {
        admins_fault(a.grants)
    } else if announcements is Some {
        announcements
    } else if takedowns is Some {
        takedowns
    } else if service is Some {
        service
    } else {
        match a.migration {
            Some(m) => migration_fault(m, a.grants),
            None => None,
        }
    }
}

/// The appointments among a list of acts.
pub open spec fn grants_in(actions: Seq<AdminAction>) -> Seq<AdminGrant>
    decreases actions.len(),
{
    if actions.len() == 0 {
        Seq::empty()
    } else {
        let rest = grants_in(actions.drop_last());
        match actions.last() {
            AdminAction::Grant(g) => rest.push(g),
            _ => rest,
        }
    }
}

/// Administration with one more act. An appointment is not looked at, and one
/// that is wrong is passed over.
pub open spec fn acted(a: AdminView, action: AdminAction) -> AdminView {
    match action {
        AdminAction::Grant(_) => a,
        AdminAction::Announce(x) => if announcement_fault(x, a.grants) is Some {
            a
        } else {
            AdminView {
                announcements: absorbed::<AdminsV1, Announcement>(a.announcements, x),
                ..a
            }
        },
        AdminAction::TakeDown(x) => if takedown_fault(x, a.grants) is Some {
            a
        } else {
            AdminView { takedowns: absorbed::<AdminsV1, Takedown>(a.takedowns, x), ..a }
        },
        AdminAction::Service(x) => if service_fault(x, a.grants) is Some {
            a
        } else {
            AdminView { service: absorb_service(a.service, x), ..a }
        },
        AdminAction::Migrate(x) => if migration_fault(x, a.grants) is Some {
            a
        } else {
            AdminView { migration: absorb_migration(a.migration, x), ..a }
        },
    }
}

pub open spec fn all_acted(a: AdminView, actions: Seq<AdminAction>) -> AdminView
    decreases actions.len(),
{
    if actions.len() == 0 {
        a
    } else {
        acted(all_acted(a, actions.drop_last()), actions.last())
    }
}

/// Administration once a list of acts has come in, and what was wrong with it.
/// Appointments come first, and with them it is settled who is heard: what
/// others said before goes, and what others say now is passed over.
pub open spec fn admin_after(a: AdminView, actions: Seq<AdminAction>) -> (
    AdminView,
    Option<Seq<char>>,
) {
    let (grants, e) = entries_after::<(), AdminGrant>(a.grants, grants_in(actions), ());
    if e is Some {
        (AdminView { grants, ..a }, e)
    } else {
        (all_acted(heard(a, admins_pruned(grants)), actions), None)
    }
}

/// What a peer tells of its copy of administration.
#[derive(Debug, PartialEq, Eq)]
pub struct AdministrationSummary {
    pub admins: Vec<(PlayerId, u64)>,
    pub announcements: Vec<([u8; 16], u64)>,
    pub takedowns: Vec<(GameId, u64)>,
    pub service: Option<u64>,
    pub migration: Option<u64>,
}

/// What is told of a copy of administration.
#[verifier::ext_equal]
pub struct AdminTold {
    pub admins: Seq<(PlayerId, u64)>,
    pub announcements: Seq<([u8; 16], u64)>,
    pub takedowns: Seq<(GameId, u64)>,
    pub service: Option<u64>,
    pub migration: Option<u64>,
}

impl View for AdministrationSummary {
    type V = AdminTold;

    open spec fn view(&self) -> AdminTold {
        AdminTold {
            admins: self.admins@,
            announcements: self.announcements@,
            takedowns: self.takedowns@,
            service: self.service,
            migration: self.migration,
        }
    }
}

pub open spec fn admin_told(a: AdminView) -> AdminTold {
    AdminTold {
        admins: marks_of::<PlayerId, AdminGrant>(listing(a.grants)),
        announcements: marks_of::<[u8; 16], Announcement>(listing(a.announcements)),
        takedowns: marks_of::<GameId, Takedown>(listing(a.takedowns)),
        service: match a.service {
            Some(s) => Some(digest_of(s.signature)),
            None => None,
        },
        migration: match a.migration {
            Some(m) => Some(digest_of(m.signature)),
            None => None,
        },
    }
}

/// Everything that administrators have done, as acts.
pub open spec fn all_actions(a: AdminView) -> Seq<AdminAction> {
    values_of(a.grants).map_values(|g: AdminGrant| AdminAction::Grant(g)) + values_of(
        a.announcements,
    ).map_values(|x: Announcement| AdminAction::Announce(x)) + values_of(a.takedowns).map_values(
        |x: Takedown| AdminAction::TakeDown(x),
    ) + (match a.service {
        Some(s) => seq![AdminAction::Service(s)],
        None => Seq::empty(),
    }) + (match a.migration {
        Some(m) => seq![AdminAction::Migrate(m)],
        None => Seq::empty(),
    })
}

/// What is sent to one who told of a copy of administration: all of it, where
/// anything differs.
pub open spec fn admin_change(a: AdminView, told: AdminTold) -> Option<Seq<AdminAction>> {
    if told == admin_told(a) || all_actions(a).len() == 0 {
        None
    } else {
        Some(all_actions(a))
    }
}

fn same_marks<K: Ranked>(a: &Vec<(K, u64)>, b: &Vec<(K, u64)>) -> (r: bool)
    ensures
        r == (a@ == b@),
{
    if a.len() != b.len() {
        return false;
    }
    let mut i: usize = 0;
    while i < a.len()
        invariant
            i <= a@.len(),
            a@.len() == b@.len(),
            forall|j: int| 0 <= j < i ==> a@[j] == b@[j],
        decreases a.len() - i,
    {
        if a[i].1 != b[i].1 || !crate::sync::same_key(&a[i].0, &b[i].0) {
            assert(a@[i as int] != b@[i as int]);
            return false;
        }
        i = i + 1;
    }
    assert(a@ =~= b@);
    true
}

impl AdministrationV1 {
    pub fn is_admin(&self, player: PlayerId) -> (r: bool)
        ensures
            r == self@.grants.contains_key(player),
    {
        self.admins.is_admin(player)
    }

    /// The announcements, the last first.
    pub fn recent_announcements(&self) -> (r: Vec<&Announcement>)
        ensures
            refs_held(r@) == ordered(values_of(self@.announcements), latest_first()),
    {
        assert(views(self.announcements@) =~= self.announcements@);
        arrange(all_values(&self.announcements), latest_key, Ghost(latest_first()))
    }

    pub fn is_taken_down(&self, game: &GameId) -> (r: bool)
        ensures
            r == self@.takedowns.contains_key(*game),
    {
        self.takedowns.contains_key(game)
    }

    /// Whether the service is there. It is, unless it was said that it is not.
    pub fn available(&self) -> (r: bool)
        ensures
            r == (match self@.service {
                Some(s) => s.available,
                None => true,
            }),
            r == service_up(self@),
    {
        match &self.service {
            Some(s) => s.available,
            None => true,
        }
    }

    /// Why the service is not there.
    pub fn service_message(&self) -> (r: Option<String>)
        ensures
            match self@.service {
                Some(s) => if !s.available && !blank(s.message@) {
                    r is Some && r->0@ == s.message@
                } else {
                    r is None
                },
                None => r is None,
            },
            (match r {
                Some(text) => Some(text@),
                None => None,
            }) == outage_message(self@),
    {
        match &self.service {
            Some(s) => if !s.available && !is_blank(s.message.as_str()) {
                Some(s.message.clone())
            } else {
                None
            },
            None => None,
        }
    }

    /// Where the lobby has moved to, where it has.
    pub fn migration(&self) -> (r: Option<&Migration>)
        ensures
            match r {
                Some(m) => self@.migration == Some(*m) && m.active,
                None => self@.migration is None || !self@.migration->0.active,
            },
            (match r {
                Some(m) => Some(*m),
                None => None,
            }) == moved_to(self@),
    {
        match &self.migration {
            Some(m) => if m.active {
                Some(m)
            } else {
                None
            },
            None => None,
        }
    }

    /// Whether new games are to be started here. They are, unless the lobby
    /// has moved.
    pub fn accepting_new_games(&self) -> (r: bool)
        ensures
            r == (self@.migration is None || !self@.migration->0.active),
            r == (moved_to(self@) is None),
    {
        self.migration().is_none()
    }

    fn absorb_service(&mut self, s: ServiceState)
        ensures
            final(self)@ == (AdminView {
                service: absorb_service(old(self)@.service, s),
                ..old(self)@
            }),
    {
        let stays = match &self.service {
            Some(c) => !(s.at > c.at || (s.at == c.at && sig_less(&c.signature, &s.signature))),
            None => false,
        };
        if !stays {
            self.service = Some(s);
        }
    }

    fn absorb_migration(&mut self, m: Migration)
        ensures
            final(self)@ == (AdminView {
                migration: absorb_migration(old(self)@.migration, m),
                ..old(self)@
            }),
    {
        let stays = match &self.migration {
            Some(c) => !(m.at > c.at || (m.at == c.at && sig_less(&c.signature, &m.signature))),
            None => false,
        };
        if !stays {
            self.migration = Some(m);
        }
    }

    /// Drop whatever is not an administrator's, and what there is too much of.
    pub fn prune(&mut self)
        ensures
            final(self)@ == admin_pruned(old(self)@),
    {
        self.admins.prune();
        self.drop_unheard();
        assert(views(self.announcements@) =~= self.announcements@);
        cut::<AdminsV1, Announcement>(&mut self.announcements, MAX_ANNOUNCEMENTS);
        assert(views(self.announcements@) =~= self.announcements@);
        assert(views(self.takedowns@) =~= self.takedowns@);
        cut::<AdminsV1, Takedown>(&mut self.takedowns, MAX_TAKEDOWNS);
        assert(views(self.takedowns@) =~= self.takedowns@);
    }

    /// Drop whatever is not an administrator's.
    fn drop_unheard(&mut self)
        ensures
            final(self)@ == heard(old(self)@, old(self)@.grants),
    {
        let ghost admins = self.admins@;
        let who = &self.admins;
        let announces = |a: &Announcement| -> (b: bool)
            ensures
                b == announced_by(who@)(a@),
        {
            who.is_admin(a.author_id())
        };
        assert(views(self.announcements@) =~= self.announcements@);
        keep_where(&mut self.announcements, announces, Ghost(announced_by(admins)));
        assert(views(self.announcements@) =~= self.announcements@);
        let takes_down = |t: &Takedown| -> (b: bool)
            ensures
                b == taken_down_by(who@)(t@),
        {
            who.is_admin(t.author_id())
        };
        assert(views(self.takedowns@) =~= self.takedowns@);
        keep_where(&mut self.takedowns, takes_down, Ghost(taken_down_by(admins)));
        assert(views(self.takedowns@) =~= self.takedowns@);
        let speaks = match &self.service {
            Some(s) => self.admins.is_admin(s.author_id()),
            None => true,
        };
        if !speaks {
            self.service = None;
        }
        let moves = match &self.migration {
            Some(m) => self.admins.is_admin(m.author_id()),
            None => true,
        };
        if !moves {
            self.migration = None;
        }
    }

    /// Check everything: who the administrators are, and that what was said is
    /// theirs.
    pub fn check(&self) -> (r: Result<(), String>)
        ensures
            fault(r) == admin_fault(self@),
    {
        match self.admins.check() {
            Ok(()) => {},
            Err(e) => return Err(e),
        }
        assert(views(self.announcements@) =~= self.announcements@);
        assert(views(self.takedowns@) =~= self.takedowns@);
        assert(crate::ledger::filed_faults::<AdminsV1, Announcement>(
            self.announcements@,
            self.admins,
        ) =~= announcement_faults(self.announcements@, self.admins@));
        assert(crate::ledger::filed_faults::<AdminsV1, Takedown>(self.takedowns@, self.admins)
            =~= takedown_faults(self.takedowns@, self.admins@));
        match check_all::<AdminsV1, Announcement>(&self.announcements, &self.admins) {
            Ok(()) => {},
            Err(e) => return Err(e),
        }
        match check_all::<AdminsV1, Takedown>(&self.takedowns, &self.admins) {
            Ok(()) => {},
            Err(e) => return Err(e),
        }
        match &self.service {
            Some(s) => match s.verify(&self.admins) {
                Ok(()) => {},
                Err(e) => return Err(e),
            },
            None => {},
        }
        match &self.migration {
            Some(m) => m.verify(&self.admins),
            None => Ok(()),
        }
    }

    pub fn verify(&self, _parent: &LobbyStateV1, _params: &LobbyParametersV1) -> (r: Result<
        (),
        String,
    >)
        ensures
            fault(r) == admin_fault(self@),
    {
        self.check()
    }

    pub fn summarize(&self, _parent: &LobbyStateV1, _params: &LobbyParametersV1) -> (r:
        AdministrationSummary)
        ensures
            r@ == admin_told(self@),
    {
        self.told()
    }

    fn told(&self) -> (r: AdministrationSummary)
        ensures
            r@ == admin_told(self@),
    {
        assert(views(self.admins.grants@) =~= self.admins.grants@);
        assert(views(self.announcements@) =~= self.announcements@);
        assert(views(self.takedowns@) =~= self.takedowns@);
        AdministrationSummary {
            admins: summarize_map(&self.admins.grants),
            announcements: summarize_map(&self.announcements),
            takedowns: summarize_map(&self.takedowns),
            service: match &self.service {
                Some(s) => Some(signature_digest(&s.signature)),
                None => None,
            },
            migration: match &self.migration {
                Some(m) => Some(signature_digest(&m.signature)),
                None => None,
            },
        }
    }

    fn actions(&self) -> (r: Vec<AdminAction>)
        ensures
            r@ == all_actions(self@),
    {
        let mut out: Vec<AdminAction> = Vec::new();
        let n = self.admins.grants.len();
        let ghost grants = values_of(self@.grants).map_values(
            |g: AdminGrant| AdminAction::Grant(g),
        );
        let mut i: usize = 0;
        while i < n
            invariant
                i <= n,
                n == self.admins.grants.spec_entries().len(),
                self.admins.grants.spec_entries() == listing(self@.grants),
                grants == values_of(self@.grants).map_values(
                    |g: AdminGrant| AdminAction::Grant(g),
                ),
                out@ == grants.take(i as int),
            decreases n - i,
        {
            out.push(AdminAction::Grant(self.admins.grants.value_at(i).clone()));
            assert(out@ =~= grants.take(i + 1));
            i = i + 1;
        }
        assert(out@ =~= grants);
        let n = self.announcements.len();
        let ghost notices = values_of(self@.announcements).map_values(
            |x: Announcement| AdminAction::Announce(x),
        );
        let mut i: usize = 0;
        while i < n
            invariant
                i <= n,
                n == self.announcements.spec_entries().len(),
                self.announcements.spec_entries() == listing(self@.announcements),
                notices == values_of(self@.announcements).map_values(
                    |x: Announcement| AdminAction::Announce(x),
                ),
                out@ == grants + notices.take(i as int),
            decreases n - i,
        {
            out.push(AdminAction::Announce(self.announcements.value_at(i).clone()));
            assert(out@ =~= grants + notices.take(i + 1));
            i = i + 1;
        }
        assert(out@ =~= grants + notices);
        let n = self.takedowns.len();
        let ghost marks = values_of(self@.takedowns).map_values(
            |x: Takedown| AdminAction::TakeDown(x),
        );
        let mut i: usize = 0;
        while i < n
            invariant
                i <= n,
                n == self.takedowns.spec_entries().len(),
                self.takedowns.spec_entries() == listing(self@.takedowns),
                marks == values_of(self@.takedowns).map_values(
                    |x: Takedown| AdminAction::TakeDown(x),
                ),
                out@ == grants + notices + marks.take(i as int),
            decreases n - i,
        {
            out.push(AdminAction::TakeDown(self.takedowns.value_at(i).clone()));
            assert(out@ =~= grants + notices + marks.take(i + 1));
            i = i + 1;
        }
        assert(out@ =~= grants + notices + marks);
        match &self.service {
            Some(s) => out.push(AdminAction::Service(s.clone())),
            None => {},
        }
        match &self.migration {
            Some(m) => out.push(AdminAction::Migrate(m.clone())),
            None => {},
        }
        assert(out@ =~= all_actions(self@));
        out
    }

    pub fn delta(
        &self,
        _parent: &LobbyStateV1,
        _params: &LobbyParametersV1,
        old_summary: &AdministrationSummary,
    ) -> (r: Option<Vec<AdminAction>>)
        ensures
            match r {
                Some(d) => admin_change(self@, old_summary@) == Some(d@),
                None => admin_change(self@, old_summary@) is None,
            },
    {
        let mine = self.told();
        let same = same_marks(&mine.admins, &old_summary.admins) && same_marks(
            &mine.announcements,
            &old_summary.announcements,
        ) && same_marks(&mine.takedowns, &old_summary.takedowns) && mine.service
            == old_summary.service && mine.migration == old_summary.migration;
        proof {
            if same {
                assert(old_summary@ =~= mine@);
            }
        }
        if same {
            return None;
        }
        assert(old_summary@ != admin_told(self@));
        let out = self.actions();
        if out.len() == 0 {
            None
        } else {
            Some(out)
        }
    }

    /// Take in the appointments of a list of acts, up to the first bad one.
    fn take_grants(&mut self, actions: &Vec<AdminAction>) -> (r: Result<(), String>)
        ensures
            ({
                let (grants, e) = entries_after::<(), AdminGrant>(
                    old(self)@.grants,
                    grants_in(actions@),
                    (),
                );
                final(self)@ == (AdminView { grants, ..old(self)@ }) && fault(r) == e
            }),
    {
        let ghost start = self@;
        let mut i: usize = 0;
        assert(actions@.take(0) =~= Seq::<AdminAction>::empty());
        while i < actions.len()
            invariant
                i <= actions@.len(),
                start == old(self)@,
                self@ == (AdminView { grants: self@.grants, ..start }),
                entries_after::<(), AdminGrant>(
                    start.grants,
                    grants_in(actions@.take(i as int)),
                    (),
                ) == (self@.grants, None::<Seq<char>>),
            decreases actions.len() - i,
        {
            let ghost next = actions@.take(i + 1);
            assert(next.drop_last() =~= actions@.take(i as int));
            assert(next.last() == actions@[i as int]);
            match &actions[i] {
                AdminAction::Grant(g) => {
                    proof {
                        let gs = grants_in(next);
                        assert(gs.drop_last() =~= grants_in(actions@.take(i as int)));
                        assert(gs.last() == *g);
                    }
                    match g.verify_signature() {
                        Ok(()) => {},
                        Err(e) => {
                            proof {
                                lemma_grants_stop(start.grants, actions@, i + 1);
                            }
                            return Err(e);
                        },
                    }
                    assert(views(self.admins.grants@) =~= self.admins.grants@);
                    absorb::<(), AdminGrant>(&mut self.admins.grants, g.clone());
                    assert(views(self.admins.grants@) =~= self.admins.grants@);
                },
                _ => {},
            }
            i = i + 1;
        }
        assert(actions@.take(actions@.len() as int) =~= actions@);
        Ok(())
    }

    /// Take in one act.
    fn take_act(&mut self, action: &AdminAction)
        ensures
            final(self)@ == acted(old(self)@, *action),
    {
        match action {
            AdminAction::Grant(_) => {},
            AdminAction::Announce(x) => match x.verify(&self.admins) {
                Ok(()) => {
                    assert(views(self.announcements@) =~= self.announcements@);
                    absorb::<AdminsV1, Announcement>(&mut self.announcements, x.clone());
                    assert(views(self.announcements@) =~= self.announcements@);
                },
                Err(_) => {},
            },
            AdminAction::TakeDown(x) => match x.verify(&self.admins) {
                Ok(()) => {
                    assert(views(self.takedowns@) =~= self.takedowns@);
                    absorb::<AdminsV1, Takedown>(&mut self.takedowns, x.clone());
                    assert(views(self.takedowns@) =~= self.takedowns@);
                },
                Err(_) => {},
            },
            AdminAction::Service(x) => match x.verify(&self.admins) {
                Ok(()) => self.absorb_service(x.clone()),
                Err(_) => {},
            },
            AdminAction::Migrate(x) => match x.verify(&self.admins) {
                Ok(()) => self.absorb_migration(x.clone()),
                Err(_) => {},
            },
        }
    }

    /// Take in a list of acts.
    pub fn take_in(&mut self, actions: &Vec<AdminAction>) -> (r: Result<(), String>)
        ensures
            (final(self)@, fault(r)) == admin_after(old(self)@, actions@),
    {
        match self.take_grants(actions) {
            Ok(()) => {},
            Err(e) => return Err(e),
        }
        self.admins.prune();
        self.drop_unheard();
        let ghost settled = self@;
        let mut i: usize = 0;
        assert(actions@.take(0) =~= Seq::<AdminAction>::empty());
        while i < actions.len()
            invariant
                i <= actions@.len(),
                self@ == all_acted(settled, actions@.take(i as int)),
            decreases actions.len() - i,
        {
            let ghost next = actions@.take(i + 1);
            assert(next.drop_last() =~= actions@.take(i as int));
            assert(next.last() == actions@[i as int]);
            self.take_act(&actions[i]);
            i = i + 1;
        }
        assert(actions@.take(actions@.len() as int) =~= actions@);
        Ok(())
    }

    pub fn apply_delta(
        &mut self,
        _parent: &LobbyStateV1,
        _params: &LobbyParametersV1,
        delta: &Option<Vec<AdminAction>>,
    ) -> (r: Result<(), String>)
        ensures
            match *delta {
                Some(d) => (final(self)@, fault(r)) == admin_after(old(self)@, d@),
                None => r is Ok && final(self)@ == old(self)@,
            },
    {
        match delta {
            Some(d) => self.take_in(d),
            None => Ok(()),
        }
    }
}

/// A bad appointment ends the taking in.
proof fn lemma_grants_stop(m: Map<PlayerId, AdminGrant>, actions: Seq<AdminAction>, n: int)
    requires
        0 <= n <= actions.len(),
        entries_after::<(), AdminGrant>(m, grants_in(actions.take(n)), ()).1 is Some,
    ensures
        entries_after::<(), AdminGrant>(m, grants_in(actions), ()) == entries_after::<
            (),
            AdminGrant,
        >(m, grants_in(actions.take(n)), ()),
    decreases actions.len(),
{
    if n == actions.len() {
        assert(actions.take(n) =~= actions);
    } else {
        let front = actions.drop_last();
        assert(front.take(n) =~= actions.take(n));
        lemma_grants_stop(m, front, n);
        let gs = grants_in(actions);
        if let AdminAction::Grant(g) = actions.last() {
            assert(gs.drop_last() =~= grants_in(front));
        }
    }
}

/// Nobody but an administrator is heard.
pub proof fn law_only_admins_are_heard(a: AdminView)
    ensures
        forall|k: [u8; 16]| #[trigger]
            admin_pruned(a).announcements.contains_key(k) ==> admin_pruned(a).grants.contains_key(
                id_of(admin_pruned(a).announcements[k].author),
            ),
        forall|k: GameId| #[trigger]
            admin_pruned(a).takedowns.contains_key(k) ==> admin_pruned(a).grants.contains_key(
                id_of(admin_pruned(a).takedowns[k].author),
            ),
        admin_pruned(a).service matches Some(s) ==> admin_pruned(a).grants.contains_key(
            id_of(s.author),
        ),
        admin_pruned(a).migration matches Some(m) ==> admin_pruned(a).grants.contains_key(
            id_of(m.author),
        ),
{
}

/// Pruning keeps no more announcements and takedowns than there may be.
pub proof fn law_notices_are_capped(a: AdminView)
    requires
        a.announcements.dom().finite(),
        a.takedowns.dom().finite(),
    ensures
        listing(admin_pruned(a).announcements).len() <= MAX_ANNOUNCEMENTS,
        listing(admin_pruned(a).takedowns).len() <= MAX_TAKEDOWNS,
{
    let admins = admins_pruned(a.grants);
    let m = restricted(a.announcements, with_value(announced_by(admins)));
    let order = entry_order::<AdminsV1, Announcement>();
    assert(m.dom().subset_of(a.announcements.dom()));
    vstd::set_lib::lemma_len_subset(m.dom(), a.announcements.dom());
    assert forall|x: [u8; 16], y: [u8; 16]|
        #![trigger m.contains_key(x), m.contains_key(y)]
        m.contains_key(x) && m.contains_key(y) && order(x, m[x]) == order(y, m[y]) implies x
        == y by {
        Ranked::rank_decides(x, y);
    }
    crate::order::law_no_more_than_the_cap(m, order, MAX_ANNOUNCEMENTS as nat);
    let t = restricted(a.takedowns, with_value(taken_down_by(admins)));
    let order = entry_order::<AdminsV1, Takedown>();
    assert(t.dom().subset_of(a.takedowns.dom()));
    vstd::set_lib::lemma_len_subset(t.dom(), a.takedowns.dom());
    assert forall|x: GameId, y: GameId|
        #![trigger t.contains_key(x), t.contains_key(y)]
        t.contains_key(x) && t.contains_key(y) && order(x, t[x]) == order(y, t[y]) implies x
        == y by {
        Ranked::rank_decides(x, y);
    }
    crate::order::law_no_more_than_the_cap(t, order, MAX_TAKEDOWNS as nat);
}

} // verus!
