//! What an administrator may say, whose word counts, and which of two words
//! stands.

use super::notices::{
    absorb_migration, absorb_service, announcement_bytes, announcement_fault, bytes_of_migration,
    migration_fault, service_bytes, service_fault, short_digest, takedown_bytes, takedown_fault,
    Announcement, Migration, ServiceState, Takedown,
};
use super::office::{
    acted, admin_fault, admin_pruned, heard, latest_first, moved_to, outage_message, service_up,
    AdminAction, AdminView,
};
use super::{
    admins_fault, admins_pruned, by_seniority, bytes_of_grant, claims_in, grant_fault, sooner,
    AdminGrant, AdminsV1,
};
use crate::crypto::signature_fault;
use crate::game::setup::nickname_fault;
use crate::game::sig_rank;
use crate::identity::{id_of, GameId, PlayerId};
use crate::ledger::{absorbed, entry_order, lemma_checked_is_sound, sound_map, Entry};
use crate::lists::{law_lists_of_all, values_of};
use crate::order::ordered;
use crate::search::{blank, law_blank_texts_are_white};
use crate::sorted_map::{listing, Ranked};
use crate::text::white_space;
use vstd::prelude::*;
use vstd::utf8::encode_utf8;

verus! {

/// An announcement passes if it says something, in at most 500 bytes, at a time,
/// is named by what it says, and an administrator signed that.
pub proof fn law_sound_announcements(a: Announcement, admins: Map<PlayerId, AdminGrant>)
    requires
        encode_utf8(a.text@).len() <= usize::MAX,
    ensures
        announcement_fault(a, admins) is None <==> {
            let said = announcement_bytes(a.text@, a.at);
            &&& exists|i: int| 0 <= i < a.text@.len() && !white_space(#[trigger] a.text@[i])
            &&& encode_utf8(a.text@).len() <= 500
            &&& a.at > 0
            &&& admins.contains_key(id_of(a.author))
            &&& a.id == short_digest(said)
            &&& signature_fault(a.author.0, said, a.signature.0) is None
        },
{
    law_blank_texts_are_white(a.text@);
}

/// A takedown passes if its reason has at most 200 bytes, it has a time, and an
/// administrator signed it.
pub proof fn law_sound_takedowns(t: Takedown, admins: Map<PlayerId, AdminGrant>)
    requires
        encode_utf8(t.reason@).len() <= usize::MAX,
    ensures
        takedown_fault(t, admins) is None <==> {
            &&& encode_utf8(t.reason@).len() <= 200
            &&& t.at > 0
            &&& admins.contains_key(id_of(t.author))
            &&& signature_fault(
                t.author.0,
                takedown_bytes(t.game_id, t.reason@, t.at),
                t.signature.0,
            ) is None
        },
{
}

/// A word on the service passes if its message has at most 500 bytes, it has a
/// time, and an administrator signed it.
pub proof fn law_sound_service_notices(s: ServiceState, admins: Map<PlayerId, AdminGrant>)
    requires
        encode_utf8(s.message@).len() <= usize::MAX,
    ensures
        service_fault(s, admins) is None <==> {
            &&& encode_utf8(s.message@).len() <= 500
            &&& s.at > 0
            &&& admins.contains_key(id_of(s.author))
            &&& signature_fault(
                s.author.0,
                service_bytes(s.available, s.message@, s.at),
                s.signature.0,
            ) is None
        },
{
}

/// A word of a move passes if its message has at most 500 bytes, it has a time,
/// an administrator signed it, and, unless it calls the move off, the new
/// address is one.
pub proof fn law_sound_moves_elsewhere(m: Migration, admins: Map<PlayerId, AdminGrant>)
    requires
        encode_utf8(m.message@).len() <= usize::MAX,
    ensures
        migration_fault(m, admins) is None <==> {
            let read = crate::crypto::base58_bytes(m.new_address@);
            &&& encode_utf8(m.message@).len() <= 500
            &&& m.at > 0
            &&& admins.contains_key(id_of(m.author))
            &&& m.active ==> read is Some && read->0.len() == 32
            &&& signature_fault(m.author.0, bytes_of_migration(m), m.signature.0) is None
        },
{
}

/// An appointment passes if its nickname is in order, it has a time, and who
/// makes it signed it.
pub proof fn law_sound_appointments(g: AdminGrant)
    ensures
        grant_fault(g) is None <==> {
            &&& nickname_fault(g.nickname@) is None
            &&& g.at > 0
            &&& signature_fault(g.granted_by.0, bytes_of_grant(g), g.signature.0) is None
        },
{
}

/// Of two appointments the earlier counts, and of two at one time just one.
pub proof fn law_the_earlier_appointment_counts(a: AdminGrant, b: AdminGrant)
    ensures
        a.at < b.at ==> sooner(a, b) && !sooner(b, a),
        !(sooner(a, b) && sooner(b, a)),
        a.at == b.at && a.grantee == b.grantee && a.granted_by == b.granted_by && sig_rank(
            a.signature,
        ) < sig_rank(b.signature) ==> sooner(a, b),
{
}

/// Of two words on the service the later stands, in whichever order they come.
pub proof fn law_the_last_word_on_the_service_stands(a: ServiceState, b: ServiceState)
    ensures
        absorb_service(None, a) == Some(a),
        a.at < b.at ==> absorb_service(Some(a), b) == Some(b),
        a.at < b.at ==> absorb_service(Some(b), a) == Some(b),
        a.at == b.at && sig_rank(a.signature) < sig_rank(b.signature) ==> absorb_service(
            Some(a),
            b,
        ) == Some(b) && absorb_service(Some(b), a) == Some(b),
{
}

/// Of two words of a move the later stands, in whichever order they come.
pub proof fn law_the_last_word_of_a_move_stands(a: Migration, b: Migration)
    ensures
        absorb_migration(None, a) == Some(a),
        a.at < b.at ==> absorb_migration(Some(a), b) == Some(b),
        a.at < b.at ==> absorb_migration(Some(b), a) == Some(b),
        a.at == b.at && sig_rank(a.signature) < sig_rank(b.signature) ==> absorb_migration(
            Some(a),
            b,
        ) == Some(b) && absorb_migration(Some(b), a) == Some(b),
{
}

/// A game that was taken down stays down, and of two takedowns of one game the
/// first is remembered.
pub proof fn law_the_first_takedown_is_remembered(m: Map<GameId, Takedown>, t: Takedown, k: GameId)
    ensures
        ({
            let after = absorbed::<AdminsV1, Takedown>(m, t);
            &&& after.contains_key(k) <==> m.contains_key(k) || k == t.game_id
            &&& k != t.game_id && m.contains_key(k) ==> after[k] == m[k]
            &&& !m.contains_key(t.game_id) ==> after[t.game_id] == t
            &&& m.contains_key(t.game_id) && t.at < m[t.game_id].at ==> after[t.game_id] == t
            &&& m.contains_key(t.game_id) && t.at > m[t.game_id].at ==> after[t.game_id]
                == m[t.game_id]
        }),
{
}

/// The announcements are listed whole, the latest first.
pub proof fn law_the_latest_announcement_comes_first(
    m: Map<[u8; 16], Announcement>,
    a: Announcement,
)
    requires
        m.dom().finite(),
    ensures
        ({
            let list = ordered(values_of(m), latest_first());
            &&& list.contains(a) <==> exists|k: [u8; 16]| #[trigger] m.contains_key(k) && m[k] == a
            &&& list.len() == m.dom().len()
            &&& forall|i: int, j: int|
                0 <= i < j < list.len() ==> (#[trigger] list[i]).at >= (#[trigger] list[j]).at
        }),
{
    law_lists_of_all(m, latest_first(), a);
}

/// The administrators are listed whole: who claimed the office for themselves,
/// then those who were appointed, the earlier first.
pub proof fn law_the_senior_administrator_comes_first(m: Map<PlayerId, AdminGrant>, g: AdminGrant)
    requires
        m.dom().finite(),
    ensures
        ({
            let list = ordered(values_of(m), by_seniority());
            &&& list.contains(g) <==> exists|k: PlayerId| #[trigger] m.contains_key(k) && m[k] == g
            &&& list.len() == m.dom().len()
            &&& forall|i: int, j: int|
                0 <= i < j < list.len() ==> {
                    let (one, other) = (#[trigger] list[i], #[trigger] list[j]);
                    let (own, theirs) = (
                        one.grantee == one.granted_by,
                        other.grantee == other.granted_by,
                    );
                    &&& theirs ==> own
                    &&& own == theirs ==> one.at <= other.at
                }
        }),
{
    law_lists_of_all(m, by_seniority(), g);
}

/// What is left of administration with given administrators: all that they
/// said, and nothing that anybody else said.
pub proof fn law_every_administrator_is_heard(
    a: AdminView,
    admins: Map<PlayerId, AdminGrant>,
    n: [u8; 16],
    game: GameId,
)
    ensures
        ({
            let h = heard(a, admins);
            &&& h.grants == admins
            &&& h.announcements.contains_key(n) <==> a.announcements.contains_key(n)
                && admins.contains_key(id_of(a.announcements[n].author))
            &&& h.announcements.contains_key(n) ==> h.announcements[n] == a.announcements[n]
            &&& h.takedowns.contains_key(game) <==> a.takedowns.contains_key(game)
                && admins.contains_key(id_of(a.takedowns[game].author))
            &&& h.takedowns.contains_key(game) ==> h.takedowns[game] == a.takedowns[game]
            &&& h.service is Some <==> a.service is Some && admins.contains_key(
                id_of((a.service->0).author),
            )
            &&& h.service is Some ==> h.service == a.service
            &&& h.migration is Some <==> a.migration is Some && admins.contains_key(
                id_of((a.migration->0).author),
            )
            &&& h.migration is Some ==> h.migration == a.migration
        }),
{
}

/// Each act touches only what it is about, and one that does not pass touches
/// nothing.
pub proof fn law_acts_touch_what_they_are_about(
    a: AdminView,
    n: Announcement,
    t: Takedown,
    s: ServiceState,
    m: Migration,
    g: AdminGrant,
)
    ensures
        ({
            let after = acted(a, AdminAction::Announce(n));
            &&& announcement_fault(n, a.grants) is Some ==> after == a
            &&& announcement_fault(n, a.grants) is None ==> after.announcements.contains_key(n.id)
            &&& after == (AdminView { announcements: after.announcements, ..a })
        }),
        ({
            let after = acted(a, AdminAction::TakeDown(t));
            &&& takedown_fault(t, a.grants) is Some ==> after == a
            &&& takedown_fault(t, a.grants) is None ==> after.takedowns.contains_key(t.game_id)
            &&& after == (AdminView { takedowns: after.takedowns, ..a })
        }),
        ({
            let after = acted(a, AdminAction::Service(s));
            &&& service_fault(s, a.grants) is Some ==> after == a
            &&& service_fault(s, a.grants) is None ==> after.service is Some && (after.service->0).at
                >= s.at
            &&& after == (AdminView { service: after.service, ..a })
        }),
        ({
            let after = acted(a, AdminAction::Migrate(m));
            &&& migration_fault(m, a.grants) is Some ==> after == a
            &&& migration_fault(m, a.grants) is None ==> after.migration is Some && (
            after.migration->0).at >= m.at
            &&& after == (AdminView { migration: after.migration, ..a })
        }),
        acted(a, AdminAction::Grant(g)) == a,
{
}

/// A set of administrators passes if it has at most fifty, each appointment is
/// in order and filed under whom it appoints, and either there is none or just
/// one claims the office for themselves and all the others go back to that
/// claim.
pub proof fn law_sound_administrators(m: Map<PlayerId, AdminGrant>)
    requires
        m.dom().finite(),
    ensures
        admins_fault(m) is None <==> {
            &&& listing(m).len() <= 50
            &&& forall|k: PlayerId| #[trigger]
                m.contains_key(k) ==> id_of(m[k].grantee) == k && grant_fault(m[k]) is None
            &&& listing(m).len() == 0 || (claims_in(values_of(m)) == 1 && admins_pruned(m) == m)
        },
{
    lemma_checked_is_sound::<(), AdminGrant>(m, ());
    if sound_map::<(), AdminGrant>(m, ()) {
        assert forall|k: PlayerId| #[trigger] m.contains_key(k) implies id_of(m[k].grantee) == k
            && grant_fault(m[k]) is None by {
            assert(<AdminGrant as Entry<()>>::key_of(m[k]) == k);
        }
    }
}

/// Administration keeps at most twenty announcements and five hundred
/// takedowns, the latest of each, and drops none while there is room.
pub proof fn law_the_latest_notices_stay(
    a: AdminView,
    kept: [u8; 16],
    dropped: [u8; 16],
    down: GameId,
    forgotten: GameId,
)
    requires
        a.announcements.dom().finite(),
        a.takedowns.dom().finite(),
    ensures
        ({
            let p = admin_pruned(a);
            let h = heard(a, admins_pruned(a.grants));
            &&& listing(p.announcements).len() <= 20 && listing(p.takedowns).len() <= 500
            &&& listing(h.announcements).len() <= 20 ==> p.announcements == h.announcements
            &&& listing(h.takedowns).len() <= 500 ==> p.takedowns == h.takedowns
            &&& p.announcements.contains_key(kept) && h.announcements.contains_key(dropped)
                && !p.announcements.contains_key(dropped) ==> a.announcements[kept].at
                >= a.announcements[dropped].at
            &&& p.takedowns.contains_key(down) && h.takedowns.contains_key(forgotten)
                && !p.takedowns.contains_key(forgotten) ==> a.takedowns[down].at
                >= a.takedowns[forgotten].at
            &&& p.service == h.service && p.migration == h.migration && p.grants == h.grants
        }),
{
    super::office::law_notices_are_capped(a);
    let p = admin_pruned(a);
    let h = heard(a, admins_pruned(a.grants));
    assert(h.announcements.dom().subset_of(a.announcements.dom()));
    vstd::set_lib::lemma_len_subset(h.announcements.dom(), a.announcements.dom());
    assert(h.takedowns.dom().subset_of(a.takedowns.dom()));
    vstd::set_lib::lemma_len_subset(h.takedowns.dom(), a.takedowns.dom());
    if p.announcements.contains_key(kept) && h.announcements.contains_key(dropped)
        && !p.announcements.contains_key(dropped) {
        crate::order::law_the_foremost_stay(
            h.announcements,
            entry_order::<AdminsV1, Announcement>(),
            20,
            kept,
            dropped,
        );
    }
    if p.takedowns.contains_key(down) && h.takedowns.contains_key(forgotten)
        && !p.takedowns.contains_key(forgotten) {
        crate::order::law_the_foremost_stay(
            h.takedowns,
            entry_order::<AdminsV1, Takedown>(),
            500,
            down,
            forgotten,
        );
    }
}

/// Administration passes if its administrators do, and each thing said is filed
/// where it belongs and passes by their appointments.
pub proof fn law_sound_administration(a: AdminView)
    requires
        a.announcements.dom().finite(),
        a.takedowns.dom().finite(),
    ensures
        admin_fault(a) is None <==> {
            &&& admins_fault(a.grants) is None
            &&& forall|k: [u8; 16]| #[trigger]
                a.announcements.contains_key(k) ==> a.announcements[k].id == k
                    && announcement_fault(a.announcements[k], a.grants) is None
            &&& forall|k: GameId| #[trigger]
                a.takedowns.contains_key(k) ==> a.takedowns[k].game_id == k && takedown_fault(
                    a.takedowns[k],
                    a.grants,
                ) is None
            &&& a.service is Some ==> service_fault(a.service->0, a.grants) is None
            &&& a.migration is Some ==> migration_fault(a.migration->0, a.grants) is None
        },
{
    let notes = super::office::announcement_faults(a.announcements, a.grants);
    let downs = super::office::takedown_faults(a.takedowns, a.grants);
    crate::text::lemma_no_fault(notes, listing(a.announcements).len());
    crate::text::lemma_no_fault(downs, listing(a.takedowns).len());
    if admin_fault(a) is None {
        assert forall|k: [u8; 16]| #[trigger] a.announcements.contains_key(k) implies a.announcements[k].id
            == k && announcement_fault(a.announcements[k], a.grants) is None by {
            let i = crate::sorted_map::lemma_listing_place(a.announcements, k);
            assert(notes(i) is None);
        }
        assert forall|k: GameId| #[trigger] a.takedowns.contains_key(k) implies a.takedowns[k].game_id
            == k && takedown_fault(a.takedowns[k], a.grants) is None by {
            let i = crate::sorted_map::lemma_listing_place(a.takedowns, k);
            assert(downs(i) is None);
        }
    } else {
        assert forall|i: int|
            0 <= i < listing(a.announcements).len() && (forall|k: [u8; 16]| #[trigger]
                a.announcements.contains_key(k) ==> a.announcements[k].id == k
                    && announcement_fault(a.announcements[k], a.grants) is None) implies (
        #[trigger] notes(i)) is None by {
            crate::sorted_map::lemma_listing_entry(a.announcements, i);
        }
        assert forall|i: int|
            0 <= i < listing(a.takedowns).len() && (forall|k: GameId| #[trigger]
                a.takedowns.contains_key(k) ==> a.takedowns[k].game_id == k && takedown_fault(
                    a.takedowns[k],
                    a.grants,
                ) is None) implies (#[trigger] downs(i)) is None by {
            crate::sorted_map::lemma_listing_entry(a.takedowns, i);
        }
    }
}

/// The service is there until an administrator says that it is not, and then
/// until the next word on it; why it is not is told while it is not, if anything
/// was said.
pub proof fn law_the_service_is_as_was_last_said(a: AdminView, s: ServiceState)
    requires
        service_fault(s, a.grants) is None,
        a.service is Some ==> (a.service->0).at < s.at,
    ensures
        ({
            let after = acted(a, AdminAction::Service(s));
            &&& service_up(after) == s.available
            &&& s.available ==> outage_message(after) is None
            &&& !s.available && blank(s.message@) ==> outage_message(after) is None
            &&& !s.available && !blank(s.message@) ==> outage_message(after) == Some(s.message@)
        }),
        a.service is None ==> service_up(a) && outage_message(a) is None,
{
}

/// The lobby has moved once an administrator says so, to where they say, and has
/// not once they call it off.
pub proof fn law_the_lobby_is_where_was_last_said(a: AdminView, m: Migration)
    requires
        migration_fault(m, a.grants) is None,
        a.migration is Some ==> (a.migration->0).at < m.at,
    ensures
        ({
            let after = acted(a, AdminAction::Migrate(m));
            &&& m.active ==> moved_to(after) == Some(m)
            &&& !m.active ==> moved_to(after) is None
        }),
        a.migration is None ==> moved_to(a) is None,
{
}

} // verus!
