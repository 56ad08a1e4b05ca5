//! What is let into a game's record, and what is kept of it: who must have
//! signed what, and within which bounds.

use super::certification::{
    absorb_proposal, certificate_of, proposal_fault, proposals_pruned, Outcome, Proposed,
};
use super::clocks::{
    absorb_attestation, attestation_fault, attested, clocks_pruned, ClockAttestation,
};
use super::conclusion::{sigs_of, untold_claims, SignedConclusion};
use super::moves::{absorb_move, signed_move_fault, AuthorizedMove};
use super::opponent::{
    absorb_decline, absorb_offer, absorb_seat, acceptance_bytes, bytes_of_join, decline_bytes,
    decline_fault, join_fault, offer_digest, offer_fault, seat_fault, slot_pruned, SignedAcceptance,
    SignedDecline, SignedJoin, SlotView,
};
use super::replica::{game_told, game_untold};
use super::setup::{
    enough_work, game_id_of, nickname_fault, setup_after, setup_bytes, setup_fault, time_category,
    time_fault, time_label, zero_bits, zero_bits_of_byte, SignedGameSetup, TimeControl,
};
use super::{sig_rank, ChessGameParametersV1, GameView};
use crate::certificate::record_bytes;
use crate::crypto::{signature_fault, VerifyingKey};
use crate::identity::{id_of, GameId, PlayerId};
use crate::sorted_map::{
    first_entries, lemma_first_entries, lemma_listed, lemma_listing_entry, lemma_listing_place,
    listing,
};
use crate::text::digits;
use vstd::prelude::*;
use vstd::string::*;
use vstd::utf8::encode_utf8;

verus! {

/// A game may start with ten seconds to a day on each clock, and add up to five
/// minutes a move.
pub proof fn law_sound_clock_settings(tc: TimeControl)
    ensures
        time_fault(tc) is None <==> 10 <= tc.initial_secs <= 86_400 && tc.increment_secs <= 300,
{
}

/// What a game is called by the time it takes each side over forty moves: under
/// three minutes bullet, under ten blitz, under half an hour rapid.
pub proof fn law_games_are_called_by_their_length(tc: TimeControl)
    ensures
        ({
            let whole = tc.initial_secs + 40 * tc.increment_secs;
            &&& whole < 3 * 60 ==> time_category(tc) == "Bullet"@
            &&& 3 * 60 <= whole < 10 * 60 ==> time_category(tc) == "Blitz"@
            &&& 10 * 60 <= whole < 30 * 60 ==> time_category(tc) == "Rapid"@
            &&& whole >= 30 * 60 ==> time_category(tc) == "Classical"@
        }),
{
}

/// Clock settings are written as whole minutes and the seconds added.
pub proof fn law_settings_are_written_in_minutes(tc: TimeControl, minutes: nat)
    requires
        60 * minutes <= tc.initial_secs < 60 * (minutes + 1),
    ensures
        time_label(tc) == digits(minutes) + "+"@ + digits(tc.increment_secs as nat),
{
    assert(tc.initial_secs / 60 == minutes);
}

/// A byte has as many zero bits in front as it can be doubled before it runs
/// over.
pub proof fn law_zero_bits_of_a_byte(b: u8)
    ensures
        b == 0 <==> zero_bits_of_byte(b) == 8,
        zero_bits_of_byte(b) == 0 ==> 128 <= b,
        zero_bits_of_byte(b) == 1 ==> 64 <= b < 128,
        zero_bits_of_byte(b) == 2 ==> 32 <= b < 64,
        zero_bits_of_byte(b) == 3 ==> 16 <= b < 32,
        zero_bits_of_byte(b) == 4 ==> 8 <= b < 16,
        zero_bits_of_byte(b) == 5 ==> 4 <= b < 8,
        zero_bits_of_byte(b) == 6 ==> 2 <= b < 4,
        zero_bits_of_byte(b) == 7 ==> b == 1,
        zero_bits_of_byte(b) <= 8,
{
}

/// A zero byte in front adds eight zero bits; any other decides the count.
pub proof fn law_zero_bits_add_up(b: u8, rest: Seq<u8>)
    ensures
        b == 0 ==> zero_bits(seq![b] + rest) == 8 + zero_bits(rest),
        b != 0 ==> zero_bits(seq![b] + rest) == zero_bits_of_byte(b),
        zero_bits(Seq::empty()) == 0,
{
    assert((seq![b] + rest).skip(1) =~= rest);
}

/// A digest shows enough work where its first two bytes are zero, and only
/// there.
pub proof fn law_work_shows_in_two_zero_bytes(digest: [u8; 32])
    ensures
        enough_work(digest) <==> digest@[0] == 0 && digest@[1] == 0,
{
    let d = digest@;
    let tail = d.skip(1);
    assert(d =~= seq![d[0]] + tail);
    assert(tail =~= seq![tail[0]] + tail.skip(1));
    law_zero_bits_add_up(d[0], tail);
    law_zero_bits_add_up(tail[0], tail.skip(1));
    law_zero_bits_of_a_byte(d[0]);
    law_zero_bits_of_a_byte(tail[0]);
}

/// A nickname in a game is of no more than 32 bytes.
pub proof fn law_nicknames_fit(nickname: Seq<char>)
    ensures
        nickname_fault(nickname) is None <==> encode_utf8(nickname).len() as usize <= 32,
{
}

/// Terms are taken in exactly where they are the creator's, the game's name took
/// work and is made of these very terms, the clock and the name are sound, they
/// are dated, they challenge nobody or somebody else, and the creator signed
/// them.
pub proof fn law_sound_terms_of_a_game(s: SignedGameSetup, params: ChessGameParametersV1)
    ensures
        setup_fault(s, params) is None <==> {
            &&& s.creator == params.creator
            &&& game_id_of(s.setup, s.creator) == params.game_id
            &&& params.game_id.0@[0] == 0 && params.game_id.0@[1] == 0
            &&& 10 <= s.setup.time_control.initial_secs <= 86_400
            &&& s.setup.time_control.increment_secs <= 300
            &&& encode_utf8(s.setup.creator_nickname@).len() as usize <= 32
            &&& s.setup.created_at > 0
            &&& s.setup.challenged is Some ==> s.setup.challenged->0 != s.creator
            &&& signature_fault(
                s.creator.0,
                setup_bytes(s.setup, params.game_id),
                s.signature.0,
            ) is None
        },
{
    law_work_shows_in_two_zero_bytes(params.game_id.0);
}

/// The first sound terms that come in stay.
pub proof fn law_terms_never_change(
    s: SignedGameSetup,
    incoming: SignedGameSetup,
    params: ChessGameParametersV1,
)
    ensures
        setup_after(Some(s), incoming, params).0 == Some(s),
        setup_fault(incoming, params) is None ==> setup_after(None, incoming, params) == (
            Some(incoming),
            None::<Seq<char>>,
        ),
        setup_fault(incoming, params) is Some ==> setup_after(None, incoming, params).0 is None,
{
}

/// An offer to play is taken in exactly where somebody other than the creator
/// made it, with work, dated and signed, under a name that fits, and, in a
/// challenge, where that is who was challenged.
pub proof fn law_sound_offers(
    j: SignedJoin,
    setup: Option<SignedGameSetup>,
    params: ChessGameParametersV1,
)
    ensures
        offer_fault(j, setup, params) is None <==> {
            &&& join_fault(j, params) is None
            &&& setup is Some && setup->0.setup.challenged is Some ==> j.player
                == setup->0.setup.challenged->0
        },
        join_fault(j, params) is None <==> {
            let digest = offer_digest(params.game_id, j.player, j.pow_nonce);
            &&& j.player != params.creator
            &&& encode_utf8(j.nickname@).len() as usize <= 32
            &&& j.joined_at > 0
            &&& digest@[0] == 0 && digest@[1] == 0
            &&& signature_fault(
                j.player.0,
                bytes_of_join(params.game_id, j),
                j.signature.0,
            ) is None
        },
{
    law_work_shows_in_two_zero_bytes(offer_digest(params.game_id, j.player, j.pow_nonce));
}

/// Somebody is seated exactly where their offer is sound and the creator signed
/// for it, and, in a challenge, where that is who was challenged.
pub proof fn law_sound_seats(
    a: SignedAcceptance,
    setup: Option<SignedGameSetup>,
    params: ChessGameParametersV1,
)
    ensures
        seat_fault(a, setup, params) is None <==> {
            &&& join_fault(a.join, params) is None
            &&& signature_fault(
                params.creator.0,
                acceptance_bytes(params.game_id, a.join),
                a.signature.0,
            ) is None
            &&& setup is Some && setup->0.setup.challenged is Some ==> a.join.player
                == setup->0.setup.challenged->0
        },
{
}

/// A challenge is declined only by whoever was challenged, dated and signed, and
/// a game that is open to all cannot be.
pub proof fn law_sound_declines(
    d: SignedDecline,
    params: ChessGameParametersV1,
    challenged: Option<VerifyingKey>,
)
    ensures
        decline_fault(d, params, challenged) is None <==> {
            &&& challenged == Some(d.player)
            &&& d.at > 0
            &&& signature_fault(
                d.player.0,
                decline_bytes(params.game_id, d.player, d.at),
                d.signature.0,
            ) is None
        },
{
}

/// A move is taken in exactly where it is dated and signed for this game.
pub proof fn law_sound_moves(am: AuthorizedMove, game_id: GameId)
    ensures
        signed_move_fault(am, game_id) is None <==> {
            &&& am.played_at > 0
            &&& signature_fault(
                am.player.0,
                super::moves::signed_move_bytes(game_id, am.ply, am.mv, am.played_at),
                am.signature.0,
            ) is None
        },
{
}

/// A word on the time is taken in exactly where it is dated and signed for this
/// game.
pub proof fn law_sound_attestations(a: ClockAttestation, game_id: GameId)
    ensures
        attestation_fault(a, game_id) is None <==> {
            &&& a.at > 0
            &&& signature_fault(
                a.player.0,
                super::clocks::clock_bytes(game_id, a.at),
                a.signature.0,
            ) is None
        },
{
}

/// Of two moves for one ply the one with the lower signature stays; no other ply
/// is touched.
pub proof fn law_one_move_for_each_ply(m: Map<u32, AuthorizedMove>, am: AuthorizedMove, ply: u32)
    ensures
        ({
            let n = absorb_move(m, am);
            &&& n.contains_key(am.ply)
            &&& !m.contains_key(am.ply) ==> n[am.ply] == am
            &&& m.contains_key(am.ply) ==> n[am.ply] == (if sig_rank(am.signature) < sig_rank(
                m[am.ply].signature,
            ) {
                am
            } else {
                m[am.ply]
            })
            &&& ply != am.ply ==> (n.contains_key(ply) <==> m.contains_key(ply))
            &&& ply != am.ply && m.contains_key(ply) ==> n[ply] == m[ply]
        }),
{
}

/// The latest time that a player signed for is the one that counts; no other
/// player's is touched.
pub proof fn law_the_latest_attestation_counts(
    m: Map<PlayerId, ClockAttestation>,
    a: ClockAttestation,
    key: VerifyingKey,
)
    ensures
        ({
            let n = absorb_attestation(m, a);
            let before = attested(m, a.player);
            &&& attested(n, a.player) is Some
            &&& before is None ==> attested(n, a.player) == Some(a.at)
            &&& before is Some && before->0 <= a.at ==> attested(n, a.player) == Some(a.at)
            &&& before is Some && before->0 > a.at ==> attested(n, a.player) == before
            &&& id_of(key) != id_of(a.player) ==> attested(n, key) == attested(m, key)
            &&& m.contains_key(id_of(key)) ==> attested(m, key) == Some(m[id_of(key)].at)
            &&& !m.contains_key(id_of(key)) ==> attested(m, key) is None
        }),
{
}

/// Of two seats that the creator signed the one with the lower signature stays,
/// and so it is of two declines, and of two offers by one player.
pub proof fn law_the_lower_signature_stays(
    a: SignedAcceptance,
    b: SignedAcceptance,
    d: SignedDecline,
    e: SignedDecline,
    offers: Map<[u8; 32], SignedJoin>,
    j: SignedJoin,
)
    ensures
        absorb_seat(None, a) == Some(a),
        sig_rank(b.signature) < sig_rank(a.signature) ==> absorb_seat(Some(a), b) == Some(b),
        sig_rank(b.signature) >= sig_rank(a.signature) ==> absorb_seat(Some(a), b) == Some(a),
        absorb_decline(None, d) == Some(d),
        sig_rank(e.signature) < sig_rank(d.signature) ==> absorb_decline(Some(d), e) == Some(e),
        sig_rank(e.signature) >= sig_rank(d.signature) ==> absorb_decline(Some(d), e) == Some(d),
        !offers.contains_key(j.player.0) ==> absorb_offer(offers, j) == offers.insert(
            j.player.0,
            j,
        ),
        offers.contains_key(j.player.0) && sig_rank(j.signature) < sig_rank(
            offers[j.player.0].signature,
        ) ==> absorb_offer(offers, j) == offers.insert(j.player.0, j),
        offers.contains_key(j.player.0) && sig_rank(j.signature) >= sig_rank(
            offers[j.player.0].signature,
        ) ==> absorb_offer(offers, j) == offers,
{
}

/// Pruning never takes a seat away. Once somebody is seated no offer is left and
/// no decline; once a challenge is declined no offer is.
pub proof fn law_offers_end_with_a_seat(s: SlotView, k: [u8; 32])
    ensures
        slot_pruned(s).seated == s.seated,
        s.seated is Some ==> !slot_pruned(s).offers.contains_key(k) && slot_pruned(
            s,
        ).declined is None,
        s.seated is None ==> slot_pruned(s).declined == s.declined,
        s.seated is None && s.declined is Some ==> !slot_pruned(s).offers.contains_key(k),
        s.seated is None && s.declined is None && listing(s.offers).len() <= 16
            ==> slot_pruned(s).offers == s.offers,
{
}

/// Pruning keeps the word on the time of both players, and of nobody else.
pub proof fn law_only_players_keep_time(
    m: Map<PlayerId, ClockAttestation>,
    white: VerifyingKey,
    black: VerifyingKey,
    player: PlayerId,
)
    ensures
        clocks_pruned(m, Some((white, black))).contains_key(player) <==> m.contains_key(player) && (
        player == id_of(white) || player == id_of(black)),
        clocks_pruned(m, Some((white, black))).contains_key(player) ==> clocks_pruned(
            m,
            Some((white, black)),
        )[player] == m[player],
        !clocks_pruned(m, None).contains_key(player),
{
}

/// A certificate is put forward only by a player, for this game once it is over,
/// and tells it as it is: its players, its result, its moves and its terms.
pub proof fn law_sound_proposals(p: Proposed, o: Outcome, game_id: GameId)
    ensures
        proposal_fault(p, o, game_id) is None <==> {
            &&& o.keys == Some((p.record.white, p.record.black))
            &&& p.signer == p.record.white || p.signer == p.record.black
            &&& p.record.game_id == game_id
            &&& o.result is WhiteWins || o.result is BlackWins || o.result is Draw
            &&& p.record.result == o.result
            &&& p.record.moves == o.moves
            &&& o.setup is Some
            &&& p.record.time_control == o.setup->0.setup.time_control
            &&& p.record.started_at <= p.record.finished_at <= 4_102_444_800_000
            &&& 100 <= p.record.white_rating_before <= 4000
            &&& 100 <= p.record.black_rating_before <= 4000
            &&& signature_fault(p.signer.0, record_bytes(p.record), p.signature.0) is None
        },
{
}

/// A player has one certificate on the table: of two, the one whose record comes
/// first byte for byte, and of two signatures under one record the lower.
pub proof fn law_one_proposal_for_each_player(m: Map<[u8; 32], Proposed>, p: Proposed)
    ensures
        ({
            let n = absorb_proposal(m, p);
            let k = p.signer.0;
            &&& n.contains_key(k)
            &&& !m.contains_key(k) ==> n[k] == p
            &&& m.contains_key(k) ==> n[k] == m[k] || n[k] == p
            &&& m.contains_key(k) && crate::bytes::lex_less(
                record_bytes(p.record),
                record_bytes(m[k].record),
            ) ==> n[k] == p
            &&& m.contains_key(k) && crate::bytes::lex_less(
                record_bytes(m[k].record),
                record_bytes(p.record),
            ) ==> n[k] == m[k]
            &&& m.contains_key(k) && record_bytes(p.record) == record_bytes(m[k].record)
                && sig_rank(m[k].signature) <= sig_rank(p.signature) ==> n[k] == m[k]
        }),
{
    let k = p.signer.0;
    crate::bytes::lemma_lex_total(record_bytes(p.record), record_bytes(m[k].record));
}

/// A certificate is made exactly where both players put forward the same record,
/// and carries each one's own signature on their own side.
pub proof fn law_certificates_are_made_by_both(
    m: Map<[u8; 32], Proposed>,
    white: VerifyingKey,
    black: VerifyingKey,
)
    ensures
        certificate_of(m, None) is None,
        certificate_of(m, Some((white, black))) is Some <==> {
            &&& m.contains_key(white.0) && m.contains_key(black.0)
            &&& m[white.0].record == m[black.0].record
        },
        certificate_of(m, Some((white, black))) is Some ==> {
            let c = certificate_of(m, Some((white, black)))->0;
            &&& c.record == m[white.0].record
            &&& c.white_signature == m[white.0].signature
            &&& c.black_signature == m[black.0].signature
        },
{
}

/// Certificates are kept once a game is over, from its players, and otherwise
/// not at all.
pub proof fn law_only_players_certify(
    m: Map<[u8; 32], Proposed>,
    white: VerifyingKey,
    black: VerifyingKey,
    k: [u8; 32],
)
    ensures
        proposals_pruned(m, Some((white, black)), true).contains_key(k) <==> m.contains_key(k) && (k
            == white.0 || k == black.0),
        proposals_pruned(m, Some((white, black)), true).contains_key(k) ==> proposals_pruned(
            m,
            Some((white, black)),
            true,
        )[k] == m[k],
        !proposals_pruned(m, Some((white, black)), false).contains_key(k),
        !proposals_pruned(m, None, true).contains_key(k),
{
}

/// A claim is sent exactly where it was not told of.
pub proof fn law_untold_claims_are_sent(
    claims: Seq<SignedConclusion>,
    told: Seq<Seq<u8>>,
    c: SignedConclusion,
)
    ensures
        untold_claims(claims, told).contains(c) <==> claims.contains(c) && !told.contains(
            c.signature.0@,
        ),
    decreases claims.len(),
{
    if claims.len() > 0 {
        let front = claims.drop_last();
        let last = claims.last();
        law_untold_claims_are_sent(front, told, c);
        let rest = untold_claims(front, told);
        let all = untold_claims(claims, told);
        assert(claims =~= front.push(last));
        assert(claims.contains(c) <==> front.contains(c) || c == last) by {
            if front.contains(c) {
                let i = choose|i: int| 0 <= i < front.len() && front[i] == c;
                assert(claims[i] == c);
            }
            if c == last {
                assert(claims[claims.len() - 1] == c);
            }
            if claims.contains(c) && c != last {
                let i = choose|i: int| 0 <= i < claims.len() && claims[i] == c;
                assert(front[i] == c);
            }
        }
        assert(super::conclusion::sig_told(told, last) <==> told.contains(last.signature.0@));
        assert(rest.push(last).contains(c) <==> rest.contains(c) || c == last) by {
            if rest.contains(c) {
                let i = choose|i: int| 0 <= i < rest.len() && rest[i] == c;
                assert(rest.push(last)[i] == c);
            }
            assert(rest.push(last)[rest.len() as int] == last);
            if rest.push(last).contains(c) && c != last {
                let i = choose|i: int| 0 <= i < rest.push(last).len() && rest.push(last)[i] == c;
                assert(rest[i] == c);
            }
        }
        if front.contains(c) && !rest.contains(c) {
            assert(told.contains(c.signature.0@));
        }
    }
}

/// The terms are sent to whoever has none, and to nobody else.
pub proof fn law_terms_are_sent_to_whoever_has_none(g: GameView, other: GameView)
    ensures
        other.setup is None ==> game_untold(g, game_told(other)).setup == g.setup,
        other.setup is Some ==> game_untold(g, game_told(other)).setup is None,
        game_told(other).claims == sigs_of(other.claims),
{
}

/// At most sixteen offers are kept, each as it was made.
pub proof fn law_offers_are_few(s: SlotView, k: [u8; 32])
    requires
        s.offers.dom().finite(),
    ensures
        listing(slot_pruned(s).offers).len() <= 16,
        slot_pruned(s).offers.contains_key(k) ==> s.offers.contains_key(k) && slot_pruned(
            s,
        ).offers[k] == s.offers[k],
{
    lemma_first_entries(s.offers, 16);
    let none = Map::<[u8; 32], SignedJoin>::empty();
    lemma_listed(none);
    if listing(none).len() > 0 {
        lemma_listing_entry(none, 0);
    }
    let kept = first_entries(s.offers, 16);
    if kept.contains_key(k) && listing(s.offers).len() > 16 {
        let i = lemma_listing_place(kept, k);
        lemma_listing_entry(s.offers, i);
    }
}

} // verus!
