//! What a signature binds.
//!
//! Everything that is signed starts with what it is for, and then spells out
//! what it says, every part either of fixed length or with its length before
//! it. So no signature stands for two things.

use crate::admin::notices::{
    announcement_bytes, bytes_of_migration, flag_byte, service_bytes, takedown_bytes, Migration,
};
use crate::admin::{bytes_of_grant, AdminGrant};
use crate::bytes::{le32, le64, le_bytes, le_i32, le_i64, pow256, twos32, twos64};
use crate::certificate::{
    all_move_bytes, law_result_tags_differ, outcome_bytes, record_bytes, setting_bytes,
    tag_of_result, GameRecord,
};
use crate::chess::types::{law_move_bytes_do_not_alias, move_bytes, Move};
use crate::crypto::{Signature, VerifyingKey};
use crate::game::clocks::clock_bytes;
use crate::game::conclusion::{conclusion_bytes, tag_of_kind, ConclusionKind};
use crate::game::moves::signed_move_bytes;
use crate::game::opponent::{acceptance_bytes, decline_bytes, join_bytes, SignedJoin};
use crate::game::setup::{
    color_tag, name_prefix, opening_bytes, optional_key, setup_bytes, term_bytes, GameSetup,
};
use crate::game::{domain, text_field, SIG_DOMAIN};
use crate::identity::GameId;
use crate::leaderboard::{rank_bytes, RankView};
use crate::lobby::entry::{snapshot_bytes, SignedSnapshot};
use crate::player::profile_bytes;
use crate::presence::{bytes_of_presence, status_tag, watching_bytes, SignedPresence};
use vstd::prelude::*;
use vstd::string::*;
use vstd::utf8::{
    encode_utf8, encode_utf8_decode_utf8, is_ascii_chars, is_ascii_chars_encode_utf8,
};

verus! {

/// Two sums that are the same are the same part for part, where the first
/// parts are of one length.
proof fn lemma_parts(a: Seq<u8>, x: Seq<u8>, b: Seq<u8>, y: Seq<u8>)
    requires
        a + x == b + y,
        a.len() == b.len(),
    ensures
        a == b,
        x == y,
{
    assert((a + x).take(a.len() as int) =~= a);
    assert((b + y).take(b.len() as int) =~= b);
    assert((a + x).skip(a.len() as int) =~= x);
    assert((b + y).skip(b.len() as int) =~= y);
}

/// The same, where the last parts are of one length.
proof fn lemma_ends(a: Seq<u8>, x: Seq<u8>, b: Seq<u8>, y: Seq<u8>)
    requires
        a + x == b + y,
        x.len() == y.len(),
    ensures
        a == b,
        x == y,
{
    assert((a + x).len() == a.len() + x.len());
    assert((b + y).len() == b.len() + y.len());
    lemma_parts(a, x, b, y);
}

proof fn lemma_le(n: nat, m: nat, k: nat)
    ensures
        le_bytes(n, k).len() == k,
        le_bytes(m, k).len() == k,
        n < pow256(k) && m < pow256(k) && le_bytes(n, k) == le_bytes(m, k) ==> n == m,
    decreases k,
{
    if k > 0 {
        let j = (k - 1) as nat;
        lemma_le(n / 256, m / 256, j);
        if n < pow256(k) && m < pow256(k) && le_bytes(n, k) == le_bytes(m, k) {
            lemma_parts(
                seq![(n % 256) as u8],
                le_bytes(n / 256, j),
                seq![(m % 256) as u8],
                le_bytes(m / 256, j),
            );
            assert(seq![(n % 256) as u8][0] == seq![(m % 256) as u8][0]);
        }
    }
}

proof fn lemma_le32(n: u32, m: u32)
    ensures
        le32(n).len() == 4,
        le32(m).len() == 4,
        le32(n) == le32(m) ==> n == m,
{
    reveal_with_fuel(pow256, 5);
    lemma_le(n as nat, m as nat, 4);
}

proof fn lemma_le64(n: u64, m: u64)
    ensures
        le64(n).len() == 8,
        le64(m).len() == 8,
        le64(n) == le64(m) ==> n == m,
{
    reveal_with_fuel(pow256, 9);
    lemma_le(n as nat, m as nat, 8);
}

proof fn lemma_le_i64(n: i64, m: i64)
    ensures
        le_i64(n).len() == 8,
        le_i64(m).len() == 8,
        le_i64(n) == le_i64(m) ==> n == m,
{
    reveal_with_fuel(pow256, 9);
    lemma_le(twos64(n), twos64(m), 8);
}

proof fn lemma_le_i32(n: i32, m: i32)
    ensures
        le_i32(n).len() == 4,
        le_i32(m).len() == 4,
        le_i32(n) == le_i32(m) ==> n == m,
{
    reveal_with_fuel(pow256, 5);
    lemma_le(twos32(n), twos32(m), 4);
}

/// Whether a text's length fits in front of it.
pub open spec fn short(s: Seq<char>) -> bool {
    encode_utf8(s).len() <= u32::MAX
}

/// Texts with their lengths before them come apart from what follows.
proof fn lemma_texts(s: Seq<char>, x: Seq<u8>, t: Seq<char>, y: Seq<u8>)
    requires
        text_field(s) + x == text_field(t) + y,
        short(s),
        short(t),
    ensures
        s == t,
        x == y,
{
    let n = (encode_utf8(s).len() as usize) as u32;
    let m = (encode_utf8(t).len() as usize) as u32;
    lemma_le32(n, m);
    assert(text_field(s) + x =~= le32(n) + (encode_utf8(s) + x));
    assert(text_field(t) + y =~= le32(m) + (encode_utf8(t) + y));
    lemma_parts(le32(n), encode_utf8(s) + x, le32(m), encode_utf8(t) + y);
    lemma_parts(encode_utf8(s), x, encode_utf8(t), y);
    encode_utf8_decode_utf8(s);
    encode_utf8_decode_utf8(t);
}

proof fn lemma_text(s: Seq<char>, t: Seq<char>)
    requires
        text_field(s) == text_field(t),
        short(s),
        short(t),
    ensures
        s == t,
{
    assert(text_field(s) + Seq::<u8>::empty() =~= text_field(s));
    assert(text_field(t) + Seq::<u8>::empty() =~= text_field(t));
    lemma_texts(s, Seq::empty(), t, Seq::empty());
}

proof fn lemma_ids(g: GameId, h: GameId)
    ensures
        g.0@.len() == 32,
        h.0@.len() == 32,
        g.0@ == h.0@ ==> g == h,
{
    if g.0@ == h.0@ {
        assert(g.0 =~= h.0);
    }
}

proof fn lemma_keys(g: VerifyingKey, h: VerifyingKey)
    ensures
        g.0@.len() == 32,
        h.0@.len() == 32,
        g.0@ == h.0@ ==> g == h,
{
    if g.0@ == h.0@ {
        assert(g.0 =~= h.0);
    }
}

proof fn lemma_signatures(g: Signature, h: Signature)
    ensures
        g.0@.len() == 64,
        h.0@.len() == 64,
        g.0@ == h.0@ ==> g == h,
{
    if g.0@ == h.0@ {
        assert(g.0 =~= h.0);
    }
}

/// What signatures, and the hashes of names and offers, are for.
pub open spec fn purposes() -> Seq<Seq<char>> {
    seq![
        "gameid:"@,
        "setup:"@,
        "joinpow:"@,
        "join:"@,
        "accept:"@,
        "decline:"@,
        "move:"@,
        "clock:"@,
        "conclusion:"@,
        "certificate:"@,
        "profile:"@,
        "presence:"@,
        "snapshot:"@,
        "rank:"@,
        "admin-grant:"@,
        "announce:"@,
        "takedown:"@,
        "service:"@,
        "migration:"@,
    ]
}

/// A text that ends with its only colon.
spec fn marked(p: Seq<char>) -> bool {
    &&& is_ascii_chars(p)
    &&& p.len() > 1
    &&& p.last() == ':'
    &&& forall|i: int| 0 <= i < p.len() - 1 ==> #[trigger] p[i] != ':'
}

/// What tells a purpose from the others.
spec fn trait_of(p: Seq<char>) -> (nat, char, char) {
    (p.len(), p[0], p[1])
}

proof fn lemma_purposes(i: int)
    requires
        0 <= i < purposes().len(),
    ensures
        marked(purposes()[i]),
{
    reveal_strlit("gameid:");
    reveal_strlit("setup:");
    reveal_strlit("joinpow:");
    reveal_strlit("join:");
    reveal_strlit("accept:");
    reveal_strlit("decline:");
    reveal_strlit("move:");
    reveal_strlit("clock:");
    reveal_strlit("conclusion:");
    reveal_strlit("certificate:");
    reveal_strlit("profile:");
    reveal_strlit("presence:");
    reveal_strlit("snapshot:");
    reveal_strlit("rank:");
    reveal_strlit("admin-grant:");
    reveal_strlit("announce:");
    reveal_strlit("takedown:");
    reveal_strlit("service:");
    reveal_strlit("migration:");
}

proof fn lemma_purposes_differ(i: int, j: int)
    requires
        0 <= i < j < purposes().len(),
    ensures
        purposes()[i] != purposes()[j],
{
    reveal_strlit("gameid:");
    reveal_strlit("setup:");
    reveal_strlit("joinpow:");
    reveal_strlit("join:");
    reveal_strlit("accept:");
    reveal_strlit("decline:");
    reveal_strlit("move:");
    reveal_strlit("clock:");
    reveal_strlit("conclusion:");
    reveal_strlit("certificate:");
    reveal_strlit("profile:");
    reveal_strlit("presence:");
    reveal_strlit("snapshot:");
    reveal_strlit("rank:");
    reveal_strlit("admin-grant:");
    reveal_strlit("announce:");
    reveal_strlit("takedown:");
    reveal_strlit("service:");
    reveal_strlit("migration:");
    assert(trait_of(purposes()[i]) != trait_of(purposes()[j]));
}

/// What is signed for one purpose is never what is signed for another.
pub proof fn law_purposes_keep_apart(i: int, j: int, x: Seq<u8>, y: Seq<u8>)
    requires
        0 <= i < j < purposes().len(),
    ensures
        domain(purposes()[i]) + x != domain(purposes()[j]) + y,
{
    let p = purposes()[i];
    let q = purposes()[j];
    lemma_purposes(i);
    lemma_purposes(j);
    lemma_purposes_differ(i, j);
    if domain(p) + x == domain(q) + y {
        let d = encode_utf8(SIG_DOMAIN@);
        assert(domain(p) + x =~= d + (encode_utf8(p) + x));
        assert(domain(q) + y =~= d + (encode_utf8(q) + y));
        lemma_parts(d, encode_utf8(p) + x, d, encode_utf8(q) + y);
        is_ascii_chars_encode_utf8(p);
        is_ascii_chars_encode_utf8(q);
        let s = encode_utf8(p) + x;
        assert(s == encode_utf8(q) + y);
        let n = p.len() - 1;
        let m = q.len() - 1;
        assert(s[n] == ':' as u8 && s[m] == ':' as u8);
        assert forall|k: int| 0 <= k < n implies #[trigger] s[k] != ':' as u8 by {
            assert(s[k] == p[k] as u8);
        }
        assert forall|k: int| 0 <= k < m implies #[trigger] s[k] != ':' as u8 by {
            assert(s[k] == q[k] as u8);
        }
        assert(n == m);
        assert forall|k: int| 0 <= k < p.len() implies p[k] == q[k] by {
            assert(s[k] == p[k] as u8 && s[k] == q[k] as u8);
        }
        assert(p =~= q);
    }
}

/// The signature of a move is for one move, at one ply of one game, and at one
/// time.
pub proof fn law_move_signatures_bind(
    g: GameId,
    ply: u32,
    mv: Move,
    at: i64,
    h: GameId,
    other_ply: u32,
    other_mv: Move,
    other_at: i64,
)
    requires
        signed_move_bytes(g, ply, mv, at) == signed_move_bytes(h, other_ply, other_mv, other_at),
    ensures
        g == h,
        ply == other_ply,
        mv == other_mv,
        at == other_at,
{
    let d = domain("move:"@);
    lemma_ids(g, h);
    lemma_le32(ply, other_ply);
    lemma_le_i64(at, other_at);
    lemma_ends(
        d + g.0@ + le32(ply) + move_bytes(mv),
        le_i64(at),
        d + h.0@ + le32(other_ply) + move_bytes(other_mv),
        le_i64(other_at),
    );
    lemma_ends(d + g.0@ + le32(ply), move_bytes(mv), d + h.0@ + le32(other_ply), move_bytes(other_mv));
    lemma_ends(d + g.0@, le32(ply), d + h.0@, le32(other_ply));
    lemma_parts(d, g.0@, d, h.0@);
    law_move_bytes_do_not_alias(mv, other_mv);
}

/// An attestation is for one game and one time.
pub proof fn law_clock_signatures_bind(g: GameId, at: i64, h: GameId, other_at: i64)
    requires
        clock_bytes(g, at) == clock_bytes(h, other_at),
    ensures
        g == h,
        at == other_at,
{
    let d = domain("clock:"@);
    lemma_ids(g, h);
    lemma_le_i64(at, other_at);
    lemma_ends(d + g.0@, le_i64(at), d + h.0@, le_i64(other_at));
    lemma_parts(d, g.0@, d, h.0@);
}

/// A claim is for one outcome, at one ply of one game, and at one time.
pub proof fn law_claim_signatures_bind(
    g: GameId,
    kind: ConclusionKind,
    ply: u32,
    at: i64,
    h: GameId,
    other_kind: ConclusionKind,
    other_ply: u32,
    other_at: i64,
)
    requires
        conclusion_bytes(g, kind, ply, at) == conclusion_bytes(h, other_kind, other_ply, other_at),
    ensures
        g == h,
        kind == other_kind,
        ply == other_ply,
        at == other_at,
{
    let d = domain("conclusion:"@);
    let k = seq![tag_of_kind(kind)];
    let l = seq![tag_of_kind(other_kind)];
    lemma_ids(g, h);
    lemma_le32(ply, other_ply);
    lemma_le_i64(at, other_at);
    lemma_ends(
        d + g.0@ + k + le32(ply),
        le_i64(at),
        d + h.0@ + l + le32(other_ply),
        le_i64(other_at),
    );
    lemma_ends(d + g.0@ + k, le32(ply), d + h.0@ + l, le32(other_ply));
    lemma_ends(d + g.0@, k, d + h.0@, l);
    lemma_parts(d, g.0@, d, h.0@);
    assert(k[0] == l[0]);
}

/// A challenge is declined by one player, in one game, at one time.
pub proof fn law_decline_signatures_bind(
    g: GameId,
    player: VerifyingKey,
    at: i64,
    h: GameId,
    other: VerifyingKey,
    other_at: i64,
)
    requires
        decline_bytes(g, player, at) == decline_bytes(h, other, other_at),
    ensures
        g == h,
        player == other,
        at == other_at,
{
    let d = domain("decline:"@);
    lemma_ids(g, h);
    lemma_keys(player, other);
    lemma_le_i64(at, other_at);
    lemma_ends(d + g.0@ + player.0@, le_i64(at), d + h.0@ + other.0@, le_i64(other_at));
    lemma_ends(d + g.0@, player.0@, d + h.0@, other.0@);
    lemma_parts(d, g.0@, d, h.0@);
}

/// An offer to play is for one game, by one player, under one name.
pub proof fn law_offer_signatures_bind(
    g: GameId,
    player: VerifyingKey,
    at: i64,
    name: Seq<char>,
    nonce: u64,
    h: GameId,
    other: VerifyingKey,
    other_at: i64,
    other_name: Seq<char>,
    other_nonce: u64,
)
    requires
        short(name),
        short(other_name),
        join_bytes(g, player, at, name, nonce) == join_bytes(
            h,
            other,
            other_at,
            other_name,
            other_nonce,
        ),
    ensures
        g == h,
        player == other,
        at == other_at,
        name == other_name,
        nonce == other_nonce,
{
    let d = domain("join:"@);
    lemma_ids(g, h);
    lemma_keys(player, other);
    lemma_le_i64(at, other_at);
    lemma_le64(nonce, other_nonce);
    lemma_parts(
        d + g.0@ + player.0@ + le_i64(at) + le64(nonce),
        text_field(name),
        d + h.0@ + other.0@ + le_i64(other_at) + le64(other_nonce),
        text_field(other_name),
    );
    lemma_text(name, other_name);
    lemma_ends(
        d + g.0@ + player.0@ + le_i64(at),
        le64(nonce),
        d + h.0@ + other.0@ + le_i64(other_at),
        le64(other_nonce),
    );
    lemma_ends(d + g.0@ + player.0@, le_i64(at), d + h.0@ + other.0@, le_i64(other_at));
    lemma_ends(d + g.0@, player.0@, d + h.0@, other.0@);
    lemma_parts(d, g.0@, d, h.0@);
}

/// A seat is given to one player, for one offer, in one game.
pub proof fn law_seat_signatures_bind(g: GameId, j: SignedJoin, h: GameId, k: SignedJoin)
    requires
        acceptance_bytes(g, j) == acceptance_bytes(h, k),
    ensures
        g == h,
        j.player == k.player,
        j.signature == k.signature,
{
    let d = domain("accept:"@);
    lemma_ids(g, h);
    lemma_keys(j.player, k.player);
    lemma_signatures(j.signature, k.signature);
    lemma_ends(
        d + g.0@ + j.player.0@,
        j.signature.0@,
        d + h.0@ + k.player.0@,
        k.signature.0@,
    );
    lemma_ends(d + g.0@, j.player.0@, d + h.0@, k.player.0@);
    lemma_parts(d, g.0@, d, h.0@);
}

/// Whether two sets of terms say the same.
pub open spec fn same_terms(s: GameSetup, t: GameSetup) -> bool {
    &&& s.creator_plays == t.creator_plays
    &&& s.time_control == t.time_control
    &&& s.created_at == t.created_at
    &&& s.challenged == t.challenged
    &&& s.creator_nickname@ == t.creator_nickname@
}

/// The side, the clock and the time come apart from what follows them.
proof fn lemma_openings(s: GameSetup, x: Seq<u8>, t: GameSetup, y: Seq<u8>)
    requires
        opening_bytes(s) + x == opening_bytes(t) + y,
    ensures
        s.creator_plays == t.creator_plays,
        s.time_control == t.time_control,
        s.created_at == t.created_at,
        x == y,
{
    let a = seq![color_tag(s.creator_plays)];
    let b = seq![color_tag(t.creator_plays)];
    let c = s.time_control;
    let d = t.time_control;
    lemma_le32(c.initial_secs, d.initial_secs);
    lemma_le32(c.increment_secs, d.increment_secs);
    lemma_le_i64(s.created_at, t.created_at);
    let a1 = a + le32(c.initial_secs);
    let b1 = b + le32(d.initial_secs);
    let a2 = a1 + le32(c.increment_secs);
    let b2 = b1 + le32(d.increment_secs);
    lemma_parts(opening_bytes(s), x, opening_bytes(t), y);
    lemma_ends(a2, le_i64(s.created_at), b2, le_i64(t.created_at));
    lemma_ends(a1, le32(c.increment_secs), b1, le32(d.increment_secs));
    lemma_ends(a, le32(c.initial_secs), b, le32(d.initial_secs));
    assert(a[0] == b[0]);
}

/// Terms come apart from what follows them.
proof fn lemma_terms(s: GameSetup, x: Seq<u8>, t: GameSetup, y: Seq<u8>)
    requires
        short(s.creator_nickname@),
        short(t.creator_nickname@),
        term_bytes(s) + x == term_bytes(t) + y,
    ensures
        same_terms(s, t),
        x == y,
{
    let more = text_field(s.creator_nickname@) + x;
    let also = text_field(t.creator_nickname@) + y;
    assert(term_bytes(s) + x =~= opening_bytes(s) + (optional_key(s.challenged) + more));
    assert(term_bytes(t) + y =~= opening_bytes(t) + (optional_key(t.challenged) + also));
    lemma_openings(s, optional_key(s.challenged) + more, t, optional_key(t.challenged) + also);
    assert((optional_key(s.challenged) + more)[0] == (optional_key(t.challenged) + also)[0]);
    match (s.challenged, t.challenged) {
        (Some(k), Some(l)) => {
            lemma_keys(k, l);
            lemma_parts(seq![1u8] + k.0@, more, seq![1u8] + l.0@, also);
            lemma_parts(seq![1u8], k.0@, seq![1u8], l.0@);
        },
        (None, None) => {
            lemma_parts(seq![0u8], more, seq![0u8], also);
        },
        _ => {},
    }
    lemma_texts(s.creator_nickname@, x, t.creator_nickname@, y);
}

/// A game's name is made of all of its terms, its creator and its nonce: what is
/// hashed for it tells them.
pub proof fn law_names_cover_all_terms(
    s: GameSetup,
    creator: VerifyingKey,
    t: GameSetup,
    other: VerifyingKey,
)
    requires
        short(s.creator_nickname@),
        short(t.creator_nickname@),
        name_prefix(s, creator) + le64(s.pow_nonce) == name_prefix(t, other) + le64(t.pow_nonce),
    ensures
        creator == other,
        same_terms(s, t),
        s.pow_nonce == t.pow_nonce,
{
    let d = domain("gameid:"@);
    lemma_keys(creator, other);
    lemma_le64(s.pow_nonce, t.pow_nonce);
    lemma_ends(
        d + creator.0@ + term_bytes(s),
        le64(s.pow_nonce),
        d + other.0@ + term_bytes(t),
        le64(t.pow_nonce),
    );
    lemma_parts(d + creator.0@, term_bytes(s), d + other.0@, term_bytes(t));
    lemma_parts(d, creator.0@, d, other.0@);
    assert(term_bytes(s) + Seq::<u8>::empty() =~= term_bytes(s));
    assert(term_bytes(t) + Seq::<u8>::empty() =~= term_bytes(t));
    lemma_terms(s, Seq::empty(), t, Seq::empty());
}

/// Terms are signed for one game.
pub proof fn law_setup_signatures_bind(s: GameSetup, g: GameId, t: GameSetup, h: GameId)
    requires
        short(s.creator_nickname@),
        short(t.creator_nickname@),
        setup_bytes(s, g) == setup_bytes(t, h),
    ensures
        g == h,
        same_terms(s, t),
        s.pow_nonce == t.pow_nonce,
{
    let d = domain("setup:"@);
    lemma_ids(g, h);
    lemma_le64(s.pow_nonce, t.pow_nonce);
    let x = text_field(s.creator_nickname@) + optional_key(s.challenged);
    let y = text_field(t.creator_nickname@) + optional_key(t.challenged);
    let u = opening_bytes(s) + (le64(s.pow_nonce) + x);
    let v = opening_bytes(t) + (le64(t.pow_nonce) + y);
    assert(setup_bytes(s, g) =~= d + g.0@ + u);
    assert(setup_bytes(t, h) =~= d + h.0@ + v);
    lemma_parts(d + g.0@, u, d + h.0@, v);
    lemma_parts(d, g.0@, d, h.0@);
    lemma_openings(s, le64(s.pow_nonce) + x, t, le64(t.pow_nonce) + y);
    lemma_parts(le64(s.pow_nonce), x, le64(t.pow_nonce), y);
    lemma_texts(
        s.creator_nickname@,
        optional_key(s.challenged),
        t.creator_nickname@,
        optional_key(t.challenged),
    );
    assert(optional_key(s.challenged)[0] == optional_key(t.challenged)[0]);
    match (s.challenged, t.challenged) {
        (Some(k), Some(l)) => {
            lemma_keys(k, l);
            lemma_parts(seq![1u8], k.0@, seq![1u8], l.0@);
        },
        _ => {},
    }
}

proof fn lemma_move_lists(ms: Seq<Move>, ns: Seq<Move>)
    requires
        ms.len() == ns.len(),
    ensures
        all_move_bytes(ms).len() == all_move_bytes(ns).len(),
        all_move_bytes(ms) == all_move_bytes(ns) ==> ms == ns,
    decreases ms.len(),
{
    if ms.len() == 0 {
        assert(ms =~= ns);
    } else {
        lemma_move_lists(ms.drop_last(), ns.drop_last());
        if all_move_bytes(ms) == all_move_bytes(ns) {
            lemma_parts(
                all_move_bytes(ms.drop_last()),
                move_bytes(ms.last()),
                all_move_bytes(ns.drop_last()),
                move_bytes(ns.last()),
            );
            law_move_bytes_do_not_alias(ms.last(), ns.last());
            assert(ms =~= ms.drop_last().push(ms.last()));
            assert(ns =~= ns.drop_last().push(ns.last()));
        }
    }
}

/// A record's bytes: who played which game, what they are called, and the rest.
proof fn lemma_record_regrouped(
    head: Seq<u8>,
    white: Seq<u8>,
    black: Seq<u8>,
    outcome: Seq<u8>,
    setting: Seq<u8>,
)
    ensures
        head + white + black + outcome + setting == head + (white + (black + (outcome + setting))),
{
    assert(head + white + black + outcome + setting =~= head + (white + (black + (outcome
        + setting))));
}

/// The game and its players, by their bytes.
proof fn lemma_players(c: GameRecord, d: GameRecord, p: Seq<u8>)
    requires
        p + c.game_id.0@ + c.white.0@ + c.black.0@ == p + d.game_id.0@ + d.white.0@ + d.black.0@,
    ensures
        c.game_id == d.game_id,
        c.white == d.white,
        c.black == d.black,
{
    lemma_ids(c.game_id, d.game_id);
    lemma_keys(c.white, d.white);
    lemma_keys(c.black, d.black);
    lemma_ends(
        p + c.game_id.0@ + c.white.0@,
        c.black.0@,
        p + d.game_id.0@ + d.white.0@,
        d.black.0@,
    );
    lemma_ends(p + c.game_id.0@, c.white.0@, p + d.game_id.0@, d.white.0@);
    lemma_parts(p, c.game_id.0@, p, d.game_id.0@);
}

/// A certificate's signatures are for one record, all of it.
pub proof fn law_certificate_signatures_bind(c: GameRecord, d: GameRecord)
    requires
        short(c.white_nickname) && short(c.black_nickname) && c.moves.len() <= u32::MAX,
        short(d.white_nickname) && short(d.black_nickname) && d.moves.len() <= u32::MAX,
        record_bytes(c) == record_bytes(d),
    ensures
        c == d,
{
    let p = domain("certificate:"@);
    let c1 = outcome_bytes(c) + setting_bytes(c);
    let d1 = outcome_bytes(d) + setting_bytes(d);
    let c2 = text_field(c.black_nickname) + c1;
    let d2 = text_field(d.black_nickname) + d1;
    let c3 = text_field(c.white_nickname) + c2;
    let d3 = text_field(d.white_nickname) + d2;
    let ch = p + c.game_id.0@ + c.white.0@ + c.black.0@;
    let dh = p + d.game_id.0@ + d.white.0@ + d.black.0@;
    lemma_record_regrouped(
        ch,
        text_field(c.white_nickname),
        text_field(c.black_nickname),
        outcome_bytes(c),
        setting_bytes(c),
    );
    lemma_record_regrouped(
        dh,
        text_field(d.white_nickname),
        text_field(d.black_nickname),
        outcome_bytes(d),
        setting_bytes(d),
    );
    lemma_keys(c.white, d.white);
    lemma_keys(c.black, d.black);
    lemma_ids(c.game_id, d.game_id);
    lemma_parts(ch, c3, dh, d3);
    lemma_players(c, d, p);
    lemma_texts(c.white_nickname, c2, d.white_nickname, d2);
    lemma_texts(c.black_nickname, c1, d.black_nickname, d1);
    lemma_outcomes(c, d);
}

proof fn lemma_outcomes(c: GameRecord, d: GameRecord)
    requires
        c.moves.len() <= u32::MAX,
        d.moves.len() <= u32::MAX,
        outcome_bytes(c) + setting_bytes(c) == outcome_bytes(d) + setting_bytes(d),
    ensures
        c.result == d.result,
        c.moves == d.moves,
        c.time_control == d.time_control,
        c.started_at == d.started_at,
        c.finished_at == d.finished_at,
        c.white_rating_before == d.white_rating_before,
        c.black_rating_before == d.black_rating_before,
{
    let n = (c.moves.len() as usize) as u32;
    let m = (d.moves.len() as usize) as u32;
    let a = seq![tag_of_result(c.result)];
    let b = seq![tag_of_result(d.result)];
    lemma_le32(n, m);
    lemma_le32(c.time_control.initial_secs, d.time_control.initial_secs);
    lemma_le32(c.time_control.increment_secs, d.time_control.increment_secs);
    lemma_le_i64(c.started_at, d.started_at);
    lemma_le_i64(c.finished_at, d.finished_at);
    lemma_le_i32(c.white_rating_before, d.white_rating_before);
    lemma_le_i32(c.black_rating_before, d.black_rating_before);
    lemma_ends(outcome_bytes(c), setting_bytes(c), outcome_bytes(d), setting_bytes(d));
    assert(outcome_bytes(c) =~= (a + le32(n)) + all_move_bytes(c.moves));
    assert(outcome_bytes(d) =~= (b + le32(m)) + all_move_bytes(d.moves));
    lemma_parts(a + le32(n), all_move_bytes(c.moves), b + le32(m), all_move_bytes(d.moves));
    lemma_parts(a, le32(n), b, le32(m));
    assert(a[0] == b[0]);
    law_result_tags_differ(c.result, d.result);
    lemma_move_lists(c.moves, d.moves);
    lemma_settings(c, d);
}

proof fn lemma_settings(c: GameRecord, d: GameRecord)
    requires
        setting_bytes(c) == setting_bytes(d),
    ensures
        c.time_control == d.time_control,
        c.started_at == d.started_at,
        c.finished_at == d.finished_at,
        c.white_rating_before == d.white_rating_before,
        c.black_rating_before == d.black_rating_before,
{
    let c1 = le32(c.time_control.initial_secs);
    let d1 = le32(d.time_control.initial_secs);
    let c2 = c1 + le32(c.time_control.increment_secs);
    let d2 = d1 + le32(d.time_control.increment_secs);
    let c3 = c2 + le_i64(c.started_at);
    let d3 = d2 + le_i64(d.started_at);
    let c4 = c3 + le_i64(c.finished_at);
    let d4 = d3 + le_i64(d.finished_at);
    let c5 = c4 + le_i32(c.white_rating_before);
    let d5 = d4 + le_i32(d.white_rating_before);
    lemma_le32(c.time_control.initial_secs, d.time_control.initial_secs);
    lemma_le32(c.time_control.increment_secs, d.time_control.increment_secs);
    lemma_le_i64(c.started_at, d.started_at);
    lemma_le_i64(c.finished_at, d.finished_at);
    lemma_le_i32(c.white_rating_before, d.white_rating_before);
    lemma_le_i32(c.black_rating_before, d.black_rating_before);
    lemma_ends(c5, le_i32(c.black_rating_before), d5, le_i32(d.black_rating_before));
    lemma_ends(c4, le_i32(c.white_rating_before), d4, le_i32(d.white_rating_before));
    lemma_ends(c3, le_i64(c.finished_at), d3, le_i64(d.finished_at));
    lemma_ends(c2, le_i64(c.started_at), d2, le_i64(d.started_at));
    lemma_ends(c1, le32(c.time_control.increment_secs), d1, le32(d.time_control.increment_secs));
}

/// A name is chosen for one page, at one time.
pub proof fn law_profile_signatures_bind(
    player: VerifyingKey,
    name: Seq<char>,
    at: i64,
    other: VerifyingKey,
    other_name: Seq<char>,
    other_at: i64,
)
    requires
        short(name),
        short(other_name),
        profile_bytes(player, name, at) == profile_bytes(other, other_name, other_at),
    ensures
        player == other,
        name == other_name,
        at == other_at,
{
    let d = domain("profile:"@);
    lemma_keys(player, other);
    lemma_le_i64(at, other_at);
    assert(profile_bytes(player, name, at) =~= (d + player.0@) + (text_field(name) + le_i64(at)));
    assert(profile_bytes(other, other_name, other_at) =~= (d + other.0@) + (text_field(other_name)
        + le_i64(other_at)));
    lemma_parts(
        d + player.0@,
        text_field(name) + le_i64(at),
        d + other.0@,
        text_field(other_name) + le_i64(other_at),
    );
    lemma_parts(d, player.0@, d, other.0@);
    lemma_texts(name, le_i64(at), other_name, le_i64(other_at));
}

/// A place in the ranking is signed for one player, one rating and the games
/// that earned it.
pub proof fn law_rank_signatures_bind(e: RankView, f: RankView)
    requires
        short(e.nickname),
        short(f.nickname),
        rank_bytes(e) == rank_bytes(f),
    ensures
        e.player == f.player,
        e.nickname == f.nickname,
        e.rating == f.rating,
        e.games_played == f.games_played,
        e.last_game.record.game_id == f.last_game.record.game_id,
        e.updated_at == f.updated_at,
{
    let d = domain("rank:"@);
    let g = e.last_game.record.game_id;
    let h = f.last_game.record.game_id;
    lemma_keys(e.player, f.player);
    lemma_ids(g, h);
    lemma_le_i32(e.rating, f.rating);
    lemma_le32(e.games_played, f.games_played);
    lemma_le_i64(e.updated_at, f.updated_at);
    let x1 = le_i32(e.rating) + le32(e.games_played);
    let y1 = le_i32(f.rating) + le32(f.games_played);
    let x = x1 + g.0@ + le_i64(e.updated_at);
    let y = y1 + h.0@ + le_i64(f.updated_at);
    assert(rank_bytes(e) =~= (d + e.player.0@) + (text_field(e.nickname) + x));
    assert(rank_bytes(f) =~= (d + f.player.0@) + (text_field(f.nickname) + y));
    lemma_parts(
        d + e.player.0@,
        text_field(e.nickname) + x,
        d + f.player.0@,
        text_field(f.nickname) + y,
    );
    lemma_parts(d, e.player.0@, d, f.player.0@);
    lemma_texts(e.nickname, x, f.nickname, y);
    lemma_ends(x1 + g.0@, le_i64(e.updated_at), y1 + h.0@, le_i64(f.updated_at));
    lemma_ends(x1, g.0@, y1, h.0@);
    lemma_parts(le_i32(e.rating), le32(e.games_played), le_i32(f.rating), le32(f.games_played));
}

/// A snapshot is signed for one game, one position and one time.
pub proof fn law_snapshot_signatures_bind(
    g: GameId,
    s: SignedSnapshot,
    h: GameId,
    t: SignedSnapshot,
)
    requires
        short(s.fen@),
        short(t.fen@),
        snapshot_bytes(g, s) == snapshot_bytes(h, t),
    ensures
        g == h,
        s.fen@ == t.fen@,
        s.ply == t.ply,
        s.result == t.result,
        s.white_ms == t.white_ms,
        s.black_ms == t.black_ms,
        s.updated_at == t.updated_at,
{
    let d = domain("snapshot:"@);
    let a = seq![tag_of_result(s.result)];
    let b = seq![tag_of_result(t.result)];
    lemma_ids(g, h);
    lemma_le32(s.ply, t.ply);
    lemma_le_i64(s.white_ms, t.white_ms);
    lemma_le_i64(s.black_ms, t.black_ms);
    lemma_le_i64(s.updated_at, t.updated_at);
    let x1 = le32(s.ply) + a;
    let y1 = le32(t.ply) + b;
    let x2 = x1 + le_i64(s.white_ms);
    let y2 = y1 + le_i64(t.white_ms);
    let x3 = x2 + le_i64(s.black_ms);
    let y3 = y2 + le_i64(t.black_ms);
    let x = x3 + le_i64(s.updated_at);
    let y = y3 + le_i64(t.updated_at);
    assert(snapshot_bytes(g, s) =~= (d + g.0@) + (text_field(s.fen@) + x));
    assert(snapshot_bytes(h, t) =~= (d + h.0@) + (text_field(t.fen@) + y));
    lemma_parts(d + g.0@, text_field(s.fen@) + x, d + h.0@, text_field(t.fen@) + y);
    lemma_parts(d, g.0@, d, h.0@);
    lemma_texts(s.fen@, x, t.fen@, y);
    lemma_ends(x3, le_i64(s.updated_at), y3, le_i64(t.updated_at));
    lemma_ends(x2, le_i64(s.black_ms), y2, le_i64(t.black_ms));
    lemma_ends(x1, le_i64(s.white_ms), y1, le_i64(t.white_ms));
    lemma_parts(le32(s.ply), a, le32(t.ply), b);
    assert(a[0] == b[0]);
    law_result_tags_differ(s.result, t.result);
}

/// A heartbeat is signed by one player for one name, what they claim, what they
/// watch and one time.
pub proof fn law_presence_signatures_bind(p: SignedPresence, q: SignedPresence)
    requires
        short(p.nickname@),
        short(q.nickname@),
        bytes_of_presence(p) == bytes_of_presence(q),
    ensures
        p.player == q.player,
        p.nickname@ == q.nickname@,
        p.claimed == q.claimed,
        p.watching == q.watching,
        p.updated_at == q.updated_at,
{
    let d = domain("presence:"@);
    let a = seq![status_tag(p.claimed)];
    let b = seq![status_tag(q.claimed)];
    lemma_keys(p.player, q.player);
    lemma_le_i64(p.updated_at, q.updated_at);
    let x1 = a + watching_bytes(p.watching);
    let y1 = b + watching_bytes(q.watching);
    let x = x1 + le_i64(p.updated_at);
    let y = y1 + le_i64(q.updated_at);
    assert(bytes_of_presence(p) =~= (d + p.player.0@) + (text_field(p.nickname@) + x));
    assert(bytes_of_presence(q) =~= (d + q.player.0@) + (text_field(q.nickname@) + y));
    lemma_parts(
        d + p.player.0@,
        text_field(p.nickname@) + x,
        d + q.player.0@,
        text_field(q.nickname@) + y,
    );
    lemma_parts(d, p.player.0@, d, q.player.0@);
    lemma_texts(p.nickname@, x, q.nickname@, y);
    lemma_ends(x1, le_i64(p.updated_at), y1, le_i64(q.updated_at));
    lemma_parts(a, watching_bytes(p.watching), b, watching_bytes(q.watching));
    assert(a[0] == b[0]);
    assert(watching_bytes(p.watching)[0] == watching_bytes(q.watching)[0]);
    if p.watching is Some {
        lemma_ids(p.watching->0, q.watching->0);
        lemma_parts(seq![1u8], (p.watching->0).0@, seq![1u8], (q.watching->0).0@);
    }
}

/// An appointment is signed for whom it appoints, who makes it, one name and
/// one time.
pub proof fn law_appointment_signatures_bind(g: AdminGrant, h: AdminGrant)
    requires
        short(g.nickname@),
        short(h.nickname@),
        bytes_of_grant(g) == bytes_of_grant(h),
    ensures
        g.grantee == h.grantee,
        g.granted_by == h.granted_by,
        g.nickname@ == h.nickname@,
        g.at == h.at,
{
    let d = domain("admin-grant:"@);
    lemma_keys(g.grantee, h.grantee);
    lemma_keys(g.granted_by, h.granted_by);
    lemma_le_i64(g.at, h.at);
    let x = text_field(g.nickname@) + le_i64(g.at);
    let y = text_field(h.nickname@) + le_i64(h.at);
    assert(bytes_of_grant(g) =~= (d + g.grantee.0@ + g.granted_by.0@) + x);
    assert(bytes_of_grant(h) =~= (d + h.grantee.0@ + h.granted_by.0@) + y);
    lemma_parts(d + g.grantee.0@ + g.granted_by.0@, x, d + h.grantee.0@ + h.granted_by.0@, y);
    lemma_parts(d + g.grantee.0@, g.granted_by.0@, d + h.grantee.0@, h.granted_by.0@);
    lemma_parts(d, g.grantee.0@, d, h.grantee.0@);
    lemma_texts(g.nickname@, le_i64(g.at), h.nickname@, le_i64(h.at));
}

/// An announcement is signed for what it says and when.
pub proof fn law_announcement_signatures_bind(
    text: Seq<char>,
    at: i64,
    other: Seq<char>,
    other_at: i64,
)
    requires
        short(text),
        short(other),
        announcement_bytes(text, at) == announcement_bytes(other, other_at),
    ensures
        text == other,
        at == other_at,
{
    let d = domain("announce:"@);
    lemma_le_i64(at, other_at);
    assert(announcement_bytes(text, at) =~= d + (text_field(text) + le_i64(at)));
    assert(announcement_bytes(other, other_at) =~= d + (text_field(other) + le_i64(other_at)));
    lemma_parts(d, text_field(text) + le_i64(at), d, text_field(other) + le_i64(other_at));
    lemma_texts(text, le_i64(at), other, le_i64(other_at));
}

/// A takedown is signed for one game, one reason and one time.
pub proof fn law_takedown_signatures_bind(
    g: GameId,
    reason: Seq<char>,
    at: i64,
    h: GameId,
    other: Seq<char>,
    other_at: i64,
)
    requires
        short(reason),
        short(other),
        takedown_bytes(g, reason, at) == takedown_bytes(h, other, other_at),
    ensures
        g == h,
        reason == other,
        at == other_at,
{
    let d = domain("takedown:"@);
    lemma_ids(g, h);
    lemma_le_i64(at, other_at);
    let x = text_field(reason) + le_i64(at);
    let y = text_field(other) + le_i64(other_at);
    assert(takedown_bytes(g, reason, at) =~= (d + g.0@) + x);
    assert(takedown_bytes(h, other, other_at) =~= (d + h.0@) + y);
    lemma_parts(d + g.0@, x, d + h.0@, y);
    lemma_parts(d, g.0@, d, h.0@);
    lemma_texts(reason, le_i64(at), other, le_i64(other_at));
}

/// A word on the service is signed for whether it is there, one message and one
/// time.
pub proof fn law_service_signatures_bind(
    on: bool,
    message: Seq<char>,
    at: i64,
    other_on: bool,
    other: Seq<char>,
    other_at: i64,
)
    requires
        short(message),
        short(other),
        service_bytes(on, message, at) == service_bytes(other_on, other, other_at),
    ensures
        on == other_on,
        message == other,
        at == other_at,
{
    let d = domain("service:"@);
    let a = seq![flag_byte(on)];
    let b = seq![flag_byte(other_on)];
    lemma_le_i64(at, other_at);
    let x = text_field(message) + le_i64(at);
    let y = text_field(other) + le_i64(other_at);
    assert(service_bytes(on, message, at) =~= (d + a) + x);
    assert(service_bytes(other_on, other, other_at) =~= (d + b) + y);
    lemma_parts(d + a, x, d + b, y);
    lemma_parts(d, a, d, b);
    assert(a[0] == b[0]);
    lemma_texts(message, le_i64(at), other, le_i64(other_at));
}

/// A word of a move is signed for where to, one message, whether the move
/// stands and one time.
pub proof fn law_migration_signatures_bind(m: Migration, n: Migration)
    requires
        short(m.new_address@),
        short(n.new_address@),
        short(m.message@),
        short(n.message@),
        bytes_of_migration(m) == bytes_of_migration(n),
    ensures
        m.new_address@ == n.new_address@,
        m.message@ == n.message@,
        m.active == n.active,
        m.at == n.at,
{
    let d = domain("migration:"@);
    let a = seq![flag_byte(m.active)];
    let b = seq![flag_byte(n.active)];
    lemma_le_i64(m.at, n.at);
    let x1 = text_field(m.message@) + le_i64(m.at);
    let y1 = text_field(n.message@) + le_i64(n.at);
    let x = text_field(m.new_address@) + x1;
    let y = text_field(n.new_address@) + y1;
    assert(bytes_of_migration(m) =~= (d + a) + x);
    assert(bytes_of_migration(n) =~= (d + b) + y);
    lemma_parts(d + a, x, d + b, y);
    lemma_parts(d, a, d, b);
    assert(a[0] == b[0]);
    lemma_texts(m.new_address@, x1, n.new_address@, y1);
    lemma_texts(m.message@, le_i64(m.at), n.message@, le_i64(n.at));
}

} // verus!
