//! Why it does not matter when listings give way.
//!
//! Listings give way to newer ones of the same creator, and, where the lobby is
//! full, to those whose turn comes sooner. What one of these limits drops early
//! it would drop late.

use super::entry::LobbyEntry;
use super::games::{
    any_game, by_activity, by_creation, games_pruned, lemma_turns_apart, level, own_before,
    own_games, turns, waits, within_quota, MAX_LISTINGS_PER_CREATOR, MAX_LOBBY_ENTRIES,
    MAX_OPEN_PER_CREATOR,
};
use crate::admin::part_of;
use crate::cutting::{
    before_set, law_cutting_early_changes_nothing, lemma_ahead_counts, lemma_foremost_are_full,
    lemma_foremost_have_few_ahead, never_sinks,
};
use crate::identity::{id_of, GameId, PlayerId};
use crate::join::join;
use crate::order::{
    before, foremost, how_many, law_the_foremost_stay, lemma_ahead_grows, lemma_few_have_few_ahead,
    lemma_fewer_satisfy, lemma_how_many, placed_apart,
};
use crate::sorted_map::{listing, restricted, Ranked};
use vstd::prelude::*;

verus! {

/// Of a part no more than of the whole come before a listing of its creator's.
proof fn lemma_fewer_of_own(
    p: Map<GameId, LobbyEntry>,
    m: Map<GameId, LobbyEntry>,
    k: GameId,
    e: LobbyEntry,
    order: spec_fn(GameId, LobbyEntry) -> (int, int, nat),
    counted: spec_fn(LobbyEntry) -> bool,
)
    requires
        m.dom().finite(),
        part_of(p, m),
    ensures
        p.dom().finite(),
        how_many(listing(p), own_before(k, e, order, counted)) <= how_many(
            listing(m),
            own_before(k, e, order, counted),
        ),
{
    let cond = own_before(k, e, order, counted);
    lemma_fewer_satisfy(p, m, cond, cond);
}

/// The listings of its creator's that come before one.
spec fn own_set(m: Map<GameId, LobbyEntry>, k: GameId, e: LobbyEntry) -> Set<GameId> {
    restricted(m, own_before(k, e, by_activity(), any_game())).dom()
}

proof fn lemma_level_counts(m: Map<GameId, LobbyEntry>, k: GameId, e: LobbyEntry)
    requires
        m.dom().finite(),
    ensures
        own_set(m, k, e).finite(),
        level(m, k, e) == own_set(m, k, e).len(),
{
    lemma_how_many(m, own_before(k, e, by_activity(), any_game()));
}

/// Of two listings of one creator, the one in which something happened later is
/// further up.
proof fn lemma_levels_rise(
    m: Map<GameId, LobbyEntry>,
    j: GameId,
    k: GameId,
)
    requires
        m.dom().finite(),
        m.contains_key(j),
        m.contains_key(k),
        id_of(m[j].setup.creator) == id_of(m[k].setup.creator),
        before(by_activity()(j, m[j]), by_activity()(k, m[k])),
    ensures
        level(m, j, m[j]) < level(m, k, m[k]),
{
    lemma_level_counts(m, j, m[j]);
    lemma_level_counts(m, k, m[k]);
    let (s, t) = (own_set(m, j, m[j]), own_set(m, k, m[k]));
    assert(s.insert(j).subset_of(t));
    assert(!s.contains(j));
    vstd::set_lib::lemma_len_subset(s.insert(j), t);
}

/// No two listings of one creator are on one level.
proof fn lemma_levels_differ(
    m: Map<GameId, LobbyEntry>,
    j: GameId,
    k: GameId,
)
    requires
        m.dom().finite(),
        m.contains_key(j),
        m.contains_key(k),
        id_of(m[j].setup.creator) == id_of(m[k].setup.creator),
        j != k,
    ensures
        before(by_activity()(j, m[j]), by_activity()(k, m[k])) <==> level(m, j, m[j]) < level(
            m,
            k,
            m[k],
        ),
        level(m, j, m[j]) != level(m, k, m[k]),
{
    if j.rank() == k.rank() {
        GameId::rank_decides(j, k);
    }
    if before(by_activity()(j, m[j]), by_activity()(k, m[k])) {
        lemma_levels_rise(m, j, k);
    } else {
        lemma_levels_rise(m, k, j);
    }
}

/// What one more listing does to the level of another.
proof fn lemma_one_more_level(
    m: Map<GameId, LobbyEntry>,
    n: Map<GameId, LobbyEntry>,
    x: GameId,
    k: GameId,
    e: LobbyEntry,
)
    requires
        m.dom().finite(),
        !m.contains_key(x),
        n == m.insert(x, n[x]),
    ensures
        level(n, k, e) == level(m, k, e) + if own_before(k, e, by_activity(), any_game())(
            x,
            n[x],
        ) {
            1nat
        } else {
            0
        },
{
    lemma_level_counts(m, k, e);
    lemma_level_counts(n, k, e);
    let (s, t) = (own_set(m, k, e), own_set(n, k, e));
    if own_before(k, e, by_activity(), any_game())(x, n[x]) {
        assert(t =~= s.insert(x));
    } else {
        assert(t =~= s);
    }
}

/// The listings whose turn comes before a place.
spec fn sooner_set(m: Map<GameId, LobbyEntry>, at: (int, int, nat)) -> Set<GameId> {
    before_set(m, turns(m), at)
}

/// One more listing pushes at most one behind a place, and comes before it then.
proof fn lemma_one_is_pushed_back(
    m: Map<GameId, LobbyEntry>,
    n: Map<GameId, LobbyEntry>,
    x: GameId,
    at: (int, int, nat),
    k: GameId,
)
    requires
        m.dom().finite(),
        !m.contains_key(x),
        n == m.insert(x, n[x]),
        sooner_set(m, at).contains(k),
        !sooner_set(n, at).contains(k),
    ensures
        id_of(m[k].setup.creator) == id_of(n[x].setup.creator),
        sooner_set(n, at).contains(x),
        level(m, k, m[k]) == at.0 || (level(m, k, m[k]) == at.0 - 1 && !before(
            (0, by_activity()(k, m[k]).1, k.rank()),
            (0, at.1, at.2),
        )),
        level(m, k, m[k]) == at.0 ==> before(
            (0, by_activity()(k, m[k]).1, k.rank()),
            (0, at.1, at.2),
        ),
{
    lemma_one_more_level(m, n, x, k, m[k]);
    assert(n[k] == m[k]);
    lemma_levels_differ(n, x, k);
}

proof fn lemma_pushed_back_alone(
    m: Map<GameId, LobbyEntry>,
    n: Map<GameId, LobbyEntry>,
    x: GameId,
    at: (int, int, nat),
    j: GameId,
    k: GameId,
)
    requires
        m.dom().finite(),
        !m.contains_key(x),
        n == m.insert(x, n[x]),
        sooner_set(m, at).contains(j) && !sooner_set(n, at).contains(j),
        sooner_set(m, at).contains(k) && !sooner_set(n, at).contains(k),
    ensures
        j == k,
{
    lemma_one_is_pushed_back(m, n, x, at, j);
    lemma_one_is_pushed_back(m, n, x, at, k);
    if j != k {
        lemma_levels_differ(m, j, k);
    }
}

/// With one more listing no fewer come before a place.
proof fn lemma_one_more(
    m: Map<GameId, LobbyEntry>,
    n: Map<GameId, LobbyEntry>,
    x: GameId,
    at: (int, int, nat),
)
    requires
        m.dom().finite(),
        !m.contains_key(x),
        n == m.insert(x, n[x]),
    ensures
        sooner_set(m, at).finite() && sooner_set(n, at).finite(),
        sooner_set(m, at).len() <= sooner_set(n, at).len(),
{
    let (s, t) = (sooner_set(m, at), sooner_set(n, at));
    assert(s.subset_of(m.dom()));
    vstd::set_lib::lemma_len_subset(s, m.dom());
    assert(t.subset_of(n.dom()));
    vstd::set_lib::lemma_len_subset(t, n.dom());
    if s.subset_of(t) {
        vstd::set_lib::lemma_len_subset(s, t);
    } else {
        let k = choose|k: GameId| s.contains(k) && !t.contains(k);
        lemma_one_is_pushed_back(m, n, x, at, k);
        assert(s.remove(k).insert(x).subset_of(t)) by {
            assert forall|j: GameId| s.remove(k).insert(x).contains(j) implies t.contains(j) by {
                if j != x && !t.contains(j) {
                    lemma_pushed_back_alone(m, n, x, at, j, k);
                }
            }
        }
        assert(!s.remove(k).contains(x));
        vstd::set_lib::lemma_len_subset(s.remove(k).insert(x), t);
    }
}

/// With more listings no fewer come before a place.
proof fn lemma_more_come_before(
    p: Map<GameId, LobbyEntry>,
    m: Map<GameId, LobbyEntry>,
    at: (int, int, nat),
)
    requires
        m.dom().finite(),
        part_of(p, m),
    ensures
        sooner_set(p, at).finite() && sooner_set(m, at).finite(),
        sooner_set(p, at).len() <= sooner_set(m, at).len(),
    decreases m.dom().difference(p.dom()).len(),
{
    assert(p.dom().subset_of(m.dom()));
    vstd::set_lib::lemma_len_subset(p.dom(), m.dom());
    let rest = m.dom().difference(p.dom());
    assert(rest.subset_of(m.dom()));
    vstd::set_lib::lemma_len_subset(rest, m.dom());
    if rest.len() == 0 {
        assert forall|k: GameId| m.contains_key(k) implies p.contains_key(k) by {
            if !p.contains_key(k) {
                assert(rest.contains(k));
            }
        }
        assert(p =~= m);
        lemma_ahead_counts(m, turns(m), at);
    } else {
        let x = rest.choose();
        let n = p.insert(x, m[x]);
        assert(m.dom().difference(n.dom()) =~= rest.remove(x));
        lemma_one_more(p, n, x, at);
        lemma_more_come_before(n, m, at);
    }
}

/// The listings that find a place in a lobby where nobody is over their limits.
pub open spec fn seated(m: Map<GameId, LobbyEntry>) -> Map<GameId, LobbyEntry> {
    foremost(m, turns(m), MAX_LOBBY_ENTRIES as nat)
}

proof fn lemma_seated(m: Map<GameId, LobbyEntry>)
    requires
        m.dom().finite(),
    ensures
        part_of(seated(m), m),
        seated(m).dom().finite(),
        forall|k: GameId| #[trigger]
            m.contains_key(k) ==> (seated(m).contains_key(k) <==> sooner_set(
                m,
                turns(m)(k, m[k]),
            ).len() < MAX_LOBBY_ENTRIES),
{
    lemma_foremost_have_few_ahead(m, turns(m), MAX_LOBBY_ENTRIES as nat);
    assert forall|k: GameId| #[trigger] m.contains_key(k) implies (seated(m).contains_key(k)
        <==> sooner_set(m, turns(m)(k, m[k])).len() < MAX_LOBBY_ENTRIES) by {
        lemma_ahead_counts(m, turns(m), turns(m)(k, m[k]));
    }
}

/// A listing without a place finds none where there are more.
proof fn lemma_no_place_later(
    p: Map<GameId, LobbyEntry>,
    m: Map<GameId, LobbyEntry>,
    k: GameId,
)
    requires
        m.dom().finite(),
        part_of(p, m),
        p.contains_key(k),
        !seated(p).contains_key(k),
    ensures
        !seated(m).contains_key(k),
{
    assert(p.dom().subset_of(m.dom()));
    vstd::set_lib::lemma_len_subset(p.dom(), m.dom());
    lemma_seated(p);
    lemma_seated(m);
    let (here, there) = (turns(p)(k, p[k]), turns(m)(k, m[k]));
    lemma_fewer_of_own(p, m, k, p[k], by_activity(), any_game());
    assert(here == there || before(here, there));
    lemma_ahead_grows(listing(p), turns(p), here, there);
    lemma_ahead_counts(p, turns(p), here);
    lemma_ahead_counts(p, turns(p), there);
    lemma_more_come_before(p, m, there);
}

/// A listing that finds a place among many does among some of them, where those
/// are among the some that find a place.
proof fn lemma_place_among_fewer(
    l: Map<GameId, LobbyEntry>,
    m: Map<GameId, LobbyEntry>,
    k: GameId,
)
    requires
        m.dom().finite(),
        part_of(l, m),
        part_of(seated(m), l),
        seated(m).contains_key(k),
    ensures
        seated(l).contains_key(k),
{
    assert(l.dom().subset_of(m.dom()));
    vstd::set_lib::lemma_len_subset(l.dom(), m.dom());
    lemma_seated(l);
    lemma_seated(m);
    assert(m.contains_key(k) && l.contains_key(k));
    let (s, t) = (own_set(l, k, m[k]), own_set(m, k, m[k]));
    assert forall|j: GameId| #[trigger] t.contains(j) implies s.contains(j) by {
        lemma_levels_rise(m, j, k);
        if !seated(m).contains_key(j) {
            law_the_foremost_stay(m, turns(m), MAX_LOBBY_ENTRIES as nat, k, j);
        }
        assert(l.contains_key(j));
    }
    assert forall|j: GameId| #[trigger] s.contains(j) implies t.contains(j) by {
        assert(l.contains_key(j));
    }
    assert(s =~= t);
    lemma_level_counts(l, k, m[k]);
    lemma_level_counts(m, k, m[k]);
    let at = turns(m)(k, m[k]);
    assert(turns(l)(k, l[k]) == at);
    lemma_more_come_before(l, m, at);
}

/// It does not matter whether listings give way before others come in, or
/// after, where nobody is over their limits.
proof fn lemma_seating_early_changes_nothing(
    x: Map<GameId, LobbyEntry>,
    l: Map<GameId, LobbyEntry>,
    m: Map<GameId, LobbyEntry>,
)
    requires
        m.dom().finite(),
        part_of(x, m),
        part_of(l, m),
        forall|k: GameId| #[trigger]
            m.contains_key(k) && !l.contains_key(k) ==> x.contains_key(k) && !seated(
                x,
            ).contains_key(k),
    ensures
        seated(l) == seated(m),
{
    assert(l.dom().subset_of(m.dom()));
    vstd::set_lib::lemma_len_subset(l.dom(), m.dom());
    lemma_seated(l);
    lemma_seated(m);
    let (early, late) = (seated(l), seated(m));
    assert forall|k: GameId| #[trigger] late.contains_key(k) implies l.contains_key(k) && l[k]
        == late[k] by {
        assert(m.contains_key(k));
        if !l.contains_key(k) {
            lemma_no_place_later(x, m, k);
        }
    }
    assert forall|k: GameId| #[trigger] late.contains_key(k) implies early.contains_key(k) by {
        lemma_place_among_fewer(l, m, k);
    }
    assert(late.dom().subset_of(early.dom()));
    lemma_turns_apart(l);
    lemma_turns_apart(m);
    if m.dom().len() >= MAX_LOBBY_ENTRIES {
        lemma_foremost_are_full(m, turns(m), MAX_LOBBY_ENTRIES as nat);
        lemma_foremost_have_few_ahead(m, turns(m), MAX_LOBBY_ENTRIES as nat);
        lemma_foremost_have_few_ahead(l, turns(l), MAX_LOBBY_ENTRIES as nat);
        lemma_few_have_few_ahead(l, turns(l), MAX_LOBBY_ENTRIES as nat);
        vstd::set_lib::lemma_len_subset(late.dom(), early.dom());
        vstd::set_lib::lemma_subset_equality(late.dom(), early.dom());
    } else {
        crate::sorted_map::lemma_listed(m);
        crate::sorted_map::lemma_as_map_finite(listing(m));
        assert(late =~= m);
    }
    assert(early.dom() =~= late.dom());
    assert(early =~= late);
}

/// The listings that stay within their creators' limits.
pub open spec fn allowed(m: Map<GameId, LobbyEntry>) -> Map<GameId, LobbyEntry> {
    restricted(m, within_quota(m))
}

/// Whether no creator has more open games than they may.
pub open spec fn open_games_fit(m: Map<GameId, LobbyEntry>) -> bool {
    forall|k: GameId| #[trigger]
        m.contains_key(k) && m[k].opponent is None ==> how_many(
            listing(m),
            own_before(k, m[k], by_creation(), waits()),
        ) < MAX_OPEN_PER_CREATOR
}

/// The listings of two maps that agree on those they share.
pub open spec fn together(
    a: Map<GameId, LobbyEntry>,
    b: Map<GameId, LobbyEntry>,
) -> Map<GameId, LobbyEntry> {
    a.union_prefer_right(b)
}

/// Whether two maps agree on the listings they share.
pub open spec fn agreed(a: Map<GameId, LobbyEntry>, b: Map<GameId, LobbyEntry>) -> bool {
    forall|k: GameId|
        #![trigger a.contains_key(k), b.contains_key(k)]
        a.contains_key(k) && b.contains_key(k) ==> a[k] == b[k]
}

/// A creator's listings.
spec fn of_creator(m: Map<GameId, LobbyEntry>, creator: PlayerId) -> Map<GameId, LobbyEntry> {
    restricted(m, own_games(creator, any_game()))
}

/// Where no creator has too many open games, those allowed are the newest of
/// each creator's.
proof fn lemma_allowed_are_the_newest(m: Map<GameId, LobbyEntry>, k: GameId)
    requires
        m.dom().finite(),
        m.contains_key(k),
        open_games_fit(m),
    ensures
        ({
            let own = of_creator(m, id_of(m[k].setup.creator));
            &&& own.dom().finite()
            &&& allowed(m).contains_key(k) <==> foremost(
                own,
                by_creation(),
                MAX_LISTINGS_PER_CREATOR as nat,
            ).contains_key(k)
        }),
{
    let own = of_creator(m, id_of(m[k].setup.creator));
    let at = by_creation()(k, m[k]);
    assert(own.dom().subset_of(m.dom()));
    vstd::set_lib::lemma_len_subset(own.dom(), m.dom());
    lemma_foremost_have_few_ahead(own, by_creation(), MAX_LISTINGS_PER_CREATOR as nat);
    lemma_ahead_counts(own, by_creation(), at);
    lemma_how_many(m, own_before(k, m[k], by_creation(), any_game()));
    assert(before_set(own, by_creation(), at) =~= restricted(
        m,
        own_before(k, m[k], by_creation(), any_game()),
    ).dom());
}

/// A part has no more open games than the whole.
proof fn lemma_open_games_fit_a_part(p: Map<GameId, LobbyEntry>, m: Map<GameId, LobbyEntry>)
    requires
        m.dom().finite(),
        part_of(p, m),
        open_games_fit(m),
    ensures
        open_games_fit(p),
{
    assert forall|k: GameId| #[trigger] p.contains_key(k) && p[k].opponent is None implies how_many(
        listing(p),
        own_before(k, p[k], by_creation(), waits()),
    ) < MAX_OPEN_PER_CREATOR by {
        assert(m.contains_key(k));
        lemma_fewer_of_own(p, m, k, p[k], by_creation(), waits());
    }
}

/// Within a part everyone who is within their limits in the whole is.
proof fn lemma_allowed_in_part(p: Map<GameId, LobbyEntry>, m: Map<GameId, LobbyEntry>)
    requires
        m.dom().finite(),
        part_of(p, m),
        allowed(m) == m,
    ensures
        allowed(p) == p,
{
    assert forall|k: GameId| #[trigger] p.contains_key(k) implies allowed(p).contains_key(k) by {
        assert(m.contains_key(k));
        assert(allowed(m).contains_key(k));
        lemma_fewer_of_own(p, m, k, p[k], by_creation(), any_game());
        lemma_fewer_of_own(p, m, k, p[k], by_creation(), waits());
    }
    assert(allowed(p) =~= p);
}

/// A creator's newest are the same, whether some gave way before others came in
/// or after.
proof fn lemma_newest_of_creator(
    x: Map<GameId, LobbyEntry>,
    c: Map<GameId, LobbyEntry>,
    creator: PlayerId,
)
    requires
        x.dom().finite(),
        c.dom().finite(),
        agreed(x, c),
        open_games_fit(together(x, c)),
    ensures
        foremost(
            of_creator(together(allowed(x), c), creator),
            by_creation(),
            MAX_LISTINGS_PER_CREATOR as nat,
        ) == foremost(
            of_creator(together(x, c), creator),
            by_creation(),
            MAX_LISTINGS_PER_CREATOR as nat,
        ),
{
    let m = together(x, c);
    let l = together(allowed(x), c);
    let cap = MAX_LISTINGS_PER_CREATOR as nat;
    let over = |a: LobbyEntry, b: LobbyEntry| false;
    let (p, q) = (of_creator(x, creator), of_creator(c, creator));
    assert(m.dom() =~= x.dom().union(c.dom()));
    assert(part_of(x, m));
    lemma_open_games_fit_a_part(x, m);
    assert(p.dom().subset_of(x.dom()));
    vstd::set_lib::lemma_len_subset(p.dom(), x.dom());
    assert(q.dom().subset_of(c.dom()));
    vstd::set_lib::lemma_len_subset(q.dom(), c.dom());
    let f = foremost(p, by_creation(), cap);
    assert forall|k: GameId| #[trigger] p.contains_key(k) implies (f.contains_key(k)
        <==> allowed(x).contains_key(k)) by {
        lemma_allowed_are_the_newest(x, k);
    }
    let late = join(p, q, over);
    let early = join(f, q, over);
    assert(late =~= of_creator(m, creator));
    assert(early =~= of_creator(l, creator)) by {
        assert forall|k: GameId| early.contains_key(k) <==> of_creator(l, creator).contains_key(
            k,
        ) by {
            if f.contains_key(k) {
                assert(p.contains_key(k));
            }
            if allowed(x).contains_key(k) && own_games(creator, any_game())(k, x[k]) {
                assert(p.contains_key(k));
            }
        }
    }
    assert(never_sinks(p, q, over, by_creation()));
    assert(placed_apart(late, by_creation())) by {
        assert forall|a: GameId, b: GameId|
            #![trigger late.contains_key(a), late.contains_key(b)]
            late.contains_key(a) && late.contains_key(b) && by_creation()(a, late[a])
                == by_creation()(b, late[b]) implies a == b by {
            GameId::rank_decides(a, b);
        }
    }
    law_cutting_early_changes_nothing(p, q, over, by_creation(), cap);
}

/// Those allowed are the same, whether some gave way to their creator's newer
/// ones before others came in or after.
proof fn lemma_allowing_early_changes_nothing(
    x: Map<GameId, LobbyEntry>,
    c: Map<GameId, LobbyEntry>,
)
    requires
        x.dom().finite(),
        c.dom().finite(),
        agreed(x, c),
        open_games_fit(together(x, c)),
    ensures
        allowed(together(allowed(x), c)) == allowed(together(x, c)),
{
    let m = together(x, c);
    let l = together(allowed(x), c);
    assert(m.dom() =~= x.dom().union(c.dom()));
    assert(part_of(l, m));
    assert(l.dom().subset_of(m.dom()));
    vstd::set_lib::lemma_len_subset(l.dom(), m.dom());
    lemma_open_games_fit_a_part(l, m);
    let (early, late) = (allowed(l), allowed(m));
    assert forall|k: GameId| early.contains_key(k) <==> late.contains_key(k) by {
        if m.contains_key(k) {
            lemma_newest_of_creator(x, c, id_of(m[k].setup.creator));
            lemma_allowed_are_the_newest(m, k);
            if l.contains_key(k) {
                lemma_allowed_are_the_newest(l, k);
            }
        }
    }
    assert(early =~= late);
}

/// Whether only one limit drops listings where two copies meet: either nobody is
/// over their own limits, or no more games are open than may be and the lobby
/// has room for what the first copy may list.
pub open spec fn one_limit(x: Map<GameId, LobbyEntry>, c: Map<GameId, LobbyEntry>) -> bool {
    let all = together(x, c);
    ||| allowed(all) == all
    ||| open_games_fit(all) && listing(allowed(x)).len() <= MAX_LOBBY_ENTRIES
}

/// It does not matter whether listings give way before those of another copy
/// come in, or after, where the copies agree on what they share and only one
/// limit drops listings.
pub proof fn law_giving_way_early_changes_nothing(
    x: Map<GameId, LobbyEntry>,
    c: Map<GameId, LobbyEntry>,
)
    requires
        x.dom().finite(),
        c.dom().finite(),
        agreed(x, c),
        one_limit(x, c),
    ensures
        games_pruned(together(games_pruned(x), c)) == games_pruned(together(x, c)),
{
    let m = together(x, c);
    let l = together(games_pruned(x), c);
    assert(m.dom() =~= x.dom().union(c.dom()));
    assert(part_of(x, m));
    if allowed(m) == m {
        lemma_allowed_in_part(x, m);
        assert(part_of(l, m));
        lemma_allowed_in_part(l, m);
        assert(games_pruned(x) == seated(x));
        lemma_seating_early_changes_nothing(x, l, m);
    } else {
        assert(games_pruned(x) == allowed(x));
        lemma_allowing_early_changes_nothing(x, c);
    }
}

} // verus!
