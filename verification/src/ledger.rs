//! Maps of signed entries that peers fill together.
//!
//! Each entry belongs under one key. Of two that belong under one key, which
//! stays is settled by what they hold, never by which came first, so that
//! peers who saw the same entries in different orders hold the same map.

use crate::cutting::{
    law_cutting_early_changes_nothing, lemma_never_sinks_joined, lemma_never_sinks_turned,
    never_sinks,
};
use crate::join::{
    all_apart, apart, filed, join, law_joining_commutes, law_joining_is_associative,
    law_joining_twice_is_joining_once, law_syncing_joins, law_updates_come_in_once,
    law_updates_commute, lists_apart, marks_tell, orders, taken,
};
use crate::order::{
    among_first, flag_first, foremost, law_no_more_than_the_cap, lemma_keys_ahead, place_of,
};
use crate::sorted_map::{
    lemma_as_map_finite, lemma_flagged_map, lemma_listed, lemma_listing_entry,
    lemma_listing_place, lemma_listing_views, listing, restricted, views, Ranked, SortedMap,
};
use crate::sync::{held, marks_of, missing, Record};
use crate::text::{fault, first_fault, lemma_first_fault_stays, lemma_no_fault};
use vstd::prelude::*;
use vstd::string::*;

verus! {

/// A signed entry, judged by what it is filed in.
pub trait Entry<P>: Record {
    /// What an entry is filed under.
    type Key: Ranked;

    spec fn key_of(v: Self::V) -> Self::Key;

    fn read_key(&self) -> (r: Self::Key)
        ensures
            r == Self::key_of(self@),
    ;

    /// Whether an entry takes the place of another under its key.
    spec fn replaces(a: Self::V, b: Self::V) -> bool;

    fn takes_over(&self, other: &Self) -> (r: bool)
        ensures
            r == Self::replaces(self@, other@),
    ;

    /// Of any three entries it is settled in what order they replace one
    /// another, though some may tie.
    proof fn replacing_orders(a: Self::V, b: Self::V, c: Self::V)
        ensures
            !Self::replaces(a, a),
            Self::replaces(a, b) && Self::replaces(b, c) ==> Self::replaces(a, c),
            Self::replaces(a, c) ==> Self::replaces(a, b) || Self::replaces(b, c),
    ;

    /// What every entry holds to that was decoded.
    spec fn valid(v: Self::V) -> bool;

    /// What is wrong with an entry that comes in.
    spec fn entry_fault(v: Self::V, place: P) -> Option<Seq<char>>;

    fn check_entry(&self, place: &P) -> (r: Result<(), String>)
        requires
            Self::valid(self@),
        ensures
            fault(r) == Self::entry_fault(self@, *place),
    ;

    /// What is wrong with an entry that is filed under a key.
    spec fn filed_fault(k: Self::Key, v: Self::V, place: P) -> Option<Seq<char>>;

    fn check_filed(&self, k: &Self::Key, place: &P) -> (r: Result<(), String>)
        requires
            Self::valid(self@),
        ensures
            fault(r) == Self::filed_fault(*k, self@, *place),
    ;

    /// Filing an entry is right under its own key, where nothing else is wrong.
    proof fn filing_checks(k: Self::Key, v: Self::V, place: P)
        ensures
            Self::filed_fault(k, v, place) is None <==> Self::key_of(v) == k && Self::entry_fault(
                v,
                place,
            ) is None,
    ;

    /// What entries are ordered by, where there are too many of them.
    spec fn order_in(k: Self::Key, v: Self::V) -> (int, int, nat);

    fn read_order(&self, k: &Self::Key) -> (r: (i128, i128, Self::Key))
        ensures
            place_of(r) == Self::order_in(*k, self@),
    ;

    /// No two entries share a place.
    proof fn places_differ(k: Self::Key, v: Self::V, l: Self::Key, w: Self::V)
        requires
            Self::key_of(v) == k,
            Self::key_of(w) == l,
            Self::order_in(k, v) == Self::order_in(l, w),
        ensures
            k == l,
    ;
}

/// A map with one more entry.
pub open spec fn absorbed<P, E: Entry<P>>(m: Map<E::Key, E::V>, v: E::V) -> Map<E::Key, E::V> {
    let k = E::key_of(v);
    if m.contains_key(k) && !E::replaces(v, m[k]) {
        m
    } else {
        m.insert(k, v)
    }
}

/// A map once a list of entries has come in, up to the first bad one, and what
/// was wrong with that.
pub open spec fn entries_after<P, E: Entry<P>>(
    m: Map<E::Key, E::V>,
    incoming: Seq<E::V>,
    place: P,
) -> (Map<E::Key, E::V>, Option<Seq<char>>)
    decreases incoming.len(),
{
    if incoming.len() == 0 {
        (m, None)
    } else {
        let (so_far, e) = entries_after::<P, E>(m, incoming.drop_last(), place);
        if e is Some {
            (so_far, e)
        } else if E::entry_fault(incoming.last(), place) is Some {
            (so_far, E::entry_fault(incoming.last(), place))
        } else {
            (absorbed::<P, E>(so_far, incoming.last()), None)
        }
    }
}

/// Whether every entry is one that was decoded.
pub open spec fn all_entries_valid<P, E: Entry<P>>(m: Map<E::Key, E::V>) -> bool {
    forall|k: E::Key| #[trigger] m.contains_key(k) ==> E::valid(m[k])
}

pub open spec fn all_incoming_valid<P, E: Entry<P>>(s: Seq<E::V>) -> bool {
    forall|i: int| 0 <= i < s.len() ==> E::valid(#[trigger] s[i])
}

pub open spec fn filed_faults<P, E: Entry<P>>(m: Map<E::Key, E::V>, place: P) -> spec_fn(
    int,
) -> Option<Seq<char>> {
    |i: int| E::filed_fault(listing(m)[i].0, listing(m)[i].1, place)
}

/// What is wrong with a map of entries, in the order of their keys.
pub open spec fn entries_fault<P, E: Entry<P>>(m: Map<E::Key, E::V>, place: P) -> Option<
    Seq<char>,
> {
    first_fault(filed_faults::<P, E>(m, place), listing(m).len())
}

pub open spec fn entry_order<P, E: Entry<P>>() -> spec_fn(E::Key, E::V) -> (int, int, nat) {
    |k: E::Key, v: E::V| E::order_in(k, v)
}

/// A map cut to its first entries.
pub open spec fn capped<P, E: Entry<P>>(m: Map<E::Key, E::V>, cap: nat) -> Map<E::Key, E::V> {
    foremost(m, entry_order::<P, E>(), cap)
}

/// Nothing comes in after a bad entry.
proof fn lemma_entries_stop<P, E: Entry<P>>(
    m: Map<E::Key, E::V>,
    incoming: Seq<E::V>,
    place: P,
    n: int,
)
    requires
        0 <= n <= incoming.len(),
        entries_after::<P, E>(m, incoming.take(n), place).1 is Some,
    ensures
        entries_after::<P, E>(m, incoming, place) == entries_after::<P, E>(m, incoming.take(n), place),
    decreases incoming.len(),
{
    if n == incoming.len() {
        assert(incoming.take(n) =~= incoming);
    } else {
        assert(incoming.drop_last().take(n) =~= incoming.take(n));
        lemma_entries_stop::<P, E>(m, incoming.drop_last(), place, n);
    }
}

/// Put an entry into a map.
pub fn absorb<P, E: Entry<P>>(m: &mut SortedMap<E::Key, E>, incoming: E)
    ensures
        views(final(m)@) == absorbed::<P, E>(views(old(m)@), incoming@),
{
    let k = incoming.read_key();
    let stays = match m.get(&k) {
        Some(current) => !incoming.takes_over(current),
        None => false,
    };
    if !stays {
        let ghost start = m@;
        let ghost added = incoming;
        m.insert(k, incoming);
        assert(views(start.insert(k, added)) =~= views(start).insert(k, added@));
    }
}

/// Take in entries, up to the first bad one.
pub fn take_in<P, E: Entry<P>>(
    m: &mut SortedMap<E::Key, E>,
    place: &P,
    incoming: &Vec<E>,
) -> (r: Result<(), String>)
    requires
        all_incoming_valid::<P, E>(held(incoming@)),
    ensures
        (views(final(m)@), fault(r)) == entries_after::<P, E>(
            views(old(m)@),
            held(incoming@),
            *place,
        ),
        all_entries_valid::<P, E>(views(old(m)@)) ==> all_entries_valid::<P, E>(views(final(m)@)),
{
    let ghost start = views(m@);
    let ghost all = held(incoming@);
    let mut i: usize = 0;
    assert(all.take(0) =~= Seq::<E::V>::empty());
    while i < incoming.len()
        invariant
            i <= incoming@.len(),
            start == views(old(m)@),
            all == held(incoming@),
            all_incoming_valid::<P, E>(all),
            entries_after::<P, E>(start, all.take(i as int), *place) == (
                views(m@),
                None::<Seq<char>>,
            ),
            all_entries_valid::<P, E>(start) ==> all_entries_valid::<P, E>(views(m@)),
        decreases incoming.len() - i,
    {
        let ghost next = all.take(i + 1);
        assert(next.drop_last() =~= all.take(i as int));
        assert(next.last() == incoming@[i as int]@);
        assert(E::valid(all[i as int]));
        match incoming[i].check_entry(place) {
            Ok(()) => {},
            Err(e) => {
                proof {
                    lemma_entries_stop::<P, E>(start, all, *place, i + 1);
                }
                return Err(e);
            },
        }
        let copy = incoming[i].duplicate();
        absorb::<P, E>(m, copy);
        i = i + 1;
    }
    assert(all.take(all.len() as int) =~= all);
    Ok(())
}

/// Check every entry of a map.
pub fn check_all<P, E: Entry<P>>(m: &SortedMap<E::Key, E>, place: &P) -> (r: Result<(), String>)
    requires
        all_entries_valid::<P, E>(views(m@)),
    ensures
        fault(r) == entries_fault::<P, E>(views(m@), *place),
{
    let n = m.len();
    proof {
        lemma_listing_views(m@);
    }
    let ghost faults = filed_faults::<P, E>(views(m@), *place);
    let mut i: usize = 0;
    while i < n
        invariant
            i <= n,
            m@.dom().finite(),
            all_entries_valid::<P, E>(views(m@)),
            n == m.spec_entries().len(),
            m.spec_entries() == listing(m@),
            n == listing(views(m@)).len(),
            forall|j: int|
                0 <= j < n ==> #[trigger] listing(views(m@))[j] == (
                    listing(m@)[j].0,
                    listing(m@)[j].1@,
                ),
            faults == filed_faults::<P, E>(views(m@), *place),
            first_fault(faults, i as nat) is None,
        decreases n - i,
    {
        proof {
            crate::sorted_map::lemma_listing_entry(m@, i as int);
            assert(views(m@).contains_key(listing(m@)[i as int].0));
            assert(listing(views(m@))[i as int].1 == listing(m@)[i as int].1@);
        }
        match m.value_at(i).check_filed(&m.key_at(i), place) {
            Ok(()) => {},
            Err(e) => {
                proof {
                    assert(faults(i as int) == Some(e@));
                    lemma_first_fault_stays(faults, (i + 1) as nat, n as nat);
                }
                return Err(e);
            },
        }
        assert(faults(i as int) is None);
        i = i + 1;
    }
    Ok(())
}

/// Cut a map to its first entries.
pub fn cut<P, E: Entry<P>>(m: &mut SortedMap<E::Key, E>, cap: usize)
    ensures
        views(final(m)@) == capped::<P, E>(views(old(m)@), cap as nat),
        all_entries_valid::<P, E>(views(old(m)@)) ==> all_entries_valid::<P, E>(views(final(m)@)),
{
    let n = m.len();
    let ghost start = m@;
    let ghost es = m.spec_entries();
    let ghost vs = listing(views(m@));
    let ghost order = entry_order::<P, E>();
    proof {
        lemma_listing_views(m@);
    }
    if n <= cap {
        return;
    }
    let mut keys: Vec<(i128, i128, E::Key)> = Vec::new();
    let mut i: usize = 0;
    while i < n
        invariant
            i <= n,
            n == m.spec_entries().len(),
            m@ == start,
            es == m.spec_entries(),
            es == listing(start),
            vs.len() == n,
            order == entry_order::<P, E>(),
            forall|j: int| 0 <= j < n ==> #[trigger] vs[j] == (es[j].0, es[j].1@),
            keys@.len() == i,
            forall|j: int| 0 <= j < i ==> place_of(#[trigger] keys@[j]) == order(vs[j].0, vs[j].1),
        decreases n - i,
    {
        let k = m.key_at(i);
        let key = m.value_at(i).read_order(&k);
        assert(vs[i as int] == (es[i as int].0, es[i as int].1@));
        keys.push(key);
        i = i + 1;
    }
    let flags = flag_first(&keys, cap);
    let ghost keep = |k: E::Key, v: E| among_first(views(start), order, cap as nat)(k, v@);
    proof {
        assert forall|j: int| 0 <= j < es.len() implies #[trigger] flags@[j] == keep(
            es[j].0,
            es[j].1,
        ) by {
            lemma_keys_ahead(keys@, vs, order, place_of(keys@[j]));
            assert(vs[j] == (es[j].0, es[j].1@));
            assert(place_of(keys@[j]) == order(vs[j].0, vs[j].1));
        }
    }
    m.keep_flagged(&flags);
    proof {
        lemma_flagged_map(es, flags@, keep);
        assert(views(restricted(start, keep)) =~= restricted(
            views(start),
            among_first(views(start), order, cap as nat),
        ));
    }
}

/// What an entry is filed under.
pub open spec fn entry_key<P, E: Entry<P>>() -> spec_fn(E::V) -> E::Key {
    |v: E::V| E::key_of(v)
}

/// Which of two entries stays.
pub open spec fn entry_over<P, E: Entry<P>>() -> spec_fn(E::V, E::V) -> bool {
    |a: E::V, b: E::V| E::replaces(a, b)
}

/// Entries are ordered by what replaces what.
pub proof fn lemma_entries_ordered<P, E: Entry<P>>()
    ensures
        orders(entry_over::<P, E>()),
{
    let over = entry_over::<P, E>();
    assert forall|x: E::V| !(#[trigger] over(x, x)) by {
        E::replacing_orders(x, x, x);
    }
    assert forall|x: E::V, y: E::V, z: E::V|
        #![trigger over(x, y), over(y, z)]
        over(x, y) && over(y, z) implies over(x, z) by {
        E::replacing_orders(x, y, z);
    }
    assert forall|x: E::V, y: E::V, z: E::V|
        #![trigger over(x, z), over(x, y)]
        over(x, z) implies over(x, y) || over(y, z) by {
        E::replacing_orders(x, y, z);
    }
}

/// Whether nothing is wrong with any of a list of entries.
pub open spec fn all_sound<P, E: Entry<P>>(incoming: Seq<E::V>, place: P) -> bool {
    forall|i: int| 0 <= i < incoming.len() ==> E::entry_fault(#[trigger] incoming[i], place) is None
}

/// Entries with which nothing is wrong all come in.
pub proof fn lemma_sound_entries_come_in<P, E: Entry<P>>(
    m: Map<E::Key, E::V>,
    incoming: Seq<E::V>,
    place: P,
)
    requires
        all_sound::<P, E>(incoming, place),
    ensures
        entries_after::<P, E>(m, incoming, place) == (
            taken(m, incoming, entry_key::<P, E>(), entry_over::<P, E>()),
            None::<Seq<char>>,
        ),
    decreases incoming.len(),
{
    if incoming.len() > 0 {
        let front = incoming.drop_last();
        assert forall|i: int| 0 <= i < front.len() implies E::entry_fault(
            #[trigger] front[i],
            place,
        ) is None by {
            assert(front[i] == incoming[i]);
        }
        lemma_sound_entries_come_in::<P, E>(m, front, place);
        assert(E::entry_fault(incoming[incoming.len() - 1], place) is None);
    }
}

/// Two lists of entries come in alike in either order, and a list that came in
/// already changes nothing. Where two entries under one key differ, one of
/// them must replace the other.
pub proof fn law_entries_in_any_order<P, E: Entry<P>>(
    m: Map<E::Key, E::V>,
    xs: Seq<E::V>,
    ys: Seq<E::V>,
    place: P,
)
    requires
        all_sound::<P, E>(xs, place),
        all_sound::<P, E>(ys, place),
        lists_apart(xs, ys, entry_key::<P, E>(), entry_over::<P, E>()),
    ensures
        ({
            let x = entries_after::<P, E>(m, xs, place).0;
            let y = entries_after::<P, E>(m, ys, place).0;
            &&& entries_after::<P, E>(x, ys, place) == entries_after::<P, E>(y, xs, place)
            &&& entries_after::<P, E>(x, xs, place) == (x, None::<Seq<char>>)
        }),
{
    let key = entry_key::<P, E>();
    let over = entry_over::<P, E>();
    lemma_entries_ordered::<P, E>();
    lemma_sound_entries_come_in::<P, E>(m, xs, place);
    lemma_sound_entries_come_in::<P, E>(m, ys, place);
    lemma_sound_entries_come_in::<P, E>(taken(m, xs, key, over), ys, place);
    lemma_sound_entries_come_in::<P, E>(taken(m, ys, key, over), xs, place);
    lemma_sound_entries_come_in::<P, E>(taken(m, xs, key, over), xs, place);
    law_updates_commute(m, xs, ys, key, over);
    law_updates_come_in_once(m, xs, key, over);
}

/// Whether two copies of a map can be brought together: every entry is sound
/// and filed under its key, marks tell entries apart, and where two under one
/// key differ, one of them replaces the other.
pub open spec fn reconcilable<P, E: Entry<P>>(
    a: Map<E::Key, E::V>,
    b: Map<E::Key, E::V>,
    place: P,
) -> bool {
    &&& a.dom().finite() && b.dom().finite()
    &&& filed(a, entry_key::<P, E>()) && filed(b, entry_key::<P, E>())
    &&& forall|k: E::Key| #[trigger] a.contains_key(k) ==> E::entry_fault(a[k], place) is None
    &&& forall|k: E::Key| #[trigger] b.contains_key(k) ==> E::entry_fault(b[k], place) is None
    &&& marks_tell::<E::Key, E>(a, b)
    &&& all_apart(entry_over::<P, E>(), a, b)
}

/// What one peer holds once another has sent what it was not told.
pub open spec fn synced<P, E: Entry<P>>(
    a: Map<E::Key, E::V>,
    b: Map<E::Key, E::V>,
    place: P,
) -> (Map<E::Key, E::V>, Option<Seq<char>>) {
    entries_after::<P, E>(
        a,
        missing::<E::Key, E>(listing(b), marks_of::<E::Key, E>(listing(a))),
        place,
    )
}

/// Two peers that send each other what they were not told hold the same map:
/// all that either held, and under each key the entry that replaces.
pub proof fn law_peers_agree<P, E: Entry<P>>(
    a: Map<E::Key, E::V>,
    b: Map<E::Key, E::V>,
    place: P,
)
    requires
        reconcilable::<P, E>(a, b, place),
    ensures
        synced::<P, E>(a, b, place) == (join(a, b, entry_over::<P, E>()), None::<Seq<char>>),
        synced::<P, E>(b, a, place) == synced::<P, E>(a, b, place),
{
    let key = entry_key::<P, E>();
    let over = entry_over::<P, E>();
    lemma_entries_ordered::<P, E>();
    assert(marks_tell::<E::Key, E>(b, a)) by {
        assert forall|k: E::Key|
            #![trigger b.contains_key(k), a.contains_key(k)]
            b.contains_key(k) && a.contains_key(k) && E::mark_of(b[k]) == E::mark_of(
                a[k],
            ) implies b[k] == a[k] by {}
    }
    law_syncing_joins::<E::Key, E>(a, b, key, over);
    law_syncing_joins::<E::Key, E>(b, a, key, over);
    let to_a = missing::<E::Key, E>(listing(b), marks_of::<E::Key, E>(listing(a)));
    let to_b = missing::<E::Key, E>(listing(a), marks_of::<E::Key, E>(listing(b)));
    assert forall|i: int| 0 <= i < to_a.len() implies E::entry_fault(
        #[trigger] to_a[i],
        place,
    ) is None by {
        let k = choose|k: E::Key| b.contains_key(k) && b[k] == to_a[i];
    }
    assert forall|i: int| 0 <= i < to_b.len() implies E::entry_fault(
        #[trigger] to_b[i],
        place,
    ) is None by {
        let k = choose|k: E::Key| a.contains_key(k) && a[k] == to_b[i];
    }
    lemma_sound_entries_come_in::<P, E>(a, to_a, place);
    lemma_sound_entries_come_in::<P, E>(b, to_b, place);
    law_joining_commutes(a, b, over);
}

/// What one peer holds, cut to its first entries, once another has sent what
/// it was not told, if there is any such thing.
pub open spec fn merged_within<P, E: Entry<P>>(
    a: Map<E::Key, E::V>,
    b: Map<E::Key, E::V>,
    place: P,
    cap: nat,
) -> (Map<E::Key, E::V>, Option<Seq<char>>) {
    let untold = missing::<E::Key, E>(listing(b), marks_of::<E::Key, E>(listing(a)));
    let (all, e) = synced::<P, E>(a, b, place);
    if untold.len() == 0 {
        (a, None)
    } else if e is Some {
        (all, e)
    } else {
        (capped::<P, E>(all, cap), None)
    }
}

/// Two peers that keep no more entries than they may agree as well: each holds
/// the first of all that either held.
pub proof fn law_capped_peers_agree<P, E: Entry<P>>(
    a: Map<E::Key, E::V>,
    b: Map<E::Key, E::V>,
    place: P,
    cap: nat,
)
    requires
        reconcilable::<P, E>(a, b, place),
        listing(a).len() <= cap,
        listing(b).len() <= cap,
    ensures
        merged_within::<P, E>(a, b, place, cap) == (
            capped::<P, E>(join(a, b, entry_over::<P, E>()), cap),
            None::<Seq<char>>,
        ),
        merged_within::<P, E>(b, a, place, cap) == merged_within::<P, E>(a, b, place, cap),
{
    law_peers_agree::<P, E>(a, b, place);
}

/// What holds of two maps each holds of what they make.
pub proof fn lemma_joined_reconciles<P, E: Entry<P>>(
    a: Map<E::Key, E::V>,
    b: Map<E::Key, E::V>,
    c: Map<E::Key, E::V>,
    place: P,
)
    requires
        reconcilable::<P, E>(a, b, place),
        reconcilable::<P, E>(b, c, place),
        reconcilable::<P, E>(a, c, place),
    ensures
        reconcilable::<P, E>(join(a, b, entry_over::<P, E>()), c, place),
        reconcilable::<P, E>(a, join(b, c, entry_over::<P, E>()), place),
{
    let over = entry_over::<P, E>();
    assert(join(a, b, over).dom() =~= a.dom().union(b.dom()));
    assert(join(b, c, over).dom() =~= b.dom().union(c.dom()));
    let x = join(a, b, over);
    let y = join(b, c, over);
    assert forall|k: E::Key| #[trigger] x.contains_key(k) implies (a.contains_key(k) && x[k]
        == a[k]) || (b.contains_key(k) && x[k] == b[k]) by {}
    assert forall|k: E::Key| #[trigger] y.contains_key(k) implies (b.contains_key(k) && y[k]
        == b[k]) || (c.contains_key(k) && y[k] == c[k]) by {}
}

/// Three peers hold the same, whichever two meet first, and meeting again
/// changes nothing.
pub proof fn law_meeting_order_does_not_matter<P, E: Entry<P>>(
    a: Map<E::Key, E::V>,
    b: Map<E::Key, E::V>,
    c: Map<E::Key, E::V>,
    place: P,
)
    requires
        reconcilable::<P, E>(a, b, place),
        reconcilable::<P, E>(b, c, place),
        reconcilable::<P, E>(a, c, place),
        reconcilable::<P, E>(b, b, place),
    ensures
        synced::<P, E>(synced::<P, E>(a, b, place).0, c, place) == synced::<P, E>(
            a,
            synced::<P, E>(b, c, place).0,
            place,
        ),
        synced::<P, E>(synced::<P, E>(a, b, place).0, b, place) == synced::<P, E>(a, b, place),
{
    let over = entry_over::<P, E>();
    lemma_entries_ordered::<P, E>();
    law_peers_agree::<P, E>(a, b, place);
    law_peers_agree::<P, E>(b, c, place);
    lemma_joined_reconciles::<P, E>(a, b, c, place);
    law_peers_agree::<P, E>(join(a, b, over), c, place);
    law_peers_agree::<P, E>(a, join(b, c, over), place);
    law_joining_is_associative(a, b, c, over);
    lemma_joined_reconciles::<P, E>(a, b, b, place);
    law_peers_agree::<P, E>(join(a, b, over), b, place);
    law_joining_twice_is_joining_once(a, b, over);
}

/// Whether every entry is filed under its key, and nothing is wrong with it.
pub open spec fn sound_map<P, E: Entry<P>>(m: Map<E::Key, E::V>, place: P) -> bool {
    forall|k: E::Key| #[trigger]
        m.contains_key(k) ==> E::key_of(m[k]) == k && E::entry_fault(m[k], place) is None
}

/// A map passes the check just where it is sound.
pub proof fn lemma_checked_is_sound<P, E: Entry<P>>(m: Map<E::Key, E::V>, place: P)
    requires
        m.dom().finite(),
    ensures
        entries_fault::<P, E>(m, place) is None <==> sound_map::<P, E>(m, place),
{
    let faults = filed_faults::<P, E>(m, place);
    lemma_no_fault(faults, listing(m).len());
    if entries_fault::<P, E>(m, place) is None {
        assert forall|k: E::Key| #[trigger] m.contains_key(k) implies E::key_of(m[k]) == k
            && E::entry_fault(m[k], place) is None by {
            let i = lemma_listing_place(m, k);
            assert(faults(i) is None);
            E::filing_checks(k, m[k], place);
        }
    }
    if sound_map::<P, E>(m, place) {
        assert forall|i: int| 0 <= i < listing(m).len() implies (#[trigger] faults(i)) is None by {
            lemma_listing_entry(m, i);
            E::filing_checks(listing(m)[i].0, listing(m)[i].1, place);
        }
    }
}

/// Whatever comes in, a sound map stays sound.
pub proof fn law_sound_maps_stay_sound<P, E: Entry<P>>(
    m: Map<E::Key, E::V>,
    incoming: Seq<E::V>,
    place: P,
)
    requires
        m.dom().finite(),
        sound_map::<P, E>(m, place),
    ensures
        entries_after::<P, E>(m, incoming, place).0.dom().finite(),
        sound_map::<P, E>(entries_after::<P, E>(m, incoming, place).0, place),
    decreases incoming.len(),
{
    if incoming.len() > 0 {
        law_sound_maps_stay_sound::<P, E>(m, incoming.drop_last(), place);
    }
}

/// A map that is cut holds no more than it may, nothing that was not there, and
/// is cut no further.
pub proof fn law_cut_maps_fit<P, E: Entry<P>>(m: Map<E::Key, E::V>, place: P, cap: nat)
    requires
        m.dom().finite(),
        filed(m, entry_key::<P, E>()),
    ensures
        capped::<P, E>(m, cap).dom().finite(),
        listing(capped::<P, E>(m, cap)).len() <= cap,
        capped::<P, E>(capped::<P, E>(m, cap), cap) == capped::<P, E>(m, cap),
        sound_map::<P, E>(m, place) ==> sound_map::<P, E>(capped::<P, E>(m, cap), place),
{
    let order = entry_order::<P, E>();
    assert forall|a: E::Key, b: E::Key|
        #![trigger m.contains_key(a), m.contains_key(b)]
        m.contains_key(a) && m.contains_key(b) && order(a, m[a]) == order(b, m[b]) implies a
        == b by {
        E::places_differ(a, m[a], b, m[b]);
    }
    law_no_more_than_the_cap(m, order, cap);
}

/// Whether two copies of a map that pass the check can be brought together:
/// marks tell entries apart, and where two under one key differ, one of them
/// replaces the other.
pub open spec fn told_apart<P, E: Entry<P>>(a: Map<E::Key, E::V>, b: Map<E::Key, E::V>) -> bool {
    &&& marks_tell::<E::Key, E>(a, b)
    &&& all_apart(entry_over::<P, E>(), a, b)
}

/// Copies that pass the check can be brought together.
pub proof fn lemma_checked_reconcile<P, E: Entry<P>>(
    a: Map<E::Key, E::V>,
    b: Map<E::Key, E::V>,
    place: P,
)
    requires
        a.dom().finite(),
        b.dom().finite(),
        entries_fault::<P, E>(a, place) is None,
        entries_fault::<P, E>(b, place) is None,
        told_apart::<P, E>(a, b),
    ensures
        reconcilable::<P, E>(a, b, place),
{
    lemma_checked_is_sound::<P, E>(a, place);
    lemma_checked_is_sound::<P, E>(b, place);
}

/// What is sent of a map of decoded entries is decoded entries.
pub proof fn lemma_sent_entries_valid<P, E: Entry<P>>(
    m: Map<E::Key, E::V>,
    marks: Seq<(E::Key, u64)>,
)
    requires
        m.dom().finite(),
        all_entries_valid::<P, E>(m),
    ensures
        all_incoming_valid::<P, E>(missing::<E::Key, E>(listing(m), marks)),
{
    let es = listing(m);
    assert forall|i: int| 0 <= i < es.len() implies E::valid((#[trigger] es[i]).1) by {
        crate::sorted_map::lemma_listing_entry(m, i);
    }
    lemma_missing_valid::<P, E>(es, marks);
}

proof fn lemma_missing_valid<P, E: Entry<P>>(
    es: Seq<(E::Key, E::V)>,
    marks: Seq<(E::Key, u64)>,
)
    requires
        forall|i: int| 0 <= i < es.len() ==> E::valid((#[trigger] es[i]).1),
    ensures
        all_incoming_valid::<P, E>(missing::<E::Key, E>(es, marks)),
    decreases es.len(),
{
    if es.len() > 0 {
        let front = es.drop_last();
        assert forall|i: int| 0 <= i < front.len() implies E::valid((#[trigger] front[i]).1) by {
            assert(front[i] == es[i]);
        }
        lemma_missing_valid::<P, E>(front, marks);
        assert(E::valid(es[es.len() - 1].1));
    }
}

/// Whether no entry stands further back than one it replaces, in any of three
/// copies, or there is room for all that they hold.
pub open spec fn steady<P, E: Entry<P>>(
    a: Map<E::Key, E::V>,
    b: Map<E::Key, E::V>,
    c: Map<E::Key, E::V>,
    cap: nat,
) -> bool {
    let over = entry_over::<P, E>();
    let order = entry_order::<P, E>();
    ||| never_sinks(a, b, over, order) && never_sinks(b, c, over, order) && never_sinks(
        a,
        c,
        over,
        order,
    )
    ||| listing(join(a, b, over)).len() <= cap && listing(join(b, c, over)).len() <= cap
}

/// What is cut of a copy can be brought together with whatever the copy can.
pub proof fn lemma_cut_reconciles<P, E: Entry<P>>(
    a: Map<E::Key, E::V>,
    c: Map<E::Key, E::V>,
    place: P,
    cap: nat,
)
    requires
        reconcilable::<P, E>(a, c, place),
    ensures
        reconcilable::<P, E>(capped::<P, E>(a, cap), c, place),
        reconcilable::<P, E>(c, capped::<P, E>(a, cap), place),
        listing(capped::<P, E>(a, cap)).len() <= cap,
{
    law_cut_maps_fit::<P, E>(a, place, cap);
    let x = capped::<P, E>(a, cap);
    assert forall|k: E::Key| #[trigger] x.contains_key(k) implies a.contains_key(k) && x[k]
        == a[k] by {}
    lemma_entries_ordered::<P, E>();
    assert forall|k: E::Key|
        #![trigger c.contains_key(k), x.contains_key(k)]
        c.contains_key(k) && x.contains_key(k) implies (E::mark_of(c[k]) == E::mark_of(x[k])
        ==> c[k] == x[k]) && apart(entry_over::<P, E>(), c[k], x[k]) by {
        assert(a.contains_key(k));
        assert(apart(entry_over::<P, E>(), a[k], c[k]));
    }
}

/// Whether two copies can be joined either way: every entry is filed under its
/// key, and where two under one key differ, one of them replaces the other.
pub open spec fn joinable<P, E: Entry<P>>(a: Map<E::Key, E::V>, b: Map<E::Key, E::V>) -> bool {
    &&& a.dom().finite() && b.dom().finite()
    &&& filed(a, entry_key::<P, E>()) && filed(b, entry_key::<P, E>())
    &&& all_apart(entry_over::<P, E>(), a, b)
}

proof fn lemma_joinable_turned<P, E: Entry<P>>(a: Map<E::Key, E::V>, b: Map<E::Key, E::V>)
    requires
        joinable::<P, E>(a, b),
    ensures
        joinable::<P, E>(b, a),
{
    assert forall|k: E::Key|
        #![trigger b.contains_key(k), a.contains_key(k)]
        b.contains_key(k) && a.contains_key(k) implies apart(entry_over::<P, E>(), b[k], a[k]) by {
        assert(apart(entry_over::<P, E>(), a[k], b[k]));
    }
}

proof fn lemma_joinable_joined<P, E: Entry<P>>(
    a: Map<E::Key, E::V>,
    b: Map<E::Key, E::V>,
    c: Map<E::Key, E::V>,
)
    requires
        joinable::<P, E>(a, b),
        joinable::<P, E>(b, c),
        joinable::<P, E>(a, c),
    ensures
        joinable::<P, E>(join(a, b, entry_over::<P, E>()), c),
{
    let over = entry_over::<P, E>();
    let x = join(a, b, over);
    assert(x.dom() =~= a.dom().union(b.dom()));
    assert forall|k: E::Key| #[trigger] x.contains_key(k) implies (a.contains_key(k) && x[k]
        == a[k]) || (b.contains_key(k) && x[k] == b[k]) by {}
}

/// Joining before a copy is cut or after comes to the same.
proof fn lemma_cutting_can_wait<P, E: Entry<P>>(
    x: Map<E::Key, E::V>,
    c: Map<E::Key, E::V>,
    cap: nat,
)
    requires
        joinable::<P, E>(x, c),
        never_sinks(x, c, entry_over::<P, E>(), entry_order::<P, E>()) || listing(x).len() <= cap,
    ensures
        capped::<P, E>(join(capped::<P, E>(x, cap), c, entry_over::<P, E>()), cap) == capped::<
            P,
            E,
        >(join(x, c, entry_over::<P, E>()), cap),
{
    let over = entry_over::<P, E>();
    let order = entry_order::<P, E>();
    let j = join(x, c, over);
    if listing(x).len() > cap {
        assert forall|k: E::Key, l: E::Key|
            #![trigger j.contains_key(k), j.contains_key(l)]
            j.contains_key(k) && j.contains_key(l) && order(k, j[k]) == order(l, j[l]) implies k
            == l by {
            assert(E::key_of(j[k]) == k) by {
                assert(x.contains_key(k) || c.contains_key(k));
            }
            assert(E::key_of(j[l]) == l) by {
                assert(x.contains_key(l) || c.contains_key(l));
            }
            E::places_differ(k, j[k], l, j[l]);
        }
        law_cutting_early_changes_nothing(x, c, over, order, cap);
    }
}

/// Three copies join alike and are cut alike, whichever two are first.
pub proof fn lemma_capped_joins_in_any_order<P, E: Entry<P>>(
    a: Map<E::Key, E::V>,
    b: Map<E::Key, E::V>,
    c: Map<E::Key, E::V>,
    cap: nat,
)
    requires
        joinable::<P, E>(a, b),
        joinable::<P, E>(b, c),
        joinable::<P, E>(a, c),
        steady::<P, E>(a, b, c, cap),
    ensures
        ({
            let over = entry_over::<P, E>();
            let all = capped::<P, E>(join(join(a, b, over), c, over), cap);
            &&& capped::<P, E>(join(capped::<P, E>(join(a, b, over), cap), c, over), cap) == all
            &&& capped::<P, E>(join(a, capped::<P, E>(join(b, c, over), cap), over), cap) == all
        }),
{
    let over = entry_over::<P, E>();
    let order = entry_order::<P, E>();
    lemma_entries_ordered::<P, E>();
    let x = join(a, b, over);
    let y = join(b, c, over);
    lemma_joinable_joined::<P, E>(a, b, c);
    lemma_joinable_turned::<P, E>(a, b);
    lemma_joinable_turned::<P, E>(a, c);
    lemma_joinable_joined::<P, E>(b, c, a);
    lemma_joinable_turned::<P, E>(y, a);
    let z = capped::<P, E>(y, cap);
    assert forall|k: E::Key|
        #![trigger z.contains_key(k), a.contains_key(k)]
        z.contains_key(k) && a.contains_key(k) implies apart(over, z[k], a[k]) by {
        assert(y.contains_key(k));
        assert(apart(over, y[k], a[k]));
    }
    if listing(x).len() > cap || listing(y).len() > cap {
        lemma_never_sinks_joined(a, b, c, over, order);
        lemma_never_sinks_turned(a, b, over, order);
        lemma_never_sinks_turned(a, c, over, order);
        lemma_never_sinks_joined(b, c, a, over, order);
    }
    lemma_cutting_can_wait::<P, E>(x, c, cap);
    lemma_cutting_can_wait::<P, E>(y, a, cap);
    law_joining_is_associative(a, b, c, over);
    law_joining_commutes(a, y, over);
    law_joining_commutes(capped::<P, E>(y, cap), a, over);
}

/// Three peers that keep no more entries than they may hold the same, whichever
/// two meet first. Left out is an entry that stands further back than one it
/// replaces, where there is no room for all.
pub proof fn law_capped_meetings_in_any_order<P, E: Entry<P>>(
    a: Map<E::Key, E::V>,
    b: Map<E::Key, E::V>,
    c: Map<E::Key, E::V>,
    place: P,
    cap: nat,
)
    requires
        reconcilable::<P, E>(a, b, place),
        reconcilable::<P, E>(b, c, place),
        reconcilable::<P, E>(a, c, place),
        listing(a).len() <= cap,
        listing(b).len() <= cap,
        listing(c).len() <= cap,
        steady::<P, E>(a, b, c, cap),
    ensures
        ({
            let all = capped::<P, E>(
                join(join(a, b, entry_over::<P, E>()), c, entry_over::<P, E>()),
                cap,
            );
            &&& merged_within::<P, E>(merged_within::<P, E>(a, b, place, cap).0, c, place, cap) == (
                all,
                None::<Seq<char>>,
            )
            &&& merged_within::<P, E>(a, merged_within::<P, E>(b, c, place, cap).0, place, cap) == (
                all,
                None::<Seq<char>>,
            )
        }),
{
    let over = entry_over::<P, E>();
    law_capped_peers_agree::<P, E>(a, b, place, cap);
    law_capped_peers_agree::<P, E>(b, c, place, cap);
    lemma_joined_reconciles::<P, E>(a, b, c, place);
    let x = join(a, b, over);
    let y = join(b, c, over);
    lemma_cut_reconciles::<P, E>(x, c, place, cap);
    law_capped_peers_agree::<P, E>(capped::<P, E>(x, cap), c, place, cap);
    lemma_turned::<P, E>(a, y, place);
    lemma_cut_reconciles::<P, E>(y, a, place, cap);
    law_capped_peers_agree::<P, E>(a, capped::<P, E>(y, cap), place, cap);
    lemma_capped_joins_in_any_order::<P, E>(a, b, c, cap);
}

/// What can be brought together can be either way.
pub proof fn lemma_turned<P, E: Entry<P>>(a: Map<E::Key, E::V>, b: Map<E::Key, E::V>, place: P)
    requires
        reconcilable::<P, E>(a, b, place),
    ensures
        reconcilable::<P, E>(b, a, place),
{
    assert forall|k: E::Key|
        #![trigger b.contains_key(k), a.contains_key(k)]
        b.contains_key(k) && a.contains_key(k) implies (E::mark_of(b[k]) == E::mark_of(a[k])
        ==> b[k] == a[k]) && apart(entry_over::<P, E>(), b[k], a[k]) by {
        assert(apart(entry_over::<P, E>(), a[k], b[k]));
    }
}

/// A peer that meets another again holds what it held. Left out is an entry
/// that stands further back than one it replaces, where there is no room for
/// all.
pub proof fn law_meeting_again_changes_nothing<P, E: Entry<P>>(
    a: Map<E::Key, E::V>,
    b: Map<E::Key, E::V>,
    place: P,
    cap: nat,
)
    requires
        reconcilable::<P, E>(a, b, place),
        reconcilable::<P, E>(b, b, place),
        listing(a).len() <= cap,
        listing(b).len() <= cap,
        never_sinks(a, b, entry_over::<P, E>(), entry_order::<P, E>()) || listing(
            join(a, b, entry_over::<P, E>()),
        ).len() <= cap,
    ensures
        merged_within::<P, E>(merged_within::<P, E>(a, b, place, cap).0, b, place, cap)
            == merged_within::<P, E>(a, b, place, cap),
{
    let over = entry_over::<P, E>();
    lemma_entries_ordered::<P, E>();
    law_joining_twice_is_joining_once(b, b, over);
    assert(never_sinks(b, b, over, entry_order::<P, E>()));
    law_capped_meetings_in_any_order::<P, E>(a, b, b, place, cap);
    law_capped_peers_agree::<P, E>(a, b, place, cap);
    law_joining_twice_is_joining_once(a, b, over);
}

/// Entries come in one by one until one is bad: then what was wrong with that
/// is told, and neither it nor anything after it comes in.
pub proof fn law_entries_come_in_until_one_is_bad<P, E: Entry<P>>(
    m: Map<E::Key, E::V>,
    incoming: Seq<E::V>,
    v: E::V,
    later: Seq<E::V>,
    place: P,
)
    requires
        forall|i: int|
            0 <= i < incoming.len() ==> E::entry_fault(#[trigger] incoming[i], place) is None,
        E::entry_fault(v, place) is Some,
    ensures
        entries_after::<P, E>(m, incoming, place).1 is None,
        entries_after::<P, E>(m, incoming.push(v) + later, place) == (
            entries_after::<P, E>(m, incoming, place).0,
            E::entry_fault(v, place),
        ),
    decreases incoming.len() + later.len(),
{
    if later.len() > 0 {
        let all = incoming.push(v) + later;
        assert(all.drop_last() =~= incoming.push(v) + later.drop_last());
        law_entries_come_in_until_one_is_bad::<P, E>(m, incoming, v, later.drop_last(), place);
    } else {
        assert(incoming.push(v) + later =~= incoming.push(v));
        assert(incoming.push(v).drop_last() =~= incoming);
        if incoming.len() > 0 {
            let front = incoming.drop_last();
            assert(forall|i: int| 0 <= i < front.len() ==> front[i] == incoming[i]);
            law_entries_come_in_until_one_is_bad::<P, E>(m, front, v, later, place);
            assert(incoming[incoming.len() - 1] == incoming.last());
        }
    }
}

/// A good entry that comes in last has its place, unless what was there is not
/// to be replaced by it, and touches no other.
pub proof fn law_an_entry_takes_its_own_place<P, E: Entry<P>>(
    m: Map<E::Key, E::V>,
    incoming: Seq<E::V>,
    v: E::V,
    place: P,
    k: E::Key,
)
    requires
        entries_after::<P, E>(m, incoming, place).1 is None,
        E::entry_fault(v, place) is None,
    ensures
        ({
            let before = entries_after::<P, E>(m, incoming, place).0;
            let (after, e) = entries_after::<P, E>(m, incoming.push(v), place);
            let own = E::key_of(v);
            &&& e is None
            &&& after.contains_key(own)
            &&& !before.contains_key(own) || E::replaces(v, before[own]) ==> after[own] == v
            &&& before.contains_key(own) && !E::replaces(v, before[own]) ==> after[own]
                == before[own]
            &&& k != own ==> (after.contains_key(k) <==> before.contains_key(k))
            &&& k != own && before.contains_key(k) ==> after[k] == before[k]
        }),
{
    assert(incoming.push(v).drop_last() =~= incoming);
}

/// With no entries nothing changes, and a list cut short to what there may be
/// loses nothing while there is room.
pub proof fn law_nothing_comes_of_nothing<P, E: Entry<P>>(m: Map<E::Key, E::V>, place: P, cap: nat)
    ensures
        entries_after::<P, E>(m, Seq::empty(), place) == (m, None::<Seq<char>>),
        listing(m).len() <= cap ==> capped::<P, E>(m, cap) == m,
        forall|k: E::Key| #[trigger]
            capped::<P, E>(m, cap).contains_key(k) ==> m.contains_key(k) && capped::<P, E>(
                m,
                cap,
            )[k] == m[k],
{
}

/// Where none is bad, every entry comes in: under its name stands it or one
/// that it does not replace, what was there stays under its name, and nothing
/// else appears.
pub proof fn law_all_good_entries_come_in<P, E: Entry<P>>(
    m: Map<E::Key, E::V>,
    incoming: Seq<E::V>,
    place: P,
)
    requires
        entries_after::<P, E>(m, incoming, place).1 is None,
    ensures
        ({
            let after = entries_after::<P, E>(m, incoming, place).0;
            &&& forall|i: int|
                0 <= i < incoming.len() ==> {
                    let k = E::key_of(#[trigger] incoming[i]);
                    &&& E::entry_fault(incoming[i], place) is None
                    &&& after.contains_key(k)
                    &&& !E::replaces(incoming[i], after[k])
                }
            &&& forall|k: E::Key| #[trigger]
                m.contains_key(k) ==> after.contains_key(k) && !E::replaces(m[k], after[k])
            &&& forall|k: E::Key| #[trigger]
                after.contains_key(k) ==> (m.contains_key(k) && after[k] == m[k])
                    || incoming.contains(after[k])
        }),
    decreases incoming.len(),
{
    if incoming.len() > 0 {
        let front = incoming.drop_last();
        let v = incoming.last();
        law_all_good_entries_come_in::<P, E>(m, front, place);
        let before = entries_after::<P, E>(m, front, place).0;
        let after = entries_after::<P, E>(m, incoming, place).0;
        assert(incoming[incoming.len() - 1] == v);
        assert forall|i: int| 0 <= i < incoming.len() implies {
            let k = E::key_of(#[trigger] incoming[i]);
            &&& E::entry_fault(incoming[i], place) is None
            &&& after.contains_key(k)
            &&& !E::replaces(incoming[i], after[k])
        } by {
            let k = E::key_of(incoming[i]);
            E::replacing_orders(v, v, v);
            if i < front.len() {
                assert(front[i] == incoming[i]);
                E::replacing_orders(incoming[i], v, before[k]);
                E::replacing_orders(v, incoming[i], v);
                lemma_not_both::<P, E>(v, before[k]);
            }
        }
        assert forall|k: E::Key| #[trigger] m.contains_key(k) implies after.contains_key(k)
            && !E::replaces(m[k], after[k]) by {
            E::replacing_orders(m[k], v, before[k]);
        }
        assert forall|k: E::Key| #[trigger] after.contains_key(k) implies (m.contains_key(k)
            && after[k] == m[k]) || incoming.contains(after[k]) by {
            if before.contains_key(k) && front.contains(before[k]) {
                let j = choose|j: int| 0 <= j < front.len() && front[j] == before[k];
                assert(incoming[j] == before[k]);
            }
        }
    } else {
        assert forall|k: E::Key| #[trigger] m.contains_key(k) implies !E::replaces(m[k], m[k]) by {
            E::replacing_orders(m[k], m[k], m[k]);
        }
    }
}

/// No two entries replace each other.
proof fn lemma_not_both<P, E: Entry<P>>(a: E::V, b: E::V)
    ensures
        !(E::replaces(a, b) && E::replaces(b, a)),
{
    E::replacing_orders(a, b, a);
}

/// Where there are more entries than there may be, as many stay as may.
pub proof fn law_cut_maps_are_full<P, E: Entry<P>>(m: Map<E::Key, E::V>, cap: nat)
    requires
        m.dom().finite(),
        filed(m, entry_key::<P, E>()),
        listing(m).len() > cap,
    ensures
        listing(capped::<P, E>(m, cap)).len() == cap,
{
    let order = entry_order::<P, E>();
    assert forall|a: E::Key, b: E::Key|
        #![trigger m.contains_key(a), m.contains_key(b)]
        m.contains_key(a) && m.contains_key(b) && order(a, m[a]) == order(b, m[b]) implies a
        == b by {
        E::places_differ(a, m[a], b, m[b]);
    }
    law_no_more_than_the_cap(m, order, cap);
    lemma_listed(m);
    lemma_as_map_finite(listing(m));
    crate::cutting::lemma_foremost_are_full(m, order, cap);
    let kept = capped::<P, E>(m, cap);
    lemma_listed(kept);
    lemma_as_map_finite(listing(kept));
}

} // verus!
