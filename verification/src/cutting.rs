//! Why it does not matter whether maps are cut before they are joined, or after.
//!
//! Where a map holds more entries than it may, the foremost stay. As long as an
//! entry that replaces another stands no further back, what was cut away early
//! would have been cut away late.

use crate::join::{all_apart, join, law_joining_commutes, orders};
use crate::order::{
    ahead, among_first, before, foremost, law_the_foremost_stay, lemma_ahead_grows,
    lemma_few_have_few_ahead, placed_apart,
};
use crate::sorted_map::{
    as_map, lemma_as_map_finite, lemma_as_map_last, lemma_listed, lemma_listing_place, listing,
    restricted, sorted, Ranked,
};
use vstd::prelude::*;

verus! {

/// The entries that come before a place.
pub open spec fn before_set<K, V>(
    m: Map<K, V>,
    place: spec_fn(K, V) -> (int, int, nat),
    at: (int, int, nat),
) -> Set<K> {
    m.dom().filter(|k: K| before(place(k, m[k]), at))
}

proof fn lemma_ahead_counts_listed<K: Ranked, V>(
    es: Seq<(K, V)>,
    place: spec_fn(K, V) -> (int, int, nat),
    at: (int, int, nat),
)
    requires
        sorted(es),
    ensures
        as_map(es).dom().finite(),
        before_set(as_map(es), place, at).finite(),
        ahead(es, place, at) == before_set(as_map(es), place, at).len(),
    decreases es.len(),
{
    lemma_as_map_finite(es);
    let m = as_map(es);
    let s = before_set(m, place, at);
    assert(s.subset_of(m.dom()));
    vstd::set_lib::lemma_len_subset(s, m.dom());
    if es.len() == 0 {
        assert(s =~= Set::empty());
    } else {
        let front = es.drop_last();
        let (k, v) = es.last();
        lemma_as_map_last(es);
        lemma_ahead_counts_listed(front, place, at);
        let t = before_set(as_map(front), place, at);
        assert(!t.contains(k));
        if before(place(k, v), at) {
            assert(s =~= t.insert(k));
        } else {
            assert(s =~= t);
        }
    }
}

pub proof fn lemma_ahead_counts<K: Ranked, V>(
    m: Map<K, V>,
    place: spec_fn(K, V) -> (int, int, nat),
    at: (int, int, nat),
)
    requires
        m.dom().finite(),
    ensures
        before_set(m, place, at).finite(),
        ahead(listing(m), place, at) == before_set(m, place, at).len(),
{
    lemma_listed(m);
    lemma_ahead_counts_listed(listing(m), place, at);
}

/// The foremost are those with few before them, however many there are.
pub proof fn lemma_foremost_have_few_ahead<K: Ranked, V>(
    m: Map<K, V>,
    place: spec_fn(K, V) -> (int, int, nat),
    cap: nat,
)
    requires
        m.dom().finite(),
    ensures
        foremost(m, place, cap) == restricted(m, among_first(m, place, cap)),
        foremost(m, place, cap).dom().finite(),
{
    let few = restricted(m, among_first(m, place, cap));
    assert(few.dom().subset_of(m.dom()));
    vstd::set_lib::lemma_len_subset(few.dom(), m.dom());
    if listing(m).len() <= cap {
        assert forall|k: K| m.contains_key(k) implies #[trigger] few.contains_key(k) by {
            let at = place(k, m[k]);
            lemma_ahead_counts(m, place, at);
            let s = before_set(m, place, at);
            assert(s.subset_of(m.dom().remove(k)));
            vstd::set_lib::lemma_len_subset(s, m.dom().remove(k));
            lemma_listed(m);
            lemma_as_map_finite(listing(m));
        }
        assert(few =~= m);
    }
}

/// Something of a set is least.
proof fn lemma_least<K>(s: Set<K>, measure: spec_fn(K) -> nat) -> (k: K)
    requires
        s.finite(),
        s.len() > 0,
    ensures
        s.contains(k),
        forall|x: K| #[trigger] s.contains(x) ==> measure(k) <= measure(x),
    decreases s.len(),
{
    let one = s.choose();
    let rest = s.remove(one);
    if rest.len() == 0 {
        assert(rest =~= Set::empty());
        assert forall|x: K| #[trigger] s.contains(x) implies measure(one) <= measure(x) by {
            if x != one {
                assert(rest.contains(x));
            }
        }
        one
    } else {
        let other = lemma_least(rest, measure);
        let k = if measure(one) <= measure(other) {
            one
        } else {
            other
        };
        assert forall|x: K| #[trigger] s.contains(x) implies measure(k) <= measure(x) by {
            if x != one {
                assert(rest.contains(x));
            }
        }
        k
    }
}

/// As many are kept as may be, where there are that many.
pub proof fn lemma_foremost_are_full<K: Ranked, V>(
    m: Map<K, V>,
    place: spec_fn(K, V) -> (int, int, nat),
    cap: nat,
)
    requires
        m.dom().finite(),
        placed_apart(m, place),
        m.dom().len() >= cap,
    ensures
        restricted(m, among_first(m, place, cap)).dom().len() >= cap,
    decreases cap,
{
    if cap > 0 {
        let less = (cap - 1) as nat;
        let fewer = restricted(m, among_first(m, place, less));
        let kept = restricted(m, among_first(m, place, cap));
        lemma_foremost_are_full(m, place, less);
        lemma_few_have_few_ahead(m, place, less);
        lemma_few_have_few_ahead(m, place, cap);
        let left = m.dom().difference(fewer.dom());
        assert(fewer.dom().subset_of(m.dom()));
        vstd::set_lib::lemma_set_difference_len(m.dom(), fewer.dom());
        let measure = |k: K| ahead(listing(m), place, place(k, m[k]));
        assert(m.dom().intersect(fewer.dom()) =~= fewer.dom());
        assert(left.len() > 0);
        let k = lemma_least(left, measure);
        let at = place(k, m[k]);
        lemma_ahead_counts(m, place, at);
        let s = before_set(m, place, at);
        assert forall|x: K| #[trigger] s.contains(x) implies fewer.dom().contains(x) by {
            if !fewer.dom().contains(x) {
                assert(left.contains(x));
                let i = lemma_listing_place(m, x);
                let es = listing(m);
                assert(place(es[i].0, es[i].1) == place(x, m[x]));
                lemma_ahead_grows(es, place, place(x, m[x]), at);
                assert(measure(k) <= measure(x));
            }
        }
        assert(s.subset_of(fewer.dom()));
        vstd::set_lib::lemma_len_subset(s, fewer.dom());
        assert(kept.dom().contains(k));
        assert(fewer.dom().insert(k).subset_of(kept.dom()));
        vstd::set_lib::lemma_len_subset(fewer.dom().insert(k), kept.dom());
    }
}

/// Whether an entry that stays when two maps are joined stands no further back
/// than the one that gives way.
pub open spec fn never_sinks<K, V>(
    a: Map<K, V>,
    c: Map<K, V>,
    over: spec_fn(V, V) -> bool,
    place: spec_fn(K, V) -> (int, int, nat),
) -> bool {
    forall|k: K|
        #![trigger a.contains_key(k), c.contains_key(k)]
        a.contains_key(k) && c.contains_key(k) ==> !before(
            place(k, a[k]),
            place(k, join(a, c, over)[k]),
        ) && !before(place(k, c[k]), place(k, join(a, c, over)[k]))
}

/// What is kept of all was kept before.
proof fn lemma_kept_late_was_kept<K: Ranked, V>(
    a: Map<K, V>,
    c: Map<K, V>,
    over: spec_fn(V, V) -> bool,
    place: spec_fn(K, V) -> (int, int, nat),
    cap: nat,
    k: K,
)
    requires
        a.dom().finite(),
        c.dom().finite(),
        never_sinks(a, c, over, place),
        foremost(join(a, c, over), place, cap).contains_key(k),
    ensures
        join(foremost(a, place, cap), c, over).contains_key(k),
        join(foremost(a, place, cap), c, over)[k] == join(a, c, over)[k],
{
    let j = join(a, c, over);
    let f = foremost(a, place, cap);
    lemma_foremost_have_few_ahead(a, place, cap);
    assert(j.dom() =~= a.dom().union(c.dom()));
    lemma_foremost_have_few_ahead(j, place, cap);
    if a.contains_key(k) && !f.contains_key(k) && j[k] == a[k] {
        let at = place(k, a[k]);
        lemma_ahead_counts(a, place, at);
        lemma_ahead_counts(j, place, at);
        let s = before_set(a, place, at);
        let t = before_set(j, place, at);
        assert forall|x: K| #[trigger] s.contains(x) implies t.contains(x) by {
            if c.contains_key(x) {
                assert(a.contains_key(x));
                assert(!before(place(x, a[x]), place(x, j[x])));
            }
        }
        assert(s.subset_of(t));
        vstd::set_lib::lemma_len_subset(s, t);
    }
}

/// It does not matter whether a map is cut before another is joined to it and
/// all is cut, or after.
pub proof fn law_cutting_early_changes_nothing<K: Ranked, V>(
    a: Map<K, V>,
    c: Map<K, V>,
    over: spec_fn(V, V) -> bool,
    place: spec_fn(K, V) -> (int, int, nat),
    cap: nat,
)
    requires
        a.dom().finite(),
        c.dom().finite(),
        never_sinks(a, c, over, place),
        placed_apart(join(a, c, over), place),
    ensures
        foremost(join(foremost(a, place, cap), c, over), place, cap) == foremost(
            join(a, c, over),
            place,
            cap,
        ),
{
    let j = join(a, c, over);
    let f = foremost(a, place, cap);
    let l = join(f, c, over);
    lemma_foremost_have_few_ahead(a, place, cap);
    assert(j.dom() =~= a.dom().union(c.dom()));
    assert(l.dom() =~= f.dom().union(c.dom()));
    lemma_foremost_have_few_ahead(j, place, cap);
    lemma_foremost_have_few_ahead(l, place, cap);
    let late = foremost(j, place, cap);
    let early = foremost(l, place, cap);
    assert forall|k: K| #[trigger] l.contains_key(k) implies j.contains_key(k) && !before(
        place(k, l[k]),
        place(k, j[k]),
    ) by {
        if a.contains_key(k) && c.contains_key(k) {
            assert(!before(place(k, c[k]), place(k, j[k])));
        }
    }
    assert forall|k: K| #[trigger] late.contains_key(k) implies early.contains_key(k) && early[k]
        == late[k] by {
        lemma_kept_late_was_kept(a, c, over, place, cap, k);
        let at = place(k, j[k]);
        lemma_ahead_counts(j, place, at);
        lemma_ahead_counts(l, place, at);
        let s = before_set(l, place, at);
        let t = before_set(j, place, at);
        assert forall|x: K| #[trigger] s.contains(x) implies t.contains(x) by {
            assert(l.contains_key(x));
        }
        assert(s.subset_of(t));
        vstd::set_lib::lemma_len_subset(s, t);
    }
    assert forall|k: K| #[trigger] early.contains_key(k) implies late.contains_key(k) by {
        if !late.contains_key(k) {
            lemma_cut_early_is_cut_late(a, c, over, place, cap, k);
        }
    }
    assert(early =~= late);
}

/// What is cut late is cut early, if it was not cut before.
proof fn lemma_cut_early_is_cut_late<K: Ranked, V>(
    a: Map<K, V>,
    c: Map<K, V>,
    over: spec_fn(V, V) -> bool,
    place: spec_fn(K, V) -> (int, int, nat),
    cap: nat,
    k: K,
)
    requires
        a.dom().finite(),
        c.dom().finite(),
        never_sinks(a, c, over, place),
        placed_apart(join(a, c, over), place),
        join(foremost(a, place, cap), c, over).contains_key(k),
        !foremost(join(a, c, over), place, cap).contains_key(k),
        !before(
            place(k, join(foremost(a, place, cap), c, over)[k]),
            place(k, join(a, c, over)[k]),
        ),
        join(a, c, over).contains_key(k),
    ensures
        !foremost(join(foremost(a, place, cap), c, over), place, cap).contains_key(k),
{
    let j = join(a, c, over);
    let f = foremost(a, place, cap);
    let l = join(f, c, over);
    lemma_foremost_have_few_ahead(a, place, cap);
    assert(j.dom() =~= a.dom().union(c.dom()));
    assert(l.dom() =~= f.dom().union(c.dom()));
    lemma_foremost_have_few_ahead(j, place, cap);
    lemma_foremost_have_few_ahead(l, place, cap);
    let late = foremost(j, place, cap);
    let at = place(k, l[k]);
    let here = place(k, j[k]);
    lemma_ahead_counts(l, place, at);
    lemma_ahead_counts(j, place, here);
    let s = before_set(l, place, at);
    let t = before_set(j, place, here);
    assert(t.subset_of(j.dom()));
    vstd::set_lib::lemma_len_subset(t, j.dom());
    lemma_foremost_are_full(j, place, cap);
    assert forall|x: K| #[trigger] late.dom().contains(x) implies s.contains(x) by {
        lemma_kept_late_was_kept(a, c, over, place, cap, x);
        law_the_foremost_stay(j, place, cap, x, k);
    }
    assert(late.dom().subset_of(s));
    vstd::set_lib::lemma_len_subset(late.dom(), s);
}

/// Entries that never sink where two maps are joined never do where the other
/// is joined to the first.
pub proof fn lemma_never_sinks_turned<K, V>(
    a: Map<K, V>,
    c: Map<K, V>,
    over: spec_fn(V, V) -> bool,
    place: spec_fn(K, V) -> (int, int, nat),
)
    requires
        orders(over),
        all_apart(over, a, c),
        never_sinks(a, c, over, place),
    ensures
        never_sinks(c, a, over, place),
{
    law_joining_commutes(a, c, over);
}

/// Entries that never sink where each of two maps is joined with a third never
/// do where both are.
pub proof fn lemma_never_sinks_joined<K, V>(
    a: Map<K, V>,
    b: Map<K, V>,
    c: Map<K, V>,
    over: spec_fn(V, V) -> bool,
    place: spec_fn(K, V) -> (int, int, nat),
)
    requires
        never_sinks(a, c, over, place),
        never_sinks(b, c, over, place),
    ensures
        never_sinks(join(a, b, over), c, over, place),
{
    let x = join(a, b, over);
    assert forall|k: K|
        #![trigger x.contains_key(k), c.contains_key(k)]
        x.contains_key(k) && c.contains_key(k) implies !before(
        place(k, x[k]),
        place(k, join(x, c, over)[k]),
    ) && !before(place(k, c[k]), place(k, join(x, c, over)[k])) by {
        if a.contains_key(k) && x[k] == a[k] {
            assert(join(x, c, over)[k] == join(a, c, over)[k]);
        } else {
            assert(b.contains_key(k));
            assert(join(x, c, over)[k] == join(b, c, over)[k]);
        }
    }
}

} // verus!
