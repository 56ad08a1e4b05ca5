//! Lists read off a map: which entries, and in what order.

use crate::order::{
    before, by_key, how_many, in_order, law_ordering_keeps_members, law_ordering_orders,
    lemma_how_many, lemma_ordered_places, order_of, ordered, place_of, places,
};
use crate::sorted_map::{
    lemma_flagged_map, lemma_listing_entry, lemma_listing_place, lemma_listing_views, listing,
    restricted, views, Ranked, SortedMap,
};
use vstd::prelude::*;

verus! {

/// What a list of references holds.
pub open spec fn refs_held<V: View>(s: Seq<&V>) -> Seq<V::V> {
    Seq::new(s.len(), |i: int| s[i]@)
}

/// The values of a map, in the order of their keys.
pub open spec fn values_of<K: Ranked, A>(m: Map<K, A>) -> Seq<A> {
    Seq::new(listing(m).len(), |i: int| listing(m)[i].1)
}

/// The things of a list that satisfy a condition.
pub open spec fn selected<A>(s: Seq<A>, cond: spec_fn(A) -> bool) -> Seq<A>
    decreases s.len(),
{
    if s.len() == 0 {
        s
    } else {
        let rest = selected(s.drop_last(), cond);
        if cond(s.last()) {
            rest.push(s.last())
        } else {
            rest
        }
    }
}

/// A thing is selected where the list has it and it satisfies the condition.
pub proof fn lemma_selected<A>(s: Seq<A>, cond: spec_fn(A) -> bool, x: A)
    ensures
        selected(s, cond).contains(x) <==> s.contains(x) && cond(x),
    decreases s.len(),
{
    if s.len() > 0 {
        let front = s.drop_last();
        let rest = selected(front, cond);
        let all = selected(s, cond);
        lemma_selected(front, cond, x);
        if s.contains(x) {
            let i = choose|i: int| 0 <= i < s.len() && s[i] == x;
            if i < front.len() {
                assert(front[i] == x);
            }
        }
        if front.contains(x) {
            let i = choose|i: int| 0 <= i < front.len() && front[i] == x;
            assert(s[i] == x);
        }
        assert(s[s.len() - 1] == s.last());
        if rest.contains(x) {
            let i = choose|i: int| 0 <= i < rest.len() && rest[i] == x;
            assert(all[i] == x);
        }
        if cond(s.last()) {
            assert(all[rest.len() as int] == s.last());
        }
        if all.contains(x) {
            let i = choose|i: int| 0 <= i < all.len() && all[i] == x;
            if i < rest.len() {
                assert(rest[i] == x);
            }
        }
    }
}

/// The entries of a map that satisfy a condition.
pub fn select<'a, K: Ranked, V: View, F: Fn(&V) -> bool>(
    m: &'a SortedMap<K, V>,
    f: F,
    Ghost(cond): Ghost<spec_fn(V::V) -> bool>,
) -> (r: Vec<&'a V>)
    requires
        forall|v: &V| #[trigger] call_requires(f, (v,)),
        forall|v: &V, b: bool| #[trigger] call_ensures(f, (v,), b) ==> b == cond(v@),
    ensures
        refs_held(r@) == selected(values_of(views(m@)), cond),
{
    let n = m.len();
    proof {
        lemma_listing_views(m@);
    }
    let ghost all = values_of(views(m@));
    let mut out: Vec<&'a V> = Vec::new();
    let mut i: usize = 0;
    assert(refs_held(out@) =~= selected(all.take(0), cond));
    while i < n
        invariant
            i <= n,
            n == m.spec_entries().len(),
            m.spec_entries() == listing(m@),
            all == values_of(views(m@)),
            all.len() == n,
            forall|j: int|
                0 <= j < n ==> #[trigger] listing(views(m@))[j] == (
                    listing(m@)[j].0,
                    listing(m@)[j].1@,
                ),
            forall|v: &V| #[trigger] call_requires(f, (v,)),
            forall|v: &V, b: bool| #[trigger] call_ensures(f, (v,), b) ==> b == cond(v@),
            refs_held(out@) == selected(all.take(i as int), cond),
        decreases n - i,
    {
        let v = m.value_at(i);
        let ghost next = all.take(i + 1);
        assert(next.drop_last() =~= all.take(i as int));
        assert(listing(views(m@))[i as int].1 == v@);
        assert(next.last() == v@);
        if f(v) {
            let ghost so_far = refs_held(out@);
            out.push(v);
            assert(refs_held(out@) =~= so_far.push(v@));
        }
        i = i + 1;
    }
    assert(all.take(n as int) =~= all);
    out
}

/// Every entry of a map.
pub fn all_values<'a, K: Ranked, V: View>(m: &'a SortedMap<K, V>) -> (r: Vec<&'a V>)
    ensures
        refs_held(r@) == values_of(views(m@)),
{
    let n = m.len();
    proof {
        lemma_listing_views(m@);
    }
    let ghost all = values_of(views(m@));
    let mut out: Vec<&'a V> = Vec::new();
    let mut i: usize = 0;
    while i < n
        invariant
            i <= n,
            n == m.spec_entries().len(),
            m.spec_entries() == listing(m@),
            all == values_of(views(m@)),
            all.len() == n,
            forall|j: int|
                0 <= j < n ==> #[trigger] listing(views(m@))[j] == (
                    listing(m@)[j].0,
                    listing(m@)[j].1@,
                ),
            out@.len() == i,
            forall|j: int| 0 <= j < i ==> (#[trigger] out@[j])@ == all[j],
        decreases n - i,
    {
        let v = m.value_at(i);
        assert(listing(views(m@))[i as int].1 == v@);
        out.push(v);
        i = i + 1;
    }
    assert(refs_held(out@) =~= all);
    out
}

/// The things of a list that satisfy a condition.
pub fn choose_from<'a, V: View, F: Fn(&V) -> bool>(
    items: Vec<&'a V>,
    f: F,
    Ghost(cond): Ghost<spec_fn(V::V) -> bool>,
) -> (r: Vec<&'a V>)
    requires
        forall|v: &V| #[trigger] call_requires(f, (v,)),
        forall|v: &V, b: bool| #[trigger] call_ensures(f, (v,), b) ==> b == cond(v@),
    ensures
        refs_held(r@) == selected(refs_held(items@), cond),
{
    let ghost all = refs_held(items@);
    let mut out: Vec<&'a V> = Vec::new();
    let mut i: usize = 0;
    assert(refs_held(out@) =~= selected(all.take(0), cond));
    while i < items.len()
        invariant
            i <= items@.len(),
            all == refs_held(items@),
            forall|v: &V| #[trigger] call_requires(f, (v,)),
            forall|v: &V, b: bool| #[trigger] call_ensures(f, (v,), b) ==> b == cond(v@),
            refs_held(out@) == selected(all.take(i as int), cond),
        decreases items.len() - i,
    {
        let v = items[i];
        let ghost next = all.take(i + 1);
        assert(next.drop_last() =~= all.take(i as int));
        assert(next.last() == v@);
        if f(v) {
            let ghost so_far = refs_held(out@);
            out.push(v);
            assert(refs_held(out@) =~= so_far.push(v@));
        }
        i = i + 1;
    }
    assert(all.take(all.len() as int) =~= all);
    out
}

/// A list in order.
pub fn arrange<'a, V: View, Q: Ranked, F: Fn(&V) -> (i128, i128, Q)>(
    items: Vec<&'a V>,
    f: F,
    Ghost(place): Ghost<spec_fn(V::V) -> (int, int, nat)>,
) -> (r: Vec<&'a V>)
    requires
        forall|v: &V| #[trigger] call_requires(f, (v,)),
        forall|v: &V, k: (i128, i128, Q)| #[trigger]
            call_ensures(f, (v,), k) ==> place_of(k) == place(v@),
    ensures
        refs_held(r@) == ordered(refs_held(items@), place),
{
    let n = items.len();
    let ghost all = refs_held(items@);
    let mut keys: Vec<(i128, i128, Q)> = Vec::new();
    let mut i: usize = 0;
    while i < n
        invariant
            i <= n,
            n == items@.len(),
            all == refs_held(items@),
            forall|v: &V| #[trigger] call_requires(f, (v,)),
            forall|v: &V, k: (i128, i128, Q)| #[trigger]
                call_ensures(f, (v,), k) ==> place_of(k) == place(v@),
            keys@.len() == i,
            forall|j: int| 0 <= j < i ==> place_of(#[trigger] keys@[j]) == place(all[j]),
        decreases n - i,
    {
        let k = f(items[i]);
        keys.push(k);
        i = i + 1;
    }
    let order = order_of(&keys);
    let ghost at = places(n as nat);
    let ghost rank_at = by_key(keys@);
    proof {
        lemma_ordered_places(all, place, at, rank_at);
        assert(Seq::new(at.len(), |j: int| all[at[j] as int]) =~= all);
    }
    let mut out: Vec<&'a V> = Vec::new();
    let mut j: usize = 0;
    while j < n
        invariant
            j <= n,
            n == items@.len(),
            all == refs_held(items@),
            order@.len() == n,
            forall|x: int| 0 <= x < n ==> (#[trigger] order@[x]) < n,
            out@.len() == j,
            forall|x: int| 0 <= x < j ==> (#[trigger] out@[x])@ == all[order@[x] as int],
        decreases n - j,
    {
        let x = order[j];
        out.push(items[x]);
        j = j + 1;
    }
    assert(refs_held(out@) =~= ordered(all, place));
    out
}

/// Entries whose values satisfy a condition.
pub open spec fn with_value<K, A>(cond: spec_fn(A) -> bool) -> spec_fn(K, A) -> bool {
    |k: K, a: A| cond(a)
}

/// Keep the entries of a map whose values satisfy a condition.
pub fn keep_where<K: Ranked, V: View, F: Fn(&V) -> bool>(
    m: &mut SortedMap<K, V>,
    f: F,
    Ghost(cond): Ghost<spec_fn(V::V) -> bool>,
)
    requires
        forall|v: &V| #[trigger] call_requires(f, (v,)),
        forall|v: &V, b: bool| #[trigger] call_ensures(f, (v,), b) ==> b == cond(v@),
    ensures
        views(final(m)@) == restricted(views(old(m)@), with_value(cond)),
{
    let n = m.len();
    let ghost start = m@;
    let ghost es = m.spec_entries();
    let ghost keep = |k: K, v: V| cond(v@);
    let mut flags: Vec<bool> = Vec::new();
    let mut i: usize = 0;
    while i < n
        invariant
            i <= n,
            n == m.spec_entries().len(),
            es == m.spec_entries(),
            keep == (|k: K, v: V| cond(v@)),
            forall|v: &V| #[trigger] call_requires(f, (v,)),
            forall|v: &V, b: bool| #[trigger] call_ensures(f, (v,), b) ==> b == cond(v@),
            flags@.len() == i,
            forall|j: int| 0 <= j < i ==> #[trigger] flags@[j] == keep(es[j].0, es[j].1),
        decreases n - i,
    {
        let v = m.value_at(i);
        let good = f(v);
        flags.push(good);
        i = i + 1;
    }
    m.keep_flagged(&flags);
    proof {
        lemma_flagged_map(es, flags@, keep);
        assert(views(restricted(start, keep)) =~= restricted(views(start), with_value(cond)));
    }
}

/// What a map holds is what its entries are.
proof fn lemma_values_held<K: Ranked, A>(m: Map<K, A>, x: A)
    requires
        m.dom().finite(),
    ensures
        values_of(m).contains(x) <==> exists|k: K| #[trigger] m.contains_key(k) && m[k] == x,
{
    let vals = values_of(m);
    if vals.contains(x) {
        let i = choose|i: int| 0 <= i < vals.len() && vals[i] == x;
        lemma_listing_entry(m, i);
        assert(m.contains_key(listing(m)[i].0));
    }
    if exists|k: K| #[trigger] m.contains_key(k) && m[k] == x {
        let k = choose|k: K| #[trigger] m.contains_key(k) && m[k] == x;
        let i = lemma_listing_place(m, k);
        assert(vals[i] == x);
    }
}

proof fn lemma_selected_counts<K: Ranked, A>(es: Seq<(K, A)>, cond: spec_fn(A) -> bool)
    ensures
        selected(Seq::new(es.len(), |i: int| es[i].1), cond).len() == how_many(
            es,
            with_value(cond),
        ),
    decreases es.len(),
{
    if es.len() > 0 {
        let front = es.drop_last();
        lemma_selected_counts(front, cond);
        let all = Seq::new(es.len(), |i: int| es[i].1);
        assert(all.drop_last() =~= Seq::new(front.len(), |i: int| front[i].1));
    }
}

/// A list read off a map has the entries that were asked for, each as often as
/// the map has it, and nothing else, in the order that was asked for.
pub proof fn law_lists_hold_what_was_asked_for<K: Ranked, A>(
    m: Map<K, A>,
    cond: spec_fn(A) -> bool,
    place: spec_fn(A) -> (int, int, nat),
    x: A,
)
    requires
        m.dom().finite(),
    ensures
        ({
            let list = ordered(selected(values_of(m), cond), place);
            &&& list.contains(x) <==> cond(x) && exists|k: K| #[trigger]
                m.contains_key(k) && m[k] == x
            &&& in_order(list, place)
            &&& list.len() == restricted(m, with_value(cond)).dom().len()
        }),
{
    let some = selected(values_of(m), cond);
    law_ordering_keeps_members(some, place, x);
    law_ordering_orders(some, place);
    lemma_selected(values_of(m), cond, x);
    lemma_values_held(m, x);
    lemma_selected_counts(listing(m), cond);
    lemma_how_many(m, with_value(cond));
}

/// A list of all that a map has.
pub proof fn law_lists_of_all<K: Ranked, A>(
    m: Map<K, A>,
    place: spec_fn(A) -> (int, int, nat),
    x: A,
)
    requires
        m.dom().finite(),
    ensures
        ordered(values_of(m), place).contains(x) <==> exists|k: K| #[trigger]
            m.contains_key(k) && m[k] == x,
        in_order(ordered(values_of(m), place), place),
        ordered(values_of(m), place).len() == m.dom().len(),
{
    law_ordering_keeps_members(values_of(m), place, x);
    law_ordering_orders(values_of(m), place);
    lemma_values_held(m, x);
    crate::sorted_map::lemma_listed(m);
    crate::sorted_map::lemma_as_map_finite(listing(m));
}

/// What is chosen from a list in order is in order.
pub proof fn law_choosing_keeps_the_order<A>(
    s: Seq<A>,
    cond: spec_fn(A) -> bool,
    place: spec_fn(A) -> (int, int, nat),
)
    requires
        in_order(s, place),
    ensures
        in_order(selected(s, cond), place),
    decreases s.len(),
{
    if s.len() > 0 {
        let front = s.drop_last();
        assert(in_order(front, place)) by {
            assert forall|i: int, j: int| 0 <= i < j < front.len() implies !before(
                place(#[trigger] front[j]),
                place(#[trigger] front[i]),
            ) by {
                assert(front[i] == s[i] && front[j] == s[j]);
            }
        }
        law_choosing_keeps_the_order(front, cond, place);
        let rest = selected(front, cond);
        let all = selected(s, cond);
        if cond(s.last()) {
            assert forall|i: int, j: int| 0 <= i < j < all.len() implies !before(
                place(#[trigger] all[j]),
                place(#[trigger] all[i]),
            ) by {
                if j == rest.len() {
                    lemma_selected(front, cond, rest[i]);
                    assert(rest.contains(rest[i]));
                    let h = choose|h: int| 0 <= h < front.len() && front[h] == rest[i];
                    assert(s[h] == all[i] && s[s.len() - 1] == all[j]);
                }
            }
        }
    }
}

} // verus!
