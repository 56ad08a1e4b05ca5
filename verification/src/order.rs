//! Putting things in order, and keeping the foremost of them.
//!
//! Things are ordered by a number, those that tie by a second one, and those
//! that tie again by a third.

use crate::sorted_map::{
    as_map, has_key, index_of_key, lemma_as_map_entry, lemma_as_map_finite, lemma_listed,
    lemma_listing_entry, lemma_listing_place, listing, restricted, sorted, Ranked,
};
use vstd::prelude::*;

verus! {

/// Whether a thing comes before another by their numbers.
pub open spec fn before(a: (int, int, nat), b: (int, int, nat)) -> bool {
    a.0 < b.0 || (a.0 == b.0 && (a.1 < b.1 || (a.1 == b.1 && a.2 < b.2)))
}

/// A thing put into an ordered list, behind those that do not come after it.
pub open spec fn put_in<A>(s: Seq<A>, a: A, place: spec_fn(A) -> (int, int, nat)) -> Seq<A>
    decreases s.len(),
{
    if s.len() == 0 || !before(place(a), place(s.last())) {
        s.push(a)
    } else {
        put_in(s.drop_last(), a, place).push(s.last())
    }
}

/// A list in order, those that tie as they stood.
pub open spec fn ordered<A>(s: Seq<A>, place: spec_fn(A) -> (int, int, nat)) -> Seq<A>
    decreases s.len(),
{
    if s.len() == 0 {
        s
    } else {
        put_in(ordered(s.drop_last(), place), s.last(), place)
    }
}

/// What a key of ordering stands for.
pub open spec fn place_of<K: Ranked>(key: (i128, i128, K)) -> (int, int, nat) {
    (key.0 as int, key.1 as int, key.2.rank())
}

/// Places in a list of keys, ordered by the keys there.
pub open spec fn by_key<K: Ranked>(keys: Seq<(i128, i128, K)>) -> spec_fn(usize) -> (int, int, nat) {
    |i: usize| place_of(keys[i as int])
}

/// The places 0, 1, .. of a list.
pub open spec fn places(n: nat) -> Seq<usize> {
    Seq::new(n, |i: int| i as usize)
}

pub fn key_before<K: Ranked>(a: &(i128, i128, K), b: &(i128, i128, K)) -> (r: bool)
    ensures
        r == before(place_of(*a), place_of(*b)),
{
    a.0 < b.0 || (a.0 == b.0 && (a.1 < b.1 || (a.1 == b.1 && a.2.precedes(&b.2))))
}

proof fn lemma_put_in_members<A>(s: Seq<A>, a: A, place: spec_fn(A) -> (int, int, nat), x: A)
    ensures
        put_in(s, a, place).len() == s.len() + 1,
        put_in(s, a, place).contains(x) <==> s.contains(x) || x == a,
    decreases s.len(),
{
    let r = put_in(s, a, place);
    if s.len() == 0 || !before(place(a), place(s.last())) {
        if s.contains(x) {
            let i = choose|i: int| 0 <= i < s.len() && s[i] == x;
            assert(r[i] == x);
        }
        assert(r[s.len() as int] == a);
        if r.contains(x) {
            let i = choose|i: int| 0 <= i < r.len() && r[i] == x;
            if i < s.len() {
                assert(s[i] == x);
            }
        }
    } else {
        let front = s.drop_last();
        let q = put_in(front, a, place);
        lemma_put_in_members(front, a, place, x);
        if s.contains(x) {
            let i = choose|i: int| 0 <= i < s.len() && s[i] == x;
            if i < front.len() {
                assert(front[i] == x);
            } else {
                assert(r[q.len() as int] == x);
            }
        }
        if q.contains(x) {
            let i = choose|i: int| 0 <= i < q.len() && q[i] == x;
            assert(r[i] == x);
        }
        if r.contains(x) {
            let i = choose|i: int| 0 <= i < r.len() && r[i] == x;
            if i < q.len() {
                assert(q[i] == x);
            } else {
                assert(s[s.len() - 1] == x);
            }
        }
        if front.contains(x) {
            let i = choose|i: int| 0 <= i < front.len() && front[i] == x;
            assert(s[i] == x);
        }
    }
}

/// Ordering keeps what a list holds.
pub proof fn law_ordering_keeps_members<A>(s: Seq<A>, place: spec_fn(A) -> (int, int, nat), x: A)
    ensures
        ordered(s, place).len() == s.len(),
        ordered(s, place).contains(x) <==> s.contains(x),
    decreases s.len(),
{
    if s.len() > 0 {
        let front = s.drop_last();
        law_ordering_keeps_members(front, place, x);
        lemma_put_in_members(ordered(front, place), s.last(), place, x);
        if s.contains(x) {
            let i = choose|i: int| 0 <= i < s.len() && s[i] == x;
            if i < front.len() {
                assert(front[i] == x);
            }
        }
        if front.contains(x) {
            let i = choose|i: int| 0 <= i < front.len() && front[i] == x;
            assert(s[i] == x);
        }
        assert(s[s.len() - 1] == s.last());
    }
}

/// Whether a list is in order.
pub open spec fn in_order<A>(s: Seq<A>, place: spec_fn(A) -> (int, int, nat)) -> bool {
    forall|i: int, j: int|
        0 <= i < j < s.len() ==> !before(place(#[trigger] s[j]), place(#[trigger] s[i]))
}

proof fn lemma_put_in_keeps_order<A>(s: Seq<A>, a: A, place: spec_fn(A) -> (int, int, nat))
    requires
        in_order(s, place),
    ensures
        in_order(put_in(s, a, place), place),
    decreases s.len(),
{
    let r = put_in(s, a, place);
    if s.len() == 0 || !before(place(a), place(s.last())) {
        assert forall|i: int, j: int| 0 <= i < j < r.len() implies !before(
            place(#[trigger] r[j]),
            place(#[trigger] r[i]),
        ) by {
            if j == s.len() && i < s.len() - 1 {
                assert(!before(place(s[s.len() - 1]), place(s[i])));
            }
        }
    } else {
        let front = s.drop_last();
        assert forall|i: int, j: int| 0 <= i < j < front.len() implies !before(
            place(#[trigger] front[j]),
            place(#[trigger] front[i]),
        ) by {
            assert(front[i] == s[i] && front[j] == s[j]);
        }
        lemma_put_in_keeps_order(front, a, place);
        let q = put_in(front, a, place);
        assert forall|i: int, j: int| 0 <= i < j < r.len() implies !before(
            place(#[trigger] r[j]),
            place(#[trigger] r[i]),
        ) by {
            if j == q.len() {
                let x = q[i];
                assert(q.contains(x));
                lemma_put_in_members(front, a, place, x);
                if x != a {
                    let k = choose|k: int| 0 <= k < front.len() && front[k] == x;
                    assert(s[k] == x);
                    assert(!before(place(s[s.len() - 1]), place(s[k])));
                }
            } else {
                assert(r[i] == q[i] && r[j] == q[j]);
            }
        }
    }
}

/// Ordering puts a list in order.
pub proof fn law_ordering_orders<A>(s: Seq<A>, place: spec_fn(A) -> (int, int, nat))
    ensures
        in_order(ordered(s, place), place),
    decreases s.len(),
{
    if s.len() > 0 {
        law_ordering_orders(s.drop_last(), place);
        lemma_put_in_keeps_order(ordered(s.drop_last(), place), s.last(), place);
    }
}

/// Things told by their places are ordered as their places are.
pub proof fn lemma_ordered_places<A>(
    s: Seq<A>,
    place: spec_fn(A) -> (int, int, nat),
    at: Seq<usize>,
    rank_at: spec_fn(usize) -> (int, int, nat),
)
    requires
        forall|i: int|
            0 <= i < at.len() ==> 0 <= (#[trigger] at[i]) < s.len() && rank_at(at[i]) == place(
                s[at[i] as int],
            ),
    ensures
        ordered(Seq::new(at.len(), |i: int| s[at[i] as int]), place) == Seq::new(
            at.len(),
            |i: int| s[ordered(at, rank_at)[i] as int],
        ),
        ordered(at, rank_at).len() == at.len(),
        forall|i: int|
            0 <= i < at.len() ==> 0 <= (#[trigger] ordered(at, rank_at)[i]) < s.len() && rank_at(
                ordered(at, rank_at)[i],
            ) == place(s[ordered(at, rank_at)[i] as int]),
    decreases at.len(),
{
    let all = Seq::new(at.len(), |i: int| s[at[i] as int]);
    if at.len() == 0 {
        assert(ordered(all, place) =~= Seq::new(at.len(), |i: int| s[ordered(at, rank_at)[i] as int]));
    } else {
        let front = at.drop_last();
        assert forall|i: int| 0 <= i < front.len() implies 0 <= (#[trigger] front[i]) < s.len()
            && rank_at(front[i]) == place(s[front[i] as int]) by {
            assert(front[i] == at[i]);
        }
        lemma_ordered_places(s, place, front, rank_at);
        assert(all.drop_last() =~= Seq::new(front.len(), |i: int| s[front[i] as int]));
        assert(at[at.len() - 1] == at.last());
        lemma_put_in_places(s, place, ordered(front, rank_at), at.last(), rank_at);
        assert(all.last() == s[at.last() as int]);
    }
}

proof fn lemma_put_in_places<A>(
    s: Seq<A>,
    place: spec_fn(A) -> (int, int, nat),
    at: Seq<usize>,
    a: usize,
    rank_at: spec_fn(usize) -> (int, int, nat),
)
    requires
        0 <= a < s.len(),
        rank_at(a) == place(s[a as int]),
        forall|i: int|
            0 <= i < at.len() ==> 0 <= (#[trigger] at[i]) < s.len() && rank_at(at[i]) == place(
                s[at[i] as int],
            ),
    ensures
        put_in(at, a, rank_at).len() == at.len() + 1,
        put_in(Seq::new(at.len(), |i: int| s[at[i] as int]), s[a as int], place) == Seq::new(
            at.len() + 1,
            |i: int| s[put_in(at, a, rank_at)[i] as int],
        ),
        forall|i: int|
            0 <= i < at.len() + 1 ==> 0 <= (#[trigger] put_in(at, a, rank_at)[i]) < s.len() && rank_at(
                put_in(at, a, rank_at)[i],
            ) == place(s[put_in(at, a, rank_at)[i] as int]),
    decreases at.len(),
{
    let all = Seq::new(at.len(), |i: int| s[at[i] as int]);
    let r = put_in(at, a, rank_at);
    if at.len() > 0 {
        assert(at[at.len() - 1] == at.last());
        assert(all.last() == s[at.last() as int]);
    }
    if at.len() == 0 || !before(rank_at(a), rank_at(at.last())) {
        assert(put_in(all, s[a as int], place) =~= Seq::new(
            at.len() + 1,
            |i: int| s[r[i] as int],
        ));
    } else {
        let front = at.drop_last();
        assert forall|i: int| 0 <= i < front.len() implies 0 <= (#[trigger] front[i]) < s.len()
            && rank_at(front[i]) == place(s[front[i] as int]) by {
            assert(front[i] == at[i]);
        }
        lemma_put_in_places(s, place, front, a, rank_at);
        assert(all.drop_last() =~= Seq::new(front.len(), |i: int| s[front[i] as int]));
        assert(put_in(all, s[a as int], place) =~= Seq::new(
            at.len() + 1,
            |i: int| s[r[i] as int],
        ));
        assert forall|i: int| 0 <= i < at.len() + 1 implies 0 <= (#[trigger] r[i]) < s.len() && rank_at(
            r[i],
        ) == place(s[r[i] as int]) by {
            if i < front.len() + 1 {
                assert(r[i] == put_in(front, a, rank_at)[i]);
            }
        }
    }
}

/// The places of a list of keys, in the order of the keys.
pub fn order_of<K: Ranked>(keys: &Vec<(i128, i128, K)>) -> (r: Vec<usize>)
    ensures
        r@ == ordered(places(keys@.len()), by_key(keys@)),
        r@.len() == keys@.len(),
        forall|i: int| 0 <= i < r@.len() ==> (#[trigger] r@[i]) < keys@.len(),
{
    let ghost rank_at = by_key(keys@);
    let n = keys.len();
    let mut out: Vec<usize> = Vec::new();
    let mut i: usize = 0;
    assert(places(keys@.len()).take(0) =~= Seq::<usize>::empty());
    while i < n
        invariant
            i <= n,
            n == keys@.len(),
            rank_at == by_key(keys@),
            out@ == ordered(places(n as nat).take(i as int), rank_at),
            out@.len() == i,
            forall|j: int| 0 <= j < i ==> (#[trigger] out@[j]) < n,
        decreases n - i,
    {
        assert(places(n as nat).take(i + 1).drop_last() =~= places(n as nat).take(i as int));
        assert(places(n as nat).take(i + 1).last() == i);
        put_place(&mut out, i, keys);
        i = i + 1;
    }
    assert(places(n as nat).take(n as int) =~= places(n as nat));
    out
}

fn put_place<K: Ranked>(out: &mut Vec<usize>, a: usize, keys: &Vec<(i128, i128, K)>)
    requires
        a < keys@.len(),
        forall|j: int| 0 <= j < old(out)@.len() ==> (#[trigger] old(out)@[j]) < keys@.len(),
    ensures
        final(out)@ == put_in(old(out)@, a, by_key(keys@)),
        final(out)@.len() == old(out)@.len() + 1,
        forall|j: int| 0 <= j < final(out)@.len() ==> (#[trigger] final(out)@[j]) < keys@.len(),
{
    let ghost start = out@;
    let ghost rank_at = by_key(keys@);
    let n = out.len();
    let mut i: usize = n;
    assert(start.take(n as int) =~= start);
    assert(put_in(start, a, rank_at) =~= put_in(start.take(i as int), a, rank_at) + start.skip(i as int));
    while i > 0 && key_before(&keys[a], &keys[out[i - 1]])
        invariant
            i <= n,
            n == start.len(),
            out@ == start,
            a < keys@.len(),
            rank_at == by_key(keys@),
            forall|j: int| 0 <= j < start.len() ==> (#[trigger] start[j]) < keys@.len(),
            put_in(start, a, rank_at) == put_in(start.take(i as int), a, rank_at) + start.skip(i as int),
        decreases i,
    {
        proof {
            let front = start.take(i as int);
            assert(front.drop_last() =~= start.take(i - 1));
            assert(front.last() == start[i - 1]);
            assert(put_in(start.take(i - 1), a, rank_at) + start.skip(i - 1) =~= put_in(front, a, rank_at)
                + start.skip(i as int));
        }
        i = i - 1;
    }
    proof {
        if i > 0 {
            let front = start.take(i as int);
            assert(front.last() == start[i - 1]);
        }
        assert(put_in(start.take(i as int), a, rank_at) =~= start.take(i as int).push(a));
    }
    out.insert(i, a);
    assert(out@ =~= start.take(i as int).push(a) + start.skip(i as int));
}

/// How many entries of a list satisfy a condition.
pub open spec fn how_many<K, V>(es: Seq<(K, V)>, cond: spec_fn(K, V) -> bool) -> nat
    decreases es.len(),
{
    if es.len() == 0 {
        0
    } else {
        how_many(es.drop_last(), cond) + (if cond(es.last().0, es.last().1) {
            1nat
        } else {
            0
        })
    }
}

/// As many entries of a map satisfy a condition as are kept by it.
pub proof fn lemma_how_many<K: Ranked, V>(m: Map<K, V>, cond: spec_fn(K, V) -> bool)
    requires
        m.dom().finite(),
    ensures
        restricted(m, cond).dom().finite(),
        how_many(listing(m), cond) == restricted(m, cond).dom().len(),
{
    lemma_listed(m);
    let es = listing(m);
    lemma_how_many_listed(es, cond);
    assert(restricted(as_map(es), cond) =~= restricted(m, cond));
}

proof fn lemma_how_many_listed<K: Ranked, V>(es: Seq<(K, V)>, cond: spec_fn(K, V) -> bool)
    requires
        sorted(es),
    ensures
        restricted(as_map(es), cond).dom().finite(),
        how_many(es, cond) == restricted(as_map(es), cond).dom().len(),
    decreases es.len(),
{
    let all = restricted(as_map(es), cond).dom();
    if es.len() == 0 {
        assert(all =~= Set::<K>::empty());
    } else {
        let front = es.drop_last();
        let (k, v) = es.last();
        let rest = restricted(as_map(front), cond).dom();
        assert(sorted(front)) by {
            assert forall|i: int, j: int| 0 <= i < j < front.len() implies (#[trigger] front[i]).0.rank()
                < (#[trigger] front[j]).0.rank() by {
                assert(front[i] == es[i] && front[j] == es[j]);
            }
        }
        lemma_how_many_listed(front, cond);
        assert forall|x: K| all.contains(x) <==> (rest.contains(x) || (x == k && cond(k, v))) by {
            lemma_as_map_entry(es, es.len() - 1);
            if has_key(es, x) {
                let i = index_of_key(es, x);
                lemma_as_map_entry(es, i);
                if i < front.len() {
                    assert(front[i] == es[i]);
                    lemma_as_map_entry(front, i);
                }
            }
            if has_key(front, x) {
                let i = index_of_key(front, x);
                lemma_as_map_entry(front, i);
                assert(front[i] == es[i]);
                lemma_as_map_entry(es, i);
            }
        }
        assert(!rest.contains(k)) by {
            if has_key(front, k) {
                let i = index_of_key(front, k);
                assert(front[i] == es[i]);
                assert(es[i].0.rank() < es[es.len() - 1].0.rank());
            }
        }
        if cond(k, v) {
            assert(all =~= rest.insert(k));
        } else {
            assert(all =~= rest);
        }
    }
}

/// A map that holds fewer entries has no more that satisfy a condition.
pub proof fn lemma_fewer_satisfy<K: Ranked, V>(
    few: Map<K, V>,
    m: Map<K, V>,
    narrow: spec_fn(K, V) -> bool,
    wide: spec_fn(K, V) -> bool,
)
    requires
        m.dom().finite(),
        forall|k: K|
            #[trigger] few.contains_key(k) ==> m.contains_key(k) && m[k] == few[k] && (narrow(
                k,
                m[k],
            ) ==> wide(k, m[k])),
    ensures
        few.dom().finite(),
        how_many(listing(few), narrow) <= how_many(listing(m), wide),
{
    assert(few.dom().subset_of(m.dom()));
    vstd::set_lib::lemma_len_subset(few.dom(), m.dom());
    lemma_how_many(few, narrow);
    lemma_how_many(m, wide);
    let a = restricted(few, narrow).dom();
    let b = restricted(m, wide).dom();
    assert forall|k: K| a.contains(k) implies b.contains(k) by {
        assert(few.contains_key(k));
    }
    assert(a.subset_of(b));
    vstd::set_lib::lemma_len_subset(a, b);
}

/// How many of a list come before a place.
pub open spec fn ahead<K, V>(
    es: Seq<(K, V)>,
    place: spec_fn(K, V) -> (int, int, nat),
    at: (int, int, nat),
) -> nat
    decreases es.len(),
{
    if es.len() == 0 {
        0
    } else {
        ahead(es.drop_last(), place, at) + (if before(place(es.last().0, es.last().1), at) {
            1nat
        } else {
            0
        })
    }
}

/// Entries that come before a place.
pub open spec fn comes_before<K, V>(
    place: spec_fn(K, V) -> (int, int, nat),
    at: (int, int, nat),
) -> spec_fn(K, V) -> bool {
    |k: K, v: V| before(place(k, v), at)
}

pub proof fn lemma_ahead_is_how_many<K, V>(
    es: Seq<(K, V)>,
    place: spec_fn(K, V) -> (int, int, nat),
    at: (int, int, nat),
)
    ensures
        ahead(es, place, at) == how_many(es, comes_before(place, at)),
    decreases es.len(),
{
    if es.len() > 0 {
        lemma_ahead_is_how_many(es.drop_last(), place, at);
    }
}

pub open spec fn among_first<K: Ranked, V>(
    m: Map<K, V>,
    place: spec_fn(K, V) -> (int, int, nat),
    cap: nat,
) -> spec_fn(K, V) -> bool {
    |k: K, v: V| ahead(listing(m), place, place(k, v)) < cap
}

/// The entries of a map that have fewer than `cap` others before them.
pub open spec fn foremost<K: Ranked, V>(
    m: Map<K, V>,
    place: spec_fn(K, V) -> (int, int, nat),
    cap: nat,
) -> Map<K, V> {
    if listing(m).len() <= cap {
        m
    } else {
        restricted(m, among_first(m, place, cap))
    }
}

/// Whether no two entries of a map share a place.
pub open spec fn placed_apart<K, V>(m: Map<K, V>, place: spec_fn(K, V) -> (int, int, nat)) -> bool {
    forall|a: K, b: K|
        #![trigger m.contains_key(a), m.contains_key(b)]
        m.contains_key(a) && m.contains_key(b) && place(a, m[a]) == place(b, m[b]) ==> a == b
}

/// How many keys of a list come before each other one.
fn count_ahead<K: Ranked>(keys: &Vec<(i128, i128, K)>, i: usize) -> (r: usize)
    requires
        i < keys@.len(),
    ensures
        r == keys_ahead(keys@, place_of(keys@[i as int])),
{
    let mut count: usize = 0;
    let mut j: usize = 0;
    while j < keys.len()
        invariant
            i < keys@.len(),
            j <= keys@.len(),
            count <= j,
            count == keys_ahead(keys@.take(j as int), place_of(keys@[i as int])),
        decreases keys.len() - j,
    {
        assert(keys@.take(j + 1).drop_last() =~= keys@.take(j as int));
        if key_before(&keys[j], &keys[i]) {
            count = count + 1;
        }
        j = j + 1;
    }
    assert(keys@.take(keys@.len() as int) =~= keys@);
    count
}

pub open spec fn keys_ahead<K: Ranked>(keys: Seq<(i128, i128, K)>, at: (int, int, nat)) -> nat
    decreases keys.len(),
{
    if keys.len() == 0 {
        0
    } else {
        keys_ahead(keys.drop_last(), at) + (if before(place_of(keys.last()), at) {
            1nat
        } else {
            0
        })
    }
}

/// Which places of a list of keys have fewer than `cap` others before them.
pub fn flag_first<K: Ranked>(keys: &Vec<(i128, i128, K)>, cap: usize) -> (r: Vec<bool>)
    ensures
        r@.len() == keys@.len(),
        forall|i: int|
            0 <= i < r@.len() ==> #[trigger] r@[i] == (keys_ahead(keys@, place_of(keys@[i])) < cap),
{
    let mut out: Vec<bool> = Vec::new();
    let mut i: usize = 0;
    while i < keys.len()
        invariant
            i <= keys@.len(),
            out@.len() == i,
            forall|j: int|
                0 <= j < i ==> #[trigger] out@[j] == (keys_ahead(keys@, place_of(keys@[j])) < cap),
        decreases keys.len() - i,
    {
        out.push(count_ahead(keys, i) < cap);
        i = i + 1;
    }
    out
}

/// Keys that stand for places are ahead as the places are.
pub proof fn lemma_keys_ahead<K: Ranked, V, Q: Ranked>(
    keys: Seq<(i128, i128, Q)>,
    es: Seq<(K, V)>,
    place: spec_fn(K, V) -> (int, int, nat),
    at: (int, int, nat),
)
    requires
        keys.len() == es.len(),
        forall|i: int|
            0 <= i < es.len() ==> place_of(#[trigger] keys[i]) == place(es[i].0, es[i].1),
    ensures
        keys_ahead(keys, at) == ahead(es, place, at),
    decreases es.len(),
{
    if es.len() > 0 {
        let kf = keys.drop_last();
        let ef = es.drop_last();
        assert forall|i: int| 0 <= i < ef.len() implies place_of(#[trigger] kf[i]) == place(
            ef[i].0,
            ef[i].1,
        ) by {
            assert(kf[i] == keys[i]);
        }
        lemma_keys_ahead(kf, ef, place, at);
        assert(keys[keys.len() - 1] == keys.last());
    }
}

pub proof fn lemma_ahead_grows<K, V>(
    es: Seq<(K, V)>,
    place: spec_fn(K, V) -> (int, int, nat),
    a: (int, int, nat),
    b: (int, int, nat),
)
    requires
        a == b || before(a, b),
    ensures
        ahead(es, place, a) <= ahead(es, place, b),
        ahead(es, place, b) <= es.len(),
        before(a, b) && (exists|i: int|
            0 <= i < es.len() && place((#[trigger] es[i]).0, es[i].1) == a) ==> ahead(es, place, a)
            < ahead(es, place, b),
    decreases es.len(),
{
    if es.len() > 0 {
        let front = es.drop_last();
        lemma_ahead_grows(front, place, a, b);
        if before(a, b) && exists|i: int|
            0 <= i < es.len() && place((#[trigger] es[i]).0, es[i].1) == a {
            let i = choose|i: int|
                0 <= i < es.len() && place((#[trigger] es[i]).0, es[i].1) == a;
            if i < front.len() {
                assert(place(front[i].0, front[i].1) == a);
            }
        }
    }
}

/// Whatever is dropped comes after everything that is kept.
pub proof fn law_the_foremost_stay<K: Ranked, V>(
    m: Map<K, V>,
    place: spec_fn(K, V) -> (int, int, nat),
    cap: nat,
    kept: K,
    dropped: K,
)
    requires
        m.dom().finite(),
        foremost(m, place, cap).contains_key(kept),
        m.contains_key(dropped),
        !foremost(m, place, cap).contains_key(dropped),
    ensures
        before(place(kept, m[kept]), place(dropped, m[dropped])),
{
    let a = place(kept, m[kept]);
    let b = place(dropped, m[dropped]);
    if !before(a, b) {
        lemma_ahead_grows(listing(m), place, b, a);
    }
}

proof fn lemma_none_ahead<K, V>(
    es: Seq<(K, V)>,
    place: spec_fn(K, V) -> (int, int, nat),
    at: (int, int, nat),
)
    requires
        forall|i: int| 0 <= i < es.len() ==> !before(place((#[trigger] es[i]).0, es[i].1), at),
    ensures
        ahead(es, place, at) == 0,
    decreases es.len(),
{
    if es.len() > 0 {
        let front = es.drop_last();
        assert forall|i: int| 0 <= i < front.len() implies !before(
            place((#[trigger] front[i]).0, front[i].1),
            at,
        ) by {
            assert(front[i] == es[i]);
        }
        lemma_none_ahead(front, place, at);
        assert(!before(place(es[es.len() - 1].0, es[es.len() - 1].1), at));
    }
}

/// An entry that no other comes before is kept.
pub proof fn lemma_the_first_stays<K: Ranked, V>(
    m: Map<K, V>,
    place: spec_fn(K, V) -> (int, int, nat),
    cap: nat,
    k: K,
)
    requires
        m.dom().finite(),
        m.contains_key(k),
        cap > 0,
        forall|x: K| #[trigger] m.contains_key(x) ==> !before(place(x, m[x]), place(k, m[k])),
    ensures
        foremost(m, place, cap).contains_key(k),
{
    let es = listing(m);
    assert forall|i: int| 0 <= i < es.len() implies !before(
        place((#[trigger] es[i]).0, es[i].1),
        place(k, m[k]),
    ) by {
        lemma_listing_entry(m, i);
    }
    lemma_none_ahead(es, place, place(k, m[k]));
}

/// The places that entries take, as they come in a list.
pub proof fn lemma_few_have_few_ahead<K: Ranked, V>(
    m: Map<K, V>,
    place: spec_fn(K, V) -> (int, int, nat),
    cap: nat,
)
    requires
        m.dom().finite(),
        placed_apart(m, place),
    ensures
        restricted(m, among_first(m, place, cap)).dom().finite(),
        restricted(m, among_first(m, place, cap)).dom().len() <= cap,
    decreases cap,
{
    let kept = restricted(m, among_first(m, place, cap));
    assert(kept.dom().subset_of(m.dom()));
    vstd::set_lib::lemma_len_subset(kept.dom(), m.dom());
    if cap == 0 {
        assert(kept.dom() =~= Set::empty());
    } else {
        let fewer = restricted(m, among_first(m, place, (cap - 1) as nat));
        lemma_few_have_few_ahead(m, place, (cap - 1) as nat);
        if exists|k: K| kept.contains_key(k) && !fewer.contains_key(k) {
            let k = choose|k: K| kept.contains_key(k) && !fewer.contains_key(k);
            assert forall|x: K| kept.dom().contains(x) implies fewer.dom().insert(k).contains(
                x,
            ) by {
                if !fewer.contains_key(x) && x != k {
                    let a = place(k, m[k]);
                    let b = place(x, m[x]);
                    let i = lemma_listing_place(m, k);
                    let j = lemma_listing_place(m, x);
                    let es = listing(m);
                    assert(place(es[i].0, es[i].1) == a);
                    assert(place(es[j].0, es[j].1) == b);
                    if before(a, b) {
                        lemma_ahead_grows(es, place, a, b);
                    } else if before(b, a) {
                        lemma_ahead_grows(es, place, b, a);
                    } else {
                        assert(a == b);
                        assert(m.contains_key(k) && m.contains_key(x));
                    }
                }
            }
            assert(kept.dom().subset_of(fewer.dom().insert(k)));
            vstd::set_lib::lemma_len_subset(kept.dom(), fewer.dom().insert(k));
        } else {
            assert(kept.dom().subset_of(fewer.dom()));
            vstd::set_lib::lemma_len_subset(kept.dom(), fewer.dom());
        }
    }
}

/// No more than `cap` entries are kept, and keeping the foremost of them
/// changes nothing.
pub proof fn law_no_more_than_the_cap<K: Ranked, V>(
    m: Map<K, V>,
    place: spec_fn(K, V) -> (int, int, nat),
    cap: nat,
)
    requires
        m.dom().finite(),
        placed_apart(m, place),
    ensures
        foremost(m, place, cap).dom().finite(),
        listing(foremost(m, place, cap)).len() <= cap,
        foremost(foremost(m, place, cap), place, cap) == foremost(m, place, cap),
{
    let kept = foremost(m, place, cap);
    lemma_few_have_few_ahead(m, place, cap);
    lemma_listed(kept);
    lemma_as_map_finite(listing(kept));
}

} // verus!
