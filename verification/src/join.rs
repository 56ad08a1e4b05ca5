//! Why peers who saw the same records agree.
//!
//! A record belongs under one key, and of two under one key a relation says
//! which one stays. Where that relation is an order, maps that are filled
//! record by record form a join: it does not matter in what order the records
//! come, how often, or by way of which peer.

use crate::lists::{values_of, with_value};
use crate::sorted_map::{
    as_map, has_key, index_of_key, lemma_as_map_entry, lemma_as_map_last, lemma_listed, lemma_listing_entry,
    lemma_listing_place, listing, restricted, sorted, Ranked,
};
use crate::sync::{lemma_told_own_mark, marks_of, missing, told, Record};
use vstd::prelude::*;

verus! {

/// Whether a relation orders records, some of which may tie.
pub open spec fn orders<V>(over: spec_fn(V, V) -> bool) -> bool {
    &&& forall|x: V| !(#[trigger] over(x, x))
    &&& forall|x: V, y: V, z: V|
        #![trigger over(x, y), over(y, z)]
        over(x, y) && over(y, z) ==> over(x, z)
    &&& forall|x: V, y: V, z: V|
        #![trigger over(x, z), over(x, y)]
        over(x, z) ==> over(x, y) || over(y, z)
}

/// Whether it is settled which of two records stays, unless they are one.
pub open spec fn apart<V>(over: spec_fn(V, V) -> bool, x: V, y: V) -> bool {
    x == y || over(x, y) || over(y, x)
}

/// Whether it is settled, under every key, which of two maps' records stays.
pub open spec fn all_apart<K, V>(over: spec_fn(V, V) -> bool, a: Map<K, V>, b: Map<K, V>) -> bool {
    forall|k: K|
        #![trigger a.contains_key(k), b.contains_key(k)]
        a.contains_key(k) && b.contains_key(k) ==> apart(over, a[k], b[k])
}

/// A map with one more record.
pub open spec fn put<K, V>(
    m: Map<K, V>,
    v: V,
    key: spec_fn(V) -> K,
    over: spec_fn(V, V) -> bool,
) -> Map<K, V> {
    if m.contains_key(key(v)) && !over(v, m[key(v)]) {
        m
    } else {
        m.insert(key(v), v)
    }
}

/// A map with a list of records more.
pub open spec fn taken<K, V>(
    m: Map<K, V>,
    vs: Seq<V>,
    key: spec_fn(V) -> K,
    over: spec_fn(V, V) -> bool,
) -> Map<K, V>
    decreases vs.len(),
{
    if vs.len() == 0 {
        m
    } else {
        put(taken(m, vs.drop_last(), key, over), vs.last(), key, over)
    }
}

/// Two maps as one.
pub open spec fn join<K, V>(a: Map<K, V>, b: Map<K, V>, over: spec_fn(V, V) -> bool) -> Map<K, V> {
    Map::new(
        |k: K| a.contains_key(k) || b.contains_key(k),
        |k: K|
            if a.contains_key(k) && (!b.contains_key(k) || !over(b[k], a[k])) {
                a[k]
            } else {
                b[k]
            },
    )
}

/// Whether every record is filed under its key.
pub open spec fn filed<K, V>(m: Map<K, V>, key: spec_fn(V) -> K) -> bool {
    forall|k: K| #[trigger] m.contains_key(k) ==> key(m[k]) == k
}

/// Two maps join alike either way.
pub proof fn law_joining_commutes<K, V>(
    a: Map<K, V>,
    b: Map<K, V>,
    over: spec_fn(V, V) -> bool,
)
    requires
        orders(over),
        all_apart(over, a, b),
    ensures
        join(a, b, over) == join(b, a, over),
{
    assert forall|k: K| join(a, b, over).contains_key(k) implies join(a, b, over)[k] == join(
        b,
        a,
        over,
    )[k] by {
        if a.contains_key(k) && b.contains_key(k) {
            assert(apart(over, a[k], b[k]));
            if over(a[k], b[k]) && over(b[k], a[k]) {
                assert(over(a[k], a[k]));
            }
        }
    }
    assert(join(a, b, over) =~= join(b, a, over));
}

/// Three maps join alike, whichever two come first.
pub proof fn law_joining_is_associative<K, V>(
    a: Map<K, V>,
    b: Map<K, V>,
    c: Map<K, V>,
    over: spec_fn(V, V) -> bool,
)
    requires
        orders(over),
    ensures
        join(join(a, b, over), c, over) == join(a, join(b, c, over), over),
{
    let left = join(join(a, b, over), c, over);
    let right = join(a, join(b, c, over), over);
    assert forall|k: K| left.contains_key(k) implies left[k] == right[k] by {
        if a.contains_key(k) && b.contains_key(k) && c.contains_key(k) {
            let (x, y, z) = (a[k], b[k], c[k]);
            if over(z, y) && over(y, x) {
                assert(over(z, x));
            }
            if over(z, x) {
                assert(over(z, y) || over(y, x));
            }
            if over(y, x) {
                assert(over(y, z) || over(z, x));
            }
        }
    }
    assert(left =~= right);
}

/// What was joined already adds nothing.
pub proof fn law_joining_twice_is_joining_once<K, V>(
    a: Map<K, V>,
    b: Map<K, V>,
    over: spec_fn(V, V) -> bool,
)
    requires
        orders(over),
    ensures
        join(a, a, over) == a,
        join(join(a, b, over), b, over) == join(a, b, over),
        join(join(a, b, over), a, over) == join(a, b, over),
{
    assert(join(a, a, over) =~= a);
    let j = join(a, b, over);
    assert forall|k: K| a.contains_key(k) && b.contains_key(k) && over(b[k], a[k]) implies !over(
        a[k],
        b[k],
    ) by {
        if over(a[k], b[k]) {
            assert(over(a[k], a[k]));
        }
    }
    assert(join(j, b, over) =~= j);
    assert(join(j, a, over) =~= j);
}

/// Taking in a list of records is joining the map that they make.
pub proof fn lemma_taken_is_joined<K, V>(
    m: Map<K, V>,
    vs: Seq<V>,
    key: spec_fn(V) -> K,
    over: spec_fn(V, V) -> bool,
)
    requires
        orders(over),
    ensures
        taken(m, vs, key, over) == join(m, taken(Map::empty(), vs, key, over), over),
        forall|k: K|
            #[trigger] taken(Map::empty(), vs, key, over).contains_key(k) ==> vs.contains(
                taken(Map::empty(), vs, key, over)[k],
            ) && key(taken(Map::empty(), vs, key, over)[k]) == k,
    decreases vs.len(),
{
    let none = Map::<K, V>::empty();
    if vs.len() == 0 {
        assert(join(m, none, over) =~= m);
    } else {
        let front = vs.drop_last();
        let v = vs.last();
        lemma_taken_is_joined(m, front, key, over);
        let t = taken(none, front, key, over);
        let all = taken(none, vs, key, over);
        assert forall|k: K| #[trigger] all.contains_key(k) implies vs.contains(all[k]) && key(
            all[k],
        ) == k by {
            if all[k] == v && k == key(v) {
                assert(vs[vs.len() - 1] == v);
            } else {
                assert(t.contains_key(k));
                let i = choose|i: int| 0 <= i < front.len() && front[i] == t[k];
                assert(vs[i] == t[k]);
            }
        }
        let k = key(v);
        let before = join(m, t, over);
        if m.contains_key(k) && t.contains_key(k) {
            let (x, y) = (m[k], t[k]);
            if over(v, y) && over(y, x) {
                assert(over(v, x));
            }
            if over(v, x) {
                assert(over(v, y) || over(y, x));
            }
            if over(y, x) {
                assert(over(y, v) || over(v, x));
            }
        }
        assert(put(before, v, key, over) =~= join(m, all, over));
    }
}

/// Whether it is settled which of any two records with one key stays.
pub open spec fn lists_apart<K, V>(
    xs: Seq<V>,
    ys: Seq<V>,
    key: spec_fn(V) -> K,
    over: spec_fn(V, V) -> bool,
) -> bool {
    forall|i: int, j: int|
        0 <= i < xs.len() && 0 <= j < ys.len() && key(#[trigger] xs[i]) == key(#[trigger] ys[j])
            ==> apart(over, xs[i], ys[j])
}

/// Two lists of records are taken in alike in either order.
pub proof fn law_updates_commute<K, V>(
    m: Map<K, V>,
    xs: Seq<V>,
    ys: Seq<V>,
    key: spec_fn(V) -> K,
    over: spec_fn(V, V) -> bool,
)
    requires
        orders(over),
        lists_apart(xs, ys, key, over),
    ensures
        taken(taken(m, xs, key, over), ys, key, over) == taken(
            taken(m, ys, key, over),
            xs,
            key,
            over,
        ),
{
    let none = Map::<K, V>::empty();
    let a = taken(none, xs, key, over);
    let b = taken(none, ys, key, over);
    lemma_taken_is_joined(m, xs, key, over);
    lemma_taken_is_joined(m, ys, key, over);
    lemma_taken_is_joined(join(m, a, over), ys, key, over);
    lemma_taken_is_joined(join(m, b, over), xs, key, over);
    assert forall|k: K|
        #![trigger a.contains_key(k), b.contains_key(k)]
        a.contains_key(k) && b.contains_key(k) implies apart(over, a[k], b[k]) by {
        let i = choose|i: int| 0 <= i < xs.len() && xs[i] == a[k];
        let j = choose|j: int| 0 <= j < ys.len() && ys[j] == b[k];
        assert(key(xs[i]) == key(ys[j]));
    }
    law_joining_commutes(a, b, over);
    law_joining_is_associative(m, a, b, over);
    law_joining_is_associative(m, b, a, over);
}

/// A list of records that was taken in already adds nothing.
pub proof fn law_updates_come_in_once<K, V>(
    m: Map<K, V>,
    xs: Seq<V>,
    key: spec_fn(V) -> K,
    over: spec_fn(V, V) -> bool,
)
    requires
        orders(over),
    ensures
        taken(taken(m, xs, key, over), xs, key, over) == taken(m, xs, key, over),
{
    let a = taken(Map::<K, V>::empty(), xs, key, over);
    lemma_taken_is_joined(m, xs, key, over);
    lemma_taken_is_joined(join(m, a, over), xs, key, over);
    law_joining_twice_is_joining_once(m, a, over);
}

/// Entries that are kept by their keys.
pub open spec fn kept_keys<K, V>(keep: spec_fn(K) -> bool) -> spec_fn(K, V) -> bool {
    |k: K, v: V| keep(k)
}

/// What is kept by its key is the same whether the rest was dropped before or
/// after records came in.
pub proof fn lemma_taken_kept<K, V>(
    m: Map<K, V>,
    vs: Seq<V>,
    key: spec_fn(V) -> K,
    over: spec_fn(V, V) -> bool,
    keep: spec_fn(K) -> bool,
)
    ensures
        restricted(taken(restricted(m, kept_keys(keep)), vs, key, over), kept_keys(keep))
            == restricted(taken(m, vs, key, over), kept_keys(keep)),
    decreases vs.len(),
{
    let few = restricted(m, kept_keys(keep));
    if vs.len() == 0 {
        assert(restricted(few, kept_keys(keep)) =~= few);
    } else {
        let front = vs.drop_last();
        let v = vs.last();
        lemma_taken_kept(m, front, key, over, keep);
        let a = taken(few, front, key, over);
        let b = taken(m, front, key, over);
        assert forall|k: K| keep(k) implies a.contains_key(k) == b.contains_key(k) && (
        a.contains_key(k) ==> a[k] == b[k]) by {
            assert(restricted(a, kept_keys(keep)).contains_key(k) == restricted(
                b,
                kept_keys(keep),
            ).contains_key(k));
            if a.contains_key(k) {
                assert(restricted(a, kept_keys(keep))[k] == restricted(b, kept_keys(keep))[k]);
            }
        }
        assert(restricted(put(a, v, key, over), kept_keys(keep)) =~= restricted(
            put(b, v, key, over),
            kept_keys(keep),
        ));
    }
}

/// Whether marks tell two maps' records apart: where a mark is the same under
/// one key, the record is.
pub open spec fn marks_tell<K, R: Record>(a: Map<K, R::V>, b: Map<K, R::V>) -> bool {
    forall|k: K|
        #![trigger a.contains_key(k), b.contains_key(k)]
        a.contains_key(k) && b.contains_key(k) && R::mark_of(a[k]) == R::mark_of(b[k]) ==> a[k]
            == b[k]
}

/// The last mark that is told of a map is that of its record.
pub proof fn lemma_told_of_map<K: Ranked, R: Record>(m: Map<K, R::V>, k: K)
    requires
        m.dom().finite(),
    ensures
        told(marks_of::<K, R>(listing(m)), k) == (if m.contains_key(k) {
            Some(R::mark_of(m[k]))
        } else {
            None
        }),
{
    lemma_listed(m);
    let es = listing(m);
    if m.contains_key(k) {
        let i = lemma_listing_place(m, k);
        lemma_told_own_mark::<K, R>(es, i);
    } else {
        lemma_untold::<K, R>(es, k);
    }
}

proof fn lemma_untold<K: Ranked, R: Record>(es: Seq<(K, R::V)>, k: K)
    requires
        sorted(es),
        !as_map(es).contains_key(k),
    ensures
        told(marks_of::<K, R>(es), k) is None,
    decreases es.len(),
{
    let marks = marks_of::<K, R>(es);
    if es.len() > 0 {
        let front = es.drop_last();
        assert(marks.drop_last() =~= marks_of::<K, R>(front));
        assert forall|i: int, j: int| 0 <= i < j < front.len() implies (#[trigger] front[i]).0.rank()
            < (#[trigger] front[j]).0.rank() by {
            assert(front[i] == es[i] && front[j] == es[j]);
        }
        if has_key(front, k) {
            let i = index_of_key(front, k);
            assert(es[i].0 == k);
            lemma_as_map_entry(es, i);
        }
        lemma_untold::<K, R>(front, k);
        if es.last().0 == k {
            assert(es[es.len() - 1].0 == k);
            lemma_as_map_entry(es, es.len() - 1);
        }
    }
}

/// Taking in what a peer was not told of another's map makes the two into one.
pub proof fn law_syncing_joins<K: Ranked, R: Record>(
    a: Map<K, R::V>,
    b: Map<K, R::V>,
    key: spec_fn(R::V) -> K,
    over: spec_fn(R::V, R::V) -> bool,
)
    requires
        a.dom().finite(),
        b.dom().finite(),
        filed(b, key),
        marks_tell::<K, R>(a, b),
        orders(over),
    ensures
        taken(
            a,
            missing::<K, R>(listing(b), marks_of::<K, R>(listing(a))),
            key,
            over,
        ) == join(a, b, over),
        forall|i: int|
            0 <= i < missing::<K, R>(listing(b), marks_of::<K, R>(listing(a))).len() ==> b.contains_value(
                #[trigger] missing::<K, R>(listing(b), marks_of::<K, R>(listing(a)))[i],
            ),
{
    lemma_listed(b);
    let es = listing(b);
    let marks = marks_of::<K, R>(listing(a));
    assert forall|i: int| 0 <= i < es.len() implies key((#[trigger] es[i]).1) == es[i].0
        && b.contains_key(es[i].0) && b[es[i].0] == es[i].1 by {
        lemma_listing_entry(b, i);
    }
    assert forall|i: int| 0 <= i < es.len() implies (told(marks, (#[trigger] es[i]).0) == Some(
        R::mark_of(es[i].1),
    ) ==> a.contains_key(es[i].0) && a[es[i].0] == es[i].1) by {
        lemma_told_of_map::<K, R>(a, es[i].0);
        assert(b.contains_key(es[i].0));
    }
    lemma_sync_step::<K, R>(a, es, marks, key, over);
    assert(as_map(es) == b);
    let sent = missing::<K, R>(es, marks);
    assert forall|i: int| 0 <= i < sent.len() implies b.contains_value(#[trigger] sent[i]) by {
        let j = choose|j: int| 0 <= j < es.len() && es[j].1 == sent[i];
        assert(b.contains_key(es[j].0));
    }
}

proof fn lemma_sync_step<K: Ranked, R: Record>(
    a: Map<K, R::V>,
    es: Seq<(K, R::V)>,
    marks: Seq<(K, u64)>,
    key: spec_fn(R::V) -> K,
    over: spec_fn(R::V, R::V) -> bool,
)
    requires
        sorted(es),
        orders(over),
        forall|i: int| 0 <= i < es.len() ==> key((#[trigger] es[i]).1) == es[i].0,
        forall|i: int|
            0 <= i < es.len() ==> (told(marks, (#[trigger] es[i]).0) == Some(
                R::mark_of(es[i].1),
            ) ==> a.contains_key(es[i].0) && a[es[i].0] == es[i].1),
    ensures
        taken(a, missing::<K, R>(es, marks), key, over) == join(a, as_map(es), over),
        forall|i: int|
            0 <= i < missing::<K, R>(es, marks).len() ==> exists|j: int|
                0 <= j < es.len() && es[j].1 == #[trigger] missing::<K, R>(es, marks)[i],
    decreases es.len(),
{
    let sent = missing::<K, R>(es, marks);
    if es.len() == 0 {
        assert(join(a, as_map(es), over) =~= a);
    } else {
        let front = es.drop_last();
        let (k, v) = es.last();
        assert forall|i: int, j: int| 0 <= i < j < front.len() implies (#[trigger] front[i]).0.rank()
            < (#[trigger] front[j]).0.rank() by {
            assert(front[i] == es[i] && front[j] == es[j]);
        }
        assert forall|i: int| 0 <= i < front.len() implies key((#[trigger] front[i]).1)
            == front[i].0 && (told(marks, front[i].0) == Some(R::mark_of(front[i].1))
            ==> a.contains_key(front[i].0) && a[front[i].0] == front[i].1) by {
            assert(front[i] == es[i]);
        }
        lemma_sync_step::<K, R>(a, front, marks, key, over);
        let before = missing::<K, R>(front, marks);
        assert(es[es.len() - 1] == (k, v));
        assert forall|i: int| 0 <= i < sent.len() implies exists|j: int|
            0 <= j < es.len() && es[j].1 == #[trigger] sent[i] by {
            if i < before.len() {
                assert(sent[i] == before[i]);
                let j = choose|j: int| 0 <= j < front.len() && front[j].1 == before[i];
                assert(es[j].1 == sent[i]);
            } else {
                assert(es[es.len() - 1].1 == sent[i]);
            }
        }
        let m = as_map(front);
        lemma_as_map_last(es);
        let so_far = join(a, m, over);
        if told(marks, k) == Some(R::mark_of(v)) {
            assert(join(a, m.insert(k, v), over) =~= so_far);
        } else {
            assert(sent.drop_last() =~= before);
            assert(put(so_far, v, key, over) =~= join(a, m.insert(k, v), over));
        }
    }
}

/// All is sent to one who told of nothing.
proof fn lemma_all_is_missing<K, R: Record>(es: Seq<(K, R::V)>)
    ensures
        missing::<K, R>(es, Seq::empty()) == Seq::new(es.len(), |i: int| es[i].1),
    decreases es.len(),
{
    if es.len() > 0 {
        lemma_all_is_missing::<K, R>(es.drop_last());
    }
    assert(missing::<K, R>(es, Seq::empty()) =~= Seq::new(es.len(), |i: int| es[i].1));
}

/// Taking in all of a map's records is joining the map.
pub proof fn lemma_values_join<K: Ranked, R: Record>(
    a: Map<K, R::V>,
    b: Map<K, R::V>,
    key: spec_fn(R::V) -> K,
    over: spec_fn(R::V, R::V) -> bool,
)
    requires
        b.dom().finite(),
        filed(b, key),
        orders(over),
    ensures
        taken(a, values_of(b), key, over) == join(a, b, over),
{
    let none = Map::<K, R::V>::empty();
    lemma_listed(none);
    if listing(none).len() > 0 {
        lemma_listing_entry(none, 0);
    }
    assert(marks_of::<K, R>(listing(none)) =~= Seq::empty());
    lemma_all_is_missing::<K, R>(listing(b));
    assert(values_of(b) =~= Seq::new(listing(b).len(), |i: int| listing(b)[i].1));
    law_syncing_joins::<K, R>(none, b, key, over);
    assert(join(none, b, over) =~= b);
    lemma_taken_is_joined(a, values_of(b), key, over);
}

/// Maps of which the same is told hold the same, where marks tell.
pub proof fn lemma_told_alike<K: Ranked, R: Record>(a: Map<K, R::V>, b: Map<K, R::V>)
    requires
        a.dom().finite(),
        b.dom().finite(),
        marks_tell::<K, R>(a, b),
        marks_of::<K, R>(listing(a)) == marks_of::<K, R>(listing(b)),
    ensures
        a == b,
{
    let ms = marks_of::<K, R>(listing(a));
    assert(listing(a).len() == ms.len() && listing(b).len() == ms.len());
    assert forall|k: K| #[trigger] a.contains_key(k) implies b.contains_key(k) && a[k] == b[k] by {
        let i = lemma_listing_place(a, k);
        assert(ms[i] == (k, R::mark_of(a[k])));
        lemma_listing_entry(b, i);
    }
    assert forall|k: K| #[trigger] b.contains_key(k) implies a.contains_key(k) by {
        let i = lemma_listing_place(b, k);
        assert(ms[i] == (k, R::mark_of(b[k])));
        lemma_listing_entry(a, i);
    }
    assert(a.dom() =~= b.dom());
    assert(a =~= b);
}

/// A map with those of a list of records that are heeded.
pub open spec fn heeded<K, V>(
    m: Map<K, V>,
    vs: Seq<V>,
    key: spec_fn(V) -> K,
    over: spec_fn(V, V) -> bool,
    heed: spec_fn(V) -> bool,
) -> Map<K, V>
    decreases vs.len(),
{
    if vs.len() == 0 {
        m
    } else {
        let so_far = heeded(m, vs.drop_last(), key, over, heed);
        if heed(vs.last()) {
            put(so_far, vs.last(), key, over)
        } else {
            so_far
        }
    }
}

proof fn lemma_heeded_listed<K: Ranked, V>(
    m: Map<K, V>,
    es: Seq<(K, V)>,
    key: spec_fn(V) -> K,
    over: spec_fn(V, V) -> bool,
    heed: spec_fn(V) -> bool,
)
    requires
        sorted(es),
        forall|i: int| 0 <= i < es.len() ==> key((#[trigger] es[i]).1) == es[i].0,
    ensures
        heeded(m, es.map_values(|e: (K, V)| e.1), key, over, heed) == join(
            m,
            restricted(as_map(es), with_value(heed)),
            over,
        ),
    decreases es.len(),
{
    let vs = es.map_values(|e: (K, V)| e.1);
    if es.len() == 0 {
        assert(join(m, restricted(as_map(es), with_value(heed)), over) =~= m);
    } else {
        let front = es.drop_last();
        let (k, v) = es.last();
        lemma_as_map_last(es);
        assert forall|i: int| 0 <= i < front.len() implies key((#[trigger] front[i]).1)
            == front[i].0 by {
            assert(front[i] == es[i]);
        }
        lemma_heeded_listed(m, front, key, over, heed);
        assert(vs.drop_last() =~= front.map_values(|e: (K, V)| e.1));
        assert(es[es.len() - 1] == (k, v));
        let r = restricted(as_map(front), with_value(heed));
        let all = restricted(as_map(es), with_value(heed));
        if heed(v) {
            assert(all =~= r.insert(k, v));
            assert(join(m, all, over) =~= put(join(m, r, over), v, key, over));
        } else {
            assert(all =~= r);
        }
    }
}

/// Taking in those of a map's records that are heeded joins what is heeded of
/// the map.
pub proof fn lemma_heeded_is_joined<K: Ranked, V>(
    m: Map<K, V>,
    b: Map<K, V>,
    key: spec_fn(V) -> K,
    over: spec_fn(V, V) -> bool,
    heed: spec_fn(V) -> bool,
)
    requires
        b.dom().finite(),
        filed(b, key),
    ensures
        heeded(m, values_of(b), key, over, heed) == join(
            m,
            restricted(b, with_value(heed)),
            over,
        ),
{
    lemma_listed(b);
    let es = listing(b);
    assert forall|i: int| 0 <= i < es.len() implies key((#[trigger] es[i]).1) == es[i].0 by {
        lemma_listing_entry(b, i);
    }
    lemma_heeded_listed(m, es, key, over, heed);
    assert(values_of(b) =~= es.map_values(|e: (K, V)| e.1));
}

} // verus!
