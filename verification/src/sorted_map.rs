//! A map kept sorted by key, so that equal maps are equal to the byte.

use vstd::prelude::*;

verus! {

/// Keys with a total order, given by the number that each stands for.
pub trait Ranked: Copy {
    spec fn rank(self) -> nat;

    /// Whether this key comes before another.
    fn precedes(&self, other: &Self) -> (r: bool)
        ensures
            r == (self.rank() < other.rank()),
    ;

    /// The number tells the key.
    proof fn rank_decides(a: Self, b: Self)
        requires
            a.rank() == b.rank(),
        ensures
            a == b,
    ;
}

impl Ranked for u32 {
    open spec fn rank(self) -> nat {
        self as nat
    }

    fn precedes(&self, other: &Self) -> (r: bool) {
        *self < *other
    }

    proof fn rank_decides(a: Self, b: Self) {
    }
}

impl<const N: usize> Ranked for [u8; N] {
    open spec fn rank(self) -> nat {
        crate::bytes::be_value(self@)
    }

    fn precedes(&self, other: &Self) -> (r: bool) {
        crate::bytes::bytes_less(self, other)
    }

    proof fn rank_decides(a: Self, b: Self) {
        crate::bytes::lemma_be_value_injective(a@, b@);
        assert(a =~= b);
    }
}

/// Keys in order, and none twice.
pub open spec fn sorted<K: Ranked, V>(es: Seq<(K, V)>) -> bool {
    forall|i: int, j: int|
        0 <= i < j < es.len() ==> (#[trigger] es[i]).0.rank() < (#[trigger] es[j]).0.rank()
}

/// Whether a key occurs.
pub open spec fn has_key<K, V>(es: Seq<(K, V)>, k: K) -> bool {
    exists|i: int| 0 <= i < es.len() && (#[trigger] es[i]).0 == k
}

/// Where a key occurs.
pub open spec fn index_of_key<K, V>(es: Seq<(K, V)>, k: K) -> int {
    choose|i: int| 0 <= i < es.len() && (#[trigger] es[i]).0 == k
}

/// The map that a list of entries stands for.
pub open spec fn as_map<K, V>(es: Seq<(K, V)>) -> Map<K, V> {
    Map::new(|k: K| has_key(es, k), |k: K| es[index_of_key(es, k)].1)
}

/// In a sorted list the value of a key is the one beside it.
pub proof fn lemma_as_map_entry<K: Ranked, V>(es: Seq<(K, V)>, i: int)
    requires
        sorted(es),
        0 <= i < es.len(),
    ensures
        as_map(es).contains_key(es[i].0),
        as_map(es)[es[i].0] == es[i].1,
{
    let k = es[i].0;
    assert(has_key(es, k));
    let j = index_of_key(es, k);
    assert(0 <= j < es.len() && es[j].0 == k);
    if j < i {
        assert(es[j].0.rank() < es[i].0.rank());
    }
    if i < j {
        assert(es[i].0.rank() < es[j].0.rank());
    }
}

/// The entries of a map in the order of their keys.
pub open spec fn listing<K: Ranked, V>(m: Map<K, V>) -> Seq<(K, V)> {
    choose|es: Seq<(K, V)>| sorted(es) && as_map(es) == m
}

proof fn lemma_has_key_split<K: Ranked, V>(es: Seq<(K, V)>, k: K)
    requires
        sorted(es),
        es.len() > 0,
    ensures
        has_key(es, k) <==> has_key(es.drop_last(), k) || k == es.last().0,
        !has_key(es.drop_last(), es.last().0),
        sorted(es.drop_last()),
{
    let front = es.drop_last();
    if has_key(es, k) {
        let i = index_of_key(es, k);
        if i < front.len() {
            assert(front[i] == es[i]);
        }
    }
    if has_key(front, k) {
        let i = index_of_key(front, k);
        assert(es[i] == front[i]);
    }
    if k == es.last().0 {
        assert(es[es.len() - 1].0 == k);
    }
    if has_key(front, es.last().0) {
        let i = index_of_key(front, es.last().0);
        assert(es[i] == front[i]);
        assert(es[i].0.rank() < es[es.len() - 1].0.rank());
    }
}

/// A map is listed in one way only.
proof fn lemma_one_listing<K: Ranked, V>(a: Seq<(K, V)>, b: Seq<(K, V)>)
    requires
        sorted(a),
        sorted(b),
        forall|k: K| has_key(a, k) <==> has_key(b, k),
        forall|k: K| has_key(a, k) ==> as_map(a)[k] == as_map(b)[k],
    ensures
        a == b,
    decreases a.len(),
{
    if a.len() == 0 {
        if b.len() > 0 {
            assert(has_key(b, b[0].0));
            assert(has_key(a, b[0].0));
        }
        assert(a =~= b);
    } else {
        let ka = a.last().0;
        assert(a[a.len() - 1].0 == ka);
        assert(has_key(a, ka));
        assert(has_key(b, ka));
        let kb = b.last().0;
        assert(b[b.len() - 1].0 == kb);
        assert(has_key(b, kb));
        assert(has_key(a, kb));
        let i = index_of_key(b, ka);
        let j = index_of_key(a, kb);
        if i < b.len() - 1 {
            assert(b[i].0.rank() < b[b.len() - 1].0.rank());
        }
        if j < a.len() - 1 {
            assert(a[j].0.rank() < a[a.len() - 1].0.rank());
        }
        K::rank_decides(ka, kb);
        lemma_as_map_entry(a, a.len() - 1);
        lemma_as_map_entry(b, b.len() - 1);
        let fa = a.drop_last();
        let fb = b.drop_last();
        assert forall|k: K| has_key(fa, k) <==> has_key(fb, k) by {
            lemma_has_key_split(a, k);
            lemma_has_key_split(b, k);
        }
        lemma_has_key_split(a, ka);
        lemma_has_key_split(b, kb);
        assert forall|k: K| has_key(fa, k) implies as_map(fa)[k] == as_map(fb)[k] by {
            let x = index_of_key(fa, k);
            let y = index_of_key(fb, k);
            assert(has_key(fb, k));
            lemma_as_map_entry(fa, x);
            lemma_as_map_entry(fb, y);
            assert(a[x] == fa[x]);
            assert(b[y] == fb[y]);
            lemma_as_map_entry(a, x);
            lemma_as_map_entry(b, y);
            assert(has_key(a, k));
        }
        lemma_one_listing(fa, fb);
        assert(a =~= fa.push(a.last()));
        assert(b =~= fb.push(b.last()));
    }
}

/// A sorted list lists the map that it stands for.
pub proof fn lemma_listing<K: Ranked, V>(es: Seq<(K, V)>)
    requires
        sorted(es),
    ensures
        listing(as_map(es)) == es,
{
    let m = as_map(es);
    let other = listing(m);
    assert(sorted(es) && as_map(es) == m);
    assert(sorted(other) && as_map(other) == m);
    assert forall|k: K| has_key(es, k) <==> has_key(other, k) by {
        assert(m.contains_key(k) <==> has_key(es, k));
        assert(as_map(other).contains_key(k) <==> has_key(other, k));
    }
    lemma_one_listing(es, other);
}

proof fn lemma_highest_key<K: Ranked>(s: Set<K>) -> (top: K)
    requires
        s.finite(),
        s.len() > 0,
    ensures
        s.contains(top),
        forall|k: K| #[trigger] s.contains(k) ==> k.rank() <= top.rank(),
    decreases s.len(),
{
    let some = s.choose();
    let rest = s.remove(some);
    if rest.len() == 0 {
        assert forall|k: K| #[trigger] s.contains(k) implies k.rank() <= some.rank() by {
            if k != some {
                assert(rest.contains(k));
                assert(rest =~= Set::empty());
            }
        }
        some
    } else {
        let other = lemma_highest_key(rest);
        let top = if other.rank() < some.rank() {
            some
        } else {
            other
        };
        assert forall|k: K| #[trigger] s.contains(k) implies k.rank() <= top.rank() by {
            if k != some {
                assert(rest.contains(k));
            }
        }
        top
    }
}

/// A map with finitely many keys can be listed.
pub proof fn lemma_listed<K: Ranked, V>(m: Map<K, V>)
    requires
        m.dom().finite(),
    ensures
        sorted(listing(m)),
        as_map(listing(m)) == m,
    decreases m.dom().len(),
{
    if m.dom().len() == 0 {
        let es = Seq::<(K, V)>::empty();
        assert(m.dom() =~= Set::empty());
        assert(as_map(es) =~= m);
        assert(sorted(es) && as_map(es) == m);
    } else {
        let top = lemma_highest_key(m.dom());
        let rest = m.remove(top);
        lemma_listed(rest);
        let front = listing(rest);
        let es = front.push((top, m[top]));
        assert forall|i: int, j: int| 0 <= i < j < es.len() implies (#[trigger] es[i]).0.rank() < (
        #[trigger] es[j]).0.rank() by {
            if j == front.len() {
                lemma_as_map_entry(front, i);
                let k = front[i].0;
                assert(rest.contains_key(k));
                assert(m.dom().contains(k));
                if k.rank() == top.rank() {
                    K::rank_decides(k, top);
                }
            } else {
                assert(front[i] == es[i] && front[j] == es[j]);
            }
        }
        assert(es.drop_last() =~= front);
        assert forall|k: K| as_map(es).contains_key(k) <==> m.contains_key(k) by {
            lemma_has_key_split(es, k);
            assert(rest.contains_key(k) <==> has_key(front, k));
        }
        assert forall|k: K| as_map(es).contains_key(k) implies as_map(es)[k] == m[k] by {
            let i = index_of_key(es, k);
            assert(has_key(es, k));
            lemma_as_map_entry(es, i);
            if i < front.len() {
                assert(front[i] == es[i]);
                lemma_as_map_entry(front, i);
            }
        }
        assert(as_map(es) =~= m);
        assert(sorted(es) && as_map(es) == m);
    }
}

/// An entry of a listing is one of the map.
pub proof fn lemma_listing_entry<K: Ranked, V>(m: Map<K, V>, i: int)
    requires
        m.dom().finite(),
        0 <= i < listing(m).len(),
    ensures
        m.contains_key(listing(m)[i].0),
        m[listing(m)[i].0] == listing(m)[i].1,
{
    lemma_listed(m);
    lemma_as_map_entry(listing(m), i);
}

/// Where a key of a map stands in its listing.
pub proof fn lemma_listing_place<K: Ranked, V>(m: Map<K, V>, k: K) -> (i: int)
    requires
        m.dom().finite(),
        m.contains_key(k),
    ensures
        0 <= i < listing(m).len(),
        listing(m)[i] == (k, m[k]),
{
    lemma_listed(m);
    assert(has_key(listing(m), k));
    let i = index_of_key(listing(m), k);
    lemma_as_map_entry(listing(m), i);
    i
}

/// A sorted list's map is that of all but the last entry, and the last.
pub proof fn lemma_as_map_last<K: Ranked, V>(es: Seq<(K, V)>)
    requires
        sorted(es),
        es.len() > 0,
    ensures
        sorted(es.drop_last()),
        !as_map(es.drop_last()).contains_key(es.last().0),
        as_map(es) == as_map(es.drop_last()).insert(es.last().0, es.last().1),
{
    let front = es.drop_last();
    let (k, v) = es.last();
    let m = as_map(front);
    lemma_has_key_split(es, k);
    assert forall|x: K| as_map(es).contains_key(x) <==> m.insert(k, v).contains_key(x) by {
        lemma_has_key_split(es, x);
    }
    assert forall|x: K| as_map(es).contains_key(x) implies as_map(es)[x] == m.insert(k, v)[x] by {
        if x == k {
            lemma_as_map_entry(es, es.len() - 1);
        } else {
            let i = index_of_key(es, x);
            lemma_as_map_entry(es, i);
            assert(front[i] == es[i]);
            lemma_as_map_entry(front, i);
        }
    }
    assert(as_map(es) =~= m.insert(k, v));
}

/// A list has finitely many keys.
pub proof fn lemma_as_map_finite<K: Ranked, V>(es: Seq<(K, V)>)
    requires
        sorted(es),
    ensures
        as_map(es).dom().finite(),
        as_map(es).dom().len() == es.len(),
    decreases es.len(),
{
    if es.len() == 0 {
        assert(as_map(es).dom() =~= Set::empty());
    } else {
        let front = es.drop_last();
        let k = es.last().0;
        lemma_has_key_split(es, k);
        lemma_as_map_finite(front);
        assert forall|x: K| as_map(es).dom().contains(x) <==> as_map(front).dom().insert(
            k,
        ).contains(x) by {
            lemma_has_key_split(es, x);
        }
        assert(as_map(es).dom() =~= as_map(front).dom().insert(k));
        assert(!as_map(front).dom().contains(k));
    }
}

/// What the values of a map hold.
pub open spec fn views<K, V: View>(m: Map<K, V>) -> Map<K, V::V> {
    m.map_values(|v: V| v@)
}

/// The listing of what the values hold.
pub proof fn lemma_listing_views<K: Ranked, V: View>(m: Map<K, V>)
    requires
        m.dom().finite(),
    ensures
        views(m).dom() == m.dom(),
        listing(views(m)).len() == listing(m).len(),
        forall|i: int|
            0 <= i < listing(m).len() ==> #[trigger] listing(views(m))[i] == (
                listing(m)[i].0,
                listing(m)[i].1@,
            ),
{
    lemma_listed(m);
    let es = listing(m);
    let vs = Seq::new(es.len(), |i: int| (es[i].0, es[i].1@));
    assert forall|i: int, j: int| 0 <= i < j < vs.len() implies (#[trigger] vs[i]).0.rank() < (
    #[trigger] vs[j]).0.rank() by {
        assert(es[i].0.rank() < es[j].0.rank());
    }
    assert forall|k: K| as_map(vs).contains_key(k) <==> views(m).contains_key(k) by {
        if has_key(vs, k) {
            let i = index_of_key(vs, k);
            assert(es[i].0 == k);
            assert(has_key(es, k));
        }
        if m.contains_key(k) {
            assert(has_key(es, k));
            let i = index_of_key(es, k);
            assert(vs[i].0 == k);
        }
    }
    assert forall|k: K| as_map(vs).contains_key(k) implies as_map(vs)[k] == views(m)[k] by {
        let i = index_of_key(vs, k);
        assert(has_key(vs, k));
        lemma_as_map_entry(vs, i);
        lemma_as_map_entry(es, i);
    }
    assert(as_map(vs) =~= views(m));
    assert(views(m).dom() =~= m.dom());
    lemma_listing(vs);
}

/// The entries of the `n` lowest keys.
pub open spec fn first_entries<K: Ranked, V>(m: Map<K, V>, n: int) -> Map<K, V> {
    if listing(m).len() <= n {
        m
    } else {
        as_map(listing(m).take(n))
    }
}

/// What is cut has the listing's front, and no more than was asked for.
pub proof fn lemma_first_entries<K: Ranked, V>(m: Map<K, V>, n: int)
    requires
        m.dom().finite(),
        0 <= n,
    ensures
        listing(m).len() > n ==> listing(first_entries(m, n)) == listing(m).take(n),
        listing(first_entries(m, n)).len() <= n,
        first_entries(m, n).dom().finite(),
        first_entries(first_entries(m, n), n) == first_entries(m, n),
{
    lemma_listed(m);
    let es = listing(m);
    if es.len() > n {
        let kept = es.take(n);
        assert forall|i: int, j: int| 0 <= i < j < kept.len() implies (#[trigger] kept[i]).0.rank()
            < (#[trigger] kept[j]).0.rank() by {
            assert(kept[i] == es[i]);
            assert(kept[j] == es[j]);
        }
        lemma_listing(kept);
        lemma_as_map_finite(kept);
    }
}

/// The entries that are flagged.
pub open spec fn flagged<A>(es: Seq<A>, flags: Seq<bool>) -> Seq<A>
    decreases es.len(),
{
    if es.len() == 0 || flags.len() < es.len() {
        Seq::empty()
    } else {
        let rest = flagged(es.drop_last(), flags);
        if flags[es.len() - 1] {
            rest.push(es.last())
        } else {
            rest
        }
    }
}

/// The entries of a map that satisfy a condition.
pub open spec fn restricted<K, V>(m: Map<K, V>, keep: spec_fn(K, V) -> bool) -> Map<K, V> {
    Map::new(|k: K| m.contains_key(k) && keep(k, m[k]), |k: K| m[k])
}

/// Keeping the entries whose flags tell of a condition restricts the map to it.
pub proof fn lemma_flagged_map<K: Ranked, V>(
    es: Seq<(K, V)>,
    flags: Seq<bool>,
    keep: spec_fn(K, V) -> bool,
)
    requires
        sorted(es),
        flags.len() >= es.len(),
        forall|i: int| 0 <= i < es.len() ==> #[trigger] flags[i] == keep(es[i].0, es[i].1),
    ensures
        as_map(flagged(es, flags)) == restricted(as_map(es), keep),
        sorted(flagged(es, flags)),
        forall|k: K| has_key(flagged(es, flags), k) ==> has_key(es, k),
    decreases es.len(),
{
    let kept = flagged(es, flags);
    if es.len() == 0 {
        assert(as_map(kept) =~= restricted(as_map(es), keep));
    } else {
        let front = es.drop_last();
        let (k, v) = es.last();
        lemma_has_key_split(es, k);
        assert forall|i: int| 0 <= i < front.len() implies #[trigger] flags[i] == keep(
            front[i].0,
            front[i].1,
        ) by {
            assert(front[i] == es[i]);
        }
        lemma_flagged_map(front, flags, keep);
        let rest = flagged(front, flags);
        assert(!has_key(rest, k));
        lemma_as_map_entry(es, es.len() - 1);
        assert forall|x: K| has_key(front, x) implies as_map(es)[x] == as_map(front)[x] by {
            let i = index_of_key(front, x);
            assert(es[i] == front[i]);
            lemma_as_map_entry(es, i);
            lemma_as_map_entry(front, i);
        }
        assert forall|x: K| has_key(es, x) <==> has_key(front, x) || x == k by {
            lemma_has_key_split(es, x);
        }
        if flags[es.len() - 1] {
            assert(kept =~= rest.push((k, v)));
            assert forall|i: int, j: int| 0 <= i < j < kept.len() implies (
            #[trigger] kept[i]).0.rank() < (#[trigger] kept[j]).0.rank() by {
                if j == rest.len() {
                    assert(has_key(rest, rest[i].0));
                    assert(has_key(front, rest[i].0));
                    let a = index_of_key(front, rest[i].0);
                    assert(es[a] == front[a]);
                    assert(es[a].0.rank() < es[es.len() - 1].0.rank());
                } else {
                    assert(kept[i] == rest[i] && kept[j] == rest[j]);
                }
            }
            assert(kept.drop_last() =~= rest);
            assert forall|x: K| has_key(kept, x) <==> has_key(rest, x) || x == k by {
                lemma_has_key_split(kept, x);
            }
            lemma_as_map_entry(kept, kept.len() - 1);
            assert forall|x: K| has_key(rest, x) implies as_map(kept)[x] == as_map(rest)[x] by {
                let i = index_of_key(rest, x);
                assert(kept[i] == rest[i]);
                lemma_as_map_entry(kept, i);
                lemma_as_map_entry(rest, i);
            }
        }
        assert forall|x: K| has_key(rest, x) <==> has_key(front, x) && keep(
            x,
            as_map(front)[x],
        ) by {
            assert(as_map(rest).contains_key(x) <==> restricted(as_map(front), keep).contains_key(
                x,
            ));
        }
        assert(as_map(kept) =~= restricted(as_map(es), keep));
    }
}

#[derive(Debug, PartialEq, Eq)]
pub struct SortedMap<K: Ranked, V> {
    entries: Vec<(K, V)>,
}

impl<K: Ranked, V> View for SortedMap<K, V> {
    type V = Map<K, V>;

    open spec fn view(&self) -> Map<K, V> {
        as_map(self.spec_entries())
    }
}

impl<K: Ranked, V> SortedMap<K, V> {
    /// The entries in the order of their keys.
    pub closed spec fn spec_entries(&self) -> Seq<(K, V)> {
        self.entries@
    }

    #[verifier::type_invariant]
    spec fn in_order(self) -> bool {
        sorted(self.entries@)
    }

    pub fn new() -> (r: Self)
        ensures
            r.spec_entries() == Seq::<(K, V)>::empty(),
            r@ == Map::<K, V>::empty(),
    {
        let r = SortedMap { entries: Vec::new() };
        assert(r@ =~= Map::<K, V>::empty());
        r
    }

    pub fn len(&self) -> (r: usize)
        ensures
            r == self.spec_entries().len(),
            sorted(self.spec_entries()),
            self.spec_entries() == listing(self@),
            self@.dom().finite(),
            self@.dom().len() == r,
    {
        proof {
            use_type_invariant(self);
            lemma_listing(self.entries@);
            lemma_as_map_finite(self.entries@);
        }
        self.entries.len()
    }

    pub fn is_empty(&self) -> (r: bool)
        ensures
            r == (self.spec_entries().len() == 0),
    {
        self.entries.len() == 0
    }

    pub fn key_at(&self, i: usize) -> (r: K)
        requires
            i < self.spec_entries().len(),
        ensures
            r == self.spec_entries()[i as int].0,
    {
        self.entries[i].0
    }

    pub fn value_at(&self, i: usize) -> (r: &V)
        requires
            i < self.spec_entries().len(),
        ensures
            *r == self.spec_entries()[i as int].1,
    {
        &self.entries[i].1
    }

    /// How many keys come before `k`.
    fn place(&self, k: &K) -> (r: usize)
        ensures
            r <= self.spec_entries().len(),
            sorted(self.spec_entries()),
            forall|i: int|
                0 <= i < r ==> (#[trigger] self.spec_entries()[i]).0.rank() < k.rank(),
            forall|i: int|
                r <= i < self.spec_entries().len() ==> k.rank() <= (
                #[trigger] self.spec_entries()[i]).0.rank(),
    {
        proof {
            use_type_invariant(self);
        }
        let mut low: usize = 0;
        let mut high: usize = self.entries.len();
        while low < high
            invariant
                low <= high <= self.entries@.len(),
                sorted(self.entries@),
                forall|i: int| 0 <= i < low ==> (#[trigger] self.entries@[i]).0.rank() < k.rank(),
                forall|i: int|
                    high <= i < self.entries@.len() ==> k.rank() <= (
                    #[trigger] self.entries@[i]).0.rank(),
            decreases high - low,
        {
            let mid: usize = low + (high - low) / 2;
            if self.entries[mid].0.precedes(k) {
                low = mid + 1;
            } else {
                high = mid;
            }
        }
        low
    }

    /// Where a key stands, if it is there.
    pub fn find(&self, k: &K) -> (r: Option<usize>)
        ensures
            match r {
                Some(i) => i < self.spec_entries().len() && self.spec_entries()[i as int].0 == *k
                    && self@.contains_key(*k) && self@[*k] == self.spec_entries()[i as int].1,
                None => !self@.contains_key(*k),
            },
            sorted(self.spec_entries()),
    {
        let i = self.place(k);
        if i < self.entries.len() && !k.precedes(&self.entries[i].0) {
            proof {
                K::rank_decides(*k, self.entries@[i as int].0);
                lemma_as_map_entry(self.entries@, i as int);
            }
            Some(i)
        } else {
            None
        }
    }

    pub fn get(&self, k: &K) -> (r: Option<&V>)
        ensures
            match r {
                Some(v) => self@.contains_key(*k) && self@[*k] == *v,
                None => !self@.contains_key(*k),
            },
    {
        match self.find(k) {
            Some(i) => Some(&self.entries[i].1),
            None => None,
        }
    }

    pub fn contains_key(&self, k: &K) -> (r: bool)
        ensures
            r == self@.contains_key(*k),
    {
        self.find(k).is_some()
    }

    /// Put a value under a key, in place of the one that was there.
    pub fn insert(&mut self, k: K, v: V)
        ensures
            final(self)@ == old(self)@.insert(k, v),
            sorted(final(self).spec_entries()),
    {
        proof {
            use_type_invariant(&*self);
        }
        let i = self.place(&k);
        let there = i < self.entries.len() && !k.precedes(&self.entries[i].0);
        let ghost before = self.entries@;
        let mut entries: Vec<(K, V)> = Vec::new();
        std::mem::swap(&mut entries, &mut self.entries);
        if there {
            proof {
                K::rank_decides(k, before[i as int].0);
            }
            entries.set(i, (k, v));
            assert(sorted(entries@));
        } else {
            entries.insert(i, (k, v));
            assert forall|a: int, b: int| 0 <= a < b < entries@.len() implies (
            #[trigger] entries@[a]).0.rank() < (#[trigger] entries@[b]).0.rank() by {
                let a0 = if a < i {
                    a
                } else {
                    a - 1
                };
                let b0 = if b < i {
                    b
                } else {
                    b - 1
                };
                if a != i {
                    assert(entries@[a] == before[a0]);
                }
                if b != i {
                    assert(entries@[b] == before[b0]);
                }
            }
        }
        let ghost after = entries@;
        assert(after[i as int] == (k, v));
        self.entries = entries;
        proof {
            assert forall|q: K| as_map(after).contains_key(q) <==> as_map(before).insert(
                k,
                v,
            ).contains_key(q) by {
                if has_key(after, q) {
                    let j = index_of_key(after, q);
                    if j < i {
                        assert(before[j] == after[j]);
                    } else if j > i {
                        if there {
                            assert(before[j] == after[j]);
                        } else {
                            assert(before[j - 1] == after[j]);
                        }
                    }
                }
                if q != k && has_key(before, q) {
                    let j = index_of_key(before, q);
                    if j < i || there {
                        assert(after[j] == before[j]);
                    } else {
                        assert(after[j + 1] == before[j]);
                    }
                    assert(has_key(after, q));
                }
            }
            assert forall|q: K| as_map(after).contains_key(q) implies as_map(after)[q] == as_map(
                before,
            ).insert(k, v)[q] by {
                let j = index_of_key(after, q);
                lemma_as_map_entry(after, j);
                if q == k {
                    lemma_as_map_entry(after, i as int);
                } else if j < i || there {
                    assert(before[j] == after[j]);
                    lemma_as_map_entry(before, j);
                } else {
                    assert(before[j - 1] == after[j]);
                    lemma_as_map_entry(before, j - 1);
                }
            }
            assert(as_map(after) =~= as_map(before).insert(k, v));
        }
    }

    pub fn clear(&mut self)
        ensures
            final(self).spec_entries() == Seq::<(K, V)>::empty(),
            final(self)@ == Map::<K, V>::empty(),
    {
        self.entries = Vec::new();
        assert(self@ =~= Map::<K, V>::empty());
    }

    /// Keep the entries that are flagged.
    pub fn keep_flagged(&mut self, flags: &Vec<bool>)
        requires
            flags@.len() == old(self).spec_entries().len(),
        ensures
            final(self).spec_entries() == flagged(old(self).spec_entries(), flags@),
            sorted(final(self).spec_entries()),
    {
        proof {
            use_type_invariant(&*self);
        }
        let ghost before = self.entries@;
        let mut entries: Vec<(K, V)> = Vec::new();
        std::mem::swap(&mut entries, &mut self.entries);
        let mut left: usize = entries.len();
        assert(before.take(left as int) =~= before);
        assert(before.take(left as int) + Seq::<(K, V)>::empty() =~= before);
        let ghost mut tail = Seq::<(K, V)>::empty();
        while left > 0
            invariant
                left <= before.len(),
                flags@.len() == before.len(),
                sorted(before),
                entries@ == before.take(left as int) + tail,
                flagged(before, flags@) == flagged(before.take(left as int), flags@) + tail,
                sorted(entries@),
            decreases left,
        {
            let i: usize = left - 1;
            let ghost front = before.take(left as int);
            assert(front.drop_last() =~= before.take(i as int));
            if flags[i] {
                proof {
                    let grown = seq![front.last()] + tail;
                    assert(before.take(i as int) + grown =~= entries@);
                    assert(flagged(before.take(i as int), flags@) + grown =~= flagged(
                        front,
                        flags@,
                    ) + tail);
                    tail = grown;
                }
            } else {
                let ghost whole = entries@;
                let _ = entries.remove(i);
                assert(entries@ =~= before.take(i as int) + tail);
                assert forall|a: int, b: int| 0 <= a < b < entries@.len() implies (
                #[trigger] entries@[a]).0.rank() < (#[trigger] entries@[b]).0.rank() by {
                    let a0 = if a < i {
                        a
                    } else {
                        a + 1
                    };
                    let b0 = if b < i {
                        b
                    } else {
                        b + 1
                    };
                    assert(entries@[a] == whole[a0]);
                    assert(entries@[b] == whole[b0]);
                }
            }
            left = i;
        }
        assert(before.take(0) =~= Seq::<(K, V)>::empty());
        assert(entries@ =~= flagged(before, flags@));
        self.entries = entries;
    }

    /// Keep the first `n` entries.
    pub fn truncate(&mut self, n: usize)
        ensures
            final(self).spec_entries() == (if n < old(self).spec_entries().len() {
                old(self).spec_entries().take(n as int)
            } else {
                old(self).spec_entries()
            }),
    {
        proof {
            use_type_invariant(&*self);
        }
        let mut entries: Vec<(K, V)> = Vec::new();
        std::mem::swap(&mut entries, &mut self.entries);
        if n < entries.len() {
            entries.truncate(n);
        }
        self.entries = entries;
    }

    /// The values in the order of their keys.
    pub fn values(&self) -> (r: Vec<&V>)
        ensures
            r@.len() == self.spec_entries().len(),
            forall|i: int| 0 <= i < r@.len() ==> *(#[trigger] r@[i]) == self.spec_entries()[i].1,
    {
        let mut out: Vec<&V> = Vec::new();
        let mut i: usize = 0;
        while i < self.entries.len()
            invariant
                i <= self.entries@.len(),
                out@.len() == i,
                forall|j: int| 0 <= j < i ==> *(#[trigger] out@[j]) == self.entries@[j].1,
            decreases self.entries.len() - i,
        {
            out.push(&self.entries[i].1);
            i = i + 1;
        }
        out
    }

    /// The keys in order.
    pub fn keys(&self) -> (r: Vec<K>)
        ensures
            r@.len() == self.spec_entries().len(),
            forall|i: int| 0 <= i < r@.len() ==> (#[trigger] r@[i]) == self.spec_entries()[i].0,
    {
        let mut out: Vec<K> = Vec::new();
        let mut i: usize = 0;
        while i < self.entries.len()
            invariant
                i <= self.entries@.len(),
                out@.len() == i,
                forall|j: int| 0 <= j < i ==> (#[trigger] out@[j]) == self.entries@[j].0,
            decreases self.entries.len() - i,
        {
            out.push(self.entries[i].0);
            i = i + 1;
        }
        out
    }
}

impl<K: Ranked, V: Clone> Clone for SortedMap<K, V> {
    fn clone(&self) -> (r: Self)
        ensures
            r.spec_entries().len() == self.spec_entries().len(),
            forall|i: int|
                0 <= i < self.spec_entries().len() ==> (#[trigger] r.spec_entries()[i]).0
                    == self.spec_entries()[i].0 && cloned(
                    self.spec_entries()[i].1,
                    r.spec_entries()[i].1,
                ),
    {
        proof {
            use_type_invariant(self);
        }
        let mut out: Vec<(K, V)> = Vec::new();
        let mut i: usize = 0;
        while i < self.entries.len()
            invariant
                i <= self.entries@.len(),
                sorted(self.entries@),
                out@.len() == i,
                forall|j: int|
                    0 <= j < i ==> (#[trigger] out@[j]).0 == self.entries@[j].0 && cloned(
                        self.entries@[j].1,
                        out@[j].1,
                    ),
            decreases self.entries.len() - i,
        {
            let v = self.entries[i].1.clone();
            out.push((self.entries[i].0, v));
            i = i + 1;
        }
        assert forall|a: int, b: int| 0 <= a < b < out@.len() implies (#[trigger] out@[a]).0.rank()
            < (#[trigger] out@[b]).0.rank() by {
            assert(self.entries@[a].0.rank() < self.entries@[b].0.rank());
        }
        SortedMap { entries: out }
    }
}

impl<K: Ranked, V> Default for SortedMap<K, V> {
    fn default() -> (r: Self)
        ensures
            r.spec_entries() == Seq::<(K, V)>::empty(),
            r@ == Map::<K, V>::empty(),
    {
        SortedMap::new()
    }
}

} // verus!
