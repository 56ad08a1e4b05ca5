//! How two peers find out what the other is missing.
//!
//! A peer tells, for every key, a short mark of the record it holds. The other
//! sends back the records whose marks it was not told.

use crate::sorted_map::{
    lemma_listed, lemma_listing_views, listing, sorted, views, Ranked, SortedMap,
};
use vstd::prelude::*;

verus! {

/// A record that peers exchange.
pub trait Record: View + Sized {
    /// What a summary tells of a record, by what the record holds.
    spec fn mark_of(v: Self::V) -> u64;

    fn read_mark(&self) -> (r: u64)
        ensures
            r == Self::mark_of(self@),
    ;

    /// The same record once more.
    fn duplicate(&self) -> (r: Self)
        ensures
            r@ == self@,
    ;
}

/// The marks of a list of records.
pub open spec fn marks_of<K, V: Record>(es: Seq<(K, V::V)>) -> Seq<(K, u64)> {
    Seq::new(es.len(), |i: int| (es[i].0, V::mark_of(es[i].1)))
}

/// The last mark that was told for a key.
pub open spec fn told<K>(marks: Seq<(K, u64)>, k: K) -> Option<u64>
    decreases marks.len(),
{
    if marks.len() == 0 {
        None
    } else if marks.last().0 == k {
        Some(marks.last().1)
    } else {
        told(marks.drop_last(), k)
    }
}

/// The records whose marks were not told, in order.
pub open spec fn missing<K, V: Record>(es: Seq<(K, V::V)>, marks: Seq<(K, u64)>) -> Seq<V::V>
    decreases es.len(),
{
    if es.len() == 0 {
        Seq::empty()
    } else {
        let rest = missing::<K, V>(es.drop_last(), marks);
        let (k, v) = es.last();
        if told(marks, k) == Some(V::mark_of(v)) {
            rest
        } else {
            rest.push(v)
        }
    }
}

/// What a list of records holds.
pub open spec fn held<V: View>(v: Seq<V>) -> Seq<V::V> {
    Seq::new(v.len(), |i: int| v[i]@)
}

/// Whether two keys are one.
pub fn same_key<K: Ranked>(a: &K, b: &K) -> (r: bool)
    ensures
        r == (*a == *b),
{
    if a.precedes(b) || b.precedes(a) {
        return false;
    }
    proof {
        K::rank_decides(*a, *b);
    }
    true
}

/// The marks of a map's records.
pub fn summarize_map<K: Ranked, V: Record>(m: &SortedMap<K, V>) -> (r: Vec<(K, u64)>)
    ensures
        r@ == marks_of::<K, V>(listing(views(m@))),
{
    let n = m.len();
    let ghost want = marks_of::<K, V>(listing(views(m@)));
    proof {
        lemma_listing_views(m@);
    }
    let mut out: Vec<(K, u64)> = Vec::new();
    let mut i: usize = 0;
    while i < n
        invariant
            i <= n,
            n == m.spec_entries().len(),
            m.spec_entries() == listing(m@),
            want == marks_of::<K, V>(listing(views(m@))),
            want.len() == n,
            forall|j: int|
                0 <= j < n ==> #[trigger] listing(views(m@))[j] == (
                    listing(m@)[j].0,
                    listing(m@)[j].1@,
                ),
            out@ == want.take(i as int),
        decreases n - i,
    {
        assert(listing(views(m@))[i as int].0 == listing(m@)[i as int].0);
        out.push((m.key_at(i), m.value_at(i).read_mark()));
        assert(out@ =~= want.take(i + 1));
        i = i + 1;
    }
    assert(out@ =~= want);
    out
}

/// Whether a key was told with a mark, and not with a later one.
fn was_told<K: Ranked>(marks: &Vec<(K, u64)>, k: &K, mark: u64) -> (r: bool)
    ensures
        r == (told(marks@, *k) == Some(mark)),
{
    let mut n: usize = marks.len();
    assert(marks@.take(n as int) =~= marks@);
    while n > 0
        invariant
            n <= marks@.len(),
            told(marks@, *k) == told(marks@.take(n as int), *k),
        decreases n,
    {
        let ghost front = marks@.take(n as int);
        assert(front.drop_last() =~= marks@.take(n - 1));
        if same_key(&marks[n - 1].0, k) {
            return marks[n - 1].1 == mark;
        }
        n = n - 1;
    }
    false
}

/// The records of a map whose marks were not told.
pub fn missing_from<K: Ranked, V: Record>(m: &SortedMap<K, V>, marks: &Vec<(K, u64)>) -> (r: Vec<V>)
    ensures
        held(r@) == missing::<K, V>(listing(views(m@)), marks@),
{
    let n = m.len();
    let mut out: Vec<V> = Vec::new();
    let mut i: usize = 0;
    let ghost es = listing(views(m@));
    proof {
        lemma_listing_views(m@);
    }
    assert(held(out@) =~= missing::<K, V>(es.take(0), marks@));
    while i < n
        invariant
            i <= n,
            n == m.spec_entries().len(),
            m.spec_entries() == listing(m@),
            es.len() == n,
            forall|j: int|
                0 <= j < n ==> #[trigger] es[j] == (listing(m@)[j].0, listing(m@)[j].1@),
            held(out@) == missing::<K, V>(es.take(i as int), marks@),
        decreases n - i,
    {
        assert(es.take(i + 1).drop_last() =~= es.take(i as int));
        assert(es.take(i + 1).last() == es[i as int]);
        let v = m.value_at(i);
        if !was_told(marks, &m.key_at(i), v.read_mark()) {
            let copy = v.duplicate();
            let ghost before = held(out@);
            out.push(copy);
            assert(held(out@) =~= before.push(v@));
        }
        i = i + 1;
    }
    assert(es.take(n as int) =~= es);
    out
}

pub proof fn lemma_told_own_mark<K: Ranked, V: Record>(es: Seq<(K, V::V)>, i: int)
    requires
        sorted(es),
        0 <= i < es.len(),
    ensures
        told(marks_of::<K, V>(es), es[i].0) == Some(V::mark_of(es[i].1)),
    decreases es.len(),
{
    let marks = marks_of::<K, V>(es);
    let front = es.drop_last();
    assert(marks.drop_last() =~= marks_of::<K, V>(front));
    if i < front.len() {
        assert(es[i].0.rank() < es[es.len() - 1].0.rank());
        lemma_told_own_mark::<K, V>(front, i);
        assert(front[i] == es[i]);
    }
}

proof fn lemma_missing_when_all_told<K, V: Record>(es: Seq<(K, V::V)>, marks: Seq<(K, u64)>)
    requires
        forall|i: int|
            0 <= i < es.len() ==> told(marks, (#[trigger] es[i]).0) == Some(V::mark_of(es[i].1)),
    ensures
        missing::<K, V>(es, marks) == Seq::<V::V>::empty(),
    decreases es.len(),
{
    if es.len() > 0 {
        let front = es.drop_last();
        assert forall|i: int| 0 <= i < front.len() implies told(marks, (#[trigger] front[i]).0)
            == Some(V::mark_of(front[i].1)) by {
            assert(front[i] == es[i]);
        }
        lemma_missing_when_all_told::<K, V>(front, marks);
        assert(es[es.len() - 1] == es.last());
    }
}

/// Peers that hold the same records have nothing to send.
pub proof fn law_equal_peers_exchange_nothing<K: Ranked, V: Record>(m: Map<K, V::V>)
    requires
        m.dom().finite(),
    ensures
        missing::<K, V>(listing(m), marks_of::<K, V>(listing(m))) == Seq::<V::V>::empty(),
{
    lemma_listed(m);
    let es = listing(m);
    let marks = marks_of::<K, V>(es);
    assert forall|i: int| 0 <= i < es.len() implies told(marks, (#[trigger] es[i]).0) == Some(
        V::mark_of(es[i].1),
    ) by {
        lemma_told_own_mark::<K, V>(es, i);
    }
    lemma_missing_when_all_told::<K, V>(es, marks);
}

/// A record whose mark was not told is sent.
pub proof fn law_untold_records_are_sent<K: Ranked, V: Record>(
    es: Seq<(K, V::V)>,
    marks: Seq<(K, u64)>,
    i: int,
)
    requires
        0 <= i < es.len(),
        told(marks, es[i].0) != Some(V::mark_of(es[i].1)),
    ensures
        missing::<K, V>(es, marks).contains(es[i].1),
    decreases es.len(),
{
    let front = es.drop_last();
    let sent = missing::<K, V>(es, marks);
    if i == es.len() - 1 {
        assert(sent.last() == es[i].1);
    } else {
        law_untold_records_are_sent::<K, V>(front, marks, i);
        assert(front[i] == es[i]);
        let before = missing::<K, V>(front, marks);
        let j = choose|j: int| 0 <= j < before.len() && before[j] == es[i].1;
        assert(sent[j] == es[i].1);
    }
}

} // verus!
