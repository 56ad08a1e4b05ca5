//! Why copies of a game agree on its claims: a list of claims in order stands
//! for a map from slots to claims, and such maps join.

use super::conclusion::{
    absorb_claim, claim_fault, claims_after, earlier, in_order, inserted, joined, other_slot,
    sig_told, sigs_of, slot_index, slot_of, untold_claims, SignedConclusion,
};
use crate::crypto::VerifyingKey;
use crate::identity::{id_of, GameId, PlayerId};
use crate::join::{
    apart, join, law_joining_commutes, law_updates_come_in_once, law_updates_commute, lists_apart,
    orders, put, taken,
};
use crate::prefix::lemma_leading;
use vstd::prelude::*;

verus! {

/// Whether claims stand in order, one for each slot.
pub open spec fn well_ordered(claims: Seq<SignedConclusion>) -> bool {
    forall|i: int, j: int|
        0 <= i < j < claims.len() ==> earlier(#[trigger] claims[i], #[trigger] claims[j])
            && slot_of(claims[i]) != slot_of(claims[j])
}

/// Whether it is settled which of two claims comes first, unless they are one.
pub open spec fn claims_apart(a: SignedConclusion, b: SignedConclusion) -> bool {
    a == b || earlier(a, b) || earlier(b, a)
}

/// Whether it is settled of any two claims of two lists.
pub open spec fn all_claims_apart(xs: Seq<SignedConclusion>, ys: Seq<SignedConclusion>) -> bool {
    forall|i: int, j: int|
        0 <= i < xs.len() && 0 <= j < ys.len() ==> claims_apart(
            #[trigger] xs[i],
            #[trigger] ys[j],
        )
}

pub open spec fn in_slot(claims: Seq<SignedConclusion>, s: (PlayerId, u8), i: int) -> bool {
    0 <= i < claims.len() && slot_of(claims[i]) == s
}

/// The claims, each under its slot.
pub open spec fn by_slot(claims: Seq<SignedConclusion>) -> Map<(PlayerId, u8), SignedConclusion> {
    Map::new(
        |s: (PlayerId, u8)| exists|i: int| in_slot(claims, s, i),
        |s: (PlayerId, u8)| claims[choose|i: int| in_slot(claims, s, i)],
    )
}

pub open spec fn claim_key() -> spec_fn(SignedConclusion) -> (PlayerId, u8) {
    |c: SignedConclusion| slot_of(c)
}

pub open spec fn claim_over() -> spec_fn(SignedConclusion, SignedConclusion) -> bool {
    |a: SignedConclusion, b: SignedConclusion| earlier(a, b)
}

/// A claim that stands in order is the one under its slot.
proof fn lemma_slot_holds(claims: Seq<SignedConclusion>, i: int)
    requires
        well_ordered(claims),
        0 <= i < claims.len(),
    ensures
        by_slot(claims).contains_key(slot_of(claims[i])),
        by_slot(claims)[slot_of(claims[i])] == claims[i],
{
    let s = slot_of(claims[i]);
    assert(in_slot(claims, s, i));
    let j = choose|j: int| in_slot(claims, s, j);
    if j < i {
        assert(slot_of(claims[j]) != slot_of(claims[i]));
    }
    if i < j {
        assert(slot_of(claims[i]) != slot_of(claims[j]));
    }
}

proof fn lemma_slots_hold(claims: Seq<SignedConclusion>, c: SignedConclusion)
    requires
        well_ordered(claims),
    ensures
        claims.contains(c) <==> by_slot(claims).contains_key(slot_of(c)) && by_slot(
            claims,
        )[slot_of(c)] == c,
{
    if claims.contains(c) {
        let i = choose|i: int| 0 <= i < claims.len() && claims[i] == c;
        lemma_slot_holds(claims, i);
    }
    if by_slot(claims).contains_key(slot_of(c)) {
        let i = choose|i: int| in_slot(claims, slot_of(c), i);
        assert(claims[i] == by_slot(claims)[slot_of(c)]);
    }
}

/// Claims in order are told by what they hold.
proof fn lemma_same_claims(a: Seq<SignedConclusion>, b: Seq<SignedConclusion>)
    requires
        well_ordered(a),
        well_ordered(b),
        forall|c: SignedConclusion| a.contains(c) <==> b.contains(c),
    ensures
        a == b,
    decreases a.len(),
{
    if a.len() == 0 {
        if b.len() > 0 {
            assert(b.contains(b[0]));
        }
        assert(a =~= b);
    } else {
        let x = a.last();
        assert(a[a.len() - 1] == x);
        assert(a.contains(x));
        let i = choose|i: int| 0 <= i < b.len() && b[i] == x;
        let y = b.last();
        assert(b[b.len() - 1] == y);
        assert(b.contains(y));
        let j = choose|j: int| 0 <= j < a.len() && a[j] == y;
        if i < b.len() - 1 {
            assert(earlier(b[i], b[b.len() - 1]));
            if j < a.len() - 1 {
                assert(earlier(a[j], a[a.len() - 1]));
            }
        }
        assert(x == y);
        let (fa, fb) = (a.drop_last(), b.drop_last());
        assert forall|c: SignedConclusion| fa.contains(c) <==> fb.contains(c) by {
            if fa.contains(c) {
                let k = choose|k: int| 0 <= k < fa.len() && fa[k] == c;
                assert(a[k] == c);
                assert(a.contains(c));
                let l = choose|l: int| 0 <= l < b.len() && b[l] == c;
                assert(earlier(a[k], a[a.len() - 1]));
                assert(fb[l] == c);
            }
            if fb.contains(c) {
                let k = choose|k: int| 0 <= k < fb.len() && fb[k] == c;
                assert(b[k] == c);
                assert(b.contains(c));
                let l = choose|l: int| 0 <= l < a.len() && a[l] == c;
                assert(earlier(b[k], b[b.len() - 1]));
                assert(fa[l] == c);
            }
        }
        assert forall|p: int, q: int| 0 <= p < q < fa.len() implies earlier(
            #[trigger] fa[p],
            #[trigger] fa[q],
        ) && slot_of(fa[p]) != slot_of(fa[q]) by {
            assert(fa[p] == a[p] && fa[q] == a[q]);
        }
        assert forall|p: int, q: int| 0 <= p < q < fb.len() implies earlier(
            #[trigger] fb[p],
            #[trigger] fb[q],
        ) && slot_of(fb[p]) != slot_of(fb[q]) by {
            assert(fb[p] == b[p] && fb[q] == b[q]);
        }
        lemma_same_claims(fa, fb);
        assert(a =~= fa.push(x));
        assert(b =~= fb.push(y));
    }
}

/// Lists in order that hold the same under each slot are the same.
pub proof fn lemma_slots_tell(a: Seq<SignedConclusion>, b: Seq<SignedConclusion>)
    requires
        well_ordered(a),
        well_ordered(b),
        by_slot(a) == by_slot(b),
    ensures
        a == b,
{
    assert forall|c: SignedConclusion| a.contains(c) <==> b.contains(c) by {
        lemma_slots_hold(a, c);
        lemma_slots_hold(b, c);
    }
    lemma_same_claims(a, b);
}

proof fn lemma_inserted(s: Seq<SignedConclusion>, c: SignedConclusion)
    requires
        well_ordered(s),
        forall|i: int|
            0 <= i < s.len() ==> slot_of(#[trigger] s[i]) != slot_of(c) && (earlier(s[i], c)
                || earlier(c, s[i])),
    ensures
        well_ordered(inserted(s, c)),
        forall|x: SignedConclusion|
            #[trigger] inserted(s, c).contains(x) <==> s.contains(x) || x == c,
    decreases s.len(),
{
    let r = inserted(s, c);
    if s.len() == 0 || !earlier(c, s.last()) {
        assert forall|i: int, j: int| 0 <= i < j < r.len() implies earlier(
            #[trigger] r[i],
            #[trigger] r[j],
        ) && slot_of(r[i]) != slot_of(r[j]) by {
            if j == s.len() {
                assert(slot_of(s[i]) != slot_of(c));
                assert(s[s.len() - 1] == s.last());
                assert(earlier(s[s.len() - 1], c) || earlier(c, s[s.len() - 1]));
                if i < s.len() - 1 {
                    assert(earlier(s[i], s[s.len() - 1]));
                }
            } else {
                assert(r[i] == s[i] && r[j] == s[j]);
            }
        }
        assert forall|x: SignedConclusion| #[trigger] r.contains(x) <==> s.contains(x) || x == c by {
            if s.contains(x) {
                let i = choose|i: int| 0 <= i < s.len() && s[i] == x;
                assert(r[i] == x);
            }
            assert(r[s.len() as int] == c);
            if r.contains(x) {
                let i = choose|i: int| 0 <= i < r.len() && r[i] == x;
                if i < s.len() {
                    assert(s[i] == x);
                }
            }
        }
    } else {
        let front = s.drop_last();
        let last = s.last();
        assert(s[s.len() - 1] == last);
        assert forall|i: int, j: int| 0 <= i < j < front.len() implies earlier(
            #[trigger] front[i],
            #[trigger] front[j],
        ) && slot_of(front[i]) != slot_of(front[j]) by {
            assert(front[i] == s[i] && front[j] == s[j]);
        }
        assert forall|i: int| 0 <= i < front.len() implies slot_of(#[trigger] front[i]) != slot_of(
            c,
        ) && (earlier(front[i], c) || earlier(c, front[i])) by {
            assert(front[i] == s[i]);
        }
        lemma_inserted(front, c);
        let q = inserted(front, c);
        assert forall|i: int, j: int| 0 <= i < j < r.len() implies earlier(
            #[trigger] r[i],
            #[trigger] r[j],
        ) && slot_of(r[i]) != slot_of(r[j]) by {
            if j == q.len() {
                let x = q[i];
                assert(q.contains(x));
                if x != c {
                    let k = choose|k: int| 0 <= k < front.len() && front[k] == x;
                    assert(s[k] == x);
                    assert(earlier(s[k], s[s.len() - 1]));
                }
            } else {
                assert(r[i] == q[i] && r[j] == q[j]);
            }
        }
        assert forall|x: SignedConclusion| #[trigger] r.contains(x) <==> s.contains(x) || x == c by {
            if s.contains(x) {
                let i = choose|i: int| 0 <= i < s.len() && s[i] == x;
                if i < front.len() {
                    assert(front[i] == x);
                    assert(front.contains(x));
                }
            }
            if front.contains(x) || x == c {
                assert(q.contains(x));
                let i = choose|i: int| 0 <= i < q.len() && q[i] == x;
                assert(r[i] == x);
            }
            assert(r[q.len() as int] == last);
            if r.contains(x) {
                let i = choose|i: int| 0 <= i < r.len() && r[i] == x;
                if i < q.len() {
                    assert(q[i] == x);
                    assert(q.contains(x));
                    if x != c {
                        let k = choose|k: int| 0 <= k < front.len() && front[k] == x;
                        assert(s[k] == x);
                    }
                }
            }
        }
    }
}

proof fn lemma_put_in_order(y: Seq<SignedConclusion>)
    requires
        forall|i: int, j: int|
            0 <= i < j < y.len() ==> slot_of(#[trigger] y[i]) != slot_of(#[trigger] y[j]) && (
            earlier(y[i], y[j]) || earlier(y[j], y[i])),
    ensures
        well_ordered(in_order(y)),
        forall|x: SignedConclusion| #[trigger] in_order(y).contains(x) <==> y.contains(x),
    decreases y.len(),
{
    if y.len() > 0 {
        let front = y.drop_last();
        let c = y.last();
        assert(y[y.len() - 1] == c);
        assert forall|i: int, j: int| 0 <= i < j < front.len() implies slot_of(#[trigger] front[i])
            != slot_of(#[trigger] front[j]) && (earlier(front[i], front[j]) || earlier(
            front[j],
            front[i],
        )) by {
            assert(front[i] == y[i] && front[j] == y[j]);
        }
        lemma_put_in_order(front);
        let s = in_order(front);
        assert forall|i: int| 0 <= i < s.len() implies slot_of(#[trigger] s[i]) != slot_of(c) && (
        earlier(s[i], c) || earlier(c, s[i])) by {
            assert(s.contains(s[i]));
            let k = choose|k: int| 0 <= k < front.len() && front[k] == s[i];
            assert(y[k] == s[i]);
            assert(slot_of(y[k]) != slot_of(y[y.len() - 1]));
        }
        lemma_inserted(s, c);
        assert forall|x: SignedConclusion| #[trigger] in_order(y).contains(x) <==> y.contains(
            x,
        ) by {
            if y.contains(x) {
                let i = choose|i: int| 0 <= i < y.len() && y[i] == x;
                if i < front.len() {
                    assert(front[i] == x);
                    assert(front.contains(x));
                    assert(s.contains(x));
                }
            }
            if s.contains(x) {
                assert(front.contains(x));
                let i = choose|i: int| 0 <= i < front.len() && front[i] == x;
                assert(y[i] == x);
            }
        }
    }
}

/// A claim comes into a list as it comes into the map that the list stands for.
pub proof fn lemma_claim_comes_in(claims: Seq<SignedConclusion>, c: SignedConclusion)
    requires
        well_ordered(claims),
        forall|i: int| 0 <= i < claims.len() ==> claims_apart(#[trigger] claims[i], c),
    ensures
        well_ordered(absorb_claim(claims, c)),
        by_slot(absorb_claim(claims, c)) == put(by_slot(claims), c, claim_key(), claim_over()),
        forall|x: SignedConclusion|
            #[trigger] absorb_claim(claims, c).contains(x) ==> claims.contains(x) || x == c,
{
    let i = slot_index(claims, c);
    let y = joined(claims, c);
    lemma_leading(other_slot(claims, c), claims.len());
    assert forall|p: int, q: int| 0 <= p < q < y.len() implies slot_of(#[trigger] y[p]) != slot_of(
        #[trigger] y[q],
    ) && (earlier(y[p], y[q]) || earlier(y[q], y[p])) by {
        if i == claims.len() {
            if q == claims.len() {
                assert(other_slot(claims, c)(p));
                assert(claims_apart(claims[p], c));
            } else {
                assert(earlier(claims[p], claims[q]));
            }
        } else {
            assert(slot_of(claims[i as int]) == slot_of(c));
            assert(earlier(claims[p], claims[q]) && slot_of(claims[p]) != slot_of(claims[q]));
            assert(claims_apart(claims[p], c) && claims_apart(claims[q], c));
        }
    }
    lemma_put_in_order(y);
    let r = in_order(y);
    let m = by_slot(claims);
    let want = put(m, c, claim_key(), claim_over());
    assert forall|s: (PlayerId, u8)| by_slot(r).contains_key(s) <==> want.contains_key(s) by {
        if by_slot(r).contains_key(s) {
            let k = choose|k: int| in_slot(r, s, k);
            assert(r.contains(r[k]));
            let l = choose|l: int| 0 <= l < y.len() && y[l] == r[k];
            if y[l] != c {
                assert(claims[l] == y[l]);
                assert(in_slot(claims, s, l));
            }
        }
        if m.contains_key(s) {
            let k = choose|k: int| in_slot(claims, s, k);
            assert(y.contains(y[k]));
            assert(r.contains(y[k]));
            let l = choose|l: int| 0 <= l < r.len() && r[l] == y[k];
            assert(in_slot(r, s, l));
        }
        if s == slot_of(c) && i == claims.len() {
            assert(y[claims.len() as int] == c);
            assert(y.contains(c));
            assert(r.contains(c));
            let l = choose|l: int| 0 <= l < r.len() && r[l] == c;
            assert(in_slot(r, s, l));
        }
        if want.contains_key(s) && s == slot_of(c) && i < claims.len() {
            assert(in_slot(claims, s, i as int));
        }
    }
    if i < claims.len() {
        lemma_slot_holds(claims, i as int);
    } else if m.contains_key(slot_of(c)) {
        let k = choose|k: int| in_slot(claims, slot_of(c), k);
        assert(other_slot(claims, c)(k));
    }
    assert forall|s: (PlayerId, u8)| by_slot(r).contains_key(s) implies by_slot(r)[s]
        == want[s] by {
        let k = choose|k: int| in_slot(r, s, k);
        lemma_slot_holds(r, k);
        assert(r.contains(r[k]));
        let l = choose|l: int| 0 <= l < y.len() && y[l] == r[k];
        if l < claims.len() && y[l] == claims[l] {
            lemma_slot_holds(claims, l);
            if s == slot_of(c) {
                if i == claims.len() {
                    assert(other_slot(claims, c)(l));
                }
            }
        } else {
            assert(y[l] == c);
        }
    }
    assert(by_slot(r) =~= want);
    assert forall|x: SignedConclusion| #[trigger] r.contains(x) implies claims.contains(x) || x
        == c by {
        let l = choose|l: int| 0 <= l < y.len() && y[l] == x;
        if x != c {
            assert(claims[l] == x);
        }
    }
}

/// Whether nothing is wrong with any of a list of claims.
pub open spec fn claims_sound(
    cs: Seq<SignedConclusion>,
    keys: Option<(VerifyingKey, VerifyingKey)>,
    game_id: GameId,
) -> bool {
    forall|i: int| 0 <= i < cs.len() ==> claim_fault(#[trigger] cs[i], keys, game_id) is None
}

/// Claims with which nothing is wrong all come in, as they do into the map that
/// the list stands for.
pub proof fn lemma_sound_claims_come_in(
    claims: Seq<SignedConclusion>,
    cs: Seq<SignedConclusion>,
    keys: Option<(VerifyingKey, VerifyingKey)>,
    game_id: GameId,
)
    requires
        well_ordered(claims),
        claims_sound(cs, keys, game_id),
        all_claims_apart(claims, cs),
        all_claims_apart(cs, cs),
    ensures
        claims_after(claims, cs, keys, game_id).1 is None,
        well_ordered(claims_after(claims, cs, keys, game_id).0),
        by_slot(claims_after(claims, cs, keys, game_id).0) == taken(
            by_slot(claims),
            cs,
            claim_key(),
            claim_over(),
        ),
        forall|x: SignedConclusion|
            #[trigger] claims_after(claims, cs, keys, game_id).0.contains(x) ==> claims.contains(
                x,
            ) || cs.contains(x),
    decreases cs.len(),
{
    if cs.len() > 0 {
        let front = cs.drop_last();
        let c = cs.last();
        assert(cs[cs.len() - 1] == c);
        assert forall|i: int| 0 <= i < front.len() implies claim_fault(
            #[trigger] front[i],
            keys,
            game_id,
        ) is None by {
            assert(front[i] == cs[i]);
        }
        assert forall|i: int, j: int|
            0 <= i < claims.len() && 0 <= j < front.len() implies claims_apart(
            #[trigger] claims[i],
            #[trigger] front[j],
        ) by {
            assert(front[j] == cs[j]);
        }
        assert forall|i: int, j: int|
            0 <= i < front.len() && 0 <= j < front.len() implies claims_apart(
            #[trigger] front[i],
            #[trigger] front[j],
        ) by {
            assert(front[i] == cs[i] && front[j] == cs[j]);
        }
        lemma_sound_claims_come_in(claims, front, keys, game_id);
        let before = claims_after(claims, front, keys, game_id).0;
        assert forall|i: int| 0 <= i < before.len() implies claims_apart(
            #[trigger] before[i],
            c,
        ) by {
            assert(before.contains(before[i]));
            if claims.contains(before[i]) {
                let k = choose|k: int| 0 <= k < claims.len() && claims[k] == before[i];
                assert(claims_apart(claims[k], cs[cs.len() - 1]));
            } else {
                let k = choose|k: int| 0 <= k < front.len() && front[k] == before[i];
                assert(claims_apart(cs[k], cs[cs.len() - 1]));
            }
        }
        lemma_claim_comes_in(before, c);
        assert(claim_fault(cs[cs.len() - 1], keys, game_id) is None);
        let all = claims_after(claims, cs, keys, game_id).0;
        assert forall|x: SignedConclusion| #[trigger] all.contains(x) implies claims.contains(x)
            || cs.contains(x) by {
            if x != c {
                assert(before.contains(x));
                if front.contains(x) {
                    let k = choose|k: int| 0 <= k < front.len() && front[k] == x;
                    assert(cs[k] == x);
                }
            }
        }
    }
}

/// Claims are ordered by which comes first.
pub proof fn lemma_claims_ordered()
    ensures
        orders(claim_over()),
{
}

/// Two lists of claims come in alike in either order, and a list that came in
/// already changes nothing. Where two claims share time and signature they must
/// be one.
pub proof fn law_claims_in_any_order(
    claims: Seq<SignedConclusion>,
    xs: Seq<SignedConclusion>,
    ys: Seq<SignedConclusion>,
    keys: Option<(VerifyingKey, VerifyingKey)>,
    game_id: GameId,
)
    requires
        well_ordered(claims),
        claims_sound(xs, keys, game_id),
        claims_sound(ys, keys, game_id),
        all_claims_apart(claims, xs),
        all_claims_apart(claims, ys),
        all_claims_apart(xs, xs),
        all_claims_apart(xs, ys),
        all_claims_apart(ys, ys),
    ensures
        ({
            let x = claims_after(claims, xs, keys, game_id).0;
            let y = claims_after(claims, ys, keys, game_id).0;
            &&& claims_after(x, ys, keys, game_id) == claims_after(y, xs, keys, game_id)
            &&& claims_after(x, xs, keys, game_id) == (x, None::<Seq<char>>)
            &&& claims_after(x, ys, keys, game_id).1 is None
            &&& well_ordered(claims_after(x, ys, keys, game_id).0)
        }),
{
    let x = claims_after(claims, xs, keys, game_id).0;
    let y = claims_after(claims, ys, keys, game_id).0;
    lemma_sound_claims_come_in(claims, xs, keys, game_id);
    lemma_sound_claims_come_in(claims, ys, keys, game_id);
    lemma_apart_after(claims, xs, ys, keys, game_id);
    lemma_apart_after(claims, xs, xs, keys, game_id);
    lemma_apart_turned(xs, ys);
    lemma_apart_after(claims, ys, xs, keys, game_id);
    lemma_sound_claims_come_in(x, ys, keys, game_id);
    lemma_sound_claims_come_in(y, xs, keys, game_id);
    lemma_sound_claims_come_in(x, xs, keys, game_id);
    lemma_claims_ordered();
    assert(lists_apart(xs, ys, claim_key(), claim_over())) by {
        assert forall|i: int, j: int|
            0 <= i < xs.len() && 0 <= j < ys.len() && claim_key()(#[trigger] xs[i]) == claim_key()(
                #[trigger] ys[j],
            ) implies apart(claim_over(), xs[i], ys[j]) by {
            assert(claims_apart(xs[i], ys[j]));
        }
    }
    law_updates_commute(by_slot(claims), xs, ys, claim_key(), claim_over());
    law_updates_come_in_once(by_slot(claims), xs, claim_key(), claim_over());
    lemma_slots_tell(
        claims_after(x, ys, keys, game_id).0,
        claims_after(y, xs, keys, game_id).0,
    );
    lemma_slots_tell(claims_after(x, xs, keys, game_id).0, x);
}

pub proof fn lemma_apart_turned(xs: Seq<SignedConclusion>, ys: Seq<SignedConclusion>)
    requires
        all_claims_apart(xs, ys),
    ensures
        all_claims_apart(ys, xs),
{
    assert forall|i: int, j: int| 0 <= i < ys.len() && 0 <= j < xs.len() implies claims_apart(
        #[trigger] ys[i],
        #[trigger] xs[j],
    ) by {
        assert(claims_apart(xs[j], ys[i]));
    }
}

pub proof fn lemma_apart_after(
    claims: Seq<SignedConclusion>,
    xs: Seq<SignedConclusion>,
    ys: Seq<SignedConclusion>,
    keys: Option<(VerifyingKey, VerifyingKey)>,
    game_id: GameId,
)
    requires
        well_ordered(claims),
        claims_sound(xs, keys, game_id),
        all_claims_apart(claims, xs),
        all_claims_apart(xs, xs),
        all_claims_apart(claims, ys),
        all_claims_apart(xs, ys),
    ensures
        all_claims_apart(claims_after(claims, xs, keys, game_id).0, ys),
{
    lemma_sound_claims_come_in(claims, xs, keys, game_id);
    let x = claims_after(claims, xs, keys, game_id).0;
    assert forall|i: int, j: int| 0 <= i < x.len() && 0 <= j < ys.len() implies claims_apart(
        #[trigger] x[i],
        #[trigger] ys[j],
    ) by {
        assert(x.contains(x[i]));
        if claims.contains(x[i]) {
            let k = choose|k: int| 0 <= k < claims.len() && claims[k] == x[i];
            assert(claims_apart(claims[k], ys[j]));
        } else {
            let k = choose|k: int| 0 <= k < xs.len() && xs[k] == x[i];
            assert(claims_apart(xs[k], ys[j]));
        }
    }
}

/// Whether a signature tells a claim: two claims that bear one are one.
pub open spec fn signatures_tell(a: Seq<SignedConclusion>, b: Seq<SignedConclusion>) -> bool {
    forall|i: int, j: int|
        0 <= i < a.len() && 0 <= j < b.len() && (#[trigger] a[i]).signature.0@ == (
        #[trigger] b[j]).signature.0@ ==> a[i] == b[j]
}

pub proof fn lemma_signatures_turned(a: Seq<SignedConclusion>, b: Seq<SignedConclusion>)
    requires
        signatures_tell(a, b),
    ensures
        signatures_tell(b, a),
{
    assert forall|i: int, j: int|
        0 <= i < b.len() && 0 <= j < a.len() && (#[trigger] b[i]).signature.0@ == (
        #[trigger] a[j]).signature.0@ implies b[i] == a[j] by {
        assert(a[j] == b[i]);
    }
}

proof fn lemma_untold_members(claims: Seq<SignedConclusion>, told: Seq<Seq<u8>>, x: SignedConclusion)
    ensures
        untold_claims(claims, told).contains(x) <==> claims.contains(x) && !sig_told(told, x),
    decreases claims.len(),
{
    let sent = untold_claims(claims, told);
    if claims.len() > 0 {
        let front = claims.drop_last();
        let rest = untold_claims(front, told);
        lemma_untold_members(front, told, x);
        assert(claims[claims.len() - 1] == claims.last());
        if claims.contains(x) {
            let i = choose|i: int| 0 <= i < claims.len() && claims[i] == x;
            if i < front.len() {
                assert(front[i] == x);
            }
        }
        if front.contains(x) {
            let i = choose|i: int| 0 <= i < front.len() && front[i] == x;
            assert(claims[i] == x);
        }
        if rest.contains(x) {
            let i = choose|i: int| 0 <= i < rest.len() && rest[i] == x;
            assert(sent[i] == x);
        }
        if !sig_told(told, claims.last()) {
            assert(sent[rest.len() as int] == claims.last());
        }
        if sent.contains(x) {
            let i = choose|i: int| 0 <= i < sent.len() && sent[i] == x;
            if i < rest.len() {
                assert(rest[i] == x);
            }
        }
    }
}

/// The untold claims of a copy are its own, and sound where they are.
pub proof fn lemma_untold_sound(
    a: Seq<SignedConclusion>,
    b: Seq<SignedConclusion>,
    keys: Option<(VerifyingKey, VerifyingKey)>,
    game_id: GameId,
)
    requires
        well_ordered(b),
        claims_sound(b, keys, game_id),
        all_claims_apart(a, b),
    ensures
        claims_sound(untold_claims(b, sigs_of(a)), keys, game_id),
        all_claims_apart(a, untold_claims(b, sigs_of(a))),
        all_claims_apart(untold_claims(b, sigs_of(a)), untold_claims(b, sigs_of(a))),
        forall|x: SignedConclusion|
            #[trigger] untold_claims(b, sigs_of(a)).contains(x) ==> b.contains(x),
{
    let told = sigs_of(a);
    let cs = untold_claims(b, told);
    assert forall|x: SignedConclusion| #[trigger] cs.contains(x) implies b.contains(x) by {
        lemma_untold_members(b, told, x);
    }
    assert forall|i: int| 0 <= i < cs.len() implies b.contains(#[trigger] cs[i]) by {
        assert(cs.contains(cs[i]));
    }
    assert forall|i: int| 0 <= i < cs.len() implies claim_fault(
        #[trigger] cs[i],
        keys,
        game_id,
    ) is None by {
        let j = choose|j: int| 0 <= j < b.len() && b[j] == cs[i];
        assert(claim_fault(b[j], keys, game_id) is None);
    }
    assert forall|i: int, j: int| 0 <= i < a.len() && 0 <= j < cs.len() implies claims_apart(
        #[trigger] a[i],
        #[trigger] cs[j],
    ) by {
        let k = choose|k: int| 0 <= k < b.len() && b[k] == cs[j];
        assert(claims_apart(a[i], b[k]));
    }
    assert forall|i: int, j: int| 0 <= i < cs.len() && 0 <= j < cs.len() implies claims_apart(
        #[trigger] cs[i],
        #[trigger] cs[j],
    ) by {
        let k = choose|k: int| 0 <= k < b.len() && b[k] == cs[i];
        let l = choose|l: int| 0 <= l < b.len() && b[l] == cs[j];
        if k < l {
            assert(earlier(b[k], b[l]));
        }
        if l < k {
            assert(earlier(b[l], b[k]));
        }
    }
}

/// What is held under each slot once a copy's untold claims have come in.
pub proof fn lemma_syncing_claims(
    a: Seq<SignedConclusion>,
    b: Seq<SignedConclusion>,
    keys: Option<(VerifyingKey, VerifyingKey)>,
    game_id: GameId,
)
    requires
        well_ordered(a),
        well_ordered(b),
        claims_sound(b, keys, game_id),
        all_claims_apart(a, b),
        signatures_tell(a, b),
    ensures
        claims_after(a, untold_claims(b, sigs_of(a)), keys, game_id).1 is None,
        well_ordered(claims_after(a, untold_claims(b, sigs_of(a)), keys, game_id).0),
        by_slot(claims_after(a, untold_claims(b, sigs_of(a)), keys, game_id).0) == join(
            by_slot(a),
            by_slot(b),
            claim_over(),
        ),
        forall|x: SignedConclusion|
            #[trigger] claims_after(
                a,
                untold_claims(b, sigs_of(a)),
                keys,
                game_id,
            ).0.contains(x) ==> a.contains(x) || b.contains(x),
{
    let told = sigs_of(a);
    let cs = untold_claims(b, told);
    lemma_untold_sound(a, b, keys, game_id);
    lemma_sound_claims_come_in(a, cs, keys, game_id);
    lemma_claims_ordered();
    assert(b.take(b.len() as int) =~= b);
    lemma_untold_join(a, b, b);
}

/// Taking in the untold of a front of a copy's claims joins that front.
proof fn lemma_untold_join(
    a: Seq<SignedConclusion>,
    b: Seq<SignedConclusion>,
    front: Seq<SignedConclusion>,
)
    requires
        well_ordered(a),
        well_ordered(front),
        signatures_tell(a, b),
        front.len() <= b.len(),
        front == b.take(front.len() as int),
    ensures
        taken(by_slot(a), untold_claims(front, sigs_of(a)), claim_key(), claim_over()) == join(
            by_slot(a),
            by_slot(front),
            claim_over(),
        ),
    decreases front.len(),
{
    let told = sigs_of(a);
    let over = claim_over();
    let m = by_slot(a);
    if front.len() == 0 {
        assert(by_slot(front) =~= Map::empty());
        assert(join(m, by_slot(front), over) =~= m);
    } else {
        let rest = front.drop_last();
        let c = front.last();
        assert(front[front.len() - 1] == c);
        assert(rest =~= b.take(rest.len() as int));
        assert forall|p: int, q: int| 0 <= p < q < rest.len() implies earlier(
            #[trigger] rest[p],
            #[trigger] rest[q],
        ) && slot_of(rest[p]) != slot_of(rest[q]) by {
            assert(rest[p] == front[p] && rest[q] == front[q]);
        }
        lemma_untold_join(a, b, rest);
        let n = by_slot(rest);
        let s = slot_of(c);
        assert(!n.contains_key(s)) by {
            if n.contains_key(s) {
                let k = choose|k: int| in_slot(rest, s, k);
                assert(slot_of(front[k]) != slot_of(front[front.len() - 1]));
            }
        }
        assert(by_slot(front) =~= n.insert(s, c)) by {
            assert forall|x: (PlayerId, u8)| by_slot(front).contains_key(x) <==> n.insert(
                s,
                c,
            ).contains_key(x) by {
                if by_slot(front).contains_key(x) {
                    let k = choose|k: int| in_slot(front, x, k);
                    if k < rest.len() {
                        assert(in_slot(rest, x, k));
                    }
                }
                if n.contains_key(x) {
                    let k = choose|k: int| in_slot(rest, x, k);
                    assert(in_slot(front, x, k));
                }
                assert(in_slot(front, s, front.len() - 1));
            }
            assert forall|x: (PlayerId, u8)| by_slot(front).contains_key(x) implies by_slot(
                front,
            )[x] == n.insert(s, c)[x] by {
                let k = choose|k: int| in_slot(front, x, k);
                lemma_slot_holds(front, k);
                if k < rest.len() {
                    assert(rest[k] == front[k]);
                    lemma_slot_holds(rest, k);
                }
            }
        }
        let so_far = join(m, n, over);
        if sig_told(told, c) {
            let i = choose|i: int| 0 <= i < told.len() && (#[trigger] told[i]) == c.signature.0@;
            assert(a[i].signature.0@ == c.signature.0@);
            assert(b[front.len() - 1] == c);
            assert(a[i] == c);
            lemma_slot_holds(a, i);
            assert(join(m, n.insert(s, c), over) =~= so_far);
        } else {
            let before = untold_claims(rest, told);
            let sent = untold_claims(front, told);
            assert(sent.drop_last() =~= before);
            assert(put(so_far, c, claim_key(), over) =~= join(m, n.insert(s, c), over));
        }
    }
}

/// Two copies that send each other the claims that they were not told hold the
/// same claims.
pub proof fn law_claims_agree(
    a: Seq<SignedConclusion>,
    b: Seq<SignedConclusion>,
    keys: Option<(VerifyingKey, VerifyingKey)>,
    game_id: GameId,
)
    requires
        well_ordered(a),
        well_ordered(b),
        claims_sound(a, keys, game_id),
        claims_sound(b, keys, game_id),
        all_claims_apart(a, b),
        signatures_tell(a, b),
    ensures
        claims_after(a, untold_claims(b, sigs_of(a)), keys, game_id) == claims_after(
            b,
            untold_claims(a, sigs_of(b)),
            keys,
            game_id,
        ),
        claims_after(a, untold_claims(b, sigs_of(a)), keys, game_id).1 is None,
{
    lemma_apart_turned(a, b);
    lemma_signatures_turned(a, b);
    lemma_syncing_claims(a, b, keys, game_id);
    lemma_syncing_claims(b, a, keys, game_id);
    lemma_claims_ordered();
    let (m, n) = (by_slot(a), by_slot(b));
    assert forall|s: (PlayerId, u8)|
        #![trigger m.contains_key(s), n.contains_key(s)]
        m.contains_key(s) && n.contains_key(s) implies apart(claim_over(), m[s], n[s]) by {
        let i = choose|i: int| in_slot(a, s, i);
        let j = choose|j: int| in_slot(b, s, j);
        assert(claims_apart(a[i], b[j]));
    }
    law_joining_commutes(m, n, claim_over());
    lemma_slots_tell(
        claims_after(a, untold_claims(b, sigs_of(a)), keys, game_id).0,
        claims_after(b, untold_claims(a, sigs_of(b)), keys, game_id).0,
    );
}

/// Of claims by two players with one for each slot there are no more than the
/// players and the kinds admit.
pub proof fn lemma_few_slots(
    claims: Seq<SignedConclusion>,
    keys: (VerifyingKey, VerifyingKey),
    game_id: GameId,
)
    requires
        well_ordered(claims),
        claims_sound(claims, Some(keys), game_id),
    ensures
        claims.len() <= 6,
{
    let (w, b) = (id_of(keys.0), id_of(keys.1));
    let all: Set<(PlayerId, u8)> = set![(w, 0u8), (w, 1u8), (w, 2u8), (b, 0u8), (b, 1u8), (b, 2u8)];
    let slots = Seq::new(claims.len(), |i: int| slot_of(claims[i]));
    assert(slots.no_duplicates()) by {
        assert forall|i: int, j: int|
            0 <= i < slots.len() && 0 <= j < slots.len() && i != j implies slots[i] != slots[j] by {
            if i < j {
                assert(slot_of(claims[i]) != slot_of(claims[j]));
            } else {
                assert(slot_of(claims[j]) != slot_of(claims[i]));
            }
        }
    }
    slots.unique_seq_to_set();
    assert forall|s: (PlayerId, u8)| slots.to_set().contains(s) implies all.contains(s) by {
        let i = choose|i: int| 0 <= i < slots.len() && slots[i] == s;
        assert(claim_fault(claims[i], Some(keys), game_id) is None);
    }
    vstd::set_lib::lemma_len_subset(slots.to_set(), all);
    assert(all.len() <= 6);
}

/// A player has one claim of each kind on record, the earliest they signed, and
/// the claims stand in the order of their times. One that comes in touches no
/// other player's claims and none of another kind.
pub proof fn law_the_earliest_claim_of_each_kind_stays(
    claims: Seq<SignedConclusion>,
    c: SignedConclusion,
    x: SignedConclusion,
)
    requires
        well_ordered(claims),
        forall|i: int| 0 <= i < claims.len() ==> claims_apart(#[trigger] claims[i], c),
    ensures
        ({
            let n = absorb_claim(claims, c);
            &&& forall|i: int, j: int| 0 <= i < j < n.len() ==> (#[trigger] n[i]).at <= (
                #[trigger] n[j]).at
            &&& id_of(x.claimant) != id_of(c.claimant) || x.kind != c.kind ==> (n.contains(x)
                <==> claims.contains(x))
            &&& id_of(x.claimant) == id_of(c.claimant) && x.kind == c.kind && claims.contains(x)
                && c.at < x.at ==> n.contains(c) && !n.contains(x)
            &&& id_of(x.claimant) == id_of(c.claimant) && x.kind == c.kind && claims.contains(x)
                && x.at < c.at ==> n.contains(x) && !n.contains(c)
            &&& (forall|i: int|
                0 <= i < claims.len() ==> id_of((#[trigger] claims[i]).claimant) != id_of(
                    c.claimant,
                ) || claims[i].kind != c.kind) ==> n.contains(c)
        }),
{
    let n = absorb_claim(claims, c);
    lemma_claim_comes_in(claims, c);
    lemma_slots_hold(claims, x);
    lemma_slots_hold(claims, c);
    lemma_slots_hold(n, x);
    lemma_slots_hold(n, c);
    assert(slot_of(x) == slot_of(c) <==> id_of(x.claimant) == id_of(c.claimant) && x.kind
        == c.kind);
    if forall|i: int|
        0 <= i < claims.len() ==> id_of((#[trigger] claims[i]).claimant) != id_of(c.claimant)
            || claims[i].kind != c.kind {
        if by_slot(claims).contains_key(slot_of(c)) {
            let i = choose|i: int| in_slot(claims, slot_of(c), i);
            assert(in_slot(claims, slot_of(c), i));
        }
    }
}

} // verus!
