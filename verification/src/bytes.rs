//! Byte strings: fixed-width integers, comparison, equality.

use vstd::prelude::*;

verus! {

/// The `k` lowest base-256 digits of `n`, least significant first.
pub open spec fn le_bytes(n: nat, k: nat) -> Seq<u8>
    decreases k,
{
    if k == 0 {
        Seq::empty()
    } else {
        seq![(n % 256) as u8] + le_bytes(n / 256, (k - 1) as nat)
    }
}

/// The two's complement pattern of a signed 64-bit number.
pub open spec fn twos64(n: i64) -> nat {
    if n >= 0 {
        n as nat
    } else {
        (n + 0x1_0000_0000_0000_0000) as nat
    }
}

/// The two's complement pattern of a signed 32-bit number.
pub open spec fn twos32(n: i32) -> nat {
    if n >= 0 {
        n as nat
    } else {
        (n + 0x1_0000_0000) as nat
    }
}

pub open spec fn le32(n: u32) -> Seq<u8> {
    le_bytes(n as nat, 4)
}

pub open spec fn le64(n: u64) -> Seq<u8> {
    le_bytes(n as nat, 8)
}

pub open spec fn le_i64(n: i64) -> Seq<u8> {
    le_bytes(twos64(n), 8)
}

pub open spec fn le_i32(n: i32) -> Seq<u8> {
    le_bytes(twos32(n), 4)
}

/// Append `k` bytes of `n`, least significant first.
pub fn push_le(out: &mut Vec<u8>, n: u64, k: usize)
    ensures
        final(out)@ == old(out)@ + le_bytes(n as nat, k as nat),
{
    let mut rest: u64 = n;
    let mut left: usize = k;
    let ghost start = out@;
    while left > 0
        invariant
            start + le_bytes(n as nat, k as nat) == out@ + le_bytes(rest as nat, left as nat),
        decreases left,
    {
        let ghost before = out@;
        let ghost (rest0, left0) = (rest, left);
        out.push((rest % 256) as u8);
        rest = rest / 256;
        left = left - 1;
        assert(before + le_bytes(rest0 as nat, left0 as nat) =~= out@ + le_bytes(
            rest as nat,
            left as nat,
        ));
    }
    assert(out@ + le_bytes(rest as nat, 0) =~= out@);
}

pub fn push_u32(out: &mut Vec<u8>, n: u32)
    ensures
        final(out)@ == old(out)@ + le32(n),
{
    push_le(out, n as u64, 4);
}

pub fn push_u64(out: &mut Vec<u8>, n: u64)
    ensures
        final(out)@ == old(out)@ + le64(n),
{
    push_le(out, n, 8);
}

pub fn push_i64(out: &mut Vec<u8>, n: i64)
    ensures
        final(out)@ == old(out)@ + le_i64(n),
{
    let pattern: u64 = if n >= 0 {
        n as u64
    } else {
        u64::MAX - (-(n + 1)) as u64
    };
    push_le(out, pattern, 8);
}

pub fn push_i32(out: &mut Vec<u8>, n: i32)
    ensures
        final(out)@ == old(out)@ + le_i32(n),
{
    let pattern: u64 = if n >= 0 {
        n as u64
    } else {
        0xFFFF_FFFFu64 - (-(n as i64 + 1)) as u64
    };
    push_le(out, pattern, 4);
}

/// Append all of `more`.
pub fn push_all(out: &mut Vec<u8>, more: &[u8])
    ensures
        final(out)@ == old(out)@ + more@,
{
    let ghost start = out@;
    let mut i: usize = 0;
    while i < more.len()
        invariant
            i <= more.len(),
            out@ == start + more@.take(i as int),
        decreases more.len() - i,
    {
        out.push(more[i]);
        assert(start + more@.take(i + 1) =~= (start + more@.take(i as int)).push(more@[i as int]));
        i = i + 1;
    }
    assert(more@.take(more@.len() as int) =~= more@);
}

/// The number that the bytes write in base 256, most significant first. On
/// byte strings of one length this is the lexicographic order.
pub open spec fn be_value(s: Seq<u8>) -> nat
    decreases s.len(),
{
    if s.len() == 0 {
        0
    } else {
        be_value(s.drop_last()) * 256 + s.last() as nat
    }
}

/// Byte strings of one length with one value are one byte string.
pub proof fn lemma_be_value_injective(a: Seq<u8>, b: Seq<u8>)
    requires
        a.len() == b.len(),
        be_value(a) == be_value(b),
    ensures
        a == b,
    decreases a.len(),
{
    if a.len() > 0 {
        assert(a.last() == b.last() && be_value(a.drop_last()) == be_value(b.drop_last()));
        lemma_be_value_injective(a.drop_last(), b.drop_last());
        assert(a =~= a.drop_last().push(a.last()));
        assert(b =~= b.drop_last().push(b.last()));
    } else {
        assert(a =~= b);
    }
}

/// Once one string is ahead, equally many further bytes keep it ahead.
proof fn lemma_be_value_prefix_decides(a: Seq<u8>, b: Seq<u8>, n: int)
    requires
        a.len() == b.len(),
        0 <= n <= a.len(),
        be_value(a.take(n)) < be_value(b.take(n)),
    ensures
        be_value(a) < be_value(b),
    decreases a.len(),
{
    if n == a.len() {
        assert(a.take(n) =~= a);
        assert(b.take(n) =~= b);
    } else {
        assert(a.drop_last().take(n) =~= a.take(n));
        assert(b.drop_last().take(n) =~= b.take(n));
        lemma_be_value_prefix_decides(a.drop_last(), b.drop_last(), n);
    }
}

/// Whether `a` comes before `b`.
pub fn bytes_less<const N: usize>(a: &[u8; N], b: &[u8; N]) -> (r: bool)
    ensures
        r == (be_value(a@) < be_value(b@)),
{
    let mut i: usize = 0;
    while i < N
        invariant
            i <= N,
            a@.len() == N,
            b@.len() == N,
            a@.take(i as int) =~= b@.take(i as int),
        decreases N - i,
    {
        assert(a@.take(i + 1).drop_last() =~= a@.take(i as int));
        assert(b@.take(i + 1).drop_last() =~= b@.take(i as int));
        if a[i] < b[i] {
            proof {
                lemma_be_value_prefix_decides(a@, b@, i + 1);
            }
            return true;
        }
        if b[i] < a[i] {
            proof {
                lemma_be_value_prefix_decides(b@, a@, i + 1);
            }
            return false;
        }
        i = i + 1;
    }
    assert(a@ =~= b@) by {
        assert(a@.take(N as int) =~= a@);
        assert(b@.take(N as int) =~= b@);
    }
    false
}

/// Whether two arrays hold the same bytes.
pub fn bytes_equal<const N: usize>(a: &[u8; N], b: &[u8; N]) -> (r: bool)
    ensures
        r == (*a == *b),
{
    let mut i: usize = 0;
    while i < N
        invariant
            i <= N,
            forall|j: int| 0 <= j < i ==> a@[j] == b@[j],
        decreases N - i,
    {
        if a[i] != b[i] {
            assert(a@[i as int] != b@[i as int]);
            return false;
        }
        i = i + 1;
    }
    assert(*a =~= *b);
    true
}

/// The `N` bytes of `v` from `from` on.
pub fn array_from<const N: usize>(v: &[u8], from: usize) -> (r: [u8; N])
    requires
        from + N <= v@.len(),
    ensures
        r@ == v@.subrange(from as int, from + N),
{
    let size: usize = v.len();
    let mut out: [u8; N] = vstd::array::array_fill_for_copy_types::<u8, N>(0);
    let mut i: usize = 0;
    while i < N
        invariant
            i <= N,
            size == v@.len(),
            from + N <= v@.len(),
            forall|j: int| 0 <= j < i ==> out@[j] == v@[from + j],
        decreases N - i,
    {
        out[i] = v[from + i];
        i = i + 1;
    }
    assert(out@ =~= v@.subrange(from as int, from + N));
    out
}

/// Whether two byte strings are the same.
pub fn same_bytes(a: &[u8], b: &[u8]) -> (r: bool)
    ensures
        r == (a@ == b@),
{
    if a.len() != b.len() {
        return false;
    }
    let mut i: usize = 0;
    while i < a.len()
        invariant
            a@.len() == b@.len(),
            i <= a@.len(),
            forall|j: int| 0 <= j < i ==> a@[j] == b@[j],
        decreases a.len() - i,
    {
        if a[i] != b[i] {
            assert(a@[i as int] != b@[i as int]);
            return false;
        }
        i = i + 1;
    }
    assert(a@ =~= b@);
    true
}

/// A copy of the bytes from `from` up to `to`.
pub fn bytes_between(v: &[u8], from: usize, to: usize) -> (r: Vec<u8>)
    requires
        from <= to <= v@.len(),
    ensures
        r@ == v@.subrange(from as int, to as int),
{
    let mut out: Vec<u8> = Vec::new();
    let mut i: usize = from;
    while i < to
        invariant
            from <= i <= to <= v@.len(),
            out@ == v@.subrange(from as int, i as int),
        decreases to - i,
    {
        out.push(v[i]);
        i = i + 1;
        assert(out@ =~= v@.subrange(from as int, i as int));
    }
    out
}

/// The `k` lowest base-256 digits of `n`, most significant first.
pub open spec fn be_bytes(n: nat, k: nat) -> Seq<u8>
    decreases k,
{
    if k == 0 {
        Seq::empty()
    } else {
        be_bytes(n / 256, (k - 1) as nat).push((n % 256) as u8)
    }
}

/// Append `k` bytes of `n`, most significant first.
pub fn push_be(out: &mut Vec<u8>, n: u64, k: usize)
    ensures
        final(out)@ == old(out)@ + be_bytes(n as nat, k as nat),
    decreases k,
{
    if k == 0 {
        assert(out@ + be_bytes(n as nat, 0) =~= out@);
    } else {
        let ghost start = out@;
        push_be(out, n / 256, k - 1);
        out.push((n % 256) as u8);
        assert(out@ =~= start + be_bytes(n as nat, k as nat));
    }
}

/// Most significant first: reading what was written.
pub proof fn lemma_be_bytes_read_back(n: nat, k: nat)
    ensures
        be_bytes(n, k).len() == k,
        be_value(be_bytes(n, k)) == n % pow256(k),
    decreases k,
{
    if k == 0 {
        assert(n % 1 == 0);
    } else {
        let m = (k - 1) as nat;
        lemma_be_bytes_read_back(n / 256, m);
        assert(be_bytes(n, k).drop_last() =~= be_bytes(n / 256, m));
        lemma_pow256_positive(m);
        vstd::arithmetic::div_mod::lemma_mod_breakdown(n as int, 256, pow256(m) as int);
        assert(256 * pow256(m) == pow256(k));
    }
}

pub open spec fn pow256(k: nat) -> nat
    decreases k,
{
    if k == 0 {
        1
    } else {
        256 * pow256((k - 1) as nat)
    }
}

proof fn lemma_pow256_positive(k: nat)
    ensures
        pow256(k) > 0,
    decreases k,
{
    if k > 0 {
        lemma_pow256_positive((k - 1) as nat);
    }
}

pub proof fn lemma_pow256_of_eight()
    ensures
        pow256(8) == 0x1_0000_0000_0000_0000,
{
    reveal_with_fuel(pow256, 9);
}

/// Read eight bytes from `from` on, most significant first.
pub fn read_be64(v: &[u8], from: usize) -> (r: u64)
    requires
        from + 8 <= v@.len(),
    ensures
        r == be_value(v@.subrange(from as int, from + 8)),
{
    let ghost eight = v@.subrange(from as int, from + 8);
    let size: usize = v.len();
    let mut value: u64 = 0;
    let mut i: usize = 0;
    assert(eight.take(0) =~= Seq::<u8>::empty());
    while i < 8
        invariant
            i <= 8,
            size == v@.len(),
            from + 8 <= v@.len(),
            eight == v@.subrange(from as int, from + 8),
            value == be_value(eight.take(i as int)),
            value < pow256(i as nat),
        decreases 8 - i,
    {
        assert(eight.take(i + 1).drop_last() =~= eight.take(i as int));
        proof {
            reveal_with_fuel(pow256, 9);
        }
        value = value * 256 + v[from + i] as u64;
        i = i + 1;
    }
    assert(eight.take(8) =~= eight);
    value
}

/// Whether a byte string comes before another, as words in a dictionary do.
pub open spec fn lex_less(a: Seq<u8>, b: Seq<u8>) -> bool
    decreases a.len(),
{
    if b.len() == 0 {
        false
    } else if a.len() == 0 {
        true
    } else {
        a[0] < b[0] || (a[0] == b[0] && lex_less(a.skip(1), b.skip(1)))
    }
}

/// Of two byte strings one comes first, unless they are one.
pub proof fn lemma_lex_total(a: Seq<u8>, b: Seq<u8>)
    ensures
        lex_less(a, b) || lex_less(b, a) || a == b,
        !(lex_less(a, b) && lex_less(b, a)),
        a == b ==> !lex_less(a, b),
    decreases a.len(),
{
    if a.len() > 0 && b.len() > 0 {
        lemma_lex_total(a.skip(1), b.skip(1));
        if a[0] == b[0] && a.skip(1) == b.skip(1) {
            assert(a =~= seq![a[0]] + a.skip(1));
            assert(b =~= seq![b[0]] + b.skip(1));
        }
    } else if a.len() == 0 && b.len() == 0 {
        assert(a =~= b);
    }
}

pub proof fn lemma_lex_transitive(a: Seq<u8>, b: Seq<u8>, c: Seq<u8>)
    requires
        lex_less(a, b),
        lex_less(b, c),
    ensures
        lex_less(a, c),
    decreases a.len(),
{
    if a.len() > 0 && a[0] == b[0] && b[0] == c[0] {
        lemma_lex_transitive(a.skip(1), b.skip(1), c.skip(1));
    }
}

/// Whether a byte string comes before another.
pub fn comes_first(a: &[u8], b: &[u8]) -> (r: bool)
    ensures
        r == lex_less(a@, b@),
{
    let mut i: usize = 0;
    assert(a@.skip(0) =~= a@);
    assert(b@.skip(0) =~= b@);
    while i < a.len() && i < b.len()
        invariant
            i <= a@.len(),
            i <= b@.len(),
            lex_less(a@, b@) == lex_less(a@.skip(i as int), b@.skip(i as int)),
        decreases a.len() - i,
    {
        assert(a@.skip(i as int).skip(1) =~= a@.skip(i + 1));
        assert(b@.skip(i as int).skip(1) =~= b@.skip(i + 1));
        if a[i] < b[i] {
            return true;
        }
        if b[i] < a[i] {
            return false;
        }
        i = i + 1;
    }
    i < b.len()
}

} // verus!
