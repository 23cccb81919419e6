//! How often each byte value occurs, alone and after another.
use crate::ans::count_sum;
use crate::huffman::lengths::total;
use vstd::prelude::*;

verus! {

/// How often each byte value occurs in `data`.
pub open spec fn byte_counts(data: Seq<u8>) -> Seq<u64>
    decreases data.len(),
{
    if data.len() == 0 {
        Seq::new(256, |i: int| 0u64)
    } else {
        let c = byte_counts(data.drop_last());
        let b = data.last() as int;
        c.update(b, (c[b] + 1) as u64)
    }
}

proof fn lemma_zero(n: nat)
    ensures
        total(Seq::new(n, |i: int| 0u64)) == 0,
        count_sum(Seq::new(n, |i: int| 0u64), n as int) == 0,
    decreases n,
{
    let z = Seq::new(n, |i: int| 0u64);
    if n > 0 {
        let m = (n - 1) as nat;
        lemma_zero(m);
        assert(z.drop_last() =~= Seq::new(m, |i: int| 0u64));
        lemma_sum_same(z, Seq::new(m, |i: int| 0u64), m as int);
    }
}

proof fn lemma_sum_same(a: Seq<u64>, b: Seq<u64>, n: int)
    requires
        0 <= n <= a.len(),
        n <= b.len(),
        forall|i: int| 0 <= i < n ==> a[i] == b[i],
    ensures
        count_sum(a, n) == count_sum(b, n),
    decreases n,
{
    if n > 0 {
        lemma_sum_same(a, b, n - 1);
    }
}

proof fn lemma_sum_update(c: Seq<u64>, i: int, x: u64, n: int)
    requires
        0 <= i < c.len(),
        0 <= n <= c.len(),
    ensures
        count_sum(c.update(i, x), n) == count_sum(c, n) + if i < n {
            x - c[i]
        } else {
            0
        },
    decreases n,
{
    if n > 0 {
        lemma_sum_update(c, i, x, n - 1);
    }
}

proof fn lemma_sum_at(c: Seq<u64>, i: int, n: int)
    requires
        0 <= i < n,
    ensures
        c[i] <= count_sum(c, n),
    decreases n,
{
    if i < n - 1 {
        lemma_sum_at(c, i, n - 1);
    }
}

/// The counts add up to the length, and exactly the bytes that occur have
/// one above 0.
pub proof fn lemma_byte_counts(data: Seq<u8>)
    requires
        data.len() <= u64::MAX,
    ensures
        byte_counts(data).len() == 256,
        total(byte_counts(data)) == data.len(),
        count_sum(byte_counts(data), 256) == data.len(),
        forall|b: int|
            0 <= b < 256 ==> (#[trigger] byte_counts(data)[b] > 0 <==> data.contains(b as u8)),
        forall|b: int| 0 <= b < 256 ==> #[trigger] byte_counts(data)[b] <= data.len(),
    decreases data.len(),
{
    if data.len() == 0 {
        lemma_zero(256);
    } else {
        let front = data.drop_last();
        lemma_byte_counts(front);
        let c = byte_counts(front);
        let b = data.last() as int;
        lemma_sum_at(c, b, 256);
        lemma_sum_update(c, b, (c[b] + 1) as u64, 256);
        crate::deflate::blocks::lemma_total_update(c, b, (c[b] + 1) as u64);
        assert forall|k: int| 0 <= k < 256 implies (#[trigger] byte_counts(data)[k] > 0
            <==> data.contains(k as u8)) by {
            assert(c[k] > 0 <==> front.contains(k as u8));
            if front.contains(k as u8) {
                let j = choose|j: int| 0 <= j < front.len() && front[j] == k as u8;
                assert(data[j] == k as u8);
            }
            if data.contains(k as u8) && k != b {
                let j = choose|j: int| 0 <= j < data.len() && data[j] == k as u8;
                assert(front[j] == k as u8);
            }
            if k == b {
                assert(data[data.len() - 1] == k as u8);
            }
        }
    }
}

/// Counts add up, and a single byte counts once.
pub proof fn counts_add_up(a: Seq<u8>, b: Seq<u8>, k: int)
    requires
        a.len() + b.len() <= u64::MAX,
        0 <= k < 256,
    ensures
        byte_counts(a + b)[k] == byte_counts(a)[k] + byte_counts(b)[k],
        byte_counts(seq![k as u8])[k] == 1,
        byte_counts(Seq::empty())[k] == 0,
    decreases b.len(),
{
    reveal_with_fuel(byte_counts, 2);
    assert(seq![k as u8].drop_last() =~= Seq::<u8>::empty());
    lemma_byte_counts(a);
    lemma_byte_counts(b);
    lemma_byte_counts(a + b);
    if b.len() == 0 {
        assert(a + b =~= a);
    } else {
        let front = b.drop_last();
        counts_add_up(a, front, k);
        assert((a + b).drop_last() =~= a + front);
        assert((a + b).last() == b.last());
        lemma_byte_counts(front);
        lemma_byte_counts(a + front);
    }
}

/// Count the bytes of `data`.
pub fn count_bytes(data: &[u8]) -> (r: [u64; 256])
    ensures
        r@ == byte_counts(data@),
{
    let mut counts: [u64; 256] = [0;256];
    let mut i: usize = 0;
    while i < 256
        invariant
            i <= 256,
            forall|k: int| 0 <= k < i ==> #[trigger] counts@[k] == 0,
        decreases 256 - i,
    {
        counts[i] = 0;
        i = i + 1;
    }
    let mut i: usize = 0;
    proof {
        assert(data@.len() == data.len());
        assert(data@.take(0) =~= Seq::<u8>::empty());
        assert(counts@ =~= byte_counts(data@.take(0)));
    }
    while i < data.len()
        invariant
            i <= data@.len(),
            data@.len() == data.len(),
            counts@ == byte_counts(data@.take(i as int)),
        decreases data@.len() - i,
    {
        proof {
            assert(data@.take(i + 1).drop_last() =~= data@.take(i as int));
            lemma_byte_counts(data@.take(i as int));
        }
        let b: usize = data[i] as usize;
        let ghost was = counts@;
        assert(was[b as int] <= i);
        counts[b] = counts[b] + 1;
        i = i + 1;
        assert(counts@ =~= was.update(b as int, (was[b as int] + 1) as u64));
    }
    assert(data@.take(i as int) =~= data@);
    counts
}

/// The byte before position `i`, 0 at the start.
pub open spec fn context_at(data: Seq<u8>, i: int) -> u8 {
    if i == 0 {
        0
    } else {
        data[i - 1]
    }
}

/// How often each byte value occurs after each byte value: the count of `b`
/// after `a` stands at `256 * a + b`.
pub open spec fn pair_counts(data: Seq<u8>) -> Seq<u64>
    decreases data.len(),
{
    if data.len() == 0 {
        Seq::new(65536, |i: int| 0u64)
    } else {
        let c = pair_counts(data.drop_last());
        let k = 256 * context_at(data, data.len() - 1) + data.last();
        c.update(k, (c[k] + 1) as u64)
    }
}

/// No pair occurs more often than there are bytes.
proof fn lemma_pair_counts(data: Seq<u8>)
    requires
        data.len() <= u64::MAX,
    ensures
        pair_counts(data).len() == 65536,
        forall|k: int| 0 <= k < 65536 ==> #[trigger] pair_counts(data)[k] <= data.len(),
    decreases data.len(),
{
    if data.len() > 0 {
        lemma_pair_counts(data.drop_last());
    }
}

/// One more byte counts once, behind the byte before it, and changes no other
/// count. The first byte counts behind 0.
pub proof fn pairs_add_up(data: Seq<u8>, b: u8, k: int)
    requires
        data.len() < u64::MAX,
        0 <= k < 65536,
    ensures
        pair_counts(Seq::empty())[k] == 0,
        pair_counts(data.push(b)).len() == 65536,
        pair_counts(data.push(b))[k] == pair_counts(data)[k] + if k / 256 == (if data.len() == 0 {
            0
        } else {
            data.last()
        }) && k % 256 == b {
            1int
        } else {
            0
        },
{
    let all = data.push(b);
    assert(all.drop_last() =~= data);
    lemma_pair_counts(data);
    lemma_pair_counts(all);
    if data.len() > 0 {
        assert(context_at(all, all.len() - 1) == data.last());
    }
}

/// Count the bytes of `data` by the byte before each. The first has 0 before
/// it.
pub fn count_pairs(data: &[u8]) -> (r: Vec<u64>)
    ensures
        r@ == pair_counts(data@),
{
    let mut counts: Vec<u64> = vec![0;65536];
    let mut prev: u8 = 0;
    let mut i: usize = 0;
    proof {
        assert(data@.len() == data.len());
        assert(data@.take(0) =~= Seq::<u8>::empty());
        assert(counts@ =~= pair_counts(data@.take(0)));
    }
    while i < data.len()
        invariant
            i <= data@.len(),
            data@.len() == data.len(),
            prev == context_at(data@, i as int),
            counts@ == pair_counts(data@.take(i as int)),
        decreases data@.len() - i,
    {
        let ghost seen = data@.take(i + 1);
        proof {
            assert(seen.drop_last() =~= data@.take(i as int));
            assert(context_at(seen, i as int) == prev);
            lemma_pair_counts(data@.take(i as int));
        }
        let k: usize = 256 * prev as usize + data[i] as usize;
        let n: u64 = counts[k];
        counts.set(k, n + 1);
        prev = data[i];
        i = i + 1;
    }
    assert(data@.take(i as int) =~= data@);
    counts
}

} // verus!
