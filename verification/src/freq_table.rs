//! Frequency tables as they are sent: an Elias gamma code for each byte
//! value.
use crate::ans::counts_fit;
use crate::ans::covers;
use crate::ans::frequencies_are_complete;
use crate::ans::freqs_ok;
use crate::ans::lemma_sum_mono;
use crate::ans::normalized;
use crate::ans::Freqs;
use crate::bits::gamma_bits;
use crate::bits::gamma_roundtrip;
use crate::bits::take_gamma;
use crate::bits::BitReader;
use crate::bits::BitWriter;
use crate::counts::byte_counts;
use crate::counts::lemma_byte_counts;
use crate::error::Error;
use vstd::prelude::*;

verus! {

/// The first `n` frequencies.
pub open spec fn freq_bits(freq: Seq<u32>, n: nat) -> Seq<bool>
    decreases n,
{
    if n == 0 {
        Seq::empty()
    } else {
        freq_bits(freq, (n - 1) as nat) + gamma_bits((freq[n - 1] + 1) as nat)
    }
}

/// Reading `n` frequencies; `why` is what is wrong with one that is too
/// large.
pub open spec fn take_freqs(s: Seq<bool>, n: nat, why: &'static str) -> Result<
    (Seq<u32>, Seq<bool>),
    Error,
>
    decreases n,
{
    if n == 0 {
        Ok((Seq::empty(), s))
    } else {
        match take_freqs(s, (n - 1) as nat, why) {
            Err(e) => Err(e),
            Ok((freq, s)) => match take_gamma(s) {
                Err(e) => Err(e),
                Ok((g, s)) => if g - 1 > u32::MAX {
                    Err(Error::Corrupt(why))
                } else {
                    Ok((freq.push((g - 1) as u32), s))
                },
            },
        }
    }
}

/// The frequencies for `data`.
pub open spec fn freqs_for(data: Seq<u8>) -> Seq<u32> {
    normalized(byte_counts(data))->0
}

/// Data that is not empty has frequencies, one above 0 for each of its
/// bytes.
pub proof fn lemma_freqs_for(data: Seq<u8>)
    requires
        0 < data.len() <= u32::MAX,
    ensures
        normalized(byte_counts(data)) == Some(freqs_for(data)),
        freqs_ok(freqs_for(data)),
        covers(freqs_for(data), data),
        counts_fit(byte_counts(data)),
{
    let counts = byte_counts(data);
    let freq = freqs_for(data);
    lemma_byte_counts(data);
    frequencies_are_complete(counts);
    assert forall|i: int| 0 <= i < data.len() implies freq[(#[trigger] data[i]) as int] > 0 by {
        assert(data.contains(data[i]));
        assert(counts[data[i] as int] > 0);
    }
    assert forall|i: int| 0 <= i < 256 implies (#[trigger] counts[i]) * 4096
        + crate::ans::count_sum(counts, 256) / 2 <= u64::MAX by {
        assert(counts[i] <= data.len());
    }
}

/// Exactly the bytes of the data have a frequency, and the frequencies are
/// those of how often each occurs.
pub proof fn tables_follow_the_data(data: Seq<u8>, b: u8)
    requires
        0 < data.len() <= u32::MAX,
    ensures
        freqs_for(data)[b as int] > 0 <==> data.contains(b),
        normalized(byte_counts(data)) == Some(freqs_for(data)),
{
    lemma_byte_counts(data);
    lemma_freqs_for(data);
    frequencies_are_complete(byte_counts(data));
    let freq = freqs_for(data);
    assert(freq[b as int] > 0 <==> byte_counts(data)[b as int] > 0);
}

/// Frequencies stand one behind the other, from that of byte 0 on, each as
/// the gamma code of one more.
pub proof fn tables_are_laid_out(a: Seq<u32>, b: Seq<u32>, f: u32)
    ensures
        freq_bits(a + b, (a.len() + b.len()) as nat) == freq_bits(a, a.len()) + freq_bits(
            b,
            b.len(),
        ),
        freq_bits(seq![f], 1) == gamma_bits((f + 1) as nat),
    decreases b.len(),
{
    reveal_with_fuel(freq_bits, 2);
    assert(freq_bits(seq![f], 1) =~= gamma_bits((f + 1) as nat));
    if b.len() == 0 {
        assert(a + b =~= a);
        assert(freq_bits(a, a.len()) + freq_bits(b, 0) =~= freq_bits(a, a.len()));
    } else {
        let n = (b.len() - 1) as nat;
        let front = b.drop_last();
        tables_are_laid_out(a, front, f);
        lemma_freq_bits_front(a + b, a + front, a.len() + n);
        lemma_freq_bits_front(b, front, n);
        assert((a + b)[a.len() as int + n] == b[n as int]);
        let g = gamma_bits((b[n as int] + 1) as nat);
        assert(freq_bits(a, a.len()) + freq_bits(front, n) + g =~= freq_bits(a, a.len()) + (
        freq_bits(front, n) + g));
    }
}

/// The bits of the first `n` frequencies go by those alone.
proof fn lemma_freq_bits_front(a: Seq<u32>, b: Seq<u32>, n: nat)
    requires
        forall|i: int| 0 <= i < n ==> #[trigger] a[i] == b[i],
    ensures
        freq_bits(a, n) == freq_bits(b, n),
    decreases n,
{
    if n > 0 {
        lemma_freq_bits_front(a, b, (n - 1) as nat);
        assert(a[n - 1] == b[n - 1]);
    }
}

/// Frequencies that were written are read again.
pub proof fn lemma_take_freqs(freq: Seq<u32>, n: nat, why: &'static str, rest: Seq<bool>)
    requires
        n <= freq.len(),
    ensures
        take_freqs(freq_bits(freq, n) + rest, n, why) == Ok::<(Seq<u32>, Seq<bool>), Error>(
            (freq.take(n as int), rest),
        ),
    decreases n,
{
    if n == 0 {
        assert(freq_bits(freq, n) + rest =~= rest);
        assert(freq.take(0) =~= Seq::<u32>::empty());
    } else {
        let f = freq[n - 1];
        let g = gamma_bits((f + 1) as nat);
        assert(freq_bits(freq, n) + rest =~= freq_bits(freq, (n - 1) as nat) + (g + rest));
        lemma_take_freqs(freq, (n - 1) as nat, why, g + rest);
        gamma_roundtrip((f + 1) as nat, rest);
        assert(freq.take(n as int) =~= freq.take(n - 1).push(f));
    }
}

/// A table that breaks off stays broken.
proof fn lemma_freqs_err(s: Seq<bool>, n: nat, m: nat, why: &'static str)
    requires
        n <= m,
        take_freqs(s, n, why) is Err,
    ensures
        take_freqs(s, m, why) == take_freqs(s, n, why),
    decreases m,
{
    if n < m {
        lemma_freqs_err(s, n, (m - 1) as nat, why);
    }
}

pub proof fn lemma_freqs_shrink(s: Seq<bool>, n: nat, why: &'static str)
    ensures
        take_freqs(s, n, why) matches Ok((freq, rest)) ==> freq.len() == n && rest.len() + n
            <= s.len(),
    decreases n,
{
    if n > 0 {
        lemma_freqs_shrink(s, (n - 1) as nat, why);
    }
}

/// Write all frequencies.
pub(crate) fn write_freqs(w: &mut BitWriter, freqs: &Freqs)
    requires
        old(w).wf(),
        freqs.wf(),
    ensures
        final(w).wf(),
        final(w)@ == old(w)@ + freq_bits(freqs@, 256),
{
    let ghost start = w@;
    let ghost all = freqs@;
    let table = freqs.freqs();
    let mut i: usize = 0;
    proof {
        freqs.lemma_wf();
        assert(start + freq_bits(all, 0) =~= start);
    }
    while i < 256
        invariant
            w.wf(),
            i <= 256,
            all == table@,
            freqs_ok(all),
            w@ == start + freq_bits(all, i as nat),
        decreases 256 - i,
    {
        proof {
            lemma_sum_mono(all, i + 1, 256);
        }
        w.write_gamma(table[i] as u64 + 1);
        i = i + 1;
        assert(w@ =~= start + freq_bits(all, i as nat));
    }
}

/// Read all frequencies.
pub(crate) fn read_freqs(r: &mut BitReader, why: &'static str) -> (res: Result<[u32; 256], Error>)
    requires
        old(r).wf(),
    ensures
        final(r).wf(),
        final(r).source() == old(r).source(),
        match take_freqs(old(r)@, 256, why) {
            Err(e) => res matches Err(f) && f == e,
            Ok((freq, rest)) => res matches Ok(x) && x@ == freq && final(r)@ == rest,
        },
{
    let ghost start = r@;
    let mut freq: [u32; 256] = [0;256];
    let mut i: usize = 0;
    assert(freq@.take(0) =~= Seq::<u32>::empty());
    while i < 256
        invariant
            r.wf(),
            r.source() == old(r).source(),
            start == old(r)@,
            i <= 256,
            take_freqs(start, i as nat, why) == Ok::<(Seq<u32>, Seq<bool>), Error>(
                (freq@.take(i as int), r@),
            ),
        decreases 256 - i,
    {
        let g: u64 = match r.read_gamma() {
            Err(e) => {
                proof {
                    lemma_freqs_err(start, (i + 1) as nat, 256, why);
                }
                return Err(e);
            },
            Ok(g) => g,
        };
        if g - 1 > u32::MAX as u64 {
            proof {
                lemma_freqs_err(start, (i + 1) as nat, 256, why);
            }
            return Err(Error::Corrupt(why));
        }
        let ghost was = freq@;
        freq[i] = (g - 1) as u32;
        i = i + 1;
        assert(freq@.take(i as int) =~= was.take(i - 1).push((g - 1) as u32));
    }
    assert(freq@.take(256) =~= freq@);
    Ok(freq)
}

} // verus!
