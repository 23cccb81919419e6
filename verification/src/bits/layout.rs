//! Where each bit stands.
use crate::bits::bits_of;
use crate::bits::bytes_bits;
use crate::bits::gamma_bits;
use crate::bits::lemma_bits_of_len;
use crate::bits::lemma_ilog2_unique;
use crate::bits::padded;
use crate::bits::take_gamma;
use crate::bits::zeros;
use crate::error::Error;
use crate::nums::lemma_pow2_values;
use vstd::arithmetic::power2::lemma_pow2_pos;
use vstd::arithmetic::power2::lemma_pow2_unfold;
use vstd::arithmetic::power2::pow2;
use vstd::prelude::*;

verus! {

/// Bit `i` of a field is bit `i` of its number: the lowest comes first.
pub proof fn bits_go_up(v: nat, n: nat, i: nat)
    requires
        i < n,
    ensures
        bits_of(v, n).len() == n,
        bits_of(v, n)[i as int] == (v / pow2(i) % 2 == 1),
    decreases i,
{
    lemma_pow2_values();
    lemma_bits_of_len(v, n);
    lemma_bits_of_len(v / 2, (n - 1) as nat);
    if i > 0 {
        let m = (i - 1) as nat;
        bits_go_up(v / 2, (n - 1) as nat, m);
        lemma_pow2_unfold(i);
        lemma_pow2_pos(m);
        vstd::arithmetic::div_mod::lemma_div_denominator(v as int, 2, pow2(m) as int);
        assert(2 * pow2(m) == pow2(i));
    } else {
        assert(v / pow2(0) == v);
    }
}

/// Bits fill each byte from its lowest bit up.
pub proof fn bytes_fill_up(b: Seq<u8>, i: int)
    requires
        0 <= i < 8 * b.len(),
    ensures
        bytes_bits(b).len() == 8 * b.len(),
        bytes_bits(b)[i] == (b[i / 8] as nat / pow2((i % 8) as nat) % 2 == 1),
{
    bits_go_up(b[i / 8] as nat, 8, (i % 8) as nat);
}

/// What does not fill its last byte is padded with zeros, and no more than
/// it takes.
pub proof fn padding_is_least(s: Seq<bool>, i: int)
    ensures
        s.len() <= padded(s).len() < s.len() + 8,
        padded(s).len() % 8 == 0,
        0 <= i < s.len() ==> padded(s)[i] == s[i],
        s.len() <= i < padded(s).len() ==> !padded(s)[i],
{
}

/// The gamma code of a number whose highest bit is worth `2^e`: `e` zeros, a
/// one, and the `e` bits below it from the lowest up. `64` zeros are no code.
pub proof fn gamma_codes_are_laid_out(n: nat, e: nat, s: Seq<bool>)
    requires
        pow2(e) <= n < pow2(e + 1),
    ensures
        gamma_bits(n) == Seq::new(e, |i: int| false) + seq![true] + bits_of(
            (n - pow2(e)) as nat,
            e,
        ),
        gamma_bits(n).len() == 2 * e + 1,
        take_gamma(zeros(64) + s) == Err::<(nat, Seq<bool>), Error>(
            Error::Corrupt("gamma code longer than 64 bits"),
        ),
{
    lemma_ilog2_unique(n, e);
    lemma_bits_of_len((n - pow2(e)) as nat, e);
    lemma_zeros_lead(64, s);
}

proof fn lemma_zeros_lead(n: nat, s: Seq<bool>)
    ensures
        crate::bits::leading_zero_bits(zeros(n) + s) >= n,
    decreases n,
{
    if n > 0 {
        let all = zeros(n) + s;
        assert(all.skip(1) =~= zeros((n - 1) as nat) + s);
        lemma_zeros_lead((n - 1) as nat, s);
    }
}

} // verus!
