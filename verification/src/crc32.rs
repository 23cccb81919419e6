//! CRC-32 (IEEE 802.3), the checksum used by zip, gzip and png.
//!
//! Table-driven, one byte at a time.
//! Reference: <https://en.wikipedia.org/wiki/Cyclic_redundancy_check>
use vstd::prelude::*;

verus! {

/// Reversed form of the polynomial x^32 + x^26 + x^23 + ... + x + 1.
const POLY: u32 = 0xEDB8_8320;

/// One step of the division by the polynomial: the lowest bit leaves.
pub open spec fn crc_bit(c: u32) -> u32 {
    if c & 1 != 0 {
        (c >> 1) ^ 0xEDB8_8320
    } else {
        c >> 1
    }
}

/// `n` steps of the division.
pub open spec fn crc_bits(c: u32, n: nat) -> u32
    decreases n,
{
    if n == 0 {
        c
    } else {
        crc_bit(crc_bits(c, (n - 1) as nat))
    }
}

/// The remainder after one more byte.
pub open spec fn crc_byte(c: u32, b: u8) -> u32 {
    crc_bits(c ^ b as u32, 8)
}

/// The remainder after `data`, starting from `c`.
pub open spec fn crc_state(c: u32, data: Seq<u8>) -> u32
    decreases data.len(),
{
    if data.len() == 0 {
        c
    } else {
        crc_byte(crc_state(c, data.drop_last()), data.last())
    }
}

/// The CRC-32 of `data`.
pub open spec fn crc_of(data: Seq<u8>) -> u32 {
    !crc_state(0xFFFF_FFFF, data)
}

/// Data may come in pieces: going on from the remainder of the first piece
/// gives the remainder of the whole.
pub proof fn pieces_add_up(c: u32, a: Seq<u8>, b: Seq<u8>)
    ensures
        crc_state(crc_state(c, a), b) == crc_state(c, a + b),
    decreases b.len(),
{
    if b.len() == 0 {
        assert(a + b =~= a);
    } else {
        pieces_add_up(c, a, b.drop_last());
        assert((a + b).drop_last() =~= a + b.drop_last());
    }
}

/// The CRC of a whole goes on from the CRC of its front, whatever their
/// lengths, and the CRC of nothing is 0.
pub proof fn crc_goes_on(a: Seq<u8>, b: Seq<u8>)
    ensures
        crc_of(Seq::empty()) == 0,
        crc_of(a + b) == !crc_state(!crc_of(a), b),
        crc_of(a + b) == !crc_state(crc_state(0xFFFF_FFFF, a), b),
{
    let x = crc_state(0xFFFF_FFFF, a);
    pieces_add_up(0xFFFF_FFFF, a, b);
    assert(!(!x) == x) by (bit_vector);
    assert(!0xFFFF_FFFFu32 == 0) by (bit_vector);
}

/// One more byte at the end.
pub proof fn crc_of_one_more(data: Seq<u8>, b: u8)
    ensures
        crc_of(data.push(b)) == !crc_byte(!crc_of(data), b),
{
    let x = crc_state(0xFFFF_FFFF, data);
    assert(data.push(b).drop_last() =~= data);
    assert(!(!x) == x) by (bit_vector);
}

/// Eight steps at once.
proof fn lemma_steps(c: u32)
    ensures
        crc_bits(c, 8) == crc_bit(
            crc_bit(crc_bit(crc_bit(crc_bit(crc_bit(crc_bit(crc_bit(c))))))),
        ),
{
    reveal_with_fuel(crc_bits, 9);
}

/// Remainders are linear: differences between two streams pass through the
/// division on their own.
pub proof fn remainders_are_linear(c: u32, d: u32, a: u8, b: u8)
    ensures
        crc_byte(c ^ d, a ^ b) == crc_byte(c, a) ^ crc_byte(d, b),
        crc_byte(0, 0) == 0,
{
    let x = c ^ a as u32;
    let y = d ^ b as u32;
    assert((c ^ d) ^ ((a ^ b) as u32) == (c ^ a as u32) ^ (d ^ b as u32)) by (bit_vector);
    assert(0u32 ^ 0u8 as u32 == 0) by (bit_vector);
    lemma_steps(0);
    assert(crc_bit(0) == 0) by (bit_vector);
    lemma_steps_linear(x, y);
}

proof fn lemma_steps_linear(x: u32, y: u32)
    ensures
        crc_bits(x ^ y, 8) == crc_bits(x, 8) ^ crc_bits(y, 8),
{
    reveal_with_fuel(crc_bits, 9);
    lemma_bit_linear(x, y);
    let (x1, y1) = (crc_bit(x), crc_bit(y));
    lemma_bit_linear(x1, y1);
    let (x2, y2) = (crc_bit(x1), crc_bit(y1));
    lemma_bit_linear(x2, y2);
    let (x3, y3) = (crc_bit(x2), crc_bit(y2));
    lemma_bit_linear(x3, y3);
    let (x4, y4) = (crc_bit(x3), crc_bit(y3));
    lemma_bit_linear(x4, y4);
    let (x5, y5) = (crc_bit(x4), crc_bit(y4));
    lemma_bit_linear(x5, y5);
    let (x6, y6) = (crc_bit(x5), crc_bit(y5));
    lemma_bit_linear(x6, y6);
    let (x7, y7) = (crc_bit(x6), crc_bit(y6));
    lemma_bit_linear(x7, y7);
}

proof fn lemma_bit_linear(x: u32, y: u32)
    ensures
        crc_bit(x ^ y) == crc_bit(x) ^ crc_bit(y),
{
    assert(crc_bit(x ^ y) == crc_bit(x) ^ crc_bit(y)) by (bit_vector);
}

/// What a byte leaves behind, from byte to byte: half of a byte is one step
/// further in the division by the polynomial, the upper bits of a remainder
/// just move down, and the highest bit of a byte leaves the polynomial.
pub proof fn bytes_divide(c: u32, b: u8)
    ensures
        crc_byte(c, b) == crc_byte(0, b ^ (c & 0xFF) as u8) ^ (c >> 8),
        b < 128 ==> crc_byte(0, b) == {
            let t = crc_byte(0, (2 * b) as u8);
            if t & 1 != 0 {
                (t >> 1) ^ 0xEDB8_8320
            } else {
                t >> 1
            }
        },
        crc_byte(0, 128) == 0xEDB8_8320,
{
    let x = c ^ b as u32;
    lemma_eight(x);
    assert(((c ^ b as u32) & 0xFF) == 0u32 ^ (b ^ (c & 0xFF) as u8) as u32) by (bit_vector);
    assert((c ^ b as u32) >> 8 == c >> 8) by (bit_vector);
    if b < 128 {
        let d = (2 * b) as u8;
        let y = 0u32 ^ d as u32;
        assert(0u32 ^ d as u32 == 2 * b && 0u32 ^ b as u32 == b) by (bit_vector)
            requires
                b < 128,
                d == 2 * b,
        ;
        assert(crc_bit(y) == b as u32) by (bit_vector)
            requires
                y == 2 * b,
                b < 128,
        ;
        lemma_steps(y);
        lemma_steps(b as u32);
    }
    lemma_steps(128);
    assert(0u32 ^ 128u8 as u32 == 128) by (bit_vector);
    assert(crc_bit(crc_bit(crc_bit(crc_bit(crc_bit(crc_bit(crc_bit(crc_bit(128)))))))) ==
        0xEDB8_8320) by (bit_vector);
}

/// No two states step to the same state.
proof fn lemma_bit_injective(c: u32, d: u32)
    requires
        c != d,
    ensures
        crc_bit(c) != crc_bit(d),
{
    assert(crc_bit(c) == crc_bit(d) ==> c == d) by (bit_vector);
}

proof fn lemma_bits_injective(c: u32, d: u32, n: nat)
    requires
        c != d,
    ensures
        crc_bits(c, n) != crc_bits(d, n),
    decreases n,
{
    if n > 0 {
        lemma_bits_injective(c, d, (n - 1) as nat);
        lemma_bit_injective(crc_bits(c, (n - 1) as nat), crc_bits(d, (n - 1) as nat));
    }
}

proof fn lemma_state_injective(c: u32, d: u32, data: Seq<u8>)
    requires
        c != d,
    ensures
        crc_state(c, data) != crc_state(d, data),
    decreases data.len(),
{
    if data.len() > 0 {
        lemma_state_injective(c, d, data.drop_last());
        let x = crc_state(c, data.drop_last());
        let y = crc_state(d, data.drop_last());
        let b = data.last() as u32;
        assert(x != y ==> x ^ b != y ^ b) by (bit_vector);
        lemma_bits_injective(x ^ b, y ^ b, 8);
    }
}

/// A single changed byte always changes the CRC.
pub proof fn changed_byte_is_seen(data: Seq<u8>, i: int, b: u8)
    requires
        0 <= i < data.len(),
        b != data[i],
    ensures
        crc_of(data.update(i, b)) != crc_of(data),
{
    let other = data.update(i, b);
    let front = data.take(i);
    let back = data.skip(i + 1);
    let c = crc_state(0xFFFF_FFFF, front);
    assert(data =~= front.push(data[i]) + back);
    assert(other =~= front.push(b) + back);
    assert(front.push(data[i]).drop_last() =~= front);
    assert(front.push(b).drop_last() =~= front);
    pieces_add_up(0xFFFF_FFFF, front.push(data[i]), back);
    pieces_add_up(0xFFFF_FFFF, front.push(b), back);
    let a = data[i];
    assert(a != b ==> c ^ a as u32 != c ^ b as u32) by (bit_vector);
    lemma_bits_injective(c ^ a as u32, c ^ b as u32, 8);
    lemma_state_injective(crc_byte(c, a), crc_byte(c, b), back);
    let x = crc_state(0xFFFF_FFFF, data);
    let y = crc_state(0xFFFF_FFFF, other);
    assert(x != y ==> !x != !y) by (bit_vector);
}

/// Eight steps move the upper bits down, and depend on the lowest byte
/// alone otherwise.
proof fn lemma_eight(x: u32)
    ensures
        crc_bits(x, 8) == crc_bits(x & 0xFF, 8) ^ (x >> 8),
{
    reveal_with_fuel(crc_bits, 9);
    let y = x & 0xFF;
    assert(crc_bit(crc_bit(crc_bit(crc_bit(crc_bit(crc_bit(crc_bit(crc_bit(x)))))))) == crc_bit(
        crc_bit(crc_bit(crc_bit(crc_bit(crc_bit(crc_bit(crc_bit(x & 0xFF))))))),
    ) ^ (x >> 8)) by (bit_vector);
}

/// The remainders of the 256 bytes.
fn build_table() -> (r: [u32; 256])
    ensures
        forall|i: int| 0 <= i < 256 ==> #[trigger] r@[i] == crc_bits(i as u32, 8),
{
    let mut table: [u32; 256] = [0;256];
    let mut i: usize = 0;
    while i < 256
        invariant
            i <= 256,
            forall|k: int| 0 <= k < i ==> #[trigger] table@[k] == crc_bits(k as u32, 8),
        decreases 256 - i,
    {
        let mut crc: u32 = i as u32;
        let mut bit: usize = 0;
        while bit < 8
            invariant
                bit <= 8,
                crc == crc_bits(i as u32, bit as nat),
            decreases 8 - bit,
        {
            crc = if crc & 1 != 0 {
                (crc >> 1) ^ POLY
            } else {
                crc >> 1
            };
            bit = bit + 1;
        }
        table[i] = crc;
        i = i + 1;
    }
    table
}

/// Incremental CRC-32 for data that arrives in pieces.
#[derive(Debug, Clone, Copy)]
pub struct Crc32 {
    state: u32,
}

impl Default for Crc32 {
    fn default() -> (r: Self)
        ensures
            r.state() == 0xFFFF_FFFF,
    {
        Self::new()
    }
}

impl Crc32 {
    /// The remainder of what came so far.
    pub closed spec fn state(&self) -> u32 {
        self.state
    }

    pub fn new() -> (r: Self)
        ensures
            r.state() == 0xFFFF_FFFF,
    {
        Self { state: 0xFFFF_FFFF }
    }

    pub fn update(&mut self, data: &[u8])
        ensures
            final(self).state() == crc_state(old(self).state(), data@),
    {
        let table = build_table();
        let mut crc: u32 = self.state;
        let mut i: usize = 0;
        assert(data@.take(0) =~= Seq::<u8>::empty());
        while i < data.len()
            invariant
                i <= data@.len(),
                forall|k: int| 0 <= k < 256 ==> #[trigger] table@[k] == crc_bits(k as u32, 8),
                crc == crc_state(old(self).state(), data@.take(i as int)),
            decreases data@.len() - i,
        {
            let byte: u8 = data[i];
            proof {
                assert(data@.take(i + 1).drop_last() =~= data@.take(i as int));
                let x = crc ^ byte as u32;
                lemma_eight(x);
                assert((crc ^ byte as u32) & 0xFF < 256 && (crc ^ byte as u32) >> 8 == crc >> 8)
                    by (bit_vector);
            }
            crc = table[((crc ^ byte as u32) & 0xFF) as usize] ^ (crc >> 8);
            i = i + 1;
        }
        assert(data@.take(i as int) =~= data@);
        self.state = crc;
    }

    pub fn finish(&self) -> (r: u32)
        ensures
            r == !self.state(),
    {
        !self.state
    }
}

/// CRC-32 of a whole buffer.
pub fn crc32(data: &[u8]) -> (r: u32)
    ensures
        r == crc_of(data@),
{
    let mut c = Crc32::new();
    c.update(data);
    c.finish()
}

} // verus!
