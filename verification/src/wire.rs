use vstd::prelude::*;

verus! {

/// Big-endian byte layout of the header's integer fields, and the packet
/// checksum: the sum of all wire bytes, with the checksum field read as
/// zero, reduced modulo 2^16.

/// The two big-endian bytes of a 16-bit value.
pub open spec fn spec_u16_be(x: u16) -> Seq<u8> {
    seq![((x >> 8) & 0xff) as u8, (x & 0xff) as u8]
}

/// The 16-bit value two big-endian bytes stand for.
pub open spec fn spec_u16_from_be(b0: u8, b1: u8) -> u16 {
    (((b0 as u16) << 8) | (b1 as u16)) as u16
}

/// The four big-endian bytes of a 32-bit value.
pub open spec fn spec_u32_be(x: u32) -> Seq<u8> {
    seq![
        ((x >> 24) & 0xff) as u8,
        ((x >> 16) & 0xff) as u8,
        ((x >> 8) & 0xff) as u8,
        (x & 0xff) as u8,
    ]
}

/// The 32-bit value four big-endian bytes stand for.
pub open spec fn spec_u32_from_be(b0: u8, b1: u8, b2: u8, b3: u8) -> u32 {
    (((b0 as u32) << 24) | ((b1 as u32) << 16) | ((b2 as u32) << 8) | (b3 as u32)) as u32
}

/// Packing a 16-bit value and reading it back are inverse.
pub proof fn lemma_u16_be_round(x: u16)
    ensures
        spec_u16_from_be(spec_u16_be(x)[0], spec_u16_be(x)[1]) == x,
{
    let b0 = ((x >> 8) & 0xff) as u8;
    let b1 = (x & 0xff) as u8;
    assert((((b0 as u16) << 8) | (b1 as u16)) as u16 == x
        && b0 == ((x >> 8) & 0xff) as u8 && b1 == (x & 0xff) as u8) by (bit_vector)
        requires
            b0 == ((x >> 8) & 0xff) as u8,
            b1 == (x & 0xff) as u8,
    ;
}

/// Packing a 32-bit value and reading it back are inverse.
pub proof fn lemma_u32_be_round(x: u32)
    ensures
        spec_u32_from_be(
            spec_u32_be(x)[0],
            spec_u32_be(x)[1],
            spec_u32_be(x)[2],
            spec_u32_be(x)[3],
        ) == x,
{
    let b0 = ((x >> 24) & 0xff) as u8;
    let b1 = ((x >> 16) & 0xff) as u8;
    let b2 = ((x >> 8) & 0xff) as u8;
    let b3 = (x & 0xff) as u8;
    assert((((b0 as u32) << 24) | ((b1 as u32) << 16) | ((b2 as u32) << 8) | (b3 as u32)) as u32
        == x) by (bit_vector)
        requires
            b0 == ((x >> 24) & 0xff) as u8,
            b1 == ((x >> 16) & 0xff) as u8,
            b2 == ((x >> 8) & 0xff) as u8,
            b3 == (x & 0xff) as u8,
    ;
}

/// Append the two big-endian bytes of `x`.
pub fn push_u16_be(out: &mut Vec<u8>, x: u16)
    ensures
        final(out)@ == old(out)@ + spec_u16_be(x),
{
    out.push(((x >> 8) & 0xff) as u8);
    out.push((x & 0xff) as u8);
    assert(out@ =~= old(out)@ + spec_u16_be(x));
}

/// Append the four big-endian bytes of `x`.
pub fn push_u32_be(out: &mut Vec<u8>, x: u32)
    ensures
        final(out)@ == old(out)@ + spec_u32_be(x),
{
    out.push(((x >> 24) & 0xff) as u8);
    out.push(((x >> 16) & 0xff) as u8);
    out.push(((x >> 8) & 0xff) as u8);
    out.push((x & 0xff) as u8);
    assert(out@ =~= old(out)@ + spec_u32_be(x));
}

/// Read a big-endian 16-bit value at offset `i`.
pub fn read_u16_be(b: &[u8], i: usize) -> (r: u16)
    requires
        i + 2 <= b@.len(),
    ensures
        r == spec_u16_from_be(b@[i as int], b@[i + 1]),
{
    ((b[i] as u16) << 8) | (b[i + 1] as u16)
}

/// Read a big-endian 32-bit value at offset `i`.
pub fn read_u32_be(b: &[u8], i: usize) -> (r: u32)
    requires
        i + 4 <= b@.len(),
    ensures
        r == spec_u32_from_be(b@[i as int], b@[i + 1], b@[i + 2], b@[i + 3]),
{
    ((b[i] as u32) << 24) | ((b[i + 1] as u32) << 16) | ((b[i + 2] as u32) << 8) | (b[i
        + 3] as u32)
}

/// The sum of a byte sequence, as an unbounded integer.
pub open spec fn byte_sum(s: Seq<u8>) -> int
    decreases s.len(),
{
    if s.len() == 0 {
        0
    } else {
        byte_sum(s.drop_last()) + s.last()
    }
}

/// A byte sum is never negative.
pub proof fn lemma_byte_sum_nonneg(s: Seq<u8>)
    ensures
        byte_sum(s) >= 0,
    decreases s.len(),
{
    if s.len() > 0 {
        lemma_byte_sum_nonneg(s.drop_last());
    }
}

/// Byte sums add over concatenation.
pub proof fn lemma_byte_sum_append(a: Seq<u8>, b: Seq<u8>)
    ensures
        byte_sum(a + b) == byte_sum(a) + byte_sum(b),
    decreases b.len(),
{
    if b.len() == 0 {
        assert(a + b =~= a);
    } else {
        lemma_byte_sum_append(a, b.drop_last());
        assert((a + b).drop_last() =~= a + b.drop_last());
        assert((a + b).last() == b.last());
    }
}

/// Replacing one byte shifts the sum by the difference of the bytes.
pub proof fn lemma_byte_sum_update(s: Seq<u8>, i: int, c: u8)
    requires
        0 <= i < s.len(),
    ensures
        byte_sum(s.update(i, c)) == byte_sum(s) - s[i] + c,
    decreases s.len(),
{
    if i == s.len() - 1 {
        assert(s.update(i, c).drop_last() =~= s.drop_last());
        assert(s.update(i, c).last() == c);
    } else {
        lemma_byte_sum_update(s.drop_last(), i, c);
        assert(s.update(i, c).drop_last() =~= s.drop_last().update(i, c));
        assert(s.update(i, c).last() == s.last());
    }
}

/// Sums that differ by less than the modulus leave different residues.
pub proof fn lemma_mod_distinct(a: int, b: int, m: int)
    requires
        a >= 0,
        b >= 0,
        m > 0,
        a != b,
        a - b < m,
        b - a < m,
    ensures
        a % m != b % m,
{
    if a % m == b % m {
        vstd::arithmetic::div_mod::lemma_fundamental_div_mod(a, m);
        vstd::arithmetic::div_mod::lemma_fundamental_div_mod(b, m);
        assert(a - b == m * (a / m - b / m)) by (nonlinear_arith)
            requires
                a == m * (a / m) + a % m,
                b == m * (b / m) + b % m,
                a % m == b % m,
        ;
        assert(a / m == b / m) by (nonlinear_arith)
            requires
                a - b == m * (a / m - b / m),
                a - b < m,
                b - a < m,
                m > 0,
        ;
    }
}

/// The byte sum of a slice's prefix, reduced modulo 2^16.
pub fn sum_slice_mod(b: &[u8]) -> (r: u32)
    ensures
        r == byte_sum(b@) % 0x10000,
{
    let mut sum: u32 = 0;
    let mut i: usize = 0;
    while i < b.len()
        invariant
            i <= b@.len(),
            sum == byte_sum(b@.take(i as int)) % 0x10000,
        decreases b@.len() - i,
    {
        proof {
            lemma_byte_sum_nonneg(b@.take(i as int));
            assert(b@.take(i + 1).drop_last() =~= b@.take(i as int));
            assert(b@.take(i + 1).last() == b@[i as int]);
            vstd::arithmetic::div_mod::lemma_add_mod_noop(
                byte_sum(b@.take(i as int)),
                b@[i as int] as int,
                0x10000,
            );
        }
        sum = (sum + b[i] as u32) % 0x10000;
        i = i + 1;
    }
    proof {
        assert(b@.take(b@.len() as int) =~= b@);
    }
    sum
}

} // verus!
