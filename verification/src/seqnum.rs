use vstd::prelude::*;

verus! {

/// Arithmetic on 32-bit sequence numbers.
///
/// The sequence space is circular: every comparison and every distance is
/// taken modulo 2^32, never as a plain unsigned compare.  A sequence number
/// `b` is "after" `a` when the forward distance from `a` to `b` is less than
/// half the space.

/// Wrapping addition in the sequence space.
pub open spec fn w_add(a: u32, n: u32) -> u32 {
    if a + n < 0x1_0000_0000 {
        (a + n) as u32
    } else {
        (a + n - 0x1_0000_0000) as u32
    }
}

/// Forward distance from `b` to `a` in the sequence space:
/// the unique `d` with `w_add(b, d) == a`.
pub open spec fn w_sub(a: u32, b: u32) -> u32 {
    if a >= b {
        (a - b) as u32
    } else {
        (a - b + 0x1_0000_0000) as u32
    }
}

/// `a` strictly precedes `b` in circular order.
pub open spec fn s_lt(a: u32, b: u32) -> bool {
    a != b && w_sub(b, a) < 0x8000_0000
}

/// Wrapping addition, executable.
pub fn seq_add(a: u32, n: u32) -> (r: u32)
    ensures
        r == w_add(a, n),
{
    let s: u64 = a as u64 + n as u64;
    if s < 0x1_0000_0000 {
        s as u32
    } else {
        (s - 0x1_0000_0000) as u32
    }
}

/// Forward distance, executable.
pub fn seq_sub(a: u32, b: u32) -> (r: u32)
    ensures
        r == w_sub(a, b),
{
    if a >= b {
        a - b
    } else {
        ((a as u64 + 0x1_0000_0000) - b as u64) as u32
    }
}

/// Circular strict precedence, executable.
pub fn seq_lt(a: u32, b: u32) -> (r: bool)
    ensures
        r == s_lt(a, b),
{
    a != b && seq_sub(b, a) < 0x8000_0000
}

/// Adding a distance and taking it back are inverse.
pub proof fn lemma_add_sub(a: u32, d: u32)
    ensures
        w_sub(w_add(a, d), a) == d,
{
}

/// Taking a distance and adding it back are inverse.
pub proof fn lemma_sub_add(a: u32, b: u32)
    ensures
        w_add(b, w_sub(a, b)) == a,
{
}

/// Forward distances compose as long as they stay within the space.
pub proof fn lemma_add_add(a: u32, m: u32, n: u32)
    requires
        m + n < 0x1_0000_0000,
    ensures
        w_add(w_add(a, m), n) == w_add(a, (m + n) as u32),
{
}

/// Within half the space, circular order between two points after `base`
/// agrees with the order of their distances from `base`.
pub proof fn lemma_order_by_distance(base: u32, d1: u32, d2: u32)
    requires
        d1 < 0x8000_0000,
        d2 < 0x8000_0000,
    ensures
        s_lt(w_add(base, d1), w_add(base, d2)) == (d1 < d2),
        w_sub(w_add(base, d2), w_add(base, d1)) == if d2 >= d1 {
            (d2 - d1) as u32
        } else {
            ((d2 - d1) + 0x1_0000_0000) as u32
        },
{
}

} // verus!
