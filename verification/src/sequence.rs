//! Wraparound-aware arithmetic on the 16-bit sequence number space.

use vstd::arithmetic::div_mod::lemma_fundamental_div_mod;
use vstd::prelude::*;

verus! {

/// Half of the 16-bit sequence space; the cutoff for deciding whether one
/// sequence number is "ahead" of another.
pub const SEQUENCE_HALF: u16 = 32768;

/// `a` is cyclically greater than `b` in the 16-bit sequence space.
pub open spec fn spec_sequence_greater_than(a: u16, b: u16) -> bool {
    ||| (a > b && a - b <= SEQUENCE_HALF)
    ||| (a < b && b - a > SEQUENCE_HALF)
}

/// Wraparound-aware comparison of 16-bit sequence numbers: a number is
/// considered newer than another when it is at most half the sequence
/// space ahead of it, counting with wraparound.
pub fn sequence_greater_than(previous: u16, next: u16) -> (r: bool)
    ensures
        r == spec_sequence_greater_than(previous, next),
{
    ((previous > next) && (previous - next <= SEQUENCE_HALF))
        || ((previous < next) && (next - previous > SEQUENCE_HALF))
}

/// The comparison is irreflexive and asymmetric: no two sequence numbers
/// are each cyclically greater than the other.
pub proof fn lemma_sequence_greater_than_asymmetric(a: u16, b: u16)
    ensures
        !(spec_sequence_greater_than(a, b) && spec_sequence_greater_than(b, a)),
{
}

/// The successor of any sequence number, with 16-bit wraparound, is
/// cyclically greater than the number itself.
pub proof fn lemma_sequence_successor_greater(a: u16)
    ensures
        spec_sequence_greater_than(((a + 1) % 0x10000) as u16, a),
{
}

/// The packet number carried by the `k`-th sequenced send after the
/// outbound counter stood at `start`.
pub open spec fn spec_nth_packet_number(start: u16, k: nat) -> u16 {
    ((start + k) % 0x10000) as u16
}

/// Advancing the counter once more is one more step in the number
/// stream.
pub proof fn lemma_nth_packet_number_step(start: u16, k: nat)
    ensures
        spec_nth_packet_number(start, k + 1) == ((spec_nth_packet_number(start, k) + 1)
            % 0x10000) as u16,
{
    let a = start + k;
    lemma_fundamental_div_mod(a, 0x10000);
    lemma_fundamental_div_mod(a + 1, 0x10000);
    let q = a / 0x10000;
    let r = a % 0x10000;
    if r == 0x10000 - 1 {
        assert((a + 1) == 0x10000 * (q + 1) + 0) by (nonlinear_arith)
            requires
                a == 0x10000 * q + r,
                r == 0x10000 - 1,
        ;
        assert((0x10000 * (q + 1) + 0) % 0x10000 == 0) by (nonlinear_arith);
        assert((r + 1) % 0x10000 == 0);
    } else {
        assert((a + 1) == 0x10000 * q + (r + 1)) by (nonlinear_arith)
            requires
                a == 0x10000 * q + r,
        ;
        assert((0x10000 * q + (r + 1)) % 0x10000 == r + 1) by (nonlinear_arith)
            requires
                0 <= r + 1 < 0x10000,
        ;
        assert((r + 1) % 0x10000 == r + 1);
    }
}

/// Sequence monotonicity: within any window of 2^16 consecutive
/// sequenced sends, no two datagrams carry the same packet number.
pub proof fn lemma_packet_numbers_distinct(start: u16, i: nat, j: nat)
    requires
        i < j,
        j - i < 0x10000,
    ensures
        spec_nth_packet_number(start, i) != spec_nth_packet_number(start, j),
{
    let a = start + i;
    let b = start + j;
    lemma_fundamental_div_mod(a, 0x10000);
    lemma_fundamental_div_mod(b, 0x10000);
    let qa = a / 0x10000;
    let qb = b / 0x10000;
    if a % 0x10000 == b % 0x10000 {
        assert(b - a == 0x10000 * (qb - qa)) by (nonlinear_arith)
            requires
                a == 0x10000 * qa + a % 0x10000,
                b == 0x10000 * qb + b % 0x10000,
                a % 0x10000 == b % 0x10000,
        ;
        assert(0 < b - a < 0x10000);
        assert(false) by (nonlinear_arith)
            requires
                b - a == 0x10000 * (qb - qa),
                0 < b - a < 0x10000,
        ;
    }
}

} // verus!
