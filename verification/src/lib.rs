//! A variable-length quantity (VLQ) codec.
//!
//! An unsigned integer is stored base 128, most-significant group first.
//! Each byte carries seven payload bits in its low half; the high bit
//! (value 128) marks the final, least-significant byte, so a decoder
//! embedded in a larger byte stream knows where the number ends.

use vstd::prelude::*;

verus! {

/// The base-128 digits of `m`, most significant first, with no marker
/// bit: the bytes that stand before the final byte of an encoding.
/// Empty when `m` is zero.
pub open spec fn high_groups(m: nat) -> Seq<u8>
    decreases m,
{
    if m == 0 {
        Seq::empty()
    } else {
        high_groups(m / 128) + seq![(m % 128) as u8]
    }
}

/// The encoding of `n`: the high groups of `n / 128`, then one final
/// byte holding the marker bit and the low seven bits of `n`.
pub open spec fn encoded(n: nat) -> Seq<u8> {
    high_groups(n / 128) + seq![(n % 128 + 128) as u8]
}

/// Appends the high groups of `m` to `bytes`.
fn push_high_groups(m: usize, bytes: &mut Vec<u8>)
    ensures
        final(bytes)@ == old(bytes)@ + high_groups(m as nat),
    decreases m,
{
    if m == 0 {
        assert(bytes@ =~= old(bytes)@ + high_groups(0));
    } else {
        push_high_groups(m / 128, bytes);
        bytes.push((m % 128) as u8);
        assert(bytes@ =~= old(bytes)@ + high_groups(m as nat));
    }
}

/// Encodes `n` as a minimal big-endian sequence of seven-bit groups,
/// the last byte carrying the marker bit.
pub fn split_number(n: usize) -> (bytes: Vec<u8>)
    ensures
        bytes@ == encoded(n as nat),
{
    let mut bytes: Vec<u8> = Vec::new();
    push_high_groups(n / 128, &mut bytes);
    bytes.push((n % 128 + 128) as u8);
    assert(bytes@ =~= encoded(n as nat));
    bytes
}

/// Folds `bytes` into the accumulator `acc` exactly as decoding does:
/// each byte shifts the accumulator up by seven bits and contributes its
/// low seven bits, and the first byte carrying the marker bit ends the
/// fold, so anything after it is ignored. An input without a marker byte
/// is folded whole.
pub open spec fn decoded_from(bytes: Seq<u8>, acc: nat) -> nat
    decreases bytes.len(),
{
    if bytes.len() == 0 {
        acc
    } else {
        let next: nat = acc * 128 + (bytes[0] as nat) % 128;
        if bytes[0] >= 128 {
            next
        } else {
            decoded_from(bytes.skip(1), next)
        }
    }
}

/// The value held by the prefix of `bytes` up to and including the first
/// marker byte: all of `bytes` when no byte carries the marker, zero
/// when `bytes` is empty.
pub open spec fn decoded(bytes: Seq<u8>) -> nat {
    decoded_from(bytes, 0)
}

/// One decoding step on a machine word: shifting `w` up by seven bits
/// and adding a seven-bit group, both wrapping, tracks the unbounded
/// accumulator `a` modulo one more than `usize::MAX`.
proof fn lemma_wrapped_step(a: nat, w: usize, d: usize)
    requires
        w as nat == a % (usize::MAX as nat + 1),
        d < 128,
    ensures
        w.wrapping_mul(128).wrapping_add(d) as nat == (a * 128 + d as nat) % (usize::MAX as nat + 1),
{
    let m: int = usize::MAX as int + 1;
    let shifted: usize = w.wrapping_mul(128);
    vstd::arithmetic::div_mod::lemma_mod_division_less_than_divisor(w as int * 128, m);
    vstd::arithmetic::div_mod::lemma_mul_mod_noop_left(a as int, 128, m);
    assert(shifted as int == (a as int * 128) % m);
    vstd::arithmetic::div_mod::lemma_mod_division_less_than_divisor(a as int * 128, m);
    let total: int = shifted as int + d as int;
    if total > usize::MAX as int {
        vstd::arithmetic::div_mod::lemma_mod_sub_multiples_vanish(total, m);
        vstd::arithmetic::div_mod::lemma_small_mod((total - m) as nat, m as nat);
        assert(shifted.wrapping_add(d) as int == total % m);
    } else {
        vstd::arithmetic::div_mod::lemma_small_mod(total as nat, m as nat);
        assert(shifted.wrapping_add(d) as int == total % m);
    }
    vstd::arithmetic::div_mod::lemma_small_mod(d as nat, m as nat);
    vstd::arithmetic::div_mod::lemma_add_mod_noop(a as int * 128, d as int, m);
}

/// Decodes the prefix of `bytes` up to and including the first marker
/// byte, ignoring anything after it; an input without a marker byte is
/// folded whole. The accumulated value wraps at the machine word width,
/// so the result equals the decoded value reduced modulo one more than
/// `usize::MAX` — and the decoded value itself whenever that fits.
pub fn build_number(bytes: Vec<u8>) -> (n: usize)
    ensures
        n as nat == decoded(bytes@) % (usize::MAX as nat + 1),
        decoded(bytes@) <= usize::MAX ==> n as nat == decoded(bytes@),
{
    let mut n: usize = 0;
    let mut k: usize = 0;
    let ghost mut acc: nat = 0nat;
    proof {
        assert(bytes@.skip(0) =~= bytes@);
    }
    while k < bytes.len()
        invariant_except_break
            k <= bytes.len(),
            n as nat == acc % (usize::MAX as nat + 1),
            decoded(bytes@) == decoded_from(bytes@.skip(k as int), acc),
        ensures
            n as nat == decoded(bytes@) % (usize::MAX as nat + 1),
        decreases bytes@.len() - k,
    {
        let byte: u8 = bytes[k];
        let low: u8 = byte % 128;
        proof {
            lemma_wrapped_step(acc, n, low as usize);
            assert(bytes@.skip(k as int)[0] == byte);
            assert(bytes@.skip(k as int).skip(1) =~= bytes@.skip(k as int + 1));
        }
        n = n.wrapping_mul(128).wrapping_add(low as usize);
        proof {
            acc = acc * 128 + (byte as nat) % 128;
        }
        if byte >= 128 {
            break;
        }
        k = k + 1;
    }
    proof {
        vstd::arithmetic::div_mod::lemma_mod_division_less_than_divisor(
            decoded(bytes@) as int,
            usize::MAX as int + 1,
        );
        if decoded(bytes@) <= usize::MAX {
            vstd::arithmetic::div_mod::lemma_small_mod(decoded(bytes@), usize::MAX as nat + 1);
        }
    }
    n
}

/// The accumulator after the high groups of `m` are folded into `acc`:
/// every digit shifts the earlier contributions up by seven bits.
spec fn folded_high_groups(acc: nat, m: nat) -> nat
    decreases m,
{
    if m == 0 {
        acc
    } else {
        folded_high_groups(acc, m / 128) * 128 + m % 128
    }
}

proof fn lemma_folded_high_groups_from_zero(m: nat)
    ensures
        folded_high_groups(0, m) == m,
    decreases m,
{
    if m > 0 {
        lemma_folded_high_groups_from_zero(m / 128);
        vstd::arithmetic::div_mod::lemma_fundamental_div_mod(m as int, 128);
    }
}

/// High groups carry no marker bit, so decoding folds them all into the
/// accumulator and goes on with whatever follows them.
proof fn lemma_decode_past_high_groups(m: nat, tail: Seq<u8>, acc: nat)
    ensures
        decoded_from(high_groups(m) + tail, acc) == decoded_from(tail, folded_high_groups(acc, m)),
    decreases m,
{
    if m == 0 {
        assert(high_groups(0) + tail =~= tail);
    } else {
        let digit: u8 = (m % 128) as u8;
        assert(high_groups(m) + tail =~= high_groups(m / 128) + (seq![digit] + tail));
        lemma_decode_past_high_groups(m / 128, seq![digit] + tail, acc);
        assert((seq![digit] + tail)[0] == digit);
        assert((seq![digit] + tail).skip(1) =~= tail);
        vstd::arithmetic::div_mod::lemma_small_mod(m % 128, 128);
    }
}

/// Decoding stops at the first marker byte, so bytes appended after a
/// valid encoding leave the decoded value untouched.
pub proof fn lemma_trailing_bytes_ignored(n: nat, extra: Seq<u8>)
    ensures
        decoded(encoded(n) + extra) == n,
{
    let last: u8 = (n % 128 + 128) as u8;
    assert(encoded(n) + extra =~= high_groups(n / 128) + (seq![last] + extra));
    lemma_decode_past_high_groups(n / 128, seq![last] + extra, 0);
    lemma_folded_high_groups_from_zero(n / 128);
    assert((seq![last] + extra)[0] == last);
    vstd::arithmetic::div_mod::lemma_small_mod(n % 128, 128);
    vstd::arithmetic::div_mod::lemma_mod_add_multiples_vanish(n as int % 128, 128);
    vstd::arithmetic::div_mod::lemma_fundamental_div_mod(n as int, 128);
}

/// The codec round-trips: decoding an encoding returns the value that
/// was encoded, for every unsigned integer.
pub proof fn lemma_round_trip(n: nat)
    ensures
        decoded(encoded(n)) == n,
{
    lemma_trailing_bytes_ignored(n, Seq::<u8>::empty());
    assert(encoded(n) + Seq::<u8>::empty() =~= encoded(n));
}

proof fn lemma_high_groups_carry_no_marker(m: nat)
    ensures
        forall|i: int| 0 <= i < high_groups(m).len() ==> high_groups(m)[i] < 128,
    decreases m,
{
    if m > 0 {
        lemma_high_groups_carry_no_marker(m / 128);
        let prefix: Seq<u8> = high_groups(m / 128);
        assert forall|i: int| 0 <= i < high_groups(m).len() implies high_groups(m)[i] < 128 by {
            if i < prefix.len() {
                assert(high_groups(m)[i] == prefix[i]);
            } else {
                assert(high_groups(m)[i] == (m % 128) as u8);
            }
        }
    }
}

/// Exactly one byte of an encoding carries the marker bit: the last.
pub proof fn lemma_marker_only_on_last(n: nat)
    ensures
        encoded(n).len() >= 1,
        encoded(n).last() >= 128,
        forall|i: int| 0 <= i < encoded(n).len() - 1 ==> encoded(n)[i] < 128,
{
    lemma_high_groups_carry_no_marker(n / 128);
    assert(encoded(n).last() == (n % 128 + 128) as u8);
}

proof fn lemma_leading_digit_nonzero(m: nat)
    requires
        m > 0,
    ensures
        high_groups(m).len() >= 1,
        high_groups(m)[0] != 0,
    decreases m,
{
    if m / 128 > 0 {
        lemma_leading_digit_nonzero(m / 128);
        assert(high_groups(m)[0] == high_groups(m / 128)[0]);
    } else {
        vstd::arithmetic::div_mod::lemma_fundamental_div_mod(m as int, 128);
        vstd::arithmetic::div_mod::lemma_mod_division_less_than_divisor(m as int, 128);
        assert(high_groups(0nat).len() == 0);
        assert(high_groups(m)[0] == (m % 128) as u8);
    }
}

/// Except for the single-byte encoding of zero, an encoding never begins
/// with a byte whose seven payload bits are all zero.
pub proof fn lemma_no_leading_zero_payload(n: nat)
    requires
        n > 0,
    ensures
        (encoded(n)[0] as nat) % 128 != 0,
{
    if n < 128 {
        assert(encoded(n)[0] == (n % 128 + 128) as u8);
        vstd::arithmetic::div_mod::lemma_small_mod(n, 128);
        vstd::arithmetic::div_mod::lemma_mod_add_multiples_vanish(n as int, 128);
    } else {
        lemma_leading_digit_nonzero(n / 128);
        lemma_high_groups_carry_no_marker(n / 128);
        assert(encoded(n)[0] == high_groups(n / 128)[0]);
        vstd::arithmetic::div_mod::lemma_small_mod(encoded(n)[0] as nat, 128);
    }
}

/// The number of binary digits of `n`; zero for zero.
pub open spec fn bit_length(n: nat) -> nat
    decreases n,
{
    if n == 0 {
        0
    } else {
        1 + bit_length(n / 2)
    }
}

proof fn lemma_bit_length_below_pow2(n: nat, k: nat)
    requires
        n < vstd::arithmetic::power2::pow2(k),
    ensures
        bit_length(n) <= k,
    decreases n,
{
    if n > 0 {
        vstd::arithmetic::power2::lemma2_to64();
        vstd::arithmetic::power2::lemma_pow2_unfold(k);
        vstd::arithmetic::div_mod::lemma_fundamental_div_mod(n as int, 2);
        vstd::arithmetic::div_mod::lemma_mod_division_less_than_divisor(n as int, 2);
        lemma_bit_length_below_pow2(n / 2, (k - 1) as nat);
    }
}

proof fn lemma_bit_length_div128(n: nat)
    requires
        n >= 128,
    ensures
        bit_length(n) == 7 + bit_length(n / 128),
{
    let n1: nat = n / 2;
    let n2: nat = n1 / 2;
    let n3: nat = n2 / 2;
    let n4: nat = n3 / 2;
    let n5: nat = n4 / 2;
    let n6: nat = n5 / 2;
    let n7: nat = n6 / 2;
    vstd::arithmetic::div_mod::lemma_div_denominator(n as int, 2, 2);
    vstd::arithmetic::div_mod::lemma_div_denominator(n as int, 4, 2);
    vstd::arithmetic::div_mod::lemma_div_denominator(n as int, 8, 2);
    vstd::arithmetic::div_mod::lemma_div_denominator(n as int, 16, 2);
    vstd::arithmetic::div_mod::lemma_div_denominator(n as int, 32, 2);
    vstd::arithmetic::div_mod::lemma_div_denominator(n as int, 64, 2);
    assert(n7 == n / 128);
    vstd::arithmetic::div_mod::lemma_div_is_ordered(128, n as int, 2);
    vstd::arithmetic::div_mod::lemma_div_is_ordered(64, n1 as int, 2);
    vstd::arithmetic::div_mod::lemma_div_is_ordered(32, n2 as int, 2);
    vstd::arithmetic::div_mod::lemma_div_is_ordered(16, n3 as int, 2);
    vstd::arithmetic::div_mod::lemma_div_is_ordered(8, n4 as int, 2);
    vstd::arithmetic::div_mod::lemma_div_is_ordered(4, n5 as int, 2);
    assert(bit_length(n) == 1 + bit_length(n1));
    assert(bit_length(n1) == 1 + bit_length(n2));
    assert(bit_length(n2) == 1 + bit_length(n3));
    assert(bit_length(n3) == 1 + bit_length(n4));
    assert(bit_length(n4) == 1 + bit_length(n5));
    assert(bit_length(n5) == 1 + bit_length(n6));
    assert(bit_length(n6) == 1 + bit_length(n7));
}

/// An encoding is minimal: a single byte for zero, and otherwise exactly
/// one byte for every started run of seven bits of the value.
pub proof fn lemma_minimal_length(n: nat)
    ensures
        encoded(n).len() as int == vstd::math::max(1, ((bit_length(n) + 6) / 7) as int),
    decreases n,
{
    if n == 0 {
    } else if n < 128 {
        vstd::arithmetic::power2::lemma2_to64();
        lemma_bit_length_below_pow2(n, 7);
        assert((bit_length(n) + 6) / 7 == 1);
    } else {
        vstd::arithmetic::div_mod::lemma_div_is_ordered(128, n as int, 128);
        lemma_minimal_length(n / 128);
        lemma_bit_length_div128(n);
        vstd::arithmetic::div_mod::lemma_div_is_ordered(7, (bit_length(n / 128) + 6) as int, 7);
        vstd::arithmetic::div_mod::lemma_div_plus_one((bit_length(n / 128) + 6) as int, 7);
    }
}

} // verus!
