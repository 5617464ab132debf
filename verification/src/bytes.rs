//! Whole numbers in bytes, the least significant byte first.

use vstd::arithmetic::div_mod::*;
use vstd::arithmetic::mul::*;
use vstd::arithmetic::power2::*;
use vstd::bits::*;
use vstd::prelude::*;
use crate::digits::{
    digit, high_part, lemma_digit_of_low_bits, lemma_pow2_increases, lemma_small_number, low_part,
};

verus! {

/// The number that `bytes` hold, the least significant byte first.
pub open spec fn le_value(bytes: Seq<u8>) -> nat
    decreases bytes.len(),
{
    if bytes.len() == 0 {
        0
    } else {
        bytes[0] as nat + 256 * le_value(bytes.drop_first())
    }
}

/// Each byte makes room for eight bits.
pub proof fn lemma_le_value_bound(bytes: Seq<u8>)
    ensures
        le_value(bytes) < pow2(8 * bytes.len()),
    decreases bytes.len(),
{
    lemma2_to64();
    if bytes.len() > 0 {
        lemma_le_value_bound(bytes.drop_first());
        lemma_pow2_adds(8, (8 * (bytes.len() - 1)) as nat);
    }
}

/// The bytes from `m` on count `8 * m` bits higher.
pub proof fn lemma_le_value_split(bytes: Seq<u8>, m: nat)
    requires
        m <= bytes.len(),
    ensures
        le_value(bytes) == le_value(bytes.take(m as int)) + pow2(8 * m) * le_value(
            bytes.skip(m as int),
        ),
    decreases m,
{
    lemma2_to64();
    if m == 0 {
        assert(bytes.skip(0) =~= bytes);
        lemma_mul_basics(le_value(bytes) as int);
    } else {
        let rest = bytes.drop_first();
        let below = (m - 1) as nat;
        lemma_le_value_split(rest, below);
        assert(bytes.take(m as int).drop_first() =~= rest.take(below as int));
        assert(bytes.skip(m as int) =~= rest.skip(below as int));
        lemma_pow2_adds(8, 8 * below);
        let high = le_value(bytes.skip(m as int));
        lemma_mul_is_associative(256, pow2(8 * below) as int, high as int);
    }
}

/// How many of the `c` bits from bit `start` on lie in the eight bytes that begin with the byte
/// of bit `start`.
pub open spec fn bits_in_word(start: nat, c: nat) -> nat {
    if start % 8 + c <= 64 {
        c
    } else {
        (64 - start % 8) as nat
    }
}

/// The `segment`-th digit of the number in `bytes`, in digits of `c` bits. Of a digit that is
/// spread over nine bytes, what is in the last of them is left out.
pub fn get_at(segment: usize, c: usize, bytes: &[u8; 32]) -> (res: usize)
    requires
        c < 64,
        segment * c <= usize::MAX,
    ensures
        res == digit(
            le_value(bytes@),
            (segment * c) as nat,
            bits_in_word((segment * c) as nat, c as nat),
        ) as usize,
{
    let skip_bits: usize = segment * c;
    let skip_bytes: usize = skip_bits / 8;
    let ghost v = le_value(bytes@);
    let ghost seen = bits_in_word(skip_bits as nat, c as nat);
    if skip_bytes >= 32 {
        proof {
            lemma_le_value_bound(bytes@);
            lemma_pow2_increases(256, skip_bits as nat);
            lemma_small_number(v, skip_bits as nat);
            lemma_pow2_pos(seen);
            lemma_small_mod(0, pow2(seen));
        }
        return 0;
    }
    let ghost rest = bytes@.skip(skip_bytes as int);
    let m: usize = if 32 - skip_bytes < 8 {
        32 - skip_bytes
    } else {
        8
    };
    let ghost word = rest.take(m as int);
    let mut tmp: u64 = 0;
    let mut k: usize = m;
    assert(word.skip(m as int) =~= Seq::empty());
    while k > 0
        invariant
            k <= m <= 8,
            skip_bytes + m <= 32,
            rest == bytes@.skip(skip_bytes as int),
            word == rest.take(m as int),
            tmp == le_value(word.skip(k as int)),
        decreases k,
    {
        k -= 1;
        proof {
            let upper = word.skip(k + 1);
            assert(word.skip(k as int).drop_first() =~= upper);
            lemma_le_value_bound(upper);
            lemma_pow2_increases(8 * upper.len(), 56);
            lemma2_to64_rest();
        }
        tmp = 256 * tmp + bytes[skip_bytes + k] as u64;
    }
    let shift: usize = skip_bits - skip_bytes * 8;
    proof {
        assert(word.skip(0) =~= word);
        lemma_u64_shr_is_div(tmp, shift as u64);
        lemma_u64_pow2_no_overflow(c as nat);
        lemma_u64_shl_is_mul(1, c as u64);
        lemma_digit_of_rest(bytes@, skip_bytes as nat, shift as nat, seen);
        lemma_digit_of_word(rest, m as nat, shift as nat, seen);
        if seen < c {
            // All the bits of the word from `shift` on are seen.
            lemma_pow2_adds(shift as nat, seen);
            lemma_pow2_pos(shift as nat);
            lemma2_to64_rest();
            lemma_mul_is_commutative(pow2(shift as nat) as int, pow2(seen) as int);
            lemma_multiply_divide_lt(tmp as int, pow2(shift as nat) as int, pow2(seen) as int);
            lemma_pow2_increases(seen, c as nat);
            lemma_small_mod(high_part(tmp as nat, shift as nat), pow2(seen));
            lemma_small_mod(high_part(tmp as nat, shift as nat), pow2(c as nat));
        }
    }
    ((tmp >> (shift as u64)) % (1u64 << (c as u64))) as usize
}

/// Leaving out whole bytes below a digit leaves the digit as it is.
proof fn lemma_digit_of_rest(bytes: Seq<u8>, skipped: nat, shift: nat, c: nat)
    requires
        skipped <= bytes.len(),
    ensures
        digit(le_value(bytes), 8 * skipped + shift, c) == digit(
            le_value(bytes.skip(skipped as int)),
            shift,
            c,
        ),
{
    let v = le_value(bytes);
    let p = pow2(8 * skipped);
    lemma_le_value_split(bytes, skipped);
    lemma_le_value_bound(bytes.take(skipped as int));
    lemma_fundamental_div_mod_converse(
        v as int,
        p as int,
        le_value(bytes.skip(skipped as int)) as int,
        le_value(bytes.take(skipped as int)) as int,
    );
    lemma_pow2_pos(8 * skipped);
    lemma_pow2_pos(shift);
    lemma_pow2_adds(8 * skipped, shift);
    lemma_div_denominator(v as int, p as int, pow2(shift) as int);
}

/// The first eight bytes, or all where there are fewer, have the digits that end in them.
proof fn lemma_digit_of_word(bytes: Seq<u8>, m: nat, shift: nat, c: nat)
    requires
        m == 8 && shift + c <= 64 || m == bytes.len(),
        m <= bytes.len(),
    ensures
        digit(le_value(bytes), shift, c) == digit(le_value(bytes.take(m as int)), shift, c),
{
    lemma_le_value_split(bytes, m);
    if m == bytes.len() {
        assert(bytes.take(m as int) =~= bytes);
    } else {
        let low = le_value(bytes.take(8));
        lemma_le_value_bound(bytes.take(8));
        assert(8 * m == 64);
        lemma_mul_is_commutative(pow2(64) as int, le_value(bytes.skip(8)) as int);
        lemma_fundamental_div_mod_converse(
            le_value(bytes) as int,
            pow2(64) as int,
            le_value(bytes.skip(8)) as int,
            low as int,
        );
        assert(low_part(le_value(bytes), 64) == low);
        lemma_digit_of_low_bits(le_value(bytes), 64, shift, c);
    }
}

/// One more byte on top counts as often as there are numbers in the bytes below it.
pub proof fn law_one_byte_more(bytes: Seq<u8>, byte: u8)
    ensures
        le_value(Seq::empty()) == 0,
        le_value(bytes.push(byte)) == le_value(bytes) + byte * pow2(8 * bytes.len()),
{
    let all = bytes.push(byte);
    let top = all.skip(bytes.len() as int);
    lemma_le_value_split(all, bytes.len());
    assert(all.take(bytes.len() as int) =~= bytes);
    assert(top.len() == 1 && top[0] == byte);
    assert(top.drop_first() =~= Seq::empty());
    reveal_with_fuel(le_value, 2);
    lemma_mul_is_commutative(pow2(8 * bytes.len()) as int, byte as int);
}

/// As many of the bits as eight bytes hold, and all of them where that is enough.
pub proof fn law_bits_in_word(start: nat, c: nat)
    ensures
        bits_in_word(start, c) <= c,
        c <= 64 - start % 8 ==> bits_in_word(start, c) == c,
        c > 64 - start % 8 ==> bits_in_word(start, c) + start % 8 == 64,
{
}

} // verus!
