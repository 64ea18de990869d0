use vstd::prelude::*;

verus! {

/// `bound` shifted right by `bit_idx` bits, 0 once every bit is shifted out.
pub fn shifted_bound(bound: usize, bit_idx: usize) -> (r: usize)
    ensures
        r == bound as nat / vstd::arithmetic::power2::pow2(bit_idx as nat),
{
    if bit_idx >= usize::BITS as usize {
        proof {
            lemma_usize_lt_pow2(bound, bit_idx as nat);
        }
        0
    } else {
        let r: usize = bound >> bit_idx;
        proof {
            lemma_shr_is_div(bound, bit_idx);
        }
        r
    }
}

proof fn lemma_usize_lt_pow2(x: usize, k: nat)
    requires
        k >= usize::BITS,
    ensures
        (x as nat) / vstd::arithmetic::power2::pow2(k) == 0,
{
    vstd::arithmetic::power2::lemma2_to64();
    if k > usize::BITS {
        vstd::arithmetic::power2::lemma_pow2_strictly_increases(usize::BITS as nat, k);
    }
    assert(x < vstd::arithmetic::power2::pow2(usize::BITS as nat)) by {
        if usize::BITS == 64 {
            assert(x <= 0xffff_ffff_ffff_ffff);
        } else {
            assert(x <= 0xffff_ffff);
        }
    }
    vstd::arithmetic::div_mod::lemma_basic_div(x as int, vstd::arithmetic::power2::pow2(k) as int);
}

proof fn lemma_shr_is_div(x: usize, k: usize)
    requires
        k < usize::BITS,
    ensures
        (x >> k) as nat == (x as nat) / vstd::arithmetic::power2::pow2(k as nat),
{
    if usize::BITS == 64 {
        vstd::bits::lemma_u64_shr_is_div(x as u64, k as u64);
    } else {
        vstd::bits::lemma_u32_shr_is_div(x as u32, k as u32);
    }
}

/// Bit `bit_idx` of `value` (false beyond the width of `usize`).
pub fn usize_bit(value: usize, bit_idx: usize) -> (r: bool)
    ensures
        r == ((value as nat / vstd::arithmetic::power2::pow2(bit_idx as nat)) % 2 == 1),
{
    let s: usize = shifted_bound(value, bit_idx);
    let r: bool = bit_idx < usize::BITS as usize && (s & 1) == 1;
    proof {
        assert(s & 1 == s % 2) by (bit_vector);
        if bit_idx >= usize::BITS as usize {
            lemma_usize_lt_pow2(value, bit_idx as nat);
            assert(s == 0);
        }
    }
    r
}

/// The number of bits needed to write `max_value` in binary (at least one).
pub fn bits_needed(max_value: usize) -> (r: usize)
    ensures
        r >= 1,
        r <= usize::BITS,
        max_value < vstd::arithmetic::power2::pow2(r as nat),
        r > 1 ==> vstd::arithmetic::power2::pow2((r - 1) as nat) <= max_value,
{
    let mut n: usize = 1;
    proof {
        vstd::arithmetic::power2::lemma2_to64();
    }
    while n < usize::BITS as usize && shifted_bound(max_value, n) != 0
        invariant
            1 <= n <= usize::BITS,
            n == 1 || (max_value as nat) / vstd::arithmetic::power2::pow2((n - 1) as nat) != 0,
        decreases usize::BITS - n,
    {
        n = n + 1;
    }
    proof {
        let p = vstd::arithmetic::power2::pow2(n as nat);
        let q = vstd::arithmetic::power2::pow2((n - 1) as nat);
        vstd::arithmetic::power2::lemma_pow2_pos(n as nat);
        vstd::arithmetic::power2::lemma_pow2_pos((n - 1) as nat);
        if n < usize::BITS {
            assert((max_value as nat) / p == 0);
            vstd::arithmetic::div_mod::lemma_div_is_ordered_by_denominator(max_value as int, 1, p as int);
            vstd::arithmetic::div_mod::lemma_fundamental_div_mod(max_value as int, p as int);
            vstd::arithmetic::div_mod::lemma_mod_bound(max_value as int, p as int);
        } else {
            lemma_usize_lt_pow2(max_value, n as nat);
            vstd::arithmetic::div_mod::lemma_fundamental_div_mod(max_value as int, p as int);
            vstd::arithmetic::div_mod::lemma_mod_bound(max_value as int, p as int);
        }
        if n > 1 {
            vstd::arithmetic::div_mod::lemma_fundamental_div_mod(max_value as int, q as int);
            vstd::arithmetic::div_mod::lemma_mod_bound(max_value as int, q as int);
            assert(q * ((max_value as nat) / q) >= q) by (nonlinear_arith)
                requires
                    (max_value as nat) / q >= 1,
                    q > 0,
            ;
        }
    }
    n
}

} // verus!
