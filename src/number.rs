use vstd::prelude::*;

use vstd::arithmetic::div_mod::{lemma_multiply_divide_lt, lemma_div_is_ordered, lemma_div_by_multiple};

verus! {

/// Two to the power `k`.
pub open spec fn two_pow(k: nat) -> nat
    decreases k,
{
    if k == 0 {
        1
    } else {
        2 * two_pow((k - 1) as nat)
    }
}

/// The number of binary digits of `n`, with none for zero.
pub open spec fn bit_len(n: nat) -> nat
    decreases n,
{
    if n == 0 {
        0
    } else {
        1 + bit_len(n / 2)
    }
}

/// The bits of the positive double with biased exponent `e` and significand
/// `m`, where `m` holds its leading one (2^52 <= m < 2^53).
pub open spec fn encode(e: nat, m: nat) -> int {
    e * two_pow(52) + (m - two_pow(52))
}

/// The bits of the double nearest to `n`, ties going to an even significand:
/// `n` kept to 53 significant binary digits. Below 2^53 this is exact.
pub open spec fn double_bits_of(n: nat) -> int {
    if n == 0 {
        0
    } else {
        let l = bit_len(n);
        if l <= 53 {
            encode((1022 + l) as nat, n * two_pow((53 - l) as nat))
        } else {
            let s = (l - 53) as nat;
            let q = n / two_pow(s);
            let r = n % two_pow(s);
            let up = 2 * r > two_pow(s) || (2 * r == two_pow(s) && q % 2 == 1);
            let q1 = if up {
                q + 1
            } else {
                q
            };
            if q1 == two_pow(53) {
                encode((1023 + l) as nat, two_pow(52))
            } else {
                encode((1022 + l) as nat, q1)
            }
        }
    }
}

proof fn lemma_two_pow_adds(a: nat, b: nat)
    ensures
        two_pow(a + b) == two_pow(a) * two_pow(b),
    decreases a,
{
    if a > 0 {
        let a1 = (a - 1) as nat;
        lemma_two_pow_adds(a1, b);
        assert(a1 + b == (a + b - 1) as nat);
        assert(two_pow(a + b) == 2 * two_pow(a1 + b));
        assert(two_pow(a) == 2 * two_pow(a1));
        assert(2 * (two_pow(a1) * two_pow(b)) == (2 * two_pow(a1)) * two_pow(b)) by (nonlinear_arith);
    } else {
        assert(two_pow(0) == 1);
        assert(a + b == b);
    }
}

proof fn lemma_two_pow_pos(a: nat)
    ensures
        two_pow(a) >= 1,
    decreases a,
{
    if a > 0 {
        lemma_two_pow_pos((a - 1) as nat);
    }
}

/// `n` has `bit_len(n)` digits: 2^(l-1) <= n < 2^l.
proof fn lemma_bit_len_bounds(n: nat)
    requires
        n > 0,
    ensures
        bit_len(n) >= 1,
        two_pow((bit_len(n) - 1) as nat) <= n,
        n < two_pow(bit_len(n)),
    decreases n,
{
    if n >= 2 {
        let h = n / 2;
        lemma_bit_len_bounds(h);
        let l1 = bit_len(h);
        assert(bit_len(n) == l1 + 1);
        assert(two_pow(l1 + 1) == 2 * two_pow(l1));
        assert((bit_len(n) - 1) as nat == l1);
        if l1 >= 1 {
            assert(two_pow(l1) == 2 * two_pow((l1 - 1) as nat));
        }
    } else {
        assert(bit_len(0) == 0);
        assert(bit_len(1) == 1);
        assert(two_pow(1) == 2 * two_pow(0));
    }
}

proof fn lemma_bit_len_le(n: nat, k: nat)
    requires
        n < two_pow(k),
    ensures
        bit_len(n) <= k,
    decreases n,
{
    if n > 0 {
        assert(k > 0);
        lemma_bit_len_le(n / 2, (k - 1) as nat);
    }
}

proof fn lemma_two_pow_facts()
    ensures
        two_pow(52) == 0x10_0000_0000_0000,
        two_pow(53) == 0x20_0000_0000_0000,
        two_pow(64) == 0x1_0000_0000_0000_0000,
{
    reveal_with_fuel(two_pow, 65);
}

/// The bits of the double nearest to `n`: exact up to 2^53, rounded to an
/// even significand on a tie above it.
pub fn double_bits_from_u64(n: u64) -> (r: u64)
    ensures
        r == double_bits_of(n as nat),
        r < 0x8000_0000_0000_0000u64,
{
    if n == 0 {
        return 0;
    }
    proof {
        lemma_two_pow_facts();
        lemma_bit_len_bounds(n as nat);
        lemma_bit_len_le(n as nat, 64);
    }
    let ghost len = bit_len(n as nat);
    let mut l: u64 = 0;
    let mut x: u64 = n;
    while x > 0
        invariant
            len == bit_len(n as nat),
            len <= 64,
            len == l + bit_len(x as nat),
        decreases x,
    {
        x = x / 2;
        l = l + 1;
    }
    let two52: u64 = 0x10_0000_0000_0000;
    if l <= 53 {
        let mut m: u64 = n;
        let mut k: u64 = l;
        proof {
            assert(two_pow(0) == 1);
            assert((k - l) as nat == 0);
            assert(n * two_pow(0) == n * 1);
        }
        while k < 53
            invariant
                l <= k <= 53,
                l == len,
                two_pow((len - 1) as nat) <= n < two_pow(len),
                m == n * two_pow((k - l) as nat),
                m < two_pow(k as nat),
                two_pow(53) == 0x20_0000_0000_0000,
            decreases 53 - k,
        {
            proof {
                lemma_two_pow_adds((k - l) as nat, 1);
                lemma_two_pow_adds(k as nat, 1);
                reveal_with_fuel(two_pow, 2);
                if k < 52 {
                    lemma_two_pow_adds((k + 1) as nat, (52 - k) as nat);
                    lemma_two_pow_pos((52 - k) as nat);
                    assert(two_pow((k + 1) as nat) <= two_pow((k + 1) as nat) * two_pow((52 - k) as nat)) by (nonlinear_arith)
                        requires two_pow((52 - k) as nat) >= 1;
                }
                assert(two_pow((k + 1 - l) as nat) == two_pow((k - l) as nat) * 2);
                assert(n * (two_pow((k - l) as nat) * 2) == (n * two_pow((k - l) as nat)) * 2) by (nonlinear_arith);
            }
            m = m * 2;
            k = k + 1;
        }
        proof {
            lemma_two_pow_adds((len - 1) as nat, (53 - l) as nat);
            assert(two_pow((len - 1) as nat) * two_pow((53 - l) as nat) <= n * two_pow((53 - l) as nat)) by (nonlinear_arith)
                requires two_pow((len - 1) as nat) <= n;
            assert((len - 1) + (53 - l) == 52);
        }
        (1022 + l) * two52 + (m - two52)
    } else {
        let s: u64 = l - 53;
        let mut pw: u64 = 1;
        let mut j: u64 = 0;
        proof {
            lemma_two_pow_pos(11);
            assert(two_pow(0) == 1);
        }
        while j < s
            invariant
                j <= s,
                s == l - 53,
                l == len,
                len <= 64,
                pw == two_pow(j as nat),
                1 <= pw <= two_pow(11),
            decreases s - j,
        {
            proof {
                reveal_with_fuel(two_pow, 12);
                lemma_two_pow_adds(j as nat, 1);
                lemma_two_pow_adds((j + 1) as nat, (11 - (j + 1)) as nat);
                lemma_two_pow_pos((11 - (j + 1)) as nat);
                assert(two_pow((j + 1) as nat) <= two_pow((j + 1) as nat) * two_pow((11 - (j + 1)) as nat)) by (nonlinear_arith)
                    requires two_pow((11 - (j + 1)) as nat) >= 1;
            }
            pw = pw * 2;
            j = j + 1;
        }
        let q = n / pw;
        let r = n % pw;
        proof {
            lemma_two_pow_pos(s as nat);
            lemma_two_pow_adds(s as nat, 53);
            lemma_two_pow_adds(s as nat, 52);
            assert((s + 53) as nat == len);
            assert((s + 52) as nat == (len - 1) as nat);
            lemma_multiply_divide_lt(n as int, pw as int, two_pow(53) as int);
            lemma_div_is_ordered((pw * two_pow(52)) as int, n as int, pw as int);
            lemma_div_by_multiple(two_pow(52) as int, pw as int);
            assert(pw * two_pow(52) == two_pow(52) * pw) by (nonlinear_arith);
        }
        let up = r > pw - r || (r == pw - r && q % 2 == 1);
        let q1 = if up { q + 1 } else { q };
        if q1 == 0x20_0000_0000_0000 {
            (1023 + l) * two52
        } else {
            (1022 + l) * two52 + (q1 - two52)
        }
    }
}

/// The bits of the double nearest to the integer `n`: those of its magnitude,
/// with the sign bit set where `n` is negative.
pub open spec fn signed_double_bits_of(n: int) -> u64 {
    if n >= 0 {
        double_bits_of(n as nat) as u64
    } else {
        (0x8000_0000_0000_0000 + double_bits_of((-n) as nat)) as u64
    }
}

/// The bits of the double nearest to `n`.
pub fn double_bits_from_i64(n: i64) -> (r: u64)
    ensures
        r == signed_double_bits_of(n as int),
{
    if n >= 0 {
        double_bits_from_u64(n as u64)
    } else {
        let mag: u64 = if n == i64::MIN {
            0x8000_0000_0000_0000u64
        } else {
            (-n) as u64
        };
        let b = double_bits_from_u64(mag);
        0x8000_0000_0000_0000u64 + b
    }
}

} // verus!
