//! Power-of-two arithmetic shared by the allocators: executable tests and
//! logarithms for power-of-two sizes, and the XOR law behind buddy offsets.

use vstd::prelude::*;

verus! {

use vstd::arithmetic::power2::{
    pow2, lemma_pow2_adds, lemma_pow2_pos, lemma_pow2_strictly_increases, lemma_pow2_unfold,
};

/// `n` is a power of two.
pub open spec fn is_pow2(n: nat) -> bool {
    exists|e: nat| n == pow2(e)
}

/// The exponent of a power of two.
pub open spec fn log2(n: nat) -> nat
    recommends
        is_pow2(n),
{
    choose|e: nat| n == pow2(e)
}

pub broadcast proof fn lemma_pow2_is_pow2(e: nat)
    ensures
        #[trigger] is_pow2(pow2(e)),
{
}

/// Exponents are recovered uniquely: `log2(pow2(e)) == e`.
pub proof fn lemma_log2_pow2(e: nat)
    ensures
        log2(pow2(e)) == e,
{
    let e2 = log2(pow2(e));
    assert(pow2(e) == pow2(e2));
    if e < e2 {
        lemma_pow2_strictly_increases(e, e2);
    } else if e2 < e {
        lemma_pow2_strictly_increases(e2, e);
    }
}

/// A power of two strictly above another is at least its double.
pub proof fn lemma_pow2_next(a: nat, b: nat)
    requires
        is_pow2(a),
        is_pow2(b),
        a < b,
    ensures
        2 * a <= b,
{
    let ea = log2(a);
    let eb = log2(b);
    assert(a == pow2(ea) && b == pow2(eb));
    if eb <= ea {
        if eb < ea {
            lemma_pow2_strictly_increases(eb, ea);
        }
        assert(false);
    }
    lemma_pow2_unfold(eb);
    if ea + 1 < eb {
        lemma_pow2_strictly_increases(ea + 1, eb);
    }
    assert(pow2((ea + 1) as nat) == 2 * a) by {
        lemma_pow2_unfold((ea + 1) as nat);
    }
}

/// A smaller power of two divides a larger one.
pub proof fn lemma_pow2_divides(a: nat, b: nat)
    requires
        a <= b,
    ensures
        pow2(b) % pow2(a) == 0,
{
    lemma_pow2_adds(a, (b - a) as nat);
    lemma_pow2_pos(a);
    lemma_pow2_pos((b - a) as nat);
    let q = pow2((b - a) as nat);
    assert(pow2(b) == pow2(a) * q);
    vstd::arithmetic::div_mod::lemma_mod_multiples_basic(q as int, pow2(a) as int);
    assert(q * pow2(a) == pow2(a) * q) by (nonlinear_arith);
    assert((pow2(b) as int) % (pow2(a) as int) == 0);
}

/// Decides whether `x` is a power of two, by stripping factors of two.
pub fn usize_is_pow2(x: usize) -> (r: bool)
    ensures
        r == is_pow2(x as nat),
{
    if x == 0 {
        proof {
            if is_pow2(0nat) {
                let e = choose|e: nat| 0nat == pow2(e);
                lemma_pow2_pos(e);
            }
        }
        return false;
    }
    let mut v: usize = x;
    let ghost mut k: nat = 0;
    proof {
        assert(pow2(0) == 1) by {
            vstd::arithmetic::power2::lemma2_to64();
        }
    }
    while v % 2 == 0
        invariant
            1 <= v <= x,
            x as nat == v as nat * pow2(k),
            is_pow2(v as nat) ==> is_pow2(x as nat),
            is_pow2(x as nat) ==> is_pow2(v as nat),
        decreases v,
    {
        proof {
            lemma_pow2_pos(k);
            assert(x as nat == (v as nat / 2) * pow2((k + 1) as nat)) by {
                lemma_pow2_unfold((k + 1) as nat);
                assert(v as nat == 2 * (v as nat / 2));
                assert((2 * (v as nat / 2)) * pow2(k as nat) == (v as nat / 2) * (2 * pow2(
                    k as nat,
                ))) by (nonlinear_arith);
            }
            if is_pow2((v / 2) as nat) {
                let e = log2((v / 2) as nat);
                assert(v as nat == 2 * pow2(e)) by {
                    lemma_log2_pow2(e);
                }
                assert(v as nat == pow2((e + 1) as nat)) by {
                    lemma_pow2_unfold((e + 1) as nat);
                }
            }
            if is_pow2(v as nat) {
                let e = log2(v as nat);
                assert(v as nat == pow2(e)) by {
                    lemma_log2_pow2(e);
                }
                if e == 0 {
                    assert(pow2(0) == 1) by {
                        vstd::arithmetic::power2::lemma2_to64();
                    }
                    assert(false);
                }
                assert(v as nat / 2 == pow2((e - 1) as nat)) by {
                    lemma_pow2_unfold(e);
                }
            }
        }
        v = v / 2;
        proof {
            k = k + 1;
        }
    }
    proof {
        if v == 1 {
            assert(x as nat == pow2(k));
        } else {
            // v is odd and greater than one, so v (hence x) is no power of two.
            if is_pow2(v as nat) {
                let e = log2(v as nat);
                assert(v as nat == pow2(e)) by {
                    lemma_log2_pow2(e);
                }
                if e == 0 {
                    assert(pow2(0) == 1) by {
                        vstd::arithmetic::power2::lemma2_to64();
                    }
                } else {
                    lemma_pow2_unfold(e);
                }
                assert(false);
            }
        }
    }
    v == 1
}

/// The exponent of a power of two, by counting halvings.
pub fn usize_log2(x: usize) -> (r: usize)
    requires
        is_pow2(x as nat),
    ensures
        pow2(r as nat) == x as nat,
        r < usize::BITS,
{
    let mut v: usize = x;
    let mut k: usize = 0;
    proof {
        assert(pow2(0) == 1) by {
            vstd::arithmetic::power2::lemma2_to64();
        }
        lemma_pow2_pos(log2(x as nat));
        assert(x as nat == pow2(log2(x as nat)));
    }
    while v > 1
        invariant
            1 <= v <= x,
            x as nat == v as nat * pow2(k as nat),
            is_pow2(v as nat),
            k < usize::BITS,
        decreases v,
    {
        proof {
            let e = log2(v as nat);
            assert(v as nat == pow2(e)) by {
                lemma_log2_pow2(e);
            }
            if e == 0 {
                assert(pow2(0) == 1) by {
                    vstd::arithmetic::power2::lemma2_to64();
                }
                assert(false);
            }
            lemma_pow2_unfold(e);
            assert(v as nat / 2 == pow2((e - 1) as nat));
            assert(x as nat == (v as nat / 2) * pow2((k + 1) as nat)) by {
                lemma_pow2_unfold((k + 1) as nat);
                assert(v as nat == 2 * (v as nat / 2));
                assert((2 * (v as nat / 2)) * pow2(k as nat) == (v as nat / 2) * (2 * pow2(
                    k as nat,
                ))) by (nonlinear_arith);
            }
            // k + 1 stays below the word width: pow2(k + 1) divides x < pow2(BITS).
            if k + 1 >= usize::BITS {
                lemma_pow2_pos((k + 1) as nat);
                assert(pow2((k + 1) as nat) <= x as nat) by {
                    vstd::arithmetic::mul::lemma_mul_ordering(
                        (v as nat / 2) as int,
                        pow2((k + 1) as nat) as int,
                    );
                }
                assert(usize::BITS <= k + 1);
                lemma_usize_max_bound();
                if (usize::BITS as nat) < (k + 1) as nat {
                    lemma_pow2_strictly_increases(usize::BITS as nat, (k + 1) as nat);
                }
                assert(false);
            }
        }
        v = v / 2;
        k = k + 1;
    }
    proof {
        assert(v == 1);
    }
    k
}

/// `usize::MAX + 1` is exactly two to the word width.
pub proof fn lemma_usize_max_bound()
    ensures
        usize::MAX as nat + 1 == pow2(usize::BITS as nat),
{
    vstd::arithmetic::power2::lemma2_to64();
    vstd::arithmetic::power2::lemma2_to64_rest();
    assert(usize::BITS == 32 || usize::BITS == 64);
}

/// Computes `pow2(e)` as a machine word.
pub fn usize_pow2(e: usize) -> (r: usize)
    requires
        pow2(e as nat) <= usize::MAX,
    ensures
        r as nat == pow2(e as nat),
        r >= 1,
{
    let mut k: usize = 0;
    let mut p: usize = 1;
    proof {
        assert(pow2(0) == 1) by {
            vstd::arithmetic::power2::lemma2_to64();
        }
    }
    while k < e
        invariant
            k <= e,
            p as nat == pow2(k as nat),
            pow2(e as nat) <= usize::MAX,
        decreases e - k,
    {
        proof {
            assert(pow2((k + 1) as nat) == 2 * pow2(k as nat)) by {
                lemma_pow2_unfold((k + 1) as nat);
            }
            if k + 1 < e {
                lemma_pow2_strictly_increases((k + 1) as nat, e as nat);
            }
        }
        p = p * 2;
        k = k + 1;
    }
    proof {
        lemma_pow2_pos(e as nat);
    }
    p
}

/// Bridges vstd's recursive power-of-two predicate to the existential one
/// used throughout this crate.
pub proof fn lemma_is_pow2_from_int(n: usize)
    requires
        vstd::arithmetic::power2::is_pow2(n as int),
    ensures
        is_pow2(n as nat),
{
    vstd::arithmetic::power2::is_pow2_equiv(n as int);
    let k = choose|k: nat| n as int == vstd::arithmetic::power::pow(2, k);
    vstd::arithmetic::power2::lemma_pow2(k);
    assert(n as nat == pow2(k));
}

/// A power of two that fits in a machine word is at most one more than the
/// signed maximum, which is itself a power of two.
pub proof fn lemma_pow2_word_bound(align: usize)
    requires
        is_pow2(align as nat),
    ensures
        align as int <= isize::MAX as int + 1,
        usize::MAX as int == 2 * (isize::MAX as int) + 1,
        align >= 1,
{
    let e = log2(align as nat);
    assert(align as nat == pow2(e));
    lemma_pow2_pos(e);
    lemma_usize_max_bound();
    let h = (usize::BITS - 1) as nat;
    assert(isize::MAX as int + 1 == pow2(h) && usize::MAX as int == 2 * (isize::MAX as int)
        + 1) by {
        vstd::arithmetic::power2::lemma2_to64();
        vstd::arithmetic::power2::lemma2_to64_rest();
        assert(usize::BITS == 32 || usize::BITS == 64);
    }
    assert(e <= h) by {
        if e > h {
            if (usize::BITS as nat) < e {
                lemma_pow2_strictly_increases(usize::BITS as nat, e);
            }
            assert(pow2(usize::BITS as nat) <= pow2(e));
            assert(false);
        }
    }
    if e < h {
        lemma_pow2_strictly_increases(e, h);
    }
}

/// Alignment to a power of two gives alignment to every smaller one.
pub proof fn lemma_aligned_pow2_le(x: int, e1: nat, e2: nat)
    requires
        e2 <= e1,
        0 <= x,
        x % (pow2(e1) as int) == 0,
    ensures
        x % (pow2(e2) as int) == 0,
{
    lemma_pow2_pos(e1);
    lemma_pow2_pos(e2);
    lemma_pow2_pos((e1 - e2) as nat);
    lemma_pow2_adds(e2, (e1 - e2) as nat);
    let q = x / (pow2(e1) as int);
    vstd::arithmetic::div_mod::lemma_fundamental_div_mod(x, pow2(e1) as int);
    assert(x == (q * pow2((e1 - e2) as nat)) * pow2(e2)) by (nonlinear_arith)
        requires
            pow2(e1) == pow2(e2) * pow2((e1 - e2) as nat),
            x == pow2(e1) as int * q,
    ;
    vstd::arithmetic::div_mod::lemma_mod_multiples_basic(
        q * pow2((e1 - e2) as nat) as int,
        pow2(e2) as int,
    );
}

/// Adding a multiple of the modulus does not change alignment.
pub proof fn lemma_aligned_add_multiple(x: int, m: int, c: int)
    requires
        m > 0,
        0 <= x,
        0 <= c,
        x % m == 0,
    ensures
        (x + c * m) % m == 0,
{
    let q = x / m;
    vstd::arithmetic::div_mod::lemma_fundamental_div_mod(x, m);
    assert(x + c * m == (q + c) * m) by (nonlinear_arith)
        requires
            x == m * q,
    ;
    vstd::arithmetic::div_mod::lemma_mod_multiples_basic(q + c, m);
}

/// The buddy law: XOR-ing an offset that is aligned to the block size
/// `pow2(p)` with that block size flips exactly one bit, so it adds the block
/// size when the offset is also aligned to the next size up, and subtracts it
/// otherwise.
#[verifier::rlimit(100)]
pub proof fn lemma_buddy_xor(off: usize, p: usize)
    requires
        p + 1 < usize::BITS,
        off as nat % pow2(p as nat) == 0,
    ensures
        off as nat % pow2((p + 1) as nat) == 0 ==> off ^ (pow2(p as nat) as usize) == off + pow2(
            p as nat,
        ),
        off as nat % pow2((p + 1) as nat) != 0 ==> off as nat % pow2((p + 1) as nat) == pow2(
            p as nat,
        ) && off ^ (pow2(p as nat) as usize) == off - pow2(p as nat),
{
    let q: usize = (p + 1) as usize;
    lemma_usize_max_bound();
    assert(pow2(p as nat) <= usize::MAX && pow2(q as nat) <= usize::MAX) by {
        if p as nat + 1 < usize::BITS as nat {
            lemma_pow2_strictly_increases((p + 1) as nat, usize::BITS as nat);
        }
        lemma_pow2_unfold((p + 1) as nat);
        lemma_pow2_pos(p as nat);
    }
    assert((1usize << p) == 1 * pow2(p as nat)) by {
        vstd::bits::lemma_usize_shl_is_mul(1usize, p);
    }
    assert((1usize << q) == 1 * pow2(q as nat)) by {
        vstd::bits::lemma_usize_shl_is_mul(1usize, q);
    }
    assert(pow2(q as nat) == 2 * pow2(p as nat)) by {
        lemma_pow2_unfold(q as nat);
    }
    let s = pow2(p as nat) as usize;
    let t = pow2(q as nat) as usize;
    lemma_pow2_pos(p as nat);
    lemma_pow2_pos(q as nat);
    assert(s >= 1 && t >= 1 && s == pow2(p as nat) && t == pow2(q as nat));
    // Shift form of the alignment hypothesis, for the bit-level step below.
    assert(off >> p == off as nat / pow2(p as nat)) by {
        vstd::bits::lemma_usize_shr_is_div(off, p);
    }
    assert(off as nat / pow2(p as nat) * pow2(p as nat) == off as nat) by {
        vstd::arithmetic::div_mod::lemma_fundamental_div_mod(off as int, s as int);
    }
    assert((off >> p) << p == (off >> p) * pow2(p as nat)) by {
        vstd::bits::lemma_usize_shl_is_mul((off >> p) as usize, p);
    }
    assert((off >> p) << p == off);
    // The flip itself, purely over shifts.
    assert(((off >> q) << q == off || ((off >> q) << q) + (1usize << p) == off) && ((off >> q)
        << q == off ==> off ^ (1usize << p) == off + (1usize << p)) && ((off >> q) << q != off
        ==> off ^ (1usize << p) == off - (1usize << p))) by (bit_vector)
        requires
            q == p + 1,
            p + 1 < usize::BITS,
            (off >> p) << p == off,
    ;
    // Back from shifts to remainders, this time at the doubled block size.
    assert(off >> q == off as nat / pow2(q as nat)) by {
        vstd::bits::lemma_usize_shr_is_div(off, q);
    }
    assert(off as nat / pow2(q as nat) * pow2(q as nat) == off as nat - off as nat % pow2(
        q as nat,
    )) by {
        vstd::arithmetic::div_mod::lemma_fundamental_div_mod(off as int, t as int);
    }
    assert((off >> q) << q == (off >> q) * pow2(q as nat)) by {
        vstd::bits::lemma_usize_shl_is_mul((off >> q) as usize, q);
        vstd::arithmetic::div_mod::lemma_mod_bound(off as int, t as int);
    }
    vstd::arithmetic::div_mod::lemma_mod_bound(off as int, t as int);
}

} // verus!
