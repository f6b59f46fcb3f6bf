use vstd::prelude::*;

verus! {

/// `ln 2` in Q16 fixed point: `floor(ln(2) * 65536)`.
pub const LN2_Q16: u64 = 45426;

/// Whether `r` is the integer square root of `x`.
pub open spec fn is_sqrt_of(r: int, x: int) -> bool {
    &&& 0 <= r
    &&& r * r <= x
    &&& x < (r + 1) * (r + 1)
}

/// The integer square root of `x`: the greatest `r` with `r * r <= x`.
pub open spec fn int_sqrt(x: int) -> int {
    choose|r: int| is_sqrt_of(r, x)
}

/// Every nonnegative integer has an integer square root, and it is what
/// [`int_sqrt`] denotes.
pub proof fn lemma_int_sqrt_exists(x: int)
    requires
        x >= 0,
    ensures
        is_sqrt_of(int_sqrt(x), x),
    decreases x,
{
    if x == 0 {
        assert(is_sqrt_of(0, 0));
    } else {
        lemma_int_sqrt_exists(x - 1);
        let r = int_sqrt(x - 1);
        if (r + 1) * (r + 1) <= x {
            assert((r + 1) * (r + 1) < (r + 2) * (r + 2)) by (nonlinear_arith)
                requires
                    r >= 0,
            ;
            assert(is_sqrt_of(r + 1, x));
        } else {
            assert(is_sqrt_of(r, x));
        }
    }
}

/// The integer square root is unique.
pub proof fn lemma_int_sqrt_unique(a: int, b: int, x: int)
    requires
        is_sqrt_of(a, x),
        is_sqrt_of(b, x),
    ensures
        a == b,
{
    if a < b {
        assert((a + 1) * (a + 1) <= b * b) by (nonlinear_arith)
            requires
                0 <= a,
                a + 1 <= b,
        ;
    }
    if b < a {
        assert((b + 1) * (b + 1) <= a * a) by (nonlinear_arith)
            requires
                0 <= b,
                b + 1 <= a,
        ;
    }
}

/// Returns the integer square root of `x`, by binary search on the bits of
/// the result.
pub fn isqrt64(x: u64) -> (r: u64)
    requires
        x < 0x1_0000_0000_0000,
    ensures
        r as int == int_sqrt(x as int),
        r * r <= x,
{
    let mut r: u64 = 0;
    let mut bit: u64 = 0x80_0000;
    let ghost mut e: nat = 23;
    proof {
        assert(pot(23) == 0x80_0000) by {
            reveal_with_fuel(pot, 24);
        }
        assert((0 + 2 * 0x80_0000) * (0 + 2 * 0x80_0000) == 0x1_0000_0000_0000);
    }
    while bit > 0
        invariant
            x < 0x1_0000_0000_0000,
            r <= 0x100_0000,
            bit <= 0x80_0000,
            bit > 0 ==> bit as int == pot(e),
            r * r <= x,
            bit > 0 ==> (x as int) < (r + 2 * bit) * (r + 2 * bit),
            bit == 0 ==> (x as int) < (r + 1) * (r + 1),
        decreases bit,
    {
        proof {
            assert((r + bit) * (r + bit) <= 0x180_0000 * 0x180_0000) by (nonlinear_arith)
                requires
                    0 <= r <= 0x100_0000,
                    0 <= bit <= 0x80_0000,
            ;
        }
        let cand = r + bit;
        if cand * cand <= x {
            proof {
                assert(cand <= 0x100_0000) by (nonlinear_arith)
                    requires
                        cand >= 0,
                        cand * cand <= x,
                        x < 0x1_0000_0000_0000,
                ;
            }
            r = cand;
        }
        proof {
            if e > 0 {
                assert(pot(e) == 2 * pot((e - 1) as nat));
                assert(bit as int / 2 == pot((e - 1) as nat));
                e = (e - 1) as nat;
            } else {
                assert(bit == 1);
            }
        }
        bit = bit / 2;
    }
    proof {
        lemma_int_sqrt_exists(x as int);
        lemma_int_sqrt_unique(r as int, int_sqrt(x as int), x as int);
    }
    r
}

/// Two to the power `b`.
pub open spec fn pot(b: nat) -> int
    decreases b,
{
    if b == 0 {
        1
    } else {
        2 * pot((b - 1) as nat)
    }
}

/// Powers of two are positive and increasing.
pub proof fn lemma_pot_mono(a: nat, b: nat)
    requires
        a <= b,
    ensures
        0 < pot(a) <= pot(b),
    decreases b,
{
    if b > 0 {
        if a == b {
            lemma_pot_mono((a - 1) as nat, (b - 1) as nat);
        } else {
            lemma_pot_mono(a, (b - 1) as nat);
        }
    }
}

/// Halves `m` until it is below `2^17`, returning the result and the number
/// of halvings.
pub open spec fn spec_norm_down(m: int) -> (int, int)
    decreases m,
{
    if m >= 0x20000 {
        let p = spec_norm_down(m / 2);
        (p.0, p.1 + 1)
    } else {
        (m, 0)
    }
}

/// Returns `spec_norm_down` of `m`: the mantissa in `[2^16, 2^17)` and the
/// number of halvings, at most the budget `b`.
fn norm_down(m: u64, Ghost(b): Ghost<nat>) -> (r: (u64, u64))
    requires
        m >= 0x10000,
        m < 0x20000 * pot(b),
        b <= 48,
    ensures
        (r.0 as int, r.1 as int) == spec_norm_down(m as int),
        0x10000 <= r.0 < 0x20000,
        r.1 <= b,
    decreases m,
{
    if m >= 0x20000 {
        proof {
            assert(pot(b) > 1) by {
                if b == 0 {
                }
            }
            assert(b >= 1);
            assert(m / 2 < 0x20000 * pot((b - 1) as nat));
        }
        let p = norm_down(m / 2, Ghost((b - 1) as nat));
        (p.0, p.1 + 1)
    } else {
        (m, 0)
    }
}

/// Sixteen base-2 logarithm digits of a Q16 mantissa in `[1, 2)`, computed
/// by repeated squaring, accumulated most-significant first onto `acc`.
pub open spec fn spec_log2_frac(m: int, steps: nat, acc: int) -> int
    decreases steps,
{
    if steps == 0 {
        acc
    } else {
        let sq = m * m / 0x10000;
        if sq >= 0x20000 {
            spec_log2_frac(sq / 2, (steps - 1) as nat, acc * 2 + 1)
        } else {
            spec_log2_frac(sq, (steps - 1) as nat, acc * 2)
        }
    }
}

/// Returns `spec_log2_frac(m, steps, acc)`, which appends `steps` binary
/// digits after the digits already in `acc`.
fn log2_frac(m: u64, steps: u64, acc: u64) -> (r: u64)
    requires
        0x10000 <= m < 0x20000,
        steps <= 16,
        (acc as int) < pot((16 - steps) as nat),
    ensures
        r as int == spec_log2_frac(m as int, steps as nat, acc as int),
        (acc as int) * pot(steps as nat) <= r as int,
        (r as int) < (acc + 1) * pot(steps as nat),
    decreases steps,
{
    proof {
        lemma_pot_mono((16 - steps) as nat, 16);
        assert(pot(16) == 0x10000) by {
            reveal_with_fuel(pot, 17);
        }
    }
    if steps == 0 {
        acc
    } else {
        proof {
            assert(m * m < 0x4_0000_0000) by (nonlinear_arith)
                requires
                    0 <= m < 0x20000,
            ;
            assert(m * m >= 0x1_0000_0000) by (nonlinear_arith)
                requires
                    m >= 0x10000,
            ;
        }
        let sq = m * m / 0x10000;
        let s2 = (steps - 1) as u64;
        proof {
            assert(pot((16 - s2) as nat) == 2 * pot((16 - steps) as nat));
        }
        let r = if sq >= 0x20000 {
            log2_frac(sq / 2, s2, acc * 2 + 1)
        } else {
            log2_frac(sq, s2, acc * 2)
        };
        proof {
            let ps = pot(steps as nat);
            let ps1 = pot(s2 as nat);
            assert(ps == 2 * ps1);
            assert(ps1 > 0) by {
                lemma_pot_mono(0, s2 as nat);
            }
            let a = acc as int;
            if sq >= 0x20000 {
                assert((2 * a + 1) * ps1 == a * ps + ps1) by (nonlinear_arith)
                    requires
                        ps == 2 * ps1,
                ;
                assert((2 * a + 2) * ps1 == (a + 1) * ps) by (nonlinear_arith)
                    requires
                        ps == 2 * ps1,
                ;
            } else {
                assert((2 * a) * ps1 == a * ps) by (nonlinear_arith)
                    requires
                        ps == 2 * ps1,
                ;
                assert((2 * a + 1) * ps1 <= (a + 1) * ps) by (nonlinear_arith)
                    requires
                        ps == 2 * ps1,
                        ps1 > 0,
                ;
            }
        }
        r
    }
}

/// The natural logarithm of `n` in Q16 fixed point: `0` for `n <= 1`, and
/// otherwise sixteen binary digits of `log2 n` scaled by `ln 2`.
pub open spec fn spec_ln_q16(n: int) -> int {
    if n <= 0 {
        0
    } else {
        let p = spec_norm_down(n * 0x10000);
        (p.1 * 0x10000 + spec_log2_frac(p.0, 16, 0)) * 45426 / 0x10000
    }
}

/// Returns the natural logarithm of `n` in Q16 fixed point.
pub fn ln_q16(n: u64) -> (r: u64)
    requires
        n <= 0x1_0000_0000,
    ensures
        r as int == spec_ln_q16(n as int),
        r <= 0x30_0000,
{
    if n == 0 {
        return 0;
    }
    let scaled = n * 0x10000;
    proof {
        assert(pot(32) == 0x1_0000_0000) by {
            reveal_with_fuel(pot, 33);
        }
    }
    let (m, h) = norm_down(scaled, Ghost(32));
    let frac = log2_frac(m, 16, 0);
    proof {
        assert(pot(16) == 0x10000) by {
            reveal_with_fuel(pot, 17);
        }
    }
    let r = (h * 0x10000 + frac) * 45426 / 0x10000;
    proof {
        assert((h * 0x10000 + frac) * 45426 / 0x10000 <= 0x30_0000) by (nonlinear_arith)
            requires
                0 <= h <= 32,
                0 <= frac < 0x10000,
        ;
    }
    r
}

} // verus!
