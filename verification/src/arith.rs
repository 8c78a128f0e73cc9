use vstd::arithmetic::power::pow;
use vstd::prelude::*;

verus! {

/// The value as a 32-bit integer, where it is one.
pub open spec fn narrowed(v: int) -> Option<i32> {
    if i32::MIN <= v <= i32::MAX {
        Some(v as i32)
    } else {
        None
    }
}

/// The quotient rounded toward zero.
pub open spec fn truncated_quotient(x: int, y: int) -> int
    recommends
        y != 0,
{
    if x >= 0 {
        if y > 0 {
            x / y
        } else {
            -(x / (-y))
        }
    } else {
        if y > 0 {
            -((-x) / y)
        } else {
            (-x) / (-y)
        }
    }
}

/// The exponent that a 32-bit integer stands for: its bits read as an
/// unsigned number, so a negative one stands for a very large exponent.
pub open spec fn exponent_of(y: i32) -> nat {
    if y >= 0 {
        y as nat
    } else {
        (y + 0x1_0000_0000) as nat
    }
}

spec fn magnitude(v: int) -> int {
    if v >= 0 {
        v
    } else {
        -v
    }
}

proof fn lemma_power_step(x: int, e: nat)
    ensures
        pow(x, e + 1) == x * pow(x, e),
{
    reveal(pow);
}

proof fn lemma_power_of_zero(e: nat)
    ensures
        pow(0, e) == if e == 0 {
            1int
        } else {
            0int
        },
{
    reveal(pow);
}

proof fn lemma_power_of_one(e: nat)
    ensures
        pow(1, e) == 1,
    decreases e,
{
    reveal(pow);
    if e > 0 {
        lemma_power_of_one((e - 1) as nat);
    }
}

proof fn lemma_power_of_minus_one(e: nat)
    ensures
        pow(-1, e) == if e % 2 == 0 {
            1int
        } else {
            -1int
        },
    decreases e,
{
    reveal(pow);
    if e > 0 {
        lemma_power_of_minus_one((e - 1) as nat);
    }
}

proof fn lemma_power_grows(x: int, j: nat, e: nat)
    requires
        x >= 2 || x <= -2,
        j < e,
    ensures
        magnitude(pow(x, e)) >= 2 * magnitude(pow(x, j)),
    decreases e - j,
{
    lemma_power_step(x, (e - 1) as nat);
    let p = pow(x, (e - 1) as nat);
    assert(magnitude(x * p) >= 2 * magnitude(p)) by (nonlinear_arith)
        requires
            x >= 2 || x <= -2,
    ;
    if j + 1 < e {
        lemma_power_grows(x, j, (e - 1) as nat);
    }
}

/// Integer exponentiation. The exponent is read as [`exponent_of`] says;
/// there is a result only where the power fits in 32 bits.
pub fn int_power(x: i32, y: i32) -> (r: Option<i32>)
    ensures
        r == narrowed(pow(x as int, exponent_of(y))),
{
    let e: u64 = if y >= 0 {
        y as u64
    } else {
        (y as i64 + 0x1_0000_0000) as u64
    };
    assert(e == exponent_of(y));
    if x == 0 {
        proof {
            lemma_power_of_zero(e as nat);
        }
        return Some(if e == 0 {
            1
        } else {
            0
        });
    }
    if x == 1 {
        proof {
            lemma_power_of_one(e as nat);
        }
        return Some(1);
    }
    if x == -1 {
        proof {
            lemma_power_of_minus_one(e as nat);
        }
        return Some(if e % 2 == 0 {
            1
        } else {
            -1
        });
    }
    let mut acc: i32 = 1;
    let mut k: u64 = 0;
    proof {
        reveal(pow);
    }
    while k < e
        invariant
            k <= e,
            e == exponent_of(y),
            x >= 2 || x <= -2,
            acc == pow(x as int, k as nat),
        decreases e - k,
    {
        assert(-0x4000_0000_0000_0000 <= acc * x <= 0x4000_0000_0000_0000) by (nonlinear_arith)
            requires
                -0x8000_0000 <= acc <= 0x8000_0000,
                -0x8000_0000 <= x <= 0x8000_0000,
        ;
        let next: i64 = (acc as i64) * (x as i64);
        proof {
            lemma_power_step(x as int, k as nat);
            assert(acc * x == x * acc) by (nonlinear_arith);
        }
        if next < -0x8000_0000 || next > 0x7fff_ffff {
            proof {
                if k + 1 < e {
                    lemma_power_grows(x as int, (k + 1) as nat, e as nat);
                }
            }
            return None;
        }
        acc = next as i32;
        k += 1;
    }
    Some(acc)
}

/// The quotient rounded toward zero, where the divisor is not zero and the
/// quotient fits in 32 bits.
pub fn int_quotient(x: i32, y: i32) -> (r: Option<i32>)
    ensures
        r == if y == 0 {
            None
        } else {
            narrowed(truncated_quotient(x as int, y as int))
        },
{
    x.checked_div(y)
}

pub fn int_product(x: i32, y: i32) -> (r: Option<i32>)
    ensures
        r == narrowed(x * y),
{
    assert(-0x4000_0000_0000_0000 <= x * y <= 0x4000_0000_0000_0000) by (nonlinear_arith)
        requires
            -0x8000_0000 <= x <= 0x8000_0000,
            -0x8000_0000 <= y <= 0x8000_0000,
    ;
    let wide: i64 = (x as i64) * (y as i64);
    if wide < -0x8000_0000 || wide > 0x7fff_ffff {
        None
    } else {
        Some(wide as i32)
    }
}

pub fn int_sum(x: i32, y: i32) -> (r: Option<i32>)
    ensures
        r == narrowed(x + y),
{
    let wide: i64 = (x as i64) + (y as i64);
    if wide < -0x8000_0000 || wide > 0x7fff_ffff {
        None
    } else {
        Some(wide as i32)
    }
}

pub fn int_difference(x: i32, y: i32) -> (r: Option<i32>)
    ensures
        r == narrowed(x - y),
{
    let wide: i64 = (x as i64) - (y as i64);
    if wide < -0x8000_0000 || wide > 0x7fff_ffff {
        None
    } else {
        Some(wide as i32)
    }
}

} // verus!
