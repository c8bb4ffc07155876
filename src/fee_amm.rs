use vstd::prelude::*;

use crate::price::div_trunc;

verus! {

/// Fee multiplier of a fee swap, scaled by `SCALE` (0.9970).
pub const M: i128 = 9970;

/// Multiplier of a rebalance swap, scaled by `SCALE` (0.9985).
pub const N: i128 = 9985;

/// Fixed-point scale of the multipliers.
pub const SCALE: i128 = 10000;

/// Failures of the fee pool.
#[derive(Copy, Clone, Debug, PartialEq, Eq, PartialOrd, Ord, Structural)]
pub enum Error {
    /// Both tokens of the pool are the same.
    IdenticalAddresses,
    /// The pool holds too little liquidity.
    InsufficientLiquidity,
    /// The pool's reserves do not cover the operation.
    InsufficientReserves,
    /// The amount is zero or negative.
    InvalidAmount,
    /// An amount left the range of `i128`.
    Overflow,
    /// A division by zero was attempted.
    DivisionByZero,
    /// The pool was never funded.
    PoolNotInitialized,
    /// The caller may not perform this operation.
    Unauthorized,
    /// A swap computation gave no usable result.
    InvalidSwapCalculation,
    /// The swap would pay out less than the caller's minimum.
    SlippageExceeded,
}

/// Reserves of a pool of a user token and a validator token.
#[derive(Copy, Clone, Debug, Default, PartialEq, Eq)]
pub struct Pool {
    pub reserve_user_token: i128,
    pub reserve_validator_token: i128,
}

/// The fee pool's pure pricing functions.
pub struct TempoFeeAMM;

/// Output of a fee swap of `amount_in`: `amount_in * M / SCALE`, truncated.
pub open spec fn fee_swap_output(amount_in: int) -> int {
    div_trunc(amount_in * M, SCALE as int)
}

/// Input of a rebalance swap that pays out `amount_out`:
/// `amount_out * N / SCALE + 1`, the division truncated.
pub open spec fn rebalance_input(amount_out: int) -> int {
    div_trunc(amount_out * N, SCALE as int) + 1
}

/// `amount_in * M / SCALE`, or `Overflow` where the product leaves `i128`.
pub fn compute_amount_out(amount_in: i128) -> (r: Result<i128, Error>)
    ensures
        r == (if i128::MIN <= amount_in * M <= i128::MAX {
            Ok(fee_swap_output(amount_in as int) as i128)
        } else {
            Err(Error::Overflow)
        }),
{
    match amount_in.checked_mul(M) {
        Some(product) => match product.checked_div(SCALE) {
            Some(out) => Ok(out),
            None => Err(Error::Overflow),
        },
        None => Err(Error::Overflow),
    }
}

impl TempoFeeAMM {
    /// Output of a fee swap of `amount_in`.
    pub fn calculate_fee_swap_output(amount_in: i128) -> (r: Result<i128, Error>)
        ensures
            r == (if i128::MIN <= amount_in * M <= i128::MAX {
                Ok(fee_swap_output(amount_in as int) as i128)
            } else {
                Err(Error::Overflow)
            }),
    {
        compute_amount_out(amount_in)
    }

    /// Input of a rebalance swap that pays out `amount_out`.
    pub fn calculate_rebalance_input(amount_out: i128) -> (r: Result<i128, Error>)
        ensures
            r == (if i128::MIN <= amount_out * N <= i128::MAX
                && rebalance_input(amount_out as int) <= i128::MAX {
                Ok(rebalance_input(amount_out as int) as i128)
            } else {
                Err(Error::Overflow)
            }),
    {
        match amount_out.checked_mul(N) {
            Some(product) => match product.checked_div(SCALE) {
                Some(q) => match q.checked_add(1) {
                    Some(r) => Ok(r),
                    None => Err(Error::Overflow),
                },
                None => Err(Error::Overflow),
            },
            None => Err(Error::Overflow),
        }
    }
}

/// `r` is the integer square root of `x`: the largest integer whose square
/// is at most `x`.
pub open spec fn is_isqrt(x: int, r: int) -> bool {
    0 <= r && r * r <= x < (r + 1) * (r + 1)
}

/// One Newton step toward the square root of `x` from `y` does not go below
/// the root: the square of one more than the step exceeds `x`.
proof fn lemma_newton_step(x: int, y: int)
    requires
        x >= 1,
        y >= 1,
    ensures
        ({
            let z = (x / y + y) / 2;
            &&& z >= 1
            &&& (z + 1) * (z + 1) > x
        }),
{
    let a = x / y;
    let z = (a + y) / 2;
    vstd::arithmetic::div_mod::lemma_fundamental_div_mod(x, y);
    vstd::arithmetic::div_mod::lemma_mod_bound(x, y);
    assert(a >= 0) by {
        vstd::arithmetic::div_mod::lemma_div_pos_is_pos(x, y);
    }
    assert(x < (a + 1) * y) by (nonlinear_arith)
        requires
            x == y * a + x % y,
            x % y < y,
    ;
    assert(2 * (z + 1) >= a + y + 1);
    assert(z >= 1) by {
        if y == 1 {
            assert(a == x) by {
                vstd::arithmetic::div_mod::lemma_div_basics(x);
            }
        }
    }
    assert(4 * ((z + 1) * (z + 1)) > 4 * x) by (nonlinear_arith)
        requires
            2 * (z + 1) >= a + y + 1,
            a + y + 1 > 0,
            x < (a + 1) * y,
            a >= 0,
            y >= 1,
    {
        assert((2 * (z + 1)) * (2 * (z + 1)) >= (a + y + 1) * (a + y + 1));
        assert((a + y + 1) * (a + y + 1) == ((a + 1) - y) * ((a + 1) - y) + 4 * ((a + 1) * y));
    }
}

/// The integer square root of `x`, by Newton's method; a negative `x` is
/// returned as it is.
pub fn sqrt(x: i128) -> (r: i128)
    requires
        x < i128::MAX,
    ensures
        x >= 0 ==> is_isqrt(x as int, r as int),
        x < 0 ==> r == x,
{
    if x == 0 {
        proof {
            assert(is_isqrt(0, 0)) by (nonlinear_arith);
        }
        return 0;
    }
    if x < 0 {
        return x;
    }
    let mut z = (x + 1) / 2;
    let mut y = x;
    proof {
        assert(z == (x / y + y) / 2) by {
            vstd::arithmetic::div_mod::lemma_div_by_self(x as int);
        }
        assert((y + 1) * (y + 1) > x) by (nonlinear_arith)
            requires
                y == x,
                x >= 1,
        ;
    }
    while z < y
        invariant
            1 <= x < i128::MAX,
            1 <= y <= x,
            z == (x / y + y) / 2,
            (y + 1) * (y + 1) > x,
        decreases y,
    {
        proof {
            lemma_newton_step(x as int, y as int);
        }
        y = z;
        let q = x / y;
        proof {
            let a = q as int;
            assert(a == (x as int) / (y as int));
            vstd::arithmetic::div_mod::lemma_fundamental_div_mod(x as int, y as int);
            vstd::arithmetic::div_mod::lemma_mod_bound(x as int, y as int);
            assert(a * y <= x) by (nonlinear_arith)
                requires
                    x == y * a + (x as int) % (y as int),
                    (x as int) % (y as int) >= 0,
            ;
            assert(a >= 0) by {
                vstd::arithmetic::div_mod::lemma_div_pos_is_pos(x as int, y as int);
            }
            assert(a + y <= x + 1) by (nonlinear_arith)
                requires
                    1 <= y <= x,
                    0 <= a,
                    a * y <= x,
            {
                if a >= 1 {
                    assert((y - 1) * (a - 1) >= 0);
                } else {
                    assert(a == 0);
                }
            }
        }
        z = (q + y) / 2;
    }
    proof {
        vstd::arithmetic::div_mod::lemma_fundamental_div_mod(x as int, y as int);
        vstd::arithmetic::div_mod::lemma_mod_bound(x as int, y as int);
        assert(x / y >= y);
        assert(y * y <= x) by (nonlinear_arith)
            requires
                x / y >= y,
                x == y * (x / y) + x % y,
                x % y >= 0,
                y >= 1,
        {
            assert(y * (x / y) >= y * y);
        }
    }
    y
}

} // verus!
