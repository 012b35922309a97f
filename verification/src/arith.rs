//! Wrapping 32-bit arithmetic: the value model of every container cell.
//!
//! All five binary operations and the comparison share one evaluation
//! function, used both by the interpreter and by the tracing precompiler.
//! Division and remainder truncate toward zero and fail on a zero divisor.

use vstd::arithmetic::div_mod::{
    lemma_div_nonincreasing, lemma_div_pos_is_pos, lemma_mod_bound,
};
use vstd::prelude::*;

verus! {

/// The binary operations that fold the two front container values.
#[derive(Copy, Clone, PartialEq, Eq, Structural)]
pub enum BinaryOp {
    Add,
    Sub,
    Mul,
    Div,
    Mod,
    Cmp,
}

/// Truncated-toward-zero quotient of `b / a` over the integers.
pub open spec fn trunc_div(b: int, a: int) -> int
    recommends
        a != 0,
{
    if b == 0 {
        0
    } else if b > 0 && a > 0 {
        b / a
    } else if b < 0 && a < 0 {
        (b * -1) / (a * -1)
    } else if b < 0 {
        ((b * -1) / a) * -1
    } else {
        (b / (a * -1)) * -1
    }
}

/// Truncated-toward-zero remainder of `b % a` over the integers: it takes
/// the sign of `b`, and `b == trunc_div(b, a) * a + trunc_rem(b, a)`.
pub open spec fn trunc_rem(b: int, a: int) -> int
    recommends
        a != 0,
{
    if b == 0 {
        0
    } else if b > 0 && a > 0 {
        b % a
    } else if b < 0 && a < 0 {
        ((b * -1) % (a * -1)) * -1
    } else if b < 0 {
        ((b * -1) % a) * -1
    } else {
        b % (a * -1)
    }
}

/// `i32` addition with two's-complement wrap-around.
pub open spec fn wrap_add(b: i32, a: i32) -> i32 {
    vstd::wrapping::i32_specs::wrapping_add(b, a)
}

/// `i32` subtraction with two's-complement wrap-around.
pub open spec fn wrap_sub(b: i32, a: i32) -> i32 {
    vstd::wrapping::i32_specs::wrapping_sub(b, a)
}

/// `i32` multiplication with two's-complement wrap-around.
pub open spec fn wrap_mul(b: i32, a: i32) -> i32 {
    vstd::wrapping::i32_specs::wrapping_mul(b, a)
}

/// `i32` division, truncated toward zero, wrapping on the single
/// overflowing case `i32::MIN / -1`. The divisor must not be zero.
pub open spec fn wrap_div(b: i32, a: i32) -> i32
    recommends
        a != 0,
{
    if b == i32::MIN && a == -1 {
        i32::MIN
    } else {
        trunc_div(b as int, a as int) as i32
    }
}

/// `i32` remainder, truncated toward zero, with `i32::MIN % -1 == 0`.
/// The divisor must not be zero.
pub open spec fn wrap_rem(b: i32, a: i32) -> i32
    recommends
        a != 0,
{
    if b == i32::MIN && a == -1 {
        0i32
    } else {
        trunc_rem(b as int, a as int) as i32
    }
}

/// What one binary operation folds `b` (the deeper value) and `a` (the
/// value popped first) into; `None` exactly on division or remainder by
/// zero, the one arithmetic fault.
pub open spec fn bin_eval(op: BinaryOp, b: i32, a: i32) -> Option<i32> {
    match op {
        BinaryOp::Add => Some(wrap_add(b, a)),
        BinaryOp::Sub => Some(wrap_sub(b, a)),
        BinaryOp::Mul => Some(wrap_mul(b, a)),
        BinaryOp::Div => if a == 0 {
            None
        } else {
            Some(wrap_div(b, a))
        },
        BinaryOp::Mod => if a == 0 {
            None
        } else {
            Some(wrap_rem(b, a))
        },
        BinaryOp::Cmp => Some(if a <= b { 1i32 } else { 0i32 }),
    }
}

/// The truncated quotient never exceeds the dividend's magnitude, so it
/// stays in `i32` range except for `i32::MIN / -1`.
proof fn lemma_trunc_div_in_range(b: i32, a: i32)
    requires
        a != 0,
        !(b == i32::MIN && a == -1),
    ensures
        i32::MIN <= trunc_div(b as int, a as int) <= i32::MAX,
{
    let x = b as int;
    let d = a as int;
    if x == 0 {
    } else if x > 0 && d > 0 {
        lemma_div_pos_is_pos(x, d);
        lemma_div_nonincreasing(x, d);
    } else if x < 0 && d < 0 {
        lemma_div_pos_is_pos(x * -1, d * -1);
        if d == -1 {
            vstd::arithmetic::div_mod::lemma_div_basics(x * -1);
        } else {
            vstd::arithmetic::div_mod::lemma_div_decreases(x * -1, d * -1);
        }
    } else if x < 0 {
        lemma_div_pos_is_pos(x * -1, d);
        lemma_div_nonincreasing(x * -1, d);
    } else {
        lemma_div_pos_is_pos(x, d * -1);
        lemma_div_nonincreasing(x, d * -1);
    }
}

/// The truncated remainder's magnitude stays below the divisor's, so it
/// stays in `i32` range.
proof fn lemma_trunc_rem_in_range(b: i32, a: i32)
    requires
        a != 0,
        !(b == i32::MIN && a == -1),
    ensures
        i32::MIN <= trunc_rem(b as int, a as int) <= i32::MAX,
{
    let x = b as int;
    let d = a as int;
    if x == 0 {
    } else if x > 0 && d > 0 {
        lemma_mod_bound(x, d);
    } else if x < 0 && d < 0 {
        lemma_mod_bound(x * -1, d * -1);
    } else if x < 0 {
        lemma_mod_bound(x * -1, d);
    } else {
        lemma_mod_bound(x, d * -1);
    }
}

/// Evaluates one binary fold operation; `None` exactly on division or
/// remainder by zero.
pub fn eval_binary(op: BinaryOp, b: i32, a: i32) -> (r: Option<i32>)
    ensures
        r == bin_eval(op, b, a),
{
    match op {
        BinaryOp::Add => Some(b.wrapping_add(a)),
        BinaryOp::Sub => Some(b.wrapping_sub(a)),
        BinaryOp::Mul => Some(b.wrapping_mul(a)),
        BinaryOp::Div => {
            if a == 0 {
                None
            } else {
                proof {
                    if !(b == i32::MIN && a == -1) {
                        lemma_trunc_div_in_range(b, a);
                    }
                }
                match b.checked_div(a) {
                    Some(q) => Some(q),
                    None => Some(i32::MIN),
                }
            }
        },
        BinaryOp::Mod => {
            if a == 0 {
                None
            } else {
                proof {
                    if !(b == i32::MIN && a == -1) {
                        lemma_trunc_rem_in_range(b, a);
                    }
                }
                match b.checked_rem(a) {
                    Some(m) => Some(m),
                    None => Some(0),
                }
            }
        },
        BinaryOp::Cmp => Some(if a <= b { 1 } else { 0 }),
    }
}

} // verus!
