//! Floating point numbers by their bit patterns.
//!
//! Scores, weights and confidences are floating point numbers. What is decided about them here
//! (their order, whether they are finite, whether they lie in a range) is decided on the pattern of
//! their bits, which is a whole number.

use crate::json;
use crate::json::{Json, Number};
use vstd::prelude::*;

verus! {

/// The pattern of a double with only its sign set.
pub const SIGN_BIT: u64 = 0x8000_0000_0000_0000;

/// The pattern of the infinite double; those above it, up to the sign, are not numbers.
pub const INFINITY_BITS: u64 = 0x7ff0_0000_0000_0000;

/// The pattern of the double 1.
pub const ONE_BITS: u64 = 0x3ff0_0000_0000_0000;

/// The pattern of a single with only its sign set.
pub const SINGLE_SIGN_BIT: u32 = 0x8000_0000;

/// The pattern of the infinite single.
pub const SINGLE_INFINITY_BITS: u32 = 0x7f80_0000;

/// A double's place in the total order of all doubles. Patterns without the sign ascend with the
/// number, those with it descend, below all others.
pub open spec fn order_of(bits: u64) -> int {
    if bits < SIGN_BIT {
        bits as int
    } else {
        SIGN_BIT - 1 - bits
    }
}

/// A double's place in the total order of all doubles.
pub fn order_key(bits: u64) -> (out: i64)
    ensures
        out == order_of(bits),
{
    if bits < SIGN_BIT {
        bits as i64
    } else {
        -1 - ((bits - SIGN_BIT) as i64)
    }
}

/// The pattern that stands at a place in the total order.
pub fn bits_of_key(key: i64) -> (out: u64)
    ensures
        order_of(out) == key,
{
    if key >= 0 {
        key as u64
    } else {
        ((-1 - key) as u64) + SIGN_BIT
    }
}

/// Different patterns stand at different places.
pub proof fn order_tells_patterns_apart(a: u64, b: u64)
    requires
        order_of(a) == order_of(b),
    ensures
        a == b,
{
}

/// The order is that of the numbers: without the sign a greater pattern is a greater number, with it a
/// smaller one, and every number without the sign is above every one with it.
pub proof fn order_follows_the_numbers(a: u64, b: u64)
    ensures
        a < SIGN_BIT && b < SIGN_BIT ==> (order_of(a) < order_of(b) <==> a < b),
        a >= SIGN_BIT && b >= SIGN_BIT ==> (order_of(a) < order_of(b) <==> a > b),
        a < SIGN_BIT && b >= SIGN_BIT ==> order_of(a) > order_of(b),
{
}

/// The order of singles is that of the numbers.
pub proof fn single_order_follows_the_numbers(a: u32, b: u32)
    ensures
        a < SINGLE_SIGN_BIT && b < SINGLE_SIGN_BIT ==> (single_order_of(a) < single_order_of(b) <==> a < b),
        a >= SINGLE_SIGN_BIT && b >= SINGLE_SIGN_BIT ==> (single_order_of(a) < single_order_of(b) <==> a > b),
        a < SINGLE_SIGN_BIT && b >= SINGLE_SIGN_BIT ==> single_order_of(a) > single_order_of(b),
{
}

/// Comparing goes by the numbers: numbers without the sign compare as their patterns, every one of
/// them is at least every one with the sign, the two zeros are at least each other, and what is no
/// number is at least nothing.
pub proof fn at_least_follows_the_numbers(a: u64, b: u64)
    ensures
        a <= INFINITY_BITS && b <= INFINITY_BITS ==> (at_least(a, b) <==> a >= b),
        a <= INFINITY_BITS && SIGN_BIT <= b <= SIGN_BIT + INFINITY_BITS ==> at_least(a, b),
        SIGN_BIT < a && b <= INFINITY_BITS ==> !at_least(a, b),
        SIGN_BIT <= a <= SIGN_BIT + INFINITY_BITS && SIGN_BIT <= b <= SIGN_BIT + INFINITY_BITS ==> (at_least(a, b) <==> a <= b),
        at_least(SIGN_BIT, 0) && at_least(0, SIGN_BIT),
        INFINITY_BITS < a < SIGN_BIT || a > SIGN_BIT + INFINITY_BITS ==> !at_least(a, b) && !at_least(b, a),
{
}

/// What counts as a number in a range: positive and finite without zero, nonnegative and finite, and
/// from zero to one. No number that is negative, infinite or none at all is any of these.
pub proof fn ranges_follow_the_numbers(a: u64)
    ensures
        positive(a) <==> a < SIGN_BIT && a != 0 && a < INFINITY_BITS,
        nonnegative(a) <==> a == SIGN_BIT || positive(a) || a == 0,
        in_unit(a) <==> nonnegative(a) && at_least(ONE_BITS, a),
{
}

/// A single is finite where its exponent is not all ones, whatever its sign.
pub proof fn finite_singles(a: u32)
    ensures
        a < SINGLE_SIGN_BIT ==> (single_finite(a) <==> a < 0x7f80_0000),
        a < SINGLE_SIGN_BIT ==> (single_finite(a) <==> single_finite((a + SINGLE_SIGN_BIT) as u32)),
{
}

/// A single's place in the total order of all singles.
pub open spec fn single_order_of(bits: u32) -> int {
    if bits < SINGLE_SIGN_BIT {
        bits as int
    } else {
        SINGLE_SIGN_BIT - 1 - bits
    }
}

/// A single's place in the total order of all singles.
pub fn single_order_key(bits: u32) -> (out: i64)
    ensures
        out == single_order_of(bits),
{
    if bits < SINGLE_SIGN_BIT {
        bits as i64
    } else {
        -1 - ((bits - SINGLE_SIGN_BIT) as i64)
    }
}

/// A double that is greater than zero and finite.
pub open spec fn positive(bits: u64) -> bool {
    0 < bits < INFINITY_BITS
}

/// Whether a double is greater than zero and finite.
pub fn is_positive(bits: u64) -> (out: bool)
    ensures
        out == positive(bits),
{
    0 < bits && bits < INFINITY_BITS
}

/// A double from zero to one; zero may have a sign.
pub open spec fn in_unit(bits: u64) -> bool {
    bits <= ONE_BITS || bits == SIGN_BIT
}

/// Whether a double lies between zero and one.
pub fn is_in_unit(bits: u64) -> (out: bool)
    ensures
        out == in_unit(bits),
{
    bits <= ONE_BITS || bits == SIGN_BIT
}

/// A single that is a number and finite.
pub open spec fn single_finite(bits: u32) -> bool {
    bits < SINGLE_INFINITY_BITS || (SINGLE_SIGN_BIT <= bits && bits - SINGLE_SIGN_BIT < SINGLE_INFINITY_BITS)
}

/// Whether a single is a number and finite.
pub fn is_single_finite(bits: u32) -> (out: bool)
    ensures
        out == single_finite(bits),
{
    bits < SINGLE_INFINITY_BITS || (SINGLE_SIGN_BIT <= bits && bits - SINGLE_SIGN_BIT < SINGLE_INFINITY_BITS)
}

/// A double that is finite and not below zero; zero may have a sign.
pub open spec fn nonnegative(bits: u64) -> bool {
    bits < INFINITY_BITS || bits == SIGN_BIT
}

/// Whether a double is finite and not below zero.
pub fn is_nonnegative(bits: u64) -> (out: bool)
    ensures
        out == nonnegative(bits),
{
    bits < INFINITY_BITS || bits == SIGN_BIT
}

/// A pattern that is no number.
pub open spec fn no_number(bits: u64) -> bool {
    INFINITY_BITS < bits < SIGN_BIT || bits > SIGN_BIT + INFINITY_BITS
}

/// The double of `a` is at least that of `b`. The two zeros are equal, and what is no number is at
/// least nothing.
pub open spec fn at_least(a: u64, b: u64) -> bool {
    !no_number(a) && !no_number(b) && (order_of(a) >= order_of(b) || (a == SIGN_BIT && b == 0))
}

/// Whether the double of `a` is at least that of `b`.
pub fn is_at_least(a: u64, b: u64) -> (out: bool)
    ensures
        out == at_least(a, b),
{
    let a_number = a <= INFINITY_BITS || (SIGN_BIT <= a && a - SIGN_BIT <= INFINITY_BITS);
    let b_number = b <= INFINITY_BITS || (SIGN_BIT <= b && b - SIGN_BIT <= INFINITY_BITS);
    a_number && b_number && (order_key(a) >= order_key(b) || (a == SIGN_BIT && b == 0))
}

/// A double: its bits, and the decimal text that stands for it in JSON.
#[derive(Debug)]
pub struct Real {
    pub bits: u64,
    pub text: String,
}

impl Real {
    /// The number in JSON.
    pub open spec fn tree(self) -> json::Tree {
        json::Tree::Number(json::NumberTree { text: self.text@, int: None, nat: None })
    }

    /// The number in JSON.
    pub fn value(&self) -> (out: Json)
        ensures
            json::tree(out) == self.tree(),
    {
        Json::Number(Number { text: self.text.clone(), int: None, nat: None })
    }

    /// A copy of the number.
    pub fn copy(&self) -> (out: Real)
        ensures
            out == *self,
    {
        Real { bits: self.bits, text: self.text.clone() }
    }
}

} // verus!
