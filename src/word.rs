use vstd::prelude::*;

use crate::error::MachineError;
use crate::text::{decimal_string, int_text};

verus! {

/// The sign bit of an IEEE-754 binary64 bit pattern.
pub const SIGN_BIT: u64 = 0x8000_0000_0000_0000;

/// The bit pattern of positive infinity; every larger magnitude is a NaN.
pub const INFINITY_BITS: u64 = 0x7ff0_0000_0000_0000;

/// A tagged machine word. `Float` holds the IEEE-754 binary64 bit pattern of
/// the value, so two floats are `==` exactly when their bits agree.
#[derive(Clone, Copy, Debug, PartialEq, Eq, Structural)]
pub enum Word {
    Float(u64),
    Boolean(bool),
    Int(i64),
    Usize(usize),
}

/// The four binary arithmetic operations. Applied as `lhs OP rhs`, where
/// `lhs` is the operand that was pushed first.
#[derive(Clone, Copy, Debug, PartialEq, Eq, Structural)]
pub enum ArithOp {
    Add,
    Sub,
    Mul,
    Div,
}

/// The magnitude part (all bits but the sign) of a binary64 bit pattern.
pub open spec fn float_magnitude(bits: u64) -> int {
    if bits >= SIGN_BIT {
        bits - SIGN_BIT
    } else {
        bits as int
    }
}

pub open spec fn float_is_nan(bits: u64) -> bool {
    float_magnitude(bits) > INFINITY_BITS
}

/// An integer that orders non-NaN binary64 values as the reals they denote:
/// both zeros map to 0, negative values to the negated magnitude.
pub open spec fn float_order_key(bits: u64) -> int {
    if bits >= SIGN_BIT {
        -float_magnitude(bits)
    } else {
        float_magnitude(bits)
    }
}

/// `a >= b` on binary64 values; false when either is a NaN.
pub open spec fn float_ge(a: u64, b: u64) -> bool {
    !float_is_nan(a) && !float_is_nan(b) && float_order_key(a) >= float_order_key(b)
}

/// `x > 0.0` on a binary64 value; false for NaN and for both zeros.
pub open spec fn float_positive(bits: u64) -> bool {
    !float_is_nan(bits) && float_order_key(bits) > 0
}

/// Integer division truncating toward zero, over the mathematical integers.
pub open spec fn truncated_quotient(x: int, d: int) -> int {
    if x == 0 {
        0
    } else if x > 0 && d > 0 {
        x / d
    } else if x < 0 && d < 0 {
        (-x) / (-d)
    } else if x < 0 {
        -((-x) / d)
    } else {
        -(x / (-d))
    }
}

/// Truncating `i64` division that wraps on the one overflowing case
/// (`i64::MIN / -1`). Meaningful only for a nonzero divisor.
pub open spec fn int_quotient(x: i64, d: i64) -> i64 {
    let q = truncated_quotient(x as int, d as int);
    if q > i64::MAX {
        i64::MIN
    } else {
        q as i64
    }
}

/// Wrapping two's-complement arithmetic on `Int` operands.
pub open spec fn int_arith(op: ArithOp, x: i64, y: i64) -> Result<i64, MachineError> {
    match op {
        ArithOp::Add => Ok(x.wrapping_add(y)),
        ArithOp::Sub => Ok(x.wrapping_sub(y)),
        ArithOp::Mul => Ok(x.wrapping_mul(y)),
        ArithOp::Div => if y == 0 {
            Err(MachineError::DivisionByZero)
        } else {
            Ok(int_quotient(x, y))
        },
    }
}

/// `lhs OP rhs` on words. Two `Int`s use wrapping integer arithmetic; two
/// `Float`s give `Float(float_result)`, the bits that the float unit
/// returned; every other pairing is a type mismatch.
pub open spec fn word_arith(op: ArithOp, lhs: Word, rhs: Word, float_result: u64) -> Result<
    Word,
    MachineError,
> {
    match (lhs, rhs) {
        (Word::Int(x), Word::Int(y)) => match int_arith(op, x, y) {
            Ok(v) => Ok(Word::Int(v)),
            Err(e) => Err(e),
        },
        (Word::Float(_), Word::Float(_)) => Ok(Word::Float(float_result)),
        _ => Err(MachineError::TypeMismatch),
    }
}

/// Whether `float_result` is an answer that the float unit `unit` may give
/// for `lhs OP rhs`. Holds trivially when the operands are not two floats,
/// since the unit is then not consulted.
pub open spec fn unit_gives<F: Fn(ArithOp, u64, u64) -> u64>(
    unit: F,
    op: ArithOp,
    lhs: Word,
    rhs: Word,
    float_result: u64,
) -> bool {
    match (lhs, rhs) {
        (Word::Float(a), Word::Float(b)) => call_ensures(unit, (op, a, b), float_result),
        _ => true,
    }
}

/// A float unit that may be called on any operands.
pub open spec fn unit_total<F: Fn(ArithOp, u64, u64) -> u64>(unit: F) -> bool {
    forall|op: ArithOp, a: u64, b: u64| call_requires(unit, (op, a, b))
}

/// `a >= b` on two numeric words of the same variant; `None` for any other
/// pairing (mixed variants, or booleans).
pub open spec fn word_ge(a: Word, b: Word) -> Option<bool> {
    match (a, b) {
        (Word::Int(x), Word::Int(y)) => Some(x >= y),
        (Word::Usize(x), Word::Usize(y)) => Some(x >= y),
        (Word::Float(x), Word::Float(y)) => Some(float_ge(x, y)),
        _ => None,
    }
}

/// A truncated quotient is no larger in magnitude than the dividend.
proof fn lemma_quotient_bounds(x: int, d: int)
    requires
        d != 0,
        i64::MIN <= x <= i64::MAX,
    ensures
        i64::MIN <= truncated_quotient(x, d) <= -(i64::MIN as int),
{
    if x > 0 && d > 0 {
        assert(x / d <= x) by (nonlinear_arith)
            requires
                x > 0,
                d > 0,
        ;
    } else if x < 0 && d < 0 {
        assert((-x) / (-d) <= -x) by (nonlinear_arith)
            requires
                x < 0,
                d < 0,
        ;
        assert((-x) / (-d) >= 0) by (nonlinear_arith)
            requires
                x < 0,
                d < 0,
        ;
    } else if x < 0 {
        assert((-x) / d <= -x) by (nonlinear_arith)
            requires
                x < 0,
                d > 0,
        ;
        assert((-x) / d >= 0) by (nonlinear_arith)
            requires
                x < 0,
                d > 0,
        ;
    } else if x > 0 {
        assert(x / (-d) <= x) by (nonlinear_arith)
            requires
                x > 0,
                d < 0,
        ;
        assert(x / (-d) >= 0) by (nonlinear_arith)
            requires
                x > 0,
                d < 0,
        ;
    }
}

/// The text of a word: its scalar with no type tag. `float_text` is the
/// rendering of a float.
pub open spec fn word_text(w: Word, float_text: Seq<char>) -> Seq<char> {
    match w {
        Word::Float(_) => float_text,
        Word::Int(v) => int_text(v as int),
        Word::Usize(v) => int_text(v as int),
        Word::Boolean(b) => if b {
            "true"@
        } else {
            "false"@
        },
    }
}

/// Whether `t` may be the text `render` gives for a float word. Holds
/// trivially for other words, which are not rendered by it.
pub open spec fn word_text_fits<R: Fn(u64) -> String>(render: R, w: Word, t: Seq<char>) -> bool {
    match w {
        Word::Float(bits) => exists|s: String| s@ == t && call_ensures(render, (bits,), s),
        _ => true,
    }
}

/// Exec form of `float_magnitude`.
fn magnitude(bits: u64) -> (r: u64)
    ensures
        r == float_magnitude(bits),
{
    if bits >= SIGN_BIT {
        bits - SIGN_BIT
    } else {
        bits
    }
}

/// `a >= b` on two binary64 bit patterns, as IEEE-754 compares them.
pub fn float_bits_ge(a: u64, b: u64) -> (r: bool)
    ensures
        r == float_ge(a, b),
{
    let ma = magnitude(a);
    let mb = magnitude(b);
    if ma > INFINITY_BITS || mb > INFINITY_BITS {
        return false;
    }
    let a_neg = a >= SIGN_BIT && ma != 0;
    let b_neg = b >= SIGN_BIT && mb != 0;
    if a_neg && b_neg {
        ma <= mb
    } else if a_neg {
        false
    } else if b_neg {
        true
    } else {
        ma >= mb
    }
}

impl Word {
    /// The truth value of a word: a number is true when strictly greater
    /// than zero, a boolean when it holds `true`.
    pub open spec fn truthy(self) -> bool {
        match self {
            Word::Float(bits) => float_positive(bits),
            Word::Int(x) => x > 0,
            Word::Usize(x) => x > 0,
            Word::Boolean(b) => b,
        }
    }

    pub fn is_true(&self) -> (r: bool)
        ensures
            r == self.truthy(),
    {
        match self {
            Word::Float(bits) => {
                let m = magnitude(*bits);
                *bits < SIGN_BIT && m != 0 && m <= INFINITY_BITS
            },
            Word::Int(x) => *x > 0,
            Word::Usize(x) => *x > 0,
            Word::Boolean(b) => *b,
        }
    }

    /// `self >= other` for two numeric words of the same variant.
    pub fn greater_or_equal(&self, other: &Word) -> (r: Result<Word, MachineError>)
        ensures
            r == (match word_ge(*self, *other) {
                Some(b) => Ok(Word::Boolean(b)),
                None => Err(MachineError::TypeMismatch),
            }),
    {
        match (self, other) {
            (Word::Int(x), Word::Int(y)) => Ok(Word::Boolean(*x >= *y)),
            (Word::Usize(x), Word::Usize(y)) => Ok(Word::Boolean(*x >= *y)),
            (Word::Float(x), Word::Float(y)) => Ok(Word::Boolean(float_bits_ge(*x, *y))),
            _ => Err(MachineError::TypeMismatch),
        }
    }

    /// `lhs OP rhs`. Float operands are handed to `unit`, which returns the
    /// bits of the result; the answer is whatever bits it gave.
    pub fn arith<F: Fn(ArithOp, u64, u64) -> u64>(op: ArithOp, lhs: Word, rhs: Word, unit: &F) -> (r:
        Result<Word, MachineError>)
        requires
            unit_total(*unit),
        ensures
            exists|fr: u64| unit_gives(*unit, op, lhs, rhs, fr) && r == word_arith(op, lhs, rhs, fr),
    {
        match (lhs, rhs) {
            (Word::Int(x), Word::Int(y)) => {
                let v = match op {
                    ArithOp::Add => x.wrapping_add(y),
                    ArithOp::Sub => x.wrapping_sub(y),
                    ArithOp::Mul => x.wrapping_mul(y),
                    ArithOp::Div => {
                        if y == 0 {
                            assert(word_arith(op, lhs, rhs, 0) == Err::<Word, MachineError>(
                                MachineError::DivisionByZero,
                            ));
                            return Err(MachineError::DivisionByZero);
                        }
                        proof {
                            lemma_quotient_bounds(x as int, y as int);
                        }
                        match x.checked_div(y) {
                            Some(q) => q,
                            None => i64::MIN,
                        }
                    },
                };
                assert(word_arith(op, lhs, rhs, 0) == Ok::<Word, MachineError>(Word::Int(v)));
                Ok(Word::Int(v))
            },
            (Word::Float(a), Word::Float(b)) => {
                let bits = unit(op, a, b);
                assert(unit_gives(*unit, op, lhs, rhs, bits));
                assert(word_arith(op, lhs, rhs, bits) == Ok::<Word, MachineError>(Word::Float(bits)));
                Ok(Word::Float(bits))
            },
            _ => {
                assert(word_arith(op, lhs, rhs, 0) == Err::<Word, MachineError>(
                    MachineError::TypeMismatch,
                ));
                Err(MachineError::TypeMismatch)
            },
        }
    }

    /// The word's scalar as text, with no type tag. A float is rendered by
    /// `float_text`, which gets its bits.
    pub fn to_text<R: Fn(u64) -> String>(&self, float_text: &R) -> (r: String)
        requires
            forall|b: u64| call_requires(*float_text, (b,)),
        ensures
            exists|t: Seq<char>| word_text_fits(*float_text, *self, t) && r@ == word_text(*self, t),
    {
        match self {
            Word::Float(bits) => {
                let s = float_text(*bits);
                assert(word_text_fits(*float_text, *self, s@) && s@ == word_text(*self, s@));
                s
            },
            Word::Int(v) => {
                let s = decimal_string(*v as i128);
                assert(word_text_fits(*float_text, *self, Seq::empty()) && s@ == word_text(
                    *self,
                    Seq::empty(),
                ));
                s
            },
            Word::Usize(v) => {
                let s = decimal_string(*v as i128);
                assert(word_text_fits(*float_text, *self, Seq::empty()) && s@ == word_text(
                    *self,
                    Seq::empty(),
                ));
                s
            },
            Word::Boolean(b) => {
                let s = if *b {
                    "true".to_owned()
                } else {
                    "false".to_owned()
                };
                assert(word_text_fits(*float_text, *self, Seq::empty()) && s@ == word_text(
                    *self,
                    Seq::empty(),
                ));
                s
            },
        }
    }
}

} // verus!
