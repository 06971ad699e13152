use stack_vm::word::float_bits_ge;
use stack_vm::{ArithOp, MachineError, Word};

fn float(x: f64) -> Word {
    Word::Float(x.to_bits())
}

fn float_unit(op: ArithOp, a: u64, b: u64) -> u64 {
    let (x, y) = (f64::from_bits(a), f64::from_bits(b));
    match op {
        ArithOp::Add => x + y,
        ArithOp::Sub => x - y,
        ArithOp::Mul => x * y,
        ArithOp::Div => x / y,
    }
    .to_bits()
}

fn render_float(bits: u64) -> String {
    format!("{:?}", f64::from_bits(bits))
}

#[test]
fn truth_of_numbers_and_booleans() {
    assert!(Word::Int(1).is_true());
    assert!(!Word::Int(0).is_true());
    assert!(!Word::Int(-5).is_true());
    assert!(Word::Usize(3).is_true());
    assert!(!Word::Usize(0).is_true());
    assert!(Word::Boolean(true).is_true());
    assert!(!Word::Boolean(false).is_true());
}

#[test]
fn truth_of_floats() {
    assert!(float(0.5).is_true());
    assert!(float(f64::INFINITY).is_true());
    assert!(float(f64::MIN_POSITIVE / 2.0).is_true());
    assert!(!float(0.0).is_true());
    assert!(!float(-0.0).is_true());
    assert!(!float(-1.0).is_true());
    assert!(!float(f64::NAN).is_true());
}

#[test]
fn float_comparison_follows_ieee() {
    let cases = [
        (1.0, 2.0),
        (2.0, 1.0),
        (-1.0, -2.0),
        (-2.0, -1.0),
        (0.0, -0.0),
        (-0.0, 0.0),
        (-1.0, 1.0),
        (1.0, -1.0),
        (f64::INFINITY, f64::MAX),
        (f64::NEG_INFINITY, -f64::MAX),
        (f64::NAN, 1.0),
        (1.0, f64::NAN),
        (3.5, 3.5),
    ];
    for (a, b) in cases {
        assert_eq!(float_bits_ge(a.to_bits(), b.to_bits()), a >= b, "{} >= {}", a, b);
    }
}

#[test]
fn greater_or_equal_on_words() {
    assert_eq!(Word::Int(5).greater_or_equal(&Word::Int(3)), Ok(Word::Boolean(true)));
    assert_eq!(Word::Int(3).greater_or_equal(&Word::Int(5)), Ok(Word::Boolean(false)));
    assert_eq!(Word::Usize(3).greater_or_equal(&Word::Usize(3)), Ok(Word::Boolean(true)));
    assert_eq!(float(-1.5).greater_or_equal(&float(-2.5)), Ok(Word::Boolean(true)));
    assert_eq!(Word::Int(5).greater_or_equal(&float(3.0)), Err(MachineError::TypeMismatch));
    assert_eq!(
        Word::Boolean(true).greater_or_equal(&Word::Boolean(false)),
        Err(MachineError::TypeMismatch)
    );
}

#[test]
fn int_arithmetic() {
    let u = &float_unit;
    assert_eq!(Word::arith(ArithOp::Add, Word::Int(2), Word::Int(3), u), Ok(Word::Int(5)));
    assert_eq!(Word::arith(ArithOp::Sub, Word::Int(2), Word::Int(3), u), Ok(Word::Int(-1)));
    assert_eq!(Word::arith(ArithOp::Mul, Word::Int(-4), Word::Int(3), u), Ok(Word::Int(-12)));
    assert_eq!(Word::arith(ArithOp::Div, Word::Int(7), Word::Int(-2), u), Ok(Word::Int(-3)));
    assert_eq!(Word::arith(ArithOp::Div, Word::Int(-7), Word::Int(-2), u), Ok(Word::Int(3)));
    assert_eq!(
        Word::arith(ArithOp::Div, Word::Int(7), Word::Int(0), u),
        Err(MachineError::DivisionByZero)
    );
    assert_eq!(
        Word::arith(ArithOp::Mul, Word::Int(i64::MAX), Word::Int(2), u),
        Ok(Word::Int(-2))
    );
}

#[test]
fn float_arithmetic_uses_the_unit() {
    let u = &float_unit;
    assert_eq!(Word::arith(ArithOp::Sub, float(5.0), float(1.5), u), Ok(float(3.5)));
    assert_eq!(Word::arith(ArithOp::Div, float(1.0), float(8.0), u), Ok(float(0.125)));
}

#[test]
fn mismatched_operands_are_refused() {
    let u = &float_unit;
    assert_eq!(
        Word::arith(ArithOp::Add, Word::Int(1), float(1.0), u),
        Err(MachineError::TypeMismatch)
    );
    assert_eq!(
        Word::arith(ArithOp::Add, Word::Usize(1), Word::Usize(1), u),
        Err(MachineError::TypeMismatch)
    );
    assert_eq!(
        Word::arith(ArithOp::Add, Word::Boolean(true), Word::Boolean(true), u),
        Err(MachineError::TypeMismatch)
    );
}

#[test]
fn words_render_without_tags() {
    assert_eq!(Word::Int(-9).to_text(&render_float), "-9");
    assert_eq!(Word::Int(i64::MIN).to_text(&render_float), "-9223372036854775808");
    assert_eq!(Word::Usize(0).to_text(&render_float), "0");
    assert_eq!(Word::Boolean(false).to_text(&render_float), "false");
    assert_eq!(float(0.1).to_text(&render_float), "0.1");
}
