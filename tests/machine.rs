use stack_vm::assembler::assemble;
use stack_vm::{ArithOp, Ins, Machine, MachineError, RunReport, Stop, Word};

fn round_ten(x: f64) -> f64 {
    let factor = 10f64.powi(10);
    (x * factor).round() / factor
}

fn float_unit(op: ArithOp, a: u64, b: u64) -> u64 {
    let (x, y) = (f64::from_bits(a), f64::from_bits(b));
    let r = match op {
        ArithOp::Add => x + y,
        ArithOp::Sub => x - y,
        ArithOp::Mul => round_ten(x * y),
        ArithOp::Div => round_ten(x / y),
    };
    r.to_bits()
}

fn parse_float(t: &str) -> Option<u64> {
    t.parse::<f64>().ok().map(f64::to_bits)
}

fn float(x: f64) -> Word {
    Word::Float(x.to_bits())
}

fn machine(source: &str) -> Machine<24> {
    Machine::new(assemble(source, &parse_float).expect("assembles"))
}

fn run_steps<const N: usize>(m: &mut Machine<N>, n: usize) {
    for _ in 0..n {
        m.step(&float_unit).expect("step succeeds");
    }
}

#[test]
fn new_machine_is_empty_and_running() {
    let m: Machine<24> = Machine::new(vec![Ins::Halt]);
    assert_eq!(m.sp(), 0);
    assert_eq!(m.ip(), 0);
    assert!(!m.is_halted());
    assert_eq!(m.top(), None);
    assert_eq!(m.program(), &vec![Ins::Halt]);
}

#[test]
fn push_then_pop_restores_stack() {
    let mut m: Machine<24> = Machine::new(vec![
        Ins::Push(Word::Int(1)),
        Ins::Push(Word::Int(42)),
        Ins::Pop,
    ]);
    run_steps(&mut m, 1);
    let before = m.stack();
    run_steps(&mut m, 1);
    assert_eq!(m.sp(), 2);
    assert_eq!(m.top(), Some(Word::Int(42)));
    run_steps(&mut m, 1);
    assert_eq!(m.stack(), before);
    assert_eq!(m.sp(), 1);
    assert_eq!(m.ip(), 3);
}

#[test]
fn dup_zero_copies_top() {
    let mut m = machine("push 7\npush 9\ndup 0\n");
    run_steps(&mut m, 3);
    assert_eq!(m.stack(), vec![Word::Int(7), Word::Int(9), Word::Int(9)]);
}

#[test]
fn dup_deeper_copies_entry_below_top() {
    let mut m = machine("push 7\npush 9\ndup 1\n");
    run_steps(&mut m, 3);
    assert_eq!(m.stack(), vec![Word::Int(7), Word::Int(9), Word::Int(7)]);
}

#[test]
fn dup_beyond_stack_underflows() {
    let mut m = machine("push 7\ndup 1\n");
    run_steps(&mut m, 1);
    assert_eq!(m.step(&float_unit), Err(MachineError::StackUnderflow));
    assert_eq!(m.ip(), 1);
    assert_eq!(m.sp(), 1);
}

#[test]
fn swap_zero_leaves_stack_alone() {
    let mut m = machine("push 1\npush 2\nswap 0\n");
    run_steps(&mut m, 3);
    assert_eq!(m.stack(), vec![Word::Int(1), Word::Int(2)]);
    assert_eq!(m.ip(), 3);
}

#[test]
fn swap_exchanges_top_with_deeper_entry() {
    let mut m = machine("push 1\npush 2\npush 3\nswap 2\n");
    run_steps(&mut m, 4);
    assert_eq!(m.stack(), vec![Word::Int(3), Word::Int(2), Word::Int(1)]);
}

#[test]
fn swap_beyond_stack_underflows() {
    let mut m = machine("push 1\nswap 1\n");
    run_steps(&mut m, 1);
    assert_eq!(m.step(&float_unit), Err(MachineError::StackUnderflow));
    let mut empty = machine("swap 0\n");
    assert_eq!(empty.step(&float_unit), Err(MachineError::StackUnderflow));
}

#[test]
fn subi_takes_earlier_operand_first() {
    let mut m = machine("push 10\npush 3\nsubi\n");
    run_steps(&mut m, 3);
    assert_eq!(m.stack(), vec![Word::Int(7)]);
}

#[test]
fn divi_divides_earlier_by_later() {
    let mut m = machine("push 2\npush 5\ndivi\n");
    run_steps(&mut m, 3);
    assert_eq!(m.stack(), vec![Word::Int(0)]);
    let mut m = machine("push -7\npush 2\ndivi\n");
    run_steps(&mut m, 3);
    assert_eq!(m.stack(), vec![Word::Int(-3)]);
}

#[test]
fn addi_and_muli() {
    let mut m = machine("push 6\npush 7\nmuli\npush 8\naddi\n");
    run_steps(&mut m, 5);
    assert_eq!(m.stack(), vec![Word::Int(50)]);
}

#[test]
fn int_arithmetic_wraps() {
    let mut m = machine("push 9223372036854775807\npush 1\naddi\n");
    run_steps(&mut m, 3);
    assert_eq!(m.top(), Some(Word::Int(i64::MIN)));
    let mut m = machine("push -9223372036854775808\npush -1\ndivi\n");
    run_steps(&mut m, 3);
    assert_eq!(m.top(), Some(Word::Int(i64::MIN)));
}

#[test]
fn divi_by_zero_fails_and_keeps_state() {
    let mut m = machine("push 4\npush 0\ndivi\n");
    run_steps(&mut m, 2);
    assert_eq!(m.step(&float_unit), Err(MachineError::DivisionByZero));
    assert_eq!(m.stack(), vec![Word::Int(4), Word::Int(0)]);
    assert_eq!(m.ip(), 2);
}

#[test]
fn mixed_operands_mismatch() {
    let mut m = machine("push 4\npush 1.5\naddi\n");
    run_steps(&mut m, 2);
    assert_eq!(m.step(&float_unit), Err(MachineError::TypeMismatch));
    assert_eq!(m.sp(), 2);
}

#[test]
fn arithmetic_needs_two_operands() {
    let mut m = machine("push 4\naddi\n");
    run_steps(&mut m, 1);
    assert_eq!(m.step(&float_unit), Err(MachineError::StackUnderflow));
    assert_eq!(m.stack(), vec![Word::Int(4)]);
}

#[test]
fn mulf_rounds_product_to_ten_digits() {
    let mut m = machine("push 1.0000000001\npush 3.0000000002\nmulf\n");
    run_steps(&mut m, 3);
    assert_eq!(m.top(), Some(float(round_ten(1.0000000001 * 3.0000000002))));
    assert_eq!(m.top(), Some(float(3.0000000005)));
}

#[test]
fn subf_and_divf_take_earlier_operand_first() {
    let mut m = machine("push 1.5\npush 0.25\nsubf\n");
    run_steps(&mut m, 3);
    assert_eq!(m.top(), Some(float(1.25)));
    let mut m = machine("push 1.0\npush 4.0\ndivf\n");
    run_steps(&mut m, 3);
    assert_eq!(m.top(), Some(float(0.25)));
}

#[test]
fn gef_compares_top_with_second() {
    let mut m = machine("push 3\npush 5\ngef\n");
    run_steps(&mut m, 3);
    assert_eq!(m.stack(), vec![Word::Boolean(true)]);
    let mut m = machine("push 5\npush 3\ngef\n");
    run_steps(&mut m, 3);
    assert_eq!(m.stack(), vec![Word::Boolean(false)]);
    let mut m = machine("push 2.5\npush 2.5\ngef\n");
    run_steps(&mut m, 3);
    assert_eq!(m.stack(), vec![Word::Boolean(true)]);
}

#[test]
fn gef_on_mixed_variants_mismatches() {
    let mut m = machine("push 3\npush 5.0\ngef\n");
    run_steps(&mut m, 2);
    assert_eq!(m.step(&float_unit), Err(MachineError::TypeMismatch));
}

#[test]
fn not_negates_boolean_top() {
    let mut m = machine("push 3\npush 5\ngef\nnot\n");
    run_steps(&mut m, 4);
    assert_eq!(m.stack(), vec![Word::Boolean(false)]);
    let mut m = machine("push 3\nnot\n");
    run_steps(&mut m, 1);
    assert_eq!(m.step(&float_unit), Err(MachineError::TypeMismatch));
    let mut m = machine("not\n");
    assert_eq!(m.step(&float_unit), Err(MachineError::StackUnderflow));
}

#[test]
fn pop_on_empty_stack_underflows_and_keeps_state() {
    let mut m = machine("noop\npop\n");
    run_steps(&mut m, 1);
    assert_eq!(m.step(&float_unit), Err(MachineError::StackUnderflow));
    assert_eq!(m.ip(), 1);
    assert_eq!(m.sp(), 0);
    assert!(!m.is_halted());
}

#[test]
fn jumpif_false_falls_through_and_pops() {
    let mut m = machine("push 0\njumpif 5\n");
    run_steps(&mut m, 2);
    assert_eq!(m.ip(), 2);
    assert_eq!(m.sp(), 0);
}

#[test]
fn jumpif_true_jumps_and_pops() {
    let mut m = machine("push 1\njumpif 5\n");
    run_steps(&mut m, 2);
    assert_eq!(m.ip(), 5);
    assert_eq!(m.sp(), 0);
}

#[test]
fn jumpif_on_empty_stack_underflows() {
    let mut m = machine("jumpif 0\n");
    assert_eq!(m.step(&float_unit), Err(MachineError::StackUnderflow));
}

#[test]
fn jump_out_of_program_is_caught_on_fetch() {
    let mut m = machine("jump 9\n");
    run_steps(&mut m, 1);
    assert_eq!(m.ip(), 9);
    assert_eq!(m.step(&float_unit), Err(MachineError::ProgramBoundsExceeded));
}

#[test]
fn running_off_the_end_is_a_bounds_error() {
    let mut m = machine("noop\n");
    run_steps(&mut m, 1);
    assert_eq!(m.step(&float_unit), Err(MachineError::ProgramBoundsExceeded));
}

#[test]
fn halt_stops_the_machine() {
    let mut m = machine("push 1\nhalt\npush 2\n");
    run_steps(&mut m, 2);
    assert!(m.is_halted());
    assert_eq!(m.ip(), 2);
    run_steps(&mut m, 1);
    assert_eq!(m.stack(), vec![Word::Int(1)]);
    assert_eq!(m.ip(), 2);
}

#[test]
fn push_onto_full_stack_overflows() {
    let mut m: Machine<2> = Machine::new(vec![
        Ins::Push(Word::Int(1)),
        Ins::Push(Word::Int(2)),
        Ins::Push(Word::Int(3)),
    ]);
    run_steps(&mut m, 2);
    assert_eq!(m.step(&float_unit), Err(MachineError::StackOverflow));
    assert_eq!(m.sp(), 2);
    assert_eq!(m.ip(), 2);
}

#[test]
fn dup_onto_full_stack_overflows() {
    let mut m: Machine<1> = Machine::new(vec![Ins::Push(Word::Int(1)), Ins::Dup(0)]);
    run_steps(&mut m, 1);
    assert_eq!(m.step(&float_unit), Err(MachineError::StackOverflow));
}

#[test]
fn endless_loop_stops_at_iteration_limit() {
    let program = assemble("loop:\npush 1\njump loop\n", &parse_float).unwrap();
    let mut m: Machine<1024> = Machine::new(program);
    let report = m.run(1000, &float_unit, &|_m: &Machine<1024>| {});
    assert_eq!(report, RunReport { steps: 1000, stop: Stop::LimitReached });
    assert_eq!(m.sp(), 500);
    assert!(!m.is_halted());
}

#[test]
fn endless_loop_overflows_small_stack_first() {
    let program = assemble("loop:\npush 1\njump loop\n", &parse_float).unwrap();
    let mut m: Machine<24> = Machine::new(program);
    let report = m.run(1000, &float_unit, &|_m: &Machine<24>| {});
    assert_eq!(report, RunReport { steps: 48, stop: Stop::Failed(MachineError::StackOverflow) });
    assert_eq!(m.sp(), 24);
    assert_eq!(m.ip(), 0);
}

#[test]
fn run_stops_at_halt() {
    let mut m = machine("push 2\npush 3\naddi\nhalt\npush 9\n");
    let traced = std::cell::Cell::new(0usize);
    let report = m.run(100, &float_unit, &|_m: &Machine<24>| traced.set(traced.get() + 1));
    assert_eq!(report, RunReport { steps: 4, stop: Stop::Halted });
    assert_eq!(traced.get(), 4);
    assert_eq!(m.stack(), vec![Word::Int(5)]);
}

#[test]
fn run_with_zero_limit_does_nothing() {
    let mut m = machine("push 2\n");
    let report = m.run(0, &float_unit, &|_m: &Machine<24>| {});
    assert_eq!(report, RunReport { steps: 0, stop: Stop::LimitReached });
    assert_eq!(m.ip(), 0);
}

#[test]
fn countdown_loop_with_backward_jump() {
    let source = "\
# count down from 3, leaving each value
push 3
top:
dup 0
push 1
subi        # n - 1
dup 0
jumpif top
halt
";
    let mut m = machine(source);
    let report = m.run(1000, &float_unit, &|_m: &Machine<24>| {});
    assert_eq!(report.stop, Stop::Halted);
    assert_eq!(m.stack(), vec![Word::Int(3), Word::Int(2), Word::Int(1), Word::Int(0)]);
}
