use vstd::prelude::*;

use crate::error::MachineError;
use crate::ins::{spec_arith_op, Ins};
use crate::word::{unit_gives, unit_total, word_arith, word_ge, ArithOp, Word};

verus! {

/// The abstract state of a machine: the live stack (bottom first, top
/// last), the instruction pointer, the halted flag and the program.
pub struct MachineView {
    pub stack: Seq<Word>,
    pub ip: int,
    pub halted: bool,
    pub program: Seq<Ins>,
}

impl MachineView {
    /// The state with `stack` as its stack and the instruction pointer moved
    /// to the next instruction.
    pub open spec fn advance(self, stack: Seq<Word>) -> MachineView {
        MachineView { stack, ip: self.ip + 1, halted: self.halted, program: self.program }
    }

    /// The instruction that the next step executes, if the machine is
    /// running and its instruction pointer is inside the program.
    pub open spec fn fetch(self) -> Option<Ins> {
        if !self.halted && 0 <= self.ip < self.program.len() {
            Some(self.program[self.ip])
        } else {
            None
        }
    }
}

/// A binary arithmetic instruction: pop `rhs` (the top), pop `lhs` (the
/// entry below it), push `lhs OP rhs`.
pub open spec fn arith_step(op: ArithOp, m: MachineView, float_result: u64) -> Result<
    MachineView,
    MachineError,
> {
    let s = m.stack;
    let n = s.len() as int;
    if n < 2 {
        Err(MachineError::StackUnderflow)
    } else {
        match word_arith(op, s[n - 2], s[n - 1], float_result) {
            Ok(w) => Ok(m.advance(s.subrange(0, n - 2).push(w))),
            Err(e) => Err(e),
        }
    }
}

/// What executing `ins` does to state `m` on a stack of capacity `cap`.
/// `float_result` is the float unit's answer, used only by float arithmetic.
pub open spec fn exec_ins(ins: Ins, m: MachineView, cap: int, float_result: u64) -> Result<
    MachineView,
    MachineError,
> {
    let s = m.stack;
    let n = s.len() as int;
    match ins {
        Ins::NoOp => Ok(m.advance(s)),
        Ins::Push(w) => if n >= cap {
            Err(MachineError::StackOverflow)
        } else {
            Ok(m.advance(s.push(w)))
        },
        Ins::Pop => if n == 0 {
            Err(MachineError::StackUnderflow)
        } else {
            Ok(m.advance(s.drop_last()))
        },
        Ins::AddI | Ins::SubI | Ins::MulI | Ins::DivI | Ins::AddF | Ins::SubF | Ins::MulF
        | Ins::DivF => arith_step(spec_arith_op(ins).unwrap(), m, float_result),
        Ins::Gef => if n < 2 {
            Err(MachineError::StackUnderflow)
        } else {
            match word_ge(s[n - 1], s[n - 2]) {
                Some(b) => Ok(m.advance(s.subrange(0, n - 2).push(Word::Boolean(b)))),
                None => Err(MachineError::TypeMismatch),
            }
        },
        Ins::Not => if n == 0 {
            Err(MachineError::StackUnderflow)
        } else {
            match s[n - 1] {
                Word::Boolean(b) => Ok(m.advance(s.update(n - 1, Word::Boolean(!b)))),
                _ => Err(MachineError::TypeMismatch),
            }
        },
        Ins::Jump(t) => Ok(MachineView { stack: s, ip: t as int, halted: m.halted, program: m.program }),
        Ins::JumpIf(t) => if n == 0 {
            Err(MachineError::StackUnderflow)
        } else {
            Ok(
                MachineView {
                    stack: s.drop_last(),
                    ip: if s[n - 1].truthy() {
                        t as int
                    } else {
                        m.ip + 1
                    },
                    halted: m.halted,
                    program: m.program,
                },
            )
        },
        Ins::Dup(k) => if k >= n {
            Err(MachineError::StackUnderflow)
        } else if n >= cap {
            Err(MachineError::StackOverflow)
        } else {
            Ok(m.advance(s.push(s[n - 1 - k])))
        },
        Ins::Swap(k) => if k >= n {
            Err(MachineError::StackUnderflow)
        } else {
            Ok(m.advance(s.update(n - 1, s[n - 1 - k]).update(n - 1 - k, s[n - 1])))
        },
        Ins::Halt => Ok(MachineView { stack: s, ip: m.ip + 1, halted: true, program: m.program }),
    }
}

/// One step of a machine in state `m` with stack capacity `cap`: nothing on
/// a halted machine, a bounds error when the instruction pointer is outside
/// the program, else the instruction at the instruction pointer.
pub open spec fn next(m: MachineView, cap: int, float_result: u64) -> Result<MachineView, MachineError> {
    if m.halted {
        Ok(m)
    } else if !(0 <= m.ip < m.program.len()) {
        Err(MachineError::ProgramBoundsExceeded)
    } else {
        exec_ins(m.program[m.ip], m, cap, float_result)
    }
}

/// Whether `float_result` is an answer the float unit may give in the step
/// from `m`. Holds trivially for a step that does not consult the unit.
pub open spec fn step_unit_gives<F: Fn(ArithOp, u64, u64) -> u64>(
    unit: F,
    m: MachineView,
    float_result: u64,
) -> bool {
    match m.fetch() {
        Some(ins) => match spec_arith_op(ins) {
            Some(op) => m.stack.len() >= 2 ==> unit_gives(
                unit,
                op,
                m.stack[m.stack.len() - 2],
                m.stack[m.stack.len() - 1],
                float_result,
            ),
            None => true,
        },
        None => true,
    }
}

/// Whether `k` successful steps lead from `m0` to `m1`, each step taking
/// an answer that the float unit may give.
pub open spec fn runs<F: Fn(ArithOp, u64, u64) -> u64>(
    unit: F,
    cap: int,
    m0: MachineView,
    k: nat,
    m1: MachineView,
) -> bool
    decreases k,
{
    if k == 0 {
        m1 == m0
    } else {
        exists|mid: MachineView, fr: u64|
            runs(unit, cap, m0, (k - 1) as nat, mid) && step_unit_gives(unit, mid, fr) && next(
                mid,
                cap,
                fr,
            ) == Ok::<MachineView, MachineError>(m1)
    }
}

/// Why a run stopped.
#[derive(Clone, Copy, Debug, PartialEq, Eq, Structural)]
pub enum Stop {
    /// The machine executed `Halt` (or was halted already).
    Halted,
    /// A step failed; the machine is as it was before that step.
    Failed(MachineError),
    /// The iteration limit was reached with the machine still running.
    LimitReached,
}

/// The outcome of a bounded run: how many steps succeeded, and why it
/// stopped.
#[derive(Clone, Copy, Debug, PartialEq, Eq, Structural)]
pub struct RunReport {
    pub steps: usize,
    pub stop: Stop,
}

/// A `Push(w)` followed by a `Pop` leaves the stack as it was: the push puts
/// `w` on top, and the pop removes exactly that entry.
pub proof fn lemma_push_pop_round_trip(m: MachineView, cap: int, w: Word, fr1: u64, fr2: u64)
    requires
        !m.halted,
        0 <= m.ip,
        m.ip + 1 < m.program.len(),
        m.program[m.ip] == Ins::Push(w),
        m.program[m.ip + 1] == Ins::Pop,
        m.stack.len() < cap,
    ensures
        next(m, cap, fr1) is Ok,
        next(m, cap, fr1)->Ok_0.stack.len() == m.stack.len() + 1,
        next(m, cap, fr1)->Ok_0.stack.last() == w,
        next(next(m, cap, fr1)->Ok_0, cap, fr2) == Ok::<MachineView, MachineError>(
            MachineView { stack: m.stack, ip: m.ip + 2, halted: false, program: m.program },
        ),
{
    let m1 = next(m, cap, fr1)->Ok_0;
    assert(m1.stack.drop_last() =~= m.stack);
}

/// `Dup(0)` pushes a second copy of the top entry and changes nothing else.
pub proof fn lemma_dup_zero_copies_top(m: MachineView, cap: int, fr: u64)
    requires
        m.fetch() == Some(Ins::Dup(0)),
        0 < m.stack.len() < cap,
    ensures
        next(m, cap, fr) == Ok::<MachineView, MachineError>(
            m.advance(m.stack.push(m.stack.last())),
        ),
{
}

/// `Swap(0)` on a non-empty stack exchanges the top with itself: only the
/// instruction pointer moves.
pub proof fn lemma_swap_zero_is_noop(m: MachineView, cap: int, fr: u64)
    requires
        m.fetch() == Some(Ins::Swap(0)),
        m.stack.len() > 0,
    ensures
        next(m, cap, fr) == Ok::<MachineView, MachineError>(m.advance(m.stack)),
{
    let s = m.stack;
    let n = s.len() as int;
    assert(s.update(n - 1, s[n - 1]).update(n - 1, s[n - 1]) =~= s);
}

/// `Pop` on an empty stack fails with `StackUnderflow` (and `step` then
/// leaves the machine unchanged).
pub proof fn lemma_pop_empty_underflows(m: MachineView, cap: int, fr: u64)
    requires
        m.fetch() == Some(Ins::Pop),
        m.stack.len() == 0,
    ensures
        next(m, cap, fr) == Err::<MachineView, MachineError>(MachineError::StackUnderflow),
{
}

/// `JumpIf` with a false top falls through to the next instruction, and
/// still removes the tested entry.
pub proof fn lemma_jump_if_false_falls_through(m: MachineView, cap: int, target: usize, fr: u64)
    requires
        m.fetch() == Some(Ins::JumpIf(target)),
        m.stack.len() > 0,
        !m.stack.last().truthy(),
    ensures
        next(m, cap, fr) == Ok::<MachineView, MachineError>(m.advance(m.stack.drop_last())),
{
}

/// A stack machine with room for `N` words on its stack.
pub struct Machine<const N: usize> {
    stack: [Word; N],
    sp: usize,
    program: Vec<Ins>,
    ip: usize,
    halted: bool,
}

impl<const N: usize> View for Machine<N> {
    type V = MachineView;

    closed spec fn view(&self) -> MachineView {
        MachineView {
            stack: self.stack@.subrange(0, self.sp as int),
            ip: self.ip as int,
            halted: self.halted,
            program: self.program@,
        }
    }
}

impl<const N: usize> Machine<N> {
    #[verifier::type_invariant]
    spec fn inv(self) -> bool {
        self.sp <= N
    }

    /// A machine about to run `program` from its first instruction, with an
    /// empty stack.
    pub fn new(program: Vec<Ins>) -> (m: Self)
        ensures
            m@ == (MachineView { stack: Seq::empty(), ip: 0, halted: false, program: program@ }),
    {
        let m = Machine { stack: [Word::Int(0);N], sp: 0, program, ip: 0, halted: false };
        assert(m@.stack =~= Seq::<Word>::empty());
        m
    }

    /// The number of live stack entries.
    pub fn sp(&self) -> (r: usize)
        ensures
            r == self@.stack.len(),
            r <= N,
    {
        proof {
            use_type_invariant(self);
        }
        self.sp
    }

    pub fn ip(&self) -> (r: usize)
        ensures
            r == self@.ip,
    {
        self.ip
    }

    pub fn is_halted(&self) -> (r: bool)
        ensures
            r == self@.halted,
    {
        self.halted
    }

    pub fn program(&self) -> (r: &Vec<Ins>)
        ensures
            r@ == self@.program,
    {
        &self.program
    }

    /// The live stack, bottom first.
    pub fn stack(&self) -> (r: Vec<Word>)
        ensures
            r@ == self@.stack,
    {
        proof {
            use_type_invariant(self);
        }
        let mut out: Vec<Word> = Vec::new();
        let mut i: usize = 0;
        while i < self.sp
            invariant
                self.sp <= N,
                i <= self.sp,
                out@ == self.stack@.subrange(0, i as int),
            decreases self.sp - i,
        {
            out.push(self.stack[i]);
            i = i + 1;
            assert(out@ =~= self.stack@.subrange(0, i as int));
        }
        out
    }

    /// The top of the stack, if any.
    pub fn top(&self) -> (r: Option<Word>)
        ensures
            r == (if self@.stack.len() == 0 {
                None
            } else {
                Some(self@.stack.last())
            }),
    {
        proof {
            use_type_invariant(self);
        }
        if self.sp == 0 {
            None
        } else {
            Some(self.stack[self.sp - 1])
        }
    }

    /// The entry `depth` places below the top.
    fn peek(&self, depth: usize) -> (r: Word)
        requires
            depth < self@.stack.len(),
        ensures
            r == self@.stack[self@.stack.len() - 1 - depth],
    {
        proof {
            use_type_invariant(self);
        }
        self.stack[self.sp - 1 - depth]
    }

    /// Replaces the live stack by its first `keep` entries followed by `w`,
    /// and moves to the next instruction.
    fn replace_top(&mut self, keep: usize, w: Word)
        requires
            keep < N,
            keep <= old(self)@.stack.len(),
            old(self)@.ip < old(self)@.program.len(),
        ensures
            final(self)@ == old(self)@.advance(old(self)@.stack.subrange(0, keep as int).push(w)),
    {
        proof {
            use_type_invariant(&*self);
        }
        let ghost s0 = self@.stack;
        assert(self.ip < self.program.len());
        self.stack[keep] = w;
        self.sp = keep + 1;
        self.ip = self.ip + 1;
        assert(self@.stack =~= s0.subrange(0, keep as int).push(w));
    }

    /// Executes one instruction. A halted machine is left as it is. On an
    /// error the state is unchanged. Float arithmetic is handed to `unit`,
    /// which gets `(op, lhs, rhs)` as bit patterns and returns the result's
    /// bits; the step's outcome is `next` for the answer it gave.
    pub fn step<F: Fn(ArithOp, u64, u64) -> u64>(&mut self, unit: &F) -> (r: Result<
        (),
        MachineError,
    >)
        requires
            unit_total(*unit),
        ensures
            exists|fr: u64|
                step_unit_gives(*unit, old(self)@, fr) && match next(old(self)@, N as int, fr) {
                    Ok(m) => r is Ok && final(self)@ == m,
                    Err(e) => r == Err::<(), MachineError>(e) && final(self)@ == old(self)@,
                },
    {
        proof {
            use_type_invariant(&*self);
        }
        let ghost m0 = self@;
        if self.halted {
            assert(step_unit_gives(*unit, m0, 0));
            return Ok(());
        }
        if self.ip >= self.program.len() {
            assert(step_unit_gives(*unit, m0, 0));
            return Err(MachineError::ProgramBoundsExceeded);
        }
        let ins = self.program[self.ip];
        let n = self.sp;
        assert(m0.fetch() == Some(ins));
        match ins {
            Ins::NoOp => {
                self.ip = self.ip + 1;
                assert(step_unit_gives(*unit, m0, 0));
                Ok(())
            },
            Ins::Push(w) => {
                assert(step_unit_gives(*unit, m0, 0));
                if n >= N {
                    return Err(MachineError::StackOverflow);
                }
                assert(m0.stack.subrange(0, n as int) =~= m0.stack);
                self.replace_top(n, w);
                Ok(())
            },
            Ins::Pop => {
                assert(step_unit_gives(*unit, m0, 0));
                if n == 0 {
                    return Err(MachineError::StackUnderflow);
                }
                self.sp = n - 1;
                self.ip = self.ip + 1;
                assert(self@.stack =~= m0.stack.drop_last());
                Ok(())
            },
            Ins::AddI | Ins::SubI | Ins::MulI | Ins::DivI | Ins::AddF | Ins::SubF | Ins::MulF
            | Ins::DivF => {
                let op = ins.arith_op().unwrap();
                if n < 2 {
                    assert(step_unit_gives(*unit, m0, 0));
                    return Err(MachineError::StackUnderflow);
                }
                let rhs = self.peek(0);
                let lhs = self.peek(1);
                let res = Word::arith(op, lhs, rhs, unit);
                let ghost fr = choose|fr: u64|
                    unit_gives(*unit, op, lhs, rhs, fr) && res == word_arith(op, lhs, rhs, fr);
                assert(step_unit_gives(*unit, m0, fr));
                match res {
                    Ok(w) => {
                        self.replace_top(n - 2, w);
                        assert(next(m0, N as int, fr) == Ok::<MachineView, MachineError>(self@));
                        Ok(())
                    },
                    Err(e) => Err(e),
                }
            },
            Ins::Gef => {
                assert(step_unit_gives(*unit, m0, 0));
                if n < 2 {
                    return Err(MachineError::StackUnderflow);
                }
                let top = self.peek(0);
                let second = self.peek(1);
                match top.greater_or_equal(&second) {
                    Ok(w) => {
                        self.replace_top(n - 2, w);
                        Ok(())
                    },
                    Err(e) => Err(e),
                }
            },
            Ins::Not => {
                assert(step_unit_gives(*unit, m0, 0));
                if n == 0 {
                    return Err(MachineError::StackUnderflow);
                }
                match self.peek(0) {
                    Word::Boolean(b) => {
                        self.replace_top(n - 1, Word::Boolean(!b));
                        assert(self@.stack =~= m0.stack.update(n - 1, Word::Boolean(!b)));
                        Ok(())
                    },
                    _ => Err(MachineError::TypeMismatch),
                }
            },
            Ins::Jump(t) => {
                assert(step_unit_gives(*unit, m0, 0));
                self.ip = t;
                Ok(())
            },
            Ins::JumpIf(t) => {
                assert(step_unit_gives(*unit, m0, 0));
                if n == 0 {
                    return Err(MachineError::StackUnderflow);
                }
                let cond = self.peek(0);
                self.sp = n - 1;
                if cond.is_true() {
                    self.ip = t;
                } else {
                    self.ip = self.ip + 1;
                }
                assert(self@.stack =~= m0.stack.drop_last());
                Ok(())
            },
            Ins::Dup(k) => {
                assert(step_unit_gives(*unit, m0, 0));
                if k >= n {
                    return Err(MachineError::StackUnderflow);
                }
                if n >= N {
                    return Err(MachineError::StackOverflow);
                }
                let w = self.peek(k);
                assert(m0.stack.subrange(0, n as int) =~= m0.stack);
                self.replace_top(n, w);
                Ok(())
            },
            Ins::Swap(k) => {
                assert(step_unit_gives(*unit, m0, 0));
                if k >= n {
                    return Err(MachineError::StackUnderflow);
                }
                let a = n - 1;
                let b = n - 1 - k;
                let t = self.stack[a];
                self.stack[a] = self.stack[b];
                self.stack[b] = t;
                self.ip = self.ip + 1;
                assert(self@.stack =~= m0.stack.update(a as int, m0.stack[b as int]).update(
                    b as int,
                    m0.stack[a as int],
                ));
                Ok(())
            },
            Ins::Halt => {
                assert(step_unit_gives(*unit, m0, 0));
                self.halted = true;
                self.ip = self.ip + 1;
                Ok(())
            },
        }
    }

    /// Runs at most `limit` steps, stopping early when the machine halts or
    /// a step fails. After each successful step `trace` is called with the
    /// machine.
    pub fn run<F: Fn(ArithOp, u64, u64) -> u64, T: Fn(&Machine<N>)>(
        &mut self,
        limit: usize,
        unit: &F,
        trace: &T,
    ) -> (r: RunReport)
        requires
            unit_total(*unit),
            forall|m: &Machine<N>| call_requires(*trace, (m,)),
        ensures
            r.steps <= limit,
            final(self)@.program == old(self)@.program,
            match r.stop {
                Stop::Halted => final(self)@.halted && runs(
                    *unit,
                    N as int,
                    old(self)@,
                    r.steps as nat,
                    final(self)@,
                ),
                Stop::LimitReached => r.steps == limit && !final(self)@.halted && runs(
                    *unit,
                    N as int,
                    old(self)@,
                    r.steps as nat,
                    final(self)@,
                ),
                Stop::Failed(e) => r.steps < limit && !final(self)@.halted && runs(
                    *unit,
                    N as int,
                    old(self)@,
                    r.steps as nat,
                    final(self)@,
                ) && exists|fr: u64|
                    step_unit_gives(*unit, final(self)@, fr) && next(final(self)@, N as int, fr)
                        == Err::<MachineView, MachineError>(e),
            },
    {
        let ghost m0 = self@;
        let mut steps: usize = 0;
        while steps < limit
            invariant
                steps <= limit,
                unit_total(*unit),
                forall|m: &Machine<N>| call_requires(*trace, (m,)),
                m0 == old(self)@,
                runs(*unit, N as int, m0, steps as nat, self@),
                self@.program == m0.program,
            decreases limit - steps,
        {
            if self.halted {
                return RunReport { steps, stop: Stop::Halted };
            }
            let ghost before = self@;
            match self.step(unit) {
                Ok(()) => {
                    proof {
                        let fr = choose|fr: u64|
                            step_unit_gives(*unit, before, fr) && match next(before, N as int, fr) {
                                Ok(m) => self@ == m,
                                Err(e) => false,
                            };
                        assert(runs(*unit, N as int, m0, (steps + 1) as nat, self@)) by {
                            assert((steps + 1) as nat - 1 == steps as nat);
                            assert(runs(*unit, N as int, m0, steps as nat, before)
                                && step_unit_gives(*unit, before, fr) && next(before, N as int, fr)
                                == Ok::<MachineView, MachineError>(self@));
                        }
                    }
                    steps = steps + 1;
                    trace(&*self);
                },
                Err(e) => {
                    return RunReport { steps, stop: Stop::Failed(e) };
                },
            }
        }
        if self.halted {
            RunReport { steps, stop: Stop::Halted }
        } else {
            RunReport { steps, stop: Stop::LimitReached }
        }
    }
}

} // verus!
