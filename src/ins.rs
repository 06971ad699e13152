use vstd::prelude::*;

use crate::text::{decimal_string, int_text};
use crate::word::{word_text, word_text_fits, ArithOp, Word};

verus! {

/// One resolved instruction. Jump targets are absolute positions in the
/// program; `Dup` and `Swap` operands are depths below the top of the stack.
#[derive(Clone, Copy, Debug, PartialEq, Eq, Structural)]
pub enum Ins {
    NoOp,
    Push(Word),
    Pop,
    AddI,
    SubI,
    MulI,
    DivI,
    AddF,
    SubF,
    MulF,
    DivF,
    Gef,
    Not,
    Jump(usize),
    JumpIf(usize),
    Dup(usize),
    Swap(usize),
    Halt,
}

/// The arithmetic operation an instruction performs, if it is one of the
/// eight binary arithmetic instructions. The `I` and `F` forms share an
/// operation: which arithmetic applies follows from the operands' variants.
pub open spec fn spec_arith_op(ins: Ins) -> Option<ArithOp> {
    match ins {
        Ins::AddI | Ins::AddF => Some(ArithOp::Add),
        Ins::SubI | Ins::SubF => Some(ArithOp::Sub),
        Ins::MulI | Ins::MulF => Some(ArithOp::Mul),
        Ins::DivI | Ins::DivF => Some(ArithOp::Div),
        _ => None,
    }
}

/// An instruction in the source grammar, on a line of its own: the
/// mnemonic, then its operand if it has one, then `\n`. `float_text` is the
/// rendering of a pushed float.
pub open spec fn ins_text(ins: Ins, float_text: Seq<char>) -> Seq<char> {
    match ins {
        Ins::Push(w) => "push "@ + word_text(w, float_text) + "\n"@,
        Ins::Jump(t) => "jump "@ + int_text(t as int) + "\n"@,
        Ins::JumpIf(t) => "jumpif "@ + int_text(t as int) + "\n"@,
        Ins::Dup(k) => "dup "@ + int_text(k as int) + "\n"@,
        Ins::Swap(k) => "swap "@ + int_text(k as int) + "\n"@,
        Ins::Gef => "gef\n"@,
        Ins::Not => "not\n"@,
        Ins::AddI => "addi\n"@,
        Ins::SubI => "subi\n"@,
        Ins::MulI => "muli\n"@,
        Ins::DivI => "divi\n"@,
        Ins::AddF => "addf\n"@,
        Ins::SubF => "subf\n"@,
        Ins::MulF => "mulf\n"@,
        Ins::DivF => "divf\n"@,
        Ins::Pop => "pop\n"@,
        Ins::Halt => "halt\n"@,
        Ins::NoOp => "noop\n"@,
    }
}

/// Whether `t` may be the text `render` gives for the float an instruction
/// pushes. Holds trivially for every other instruction.
pub open spec fn ins_text_fits<R: Fn(u64) -> String>(render: R, ins: Ins, t: Seq<char>) -> bool {
    match ins {
        Ins::Push(w) => word_text_fits(render, w, t),
        _ => true,
    }
}

/// `head`, then `body`, then a line feed.
fn with_operand(head: &str, body: String) -> (r: String)
    ensures
        r@ == head@ + body@ + "\n"@,
{
    let mut s = head.to_owned();
    s.append(body.as_str());
    s.append("\n");
    s
}

impl Ins {
    /// The arithmetic operation of a binary arithmetic instruction.
    pub fn arith_op(&self) -> (r: Option<ArithOp>)
        ensures
            r == spec_arith_op(*self),
    {
        match self {
            Ins::AddI | Ins::AddF => Some(ArithOp::Add),
            Ins::SubI | Ins::SubF => Some(ArithOp::Sub),
            Ins::MulI | Ins::MulF => Some(ArithOp::Mul),
            Ins::DivI | Ins::DivF => Some(ArithOp::Div),
            _ => None,
        }
    }

    /// The instruction as a line of source text, with jump targets as
    /// absolute indices. A pushed float is rendered by `float_text`.
    pub fn to_text<R: Fn(u64) -> String>(&self, float_text: &R) -> (r: String)
        requires
            forall|b: u64| call_requires(*float_text, (b,)),
        ensures
            exists|t: Seq<char>| ins_text_fits(*float_text, *self, t) && r@ == ins_text(*self, t),
    {
        let r = match self {
            Ins::Push(w) => {
                let body = w.to_text(float_text);
                let ghost t = choose|t: Seq<char>|
                    word_text_fits(*float_text, *w, t) && body@ == word_text(*w, t);
                let r = with_operand("push ", body);
                assert(ins_text_fits(*float_text, *self, t) && r@ == ins_text(*self, t));
                return r;
            },
            Ins::Jump(t) => with_operand("jump ", decimal_string(*t as i128)),
            Ins::JumpIf(t) => with_operand("jumpif ", decimal_string(*t as i128)),
            Ins::Dup(k) => with_operand("dup ", decimal_string(*k as i128)),
            Ins::Swap(k) => with_operand("swap ", decimal_string(*k as i128)),
            Ins::Gef => "gef\n".to_owned(),
            Ins::Not => "not\n".to_owned(),
            Ins::AddI => "addi\n".to_owned(),
            Ins::SubI => "subi\n".to_owned(),
            Ins::MulI => "muli\n".to_owned(),
            Ins::DivI => "divi\n".to_owned(),
            Ins::AddF => "addf\n".to_owned(),
            Ins::SubF => "subf\n".to_owned(),
            Ins::MulF => "mulf\n".to_owned(),
            Ins::DivF => "divf\n".to_owned(),
            Ins::Pop => "pop\n".to_owned(),
            Ins::Halt => "halt\n".to_owned(),
            Ins::NoOp => "noop\n".to_owned(),
        };
        assert(ins_text_fits(*float_text, *self, Seq::empty()) && r@ == ins_text(
            *self,
            Seq::empty(),
        ));
        r
    }
}

} // verus!
