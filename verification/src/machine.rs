//! A model of the machine that runs the emitted lines.
//!
//! It holds what the lowering uses: three registers, the outcome of the
//! last comparison, the stack, and the frame base. Integers are 64-bit
//! two's complement, written as mathematical integers.

use crate::code::{Cond, Instr};
use vstd::prelude::*;

verus! {

/// Whether `x` is a 64-bit signed integer.
pub open spec fn fits64(x: int) -> bool {
    -0x8000_0000_0000_0000 <= x <= 0x7fff_ffff_ffff_ffff
}

/// The 64-bit signed integer that is congruent to `x`.
pub open spec fn wrap64(x: int) -> int {
    (x + 0x8000_0000_0000_0000) % 0x1_0000_0000_0000_0000 - 0x8000_0000_0000_0000
}

/// Whether the condition holds after `left` was compared with `right`.
pub open spec fn holds(c: Cond, left: int, right: int) -> bool {
    match c {
        Cond::Equal => left == right,
        Cond::NotEqual => left != right,
        Cond::Less => left < right,
        Cond::LessEqual => left <= right,
        Cond::Greater => left > right,
        Cond::GreaterEqual => left >= right,
    }
}

/// 1 for true, 0 for false.
pub open spec fn truth(b: bool) -> int {
    if b {
        1
    } else {
        0
    }
}

/// The signed division of the 128-bit dividend `high:low` by `divisor`:
/// the quotient, rounded towards zero, and the remainder. There is none
/// when the divisor is zero or the quotient is no 64-bit integer.
pub open spec fn divide(high: int, low: int, divisor: int) -> Option<(int, int)> {
    let dividend = high * 0x1_0000_0000_0000_0000 + (if low < 0 {
        low + 0x1_0000_0000_0000_0000
    } else {
        low
    });
    if divisor == 0 {
        None
    } else {
        let magnitude = (if dividend < 0 {
            -dividend
        } else {
            dividend
        }) / (if divisor < 0 {
            -divisor
        } else {
            divisor
        });
        let quotient = if (dividend < 0) == (divisor < 0) {
            magnitude
        } else {
            -magnitude
        };
        if fits64(quotient) {
            Some((quotient, dividend - quotient * divisor))
        } else {
            None
        }
    }
}

/// The state of the machine.
pub struct Machine {
    /// The index of the line to run next.
    pub pc: int,
    /// The result register.
    pub rax: int,
    /// The second register.
    pub rcx: int,
    /// The high half of a dividend.
    pub rdx: int,
    /// The operands of the last comparison, if nothing has changed the
    /// flags since.
    pub flags: Option<(int, int)>,
    /// The stack, bottom first, in words of eight bytes.
    pub stack: Seq<int>,
    /// How many words lie on the stack at and below the frame base: the slot
    /// at offset `-8k` from the base is the word of index `base + k - 1`.
    pub base: int,
}

/// How a step ends.
pub enum Outcome {
    /// The machine goes on in this state.
    Running(Machine),
    /// The function has returned this value.
    Exit(int),
    /// The line has no meaning in this state: a division traps, a jump has
    /// no target, a slot lies outside the stack.
    Fault,
}

/// The index of the stack word at `offset` bytes from the frame base, if
/// that is a slot of a frame with `base` words at and below its base on a
/// stack of `len` words.
pub open spec fn slot_index(base: int, len: nat, offset: int) -> Option<int> {
    if offset < 0 && offset % 8 == 0 && base >= 0 && base + (-offset) / 8 - 1 < len {
        Some(base + (-offset) / 8 - 1)
    } else {
        None
    }
}

impl Machine {
    /// The state with the next line to run.
    pub open spec fn advance(self) -> Machine {
        Machine { pc: self.pc + 1, ..self }
    }

    /// The index of the stack word at `offset` bytes from the frame base, if
    /// that is a slot of the frame.
    pub open spec fn slot(self, offset: int) -> Option<int> {
        slot_index(self.base, self.stack.len(), offset)
    }
}

/// Whether the line is the jump target `name`.
pub open spec fn defines(i: Instr, name: Seq<char>) -> bool {
    i == Instr::Label(name) || i == Instr::LabelClauseEnd(name)
}

/// Whether no two lines are the same jump target.
pub open spec fn labels_unique(code: Seq<Instr>) -> bool {
    forall|i: int, j: int, name: Seq<char>|
        0 <= i < code.len() && 0 <= j < code.len() && #[trigger] defines(code[i], name)
            && #[trigger] defines(code[j], name) ==> i == j
}

/// The index of the line that is the jump target `name`.
pub open spec fn target(code: Seq<Instr>, name: Seq<char>) -> Option<int> {
    if exists|i: int| 0 <= i < code.len() && defines(#[trigger] code[i], name) {
        Some(choose|i: int| 0 <= i < code.len() && defines(#[trigger] code[i], name))
    } else {
        None
    }
}

/// The state after a jump to `name`.
pub open spec fn jump(code: Seq<Instr>, m: Machine, name: Seq<char>) -> Outcome {
    match target(code, name) {
        Some(t) => Outcome::Running(Machine { pc: t, ..m }),
        None => Outcome::Fault,
    }
}

/// One step: the effect of the line at `m.pc`.
#[verifier::opaque]
pub open spec fn step(code: Seq<Instr>, m: Machine) -> Outcome {
    if !(0 <= m.pc < code.len()) {
        Outcome::Fault
    } else {
        let n = m.advance();
        match code[m.pc] {
            Instr::PushBase => Outcome::Running(Machine { stack: m.stack.push(m.base), ..n }),
            Instr::SetBase => Outcome::Running(Machine { base: m.stack.len() as int, ..n }),
            Instr::RestoreStack => if 0 <= m.base <= m.stack.len() {
                Outcome::Running(Machine { stack: m.stack.take(m.base), ..n })
            } else {
                Outcome::Fault
            },
            Instr::PopBase => if m.stack.len() > 0 {
                Outcome::Running(Machine { base: m.stack.last(), stack: m.stack.drop_last(), ..n })
            } else {
                Outcome::Fault
            },
            Instr::Ret => Outcome::Exit(m.rax),
            Instr::Release(bytes) => if bytes % 8 == 0 && bytes / 8 <= m.stack.len() {
                Outcome::Running(
                    Machine { stack: m.stack.take(m.stack.len() - bytes / 8), flags: None, ..n },
                )
            } else {
                Outcome::Fault
            },
            Instr::MovImm(value) => if fits64(value) {
                Outcome::Running(Machine { rax: value, ..n })
            } else {
                Outcome::Fault
            },
            Instr::Load(offset) => match m.slot(offset) {
                Some(i) => Outcome::Running(Machine { rax: m.stack[i], ..n }),
                None => Outcome::Fault,
            },
            Instr::Store(offset) => match m.slot(offset) {
                Some(i) => Outcome::Running(Machine { stack: m.stack.update(i, m.rax), ..n }),
                None => Outcome::Fault,
            },
            Instr::Push => Outcome::Running(Machine { stack: m.stack.push(m.rax), ..n }),
            Instr::Pop => if m.stack.len() > 0 {
                Outcome::Running(Machine { rcx: m.stack.last(), stack: m.stack.drop_last(), ..n })
            } else {
                Outcome::Fault
            },
            Instr::Neg => Outcome::Running(Machine { rax: wrap64(-m.rax), flags: None, ..n }),
            Instr::Not => Outcome::Running(Machine { rax: -m.rax - 1, ..n }),
            Instr::Add => Outcome::Running(
                Machine { rax: wrap64(m.rax + m.rcx), flags: None, ..n },
            ),
            Instr::Sub => Outcome::Running(
                Machine { rax: wrap64(m.rax - m.rcx), flags: None, ..n },
            ),
            Instr::Mul => Outcome::Running(
                Machine { rax: wrap64(m.rax * m.rcx), flags: None, ..n },
            ),
            Instr::ClearHigh => Outcome::Running(Machine { rdx: 0, flags: None, ..n }),
            Instr::Div => match divide(m.rdx, m.rax, m.rcx) {
                Some((quotient, remainder)) => Outcome::Running(
                    Machine { rax: quotient, rdx: remainder, flags: None, ..n },
                ),
                None => Outcome::Fault,
            },
            Instr::TestZero | Instr::TestZeroShort => Outcome::Running(
                Machine { flags: Some((m.rax, 0int)), ..n },
            ),
            Instr::Compare => Outcome::Running(Machine { flags: Some((m.rcx, m.rax)), ..n }),
            Instr::ClearResult => Outcome::Running(Machine { rax: 0, ..n }),
            Instr::SetIf(c) => match m.flags {
                Some((left, right)) => Outcome::Running(
                    Machine { rax: m.rax - m.rax % 256 + truth(holds(c, left, right)), ..n },
                ),
                None => Outcome::Fault,
            },
            Instr::Jmp(name) => jump(code, m, name),
            Instr::Je(name) => match m.flags {
                Some((left, right)) => if left == right {
                    jump(code, m, name)
                } else {
                    Outcome::Running(n)
                },
                None => Outcome::Fault,
            },
            Instr::Jne(name) => match m.flags {
                Some((left, right)) => if left != right {
                    jump(code, m, name)
                } else {
                    Outcome::Running(n)
                },
                None => Outcome::Fault,
            },
            _ => Outcome::Running(n),
        }
    }
}

/// Up to `fuel` steps: where the machine is then, or how it has ended.
pub open spec fn run(code: Seq<Instr>, m: Machine, fuel: nat) -> Outcome
    decreases fuel,
{
    if fuel == 0 {
        Outcome::Running(m)
    } else {
        match step(code, m) {
            Outcome::Running(after) => run(code, after, (fuel - 1) as nat),
            ended => ended,
        }
    }
}

/// Running `a` steps and then `b` steps is running `a + b` steps.
pub proof fn lemma_run_split(code: Seq<Instr>, m: Machine, a: nat, b: nat)
    ensures
        run(code, m, a + b) == (match run(code, m, a) {
            Outcome::Running(after) => run(code, after, b),
            ended => ended,
        }),
    decreases a,
{
    if a > 0 {
        match step(code, m) {
            Outcome::Running(after) => {
                lemma_run_split(code, after, (a - 1) as nat, b);
                assert((a + b - 1) as nat == (a - 1) as nat + b);
            },
            _ => {},
        }
    }
}

/// With unique labels, the target of a jump is the line that defines it.
pub proof fn lemma_target(code: Seq<Instr>, name: Seq<char>, at: int)
    requires
        labels_unique(code),
        0 <= at < code.len(),
        defines(code[at], name),
    ensures
        target(code, name) == Some(at),
{
}

} // verus!
