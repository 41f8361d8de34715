//! The lines of assembly that the lowering emits, and their text.

use crate::numeral::{decimal, push_decimal, push_signed_decimal, signed_decimal};
use vstd::prelude::*;
use vstd::string::*;

verus! {

/// The conditions of the set-if family.
pub enum Cond {
    Equal,
    NotEqual,
    Less,
    LessEqual,
    Greater,
    GreaterEqual,
}

/// One emitted line: an instruction, a label or a directive.
///
/// The result register is `%rax`, the second register `%rcx`, and offsets
/// are in bytes from the frame base `%rbp`.
pub enum Instr {
    /// Names the source file.
    File(Seq<char>),
    /// Identifies the compiler.
    Ident,
    /// Marks the stack as not executable.
    NoExecStack,
    /// Exports the function's symbol.
    Global(Seq<char>),
    /// Declares the symbol a function.
    TypeFunction(Seq<char>),
    /// The function's entry point.
    Entry(Seq<char>),
    /// Opens the call-frame information of a function.
    CfiStart,
    /// Call-frame information: the frame address after the base was saved.
    CfiFrameOffset,
    /// Call-frame information: where the old base was saved.
    CfiSavedBase,
    /// Call-frame information: the frame is now addressed by the base.
    CfiFrameRegister,
    /// Call-frame information: the frame is addressed by the stack again.
    CfiRestore,
    /// Closes the call-frame information of a function.
    CfiEnd,
    /// Bounds the function's extent.
    Size(Seq<char>),
    /// Saves the caller's frame base on the stack.
    PushBase,
    /// Makes the stack top the frame base.
    SetBase,
    /// Drops the whole frame: the stack top goes back to the frame base.
    RestoreStack,
    /// Restores the caller's frame base from the stack.
    PopBase,
    /// Returns to the caller.
    Ret,
    /// Releases that many bytes of stack.
    Release(nat),
    /// Loads the constant into the result register.
    MovImm(int),
    /// Loads the slot at the offset into the result register.
    Load(int),
    /// Stores the result register to the slot at the offset.
    Store(int),
    /// Pushes the result register.
    Push,
    /// Pops into the second register.
    Pop,
    /// Negates the result register.
    Neg,
    /// Complements the result register bit by bit.
    Not,
    /// Adds the second register to the result register.
    Add,
    /// Subtracts the second register from the result register.
    Sub,
    /// Multiplies the result register by the second register.
    Mul,
    /// Clears the high half of the dividend.
    ClearHigh,
    /// Divides the dividend by the second register.
    Div,
    /// Compares the result register with zero.
    TestZero,
    /// Compares the result register with zero, in the short spelling.
    TestZeroShort,
    /// Compares the second register with the result register.
    Compare,
    /// Zeroes the result register and leaves the flags alone.
    ClearResult,
    /// Sets the result register's low byte to 1 if the condition held at
    /// the last comparison, else to 0.
    SetIf(Cond),
    /// A jump target.
    Label(Seq<char>),
    /// The jump target at the end of a short-circuit operator.
    LabelClauseEnd(Seq<char>),
    /// Jumps to the label.
    Jmp(Seq<char>),
    /// Jumps to the label if the last comparison found equality.
    Je(Seq<char>),
    /// Jumps to the label if the last comparison found inequality.
    Jne(Seq<char>),
}

/// The mnemonic suffix of a condition.
pub open spec fn cond_text(c: Cond) -> Seq<char> {
    match c {
        Cond::Equal => "e"@,
        Cond::NotEqual => "ne"@,
        Cond::Less => "l"@,
        Cond::LessEqual => "le"@,
        Cond::Greater => "g"@,
        Cond::GreaterEqual => "ge"@,
    }
}

/// The text of one line, with its line feed.
pub open spec fn render_instr(i: Instr) -> Seq<char> {
    match i {
        Instr::File(name) => "        .file \""@ + name + "\"\n"@,
        Instr::Ident => "        .ident\t\"crust: 0.1 (By Haoran Wang)\"\n"@,
        Instr::NoExecStack => "        .section\t.note.GNU-stack,\"\",@progbits\n"@,
        Instr::Global(name) => "        .global "@ + name + "\n"@,
        Instr::TypeFunction(name) => "        .type "@ + name + ", @function\n"@,
        Instr::Entry(name) => name + ":\n"@,
        Instr::CfiStart => "        .cfi_startproc\n"@,
        Instr::CfiFrameOffset => "        .cfi_def_cfa_offset 16\n"@,
        Instr::CfiSavedBase => "        .cfi_offset 6, -16\n"@,
        Instr::CfiFrameRegister => "        .cfi_def_cfa_register 6\n"@,
        Instr::CfiRestore => "        .cfi_def_cfa 7, 8\n"@,
        Instr::CfiEnd => "        .cfi_endproc\n"@,
        Instr::Size(name) => "        .size   "@ + name + ", .-"@ + name + "\n"@,
        Instr::PushBase => "        pushq\t%rbp\n"@,
        Instr::SetBase => "        movq\t%rsp, %rbp\n"@,
        Instr::RestoreStack => "        movq %rbp, %rsp\n"@,
        Instr::PopBase => "        popq\t%rbp\n"@,
        Instr::Ret => "        ret\n"@,
        Instr::Release(bytes) => "        addq $"@ + decimal(bytes) + ", %rsp\n"@,
        Instr::MovImm(value) => "        movq $"@ + signed_decimal(value) + ", %rax\n"@,
        Instr::Load(offset) => "        movq "@ + signed_decimal(offset) + "(%rbp), %rax\n"@,
        Instr::Store(offset) => "        movq %rax, "@ + signed_decimal(offset) + "(%rbp)\n"@,
        Instr::Push => "        pushq %rax\n"@,
        Instr::Pop => "        popq %rcx\n"@,
        Instr::Neg => "        neg %rax\n"@,
        Instr::Not => "        not %rax\n"@,
        Instr::Add => "        addq %rcx, %rax\n"@,
        Instr::Sub => "        subq %rcx, %rax\n"@,
        Instr::Mul => "        imul %rcx, %rax\n"@,
        Instr::ClearHigh => "        xorq %rdx, %rdx\n"@,
        Instr::Div => "        idivq %rcx\n"@,
        Instr::TestZero => "        cmpq $0, %rax\n"@,
        Instr::TestZeroShort => "        cmp  $0, %rax\n"@,
        Instr::Compare =>
            "        cmpq %rax, %rcx # set ZF on if %rax == %rcx, set it off otherwise\n"@,
        Instr::ClearResult =>
            "        movq $0, %rax   # zero out EAX, does not change flag\n"@,
        Instr::SetIf(c) => "        set"@ + cond_text(c) + " %al\n"@,
        Instr::Label(name) => name + ":\n"@,
        Instr::LabelClauseEnd(name) => name + ": # end of clause here\n"@,
        Instr::Jmp(name) => "        jmp "@ + name + "\n"@,
        Instr::Je(name) => "        je "@ + name + "\n"@,
        Instr::Jne(name) => "        jne "@ + name + "\n"@,
    }
}

/// The text of a sequence of lines: the texts of the lines, one after
/// another.
pub open spec fn render(lines: Seq<Instr>) -> Seq<char>
    decreases lines.len(),
{
    if lines.len() == 0 {
        Seq::empty()
    } else {
        render(lines.drop_last()) + render_instr(lines.last())
    }
}

/// The text of a sequence with one more line.
pub proof fn lemma_render_push(lines: Seq<Instr>, i: Instr)
    ensures
        render(lines.push(i)) == render(lines) + render_instr(i),
{
    assert(lines.push(i).drop_last() =~= lines);
}

/// The text of two sequences joined is the two texts joined.
pub proof fn lemma_render_concat(a: Seq<Instr>, b: Seq<Instr>)
    ensures
        render(a + b) == render(a) + render(b),
    decreases b.len(),
{
    if b.len() == 0 {
        assert(a + b =~= a);
        assert(render(a) + render(b) =~= render(a));
    } else {
        lemma_render_concat(a, b.drop_last());
        assert((a + b).drop_last() =~= a + b.drop_last());
        assert(render(a + b) =~= render(a) + render(b));
    }
}

/// Emitted text together with the lines that it spells.
pub(crate) struct Code {
    pub(crate) text: String,
    pub(crate) lines: Ghost<Seq<Instr>>,
}

impl Code {
    /// The text is the text of the lines.
    pub(crate) open spec fn wf(&self) -> bool {
        self.text@ == render(self.lines@)
    }

    /// No line.
    pub(crate) fn new() -> (r: Self)
        ensures
            r.wf(),
            r.lines@ == Seq::<Instr>::empty(),
    {
        Code { text: String::new(), lines: Ghost(Seq::empty()) }
    }

    /// Adds the line `i`, whose text is `text`.
    pub(crate) fn put(&mut self, text: &str, Ghost(i): Ghost<Instr>)
        requires
            old(self).wf(),
            text@ == render_instr(i),
        ensures
            final(self).wf(),
            final(self).lines@ == old(self).lines@.push(i),
    {
        self.text.append(text);
        proof {
            lemma_render_push(self.lines@, i);
            self.lines@ = self.lines@.push(i);
        }
    }

    /// Adds the line `i`, whose text is a name between two fixed parts.
    pub(crate) fn put_name(&mut self, before: &str, name: &str, after: &str, Ghost(i): Ghost<Instr>)
        requires
            old(self).wf(),
            before@ + name@ + after@ == render_instr(i),
        ensures
            final(self).wf(),
            final(self).lines@ == old(self).lines@.push(i),
    {
        self.text.append(before);
        self.text.append(name);
        self.text.append(after);
        proof {
            lemma_render_push(self.lines@, i);
            assert(self.text@ =~= old(self).text@ + (before@ + name@ + after@));
            self.lines@ = self.lines@.push(i);
        }
    }

    /// Adds the line `i`, whose text is a signed number between two fixed
    /// parts.
    pub(crate) fn put_number(&mut self, before: &str, n: i64, after: &str, Ghost(i): Ghost<Instr>)
        requires
            old(self).wf(),
            before@ + signed_decimal(n as int) + after@ == render_instr(i),
        ensures
            final(self).wf(),
            final(self).lines@ == old(self).lines@.push(i),
    {
        self.text.append(before);
        push_signed_decimal(&mut self.text, n);
        self.text.append(after);
        proof {
            lemma_render_push(self.lines@, i);
            assert(self.text@ =~= old(self).text@ + (before@ + signed_decimal(n as int) + after@));
            self.lines@ = self.lines@.push(i);
        }
    }

    /// Adds the line `i`, whose text is a count between two fixed parts.
    pub(crate) fn put_count(&mut self, before: &str, n: u64, after: &str, Ghost(i): Ghost<Instr>)
        requires
            old(self).wf(),
            before@ + decimal(n as nat) + after@ == render_instr(i),
        ensures
            final(self).wf(),
            final(self).lines@ == old(self).lines@.push(i),
    {
        self.text.append(before);
        push_decimal(&mut self.text, n);
        self.text.append(after);
        proof {
            lemma_render_push(self.lines@, i);
            assert(self.text@ =~= old(self).text@ + (before@ + decimal(n as nat) + after@));
            self.lines@ = self.lines@.push(i);
        }
    }

    /// Adds the line `i`, whose text is a name and a fixed part.
    pub(crate) fn put_head(&mut self, name: &str, after: &str, Ghost(i): Ghost<Instr>)
        requires
            old(self).wf(),
            name@ + after@ == render_instr(i),
        ensures
            final(self).wf(),
            final(self).lines@ == old(self).lines@.push(i),
    {
        self.text.append(name);
        self.text.append(after);
        proof {
            lemma_render_push(self.lines@, i);
            assert(self.text@ =~= old(self).text@ + (name@ + after@));
            self.lines@ = self.lines@.push(i);
        }
    }

    /// Adds the line `i`, whose text is a name twice among three fixed
    /// parts.
    pub(crate) fn put_name_twice(
        &mut self,
        before: &str,
        name: &str,
        between: &str,
        after: &str,
        Ghost(i): Ghost<Instr>,
    )
        requires
            old(self).wf(),
            before@ + name@ + between@ + name@ + after@ == render_instr(i),
        ensures
            final(self).wf(),
            final(self).lines@ == old(self).lines@.push(i),
    {
        self.text.append(before);
        self.text.append(name);
        self.text.append(between);
        self.text.append(name);
        self.text.append(after);
        proof {
            lemma_render_push(self.lines@, i);
            assert(self.text@ =~= old(self).text@ + (before@ + name@ + between@ + name@ + after@));
            self.lines@ = self.lines@.push(i);
        }
    }

    /// Adds the lines of `other` after the lines held.
    pub(crate) fn splice(&mut self, other: &Code)
        requires
            old(self).wf(),
            other.wf(),
        ensures
            final(self).wf(),
            final(self).lines@ == old(self).lines@ + other.lines@,
    {
        self.text.append(other.text.as_str());
        proof {
            lemma_render_concat(self.lines@, other.lines@);
            self.lines@ = self.lines@ + other.lines@;
        }
    }
}

} // verus!
