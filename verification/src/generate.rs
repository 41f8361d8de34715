//! The lowering itself: from a tree to assembly text.

use crate::ast::{NodeType, ParseNode, StmtType, TokType};
use crate::code::{render, Code, Cond, Instr};
use crate::error::{Failure, GenError};
use crate::frame::{FrameMap, ScopeSet};
use crate::label::{label_text, LabelAllocator};
use crate::lower::{
    always_returns, binary_tail, branch, children_sum, comparison, epilogue, fallback, fits,
    items_fit, label_need, label_weight, lemma_children_sum_step, lemma_sum_unfold, lower_block,
    lower_declare, lower_function, lower_functions, lower_items, lower_program, lower_stmt,
    own_labels, own_slots, prologue, right_first, short_circuit_head, short_circuit_tail,
    slot_weight, some_item_returns, tree_sum, unary_tail, Declared, Items, Lowered,
};
use vstd::prelude::*;
use vstd::string::*;

verus! {

/// Whether emitted code spells the lowering `expected` and the labels have
/// advanced as it says, or the failure is the expected one.
pub(crate) open spec fn code_is(
    r: Result<Code, GenError>,
    expected: Result<Lowered, Failure>,
    issued: nat,
) -> bool {
    match r {
        Ok(code) => expected matches Ok(l) && code.wf() && code.lines@ == l.lines && issued
            == l.next,
        Err(e) => expected matches Err(f) && e@ == f,
    }
}

/// Whether a text is the text of the lowering `expected` and the labels have
/// advanced as it says, or the failure is the expected one.
pub open spec fn text_is(
    r: Result<String, GenError>,
    expected: Result<Lowered, Failure>,
    issued: nat,
) -> bool {
    match r {
        Ok(text) => expected matches Ok(l) && text@ == render(l.lines) && issued == l.next,
        Err(e) => expected matches Err(f) && e@ == f,
    }
}

/// Adds the lines that drop the frame and restore the caller's frame base.
fn put_epilogue(code: &mut Code)
    requires
        old(code).wf(),
    ensures
        final(code).wf(),
        final(code).lines@ == old(code).lines@ + epilogue(),
{
    code.put("        movq %rbp, %rsp\n", Ghost(Instr::RestoreStack));
    code.put("        popq\t%rbp\n", Ghost(Instr::PopBase));
    code.put("        .cfi_def_cfa 7, 8\n", Ghost(Instr::CfiRestore));
    assert(code.lines@ =~= old(code).lines@ + epilogue());
}

/// Adds the line that sets the result register's low byte from the
/// comparison that `op` makes.
fn put_set_if(code: &mut Code, op: TokType)
    requires
        old(code).wf(),
        comparison(op) is Some,
    ensures
        final(code).wf(),
        final(code).lines@ == old(code).lines@.push(Instr::SetIf(comparison(op).unwrap())),
{
    match op {
        TokType::Equal => code.put_name("        set", "e", " %al\n", Ghost(Instr::SetIf(Cond::Equal))),
        TokType::NotEqual => code.put_name(
            "        set",
            "ne",
            " %al\n",
            Ghost(Instr::SetIf(Cond::NotEqual)),
        ),
        TokType::Lt => code.put_name("        set", "l", " %al\n", Ghost(Instr::SetIf(Cond::Less))),
        TokType::LessEqual => code.put_name(
            "        set",
            "le",
            " %al\n",
            Ghost(Instr::SetIf(Cond::LessEqual)),
        ),
        TokType::Gt => code.put_name("        set", "g", " %al\n", Ghost(Instr::SetIf(Cond::Greater))),
        _ => code.put_name(
            "        set",
            "ge",
            " %al\n",
            Ghost(Instr::SetIf(Cond::GreaterEqual)),
        ),
    }
}

/// Whether `op` is a unary operator with a lowering.
fn is_unary(op: TokType) -> (r: bool)
    ensures
        r == unary_tail(op).is_some(),
{
    match op {
        TokType::Minus | TokType::Tilde | TokType::Exclamation => true,
        _ => false,
    }
}

/// Adds the lines that apply the unary operator `op` to the result
/// register.
fn put_unary_tail(code: &mut Code, op: TokType)
    requires
        old(code).wf(),
        unary_tail(op) is Some,
    ensures
        final(code).wf(),
        final(code).lines@ == old(code).lines@ + unary_tail(op).unwrap(),
{
    match op {
        TokType::Minus => {
            code.put("        neg %rax\n", Ghost(Instr::Neg));
        },
        TokType::Tilde => {
            code.put("        not %rax\n", Ghost(Instr::Not));
        },
        _ => {
            code.put("        cmp  $0, %rax\n", Ghost(Instr::TestZeroShort));
            code.put_number("        movq $", 0, ", %rax\n", Ghost(Instr::MovImm(0)));
            code.put_name("        set", "e", " %al\n", Ghost(Instr::SetIf(Cond::Equal)));
        },
    }
    assert(code.lines@ =~= old(code).lines@ + unary_tail(op).unwrap());
}

/// Whether `op` is a relational or equality operator.
fn is_comparison(op: TokType) -> (r: bool)
    ensures
        r == comparison(op).is_some(),
{
    match op {
        TokType::Equal
        | TokType::NotEqual
        | TokType::Lt
        | TokType::LessEqual
        | TokType::Gt
        | TokType::GreaterEqual => true,
        _ => false,
    }
}

/// Whether `op` is an arithmetic, relational or equality operator.
fn is_binary(op: TokType) -> (r: bool)
    ensures
        r == binary_tail(op).is_some(),
{
    match op {
        TokType::Plus | TokType::Minus | TokType::Multi | TokType::Splash => true,
        _ => is_comparison(op),
    }
}

/// Adds the lines that combine the two operands of `op`.
fn put_binary_tail(code: &mut Code, op: TokType)
    requires
        old(code).wf(),
        binary_tail(op) is Some,
    ensures
        final(code).wf(),
        final(code).lines@ == old(code).lines@ + binary_tail(op).unwrap(),
{
    match op {
        TokType::Plus => {
            code.put("        addq %rcx, %rax\n", Ghost(Instr::Add));
        },
        TokType::Minus => {
            code.put("        subq %rcx, %rax\n", Ghost(Instr::Sub));
        },
        TokType::Multi => {
            code.put("        imul %rcx, %rax\n", Ghost(Instr::Mul));
        },
        TokType::Splash => {
            code.put("        xorq %rdx, %rdx\n", Ghost(Instr::ClearHigh));
            code.put("        idivq %rcx\n", Ghost(Instr::Div));
        },
        _ => {
            code.put(
                "        cmpq %rax, %rcx # set ZF on if %rax == %rcx, set it off otherwise\n",
                Ghost(Instr::Compare),
            );
            code.put(
                "        movq $0, %rax   # zero out EAX, does not change flag\n",
                Ghost(Instr::ClearResult),
            );
            put_set_if(code, op);
        },
    }
    assert(code.lines@ =~= old(code).lines@ + binary_tail(op).unwrap());
}

/// Adds the lines between the operands of a short-circuit operator.
fn put_short_circuit_head(code: &mut Code, op: TokType, clause: &String, end: &String)
    requires
        old(code).wf(),
        op is Or || op is And,
    ensures
        final(code).wf(),
        final(code).lines@ == old(code).lines@ + short_circuit_head(op, clause@, end@),
{
    code.put("        cmpq $0, %rax\n", Ghost(Instr::TestZero));
    match op {
        TokType::Or => {
            code.put_name("        je ", clause.as_str(), "\n", Ghost(Instr::Je(clause@)));
            code.put_number("        movq $", 1, ", %rax\n", Ghost(Instr::MovImm(1)));
        },
        _ => {
            code.put_name("        jne ", clause.as_str(), "\n", Ghost(Instr::Jne(clause@)));
        },
    }
    code.put_name("        jmp ", end.as_str(), "\n", Ghost(Instr::Jmp(end@)));
    code.put_head(clause.as_str(), ":\n", Ghost(Instr::Label(clause@)));
    assert(code.lines@ =~= old(code).lines@ + short_circuit_head(op, clause@, end@));
}

/// Adds the lines after the right operand of a short-circuit operator.
fn put_short_circuit_tail(code: &mut Code, end: &String)
    requires
        old(code).wf(),
    ensures
        final(code).wf(),
        final(code).lines@ == old(code).lines@ + short_circuit_tail(end@),
{
    code.put("        cmpq $0, %rax\n", Ghost(Instr::TestZero));
    code.put_number("        movq $", 0, ", %rax\n", Ghost(Instr::MovImm(0)));
    code.put_name("        set", "ne", " %al\n", Ghost(Instr::SetIf(Cond::NotEqual)));
    code.put_head(end.as_str(), ": # end of clause here\n", Ghost(Instr::LabelClauseEnd(end@)));
    assert(code.lines@ =~= old(code).lines@ + short_circuit_tail(end@));
}

/// The lines of a two-way branch on the value that `cond` leaves.
fn branch_code(cond: Code, on_true: &Code, on_false: &Code, other: &String, end: &String) -> (r:
    Code)
    requires
        cond.wf(),
        on_true.wf(),
        on_false.wf(),
    ensures
        r.wf(),
        r.lines@ == branch(cond.lines@, on_true.lines@, on_false.lines@, other@, end@),
{
    let ghost cond_lines = cond.lines@;
    let mut code = cond;
    code.put("        cmpq $0, %rax\n", Ghost(Instr::TestZero));
    code.put_name("        je ", other.as_str(), "\n", Ghost(Instr::Je(other@)));
    code.splice(on_true);
    code.put_name("        jmp ", end.as_str(), "\n", Ghost(Instr::Jmp(end@)));
    code.put_head(other.as_str(), ":\n", Ghost(Instr::Label(other@)));
    code.splice(on_false);
    code.put_head(end.as_str(), ":\n", Ghost(Instr::Label(end@)));
    assert(code.lines@ =~= branch(cond_lines, on_true.lines@, on_false.lines@, other@, end@));
    code
}

/// Whether a declaration's results are the expected ones.
pub(crate) open spec fn declared_is(
    r: Result<(FrameMap, ScopeSet, isize, Code), GenError>,
    expected: Result<Declared, Failure>,
    issued: nat,
) -> bool {
    match r {
        Ok((map, scope, idx, code)) => expected matches Ok(d) && map@ == d.map && scope@ == d.scope
            && idx == d.idx && code.wf() && code.lines@ == d.lines && issued == d.next,
        Err(e) => expected matches Err(f) && e@ == f,
    }
}

/// Whether the labels have advanced by no more than the tree needs.
pub open spec fn advanced(before: nat, after: nat, tree: ParseNode) -> bool {
    before <= after <= before + label_need(tree)
}

/// Lowers a unary operator and its operand.
fn unary_code(
    tree: &ParseNode,
    op: TokType,
    index_map: &FrameMap,
    idx: isize,
    labels: &mut LabelAllocator,
) -> (r: Result<Code, GenError>)
    requires
        fits(*tree, idx as int, old(labels).issued()),
        tree.entry == NodeType::UnExp(op),
    ensures
        code_is(
            r,
            lower_stmt(*tree, index_map@, idx as int, old(labels).issued()),
            final(labels).issued(),
        ),
        advanced(old(labels).issued(), final(labels).issued(), *tree),
    decreases tree, 1nat, 0nat,
{
    proof {
        lemma_sum_unfold(*tree, label_weight());
        lemma_sum_unfold(*tree, slot_weight());
    }
    if !is_unary(op) {
        return Err(GenError::UnsupportedConstructError);
    }
    if tree.child.len() != 1 {
        return Err(GenError::StructuralError);
    }
    let mut code = match stmt_code(&tree.child[0], index_map, idx, labels) {
        Err(e) => {
            return Err(e);
        },
        Ok(code) => code,
    };
    put_unary_tail(&mut code, op);
    Ok(code)
}

/// Lowers an arithmetic, relational or equality operator and its operands:
/// the operand lowered first is saved on the stack while the other is
/// lowered.
fn binary_code(
    tree: &ParseNode,
    op: TokType,
    index_map: &FrameMap,
    idx: isize,
    labels: &mut LabelAllocator,
) -> (r: Result<Code, GenError>)
    requires
        fits(*tree, idx as int, old(labels).issued()),
        tree.entry == NodeType::BinExp(op),
        !(op is Or || op is And),
    ensures
        code_is(
            r,
            lower_stmt(*tree, index_map@, idx as int, old(labels).issued()),
            final(labels).issued(),
        ),
        advanced(old(labels).issued(), final(labels).issued(), *tree),
    decreases tree, 1nat, 0nat,
{
    proof {
        lemma_sum_unfold(*tree, label_weight());
        lemma_sum_unfold(*tree, slot_weight());
    }
    if !is_binary(op) {
        return Err(GenError::UnsupportedConstructError);
    }
    if tree.child.len() != 2 {
        return Err(GenError::StructuralError);
    }
    let first: usize = match op {
        TokType::Minus | TokType::Splash => 1,
        _ => 0,
    };
    assert(first == (if right_first(op) { 1int } else { 0int }));
    let mut code = match stmt_code(&tree.child[first], index_map, idx, labels) {
        Err(e) => {
            return Err(e);
        },
        Ok(code) => code,
    };
    let ghost pushed = code.lines@;
    let kept = match stmt_code(&tree.child[1 - first], index_map, idx, labels) {
        Err(e) => {
            return Err(e);
        },
        Ok(code) => code,
    };
    code.put("        pushq %rax\n", Ghost(Instr::Push));
    code.splice(&kept);
    code.put("        popq %rcx\n", Ghost(Instr::Pop));
    put_binary_tail(&mut code, op);
    assert(code.lines@ =~= pushed + seq![Instr::Push] + kept.lines@ + seq![Instr::Pop]
        + binary_tail(op).unwrap());
    Ok(code)
}

/// Lowers `&&` or `||`: the operator's two labels are taken before its
/// operands are lowered.
fn short_circuit_code(
    tree: &ParseNode,
    op: TokType,
    index_map: &FrameMap,
    idx: isize,
    labels: &mut LabelAllocator,
) -> (r: Result<Code, GenError>)
    requires
        fits(*tree, idx as int, old(labels).issued()),
        tree.entry == NodeType::BinExp(op),
        op is Or || op is And,
    ensures
        code_is(
            r,
            lower_stmt(*tree, index_map@, idx as int, old(labels).issued()),
            final(labels).issued(),
        ),
        advanced(old(labels).issued(), final(labels).issued(), *tree),
    decreases tree, 1nat, 0nat,
{
    proof {
        lemma_sum_unfold(*tree, label_weight());
        lemma_sum_unfold(*tree, slot_weight());
    }
    if tree.child.len() != 2 {
        return Err(GenError::StructuralError);
    }
    let (clause, end) = match op {
        TokType::Or => {
            let clause = labels.allocate("CLAUSE");
            let end = labels.allocate("END");
            (clause, end)
        },
        _ => {
            let clause = labels.allocate("clause");
            let end = labels.allocate("end");
            (clause, end)
        },
    };
    let mut code = match stmt_code(&tree.child[0], index_map, idx, labels) {
        Err(e) => {
            return Err(e);
        },
        Ok(code) => code,
    };
    let right = match stmt_code(&tree.child[1], index_map, idx, labels) {
        Err(e) => {
            return Err(e);
        },
        Ok(code) => code,
    };
    put_short_circuit_head(&mut code, op, &clause, &end);
    code.splice(&right);
    put_short_circuit_tail(&mut code, &end);
    Ok(code)
}

/// Lowers a ternary expression or an `if` statement: the two labels are
/// taken after the operands are lowered.
fn choice_code(
    tree: &ParseNode,
    index_map: &FrameMap,
    idx: isize,
    labels: &mut LabelAllocator,
) -> (r: Result<Code, GenError>)
    requires
        fits(*tree, idx as int, old(labels).issued()),
        tree.entry is ConditionalExp || tree.entry == NodeType::Stmt(StmtType::Conditional),
    ensures
        code_is(
            r,
            lower_stmt(*tree, index_map@, idx as int, old(labels).issued()),
            final(labels).issued(),
        ),
        advanced(old(labels).issued(), final(labels).issued(), *tree),
    decreases tree, 1nat, 0nat,
{
    proof {
        lemma_sum_unfold(*tree, label_weight());
        lemma_sum_unfold(*tree, slot_weight());
    }
    let n = tree.child.len();
    let ternary = match &tree.entry {
        NodeType::ConditionalExp => true,
        _ => false,
    };
    if ternary && n == 1 {
        return stmt_code(&tree.child[0], index_map, idx, labels);
    }
    if n != 3 && (ternary || n != 2) {
        return Err(GenError::StructuralError);
    }
    let cond = match stmt_code(&tree.child[0], index_map, idx, labels) {
        Err(e) => {
            return Err(e);
        },
        Ok(code) => code,
    };
    let on_true = match stmt_code(&tree.child[1], index_map, idx, labels) {
        Err(e) => {
            return Err(e);
        },
        Ok(code) => code,
    };
    let on_false = if n == 3 {
        match stmt_code(&tree.child[2], index_map, idx, labels) {
            Err(e) => {
                return Err(e);
            },
            Ok(code) => code,
        }
    } else {
        Code::new()
    };
    let (other, end) = if ternary {
        let other = labels.allocate("E3");
        let end = labels.allocate("ENDCOND");
        (other, end)
    } else {
        let other = labels.allocate("S2");
        let end = labels.allocate("ENDIF");
        (other, end)
    };
    Ok(branch_code(cond, &on_true, &on_false, &other, &end))
}

/// Lowers a statement or an expression.
fn stmt_code(
    tree: &ParseNode,
    index_map: &FrameMap,
    idx: isize,
    labels: &mut LabelAllocator,
) -> (r: Result<Code, GenError>)
    requires
        fits(*tree, idx as int, old(labels).issued()),
    ensures
        code_is(
            r,
            lower_stmt(*tree, index_map@, idx as int, old(labels).issued()),
            final(labels).issued(),
        ),
        advanced(old(labels).issued(), final(labels).issued(), *tree),
    decreases tree, 2nat, 0nat,
{
    proof {
        lemma_sum_unfold(*tree, label_weight());
        lemma_sum_unfold(*tree, slot_weight());
    }
    let n = tree.child.len();
    match &tree.entry {
        NodeType::Const(value) => {
            if n != 0 {
                return Err(GenError::StructuralError);
            }
            let mut code = Code::new();
            code.put_number("        movq $", *value, ", %rax\n", Ghost(Instr::MovImm(*value as int)));
            assert(code.lines@ =~= seq![Instr::MovImm(*value as int)]);
            Ok(code)
        },
        NodeType::Var(name) => match index_map.get(name) {
            None => Err(GenError::UndeclaredVariableError(name.clone())),
            Some(offset) => {
                if n != 0 {
                    return Err(GenError::StructuralError);
                }
                let mut code = Code::new();
                code.put_number(
                    "        movq ",
                    offset as i64,
                    "(%rbp), %rax\n",
                    Ghost(Instr::Load(offset as int)),
                );
                assert(code.lines@ =~= seq![Instr::Load(offset as int)]);
                Ok(code)
            },
        },
        NodeType::AssignNode(name) => match index_map.get(name) {
            None => Err(GenError::UndeclaredVariableError(name.clone())),
            Some(offset) => {
                if n != 1 {
                    return Err(GenError::StructuralError);
                }
                let mut code = match stmt_code(&tree.child[0], index_map, idx, labels) {
                    Err(e) => {
                        return Err(e);
                    },
                    Ok(code) => code,
                };
                code.put_number(
                    "        movq %rax, ",
                    offset as i64,
                    "(%rbp)\n",
                    Ghost(Instr::Store(offset as int)),
                );
                Ok(code)
            },
        },
        NodeType::UnExp(op) => unary_code(tree, *op, index_map, idx, labels),
        NodeType::BinExp(op) => match op {
            TokType::Or | TokType::And => short_circuit_code(tree, *op, index_map, idx, labels),
            _ => binary_code(tree, *op, index_map, idx, labels),
        },
        NodeType::ConditionalExp => choice_code(tree, index_map, idx, labels),
        NodeType::Stmt(StmtType::Conditional) => choice_code(tree, index_map, idx, labels),
        NodeType::Stmt(StmtType::Return) => {
            if n != 1 {
                return Err(GenError::StructuralError);
            }
            let mut code = match stmt_code(&tree.child[0], index_map, idx, labels) {
                Err(e) => {
                    return Err(e);
                },
                Ok(code) => code,
            };
            let ghost value = code.lines@;
            put_epilogue(&mut code);
            code.put("        ret\n", Ghost(Instr::Ret));
            assert(code.lines@ =~= value + epilogue() + seq![Instr::Ret]);
            Ok(code)
        },
        NodeType::Stmt(StmtType::Exp) => {
            if n != 1 {
                return Err(GenError::StructuralError);
            }
            stmt_code(&tree.child[0], index_map, idx, labels)
        },
        NodeType::Stmt(StmtType::Compound) => block_code(tree, index_map, idx, labels),
        NodeType::Prog(_) | NodeType::Fn(_) | NodeType::Declare(_) => Err(
            GenError::UnsupportedConstructError,
        ),
        _ => {
            if n != 1 {
                return Err(GenError::UnsupportedConstructError);
            }
            stmt_code(&tree.child[0], index_map, idx, labels)
        },
    }
}

/// Lowers a declaration.
fn declare_code(
    tree: &ParseNode,
    index_map: &FrameMap,
    scope: &ScopeSet,
    idx: isize,
    labels: &mut LabelAllocator,
) -> (r: Result<(FrameMap, ScopeSet, isize, Code), GenError>)
    requires
        fits(*tree, idx as int, old(labels).issued()),
    ensures
        declared_is(
            r,
            lower_declare(*tree, index_map@, scope@, idx as int, old(labels).issued()),
            final(labels).issued(),
        ),
        advanced(old(labels).issued(), final(labels).issued(), *tree),
    decreases tree, 2nat, 0nat,
{
    proof {
        lemma_sum_unfold(*tree, label_weight());
        lemma_sum_unfold(*tree, slot_weight());
    }
    match &tree.entry {
        NodeType::Declare(name) => {
            if scope.contains(name) {
                return Err(GenError::RedeclarationError(name.clone()));
            }
            if tree.child.len() > 1 {
                return Err(GenError::StructuralError);
            }
            let slot = idx - 8;
            let mut new_map = index_map.duplicate();
            new_map.insert(name.clone(), slot);
            let mut new_scope = scope.duplicate();
            new_scope.insert(name.clone());
            let mut code = if tree.child.len() == 0 {
                let mut code = Code::new();
                code.put_number("        movq $", 0, ", %rax\n", Ghost(Instr::MovImm(0)));
                code
            } else {
                match stmt_code(&tree.child[0], &new_map, slot, labels) {
                    Err(e) => {
                        return Err(e);
                    },
                    Ok(code) => code,
                }
            };
            code.put("        pushq %rax\n", Ghost(Instr::Push));
            assert(tree.child.len() == 0 ==> code.lines@ =~= seq![Instr::MovImm(0), Instr::Push]);
            Ok((new_map, new_scope, slot, code))
        },
        _ => Err(GenError::UnsupportedConstructError),
    }
}

/// Lowers the items of a block and the release of its slots.
fn block_code(
    tree: &ParseNode,
    index_map: &FrameMap,
    idx: isize,
    labels: &mut LabelAllocator,
) -> (r: Result<Code, GenError>)
    requires
        items_fit(*tree, idx as int, old(labels).issued()),
    ensures
        code_is(
            r,
            lower_block(*tree, index_map@, idx as int, old(labels).issued()),
            final(labels).issued(),
        ),
        old(labels).issued() <= final(labels).issued() <= old(labels).issued() + children_sum(
            *tree,
            label_weight(),
            0,
        ),
    decreases tree, 1nat, 0nat,
{
    proof {
        lemma_sum_unfold(*tree, label_weight());
        lemma_sum_unfold(*tree, slot_weight());
    }
    let ghost start = labels.issued();
    let ghost full = lower_items(*tree, 0, index_map@, Set::empty(), idx as int, start);
    let mut code = Code::new();
    let mut map = index_map.duplicate();
    let mut scope = ScopeSet::new();
    let mut cursor = idx;
    let mut i: usize = 0;
    while i < tree.child.len()
        invariant
            i <= tree.child.len(),
            code.wf(),
            scope@.finite(),
            cursor == idx - 8 * scope@.len(),
            start == old(labels).issued(),
            full == lower_items(*tree, 0, index_map@, Set::empty(), idx as int, start),
            start <= labels.issued(),
            labels.issued() + children_sum(*tree, label_weight(), i as int) <= start
                + children_sum(*tree, label_weight(), 0),
            start + children_sum(*tree, label_weight(), 0) <= u64::MAX,
            cursor - 8 * children_sum(*tree, slot_weight(), i as int) >= isize::MIN,
            match lower_items(*tree, i as int, map@, scope@, cursor as int, labels.issued()) {
                Ok(rest) => full == Ok::<Items, Failure>(
                    Items { lines: code.lines@ + rest.lines, scope: rest.scope, next: rest.next },
                ),
                Err(e) => full == Err::<Items, Failure>(e),
            },
        decreases tree.child.len() - i,
    {
        let item = &tree.child[i];
        let ghost before = code.lines@;
        proof {
            lemma_children_sum_step(*tree, label_weight(), i as int);
            lemma_children_sum_step(*tree, slot_weight(), i as int);
            lemma_sum_unfold(*item, slot_weight());
        }
        match &item.entry {
            NodeType::Declare(_) => {
                match declare_code(item, &map, &scope, cursor, labels) {
                    Err(e) => {
                        return Err(e);
                    },
                    Ok((new_map, new_scope, new_cursor, piece)) => {
                        map = new_map;
                        scope = new_scope;
                        cursor = new_cursor;
                        code.splice(&piece);
                        proof {
                            let rest = lower_items(
                                *tree,
                                i + 1,
                                map@,
                                scope@,
                                cursor as int,
                                labels.issued(),
                            );
                            if rest is Ok {
                                assert((before + piece.lines@) + rest->Ok_0.lines =~= before + (
                                piece.lines@ + rest->Ok_0.lines));
                            }
                        }
                    },
                }
            },
            NodeType::Stmt(StmtType::Compound) => {
                match block_code(item, &map, cursor, labels) {
                    Err(e) => {
                        return Err(e);
                    },
                    Ok(piece) => {
                        code.splice(&piece);
                        proof {
                            let rest = lower_items(
                                *tree,
                                i + 1,
                                map@,
                                scope@,
                                cursor as int,
                                labels.issued(),
                            );
                            if rest is Ok {
                                assert((before + piece.lines@) + rest->Ok_0.lines =~= before + (
                                piece.lines@ + rest->Ok_0.lines));
                            }
                        }
                    },
                }
            },
            _ => {
                match stmt_code(item, &map, cursor, labels) {
                    Err(e) => {
                        return Err(e);
                    },
                    Ok(piece) => {
                        code.splice(&piece);
                        proof {
                            let rest = lower_items(
                                *tree,
                                i + 1,
                                map@,
                                scope@,
                                cursor as int,
                                labels.issued(),
                            );
                            if rest is Ok {
                                assert((before + piece.lines@) + rest->Ok_0.lines =~= before + (
                                piece.lines@ + rest->Ok_0.lines));
                            }
                        }
                    },
                }
            },
        }
        i = i + 1;
    }
    let count = scope.len();
    let released: u64 = 8 * (count as u64);
    assert(code.lines@ + Seq::<Instr>::empty() =~= code.lines@);
    code.put_count("        addq $", released, ", %rsp\n", Ghost(Instr::Release(8 * scope@.len())));
    Ok(code)
}

/// Whether every path through the statement ends in a `return`.
pub fn returns_on_every_path(tree: &ParseNode) -> (r: bool)
    ensures
        r == always_returns(*tree),
    decreases tree,
{
    match &tree.entry {
        NodeType::Stmt(StmtType::Return) => true,
        NodeType::Stmt(StmtType::Conditional) => tree.child.len() == 3 && returns_on_every_path(
            &tree.child[1],
        ) && returns_on_every_path(&tree.child[2]),
        NodeType::Stmt(StmtType::Compound) | NodeType::Fn(_) => {
            let mut i: usize = 0;
            while i < tree.child.len()
                invariant
                    i <= tree.child.len(),
                    always_returns(*tree) == some_item_returns(*tree, 0),
                    some_item_returns(*tree, 0) == some_item_returns(*tree, i as int),
                decreases tree.child.len() - i,
            {
                if returns_on_every_path(&tree.child[i]) {
                    return true;
                }
                i = i + 1;
            }
            false
        },
        NodeType::Block => tree.child.len() == 1 && returns_on_every_path(&tree.child[0]),
        _ => false,
    }
}

/// Adds the lines that open the function `name`.
fn put_prologue(code: &mut Code, name: &String, label: &String)
    requires
        old(code).wf(),
    ensures
        final(code).wf(),
        final(code).lines@ == old(code).lines@ + prologue(name@, label@),
{
    code.put_name("        .global ", name.as_str(), "\n", Ghost(Instr::Global(name@)));
    code.put_name("        .type ", name.as_str(), ", @function\n", Ghost(Instr::TypeFunction(name@)));
    code.put_head(name.as_str(), ":\n", Ghost(Instr::Entry(name@)));
    code.put_head(label.as_str(), ":\n", Ghost(Instr::Label(label@)));
    code.put("        .cfi_startproc\n", Ghost(Instr::CfiStart));
    code.put("        pushq\t%rbp\n", Ghost(Instr::PushBase));
    code.put("        .cfi_def_cfa_offset 16\n", Ghost(Instr::CfiFrameOffset));
    code.put("        .cfi_offset 6, -16\n", Ghost(Instr::CfiSavedBase));
    code.put("        movq\t%rsp, %rbp\n", Ghost(Instr::SetBase));
    code.put("        .cfi_def_cfa_register 6\n", Ghost(Instr::CfiFrameRegister));
    assert(code.lines@ =~= old(code).lines@ + prologue(name@, label@));
}

/// Lowers a function definition.
fn function_code(tree: &ParseNode, labels: &mut LabelAllocator) -> (r: Result<Code, GenError>)
    requires
        fits(*tree, 0, old(labels).issued()),
    ensures
        code_is(r, lower_function(*tree, old(labels).issued()), final(labels).issued()),
        advanced(old(labels).issued(), final(labels).issued(), *tree),
{
    proof {
        lemma_sum_unfold(*tree, label_weight());
        lemma_sum_unfold(*tree, slot_weight());
    }
    match &tree.entry {
        NodeType::Fn(name) => {
            let entry_label = labels.allocate("FB");
            let mut code = Code::new();
            put_prologue(&mut code, name, &entry_label);
            let empty = FrameMap::new();
            let body = match block_code(tree, &empty, 0, labels) {
                Err(e) => {
                    return Err(e);
                },
                Ok(code) => code,
            };
            code.splice(&body);
            let ghost falls = if always_returns(*tree) {
                Seq::<Instr>::empty()
            } else {
                fallback()
            };
            if !returns_on_every_path(tree) {
                let ghost before = code.lines@;
                code.put_number("        movq $", 0, ", %rax\n", Ghost(Instr::MovImm(0)));
                put_epilogue(&mut code);
                code.put("        ret\n", Ghost(Instr::Ret));
                assert(code.lines@ =~= before + fallback());
            } else {
                assert(code.lines@ + Seq::<Instr>::empty() =~= code.lines@);
            }
            put_epilogue(&mut code);
            code.put("        .cfi_endproc\n", Ghost(Instr::CfiEnd));
            let end_label = labels.allocate("FE");
            code.put_head(end_label.as_str(), ":\n", Ghost(Instr::Label(end_label@)));
            code.put_name_twice(
                "        .size   ",
                name.as_str(),
                ", .-",
                "\n",
                Ghost(Instr::Size(name@)),
            );
            assert(code.lines@ =~= prologue(name@, entry_label@) + body.lines@ + falls + epilogue()
                + seq![Instr::CfiEnd, Instr::Label(end_label@), Instr::Size(name@)]);
            Ok(code)
        },
        _ => Err(GenError::UnsupportedConstructError),
    }
}

/// Lowers a program.
fn program_code(tree: &ParseNode, labels: &mut LabelAllocator) -> (r: Result<Code, GenError>)
    requires
        fits(*tree, 0, old(labels).issued()),
    ensures
        code_is(r, lower_program(*tree, old(labels).issued()), final(labels).issued()),
        advanced(old(labels).issued(), final(labels).issued(), *tree),
{
    proof {
        lemma_sum_unfold(*tree, label_weight());
        lemma_sum_unfold(*tree, slot_weight());
    }
    let ghost start = labels.issued();
    let ghost full = lower_functions(*tree, 0, start);
    let mut code = Code::new();
    let mut i: usize = 0;
    while i < tree.child.len()
        invariant
            i <= tree.child.len(),
            code.wf(),
            start == old(labels).issued(),
            full == lower_functions(*tree, 0, start),
            start <= labels.issued(),
            labels.issued() + children_sum(*tree, label_weight(), i as int) <= start
                + children_sum(*tree, label_weight(), 0),
            start + children_sum(*tree, label_weight(), 0) <= u64::MAX,
            children_sum(*tree, label_weight(), 0) <= label_need(*tree),
            0 - 8 * children_sum(*tree, slot_weight(), i as int) >= isize::MIN,
            match lower_functions(*tree, i as int, labels.issued()) {
                Ok(rest) => full == Ok::<Lowered, Failure>(
                    Lowered { lines: code.lines@ + rest.lines, next: rest.next },
                ),
                Err(e) => full == Err::<Lowered, Failure>(e),
            },
        decreases tree.child.len() - i,
    {
        let ghost before = code.lines@;
        proof {
            lemma_children_sum_step(*tree, label_weight(), i as int);
            lemma_children_sum_step(*tree, slot_weight(), i as int);
        }
        match function_code(&tree.child[i], labels) {
            Err(e) => {
                return Err(e);
            },
            Ok(piece) => {
                code.splice(&piece);
                proof {
                    let rest = lower_functions(*tree, i + 1, labels.issued());
                    if rest is Ok {
                        assert((before + piece.lines@) + rest->Ok_0.lines =~= before + (
                        piece.lines@ + rest->Ok_0.lines));
                    }
                }
            },
        }
        i = i + 1;
    }
    match &tree.entry {
        NodeType::Prog(name) => {
            let mut whole = Code::new();
            whole.put_name("        .file \"", name.as_str(), "\"\n", Ghost(Instr::File(name@)));
            whole.splice(&code);
            whole.put("        .ident\t\"crust: 0.1 (By Haoran Wang)\"\n", Ghost(Instr::Ident));
            whole.put(
                "        .section\t.note.GNU-stack,\"\",@progbits\n",
                Ghost(Instr::NoExecStack),
            );
            assert(code.lines@ + Seq::<Instr>::empty() =~= code.lines@);
            assert(whole.lines@ =~= seq![Instr::File(name@)] + code.lines@ + seq![
                Instr::Ident,
                Instr::NoExecStack,
            ]);
            Ok(whole)
        },
        _ => Err(GenError::UnsupportedConstructError),
    }
}

/// How many slots, or labels, the node itself takes.
fn own_count(tree: &ParseNode, slots: bool) -> (r: u64)
    ensures
        r == (if slots {
            own_slots(*tree)
        } else {
            own_labels(*tree)
        }),
{
    match &tree.entry {
        NodeType::Declare(_) => if slots {
            1
        } else {
            0
        },
        NodeType::ConditionalExp => if !slots && tree.child.len() == 3 {
            2
        } else {
            0
        },
        NodeType::Stmt(StmtType::Conditional) | NodeType::Fn(_) => if slots {
            0
        } else {
            2
        },
        NodeType::BinExp(op) => match op {
            TokType::Or | TokType::And => if slots {
                0
            } else {
                2
            },
            _ => 0,
        },
        _ => 0,
    }
}

/// The weight that is summed: slots or labels.
pub open spec fn weight(slots: bool) -> spec_fn(ParseNode) -> nat {
    if slots {
        slot_weight()
    } else {
        label_weight()
    }
}

/// How many slots, or labels, the tree takes, unless the count is no
/// 64-bit number.
fn weigh(tree: &ParseNode, slots: bool) -> (r: Option<u64>)
    ensures
        match r {
            Some(n) => n == tree_sum(*tree, weight(slots)),
            None => tree_sum(*tree, weight(slots)) > u64::MAX,
        },
    decreases tree,
{
    let mut total: u64 = own_count(tree, slots);
    let mut i: usize = 0;
    while i < tree.child.len()
        invariant
            i <= tree.child.len(),
            total + children_sum(*tree, weight(slots), i as int) == tree_sum(*tree, weight(slots)),
        decreases tree.child.len() - i,
    {
        proof {
            lemma_children_sum_step(*tree, weight(slots), i as int);
        }
        match weigh(&tree.child[i], slots) {
            None => {
                return None;
            },
            Some(n) => {
                if n > u64::MAX - total {
                    return None;
                }
                total = total + n;
            },
        }
        i = i + 1;
    }
    Some(total)
}

/// Whether the machine's integers can hold what the lowering of `tree`
/// counts from the cursor `idx` and the labels of `labels` on: what the
/// lowering functions ask of their callers.
pub fn lowering_fits(tree: &ParseNode, idx: isize, labels: &LabelAllocator) -> (r: bool)
    ensures
        r == fits(*tree, idx as int, labels.issued()),
{
    match (weigh(tree, false), weigh(tree, true)) {
        (Some(label_count), Some(slots)) => {
            label_count <= labels.remaining() && (idx as i128) - 8 * (slots as i128) >= (
            isize::MIN as i128)
        },
        _ => false,
    }
}

/// Whether a declaration's results are the expected ones.
pub open spec fn declaration_is(
    r: Result<(FrameMap, ScopeSet, isize, String), GenError>,
    expected: Result<Declared, Failure>,
    issued: nat,
) -> bool {
    match r {
        Ok((map, scope, idx, text)) => expected matches Ok(d) && map@ == d.map && scope@ == d.scope
            && idx == d.idx && text@ == render(d.lines) && issued == d.next,
        Err(e) => expected matches Err(f) && e@ == f,
    }
}

/// The text of emitted code, or the failure.
fn finish(r: Result<Code, GenError>) -> (text: Result<String, GenError>)
    ensures
        forall|expected: Result<Lowered, Failure>, issued: nat|
            code_is(r, expected, issued) ==> text_is(text, expected, issued),
{
    match r {
        Ok(code) => Ok(code.text),
        Err(e) => Err(e),
    }
}

/// The lines that open the function `fn_name`; their label is the next one
/// of `labels`, with the prefix `FB`.
pub fn gen_fn_prologue(fn_name: String, labels: &mut LabelAllocator) -> (text: String)
    requires
        old(labels).issued() < u64::MAX,
    ensures
        text@ == render(prologue(fn_name@, label_text("FB"@, old(labels).issued()))),
        final(labels).issued() == old(labels).issued() + 1,
{
    let label = labels.allocate("FB");
    let mut code = Code::new();
    put_prologue(&mut code, &fn_name, &label);
    assert(Seq::<Instr>::empty() + prologue(fn_name@, label@) =~= prologue(fn_name@, label@));
    code.text
}

/// The lines that drop the frame and restore the caller's frame base.
pub fn gen_fn_epilogue() -> (text: String)
    ensures
        text@ == render(epilogue()),
{
    let mut code = Code::new();
    put_epilogue(&mut code);
    assert(Seq::<Instr>::empty() + epilogue() =~= epilogue());
    code.text
}

/// Lowers the declaration `tree` in a block that has declared `scope`, with
/// `index_map` in sight and the cursor at `idx`.
///
/// Gives the frame map and the scope set with the new variable, the cursor
/// one slot further down, and the text. Fails with
/// `UnsupportedConstructError` if the node is no declaration, with
/// `RedeclarationError` if the name is in `scope`, with `StructuralError` if
/// the node has more than one child, and else with what the initialiser
/// fails with. `lowering_fits` tests what is required.
pub fn gen_declare(
    tree: &ParseNode,
    index_map: &FrameMap,
    scope: &ScopeSet,
    idx: isize,
    labels: &mut LabelAllocator,
) -> (r: Result<(FrameMap, ScopeSet, isize, String), GenError>)
    requires
        fits(*tree, idx as int, old(labels).issued()),
    ensures
        declaration_is(
            r,
            lower_declare(*tree, index_map@, scope@, idx as int, old(labels).issued()),
            final(labels).issued(),
        ),
        advanced(old(labels).issued(), final(labels).issued(), *tree),
{
    match declare_code(tree, index_map, scope, idx, labels) {
        Ok((map, scope, idx, code)) => Ok((map, scope, idx, code.text)),
        Err(e) => Err(e),
    }
}

/// Lowers the items of the block `tree`, with `index_map` in sight and the
/// cursor at `idx`, and releases at the end the slots that the block itself
/// has declared.
///
/// The block starts with an empty scope set, so that it may declare names
/// that the blocks around it have declared. Fails with what the first item
/// that fails fails with. `lowering_fits` tests what is required.
pub fn gen_block(
    tree: &ParseNode,
    index_map: &FrameMap,
    idx: isize,
    labels: &mut LabelAllocator,
) -> (r: Result<String, GenError>)
    requires
        fits(*tree, idx as int, old(labels).issued()),
    ensures
        text_is(
            r,
            lower_block(*tree, index_map@, idx as int, old(labels).issued()),
            final(labels).issued(),
        ),
        advanced(old(labels).issued(), final(labels).issued(), *tree),
{
    proof {
        lemma_sum_unfold(*tree, label_weight());
        lemma_sum_unfold(*tree, slot_weight());
    }
    finish(block_code(tree, index_map, idx, labels))
}

/// Lowers the statement or expression `tree`, with `index_map` in sight.
/// The text of an expression leaves its value in the result register.
///
/// Fails with `UndeclaredVariableError` where a variable is read or assigned
/// that `index_map` does not hold, with `UnsupportedConstructError` for an
/// operator or a node kind without a lowering, and with `StructuralError`
/// for a node with a wrong number of children; the first failure in the
/// order of lowering is given. `lowering_fits` tests what is required.
pub fn gen_stmt(
    tree: &ParseNode,
    index_map: &FrameMap,
    idx: isize,
    labels: &mut LabelAllocator,
) -> (r: Result<String, GenError>)
    requires
        fits(*tree, idx as int, old(labels).issued()),
    ensures
        text_is(
            r,
            lower_stmt(*tree, index_map@, idx as int, old(labels).issued()),
            final(labels).issued(),
        ),
        advanced(old(labels).issued(), final(labels).issued(), *tree),
{
    finish(stmt_code(tree, index_map, idx, labels))
}

/// Lowers the function definition `tree`: prologue, body, closing lines,
/// and before those a return of 0 unless the body returns on every path.
///
/// Fails with `UnsupportedConstructError` if the node is no function
/// definition, and else with what the body fails with. `lowering_fits`
/// tests what is required.
pub fn gen_fn(tree: &ParseNode, labels: &mut LabelAllocator) -> (r: Result<String, GenError>)
    requires
        fits(*tree, 0, old(labels).issued()),
    ensures
        text_is(r, lower_function(*tree, old(labels).issued()), final(labels).issued()),
        advanced(old(labels).issued(), final(labels).issued(), *tree),
{
    finish(function_code(tree, labels))
}

/// Lowers the program `tree`: the file's name, each function in source
/// order, and the closing directives.
///
/// Fails with what the first function that fails fails with, and with
/// `UnsupportedConstructError` if a child is no function definition or the
/// node is no program. `lowering_fits` tests what is required.
pub fn gen_prog(tree: &ParseNode, labels: &mut LabelAllocator) -> (r: Result<String, GenError>)
    requires
        fits(*tree, 0, old(labels).issued()),
    ensures
        text_is(r, lower_program(*tree, old(labels).issued()), final(labels).issued()),
        advanced(old(labels).issued(), final(labels).issued(), *tree),
{
    finish(program_code(tree, labels))
}

} // verus!
