use crust::ast::{NodeType, ParseNode, StmtType, TokType};
use crust::error::GenError;
use crust::frame::{FrameMap, ScopeSet};
use crust::generate::{
    gen_block, gen_declare, gen_fn, gen_fn_epilogue, gen_fn_prologue, gen_prog, gen_stmt,
    lowering_fits, returns_on_every_path,
};
use crust::label::LabelAllocator;

fn node(entry: NodeType, child: Vec<ParseNode>) -> ParseNode {
    ParseNode { entry, child }
}

fn constant(n: i64) -> ParseNode {
    node(NodeType::Const(n), vec![])
}

fn var(name: &str) -> ParseNode {
    node(NodeType::Var(name.to_string()), vec![])
}

fn binary(op: TokType, l: ParseNode, r: ParseNode) -> ParseNode {
    node(NodeType::BinExp(op), vec![l, r])
}

fn unary(op: TokType, e: ParseNode) -> ParseNode {
    node(NodeType::UnExp(op), vec![e])
}

fn ret(e: ParseNode) -> ParseNode {
    node(NodeType::Stmt(StmtType::Return), vec![e])
}

fn declare(name: &str, init: Option<ParseNode>) -> ParseNode {
    node(NodeType::Declare(name.to_string()), init.into_iter().collect())
}

fn compound(items: Vec<ParseNode>) -> ParseNode {
    node(NodeType::Stmt(StmtType::Compound), items)
}

fn function(name: &str, items: Vec<ParseNode>) -> ParseNode {
    node(NodeType::Fn(name.to_string()), items)
}

fn program(name: &str, functions: Vec<ParseNode>) -> ParseNode {
    node(NodeType::Prog(name.to_string()), functions)
}

/// Joins lines, each indented by eight spaces and ended by a line feed.
fn indented(lines: &[&str]) -> String {
    let mut s = String::new();
    for l in lines {
        s.push_str("        ");
        s.push_str(l);
        s.push('\n');
    }
    s
}

const COMPARE: &str = "cmpq %rax, %rcx # set ZF on if %rax == %rcx, set it off otherwise";
const CLEAR: &str = "movq $0, %rax   # zero out EAX, does not change flag";

fn lower(tree: &ParseNode) -> Result<String, GenError> {
    let mut labels = LabelAllocator::new();
    gen_stmt(tree, &FrameMap::new(), 0, &mut labels)
}

fn frame(bindings: &[(&str, isize)]) -> FrameMap {
    let mut m = FrameMap::new();
    for (name, offset) in bindings {
        m.insert(name.to_string(), *offset);
    }
    m
}

fn main_prologue() -> String {
    let mut s = indented(&[".global main", ".type main, @function"]);
    s.push_str("main:\n.LFB0:\n");
    s.push_str(&indented(&[
        ".cfi_startproc",
        "pushq\t%rbp",
        ".cfi_def_cfa_offset 16",
        ".cfi_offset 6, -16",
        "movq\t%rsp, %rbp",
        ".cfi_def_cfa_register 6",
    ]));
    s
}

fn epilogue() -> String {
    indented(&["movq %rbp, %rsp", "popq\t%rbp", ".cfi_def_cfa 7, 8"])
}

fn main_closing(end_label: &str) -> String {
    let mut s = epilogue();
    s.push_str(&indented(&[".cfi_endproc"]));
    s.push_str(end_label);
    s.push_str(":\n");
    s.push_str(&indented(&[".size   main, .-main"]));
    s
}

fn whole(file: &str, functions: &str) -> String {
    let mut s = format!("        .file \"{}\"\n", file);
    s.push_str(functions);
    s.push_str("        .ident\t\"crust: 0.1 (By Haoran Wang)\"\n");
    s.push_str("        .section\t.note.GNU-stack,\"\",@progbits\n");
    s
}

#[test]
fn labels_start_at_zero_and_count_up() {
    let mut labels = LabelAllocator::new();
    assert_eq!(labels.allocate("FB"), ".LFB0");
    assert_eq!(labels.allocate("E3"), ".LE31");
    assert_eq!(labels.allocate("ENDCOND"), ".LENDCOND2");
    assert_eq!(labels.allocate(""), ".L3");
    assert_eq!(labels.remaining(), u64::MAX - 4);
}

#[test]
fn labels_are_pairwise_distinct() {
    let prefixes = ["FB", "FE", "E3", "ENDCOND", "S2", "ENDIF", "CLAUSE", "END", "clause", "end"];
    let mut labels = LabelAllocator::new();
    let mut seen: Vec<String> = Vec::new();
    for round in 0..30 {
        for p in prefixes.iter() {
            let l = labels.allocate(p);
            assert!(!seen.contains(&l), "label {} repeated in round {}", l, round);
            seen.push(l);
        }
    }
    assert_eq!(seen.len(), 300);
}

#[test]
fn label_numbers_have_many_digits() {
    let mut labels = LabelAllocator::new();
    let mut last = String::new();
    for _ in 0..1235 {
        last = labels.allocate("x");
    }
    assert_eq!(last, ".Lx1234");
}

#[test]
fn constant_loads_immediate() {
    assert_eq!(lower(&constant(5)), Ok("        movq $5, %rax\n".to_string()));
    assert_eq!(lower(&constant(0)), Ok("        movq $0, %rax\n".to_string()));
    assert_eq!(lower(&constant(-42)), Ok("        movq $-42, %rax\n".to_string()));
    assert_eq!(
        lower(&constant(i64::MIN)),
        Ok("        movq $-9223372036854775808, %rax\n".to_string())
    );
    assert_eq!(
        lower(&constant(i64::MAX)),
        Ok("        movq $9223372036854775807, %rax\n".to_string())
    );
}

#[test]
fn variable_loads_from_its_slot() {
    let mut labels = LabelAllocator::new();
    let map = frame(&[("a", -8), ("b", -16)]);
    assert_eq!(
        gen_stmt(&var("b"), &map, -16, &mut labels),
        Ok("        movq -16(%rbp), %rax\n".to_string())
    );
    assert_eq!(
        gen_stmt(&var("a"), &map, -16, &mut labels),
        Ok("        movq -8(%rbp), %rax\n".to_string())
    );
}

#[test]
fn undeclared_variable_is_rejected() {
    assert_eq!(lower(&var("x")), Err(GenError::UndeclaredVariableError("x".to_string())));
    let assign = node(NodeType::AssignNode("y".to_string()), vec![constant(1)]);
    assert_eq!(lower(&assign), Err(GenError::UndeclaredVariableError("y".to_string())));
    let sum = binary(TokType::Plus, constant(1), var("z"));
    assert_eq!(lower(&ret(sum)), Err(GenError::UndeclaredVariableError("z".to_string())));
}

#[test]
fn assignment_stores_to_the_slot() {
    let mut labels = LabelAllocator::new();
    let map = frame(&[("a", -8)]);
    let assign = node(NodeType::AssignNode("a".to_string()), vec![constant(7)]);
    assert_eq!(
        gen_stmt(&assign, &map, -8, &mut labels),
        Ok(indented(&["movq $7, %rax", "movq %rax, -8(%rbp)"]))
    );
}

#[test]
fn later_binding_replaces_earlier() {
    let mut map = FrameMap::new();
    map.insert("a".to_string(), -8);
    map.insert("b".to_string(), -16);
    map.insert("a".to_string(), -24);
    assert_eq!(map.get(&"a".to_string()), Some(-24));
    assert_eq!(map.get(&"b".to_string()), Some(-16));
    assert_eq!(map.get(&"c".to_string()), None);
    let copy = map.duplicate();
    assert_eq!(copy.get(&"a".to_string()), Some(-24));
}

#[test]
fn scope_set_counts_names_once() {
    let mut scope = ScopeSet::new();
    assert_eq!(scope.len(), 0);
    assert!(scope.insert("a".to_string()));
    assert!(scope.insert("b".to_string()));
    assert!(!scope.insert("a".to_string()));
    assert_eq!(scope.len(), 2);
    assert!(scope.contains(&"a".to_string()));
    assert!(!scope.contains(&"c".to_string()));
    assert_eq!(scope.duplicate().len(), 2);
}

#[test]
fn unary_operators() {
    assert_eq!(
        lower(&unary(TokType::Minus, constant(3))),
        Ok(indented(&["movq $3, %rax", "neg %rax"]))
    );
    assert_eq!(
        lower(&unary(TokType::Tilde, constant(3))),
        Ok(indented(&["movq $3, %rax", "not %rax"]))
    );
    assert_eq!(
        lower(&unary(TokType::Exclamation, constant(3))),
        Ok(indented(&["movq $3, %rax", "cmp  $0, %rax", "movq $0, %rax", "sete %al"]))
    );
}

#[test]
fn unsupported_operators_are_rejected() {
    assert_eq!(lower(&unary(TokType::Lt, constant(3))), Err(GenError::UnsupportedConstructError));
    assert_eq!(lower(&unary(TokType::Plus, constant(3))), Err(GenError::UnsupportedConstructError));
    assert_eq!(
        lower(&binary(TokType::Tilde, constant(1), constant(2))),
        Err(GenError::UnsupportedConstructError)
    );
    assert_eq!(
        lower(&binary(TokType::Assign, constant(1), constant(2))),
        Err(GenError::UnsupportedConstructError)
    );
    assert_eq!(
        lower(&node(NodeType::UnExp(TokType::Colon), vec![])),
        Err(GenError::UnsupportedConstructError)
    );
}

#[test]
fn addition_and_multiplication_lower_left_first() {
    assert_eq!(
        lower(&binary(TokType::Plus, constant(1), constant(2))),
        Ok(indented(&[
            "movq $1, %rax",
            "pushq %rax",
            "movq $2, %rax",
            "popq %rcx",
            "addq %rcx, %rax"
        ]))
    );
    assert_eq!(
        lower(&binary(TokType::Multi, constant(3), constant(4))),
        Ok(indented(&[
            "movq $3, %rax",
            "pushq %rax",
            "movq $4, %rax",
            "popq %rcx",
            "imul %rcx, %rax"
        ]))
    );
}

#[test]
fn subtraction_keeps_left_operand_in_result_register() {
    // return 10 - 3;
    assert_eq!(
        lower(&ret(binary(TokType::Minus, constant(10), constant(3)))),
        Ok(indented(&[
            "movq $3, %rax",
            "pushq %rax",
            "movq $10, %rax",
            "popq %rcx",
            "subq %rcx, %rax",
            "movq %rbp, %rsp",
            "popq\t%rbp",
            ".cfi_def_cfa 7, 8",
            "ret"
        ]))
    );
}

#[test]
fn division_keeps_left_operand_as_dividend() {
    // return 7 / 2;
    assert_eq!(
        lower(&ret(binary(TokType::Splash, constant(7), constant(2)))),
        Ok(indented(&[
            "movq $2, %rax",
            "pushq %rax",
            "movq $7, %rax",
            "popq %rcx",
            "xorq %rdx, %rdx",
            "idivq %rcx",
            "movq %rbp, %rsp",
            "popq\t%rbp",
            ".cfi_def_cfa 7, 8",
            "ret"
        ]))
    );
}

#[test]
fn comparisons_normalise_to_zero_or_one() {
    let cases = [
        (TokType::Equal, "sete %al"),
        (TokType::NotEqual, "setne %al"),
        (TokType::Lt, "setl %al"),
        (TokType::LessEqual, "setle %al"),
        (TokType::Gt, "setg %al"),
        (TokType::GreaterEqual, "setge %al"),
    ];
    for (op, set) in cases.iter() {
        assert_eq!(
            lower(&binary(*op, constant(1), constant(2))),
            Ok(indented(&[
                "movq $1, %rax",
                "pushq %rax",
                "movq $2, %rax",
                "popq %rcx",
                COMPARE,
                CLEAR,
                set
            ]))
        );
    }
}

#[test]
fn logical_and_skips_right_operand_when_left_is_zero() {
    // 0 && (1 / 0)
    let tree = binary(
        TokType::And,
        constant(0),
        binary(TokType::Splash, constant(1), constant(0)),
    );
    let mut expected = indented(&["movq $0, %rax", "cmpq $0, %rax", "jne .Lclause0", "jmp .Lend1"]);
    expected.push_str(".Lclause0:\n");
    expected.push_str(&indented(&[
        "movq $0, %rax",
        "pushq %rax",
        "movq $1, %rax",
        "popq %rcx",
        "xorq %rdx, %rdx",
        "idivq %rcx",
        "cmpq $0, %rax",
        "movq $0, %rax",
        "setne %al",
    ]));
    expected.push_str(".Lend1: # end of clause here\n");
    assert_eq!(lower(&tree), Ok(expected));
}

#[test]
fn logical_or_skips_right_operand_when_left_is_nonzero() {
    // 0 || 5
    let tree = binary(TokType::Or, constant(0), constant(5));
    let mut expected = indented(&[
        "movq $0, %rax",
        "cmpq $0, %rax",
        "je .LCLAUSE0",
        "movq $1, %rax",
        "jmp .LEND1",
    ]);
    expected.push_str(".LCLAUSE0:\n");
    expected.push_str(&indented(&["movq $5, %rax", "cmpq $0, %rax", "movq $0, %rax", "setne %al"]));
    expected.push_str(".LEND1: # end of clause here\n");
    assert_eq!(lower(&tree), Ok(expected));
}

#[test]
fn nested_short_circuit_takes_outer_labels_first() {
    // (1 || 2) && 3
    let tree = binary(TokType::And, binary(TokType::Or, constant(1), constant(2)), constant(3));
    let text = lower(&tree).unwrap();
    let clause = text.find(".Lclause0:").unwrap();
    let inner = text.find(".LCLAUSE2:").unwrap();
    let inner_end = text.find(".LEND3: # end of clause here").unwrap();
    let end = text.find(".Lend1: # end of clause here").unwrap();
    assert!(inner < inner_end && inner_end < clause && clause < end);
}

#[test]
fn ternary_takes_its_labels_after_its_operands() {
    // 1 ? 2 : 3
    let tree = node(NodeType::ConditionalExp, vec![constant(1), constant(2), constant(3)]);
    let mut expected = indented(&[
        "movq $1, %rax",
        "cmpq $0, %rax",
        "je .LE30",
        "movq $2, %rax",
        "jmp .LENDCOND1",
    ]);
    expected.push_str(".LE30:\n");
    expected.push_str(&indented(&["movq $3, %rax"]));
    expected.push_str(".LENDCOND1:\n");
    assert_eq!(lower(&tree), Ok(expected));
}

#[test]
fn ternary_with_one_child_is_that_child() {
    let tree = node(NodeType::ConditionalExp, vec![constant(9)]);
    assert_eq!(lower(&tree), Ok(indented(&["movq $9, %rax"])));
}

#[test]
fn if_without_else_jumps_to_an_empty_branch() {
    let tree = node(NodeType::Stmt(StmtType::Conditional), vec![constant(1), ret(constant(2))]);
    let mut expected = indented(&[
        "movq $1, %rax",
        "cmpq $0, %rax",
        "je .LS20",
        "movq $2, %rax",
        "movq %rbp, %rsp",
        "popq\t%rbp",
        ".cfi_def_cfa 7, 8",
        "ret",
        "jmp .LENDIF1",
    ]);
    expected.push_str(".LS20:\n.LENDIF1:\n");
    assert_eq!(lower(&tree), Ok(expected));
}

#[test]
fn if_with_else_lowers_both_branches() {
    let mut labels = LabelAllocator::new();
    let map = frame(&[("a", -8)]);
    let set = |n: i64| {
        node(
            NodeType::Stmt(StmtType::Exp),
            vec![node(NodeType::AssignNode("a".to_string()), vec![constant(n)])],
        )
    };
    let tree = node(NodeType::Stmt(StmtType::Conditional), vec![var("a"), set(1), set(2)]);
    let mut expected = indented(&[
        "movq -8(%rbp), %rax",
        "cmpq $0, %rax",
        "je .LS20",
        "movq $1, %rax",
        "movq %rax, -8(%rbp)",
        "jmp .LENDIF1",
    ]);
    expected.push_str(".LS20:\n");
    expected.push_str(&indented(&["movq $2, %rax", "movq %rax, -8(%rbp)"]));
    expected.push_str(".LENDIF1:\n");
    assert_eq!(gen_stmt(&tree, &map, -8, &mut labels), Ok(expected));
    assert_eq!(labels.allocate("x"), ".Lx2");
}

#[test]
fn pass_through_nodes_stand_for_their_child() {
    let kinds = [
        NodeType::Exp,
        NodeType::LogicalOrExp,
        NodeType::LogicalAndExp,
        NodeType::EqualityExp,
        NodeType::RelationalExp,
        NodeType::AdditiveExp,
        NodeType::Term,
        NodeType::Factor,
        NodeType::Block,
    ];
    for kind in kinds {
        assert_eq!(lower(&node(kind, vec![constant(4)])), Ok(indented(&["movq $4, %rax"])));
    }
    assert_eq!(lower(&node(NodeType::Term, vec![])), Err(GenError::UnsupportedConstructError));
    assert_eq!(
        lower(&node(NodeType::Factor, vec![constant(1), constant(2)])),
        Err(GenError::UnsupportedConstructError)
    );
}

#[test]
fn nodes_without_a_lowering_are_rejected() {
    assert_eq!(lower(&declare("x", None)), Err(GenError::UnsupportedConstructError));
    assert_eq!(lower(&function("f", vec![])), Err(GenError::UnsupportedConstructError));
    assert_eq!(lower(&program("p", vec![])), Err(GenError::UnsupportedConstructError));
}

#[test]
fn wrong_child_counts_are_structural_errors() {
    let no_child = |entry: NodeType| node(entry, vec![]);
    assert_eq!(lower(&no_child(NodeType::Stmt(StmtType::Return))), Err(GenError::StructuralError));
    assert_eq!(lower(&no_child(NodeType::Stmt(StmtType::Exp))), Err(GenError::StructuralError));
    assert_eq!(lower(&no_child(NodeType::ConditionalExp)), Err(GenError::StructuralError));
    assert_eq!(
        lower(&node(NodeType::ConditionalExp, vec![constant(1), constant(2)])),
        Err(GenError::StructuralError)
    );
    assert_eq!(
        lower(&node(NodeType::Stmt(StmtType::Conditional), vec![constant(1)])),
        Err(GenError::StructuralError)
    );
    assert_eq!(
        lower(&node(NodeType::BinExp(TokType::Plus), vec![constant(1)])),
        Err(GenError::StructuralError)
    );
    assert_eq!(
        lower(&node(NodeType::BinExp(TokType::Or), vec![constant(1)])),
        Err(GenError::StructuralError)
    );
    assert_eq!(lower(&no_child(NodeType::UnExp(TokType::Minus))), Err(GenError::StructuralError));
    assert_eq!(lower(&node(NodeType::Const(1), vec![constant(2)])), Err(GenError::StructuralError));
    let mut labels = LabelAllocator::new();
    let map = frame(&[("a", -8)]);
    assert_eq!(
        gen_stmt(&no_child(NodeType::AssignNode("a".to_string())), &map, -8, &mut labels),
        Err(GenError::StructuralError)
    );
    assert_eq!(
        gen_stmt(&node(NodeType::Var("a".to_string()), vec![constant(1)]), &map, -8, &mut labels),
        Err(GenError::StructuralError)
    );
}

#[test]
fn declaration_without_initialiser_pushes_zero() {
    let mut labels = LabelAllocator::new();
    let (map, scope, idx, text) =
        gen_declare(&declare("x", None), &FrameMap::new(), &ScopeSet::new(), 0, &mut labels)
            .unwrap();
    assert_eq!(text, indented(&["movq $0, %rax", "pushq %rax"]));
    assert_eq!(idx, -8);
    assert_eq!(map.get(&"x".to_string()), Some(-8));
    assert!(scope.contains(&"x".to_string()));
    assert_eq!(scope.len(), 1);
}

#[test]
fn successive_declarations_go_down_by_eight() {
    let mut labels = LabelAllocator::new();
    let mut map = FrameMap::new();
    let mut scope = ScopeSet::new();
    let mut idx: isize = 0;
    for (k, name) in ["a", "b", "c", "d"].iter().enumerate() {
        let (m, s, i, text) =
            gen_declare(&declare(name, Some(constant(k as i64))), &map, &scope, idx, &mut labels)
                .unwrap();
        assert_eq!(i, idx - 8);
        assert_eq!(i, -8 * (k as isize + 1));
        assert_eq!(m.get(&name.to_string()), Some(i));
        assert_eq!(text, indented(&[&format!("movq ${}, %rax", k), "pushq %rax"]));
        map = m;
        scope = s;
        idx = i;
    }
    assert_eq!(scope.len(), 4);
    assert_eq!(map.get(&"a".to_string()), Some(-8));
    assert_eq!(map.get(&"d".to_string()), Some(-32));
}

#[test]
fn initialiser_sees_the_new_slot() {
    let mut labels = LabelAllocator::new();
    let (_, _, idx, text) = gen_declare(
        &declare("x", Some(var("x"))),
        &frame(&[("x", -8)]),
        &ScopeSet::new(),
        -8,
        &mut labels,
    )
    .unwrap();
    assert_eq!(idx, -16);
    assert_eq!(text, indented(&["movq -16(%rbp), %rax", "pushq %rax"]));
}

#[test]
fn gen_declare_rejects_other_nodes_and_extra_children() {
    let mut labels = LabelAllocator::new();
    assert!(matches!(
        gen_declare(&constant(1), &FrameMap::new(), &ScopeSet::new(), 0, &mut labels),
        Err(GenError::UnsupportedConstructError)
    ));
    let two = node(NodeType::Declare("x".to_string()), vec![constant(1), constant(2)]);
    assert!(matches!(
        gen_declare(&two, &FrameMap::new(), &ScopeSet::new(), 0, &mut labels),
        Err(GenError::StructuralError)
    ));
}

#[test]
fn redeclaration_in_one_block_is_rejected() {
    // { int x; int x; }
    let mut labels = LabelAllocator::new();
    let block = compound(vec![declare("x", None), declare("x", None)]);
    assert_eq!(
        gen_block(&block, &FrameMap::new(), 0, &mut labels),
        Err(GenError::RedeclarationError("x".to_string()))
    );
    let mut scope = ScopeSet::new();
    scope.insert("x".to_string());
    assert!(matches!(
        gen_declare(&declare("x", None), &FrameMap::new(), &scope, -8, &mut labels),
        Err(GenError::RedeclarationError(name)) if name == "x"
    ));
}

#[test]
fn shadowing_in_a_nested_block_is_accepted() {
    // { int x; { int x; x = 1; } x = 2; }
    let mut labels = LabelAllocator::new();
    let assign = |n: i64| {
        node(
            NodeType::Stmt(StmtType::Exp),
            vec![node(NodeType::AssignNode("x".to_string()), vec![constant(n)])],
        )
    };
    let block = compound(vec![
        declare("x", None),
        compound(vec![declare("x", None), assign(1)]),
        assign(2),
    ]);
    assert_eq!(
        gen_block(&block, &FrameMap::new(), 0, &mut labels),
        Ok(indented(&[
            "movq $0, %rax",
            "pushq %rax",
            "movq $0, %rax",
            "pushq %rax",
            "movq $1, %rax",
            "movq %rax, -16(%rbp)",
            "addq $8, %rsp",
            "movq $2, %rax",
            "movq %rax, -8(%rbp)",
            "addq $8, %rsp"
        ]))
    );
}

#[test]
fn block_releases_only_its_own_slots() {
    let mut labels = LabelAllocator::new();
    let outer = frame(&[("a", -8), ("b", -16), ("c", -24)]);
    let block = compound(vec![declare("p", Some(var("a"))), declare("q", Some(var("p")))]);
    assert_eq!(
        gen_block(&block, &outer, -24, &mut labels),
        Ok(indented(&[
            "movq -8(%rbp), %rax",
            "pushq %rax",
            "movq -32(%rbp), %rax",
            "pushq %rax",
            "addq $16, %rsp"
        ]))
    );
    assert_eq!(
        gen_block(&compound(vec![]), &outer, -24, &mut labels),
        Ok(indented(&["addq $0, %rsp"]))
    );
    assert_eq!(
        gen_stmt(&compound(vec![declare("z", None)]), &outer, -24, &mut labels),
        Ok(indented(&["movq $0, %rax", "pushq %rax", "addq $8, %rsp"]))
    );
}

#[test]
fn prologue_and_epilogue_texts() {
    let mut labels = LabelAllocator::new();
    assert_eq!(gen_fn_prologue("main".to_string(), &mut labels), main_prologue());
    assert_eq!(labels.allocate("FE"), ".LFE1");
    assert_eq!(gen_fn_epilogue(), epilogue());
}

#[test]
fn return_analysis() {
    assert!(returns_on_every_path(&ret(constant(1))));
    assert!(!returns_on_every_path(&function("f", vec![])));
    assert!(returns_on_every_path(&function("f", vec![declare("x", None), ret(var("x"))])));
    let branch = |e: Option<ParseNode>| {
        let mut child = vec![constant(1), ret(constant(2))];
        child.extend(e);
        node(NodeType::Stmt(StmtType::Conditional), child)
    };
    assert!(!returns_on_every_path(&branch(None)));
    assert!(returns_on_every_path(&branch(Some(ret(constant(3))))));
    assert!(!returns_on_every_path(&branch(Some(compound(vec![])))));
    assert!(returns_on_every_path(&branch(Some(compound(vec![ret(constant(3))])))));
    assert!(!returns_on_every_path(&constant(1)));
}

#[test]
fn empty_function_returns_zero() {
    // int main() { }
    let mut labels = LabelAllocator::new();
    let mut expected = main_prologue();
    expected.push_str(&indented(&["addq $0, %rsp", "movq $0, %rax"]));
    expected.push_str(&epilogue());
    expected.push_str(&indented(&["ret"]));
    expected.push_str(&main_closing(".LFE1"));
    assert_eq!(gen_fn(&function("main", vec![]), &mut labels), Ok(expected));
}

#[test]
fn function_with_if_without_else_returns_zero_at_its_end() {
    // int main() { if (1) return 2; }
    let mut labels = LabelAllocator::new();
    let body =
        vec![node(NodeType::Stmt(StmtType::Conditional), vec![constant(1), ret(constant(2))])];
    let text = gen_fn(&function("main", body), &mut labels).unwrap();
    let mut tail = String::from(".LS21:\n.LENDIF2:\n");
    tail.push_str(&indented(&["addq $0, %rsp", "movq $0, %rax"]));
    tail.push_str(&epilogue());
    tail.push_str(&indented(&["ret"]));
    tail.push_str(&main_closing(".LFE3"));
    assert!(text.ends_with(&tail), "{}", text);
}

#[test]
fn function_that_always_returns_has_no_fallback() {
    // int main() { return 3; }
    let mut labels = LabelAllocator::new();
    let mut expected = main_prologue();
    expected.push_str(&indented(&["movq $3, %rax"]));
    expected.push_str(&epilogue());
    expected.push_str(&indented(&["ret", "addq $0, %rsp"]));
    expected.push_str(&main_closing(".LFE1"));
    assert_eq!(gen_fn(&function("main", vec![ret(constant(3))]), &mut labels), Ok(expected));
}

#[test]
fn gen_fn_rejects_other_nodes() {
    let mut labels = LabelAllocator::new();
    assert_eq!(gen_fn(&constant(1), &mut labels), Err(GenError::UnsupportedConstructError));
}

#[test]
fn program_with_declarations_arithmetic_and_comparison() {
    // int main() { int a = 5; int b = a + 3 * 2; return b > 10; }
    let mut labels = LabelAllocator::new();
    let body = vec![
        declare("a", Some(constant(5))),
        declare(
            "b",
            Some(binary(
                TokType::Plus,
                var("a"),
                binary(TokType::Multi, constant(3), constant(2)),
            )),
        ),
        ret(binary(TokType::Gt, var("b"), constant(10))),
    ];
    let tree = program("a.c", vec![function("main", body)]);
    let mut f = main_prologue();
    f.push_str(&indented(&[
        "movq $5, %rax",
        "pushq %rax",
        "movq -8(%rbp), %rax",
        "pushq %rax",
        "movq $3, %rax",
        "pushq %rax",
        "movq $2, %rax",
        "popq %rcx",
        "imul %rcx, %rax",
        "popq %rcx",
        "addq %rcx, %rax",
        "pushq %rax",
        "movq -16(%rbp), %rax",
        "pushq %rax",
        "movq $10, %rax",
        "popq %rcx",
        COMPARE,
        CLEAR,
        "setg %al",
    ]));
    f.push_str(&epilogue());
    f.push_str(&indented(&["ret", "addq $16, %rsp"]));
    f.push_str(&main_closing(".LFE1"));
    assert_eq!(gen_prog(&tree, &mut labels), Ok(whole("a.c", &f)));
}

#[test]
fn program_returning_a_ternary() {
    // int main() { return 1 ? 2 : 3; }
    let mut labels = LabelAllocator::new();
    let tree = program(
        "t.c",
        vec![function(
            "main",
            vec![ret(node(
                NodeType::Exp,
                vec![node(NodeType::ConditionalExp, vec![constant(1), constant(2), constant(3)])],
            ))],
        )],
    );
    let mut f = main_prologue();
    f.push_str(&indented(&[
        "movq $1, %rax",
        "cmpq $0, %rax",
        "je .LE31",
        "movq $2, %rax",
        "jmp .LENDCOND2",
    ]));
    f.push_str(".LE31:\n");
    f.push_str(&indented(&["movq $3, %rax"]));
    f.push_str(".LENDCOND2:\n");
    f.push_str(&epilogue());
    f.push_str(&indented(&["ret", "addq $0, %rsp"]));
    f.push_str(&main_closing(".LFE3"));
    assert_eq!(gen_prog(&tree, &mut labels), Ok(whole("t.c", &f)));
}

#[test]
fn program_returning_a_logical_or() {
    // int main() { return 0 || 5; }
    let mut labels = LabelAllocator::new();
    let tree = program(
        "o.c",
        vec![function("main", vec![ret(binary(TokType::Or, constant(0), constant(5)))])],
    );
    let mut f = main_prologue();
    f.push_str(&indented(&[
        "movq $0, %rax",
        "cmpq $0, %rax",
        "je .LCLAUSE1",
        "movq $1, %rax",
        "jmp .LEND2",
    ]));
    f.push_str(".LCLAUSE1:\n");
    f.push_str(&indented(&["movq $5, %rax", "cmpq $0, %rax", "movq $0, %rax", "setne %al"]));
    f.push_str(".LEND2: # end of clause here\n");
    f.push_str(&epilogue());
    f.push_str(&indented(&["ret", "addq $0, %rsp"]));
    f.push_str(&main_closing(".LFE3"));
    assert_eq!(gen_prog(&tree, &mut labels), Ok(whole("o.c", &f)));
}

#[test]
fn program_with_two_functions_shares_the_label_counter() {
    let mut labels = LabelAllocator::new();
    let tree = program(
        "two.c",
        vec![function("f", vec![ret(constant(1))]), function("main", vec![ret(constant(2))])],
    );
    let text = gen_prog(&tree, &mut labels).unwrap();
    for l in [".LFB0:\n", ".LFE1:\n", ".LFB2:\n", ".LFE3:\n"] {
        assert_eq!(text.matches(l).count(), 1, "{}", l);
    }
    assert!(text.find("f:\n").unwrap() < text.find("main:\n").unwrap());
    assert_eq!(labels.allocate("x"), ".Lx4");
}

#[test]
fn program_rejects_what_is_not_a_function_or_a_program() {
    let mut labels = LabelAllocator::new();
    assert_eq!(
        gen_prog(&program("p.c", vec![ret(constant(1))]), &mut labels),
        Err(GenError::UnsupportedConstructError)
    );
    assert_eq!(
        gen_prog(&function("main", vec![]), &mut labels),
        Err(GenError::UnsupportedConstructError)
    );
    assert_eq!(gen_prog(&program("p.c", vec![]), &mut labels), Ok(whole("p.c", "")));
}

#[test]
fn failure_messages_name_the_variable() {
    assert_eq!(
        GenError::RedeclarationError("x".to_string()).message(),
        "redeclaration of variable `x` in the same scope"
    );
    assert_eq!(
        GenError::UndeclaredVariableError("total".to_string()).message(),
        "use of undeclared variable `total`"
    );
    assert_eq!(GenError::UnsupportedConstructError.message(), "construct without a lowering");
    assert_eq!(GenError::StructuralError.message(), "node with a wrong number of children");
}

#[test]
fn ordinary_trees_fit_the_machine() {
    let labels = LabelAllocator::new();
    let tree = program(
        "a.c",
        vec![function(
            "main",
            vec![
                declare("a", Some(constant(5))),
                ret(binary(TokType::Or, var("a"), constant(0))),
            ],
        )],
    );
    assert!(lowering_fits(&tree, 0, &labels));
    assert!(lowering_fits(&tree, isize::MIN + 8, &labels));
    assert!(!lowering_fits(&tree, isize::MIN + 7, &labels));
    assert!(lowering_fits(&constant(1), isize::MIN, &labels));
    assert!(!lowering_fits(&declare("x", None), isize::MIN, &labels));
}

#[test]
fn label_counter_advances_by_the_labels_taken() {
    let mut labels = LabelAllocator::new();
    let tree = binary(
        TokType::And,
        node(NodeType::ConditionalExp, vec![constant(1), constant(2), constant(3)]),
        binary(TokType::Or, constant(0), constant(1)),
    );
    let text = gen_stmt(&tree, &FrameMap::new(), 0, &mut labels).unwrap();
    assert_eq!(labels.remaining(), u64::MAX - 6);
    for l in [".Lclause0:", ".Lend1:", ".LE32:", ".LENDCOND3:", ".LCLAUSE4:", ".LEND5:"] {
        assert_eq!(text.matches(l).count(), 1, "{}", l);
    }
}

#[test]
fn failed_lowering_gives_no_text() {
    let mut labels = LabelAllocator::new();
    let body = vec![
        declare("a", Some(constant(5))),
        ret(binary(TokType::Plus, var("a"), var("b"))),
    ];
    let tree = program("a.c", vec![function("main", body)]);
    assert_eq!(
        gen_prog(&tree, &mut labels),
        Err(GenError::UndeclaredVariableError("b".to_string()))
    );
}
