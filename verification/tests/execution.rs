//! Runs emitted programs on a small interpreter of the emitted assembly and
//! looks at what `main` returns.

use crust::{gen_prog, GenError, LabelAllocator, NodeType, ParseNode, StmtType, TokType};
use std::collections::HashMap;

fn node(entry: NodeType, child: Vec<ParseNode>) -> ParseNode {
    ParseNode { entry, child }
}

fn constant(n: i64) -> ParseNode {
    node(NodeType::Const(n), vec![])
}

fn var(name: &str) -> ParseNode {
    node(NodeType::Var(name.to_string()), vec![])
}

fn binary(op: TokType, l: ParseNode, r: ParseNode) -> ParseNode {
    node(NodeType::BinExp(op), vec![l, r])
}

fn unary(op: TokType, e: ParseNode) -> ParseNode {
    node(NodeType::UnExp(op), vec![e])
}

fn ternary(c: ParseNode, t: ParseNode, f: ParseNode) -> ParseNode {
    node(NodeType::ConditionalExp, vec![c, t, f])
}

fn ret(e: ParseNode) -> ParseNode {
    node(NodeType::Stmt(StmtType::Return), vec![e])
}

fn assign(name: &str, e: ParseNode) -> ParseNode {
    node(
        NodeType::Stmt(StmtType::Exp),
        vec![node(NodeType::Exp, vec![node(NodeType::AssignNode(name.to_string()), vec![e])])],
    )
}

fn declare(name: &str, init: Option<ParseNode>) -> ParseNode {
    node(NodeType::Declare(name.to_string()), init.into_iter().collect())
}

fn compound(items: Vec<ParseNode>) -> ParseNode {
    node(NodeType::Stmt(StmtType::Compound), items)
}

fn when(c: ParseNode, then: ParseNode, otherwise: Option<ParseNode>) -> ParseNode {
    let mut child = vec![c, then];
    child.extend(otherwise);
    node(NodeType::Stmt(StmtType::Conditional), child)
}

fn main_with(items: Vec<ParseNode>) -> ParseNode {
    node(NodeType::Prog("t.c".to_string()), vec![node(NodeType::Fn("main".to_string()), items)])
}

/// The machine's registers, flags and stack memory.
struct Cpu {
    rax: i64,
    rcx: i64,
    rdx: i64,
    rbp: i64,
    rsp: i64,
    compared: Option<(i64, i64)>,
    memory: HashMap<i64, i64>,
}

const RETURN_TO_CALLER: i64 = -1;

impl Cpu {
    fn push(&mut self, v: i64) {
        self.rsp -= 8;
        self.memory.insert(self.rsp, v);
    }

    fn pop(&mut self) -> Result<i64, String> {
        let v = *self.memory.get(&self.rsp).ok_or("pop from unwritten memory")?;
        self.rsp += 8;
        Ok(v)
    }

    fn register(&mut self, name: &str) -> Result<&mut i64, String> {
        match name {
            "%rax" => Ok(&mut self.rax),
            "%rcx" => Ok(&mut self.rcx),
            "%rdx" => Ok(&mut self.rdx),
            "%rbp" => Ok(&mut self.rbp),
            "%rsp" => Ok(&mut self.rsp),
            _ => Err(format!("register {}", name)),
        }
    }

    fn slot(&self, operand: &str) -> Option<i64> {
        let offset = operand.strip_suffix("(%rbp)")?;
        Some(self.rbp + offset.parse::<i64>().ok()?)
    }

    fn read(&mut self, operand: &str) -> Result<i64, String> {
        if let Some(n) = operand.strip_prefix('$') {
            return n.parse::<i64>().map_err(|e| e.to_string());
        }
        if let Some(address) = self.slot(operand) {
            return self.memory.get(&address).copied().ok_or(format!("read of {}", operand));
        }
        Ok(*self.register(operand)?)
    }

    fn write(&mut self, operand: &str, v: i64) -> Result<(), String> {
        if let Some(address) = self.slot(operand) {
            if address < self.rsp {
                return Err(format!("write below the stack top at {}", operand));
            }
            self.memory.insert(address, v);
            return Ok(());
        }
        *self.register(operand)? = v;
        Ok(())
    }

    fn condition(&self, cc: &str) -> Result<bool, String> {
        let (a, b) = self.compared.ok_or("flags are not from a comparison")?;
        Ok(match cc {
            "e" => a == b,
            "ne" => a != b,
            "l" => a < b,
            "le" => a <= b,
            "g" => a > b,
            "ge" => a >= b,
            _ => return Err(format!("condition {}", cc)),
        })
    }
}

/// Runs the function `main` of an assembly text and gives what it returns.
fn run_main(text: &str) -> Result<i64, String> {
    let lines: Vec<&str> =
        text.lines().map(|l| l.split('#').next().unwrap().trim()).filter(|l| !l.is_empty()).collect();
    let mut labels: HashMap<&str, usize> = HashMap::new();
    for (i, l) in lines.iter().enumerate() {
        if let Some(name) = l.strip_suffix(':') {
            if labels.insert(name, i).is_some() {
                return Err(format!("label {} defined twice", name));
            }
        }
    }
    let mut cpu = Cpu {
        rax: 0x5a5a,
        rcx: 0x5b5b,
        rdx: 0x5c5c,
        rbp: 0x7000,
        rsp: 0x10000,
        compared: None,
        memory: HashMap::new(),
    };
    cpu.push(RETURN_TO_CALLER);
    let mut pc = *labels.get("main").ok_or("no main")?;
    for _ in 0..100_000 {
        let line = *lines.get(pc).ok_or("ran past the last line")?;
        pc += 1;
        if line.ends_with(':') || line.starts_with('.') {
            continue;
        }
        let (mnemonic, rest) = match line.find(|c: char| c.is_whitespace()) {
            Some(i) => (&line[..i], line[i..].trim()),
            None => (line, ""),
        };
        let operands: Vec<&str> = rest.split(',').map(|o| o.trim()).filter(|o| !o.is_empty()).collect();
        match (mnemonic, operands.as_slice()) {
            ("movq", [src, dst]) => {
                let v = cpu.read(src)?;
                cpu.write(dst, v)?;
            }
            ("pushq", [src]) => {
                let v = cpu.read(src)?;
                cpu.push(v);
            }
            ("popq", [dst]) => {
                let v = cpu.pop()?;
                cpu.write(dst, v)?;
            }
            ("ret", []) => {
                let to = cpu.pop()?;
                if to != RETURN_TO_CALLER {
                    return Err("return to a wrong address".to_string());
                }
                if cpu.rsp != 0x10000 || cpu.rbp != 0x7000 {
                    return Err("caller's stack or frame base not restored".to_string());
                }
                return Ok(cpu.rax);
            }
            ("neg", ["%rax"]) => {
                cpu.rax = cpu.rax.wrapping_neg();
                cpu.compared = None;
            }
            ("not", ["%rax"]) => cpu.rax = !cpu.rax,
            ("addq", [src, dst]) => {
                let v = cpu.read(dst)?.wrapping_add(cpu.read(src)?);
                cpu.write(dst, v)?;
                cpu.compared = None;
            }
            ("subq", [src, dst]) => {
                let v = cpu.read(dst)?.wrapping_sub(cpu.read(src)?);
                cpu.write(dst, v)?;
                cpu.compared = None;
            }
            ("imul", [src, dst]) => {
                let v = cpu.read(dst)?.wrapping_mul(cpu.read(src)?);
                cpu.write(dst, v)?;
                cpu.compared = None;
            }
            ("xorq", [a, b]) if a == b => {
                cpu.write(a, 0)?;
                cpu.compared = None;
            }
            ("idivq", [src]) => {
                let divisor = cpu.read(src)? as i128;
                if divisor == 0 {
                    return Err("division by zero".to_string());
                }
                let dividend = ((cpu.rdx as i128) << 64) | (cpu.rax as u64 as i128);
                let q = dividend / divisor;
                if q < i64::MIN as i128 || q > i64::MAX as i128 {
                    return Err("quotient out of range".to_string());
                }
                cpu.rax = q as i64;
                cpu.rdx = (dividend % divisor) as i64;
                cpu.compared = None;
            }
            ("cmpq", [src, dst]) | ("cmp", [src, dst]) => {
                cpu.compared = Some((cpu.read(dst)?, cpu.read(src)?));
            }
            ("jmp", [label]) => pc = *labels.get(label).ok_or(format!("no label {}", label))?,
            ("je", [label]) | ("jne", [label]) => {
                if cpu.condition(&mnemonic[1..])? {
                    pc = *labels.get(label).ok_or(format!("no label {}", label))?;
                }
            }
            (set, ["%al"]) if set.starts_with("set") => {
                let bit = cpu.condition(&set[3..])? as i64;
                cpu.rax = (cpu.rax & !0xff) | bit;
            }
            _ => return Err(format!("unknown line `{}`", line)),
        }
    }
    Err("did not return".to_string())
}

fn compile(tree: &ParseNode) -> Result<String, GenError> {
    let mut labels = LabelAllocator::new();
    gen_prog(tree, &mut labels)
}

fn returned(items: Vec<ParseNode>) -> Result<i64, String> {
    run_main(&compile(&main_with(items)).map_err(|e| e.message())?)
}

fn value_of(e: ParseNode) -> Result<i64, String> {
    returned(vec![ret(e)])
}

#[test]
fn scenario_declarations_arithmetic_comparison() {
    // int main() { int a = 5; int b = a + 3 * 2; return b > 10; }
    let body = vec![
        declare("a", Some(constant(5))),
        declare(
            "b",
            Some(binary(
                TokType::Plus,
                var("a"),
                binary(TokType::Multi, constant(3), constant(2)),
            )),
        ),
        ret(binary(TokType::Gt, var("b"), constant(10))),
    ];
    assert_eq!(returned(body), Ok(1));
}

#[test]
fn scenario_ternary() {
    // int main() { return 1 ? 2 : 3; }
    assert_eq!(value_of(ternary(constant(1), constant(2), constant(3))), Ok(2));
    assert_eq!(value_of(ternary(constant(0), constant(2), constant(3))), Ok(3));
}

#[test]
fn scenario_logical_or_is_normalised() {
    // int main() { return 0 || 5; }
    assert_eq!(value_of(binary(TokType::Or, constant(0), constant(5))), Ok(1));
}

#[test]
fn subtraction_and_division_take_operands_in_source_order() {
    assert_eq!(value_of(binary(TokType::Minus, constant(10), constant(3))), Ok(7));
    assert_eq!(value_of(binary(TokType::Minus, constant(3), constant(10))), Ok(-7));
    assert_eq!(value_of(binary(TokType::Splash, constant(7), constant(2))), Ok(3));
    assert_eq!(value_of(binary(TokType::Splash, constant(2), constant(7))), Ok(0));
    assert_eq!(value_of(binary(TokType::Splash, constant(100), constant(-7))), Ok(-14));
    assert_eq!(
        value_of(binary(
            TokType::Minus,
            binary(TokType::Minus, constant(20), constant(5)),
            binary(TokType::Splash, constant(9), constant(3)),
        )),
        Ok(12)
    );
}

#[test]
fn division_by_zero_traps_when_it_is_run() {
    assert_eq!(
        value_of(binary(TokType::Splash, constant(1), constant(0))),
        Err("division by zero".to_string())
    );
}

#[test]
fn short_circuit_does_not_run_the_right_operand() {
    let trap = || binary(TokType::Splash, constant(1), constant(0));
    assert_eq!(value_of(binary(TokType::And, constant(0), trap())), Ok(0));
    assert_eq!(value_of(binary(TokType::Or, constant(7), trap())), Ok(1));
    assert_eq!(
        value_of(binary(TokType::And, constant(1), trap())),
        Err("division by zero".to_string())
    );
    assert_eq!(
        value_of(binary(TokType::Or, constant(0), trap())),
        Err("division by zero".to_string())
    );
    // the right operand's assignment is skipped too
    let body = vec![
        declare("a", Some(constant(4))),
        assign(
            "a",
            binary(
                TokType::Plus,
                var("a"),
                binary(
                    TokType::And,
                    constant(0),
                    node(NodeType::AssignNode("a".to_string()), vec![constant(100)]),
                ),
            ),
        ),
        ret(var("a")),
    ];
    assert_eq!(returned(body), Ok(4));
}

#[test]
fn comparisons_and_logical_operators_give_zero_or_one() {
    let ops = [
        TokType::Equal,
        TokType::NotEqual,
        TokType::Lt,
        TokType::LessEqual,
        TokType::Gt,
        TokType::GreaterEqual,
        TokType::And,
        TokType::Or,
    ];
    let values = [-7i64, 0, 1, 2, 300, i64::MAX, i64::MIN];
    for op in ops {
        for a in values {
            for b in values {
                let expected = match op {
                    TokType::Equal => a == b,
                    TokType::NotEqual => a != b,
                    TokType::Lt => a < b,
                    TokType::LessEqual => a <= b,
                    TokType::Gt => a > b,
                    TokType::GreaterEqual => a >= b,
                    TokType::And => a != 0 && b != 0,
                    _ => a != 0 || b != 0,
                };
                assert_eq!(
                    value_of(binary(op, constant(a), constant(b))),
                    Ok(expected as i64),
                    "{:?} {} {}",
                    op,
                    a,
                    b
                );
            }
        }
    }
    for a in values {
        assert_eq!(value_of(unary(TokType::Exclamation, constant(a))), Ok((a == 0) as i64));
    }
}

#[test]
fn unary_and_arithmetic_values() {
    assert_eq!(value_of(unary(TokType::Minus, constant(5))), Ok(-5));
    assert_eq!(value_of(unary(TokType::Tilde, constant(5))), Ok(-6));
    assert_eq!(value_of(unary(TokType::Minus, constant(i64::MIN))), Ok(i64::MIN));
    assert_eq!(value_of(binary(TokType::Plus, constant(i64::MAX), constant(1))), Ok(i64::MIN));
    assert_eq!(value_of(binary(TokType::Multi, constant(-6), constant(7))), Ok(-42));
}

#[test]
fn function_without_return_gives_zero() {
    assert_eq!(returned(vec![]), Ok(0));
    assert_eq!(returned(vec![declare("a", Some(constant(9)))]), Ok(0));
    // int main() { if (0) return 2; }
    assert_eq!(returned(vec![when(constant(0), ret(constant(2)), None)]), Ok(0));
    // int main() { if (1) return 2; }
    assert_eq!(returned(vec![when(constant(1), ret(constant(2)), None)]), Ok(2));
}

#[test]
fn if_else_takes_one_branch() {
    let body = |c: i64| {
        vec![
            declare("a", None),
            when(constant(c), assign("a", constant(10)), Some(assign("a", constant(20)))),
            ret(var("a")),
        ]
    };
    assert_eq!(returned(body(1)), Ok(10));
    assert_eq!(returned(body(0)), Ok(20));
    let both = |c: i64| vec![when(constant(c), ret(constant(1)), Some(ret(constant(2))))];
    assert_eq!(returned(both(5)), Ok(1));
    assert_eq!(returned(both(0)), Ok(2));
}

#[test]
fn nested_block_shadows_and_releases_its_slots() {
    // int main() { int x = 1; int y = 2; { int x = 10; y = y + x; } int z = 5; return x + y + z; }
    let body = vec![
        declare("x", Some(constant(1))),
        declare("y", Some(constant(2))),
        compound(vec![
            declare("x", Some(constant(10))),
            assign("y", binary(TokType::Plus, var("y"), var("x"))),
        ]),
        declare("z", Some(constant(5))),
        ret(binary(TokType::Plus, binary(TokType::Plus, var("x"), var("y")), var("z"))),
    ];
    assert_eq!(returned(body), Ok(18));
}

#[test]
fn return_inside_nested_blocks_restores_the_caller() {
    let body = vec![
        declare("a", Some(constant(3))),
        compound(vec![
            declare("b", Some(constant(4))),
            compound(vec![
                declare("c", Some(constant(5))),
                ret(binary(TokType::Multi, var("a"), binary(TokType::Plus, var("b"), var("c")))),
            ]),
        ]),
    ];
    assert_eq!(returned(body), Ok(27));
}

#[test]
fn uninitialised_variable_is_zero() {
    assert_eq!(returned(vec![declare("a", None), ret(var("a"))]), Ok(0));
}

#[test]
fn every_label_of_a_program_is_defined_once() {
    let choice = |n: i64| {
        when(
            binary(TokType::Or, var("a"), constant(n)),
            assign("a", ternary(var("a"), constant(n), constant(0))),
            Some(assign("a", binary(TokType::And, var("a"), constant(n)))),
        )
    };
    let mut body = vec![declare("a", None)];
    for n in 0..40 {
        body.push(choice(n));
    }
    body.push(ret(var("a")));
    let text = compile(&main_with(body)).unwrap();
    let mut seen = std::collections::HashSet::new();
    let mut count = 0;
    for l in text.lines() {
        if l.starts_with(".L") {
            let name = l.split(':').next().unwrap();
            assert!(seen.insert(name.to_string()), "{} twice", name);
            count += 1;
        }
    }
    assert_eq!(count, 2 + 40 * 8);
    assert_eq!(run_main(&text), Ok(0));
}
