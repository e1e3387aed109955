//! Runs the emitted instruction streams on a small model of the target
//! machine and its runtime support library, and checks the values the
//! compiled expressions produce.

use std::collections::HashMap;

use compiler_lib::{CompileError, Compiler, Expr, Instr, LetExpr, Node, Reg, RuntimeFn};

/// A machine word: a raw integer (also used for truth values and
/// argument counts) or a pointer to a boxed runtime value.
#[derive(Clone, Copy, PartialEq, Debug)]
enum Word {
    Int(i64),
    Ptr(usize),
}

/// A boxed value managed by the runtime support library.
#[derive(Clone, Debug)]
enum Boxed {
    Int(i64),
    Float(f64),
    Cons(Word, Word),
    Empty,
}

struct Machine {
    regs: HashMap<Reg, Word>,
    xmm0: f64,
    stack: Vec<Word>,
    heap: Vec<Boxed>,
    flag_eq: bool,
}

impl Machine {
    fn new() -> Machine {
        Machine { regs: HashMap::new(), xmm0: 0.0, stack: Vec::new(), heap: Vec::new(), flag_eq: false }
    }

    fn get(&self, r: Reg) -> Word {
        *self.regs.get(&r).expect("read of a register never written")
    }

    fn set(&mut self, r: Reg, w: Word) {
        self.regs.insert(r, w);
    }

    fn alloc_box(&mut self, b: Boxed) -> Word {
        self.heap.push(b);
        Word::Ptr(self.heap.len() - 1)
    }

    fn unbox(&self, w: Word) -> Boxed {
        match w {
            Word::Ptr(p) => self.heap[p].clone(),
            Word::Int(_) => panic!("expected a boxed value"),
        }
    }

    fn numeric(&self, w: Word) -> f64 {
        match self.unbox(w) {
            Boxed::Int(i) => i as f64,
            Boxed::Float(f) => f,
            _ => panic!("expected a numeric value"),
        }
    }

    fn both_ints(&self, a: Word, b: Word) -> Option<(i64, i64)> {
        match (self.unbox(a), self.unbox(b)) {
            (Boxed::Int(x), Boxed::Int(y)) => Some((x, y)),
            _ => None,
        }
    }

    fn append(&mut self, a: Word, b: Word) -> Word {
        match self.unbox(a) {
            Boxed::Empty => b,
            Boxed::Cons(h, t) => {
                let rest = self.append(t, b);
                self.alloc_box(Boxed::Cons(h, rest))
            },
            _ => panic!("append of a non-list"),
        }
    }

    fn runtime(&mut self, f: RuntimeFn) {
        let out = match f {
            RuntimeFn::NewInt => {
                let v = match self.get(Reg::Rdi) {
                    Word::Int(i) => i,
                    _ => panic!("newint takes a raw integer"),
                };
                self.alloc_box(Boxed::Int(v))
            },
            RuntimeFn::NewFloat => {
                let v = self.xmm0;
                self.alloc_box(Boxed::Float(v))
            },
            RuntimeFn::Add | RuntimeFn::Sub | RuntimeFn::Mul | RuntimeFn::Div | RuntimeFn::Mod => {
                let a = self.get(Reg::Rdi);
                let b = self.get(Reg::Rsi);
                if let Some((x, y)) = self.both_ints(a, b) {
                    let r = match f {
                        RuntimeFn::Add => x + y,
                        RuntimeFn::Sub => x - y,
                        RuntimeFn::Mul => x * y,
                        RuntimeFn::Div => x / y,
                        _ => x % y,
                    };
                    self.alloc_box(Boxed::Int(r))
                } else {
                    let x = self.numeric(a);
                    let y = self.numeric(b);
                    let r = match f {
                        RuntimeFn::Add => x + y,
                        RuntimeFn::Sub => x - y,
                        RuntimeFn::Mul => x * y,
                        RuntimeFn::Div => x / y,
                        _ => x % y,
                    };
                    self.alloc_box(Boxed::Float(r))
                }
            },
            RuntimeFn::Equal => {
                let a = self.get(Reg::Rdi);
                let b = self.get(Reg::Rsi);
                let eq = self.numeric(a) == self.numeric(b);
                Word::Int(if eq { 1 } else { 0 })
            },
            RuntimeFn::Empty => self.alloc_box(Boxed::Empty),
            RuntimeFn::IsEmpty => {
                let a = self.get(Reg::Rdi);
                match self.unbox(a) {
                    Boxed::Empty => Word::Int(1),
                    _ => Word::Int(0),
                }
            },
            RuntimeFn::First => {
                let a = self.get(Reg::Rdi);
                match self.unbox(a) {
                    Boxed::Cons(h, _) => h,
                    _ => panic!("first of a non-pair"),
                }
            },
            RuntimeFn::Rest => {
                let a = self.get(Reg::Rdi);
                match self.unbox(a) {
                    Boxed::Cons(_, t) => t,
                    _ => panic!("rest of a non-pair"),
                }
            },
            RuntimeFn::Cons => {
                let a = self.get(Reg::Rdi);
                let b = self.get(Reg::Rsi);
                self.alloc_box(Boxed::Cons(a, b))
            },
            RuntimeFn::Append => {
                let a = self.get(Reg::Rdi);
                let b = self.get(Reg::Rsi);
                self.append(a, b)
            },
            RuntimeFn::List => {
                let n = match self.get(Reg::Rdi) {
                    Word::Int(i) => i as usize,
                    _ => panic!("list takes a raw count"),
                };
                // The arguments were pushed in reverse, so they sit in
                // forward memory order: the first argument on top.
                let mut lst = self.alloc_box(Boxed::Empty);
                let len = self.stack.len();
                for k in 0..n {
                    let arg = self.stack[len - n + k];
                    lst = self.alloc_box(Boxed::Cons(arg, lst));
                }
                lst
            },
            RuntimeFn::GetInt => {
                let a = self.get(Reg::Rdi);
                match self.unbox(a) {
                    Boxed::Int(i) => Word::Int(i),
                    _ => panic!("getint of a non-integer"),
                }
            },
            RuntimeFn::GetFloat => {
                let a = self.get(Reg::Rdi);
                match self.unbox(a) {
                    Boxed::Float(f) => {
                        self.xmm0 = f;
                        Word::Int(0)
                    },
                    _ => panic!("getfloat of a non-float"),
                }
            },
        };
        // The platform convention lets a callee freely overwrite every
        // caller-saved register, so the model does: compiled code must
        // have saved whatever it still needs.
        for r in [
            Reg::Rax,
            Reg::Rcx,
            Reg::Rdx,
            Reg::Rsi,
            Reg::Rdi,
            Reg::R8,
            Reg::R9,
            Reg::R10,
            Reg::R11,
        ] {
            self.set(r, Word::Int(-424242));
        }
        if !matches!(f, RuntimeFn::GetFloat) {
            self.xmm0 = -424242.0;
        }
        self.set(Reg::Rax, out);
    }
}

fn run(lines: &[Instr], pool: &[Option<u64>]) -> Word {
    let mut label_at: HashMap<usize, usize> = HashMap::new();
    for (i, ins) in lines.iter().enumerate() {
        if let Instr::Label(l) = ins {
            label_at.insert(*l, i);
        }
    }
    let mut m = Machine::new();
    let mut pc: usize = 0;
    while pc < lines.len() {
        match lines[pc] {
            Instr::MovRR(d, s) => {
                let w = m.get(s);
                m.set(d, w);
            },
            Instr::MovImm(d, i) => m.set(d, Word::Int(i)),
            Instr::SetArgCount(n) => m.set(Reg::Rdi, Word::Int(n as i64)),
            Instr::Push(r) => {
                let w = m.get(r);
                m.stack.push(w);
            },
            Instr::Pop(r) => {
                let w = m.stack.pop().expect("pop of an empty stack");
                m.set(r, w);
            },
            Instr::SubRsp(w) => {
                for _ in 0..w {
                    m.stack.push(Word::Int(0));
                }
            },
            Instr::AddRsp(w) => {
                for _ in 0..w {
                    m.stack.pop().expect("stack shrank below frame entry");
                }
            },
            Instr::Call(f) => m.runtime(f),
            Instr::LoadFloat(l) => {
                m.xmm0 = f64::from_bits(pool[l].expect("label without a float value"));
            },
            Instr::CmpTrue(r) => {
                m.flag_eq = m.get(r) == Word::Int(1);
            },
            Instr::Je(l) => {
                if m.flag_eq {
                    pc = label_at[&l];
                }
            },
            Instr::Jmp(l) => pc = label_at[&l],
            Instr::Label(_) => {},
        }
        pc += 1;
    }
    m.get(Reg::Rax)
}

fn op(name: &str, params: Vec<Node>) -> Node {
    Node::Expr(Expr::new(name.to_string(), params))
}

fn lit(i: i64) -> Node {
    Node::Integer(i)
}

fn flt(x: f64) -> Node {
    Node::Float(x.to_bits())
}

fn ident(s: &str) -> Node {
    Node::String(s.to_string())
}

fn let_in(bindings: Vec<(&str, Node)>, body: Node) -> Node {
    Node::LetExpr(Box::new(LetExpr {
        bindings: bindings.into_iter().map(|(n, v)| (n.to_string(), v)).collect(),
        body,
    }))
}

/// Compiles `(_getint node)` and runs the stream: the raw integer in
/// the return register.
fn eval_lit(node: Node) -> i64 {
    let wrapped = op("_getint", vec![node]);
    let (pool, lines) = Compiler::new().compile(wrapped).expect("compilation failed");
    match run(&lines, &pool) {
        Word::Int(i) => i,
        w => panic!("expected a raw integer, got {w:?}"),
    }
}

/// Compiles the node as given and runs the stream: the raw word in the
/// return register.
fn eval_raw(node: Node) -> Word {
    let (pool, lines) = Compiler::new().compile(node).expect("compilation failed");
    run(&lines, &pool)
}

#[test]
fn let_block_evaluates() {
    // (let* ((x 1) (y (+ 1 x))) (+ x y)) = 3
    let node = let_in(
        vec![("x", lit(1)), ("y", op("+", vec![lit(1), ident("x")]))],
        op("+", vec![ident("x"), ident("y")]),
    );
    assert_eq!(eval_lit(node), 3);
}

#[test]
fn forward_reference_is_unbound() {
    // (let* ((x y) (y 1)) x): the first initializer may reference only
    // earlier bindings.
    let node = let_in(vec![("x", ident("y")), ("y", lit(1))], ident("x"));
    let res = Compiler::new().compile(node);
    assert_eq!(res.err(), Some(CompileError::UnboundNameError));
}

#[test]
fn nested_arithmetic_across_calls() {
    // (+ 1 (* 2 (- 3 4))) = -1
    let node = op(
        "+",
        vec![lit(1), op("*", vec![lit(2), op("-", vec![lit(3), lit(4)])])],
    );
    assert_eq!(eval_lit(node), -1);
}

#[test]
fn arithmetic_operators() {
    assert_eq!(eval_lit(op("+", vec![lit(40), lit(2)])), 42);
    assert_eq!(eval_lit(op("-", vec![lit(2), lit(1)])), 1);
    assert_eq!(eval_lit(op("-", vec![lit(1), lit(2)])), -1);
    assert_eq!(eval_lit(op("*", vec![lit(2), lit(21)])), 42);
    assert_eq!(eval_lit(op("/", vec![lit(5), lit(2)])), 2);
    assert_eq!(eval_lit(op("mod", vec![lit(5), lit(2)])), 1);
    assert_eq!(eval_lit(op("+", vec![lit(1), op("*", vec![lit(2), lit(3)])])), 7);
}

#[test]
fn conditionals_select_branch() {
    assert_eq!(eval_lit(op("if", vec![ident("#t"), lit(2), lit(3)])), 2);
    assert_eq!(eval_lit(op("if", vec![ident("#f"), lit(2), lit(3)])), 3);
    let cond = op("=", vec![lit(1), lit(1)]);
    assert_eq!(eval_lit(op("if", vec![cond, lit(2), lit(3)])), 2);
    // A conditional in operand position: its fresh result register must
    // survive the surrounding call.
    let inner = op("if", vec![ident("#f"), lit(2), lit(3)]);
    assert_eq!(eval_lit(op("+", vec![inner, lit(1)])), 4);
}

#[test]
fn list_primitives() {
    let l123 = op("list", vec![lit(1), lit(2), lit(3)]);
    assert_eq!(eval_lit(op("first", vec![l123])), 1);
    let l123b = op("list", vec![lit(1), lit(2), lit(3)]);
    assert_eq!(eval_lit(op("first", vec![op("rest", vec![l123b])])), 2);
    assert_eq!(
        eval_raw(op("empty?", vec![op("empty", vec![])])),
        Word::Int(1)
    );
    assert_eq!(eval_raw(op("empty?", vec![op("list", vec![])])), Word::Int(1));
    assert_eq!(
        eval_raw(op("empty?", vec![op("cons", vec![lit(1), op("empty", vec![])])])),
        Word::Int(0)
    );
    let l5 = op("list", vec![lit(1), lit(2), lit(3), lit(4), lit(5)]);
    assert_eq!(eval_lit(op("first", vec![l5])), 1);
    let l2 = op("list", vec![lit(1), lit(2)]);
    assert_eq!(eval_lit(op("first", vec![op("rest", vec![l2])])), 2);
    let c1 = op("cons", vec![lit(1), op("empty", vec![])]);
    assert_eq!(eval_lit(op("first", vec![c1])), 1);
    // The second list travels through a binding: the two-argument
    // protocol keeps the first argument register live while the second
    // operand is generated.
    let app = let_in(
        vec![("tail", op("cons", vec![lit(8), op("empty", vec![])]))],
        op(
            "first",
            vec![op(
                "rest",
                vec![op(
                    "append",
                    vec![op("cons", vec![lit(7), op("empty", vec![])]), ident("tail")],
                )],
            )],
        ),
    );
    assert_eq!(eval_lit(app), 8);
}

#[test]
fn local_variables() {
    assert_eq!(eval_lit(let_in(vec![("x", lit(1))], ident("x"))), 1);
    assert_eq!(
        eval_lit(let_in(
            vec![("x", lit(1)), ("y", lit(2))],
            op("+", vec![ident("x"), ident("y")]),
        )),
        3
    );
}

#[test]
fn float_literals_compare() {
    assert_eq!(eval_raw(op("=", vec![flt(1.0), flt(1.0)])), Word::Int(1));
    assert_eq!(
        eval_raw(op("=", vec![flt(1.5), op("+", vec![flt(1.0), flt(0.5)])])),
        Word::Int(1)
    );
    assert_eq!(
        eval_raw(op("=", vec![flt(1.5), op("+", vec![lit(1), flt(0.5)])])),
        Word::Int(1)
    );
    assert_eq!(
        eval_raw(op("=", vec![flt(1.5), op("+", vec![flt(0.5), lit(1)])])),
        Word::Int(1)
    );
}

#[test]
fn nested_second_operands_kept() {
    // The first argument stays in its scratch register while the
    // second operand is generated, so nested constructors and
    // arithmetic in second position cannot clobber it.
    let pair = op("cons", vec![lit(1), op("cons", vec![lit(2), op("empty", vec![])])]);
    assert_eq!(eval_lit(op("first", vec![pair])), 1);
    let pair2 = op("cons", vec![lit(1), op("cons", vec![lit(2), op("empty", vec![])])]);
    assert_eq!(eval_lit(op("first", vec![op("rest", vec![pair2])])), 2);
    let improper = op("cons", vec![lit(1), op("+", vec![lit(2), lit(3)])]);
    assert_eq!(eval_lit(op("first", vec![improper])), 1);
    let improper2 = op("cons", vec![lit(1), op("+", vec![lit(2), lit(3)])]);
    assert_eq!(eval_lit(op("rest", vec![improper2])), 5);
}

#[test]
fn variadic_call_preserves_live_values() {
    // A live value in a caller-saved register must survive the
    // variadic list call: the tracker saves it like any other call.
    let node = let_in(
        vec![("a", lit(1)), ("b", lit(2)), ("c", lit(3))],
        op(
            "+",
            vec![ident("b"), op("first", vec![op("list", vec![ident("c"), ident("a")])])],
        ),
    );
    assert_eq!(eval_lit(node), 5);
}

#[test]
fn shadowed_binding_restored() {
    // An inner block shadowing x must give the outer x back to the
    // outer body.
    let inner = let_in(vec![("x", lit(10))], ident("x"));
    let node = let_in(
        vec![("x", lit(1)), ("ignored", inner)],
        op("+", vec![ident("x"), ident("ignored")]),
    );
    assert_eq!(eval_lit(node), 11);
}
