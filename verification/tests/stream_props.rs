//! Checks on the emitted instruction stream itself: call-site stack
//! alignment, restoration of the compiler's entry state, target
//! placement, the fail-fast errors, and the constant pool's
//! deduplication and label scheme.

use compiler_lib::{CompileError, Compiler, Expr, Instr, LetExpr, Node, Reg};

fn op(name: &str, params: Vec<Node>) -> Node {
    Node::Expr(Expr::new(name.to_string(), params))
}

fn lit(i: i64) -> Node {
    Node::Integer(i)
}

fn flt(x: f64) -> Node {
    Node::Float(x.to_bits())
}

fn ident(s: &str) -> Node {
    Node::String(s.to_string())
}

fn let_in(bindings: Vec<(&str, Node)>, body: Node) -> Node {
    Node::LetExpr(Box::new(LetExpr {
        bindings: bindings.into_iter().map(|(n, v)| (n.to_string(), v)).collect(),
        body,
    }))
}

/// Words an instruction pushes onto the stack (negative: pops).
fn delta(i: &Instr) -> i64 {
    match *i {
        Instr::Push(_) => 1,
        Instr::Pop(_) => -1,
        Instr::SubRsp(w) => w as i64,
        Instr::AddRsp(w) => -(w as i64),
        _ => 0,
    }
}

/// At every call site, the pushed words together with the call's own
/// return-address push must be even: 16-byte alignment.
fn assert_calls_aligned(lines: &[Instr]) {
    let mut pushed: i64 = 0;
    for i in lines {
        if let Instr::Call(_) = i {
            assert_eq!((pushed + 1) % 2, 0, "misaligned call site");
        }
        pushed += delta(i);
    }
    assert_eq!(pushed, 0, "stack parity not restored at exit");
}

fn sample_programs() -> Vec<Node> {
    vec![
        op("+", vec![lit(1), op("*", vec![lit(2), op("-", vec![lit(3), lit(4)])])]),
        let_in(
            vec![("x", lit(1)), ("y", op("+", vec![lit(1), ident("x")]))],
            op("+", vec![ident("x"), ident("y")]),
        ),
        op("list", vec![lit(1), lit(2), lit(3)]),
        op("list", vec![]),
        op("first", vec![op("list", vec![lit(1), op("+", vec![lit(2), lit(3)])])]),
        op("if", vec![op("=", vec![lit(1), lit(1)]), lit(2), flt(3.5)]),
        op("cons", vec![lit(1), op("empty", vec![])]),
        op("_getint", vec![op("+", vec![flt(1.0), flt(1.0)])]),
    ]
}

#[test]
fn call_sites_are_aligned() {
    for node in sample_programs() {
        let (_pool, lines) = Compiler::new().compile(node).expect("compilation failed");
        assert_calls_aligned(&lines);
    }
}

#[test]
fn entry_state_restored() {
    for node in sample_programs() {
        let mut c = Compiler::new();
        let r = c.compile_tok(&node, Some(Reg::Rax));
        assert!(r.is_ok());
        assert_eq!(c.stack_parity(), 0);
        assert_eq!(c.binding_count(), 0);
        assert!(c.no_live_registers());
    }
}

#[test]
fn target_register_returned() {
    let node = op("+", vec![lit(1), lit(2)]);
    let mut c = Compiler::new();
    assert_eq!(c.compile_tok(&node, Some(Reg::Rax)), Ok(Reg::Rax));
    let node2 = op("+", vec![lit(1), lit(2)]);
    let mut c2 = Compiler::new();
    assert_eq!(c2.compile_tok(&node2, Some(Reg::Rbx)), Ok(Reg::Rbx));
}

#[test]
fn wrong_arity_is_structural_and_emits_nothing() {
    let mut c = Compiler::new();
    let r = c.compile_tok(&op("+", vec![lit(1)]), Some(Reg::Rax));
    assert_eq!(r, Err(CompileError::StructuralError));
    assert_eq!(c.instructions().len(), 0);
    let mut c2 = Compiler::new();
    let r2 = c2.compile_tok(&op("+", vec![lit(1), lit(2), lit(3)]), Some(Reg::Rax));
    assert_eq!(r2, Err(CompileError::StructuralError));
    assert_eq!(c2.instructions().len(), 0);
    let mut c3 = Compiler::new();
    let r3 = c3.compile_tok(&op("empty", vec![lit(1)]), Some(Reg::Rax));
    assert_eq!(r3, Err(CompileError::StructuralError));
    assert_eq!(c3.instructions().len(), 0);
    let mut c4 = Compiler::new();
    let r4 = c4.compile_tok(&op("first", vec![]), Some(Reg::Rax));
    assert_eq!(r4, Err(CompileError::StructuralError));
    assert_eq!(c4.instructions().len(), 0);
}

#[test]
fn unsupported_operator_rejected() {
    let res = Compiler::new().compile(op("frobnicate", vec![lit(1)]));
    assert_eq!(res.err(), Some(CompileError::UnsupportedOperatorError));
    let lambda = Node::LambdaExpr(Box::new(compiler_lib::LambdaExpr {
        params: vec!["x".to_string()],
        body: lit(1),
    }));
    let res2 = Compiler::new().compile(lambda);
    assert_eq!(res2.err(), Some(CompileError::UnsupportedOperatorError));
}

#[test]
fn unbound_name_rejected() {
    let res = Compiler::new().compile(ident("nowhere"));
    assert_eq!(res.err(), Some(CompileError::UnboundNameError));
}

#[test]
fn register_exhaustion_reported() {
    // Eleven scratch registers exist; a twelfth simultaneous binding
    // cannot be allocated and there is no spill fallback.
    let names = [
        "a", "b", "c", "d", "e", "f", "g", "h", "i", "j", "k", "l",
    ];
    let bindings: Vec<(&str, Node)> = names.iter().map(|n| (*n, lit(1))).collect();
    let res = Compiler::new().compile(let_in(bindings, lit(0)));
    assert_eq!(res.err(), Some(CompileError::ResourceExhaustionError));
    // Eleven bindings still fit.
    let bindings11: Vec<(&str, Node)> = names[..11].iter().map(|n| (*n, lit(1))).collect();
    assert!(Compiler::new().compile(let_in(bindings11, lit(0))).is_ok());
}

#[test]
fn float_pool_deduplicated() {
    let node = op("+", vec![flt(2.5), flt(2.5)]);
    let (pool, _lines) = Compiler::new().compile(node).expect("compilation failed");
    let floats: Vec<u64> = pool.iter().filter_map(|e| *e).collect();
    assert_eq!(floats, vec![2.5f64.to_bits()]);
    let node2 = op("+", vec![flt(2.5), flt(3.5)]);
    let (pool2, _l2) = Compiler::new().compile(node2).expect("compilation failed");
    let floats2: Vec<u64> = pool2.iter().filter_map(|e| *e).collect();
    assert_eq!(floats2, vec![2.5f64.to_bits(), 3.5f64.to_bits()]);
}

#[test]
fn branch_labels_allocated_in_pool() {
    let node = op("if", vec![ident("#t"), lit(1), lit(2)]);
    let (pool, lines) = Compiler::new().compile(node).expect("compilation failed");
    // A conditional allocates three labels, stored as valueless pool
    // entries so later labels never collide.
    assert_eq!(pool.iter().filter(|e| e.is_none()).count(), 3);
    for i in &lines {
        match *i {
            Instr::Je(l) | Instr::Jmp(l) | Instr::Label(l) | Instr::LoadFloat(l) => {
                assert!(l < pool.len(), "label {l} not allocated in the pool");
            },
            _ => {},
        }
    }
}

#[test]
fn pool_threads_across_invocations() {
    let (pool1, _l1) = Compiler::new()
        .compile(op("if", vec![ident("#t"), flt(1.5), lit(2)]))
        .expect("compilation failed");
    let n1 = pool1.len();
    // A second unit resuming from the first pool deduplicates its
    // float against it and allocates labels past the ones given out.
    let (pool2, lines2) = Compiler::with_consts(pool1.clone())
        .compile(op("+", vec![flt(1.5), flt(9.25)]))
        .expect("compilation failed");
    assert_eq!(&pool2[..n1], &pool1[..]);
    let floats: Vec<u64> = pool2.iter().filter_map(|e| *e).collect();
    assert_eq!(floats, vec![1.5f64.to_bits(), 9.25f64.to_bits()]);
    for i in &lines2 {
        if let Instr::LoadFloat(l) = *i {
            assert!(pool2[l] == Some(1.5f64.to_bits()) || pool2[l] == Some(9.25f64.to_bits()));
        }
    }
}

#[test]
fn nested_error_propagates() {
    // The arity violation sits below the root: compilation still fails
    // fast with the structural error.
    let node = op("+", vec![lit(1), op("*", vec![lit(2)])]);
    let res = Compiler::new().compile(node);
    assert_eq!(res.err(), Some(CompileError::StructuralError));
}
