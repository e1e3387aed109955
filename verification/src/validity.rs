//! Static validity of a node: operator support, operator arity and
//! name binding, the three things the code generator checks before it
//! emits anything for a node. `check_node` mirrors the generator's
//! left-to-right walk (the variadic list constructor evaluates its
//! arguments right to left), so the generator's result can be pinned to
//! it exactly.

use vstd::prelude::*;

use crate::ast::{Expr, Node};

verus! {

/// Why a compile invocation failed. Every failure is fatal within the
/// invocation: the compiler fails fast rather than emit partial output.
#[derive(Clone, Copy, PartialEq, Eq, Structural, Debug)]
pub enum CompileError {
    /// An operator reached code generation with the wrong number of
    /// parameters.
    StructuralError,
    /// An unimplemented node or operator; rejected before any
    /// instruction is emitted.
    UnsupportedOperatorError,
    /// An identifier outside any enclosing binding scope.
    UnboundNameError,
    /// No free register is left; the allocator has no spill fallback.
    ResourceExhaustionError,
}

/// The two-operand operators that lower to an arithmetic or comparison
/// entry point of the runtime.
pub open spec fn is_arith_op(op: Seq<char>) -> bool {
    op == "+"@ || op == "-"@ || op == "*"@ || op == "/"@ || op == "mod"@ || op == "="@
}

/// The one-argument list primitives and internal unboxing operators.
pub open spec fn is_one_param_op(op: Seq<char>) -> bool {
    op == "first"@ || op == "rest"@ || op == "empty?"@ || op == "_getint"@ || op == "_getfloat"@
}

/// The two-argument list primitives.
pub open spec fn is_two_param_op(op: Seq<char>) -> bool {
    op == "cons"@ || op == "append"@
}

/// Every operator the code generator implements.
pub open spec fn supported_op(op: Seq<char>) -> bool {
    is_arith_op(op) || is_one_param_op(op) || is_two_param_op(op) || op == "empty"@ || op
        == "list"@ || op == "if"@
}

/// The fixed arity of a supported operator; the list constructor is
/// variadic and accepts any count.
pub open spec fn arity_ok(op: Seq<char>, n: nat) -> bool {
    if is_arith_op(op) || is_two_param_op(op) {
        n == 2
    } else if is_one_param_op(op) {
        n == 1
    } else if op == "empty"@ {
        n == 0
    } else if op == "if"@ {
        n == 3
    } else {
        true
    }
}

/// The failure the generator reports at the root of `t` itself, before
/// it emits any instruction or visits a child; `None` when the root is
/// acceptable.
pub open spec fn root_error(t: Node, env: Seq<Seq<char>>) -> Option<CompileError> {
    match t {
        Node::Expr(e) => {
            if !supported_op(e.op@) {
                Some(CompileError::UnsupportedOperatorError)
            } else if !arity_ok(e.op@, e.params@.len()) {
                Some(CompileError::StructuralError)
            } else {
                None
            }
        },
        Node::String(s) => {
            if s@ == "#t"@ || s@ == "#f"@ || env.contains(s@) {
                None
            } else {
                Some(CompileError::UnboundNameError)
            }
        },
        Node::LambdaExpr(_) => Some(CompileError::UnsupportedOperatorError),
        _ => None,
    }
}

/// Static validity of a node under the names in scope, reported as the
/// generator reports it: the first violation on the generator's own
/// visiting order, or success.
pub open spec fn check_node(t: Node, env: Seq<Seq<char>>) -> Result<(), CompileError>
    decreases t,
{
    match t {
        Node::Expr(e) => check_expr(e, env),
        Node::String(s) => {
            if s@ == "#t"@ || s@ == "#f"@ || env.contains(s@) {
                Ok(())
            } else {
                Err(CompileError::UnboundNameError)
            }
        },
        Node::Float(_) => Ok(()),
        Node::Integer(_) => Ok(()),
        Node::LetExpr(l) => match check_bindings(l.bindings@, env) {
            Err(er) => Err(er),
            Ok(env2) => check_node(l.body, env2),
        },
        Node::LambdaExpr(_) => Err(CompileError::UnsupportedOperatorError),
    }
}

/// Validity of an operator application: the operator must be
/// supported, its arity must match, and its parameters must be valid,
/// visited in generation order.
pub open spec fn check_expr(e: Expr, env: Seq<Seq<char>>) -> Result<(), CompileError>
    decreases e,
{
    if !supported_op(e.op@) {
        Err(CompileError::UnsupportedOperatorError)
    } else if !arity_ok(e.op@, e.params@.len()) {
        Err(CompileError::StructuralError)
    } else if is_arith_op(e.op@) || is_two_param_op(e.op@) {
        match check_node(e.params@[0], env) {
            Err(er) => Err(er),
            Ok(_) => check_node(e.params@[1], env),
        }
    } else if is_one_param_op(e.op@) {
        check_node(e.params@[0], env)
    } else if e.op@ == "empty"@ {
        Ok(())
    } else if e.op@ == "list"@ {
        check_rtl(e.params@, env)
    } else {
        match check_node(e.params@[0], env) {
            Err(er) => Err(er),
            Ok(_) => match check_node(e.params@[1], env) {
                Err(er) => Err(er),
                Ok(_) => check_node(e.params@[2], env),
            },
        }
    }
}

/// Validity of two children, visited left to right.
pub open spec fn check_pair(a: Node, b: Node, env: Seq<Seq<char>>) -> Result<(), CompileError> {
    match check_node(a, env) {
        Err(er) => Err(er),
        Ok(_) => check_node(b, env),
    }
}

/// Validity of the list constructor's arguments, visited right to
/// left: they are generated in reverse so their memory order is
/// forward.
pub open spec fn check_rtl(s: Seq<Node>, env: Seq<Seq<char>>) -> Result<(), CompileError>
    decreases s,
{
    if s.len() == 0 {
        Ok(())
    } else {
        match check_node(s.last(), env) {
            Err(er) => Err(er),
            Ok(_) => check_rtl(s.drop_last(), env),
        }
    }
}

/// Validity of a binding block, visited left to right; on success,
/// returns the scope extended with the block's names, each initializer
/// seeing only the names bound before it.
pub open spec fn check_bindings(s: Seq<(String, Node)>, env: Seq<Seq<char>>) -> Result<
    Seq<Seq<char>>,
    CompileError,
>
    decreases s,
{
    if s.len() == 0 {
        Ok(env)
    } else {
        match check_bindings(s.drop_last(), env) {
            Err(er) => Err(er),
            Ok(env2) => match check_node(s.last().1, env2) {
                Err(er) => Err(er),
                Ok(_) => Ok(env2.push(s.last().0@)),
            },
        }
    }
}

/// Validity of a conditional's three children, visited in generation
/// order: condition, then branch, else branch.
pub open spec fn check_triple(a: Node, b: Node, c: Node, env: Seq<Seq<char>>) -> Result<
    (),
    CompileError,
> {
    match check_node(a, env) {
        Err(er) => Err(er),
        Ok(_) => check_pair(b, c, env),
    }
}

/// Validity of a whole binding block: the bindings left to right, then
/// the body under the extended scope.
pub open spec fn check_let(bs: Seq<(String, Node)>, body: Node, env: Seq<Seq<char>>) -> Result<
    (),
    CompileError,
> {
    match check_bindings(bs, env) {
        Err(er) => Err(er),
        Ok(env2) => check_node(body, env2),
    }
}

/// Peels the last argument off the right-to-left visit.
pub proof fn lemma_check_rtl_step(s: Seq<Node>, i: int, env: Seq<Seq<char>>)
    requires
        0 <= i < s.len(),
    ensures
        check_rtl(s.take(i + 1), env) == (match check_node(s[i], env) {
            Err(er) => Err(er),
            Ok(_) => check_rtl(s.take(i), env),
        }),
{
    let t = s.take(i + 1);
    assert(t.last() == s[i]);
    assert(t.drop_last() =~= s.take(i));
}

/// Peels the last binding off the left-to-right visit.
pub proof fn lemma_check_bindings_step(s: Seq<(String, Node)>, i: int, env: Seq<Seq<char>>)
    requires
        0 <= i < s.len(),
    ensures
        check_bindings(s.take(i + 1), env) == (match check_bindings(s.take(i), env) {
            Err(er) => Err(er),
            Ok(env2) => match check_node(s[i].1, env2) {
                Err(er) => Err(er),
                Ok(_) => Ok(env2.push(s[i].0@)),
            },
        }),
{
    let t = s.take(i + 1);
    assert(t.last() == s[i]);
    assert(t.drop_last() =~= s.take(i));
}

/// Once a prefix of the binding block fails, the whole block fails the
/// same way.
pub proof fn lemma_check_bindings_err(s: Seq<(String, Node)>, i: int, env: Seq<Seq<char>>)
    requires
        0 <= i <= s.len(),
        check_bindings(s.take(i), env) is Err,
    ensures
        check_bindings(s, env) == check_bindings(s.take(i), env),
    decreases s.len() - i,
{
    if i == s.len() {
        assert(s.take(i) =~= s);
    } else {
        lemma_check_bindings_step(s, i, env);
        lemma_check_bindings_err(s, i + 1, env);
    }
}

/// Classifies each non-arithmetic operator literal: which operator
/// classes it does not belong to, so the arity table and the check can
/// be evaluated on it.
#[verifier::spinoff_prover]
#[verifier::rlimit(100)]
pub proof fn lemma_op_classes()
    ensures
        !is_arith_op("empty"@),
        !is_one_param_op("empty"@),
        !is_two_param_op("empty"@),
        !is_arith_op("first"@),
        !is_two_param_op("first"@),
        "first"@ != "empty"@,
        !is_arith_op("rest"@),
        !is_two_param_op("rest"@),
        "rest"@ != "empty"@,
        !is_arith_op("empty?"@),
        !is_two_param_op("empty?"@),
        "empty?"@ != "empty"@,
        !is_arith_op("cons"@),
        !is_one_param_op("cons"@),
        !is_arith_op("append"@),
        !is_one_param_op("append"@),
        !is_arith_op("list"@),
        !is_one_param_op("list"@),
        !is_two_param_op("list"@),
        "list"@ != "empty"@,
        !is_arith_op("_getint"@),
        !is_two_param_op("_getint"@),
        "_getint"@ != "empty"@,
        !is_arith_op("_getfloat"@),
        !is_two_param_op("_getfloat"@),
        "_getfloat"@ != "empty"@,
        !is_arith_op("if"@),
        !is_one_param_op("if"@),
        !is_two_param_op("if"@),
        "if"@ != "empty"@,
        "if"@ != "list"@,
{
    reveal_strlit("+");
    reveal_strlit("-");
    reveal_strlit("*");
    reveal_strlit("/");
    reveal_strlit("mod");
    reveal_strlit("=");
    reveal_strlit("empty");
    reveal_strlit("first");
    reveal_strlit("rest");
    reveal_strlit("empty?");
    reveal_strlit("cons");
    reveal_strlit("append");
    reveal_strlit("list");
    reveal_strlit("_getint");
    reveal_strlit("_getfloat");
    reveal_strlit("if");
    assert("_getfloat"@ != "*"@) by {
        assert("_getfloat"@.len() == 9);
        assert("*"@.len() == 1);
    }
    assert("_getfloat"@ != "+"@) by {
        assert("_getfloat"@.len() == 9);
        assert("+"@.len() == 1);
    }
    assert("_getfloat"@ != "-"@) by {
        assert("_getfloat"@.len() == 9);
        assert("-"@.len() == 1);
    }
    assert("_getfloat"@ != "/"@) by {
        assert("_getfloat"@.len() == 9);
        assert("/"@.len() == 1);
    }
    assert("_getfloat"@ != "="@) by {
        assert("_getfloat"@.len() == 9);
        assert("="@.len() == 1);
    }
    assert("_getfloat"@ != "append"@) by {
        assert("_getfloat"@.len() == 9);
        assert("append"@.len() == 6);
    }
    assert("_getfloat"@ != "cons"@) by {
        assert("_getfloat"@.len() == 9);
        assert("cons"@.len() == 4);
    }
    assert("_getfloat"@ != "empty"@) by {
        assert("_getfloat"@.len() == 9);
        assert("empty"@.len() == 5);
    }
    assert("_getfloat"@ != "mod"@) by {
        assert("_getfloat"@.len() == 9);
        assert("mod"@.len() == 3);
    }
    assert("_getint"@ != "*"@) by {
        assert("_getint"@.len() == 7);
        assert("*"@.len() == 1);
    }
    assert("_getint"@ != "+"@) by {
        assert("_getint"@.len() == 7);
        assert("+"@.len() == 1);
    }
    assert("_getint"@ != "-"@) by {
        assert("_getint"@.len() == 7);
        assert("-"@.len() == 1);
    }
    assert("_getint"@ != "/"@) by {
        assert("_getint"@.len() == 7);
        assert("/"@.len() == 1);
    }
    assert("_getint"@ != "="@) by {
        assert("_getint"@.len() == 7);
        assert("="@.len() == 1);
    }
    assert("_getint"@ != "append"@) by {
        assert("_getint"@.len() == 7);
        assert("append"@.len() == 6);
    }
    assert("_getint"@ != "cons"@) by {
        assert("_getint"@.len() == 7);
        assert("cons"@.len() == 4);
    }
    assert("_getint"@ != "empty"@) by {
        assert("_getint"@.len() == 7);
        assert("empty"@.len() == 5);
    }
    assert("_getint"@ != "mod"@) by {
        assert("_getint"@.len() == 7);
        assert("mod"@.len() == 3);
    }
    assert("append"@ != "*"@) by {
        assert("append"@.len() == 6);
        assert("*"@.len() == 1);
    }
    assert("append"@ != "+"@) by {
        assert("append"@.len() == 6);
        assert("+"@.len() == 1);
    }
    assert("append"@ != "-"@) by {
        assert("append"@.len() == 6);
        assert("-"@.len() == 1);
    }
    assert("append"@ != "/"@) by {
        assert("append"@.len() == 6);
        assert("/"@.len() == 1);
    }
    assert("append"@ != "="@) by {
        assert("append"@.len() == 6);
        assert("="@.len() == 1);
    }
    assert("append"@ != "_getfloat"@) by {
        assert("append"@.len() == 6);
        assert("_getfloat"@.len() == 9);
    }
    assert("append"@ != "_getint"@) by {
        assert("append"@.len() == 6);
        assert("_getint"@.len() == 7);
    }
    assert("append"@ != "empty"@) by {
        assert("append"@.len() == 6);
        assert("empty"@.len() == 5);
    }
    assert("append"@ != "empty?"@) by {
        assert("append"@[0] == 'a');
        assert("empty?"@[0] == 'e');
    }
    assert("append"@ != "first"@) by {
        assert("append"@.len() == 6);
        assert("first"@.len() == 5);
    }
    assert("append"@ != "mod"@) by {
        assert("append"@.len() == 6);
        assert("mod"@.len() == 3);
    }
    assert("append"@ != "rest"@) by {
        assert("append"@.len() == 6);
        assert("rest"@.len() == 4);
    }
    assert("cons"@ != "*"@) by {
        assert("cons"@.len() == 4);
        assert("*"@.len() == 1);
    }
    assert("cons"@ != "+"@) by {
        assert("cons"@.len() == 4);
        assert("+"@.len() == 1);
    }
    assert("cons"@ != "-"@) by {
        assert("cons"@.len() == 4);
        assert("-"@.len() == 1);
    }
    assert("cons"@ != "/"@) by {
        assert("cons"@.len() == 4);
        assert("/"@.len() == 1);
    }
    assert("cons"@ != "="@) by {
        assert("cons"@.len() == 4);
        assert("="@.len() == 1);
    }
    assert("cons"@ != "_getfloat"@) by {
        assert("cons"@.len() == 4);
        assert("_getfloat"@.len() == 9);
    }
    assert("cons"@ != "_getint"@) by {
        assert("cons"@.len() == 4);
        assert("_getint"@.len() == 7);
    }
    assert("cons"@ != "empty"@) by {
        assert("cons"@.len() == 4);
        assert("empty"@.len() == 5);
    }
    assert("cons"@ != "empty?"@) by {
        assert("cons"@.len() == 4);
        assert("empty?"@.len() == 6);
    }
    assert("cons"@ != "first"@) by {
        assert("cons"@.len() == 4);
        assert("first"@.len() == 5);
    }
    assert("cons"@ != "mod"@) by {
        assert("cons"@.len() == 4);
        assert("mod"@.len() == 3);
    }
    assert("cons"@ != "rest"@) by {
        assert("cons"@[0] == 'c');
        assert("rest"@[0] == 'r');
    }
    assert("empty"@ != "*"@) by {
        assert("empty"@.len() == 5);
        assert("*"@.len() == 1);
    }
    assert("empty"@ != "+"@) by {
        assert("empty"@.len() == 5);
        assert("+"@.len() == 1);
    }
    assert("empty"@ != "-"@) by {
        assert("empty"@.len() == 5);
        assert("-"@.len() == 1);
    }
    assert("empty"@ != "/"@) by {
        assert("empty"@.len() == 5);
        assert("/"@.len() == 1);
    }
    assert("empty"@ != "="@) by {
        assert("empty"@.len() == 5);
        assert("="@.len() == 1);
    }
    assert("empty"@ != "_getfloat"@) by {
        assert("empty"@.len() == 5);
        assert("_getfloat"@.len() == 9);
    }
    assert("empty"@ != "_getint"@) by {
        assert("empty"@.len() == 5);
        assert("_getint"@.len() == 7);
    }
    assert("empty"@ != "append"@) by {
        assert("empty"@.len() == 5);
        assert("append"@.len() == 6);
    }
    assert("empty"@ != "cons"@) by {
        assert("empty"@.len() == 5);
        assert("cons"@.len() == 4);
    }
    assert("empty"@ != "empty?"@) by {
        assert("empty"@.len() == 5);
        assert("empty?"@.len() == 6);
    }
    assert("empty"@ != "first"@) by {
        assert("empty"@[0] == 'e');
        assert("first"@[0] == 'f');
    }
    assert("empty"@ != "mod"@) by {
        assert("empty"@.len() == 5);
        assert("mod"@.len() == 3);
    }
    assert("empty"@ != "rest"@) by {
        assert("empty"@.len() == 5);
        assert("rest"@.len() == 4);
    }
    assert("empty?"@ != "*"@) by {
        assert("empty?"@.len() == 6);
        assert("*"@.len() == 1);
    }
    assert("empty?"@ != "+"@) by {
        assert("empty?"@.len() == 6);
        assert("+"@.len() == 1);
    }
    assert("empty?"@ != "-"@) by {
        assert("empty?"@.len() == 6);
        assert("-"@.len() == 1);
    }
    assert("empty?"@ != "/"@) by {
        assert("empty?"@.len() == 6);
        assert("/"@.len() == 1);
    }
    assert("empty?"@ != "="@) by {
        assert("empty?"@.len() == 6);
        assert("="@.len() == 1);
    }
    assert("empty?"@ != "append"@) by {
        assert("empty?"@[0] == 'e');
        assert("append"@[0] == 'a');
    }
    assert("empty?"@ != "cons"@) by {
        assert("empty?"@.len() == 6);
        assert("cons"@.len() == 4);
    }
    assert("empty?"@ != "empty"@) by {
        assert("empty?"@.len() == 6);
        assert("empty"@.len() == 5);
    }
    assert("empty?"@ != "mod"@) by {
        assert("empty?"@.len() == 6);
        assert("mod"@.len() == 3);
    }
    assert("first"@ != "*"@) by {
        assert("first"@.len() == 5);
        assert("*"@.len() == 1);
    }
    assert("first"@ != "+"@) by {
        assert("first"@.len() == 5);
        assert("+"@.len() == 1);
    }
    assert("first"@ != "-"@) by {
        assert("first"@.len() == 5);
        assert("-"@.len() == 1);
    }
    assert("first"@ != "/"@) by {
        assert("first"@.len() == 5);
        assert("/"@.len() == 1);
    }
    assert("first"@ != "="@) by {
        assert("first"@.len() == 5);
        assert("="@.len() == 1);
    }
    assert("first"@ != "append"@) by {
        assert("first"@.len() == 5);
        assert("append"@.len() == 6);
    }
    assert("first"@ != "cons"@) by {
        assert("first"@.len() == 5);
        assert("cons"@.len() == 4);
    }
    assert("first"@ != "empty"@) by {
        assert("first"@[0] == 'f');
        assert("empty"@[0] == 'e');
    }
    assert("first"@ != "mod"@) by {
        assert("first"@.len() == 5);
        assert("mod"@.len() == 3);
    }
    assert("if"@ != "*"@) by {
        assert("if"@.len() == 2);
        assert("*"@.len() == 1);
    }
    assert("if"@ != "+"@) by {
        assert("if"@.len() == 2);
        assert("+"@.len() == 1);
    }
    assert("if"@ != "-"@) by {
        assert("if"@.len() == 2);
        assert("-"@.len() == 1);
    }
    assert("if"@ != "/"@) by {
        assert("if"@.len() == 2);
        assert("/"@.len() == 1);
    }
    assert("if"@ != "="@) by {
        assert("if"@.len() == 2);
        assert("="@.len() == 1);
    }
    assert("if"@ != "_getfloat"@) by {
        assert("if"@.len() == 2);
        assert("_getfloat"@.len() == 9);
    }
    assert("if"@ != "_getint"@) by {
        assert("if"@.len() == 2);
        assert("_getint"@.len() == 7);
    }
    assert("if"@ != "append"@) by {
        assert("if"@.len() == 2);
        assert("append"@.len() == 6);
    }
    assert("if"@ != "cons"@) by {
        assert("if"@.len() == 2);
        assert("cons"@.len() == 4);
    }
    assert("if"@ != "empty"@) by {
        assert("if"@.len() == 2);
        assert("empty"@.len() == 5);
    }
    assert("if"@ != "empty?"@) by {
        assert("if"@.len() == 2);
        assert("empty?"@.len() == 6);
    }
    assert("if"@ != "first"@) by {
        assert("if"@.len() == 2);
        assert("first"@.len() == 5);
    }
    assert("if"@ != "list"@) by {
        assert("if"@.len() == 2);
        assert("list"@.len() == 4);
    }
    assert("if"@ != "mod"@) by {
        assert("if"@.len() == 2);
        assert("mod"@.len() == 3);
    }
    assert("if"@ != "rest"@) by {
        assert("if"@.len() == 2);
        assert("rest"@.len() == 4);
    }
    assert("list"@ != "*"@) by {
        assert("list"@.len() == 4);
        assert("*"@.len() == 1);
    }
    assert("list"@ != "+"@) by {
        assert("list"@.len() == 4);
        assert("+"@.len() == 1);
    }
    assert("list"@ != "-"@) by {
        assert("list"@.len() == 4);
        assert("-"@.len() == 1);
    }
    assert("list"@ != "/"@) by {
        assert("list"@.len() == 4);
        assert("/"@.len() == 1);
    }
    assert("list"@ != "="@) by {
        assert("list"@.len() == 4);
        assert("="@.len() == 1);
    }
    assert("list"@ != "_getfloat"@) by {
        assert("list"@.len() == 4);
        assert("_getfloat"@.len() == 9);
    }
    assert("list"@ != "_getint"@) by {
        assert("list"@.len() == 4);
        assert("_getint"@.len() == 7);
    }
    assert("list"@ != "append"@) by {
        assert("list"@.len() == 4);
        assert("append"@.len() == 6);
    }
    assert("list"@ != "cons"@) by {
        assert("list"@[0] == 'l');
        assert("cons"@[0] == 'c');
    }
    assert("list"@ != "empty"@) by {
        assert("list"@.len() == 4);
        assert("empty"@.len() == 5);
    }
    assert("list"@ != "empty?"@) by {
        assert("list"@.len() == 4);
        assert("empty?"@.len() == 6);
    }
    assert("list"@ != "first"@) by {
        assert("list"@.len() == 4);
        assert("first"@.len() == 5);
    }
    assert("list"@ != "mod"@) by {
        assert("list"@.len() == 4);
        assert("mod"@.len() == 3);
    }
    assert("list"@ != "rest"@) by {
        assert("list"@[0] == 'l');
        assert("rest"@[0] == 'r');
    }
    assert("rest"@ != "*"@) by {
        assert("rest"@.len() == 4);
        assert("*"@.len() == 1);
    }
    assert("rest"@ != "+"@) by {
        assert("rest"@.len() == 4);
        assert("+"@.len() == 1);
    }
    assert("rest"@ != "-"@) by {
        assert("rest"@.len() == 4);
        assert("-"@.len() == 1);
    }
    assert("rest"@ != "/"@) by {
        assert("rest"@.len() == 4);
        assert("/"@.len() == 1);
    }
    assert("rest"@ != "="@) by {
        assert("rest"@.len() == 4);
        assert("="@.len() == 1);
    }
    assert("rest"@ != "append"@) by {
        assert("rest"@.len() == 4);
        assert("append"@.len() == 6);
    }
    assert("rest"@ != "cons"@) by {
        assert("rest"@[0] == 'r');
        assert("cons"@[0] == 'c');
    }
    assert("rest"@ != "empty"@) by {
        assert("rest"@.len() == 4);
        assert("empty"@.len() == 5);
    }
    assert("rest"@ != "mod"@) by {
        assert("rest"@.len() == 4);
        assert("mod"@.len() == 3);
    }
}

} // verus!
