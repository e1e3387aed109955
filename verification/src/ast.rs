//! The abstract syntax tree handed in by the parser, read-only during
//! code generation. A float literal carries the IEEE-754 bit pattern of
//! its value, so that the pool of float constants can be deduplicated by
//! value without any floating-point arithmetic in the compiler itself.

use vstd::prelude::*;

verus! {

/// One node of the expression tree.
pub enum Node {
    /// An operator application, `(op p1 p2 ...)`.
    Expr(Expr),
    /// An identifier, or one of the boolean literals `#t` / `#f`.
    String(String),
    /// A float literal, as the bit pattern of its 64-bit IEEE-754 value.
    Float(u64),
    /// An integer literal.
    Integer(i64),
    /// Sequential local bindings, `(let* ((name expr) ...) body)`.
    LetExpr(Box<LetExpr>),
    /// A lambda form; recognised by the parser but not compiled.
    LambdaExpr(Box<LambdaExpr>),
}

/// An operator application: the operator name and its ordered parameters.
pub struct Expr {
    pub op: String,
    pub params: Vec<Node>,
}

/// Sequential local bindings and the body they scope over.
pub struct LetExpr {
    pub bindings: Vec<(String, Node)>,
    pub body: Node,
}

/// A lambda form: parameter names and a body. Unsupported by the code
/// generator, kept so the parser can hand over every surface form.
pub struct LambdaExpr {
    pub params: Vec<String>,
    pub body: Node,
}

impl Expr {
    pub fn new(op: String, params: Vec<Node>) -> (e: Expr)
        ensures
            e.op == op,
            e.params == params,
    {
        Expr { op, params }
    }
}

/// The height of a node: 1 more than the height of its tallest child.
pub open spec fn height(t: Node) -> nat
    decreases t,
{
    match t {
        Node::Expr(e) => 1 + params_height(e.params@),
        Node::LetExpr(l) => 1 + vstd::math::max(bindings_height(l.bindings@) as int, height(l.body) as int) as nat,
        Node::LambdaExpr(l) => 1 + height(l.body),
        _ => 0,
    }
}

/// The largest height among a sequence of nodes.
pub open spec fn params_height(s: Seq<Node>) -> nat
    decreases s,
{
    if s.len() == 0 {
        0
    } else {
        vstd::math::max(height(s.last()) as int, params_height(s.drop_last()) as int) as nat
    }
}

/// The largest height among the value nodes of a binding list.
pub open spec fn bindings_height(s: Seq<(String, Node)>) -> nat
    decreases s,
{
    if s.len() == 0 {
        0
    } else {
        vstd::math::max(height(s.last().1) as int, bindings_height(s.drop_last()) as int) as nat
    }
}

/// Every element of a sequence is no taller than the sequence's height bound.
pub proof fn lemma_params_height(s: Seq<Node>, i: int)
    requires
        0 <= i < s.len(),
    ensures
        height(s[i]) <= params_height(s),
    decreases s.len(),
{
    if i == s.len() - 1 {
        assert(s.last() == s[i]);
    } else {
        lemma_params_height(s.drop_last(), i);
        assert(s.drop_last()[i] == s[i]);
    }
}

/// Every binding's value node is no taller than the binding list's height bound.
pub proof fn lemma_bindings_height(s: Seq<(String, Node)>, i: int)
    requires
        0 <= i < s.len(),
    ensures
        height(s[i].1) <= bindings_height(s),
    decreases s.len(),
{
    if i == s.len() - 1 {
        assert(s.last() == s[i]);
    } else {
        lemma_bindings_height(s.drop_last(), i);
        assert(s.drop_last()[i] == s[i]);
    }
}

} // verus!
