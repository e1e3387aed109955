//! The instruction stream: an append-only ordered sequence of target
//! instructions, the compiler's product. Labels are identified by their
//! index into the constant pool, so the naming scheme is a monotonic
//! counter; an external writer renders each instruction as assembly
//! text.

use vstd::prelude::*;

use crate::reg::Reg;

verus! {

/// An entry point of the runtime support library.
#[derive(Clone, Copy, PartialEq, Eq, Structural, Debug)]
pub enum RuntimeFn {
    /// Boxed-integer constructor.
    NewInt,
    /// Boxed-float constructor.
    NewFloat,
    Add,
    Sub,
    Mul,
    Div,
    Mod,
    /// The comparison operator; returns a raw truth value.
    Equal,
    /// The empty-list constructor.
    Empty,
    /// The emptiness test; returns a raw truth value.
    IsEmpty,
    First,
    Rest,
    Cons,
    Append,
    /// The variadic list constructor; its arguments travel on the stack.
    List,
    /// Unboxes an integer.
    GetInt,
    /// Unboxes a float.
    GetFloat,
}

/// One emitted target instruction. Stack adjustments are counted in
/// 8-byte words; a label is the index of the pool entry it was
/// allocated with.
#[derive(Clone, Copy, PartialEq, Eq, Structural, Debug)]
pub enum Instr {
    /// Register-to-register move.
    MovRR(Reg, Reg),
    /// Immediate load of an integer or raw truth value.
    MovImm(Reg, i64),
    /// Loads the argument count of a variadic call into the first
    /// argument register.
    SetArgCount(usize),
    Push(Reg),
    Pop(Reg),
    /// Grows the stack by the given number of 8-byte words.
    SubRsp(usize),
    /// Shrinks the stack by the given number of 8-byte words.
    AddRsp(usize),
    Call(RuntimeFn),
    /// Loads the float constant at the given pool label into the
    /// floating-point argument register.
    LoadFloat(usize),
    /// Compares a register against the truth value 1.
    CmpTrue(Reg),
    /// Jump when the preceding comparison matched.
    Je(usize),
    Jmp(usize),
    /// A branch target.
    Label(usize),
}

/// How many 8-byte words an instruction pushes onto the stack
/// (negative: pops off it).
pub open spec fn stack_delta(i: Instr) -> int {
    match i {
        Instr::Push(_) => 1,
        Instr::Pop(_) => -1,
        Instr::SubRsp(w) => w as int,
        Instr::AddRsp(w) => -(w as int),
        _ => 0,
    }
}

/// Total words pushed onto the stack by a sequence of instructions,
/// relative to frame entry.
pub open spec fn stack_words(s: Seq<Instr>) -> int
    decreases s.len(),
{
    if s.len() == 0 {
        0
    } else {
        stack_words(s.drop_last()) + stack_delta(s.last())
    }
}

/// At every call site, the words pushed since frame entry, together
/// with the call's own return-address push, leave the stack pointer
/// 16-byte aligned: the words pushed so far are odd in number.
pub open spec fn calls_aligned(s: Seq<Instr>) -> bool {
    forall|i: int|
        (0 <= i < s.len() && (s[i] matches Instr::Call(_))) ==> #[trigger] stack_words(s.take(i))
            % 2 == 1
}

/// Every label an instruction mentions was allocated in the pool.
pub open spec fn labels_bounded(s: Seq<Instr>, n: int) -> bool {
    forall|i: int| 0 <= i < s.len() ==> #[trigger] label_ok(s[i], n)
}

/// The labels of one instruction lie below the pool length `n`, and a
/// stack-growing instruction grows it by a single padding word.
pub open spec fn label_ok(i: Instr, n: int) -> bool {
    match i {
        Instr::LoadFloat(l) | Instr::Je(l) | Instr::Jmp(l) | Instr::Label(l) => l < n,
        Instr::SubRsp(w) => w == 1,
        _ => true,
    }
}

pub proof fn lemma_stack_words_push(s: Seq<Instr>, x: Instr)
    ensures
        stack_words(s.push(x)) == stack_words(s) + stack_delta(x),
{
    assert(s.push(x).drop_last() =~= s);
    assert(s.push(x).last() == x);
}

/// Appending an instruction keeps every earlier call site aligned; a
/// new call site is aligned when the words pushed so far are odd.
pub proof fn lemma_calls_aligned_push(s: Seq<Instr>, x: Instr)
    requires
        calls_aligned(s),
        x matches Instr::Call(_) ==> stack_words(s) % 2 == 1,
    ensures
        calls_aligned(s.push(x)),
{
    let t = s.push(x);
    assert forall|i: int| 0 <= i < t.len() && t[i] matches Instr::Call(_) implies #[trigger]
        stack_words(t.take(i)) % 2 == 1 by {
        assert(t.take(i) =~= s.take(i)) by {
            assert(forall|j: int| 0 <= j < i ==> t[j] == s.take(i)[j] || i > s.len());
        }
        if i < s.len() {
            assert(s[i] == t[i]);
        } else {
            assert(t.take(i) =~= s);
        }
    }
}

pub proof fn lemma_labels_bounded_push(s: Seq<Instr>, x: Instr, n: int)
    requires
        labels_bounded(s, n),
        label_ok(x, n),
    ensures
        labels_bounded(s.push(x), n),
{
    let t = s.push(x);
    assert forall|i: int| 0 <= i < t.len() implies #[trigger] label_ok(t[i], n) by {
        if i < s.len() {
            assert(label_ok(s[i], n));
        }
    }
}

/// A bound on mentioned labels still holds under a larger pool.
pub proof fn lemma_labels_bounded_mono(s: Seq<Instr>, n: int, m: int)
    requires
        labels_bounded(s, n),
        n <= m,
    ensures
        labels_bounded(s, m),
{
    assert forall|i: int| 0 <= i < s.len() implies #[trigger] label_ok(s[i], m) by {
        assert(label_ok(s[i], n));
    }
}

/// `pre` is an initial segment of `post`: what was once emitted is
/// never changed, only appended to. Kept closed so that callers treat
/// it through the lemmas below.
pub closed spec fn seq_extends<T>(post: Seq<T>, pre: Seq<T>) -> bool {
    pre.is_prefix_of(post)
}

pub proof fn lemma_extends_refl<T>(a: Seq<T>)
    ensures
        seq_extends(a, a),
{
    assert(a =~= a.subrange(0, a.len() as int));
}

pub proof fn lemma_extends_push<T>(a: Seq<T>, x: T)
    ensures
        seq_extends(a.push(x), a),
{
    assert(a =~= a.push(x).subrange(0, a.len() as int));
}

pub proof fn lemma_extends_trans<T>(c: Seq<T>, b: Seq<T>, a: Seq<T>)
    requires
        seq_extends(c, b),
        seq_extends(b, a),
    ensures
        seq_extends(c, a),
{
    assert forall|i: int| 0 <= i < a.len() implies a[i] == c.subrange(0, a.len() as int)[i] by {
        assert(a[i] == b.subrange(0, a.len() as int)[i]);
        assert(b[i] == c.subrange(0, b.len() as int)[i]);
    }
    assert(a =~= c.subrange(0, a.len() as int));
}

/// What a stream was extended from is no longer than it.
pub proof fn lemma_extends_len<T>(post: Seq<T>, pre: Seq<T>)
    requires
        seq_extends(post, pre),
    ensures
        pre.len() <= post.len(),
        pre.is_prefix_of(post),
{
}

/// An extended stream is its base followed by the appended segment.
pub proof fn lemma_extends_split<T>(post: Seq<T>, pre: Seq<T>)
    requires
        seq_extends(post, pre),
    ensures
        post == pre + post.subrange(pre.len() as int, post.len() as int),
{
    assert(post =~= pre + post.subrange(pre.len() as int, post.len() as int));
}

/// Sequence concatenation is associative.
pub proof fn lemma_add_assoc<T>(a: Seq<T>, b: Seq<T>, c: Seq<T>)
    ensures
        a + (b + c) == (a + b) + c,
{
    assert(a + (b + c) =~= (a + b) + c);
}

/// Membership in a sequence after appending one element.
pub proof fn lemma_seq_contains_push<T>(s: Seq<T>, x: T, q: T)
    ensures
        s.push(x).contains(q) == (s.contains(q) || q == x),
{
    if s.contains(q) {
        let i = choose|i: int| 0 <= i < s.len() && s[i] == q;
        assert(s.push(x)[i] == q);
    }
    if q == x {
        assert(s.push(x)[s.len() as int] == q);
    }
    if s.push(x).contains(q) {
        let i = choose|i: int| 0 <= i < s.push(x).len() && s.push(x)[i] == q;
        if i < s.len() {
            assert(s[i] == q);
        }
    }
}

/// An instruction stream whose stack-growing instructions are single
/// padding words pushes at most one word per instruction.
pub proof fn lemma_stack_words_le_len(s: Seq<Instr>, n: int)
    requires
        labels_bounded(s, n),
    ensures
        stack_words(s) <= s.len(),
    decreases s.len(),
{
    if s.len() > 0 {
        assert(label_ok(s[s.len() - 1], n));
        assert forall|i: int| 0 <= i < s.drop_last().len() implies #[trigger] label_ok(
            s.drop_last()[i],
            n,
        ) by {
            assert(label_ok(s[i], n));
        }
        lemma_stack_words_le_len(s.drop_last(), n);
        assert(stack_delta(s.last()) <= 1);
    }
}

} // verus!
