//! The expression code generator and the calling-convention tracker.
//!
//! The compiler walks the tree, requests scratch registers from the
//! live set, delegates every runtime call through the tracker (which
//! saves live caller-saved registers and keeps the stack pointer
//! 16-byte aligned at each call), and appends to the instruction
//! stream. The live set, the binding environment and the stack parity
//! are scoped to one top-level compile invocation: they start empty and
//! return to their entry values when the invocation completes.

use vstd::prelude::*;

use crate::ast::{bindings_height, height, lemma_bindings_height, lemma_params_height,
    params_height, Expr, Node};
use crate::binding::{lemma_lookup_some, lemma_names_push, lookup_in, names_of, Bindings};
use crate::instr::{calls_aligned, label_ok, labels_bounded, lemma_calls_aligned_push,
    lemma_extends_len, lemma_extends_push, lemma_extends_refl, lemma_extends_trans,
    lemma_labels_bounded_mono, lemma_labels_bounded_push, lemma_seq_contains_push,
    lemma_add_assoc, lemma_extends_split, lemma_stack_words_le_len, lemma_stack_words_push,
    seq_extends, stack_delta, stack_words, Instr, RuntimeFn};
use crate::reg::{caller_saved, usable, lemma_usable_order, usable_list, usable_order, LiveSet,
    Reg};
use crate::validity::{arity_ok, check_bindings, check_expr, check_let, check_node, check_pair,
    check_rtl, check_triple, lemma_check_bindings_err, lemma_check_bindings_step,
    lemma_check_rtl_step, lemma_op_classes, root_error, supported_op, CompileError};

verus! {

/// Which caller-saved registers were live at a call site and moved to
/// the stack around the call.
#[derive(Clone, Copy)]
struct SavedRegs {
    rax: bool,
    rcx: bool,
    rdx: bool,
    rsi: bool,
    rdi: bool,
    r8: bool,
    r9: bool,
    r10: bool,
    r11: bool,
}

/// Whether `q` is among the registers saved at this call site.
spec fn saved_contains(s: SavedRegs, q: Reg) -> bool {
    ||| (s.rax && q == Reg::Rax)
    ||| (s.rcx && q == Reg::Rcx)
    ||| (s.rdx && q == Reg::Rdx)
    ||| (s.rsi && q == Reg::Rsi)
    ||| (s.rdi && q == Reg::Rdi)
    ||| (s.r8 && q == Reg::R8)
    ||| (s.r9 && q == Reg::R9)
    ||| (s.r10 && q == Reg::R10)
    ||| (s.r11 && q == Reg::R11)
}

/// One when the condition holds, else zero.
pub open spec fn b2i(b: bool) -> int {
    if b {
        1
    } else {
        0
    }
}

/// How many registers were saved at this call site.
spec fn saved_count(s: SavedRegs) -> int {
    b2i(s.rax) + saved_tail_count(s)
}

/// How many saved registers the reverse pop restores before the return
/// register.
spec fn saved_tail_count(s: SavedRegs) -> int {
    b2i(s.rcx) + b2i(s.rdx) + b2i(s.rsi) + b2i(s.rdi) + b2i(s.r8) + b2i(s.r9) + b2i(s.r10) + b2i(
        s.r11,
    )
}

/// A one-instruction sequence when the condition holds, else empty.
pub open spec fn opt1(b: bool, i: Instr) -> Seq<Instr> {
    if b {
        seq![i]
    } else {
        Seq::empty()
    }
}

/// The pushes the tracker emits before a call: every live caller-saved
/// register, in the fixed platform order.
pub open spec fn save_pushes(l: LiveSet) -> Seq<Instr> {
    (opt1(l.has(Reg::Rax), Instr::Push(Reg::Rax)) + opt1(l.has(Reg::Rcx), Instr::Push(Reg::Rcx))
        + opt1(l.has(Reg::Rdx), Instr::Push(Reg::Rdx))) + (opt1(
        l.has(Reg::Rsi),
        Instr::Push(Reg::Rsi),
    ) + opt1(l.has(Reg::Rdi), Instr::Push(Reg::Rdi)) + opt1(l.has(Reg::R8), Instr::Push(Reg::R8)))
        + (opt1(l.has(Reg::R9), Instr::Push(Reg::R9)) + opt1(
        l.has(Reg::R10),
        Instr::Push(Reg::R10),
    ) + opt1(l.has(Reg::R11), Instr::Push(Reg::R11)))
}

/// How many registers the tracker pushes for this live set.
pub open spec fn saved_total(l: LiveSet) -> int {
    b2i(l.has(Reg::Rax)) + b2i(l.has(Reg::Rcx)) + b2i(l.has(Reg::Rdx)) + b2i(l.has(Reg::Rsi))
        + b2i(l.has(Reg::Rdi)) + b2i(l.has(Reg::R8)) + b2i(l.has(Reg::R9)) + b2i(l.has(Reg::R10))
        + b2i(l.has(Reg::R11))
}

/// The call itself, padded by one word when the words pushed so far
/// would leave the call site misaligned.
pub open spec fn aligned_call(parity: int, f: RuntimeFn) -> Seq<Instr> {
    if parity % 2 == 0 {
        seq![Instr::SubRsp(1), Instr::Call(f), Instr::AddRsp(1)]
    } else {
        seq![Instr::Call(f)]
    }
}

/// The pops the tracker emits after a call: the saved registers in
/// reverse push order, the return register excepted.
pub open spec fn restore_pops(l: LiveSet) -> Seq<Instr> {
    (opt1(l.has(Reg::R11), Instr::Pop(Reg::R11)) + opt1(l.has(Reg::R10), Instr::Pop(Reg::R10))
        + opt1(l.has(Reg::R9), Instr::Pop(Reg::R9)) + opt1(l.has(Reg::R8), Instr::Pop(Reg::R8)))
        + (opt1(l.has(Reg::Rdi), Instr::Pop(Reg::Rdi)) + opt1(
        l.has(Reg::Rsi),
        Instr::Pop(Reg::Rsi),
    ) + opt1(l.has(Reg::Rdx), Instr::Pop(Reg::Rdx)) + opt1(l.has(Reg::Rcx), Instr::Pop(Reg::Rcx)))
}

/// When the return register was saved, the call's result first moves
/// to the fresh register `out`, and only then is the original value
/// popped back.
pub open spec fn rescue_moves(l: LiveSet, out: Reg) -> Seq<Instr> {
    if l.has(Reg::Rax) {
        seq![Instr::MovRR(out, Reg::Rax), Instr::Pop(Reg::Rax)]
    } else {
        Seq::empty()
    }
}

/// Everything the tracker emits for one runtime call, as a function of
/// the live set and stack parity at the call: saves, the padded call,
/// the reverse restores, and the result rescue.
pub open spec fn tracker_suffix(l: LiveSet, parity: int, f: RuntimeFn, out: Reg) -> Seq<Instr> {
    save_pushes(l) + aligned_call(parity + saved_total(l), f) + restore_pops(l) + rescue_moves(
        l,
        out,
    )
}

/// The emitted shape of a two-argument runtime call: two fresh,
/// distinct scratch registers receive the arguments (each produced by
/// some generated segment), move into the argument registers only
/// immediately before the call, and the tracker wraps the call itself.
pub open spec fn two_param_shape(
    pre: Seq<Instr>,
    post: Seq<Instr>,
    l: LiveSet,
    parity: int,
    f: RuntimeFn,
    r: Reg,
) -> bool {
    exists|s1: Seq<Instr>, s2: Seq<Instr>, r1: Reg, r2: Reg|
        {
            &&& usable(r1) && !l.has(r1)
            &&& usable(r2) && !l.has(r2) && r2 != r1
            &&& post == #[trigger] (pre + s1 + s2 + seq![Instr::MovRR(Reg::Rdi, r1)] + seq![
                Instr::MovRR(Reg::Rsi, r2),
            ] + tracker_suffix(l, parity, f, r))
        }
}

/// The emitted shape of a conditional: the condition's value in the
/// result register, a compare against the truth value, branches to two
/// freshly allocated labels, both branch bodies generating into that
/// same register, and a join label — with the three labels consecutive
/// entries of the pool, so they are pairwise distinct.
pub open spec fn cmp_branch_seq(tgt: Reg, tl: usize, fl: usize) -> Seq<Instr> {
    seq![Instr::CmpTrue(tgt), Instr::Je(tl), Instr::Jmp(fl), Instr::Label(tl)]
}

pub open spec fn join_branch_seq(dl: usize, fl: usize) -> Seq<Instr> {
    seq![Instr::Jmp(dl), Instr::Label(fl)]
}

pub open spec fn join_label_seq(dl: usize) -> Seq<Instr> {
    seq![Instr::Label(dl)]
}

pub open spec fn branch_shape(pre: Seq<Instr>, post: Seq<Instr>, pool_len: int, tgt: Reg) -> bool {
    exists|tl: usize, fl: usize, dl: usize, sc: Seq<Instr>, s1: Seq<Instr>, s2: Seq<Instr>|
        {
            &&& fl == tl + 1
            &&& dl == tl + 2
            &&& dl < pool_len
            &&& post == #[trigger] (pre + sc + cmp_branch_seq(tgt, tl, fl) + s1 + join_branch_seq(
                dl,
                fl,
            ) + s2 + join_label_seq(dl))
        }
}

/// The count move, the call, and the release of the pushed words of a
/// variadic call.
pub open spec fn count_call_seq(n: usize, f: RuntimeFn, w: usize) -> Seq<Instr> {
    seq![Instr::SetArgCount(n), Instr::Call(f), Instr::AddRsp(w)]
}

/// The emitted shape of the variadic list call: the tracker's saves,
/// an optional padding word, the argument-evaluation segment (each
/// argument pushed as it is produced), the count in the first argument
/// register, the call, the release of the pushed words, and the
/// tracker's restores.
pub open spec fn variadic_shape(
    pre: Seq<Instr>,
    post: Seq<Instr>,
    l: LiveSet,
    n: usize,
    f: RuntimeFn,
    r: Reg,
) -> bool {
    exists|args: Seq<Instr>, pad: bool, w: usize|
        {
            &&& w == n + b2i(pad)
            &&& post == #[trigger] (pre + save_pushes(l) + opt1(pad, Instr::SubRsp(1)) + args
                + count_call_seq(n, f, w) + restore_pops(l) + rescue_moves(l, r))
        }
}

/// The flag-indexed forms of the save and restore sequences, used to
/// stitch the tracker's pieces together.
spec fn pushes_of(s: SavedRegs) -> Seq<Instr> {
    (opt1(s.rax, Instr::Push(Reg::Rax)) + opt1(s.rcx, Instr::Push(Reg::Rcx)) + opt1(
        s.rdx,
        Instr::Push(Reg::Rdx),
    )) + (opt1(s.rsi, Instr::Push(Reg::Rsi)) + opt1(s.rdi, Instr::Push(Reg::Rdi)) + opt1(
        s.r8,
        Instr::Push(Reg::R8),
    )) + (opt1(s.r9, Instr::Push(Reg::R9)) + opt1(s.r10, Instr::Push(Reg::R10)) + opt1(
        s.r11,
        Instr::Push(Reg::R11),
    ))
}

spec fn pops_of(s: SavedRegs) -> Seq<Instr> {
    (opt1(s.r11, Instr::Pop(Reg::R11)) + opt1(s.r10, Instr::Pop(Reg::R10)) + opt1(
        s.r9,
        Instr::Pop(Reg::R9),
    ) + opt1(s.r8, Instr::Pop(Reg::R8))) + (opt1(s.rdi, Instr::Pop(Reg::Rdi)) + opt1(
        s.rsi,
        Instr::Pop(Reg::Rsi),
    ) + opt1(s.rdx, Instr::Pop(Reg::Rdx)) + opt1(s.rcx, Instr::Pop(Reg::Rcx)))
}

spec fn rescue_of(s: SavedRegs, out: Reg) -> Seq<Instr> {
    if s.rax {
        seq![Instr::MovRR(out, Reg::Rax), Instr::Pop(Reg::Rax)]
    } else {
        Seq::empty()
    }
}

/// The quantified half of the compiler's well-formedness: the parity
/// counter agrees with the emitted stream, every call site emitted so
/// far was aligned, every label mentioned was allocated in the pool,
/// and the pool stays value-deduplicated. Kept opaque so that callers
/// hand it along without unfolding it.
#[verifier::opaque]
spec fn stream_ok(lines: Seq<Instr>, consts: Seq<Option<u64>>, parity: int) -> bool {
    &&& parity == stack_words(lines)
    &&& calls_aligned(lines)
    &&& labels_bounded(lines, consts.len() as int)
    &&& pool_distinct(consts)
}

/// Composes the three save steps of a call site into one statement
/// about the whole saved set.
proof fn lemma_save_compose(
    live0: LiveSet,
    l1: LiveSet,
    l2: LiveSet,
    l3: LiveSet,
    f1: (bool, bool, bool),
    f2: (bool, bool, bool),
    f3: (bool, bool, bool),
    flags: SavedRegs,
)
    requires
        forall|q: Reg|
            #[trigger] l1.has(q) == (live0.has(q) && !((f1.0 && q == Reg::Rax) || (f1.1 && q
                == Reg::Rcx) || (f1.2 && q == Reg::Rdx))),
        forall|q: Reg|
            #[trigger] l2.has(q) == (l1.has(q) && !((f2.0 && q == Reg::Rsi) || (f2.1 && q
                == Reg::Rdi) || (f2.2 && q == Reg::R8))),
        forall|q: Reg|
            #[trigger] l3.has(q) == (l2.has(q) && !((f3.0 && q == Reg::R9) || (f3.1 && q
                == Reg::R10) || (f3.2 && q == Reg::R11))),
        flags == (SavedRegs {
            rax: f1.0,
            rcx: f1.1,
            rdx: f1.2,
            rsi: f2.0,
            rdi: f2.1,
            r8: f2.2,
            r9: f3.0,
            r10: f3.1,
            r11: f3.2,
        }),
        f1.0 == live0.has(Reg::Rax),
        f1.1 == live0.has(Reg::Rcx),
        f1.2 == live0.has(Reg::Rdx),
        f2.0 == l1.has(Reg::Rsi),
        f2.1 == l1.has(Reg::Rdi),
        f2.2 == l1.has(Reg::R8),
        f3.0 == l2.has(Reg::R9),
        f3.1 == l2.has(Reg::R10),
        f3.2 == l2.has(Reg::R11),
    ensures
        forall|q: Reg|
            #[trigger] l3.has(q) == (live0.has(q) && !saved_contains(flags, q)),
        forall|q: Reg| #[trigger] saved_contains(flags, q) ==> live0.has(q),
{
    assert forall|q: Reg| #[trigger] l3.has(q) == (live0.has(q) && !saved_contains(flags, q)) by {
        assert(l2.has(q) == (l1.has(q) && !((f2.0 && q == Reg::Rsi) || (f2.1 && q == Reg::Rdi) || (
        f2.2 && q == Reg::R8))));
        assert(l1.has(q) == (live0.has(q) && !((f1.0 && q == Reg::Rax) || (f1.1 && q == Reg::Rcx)
            || (f1.2 && q == Reg::Rdx))));
    }
    assert forall|q: Reg| #[trigger] saved_contains(flags, q) implies live0.has(q) by {
        if (f2.0 && q == Reg::Rsi) || (f2.1 && q == Reg::Rdi) || (f2.2 && q == Reg::R8) {
            assert(l1.has(q) == live0.has(q));
        }
        if (f3.0 && q == Reg::R9) || (f3.1 && q == Reg::R10) || (f3.2 && q == Reg::R11) {
            assert(l2.has(q) == l1.has(q));
            assert(l1.has(q) == live0.has(q));
        }
    }
}

/// The flag-indexed save and restore sequences agree with the
/// live-set-indexed ones once the flags record exactly the live
/// caller-saved registers.
proof fn lemma_flags_seqs(flags: SavedRegs, l: LiveSet, o: Reg)
    requires
        flags.rax == l.has(Reg::Rax),
        flags.rcx == l.has(Reg::Rcx),
        flags.rdx == l.has(Reg::Rdx),
        flags.rsi == l.has(Reg::Rsi),
        flags.rdi == l.has(Reg::Rdi),
        flags.r8 == l.has(Reg::R8),
        flags.r9 == l.has(Reg::R9),
        flags.r10 == l.has(Reg::R10),
        flags.r11 == l.has(Reg::R11),
    ensures
        pushes_of(flags) == save_pushes(l),
        pops_of(flags) == restore_pops(l),
        rescue_of(flags, o) == rescue_moves(l, o),
        saved_count(flags) == saved_total(l),
{
}

/// The tracker's emitted suffix depends only on which registers are
/// live, not on the live set's representation.
proof fn lemma_tracker_congruence(l1: LiveSet, l2: LiveSet, parity: int, f: RuntimeFn, o: Reg)
    requires
        forall|q: Reg| #[trigger] l1.has(q) == l2.has(q),
    ensures
        tracker_suffix(l1, parity, f, o) == tracker_suffix(l2, parity, f, o),
{
    assert(l1.has(Reg::Rax) == l2.has(Reg::Rax));
    assert(l1.has(Reg::Rcx) == l2.has(Reg::Rcx));
    assert(l1.has(Reg::Rdx) == l2.has(Reg::Rdx));
    assert(l1.has(Reg::Rsi) == l2.has(Reg::Rsi));
    assert(l1.has(Reg::Rdi) == l2.has(Reg::Rdi));
    assert(l1.has(Reg::R8) == l2.has(Reg::R8));
    assert(l1.has(Reg::R9) == l2.has(Reg::R9));
    assert(l1.has(Reg::R10) == l2.has(Reg::R10));
    assert(l1.has(Reg::R11) == l2.has(Reg::R11));
}

/// Reassociates the tracker's four emitted pieces into one suffix.
proof fn lemma_tracker_assemble(
    l0: Seq<Instr>,
    l: LiveSet,
    parity: int,
    f: RuntimeFn,
    o: Reg,
    fin: Seq<Instr>,
)
    requires
        fin == ((l0 + save_pushes(l)) + aligned_call(parity + saved_total(l), f) + restore_pops(l))
            + rescue_moves(l, o),
    ensures
        fin == l0 + tracker_suffix(l, parity, f, o),
{
    lemma_add_assoc(l0, save_pushes(l), aligned_call(parity + saved_total(l), f));
    lemma_add_assoc(
        l0,
        save_pushes(l) + aligned_call(parity + saved_total(l), f),
        restore_pops(l),
    );
    lemma_add_assoc(
        l0,
        save_pushes(l) + aligned_call(parity + saved_total(l), f) + restore_pops(l),
        rescue_moves(l, o),
    );
}

/// The state of one compilation: the instruction stream produced so
/// far, the live set, the binding environment, the constant pool, and
/// the count of 8-byte words pushed since frame entry.
pub struct Compiler {
    lines: Vec<Instr>,
    preserve: LiveSet,
    bindings: Bindings,
    consts: Vec<Option<u64>>,
    rsp_parity: usize,
}

impl Compiler {
    /// The instruction stream emitted so far.
    pub closed spec fn stream(self) -> Seq<Instr> {
        self.lines@
    }

    /// The constant pool: one entry per allocated label, holding the
    /// bit pattern of a float constant, or nothing for a branch label.
    pub closed spec fn pool(self) -> Seq<Option<u64>> {
        self.consts@
    }

    /// Whether `r` is in the live set.
    pub closed spec fn live(self, r: Reg) -> bool {
        self.preserve.has(r)
    }

    /// The binding environment, oldest entry first.
    pub closed spec fn env(self) -> Seq<(String, Reg)> {
        self.bindings.rep()
    }

    /// The names in scope, oldest first.
    pub open spec fn names(self) -> Seq<Seq<char>> {
        names_of(self.env())
    }

    /// Words pushed onto the stack since frame entry.
    pub closed spec fn parity(self) -> int {
        self.rsp_parity as int
    }

    /// Internal consistency: the parity counter agrees with the
    /// emitted stream, every call site emitted so far was aligned, and
    /// every label mentioned was allocated in the pool.
    pub closed spec fn wf(self) -> bool {
        &&& self.preserve.wf()
        &&& stream_ok(self.lines@, self.consts@, self.rsp_parity as int)
    }

    /// A compiler at frame entry: nothing emitted, nothing live,
    /// nothing bound, the stack at its entry level.
    pub open spec fn ready(self) -> bool {
        &&& self.wf()
        &&& self.stream().len() == 0
        &&& self.parity() == 0
        &&& (forall|r: Reg| !self.live(r))
        &&& self.env().len() == 0
    }

    pub fn new() -> (c: Compiler)
        ensures
            c.ready(),
            c.pool() == Seq::<Option<u64>>::empty(),
    {
        let c = Compiler {
            lines: Vec::new(),
            preserve: LiveSet::new(),
            bindings: Bindings::new(),
            consts: Vec::new(),
            rsp_parity: 0,
        };
        proof {
            reveal(stream_ok);
        }
        c
    }

    /// A compiler resuming with the constant pool accumulated by
    /// earlier invocations, so labels continue past the ones already
    /// given out and float constants stay deduplicated across units.
    pub fn with_consts(consts: Vec<Option<u64>>) -> (c: Compiler)
        requires
            pool_distinct(consts@),
        ensures
            c.ready(),
            c.pool() == consts@,
    {
        let c = Compiler {
            lines: Vec::new(),
            preserve: LiveSet::new(),
            bindings: Bindings::new(),
            consts,
            rsp_parity: 0,
        };
        proof {
            reveal(stream_ok);
        }
        c
    }

    /// Appends one instruction, touching nothing else.
    fn l(&mut self, i: Instr)
        ensures
            final(self).lines@ == old(self).lines@.push(i),
            final(self).preserve == old(self).preserve,
            final(self).bindings == old(self).bindings,
            final(self).consts == old(self).consts,
            final(self).rsp_parity == old(self).rsp_parity,
    {
        self.lines.push(i);
    }

    /// Emits an instruction that neither moves the stack pointer nor
    /// transfers control to the runtime.
    fn emit_plain(&mut self, i: Instr)
        requires
            old(self).wf(),
            stack_delta(i) == 0,
            !(i matches Instr::Call(_)),
            label_ok(i, old(self).consts@.len() as int),
        ensures
            final(self).wf(),
            seq_extends(final(self).lines@, old(self).lines@),
            seq_extends(final(self).consts@, old(self).consts@),
            final(self).lines@ == old(self).lines@.push(i),
            final(self).preserve == old(self).preserve,
            final(self).bindings == old(self).bindings,
            final(self).consts == old(self).consts,
            final(self).rsp_parity == old(self).rsp_parity,
    {
        proof {
            reveal(stream_ok);
            lemma_extends_push(self.lines@, i);
            lemma_extends_refl(self.consts@);
            lemma_stack_words_push(self.lines@, i);
            lemma_calls_aligned_push(self.lines@, i);
            lemma_labels_bounded_push(self.lines@, i, self.consts@.len() as int);
        }
        self.l(i);
    }

    /// Emits a push, counting the pushed word.
    fn emit_push_reg(&mut self, r: Reg)
        requires
            old(self).wf(),
        ensures
            final(self).wf(),
            seq_extends(final(self).lines@, old(self).lines@),
            seq_extends(final(self).consts@, old(self).consts@),
            final(self).lines@ == old(self).lines@.push(Instr::Push(r)),
            final(self).preserve == old(self).preserve,
            final(self).bindings == old(self).bindings,
            final(self).consts == old(self).consts,
            final(self).rsp_parity == old(self).rsp_parity + 1,
    {
        proof {
            reveal(stream_ok);
            lemma_extends_push(self.lines@, Instr::Push(r));
            lemma_extends_refl(self.consts@);
            lemma_stack_words_le_len(self.lines@, self.consts@.len() as int);
            lemma_stack_words_push(self.lines@, Instr::Push(r));
            lemma_calls_aligned_push(self.lines@, Instr::Push(r));
            lemma_labels_bounded_push(self.lines@, Instr::Push(r), self.consts@.len() as int);
        }
        self.l(Instr::Push(r));
        let n = self.lines.len();
        proof {
            assert(self.rsp_parity < n);
        }
        self.rsp_parity = self.rsp_parity + 1;
    }

    /// Emits a pop, uncounting the popped word.
    fn emit_pop_reg(&mut self, r: Reg)
        requires
            old(self).wf(),
            old(self).rsp_parity >= 1,
        ensures
            final(self).wf(),
            seq_extends(final(self).lines@, old(self).lines@),
            seq_extends(final(self).consts@, old(self).consts@),
            final(self).lines@ == old(self).lines@.push(Instr::Pop(r)),
            final(self).preserve == old(self).preserve,
            final(self).bindings == old(self).bindings,
            final(self).consts == old(self).consts,
            final(self).rsp_parity == old(self).rsp_parity - 1,
    {
        proof {
            reveal(stream_ok);
            lemma_extends_push(self.lines@, Instr::Pop(r));
            lemma_extends_refl(self.consts@);
            lemma_stack_words_push(self.lines@, Instr::Pop(r));
            lemma_calls_aligned_push(self.lines@, Instr::Pop(r));
            lemma_labels_bounded_push(self.lines@, Instr::Pop(r), self.consts@.len() as int);
        }
        self.l(Instr::Pop(r));
        self.rsp_parity = self.rsp_parity - 1;
    }

    /// Emits one padding word of stack growth.
    fn emit_pad(&mut self)
        requires
            old(self).wf(),
        ensures
            final(self).wf(),
            seq_extends(final(self).lines@, old(self).lines@),
            seq_extends(final(self).consts@, old(self).consts@),
            final(self).lines@ == old(self).lines@.push(Instr::SubRsp(1)),
            final(self).preserve == old(self).preserve,
            final(self).bindings == old(self).bindings,
            final(self).consts == old(self).consts,
            final(self).rsp_parity == old(self).rsp_parity + 1,
    {
        proof {
            reveal(stream_ok);
            lemma_extends_push(self.lines@, Instr::SubRsp(1));
            lemma_extends_refl(self.consts@);
            lemma_stack_words_le_len(self.lines@, self.consts@.len() as int);
            lemma_stack_words_push(self.lines@, Instr::SubRsp(1));
            lemma_calls_aligned_push(self.lines@, Instr::SubRsp(1));
            lemma_labels_bounded_push(self.lines@, Instr::SubRsp(1), self.consts@.len() as int);
        }
        self.l(Instr::SubRsp(1));
        let n = self.lines.len();
        proof {
            assert(self.rsp_parity < n);
        }
        self.rsp_parity = self.rsp_parity + 1;
    }

    /// Shrinks the stack by `w` words.
    fn emit_addrsp(&mut self, w: usize)
        requires
            old(self).wf(),
            w <= old(self).rsp_parity,
        ensures
            final(self).wf(),
            seq_extends(final(self).lines@, old(self).lines@),
            seq_extends(final(self).consts@, old(self).consts@),
            final(self).lines@ == old(self).lines@.push(Instr::AddRsp(w)),
            final(self).preserve == old(self).preserve,
            final(self).bindings == old(self).bindings,
            final(self).consts == old(self).consts,
            final(self).rsp_parity == old(self).rsp_parity - w,
    {
        proof {
            reveal(stream_ok);
            lemma_extends_push(self.lines@, Instr::AddRsp(w));
            lemma_extends_refl(self.consts@);
            lemma_stack_words_push(self.lines@, Instr::AddRsp(w));
            lemma_calls_aligned_push(self.lines@, Instr::AddRsp(w));
            lemma_labels_bounded_push(self.lines@, Instr::AddRsp(w), self.consts@.len() as int);
        }
        self.l(Instr::AddRsp(w));
        self.rsp_parity = self.rsp_parity - w;
    }

    /// Emits the transfer to a runtime entry point. The words pushed so
    /// far must be odd, so that the call's own return-address push
    /// leaves the stack pointer 16-byte aligned.
    fn emit_call(&mut self, f: RuntimeFn)
        requires
            old(self).wf(),
            old(self).rsp_parity % 2 == 1,
        ensures
            final(self).wf(),
            seq_extends(final(self).lines@, old(self).lines@),
            seq_extends(final(self).consts@, old(self).consts@),
            final(self).lines@ == old(self).lines@.push(Instr::Call(f)),
            final(self).preserve == old(self).preserve,
            final(self).bindings == old(self).bindings,
            final(self).consts == old(self).consts,
            final(self).rsp_parity == old(self).rsp_parity,
    {
        proof {
            reveal(stream_ok);
            lemma_extends_push(self.lines@, Instr::Call(f));
            lemma_extends_refl(self.consts@);
            lemma_stack_words_push(self.lines@, Instr::Call(f));
            lemma_calls_aligned_push(self.lines@, Instr::Call(f));
            lemma_labels_bounded_push(self.lines@, Instr::Call(f), self.consts@.len() as int);
        }
        self.l(Instr::Call(f));
    }

    /// Allocates the next label of the monotonic scheme: the new pool
    /// entry's index. A branch label stores no value.
    fn alloc_label(&mut self, v: Option<u64>) -> (id: usize)
        requires
            old(self).wf(),
            v matches Some(b) ==> !pool_has(old(self).consts@, b),
        ensures
            final(self).wf(),
            seq_extends(final(self).lines@, old(self).lines@),
            seq_extends(final(self).consts@, old(self).consts@),
            final(self).consts@ == old(self).consts@.push(v),
            id == old(self).consts@.len(),
            final(self).lines == old(self).lines,
            final(self).preserve == old(self).preserve,
            final(self).bindings == old(self).bindings,
            final(self).rsp_parity == old(self).rsp_parity,
    {
        let id = self.consts.len();
        self.consts.push(v);
        proof {
            reveal(stream_ok);
            lemma_extends_refl(self.lines@);
            lemma_extends_push(old(self).consts@, v);
            lemma_labels_bounded_mono(
                self.lines@,
                old(self).consts@.len() as int,
                self.consts@.len() as int,
            );
            assert forall|i: int, j: int|
                0 <= i < j < self.consts@.len() && (#[trigger] self.consts@[i]) is Some implies
                self.consts@[i] != #[trigger] self.consts@[j] by {
                if j < self.consts@.len() - 1 {
                    assert(old(self).consts@[i] is Some);
                } else {
                    if self.consts@[i] == v {
                        let b = v->0;
                        assert(old(self).consts@[i] == Some(b));
                        assert(pool_has(old(self).consts@, b));
                    }
                }
            }
        }
        id
    }

    /// Returns a register absent from the live set: any free register
    /// is acceptable, taken in the deterministic inventory order. Fails
    /// with resource exhaustion when none exists — there is no spill
    /// fallback.
    fn next_reg(&self) -> (res: Result<Reg, CompileError>)
        requires
            self.preserve.wf(),
        ensures
            res matches Ok(r) ==> usable(r) && !self.live(r),
            res matches Err(e) ==> {
                &&& e == CompileError::ResourceExhaustionError
                &&& forall|q: Reg| usable(q) ==> self.live(q)
            },
    {
        let order = usable_list();
        let n = order.len();
        let mut i: usize = 0;
        while i < n
            invariant
                n == order@.len(),
                order@ == usable_order(),
                i <= n,
                self.preserve.wf(),
                forall|j: int| 0 <= j < i ==> self.preserve.has(#[trigger] order@[j]),
            decreases n - i,
        {
            let r = order[i];
            if !self.preserve.contains(r) {
                proof {
                    lemma_usable_order(r);
                }
                return Ok(r);
            }
            i = i + 1;
        }
        proof {
            assert forall|q: Reg| usable(q) implies self.live(q) by {
                lemma_usable_order(q);
                let j = choose|j: int| 0 <= j < usable_order().len() && usable_order()[j] == q;
                assert(self.preserve.has(order@[j]));
            }
        }
        Err(CompileError::ResourceExhaustionError)
    }

    /// Saves one caller-saved register around a call if it is live: its
    /// value moves to the stack and it leaves the live set.
    fn save_one(&mut self, r: Reg) -> (saved: bool)
        requires
            old(self).wf(),
        ensures
            final(self).wf(),
            saved == old(self).preserve.has(r),
            final(self).rsp_parity == old(self).rsp_parity + (if saved { 1int } else { 0int }),
            forall|q: Reg|
                #[trigger] final(self).preserve.has(q) == (old(self).preserve.has(q) && !(saved
                    && q == r)),
            seq_extends(final(self).lines@, old(self).lines@),
            final(self).lines@ == old(self).lines@ + opt1(saved, Instr::Push(r)),
            final(self).bindings == old(self).bindings,
            final(self).consts == old(self).consts,
    {
        if self.preserve.contains(r) {
            self.emit_push_reg(r);
            self.preserve.remove(r);
            proof {
                lemma_extends_push(old(self).lines@, Instr::Push(r));
                assert(self.lines@ =~= old(self).lines@ + opt1(true, Instr::Push(r)));
            }
            true
        } else {
            proof {
                lemma_extends_refl(old(self).lines@);
                assert(self.lines@ =~= old(self).lines@ + opt1(false, Instr::Push(r)));
            }
            false
        }
    }

    /// Restores one register saved around a call: its value returns
    /// from the stack and it rejoins the live set.
    fn restore_one(&mut self, r: Reg, saved: bool)
        requires
            old(self).wf(),
            saved ==> old(self).rsp_parity >= 1,
        ensures
            final(self).wf(),
            final(self).rsp_parity == old(self).rsp_parity - (if saved { 1int } else { 0int }),
            forall|q: Reg|
                #[trigger] final(self).preserve.has(q) == (old(self).preserve.has(q) || (saved
                    && q == r)),
            seq_extends(final(self).lines@, old(self).lines@),
            final(self).lines@ == old(self).lines@ + opt1(saved, Instr::Pop(r)),
            final(self).bindings == old(self).bindings,
            final(self).consts == old(self).consts,
    {
        if saved {
            self.emit_pop_reg(r);
            self.preserve.insert(r);
            proof {
                lemma_extends_push(old(self).lines@, Instr::Pop(r));
                assert(self.lines@ =~= old(self).lines@ + opt1(true, Instr::Pop(r)));
            }
        } else {
            proof {
                lemma_extends_refl(old(self).lines@);
                assert(self.lines@ =~= old(self).lines@ + opt1(false, Instr::Pop(r)));
            }
        }
    }

    /// Saves three caller-saved registers in order, each only if live.
    fn save3(&mut self, a: Reg, b: Reg, c: Reg) -> (f: (bool, bool, bool))
        requires
            old(self).wf(),
            a != b,
            a != c,
            b != c,
        ensures
            final(self).wf(),
            seq_extends(final(self).lines@, old(self).lines@),
            final(self).bindings == old(self).bindings,
            final(self).consts == old(self).consts,
            f.0 == old(self).preserve.has(a),
            f.1 == old(self).preserve.has(b),
            f.2 == old(self).preserve.has(c),
            final(self).lines@ == old(self).lines@ + (opt1(f.0, Instr::Push(a)) + opt1(
                f.1,
                Instr::Push(b),
            ) + opt1(f.2, Instr::Push(c))),
            final(self).rsp_parity == old(self).rsp_parity + b2i(f.0) + b2i(f.1) + b2i(f.2),
            forall|q: Reg|
                #[trigger] final(self).preserve.has(q) == (old(self).preserve.has(q) && !((f.0
                    && q == a) || (f.1 && q == b) || (f.2 && q == c))),
    {
        let ghost l0 = self.lines@;
        let s1 = self.save_one(a);
        let ghost p1 = self.lines@;
        let s2 = self.save_one(b);
        proof {
            lemma_extends_trans(self.lines@, p1, l0);
        }
        let ghost p2 = self.lines@;
        let s3 = self.save_one(c);
        proof {
            lemma_extends_trans(self.lines@, p2, l0);
            lemma_add_assoc(l0, opt1(s1, Instr::Push(a)), opt1(s2, Instr::Push(b)));
            lemma_add_assoc(
                l0,
                opt1(s1, Instr::Push(a)) + opt1(s2, Instr::Push(b)),
                opt1(s3, Instr::Push(c)),
            );
        }
        (s1, s2, s3)
    }

    /// Restores four saved registers, in the order given, which is the
    /// reverse of the order they were pushed in.
    fn restore4(&mut self, a: Reg, b: Reg, c: Reg, d: Reg, fa: bool, fb: bool, fc: bool, fd: bool)
        requires
            old(self).wf(),
            old(self).rsp_parity >= b2i(fa) + b2i(fb) + b2i(fc) + b2i(fd),
            a != b,
            a != c,
            a != d,
            b != c,
            b != d,
            c != d,
        ensures
            final(self).wf(),
            seq_extends(final(self).lines@, old(self).lines@),
            final(self).bindings == old(self).bindings,
            final(self).consts == old(self).consts,
            final(self).lines@ == old(self).lines@ + (opt1(fa, Instr::Pop(a)) + opt1(
                fb,
                Instr::Pop(b),
            ) + opt1(fc, Instr::Pop(c)) + opt1(fd, Instr::Pop(d))),
            final(self).rsp_parity == old(self).rsp_parity - b2i(fa) - b2i(fb) - b2i(fc) - b2i(fd),
            forall|q: Reg|
                #[trigger] final(self).preserve.has(q) == (old(self).preserve.has(q) || ((fa && q
                    == a) || (fb && q == b) || (fc && q == c) || (fd && q == d))),
    {
        let ghost l0 = self.lines@;
        self.restore_one(a, fa);
        let ghost p1 = self.lines@;
        self.restore_one(b, fb);
        proof {
            lemma_extends_trans(self.lines@, p1, l0);
        }
        let ghost p2 = self.lines@;
        self.restore_one(c, fc);
        proof {
            lemma_extends_trans(self.lines@, p2, l0);
        }
        let ghost p3 = self.lines@;
        self.restore_one(d, fd);
        proof {
            lemma_extends_trans(self.lines@, p3, l0);
            lemma_add_assoc(l0, opt1(fa, Instr::Pop(a)), opt1(fb, Instr::Pop(b)));
            lemma_add_assoc(l0, opt1(fa, Instr::Pop(a)) + opt1(fb, Instr::Pop(b)), opt1(
                fc,
                Instr::Pop(c),
            ));
            lemma_add_assoc(
                l0,
                opt1(fa, Instr::Pop(a)) + opt1(fb, Instr::Pop(b)) + opt1(fc, Instr::Pop(c)),
                opt1(fd, Instr::Pop(d)),
            );
        }
    }

    /// Which caller-saved registers were live, and so were pushed,
    /// before a call into the runtime.
    #[verifier::spinoff_prover]
    #[verifier::rlimit(100)]
    fn save_live(&mut self) -> (flags: SavedRegs)
        requires
            old(self).wf(),
        ensures
            final(self).wf(),
            seq_extends(final(self).lines@, old(self).lines@),
            final(self).bindings == old(self).bindings,
            final(self).consts == old(self).consts,
            flags.rax == old(self).preserve.has(Reg::Rax),
            flags.rcx == old(self).preserve.has(Reg::Rcx),
            flags.rdx == old(self).preserve.has(Reg::Rdx),
            flags.rsi == old(self).preserve.has(Reg::Rsi),
            flags.rdi == old(self).preserve.has(Reg::Rdi),
            flags.r8 == old(self).preserve.has(Reg::R8),
            flags.r9 == old(self).preserve.has(Reg::R9),
            flags.r10 == old(self).preserve.has(Reg::R10),
            flags.r11 == old(self).preserve.has(Reg::R11),
            final(self).lines@ == old(self).lines@ + pushes_of(flags),
            final(self).rsp_parity == old(self).rsp_parity + saved_count(flags),
            forall|q: Reg|
                #[trigger] final(self).preserve.has(q) == (old(self).preserve.has(q)
                    && !saved_contains(flags, q)),
            forall|q: Reg|
                #[trigger] saved_contains(flags, q) ==> old(self).preserve.has(q) && caller_saved(
                    q,
                ),
    {
        let ghost l0 = self.lines@;
        let ghost live0 = self.preserve;
        let f1 = self.save3(Reg::Rax, Reg::Rcx, Reg::Rdx);
        let ghost live1 = self.preserve;
        let ghost p1 = self.lines@;
        let f2 = self.save3(Reg::Rsi, Reg::Rdi, Reg::R8);
        proof {
            lemma_extends_trans(self.lines@, p1, l0);
        }
        let ghost live2 = self.preserve;
        let ghost p2 = self.lines@;
        let f3 = self.save3(Reg::R9, Reg::R10, Reg::R11);
        proof {
            lemma_extends_trans(self.lines@, p2, l0);
        }
        let flags = SavedRegs {
            rax: f1.0,
            rcx: f1.1,
            rdx: f1.2,
            rsi: f2.0,
            rdi: f2.1,
            r8: f2.2,
            r9: f3.0,
            r10: f3.1,
            r11: f3.2,
        };
        proof {
            lemma_save_compose(live0, live1, live2, self.preserve, f1, f2, f3, flags);
            let g1 = opt1(flags.rax, Instr::Push(Reg::Rax)) + opt1(flags.rcx, Instr::Push(Reg::Rcx))
                + opt1(flags.rdx, Instr::Push(Reg::Rdx));
            let g2 = opt1(flags.rsi, Instr::Push(Reg::Rsi)) + opt1(flags.rdi, Instr::Push(Reg::Rdi))
                + opt1(flags.r8, Instr::Push(Reg::R8));
            let g3 = opt1(flags.r9, Instr::Push(Reg::R9)) + opt1(flags.r10, Instr::Push(Reg::R10))
                + opt1(flags.r11, Instr::Push(Reg::R11));
            lemma_add_assoc(l0, g1, g2);
            lemma_add_assoc(l0, g1 + g2, g3);
            assert(self.lines@ == l0 + pushes_of(flags));
        }
        flags
    }

    /// Pops the saved registers back in reverse push order, except the
    /// return register, which the caller restores after securing the
    /// call's result.
    #[verifier::spinoff_prover]
    #[verifier::rlimit(100)]
    fn restore_tail(&mut self, flags: SavedRegs)
        requires
            old(self).wf(),
            old(self).rsp_parity >= saved_tail_count(flags),
        ensures
            final(self).wf(),
            seq_extends(final(self).lines@, old(self).lines@),
            final(self).bindings == old(self).bindings,
            final(self).consts == old(self).consts,
            final(self).lines@ == old(self).lines@ + pops_of(flags),
            final(self).rsp_parity == old(self).rsp_parity - saved_tail_count(flags),
            forall|q: Reg|
                #[trigger] final(self).preserve.has(q) == (old(self).preserve.has(q) || (
                saved_contains(flags, q) && q != Reg::Rax)),
    {
        let ghost l0 = self.lines@;
        self.restore4(Reg::R11, Reg::R10, Reg::R9, Reg::R8, flags.r11, flags.r10, flags.r9,
            flags.r8);
        let ghost p1 = self.lines@;
        self.restore4(Reg::Rdi, Reg::Rsi, Reg::Rdx, Reg::Rcx, flags.rdi, flags.rsi, flags.rdx,
            flags.rcx);
        proof {
            lemma_extends_trans(self.lines@, p1, l0);
            let h1 = opt1(flags.r11, Instr::Pop(Reg::R11)) + opt1(flags.r10, Instr::Pop(Reg::R10))
                + opt1(flags.r9, Instr::Pop(Reg::R9)) + opt1(flags.r8, Instr::Pop(Reg::R8));
            let h2 = opt1(flags.rdi, Instr::Pop(Reg::Rdi)) + opt1(flags.rsi, Instr::Pop(Reg::Rsi))
                + opt1(flags.rdx, Instr::Pop(Reg::Rdx)) + opt1(flags.rcx, Instr::Pop(Reg::Rcx));
            lemma_add_assoc(l0, h1, h2);
            assert(self.lines@ == l0 + pops_of(flags));
        }
    }


    /// The tracker's epilogue: pops the saved registers back in
    /// reverse push order and secures the call's result. When the
    /// return register was itself saved, the result first moves to a
    /// freshly allocated register, so restoring the original value
    /// does not clobber it.
    #[verifier::spinoff_prover]
    #[verifier::rlimit(100)]
    fn finish_call(&mut self, flags: SavedRegs) -> (res: Result<Reg, CompileError>)
        requires
            old(self).wf(),
            old(self).rsp_parity >= saved_count(flags),
        ensures
            final(self).wf(),
            seq_extends(final(self).lines@, old(self).lines@),
            final(self).bindings == old(self).bindings,
            final(self).consts == old(self).consts,
            res matches Ok(out) ==> {
                &&& final(self).rsp_parity == old(self).rsp_parity - saved_count(flags)
                &&& final(self).lines@ == old(self).lines@ + pops_of(flags) + rescue_of(
                    flags,
                    out,
                )
                &&& (forall|q: Reg|
                    #[trigger] final(self).preserve.has(q) == (old(self).preserve.has(q)
                        || saved_contains(flags, q)))
                &&& (!flags.rax ==> out == Reg::Rax)
                &&& (flags.rax ==> usable(out) && !old(self).preserve.has(out) && !saved_contains(
                    flags,
                    out,
                ))
            },
            res matches Err(e) ==> {
                &&& e == CompileError::ResourceExhaustionError
                &&& flags.rax
                &&& (forall|q: Reg|
                    usable(q) ==> old(self).preserve.has(q) || saved_contains(flags, q))
            },
    {
        let ghost l0 = self.lines@;
        self.restore_tail(flags);
        proof {
            assert forall|q: Reg|
                self.preserve.has(q) == (old(self).preserve.has(q) || (saved_contains(flags, q)
                    && q != Reg::Rax)) by {}
        }
        if flags.rax {
            let fresh = match self.next_reg() {
                Ok(r) => r,
                Err(e) => {
                    proof {
                        assert forall|q: Reg|
                            usable(q) implies old(self).preserve.has(q) || saved_contains(
                            flags,
                            q,
                        ) by {
                            assert(self.preserve.has(q));
                        }
                    }
                    return Err(e);
                },
            };
            let ghost pl1 = self.lines@;
            self.emit_plain(Instr::MovRR(fresh, Reg::Rax));
            proof {
                lemma_extends_push(pl1, Instr::MovRR(fresh, Reg::Rax));
                lemma_extends_trans(self.lines@, pl1, l0);
            }
            let ghost pl2 = self.lines@;
            self.restore_one(Reg::Rax, true);
            proof {
                lemma_extends_trans(self.lines@, pl2, l0);
                assert(self.lines@ =~= (l0 + pops_of(flags)) + rescue_of(flags, fresh));
            }
            Ok(fresh)
        } else {
            proof {
                assert(self.lines@ =~= (l0 + pops_of(flags)) + rescue_of(flags, Reg::Rax));
            }
            Ok(Reg::Rax)
        }
    }

    /// Emits the call itself, padded by one stack word when the words
    /// pushed so far would leave the call site misaligned.
    fn emit_tracked_call(&mut self, f: RuntimeFn)
        requires
            old(self).wf(),
        ensures
            final(self).wf(),
            seq_extends(final(self).lines@, old(self).lines@),
            final(self).lines@ == old(self).lines@ + aligned_call(old(self).rsp_parity as int, f),
            final(self).preserve == old(self).preserve,
            final(self).bindings == old(self).bindings,
            final(self).consts == old(self).consts,
            final(self).rsp_parity == old(self).rsp_parity,
    {
        let ghost l0 = self.lines@;
        proof {
            lemma_extends_refl(l0);
        }
        let pad = self.rsp_parity % 2 == 0;
        if pad {
            let ghost q = self.lines@;
            self.emit_pad();
            proof {
                lemma_extends_push(q, Instr::SubRsp(1));
                lemma_extends_trans(self.lines@, q, l0);
            }
        }
        let ghost q1 = self.lines@;
        self.emit_call(f);
        proof {
            lemma_extends_push(q1, Instr::Call(f));
            lemma_extends_trans(self.lines@, q1, l0);
        }
        if pad {
            let ghost q2 = self.lines@;
            self.emit_addrsp(1);
            proof {
                lemma_extends_push(q2, Instr::AddRsp(1));
                lemma_extends_trans(self.lines@, q2, l0);
            }
        }
        proof {
            assert(self.lines@ =~= l0 + aligned_call(old(self).rsp_parity as int, f));
        }
    }

    /// The calling-convention tracker's call path: pushes every live
    /// caller-saved register in deterministic order, pads the stack to
    /// keep the call site 16-byte aligned, calls the runtime entry
    /// point, and pops the saved registers back in reverse order. When
    /// the return register was itself saved, the call's result first
    /// moves to a freshly allocated register so the restore does not
    /// clobber it.
    #[verifier::spinoff_prover]
    #[verifier::rlimit(100)]
    fn call_function(&mut self, f: RuntimeFn) -> (res: Result<Reg, CompileError>)
        requires
            old(self).wf(),
        ensures
            final(self).wf(),
            seq_extends(final(self).lines@, old(self).lines@),
            final(self).bindings == old(self).bindings,
            final(self).consts == old(self).consts,
            res matches Ok(out) ==> {
                &&& final(self).rsp_parity == old(self).rsp_parity
                &&& (forall|q: Reg| final(self).preserve.has(q) == old(self).preserve.has(q))
                &&& final(self).lines@ == old(self).lines@ + tracker_suffix(
                    old(self).preserve,
                    old(self).rsp_parity as int,
                    f,
                    out,
                )
                &&& (!old(self).preserve.has(Reg::Rax) ==> out == Reg::Rax)
                &&& (old(self).preserve.has(Reg::Rax) ==> usable(out) && !old(self).preserve.has(
                    out,
                ))
            },
            res matches Err(e) ==> {
                &&& e == CompileError::ResourceExhaustionError
                &&& old(self).preserve.has(Reg::Rax)
                &&& (forall|q: Reg| usable(q) ==> old(self).preserve.has(q))
            },
    {
        let ghost l0 = self.lines@;
        let ghost live0 = self.preserve;
        let ghost parity0 = self.rsp_parity as int;
        let flags = self.save_live();
        proof {
            lemma_flags_seqs(flags, live0, Reg::Rax);
        }
        let ghost l1 = self.lines@;
        self.emit_tracked_call(f);
        proof {
            lemma_extends_trans(self.lines@, l1, l0);
            assert(self.lines@ == l1 + aligned_call(parity0 + saved_total(live0), f));
        }
        let ghost r1 = self.lines@;
        let ghost mid_preserve = self.preserve;
        let out = self.finish_call(flags);
        proof {
            lemma_extends_trans(self.lines@, r1, l0);
            if out is Ok {
                let o = out->Ok_0;
                assert forall|q: Reg|
                    #[trigger] self.preserve.has(q) == old(self).preserve.has(q) by {
                    assert(self.preserve.has(q) == (mid_preserve.has(q) || saved_contains(
                        flags,
                        q,
                    )));
                    if saved_contains(flags, q) {
                        assert(old(self).preserve.has(q));
                    }
                }
                lemma_flags_seqs(flags, live0, o);
                lemma_tracker_assemble(l0, live0, parity0, f, o, self.lines@);
                assert(self.lines@ == l0 + tracker_suffix(live0, parity0, f, o));
            } else {
                assert forall|q: Reg| usable(q) implies old(self).preserve.has(q) by {
                    assert(mid_preserve.has(q) || saved_contains(flags, q));
                }
            }
        }
        out
    }

    /// Generates a literal or identifier node.
    ///
    /// A boolean literal is a raw, unboxed truth value loaded directly;
    /// an identifier resolves through the binding environment; an
    /// integer or float literal lowers to a runtime call constructing a
    /// boxed value, the float's bit pattern deduplicated through the
    /// constant pool.
    fn compile_constant(&mut self, c: &Node, target: Option<Reg>) -> (res: Result<
        Reg,
        CompileError,
    >)
        requires
            old(self).wf(),
            (c matches Node::String(_)) || (c matches Node::Float(_)) || (c matches
                Node::Integer(_)),
        ensures
            final(self).wf(),
            seq_extends(final(self).lines@, old(self).lines@),
            seq_extends(final(self).consts@, old(self).consts@),
            final(self).bindings == old(self).bindings,
            res matches Ok(r) ==> {
                &&& final(self).rsp_parity == old(self).rsp_parity
                &&& (forall|q: Reg|
                    #[trigger] final(self).preserve.has(q) == old(self).preserve.has(q))
                &&& check_node(*c, names_of(old(self).bindings.rep())) is Ok
            },
            res matches Err(e) ==> e == CompileError::ResourceExhaustionError || check_node(
                *c,
                names_of(old(self).bindings.rep()),
            ) == Err::<(), CompileError>(e),
            root_error(*c, names_of(old(self).bindings.rep())) matches Some(er) ==> res == Err::<
                Reg,
                CompileError,
            >(er) && *final(self) == *old(self),
            res matches Err(e) && e == CompileError::ResourceExhaustionError ==> forall|q: Reg|
                usable(q) ==> old(self).preserve.has(q),
            res matches Ok(r) ==> (match *c {
                Node::Float(bits) => (if pool_has(old(self).consts@, bits) {
                    final(self).consts@ == old(self).consts@
                } else {
                    final(self).consts@ == old(self).consts@.push(Some(bits))
                }),
                _ => final(self).consts@ == old(self).consts@,
            }),
            res matches Ok(r) ==> (match *c {
                Node::Integer(i) => final(self).lines@ == old(self).lines@ + seq![
                    Instr::MovImm(Reg::Rdi, i),
                ] + tracker_suffix(
                    old(self).preserve,
                    old(self).rsp_parity as int,
                    RuntimeFn::NewInt,
                    r,
                ),
                Node::Float(bits) => final(self).lines@ == old(self).lines@ + seq![
                    Instr::LoadFloat(pool_find(old(self).consts@, bits) as usize),
                ] + tracker_suffix(
                    old(self).preserve,
                    old(self).rsp_parity as int,
                    RuntimeFn::NewFloat,
                    r,
                ),
                Node::String(name) => {
                    if name@ == "#t"@ {
                        &&& final(self).lines@ == old(self).lines@ + seq![Instr::MovImm(r, 1)]
                        &&& (target matches Some(tr) ==> r == tr)
                        &&& (target is None ==> usable(r) && !old(self).preserve.has(r))
                    } else if name@ == "#f"@ {
                        &&& final(self).lines@ == old(self).lines@ + seq![Instr::MovImm(r, 0)]
                        &&& (target matches Some(tr) ==> r == tr)
                        &&& (target is None ==> usable(r) && !old(self).preserve.has(r))
                    } else {
                        &&& *final(self) == *old(self)
                        &&& Some(r) == lookup_in(old(self).bindings.rep(), name@)
                    }
                },
                _ => false,
            }),
    {
        match c {
            Node::String(name) => {
                if op_is(name, "#t") {
                    let out = match target {
                        Some(r) => r,
                        None => match self.next_reg() {
                            Ok(r) => r,
                            Err(e) => {
                                proof {
                                    lemma_extends_refl(self.lines@);
                                    lemma_extends_refl(self.consts@);
                                }
                                return Err(e);
                            },
                        },
                    };
                    self.emit_plain(Instr::MovImm(out, 1));
                    proof {
                        lemma_extends_push(old(self).lines@, Instr::MovImm(out, 1));
                        lemma_extends_refl(self.consts@);
                        assert(self.lines@ =~= old(self).lines@ + seq![Instr::MovImm(out, 1)]);
                    }
                    Ok(out)
                } else if op_is(name, "#f") {
                    let out = match target {
                        Some(r) => r,
                        None => match self.next_reg() {
                            Ok(r) => r,
                            Err(e) => {
                                proof {
                                    lemma_extends_refl(self.lines@);
                                    lemma_extends_refl(self.consts@);
                                }
                                return Err(e);
                            },
                        },
                    };
                    self.emit_plain(Instr::MovImm(out, 0));
                    proof {
                        lemma_extends_push(old(self).lines@, Instr::MovImm(out, 0));
                        lemma_extends_refl(self.consts@);
                        assert(self.lines@ =~= old(self).lines@ + seq![Instr::MovImm(out, 0)]);
                    }
                    Ok(out)
                } else {
                    proof {
                        lemma_extends_refl(self.lines@);
                        lemma_extends_refl(self.consts@);
                        lemma_lookup_some(self.bindings.rep(), name@);
                    }
                    match self.bindings.lookup(name) {
                        Some(reg) => Ok(reg),
                        None => Err(CompileError::UnboundNameError),
                    }
                }
            },
            Node::Float(bits) => {
                let b: u64 = *bits;
                let n = self.consts.len();
                let mut i: usize = 0;
                let mut id_found: Option<usize> = None;
                while i < n
                    invariant
                        i <= n,
                        n == self.consts@.len(),
                        match id_found {
                            Some(j) => j < n && self.consts@[j as int] == Some(b) && forall|k: int|
                                0 <= k < j ==> self.consts@[k] != Some(b),
                            None => forall|k: int| 0 <= k < i ==> self.consts@[k] != Some(b),
                        },
                    decreases n - i,
                {
                    if id_found.is_none() {
                        match self.consts[i] {
                            Some(v) => {
                                if v == b {
                                    id_found = Some(i);
                                }
                            },
                            None => {},
                        }
                    }
                    i = i + 1;
                }
                proof {
                    lemma_pool_find(self.consts@, b);
                }
                let id = match id_found {
                    Some(j) => {
                        proof {
                            assert(pool_has(self.consts@, b));
                            assert(j as int == pool_find(self.consts@, b));
                            lemma_extends_refl(self.consts@);
                        }
                        j
                    },
                    None => {
                        proof {
                            assert(!pool_has(self.consts@, b));
                            assert(n as int == pool_find(self.consts@, b));
                        }
                        let id = self.alloc_label(Some(b));
                        proof {
                            lemma_extends_push(old(self).consts@, Some(b));
                        }
                        id
                    },
                };
                self.emit_plain(Instr::LoadFloat(id));
                proof {
                    lemma_extends_push(old(self).lines@, Instr::LoadFloat(id));
                    assert(self.lines@ =~= old(self).lines@ + seq![Instr::LoadFloat(id)]);
                }
                let ghost mid_lines = self.lines@;
                let r = self.call_function(RuntimeFn::NewFloat);
                proof {
                    lemma_extends_trans(self.lines@, mid_lines, old(self).lines@);
                }
                r
            },
            Node::Integer(i) => {
                self.emit_plain(Instr::MovImm(Reg::Rdi, *i));
                proof {
                    lemma_extends_push(old(self).lines@, Instr::MovImm(Reg::Rdi, *i));
                    lemma_extends_refl(self.consts@);
                    assert(self.lines@ =~= old(self).lines@ + seq![Instr::MovImm(Reg::Rdi, *i)]);
                }
                let ghost mid_lines = self.lines@;
                let r = self.call_function(RuntimeFn::NewInt);
                proof {
                    lemma_extends_trans(self.lines@, mid_lines, old(self).lines@);
                }
                r
            },
            _ => {
                proof {
                    assert(false);
                    lemma_extends_refl(self.lines@);
                    lemma_extends_refl(self.consts@);
                }
                Err(CompileError::UnsupportedOperatorError)
            },
        }
    }

    /// Generates a two-operand arithmetic or comparison application:
    /// the left operand is generated into a fresh register and marked
    /// live across the right operand's generation, both values move to
    /// the argument registers, and the operator's runtime entry point
    /// is called. A live return register is first parked on the stack.
    #[verifier::spinoff_prover]
    #[verifier::rlimit(100)]
    fn arith(&mut self, f: RuntimeFn, p1: &Node, p2: &Node) -> (res: Result<Reg, CompileError>)
        requires
            old(self).wf(),
        ensures
            final(self).wf(),
            seq_extends(final(self).lines@, old(self).lines@),
            seq_extends(final(self).consts@, old(self).consts@),
            res matches Ok(r) ==> {
                &&& final(self).rsp_parity == old(self).rsp_parity
                &&& final(self).bindings.rep() == old(self).bindings.rep()
                &&& (forall|q: Reg|
                    #[trigger] final(self).preserve.has(q) == old(self).preserve.has(q))
                &&& check_pair(*p1, *p2, names_of(old(self).bindings.rep())) is Ok
                &&& (!old(self).preserve.has(Reg::Rax) ==> r == Reg::Rax)
                &&& (old(self).preserve.has(Reg::Rax) ==> usable(r) && !old(self).preserve.has(r))
                &&& (exists|s1: Seq<Instr>, s2: Seq<Instr>, r1: Reg, r2: Reg, lmid: LiveSet, oc: Reg|
                    {
                        &&& oc == (if old(self).preserve.has(Reg::Rax) {
                            Reg::Rax
                        } else {
                            r
                        })
                        &&& (forall|q: Reg|
                            #[trigger] lmid.has(q) == (old(self).preserve.has(q) && !(old(
                                self,
                            ).preserve.has(Reg::Rax) && q == Reg::Rax)))
                        &&& final(self).lines@ == #[trigger] (old(self).lines@ + opt1(
                            old(self).preserve.has(Reg::Rax),
                            Instr::Push(Reg::Rax),
                        ) + s1 + s2 + seq![Instr::MovRR(Reg::Rdi, r1)] + seq![
                            Instr::MovRR(Reg::Rsi, r2),
                        ] + tracker_suffix(
                            lmid,
                            old(self).rsp_parity + b2i(old(self).preserve.has(Reg::Rax)),
                            f,
                            oc,
                        ) + rescue_moves(old(self).preserve, r))
                    })
            },
            res matches Err(e) ==> e == CompileError::ResourceExhaustionError || check_pair(
                *p1,
                *p2,
                names_of(old(self).bindings.rep()),
            ) == Err::<(), CompileError>(e),
        decreases vstd::math::max(height(*p1) as int, height(*p2) as int), 1int,
    {
        let ghost l0 = self.lines@;
        let ghost c0 = self.consts@;
        let ghost live0 = self.preserve;
        proof {
            lemma_extends_refl(l0);
            lemma_extends_refl(c0);
        }
        let save_rax = self.preserve.contains(Reg::Rax);
        if save_rax {
            self.emit_push_reg(Reg::Rax);
            self.preserve.remove(Reg::Rax);
        }
        proof {
            assert(forall|q: Reg|
                #[trigger] self.preserve.has(q) == (live0.has(q) && !(save_rax && q == Reg::Rax)));
            assert(self.lines@ =~= l0 + opt1(save_rax, Instr::Push(Reg::Rax)));
        }
        let ghost pl1 = self.lines@;
        let ghost pc1 = self.consts@;
        let ghost sa1 = *self;
        let r1 = match self.compile_tok(p1, None) {
            Ok(r) => r,
            Err(e) => {
                proof {
                    chain2(self.lines@, pl1, l0, self.consts@, pc1, c0);
                }
                return Err(e);
            },
        };
        proof {
            chain2(self.lines@, pl1, l0, self.consts@, pc1, c0);
            assert forall|q: Reg| #[trigger] self.preserve.has(q) == sa1.preserve.has(q) by {
                assert(self.live(q) == sa1.live(q));
            }
        }
        let was1 = self.preserve.contains(r1);
        self.preserve.insert(r1);
        let ghost pl2 = self.lines@;
        let ghost pc2 = self.consts@;
        let ghost sa2 = *self;
        let r2 = match self.compile_tok(p2, None) {
            Ok(r) => r,
            Err(e) => {
                proof {
                    chain2(self.lines@, pl2, l0, self.consts@, pc2, c0);
                }
                return Err(e);
            },
        };
        proof {
            chain2(self.lines@, pl2, l0, self.consts@, pc2, c0);
            assert forall|q: Reg| #[trigger] self.preserve.has(q) == sa2.preserve.has(q) by {
                assert(self.live(q) == sa2.live(q));
            }
        }
        if !was1 {
            self.preserve.remove(r1);
        }
        proof {
            assert(forall|q: Reg|
                #[trigger] self.preserve.has(q) == (live0.has(q) && !(save_rax && q == Reg::Rax)));
        }
        let ghost pl3 = self.lines@;
        let ghost pc3 = self.consts@;
        self.emit_plain(Instr::MovRR(Reg::Rdi, r1));
        proof {
            chain2(self.lines@, pl3, l0, self.consts@, pc3, c0);
        }
        let ghost pl4 = self.lines@;
        let ghost pc4 = self.consts@;
        self.emit_plain(Instr::MovRR(Reg::Rsi, r2));
        proof {
            chain2(self.lines@, pl4, l0, self.consts@, pc4, c0);
        }
        let ghost pl5 = self.lines@;
        let ghost pc5 = self.consts@;
        let ghost live_call = self.preserve;
        let out0 = match self.call_function(f) {
            Ok(r) => r,
            Err(e) => {
                proof {
                    lemma_extends_refl(self.consts@);
                    chain2(self.lines@, pl5, l0, self.consts@, pc5, c0);
                }
                return Err(e);
            },
        };
        proof {
            lemma_extends_refl(self.consts@);
            chain2(self.lines@, pl5, l0, self.consts@, pc5, c0);
            lemma_extends_split(pl2, pl1);
            lemma_extends_split(pl3, pl2);
        }
        let ghost seg1 = pl2.subrange(pl1.len() as int, pl2.len() as int);
        let ghost seg2 = pl3.subrange(pl2.len() as int, pl3.len() as int);
        if save_rax {
            let out = match self.next_reg() {
                Ok(r) => r,
                Err(e) => {
                    return Err(e);
                },
            };
            let ghost pl6 = self.lines@;
            let ghost pc6 = self.consts@;
            self.emit_plain(Instr::MovRR(out, Reg::Rax));
            self.emit_pop_reg(Reg::Rax);
            self.preserve.insert(Reg::Rax);
            proof {
                lemma_extends_trans(self.lines@, pl6.push(Instr::MovRR(out, Reg::Rax)), pl6);
                lemma_extends_refl(self.consts@);
                chain2(self.lines@, pl6, l0, self.consts@, pc6, c0);
                assert(forall|q: Reg|
                    #[trigger] self.preserve.has(q) == old(self).preserve.has(q));
                assert(self.lines@ =~= pl6 + rescue_moves(old(self).preserve, out));
                assert(pl4 =~= pl3 + seq![Instr::MovRR(Reg::Rdi, r1)]);
                assert(pl5 =~= pl4 + seq![Instr::MovRR(Reg::Rsi, r2)]);
                assert(self.lines@ == (old(self).lines@ + opt1(
                    old(self).preserve.has(Reg::Rax),
                    Instr::Push(Reg::Rax),
                ) + seg1 + seg2 + seq![Instr::MovRR(Reg::Rdi, r1)] + seq![
                    Instr::MovRR(Reg::Rsi, r2),
                ] + tracker_suffix(
                    live_call,
                    old(self).rsp_parity + b2i(old(self).preserve.has(Reg::Rax)),
                    f,
                    Reg::Rax,
                ) + rescue_moves(old(self).preserve, out)));
            }
            Ok(out)
        } else {
            proof {
                assert(rescue_moves(old(self).preserve, out0) =~= Seq::<Instr>::empty());
                assert(self.lines@ =~= self.lines@ + rescue_moves(old(self).preserve, out0));
                assert(pl4 =~= pl3 + seq![Instr::MovRR(Reg::Rdi, r1)]);
                assert(pl5 =~= pl4 + seq![Instr::MovRR(Reg::Rsi, r2)]);
                assert(self.lines@ == (old(self).lines@ + opt1(
                    old(self).preserve.has(Reg::Rax),
                    Instr::Push(Reg::Rax),
                ) + seg1 + seg2 + seq![Instr::MovRR(Reg::Rdi, r1)] + seq![
                    Instr::MovRR(Reg::Rsi, r2),
                ] + tracker_suffix(
                    live_call,
                    old(self).rsp_parity + b2i(old(self).preserve.has(Reg::Rax)),
                    f,
                    out0,
                ) + rescue_moves(old(self).preserve, out0)));
            }
            Ok(out0)
        }
    }

    /// Generates a one-argument runtime call: the argument lands in
    /// the first argument register and the entry point is called
    /// through the tracker.
    fn call_one_param(&mut self, f: RuntimeFn, p1: &Node) -> (res: Result<Reg, CompileError>)
        requires
            old(self).wf(),
        ensures
            final(self).wf(),
            seq_extends(final(self).lines@, old(self).lines@),
            seq_extends(final(self).consts@, old(self).consts@),
            res matches Ok(r) ==> {
                &&& final(self).rsp_parity == old(self).rsp_parity
                &&& final(self).bindings.rep() == old(self).bindings.rep()
                &&& (forall|q: Reg|
                    #[trigger] final(self).preserve.has(q) == old(self).preserve.has(q))
                &&& check_node(*p1, names_of(old(self).bindings.rep())) is Ok
                &&& (!old(self).preserve.has(Reg::Rax) ==> r == Reg::Rax)
                &&& (old(self).preserve.has(Reg::Rax) ==> usable(r) && !old(self).preserve.has(r))
                &&& (exists|s1: Seq<Instr>|
                    final(self).lines@ == #[trigger] (old(self).lines@ + s1) + tracker_suffix(
                        old(self).preserve,
                        old(self).rsp_parity as int,
                        f,
                        r,
                    ))
            },
            res matches Err(e) ==> e == CompileError::ResourceExhaustionError || check_node(
                *p1,
                names_of(old(self).bindings.rep()),
            ) == Err::<(), CompileError>(e),
        decreases height(*p1) as int, 1int,
    {
        let ghost l0 = self.lines@;
        let ghost c0 = self.consts@;
        match self.compile_tok(p1, Some(Reg::Rdi)) {
            Ok(_) => {},
            Err(e) => {
                return Err(e);
            },
        }
        proof {
            assert forall|q: Reg|
                #[trigger] self.preserve.has(q) == old(self).preserve.has(q) by {
                assert(self.live(q) == old(self).live(q));
            }
        }
        let ghost pl1 = self.lines@;
        let ghost pc1 = self.consts@;
        let ghost live_mid = self.preserve;
        let r = self.call_function(f);
        proof {
            lemma_extends_refl(self.consts@);
            chain2(self.lines@, pl1, l0, self.consts@, pc1, c0);
            if r is Ok {
                let o = r->Ok_0;
                lemma_tracker_congruence(live_mid, old(self).preserve, old(self).rsp_parity as int,
                    f, o);
                lemma_extends_split(pl1, l0);
                let s1 = pl1.subrange(l0.len() as int, pl1.len() as int);
                assert(self.lines@ == (l0 + s1) + tracker_suffix(
                    old(self).preserve,
                    old(self).rsp_parity as int,
                    f,
                    o,
                ));
            }
        }
        r
    }

    /// Generates a two-argument runtime call: each argument lands in a
    /// fresh scratch register, the first held live across the second's
    /// generation so it cannot be clobbered, and both move into the
    /// argument registers only immediately before the tracked call.
    fn call_two_param(&mut self, f: RuntimeFn, p1: &Node, p2: &Node) -> (res: Result<
        Reg,
        CompileError,
    >)
        requires
            old(self).wf(),
        ensures
            final(self).wf(),
            seq_extends(final(self).lines@, old(self).lines@),
            seq_extends(final(self).consts@, old(self).consts@),
            res matches Ok(r) ==> {
                &&& final(self).rsp_parity == old(self).rsp_parity
                &&& final(self).bindings.rep() == old(self).bindings.rep()
                &&& (forall|q: Reg|
                    #[trigger] final(self).preserve.has(q) == old(self).preserve.has(q))
                &&& check_pair(*p1, *p2, names_of(old(self).bindings.rep())) is Ok
                &&& (!old(self).preserve.has(Reg::Rax) ==> r == Reg::Rax)
                &&& (old(self).preserve.has(Reg::Rax) ==> usable(r) && !old(self).preserve.has(r))
            },
            res matches Ok(r) ==> two_param_shape(
                old(self).lines@,
                final(self).lines@,
                old(self).preserve,
                old(self).rsp_parity as int,
                f,
                r,
            ),
            res matches Err(e) ==> e == CompileError::ResourceExhaustionError || check_pair(
                *p1,
                *p2,
                names_of(old(self).bindings.rep()),
            ) == Err::<(), CompileError>(e),
        decreases vstd::math::max(height(*p1) as int, height(*p2) as int), 1int,
    {
        let ghost l0 = self.lines@;
        let ghost c0 = self.consts@;
        let ghost live0 = self.preserve;
        proof {
            lemma_extends_refl(l0);
            lemma_extends_refl(c0);
        }
        let r1 = match self.next_reg() {
            Ok(r) => r,
            Err(e) => {
                return Err(e);
            },
        };
        match self.compile_tok(p1, Some(r1)) {
            Ok(_) => {},
            Err(e) => {
                return Err(e);
            },
        }
        proof {
            assert forall|q: Reg| #[trigger] self.preserve.has(q) == live0.has(q) by {
                assert(self.live(q) == old(self).live(q));
            }
        }
        self.preserve.insert(r1);
        let r2 = match self.next_reg() {
            Ok(r) => r,
            Err(e) => {
                return Err(e);
            },
        };
        let ghost pl1 = self.lines@;
        let ghost pc1 = self.consts@;
        let ghost sa2 = *self;
        match self.compile_tok(p2, Some(r2)) {
            Ok(_) => {},
            Err(e) => {
                proof {
                    chain2(self.lines@, pl1, l0, self.consts@, pc1, c0);
                }
                return Err(e);
            },
        }
        proof {
            chain2(self.lines@, pl1, l0, self.consts@, pc1, c0);
            assert forall|q: Reg| #[trigger] self.preserve.has(q) == sa2.preserve.has(q) by {
                assert(self.live(q) == sa2.live(q));
            }
        }
        self.preserve.remove(r1);
        proof {
            assert(forall|q: Reg| #[trigger] self.preserve.has(q) == live0.has(q));
        }
        let ghost pl2 = self.lines@;
        let ghost pc2 = self.consts@;
        self.emit_plain(Instr::MovRR(Reg::Rdi, r1));
        proof {
            chain2(self.lines@, pl2, l0, self.consts@, pc2, c0);
        }
        let ghost pl3 = self.lines@;
        let ghost pc3 = self.consts@;
        self.emit_plain(Instr::MovRR(Reg::Rsi, r2));
        proof {
            chain2(self.lines@, pl3, l0, self.consts@, pc3, c0);
        }
        let ghost pl4 = self.lines@;
        let ghost pc4 = self.consts@;
        let ghost live_call = self.preserve;
        let r = self.call_function(f);
        proof {
            lemma_extends_refl(self.consts@);
            chain2(self.lines@, pl4, l0, self.consts@, pc4, c0);
            if r is Ok {
                let o = r->Ok_0;
                lemma_tracker_congruence(live_call, old(self).preserve,
                    old(self).rsp_parity as int, f, o);
                lemma_extends_split(pl2, l0);
                lemma_extends_split(pl2, pl1);
                lemma_extends_split(pl1, l0);
                let seg1 = pl1.subrange(l0.len() as int, pl1.len() as int);
                let seg2 = pl2.subrange(pl1.len() as int, pl2.len() as int);
                assert(usable(r1) && !old(self).preserve.has(r1));
                assert(usable(r2) && !old(self).preserve.has(r2) && r2 != r1);
                assert(pl3 =~= pl2 + seq![Instr::MovRR(Reg::Rdi, r1)]);
                assert(pl4 =~= pl3 + seq![Instr::MovRR(Reg::Rsi, r2)]);
                assert(self.lines@ == (old(self).lines@ + seg1 + seg2 + seq![
                    Instr::MovRR(Reg::Rdi, r1),
                ] + seq![Instr::MovRR(Reg::Rsi, r2)] + tracker_suffix(
                    old(self).preserve,
                    old(self).rsp_parity as int,
                    f,
                    o,
                )));
                assert(two_param_shape(
                    old(self).lines@,
                    self.lines@,
                    old(self).preserve,
                    old(self).rsp_parity as int,
                    f,
                    o,
                ));
            }
        }
        r
    }

    /// Evaluates the variadic call's arguments right to left, pushing
    /// each as it is produced, so they lie in forward memory order from
    /// the stack top.
    #[verifier::loop_isolation(false)]
    #[verifier::spinoff_prover]
    #[verifier::rlimit(100)]
    fn push_args(&mut self, params: &Vec<Node>) -> (res: Result<(), CompileError>)
        requires
            old(self).wf(),
        ensures
            final(self).wf(),
            seq_extends(final(self).lines@, old(self).lines@),
            seq_extends(final(self).consts@, old(self).consts@),
            res matches Ok(u) ==> {
                &&& final(self).rsp_parity == old(self).rsp_parity + params@.len()
                &&& final(self).bindings.rep() == old(self).bindings.rep()
                &&& (forall|q: Reg|
                    #[trigger] final(self).preserve.has(q) == old(self).preserve.has(q))
                &&& check_rtl(params@, names_of(old(self).bindings.rep())) is Ok
            },
            res matches Err(e) ==> e == CompileError::ResourceExhaustionError || check_rtl(
                params@,
                names_of(old(self).bindings.rep()),
            ) == Err::<(), CompileError>(e),
        decreases params_height(params@) as int, 1int,
    {
        let ghost l0 = self.lines@;
        let ghost c0 = self.consts@;
        let ghost live0 = self.preserve;
        let ghost env0 = self.bindings.rep();
        let ghost names0 = names_of(env0);
        proof {
            lemma_extends_refl(l0);
            lemma_extends_refl(c0);
            assert(params@.take(params@.len() as int) =~= params@);
        }
        let n = params.len();
        let mut i: usize = n;
        while i > 0
            invariant
                self.wf(),
                i <= n,
                n == params@.len(),
                self.rsp_parity == old(self).rsp_parity + (n - i),
                seq_extends(self.lines@, l0),
                seq_extends(self.consts@, c0),
                self.bindings.rep() == env0,
                forall|q: Reg| #[trigger] self.preserve.has(q) == live0.has(q),
                check_rtl(params@, names0) == check_rtl(params@.take(i as int), names0),
            decreases i,
        {
            proof {
                lemma_params_height(params@, i - 1);
            }
            let ghost pl1 = self.lines@;
            let ghost pc1 = self.consts@;
            let ghost sa1 = *self;
            let r = match self.compile_tok(&params[i - 1], None) {
                Ok(r) => r,
                Err(e) => {
                    proof {
                        chain2(self.lines@, pl1, l0, self.consts@, pc1, c0);
                        if e != CompileError::ResourceExhaustionError {
                            lemma_check_rtl_step(params@, i - 1, names0);
                        }
                    }
                    return Err(e);
                },
            };
            proof {
                chain2(self.lines@, pl1, l0, self.consts@, pc1, c0);
                lemma_check_rtl_step(params@, i - 1, names0);
                assert forall|q: Reg| #[trigger] self.preserve.has(q) == sa1.preserve.has(q) by {
                    assert(self.live(q) == sa1.live(q));
                }
            }
            let ghost pl2 = self.lines@;
            let ghost pc2 = self.consts@;
            self.emit_push_reg(r);
            proof {
                chain2(self.lines@, pl2, l0, self.consts@, pc2, c0);
            }
            i = i - 1;
        }
        proof {
            assert(params@.take(0) =~= Seq::<Node>::empty());
        }
        Ok(())
    }

    /// The tail of a variadic call, once the arguments sit on the
    /// stack: the count move, the padded-and-aligned call, the release
    /// of the pushed words, and the tracker's restores.
    #[verifier::spinoff_prover]
    #[verifier::rlimit(100)]
    fn finish_variadic(
        &mut self,
        f: RuntimeFn,
        n: usize,
        orig: usize,
        flags: SavedRegs,
        Ghost(l0): Ghost<Seq<Instr>>,
        Ghost(live0): Ghost<LiveSet>,
        Ghost(pad): Ghost<bool>,
        Ghost(l_args0): Ghost<Seq<Instr>>,
    ) -> (res: Result<Reg, CompileError>)
        requires
            old(self).wf(),
            old(self).rsp_parity == orig + b2i(pad) + n,
            old(self).rsp_parity % 2 == 1,
            orig >= saved_count(flags),
            flags.rax == live0.has(Reg::Rax),
            flags.rcx == live0.has(Reg::Rcx),
            flags.rdx == live0.has(Reg::Rdx),
            flags.rsi == live0.has(Reg::Rsi),
            flags.rdi == live0.has(Reg::Rdi),
            flags.r8 == live0.has(Reg::R8),
            flags.r9 == live0.has(Reg::R9),
            flags.r10 == live0.has(Reg::R10),
            flags.r11 == live0.has(Reg::R11),
            forall|q: Reg|
                #[trigger] old(self).preserve.has(q) == (live0.has(q) && !saved_contains(
                    flags,
                    q,
                )),
            l_args0 == (l0 + save_pushes(live0)) + opt1(pad, Instr::SubRsp(1)),
            seq_extends(old(self).lines@, l_args0),
        ensures
            final(self).wf(),
            seq_extends(final(self).lines@, old(self).lines@),
            final(self).bindings == old(self).bindings,
            final(self).consts == old(self).consts,
            res matches Ok(r) ==> {
                &&& final(self).rsp_parity == orig - saved_count(flags)
                &&& (forall|q: Reg| #[trigger] final(self).preserve.has(q) == live0.has(q))
                &&& (!live0.has(Reg::Rax) ==> r == Reg::Rax)
                &&& (live0.has(Reg::Rax) ==> usable(r) && !live0.has(r))
                &&& variadic_shape(l0, final(self).lines@, live0, n, f, r)
            },
            res matches Err(e) ==> e == CompileError::ResourceExhaustionError,
    {
        let ghost le = self.lines@;
        let ghost pl3 = self.lines@;
        self.emit_plain(Instr::SetArgCount(n));
        proof {
            lemma_extends_push(pl3, Instr::SetArgCount(n));
        }
        let ghost pl4 = self.lines@;
        self.emit_call(f);
        proof {
            lemma_extends_push(pl4, Instr::Call(f));
            lemma_extends_trans(self.lines@, pl4, le);
        }
        let words = self.rsp_parity - orig;
        let ghost pl5 = self.lines@;
        self.emit_addrsp(words);
        proof {
            lemma_extends_push(pl5, Instr::AddRsp(words));
            lemma_extends_trans(self.lines@, pl5, le);
        }
        let ghost pl6 = self.lines@;
        let ghost mid_preserve = self.preserve;
        let out = self.finish_call(flags);
        proof {
            lemma_extends_trans(self.lines@, pl6, le);
            if out is Ok {
                let o = out->Ok_0;
                assert forall|q: Reg| #[trigger] self.preserve.has(q) == live0.has(q) by {
                    assert(self.preserve.has(q) == (mid_preserve.has(q) || saved_contains(
                        flags,
                        q,
                    )));
                }
                lemma_flags_seqs(flags, live0, o);
                lemma_extends_split(le, l_args0);
                let args = le.subrange(l_args0.len() as int, le.len() as int);
                assert(words == n + b2i(pad));
                assert(pl6 =~= le + count_call_seq(n, f, words));
                assert(self.lines@ == (l0 + save_pushes(live0) + opt1(pad, Instr::SubRsp(1))
                    + args + count_call_seq(n, f, words) + restore_pops(live0) + rescue_moves(
                    live0,
                    o,
                )));
                assert(variadic_shape(l0, self.lines@, live0, n, f, o));
            }
        }
        out
    }

    /// Generates the variadic list constructor. Like every runtime
    /// call, it is wrapped by the tracker: live caller-saved registers
    /// are saved first. The evaluated arguments are then pushed right
    /// to left so their memory order is forward, the count travels in
    /// the first argument register, the stack is padded so the call
    /// site stays aligned, and after the call the arguments are
    /// released and the saved registers return.
    #[verifier::spinoff_prover]
    #[verifier::rlimit(100)]
    fn call_on_stack(&mut self, f: RuntimeFn, params: &Vec<Node>) -> (res: Result<
        Reg,
        CompileError,
    >)
        requires
            old(self).wf(),
        ensures
            final(self).wf(),
            seq_extends(final(self).lines@, old(self).lines@),
            seq_extends(final(self).consts@, old(self).consts@),
            res matches Ok(r) ==> {
                &&& final(self).rsp_parity == old(self).rsp_parity
                &&& final(self).bindings.rep() == old(self).bindings.rep()
                &&& (forall|q: Reg|
                    #[trigger] final(self).preserve.has(q) == old(self).preserve.has(q))
                &&& (!old(self).preserve.has(Reg::Rax) ==> r == Reg::Rax)
                &&& (old(self).preserve.has(Reg::Rax) ==> usable(r) && !old(self).preserve.has(r))
                &&& check_rtl(params@, names_of(old(self).bindings.rep())) is Ok
                &&& variadic_shape(
                    old(self).lines@,
                    final(self).lines@,
                    old(self).preserve,
                    params@.len() as usize,
                    f,
                    r,
                )
            },
            res matches Err(e) ==> e == CompileError::ResourceExhaustionError || check_rtl(
                params@,
                names_of(old(self).bindings.rep()),
            ) == Err::<(), CompileError>(e),
        decreases params_height(params@) as int, 2int,
    {
        let ghost l0 = self.lines@;
        let ghost c0 = self.consts@;
        let ghost live0 = self.preserve;
        let ghost env0 = self.bindings.rep();
        let ghost names0 = names_of(env0);
        proof {
            lemma_extends_refl(l0);
            lemma_extends_refl(c0);
        }
        let flags = self.save_live();
        proof {
            lemma_flags_seqs(flags, live0, Reg::Rax);
        }
        let ghost l_saved = self.lines@;
        let ghost live_mid = self.preserve;
        let orig: usize = self.rsp_parity;
        let n = params.len();
        let pad = (self.rsp_parity % 2 + n % 2) % 2 == 0;
        if pad {
            let ghost q = self.lines@;
            self.emit_pad();
            proof {
                lemma_extends_push(q, Instr::SubRsp(1));
                lemma_extends_trans(self.lines@, q, l0);
            }
        }
        proof {
            assert(self.lines@ =~= l_saved + opt1(pad, Instr::SubRsp(1)));
            lemma_extends_refl(self.lines@);
        }
        let ghost l_args0 = self.lines@;
        match self.push_args(params) {
            Ok(_) => {},
            Err(e) => {
                proof {
                    lemma_extends_trans(self.lines@, l_args0, l0);
                }
                return Err(e);
            },
        }
        let ghost pre_tail = self.lines@;
        proof {
            lemma_extends_trans(self.lines@, l_args0, l0);
            assert forall|q: Reg| #[trigger] self.preserve.has(q) == live_mid.has(q) by {}
        }
        let out = self.finish_variadic(f, n, orig, flags, Ghost(l0), Ghost(live0), Ghost(pad),
            Ghost(l_args0));
        proof {
            lemma_extends_trans(self.lines@, pre_tail, l0);
            lemma_extends_refl(self.consts@);
            if out is Ok {
                let o = out->Ok_0;
                assert forall|q: Reg|
                    #[trigger] self.preserve.has(q) == old(self).preserve.has(q) by {
                    if saved_contains(flags, q) {
                        assert(old(self).preserve.has(q));
                    }
                }
            }
        }
        out
    }

    /// Generates a conditional: the condition lands in the result
    /// register (the target, or a fresh one), a compare-against-truth
    /// branch selects among two fresh labels, and both branches
    /// generate their value into that same register so it is uniformly
    /// available after the join label.
    fn compile_if(
        &mut self,
        cond: &Node,
        p1: &Node,
        p2: &Node,
        target: Option<Reg>,
    ) -> (res: Result<Reg, CompileError>)
        requires
            old(self).wf(),
        ensures
            final(self).wf(),
            seq_extends(final(self).lines@, old(self).lines@),
            seq_extends(final(self).consts@, old(self).consts@),
            res matches Ok(r) ==> {
                &&& final(self).rsp_parity == old(self).rsp_parity
                &&& final(self).bindings.rep() == old(self).bindings.rep()
                &&& (forall|q: Reg|
                    #[trigger] final(self).preserve.has(q) == old(self).preserve.has(q))
                &&& (target matches Some(tr) ==> r == tr)
                &&& check_triple(*cond, *p1, *p2, names_of(old(self).bindings.rep())) is Ok
                &&& branch_shape(
                    old(self).lines@,
                    final(self).lines@,
                    final(self).consts@.len() as int,
                    r,
                )
            },
            res matches Err(e) ==> e == CompileError::ResourceExhaustionError || check_triple(
                *cond,
                *p1,
                *p2,
                names_of(old(self).bindings.rep()),
            ) == Err::<(), CompileError>(e),
        decreases vstd::math::max(
            vstd::math::max(height(*cond) as int, height(*p1) as int),
            height(*p2) as int,
        ), 1int,
    {
        let ghost l0 = self.lines@;
        let ghost c0 = self.consts@;
        proof {
            lemma_extends_refl(l0);
            lemma_extends_refl(c0);
        }
        let tgt = match target {
            Some(r) => r,
            None => match self.next_reg() {
                Ok(r) => r,
                Err(e) => {
                    return Err(e);
                },
            },
        };
        match self.compile_tok(cond, Some(tgt)) {
            Ok(_) => {},
            Err(e) => {
                return Err(e);
            },
        }
        proof {
            assert forall|q: Reg|
                #[trigger] self.preserve.has(q) == old(self).preserve.has(q) by {
                assert(self.live(q) == old(self).live(q));
            }
        }
        let ghost pl1 = self.lines@;
        let ghost pc1 = self.consts@;
        let tl = self.alloc_label(None);
        proof {
            chain2(self.lines@, pl1, l0, self.consts@, pc1, c0);
        }
        let ghost pl2 = self.lines@;
        let ghost pc2 = self.consts@;
        let fl = self.alloc_label(None);
        proof {
            chain2(self.lines@, pl2, l0, self.consts@, pc2, c0);
        }
        let ghost pl3 = self.lines@;
        let ghost pc3 = self.consts@;
        let dl = self.alloc_label(None);
        proof {
            chain2(self.lines@, pl3, l0, self.consts@, pc3, c0);
        }
        let ghost pl4 = self.lines@;
        let ghost pc4 = self.consts@;
        self.emit_plain(Instr::CmpTrue(tgt));
        proof {
            chain2(self.lines@, pl4, l0, self.consts@, pc4, c0);
        }
        let ghost pl5 = self.lines@;
        let ghost pc5 = self.consts@;
        self.emit_plain(Instr::Je(tl));
        proof {
            chain2(self.lines@, pl5, l0, self.consts@, pc5, c0);
        }
        let ghost pl6 = self.lines@;
        let ghost pc6 = self.consts@;
        self.emit_plain(Instr::Jmp(fl));
        proof {
            chain2(self.lines@, pl6, l0, self.consts@, pc6, c0);
        }
        let ghost pl7 = self.lines@;
        let ghost pc7 = self.consts@;
        self.emit_plain(Instr::Label(tl));
        proof {
            chain2(self.lines@, pl7, l0, self.consts@, pc7, c0);
        }
        let ghost pl8 = self.lines@;
        let ghost pc8 = self.consts@;
        let ghost sa8 = *self;
        match self.compile_tok(p1, Some(tgt)) {
            Ok(_) => {},
            Err(e) => {
                proof {
                    chain2(self.lines@, pl8, l0, self.consts@, pc8, c0);
                }
                return Err(e);
            },
        }
        proof {
            chain2(self.lines@, pl8, l0, self.consts@, pc8, c0);
            lemma_extends_len(self.consts@, pc8);
            assert forall|q: Reg| #[trigger] self.preserve.has(q) == sa8.preserve.has(q) by {
                assert(self.live(q) == sa8.live(q));
            }
        }
        let ghost pl9 = self.lines@;
        let ghost pc9 = self.consts@;
        self.emit_plain(Instr::Jmp(dl));
        proof {
            chain2(self.lines@, pl9, l0, self.consts@, pc9, c0);
        }
        let ghost pl10 = self.lines@;
        let ghost pc10 = self.consts@;
        self.emit_plain(Instr::Label(fl));
        proof {
            chain2(self.lines@, pl10, l0, self.consts@, pc10, c0);
        }
        let ghost pl11 = self.lines@;
        let ghost pc11 = self.consts@;
        let ghost sa11 = *self;
        match self.compile_tok(p2, Some(tgt)) {
            Ok(_) => {},
            Err(e) => {
                proof {
                    chain2(self.lines@, pl11, l0, self.consts@, pc11, c0);
                }
                return Err(e);
            },
        }
        proof {
            chain2(self.lines@, pl11, l0, self.consts@, pc11, c0);
            lemma_extends_len(self.consts@, pc11);
            assert forall|q: Reg| #[trigger] self.preserve.has(q) == sa11.preserve.has(q) by {
                assert(self.live(q) == sa11.live(q));
            }
        }
        let ghost pl12 = self.lines@;
        let ghost pc12 = self.consts@;
        self.emit_plain(Instr::Label(dl));
        proof {
            chain2(self.lines@, pl12, l0, self.consts@, pc12, c0);
            lemma_extends_split(pl1, l0);
            lemma_extends_split(pl9, pl8);
            lemma_extends_split(pl12, pl11);
            let sc = pl1.subrange(l0.len() as int, pl1.len() as int);
            let s1 = pl9.subrange(pl8.len() as int, pl9.len() as int);
            let s2 = pl12.subrange(pl11.len() as int, pl12.len() as int);
            assert(pl8 =~= pl1 + seq![
                Instr::CmpTrue(tgt),
                Instr::Je(tl),
                Instr::Jmp(fl),
                Instr::Label(tl),
            ]);
            assert(pl11 =~= pl9 + seq![Instr::Jmp(dl), Instr::Label(fl)]);
            assert(self.lines@ =~= pl12 + seq![Instr::Label(dl)]);
            lemma_extends_trans(self.consts@, pc11, pc8);
            lemma_extends_len(self.consts@, pc8);
            assert(self.lines@ == (l0 + sc + cmp_branch_seq(tgt, tl, fl) + s1 + join_branch_seq(
                dl,
                fl,
            ) + s2 + join_label_seq(dl)));
            assert(branch_shape(l0, self.lines@, self.consts@.len() as int, tgt));
        }
        Ok(tgt)
    }

    /// Generates a binding block: each initializer lands in a freshly
    /// allocated register, which is marked live and bound before the
    /// next binding is processed, so an initializer sees exactly the
    /// names bound before it; the body is then generated, and on exit
    /// the block's entries leave the environment and the live set,
    /// making those registers reusable.
    #[verifier::loop_isolation(false)]
    fn compile_let_expr(&mut self, bindings: &Vec<(String, Node)>, body: &Node) -> (res: Result<
        Reg,
        CompileError,
    >)
        requires
            old(self).wf(),
        ensures
            final(self).wf(),
            seq_extends(final(self).lines@, old(self).lines@),
            seq_extends(final(self).consts@, old(self).consts@),
            res matches Ok(r) ==> {
                &&& final(self).rsp_parity == old(self).rsp_parity
                &&& final(self).bindings.rep() == old(self).bindings.rep()
                &&& (forall|q: Reg|
                    #[trigger] final(self).preserve.has(q) == old(self).preserve.has(q))
                &&& check_let(bindings@, *body, names_of(old(self).bindings.rep())) is Ok
            },
            res matches Err(e) ==> e == CompileError::ResourceExhaustionError || check_let(
                bindings@,
                *body,
                names_of(old(self).bindings.rep()),
            ) == Err::<(), CompileError>(e),
        decreases vstd::math::max(bindings_height(bindings@) as int, height(*body) as int), 1int,
    {
        let ghost l0 = self.lines@;
        let ghost c0 = self.consts@;
        let ghost env0 = self.bindings.rep();
        let ghost names0 = names_of(env0);
        let ghost live0 = self.preserve;
        proof {
            lemma_extends_refl(l0);
            lemma_extends_refl(c0);
            assert(bindings@.take(0) =~= Seq::<(String, Node)>::empty());
        }
        let n = bindings.len();
        let ghost mut added: Seq<Reg> = Seq::empty();
        let mut k: usize = 0;
        while k < n
            invariant
                self.wf(),
                k <= n,
                n == bindings@.len(),
                added.len() == k as int,
                seq_extends(self.lines@, l0),
                seq_extends(self.consts@, c0),
                self.rsp_parity == old(self).rsp_parity,
                self.bindings.rep().len() == env0.len() + k,
                forall|j: int| 0 <= j < env0.len() ==> #[trigger] self.bindings.rep()[j] == env0[j],
                forall|j: int|
                    0 <= j < k ==> (#[trigger] self.bindings.rep()[env0.len() + j]).1 == added[j],
                forall|q: Reg|
                    #[trigger] self.preserve.has(q) == (live0.has(q) || added.contains(q)),
                forall|j: int| 0 <= j < k ==> usable(#[trigger] added[j]) && !live0.has(added[j]),
                forall|j1: int, j2: int| 0 <= j1 < j2 < k ==> added[j1] != added[j2],
                check_bindings(bindings@.take(k as int), names0) == Ok::<
                    Seq<Seq<char>>,
                    CompileError,
                >(names_of(self.bindings.rep())),
                names0 == names_of(env0),
            decreases n - k,
        {
            let reg = match self.next_reg() {
                Ok(r) => r,
                Err(e) => {
                    return Err(e);
                },
            };
            proof {
                lemma_bindings_height(bindings@, k as int);
                assert(!live0.has(reg) && !added.contains(reg));
            }
            let pair = &bindings[k];
            let ghost pl1 = self.lines@;
            let ghost pc1 = self.consts@;
            let ghost names_k = names_of(self.bindings.rep());
            let ghost sa1 = *self;
            match self.compile_tok(&pair.1, Some(reg)) {
                Ok(_) => {},
                Err(e) => {
                    proof {
                        chain2(self.lines@, pl1, l0, self.consts@, pc1, c0);
                        if e != CompileError::ResourceExhaustionError {
                            lemma_check_bindings_step(bindings@, k as int, names0);
                            lemma_check_bindings_err(bindings@, k + 1, names0);
                        }
                    }
                    return Err(e);
                },
            }
            proof {
                chain2(self.lines@, pl1, l0, self.consts@, pc1, c0);
                assert forall|q: Reg| #[trigger] self.preserve.has(q) == sa1.preserve.has(q) by {
                    assert(self.live(q) == sa1.live(q));
                }
            }
            let name = pair.0.clone();
            let ghost rep_before = self.bindings.rep();
            self.bindings.bind(name, reg);
            self.preserve.insert(reg);
            proof {
                lemma_names_push(rep_before, (name, reg));
                lemma_check_bindings_step(bindings@, k as int, names0);
                let prev_added = added;
                added = added.push(reg);
                assert forall|q: Reg|
                    #[trigger] self.preserve.has(q) == (live0.has(q) || added.contains(q)) by {
                    lemma_seq_contains_push(prev_added, reg, q);
                }
                assert(added[k as int] == reg);
                assert forall|j1: int, j2: int| 0 <= j1 < j2 < k + 1 implies added[j1]
                    != added[j2] by {
                    if j2 == k {
                        assert(!prev_added.contains(reg));
                        assert(prev_added[j1] == added[j1]);
                        if added[j1] == reg {
                            assert(prev_added[j1] == reg);
                        }
                    }
                }
            }
            k = k + 1;
        }
        proof {
            assert(bindings@.take(n as int) =~= bindings@);
        }
        let ghost names_mid = names_of(self.bindings.rep());
        let ghost pl2 = self.lines@;
        let ghost pc2 = self.consts@;
        let ghost sab = *self;
        let out = match self.compile_tok(body, None) {
            Ok(r) => r,
            Err(e) => {
                proof {
                    chain2(self.lines@, pl2, l0, self.consts@, pc2, c0);
                }
                return Err(e);
            },
        };
        proof {
            chain2(self.lines@, pl2, l0, self.consts@, pc2, c0);
            assert forall|q: Reg| #[trigger] self.preserve.has(q) == sab.preserve.has(q) by {
                assert(self.live(q) == sab.live(q));
            }
        }
        proof {
            assert(added.take(n as int) =~= added);
        }
        let mut k2: usize = n;
        while k2 > 0
            invariant
                self.wf(),
                k2 <= n,
                n == bindings@.len(),
                added.len() == n as int,
                seq_extends(self.lines@, l0),
                seq_extends(self.consts@, c0),
                self.rsp_parity == old(self).rsp_parity,
                self.bindings.rep().len() == env0.len() + k2,
                forall|j: int| 0 <= j < env0.len() ==> #[trigger] self.bindings.rep()[j] == env0[j],
                forall|j: int|
                    0 <= j < k2 ==> (#[trigger] self.bindings.rep()[env0.len() + j]).1 == added[j],
                forall|q: Reg|
                    #[trigger] self.preserve.has(q) == (live0.has(q) || added.take(
                        k2 as int,
                    ).contains(q)),
                forall|j: int| 0 <= j < n ==> usable(#[trigger] added[j]) && !live0.has(added[j]),
                forall|j1: int, j2: int| 0 <= j1 < j2 < n ==> added[j1] != added[j2],
            decreases k2,
        {
            proof {
                let j = k2 - 1;
                assert((self.bindings.rep()[env0.len() + j]).1 == added[j]);
                assert(self.bindings.rep().last() == self.bindings.rep()[env0.len() + j]);
            }
            let pair2 = self.bindings.unbind();
            self.preserve.remove(pair2.1);
            proof {
                assert(pair2.1 == added[k2 - 1]);
                assert(added.take(k2 as int) =~= added.take(k2 - 1).push(added[k2 - 1]));
                assert forall|q: Reg|
                    #[trigger] self.preserve.has(q) == (live0.has(q) || added.take(
                        k2 - 1,
                    ).contains(q)) by {
                    lemma_seq_contains_push(added.take(k2 - 1), added[k2 - 1], q);
                    if added.take(k2 - 1).contains(q) {
                        let jj = choose|jj: int|
                            0 <= jj < k2 - 1 && (#[trigger] added.take(k2 - 1)[jj]) == q;
                        assert(added[jj] == q);
                    }
                }
            }
            k2 = k2 - 1;
        }
        proof {
            assert(added.take(0) =~= Seq::<Reg>::empty());
            assert(self.bindings.rep() =~= env0);
            assert(check_let(bindings@, *body, names0) == check_node(*body, names_mid));
        }
        Ok(out)
    }

    /// Dispatches an operator application to its generation path,
    /// validating operator support and arity before anything is
    /// emitted. The arithmetic and comparison operators are handled
    /// here; the rest cascade to the list and control paths.
    #[verifier::spinoff_prover]
    #[verifier::rlimit(100)]
    fn compile_expr(&mut self, e: &Expr, target: Option<Reg>) -> (res: Result<Reg, CompileError>)
        requires
            old(self).wf(),
        ensures
            final(self).wf(),
            seq_extends(final(self).lines@, old(self).lines@),
            seq_extends(final(self).consts@, old(self).consts@),
            res matches Ok(r) ==> {
                &&& final(self).rsp_parity == old(self).rsp_parity
                &&& final(self).bindings.rep() == old(self).bindings.rep()
                &&& (forall|q: Reg|
                    #[trigger] final(self).preserve.has(q) == old(self).preserve.has(q))
                &&& check_expr(*e, names_of(old(self).bindings.rep())) is Ok
            },
            res matches Err(er) ==> er == CompileError::ResourceExhaustionError || check_expr(
                *e,
                names_of(old(self).bindings.rep()),
            ) == Err::<(), CompileError>(er),
            !supported_op(e.op@) ==> res == Err::<Reg, CompileError>(
                CompileError::UnsupportedOperatorError,
            ) && *final(self) == *old(self),
            supported_op(e.op@) && !arity_ok(e.op@, e.params@.len()) ==> res == Err::<
                Reg,
                CompileError,
            >(CompileError::StructuralError) && *final(self) == *old(self),
        decreases params_height(e.params@) as int, 5int,
    {
        let ghost names0 = names_of(self.bindings.rep());
        proof {
            lemma_extends_refl(self.lines@);
            lemma_extends_refl(self.consts@);
        }
        if op_is(&e.op, "+") {
            match check_params(e, 2) {
                Err(er) => {
                    proof {
                        lemma_op_classes();
                        assert(check_expr(*e, names0) == Err::<(), CompileError>(
                            CompileError::StructuralError,
                        ));
                    }
                    Err(er)
                },
                Ok(_) => {
                    proof {
                        lemma_op_classes();
                        lemma_params_height(e.params@, 0);
                        lemma_params_height(e.params@, 1);
                    }
                    let r = self.arith(RuntimeFn::Add, &e.params[0], &e.params[1]);
                    proof {
                        lemma_op_classes();
                        assert(check_expr(*e, names0) == check_pair(e.params@[0], e.params@[1], names0));
                    }
                    r
                },
            }
        } else if op_is(&e.op, "-") {
            match check_params(e, 2) {
                Err(er) => {
                    proof {
                        lemma_op_classes();
                        assert(check_expr(*e, names0) == Err::<(), CompileError>(
                            CompileError::StructuralError,
                        ));
                    }
                    Err(er)
                },
                Ok(_) => {
                    proof {
                        lemma_op_classes();
                        lemma_params_height(e.params@, 0);
                        lemma_params_height(e.params@, 1);
                    }
                    let r = self.arith(RuntimeFn::Sub, &e.params[0], &e.params[1]);
                    proof {
                        lemma_op_classes();
                        assert(check_expr(*e, names0) == check_pair(e.params@[0], e.params@[1], names0));
                    }
                    r
                },
            }
        } else if op_is(&e.op, "*") {
            match check_params(e, 2) {
                Err(er) => {
                    proof {
                        lemma_op_classes();
                        assert(check_expr(*e, names0) == Err::<(), CompileError>(
                            CompileError::StructuralError,
                        ));
                    }
                    Err(er)
                },
                Ok(_) => {
                    proof {
                        lemma_op_classes();
                        lemma_params_height(e.params@, 0);
                        lemma_params_height(e.params@, 1);
                    }
                    let r = self.arith(RuntimeFn::Mul, &e.params[0], &e.params[1]);
                    proof {
                        lemma_op_classes();
                        assert(check_expr(*e, names0) == check_pair(e.params@[0], e.params@[1], names0));
                    }
                    r
                },
            }
        } else if op_is(&e.op, "/") {
            match check_params(e, 2) {
                Err(er) => {
                    proof {
                        lemma_op_classes();
                        assert(check_expr(*e, names0) == Err::<(), CompileError>(
                            CompileError::StructuralError,
                        ));
                    }
                    Err(er)
                },
                Ok(_) => {
                    proof {
                        lemma_op_classes();
                        lemma_params_height(e.params@, 0);
                        lemma_params_height(e.params@, 1);
                    }
                    let r = self.arith(RuntimeFn::Div, &e.params[0], &e.params[1]);
                    proof {
                        lemma_op_classes();
                        assert(check_expr(*e, names0) == check_pair(e.params@[0], e.params@[1], names0));
                    }
                    r
                },
            }
        } else if op_is(&e.op, "mod") {
            match check_params(e, 2) {
                Err(er) => {
                    proof {
                        lemma_op_classes();
                        assert(check_expr(*e, names0) == Err::<(), CompileError>(
                            CompileError::StructuralError,
                        ));
                    }
                    Err(er)
                },
                Ok(_) => {
                    proof {
                        lemma_op_classes();
                        lemma_params_height(e.params@, 0);
                        lemma_params_height(e.params@, 1);
                    }
                    let r = self.arith(RuntimeFn::Mod, &e.params[0], &e.params[1]);
                    proof {
                        lemma_op_classes();
                        assert(check_expr(*e, names0) == check_pair(e.params@[0], e.params@[1], names0));
                    }
                    r
                },
            }
        } else if op_is(&e.op, "=") {
            match check_params(e, 2) {
                Err(er) => {
                    proof {
                        lemma_op_classes();
                        assert(check_expr(*e, names0) == Err::<(), CompileError>(
                            CompileError::StructuralError,
                        ));
                    }
                    Err(er)
                },
                Ok(_) => {
                    proof {
                        lemma_op_classes();
                        lemma_params_height(e.params@, 0);
                        lemma_params_height(e.params@, 1);
                    }
                    let r = self.arith(RuntimeFn::Equal, &e.params[0], &e.params[1]);
                    proof {
                        lemma_op_classes();
                        assert(check_expr(*e, names0) == check_pair(e.params@[0], e.params@[1], names0));
                    }
                    r
                },
            }
        } else {
            self.compile_expr_list(e, target)
        }
    }

    /// The list-primitive segment of the operator dispatch.
    #[verifier::spinoff_prover]
    #[verifier::rlimit(100)]
    fn compile_expr_list(&mut self, e: &Expr, target: Option<Reg>) -> (res: Result<Reg, CompileError>)
        requires
            old(self).wf(),
            e.op@ != "+"@,
            e.op@ != "-"@,
            e.op@ != "*"@,
            e.op@ != "/"@,
            e.op@ != "mod"@,
            e.op@ != "="@,
        ensures
            final(self).wf(),
            seq_extends(final(self).lines@, old(self).lines@),
            seq_extends(final(self).consts@, old(self).consts@),
            res matches Ok(r) ==> {
                &&& final(self).rsp_parity == old(self).rsp_parity
                &&& final(self).bindings.rep() == old(self).bindings.rep()
                &&& (forall|q: Reg|
                    #[trigger] final(self).preserve.has(q) == old(self).preserve.has(q))
                &&& check_expr(*e, names_of(old(self).bindings.rep())) is Ok
            },
            res matches Err(er) ==> er == CompileError::ResourceExhaustionError || check_expr(
                *e,
                names_of(old(self).bindings.rep()),
            ) == Err::<(), CompileError>(er),
            !supported_op(e.op@) ==> res == Err::<Reg, CompileError>(
                CompileError::UnsupportedOperatorError,
            ) && *final(self) == *old(self),
            supported_op(e.op@) && !arity_ok(e.op@, e.params@.len()) ==> res == Err::<
                Reg,
                CompileError,
            >(CompileError::StructuralError) && *final(self) == *old(self),
        decreases params_height(e.params@) as int, 4int,
    {
        let ghost names0 = names_of(self.bindings.rep());
        proof {
            lemma_extends_refl(self.lines@);
            lemma_extends_refl(self.consts@);
        }
        if op_is(&e.op, "empty") {
            match check_params(e, 0) {
                Err(er) => {
                    proof {
                        lemma_op_classes();
                        assert(check_expr(*e, names0) == Err::<(), CompileError>(
                            CompileError::StructuralError,
                        ));
                    }
                    Err(er)
                },
                Ok(_) => {
                    proof {
                        lemma_op_classes();
                    }
                    let r = self.call_function(RuntimeFn::Empty);
                    proof {
                        lemma_op_classes();
                        assert(check_expr(*e, names0) == Ok::<(), CompileError>(()));
                    }
                    r
                },
            }
        } else if op_is(&e.op, "first") {
            match check_params(e, 1) {
                Err(er) => {
                    proof {
                        lemma_op_classes();
                        assert(check_expr(*e, names0) == Err::<(), CompileError>(
                            CompileError::StructuralError,
                        ));
                    }
                    Err(er)
                },
                Ok(_) => {
                    proof {
                        lemma_op_classes();
                        lemma_params_height(e.params@, 0);
                    }
                    let r = self.call_one_param(RuntimeFn::First, &e.params[0]);
                    proof {
                        lemma_op_classes();
                        assert(check_expr(*e, names0) == check_node(e.params@[0], names0));
                    }
                    r
                },
            }
        } else if op_is(&e.op, "rest") {
            match check_params(e, 1) {
                Err(er) => {
                    proof {
                        lemma_op_classes();
                        assert(check_expr(*e, names0) == Err::<(), CompileError>(
                            CompileError::StructuralError,
                        ));
                    }
                    Err(er)
                },
                Ok(_) => {
                    proof {
                        lemma_op_classes();
                        lemma_params_height(e.params@, 0);
                    }
                    let r = self.call_one_param(RuntimeFn::Rest, &e.params[0]);
                    proof {
                        lemma_op_classes();
                        assert(check_expr(*e, names0) == check_node(e.params@[0], names0));
                    }
                    r
                },
            }
        } else if op_is(&e.op, "empty?") {
            match check_params(e, 1) {
                Err(er) => {
                    proof {
                        lemma_op_classes();
                        assert(check_expr(*e, names0) == Err::<(), CompileError>(
                            CompileError::StructuralError,
                        ));
                    }
                    Err(er)
                },
                Ok(_) => {
                    proof {
                        lemma_op_classes();
                        lemma_params_height(e.params@, 0);
                    }
                    let r = self.call_one_param(RuntimeFn::IsEmpty, &e.params[0]);
                    proof {
                        lemma_op_classes();
                        assert(check_expr(*e, names0) == check_node(e.params@[0], names0));
                    }
                    r
                },
            }
        } else if op_is(&e.op, "cons") {
            match check_params(e, 2) {
                Err(er) => {
                    proof {
                        lemma_op_classes();
                        assert(check_expr(*e, names0) == Err::<(), CompileError>(
                            CompileError::StructuralError,
                        ));
                    }
                    Err(er)
                },
                Ok(_) => {
                    proof {
                        lemma_op_classes();
                        lemma_params_height(e.params@, 0);
                        lemma_params_height(e.params@, 1);
                    }
                    let r = self.call_two_param(RuntimeFn::Cons, &e.params[0], &e.params[1]);
                    proof {
                        lemma_op_classes();
                        assert(check_expr(*e, names0) == check_pair(e.params@[0], e.params@[1], names0));
                    }
                    r
                },
            }
        } else if op_is(&e.op, "append") {
            match check_params(e, 2) {
                Err(er) => {
                    proof {
                        lemma_op_classes();
                        assert(check_expr(*e, names0) == Err::<(), CompileError>(
                            CompileError::StructuralError,
                        ));
                    }
                    Err(er)
                },
                Ok(_) => {
                    proof {
                        lemma_op_classes();
                        lemma_params_height(e.params@, 0);
                        lemma_params_height(e.params@, 1);
                    }
                    let r = self.call_two_param(RuntimeFn::Append, &e.params[0], &e.params[1]);
                    proof {
                        lemma_op_classes();
                        assert(check_expr(*e, names0) == check_pair(e.params@[0], e.params@[1], names0));
                    }
                    r
                },
            }
        } else {
            self.compile_expr_ctrl(e, target)
        }
    }

    /// The variadic, unboxing and control segment of the operator
    /// dispatch.
    #[verifier::spinoff_prover]
    #[verifier::rlimit(100)]
    fn compile_expr_ctrl(&mut self, e: &Expr, target: Option<Reg>) -> (res: Result<Reg, CompileError>)
        requires
            old(self).wf(),
            e.op@ != "+"@,
            e.op@ != "-"@,
            e.op@ != "*"@,
            e.op@ != "/"@,
            e.op@ != "mod"@,
            e.op@ != "="@,
            e.op@ != "empty"@,
            e.op@ != "first"@,
            e.op@ != "rest"@,
            e.op@ != "empty?"@,
            e.op@ != "cons"@,
            e.op@ != "append"@,
        ensures
            final(self).wf(),
            seq_extends(final(self).lines@, old(self).lines@),
            seq_extends(final(self).consts@, old(self).consts@),
            res matches Ok(r) ==> {
                &&& final(self).rsp_parity == old(self).rsp_parity
                &&& final(self).bindings.rep() == old(self).bindings.rep()
                &&& (forall|q: Reg|
                    #[trigger] final(self).preserve.has(q) == old(self).preserve.has(q))
                &&& check_expr(*e, names_of(old(self).bindings.rep())) is Ok
            },
            res matches Err(er) ==> er == CompileError::ResourceExhaustionError || check_expr(
                *e,
                names_of(old(self).bindings.rep()),
            ) == Err::<(), CompileError>(er),
            !supported_op(e.op@) ==> res == Err::<Reg, CompileError>(
                CompileError::UnsupportedOperatorError,
            ) && *final(self) == *old(self),
            supported_op(e.op@) && !arity_ok(e.op@, e.params@.len()) ==> res == Err::<
                Reg,
                CompileError,
            >(CompileError::StructuralError) && *final(self) == *old(self),
        decreases params_height(e.params@) as int, 3int,
    {
        let ghost names0 = names_of(self.bindings.rep());
        proof {
            lemma_extends_refl(self.lines@);
            lemma_extends_refl(self.consts@);
        }
        if op_is(&e.op, "list") {
            let r = self.call_on_stack(RuntimeFn::List, &e.params);
            proof {
                lemma_op_classes();
                assert(check_expr(*e, names0) == check_rtl(e.params@, names0));
            }
            r
        } else if op_is(&e.op, "_getint") {
            match check_params(e, 1) {
                Err(er) => {
                    proof {
                        lemma_op_classes();
                        assert(check_expr(*e, names0) == Err::<(), CompileError>(
                            CompileError::StructuralError,
                        ));
                    }
                    Err(er)
                },
                Ok(_) => {
                    proof {
                        lemma_op_classes();
                        lemma_params_height(e.params@, 0);
                    }
                    let r = self.call_one_param(RuntimeFn::GetInt, &e.params[0]);
                    proof {
                        lemma_op_classes();
                        assert(check_expr(*e, names0) == check_node(e.params@[0], names0));
                    }
                    r
                },
            }
        } else if op_is(&e.op, "_getfloat") {
            match check_params(e, 1) {
                Err(er) => {
                    proof {
                        lemma_op_classes();
                        assert(check_expr(*e, names0) == Err::<(), CompileError>(
                            CompileError::StructuralError,
                        ));
                    }
                    Err(er)
                },
                Ok(_) => {
                    proof {
                        lemma_op_classes();
                        lemma_params_height(e.params@, 0);
                    }
                    let r = self.call_one_param(RuntimeFn::GetFloat, &e.params[0]);
                    proof {
                        lemma_op_classes();
                        assert(check_expr(*e, names0) == check_node(e.params@[0], names0));
                    }
                    r
                },
            }
        } else if op_is(&e.op, "if") {
            match check_params(e, 3) {
                Err(er) => {
                    proof {
                        lemma_op_classes();
                        assert(check_expr(*e, names0) == Err::<(), CompileError>(
                            CompileError::StructuralError,
                        ));
                    }
                    Err(er)
                },
                Ok(_) => {
                    proof {
                        lemma_op_classes();
                        lemma_params_height(e.params@, 0);
                        lemma_params_height(e.params@, 1);
                        lemma_params_height(e.params@, 2);
                    }
                    let r = self.compile_if(&e.params[0], &e.params[1], &e.params[2], target);
                    proof {
                        lemma_op_classes();
                        assert(check_expr(*e, names0) == check_triple(
                            e.params@[0],
                            e.params@[1],
                            e.params@[2],
                            names0,
                        ));
                    }
                    r
                },
            }
        } else {
            proof {
                lemma_op_classes();
                assert(check_expr(*e, names0) == Err::<(), CompileError>(
                    CompileError::UnsupportedOperatorError,
                ));
            }
            Err(CompileError::UnsupportedOperatorError)
        }
    }

    /// Generates the instructions realizing one node's value. When a
    /// target register is supplied, the result is guaranteed to end up
    /// there, with a final move inserted if needed; otherwise the
    /// natural result register is returned.
    ///
    /// On success the live set, the binding environment and the stack
    /// parity all return to their entry values: every register a node
    /// marks live is released by that same node before it returns.
    pub fn compile_tok(&mut self, t: &Node, target: Option<Reg>) -> (res: Result<
        Reg,
        CompileError,
    >)
        requires
            old(self).wf(),
        ensures
            final(self).wf(),
            seq_extends(final(self).stream(), old(self).stream()),
            seq_extends(final(self).pool(), old(self).pool()),
            res matches Ok(r) ==> {
                &&& final(self).parity() == old(self).parity()
                &&& final(self).env() == old(self).env()
                &&& (forall|q: Reg| #[trigger] final(self).live(q) == old(self).live(q))
                &&& (target matches Some(tr) ==> r == tr)
                &&& check_node(*t, old(self).names()) is Ok
            },
            res matches Err(e) ==> e == CompileError::ResourceExhaustionError || check_node(
                *t,
                old(self).names(),
            ) == Err::<(), CompileError>(e),
            root_error(*t, old(self).names()) matches Some(er) ==> res == Err::<
                Reg,
                CompileError,
            >(er) && *final(self) == *old(self),
        decreases height(*t) as int, 0int,
    {
        let ghost l0 = self.lines@;
        let ghost c0 = self.consts@;
        proof {
            lemma_extends_refl(l0);
            lemma_extends_refl(c0);
        }
        let out_r: Result<Reg, CompileError> = match t {
            Node::Expr(e) => self.compile_expr(e, target),
            Node::LetExpr(l) => self.compile_let_expr(&l.bindings, &l.body),
            Node::String(_) => self.compile_constant(t, target),
            Node::Float(_) => self.compile_constant(t, target),
            Node::Integer(_) => self.compile_constant(t, target),
            Node::LambdaExpr(_) => Err(CompileError::UnsupportedOperatorError),
        };
        match out_r {
            Err(e) => Err(e),
            Ok(out) => {
                proof {
                    assert forall|q: Reg| #[trigger] self.live(q) == old(self).live(q) by {
                        assert(self.preserve.has(q) == old(self).preserve.has(q));
                    }
                }
                match target {
                    Some(tr) => {
                        if out != tr {
                            let ghost pl1 = self.lines@;
                            let ghost pc1 = self.consts@;
                            self.emit_plain(Instr::MovRR(tr, out));
                            proof {
                                chain2(self.lines@, pl1, l0, self.consts@, pc1, c0);
                            }
                            Ok(tr)
                        } else {
                            Ok(out)
                        }
                    },
                    None => Ok(out),
                }
            },
        }
    }

    /// Compiles one top-level node, leaving its value in the return
    /// register, and hands back the accumulated constant pool and the
    /// emitted instruction stream.
    ///
    /// On success the stream's call sites are all 16-byte aligned, the
    /// words it pushes onto the stack net to zero, and every label it
    /// mentions was allocated in the returned pool, which extends the
    /// pool this compiler started from.
    pub fn compile(self, t: Node) -> (res: Result<
        (Vec<Option<u64>>, Vec<Instr>),
        CompileError,
    >)
        requires
            self.ready(),
        ensures
            res matches Ok(out) ==> {
                &&& check_node(t, Seq::<Seq<char>>::empty()) is Ok
                &&& calls_aligned(out.1@)
                &&& stack_words(out.1@) == 0
                &&& labels_bounded(out.1@, out.0@.len() as int)
                &&& pool_distinct(out.0@)
                &&& seq_extends(out.0@, self.pool())
            },
            res matches Err(e) ==> e == CompileError::ResourceExhaustionError || check_node(
                t,
                Seq::<Seq<char>>::empty(),
            ) == Err::<(), CompileError>(e),
    {
        let mut c = self;
        proof {
            assert(names_of(c.bindings.rep()) =~= Seq::<Seq<char>>::empty());
        }
        match c.compile_tok(&t, Some(Reg::Rax)) {
            Ok(_) => {
                proof {
                    reveal(stream_ok);
                }
                Ok((c.consts, c.lines))
            },
            Err(e) => Err(e),
        }
    }

    /// The instructions emitted so far.
    pub fn instructions(&self) -> (v: &Vec<Instr>)
        ensures
            v@ == self.stream(),
    {
        &self.lines
    }

    /// The constant pool accumulated so far.
    pub fn pool_entries(&self) -> (v: &Vec<Option<u64>>)
        ensures
            v@ == self.pool(),
    {
        &self.consts
    }

    /// Words currently pushed onto the stack since frame entry.
    pub fn stack_parity(&self) -> (n: usize)
        ensures
            n as int == self.parity(),
    {
        self.rsp_parity
    }

    /// How many names are currently bound.
    pub fn binding_count(&self) -> (n: usize)
        ensures
            n == self.env().len(),
    {
        self.bindings.len()
    }

    /// Whether no register at all is currently live.
    pub fn no_live_registers(&self) -> (b: bool)
        requires
            self.wf(),
        ensures
            b == (forall|r: Reg| !self.live(r)),
    {
        let b = self.preserve.is_clear();
        proof {
            if b {
                assert forall|r: Reg| !self.live(r) by {
                    assert(!self.preserve.has(r));
                }
            } else {
                let r = choose|r: Reg| self.preserve.has(r);
                assert(self.live(r));
            }
        }
        b
    }
}

/// Chains the append-only facts of two consecutive generation steps,
/// for the instruction stream and the constant pool at once.
proof fn chain2(
    lc: Seq<Instr>,
    lb: Seq<Instr>,
    la: Seq<Instr>,
    cc: Seq<Option<u64>>,
    cb: Seq<Option<u64>>,
    ca: Seq<Option<u64>>,
)
    requires
        seq_extends(lc, lb),
        seq_extends(lb, la),
        seq_extends(cc, cb),
        seq_extends(cb, ca),
    ensures
        seq_extends(lc, la),
        seq_extends(cc, ca),
{
    lemma_extends_trans(lc, lb, la);
    lemma_extends_trans(cc, cb, ca);
}

/// Whether the pool already holds a float constant with this bit
/// pattern.
pub open spec fn pool_has(pool: Seq<Option<u64>>, bits: u64) -> bool {
    exists|i: int| 0 <= i < pool.len() && pool[i] == Some(bits)
}

/// The label a float constant gets: the first pool entry already
/// holding it, or the next free label when it is not yet in the pool.
pub open spec fn pool_find(pool: Seq<Option<u64>>, bits: u64) -> int
    decreases pool.len(),
{
    if pool.len() == 0 {
        0
    } else if pool[0] == Some(bits) {
        0
    } else {
        1 + pool_find(pool.subrange(1, pool.len() as int), bits)
    }
}

/// `pool_find` names the first entry holding the constant, or the pool
/// length when no entry does.
pub proof fn lemma_pool_find(pool: Seq<Option<u64>>, bits: u64)
    ensures
        0 <= pool_find(pool, bits) <= pool.len(),
        pool_find(pool, bits) < pool.len() ==> pool[pool_find(pool, bits)] == Some(bits),
        forall|k: int| 0 <= k < pool_find(pool, bits) ==> pool[k] != Some(bits),
        pool_find(pool, bits) == pool.len() ==> !pool_has(pool, bits),
    decreases pool.len(),
{
    if pool.len() > 0 && pool[0] != Some(bits) {
        let rest = pool.subrange(1, pool.len() as int);
        lemma_pool_find(rest, bits);
        assert forall|k: int| 0 <= k < pool_find(pool, bits) implies pool[k] != Some(bits) by {
            if k > 0 {
                assert(rest[k - 1] == pool[k]);
            }
        }
        if pool_find(pool, bits) == pool.len() {
            assert forall|j: int| 0 <= j < pool.len() implies pool[j] != Some(bits) by {
                if j > 0 {
                    assert(rest[j - 1] == pool[j]);
                }
            }
        }
    }
}

/// The pool is value-deduplicated: no float constant is stored twice.
pub open spec fn pool_distinct(pool: Seq<Option<u64>>) -> bool {
    forall|i: int, j: int|
        0 <= i < j < pool.len() && (#[trigger] pool[i]) is Some ==> pool[i] != #[trigger] pool[j]
}

/// Whether a String holds exactly the characters of a literal.
fn op_is(op: &String, lit: &str) -> (b: bool)
    ensures
        b == (op@ == lit@),
{
    let s: String = lit.to_owned();
    *op == s
}

/// Validates an operator's fixed arity, the structural check made
/// before any instruction of the node is emitted.
fn check_params(e: &Expr, n: usize) -> (r: Result<(), CompileError>)
    ensures
        r is Ok <==> e.params@.len() == n,
        r matches Err(er) ==> er == CompileError::StructuralError,
{
    if e.params.len() == n {
        Ok(())
    } else {
        Err(CompileError::StructuralError)
    }
}

} // verus!
