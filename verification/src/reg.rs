//! The fixed inventory of machine registers, the platform's
//! caller-saved classification, and the live set: a fixed-size
//! membership structure over the inventory, so that liveness queries
//! are constant-time and order-independent by construction.

use vstd::prelude::*;

verus! {

/// A physical machine register of the 64-bit target.
#[derive(Clone, Copy, PartialEq, Eq, Structural, Debug, Hash)]
pub enum Reg {
    Rax,
    Rbx,
    Rcx,
    Rdx,
    Rsi,
    Rdi,
    R8,
    R9,
    R10,
    R11,
    R12,
    R13,
    R14,
    R15,
}

/// The position of a register in the fixed inventory.
pub open spec fn reg_idx(r: Reg) -> int {
    match r {
        Reg::Rax => 0,
        Reg::Rbx => 1,
        Reg::Rcx => 2,
        Reg::Rdx => 3,
        Reg::Rsi => 4,
        Reg::Rdi => 5,
        Reg::R8 => 6,
        Reg::R9 => 7,
        Reg::R10 => 8,
        Reg::R11 => 9,
        Reg::R12 => 10,
        Reg::R13 => 11,
        Reg::R14 => 12,
        Reg::R15 => 13,
    }
}

pub proof fn lemma_reg_idx_injective(a: Reg, b: Reg)
    ensures
        a != b ==> reg_idx(a) != reg_idx(b),
        0 <= reg_idx(a) < 14,
{
}

/// Every slot position belongs to some register of the inventory.
pub proof fn lemma_reg_idx_surjective(j: int)
    requires
        0 <= j < 14,
    ensures
        exists|r: Reg| reg_idx(r) == j,
{
    if j == 0 {
        assert(reg_idx(Reg::Rax) == j);
    } else if j == 1 {
        assert(reg_idx(Reg::Rbx) == j);
    } else if j == 2 {
        assert(reg_idx(Reg::Rcx) == j);
    } else if j == 3 {
        assert(reg_idx(Reg::Rdx) == j);
    } else if j == 4 {
        assert(reg_idx(Reg::Rsi) == j);
    } else if j == 5 {
        assert(reg_idx(Reg::Rdi) == j);
    } else if j == 6 {
        assert(reg_idx(Reg::R8) == j);
    } else if j == 7 {
        assert(reg_idx(Reg::R9) == j);
    } else if j == 8 {
        assert(reg_idx(Reg::R10) == j);
    } else if j == 9 {
        assert(reg_idx(Reg::R11) == j);
    } else if j == 10 {
        assert(reg_idx(Reg::R12) == j);
    } else if j == 11 {
        assert(reg_idx(Reg::R13) == j);
    } else if j == 12 {
        assert(reg_idx(Reg::R14) == j);
    } else {
        assert(reg_idx(Reg::R15) == j);
    }
}

fn reg_index(r: Reg) -> (i: usize)
    ensures
        i == reg_idx(r),
{
    match r {
        Reg::Rax => 0,
        Reg::Rbx => 1,
        Reg::Rcx => 2,
        Reg::Rdx => 3,
        Reg::Rsi => 4,
        Reg::Rdi => 5,
        Reg::R8 => 6,
        Reg::R9 => 7,
        Reg::R10 => 8,
        Reg::R11 => 9,
        Reg::R12 => 10,
        Reg::R13 => 11,
        Reg::R14 => 12,
        Reg::R15 => 13,
    }
}

/// Registers the allocator may hand out as scratch. The stack pointer
/// and frame pointer are never handed out; the return register and the
/// two argument registers are managed explicitly by the call paths.
pub open spec fn usable(r: Reg) -> bool {
    match r {
        Reg::Rbx | Reg::Rcx | Reg::Rdx | Reg::R8 | Reg::R9 | Reg::R10 | Reg::R11 | Reg::R12
            | Reg::R13 | Reg::R14 | Reg::R15 => true,
        _ => false,
    }
}

/// Registers a callee may freely overwrite, which the caller must save
/// around a call when their values are live.
pub open spec fn caller_saved(r: Reg) -> bool {
    match r {
        Reg::Rax | Reg::Rcx | Reg::Rdx | Reg::Rsi | Reg::Rdi | Reg::R8 | Reg::R9 | Reg::R10
            | Reg::R11 => true,
        _ => false,
    }
}

/// The allocator's candidate registers, in the deterministic order in
/// which free ones are considered.
pub open spec fn usable_order() -> Seq<Reg> {
    seq![Reg::Rbx, Reg::Rcx, Reg::Rdx, Reg::R8, Reg::R9, Reg::R10, Reg::R11, Reg::R12, Reg::R13,
        Reg::R14, Reg::R15]
}

pub fn usable_list() -> (v: Vec<Reg>)
    ensures
        v@ == usable_order(),
{
    let mut v: Vec<Reg> = Vec::new();
    v.push(Reg::Rbx);
    v.push(Reg::Rcx);
    v.push(Reg::Rdx);
    v.push(Reg::R8);
    v.push(Reg::R9);
    v.push(Reg::R10);
    v.push(Reg::R11);
    v.push(Reg::R12);
    v.push(Reg::R13);
    v.push(Reg::R14);
    v.push(Reg::R15);
    proof {
        assert(v@ =~= usable_order());
    }
    v
}

/// Every register in the allocator's candidate order is usable, and
/// every usable register appears in it.
pub proof fn lemma_usable_order(r: Reg)
    ensures
        usable(r) <==> usable_order().contains(r),
{
    if usable(r) {
        let s = usable_order();
        match r {
            Reg::Rbx => assert(s[0] == r),
            Reg::Rcx => assert(s[1] == r),
            Reg::Rdx => assert(s[2] == r),
            Reg::R8 => assert(s[3] == r),
            Reg::R9 => assert(s[4] == r),
            Reg::R10 => assert(s[5] == r),
            Reg::R11 => assert(s[6] == r),
            Reg::R12 => assert(s[7] == r),
            Reg::R13 => assert(s[8] == r),
            Reg::R14 => assert(s[9] == r),
            Reg::R15 => assert(s[10] == r),
            _ => assert(false),
        }
    }
}

/// The set of registers currently holding values that must survive a
/// nested computation. A register may be handed out as fresh scratch
/// only while absent from this set.
pub struct LiveSet {
    slots: Vec<bool>,
}

impl LiveSet {
    /// Structural soundness: one slot per register of the inventory.
    pub closed spec fn wf(self) -> bool {
        self.slots@.len() == 14
    }

    /// Whether `r` is currently live.
    pub closed spec fn has(self, r: Reg) -> bool {
        self.slots@[reg_idx(r)]
    }

    pub open spec fn is_empty(self) -> bool {
        forall|r: Reg| !self.has(r)
    }

    pub fn new() -> (s: LiveSet)
        ensures
            s.wf(),
            forall|r: Reg| !s.has(r),
    {
        let mut v: Vec<bool> = Vec::new();
        let mut i: usize = 0;
        while i < 14
            invariant
                v@.len() == i,
                i <= 14,
                forall|j: int| 0 <= j < i ==> !v@[j],
            decreases 14 - i,
        {
            v.push(false);
            i = i + 1;
        }
        let s = LiveSet { slots: v };
        proof {
            assert forall|r: Reg| !s.has(r) by {
                lemma_reg_idx_injective(r, r);
            }
        }
        s
    }

    /// Whether no register at all is live.
    pub fn is_clear(&self) -> (b: bool)
        requires
            self.wf(),
        ensures
            b == self.is_empty(),
    {
        let mut i: usize = 0;
        while i < 14
            invariant
                i <= 14,
                self.wf(),
                forall|j: int| 0 <= j < i ==> !self.slots@[j],
            decreases 14 - i,
        {
            if self.slots[i] {
                proof {
                    let r = choose|r: Reg| reg_idx(r) == i;
                    lemma_reg_idx_surjective(i as int);
                    assert(self.has(r));
                }
                return false;
            }
            i = i + 1;
        }
        proof {
            assert forall|r: Reg| !self.has(r) by {
                lemma_reg_idx_injective(r, r);
            }
        }
        true
    }

    pub fn contains(&self, r: Reg) -> (b: bool)
        requires
            self.wf(),
        ensures
            b == self.has(r),
    {
        let i = reg_index(r);
        self.slots[i]
    }

    pub fn insert(&mut self, r: Reg)
        requires
            old(self).wf(),
        ensures
            final(self).wf(),
            forall|q: Reg| final(self).has(q) == (old(self).has(q) || q == r),
    {
        let i = reg_index(r);
        self.slots.set(i, true);
        proof {
            assert forall|q: Reg| self.has(q) == (old(self).has(q) || q == r) by {
                lemma_reg_idx_injective(q, r);
            }
        }
    }

    pub fn remove(&mut self, r: Reg)
        requires
            old(self).wf(),
        ensures
            final(self).wf(),
            forall|q: Reg| final(self).has(q) == (old(self).has(q) && q != r),
    {
        let i = reg_index(r);
        self.slots.set(i, false);
        proof {
            assert forall|q: Reg| self.has(q) == (old(self).has(q) && q != r) by {
                lemma_reg_idx_injective(q, r);
            }
        }
    }
}

} // verus!
