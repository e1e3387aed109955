//! The binding environment: names in scope mapped to the registers
//! holding their values. Entries follow a stack discipline that mirrors
//! the nesting of binding blocks, so a name bound again in an inner
//! block shadows the outer entry and the outer entry returns to force
//! when the inner block's body has finished generating.

use vstd::prelude::*;

use crate::reg::Reg;

verus! {

/// The environment: a stack of (name, register) entries, later entries
/// shadowing earlier ones.
pub struct Bindings {
    entries: Vec<(String, Reg)>,
}

/// The register a name resolves to: the latest entry with that name.
pub open spec fn lookup_in(s: Seq<(String, Reg)>, name: Seq<char>) -> Option<Reg>
    decreases s.len(),
{
    if s.len() == 0 {
        None
    } else if s.last().0@ == name {
        Some(s.last().1)
    } else {
        lookup_in(s.drop_last(), name)
    }
}

/// The names bound by a stack of entries, oldest first.
pub open spec fn names_of(s: Seq<(String, Reg)>) -> Seq<Seq<char>> {
    s.map_values(|p: (String, Reg)| p.0@)
}

/// Binding a name extends the name scope by that name.
pub proof fn lemma_names_push(s: Seq<(String, Reg)>, p: (String, Reg))
    ensures
        names_of(s.push(p)) == names_of(s).push(p.0@),
{
    assert(names_of(s.push(p)) =~= names_of(s).push(p.0@));
}

/// A name resolves exactly when it is among the bound names.
pub proof fn lemma_lookup_some(s: Seq<(String, Reg)>, name: Seq<char>)
    ensures
        lookup_in(s, name) is Some <==> names_of(s).contains(name),
    decreases s.len(),
{
    if s.len() > 0 {
        lemma_lookup_some(s.drop_last(), name);
        let ns = names_of(s);
        if s.last().0@ == name {
            assert(ns[s.len() - 1] == name);
        } else {
            assert(names_of(s.drop_last()) =~= ns.drop_last());
            if ns.contains(name) {
                let i = choose|i: int| 0 <= i < ns.len() && ns[i] == name;
                assert(ns.drop_last()[i] == name);
            }
            if ns.drop_last().contains(name) {
                let i = choose|i: int| 0 <= i < ns.len() - 1 && ns.drop_last()[i] == name;
                assert(ns[i] == name);
            }
        }
    }
}

impl Bindings {
    /// The entry stack, oldest first.
    pub closed spec fn rep(self) -> Seq<(String, Reg)> {
        self.entries@
    }

    /// The names in scope, oldest first.
    pub open spec fn names(self) -> Seq<Seq<char>> {
        names_of(self.rep())
    }

    pub fn new() -> (b: Bindings)
        ensures
            b.rep() == Seq::<(String, Reg)>::empty(),
    {
        Bindings { entries: Vec::new() }
    }

    pub fn len(&self) -> (n: usize)
        ensures
            n == self.rep().len(),
    {
        self.entries.len()
    }

    /// Resolves a name to the register holding its value.
    pub fn lookup(&self, name: &String) -> (r: Option<Reg>)
        ensures
            r == lookup_in(self.rep(), name@),
    {
        let n = self.entries.len();
        proof {
            assert(self.entries@.take(n as int) =~= self.entries@);
        }
        let mut i: usize = n;
        while i > 0
            invariant
                i <= n,
                n == self.entries@.len(),
                lookup_in(self.entries@, name@) == lookup_in(self.entries@.take(i as int), name@),
            decreases i,
        {
            let pair = &self.entries[i - 1];
            if pair.0 == *name {
                proof {
                    let t = self.entries@.take(i as int);
                    assert(t.last() == self.entries@[i - 1]);
                }
                return Some(pair.1);
            }
            proof {
                let t = self.entries@.take(i as int);
                assert(t.last() == self.entries@[i - 1]);
                assert(t.drop_last() =~= self.entries@.take(i - 1));
            }
            i = i - 1;
        }
        proof {
            assert(self.entries@.take(0) =~= Seq::<(String, Reg)>::empty());
        }
        None
    }

    /// Binds a name, shadowing any earlier entry with the same name.
    pub fn bind(&mut self, name: String, r: Reg)
        ensures
            final(self).rep() == old(self).rep().push((name, r)),
    {
        self.entries.push((name, r));
    }

    /// Unbinds the most recent entry, returning it.
    pub fn unbind(&mut self) -> (e: (String, Reg))
        requires
            old(self).rep().len() > 0,
        ensures
            final(self).rep() == old(self).rep().drop_last(),
            e == old(self).rep().last(),
    {
        let e = self.entries.pop().unwrap();
        proof {
            assert(self.entries@ =~= old(self).entries@.drop_last());
        }
        e
    }
}

} // verus!
