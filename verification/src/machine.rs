//! The counter machine: instructions, sparse register states, and the
//! evaluator for the operational semantics.

use vstd::prelude::*;
use crate::natural::Natural;

verus! {

/// One counter-machine instruction. Registers are indexed by `u128`,
/// jump targets are positions in the program.
#[derive(Clone, Copy, Debug, PartialEq, Eq)]
pub enum Instruction {
    /// Add one to the register, then jump to the label.
    Add(u128, usize),
    /// If the register is nonzero, subtract one and jump to the first
    /// label; otherwise leave it at zero and jump to the second.
    Sub(u128, usize, usize),
    /// Stop.
    Halt,
}

/// A sparse register state: a mapping from register index to value, where
/// an absent index reads as zero. Its view is the total map from every
/// index to the value read there.
pub struct Registers {
    entries: Vec<(u128, Natural)>,
}

/// The value read for register `r` from an association list: the first
/// entry with that key, or zero when there is none.
spec fn lookup(s: Seq<(u128, Natural)>, r: u128) -> nat
    decreases s.len(),
{
    if s.len() == 0 {
        0
    } else if s[0].0 == r {
        s[0].1@
    } else {
        lookup(s.drop_first(), r)
    }
}

impl View for Registers {
    type V = Map<u128, nat>;

    closed spec fn view(&self) -> Map<u128, nat> {
        Map::new(|r: u128| true, |r: u128| lookup(self.entries@, r))
    }
}

impl Registers {
    /// The representation invariant: keys are unique and values well formed.
    pub closed spec fn wf(&self) -> bool {
        &&& forall|i: int, j: int|
            0 <= i < j < self.entries@.len() ==> (#[trigger] self.entries@[i]).0 != (
            #[trigger] self.entries@[j]).0
        &&& forall|i: int| 0 <= i < self.entries@.len() ==> (#[trigger] self.entries@[i]).1.wf()
    }

    /// A state with every register at zero.
    pub fn new() -> (r: Registers)
        ensures
            r.wf(),
            forall|i: u128| r@.dom().contains(i) && #[trigger] r@[i] == 0,
    {
        Registers { entries: Vec::new() }
    }

    /// Reads a register; an index without an entry reads as zero.
    pub fn get(&self, r: u128) -> (v: Natural)
        requires
            self.wf(),
        ensures
            v.wf(),
            v@ == self@[r],
    {
        let s = Ghost(self.entries@);
        let n = self.entries.len();
        let mut i: usize = 0;
        proof {
            assert(s@.skip(0) =~= s@);
        }
        while i < n
            invariant
                i <= n == s@.len(),
                s@ == self.entries@,
                self.wf(),
                lookup(s@, r) == lookup(s@.skip(i as int), r),
            decreases n - i,
        {
            if self.entries[i].0 == r {
                proof {
                    assert(s@.skip(i as int)[0] == s@[i as int]);
                }
                return self.entries[i].1.duplicate();
            }
            proof {
                assert(s@.skip(i as int)[0] == s@[i as int]);
                assert(s@.skip(i as int).drop_first() =~= s@.skip(i as int + 1));
            }
            i = i + 1;
        }
        proof {
            assert(s@.skip(n as int).len() == 0);
        }
        Natural::zero()
    }

    /// Writes a register: replaces its entry, or appends a new one.
    pub fn set(&mut self, r: u128, v: Natural)
        requires
            old(self).wf(),
            v.wf(),
        ensures
            final(self).wf(),
            final(self)@ == old(self)@.insert(r, v@),
    {
        let s = Ghost(self.entries@);
        let n = self.entries.len();
        let mut i: usize = 0;
        while i < n
            invariant
                i <= n == s@.len(),
                s@ == self.entries@,
                *self == *old(self),
                old(self).wf(),
                v.wf(),
                forall|j: int| 0 <= j < i ==> (#[trigger] s@[j]).0 != r,
            decreases n - i,
        {
            if self.entries[i].0 == r {
                self.entries.set(i, (r, v));
                proof {
                    assert forall|q: u128| lookup(self.entries@, q) == (if q == r {
                        v@
                    } else {
                        lookup(s@, q)
                    }) by {
                        lemma_lookup_update(s@, i as int, r, v, q);
                    }
                    assert(self@ =~= old(self)@.insert(r, v@));
                }
                return ;
            }
            i = i + 1;
        }
        self.entries.push((r, v));
        proof {
            assert forall|q: u128| lookup(self.entries@, q) == (if q == r {
                v@
            } else {
                lookup(s@, q)
            }) by {
                lemma_lookup_push(s@, r, v, q);
            }
            assert(self@ =~= old(self)@.insert(r, v@));
        }
    }

    /// An owned copy reading the same value for every register.
    pub fn duplicate(&self) -> (r: Registers)
        requires
            self.wf(),
        ensures
            r.wf(),
            r@ == self@,
    {
        let n = self.entries.len();
        let mut entries: Vec<(u128, Natural)> = Vec::new();
        let mut i: usize = 0;
        while i < n
            invariant
                i <= n == self.entries@.len(),
                self.wf(),
                entries@.len() == i,
                forall|j: int|
                    0 <= j < i ==> (#[trigger] entries@[j]).0 == self.entries@[j].0 && entries@[j].1@
                        == self.entries@[j].1@ && entries@[j].1.wf(),
            decreases n - i,
        {
            let key = self.entries[i].0;
            let val = self.entries[i].1.duplicate();
            entries.push((key, val));
            i = i + 1;
        }
        let r = Registers { entries };
        proof {
            assert forall|q: u128| lookup(r.entries@, q) == lookup(self.entries@, q) by {
                lemma_lookup_congruent(r.entries@, self.entries@, q);
            }
            assert(r@ =~= self@);
        }
        r
    }
}

/// Updating the entry that holds `r` changes the value read for `r` and
/// no other.
proof fn lemma_lookup_update(s: Seq<(u128, Natural)>, i: int, r: u128, v: Natural, q: u128)
    requires
        0 <= i < s.len(),
        s[i].0 == r,
        forall|a: int, b: int| 0 <= a < b < s.len() ==> (#[trigger] s[a]).0 != (#[trigger] s[b]).0,
    ensures
        lookup(s.update(i, (r, v)), q) == (if q == r {
            v@
        } else {
            lookup(s, q)
        }),
    decreases i,
{
    let t = s.update(i, (r, v));
    if i == 0 {
        assert(t[0] == (r, v));
        assert(t.drop_first() =~= s.drop_first());
    } else {
        assert(t[0] == s[0]);
        assert(s[0].0 != r);
        assert(t.drop_first() =~= s.drop_first().update(i - 1, (r, v)));
        assert(s.drop_first()[i - 1].0 == r);
        assert forall|a: int, b: int|
            0 <= a < b < s.drop_first().len() implies (#[trigger] s.drop_first()[a]).0 != (
        #[trigger] s.drop_first()[b]).0 by {
            assert(s.drop_first()[a] == s[a + 1]);
            assert(s.drop_first()[b] == s[b + 1]);
        }
        lemma_lookup_update(s.drop_first(), i - 1, r, v, q);
    }
}

/// Appending an entry for a key that is absent changes the value read for
/// that key and no other.
proof fn lemma_lookup_push(s: Seq<(u128, Natural)>, r: u128, v: Natural, q: u128)
    requires
        forall|j: int| 0 <= j < s.len() ==> (#[trigger] s[j]).0 != r,
    ensures
        lookup(s.push((r, v)), q) == (if q == r {
            v@
        } else {
            lookup(s, q)
        }),
    decreases s.len(),
{
    let t = s.push((r, v));
    if s.len() == 0 {
        assert(t[0] == (r, v));
        assert(t.drop_first() =~= Seq::<(u128, Natural)>::empty());
        assert(lookup(t.drop_first(), q) == 0);
    } else {
        assert(t[0] == s[0]);
        assert(t.drop_first() =~= s.drop_first().push((r, v)));
        assert forall|j: int| 0 <= j < s.drop_first().len() implies (
        #[trigger] s.drop_first()[j]).0 != r by {
            assert(s.drop_first()[j] == s[j + 1]);
        }
        lemma_lookup_push(s.drop_first(), r, v, q);
    }
}

/// Two association lists with the same keys and the same values read the
/// same everywhere.
proof fn lemma_lookup_congruent(s1: Seq<(u128, Natural)>, s2: Seq<(u128, Natural)>, q: u128)
    requires
        s1.len() == s2.len(),
        forall|j: int| 0 <= j < s1.len() ==> (#[trigger] s1[j]).0 == s2[j].0 && s1[j].1@ == s2[j].1@,
    ensures
        lookup(s1, q) == lookup(s2, q),
    decreases s1.len(),
{
    if s1.len() > 0 {
        assert(s1[0].0 == s2[0].0 && s1[0].1@ == s2[0].1@);
        assert forall|j: int|
            0 <= j < s1.drop_first().len() implies (#[trigger] s1.drop_first()[j]).0
            == s2.drop_first()[j].0 && s1.drop_first()[j].1@ == s2.drop_first()[j].1@ by {
            assert(s1.drop_first()[j] == s1[j + 1]);
            assert(s2.drop_first()[j] == s2[j + 1]);
        }
        lemma_lookup_congruent(s1.drop_first(), s2.drop_first(), q);
    }
}

/// Whether the machine has halted: the label is outside the program, or
/// the instruction there is `Halt`.
pub open spec fn spec_halted(p: Seq<Instruction>, l: nat, regs: Map<u128, nat>) -> bool {
    l >= p.len() || p[l as int] is Halt
}

/// One step of the operational semantics, from a state that has not halted.
pub open spec fn spec_step(p: Seq<Instruction>, l: nat, regs: Map<u128, nat>) -> (nat, Map<
    u128,
    nat,
>) {
    match p[l as int] {
        Instruction::Add(i, j) => (j as nat, regs.insert(i, regs[i] + 1)),
        Instruction::Sub(i, j, k) => if regs[i] > 0 {
            (j as nat, regs.insert(i, (regs[i] - 1) as nat))
        } else {
            (k as nat, regs)
        },
        Instruction::Halt => (l, regs),
    }
}

/// The state after `n` steps, stopping early at a halted state.
pub open spec fn spec_run(p: Seq<Instruction>, l: nat, regs: Map<u128, nat>, n: nat) -> (nat, Map<
    u128,
    nat,
>)
    decreases n,
{
    if n == 0 {
        (l, regs)
    } else {
        let prev = spec_run(p, l, regs, (n - 1) as nat);
        if spec_halted(p, prev.0, prev.1) {
            prev
        } else {
            spec_step(p, prev.0, prev.1)
        }
    }
}

/// Whether the run from the given state ever reaches a halted state. The
/// machine model is Turing-complete, so this is exactly the condition
/// under which the evaluator returns; a caller that cannot establish it
/// must impose its own step budget around `spec_run`.
pub open spec fn spec_halts(p: Seq<Instruction>, l: nat, regs: Map<u128, nat>) -> bool {
    exists|n: nat|
        spec_halted(
            p,
            #[trigger] spec_run(p, l, regs, n).0,
            spec_run(p, l, regs, n).1,
        )
}

/// Once the run reaches a halted state it stays there: the halted state is
/// the unique final state of the run.
pub proof fn lemma_spec_run_stable(p: Seq<Instruction>, l: nat, regs: Map<u128, nat>, m: nat, n: nat)
    requires
        m <= n,
        spec_halted(p, spec_run(p, l, regs, m).0, spec_run(p, l, regs, m).1),
    ensures
        spec_run(p, l, regs, n) == spec_run(p, l, regs, m),
    decreases n,
{
    if n > m {
        lemma_spec_run_stable(p, l, regs, m, (n - 1) as nat);
    }
}

/// Runs the program from the given state until the current instruction is
/// `Halt` or the label falls outside the program, and returns the state
/// reached; the caller's state is not changed. By `lemma_spec_run_stable`
/// the returned state is the unique halted state the run reaches. The
/// precondition says the run halts at all: on it rests the termination of
/// the loop, which the model itself does not guarantee.
pub fn eval_program(program: &Vec<Instruction>, state: &(usize, Registers)) -> (r: (
    usize,
    Registers,
))
    requires
        state.1.wf(),
        spec_halts(program@, state.0 as nat, state.1@),
    ensures
        r.1.wf(),
        spec_halted(program@, r.0 as nat, r.1@),
        exists|n: nat|
            #[trigger] spec_run(program@, state.0 as nat, state.1@, n) == (r.0 as nat, r.1@),
{
    let ghost p = program@;
    let ghost l0 = state.0 as nat;
    let ghost g0 = state.1@;
    let ghost h = choose|n: nat|
        spec_halted(p, #[trigger] spec_run(p, l0, g0, n).0, spec_run(p, l0, g0, n).1);
    let mut l: usize = state.0;
    let mut rs: Registers = state.1.duplicate();
    let ghost mut t: nat = 0;
    while l < program.len() && !instruction_is_halt(&program[l])
        invariant
            rs.wf(),
            p == program@,
            t <= h,
            spec_run(p, l0, g0, t) == (l as nat, rs@),
            spec_halted(p, spec_run(p, l0, g0, h).0, spec_run(p, l0, g0, h).1),
        decreases h - t,
    {
        let ins = program[l];
        let ghost pre = (l as nat, rs@);
        match ins {
            Instruction::Add(i, j) => {
                let v = rs.get(i);
                let w = v.succ();
                rs.set(i, w);
                l = j;
            },
            Instruction::Sub(i, j, k) => {
                let v = rs.get(i);
                if !v.is_zero() {
                    let w = v.pred();
                    rs.set(i, w);
                    l = j;
                } else {
                    l = k;
                }
            },
            Instruction::Halt => {
                proof {
                    assert(false);
                }
            },
        }
        proof {
            assert(!spec_halted(p, pre.0, pre.1));
            // were `t` already the halting step, the current state would
            // have halted
            assert(t < h);
            assert((l as nat, rs@) == spec_step(p, pre.0, pre.1));
            t = t + 1;
            assert(spec_run(p, l0, g0, t) == (l as nat, rs@));
        }
    }
    (l, rs)
}

/// Tells whether an instruction is `Halt`.
fn instruction_is_halt(i: &Instruction) -> (r: bool)
    ensures
        r == (*i is Halt),
{
    match i {
        Instruction::Halt => true,
        _ => false,
    }
}

} // verus!
