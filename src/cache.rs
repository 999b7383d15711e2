//! The register cache of the caching code generator.
//!
//! Five callee-saved registers hold tape cells. They are taken in a fixed
//! rotation: a miss takes the register after the one the previous miss took,
//! whatever has been used since, and writes its old cell back first.
use vstd::prelude::*;
use crate::op::in_tape;
use crate::codegen::{Reg, Insn, off};

verus! {

/// Number of registers in the cache.
pub const CACHE_REGS: usize = 5;

/// The register of slot `k`, in the order of rotation.
pub open spec fn slot_reg(k: int) -> Reg {
    if k == 0 {
        Reg::R12
    } else if k == 1 {
        Reg::R13
    } else if k == 2 {
        Reg::R14
    } else if k == 3 {
        Reg::R15
    } else {
        Reg::Rbp
    }
}

fn reg_of_slot(k: usize) -> (r: Reg)
    requires
        k < CACHE_REGS,
    ensures
        r == slot_reg(k as int),
{
    if k == 0 {
        Reg::R12
    } else if k == 1 {
        Reg::R13
    } else if k == 2 {
        Reg::R14
    } else if k == 3 {
        Reg::R15
    } else {
        Reg::Rbp
    }
}

/// What the cache holds while code is generated: the cell in each slot, if
/// any, and the slot that the next miss takes.
pub struct CacheModel {
    pub slots: Seq<Option<isize>>,
    pub next: int,
}

/// Slots hold distinct cells on the tape; `next` names a slot.
pub open spec fn model_wf(c: CacheModel) -> bool {
    &&& c.slots.len() == CACHE_REGS
    &&& 0 <= c.next < CACHE_REGS
    &&& forall|k: int| 0 <= k < CACHE_REGS ==> (#[trigger] c.slots[k] matches Some(t) ==> in_tape(t))
    &&& forall|j: int, k: int| 0 <= j < CACHE_REGS && 0 <= k < CACHE_REGS && j != k
        && c.slots[j] is Some ==> c.slots[j] != c.slots[k]
}

/// The cache before any code: all slots free, rotation at the first.
pub open spec fn empty_model() -> CacheModel {
    CacheModel { slots: Seq::new(CACHE_REGS as nat, |k: int| None::<isize>), next: 0 }
}

pub open spec fn cached(c: CacheModel, t: isize) -> bool {
    exists|k: int| 0 <= k < CACHE_REGS && c.slots[k] == Some(t)
}

/// Bringing cell `t` into a register: the cache after it, the slot that
/// holds `t`, and the code emitted. A hit emits nothing; a miss takes slot
/// `next`, writes back the cell it held, loads `t` and moves the rotation on.
pub open spec fn load_spec(c: CacheModel, t: isize) -> (CacheModel, int, Seq<Insn>) {
    if cached(c, t) {
        (c, choose|k: int| 0 <= k < CACHE_REGS && c.slots[k] == Some(t), seq![])
    } else {
        let k = c.next;
        let spill = match c.slots[k] {
            Some(e) => seq![Insn::Store(off(e), slot_reg(k))],
            None => seq![],
        };
        (
            CacheModel { slots: c.slots.update(k, Some(t)), next: (k + 1) % (CACHE_REGS as int) },
            k,
            spill + seq![Insn::Load(slot_reg(k), off(t))],
        )
    }
}

/// Loads each cell of `ts` in turn, from cache `c`: the cache after, and
/// all code emitted.
pub open spec fn load_all(c: CacheModel, ts: Seq<isize>) -> (CacheModel, Seq<Insn>)
    decreases ts.len(),
{
    if ts.len() == 0 {
        (c, seq![])
    } else {
        let (c1, _, code1) = load_spec(c, ts[0]);
        let (c2, code2) = load_all(c1, ts.drop_first());
        (c2, code1 + code2)
    }
}

/// Loads cell `t` into a cache that does not hold it.
proof fn lemma_miss(c: CacheModel, t: isize)
    requires
        c.slots.len() == CACHE_REGS,
        forall|k: int| 0 <= k < CACHE_REGS ==> c.slots[k] != Some(t),
    ensures
        load_spec(c, t).0 == (CacheModel {
            slots: c.slots.update(c.next, Some(t)),
            next: (c.next + 1) % (CACHE_REGS as int),
        }),
        load_spec(c, t).1 == c.next,
{
}

/// A load keeps the cache well formed and leaves the cell in the slot it
/// names.
pub proof fn lemma_load_keeps_wf(c: CacheModel, t: isize)
    requires
        model_wf(c),
        in_tape(t),
    ensures
        model_wf(load_spec(c, t).0),
        0 <= load_spec(c, t).1 < CACHE_REGS,
        load_spec(c, t).0.slots[load_spec(c, t).1] == Some(t),
{
    let (c2, k, _) = load_spec(c, t);
    if !cached(c, t) {
        assert forall|j: int, i: int| 0 <= j < CACHE_REGS && 0 <= i < CACHE_REGS && j != i
            && c2.slots[j] is Some implies c2.slots[j] != c2.slots[i] by {
            assert(c.slots[j] is Some && c.slots[i] is Some && j != k && i != k ==> c.slots[j] != c.slots[i]);
        }
        assert forall|j: int| 0 <= j < CACHE_REGS implies
            (#[trigger] c2.slots[j] matches Some(x) ==> in_tape(x)) by {
            assert(c.slots[j] matches Some(x) ==> in_tape(x));
        }
    }
}

/// Loading six distinct cells in turn into an empty cache fills the five
/// registers in rotation with the first five, each by a plain load; the
/// sixth evicts the first loaded, writing it back before loading in its
/// place.
pub proof fn lemma_rotation_evicts_first(ts: Seq<isize>)
    requires
        ts.len() == 6,
        forall|i: int, j: int| 0 <= i < j < 6 ==> ts[i] != ts[j],
    ensures
        load_all(empty_model(), ts).1 == seq![
            Insn::Load(Reg::R12, off(ts[0])),
            Insn::Load(Reg::R13, off(ts[1])),
            Insn::Load(Reg::R14, off(ts[2])),
            Insn::Load(Reg::R15, off(ts[3])),
            Insn::Load(Reg::Rbp, off(ts[4])),
            Insn::Store(off(ts[0]), Reg::R12),
            Insn::Load(Reg::R12, off(ts[5])),
        ],
{
    let c0 = empty_model();
    lemma_miss(c0, ts[0]);
    let c1 = load_spec(c0, ts[0]).0;
    assert(c1.slots =~= seq![Some(ts[0]), None, None, None, None]);
    lemma_miss(c1, ts[1]);
    let c2 = load_spec(c1, ts[1]).0;
    assert(c2.slots =~= seq![Some(ts[0]), Some(ts[1]), None, None, None]);
    lemma_miss(c2, ts[2]);
    let c3 = load_spec(c2, ts[2]).0;
    assert(c3.slots =~= seq![Some(ts[0]), Some(ts[1]), Some(ts[2]), None, None]);
    lemma_miss(c3, ts[3]);
    let c4 = load_spec(c3, ts[3]).0;
    assert(c4.slots =~= seq![Some(ts[0]), Some(ts[1]), Some(ts[2]), Some(ts[3]), None]);
    lemma_miss(c4, ts[4]);
    let c5 = load_spec(c4, ts[4]).0;
    assert(c5.slots =~= seq![Some(ts[0]), Some(ts[1]), Some(ts[2]), Some(ts[3]), Some(ts[4])]);
    assert(c5.next == 0);
    lemma_miss(c5, ts[5]);
    let c6 = load_spec(c5, ts[5]).0;
    let t1 = ts.drop_first();
    let t2 = t1.drop_first();
    let t3 = t2.drop_first();
    let t4 = t3.drop_first();
    let t5 = t4.drop_first();
    let t6 = t5.drop_first();
    assert(load_all(c6, t6).1 == Seq::<Insn>::empty());
    assert(load_all(c5, t5).1 =~= load_spec(c5, ts[5]).2 + load_all(c6, t6).1);
    assert(load_all(c4, t4).1 =~= load_spec(c4, ts[4]).2 + load_all(c5, t5).1);
    assert(load_all(c3, t3).1 =~= load_spec(c3, ts[3]).2 + load_all(c4, t4).1);
    assert(load_all(c2, t2).1 =~= load_spec(c2, ts[2]).2 + load_all(c3, t3).1);
    assert(load_all(c1, t1).1 =~= load_spec(c1, ts[1]).2 + load_all(c2, t2).1);
    assert(load_all(c0, ts).1 =~= load_spec(c0, ts[0]).2 + load_all(c1, t1).1);
    assert(load_all(c0, ts).1 =~= seq![
        Insn::Load(Reg::R12, off(ts[0])),
        Insn::Load(Reg::R13, off(ts[1])),
        Insn::Load(Reg::R14, off(ts[2])),
        Insn::Load(Reg::R15, off(ts[3])),
        Insn::Load(Reg::Rbp, off(ts[4])),
        Insn::Store(off(ts[0]), Reg::R12),
        Insn::Load(Reg::R12, off(ts[5])),
    ]);
}

/// The register cache: which cell each register holds.
pub struct RegCache {
    slots: Vec<Option<isize>>,
    next: usize,
}

impl RegCache {
    pub closed spec fn view(&self) -> CacheModel {
        CacheModel { slots: self.slots@, next: self.next as int }
    }

    pub open spec fn wf(&self) -> bool {
        model_wf(self.view())
    }

    /// An empty cache.
    pub fn new() -> (r: RegCache)
        ensures
            r.wf(),
            r.view() == empty_model(),
    {
        let slots: Vec<Option<isize>> = vec![None, None, None, None, None];
        let r = RegCache { slots, next: 0 };
        assert(r.view().slots =~= empty_model().slots);
        r
    }

    /// The register that holds cell `t`, if one does.
    pub fn lookup(&self, t: isize) -> (r: Option<Reg>)
        requires
            self.wf(),
        ensures
            r is Some <==> cached(self.view(), t),
            r matches Some(g) ==> g == slot_reg(load_spec(self.view(), t).1),
    {
        let mut k: usize = 0;
        while k < CACHE_REGS
            invariant
                self.wf(),
                k <= CACHE_REGS,
                forall|j: int| 0 <= j < k ==> self.slots@[j] != Some(t),
            decreases CACHE_REGS - k,
        {
            if self.slots[k] == Some(t) {
                proof {
                    let c = self.view();
                    let j = choose|j: int| 0 <= j < CACHE_REGS && c.slots[j] == Some(t);
                    assert(j == k);
                }
                return Some(reg_of_slot(k));
            }
            k += 1;
        }
        None
    }

    /// Brings cell `t` into a register and returns that register, appending
    /// to `code` the write-back of an evicted cell and the load, on a miss.
    pub fn load_cell(&mut self, t: isize, code: &mut Vec<Insn>) -> (r: Reg)
        requires
            old(self).wf(),
            in_tape(t),
        ensures
            final(self).wf(),
            final(self).view() == load_spec(old(self).view(), t).0,
            r == slot_reg(load_spec(old(self).view(), t).1),
            final(code)@ == old(code)@ + load_spec(old(self).view(), t).2,
    {
        match self.lookup(t) {
            Some(g) => {
                assert(old(code)@ + Seq::<Insn>::empty() =~= old(code)@);
                return g;
            },
            None => {},
        }
        let k = self.next;
        let g = reg_of_slot(k);
        let ghost before = code@;
        if let Some(e) = self.slots[k] {
            proof {
                assert(self.view().slots[k as int] matches Some(x) ==> in_tape(x));
            }
            code.push(Insn::Store((e * 8) as i32, g));
        }
        code.push(Insn::Load(g, (t * 8) as i32));
        self.slots.set(k, Some(t));
        self.next = if k + 1 == CACHE_REGS { 0 } else { k + 1 };
        proof {
            let c = old(self).view();
            assert(code@ =~= before + load_spec(c, t).2);
            assert forall|j: int, i: int| 0 <= j < CACHE_REGS && 0 <= i < CACHE_REGS && j != i
                && self.view().slots[j] is Some implies self.view().slots[j] != self.view().slots[i] by {
                assert(c.slots[j] is Some && c.slots[i] is Some && j != k && i != k ==> c.slots[j] != c.slots[i]);
            }
            assert forall|j: int| 0 <= j < CACHE_REGS implies
                (#[trigger] self.view().slots[j] matches Some(x) ==> in_tape(x)) by {
                assert(c.slots[j] matches Some(x) ==> in_tape(x));
            }
        }
        g
    }
}

} // verus!
