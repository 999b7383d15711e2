//! What generated code does, and that each instruction's code does what the
//! interpreter does for that instruction.
//!
//! A block is the code generated for one instruction: it runs from its label
//! to the next label, or to a taken branch. Each block is related to one
//! interpreter step, and runs of blocks, chained by the labels they end at,
//! to runs of the interpreter.
use vstd::prelude::*;
use crate::op::{Op, TAPE_LEN, in_tape, program_in_tape, op_in_tape, addrs_of};
use crate::machine::{State, step_spec};
use crate::codegen::{Reg, Insn, off, base_op, GenState, cached_op, add_imm, cached_output, v_operand, target};
use crate::cache::{CacheModel, load_spec, slot_reg, model_wf, cached, CACHE_REGS};

verus! {

/// The registers and the tape while generated code runs. A register outside
/// the map's domain holds a value that nothing may rely on.
pub struct Cpu {
    pub regs: Map<Reg, isize>,
    pub tape: Seq<isize>,
}

pub open spec fn has(c: Cpu, r: Reg) -> bool {
    c.regs.dom().contains(r)
}

/// One instruction other than a branch or a label: the state after it and
/// what it passes to the output sink. A call leaves `rax` and `rdi` unknown.
pub open spec fn exec_insn(c: Cpu, i: Insn) -> (Cpu, Seq<isize>) {
    match i {
        Insn::MovReg(d, s) => (Cpu { regs: c.regs.insert(d, c.regs[s]), ..c }, seq![]),
        Insn::MovImm(d, v) => (Cpu { regs: c.regs.insert(d, v), ..c }, seq![]),
        Insn::Load(d, o) => (Cpu { regs: c.regs.insert(d, c.tape[o / 8]), ..c }, seq![]),
        Insn::Store(o, s) => (Cpu { tape: c.tape.update(o / 8, c.regs[s]), ..c }, seq![]),
        Insn::AddMem(d, o) => (Cpu { regs: c.regs.insert(d, c.regs[d].wrapping_add(c.tape[o / 8])), ..c }, seq![]),
        Insn::AddImm8(d, b) => (Cpu { regs: c.regs.insert(d, c.regs[d].wrapping_add(b as isize)), ..c }, seq![]),
        Insn::AddImm32(d, b) => (Cpu { regs: c.regs.insert(d, c.regs[d].wrapping_add(b as isize)), ..c }, seq![]),
        Insn::AddReg(d, s) => (Cpu { regs: c.regs.insert(d, c.regs[d].wrapping_add(c.regs[s])), ..c }, seq![]),
        Insn::CallOutput => (Cpu { regs: c.regs.remove(Reg::Rax).remove(Reg::Rdi), ..c }, seq![c.regs[Reg::Rdi]]),
        _ => (c, seq![]),
    }
}

/// Runs `code` until its end or a taken branch: the state, the values passed
/// to the output sink, and the label jumped to, if any.
pub open spec fn run_block(c: Cpu, code: Seq<Insn>) -> (Cpu, Seq<isize>, Option<usize>)
    decreases code.len(),
{
    if code.len() == 0 {
        (c, seq![], None)
    } else {
        match code[0] {
            Insn::CmpJne(a, b, l) => if c.regs[a] != c.regs[b] {
                (c, seq![], Some(l))
            } else {
                run_block(c, code.drop_first())
            },
            _ => {
                let (c1, o) = exec_insn(c, code[0]);
                let (c2, os, j) = run_block(c1, code.drop_first());
                (c2, o + os, j)
            },
        }
    }
}

/// Where the code goes after block `i`: the label jumped to, else the next.
pub open spec fn next_label(i: int, j: Option<usize>) -> int {
    match j {
        Some(l) => l as int,
        None => i + 1,
    }
}

pub open spec fn no_branch(code: Seq<Insn>) -> bool {
    forall|k: int| 0 <= k < code.len() ==> !(#[trigger] code[k] is CmpJne)
}

proof fn lemma_run_append(c: Cpu, a: Seq<Insn>, b: Seq<Insn>)
    requires
        no_branch(a),
    ensures
        run_block(c, a + b) == ({
            let (c1, o1, _) = run_block(c, a);
            let (c2, o2, j) = run_block(c1, b);
            (c2, o1 + o2, j)
        }),
    decreases a.len(),
{
    if a.len() == 0 {
        assert(a + b =~= b);
        assert(Seq::<isize>::empty() + run_block(c, b).1 =~= run_block(c, b).1);
    } else {
        assert((a + b).drop_first() =~= a.drop_first() + b);
        assert(!(a[0] is CmpJne));
        let (c1, o) = exec_insn(c, a[0]);
        lemma_run_append(c1, a.drop_first(), b);
        let (c3, o3, _) = run_block(c1, a.drop_first());
        let (c2, o2, j) = run_block(c3, b);
        assert(o + (o3 + o2) =~= (o + o3) + o2);
    }
}

proof fn lemma_run_cons(c: Cpu, i: Insn, rest: Seq<Insn>)
    requires
        !(i is CmpJne),
    ensures
        run_block(c, seq![i] + rest) == ({
            let (c1, o) = exec_insn(c, i);
            let (c2, os, j) = run_block(c1, rest);
            (c2, o + os, j)
        }),
{
    let code = seq![i] + rest;
    assert(code[0] == i);
    assert(code.drop_first() =~= rest);
}

proof fn lemma_run_empty(c: Cpu)
    ensures
        run_block(c, Seq::<Insn>::empty()) == (c, Seq::<isize>::empty(), None::<usize>),
{
}

proof fn lemma_offset(a: isize)
    requires
        in_tape(a),
    ensures
        off(a) as int / 8 == a,
{
    assert(off(a) == a * 8);
}

/// The values an interpreter step passes to the output sink.
pub open spec fn outs_of(o: Option<isize>) -> Seq<isize> {
    match o {
        Some(x) => seq![x],
        None => seq![],
    }
}

/// The baseline code of a set instruction on cell `a` whose addend `load`
/// puts in `rdi`.
proof fn lemma_base_set(c: Cpu, i: int, a: isize, load: Insn, x: isize)
    requires
        c.tape.len() == TAPE_LEN,
        in_tape(a),
        !(load is CmpJne),
        exec_insn(c, load) == (Cpu { regs: c.regs.insert(Reg::Rdi, x), ..c }, Seq::<isize>::empty()),
    ensures
        ({
            let y = c.tape[a as int].wrapping_add(x);
            let (c2, outs, j) = run_block(c, seq![Insn::Bind(i as usize), load,
                Insn::AddMem(Reg::Rdi, off(a)), Insn::Store(off(a), Reg::Rdi)]
                + crate::codegen::base_output(a));
            &&& c2.tape == c.tape.update(a as int, y)
            &&& has(c2, Reg::Rdi)
            &&& c2.regs[Reg::Rdi] == y
            &&& outs == (if a == 0 { seq![y] } else { Seq::<isize>::empty() })
            &&& j is None
        }),
{
    lemma_offset(a);
    let rest = crate::codegen::base_output(a);
    let r3 = seq![Insn::Store(off(a), Reg::Rdi)] + rest;
    let r2 = seq![Insn::AddMem(Reg::Rdi, off(a))] + r3;
    let r1 = seq![load] + r2;
    let code = seq![Insn::Bind(i as usize), load, Insn::AddMem(Reg::Rdi, off(a)), Insn::Store(off(a), Reg::Rdi)] + rest;
    assert(code =~= seq![Insn::Bind(i as usize)] + r1);
    lemma_run_cons(c, Insn::Bind(i as usize), r1);
    lemma_run_cons(c, load, r2);
    let c1 = exec_insn(c, load).0;
    lemma_run_cons(c1, Insn::AddMem(Reg::Rdi, off(a)), r3);
    let c2 = exec_insn(c1, Insn::AddMem(Reg::Rdi, off(a))).0;
    lemma_run_cons(c2, Insn::Store(off(a), Reg::Rdi), rest);
    let c3 = exec_insn(c2, Insn::Store(off(a), Reg::Rdi)).0;
    let y = c.tape[a as int].wrapping_add(x);
    assert(c2.regs[Reg::Rdi] == y);
    if a == 0 {
        let c4 = exec_insn(c3, Insn::CallOutput).0;
        assert(rest =~= seq![Insn::CallOutput] + seq![Insn::Load(Reg::Rdi, 0)]);
        lemma_run_cons(c3, Insn::CallOutput, seq![Insn::Load(Reg::Rdi, 0)]);
        assert(seq![Insn::Load(Reg::Rdi, 0)] =~= seq![Insn::Load(Reg::Rdi, 0)] + Seq::<Insn>::empty());
        lemma_run_cons(c4, Insn::Load(Reg::Rdi, 0), Seq::<Insn>::empty());
        lemma_run_empty(exec_insn(c4, Insn::Load(Reg::Rdi, 0)).0);
        assert(run_block(c3, rest).1 =~= seq![y]);
    } else {
        assert(rest =~= Seq::<Insn>::empty());
        lemma_run_empty(c3);
    }
    assert(run_block(c, code).1 =~= run_block(c3, rest).1);
}

/// The baseline code of `+a`+d` at index `i` of `n`.
proof fn lemma_base_jmp(c: Cpu, i: int, a: isize, d: isize, n: int)
    requires
        c.tape.len() == TAPE_LEN,
        in_tape(a),
    ensures
        ({
            let (c2, outs, j) = run_block(c, seq![Insn::Bind(i as usize), Insn::Load(Reg::Rax, off(a)),
                Insn::CmpJne(Reg::Rdi, Reg::Rax, target(i, d, n))]);
            &&& c2.tape == c.tape
            &&& c2.regs[Reg::Rdi] == c.regs[Reg::Rdi]
            &&& (has(c, Reg::Rdi) ==> has(c2, Reg::Rdi))
            &&& outs == Seq::<isize>::empty()
            &&& j == if c.tape[a as int] != c.regs[Reg::Rdi] { Some(target(i, d, n)) } else { None }
        }),
{
    lemma_offset(a);
    let br = Insn::CmpJne(Reg::Rdi, Reg::Rax, target(i, d, n));
    let r1 = seq![Insn::Load(Reg::Rax, off(a))] + seq![br];
    let code = seq![Insn::Bind(i as usize), Insn::Load(Reg::Rax, off(a)), br];
    assert(code =~= seq![Insn::Bind(i as usize)] + r1);
    lemma_run_cons(c, Insn::Bind(i as usize), r1);
    lemma_run_cons(c, Insn::Load(Reg::Rax, off(a)), seq![br]);
    let c1 = exec_insn(c, Insn::Load(Reg::Rax, off(a))).0;
    assert(seq![br][0] == br);
    assert(seq![br].drop_first() =~= Seq::<Insn>::empty());
    lemma_run_empty(c1);
    assert(run_block(c, code).1 =~= Seq::<isize>::empty());
}

/// Block `s.ip` of the baseline code, run from `c`, ends as one interpreter
/// step from `s` does, with V in `rdi`.
pub open spec fn base_block_ok(ops: Seq<Op>, s: State, c: Cpu) -> bool {
    let (c2, outs, j) = run_block(c, base_op(s.ip, ops[s.ip], ops.len() as int));
    let (s2, out) = step_spec(ops, s);
    &&& c2.tape == s2.tape
    &&& has(c2, Reg::Rdi)
    &&& c2.regs[Reg::Rdi] == s2.v
    &&& outs == outs_of(out)
    &&& next_label(s.ip, j) == s2.ip
}

/// The baseline code of any instruction but an indirect branch, run with the
/// interpreter's tape and with V in `rdi`, does what one interpreter step
/// does: the same tape, V in `rdi`, the same output, and on to the block
/// whose label is the interpreter's next instruction (label `n` returns).
pub proof fn lemma_baseline_block(ops: Seq<Op>, s: State, c: Cpu)
    requires
        program_in_tape(ops),
        ops.len() <= usize::MAX,
        0 <= s.ip < ops.len(),
        !(ops[s.ip] is JmpA),
        s.tape.len() == TAPE_LEN,
        c.tape == s.tape,
        has(c, Reg::Rdi),
        c.regs[Reg::Rdi] == s.v,
    ensures
        base_block_ok(ops, s, c),
{
    let n = ops.len() as int;
    let i = s.ip;
    let op = ops[i];
    assert(op_in_tape(op));
    assert(in_tape(addrs_of(op)[0]));
    match op {
        Op::SetV(a, b) => {
            let mov = Insn::MovImm(Reg::Rdi, b);
            assert(exec_insn(c, mov) == (Cpu { regs: c.regs.insert(Reg::Rdi, b), ..c }, Seq::<isize>::empty()));
            lemma_base_set(c, i, a, mov, b);
        },
        Op::SetA(a, b) => {
            assert(in_tape(addrs_of(op)[1]));
            lemma_offset(b);
            lemma_base_set(c, i, a, Insn::Load(Reg::Rdi, off(b)), s.tape[b as int]);
        },
        Op::JmpV(a, d) => {
            lemma_base_jmp(c, i, a, d, n);
        },
        Op::JmpA(_, _) => {},
    }
}

/// Each cached register holds the current value of its cell.
pub open spec fn slots_coherent(m: CacheModel, c: Cpu) -> bool {
    forall|k: int| 0 <= k < CACHE_REGS ==> (#[trigger] m.slots[k] matches Some(t)
        ==> has(c, slot_reg(k)) && c.regs[slot_reg(k)] == c.tape[t as int])
}

/// The registers agree with what code generation assumed: the cache holds
/// what the model says, and V is the value of the last cell written, or zero
/// before any write.
pub open spec fn coherent(g: GenState, c: Cpu, v: isize) -> bool {
    &&& slots_coherent(g.cache, c)
    &&& match g.last {
        None => v == 0,
        Some(l) => in_tape(l) && v == c.tape[l as int],
    }
}

proof fn lemma_slot_reg(k: int)
    requires
        0 <= k < CACHE_REGS,
    ensures
        slot_reg(k) != Reg::Rax,
        slot_reg(k) != Reg::Rdi,
        slot_reg(k) != Reg::Rbx,
        forall|j: int| 0 <= j < CACHE_REGS && j != k ==> slot_reg(j) != slot_reg(k),
{
}

/// The code of a load into the cache leaves the tape as it was and puts the
/// cell's value in its register, and nothing else.
proof fn lemma_load_block(c: Cpu, m: CacheModel, t: isize)
    requires
        model_wf(m),
        slots_coherent(m, c),
        c.tape.len() == TAPE_LEN,
        in_tape(t),
    ensures
        ({
            let (m2, k, code) = load_spec(m, t);
            &&& 0 <= k < CACHE_REGS
            &&& m2.slots[k] == Some(t)
            &&& model_wf(m2)
            &&& no_branch(code)
            &&& run_block(c, code) == (Cpu { regs: c.regs.insert(slot_reg(k), c.tape[t as int]), tape: c.tape },
                Seq::<isize>::empty(), None::<usize>)
            &&& slots_coherent(m2, run_block(c, code).0)
        }),
{
    let (m2, k, code) = load_spec(m, t);
    lemma_slot_reg(k);
    lemma_offset(t);
    if cached(m, t) {
        assert(m.slots[k] == Some(t));
        assert(c.regs.insert(slot_reg(k), c.tape[t as int]) =~= c.regs);
        lemma_run_empty(c);
    } else {
        let r = slot_reg(k);
        let ld = Insn::Load(r, off(t));
        assert(seq![ld] =~= seq![ld] + Seq::<Insn>::empty());
        let c1 = match m.slots[k] {
            Some(e) => {
                assert(m.slots[k] matches Some(x) ==> in_tape(x));
                lemma_offset(e);
                let st = Insn::Store(off(e), r);
                assert(code =~= seq![st] + (seq![ld] + Seq::<Insn>::empty()));
                lemma_run_cons(c, st, seq![ld] + Seq::<Insn>::empty());
                assert(c.tape.update(e as int, c.regs[r]) =~= c.tape);
                exec_insn(c, st).0
            },
            None => {
                assert(code =~= seq![ld] + Seq::<Insn>::empty());
                c
            },
        };
        assert(c1 == c);
        lemma_run_cons(c1, ld, Seq::<Insn>::empty());
        lemma_run_empty(exec_insn(c1, ld).0);
        assert(run_block(c, code).1 =~= Seq::<isize>::empty());
        crate::cache::lemma_load_keeps_wf(m, t);
    }
    let c2 = run_block(c, code).0;
    assert forall|j: int| 0 <= j < CACHE_REGS implies (#[trigger] m2.slots[j] matches Some(x)
        ==> has(c2, slot_reg(j)) && c2.regs[slot_reg(j)] == c2.tape[x as int]) by {
        assert(m.slots[j] matches Some(x) ==> has(c, slot_reg(j)) && c.regs[slot_reg(j)] == c.tape[x as int]);
    }
}

/// `c2` agrees with `c1` on the tape and on every register but `r`, `rax`
/// and `rdi`.
pub open spec fn same_except(c1: Cpu, c2: Cpu, r: Reg) -> bool {
    &&& c2.tape == c1.tape
    &&& forall|q: Reg| q != r && q != Reg::Rax && q != Reg::Rdi && #[trigger] has(c1, q)
        ==> has(c2, q) && c2.regs[q] == c1.regs[q]
}

proof fn lemma_add_imm_block(c: Cpu, r: Reg, b: isize)
    requires
        r != Reg::Rax,
        has(c, r),
    ensures
        no_branch(add_imm(r, b)),
        ({
            let (c2, outs, j) = run_block(c, add_imm(r, b));
            &&& same_except(c, c2, r)
            &&& has(c2, r)
            &&& c2.regs[r] == c.regs[r].wrapping_add(b)
            &&& outs == Seq::<isize>::empty()
            &&& j is None
        }),
{
    let code = add_imm(r, b);
    if -128 <= b <= 127 {
        let ins = Insn::AddImm8(r, b as i8);
        assert(code =~= seq![ins] + Seq::<Insn>::empty());
        lemma_run_cons(c, ins, Seq::<Insn>::empty());
        lemma_run_empty(exec_insn(c, ins).0);
    } else if -0x8000_0000 <= b <= 0x7fff_ffff {
        let ins = Insn::AddImm32(r, b as i32);
        assert(code =~= seq![ins] + Seq::<Insn>::empty());
        lemma_run_cons(c, ins, Seq::<Insn>::empty());
        lemma_run_empty(exec_insn(c, ins).0);
    } else {
        let i1 = Insn::MovImm(Reg::Rax, b);
        let i2 = Insn::AddReg(r, Reg::Rax);
        assert(code =~= seq![i1] + (seq![i2] + Seq::<Insn>::empty()));
        lemma_run_cons(c, i1, seq![i2] + Seq::<Insn>::empty());
        let c1 = exec_insn(c, i1).0;
        lemma_run_cons(c1, i2, Seq::<Insn>::empty());
        lemma_run_empty(exec_insn(c1, i2).0);
        assert(run_block(c, code).1 =~= Seq::<isize>::empty());
    }
}

/// After the addend: the store of register `slot_reg(k)` to cell `a`, and
/// the output call when `a` is 0.
proof fn lemma_cached_tail(c: Cpu, m: CacheModel, k: int, a: isize)
    requires
        model_wf(m),
        0 <= k < CACHE_REGS,
        m.slots[k] == Some(a),
        has(c, slot_reg(k)),
        c.tape.len() == TAPE_LEN,
        forall|j: int| 0 <= j < CACHE_REGS && j != k ==> (#[trigger] m.slots[j] matches Some(e)
            ==> has(c, slot_reg(j)) && c.regs[slot_reg(j)] == c.tape[e as int]),
    ensures
        ({
            let y = c.regs[slot_reg(k)];
            let (c2, outs, j) = run_block(c, seq![Insn::Store(off(a), slot_reg(k))] + cached_output(a, slot_reg(k)));
            &&& c2.tape == c.tape.update(a as int, y)
            &&& slots_coherent(m, c2)
            &&& outs == (if a == 0 { seq![y] } else { Seq::<isize>::empty() })
            &&& j is None
        }),
{
    let r = slot_reg(k);
    let y = c.regs[r];
    lemma_slot_reg(k);
    assert(m.slots[k] matches Some(x) ==> in_tape(x));
    lemma_offset(a);
    let st = Insn::Store(off(a), r);
    let rest = cached_output(a, r);
    lemma_run_cons(c, st, rest);
    let c1 = exec_insn(c, st).0;
    let c2 = run_block(c1, rest).0;
    if a == 0 {
        let mv = Insn::MovReg(Reg::Rdi, r);
        assert(rest =~= seq![mv] + (seq![Insn::CallOutput] + Seq::<Insn>::empty()));
        lemma_run_cons(c1, mv, seq![Insn::CallOutput] + Seq::<Insn>::empty());
        let cm = exec_insn(c1, mv).0;
        lemma_run_cons(cm, Insn::CallOutput, Seq::<Insn>::empty());
        lemma_run_empty(exec_insn(cm, Insn::CallOutput).0);
        assert(run_block(c1, rest).1 =~= seq![y]);
    } else {
        assert(rest =~= Seq::<Insn>::empty());
        lemma_run_empty(c1);
    }
    assert(run_block(c, seq![st] + rest).1 =~= run_block(c1, rest).1);
    assert forall|j: int| 0 <= j < CACHE_REGS implies (#[trigger] m.slots[j] matches Some(e)
        ==> has(c2, slot_reg(j)) && c2.regs[slot_reg(j)] == c2.tape[e as int]) by {
        lemma_slot_reg(j);
        if j != k {
            assert(m.slots[j] matches Some(e) ==> has(c, slot_reg(j)) && c.regs[slot_reg(j)] == c.tape[e as int]);
            assert(m.slots[j] is Some ==> m.slots[j] != m.slots[k]);
        }
    }
}

proof fn lemma_cached_setv(c: Cpu, g: GenState, i: int, a: isize, b: isize, n: int)
    requires
        model_wf(g.cache),
        slots_coherent(g.cache, c),
        c.tape.len() == TAPE_LEN,
        in_tape(a),
    ensures
        ({
            let (g2, code) = cached_op(g, i, Op::SetV(a, b), n);
            let y = c.tape[a as int].wrapping_add(b);
            let (c2, outs, j) = run_block(c, code);
            &&& g2.last == Some(a)
            &&& model_wf(g2.cache)
            &&& c2.tape == c.tape.update(a as int, y)
            &&& slots_coherent(g2.cache, c2)
            &&& outs == (if a == 0 { seq![y] } else { Seq::<isize>::empty() })
            &&& j is None
        }),
{
    lemma_load_block(c, g.cache, a);
    let (m2, k, load) = load_spec(g.cache, a);
    let r = slot_reg(k);
    lemma_slot_reg(k);
    let c1 = run_block(c, load).0;
    let add = add_imm(r, b);
    let tail = seq![Insn::Store(off(a), r)] + cached_output(a, r);
    let code = cached_op(g, i, Op::SetV(a, b), n).1;
    assert(code =~= seq![Insn::Bind(i as usize)] + (load + (add + tail)));
    lemma_run_cons(c, Insn::Bind(i as usize), load + (add + tail));
    lemma_add_imm_block(c1, r, b);
    lemma_run_append(c, load, add + tail);
    lemma_run_append(c1, add, tail);
    let c2 = run_block(c1, add).0;
    assert forall|j: int| 0 <= j < CACHE_REGS && j != k implies (#[trigger] m2.slots[j] matches Some(e)
        ==> has(c2, slot_reg(j)) && c2.regs[slot_reg(j)] == c2.tape[e as int]) by {
        lemma_slot_reg(j);
        assert(m2.slots[j] matches Some(e) ==> has(c1, slot_reg(j)) && c1.regs[slot_reg(j)] == c1.tape[e as int]);
    }
    lemma_cached_tail(c2, m2, k, a);
    assert(Seq::<isize>::empty() + (Seq::<isize>::empty() + run_block(c2, tail).1) =~= run_block(c2, tail).1);
}

proof fn lemma_cached_seta(c: Cpu, g: GenState, i: int, a: isize, b: isize, n: int)
    requires
        model_wf(g.cache),
        slots_coherent(g.cache, c),
        c.tape.len() == TAPE_LEN,
        in_tape(a),
        in_tape(b),
    ensures
        ({
            let (g2, code) = cached_op(g, i, Op::SetA(a, b), n);
            let y = c.tape[a as int].wrapping_add(c.tape[b as int]);
            let (c2, outs, j) = run_block(c, code);
            &&& g2.last == Some(a)
            &&& model_wf(g2.cache)
            &&& c2.tape == c.tape.update(a as int, y)
            &&& slots_coherent(g2.cache, c2)
            &&& outs == (if a == 0 { seq![y] } else { Seq::<isize>::empty() })
            &&& j is None
        }),
{
    lemma_load_block(c, g.cache, a);
    let (m2, k, load) = load_spec(g.cache, a);
    let r = slot_reg(k);
    lemma_slot_reg(k);
    let c1 = run_block(c, load).0;
    let add = seq![Insn::AddMem(r, off(b))];
    let tail = seq![Insn::Store(off(a), r)] + cached_output(a, r);
    let code = cached_op(g, i, Op::SetA(a, b), n).1;
    assert(code =~= seq![Insn::Bind(i as usize)] + (load + (add + tail)));
    lemma_run_cons(c, Insn::Bind(i as usize), load + (add + tail));
    lemma_offset(b);
    let am = Insn::AddMem(r, off(b));
    assert(add =~= seq![am] + Seq::<Insn>::empty());
    lemma_run_cons(c1, am, Seq::<Insn>::empty());
    lemma_run_empty(exec_insn(c1, am).0);
    assert(no_branch(add));
    lemma_run_append(c, load, add + tail);
    lemma_run_append(c1, add, tail);
    let c2 = run_block(c1, add).0;
    assert forall|j: int| 0 <= j < CACHE_REGS && j != k implies (#[trigger] m2.slots[j] matches Some(e)
        ==> has(c2, slot_reg(j)) && c2.regs[slot_reg(j)] == c2.tape[e as int]) by {
        lemma_slot_reg(j);
        assert(m2.slots[j] matches Some(e) ==> has(c1, slot_reg(j)) && c1.regs[slot_reg(j)] == c1.tape[e as int]);
    }
    lemma_cached_tail(c2, m2, k, a);
    assert(Seq::<isize>::empty() + (Seq::<isize>::empty() + run_block(c2, tail).1) =~= run_block(c2, tail).1);
}

proof fn lemma_cached_jmpv(c: Cpu, g: GenState, i: int, a: isize, d: isize, n: int, v: isize)
    requires
        model_wf(g.cache),
        coherent(g, c, v),
        c.tape.len() == TAPE_LEN,
        in_tape(a),
    ensures
        ({
            let (g2, code) = cached_op(g, i, Op::JmpV(a, d), n);
            let (c2, outs, j) = run_block(c, code);
            &&& g2.last == g.last
            &&& model_wf(g2.cache)
            &&& c2.tape == c.tape
            &&& slots_coherent(g2.cache, c2)
            &&& outs == Seq::<isize>::empty()
            &&& j == if c.tape[a as int] != v { Some(target(i, d, n)) } else { None }
        }),
{
    lemma_load_block(c, g.cache, a);
    let (m2, k, load) = load_spec(g.cache, a);
    let r = slot_reg(k);
    lemma_slot_reg(k);
    let c1 = run_block(c, load).0;
    let (vr, vload) = v_operand(m2, g.last);
    let br = Insn::CmpJne(r, vr, target(i, d, n));
    let code = cached_op(g, i, Op::JmpV(a, d), n).1;
    assert(code =~= seq![Insn::Bind(i as usize)] + (load + (vload + seq![br])));
    lemma_run_cons(c, Insn::Bind(i as usize), load + (vload + seq![br]));
    lemma_run_append(c, load, vload + seq![br]);
    assert(seq![br][0] == br);
    assert(seq![br].drop_first() =~= Seq::<Insn>::empty());
    let c2 = match g.last {
        None => {
            let mv = Insn::MovImm(Reg::Rax, 0);
            assert(vload + seq![br] =~= seq![mv] + seq![br]);
            lemma_run_cons(c1, mv, seq![br]);
            exec_insn(c1, mv).0
        },
        Some(l) => if cached(m2, l) {
            let kk = load_spec(m2, l).1;
            assert(m2.slots[kk] matches Some(x) ==> has(c1, slot_reg(kk)) && c1.regs[slot_reg(kk)] == c1.tape[x as int]);
            assert(vload + seq![br] =~= seq![br]);
            c1
        } else {
            lemma_offset(l);
            let ld = Insn::Load(Reg::Rax, off(l));
            assert(vload + seq![br] =~= seq![ld] + seq![br]);
            lemma_run_cons(c1, ld, seq![br]);
            exec_insn(c1, ld).0
        },
    };
    lemma_run_empty(c2);
    assert(c2.regs[r] == c.tape[a as int]);
    assert(c2.regs[vr] == v);
    assert(run_block(c, code).1 =~= Seq::<isize>::empty());
    assert forall|j: int| 0 <= j < CACHE_REGS implies (#[trigger] m2.slots[j] matches Some(e)
        ==> has(c2, slot_reg(j)) && c2.regs[slot_reg(j)] == c2.tape[e as int]) by {
        lemma_slot_reg(j);
        assert(m2.slots[j] matches Some(e) ==> has(c1, slot_reg(j)) && c1.regs[slot_reg(j)] == c1.tape[e as int]);
    }
}

/// Block `s.ip` of the caching code, generated in state `g` and run from
/// `c`, ends as one interpreter step from `s` does, with the registers
/// agreeing with the state that generation moves on to.
pub open spec fn cached_block_ok(ops: Seq<Op>, s: State, g: GenState, c: Cpu) -> bool {
    let (g2, code) = cached_op(g, s.ip, ops[s.ip], ops.len() as int);
    let (c2, outs, j) = run_block(c, code);
    let (s2, out) = step_spec(ops, s);
    &&& model_wf(g2.cache)
    &&& c2.tape == s2.tape
    &&& coherent(g2, c2, s2.v)
    &&& outs == outs_of(out)
    &&& next_label(s.ip, j) == s2.ip
}

/// The caching code of any instruction but an indirect branch, run with the
/// interpreter's tape from registers that agree with the generation state
/// before it, does what one interpreter step does, and leaves registers that
/// agree with the generation state after it. Where a label is reached from
/// a block that ended in another generation state than the one before the
/// label, this does not apply: that is the limit of the cache.
pub proof fn lemma_cached_block(ops: Seq<Op>, s: State, g: GenState, c: Cpu)
    requires
        program_in_tape(ops),
        ops.len() <= usize::MAX,
        0 <= s.ip < ops.len(),
        !(ops[s.ip] is JmpA),
        s.tape.len() == TAPE_LEN,
        c.tape == s.tape,
        model_wf(g.cache),
        coherent(g, c, s.v),
    ensures
        cached_block_ok(ops, s, g, c),
{
    let n = ops.len() as int;
    let i = s.ip;
    let op = ops[i];
    assert(op_in_tape(op));
    assert(in_tape(addrs_of(op)[0]));
    match op {
        Op::SetV(a, b) => {
            lemma_cached_setv(c, g, i, a, b, n);
        },
        Op::SetA(a, b) => {
            assert(in_tape(addrs_of(op)[1]));
            lemma_cached_seta(c, g, i, a, b, n);
        },
        Op::JmpV(a, d) => {
            lemma_cached_jmpv(c, g, i, a, d, n, s.v);
        },
        Op::JmpA(_, _) => {},
    }
}

/// The baseline prologue leaves the tape as it is and zero, the first V,
/// in `rdi`.
pub proof fn lemma_baseline_prologue(c: Cpu)
    requires
        has(c, Reg::Rdi),
    ensures
        run_block(c, crate::codegen::base_prologue()).0.tape == c.tape,
        has(run_block(c, crate::codegen::base_prologue()).0, Reg::Rdi),
        run_block(c, crate::codegen::base_prologue()).0.regs[Reg::Rdi] == 0,
        run_block(c, crate::codegen::base_prologue()).1 == Seq::<isize>::empty(),
{
    let i0 = Insn::Push(Reg::Rbx);
    let i1 = Insn::MovReg(Reg::Rbx, Reg::Rdi);
    let i2 = Insn::MovImm(Reg::Rdi, 0);
    assert(crate::codegen::base_prologue() =~= seq![i0] + (seq![i1] + (seq![i2] + Seq::<Insn>::empty())));
    lemma_run_cons(c, i0, seq![i1] + (seq![i2] + Seq::<Insn>::empty()));
    lemma_run_cons(c, i1, seq![i2] + Seq::<Insn>::empty());
    let c1 = exec_insn(c, i1).0;
    lemma_run_cons(c1, i2, Seq::<Insn>::empty());
    lemma_run_empty(exec_insn(c1, i2).0);
    assert(run_block(c, crate::codegen::base_prologue()).1 =~= Seq::<isize>::empty());
}

/// Before the first block of the caching code the registers agree with the
/// empty cache and the start of a run, whatever they hold.
pub proof fn lemma_cached_start(ops: Seq<Op>, c: Cpu)
    ensures
        coherent(GenState { cache: crate::cache::empty_model(), last: None }, c, 0),
        coherent(gen_at(ops, 0), c, 0),
{
    reveal(gen_at);
}

/// Runs at most `fuel` blocks of baseline code from the block with label
/// `i`, each time going on at the label that the block ends at: the state,
/// and the values passed to the output sink.
pub open spec fn base_run(ops: Seq<Op>, c: Cpu, i: int, fuel: nat) -> (Cpu, Seq<isize>)
    decreases fuel,
{
    if fuel == 0 || !(0 <= i < ops.len()) {
        (c, seq![])
    } else {
        let (c2, outs, j) = run_block(c, base_op(i, ops[i], ops.len() as int));
        let (c3, rest) = base_run(ops, c2, next_label(i, j), (fuel - 1) as nat);
        (c3, outs + rest)
    }
}

/// Baseline code and the interpreter pass the same values to the output
/// sink, step for step, on every program without indirect branches: the
/// code of each instruction begins at the label with its index, and label
/// `n` returns.
pub proof fn lemma_baseline_matches_interpreter(ops: Seq<Op>, s: State, c: Cpu, fuel: nat)
    requires
        program_in_tape(ops),
        ops.len() <= usize::MAX,
        forall|k: int| 0 <= k < ops.len() ==> !(#[trigger] ops[k] is JmpA),
        0 <= s.ip <= ops.len(),
        s.tape.len() == TAPE_LEN,
        c.tape == s.tape,
        has(c, Reg::Rdi),
        c.regs[Reg::Rdi] == s.v,
    ensures
        base_run(ops, c, s.ip, fuel).1 == crate::machine::run_spec(ops, s, fuel).1,
        base_run(ops, c, s.ip, fuel).0.tape == crate::machine::run_spec(ops, s, fuel).0.tape,
    decreases fuel,
{
    if fuel > 0 && 0 <= s.ip < ops.len() {
        lemma_baseline_block(ops, s, c);
        let (c2, outs, j) = run_block(c, base_op(s.ip, ops[s.ip], ops.len() as int));
        let (s2, out) = step_spec(ops, s);
        let op = ops[s.ip];
        assert(op_in_tape(op));
        assert(in_tape(addrs_of(op)[0]));
        if op is SetA {
            assert(in_tape(addrs_of(op)[1]));
        }
        assert(s2.tape.len() == TAPE_LEN);
        lemma_baseline_matches_interpreter(ops, s2, c2, (fuel - 1) as nat);
        let rest = crate::machine::run_spec(ops, s2, (fuel - 1) as nat).1;
        assert(outs + rest == match out {
            Some(x) => seq![x] + rest,
            None => rest,
        }) by {
            assert(Seq::<isize>::empty() + rest =~= rest);
        }
    }
}

/// The generation state before block `i` of the caching code: blocks are
/// generated in program order from the empty cache.
#[verifier::opaque]
pub open spec fn gen_at(ops: Seq<Op>, i: int) -> GenState
    decreases i,
{
    if i <= 0 {
        GenState { cache: crate::cache::empty_model(), last: None }
    } else {
        cached_op(gen_at(ops, i - 1), i - 1, ops[i - 1], ops.len() as int).0
    }
}

/// Registers that agree with `g` also agree with `h`: every slot that `h`
/// counts on holds the same cell in `g`, and V is the same cell's.
pub open spec fn covers(g: GenState, h: GenState) -> bool {
    &&& forall|k: int| 0 <= k < CACHE_REGS && (#[trigger] h.cache.slots[k]) is Some
        ==> g.cache.slots[k] == h.cache.slots[k]
    &&& h.last == g.last
}

/// Every branch into the program arrives with registers that the target
/// block can count on.
#[verifier::opaque]
pub open spec fn branches_cover(ops: Seq<Op>) -> bool {
    forall|i: int| 0 <= i < ops.len() && (#[trigger] ops[i]) is JmpV ==> ({
        let t = target(i, ops[i]->JmpV_1, ops.len() as int) as int;
        t < ops.len() ==> covers(cached_op(gen_at(ops, i), i, ops[i], ops.len() as int).0, gen_at(ops, t))
    })
}

proof fn lemma_gen_next(ops: Seq<Op>, i: int)
    requires
        0 <= i,
    ensures
        gen_at(ops, i + 1) == cached_op(gen_at(ops, i), i, ops[i], ops.len() as int).0,
{
    reveal(gen_at);
}

proof fn lemma_branch_covers(ops: Seq<Op>, i: int)
    requires
        branches_cover(ops),
        0 <= i < ops.len(),
        ops[i] is JmpV,
        (target(i, ops[i]->JmpV_1, ops.len() as int) as int) < ops.len(),
    ensures
        covers(cached_op(gen_at(ops, i), i, ops[i], ops.len() as int).0,
            gen_at(ops, target(i, ops[i]->JmpV_1, ops.len() as int) as int)),
{
    reveal(branches_cover);
}

proof fn lemma_gen_wf(ops: Seq<Op>, i: int)
    requires
        program_in_tape(ops),
        0 <= i <= ops.len(),
    ensures
        model_wf(gen_at(ops, i).cache),
        gen_at(ops, i).last matches Some(l) ==> in_tape(l),
    decreases i,
{
    reveal(gen_at);
    if i > 0 {
        lemma_gen_wf(ops, i - 1);
        let op = ops[i - 1];
        assert(op_in_tape(op));
        assert(in_tape(addrs_of(op)[0]));
        match op {
            Op::JmpA(_, _) => {},
            _ => {
                let a = addrs_of(op)[0];
                crate::cache::lemma_load_keeps_wf(gen_at(ops, i - 1).cache, a);
            },
        }
    }
}

/// Runs at most `fuel` blocks of caching code from the block with label `i`,
/// each generated in the state that program order gives it.
pub open spec fn cached_run(ops: Seq<Op>, c: Cpu, i: int, fuel: nat) -> (Cpu, Seq<isize>)
    decreases fuel,
{
    if fuel == 0 || !(0 <= i < ops.len()) {
        (c, seq![])
    } else {
        let (c2, outs, j) = run_block(c, cached_op(gen_at(ops, i), i, ops[i], ops.len() as int).1);
        let (c3, rest) = cached_run(ops, c2, next_label(i, j), (fuel - 1) as nat);
        (c3, outs + rest)
    }
}

/// After block `s.ip`, the registers agree with the generation state of the
/// block that comes next.
proof fn lemma_cached_next(ops: Seq<Op>, s: State, c: Cpu)
    requires
        program_in_tape(ops),
        ops.len() <= usize::MAX,
        !(ops[s.ip] is JmpA),
        branches_cover(ops),
        0 <= s.ip < ops.len(),
        s.tape.len() == TAPE_LEN,
        c.tape == s.tape,
        coherent(gen_at(ops, s.ip), c, s.v),
    ensures
        ({
            let (c2, outs, j) = run_block(c, cached_op(gen_at(ops, s.ip), s.ip, ops[s.ip], ops.len() as int).1);
            let (s2, out) = step_spec(ops, s);
            &&& s2.tape.len() == TAPE_LEN
            &&& c2.tape == s2.tape
            &&& outs == outs_of(out)
            &&& next_label(s.ip, j) == s2.ip
            &&& (0 <= s2.ip < ops.len() ==> coherent(gen_at(ops, s2.ip), c2, s2.v))
        }),
{
    let i = s.ip;
    let n = ops.len() as int;
    let g = gen_at(ops, i);
    lemma_gen_wf(ops, i);
    lemma_cached_block(ops, s, g, c);
    let (g2, code) = cached_op(g, i, ops[i], n);
    let (c2, outs, j) = run_block(c, code);
    let (s2, out) = step_spec(ops, s);
    let op = ops[i];
    assert(op_in_tape(op));
    assert(in_tape(addrs_of(op)[0]));
    if op is SetA {
        assert(in_tape(addrs_of(op)[1]));
    }
    let nx = next_label(i, j);
    if 0 <= nx < n {
        if nx != i + 1 {
            let h = gen_at(ops, nx);
            if let Op::JmpV(_, d) = op {
                lemma_branch_covers(ops, i);
            }
            assert(covers(g2, h));
            assert forall|k: int| 0 <= k < CACHE_REGS implies (#[trigger] h.cache.slots[k] matches Some(t)
                ==> has(c2, slot_reg(k)) && c2.regs[slot_reg(k)] == c2.tape[t as int]) by {
                if h.cache.slots[k] is Some {
                    assert(g2.cache.slots[k] == h.cache.slots[k]);
                }
            }
        } else {
            lemma_gen_next(ops, i);
        }
    }
}

/// Caching code and the interpreter pass the same values to the output sink,
/// step for step, on every program without indirect branches whose branches
/// all arrive with registers that their target block can count on.
pub proof fn lemma_cached_matches_interpreter(ops: Seq<Op>, s: State, c: Cpu, fuel: nat)
    requires
        program_in_tape(ops),
        ops.len() <= usize::MAX,
        forall|k: int| 0 <= k < ops.len() ==> !(#[trigger] ops[k] is JmpA),
        branches_cover(ops),
        0 <= s.ip <= ops.len(),
        s.tape.len() == TAPE_LEN,
        c.tape == s.tape,
        s.ip < ops.len() ==> coherent(gen_at(ops, s.ip), c, s.v),
    ensures
        cached_run(ops, c, s.ip, fuel).1 == crate::machine::run_spec(ops, s, fuel).1,
    decreases fuel,
{
    if fuel > 0 && 0 <= s.ip < ops.len() {
        lemma_cached_next(ops, s, c);
        let (c2, outs, j) = run_block(c, cached_op(gen_at(ops, s.ip), s.ip, ops[s.ip], ops.len() as int).1);
        let (s2, out) = step_spec(ops, s);
        lemma_cached_matches_interpreter(ops, s2, c2, (fuel - 1) as nat);
        let rest = crate::machine::run_spec(ops, s2, (fuel - 1) as nat).1;
        assert(outs + rest == match out {
            Some(x) => seq![x] + rest,
            None => rest,
        }) by {
            assert(Seq::<isize>::empty() + rest =~= rest);
        }
    }
}

/// The caching code from block `i` on is block `i`, generated in the state
/// that program order gives it, followed by the code from block `i + 1` on.
pub proof fn lemma_cached_code_blocks(ops: Seq<Op>, i: int)
    requires
        0 <= i < ops.len(),
    ensures
        crate::codegen::cached_from(ops, i, gen_at(ops, i))
            == cached_op(gen_at(ops, i), i, ops[i], ops.len() as int).1
            + crate::codegen::cached_from(ops, i + 1, gen_at(ops, i + 1)),
{
    lemma_gen_next(ops, i);
}

} // verus!
