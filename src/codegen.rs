//! Lowering programs to x86-64 code.
//!
//! Code is produced as a list of [`Insn`], a small subset of x86-64 that the
//! embedding program encodes and runs. The generated function takes the base
//! address of the tape in `rdi` and keeps it in `rbx`. Each instruction of the
//! program starts with the label that bears its index; label `n`, for a
//! program of `n` instructions, marks the return, so a branch whose target
//! lies off the program returns.
use vstd::prelude::*;
use crate::op::{Op, Error, in_tape, program_in_tape, validate};
use crate::machine::settle;
use crate::cache::{CacheModel, RegCache, load_spec, empty_model, cached, slot_reg};

verus! {

/// The general-purpose registers that generated code uses.
#[derive(PartialEq, Eq, Structural, Clone, Copy, Debug)]
pub enum Reg {
    Rax,
    Rbx,
    Rbp,
    Rdi,
    R12,
    R13,
    R14,
    R15,
}

impl Reg {
    /// The register's number in the x86-64 encoding.
    pub fn code(&self) -> (r: u8)
        ensures
            r == reg_code(*self),
    {
        match *self {
            Reg::Rax => 0,
            Reg::Rbx => 3,
            Reg::Rbp => 5,
            Reg::Rdi => 7,
            Reg::R12 => 12,
            Reg::R13 => 13,
            Reg::R14 => 14,
            Reg::R15 => 15,
        }
    }
}

pub open spec fn reg_code(r: Reg) -> u8 {
    match r {
        Reg::Rax => 0,
        Reg::Rbx => 3,
        Reg::Rbp => 5,
        Reg::Rdi => 7,
        Reg::R12 => 12,
        Reg::R13 => 13,
        Reg::R14 => 14,
        Reg::R15 => 15,
    }
}

/// One x86-64 instruction, or a label. A memory operand `[rbx + off]` is
/// written as its offset `off`.
#[derive(PartialEq, Eq, Structural, Clone, Copy, Debug)]
pub enum Insn {
    /// Binds label `l` here.
    Bind(usize),
    Push(Reg),
    Pop(Reg),
    Ret,
    /// `mov dst, src`
    MovReg(Reg, Reg),
    /// `mov dst, QWORD imm`
    MovImm(Reg, isize),
    /// `mov dst, [rbx + off]`
    Load(Reg, i32),
    /// `mov [rbx + off], src`
    Store(i32, Reg),
    /// `add dst, [rbx + off]`
    AddMem(Reg, i32),
    /// `add dst, BYTE imm`
    AddImm8(Reg, i8),
    /// `add dst, DWORD imm`
    AddImm32(Reg, i32),
    /// `add dst, src`
    AddReg(Reg, Reg),
    /// Calls the output sink with the value in `rdi`.
    CallOutput,
    /// `cmp a, b` then `jne` to label `l`.
    CmpJne(Reg, Reg, usize),
}

/// The byte offset of cell `a` from the tape's base.
pub open spec fn off(a: isize) -> i32 {
    (a * 8) as i32
}

fn cell_offset(a: isize) -> (r: i32)
    requires
        in_tape(a),
    ensures
        r == off(a),
        r == a * 8,
{
    (a * 8) as i32
}

/// The label that a taken branch by `d` from instruction `i` goes to.
pub open spec fn target(i: int, d: isize, n: int) -> usize {
    settle(i + d, n) as usize
}

fn branch_target(i: usize, d: isize, n: usize) -> (r: usize)
    requires
        i < n,
    ensures
        r == target(i as int, d, n as int),
{
    let t: i128 = i as i128 + d as i128;
    if 0 <= t && t < n as i128 { t as usize } else { n }
}

/// The index of the first branch whose distance is read from the tape.
pub open spec fn first_indirect(ops: Seq<Op>) -> Option<int> {
    if exists|i: int| 0 <= i < ops.len() && ops[i] is JmpA {
        Some(choose|i: int| 0 <= i < ops.len() && ops[i] is JmpA
            && forall|j: int| 0 <= j < i ==> !(ops[j] is JmpA))
    } else {
        None
    }
}

/// Checks what both generators need: every address on the tape, then no
/// branch whose distance is read from the tape.
pub fn check_lowerable(ops: &Vec<Op>) -> (r: Result<(), Error>)
    ensures
        r.is_ok() <==> program_in_tape(ops@) && first_indirect(ops@).is_none(),
        r matches Err(Error::AddressOutOfRange { .. }) <==> !program_in_tape(ops@),
        r matches Err(Error::Unsupported { index }) ==> first_indirect(ops@) == Some(index as int),
{
    match validate(ops) {
        Err(e) => return Err(e),
        Ok(()) => {},
    }
    let mut i: usize = 0;
    while i < ops.len()
        invariant
            i <= ops@.len(),
            program_in_tape(ops@),
            forall|j: int| 0 <= j < i ==> !(ops@[j] is JmpA),
        decreases ops@.len() - i,
    {
        if let Op::JmpA(_, _) = ops[i] {
            proof {
                let k = choose|k: int| 0 <= k < ops@.len() && ops@[k] is JmpA
                    && forall|j: int| 0 <= j < k ==> !(ops@[j] is JmpA);
                if k < i { } else if k > i { assert(!(ops@[i as int] is JmpA)); }
            }
            return Err(Error::Unsupported { index: i });
        }
        i += 1;
    }
    Ok(())
}

// ---------------------------------------------------------------------------
// Baseline: every cell lives on the tape and `rdi` holds V.

/// The code for instruction `i` of `n` without a register cache.
pub open spec fn base_op(i: int, op: Op, n: int) -> Seq<Insn> {
    match op {
        Op::SetV(a, b) => seq![Insn::Bind(i as usize), Insn::MovImm(Reg::Rdi, b),
            Insn::AddMem(Reg::Rdi, off(a)), Insn::Store(off(a), Reg::Rdi)] + base_output(a),
        Op::SetA(a, b) => seq![Insn::Bind(i as usize), Insn::Load(Reg::Rdi, off(b)),
            Insn::AddMem(Reg::Rdi, off(a)), Insn::Store(off(a), Reg::Rdi)] + base_output(a),
        Op::JmpV(a, d) => seq![Insn::Bind(i as usize), Insn::Load(Reg::Rax, off(a)),
            Insn::CmpJne(Reg::Rdi, Reg::Rax, target(i, d, n))],
        Op::JmpA(_, _) => seq![],
    }
}

/// After a write to cell 0: the call, and V taken back from the cell since
/// the call may change `rdi`.
pub open spec fn base_output(a: isize) -> Seq<Insn> {
    if a == 0 { seq![Insn::CallOutput, Insn::Load(Reg::Rdi, 0)] } else { seq![] }
}

pub open spec fn base_prologue() -> Seq<Insn> {
    seq![Insn::Push(Reg::Rbx), Insn::MovReg(Reg::Rbx, Reg::Rdi), Insn::MovImm(Reg::Rdi, 0)]
}

pub open spec fn base_epilogue(n: int) -> Seq<Insn> {
    seq![Insn::Bind(n as usize), Insn::Pop(Reg::Rbx), Insn::Ret]
}

/// The whole baseline function for `ops`.
pub open spec fn base_code(ops: Seq<Op>) -> Seq<Insn> {
    base_prologue() + Seq::new(ops.len(), |i: int| base_op(i, ops[i], ops.len() as int)).flatten()
        + base_epilogue(ops.len() as int)
}

fn push_all(code: &mut Vec<Insn>, more: &[Insn])
    ensures
        final(code)@ == old(code)@ + more@,
{
    let mut k: usize = 0;
    while k < more.len()
        invariant
            k <= more@.len(),
            code@ == old(code)@ + more@.take(k as int),
        decreases more@.len() - k,
    {
        code.push(more[k]);
        k += 1;
        assert(more@.take(k as int) =~= more@.take(k - 1).push(more@[k - 1]));
    }
    assert(more@.take(k as int) =~= more@);
}

/// Lowers `ops` to code that keeps every cell on the tape and V in `rdi`.
/// Fails on an address off the tape, and on a branch whose distance is read
/// from the tape, which this generator does not lower.
pub fn lower_baseline(ops: &Vec<Op>) -> (r: Result<Vec<Insn>, Error>)
    ensures
        r.is_ok() <==> program_in_tape(ops@) && first_indirect(ops@).is_none(),
        r matches Ok(code) ==> code@ == base_code(ops@),
        r matches Err(Error::AddressOutOfRange { .. }) <==> !program_in_tape(ops@),
        r matches Err(Error::Unsupported { index }) ==> first_indirect(ops@) == Some(index as int),
{
    check_lowerable(ops)?;
    let n = ops.len();
    let ghost parts = Seq::new(ops@.len(), |i: int| base_op(i, ops@[i], ops@.len() as int));
    let mut code: Vec<Insn> = Vec::new();
    push_all(&mut code, &[Insn::Push(Reg::Rbx), Insn::MovReg(Reg::Rbx, Reg::Rdi), Insn::MovImm(Reg::Rdi, 0)]);
    let mut i: usize = 0;
    while i < n
        invariant
            n == ops@.len(),
            i <= n,
            program_in_tape(ops@),
            forall|j: int| 0 <= j < n ==> !(ops@[j] is JmpA),
            parts == Seq::new(ops@.len(), |i: int| base_op(i, ops@[i], ops@.len() as int)),
            code@ == base_prologue() + parts.take(i as int).flatten(),
        decreases n - i,
    {
        let op = ops[i];
        assert(program_in_tape(ops@) ==> crate::op::op_in_tape(ops@[i as int]));
        assert(in_tape(crate::op::addrs_of(op)[0]));
        let ghost before = code@;
        match op {
            Op::SetV(a, b) => {
                let o = cell_offset(a);
                push_all(&mut code, &[Insn::Bind(i), Insn::MovImm(Reg::Rdi, b), Insn::AddMem(Reg::Rdi, o), Insn::Store(o, Reg::Rdi)]);
                if a == 0 {
                    push_all(&mut code, &[Insn::CallOutput, Insn::Load(Reg::Rdi, 0)]);
                }
            },
            Op::SetA(a, b) => {
                assert(in_tape(crate::op::addrs_of(op)[1]));
                let o = cell_offset(a);
                let ob = cell_offset(b);
                push_all(&mut code, &[Insn::Bind(i), Insn::Load(Reg::Rdi, ob), Insn::AddMem(Reg::Rdi, o), Insn::Store(o, Reg::Rdi)]);
                if a == 0 {
                    push_all(&mut code, &[Insn::CallOutput, Insn::Load(Reg::Rdi, 0)]);
                }
            },
            Op::JmpV(a, d) => {
                let o = cell_offset(a);
                let t = branch_target(i, d, n);
                push_all(&mut code, &[Insn::Bind(i), Insn::Load(Reg::Rax, o), Insn::CmpJne(Reg::Rdi, Reg::Rax, t)]);
            },
            Op::JmpA(_, _) => {
                assert(!(ops@[i as int] is JmpA));
            },
        }
        proof {
            assert(code@ =~= before + parts[i as int]);
            lemma_flatten_take_push(parts, i as int);
        }
        i += 1;
    }
    push_all(&mut code, &[Insn::Bind(n), Insn::Pop(Reg::Rbx), Insn::Ret]);
    assert(parts.take(n as int) =~= parts);
    Ok(code)
}

proof fn lemma_flatten_take_push<A>(s: Seq<Seq<A>>, i: int)
    requires
        0 <= i < s.len(),
    ensures
        s.take(i + 1).flatten() == s.take(i).flatten() + s[i],
{
    assert(s.take(i + 1) =~= s.take(i).push(s[i]));
    s.take(i).lemma_flatten_push(s[i]);
}

// ---------------------------------------------------------------------------
// Caching: target cells live in the register cache, with every write also
// stored to the tape. V is tracked at generation time as the cell that the
// last set instruction wrote.
//
// The cache and V are tracked along the program text, not along its control
// flow: where a label is reached from places with different cache contents,
// the code after it may read a register that holds another cell. Programs
// without such labels are lowered faithfully.

/// What code generation tracks between instructions: the cache, and the
/// cell whose value is V (`None` before the first set instruction, V zero).
pub struct GenState {
    pub cache: CacheModel,
    pub last: Option<isize>,
}

/// `add r, imm` in the shortest form that holds `b`.
pub open spec fn add_imm(r: Reg, b: isize) -> Seq<Insn> {
    if -128 <= b <= 127 {
        seq![Insn::AddImm8(r, b as i8)]
    } else if -0x8000_0000 <= b <= 0x7fff_ffff {
        seq![Insn::AddImm32(r, b as i32)]
    } else {
        seq![Insn::MovImm(Reg::Rax, b), Insn::AddReg(r, Reg::Rax)]
    }
}

/// After a write to cell `a` through register `r`: the call, if `a` is 0.
pub open spec fn cached_output(a: isize, r: Reg) -> Seq<Insn> {
    if a == 0 { seq![Insn::MovReg(Reg::Rdi, r), Insn::CallOutput] } else { seq![] }
}

/// The register that holds V after cache `c` was loaded, and the code that
/// puts V there when it is in no cached register.
pub open spec fn v_operand(c: CacheModel, last: Option<isize>) -> (Reg, Seq<Insn>) {
    match last {
        None => (Reg::Rax, seq![Insn::MovImm(Reg::Rax, 0)]),
        Some(l) => if cached(c, l) {
            (slot_reg(load_spec(c, l).1), seq![])
        } else {
            (Reg::Rax, seq![Insn::Load(Reg::Rax, off(l))])
        },
    }
}

/// The code for instruction `i` of `n` with the register cache, and the
/// state after it.
pub open spec fn cached_op(s: GenState, i: int, op: Op, n: int) -> (GenState, Seq<Insn>) {
    match op {
        Op::SetV(a, b) => {
            let (c, k, load) = load_spec(s.cache, a);
            let r = slot_reg(k);
            (GenState { cache: c, last: Some(a) }, seq![Insn::Bind(i as usize)] + load + add_imm(r, b)
                + seq![Insn::Store(off(a), r)] + cached_output(a, r))
        },
        Op::SetA(a, b) => {
            let (c, k, load) = load_spec(s.cache, a);
            let r = slot_reg(k);
            (GenState { cache: c, last: Some(a) }, seq![Insn::Bind(i as usize)] + load
                + seq![Insn::AddMem(r, off(b)), Insn::Store(off(a), r)] + cached_output(a, r))
        },
        Op::JmpV(a, d) => {
            let (c, k, load) = load_spec(s.cache, a);
            let (vr, vload) = v_operand(c, s.last);
            (GenState { cache: c, last: s.last }, seq![Insn::Bind(i as usize)] + load + vload
                + seq![Insn::CmpJne(slot_reg(k), vr, target(i, d, n))])
        },
        Op::JmpA(_, _) => (s, seq![]),
    }
}

/// The code for the instructions of `ops` from `i` on, starting in state `s`.
pub open spec fn cached_from(ops: Seq<Op>, i: int, s: GenState) -> Seq<Insn>
    decreases ops.len() - i,
{
    if i < 0 || i >= ops.len() {
        seq![]
    } else {
        let (s1, code) = cached_op(s, i, ops[i], ops.len() as int);
        code + cached_from(ops, i + 1, s1)
    }
}

/// Saves the registers that the code uses; the extra push of `rax` keeps the
/// stack aligned to 16 bytes at calls.
pub open spec fn cached_prologue() -> Seq<Insn> {
    seq![Insn::Push(Reg::Rbx), Insn::Push(Reg::Rbp), Insn::Push(Reg::R15), Insn::Push(Reg::R14),
        Insn::Push(Reg::R13), Insn::Push(Reg::R12), Insn::Push(Reg::Rax), Insn::MovReg(Reg::Rbx, Reg::Rdi)]
}

pub open spec fn cached_epilogue(n: int) -> Seq<Insn> {
    seq![Insn::Bind(n as usize), Insn::Pop(Reg::Rax), Insn::Pop(Reg::R12), Insn::Pop(Reg::R13),
        Insn::Pop(Reg::R14), Insn::Pop(Reg::R15), Insn::Pop(Reg::Rbp), Insn::Pop(Reg::Rbx), Insn::Ret]
}

/// The whole caching function for `ops`.
pub open spec fn cached_code(ops: Seq<Op>) -> Seq<Insn> {
    cached_prologue() + cached_from(ops, 0, GenState { cache: empty_model(), last: None })
        + cached_epilogue(ops.len() as int)
}

fn push_add_imm(code: &mut Vec<Insn>, r: Reg, b: isize)
    ensures
        final(code)@ == old(code)@ + add_imm(r, b),
{
    if -128 <= b && b <= 127 {
        code.push(Insn::AddImm8(r, b as i8));
    } else if -0x8000_0000 <= b && b <= 0x7fff_ffff {
        code.push(Insn::AddImm32(r, b as i32));
    } else {
        push_all(code, &[Insn::MovImm(Reg::Rax, b), Insn::AddReg(r, Reg::Rax)]);
    }
}

/// Appends the code for `a`+b` at index `i` of `n`.
fn lower_set_v(cache: &mut RegCache, last: Option<isize>, code: &mut Vec<Insn>, i: usize, n: usize, a: isize, b: isize)
    requires
        old(cache).wf(),
        i < n,
        crate::op::op_in_tape(Op::SetV(a, b)),
        last matches Some(l) ==> in_tape(l),
    ensures
        final(cache).wf(),
        ({
            let (s1, part) = cached_op(GenState { cache: old(cache).view(), last }, i as int, Op::SetV(a, b), n as int);
            &&& final(code)@ == old(code)@ + part
            &&& s1.cache == final(cache).view()
        }),
{
    assert(in_tape(crate::op::addrs_of(Op::SetV(a, b))[0]));
    let ghost before = code@;
    let ghost c0 = cache.view();
    code.push(Insn::Bind(i));
    let g = cache.load_cell(a, code);
    push_add_imm(code, g, b);
    let o = cell_offset(a);
    code.push(Insn::Store(o, g));
    if a == 0 {
        push_all(code, &[Insn::MovReg(Reg::Rdi, g), Insn::CallOutput]);
    }
    proof {
        let (s1, part) = cached_op(GenState { cache: c0, last }, i as int, Op::SetV(a, b), n as int);
        assert(code@ =~= before + part);
    }
}

/// Appends the code for `a`b` at index `i` of `n`.
fn lower_set_a(cache: &mut RegCache, last: Option<isize>, code: &mut Vec<Insn>, i: usize, n: usize, a: isize, b: isize)
    requires
        old(cache).wf(),
        i < n,
        crate::op::op_in_tape(Op::SetA(a, b)),
        last matches Some(l) ==> in_tape(l),
    ensures
        final(cache).wf(),
        ({
            let (s1, part) = cached_op(GenState { cache: old(cache).view(), last }, i as int, Op::SetA(a, b), n as int);
            &&& final(code)@ == old(code)@ + part
            &&& s1.cache == final(cache).view()
        }),
{
    assert(in_tape(crate::op::addrs_of(Op::SetA(a, b))[0]));
    let ghost before = code@;
    let ghost c0 = cache.view();
    code.push(Insn::Bind(i));
    assert(in_tape(crate::op::addrs_of(Op::SetA(a, b))[1]));
    let g = cache.load_cell(a, code);
    let o = cell_offset(a);
    let ob = cell_offset(b);
    push_all(code, &[Insn::AddMem(g, ob), Insn::Store(o, g)]);
    if a == 0 {
        push_all(code, &[Insn::MovReg(Reg::Rdi, g), Insn::CallOutput]);
    }
    proof {
        let (s1, part) = cached_op(GenState { cache: c0, last }, i as int, Op::SetA(a, b), n as int);
        assert(code@ =~= before + part);
    }
}

/// Appends the code for `+a`+d` at index `i` of `n`.
fn lower_jmp_v(cache: &mut RegCache, last: Option<isize>, code: &mut Vec<Insn>, i: usize, n: usize, a: isize, d: isize)
    requires
        old(cache).wf(),
        i < n,
        crate::op::op_in_tape(Op::JmpV(a, d)),
        last matches Some(l) ==> in_tape(l),
    ensures
        final(cache).wf(),
        ({
            let (s1, part) = cached_op(GenState { cache: old(cache).view(), last }, i as int, Op::JmpV(a, d), n as int);
            &&& final(code)@ == old(code)@ + part
            &&& s1.cache == final(cache).view()
        }),
{
    assert(in_tape(crate::op::addrs_of(Op::JmpV(a, d))[0]));
    let ghost before = code@;
    let ghost c0 = cache.view();
    code.push(Insn::Bind(i));
    let g = cache.load_cell(a, code);
    let vr = match last {
        None => {
            code.push(Insn::MovImm(Reg::Rax, 0));
            Reg::Rax
        },
        Some(l) => match cache.lookup(l) {
            Some(h) => h,
            None => {
                let ol = cell_offset(l);
                code.push(Insn::Load(Reg::Rax, ol));
                Reg::Rax
            },
        },
    };
    let t = branch_target(i, d, n);
    code.push(Insn::CmpJne(g, vr, t));
    proof {
        let (s1, part) = cached_op(GenState { cache: c0, last }, i as int, Op::JmpV(a, d), n as int);
        assert(code@ =~= before + part);
    }
}

/// Lowers `ops` to code that keeps recently used cells in a register cache
/// (see [`RegCache`]). Fails as [`lower_baseline`] does.
pub fn lower_cached(ops: &Vec<Op>) -> (r: Result<Vec<Insn>, Error>)
    ensures
        r.is_ok() <==> program_in_tape(ops@) && first_indirect(ops@).is_none(),
        r matches Ok(code) ==> code@ == cached_code(ops@),
        r matches Err(Error::AddressOutOfRange { .. }) <==> !program_in_tape(ops@),
        r matches Err(Error::Unsupported { index }) ==> first_indirect(ops@) == Some(index as int),
{
    check_lowerable(ops)?;
    let n = ops.len();
    let mut code: Vec<Insn> = Vec::new();
    push_all(&mut code, &[Insn::Push(Reg::Rbx), Insn::Push(Reg::Rbp), Insn::Push(Reg::R15),
        Insn::Push(Reg::R14), Insn::Push(Reg::R13), Insn::Push(Reg::R12), Insn::Push(Reg::Rax),
        Insn::MovReg(Reg::Rbx, Reg::Rdi)]);
    let mut cache = RegCache::new();
    let mut last: Option<isize> = None;
    let ghost whole = cached_prologue() + cached_from(ops@, 0, GenState { cache: empty_model(), last: None });
    let mut i: usize = 0;
    while i < n
        invariant
            n == ops@.len(),
            i <= n,
            program_in_tape(ops@),
            forall|j: int| 0 <= j < n ==> !(ops@[j] is JmpA),
            cache.wf(),
            last matches Some(l) ==> in_tape(l),
            code@ + cached_from(ops@, i as int, GenState { cache: cache.view(), last }) == whole,
        decreases n - i,
    {
        let op = ops[i];
        assert(program_in_tape(ops@) ==> crate::op::op_in_tape(ops@[i as int]));
        let ghost before = code@;
        let ghost s = GenState { cache: cache.view(), last };
        match op {
            Op::SetV(a, b) => {
                assert(in_tape(crate::op::addrs_of(op)[0]));
                lower_set_v(&mut cache, last, &mut code, i, n, a, b);
                last = Some(a);
            },
            Op::SetA(a, b) => {
                assert(in_tape(crate::op::addrs_of(op)[0]));
                lower_set_a(&mut cache, last, &mut code, i, n, a, b);
                last = Some(a);
            },
            Op::JmpV(a, d) => lower_jmp_v(&mut cache, last, &mut code, i, n, a, d),
            Op::JmpA(_, _) => {
                assert(!(ops@[i as int] is JmpA));
            },
        }
        proof {
            let (s1, part) = cached_op(s, i as int, op, n as int);
            assert(cached_from(ops@, i as int, s) == part + cached_from(ops@, i + 1, s1));
            assert(before + part + cached_from(ops@, i + 1, s1) =~= before + (part + cached_from(ops@, i + 1, s1)));
        }
        i += 1;
    }
    push_all(&mut code, &[Insn::Bind(n), Insn::Pop(Reg::Rax), Insn::Pop(Reg::R12), Insn::Pop(Reg::R13),
        Insn::Pop(Reg::R14), Insn::Pop(Reg::R15), Insn::Pop(Reg::Rbp), Insn::Pop(Reg::Rbx), Insn::Ret]);
    Ok(code)
}

} // verus!
