use tickjit::cache::RegCache;
use tickjit::codegen::{lower_baseline, lower_cached, Insn, Reg};
use tickjit::machine::Machine;
use tickjit::op::{Error, Op};
use tickjit::parse::{parse, parse_int};

fn run(ops: Vec<Op>, fuel: usize) -> (Vec<isize>, bool) {
    let mut m = Machine::new(ops).unwrap();
    let out = m.run_for(fuel);
    (out, m.is_halted())
}

#[test]
fn parses_the_four_forms() {
    let ops = parse(b"1`+2 3`4 +5`+-6 +7`8".to_vec());
    assert_eq!(ops, vec![Op::SetV(1, 2), Op::SetA(3, 4), Op::JmpV(5, -6), Op::JmpA(7, 8)]);
}

#[test]
fn parse_skips_comments_and_broken_fragments() {
    let ops = parse(b"hello 12x 0`+65 world -3`-4".to_vec());
    assert_eq!(ops, vec![Op::SetV(0, 65), Op::SetA(-3, -4)]);
}

#[test]
fn parse_of_empty_text_is_empty() {
    assert!(parse(Vec::new()).is_empty());
}

#[test]
fn parse_int_reads_from_the_top_of_the_stack() {
    let mut stack = b"x21-".to_vec();
    assert_eq!(parse_int(&mut stack), Ok(-12));
    assert_eq!(stack, b"x".to_vec());
    let mut empty: Vec<u8> = Vec::new();
    assert_eq!(parse_int(&mut empty), Ok(0));
}

#[test]
fn parse_int_wraps() {
    let mut text = b"9223372036854775808".to_vec();
    text.reverse();
    assert_eq!(parse_int(&mut text), Ok(isize::MIN));
}

#[test]
fn single_output() {
    let (out, halted) = run(vec![Op::SetV(0, 65)], 10);
    assert_eq!(out, vec![65]);
    assert!(halted);
}

#[test]
fn two_instruction_loop_halts() {
    let ops = parse(b"5`+3 +5`+-1".to_vec());
    assert_eq!(ops, vec![Op::SetV(5, 3), Op::JmpV(5, -1)]);
    let mut m = Machine::new(ops).unwrap();
    let out = m.run_for(2);
    assert!(out.is_empty());
    assert!(m.is_halted());
    assert_eq!(m.cell(5), 3);
}

#[test]
fn taken_branch_loops_until_equal() {
    // [1] counts up by one; the branch goes back while [2] != V.
    let ops = vec![Op::SetV(2, 3), Op::SetV(1, 1), Op::JmpV(2, -1), Op::SetA(0, 1)];
    let mut m = Machine::new(ops).unwrap();
    let out = m.run_for(100);
    assert!(m.is_halted());
    assert_eq!(out, vec![3]);
    assert_eq!(m.cell(1), 3);
}

#[test]
fn branch_off_the_program_halts() {
    let ops = vec![Op::SetV(1, 1), Op::JmpV(2, 100), Op::SetV(0, 66)];
    let (out, halted) = run(ops, 10);
    assert!(out.is_empty());
    assert!(halted);
}

#[test]
fn cells_wrap() {
    let ops = vec![Op::SetV(3, isize::MAX), Op::SetV(3, 1), Op::SetA(0, 3)];
    let (out, _) = run(ops, 10);
    assert_eq!(out, vec![isize::MIN]);
}

#[test]
fn run_stops_when_fuel_ends() {
    let ops = vec![Op::SetV(0, 1), Op::JmpV(1, -1)];
    let mut m = Machine::new(ops).unwrap();
    let out = m.run_for(5);
    assert_eq!(out, vec![1, 2, 3]);
    assert!(!m.is_halted());
}

#[test]
fn address_out_of_range_in_every_engine() {
    let ops = vec![Op::SetV(1, 1), Op::SetA(2, 70000)];
    let e = Error::AddressOutOfRange { index: 1, addr: 70000 };
    assert_eq!(Machine::new(ops.clone()).err(), Some(e));
    assert_eq!(lower_baseline(&ops), Err(e));
    assert_eq!(lower_cached(&ops), Err(e));
    assert!(Machine::new(vec![Op::JmpV(-1, 0)]).is_err());
}

#[test]
fn indirect_branch_is_unsupported_by_the_generators() {
    let ops = vec![Op::SetV(1, 1), Op::JmpA(1, 2), Op::JmpA(1, 2)];
    assert_eq!(lower_baseline(&ops), Err(Error::Unsupported { index: 1 }));
    assert_eq!(lower_cached(&ops), Err(Error::Unsupported { index: 1 }));
    assert!(Machine::new(ops).is_ok());
}

#[test]
fn baseline_code() {
    let ops = vec![Op::SetV(0, 65), Op::SetA(2, 0), Op::JmpV(1, -2)];
    let code = lower_baseline(&ops).unwrap();
    assert_eq!(
        code,
        vec![
            Insn::Push(Reg::Rbx),
            Insn::MovReg(Reg::Rbx, Reg::Rdi),
            Insn::MovImm(Reg::Rdi, 0),
            Insn::Bind(0),
            Insn::MovImm(Reg::Rdi, 65),
            Insn::AddMem(Reg::Rdi, 0),
            Insn::Store(0, Reg::Rdi),
            Insn::CallOutput,
            Insn::Load(Reg::Rdi, 0),
            Insn::Bind(1),
            Insn::Load(Reg::Rdi, 0),
            Insn::AddMem(Reg::Rdi, 16),
            Insn::Store(16, Reg::Rdi),
            Insn::Bind(2),
            Insn::Load(Reg::Rax, 8),
            Insn::CmpJne(Reg::Rdi, Reg::Rax, 0),
            Insn::Bind(3),
            Insn::Pop(Reg::Rbx),
            Insn::Ret,
        ]
    );
}

#[test]
fn baseline_branch_off_the_program_goes_to_the_exit() {
    let code = lower_baseline(&vec![Op::JmpV(1, 5)]).unwrap();
    assert!(code.contains(&Insn::CmpJne(Reg::Rdi, Reg::Rax, 1)));
    let code = lower_baseline(&vec![Op::JmpV(1, -1)]).unwrap();
    assert!(code.contains(&Insn::CmpJne(Reg::Rdi, Reg::Rax, 1)));
}

#[test]
fn cached_code() {
    let ops = vec![Op::SetV(0, 65), Op::SetV(0, 1000), Op::JmpV(3, -1), Op::SetV(4, 1 << 40)];
    let code = lower_cached(&ops).unwrap();
    assert_eq!(
        &code[8..],
        &[
            Insn::Bind(0),
            Insn::Load(Reg::R12, 0),
            Insn::AddImm8(Reg::R12, 65),
            Insn::Store(0, Reg::R12),
            Insn::MovReg(Reg::Rdi, Reg::R12),
            Insn::CallOutput,
            Insn::Bind(1),
            Insn::AddImm32(Reg::R12, 1000),
            Insn::Store(0, Reg::R12),
            Insn::MovReg(Reg::Rdi, Reg::R12),
            Insn::CallOutput,
            Insn::Bind(2),
            Insn::Load(Reg::R13, 24),
            Insn::CmpJne(Reg::R13, Reg::R12, 1),
            Insn::Bind(3),
            Insn::Load(Reg::R14, 32),
            Insn::MovImm(Reg::Rax, 1 << 40),
            Insn::AddReg(Reg::R14, Reg::Rax),
            Insn::Store(32, Reg::R14),
            Insn::Bind(4),
            Insn::Pop(Reg::Rax),
            Insn::Pop(Reg::R12),
            Insn::Pop(Reg::R13),
            Insn::Pop(Reg::R14),
            Insn::Pop(Reg::R15),
            Insn::Pop(Reg::Rbp),
            Insn::Pop(Reg::Rbx),
            Insn::Ret,
        ][..]
    );
    assert_eq!(code[0], Insn::Push(Reg::Rbx));
    assert_eq!(code[7], Insn::MovReg(Reg::Rbx, Reg::Rdi));
}

#[test]
fn cached_branch_before_any_set_compares_with_zero() {
    let code = lower_cached(&vec![Op::JmpV(3, 0)]).unwrap();
    assert_eq!(
        &code[8..12],
        &[Insn::Bind(0), Insn::Load(Reg::R12, 24), Insn::MovImm(Reg::Rax, 0), Insn::CmpJne(Reg::R12, Reg::Rax, 0)][..]
    );
}

#[test]
fn cached_branch_reloads_evicted_v() {
    let mut ops: Vec<Op> = (1..=6).map(|a| Op::SetV(a, 1)).collect();
    ops.push(Op::JmpV(7, 1));
    ops.insert(0, Op::SetV(10, 1));
    let code = lower_cached(&ops).unwrap();
    // V is cell 6, still cached in R13; loading cell 7 evicts cell 2 from R14.
    let n = code.len();
    assert_eq!(
        &code[n - 12..n - 8],
        &[Insn::Store(16, Reg::R14), Insn::Load(Reg::R14, 56), Insn::CmpJne(Reg::R14, Reg::R13, 8), Insn::Bind(8)][..]
    );
}

#[test]
fn fifo_evicts_first_loaded_cell() {
    let mut cache = RegCache::new();
    let mut code: Vec<Insn> = Vec::new();
    let regs: Vec<Reg> = [10, 11, 12, 13, 14].iter().map(|&a| cache.load_cell(a, &mut code)).collect();
    assert_eq!(regs, vec![Reg::R12, Reg::R13, Reg::R14, Reg::R15, Reg::Rbp]);
    // A hit on the first cell does not move it to the back of the rotation.
    assert_eq!(cache.load_cell(10, &mut code), Reg::R12);
    assert_eq!(code.len(), 5);
    assert_eq!(cache.load_cell(15, &mut code), Reg::R12);
    assert_eq!(code.len(), 7);
    assert_eq!(&code[5..], &[Insn::Store(80, Reg::R12), Insn::Load(Reg::R12, 120)][..]);
    assert_eq!(cache.lookup(10), None);
    assert_eq!(cache.lookup(11), Some(Reg::R13));
}

#[test]
fn register_codes() {
    assert_eq!(Reg::Rax.code(), 0);
    assert_eq!(Reg::Rbx.code(), 3);
    assert_eq!(Reg::Rbp.code(), 5);
    assert_eq!(Reg::Rdi.code(), 7);
    assert_eq!(Reg::R12.code(), 12);
    assert_eq!(Reg::R15.code(), 15);
}
