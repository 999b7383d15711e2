use tickjit::codegen::{lower_baseline, lower_cached, Insn, Reg};
use tickjit::machine::Machine;
use tickjit::op::Op;

/// Runs generated code on a plain model of the processor and returns what
/// it passed to the output sink. A call leaves junk in `rax` and `rdi`.
fn emulate(code: &[Insn], fuel: usize) -> Vec<isize> {
    let mut labels = std::collections::HashMap::new();
    for (k, insn) in code.iter().enumerate() {
        if let Insn::Bind(l) = insn {
            labels.insert(*l, k);
        }
    }
    let mut regs = [0x5a5a_isize; 16];
    let mut tape = vec![0isize; 65536];
    let mut out = Vec::new();
    let r = |g: Reg| g.code() as usize;
    let mut pc = 0;
    for _ in 0..fuel {
        match code[pc] {
            Insn::Ret => return out,
            Insn::Bind(_) | Insn::Push(_) | Insn::Pop(_) => {}
            Insn::MovReg(d, s) => regs[r(d)] = regs[r(s)],
            Insn::MovImm(d, v) => regs[r(d)] = v,
            Insn::Load(d, o) => regs[r(d)] = tape[o as usize / 8],
            Insn::Store(o, s) => tape[o as usize / 8] = regs[r(s)],
            Insn::AddMem(d, o) => regs[r(d)] = regs[r(d)].wrapping_add(tape[o as usize / 8]),
            Insn::AddImm8(d, b) => regs[r(d)] = regs[r(d)].wrapping_add(b as isize),
            Insn::AddImm32(d, b) => regs[r(d)] = regs[r(d)].wrapping_add(b as isize),
            Insn::AddReg(d, s) => regs[r(d)] = regs[r(d)].wrapping_add(regs[r(s)]),
            Insn::CallOutput => {
                out.push(regs[r(Reg::Rdi)]);
                regs[r(Reg::Rax)] = 0x7777;
                regs[r(Reg::Rdi)] = 0x7777;
            }
            Insn::CmpJne(a, b, l) => {
                if regs[r(a)] != regs[r(b)] {
                    pc = labels[&l];
                    continue;
                }
            }
        }
        pc += 1;
    }
    panic!("generated code did not return");
}

fn interpret(ops: &[Op]) -> Vec<isize> {
    let mut m = Machine::new(ops.to_vec()).unwrap();
    let out = m.run_for(100_000);
    assert!(m.is_halted());
    out
}

fn all_agree(ops: &[Op]) -> Vec<isize> {
    let want = interpret(ops);
    let ops_v = ops.to_vec();
    assert_eq!(emulate(&lower_baseline(&ops_v).unwrap(), 1_000_000), want);
    assert_eq!(emulate(&lower_cached(&ops_v).unwrap(), 1_000_000), want);
    want
}

#[test]
fn engines_agree_on_a_single_output() {
    assert_eq!(all_agree(&[Op::SetV(0, 65)]), vec![65]);
}

#[test]
fn engines_agree_on_a_counting_loop() {
    let ops = [Op::SetV(4, 5), Op::SetV(0, 1), Op::SetV(3, 1), Op::JmpV(4, -2)];
    assert_eq!(all_agree(&ops), vec![1, 2, 3, 4, 5]);
}

#[test]
fn engines_agree_on_the_two_instruction_loop() {
    assert_eq!(all_agree(&[Op::SetV(5, 3), Op::JmpV(5, -1)]), Vec::<isize>::new());
}

#[test]
fn engines_agree_with_indirect_sets_and_eviction() {
    let mut ops = vec![Op::SetV(1, 72), Op::SetV(2, 33)];
    for a in 10..20 {
        ops.push(Op::SetV(a, a as isize));
    }
    ops.push(Op::SetA(0, 1));
    ops.push(Op::SetA(0, 2));
    ops.push(Op::SetV(0, -100_000));
    ops.push(Op::SetV(0, 1 << 40));
    assert_eq!(all_agree(&ops), vec![72, 105, -99_895, (1 << 40) - 99_895]);
}

#[test]
fn engines_agree_on_a_branch_before_any_set() {
    assert_eq!(all_agree(&[Op::JmpV(7, 2), Op::SetV(0, 1), Op::SetV(0, 2)]), vec![1, 3]);
}
