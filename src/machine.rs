//! The interpreter: a tape machine that runs a program one instruction at a
//! time.
use vstd::prelude::*;
use crate::op::{Op, Error, TAPE_LEN, in_tape, program_in_tape, bad_addr, validate};

verus! {

/// The state of a run: the tape, the value `V` and the instruction pointer.
pub struct State {
    pub tape: Seq<isize>,
    pub v: isize,
    pub ip: int,
}

/// Where the pointer goes when it is set to `t`: there if that is an
/// instruction, else to `len`, the place where the machine has halted.
pub open spec fn settle(t: int, len: int) -> int {
    if 0 <= t < len { t } else { len }
}

/// Adds `x` to cell `a` and makes the sum `V`; a write to cell 0 is output.
pub open spec fn add_to_cell(s: State, a: isize, x: isize) -> (State, Option<isize>) {
    let y = s.tape[a as int].wrapping_add(x);
    (
        State { tape: s.tape.update(a as int, y), v: y, ip: s.ip + 1 },
        if a == 0 { Some(y) } else { None },
    )
}

/// Takes the branch by `d` when cell `a` differs from `V`.
pub open spec fn branch(s: State, a: isize, d: isize, len: int) -> State {
    let t = if s.tape[a as int] != s.v { s.ip + d } else { s.ip + 1 };
    State { ip: settle(t, len), ..s }
}

/// One instruction executed from state `s` (whose pointer is on the program),
/// and the value it writes to the output cell, if it writes there.
pub open spec fn step_spec(ops: Seq<Op>, s: State) -> (State, Option<isize>) {
    let (n, out) = match ops[s.ip] {
        Op::SetV(a, b) => add_to_cell(s, a, b),
        Op::SetA(a, b) => add_to_cell(s, a, s.tape[b as int]),
        Op::JmpV(a, d) => (branch(s, a, d, ops.len() as int), None),
        Op::JmpA(a, b) => (branch(s, a, s.tape[b as int], ops.len() as int), None),
    };
    (State { ip: settle(n.ip, ops.len() as int), ..n }, out)
}

/// At most `fuel` instructions executed from `s`: the state reached and the
/// values output on the way, in order.
pub open spec fn run_spec(ops: Seq<Op>, s: State, fuel: nat) -> (State, Seq<isize>)
    decreases fuel,
{
    if fuel == 0 || !(0 <= s.ip < ops.len()) {
        (s, seq![])
    } else {
        let (n, out) = step_spec(ops, s);
        let (m, outs) = run_spec(ops, n, (fuel - 1) as nat);
        (m, match out {
            Some(x) => seq![x] + outs,
            None => outs,
        })
    }
}

/// The state in which every run starts: a zero tape, `V` zero, the pointer
/// on the first instruction.
pub open spec fn start_state() -> State {
    State { tape: Seq::new(TAPE_LEN as nat, |i: int| 0isize), v: 0, ip: 0 }
}

/// A run of a program whose addresses all lie on the tape.
pub struct Machine {
    ops: Vec<Op>,
    tape: Vec<isize>,
    v: isize,
    ip: usize,
}

impl Machine {
    pub closed spec fn program(&self) -> Seq<Op> {
        self.ops@
    }

    pub closed spec fn state(&self) -> State {
        State { tape: self.tape@, v: self.v, ip: self.ip as int }
    }

    pub closed spec fn wf(&self) -> bool {
        &&& self.tape@.len() == TAPE_LEN
        &&& self.ip <= self.ops@.len()
        &&& program_in_tape(self.ops@)
    }

    /// Whether the pointer has left the program.
    pub open spec fn halted(&self) -> bool {
        !(0 <= self.state().ip < self.program().len())
    }

    /// Whether the pointer has left the program, so that no step is left.
    pub fn is_halted(&self) -> (r: bool)
        requires
            self.wf(),
        ensures
            r == self.halted(),
    {
        self.ip >= self.ops.len()
    }

    /// The value of cell `a`.
    pub fn cell(&self, a: usize) -> (r: isize)
        requires
            self.wf(),
            a < TAPE_LEN,
        ensures
            r == self.state().tape[a as int],
    {
        self.tape[a]
    }

    /// Prepares a run of `ops`, or reports the first instruction that names
    /// a cell off the tape.
    pub fn new(ops: Vec<Op>) -> (r: Result<Machine, Error>)
        ensures
            r matches Ok(m) ==> m.wf() && m.program() == ops@ && m.state() == start_state(),
            r.is_ok() <==> program_in_tape(ops@),
            r matches Err(e) ==> (e matches Error::AddressOutOfRange { index, addr }
                && index < ops@.len() && bad_addr(ops@[index as int]) == Some(addr)),
    {
        match validate(&ops) {
            Err(e) => Err(e),
            Ok(()) => {
                let mut tape: Vec<isize> = Vec::new();
                let mut k: usize = 0;
                while k < TAPE_LEN
                    invariant
                        k <= TAPE_LEN,
                        tape@ == Seq::new(k as nat, |i: int| 0isize),
                    decreases TAPE_LEN - k,
                {
                    tape.push(0);
                    k += 1;
                    assert(tape@ =~= Seq::new(k as nat, |i: int| 0isize));
                }
                Ok(Machine { ops, tape, v: 0, ip: 0 })
            },
        }
    }

    /// Executes one instruction. `None` when the machine has already halted;
    /// else `Some` of what the instruction wrote to the output cell, if it
    /// wrote there.
    pub fn step(&mut self) -> (r: Option<Option<isize>>)
        requires
            old(self).wf(),
        ensures
            final(self).wf(),
            final(self).program() == old(self).program(),
            old(self).halted() ==> r.is_none() && final(self).state() == old(self).state(),
            !old(self).halted() ==> r == Some(step_spec(old(self).program(), old(self).state()).1)
                && final(self).state() == step_spec(old(self).program(), old(self).state()).0,
    {
        if self.ip >= self.ops.len() {
            return None;
        }
        let op = self.ops[self.ip];
        assert(in_tape(crate::op::addrs_of(op)[0]));
        match op {
            Op::SetV(a, b) => Some(self.add_to_cell(a, b)),
            Op::SetA(a, b) => {
                assert(in_tape(crate::op::addrs_of(op)[1]));
                let x = self.tape[b as usize];
                Some(self.add_to_cell(a, x))
            },
            Op::JmpV(a, d) => {
                self.branch(a, d);
                Some(None)
            },
            Op::JmpA(a, b) => {
                assert(in_tape(crate::op::addrs_of(op)[1]));
                let d = self.tape[b as usize];
                self.branch(a, d);
                Some(None)
            },
        }
    }

    fn add_to_cell(&mut self, a: isize, x: isize) -> (r: Option<isize>)
        requires
            old(self).wf(),
            !old(self).halted(),
            in_tape(a),
        ensures
            final(self).wf(),
            final(self).ops == old(self).ops,
            (final(self).state(), r) == add_to_cell(old(self).state(), a, x),
    {
        let y = self.tape[a as usize].wrapping_add(x);
        let len = self.ops.len();
        proof {
            assert(self.ip < len);
        }
        self.ip = self.ip + 1;
        self.tape.set(a as usize, y);
        self.v = y;
        if a == 0 { Some(y) } else { None }
    }

    fn branch(&mut self, a: isize, d: isize)
        requires
            old(self).wf(),
            !old(self).halted(),
            in_tape(a),
        ensures
            final(self).wf(),
            final(self).ops == old(self).ops,
            final(self).state() == branch(old(self).state(), a, d, old(self).ops@.len() as int),
    {
        let len = self.ops.len();
        if self.tape[a as usize] != self.v {
            let t: i128 = self.ip as i128 + d as i128;
            self.ip = if 0 <= t && t < len as i128 { t as usize } else { len };
        } else {
            proof {
                assert(self.ip < len);
            }
            self.ip = self.ip + 1;
        }
    }

    /// Executes at most `fuel` instructions, stopping early when the machine
    /// halts, and returns the values written to the output cell, in order.
    pub fn run_for(&mut self, fuel: usize) -> (r: Vec<isize>)
        requires
            old(self).wf(),
        ensures
            final(self).wf(),
            final(self).program() == old(self).program(),
            (final(self).state(), r@) == run_spec(old(self).program(), old(self).state(), fuel as nat),
    {
        let mut out: Vec<isize> = Vec::new();
        let mut k: usize = fuel;
        let ghost s0 = self.state();
        while k > 0
            invariant
                self.wf(),
                self.program() == old(self).program(),
                s0 == old(self).state(),
                ({
                    let (m, outs) = run_spec(self.program(), self.state(), k as nat);
                    (m, out@ + outs) == run_spec(self.program(), s0, fuel as nat)
                }),
            decreases k,
        {
            let ghost before = self.state();
            match self.step() {
                None => {
                    assert(run_spec(self.program(), self.state(), k as nat) == (self.state(), Seq::<isize>::empty()));
                    assert(out@ + Seq::<isize>::empty() =~= out@);

                    return out;
                },
                Some(o) => {
                    if let Some(x) = o {
                        out.push(x);
                    }
                    let ghost m = run_spec(self.program(), self.state(), (k - 1) as nat);
                    assert(out@ + m.1 =~= {
                        let (mm, outs) = run_spec(self.program(), before, k as nat);
                        if o.is_some() { out@.drop_last() + outs } else { out@ + outs }
                    });
                },
            }
            k -= 1;
        }
        assert(out@ + seq![] =~= out@);
        out
    }
}

} // verus!
