use vstd::prelude::*;

verus! {

/// One instruction of the tape machine language.
///
/// `V` is the value most recently written by a set instruction and `[x]`
/// denotes tape cell `x`.
#[derive(PartialEq, Eq, Structural, Clone, Copy, Debug)]
pub enum Op {
    /// `a`+b`: `[a] += b`, then `V = [a]`.
    SetV(isize, isize),
    /// `a`b`: `[a] += [b]`, then `V = [a]`.
    SetA(isize, isize),
    /// `+a`+b`: when `[a] != V`, move the instruction pointer by `b`.
    JmpV(isize, isize),
    /// `+a`b`: when `[a] != V`, move the instruction pointer by `[b]`.
    JmpA(isize, isize),
}

/// Number of cells on the tape.
pub const TAPE_LEN: usize = 65536;

/// Why a program could not be run.
#[derive(PartialEq, Eq, Structural, Clone, Copy, Debug)]
pub enum Error {
    /// The instruction at `index` names a cell outside the tape.
    AddressOutOfRange { index: usize, addr: isize },
    /// The instruction at `index` has a form that this engine cannot lower.
    Unsupported { index: usize },
}

/// A cell address that lies on the tape.
pub open spec fn in_tape(a: isize) -> bool {
    0 <= a < TAPE_LEN
}

/// The cell addresses that an instruction reads or writes.
pub open spec fn addrs_of(op: Op) -> Seq<isize> {
    match op {
        Op::SetV(a, _) => seq![a],
        Op::SetA(a, b) => seq![a, b],
        Op::JmpV(a, _) => seq![a],
        Op::JmpA(a, b) => seq![a, b],
    }
}

/// Every address that the instruction names lies on the tape.
pub open spec fn op_in_tape(op: Op) -> bool {
    forall|k: int| 0 <= k < addrs_of(op).len() ==> in_tape(#[trigger] addrs_of(op)[k])
}

/// Every address of every instruction lies on the tape.
pub open spec fn program_in_tape(ops: Seq<Op>) -> bool {
    forall|i: int| 0 <= i < ops.len() ==> op_in_tape(#[trigger] ops[i])
}

/// The first address of `op` that lies off the tape, if any.
pub open spec fn bad_addr(op: Op) -> Option<isize> {
    match op {
        Op::SetV(a, _) | Op::JmpV(a, _) => if in_tape(a) { None } else { Some(a) },
        Op::SetA(a, b) | Op::JmpA(a, b) => if !in_tape(a) {
            Some(a)
        } else if !in_tape(b) {
            Some(b)
        } else {
            None
        },
    }
}

/// Checks the addresses of one instruction; `Some` holds the first bad one.
pub fn check_op(op: &Op) -> (r: Option<isize>)
    ensures
        r == bad_addr(*op),
        r.is_none() <==> op_in_tape(*op),
{
    let (a, b, two) = match *op {
        Op::SetV(a, b) => (a, b, false),
        Op::SetA(a, b) => (a, b, true),
        Op::JmpV(a, b) => (a, b, false),
        Op::JmpA(a, b) => (a, b, true),
    };
    if a < 0 || a >= TAPE_LEN as isize {
        assert(addrs_of(*op)[0] == a);
        Some(a)
    } else if two && (b < 0 || b >= TAPE_LEN as isize) {
        assert(addrs_of(*op)[1] == b);
        Some(b)
    } else {
        None
    }
}

/// Checks that every instruction names only cells on the tape.
pub fn validate(ops: &Vec<Op>) -> (r: Result<(), Error>)
    ensures
        r.is_ok() <==> program_in_tape(ops@),
        r matches Err(e) ==> (e matches Error::AddressOutOfRange { index, addr }
            && index < ops@.len() && bad_addr(ops@[index as int]) == Some(addr)
            && program_in_tape(ops@.take(index as int))),
{
    let mut i: usize = 0;
    while i < ops.len()
        invariant
            i <= ops@.len(),
            program_in_tape(ops@.take(i as int)),
        decreases ops@.len() - i,
    {
        match check_op(&ops[i]) {
            Some(addr) => {
                return Err(Error::AddressOutOfRange { index: i, addr });
            },
            None => {},
        }
        assert(ops@.take(i + 1) =~= ops@.take(i as int).push(ops@[i as int]));
        i += 1;
    }
    assert(ops@.take(i as int) =~= ops@);
    Ok(())
}

} // verus!
