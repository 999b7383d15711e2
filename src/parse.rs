//! Reading program text.
//!
//! The scanner keeps the unread text as a stack whose last element is the
//! next byte, so each read is a `pop` and each look-ahead that is not taken is
//! a `push` of the same byte.
use vstd::prelude::*;
use crate::op::Op;

verus! {

pub open spec fn is_digit(c: u8) -> bool {
    48 <= c && c <= 57
}

/// Appends decimal digit `c` to `n`, wrapping at the width of `isize`.
pub open spec fn digit_step(n: isize, c: u8) -> isize {
    n.wrapping_mul(10).wrapping_add((c - 48) as isize)
}

/// Reads the digits on top of stack `s` into accumulator `n`: the value, and
/// the stack that remains.
pub open spec fn read_digits(s: Seq<u8>, n: isize) -> (isize, Seq<u8>)
    decreases s.len(),
{
    if s.len() > 0 && is_digit(s.last()) {
        read_digits(s.drop_last(), digit_step(n, s.last()))
    } else {
        (n, s)
    }
}

/// Reads an integer, with an optional leading `-`, from the top of stack `s`.
/// An empty run of digits reads as zero.
pub open spec fn read_int(s: Seq<u8>) -> (isize, Seq<u8>) {
    if s.len() > 0 && s.last() == 45 {
        let (v, r) = read_digits(s.drop_last(), 0);
        (0isize.wrapping_sub(v), r)
    } else {
        read_digits(s, 0)
    }
}

/// The instruction for a branch or set form with an immediate or an address
/// as second operand.
pub open spec fn make_op(branch: bool, imm: bool, a: isize, b: isize) -> Op {
    if branch {
        if imm { Op::JmpV(a, b) } else { Op::JmpA(a, b) }
    } else {
        if imm { Op::SetV(a, b) } else { Op::SetA(a, b) }
    }
}

/// Reads `a`, the grave accent, an optional `+` and `b`. Without the grave
/// accent nothing is read but the byte where it should stand.
pub open spec fn read_operands(s: Seq<u8>, branch: bool) -> (Option<Op>, Seq<u8>) {
    let (a, r1) = read_int(s);
    if r1.len() == 0 {
        (None, r1)
    } else if r1.last() != 96 {
        (None, r1.drop_last())
    } else {
        let r2 = r1.drop_last();
        let imm = r2.len() > 0 && r2.last() == 43;
        let r3 = if imm { r2.drop_last() } else { r2 };
        let (b, r4) = read_int(r3);
        (Some(make_op(branch, imm, a, b)), r4)
    }
}

/// One scanner step on a non-empty stack: the instruction that starts on top,
/// if one does, and the stack that remains.
pub open spec fn read_op(s: Seq<u8>) -> (Option<Op>, Seq<u8>) {
    let b = s.last();
    if b == 43 {
        read_operands(s.drop_last(), true)
    } else if b == 45 || is_digit(b) {
        read_operands(s, false)
    } else {
        (None, s.drop_last())
    }
}

/// The instructions read from stack `s` until it is empty.
pub open spec fn ops_of(s: Seq<u8>) -> Seq<Op>
    decreases s.len(),
    via ops_of_decreases
{
    if s.len() == 0 {
        seq![]
    } else {
        let (o, r) = read_op(s);
        match o {
            Some(op) => seq![op] + ops_of(r),
            None => ops_of(r),
        }
    }
}

proof fn lemma_read_digits_len(s: Seq<u8>, n: isize)
    ensures
        read_digits(s, n).1.len() <= s.len(),
        s.len() > 0 && is_digit(s.last()) ==> read_digits(s, n).1.len() < s.len(),
    decreases s.len(),
{
    if s.len() > 0 && is_digit(s.last()) {
        lemma_read_digits_len(s.drop_last(), digit_step(n, s.last()));
    }
}

proof fn lemma_read_int_len(s: Seq<u8>)
    ensures
        read_int(s).1.len() <= s.len(),
        s.len() > 0 && (s.last() == 45 || is_digit(s.last())) ==> read_int(s).1.len() < s.len(),
{
    lemma_read_digits_len(s, 0);
    if s.len() > 0 {
        lemma_read_digits_len(s.drop_last(), 0);
    }
}

proof fn lemma_read_op_len(s: Seq<u8>)
    requires
        s.len() > 0,
    ensures
        read_op(s).1.len() < s.len(),
{
    let t = if s.last() == 43 { s.drop_last() } else { s };
    lemma_read_int_len(t);
    let r1 = read_int(t).1;
    if r1.len() > 0 && r1.last() == 96 {
        let r2 = r1.drop_last();
        let r3 = if r2.len() > 0 && r2.last() == 43 { r2.drop_last() } else { r2 };
        lemma_read_int_len(r3);
    }
}

#[via_fn]
proof fn ops_of_decreases(s: Seq<u8>) {
    if s.len() > 0 {
        lemma_read_op_len(s);
    }
}

/// The stack that holds `text` with its first byte on top.
pub open spec fn stack_of(text: Seq<u8>) -> Seq<u8> {
    text.reverse()
}

/// The program that `text` holds.
pub open spec fn program_of(text: Seq<u8>) -> Seq<Op> {
    ops_of(stack_of(text))
}

/// Reads an integer with an optional leading `-` from the top of `code`.
/// It never fails: an empty run of digits reads as zero, and values wrap at
/// the width of `isize`.
pub fn parse_int(code: &mut Vec<u8>) -> (r: Result<isize, ()>)
    ensures
        r == Ok::<isize, ()>(read_int(old(code)@).0),
        final(code)@ == read_int(old(code)@).1,
{
    let c = code.pop();
    let inv = c == Some(45u8);
    if !inv {
        if let Some(c) = c {
            code.push(c);
        }
    }
    assert(code@ == if inv { old(code)@.drop_last() } else { old(code)@ });
    let ghost start = code@;
    let mut n: isize = 0;
    loop
        invariant
            read_digits(code@, n) == read_digits(start, 0),
        ensures
            read_digits(start, 0) == (n, code@),
        decreases code@.len(),
    {
        let ghost before = code@;
        match code.pop() {
            Some(c) => {
                if c < 48 || 57 < c {
                    code.push(c);
                    assert(code@ =~= before);
                    break;
                }
                n = n.wrapping_mul(10).wrapping_add((c - 48) as isize);
            },
            None => break,
        }
    }
    Ok(if inv { 0isize.wrapping_sub(n) } else { n })
}

/// Reads the operands of an instruction whose leading `+`, if any, has been
/// taken off `code`.
fn parse_operands(code: &mut Vec<u8>, branch: bool) -> (r: Option<Op>)
    ensures
        (r, final(code)@) == read_operands(old(code)@, branch),
{
    let a = match parse_int(code) {
        Ok(a) => a,
        Err(()) => return None,
    };
    if code.pop() != Some(96u8) {
        return None;
    }
    let ghost r2 = code@;
    let chr = code.pop();
    let imm = chr == Some(43u8);
    if !imm {
        if let Some(c) = chr {
            code.push(c);
        }
        assert(code@ =~= r2);
    }
    match parse_int(code) {
        Ok(b) => Some(
            if branch {
                if imm { Op::JmpV(a, b) } else { Op::JmpA(a, b) }
            } else {
                if imm { Op::SetV(a, b) } else { Op::SetA(a, b) }
            },
        ),
        Err(()) => None,
    }
}

/// Reads a program from its text. Bytes that start no instruction are
/// skipped, and so is a fragment that lacks its grave accent; reading never
/// fails.
pub fn parse(code: Vec<u8>) -> (r: Vec<Op>)
    ensures
        r@ == program_of(code@),
{
    let mut stack: Vec<u8> = Vec::new();
    let mut k: usize = code.len();
    while k > 0
        invariant
            k <= code@.len(),
            stack@ =~= code@.subrange(k as int, code@.len() as int).reverse(),
        decreases k,
    {
        k -= 1;
        stack.push(code[k]);
    }
    assert(code@.subrange(0, code@.len() as int) =~= code@);
    let mut ops: Vec<Op> = Vec::new();
    let ghost all = stack@;
    while stack.len() > 0
        invariant
            ops@ + ops_of(stack@) == ops_of(all),
        decreases stack@.len(),
    {
        let ghost s = stack@;
        proof {
            lemma_read_op_len(s);
        }
        let b = stack.pop().unwrap();
        let o = if b == 43 {
            parse_operands(&mut stack, true)
        } else if b == 45 || (48 <= b && b <= 57) {
            stack.push(b);
            assert(stack@ =~= s);
            parse_operands(&mut stack, false)
        } else {
            None
        };
        assert((o, stack@) == read_op(s));
        if let Some(op) = o {
            ops.push(op);
            assert(ops@ + ops_of(stack@) =~= ops@.drop_last() + ops_of(s));
        }
    }
    assert(ops@ + ops_of(stack@) =~= ops@);
    ops
}

} // verus!
