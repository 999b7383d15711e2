//! Writing programs back as text, in the canonical form that [`parse`]
//! reads back unchanged.
//!
//! [`parse`]: crate::parse::parse
use vstd::prelude::*;
use vstd::arithmetic::div_mod::{lemma_fundamental_div_mod, lemma_small_mod};
use crate::op::Op;
use crate::parse::{is_digit, digit_step, read_digits, read_int, read_operands, read_op, make_op, ops_of, program_of, stack_of};

verus! {

/// The decimal digits of `m`, most significant first, without leading zeros.
pub open spec fn dec(m: nat) -> Seq<u8>
    decreases m,
{
    if m < 10 {
        seq![(48 + m) as u8]
    } else {
        dec(m / 10) + seq![(48 + m % 10) as u8]
    }
}

/// `n` in decimal, with a leading `-` when negative.
pub open spec fn int_text(n: isize) -> Seq<u8> {
    if n < 0 { seq![45u8] + dec((-n) as nat) } else { dec(n as nat) }
}

/// One instruction as a line: `a`+b`, `a`b`, `+a`+b` or `+a`b`.
pub open spec fn op_text(op: Op) -> Seq<u8> {
    let (branch, imm, a, b) = match op {
        Op::SetV(a, b) => (false, true, a, b),
        Op::SetA(a, b) => (false, false, a, b),
        Op::JmpV(a, b) => (true, true, a, b),
        Op::JmpA(a, b) => (true, false, a, b),
    };
    (if branch { seq![43u8] } else { seq![] }) + int_text(a) + seq![96u8]
        + (if imm { seq![43u8] } else { seq![] }) + int_text(b) + seq![10u8]
}

/// A program as text, one instruction per line.
pub open spec fn text_of(ops: Seq<Op>) -> Seq<u8>
    decreases ops.len(),
{
    if ops.len() == 0 {
        seq![]
    } else {
        op_text(ops[0]) + text_of(ops.drop_first())
    }
}

/// Digits `d` appended in turn to accumulator `n`.
pub open spec fn fold_digits(n: isize, d: Seq<u8>) -> isize
    decreases d.len(),
{
    if d.len() == 0 {
        n
    } else {
        fold_digits(digit_step(n, d[0]), d.drop_first())
    }
}

/// A stack whose top does not continue a run of digits.
pub open spec fn stops_digits(y: Seq<u8>) -> bool {
    y.len() == 0 || !is_digit(y.last())
}

proof fn lemma_dec_digits(m: nat)
    ensures
        dec(m).len() > 0,
        forall|i: int| 0 <= i < dec(m).len() ==> is_digit(#[trigger] dec(m)[i]),
    decreases m,
{
    if m >= 10 {
        lemma_dec_digits(m / 10);
    }
}

proof fn lemma_read_digits_rev(y: Seq<u8>, d: Seq<u8>, n: isize)
    requires
        stops_digits(y),
        forall|i: int| 0 <= i < d.len() ==> is_digit(#[trigger] d[i]),
    ensures
        read_digits(y + d.reverse(), n) == (fold_digits(n, d), y),
    decreases d.len(),
{
    if d.len() == 0 {
        assert(y + d.reverse() =~= y);
    } else {
        let s = y + d.reverse();
        assert(s.last() == d[0]);
        assert(s.drop_last() =~= y + d.drop_first().reverse());
        lemma_read_digits_rev(y, d.drop_first(), digit_step(n, d[0]));
    }
}

proof fn lemma_fold_append(n: isize, a: Seq<u8>, b: Seq<u8>)
    ensures
        fold_digits(n, a + b) == fold_digits(fold_digits(n, a), b),
    decreases a.len(),
{
    if a.len() > 0 {
        assert((a + b).drop_first() =~= a.drop_first() + b);
        lemma_fold_append(digit_step(n, a[0]), a.drop_first(), b);
    }
}

proof fn lemma_fold_one(n: isize, x: u8)
    ensures
        fold_digits(n, seq![x]) == digit_step(n, x),
{
    assert(seq![x].drop_first() =~= Seq::<u8>::empty());
    assert(fold_digits(digit_step(n, x), Seq::<u8>::empty()) == digit_step(n, x));
}

/// The digits of `m` read back, wrapping once past `isize::MAX`.
proof fn lemma_fold_dec(m: nat)
    requires
        m <= isize::MAX + 1,
    ensures
        fold_digits(0, dec(m)) == if m <= isize::MAX { m as isize } else { isize::MIN },
    decreases m,
{
    if m < 10 {
        lemma_fold_one(0, (48 + m) as u8);
    } else {
        let q = m / 10;
        let r = m % 10;
        lemma_fundamental_div_mod(m as int, 10);
        lemma_fold_dec(q);
        lemma_fold_append(0, dec(q), seq![(48 + r) as u8]);
        lemma_fold_one(q as isize, (48 + r) as u8);
        assert(dec(m) == dec(q) + seq![(48 + r) as u8]);
        assert(q <= isize::MAX);
        assert(0 <= q * 10 <= isize::MAX);
        lemma_small_mod((q * 10) as nat, (usize::MAX - usize::MIN + 1) as nat);
        assert((q as isize).wrapping_mul(10) == (q * 10) as isize);
    }
}

/// Reading an integer back from its text, on top of a stack that does not
/// continue it.
proof fn lemma_read_int_text(y: Seq<u8>, n: isize)
    requires
        stops_digits(y),
        y.len() == 0 || y.last() != 45,
    ensures
        read_int(y + int_text(n).reverse()) == (n, y),
{
    if n < 0 {
        let m = (-n) as nat;
        lemma_dec_digits(m);
        lemma_fold_dec(m);
        let s = y + int_text(n).reverse();
        assert(int_text(n).reverse() =~= dec(m).reverse() + seq![45u8]);
        assert(s.last() == 45);
        assert(s.drop_last() =~= y + dec(m).reverse());
        lemma_read_digits_rev(y, dec(m), 0);
    } else {
        lemma_dec_digits(n as nat);
        lemma_fold_dec(n as nat);
        lemma_read_digits_rev(y, dec(n as nat), 0);
        let d = dec(n as nat);
        assert(d.reverse().last() == d[0]);
    }
}

proof fn lemma_reverse_append(a: Seq<u8>, b: Seq<u8>)
    ensures
        (a + b).reverse() == b.reverse() + a.reverse(),
{
    assert((a + b).reverse() =~= b.reverse() + a.reverse());
}

proof fn lemma_int_text_head(n: isize)
    ensures
        int_text(n).len() > 0,
        int_text(n)[0] == 45 || is_digit(int_text(n)[0]),
        int_text(n).reverse().last() == int_text(n)[0],
{
    lemma_dec_digits(if n < 0 { (-n) as nat } else { n as nat });
}

/// The operands `a`, the grave accent, `+` where `imm`, and `b`, read from
/// the top of a stack whose rest is `xb`.
proof fn lemma_read_operands_text(xb: Seq<u8>, branch: bool, imm: bool, a: isize, b: isize)
    requires
        stops_digits(xb),
        xb.len() == 0 || xb.last() != 45,
    ensures
        ({
            let i: Seq<u8> = if imm { seq![43u8] } else { seq![] };
            read_operands(xb + int_text(b).reverse() + i.reverse() + seq![96u8] + int_text(a).reverse(), branch)
                == (Some(make_op(branch, imm, a, b)), xb)
        }),
{
    let i: Seq<u8> = if imm { seq![43u8] } else { seq![] };
    let r3 = xb + int_text(b).reverse();
    let r2 = r3 + i.reverse();
    let r1 = r2 + seq![96u8];
    lemma_read_int_text(r1, a);
    lemma_read_int_text(xb, b);
    lemma_int_text_head(b);
    assert(r1.drop_last() =~= r2);
    if imm {
        assert(r2.drop_last() =~= r3);
    } else {
        assert(r2 =~= r3);
    }
}

proof fn lemma_line_reverse(x: Seq<u8>, p: Seq<u8>, ta: Seq<u8>, i: Seq<u8>, tb: Seq<u8>)
    ensures
        x + (p + ta + seq![96u8] + i + tb + seq![10u8]).reverse()
            == x + seq![10u8] + tb.reverse() + i.reverse() + seq![96u8] + ta.reverse() + p.reverse(),
{
    assert(x + (p + ta + seq![96u8] + i + tb + seq![10u8]).reverse()
        =~= x + seq![10u8] + tb.reverse() + i.reverse() + seq![96u8] + ta.reverse() + p.reverse());
}

/// One scanner step on the line of `op` on top of stack `x`.
proof fn lemma_read_line(x: Seq<u8>, op: Op)
    ensures
        read_op(x + op_text(op).reverse()) == (Some(op), x + seq![10u8]),
{
    let (branch, imm, a, b) = match op {
        Op::SetV(a, b) => (false, true, a, b),
        Op::SetA(a, b) => (false, false, a, b),
        Op::JmpV(a, b) => (true, true, a, b),
        Op::JmpA(a, b) => (true, false, a, b),
    };
    assert(make_op(branch, imm, a, b) == op);
    let p: Seq<u8> = if branch { seq![43u8] } else { seq![] };
    let i: Seq<u8> = if imm { seq![43u8] } else { seq![] };
    let ta = int_text(a);
    let tb = int_text(b);
    let xb = x + seq![10u8];
    let s1 = xb + tb.reverse() + i.reverse() + seq![96u8] + ta.reverse();
    let s = s1 + p.reverse();
    assert(op_text(op) == p + ta + seq![96u8] + i + tb + seq![10u8]);
    lemma_line_reverse(x, p, ta, i, tb);
    lemma_read_operands_text(xb, branch, imm, a, b);
    lemma_int_text_head(a);
    if branch {
        assert(s.drop_last() =~= s1);
    } else {
        assert(s =~= s1);
    }
}

/// Reading the line of one instruction from the top of stack `x` gives that
/// instruction, then the rest of `x`.
proof fn lemma_ops_of_line(x: Seq<u8>, op: Op)
    ensures
        ops_of(x + op_text(op).reverse()) == seq![op] + ops_of(x),
{
    let s = x + op_text(op).reverse();
    let xb = x + seq![10u8];
    lemma_read_line(x, op);
    assert(s.len() > 0);
    assert(ops_of(s) == seq![op] + ops_of(xb));
    assert(xb.drop_last() =~= x);
    assert(read_op(xb) == (None::<Op>, x));
    assert(ops_of(xb) == ops_of(x));
}

/// Writing a program as text and reading that text gives the program back:
/// so reading is idempotent on text in this form, and on the text that any
/// parsed program is written back as.
pub proof fn lemma_parse_text_of(ops: Seq<Op>)
    ensures
        program_of(text_of(ops)) == ops,
    decreases ops.len(),
{
    if ops.len() == 0 {
        assert(stack_of(text_of(ops)) =~= Seq::<u8>::empty());
    } else {
        let rest = ops.drop_first();
        lemma_parse_text_of(rest);
        lemma_reverse_append(op_text(ops[0]), text_of(rest));
        lemma_ops_of_line(stack_of(text_of(rest)), ops[0]);
        assert(seq![ops[0]] + rest =~= ops);
    }
}

/// Parsing, writing back and parsing again gives what the first parse gave.
pub proof fn lemma_reparse_idempotent(text: Seq<u8>)
    ensures
        program_of(text_of(program_of(text))) == program_of(text),
{
    lemma_parse_text_of(program_of(text));
}

proof fn lemma_text_of_push(ops: Seq<Op>, op: Op)
    ensures
        text_of(ops.push(op)) == text_of(ops) + op_text(op),
    decreases ops.len(),
{
    if ops.len() == 0 {
        assert(ops.push(op).drop_first() =~= Seq::<Op>::empty());
        assert(text_of(ops.push(op)) =~= op_text(op) + text_of(Seq::<Op>::empty()));
        assert(text_of(ops) + op_text(op) =~= op_text(op));
    } else {
        assert(ops.push(op).drop_first() =~= ops.drop_first().push(op));
        lemma_text_of_push(ops.drop_first(), op);
        assert(text_of(ops.push(op)) =~= op_text(ops[0]) + (text_of(ops.drop_first()) + op_text(op)));
    }
}

fn push_dec(out: &mut Vec<u8>, m: u64)
    ensures
        final(out)@ == old(out)@ + dec(m as nat),
    decreases m,
{
    if m >= 10 {
        push_dec(out, m / 10);
    }
    out.push((48 + m % 10) as u8);
    assert(final(out)@ =~= old(out)@ + dec(m as nat));
}

fn push_int(out: &mut Vec<u8>, n: isize)
    ensures
        final(out)@ == old(out)@ + int_text(n),
{
    if n < 0 {
        out.push(45);
        let m = (0 - n as i128) as u64;
        push_dec(out, m);
        assert(out@ =~= old(out)@ + int_text(n));
    } else {
        push_dec(out, n as u64);
    }
}

/// Writes a program as text, one instruction per line, in the form that
/// [`crate::parse::parse`] reads back as the same program.
pub fn to_text(ops: &Vec<Op>) -> (r: Vec<u8>)
    ensures
        r@ == text_of(ops@),
        program_of(r@) == ops@,
{
    let mut out: Vec<u8> = Vec::new();
    let mut i: usize = 0;
    while i < ops.len()
        invariant
            i <= ops@.len(),
            out@ == text_of(ops@.take(i as int)),
        decreases ops@.len() - i,
    {
        let ghost before = out@;
        let (branch, imm, a, b) = match ops[i] {
            Op::SetV(a, b) => (false, true, a, b),
            Op::SetA(a, b) => (false, false, a, b),
            Op::JmpV(a, b) => (true, true, a, b),
            Op::JmpA(a, b) => (true, false, a, b),
        };
        if branch {
            out.push(43);
        }
        push_int(&mut out, a);
        out.push(96);
        if imm {
            out.push(43);
        }
        push_int(&mut out, b);
        out.push(10);
        proof {
            assert(out@ =~= before + op_text(ops@[i as int]));
            lemma_text_of_push(ops@.take(i as int), ops@[i as int]);
            assert(ops@.take(i + 1) =~= ops@.take(i as int).push(ops@[i as int]));
        }
        i += 1;
    }
    assert(ops@.take(i as int) =~= ops@);
    proof {
        lemma_parse_text_of(ops@);
    }
    out
}

} // verus!
