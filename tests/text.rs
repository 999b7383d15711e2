use tickjit::op::Op;
use tickjit::parse::parse;
use tickjit::text::to_text;

#[test]
fn writes_one_line_per_instruction() {
    let ops = vec![Op::SetV(0, 65), Op::SetA(3, -4), Op::JmpV(5, -1), Op::JmpA(-1, 2)];
    assert_eq!(to_text(&ops), b"0`+65\n3`-4\n+5`+-1\n+-1`2\n".to_vec());
    assert!(to_text(&Vec::new()).is_empty());
}

#[test]
fn text_reads_back_as_the_same_program() {
    let ops = vec![
        Op::SetV(isize::MIN, isize::MAX),
        Op::SetA(0, 10),
        Op::JmpV(-100, isize::MIN),
        Op::JmpA(99, 0),
    ];
    assert_eq!(parse(to_text(&ops)), ops);
}

#[test]
fn reparsing_written_text_is_idempotent() {
    let first = parse(b"junk 1`+2 x +3`-4 7`8`9 +-0`+00012".to_vec());
    assert_eq!(first, vec![Op::SetV(1, 2), Op::JmpA(3, -4), Op::SetA(7, 8), Op::JmpV(0, 12)]);
    let again = parse(to_text(&first));
    assert_eq!(again, first);
    assert_eq!(to_text(&again), to_text(&first));
}
