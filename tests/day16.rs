use aoc18::day16::{num_samples, parse_samples, result_r0, Device, Instruction, Operation};

#[test]
fn num_samples_example() {
    assert_eq!(
        1,
        num_samples(
            "Before: [3, 2, 1, 1]
9 2 1 2
After:  [3, 2, 2, 1]"
        )
    );
}

#[test]
fn num_samples_stops_at_program() {
    let input = "Before: [3, 2, 1, 1]
9 2 1 2
After:  [3, 2, 2, 1]

Before: [0, 0, 0, 0]
1 0 0 0
After:  [5, 0, 0, 0]



9 2 1 2
";
    assert_eq!(1, num_samples(input));
    assert_eq!(2, parse_samples(input).unwrap().len());
}

#[test]
fn execute_operations() {
    let d = Device { registers: [3, 2, 1, 1] };
    let i = Instruction { op: Operation::MULR, a: 0, b: 1, c: 2 };
    assert_eq!([3, 2, 6, 1], d.execute(&i).unwrap().registers);
    let i = Instruction { op: Operation::BORI, a: 0, b: 4, c: 3 };
    assert_eq!([3, 2, 1, 7], d.execute(&i).unwrap().registers);
    let i = Instruction { op: Operation::GTIR, a: 3, b: 1, c: 0 };
    assert_eq!([1, 2, 1, 1], d.execute(&i).unwrap().registers);
    let i = Instruction { op: Operation::ADDR, a: 0, b: 7, c: 0 };
    assert!(d.execute(&i).is_none());
    let i = Instruction { op: Operation::OP(9), a: 0, b: 1, c: 0 };
    assert!(d.execute(&i).is_none());
}

#[test]
fn enumerate_all_keeps_operands() {
    let i = Instruction { op: Operation::OP(9), a: 2, b: 1, c: 2 };
    let all = i.enumerate_all();
    assert_eq!(16, all.len());
    assert_eq!(Operation::ADDR, all[0].op);
    assert_eq!(Operation::EQRR, all[15].op);
    assert!(all.iter().all(|x| x.a == 2 && x.b == 1 && x.c == 2));
}

#[test]
fn result_r0_runs_program() {
    let input = "Before: [0, 0, 0, 0]
9 7 0 0
After:  [7, 0, 0, 0]

Before: [0, 0, 0, 0]
3 0 0 0
After:  [9, 9, 9, 9]



9 5 0 0
";
    // Opcode 9 can only be SETI; opcode 3, which no operation fits, is unused.
    assert_eq!(Some(5), result_r0(input));
}

#[test]
fn result_r0_without_operation() {
    let input = "Before: [0, 0, 0, 0]
3 0 0 0
After:  [9, 9, 9, 9]



3 0 0 0
";
    assert_eq!(None, result_r0(input));
    // Opcode 0 has no samples, so it stays open.
    let input = "Before: [0, 0, 0, 0]
9 7 0 0
After:  [7, 0, 0, 0]



9 5 0 0
0 0 0 1
";
    assert_eq!(None, result_r0(input));
    assert_eq!(None, result_r0("9 5 0 0\n"));
}
