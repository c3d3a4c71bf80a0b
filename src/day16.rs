use vstd::prelude::*;
use crate::text::{after_tag, copy_range, int_at, leading_int, split, split_chars, tag_at, trim, trim_range};

verus! {

/// An operation of the device; `OP` is an opcode number whose operation is
/// not known yet.
#[derive(Debug, Clone, Copy, PartialEq, Eq, Structural)]
pub enum Operation {
    ADDR,
    ADDI,
    MULR,
    MULI,
    BANR,
    BANI,
    BORR,
    BORI,
    SETR,
    SETI,
    GTIR,
    GTRI,
    GTRR,
    EQIR,
    EQRI,
    EQRR,
    OP(i64),
}

#[derive(Debug, Clone, Copy, PartialEq, Eq, Structural)]
pub struct Instruction {
    pub op: Operation,
    pub a: i64,
    pub b: i64,
    pub c: i64,
}

/// The four registers of the device.
#[derive(Debug, Clone, Copy)]
pub struct Device {
    pub registers: [i64; 4],
}

/// The sixteen operations, in the order they are tried.
pub open spec fn all_ops() -> Seq<Operation> {
    seq![
        Operation::ADDR,
        Operation::ADDI,
        Operation::MULR,
        Operation::MULI,
        Operation::BANR,
        Operation::BANI,
        Operation::BORR,
        Operation::BORI,
        Operation::SETR,
        Operation::SETI,
        Operation::GTIR,
        Operation::GTRI,
        Operation::GTRR,
        Operation::EQIR,
        Operation::EQRI,
        Operation::EQRR,
    ]
}

pub open spec fn reg_ok(x: i64) -> bool {
    0 <= x < 4
}

pub open spec fn fits(v: int) -> bool {
    i64::MIN <= v <= i64::MAX
}

pub open spec fn flag(b: bool) -> i64 {
    if b {
        1
    } else {
        0
    }
}

/// The value an instruction writes, where its registers exist and its sum or
/// product fits in an `i64`.
pub open spec fn op_value(op: Operation, a: i64, b: i64, r: Seq<i64>) -> Option<i64> {
    match op {
        Operation::ADDR => if reg_ok(a) && reg_ok(b) && fits(r[a as int] + r[b as int]) {
            Some((r[a as int] + r[b as int]) as i64)
        } else {
            None
        },
        Operation::ADDI => if reg_ok(a) && fits(r[a as int] + b) {
            Some((r[a as int] + b) as i64)
        } else {
            None
        },
        Operation::MULR => if reg_ok(a) && reg_ok(b) && fits(r[a as int] * r[b as int]) {
            Some((r[a as int] * r[b as int]) as i64)
        } else {
            None
        },
        Operation::MULI => if reg_ok(a) && fits(r[a as int] * b) {
            Some((r[a as int] * b) as i64)
        } else {
            None
        },
        Operation::BANR => if reg_ok(a) && reg_ok(b) {
            Some(r[a as int] & r[b as int])
        } else {
            None
        },
        Operation::BANI => if reg_ok(a) {
            Some(r[a as int] & b)
        } else {
            None
        },
        Operation::BORR => if reg_ok(a) && reg_ok(b) {
            Some(r[a as int] | r[b as int])
        } else {
            None
        },
        Operation::BORI => if reg_ok(a) {
            Some(r[a as int] | b)
        } else {
            None
        },
        Operation::SETR => if reg_ok(a) {
            Some(r[a as int])
        } else {
            None
        },
        Operation::SETI => Some(a),
        Operation::GTIR => if reg_ok(b) {
            Some(flag(a > r[b as int]))
        } else {
            None
        },
        Operation::GTRI => if reg_ok(a) {
            Some(flag(r[a as int] > b))
        } else {
            None
        },
        Operation::GTRR => if reg_ok(a) && reg_ok(b) {
            Some(flag(r[a as int] > r[b as int]))
        } else {
            None
        },
        Operation::EQIR => if reg_ok(b) {
            Some(flag(a == r[b as int]))
        } else {
            None
        },
        Operation::EQRI => if reg_ok(a) {
            Some(flag(r[a as int] == b))
        } else {
            None
        },
        Operation::EQRR => if reg_ok(a) && reg_ok(b) {
            Some(flag(r[a as int] == r[b as int]))
        } else {
            None
        },
        Operation::OP(_) => None,
    }
}

/// The registers after an instruction, where it can run: its operation is
/// known, its registers exist and its arithmetic fits in an `i64`.
pub open spec fn apply(i: Instruction, r: Seq<i64>) -> Option<Seq<i64>> {
    match op_value(i.op, i.a, i.b, r) {
        Some(v) => if reg_ok(i.c) {
            Some(r.update(i.c as int, v))
        } else {
            None
        },
        None => None,
    }
}

pub open spec fn with_op(i: Instruction, op: Operation) -> Instruction {
    Instruction { op, a: i.a, b: i.b, c: i.c }
}


/// Four signed decimals written `[a, b, c, d]`, the whole of `t`.
pub open spec fn regs_spec(t: Seq<char>) -> Option<Seq<i64>> {
    match after_tag(t, "["@) {
        None => None,
        Some(t1) => match leading_int(t1) {
            None => None,
            Some((r0, t2)) => match after_tag(t2, ", "@) {
                None => None,
                Some(t3) => match leading_int(t3) {
                    None => None,
                    Some((r1, t4)) => match after_tag(t4, ", "@) {
                        None => None,
                        Some(t5) => match leading_int(t5) {
                            None => None,
                            Some((r2, t6)) => match after_tag(t6, ", "@) {
                                None => None,
                                Some(t7) => match leading_int(t7) {
                                    None => None,
                                    Some((r3, t8)) => if after_tag(t8, "]"@) == Some(
                                        Seq::<char>::empty(),
                                    ) {
                                        Some(seq![r0 as i64, r1 as i64, r2 as i64, r3 as i64])
                                    } else {
                                        None
                                    },
                                },
                            },
                        },
                    },
                },
            },
        },
    }
}

/// An instruction written as four signed decimals `opcode a b c`, the whole
/// of `t`.
pub open spec fn instr_spec(t: Seq<char>) -> Option<Instruction> {
    match leading_int(t) {
        None => None,
        Some((o, t1)) => match after_tag(t1, " "@) {
            None => None,
            Some(t2) => match leading_int(t2) {
                None => None,
                Some((a, t3)) => match after_tag(t3, " "@) {
                    None => None,
                    Some(t4) => match leading_int(t4) {
                        None => None,
                        Some((b, t5)) => match after_tag(t5, " "@) {
                            None => None,
                            Some(t6) => match leading_int(t6) {
                                None => None,
                                Some((c, t7)) => if t7.len() == 0 {
                                    Some(
                                        Instruction {
                                            op: Operation::OP(o as i64),
                                            a: a as i64,
                                            b: b as i64,
                                            c: c as i64,
                                        },
                                    )
                                } else {
                                    None
                                },
                            },
                        },
                    },
                },
            },
        },
    }
}

/// The registers on a line `<label><registers>`, trimmed.
pub open spec fn labelled_regs(l: Seq<char>, label: Seq<char>) -> Option<Seq<i64>> {
    match after_tag(trim(l), label) {
        None => None,
        Some(t) => regs_spec(t),
    }
}

/// A sample: the registers before, the instruction with its opcode, and the
/// registers after.
pub open spec fn sample_spec(l0: Seq<char>, l1: Seq<char>, l2: Seq<char>) -> Option<
    (Seq<i64>, Instruction, Seq<i64>),
> {
    match labelled_regs(l0, "Before: "@) {
        None => None,
        Some(before) => match instr_spec(trim(l1)) {
            None => None,
            Some(i) => match labelled_regs(l2, "After:  "@) {
                None => None,
                Some(after) => Some((before, i, after)),
            },
        },
    }
}

/// The samples on the non-blank lines `nb`, three lines each.
pub open spec fn samples_spec(nb: Seq<Seq<char>>) -> Option<Seq<(Seq<i64>, Instruction, Seq<i64>)>>
    decreases nb.len(),
{
    if nb.len() == 0 {
        Some(Seq::empty())
    } else if nb.len() < 3 {
        None
    } else {
        let n = nb.len() as int;
        match samples_spec(nb.take(n - 3)) {
            None => None,
            Some(ss) => match sample_spec(nb[n - 3], nb[n - 2], nb[n - 1]) {
                None => None,
                Some(x) => Some(ss.push(x)),
            },
        }
    }
}

/// Whether lines `q`, `q + 1` and `q + 2` of `ls` start a run of three blank
/// lines between two parts of the text.
pub open spec fn gap_at(ls: Seq<Seq<char>>, q: int) -> bool {
    1 <= q && q + 3 < ls.len() && ls[q].len() == 0 && ls[q + 1].len() == 0 && ls[q + 2].len() == 0
}

/// Where the samples end: the first gap, or the end of the text.
#[verifier::opaque]
pub open spec fn samples_end(ls: Seq<Seq<char>>) -> int {
    if exists|q: int| gap_at(ls, q) {
        choose|q: int| gap_at(ls, q) && forall|q2: int| 1 <= q2 < q ==> !gap_at(ls, q2)
    } else {
        ls.len() as int
    }
}

/// The lines of `ls` that are not blank once trimmed.
pub open spec fn non_blank(ls: Seq<Seq<char>>) -> Seq<Seq<char>>
    decreases ls.len(),
{
    if ls.len() == 0 {
        ls
    } else if trim(ls.last()).len() == 0 {
        non_blank(ls.drop_last())
    } else {
        non_blank(ls.drop_last()).push(ls.last())
    }
}

/// The samples of a puzzle text.
#[verifier::opaque]
pub open spec fn text_samples(s: Seq<char>) -> Option<Seq<(Seq<i64>, Instruction, Seq<i64>)>> {
    let ls = split(s, '\n');
    samples_spec(non_blank(ls.take(samples_end(ls))))
}

/// How many of the first `k` operations turn `before` into `after` under the
/// operands of `i`.
pub open spec fn matching_ops(before: Seq<i64>, i: Instruction, after: Seq<i64>, k: nat) -> nat
    decreases k,
{
    if k == 0 {
        0
    } else {
        matching_ops(before, i, after, (k - 1) as nat) + if apply(
            with_op(i, all_ops()[k - 1]),
            before,
        ) == Some(after) {
            1nat
        } else {
            0nat
        }
    }
}

/// How many samples behave like three or more operations.
pub open spec fn ambiguous_count(ss: Seq<(Seq<i64>, Instruction, Seq<i64>)>) -> nat
    decreases ss.len(),
{
    if ss.len() == 0 {
        0
    } else {
        let x = ss.last();
        ambiguous_count(ss.drop_last()) + if matching_ops(x.0, x.1, x.2, 16) >= 3 {
            1nat
        } else {
            0nat
        }
    }
}

impl Instruction {
    /// The instruction with each of the sixteen operations in place of its
    /// opcode.
    pub fn enumerate_all(&self) -> (r: Vec<Instruction>)
        requires
            self.op is OP,
        ensures
            r@ == all_ops().map_values(|op: Operation| with_op(*self, op)),
    {
        let mut v: Vec<Instruction> = Vec::new();
    v.push(Instruction { op: Operation::ADDR, a: self.a, b: self.b, c: self.c });
    v.push(Instruction { op: Operation::ADDI, a: self.a, b: self.b, c: self.c });
    v.push(Instruction { op: Operation::MULR, a: self.a, b: self.b, c: self.c });
    v.push(Instruction { op: Operation::MULI, a: self.a, b: self.b, c: self.c });
    v.push(Instruction { op: Operation::BANR, a: self.a, b: self.b, c: self.c });
    v.push(Instruction { op: Operation::BANI, a: self.a, b: self.b, c: self.c });
    v.push(Instruction { op: Operation::BORR, a: self.a, b: self.b, c: self.c });
    v.push(Instruction { op: Operation::BORI, a: self.a, b: self.b, c: self.c });
    v.push(Instruction { op: Operation::SETR, a: self.a, b: self.b, c: self.c });
    v.push(Instruction { op: Operation::SETI, a: self.a, b: self.b, c: self.c });
    v.push(Instruction { op: Operation::GTIR, a: self.a, b: self.b, c: self.c });
    v.push(Instruction { op: Operation::GTRI, a: self.a, b: self.b, c: self.c });
    v.push(Instruction { op: Operation::GTRR, a: self.a, b: self.b, c: self.c });
    v.push(Instruction { op: Operation::EQIR, a: self.a, b: self.b, c: self.c });
    v.push(Instruction { op: Operation::EQRI, a: self.a, b: self.b, c: self.c });
    v.push(Instruction { op: Operation::EQRR, a: self.a, b: self.b, c: self.c });
        assert(v@ =~= all_ops().map_values(|op: Operation| with_op(*self, op)));
        v
    }
}

impl Device {
    /// The device after running `i`; `None` where `i` cannot run.
    pub fn execute(&self, i: &Instruction) -> (r: Option<Device>)
        ensures
            match r {
                Some(d) => apply(*i, self.registers@) == Some(d.registers@),
                None => apply(*i, self.registers@) is None,
            },
    {
        let r = self.registers;
        let a = i.a;
        let b = i.b;
        let ra = if 0 <= a && a < 4 { r[a as usize] } else { 0 };
        let rb = if 0 <= b && b < 4 { r[b as usize] } else { 0 };
        let areg = 0 <= a && a < 4;
        let breg = 0 <= b && b < 4;
        let v: Option<i64> = match i.op {
            Operation::ADDR => if areg && breg { ra.checked_add(rb) } else { None },
            Operation::ADDI => if areg { ra.checked_add(b) } else { None },
            Operation::MULR => if areg && breg { ra.checked_mul(rb) } else { None },
            Operation::MULI => if areg { ra.checked_mul(b) } else { None },
            Operation::BANR => if areg && breg { Some(ra & rb) } else { None },
            Operation::BANI => if areg { Some(ra & b) } else { None },
            Operation::BORR => if areg && breg { Some(ra | rb) } else { None },
            Operation::BORI => if areg { Some(ra | b) } else { None },
            Operation::SETR => if areg { Some(ra) } else { None },
            Operation::SETI => Some(a),
            Operation::GTIR => if breg { Some(if a > rb { 1 } else { 0 }) } else { None },
            Operation::GTRI => if areg { Some(if ra > b { 1 } else { 0 }) } else { None },
            Operation::GTRR => if areg && breg { Some(if ra > rb { 1 } else { 0 }) } else { None },
            Operation::EQIR => if breg { Some(if a == rb { 1 } else { 0 }) } else { None },
            Operation::EQRI => if areg { Some(if ra == b { 1 } else { 0 }) } else { None },
            Operation::EQRR => if areg && breg { Some(if ra == rb { 1 } else { 0 }) } else { None },
            Operation::OP(_) => None,
        };
        assert(v == op_value(i.op, a, b, r@));
        match v {
            Some(x) => {
                if 0 <= i.c && i.c < 4 {
                    let mut regs = r;
                    regs[i.c as usize] = x;
                    assert(regs@ =~= r@.update(i.c as int, x));
                    Some(Device { registers: regs })
                } else {
                    None
                }
            },
            None => None,
        }
    }
}

/// Reads `[a, b, c, d]`, the whole of `t[pos..]`.
fn parse_regs(t: &Vec<char>, pos: usize) -> (r: Option<[i64; 4]>)
    requires
        pos <= t.len(),
    ensures
        match r {
            Some(regs) => regs_spec(t@.skip(pos as int)) == Some(regs@),
            None => regs_spec(t@.skip(pos as int)) is None,
        },
{
    let p1 = match tag_at(t, pos, "[") { Some(p) => p, None => { return None; } };
    let (r0, p2) = match int_at(t, p1) { Some(x) => x, None => { return None; } };
    let p3 = match tag_at(t, p2, ", ") { Some(p) => p, None => { return None; } };
    let (r1, p4) = match int_at(t, p3) { Some(x) => x, None => { return None; } };
    let p5 = match tag_at(t, p4, ", ") { Some(p) => p, None => { return None; } };
    let (r2, p6) = match int_at(t, p5) { Some(x) => x, None => { return None; } };
    let p7 = match tag_at(t, p6, ", ") { Some(p) => p, None => { return None; } };
    let (r3, p8) = match int_at(t, p7) { Some(x) => x, None => { return None; } };
    let p9 = match tag_at(t, p8, "]") { Some(p) => p, None => { return None; } };
    if p9 != t.len() {
        assert(t@.skip(p9 as int).len() > 0);
        return None;
    }
    assert(t@.skip(p9 as int) =~= Seq::<char>::empty());
    let regs = [r0, r1, r2, r3];
    assert(regs@ =~= seq![r0, r1, r2, r3]);
    Some(regs)
}

/// Reads `opcode a b c`, the whole of `t[pos..]`.
fn parse_instruction(t: &Vec<char>, pos: usize) -> (r: Option<Instruction>)
    requires
        pos <= t.len(),
    ensures
        r == instr_spec(t@.skip(pos as int)),
{
    let (o, p1) = match int_at(t, pos) { Some(x) => x, None => { return None; } };
    let p2 = match tag_at(t, p1, " ") { Some(p) => p, None => { return None; } };
    let (a, p3) = match int_at(t, p2) { Some(x) => x, None => { return None; } };
    let p4 = match tag_at(t, p3, " ") { Some(p) => p, None => { return None; } };
    let (b, p5) = match int_at(t, p4) { Some(x) => x, None => { return None; } };
    let p6 = match tag_at(t, p5, " ") { Some(p) => p, None => { return None; } };
    let (c, p7) = match int_at(t, p6) { Some(x) => x, None => { return None; } };
    if p7 != t.len() {
        assert(t@.skip(p7 as int).len() > 0);
        return None;
    }
    Some(Instruction { op: Operation::OP(o), a, b, c })
}

/// `l` trimmed, as a vector.
fn trimmed(l: &Vec<char>) -> (r: Vec<char>)
    ensures
        r@ == trim(l@),
{
    let (a, b) = trim_range(l, 0, l.len());
    assert(l@.subrange(0, l.len() as int) =~= l@);
    copy_range(l, a, b)
}

/// Reads the registers on a line `<label><registers>`.
fn parse_labelled(l: &Vec<char>, label: &str) -> (r: Option<[i64; 4]>)
    ensures
        match r {
            Some(regs) => labelled_regs(l@, label@) == Some(regs@),
            None => labelled_regs(l@, label@) is None,
        },
{
    let t = trimmed(l);
    assert(t@.skip(0) =~= t@);
    match tag_at(&t, 0, label) {
        Some(p) => parse_regs(&t, p),
        None => None,
    }
}

/// Reads a sample from its three lines.
fn parse_sample(l0: &Vec<char>, l1: &Vec<char>, l2: &Vec<char>) -> (r: Option<
    (Device, Instruction, Device),
>)
    ensures
        match r {
            Some(x) => sample_spec(l0@, l1@, l2@) == Some(sample_view(x)),
            None => sample_spec(l0@, l1@, l2@) is None,
        },
{
    let before = match parse_labelled(l0, "Before: ") {
        Some(x) => x,
        None => {
            return None;
        },
    };
    let t1 = trimmed(l1);
    assert(t1@.skip(0) =~= t1@);
    let instr = match parse_instruction(&t1, 0) {
        Some(x) => x,
        None => {
            return None;
        },
    };
    let after = match parse_labelled(l2, "After:  ") {
        Some(x) => x,
        None => {
            return None;
        },
    };
    Some((Device { registers: before }, instr, Device { registers: after }))
}

pub open spec fn sample_view(x: (Device, Instruction, Device)) -> (Seq<i64>, Instruction, Seq<i64>) {
    (x.0.registers@, x.1, x.2.registers@)
}

/// Where the samples end: the first gap of three blank lines, or the end.
fn find_gap(lines: &Vec<Vec<char>>) -> (end: usize)
    ensures
        end == samples_end(lines@.map_values(|l: Vec<char>| l@)),
        end <= lines.len(),
        end < lines.len() ==> gap_at(lines@.map_values(|l: Vec<char>| l@), end as int),
{
    let ghost ls = lines@.map_values(|l: Vec<char>| l@);
    let n = lines.len();
    let mut q: usize = 1;
    let mut found = false;
    while !found && q < n && n - q > 3
        invariant
            ls == lines@.map_values(|l: Vec<char>| l@),
            n == lines.len(),
            1 <= q,
            forall|q2: int| 1 <= q2 < q ==> !gap_at(ls, q2),
            found ==> gap_at(ls, q as int),
        decreases n - q + if found {
            0int
        } else {
            1int
        },
    {
        if lines[q].len() == 0 && lines[q + 1].len() == 0 && lines[q + 2].len() == 0 {
            assert(gap_at(ls, q as int));
            found = true;
        } else {
            q = q + 1;
        }
    }
    let end = if found { q } else { n };
    proof {
        if end == n {
            assert forall|q2: int| !gap_at(ls, q2) by {
                if gap_at(ls, q2) {
                    assert(q2 < q);
                }
            }
        } else {
            assert(gap_at(ls, end as int));
            let c = choose|c: int| gap_at(ls, c) && forall|q2: int| 1 <= q2 < c ==> !gap_at(ls, q2);
            if c < end {
                assert(!gap_at(ls, c));
            }
            if c > end {
                assert(!gap_at(ls, end as int));
            }
        }
        reveal(samples_end);
        assert(samples_end(ls) == end);
    }
    end
}

/// Reads the samples of a puzzle text.
pub fn parse_samples(input: &str) -> (r: Option<Vec<(Device, Instruction, Device)>>)
    ensures
        match r {
            Some(v) => text_samples(input@) == Some(
                v@.map_values(|x: (Device, Instruction, Device)| sample_view(x)),
            ),
            None => text_samples(input@) is None,
        },
{
    reveal(text_samples);
    let s = crate::text::chars_of(input);
    let lines = split_chars(&s, '\n');
    let ghost ls = lines@.map_values(|l: Vec<char>| l@);
    assert(ls == split(input@, '\n'));
    let n = lines.len();
    let end = find_gap(&lines);
    let mut nb: Vec<Vec<char>> = Vec::new();
    let mut i: usize = 0;
    while i < end
        invariant
            end <= n == lines.len(),
            i <= end,
            ls == lines@.map_values(|l: Vec<char>| l@),
            nb@.map_values(|l: Vec<char>| l@) == non_blank(ls.take(i as int)),
        decreases end - i,
    {
        assert(ls.take(i + 1).drop_last() =~= ls.take(i as int));
        assert(lines@[i as int]@ == ls[i as int]);
        let t = trimmed(&lines[i]);
        if t.len() > 0 {
            let ghost old_nb = nb@;
            nb.push(lines[i].clone());
            assert(nb@.map_values(|l: Vec<char>| l@) =~= old_nb.map_values(|l: Vec<char>| l@).push(
                ls[i as int],
            ));
        }
        i = i + 1;
    }
    assert(ls.take(end as int) == ls.take(samples_end(ls)));
    group_samples(&nb)
}

/// Reads the samples on the non-blank lines `nb`, three lines each.
#[verifier::rlimit(100)]
fn group_samples(nb: &Vec<Vec<char>>) -> (r: Option<Vec<(Device, Instruction, Device)>>)
    ensures
        match r {
            Some(v) => samples_spec(nb@.map_values(|l: Vec<char>| l@)) == Some(
                v@.map_values(|x: (Device, Instruction, Device)| sample_view(x)),
            ),
            None => samples_spec(nb@.map_values(|l: Vec<char>| l@)) is None,
        },
{
    let ghost nbv = nb@.map_values(|l: Vec<char>| l@);
    if nb.len() % 3 != 0 {
        proof {
            lemma_samples_need_triples(nbv);
        }
        return None;
    }
    let mut out: Vec<(Device, Instruction, Device)> = Vec::new();
    let mut g: usize = 0;
    while g < nb.len()
        invariant
            nb.len() % 3 == 0,
            g % 3 == 0,
            g <= nb.len(),
            nbv == nb@.map_values(|l: Vec<char>| l@),
            samples_spec(nbv.take(g as int)) == Some(
                out@.map_values(|x: (Device, Instruction, Device)| sample_view(x)),
            ),
        decreases nb.len() - g,
    {
        let ghost pre = nbv.take(g + 3);
        proof {
            assert(pre.take(g as int) =~= nbv.take(g as int));
            assert(pre[g as int] == nb@[g as int]@);
            assert(pre[g + 1] == nb@[g + 1]@);
            assert(pre[g + 2] == nb@[g + 2]@);
        }
        let x = match parse_sample(&nb[g], &nb[g + 1], &nb[g + 2]) {
            Some(x) => x,
            None => {
                proof {
                    lemma_samples_prefix_none(nbv, g + 3);
                }
                return None;
            },
        };
        let ghost old_out = out@;
        out.push(x);
        assert(out@.map_values(|x: (Device, Instruction, Device)| sample_view(x)) =~= old_out.map_values(
            |x: (Device, Instruction, Device)| sample_view(x),
        ).push(sample_view(x)));
        g = g + 3;
    }
    assert(nbv.take(nb.len() as int) =~= nbv);
    Some(out)
}

proof fn lemma_samples_ops(nb: Seq<Seq<char>>)
    requires
        samples_spec(nb) is Some,
    ensures
        forall|k: int|
            0 <= k < (samples_spec(nb)->0).len() ==> (#[trigger] (samples_spec(nb)->0)[k]).1.op is OP,
    decreases nb.len(),
{
    if nb.len() >= 3 {
        let n = nb.len() as int;
        lemma_samples_ops(nb.take(n - 3));
    }
}

proof fn lemma_samples_need_triples(nb: Seq<Seq<char>>)
    requires
        nb.len() % 3 != 0,
    ensures
        samples_spec(nb) is None,
    decreases nb.len(),
{
    if nb.len() >= 3 {
        lemma_samples_need_triples(nb.take(nb.len() - 3));
    }
}

proof fn lemma_samples_prefix_none(nb: Seq<Seq<char>>, k: int)
    requires
        0 <= k <= nb.len(),
        k % 3 == 0,
        samples_spec(nb.take(k)) is None,
    ensures
        samples_spec(nb) is None,
    decreases nb.len(),
{
    if nb.len() % 3 != 0 {
        lemma_samples_need_triples(nb);
    } else if k < nb.len() {
        let n = nb.len() as int;
        assert(nb.take(n - 3).take(k) =~= nb.take(k));
        lemma_samples_prefix_none(nb.take(n - 3), k);
    } else {
        assert(nb.take(k) =~= nb);
    }
}

/// How many of the sixteen operations turn `before` into `after` under the
/// operands of `op`.
fn count_matching(before: &Device, op: &Instruction, after: &Device) -> (r: usize)
    requires
        op.op is OP,
    ensures
        r == matching_ops(before.registers@, *op, after.registers@, 16),
{
    let all = op.enumerate_all();
    let mut count: usize = 0;
    let mut k: usize = 0;
    while k < 16
        invariant
            k <= 16,
            all@ == all_ops().map_values(|o: Operation| with_op(*op, o)),
            count == matching_ops(before.registers@, *op, after.registers@, k as nat),
            count <= k,
        decreases 16 - k,
    {
        assert(all@.len() == 16);
        let ins = all[k];
        assert(ins == with_op(*op, all_ops()[k as int]));
        match before.execute(&ins) {
            Some(d) => {
                let same = d.registers[0] == after.registers[0] && d.registers[1]
                    == after.registers[1] && d.registers[2] == after.registers[2]
                    && d.registers[3] == after.registers[3];
                proof {
                    if same {
                        assert(d.registers@ =~= after.registers@);
                    }
                }
                if same {
                    count = count + 1;
                }
            },
            None => {},
        }
        k = k + 1;
    }
    count
}

/// How many samples of the puzzle text behave like three or more operations.
pub fn num_samples(input: &str) -> (r: usize)
    requires
        text_samples(input@) is Some,
    ensures
        r == ambiguous_count(text_samples(input@)->0),
{
    let samples = match parse_samples(input) {
        Some(v) => v,
        None => {
            return 0;
        },
    };
    let ghost sv = samples@.map_values(|x: (Device, Instruction, Device)| sample_view(x));
    proof {
        reveal(text_samples);
        let ls = split(input@, '\n');
        lemma_samples_ops(non_blank(ls.take(samples_end(ls))));
    }
    let mut n: usize = 0;
    let mut i: usize = 0;
    while i < samples.len()
        invariant
            i <= samples.len(),
            sv == samples@.map_values(|x: (Device, Instruction, Device)| sample_view(x)),
            n == ambiguous_count(sv.take(i as int)),
            n <= i,
            forall|k: int| 0 <= k < sv.len() ==> (#[trigger] sv[k]).1.op is OP,
        decreases samples.len() - i,
    {
        assert(sv.take(i + 1).drop_last() =~= sv.take(i as int));
        let (before, op, after) = samples[i];
        assert(sv[i as int] == sample_view(samples@[i as int]));
        if count_matching(&before, &op, &after) >= 3 {
            n = n + 1;
        }
        i = i + 1;
    }
    assert(sv.take(samples.len() as int) =~= sv);
    n
}

/// The instructions on the non-blank lines of `ls`.
pub open spec fn program_of_lines(ls: Seq<Seq<char>>) -> Option<Seq<Instruction>>
    decreases ls.len(),
{
    if ls.len() == 0 {
        Some(Seq::empty())
    } else {
        match program_of_lines(ls.drop_last()) {
            None => None,
            Some(p) => if trim(ls.last()).len() == 0 {
                Some(p)
            } else {
                match instr_spec(trim(ls.last())) {
                    None => None,
                    Some(i) => Some(p.push(i)),
                }
            },
        }
    }
}

/// The test program: the lines after the gap that ends the samples.
#[verifier::opaque]
pub open spec fn text_program(s: Seq<char>) -> Option<Seq<Instruction>> {
    let ls = split(s, '\n');
    let e = samples_end(ls);
    if e < ls.len() {
        program_of_lines(ls.skip(e + 3))
    } else {
        None
    }
}

pub open spec fn opcode(i: Instruction) -> int {
    match i.op {
        Operation::OP(o) => o as int,
        _ => -1,
    }
}

/// The registers after running `prog` from `regs`, with the operations `m`
/// gives the opcodes; `None` where an opcode has none or an instruction
/// cannot run.
pub open spec fn run(prog: Seq<Instruction>, m: Seq<Option<Operation>>, regs: Seq<i64>) -> Option<Seq<i64>>
    decreases prog.len(),
{
    if prog.len() == 0 {
        Some(regs)
    } else {
        match run(prog.drop_last(), m, regs) {
            None => None,
            Some(r) => {
                let i = prog.last();
                let o = opcode(i);
                if 0 <= o < m.len() && m[o] is Some {
                    apply(with_op(i, m[o]->0), r)
                } else {
                    None
                }
            },
        }
    }
}

pub open spec fn start_regs() -> Seq<i64> {
    seq![0i64, 0i64, 0i64, 0i64]
}

/// Whether `op` may be the operation of opcode `o`: opcode `o` has samples,
/// and every one of them behaves like `op`.
pub open spec fn candidate(ss: Seq<(Seq<i64>, Instruction, Seq<i64>)>, o: int, op: Operation) -> bool {
    &&& exists|k: int| 0 <= k < ss.len() && opcode((#[trigger] ss[k]).1) == o
    &&& forall|k: int|
        0 <= k < ss.len() && opcode((#[trigger] ss[k]).1) == o ==> apply(with_op(ss[k].1, op), ss[k].0)
            == Some(ss[k].2)
}

/// Whether `op` is a candidate of opcode `o` that no opcode has been given.
pub open spec fn free(
    ss: Seq<(Seq<i64>, Instruction, Seq<i64>)>,
    known: Seq<Option<Operation>>,
    o: int,
    op: Operation,
) -> bool {
    candidate(ss, o, op) && forall|o2: int| 0 <= o2 < known.len() ==> known[o2] != Some(op)
}

/// Whether `op` is the only free candidate of opcode `o`.
pub open spec fn only_free(
    ss: Seq<(Seq<i64>, Instruction, Seq<i64>)>,
    known: Seq<Option<Operation>>,
    o: int,
    op: Operation,
) -> bool {
    free(ss, known, o, op) && forall|op2: Operation| #[trigger] free(ss, known, o, op2) ==> op2 == op
}

/// The one free candidate of opcode `o`, if there is exactly one.
pub open spec fn single_free(
    ss: Seq<(Seq<i64>, Instruction, Seq<i64>)>,
    known: Seq<Option<Operation>>,
    o: int,
) -> Option<Operation> {
    if exists|op: Operation| only_free(ss, known, o, op) {
        Some(choose|op: Operation| only_free(ss, known, o, op))
    } else {
        None
    }
}

/// One round of elimination: every opcode without an operation whose free
/// candidates come down to one is given that one.
pub open spec fn eliminate(ss: Seq<(Seq<i64>, Instruction, Seq<i64>)>, known: Seq<Option<Operation>>) -> Seq<Option<Operation>> {
    Seq::new(16, |o: int| if known[o] is Some { known[o] } else { single_free(ss, known, o) })
}

/// The operations fixed after `r` rounds of elimination, from none.
pub open spec fn deduced(ss: Seq<(Seq<i64>, Instruction, Seq<i64>)>, r: nat) -> Seq<Option<Operation>>
    decreases r,
{
    if r == 0 {
        Seq::new(16, |o: int| None)
    } else {
        eliminate(ss, deduced(ss, (r - 1) as nat))
    }
}

/// Rounds of elimination run: a round that changes anything fixes one more
/// of the sixteen opcodes, so later rounds change nothing.
pub const ROUNDS: usize = 17;

/// Register 0 after the program, run with the operations that elimination
/// fixes; `None` where a used opcode stays open or the program cannot run.
pub open spec fn r0_spec(ss: Seq<(Seq<i64>, Instruction, Seq<i64>)>, prog: Seq<Instruction>) -> Option<i64> {
    match run(prog, deduced(ss, ROUNDS as nat), start_regs()) {
        Some(regs) => Some(regs[0]),
        None => None,
    }
}

proof fn lemma_concrete_listed(op: Operation)
    requires
        !(op is OP),
    ensures
        exists|t: int| 0 <= t < 16 && all_ops()[t] == op,
{
    match op {
        Operation::ADDR => assert(all_ops()[0] == op),
        Operation::ADDI => assert(all_ops()[1] == op),
        Operation::MULR => assert(all_ops()[2] == op),
        Operation::MULI => assert(all_ops()[3] == op),
        Operation::BANR => assert(all_ops()[4] == op),
        Operation::BANI => assert(all_ops()[5] == op),
        Operation::BORR => assert(all_ops()[6] == op),
        Operation::BORI => assert(all_ops()[7] == op),
        Operation::SETR => assert(all_ops()[8] == op),
        Operation::SETI => assert(all_ops()[9] == op),
        Operation::GTIR => assert(all_ops()[10] == op),
        Operation::GTRI => assert(all_ops()[11] == op),
        Operation::GTRR => assert(all_ops()[12] == op),
        Operation::EQIR => assert(all_ops()[13] == op),
        Operation::EQRI => assert(all_ops()[14] == op),
        Operation::EQRR => assert(all_ops()[15] == op),
        Operation::OP(_) => {},
    }
}

fn same_regs(a: &Device, b: &Device) -> (r: bool)
    ensures
        r == (a.registers@ == b.registers@),
{
    let r = a.registers[0] == b.registers[0] && a.registers[1] == b.registers[1] && a.registers[2]
        == b.registers[2] && a.registers[3] == b.registers[3];
    proof {
        if r {
            assert(a.registers@ =~= b.registers@);
        } else if a.registers@ == b.registers@ {
            assert(a.registers@[0] == b.registers@[0]);
            assert(a.registers@[1] == b.registers@[1]);
            assert(a.registers@[2] == b.registers@[2]);
            assert(a.registers@[3] == b.registers@[3]);
        }
    }
    r
}

/// Whether every sample with opcode `o` behaves like `op`.
fn allowed(ss: &Vec<(Device, Instruction, Device)>, o: i64, op: Operation) -> (r: bool)
    ensures
        r == forall|k: int|
            0 <= k < ss.len() && opcode((#[trigger] ss@[k]).1) == o ==> apply(
                with_op(ss@[k].1, op),
                ss@[k].0.registers@,
            ) == Some(ss@[k].2.registers@),
{
    let mut k: usize = 0;
    while k < ss.len()
        invariant
            k <= ss.len(),
            forall|k2: int|
                0 <= k2 < k && opcode((#[trigger] ss@[k2]).1) == o ==> apply(
                    with_op(ss@[k2].1, op),
                    ss@[k2].0.registers@,
                ) == Some(ss@[k2].2.registers@),
        decreases ss.len() - k,
    {
        let (before, ins, after) = ss[k];
        let same_opcode = match ins.op {
            Operation::OP(x) => x == o,
            _ => o == -1,
        };
        if same_opcode {
            let i2 = Instruction { op, a: ins.a, b: ins.b, c: ins.c };
            let ok = match before.execute(&i2) {
                Some(d) => same_regs(&d, &after),
                None => false,
            };
            if !ok {
                return false;
            }
        }
        k = k + 1;
    }
    true
}

pub open spec fn samples_view(ss: Seq<(Device, Instruction, Device)>) -> Seq<(Seq<i64>, Instruction, Seq<i64>)> {
    ss.map_values(|x: (Device, Instruction, Device)| sample_view(x))
}

/// Runs the program with the operations `m` gives the opcodes.
fn run_program(prog: &Vec<Instruction>, m: &Vec<Option<Operation>>) -> (r: Option<Device>)
    ensures
        match r {
            Some(d) => run(prog@, m@, start_regs()) == Some(d.registers@),
            None => run(prog@, m@, start_regs()) is None,
        },
{
    let mut d = Device { registers: [0, 0, 0, 0] };
    assert(d.registers@ =~= start_regs());
    let mut k: usize = 0;
    while k < prog.len()
        invariant
            k <= prog.len(),
            run(prog@.take(k as int), m@, start_regs()) == Some(d.registers@),
        decreases prog.len() - k,
    {
        assert(prog@.take(k + 1).drop_last() =~= prog@.take(k as int));
        let i = prog[k];
        let o: i64 = match i.op {
            Operation::OP(x) => x,
            _ => -1,
        };
        if o < 0 || o as u64 >= m.len() as u64 {
            proof {
                lemma_run_prefix_none(prog@, m@, k + 1);
            }
            return None;
        }
        let op = match m[o as usize] {
            Some(op) => op,
            None => {
                proof {
                    lemma_run_prefix_none(prog@, m@, k + 1);
                }
                return None;
            },
        };
        let i2 = Instruction { op, a: i.a, b: i.b, c: i.c };
        match d.execute(&i2) {
            Some(nd) => {
                d = nd;
            },
            None => {
                proof {
                    lemma_run_prefix_none(prog@, m@, k + 1);
                }
                return None;
            },
        }
        k = k + 1;
    }
    assert(prog@.take(prog.len() as int) =~= prog@);
    Some(d)
}

proof fn lemma_run_prefix_none(prog: Seq<Instruction>, m: Seq<Option<Operation>>, k: int)
    requires
        0 <= k <= prog.len(),
        run(prog.take(k), m, start_regs()) is None,
    ensures
        run(prog, m, start_regs()) is None,
    decreases prog.len(),
{
    if k < prog.len() {
        assert(prog.drop_last().take(k) =~= prog.take(k));
        lemma_run_prefix_none(prog.drop_last(), m, k);
    } else {
        assert(prog.take(k) =~= prog);
    }
}

/// Whether opcode `o` has a sample.
fn has_samples(ss: &Vec<(Device, Instruction, Device)>, o: i64) -> (r: bool)
    ensures
        r == exists|k: int|
            0 <= k < samples_view(ss@).len() && opcode((#[trigger] samples_view(ss@)[k]).1) == o,
{
    let ghost sv = samples_view(ss@);
    let mut k: usize = 0;
    while k < ss.len()
        invariant
            k <= ss.len(),
            sv == samples_view(ss@),
            forall|k2: int| 0 <= k2 < k ==> opcode((#[trigger] sv[k2]).1) != o,
        decreases ss.len() - k,
    {
        assert(sv[k as int] == sample_view(ss@[k as int]));
        let same = match ss[k].1.op {
            Operation::OP(x) => x == o,
            _ => o == -1,
        };
        if same {
            return true;
        }
        k = k + 1;
    }
    false
}

/// Whether `op` is a candidate of opcode `o`.
fn is_candidate(ss: &Vec<(Device, Instruction, Device)>, o: i64, op: Operation) -> (r: bool)
    ensures
        r == candidate(samples_view(ss@), o as int, op),
{
    let ghost sv = samples_view(ss@);
    let h = has_samples(ss, o);
    let a = allowed(ss, o, op);
    proof {
        assert forall|k: int| 0 <= k < sv.len() implies #[trigger] sv[k] == sample_view(ss@[k]) by {}
        if a {
            assert forall|k: int|
                0 <= k < sv.len() && opcode((#[trigger] sv[k]).1) == o implies apply(
                with_op(sv[k].1, op),
                sv[k].0,
            ) == Some(sv[k].2) by {
                assert(sv[k] == sample_view(ss@[k]));
                assert(opcode(ss@[k].1) == o);
            }
        } else {
            let k = choose|k: int|
                !(0 <= k < ss.len() && opcode((#[trigger] ss@[k]).1) == o ==> apply(
                    with_op(ss@[k].1, op),
                    ss@[k].0.registers@,
                ) == Some(ss@[k].2.registers@));
            assert(sv[k] == sample_view(ss@[k]));
        }
    }
    h && a
}

proof fn lemma_ops_distinct()
    ensures
        forall|a: int, b: int| 0 <= a < b < 16 ==> all_ops()[a] != all_ops()[b],
{
}

proof fn lemma_free_listed(
    ss: Seq<(Seq<i64>, Instruction, Seq<i64>)>,
    known: Seq<Option<Operation>>,
    o: int,
    op: Operation,
)
    requires
        free(ss, known, o, op),
    ensures
        exists|t: int| 0 <= t < 16 && all_ops()[t] == op,
{
    let k = choose|k: int| 0 <= k < ss.len() && opcode((#[trigger] ss[k]).1) == o;
    assert(apply(with_op(ss[k].1, op), ss[k].0) == Some(ss[k].2));
    if !(op is OP) {
        lemma_concrete_listed(op);
    }
}

/// The one free candidate of opcode `o`, if there is exactly one.
fn single_free_exec(ss: &Vec<(Device, Instruction, Device)>, known: &Vec<Option<Operation>>, o: usize) -> (r: Option<Operation>)
    requires
        known.len() == 16,
        o < 16,
    ensures
        r == single_free(samples_view(ss@), known@, o as int),
{
    let ghost sv = samples_view(ss@);
    let mut count: usize = 0;
    let mut found: Option<Operation> = None;
    let ghost mut t1: int = 0;
    let ghost mut t2: int = 0;
    let mut t: usize = 0;
    while t < 16
        invariant
            t <= 16,
            o < 16,
            known.len() == 16,
            sv == samples_view(ss@),
            count <= 2,
            count == 0 ==> found is None && forall|t3: int|
                0 <= t3 < t ==> !free(sv, known@, o as int, #[trigger] all_ops()[t3]),
            count == 1 ==> found is Some && 0 <= t1 < t && all_ops()[t1] == found->0 && free(
                sv,
                known@,
                o as int,
                found->0,
            ) && forall|t3: int|
                0 <= t3 < t && t3 != t1 ==> !free(sv, known@, o as int, #[trigger] all_ops()[t3]),
            count == 2 ==> 0 <= t1 < t2 < t && free(sv, known@, o as int, all_ops()[t1]) && free(
                sv,
                known@,
                o as int,
                all_ops()[t2],
            ),
        decreases 16 - t,
    {
        let op = all_op(t);
        let mut taken = false;
        let mut u: usize = 0;
        while u < 16
            invariant
                u <= 16,
                known.len() == 16,
                taken == exists|u2: int| 0 <= u2 < u && known@[u2] == Some(op),
            decreases 16 - u,
        {
            if known[u] == Some(op) {
                taken = true;
            }
            u = u + 1;
        }
        let c = is_candidate(ss, o as i64, op);
        if c && !taken {
            assert(free(sv, known@, o as int, op));
            if count == 0 {
                found = Some(op);
                proof {
                    t1 = t as int;
                }
                count = 1;
            } else if count == 1 {
                proof {
                    t2 = t as int;
                }
                count = 2;
            }
        } else {
            assert(!free(sv, known@, o as int, op));
        }
        t = t + 1;
    }
    proof {
        lemma_ops_distinct();
    }
    if count == 1 {
        let op = found.unwrap();
        proof {
            assert forall|op2: Operation| #[trigger] free(sv, known@, o as int, op2) implies op2 == op by {
                lemma_free_listed(sv, known@, o as int, op2);
                let t3 = choose|t3: int| 0 <= t3 < 16 && all_ops()[t3] == op2;
                if t3 != t1 {
                    assert(!free(sv, known@, o as int, all_ops()[t3]));
                }
            }
            assert(only_free(sv, known@, o as int, op));
            let c = choose|op3: Operation| only_free(sv, known@, o as int, op3);
            assert(free(sv, known@, o as int, op));
            assert(c == op);
        }
        Some(op)
    } else {
        proof {
            if exists|op3: Operation| only_free(sv, known@, o as int, op3) {
                let op3 = choose|op3: Operation| only_free(sv, known@, o as int, op3);
                lemma_free_listed(sv, known@, o as int, op3);
                let t3 = choose|t3: int| 0 <= t3 < 16 && all_ops()[t3] == op3;
                if count == 2 {
                    assert(free(sv, known@, o as int, all_ops()[t1]));
                    assert(free(sv, known@, o as int, all_ops()[t2]));
                    assert(all_ops()[t1] == op3);
                    assert(all_ops()[t2] == op3);
                } else {
                    assert(!free(sv, known@, o as int, all_ops()[t3]));
                }
            }
        }
        None
    }
}

/// One round of elimination.
fn eliminate_round(ss: &Vec<(Device, Instruction, Device)>, known: &Vec<Option<Operation>>) -> (r: Vec<Option<Operation>>)
    requires
        known.len() == 16,
    ensures
        r@ == eliminate(samples_view(ss@), known@),
        r.len() == 16,
{
    let ghost sv = samples_view(ss@);
    let mut r: Vec<Option<Operation>> = Vec::new();
    let mut o: usize = 0;
    while o < 16
        invariant
            o <= 16,
            known.len() == 16,
            sv == samples_view(ss@),
            r.len() == o,
            forall|o2: int| 0 <= o2 < o ==> #[trigger] r@[o2] == eliminate(sv, known@)[o2],
        decreases 16 - o,
    {
        if known[o].is_some() {
            r.push(known[o]);
        } else {
            let x = single_free_exec(ss, known, o);
            r.push(x);
        }
        o = o + 1;
    }
    assert(r@ =~= eliminate(sv, known@));
    r
}

/// The `t`-th operation.
fn all_op(t: usize) -> (r: Operation)
    requires
        t < 16,
    ensures
        r == all_ops()[t as int],
{
    let i = Instruction { op: Operation::OP(0), a: 0, b: 0, c: 0 };
    let v = i.enumerate_all();
    assert(v@[t as int] == with_op(i, all_ops()[t as int]));
    v[t].op
}

proof fn lemma_program_prefix_none(ls: Seq<Seq<char>>, k: int)
    requires
        0 <= k <= ls.len(),
        program_of_lines(ls.take(k)) is None,
    ensures
        program_of_lines(ls) is None,
    decreases ls.len(),
{
    if k < ls.len() {
        assert(ls.drop_last().take(k) =~= ls.take(k));
        lemma_program_prefix_none(ls.drop_last(), k);
    } else {
        assert(ls.take(k) =~= ls);
    }
}

/// Reads the test program of a puzzle text.
pub fn parse_program(input: &str) -> (r: Option<Vec<Instruction>>)
    ensures
        match r {
            Some(v) => text_program(input@) == Some(v@),
            None => text_program(input@) is None,
        },
{
    let s = crate::text::chars_of(input);
    let lines = split_chars(&s, '\n');
    let ghost ls = lines@.map_values(|l: Vec<char>| l@);
    assert(ls == split(input@, '\n'));
    let end = find_gap(&lines);
    if end >= lines.len() {
        proof {
            reveal(text_program);
        }
        return None;
    }
    let ghost rest = ls.skip(end + 3);
    let mut prog: Vec<Instruction> = Vec::new();
    let mut i = end + 3;
    assert(rest.take(0) =~= Seq::<Seq<char>>::empty());
    while i < lines.len()
        invariant
            end + 3 <= i <= lines.len(),
            ls == lines@.map_values(|l: Vec<char>| l@),
            ls == split(input@, '\n'),
            end == samples_end(ls),
            end < ls.len(),
            rest == ls.skip(end + 3),
            program_of_lines(rest.take(i - end - 3)) == Some(prog@),
        decreases lines.len() - i,
    {
        let ghost j = i - end - 3;
        assert(rest.take(j + 1).drop_last() =~= rest.take(j));
        assert(rest[j] == ls[i as int]);
        assert(lines@[i as int]@ == ls[i as int]);
        let t = trimmed(&lines[i]);
        if t.len() > 0 {
            assert(t@.skip(0) =~= t@);
            match parse_instruction(&t, 0) {
                Some(ins) => {
                    prog.push(ins);
                },
                None => {
                    proof {
                        lemma_program_prefix_none(rest, j + 1);
                        reveal(text_program);
                    }
                    return None;
                },
            }
        }
        i = i + 1;
    }
    assert(rest.take(lines.len() - end - 3) =~= rest);
    proof {
        reveal(text_program);
    }
    Some(prog)
}

/// Register 0 after running the test program with the operations that
/// elimination fixes for its opcodes; `None` where the text has no samples
/// or program, an opcode the program uses stays open, or an instruction
/// cannot run.
pub fn result_r0(input: &str) -> (r: Option<i64>)
    ensures
        text_samples(input@) is None || text_program(input@) is None ==> r is None,
        text_samples(input@) is Some && text_program(input@) is Some ==> r == r0_spec(
            text_samples(input@)->0,
            text_program(input@)->0,
        ),
{
    let ss = match parse_samples(input) {
        Some(v) => v,
        None => {
            return None;
        },
    };
    let prog = match parse_program(input) {
        Some(v) => v,
        None => {
            return None;
        },
    };
    let ghost sv = samples_view(ss@);
    assert(text_samples(input@)->0 == sv);
    let mut known: Vec<Option<Operation>> = Vec::new();
    let mut o: usize = 0;
    while o < 16
        invariant
            o <= 16,
            known@ == Seq::new(o as nat, |o: int| None::<Operation>),
        decreases 16 - o,
    {
        known.push(None);
        assert(known@ =~= Seq::new((o + 1) as nat, |o: int| None::<Operation>));
        o = o + 1;
    }
    assert(known@ == deduced(sv, 0));
    let mut round: usize = 0;
    while round < ROUNDS
        invariant
            round <= ROUNDS,
            known@ == deduced(sv, round as nat),
            known.len() == 16,
            sv == samples_view(ss@),
        decreases ROUNDS - round,
    {
        known = eliminate_round(&ss, &known);
        round = round + 1;
    }
    match run_program(&prog, &known) {
        Some(d) => Some(d.registers[0]),
        None => None,
    }
}

} // verus!
