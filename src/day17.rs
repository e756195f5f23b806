use vstd::prelude::*;
use vstd::string::StringSliceAdditionalSpecFns;
use crate::text::{parse_ints, parsed_ints};

verus! {

/// How many instructions a run may take before it is given up as endless.
pub const MAX_STEPS: u64 = 10000000;

/// The machine: three registers and an instruction pointer.
#[derive(Clone, Copy, Debug)]
pub struct Machine {
    pub instruction_pointer: usize,
    pub registers: [i64; 3],
}

/// What a machine holds: its instruction pointer and its three registers.
pub struct MachineView {
    pub ip: int,
    pub regs: Seq<i64>,
}

impl View for Machine {
    type V = MachineView;

    open spec fn view(&self) -> MachineView {
        MachineView { ip: self.instruction_pointer as int, regs: self.registers@ }
    }
}

/// The eight instructions.
#[derive(Clone, Copy, Debug, PartialEq, Eq, Structural)]
pub enum Opcode {
    Adv,
    Bxl,
    Bst,
    Jnz,
    Bxc,
    Out,
    Bdv,
    Cdv,
}

/// The opcode a byte names, where it names one.
pub open spec fn spec_opcode(b: u8) -> Option<Opcode> {
    if b == 0 {
        Some(Opcode::Adv)
    } else if b == 1 {
        Some(Opcode::Bxl)
    } else if b == 2 {
        Some(Opcode::Bst)
    } else if b == 3 {
        Some(Opcode::Jnz)
    } else if b == 4 {
        Some(Opcode::Bxc)
    } else if b == 5 {
        Some(Opcode::Out)
    } else if b == 6 {
        Some(Opcode::Bdv)
    } else if b == 7 {
        Some(Opcode::Cdv)
    } else {
        None
    }
}

impl Opcode {
    /// The opcode a byte names, where it names one.
    pub fn from_byte(b: u8) -> (r: Option<Opcode>)
        ensures
            r == spec_opcode(b),
    {
        if b == 0 {
            Some(Opcode::Adv)
        } else if b == 1 {
            Some(Opcode::Bxl)
        } else if b == 2 {
            Some(Opcode::Bst)
        } else if b == 3 {
            Some(Opcode::Jnz)
        } else if b == 4 {
            Some(Opcode::Bxc)
        } else if b == 5 {
            Some(Opcode::Out)
        } else if b == 6 {
            Some(Opcode::Bdv)
        } else if b == 7 {
            Some(Opcode::Cdv)
        } else {
            None
        }
    }
}

/// The value of a combo operand: 0 to 3 stand for themselves, 4 to 6 for the
/// registers; 7 and above stand for nothing.
pub open spec fn spec_combo(m: MachineView, op: u8) -> Option<i64> {
    if op < 4 {
        Some(op as i64)
    } else if op < 7 {
        Some(m.regs[op - 4])
    } else {
        None
    }
}

/// `2` to the power `k`.
pub open spec fn two_pow(k: int) -> int
    decreases k,
{
    if k <= 0 {
        1
    } else {
        2 * two_pow(k - 1)
    }
}

/// `a` divided by `2^k`, rounded toward zero.
pub open spec fn shifted_down(a: i64, k: int) -> i64 {
    let p = two_pow(k);
    if a < 0 {
        (-((-(a as int)) / p)) as i64
    } else {
        ((a as int) / p) as i64
    }
}

/// One instruction: the next machine and the value it outputs, if any;
/// `None` where the instruction cannot run (a bad opcode or operand, or a
/// shift outside `0..63`). The caller checks that an instruction is there.
pub open spec fn spec_step(m: MachineView, prog: Seq<u8>) -> Option<(MachineView, Option<u8>)> {
    let ip = m.ip;
    let op = prog[ip + 1];
    let next = MachineView { ip: ip + 2, regs: m.regs };
    match spec_opcode(prog[ip]) {
        Some(Opcode::Adv) => match spec_combo(m, op) {
            Some(k) => if 0 <= k < 63 {
                Some((MachineView { regs: m.regs.update(0, shifted_down(m.regs[0], k as int)), ..next }, None))
            } else {
                None
            },
            None => None,
        },
        Some(Opcode::Bxl) => Some((MachineView { regs: m.regs.update(1, m.regs[1] ^ (op as i64)), ..next }, None)),
        Some(Opcode::Bst) => match spec_combo(m, op) {
            Some(v) => Some((MachineView { regs: m.regs.update(1, v & 7), ..next }, None)),
            None => None,
        },
        Some(Opcode::Jnz) => if m.regs[0] != 0 {
            Some((MachineView { ip: op as int, regs: m.regs }, None))
        } else {
            Some((next, None))
        },
        Some(Opcode::Bxc) => Some((MachineView { regs: m.regs.update(1, m.regs[1] ^ m.regs[2]), ..next }, None)),
        Some(Opcode::Out) => match spec_combo(m, op) {
            Some(v) => Some((next, Some((v & 7) as u8))),
            None => None,
        },
        Some(Opcode::Bdv) => match spec_combo(m, op) {
            Some(k) => if 0 <= k < 63 {
                Some((MachineView { regs: m.regs.update(1, shifted_down(m.regs[0], k as int)), ..next }, None))
            } else {
                None
            },
            None => None,
        },
        Some(Opcode::Cdv) => match spec_combo(m, op) {
            Some(k) => if 0 <= k < 63 {
                Some((MachineView { regs: m.regs.update(2, shifted_down(m.regs[0], k as int)), ..next }, None))
            } else {
                None
            },
            None => None,
        },
        None => None,
    }
}

/// Whether the machine has stopped: no whole instruction at its pointer.
pub open spec fn spec_halted(m: MachineView, prog: Seq<u8>) -> bool {
    m.ip + 1 >= prog.len() || m.ip < 0
}

/// What the machine outputs until it stops, within `fuel` instructions;
/// `None` where an instruction cannot run or the fuel runs out first.
pub open spec fn spec_run(m: MachineView, prog: Seq<u8>, fuel: nat) -> Option<Seq<u8>>
    decreases fuel,
{
    if spec_halted(m, prog) {
        Some(Seq::empty())
    } else if fuel == 0 {
        None
    } else {
        match spec_step(m, prog) {
            Some((m2, out)) => match spec_run(m2, prog, (fuel - 1) as nat) {
                Some(rest) => Some(
                    match out {
                        Some(v) => seq![v] + rest,
                        None => rest,
                    },
                ),
                None => None,
            },
            None => None,
        }
    }
}

/// The machine and program written in the text: its first three numbers set
/// the registers, the rest, each a byte, form the program.
pub open spec fn machine_text(s: Seq<u8>) -> Option<(MachineView, Seq<u8>)> {
    match parsed_ints(s) {
        Some(xs) => if xs.len() >= 3 && (forall|i: int| 3 <= i < xs.len() ==> 0 <= #[trigger] xs[i] <= 255) {
            Some(
                (
                    MachineView { ip: 0, regs: seq![xs[0] as i64, xs[1] as i64, xs[2] as i64] },
                    Seq::new((xs.len() - 3) as nat, |i: int| xs[i + 3] as u8),
                ),
            )
        } else {
            None
        },
        None => None,
    }
}

/// The search for a starting value of register A that makes the puzzle's
/// program print `e`: the program is read backward three bits at a time.
pub open spec fn spec_reverse(a: u64, e: Seq<u8>) -> Option<u64>
    decreases e.len(), 9int,
{
    if e.len() == 0 {
        Some(a)
    } else {
        try_low_bits(a, e, 0)
    }
}

/// The search from the low bits `lb` on, for the last value of `e`.
pub open spec fn try_low_bits(a: u64, e: Seq<u8>, lb: u64) -> Option<u64>
    decreases e.len(), 8 - lb,
{
    if e.len() == 0 || lb >= 8 {
        None
    } else {
        let a2 = ((a << 3u64) + lb) as u64;
        let b1 = (a2 & 7) ^ 3;
        let c = a2 >> b1;
        let b2 = (b1 ^ 5) ^ c;
        if b2 & 7 != e.last() as u64 {
            try_low_bits(a, e, (lb + 1) as u64)
        } else {
            match spec_reverse(a2, e.drop_last()) {
                Some(r) => Some(r),
                None => try_low_bits(a, e, (lb + 1) as u64),
            }
        }
    }
}

/// The program: a list of 3-bit numbers, opcode and operand in turn.
pub struct Program(pub Vec<u8>);

impl Program {
    /// The opcode and operand at `ip`, where both are there.
    pub fn get(&self, ip: usize) -> (r: Option<(u8, u8)>)
        ensures
            match r {
                Some((a, b)) => ip + 1 < self.0@.len() && a == self.0@[ip as int] && b == self.0@[ip + 1],
                None => ip + 1 >= self.0@.len(),
            },
    {
        let n = self.0.len();
        if ip >= n || n - ip < 2 {
            return None;
        }
        Some((self.0[ip], self.0[ip + 1]))
    }
}

proof fn lemma_two_pow_grows(k: int)
    ensures
        two_pow(k) >= 1,
        k >= 1 ==> two_pow(k) == 2 * two_pow(k - 1),
    decreases k,
{
    if k > 0 {
        lemma_two_pow_grows(k - 1);
    }
}

proof fn lemma_two_pow_bound(k: int)
    requires
        0 <= k < 63,
    ensures
        two_pow(k) <= 4611686018427387904,
{
    lemma_two_pow_small(k);
    assert(two_pow(62) == 4611686018427387904) by {
        reveal_with_fuel(two_pow, 63);
    }
}

proof fn lemma_two_pow_small(k: int)
    requires
        0 <= k <= 62,
    ensures
        two_pow(k) <= two_pow(62),
    decreases 62 - k,
{
    if k < 62 {
        lemma_two_pow_small(k + 1);
        lemma_two_pow_grows(k + 1);
        lemma_two_pow_grows(k);
    }
}

/// `a` divided by `2^k`, rounded toward zero.
fn shift_down(a: i64, k: i64) -> (r: i64)
    requires
        0 <= k < 63,
    ensures
        r == shifted_down(a, k as int),
{
    let mut p: i64 = 1;
    let mut i: i64 = 0;
    while i < k
        invariant
            0 <= i <= k < 63,
            p == two_pow(i as int),
        decreases k - i,
    {
        proof {
            lemma_two_pow_bound(i + 1);
            lemma_two_pow_grows(i + 1);
        }
        p = p * 2;
        i = i + 1;
    }
    proof {
        lemma_two_pow_grows(k as int);
        lemma_two_pow_bound(k as int);
    }
    if a < 0 {
        let m: i128 = -(a as i128);
        let q: i128 = m / (p as i128);
        proof {
            assert(q <= m) by (nonlinear_arith)
                requires
                    q == (m as int) / (p as int),
                    p >= 1,
                    m >= 0,
            ;
        }
        (-q) as i64
    } else {
        a / p
    }
}

/// Reads the machine and the program.
pub fn parse(input: &str) -> (r: Option<(Machine, Program)>)
    ensures
        match r {
            Some((m, p)) => machine_text(input.spec_bytes()) == Some((m@, p.0@)),
            None => machine_text(input.spec_bytes()) is None,
        },
{
    let xs = match parse_ints(input.as_bytes()) {
        Some(v) => v,
        None => {
            return None;
        },
    };
    let ghost sx = xs@.map_values(|x: i64| x as int);
    if xs.len() < 3 {
        return None;
    }
    let mut prog: Vec<u8> = Vec::new();
    let mut i: usize = 3;
    while i < xs.len()
        invariant
            3 <= i <= xs@.len(),
            sx == xs@.map_values(|x: i64| x as int),
            parsed_ints(input.spec_bytes()) == Some(sx),
            prog@.len() == i - 3,
            forall|k: int| 3 <= k < i ==> 0 <= #[trigger] sx[k] <= 255,
            forall|k: int| 0 <= k < prog@.len() ==> prog@[k] == sx[k + 3] as u8,
        decreases xs@.len() - i,
    {
        if xs[i] < 0 || xs[i] > 255 {
            proof {
                assert(sx[i as int] == xs@[i as int]);
            }
            return None;
        }
        prog.push(xs[i] as u8);
        i = i + 1;
    }
    let m = Machine { instruction_pointer: 0, registers: [xs[0], xs[1], xs[2]] };
    proof {
        let t = machine_text(input.spec_bytes());
        assert(t is Some);
        let (mv, pv) = t->0;
        assert(mv == m@) by {
            assert(m@.regs =~= seq![sx[0] as i64, sx[1] as i64, sx[2] as i64]);
        }
        assert(pv =~= prog@);
    }
    Some((m, Program(prog)))
}

impl Machine {
    /// The value of a combo operand, where it stands for one.
    pub fn get_operand_value(&self, op: u8) -> (r: Option<i64>)
        ensures
            r == spec_combo(self@, op),
    {
        if op < 4 {
            Some(op as i64)
        } else if op < 7 {
            Some(self.registers[(op - 4) as usize])
        } else {
            None
        }
    }

    /// Whether there is no whole instruction at the pointer.
    pub fn halted(&self, program: &Program) -> (r: bool)
        ensures
            r == spec_halted(self@, program.0@),
    {
        program.get(self.instruction_pointer).is_none()
    }

    /// The shift that a combo operand gives, where it is one in `0..63`.
    fn shift_operand(&self, op: u8) -> (r: Option<i64>)
        ensures
            match r {
                Some(k) => spec_combo(self@, op) == Some(k) && 0 <= k < 63,
                None => match spec_combo(self@, op) {
                    Some(k) => !(0 <= k < 63),
                    None => true,
                },
            },
    {
        match self.get_operand_value(op) {
            Some(k) => if 0 <= k && k < 63 {
                Some(k)
            } else {
                None
            },
            None => None,
        }
    }

    /// Runs the instruction at the pointer, appending what it outputs; false
    /// where it cannot run, and then nothing changes.
    pub fn execute_instruction(&mut self, program: &Program, output: &mut Vec<u8>) -> (r: bool)
        requires
            !spec_halted(old(self)@, program.0@),
        ensures
            match spec_step(old(self)@, program.0@) {
                Some((m2, out)) => r && final(self)@ == m2 && final(output)@ == match out {
                    Some(v) => old(output)@.push(v),
                    None => old(output)@,
                },
                None => !r,
            },
    {
        let (code, op) = match program.get(self.instruction_pointer) {
            Some(pair) => pair,
            None => {
                return false;
            },
        };
        let n = program.0.len();
        let regs = self.registers;
        let ghost m = self@;
        let ip = self.instruction_pointer + 2;
        match Opcode::from_byte(code) {
            Some(Opcode::Adv) => match self.shift_operand(op) {
                Some(k) => {
                    let v = shift_down(regs[0], k);
                    self.registers = [v, regs[1], regs[2]];
                },
                None => {
                    return false;
                },
            },
            Some(Opcode::Bxl) => {
                self.registers = [regs[0], regs[1] ^ (op as i64), regs[2]];
            },
            Some(Opcode::Bst) => match self.get_operand_value(op) {
                Some(v) => {
                    self.registers = [regs[0], v & 7, regs[2]];
                },
                None => {
                    return false;
                },
            },
            Some(Opcode::Jnz) => {
                if regs[0] != 0 {
                    self.instruction_pointer = op as usize;
                    proof {
                        assert(self@.regs =~= m.regs);
                    }
                    return true;
                }
            },
            Some(Opcode::Bxc) => {
                self.registers = [regs[0], regs[1] ^ regs[2], regs[2]];
            },
            Some(Opcode::Out) => match self.get_operand_value(op) {
                Some(v) => {
                    proof {
                        assert(0 <= v & 7 < 8) by (bit_vector);
                    }
                    output.push((v & 7) as u8);
                },
                None => {
                    return false;
                },
            },
            Some(Opcode::Bdv) => match self.shift_operand(op) {
                Some(k) => {
                    let v = shift_down(regs[0], k);
                    self.registers = [regs[0], v, regs[2]];
                },
                None => {
                    return false;
                },
            },
            Some(Opcode::Cdv) => match self.shift_operand(op) {
                Some(k) => {
                    let v = shift_down(regs[0], k);
                    self.registers = [regs[0], regs[1], v];
                },
                None => {
                    return false;
                },
            },
            None => {
                return false;
            },
        }
        self.instruction_pointer = ip;
        proof {
            assert(self@.regs =~= match spec_step(m, program.0@) {
                Some((m2, _)) => m2.regs,
                None => self@.regs,
            });
        }
        true
    }
}

/// What the machine outputs until it stops, within `MAX_STEPS`
/// instructions; `None` where the text holds no machine, an instruction
/// cannot run, or the steps run out.
pub fn part_1(input: &str) -> (r: Option<Vec<u8>>)
    ensures
        match r {
            Some(out) => match machine_text(input.spec_bytes()) {
                Some((m, prog)) => spec_run(m, prog, MAX_STEPS as nat) == Some(out@),
                None => false,
            },
            None => match machine_text(input.spec_bytes()) {
                Some((m, prog)) => spec_run(m, prog, MAX_STEPS as nat) is None,
                None => true,
            },
        },
{
    let (mut machine, program) = match parse(input) {
        Some(t) => t,
        None => {
            return None;
        },
    };
    let ghost m0 = machine@;
    let ghost prog = program.0@;
    let mut output: Vec<u8> = Vec::new();
    let mut fuel: u64 = MAX_STEPS;
    while !machine.halted(&program)
        invariant
            prog == program.0@,
            machine_text(input.spec_bytes()) == Some((m0, prog)),
            spec_run(m0, prog, MAX_STEPS as nat) == match spec_run(machine@, prog, fuel as nat) {
                Some(rest) => Some(output@ + rest),
                None => None,
            },
        decreases fuel,
    {
        if fuel == 0 {
            return None;
        }
        let ghost before = machine@;
        let ghost out_before = output@;
        if !machine.execute_instruction(&program, &mut output) {
            return None;
        }
        fuel = fuel - 1;
        proof {
            match spec_step(before, prog) {
                Some((m2, out)) => {
                    assert(m2 == machine@);
                    match spec_run(m2, prog, fuel as nat) {
                        Some(rest) => {
                            match out {
                                Some(v) => {
                                    assert(out_before + (seq![v] + rest) =~= output@ + rest);
                                },
                                None => {},
                            }
                        },
                        None => {},
                    }
                },
                None => {},
            }
        }
    }
    proof {
        assert(output@ + Seq::<u8>::empty() =~= output@);
    }
    Some(output)
}

/// The search for a starting value of register A, as `spec_reverse` says.
pub fn reverse(a: u64, expected: &[u8]) -> (r: Option<u64>)
    ensures
        r == spec_reverse(a, expected@),
    decreases expected@.len(), 9int,
{
    if expected.len() == 0 {
        return Some(a);
    }
    try_low(a, expected, 0)
}

/// The search from the low bits `lb` on.
fn try_low(a: u64, expected: &[u8], lb: u64) -> (r: Option<u64>)
    requires
        expected@.len() > 0,
    ensures
        r == try_low_bits(a, expected@, lb),
    decreases expected@.len(), 8 - lb,
{
    if lb >= 8 {
        return None;
    }
    let n = expected.len();
    proof {
        assert((a << 3u64) <= 0xFFFF_FFFF_FFFF_FFF8u64) by (bit_vector);
    }
    let a2 = (a << 3u64) + lb;
    let b1 = (a2 & 7) ^ 3;
    proof {
        assert(((a2 & 7) ^ 3) < 8) by (bit_vector);
    }
    let c = a2 >> b1;
    let b2 = (b1 ^ 5) ^ c;
    if b2 & 7 != expected[n - 1] as u64 {
        return try_low(a, expected, lb + 1);
    }
    let rest = vstd::slice::slice_subrange(expected, 0, n - 1);
    proof {
        assert(rest@ =~= expected@.drop_last());
    }
    match reverse(a2, rest) {
        Some(r) => Some(r),
        None => try_low(a, expected, lb + 1),
    }
}

/// The starting value of register A that makes the program print itself,
/// by the search that `spec_reverse` describes; `None` where the text holds
/// no machine or the search finds none.
pub fn part_2(input: &str) -> (r: Option<u64>)
    ensures
        r == match machine_text(input.spec_bytes()) {
            Some((_, prog)) => spec_reverse(0, prog),
            None => None,
        },
{
    match parse(input) {
        Some((_, program)) => reverse(0, program.0.as_slice()),
        None => None,
    }
}

} // verus!
