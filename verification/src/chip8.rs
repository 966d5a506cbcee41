//! A small CHIP-8 interpreter covering a subset of the instruction set:
//! control flow (`0000` halt, `00EE` return, `1nnn` jump,
//! `2nnn` call), the conditional skips `3xnn`, `4xnn`, `5xy0`, and the
//! register instructions `6xnn`, `7xnn`, `8xy0`..`8xy5`.
use vstd::prelude::*;

verus! {

/// The machine: 4 KiB of memory, a program counter, a call stack of
/// sixteen return addresses and sixteen 8-bit registers `v0`..`vf`.
pub struct CHIP8 {
    pub memory: [u8; 4096],
    pub program_counter: usize,
    pub stack: [u16; 16],
    pub stack_pointer: usize,
    pub registers: [u8; 16],
}

/// The mathematical model of a machine state.
pub struct Chip8State {
    pub memory: Seq<u8>,
    pub pc: int,
    pub stack: Seq<u16>,
    pub sp: int,
    pub registers: Seq<u8>,
}

impl View for CHIP8 {
    type V = Chip8State;

    open spec fn view(&self) -> Chip8State {
        Chip8State {
            memory: self.memory@,
            pc: self.program_counter as int,
            stack: self.stack@,
            sp: self.stack_pointer as int,
            registers: self.registers@,
        }
    }
}

/// What executing one decoded instruction leads to.
pub enum Outcome {
    /// The halt instruction `0000` was reached.
    Halted(Chip8State),
    /// The instruction was executed and the machine goes on.
    Running(Chip8State),
    /// The instruction cannot be executed (stack underflow or overflow,
    /// a register overflow in `7xnn`, or an unsupported opcode).
    Fault,
}

/// What running the machine for a bounded number of instructions leads to.
pub enum RunOutcome {
    Halted(Chip8State),
    OutOfSteps(Chip8State),
    Fault,
}

/// The big-endian 16-bit opcode stored at `pc` and `pc + 1`.
pub open spec fn opcode_at(memory: Seq<u8>, pc: int) -> u16 {
    (memory[pc] as int * 256 + memory[pc + 1] as int) as u16
}

/// `v` wrapped modulo 256 into a byte.
pub open spec fn wrap_u8(v: int) -> u8 {
    (v % 256) as u8
}

impl Chip8State {
    pub open spec fn with_pc(self, pc: int) -> Chip8State {
        Chip8State { pc: pc, ..self }
    }

    pub open spec fn with_register(self, i: int, v: u8) -> Chip8State {
        Chip8State { registers: self.registers.update(i, v), ..self }
    }

    /// `00EE`: pop the return address into the program counter.
    pub open spec fn ret(self) -> Chip8State {
        Chip8State { sp: self.sp - 1, pc: self.stack[self.sp - 1] as int, ..self }
    }

    /// `1nnn`: jump to `addr`.
    pub open spec fn jmp(self, addr: u16) -> Chip8State {
        self.with_pc(addr as int)
    }

    /// `2nnn`: push the program counter and jump to `addr`.
    pub open spec fn call(self, addr: u16) -> Chip8State {
        Chip8State {
            stack: self.stack.update(self.sp, self.pc as u16),
            sp: self.sp + 1,
            pc: addr as int,
            ..self
        }
    }

    /// Skip the next instruction when `cond` holds.
    pub open spec fn skip_if(self, cond: bool) -> Chip8State {
        if cond {
            self.with_pc(self.pc + 2)
        } else {
            self
        }
    }

    /// `8xy4`: `vx := vx + vy` modulo 256, `vf := carry`; when `x` is `f`
    /// the sum wins over the carry.
    pub open spec fn add_xy(self, x: int, y: int) -> Chip8State {
        let sum = self.registers[x] + self.registers[y];
        self.with_register(0xF, if sum > 255 { 1u8 } else { 0u8 }).with_register(x, wrap_u8(sum))
    }

    /// `8xy5`: `vx := vx - vy` modulo 256, `vf := not borrow`; when `x` is
    /// `f` the difference wins over the flag.
    pub open spec fn sub_xy(self, x: int, y: int) -> Chip8State {
        let diff = self.registers[x] - self.registers[y];
        self.with_register(0xF, if diff < 0 { 0u8 } else { 1u8 }).with_register(x, wrap_u8(diff))
    }
}

/// The effect of the instruction `op`, on a state whose program counter
/// already points past it.
pub open spec fn execute_spec(s: Chip8State, op: u16) -> Outcome {
    let c = op / 4096;
    let x = (op / 256) % 16;
    let y = (op / 16) % 16;
    let d = op % 16;
    let nn = (op % 256) as u8;
    let nnn = op % 4096;
    if op == 0 {
        Outcome::Halted(s)
    } else if op == 0x00EE {
        if 0 < s.sp <= 16 {
            Outcome::Running(s.ret())
        } else {
            Outcome::Fault
        }
    } else if c == 1 {
        Outcome::Running(s.jmp(nnn))
    } else if c == 2 {
        if 0 <= s.sp < 16 {
            Outcome::Running(s.call(nnn))
        } else {
            Outcome::Fault
        }
    } else if c == 3 {
        Outcome::Running(s.skip_if(s.registers[x as int] == nn))
    } else if c == 4 {
        Outcome::Running(s.skip_if(s.registers[x as int] != nn))
    } else if c == 5 && d == 0 {
        Outcome::Running(s.skip_if(s.registers[x as int] == s.registers[y as int]))
    } else if c == 6 {
        Outcome::Running(s.with_register(x as int, nn))
    } else if c == 7 {
        if s.registers[x as int] + nn <= 255 {
            Outcome::Running(s.with_register(x as int, (s.registers[x as int] + nn) as u8))
        } else {
            Outcome::Fault
        }
    } else if c == 8 && d == 0 {
        Outcome::Running(s.with_register(x as int, s.registers[y as int]))
    } else if c == 8 && d == 1 {
        Outcome::Running(s.with_register(x as int, s.registers[x as int] | s.registers[y as int]))
    } else if c == 8 && d == 2 {
        Outcome::Running(s.with_register(x as int, s.registers[x as int] & s.registers[y as int]))
    } else if c == 8 && d == 3 {
        Outcome::Running(s.with_register(x as int, s.registers[x as int] ^ s.registers[y as int]))
    } else if c == 8 && d == 4 {
        Outcome::Running(s.add_xy(x as int, y as int))
    } else if c == 8 && d == 5 {
        Outcome::Running(s.sub_xy(x as int, y as int))
    } else {
        Outcome::Fault
    }
}

/// Fetch the instruction at the program counter, advance past it and
/// execute it, at most `steps` times.
pub open spec fn run_spec(s: Chip8State, steps: nat) -> RunOutcome
    decreases steps,
{
    if steps == 0 {
        RunOutcome::OutOfSteps(s)
    } else if !(0 <= s.pc && s.pc + 1 < 4096) {
        RunOutcome::Fault
    } else {
        match execute_spec(s.with_pc(s.pc + 2), opcode_at(s.memory, s.pc)) {
            Outcome::Halted(t) => RunOutcome::Halted(t),
            Outcome::Running(t) => run_spec(t, (steps - 1) as nat),
            Outcome::Fault => RunOutcome::Fault,
        }
    }
}

/// The machine reaches the halt instruction after finitely many
/// instructions, without a fault on the way.
pub open spec fn halts(s: Chip8State) -> bool {
    exists|n: nat| run_spec(s, n) is Halted
}

/// The state in which a halting machine stops.
pub open spec fn halted_state(s: Chip8State) -> Chip8State {
    run_spec(s, choose|n: nat| run_spec(s, n) is Halted)->Halted_0
}

/// The halted state does not depend on the number of steps in which the
/// halt was observed: any step budget with which a run halts gives it.
pub proof fn lemma_halted_state_of_any_budget(s: Chip8State, n: nat)
    requires
        run_spec(s, n) is Halted,
    ensures
        halts(s),
        halted_state(s) == run_spec(s, n)->Halted_0,
{
    let m = choose|m: nat| run_spec(s, m) is Halted;
    if n <= m {
        lemma_run_halted_extends(s, n, m);
    } else {
        lemma_run_halted_extends(s, m, n);
    }
}

/// Control flow: `0000` halts the machine as it is; `1nnn` moves the
/// program counter to `nnn` and nothing else; `2nnn` saves the program
/// counter in the next free stack slot and moves to `nnn`; `00EE` goes
/// back to the address in the topmost used slot.
pub proof fn lemma_control_flow(s: Chip8State, op: u16)
    requires
        op == 0 || op == 0x00EE || 0x1000 <= op < 0x3000,
        s.stack.len() == 16,
        0 <= s.sp <= 16,
        0 <= s.pc <= 0xFFFF,
    ensures
        op == 0 ==> execute_spec(s, op) == Outcome::Halted(s),
        0x1000 <= op < 0x2000 ==> execute_spec(s, op) is Running && execute_spec(s, op)->Running_0
            == (Chip8State { pc: op - 0x1000, ..s }),
        0x2000 <= op < 0x3000 && s.sp < 16 ==> execute_spec(s, op) is Running && execute_spec(
            s,
            op,
        )->Running_0.pc == op - 0x2000 && execute_spec(s, op)->Running_0.sp == s.sp + 1
            && execute_spec(s, op)->Running_0.stack[s.sp] == s.pc && execute_spec(
            s,
            op,
        )->Running_0.registers == s.registers && execute_spec(s, op)->Running_0.memory
            == s.memory && (forall|i: int|
            0 <= i < 16 && i != s.sp ==> #[trigger] execute_spec(s, op)->Running_0.stack[i]
                == s.stack[i]),
        0x2000 <= op < 0x3000 && s.sp == 16 ==> execute_spec(s, op) is Fault,
        op == 0x00EE && s.sp > 0 ==> execute_spec(s, op) == Outcome::Running(
            Chip8State { pc: s.stack[s.sp - 1] as int, sp: s.sp - 1, ..s },
        ),
        op == 0x00EE && s.sp == 0 ==> execute_spec(s, op) is Fault,
{
}

/// The register instructions `6xnn`, `7xnn` and `8xy0`..`8xy3` write
/// only `vx`: `nn`, `vx + nn`, `vy`, `vx | vy`, `vx & vy`, `vx ^ vy`.
/// The program counter and every other register stay as they were.
pub proof fn lemma_register_instructions(s: Chip8State, op: u16)
    requires
        0x6000 <= op < 0x8000 || (0x8000 <= op < 0x9000 && op % 16 < 4),
        s.registers.len() == 16,
        0x7000 <= op < 0x8000 ==> s.registers[((op / 256) % 16) as int] + op % 256 <= 255,
    ensures
        execute_spec(s, op) is Running,
        execute_spec(s, op)->Running_0.pc == s.pc,
        execute_spec(s, op)->Running_0.stack == s.stack,
        execute_spec(s, op)->Running_0.sp == s.sp,
        execute_spec(s, op)->Running_0.registers.len() == 16,
        forall|i: int|
            0 <= i < 16 && i != (op / 256) % 16 ==> #[trigger] execute_spec(
                s,
                op,
            )->Running_0.registers[i] == s.registers[i],
        op < 0x7000 ==> execute_spec(s, op)->Running_0.registers[((op / 256) % 16) as int] == op
            % 256,
        0x7000 <= op < 0x8000 ==> execute_spec(s, op)->Running_0.registers[((op / 256) % 16) as int]
            == s.registers[((op / 256) % 16) as int] + op % 256,
        0x8000 <= op && op % 16 == 0 ==> execute_spec(s, op)->Running_0.registers[((op / 256)
            % 16) as int] == s.registers[((op / 16) % 16) as int],
        0x8000 <= op && op % 16 == 1 ==> execute_spec(s, op)->Running_0.registers[((op / 256)
            % 16) as int] == s.registers[((op / 256) % 16) as int] | s.registers[((op / 16)
            % 16) as int],
        0x8000 <= op && op % 16 == 2 ==> execute_spec(s, op)->Running_0.registers[((op / 256)
            % 16) as int] == s.registers[((op / 256) % 16) as int] & s.registers[((op / 16)
            % 16) as int],
        0x8000 <= op && op % 16 == 3 ==> execute_spec(s, op)->Running_0.registers[((op / 256)
            % 16) as int] == s.registers[((op / 256) % 16) as int] ^ s.registers[((op / 16)
            % 16) as int],
{
}

/// The conditional skips: `3xnn` skips the next instruction exactly when
/// `vx` equals `nn`, `4xnn` exactly when `vx` differs from `nn`, and
/// `5xy0` exactly when `vx` equals `vy`. To skip is to advance the program
/// counter by one more instruction; nothing else changes.
pub proof fn lemma_conditional_skips(s: Chip8State, op: u16)
    requires
        0x3000 <= op < 0x5000 || (0x5000 <= op < 0x6000 && op % 16 == 0),
    ensures
        execute_spec(s, op) is Running,
        execute_spec(s, op)->Running_0.registers == s.registers,
        execute_spec(s, op)->Running_0.memory == s.memory,
        execute_spec(s, op)->Running_0.stack == s.stack,
        execute_spec(s, op)->Running_0.sp == s.sp,
        op < 0x4000 ==> (execute_spec(s, op)->Running_0.pc == s.pc + 2 <==> s.registers[((op
            / 256) % 16) as int] == op % 256),
        0x4000 <= op < 0x5000 ==> (execute_spec(s, op)->Running_0.pc == s.pc + 2 <==> s.registers[(
        (op / 256) % 16) as int] != op % 256),
        0x5000 <= op ==> (execute_spec(s, op)->Running_0.pc == s.pc + 2 <==> s.registers[((op
            / 256) % 16) as int] == s.registers[((op / 16) % 16) as int]),
        execute_spec(s, op)->Running_0.pc == s.pc || execute_spec(s, op)->Running_0.pc == s.pc
            + 2,
{
}

/// The arithmetic with a flag: `8xy4` leaves `(vx + vy) mod 256` in `vx`
/// and sets `vf` to 1 exactly when `vx + vy` exceeds 255 (a carry), and
/// `8xy5` leaves `(vx - vy) mod 256` in `vx` and sets `vf` to 1 exactly
/// when `vy <= vx` (no borrow); when `x` is `f`, `vf` holds the result.
/// No other register, nor the program counter, changes.
pub proof fn lemma_arithmetic_flags(s: Chip8State, op: u16)
    requires
        0x8000 <= op < 0x9000,
        op % 16 == 4 || op % 16 == 5,
        s.registers.len() == 16,
    ensures
        execute_spec(s, op) is Running,
        execute_spec(s, op)->Running_0.pc == s.pc,
        execute_spec(s, op)->Running_0.registers.len() == 16,
        forall|i: int|
            0 <= i < 15 && i != (op / 256) % 16 ==> #[trigger] execute_spec(
                s,
                op,
            )->Running_0.registers[i] == s.registers[i],
        op % 16 == 4 ==> execute_spec(s, op)->Running_0.registers[((op / 256) % 16) as int] == (
        s.registers[((op / 256) % 16) as int] + s.registers[((op / 16) % 16) as int]) % 256,
        op % 16 == 5 ==> execute_spec(s, op)->Running_0.registers[((op / 256) % 16) as int] == (
        s.registers[((op / 256) % 16) as int] - s.registers[((op / 16) % 16) as int] + 256) % 256,
        op % 16 == 4 && (op / 256) % 16 != 15 ==> (execute_spec(s, op)->Running_0.registers[15]
            == 1 <==> s.registers[((op / 256) % 16) as int] + s.registers[((op / 16) % 16) as int]
            > 255),
        op % 16 == 5 && (op / 256) % 16 != 15 ==> (execute_spec(s, op)->Running_0.registers[15]
            == 1 <==> s.registers[((op / 16) % 16) as int] <= s.registers[((op / 256) % 16) as int]),
        (op / 256) % 16 != 15 ==> execute_spec(s, op)->Running_0.registers[15] == 0
            || execute_spec(s, op)->Running_0.registers[15] == 1,
{
}

/// Returning from a subroutine undoes the call: the stack pointer and the
/// stack below it are as before, and the program counter is back where it
/// was (for a program counter that fits the 16-bit return stack).
pub proof fn lemma_call_then_ret(s: Chip8State, addr: u16)
    requires
        0 <= s.sp < 16,
        s.stack.len() == 16,
        0 <= s.pc <= 0xFFFF,
    ensures
        s.call(addr).ret().pc == s.pc,
        s.call(addr).ret().sp == s.sp,
        s.call(addr).ret().registers == s.registers,
        s.call(addr).ret().memory == s.memory,
        forall|i: int| 0 <= i < s.sp ==> s.call(addr).ret().stack[i] == s.stack[i],
{
    assert((s.pc as u16) as int == s.pc);
}

/// Exactly one of `3xnn` and `4xnn` skips the next instruction.
pub proof fn lemma_skip_e_ne_complementary(s: Chip8State, x: int, nn: u8)
    ensures
        s.skip_if(s.registers[x] == nn).pc + s.skip_if(s.registers[x] != nn).pc == 2 * s.pc + 2,
{
}

/// Once a run halts, more steps change nothing: the outcome of a halting
/// run does not depend on how many more steps it was allowed.
pub proof fn lemma_run_halted_extends(s: Chip8State, n: nat, m: nat)
    requires
        n <= m,
        run_spec(s, n) is Halted,
    ensures
        run_spec(s, m) == run_spec(s, n),
    decreases n,
{
    if n > 0 && 0 <= s.pc && s.pc + 1 < 4096 {
        match execute_spec(s.with_pc(s.pc + 2), opcode_at(s.memory, s.pc)) {
            Outcome::Running(t) => {
                lemma_run_halted_extends(t, (n - 1) as nat, (m - 1) as nat);
            },
            _ => {},
        }
    }
}

/// A run that does not fault with `m` steps does not fault with fewer.
pub proof fn lemma_run_no_fault_shorter(s: Chip8State, n: nat, m: nat)
    requires
        n <= m,
        !(run_spec(s, m) is Fault),
    ensures
        !(run_spec(s, n) is Fault),
    decreases n,
{
    if n > 0 && 0 <= s.pc && s.pc + 1 < 4096 {
        match execute_spec(s.with_pc(s.pc + 2), opcode_at(s.memory, s.pc)) {
            Outcome::Running(t) => {
                lemma_run_no_fault_shorter(t, (n - 1) as nat, (m - 1) as nat);
            },
            _ => {},
        }
    }
}

impl CHIP8 {
    /// A machine with zeroed memory, stack and registers.
    pub fn new() -> (chip: Self)
        ensures
            chip@.pc == 0,
            chip@.sp == 0,
            chip@.memory == Seq::new(4096, |i: int| 0u8),
            chip@.stack == Seq::new(16, |i: int| 0u16),
            chip@.registers == Seq::new(16, |i: int| 0u8),
    {
        let chip = CHIP8 {
            memory: [0u8; 4096],
            program_counter: 0,
            stack: [0u16; 16],
            stack_pointer: 0,
            registers: [0u8; 16],
        };
        assert(chip@.memory =~= Seq::new(4096, |i: int| 0u8));
        assert(chip@.stack =~= Seq::new(16, |i: int| 0u16));
        assert(chip@.registers =~= Seq::new(16, |i: int| 0u8));
        chip
    }

    /// Reads the big-endian opcode at the program counter and moves the
    /// program counter past it.
    pub fn read_opcode(&mut self) -> (opcode: u16)
        requires
            old(self).program_counter + 1 < 4096,
        ensures
            opcode == opcode_at(old(self)@.memory, old(self)@.pc),
            final(self)@ == old(self)@.with_pc(old(self)@.pc + 2),
    {
        let pc = self.program_counter;
        let fst = self.memory[pc];
        let snd = self.memory[pc + 1];
        let op_fst_byte = fst as u16;
        let op_snd_byte = snd as u16;

        self.program_counter = self.program_counter + 2;

        assert((fst as u16) << 8 | (snd as u16) == ((fst as int * 256 + snd as int) as u16))
            by (bit_vector);
        op_fst_byte << 8 | op_snd_byte
    }

    /// Executes instructions until the halt instruction `0000`. A program
    /// that never halts keeps the machine running forever, and one that
    /// faults panics, so the machine is required to halt.
    pub fn run(&mut self)
        requires
            halts(old(self)@),
        ensures
            final(self)@ == halted_state(old(self)@),
    {
        let ghost n0: nat = choose|n: nat| run_spec(old(self)@, n) is Halted;
        let ghost mut n: nat = n0;
        loop
            invariant
                run_spec(self@, n) == run_spec(old(self)@, n0),
                run_spec(old(self)@, n0) is Halted,
                run_spec(old(self)@, n0)->Halted_0 == halted_state(old(self)@),
            decreases n,
        {
            let opcode = self.read_opcode();
            if self.execute(opcode) {
                return;
            }
            proof {
                n = (n - 1) as nat;
            }
        }
    }

    /// Decodes and executes `opcode`; the program counter already points
    /// past it. Returns whether it was the halt instruction.
    pub fn execute(&mut self, opcode: u16) -> (halted: bool)
        requires
            old(self).program_counter + 2 <= usize::MAX,
            !(execute_spec(old(self)@, opcode) is Fault),
        ensures
            match execute_spec(old(self)@, opcode) {
                Outcome::Halted(t) => halted && final(self)@ == t,
                Outcome::Running(t) => !halted && final(self)@ == t,
                Outcome::Fault => false,
            },
    {
        let c = ((opcode & 0xF000) >> 12) as u8;
        let x = ((opcode & 0x0F00) >> 8) as u8;
        let y = ((opcode & 0x00F0) >> 4) as u8;
        let d = (opcode & 0x000F) as u8;
        let nn = (opcode & 0x00FF) as u8;
        let nnn = opcode & 0x0FFF;
        assert(((opcode & 0xF000) >> 12) == opcode / 4096) by (bit_vector);
        assert(((opcode & 0x0F00) >> 8) == (opcode / 256) % 16) by (bit_vector);
        assert(((opcode & 0x00F0) >> 4) == (opcode / 16) % 16) by (bit_vector);
        assert((opcode & 0x000F) == opcode % 16) by (bit_vector);
        assert((opcode & 0x00FF) == opcode % 256) by (bit_vector);
        assert((opcode & 0x0FFF) == opcode % 4096) by (bit_vector);

        match (c, x, y, d) {
            (0, 0, 0, 0) => {
                return true;
            },
            (0, 0, 0xE, 0xE) => {
                self.ret();
            },
            (0x1, _, _, _) => {
                self.jmp(nnn);
            },
            (0x2, _, _, _) => {
                self.call(nnn);
            },
            (0x3, _, _, _) => {
                self.skip_e(x, nn);
            },
            (0x4, _, _, _) => {
                self.skip_ne(x, nn);
            },
            (0x5, _, _, 0) => {
                self.skip_ve(x, y);
            },
            (0x6, _, _, _) => {
                self.store_in_vx(x, nn);
            },
            (0x7, _, _, _) => {
                self.add_to_vx(x, nn);
            },
            (0x8, _, _, _) => {
                match d {
                    0 => self.store_vy_in_vx(x, y),
                    1 => self.or_xy(x, y),
                    2 => self.and_xy(x, y),
                    3 => self.xor_xy(x, y),
                    4 => self.add_vy_to_vx(x, y),
                    5 => self.sub_vy_from_vx(x, y),
                    // other `8xy_` opcodes are unsupported; the precondition rules them out
                    _ => {},
                }
            },
            // unsupported opcodes; the precondition rules them out
            _ => {},
        }
        false
    }

    /// (00ee) returns from the current subroutine
    pub fn ret(&mut self)
        requires
            0 < old(self).stack_pointer <= 16,
        ensures
            final(self)@ == old(self)@.ret(),
    {
        self.stack_pointer = self.stack_pointer - 1;
        self.program_counter = self.stack[self.stack_pointer] as usize;
    }

    /// (1nnn) jumps to address `addr`
    pub fn jmp(&mut self, addr: u16)
        ensures
            final(self)@ == old(self)@.jmp(addr),
    {
        self.program_counter = addr as usize;
    }

    /// (2nnn) execute subroutine starting at `addr`
    pub fn call(&mut self, addr: u16)
        requires
            old(self).stack_pointer < 16,
        ensures
            final(self)@ == old(self)@.call(addr),
    {
        let sp = self.stack_pointer;
        self.stack[sp] = self.program_counter as u16;
        self.stack_pointer = sp + 1;
        self.program_counter = addr as usize;
    }

    /// (3xnn) skips the following instruction if value of
    /// register `vx` is equal to `nn`
    pub fn skip_e(&mut self, vx: u8, nn: u8)
        requires
            vx < 16,
            old(self).program_counter + 2 <= usize::MAX,
        ensures
            final(self)@ == old(self)@.skip_if(old(self)@.registers[vx as int] == nn),
    {
        if self.registers[vx as usize] == nn {
            self.program_counter = self.program_counter + 2;
        }
    }

    /// (4xnn) skips the following instruction if value of
    /// register `vx` is not equal to `nn`
    pub fn skip_ne(&mut self, vx: u8, nn: u8)
        requires
            vx < 16,
            old(self).program_counter + 2 <= usize::MAX,
        ensures
            final(self)@ == old(self)@.skip_if(old(self)@.registers[vx as int] != nn),
    {
        if self.registers[vx as usize] != nn {
            self.program_counter = self.program_counter + 2;
        }
    }

    /// (5xy0) skips the following instruction if the value of
    /// register `vx` is equal to the value of register `vy`
    pub fn skip_ve(&mut self, vx: u8, vy: u8)
        requires
            vx < 16,
            vy < 16,
            old(self).program_counter + 2 <= usize::MAX,
        ensures
            final(self)@ == old(self)@.skip_if(
                old(self)@.registers[vx as int] == old(self)@.registers[vy as int],
            ),
    {
        if self.registers[vx as usize] == self.registers[vy as usize] {
            self.program_counter = self.program_counter + 2;
        }
    }

    /// (6xnn) stores `nn` in register `vx`
    pub fn store_in_vx(&mut self, vx: u8, nn: u8)
        requires
            vx < 16,
        ensures
            final(self)@ == old(self)@.with_register(vx as int, nn),
    {
        self.registers[vx as usize] = nn;
    }

    /// (7xnn) adds the value `nn` into register `vx`
    pub fn add_to_vx(&mut self, vx: u8, nn: u8)
        requires
            vx < 16,
            old(self)@.registers[vx as int] + nn <= 255,
        ensures
            final(self)@ == old(self)@.with_register(
                vx as int,
                (old(self)@.registers[vx as int] + nn) as u8,
            ),
    {
        let v = self.registers[vx as usize];
        self.registers[vx as usize] = v + nn;
    }

    /// (8xy0) stores the value of register `vy` in register `vx`
    pub fn store_vy_in_vx(&mut self, vx: u8, vy: u8)
        requires
            vx < 16,
            vy < 16,
        ensures
            final(self)@ == old(self)@.with_register(vx as int, old(self)@.registers[vy as int]),
    {
        self.registers[vx as usize] = self.registers[vy as usize];
    }

    /// (8xy1) set the value of `vx` to
    /// the value of `vx` OR the value of `vy`
    pub fn or_xy(&mut self, vx: u8, vy: u8)
        requires
            vx < 16,
            vy < 16,
        ensures
            final(self)@ == old(self)@.with_register(
                vx as int,
                old(self)@.registers[vx as int] | old(self)@.registers[vy as int],
            ),
    {
        let x = self.registers[vx as usize];
        let y = self.registers[vy as usize];

        self.registers[vx as usize] = x | y;
    }

    /// (8xy2) set the value of `vx` to
    /// the value of `vx` AND the value of `vy`
    pub fn and_xy(&mut self, vx: u8, vy: u8)
        requires
            vx < 16,
            vy < 16,
        ensures
            final(self)@ == old(self)@.with_register(
                vx as int,
                old(self)@.registers[vx as int] & old(self)@.registers[vy as int],
            ),
    {
        let x = self.registers[vx as usize];
        let y = self.registers[vy as usize];

        self.registers[vx as usize] = x & y;
    }

    /// (8xy3) set the value of `vx` to
    /// the value of `vx` XOR the value of `vy`
    pub fn xor_xy(&mut self, vx: u8, vy: u8)
        requires
            vx < 16,
            vy < 16,
        ensures
            final(self)@ == old(self)@.with_register(
                vx as int,
                old(self)@.registers[vx as int] ^ old(self)@.registers[vy as int],
            ),
    {
        let x = self.registers[vx as usize];
        let y = self.registers[vy as usize];

        self.registers[vx as usize] = x ^ y;
    }

    /// (8xy4) adds value in register `vy` into register `vx`.
    /// Set `vf` to 01 if a carry occurs, otherwise, set `vf` to 00
    pub fn add_vy_to_vx(&mut self, vx: u8, vy: u8)
        requires
            vx < 16,
            vy < 16,
        ensures
            final(self)@ == old(self)@.add_xy(vx as int, vy as int),
    {
        let x = self.registers[vx as usize];
        let y = self.registers[vy as usize];

        let res = x.wrapping_add(y);
        let carried = res < x;

        if carried {
            self.registers[0xF] = 0x01;
        } else {
            self.registers[0xF] = 0x00;
        }
        self.registers[vx as usize] = res;
    }

    /// (8xy5) subtract value in register `vy` from register `vx`.
    /// Set `vf` to 00 if a borrow occurs, otherwise, set `vf` to 01
    pub fn sub_vy_from_vx(&mut self, vx: u8, vy: u8)
        requires
            vx < 16,
            vy < 16,
        ensures
            final(self)@ == old(self)@.sub_xy(vx as int, vy as int),
    {
        let x = self.registers[vx as usize];
        let y = self.registers[vy as usize];

        let res = x.wrapping_sub(y);
        let borrowed = x < y;

        if borrowed {
            self.registers[0xF] = 0x00;
        } else {
            self.registers[0xF] = 0x01;
        }
        self.registers[vx as usize] = res;
    }
}

} // verus!
