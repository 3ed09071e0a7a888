//! Execution engine: the register file, the segment store, and the
//! fetch-decode-execute cycle.
//!
//! The machine owns eight 32-bit registers, a store of word-addressed memory
//! segments, and a program counter. Segment 0 is reserved: it always holds the
//! currently executing program and is never unmapped, only replaced wholesale.
//! Freed segment identifiers go to a pool and the most recently freed one is
//! reused first; a fresh identifier is minted, strictly increasing from 1,
//! only when the pool is empty.
//!
//! One call of [`Machine::step`] performs one cycle: fetch the word of
//! segment 0 at the counter, advance the counter, decode, dispatch. The step
//! never performs I/O itself: output hands the byte to the caller, and input
//! asks the caller for a byte, delivered through [`Machine::supply_input`].
//! Every cycle's exact meaning is the mathematical function [`machine_step`]
//! on the machine's model.

use vstd::prelude::*;

verus! {

use crate::rumdis::{decode, spec_decode, Instruction, lemma_spec_decode_wf};
use vstd::arithmetic::mul::lemma_mul_upper_bound;

/// A fatal machine fault; it ends the run abnormally, with no recovery.
#[derive(Debug, Clone, Copy, PartialEq, Eq, Structural)]
pub enum Fault {
    /// A segment identifier that is not currently mapped — or, for unmapping,
    /// the reserved program segment 0.
    UnmappedSegment,
    /// A segment offset out of bounds, including a program counter outside
    /// segment 0.
    OutOfBounds,
    /// A division whose divisor register holds 0.
    DivisionByZero,
    /// An output value that exceeds one byte.
    OutputTooLarge,
    /// Every 32-bit identifier is mapped and none is free; no segment can be
    /// allocated. A machine limit: identifiers are single words.
    IdentifiersExhausted,
}

/// What one execution cycle asks of its surroundings.
#[derive(Debug, Clone, Copy, PartialEq, Eq, Structural)]
pub enum StepResult {
    /// The cycle retired with no outside effect; fetch the next instruction.
    Continue,
    /// The machine halted cleanly; no further cycles run.
    Halted,
    /// Emit one byte, value 0 to 255, on the output stream; then continue.
    Output(u8),
    /// The machine waits for one byte of input for the given register. Hand
    /// the byte — or the end of the stream — to [`Machine::supply_input`],
    /// then continue.
    AwaitInput(u32),
    /// The run ends abnormally.
    Fault(Fault),
}

/// The mathematical state of the machine: the eight registers, the segment
/// store (`None` marks an unmapped identifier), the pool of freed identifiers
/// with the most recently freed last, and the program counter.
#[verifier::ext_equal]
pub struct MachineModel {
    pub regs: Seq<u32>,
    pub mem: Seq<Option<Seq<u32>>>,
    pub pool: Seq<u32>,
    pub pc: u32,
}

impl MachineModel {
    /// Well-formedness: eight registers; segment 0 exists and is mapped; at
    /// most `2^32` identifiers exist; and the free pool holds exactly the
    /// unmapped identifiers, each once, never identifier 0 — so an identifier
    /// is mapped or pooled, never both.
    pub open spec fn wf(self) -> bool {
        &&& self.regs.len() == 8
        &&& 1 <= self.mem.len() <= 0x1_0000_0000
        &&& self.mem[0] is Some
        &&& (forall|i: int|
            0 <= i < self.pool.len() ==> 1 <= (#[trigger] self.pool[i]) as int
                && ((self.pool[i]) as int) < self.mem.len())
        &&& (forall|i: int|
            0 <= i < self.pool.len() ==> self.mem[(#[trigger] self.pool[i]) as int] is None)
        &&& (forall|j: int|
            1 <= j < self.mem.len() && self.mem[j] is None ==> self.pool.contains(j as u32))
        &&& (forall|i: int, k: int|
            0 <= i < k < self.pool.len() ==> #[trigger] self.pool[i] != #[trigger] self.pool[k])
    }

    /// The contents of segment 0, the program under execution.
    pub open spec fn program(self) -> Seq<u32>
        recommends
            self.wf(),
    {
        self.mem[0]->Some_0
    }
}

/// A segment of `count` words, all zero.
pub open spec fn zero_segment(count: u32) -> Seq<u32> {
    Seq::new(count as nat, |i: int| 0u32)
}

impl MachineModel {
    /// Allocation: reuse the most recently freed identifier if the pool is
    /// non-empty, otherwise mint the next fresh one; either way the identifier
    /// maps a segment of exactly `count` zero words afterwards. Fails only
    /// when every identifier is mapped.
    pub open spec fn alloc_segment(self, count: u32) -> (MachineModel, Result<u32, Fault>)
        recommends
            self.wf(),
    {
        if self.pool.len() > 0 {
            let id = self.pool.last();
            (
                MachineModel {
                    mem: self.mem.update(id as int, Some(zero_segment(count))),
                    pool: self.pool.drop_last(),
                    ..self
                },
                Ok(id),
            )
        } else if self.mem.len() < 0x1_0000_0000 {
            let id = self.mem.len() as u32;
            (MachineModel { mem: self.mem.push(Some(zero_segment(count))), ..self }, Ok(id))
        } else {
            (self, Err(Fault::IdentifiersExhausted))
        }
    }

    /// Deallocation: unmap `id` and return it to the pool. Fails on
    /// identifier 0 and on an identifier that is not currently mapped.
    pub open spec fn dealloc(self, id: u32) -> (MachineModel, Result<(), Fault>)
        recommends
            self.wf(),
    {
        if id == 0 || self.mem.len() <= id as int || self.mem[id as int] is None {
            (self, Err(Fault::UnmappedSegment))
        } else {
            (
                MachineModel {
                    mem: self.mem.update(id as int, None),
                    pool: self.pool.push(id),
                    ..self
                },
                Ok(()),
            )
        }
    }

    /// The word of segment `id` at `offset`. Fails on an unmapped identifier
    /// and on an offset out of bounds.
    pub open spec fn read_word(self, id: u32, offset: u32) -> Result<u32, Fault>
        recommends
            self.wf(),
    {
        if self.mem.len() <= id as int || self.mem[id as int] is None {
            Err(Fault::UnmappedSegment)
        } else if self.mem[id as int]->Some_0.len() <= offset as int {
            Err(Fault::OutOfBounds)
        } else {
            Ok(self.mem[id as int]->Some_0[offset as int])
        }
    }

    /// Writes `value` into segment `id` at `offset`, with the same validity
    /// conditions as [`MachineModel::read_word`].
    pub open spec fn write_word(self, id: u32, offset: u32, value: u32) -> (
        MachineModel,
        Result<(), Fault>,
    )
        recommends
            self.wf(),
    {
        if self.mem.len() <= id as int || self.mem[id as int] is None {
            (self, Err(Fault::UnmappedSegment))
        } else if self.mem[id as int]->Some_0.len() <= offset as int {
            (self, Err(Fault::OutOfBounds))
        } else {
            (
                MachineModel {
                    mem: self.mem.update(
                        id as int,
                        Some(self.mem[id as int]->Some_0.update(offset as int, value)),
                    ),
                    ..self
                },
                Ok(()),
            )
        }
    }

    /// Replaces segment 0 wholesale by a copy of the current contents of
    /// segment `id`; `id` stays mapped and unchanged. Fails on an unmapped
    /// identifier. Copying segment 0 onto itself changes nothing.
    pub open spec fn load_seg0(self, id: u32) -> (MachineModel, Result<(), Fault>)
        recommends
            self.wf(),
    {
        if self.mem.len() <= id as int || self.mem[id as int] is None {
            (self, Err(Fault::UnmappedSegment))
        } else {
            (MachineModel { mem: self.mem.update(0, self.mem[id as int]), ..self }, Ok(()))
        }
    }
}

/// Allocation preserves well-formedness, and the identifier it returns is not
/// mapped beforehand — it is associated with no other live segment.
pub proof fn lemma_alloc_wf(m: MachineModel, count: u32)
    requires
        m.wf(),
    ensures
        m.alloc_segment(count).0.wf(),
        m.alloc_segment(count).1 matches Ok(id) ==> m.mem.len() <= id as int || m.mem[id as int] is None,
{
    let (m2, r) = m.alloc_segment(count);
    if m.pool.len() > 0 {
        let id = m.pool.last();
        assert(m.pool[m.pool.len() - 1] == id);
        assert forall|j: int| 1 <= j < m2.mem.len() && m2.mem[j] is None implies m2.pool.contains(
            j as u32,
        ) by {
            assert(m.mem[j] is None);
            assert(m.pool.contains(j as u32));
            let k = choose|k: int| 0 <= k < m.pool.len() && m.pool[k] == j as u32;
            assert(k != m.pool.len() - 1);
            assert(m2.pool[k] == j as u32);
        }
    }
}

/// Deallocation preserves well-formedness.
pub proof fn lemma_dealloc_wf(m: MachineModel, id: u32)
    requires
        m.wf(),
    ensures
        m.dealloc(id).0.wf(),
{
    let (m2, r) = m.dealloc(id);
    if !(id == 0 || m.mem.len() <= id as int || m.mem[id as int] is None) {
        assert forall|j: int| 1 <= j < m2.mem.len() && m2.mem[j] is None implies m2.pool.contains(
            j as u32,
        ) by {
            if j == id as int {
                assert(m2.pool[m2.pool.len() - 1] == id);
            } else {
                assert(m.pool.contains(j as u32));
                let k = choose|k: int| 0 <= k < m.pool.len() && m.pool[k] == j as u32;
                assert(m2.pool[k] == j as u32);
            }
        }
        assert forall|i: int, k: int| 0 <= i < k < m2.pool.len() implies m2.pool[i]
            != m2.pool[k] by {
            if k == m2.pool.len() - 1 {
                assert(m.mem[m.pool[i] as int] is None);
            }
        }
    }
}

/// Writing a mapped word preserves well-formedness.
pub proof fn lemma_write_word_wf(m: MachineModel, id: u32, offset: u32, value: u32)
    requires
        m.wf(),
    ensures
        m.write_word(id, offset, value).0.wf(),
{
}

/// Replacing the program segment preserves well-formedness.
pub proof fn lemma_load_seg0_wf(m: MachineModel, id: u32)
    requires
        m.wf(),
    ensures
        m.load_seg0(id).0.wf(),
{
    let (m2, r) = m.load_seg0(id);
    if !(m.mem.len() <= id as int || m.mem[id as int] is None) {
        assert forall|j: int| 1 <= j < m2.mem.len() && m2.mem[j] is None implies m2.pool.contains(
            j as u32,
        ) by {
            assert(m.mem[j] is None);
        }
    }
}

/// The program counter after a fetch: incremented, wrapping as a 32-bit word.
pub open spec fn wrap_inc(pc: u32) -> u32 {
    if pc == 0xffff_ffffu32 {
        0u32
    } else {
        (pc + 1) as u32
    }
}

/// The register value an input byte becomes: the byte zero-extended, or the
/// all-ones end-of-stream sentinel.
pub open spec fn input_word(byte: Option<u8>) -> u32 {
    match byte {
        Some(b) => b as u32,
        None => 0xffff_ffffu32,
    }
}

/// One cycle of the engine on the machine's model: fetch the word of
/// segment 0 at the counter — faulting, with the machine unchanged, if the
/// counter is out of bounds — then advance the counter, decode, and apply the
/// operation's semantics. Addition and multiplication wrap modulo `2^32`;
/// division is unsigned integer division; an unrecognized opcode is inert.
pub open spec fn machine_step(pre: MachineModel) -> (MachineModel, StepResult)
    recommends
        pre.wf(),
{
    if pre.program().len() <= pre.pc as int {
        (pre, StepResult::Fault(Fault::OutOfBounds))
    } else {
        let inst = pre.program()[pre.pc as int];
        let m = MachineModel { pc: wrap_inc(pre.pc), ..pre };
        match spec_decode(inst) {
            Instruction::Cmov { a, b, c } => {
                if m.regs[c as int] != 0 {
                    (
                        MachineModel { regs: m.regs.update(a as int, m.regs[b as int]), ..m },
                        StepResult::Continue,
                    )
                } else {
                    (m, StepResult::Continue)
                }
            },
            Instruction::Load { a, b, c } => {
                match m.read_word(m.regs[b as int], m.regs[c as int]) {
                    Ok(w) => (
                        MachineModel { regs: m.regs.update(a as int, w), ..m },
                        StepResult::Continue,
                    ),
                    Err(f) => (m, StepResult::Fault(f)),
                }
            },
            Instruction::Store { a, b, c } => {
                let (m2, r) = m.write_word(m.regs[a as int], m.regs[b as int], m.regs[c as int]);
                match r {
                    Ok(_) => (m2, StepResult::Continue),
                    Err(f) => (m2, StepResult::Fault(f)),
                }
            },
            Instruction::Add { a, b, c } => {
                (
                    MachineModel {
                        regs: m.regs.update(
                            a as int,
                            ((m.regs[b as int] + m.regs[c as int]) % 0x1_0000_0000) as u32,
                        ),
                        ..m
                    },
                    StepResult::Continue,
                )
            },
            Instruction::Mul { a, b, c } => {
                (
                    MachineModel {
                        regs: m.regs.update(
                            a as int,
                            ((m.regs[b as int] * m.regs[c as int]) % 0x1_0000_0000) as u32,
                        ),
                        ..m
                    },
                    StepResult::Continue,
                )
            },
            Instruction::Div { a, b, c } => {
                if m.regs[c as int] == 0 {
                    (m, StepResult::Fault(Fault::DivisionByZero))
                } else {
                    (
                        MachineModel {
                            regs: m.regs.update(
                                a as int,
                                (m.regs[b as int] / m.regs[c as int]) as u32,
                            ),
                            ..m
                        },
                        StepResult::Continue,
                    )
                }
            },
            Instruction::Nand { a, b, c } => {
                (
                    MachineModel {
                        regs: m.regs.update(a as int, !(m.regs[b as int] & m.regs[c as int])),
                        ..m
                    },
                    StepResult::Continue,
                )
            },
            Instruction::Halt => (m, StepResult::Halted),
            Instruction::MapSegment { b, c } => {
                let (m2, r) = m.alloc_segment(m.regs[c as int]);
                match r {
                    Ok(id) => (
                        MachineModel { regs: m2.regs.update(b as int, id), ..m2 },
                        StepResult::Continue,
                    ),
                    Err(f) => (m2, StepResult::Fault(f)),
                }
            },
            Instruction::UnmapSegment { c } => {
                let (m2, r) = m.dealloc(m.regs[c as int]);
                match r {
                    Ok(_) => (m2, StepResult::Continue),
                    Err(f) => (m2, StepResult::Fault(f)),
                }
            },
            Instruction::Output { c } => {
                if m.regs[c as int] > 255 {
                    (m, StepResult::Fault(Fault::OutputTooLarge))
                } else {
                    (m, StepResult::Output(m.regs[c as int] as u8))
                }
            },
            Instruction::Input { c } => (m, StepResult::AwaitInput(c)),
            Instruction::LoadProgram { b, c } => {
                if m.regs[b as int] == 0 {
                    (MachineModel { pc: m.regs[c as int], ..m }, StepResult::Continue)
                } else {
                    let (m2, r) = m.load_seg0(m.regs[b as int]);
                    match r {
                        Ok(_) => (
                            MachineModel { pc: m.regs[c as int], ..m2 },
                            StepResult::Continue,
                        ),
                        Err(f) => (m2, StepResult::Fault(f)),
                    }
                }
            },
            Instruction::LoadValue { reg, value } => {
                (
                    MachineModel { regs: m.regs.update(reg as int, value), ..m },
                    StepResult::Continue,
                )
            },
            Instruction::Unrecognized { raw: _ } => (m, StepResult::Continue),
        }
    }
}

/// One cycle preserves well-formedness.
pub proof fn lemma_machine_step_wf(pre: MachineModel)
    requires
        pre.wf(),
    ensures
        machine_step(pre).0.wf(),
{
    if (pre.pc as int) < pre.program().len() {
        let inst = pre.program()[pre.pc as int];
        let m = MachineModel { pc: wrap_inc(pre.pc), ..pre };
        lemma_spec_decode_wf(inst);
        match spec_decode(inst) {
            Instruction::Store { a, b, c } => {
                lemma_write_word_wf(m, m.regs[a as int], m.regs[b as int], m.regs[c as int]);
            },
            Instruction::MapSegment { b, c } => {
                lemma_alloc_wf(m, m.regs[c as int]);
            },
            Instruction::UnmapSegment { c } => {
                lemma_dealloc_wf(m, m.regs[c as int]);
            },
            Instruction::LoadProgram { b, c } => {
                lemma_load_seg0_wf(m, m.regs[b as int]);
            },
            _ => {},
        }
    }
}

/// A vector of `count` zero words.
fn zero_words(count: u32) -> (v: Vec<u32>)
    ensures
        v@ == zero_segment(count),
{
    let mut v: Vec<u32> = Vec::new();
    while v.len() < count as usize
        invariant
            v@.len() <= count as nat,
            forall|i: int| 0 <= i < v@.len() ==> v@[i] == 0u32,
        decreases count as int - v@.len(),
    {
        v.push(0);
    }
    proof {
        assert(v@ =~= zero_segment(count));
    }
    v
}

/// A copy of the given words.
fn copy_words(source: &Vec<u32>) -> (v: Vec<u32>)
    ensures
        v@ == source@,
{
    let mut v: Vec<u32> = Vec::new();
    let mut k: usize = 0;
    while k < source.len()
        invariant
            k <= source@.len(),
            v@ == source@.subrange(0, k as int),
        decreases source@.len() - k,
    {
        v.push(source[k]);
        k = k + 1;
        proof {
            assert(v@ =~= source@.subrange(0, k as int));
        }
    }
    proof {
        assert(v@ =~= source@);
    }
    v
}

/// The machine: the register file, the segment store and the program counter,
/// bundled as one exclusively owned aggregate.
pub struct Machine {
    registers: Vec<u32>,
    memory: Vec<Option<Vec<u32>>>,
    identifiers: Vec<u32>,
    counter: u32,
}

impl View for Machine {
    type V = MachineModel;

    closed spec fn view(&self) -> MachineModel {
        MachineModel {
            regs: self.registers@,
            mem: Seq::new(
                self.memory@.len(),
                |i: int|
                    match self.memory@[i] {
                        Some(seg) => Some(seg@),
                        None => None,
                    },
            ),
            pool: self.identifiers@,
            pc: self.counter,
        }
    }
}

impl Machine {
    /// A fresh machine: all registers zero, the given program as segment 0,
    /// an empty free pool, and the counter at the first word.
    pub fn new(program: Vec<u32>) -> (m: Machine)
        ensures
            m@.wf(),
            m@.regs == Seq::new(8, |i: int| 0u32),
            m@.mem == seq![Some(program@)],
            m@.pool == Seq::<u32>::empty(),
            m@.pc == 0,
    {
        let mut registers: Vec<u32> = Vec::new();
        let mut k: usize = 0;
        while k < 8
            invariant
                k <= 8,
                registers@.len() == k,
                forall|i: int| 0 <= i < k ==> registers@[i] == 0u32,
            decreases 8 - k,
        {
            registers.push(0);
            k = k + 1;
        }
        let mut memory: Vec<Option<Vec<u32>>> = Vec::new();
        memory.push(Some(program));
        let m = Machine { registers, memory, identifiers: Vec::new(), counter: 0 };
        proof {
            assert(m@.regs =~= Seq::new(8, |i: int| 0u32));
            assert(m@.mem =~= seq![Some(m.memory@[0]->Some_0@)]);
        }
        m
    }

    /// The value of register `index`.
    pub fn get_register(&self, index: u32) -> (r: u32)
        requires
            self@.wf(),
            index < 8,
        ensures
            r == self@.regs[index as int],
    {
        self.registers[index as usize]
    }

    /// Allocates a segment of exactly `word_count` words, all zero, and
    /// returns its identifier: the most recently freed one if any identifier
    /// is free, otherwise a fresh, strictly increasing one. The returned
    /// identifier was associated with no live segment beforehand.
    pub fn allocate(&mut self, word_count: u32) -> (r: Result<u32, Fault>)
        requires
            old(self)@.wf(),
        ensures
            final(self)@.wf(),
            (final(self)@, r) == old(self)@.alloc_segment(word_count),
    {
        proof {
            lemma_alloc_wf(old(self)@, word_count);
        }
        let seg = zero_words(word_count);
        if self.identifiers.len() > 0 {
            let id = match self.identifiers.pop() {
                Some(id) => id,
                None => 0,
            };
            self.memory[id as usize] = Some(seg);
            proof {
                assert(self@.mem =~= old(self)@.mem.update(
                    id as int,
                    Some(zero_segment(word_count)),
                ));
                assert(self@ =~= old(self)@.alloc_segment(word_count).0);
            }
            Ok(id)
        } else if self.memory.len() <= (u32::MAX as usize) {
            let id = self.memory.len() as u32;
            self.memory.push(Some(seg));
            proof {
                assert(self@.mem =~= old(self)@.mem.push(Some(zero_segment(word_count))));
                assert(self@ =~= old(self)@.alloc_segment(word_count).0);
            }
            Ok(id)
        } else {
            proof {
                assert(self@ =~= old(self)@.alloc_segment(word_count).0);
            }
            Err(Fault::IdentifiersExhausted)
        }
    }

    /// Unmaps segment `id` and returns the identifier to the free pool.
    /// Fails, with the machine unchanged, on identifier 0 and on an identifier
    /// that is not currently mapped.
    pub fn free(&mut self, id: u32) -> (r: Result<(), Fault>)
        requires
            old(self)@.wf(),
        ensures
            final(self)@.wf(),
            (final(self)@, r) == old(self)@.dealloc(id),
    {
        proof {
            lemma_dealloc_wf(old(self)@, id);
        }
        if id != 0 && (id as usize) < self.memory.len() && self.memory[id as usize].is_some() {
            self.memory[id as usize] = None;
            self.identifiers.push(id);
            proof {
                assert(self@.mem =~= old(self)@.mem.update(id as int, None::<Seq<u32>>));
                assert(self@ =~= old(self)@.dealloc(id).0);
            }
            Ok(())
        } else {
            proof {
                assert(self@ =~= old(self)@.dealloc(id).0);
            }
            Err(Fault::UnmappedSegment)
        }
    }

    /// The word of segment `id` at `offset`. Fails on an unmapped identifier
    /// and on an offset out of bounds; the machine is never changed.
    pub fn read(&self, id: u32, offset: u32) -> (r: Result<u32, Fault>)
        requires
            self@.wf(),
        ensures
            r == self@.read_word(id, offset),
    {
        if (id as usize) < self.memory.len() {
            match &self.memory[id as usize] {
                Some(seg) => {
                    if (offset as usize) < seg.len() {
                        Ok(seg[offset as usize])
                    } else {
                        Err(Fault::OutOfBounds)
                    }
                },
                None => Err(Fault::UnmappedSegment),
            }
        } else {
            Err(Fault::UnmappedSegment)
        }
    }

    /// Writes `value` into segment `id` at `offset`, with the same validity
    /// conditions as [`Machine::read`]. Fails with the machine unchanged.
    pub fn write(&mut self, id: u32, offset: u32, value: u32) -> (r: Result<(), Fault>)
        requires
            old(self)@.wf(),
        ensures
            final(self)@.wf(),
            (final(self)@, r) == old(self)@.write_word(id, offset, value),
    {
        proof {
            lemma_write_word_wf(old(self)@, id, offset, value);
        }
        if (id as usize) < self.memory.len() {
            match &mut self.memory[id as usize] {
                Some(seg) => {
                    if (offset as usize) < seg.len() {
                        seg[offset as usize] = value;
                        proof {
                            assert(self@.mem =~= old(self)@.write_word(id, offset, value).0.mem);
                            assert(self@ =~= old(self)@.write_word(id, offset, value).0);
                        }
                        Ok(())
                    } else {
                        proof {
                            assert(self@ =~= old(self)@.write_word(id, offset, value).0);
                        }
                        Err(Fault::OutOfBounds)
                    }
                },
                None => {
                    proof {
                        assert(self@ =~= old(self)@.write_word(id, offset, value).0);
                    }
                    Err(Fault::UnmappedSegment)
                },
            }
        } else {
            proof {
                assert(self@ =~= old(self)@.write_word(id, offset, value).0);
            }
            Err(Fault::UnmappedSegment)
        }
    }

    /// Copies the full current contents of segment `id` into segment 0,
    /// discarding segment 0's old contents; segment `id` itself is unchanged.
    /// Fails, with the machine unchanged, on an unmapped identifier.
    pub fn replace_program(&mut self, id: u32) -> (r: Result<(), Fault>)
        requires
            old(self)@.wf(),
        ensures
            final(self)@.wf(),
            (final(self)@, r) == old(self)@.load_seg0(id),
    {
        proof {
            lemma_load_seg0_wf(old(self)@, id);
        }
        if (id as usize) < self.memory.len() {
            let duplicate = match &self.memory[id as usize] {
                Some(seg) => Some(copy_words(seg)),
                None => None,
            };
            match duplicate {
                Some(seg) => {
                    self.memory[0] = Some(seg);
                    proof {
                        assert(self@.mem =~= old(self)@.load_seg0(id).0.mem);
                        assert(self@ =~= old(self)@.load_seg0(id).0);
                    }
                    Ok(())
                },
                None => {
                    proof {
                        assert(self@ =~= old(self)@.load_seg0(id).0);
                    }
                    Err(Fault::UnmappedSegment)
                },
            }
        } else {
            proof {
                assert(self@ =~= old(self)@.load_seg0(id).0);
            }
            Err(Fault::UnmappedSegment)
        }
    }

    /// Performs one execution cycle and reports what it asks of the caller:
    /// nothing (`Continue`), a clean halt, one byte to emit, one byte of input
    /// to deliver through [`Machine::supply_input`], or a fatal fault. The
    /// machine after the call and the result are exactly what [`machine_step`]
    /// gives on the machine's model.
    pub fn step(&mut self) -> (r: StepResult)
        requires
            old(self)@.wf(),
        ensures
            final(self)@.wf(),
            (final(self)@, r) == machine_step(old(self)@),
    {
        proof {
            lemma_machine_step_wf(old(self)@);
        }
        let pc = self.counter;
        let inst = match self.read(0, pc) {
            Ok(w) => w,
            Err(_) => {
                return StepResult::Fault(Fault::OutOfBounds);
            },
        };
        let ghost pre = old(self)@;
        let ghost m = MachineModel { pc: wrap_inc(pre.pc), ..pre };
        self.counter = if pc == u32::MAX {
            0
        } else {
            pc + 1
        };
        proof {
            assert(self@ =~= m);
            lemma_spec_decode_wf(inst);
        }
        match decode(inst) {
            Instruction::Cmov { a, b, c } => {
                if self.get_register(c) != 0 {
                    let v = self.get_register(b);
                    self.set_register(a, v);
                    proof {
                        assert(self@ =~= machine_step(pre).0);
                    }
                }
                StepResult::Continue
            },
            Instruction::Load { a, b, c } => {
                let id = self.get_register(b);
                let offset = self.get_register(c);
                match self.read(id, offset) {
                    Ok(w) => {
                        self.set_register(a, w);
                        proof {
                            assert(self@ =~= machine_step(pre).0);
                        }
                        StepResult::Continue
                    },
                    Err(fault) => StepResult::Fault(fault),
                }
            },
            Instruction::Store { a, b, c } => {
                let id = self.get_register(a);
                let offset = self.get_register(b);
                let value = self.get_register(c);
                match self.write(id, offset, value) {
                    Ok(_) => StepResult::Continue,
                    Err(fault) => StepResult::Fault(fault),
                }
            },
            Instruction::Add { a, b, c } => {
                let x = self.get_register(b);
                let y = self.get_register(c);
                let sum = ((x as u64 + y as u64) % 0x1_0000_0000u64) as u32;
                self.set_register(a, sum);
                proof {
                    assert(self@ =~= machine_step(pre).0);
                }
                StepResult::Continue
            },
            Instruction::Mul { a, b, c } => {
                let x = self.get_register(b);
                let y = self.get_register(c);
                proof {
                    lemma_mul_upper_bound(x as int, 0xffff_ffff, y as int, 0xffff_ffff);
                }
                let product = ((x as u64) * (y as u64)) % 0x1_0000_0000u64;
                self.set_register(a, product as u32);
                proof {
                    assert(self@ =~= machine_step(pre).0);
                }
                StepResult::Continue
            },
            Instruction::Div { a, b, c } => {
                let divisor = self.get_register(c);
                if divisor == 0 {
                    StepResult::Fault(Fault::DivisionByZero)
                } else {
                    let quotient = self.get_register(b) / divisor;
                    self.set_register(a, quotient);
                    proof {
                        assert(self@ =~= machine_step(pre).0);
                    }
                    StepResult::Continue
                }
            },
            Instruction::Nand { a, b, c } => {
                let x = self.get_register(b);
                let y = self.get_register(c);
                self.set_register(a, !(x & y));
                proof {
                    assert(self@ =~= machine_step(pre).0);
                }
                StepResult::Continue
            },
            Instruction::Halt => StepResult::Halted,
            Instruction::MapSegment { b, c } => {
                let count = self.get_register(c);
                match self.allocate(count) {
                    Ok(id) => {
                        self.set_register(b, id);
                        proof {
                            assert(self@ =~= machine_step(pre).0);
                        }
                        StepResult::Continue
                    },
                    Err(fault) => StepResult::Fault(fault),
                }
            },
            Instruction::UnmapSegment { c } => {
                let id = self.get_register(c);
                match self.free(id) {
                    Ok(_) => StepResult::Continue,
                    Err(fault) => StepResult::Fault(fault),
                }
            },
            Instruction::Output { c } => {
                let value = self.get_register(c);
                if value > 255 {
                    StepResult::Fault(Fault::OutputTooLarge)
                } else {
                    StepResult::Output(value as u8)
                }
            },
            Instruction::Input { c } => StepResult::AwaitInput(c),
            Instruction::LoadProgram { b, c } => {
                let id = self.get_register(b);
                let next_pc = self.get_register(c);
                if id == 0 {
                    self.counter = next_pc;
                    proof {
                        assert(self@ =~= machine_step(pre).0);
                    }
                    StepResult::Continue
                } else {
                    match self.replace_program(id) {
                        Ok(_) => {
                            self.counter = next_pc;
                            proof {
                                assert(self@ =~= machine_step(pre).0);
                            }
                            StepResult::Continue
                        },
                        Err(fault) => StepResult::Fault(fault),
                    }
                }
            },
            Instruction::LoadValue { reg, value } => {
                self.set_register(reg, value);
                proof {
                    assert(self@ =~= machine_step(pre).0);
                }
                StepResult::Continue
            },
            Instruction::Unrecognized { raw: _ } => StepResult::Continue,
        }
    }

    /// Delivers the byte a pending input asked for — `None` at the end of the
    /// input stream — into register `reg`: the machine continues with that
    /// register holding the byte zero-extended, or the all-ones end-of-stream
    /// sentinel.
    pub fn supply_input(&mut self, reg: u32, byte: Option<u8>)
        requires
            old(self)@.wf(),
            reg < 8,
        ensures
            final(self)@.wf(),
            final(self)@ == (MachineModel {
                regs: old(self)@.regs.update(reg as int, input_word(byte)),
                ..old(self)@
            }),
    {
        let value = match byte {
            Some(b) => b as u32,
            None => 0xffff_ffffu32,
        };
        self.set_register(reg, value);
    }

    /// Writes `value` into register `index`.
    fn set_register(&mut self, index: u32, value: u32)
        requires
            old(self)@.wf(),
            index < 8,
        ensures
            final(self)@ == (MachineModel {
                regs: old(self)@.regs.update(index as int, value),
                ..old(self)@
            }),
            final(self)@.wf(),
    {
        self.registers[index as usize] = value;
        proof {
            assert(self@.mem =~= old(self)@.mem);
        }
    }
}

} // verus!
