//! The arithmetic unit: addition, subtraction and multiplication on 32-bit
//! values, each with its latency.

use crate::bus::BusAccess;
use crate::decoder::{str_eq, FormatView, InstFormat, SyntaxType};
use crate::display::occupancy;
use crate::error::{Error, IssueError};
use crate::execution_path::{
    accepts, advanced_slot, views, writes_back, ArgVal, Conduct, ExecPath, ExecResult, RStag,
    SlotView, UnitView,
};
use crate::result_bus::ResultBus;
use crate::station::{operand_value, planned, Station, Verdict};
use vstd::prelude::*;

verus! {

/// The number of slots of a unit.
pub const SLOTS: usize = 4;

/// What the unit computes.
#[derive(Clone, Copy, Debug, PartialEq, Eq, Structural)]
pub enum Operation {
    Add,
    Sub,
    Mul,
}

/// The operation of a mnemonic: `add` and `addi` add, `sub` and `subi`
/// subtract, `mul` and `muli` multiply.
pub open spec fn operation_of(mnemonic: Seq<char>) -> Option<Operation> {
    if mnemonic == "add"@ || mnemonic == "addi"@ {
        Some(Operation::Add)
    } else if mnemonic == "sub"@ || mnemonic == "subi"@ {
        Some(Operation::Sub)
    } else if mnemonic == "mul"@ || mnemonic == "muli"@ {
        Some(Operation::Mul)
    } else {
        None
    }
}

/// The number of cycles that an operation takes once its operands are
/// ready.
pub open spec fn latency(operation: Operation) -> u8 {
    match operation {
        Operation::Add => 1,
        Operation::Sub => 1,
        Operation::Mul => 3,
    }
}

/// The result of an operation: sum, difference or product modulo 2^32.
pub open spec fn compute(operation: Operation, a: u32, b: u32) -> u32 {
    match operation {
        Operation::Add => ((a + b) % 0x1_0000_0000) as u32,
        Operation::Sub => ((a - b) % 0x1_0000_0000) as u32,
        Operation::Mul => ((a * b) % 0x1_0000_0000) as u32,
    }
}

/// The format of an instruction with a destination and two sources.
pub open spec fn format_of(mnemonic: Seq<char>, second: SyntaxType) -> FormatView {
    FormatView { mnemonic, writeback: true, sources: seq![SyntaxType::Register, second] }
}

/// The formats of the unit. Each takes a destination and two sources; the
/// second source of the mnemonics that end in `i` is an immediate.
pub open spec fn arithmetic_formats() -> Seq<FormatView> {
    seq![
        format_of("add"@, SyntaxType::Register),
        format_of("addi"@, SyntaxType::Immediate),
        format_of("sub"@, SyntaxType::Register),
        format_of("subi"@, SyntaxType::Immediate),
        format_of("mul"@, SyntaxType::Register),
        format_of("muli"@, SyntaxType::Immediate),
    ]
}

/// The unit accepts exactly the mnemonics that have an operation, each with
/// two sources, and each of them has a destination.
pub proof fn lemma_formats(mnemonic: Seq<char>, count: nat)
    ensures
        accepts(arithmetic_formats(), mnemonic, count) <==> operation_of(mnemonic) is Some && count
            == 2,
        writes_back(arithmetic_formats(), mnemonic) <==> operation_of(mnemonic) is Some,
{
    let formats = arithmetic_formats();
    assert(formats.len() == 6);
    assert(formats[0] == format_of("add"@, SyntaxType::Register));
    assert(formats[1] == format_of("addi"@, SyntaxType::Immediate));
    assert(formats[2] == format_of("sub"@, SyntaxType::Register));
    assert(formats[3] == format_of("subi"@, SyntaxType::Immediate));
    assert(formats[4] == format_of("mul"@, SyntaxType::Register));
    assert(formats[5] == format_of("muli"@, SyntaxType::Immediate));
    assert(forall|i: int| 0 <= i < 6 ==> (#[trigger] formats[i]).sources.len() == 2);
}

/// The result of the instruction in `slot`.
pub open spec fn result_of(slot: Option<SlotView>) -> u32 {
    match slot {
        Some(held) => match operation_of(held.mnemonic) {
            Some(operation) => compute(
                operation,
                operand_value(slot, 0),
                operand_value(slot, 1),
            ),
            None => 0,
        },
        None => 0,
    }
}

fn decode_operation(mnemonic: &str) -> (operation: Option<Operation>)
    ensures
        operation == operation_of(mnemonic@),
{
    if str_eq(mnemonic, "add") || str_eq(mnemonic, "addi") {
        Some(Operation::Add)
    } else if str_eq(mnemonic, "sub") || str_eq(mnemonic, "subi") {
        Some(Operation::Sub)
    } else if str_eq(mnemonic, "mul") || str_eq(mnemonic, "muli") {
        Some(Operation::Mul)
    } else {
        None
    }
}

fn cycles(operation: Operation) -> (cycles: u8)
    ensures
        cycles == latency(operation),
{
    match operation {
        Operation::Add => 1,
        Operation::Sub => 1,
        Operation::Mul => 3,
    }
}

fn apply(operation: Operation, a: u32, b: u32) -> (value: u32)
    ensures
        value == compute(operation, a, b),
{
    match operation {
        Operation::Add => a.wrapping_add(b),
        Operation::Sub => a.wrapping_sub(b),
        Operation::Mul => a.wrapping_mul(b),
    }
}

fn two_sources(mnemonic: &str, second: SyntaxType) -> (format: InstFormat)
    ensures
        format@ == format_of(mnemonic@, second),
{
    let mut sources: Vec<SyntaxType> = Vec::new();
    sources.push(SyntaxType::Register);
    sources.push(second);
    let format = InstFormat::new(mnemonic, true, sources);
    assert(format@.sources =~= seq![SyntaxType::Register, second]);
    format
}

/// The cycles that an instruction of a mnemonic takes once its operands
/// are ready.
pub open spec fn latency_of(mnemonic: Seq<char>) -> nat {
    match operation_of(mnemonic) {
        Some(operation) => latency(operation) as nat,
        None => 0,
    }
}

/// The conduct of the unit: each mnemonic has the latency of its
/// operation, the result of a slot is that of [`result_of`], and no
/// instruction needs the external bus.
pub open spec fn arithmetic_conduct() -> Conduct {
    Conduct {
        latency: |mnemonic: Seq<char>| latency_of(mnemonic),
        result: |slot: SlotView| ExecResult::Arth(result_of(Some(slot))),
        transaction: |slot: SlotView| None::<BusAccess>,
    }
}

/// A unit called `name` before its first cycle, with all slots free.
pub open spec fn fresh(name: Seq<char>) -> UnitView {
    UnitView {
        name,
        formats: arithmetic_formats(),
        conduct: arithmetic_conduct(),
        slots: Seq::new(SLOTS as nat, |k: int| None),
        cycles: 0,
        broken: false,
    }
}

/// An arithmetic unit with [`SLOTS`] reservation-station slots.
///
/// An instruction waits in its slot until all its operands are ready. It
/// then takes the cycles of its latency, and completes at the end of the
/// last of them. In each cycle the completed instruction of the lowest slot
/// is placed on the result bus, if the bus is empty, and leaves its slot; the
/// others keep their results and offer them again in the next cycle. The
/// unit is never out of order.
pub struct Unit {
    station: Station,
    clock: Ghost<nat>,
}

impl Unit {
    /// A unit called `arth` with all slots free.
    pub fn new() -> (unit: Unit)
        ensures
            unit.inv(),
            unit.state() == fresh("arth"@),
    {
        Unit::named("arth")
    }

    /// A unit called `name` with all slots free.
    pub fn named(name: &str) -> (unit: Unit)
        ensures
            unit.inv(),
            unit.state() == fresh(name@),
    {
        let unit = Unit { station: Station::new(name, SLOTS), clock: Ghost(0) };
        assert(unit.state().slots =~= Seq::new(SLOTS as nat, |k: int| None));
        unit
    }

    fn result(&self, k: usize) -> (value: u32)
        requires
            k < self.station.entries.len(),
        ensures
            value == result_of(self.station.slots()[k as int]),
    {
        match &self.station.entries[k] {
            Some(entry) => match decode_operation(entry.mnemonic.as_str()) {
                Some(operation) => apply(
                    operation,
                    self.station.operand(k, 0),
                    self.station.operand(k, 1),
                ),
                None => 0,
            },
            None => 0,
        }
    }

    /// What the unit knows of the instruction of each slot before the cycle.
    fn plan(&self) -> (plan: Vec<Verdict>)
        requires
            self.inv(),
        ensures
            planned(self.state(), plan@),
    {
        let mut plan: Vec<Verdict> = Vec::new();
        let mut k: usize = 0;
        while k < self.station.entries.len()
            invariant
                self.inv(),
                k <= self.station.entries.len(),
                plan.len() == k,
                forall|i: int|
                    0 <= i < k ==> ((#[trigger] self.state().slots[i]) matches Some(held) ==> {
                        &&& plan[i].yields
                        &&& !plan[i].needs_answer
                        &&& plan[i].result == ExecResult::Arth(result_of(Some(held)))
                    }),
            decreases self.station.entries.len() - k,
        {
            plan.push(
                Verdict {
                    yields: true,
                    needs_answer: false,
                    result: ExecResult::Arth(self.result(k)),
                },
            );
            k = k + 1;
        }
        proof {
            assert forall|i: int| 0 <= i < self.state().slots.len() implies ((
            #[trigger] self.state().slots[i]) matches Some(held) ==> {
                &&& plan[i].yields == writes_back(self.state().formats, held.mnemonic)
                &&& plan[i].needs_answer == ((self.state().conduct.transaction)(held) is Some)
                &&& plan[i].result == (self.state().conduct.result)(held)
            }) by {
                if self.state().slots[i] is Some {
                    lemma_formats(self.state().slots[i]->0.mnemonic, 2);
                }
            }
        }
        plan
    }
}

impl ExecPath for Unit {
    closed spec fn inv(&self) -> bool {
        &&& self.station.entries.len() > 0
        &&& forall|k: int|
            0 <= k < self.station.entries.len() ==> ((#[trigger] self.station.slots()[k]) matches Some(
                held,
            ) ==> operation_of(held.mnemonic) is Some && held.operands.len() == 2)
    }

    closed spec fn state(&self) -> UnitView {
        UnitView {
            name: self.station.name@,
            formats: arithmetic_formats(),
            conduct: arithmetic_conduct(),
            slots: self.station.slots(),
            cycles: self.clock@,
            broken: false,
        }
    }

    fn name(&self) -> (name: String) {
        self.station.name.clone()
    }

    fn list_insts(&self) -> (formats: Vec<InstFormat>) {
        let mut formats: Vec<InstFormat> = Vec::new();
        formats.push(two_sources("add", SyntaxType::Register));
        formats.push(two_sources("addi", SyntaxType::Immediate));
        formats.push(two_sources("sub", SyntaxType::Register));
        formats.push(two_sources("subi", SyntaxType::Immediate));
        formats.push(two_sources("mul", SyntaxType::Register));
        formats.push(two_sources("muli", SyntaxType::Immediate));
        assert(views(formats@) =~= arithmetic_formats());
        formats
    }

    fn pending(&self) -> (count: usize) {
        self.station.pending()
    }

    fn try_issue(&mut self, mnemonic: &str, operands: &[ArgVal]) -> (outcome: Result<
        RStag,
        IssueError,
    >) {
        proof {
            lemma_formats(mnemonic@, operands@.len());
        }
        let operation = match decode_operation(mnemonic) {
            Some(operation) => operation,
            None => {
                return Err(IssueError::Unsupported);
            },
        };
        if operands.len() != 2 {
            return Err(IssueError::Unsupported);
        }
        let slot = match self.station.free_slot() {
            Some(slot) => slot,
            None => {
                return Err(IssueError::NoFreeSlot);
            },
        };
        assert(self.state().slots[slot as int] is None);
        self.station.occupy(slot, mnemonic, operands, cycles(operation));
        Ok(RStag::new(self.station.name.as_str(), slot))
    }

    fn forward(&mut self, tag: &RStag, value: u32) {
        self.station.forward(tag, value);
        assert forall|k: int| 0 <= k < self.station.entries.len() implies ((
        #[trigger] self.station.slots()[k]) matches Some(held) ==> operation_of(held.mnemonic)
            is Some && held.operands.len() == 2) by {
            assert(self.station.slots()[k] == crate::execution_path::forward_slot(
                old(self).station.slots()[k],
                tag@,
                value,
            ));
        }
    }

    fn next_cycle(&mut self, bus: &mut ResultBus) -> (outcome: Result<(), Error>) {
        let plan = self.plan();
        let ghost unit = self.state();
        self.station.advance(bus, &plan, Ghost(unit));
        self.clock = Ghost(self.clock@ + 1);
        proof {
            assert forall|k: int| 0 <= k < self.station.entries.len() implies ((
            #[trigger] self.station.slots()[k]) matches Some(held) ==> operation_of(held.mnemonic)
                is Some && held.operands.len() == 2) by {
                assert(self.station.slots()[k] == advanced_slot(unit, old(bus)@, k));
                assert(unit.slots[k] == old(self).station.slots()[k]);
            }
        }
        Ok(())
    }

    fn dump(&self) -> (text: String) {
        occupancy(self.station.name.as_str(), self.station.pending(), self.station.entries.len())
    }
}

} // verus!
