//! The memory unit: loads and stores of single bytes over the external bus.

use crate::bus::BusAccess;
use crate::decoder::{str_eq, FormatView, InstFormat, SyntaxType};
use crate::display::occupancy;
use crate::error::{Error, IssueError};
use crate::execution_path::{
    accepts, advanced_slot, answered_unit, askable, asked, awaiting, first_set, forward_slot,
    lemma_first_set, requested, views, writes_back, AccessPath, ArgVal, Conduct, ExecResult,
    Phase, RStag, SlotView, UnitView,
};
use crate::result_bus::ResultBus;
use crate::station::{operand_value, planned, Station, Verdict};
use vstd::prelude::*;

verus! {

/// The number of slots of a unit.
pub const SLOTS: usize = 2;

/// The formats of the unit: `lb` loads into its destination the byte at the
/// address that its source holds; `sb` stores the low byte of its first
/// source at the address that its second source holds.
pub open spec fn memory_formats() -> Seq<FormatView> {
    seq![
        FormatView { mnemonic: "lb"@, writeback: true, sources: seq![SyntaxType::Register] },
        FormatView {
            mnemonic: "sb"@,
            writeback: false,
            sources: seq![SyntaxType::Register, SyntaxType::Register],
        },
    ]
}

/// Whether the unit executes an instruction of this mnemonic and operand
/// count.
pub open spec fn executes(mnemonic: Seq<char>, count: nat) -> bool {
    (mnemonic == "lb"@ && count == 1) || (mnemonic == "sb"@ && count == 2)
}

/// The unit accepts a load with one source and a store with two, and only
/// the load has a destination.
pub proof fn lemma_formats(mnemonic: Seq<char>, count: nat)
    ensures
        accepts(memory_formats(), mnemonic, count) <==> executes(mnemonic, count),
        writes_back(memory_formats(), mnemonic) <==> mnemonic == "lb"@,
        "lb"@ != "sb"@,
{
    reveal_strlit("lb");
    reveal_strlit("sb");
    assert("lb"@[0] != "sb"@[0]);
    let formats = memory_formats();
    assert(formats.len() == 2);
    assert(formats[0].mnemonic == "lb"@ && formats[0].sources.len() == 1 && formats[0].writeback);
    assert(formats[1].mnemonic == "sb"@ && formats[1].sources.len() == 2 && !formats[1].writeback);
}

/// The transaction that the instruction of `slot` needs.
pub open spec fn access_of(slot: Option<SlotView>) -> BusAccess {
    match slot {
        Some(held) => if held.mnemonic == "sb"@ {
            BusAccess::Write(operand_value(slot, 1), (operand_value(slot, 0) % 256) as u8)
        } else {
            BusAccess::Read(operand_value(slot, 0))
        },
        None => BusAccess::Read(0),
    }
}

/// The byte that has arrived for an instruction; zero while none has.
pub open spec fn byte_of(phase: Phase) -> u8 {
    match phase {
        Phase::Answered(byte) => byte,
        _ => 0,
    }
}

/// The conduct of the unit: an instruction takes no cycle of its own, the
/// result of a load is the byte that has arrived for it, and every
/// instruction needs the transaction of [`access_of`].
pub open spec fn memory_conduct() -> Conduct {
    Conduct {
        latency: |mnemonic: Seq<char>| 0nat,
        result: |slot: SlotView| ExecResult::Load(byte_of(slot.phase)),
        transaction: |slot: SlotView| Some(access_of(Some(slot))),
    }
}

/// A unit called `name` before its first cycle, with all slots free.
pub open spec fn fresh(name: Seq<char>) -> UnitView {
    UnitView {
        name,
        formats: memory_formats(),
        conduct: memory_conduct(),
        slots: Seq::new(SLOTS as nat, |k: int| None),
        cycles: 0,
        broken: false,
    }
}

/// A memory unit with [`SLOTS`] reservation-station slots.
///
/// An instruction waits in its slot until its operands are ready. The unit
/// then asks for its transaction on the external bus, one instruction at a
/// time and the lowest slot first. When the response has arrived, a store
/// leaves its slot in the next cycle; a load leaves it when its byte has
/// been placed on the result bus. The unit is never out of order.
pub struct Unit {
    station: Station,
    clock: Ghost<nat>,
}

fn one_format(mnemonic: &str, writeback: bool, count: usize) -> (format: InstFormat)
    requires
        count == 1 || count == 2,
    ensures
        format@ == (FormatView {
            mnemonic: mnemonic@,
            writeback,
            sources: if count == 1 {
                seq![SyntaxType::Register]
            } else {
                seq![SyntaxType::Register, SyntaxType::Register]
            },
        }),
{
    let mut sources: Vec<SyntaxType> = Vec::new();
    sources.push(SyntaxType::Register);
    if count == 2 {
        sources.push(SyntaxType::Register);
    }
    let format = InstFormat::new(mnemonic, writeback, sources);
    assert(format@.sources =~= if count == 1 {
        seq![SyntaxType::Register]
    } else {
        seq![SyntaxType::Register, SyntaxType::Register]
    });
    format
}

impl Unit {
    /// A unit called `mem` with all slots free.
    pub fn new() -> (unit: Unit)
        ensures
            unit.inv(),
            unit.state() == fresh("mem"@),
    {
        Unit::named("mem")
    }

    /// A unit called `name` with all slots free.
    pub fn named(name: &str) -> (unit: Unit)
        ensures
            unit.inv(),
            unit.state() == fresh(name@),
    {
        let unit = Unit { station: Station::new(name, SLOTS), clock: Ghost(0) };
        assert(unit.state().slots =~= Seq::new(SLOTS as nat, |k: int| None));
        unit
    }

    fn access(&self, k: usize) -> (access: BusAccess)
        requires
            k < self.station.entries.len(),
        ensures
            access == access_of(self.station.slots()[k as int]),
    {
        match &self.station.entries[k] {
            Some(entry) => if str_eq(entry.mnemonic.as_str(), "sb") {
                BusAccess::Write(
                    self.station.operand(k, 1),
                    (self.station.operand(k, 0) % 256) as u8,
                )
            } else {
                BusAccess::Read(self.station.operand(k, 0))
            },
            None => BusAccess::Read(0),
        }
    }

    /// The lowest slot whose request is unanswered; the number of slots if
    /// there is none.
    fn awaited(&self) -> (at: usize)
        ensures
            at == first_set(requested(self.state()), 0),
            at <= self.station.entries.len(),
    {
        let ghost flags = requested(self.state());
        let mut k: usize = 0;
        while k < self.station.entries.len()
            invariant
                k <= self.station.entries.len(),
                flags == requested(self.state()),
                first_set(flags, k as int) == first_set(flags, 0),
            decreases self.station.entries.len() - k,
        {
            match self.station.phase(k) {
                Some(Phase::Requested) => {
                    return k;
                },
                _ => {},
            }
            k = k + 1;
        }
        k
    }

    /// What the unit knows of the instruction of each slot before the cycle.
    fn plan(&self) -> (plan: Vec<Verdict>)
        requires
            self.inv(),
        ensures
            planned(self.state(), plan@),
    {
        let mut plan: Vec<Verdict> = Vec::new();
        let mut k: usize = 0;
        while k < self.station.entries.len()
            invariant
                self.inv(),
                k <= self.station.entries.len(),
                plan.len() == k,
                forall|i: int|
                    0 <= i < k ==> ((#[trigger] self.state().slots[i]) matches Some(held) ==> {
                        &&& plan[i].yields == (held.mnemonic != "sb"@)
                        &&& plan[i].needs_answer
                        &&& plan[i].result == ExecResult::Load(byte_of(held.phase))
                    }),
            decreases self.station.entries.len() - k,
        {
            let mut store = false;
            let mut byte: u8 = 0;
            match &self.station.entries[k] {
                Some(entry) => {
                    store = str_eq(entry.mnemonic.as_str(), "sb");
                    match entry.phase {
                        Phase::Answered(received) => {
                            byte = received;
                        },
                        _ => {},
                    }
                },
                None => {},
            }
            plan.push(Verdict { yields: !store, needs_answer: true, result: ExecResult::Load(byte) });
            k = k + 1;
        }
        proof {
            assert forall|i: int| 0 <= i < self.state().slots.len() implies ((
            #[trigger] self.state().slots[i]) matches Some(held) ==> {
                &&& plan[i].yields == writes_back(self.state().formats, held.mnemonic)
                &&& plan[i].needs_answer == ((self.state().conduct.transaction)(held) is Some)
                &&& plan[i].result == (self.state().conduct.result)(held)
            }) by {
                if self.state().slots[i] is Some {
                    let held = self.state().slots[i]->0;
                    lemma_formats(held.mnemonic, held.operands.len());
                    assert(self.station.slots()[i] is Some);
                }
            }
        }
        plan
    }
}

impl AccessPath for Unit {
    closed spec fn inv(&self) -> bool {
        &&& self.station.entries.len() > 0
        &&& forall|k: int|
            0 <= k < self.station.entries.len() ==> ((#[trigger] self.station.slots()[k]) matches Some(
                held,
            ) ==> executes(held.mnemonic, held.operands.len()) && held.remaining == 0)
    }

    closed spec fn state(&self) -> UnitView {
        UnitView {
            name: self.station.name@,
            formats: memory_formats(),
            conduct: memory_conduct(),
            slots: self.station.slots(),
            cycles: self.clock@,
            broken: false,
        }
    }

    fn name(&self) -> (name: String) {
        self.station.name.clone()
    }

    fn list_insts(&self) -> (formats: Vec<InstFormat>) {
        let mut formats: Vec<InstFormat> = Vec::new();
        formats.push(one_format("lb", true, 1));
        formats.push(one_format("sb", false, 2));
        assert(views(formats@) =~= memory_formats());
        formats
    }

    fn pending(&self) -> (count: usize) {
        self.station.pending()
    }

    fn try_issue(&mut self, mnemonic: &str, operands: &[ArgVal]) -> (outcome: Result<
        RStag,
        IssueError,
    >) {
        proof {
            lemma_formats(mnemonic@, operands@.len());
        }
        let load = str_eq(mnemonic, "lb") && operands.len() == 1;
        let store = str_eq(mnemonic, "sb") && operands.len() == 2;
        if !load && !store {
            return Err(IssueError::Unsupported);
        }
        let slot = match self.station.free_slot() {
            Some(slot) => slot,
            None => {
                return Err(IssueError::NoFreeSlot);
            },
        };
        assert(self.state().slots[slot as int] is None);
        self.station.occupy(slot, mnemonic, operands, 0);
        Ok(RStag::new(self.station.name.as_str(), slot))
    }

    fn forward(&mut self, tag: &RStag, value: u32) {
        self.station.forward(tag, value);
        assert forall|k: int| 0 <= k < self.station.entries.len() implies ((
        #[trigger] self.station.slots()[k]) matches Some(held) ==> executes(
            held.mnemonic,
            held.operands.len(),
        ) && held.remaining == 0) by {
            assert(self.station.slots()[k] == forward_slot(
                old(self).station.slots()[k],
                tag@,
                value,
            ));
        }
    }

    fn next_cycle(&mut self, bus: &mut ResultBus) -> (outcome: Result<(), Error>) {
        let plan = self.plan();
        let ghost unit = self.state();
        self.station.advance(bus, &plan, Ghost(unit));
        self.clock = Ghost(self.clock@ + 1);
        proof {
            assert forall|k: int| 0 <= k < self.station.entries.len() implies ((
            #[trigger] self.station.slots()[k]) matches Some(held) ==> executes(
                held.mnemonic,
                held.operands.len(),
            ) && held.remaining == 0) by {
                assert(self.station.slots()[k] == advanced_slot(unit, old(bus)@, k));
                assert(unit.slots[k] == old(self).station.slots()[k]);
            }
        }
        Ok(())
    }

    fn request(&mut self) -> (request: Option<BusAccess>) {
        let ghost unit = self.state();
        let ghost flags = askable(unit);
        proof {
            lemma_first_set(requested(unit), 0);
            lemma_first_set(flags, 0);
        }
        if self.awaited() < self.station.entries.len() {
            return None;
        }
        let mut k: usize = 0;
        while k < self.station.entries.len()
            invariant
                k <= self.station.entries.len(),
                *self == *old(self),
                unit == self.state(),
                flags == askable(unit),
                first_set(flags, k as int) == first_set(flags, 0),
                !awaiting(unit),
                self.inv(),
            decreases self.station.entries.len() - k,
        {
            let idle = match self.station.phase(k) {
                Some(Phase::Idle) => true,
                _ => false,
            };
            if idle && self.station.ready(k) {
                assert(flags[k as int]);
                let access = self.access(k);
                self.station.set_phase(k, Phase::Requested);
                proof {
                    assert(self.state().slots =~= asked(unit).slots);
                    assert forall|i: int| 0 <= i < self.station.entries.len() implies ((
                    #[trigger] self.station.slots()[i]) matches Some(held) ==> executes(
                        held.mnemonic,
                        held.operands.len(),
                    ) && held.remaining == 0) by {
                        assert(unit.slots[i] == old(self).station.slots()[i]);
                    }
                }
                return Some(access);
            }
            assert(!flags[k as int]);
            k = k + 1;
        }
        None
    }

    fn resolve(&mut self, response: u8) {
        let ghost unit = self.state();
        proof {
            lemma_first_set(requested(unit), 0);
        }
        let at = self.awaited();
        if at < self.station.entries.len() {
            self.station.set_phase(at, Phase::Answered(response));
            proof {
                assert(self.state().slots =~= answered_unit(unit, response).slots);
                assert forall|i: int| 0 <= i < self.station.entries.len() implies ((
                #[trigger] self.station.slots()[i]) matches Some(held) ==> executes(
                    held.mnemonic,
                    held.operands.len(),
                ) && held.remaining == 0) by {
                    assert(unit.slots[i] == old(self).station.slots()[i]);
                }
            }
        }
    }

    fn dump(&self) -> (text: String) {
        occupancy(self.station.name.as_str(), self.station.pending(), self.station.entries.len())
    }
}

} // verus!
