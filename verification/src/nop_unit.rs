//! The unit of the idle instruction.

use crate::bus::BusAccess;
use crate::decoder::{str_eq, FormatView, InstFormat, SyntaxType};
use crate::display::occupancy;
use crate::error::{Error, IssueError};
use crate::execution_path::{
    accepts, advanced, broadcasting, bus_after, first_set, forwarded, occupied, views,
    writes_back, ArgVal, Conduct, ExecPath, ExecResult, RStag, SlotView, UnitView,
};
use crate::result_bus::ResultBus;
use vstd::prelude::*;

verus! {

/// The formats of the unit: `NOP`, which has no operand.
pub open spec fn nop_formats() -> Seq<FormatView> {
    seq![FormatView { mnemonic: "NOP"@, writeback: false, sources: Seq::empty() }]
}

/// The conduct of the unit: it holds no instruction, so there is nothing
/// to say of latency, result or transaction.
pub open spec fn nop_conduct() -> Conduct {
    Conduct {
        latency: |mnemonic: Seq<char>| 0nat,
        result: |slot: SlotView| ExecResult::Arth(0),
        transaction: |slot: SlotView| None::<BusAccess>,
    }
}

/// The unit before its first cycle.
pub open spec fn fresh() -> UnitView {
    UnitView {
        name: "nop"@,
        formats: nop_formats(),
        conduct: nop_conduct(),
        slots: Seq::empty(),
        cycles: 0,
        broken: false,
    }
}

/// Executes `NOP`. The unit has no slot: the instruction is complete as soon
/// as it is issued, so it can be issued in every cycle, and it never
/// touches the result bus. It keeps the program counter moving when the
/// instruction stream is exhausted.
pub struct Unit {
    name: String,
    clock: Ghost<nat>,
}

impl Unit {
    /// The unit, under the name `nop`.
    pub fn new() -> (unit: Unit)
        ensures
            unit.inv(),
            unit.state() == fresh(),
    {
        Unit { name: "nop".to_owned(), clock: Ghost(0) }
    }
}

impl ExecPath for Unit {
    open spec fn inv(&self) -> bool {
        true
    }

    closed spec fn state(&self) -> UnitView {
        UnitView {
            name: self.name@,
            formats: nop_formats(),
            conduct: nop_conduct(),
            slots: Seq::empty(),
            cycles: self.clock@,
            broken: false,
        }
    }

    fn name(&self) -> (name: String) {
        self.name.clone()
    }

    fn list_insts(&self) -> (formats: Vec<InstFormat>) {
        let mut formats: Vec<InstFormat> = Vec::new();
        let sources: Vec<SyntaxType> = Vec::new();
        formats.push(InstFormat::new("NOP", false, sources));
        assert(views(formats@) =~= nop_formats());
        formats
    }

    fn pending(&self) -> (count: usize) {
        0
    }

    fn try_issue(&mut self, mnemonic: &str, operands: &[ArgVal]) -> (outcome: Result<
        RStag,
        IssueError,
    >) {
        proof {
            let formats = nop_formats();
            assert(formats.len() == 1 && formats[0].mnemonic == "NOP"@);
            assert(!writes_back(formats, mnemonic@));
            if mnemonic@ == "NOP"@ && operands@.len() == 0 {
                assert(formats[0].sources.len() == 0);
                assert(accepts(formats, mnemonic@, 0));
            }
        }
        if str_eq(mnemonic, "NOP") && operands.len() == 0 {
            Ok(RStag::new(self.name.as_str(), 0))
        } else {
            Err(IssueError::Unsupported)
        }
    }

    fn forward(&mut self, tag: &RStag, value: u32) {
        assert(forwarded(self.state(), tag@, value).slots =~= self.state().slots);
    }

    fn next_cycle(&mut self, bus: &mut ResultBus) -> (outcome: Result<(), Error>) {
        proof {
            let unit = self.state();
            assert(advanced(unit, bus@).slots =~= unit.slots);
            assert(first_set(broadcasting(unit), 0) == 0);
            assert(bus_after(unit, bus@) == bus@);
        }
        self.clock = Ghost(self.clock@ + 1);
        Ok(())
    }

    fn dump(&self) -> (text: String) {
        assert(occupied(self.state().slots) == 0);
        occupancy(self.name.as_str(), 0, 0)
    }
}

} // verus!
