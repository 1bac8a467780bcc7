use std::cell::Cell;
use tomasulo::arithmetic_unit;
use tomasulo::bus::BusAccess;
use tomasulo::decoder::{InstFormat, SyntaxType};
use tomasulo::error::{DecodeError, Error, IssueError};
use tomasulo::execution_path::{
    execution_path_factory, AccessPath, ArgVal, ExecPath, RStag, UnitView,
};
use tomasulo::memory_unit;
use tomasulo::processor::Processor;
use tomasulo::result_bus::ResultBus;

fn arithmetic(name: &str) -> Box<dyn ExecPath> {
    Box::new(arithmetic_unit::Unit::named(name))
}

fn waiting_on(name: &str) -> Vec<ArgVal> {
    vec![ArgVal::Waiting(RStag::new(name, 0)), ArgVal::Ready(1)]
}

/// Feeds the program line by line, the idle instruction after its end.
fn run(processor: &mut Processor, program: &[&str], cycles: usize) {
    for _ in 0..cycles {
        let line = processor.fetch_address();
        let text = if line < program.len() { program[line] } else { "NOP" };
        assert_eq!(processor.next_cycle(text), Ok(()));
    }
}

#[test]
fn new_processor_is_idle() {
    let mut processor: Processor = Processor::new();
    assert_eq!(processor.fetch_address(), 0);
    assert_eq!(processor.fetching(), 0);
    assert!(!processor.result_waiting());
    assert_eq!(processor.pending("nop"), Some(0));
    assert_eq!(processor.pending("arth"), None);
    assert_eq!(processor.register_value(0), Some(0));
    assert_eq!(processor.register_value(31), Some(0));
    assert_eq!(processor.register_value(32), None);
    assert_eq!(processor.register_state(5), Some(ArgVal::Ready(0)));
    assert_eq!(processor.register_state(32), None);
    assert_eq!(processor.bus_access(), None);
}

#[test]
fn idle_instruction_issues_every_cycle() {
    let mut processor: Processor = Processor::new();
    for cycle in 0..10 {
        assert_eq!(processor.fetch_address(), cycle);
        assert_eq!(processor.next_cycle("NOP"), Ok(()));
        assert!(!processor.result_waiting());
    }
    assert_eq!(processor.fetch_address(), 10);
}

#[test]
fn duplicate_unit_name_is_refused() {
    let mut processor: Processor = Processor::new();
    assert_eq!(processor.add_path(arithmetic("a")), Ok(()));
    assert_eq!(processor.add_path(arithmetic("a")), Err(Error::DuplicateUnitName));
    assert_eq!(processor.add_path(arithmetic("nop")), Err(Error::DuplicateUnitName));
    assert_eq!(
        processor.add_access_path(Box::new(memory_unit::Unit::named("a"))),
        Err(Error::DuplicateUnitName)
    );
    assert_eq!(processor.add_path(arithmetic("b")), Ok(()));
    assert_eq!(processor.add_access_path(Box::new(memory_unit::Unit::new())), Ok(()));
    assert_eq!(processor.pending("a"), Some(0));
    assert_eq!(processor.pending("b"), Some(0));
    assert_eq!(processor.pending("mem"), Some(0));
}

#[test]
fn end_to_end_three_instructions() {
    let mut processor: Processor = Processor::new();
    processor.add_path(arithmetic("arth0")).unwrap();
    processor.add_path(arithmetic("arth1")).unwrap();
    let program = ["addi R1,R0,#100", "addi R2,R0,#200", "add R3,R1,R2"];
    run(&mut processor, &program, 3);
    assert_eq!(processor.fetch_address(), 3);
    run(&mut processor, &program, 5);
    assert_eq!(processor.register_value(1), Some(100));
    assert_eq!(processor.register_value(2), Some(200));
    assert_eq!(processor.register_value(3), Some(300));
    assert_eq!(processor.register_state(3), Some(ArgVal::Ready(300)));
    assert!(processor.fetch_address() >= 3);
    assert_eq!(processor.pending("arth0"), Some(0));
    assert_eq!(processor.pending("arth1"), Some(0));
    assert!(!processor.result_waiting());
}

#[test]
fn longer_program_with_dependencies() {
    let mut processor: Processor = Processor::new();
    processor.add_path(arithmetic("arth0")).unwrap();
    processor.add_path(arithmetic("arth1")).unwrap();
    let program = [
        "addi R1, R0, #100",
        "addi R2, R0, #200",
        "add R3, R1, R2",
        "add R4, R1, R3",
        "add R3, R4, R3",
        "addi R1, R5, #400",
        "add R5, R1, R2",
        "mul R6, R5, R5",
        "subi R7, R6, #1",
    ];
    run(&mut processor, &program, 40);
    assert_eq!(processor.register_value(1), Some(400));
    assert_eq!(processor.register_value(2), Some(200));
    assert_eq!(processor.register_value(3), Some(700));
    assert_eq!(processor.register_value(4), Some(400));
    assert_eq!(processor.register_value(5), Some(600));
    assert_eq!(processor.register_value(6), Some(360000));
    assert_eq!(processor.register_value(7), Some(359999));
    for idx in 0..8 {
        assert!(matches!(processor.register_state(idx), Some(ArgVal::Ready(_))));
    }
}

#[test]
fn destination_waits_for_the_issued_tag_until_commit() {
    let mut processor: Processor = Processor::new();
    processor.add_path(arithmetic("alu")).unwrap();
    assert_eq!(processor.next_cycle("mul R1, R0, R0"), Ok(()));
    assert_eq!(processor.register_state(1), Some(ArgVal::Waiting(RStag::new("alu", 0))));
    assert_eq!(processor.pending("alu"), Some(1));
    // a dependent instruction takes the tag as its operand and a new tag for itself
    assert_eq!(processor.next_cycle("addi R2, R1, #5"), Ok(()));
    assert_eq!(processor.register_state(1), Some(ArgVal::Waiting(RStag::new("alu", 0))));
    assert_eq!(processor.register_state(2), Some(ArgVal::Waiting(RStag::new("alu", 1))));
    assert_eq!(processor.next_cycle("NOP"), Ok(()));
    assert!(processor.result_waiting());
    assert_eq!(processor.register_state(1), Some(ArgVal::Waiting(RStag::new("alu", 0))));
    assert_eq!(processor.next_cycle("NOP"), Ok(()));
    assert_eq!(processor.register_state(1), Some(ArgVal::Ready(0)));
    run(&mut processor, &[], 3);
    assert_eq!(processor.register_state(2), Some(ArgVal::Ready(5)));
}

#[test]
fn later_renaming_wins_over_earlier_result() {
    let mut processor: Processor = Processor::new();
    processor.add_path(arithmetic("alu")).unwrap();
    // the slow product and the quick sum both write R1: the sum is issued later
    assert_eq!(processor.next_cycle("muli R1, R0, #3"), Ok(()));
    assert_eq!(processor.next_cycle("addi R1, R0, #9"), Ok(()));
    run(&mut processor, &[], 8);
    assert_eq!(processor.register_state(1), Some(ArgVal::Ready(9)));
}

#[test]
fn issue_prefers_the_less_loaded_unit() {
    let mut loaded = arithmetic_unit::Unit::named("loaded");
    loaded.try_issue("add", &waiting_on("loaded")).unwrap();
    loaded.try_issue("add", &waiting_on("loaded")).unwrap();
    let mut processor: Processor = Processor::new();
    processor.add_path(Box::new(loaded)).unwrap();
    processor.add_path(arithmetic("free")).unwrap();
    assert_eq!(processor.pending("loaded"), Some(2));
    assert_eq!(processor.pending("free"), Some(0));
    assert_eq!(processor.next_cycle("mul R1, R0, R0"), Ok(()));
    assert_eq!(processor.register_state(1), Some(ArgVal::Waiting(RStag::new("free", 0))));
    assert_eq!(processor.pending("loaded"), Some(2));
    assert_eq!(processor.pending("free"), Some(1));
    assert_eq!(processor.next_cycle("mul R2, R0, R0"), Ok(()));
    assert_eq!(processor.register_state(2), Some(ArgVal::Waiting(RStag::new("free", 1))));
    // both hold two now: the one that was registered first is taken
    assert_eq!(processor.next_cycle("mul R3, R0, R0"), Ok(()));
    assert_eq!(processor.register_state(3), Some(ArgVal::Waiting(RStag::new("loaded", 2))));
}

#[test]
fn full_unit_is_passed_over() {
    let mut full = arithmetic_unit::Unit::named("full");
    for _ in 0..arithmetic_unit::SLOTS {
        full.try_issue("add", &waiting_on("full")).unwrap();
    }
    let mut busy = arithmetic_unit::Unit::named("busy");
    busy.try_issue("add", &waiting_on("busy")).unwrap();
    let mut processor: Processor = Processor::new();
    processor.add_path(Box::new(full)).unwrap();
    processor.add_path(Box::new(busy)).unwrap();
    assert_eq!(processor.next_cycle("mul R1, R0, R0"), Ok(()));
    assert_eq!(processor.fetch_address(), 1);
    assert_eq!(processor.register_state(1), Some(ArgVal::Waiting(RStag::new("busy", 1))));
}

#[test]
fn stall_keeps_the_fetch_address() {
    let mut full = arithmetic_unit::Unit::named("full");
    for _ in 0..arithmetic_unit::SLOTS {
        full.try_issue("add", &waiting_on("full")).unwrap();
    }
    let mut processor: Processor = Processor::new();
    processor.add_path(Box::new(full)).unwrap();
    for _ in 0..3 {
        assert_eq!(processor.next_cycle("add R1, R0, R0"), Ok(()));
        assert_eq!(processor.fetch_address(), 0);
        assert_eq!(processor.register_state(1), Some(ArgVal::Ready(0)));
        assert_eq!(processor.pending("full"), Some(4));
    }
    // another instruction is not held up
    assert_eq!(processor.next_cycle("NOP"), Ok(()));
    assert_eq!(processor.fetch_address(), 1);
}

#[test]
fn stalled_instruction_issues_once_a_slot_is_free() {
    let mut processor: Processor = Processor::new();
    processor.add_path(arithmetic("alu")).unwrap();
    let program = [
        "mul R1, R1, R1",
        "mul R1, R1, R1",
        "mul R1, R1, R1",
        "mul R1, R1, R1",
        "mul R1, R1, R1",
        "mul R1, R1, R1",
        "addi R2, R1, #1",
    ];
    let mut stalled = 0;
    let mut cycles = 0;
    while processor.fetch_address() < program.len() {
        let line = processor.fetch_address();
        assert_eq!(processor.next_cycle(program[line]), Ok(()));
        if processor.fetch_address() == line {
            stalled += 1;
        }
        cycles += 1;
        assert!(cycles < 100);
    }
    assert!(stalled > 0);
    run(&mut processor, &program, 10);
    assert_eq!(processor.register_state(1), Some(ArgVal::Ready(0)));
    assert_eq!(processor.register_state(2), Some(ArgVal::Ready(1)));
}

#[test]
fn refused_text_changes_nothing() {
    let mut processor: Processor = Processor::new();
    processor.add_path(arithmetic("alu")).unwrap();
    assert_eq!(processor.next_cycle("addi R1, R0, #7"), Ok(()));
    assert!(processor.result_waiting());
    let before = processor.print();
    assert_eq!(
        processor.next_cycle("frobnicate R1"),
        Err(Error::Decode(DecodeError::UnknownMnemonic))
    );
    assert_eq!(
        processor.next_cycle("add R1, R2"),
        Err(Error::Decode(DecodeError::MalformedOperands))
    );
    assert_eq!(processor.next_cycle("add #1, R2, R3"), Err(Error::InvalidWritebackTarget));
    assert_eq!(processor.print(), before);
    assert_eq!(processor.fetch_address(), 1);
    assert!(processor.result_waiting());
    assert_eq!(processor.register_state(1), Some(ArgVal::Waiting(RStag::new("alu", 0))));
    // the corrected text goes through and the pending result is committed
    assert_eq!(processor.next_cycle("add R2, R1, R1"), Ok(()));
    assert_eq!(processor.register_state(1), Some(ArgVal::Ready(7)));
    assert_eq!(processor.fetch_address(), 2);
}

#[test]
fn picture_shows_counter_registers_units_and_bus() {
    let mut processor: Processor = Processor::new();
    processor.add_path(arithmetic("alu")).unwrap();
    assert_eq!(processor.next_cycle("muli R2, R0, #3"), Ok(()));
    let picture = processor.print();
    let lines: Vec<&str> = picture.lines().collect();
    assert_eq!(lines.len(), 1 + 32 + 2 + 1);
    assert_eq!(lines[0], "PC: 1");
    assert_eq!(lines[1], "R0: 0");
    assert_eq!(lines[3], "R2: 0 (renamed)");
    assert_eq!(lines[32], "R31: 0");
    assert_eq!(lines[33], "nop: 0/0");
    assert_eq!(lines[34], "alu: 1/4");
    assert_eq!(lines[35], "result bus: free");
    run(&mut processor, &[], 2);
    assert!(processor.print().ends_with("result bus: busy"));
}

#[test]
fn load_and_store_go_over_the_external_bus() {
    let mut processor: Processor = Processor::new();
    processor.add_path(arithmetic("alu")).unwrap();
    processor.add_access_path(Box::new(memory_unit::Unit::new())).unwrap();
    let program = ["addi R1, R0, #77", "addi R2, R0, #16", "sb R1, R2", "lb R3, R2"];
    let mut memory = vec![0u8; 64];
    let mut reads = 0;
    let mut writes = 0;
    for _ in 0..12 {
        let line = processor.fetch_address();
        let text = if line < program.len() { program[line] } else { "NOP" };
        assert_eq!(processor.next_cycle(text), Ok(()));
        match processor.bus_access() {
            Some(BusAccess::Read(address)) => {
                reads += 1;
                assert_eq!(processor.resolve_access(memory[address as usize]), Ok(()));
            }
            Some(BusAccess::Write(address, byte)) => {
                writes += 1;
                memory[address as usize] = byte;
                assert_eq!(processor.resolve_access(0), Ok(()));
            }
            None => {}
        }
    }
    assert_eq!((reads, writes), (1, 1));
    assert_eq!(memory[16], 77);
    assert_eq!(processor.register_state(3), Some(ArgVal::Ready(77)));
    assert_eq!(processor.pending("mem"), Some(0));
}

#[test]
fn bus_request_is_answered_exactly_once() {
    let mut processor: Processor = Processor::new();
    processor.add_access_path(Box::new(memory_unit::Unit::new())).unwrap();
    assert_eq!(processor.resolve_access(1), Err(Error::MissingResponseHandler));
    assert_eq!(processor.next_cycle("lb R1, R0"), Ok(()));
    assert_eq!(processor.next_cycle("lb R2, R0"), Ok(()));
    assert_eq!(processor.bus_access(), Some(BusAccess::Read(0)));
    // no second request is handed out while the response is outstanding
    assert_eq!(processor.bus_access(), None);
    assert_eq!(processor.resolve_access(5), Ok(()));
    assert_eq!(processor.resolve_access(5), Err(Error::MissingResponseHandler));
    assert_eq!(processor.next_cycle("NOP"), Ok(()));
    assert_eq!(processor.bus_access(), Some(BusAccess::Read(0)));
    assert_eq!(processor.resolve_access(6), Ok(()));
    assert_eq!(processor.resolve_access(6), Err(Error::MissingResponseHandler));
    run(&mut processor, &[], 4);
    assert_eq!(processor.register_state(1), Some(ArgVal::Ready(5)));
    assert_eq!(processor.register_state(2), Some(ArgVal::Ready(6)));
    assert_eq!(processor.bus_access(), None);
}

/// A unit that reports a fault whenever it is stepped.
struct Faulty;

impl ExecPath for Faulty {
    fn inv(&self) -> bool {
        true
    }

    fn state(&self) -> UnitView {
        unreachable!()
    }

    fn name(&self) -> String {
        "faulty".to_string()
    }

    fn list_insts(&self) -> Vec<InstFormat> {
        vec![InstFormat::new("boom", false, vec![])]
    }

    fn pending(&self) -> usize {
        0
    }

    fn try_issue(&mut self, _mnemonic: &str, _operands: &[ArgVal]) -> Result<RStag, IssueError> {
        Err(IssueError::Unsupported)
    }

    fn forward(&mut self, _tag: &RStag, _value: u32) {}

    fn next_cycle(&mut self, _bus: &mut ResultBus) -> Result<(), Error> {
        Err(Error::UnitFault)
    }

    fn dump(&self) -> String {
        "faulty".to_string()
    }
}

#[test]
fn unit_fault_ends_the_cycle() {
    let mut processor: Processor = Processor::new();
    processor.add_path(Box::new(Faulty)).unwrap();
    processor.add_path(arithmetic("alu")).unwrap();
    assert_eq!(processor.next_cycle("addi R1, R0, #1"), Err(Error::UnitFault));
    // the instruction was issued before the fault, the unit behind the faulty one was not stepped
    assert_eq!(processor.fetch_address(), 1);
    assert_eq!(processor.pending("alu"), Some(1));
    assert!(!processor.result_waiting());
    // an instruction that no unit takes stalls
    assert_eq!(processor.next_cycle("boom"), Err(Error::UnitFault));
    assert_eq!(processor.fetch_address(), 1);
}

/// A unit that offers one mnemonic twice.
struct Doubled;

impl ExecPath for Doubled {
    fn inv(&self) -> bool {
        true
    }

    fn state(&self) -> UnitView {
        unreachable!()
    }

    fn name(&self) -> String {
        "doubled".to_string()
    }

    fn list_insts(&self) -> Vec<InstFormat> {
        vec![InstFormat::new("x", false, vec![]), InstFormat::new("x", false, vec![])]
    }

    fn pending(&self) -> usize {
        0
    }

    fn try_issue(&mut self, _mnemonic: &str, _operands: &[ArgVal]) -> Result<RStag, IssueError> {
        Err(IssueError::Unsupported)
    }

    fn forward(&mut self, _tag: &RStag, _value: u32) {}

    fn next_cycle(&mut self, _bus: &mut ResultBus) -> Result<(), Error> {
        Ok(())
    }

    fn dump(&self) -> String {
        "doubled".to_string()
    }
}

/// A unit that offers `add` with one source.
struct Conflicting;

impl ExecPath for Conflicting {
    fn inv(&self) -> bool {
        true
    }

    fn state(&self) -> UnitView {
        unreachable!()
    }

    fn name(&self) -> String {
        "conflicting".to_string()
    }

    fn list_insts(&self) -> Vec<InstFormat> {
        vec![InstFormat::new("add", true, vec![SyntaxType::Register])]
    }

    fn pending(&self) -> usize {
        0
    }

    fn try_issue(&mut self, _mnemonic: &str, _operands: &[ArgVal]) -> Result<RStag, IssueError> {
        Err(IssueError::Unsupported)
    }

    fn forward(&mut self, _tag: &RStag, _value: u32) {}

    fn next_cycle(&mut self, _bus: &mut ResultBus) -> Result<(), Error> {
        Ok(())
    }

    fn dump(&self) -> String {
        "conflicting".to_string()
    }
}

#[test]
fn unit_with_refused_formats_is_not_registered() {
    let mut processor: Processor = Processor::new();
    processor.add_path(arithmetic("alu")).unwrap();
    assert_eq!(processor.add_path(Box::new(Doubled)), Err(Error::DuplicateMnemonic));
    assert_eq!(processor.pending("doubled"), None);
    assert_eq!(processor.add_path(Box::new(Conflicting)), Err(Error::ConflictingFormat));
    assert_eq!(processor.pending("conflicting"), None);
    assert_eq!(processor.next_cycle("x"), Err(Error::Decode(DecodeError::UnknownMnemonic)));
    assert_eq!(processor.next_cycle("add R1, R0, R0"), Ok(()));
}

/// A unit that asks for one transaction under a name that is not its own.
struct Shifty {
    asked: bool,
    named: Cell<u32>,
}

impl AccessPath for Shifty {
    fn inv(&self) -> bool {
        true
    }

    fn state(&self) -> UnitView {
        unreachable!()
    }

    fn name(&self) -> String {
        let calls = self.named.get();
        self.named.set(calls + 1);
        if calls == 1 {
            "stranger".to_string()
        } else {
            "shifty".to_string()
        }
    }

    fn list_insts(&self) -> Vec<InstFormat> {
        vec![]
    }

    fn pending(&self) -> usize {
        0
    }

    fn try_issue(&mut self, _mnemonic: &str, _operands: &[ArgVal]) -> Result<RStag, IssueError> {
        Err(IssueError::Unsupported)
    }

    fn forward(&mut self, _tag: &RStag, _value: u32) {}

    fn next_cycle(&mut self, _bus: &mut ResultBus) -> Result<(), Error> {
        Ok(())
    }

    fn request(&mut self) -> Option<BusAccess> {
        if self.asked {
            None
        } else {
            self.asked = true;
            Some(BusAccess::Read(9))
        }
    }

    fn resolve(&mut self, _response: u8) {}

    fn dump(&self) -> String {
        "shifty".to_string()
    }
}

#[test]
fn response_for_an_unknown_unit_is_refused() {
    let mut processor: Processor = Processor::new();
    processor
        .add_access_path(Box::new(Shifty { asked: false, named: Cell::new(0) }))
        .unwrap();
    assert_eq!(processor.next_cycle("NOP"), Ok(()));
    assert_eq!(processor.bus_access(), Some(BusAccess::Read(9)));
    assert_eq!(processor.resolve_access(1), Err(Error::UnknownBusHandler));
    // the refused response is not outstanding any more
    assert_eq!(processor.resolve_access(1), Err(Error::MissingResponseHandler));
}

#[test]
fn response_for_a_unit_that_only_computes_is_refused() {
    // the name that the request carries belongs to a unit, but to one without bus access
    struct Masked {
        asked: bool,
        named: Cell<u32>,
    }
    impl AccessPath for Masked {
        fn inv(&self) -> bool {
            true
        }
        fn state(&self) -> UnitView {
            unreachable!()
        }
        fn name(&self) -> String {
            let calls = self.named.get();
            self.named.set(calls + 1);
            if calls == 1 {
                "nop".to_string()
            } else {
                "masked".to_string()
            }
        }
        fn list_insts(&self) -> Vec<InstFormat> {
            vec![]
        }
        fn pending(&self) -> usize {
            0
        }
        fn try_issue(&mut self, _m: &str, _o: &[ArgVal]) -> Result<RStag, IssueError> {
            Err(IssueError::Unsupported)
        }
        fn forward(&mut self, _tag: &RStag, _value: u32) {}
        fn next_cycle(&mut self, _bus: &mut ResultBus) -> Result<(), Error> {
            Ok(())
        }
        fn request(&mut self) -> Option<BusAccess> {
            if self.asked {
                None
            } else {
                self.asked = true;
                Some(BusAccess::Write(1, 2))
            }
        }
        fn resolve(&mut self, _response: u8) {}
        fn dump(&self) -> String {
            "masked".to_string()
        }
    }
    let mut processor: Processor = Processor::new();
    processor.add_access_path(Box::new(Masked { asked: false, named: Cell::new(0) })).unwrap();
    assert_eq!(processor.next_cycle("NOP"), Ok(()));
    assert_eq!(processor.bus_access(), Some(BusAccess::Write(1, 2)));
    assert_eq!(processor.resolve_access(0), Err(Error::UnknownBusHandler));
}

#[test]
fn tags_of_occupied_slots_are_distinct() {
    let mut processor: Processor = Processor::new();
    processor.add_path(arithmetic("left")).unwrap();
    processor.add_path(arithmetic("right")).unwrap();
    // products of products: every instruction waits for the one before it
    let program = [
        "mul R1, R1, R1",
        "mul R2, R1, R1",
        "mul R3, R2, R2",
        "mul R4, R3, R3",
        "mul R5, R4, R4",
        "mul R6, R5, R5",
    ];
    run(&mut processor, &program, 6);
    let mut tags: Vec<RStag> = Vec::new();
    for idx in 1..7 {
        if let Some(ArgVal::Waiting(tag)) = processor.register_state(idx) {
            tags.push(tag);
        }
    }
    assert!(tags.len() >= 4);
    for a in 0..tags.len() {
        for b in 0..a {
            assert_ne!(tags[a], tags[b]);
        }
    }
    // every awaited tag names an occupied slot or is on the result bus
    let held = processor.pending("left").unwrap() + processor.pending("right").unwrap();
    let on_bus = if processor.result_waiting() { 1 } else { 0 };
    assert!(held + on_bus >= tags.len());
}

#[test]
fn two_units_of_the_factory_are_registered_side_by_side() {
    let mut processor: Processor = Processor::new();
    assert_eq!(processor.add_path(execution_path_factory("arth", 0).unwrap()), Ok(()));
    assert_eq!(processor.add_path(execution_path_factory("arth", 1).unwrap()), Ok(()));
    // the same serial number once more gives the name of the first
    assert_eq!(
        processor.add_path(execution_path_factory("arth", 0).unwrap()),
        Err(Error::DuplicateUnitName)
    );
    let program = [
        "addi R1, R0, #100",
        "addi R2, R0, #200",
        "add R3, R1, R2",
        "add R4, R1, R3",
        "add R3, R4, R3",
        "addi R1, R5, #400",
        "add R5, R1, R2",
    ];
    run(&mut processor, &program, 30);
    assert_eq!(processor.register_value(1), Some(400));
    assert_eq!(processor.register_value(2), Some(200));
    assert_eq!(processor.register_value(3), Some(700));
    assert_eq!(processor.register_value(4), Some(400));
    assert_eq!(processor.register_value(5), Some(600));
    assert_eq!(processor.pending("arth0"), Some(0));
    assert_eq!(processor.pending("arth1"), Some(0));
}

#[test]
fn refused_duplicate_of_the_idle_unit_changes_nothing() {
    let mut processor: Processor = Processor::new();
    assert_eq!(
        processor.add_path(Box::new(tomasulo::nop_unit::Unit::new())),
        Err(Error::DuplicateUnitName)
    );
    assert_eq!(processor.fetch_address(), 0);
    assert_eq!(processor.next_cycle("NOP"), Ok(()));
    assert_eq!(processor.fetch_address(), 1);
    assert_eq!(processor.bus_access(), None);
}

#[test]
fn the_unit_takes_the_byte_of_the_response() {
    for byte in [0u8, 1, 0x7f, 0xff] {
        let mut processor: Processor = Processor::new();
        processor.add_access_path(Box::new(memory_unit::Unit::new())).unwrap();
        assert_eq!(processor.next_cycle("lb R9, R0"), Ok(()));
        assert_eq!(processor.bus_access(), Some(BusAccess::Read(0)));
        assert_eq!(processor.resolve_access(byte), Ok(()));
        run(&mut processor, &[], 3);
        assert_eq!(processor.register_state(9), Some(ArgVal::Ready(byte as u32)));
    }
}

#[test]
fn requests_are_queued_in_the_order_of_stepping() {
    let mut processor: Processor = Processor::new();
    processor.add_access_path(Box::new(memory_unit::Unit::named("m0"))).unwrap();
    processor.add_access_path(Box::new(memory_unit::Unit::named("m1"))).unwrap();
    processor.add_path(arithmetic("alu")).unwrap();
    assert_eq!(processor.next_cycle("addi R1, R0, #5"), Ok(()));
    assert_eq!(processor.next_cycle("addi R2, R0, #6"), Ok(()));
    // the stores go to different units and both become ready with the second commit
    assert_eq!(processor.next_cycle("sb R2, R1"), Ok(()));
    assert_eq!(processor.next_cycle("sb R1, R2"), Ok(()));
    assert_eq!(processor.pending("m0"), Some(1));
    assert_eq!(processor.pending("m1"), Some(1));
    assert_eq!(processor.bus_access(), Some(BusAccess::Write(5, 6)));
    assert_eq!(processor.resolve_access(0), Ok(()));
    assert_eq!(processor.bus_access(), Some(BusAccess::Write(6, 5)));
    assert_eq!(processor.resolve_access(0), Ok(()));
    assert_eq!(processor.bus_access(), None);
}
