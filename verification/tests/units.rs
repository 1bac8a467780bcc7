use tomasulo::arithmetic_unit;
use tomasulo::bus::{BusAccess, BusController};
use tomasulo::display::{decimal, occupancy};
use tomasulo::error::{Error, IssueError};
use tomasulo::execution_path::{
    copy_operands, execution_path_factory, AccessPath, ArgVal, ExecPath, ExecResult, RStag,
};
use tomasulo::memory_unit;
use tomasulo::nop_unit;
use tomasulo::result_bus::ResultBus;

fn ready(a: u32, b: u32) -> Vec<ArgVal> {
    vec![ArgVal::Ready(a), ArgVal::Ready(b)]
}

#[test]
fn factory_knows_the_arithmetic_unit_only() {
    let unit = execution_path_factory("arth", 0).unwrap();
    assert_eq!(unit.name(), "arth0");
    assert_eq!(unit.pending(), 0);
    assert_eq!(unit.list_insts().len(), 6);
    let boxed: Box<dyn ExecPath> = unit;
    assert_eq!(boxed.name(), "arth0");
    assert_eq!(execution_path_factory("mem", 0).err(), Some(Error::UnsupportedUnit));
    assert_eq!(execution_path_factory("", 1).err(), Some(Error::UnsupportedUnit));
    assert_eq!(execution_path_factory("arth ", 2).err(), Some(Error::UnsupportedUnit));
}

#[test]
fn factory_names_units_by_their_serial_number() {
    let first = execution_path_factory("arth", 0).unwrap();
    let second = execution_path_factory("arth", 1).unwrap();
    let later = execution_path_factory("arth", 4294967295).unwrap();
    assert_eq!(first.name(), "arth0");
    assert_eq!(second.name(), "arth1");
    assert_eq!(later.name(), "arth4294967295");
    assert_ne!(first.name(), second.name());
    assert_ne!(execution_path_factory("arth", 1).unwrap().name(), execution_path_factory("arth", 11).unwrap().name());
}

#[test]
fn nop_unit_takes_the_idle_instruction_always() {
    let mut unit = nop_unit::Unit::new();
    assert_eq!(unit.name(), "nop");
    let formats = unit.list_insts();
    assert_eq!(formats.len(), 1);
    assert_eq!(formats[0].mnemonic, "NOP");
    assert!(!formats[0].writeback);
    assert!(formats[0].sources.is_empty());
    for _ in 0..5 {
        let tag = unit.try_issue("NOP", &[]).unwrap();
        assert_eq!(tag.name(), "nop");
        assert_eq!(unit.pending(), 0);
    }
    assert_eq!(unit.try_issue("add", &[]).unwrap_err(), IssueError::Unsupported);
    assert_eq!(unit.try_issue("NOP", &[ArgVal::Ready(1)]).unwrap_err(), IssueError::Unsupported);
    let mut bus = ResultBus::new();
    assert_eq!(unit.next_cycle(&mut bus), Ok(()));
    assert!(bus.is_free());
    assert_eq!(unit.dump(), "nop: 0/0");
}

#[test]
fn arithmetic_unit_adds_in_one_cycle() {
    let mut unit = arithmetic_unit::Unit::named("alu");
    let mut bus = ResultBus::new();
    let tag = unit.try_issue("add", &ready(100, 200)).unwrap();
    assert_eq!(tag, RStag::new("alu", 0));
    assert_eq!(unit.pending(), 1);
    assert_eq!(unit.next_cycle(&mut bus), Ok(()));
    assert_eq!(unit.pending(), 0);
    let (tag, result) = bus.take().unwrap();
    assert_eq!(tag, RStag::new("alu", 0));
    assert_eq!(result, ExecResult::Arth(300));
}

#[test]
fn arithmetic_wraps_modulo_two_to_the_32() {
    let cases: Vec<(&str, u32, u32, u32)> = vec![
        ("add", u32::MAX, 1, 0),
        ("addi", u32::MAX, u32::MAX, u32::MAX - 1),
        ("sub", 0, 1, u32::MAX),
        ("subi", 5, 7, u32::MAX - 1),
        ("sub", 7, 5, 2),
        ("mul", 0x1_0000, 0x1_0000, 0),
        ("muli", 3, 5, 15),
        ("mul", u32::MAX, u32::MAX, 1),
    ];
    for (mnemonic, a, b, expected) in cases {
        let mut unit = arithmetic_unit::Unit::new();
        let mut bus = ResultBus::new();
        unit.try_issue(mnemonic, &ready(a, b)).unwrap();
        for _ in 0..3 {
            assert_eq!(unit.next_cycle(&mut bus), Ok(()));
        }
        let (_, result) = bus.take().unwrap();
        assert_eq!(result.val(), expected, "{} {} {}", mnemonic, a, b);
    }
}

#[test]
fn multiplication_takes_three_cycles() {
    let mut unit = arithmetic_unit::Unit::new();
    let mut bus = ResultBus::new();
    unit.try_issue("mul", &ready(6, 7)).unwrap();
    unit.next_cycle(&mut bus).unwrap();
    assert!(bus.is_free());
    unit.next_cycle(&mut bus).unwrap();
    assert!(bus.is_free());
    assert_eq!(unit.pending(), 1);
    unit.next_cycle(&mut bus).unwrap();
    assert_eq!(bus.take().unwrap().1, ExecResult::Arth(42));
    assert_eq!(unit.pending(), 0);
}

#[test]
fn arithmetic_unit_refuses_what_it_cannot_take() {
    let mut unit = arithmetic_unit::Unit::new();
    assert_eq!(unit.try_issue("NOP", &[]).unwrap_err(), IssueError::Unsupported);
    assert_eq!(unit.try_issue("add", &[ArgVal::Ready(1)]).unwrap_err(), IssueError::Unsupported);
    assert_eq!(unit.pending(), 0);
    let waiting = vec![ArgVal::Waiting(RStag::new("x", 0)), ArgVal::Ready(1)];
    for slot in 0..arithmetic_unit::SLOTS {
        assert_eq!(unit.try_issue("add", &waiting).unwrap(), RStag::new("arth", slot));
    }
    assert_eq!(unit.pending(), arithmetic_unit::SLOTS);
    assert_eq!(unit.try_issue("add", &ready(1, 2)).unwrap_err(), IssueError::NoFreeSlot);
    assert_eq!(unit.try_issue("nop", &ready(1, 2)).unwrap_err(), IssueError::Unsupported);
    assert_eq!(unit.dump(), "arth: 4/4");
}

#[test]
fn waiting_operand_is_resolved_by_forwarding() {
    let mut unit = arithmetic_unit::Unit::new();
    let mut bus = ResultBus::new();
    let operands = vec![ArgVal::Waiting(RStag::new("other", 3)), ArgVal::Ready(5)];
    unit.try_issue("add", &operands).unwrap();
    unit.next_cycle(&mut bus).unwrap();
    assert!(bus.is_free());
    // a broadcast under another tag changes nothing
    unit.forward(&RStag::new("other", 2), 1000);
    unit.forward(&RStag::new("others", 3), 1000);
    unit.next_cycle(&mut bus).unwrap();
    assert!(bus.is_free());
    unit.forward(&RStag::new("other", 3), 10);
    unit.next_cycle(&mut bus).unwrap();
    assert_eq!(bus.take().unwrap().1, ExecResult::Arth(15));
}

#[test]
fn one_result_per_cycle_and_the_lowest_slot_first() {
    let mut unit = arithmetic_unit::Unit::new();
    let mut bus = ResultBus::new();
    unit.try_issue("add", &ready(1, 1)).unwrap();
    unit.try_issue("add", &ready(2, 2)).unwrap();
    unit.try_issue("add", &ready(3, 3)).unwrap();
    unit.next_cycle(&mut bus).unwrap();
    assert_eq!(unit.pending(), 2);
    // the bus is still occupied: nothing more leaves
    unit.next_cycle(&mut bus).unwrap();
    assert_eq!(unit.pending(), 2);
    let (tag, result) = bus.take().unwrap();
    assert_eq!((tag, result), (RStag::new("arth", 0), ExecResult::Arth(2)));
    unit.next_cycle(&mut bus).unwrap();
    let (tag, result) = bus.take().unwrap();
    assert_eq!((tag, result), (RStag::new("arth", 1), ExecResult::Arth(4)));
    // the freed slot of the lowest index is taken next
    assert_eq!(unit.try_issue("add", &ready(9, 9)).unwrap(), RStag::new("arth", 0));
    unit.next_cycle(&mut bus).unwrap();
    let (tag, result) = bus.take().unwrap();
    assert_eq!((tag, result), (RStag::new("arth", 0), ExecResult::Arth(18)));
    unit.next_cycle(&mut bus).unwrap();
    assert_eq!(bus.take().unwrap().0, RStag::new("arth", 2));
    assert_eq!(unit.pending(), 0);
}

#[test]
fn memory_unit_loads_through_the_bus() {
    let mut unit = memory_unit::Unit::new();
    let mut bus = ResultBus::new();
    assert_eq!(unit.name(), "mem");
    assert!(unit.request().is_none());
    let tag = unit.try_issue("lb", &[ArgVal::Ready(64)]).unwrap();
    assert_eq!(tag, RStag::new("mem", 0));
    unit.next_cycle(&mut bus).unwrap();
    assert_eq!(unit.request(), Some(BusAccess::Read(64)));
    // the request is handed out once
    assert_eq!(unit.request(), None);
    unit.next_cycle(&mut bus).unwrap();
    assert!(bus.is_free());
    unit.resolve(0xAB);
    unit.next_cycle(&mut bus).unwrap();
    let (tag, result) = bus.take().unwrap();
    assert_eq!(tag, RStag::new("mem", 0));
    assert_eq!(result, ExecResult::Load(0xAB));
    assert_eq!(unit.pending(), 0);
}

#[test]
fn memory_unit_stores_the_low_byte_and_stays_off_the_result_bus() {
    let mut unit = memory_unit::Unit::named("m");
    let mut bus = ResultBus::new();
    unit.try_issue("sb", &ready(0x1234, 8)).unwrap();
    assert_eq!(unit.request(), Some(BusAccess::Write(8, 0x34)));
    unit.resolve(0);
    assert_eq!(unit.pending(), 1);
    unit.next_cycle(&mut bus).unwrap();
    assert_eq!(unit.pending(), 0);
    assert!(bus.is_free());
    assert_eq!(unit.dump(), "m: 0/2");
}

#[test]
fn memory_unit_has_one_request_outstanding() {
    let mut unit = memory_unit::Unit::new();
    let mut bus = ResultBus::new();
    unit.try_issue("lb", &[ArgVal::Waiting(RStag::new("arth", 0))]).unwrap();
    unit.try_issue("lb", &[ArgVal::Ready(2)]).unwrap();
    assert_eq!(unit.try_issue("lb", &[ArgVal::Ready(3)]).unwrap_err(), IssueError::NoFreeSlot);
    assert_eq!(unit.try_issue("lb", &ready(1, 2)).unwrap_err(), IssueError::Unsupported);
    assert_eq!(unit.try_issue("sb", &[ArgVal::Ready(3)]).unwrap_err(), IssueError::Unsupported);
    // slot 0 still waits for its address: slot 1 goes first
    assert_eq!(unit.request(), Some(BusAccess::Read(2)));
    unit.forward(&RStag::new("arth", 0), 1);
    assert_eq!(unit.request(), None);
    unit.resolve(22);
    assert_eq!(unit.request(), Some(BusAccess::Read(1)));
    // a result bus that is occupied keeps the load in its slot
    assert!(bus.put(RStag::new("arth", 1), ExecResult::Arth(0)));
    unit.next_cycle(&mut bus).unwrap();
    assert_eq!(unit.pending(), 2);
    bus.take();
    unit.next_cycle(&mut bus).unwrap();
    assert_eq!(bus.take().unwrap(), (RStag::new("mem", 1), ExecResult::Load(22)));
    unit.resolve(11);
    unit.next_cycle(&mut bus).unwrap();
    assert_eq!(bus.take().unwrap(), (RStag::new("mem", 0), ExecResult::Load(11)));
    // a response that nobody awaits changes nothing
    unit.resolve(99);
    unit.next_cycle(&mut bus).unwrap();
    assert!(bus.is_free());
    assert_eq!(unit.pending(), 0);
}

#[test]
fn bus_controller_serves_in_order_and_one_at_a_time() {
    let mut controller = BusController::new();
    assert_eq!(controller.pop(), None);
    assert_eq!(controller.take_handler(), None);
    controller.push(BusAccess::Read(1), "a".to_string());
    controller.push(BusAccess::Write(2, 3), "b".to_string());
    assert_eq!(controller.pop(), Some(BusAccess::Read(1)));
    // the response to the first is outstanding: the second waits
    assert_eq!(controller.pop(), None);
    assert_eq!(controller.take_handler(), Some("a".to_string()));
    assert_eq!(controller.take_handler(), None);
    assert_eq!(controller.pop(), Some(BusAccess::Write(2, 3)));
    assert_eq!(controller.take_handler(), Some("b".to_string()));
    assert_eq!(controller.pop(), None);
}

#[test]
fn numbers_are_shown_in_decimal() {
    assert_eq!(decimal(0), "0");
    assert_eq!(decimal(7), "7");
    assert_eq!(decimal(10), "10");
    assert_eq!(decimal(1234567890), "1234567890");
    assert_eq!(decimal(u64::MAX), "18446744073709551615");
    assert_eq!(occupancy("arth", 2, 4), "arth: 2/4");
}

#[test]
fn operands_are_copied_as_they_are() {
    let operands = vec![ArgVal::Waiting(RStag::new("u", 1)), ArgVal::Ready(3)];
    assert_eq!(copy_operands(&operands), operands);
    assert_eq!(operands[0].clone(), ArgVal::Waiting(RStag::new("u", 1)));
    assert_ne!(operands[0], operands[1]);
    assert_ne!(ArgVal::Ready(1), ArgVal::Ready(2));
}

#[test]
fn nop_unit_leaves_an_occupied_result_bus_alone() {
    let mut unit = nop_unit::Unit::new();
    let mut bus = ResultBus::new();
    assert!(bus.put(RStag::new("arth", 1), ExecResult::Arth(7)));
    for _ in 0..3 {
        assert_eq!(unit.next_cycle(&mut bus), Ok(()));
        assert_eq!(unit.pending(), 0);
    }
    assert_eq!(bus.take().unwrap(), (RStag::new("arth", 1), ExecResult::Arth(7)));
}
