use tomasulo::execution_path::{ArgVal, Phase, RStag};
use tomasulo::station::{operands_ready, resolve_operands, Station};

#[test]
fn new_station_has_free_slots() {
    let station: Station = Station::new("s", 3);
    assert_eq!(station.name, "s");
    assert_eq!(station.entries.len(), 3);
    assert_eq!(station.pending(), 0);
    assert_eq!(station.free_slot(), Some(0));
    assert!(!station.ready(0));
    assert_eq!(station.operand(0, 0), 0);
    let none: Station = Station::new("empty", 0);
    assert_eq!(none.free_slot(), None);
    assert_eq!(none.pending(), 0);
}

#[test]
fn occupy_forward_release() {
    let mut station: Station = Station::new("s", 2);
    let operands = vec![ArgVal::Waiting(RStag::new("p", 1)), ArgVal::Ready(4)];
    station.occupy(1, "add", &operands, 7);
    assert_eq!(station.pending(), 1);
    assert_eq!(station.free_slot(), Some(0));
    assert!(!station.ready(1));
    assert_eq!(station.operand(1, 0), 0);
    assert_eq!(station.operand(1, 1), 4);
    assert_eq!(station.operand(1, 2), 0);
    station.forward(&RStag::new("p", 0), 5);
    assert!(!station.ready(1));
    station.forward(&RStag::new("p", 1), 5);
    assert!(station.ready(1));
    assert_eq!(station.operand(1, 0), 5);
    assert_eq!(station.entries[1].as_ref().map(|entry| entry.remaining), Some(7));
    assert_eq!(station.phase(1), Some(Phase::Idle));
    station.set_phase(1, Phase::Answered(3));
    assert_eq!(station.phase(1), Some(Phase::Answered(3)));
    assert_eq!(station.phase(0), None);
    station.occupy(0, "sub", &[], 0);
    assert_eq!(station.free_slot(), None);
    assert_eq!(station.pending(), 2);
    assert!(station.ready(0));
    station.release(1);
    assert_eq!(station.free_slot(), Some(1));
    assert_eq!(station.pending(), 1);
}

#[test]
fn operands_are_resolved_by_their_tag_only() {
    let mut operands = vec![
        ArgVal::Waiting(RStag::new("a", 0)),
        ArgVal::Ready(1),
        ArgVal::Waiting(RStag::new("a", 1)),
        ArgVal::Waiting(RStag::new("a", 0)),
    ];
    assert!(!operands_ready(&operands));
    resolve_operands(&mut operands, &RStag::new("a", 0), 9);
    assert_eq!(
        operands,
        vec![
            ArgVal::Ready(9),
            ArgVal::Ready(1),
            ArgVal::Waiting(RStag::new("a", 1)),
            ArgVal::Ready(9),
        ]
    );
    assert!(!operands_ready(&operands));
    resolve_operands(&mut operands, &RStag::new("a", 1), 8);
    assert!(operands_ready(&operands));
    assert!(operands_ready(&Vec::new()));
}
