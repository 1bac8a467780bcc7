use tomasulo::execution_path::{ArgVal, ExecResult, RStag};
use tomasulo::register::{RegisterFile, REGISTER_COUNT};
use tomasulo::result_bus::ResultBus;

#[test]
fn new_file_reads_zero_everywhere() {
    let file = RegisterFile::new();
    for idx in 0..REGISTER_COUNT {
        assert_eq!(file.read(idx), ArgVal::Ready(0));
        assert!(!file.is_renamed(idx));
    }
}

#[test]
fn rename_then_read_waits_for_the_tag() {
    let mut file = RegisterFile::new();
    file.rename(3, RStag::new("arth", 1));
    assert_eq!(file.read(3), ArgVal::Waiting(RStag::new("arth", 1)));
    assert_eq!(file.value(3), 0);
    // the broadcast of another tag leaves the register waiting
    file.write(&RStag::new("arth", 2), 7);
    assert_eq!(file.read(3), ArgVal::Waiting(RStag::new("arth", 1)));
    file.write(&RStag::new("other", 1), 7);
    assert_eq!(file.read(3), ArgVal::Waiting(RStag::new("arth", 1)));
    // the matching broadcast commits the value
    file.write(&RStag::new("arth", 1), 42);
    assert_eq!(file.read(3), ArgVal::Ready(42));
    assert!(!file.is_renamed(3));
}

#[test]
fn stale_write_is_ignored() {
    let mut file = RegisterFile::new();
    file.write(&RStag::new("arth", 9), 5);
    file.rename(4, RStag::new("arth", 0));
    file.rename(4, RStag::new("arth", 1));
    file.write(&RStag::new("arth", 0), 111);
    assert_eq!(file.value(4), 0);
    assert_eq!(file.read(4), ArgVal::Waiting(RStag::new("arth", 1)));
    file.write(&RStag::new("arth", 1), 222);
    assert_eq!(file.read(4), ArgVal::Ready(222));
    // a second broadcast of the same tag finds nobody waiting
    file.write(&RStag::new("arth", 1), 333);
    assert_eq!(file.read(4), ArgVal::Ready(222));
}

#[test]
fn write_reaches_every_register_that_waits_for_the_tag() {
    let mut file = RegisterFile::new();
    file.rename(1, RStag::new("u", 0));
    file.rename(2, RStag::new("u", 0));
    file.rename(5, RStag::new("u", 1));
    file.write(&RStag::new("u", 0), 9);
    assert_eq!(file.read(1), ArgVal::Ready(9));
    assert_eq!(file.read(2), ArgVal::Ready(9));
    assert_eq!(file.read(5), ArgVal::Waiting(RStag::new("u", 1)));
    assert_eq!(file.read(0), ArgVal::Ready(0));
}

#[test]
fn tags_compare_by_name_and_slot() {
    let tag = RStag::new("arth", 2);
    assert!(tag.same(&RStag::new("arth", 2)));
    assert!(!tag.same(&RStag::new("arth", 3)));
    assert!(!tag.same(&RStag::new("arthx", 2)));
    assert_eq!(tag.clone(), tag);
    assert_ne!(tag, RStag::new("mem", 2));
    assert_eq!(tag.name(), "arth");
    assert_eq!(tag.slot(), 2);
}

#[test]
fn results_give_their_value() {
    assert_eq!(ExecResult::Arth(77).val(), 77);
    assert_eq!(ExecResult::Arth(u32::MAX).val(), u32::MAX);
    assert_eq!(ExecResult::Load(255).val(), 255);
}

#[test]
fn result_bus_holds_one_result() {
    let mut bus = ResultBus::new();
    assert!(bus.is_free());
    assert!(bus.take().is_none());
    assert!(bus.put(RStag::new("a", 0), ExecResult::Arth(1)));
    assert!(!bus.is_free());
    // the second result of the cycle is turned away and the first stays
    assert!(!bus.put(RStag::new("b", 1), ExecResult::Arth(2)));
    let (tag, result) = bus.take().unwrap();
    assert_eq!(tag, RStag::new("a", 0));
    assert_eq!(result, ExecResult::Arth(1));
    assert!(bus.is_free());
    assert!(bus.take().is_none());
    assert!(bus.put(RStag::new("b", 1), ExecResult::Arth(2)));
}
