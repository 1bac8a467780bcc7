use tomasulo::decoder::{str_eq, ArgType, Decoder, InstFormat, SyntaxType};
use tomasulo::error::{DecodeError, Error};

fn add_formats() -> Vec<InstFormat> {
    vec![
        InstFormat::new("add", true, vec![SyntaxType::Register, SyntaxType::Register]),
        InstFormat::new("addi", true, vec![SyntaxType::Register, SyntaxType::Immediate]),
        InstFormat::new("sb", false, vec![SyntaxType::Register, SyntaxType::Register]),
        InstFormat::new("NOP", false, vec![]),
    ]
}

fn decoder() -> Decoder {
    let mut decoder = Decoder::new();
    assert_eq!(decoder.register(add_formats(), "first".to_string()), Ok(()));
    assert_eq!(
        decoder.register(
            vec![InstFormat::new("add", true, vec![SyntaxType::Register, SyntaxType::Register])],
            "second".to_string()
        ),
        Ok(())
    );
    decoder
}

#[test]
fn decodes_registers_and_immediates() {
    let decoder = decoder();
    let inst = decoder.decode("addi R1, R0, #100").unwrap();
    assert_eq!(inst.name(), "addi");
    assert_eq!(inst.writeback(), Some(ArgType::Reg(1)));
    assert_eq!(inst.arguments(), &vec![ArgType::Reg(0), ArgType::Imm(100)]);
    assert_eq!(inst.stations(), &vec!["first".to_string()]);
}

#[test]
fn decodes_without_spaces_and_with_many() {
    let decoder = decoder();
    let tight = decoder.decode("addi R1,R0,#100").unwrap();
    assert_eq!(tight.arguments(), &vec![ArgType::Reg(0), ArgType::Imm(100)]);
    let loose = decoder.decode("  \tadd   R31 ,R7\t,  R12  ").unwrap();
    assert_eq!(loose.name(), "add");
    assert_eq!(loose.writeback(), Some(ArgType::Reg(31)));
    assert_eq!(loose.arguments(), &vec![ArgType::Reg(7), ArgType::Reg(12)]);
}

#[test]
fn stations_come_in_the_order_of_registration() {
    let decoder = decoder();
    let inst = decoder.decode("add R3, R1, R2").unwrap();
    assert_eq!(inst.stations(), &vec!["first".to_string(), "second".to_string()]);
}

#[test]
fn instruction_without_destination_has_only_sources() {
    let decoder = decoder();
    let store = decoder.decode("sb R4, R5").unwrap();
    assert_eq!(store.writeback(), None);
    assert_eq!(store.arguments(), &vec![ArgType::Reg(4), ArgType::Reg(5)]);
    let idle = decoder.decode("NOP").unwrap();
    assert_eq!(idle.name(), "NOP");
    assert_eq!(idle.writeback(), None);
    assert!(idle.arguments().is_empty());
    assert!(decoder.decode("  NOP  ").is_ok());
}

#[test]
fn destination_may_be_an_immediate_for_the_decoder() {
    let decoder = decoder();
    let inst = decoder.decode("add #5, R1, R2").unwrap();
    assert_eq!(inst.writeback(), Some(ArgType::Imm(5)));
}

#[test]
fn leading_zeros_and_limits_of_numbers() {
    let decoder = decoder();
    let inst = decoder.decode("addi R001, R00, #0000000000000000000042").unwrap();
    assert_eq!(inst.writeback(), Some(ArgType::Reg(1)));
    assert_eq!(inst.arguments(), &vec![ArgType::Reg(0), ArgType::Imm(42)]);
    let largest = decoder.decode("addi R1, R0, #4294967295").unwrap();
    assert_eq!(largest.arguments()[1], ArgType::Imm(u32::MAX));
    assert_eq!(
        decoder.decode("addi R1, R0, #4294967296").unwrap_err(),
        Error::Decode(DecodeError::MalformedOperands)
    );
    assert_eq!(
        decoder.decode("addi R1, R0, #99999999999999999999999999").unwrap_err(),
        Error::Decode(DecodeError::MalformedOperands)
    );
    assert!(decoder.decode("add R31, R0, R0").is_ok());
    assert_eq!(
        decoder.decode("add R32, R0, R0").unwrap_err(),
        Error::Decode(DecodeError::MalformedOperands)
    );
}

#[test]
fn unknown_mnemonic_is_refused() {
    let decoder = decoder();
    assert_eq!(
        decoder.decode("mul R1, R2, R3").unwrap_err(),
        Error::Decode(DecodeError::UnknownMnemonic)
    );
    assert_eq!(decoder.decode("").unwrap_err(), Error::Decode(DecodeError::UnknownMnemonic));
    assert_eq!(decoder.decode("   ").unwrap_err(), Error::Decode(DecodeError::UnknownMnemonic));
    assert_eq!(
        decoder.decode("ADD R1, R2, R3").unwrap_err(),
        Error::Decode(DecodeError::UnknownMnemonic)
    );
    // the mnemonic is looked up before the operands are read
    assert_eq!(
        decoder.decode("mul R1,,").unwrap_err(),
        Error::Decode(DecodeError::UnknownMnemonic)
    );
}

#[test]
fn malformed_operands_are_refused() {
    let decoder = decoder();
    let malformed = Error::Decode(DecodeError::MalformedOperands);
    for text in [
        "add R1, R2",
        "add R1, R2, R3, R4",
        "add R1,, R3",
        "add R1, R2, R3,",
        "add , R1, R2",
        "add R1 R2 R3",
        "add R1, R2, 3",
        "add R1, R2, R",
        "add R1, R2, #",
        "add R1, R2, Rx",
        "add R1, R2, r3",
        "add R1, R2, R 3",
        "add R1, R2, R3x",
        "add R1, R2, #3",
        "addi R1, R0, R2",
        "addi R1, #1, #2",
        "NOP R1",
        "add",
        "add,R1,R2,R3",
    ] {
        assert_eq!(decoder.decode(text).unwrap_err(), malformed, "{}", text);
    }
}

#[test]
fn duplicate_mnemonic_is_refused_and_nothing_is_registered() {
    let mut decoder = decoder();
    // twice in one list
    let twice = vec![
        InstFormat::new("sub", true, vec![SyntaxType::Register, SyntaxType::Register]),
        InstFormat::new("mul", true, vec![SyntaxType::Register, SyntaxType::Register]),
        InstFormat::new("sub", true, vec![SyntaxType::Register, SyntaxType::Register]),
    ];
    assert_eq!(decoder.register(twice, "third".to_string()), Err(Error::DuplicateMnemonic));
    assert_eq!(
        decoder.decode("mul R1, R2, R3").unwrap_err(),
        Error::Decode(DecodeError::UnknownMnemonic)
    );
    // once more by the same owner
    let again = vec![InstFormat::new("add", true, vec![SyntaxType::Register, SyntaxType::Register])];
    assert_eq!(decoder.register(again, "first".to_string()), Err(Error::DuplicateMnemonic));
    assert_eq!(decoder.decode("add R1, R2, R3").unwrap().stations().len(), 2);
}

#[test]
fn conflicting_format_is_refused() {
    let mut decoder = decoder();
    let other_kind =
        vec![InstFormat::new("add", true, vec![SyntaxType::Register, SyntaxType::Immediate])];
    assert_eq!(decoder.register(other_kind, "third".to_string()), Err(Error::ConflictingFormat));
    let other_destination =
        vec![InstFormat::new("add", false, vec![SyntaxType::Register, SyntaxType::Register])];
    assert_eq!(
        decoder.register(other_destination, "third".to_string()),
        Err(Error::ConflictingFormat)
    );
    let other_count = vec![
        InstFormat::new("mul", true, vec![SyntaxType::Register, SyntaxType::Register]),
        InstFormat::new("NOP", false, vec![SyntaxType::Register]),
    ];
    assert_eq!(decoder.register(other_count, "third".to_string()), Err(Error::ConflictingFormat));
    assert_eq!(
        decoder.decode("mul R1, R2, R3").unwrap_err(),
        Error::Decode(DecodeError::UnknownMnemonic)
    );
    // both faults at once: the duplicate is reported
    let both = vec![
        InstFormat::new("add", false, vec![]),
        InstFormat::new("x", false, vec![]),
        InstFormat::new("x", false, vec![]),
    ];
    assert_eq!(decoder.register(both, "third".to_string()), Err(Error::DuplicateMnemonic));
    assert_eq!(decoder.check(&add_formats(), "fresh"), None);
    assert_eq!(decoder.check(&add_formats(), "first"), Some(Error::DuplicateMnemonic));
}

#[test]
fn formats_compare_by_shape_and_clone_whole() {
    let a = InstFormat::new("add", true, vec![SyntaxType::Register, SyntaxType::Register]);
    let b = InstFormat::new("sub", true, vec![SyntaxType::Register, SyntaxType::Register]);
    let c = InstFormat::new("add", true, vec![SyntaxType::Register]);
    assert!(a.has_shape_of(&b));
    assert!(!a.has_shape_of(&c));
    let copy = a.clone();
    assert_eq!(copy.mnemonic, "add");
    assert!(copy.writeback);
    assert_eq!(copy.sources, vec![SyntaxType::Register, SyntaxType::Register]);
    assert!(str_eq("add", "add"));
    assert!(!str_eq("add", "addi"));
    assert!(str_eq("", ""));
}

#[test]
fn errors_have_messages() {
    assert_eq!(Error::DuplicateUnitName.message(), "a unit of this name is registered already");
    assert_eq!(Error::Decode(DecodeError::UnknownMnemonic).message(), "unknown mnemonic");
    assert_eq!(Error::Decode(DecodeError::MalformedOperands).message(), "malformed operand list");
    assert_eq!(Error::InvalidWritebackTarget.message(), "the destination is not a register");
    assert_eq!(Error::MissingResponseHandler.message(), "no bus request is outstanding");
    assert_ne!(Error::UnknownBusHandler.message(), Error::UnitFault.message());
    assert_ne!(Error::DuplicateMnemonic.message(), Error::ConflictingFormat.message());
    assert!(!Error::UnsupportedUnit.message().is_empty());
}
