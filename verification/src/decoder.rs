//! Instruction formats and the decoding of instruction text.
//!
//! An instruction is written as a mnemonic followed by operands that are
//! separated by commas: `addi R1, R0, #100`. `R<n>` names register `n`,
//! `#<n>` is the immediate value `n`. Spaces and tabs may stand before and
//! after the mnemonic, every operand and every comma.

use crate::error::{DecodeError, Error};
use crate::execution_path::views;
use crate::register::REGISTER_COUNT;
use vstd::prelude::*;
use vstd::string::*;

verus! {

/// The kind of operand that a source position of a format takes.
#[derive(Clone, Copy, Debug, PartialEq, Eq, Structural)]
pub enum SyntaxType {
    Register,
    Immediate,
}

/// One operand of an instruction text.
#[derive(Clone, Copy, Debug, PartialEq, Eq, Structural)]
pub enum ArgType {
    Reg(usize),
    Imm(u32),
}

/// The mathematical value of an instruction format.
pub struct FormatView {
    pub mnemonic: Seq<char>,
    pub writeback: bool,
    pub sources: Seq<SyntaxType>,
}

/// The shape of one instruction: its mnemonic, whether its first operand is
/// a destination, and the kinds of its source operands in order.
#[derive(Debug)]
pub struct InstFormat {
    pub mnemonic: String,
    pub writeback: bool,
    pub sources: Vec<SyntaxType>,
}

impl View for InstFormat {
    type V = FormatView;

    open spec fn view(&self) -> FormatView {
        FormatView { mnemonic: self.mnemonic@, writeback: self.writeback, sources: self.sources@ }
    }
}

impl Clone for InstFormat {
    fn clone(&self) -> (copy: Self)
        ensures
            copy@ == self@,
    {
        let mut sources: Vec<SyntaxType> = Vec::new();
        let mut i: usize = 0;
        while i < self.sources.len()
            invariant
                i <= self.sources.len(),
                sources@ == self.sources@.take(i as int),
            decreases self.sources.len() - i,
        {
            sources.push(self.sources[i]);
            assert(self.sources@.take(i + 1) =~= self.sources@.take(i as int).push(
                self.sources@[i as int],
            ));
            i = i + 1;
        }
        assert(self.sources@.take(i as int) =~= self.sources@);
        InstFormat { mnemonic: self.mnemonic.clone(), writeback: self.writeback, sources }
    }
}

/// Whether two formats take the same operands.
pub open spec fn same_shape(a: FormatView, b: FormatView) -> bool {
    a.writeback == b.writeback && a.sources == b.sources
}

impl InstFormat {
    /// The format of `mnemonic` with the given destination flag and sources.
    pub fn new(mnemonic: &str, writeback: bool, sources: Vec<SyntaxType>) -> (format: InstFormat)
        ensures
            format@ == (FormatView { mnemonic: mnemonic@, writeback, sources: sources@ }),
    {
        InstFormat { mnemonic: mnemonic.to_owned(), writeback, sources }
    }

    /// Whether `self` and `other` take the same operands.
    pub fn has_shape_of(&self, other: &InstFormat) -> (same: bool)
        ensures
            same == same_shape(self@, other@),
    {
        if self.writeback != other.writeback || self.sources.len() != other.sources.len() {
            return false;
        }
        let mut i: usize = 0;
        while i < self.sources.len()
            invariant
                i <= self.sources.len(),
                self.sources.len() == other.sources.len(),
                forall|j: int| 0 <= j < i ==> self.sources[j] == other.sources[j],
            decreases self.sources.len() - i,
        {
            if self.sources[i] != other.sources[i] {
                return false;
            }
            i = i + 1;
        }
        assert(self.sources@ =~= other.sources@);
        true
    }
}

/// Whether two texts hold the same characters.
pub fn str_eq(a: &str, b: &str) -> (equal: bool)
    ensures
        equal == (a@ == b@),
{
    a.to_owned() == b.to_owned()
}

// ---------------------------------------------------------------------
// The grammar of instruction text
// ---------------------------------------------------------------------
/// Spaces and tabs separate the parts of an instruction text.
pub open spec fn is_space(c: char) -> bool {
    c == ' ' || c == '\t'
}

/// The decimal digits.
pub open spec fn is_digit(c: char) -> bool {
    48 <= c as u32 <= 57
}

/// A mnemonic or an operand ends before a space, a tab or a comma.
pub open spec fn ends_token(c: char) -> bool {
    is_space(c) || c == ','
}

/// The first position at or after `from` that holds no space or tab; the
/// length of the text if there is none.
pub open spec fn skip_spaces(text: Seq<char>, from: int) -> int
    decreases text.len() - from,
{
    if 0 <= from < text.len() && is_space(text[from]) {
        skip_spaces(text, from + 1)
    } else {
        from
    }
}

/// The first position at or after `from` that ends a token; the length of
/// the text if there is none.
pub open spec fn token_end(text: Seq<char>, from: int) -> int
    decreases text.len() - from,
{
    if 0 <= from < text.len() && !ends_token(text[from]) {
        token_end(text, from + 1)
    } else {
        from
    }
}

/// Neither scan moves backwards nor leaves the text.
pub proof fn lemma_scan_bounds(text: Seq<char>, from: int)
    requires
        0 <= from <= text.len(),
    ensures
        from <= skip_spaces(text, from) <= text.len(),
        from <= token_end(text, from) <= text.len(),
    decreases text.len() - from,
{
    if from < text.len() {
        lemma_scan_bounds(text, from + 1);
    }
}

/// The number that a run of decimal digits denotes.
pub open spec fn number(digits: Seq<char>) -> nat
    decreases digits.len(),
{
    if digits.len() == 0 {
        0
    } else {
        number(digits.drop_last()) * 10 + (digits.last() as u32 - 48) as nat
    }
}

/// Whether every character of `text` is a decimal digit.
pub open spec fn all_digits(text: Seq<char>) -> bool {
    forall|i: int| 0 <= i < text.len() ==> is_digit(#[trigger] text[i])
}

/// The operand that `token` denotes: `R` and the number of a register that
/// exists, or `#` and a number that fits 32 bits.
pub open spec fn operand_of(token: Seq<char>) -> Option<ArgType> {
    if token.len() >= 2 && all_digits(token.skip(1)) {
        let n = number(token.skip(1));
        if token[0] == 'R' && n < REGISTER_COUNT {
            Some(ArgType::Reg(n as usize))
        } else if token[0] == '#' && n <= u32::MAX {
            Some(ArgType::Imm(n as u32))
        } else {
            None
        }
    } else {
        None
    }
}

/// The operands of the list whose first operand starts at `from`: operands
/// separated by commas, with optional spaces around each, up to the end of
/// the text. `None` if the text from there on is no such list.
pub open spec fn operands_from(text: Seq<char>, from: int) -> Option<Seq<ArgType>>
    decreases text.len() - from,
    via operands_from_decreases
{
    if from < 0 || from >= text.len() {
        None
    } else {
        let end = token_end(text, from);
        let next = skip_spaces(text, end);
        match operand_of(text.subrange(from, end)) {
            None => None,
            Some(operand) => if next >= text.len() {
                Some(seq![operand])
            } else if text[next] != ',' {
                None
            } else {
                match operands_from(text, skip_spaces(text, next + 1)) {
                    None => None,
                    Some(rest) => Some(seq![operand] + rest),
                }
            },
        }
    }
}

#[via_fn]
proof fn operands_from_decreases(text: Seq<char>, from: int) {
    if 0 <= from < text.len() {
        lemma_scan_bounds(text, from);
        let end = token_end(text, from);
        lemma_scan_bounds(text, end);
        let next = skip_spaces(text, end);
        if next < text.len() {
            lemma_scan_bounds(text, next + 1);
        }
    }
}

/// Where the mnemonic of `text` starts.
pub open spec fn mnemonic_start(text: Seq<char>) -> int {
    skip_spaces(text, 0)
}

/// Where the mnemonic of `text` ends.
pub open spec fn mnemonic_end(text: Seq<char>) -> int {
    token_end(text, mnemonic_start(text))
}

/// The mnemonic of `text`: its first token.
pub open spec fn mnemonic_of(text: Seq<char>) -> Seq<char> {
    text.subrange(mnemonic_start(text), mnemonic_end(text))
}

/// The operands of the list that starts at `from`, where the spaces before
/// it have been passed: none if the text ends there.
pub open spec fn operands_of_from(text: Seq<char>, from: int) -> Option<Seq<ArgType>> {
    if from >= text.len() {
        Some(Seq::empty())
    } else {
        operands_from(text, from)
    }
}

/// The operands that follow the mnemonic of `text`.
pub open spec fn operands_of(text: Seq<char>) -> Option<Seq<ArgType>> {
    operands_of_from(text, skip_spaces(text, mnemonic_end(text)))
}

fn chars_of(text: &str) -> (chars: Vec<char>)
    ensures
        chars@ == text@,
{
    let count = text.unicode_len();
    let mut chars: Vec<char> = Vec::new();
    let mut i: usize = 0;
    while i < count
        invariant
            count == text@.len(),
            i <= count,
            chars.len() == i,
            forall|j: int| 0 <= j < i ==> chars[j] == text@[j],
        decreases count - i,
    {
        chars.push(text.get_char(i));
        i = i + 1;
    }
    assert(chars@ =~= text@);
    chars
}

fn scan_spaces(text: &Vec<char>, from: usize) -> (at: usize)
    requires
        from <= text.len(),
    ensures
        at == skip_spaces(text@, from as int),
        from <= at <= text.len(),
{
    let mut at: usize = from;
    while at < text.len() && (text[at] == ' ' || text[at] == '\t')
        invariant
            from <= at <= text.len(),
            skip_spaces(text@, at as int) == skip_spaces(text@, from as int),
        decreases text.len() - at,
    {
        at = at + 1;
    }
    at
}

fn scan_token(text: &Vec<char>, from: usize) -> (at: usize)
    requires
        from <= text.len(),
    ensures
        at == token_end(text@, from as int),
        from <= at <= text.len(),
{
    let mut at: usize = from;
    while at < text.len() && !(text[at] == ' ' || text[at] == '\t' || text[at] == ',')
        invariant
            from <= at <= text.len(),
            token_end(text@, at as int) == token_end(text@, from as int),
        decreases text.len() - at,
    {
        at = at + 1;
    }
    at
}

fn parse_operand(text: &Vec<char>, from: usize, to: usize) -> (operand: Option<ArgType>)
    requires
        from <= to <= text.len(),
    ensures
        operand == operand_of(text@.subrange(from as int, to as int)),
{
    let ghost token = text@.subrange(from as int, to as int);
    if to - from < 2 {
        return None;
    }
    let head = text[from];
    if head != 'R' && head != '#' {
        return None;
    }
    let mut value: u64 = 0;
    let mut i: usize = from + 1;
    while i < to
        invariant
            from < i <= to <= text.len(),
            token == text@.subrange(from as int, to as int),
            all_digits(text@.subrange(from + 1, i as int)),
            value <= 0x1_0000_0000,
            value <= u32::MAX ==> value == number(text@.subrange(from + 1, i as int)),
            value > u32::MAX ==> number(text@.subrange(from + 1, i as int)) > u32::MAX,
        decreases to - i,
    {
        let c = text[i];
        let code = c as u32;
        if code < 48 || code > 57 {
            assert(token.skip(1)[i - from - 1] == c);
            return None;
        }
        let digit = (code - 48) as u64;
        proof {
            let before = text@.subrange(from + 1, i as int);
            let after = text@.subrange(from + 1, i + 1);
            assert(after.drop_last() =~= before);
            assert(after.last() == c);
            assert(number(after) == number(before) * 10 + digit);
            assert forall|j: int| 0 <= j < after.len() implies is_digit(#[trigger] after[j]) by {
                if j < before.len() {
                    assert(after[j] == before[j]);
                }
            }
        }
        if value > u32::MAX as u64 {
            value = 0x1_0000_0000;
        } else {
            value = value * 10 + digit;
            if value > u32::MAX as u64 {
                value = 0x1_0000_0000;
            }
        }
        i = i + 1;
    }
    assert(token.skip(1) =~= text@.subrange(from + 1, to as int));
    if head == 'R' {
        if value < REGISTER_COUNT as u64 {
            Some(ArgType::Reg(value as usize))
        } else {
            None
        }
    } else {
        if value <= u32::MAX as u64 {
            Some(ArgType::Imm(value as u32))
        } else {
            None
        }
    }
}

fn parse_operands(text: &Vec<char>, from: usize) -> (operands: Option<Vec<ArgType>>)
    requires
        from <= text.len(),
    ensures
        match operands {
            Some(list) => operands_of_from(text@, from as int) == Some(list@),
            None => operands_of_from(text@, from as int) is None,
        },
{
    let mut list: Vec<ArgType> = Vec::new();
    if from >= text.len() {
        return Some(list);
    }
    let mut at: usize = from;
    loop
        invariant
            from <= at < text.len(),
            operands_from(text@, from as int) == match operands_from(text@, at as int) {
                None => None::<Seq<ArgType>>,
                Some(rest) => Some(list@ + rest),
            },
        decreases text.len() - at,
    {
        let end = scan_token(text, at);
        let next = scan_spaces(text, end);
        let operand = match parse_operand(text, at, end) {
            None => {
                return None;
            },
            Some(operand) => operand,
        };
        if next >= text.len() {
            list.push(operand);
            assert(list@ =~= list@.drop_last() + seq![operand]);
            return Some(list);
        }
        if text[next] != ',' {
            return None;
        }
        let start = scan_spaces(text, next + 1);
        if start >= text.len() {
            return None;
        }
        proof {
            let rest = operands_from(text@, start as int);
            if rest is Some {
                assert(list@ + (seq![operand] + rest->0) =~= list@.push(operand) + rest->0);
            }
        }
        list.push(operand);
        at = start;
    }
}

// ---------------------------------------------------------------------
// Decoded instructions
// ---------------------------------------------------------------------
/// The mathematical value of a decoded instruction.
pub struct DecodedView {
    pub mnemonic: Seq<char>,
    pub arguments: Seq<ArgType>,
    pub writeback: Option<ArgType>,
    pub stations: Seq<Seq<char>>,
}

/// An instruction as the decoder hands it to the processor: the mnemonic,
/// the source operands in order, the destination if the format has one, and
/// the names of the units that have registered the mnemonic, in the order of
/// their registration.
#[derive(Debug)]
pub struct DecodedInst {
    name: String,
    arguments: Vec<ArgType>,
    writeback: Option<ArgType>,
    stations: Vec<String>,
}

impl View for DecodedInst {
    type V = DecodedView;

    closed spec fn view(&self) -> DecodedView {
        DecodedView {
            mnemonic: self.name@,
            arguments: self.arguments@,
            writeback: self.writeback,
            stations: views(self.stations@),
        }
    }
}

/// Whether `operand` names a register that exists, or is an immediate.
pub open spec fn operand_in_range(operand: ArgType) -> bool {
    operand matches ArgType::Reg(idx) ==> idx < REGISTER_COUNT
}

/// Whether every register that the instruction names exists.
pub open spec fn registers_in_range(inst: DecodedView) -> bool {
    &&& forall|i: int| 0 <= i < inst.arguments.len() ==> operand_in_range(#[trigger] inst.arguments[i])
    &&& inst.writeback matches Some(operand) ==> operand_in_range(operand)
}

impl DecodedInst {
    /// Every register that the instruction names exists.
    pub open spec fn wf(&self) -> bool {
        registers_in_range(self@)
    }

    /// The mnemonic.
    pub fn name(&self) -> (name: &str)
        ensures
            name@ == self@.mnemonic,
    {
        self.name.as_str()
    }

    /// The source operands in the order of the text.
    pub fn arguments(&self) -> (arguments: &Vec<ArgType>)
        ensures
            arguments@ == self@.arguments,
    {
        &self.arguments
    }

    /// The destination operand, if the format has one.
    pub fn writeback(&self) -> (writeback: Option<ArgType>)
        ensures
            writeback == self@.writeback,
    {
        self.writeback
    }

    /// The names of the units that can execute the instruction.
    pub fn stations(&self) -> (stations: &Vec<String>)
        ensures
            views(stations@) == self@.stations,
    {
        &self.stations
    }
}

// ---------------------------------------------------------------------
// The table of registered formats
// ---------------------------------------------------------------------
/// The mathematical value of one registration.
pub struct RegistrationView {
    pub format: FormatView,
    pub owner: Seq<char>,
}

struct Registration {
    format: InstFormat,
    owner: String,
}

impl View for Registration {
    type V = RegistrationView;

    closed spec fn view(&self) -> RegistrationView {
        RegistrationView { format: self.format@, owner: self.owner@ }
    }
}

/// Whether `owner` has registered `mnemonic`.
pub open spec fn owns(table: Seq<RegistrationView>, owner: Seq<char>, mnemonic: Seq<char>) -> bool {
    exists|r: int|
        0 <= r < table.len() && (#[trigger] table[r]).owner == owner && table[r].format.mnemonic
            == mnemonic
}

/// Whether `mnemonic` is registered with another shape than that of `format`.
pub open spec fn conflicts(table: Seq<RegistrationView>, format: FormatView) -> bool {
    exists|r: int|
        0 <= r < table.len() && (#[trigger] table[r]).format.mnemonic == format.mnemonic
            && !same_shape(table[r].format, format)
}

/// Whether one mnemonic occurs twice among `formats`.
pub open spec fn repeats(formats: Seq<FormatView>) -> bool {
    exists|i: int, j: int|
        0 <= i < j < formats.len() && (#[trigger] formats[i]).mnemonic == (
        #[trigger] formats[j]).mnemonic
}

/// Why the registration of `formats` for `owner` is refused, if it is: a
/// mnemonic that occurs twice in the list or that `owner` has registered
/// before, else a mnemonic that another unit registered with another shape.
pub open spec fn refusal(table: Seq<RegistrationView>, formats: Seq<FormatView>, owner: Seq<char>)
    -> Option<Error> {
    if repeats(formats) || exists|i: int|
        0 <= i < formats.len() && owns(table, owner, (#[trigger] formats[i]).mnemonic) {
        Some(Error::DuplicateMnemonic)
    } else if exists|i: int| 0 <= i < formats.len() && conflicts(table, #[trigger] formats[i]) {
        Some(Error::ConflictingFormat)
    } else {
        None
    }
}

/// The registrations of `formats` for `owner`, in the order of the list.
pub open spec fn registrations(formats: Seq<FormatView>, owner: Seq<char>) -> Seq<
    RegistrationView,
> {
    Seq::new(formats.len(), |i: int| RegistrationView { format: formats[i], owner })
}

/// The index of the first registration of `mnemonic` at or after `from`;
/// the length of the table if there is none.
pub open spec fn first_entry(table: Seq<RegistrationView>, mnemonic: Seq<char>, from: int) -> int
    decreases table.len() - from,
{
    if 0 <= from < table.len() && table[from].format.mnemonic != mnemonic {
        first_entry(table, mnemonic, from + 1)
    } else {
        from
    }
}

/// The owners of the registrations of `mnemonic`, in the order of the table.
pub open spec fn owners_of(table: Seq<RegistrationView>, mnemonic: Seq<char>) -> Seq<Seq<char>>
    decreases table.len(),
{
    if table.len() == 0 {
        Seq::empty()
    } else if table.last().format.mnemonic == mnemonic {
        owners_of(table.drop_last(), mnemonic).push(table.last().owner)
    } else {
        owners_of(table.drop_last(), mnemonic)
    }
}

/// Whether `operand` is of the kind that a source position asks for.
pub open spec fn kind_matches(kind: SyntaxType, operand: ArgType) -> bool {
    match kind {
        SyntaxType::Register => operand is Reg,
        SyntaxType::Immediate => operand is Imm,
    }
}

/// The number of operands that come before the sources: the destination.
pub open spec fn source_offset(format: FormatView) -> int {
    if format.writeback {
        1
    } else {
        0
    }
}

/// Whether `operands` has the shape of `format`: a destination of either
/// kind if the format has one, then sources of the kinds that it asks for.
pub open spec fn fits(format: FormatView, operands: Seq<ArgType>) -> bool {
    &&& operands.len() == source_offset(format) + format.sources.len()
    &&& forall|j: int|
        0 <= j < format.sources.len() ==> kind_matches(
            #[trigger] format.sources[j],
            operands[source_offset(format) + j],
        )
}

/// What decoding `text` against `table` gives. The mnemonic is looked up
/// first; the format of its first registration then decides which operands
/// the text must have.
pub open spec fn decode_spec(table: Seq<RegistrationView>, text: Seq<char>) -> Result<
    DecodedView,
    DecodeError,
> {
    let mnemonic = mnemonic_of(text);
    let entry = first_entry(table, mnemonic, 0);
    if entry >= table.len() {
        Err(DecodeError::UnknownMnemonic)
    } else {
        let format = table[entry].format;
        match operands_of(text) {
            None => Err(DecodeError::MalformedOperands),
            Some(operands) => if fits(format, operands) {
                Ok(
                    DecodedView {
                        mnemonic,
                        arguments: operands.skip(source_offset(format)),
                        writeback: if format.writeback {
                            Some(operands[0])
                        } else {
                            None
                        },
                        stations: owners_of(table, mnemonic),
                    },
                )
            } else {
                Err(DecodeError::MalformedOperands)
            },
        }
    }
}

fn sources_of(format: &InstFormat, operands: &Vec<ArgType>) -> (arguments: Option<Vec<ArgType>>)
    ensures
        match arguments {
            Some(list) => fits(format@, operands@) && list@ == operands@.skip(
                source_offset(format@),
            ),
            None => !fits(format@, operands@),
        },
{
    let offset: usize = if format.writeback {
        1
    } else {
        0
    };
    if format.sources.len() > operands.len() || operands.len() - format.sources.len() != offset {
        return None;
    }
    let mut arguments: Vec<ArgType> = Vec::new();
    let mut j: usize = 0;
    while j < format.sources.len()
        invariant
            j <= format.sources.len(),
            operands.len() == offset + format.sources.len(),
            offset == source_offset(format@),
            arguments@ == operands@.subrange(offset as int, offset + j),
            forall|k: int|
                0 <= k < j ==> kind_matches(#[trigger] format@.sources[k], operands[offset + k]),
        decreases format.sources.len() - j,
    {
        let operand = operands[offset + j];
        let fitting = match format.sources[j] {
            SyntaxType::Register => match operand {
                ArgType::Reg(_) => true,
                ArgType::Imm(_) => false,
            },
            SyntaxType::Immediate => match operand {
                ArgType::Reg(_) => false,
                ArgType::Imm(_) => true,
            },
        };
        if !fitting {
            assert(!kind_matches(format@.sources[j as int], operands[offset + j]));
            return None;
        }
        arguments.push(operand);
        assert(arguments@ =~= operands@.subrange(offset as int, offset + j + 1));
        j = j + 1;
    }
    assert(arguments@ =~= operands@.skip(offset as int));
    Some(arguments)
}

/// The formats that the units have registered, each with its owner, in the
/// order of registration.
pub struct Decoder {
    table: Vec<Registration>,
}

impl View for Decoder {
    type V = Seq<RegistrationView>;

    closed spec fn view(&self) -> Seq<RegistrationView> {
        views(self.table@)
    }
}

/// Whether the table is consistent: a mnemonic has one shape, whoever
/// registered it, and no owner has registered a mnemonic twice.
pub open spec fn consistent(table: Seq<RegistrationView>) -> bool {
    forall|a: int, b: int|
        0 <= a < b < table.len() && (#[trigger] table[a]).format.mnemonic == (
        #[trigger] table[b]).format.mnemonic ==> same_shape(table[a].format, table[b].format)
            && table[a].owner != table[b].owner
}

impl Decoder {
    /// The table is consistent.
    pub open spec fn wf(&self) -> bool {
        consistent(self@)
    }

    /// A decoder that knows no instruction.
    pub fn new() -> (decoder: Decoder)
        ensures
            decoder@ == Seq::<RegistrationView>::empty(),
            decoder.wf(),
    {
        let decoder = Decoder { table: Vec::new() };
        assert(decoder@ =~= Seq::<RegistrationView>::empty());
        decoder
    }

    fn owns(&self, owner: &str, mnemonic: &str) -> (found: bool)
        ensures
            found == owns(self@, owner@, mnemonic@),
    {
        let mut r: usize = 0;
        while r < self.table.len()
            invariant
                r <= self.table.len(),
                forall|k: int|
                    0 <= k < r ==> !((#[trigger] self@[k]).owner == owner@
                        && self@[k].format.mnemonic == mnemonic@),
            decreases self.table.len() - r,
        {
            let entry = &self.table[r];
            assert(self@[r as int] == entry@);
            if str_eq(entry.owner.as_str(), owner) && str_eq(entry.format.mnemonic.as_str(), mnemonic) {
                return true;
            }
            r = r + 1;
        }
        false
    }

    fn conflicts(&self, format: &InstFormat) -> (found: bool)
        ensures
            found == conflicts(self@, format@),
    {
        let mut r: usize = 0;
        while r < self.table.len()
            invariant
                r <= self.table.len(),
                forall|k: int|
                    0 <= k < r ==> !((#[trigger] self@[k]).format.mnemonic == format@.mnemonic
                        && !same_shape(self@[k].format, format@)),
            decreases self.table.len() - r,
        {
            let entry = &self.table[r];
            assert(self@[r as int] == entry@);
            if str_eq(entry.format.mnemonic.as_str(), format.mnemonic.as_str())
                && !entry.format.has_shape_of(format) {
                return true;
            }
            r = r + 1;
        }
        false
    }

    /// Why the registration of `formats` for `owner` would be refused.
    pub fn check(&self, formats: &Vec<InstFormat>, owner: &str) -> (outcome: Option<Error>)
        ensures
            outcome == refusal(self@, views(formats@), owner@),
    {
        let ghost list = views(formats@);
        let mut i: usize = 0;
        while i < formats.len()
            invariant
                i <= formats.len(),
                list == views(formats@),
                forall|a: int, b: int|
                    0 <= a < b < i ==> (#[trigger] list[a]).mnemonic != (#[trigger] list[b]).mnemonic,
                forall|a: int| 0 <= a < i ==> !owns(self@, owner@, (#[trigger] list[a]).mnemonic),
            decreases formats.len() - i,
        {
            let mnemonic = formats[i].mnemonic.as_str();
            assert(list[i as int].mnemonic == mnemonic@);
            let mut j: usize = 0;
            while j < i
                invariant
                    j <= i < formats.len(),
                    list == views(formats@),
                    list[i as int].mnemonic == mnemonic@,
                    forall|a: int| 0 <= a < j ==> (#[trigger] list[a]).mnemonic != mnemonic@,
                decreases i - j,
            {
                if str_eq(formats[j].mnemonic.as_str(), mnemonic) {
                    assert(list[j as int].mnemonic == list[i as int].mnemonic);
                    return Some(Error::DuplicateMnemonic);
                }
                j = j + 1;
            }
            if self.owns(owner, mnemonic) {
                return Some(Error::DuplicateMnemonic);
            }
            i = i + 1;
        }
        let mut i: usize = 0;
        while i < formats.len()
            invariant
                i <= formats.len(),
                list == views(formats@),
                !repeats(list),
                forall|a: int|
                    0 <= a < list.len() ==> !owns(self@, owner@, (#[trigger] list[a]).mnemonic),
                forall|a: int| 0 <= a < i ==> !conflicts(self@, #[trigger] list[a]),
            decreases formats.len() - i,
        {
            if self.conflicts(&formats[i]) {
                assert(conflicts(self@, list[i as int]));
                return Some(Error::ConflictingFormat);
            }
            i = i + 1;
        }
        None
    }

    /// Registers `insts` as the instructions of the unit `owner`. Either the
    /// whole list is registered or, where [`refusal`] names a reason, none
    /// of it.
    pub fn register(&mut self, insts: Vec<InstFormat>, owner: String) -> (outcome: Result<(), Error>)
        requires
            old(self).wf(),
        ensures
            final(self).wf(),
            match outcome {
                Ok(()) => {
                    &&& refusal(old(self)@, views(insts@), owner@) is None
                    &&& final(self)@ == old(self)@ + registrations(views(insts@), owner@)
                },
                Err(error) => {
                    &&& refusal(old(self)@, views(insts@), owner@) == Some(error)
                    &&& final(self)@ == old(self)@
                },
            },
    {
        match self.check(&insts, owner.as_str()) {
            Some(error) => {
                return Err(error);
            },
            None => {},
        }
        let ghost list = views(insts@);
        let ghost added = registrations(list, owner@);
        let mut i: usize = 0;
        while i < insts.len()
            invariant
                i <= insts.len(),
                list == views(insts@),
                added == registrations(list, owner@),
                self@ == old(self)@ + added.take(i as int),
            decreases insts.len() - i,
        {
            let format = insts[i].clone();
            let ghost before = self@;
            assert(list[i as int] == insts[i as int]@);
            self.table.push(Registration { format, owner: owner.clone() });
            assert(self@ =~= before.push(added[i as int]));
            assert(self@ =~= old(self)@ + added.take(i + 1));
            i = i + 1;
        }
        assert(added.take(i as int) =~= added);
        proof {
            lemma_registration_consistent(old(self)@, list, owner@);
        }
        Ok(())
    }

    /// Decodes `text`: see [`decode_spec`].
    pub fn decode(&self, text: &str) -> (outcome: Result<DecodedInst, Error>)
        ensures
            match outcome {
                Ok(inst) => decode_spec(self@, text@) == Ok::<DecodedView, DecodeError>(inst@)
                    && inst.wf(),
                Err(error) => decode_spec(self@, text@) is Err && error == Error::Decode(
                    decode_spec(self@, text@)->Err_0,
                ),
            },
    {
        let chars = chars_of(text);
        let start = scan_spaces(&chars, 0);
        let end = scan_token(&chars, start);
        let mnemonic = text.substring_char(start, end);
        let mut entry: usize = 0;
        while entry < self.table.len() && !str_eq(self.table[entry].format.mnemonic.as_str(), mnemonic)
            invariant
                entry <= self.table.len(),
                first_entry(self@, mnemonic@, entry as int) == first_entry(self@, mnemonic@, 0),
            decreases self.table.len() - entry,
        {
            assert(self@[entry as int] == self.table[entry as int]@);
            entry = entry + 1;
        }
        if entry >= self.table.len() {
            return Err(Error::Decode(DecodeError::UnknownMnemonic));
        }
        assert(self@[entry as int] == self.table[entry as int]@);
        let format = &self.table[entry].format;
        let from = scan_spaces(&chars, end);
        let operands = match parse_operands(&chars, from) {
            None => {
                return Err(Error::Decode(DecodeError::MalformedOperands));
            },
            Some(operands) => operands,
        };
        let arguments = match sources_of(format, &operands) {
            None => {
                return Err(Error::Decode(DecodeError::MalformedOperands));
            },
            Some(arguments) => arguments,
        };
        let writeback = if format.writeback {
            Some(operands[0])
        } else {
            None
        };
        let stations = self.owners(mnemonic);
        proof {
            lemma_operands_in_range(chars@, from as int);
        }
        Ok(DecodedInst { name: mnemonic.to_owned(), arguments, writeback, stations })
    }

    fn owners(&self, mnemonic: &str) -> (stations: Vec<String>)
        ensures
            views(stations@) == owners_of(self@, mnemonic@),
    {
        let mut stations: Vec<String> = Vec::new();
        let mut r: usize = 0;
        assert(self@.take(0) =~= Seq::<RegistrationView>::empty());
        while r < self.table.len()
            invariant
                r <= self.table.len(),
                views(stations@) == owners_of(self@.take(r as int), mnemonic@),
            decreases self.table.len() - r,
        {
            let entry = &self.table[r];
            assert(self@[r as int] == entry@);
            assert(self@.take(r + 1).drop_last() =~= self@.take(r as int));
            assert(self@.take(r + 1).last() == self@[r as int]);
            if str_eq(entry.format.mnemonic.as_str(), mnemonic) {
                stations.push(entry.owner.clone());
                assert(views(stations@) =~= owners_of(self@.take(r as int), mnemonic@).push(
                    entry.owner@,
                ));
            }
            r = r + 1;
        }
        assert(self@.take(r as int) =~= self@);
        stations
    }
}

/// A table stays consistent when a list that [`refusal`] lets pass is added.
pub proof fn lemma_registration_consistent(
    table: Seq<RegistrationView>,
    formats: Seq<FormatView>,
    owner: Seq<char>,
)
    requires
        consistent(table),
        refusal(table, formats, owner) is None,
    ensures
        consistent(table + registrations(formats, owner)),
{
    let added = registrations(formats, owner);
    let all = table + added;
    assert forall|a: int, b: int|
        0 <= a < b < all.len() && (#[trigger] all[a]).format.mnemonic == (
        #[trigger] all[b]).format.mnemonic implies same_shape(all[a].format, all[b].format)
        && all[a].owner != all[b].owner by {
        if b < table.len() {
            assert(all[a] == table[a] && all[b] == table[b]);
        } else if a < table.len() {
            let i = b - table.len();
            assert(all[b] == added[i]);
            assert(all[a] == table[a]);
            assert(formats[i].mnemonic == table[a].format.mnemonic);
            assert(!conflicts(table, formats[i]));
            assert(!owns(table, owner, formats[i].mnemonic));
        } else {
            let i = a - table.len();
            let j = b - table.len();
            assert(all[a] == added[i] && all[b] == added[j]);
            assert(formats[i].mnemonic == formats[j].mnemonic);
            assert(!repeats(formats));
        }
    }
}

/// Every register that a well-formed operand list names exists.
pub proof fn lemma_operands_in_range(text: Seq<char>, from: int)
    requires
        0 <= from <= text.len(),
    ensures
        operands_of_from(text, from) matches Some(operands) ==> forall|i: int|
            0 <= i < operands.len() ==> operand_in_range(#[trigger] operands[i]),
    decreases text.len() - from,
{
    if from < text.len() {
        lemma_scan_bounds(text, from);
        let end = token_end(text, from);
        lemma_scan_bounds(text, end);
        let next = skip_spaces(text, end);
        if operand_of(text.subrange(from, end)) is Some && next < text.len() && text[next] == ',' {
            lemma_scan_bounds(text, next + 1);
            let start = skip_spaces(text, next + 1);
            lemma_operands_in_range(text, start);
        }
    }
}

} // verus!
