//! Tags, operand states and the model of an execution unit.

use crate::arithmetic_unit;
use crate::bus::BusAccess;
use crate::decoder::{FormatView, InstFormat};
use crate::display::{decimal, numeral, occupancy_line};
use crate::error::{Error, IssueError};
use crate::result_bus::ResultBus;
use vstd::prelude::*;
use vstd::std_specs::cmp::PartialEqSpecImpl;

verus! {

/// The mathematical value of a tag: the name of the unit and the index of
/// the reservation-station slot whose result it stands for.
pub struct TagView {
    pub name: Seq<char>,
    pub slot: nat,
}

/// Names the value that slot `slot` of unit `name` will produce. A tag is
/// made once and never changes.
#[derive(Debug)]
pub struct RStag {
    name: String,
    slot: usize,
}

impl View for RStag {
    type V = TagView;

    closed spec fn view(&self) -> TagView {
        TagView { name: self.name@, slot: self.slot as nat }
    }
}

impl Clone for RStag {
    fn clone(&self) -> (copy: Self)
        ensures
            copy@ == self@,
    {
        RStag { name: self.name.clone(), slot: self.slot }
    }
}

impl PartialEq for RStag {
    fn eq(&self, other: &Self) -> (equal: bool) {
        self.name == other.name && self.slot == other.slot
    }
}

impl PartialEqSpecImpl for RStag {
    open spec fn obeys_eq_spec() -> bool {
        true
    }

    open spec fn eq_spec(&self, other: &Self) -> bool {
        self@ == other@
    }
}

impl RStag {
    /// The tag of slot `slot` of the unit called `name`.
    pub fn new(name: &str, slot: usize) -> (tag: RStag)
        ensures
            tag@ == (TagView { name: name@, slot: slot as nat }),
    {
        RStag { name: name.to_owned(), slot }
    }

    /// The name of the unit.
    pub fn name(&self) -> (name: &str)
        ensures
            name@ == self@.name,
    {
        self.name.as_str()
    }

    /// The index of the slot.
    pub fn slot(&self) -> (slot: usize)
        ensures
            slot == self@.slot,
    {
        self.slot
    }

    /// Whether both tags name the same slot of the same unit.
    pub fn same(&self, other: &RStag) -> (equal: bool)
        ensures
            equal == (self@ == other@),
    {
        self.name == other.name && self.slot == other.slot
    }
}

/// The mathematical value of an operand state.
pub enum ArgView {
    Waiting(TagView),
    Ready(u32),
}

/// The state of an operand: its value, or the tag of the slot that will
/// produce it.
#[derive(Debug)]
pub enum ArgVal {
    Waiting(RStag),
    Ready(u32),
}

impl View for ArgVal {
    type V = ArgView;

    open spec fn view(&self) -> ArgView {
        match self {
            ArgVal::Waiting(tag) => ArgView::Waiting(tag@),
            ArgVal::Ready(value) => ArgView::Ready(*value),
        }
    }
}

impl Clone for ArgVal {
    fn clone(&self) -> (copy: Self)
        ensures
            copy@ == self@,
    {
        match self {
            ArgVal::Waiting(tag) => ArgVal::Waiting(tag.clone()),
            ArgVal::Ready(value) => ArgVal::Ready(*value),
        }
    }
}

impl PartialEq for ArgVal {
    fn eq(&self, other: &Self) -> (equal: bool) {
        match (self, other) {
            (ArgVal::Waiting(a), ArgVal::Waiting(b)) => a.same(b),
            (ArgVal::Ready(a), ArgVal::Ready(b)) => *a == *b,
            _ => false,
        }
    }
}

impl PartialEqSpecImpl for ArgVal {
    open spec fn obeys_eq_spec() -> bool {
        true
    }

    open spec fn eq_spec(&self, other: &Self) -> bool {
        self@ == other@
    }
}

/// What a unit hands to the result bus when an instruction completes.
#[derive(Clone, Copy, Debug, PartialEq, Eq, Structural)]
pub enum ExecResult {
    /// The result of an arithmetic instruction.
    Arth(u32),
    /// The byte that a load received from the external bus.
    Load(u8),
}

impl ExecResult {
    /// The value that is forwarded and written to the register file.
    pub open spec fn spec_val(&self) -> u32 {
        match self {
            ExecResult::Arth(value) => *value,
            ExecResult::Load(byte) => *byte as u32,
        }
    }

    #[verifier::when_used_as_spec(spec_val)]
    pub fn val(&self) -> (value: u32)
        ensures
            value == self.spec_val(),
    {
        match self {
            ExecResult::Arth(value) => *value,
            ExecResult::Load(byte) => *byte as u32,
        }
    }
}

/// The views of the items of a sequence, in order.
pub open spec fn views<T: View>(items: Seq<T>) -> Seq<T::V> {
    Seq::new(items.len(), |i: int| items[i]@)
}

/// A copy of `operands` with the same views.
pub fn copy_operands(operands: &[ArgVal]) -> (copy: Vec<ArgVal>)
    ensures
        views(copy@) == views(operands@),
{
    let mut copy: Vec<ArgVal> = Vec::new();
    let mut i: usize = 0;
    while i < operands.len()
        invariant
            i <= operands.len(),
            copy.len() == i,
            forall|j: int| 0 <= j < i ==> copy[j]@ == operands[j]@,
        decreases operands.len() - i,
    {
        copy.push(operands[i].clone());
        i = i + 1;
    }
    assert(views(copy@) =~= views(operands@));
    copy
}

// ---------------------------------------------------------------------
// The model of a unit
// ---------------------------------------------------------------------
/// How far the transaction of an instruction on the external bus has got.
#[derive(Clone, Copy, Debug, PartialEq, Eq, Structural)]
pub enum Phase {
    /// No request has been made for it.
    Idle,
    /// Its request has been handed out and is not answered.
    Requested,
    /// The response to its request has arrived.
    Answered(u8),
}

/// An occupied reservation-station slot as the contracts see it: the
/// instruction that it holds, the states of its operands, the cycles that
/// are left once the operands are ready, and the phase of its transaction
/// on the external bus.
pub struct SlotView {
    pub mnemonic: Seq<char>,
    pub operands: Seq<ArgView>,
    pub remaining: nat,
    pub phase: Phase,
}

/// What a unit does with its instructions.
pub struct Conduct {
    /// The cycles that an instruction of a mnemonic takes once its operands
    /// are ready.
    pub latency: spec_fn(Seq<char>) -> nat,
    /// The result of the instruction in a slot.
    pub result: spec_fn(SlotView) -> ExecResult,
    /// The transaction on the external bus without which the instruction
    /// in a slot cannot complete, if there is one.
    pub transaction: spec_fn(SlotView) -> Option<BusAccess>,
}

/// A unit as the contracts see it: its name, the formats of the
/// instructions that it executes, what it does with them, its slots, each
/// free or occupied, the number of cycles that it has seen, and whether it
/// is out of order.
pub struct UnitView {
    pub name: Seq<char>,
    pub formats: Seq<FormatView>,
    pub conduct: Conduct,
    pub slots: Seq<Option<SlotView>>,
    /// The number of cycles by which the unit has been advanced.
    pub cycles: nat,
    /// Whether the unit reports a fault when it is stepped.
    pub broken: bool,
}

/// What the result bus holds.
pub type BusView = Option<(TagView, ExecResult)>;

/// The tag of slot `k` of `unit`.
pub open spec fn slot_tag(unit: UnitView, k: int) -> TagView {
    TagView { name: unit.name, slot: k as nat }
}

/// The lowest index at or after `from` whose flag is set; the length of the
/// sequence if there is none.
pub open spec fn first_set(flags: Seq<bool>, from: int) -> int
    decreases flags.len() - from,
{
    if 0 <= from < flags.len() && !flags[from] {
        first_set(flags, from + 1)
    } else {
        from
    }
}

/// The index that [`first_set`] names lies at or after `from`, at most at
/// the length, has its flag set if it is an index, and no index between
/// `from` and it has.
pub proof fn lemma_first_set(flags: Seq<bool>, from: int)
    requires
        0 <= from <= flags.len(),
    ensures
        from <= first_set(flags, from) <= flags.len(),
        first_set(flags, from) < flags.len() ==> flags[first_set(flags, from)],
        forall|k: int| from <= k < first_set(flags, from) ==> !(#[trigger] flags[k]),
    decreases flags.len() - from,
{
    if from < flags.len() && !flags[from] {
        lemma_first_set(flags, from + 1);
    }
}

/// An index whose flag is set, with none set between `from` and it, is the
/// one that [`first_set`] names.
pub proof fn lemma_first_set_is(flags: Seq<bool>, from: int, k: int)
    requires
        0 <= from <= k <= flags.len(),
        k < flags.len() ==> flags[k],
        forall|i: int| from <= i < k ==> !(#[trigger] flags[i]),
    ensures
        first_set(flags, from) == k,
    decreases k - from,
{
    if from < k {
        lemma_first_set_is(flags, from + 1, k);
    }
}

/// Whether one of `formats` has this mnemonic and this many sources.
pub open spec fn accepts(formats: Seq<FormatView>, mnemonic: Seq<char>, count: nat) -> bool {
    exists|i: int|
        0 <= i < formats.len() && (#[trigger] formats[i]).mnemonic == mnemonic
            && formats[i].sources.len() == count
}

/// Whether one of `formats` has this mnemonic and a destination.
pub open spec fn writes_back(formats: Seq<FormatView>, mnemonic: Seq<char>) -> bool {
    exists|i: int|
        0 <= i < formats.len() && (#[trigger] formats[i]).mnemonic == mnemonic
            && formats[i].writeback
}

/// For each slot, whether it is free.
pub open spec fn free(slots: Seq<Option<SlotView>>) -> Seq<bool> {
    Seq::new(slots.len(), |k: int| slots[k] is None)
}

/// Whether a slot is free.
pub open spec fn has_free_slot(slots: Seq<Option<SlotView>>) -> bool {
    exists|k: int| 0 <= k < slots.len() && (#[trigger] slots[k]) is None
}

/// The number of occupied slots.
pub open spec fn occupied(slots: Seq<Option<SlotView>>) -> nat
    decreases slots.len(),
{
    if slots.len() == 0 {
        0
    } else {
        occupied(slots.drop_last()) + if slots.last() is Some {
            1nat
        } else {
            0nat
        }
    }
}

/// Whether `unit` takes an instruction of this mnemonic and operand count
/// now. A unit with slots needs a free one. A unit without slots holds
/// nothing: it completes what it accepts at once, and so accepts only
/// instructions that have no destination.
pub open spec fn issuable(unit: UnitView, mnemonic: Seq<char>, count: nat) -> bool {
    &&& accepts(unit.formats, mnemonic, count)
    &&& if unit.slots.len() == 0 {
        !writes_back(unit.formats, mnemonic)
    } else {
        has_free_slot(unit.slots)
    }
}

/// The slot that takes the next instruction: the free slot of the lowest
/// index. A unit without slots gives its tags the index zero.
pub open spec fn issue_slot(unit: UnitView) -> nat {
    if unit.slots.len() == 0 {
        0
    } else {
        first_set(free(unit.slots), 0) as nat
    }
}

/// The unit after it has taken an instruction: a unit with slots holds it
/// in the slot of [`issue_slot`], with the latency of its mnemonic ahead of
/// it and no request made for it.
pub open spec fn issued_unit(pre: UnitView, mnemonic: Seq<char>, operands: Seq<ArgView>)
    -> UnitView {
    if pre.slots.len() == 0 {
        pre
    } else {
        UnitView {
            slots: pre.slots.update(
                issue_slot(pre) as int,
                Some(
                    SlotView {
                        mnemonic,
                        operands,
                        remaining: (pre.conduct.latency)(mnemonic),
                        phase: Phase::Idle,
                    },
                ),
            ),
            ..pre
        }
    }
}

/// What `try_issue` owes: it succeeds exactly where the instruction is
/// issuable. It then returns the tag of the slot of [`issue_slot`] and the
/// unit is that of [`issued_unit`]. Where it fails nothing has changed.
pub open spec fn issue_outcome(
    pre: UnitView,
    mnemonic: Seq<char>,
    operands: Seq<ArgView>,
    outcome: Result<TagView, IssueError>,
    post: UnitView,
) -> bool {
    match outcome {
        Ok(tag) => {
            &&& issuable(pre, mnemonic, operands.len())
            &&& tag == slot_tag(pre, issue_slot(pre) as int)
            &&& post == issued_unit(pre, mnemonic, operands)
        },
        Err(error) => {
            &&& !issuable(pre, mnemonic, operands.len())
            &&& post == pre
            &&& error == if accepts(pre.formats, mnemonic, operands.len()) {
                IssueError::NoFreeSlot
            } else {
                IssueError::Unsupported
            }
        },
    }
}

/// The slot of [`issue_slot`] of a unit that has a free slot is one, and
/// is free.
pub proof fn lemma_issue_slot(unit: UnitView)
    requires
        has_free_slot(unit.slots),
    ensures
        issue_slot(unit) < unit.slots.len(),
        unit.slots[issue_slot(unit) as int] is None,
{
    let flags = free(unit.slots);
    lemma_first_set(flags, 0);
    let k = choose|k: int| 0 <= k < unit.slots.len() && (#[trigger] unit.slots[k]) is None;
    assert(flags[k]);
}

/// The operand after the broadcast of `(tag, value)`.
pub open spec fn resolve_operand(operand: ArgView, tag: TagView, value: u32) -> ArgView {
    if operand == ArgView::Waiting(tag) {
        ArgView::Ready(value)
    } else {
        operand
    }
}

/// The slot after the broadcast of `(tag, value)`.
pub open spec fn forward_slot(slot: Option<SlotView>, tag: TagView, value: u32) -> Option<
    SlotView,
> {
    match slot {
        None => None,
        Some(held) => Some(
            SlotView {
                operands: Seq::new(
                    held.operands.len(),
                    |j: int| resolve_operand(held.operands[j], tag, value),
                ),
                ..held
            },
        ),
    }
}

/// The slots after the broadcast of `(tag, value)`: every operand that
/// waited for `tag` is ready with `value`.
pub open spec fn forward_slots(slots: Seq<Option<SlotView>>, tag: TagView, value: u32) -> Seq<
    Option<SlotView>,
> {
    Seq::new(slots.len(), |k: int| forward_slot(slots[k], tag, value))
}

/// The unit after the broadcast of `(tag, value)`.
pub open spec fn forwarded(unit: UnitView, tag: TagView, value: u32) -> UnitView {
    UnitView { slots: forward_slots(unit.slots, tag, value), ..unit }
}

/// Whether every operand has its value.
pub open spec fn all_ready(operands: Seq<ArgView>) -> bool {
    forall|j: int| 0 <= j < operands.len() ==> (#[trigger] operands[j]) is Ready
}

/// Whether the bus holds a result under `tag`.
pub open spec fn carries(bus: BusView, tag: TagView) -> bool {
    match bus {
        Some((held, _)) => held == tag,
        None => false,
    }
}

// ---------------------------------------------------------------------
// One cycle of a unit
// ---------------------------------------------------------------------
/// The slot after the progress of one cycle: one cycle less is left if the
/// operands are ready and any was left.
pub open spec fn progressed(slot: SlotView) -> SlotView {
    if all_ready(slot.operands) && slot.remaining > 0 {
        SlotView { remaining: (slot.remaining - 1) as nat, ..slot }
    } else {
        slot
    }
}

/// Whether the instruction in the slot is complete at the end of this
/// cycle: its operands are ready, no cycle is left, and the response to its
/// transaction has arrived if it needs one.
pub open spec fn completes(unit: UnitView, slot: Option<SlotView>) -> bool {
    &&& slot matches Some(held)
    &&& all_ready(held.operands)
    &&& progressed(held).remaining == 0
    &&& ((unit.conduct.transaction)(held) is Some ==> held.phase is Answered)
}

/// For each slot, whether its instruction is complete and has a result to
/// broadcast.
pub open spec fn broadcasting(unit: UnitView) -> Seq<bool> {
    Seq::new(
        unit.slots.len(),
        |k: int|
            completes(unit, unit.slots[k]) && writes_back(unit.formats, unit.slots[k]->0.mnemonic),
    )
}

/// The slot whose result goes to the result bus in this cycle: the lowest
/// that has one to broadcast, if the bus is empty; the number of slots if
/// none does.
pub open spec fn winner(unit: UnitView, bus: BusView) -> int {
    if bus is None {
        first_set(broadcasting(unit), 0)
    } else {
        unit.slots.len() as int
    }
}

/// Whether slot `k` is freed in this cycle: its instruction is complete,
/// and it has no destination or its result goes to the result bus.
pub open spec fn retires(unit: UnitView, bus: BusView, k: int) -> bool {
    &&& completes(unit, unit.slots[k])
    &&& (!writes_back(unit.formats, unit.slots[k]->0.mnemonic) || k == winner(unit, bus))
}

/// Slot `k` after one cycle.
pub open spec fn advanced_slot(unit: UnitView, bus: BusView, k: int) -> Option<SlotView> {
    if retires(unit, bus, k) {
        None
    } else {
        match unit.slots[k] {
            Some(held) => Some(progressed(held)),
            None => None,
        }
    }
}

/// The unit after one cycle: it has seen one cycle more, the slots that
/// retire are free, and the others have made the progress of the cycle.
pub open spec fn advanced(unit: UnitView, bus: BusView) -> UnitView {
    UnitView {
        slots: Seq::new(unit.slots.len(), |k: int| advanced_slot(unit, bus, k)),
        cycles: unit.cycles + 1,
        ..unit
    }
}

/// The result bus after one cycle of the unit: the result of the slot of
/// [`winner`] under that slot's tag, if there is such a slot; else what it
/// held.
pub open spec fn bus_after(unit: UnitView, bus: BusView) -> BusView {
    let won = winner(unit, bus);
    if won < unit.slots.len() {
        Some((slot_tag(unit, won), (unit.conduct.result)(unit.slots[won]->0)))
    } else {
        bus
    }
}

/// Whether two slots hold the same instruction with the same operands, or
/// are both free.
pub open spec fn same_instruction(before: Option<SlotView>, after: Option<SlotView>) -> bool {
    match (before, after) {
        (None, None) => true,
        (Some(a), Some(b)) => a.mnemonic == b.mnemonic && a.operands == b.operands,
        _ => false,
    }
}

/// What one cycle may do to slot `k`: leave its instruction and operands as
/// they are, or free it. A slot is freed only when all its operands are
/// ready, and only in one of two ways: its result has been placed on the
/// bus, which was empty, under the slot's own tag; or its instruction has
/// no destination.
pub open spec fn slot_stepped(
    pre: UnitView,
    k: int,
    after: Option<SlotView>,
    bus_before: BusView,
    bus_after: BusView,
) -> bool {
    ||| same_instruction(pre.slots[k], after)
    ||| {
        &&& pre.slots[k] matches Some(held)
        &&& after is None
        &&& all_ready(held.operands)
        &&& {
            ||| (bus_before is None && carries(bus_after, slot_tag(pre, k)))
            ||| !writes_back(pre.formats, held.mnemonic)
        }
    }
}

/// What a cycle never does, whatever the instructions: the unit has been
/// advanced by one cycle; name, formats, conduct and the number of slots
/// stay; each slot is stepped as [`slot_stepped`] allows; and the bus is
/// left as it was, or was empty and now holds a result under the tag of a
/// slot of this unit that was occupied and is free.
pub open spec fn stepped(pre: UnitView, bus_before: BusView, post: UnitView, bus_after: BusView)
    -> bool {
    &&& post.cycles == pre.cycles + 1
    &&& post.name == pre.name
    &&& post.formats == pre.formats
    &&& post.conduct == pre.conduct
    &&& post.broken == pre.broken
    &&& post.slots.len() == pre.slots.len()
    &&& forall|k: int|
        0 <= k < pre.slots.len() ==> slot_stepped(
            pre,
            k,
            #[trigger] post.slots[k],
            bus_before,
            bus_after,
        )
    &&& {
        ||| bus_after == bus_before
        ||| {
            &&& bus_before is None
            &&& bus_after matches Some((tag, _))
            &&& tag.name == pre.name
            &&& tag.slot < pre.slots.len()
            &&& pre.slots[tag.slot as int] is Some
            &&& post.slots[tag.slot as int] is None
        }
    }
}

/// One cycle of a unit keeps within [`stepped`].
pub proof fn lemma_advanced_stepped(unit: UnitView, bus: BusView)
    ensures
        stepped(unit, bus, advanced(unit, bus), bus_after(unit, bus)),
{
    let post = advanced(unit, bus);
    let after = bus_after(unit, bus);
    let won = winner(unit, bus);
    lemma_first_set(broadcasting(unit), 0);
    assert forall|k: int| 0 <= k < unit.slots.len() implies slot_stepped(
        unit,
        k,
        #[trigger] post.slots[k],
        bus,
        after,
    ) by {
        if retires(unit, bus, k) {
            if writes_back(unit.formats, unit.slots[k]->0.mnemonic) {
                assert(k == won);
                assert(broadcasting(unit)[k]);
            }
        }
    }
    if won < unit.slots.len() {
        assert(broadcasting(unit)[won]);
        assert(retires(unit, bus, won));
        assert(post.slots[won] is None);
    }
}

// ---------------------------------------------------------------------
// The transactions of a unit on the external bus
// ---------------------------------------------------------------------
/// For each slot, whether its request is unanswered.
pub open spec fn requested(unit: UnitView) -> Seq<bool> {
    Seq::new(
        unit.slots.len(),
        |k: int| unit.slots[k] matches Some(held) && held.phase == Phase::Requested,
    )
}

/// Whether the unit has handed out a request that is not yet answered.
pub open spec fn awaiting(unit: UnitView) -> bool {
    first_set(requested(unit), 0) < unit.slots.len()
}

/// For each slot, whether a request can be made for it: its instruction
/// needs a transaction, its operands are ready, and none has been made.
pub open spec fn askable(unit: UnitView) -> Seq<bool> {
    Seq::new(
        unit.slots.len(),
        |k: int|
            unit.slots[k] matches Some(held) && all_ready(held.operands) && held.phase
                == Phase::Idle && (unit.conduct.transaction)(held) is Some,
    )
}

/// The transaction that the unit asks for when it is asked now: that of
/// the lowest slot for which a request can be made, unless a request is
/// unanswered.
pub open spec fn wanted(unit: UnitView) -> Option<BusAccess> {
    let at = first_set(askable(unit), 0);
    if !awaiting(unit) && at < unit.slots.len() {
        (unit.conduct.transaction)(unit.slots[at]->0)
    } else {
        None
    }
}

/// The slot in another phase.
pub open spec fn in_phase(slot: Option<SlotView>, phase: Phase) -> Option<SlotView> {
    match slot {
        Some(held) => Some(SlotView { phase, ..held }),
        None => None,
    }
}

/// The unit after it has been asked for its request: the slot whose
/// transaction it asked for awaits the response.
pub open spec fn asked(unit: UnitView) -> UnitView {
    let at = first_set(askable(unit), 0);
    if wanted(unit) is Some {
        UnitView {
            slots: unit.slots.update(at, in_phase(unit.slots[at], Phase::Requested)),
            ..unit
        }
    } else {
        unit
    }
}

/// The unit after the response `response` has been delivered: the lowest
/// slot that awaited one holds it. A unit that awaited none is as it was.
pub open spec fn answered_unit(unit: UnitView, response: u8) -> UnitView {
    let at = first_set(requested(unit), 0);
    if at < unit.slots.len() {
        UnitView {
            slots: unit.slots.update(at, in_phase(unit.slots[at], Phase::Answered(response))),
            ..unit
        }
    } else {
        unit
    }
}

/// The view of what `try_issue` returned.
pub open spec fn outcome_view(outcome: Result<RStag, IssueError>) -> Result<TagView, IssueError> {
    match outcome {
        Ok(tag) => Ok(tag@),
        Err(error) => Err(error),
    }
}

/// The text that shows a unit: its name and how many of its slots are
/// occupied.
pub open spec fn rendering(unit: UnitView) -> Seq<char> {
    occupancy_line(unit.name, occupied(unit.slots), unit.slots.len())
}

/// A unit with reservation-station slots: what the processor asks of every
/// unit, whatever it computes. The two `spec` functions are the model of
/// the unit, of which the contracts speak.
pub trait ExecPath {
    /// The unit's own consistency.
    spec fn inv(&self) -> bool;

    /// The unit as the contracts see it.
    spec fn state(&self) -> UnitView;

    /// The name under which the unit is registered and which its tags carry.
    fn name(&self) -> (name: String)
        requires
            self.inv(),
        ensures
            name@ == self.state().name,
    ;

    /// The formats of the instructions that the unit executes.
    fn list_insts(&self) -> (formats: Vec<InstFormat>)
        requires
            self.inv(),
        ensures
            views(formats@) == self.state().formats,
    ;

    /// The number of occupied slots.
    fn pending(&self) -> (count: usize)
        requires
            self.inv(),
        ensures
            count == occupied(self.state().slots),
    ;

    /// Takes the instruction into the free slot of the lowest index and
    /// returns the slot's tag: see [`issue_outcome`].
    fn try_issue(&mut self, mnemonic: &str, operands: &[ArgVal]) -> (outcome: Result<
        RStag,
        IssueError,
    >)
        requires
            old(self).inv(),
        ensures
            final(self).inv(),
            issue_outcome(
                old(self).state(),
                mnemonic@,
                views(operands@),
                outcome_view(outcome),
                final(self).state(),
            ),
    ;

    /// Takes note of the broadcast `(tag, value)`.
    fn forward(&mut self, tag: &RStag, value: u32)
        requires
            old(self).inv(),
        ensures
            final(self).inv(),
            final(self).state() == forwarded(old(self).state(), tag@, value),
    ;

    /// Advances the unit by one cycle: see [`advanced`] and [`bus_after`].
    /// A unit that is out of order reports a fault, and only such a unit
    /// does; the cycle passes all the same.
    fn next_cycle(&mut self, bus: &mut ResultBus) -> (outcome: Result<(), Error>)
        requires
            old(self).inv(),
        ensures
            final(self).inv(),
            final(self).state() == advanced(old(self).state(), old(bus)@),
            final(bus)@ == bus_after(old(self).state(), old(bus)@),
            outcome is Err <==> old(self).state().broken,
    ;

    /// The text of [`rendering`].
    fn dump(&self) -> (text: String)
        requires
            self.inv(),
        ensures
            text@ == rendering(self.state()),
    ;
}

/// A unit that completes an instruction by a transaction on the external
/// bus. It has the duties of an [`ExecPath`] and two more: to say which
/// transaction it needs, and to take the response.
pub trait AccessPath {
    /// The unit's own consistency.
    spec fn inv(&self) -> bool;

    /// The unit as the contracts see it.
    spec fn state(&self) -> UnitView;

    /// The name under which the unit is registered and which its tags carry.
    fn name(&self) -> (name: String)
        requires
            self.inv(),
        ensures
            name@ == self.state().name,
    ;

    /// The formats of the instructions that the unit executes.
    fn list_insts(&self) -> (formats: Vec<InstFormat>)
        requires
            self.inv(),
        ensures
            views(formats@) == self.state().formats,
    ;

    /// The number of occupied slots.
    fn pending(&self) -> (count: usize)
        requires
            self.inv(),
        ensures
            count == occupied(self.state().slots),
    ;

    /// Takes the instruction into the free slot of the lowest index and
    /// returns the slot's tag: see [`issue_outcome`].
    fn try_issue(&mut self, mnemonic: &str, operands: &[ArgVal]) -> (outcome: Result<
        RStag,
        IssueError,
    >)
        requires
            old(self).inv(),
        ensures
            final(self).inv(),
            issue_outcome(
                old(self).state(),
                mnemonic@,
                views(operands@),
                outcome_view(outcome),
                final(self).state(),
            ),
    ;

    /// Takes note of the broadcast `(tag, value)`.
    fn forward(&mut self, tag: &RStag, value: u32)
        requires
            old(self).inv(),
        ensures
            final(self).inv(),
            final(self).state() == forwarded(old(self).state(), tag@, value),
    ;

    /// Advances the unit by one cycle: see [`advanced`] and [`bus_after`].
    /// A unit that is out of order reports a fault, and only such a unit
    /// does; the cycle passes all the same.
    fn next_cycle(&mut self, bus: &mut ResultBus) -> (outcome: Result<(), Error>)
        requires
            old(self).inv(),
        ensures
            final(self).inv(),
            final(self).state() == advanced(old(self).state(), old(bus)@),
            final(bus)@ == bus_after(old(self).state(), old(bus)@),
            outcome is Err <==> old(self).state().broken,
    ;

    /// The transaction that the unit needs next: see [`wanted`]. Handing it
    /// out makes the slot that needs it await the response.
    fn request(&mut self) -> (request: Option<BusAccess>)
        requires
            old(self).inv(),
        ensures
            final(self).inv(),
            request == wanted(old(self).state()),
            final(self).state() == asked(old(self).state()),
    ;

    /// Takes the response to the request that the unit awaits: see
    /// [`answered_unit`].
    fn resolve(&mut self, response: u8)
        requires
            old(self).inv(),
        ensures
            final(self).inv(),
            final(self).state() == answered_unit(old(self).state(), response),
    ;

    /// The text of [`rendering`].
    fn dump(&self) -> (text: String)
        requires
            self.inv(),
        ensures
            text@ == rendering(self.state()),
    ;
}

/// The name of the unit that the factory makes for a function under a
/// serial number: the function followed by the number.
pub open spec fn unit_name(func: Seq<char>, serial: nat) -> Seq<char> {
    func + numeral(serial)
}

/// Makes the unit of the function `func` with the serial number `serial`.
/// The function `arth` is known: it gives an arithmetic unit with all slots
/// free, called `arth` followed by the serial number, so that units made
/// under different numbers can be registered side by side. Every other
/// function is refused.
pub fn execution_path_factory(func: &str, serial: usize) -> (outcome: Result<
    Box<arithmetic_unit::Unit>,
    Error,
>)
    ensures
        match outcome {
            Ok(unit) => {
                &&& func@ == "arth"@
                &&& unit.inv()
                &&& unit.state() == arithmetic_unit::fresh(unit_name(func@, serial as nat))
            },
            Err(error) => func@ != "arth"@ && error == Error::UnsupportedUnit,
        },
{
    if crate::decoder::str_eq(func, "arth") {
        let mut name = func.to_owned();
        name.append(decimal(serial as u64).as_str());
        Ok(Box::new(arithmetic_unit::Unit::named(name.as_str())))
    } else {
        Err(Error::UnsupportedUnit)
    }
}

/// Units that the factory makes for one function under different serial
/// numbers have different names.
pub proof fn lemma_unit_names_differ(func: Seq<char>, first: nat, second: nat)
    requires
        first != second,
    ensures
        unit_name(func, first) != unit_name(func, second),
{
    crate::display::lemma_numeral_value(first);
    crate::display::lemma_numeral_value(second);
    let a = unit_name(func, first);
    let b = unit_name(func, second);
    if a == b {
        assert(a.subrange(func.len() as int, a.len() as int) =~= numeral(first));
        assert(b.subrange(func.len() as int, b.len() as int) =~= numeral(second));
    }
}

} // verus!
