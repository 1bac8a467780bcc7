//! The processor: the units, the register file, the result bus and the bus
//! controller, and the protocol of one cycle.
//!
//! A cycle commits the result that the result bus holds, decodes and issues
//! one instruction, and steps the units. The units that only compute are
//! stepped first, then those that use the external bus, each kind in the
//! order of registration. The result bus has one place: where several units
//! complete a result in one cycle it goes to the one that is stepped first,
//! and the others offer their results again in later cycles.

pub use crate::bus::BusAccess;
use crate::bus::{popped, pop_result, responded, BusController, ControllerView, RequestView};
use crate::coherence::{
    coherent, lemma_bus_traffic_coherent, lemma_controller_coherent, lemma_cycle_coherent, lemma_initial_coherent,
    lemma_registration_coherent, quiet,
};
use crate::decoder::{
    consistent, decode_spec, refusal, registrations, ArgType, DecodedInst, DecodedView, Decoder,
    InstFormat, RegistrationView,
};
use crate::error::{Error, IssueError};
use crate::execution_path::{
    advanced, answered_unit, asked, bus_after, forwarded, has_free_slot, issuable, issue_outcome,
    issue_slot, lemma_advanced_stepped, lemma_first_set, lemma_issue_slot, occupied, outcome_view,
    rendering, same_instruction, slot_stepped, slot_tag, stepped, views, wanted, AccessPath,
    ArgVal, ArgView, BusView, ExecPath, Phase, RStag, SlotView, TagView, UnitView,
};
use crate::display::{decimal, numeral};
use crate::nop_unit;
use crate::register::{
    read_spec, rename_spec, write_spec, RegisterFile, RegisterView, REGISTER_COUNT,
};
use crate::result_bus::ResultBus;
use vstd::prelude::*;
use vstd::string::*;

verus! {

/// A registered unit: the unit of the idle instruction, one that only
/// computes, or one that also uses the external bus.
enum Path<E: ?Sized + ExecPath, A: ?Sized + AccessPath> {
    Idle(nop_unit::Unit),
    Exec(Box<E>),
    Access(Box<A>),
}

/// A registered unit as the contracts see it.
pub struct PathView {
    pub unit: UnitView,
    /// Whether the unit uses the external bus.
    pub access: bool,
}

/// The transaction that a registered unit asks for when it is asked now;
/// none for a unit that does not use the external bus.
pub open spec fn path_wanted(path: PathView) -> Option<BusAccess> {
    if path.access {
        wanted(path.unit)
    } else {
        None
    }
}

/// A registered unit after it has been asked for its request.
pub open spec fn path_asked(path: PathView) -> PathView {
    if path.access {
        PathView { unit: asked(path.unit), ..path }
    } else {
        path
    }
}

/// A registered unit after the response `response` has been delivered to
/// it; a unit that does not use the external bus takes none.
pub open spec fn path_answered(path: PathView, response: u8) -> PathView {
    if path.access {
        PathView { unit: answered_unit(path.unit, response), ..path }
    } else {
        path
    }
}

impl<E: ?Sized + ExecPath, A: ?Sized + AccessPath> View for Path<E, A> {
    type V = PathView;

    closed spec fn view(&self) -> PathView {
        match self {
            Path::Idle(unit) => PathView { unit: unit.state(), access: false },
            Path::Exec(unit) => PathView { unit: unit.state(), access: false },
            Path::Access(unit) => PathView { unit: unit.state(), access: true },
        }
    }
}

impl<E: ?Sized + ExecPath, A: ?Sized + AccessPath> Path<E, A> {
    /// The unit's own consistency.
    closed spec fn inv(&self) -> bool {
        match self {
            Path::Idle(unit) => unit.inv(),
            Path::Exec(unit) => unit.inv(),
            Path::Access(unit) => unit.inv(),
        }
    }

    fn name(&self) -> (name: String)
        requires
            self.inv(),
        ensures
            name@ == self@.unit.name,
    {
        match self {
            Path::Idle(unit) => unit.name(),
            Path::Exec(unit) => unit.name(),
            Path::Access(unit) => unit.name(),
        }
    }

    fn list_insts(&self) -> (formats: Vec<InstFormat>)
        requires
            self.inv(),
        ensures
            views(formats@) == self@.unit.formats,
    {
        match self {
            Path::Idle(unit) => unit.list_insts(),
            Path::Exec(unit) => unit.list_insts(),
            Path::Access(unit) => unit.list_insts(),
        }
    }

    fn pending(&self) -> (count: usize)
        requires
            self.inv(),
        ensures
            count == occupied(self@.unit.slots),
    {
        match self {
            Path::Idle(unit) => unit.pending(),
            Path::Exec(unit) => unit.pending(),
            Path::Access(unit) => unit.pending(),
        }
    }

    fn try_issue(&mut self, mnemonic: &str, operands: &[ArgVal]) -> (outcome: Result<
        RStag,
        IssueError,
    >)
        requires
            old(self).inv(),
        ensures
            final(self).inv(),
            final(self)@.access == old(self)@.access,
            issue_outcome(
                old(self)@.unit,
                mnemonic@,
                views(operands@),
                outcome_view(outcome),
                final(self)@.unit,
            ),
    {
        match self {
            Path::Idle(unit) => unit.try_issue(mnemonic, operands),
            Path::Exec(unit) => unit.try_issue(mnemonic, operands),
            Path::Access(unit) => unit.try_issue(mnemonic, operands),
        }
    }

    fn forward(&mut self, tag: &RStag, value: u32)
        requires
            old(self).inv(),
        ensures
            final(self).inv(),
            final(self)@ == (PathView {
                unit: forwarded(old(self)@.unit, tag@, value),
                ..old(self)@
            }),
    {
        match self {
            Path::Idle(unit) => unit.forward(tag, value),
            Path::Exec(unit) => unit.forward(tag, value),
            Path::Access(unit) => unit.forward(tag, value),
        }
    }

    fn next_cycle(&mut self, bus: &mut ResultBus) -> (outcome: Result<(), Error>)
        requires
            old(self).inv(),
        ensures
            final(self).inv(),
            final(self)@ == (PathView {
                unit: advanced(old(self)@.unit, old(bus)@),
                ..old(self)@
            }),
            final(bus)@ == bus_after(old(self)@.unit, old(bus)@),
            outcome is Err <==> old(self)@.unit.broken,
    {
        match self {
            Path::Idle(unit) => unit.next_cycle(bus),
            Path::Exec(unit) => unit.next_cycle(bus),
            Path::Access(unit) => unit.next_cycle(bus),
        }
    }

    fn request(&mut self) -> (request: Option<BusAccess>)
        requires
            old(self).inv(),
        ensures
            final(self).inv(),
            request == path_wanted(old(self)@),
            final(self)@ == path_asked(old(self)@),
    {
        match self {
            Path::Idle(_) => None,
            Path::Exec(_) => None,
            Path::Access(unit) => unit.request(),
        }
    }

    fn resolve(&mut self, response: u8)
        requires
            old(self).inv(),
        ensures
            final(self).inv(),
            final(self)@ == path_answered(old(self)@, response),
    {
        match self {
            Path::Idle(_) => {},
            Path::Exec(_) => {},
            Path::Access(unit) => unit.resolve(response),
        }
    }

    fn dump(&self) -> (text: String)
        requires
            self.inv(),
        ensures
            text@ == rendering(self@.unit),
    {
        match self {
            Path::Idle(unit) => unit.dump(),
            Path::Exec(unit) => unit.dump(),
            Path::Access(unit) => unit.dump(),
        }
    }
}

/// The processor as the contracts see it.
pub struct ProcessorView {
    /// The address of the instruction that is fetched next.
    pub pc: nat,
    pub registers: Seq<RegisterView>,
    pub bus: BusView,
    /// The units in the order of their registration.
    pub units: Seq<PathView>,
    /// The formats that the units have registered with the decoder.
    pub table: Seq<RegistrationView>,
    pub controller: ControllerView,
}

/// The index of the first unit called `name` at or after `from`; the number
/// of units if there is none.
pub open spec fn position(units: Seq<PathView>, name: Seq<char>, from: int) -> int
    decreases units.len() - from,
{
    if 0 <= from < units.len() && units[from].unit.name != name {
        position(units, name, from + 1)
    } else {
        from
    }
}

/// Whether a unit is called `name`.
pub open spec fn registered(units: Seq<PathView>, name: Seq<char>) -> bool {
    position(units, name, 0) < units.len()
}

/// Whether a unit that uses the external bus is called `name`.
pub open spec fn handles(units: Seq<PathView>, name: Seq<char>) -> bool {
    registered(units, name) && units[position(units, name, 0)].access
}

/// What holds of the processor between any two calls: no two units have
/// one name, there are [`REGISTER_COUNT`] registers, the decoder's table is
/// consistent, and every bus request, waiting or handed out, names a
/// registered unit that uses the external bus.
pub open spec fn valid(view: ProcessorView) -> bool {
    &&& forall|i: int, j: int|
        0 <= i < j < view.units.len() ==> (#[trigger] view.units[i]).unit.name != (
        #[trigger] view.units[j]).unit.name
    &&& view.registers.len() == REGISTER_COUNT
    &&& consistent(view.table)
    &&& forall|r: int|
        0 <= r < view.controller.queue.len() ==> handles(
            view.units,
            (#[trigger] view.controller.queue[r]).handler,
        )
    &&& view.controller.handler matches Some(name) ==> handles(view.units, name)
}

/// The position of `name` lies at or after `from`, at most at the number of
/// units, holds a unit of that name if it is an index, and no unit between
/// `from` and it has that name.
pub proof fn lemma_position(units: Seq<PathView>, name: Seq<char>, from: int)
    requires
        0 <= from <= units.len(),
    ensures
        from <= position(units, name, from) <= units.len(),
        position(units, name, from) < units.len() ==> units[position(units, name, from)].unit.name
            == name,
        forall|k: int|
            from <= k < position(units, name, from) ==> (#[trigger] units[k]).unit.name != name,
    decreases units.len() - from,
{
    if from < units.len() && units[from].unit.name != name {
        lemma_position(units, name, from + 1);
    }
}

/// Whether `b` holds the units of `a` under the same names and of the same
/// kinds.
pub open spec fn same_registry(a: Seq<PathView>, b: Seq<PathView>) -> bool {
    &&& a.len() == b.len()
    &&& forall|i: int|
        0 <= i < a.len() ==> (#[trigger] b[i]).unit.name == a[i].unit.name && b[i].access
            == a[i].access
}

/// Names are found at the same positions in two registries of the same
/// names.
pub proof fn lemma_registry_from(a: Seq<PathView>, b: Seq<PathView>, name: Seq<char>, from: int)
    requires
        same_registry(a, b),
        0 <= from <= a.len(),
    ensures
        position(b, name, from) == position(a, name, from),
    decreases a.len() - from,
{
    if from < a.len() {
        assert(b[from].unit.name == a[from].unit.name);
        if a[from].unit.name != name {
            lemma_registry_from(a, b, name, from + 1);
        }
    }
}

/// Two registries of the same names register and handle the same names.
pub proof fn lemma_registry(a: Seq<PathView>, b: Seq<PathView>, name: Seq<char>)
    requires
        same_registry(a, b),
    ensures
        position(b, name, 0) == position(a, name, 0),
        registered(b, name) == registered(a, name),
        handles(b, name) == handles(a, name),
{
    lemma_registry_from(a, b, name, 0);
    lemma_position(a, name, 0);
}

/// Where no two units have one name, a unit is found at its own index.
pub proof fn lemma_position_unique(units: Seq<PathView>, i: int)
    requires
        0 <= i < units.len(),
        forall|a: int, b: int|
            0 <= a < b < units.len() ==> (#[trigger] units[a]).unit.name != (
            #[trigger] units[b]).unit.name,
    ensures
        position(units, units[i].unit.name, 0) == i,
{
    lemma_position(units, units[i].unit.name, 0);
    let at = position(units, units[i].unit.name, 0);
    if at < i {
        assert(units[at].unit.name != units[i].unit.name);
    }
}

/// The units after the broadcast of `(tag, value)`.
pub open spec fn after_forward(units: Seq<PathView>, tag: TagView, value: u32) -> Seq<PathView> {
    Seq::new(
        units.len(),
        |i: int| PathView { unit: forwarded(units[i].unit, tag, value), ..units[i] },
    )
}

/// The processor after the commit: what the result bus held has been
/// forwarded to every unit and written to the register file, and the bus is
/// empty. With an empty bus nothing changes.
pub open spec fn committed(view: ProcessorView) -> ProcessorView {
    match view.bus {
        None => view,
        Some((tag, result)) => ProcessorView {
            bus: None,
            registers: write_spec(view.registers, tag, result.spec_val()),
            units: after_forward(view.units, tag, result.spec_val()),
            ..view
        },
    }
}

/// The state of a source operand at issue: what the register file shows
/// for a register, the value itself for an immediate.
pub open spec fn operand_state(registers: Seq<RegisterView>, argument: ArgType) -> ArgView {
    match argument {
        ArgType::Reg(idx) => read_spec(registers, idx as int),
        ArgType::Imm(value) => ArgView::Ready(value),
    }
}

/// The states of the source operands at issue.
pub open spec fn operand_states(registers: Seq<RegisterView>, arguments: Seq<ArgType>) -> Seq<
    ArgView,
> {
    Seq::new(arguments.len(), |j: int| operand_state(registers, arguments[j]))
}

/// The registers after the issue under `tag` of an instruction with this
/// destination: the destination register waits for `tag`.
pub open spec fn renamed(registers: Seq<RegisterView>, writeback: Option<ArgType>, tag: TagView)
    -> Seq<RegisterView> {
    match writeback {
        Some(ArgType::Reg(idx)) => rename_spec(registers, idx as int, tag),
        _ => registers,
    }
}

/// The processor after the response `response` has been delivered to the
/// unit whose request was outstanding: the slot of that unit that awaited
/// a response holds the byte, and no response is outstanding.
pub open spec fn answered(view: ProcessorView, handler: Seq<char>, response: u8)
    -> ProcessorView {
    let at = position(view.units, handler, 0);
    ProcessorView {
        units: view.units.update(at, path_answered(view.units[at], response)),
        controller: responded(view.controller),
        ..view
    }
}

// ---------------------------------------------------------------------
// Issue
// ---------------------------------------------------------------------
/// The index of the unit that candidate `c` names; the number of units if
/// no unit has that name.
pub open spec fn candidate(units: Seq<PathView>, stations: Seq<Seq<char>>, c: int) -> int {
    position(units, stations[c], 0)
}

/// Whether candidate `c` names a unit that takes the instruction now.
pub open spec fn takes(
    units: Seq<PathView>,
    stations: Seq<Seq<char>>,
    mnemonic: Seq<char>,
    count: nat,
    c: int,
) -> bool {
    let at = candidate(units, stations, c);
    at < units.len() && issuable(units[at].unit, mnemonic, count)
}

/// The number of occupied slots of the unit that candidate `c` names.
pub open spec fn load(units: Seq<PathView>, stations: Seq<Seq<char>>, c: int) -> nat {
    occupied(units[candidate(units, stations, c)].unit.slots)
}

/// The order in which candidates are tried: the less loaded first, and of
/// two equally loaded the one that the instruction names first.
pub open spec fn precedes(units: Seq<PathView>, stations: Seq<Seq<char>>, c: int, d: int) -> bool {
    load(units, stations, c) < load(units, stations, d) || (load(units, stations, c) == load(
        units,
        stations,
        d,
    ) && c <= d)
}

/// Whether `c` is the candidate to which the instruction is issued: it takes
/// the instruction, and it precedes every other candidate that would.
pub open spec fn preferred(
    units: Seq<PathView>,
    stations: Seq<Seq<char>>,
    mnemonic: Seq<char>,
    count: nat,
    c: int,
) -> bool {
    &&& 0 <= c < stations.len()
    &&& takes(units, stations, mnemonic, count, c)
    &&& forall|d: int|
        0 <= d < stations.len() && #[trigger] takes(units, stations, mnemonic, count, d)
            ==> precedes(units, stations, c, d)
}

/// Whether the instruction stalls: no candidate takes it.
pub open spec fn stalls(
    units: Seq<PathView>,
    stations: Seq<Seq<char>>,
    mnemonic: Seq<char>,
    count: nat,
) -> bool {
    forall|c: int|
        0 <= c < stations.len() ==> !#[trigger] takes(units, stations, mnemonic, count, c)
}

/// The candidate to which the instruction is issued, where it does not
/// stall.
pub open spec fn elected(
    units: Seq<PathView>,
    stations: Seq<Seq<char>>,
    mnemonic: Seq<char>,
    count: nat,
) -> int {
    choose|c: int| preferred(units, stations, mnemonic, count, c)
}

/// At most one candidate is preferred, and it is the elected one.
pub proof fn lemma_elected(
    units: Seq<PathView>,
    stations: Seq<Seq<char>>,
    mnemonic: Seq<char>,
    count: nat,
    c: int,
)
    requires
        preferred(units, stations, mnemonic, count, c),
    ensures
        elected(units, stations, mnemonic, count) == c,
        !stalls(units, stations, mnemonic, count),
{
    let e = elected(units, stations, mnemonic, count);
    assert(preferred(units, stations, mnemonic, count, e));
    assert(precedes(units, stations, c, e));
    assert(precedes(units, stations, e, c));
}

/// The instruction is issued to a least loaded unit: no candidate that
/// would take it has fewer occupied slots than the preferred one.
pub proof fn lemma_least_loaded(
    units: Seq<PathView>,
    stations: Seq<Seq<char>>,
    mnemonic: Seq<char>,
    count: nat,
    c: int,
    d: int,
)
    requires
        preferred(units, stations, mnemonic, count, c),
        0 <= d < stations.len(),
        takes(units, stations, mnemonic, count, d),
    ensures
        load(units, stations, c) <= load(units, stations, d),
{
    assert(precedes(units, stations, c, d));
}

/// The unit after it has taken the instruction under `tag`: a unit with
/// slots holds it in the slot that the tag names, with the latency of its
/// mnemonic ahead of it and no request made for it.
pub open spec fn issued_unit(
    pre: UnitView,
    mnemonic: Seq<char>,
    operands: Seq<ArgView>,
    tag: TagView,
) -> UnitView {
    if pre.slots.len() == 0 {
        pre
    } else {
        UnitView {
            slots: pre.slots.update(
                tag.slot as int,
                Some(
                    SlotView {
                        mnemonic,
                        operands,
                        remaining: (pre.conduct.latency)(mnemonic),
                        phase: Phase::Idle,
                    },
                ),
            ),
            ..pre
        }
    }
}

/// The processor after the elected candidate has taken the instruction
/// under `tag`.
pub open spec fn issued(
    view: ProcessorView,
    stations: Seq<Seq<char>>,
    mnemonic: Seq<char>,
    operands: Seq<ArgView>,
    tag: TagView,
) -> ProcessorView {
    let at = candidate(
        view.units,
        stations,
        elected(view.units, stations, mnemonic, operands.len()),
    );
    ProcessorView {
        units: view.units.update(
            at,
            PathView {
                unit: issued_unit(view.units[at].unit, mnemonic, operands, tag),
                ..view.units[at]
            },
        ),
        ..view
    }
}

/// The tag under which the elected candidate takes the instruction: that
/// of its free slot of the lowest index.
pub open spec fn issue_tag(
    view: ProcessorView,
    stations: Seq<Seq<char>>,
    mnemonic: Seq<char>,
    count: nat,
) -> TagView {
    let at = candidate(view.units, stations, elected(view.units, stations, mnemonic, count));
    slot_tag(view.units[at].unit, issue_slot(view.units[at].unit) as int)
}

/// Whether `tag` is the tag under which the elected candidate takes the
/// instruction: it is that of [`issue_tag`], so it carries the name of
/// that unit and, if the unit has slots, names one that is free.
pub open spec fn tag_fits(
    view: ProcessorView,
    stations: Seq<Seq<char>>,
    mnemonic: Seq<char>,
    count: nat,
    tag: TagView,
) -> bool {
    let at = candidate(view.units, stations, elected(view.units, stations, mnemonic, count));
    let unit = view.units[at].unit;
    &&& tag == issue_tag(view, stations, mnemonic, count)
    &&& tag.name == unit.name
    &&& unit.slots.len() > 0 ==> tag.slot < unit.slots.len() && unit.slots[tag.slot as int] is None
}

/// What the attempt to issue gave.
enum IssueResult {
    /// A unit has taken the instruction under this tag.
    Issued(RStag),
    /// No unit takes the instruction now.
    Stall,
}

// ---------------------------------------------------------------------
// Stepping
// ---------------------------------------------------------------------
/// What one cycle may do to a unit, seen from the processor: each slot is
/// stepped as [`slot_stepped`] allows with respect to the result bus before
/// and after the stepping of all units.
pub open spec fn unit_stepped(pre: PathView, post: PathView, before: BusView, after: BusView)
    -> bool {
    &&& post.access == pre.access
    &&& post.unit.name == pre.unit.name
    &&& post.unit.formats == pre.unit.formats
    &&& post.unit.slots.len() == pre.unit.slots.len()
    &&& (post.unit.cycles == pre.unit.cycles || post.unit.cycles == pre.unit.cycles + 1)
    &&& forall|k: int|
        0 <= k < pre.unit.slots.len() ==> slot_stepped(
            pre.unit,
            k,
            #[trigger] post.unit.slots[k],
            before,
            after,
        )
}

/// Whether the slot that `tag` names was occupied in `pre` and is free in
/// `post`.
pub open spec fn freed(pre: Seq<PathView>, post: Seq<PathView>, tag: TagView) -> bool {
    let at = position(pre, tag.name, 0);
    &&& 0 <= at < pre.len()
    &&& tag.slot < pre[at].unit.slots.len()
    &&& pre[at].unit.slots[tag.slot as int] is Some
    &&& post[at].unit.slots[tag.slot as int] is None
}

/// What one cycle may do to the result bus: leave it as it is, or, where it
/// was empty, place the result of a slot that was occupied and is free.
pub open spec fn bus_stepped(
    pre: Seq<PathView>,
    post: Seq<PathView>,
    before: BusView,
    after: BusView,
) -> bool {
    ||| after == before
    ||| (before is None && after is Some && freed(pre, post, tag_on(after)))
}

/// What one cycle may do to the bus controller: append requests of units
/// that use the external bus.
pub open spec fn queue_extended(units: Seq<PathView>, pre: ControllerView, post: ControllerView)
    -> bool {
    &&& post.handler == pre.handler
    &&& pre.queue.len() <= post.queue.len()
    &&& forall|r: int| 0 <= r < pre.queue.len() ==> (#[trigger] post.queue[r]) == pre.queue[r]
    &&& forall|r: int|
        pre.queue.len() <= r < post.queue.len() ==> handles(
            units,
            (#[trigger] post.queue[r]).handler,
        )
}

/// Whether the units of one kind below `upto` have been advanced by one
/// cycle, and those from `upto` on are as they were.
pub open spec fn kind_advanced(pre: Seq<PathView>, post: Seq<PathView>, access: bool, upto: int)
    -> bool {
    forall|i: int|
        0 <= i < pre.len() && pre[i].access == access ==> if i < upto {
            (#[trigger] post[i]).unit.cycles == pre[i].unit.cycles + 1
        } else {
            post[i] == pre[i]
        }
}

/// Whether unit `i` is stepped no later than unit `last`: the units that
/// only compute come first, and within each kind the order of registration
/// holds.
pub open spec fn reached(units: Seq<PathView>, i: int, last: int) -> bool {
    (!units[i].access && units[last].access) || (units[i].access == units[last].access && i
        <= last)
}

/// Whether every unit has been advanced by one cycle.
pub open spec fn all_advanced(pre: Seq<PathView>, post: Seq<PathView>) -> bool {
    forall|i: int|
        0 <= i < pre.len() ==> (#[trigger] post[i]).unit.cycles == pre[i].unit.cycles + 1
}

/// Whether the stepping ended with unit `last`: the units up to it have
/// been advanced by one cycle, and the units behind it are as they were.
pub open spec fn advanced_until(pre: Seq<PathView>, post: Seq<PathView>, last: int) -> bool {
    &&& 0 <= last < pre.len()
    &&& forall|i: int|
        0 <= i < pre.len() ==> if reached(pre, i, last) {
            (#[trigger] post[i]).unit.cycles == pre[i].unit.cycles + 1
        } else {
            post[i] == pre[i]
        }
}

/// What the stepping of the units may do to the processor.
pub open spec fn cycle_stepped(pre: ProcessorView, post: ProcessorView) -> bool {
    &&& post.pc == pre.pc
    &&& post.registers == pre.registers
    &&& post.table == pre.table
    &&& post.units.len() == pre.units.len()
    &&& forall|i: int|
        0 <= i < pre.units.len() ==> unit_stepped(
            pre.units[i],
            #[trigger] post.units[i],
            pre.bus,
            post.bus,
        )
    &&& bus_stepped(pre.units, post.units, pre.bus, post.bus)
    &&& queue_extended(pre.units, pre.controller, post.controller)
}

/// Whether the bus was left as it was or filled.
pub open spec fn bus_filled(before: BusView, after: BusView) -> bool {
    after == before || (before is None && after is Some)
}

/// What a unit did with respect to the bus between two moments also holds
/// with respect to the bus before the first and after the second, as long
/// as the bus was only ever filled.
pub proof fn lemma_widen(
    pre: PathView,
    post: PathView,
    first: BusView,
    before: BusView,
    after: BusView,
    last: BusView,
)
    requires
        unit_stepped(pre, post, before, after),
        bus_filled(first, before),
        bus_filled(before, after),
        bus_filled(after, last),
    ensures
        unit_stepped(pre, post, first, last),
{
    assert forall|k: int| 0 <= k < pre.unit.slots.len() implies slot_stepped(
        pre.unit,
        k,
        #[trigger] post.unit.slots[k],
        first,
        last,
    ) by {
        assert(slot_stepped(pre.unit, k, post.unit.slots[k], before, after));
    }
}

// ---------------------------------------------------------------------
// The cycle
// ---------------------------------------------------------------------
/// What issue does to the processor after the commit. Where the instruction
/// stalls nothing changes. Else the elected candidate takes it under a tag
/// that fits, the destination register waits for that tag, and the program
/// counter moves on.
pub open spec fn dispatched(pre: ProcessorView, inst: DecodedView, post: ProcessorView) -> bool {
    let operands = operand_states(pre.registers, inst.arguments);
    if stalls(pre.units, inst.stations, inst.mnemonic, operands.len()) {
        post == pre
    } else {
        exists|tag: TagView|
            {
                &&& tag_fits(pre, inst.stations, inst.mnemonic, operands.len(), tag)
                &&& post == (ProcessorView {
                    pc: pre.pc + 1,
                    registers: renamed(pre.registers, inst.writeback, tag),
                    ..#[trigger] issued(pre, inst.stations, inst.mnemonic, operands, tag)
                })
            }
    }
}

/// The processor after issue, where the result bus has been committed:
/// where the instruction stalls nothing changes; else the elected candidate
/// holds it under the tag of [`issue_tag`], the destination register waits
/// for that tag, and the program counter has moved on.
pub open spec fn dispatch(pre: ProcessorView, inst: DecodedView) -> ProcessorView {
    let operands = operand_states(pre.registers, inst.arguments);
    if stalls(pre.units, inst.stations, inst.mnemonic, operands.len()) {
        pre
    } else {
        let tag = issue_tag(pre, inst.stations, inst.mnemonic, operands.len());
        ProcessorView {
            pc: pre.pc + 1,
            registers: renamed(pre.registers, inst.writeback, tag),
            ..issued(pre, inst.stations, inst.mnemonic, operands, tag)
        }
    }
}

/// The processor after unit `i` has had its turn. The unit has been
/// advanced by one cycle and the result bus holds what the unit left on
/// it. A unit that uses the external bus, and is in order, has then been
/// asked for its request, and the request, if there is one, is the last of
/// the queue under the unit's name.
pub open spec fn took_turn(view: ProcessorView, i: int) -> ProcessorView {
    let path = view.units[i];
    let stepped = PathView { unit: advanced(path.unit, view.bus), ..path };
    let bus = bus_after(path.unit, view.bus);
    if path.unit.broken {
        ProcessorView { units: view.units.update(i, stepped), bus, ..view }
    } else {
        ProcessorView {
            units: view.units.update(i, path_asked(stepped)),
            bus,
            controller: match path_wanted(stepped) {
                Some(request) => ControllerView {
                    queue: view.controller.queue.push(
                        RequestView { request, handler: path.unit.name },
                    ),
                    ..view.controller
                },
                None => view.controller,
            },
            ..view
        }
    }
}

/// A processor and whether a unit has reported a fault.
pub struct Run {
    pub view: ProcessorView,
    pub fault: bool,
}

/// The stepping of the units of one kind from unit `from` on, in the order
/// of registration: each has its turn, until one is out of order. That one
/// has its turn too, and the stepping ends with it.
pub open spec fn run_kind(view: ProcessorView, access: bool, from: int, upto: int) -> Run
    decreases upto - from,
{
    if from >= upto {
        Run { view, fault: false }
    } else if view.units[from].access != access {
        run_kind(view, access, from + 1, upto)
    } else if view.units[from].unit.broken {
        Run { view: took_turn(view, from), fault: true }
    } else {
        run_kind(took_turn(view, from), access, from + 1, upto)
    }
}

/// The stepping of all units: first those that only compute, then, if none
/// of them reported a fault, those that use the external bus.
pub open spec fn run_units(view: ProcessorView) -> Run {
    let first = run_kind(view, false, 0, view.units.len() as int);
    if first.fault {
        first
    } else {
        run_kind(first.view, true, 0, view.units.len() as int)
    }
}

/// The processor after the cycle on `text`, and whether a unit reported a
/// fault in it. A text that does not decode, or whose destination is an
/// immediate, changes nothing. Else the result bus is committed, the
/// instruction is issued or stalls, and the units are stepped.
pub open spec fn after_cycle(pre: ProcessorView, text: Seq<char>) -> Run {
    match decode_spec(pre.table, text) {
        Err(_) => Run { view: pre, fault: false },
        Ok(inst) => if inst.writeback matches Some(ArgType::Imm(_)) {
            Run { view: pre, fault: false }
        } else {
            run_units(dispatch(committed(pre), inst))
        },
    }
}

/// What the stepping of the units returns: `UnitFault` if a unit reported a
/// fault, whatever the unit reported; success if none did.
pub open spec fn stepping_outcome(fault: bool) -> Result<(), Error> {
    if fault {
        Err(Error::UnitFault)
    } else {
        Ok(())
    }
}

/// What the cycle on `text` returns: the error of the decoder for a text
/// that does not decode; `InvalidWritebackTarget` for a destination that is
/// an immediate; `UnitFault` where a unit that is out of order was stepped;
/// success in every other case.
pub open spec fn cycle_outcome(pre: ProcessorView, text: Seq<char>) -> Result<(), Error> {
    match decode_spec(pre.table, text) {
        Err(error) => Err(Error::Decode(error)),
        Ok(inst) => if inst.writeback matches Some(ArgType::Imm(_)) {
            Err(Error::InvalidWritebackTarget)
        } else {
            stepping_outcome(after_cycle(pre, text).fault)
        },
    }
}

/// Whether every unit is in order.
pub open spec fn sound(units: Seq<PathView>) -> bool {
    forall|i: int| 0 <= i < units.len() ==> !(#[trigger] units[i]).unit.broken
}

/// Whether the cycle on `text` is not refused: the text decodes and its
/// destination is no immediate.
pub open spec fn accepted(pre: ProcessorView, text: Seq<char>) -> bool {
    &&& decode_spec(pre.table, text) matches Ok(inst)
    &&& !(inst.writeback matches Some(ArgType::Imm(_)))
}

/// Asking a unit for its request changes the phase of one slot and nothing
/// else.
pub proof fn lemma_asked_keeps(path: PathView)
    ensures
        path_asked(path).access == path.access,
        path_asked(path).unit.name == path.unit.name,
        path_asked(path).unit.formats == path.unit.formats,
        path_asked(path).unit.cycles == path.unit.cycles,
        path_asked(path).unit.slots.len() == path.unit.slots.len(),
        forall|k: int|
            0 <= k < path.unit.slots.len() ==> same_instruction(
                path.unit.slots[k],
                #[trigger] path_asked(path).unit.slots[k],
            ),
{
    lemma_first_set(crate::execution_path::askable(path.unit), 0);
}

/// The delivery of a response changes the phase of one slot and nothing
/// else.
pub proof fn lemma_answered_keeps(path: PathView, response: u8)
    ensures
        path_answered(path, response).access == path.access,
        path_answered(path, response).unit.name == path.unit.name,
        path_answered(path, response).unit.formats == path.unit.formats,
        path_answered(path, response).unit.slots.len() == path.unit.slots.len(),
        forall|k: int|
            0 <= k < path.unit.slots.len() ==> same_instruction(
                path.unit.slots[k],
                #[trigger] path_answered(path, response).unit.slots[k],
            ),
{
    lemma_first_set(crate::execution_path::requested(path.unit), 0);
}

/// The turn of a unit keeps within what a cycle may do to a unit and to the
/// result bus.
pub proof fn lemma_turn(path: PathView, bus: BusView)
    ensures
        ({
            let stepped = PathView { unit: advanced(path.unit, bus), ..path };
            let after = bus_after(path.unit, bus);
            &&& unit_stepped(path, stepped, bus, after)
            &&& unit_stepped(path, path_asked(stepped), bus, after)
            &&& stepped.unit.cycles == path.unit.cycles + 1
            &&& path_asked(stepped).unit.cycles == path.unit.cycles + 1
            &&& path_asked(stepped).unit.name == path.unit.name
            &&& path_asked(stepped).access == path.access
            &&& bus_filled(bus, after)
            &&& after != bus ==> {
                &&& tag_on(after).name == path.unit.name
                &&& tag_on(after).slot < path.unit.slots.len()
                &&& path.unit.slots[tag_on(after).slot as int] is Some
                &&& stepped.unit.slots[tag_on(after).slot as int] is None
                &&& path_asked(stepped).unit.slots[tag_on(after).slot as int] is None
            }
        }),
{
    let moved = PathView { unit: advanced(path.unit, bus), ..path };
    let after = bus_after(path.unit, bus);
    lemma_advanced_stepped(path.unit, bus);
    lemma_asked_keeps(moved);
    assert(stepped(path.unit, bus, moved.unit, after));
    assert forall|k: int| 0 <= k < path.unit.slots.len() implies slot_stepped(
        path.unit,
        k,
        #[trigger] path_asked(moved).unit.slots[k],
        bus,
        after,
    ) by {
        assert(slot_stepped(path.unit, k, moved.unit.slots[k], bus, after));
        assert(same_instruction(moved.unit.slots[k], path_asked(moved).unit.slots[k]));
    }
    if after != bus {
        let k = tag_on(after).slot as int;
        assert(same_instruction(moved.unit.slots[k], path_asked(moved).unit.slots[k]));
    }
}

/// Whether the stepping went as its outcome says: without a fault every
/// unit has been advanced by one cycle; with a fault the stepping ended with
/// the unit that reported it.
pub open spec fn whole_or_ended(pre: Seq<PathView>, post: Seq<PathView>, outcome: Result<(), Error>)
    -> bool {
    match outcome {
        Ok(_) => all_advanced(pre, post),
        Err(_) => exists|last: int| #[trigger] advanced_until(pre, post, last),
    }
}

/// What one cycle does. A text that does not decode, or whose destination
/// is an immediate, is refused and nothing changes. Else the pending result
/// is committed, the instruction is issued or stalls, and the units are
/// stepped, each by one cycle; a fault that a unit reports ends the
/// stepping with that unit.
pub open spec fn cycle(
    pre: ProcessorView,
    text: Seq<char>,
    outcome: Result<(), Error>,
    post: ProcessorView,
) -> bool {
    match decode_spec(pre.table, text) {
        Err(error) => outcome == Err::<(), Error>(Error::Decode(error)) && post == pre,
        Ok(inst) => if inst.writeback matches Some(ArgType::Imm(_)) {
            outcome == Err::<(), Error>(Error::InvalidWritebackTarget) && post == pre
        } else {
            &&& outcome is Ok || outcome == Err::<(), Error>(Error::UnitFault)
            &&& exists|mid: ProcessorView|
                dispatched(committed(pre), inst, mid) && #[trigger] cycle_stepped(mid, post)
                    && whole_or_ended(mid.units, post.units, outcome)
        },
    }
}

// ---------------------------------------------------------------------
// Display
// ---------------------------------------------------------------------
/// The line that shows register `idx`: `R`, the index, a colon, the stored
/// value and, while the register is renamed, a mark.
pub open spec fn register_line(idx: nat, register: RegisterView) -> Seq<char> {
    "R"@ + numeral(idx) + ": "@ + numeral(register.value as nat) + (if register.pending is Some {
        " (renamed)"@
    } else {
        Seq::empty()
    }) + "\n"@
}

/// The lines of the registers, in order.
pub open spec fn register_lines(registers: Seq<RegisterView>) -> Seq<char>
    decreases registers.len(),
{
    if registers.len() == 0 {
        Seq::empty()
    } else {
        register_lines(registers.drop_last()) + register_line(
            (registers.len() - 1) as nat,
            registers.last(),
        )
    }
}

/// The texts of the units, each on a line of its own, in order.
pub open spec fn unit_lines(units: Seq<PathView>) -> Seq<char>
    decreases units.len(),
{
    if units.len() == 0 {
        Seq::empty()
    } else {
        unit_lines(units.drop_last()) + rendering(units.last().unit) + "\n"@
    }
}

/// The text that shows the processor: the program counter, the registers,
/// the units, and whether the result bus holds a result.
pub open spec fn picture(view: ProcessorView) -> Seq<char> {
    "PC: "@ + numeral(view.pc) + "\n"@ + register_lines(view.registers) + unit_lines(view.units)
        + (if view.bus is Some {
        "result bus: busy"@
    } else {
        "result bus: free"@
    })
}

/// A dynamically scheduled processor. Each call of [`Processor::next_cycle`]
/// is one cycle.
///
/// `E` is the type of the units that only compute and `A` that of the units
/// that use the external bus. Left out, they are the trait objects, so that
/// units of any kind can be registered side by side.
pub struct Processor<E: ?Sized + ExecPath = dyn ExecPath, A: ?Sized + AccessPath = dyn AccessPath> {
    pc: usize,
    decoder: Decoder,
    paths: Vec<Path<E, A>>,
    bus_controller: BusController,
    register_file: RegisterFile,
    result_bus: ResultBus,
}

impl<E: ?Sized + ExecPath, A: ?Sized + AccessPath> View for Processor<E, A> {
    type V = ProcessorView;

    closed spec fn view(&self) -> ProcessorView {
        ProcessorView {
            pc: self.pc as nat,
            registers: self.register_file@,
            bus: self.result_bus@,
            units: views(self.paths@),
            table: self.decoder@,
            controller: self.bus_controller@,
        }
    }
}

/// The processor before its first cycle, with the unit of the idle
/// instruction as its only unit.
pub open spec fn initial() -> ProcessorView {
    ProcessorView {
        pc: 0,
        registers: Seq::new(
            REGISTER_COUNT as nat,
            |i: int| RegisterView { value: 0, pending: None },
        ),
        bus: None,
        units: seq![
            PathView { unit: nop_unit::fresh(), access: false },
        ],
        table: registrations(nop_unit::nop_formats(), "nop"@),
        controller: ControllerView { queue: Seq::empty(), handler: None },
    }
}

/// The processor with `unit` registered: the unit is the last of the units
/// and its formats are the last of the table.
pub open spec fn with_unit(view: ProcessorView, unit: PathView) -> ProcessorView {
    ProcessorView {
        units: view.units.push(unit),
        table: view.table + registrations(unit.unit.formats, unit.unit.name),
        ..view
    }
}

/// Why the registration of `unit` is refused, if it is: its name is taken,
/// or the decoder refuses its formats.
pub open spec fn registration_refusal(view: ProcessorView, unit: UnitView) -> Option<Error> {
    if registered(view.units, unit.name) {
        Some(Error::DuplicateUnitName)
    } else {
        refusal(view.table, unit.formats, unit.name)
    }
}

impl<E: ?Sized + ExecPath, A: ?Sized + AccessPath> Processor<E, A> {
    /// The consistency of the processor: [`valid`] holds of its view, and
    /// every unit is consistent in itself.
    pub closed spec fn wf(&self) -> bool {
        &&& valid(self@)
        &&& self.decoder.wf()
        &&& self.register_file.wf()
        &&& forall|i: int| 0 <= i < self.paths.len() ==> (#[trigger] self.paths[i]).inv()
    }

    /// A consistent processor is valid.
    pub proof fn lemma_valid(&self)
        requires
            self.wf(),
        ensures
            valid(self@),
    {
    }

    /// A processor with the unit of the idle instruction.
    pub fn new() -> (processor: Self)
        ensures
            processor.wf(),
            processor@ == initial(),
            coherent(processor@),
    {
        let mut processor = Processor {
            pc: 0,
            decoder: Decoder::new(),
            paths: Vec::new(),
            bus_controller: BusController::new(),
            register_file: RegisterFile::new(),
            result_bus: ResultBus::new(),
        };
        assert(processor@.units =~= Seq::empty());
        assert(processor@.registers =~= initial().registers);
        let unit = nop_unit::Unit::new();
        let ghost formats = unit.state().formats;
        proof {
            assert(formats.len() == 1);
            assert(!crate::decoder::repeats(formats));
            assert(refusal(processor@.table, formats, "nop"@) is None);
        }
        let outcome = processor.register_path(Path::Idle(unit));
        assert(outcome is Ok);
        assert(processor@.units =~= initial().units);
        assert(processor@.table =~= initial().table);
        proof {
            lemma_initial_coherent();
        }
        processor
    }

    fn find(&self, name: &str) -> (at: usize)
        requires
            self.wf(),
        ensures
            at == position(self@.units, name@, 0),
            at <= self.paths.len(),
    {
        let mut at: usize = 0;
        while at < self.paths.len()
            invariant
                self.wf(),
                at <= self.paths.len(),
                position(self@.units, name@, at as int) == position(self@.units, name@, 0),
            decreases self.paths.len() - at,
        {
            let unit_name = self.paths[at].name();
            assert(self@.units[at as int] == self.paths[at as int]@);
            if crate::decoder::str_eq(unit_name.as_str(), name) {
                return at;
            }
            at = at + 1;
        }
        at
    }

    fn register_path(&mut self, path: Path<E, A>) -> (outcome: Result<(), Error>)
        requires
            old(self).wf(),
            path.inv(),
        ensures
            final(self).wf(),
            coherent(old(self)@) && quiet(path@.unit) ==> coherent(final(self)@),
            match outcome {
                Ok(()) => {
                    &&& registration_refusal(old(self)@, path@.unit) is None
                    &&& final(self)@ == with_unit(old(self)@, path@)
                },
                Err(error) => {
                    &&& registration_refusal(old(self)@, path@.unit) == Some(error)
                    &&& final(self)@ == old(self)@
                },
            },
    {
        let name = path.name();
        if self.find(name.as_str()) < self.paths.len() {
            return Err(Error::DuplicateUnitName);
        }
        let formats = path.list_insts();
        match self.decoder.register(formats, name) {
            Err(error) => {
                return Err(error);
            },
            Ok(()) => {},
        }
        self.paths.push(path);
        proof {
            let before = old(self)@;
            let after = self@;
            assert(after.units =~= before.units.push(path@));
            lemma_position(before.units, path@.unit.name, 0);
            assert forall|name: Seq<char>| handles(before.units, name) implies handles(
                after.units,
                name,
            ) by {
                lemma_position_kept(before.units, path@, name);
            }
            if coherent(before) && quiet(path@.unit) {
                lemma_registration_coherent(before, path@);
            }
        }
        Ok(())
    }

    /// Registers a unit. It is refused, and nothing changes, where a unit of
    /// the same name is registered already, or where the decoder refuses the
    /// unit's formats (see [`refusal`]).
    pub fn add_path(&mut self, func: Box<E>) -> (outcome: Result<(), Error>)
        requires
            old(self).wf(),
            func.inv(),
        ensures
            final(self).wf(),
            coherent(old(self)@) && quiet(func.state()) ==> coherent(final(self)@),
            match outcome {
                Ok(()) => {
                    &&& registration_refusal(old(self)@, func.state()) is None
                    &&& final(self)@ == with_unit(
                        old(self)@,
                        PathView { unit: func.state(), access: false },
                    )
                },
                Err(error) => {
                    &&& registration_refusal(old(self)@, func.state()) == Some(error)
                    &&& final(self)@ == old(self)@
                },
            },
    {
        self.register_path(Path::Exec(func))
    }

    /// Registers a unit that uses the external bus, as [`Processor::add_path`]
    /// registers one that does not.
    pub fn add_access_path(&mut self, func: Box<A>) -> (outcome: Result<(), Error>)
        requires
            old(self).wf(),
            func.inv(),
        ensures
            final(self).wf(),
            coherent(old(self)@) && quiet(func.state()) ==> coherent(final(self)@),
            match outcome {
                Ok(()) => {
                    &&& registration_refusal(old(self)@, func.state()) is None
                    &&& final(self)@ == with_unit(
                        old(self)@,
                        PathView { unit: func.state(), access: true },
                    )
                },
                Err(error) => {
                    &&& registration_refusal(old(self)@, func.state()) == Some(error)
                    &&& final(self)@ == old(self)@
                },
            },
    {
        self.register_path(Path::Access(func))
    }

    /// The address of the instruction that is fetched next.
    pub fn fetch_address(&self) -> (address: usize)
        ensures
            address == self@.pc,
    {
        self.pc
    }

    /// The address of the instruction that is fetched next.
    pub fn fetching(&self) -> (address: usize)
        ensures
            address == self@.pc,
    {
        self.pc
    }

    /// Takes what the result bus holds, forwards it to every unit and writes
    /// it to the register file. Returns whether the bus held anything.
    fn commit(&mut self) -> (held: bool)
        requires
            old(self).wf(),
        ensures
            final(self).wf(),
            final(self)@ == committed(old(self)@),
            held == (old(self)@.bus is Some),
    {
        match self.result_bus.take() {
            None => {
                assert(self@ == old(self)@);
                false
            },
            Some((tag, result)) => {
                let value = result.val();
                let mut i: usize = 0;
                while i < self.paths.len()
                    invariant
                        i <= self.paths.len(),
                        self.paths.len() == old(self).paths.len(),
                        self.pc == old(self).pc,
                        self.decoder == old(self).decoder,
                        self.register_file == old(self).register_file,
                        self.bus_controller == old(self).bus_controller,
                        self.result_bus@ is None,
                        value == result.spec_val(),
                        forall|j: int|
                            0 <= j < self.paths.len() ==> (#[trigger] self.paths[j]).inv(),
                        forall|j: int|
                            0 <= j < i ==> (#[trigger] self.paths[j])@ == (PathView {
                                unit: forwarded(old(self).paths[j]@.unit, tag@, value),
                                ..old(self).paths[j]@
                            }),
                        forall|j: int|
                            i <= j < self.paths.len() ==> (#[trigger] self.paths[j]) == old(
                                self,
                            ).paths[j],
                    decreases self.paths.len() - i,
                {
                    self.paths[i].forward(&tag, value);
                    i = i + 1;
                }
                self.register_file.write(&tag, value);
                proof {
                    let before = old(self)@;
                    let after = self@;
                    assert(after.units =~= after_forward(before.units, tag@, value));
                    assert(same_registry(before.units, after.units));
                    assert forall|name: Seq<char>| handles(before.units, name) implies handles(
                        after.units,
                        name,
                    ) by {
                        lemma_registry(before.units, after.units, name);
                    }
                }
                true
            },
        }
    }

    /// The states of the source operands of `inst`, read now.
    fn rename_operands(&self, inst: &DecodedInst) -> (operands: Vec<ArgVal>)
        requires
            self.wf(),
            inst.wf(),
        ensures
            views(operands@) == operand_states(self@.registers, inst@.arguments),
    {
        let arguments = inst.arguments();
        let mut operands: Vec<ArgVal> = Vec::new();
        let mut j: usize = 0;
        while j < arguments.len()
            invariant
                self.wf(),
                inst.wf(),
                arguments@ == inst@.arguments,
                j <= arguments.len(),
                operands.len() == j,
                forall|k: int|
                    0 <= k < j ==> (#[trigger] operands[k])@ == operand_state(
                        self@.registers,
                        arguments[k],
                    ),
            decreases arguments.len() - j,
        {
            let operand = match arguments[j] {
                ArgType::Reg(idx) => {
                    assert(crate::decoder::operand_in_range(inst@.arguments[j as int]));
                    self.register_file.read(idx)
                },
                ArgType::Imm(value) => ArgVal::Ready(value),
            };
            operands.push(operand);
            j = j + 1;
        }
        assert(views(operands@) =~= operand_states(self@.registers, inst@.arguments));
        operands
    }

    /// Makes `tag` the awaited writer of the destination register of `inst`,
    /// if it has a destination. An immediate as destination is refused.
    fn register_renaming(&mut self, tag: RStag, inst: &DecodedInst) -> (outcome: Result<(), Error>)
        requires
            old(self).wf(),
            inst.wf(),
        ensures
            final(self).wf(),
            match inst@.writeback {
                Some(ArgType::Imm(_)) => {
                    &&& outcome == Err::<(), Error>(Error::InvalidWritebackTarget)
                    &&& final(self)@ == old(self)@
                },
                _ => {
                    &&& outcome is Ok
                    &&& final(self)@ == (ProcessorView {
                        registers: renamed(old(self)@.registers, inst@.writeback, tag@),
                        ..old(self)@
                    })
                },
            },
    {
        match inst.writeback() {
            None => Ok(()),
            Some(ArgType::Reg(idx)) => {
                self.register_file.rename(idx, tag);
                Ok(())
            },
            Some(ArgType::Imm(_)) => Err(Error::InvalidWritebackTarget),
        }
    }

    /// Offers the instruction to its candidates, the less loaded first and
    /// of two equally loaded the one that the instruction names first,
    /// until one takes it.
    fn try_issue(&mut self, inst: &DecodedInst, operands: &[ArgVal]) -> (result: IssueResult)
        requires
            old(self).wf(),
        ensures
            final(self).wf(),
            match result {
                IssueResult::Stall => {
                    &&& stalls(
                        old(self)@.units,
                        inst@.stations,
                        inst@.mnemonic,
                        operands@.len() as nat,
                    )
                    &&& final(self)@ == old(self)@
                },
                IssueResult::Issued(tag) => {
                    &&& !stalls(
                        old(self)@.units,
                        inst@.stations,
                        inst@.mnemonic,
                        operands@.len() as nat,
                    )
                    &&& tag_fits(
                        old(self)@,
                        inst@.stations,
                        inst@.mnemonic,
                        operands@.len() as nat,
                        tag@,
                    )
                    &&& final(self)@ == issued(
                        old(self)@,
                        inst@.stations,
                        inst@.mnemonic,
                        views(operands@),
                        tag@,
                    )
                },
            },
    {
        let stations = inst.stations();
        let ghost names = inst@.stations;
        let ghost mnemonic = inst@.mnemonic;
        let ghost count = operands@.len() as nat;
        let ghost units = self@.units;
        // The load and the index of the candidate that refused last. Every
        // candidate that takes the instruction comes after it.
        let mut floor: Option<(usize, usize)> = None;
        loop
            invariant
                self.wf(),
                self@ == old(self)@,
                units == self@.units,
                names == inst@.stations,
                names == views(stations@),
                mnemonic == inst@.mnemonic,
                count == operands@.len(),
                floor matches Some((_, index)) ==> index < stations.len(),
                forall|c: int|
                    0 <= c < names.len() && #[trigger] takes(units, names, mnemonic, count, c)
                        ==> above(floor, load(units, names, c), c),
            decreases
                    (if floor is None {
                        1int
                    } else {
                        0int
                    }),
                    (match floor {
                        Some((level, _)) => usize::MAX - level,
                        None => 0,
                    }),
                    (match floor {
                        Some((_, index)) => stations.len() - index,
                        None => 0,
                    }),
        {
            let mut best: Option<(usize, usize, usize)> = None;
            let mut c: usize = 0;
            while c < stations.len()
                invariant
                    self.wf(),
                    units == self@.units,
                    names == views(stations@),
                    c <= stations.len(),
                    best matches Some((level, index, at)) ==> {
                        &&& index < c
                        &&& at == candidate(units, names, index as int)
                        &&& at < units.len()
                        &&& level == load(units, names, index as int)
                        &&& above(floor, level as nat, index as int)
                    },
                    forall|d: int|
                        0 <= d < c && #[trigger] candidate(units, names, d) < units.len() && above(
                            floor,
                            load(units, names, d),
                            d,
                        ) ==> best is Some && precedes(units, names, index_of(best), d),
                decreases stations.len() - c,
            {
                assert(names[c as int] == stations[c as int]@);
                let at = self.find(stations[c].as_str());
                if at < self.paths.len() {
                    assert(self@.units[at as int] == self.paths[at as int]@);
                    let level = self.paths[at].pending();
                    let after_floor = match floor {
                        None => true,
                        Some((refused, index)) => level > refused || (level == refused && c > index),
                    };
                    let better = match best {
                        None => true,
                        Some((least, _, _)) => level < least,
                    };
                    if after_floor && better {
                        best = Some((level, c, at));
                    }
                }
                c = c + 1;
            }
            let (level, index, at) = match best {
                None => {
                    assert forall|d: int| 0 <= d < names.len() implies !#[trigger] takes(
                        units,
                        names,
                        mnemonic,
                        count,
                        d,
                    ) by {
                        if takes(units, names, mnemonic, count, d) {
                            assert(above(floor, load(units, names, d), d));
                            assert(candidate(units, names, d) < units.len());
                        }
                    }
                    return IssueResult::Stall;
                },
                Some(found) => found,
            };
            assert(self@.units[at as int] == self.paths[at as int]@);
            match self.paths[at].try_issue(inst.name(), operands) {
                Ok(tag) => {
                    proof {
                        let before = old(self)@;
                        let after = self@;
                        assert(takes(units, names, mnemonic, count, index as int));
                        assert(index_of(best) == index);
                        assert forall|d: int|
                            0 <= d < names.len() && #[trigger] takes(
                                units,
                                names,
                                mnemonic,
                                count,
                                d,
                            ) implies precedes(units, names, index as int, d) by {
                            assert(above(floor, load(units, names, d), d));
                            assert(candidate(units, names, d) < units.len());
                            assert(precedes(units, names, index_of(best), d));
                        }
                        assert(preferred(units, names, mnemonic, count, index as int));
                        lemma_elected(units, names, mnemonic, count, index as int);
                        if units[at as int].unit.slots.len() > 0 {
                            lemma_issue_slot(units[at as int].unit);
                        }
                        assert(after.units =~= issued(
                            before,
                            names,
                            mnemonic,
                            views(operands@),
                            tag@,
                        ).units);
                        assert(same_registry(before.units, after.units));
                        assert forall|name: Seq<char>| handles(before.units, name) implies handles(
                            after.units,
                            name,
                        ) by {
                            lemma_registry(before.units, after.units, name);
                        }
                    }
                    return IssueResult::Issued(tag);
                },
                Err(_) => {
                    assert(self@.units =~= units);
                    assert(!takes(units, names, mnemonic, count, index as int));
                    assert(index_of(best) == index);
                    assert forall|d: int|
                        0 <= d < names.len() && #[trigger] takes(
                            units,
                            names,
                            mnemonic,
                            count,
                            d,
                        ) implies above(Some((level, index)), load(units, names, d), d) by {
                        assert(above(floor, load(units, names, d), d));
                        assert(candidate(units, names, d) < units.len());
                        assert(precedes(units, names, index_of(best), d));
                        assert(d != index);
                    }
                    floor = Some((level, index));
                },
            }
        }
    }

    /// Steps every unit of one kind, in the order of registration: those
    /// that use the external bus if `access` is set, the others if not. A
    /// unit that uses the external bus is asked for its request after its
    /// step. The first fault that a unit reports ends the stepping. See
    /// [`run_kind`].
    fn step_kind(&mut self, access: bool) -> (outcome: Result<(), Error>)
        requires
            old(self).wf(),
        ensures
            final(self).wf(),
            final(self)@ == run_kind(old(self)@, access, 0, old(self)@.units.len() as int).view,
            outcome == stepping_outcome(
                run_kind(old(self)@, access, 0, old(self)@.units.len() as int).fault,
            ),
            cycle_stepped(old(self)@, final(self)@),
            bus_filled(old(self)@.bus, final(self)@.bus),
            forall|i: int|
                0 <= i < old(self)@.units.len() && old(self)@.units[i].access != access ==> (
                #[trigger] final(self)@.units[i]) == old(self)@.units[i],
            outcome is Ok || outcome == Err::<(), Error>(Error::UnitFault),
            outcome is Ok ==> kind_advanced(
                old(self)@.units,
                final(self)@.units,
                access,
                old(self)@.units.len() as int,
            ),
            outcome is Err ==> exists|last: int|
                0 <= last < old(self)@.units.len() && old(self)@.units[last].access == access
                    && #[trigger] kind_advanced(
                    old(self)@.units,
                    final(self)@.units,
                    access,
                    last + 1,
                ),
    {
        let ghost start = self@;
        let ghost count = self@.units.len() as int;
        let mut i: usize = 0;
        while i < self.paths.len()
            invariant
                i <= self.paths.len(),
                self.paths.len() == old(self).paths.len(),
                count == self.paths.len(),
                start == old(self)@,
                valid(start),
                self.pc == old(self).pc,
                self.decoder == old(self).decoder,
                self.register_file == old(self).register_file,
                self.decoder.wf(),
                self.register_file.wf(),
                forall|j: int| 0 <= j < self.paths.len() ==> (#[trigger] self.paths[j]).inv(),
                forall|j: int|
                    i <= j < self.paths.len() ==> (#[trigger] self.paths[j]) == old(self).paths[j],
                forall|j: int|
                    0 <= j < self.paths.len() ==> unit_stepped(
                        start.units[j],
                        (#[trigger] self.paths[j])@,
                        start.bus,
                        self.result_bus@,
                    ),
                forall|j: int|
                    0 <= j < self.paths.len() && start.units[j].access != access ==> (
                    #[trigger] self.paths[j])@ == start.units[j],
                bus_filled(start.bus, self.result_bus@),
                bus_stepped(start.units, self@.units, start.bus, self.result_bus@),
                queue_extended(start.units, start.controller, self.bus_controller@),
                kind_advanced(start.units, self@.units, access, i as int),
                run_kind(self@, access, i as int, count) == run_kind(start, access, 0, count),
            decreases self.paths.len() - i,
        {
            let ghost before = self@;
            let ghost bus_before = self.result_bus@;
            assert(start.units[i as int] == self.paths[i as int]@);
            assert(before.units[i as int] == self.paths[i as int]@);
            let matching = match &self.paths[i] {
                Path::Access(_) => access,
                _ => !access,
            };
            if matching {
                let outcome = self.paths[i].next_cycle(&mut self.result_bus);
                let ghost bus_after = self.result_bus@;
                let faulty = outcome.is_err();
                if !faulty {
                    match self.paths[i].request() {
                        Some(request) => {
                            let name = self.paths[i].name();
                            self.bus_controller.push(request, name);
                        },
                        None => {},
                    }
                }
                proof {
                    let after = self@;
                    let path = start.units[i as int];
                    let unit = self.paths[i as int]@;
                    lemma_turn(path, bus_before);
                    lemma_position_unique(start.units, i as int);
                    assert(after.units =~= before.units.update(i as int, unit));
                    assert(after == took_turn(before, i as int));
                    assert(unit_stepped(path, unit, bus_before, bus_after));
                    lemma_widen(path, unit, start.bus, bus_before, bus_after, bus_after);
                    assert forall|j: int| 0 <= j < self.paths.len() implies unit_stepped(
                        start.units[j],
                        (#[trigger] self.paths[j])@,
                        start.bus,
                        bus_after,
                    ) by {
                        if j != i {
                            assert(self.paths[j]@ == before.units[j]);
                            lemma_widen(
                                start.units[j],
                                before.units[j],
                                start.bus,
                                start.bus,
                                bus_before,
                                bus_after,
                            );
                        }
                    }
                    if bus_after == bus_before && bus_before != start.bus {
                        let tag = tag_on(bus_before);
                        let at = position(start.units, tag.name, 0);
                        assert(freed(start.units, before.units, tag));
                        if at == i {
                            assert(before.units[i as int] == start.units[i as int]);
                        } else {
                            assert(after.units[at] == before.units[at]);
                        }
                    }
                    assert(kind_advanced(start.units, self@.units, access, i + 1)) by {
                        assert forall|j: int|
                            0 <= j < start.units.len() && start.units[j].access
                                == access implies if j < i + 1 {
                            (#[trigger] self@.units[j]).unit.cycles == start.units[j].unit.cycles
                                + 1
                        } else {
                            self@.units[j] == start.units[j]
                        } by {
                            if j != i {
                                assert(self@.units[j] == before.units[j]);
                            }
                        }
                    }
                }
                if faulty {
                    proof {
                        assert forall|j: int| 0 <= j < start.units.len() implies unit_stepped(
                            start.units[j],
                            #[trigger] self@.units[j],
                            start.bus,
                            self@.bus,
                        ) by {
                            assert(self@.units[j] == self.paths[j]@);
                        }
                        assert forall|j: int|
                            0 <= j < start.units.len() && start.units[j].access
                                != access implies (#[trigger] self@.units[j]) == start.units[j] by {
                            assert(self@.units[j] == self.paths[j]@);
                        }
                        lemma_stepped_valid(start, self@);
                    }
                    return Err(Error::UnitFault);
                }
            }
            i = i + 1;
        }
        proof {
            assert forall|j: int| 0 <= j < start.units.len() implies unit_stepped(
                start.units[j],
                #[trigger] self@.units[j],
                start.bus,
                self@.bus,
            ) by {
                assert(self@.units[j] == self.paths[j]@);
            }
            assert forall|j: int|
                0 <= j < start.units.len() && start.units[j].access != access implies (
            #[trigger] self@.units[j]) == start.units[j] by {
                assert(self@.units[j] == self.paths[j]@);
            }
            lemma_stepped_valid(start, self@);
        }
        Ok(())
    }

    /// Steps every unit: first those that only compute, then those that use
    /// the external bus. See [`run_units`].
    fn step_units(&mut self) -> (outcome: Result<(), Error>)
        requires
            old(self).wf(),
        ensures
            final(self).wf(),
            final(self)@ == run_units(old(self)@).view,
            outcome == stepping_outcome(run_units(old(self)@).fault),
            cycle_stepped(old(self)@, final(self)@),
            outcome is Ok || outcome == Err::<(), Error>(Error::UnitFault),
            whole_or_ended(old(self)@.units, final(self)@.units, outcome),
    {
        let ghost first = self@;
        match self.step_kind(false) {
            Err(error) => {
                proof {
                    let last = choose|last: int|
                        0 <= last < first.units.len() && first.units[last].access == false
                            && #[trigger] kind_advanced(first.units, self@.units, false, last + 1);
                    assert(advanced_until(first.units, self@.units, last));
                }
                return Err(error);
            },
            Ok(()) => {},
        }
        let ghost middle = self@;
        let outcome = self.step_kind(true);
        proof {
            lemma_two_passes(first, middle, self@);
            lemma_stepped_valid(first, middle);
            if outcome is Err {
                let last = choose|last: int|
                    0 <= last < middle.units.len() && middle.units[last].access == true
                        && #[trigger] kind_advanced(middle.units, self@.units, true, last + 1);
                assert(advanced_until(first.units, self@.units, last)) by {
                    assert forall|i: int| 0 <= i < first.units.len() implies if reached(
                        first.units,
                        i,
                        last,
                    ) {
                        (#[trigger] self@.units[i]).unit.cycles == first.units[i].unit.cycles + 1
                    } else {
                        self@.units[i] == first.units[i]
                    } by {
                        assert(middle.units[i].access == first.units[i].access);
                        assert(middle.units[last].access == first.units[last].access);
                        if !first.units[i].access {
                            assert(self@.units[i] == middle.units[i]);
                        } else {
                            assert(middle.units[i] == first.units[i]);
                        }
                    }
                }
            } else {
                assert(all_advanced(first.units, self@.units)) by {
                    assert forall|i: int| 0 <= i < first.units.len() implies (
                    #[trigger] self@.units[i]).unit.cycles == first.units[i].unit.cycles + 1 by {
                        assert(middle.units[i].access == first.units[i].access);
                        if !first.units[i].access {
                            assert(self@.units[i] == middle.units[i]);
                        } else {
                            assert(middle.units[i] == first.units[i]);
                        }
                    }
                }
            }
        }
        outcome
    }

    /// Runs one cycle on the instruction text `row_inst`. What the
    /// processor is after it and what is returned are functions of the
    /// processor before it and of the text: see [`after_cycle`] and
    /// [`cycle_outcome`]. In particular the call succeeds on every text that
    /// is not refused, a stall included, where every unit is in order; and
    /// units that are in order stay so.
    /// The text is decoded before anything else happens, so a text that is
    /// refused leaves the processor as it was. The program counter moves on
    /// exactly if the instruction is issued. A coherent processor stays
    /// coherent (see [`crate::coherence`]). The program counter must not
    /// stand at the last address that it can hold.
    pub fn next_cycle(&mut self, row_inst: &str) -> (outcome: Result<(), Error>)
        requires
            old(self).wf(),
            old(self)@.pc < usize::MAX,
        ensures
            final(self).wf(),
            valid(final(self)@),
            final(self)@ == after_cycle(old(self)@, row_inst@).view,
            outcome == cycle_outcome(old(self)@, row_inst@),
            sound(old(self)@.units) ==> sound(final(self)@.units),
            sound(old(self)@.units) && accepted(old(self)@, row_inst@) ==> outcome is Ok,
            cycle(old(self)@, row_inst@, outcome, final(self)@),
            final(self)@.pc == if issues(old(self)@, row_inst@) {
                old(self)@.pc + 1
            } else {
                old(self)@.pc
            },
            coherent(old(self)@) ==> coherent(final(self)@),
    {
        proof {
            if sound(self@.units) {
                lemma_cycle_sound(self@, row_inst@);
            }
        }
        let inst = match self.decoder.decode(row_inst) {
            Err(error) => {
                return Err(error);
            },
            Ok(inst) => inst,
        };
        match inst.writeback() {
            Some(ArgType::Imm(_)) => {
                return Err(Error::InvalidWritebackTarget);
            },
            _ => {},
        }
        self.commit();
        let ghost after_commit = self@;
        let operands = self.rename_operands(&inst);
        let result = self.try_issue(&inst, operands.as_slice());
        match result {
            IssueResult::Issued(tag) => {
                let ghost held = tag@;
                let ghost after_issue = self@;
                self.pc = self.pc + 1;
                assert(self@ == (ProcessorView { pc: after_issue.pc + 1, ..after_issue }));
                let renaming = self.register_renaming(tag, &inst);
                assert(renaming is Ok);
                assert(self@ == (ProcessorView {
                    pc: after_commit.pc + 1,
                    registers: renamed(after_commit.registers, inst@.writeback, held),
                    ..issued(
                        after_commit,
                        inst@.stations,
                        inst@.mnemonic,
                        views(operands@),
                        held,
                    )
                }));
            },
            IssueResult::Stall => {},
        }
        let ghost after_dispatch = self@;
        assert(dispatched(after_commit, inst@, after_dispatch));
        assert(after_dispatch == dispatch(after_commit, inst@));
        let outcome = self.step_units();
        assert(cycle_stepped(after_dispatch, self@));
        proof {
            assert(after_cycle(old(self)@, row_inst@) == run_units(after_dispatch));
            assert(cycle(old(self)@, row_inst@, outcome, self@));
            lemma_fetch_address(old(self)@, row_inst@, outcome, self@);
            if coherent(old(self)@) {
                lemma_cycle_coherent(old(self)@, row_inst@, outcome, self@);
            }
        }
        outcome
    }

    /// Hands out the oldest request for the external bus, if any waits and
    /// no response is outstanding, and notes the unit that made it as the
    /// one to which the next response goes.
    pub fn bus_access(&mut self) -> (request: Option<BusAccess>)
        requires
            old(self).wf(),
        ensures
            final(self).wf(),
            coherent(old(self)@) ==> coherent(final(self)@),
            request == pop_result(old(self)@.controller),
            final(self)@ == (ProcessorView {
                controller: popped(old(self)@.controller),
                ..old(self)@
            }),
    {
        let request = self.bus_controller.pop();
        proof {
            let before = old(self)@.controller;
            let after = self@.controller;
            if request is Some {
                assert(before.queue[0] == before.queue.first());
                assert forall|r: int| 0 <= r < after.queue.len() implies handles(
                    self@.units,
                    (#[trigger] after.queue[r]).handler,
                ) by {
                    assert(after.queue[r] == before.queue[r + 1]);
                }
            }
            if coherent(old(self)@) {
                lemma_bus_traffic_coherent(old(self)@, Seq::empty(), 0);
            }
        }
        request
    }

    /// Delivers the response of the external bus to the unit whose request
    /// was handed out last: that unit takes the byte `response`. With no request outstanding the call fails and
    /// nothing changes. If the noted unit is not registered as a user of the
    /// external bus the call fails, and no response is outstanding any more.
    pub fn resolve_access(&mut self, response: u8) -> (outcome: Result<(), Error>)
        requires
            old(self).wf(),
        ensures
            final(self).wf(),
            coherent(old(self)@) ==> coherent(final(self)@),
            match old(self)@.controller.handler {
                None => {
                    &&& outcome == Err::<(), Error>(Error::MissingResponseHandler)
                    &&& final(self)@ == old(self)@
                },
                Some(handler) => if handles(old(self)@.units, handler) {
                    &&& outcome is Ok
                    &&& final(self)@ == answered(old(self)@, handler, response)
                } else {
                    &&& outcome == Err::<(), Error>(Error::UnknownBusHandler)
                    &&& final(self)@ == (ProcessorView {
                        controller: responded(old(self)@.controller),
                        ..old(self)@
                    })
                },
            },
    {
        let handler = match self.bus_controller.take_handler() {
            None => {
                assert(self@.controller == old(self)@.controller);
                return Err(Error::MissingResponseHandler);
            },
            Some(handler) => handler,
        };
        let at = self.find(handler.as_str());
        proof {
            lemma_position(self@.units, handler@, 0);
            if coherent(old(self)@) {
                lemma_controller_coherent(old(self)@, self@);
            }
        }
        let access = if at < self.paths.len() {
            match &self.paths[at] {
                Path::Access(_) => true,
                _ => false,
            }
        } else {
            false
        };
        assert(at < self.paths.len() ==> self@.units[at as int] == self.paths[at as int]@);
        if !access {
            return Err(Error::UnknownBusHandler);
        }
        let ghost before = self@;
        self.paths[at].resolve(response);
        proof {
            let after = self@;
            lemma_answered_keeps(before.units[at as int], response);
            assert(after.units =~= before.units.update(
                at as int,
                path_answered(before.units[at as int], response),
            ));
            assert(same_registry(before.units, after.units));
            assert forall|name: Seq<char>| handles(before.units, name) implies handles(
                after.units,
                name,
            ) by {
                lemma_registry(before.units, after.units, name);
            }
            if coherent(old(self)@) {
                lemma_bus_traffic_coherent(old(self)@, handler@, response);
                assert(after == answered(old(self)@, handler@, response));
            }
        }
        Ok(())
    }

    /// The value stored in register `idx`; `None` if there is no such
    /// register.
    pub fn register_value(&self, idx: usize) -> (value: Option<u32>)
        requires
            self.wf(),
        ensures
            value == if idx < REGISTER_COUNT {
                Some(self@.registers[idx as int].value)
            } else {
                None
            },
    {
        if idx < REGISTER_COUNT {
            Some(self.register_file.value(idx))
        } else {
            None
        }
    }

    /// What a reader of register `idx` sees: its value, or the tag that it
    /// waits for; `None` if there is no such register.
    pub fn register_state(&self, idx: usize) -> (state: Option<ArgVal>)
        requires
            self.wf(),
        ensures
            match state {
                Some(operand) => idx < REGISTER_COUNT && operand@ == read_spec(
                    self@.registers,
                    idx as int,
                ),
                None => idx >= REGISTER_COUNT,
            },
    {
        if idx < REGISTER_COUNT {
            Some(self.register_file.read(idx))
        } else {
            None
        }
    }

    /// The number of occupied slots of the unit called `name`; `None` if no
    /// unit has that name.
    pub fn pending(&self, name: &str) -> (count: Option<usize>)
        requires
            self.wf(),
        ensures
            match count {
                Some(count) => registered(self@.units, name@) && count == occupied(
                    self@.units[position(self@.units, name@, 0)].unit.slots,
                ),
                None => !registered(self@.units, name@),
            },
    {
        let at = self.find(name);
        if at < self.paths.len() {
            assert(self@.units[at as int] == self.paths[at as int]@);
            Some(self.paths[at].pending())
        } else {
            None
        }
    }

    /// The text of [`picture`] for this processor.
    pub fn print(&self) -> (text: String)
        requires
            self.wf(),
        ensures
            text@ == picture(self@),
    {
        let ghost registers = self@.registers;
        let ghost renderings = self@.units;
        let mut text = "PC: ".to_owned();
        text.append(decimal(self.pc as u64).as_str());
        text.append("\n");
        let ghost head = text@;
        let mut idx: usize = 0;
        assert(registers.take(0) =~= Seq::empty());
        while idx < REGISTER_COUNT
            invariant
                self.wf(),
                registers == self@.registers,
                idx <= REGISTER_COUNT,
                text@ == head + register_lines(registers.take(idx as int)),
            decreases REGISTER_COUNT - idx,
        {
            let ghost before = text@;
            text.append("R");
            text.append(decimal(idx as u64).as_str());
            text.append(": ");
            text.append(decimal(self.register_file.value(idx) as u64).as_str());
            if self.register_file.is_renamed(idx) {
                text.append(" (renamed)");
            }
            text.append("\n");
            proof {
                let upto = registers.take(idx + 1);
                assert(upto.drop_last() =~= registers.take(idx as int));
                assert(upto.last() == registers[idx as int]);
                assert(text@ =~= before + register_line(idx as nat, registers[idx as int]));
                assert(text@ =~= head + register_lines(upto));
            }
            idx = idx + 1;
        }
        assert(registers.take(idx as int) =~= registers);
        let ghost body = text@;
        let mut i: usize = 0;
        assert(renderings.take(0) =~= Seq::empty());
        while i < self.paths.len()
            invariant
                self.wf(),
                renderings == self@.units,
                i <= self.paths.len(),
                text@ == body + unit_lines(renderings.take(i as int)),
            decreases self.paths.len() - i,
        {
            let ghost before = text@;
            text.append(self.paths[i].dump().as_str());
            text.append("\n");
            proof {
                let upto = renderings.take(i + 1);
                assert(upto.drop_last() =~= renderings.take(i as int));
                assert(upto.last() == renderings[i as int]);
                assert(renderings[i as int] == self.paths[i as int]@);
                assert(text@ =~= before + rendering(renderings[i as int].unit) + "\n"@);
                assert(text@ =~= body + unit_lines(upto));
            }
            i = i + 1;
        }
        assert(renderings.take(i as int) =~= renderings);
        if self.result_bus.is_free() {
            text.append("result bus: free");
        } else {
            text.append("result bus: busy");
        }
        assert(text@ =~= picture(self@));
        text
    }

    /// Whether the result bus holds a result that the next cycle commits.
    pub fn result_waiting(&self) -> (waiting: bool)
        ensures
            waiting == (self@.bus is Some),
    {
        !self.result_bus.is_free()
    }
}

/// A name keeps its position when a unit is added behind the others.
pub proof fn lemma_position_kept(units: Seq<PathView>, added: PathView, name: Seq<char>)
    requires
        registered(units, name),
    ensures
        position(units.push(added), name, 0) == position(units, name, 0),
        units.push(added)[position(units, name, 0)] == units[position(units, name, 0)],
{
    lemma_position_from(units, added, name, 0);
}

/// [`lemma_position_kept`] for the search from `from` on.
pub proof fn lemma_position_from(units: Seq<PathView>, added: PathView, name: Seq<char>, from: int)
    requires
        0 <= from <= units.len(),
        position(units, name, from) < units.len(),
    ensures
        position(units.push(added), name, from) == position(units, name, from),
        units.push(added)[position(units, name, from)] == units[position(units, name, from)],
    decreases units.len() - from,
{
    lemma_position(units, name, from);
    if from < units.len() && units[from].unit.name != name {
        lemma_position_from(units, added, name, from + 1);
    }
}

/// The tag under which the bus holds a result.
pub open spec fn tag_on(bus: BusView) -> TagView {
    match bus {
        Some((tag, _)) => tag,
        None => TagView { name: Seq::empty(), slot: 0 },
    }
}

/// The index of the candidate that was found; zero if none was.
pub open spec fn index_of(best: Option<(usize, usize, usize)>) -> int {
    match best {
        Some((_, index, _)) => index as int,
        None => 0,
    }
}

/// Whether a candidate of this load and index comes after the one that
/// refused last.
pub open spec fn above(floor: Option<(usize, usize)>, level: nat, index: int) -> bool {
    match floor {
        None => true,
        Some((refused, last)) => level > refused || (level == refused && index > last),
    }
}

/// The stepping of the units keeps the processor valid.
pub proof fn lemma_stepped_valid(pre: ProcessorView, post: ProcessorView)
    requires
        valid(pre),
        cycle_stepped(pre, post),
    ensures
        valid(post),
        same_registry(pre.units, post.units),
{
    assert(same_registry(pre.units, post.units)) by {
        assert forall|i: int| 0 <= i < pre.units.len() implies (#[trigger] post.units[i]).unit.name
            == pre.units[i].unit.name && post.units[i].access == pre.units[i].access by {
            assert(unit_stepped(pre.units[i], post.units[i], pre.bus, post.bus));
        }
    }
    assert forall|i: int, j: int| 0 <= i < j < post.units.len() implies (
    #[trigger] post.units[i]).unit.name != (#[trigger] post.units[j]).unit.name by {
        assert(pre.units[i].unit.name != pre.units[j].unit.name);
    }
    assert forall|r: int| 0 <= r < post.controller.queue.len() implies handles(
        post.units,
        (#[trigger] post.controller.queue[r]).handler,
    ) by {
        let name = post.controller.queue[r].handler;
        lemma_registry(pre.units, post.units, name);
        if r < pre.controller.queue.len() {
            assert(post.controller.queue[r] == pre.controller.queue[r]);
        }
    }
    if post.controller.handler is Some {
        lemma_registry(pre.units, post.units, post.controller.handler->0);
    }
}

/// The stepping of the units that only compute, followed by that of the
/// units that use the external bus, is a stepping of all units.
pub proof fn lemma_two_passes(first: ProcessorView, middle: ProcessorView, last: ProcessorView)
    requires
        valid(first),
        cycle_stepped(first, middle),
        cycle_stepped(middle, last),
        bus_filled(first.bus, middle.bus),
        bus_filled(middle.bus, last.bus),
        forall|i: int|
            0 <= i < first.units.len() && first.units[i].access ==> (#[trigger] middle.units[i])
                == first.units[i],
        forall|i: int|
            0 <= i < middle.units.len() && !middle.units[i].access ==> (#[trigger] last.units[i])
                == middle.units[i],
    ensures
        cycle_stepped(first, last),
{
    assert(same_registry(first.units, middle.units)) by {
        assert forall|i: int| 0 <= i < first.units.len() implies (#[trigger] middle.units[i]).unit.name
            == first.units[i].unit.name && middle.units[i].access == first.units[i].access by {
            assert(unit_stepped(first.units[i], middle.units[i], first.bus, middle.bus));
        }
    }
    assert forall|i: int| 0 <= i < first.units.len() implies unit_stepped(
        first.units[i],
        #[trigger] last.units[i],
        first.bus,
        last.bus,
    ) by {
        assert(unit_stepped(first.units[i], middle.units[i], first.bus, middle.bus));
        assert(unit_stepped(middle.units[i], last.units[i], middle.bus, last.bus));
        if first.units[i].access {
            assert(middle.units[i] == first.units[i]);
            lemma_widen(first.units[i], last.units[i], first.bus, middle.bus, last.bus, last.bus);
        } else {
            assert(last.units[i] == middle.units[i]);
            lemma_widen(first.units[i], middle.units[i], first.bus, first.bus, middle.bus, last.bus);
        }
    }
    assert(bus_stepped(first.units, last.units, first.bus, last.bus)) by {
        if last.bus == middle.bus {
            if middle.bus != first.bus {
                let tag = tag_on(middle.bus);
                let at = position(first.units, tag.name, 0);
                assert(freed(first.units, middle.units, tag));
                assert(unit_stepped(first.units[at], middle.units[at], first.bus, middle.bus));
                if first.units[at].access {
                    assert(middle.units[at] == first.units[at]);
                } else {
                    assert(last.units[at] == middle.units[at]);
                }
            }
        } else {
            let tag = tag_on(last.bus);
            lemma_registry(first.units, middle.units, tag.name);
            let at = position(first.units, tag.name, 0);
            assert(freed(middle.units, last.units, tag));
            assert(unit_stepped(first.units[at], middle.units[at], first.bus, middle.bus));
            if middle.units[at].access {
                assert(middle.units[at] == first.units[at]);
            } else {
                assert(last.units[at] == middle.units[at]);
            }
        }
    }
    assert(queue_extended(first.units, first.controller, last.controller)) by {
        assert forall|r: int|
            first.controller.queue.len() <= r < last.controller.queue.len() implies handles(
            first.units,
            (#[trigger] last.controller.queue[r]).handler,
        ) by {
            let name = last.controller.queue[r].handler;
            lemma_registry(first.units, middle.units, name);
            if r < middle.controller.queue.len() {
                assert(last.controller.queue[r] == middle.controller.queue[r]);
            }
        }
    }
}

// ---------------------------------------------------------------------
// What the contracts imply
// ---------------------------------------------------------------------
/// No two slots of a valid processor have one tag. In particular the tags
/// of the slots that are occupied at one time are distinct.
pub proof fn lemma_tags_distinct(view: ProcessorView, i: int, k: int, j: int, l: int)
    requires
        valid(view),
        0 <= i < view.units.len(),
        0 <= j < view.units.len(),
        0 <= k < view.units[i].unit.slots.len(),
        0 <= l < view.units[j].unit.slots.len(),
        i != j || k != l,
    ensures
        slot_tag(view.units[i].unit, k) != slot_tag(view.units[j].unit, l),
{
    if i < j {
        assert(view.units[i].unit.name != view.units[j].unit.name);
    } else if j < i {
        assert(view.units[j].unit.name != view.units[i].unit.name);
    }
}

/// The tag under which a unit with slots takes an instruction is the tag
/// of no slot that is occupied at that time.
pub proof fn lemma_issued_tag_fresh(
    view: ProcessorView,
    stations: Seq<Seq<char>>,
    mnemonic: Seq<char>,
    count: nat,
    tag: TagView,
    j: int,
    l: int,
)
    requires
        valid(view),
        !stalls(view.units, stations, mnemonic, count),
        tag_fits(view, stations, mnemonic, count, tag),
        view.units[candidate(view.units, stations, elected(view.units, stations, mnemonic, count))].unit.slots.len()
            > 0,
        0 <= j < view.units.len(),
        0 <= l < view.units[j].unit.slots.len(),
        view.units[j].unit.slots[l] is Some,
    ensures
        slot_tag(view.units[j].unit, l) != tag,
{
    lemma_some_preferred(view.units, stations, mnemonic, count);
    let e = elected(view.units, stations, mnemonic, count);
    let at = candidate(view.units, stations, e);
    lemma_position(view.units, stations[e], 0);
    if j != at {
        if j < at {
            assert(view.units[j].unit.name != view.units[at].unit.name);
        } else {
            assert(view.units[at].unit.name != view.units[j].unit.name);
        }
    }
}

/// Where the instruction does not stall a candidate is preferred: the
/// elected one.
pub proof fn lemma_some_preferred(
    units: Seq<PathView>,
    stations: Seq<Seq<char>>,
    mnemonic: Seq<char>,
    count: nat,
)
    requires
        !stalls(units, stations, mnemonic, count),
    ensures
        preferred(units, stations, mnemonic, count, elected(units, stations, mnemonic, count)),
{
    let c = choose|c: int| 0 <= c < stations.len() && takes(units, stations, mnemonic, count, c);
    lemma_least_from(units, stations, mnemonic, count, stations.len() as int, c);
}

/// Among the candidates below `upto` that take the instruction, if `c` is
/// one, there is one that precedes all of them.
pub proof fn lemma_least_from(
    units: Seq<PathView>,
    stations: Seq<Seq<char>>,
    mnemonic: Seq<char>,
    count: nat,
    upto: int,
    c: int,
)
    requires
        0 <= c < upto <= stations.len(),
        takes(units, stations, mnemonic, count, c),
    ensures
        exists|b: int|
            0 <= b < upto && takes(units, stations, mnemonic, count, b) && forall|d: int|
                0 <= d < upto && #[trigger] takes(units, stations, mnemonic, count, d) ==> precedes(
                    units,
                    stations,
                    b,
                    d,
                ),
        upto == stations.len() ==> preferred(
            units,
            stations,
            mnemonic,
            count,
            elected(units, stations, mnemonic, count),
        ),
    decreases upto,
{
    let last = upto - 1;
    if c == last && forall|d: int|
        0 <= d < last ==> !#[trigger] takes(units, stations, mnemonic, count, d) {
        assert(takes(units, stations, mnemonic, count, c) && forall|d: int|
            0 <= d < upto && #[trigger] takes(units, stations, mnemonic, count, d) ==> precedes(
                units,
                stations,
                c,
                d,
            ));
        if upto == stations.len() {
            assert(preferred(units, stations, mnemonic, count, c));
        }
    } else {
        let earlier = if c < last {
            c
        } else {
            choose|d: int| 0 <= d < last && takes(units, stations, mnemonic, count, d)
        };
        lemma_least_from(units, stations, mnemonic, count, last, earlier);
        let b = choose|b: int|
            0 <= b < last && takes(units, stations, mnemonic, count, b) && forall|d: int|
                0 <= d < last && #[trigger] takes(units, stations, mnemonic, count, d) ==> precedes(
                    units,
                    stations,
                    b,
                    d,
                );
        let best = if takes(units, stations, mnemonic, count, last) && !precedes(
            units,
            stations,
            b,
            last,
        ) {
            last
        } else {
            b
        };
        assert(takes(units, stations, mnemonic, count, best) && forall|d: int|
            0 <= d < upto && #[trigger] takes(units, stations, mnemonic, count, d) ==> precedes(
                units,
                stations,
                best,
                d,
            )) by {
            assert forall|d: int|
                0 <= d < upto && #[trigger] takes(units, stations, mnemonic, count, d) implies precedes(
                units,
                stations,
                best,
                d,
            ) by {
                if d < last {
                    assert(precedes(units, stations, b, d));
                }
            }
        }
        if upto == stations.len() {
            assert(preferred(units, stations, mnemonic, count, best));
        }
    }
}

/// The commit changes neither which unit a name is found at nor whether a
/// candidate takes an instruction: an instruction stalls after the commit
/// exactly if it would have stalled before it.
pub proof fn lemma_commit_keeps_candidates(
    view: ProcessorView,
    stations: Seq<Seq<char>>,
    mnemonic: Seq<char>,
    count: nat,
)
    ensures
        forall|c: int|
            0 <= c < stations.len() ==> #[trigger] takes(
                committed(view).units,
                stations,
                mnemonic,
                count,
                c,
            ) == takes(view.units, stations, mnemonic, count, c),
        stalls(committed(view).units, stations, mnemonic, count) == stalls(
            view.units,
            stations,
            mnemonic,
            count,
        ),
{
    let after = committed(view).units;
    assert(same_registry(view.units, after));
    assert forall|c: int| 0 <= c < stations.len() implies #[trigger] takes(
        after,
        stations,
        mnemonic,
        count,
        c,
    ) == takes(view.units, stations, mnemonic, count, c) by {
        lemma_registry(view.units, after, stations[c]);
        lemma_position(view.units, stations[c], 0);
        let at = candidate(view.units, stations, c);
        if at < view.units.len() {
            lemma_forward_keeps_issuable(view.units[at].unit, after[at].unit, mnemonic, count);
        }
    }
    if stalls(view.units, stations, mnemonic, count) {
        assert forall|c: int| 0 <= c < stations.len() implies !#[trigger] takes(
            after,
            stations,
            mnemonic,
            count,
            c,
        ) by {
            assert(!takes(view.units, stations, mnemonic, count, c));
        }
    } else {
        let c = choose|c: int|
            0 <= c < stations.len() && takes(view.units, stations, mnemonic, count, c);
        assert(takes(after, stations, mnemonic, count, c));
    }
}

/// Two units with the same formats whose slots are free at the same
/// indices take the same instructions.
pub proof fn lemma_forward_keeps_issuable(
    pre: UnitView,
    post: UnitView,
    mnemonic: Seq<char>,
    count: nat,
)
    requires
        post.formats == pre.formats,
        post.slots.len() == pre.slots.len(),
        forall|k: int|
            0 <= k < pre.slots.len() ==> ((#[trigger] post.slots[k]) is None) == (pre.slots[k]
                is None),
    ensures
        issuable(post, mnemonic, count) == issuable(pre, mnemonic, count),
{
    if crate::execution_path::has_free_slot(pre.slots) {
        let k = choose|k: int| 0 <= k < pre.slots.len() && (#[trigger] pre.slots[k]) is None;
        assert(post.slots[k] is None);
    }
    if crate::execution_path::has_free_slot(post.slots) {
        let k = choose|k: int| 0 <= k < post.slots.len() && (#[trigger] post.slots[k]) is None;
        assert(pre.slots[k] is None);
    }
}

/// Whether the cycle on `text` issues its instruction: the text decodes,
/// its destination is no immediate, and a candidate takes the instruction.
pub open spec fn issues(pre: ProcessorView, text: Seq<char>) -> bool {
    &&& decode_spec(pre.table, text) matches Ok(inst)
    &&& !(inst.writeback matches Some(ArgType::Imm(_)))
    &&& !stalls(pre.units, inst.stations, inst.mnemonic, inst.arguments.len())
}

/// The program counter moves on by one exactly in a cycle that issues its
/// instruction. Where every candidate refuses the instruction, and where
/// the text is refused, it stays.
pub proof fn lemma_fetch_address(
    pre: ProcessorView,
    text: Seq<char>,
    outcome: Result<(), Error>,
    post: ProcessorView,
)
    requires
        cycle(pre, text, outcome, post),
    ensures
        post.pc == if issues(pre, text) {
            pre.pc + 1
        } else {
            pre.pc
        },
{
    if decode_spec(pre.table, text) is Ok {
        let inst = decode_spec(pre.table, text)->Ok_0;
        if !(inst.writeback matches Some(ArgType::Imm(_))) {
            let mid = choose|mid: ProcessorView|
                dispatched(committed(pre), inst, mid) && #[trigger] cycle_stepped(mid, post);
            lemma_commit_keeps_candidates(pre, inst.stations, inst.mnemonic, inst.arguments.len());
        }
    }
}

/// After a cycle that issues an instruction whose destination is register
/// `idx`, that register waits for a tag of the unit that took the
/// instruction. (It keeps waiting for it until that tag is broadcast: see
/// [`crate::register::lemma_waiting_until_commit`].)
pub proof fn lemma_destination_renamed(
    pre: ProcessorView,
    text: Seq<char>,
    outcome: Result<(), Error>,
    post: ProcessorView,
    idx: usize,
)
    requires
        valid(pre),
        cycle(pre, text, outcome, post),
        issues(pre, text),
        decode_spec(pre.table, text)->Ok_0.writeback == Some(ArgType::Reg(idx)),
        idx < REGISTER_COUNT,
    ensures
        ({
            let inst = decode_spec(pre.table, text)->Ok_0;
            let units = committed(pre).units;
            let count = inst.arguments.len();
            let at = candidate(units, inst.stations, elected(units, inst.stations, inst.mnemonic, count));
            &&& read_spec(post.registers, idx as int) is Waiting
            &&& read_spec(post.registers, idx as int)->Waiting_0.name == pre.units[at].unit.name
        }),
{
    let inst = decode_spec(pre.table, text)->Ok_0;
    let after = committed(pre);
    let mid = choose|mid: ProcessorView|
        dispatched(after, inst, mid) && #[trigger] cycle_stepped(mid, post);
    lemma_commit_keeps_candidates(pre, inst.stations, inst.mnemonic, inst.arguments.len());
    let operands = operand_states(after.registers, inst.arguments);
    let tag = choose|tag: TagView|
        {
            &&& tag_fits(after, inst.stations, inst.mnemonic, operands.len(), tag)
            &&& mid == (ProcessorView {
                pc: after.pc + 1,
                registers: renamed(after.registers, inst.writeback, tag),
                ..#[trigger] issued(after, inst.stations, inst.mnemonic, operands, tag)
            })
        };
    lemma_some_preferred(after.units, inst.stations, inst.mnemonic, operands.len());
    let e = elected(after.units, inst.stations, inst.mnemonic, operands.len());
    lemma_position(after.units, inst.stations[e], 0);
    assert(after.registers.len() == pre.registers.len());
}

/// A request that has been handed out can be answered exactly once: after
/// `bus_access` has returned a request, the unit that made it is noted and
/// is registered, so that `resolve_access` succeeds; after that no response
/// is outstanding, so that a second `resolve_access` fails.
pub proof fn lemma_bus_round_trip(view: ProcessorView, response: u8)
    requires
        valid(view),
        pop_result(view.controller) is Some,
    ensures
        ({
            let handed = ProcessorView { controller: popped(view.controller), ..view };
            &&& handed.controller.handler matches Some(handler)
            &&& handles(handed.units, handler)
            &&& answered(handed, handler, response).controller.handler is None
        }),
{
    assert(view.controller.queue[0] == view.controller.queue.first());
}

/// The turn of a unit changes neither the number of units nor which of
/// them use the external bus nor which are out of order.
pub proof fn lemma_turn_keeps(view: ProcessorView, i: int)
    requires
        0 <= i < view.units.len(),
    ensures
        took_turn(view, i).units.len() == view.units.len(),
        forall|j: int|
            0 <= j < view.units.len() ==> (#[trigger] took_turn(view, i).units[j]).unit.broken
                == view.units[j].unit.broken && took_turn(view, i).units[j].access
                == view.units[j].access,
{
}

/// Where every unit is in order, the stepping of the units of one kind
/// reports no fault, and every unit is in order after it.
pub proof fn lemma_run_kind_sound(view: ProcessorView, access: bool, from: int)
    requires
        sound(view.units),
        0 <= from <= view.units.len(),
    ensures
        !run_kind(view, access, from, view.units.len() as int).fault,
        sound(run_kind(view, access, from, view.units.len() as int).view.units),
        run_kind(view, access, from, view.units.len() as int).view.units.len()
            == view.units.len(),
    decreases view.units.len() - from,
{
    if from < view.units.len() {
        if view.units[from].access != access {
            lemma_run_kind_sound(view, access, from + 1);
        } else {
            lemma_turn_keeps(view, from);
            let next = took_turn(view, from);
            assert(sound(next.units)) by {
                assert forall|j: int| 0 <= j < next.units.len() implies !(
                #[trigger] next.units[j]).unit.broken by {
                    assert(!view.units[j].unit.broken);
                }
            }
            lemma_run_kind_sound(next, access, from + 1);
        }
    }
}

/// Where every unit is in order, a cycle is refused or succeeds: it
/// succeeds on every text that decodes and whose destination is no
/// immediate, whether the instruction is issued or stalls. Every unit is in
/// order after it.
pub proof fn lemma_cycle_sound(pre: ProcessorView, text: Seq<char>)
    requires
        sound(pre.units),
    ensures
        sound(after_cycle(pre, text).view.units),
        !after_cycle(pre, text).fault,
        accepted(pre, text) ==> cycle_outcome(pre, text) is Ok,
        !accepted(pre, text) ==> cycle_outcome(pre, text) is Err,
{
    if accepted(pre, text) {
        let inst = decode_spec(pre.table, text)->Ok_0;
        let after = committed(pre);
        assert(sound(after.units)) by {
            assert forall|j: int| 0 <= j < after.units.len() implies !(
            #[trigger] after.units[j]).unit.broken by {
                assert(!pre.units[j].unit.broken);
            }
        }
        let operands = operand_states(after.registers, inst.arguments);
        let next = dispatch(after, inst);
        assert(sound(next.units)) by {
            if !stalls(after.units, inst.stations, inst.mnemonic, operands.len()) {
                lemma_some_preferred(after.units, inst.stations, inst.mnemonic, operands.len());
                let e = elected(after.units, inst.stations, inst.mnemonic, operands.len());
                lemma_position(after.units, inst.stations[e], 0);
                assert forall|j: int| 0 <= j < next.units.len() implies !(
                #[trigger] next.units[j]).unit.broken by {
                    assert(!after.units[j].unit.broken);
                }
            }
        }
        lemma_run_kind_sound(next, false, 0);
        let first = run_kind(next, false, 0, next.units.len() as int);
        lemma_run_kind_sound(first.view, true, 0);
    }
}

} // verus!
