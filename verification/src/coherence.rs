//! Why a tag can be used again once its slot is free.
//!
//! A tag names a slot, and slots are used again and again. That is safe
//! because of what this module proves: in a coherent processor every tag
//! that a register or an operand waits for is *live*, which means that its
//! result is on the result bus or that its slot holds an instruction that
//! will broadcast one. A slot that is free and whose tag is not on the bus
//! is therefore awaited by nobody, and the instruction that takes it next
//! cannot be mistaken for its predecessor. Coherence holds of the new
//! processor and is kept by every operation.

use crate::bus::popped;
use crate::decoder::{
    consistent, decode_spec, first_entry, lemma_operands_in_range, lemma_scan_bounds, mnemonic_end,
    mnemonic_of, operand_in_range, operands_of, owners_of, registers_in_range, registrations,
    same_shape, skip_spaces, source_offset, ArgType, RegistrationView,
};
use crate::error::Error;
use crate::execution_path::{
    all_ready, carries, same_instruction, slot_stepped, slot_tag, writes_back, ArgView, SlotView,
    TagView, UnitView,
};
use crate::processor::{
    answered, candidate, committed, cycle, cycle_stepped, dispatched, elected, freed, handles,
    initial, issued, lemma_position, lemma_position_from, lemma_position_unique, lemma_registry,
    lemma_some_preferred, lemma_stepped_valid, operand_states, position, registered,
    registration_refusal, renamed, same_registry, stalls, tag_fits, tag_on, takes, unit_stepped,
    valid, with_unit, PathView, ProcessorView,
};
use vstd::prelude::*;

verus! {

/// Whether the slot that `tag` names holds an instruction.
pub open spec fn holds(units: Seq<PathView>, tag: TagView) -> bool {
    let at = position(units, tag.name, 0);
    &&& 0 <= at < units.len()
    &&& tag.slot < units[at].unit.slots.len()
    &&& units[at].unit.slots[tag.slot as int] is Some
}

/// Whether the slot that `tag` names holds an instruction that has a
/// destination, and so will broadcast its result under `tag`.
pub open spec fn yields(units: Seq<PathView>, tag: TagView) -> bool {
    &&& holds(units, tag)
    &&& writes_back(
        units[position(units, tag.name, 0)].unit.formats,
        units[position(units, tag.name, 0)].unit.slots[tag.slot as int]->0.mnemonic,
    )
}

/// Whether the result that `tag` names is still to come or is on the bus.
pub open spec fn live(view: ProcessorView, tag: TagView) -> bool {
    carries(view.bus, tag) || yields(view.units, tag)
}

/// Whether the tag that a register waits for, if it waits, is live.
pub open spec fn pending_live(view: ProcessorView, pending: Option<TagView>) -> bool {
    match pending {
        Some(tag) => live(view, tag),
        None => true,
    }
}

/// Whether the tag that an operand waits for, if it waits, is live.
pub open spec fn operand_live(view: ProcessorView, operand: ArgView) -> bool {
    match operand {
        ArgView::Waiting(tag) => live(view, tag),
        ArgView::Ready(_) => true,
    }
}

/// The number of operands of the instruction in `slot`.
pub open spec fn operand_count(slot: Option<SlotView>) -> nat {
    match slot {
        Some(held) => held.operands.len(),
        None => 0,
    }
}

/// Operand `j` of the instruction in slot `k` of unit `i`.
pub open spec fn operand_at(units: Seq<PathView>, i: int, k: int, j: int) -> ArgView {
    units[i].unit.slots[k]->0.operands[j]
}

/// Whether the owner of `registration` is a registered unit that has the
/// registered format among its own.
pub open spec fn backed(units: Seq<PathView>, registration: RegistrationView) -> bool {
    let at = position(units, registration.owner, 0);
    &&& 0 <= at < units.len()
    &&& exists|f: int|
        0 <= f < units[at].unit.formats.len() && (#[trigger] units[at].unit.formats[f])
            == registration.format
}

/// Whether the tag on the result bus, if there is one, names a slot of a
/// registered unit that is free.
pub open spec fn bus_clear(view: ProcessorView) -> bool {
    match view.bus {
        Some((tag, _)) => registered(view.units, tag.name) && !holds(view.units, tag),
        None => true,
    }
}

/// The coherence of the processor: every tag that a register or an operand
/// waits for is live, the tag on the result bus names a free slot, and
/// every registered format is a format of the unit that registered it.
pub open spec fn coherent(view: ProcessorView) -> bool {
    &&& forall|r: int|
        0 <= r < view.registers.len() ==> pending_live(view, (#[trigger] view.registers[r]).pending)
    &&& forall|i: int, k: int, j: int|
        0 <= i < view.units.len() && 0 <= k < view.units[i].unit.slots.len() && 0 <= j
            < operand_count(view.units[i].unit.slots[k]) ==> operand_live(
            view,
            #[trigger] operand_at(view.units, i, k, j),
        )
    &&& bus_clear(view)
    &&& forall|r: int| 0 <= r < view.table.len() ==> backed(view.units, #[trigger] view.table[r])
}

/// Whether no instruction in the unit waits for an operand.
pub open spec fn quiet(unit: UnitView) -> bool {
    forall|k: int|
        0 <= k < unit.slots.len() ==> ((#[trigger] unit.slots[k]) matches Some(held) ==> all_ready(
            held.operands,
        ))
}

/// Whether `b` holds the units of `a` with the same names, kinds, formats
/// and numbers of slots.
pub open spec fn same_frames(a: Seq<PathView>, b: Seq<PathView>) -> bool {
    &&& same_registry(a, b)
    &&& forall|i: int|
        0 <= i < a.len() ==> (#[trigger] b[i]).unit.formats == a[i].unit.formats
            && b[i].unit.slots.len() == a[i].unit.slots.len()
}

/// A tag keeps yielding where its slot keeps its instruction.
pub proof fn lemma_yields_kept(a: Seq<PathView>, b: Seq<PathView>, tag: TagView)
    requires
        same_frames(a, b),
        yields(a, tag),
        ({
            let at = position(a, tag.name, 0);
            b[at].unit.slots[tag.slot as int] is Some
                && b[at].unit.slots[tag.slot as int]->0.mnemonic
                == a[at].unit.slots[tag.slot as int]->0.mnemonic
        }),
    ensures
        yields(b, tag),
{
    lemma_registry(a, b, tag.name);
    let at = position(a, tag.name, 0);
    assert(b[at].unit.formats == a[at].unit.formats);
}

/// The owner of a registration stays backed where names and formats stay.
pub proof fn lemma_backed_kept(a: Seq<PathView>, b: Seq<PathView>, registration: RegistrationView)
    requires
        same_frames(a, b),
        backed(a, registration),
    ensures
        backed(b, registration),
{
    lemma_registry(a, b, registration.owner);
    let at = position(a, registration.owner, 0);
    assert(b[at].unit.formats == a[at].unit.formats);
    let f = choose|f: int|
        0 <= f < a[at].unit.formats.len() && (#[trigger] a[at].unit.formats[f])
            == registration.format;
    assert(b[at].unit.formats[f] == registration.format);
}

/// The processor is coherent before its first cycle.
pub proof fn lemma_initial_coherent()
    ensures
        coherent(initial()),
        valid(initial()),
{
    let view = initial();
    let formats = crate::nop_unit::nop_formats();
    assert(view.units.len() == 1);
    assert(view.units[0].unit.name == "nop"@);
    assert(position(view.units, "nop"@, 0) == 0);
    assert forall|r: int| 0 <= r < view.table.len() implies backed(
        view.units,
        #[trigger] view.table[r],
    ) by {
        assert(view.table[r].owner == "nop"@);
        assert(view.units[0].unit.formats[r] == view.table[r].format);
    }
    assert(formats.len() == 1);
    assert(consistent(view.table));
}

/// The commit keeps the processor valid and coherent, and leaves the result
/// bus empty.
pub proof fn lemma_commit_coherent(view: ProcessorView)
    requires
        valid(view),
        coherent(view),
    ensures
        valid(committed(view)),
        coherent(committed(view)),
        committed(view).bus is None,
        same_frames(view.units, committed(view).units),
{
    let after = committed(view);
    assert(same_frames(view.units, after.units));
    if view.bus is Some {
        let sent = tag_on(view.bus);
        assert forall|name: Seq<char>| handles(view.units, name) implies handles(
            after.units,
            name,
        ) by {
            lemma_registry(view.units, after.units, name);
        }
        assert forall|tag: TagView| tag != sent && live(view, tag) implies #[trigger] live(
            after,
            tag,
        ) by {
            lemma_yields_kept(view.units, after.units, tag);
        }
        assert forall|r: int| 0 <= r < after.registers.len() implies pending_live(
            after,
            (#[trigger] after.registers[r]).pending,
        ) by {
            assert(pending_live(view, view.registers[r].pending));
            if after.registers[r].pending is Some {
                let tag = after.registers[r].pending->0;
                assert(tag != sent);
                assert(live(view, tag));
            }
        }
        assert forall|i: int, k: int, j: int|
            0 <= i < after.units.len() && 0 <= k < after.units[i].unit.slots.len() && 0 <= j
                < operand_count(after.units[i].unit.slots[k]) implies operand_live(
            after,
            #[trigger] operand_at(after.units, i, k, j),
        ) by {
            assert(operand_live(view, operand_at(view.units, i, k, j)));
            let operand = operand_at(after.units, i, k, j);
            if operand is Waiting {
                let tag = operand->Waiting_0;
                assert(operand_at(view.units, i, k, j) == ArgView::Waiting(tag));
                assert(tag != sent);
                assert(live(view, tag));
            }
        }
        assert forall|r: int| 0 <= r < after.table.len() implies backed(
            after.units,
            #[trigger] after.table[r],
        ) by {
            lemma_backed_kept(view.units, after.units, view.table[r]);
        }
    }
}

/// The index that [`first_entry`] gives lies at or after `from`, at most at
/// the length of the table, and is that of a registration of the mnemonic
/// if it is an index.
pub proof fn lemma_first_entry(table: Seq<RegistrationView>, mnemonic: Seq<char>, from: int)
    requires
        0 <= from <= table.len(),
    ensures
        from <= first_entry(table, mnemonic, from) <= table.len(),
        first_entry(table, mnemonic, from) < table.len() ==> table[first_entry(
            table,
            mnemonic,
            from,
        )].format.mnemonic == mnemonic,
    decreases table.len() - from,
{
    if from < table.len() && table[from].format.mnemonic != mnemonic {
        lemma_first_entry(table, mnemonic, from + 1);
    }
}

/// Every station of a mnemonic is the owner of a registration of it.
pub proof fn lemma_owners(table: Seq<RegistrationView>, mnemonic: Seq<char>, c: int)
    requires
        0 <= c < owners_of(table, mnemonic).len(),
    ensures
        exists|r: int|
            0 <= r < table.len() && (#[trigger] table[r]).owner == owners_of(table, mnemonic)[c]
                && table[r].format.mnemonic == mnemonic,
    decreases table.len(),
{
    if table.len() > 0 {
        let rest = table.drop_last();
        let last = table.len() - 1;
        if table.last().format.mnemonic == mnemonic && c == owners_of(rest, mnemonic).len() {
            assert(table[last].owner == owners_of(table, mnemonic)[c]);
        } else {
            lemma_owners(rest, mnemonic, c);
            let r = choose|r: int|
                0 <= r < rest.len() && (#[trigger] rest[r]).owner == owners_of(rest, mnemonic)[c]
                    && rest[r].format.mnemonic == mnemonic;
            assert(table[r] == rest[r]);
        }
    }
}

/// Every register that a decoded instruction names exists.
pub proof fn lemma_decoded_in_range(table: Seq<RegistrationView>, text: Seq<char>)
    requires
        decode_spec(table, text) is Ok,
    ensures
        registers_in_range(decode_spec(table, text)->Ok_0),
{
    let start = skip_spaces(text, 0);
    lemma_scan_bounds(text, 0);
    lemma_scan_bounds(text, start);
    let end = mnemonic_end(text);
    lemma_scan_bounds(text, end);
    let from = skip_spaces(text, end);
    lemma_operands_in_range(text, from);
    let inst = decode_spec(table, text)->Ok_0;
    let operands = operands_of(text)->0;
    let entry = first_entry(table, mnemonic_of(text), 0);
    let format = table[entry].format;
    assert forall|i: int| 0 <= i < inst.arguments.len() implies operand_in_range(
        #[trigger] inst.arguments[i],
    ) by {
        assert(inst.arguments[i] == operands[i + source_offset(format)]);
    }
}

/// A candidate that takes an instruction of a decoded mnemonic with a
/// destination has that mnemonic among its formats with a destination, and
/// has slots.
pub proof fn lemma_candidate_writes_back(
    view: ProcessorView,
    text: Seq<char>,
    c: int,
)
    requires
        valid(view),
        coherent(view),
        decode_spec(view.table, text) is Ok,
        decode_spec(view.table, text)->Ok_0.writeback is Some,
        0 <= c < decode_spec(view.table, text)->Ok_0.stations.len(),
        takes(
            view.units,
            decode_spec(view.table, text)->Ok_0.stations,
            decode_spec(view.table, text)->Ok_0.mnemonic,
            decode_spec(view.table, text)->Ok_0.arguments.len(),
            c,
        ),
    ensures
        ({
            let inst = decode_spec(view.table, text)->Ok_0;
            let unit = view.units[candidate(view.units, inst.stations, c)].unit;
            writes_back(unit.formats, inst.mnemonic) && unit.slots.len() > 0
        }),
{
    let table = view.table;
    let inst = decode_spec(table, text)->Ok_0;
    let mnemonic = inst.mnemonic;
    lemma_first_entry(table, mnemonic, 0);
    let entry = first_entry(table, mnemonic, 0);
    assert(table[entry].format.writeback);
    lemma_owners(table, mnemonic, c);
    let r = choose|r: int|
        0 <= r < table.len() && (#[trigger] table[r]).owner == owners_of(table, mnemonic)[c]
            && table[r].format.mnemonic == mnemonic;
    assert(same_shape(table[r].format, table[entry].format)) by {
        if r < entry {
            assert(same_shape(table[r].format, table[entry].format));
        } else if entry < r {
            assert(same_shape(table[entry].format, table[r].format));
        }
    }
    assert(backed(view.units, table[r]));
    let at = candidate(view.units, inst.stations, c);
    let f = choose|f: int|
        0 <= f < view.units[at].unit.formats.len() && (#[trigger] view.units[at].unit.formats[f])
            == table[r].format;
    assert(view.units[at].unit.formats[f].mnemonic == mnemonic
        && view.units[at].unit.formats[f].writeback);
}

/// Issue keeps the processor valid and coherent, where the result bus is
/// empty.
pub proof fn lemma_dispatch_coherent(pre: ProcessorView, text: Seq<char>, post: ProcessorView)
    requires
        valid(pre),
        coherent(pre),
        pre.bus is None,
        decode_spec(pre.table, text) is Ok,
        !(decode_spec(pre.table, text)->Ok_0.writeback matches Some(ArgType::Imm(_))),
        dispatched(pre, decode_spec(pre.table, text)->Ok_0, post),
    ensures
        valid(post),
        coherent(post),
{
    let inst = decode_spec(pre.table, text)->Ok_0;
    let operands = operand_states(pre.registers, inst.arguments);
    let count = operands.len();
    lemma_decoded_in_range(pre.table, text);
    if !stalls(pre.units, inst.stations, inst.mnemonic, count) {
        let tag = choose|tag: TagView|
            {
                &&& tag_fits(pre, inst.stations, inst.mnemonic, operands.len(), tag)
                &&& post == (ProcessorView {
                    pc: pre.pc + 1,
                    registers: renamed(pre.registers, inst.writeback, tag),
                    ..#[trigger] issued(pre, inst.stations, inst.mnemonic, operands, tag)
                })
            };
        lemma_some_preferred(pre.units, inst.stations, inst.mnemonic, count);
        let e = elected(pre.units, inst.stations, inst.mnemonic, count);
        let at = candidate(pre.units, inst.stations, e);
        lemma_position(pre.units, inst.stations[e], 0);
        let unit = pre.units[at].unit;
        lemma_position_unique(pre.units, at);
        assert(same_frames(pre.units, post.units));
        assert forall|name: Seq<char>| handles(pre.units, name) implies handles(
            post.units,
            name,
        ) by {
            lemma_registry(pre.units, post.units, name);
        }
        assert(valid(post)) by {
            assert forall|i: int, j: int| 0 <= i < j < post.units.len() implies (
            #[trigger] post.units[i]).unit.name != (#[trigger] post.units[j]).unit.name by {
                assert(pre.units[i].unit.name != pre.units[j].unit.name);
            }
            if post.controller.handler is Some {
                assert(handles(pre.units, post.controller.handler->0));
            }
        }
        // every tag that was live stays live
        assert forall|other: TagView| live(pre, other) implies #[trigger] live(post, other) by {
            let there = position(pre.units, other.name, 0);
            if there == at && unit.slots.len() > 0 {
                assert(other.slot != tag.slot);
            }
            lemma_yields_kept(pre.units, post.units, other);
        }
        assert forall|r: int| 0 <= r < post.registers.len() implies pending_live(
            post,
            (#[trigger] post.registers[r]).pending,
        ) by {
            if inst.writeback == Some(ArgType::Reg(r as usize)) && r <= usize::MAX {
                lemma_candidate_writes_back(pre, text, e);
                assert(post.registers[r].pending == Some(tag));
                lemma_registry(pre.units, post.units, tag.name);
                assert(yields(post.units, tag));
            } else {
                assert(post.registers[r] == pre.registers[r]);
                assert(pending_live(pre, pre.registers[r].pending));
            }
        }
        assert forall|i: int, k: int, j: int|
            0 <= i < post.units.len() && 0 <= k < post.units[i].unit.slots.len() && 0 <= j
                < operand_count(post.units[i].unit.slots[k]) implies operand_live(
            post,
            #[trigger] operand_at(post.units, i, k, j),
        ) by {
            if i == at && unit.slots.len() > 0 && k == tag.slot {
                let operand = operands[j];
                assert(operand_at(post.units, i, k, j) == operand);
                if operand is Waiting {
                    assert(operand_in_range(inst.arguments[j]));
                    let idx = inst.arguments[j]->Reg_0 as int;
                    assert(pending_live(pre, pre.registers[idx].pending));
                }
            } else {
                assert(operand_at(post.units, i, k, j) == operand_at(pre.units, i, k, j));
                assert(operand_live(pre, operand_at(pre.units, i, k, j)));
            }
        }
        assert forall|r: int| 0 <= r < post.table.len() implies backed(
            post.units,
            #[trigger] post.table[r],
        ) by {
            lemma_backed_kept(pre.units, post.units, pre.table[r]);
        }
    }
}

/// The stepping of the units keeps the processor coherent.
pub proof fn lemma_stepped_coherent(pre: ProcessorView, post: ProcessorView)
    requires
        valid(pre),
        coherent(pre),
        cycle_stepped(pre, post),
    ensures
        valid(post),
        coherent(post),
{
    lemma_stepped_valid(pre, post);
    assert(same_frames(pre.units, post.units)) by {
        assert forall|i: int| 0 <= i < pre.units.len() implies (#[trigger] post.units[i]).unit.formats
            == pre.units[i].unit.formats && post.units[i].unit.slots.len()
            == pre.units[i].unit.slots.len() by {
            assert(unit_stepped(pre.units[i], post.units[i], pre.bus, post.bus));
        }
    }
    assert forall|tag: TagView| live(pre, tag) implies #[trigger] live(post, tag) by {
        if !carries(pre.bus, tag) {
            let at = position(pre.units, tag.name, 0);
            lemma_position(pre.units, tag.name, 0);
            let k = tag.slot as int;
            assert(unit_stepped(pre.units[at], post.units[at], pre.bus, post.bus));
            assert(slot_stepped(pre.units[at].unit, k, post.units[at].unit.slots[k], pre.bus, post.bus));
            if post.units[at].unit.slots[k] is Some {
                lemma_yields_kept(pre.units, post.units, tag);
            } else {
                assert(slot_tag(pre.units[at].unit, k) == tag);
            }
        }
    }
    assert forall|r: int| 0 <= r < post.registers.len() implies pending_live(
        post,
        (#[trigger] post.registers[r]).pending,
    ) by {
        assert(pending_live(pre, pre.registers[r].pending));
    }
    assert forall|i: int, k: int, j: int|
        0 <= i < post.units.len() && 0 <= k < post.units[i].unit.slots.len() && 0 <= j
            < operand_count(post.units[i].unit.slots[k]) implies operand_live(
        post,
        #[trigger] operand_at(post.units, i, k, j),
    ) by {
        assert(unit_stepped(pre.units[i], post.units[i], pre.bus, post.bus));
        assert(slot_stepped(pre.units[i].unit, k, post.units[i].unit.slots[k], pre.bus, post.bus));
        assert(operand_at(post.units, i, k, j) == operand_at(pre.units, i, k, j));
        assert(operand_live(pre, operand_at(pre.units, i, k, j)));
    }
    assert(bus_clear(post)) by {
        if post.bus is Some {
            let tag = tag_on(post.bus);
            lemma_registry(pre.units, post.units, tag.name);
            let at = position(pre.units, tag.name, 0);
            if post.bus == pre.bus {
                if 0 <= at < pre.units.len() && tag.slot < pre.units[at].unit.slots.len() {
                    let k = tag.slot as int;
                    assert(unit_stepped(pre.units[at], post.units[at], pre.bus, post.bus));
                    assert(slot_stepped(
                        pre.units[at].unit,
                        k,
                        post.units[at].unit.slots[k],
                        pre.bus,
                        post.bus,
                    ));
                }
            } else {
                assert(freed(pre.units, post.units, tag));
            }
        }
    }
    assert forall|r: int| 0 <= r < post.table.len() implies backed(
        post.units,
        #[trigger] post.table[r],
    ) by {
        lemma_backed_kept(pre.units, post.units, pre.table[r]);
    }
}

/// A cycle keeps the processor valid and coherent: whatever a register or
/// an operand waits for after the cycle is on the result bus or will be
/// broadcast by the slot that its tag names.
pub proof fn lemma_cycle_coherent(
    pre: ProcessorView,
    text: Seq<char>,
    outcome: Result<(), Error>,
    post: ProcessorView,
)
    requires
        valid(pre),
        coherent(pre),
        cycle(pre, text, outcome, post),
    ensures
        valid(post),
        coherent(post),
{
    if decode_spec(pre.table, text) is Ok {
        let inst = decode_spec(pre.table, text)->Ok_0;
        if !(inst.writeback matches Some(ArgType::Imm(_))) {
            let mid = choose|mid: ProcessorView|
                dispatched(committed(pre), inst, mid) && #[trigger] cycle_stepped(mid, post);
            lemma_commit_coherent(pre);
            lemma_dispatch_coherent(committed(pre), text, mid);
            lemma_stepped_coherent(mid, post);
        }
    }
}

/// The traffic on the external bus does not touch coherence: neither the
/// handing out of a request nor the delivery of a response does.
pub proof fn lemma_bus_traffic_coherent(view: ProcessorView, handler: Seq<char>, response: u8)
    requires
        valid(view),
        coherent(view),
    ensures
        coherent(ProcessorView { controller: popped(view.controller), ..view }),
        handles(view.units, handler) ==> coherent(answered(view, handler, response)),
{
    let handed = ProcessorView { controller: popped(view.controller), ..view };
    lemma_controller_coherent(view, handed);
    if handles(view.units, handler) {
        let after = answered(view, handler, response);
        lemma_position(view.units, handler, 0);
        let at = position(view.units, handler, 0);
        crate::processor::lemma_answered_keeps(view.units[at], response);
        assert forall|i: int, k: int|
            0 <= i < view.units.len() && 0 <= k < view.units[i].unit.slots.len()
                implies same_instruction(
            view.units[i].unit.slots[k],
            #[trigger] after.units[i].unit.slots[k],
        ) by {
            if i != at {
                assert(after.units[i] == view.units[i]);
            }
        }
        assert(same_frames(view.units, after.units));
        assert forall|tag: TagView| live(view, tag) implies #[trigger] live(after, tag) by {
            if !carries(view.bus, tag) {
                lemma_yields_kept(view.units, after.units, tag);
            }
        }
        assert forall|r: int| 0 <= r < after.registers.len() implies pending_live(
            after,
            (#[trigger] after.registers[r]).pending,
        ) by {
            assert(pending_live(view, view.registers[r].pending));
        }
        assert forall|i: int, k: int, j: int|
            0 <= i < after.units.len() && 0 <= k < after.units[i].unit.slots.len() && 0 <= j
                < operand_count(after.units[i].unit.slots[k]) implies operand_live(
            after,
            #[trigger] operand_at(after.units, i, k, j),
        ) by {
            assert(operand_at(after.units, i, k, j) == operand_at(view.units, i, k, j));
            assert(operand_live(view, operand_at(view.units, i, k, j)));
        }
        assert(bus_clear(after)) by {
            if view.bus is Some {
                lemma_registry(view.units, after.units, tag_on(view.bus).name);
            }
        }
        assert forall|r: int| 0 <= r < after.table.len() implies backed(
            after.units,
            #[trigger] after.table[r],
        ) by {
            lemma_backed_kept(view.units, after.units, view.table[r]);
        }
    }
}

/// Coherence does not depend on the bus controller.
pub proof fn lemma_controller_coherent(view: ProcessorView, other: ProcessorView)
    requires
        coherent(view),
        other == (ProcessorView { controller: other.controller, ..view }),
    ensures
        coherent(other),
{
    assert forall|tag: TagView| live(view, tag) implies #[trigger] live(other, tag) by {}
    assert forall|r: int| 0 <= r < other.registers.len() implies pending_live(
        other,
        (#[trigger] other.registers[r]).pending,
    ) by {
        assert(pending_live(view, view.registers[r].pending));
    }
    assert forall|i: int, k: int, j: int|
        0 <= i < other.units.len() && 0 <= k < other.units[i].unit.slots.len() && 0 <= j
            < operand_count(other.units[i].unit.slots[k]) implies operand_live(
        other,
        #[trigger] operand_at(other.units, i, k, j),
    ) by {
        assert(operand_live(view, operand_at(view.units, i, k, j)));
    }
}

/// The registration of a unit in which no instruction waits for an operand
/// keeps the processor coherent.
pub proof fn lemma_registration_coherent(view: ProcessorView, unit: PathView)
    requires
        valid(view),
        coherent(view),
        registration_refusal(view, unit.unit) is None,
        quiet(unit.unit),
    ensures
        coherent(with_unit(view, unit)),
{
    let after = with_unit(view, unit);
    let count = view.units.len() as int;
    lemma_position(view.units, unit.unit.name, 0);
    assert forall|name: Seq<char>| registered(view.units, name) implies position(
        after.units,
        name,
        0,
    ) == position(view.units, name, 0) by {
        lemma_position_from(view.units, unit, name, 0);
    }
    assert forall|tag: TagView| live(view, tag) implies #[trigger] live(after, tag) by {
        if !carries(view.bus, tag) {
            let at = position(view.units, tag.name, 0);
            assert(registered(view.units, tag.name));
            assert(after.units[at] == view.units[at]);
        }
    }
    assert forall|r: int| 0 <= r < after.registers.len() implies pending_live(
        after,
        (#[trigger] after.registers[r]).pending,
    ) by {
        assert(pending_live(view, view.registers[r].pending));
    }
    assert forall|i: int, k: int, j: int|
        0 <= i < after.units.len() && 0 <= k < after.units[i].unit.slots.len() && 0 <= j
            < operand_count(after.units[i].unit.slots[k]) implies operand_live(
        after,
        #[trigger] operand_at(after.units, i, k, j),
    ) by {
        if i < count {
            assert(after.units[i] == view.units[i]);
            assert(operand_live(view, operand_at(view.units, i, k, j)));
        } else {
            assert(after.units[i] == unit);
            assert(unit.unit.slots[k] is Some);
            assert(unit.unit.slots[k]->0.operands[j] is Ready);
        }
    }
    assert(bus_clear(after)) by {
        if view.bus is Some {
            let tag = tag_on(view.bus);
            let at = position(view.units, tag.name, 0);
            lemma_position(view.units, tag.name, 0);
            assert(after.units[at] == view.units[at]);
        }
    }
    lemma_position_new(view.units, unit, 0);
    assert forall|r: int| 0 <= r < after.table.len() implies backed(
        after.units,
        #[trigger] after.table[r],
    ) by {
        if r < view.table.len() {
            assert(after.table[r] == view.table[r]);
            assert(backed(view.units, view.table[r]));
            let at = position(view.units, view.table[r].owner, 0);
            assert(registered(view.units, view.table[r].owner));
            assert(after.units[at] == view.units[at]);
            let f = choose|f: int|
                0 <= f < view.units[at].unit.formats.len() && (
                #[trigger] view.units[at].unit.formats[f]) == view.table[r].format;
            assert(after.units[at].unit.formats[f] == after.table[r].format);
        } else {
            let f = r - view.table.len();
            assert(after.table[r] == registrations(unit.unit.formats, unit.unit.name)[f]);
            assert(after.units[count] == unit);
            assert(after.units[count].unit.formats[f] == after.table[r].format);
        }
    }
}

/// A name that no unit has is found at the unit that is added under it.
pub proof fn lemma_position_new(units: Seq<PathView>, added: PathView, from: int)
    requires
        0 <= from <= units.len(),
        position(units, added.unit.name, from) == units.len(),
    ensures
        position(units.push(added), added.unit.name, from) == units.len(),
    decreases units.len() - from,
{
    lemma_position(units, added.unit.name, from);
    if from < units.len() {
        assert(units.push(added)[from] == units[from]);
        lemma_position_new(units, added, from + 1);
    } else {
        assert(units.push(added)[from] == added);
    }
}

} // verus!
