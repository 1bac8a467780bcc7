//! A reservation station: the slots of a unit and what every unit does with
//! them, whatever it computes.

use crate::execution_path::{
    advanced, advanced_slot, all_ready, broadcasting, bus_after, completes, first_set,
    forward_slot, forward_slots, free, has_free_slot, in_phase, lemma_first_set,
    lemma_first_set_is, occupied, progressed, resolve_operand, retires, views, winner,
    writes_back, ArgVal, ArgView, ExecResult, Phase, RStag, SlotView, UnitView,
};
use crate::result_bus::ResultBus;
use vstd::prelude::*;

verus! {

/// An instruction in a slot: its mnemonic, the states of its operands, the
/// cycles that are left once the operands are ready, and the phase of its
/// transaction on the external bus.
pub struct Entry {
    pub mnemonic: String,
    pub operands: Vec<ArgVal>,
    pub remaining: u8,
    pub phase: Phase,
}

impl Entry {
    /// The instruction as the contracts see it.
    pub open spec fn slot(&self) -> SlotView {
        SlotView {
            mnemonic: self.mnemonic@,
            operands: views(self.operands@),
            remaining: self.remaining as nat,
            phase: self.phase,
        }
    }
}

/// The slot as the contracts see it.
pub open spec fn slot_of(entry: Option<Entry>) -> Option<SlotView> {
    match entry {
        Some(held) => Some(held.slot()),
        None => None,
    }
}

/// The named slots of one unit.
pub struct Station {
    pub name: String,
    pub entries: Vec<Option<Entry>>,
}

/// What the unit has found out about the instruction of a slot before the
/// cycle: whether it has a destination, whether it needs a transaction on
/// the external bus, and its result.
#[derive(Clone, Copy, Debug)]
pub struct Verdict {
    pub yields: bool,
    pub needs_answer: bool,
    pub result: ExecResult,
}

/// Whether `plan` holds, for every occupied slot, what the unit's model
/// says of its instruction.
pub open spec fn planned(unit: UnitView, plan: Seq<Verdict>) -> bool {
    &&& plan.len() == unit.slots.len()
    &&& forall|k: int|
        0 <= k < unit.slots.len() ==> ((#[trigger] unit.slots[k]) matches Some(held) ==> {
            &&& plan[k].yields == writes_back(unit.formats, held.mnemonic)
            &&& plan[k].needs_answer == ((unit.conduct.transaction)(held) is Some)
            &&& plan[k].result == (unit.conduct.result)(held)
        })
}

/// Sets every operand that waits for `tag` to `value`.
pub fn resolve_operands(operands: &mut Vec<ArgVal>, tag: &RStag, value: u32)
    ensures
        views(final(operands)@) == Seq::new(
            old(operands)@.len(),
            |j: int| resolve_operand(views(old(operands)@)[j], tag@, value),
        ),
{
    let mut j: usize = 0;
    while j < operands.len()
        invariant
            j <= operands.len(),
            operands.len() == old(operands).len(),
            forall|i: int|
                0 <= i < j ==> (#[trigger] operands[i])@ == resolve_operand(
                    old(operands)[i]@,
                    tag@,
                    value,
                ),
            forall|i: int| j <= i < operands.len() ==> (#[trigger] operands[i])@ == old(operands)[i]@,
        decreases operands.len() - j,
    {
        let waits = match &operands[j] {
            ArgVal::Waiting(awaited) => awaited.same(tag),
            ArgVal::Ready(_) => false,
        };
        if waits {
            operands.set(j, ArgVal::Ready(value));
        }
        j = j + 1;
    }
    assert(views(operands@) =~= Seq::new(
        old(operands)@.len(),
        |j: int| resolve_operand(views(old(operands)@)[j], tag@, value),
    ));
}

/// Whether every operand has its value.
pub fn operands_ready(operands: &Vec<ArgVal>) -> (ready: bool)
    ensures
        ready == all_ready(views(operands@)),
{
    let mut j: usize = 0;
    while j < operands.len()
        invariant
            j <= operands.len(),
            forall|i: int| 0 <= i < j ==> (#[trigger] views(operands@)[i]) is Ready,
        decreases operands.len() - j,
    {
        match &operands[j] {
            ArgVal::Waiting(_) => {
                assert(views(operands@)[j as int] is Waiting);
                return false;
            },
            ArgVal::Ready(_) => {},
        }
        j = j + 1;
    }
    true
}

impl Station {
    /// The slots as the contracts see them.
    pub open spec fn slots(&self) -> Seq<Option<SlotView>> {
        Seq::new(self.entries.len() as nat, |k: int| slot_of(self.entries[k]))
    }

    /// A station called `name` with `count` free slots.
    pub fn new(name: &str, count: usize) -> (station: Station)
        ensures
            station.name@ == name@,
            station.entries.len() == count,
            forall|k: int| 0 <= k < count ==> (#[trigger] station.entries[k]) is None,
    {
        let mut entries: Vec<Option<Entry>> = Vec::new();
        let mut k: usize = 0;
        while k < count
            invariant
                k <= count,
                entries.len() == k,
                forall|i: int| 0 <= i < k ==> (#[trigger] entries[i]) is None,
            decreases count - k,
        {
            entries.push(None);
            k = k + 1;
        }
        Station { name: name.to_owned(), entries }
    }

    /// The number of occupied slots.
    pub fn pending(&self) -> (count: usize)
        ensures
            count == occupied(self.slots()),
    {
        let ghost slots = self.slots();
        let mut count: usize = 0;
        let mut k: usize = 0;
        assert(slots.take(0) =~= Seq::empty());
        while k < self.entries.len()
            invariant
                slots == self.slots(),
                k <= self.entries.len(),
                count <= k,
                count == occupied(slots.take(k as int)),
            decreases self.entries.len() - k,
        {
            assert(slots.take(k + 1).drop_last() =~= slots.take(k as int));
            assert(slots.take(k + 1).last() == slots[k as int]);
            if self.entries[k].is_some() {
                count = count + 1;
            }
            k = k + 1;
        }
        assert(slots.take(k as int) =~= slots);
        count
    }

    /// The free slot of the lowest index.
    pub fn free_slot(&self) -> (found: Option<usize>)
        ensures
            match found {
                Some(k) => {
                    &&& k < self.entries.len()
                    &&& self.entries[k as int] is None
                    &&& k == first_set(free(self.slots()), 0)
                },
                None => !has_free_slot(self.slots()),
            },
    {
        let ghost flags = free(self.slots());
        let mut k: usize = 0;
        while k < self.entries.len()
            invariant
                k <= self.entries.len(),
                flags == free(self.slots()),
                forall|i: int| 0 <= i < k ==> !(#[trigger] flags[i]),
            decreases self.entries.len() - k,
        {
            if self.entries[k].is_none() {
                proof {
                    assert(flags[k as int]);
                    lemma_first_set_is(flags, 0, k as int);
                }
                return Some(k);
            }
            assert(self.slots()[k as int] is Some);
            k = k + 1;
        }
        assert forall|i: int| 0 <= i < self.slots().len() implies (#[trigger] self.slots()[i])
            is Some by {
            assert(!flags[i]);
        }
        None
    }

    /// Puts the instruction into slot `k`, with `remaining` cycles ahead of
    /// it and no request made for it.
    pub fn occupy(&mut self, k: usize, mnemonic: &str, operands: &[ArgVal], remaining: u8)
        requires
            k < old(self).entries.len(),
        ensures
            final(self).name == old(self).name,
            final(self).entries.len() == old(self).entries.len(),
            final(self).slots() == old(self).slots().update(
                k as int,
                Some(
                    SlotView {
                        mnemonic: mnemonic@,
                        operands: views(operands@),
                        remaining: remaining as nat,
                        phase: Phase::Idle,
                    },
                ),
            ),
    {
        let entry = Entry {
            mnemonic: mnemonic.to_owned(),
            operands: crate::execution_path::copy_operands(operands),
            remaining,
            phase: Phase::Idle,
        };
        self.entries.set(k, Some(entry));
        assert(self.slots() =~= old(self).slots().update(
            k as int,
            Some(
                SlotView {
                    mnemonic: mnemonic@,
                    operands: views(operands@),
                    remaining: remaining as nat,
                    phase: Phase::Idle,
                },
            ),
        ));
    }

    /// Frees slot `k`.
    pub fn release(&mut self, k: usize)
        requires
            k < old(self).entries.len(),
        ensures
            final(self).name == old(self).name,
            final(self).entries@ == old(self).entries@.update(k as int, None),
            final(self).slots() == old(self).slots().update(k as int, None),
    {
        self.entries.set(k, None);
        assert(self.slots() =~= old(self).slots().update(k as int, None));
    }

    /// Resolves every operand that waits for `tag` to `value`.
    pub fn forward(&mut self, tag: &RStag, value: u32)
        ensures
            final(self).name == old(self).name,
            final(self).entries.len() == old(self).entries.len(),
            final(self).slots() == forward_slots(old(self).slots(), tag@, value),
    {
        let mut k: usize = 0;
        while k < self.entries.len()
            invariant
                k <= self.entries.len(),
                self.name == old(self).name,
                self.entries.len() == old(self).entries.len(),
                forall|i: int|
                    0 <= i < k ==> slot_of(#[trigger] self.entries[i]) == forward_slot(
                        slot_of(old(self).entries[i]),
                        tag@,
                        value,
                    ),
                forall|i: int|
                    k <= i < self.entries.len() ==> (#[trigger] self.entries[i]) == old(
                        self,
                    ).entries[i],
            decreases self.entries.len() - k,
        {
            if let Some(entry) = &mut self.entries[k] {
                resolve_operands(&mut entry.operands, tag, value);
            }
            k = k + 1;
        }
        assert(self.slots() =~= forward_slots(old(self).slots(), tag@, value));
    }

    /// Whether slot `k` holds an instruction whose operands all have their
    /// values.
    pub fn ready(&self, k: usize) -> (ready: bool)
        requires
            k < self.entries.len(),
        ensures
            ready == (self.slots()[k as int] matches Some(held) && all_ready(held.operands)),
    {
        match &self.entries[k] {
            Some(entry) => operands_ready(&entry.operands),
            None => false,
        }
    }

    /// The value of operand `j` of the instruction in slot `k`; zero if the
    /// slot is free, has no such operand, or the operand is not ready.
    pub fn operand(&self, k: usize, j: usize) -> (value: u32)
        requires
            k < self.entries.len(),
        ensures
            value == operand_value(self.slots()[k as int], j as int),
    {
        match &self.entries[k] {
            Some(entry) => if j < entry.operands.len() {
                match &entry.operands[j] {
                    ArgVal::Ready(value) => *value,
                    ArgVal::Waiting(_) => 0,
                }
            } else {
                0
            },
            None => 0,
        }
    }

    /// The phase of the instruction in slot `k`, if the slot holds one.
    pub fn phase(&self, k: usize) -> (phase: Option<Phase>)
        requires
            k < self.entries.len(),
        ensures
            phase == match self.slots()[k as int] {
                Some(held) => Some(held.phase),
                None => None,
            },
    {
        match &self.entries[k] {
            Some(entry) => Some(entry.phase),
            None => None,
        }
    }

    /// Puts the instruction in slot `k` into another phase; a free slot
    /// stays free.
    pub fn set_phase(&mut self, k: usize, phase: Phase)
        requires
            k < old(self).entries.len(),
        ensures
            final(self).name == old(self).name,
            final(self).entries.len() == old(self).entries.len(),
            final(self).slots() == old(self).slots().update(
                k as int,
                in_phase(old(self).slots()[k as int], phase),
            ),
    {
        if let Some(entry) = &mut self.entries[k] {
            entry.phase = phase;
        }
        assert(self.slots() =~= old(self).slots().update(
            k as int,
            in_phase(old(self).slots()[k as int], phase),
        ));
    }

    /// Advances every slot by one cycle, as [`advanced`] and [`bus_after`]
    /// say of the unit with these slots.
    pub fn advance(&mut self, bus: &mut ResultBus, plan: &Vec<Verdict>, unit: Ghost<UnitView>)
        requires
            unit@.slots == old(self).slots(),
            unit@.name == old(self).name@,
            planned(unit@, plan@),
        ensures
            final(self).name == old(self).name,
            final(self).entries.len() == old(self).entries.len(),
            final(self).slots() == advanced(unit@, old(bus)@).slots,
            final(bus)@ == bus_after(unit@, old(bus)@),
    {
        let ghost model = unit@;
        let ghost flags = broadcasting(model);
        let ghost won = winner(model, bus@);
        proof {
            lemma_first_set(flags, 0);
        }
        let mut k: usize = 0;
        while k < self.entries.len()
            invariant
                k <= self.entries.len(),
                self.entries.len() == model.slots.len(),
                self.name == old(self).name,
                model == unit@,
                model.slots == old(self).slots(),
                model.name == old(self).name@,
                planned(model, plan@),
                flags == broadcasting(model),
                won == winner(model, old(bus)@),
                0 <= won <= model.slots.len(),
                forall|i: int|
                    0 <= i < k ==> slot_of(#[trigger] self.entries[i]) == advanced_slot(
                        model,
                        old(bus)@,
                        i,
                    ),
                forall|i: int|
                    k <= i < self.entries.len() ==> (#[trigger] self.entries[i]) == old(
                        self,
                    ).entries[i],
                k <= won ==> bus@ == old(bus)@ && (old(bus)@ is None ==> first_set(flags, k as int)
                    == won),
                k > won ==> bus@ == bus_after(model, old(bus)@),
            decreases self.entries.len() - k,
        {
            let ghost before = self.entries@;
            proof {
                lemma_first_set(flags, k + 1);
                assert(old(self).slots()[k as int] == slot_of(old(self).entries[k as int]));
                assert(model.slots[k as int] == slot_of(self.entries[k as int]));
            }
            let verdict = plan[k];
            let mut complete = false;
            if let Some(entry) = &mut self.entries[k] {
                let ready = operands_ready(&entry.operands);
                if ready && entry.remaining > 0 {
                    entry.remaining = entry.remaining - 1;
                }
                let answered = match entry.phase {
                    Phase::Answered(_) => true,
                    _ => false,
                };
                complete = ready && entry.remaining == 0 && (!verdict.needs_answer || answered);
            }
            assert(self.entries.len() == before.len());
            assert(forall|i: int|
                0 <= i < before.len() && i != k ==> self.entries[i] == before[i]);
            assert(slot_of(self.entries[k as int]) == match model.slots[k as int] {
                Some(held) => Some(progressed(held)),
                None => None,
            });
            assert(complete == completes(model, model.slots[k as int]));
            if complete {
                if !verdict.yields {
                    self.release(k);
                    assert(retires(model, old(bus)@, k as int));
                } else if bus.is_free() {
                    let tag = RStag::new(self.name.as_str(), k);
                    bus.put(tag, verdict.result);
                    self.release(k);
                    assert(flags[k as int]);
                    assert(k == won);
                } else {
                    assert(flags[k as int]);
                    assert(k != won);
                }
            } else {
                assert(!flags[k as int]);
                assert(k != won);
            }
            k = k + 1;
        }
        assert(self.slots() =~= advanced(model, old(bus)@).slots);
    }
}

/// The value of operand `j` of `slot`; zero if the slot is free, has no such
/// operand, or the operand is not ready.
pub open spec fn operand_value(slot: Option<SlotView>, j: int) -> u32 {
    match slot {
        Some(held) => if 0 <= j < held.operands.len() {
            match held.operands[j] {
                ArgView::Ready(value) => value,
                ArgView::Waiting(_) => 0,
            }
        } else {
            0
        },
        None => 0,
    }
}

} // verus!
