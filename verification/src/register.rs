//! The register file with its renaming state.

use crate::execution_path::{ArgVal, ArgView, RStag, TagView};
use vstd::prelude::*;

verus! {

/// The number of architectural registers.
pub const REGISTER_COUNT: usize = 32;

/// One register as the contracts see it: the stored value and, while the
/// register is renamed, the tag of the slot that will write it.
pub struct RegisterView {
    pub value: u32,
    pub pending: Option<TagView>,
}

struct Register {
    value: u32,
    pending: Option<RStag>,
}

impl View for Register {
    type V = RegisterView;

    closed spec fn view(&self) -> RegisterView {
        RegisterView {
            value: self.value,
            pending: match self.pending {
                Some(tag) => Some(tag@),
                None => None,
            },
        }
    }
}

/// What a reader of register `idx` sees: the value, or the tag to wait for.
pub open spec fn read_spec(registers: Seq<RegisterView>, idx: int) -> ArgView {
    match registers[idx].pending {
        Some(tag) => ArgView::Waiting(tag),
        None => ArgView::Ready(registers[idx].value),
    }
}

/// Register `idx` renamed to `tag`: the value stays, the tag is replaced.
pub open spec fn rename_spec(registers: Seq<RegisterView>, idx: int, tag: TagView) -> Seq<
    RegisterView,
> {
    registers.update(idx, RegisterView { value: registers[idx].value, pending: Some(tag) })
}

/// One register after the broadcast of `(tag, value)`: it takes the value
/// only if it is waiting for exactly that tag.
pub open spec fn write_one(register: RegisterView, tag: TagView, value: u32) -> RegisterView {
    if register.pending == Some(tag) {
        RegisterView { value, pending: None }
    } else {
        register
    }
}

/// The registers after the broadcast of `(tag, value)`.
pub open spec fn write_spec(registers: Seq<RegisterView>, tag: TagView, value: u32) -> Seq<
    RegisterView,
> {
    Seq::new(registers.len(), |i: int| write_one(registers[i], tag, value))
}

/// The architectural registers. Each holds a value and, while an instruction
/// that will write it is in flight, the tag of that instruction's slot.
pub struct RegisterFile {
    registers: Vec<Register>,
}

impl View for RegisterFile {
    type V = Seq<RegisterView>;

    closed spec fn view(&self) -> Seq<RegisterView> {
        views(self.registers@)
    }
}

use crate::execution_path::views;

impl RegisterFile {
    /// The file holds exactly [`REGISTER_COUNT`] registers.
    pub open spec fn wf(&self) -> bool {
        self@.len() == REGISTER_COUNT
    }

    /// All registers hold zero and none is renamed.
    pub fn new() -> (file: RegisterFile)
        ensures
            file.wf(),
            forall|i: int|
                0 <= i < REGISTER_COUNT ==> file@[i] == (RegisterView { value: 0, pending: None }),
    {
        let mut registers: Vec<Register> = Vec::new();
        let mut i: usize = 0;
        while i < REGISTER_COUNT
            invariant
                i <= REGISTER_COUNT,
                registers.len() == i,
                forall|j: int|
                    0 <= j < i ==> registers[j]@ == (RegisterView { value: 0, pending: None }),
            decreases REGISTER_COUNT - i,
        {
            registers.push(Register { value: 0, pending: None });
            i = i + 1;
        }
        RegisterFile { registers }
    }

    /// The state of register `idx` as an operand.
    pub fn read(&self, idx: usize) -> (operand: ArgVal)
        requires
            self.wf(),
            idx < REGISTER_COUNT,
        ensures
            operand@ == read_spec(self@, idx as int),
    {
        let register = &self.registers[idx];
        match &register.pending {
            Some(tag) => ArgVal::Waiting(tag.clone()),
            None => ArgVal::Ready(register.value),
        }
    }

    /// The value stored in register `idx`, whether or not it is renamed.
    pub fn value(&self, idx: usize) -> (value: u32)
        requires
            self.wf(),
            idx < REGISTER_COUNT,
        ensures
            value == self@[idx as int].value,
    {
        self.registers[idx].value
    }

    /// Whether register `idx` is renamed.
    pub fn is_renamed(&self, idx: usize) -> (renamed: bool)
        requires
            self.wf(),
            idx < REGISTER_COUNT,
        ensures
            renamed == (self@[idx as int].pending is Some),
    {
        self.registers[idx].pending.is_some()
    }

    /// Makes `tag` the awaited writer of register `idx`. A tag set earlier is
    /// replaced: the later issue wins.
    pub fn rename(&mut self, idx: usize, tag: RStag)
        requires
            old(self).wf(),
            idx < REGISTER_COUNT,
        ensures
            final(self).wf(),
            final(self)@ == rename_spec(old(self)@, idx as int, tag@),
    {
        let value = self.registers[idx].value;
        self.registers.set(idx, Register { value, pending: Some(tag) });
        assert(self@ =~= rename_spec(old(self)@, idx as int, tag@));
    }

    /// Commits the broadcast `(tag, value)`: every register that waits for
    /// `tag` takes `value` and is no longer renamed. A register that has
    /// been renamed to another tag since is left as it is.
    pub fn write(&mut self, tag: &RStag, value: u32)
        requires
            old(self).wf(),
        ensures
            final(self).wf(),
            final(self)@ == write_spec(old(self)@, tag@, value),
    {
        let mut i: usize = 0;
        while i < self.registers.len()
            invariant
                i <= self.registers.len(),
                self.registers.len() == old(self).registers.len(),
                forall|j: int|
                    0 <= j < i ==> self.registers[j]@ == write_one(
                        old(self).registers[j]@,
                        tag@,
                        value,
                    ),
                forall|j: int|
                    i <= j < self.registers.len() ==> self.registers[j] == old(self).registers[j],
            decreases self.registers.len() - i,
        {
            let matches = match &self.registers[i].pending {
                Some(pending) => pending.same(tag),
                None => false,
            };
            if matches {
                self.registers.set(i, Register { value, pending: None });
            }
            i = i + 1;
        }
        assert(self@ =~= write_spec(old(self)@, tag@, value));
    }
}

/// A register that has just been renamed reads as waiting for the new tag.
pub proof fn lemma_rename_then_read(registers: Seq<RegisterView>, idx: int, tag: TagView)
    requires
        0 <= idx < registers.len(),
    ensures
        read_spec(rename_spec(registers, idx, tag), idx) == ArgView::Waiting(tag),
        rename_spec(registers, idx, tag)[idx].value == registers[idx].value,
{
}

/// While a register waits for `tag`, the broadcast of any other tag leaves
/// it waiting for `tag`; the broadcast of `tag` itself makes it read as the
/// broadcast value.
pub proof fn lemma_waiting_until_commit(
    registers: Seq<RegisterView>,
    idx: int,
    tag: TagView,
    other: TagView,
    value: u32,
)
    requires
        0 <= idx < registers.len(),
        read_spec(registers, idx) == ArgView::Waiting(tag),
    ensures
        other != tag ==> read_spec(write_spec(registers, other, value), idx) == ArgView::Waiting(
            tag,
        ),
        read_spec(write_spec(registers, tag, value), idx) == ArgView::Ready(value),
{
}

/// A register that was renamed to `first` and then to `second` ignores the
/// late broadcast of `first`: neither its value nor its pending tag changes.
pub proof fn lemma_stale_write_ignored(
    registers: Seq<RegisterView>,
    idx: int,
    first: TagView,
    second: TagView,
    value: u32,
)
    requires
        0 <= idx < registers.len(),
        first != second,
    ensures
        ({
            let renamed = rename_spec(rename_spec(registers, idx, first), idx, second);
            write_spec(renamed, first, value)[idx] == renamed[idx]
        }),
{
}

} // verus!
