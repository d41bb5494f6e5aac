//! The interpreter's register files and its protocol-ordinal accounting.
//!
//! Static validation already proved bounds, operand shapes, and
//! def-before-use, so the register accesses here re-check only as a
//! defensive invariant: a read of a register nothing wrote is refused
//! with the same diagnostic validation gives.

use crate::vm::error::{Bank, ValidationError};
use crate::vm::isa::{ClearRange, ClientId, Instruction, InstructionView, SecretRange};
use vstd::prelude::*;

verus! {

/// The terminal result: shares destined for one client.
#[derive(Clone, Debug)]
pub struct Output<S> {
    /// The receiving client.
    pub client: ClientId,
    /// The result shares, one per output element.
    pub shares: Vec<S>,
}

/// The first empty slot of `base..base + len`.
pub open spec fn first_empty<T>(slots: Seq<Option<T>>, base: int, len: int) -> Option<int>
    decreases len,
{
    if len <= 0 {
        None
    } else if slots[base] is None {
        Some(base)
    } else {
        first_empty(slots, base + 1, len - 1)
    }
}

/// One bank of registers, each empty until first written.
pub struct RegisterFile<T> {
    bank: Bank,
    slots: Vec<Option<T>>,
}

impl<T: Clone> RegisterFile<T> {
    /// The bank this file holds.
    pub closed spec fn bank_of(&self) -> Bank {
        self.bank
    }

    /// The registers' contents.
    pub closed spec fn slots_of(&self) -> Seq<Option<T>> {
        self.slots@
    }

    /// `top` empty registers of `bank`.
    pub fn new(bank: Bank, top: u32) -> (file: Self)
        ensures
            file.bank_of() == bank,
            file.slots_of() == Seq::new(top as nat, |r: int| None::<T>),
    {
        let mut slots: Vec<Option<T>> = Vec::new();
        let mut i: u32 = 0;
        while i < top
            invariant
                i <= top,
                slots@ == Seq::new(i as nat, |r: int| None::<T>),
            decreases top - i,
        {
            slots.push(None);
            i = i + 1;
            assert(slots@ =~= Seq::new(i as nat, |r: int| None::<T>));
        }
        RegisterFile { bank, slots }
    }

    /// Read `base..base + len`: a copy of each register, or the first one
    /// nothing wrote, reported for instruction `index`.
    pub fn read(&self, index: usize, base: u32, len: u32) -> (values: Result<Vec<T>, ValidationError>)
        requires
            base + len <= self.slots_of().len(),
        ensures
            match first_empty(self.slots_of(), base as int, len as int) {
                Some(register) => values == Err::<Vec<T>, ValidationError>(
                    ValidationError::UninitializedRead {
                        index,
                        bank: self.bank_of(),
                        register: register as u64,
                    },
                ),
                None => values matches Ok(v) && v@.len() == len && forall|k: int|
                    0 <= k < len ==> cloned(
                        #[trigger] self.slots_of()[base + k]->Some_0,
                        v@[k],
                    ),
            },
    {
        let mut values: Vec<T> = Vec::new();
        let total = self.slots.len();
        let end: usize = base as usize + len as usize;
        let mut register: usize = base as usize;
        while register < end
            invariant
                base <= register <= end,
                end == base + len,
                end <= self.slots@.len(),
                values@.len() == register - base,
                forall|k: int|
                    0 <= k < register - base ==> cloned(
                        #[trigger] self.slots@[base + k]->Some_0,
                        values@[k],
                    ),
                first_empty(self.slots@, base as int, len as int) == first_empty(
                    self.slots@,
                    register as int,
                    end - register,
                ),
            decreases end - register,
        {
            match &self.slots[register] {
                Some(value) => {
                    assert(*value == self.slots@[register as int]->Some_0);
                    let copy = value.clone();
                    assert(cloned(self.slots@[register as int]->Some_0, copy));
                    let ghost before = values@;
                    values.push(copy);
                    assert forall|k: int| 0 <= k < register + 1 - base implies cloned(
                        #[trigger] self.slots@[base + k]->Some_0,
                        values@[k],
                    ) by {
                        if k < register - base {
                            assert(values@[k] == before[k]);
                        }
                    }
                },
                None => {
                    return Err(
                        ValidationError::UninitializedRead {
                            index,
                            bank: self.bank,
                            register: register as u64,
                        },
                    );
                },
            }
            register = register + 1;
        }
        Ok(values)
    }

    /// Write `values` into `base..base + values.len()`.
    pub fn write(&mut self, base: u32, values: Vec<T>)
        requires
            base + values@.len() <= old(self).slots_of().len(),
        ensures
            final(self).bank_of() == old(self).bank_of(),
            final(self).slots_of() == Seq::new(
                old(self).slots_of().len(),
                |r: int|
                    if base <= r < base + values@.len() {
                        Some(values@[r - base])
                    } else {
                        old(self).slots_of()[r]
                    },
            ),
    {
        let ghost written = values@;
        let ghost before = self.slots@;
        let mut values = values;
        let total = self.slots.len();
        let mut k: usize = values.len();
        while k > 0
            invariant
                k <= written.len(),
                base + written.len() <= before.len(),
                self.slots@.len() == before.len(),
                total == before.len(),
                values@ == written.take(k as int),
                self.bank == old(self).bank,
                self.slots@ == Seq::new(
                    before.len(),
                    |r: int|
                        if base + k <= r < base + written.len() {
                            Some(written[r - base])
                        } else {
                            before[r]
                        },
                ),
            decreases k,
        {
            let value = match values.pop() {
                Some(value) => value,
                None => {
                    assert(false);
                    return;
                },
            };
            k = k - 1;
            self.slots.set(base as usize + k, Some(value));
            assert(values@ =~= written.take(k as int));
            assert(self.slots@ =~= Seq::new(
                before.len(),
                |r: int|
                    if base + k <= r < base + written.len() {
                        Some(written[r - base])
                    } else {
                        before[r]
                    },
            ));
        }
        assert(self.slots@ =~= Seq::new(
            before.len(),
            |r: int|
                if base <= r < base + written.len() {
                    Some(written[r - base])
                } else {
                    before[r]
                },
        ));
    }
}

/// The two register files of one execution.
pub struct Registers<F, S> {
    /// Public registers.
    pub clear: RegisterFile<F>,
    /// Share-holding registers.
    pub secret: RegisterFile<S>,
}

impl<F: Clone, S: Clone> Registers<F, S> {
    /// Empty files sized to a program's bank extents.
    pub fn new(clear_top: u32, secret_top: u32) -> (registers: Self)
        ensures
            registers.clear.bank_of() == Bank::Clear,
            registers.secret.bank_of() == Bank::Secret,
            registers.clear.slots_of() == Seq::new(clear_top as nat, |r: int| None::<F>),
            registers.secret.slots_of() == Seq::new(secret_top as nat, |r: int| None::<S>),
    {
        Registers {
            clear: RegisterFile::new(Bank::Clear, clear_top),
            secret: RegisterFile::new(Bank::Secret, secret_top),
        }
    }

    /// Read a clear run for instruction `index`.
    pub fn read_clear(&self, index: usize, range: &ClearRange) -> (values: Result<Vec<F>, ValidationError>)
        requires
            range.base + range.len <= self.clear.slots_of().len(),
        ensures
            match first_empty(self.clear.slots_of(), range.base as int, range.len as int) {
                Some(register) => values == Err::<Vec<F>, ValidationError>(
                    ValidationError::UninitializedRead {
                        index,
                        bank: self.clear.bank_of(),
                        register: register as u64,
                    },
                ),
                None => values matches Ok(v) && v@.len() == range.len && forall|k: int|
                    0 <= k < range.len ==> cloned(
                        #[trigger] self.clear.slots_of()[range.base + k]->Some_0,
                        v@[k],
                    ),
            },
    {
        self.clear.read(index, range.base, range.len)
    }

    /// Read a secret run for instruction `index`.
    pub fn read_secret(&self, index: usize, range: &SecretRange) -> (shares: Result<Vec<S>, ValidationError>)
        requires
            range.base + range.len <= self.secret.slots_of().len(),
        ensures
            match first_empty(self.secret.slots_of(), range.base as int, range.len as int) {
                Some(register) => shares == Err::<Vec<S>, ValidationError>(
                    ValidationError::UninitializedRead {
                        index,
                        bank: self.secret.bank_of(),
                        register: register as u64,
                    },
                ),
                None => shares matches Ok(v) && v@.len() == range.len && forall|k: int|
                    0 <= k < range.len ==> cloned(
                        #[trigger] self.secret.slots_of()[range.base + k]->Some_0,
                        v@[k],
                    ),
            },
    {
        self.secret.read(index, range.base, range.len)
    }

    /// Write values into a clear run (as many as were given).
    pub fn write_clear(&mut self, range: &ClearRange, values: Vec<F>)
        requires
            range.base + values@.len() <= old(self).clear.slots_of().len(),
        ensures
            final(self).secret == old(self).secret,
            final(self).clear.bank_of() == old(self).clear.bank_of(),
            final(self).clear.slots_of() == Seq::new(
                old(self).clear.slots_of().len(),
                |r: int|
                    if range.base <= r < range.base + values@.len() {
                        Some(values@[r - range.base])
                    } else {
                        old(self).clear.slots_of()[r]
                    },
            ),
    {
        self.clear.write(range.base, values);
    }

    /// Write shares into a secret run (as many as were given).
    pub fn write_secret(&mut self, range: &SecretRange, shares: Vec<S>)
        requires
            range.base + shares@.len() <= old(self).secret.slots_of().len(),
        ensures
            final(self).clear == old(self).clear,
            final(self).secret.bank_of() == old(self).secret.bank_of(),
            final(self).secret.slots_of() == Seq::new(
                old(self).secret.slots_of().len(),
                |r: int|
                    if range.base <= r < range.base + shares@.len() {
                        Some(shares@[r - range.base])
                    } else {
                        old(self).secret.slots_of()[r]
                    },
            ),
    {
        self.secret.write(range.base, shares);
    }
}

/// How many reveal ordinals an instruction consumes: one per opening
/// (`Reveal`, `BitDec`), two for the S-box (its mask open and the
/// follow-up decomposition) and for the byte XOR (its two
/// decompositions).
pub open spec fn ordinals_used(i: InstructionView) -> nat {
    match i {
        InstructionView::Reveal { .. } | InstructionView::BitDec { .. } => 1,
        InstructionView::Sbox { .. } | InstructionView::ByteXor { .. } => 2,
        _ => 0,
    }
}

/// The reveal ordinal after running an instruction. The two-ordinal
/// instructions saturate at `u32::MAX`.
pub fn next_ordinal(ordinal: u32, instruction: &Instruction) -> (next: u32)
    requires
        ordinals_used(instruction@) == 1 ==> ordinal < u32::MAX,
    ensures
        ordinals_used(instruction@) == 2 ==> next == ordinal.saturating_add(2),
        ordinals_used(instruction@) != 2 ==> next == ordinal + ordinals_used(instruction@),
{
    match instruction {
        Instruction::Reveal { .. } | Instruction::BitDec { .. } => ordinal + 1,
        Instruction::Sbox { .. } | Instruction::ByteXor { .. } => ordinal.saturating_add(2),
        _ => ordinal,
    }
}

} // verus!
