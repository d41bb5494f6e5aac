//! Consumer-side program construction with typed register handles.
//!
//! [`Secret`] and [`Clear`] handles are opaque range tokens minted by
//! the builder, so programs written through it cannot alias banks or
//! read unallocated registers by construction. The fluent surface is
//! infallible. Every remaining soundness question (operand lengths,
//! terminal `Out`) is answered once by [`ProgramBuilder::build`], which
//! returns the same [`ValidProgram`] the parties re-derive from the
//! wire.
//!
//! Registers are allocated bump-style from zero in each bank; every
//! operation that allocates requires the bank's counter not to pass
//! `u32::MAX`.

use crate::vm::bitdec::{lemma_place_positive, place};
use crate::vm::error::VmError;
use crate::vm::isa::{
    ClearRange, ClientId, FixedPrecision, InputDecl, Instruction, InstructionView, MulTriple,
    Program, ProgramView, SecretRange, VERSION,
};
use crate::vm::validate::{accepted, Budget, ValidProgram};
use vstd::prelude::*;

verus! {

/// `a * b`, held at `u32::MAX`.
pub open spec fn sat_mul(a: u32, b: u32) -> u32 {
    if a * b > u32::MAX {
        u32::MAX
    } else {
        (a * b) as u32
    }
}

fn saturating_mul(a: u32, b: u32) -> (product: u32)
    ensures
        product == sat_mul(a, b),
{
    assert(a as u64 * b as u64 <= u32::MAX as u64 * u32::MAX as u64) by (nonlinear_arith)
        requires
            a <= u32::MAX,
            b <= u32::MAX,
    ;
    let wide = a as u64 * b as u64;
    if wide > u32::MAX as u64 {
        u32::MAX
    } else {
        wide as u32
    }
}

/// Whole packed-element count of a bit range at `width`, rounded down
/// (zero at width zero).
pub open spec fn elements_of(range: SecretRange, width: u8) -> u32 {
    if width == 0 {
        0
    } else {
        range.len / (width as u32)
    }
}

/// Whole packed-element count for a bit range at `width`, rounded down
/// so callers never read a partial element by construction.
pub fn bit_elements(range: SecretRange, width: u8) -> (count: u32)
    ensures
        count == elements_of(range, width),
{
    match width {
        0 => 0,
        width => range.len / (width as u32),
    }
}

/// A handle to builder-allocated secret registers.
#[derive(Clone, Copy, Debug, PartialEq, Eq, Structural)]
pub struct Secret {
    range: SecretRange,
}

impl View for Secret {
    type V = SecretRange;

    closed spec fn view(&self) -> SecretRange {
        self.range
    }
}

impl Secret {
    /// The handle over `range`.
    pub closed spec fn over(range: SecretRange) -> Secret {
        Secret { range }
    }

    /// The handle over `range` covers exactly `range`.
    pub proof fn lemma_over(range: SecretRange)
        ensures
            Secret::over(range)@ == range,
    {
    }

    /// The registers behind the handle.
    pub fn range(&self) -> (range: SecretRange)
        ensures
            range == self@,
    {
        self.range
    }

    /// Number of elements behind the handle.
    pub fn len(&self) -> (len: u32)
        ensures
            len == self@.len,
    {
        self.range.len
    }

    /// Whether the handle is empty (never true for minted handles).
    pub fn is_empty(&self) -> (empty: bool)
        ensures
            empty == (self@.len == 0),
    {
        self.range.len == 0
    }

    /// Zero-cost view of one element. Out-of-range indices are not
    /// checked here: validation rejects any use of unwritten registers
    /// when the program is built.
    pub fn get(&self, index: u32) -> (element: Self)
        ensures
            element@ == (SecretRange { base: self@.base.saturating_add(index), len: 1 }),
    {
        Secret { range: SecretRange { base: self.range.base.saturating_add(index), len: 1 } }
    }

    /// Zero-cost view of a contiguous subrange. Out-of-range views are
    /// not checked here: validation rejects any use of unwritten
    /// registers when the program is built.
    pub fn slice(&self, start: u32, len: u32) -> (view: Self)
        ensures
            view@ == (SecretRange { base: self@.base.saturating_add(start), len }),
    {
        Secret { range: SecretRange { base: self.range.base.saturating_add(start), len } }
    }
}

/// A handle to builder-allocated clear registers.
#[derive(Clone, Copy, Debug, PartialEq, Eq, Structural)]
pub struct Clear {
    range: ClearRange,
}

impl View for Clear {
    type V = ClearRange;

    closed spec fn view(&self) -> ClearRange {
        self.range
    }
}

impl Clear {
    /// The registers behind the handle.
    pub fn range(&self) -> (range: ClearRange)
        ensures
            range == self@,
    {
        self.range
    }

    /// Number of elements behind the handle.
    pub fn len(&self) -> (len: u32)
        ensures
            len == self@.len,
    {
        self.range.len
    }

    /// Whether the handle is empty (never true for minted handles).
    pub fn is_empty(&self) -> (empty: bool)
        ensures
            empty == (self@.len == 0),
    {
        self.range.len == 0
    }
}

/// The model of a [`Bits`] handle.
pub struct BitsView {
    pub range: SecretRange,
    pub width: u8,
}

/// A handle to builder-allocated secret registers holding field bits
/// in `{0,1}`, `width` of them per packed element, LSB-first.
///
/// Only bit-producing operations (`bit_dec`, `and`, `xor`, `not`,
/// [`Bits::assume`]) mint a `Bits` handle: a plain [`Secret`] never
/// silently becomes one.
#[derive(Clone, Copy, Debug, PartialEq, Eq, Structural)]
pub struct Bits {
    range: SecretRange,
    width: u8,
}

impl View for Bits {
    type V = BitsView;

    closed spec fn view(&self) -> BitsView {
        BitsView { range: self.range, width: self.width }
    }
}

impl Bits {
    /// Treat an existing [`Secret`] as `width`-wide bit groups without
    /// a protocol round.
    ///
    /// This is the documented escape hatch for advanced callers who
    /// already hold registers they know satisfy the `{0,1}` bit
    /// invariant. It stays infallible at build time even when `width` is
    /// zero or does not divide the underlying range evenly: [`Bits::len`]
    /// then reports the whole-element count, and any mismatch surfaces as
    /// a wrong protocol result, not a panic. Callers must not reach for
    /// `assume` on any computation whose correctness depends on XOR/AND
    /// algebraic identities: a non-`{0,1}` value silently breaks them.
    pub fn assumed(secret: Secret, width: u8) -> (bits: Self)
        ensures
            bits@ == (BitsView { range: secret@, width }),
    {
        Bits { range: secret.range, width }
    }

    /// The registers behind the handle.
    pub fn range(&self) -> (range: SecretRange)
        ensures
            range == self@.range,
    {
        self.range
    }

    /// Packed element count (`register count / width`, rounded down).
    pub fn len(&self) -> (count: u32)
        ensures
            count == elements_of(self@.range, self@.width),
    {
        bit_elements(self.range, self.width)
    }

    /// Whether the handle holds zero packed elements.
    pub fn is_empty(&self) -> (empty: bool)
        ensures
            empty == (elements_of(self@.range, self@.width) == 0),
    {
        self.len() == 0
    }

    /// Bits per packed element.
    pub fn width(&self) -> (width: u8)
        ensures
            width == self@.width,
    {
        self.width
    }

    /// Zero-cost view of one packed element's bits. Out-of-range indices
    /// are not checked here: validation rejects any use of unwritten
    /// registers when the program is built.
    pub fn get(&self, element: u32) -> (group: Self)
        ensures
            group@ == (BitsView {
                range: SecretRange {
                    base: self@.range.base.saturating_add(sat_mul(element, self@.width as u32)),
                    len: self@.width as u32,
                },
                width: self@.width,
            }),
    {
        let width = self.width as u32;
        Bits {
            range: SecretRange {
                base: self.range.base.saturating_add(saturating_mul(element, width)),
                len: width,
            },
            width: self.width,
        }
    }

    /// Zero-cost view of one bit inside a packed element, as width 1.
    /// Out-of-range indices are not checked here: validation rejects
    /// any use of unwritten registers when the program is built.
    pub fn bit(&self, element: u32, position: u8) -> (single: Self)
        ensures
            single@ == (BitsView {
                range: SecretRange {
                    base: self@.range.base.saturating_add(
                        sat_mul(element, self@.width as u32).saturating_add(position as u32),
                    ),
                    len: 1,
                },
                width: 1,
            }),
    {
        let width = self.width as u32;
        let offset = saturating_mul(element, width).saturating_add(position as u32);
        Bits { range: SecretRange { base: self.range.base.saturating_add(offset), len: 1 }, width: 1 }
    }

    /// Reinterpret contiguous bit registers as `width`-wide groups.
    /// The register count is unchanged. Callers must ensure `width`
    /// divides the underlying range when they later pack.
    pub fn regroup(self, width: u8) -> (regrouped: Self)
        ensures
            regrouped@ == (BitsView { range: self@.range, width }),
    {
        Bits { range: self.range, width }
    }
}

impl From<Bits> for Secret {
    /// A `Bits` group's registers are always valid secret registers,
    /// so downcasting to the untyped handle (for `output`, `reveal`,
    /// or further affine ops) never loses soundness. The reverse
    /// direction stays deliberately unavailable: only bit-producing
    /// operations mint a `Bits`.
    fn from(bits: Bits) -> (secret: Secret)
        ensures
            secret@ == bits@.range,
    {
        Secret { range: bits.range }
    }
}

impl vstd::std_specs::convert::FromSpecImpl<Bits> for Secret {
    open spec fn obeys_from_spec() -> bool {
        true
    }

    open spec fn from_spec(bits: Bits) -> Secret {
        Secret::over(bits@.range)
    }
}


// ---------------------------------------------------------------------
// The builder
// ---------------------------------------------------------------------

/// The model of a [`ProgramBuilder`]: what it has declared and emitted,
/// the outputs it will append, and its next free register per bank.
pub struct BuilderView {
    pub inputs: Seq<InputDecl>,
    pub instructions: Seq<InstructionView>,
    pub outputs: Seq<(ClientId, SecretRange)>,
    pub next_secret: u32,
    pub next_clear: u32,
}

/// The next `len` free secret registers.
pub open spec fn fresh_secret(v: BuilderView, len: u32) -> SecretRange {
    SecretRange { base: v.next_secret, len }
}

/// The next `len` free clear registers.
pub open spec fn fresh_clear(v: BuilderView, len: u32) -> ClearRange {
    ClearRange { base: v.next_clear, len }
}

/// `v` with `len` more secret registers allocated.
pub open spec fn taken_secret(v: BuilderView, len: u32) -> BuilderView {
    BuilderView { next_secret: (v.next_secret + len) as u32, ..v }
}

/// `v` with `len` more clear registers allocated.
pub open spec fn taken_clear(v: BuilderView, len: u32) -> BuilderView {
    BuilderView { next_clear: (v.next_clear + len) as u32, ..v }
}

/// `v` with one more instruction emitted.
pub open spec fn emitted(v: BuilderView, i: InstructionView) -> BuilderView {
    BuilderView { instructions: v.instructions.push(i), ..v }
}

/// `v` after allocating `len` secret registers as the destination of
/// the instruction `make` builds around them.
pub open spec fn op_secret(v: BuilderView, len: u32, i: InstructionView) -> BuilderView {
    emitted(taken_secret(v, len), i)
}

/// Whether `v` has room for `secret` more secret and `clear` more clear
/// registers.
pub open spec fn room(v: BuilderView, secret: int, clear: int) -> bool {
    v.next_secret + secret <= u32::MAX && v.next_clear + clear <= u32::MAX
}

/// The program a builder assembles: its outputs appended as `Out`s.
pub open spec fn assembled(v: BuilderView) -> ProgramView {
    ProgramView {
        version: VERSION,
        inputs: v.inputs,
        instructions: v.instructions + v.outputs.map_values(
            |o: (ClientId, SecretRange)| InstructionView::Out { client: o.0, src: o.1 },
        ),
    }
}

/// Fluent straight-line program assembly.
#[derive(Debug)]
pub struct ProgramBuilder {
    inputs: Vec<InputDecl>,
    instructions: Vec<Instruction>,
    outputs: Vec<(ClientId, SecretRange)>,
    next_secret: u32,
    next_clear: u32,
}

impl View for ProgramBuilder {
    type V = BuilderView;

    closed spec fn view(&self) -> BuilderView {
        BuilderView {
            inputs: self.inputs@,
            instructions: self.instructions@.map_values(|i: Instruction| i@),
            outputs: self.outputs@,
            next_secret: self.next_secret,
            next_clear: self.next_clear,
        }
    }
}

impl Default for ProgramBuilder {
    fn default() -> (builder: Self)
        ensures
            builder@ == (BuilderView {
                inputs: Seq::empty(),
                instructions: Seq::empty(),
                outputs: Seq::empty(),
                next_secret: 0,
                next_clear: 0,
            }),
    {
        let builder = ProgramBuilder {
            inputs: Vec::new(),
            instructions: Vec::new(),
            outputs: Vec::new(),
            next_secret: 0,
            next_clear: 0,
        };
        assert(builder@.instructions =~= Seq::<InstructionView>::empty());
        builder
    }
}

impl ProgramBuilder {
    fn alloc_secret(&mut self, len: u32) -> (range: SecretRange)
        requires
            room(old(self)@, len as int, 0),
        ensures
            range == fresh_secret(old(self)@, len),
            final(self)@ == taken_secret(old(self)@, len),
    {
        let range = SecretRange { base: self.next_secret, len };
        self.next_secret = self.next_secret + len;
        range
    }

    fn alloc_clear(&mut self, len: u32) -> (range: ClearRange)
        requires
            room(old(self)@, 0, len as int),
        ensures
            range == fresh_clear(old(self)@, len),
            final(self)@ == taken_clear(old(self)@, len),
    {
        let range = ClearRange { base: self.next_clear, len };
        self.next_clear = self.next_clear + len;
        range
    }

    fn emit(&mut self, instruction: Instruction)
        ensures
            final(self)@ == emitted(old(self)@, instruction@),
    {
        let ghost before = self@;
        self.instructions.push(instruction);
        assert(self@.instructions =~= before.instructions.push(instruction@));
    }

    /// Declare `len` secret inputs provided by `client`.
    pub fn input(&mut self, client: ClientId, len: u32) -> (inputs: Secret)
        requires
            room(old(self)@, len as int, 0),
        ensures
            inputs@ == fresh_secret(old(self)@, len),
            final(self)@ == (BuilderView {
                inputs: old(self)@.inputs.push(InputDecl { client, dest: inputs@ }),
                ..taken_secret(old(self)@, len)
            }),
    {
        let dest = self.alloc_secret(len);
        self.inputs.push(InputDecl { client, dest });
        Secret { range: dest }
    }

    /// Declare `len` secret inputs provided by `client`, each a byte
    /// in `0..=255`. This is documentation over
    /// [`ProgramBuilder::input`]: no distinct wire shape and no extra
    /// check. Callers who need the bit representation follow with
    /// `bit_dec(input, 8)`.
    pub fn input_bytes(&mut self, client: ClientId, len: u32) -> (inputs: Secret)
        requires
            room(old(self)@, len as int, 0),
        ensures
            inputs@ == fresh_secret(old(self)@, len),
            final(self)@ == (BuilderView {
                inputs: old(self)@.inputs.push(InputDecl { client, dest: inputs@ }),
                ..taken_secret(old(self)@, len)
            }),
    {
        self.input(client, len)
    }

    /// Load public constants, lifted into the field at execution.
    pub fn constants(&mut self, values: &[u64]) -> (constants: Clear)
        requires
            values@.len() <= u32::MAX,
            room(old(self)@, 0, values@.len() as int),
        ensures
            constants@ == fresh_clear(old(self)@, values@.len() as u32),
            final(self)@ == emitted(
                taken_clear(old(self)@, values@.len() as u32),
                InstructionView::LdC { dest: constants@, values: values@ },
            ),
    {
        let values = vstd::slice::slice_to_vec(values);
        let dest = self.alloc_clear(values.len() as u32);
        self.emit(Instruction::LdC { dest, values });
        Clear { range: dest }
    }

    /// Element-wise secret addition.
    pub fn add(&mut self, a: Secret, b: Secret) -> (sum: Secret)
        requires
            room(old(self)@, a@.len as int, 0),
        ensures
            sum@ == fresh_secret(old(self)@, a@.len),
            final(self)@ == op_secret(old(self)@, a@.len, InstructionView::AddS { dest: sum@, a: a@, b: b@ }),
    {
        let dest = self.alloc_secret(a.range.len);
        self.emit(Instruction::AddS { dest, a: a.range, b: b.range });
        Secret { range: dest }
    }

    /// Element-wise secret subtraction.
    pub fn sub(&mut self, a: Secret, b: Secret) -> (difference: Secret)
        requires
            room(old(self)@, a@.len as int, 0),
        ensures
            difference@ == fresh_secret(old(self)@, a@.len),
            final(self)@ == op_secret(
                old(self)@,
                a@.len,
                InstructionView::SubS { dest: difference@, a: a@, b: b@ },
            ),
    {
        let dest = self.alloc_secret(a.range.len);
        self.emit(Instruction::SubS { dest, a: a.range, b: b.range });
        Secret { range: dest }
    }

    /// Element-wise clear addend.
    pub fn add_clear(&mut self, a: Secret, c: Clear) -> (sum: Secret)
        requires
            room(old(self)@, a@.len as int, 0),
        ensures
            sum@ == fresh_secret(old(self)@, a@.len),
            final(self)@ == op_secret(old(self)@, a@.len, InstructionView::AddC { dest: sum@, a: a@, c: c@ }),
    {
        let dest = self.alloc_secret(a.range.len);
        self.emit(Instruction::AddC { dest, a: a.range, c: c.range });
        Secret { range: dest }
    }

    /// Element-wise clear subtrahend.
    pub fn sub_clear(&mut self, a: Secret, c: Clear) -> (difference: Secret)
        requires
            room(old(self)@, a@.len as int, 0),
        ensures
            difference@ == fresh_secret(old(self)@, a@.len),
            final(self)@ == op_secret(
                old(self)@,
                a@.len,
                InstructionView::SubC { dest: difference@, a: a@, c: c@ },
            ),
    {
        let dest = self.alloc_secret(a.range.len);
        self.emit(Instruction::SubC { dest, a: a.range, c: c.range });
        Secret { range: dest }
    }

    /// Element-wise clear scaling.
    pub fn mul_clear(&mut self, a: Secret, c: Clear) -> (product: Secret)
        requires
            room(old(self)@, a@.len as int, 0),
        ensures
            product@ == fresh_secret(old(self)@, a@.len),
            final(self)@ == op_secret(
                old(self)@,
                a@.len,
                InstructionView::MulC { dest: product@, a: a@, c: c@ },
            ),
    {
        let dest = self.alloc_secret(a.range.len);
        self.emit(Instruction::MulC { dest, a: a.range, c: c.range });
        Secret { range: dest }
    }

    /// Bitwise NOT on a `{0,1}` field element: local, no protocol
    /// round.
    pub fn not(&mut self, a: Bits) -> (negated: Bits)
        requires
            room(old(self)@, a@.range.len as int, 0),
        ensures
            negated@ == (BitsView { range: fresh_secret(old(self)@, a@.range.len), width: a@.width }),
            final(self)@ == op_secret(
                old(self)@,
                a@.range.len,
                InstructionView::NotS { dest: negated@.range, a: a@.range },
            ),
    {
        let dest = self.alloc_secret(a.range.len);
        self.emit(Instruction::NotS { dest, a: a.range });
        Bits { range: dest, width: a.width }
    }

    /// Bit-selected choice: `cond` is a single bit broadcast across
    /// every element of `t` and `f`, which share `t`'s length.
    pub fn mux(&mut self, cond: Bits, t: Secret, f: Secret) -> (selected: Secret)
        requires
            room(old(self)@, t@.len as int, 0),
        ensures
            selected@ == fresh_secret(old(self)@, t@.len),
            final(self)@ == op_secret(
                old(self)@,
                t@.len,
                InstructionView::Mux { dest: selected@, cond: cond@.range, t: t@, f: f@ },
            ),
    {
        let dest = self.alloc_secret(t.range.len);
        self.emit(Instruction::Mux { dest, cond: cond.range, t: t.range, f: f.range });
        Secret { range: dest }
    }

    /// Local little-endian bit packing: fold `bits` into one secret
    /// element per group of `bits.width()` registers.
    pub fn pack(&mut self, bits: Bits) -> (packed: Secret)
        requires
            room(old(self)@, elements_of(bits@.range, bits@.width) as int, 0),
        ensures
            packed@ == fresh_secret(old(self)@, elements_of(bits@.range, bits@.width)),
            final(self)@ == op_secret(
                old(self)@,
                elements_of(bits@.range, bits@.width),
                InstructionView::Pack { dest: packed@, src: bits@.range, width: bits@.width },
            ),
    {
        let dest = self.alloc_secret(bits.len());
        self.emit(Instruction::Pack { dest, src: bits.range, width: bits.width });
        Secret { range: dest }
    }

    /// Interactive mask-and-reveal decomposition: every element of
    /// `src` becomes `width` LSB-first `{0,1}` bits of `src[j] mod
    /// 2^width`, one protocol round for the whole batch. The bit count
    /// saturates at `u32::MAX`.
    pub fn bit_dec(&mut self, src: Secret, width: u8) -> (bits: Bits)
        requires
            room(old(self)@, sat_mul(src@.len, width as u32) as int, 0),
        ensures
            bits@ == (BitsView {
                range: fresh_secret(old(self)@, sat_mul(src@.len, width as u32)),
                width,
            }),
            final(self)@ == op_secret(
                old(self)@,
                sat_mul(src@.len, width as u32),
                InstructionView::BitDec { dest: bits@.range, src: src@, width },
            ),
    {
        let bit_count = saturating_mul(src.range.len, width as u32);
        let dest = self.alloc_secret(bit_count);
        self.emit(Instruction::BitDec { dest, src: src.range, width });
        Bits { range: dest, width }
    }

    /// Batched AES S-box on width-8 bit groups: an online table open
    /// plus a mux tree that returns substituted bits.
    pub fn sbox(&mut self, src: Bits) -> (substituted: Bits)
        requires
            room(old(self)@, src@.range.len as int, 0),
        ensures
            substituted@ == (BitsView { range: fresh_secret(old(self)@, src@.range.len), width: 8 }),
            final(self)@ == op_secret(
                old(self)@,
                src@.range.len,
                InstructionView::Sbox { dest: substituted@.range, src: src@.range },
            ),
    {
        let dest = self.alloc_secret(src.range.len);
        self.emit(Instruction::Sbox { dest, src: src.range });
        Bits { range: dest, width: 8 }
    }

    /// Element-wise XOR on byte-valued secrets.
    pub fn byte_xor(&mut self, a: Secret, b: Secret) -> (xored: Secret)
        requires
            room(old(self)@, a@.len as int, 0),
        ensures
            xored@ == fresh_secret(old(self)@, a@.len),
            final(self)@ == op_secret(
                old(self)@,
                a@.len,
                InstructionView::ByteXor { dest: xored@, a: a@, b: b@ },
            ),
    {
        let dest = self.alloc_secret(a.range.len);
        self.emit(Instruction::ByteXor { dest, a: a.range, b: b.range });
        Secret { range: dest }
    }

    /// Element-wise fixed-point multiplication: the raw products are
    /// truncated by `2^f`, one protocol round per element.
    pub fn fp_mul(&mut self, a: Secret, b: Secret, precision: FixedPrecision) -> (product: Secret)
        requires
            room(old(self)@, a@.len as int, 0),
        ensures
            product@ == fresh_secret(old(self)@, a@.len),
            final(self)@ == op_secret(
                old(self)@,
                a@.len,
                InstructionView::FpMulS { dest: product@, a: a@, b: b@, precision },
            ),
    {
        let dest = self.alloc_secret(a.range.len);
        self.emit(Instruction::FpMulS { dest, a: a.range, b: b.range, precision });
        Secret { range: dest }
    }

    /// Element-wise fixed-point division by one public raw fixed-point
    /// divisor (`real * 2^f`).
    pub fn fp_div(&mut self, a: Secret, divisor: u64, precision: FixedPrecision) -> (quotient: Secret)
        requires
            room(old(self)@, a@.len as int, 0),
        ensures
            quotient@ == fresh_secret(old(self)@, a@.len),
            final(self)@ == op_secret(
                old(self)@,
                a@.len,
                InstructionView::FpDivC { dest: quotient@, a: a@, divisor, precision },
            ),
    {
        let dest = self.alloc_secret(a.range.len);
        self.emit(Instruction::FpDivC { dest, a: a.range, divisor, precision });
        Secret { range: dest }
    }

    /// Open secrets to every party.
    pub fn reveal_secret(&mut self, src: Secret) -> (opened: Clear)
        requires
            room(old(self)@, 0, src@.len as int),
        ensures
            opened@ == fresh_clear(old(self)@, src@.len),
            final(self)@ == emitted(
                taken_clear(old(self)@, src@.len),
                InstructionView::Reveal { dest: opened@, src: src@ },
            ),
    {
        let dest = self.alloc_clear(src.range.len);
        self.emit(Instruction::Reveal { dest, src: src.range });
        Clear { range: dest }
    }

    /// Deliver result shares to `client` as the program's terminal step.
    pub fn output(&mut self, client: ClientId, src: Secret)
        ensures
            final(self)@ == (BuilderView { outputs: old(self)@.outputs.push((client, src@)), ..old(self)@ }),
    {
        self.outputs.push((client, src.range));
    }

    /// Assemble and statically validate the program: the emitted
    /// instructions, then one `Out` per requested output, in order.
    pub fn build(self) -> (valid: Result<ValidProgram, VmError>)
        ensures
            match valid {
                Ok(v) => accepted(assembled(self@)) matches Ok((verdict, bytes)) && v.describes(
                    assembled(self@),
                    verdict,
                    bytes,
                ) && v.wf(),
                Err(e) => accepted(assembled(self@)) == Err::<
                    ((Budget, Option<FixedPrecision>), Seq<u8>),
                    VmError,
                >(e),
            },
    {
        let ghost v = self@;
        let mut instructions = self.instructions;
        let ghost emitted_count = instructions@.len();
        let mut k: usize = 0;
        while k < self.outputs.len()
            invariant
                k <= self.outputs.len(),
                v == self@,
                emitted_count == v.instructions.len(),
                instructions@.map_values(|i: Instruction| i@) == v.instructions + v.outputs.take(
                    k as int,
                ).map_values(
                    |o: (ClientId, SecretRange)| InstructionView::Out { client: o.0, src: o.1 },
                ),
            decreases self.outputs.len() - k,
        {
            let (client, src) = self.outputs[k];
            let ghost before = instructions@.map_values(|i: Instruction| i@);
            assert(v.outputs[k as int] == (client, src));
            instructions.push(Instruction::Out { client, src });
            assert(instructions@.map_values(|i: Instruction| i@) =~= before.push(
                InstructionView::Out { client, src },
            ));
            assert(v.outputs.take(k + 1) =~= v.outputs.take(k as int).push((client, src)));
            k = k + 1;
            assert(instructions@.map_values(|i: Instruction| i@) =~= v.instructions + v.outputs.take(
                k as int,
            ).map_values(
                |o: (ClientId, SecretRange)| InstructionView::Out { client: o.0, src: o.1 },
            ));
        }
        assert(v.outputs.take(k as int) =~= v.outputs);
        let program = Program { version: VERSION, inputs: self.inputs, instructions };
        assert(program@ =~= assembled(v));
        ValidProgram::try_from(program)
    }
}


// ---------------------------------------------------------------------
// Batches
// ---------------------------------------------------------------------

/// The registers the first `k` left operands of a batch take.
pub open spec fn range_total(lefts: Seq<SecretRange>, k: int) -> int
    decreases k,
{
    if k <= 0 {
        0
    } else {
        range_total(lefts, k - 1) + lefts[k - 1].len
    }
}

/// The pairs of a batch whose destinations are allocated from `start`
/// in order, each as long as its left operand.
pub open spec fn batch_of(start: u32, lefts: Seq<SecretRange>, rights: Seq<SecretRange>) -> Seq<MulTriple> {
    Seq::new(
        lefts.len(),
        |k: int|
            MulTriple {
                dest: SecretRange { base: (start + range_total(lefts, k)) as u32, len: lefts[k].len },
                a: lefts[k],
                b: rights[k],
            },
    )
}

/// The left operands of secret factor pairs.
pub open spec fn secret_lefts(factors: Seq<(Secret, Secret)>) -> Seq<SecretRange> {
    factors.map_values(|f: (Secret, Secret)| f.0@)
}

/// The right operands of secret factor pairs.
pub open spec fn secret_rights(factors: Seq<(Secret, Secret)>) -> Seq<SecretRange> {
    factors.map_values(|f: (Secret, Secret)| f.1@)
}

/// The left operands of bit pairs.
pub open spec fn bit_lefts(pairs: Seq<(Bits, Bits)>) -> Seq<SecretRange> {
    pairs.map_values(|p: (Bits, Bits)| p.0@.range)
}

/// The right operands of bit pairs.
pub open spec fn bit_rights(pairs: Seq<(Bits, Bits)>) -> Seq<SecretRange> {
    pairs.map_values(|p: (Bits, Bits)| p.1@.range)
}

proof fn lemma_range_total_monotone(lefts: Seq<SecretRange>, j: int, k: int)
    requires
        0 <= j <= k <= lefts.len(),
    ensures
        range_total(lefts, j) <= range_total(lefts, k),
    decreases k - j,
{
    if j < k {
        lemma_range_total_monotone(lefts, j, k - 1);
    }
}

impl ProgramBuilder {
    /// Allocate one destination per pair, in order, each as long as its
    /// left operand.
    fn batch(&mut self, lefts: &Vec<SecretRange>, rights: &Vec<SecretRange>) -> (pairs: Vec<MulTriple>)
        requires
            lefts@.len() == rights@.len(),
            room(old(self)@, range_total(lefts@, lefts@.len() as int), 0),
        ensures
            pairs@ == batch_of(old(self)@.next_secret, lefts@, rights@),
            final(self)@ == taken_secret(old(self)@, range_total(lefts@, lefts@.len() as int) as u32),
    {
        let ghost start = self@;
        let mut pairs: Vec<MulTriple> = Vec::new();
        let mut k: usize = 0;
        while k < lefts.len()
            invariant
                k <= lefts@.len() == rights@.len(),
                room(start, range_total(lefts@, lefts@.len() as int), 0),
                self@ == (BuilderView { next_secret: self@.next_secret, ..start }),
                self@.next_secret == start.next_secret + range_total(lefts@, k as int),
                pairs@ == batch_of(start.next_secret, lefts@, rights@).take(k as int),
            decreases lefts@.len() - k,
        {
            proof {
                lemma_range_total_monotone(lefts@, k + 1, lefts@.len() as int);
            }
            let dest = self.alloc_secret(lefts[k].len);
            pairs.push(MulTriple { dest, a: lefts[k], b: rights[k] });
            k = k + 1;
            assert(pairs@ =~= batch_of(start.next_secret, lefts@, rights@).take(k as int));
        }
        assert(pairs@ =~= batch_of(start.next_secret, lefts@, rights@));
        proof {
            lemma_range_total_monotone(lefts@, 0, lefts@.len() as int);
        }
        pairs
    }

    /// Batched secret multiplications: every pair in one protocol
    /// round, the round-efficiency workhorse.
    pub fn mul_many(&mut self, factors: &[(Secret, Secret)]) -> (products: Vec<Secret>)
        requires
            room(old(self)@, range_total(secret_lefts(factors@), factors@.len() as int), 0),
        ensures
            products@.len() == factors@.len(),
            forall|k: int|
                0 <= k < factors@.len() ==> (#[trigger] products@[k])@ == batch_of(
                    old(self)@.next_secret,
                    secret_lefts(factors@),
                    secret_rights(factors@),
                )[k].dest,
            final(self)@ == emitted(
                taken_secret(
                    old(self)@,
                    range_total(secret_lefts(factors@), factors@.len() as int) as u32,
                ),
                InstructionView::MulS {
                    pairs: batch_of(
                        old(self)@.next_secret,
                        secret_lefts(factors@),
                        secret_rights(factors@),
                    ),
                },
            ),
    {
        let mut lefts: Vec<SecretRange> = Vec::new();
        let mut rights: Vec<SecretRange> = Vec::new();
        let mut k: usize = 0;
        while k < factors.len()
            invariant
                k <= factors@.len(),
                lefts@ == secret_lefts(factors@).take(k as int),
                rights@ == secret_rights(factors@).take(k as int),
            decreases factors@.len() - k,
        {
            lefts.push(factors[k].0.range);
            rights.push(factors[k].1.range);
            k = k + 1;
            assert(lefts@ =~= secret_lefts(factors@).take(k as int));
            assert(rights@ =~= secret_rights(factors@).take(k as int));
        }
        assert(lefts@ =~= secret_lefts(factors@));
        assert(rights@ =~= secret_rights(factors@));
        let pairs = self.batch(&lefts, &rights);
        let mut products: Vec<Secret> = Vec::new();
        let mut j: usize = 0;
        while j < pairs.len()
            invariant
                j <= pairs@.len(),
                products@.len() == j,
                forall|i: int| 0 <= i < j ==> (#[trigger] products@[i])@ == pairs@[i].dest,
            decreases pairs@.len() - j,
        {
            products.push(Secret { range: pairs[j].dest });
            j = j + 1;
        }
        self.emit(Instruction::MulS { pairs });
        products
    }

    /// Element-wise secret multiplication: one protocol round.
    pub fn mul(&mut self, a: Secret, b: Secret) -> (product: Secret)
        requires
            room(old(self)@, a@.len as int, 0),
        ensures
            product@ == fresh_secret(old(self)@, a@.len),
            final(self)@ == op_secret(
                old(self)@,
                a@.len,
                InstructionView::MulS {
                    pairs: seq![MulTriple { dest: product@, a: a@, b: b@ }],
                },
            ),
    {
        let factors = [(a, b)];
        proof {
            reveal_with_fuel(range_total, 2);
        }
        let products = self.mul_many(factors.as_slice());
        assert(batch_of(old(self)@.next_secret, secret_lefts(factors@), secret_rights(factors@))
            =~= seq![MulTriple { dest: products@[0]@, a: a@, b: b@ }]);
        products[0]
    }

    /// Batched bitwise AND: every pair in one protocol round.
    pub fn and_many(&mut self, pairs: &[(Bits, Bits)]) -> (ands: Vec<Bits>)
        requires
            room(old(self)@, range_total(bit_lefts(pairs@), pairs@.len() as int), 0),
        ensures
            ands@.len() == pairs@.len(),
            forall|k: int|
                0 <= k < pairs@.len() ==> (#[trigger] ands@[k])@ == (BitsView {
                    range: batch_of(old(self)@.next_secret, bit_lefts(pairs@), bit_rights(pairs@))[k].dest,
                    width: pairs@[k].0@.width,
                }),
            final(self)@ == emitted(
                taken_secret(old(self)@, range_total(bit_lefts(pairs@), pairs@.len() as int) as u32),
                InstructionView::AndS {
                    pairs: batch_of(old(self)@.next_secret, bit_lefts(pairs@), bit_rights(pairs@)),
                },
            ),
    {
        let (triples, results) = self.bit_batch(pairs);
        self.emit(Instruction::AndS { pairs: triples });
        results
    }

    /// Batched bitwise XOR: every pair in one protocol round.
    pub fn xor_many(&mut self, pairs: &[(Bits, Bits)]) -> (xors: Vec<Bits>)
        requires
            room(old(self)@, range_total(bit_lefts(pairs@), pairs@.len() as int), 0),
        ensures
            xors@.len() == pairs@.len(),
            forall|k: int|
                0 <= k < pairs@.len() ==> (#[trigger] xors@[k])@ == (BitsView {
                    range: batch_of(old(self)@.next_secret, bit_lefts(pairs@), bit_rights(pairs@))[k].dest,
                    width: pairs@[k].0@.width,
                }),
            final(self)@ == emitted(
                taken_secret(old(self)@, range_total(bit_lefts(pairs@), pairs@.len() as int) as u32),
                InstructionView::XorS {
                    pairs: batch_of(old(self)@.next_secret, bit_lefts(pairs@), bit_rights(pairs@)),
                },
            ),
    {
        let (triples, results) = self.bit_batch(pairs);
        self.emit(Instruction::XorS { pairs: triples });
        results
    }

    /// The pairs and result handles of a bit batch.
    fn bit_batch(&mut self, pairs: &[(Bits, Bits)]) -> (out: (Vec<MulTriple>, Vec<Bits>))
        requires
            room(old(self)@, range_total(bit_lefts(pairs@), pairs@.len() as int), 0),
        ensures
            out.0@ == batch_of(old(self)@.next_secret, bit_lefts(pairs@), bit_rights(pairs@)),
            out.1@.len() == pairs@.len(),
            forall|k: int|
                0 <= k < pairs@.len() ==> (#[trigger] out.1@[k])@ == (BitsView {
                    range: out.0@[k].dest,
                    width: pairs@[k].0@.width,
                }),
            final(self)@ == taken_secret(
                old(self)@,
                range_total(bit_lefts(pairs@), pairs@.len() as int) as u32,
            ),
    {
        let mut lefts: Vec<SecretRange> = Vec::new();
        let mut rights: Vec<SecretRange> = Vec::new();
        let mut k: usize = 0;
        while k < pairs.len()
            invariant
                k <= pairs@.len(),
                lefts@ == bit_lefts(pairs@).take(k as int),
                rights@ == bit_rights(pairs@).take(k as int),
            decreases pairs@.len() - k,
        {
            lefts.push(pairs[k].0.range);
            rights.push(pairs[k].1.range);
            k = k + 1;
            assert(lefts@ =~= bit_lefts(pairs@).take(k as int));
            assert(rights@ =~= bit_rights(pairs@).take(k as int));
        }
        assert(lefts@ =~= bit_lefts(pairs@));
        assert(rights@ =~= bit_rights(pairs@));
        let triples = self.batch(&lefts, &rights);
        let mut results: Vec<Bits> = Vec::new();
        let mut j: usize = 0;
        while j < triples.len()
            invariant
                j <= triples@.len(),
                triples@.len() == pairs@.len(),
                results@.len() == j,
                forall|i: int|
                    0 <= i < j ==> (#[trigger] results@[i])@ == (BitsView {
                        range: triples@[i].dest,
                        width: pairs@[i].0@.width,
                    }),
            decreases triples@.len() - j,
        {
            results.push(Bits { range: triples[j].dest, width: pairs[j].0.width });
            j = j + 1;
        }
        (triples, results)
    }

    /// Bitwise AND on `{0,1}` field elements: one protocol round.
    pub fn and(&mut self, a: Bits, b: Bits) -> (and: Bits)
        requires
            room(old(self)@, a@.range.len as int, 0),
        ensures
            and@ == (BitsView { range: fresh_secret(old(self)@, a@.range.len), width: a@.width }),
            final(self)@ == op_secret(
                old(self)@,
                a@.range.len,
                InstructionView::AndS {
                    pairs: seq![MulTriple { dest: and@.range, a: a@.range, b: b@.range }],
                },
            ),
    {
        let pairs = [(a, b)];
        proof {
            reveal_with_fuel(range_total, 2);
        }
        let results = self.and_many(pairs.as_slice());
        assert(batch_of(old(self)@.next_secret, bit_lefts(pairs@), bit_rights(pairs@))
            =~= seq![MulTriple { dest: results@[0]@.range, a: a@.range, b: b@.range }]);
        results[0]
    }

    /// Bitwise XOR on `{0,1}` field elements (`a + b - 2ab`): one
    /// protocol round.
    pub fn xor(&mut self, a: Bits, b: Bits) -> (xor: Bits)
        requires
            room(old(self)@, a@.range.len as int, 0),
        ensures
            xor@ == (BitsView { range: fresh_secret(old(self)@, a@.range.len), width: a@.width }),
            final(self)@ == op_secret(
                old(self)@,
                a@.range.len,
                InstructionView::XorS {
                    pairs: seq![MulTriple { dest: xor@.range, a: a@.range, b: b@.range }],
                },
            ),
    {
        let pairs = [(a, b)];
        proof {
            reveal_with_fuel(range_total, 2);
        }
        let results = self.xor_many(pairs.as_slice());
        assert(batch_of(old(self)@.next_secret, bit_lefts(pairs@), bit_rights(pairs@))
            =~= seq![MulTriple { dest: results@[0]@.range, a: a@.range, b: b@.range }]);
        results[0]
    }
}


// ---------------------------------------------------------------------
// Copies
// ---------------------------------------------------------------------

/// The secret runs of a list of handles.
pub open spec fn secret_ranges_of(parts: Seq<Secret>) -> Seq<SecretRange> {
    parts.map_values(|p: Secret| p@)
}

/// The runs of a list of bit handles.
pub open spec fn bits_ranges_of(bits: Seq<Bits>) -> Seq<SecretRange> {
    bits.map_values(|b: Bits| b@.range)
}

/// What `concat` emits: per part, zero constants into fresh clear
/// registers, then a copy of the part (plus those zeros) into fresh
/// secret registers.
pub open spec fn concat_instructions(v: BuilderView, parts: Seq<SecretRange>) -> Seq<InstructionView> {
    Seq::new(
        2 * parts.len(),
        |j: int|
            {
                let k = j / 2;
                let zeros = ClearRange {
                    base: (v.next_clear + range_total(parts, k)) as u32,
                    len: parts[k].len,
                };
                if j % 2 == 0 {
                    InstructionView::LdC { dest: zeros, values: Seq::new(parts[k].len as nat, |i: int| 0u64) }
                } else {
                    InstructionView::AddC {
                        dest: SecretRange {
                            base: (v.next_secret + range_total(parts, k)) as u32,
                            len: parts[k].len,
                        },
                        a: parts[k],
                        c: zeros,
                    }
                }
            },
    )
}

/// What `gather` emits for `count` elements: one single-register copy
/// (a negation) per element's bit at `position`, then one negation of
/// the whole fresh run back.
pub open spec fn gather_instructions(v: BuilderView, bits: BitsView, position: u8, count: u32) -> Seq<
    InstructionView,
> {
    Seq::new(
        count as nat,
        |e: int|
            InstructionView::NotS {
                dest: SecretRange { base: (v.next_secret + e) as u32, len: 1 },
                a: SecretRange {
                    base: (bits.range.base + e * bits.width + position) as u32,
                    len: 1,
                },
            },
    ).push(
        InstructionView::NotS {
            dest: SecretRange { base: (v.next_secret + count) as u32, len: count },
            a: SecretRange { base: v.next_secret, len: count },
        },
    )
}

/// What `gather` gives: the builder after it and the lane handle.
pub open spec fn gather_result(v: BuilderView, bits: BitsView, position: u8) -> (BuilderView, BitsView) {
    let count = elements_of(bits.range, bits.width);
    (
        if count == 0 {
            v
        } else {
            extended(v, gather_instructions(v, bits, position, count), 2 * count, 0)
        },
        BitsView { range: SecretRange { base: (v.next_secret + count) as u32, len: count }, width: 1 },
    )
}

/// What `join_bits` emits: one negated copy per handle, then one
/// negation of the first `count` fresh registers back.
pub open spec fn join_instructions(v: BuilderView, ranges: Seq<SecretRange>) -> Seq<InstructionView> {
    Seq::new(
        ranges.len(),
        |k: int|
            InstructionView::NotS {
                dest: SecretRange {
                    base: (v.next_secret + range_total(ranges, k)) as u32,
                    len: ranges[k].len,
                },
                a: ranges[k],
            },
    ).push(
        InstructionView::NotS {
            dest: SecretRange {
                base: (v.next_secret + range_total(ranges, ranges.len() as int)) as u32,
                len: ranges.len() as u32,
            },
            a: SecretRange { base: v.next_secret, len: ranges.len() as u32 },
        },
    )
}

/// `v` with `more` instructions emitted.
pub open spec fn extended(v: BuilderView, more: Seq<InstructionView>, secret: int, clear: int) -> BuilderView {
    BuilderView {
        instructions: v.instructions + more,
        next_secret: (v.next_secret + secret) as u32,
        next_clear: (v.next_clear + clear) as u32,
        ..v
    }
}

fn zeros(len: u32) -> (values: Vec<u64>)
    ensures
        values@ == Seq::new(len as nat, |i: int| 0u64),
{
    let mut values: Vec<u64> = Vec::new();
    let mut i: u32 = 0;
    while i < len
        invariant
            i <= len,
            values@ == Seq::new(i as nat, |j: int| 0u64),
        decreases len - i,
    {
        values.push(0);
        i = i + 1;
        assert(values@ =~= Seq::new(i as nat, |j: int| 0u64));
    }
    values
}

impl ProgramBuilder {
    /// Copy `parts` into one contiguous secret run via local `AddC`
    /// with a zero clear addend (no protocol round).
    pub fn concat(&mut self, parts: &[Secret]) -> (joined: Secret)
        requires
            range_total(secret_ranges_of(parts@), parts@.len() as int) <= u32::MAX,
            room(
                old(self)@,
                range_total(secret_ranges_of(parts@), parts@.len() as int),
                range_total(secret_ranges_of(parts@), parts@.len() as int),
            ),
        ensures
            ({
                let total = range_total(secret_ranges_of(parts@), parts@.len() as int);
                &&& joined@ == fresh_secret(old(self)@, total as u32)
                &&& total == 0 ==> final(self)@ == old(self)@
                &&& total > 0 ==> final(self)@ == extended(
                    old(self)@,
                    concat_instructions(old(self)@, secret_ranges_of(parts@)),
                    total,
                    total,
                )
            }),
    {
        let ghost start = self@;
        let ghost ranges = secret_ranges_of(parts@);
        let mut total: u32 = 0;
        let mut k: usize = 0;
        while k < parts.len()
            invariant
                k <= parts@.len(),
                ranges == secret_ranges_of(parts@),
                range_total(ranges, parts@.len() as int) <= u32::MAX,
                total == range_total(ranges, k as int),
            decreases parts@.len() - k,
        {
            proof {
                lemma_range_total_monotone(ranges, k + 1, parts@.len() as int);
            }
            total = total + parts[k].range.len;
            k = k + 1;
        }
        if total == 0 {
            return Secret { range: self.alloc_secret(0) };
        }
        let first_base = self.next_secret;
        let mut k: usize = 0;
        while k < parts.len()
            invariant
                k <= parts@.len(),
                ranges == secret_ranges_of(parts@),
                total == range_total(ranges, parts@.len() as int),
                room(start, total as int, total as int),
                first_base == start.next_secret,
                self@ == extended(
                    start,
                    concat_instructions(start, ranges).take(2 * k),
                    range_total(ranges, k as int),
                    range_total(ranges, k as int),
                ),
                self@.next_secret == start.next_secret + range_total(ranges, k as int),
                self@.next_clear == start.next_clear + range_total(ranges, k as int),
            decreases parts@.len() - k,
        {
            proof {
                lemma_range_total_monotone(ranges, k + 1, parts@.len() as int);
            }
            let part = parts[k];
            let values = zeros(part.range.len);
            let ghost v0 = self@;
            let constants = self.constants(values.as_slice());
            let _copied = self.add_clear(part, constants);
            k = k + 1;
            proof {
                let all = concat_instructions(start, ranges);
                assert(all.take(2 * k) =~= all.take(2 * (k - 1)).push(all[2 * (k - 1)]).push(
                    all[2 * (k - 1) + 1],
                ));
                assert(self@.instructions =~= start.instructions + all.take(2 * k));
            }
        }
        assert(concat_instructions(start, ranges).take(2 * k) =~= concat_instructions(start, ranges));
        Secret { range: SecretRange { base: first_base, len: total } }
    }

    fn gather(&mut self, bits: Bits, position: u8) -> (lane: Bits)
        requires
            room(old(self)@, 2 * elements_of(bits@.range, bits@.width), 0),
            elements_of(bits@.range, bits@.width) > 0 ==> bits@.range.base + (elements_of(
                bits@.range,
                bits@.width,
            ) - 1) * bits@.width + position <= u32::MAX,
        ensures
            (final(self)@, lane@) == gather_result(old(self)@, bits@, position),
    {
        let count = bits.len();
        if count == 0 {
            return Bits { range: self.alloc_secret(0), width: 1 };
        }
        let ghost start = self@;
        let base = bits.range.base;
        let width = bits.width as u32;
        let first = self.next_secret;
        let mut element: u32 = 0;
        while element < count
            invariant
                element <= count,
                count == elements_of(bits@.range, bits@.width),
                base == bits@.range.base,
                width == bits@.width,
                first == start.next_secret,
                room(start, 2 * count, 0),
                base + (count - 1) * width + position <= u32::MAX,
                self@ == extended(
                    start,
                    gather_instructions(start, bits@, position, count).take(element as int),
                    element as int,
                    0,
                ),
                self@.next_secret == start.next_secret + element,
            decreases count - element,
        {
            assert(element * width <= (count - 1) * width) by (nonlinear_arith)
                requires
                    element < count,
            ;
            let offset = base + element * width + position as u32;
            let single = Bits { range: SecretRange { base: offset, len: 1 }, width: 1 };
            let _negated = self.not(single);
            element = element + 1;
            proof {
                let all = gather_instructions(start, bits@, position, count);
                assert(all.take(element as int) =~= all.take(element - 1).push(all[element - 1]));
                assert(self@.instructions =~= start.instructions + all.take(element as int));
            }
        }
        let flipped = Bits { range: SecretRange { base: first, len: count }, width: 1 };
        let lane = self.not(flipped);
        proof {
            let all = gather_instructions(start, bits@, position, count);
            assert(all =~= all.take(count as int).push(all[count as int]));
            assert(self@.instructions =~= start.instructions + all);
        }
        lane
    }

    /// Copy register `position` of every element in `bits` into one
    /// fresh, contiguous register per element. Two passes of the local
    /// `NotS` copy the strided source into a plain, freshly allocated
    /// range and back, resolving the stride at zero protocol cost.
    pub fn bit_lane(&mut self, bits: Bits, position: u8) -> (lane: Bits)
        requires
            room(old(self)@, 2 * elements_of(bits@.range, bits@.width), 0),
            elements_of(bits@.range, bits@.width) > 0 ==> bits@.range.base + (elements_of(
                bits@.range,
                bits@.width,
            ) - 1) * bits@.width + position <= u32::MAX,
        ensures
            (final(self)@, lane@) == gather_result(old(self)@, bits@, position),
    {
        self.gather(bits, position)
    }

    /// Copy single-bit handles into one contiguous width-1 [`Bits`]
    /// via a double `NotS` pass (local, zero protocol rounds).
    pub fn join_bits(&mut self, bits: &[Bits]) -> (joined: Bits)
        requires
            bits@.len() <= u32::MAX,
            room(
                old(self)@,
                range_total(bits_ranges_of(bits@), bits@.len() as int) + bits@.len(),
                0,
            ),
        ensures
            ({
                let ranges = bits_ranges_of(bits@);
                let n = bits@.len();
                &&& n == 0 ==> joined@ == (BitsView { range: fresh_secret(old(self)@, 0), width: 1 })
                    && final(self)@ == old(self)@
                &&& n > 0 ==> joined@ == (BitsView {
                    range: SecretRange {
                        base: (old(self)@.next_secret + range_total(ranges, n as int)) as u32,
                        len: n as u32,
                    },
                    width: 1,
                }) && final(self)@ == extended(
                    old(self)@,
                    join_instructions(old(self)@, ranges),
                    range_total(ranges, n as int) + n,
                    0,
                )
            }),
    {
        let count = bits.len() as u32;
        if count == 0 {
            return Bits { range: self.alloc_secret(0), width: 1 };
        }
        let ghost start = self@;
        let ghost ranges = bits_ranges_of(bits@);
        let first = self.next_secret;
        let mut k: usize = 0;
        while k < bits.len()
            invariant
                k <= bits@.len(),
                count == bits@.len(),
                ranges == bits_ranges_of(bits@),
                first == start.next_secret,
                room(start, range_total(ranges, bits@.len() as int) + bits@.len(), 0),
                self@ == extended(
                    start,
                    join_instructions(start, ranges).take(k as int),
                    range_total(ranges, k as int),
                    0,
                ),
                self@.next_secret == start.next_secret + range_total(ranges, k as int),
            decreases bits@.len() - k,
        {
            proof {
                lemma_range_total_monotone(ranges, k + 1, bits@.len() as int);
            }
            let _negated = self.not(bits[k]);
            k = k + 1;
            proof {
                let all = join_instructions(start, ranges);
                assert(all.take(k as int) =~= all.take(k - 1).push(all[k - 1]));
                assert(self@.instructions =~= start.instructions + all.take(k as int));
            }
        }
        let flipped = Bits { range: SecretRange { base: first, len: count }, width: 1 };
        let joined = self.not(flipped);
        proof {
            let all = join_instructions(start, ranges);
            assert(all =~= all.take(bits@.len() as int).push(all[bits@.len() as int]));
            assert(self@.instructions =~= start.instructions + all);
        }
        joined
    }
}


// ---------------------------------------------------------------------
// Folds and comparisons
// ---------------------------------------------------------------------

/// The `AND` rounds folding `count` elements of `width` bits at `base`
/// down to one bit each, destinations allocated from `start`: round `j`
/// ands bit `j + 1` of each element into the previous round's result
/// (bit 0 for the first round).
pub open spec fn fold_instructions(start: u32, base: u32, width: u8, count: u32) -> Seq<InstructionView> {
    Seq::new(
        (width - 1) as nat,
        |j: int|
            InstructionView::AndS {
                pairs: Seq::new(
                    count as nat,
                    |e: int|
                        MulTriple {
                            dest: SecretRange { base: (start + j * count + e) as u32, len: 1 },
                            a: SecretRange {
                                base: if j == 0 {
                                    (base + e * width) as u32
                                } else {
                                    (start + (j - 1) * count + e) as u32
                                },
                                len: 1,
                            },
                            b: SecretRange { base: (base + e * width + j + 1) as u32, len: 1 },
                        },
                ),
            },
    )
}

/// What folding gives: the builder after it and the folded handle.
pub open spec fn fold_result(v: BuilderView, bits: BitsView) -> (BuilderView, BitsView) {
    let count = elements_of(bits.range, bits.width);
    let width = bits.width;
    if count == 0 {
        (v, BitsView { range: fresh_secret(v, 0), width: 1 })
    } else if width == 1 {
        (v, BitsView { range: bits.range, width: 1 })
    } else {
        (
            extended(
                v,
                fold_instructions(v.next_secret, bits.range.base, width, count),
                (width - 1) * count,
                0,
            ),
            BitsView {
                range: SecretRange { base: (v.next_secret + (width - 2) * count) as u32, len: count },
                width: 1,
            },
        )
    }
}

/// The `i`th pair of an `AND` round.
spec fn fold_pair(start: u32, base: u32, width: u8, count: u32, j: int, e: int) -> (Bits, Bits) {
    (
        Bits {
            range: SecretRange {
                base: if j == 0 {
                    (base + e * width) as u32
                } else {
                    (start + (j - 1) * count + e) as u32
                },
                len: 1,
            },
            width: 1,
        },
        Bits { range: SecretRange { base: (base + e * width + j + 1) as u32, len: 1 }, width: 1 },
    )
}

proof fn lemma_unit_batch(start: u32, lefts: Seq<SecretRange>, rights: Seq<SecretRange>)
    requires
        lefts.len() == rights.len(),
        forall|k: int| 0 <= k < lefts.len() ==> (#[trigger] lefts[k]).len == 1,
    ensures
        forall|k: int| 0 <= k <= lefts.len() ==> range_total(lefts, k) == k,
        batch_of(start, lefts, rights) == Seq::new(
            lefts.len(),
            |k: int|
                MulTriple {
                    dest: SecretRange { base: (start + k) as u32, len: 1 },
                    a: lefts[k],
                    b: rights[k],
                },
        ),
{
    assert forall|k: int| 0 <= k <= lefts.len() implies range_total(lefts, k) == k by {
        lemma_unit_total(lefts, k);
    }
    assert(batch_of(start, lefts, rights) =~= Seq::new(
        lefts.len(),
        |k: int|
            MulTriple {
                dest: SecretRange { base: (start + k) as u32, len: 1 },
                a: lefts[k],
                b: rights[k],
            },
    ));
}

proof fn lemma_unit_total(lefts: Seq<SecretRange>, k: int)
    requires
        0 <= k <= lefts.len(),
        forall|i: int| 0 <= i < lefts.len() ==> (#[trigger] lefts[i]).len == 1,
    ensures
        range_total(lefts, k) == k,
    decreases k,
{
    if k > 0 {
        lemma_unit_total(lefts, k - 1);
    }
}

impl ProgramBuilder {
    /// Fold `bits` (`count` elements, `width` registers each) down to
    /// one register per element via a sequential pairwise `AndS` chain:
    /// element `j`'s result is `1` iff every one of its `width` inputs
    /// was `1`. `width - 1` protocol rounds, each batched across every
    /// element at once.
    fn and_fold(&mut self, bits: Bits) -> (folded: Bits)
        requires
            bits@.range.base + elements_of(bits@.range, bits@.width) * bits@.width <= u32::MAX,
            bits@.width >= 2 ==> room(
                old(self)@,
                (bits@.width - 1) * elements_of(bits@.range, bits@.width),
                0,
            ),
        ensures
            (final(self)@, folded@) == fold_result(old(self)@, bits@),
    {
        let count = bits.len();
        let width = bits.width;
        if count == 0 || width == 0 {
            return Bits { range: self.alloc_secret(count), width: 1 };
        }
        if width == 1 {
            return Bits { range: bits.range, width: 1 };
        }
        let ghost start = self@;
        let base = bits.range.base;
        let first = self.next_secret;
        assert((width - 1) * count <= width * count) by (nonlinear_arith)
            requires
                width >= 2,
        ;
        let mut acc_base: u32 = first;
        let mut j: u8 = 0;
        while j < width - 1
            invariant
                0 <= j <= width - 1,
                width >= 2,
                count > 0,
                count == elements_of(bits@.range, bits@.width),
                width == bits@.width,
                base == bits@.range.base,
                first == start.next_secret,
                base + count * width <= u32::MAX,
                room(start, (width - 1) * count, 0),
                j > 0 ==> acc_base == start.next_secret + (j - 1) * count,
                self@ == extended(
                    start,
                    fold_instructions(start.next_secret, base, width, count).take(j as int),
                    j * count,
                    0,
                ),
                self@.next_secret == start.next_secret + j * count,
            decreases width - 1 - j,
        {
            assert((j + 1) * count <= (width - 1) * count) by (nonlinear_arith)
                requires
                    j + 1 <= width - 1,
            ;
            assert(j * count + count == (j + 1) * count) by (nonlinear_arith);
            let mut pairs: Vec<(Bits, Bits)> = Vec::new();
            let mut e: u32 = 0;
            while e < count
                invariant
                    e <= count,
                    count > 0,
                    0 <= j < width - 1,
                    base + count * width <= u32::MAX,
                    j > 0 ==> acc_base == start.next_secret + (j - 1) * count,
                    j > 0 ==> start.next_secret + j * count <= u32::MAX,
                    pairs@ == Seq::new(
                        e as nat,
                        |i: int| fold_pair(start.next_secret, base, width, count, j as int, i),
                    ),
                decreases count - e,
            {
                assert(e * width + width <= count * width) by (nonlinear_arith)
                    requires
                        e < count,
                ;
                let element_base = base + e * (width as u32);
                assert(j > 0 ==> (j - 1) * count + e < j * count) by (nonlinear_arith)
                    requires
                        e < count,
                ;
                let a = if j == 0 {
                    Bits { range: SecretRange { base: element_base, len: 1 }, width: 1 }
                } else {
                    Bits { range: SecretRange { base: acc_base + e, len: 1 }, width: 1 }
                };
                let b = Bits {
                    range: SecretRange { base: element_base + (j as u32) + 1, len: 1 },
                    width: 1,
                };
                pairs.push((a, b));
                e = e + 1;
                assert(pairs@ =~= Seq::new(
                    e as nat,
                    |i: int| fold_pair(start.next_secret, base, width, count, j as int, i),
                ));
            }
            proof {
                lemma_unit_batch(self@.next_secret, bit_lefts(pairs@), bit_rights(pairs@));
            }
            let results = self.and_many(pairs.as_slice());
            acc_base = results[0].range.base;
            j = j + 1;
            proof {
                let all = fold_instructions(start.next_secret, base, width, count);
                let s0 = (start.next_secret + (j - 1) * count) as u32;
                let lefts = bit_lefts(pairs@);
                let rights = bit_rights(pairs@);
                let got = batch_of(s0, lefts, rights);
                let want = all[j - 1]->AndS_pairs;
                assert(got.len() == want.len());
                assert forall|e: int| 0 <= e < got.len() implies got[e] == want[e] by {
                    assert(pairs@[e] == fold_pair(start.next_secret, base, width, count, j - 1, e));
                    assert(lefts[e] == pairs@[e].0@.range);
                    assert(rights[e] == pairs@[e].1@.range);
                }
                assert(got =~= want);
                assert(all.take(j as int) =~= all.take(j - 1).push(all[j - 1]));
                assert(self@.instructions =~= start.instructions + all.take(j as int));
            }
        }
        assert(fold_instructions(start.next_secret, base, width, count).take((width - 1) as int)
            =~= fold_instructions(start.next_secret, base, width, count));
        Bits { range: SecretRange { base: acc_base, len: count }, width: 1 }
    }
}


/// The bias a comparison adds before decomposing: `2^width`, or zero
/// once `width` passes the word.
pub open spec fn bias_of(width: u8) -> u64 {
    if width < 64 {
        1u64 << width
    } else {
        0
    }
}

fn bias(width: u8) -> (b: u64)
    ensures
        b == bias_of(width),
{
    if width < 64 {
        1u64 << width
    } else {
        0
    }
}

/// The builder and the decomposed handle after a comparison's shared
/// prefix: the difference, the bias constants, the biased difference,
/// and its `width`-bit decomposition.
pub open spec fn compare_prefix(v: BuilderView, a: SecretRange, b: SecretRange, bias: u64, width: u8) -> (
    BuilderView,
    BitsView,
) {
    let n = a.len;
    let diff = fresh_secret(v, n);
    let v1 = op_secret(v, n, InstructionView::SubS { dest: diff, a, b });
    let offset = fresh_clear(v1, n);
    let v2 = emitted(
        taken_clear(v1, n),
        InstructionView::LdC { dest: offset, values: Seq::new(n as nat, |i: int| bias) },
    );
    let biased = fresh_secret(v2, n);
    let v3 = op_secret(v2, n, InstructionView::AddC { dest: biased, a: diff, c: offset });
    let count = sat_mul(n, width as u32);
    let bits = fresh_secret(v3, count);
    let v4 = op_secret(v3, count, InstructionView::BitDec { dest: bits, src: biased, width });
    (v4, BitsView { range: bits, width })
}

/// The registers a fold of `count` bits at `width` allocates.
pub open spec fn fold_cost(count: u32, width: u8) -> int {
    if width >= 2 {
        (width - 1) * elements_of(SecretRange { base: 0, len: count }, width)
    } else {
        0
    }
}

/// What `eq` gives: the builder after it and the equality bits.
pub open spec fn eq_result(v: BuilderView, a: SecretRange, b: SecretRange, width: u8) -> (
    BuilderView,
    BitsView,
) {
    let (v4, bits) = compare_prefix(v, a, b, bias_of(width), width);
    let flipped = fresh_secret(v4, bits.range.len);
    let v5 = op_secret(v4, bits.range.len, InstructionView::NotS { dest: flipped, a: bits.range });
    fold_result(v5, BitsView { range: flipped, width })
}

/// What `lt` gives: the builder after it and the comparison bits.
pub open spec fn lt_result(v: BuilderView, a: SecretRange, b: SecretRange, width: u8) -> (
    BuilderView,
    BitsView,
) {
    let (v4, bits) = compare_prefix(v, a, b, bias_of(width), width.saturating_add(1));
    let (v5, lane) = gather_result(v4, bits, width);
    let flipped = fresh_secret(v5, lane.range.len);
    (
        op_secret(v5, lane.range.len, InstructionView::NotS { dest: flipped, a: lane.range }),
        BitsView { range: flipped, width: 1 },
    )
}

/// The top bit of a `width`-bit difference biased by `2^width` is the
/// comparison's "no borrow": for `x` and `y` in `[0, 2^width)`, bit
/// `width` of `x - y + 2^width` is 1 exactly when `x >= y`, so its
/// negation is 1 exactly when `x < y`.
pub proof fn lemma_biased_top_bit(x: int, y: int, width: nat)
    requires
        0 <= x < place(width),
        0 <= y < place(width),
    ensures
        1 - ((x - y + place(width)) / place(width)) % 2 == (if x < y { 1int } else { 0int }),
{
    lemma_place_positive(width);
    let p = place(width);
    let d = x - y + p;
    if x < y {
        vstd::arithmetic::div_mod::lemma_fundamental_div_mod_converse(d, p, 0, d);
        vstd::arithmetic::div_mod::lemma_fundamental_div_mod_converse(0, 2, 0, 0);
    } else {
        vstd::arithmetic::div_mod::lemma_fundamental_div_mod_converse(d, p, 1, d - p);
        vstd::arithmetic::div_mod::lemma_fundamental_div_mod_converse(1, 2, 0, 1);
    }
}

/// Law: what `lt` lays down for `n` elements of `width < 64` bits, one
/// instruction after another, and which registers its result occupies.
/// It subtracts `b` from `a`; loads `n` copies of `2^width`; adds them to
/// the difference; decomposes that sum into `width + 1` bits per element;
/// copies out bit `width` of each element (negated) and negates the run
/// back, gathering the top bits; and, last, negates the gathered lane into
/// the result. By `lemma_biased_top_bit`, result register `i` is then 1
/// exactly when the low `width` bits of `a_i` are below those of `b_i`.
pub proof fn lemma_lt_negates_the_biased_top_bit(v: BuilderView, a: SecretRange, b: SecretRange, width: u8)
    requires
        0 < a.len,
        width < 64,
        v.next_secret + 5 * a.len + a.len * (width + 1) <= u32::MAX,
        v.next_clear + a.len <= u32::MAX,
    ensures
        ({
            let (after, less) = lt_result(v, a, b, width);
            let n = a.len as int;
            let w1 = width + 1;
            let k = v.instructions.len() as int;
            let s = v.next_secret as int;
            let bits = s + 2 * n;
            let copies = bits + n * w1;
            let gathered = copies + n;
            &&& after.instructions.len() == k + n + 6
            &&& after.instructions.subrange(0, k) == v.instructions
            &&& after.instructions[k] == InstructionView::SubS {
                dest: SecretRange { base: s as u32, len: n as u32 },
                a,
                b,
            }
            &&& after.instructions[k + 1] == InstructionView::LdC {
                dest: ClearRange { base: v.next_clear, len: n as u32 },
                values: Seq::new(n as nat, |i: int| 1u64 << width),
            }
            &&& after.instructions[k + 2] == InstructionView::AddC {
                dest: SecretRange { base: (s + n) as u32, len: n as u32 },
                a: SecretRange { base: s as u32, len: n as u32 },
                c: ClearRange { base: v.next_clear, len: n as u32 },
            }
            &&& after.instructions[k + 3] == InstructionView::BitDec {
                dest: SecretRange { base: bits as u32, len: (n * w1) as u32 },
                src: SecretRange { base: (s + n) as u32, len: n as u32 },
                width: w1 as u8,
            }
            &&& forall|e: int|
                0 <= e < n ==> #[trigger] after.instructions[k + 4 + e] == InstructionView::NotS {
                    dest: SecretRange { base: (copies + e) as u32, len: 1 },
                    a: SecretRange { base: (bits + e * w1 + width) as u32, len: 1 },
                }
            &&& after.instructions[k + 4 + n] == InstructionView::NotS {
                dest: SecretRange { base: gathered as u32, len: n as u32 },
                a: SecretRange { base: copies as u32, len: n as u32 },
            }
            &&& after.instructions[k + 5 + n] == InstructionView::NotS {
                dest: less.range,
                a: SecretRange { base: gathered as u32, len: n as u32 },
            }
            &&& less.range == SecretRange { base: (gathered + n) as u32, len: n as u32 }
            &&& less.width == 1
            &&& after.next_secret == gathered + 2 * n
        }),
{
    let n = a.len as int;
    let w1: u8 = (width + 1) as u8;
    assert(width.saturating_add(1) == w1);
    assert(n * (width + 1) <= u32::MAX) by (nonlinear_arith)
        requires
            v.next_secret + 5 * a.len + a.len * (width + 1) <= u32::MAX,
            n == a.len,
    ;
    assert(sat_mul(a.len, w1 as u32) == n * (width + 1));
    assert((n * (width + 1)) / (w1 as int) == n) by (nonlinear_arith)
        requires
            w1 == width + 1,
            w1 > 0,
    ;
    let (v4, dec) = compare_prefix(v, a, b, bias_of(width), w1);
    let k = v.instructions.len() as int;
    let s = v.next_secret as int;
    assert(bias_of(width) == 1u64 << width);
    assert(v4.instructions.len() == k + 4);
    assert(v4.instructions.subrange(0, k) =~= v.instructions);
    assert(v4.next_secret == s + 2 * n + n * (width + 1));
    assert(dec.range == SecretRange { base: (s + 2 * n) as u32, len: (n * (width + 1)) as u32 });
    assert(dec.width == w1);
    assert(elements_of(dec.range, dec.width) == n);
    let (v5, lane) = gather_result(v4, dec, width);
    let more = gather_instructions(v4, dec, width, n as u32);
    assert(v5.instructions == v4.instructions + more);
    assert(more.len() == n + 1);
    assert(v5.next_secret == v4.next_secret + 2 * n);
    assert forall|e: int| 0 <= e < n implies #[trigger] v5.instructions[k + 4 + e] == more[e] by {}
    assert(v5.instructions[k + 4 + n] == more[n]);
    let (after, less) = lt_result(v, a, b, width);
    assert(after.instructions == v5.instructions.push(InstructionView::NotS { dest: less.range, a: lane.range }));
    assert(after.instructions.subrange(0, k) =~= v.instructions);
    assert forall|e: int| 0 <= e < n implies #[trigger] after.instructions[k + 4 + e] == more[e] by {
        assert(after.instructions[k + 4 + e] == v5.instructions[k + 4 + e]);
    }
    assert(after.instructions[k + 4 + n] == more[n]);
    assert(after.instructions[k] == v4.instructions[k]);
    assert(after.instructions[k + 1] == v4.instructions[k + 1]);
    assert(after.instructions[k + 2] == v4.instructions[k + 2]);
    assert(after.instructions[k + 3] == v4.instructions[k + 3]);
    let w1i = width + 1;
    let bits = s + 2 * n;
    let copies = bits + n * w1i;
    let gathered = copies + n;
    assert(after.instructions.len() == k + n + 6);
    assert(after.instructions[k] == InstructionView::SubS {
        dest: SecretRange { base: s as u32, len: n as u32 },
        a,
        b,
    });
    assert(after.instructions[k + 1] == InstructionView::LdC {
        dest: ClearRange { base: v.next_clear, len: n as u32 },
        values: Seq::new(n as nat, |i: int| 1u64 << width),
    });
    assert(after.instructions[k + 2] == InstructionView::AddC {
        dest: SecretRange { base: (s + n) as u32, len: n as u32 },
        a: SecretRange { base: s as u32, len: n as u32 },
        c: ClearRange { base: v.next_clear, len: n as u32 },
    });
    assert(after.instructions[k + 3] == InstructionView::BitDec {
        dest: SecretRange { base: bits as u32, len: (n * w1i) as u32 },
        src: SecretRange { base: (s + n) as u32, len: n as u32 },
        width: w1i as u8,
    });
    assert forall|e: int| 0 <= e < n implies #[trigger] after.instructions[k + 4 + e] == InstructionView::NotS {
        dest: SecretRange { base: (copies + e) as u32, len: 1 },
        a: SecretRange { base: (bits + e * w1i + width) as u32, len: 1 },
    } by {
        assert(after.instructions[k + 4 + e] == more[e]);
    }
    assert(after.instructions[k + 4 + n] == InstructionView::NotS {
        dest: SecretRange { base: gathered as u32, len: n as u32 },
        a: SecretRange { base: copies as u32, len: n as u32 },
    });
    assert(less.range == SecretRange { base: (gathered + n) as u32, len: n as u32 });
    assert(lane.range == SecretRange { base: gathered as u32, len: n as u32 });
    assert(after.instructions[k + 5 + n] == InstructionView::NotS {
        dest: less.range,
        a: SecretRange { base: gathered as u32, len: n as u32 },
    });
    assert(less.width == 1);
    assert(gathered + 2 * n <= u32::MAX);
    assert(v5.next_secret == gathered + n);
    assert(after.next_secret == gathered + 2 * n);
}

impl ProgramBuilder {
    /// Element-wise equality over the low `width` bits of `a` and
    /// `b`. Biases `a - b` by `2^width` before decomposing: `SubS`
    /// wraps a negative difference to `p - (b - a)` in the field, and
    /// with `p` astronomically larger than `2^width` the biased value
    /// always lands in `(0, 2^(width+1))`, so its low `width` bits are
    /// exactly `(a - b) mod 2^width` in every case. `width` rounds
    /// (one `bit_dec`, then `width - 1` folding `AndS` rounds).
    pub fn eq(&mut self, a: Secret, b: Secret, width: u8) -> (equal: Bits)
        requires
            room(
                old(self)@,
                2 * a@.len + 2 * sat_mul(a@.len, width as u32) + fold_cost(
                    sat_mul(a@.len, width as u32),
                    width,
                ),
                a@.len as int,
            ),
        ensures
            (final(self)@, equal@) == eq_result(old(self)@, a@, b@, width),
    {
        let count = a.range.len;
        let bias = bias(width);
        let diff = self.sub(a, b);
        let values = repeated(bias, count);
        let offset = self.constants(values.as_slice());
        let biased = self.add_clear(diff, offset);
        let diff_bits = self.bit_dec(biased, width);
        let equal_bits = self.not(diff_bits);
        proof {
            let bc = sat_mul(count, width as u32);
            let g = elements_of(equal_bits@.range, width);
            if width > 0 {
                assert(g * width <= bc) by (nonlinear_arith)
                    requires
                        width > 0,
                        g == bc / (width as u32),
                ;
            } else {
                assert(g == 0);
            }
            assert(equal_bits@.range.base == old(self)@.next_secret + 2 * count + bc);
            assert(equal_bits@.range.base + g * width <= u32::MAX);
        }
        self.and_fold(equal_bits)
    }

    /// Element-wise unsigned less-than over the low `width` bits of
    /// `a` and `b`. `SubS` wraps `a - b < 0` to `p - (b - a)` in the
    /// field. Adding `2^width` before decomposing lands the biased
    /// value in `(0, 2^width)` when `a < b` and in `[2^width,
    /// 2^(width+1))` when `a >= b`, so the decomposed value's top bit is
    /// exactly the comparison's borrow. `width + 1` rounds (one
    /// `bit_dec`, the rest local).
    pub fn lt(&mut self, a: Secret, b: Secret, width: u8) -> (less: Bits)
        requires
            room(
                old(self)@,
                2 * a@.len + sat_mul(a@.len, width.saturating_add(1) as u32) + 3 * elements_of(
                    SecretRange { base: 0, len: sat_mul(a@.len, width.saturating_add(1) as u32) },
                    width.saturating_add(1),
                ),
                a@.len as int,
            ),
        ensures
            (final(self)@, less@) == lt_result(old(self)@, a@, b@, width),
    {
        let count = a.range.len;
        let bias = bias(width);
        let diff = self.sub(a, b);
        let values = repeated(bias, count);
        let offset = self.constants(values.as_slice());
        let biased = self.add_clear(diff, offset);
        let decomposed = self.bit_dec(biased, width.saturating_add(1));
        proof {
            let w2 = width.saturating_add(1);
            let bc = sat_mul(count, w2 as u32);
            let g = elements_of(decomposed@.range, w2);
            assert(g * w2 <= bc) by (nonlinear_arith)
                requires
                    w2 > 0,
                    g == bc / (w2 as u32),
            ;
            if g > 0 {
                assert((g - 1) * w2 + width <= g * w2) by (nonlinear_arith)
                    requires
                        width <= w2,
                        g > 0,
                ;
            }
        }
        let borrow_out = self.gather(decomposed, width);
        self.not(borrow_out)
    }
}

/// `count` copies of `value`.
fn repeated(value: u64, count: u32) -> (values: Vec<u64>)
    ensures
        values@ == Seq::new(count as nat, |i: int| value),
{
    let mut values: Vec<u64> = Vec::new();
    let mut i: u32 = 0;
    while i < count
        invariant
            i <= count,
            values@ == Seq::new(i as nat, |j: int| value),
        decreases count - i,
    {
        values.push(value);
        i = i + 1;
        assert(values@ =~= Seq::new(i as nat, |j: int| value));
    }
    values
}

} // verus!
