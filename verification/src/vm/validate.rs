//! Static program validation: parse, don't validate.
//!
//! A [`ValidProgram`] is the only thing the executor accepts, so every
//! runtime invariant - bounds, operand shapes, def-before-use, exactly
//! one terminal `Out` - is discharged here, once, before any protocol
//! round runs. The check also prices the program: the [`Budget`] tells
//! the engine how much preprocessing material to generate up front.
//!
//! Every counter of a [`Budget`] saturates at `usize::MAX` rather than
//! wrap.

use crate::vm::codec::{
    decode, digest, encode, encoding_of, lemma_program_round_trip, pairs_shaped, program_of,
    sha3_256, well_shaped, ProgramDigest,
};
use crate::vm::isa::VERSION;
use crate::vm::error::{Bank, CodecError, ValidationError, VmError};
use crate::vm::isa::{
    ClearRange, ClientId, FixedPrecision, InputDecl, Instruction, InstructionView, MulTriple,
    Program, ProgramView, SecretRange,
};
use vstd::prelude::*;

verus! {

/// Instruction ceiling: bounds worst-case execution work per program.
pub const MAX_INSTRUCTIONS: usize = 4096;

/// Registers per bank: bounds executor memory (one field element each).
pub const BANK_SIZE: u64 = 65536;

/// Widest fixed-point format a program may name. Keeps the engine's
/// statistical-security headroom (`kappa + 2k - f` bits) far inside
/// the field's bit width.
pub const MAX_PRECISION_BITS: u8 = 32;

/// Beaver multiplications of the S-box mux tree past its first, local
/// level: `64 + 32 + 16 + 8 + 4 + 2 + 1` per byte.
pub const SBOX_ONLINE_MUXES: usize = 127;

/// Beaver triples one S-box byte consumes: the eight mask XORs, the mux
/// tree, and the two per bit of the follow-up decomposition.
pub const SBOX_TRIPLES_PER_BYTE: usize = 151;

/// Shared random bits one S-box byte consumes: the mask byte and the
/// follow-up decomposition.
pub const SBOX_PRANDBITS_PER_BYTE: usize = 16;

/// Beaver triples one byte XOR consumes: two width-8 decompositions at
/// two per bit, then eight bit products.
pub const BYTE_XOR_TRIPLES: usize = 40;

/// Shared random bits one byte XOR consumes: two width-8 decompositions.
pub const BYTE_XOR_PRANDBITS: usize = 16;

/// Preprocessing material one program consumes.
///
/// Fixed-point truncation is priced per element from the engine's own
/// accounting: each truncation burns `f` shared random bits and one
/// shared random integer, and generating each random bit itself costs
/// one Beaver triple and one random share.
#[derive(Clone, Copy, Debug, PartialEq, Eq, Structural)]
pub struct Budget {
    /// Beaver triples: one per element-wise secret multiplication,
    /// plus the random-bit generation cost of fixed-point truncation.
    pub triples: usize,
    /// Random mask shares: one per declared input element, plus the
    /// random-bit generation cost of fixed-point truncation.
    pub random_shares: usize,
    /// Shared random bits: `f` per fixed-point truncation, one per
    /// decomposed bit.
    pub prandbits: usize,
    /// Shared random integers: one per fixed-point truncation.
    pub prandints: usize,
    /// S-box table lookups: one per substituted byte.
    pub sbox_tables: usize,
}

/// The budget of a program that consumes nothing.
pub open spec fn zero_budget() -> Budget {
    Budget { triples: 0, random_shares: 0, prandbits: 0, prandints: 0, sbox_tables: 0 }
}

impl Default for Budget {
    fn default() -> (budget: Self)
        ensures
            budget == zero_budget(),
    {
        Budget { triples: 0, random_shares: 0, prandbits: 0, prandints: 0, sbox_tables: 0 }
    }
}

/// `a + b`, held at `usize::MAX`.
pub open spec fn sat(a: usize, b: int) -> usize {
    if a + b > usize::MAX {
        usize::MAX
    } else {
        (a + b) as usize
    }
}

// ---------------------------------------------------------------------
// Registers written so far
// ---------------------------------------------------------------------

/// Why a run of registers is out of bounds, if it is.
pub open spec fn bounds_error(index: usize, bank: Bank, base: u32, len: u32) -> Option<
    ValidationError,
> {
    if len == 0 {
        Some(ValidationError::EmptyRange { index })
    } else if base + len > BANK_SIZE {
        Some(ValidationError::BankExceeded { bank, end: (base + len) as u64, max: BANK_SIZE })
    } else {
        None
    }
}

/// Why a secret run is out of bounds, if it is.
pub open spec fn secret_bounds(index: usize, range: SecretRange) -> Option<ValidationError> {
    bounds_error(index, Bank::Secret, range.base, range.len)
}

/// Why a clear run is out of bounds, if it is.
pub open spec fn clear_bounds(index: usize, range: ClearRange) -> Option<ValidationError> {
    bounds_error(index, Bank::Clear, range.base, range.len)
}

/// The first register of `base..base + len` not yet written.
pub open spec fn first_unwritten(written: Seq<bool>, base: int, len: int) -> Option<int>
    decreases len,
{
    if len <= 0 {
        None
    } else if !written[base] {
        Some(base)
    } else {
        first_unwritten(written, base + 1, len - 1)
    }
}

/// Why reading `base..base + len` is refused, if it is.
pub open spec fn read_error(
    written: Seq<bool>,
    index: usize,
    bank: Bank,
    base: u32,
    len: u32,
) -> Option<ValidationError> {
    match first_unwritten(written, base as int, len as int) {
        Some(register) => Some(
            ValidationError::UninitializedRead { index, bank, register: register as u64 },
        ),
        None => None,
    }
}

/// `written` after writing `base..base + len`.
pub open spec fn marked(written: Seq<bool>, base: int, len: int) -> Seq<bool> {
    Seq::new(written.len(), |r: int| if base <= r < base + len { true } else { written[r] })
}

/// The error, if there is one, else what follows.
pub open spec fn guard<T>(error: Option<ValidationError>, then: Result<T, ValidationError>) -> Result<
    T,
    ValidationError,
> {
    match error {
        Some(e) => Err(e),
        None => then,
    }
}

proof fn lemma_first_unwritten(written: Seq<bool>, base: int, len: int)
    ensures
        first_unwritten(written, base, len) is None <==> forall|r: int|
            base <= r < base + len ==> #[trigger] written[r],
        first_unwritten(written, base, len) matches Some(r) ==> base <= r < base + len
            && !written[r],
    decreases len,
{
    if len > 0 {
        lemma_first_unwritten(written, base + 1, len - 1);
        if written[base] {
            assert forall|r: int| base + 1 <= r < base + len && written[r] implies true by {}
        }
    }
}

/// Written-register tracking for one bank.
pub struct WriteSet {
    bank: Bank,
    written: Vec<bool>,
}

impl WriteSet {
    /// The bank this set tracks.
    pub closed spec fn bank_of(&self) -> Bank {
        self.bank
    }

    /// Which registers of the bank have been written.
    pub closed spec fn written_of(&self) -> Seq<bool> {
        self.written@
    }

    /// A set over the whole bank.
    pub closed spec fn wf(&self) -> bool {
        self.written@.len() == BANK_SIZE
    }

    /// A set for `bank` with nothing written.
    pub fn new(bank: Bank) -> (set: Self)
        ensures
            set.wf(),
            set.bank_of() == bank,
            set.written_of() == Seq::new(BANK_SIZE as nat, |r: int| false),
    {
        let mut written: Vec<bool> = Vec::new();
        let mut i: usize = 0;
        while i < BANK_SIZE as usize
            invariant
                i <= BANK_SIZE,
                written@ == Seq::new(i as nat, |r: int| false),
            decreases BANK_SIZE - i,
        {
            written.push(false);
            i = i + 1;
            assert(written@ =~= Seq::new(i as nat, |r: int| false));
        }
        WriteSet { bank, written }
    }

    /// Record `base..base + len` as written.
    pub fn mark(&mut self, base: u32, len: u32)
        requires
            old(self).wf(),
            base + len <= BANK_SIZE,
        ensures
            final(self).wf(),
            final(self).bank_of() == old(self).bank_of(),
            final(self).written_of() == marked(old(self).written_of(), base as int, len as int),
    {
        let ghost before = self.written@;
        let end = base + len;
        let mut register = base;
        while register < end
            invariant
                base <= register <= end,
                end == base + len,
                end <= BANK_SIZE,
                self.written@.len() == BANK_SIZE,
                self.bank == old(self).bank,
                self.written@ == marked(before, base as int, register - base),
            decreases end - register,
        {
            self.written.set(register as usize, true);
            register = register + 1;
            assert(self.written@ =~= marked(before, base as int, register - base));
        }
    }

    /// Refuse a read of `base..base + len` unless every register in it
    /// has been written: the first one that has not is reported.
    pub fn require(&self, index: usize, base: u32, len: u32) -> (checked: Result<(), ValidationError>)
        requires
            self.wf(),
            base + len <= BANK_SIZE,
        ensures
            match read_error(self.written_of(), index, self.bank_of(), base, len) {
                Some(e) => checked == Err::<(), ValidationError>(e),
                None => checked is Ok,
            },
    {
        let end = base + len;
        let mut register = base;
        while register < end
            invariant
                base <= register <= end,
                end == base + len,
                end <= BANK_SIZE,
                self.wf(),
                first_unwritten(self.written@, base as int, len as int) == first_unwritten(
                    self.written@,
                    register as int,
                    end - register,
                ),
            decreases end - register,
        {
            if !self.written[register as usize] {
                return Err(
                    ValidationError::UninitializedRead {
                        index,
                        bank: self.bank,
                        register: register as u64,
                    },
                );
            }
            register = register + 1;
        }
        Ok(())
    }
}

/// Refuse an empty secret run or one past the end of its bank.
pub fn check_secret_bounds(index: usize, range: &SecretRange) -> (checked: Result<(), ValidationError>)
    ensures
        match secret_bounds(index, *range) {
            Some(e) => checked == Err::<(), ValidationError>(e),
            None => checked is Ok,
        },
{
    if range.len == 0 {
        return Err(ValidationError::EmptyRange { index });
    }
    if range.end() > BANK_SIZE {
        return Err(ValidationError::BankExceeded { bank: Bank::Secret, end: range.end(), max: BANK_SIZE });
    }
    Ok(())
}

/// Refuse an empty clear run or one past the end of its bank.
pub fn check_clear_bounds(index: usize, range: &ClearRange) -> (checked: Result<(), ValidationError>)
    ensures
        match clear_bounds(index, *range) {
            Some(e) => checked == Err::<(), ValidationError>(e),
            None => checked is Ok,
        },
{
    if range.len == 0 {
        return Err(ValidationError::EmptyRange { index });
    }
    if range.end() > BANK_SIZE {
        return Err(ValidationError::BankExceeded { bank: Bank::Clear, end: range.end(), max: BANK_SIZE });
    }
    Ok(())
}


// ---------------------------------------------------------------------
// Input declarations
// ---------------------------------------------------------------------

/// Whether two secret runs share a register.
pub open spec fn overlaps(claimed: SecretRange, range: SecretRange) -> bool {
    range.base < claimed.base + claimed.len && range.base + range.len > claimed.base
}

/// A bank with nothing written.
pub open spec fn unwritten() -> Seq<bool> {
    Seq::new(BANK_SIZE as nat, |r: int| false)
}

/// Why the `n`th declaration is refused given the ones before it, if
/// it is: its run's bounds, a client already declared, or a run that
/// overlaps an earlier one.
pub open spec fn input_error(decls: Seq<InputDecl>, n: int) -> Option<ValidationError> {
    let decl = decls[n];
    match secret_bounds(0, decl.dest) {
        Some(e) => Some(e),
        None => if exists|j: int| 0 <= j < n && #[trigger] decls[j].client == decl.client {
            Some(ValidationError::DuplicateInputClient { client: decl.client })
        } else if exists|j: int| 0 <= j < n && overlaps(#[trigger] decls[j].dest, decl.dest) {
            Some(ValidationError::OverlappingInputs { client: decl.client })
        } else {
            None
        },
    }
}

/// The secret registers the first `n` declarations write and the random
/// shares they cost, or why one of them is refused.
pub open spec fn inputs_state(decls: Seq<InputDecl>, n: int) -> Result<(Seq<bool>, usize), ValidationError>
    decreases n,
{
    if n <= 0 {
        Ok((unwritten(), 0))
    } else {
        match inputs_state(decls, n - 1) {
            Err(e) => Err(e),
            Ok((written, shares)) => match input_error(decls, n - 1) {
                Some(e) => Err(e),
                None => Ok(
                    (
                        marked(written, decls[n - 1].dest.base as int, decls[n - 1].dest.len as int),
                        sat(shares, decls[n - 1].dest.len as int),
                    ),
                ),
            },
        }
    }
}

proof fn lemma_inputs_error_sticks(decls: Seq<InputDecl>, k: int, m: int)
    requires
        0 <= k <= m,
        inputs_state(decls, k) is Err,
    ensures
        inputs_state(decls, m) == inputs_state(decls, k),
    decreases m - k,
{
    if m > k {
        lemma_inputs_error_sticks(decls, k, m - 1);
    }
}

/// Check every input declaration in order, marking the registers each
/// feeds, and count the random mask shares they cost.
#[verifier::loop_isolation(false)]
fn check_inputs(inputs: &[InputDecl], secret: &mut WriteSet) -> (shares: Result<usize, ValidationError>)
    requires
        old(secret).wf(),
        old(secret).written_of() == unwritten(),
    ensures
        final(secret).wf(),
        final(secret).bank_of() == old(secret).bank_of(),
        match shares {
            Ok(n) => inputs_state(inputs@, inputs@.len() as int) == Ok::<
                (Seq<bool>, usize),
                ValidationError,
            >((final(secret).written_of(), n)),
            Err(e) => inputs_state(inputs@, inputs@.len() as int) == Err::<
                (Seq<bool>, usize),
                ValidationError,
            >(e),
        },
{
    let mut random_shares: usize = 0;
    let mut i: usize = 0;
    while i < inputs.len()
        invariant
            i <= inputs.len(),
            secret.wf(),
            secret.bank_of() == old(secret).bank_of(),
            inputs_state(inputs@, i as int) == Ok::<(Seq<bool>, usize), ValidationError>(
                (secret.written_of(), random_shares),
            ),
        decreases inputs.len() - i,
    {
        let decl = inputs[i];
        let ghost n = i as int;
        match check_secret_bounds(0, &decl.dest) {
            Ok(()) => {},
            Err(e) => {
                assert(input_error(inputs@, n) == Some(e));
                proof {
                    lemma_inputs_error_sticks(inputs@, n + 1, inputs@.len() as int);
                }
                return Err(e);
            },
        }
        let mut j: usize = 0;
        while j < i
            invariant
                j <= i < inputs.len(),
                decl == inputs@[i as int],
                forall|k: int| 0 <= k < j ==> #[trigger] inputs@[k].client != decl.client,
            decreases i - j,
        {
            if inputs[j].client == decl.client {
                let e = ValidationError::DuplicateInputClient { client: decl.client };
                assert(inputs@[j as int].client == decl.client);
                assert(input_error(inputs@, n) == Some(e));
                proof {
                    lemma_inputs_error_sticks(inputs@, n + 1, inputs@.len() as int);
                }
                return Err(e);
            }
            j = j + 1;
        }
        let start = decl.dest.base as u64;
        let end = decl.dest.end();
        let mut j: usize = 0;
        while j < i
            invariant
                j <= i < inputs.len(),
                decl == inputs@[i as int],
                start == decl.dest.base,
                end == decl.dest.base + decl.dest.len,
                forall|k: int| 0 <= k < j ==> !overlaps(#[trigger] inputs@[k].dest, decl.dest),
            decreases i - j,
        {
            let claimed = inputs[j].dest;
            if start < claimed.end() && end > claimed.base as u64 {
                let e = ValidationError::OverlappingInputs { client: decl.client };
                assert(overlaps(inputs@[j as int].dest, decl.dest));
                assert(input_error(inputs@, n) == Some(e));
                proof {
                    lemma_inputs_error_sticks(inputs@, n + 1, inputs@.len() as int);
                }
                return Err(e);
            }
            j = j + 1;
        }
        assert(input_error(inputs@, n) is None);
        secret.mark(decl.dest.base, decl.dest.len);
        random_shares = random_shares.saturating_add(decl.dest.len as usize);
        i = i + 1;
    }
    assert(inputs@.len() == i);
    Ok(random_shares)
}


// ---------------------------------------------------------------------
// The per-instruction checks
// ---------------------------------------------------------------------

/// What a validation pass knows after a prefix of the program: which
/// registers of each bank are written, the accrued price, and the
/// pinned fixed-point format.
pub struct CheckState {
    pub clear: Seq<bool>,
    pub secret: Seq<bool>,
    pub budget: Budget,
    pub fixed: Option<FixedPrecision>,
}

/// `st` with a secret run written.
pub open spec fn write_secret(st: CheckState, range: SecretRange) -> CheckState {
    CheckState { secret: marked(st.secret, range.base as int, range.len as int), ..st }
}

/// `st` with a clear run written.
pub open spec fn write_clear(st: CheckState, range: ClearRange) -> CheckState {
    CheckState { clear: marked(st.clear, range.base as int, range.len as int), ..st }
}

/// `st` with more preprocessing material charged.
pub open spec fn charged(
    st: CheckState,
    triples: int,
    random_shares: int,
    prandbits: int,
    prandints: int,
    sbox_tables: int,
) -> CheckState {
    CheckState {
        budget: Budget {
            triples: sat(st.budget.triples, triples),
            random_shares: sat(st.budget.random_shares, random_shares),
            prandbits: sat(st.budget.prandbits, prandbits),
            prandints: sat(st.budget.prandints, prandints),
            sbox_tables: sat(st.budget.sbox_tables, sbox_tables),
        },
        ..st
    }
}

/// The price of `elements` probabilistic truncations at `precision`:
/// `f` random bits each, one triple and one random share per bit, and
/// one random integer each.
pub open spec fn truncated(st: CheckState, elements: int, precision: FixedPrecision) -> CheckState {
    let bits = elements * precision.f;
    charged(st, bits, bits, bits, elements, 0)
}

/// Why a secret read is refused, if it is.
pub open spec fn secret_read(st: CheckState, index: usize, range: SecretRange) -> Option<ValidationError> {
    read_error(st.secret, index, Bank::Secret, range.base, range.len)
}

/// Why a clear read is refused, if it is.
pub open spec fn clear_read(st: CheckState, index: usize, range: ClearRange) -> Option<ValidationError> {
    read_error(st.clear, index, Bank::Clear, range.base, range.len)
}

/// `LdC`: immediates land in clear registers, one per value.
pub open spec fn ldc_step(st: CheckState, index: usize, dest: ClearRange, count: int) -> Result<
    CheckState,
    ValidationError,
> {
    guard(
        clear_bounds(index, dest),
        if count != dest.len {
            Err(ValidationError::LengthMismatch { index })
        } else {
            Ok(write_clear(st, dest))
        },
    )
}

/// Two written secret runs into a fresh one of the same length.
pub open spec fn binary_step(
    st: CheckState,
    index: usize,
    dest: SecretRange,
    a: SecretRange,
    b: SecretRange,
) -> Result<CheckState, ValidationError> {
    guard(
        secret_bounds(index, dest),
        guard(
            secret_bounds(index, a),
            guard(
                secret_bounds(index, b),
                if a.len != dest.len || b.len != dest.len {
                    Err(ValidationError::LengthMismatch { index })
                } else {
                    guard(
                        secret_read(st, index, a),
                        guard(secret_read(st, index, b), Ok(write_secret(st, dest))),
                    )
                },
            ),
        ),
    )
}

/// A written secret run against a written clear run.
pub open spec fn clear_operand_step(
    st: CheckState,
    index: usize,
    dest: SecretRange,
    a: SecretRange,
    c: ClearRange,
) -> Result<CheckState, ValidationError> {
    guard(
        secret_bounds(index, dest),
        guard(
            secret_bounds(index, a),
            guard(
                clear_bounds(index, c),
                if a.len != dest.len || c.len != dest.len {
                    Err(ValidationError::LengthMismatch { index })
                } else {
                    guard(
                        secret_read(st, index, a),
                        guard(clear_read(st, index, c), Ok(write_secret(st, dest))),
                    )
                },
            ),
        ),
    )
}

/// The first `n` pairs of a batch, each checked like a binary secret op
/// and priced at one triple per element.
pub open spec fn pairs_step(st: CheckState, index: usize, pairs: Seq<MulTriple>, n: int) -> Result<
    CheckState,
    ValidationError,
>
    decreases n,
{
    if n <= 0 {
        Ok(st)
    } else {
        match pairs_step(st, index, pairs, n - 1) {
            Err(e) => Err(e),
            Ok(s) => match binary_step(s, index, pairs[n - 1].dest, pairs[n - 1].a, pairs[n - 1].b) {
                Err(e) => Err(e),
                Ok(s2) => Ok(charged(s2, pairs[n - 1].dest.len as int, 0, 0, 0, 0)),
            },
        }
    }
}

/// `MulS` / `AndS` / `XorS`: a non-empty batch of binary secret ops.
pub open spec fn batch_step(st: CheckState, index: usize, pairs: Seq<MulTriple>) -> Result<
    CheckState,
    ValidationError,
> {
    if pairs.len() == 0 {
        Err(ValidationError::EmptyRange { index })
    } else {
        pairs_step(st, index, pairs, pairs.len() as int)
    }
}

/// Judge a fixed-point format and hold the program to a single one.
pub open spec fn precision_step(st: CheckState, index: usize, precision: FixedPrecision) -> Result<
    CheckState,
    ValidationError,
> {
    if precision.f == 0 || precision.k <= precision.f || precision.k > MAX_PRECISION_BITS {
        Err(ValidationError::InvalidPrecision { index })
    } else {
        match st.fixed {
            Some(existing) => if existing != precision {
                Err(ValidationError::MixedPrecision { index })
            } else {
                Ok(st)
            },
            None => Ok(CheckState { fixed: Some(precision), ..st }),
        }
    }
}

/// `FpMulS`: a binary secret op plus one truncation per element.
pub open spec fn fp_mul_step(
    st: CheckState,
    index: usize,
    dest: SecretRange,
    a: SecretRange,
    b: SecretRange,
    precision: FixedPrecision,
) -> Result<CheckState, ValidationError> {
    match precision_step(st, index, precision) {
        Err(e) => Err(e),
        Ok(s1) => match binary_step(s1, index, dest, a, b) {
            Err(e) => Err(e),
            Ok(s2) => Ok(
                truncated(charged(s2, dest.len as int, 0, 0, 0, 0), dest.len as int, precision),
            ),
        },
    }
}

/// `FpDivC`: a written secret run scaled by a non-zero public divisor,
/// plus one truncation per element.
pub open spec fn fp_div_step(
    st: CheckState,
    index: usize,
    dest: SecretRange,
    a: SecretRange,
    divisor: u64,
    precision: FixedPrecision,
) -> Result<CheckState, ValidationError> {
    guard(
        secret_bounds(index, dest),
        guard(
            secret_bounds(index, a),
            match precision_step(st, index, precision) {
                Err(e) => Err(e),
                Ok(s1) => if divisor == 0 {
                    Err(ValidationError::ZeroDivisor { index })
                } else if a.len != dest.len {
                    Err(ValidationError::LengthMismatch { index })
                } else {
                    guard(
                        secret_read(s1, index, a),
                        Ok(truncated(write_secret(s1, dest), dest.len as int, precision)),
                    )
                },
            },
        ),
    )
}

/// `Reveal`: a written secret run opened into clear registers.
pub open spec fn reveal_step(st: CheckState, index: usize, dest: ClearRange, src: SecretRange) -> Result<
    CheckState,
    ValidationError,
> {
    guard(
        clear_bounds(index, dest),
        guard(
            secret_bounds(index, src),
            if src.len != dest.len {
                Err(ValidationError::LengthMismatch { index })
            } else {
                guard(secret_read(st, index, src), Ok(write_clear(st, dest)))
            },
        ),
    )
}

/// `Out`: terminal only, over a written secret run.
pub open spec fn out_step(st: CheckState, index: usize, last: usize, src: SecretRange) -> Result<
    CheckState,
    ValidationError,
> {
    if index != last {
        Err(ValidationError::OutNotLast { index })
    } else {
        guard(secret_bounds(index, src), guard(secret_read(st, index, src), Ok(st)))
    }
}

/// `NotS`: a written secret run into a fresh one of the same length.
pub open spec fn not_step(st: CheckState, index: usize, dest: SecretRange, a: SecretRange) -> Result<
    CheckState,
    ValidationError,
> {
    guard(
        secret_bounds(index, dest),
        guard(
            secret_bounds(index, a),
            if a.len != dest.len {
                Err(ValidationError::LengthMismatch { index })
            } else {
                guard(secret_read(st, index, a), Ok(write_secret(st, dest)))
            },
        ),
    )
}

/// `Mux`: a one-bit condition choosing between two written runs, one
/// triple per element.
pub open spec fn mux_step(
    st: CheckState,
    index: usize,
    dest: SecretRange,
    cond: SecretRange,
    t: SecretRange,
    f: SecretRange,
) -> Result<CheckState, ValidationError> {
    guard(
        secret_bounds(index, dest),
        guard(
            secret_bounds(index, cond),
            guard(
                secret_bounds(index, t),
                guard(
                    secret_bounds(index, f),
                    if cond.len != 1 || t.len != dest.len || f.len != dest.len {
                        Err(ValidationError::LengthMismatch { index })
                    } else {
                        guard(
                            secret_read(st, index, cond),
                            guard(
                                secret_read(st, index, t),
                                guard(
                                    secret_read(st, index, f),
                                    Ok(charged(write_secret(st, dest), dest.len as int, 0, 0, 0, 0)),
                                ),
                            ),
                        )
                    },
                ),
            ),
        ),
    )
}

/// `Pack`: `width` written bits per destination element.
pub open spec fn pack_step(
    st: CheckState,
    index: usize,
    dest: SecretRange,
    src: SecretRange,
    width: u8,
) -> Result<CheckState, ValidationError> {
    guard(
        secret_bounds(index, dest),
        guard(
            secret_bounds(index, src),
            if src.len != dest.len * width {
                Err(ValidationError::LengthMismatch { index })
            } else {
                guard(secret_read(st, index, src), Ok(write_secret(st, dest)))
            },
        ),
    )
}

/// `BitDec`: `width` destination bits per written source element, one
/// random bit and two triples per bit.
pub open spec fn bit_dec_step(
    st: CheckState,
    index: usize,
    dest: SecretRange,
    src: SecretRange,
    width: u8,
) -> Result<CheckState, ValidationError> {
    guard(
        secret_bounds(index, dest),
        guard(
            secret_bounds(index, src),
            if dest.len != src.len * width {
                Err(ValidationError::LengthMismatch { index })
            } else {
                guard(
                    secret_read(st, index, src),
                    Ok(
                        charged(
                            write_secret(st, dest),
                            2 * dest.len,
                            0,
                            dest.len as int,
                            0,
                            0,
                        ),
                    ),
                )
            },
        ),
    )
}

/// `Sbox`: whole written bytes (eight bits each) substituted into a run
/// of the same length, priced per byte.
pub open spec fn sbox_step(st: CheckState, index: usize, dest: SecretRange, src: SecretRange) -> Result<
    CheckState,
    ValidationError,
> {
    guard(
        secret_bounds(index, dest),
        guard(
            secret_bounds(index, src),
            if src.len != dest.len || dest.len % 8 != 0 {
                Err(ValidationError::LengthMismatch { index })
            } else {
                let bytes = dest.len / 8;
                guard(
                    secret_read(st, index, src),
                    Ok(
                        charged(
                            write_secret(st, dest),
                            SBOX_TRIPLES_PER_BYTE * bytes,
                            0,
                            SBOX_PRANDBITS_PER_BYTE * bytes,
                            0,
                            bytes as int,
                        ),
                    ),
                )
            },
        ),
    )
}

/// `ByteXor`: a binary secret op priced per byte.
pub open spec fn byte_xor_step(
    st: CheckState,
    index: usize,
    dest: SecretRange,
    a: SecretRange,
    b: SecretRange,
) -> Result<CheckState, ValidationError> {
    match binary_step(st, index, dest, a, b) {
        Err(e) => Err(e),
        Ok(s) => Ok(
            charged(
                s,
                BYTE_XOR_TRIPLES * dest.len,
                0,
                BYTE_XOR_PRANDBITS * dest.len,
                0,
                0,
            ),
        ),
    }
}

/// One instruction's check, at program position `index` of a program
/// whose final position is `last`.
#[verifier::opaque]
pub open spec fn instruction_step(st: CheckState, index: usize, last: usize, i: InstructionView) -> Result<
    CheckState,
    ValidationError,
> {
    match i {
        InstructionView::LdC { dest, values } => ldc_step(st, index, dest, values.len() as int),
        InstructionView::AddS { dest, a, b } | InstructionView::SubS { dest, a, b } => binary_step(
            st,
            index,
            dest,
            a,
            b,
        ),
        InstructionView::AddC { dest, a, c } | InstructionView::SubC { dest, a, c }
        | InstructionView::MulC { dest, a, c } => clear_operand_step(st, index, dest, a, c),
        InstructionView::MulS { pairs } | InstructionView::AndS { pairs } | InstructionView::XorS {
            pairs,
        } => batch_step(st, index, pairs),
        InstructionView::FpMulS { dest, a, b, precision } => fp_mul_step(
            st,
            index,
            dest,
            a,
            b,
            precision,
        ),
        InstructionView::FpDivC { dest, a, divisor, precision } => fp_div_step(
            st,
            index,
            dest,
            a,
            divisor,
            precision,
        ),
        InstructionView::Reveal { dest, src } => reveal_step(st, index, dest, src),
        InstructionView::Out { src, .. } => out_step(st, index, last, src),
        InstructionView::NotS { dest, a } => not_step(st, index, dest, a),
        InstructionView::Mux { dest, cond, t, f } => mux_step(st, index, dest, cond, t, f),
        InstructionView::Pack { dest, src, width } => pack_step(st, index, dest, src, width),
        InstructionView::BitDec { dest, src, width } => bit_dec_step(st, index, dest, src, width),
        InstructionView::Sbox { dest, src } => sbox_step(st, index, dest, src),
        InstructionView::ByteXor { dest, a, b } => byte_xor_step(st, index, dest, a, b),
    }
}

/// The state after checking the first `n` instructions, or the first
/// refusal among them.
pub open spec fn prefix_state(
    st: CheckState,
    instructions: Seq<InstructionView>,
    n: int,
    last: usize,
) -> Result<CheckState, ValidationError>
    decreases n,
{
    if n <= 0 {
        Ok(st)
    } else {
        match prefix_state(st, instructions, n - 1, last) {
            Err(e) => Err(e),
            Ok(s) => instruction_step(s, (n - 1) as usize, last, instructions[n - 1]),
        }
    }
}

/// The state a pass starts from once the inputs are checked.
pub open spec fn initial_state(written: Seq<bool>, shares: usize) -> CheckState {
    CheckState {
        clear: unwritten(),
        secret: written,
        budget: Budget { random_shares: shares, ..zero_budget() },
        fixed: None,
    }
}

/// The verdict of validation on a program: its price and fixed-point
/// format, or the first refusal in the order the checks run (the
/// instruction count, the inputs, each instruction in turn, and a
/// terminal `Out`).
pub open spec fn check_spec(p: ProgramView) -> Result<(Budget, Option<FixedPrecision>), ValidationError> {
    let count = p.instructions.len();
    if count == 0 {
        Err(ValidationError::EmptyProgram)
    } else if count > MAX_INSTRUCTIONS {
        Err(ValidationError::TooManyInstructions { count: count as usize, max: MAX_INSTRUCTIONS })
    } else {
        match inputs_state(p.inputs, p.inputs.len() as int) {
            Err(e) => Err(e),
            Ok((written, shares)) => match prefix_state(
                initial_state(written, shares),
                p.instructions,
                count as int,
                (count - 1) as usize,
            ) {
                Err(e) => Err(e),
                Ok(st) => if p.instructions.last() is Out {
                    Ok((st.budget, st.fixed))
                } else {
                    Err(ValidationError::MissingOut)
                },
            },
        }
    }
}


// ---------------------------------------------------------------------
// The checker
// ---------------------------------------------------------------------

/// Whether a step's outcome is what the model says, given the state
/// after it.
pub open spec fn outcome(
    checked: Result<(), ValidationError>,
    expected: Result<CheckState, ValidationError>,
    after: CheckState,
) -> bool {
    match checked {
        Ok(_) => expected == Ok::<CheckState, ValidationError>(after),
        Err(e) => expected == Err::<CheckState, ValidationError>(e),
    }
}

/// Working state of one validation pass: written-register tracking,
/// the accruing [`Budget`], and the program's pinned fixed-point
/// format.
struct Checker {
    clear: WriteSet,
    secret: WriteSet,
    budget: Budget,
    fixed: Option<FixedPrecision>,
}

impl Checker {
    spec fn state(&self) -> CheckState {
        CheckState {
            clear: self.clear.written_of(),
            secret: self.secret.written_of(),
            budget: self.budget,
            fixed: self.fixed,
        }
    }

    spec fn wf(&self) -> bool {
        &&& self.clear.wf()
        &&& self.secret.wf()
        &&& self.clear.bank_of() == Bank::Clear
        &&& self.secret.bank_of() == Bank::Secret
    }

    /// Refuse operand runs whose lengths disagree with the destination.
    fn require_lengths(index: usize, dest: u32, operands: &[u32]) -> (checked: Result<(), ValidationError>)
        ensures
            (exists|k: int| 0 <= k < operands@.len() && #[trigger] operands@[k] != dest) ==> checked
                == Err::<(), ValidationError>(ValidationError::LengthMismatch { index }),
            (forall|k: int| 0 <= k < operands@.len() ==> #[trigger] operands@[k] == dest) ==> checked
                is Ok,
    {
        let mut k: usize = 0;
        while k < operands.len()
            invariant
                k <= operands.len(),
                forall|j: int| 0 <= j < k ==> #[trigger] operands@[j] == dest,
            decreases operands.len() - k,
        {
            if operands[k] != dest {
                return Err(ValidationError::LengthMismatch { index });
            }
            k = k + 1;
        }
        Ok(())
    }

    /// Charge preprocessing material.
    fn charge(
        &mut self,
        triples: usize,
        random_shares: usize,
        prandbits: usize,
        prandints: usize,
        sbox_tables: usize,
    )
        requires
            old(self).wf(),
        ensures
            final(self).wf(),
            final(self).state() == charged(
                old(self).state(),
                triples as int,
                random_shares as int,
                prandbits as int,
                prandints as int,
                sbox_tables as int,
            ),
    {
        self.budget = Budget {
            triples: self.budget.triples.saturating_add(triples),
            random_shares: self.budget.random_shares.saturating_add(random_shares),
            prandbits: self.budget.prandbits.saturating_add(prandbits),
            prandints: self.budget.prandints.saturating_add(prandints),
            sbox_tables: self.budget.sbox_tables.saturating_add(sbox_tables),
        };
    }

    /// `LdC`: immediates land in clear registers, one per value.
    fn check_ldc(&mut self, index: usize, dest: &ClearRange, values: &[u64]) -> (checked: Result<(), ValidationError>)
        requires
            old(self).wf(),
        ensures
            final(self).wf(),
            outcome(checked, ldc_step(old(self).state(), index, *dest, values@.len() as int), final(self).state()),
    {
        check_clear_bounds(index, dest)?;
        if values.len() != dest.len as usize {
            return Err(ValidationError::LengthMismatch { index });
        }
        self.clear.mark(dest.base, dest.len);
        Ok(())
    }

    /// `AddS` / `SubS`: two written secret runs into a fresh one.
    fn check_binary_secret(
        &mut self,
        index: usize,
        dest: &SecretRange,
        a: &SecretRange,
        b: &SecretRange,
    ) -> (checked: Result<(), ValidationError>)
        requires
            old(self).wf(),
        ensures
            final(self).wf(),
            outcome(checked, binary_step(old(self).state(), index, *dest, *a, *b), final(self).state()),
    {
        check_secret_bounds(index, dest)?;
        check_secret_bounds(index, a)?;
        check_secret_bounds(index, b)?;
        let lengths = [a.len, b.len];
        let r = Self::require_lengths(index, dest.len, lengths.as_slice());
        proof {
            if a.len != dest.len {
                assert(lengths@[0] != dest.len);
            }
            if b.len != dest.len {
                assert(lengths@[1] != dest.len);
            }
        }
        r?;
        self.secret.require(index, a.base, a.len)?;
        self.secret.require(index, b.base, b.len)?;
        self.secret.mark(dest.base, dest.len);
        Ok(())
    }

    /// `AddC` / `SubC` / `MulC`: a written secret run against a written
    /// clear run.
    fn check_clear_operand(
        &mut self,
        index: usize,
        dest: &SecretRange,
        a: &SecretRange,
        c: &ClearRange,
    ) -> (checked: Result<(), ValidationError>)
        requires
            old(self).wf(),
        ensures
            final(self).wf(),
            outcome(checked, clear_operand_step(old(self).state(), index, *dest, *a, *c), final(self).state()),
    {
        check_secret_bounds(index, dest)?;
        check_secret_bounds(index, a)?;
        check_clear_bounds(index, c)?;
        let lengths = [a.len, c.len];
        let r = Self::require_lengths(index, dest.len, lengths.as_slice());
        proof {
            if a.len != dest.len {
                assert(lengths@[0] != dest.len);
            }
            if c.len != dest.len {
                assert(lengths@[1] != dest.len);
            }
        }
        r?;
        self.secret.require(index, a.base, a.len)?;
        self.clear.require(index, c.base, c.len)?;
        self.secret.mark(dest.base, dest.len);
        Ok(())
    }

    /// `MulS` / `AndS` / `XorS`: every batched pair checked like a
    /// binary secret op, each element priced at one Beaver triple.
    fn check_mul(&mut self, index: usize, pairs: &[MulTriple]) -> (checked: Result<(), ValidationError>)
        requires
            old(self).wf(),
        ensures
            final(self).wf(),
            outcome(checked, batch_step(old(self).state(), index, pairs@), final(self).state()),
    {
        if pairs.len() == 0 {
            return Err(ValidationError::EmptyRange { index });
        }
        let ghost start = self.state();
        let mut k: usize = 0;
        while k < pairs.len()
            invariant
                k <= pairs.len(),
                self.wf(),
                start == old(self).state(),
                pairs@.len() > 0,
                pairs_step(start, index, pairs@, k as int) == Ok::<CheckState, ValidationError>(
                    self.state(),
                ),
            decreases pairs.len() - k,
        {
            let pair = pairs[k];
            let ghost before = self.state();
            match self.check_binary_secret(index, &pair.dest, &pair.a, &pair.b) {
                Ok(()) => {},
                Err(e) => {
                    assert(binary_step(before, index, pair.dest, pair.a, pair.b) == Err::<
                        CheckState,
                        ValidationError,
                    >(e));
                    assert(pairs_step(start, index, pairs@, k + 1) == Err::<
                        CheckState,
                        ValidationError,
                    >(e));
                    proof {
                        lemma_pairs_error_sticks(start, index, pairs@, k + 1, pairs@.len() as int);
                    }
                    return Err(e);
                },
            }
            self.charge(pair.dest.len as usize, 0, 0, 0, 0);
            k = k + 1;
        }
        Ok(())
    }

    /// Judge one instruction's fixed-point format and hold the program
    /// to a single one: the engine pins one precision per program run.
    fn check_precision(&mut self, index: usize, precision: &FixedPrecision) -> (checked: Result<(), ValidationError>)
        requires
            old(self).wf(),
        ensures
            final(self).wf(),
            outcome(checked, precision_step(old(self).state(), index, *precision), final(self).state()),
    {
        if precision.f == 0 || precision.k <= precision.f || precision.k > MAX_PRECISION_BITS {
            return Err(ValidationError::InvalidPrecision { index });
        }
        match self.fixed {
            Some(existing) => {
                if existing != *precision {
                    Err(ValidationError::MixedPrecision { index })
                } else {
                    Ok(())
                }
            },
            None => {
                self.fixed = Some(*precision);
                Ok(())
            },
        }
    }

    /// Accrue the preprocessing cost of `elements` probabilistic
    /// truncations: `f` shared random bits each (one triple and one
    /// random share per bit) plus one shared random integer.
    fn price_truncation(&mut self, elements: usize, precision: &FixedPrecision)
        requires
            old(self).wf(),
            elements <= BANK_SIZE,
        ensures
            final(self).wf(),
            final(self).state() == truncated(old(self).state(), elements as int, *precision),
    {
        assert(elements * precision.f <= BANK_SIZE * 255) by (nonlinear_arith)
            requires
                elements <= BANK_SIZE,
                precision.f <= 255,
        ;
        let bits = elements * precision.f as usize;
        self.charge(bits, bits, bits, elements, 0);
    }

    /// `FpMulS`: a binary secret op plus one truncation per element,
    /// priced on top of the element-wise triples.
    fn check_fp_mul(
        &mut self,
        index: usize,
        dest: &SecretRange,
        a: &SecretRange,
        b: &SecretRange,
        precision: &FixedPrecision,
    ) -> (checked: Result<(), ValidationError>)
        requires
            old(self).wf(),
        ensures
            final(self).wf(),
            outcome(checked, fp_mul_step(old(self).state(), index, *dest, *a, *b, *precision), final(self).state()),
    {
        self.check_precision(index, precision)?;
        self.check_binary_secret(index, dest, a, b)?;
        let elements = dest.len as usize;
        self.charge(elements, 0, 0, 0, 0);
        self.price_truncation(elements, precision);
        Ok(())
    }

    /// `FpDivC`: one written secret run scaled by a public divisor,
    /// plus one truncation per element.
    fn check_fp_div(
        &mut self,
        index: usize,
        dest: &SecretRange,
        a: &SecretRange,
        divisor: u64,
        precision: &FixedPrecision,
    ) -> (checked: Result<(), ValidationError>)
        requires
            old(self).wf(),
        ensures
            final(self).wf(),
            outcome(checked, fp_div_step(old(self).state(), index, *dest, *a, divisor, *precision), final(self).state()),
    {
        check_secret_bounds(index, dest)?;
        check_secret_bounds(index, a)?;
        self.check_precision(index, precision)?;
        if divisor == 0 {
            return Err(ValidationError::ZeroDivisor { index });
        }
        let lengths = [a.len];
        let r = Self::require_lengths(index, dest.len, lengths.as_slice());
        proof {
            if a.len != dest.len {
                assert(lengths@[0] != dest.len);
            }
        }
        r?;
        self.secret.require(index, a.base, a.len)?;
        self.secret.mark(dest.base, dest.len);
        self.price_truncation(dest.len as usize, precision);
        Ok(())
    }

    /// `Reveal`: a written secret run opened into clear registers.
    fn check_reveal(&mut self, index: usize, dest: &ClearRange, src: &SecretRange) -> (checked: Result<(), ValidationError>)
        requires
            old(self).wf(),
        ensures
            final(self).wf(),
            outcome(checked, reveal_step(old(self).state(), index, *dest, *src), final(self).state()),
    {
        check_clear_bounds(index, dest)?;
        check_secret_bounds(index, src)?;
        let lengths = [src.len];
        let r = Self::require_lengths(index, dest.len, lengths.as_slice());
        proof {
            if src.len != dest.len {
                assert(lengths@[0] != dest.len);
            }
        }
        r?;
        self.secret.require(index, src.base, src.len)?;
        self.clear.mark(dest.base, dest.len);
        Ok(())
    }

    /// `Out`: terminal only, over a written secret run.
    fn check_out(&mut self, index: usize, last: usize, src: &SecretRange) -> (checked: Result<(), ValidationError>)
        requires
            old(self).wf(),
        ensures
            final(self).wf(),
            outcome(checked, out_step(old(self).state(), index, last, *src), final(self).state()),
    {
        if index != last {
            return Err(ValidationError::OutNotLast { index });
        }
        check_secret_bounds(index, src)?;
        self.secret.require(index, src.base, src.len)?;
        Ok(())
    }

    /// `NotS`: a written secret run into a fresh one of the same length.
    fn check_not(&mut self, index: usize, dest: &SecretRange, a: &SecretRange) -> (checked: Result<(), ValidationError>)
        requires
            old(self).wf(),
        ensures
            final(self).wf(),
            outcome(checked, not_step(old(self).state(), index, *dest, *a), final(self).state()),
    {
        check_secret_bounds(index, dest)?;
        check_secret_bounds(index, a)?;
        if a.len != dest.len {
            return Err(ValidationError::LengthMismatch { index });
        }
        self.secret.require(index, a.base, a.len)?;
        self.secret.mark(dest.base, dest.len);
        Ok(())
    }

    /// `Mux`: a one-bit condition selecting between two written runs,
    /// one triple per element.
    fn check_mux(
        &mut self,
        index: usize,
        dest: &SecretRange,
        cond: &SecretRange,
        t: &SecretRange,
        f: &SecretRange,
    ) -> (checked: Result<(), ValidationError>)
        requires
            old(self).wf(),
        ensures
            final(self).wf(),
            outcome(checked, mux_step(old(self).state(), index, *dest, *cond, *t, *f), final(self).state()),
    {
        check_secret_bounds(index, dest)?;
        check_secret_bounds(index, cond)?;
        check_secret_bounds(index, t)?;
        check_secret_bounds(index, f)?;
        if cond.len != 1 || t.len != dest.len || f.len != dest.len {
            return Err(ValidationError::LengthMismatch { index });
        }
        self.secret.require(index, cond.base, cond.len)?;
        self.secret.require(index, t.base, t.len)?;
        self.secret.require(index, f.base, f.len)?;
        self.secret.mark(dest.base, dest.len);
        self.charge(dest.len as usize, 0, 0, 0, 0);
        Ok(())
    }

    /// `Pack`: `width` written bits per destination element.
    fn check_pack(&mut self, index: usize, dest: &SecretRange, src: &SecretRange, width: u8) -> (checked: Result<(), ValidationError>)
        requires
            old(self).wf(),
        ensures
            final(self).wf(),
            outcome(checked, pack_step(old(self).state(), index, *dest, *src, width), final(self).state()),
    {
        check_secret_bounds(index, dest)?;
        check_secret_bounds(index, src)?;
        assert(dest.len * width <= u32::MAX * 255) by (nonlinear_arith)
            requires
                dest.len <= u32::MAX,
                width <= 255,
        ;
        if src.len as u64 != dest.len as u64 * width as u64 {
            return Err(ValidationError::LengthMismatch { index });
        }
        self.secret.require(index, src.base, src.len)?;
        self.secret.mark(dest.base, dest.len);
        Ok(())
    }

    /// `BitDec`: `width` destination bits per written source element,
    /// one random bit and two triples per bit.
    fn check_bit_dec(&mut self, index: usize, dest: &SecretRange, src: &SecretRange, width: u8) -> (checked: Result<(), ValidationError>)
        requires
            old(self).wf(),
        ensures
            final(self).wf(),
            outcome(checked, bit_dec_step(old(self).state(), index, *dest, *src, width), final(self).state()),
    {
        check_secret_bounds(index, dest)?;
        check_secret_bounds(index, src)?;
        assert(src.len * width <= u32::MAX * 255) by (nonlinear_arith)
            requires
                src.len <= u32::MAX,
                width <= 255,
        ;
        if dest.len as u64 != src.len as u64 * width as u64 {
            return Err(ValidationError::LengthMismatch { index });
        }
        self.secret.require(index, src.base, src.len)?;
        self.secret.mark(dest.base, dest.len);
        let bits = dest.len as usize;
        self.charge(2 * bits, 0, bits, 0, 0);
        Ok(())
    }

    /// `Sbox`: whole written bytes substituted into a run of the same
    /// length, priced per byte.
    fn check_sbox(&mut self, index: usize, dest: &SecretRange, src: &SecretRange) -> (checked: Result<(), ValidationError>)
        requires
            old(self).wf(),
        ensures
            final(self).wf(),
            outcome(checked, sbox_step(old(self).state(), index, *dest, *src), final(self).state()),
    {
        check_secret_bounds(index, dest)?;
        check_secret_bounds(index, src)?;
        if src.len != dest.len || dest.len % 8 != 0 {
            return Err(ValidationError::LengthMismatch { index });
        }
        self.secret.require(index, src.base, src.len)?;
        self.secret.mark(dest.base, dest.len);
        let bytes = (dest.len / 8) as usize;
        self.charge(SBOX_TRIPLES_PER_BYTE * bytes, 0, SBOX_PRANDBITS_PER_BYTE * bytes, 0, bytes);
        Ok(())
    }

    /// `ByteXor`: a binary secret op priced per byte.
    fn check_byte_xor(
        &mut self,
        index: usize,
        dest: &SecretRange,
        a: &SecretRange,
        b: &SecretRange,
    ) -> (checked: Result<(), ValidationError>)
        requires
            old(self).wf(),
        ensures
            final(self).wf(),
            outcome(checked, byte_xor_step(old(self).state(), index, *dest, *a, *b), final(self).state()),
    {
        self.check_binary_secret(index, dest, a, b)?;
        let elements = dest.len as usize;
        self.charge(BYTE_XOR_TRIPLES * elements, 0, BYTE_XOR_PRANDBITS * elements, 0, 0);
        Ok(())
    }
}

proof fn lemma_pairs_error_sticks(st: CheckState, index: usize, pairs: Seq<MulTriple>, k: int, m: int)
    requires
        0 <= k <= m,
        pairs_step(st, index, pairs, k) is Err,
    ensures
        pairs_step(st, index, pairs, m) == pairs_step(st, index, pairs, k),
    decreases m - k,
{
    if m > k {
        lemma_pairs_error_sticks(st, index, pairs, k, m - 1);
    }
}


impl Checker {
    /// A pass that has written nothing and charged nothing.
    fn new() -> (checker: Checker)
        ensures
            checker.wf(),
            checker.state() == (CheckState {
                clear: unwritten(),
                secret: unwritten(),
                budget: zero_budget(),
                fixed: None,
            }),
    {
        Checker {
            clear: WriteSet::new(Bank::Clear),
            secret: WriteSet::new(Bank::Secret),
            budget: Budget::default(),
            fixed: None,
        }
    }

    /// Check one instruction at program position `index`.
    fn check_instruction(&mut self, index: usize, last: usize, instruction: &Instruction) -> (checked:
        Result<(), ValidationError>)
        requires
            old(self).wf(),
        ensures
            final(self).wf(),
            outcome(
                checked,
                instruction_step(old(self).state(), index, last, instruction@),
                final(self).state(),
            ),
    {
        proof {
            reveal(instruction_step);
        }
        match instruction {
            Instruction::LdC { dest, values } => self.check_ldc(index, dest, values.as_slice()),
            Instruction::AddS { dest, a, b } | Instruction::SubS { dest, a, b } => {
                self.check_binary_secret(index, dest, a, b)
            },
            Instruction::AddC { dest, a, c } | Instruction::SubC { dest, a, c }
            | Instruction::MulC { dest, a, c } => self.check_clear_operand(index, dest, a, c),
            Instruction::MulS { pairs } | Instruction::AndS { pairs } | Instruction::XorS {
                pairs,
            } => self.check_mul(index, pairs.as_slice()),
            Instruction::FpMulS { dest, a, b, precision } => {
                self.check_fp_mul(index, dest, a, b, precision)
            },
            Instruction::FpDivC { dest, a, divisor, precision } => {
                self.check_fp_div(index, dest, a, *divisor, precision)
            },
            Instruction::Reveal { dest, src } => self.check_reveal(index, dest, src),
            Instruction::Out { src, .. } => self.check_out(index, last, src),
            Instruction::NotS { dest, a } => self.check_not(index, dest, a),
            Instruction::Mux { dest, cond, t, f } => self.check_mux(index, dest, cond, t, f),
            Instruction::Pack { dest, src, width } => self.check_pack(index, dest, src, *width),
            Instruction::BitDec { dest, src, width } => self.check_bit_dec(index, dest, src, *width),
            Instruction::Sbox { dest, src } => self.check_sbox(index, dest, src),
            Instruction::ByteXor { dest, a, b } => self.check_byte_xor(index, dest, a, b),
        }
    }
}

proof fn lemma_prefix_error_sticks(
    st: CheckState,
    instructions: Seq<InstructionView>,
    k: int,
    m: int,
    last: usize,
)
    requires
        0 <= k <= m,
        prefix_state(st, instructions, k, last) is Err,
    ensures
        prefix_state(st, instructions, m, last) == prefix_state(st, instructions, k, last),
    decreases m - k,
{
    if m > k {
        lemma_prefix_error_sticks(st, instructions, k, m - 1, last);
    }
}

/// Run every static check and price the program.
pub fn check(program: &Program) -> (verdict: Result<(Budget, Option<FixedPrecision>), ValidationError>)
    ensures
        verdict == check_spec(program@),
{
    let count = program.instructions.len();
    if count == 0 {
        return Err(ValidationError::EmptyProgram);
    }
    if count > MAX_INSTRUCTIONS {
        return Err(ValidationError::TooManyInstructions { count, max: MAX_INSTRUCTIONS });
    }
    let mut checker = Checker::new();
    let shares = check_inputs(program.inputs.as_slice(), &mut checker.secret)?;
    checker.budget.random_shares = shares;
    let last = count - 1;
    let ghost p = program@;
    let ghost start = checker.state();
    assert(start == initial_state(checker.secret.written_of(), shares));
    let mut index: usize = 0;
    while index < count
        invariant
            index <= count,
            0 < count <= MAX_INSTRUCTIONS,
            count == program.instructions.len(),
            last == count - 1,
            p == program@,
            checker.wf(),
            inputs_state(p.inputs, p.inputs.len() as int) == Ok::<
                (Seq<bool>, usize),
                ValidationError,
            >((start.secret, shares)),
            start == initial_state(start.secret, shares),
            prefix_state(start, p.instructions, index as int, last) == Ok::<
                CheckState,
                ValidationError,
            >(checker.state()),
        decreases count - index,
    {
        assert(p.instructions[index as int] == program.instructions@[index as int]@);
        let ghost before = checker.state();
        match checker.check_instruction(index, last, &program.instructions[index]) {
            Ok(()) => {},
            Err(e) => {
                assert(prefix_state(start, p.instructions, index + 1, last) == Err::<
                    CheckState,
                    ValidationError,
                >(e));
                proof {
                    lemma_prefix_error_sticks(start, p.instructions, index + 1, count as int, last);
                }
                assert(prefix_state(start, p.instructions, count as int, last) == Err::<
                    CheckState,
                    ValidationError,
                >(e));
                return Err(e);
            },
        }
        index = index + 1;
    }
    assert(p.instructions.last() == program.instructions@[count - 1]@);
    match &program.instructions[count - 1] {
        Instruction::Out { .. } => {},
        _ => return Err(ValidationError::MissingOut),
    }
    Ok((checker.budget, checker.fixed))
}


// ---------------------------------------------------------------------
// Bank extents
// ---------------------------------------------------------------------

/// The larger of two naturals.
pub open spec fn max_nat(a: nat, b: nat) -> nat {
    if a >= b {
        a
    } else {
        b
    }
}

/// The secret runs of a batch, three per pair.
pub open spec fn pair_ranges(pairs: Seq<MulTriple>) -> Seq<SecretRange>
    decreases pairs.len(),
{
    if pairs.len() == 0 {
        Seq::empty()
    } else {
        seq![pairs[0].dest, pairs[0].a, pairs[0].b] + pair_ranges(pairs.skip(1))
    }
}

/// Every secret run an instruction names.
pub open spec fn secret_ranges(i: InstructionView) -> Seq<SecretRange> {
    match i {
        InstructionView::LdC { .. } => Seq::empty(),
        InstructionView::AddS { dest, a, b } | InstructionView::SubS { dest, a, b }
        | InstructionView::ByteXor { dest, a, b } | InstructionView::FpMulS { dest, a, b, .. } =>
            seq![dest, a, b],
        InstructionView::AddC { dest, a, .. } | InstructionView::SubC { dest, a, .. }
        | InstructionView::MulC { dest, a, .. } | InstructionView::FpDivC { dest, a, .. }
        | InstructionView::NotS { dest, a } => seq![dest, a],
        InstructionView::MulS { pairs } | InstructionView::AndS { pairs } | InstructionView::XorS {
            pairs,
        } => pair_ranges(pairs),
        InstructionView::Reveal { src, .. } | InstructionView::Out { src, .. } => seq![src],
        InstructionView::Mux { dest, cond, t, f } => seq![dest, cond, t, f],
        InstructionView::Pack { dest, src, .. } | InstructionView::BitDec { dest, src, .. }
        | InstructionView::Sbox { dest, src } => seq![dest, src],
    }
}

/// Every clear run an instruction names.
pub open spec fn clear_ranges(i: InstructionView) -> Seq<ClearRange> {
    match i {
        InstructionView::LdC { dest, .. } | InstructionView::Reveal { dest, .. } => seq![dest],
        InstructionView::AddC { c, .. } | InstructionView::SubC { c, .. } | InstructionView::MulC {
            c,
            ..
        } => seq![c],
        _ => Seq::empty(),
    }
}

/// One past the highest register of a list of secret runs.
pub open spec fn secret_extent(ranges: Seq<SecretRange>) -> nat
    decreases ranges.len(),
{
    if ranges.len() == 0 {
        0
    } else {
        max_nat(secret_extent(ranges.drop_last()), ranges.last().spec_end())
    }
}

/// One past the highest register of a list of clear runs.
pub open spec fn clear_extent(ranges: Seq<ClearRange>) -> nat
    decreases ranges.len(),
{
    if ranges.len() == 0 {
        0
    } else {
        max_nat(clear_extent(ranges.drop_last()), ranges.last().spec_end())
    }
}

/// One past the highest secret register the first `n` declarations feed.
pub open spec fn inputs_top(decls: Seq<InputDecl>, n: int) -> nat
    decreases n,
{
    if n <= 0 {
        0
    } else {
        max_nat(inputs_top(decls, n - 1), decls[n - 1].dest.spec_end())
    }
}

/// One past the highest secret register touched by the inputs and the
/// first `n` instructions.
pub open spec fn secret_top_of(p: ProgramView, n: int) -> nat
    decreases n,
{
    if n <= 0 {
        inputs_top(p.inputs, p.inputs.len() as int)
    } else {
        max_nat(secret_top_of(p, n - 1), secret_extent(secret_ranges(p.instructions[n - 1])))
    }
}

/// One past the highest clear register touched by the first `n`
/// instructions.
pub open spec fn clear_top_of(p: ProgramView, n: int) -> nat
    decreases n,
{
    if n <= 0 {
        0
    } else {
        max_nat(clear_top_of(p, n - 1), clear_extent(clear_ranges(p.instructions[n - 1])))
    }
}

fn max_u64(a: u64, b: u64) -> (m: u64)
    ensures
        m == max_nat(a as nat, b as nat),
{
    if a >= b {
        a
    } else {
        b
    }
}

/// One past the highest register of a batch's runs.
fn pairs_extent(pairs: &[MulTriple]) -> (extent: u64)
    ensures
        extent == secret_extent(pair_ranges(pairs@)),
{
    let mut extent: u64 = 0;
    let mut k: usize = pairs.len();
    assert(pairs@.skip(k as int) =~= Seq::<MulTriple>::empty());
    while k > 0
        invariant
            k <= pairs.len(),
            extent == secret_extent(pair_ranges(pairs@.skip(k as int))),
        decreases k,
    {
        k = k - 1;
        let pair = pairs[k];
        let ghost tail = pairs@.skip(k + 1);
        assert(pairs@.skip(k as int).skip(1) =~= tail);
        proof {
            lemma_secret_extent_prepend(seq![pair.dest, pair.a, pair.b], pair_ranges(tail));
        }
        let ghost old_extent = extent;
        extent = max_u64(max_u64(max_u64(pair.dest.end(), pair.a.end()), pair.b.end()), extent);
        proof {
            let three = seq![pair.dest, pair.a, pair.b];
            assert(pair_ranges(pairs@.skip(k as int)) == three + pair_ranges(tail));
            assert(three.drop_last() =~= seq![pair.dest, pair.a]);
            assert(seq![pair.dest, pair.a].drop_last() =~= seq![pair.dest]);
            assert(seq![pair.dest].drop_last() =~= Seq::<SecretRange>::empty());
            reveal_with_fuel(secret_extent, 4);
            assert(secret_extent(three) == max_nat(
                max_nat(max_nat(0, pair.dest.spec_end()), pair.a.spec_end()),
                pair.b.spec_end(),
            ));
        }
    }
    assert(pairs@.skip(0) =~= pairs@);
    extent
}

proof fn lemma_secret_extent_prepend(a: Seq<SecretRange>, b: Seq<SecretRange>)
    ensures
        secret_extent(a + b) == max_nat(secret_extent(a), secret_extent(b)),
    decreases b.len(),
{
    if b.len() == 0 {
        assert(a + b =~= a);
    } else {
        lemma_secret_extent_prepend(a, b.drop_last());
        assert((a + b).drop_last() =~= a + b.drop_last());
    }
}

/// One past the highest secret register an instruction names.
fn secret_extent_of(instruction: &Instruction) -> (extent: u64)
    ensures
        extent == secret_extent(secret_ranges(instruction@)),
{
    proof {
        reveal_with_fuel(secret_extent, 5);
    }
    match instruction {
        Instruction::LdC { .. } => 0,
        Instruction::AddS { dest, a, b } | Instruction::SubS { dest, a, b }
        | Instruction::ByteXor { dest, a, b } | Instruction::FpMulS { dest, a, b, .. } => {
            assert(seq![*dest, *a, *b].drop_last() =~= seq![*dest, *a]);
            assert(seq![*dest, *a].drop_last() =~= seq![*dest]);
            assert(seq![*dest].drop_last() =~= Seq::<SecretRange>::empty());
            max_u64(max_u64(max_u64(0, dest.end()), a.end()), b.end())
        },
        Instruction::AddC { dest, a, .. } | Instruction::SubC { dest, a, .. }
        | Instruction::MulC { dest, a, .. } | Instruction::FpDivC { dest, a, .. }
        | Instruction::NotS { dest, a } | Instruction::Pack { dest, src: a, .. }
        | Instruction::BitDec { dest, src: a, .. } | Instruction::Sbox { dest, src: a } => {
            assert(seq![*dest, *a].drop_last() =~= seq![*dest]);
            assert(seq![*dest].drop_last() =~= Seq::<SecretRange>::empty());
            max_u64(max_u64(0, dest.end()), a.end())
        },
        Instruction::MulS { pairs } | Instruction::AndS { pairs } | Instruction::XorS { pairs } => {
            pairs_extent(pairs.as_slice())
        },
        Instruction::Reveal { src, .. } | Instruction::Out { src, .. } => {
            assert(seq![*src].drop_last() =~= Seq::<SecretRange>::empty());
            max_u64(0, src.end())
        },
        Instruction::Mux { dest, cond, t, f } => {
            assert(seq![*dest, *cond, *t, *f].drop_last() =~= seq![*dest, *cond, *t]);
            assert(seq![*dest, *cond, *t].drop_last() =~= seq![*dest, *cond]);
            assert(seq![*dest, *cond].drop_last() =~= seq![*dest]);
            assert(seq![*dest].drop_last() =~= Seq::<SecretRange>::empty());
            max_u64(max_u64(max_u64(max_u64(0, dest.end()), cond.end()), t.end()), f.end())
        },
    }
}

/// One past the highest clear register an instruction names.
fn clear_extent_of(instruction: &Instruction) -> (extent: u64)
    ensures
        extent == clear_extent(clear_ranges(instruction@)),
{
    proof {
        reveal_with_fuel(clear_extent, 2);
    }
    match instruction {
        Instruction::LdC { dest, .. } | Instruction::Reveal { dest, .. } => {
            assert(seq![*dest].drop_last() =~= Seq::<ClearRange>::empty());
            max_u64(0, dest.end())
        },
        Instruction::AddC { c, .. } | Instruction::SubC { c, .. } | Instruction::MulC { c, .. } => {
            assert(seq![*c].drop_last() =~= Seq::<ClearRange>::empty());
            max_u64(0, c.end())
        },
        _ => 0,
    }
}

/// One past the highest register each bank touches, `(clear, secret)`.
/// A validated program keeps both within the bank size, so they fit a
/// `u32`.
fn tops(program: &Program) -> (extents: (u32, u32))
    ensures
        extents.0 == clear_top_of(program@, program@.instructions.len() as int) as u32,
        extents.1 == secret_top_of(program@, program@.instructions.len() as int) as u32,
{
    let ghost p = program@;
    let mut clear_top: u64 = 0;
    let mut secret_top: u64 = 0;
    let mut i: usize = 0;
    while i < program.inputs.len()
        invariant
            i <= program.inputs.len(),
            secret_top == inputs_top(program.inputs@, i as int),
        decreases program.inputs.len() - i,
    {
        secret_top = max_u64(secret_top, program.inputs[i].dest.end());
        i = i + 1;
    }
    let mut j: usize = 0;
    while j < program.instructions.len()
        invariant
            j <= program.instructions.len(),
            p == program@,
            secret_top == secret_top_of(p, j as int),
            clear_top == clear_top_of(p, j as int),
        decreases program.instructions.len() - j,
    {
        assert(p.instructions[j as int] == program.instructions@[j as int]@);
        secret_top = max_u64(secret_top, secret_extent_of(&program.instructions[j]));
        clear_top = max_u64(clear_top, clear_extent_of(&program.instructions[j]));
        j = j + 1;
    }
    (#[verifier::truncate] (clear_top as u32), #[verifier::truncate] (secret_top as u32))
}


// ---------------------------------------------------------------------
// Validated programs
// ---------------------------------------------------------------------

/// A program that passed every static check, plus its identity and
/// price. The only entry points are [`ValidProgram::from_der`] (party
/// side) and [`ValidProgram::try_from`] a [`Program`] (consumer side),
/// so holding one proves the checks ran.
#[derive(Clone, Debug)]
pub struct ValidProgram {
    program: Program,
    bytes: Vec<u8>,
    digest: ProgramDigest,
    budget: Budget,
    precision: Option<FixedPrecision>,
    clear_top: u32,
    secret_top: u32,
}

/// What the party side makes of wire bytes: the decoded program and its
/// validation verdict, or why the bytes were refused.
pub open spec fn admitted(bytes: Seq<u8>) -> Result<
    (ProgramView, (Budget, Option<FixedPrecision>)),
    VmError,
> {
    match program_of(bytes) {
        Err(e) => Err(VmError::Codec(e)),
        Ok(p) => match check_spec(p) {
            Err(e) => Err(VmError::Validation(e)),
            Ok(verdict) => Ok((p, verdict)),
        },
    }
}

/// What the consumer side makes of a program: its verdict and its
/// canonical bytes, or why it was refused (validation runs first).
pub open spec fn accepted(p: ProgramView) -> Result<((Budget, Option<FixedPrecision>), Seq<u8>), VmError> {
    match check_spec(p) {
        Err(e) => Err(VmError::Validation(e)),
        Ok(verdict) => match encoding_of(p) {
            Err(e) => Err(VmError::Codec(e)),
            Ok(bytes) => Ok((verdict, bytes)),
        },
    }
}

impl ValidProgram {
    /// The validated program.
    pub closed spec fn program_view(&self) -> ProgramView {
        self.program@
    }

    /// The canonical bytes the digest covers.
    pub closed spec fn bytes_view(&self) -> Seq<u8> {
        self.bytes@
    }

    /// The digest octets.
    pub closed spec fn digest_view(&self) -> Seq<u8> {
        self.digest.0@
    }

    /// The price.
    pub closed spec fn budget_view(&self) -> Budget {
        self.budget
    }

    /// The pinned fixed-point format.
    pub closed spec fn precision_view(&self) -> Option<FixedPrecision> {
        self.precision
    }

    /// The clear-bank extent.
    pub closed spec fn clear_top_view(&self) -> u32 {
        self.clear_top
    }

    /// The secret-bank extent.
    pub closed spec fn secret_top_view(&self) -> u32 {
        self.secret_top
    }

    /// The facts every validated program carries about its parts.
    pub open spec fn describes(&self, p: ProgramView, verdict: (Budget, Option<FixedPrecision>), bytes: Seq<u8>) -> bool {
        &&& self.program_view() == p
        &&& self.bytes_view() == bytes
        &&& self.digest_view() == sha3_256(bytes)
        &&& self.budget_view() == verdict.0
        &&& self.precision_view() == verdict.1
        &&& self.clear_top_view() == clear_top_of(p, p.instructions.len() as int) as u32
        &&& self.secret_top_view() == secret_top_of(p, p.instructions.len() as int) as u32
    }

    /// The program passed validation and the bank extents are its own.
    pub open spec fn wf(&self) -> bool {
        &&& check_spec(self.program_view()) is Ok
        &&& self.clear_top_view() == clear_top_of(
            self.program_view(),
            self.program_view().instructions.len() as int,
        ) as u32
        &&& self.secret_top_view() == secret_top_of(
            self.program_view(),
            self.program_view().instructions.len() as int,
        ) as u32
    }

    /// Decode and validate wire bytes (the party-side entry point).
    pub fn from_der(bytes: &[u8]) -> (valid: Result<ValidProgram, VmError>)
        ensures
            match valid {
                Ok(v) => admitted(bytes@) matches Ok((p, verdict)) && v.describes(p, verdict, bytes@) && v.wf(),
                Err(e) => admitted(bytes@) == Err::<
                    (ProgramView, (Budget, Option<FixedPrecision>)),
                    VmError,
                >(e),
            },
    {
        let program = match decode(bytes) {
            Ok(program) => program,
            Err(e) => return Err(VmError::Codec(e)),
        };
        let (budget, precision) = match check(&program) {
            Ok(verdict) => verdict,
            Err(e) => return Err(VmError::Validation(e)),
        };
        let identity = digest(bytes);
        let (clear_top, secret_top) = tops(&program);
        Ok(
            ValidProgram {
                program,
                bytes: vstd::slice::slice_to_vec(bytes),
                digest: identity,
                budget,
                precision,
                clear_top,
                secret_top,
            },
        )
    }

    /// Encode and validate an in-memory program (the consumer-side
    /// entry point). The canonical bytes produced here are the ones
    /// submitted, so both sides digest identical input.
    pub fn try_from(program: Program) -> (valid: Result<ValidProgram, VmError>)
        ensures
            match valid {
                Ok(v) => accepted(program@) matches Ok((verdict, bytes)) && v.describes(
                    program@,
                    verdict,
                    bytes,
                ) && v.wf(),
                Err(e) => accepted(program@) == Err::<
                    ((Budget, Option<FixedPrecision>), Seq<u8>),
                    VmError,
                >(e),
            },
    {
        let (budget, precision) = match check(&program) {
            Ok(verdict) => verdict,
            Err(e) => return Err(VmError::Validation(e)),
        };
        let bytes = match encode(&program) {
            Ok(bytes) => bytes,
            Err(e) => return Err(VmError::Codec(e)),
        };
        let identity = digest(bytes.as_slice());
        let (clear_top, secret_top) = tops(&program);
        Ok(ValidProgram { program, bytes, digest: identity, budget, precision, clear_top, secret_top })
    }

    /// The validated instruction stream.
    pub fn program(&self) -> (program: &Program)
        ensures
            program@ == self.program_view(),
    {
        &self.program
    }

    /// The canonical DER bytes the digest covers.
    pub fn bytes(&self) -> (bytes: &[u8])
        ensures
            bytes@ == self.bytes_view(),
    {
        self.bytes.as_slice()
    }

    /// The program's identity across parties.
    pub fn digest(&self) -> (identity: ProgramDigest)
        ensures
            identity.0@ == self.digest_view(),
    {
        self.digest
    }

    /// Preprocessing material the program consumes.
    pub fn budget(&self) -> (budget: Budget)
        ensures
            budget == self.budget_view(),
    {
        self.budget
    }

    /// The program's single fixed-point format, if any instruction
    /// names one. Validation refuses mixed precisions.
    pub fn precision(&self) -> (precision: Option<FixedPrecision>)
        ensures
            precision == self.precision_view(),
    {
        self.precision
    }

    /// One past the highest clear register touched: the clear-bank size
    /// the executor allocates.
    pub fn clear_top(&self) -> (top: u32)
        ensures
            top == self.clear_top_view(),
    {
        self.clear_top
    }

    /// One past the highest secret register touched: the secret-bank
    /// size the executor allocates.
    pub fn secret_top(&self) -> (top: u32)
        ensures
            top == self.secret_top_view(),
    {
        self.secret_top
    }
}


// ---------------------------------------------------------------------
// What validation guarantees
// ---------------------------------------------------------------------

/// A non-empty secret run inside its bank.
pub open spec fn secret_in_bank(range: SecretRange) -> bool {
    range.len > 0 && range.base + range.len <= BANK_SIZE
}

/// A non-empty clear run inside its bank.
pub open spec fn clear_in_bank(range: ClearRange) -> bool {
    range.len > 0 && range.base + range.len <= BANK_SIZE
}

/// Every run an instruction names is non-empty and inside its bank.
pub open spec fn in_bank(i: InstructionView) -> bool {
    match i {
        InstructionView::LdC { dest, .. } => clear_in_bank(dest),
        InstructionView::AddS { dest, a, b } | InstructionView::SubS { dest, a, b }
        | InstructionView::ByteXor { dest, a, b } | InstructionView::FpMulS { dest, a, b, .. } =>
            secret_in_bank(dest) && secret_in_bank(a) && secret_in_bank(b),
        InstructionView::AddC { dest, a, c } | InstructionView::SubC { dest, a, c }
        | InstructionView::MulC { dest, a, c } => secret_in_bank(dest) && secret_in_bank(a)
            && clear_in_bank(c),
        InstructionView::MulS { pairs } | InstructionView::AndS { pairs } | InstructionView::XorS {
            pairs,
        } => pairs_sound(pairs, pairs.len() as int),
        InstructionView::FpDivC { dest, a, .. } | InstructionView::NotS { dest, a } => secret_in_bank(
            dest,
        ) && secret_in_bank(a),
        InstructionView::Reveal { dest, src } => clear_in_bank(dest) && secret_in_bank(src),
        InstructionView::Out { src, .. } => secret_in_bank(src),
        InstructionView::Mux { dest, cond, t, f } => secret_in_bank(dest) && secret_in_bank(cond)
            && secret_in_bank(t) && secret_in_bank(f),
        InstructionView::Pack { dest, src, .. } | InstructionView::BitDec { dest, src, .. }
        | InstructionView::Sbox { dest, src } => secret_in_bank(dest) && secret_in_bank(src),
    }
}

/// The pairs a batch check accepted are shaped and inside the bank.
pub open spec fn pairs_sound(pairs: Seq<MulTriple>, n: int) -> bool {
    forall|k: int|
        0 <= k < n ==> {
            let pair = #[trigger] pairs[k];
            &&& pair.a.len == pair.dest.len
            &&& pair.b.len == pair.dest.len
            &&& secret_in_bank(pair.dest)
            &&& secret_in_bank(pair.a)
            &&& secret_in_bank(pair.b)
        }
}

proof fn lemma_pairs_step_sound(st: CheckState, index: usize, pairs: Seq<MulTriple>, n: int)
    requires
        0 <= n <= pairs.len(),
        pairs_step(st, index, pairs, n) is Ok,
    ensures
        pairs_sound(pairs, n),
    decreases n,
{
    if n > 0 {
        lemma_pairs_step_sound(st, index, pairs, n - 1);
    }
}

proof fn lemma_pair_ranges_in_bank(pairs: Seq<MulTriple>)
    requires
        pairs_sound(pairs, pairs.len() as int),
    ensures
        forall|k: int| 0 <= k < pair_ranges(pairs).len() ==> secret_in_bank(#[trigger] pair_ranges(pairs)[k]),
        pair_ranges(pairs).len() == 3 * pairs.len(),
    decreases pairs.len(),
{
    if pairs.len() > 0 {
        let rest = pairs.skip(1);
        assert(pairs_sound(rest, rest.len() as int)) by {
            assert forall|k: int| 0 <= k < rest.len() implies {
                let pair = #[trigger] rest[k];
                &&& pair.a.len == pair.dest.len
                &&& pair.b.len == pair.dest.len
                &&& secret_in_bank(pair.dest)
                &&& secret_in_bank(pair.a)
                &&& secret_in_bank(pair.b)
            } by {
                assert(rest[k] == pairs[k + 1]);
            }
        }
        lemma_pair_ranges_in_bank(rest);
        let head = seq![pairs[0].dest, pairs[0].a, pairs[0].b];
        assert(pair_ranges(pairs) == head + pair_ranges(rest));
        assert forall|k: int| 0 <= k < pair_ranges(pairs).len() implies secret_in_bank(
            #[trigger] pair_ranges(pairs)[k],
        ) by {
            if k >= 3 {
                assert(pair_ranges(pairs)[k] == pair_ranges(rest)[k - 3]);
            }
        }
    }
}

/// An accepted instruction is well shaped, names only runs inside their
/// banks, and is an `Out` only at the final position.
#[verifier::spinoff_prover]
#[verifier::rlimit(40)]
pub proof fn lemma_instruction_step_sound(st: CheckState, index: usize, last: usize, i: InstructionView)
    requires
        instruction_step(st, index, last, i) is Ok,
    ensures
        well_shaped(i),
        in_bank(i),
        i is Out ==> index == last,
{
    reveal(instruction_step);
    match i {
        InstructionView::MulS { pairs } | InstructionView::AndS { pairs } | InstructionView::XorS {
            pairs,
        } => {
            lemma_pairs_step_sound(st, index, pairs, pairs.len() as int);
            assert(pairs_shaped(pairs));
        },
        InstructionView::FpMulS { dest, a, b, precision } => {
            let s1 = precision_step(st, index, precision)->Ok_0;
            assert(binary_step(s1, index, dest, a, b) is Ok);
        },
        InstructionView::ByteXor { dest, a, b } => {
            assert(binary_step(st, index, dest, a, b) is Ok);
        },
        _ => {},
    }
}

proof fn lemma_prefix_sound(
    st: CheckState,
    instructions: Seq<InstructionView>,
    n: int,
    last: usize,
)
    requires
        0 <= n <= instructions.len() <= MAX_INSTRUCTIONS,
        prefix_state(st, instructions, n, last) is Ok,
    ensures
        forall|j: int|
            0 <= j < n ==> well_shaped(#[trigger] instructions[j]) && in_bank(instructions[j]) && (
            instructions[j] is Out ==> j == last),
    decreases n,
{
    if n > 0 {
        lemma_prefix_sound(st, instructions, n - 1, last);
        let s = prefix_state(st, instructions, n - 1, last)->Ok_0;
        lemma_instruction_step_sound(s, (n - 1) as usize, last, instructions[n - 1]);
    }
}

proof fn lemma_inputs_sound(decls: Seq<InputDecl>, n: int)
    requires
        0 <= n <= decls.len(),
        inputs_state(decls, n) is Ok,
    ensures
        forall|k: int| 0 <= k < n ==> secret_in_bank(#[trigger] decls[k].dest),
        forall|j: int, k: int| 0 <= j < k < n ==> decls[j].client != decls[k].client,
        forall|j: int, k: int| 0 <= j < k < n ==> !overlaps(decls[j].dest, decls[k].dest),
    decreases n,
{
    if n > 0 {
        lemma_inputs_sound(decls, n - 1);
        assert(input_error(decls, n - 1) is None);
        assert forall|j: int, k: int| 0 <= j < k < n implies decls[j].client != decls[k].client by {
            if k == n - 1 {
                assert(!(decls[j].client == decls[n - 1].client));
            }
        }
        assert forall|j: int, k: int| 0 <= j < k < n implies !overlaps(decls[j].dest, decls[k].dest) by {
            if k == n - 1 {
                assert(!overlaps(decls[j].dest, decls[n - 1].dest));
            }
        }
    }
}

/// What a validated program is guaranteed to be: at least one and at most
/// [`MAX_INSTRUCTIONS`] instructions, each well shaped (so it round trips
/// through the wire format) with every run non-empty and inside its bank;
/// exactly one `Out`, in final position; input declarations inside the
/// secret bank, for distinct clients, over disjoint runs.
pub proof fn lemma_validated_programs_are_sound(p: ProgramView)
    requires
        check_spec(p) is Ok,
    ensures
        0 < p.instructions.len() <= MAX_INSTRUCTIONS,
        forall|j: int| 0 <= j < p.instructions.len() ==> well_shaped(#[trigger] p.instructions[j]),
        forall|j: int| 0 <= j < p.instructions.len() ==> in_bank(#[trigger] p.instructions[j]),
        p.instructions.last() is Out,
        forall|j: int| 0 <= j < p.instructions.len() - 1 ==> !(#[trigger] p.instructions[j] is Out),
        forall|k: int| 0 <= k < p.inputs.len() ==> secret_in_bank(#[trigger] p.inputs[k].dest),
        forall|j: int, k: int| 0 <= j < k < p.inputs.len() ==> p.inputs[j].client != p.inputs[k].client,
        forall|j: int, k: int|
            0 <= j < k < p.inputs.len() ==> !overlaps(p.inputs[j].dest, p.inputs[k].dest),
{
    let count = p.instructions.len();
    let (written, shares) = inputs_state(p.inputs, p.inputs.len() as int)->Ok_0;
    lemma_inputs_sound(p.inputs, p.inputs.len() as int);
    lemma_prefix_sound(initial_state(written, shares), p.instructions, count as int, (count - 1) as usize);
    assert forall|j: int| 0 <= j < count - 1 implies !(#[trigger] p.instructions[j] is Out) by {
        assert(well_shaped(p.instructions[j]));
    }
}


proof fn lemma_secret_extent(ranges: Seq<SecretRange>)
    ensures
        forall|k: int| 0 <= k < ranges.len() ==> (#[trigger] ranges[k]).spec_end() <= secret_extent(ranges),
        (forall|k: int| 0 <= k < ranges.len() ==> secret_in_bank(#[trigger] ranges[k])) ==> secret_extent(
            ranges,
        ) <= BANK_SIZE,
    decreases ranges.len(),
{
    if ranges.len() > 0 {
        let init = ranges.drop_last();
        lemma_secret_extent(init);
        assert forall|k: int| 0 <= k < ranges.len() implies (#[trigger] ranges[k]).spec_end()
            <= secret_extent(ranges) by {
            if k < ranges.len() - 1 {
                assert(ranges[k] == init[k]);
            }
        }
        if forall|k: int| 0 <= k < ranges.len() ==> secret_in_bank(#[trigger] ranges[k]) {
            assert forall|k: int| 0 <= k < init.len() implies secret_in_bank(#[trigger] init[k]) by {
                assert(init[k] == ranges[k]);
            }
            assert(secret_in_bank(ranges[ranges.len() - 1]));
        }
    }
}

proof fn lemma_clear_extent(ranges: Seq<ClearRange>)
    ensures
        forall|k: int| 0 <= k < ranges.len() ==> (#[trigger] ranges[k]).spec_end() <= clear_extent(ranges),
        (forall|k: int| 0 <= k < ranges.len() ==> clear_in_bank(#[trigger] ranges[k])) ==> clear_extent(
            ranges,
        ) <= BANK_SIZE,
    decreases ranges.len(),
{
    if ranges.len() > 0 {
        let init = ranges.drop_last();
        lemma_clear_extent(init);
        assert forall|k: int| 0 <= k < ranges.len() implies (#[trigger] ranges[k]).spec_end()
            <= clear_extent(ranges) by {
            if k < ranges.len() - 1 {
                assert(ranges[k] == init[k]);
            }
        }
        if forall|k: int| 0 <= k < ranges.len() ==> clear_in_bank(#[trigger] ranges[k]) {
            assert forall|k: int| 0 <= k < init.len() implies clear_in_bank(#[trigger] init[k]) by {
                assert(init[k] == ranges[k]);
            }
            assert(clear_in_bank(ranges[ranges.len() - 1]));
        }
    }
}

proof fn lemma_inputs_top(decls: Seq<InputDecl>, n: int)
    requires
        0 <= n <= decls.len(),
        forall|k: int| 0 <= k < decls.len() ==> secret_in_bank(#[trigger] decls[k].dest),
    ensures
        inputs_top(decls, n) <= BANK_SIZE,
        forall|k: int| 0 <= k < n ==> (#[trigger] decls[k]).dest.spec_end() <= inputs_top(decls, n),
    decreases n,
{
    if n > 0 {
        lemma_inputs_top(decls, n - 1);
        assert(secret_in_bank(decls[n - 1].dest));
    }
}

proof fn lemma_in_bank_ranges(i: InstructionView)
    requires
        in_bank(i),
    ensures
        forall|k: int| 0 <= k < secret_ranges(i).len() ==> secret_in_bank(#[trigger] secret_ranges(i)[k]),
        forall|k: int| 0 <= k < clear_ranges(i).len() ==> clear_in_bank(#[trigger] clear_ranges(i)[k]),
{
    match i {
        InstructionView::MulS { pairs } | InstructionView::AndS { pairs } | InstructionView::XorS {
            pairs,
        } => {
            lemma_pair_ranges_in_bank(pairs);
        },
        _ => {},
    }
}

proof fn lemma_tops(p: ProgramView, n: int)
    requires
        0 <= n <= p.instructions.len(),
        forall|k: int| 0 <= k < p.inputs.len() ==> secret_in_bank(#[trigger] p.inputs[k].dest),
        forall|j: int| 0 <= j < p.instructions.len() ==> in_bank(#[trigger] p.instructions[j]),
    ensures
        secret_top_of(p, n) <= BANK_SIZE,
        clear_top_of(p, n) <= BANK_SIZE,
        inputs_top(p.inputs, p.inputs.len() as int) <= secret_top_of(p, n),
        forall|j: int, k: int|
            0 <= j < n && 0 <= k < secret_ranges(p.instructions[j]).len() ==> (#[trigger] secret_ranges(
                p.instructions[j],
            )[k]).spec_end() <= secret_top_of(p, n),
        forall|j: int, k: int|
            0 <= j < n && 0 <= k < clear_ranges(p.instructions[j]).len() ==> (#[trigger] clear_ranges(
                p.instructions[j],
            )[k]).spec_end() <= clear_top_of(p, n),
    decreases n,
{
    if n == 0 {
        lemma_inputs_top(p.inputs, p.inputs.len() as int);
    } else {
        lemma_tops(p, n - 1);
        let i = p.instructions[n - 1];
        assert(in_bank(i));
        lemma_in_bank_ranges(i);
        lemma_secret_extent(secret_ranges(i));
        lemma_clear_extent(clear_ranges(i));
    }
}

/// The bank extents of a validated program fit their banks, and cover
/// every run it names: the executor's register files, sized by them,
/// hold every register the program touches.
pub proof fn lemma_validated_extents(p: ProgramView)
    requires
        check_spec(p) is Ok,
    ensures
        secret_top_of(p, p.instructions.len() as int) <= BANK_SIZE,
        clear_top_of(p, p.instructions.len() as int) <= BANK_SIZE,
        forall|k: int|
            0 <= k < p.inputs.len() ==> (#[trigger] p.inputs[k]).dest.spec_end() <= secret_top_of(
                p,
                p.instructions.len() as int,
            ),
        forall|j: int, k: int|
            0 <= j < p.instructions.len() && 0 <= k < secret_ranges(p.instructions[j]).len() ==> (
            #[trigger] secret_ranges(p.instructions[j])[k]).spec_end() <= secret_top_of(
                p,
                p.instructions.len() as int,
            ),
        forall|j: int, k: int|
            0 <= j < p.instructions.len() && 0 <= k < clear_ranges(p.instructions[j]).len() ==> (
            #[trigger] clear_ranges(p.instructions[j])[k]).spec_end() <= clear_top_of(
                p,
                p.instructions.len() as int,
            ),
{
    lemma_validated_programs_are_sound(p);
    lemma_tops(p, p.instructions.len() as int);
    lemma_inputs_top(p.inputs, p.inputs.len() as int);
}


// ---------------------------------------------------------------------
// Def-before-use
// ---------------------------------------------------------------------

/// Whether every register of `base..base + len` is written.
pub open spec fn all_written(written: Seq<bool>, base: int, len: int) -> bool {
    forall|r: int| base <= r < base + len ==> #[trigger] written[r]
}

/// The secret registers written after the first `n` pairs of a batch.
pub open spec fn pairs_written(written: Seq<bool>, pairs: Seq<MulTriple>, n: int) -> Seq<bool>
    decreases n,
{
    if n <= 0 {
        written
    } else {
        marked(pairs_written(written, pairs, n - 1), pairs[n - 1].dest.base as int, pairs[n - 1].dest.len as int)
    }
}

/// The secret registers written once an instruction has run.
pub open spec fn secret_after(written: Seq<bool>, i: InstructionView) -> Seq<bool> {
    match i {
        InstructionView::MulS { pairs } | InstructionView::AndS { pairs } | InstructionView::XorS {
            pairs,
        } => pairs_written(written, pairs, pairs.len() as int),
        InstructionView::AddS { dest, .. } | InstructionView::SubS { dest, .. }
        | InstructionView::AddC { dest, .. } | InstructionView::SubC { dest, .. }
        | InstructionView::MulC { dest, .. } | InstructionView::FpMulS { dest, .. }
        | InstructionView::FpDivC { dest, .. } | InstructionView::NotS { dest, .. }
        | InstructionView::Mux { dest, .. } | InstructionView::Pack { dest, .. }
        | InstructionView::BitDec { dest, .. } | InstructionView::Sbox { dest, .. }
        | InstructionView::ByteXor { dest, .. } => marked(written, dest.base as int, dest.len as int),
        InstructionView::LdC { .. } | InstructionView::Reveal { .. } | InstructionView::Out { .. } =>
            written,
    }
}

/// The clear registers written once an instruction has run.
pub open spec fn clear_after(written: Seq<bool>, i: InstructionView) -> Seq<bool> {
    match i {
        InstructionView::LdC { dest, .. } | InstructionView::Reveal { dest, .. } => marked(
            written,
            dest.base as int,
            dest.len as int,
        ),
        _ => written,
    }
}

/// The secret registers the first `n` input declarations feed.
pub open spec fn inputs_written(decls: Seq<InputDecl>, n: int) -> Seq<bool>
    decreases n,
{
    if n <= 0 {
        unwritten()
    } else {
        marked(inputs_written(decls, n - 1), decls[n - 1].dest.base as int, decls[n - 1].dest.len as int)
    }
}

/// The secret registers written by the inputs and the first `n`
/// instructions of a program.
pub open spec fn secret_written(p: ProgramView, n: int) -> Seq<bool>
    decreases n,
{
    if n <= 0 {
        inputs_written(p.inputs, p.inputs.len() as int)
    } else {
        secret_after(secret_written(p, n - 1), p.instructions[n - 1])
    }
}

/// The clear registers written by the first `n` instructions.
pub open spec fn clear_written(p: ProgramView, n: int) -> Seq<bool>
    decreases n,
{
    if n <= 0 {
        unwritten()
    } else {
        clear_after(clear_written(p, n - 1), p.instructions[n - 1])
    }
}

/// Every register an instruction reads is written in `secret` /
/// `clear`; a batch's pair may also read what earlier pairs of the same
/// batch wrote.
pub open spec fn reads_written(secret: Seq<bool>, clear: Seq<bool>, i: InstructionView) -> bool {
    match i {
        InstructionView::LdC { .. } => true,
        InstructionView::AddS { a, b, .. } | InstructionView::SubS { a, b, .. }
        | InstructionView::ByteXor { a, b, .. } | InstructionView::FpMulS { a, b, .. } =>
            all_written(secret, a.base as int, a.len as int) && all_written(
            secret,
            b.base as int,
            b.len as int,
        ),
        InstructionView::AddC { a, c, .. } | InstructionView::SubC { a, c, .. }
        | InstructionView::MulC { a, c, .. } => all_written(secret, a.base as int, a.len as int)
            && all_written(clear, c.base as int, c.len as int),
        InstructionView::MulS { pairs } | InstructionView::AndS { pairs } | InstructionView::XorS {
            pairs,
        } => forall|k: int|
            0 <= k < pairs.len() ==> all_written(
                pairs_written(secret, pairs, k),
                (#[trigger] pairs[k]).a.base as int,
                pairs[k].a.len as int,
            ) && all_written(pairs_written(secret, pairs, k), pairs[k].b.base as int, pairs[k].b.len as int),
        InstructionView::NotS { a, .. } | InstructionView::FpDivC { a, .. } => all_written(
            secret,
            a.base as int,
            a.len as int,
        ),
        InstructionView::Reveal { src, .. } | InstructionView::Out { src, .. }
        | InstructionView::Pack { src, .. } | InstructionView::BitDec { src, .. }
        | InstructionView::Sbox { src, .. } => all_written(secret, src.base as int, src.len as int),
        InstructionView::Mux { cond, t, f, .. } => all_written(secret, cond.base as int, cond.len as int)
            && all_written(secret, t.base as int, t.len as int) && all_written(
            secret,
            f.base as int,
            f.len as int,
        ),
    }
}

proof fn lemma_read_ok(written: Seq<bool>, index: usize, bank: Bank, base: u32, len: u32)
    requires
        read_error(written, index, bank, base, len) is None,
    ensures
        all_written(written, base as int, len as int),
{
    lemma_first_unwritten(written, base as int, len as int);
}

proof fn lemma_pairs_step_reads(st: CheckState, index: usize, pairs: Seq<MulTriple>, n: int)
    requires
        0 <= n <= pairs.len(),
        pairs_step(st, index, pairs, n) is Ok,
    ensures
        pairs_step(st, index, pairs, n)->Ok_0.secret == pairs_written(st.secret, pairs, n),
        pairs_step(st, index, pairs, n)->Ok_0.clear == st.clear,
        forall|k: int|
            0 <= k < n ==> all_written(
                pairs_written(st.secret, pairs, k),
                (#[trigger] pairs[k]).a.base as int,
                pairs[k].a.len as int,
            ) && all_written(pairs_written(st.secret, pairs, k), pairs[k].b.base as int, pairs[k].b.len as int),
    decreases n,
{
    if n > 0 {
        lemma_pairs_step_reads(st, index, pairs, n - 1);
        let s = pairs_step(st, index, pairs, n - 1)->Ok_0;
        let pair = pairs[n - 1];
        lemma_read_ok(s.secret, index, Bank::Secret, pair.a.base, pair.a.len);
        lemma_read_ok(s.secret, index, Bank::Secret, pair.b.base, pair.b.len);
    }
}

/// An accepted instruction reads only written registers, and writes
/// exactly what [`secret_after`] and [`clear_after`] say.
#[verifier::spinoff_prover]
#[verifier::rlimit(40)]
proof fn lemma_instruction_step_reads(st: CheckState, index: usize, last: usize, i: InstructionView)
    requires
        instruction_step(st, index, last, i) is Ok,
    ensures
        reads_written(st.secret, st.clear, i),
        instruction_step(st, index, last, i)->Ok_0.secret == secret_after(st.secret, i),
        instruction_step(st, index, last, i)->Ok_0.clear == clear_after(st.clear, i),
{
    reveal(instruction_step);
    match i {
        InstructionView::LdC { .. } => {},
        InstructionView::AddS { a, b, .. } | InstructionView::SubS { a, b, .. }
        | InstructionView::ByteXor { a, b, .. } => {
            lemma_read_ok(st.secret, index, Bank::Secret, a.base, a.len);
            lemma_read_ok(st.secret, index, Bank::Secret, b.base, b.len);
        },
        InstructionView::FpMulS { dest, a, b, precision } => {
            let s1 = precision_step(st, index, precision)->Ok_0;
            assert(binary_step(s1, index, dest, a, b) is Ok);
            lemma_read_ok(st.secret, index, Bank::Secret, a.base, a.len);
            lemma_read_ok(st.secret, index, Bank::Secret, b.base, b.len);
        },
        InstructionView::AddC { a, c, .. } | InstructionView::SubC { a, c, .. }
        | InstructionView::MulC { a, c, .. } => {
            lemma_read_ok(st.secret, index, Bank::Secret, a.base, a.len);
            lemma_read_ok(st.clear, index, Bank::Clear, c.base, c.len);
        },
        InstructionView::MulS { pairs } | InstructionView::AndS { pairs } | InstructionView::XorS {
            pairs,
        } => {
            lemma_pairs_step_reads(st, index, pairs, pairs.len() as int);
        },
        InstructionView::NotS { a, .. } | InstructionView::FpDivC { a, .. } => {
            lemma_read_ok(st.secret, index, Bank::Secret, a.base, a.len);
        },
        InstructionView::Reveal { src, .. } | InstructionView::Out { src, .. }
        | InstructionView::Pack { src, .. } | InstructionView::BitDec { src, .. }
        | InstructionView::Sbox { src, .. } => {
            lemma_read_ok(st.secret, index, Bank::Secret, src.base, src.len);
        },
        InstructionView::Mux { cond, t, f, .. } => {
            lemma_read_ok(st.secret, index, Bank::Secret, cond.base, cond.len);
            lemma_read_ok(st.secret, index, Bank::Secret, t.base, t.len);
            lemma_read_ok(st.secret, index, Bank::Secret, f.base, f.len);
        },
    }
}

proof fn lemma_inputs_written(decls: Seq<InputDecl>, n: int)
    requires
        0 <= n <= decls.len(),
        inputs_state(decls, n) is Ok,
    ensures
        inputs_state(decls, n)->Ok_0.0 == inputs_written(decls, n),
    decreases n,
{
    if n > 0 {
        lemma_inputs_written(decls, n - 1);
    }
}

proof fn lemma_prefix_reads(p: ProgramView, st: CheckState, n: int, last: usize)
    requires
        0 <= n <= p.instructions.len(),
        st.secret == secret_written(p, 0),
        st.clear == clear_written(p, 0),
        prefix_state(st, p.instructions, n, last) is Ok,
    ensures
        prefix_state(st, p.instructions, n, last)->Ok_0.secret == secret_written(p, n),
        prefix_state(st, p.instructions, n, last)->Ok_0.clear == clear_written(p, n),
        forall|j: int|
            0 <= j < n ==> reads_written(
                secret_written(p, j),
                clear_written(p, j),
                #[trigger] p.instructions[j],
            ),
    decreases n,
{
    if n > 0 {
        lemma_prefix_reads(p, st, n - 1, last);
        let s = prefix_state(st, p.instructions, n - 1, last)->Ok_0;
        lemma_instruction_step_reads(s, (n - 1) as usize, last, p.instructions[n - 1]);
    }
}

/// Def-before-use: in a validated program, every register an
/// instruction reads was written by an input declaration or an earlier
/// instruction (a batch's pair may also read what an earlier pair of the
/// same batch wrote).
pub proof fn lemma_validated_reads_are_written(p: ProgramView)
    requires
        check_spec(p) is Ok,
    ensures
        forall|j: int|
            0 <= j < p.instructions.len() ==> reads_written(
                secret_written(p, j),
                clear_written(p, j),
                #[trigger] p.instructions[j],
            ),
{
    let count = p.instructions.len();
    let (written, shares) = inputs_state(p.inputs, p.inputs.len() as int)->Ok_0;
    lemma_inputs_written(p.inputs, p.inputs.len() as int);
    lemma_prefix_reads(p, initial_state(written, shares), count as int, (count - 1) as usize);
}


/// The consumer and the parties judge a program alike: the bytes the
/// consumer side validates and serializes decode, on the party side, to
/// the same program with the same verdict (so both digest the same
/// bytes), for a program of this format version.
pub proof fn lemma_submitted_bytes_readmit(p: ProgramView)
    requires
        p.version == VERSION,
        accepted(p) is Ok,
    ensures
        admitted(accepted(p)->Ok_0.1) == Ok::<(ProgramView, (Budget, Option<FixedPrecision>)), VmError>(
            (p, accepted(p)->Ok_0.0),
        ),
{
    lemma_validated_programs_are_sound(p);
    lemma_program_round_trip(p);
}

} // verus!
