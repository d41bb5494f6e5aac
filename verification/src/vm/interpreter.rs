//! The interpreter: straight-line execution of a [`ValidProgram`] as a
//! state machine.
//!
//! Local share arithmetic goes through a [`SecretOps`] backend. Every
//! protocol round (a batched multiplication, an opening, a decomposition,
//! a table lookup) is handed to the host as a [`Request`]; the host runs
//! it and feeds the answer back through [`Interpreter::resume_shares`] or
//! [`Interpreter::resume_values`]. The interpreter owns the register
//! files, the instruction pointer, and the reveal-ordinal accounting, so
//! it runs identically over every engine.

use crate::vm::error::{ValidationError, VmError};
use crate::vm::executor::{first_empty, ordinals_used, Output, Registers};
use crate::vm::isa::{ClearRange, ClientId, FixedPrecision, Instruction, InstructionView, MulTriple, ProgramView, SecretRange};
use crate::vm::validate::{
    clear_ranges, clear_top_of, lemma_validated_extents, lemma_validated_programs_are_sound,
    pair_ranges, secret_ranges, secret_top_of, ValidProgram, MAX_INSTRUCTIONS,
};
use vstd::pervasive::arbitrary;
use vstd::prelude::*;

verus! {

/// A field element a backend computes with: lifted from a `u64`, and
/// negated.
///
/// Each operation is a function of its arguments: an implementation
/// answers as its `*_value` spec function says (the provided spec
/// functions name an unknown value; an implementation states its own).
pub trait Scalar: Copy {
    /// The element `value` stands for.
    closed spec fn element(value: u64) -> Self {
        arbitrary()
    }

    /// The additive inverse of `x`.
    closed spec fn inverse(x: Self) -> Self {
        arbitrary()
    }

    /// The sum of `x` and `y`.
    closed spec fn total(x: Self, y: Self) -> Self {
        arbitrary()
    }

    /// The element `value`.
    fn of_u64(value: u64) -> (element: Self)
        ensures
            element == Self::element(value),
    ;

    /// The additive inverse.
    fn negated(self) -> (inverse: Self)
        ensures
            inverse == Self::inverse(self),
    ;

    /// The sum.
    fn plus(self, other: Self) -> (sum: Self)
        ensures
            sum == Self::total(self, other),
    ;
}

/// The local half of a secret-sharing backend: share arithmetic that
/// needs no protocol round.
///
/// Each operation is a function of the backend and its arguments: it
/// answers what its `*_outcome` spec function gives (the provided spec
/// functions name an unknown outcome; an implementation states its own).
pub trait SecretOps<F, S> {
    /// What `add` answers for `a` and `b`.
    closed spec fn add_outcome(&self, a: S, b: S) -> Result<S, VmError> {
        arbitrary()
    }

    /// What `sub` answers for `a` and `b`.
    closed spec fn sub_outcome(&self, a: S, b: S) -> Result<S, VmError> {
        arbitrary()
    }

    /// What `add_clear` answers for `a` and `c`.
    closed spec fn add_clear_outcome(&self, a: S, c: F) -> Result<S, VmError> {
        arbitrary()
    }

    /// What `sub_clear` answers for `a` and `c`.
    closed spec fn sub_clear_outcome(&self, a: S, c: F) -> Result<S, VmError> {
        arbitrary()
    }

    /// What `mul_clear` answers for `a` and `c`.
    closed spec fn mul_clear_outcome(&self, a: S, c: F) -> Result<S, VmError> {
        arbitrary()
    }

    /// Element-wise secret addition.
    fn add(&self, a: &S, b: &S) -> (sum: Result<S, VmError>)
        ensures
            sum == self.add_outcome(*a, *b),
    ;

    /// Element-wise secret subtraction.
    fn sub(&self, a: &S, b: &S) -> (difference: Result<S, VmError>)
        ensures
            difference == self.sub_outcome(*a, *b),
    ;

    /// Add a public constant to a share.
    fn add_clear(&self, a: &S, c: F) -> (sum: Result<S, VmError>)
        ensures
            sum == self.add_clear_outcome(*a, c),
    ;

    /// Subtract a public constant from a share.
    fn sub_clear(&self, a: &S, c: F) -> (difference: Result<S, VmError>)
        ensures
            difference == self.sub_clear_outcome(*a, c),
    ;

    /// Scale a share by a public constant.
    fn mul_clear(&self, a: &S, c: F) -> (product: Result<S, VmError>)
        ensures
            product == self.mul_clear_outcome(*a, c),
    ;
}

/// One protocol round the host runs for the interpreter.
pub enum Request<F, S> {
    /// Batched multiplication of `x` by `y`, element by element; answer
    /// with the products.
    Multiply { x: Vec<S>, y: Vec<S> },
    /// Element-wise fixed-point multiplication with truncation; answer
    /// with the products.
    FixedMultiply { x: Vec<S>, y: Vec<S>, precision: FixedPrecision },
    /// Element-wise fixed-point division by a public divisor; answer with
    /// the quotients.
    FixedDivide { x: Vec<S>, divisor: F, precision: FixedPrecision },
    /// Open the shares under reveal ordinal `ordinal`; answer with the
    /// opened values.
    Reveal { ordinal: u32, shares: Vec<S> },
    /// Decompose every element into its `width` low bits, LSB-first;
    /// answer with the bit shares.
    BitDec { ordinal: u32, x: Vec<S>, width: u8 },
    /// Batched AES S-box on LSB-first byte bit groups; answer with the
    /// substituted bit shares.
    Sbox { ordinal: u32, x: Vec<S> },
    /// Element-wise byte XOR; answer with the XORed bytes.
    ByteXor { ordinal: u32, a: Vec<S>, b: Vec<S> },
}

/// What the interpreter needs next.
pub enum Step<F, S> {
    /// Run this round and resume with its answer.
    Await(Request<F, S>),
    /// The program finished with this output.
    Finished(Output<S>),
}

/// Whether an instruction needs a protocol round.
pub open spec fn interactive(i: InstructionView) -> bool {
    match i {
        InstructionView::MulS { .. } | InstructionView::AndS { .. } | InstructionView::XorS { .. }
        | InstructionView::FpMulS { .. } | InstructionView::FpDivC { .. } | InstructionView::Reveal { .. }
        | InstructionView::Mux { .. } | InstructionView::BitDec { .. } | InstructionView::Sbox { .. }
        | InstructionView::ByteXor { .. } => true,
        _ => false,
    }
}

/// The reveal ordinals the first `n` instructions consume.
pub open spec fn ordinals_before(is: Seq<InstructionView>, n: int) -> nat
    decreases n,
{
    if n <= 0 {
        0
    } else {
        ordinals_before(is, n - 1) + ordinals_used(is[n - 1])
    }
}

/// The elements a batch of pairs multiplies.
pub open spec fn pairs_total(pairs: Seq<MulTriple>) -> nat
    decreases pairs.len(),
{
    if pairs.len() == 0 {
        0
    } else {
        pairs_total(pairs.drop_last()) + pairs.last().a.len as nat
    }
}

/// Every `Pack` weighs at most 64 bits per element.
pub open spec fn packs_fit(is: Seq<InstructionView>) -> bool {
    forall|j: int| 0 <= j < is.len() ==> (#[trigger] is[j] matches InstructionView::Pack { width, .. } ==> width <= 64)
}

/// The request an interactive instruction makes at reveal ordinal
/// `ordinal`: its kind, its ordinal, and the sizes of what it sends.
pub open spec fn requested<F, S>(r: Request<F, S>, i: InstructionView, ordinal: u32) -> bool {
    match i {
        InstructionView::MulS { pairs } | InstructionView::AndS { pairs } | InstructionView::XorS { pairs } =>
            r matches Request::Multiply { x, y } && x@.len() == pairs_total(pairs) && y@.len() == pairs_total(pairs),
        InstructionView::FpMulS { dest, precision, .. } => r matches Request::FixedMultiply { x, y, precision: p }
            && p == precision && x@.len() == dest.len && y@.len() == dest.len,
        InstructionView::FpDivC { dest, precision, .. } => r matches Request::FixedDivide { x, precision: p, .. }
            && p == precision && x@.len() == dest.len,
        InstructionView::Reveal { src, .. } => r matches Request::Reveal { ordinal: o, shares } && o == ordinal
            && shares@.len() == src.len,
        InstructionView::Mux { dest, .. } => r matches Request::Multiply { x, y } && x@.len() == dest.len
            && y@.len() == dest.len,
        InstructionView::BitDec { src, width, .. } => r matches Request::BitDec { ordinal: o, x, width: w } && o
            == ordinal && w == width && x@.len() == src.len,
        InstructionView::Sbox { src, .. } => r matches Request::Sbox { ordinal: o, x } && o == ordinal && x@.len()
            == src.len,
        InstructionView::ByteXor { dest, .. } => r matches Request::ByteXor { ordinal: o, a, b } && o == ordinal
            && a@.len() == dest.len && b@.len() == dest.len,
        _ => false,
    }
}

/// Reveal ordinals follow program order: a run starts at ordinal zero,
/// the instruction at `a` takes `ordinals_used(is[a])` ordinals from
/// `ordinals_before(is, a)` on (one for `Reveal` and `BitDec`, two for
/// `Sbox` and `ByteXor`), and every later instruction's come after them.
pub proof fn lemma_ordinals_in_program_order(is: Seq<InstructionView>, a: int, b: int)
    requires
        0 <= a < b <= is.len(),
    ensures
        ordinals_before(is, 0) == 0,
        ordinals_before(is, a + 1) == ordinals_before(is, a) + ordinals_used(is[a]),
        ordinals_before(is, a) + ordinals_used(is[a]) <= ordinals_before(is, b),
    decreases b - a,
{
    if b > a + 1 {
        lemma_ordinals_in_program_order(is, a, b - 1);
    }
}

/// No instruction consumes more than two reveal ordinals, so a program
/// of at most [`MAX_INSTRUCTIONS`] instructions never runs the ordinal
/// counter near its limit.
pub proof fn lemma_ordinals_bound(is: Seq<InstructionView>, n: int)
    requires
        0 <= n <= is.len(),
    ensures
        ordinals_before(is, n) <= 2 * n,
    decreases n,
{
    if n > 0 {
        lemma_ordinals_bound(is, n - 1);
    }
}

proof fn lemma_pair_ranges(pairs: Seq<MulTriple>, m: int)
    requires
        0 <= m < pairs.len(),
    ensures
        pair_ranges(pairs).len() == 3 * pairs.len(),
        pair_ranges(pairs)[3 * m] == pairs[m].dest,
        pair_ranges(pairs)[3 * m + 1] == pairs[m].a,
        pair_ranges(pairs)[3 * m + 2] == pairs[m].b,
    decreases pairs.len(),
{
    let rest = pairs.skip(1);
    if m == 0 {
        if pairs.len() > 1 {
            lemma_pair_ranges(rest, 0);
        } else {
            assert(rest.len() == 0);
            assert(pair_ranges(rest) == Seq::<SecretRange>::empty());
        }
    } else {
        lemma_pair_ranges(rest, m - 1);
        assert(rest[m - 1] == pairs[m]);
    }
}

/// The registers `slots` after `values` were written from `base` on.
pub open spec fn stored<T>(slots: Seq<Option<T>>, base: u32, values: Seq<T>) -> Seq<Option<T>> {
    Seq::new(
        slots.len(),
        |r: int|
            if base <= r < base + values.len() {
                Some(values[r - base])
            } else {
                slots[r]
            },
    )
}

/// Every register of `base..base + len` holds a value.
pub open spec fn run_written<T>(slots: Seq<Option<T>>, base: u32, len: u32) -> bool {
    first_empty(slots, base as int, len as int) is None
}

/// Every operand run of a batch of pairs holds values.
pub open spec fn pairs_written<S>(secret: Seq<Option<S>>, pairs: Seq<MulTriple>) -> bool {
    forall|m: int|
        0 <= m < pairs.len() ==> run_written(secret, (#[trigger] pairs[m]).a.base, pairs[m].a.len)
            && run_written(secret, pairs[m].b.base, pairs[m].b.len)
}

/// Every run an instruction reads holds values.
pub open spec fn operands_written<F, S>(secret: Seq<Option<S>>, clear: Seq<Option<F>>, i: InstructionView) -> bool {
    match i {
        InstructionView::LdC { .. } => true,
        InstructionView::AddS { a, b, .. } | InstructionView::SubS { a, b, .. }
        | InstructionView::FpMulS { a, b, .. } | InstructionView::ByteXor { a, b, .. } =>
            run_written(secret, a.base, a.len) && run_written(secret, b.base, b.len),
        InstructionView::AddC { a, c, .. } | InstructionView::SubC { a, c, .. }
        | InstructionView::MulC { a, c, .. } => run_written(secret, a.base, a.len) && run_written(clear, c.base, c.len),
        InstructionView::FpDivC { a, .. } | InstructionView::NotS { a, .. } => run_written(secret, a.base, a.len),
        InstructionView::MulS { pairs } | InstructionView::AndS { pairs } | InstructionView::XorS { pairs } =>
            pairs_written(secret, pairs),
        InstructionView::Reveal { src, .. } | InstructionView::Out { src, .. } | InstructionView::Pack { src, .. }
        | InstructionView::BitDec { src, .. } | InstructionView::Sbox { src, .. } =>
            run_written(secret, src.base, src.len),
        InstructionView::Mux { cond, t, f, .. } => run_written(secret, cond.base, cond.len)
            && run_written(secret, t.base, t.len) && run_written(secret, f.base, f.len),
    }
}

/// The one destination run of an instruction whose round answers a
/// single run: a fixed-point product or quotient, a decomposition, an
/// S-box or a byte XOR.
pub open spec fn answered_run(i: InstructionView) -> Option<SecretRange> {
    match i {
        InstructionView::FpMulS { dest, .. } | InstructionView::FpDivC { dest, .. } | InstructionView::BitDec {
            dest,
            ..
        } | InstructionView::Sbox { dest, .. } | InstructionView::ByteXor { dest, .. } => Some(dest),
        _ => None,
    }
}

/// `values` are copies of the registers of run `r`, in order.
pub open spec fn copies_of<S: Clone>(slots: Seq<Option<S>>, r: SecretRange, values: Seq<S>) -> bool {
    &&& values.len() == r.len
    &&& forall|k: int| 0 <= k < r.len ==> cloned(#[trigger] slots[r.base + k]->Some_0, values[k])
}

/// Pair `m` of a batch sent its left operands at `x[at..]` and its right
/// operands at `y[at..]`, where `at` counts the elements of the pairs
/// before it.
pub open spec fn pair_copied<S: Clone>(slots: Seq<Option<S>>, pairs: Seq<MulTriple>, m: int, x: Seq<S>, y: Seq<S>) -> bool {
    let at = pairs_total(pairs.take(m)) as int;
    &&& copies_of(slots, pairs[m].a, x.subrange(at, at + pairs[m].a.len))
    &&& copies_of(slots, pairs[m].b, y.subrange(at, at + pairs[m].b.len))
}

/// `x` and `y` are the operands of a batch of pairs, pair after pair.
pub open spec fn batch_copies<S: Clone>(slots: Seq<Option<S>>, pairs: Seq<MulTriple>, x: Seq<S>, y: Seq<S>) -> bool {
    &&& x.len() == pairs_total(pairs)
    &&& y.len() == pairs_total(pairs)
    &&& forall|m: int| 0 <= m < pairs.len() ==> #[trigger] pair_copied(slots, pairs, m, x, y)
}

/// The operands a request carries are copies of the registers its
/// instruction reads (a `Mux` sends differences its backend computed).
pub open spec fn carries_operands<F, S: Clone>(r: Request<F, S>, i: InstructionView, slots: Seq<Option<S>>) -> bool {
    match i {
        InstructionView::MulS { pairs } => r matches Request::Multiply { x, y } && batch_copies(slots, pairs, x@, y@),
        InstructionView::AndS { pairs } => r matches Request::Multiply { x, y } && batch_copies(slots, pairs, x@, y@),
        InstructionView::XorS { pairs } => r matches Request::Multiply { x, y } && batch_copies(slots, pairs, x@, y@),
        InstructionView::FpMulS { a, b, .. } => r matches Request::FixedMultiply { x, y, .. } && copies_of(
            slots,
            a,
            x@,
        ) && copies_of(slots, b, y@),
        InstructionView::FpDivC { a, .. } => r matches Request::FixedDivide { x, .. } && copies_of(slots, a, x@),
        InstructionView::Reveal { src, .. } => r matches Request::Reveal { shares, .. } && copies_of(slots, src, shares@),
        InstructionView::BitDec { src, .. } => r matches Request::BitDec { x, .. } && copies_of(slots, src, x@),
        InstructionView::Sbox { src, .. } => r matches Request::Sbox { x, .. } && copies_of(slots, src, x@),
        InstructionView::ByteXor { a, b, .. } => r matches Request::ByteXor { a: left, b: right, .. } && copies_of(
            slots,
            a,
            left@,
        ) && copies_of(slots, b, right@),
        _ => true,
    }
}

/// The elements the destinations of a batch of pairs take.
pub open spec fn dests_total(pairs: Seq<MulTriple>) -> nat
    decreases pairs.len(),
{
    if pairs.len() == 0 {
        0
    } else {
        dests_total(pairs.drop_last()) + pairs.last().dest.len as nat
    }
}

/// Where, in an answer of `answered` products to a batch, the value that
/// the first `n` pairs leave in register `r` comes from: the answer is
/// dealt out to the destinations in order, each taking at most its own
/// length, and a later pair overwrites an earlier one.
pub open spec fn batch_source(pairs: Seq<MulTriple>, n: int, answered: int, r: int) -> Option<int>
    decreases n,
{
    if n <= 0 {
        None
    } else {
        let d = pairs[n - 1].dest;
        let at = dests_total(pairs.take(n - 1)) as int;
        if d.base <= r && r < d.base + d.len && at + (r - d.base) < answered {
            Some(at + (r - d.base))
        } else {
            batch_source(pairs, n - 1, answered, r)
        }
    }
}

/// `after` is `before` once the first `n` pairs of a batch took their
/// products out of `results`.
pub open spec fn batch_landed<S: Clone>(
    before: Seq<Option<S>>,
    after: Seq<Option<S>>,
    pairs: Seq<MulTriple>,
    n: int,
    results: Seq<S>,
) -> bool {
    &&& after.len() == before.len()
    &&& forall|r: int|
        0 <= r < before.len() ==> match #[trigger] batch_source(pairs, n, results.len() as int, r) {
            Some(p) => after[r] is Some && cloned(results[p], after[r]->Some_0),
            None => after[r] == before[r],
        }
}

/// What an awaited request keeps for its answer: copies of the operands
/// a `XorS` batch sent, or copies of the false choices of a `Mux`.
pub open spec fn keeps_for_answer<F, S: Clone>(
    r: Request<F, S>,
    i: InstructionView,
    held: (Seq<S>, Seq<S>),
    slots: Seq<Option<S>>,
) -> bool {
    match i {
        InstructionView::XorS { .. } => r matches Request::Multiply { x, y } && held.0.len() == x@.len()
            && held.1.len() == y@.len() && (forall|k: int| 0 <= k < x@.len() ==> cloned(x@[k], #[trigger] held.0[k]))
            && (forall|k: int| 0 <= k < y@.len() ==> cloned(y@[k], #[trigger] held.1[k])),
        InstructionView::Mux { f, .. } => copies_of(slots, f, held.0),
        _ => true,
    }
}

/// A `Mux` request: the backend's differences `t - f` of copies of the
/// choices, against copies of the condition's one share.
spec fn mux_requested<F, S: Clone, O: SecretOps<F, S>>(
    ops: O,
    request: Result<Request<F, S>, VmError>,
    cond: SecretRange,
    t: SecretRange,
    f: SecretRange,
    slots: Seq<Option<S>>,
) -> bool {
    exists|sel: Seq<S>, tc: Seq<S>, fc: Seq<S>|
        #![trigger copies_of(slots, cond, sel), copies_of(slots, t, tc), copies_of(slots, f, fc)]
        copies_of(slots, cond, sel) && copies_of(slots, t, tc) && copies_of(slots, f, fc) && match all_of(
            local_each(ops, tc, fc, Local::Sub),
            shorter(t.len as int, f.len as int),
        ) {
            Ok(d) => request matches Ok(Request::Multiply { x, y }) && x@ == d && y@.len() == t.len && (forall|k: int|
                0 <= k < y@.len() ==> cloned(sel[0], #[trigger] y@[k])),
            Err(e) => request == Err::<Request<F, S>, VmError>(e),
        }
}

/// Register `r` lies in no destination run of a batch of pairs.
pub open spec fn outside_dests(pairs: Seq<MulTriple>, r: int) -> bool {
    forall|m: int|
        0 <= m < pairs.len() ==> !((#[trigger] pairs[m]).dest.base <= r && r < pairs[m].dest.base + pairs[m].dest.len)
}

/// Register `r` lies in none of the runs an instruction writes.
pub open spec fn untouched_by(i: InstructionView, r: int) -> bool {
    match i {
        InstructionView::MulS { pairs } => outside_dests(pairs, r),
        InstructionView::AndS { pairs } => outside_dests(pairs, r),
        InstructionView::XorS { pairs } => outside_dests(pairs, r),
        InstructionView::AddS { dest, .. } | InstructionView::SubS { dest, .. } | InstructionView::AddC { dest, .. }
        | InstructionView::SubC { dest, .. } | InstructionView::MulC { dest, .. } | InstructionView::FpMulS {
            dest,
            ..
        } | InstructionView::FpDivC { dest, .. } | InstructionView::NotS { dest, .. } | InstructionView::Mux {
            dest,
            ..
        } | InstructionView::Pack { dest, .. } | InstructionView::BitDec { dest, .. } | InstructionView::Sbox {
            dest,
            ..
        } | InstructionView::ByteXor { dest, .. } => !(dest.base <= r < dest.base + dest.len),
        _ => true,
    }
}

/// `after` is `before` with copies of the first `len` of `values` (as
/// many as there are) written from `base` on, and nothing else changed.
pub open spec fn holds_copies<T: Clone>(before: Seq<Option<T>>, after: Seq<Option<T>>, base: u32, len: u32, values: Seq<T>) -> bool {
    let n = if values.len() < len { values.len() as int } else { len as int };
    &&& after.len() == before.len()
    &&& forall|r: int| 0 <= r < before.len() && !(base <= r < base + n) ==> #[trigger] after[r] == before[r]
    &&& forall|k: int| 0 <= k < n ==> (#[trigger] after[base + k]) is Some && cloned(values[k], after[base + k]->Some_0)
}

/// A run ends inside a bank of `top` registers.
pub open spec fn secret_fits(r: SecretRange, top: nat) -> bool {
    r.base + r.len <= top
}

/// A clear run ends inside a bank of `top` registers.
pub open spec fn clear_fits(r: ClearRange, top: nat) -> bool {
    r.base + r.len <= top
}

/// The interpreter's progress through one validated program.
pub struct Interpreter<F, S> {
    registers: Registers<F, S>,
    next: usize,
    ordinal: u32,
    delivered: Option<Output<S>>,
    pending: bool,
    held: Vec<S>,
    held_right: Vec<S>,
    program: Ghost<ProgramView>,
}

impl<F: Scalar, S: Clone> Interpreter<F, S> {
    /// The program being run.
    pub closed spec fn program(&self) -> ProgramView {
        self.program@
    }

    /// The secret registers' contents.
    pub closed spec fn secret_slots(&self) -> Seq<Option<S>> {
        self.registers.secret.slots_of()
    }

    /// The shares of the output delivered so far (none before `Out` ran).
    pub closed spec fn delivered_shares(&self) -> Seq<S> {
        match self.delivered {
            Some(out) => out.shares@,
            None => Seq::empty(),
        }
    }

    /// The operands an awaited `XorS` or `Mux` keeps for its answer: the
    /// left and right operands of a `XorS`, or the false choices of a `Mux`.
    pub closed spec fn held_operands(&self) -> (Seq<S>, Seq<S>) {
        (self.held@, self.held_right@)
    }

    /// The clear registers' contents.
    pub closed spec fn clear_slots(&self) -> Seq<Option<F>> {
        self.registers.clear.slots_of()
    }

    /// The index of the next instruction to run.
    pub closed spec fn next(&self) -> nat {
        self.next as nat
    }

    /// The next reveal ordinal.
    pub closed spec fn ordinal(&self) -> u32 {
        self.ordinal
    }

    /// A request is out and its answer awaited.
    pub closed spec fn pending(&self) -> bool {
        self.pending
    }

    /// The client and length of the output delivered so far, if any.
    pub closed spec fn delivered(&self) -> Option<(ClientId, nat)> {
        match self.delivered {
            Some(out) => Some((out.client, out.shares@.len())),
            None => None,
        }
    }

    /// The interpreter agrees with the program it runs.
    pub closed spec fn wf(&self, valid: ValidProgram) -> bool {
        let p = self.program@;
        let is = p.instructions;
        &&& p == valid.program_view()
        &&& valid.wf()
        &&& self.registers.clear.slots_of().len() == valid.clear_top_view()
        &&& self.registers.secret.slots_of().len() == valid.secret_top_view()
        &&& self.next <= is.len()
        &&& self.ordinal == ordinals_before(is, self.next as int)
        &&& self.pending ==> self.next < is.len() && interactive(is[self.next as int])
        &&& (self.pending && is[self.next as int] is XorS) ==> (self.held@.len() == pairs_total(
            is[self.next as int]->XorS_pairs,
        ) && self.held_right@.len() == pairs_total(is[self.next as int]->XorS_pairs))
        &&& (self.pending && is[self.next as int] is Mux) ==> self.held@.len() == is[self.next as int]->Mux_dest.len
        &&& self.next == is.len() ==> self.delivered() == Some(
            (is.last()->Out_client, is.last()->Out_src.len as nat),
        )
    }

    /// Every run instruction `j` names fits the register files.
    proof fn lemma_fits(&self, valid: ValidProgram, j: int)
        requires
            self.wf(valid),
            0 <= j < self.program().instructions.len(),
        ensures
            forall|k: int| 0 <= k < secret_ranges(self.program().instructions[j]).len() ==> secret_fits(
                #[trigger] secret_ranges(self.program().instructions[j])[k],
                self.registers.secret.slots_of().len(),
            ),
            forall|k: int| 0 <= k < clear_ranges(self.program().instructions[j]).len() ==> clear_fits(
                #[trigger] clear_ranges(self.program().instructions[j])[k],
                self.registers.clear.slots_of().len(),
            ),
            forall|k: int| 0 <= k < self.program().inputs.len() ==> secret_fits(
                (#[trigger] self.program().inputs[k]).dest,
                self.registers.secret.slots_of().len(),
            ),
            crate::vm::codec::well_shaped(self.program().instructions[j]),
            self.program().instructions.len() <= MAX_INSTRUCTIONS,
    {
        let p = self.program();
        lemma_validated_extents(p);
        lemma_validated_programs_are_sound(p);
        assert(crate::vm::codec::well_shaped(p.instructions[j]));
    }

    /// Start a run: empty register files sized to the program's extents.
    pub fn new(valid: &ValidProgram) -> (interpreter: Interpreter<F, S>)
        requires
            valid.wf(),
        ensures
            interpreter.wf(*valid),
            interpreter.program() == valid.program_view(),
            interpreter.next() == 0,
            interpreter.ordinal() == 0,
            !interpreter.pending(),
            interpreter.delivered() is None,
    {
        Interpreter {
            registers: Registers::new(valid.clear_top(), valid.secret_top()),
            next: 0,
            ordinal: 0,
            delivered: None,
            pending: false,
            held: Vec::new(),
            held_right: Vec::new(),
            program: Ghost(valid.program_view()),
        }
    }

    /// Load the shares input declaration `decl` supplies, when they came.
    ///
    /// # Errors
    ///
    /// - [`VmError::MissingInput`]: the declared client supplied nothing.
    /// - [`VmError::InputArity`]: it supplied a different number of shares.
    pub fn supply_input(&mut self, valid: &ValidProgram, decl: usize, shares: Option<&Vec<S>>) -> (loaded: Result<(), VmError>)
        requires
            old(self).wf(*valid),
            decl < old(self).program().inputs.len(),
        ensures
            final(self).wf(*valid),
            final(self).next() == old(self).next(),
            final(self).pending() == old(self).pending(),
            final(self).delivered() == old(self).delivered(),
            ({
                let d = old(self).program().inputs[decl as int];
                &&& shares is None ==> loaded == Err::<(), VmError>(VmError::MissingInput { client: d.client })
                &&& (shares is Some && shares->Some_0@.len() != d.dest.len) ==> loaded == Err::<(), VmError>(
                    VmError::InputArity {
                        client: d.client,
                        expected: d.dest.len as usize,
                        got: shares->Some_0@.len() as usize,
                    },
                )
                &&& (shares is Some && shares->Some_0@.len() == d.dest.len) ==> loaded is Ok
                &&& loaded is Ok ==> holds_copies(
                    old(self).secret_slots(),
                    final(self).secret_slots(),
                    d.dest.base,
                    d.dest.len,
                    shares->Some_0@,
                )
                &&& loaded is Err ==> final(self).secret_slots() == old(self).secret_slots()
            }),
            final(self).clear_slots() == old(self).clear_slots(),
    {
        let declaration = &valid.program().inputs[decl];
        proof {
            assert(declaration.dest == self.program().inputs[decl as int].dest);
            if self.program().instructions.len() > 0 {
                self.lemma_fits(*valid, 0);
            } else {
                lemma_validated_programs_are_sound(self.program());
            }
        }
        let supplied = match shares {
            Some(supplied) => supplied,
            None => return Err(VmError::MissingInput { client: declaration.client }),
        };
        if supplied.len() != declaration.dest.len as usize {
            return Err(VmError::InputArity {
                client: declaration.client,
                expected: declaration.dest.len as usize,
                got: supplied.len(),
            });
        }
        let copies = supplied.clone();
        let ghost before = self.secret_slots();
        self.registers.write_secret(&declaration.dest, copies);
        proof {
            let after = self.secret_slots();
            let base = declaration.dest.base;
            assert forall|k: int| 0 <= k < copies@.len() implies (#[trigger] after[base + k]) is Some && cloned(
                supplied@[k],
                after[base + k]->Some_0,
            ) by {
                assert(cloned(supplied@[k], copies@[k]));
                assert(after[base + k] == Some(copies@[(base + k) - base]));
            }
        }
        Ok(())
    }
}

/// The local arithmetic a zip applies.
#[derive(Clone, Copy)]
enum Local {
    Add,
    Sub,
}

/// The local arithmetic by a public constant a zip applies.
#[derive(Clone, Copy)]
enum ByClear {
    Add,
    Sub,
    Mul,
}

/// The outcomes `each(0)`, ..., `each(n - 1)` taken in order: all their
/// values, or the first error among them.
pub open spec fn all_of<S>(each: spec_fn(int) -> Result<S, VmError>, n: int) -> Result<Seq<S>, VmError>
    decreases n,
{
    if n <= 0 {
        Ok(Seq::empty())
    } else {
        match all_of(each, n - 1) {
            Ok(done) => match each(n - 1) {
                Ok(v) => Ok(done.push(v)),
                Err(e) => Err(e),
            },
            Err(e) => Err(e),
        }
    }
}

/// Once an error came, later outcomes change nothing.
pub proof fn lemma_all_of_stops<S>(each: spec_fn(int) -> Result<S, VmError>, j: int, n: int)
    requires
        0 <= j <= n,
        all_of(each, j) is Err,
    ensures
        all_of(each, n) == all_of(each, j),
    decreases n - j,
{
    if n > j {
        lemma_all_of_stops(each, j, n - 1);
    }
}

/// All `n` outcomes succeeded: there are `n` values.
pub proof fn lemma_all_of_len<S>(each: spec_fn(int) -> Result<S, VmError>, n: int)
    requires
        0 <= n,
        all_of(each, n) is Ok,
    ensures
        all_of(each, n)->Ok_0.len() == n,
    decreases n,
{
    if n > 0 {
        lemma_all_of_len(each, n - 1);
    }
}

/// What `all_of` gives once the first `n + 1` outcomes are known.
pub proof fn lemma_all_of_step<S>(each: spec_fn(int) -> Result<S, VmError>, n: int)
    requires
        0 <= n,
    ensures
        all_of(each, n + 1) == match all_of(each, n) {
            Ok(done) => match each(n) {
                Ok(v) => Ok(done.push(v)),
                Err(e) => Err(e),
            },
            Err(e) => Err(e),
        },
{
}

/// The smaller of two lengths.
pub open spec fn shorter(a: int, b: int) -> int {
    if a <= b {
        a
    } else {
        b
    }
}

/// What a backend answers, element by element, for a local binary
/// secret operation on `a` and `b`.
spec fn local_each<F, S, O: SecretOps<F, S>>(ops: O, a: Seq<S>, b: Seq<S>, op: Local) -> spec_fn(int) -> Result<S, VmError> {
    |k: int|
        match op {
            Local::Add => ops.add_outcome(a[k], b[k]),
            Local::Sub => ops.sub_outcome(a[k], b[k]),
        }
}

/// What a backend answers, element by element, for a local operation of
/// `a` by the public constants `c`.
spec fn by_clear_each<F, S, O: SecretOps<F, S>>(ops: O, a: Seq<S>, c: Seq<F>, op: ByClear) -> spec_fn(int) -> Result<S, VmError> {
    |k: int|
        match op {
            ByClear::Add => ops.add_clear_outcome(a[k], c[k]),
            ByClear::Sub => ops.sub_clear_outcome(a[k], c[k]),
            ByClear::Mul => ops.mul_clear_outcome(a[k], c[k]),
        }
}

/// What a backend answers, element by element, for `NotS` on the bits
/// `a`: each bit times minus one, plus one.
pub open spec fn not_each<F: Scalar, S, O: SecretOps<F, S>>(ops: O, a: Seq<S>) -> spec_fn(int) -> Result<S, VmError> {
    |k: int|
        match ops.mul_clear_outcome(a[k], F::inverse(F::element(1))) {
            Ok(flipped) => ops.add_clear_outcome(flipped, F::element(1)),
            Err(e) => Err(e),
        }
}

/// What a backend answers, element by element, for a `XorS` batch whose
/// operands are `x` and `y` and whose products came back as `products`:
/// `x + y - 2xy`, as the sum, the doubled product and their difference.
pub open spec fn xor_each<F: Scalar, S, O: SecretOps<F, S>>(ops: O, x: Seq<S>, y: Seq<S>, products: Seq<S>) -> spec_fn(
    int,
) -> Result<S, VmError> {
    |k: int|
        match ops.add_outcome(x[k], y[k]) {
            Ok(sum) => match ops.mul_clear_outcome(products[k], F::element(2)) {
                Ok(doubled) => ops.sub_outcome(sum, doubled),
                Err(e) => Err(e),
            },
            Err(e) => Err(e),
        }
}

/// What a backend answers, element by element, for a `Mux` whose false
/// choices are `f` and whose scaled differences came back as `scaled`.
pub open spec fn mux_each<F, S, O: SecretOps<F, S>>(ops: O, f: Seq<S>, scaled: Seq<S>) -> spec_fn(int) -> Result<S, VmError> {
    |k: int| ops.add_outcome(f[k], scaled[k])
}

/// `after` is `before` once the first `n` pairs of a batch took their
/// values out of `values`, a batch answer of `answered` elements.
pub open spec fn batch_holds<S>(
    before: Seq<Option<S>>,
    after: Seq<Option<S>>,
    pairs: Seq<MulTriple>,
    n: int,
    answered: int,
    values: Seq<S>,
) -> bool {
    &&& after.len() == before.len()
    &&& forall|r: int|
        0 <= r < before.len() ==> match #[trigger] batch_source(pairs, n, answered, r) {
            Some(p) => after[r] == Some(values[p]),
            None => after[r] == before[r],
        }
}

/// What a backend answers for packing the bits `bits[base..base + n]`,
/// least significant first: bit 0 times one, then each bit `p` times
/// `2^p` added on in turn.
pub open spec fn packed_outcome<F: Scalar, S, O: SecretOps<F, S>>(ops: O, bits: Seq<S>, base: int, n: int) -> Result<
    S,
    VmError,
>
    decreases n,
{
    if n <= 1 {
        ops.mul_clear_outcome(bits[base], F::element(1))
    } else {
        match packed_outcome(ops, bits, base, n - 1) {
            Ok(total) => match ops.mul_clear_outcome(bits[base + n - 1], F::element(1u64 << ((n - 1) as u64))) {
                Ok(weighted) => ops.add_outcome(total, weighted),
                Err(e) => Err(e),
            },
            Err(e) => Err(e),
        }
    }
}

/// What a backend answers, element by element, for `Pack` at `width`
/// bits per element.
pub open spec fn pack_each<F: Scalar, S, O: SecretOps<F, S>>(ops: O, bits: Seq<S>, width: int) -> spec_fn(int) -> Result<
    S,
    VmError,
> {
    |e: int| packed_outcome(ops, bits, e * width, width)
}

/// Once packing an element failed, the later bits change nothing.
pub proof fn lemma_packed_stops<F: Scalar, S, O: SecretOps<F, S>>(ops: O, bits: Seq<S>, base: int, j: int, n: int)
    requires
        1 <= j <= n,
        packed_outcome(ops, bits, base, j) is Err,
    ensures
        packed_outcome(ops, bits, base, n) == packed_outcome(ops, bits, base, j),
    decreases n - j,
{
    if n > j {
        lemma_packed_stops(ops, bits, base, j, n - 1);
    }
}

/// `values` are copies of the registers of clear run `r`, in order.
pub open spec fn clear_copies_of<F: Clone>(slots: Seq<Option<F>>, r: ClearRange, values: Seq<F>) -> bool {
    &&& values.len() == r.len
    &&& forall|k: int| 0 <= k < r.len ==> cloned(#[trigger] slots[r.base + k]->Some_0, values[k])
}

/// A local instruction's outcome lands: its values are written from
/// `dest.base` on, and it succeeds; or it fails with the backend's error.
pub open spec fn lands<S>(
    outcome: Result<Seq<S>, VmError>,
    ran: Result<(), VmError>,
    before: Seq<Option<S>>,
    after: Seq<Option<S>>,
    dest: SecretRange,
) -> bool {
    match outcome {
        Ok(v) => ran is Ok && after == stored(before, dest.base, v),
        Err(e) => ran == Err::<(), VmError>(e),
    }
}

/// A binary local instruction ran on copies of its operand runs `a` and
/// `b`, and what the backend answered landed in `dest`.
spec fn binary_lands<F, S: Clone, O: SecretOps<F, S>>(
    ops: O,
    before: Seq<Option<S>>,
    after: Seq<Option<S>>,
    ran: Result<(), VmError>,
    dest: SecretRange,
    a: SecretRange,
    b: SecretRange,
    op: Local,
) -> bool {
    exists|left: Seq<S>, right: Seq<S>|
        #![trigger copies_of(before, a, left), copies_of(before, b, right)]
        copies_of(before, a, left) && copies_of(before, b, right) && lands(
            all_of(local_each(ops, left, right, op), shorter(a.len as int, b.len as int)),
            ran,
            before,
            after,
            dest,
        )
}

/// A local instruction by public constants ran on copies of its operand
/// run `a` and its constants `c`, and what the backend answered landed in
/// `dest`.
spec fn by_clear_lands<F: Clone, S: Clone, O: SecretOps<F, S>>(
    ops: O,
    before: Seq<Option<S>>,
    clear: Seq<Option<F>>,
    after: Seq<Option<S>>,
    ran: Result<(), VmError>,
    dest: SecretRange,
    a: SecretRange,
    c: ClearRange,
    op: ByClear,
) -> bool {
    exists|shares: Seq<S>, constants: Seq<F>|
        #![trigger copies_of(before, a, shares), clear_copies_of(clear, c, constants)]
        copies_of(before, a, shares) && clear_copies_of(clear, c, constants) && lands(
            all_of(by_clear_each(ops, shares, constants, op), shorter(a.len as int, c.len as int)),
            ran,
            before,
            after,
            dest,
        )
}

/// Element-wise application of one local binary secret operation.
fn zip_shares<F, S, O: SecretOps<F, S>>(ops: &O, a: &Vec<S>, b: &Vec<S>, op: Local) -> (results: Result<Vec<S>, VmError>)
    ensures
        results matches Ok(v) ==> v@.len() == if a@.len() <= b@.len() { a@.len() } else { b@.len() },
        (a@.len() == 0 || b@.len() == 0) ==> results is Ok,
        match results {
            Ok(v) => all_of(local_each(*ops, a@, b@, op), shorter(a@.len() as int, b@.len() as int)) == Ok::<Seq<S>, VmError>(v@),
            Err(e) => all_of(local_each(*ops, a@, b@, op), shorter(a@.len() as int, b@.len() as int)) == Err::<Seq<S>, VmError>(e),
        },
{
    let n = if a.len() <= b.len() { a.len() } else { b.len() };
    let ghost each = local_each(*ops, a@, b@, op);
    let mut results: Vec<S> = Vec::new();
    let mut i: usize = 0;
    while i < n
        invariant
            i <= n,
            n <= a@.len(),
            n <= b@.len(),
            n == shorter(a@.len() as int, b@.len() as int),
            results@.len() == i,
            each == local_each(*ops, a@, b@, op),
            all_of(each, i as int) == Ok::<Seq<S>, VmError>(results@),
        decreases n - i,
    {
        proof {
            lemma_all_of_step(each, i as int);
        }
        let answer = match op {
            Local::Add => ops.add(&a[i], &b[i]),
            Local::Sub => ops.sub(&a[i], &b[i]),
        };
        assert(answer == each(i as int));
        let value = match answer {
            Ok(value) => value,
            Err(e) => {
                proof {
                    lemma_all_of_stops(each, i + 1, n as int);
                }
                return Err(e);
            },
        };
        results.push(value);
        i = i + 1;
    }
    Ok(results)
}

/// Element-wise application of one local secret-by-clear operation.
fn zip_clear<F: Copy, S, O: SecretOps<F, S>>(ops: &O, a: &Vec<S>, c: &Vec<F>, op: ByClear) -> (results: Result<Vec<S>, VmError>)
    ensures
        results matches Ok(v) ==> v@.len() == if a@.len() <= c@.len() { a@.len() } else { c@.len() },
        (a@.len() == 0 || c@.len() == 0) ==> results is Ok,
        match results {
            Ok(v) => all_of(by_clear_each(*ops, a@, c@, op), shorter(a@.len() as int, c@.len() as int)) == Ok::<Seq<S>, VmError>(v@),
            Err(e) => all_of(by_clear_each(*ops, a@, c@, op), shorter(a@.len() as int, c@.len() as int)) == Err::<Seq<S>, VmError>(e),
        },
{
    let n = if a.len() <= c.len() { a.len() } else { c.len() };
    let ghost each = by_clear_each(*ops, a@, c@, op);
    let mut results: Vec<S> = Vec::new();
    let mut i: usize = 0;
    while i < n
        invariant
            i <= n,
            n <= a@.len(),
            n <= c@.len(),
            n == shorter(a@.len() as int, c@.len() as int),
            results@.len() == i,
            each == by_clear_each(*ops, a@, c@, op),
            all_of(each, i as int) == Ok::<Seq<S>, VmError>(results@),
        decreases n - i,
    {
        proof {
            lemma_all_of_step(each, i as int);
        }
        let answer = match op {
            ByClear::Add => ops.add_clear(&a[i], c[i]),
            ByClear::Sub => ops.sub_clear(&a[i], c[i]),
            ByClear::Mul => ops.mul_clear(&a[i], c[i]),
        };
        assert(answer == each(i as int));
        let value = match answer {
            Ok(value) => value,
            Err(e) => {
                proof {
                    lemma_all_of_stops(each, i + 1, n as int);
                }
                return Err(e);
            },
        };
        results.push(value);
        i = i + 1;
    }
    Ok(results)
}

/// Copies of `v[start..start + len]`, cut short where `v` ends.
fn window<S: Clone>(v: &Vec<S>, start: usize, len: usize) -> (out: Vec<S>)
    ensures
        out@.len() == if start >= v@.len() {
            0
        } else if start + len <= v@.len() {
            len as int
        } else {
            v@.len() - start
        },
        forall|k: int| 0 <= k < out@.len() ==> cloned(v@[start + k], #[trigger] out@[k]),
{
    let mut out: Vec<S> = Vec::new();
    if start >= v.len() {
        return out;
    }
    let stop = if len <= v.len() - start { start + len } else { v.len() };
    let mut i: usize = start;
    while i < stop
        invariant
            start <= i <= stop <= v@.len(),
            out@.len() == i - start,
            forall|k: int| 0 <= k < out@.len() ==> cloned(v@[start + k], #[trigger] out@[k]),
        decreases stop - i,
    {
        let copy = v[i].clone();
        let ghost before = out@;
        out.push(copy);
        assert forall|k: int| 0 <= k < out@.len() implies cloned(v@[start + k], #[trigger] out@[k]) by {
            if k < before.len() {
                assert(out@[k] == before[k]);
            }
        }
        i = i + 1;
    }
    out
}

impl<F: Scalar, S: Clone> Interpreter<F, S> {
    /// Read a secret run for instruction `index`.
    fn read_shares(&self, index: usize, range: &SecretRange) -> (shares: Result<Vec<S>, VmError>)
        requires
            secret_fits(*range, self.secret_slots().len()),
        ensures
            match first_empty(self.secret_slots(), range.base as int, range.len as int) {
                Some(register) => shares == Err::<Vec<S>, VmError>(
                    VmError::Validation(
                        ValidationError::UninitializedRead {
                            index,
                            bank: self.registers.secret.bank_of(),
                            register: register as u64,
                        },
                    ),
                ),
                None => shares matches Ok(v) && v@.len() == range.len && forall|k: int|
                    0 <= k < range.len ==> cloned(#[trigger] self.secret_slots()[range.base + k]->Some_0, v@[k]),
            },
    {
        match self.registers.read_secret(index, range) {
            Ok(shares) => Ok(shares),
            Err(e) => Err(VmError::Validation(e)),
        }
    }

    /// Read a clear run for instruction `index`.
    fn read_values(&self, index: usize, range: &ClearRange) -> (values: Result<Vec<F>, VmError>)
        requires
            clear_fits(*range, self.clear_slots().len()),
        ensures
            match first_empty(self.clear_slots(), range.base as int, range.len as int) {
                Some(register) => values == Err::<Vec<F>, VmError>(
                    VmError::Validation(
                        ValidationError::UninitializedRead {
                            index,
                            bank: self.registers.clear.bank_of(),
                            register: register as u64,
                        },
                    ),
                ),
                None => values matches Ok(v) && v@.len() == range.len && forall|k: int|
                    0 <= k < range.len ==> cloned(#[trigger] self.clear_slots()[range.base + k]->Some_0, v@[k]),
            },
    {
        match self.registers.read_clear(index, range) {
            Ok(values) => Ok(values),
            Err(e) => Err(VmError::Validation(e)),
        }
    }

    /// Write at most `range.len` shares into a secret run.
    fn store(&mut self, range: &SecretRange, shares: Vec<S>)
        requires
            secret_fits(*range, old(self).registers.secret.slots_of().len()),
            shares@.len() <= range.len,
        ensures
            final(self).secret_slots() == stored(old(self).secret_slots(), range.base, shares@),
            final(self).registers.secret.bank_of() == old(self).registers.secret.bank_of(),
            final(self).registers.clear == old(self).registers.clear,
            final(self).next == old(self).next,
            final(self).ordinal == old(self).ordinal,
            final(self).delivered == old(self).delivered,
            final(self).pending == old(self).pending,
            final(self).held == old(self).held,
            final(self).held_right == old(self).held_right,
            final(self).program == old(self).program,
    {
        self.registers.write_secret(range, shares);
    }

    /// Run the local instruction at the instruction pointer and step past
    /// it.
    fn run_local<O: SecretOps<F, S>>(&mut self, valid: &ValidProgram, ops: &O) -> (ran: Result<(), VmError>)
        requires
            old(self).wf(*valid),
            packs_fit(old(self).program().instructions),
            !old(self).pending(),
            old(self).next() < old(self).program().instructions.len(),
            !interactive(old(self).program().instructions[old(self).next() as int]),
        ensures
            ran is Ok ==> final(self).wf(*valid) && final(self).next() == old(self).next() + 1 && !final(self).pending(),
            final(self).program() == old(self).program(),
            old(self).program().instructions[old(self).next() as int] is LdC ==> ran is Ok
                && final(self).secret_slots() == old(self).secret_slots(),
            old(self).program().instructions[old(self).next() as int] matches InstructionView::Out { client, src } ==> {
                &&& ran is Ok <==> run_written(old(self).secret_slots(), src.base, src.len)
                &&& ran is Ok ==> final(self).delivered() == Some((client, src.len as nat))
                &&& ran is Ok ==> copies_of(old(self).secret_slots(), src, final(self).delivered_shares())
                &&& final(self).secret_slots() == old(self).secret_slots()
            },
            !operands_written(
                old(self).secret_slots(),
                old(self).clear_slots(),
                old(self).program().instructions[old(self).next() as int],
            ) ==> (ran matches Err(VmError::Validation(ValidationError::UninitializedRead { index: at, .. }))
                && at == old(self).next()),
            operands_written(
                old(self).secret_slots(),
                old(self).clear_slots(),
                old(self).program().instructions[old(self).next() as int],
            ) ==> match old(self).program().instructions[old(self).next() as int] {
                InstructionView::AddS { dest, a, b } => binary_lands(
                    *ops,
                    old(self).secret_slots(),
                    final(self).secret_slots(),
                    ran,
                    dest,
                    a,
                    b,
                    Local::Add,
                ),
                InstructionView::SubS { dest, a, b } => binary_lands(
                    *ops,
                    old(self).secret_slots(),
                    final(self).secret_slots(),
                    ran,
                    dest,
                    a,
                    b,
                    Local::Sub,
                ),
                InstructionView::AddC { dest, a, c } => by_clear_lands(
                    *ops,
                    old(self).secret_slots(),
                    old(self).clear_slots(),
                    final(self).secret_slots(),
                    ran,
                    dest,
                    a,
                    c,
                    ByClear::Add,
                ),
                InstructionView::SubC { dest, a, c } => by_clear_lands(
                    *ops,
                    old(self).secret_slots(),
                    old(self).clear_slots(),
                    final(self).secret_slots(),
                    ran,
                    dest,
                    a,
                    c,
                    ByClear::Sub,
                ),
                InstructionView::MulC { dest, a, c } => by_clear_lands(
                    *ops,
                    old(self).secret_slots(),
                    old(self).clear_slots(),
                    final(self).secret_slots(),
                    ran,
                    dest,
                    a,
                    c,
                    ByClear::Mul,
                ),
                InstructionView::Pack { dest, src, width } => exists|bits: Seq<S>|
                    #![trigger copies_of(old(self).secret_slots(), src, bits)]
                    copies_of(old(self).secret_slots(), src, bits) && lands(
                        all_of(pack_each(*ops, bits, width as int), dest.len as int),
                        ran,
                        old(self).secret_slots(),
                        final(self).secret_slots(),
                        dest,
                    ),
                InstructionView::NotS { dest, a } => exists|bits: Seq<S>|
                    #![trigger copies_of(old(self).secret_slots(), a, bits)]
                    copies_of(old(self).secret_slots(), a, bits) && lands(
                        all_of(not_each(*ops, bits), a.len as int),
                        ran,
                        old(self).secret_slots(),
                        final(self).secret_slots(),
                        dest,
                    ),
                _ => true,
            },
    {
        let index = self.next;
        let ghost i = self.program().instructions[index as int];
        let ghost before = self.secret_slots();
        proof {
            self.lemma_fits(*valid, index as int);
            lemma_validated_programs_are_sound(self.program());
        }
        let instruction = &valid.program().instructions[index];
        assert(instruction@ == i);
        match instruction {
            Instruction::LdC { dest, values } => {
                assert(clear_ranges(i)[0] == *dest);
                let mut lifted: Vec<F> = Vec::new();
                let mut k: usize = 0;
                while k < values.len()
                    invariant
                        k <= values@.len(),
                        lifted@.len() == k,
                    decreases values@.len() - k,
                {
                    lifted.push(F::of_u64(values[k]));
                    k = k + 1;
                }
                self.registers.write_clear(dest, lifted);
            },
            Instruction::AddS { dest, a, b } | Instruction::SubS { dest, a, b } => {
                assert(secret_ranges(i)[0] == *dest && secret_ranges(i)[1] == *a && secret_ranges(i)[2] == *b);
                let left = self.read_shares(index, a)?;
                let right = self.read_shares(index, b)?;
                let op = match instruction {
                    Instruction::AddS { .. } => Local::Add,
                    _ => Local::Sub,
                };
                assert(copies_of(before, *a, left@) && copies_of(before, *b, right@));
                let results = match zip_shares(ops, &left, &right, op) {
                    Ok(results) => results,
                    Err(e) => {
                        assert(lands(
                            all_of(local_each(*ops, left@, right@, op), shorter(a.len as int, b.len as int)),
                            Err::<(), VmError>(e),
                            before,
                            self.secret_slots(),
                            *dest,
                        ));
                        return Err(e);
                    },
                };
                self.store(dest, results);
                assert(lands(
                    all_of(local_each(*ops, left@, right@, op), shorter(a.len as int, b.len as int)),
                    Ok::<(), VmError>(()),
                    before,
                    self.secret_slots(),
                    *dest,
                ));
            },
            Instruction::AddC { dest, a, c } | Instruction::SubC { dest, a, c } | Instruction::MulC { dest, a, c } => {
                assert(secret_ranges(i)[0] == *dest && secret_ranges(i)[1] == *a);
                assert(clear_ranges(i)[0] == *c);
                let shares = self.read_shares(index, a)?;
                let constants = self.read_values(index, c)?;
                let op = match instruction {
                    Instruction::AddC { .. } => ByClear::Add,
                    Instruction::SubC { .. } => ByClear::Sub,
                    _ => ByClear::Mul,
                };
                assert(copies_of(before, *a, shares@) && clear_copies_of(self.clear_slots(), *c, constants@));
                let results = match zip_clear(ops, &shares, &constants, op) {
                    Ok(results) => results,
                    Err(e) => {
                        assert(lands(
                            all_of(by_clear_each(*ops, shares@, constants@, op), shorter(a.len as int, c.len as int)),
                            Err::<(), VmError>(e),
                            before,
                            self.secret_slots(),
                            *dest,
                        ));
                        return Err(e);
                    },
                };
                self.store(dest, results);
                assert(lands(
                    all_of(by_clear_each(*ops, shares@, constants@, op), shorter(a.len as int, c.len as int)),
                    Ok::<(), VmError>(()),
                    before,
                    self.secret_slots(),
                    *dest,
                ));
            },
            Instruction::NotS { dest, a } => {
                assert(secret_ranges(i)[0] == *dest && secret_ranges(i)[1] == *a);
                let bits = self.read_shares(index, a)?;
                assert(copies_of(before, *a, bits@));
                let one = F::of_u64(1);
                let minus_one = one.negated();
                let ghost each = not_each(*ops, bits@);
                let mut negated: Vec<S> = Vec::new();
                let mut k: usize = 0;
                while k < bits.len()
                    invariant
                        k <= bits@.len(),
                        negated@.len() == k,
                        old(self).program().instructions[old(self).next() as int] is NotS,
                        operands_written(
                            old(self).secret_slots(),
                            old(self).clear_slots(),
                            old(self).program().instructions[old(self).next() as int],
                        ),
                        each == not_each(*ops, bits@),
                        one == F::element(1),
                        minus_one == F::inverse(F::element(1)),
                        all_of(each, k as int) == Ok::<Seq<S>, VmError>(negated@),
                        self.secret_slots() == before,
                        copies_of(before, *a, bits@),
                        old(self).program().instructions[old(self).next() as int] == (InstructionView::NotS {
                            dest: *dest,
                            a: *a,
                        }),
                    decreases bits@.len() - k,
                {
                    proof {
                        lemma_all_of_step(each, k as int);
                    }
                    let flipped = ops.mul_clear(&bits[k], minus_one);
                    let answer = match flipped {
                        Ok(flipped) => ops.add_clear(&flipped, one),
                        Err(e) => Err(e),
                    };
                    assert(answer == each(k as int));
                    match answer {
                        Ok(value) => negated.push(value),
                        Err(e) => {
                            proof {
                                lemma_all_of_stops(each, k + 1, bits@.len() as int);
                            }
                            assert(lands(all_of(each, a.len as int), Err::<(), VmError>(e), before, self.secret_slots(), *dest));
                            return Err(e);
                        },
                    }
                    k = k + 1;
                }
                self.store(dest, negated);
                assert(lands(all_of(each, a.len as int), Ok::<(), VmError>(()), before, self.secret_slots(), *dest));
            },
            Instruction::Pack { dest, src, width } => {
                assert(secret_ranges(i)[0] == *dest && secret_ranges(i)[1] == *src);
                assert(i matches InstructionView::Pack { width: w, .. } && w == *width);
                let bits = self.read_shares(index, src)?;
                let w = *width as usize;
                proof {
                    let is = self.program().instructions;
                    assert(crate::vm::validate::in_bank(is[index as int]));
                    assert(is[index as int] matches InstructionView::Pack { width, .. } ==> width <= 64);
                    assert(src.len > 0 && dest.len > 0);
                    if w == 0 {
                        assert(dest.len * 0 == 0);
                    }
                }
                assert(bits@.len() == dest.len * w) by (nonlinear_arith)
                    requires
                        bits@.len() == src.len,
                        src.len == dest.len * (*width),
                        w == *width,
                ;
                let total = bits.len();
                assert(copies_of(before, *src, bits@));
                let ghost each = pack_each(*ops, bits@, w as int);
                let mut packed: Vec<S> = Vec::new();
                let mut e: usize = 0;
                while e < dest.len as usize
                    invariant
                        e <= dest.len,
                        each == pack_each(*ops, bits@, w as int),
                        all_of(each, e as int) == Ok::<Seq<S>, VmError>(packed@),
                        self.secret_slots() == before,
                        copies_of(before, *src, bits@),
                        old(self).program().instructions[old(self).next() as int] == (InstructionView::Pack {
                            dest: *dest,
                            src: *src,
                            width: *width,
                        }),
                        w == *width,
                        bits@.len() == dest.len * w,
                        bits@.len() == total,
                        1 <= w <= 64,
                        packed@.len() == e,
                        old(self).program().instructions[old(self).next() as int] is Pack,
                        operands_written(
                            old(self).secret_slots(),
                            old(self).clear_slots(),
                            old(self).program().instructions[old(self).next() as int],
                        ),
                    decreases dest.len - e,
                {
                    assert((e + 1) * w <= dest.len * w) by (nonlinear_arith)
                        requires
                            e + 1 <= dest.len,
                    ;
                    assert(e * w + w == (e + 1) * w) by (nonlinear_arith);
                    assert(e * w <= dest.len * w) by (nonlinear_arith)
                        requires
                            e <= dest.len,
                    ;
                    assert(e * w + w <= total);
                    let base = e * w;
                    proof {
                        lemma_all_of_step(each, e as int);
                    }
                    let mut accumulator = match ops.mul_clear(&bits[base], F::of_u64(1)) {
                        Ok(first) => first,
                        Err(error) => {
                            proof {
                                lemma_packed_stops(*ops, bits@, base as int, 1, w as int);
                                lemma_all_of_stops(each, e + 1, dest.len as int);
                            }
                            return Err(error);
                        },
                    };
                    let mut position: usize = 1;
                    while position < w
                        invariant
                            1 <= position <= w <= 64,
                            packed_outcome(*ops, bits@, base as int, position as int) == Ok::<S, VmError>(accumulator),
                            before == old(self).secret_slots(),
                            self.clear_slots() == old(self).clear_slots(),
                            w == *width,
                            each == pack_each(*ops, bits@, w as int),
                            base == e * w,
                            e < dest.len,
                            all_of(each, e as int) == Ok::<Seq<S>, VmError>(packed@),
                            self.secret_slots() == before,
                            copies_of(before, *src, bits@),
                            old(self).program().instructions[old(self).next() as int] == (InstructionView::Pack {
                                dest: *dest,
                                src: *src,
                                width: *width,
                            }),
                            base + w <= bits@.len(),
                            bits@.len() == total,
                            old(self).program().instructions[old(self).next() as int] is Pack,
                            operands_written(
                                old(self).secret_slots(),
                                old(self).clear_slots(),
                                old(self).program().instructions[old(self).next() as int],
                            ),
                        decreases w - position,
                    {
                        let weight = F::of_u64(1u64 << position as u64);
                        let step = match ops.mul_clear(&bits[base + position], weight) {
                            Ok(weighted) => ops.add(&accumulator, &weighted),
                            Err(error) => Err(error),
                        };
                        assert(step == packed_outcome(*ops, bits@, base as int, position + 1));
                        accumulator = match step {
                            Ok(total) => total,
                            Err(error) => {
                                proof {
                                    lemma_packed_stops(*ops, bits@, base as int, position + 1, w as int);
                                    lemma_all_of_step(each, e as int);
                                    assert(each(e as int) == packed_outcome(*ops, bits@, base as int, w as int));
                                    lemma_all_of_stops(each, e + 1, dest.len as int);

                                }
                                return Err(error);
                            },
                        };
                        position = position + 1;
                    }
                    assert(each(e as int) == packed_outcome(*ops, bits@, base as int, w as int));
                    packed.push(accumulator);
                    e = e + 1;
                }
                self.store(dest, packed);
                assert(lands(all_of(each, dest.len as int), Ok::<(), VmError>(()), before, self.secret_slots(), *dest));
            },
            Instruction::Out { client, src } => {
                assert(secret_ranges(i)[0] == *src);
                let shares = self.read_shares(index, src)?;
                assert(copies_of(before, *src, shares@));
                self.delivered = Some(Output { client: *client, shares });
            },
            _ => {
                assert(false);
            },
        }
        self.next = index + 1;
        proof {
            let is = self.program().instructions;
            assert(ordinals_used(i) == 0);
            assert(ordinals_before(is, index + 1) == ordinals_before(is, index as int));
            if index + 1 == is.len() {
                assert(is.last() == i);
            }
        }
        Ok(())
    }
}

proof fn lemma_pairs_total_step(pairs: Seq<MulTriple>, m: int)
    requires
        0 <= m < pairs.len(),
    ensures
        pairs_total(pairs.take(m + 1)) == pairs_total(pairs.take(m)) + pairs[m].a.len,
        pairs_total(pairs.take(pairs.len() as int)) == pairs_total(pairs),
{
    assert(pairs.take(m + 1).drop_last() =~= pairs.take(m));
    assert(pairs.take(pairs.len() as int) =~= pairs);
}

/// A position the first `n` pairs of a batch take lies inside both their
/// destinations and the answer.
proof fn lemma_batch_source_bound(pairs: Seq<MulTriple>, n: int, answered: int, r: int)
    requires
        0 <= n <= pairs.len(),
    ensures
        batch_source(pairs, n, answered, r) matches Some(p) ==> 0 <= p < dests_total(pairs.take(n)) && p < answered,
    decreases n,
{
    if n > 0 {
        lemma_batch_source_bound(pairs, n - 1, answered, r);
        assert(pairs.take(n).drop_last() =~= pairs.take(n - 1));
        assert(pairs.take(n).last() == pairs[n - 1]);
    }
}

/// Where every pair's operands are as long as its destination, the
/// destinations take as many elements as the operands.
proof fn lemma_dests_total(pairs: Seq<MulTriple>)
    requires
        crate::vm::codec::pairs_shaped(pairs),
    ensures
        dests_total(pairs) == pairs_total(pairs),
    decreases pairs.len(),
{
    if pairs.len() > 0 {
        let rest = pairs.drop_last();
        assert forall|j: int| 0 <= j < rest.len() implies #[trigger] rest[j].a.len == rest[j].dest.len
            && rest[j].b.len == rest[j].dest.len by {
            assert(rest[j] == pairs[j]);
        }
        lemma_dests_total(rest);
        assert(pairs[pairs.len() - 1].a.len == pairs[pairs.len() - 1].dest.len);
    }
}

proof fn lemma_pairs_total_bound(pairs: Seq<MulTriple>, m: int)
    requires
        0 <= m <= pairs.len(),
    ensures
        pairs_total(pairs.take(m)) <= pairs_total(pairs),
    decreases pairs.len() - m,
{
    if m < pairs.len() {
        lemma_pairs_total_step(pairs, m);
        lemma_pairs_total_bound(pairs, m + 1);
    } else {
        assert(pairs.take(m) =~= pairs);
    }
}

impl<F: Scalar, S: Clone> Interpreter<F, S> {
    /// The operands of a batch of pairs, left and right, each run after
    /// the other.
    #[verifier::loop_isolation(false)]
    fn gather(&self, index: usize, pairs: &Vec<MulTriple>) -> (operands: Result<(Vec<S>, Vec<S>), VmError>)
        requires
            forall|m: int| 0 <= m < pairs@.len() ==> secret_fits((#[trigger] pairs@[m]).a, self.registers.secret.slots_of().len())
                && secret_fits(pairs@[m].b, self.registers.secret.slots_of().len()),
            forall|m: int| 0 <= m < pairs@.len() ==> (#[trigger] pairs@[m]).b.len == pairs@[m].a.len,
        ensures
            operands is Ok <==> pairs_written(self.secret_slots(), pairs@),
            operands matches Ok((x, y)) ==> batch_copies(self.secret_slots(), pairs@, x@, y@),
            operands matches Err(e) ==> e matches VmError::Validation(
                ValidationError::UninitializedRead { index: at, .. },
            ) && at == index,
    {
        let mut x: Vec<S> = Vec::new();
        let mut y: Vec<S> = Vec::new();
        let mut m: usize = 0;
        while m < pairs.len()
            invariant
                m <= pairs@.len(),
                batch_copies(self.secret_slots(), pairs@.take(m as int), x@, y@),
                pairs_written(self.secret_slots(), pairs@.take(m as int)),
            decreases pairs@.len() - m,
        {
            proof {
                lemma_pairs_total_step(pairs@, m as int);
            }
            let mut left = match self.read_shares(index, &pairs[m].a) {
                Ok(left) => left,
                Err(e) => {
                    assert(!pairs_written(self.secret_slots(), pairs@)) by {
                        assert(!run_written(self.secret_slots(), pairs@[m as int].a.base, pairs@[m as int].a.len));
                    }
                    return Err(e);
                },
            };
            let mut right = match self.read_shares(index, &pairs[m].b) {
                Ok(right) => right,
                Err(e) => {
                    assert(!pairs_written(self.secret_slots(), pairs@)) by {
                        assert(!run_written(self.secret_slots(), pairs@[m as int].b.base, pairs@[m as int].b.len));
                    }
                    return Err(e);
                },
            };
            let ghost x0 = x@;
            let ghost y0 = y@;
            let ghost l0 = left@;
            let ghost r0 = right@;
            x.append(&mut left);
            y.append(&mut right);
            proof {
                let slots = self.secret_slots();
                let done = pairs@.take(m + 1);
                let before = pairs@.take(m as int);
                assert(done.take(m as int) =~= before);
                assert(done.drop_last() =~= before);
                assert forall|j: int| 0 <= j < done.len() implies #[trigger] pair_copied(slots, done, j, x@, y@) by {
                    if j < m {
                        assert(done[j] == before[j]);
                        assert(done.take(j) =~= before.take(j));
                        assert(pair_copied(slots, before, j, x0, y0));
                        lemma_pairs_total_step(before, j);
                        lemma_pairs_total_bound(before, j + 1);
                        assert(before.take(before.len() as int) =~= before);
                        let at = pairs_total(before.take(j)) as int;
                        assert(x@.subrange(at, at + done[j].a.len) =~= x0.subrange(at, at + done[j].a.len));
                        assert(y@.subrange(at, at + done[j].b.len) =~= y0.subrange(at, at + done[j].b.len));
                    } else {
                        assert(done[j] == pairs@[m as int]);
                        let at = pairs_total(before) as int;
                        assert(x@.subrange(at, at + done[j].a.len) =~= l0);
                        assert(y@.subrange(at, at + done[j].b.len) =~= r0);
                    }
                }
                assert forall|j: int| 0 <= j < done.len() implies run_written(
                    self.secret_slots(),
                    (#[trigger] done[j]).a.base,
                    done[j].a.len,
                ) && run_written(self.secret_slots(), done[j].b.base, done[j].b.len) by {
                    if j < m {
                        assert(done[j] == pairs@.take(m as int)[j]);
                    }
                }
            }
            m = m + 1;
        }
        assert(pairs@.take(pairs@.len() as int) =~= pairs@);
        Ok((x, y))
    }

    /// Read the operands of the interactive instruction at the instruction
    /// pointer and hand out its request; its answer is then awaited.
    fn open_request(&mut self, valid: &ValidProgram, ops: &impl SecretOps<F, S>) -> (request: Result<Request<F, S>, VmError>)
        requires
            old(self).wf(*valid),
            !old(self).pending(),
            old(self).next() < old(self).program().instructions.len(),
            interactive(old(self).program().instructions[old(self).next() as int]),
        ensures
            request matches Ok(r) ==> final(self).wf(*valid) && final(self).pending() && final(self).next()
                == old(self).next() && final(self).ordinal() == old(self).ordinal() && requested(
                r,
                old(self).program().instructions[old(self).next() as int],
                old(self).ordinal(),
            ),
            final(self).program() == old(self).program(),
            final(self).secret_slots() == old(self).secret_slots(),
            final(self).clear_slots() == old(self).clear_slots(),
            request matches Ok(r) ==> carries_operands(
                r,
                old(self).program().instructions[old(self).next() as int],
                old(self).secret_slots(),
            ),
            request matches Ok(r) ==> keeps_for_answer(
                r,
                old(self).program().instructions[old(self).next() as int],
                final(self).held_operands(),
                old(self).secret_slots(),
            ),
            old(self).program().instructions[old(self).next() as int] matches InstructionView::Mux { cond, t, f, .. }
                ==> (operands_written(
                old(self).secret_slots(),
                old(self).clear_slots(),
                old(self).program().instructions[old(self).next() as int],
            ) ==> mux_requested(*ops, request, cond, t, f, old(self).secret_slots())),
            !(old(self).program().instructions[old(self).next() as int] is Mux) ==> (request is Ok <==> operands_written(
                old(self).secret_slots(),
                old(self).clear_slots(),
                old(self).program().instructions[old(self).next() as int],
            )),
            !operands_written(
                old(self).secret_slots(),
                old(self).clear_slots(),
                old(self).program().instructions[old(self).next() as int],
            ) ==> (request matches Err(VmError::Validation(ValidationError::UninitializedRead { index: at, .. }))
                && at == old(self).next()),
    {
        let index = self.next;
        let ghost i = self.program().instructions[index as int];
        proof {
            self.lemma_fits(*valid, index as int);
        }
        let instruction = &valid.program().instructions[index];
        assert(instruction@ == i);
        let request = match instruction {
            Instruction::MulS { pairs } | Instruction::AndS { pairs } | Instruction::XorS { pairs } => {
                proof {
                    assert forall|m: int| 0 <= m < pairs@.len() implies secret_fits(
                        (#[trigger] pairs@[m]).a,
                        self.registers.secret.slots_of().len(),
                    ) && secret_fits(pairs@[m].b, self.registers.secret.slots_of().len())
                        && pairs@[m].b.len == pairs@[m].a.len by {
                        lemma_pair_ranges(pairs@, m);
                        assert(secret_ranges(i)[3 * m + 1] == pairs@[m].a);
                        assert(secret_ranges(i)[3 * m + 2] == pairs@[m].b);
                    }
                }
                let (x, y) = self.gather(index, pairs)?;
                match instruction {
                    Instruction::XorS { .. } => {
                        self.held = x.clone();
                        self.held_right = y.clone();
                    },
                    _ => {},
                }
                Request::Multiply { x, y }
            },
            Instruction::FpMulS { dest, a, b, precision } => {
                assert(secret_ranges(i)[0] == *dest && secret_ranges(i)[1] == *a && secret_ranges(i)[2] == *b);
                let x = self.read_shares(index, a)?;
                let y = self.read_shares(index, b)?;
                Request::FixedMultiply { x, y, precision: *precision }
            },
            Instruction::FpDivC { dest, a, divisor, precision } => {
                assert(secret_ranges(i)[0] == *dest && secret_ranges(i)[1] == *a);
                let x = self.read_shares(index, a)?;
                Request::FixedDivide { x, divisor: F::of_u64(*divisor), precision: *precision }
            },
            Instruction::Reveal { dest, src } => {
                assert(secret_ranges(i)[0] == *src);
                let shares = self.read_shares(index, src)?;
                Request::Reveal { ordinal: self.ordinal, shares }
            },
            Instruction::Mux { dest, cond, t, f } => {
                assert(secret_ranges(i)[0] == *dest && secret_ranges(i)[1] == *cond);
                assert(secret_ranges(i)[2] == *t && secret_ranges(i)[3] == *f);
                proof {
                    crate::vm::validate::lemma_validated_programs_are_sound(self.program());
                    assert(crate::vm::validate::in_bank(self.program().instructions[index as int]));
                }
                let selector = self.read_shares(index, cond)?;
                let choices_t = self.read_shares(index, t)?;
                let choices_f = self.read_shares(index, f)?;
                let ghost slots = self.secret_slots();
                assert(copies_of(slots, *cond, selector@) && copies_of(slots, *t, choices_t@) && copies_of(
                    slots,
                    *f,
                    choices_f@,
                ));
                let differences = match zip_shares(ops, &choices_t, &choices_f, Local::Sub) {
                    Ok(differences) => differences,
                    Err(e) => {
                        assert(mux_requested(*ops, Err::<Request<F, S>, VmError>(e), *cond, *t, *f, slots));
                        return Err(e);
                    },
                };
                let width = choices_t.len();
                let mut selectors: Vec<S> = Vec::new();
                let mut k: usize = 0;
                while k < width
                    invariant
                        k <= width,
                        selectors@.len() == k,
                        selector@.len() > 0,
                        forall|j: int| 0 <= j < k ==> cloned(selector@[0], #[trigger] selectors@[j]),
                    decreases width - k,
                {
                    let copy = selector[0].clone();
                    let ghost prior = selectors@;
                    selectors.push(copy);
                    assert forall|j: int| 0 <= j < k + 1 implies cloned(selector@[0], #[trigger] selectors@[j]) by {
                        if j < k {
                            assert(selectors@[j] == prior[j]);
                        }
                    }
                    k = k + 1;
                }
                assert(mux_requested(
                    *ops,
                    Ok::<Request<F, S>, VmError>(Request::Multiply { x: differences, y: selectors }),
                    *cond,
                    *t,
                    *f,
                    slots,
                ));
                self.held = choices_f;
                Request::Multiply { x: differences, y: selectors }
            },
            Instruction::BitDec { dest, src, width } => {
                assert(secret_ranges(i)[0] == *dest && secret_ranges(i)[1] == *src);
                let x = self.read_shares(index, src)?;
                Request::BitDec { ordinal: self.ordinal, x, width: *width }
            },
            Instruction::Sbox { dest, src } => {
                assert(secret_ranges(i)[0] == *dest && secret_ranges(i)[1] == *src);
                let x = self.read_shares(index, src)?;
                Request::Sbox { ordinal: self.ordinal, x }
            },
            Instruction::ByteXor { dest, a, b } => {
                assert(secret_ranges(i)[0] == *dest && secret_ranges(i)[1] == *a && secret_ranges(i)[2] == *b);
                let left = self.read_shares(index, a)?;
                let right = self.read_shares(index, b)?;
                Request::ByteXor { ordinal: self.ordinal, a: left, b: right }
            },
            _ => {
                assert(false);
                return Err(VmError::EmptySecret);
            },
        };
        self.pending = true;
        Ok(request)
    }
}

/// Whether an instruction needs a protocol round.
pub fn needs_round(instruction: &Instruction) -> (round: bool)
    ensures
        round == interactive(instruction@),
{
    match instruction {
        Instruction::MulS { .. } | Instruction::AndS { .. } | Instruction::XorS { .. } | Instruction::FpMulS { .. }
        | Instruction::FpDivC { .. } | Instruction::Reveal { .. } | Instruction::Mux { .. } | Instruction::BitDec { .. }
        | Instruction::Sbox { .. } | Instruction::ByteXor { .. } => true,
        _ => false,
    }
}

impl<F: Scalar, S: Clone> Interpreter<F, S> {
    /// Step the instruction pointer past the awaited instruction and
    /// account for the reveal ordinals it consumed.
    fn settle(&mut self, valid: &ValidProgram)
        requires
            old(self).wf(*valid),
            old(self).pending(),
        ensures
            final(self).wf(*valid),
            !final(self).pending(),
            final(self).next() == old(self).next() + 1,
            final(self).ordinal() == old(self).ordinal() + ordinals_used(
                old(self).program().instructions[old(self).next() as int],
            ),
            final(self).delivered() == old(self).delivered(),
            final(self).secret_slots() == old(self).secret_slots(),
            final(self).clear_slots() == old(self).clear_slots(),
    {
        let index = self.next;
        let ghost is = self.program().instructions;
        proof {
            self.lemma_fits(*valid, index as int);
            lemma_ordinals_bound(is, index as int);
            lemma_validated_programs_are_sound(self.program());
            assert(is.last() is Out);
            assert(!(is[index as int] is Out));
        }
        let instruction = &valid.program().instructions[index];
        assert(instruction@ == is[index as int]);
        self.ordinal = crate::vm::executor::next_ordinal(self.ordinal, instruction);
        self.next = index + 1;
        self.pending = false;
        proof {
            assert(ordinals_before(is, index + 1) == ordinals_before(is, index as int) + ordinals_used(is[index as int]));
            if index + 1 == is.len() {
                assert(is[index as int] == is.last());
            }
        }
    }

    /// Finish the awaited instruction with the shares its round produced:
    /// the products, quotients, bits, substituted bits or XORed bytes, in
    /// request order. Every destination takes at most its own length.
    pub fn resume_shares<O: SecretOps<F, S>>(&mut self, valid: &ValidProgram, ops: &O, results: Vec<S>) -> (resumed: Result<(), VmError>)
        requires
            old(self).wf(*valid),
            old(self).pending(),
            !(old(self).program().instructions[old(self).next() as int] is Reveal),
        ensures
            resumed is Ok ==> final(self).wf(*valid) && !final(self).pending() && final(self).next() == old(self).next() + 1
                && final(self).ordinal() == old(self).ordinal() + ordinals_used(
                old(self).program().instructions[old(self).next() as int],
            ),
            final(self).clear_slots() == old(self).clear_slots(),
            final(self).secret_slots().len() == old(self).secret_slots().len(),
            forall|r: int|
                0 <= r < old(self).secret_slots().len() && untouched_by(old(self).program().instructions[old(self).next() as int], r)
                    ==> #[trigger] final(self).secret_slots()[r] == old(self).secret_slots()[r],
            old(self).program().instructions[old(self).next() as int] matches InstructionView::MulS { pairs } ==> resumed is Ok
                && batch_landed(old(self).secret_slots(), final(self).secret_slots(), pairs, pairs.len() as int, results@),
            old(self).program().instructions[old(self).next() as int] matches InstructionView::AndS { pairs } ==> resumed is Ok
                && batch_landed(old(self).secret_slots(), final(self).secret_slots(), pairs, pairs.len() as int, results@),
            old(self).program().instructions[old(self).next() as int] matches InstructionView::XorS { pairs } ==> match all_of(
                xor_each(*ops, old(self).held_operands().0, old(self).held_operands().1, results@),
                shorter(pairs_total(pairs) as int, results@.len() as int),
            ) {
                Ok(v) => resumed is Ok && batch_holds(
                    old(self).secret_slots(),
                    final(self).secret_slots(),
                    pairs,
                    pairs.len() as int,
                    results@.len() as int,
                    v,
                ),
                Err(e) => resumed == Err::<(), VmError>(e),
            },
            old(self).program().instructions[old(self).next() as int] matches InstructionView::Mux { dest, .. } ==> lands(
                all_of(
                    mux_each(*ops, old(self).held_operands().0, results@),
                    shorter(old(self).held_operands().0.len() as int, results@.len() as int),
                ),
                resumed,
                old(self).secret_slots(),
                final(self).secret_slots(),
                dest,
            ),
            answered_run(old(self).program().instructions[old(self).next() as int]) matches Some(dest) ==> resumed is Ok
                && holds_copies(old(self).secret_slots(), final(self).secret_slots(), dest.base, dest.len, results@),
    {
        let index = self.next;
        let ghost i = self.program().instructions[index as int];
        proof {
            self.lemma_fits(*valid, index as int);
        }
        let instruction = &valid.program().instructions[index];
        assert(instruction@ == i);
        match instruction {
            Instruction::MulS { pairs } | Instruction::AndS { pairs } => {
                let mut cursor: usize = 0;
                let mut m: usize = 0;
                while m < pairs.len()
                    invariant
                        self.wf(*valid),
                        self.pending(),
                        self.next == index,
                        m <= pairs@.len(),
                        i == self.program().instructions[index as int],
                        forall|k: int| 0 <= k < secret_ranges(i).len() ==> secret_fits(
                            #[trigger] secret_ranges(i)[k],
                            self.registers.secret.slots_of().len(),
                        ),
                        i matches InstructionView::MulS { pairs: ps } ==> ps == pairs@,
                        i matches InstructionView::AndS { pairs: ps } ==> ps == pairs@,
                        i is MulS || i is AndS,
                        self.clear_slots() == old(self).clear_slots(),
                        i == old(self).program().instructions[old(self).next() as int],
                        self.secret_slots().len() == old(self).secret_slots().len(),
                        forall|r: int|
                            0 <= r < old(self).secret_slots().len() && untouched_by(old(self).program().instructions[old(self).next() as int], r)
                                ==> #[trigger] self.secret_slots()[r] == old(self).secret_slots()[r],
                        batch_landed(old(self).secret_slots(), self.secret_slots(), pairs@, m as int, results@),
                        cursor as int == if dests_total(pairs@.take(m as int)) > usize::MAX {
                            usize::MAX as int
                        } else {
                            dests_total(pairs@.take(m as int)) as int
                        },
                    decreases pairs@.len() - m,
                {
                    proof {
                        lemma_pair_ranges(pairs@, m as int);
                        assert(secret_ranges(i)[3 * m as int] == pairs@[m as int].dest);
                        assert(pairs@.take(m + 1).drop_last() =~= pairs@.take(m as int));
                    }
                    let len = pairs[m].dest.len as usize;
                    let answered = results.len();
                    let chunk = window(&results, cursor, len);
                    let ghost prior = self.secret_slots();
                    self.store(&pairs[m].dest, chunk);
                    proof {
                        assert forall|r: int|
                            0 <= r < old(self).secret_slots().len() && untouched_by(i, r) implies #[trigger] self.secret_slots()[r]
                            == old(self).secret_slots()[r] by {
                            assert(!(pairs@[m as int].dest.base <= r < pairs@[m as int].dest.base + pairs@[m as int].dest.len));
                            assert(prior[r] == old(self).secret_slots()[r]);
                        }
                        let before = old(self).secret_slots();
                        let after = self.secret_slots();
                        let d = pairs@[m as int].dest;
                        let at = dests_total(pairs@.take(m as int)) as int;
                        assert(answered == results@.len());
                        assert forall|r: int| 0 <= r < before.len() implies match #[trigger] batch_source(
                            pairs@,
                            m + 1,
                            results@.len() as int,
                            r,
                        ) {
                            Some(p) => after[r] is Some && cloned(results@[p], after[r]->Some_0),
                            None => after[r] == before[r],
                        } by {
                            assert(batch_source(pairs@, m as int, results@.len() as int, r) == batch_source(
                                pairs@,
                                m as int,
                                results@.len() as int,
                                r,
                            ));
                            if d.base <= r && r < d.base + d.len && at + (r - d.base) < results@.len() {
                                assert(cursor == at);
                                assert(r - d.base < chunk@.len());
                                assert(cloned(results@[cursor + (r - d.base)], chunk@[r - d.base]));
                            } else {
                                assert(!(d.base <= r && r < d.base + chunk@.len()));
                            }
                        }
                    }
                    cursor = cursor.saturating_add(len);
                    m = m + 1;
                }
            },
            Instruction::XorS { pairs } => {
                proof {
                    lemma_validated_programs_are_sound(self.program());
                    assert(crate::vm::codec::well_shaped(self.program().instructions[index as int]));
                }
                let held_len = self.held.len();
                let two = F::of_u64(2);
                let ghost each = xor_each(*ops, self.held@, self.held_right@, results@);
                let ghost mut values: Seq<S> = Seq::empty();
                let mut offset: usize = 0;
                let mut m: usize = 0;
                while m < pairs.len()
                    invariant
                        self.wf(*valid),
                        self.pending(),
                        self.next == index,
                        m <= pairs@.len(),
                        i == self.program().instructions[index as int],
                        i == (InstructionView::XorS { pairs: pairs@ }),
                        forall|k: int| 0 <= k < secret_ranges(i).len() ==> secret_fits(
                            #[trigger] secret_ranges(i)[k],
                            self.registers.secret.slots_of().len(),
                        ),
                        crate::vm::codec::pairs_shaped(pairs@),
                        offset == pairs_total(pairs@.take(m as int)),
                        self.held@.len() == pairs_total(pairs@),
                        self.held_right@.len() == pairs_total(pairs@),
                        held_len == pairs_total(pairs@),
                        self.clear_slots() == old(self).clear_slots(),
                        old(self).program().instructions[old(self).next() as int] is XorS,
                        i == old(self).program().instructions[old(self).next() as int],
                        self.secret_slots().len() == old(self).secret_slots().len(),
                        forall|r: int|
                            0 <= r < old(self).secret_slots().len() && untouched_by(old(self).program().instructions[old(self).next() as int], r)
                                ==> #[trigger] self.secret_slots()[r] == old(self).secret_slots()[r],
                        self.held@ == old(self).held@,
                        self.held_right@ == old(self).held_right@,
                        each == xor_each(*ops, self.held@, self.held_right@, results@),
                        two == F::element(2),
                        all_of(each, shorter(offset as int, results@.len() as int)) == Ok::<Seq<S>, VmError>(values),
                        batch_holds(old(self).secret_slots(), self.secret_slots(), pairs@, m as int, results@.len() as int, values),
                    decreases pairs@.len() - m,
                {
                    proof {
                        lemma_pair_ranges(pairs@, m as int);
                        assert(secret_ranges(i)[3 * m as int] == pairs@[m as int].dest);
                        lemma_pairs_total_step(pairs@, m as int);
                        lemma_pairs_total_bound(pairs@, m + 1);
                        assert(pairs@[m as int].a.len == pairs@[m as int].dest.len);
                        assert(pairs@.take(m + 1).drop_last() =~= pairs@.take(m as int));
                        assert forall|j: int| 0 <= j < pairs@.take(m as int).len() implies #[trigger] pairs@.take(m as int)[j].a.len
                            == pairs@.take(m as int)[j].dest.len && pairs@.take(m as int)[j].b.len == pairs@.take(m as int)[j].dest.len by {
                            assert(pairs@.take(m as int)[j] == pairs@[j]);
                        }
                        lemma_dests_total(pairs@.take(m as int));
                    }
                    let len = pairs[m].dest.len as usize;
                    let answered = results.len();
                    let n = if offset >= answered {
                        0
                    } else if len <= answered - offset {
                        len
                    } else {
                        answered - offset
                    };
                    let ghost at = offset as int;
                    let ghost done = values;
                    proof {
                        lemma_all_of_len(each, shorter(offset as int, results@.len() as int));
                    }
                    let mut xors: Vec<S> = Vec::new();
                    let mut k: usize = 0;
                    while k < n
                        invariant
                            k <= n <= len,
                            n > 0 ==> offset + n <= answered,
                            answered == results@.len(),
                            m < pairs@.len(),
                            offset + len <= pairs_total(pairs@),
                            offset + len <= held_len,
                            n == 0 || offset < answered,
                            at == offset,
                            offset + len <= self.held@.len(),
                            offset + len <= self.held_right@.len(),
                            xors@.len() == k,
                            self.clear_slots() == old(self).clear_slots(),
                            old(self).program().instructions[old(self).next() as int] is XorS,
                            self.secret_slots().len() == old(self).secret_slots().len(),
                            forall|r: int|
                                0 <= r < old(self).secret_slots().len() && untouched_by(old(self).program().instructions[old(self).next() as int], r)
                                    ==> #[trigger] self.secret_slots()[r] == old(self).secret_slots()[r],
                            self.held@ == old(self).held@,
                            self.held_right@ == old(self).held_right@,
                            each == xor_each(*ops, self.held@, self.held_right@, results@),
                            two == F::element(2),
                            n > 0 ==> done.len() == offset,
                            old(self).program().instructions[old(self).next() as int] == (InstructionView::XorS {
                                pairs: pairs@,
                            }),
                            all_of(each, shorter(offset as int, results@.len() as int) + k) == Ok::<Seq<S>, VmError>(done + xors@),
                            k > 0 ==> shorter(offset as int, results@.len() as int) == offset,
                        decreases n - k,
                    {
                        let p = offset + k;
                        proof {
                            lemma_all_of_step(each, p as int);
                        }
                        let sum = ops.add(&self.held[p], &self.held_right[p]);
                        let answer = match sum {
                            Ok(sum) => match ops.mul_clear(&results[p], two) {
                                Ok(doubled) => ops.sub(&sum, &doubled),
                                Err(e) => Err(e),
                            },
                            Err(e) => Err(e),
                        };
                        assert(answer == each(p as int));
                        match answer {
                            Ok(value) => {
                                assert(done + xors@.push(value) =~= (done + xors@).push(value));
                                xors.push(value);
                            },
                            Err(e) => {
                                proof {
                                    lemma_all_of_stops(each, p + 1, shorter(pairs_total(pairs@) as int, results@.len() as int));
                                }
                                return Err(e);
                            },
                        }
                        k = k + 1;
                    }
                    let ghost prior = self.secret_slots();
                    self.store(&pairs[m].dest, xors);
                    proof {
                        assert forall|r: int|
                            0 <= r < old(self).secret_slots().len() && untouched_by(i, r) implies #[trigger] self.secret_slots()[r]
                            == old(self).secret_slots()[r] by {
                            assert(!(pairs@[m as int].dest.base <= r < pairs@[m as int].dest.base + pairs@[m as int].dest.len));
                            assert(prior[r] == old(self).secret_slots()[r]);
                        }
                        values = done + xors@;
                        let d = pairs@[m as int].dest;
                        assert(shorter(offset + len, results@.len() as int) == shorter(offset as int, results@.len() as int) + n);
                        assert forall|r: int| 0 <= r < old(self).secret_slots().len() implies match #[trigger] batch_source(
                            pairs@,
                            m + 1,
                            results@.len() as int,
                            r,
                        ) {
                            Some(p) => self.secret_slots()[r] == Some(values[p]),
                            None => self.secret_slots()[r] == old(self).secret_slots()[r],
                        } by {
                            assert(batch_source(pairs@, m as int, results@.len() as int, r) == batch_source(
                                pairs@,
                                m as int,
                                results@.len() as int,
                                r,
                            ));
                            if d.base <= r && r < d.base + d.len && at + (r - d.base) < results@.len() {
                                assert(r - d.base < n);
                                assert(values[at + (r - d.base)] == xors@[r - d.base]);
                            } else {
                                assert(!(d.base <= r && r < d.base + xors@.len()));
                                lemma_batch_source_bound(pairs@, m as int, results@.len() as int, r);
                                match batch_source(pairs@, m as int, results@.len() as int, r) {
                                    Some(p) => {
                                        assert(p < shorter(at, results@.len() as int));
                                        assert(values[p] == done[p]);
                                    },
                                    None => {},
                                }
                            }
                        }
                    }
                    offset = offset + len;
                    m = m + 1;
                }
                assert(pairs@.take(pairs@.len() as int) =~= pairs@);
            },
            Instruction::Mux { dest, .. } => {
                assert(secret_ranges(i)[0] == *dest);
                let n = if self.held.len() < results.len() { self.held.len() } else { results.len() };
                let ghost each = mux_each(*ops, self.held@, results@);
                let ghost before = self.secret_slots();
                let mut selected: Vec<S> = Vec::new();
                let mut k: usize = 0;
                while k < n
                    invariant
                        k <= n,
                        n <= self.held@.len(),
                        n <= results@.len(),
                        n == shorter(self.held@.len() as int, results@.len() as int),
                        selected@.len() == k,
                        each == mux_each(*ops, self.held@, results@),
                        self.held@ == old(self).held@,
                        self.secret_slots() == before,
                        before == old(self).secret_slots(),
                        all_of(each, k as int) == Ok::<Seq<S>, VmError>(selected@),
                        old(self).program().instructions[old(self).next() as int] == (InstructionView::Mux {
                            dest: *dest,
                            cond: old(self).program().instructions[old(self).next() as int]->Mux_cond,
                            t: old(self).program().instructions[old(self).next() as int]->Mux_t,
                            f: old(self).program().instructions[old(self).next() as int]->Mux_f,
                        }),
                        self.clear_slots() == old(self).clear_slots(),
                        old(self).program().instructions[old(self).next() as int] is Mux,
                        self.secret_slots().len() == old(self).secret_slots().len(),
                        forall|r: int|
                            0 <= r < old(self).secret_slots().len() && untouched_by(old(self).program().instructions[old(self).next() as int], r)
                                ==> #[trigger] self.secret_slots()[r] == old(self).secret_slots()[r],
                    decreases n - k,
                {
                    proof {
                        lemma_all_of_step(each, k as int);
                    }
                    match ops.add(&self.held[k], &results[k]) {
                        Ok(value) => selected.push(value),
                        Err(e) => {
                            proof {
                                lemma_all_of_stops(each, k + 1, n as int);
                            }
                            return Err(e);
                        },
                    }
                    k = k + 1;
                }
                self.store(dest, selected);
            },
            Instruction::FpMulS { dest, .. } | Instruction::FpDivC { dest, .. } | Instruction::BitDec { dest, .. }
            | Instruction::Sbox { dest, .. } | Instruction::ByteXor { dest, .. } => {
                assert(secret_ranges(i)[0] == *dest);
                let written = window(&results, 0, dest.len as usize);
                let ghost before = self.secret_slots();
                self.store(dest, written);
                proof {
                    let after = self.secret_slots();
                    assert(answered_run(i) == Some(*dest));
                    assert forall|k: int| 0 <= k < written@.len() implies (#[trigger] after[dest.base + k]) is Some
                        && cloned(results@[k], after[dest.base + k]->Some_0) by {
                        assert(cloned(results@[0 + k], written@[k]));
                        assert(after[dest.base + k] == Some(written@[(dest.base + k) - dest.base]));
                    }
                    assert(holds_copies(before, after, dest.base, dest.len, results@));
                }
            },
            _ => {
                assert(false);
            },
        }
        self.settle(valid);
        Ok(())
    }

    /// Finish the awaited `Reveal` with the opened values; its
    /// destination takes at most its own length.
    pub fn resume_values(&mut self, valid: &ValidProgram, values: Vec<F>)
        requires
            old(self).wf(*valid),
            old(self).pending(),
            old(self).program().instructions[old(self).next() as int] is Reveal,
        ensures
            final(self).wf(*valid),
            !final(self).pending(),
            final(self).next() == old(self).next() + 1,
            final(self).ordinal() == old(self).ordinal() + 1,
            final(self).secret_slots() == old(self).secret_slots(),
            old(self).program().instructions[old(self).next() as int] matches InstructionView::Reveal { dest, .. }
                ==> final(self).clear_slots() == stored(
                old(self).clear_slots(),
                dest.base,
                values@.take(if values@.len() < dest.len { values@.len() as int } else { dest.len as int }),
            ),
    {
        let index = self.next;
        let ghost i = self.program().instructions[index as int];
        proof {
            self.lemma_fits(*valid, index as int);
        }
        let instruction = &valid.program().instructions[index];
        assert(instruction@ == i);
        match instruction {
            Instruction::Reveal { dest, .. } => {
                assert(clear_ranges(i)[0] == *dest);
                let written = window_values(&values, dest.len as usize);
                self.registers.write_clear(dest, written);
            },
            _ => {
                assert(false);
            },
        }
        self.settle(valid);
    }

    /// Run local instructions until one needs a protocol round, or the
    /// program ends.
    ///
    /// Returns the round to run (its answer awaited), or the output once
    /// every instruction ran.
    ///
    /// # Errors
    ///
    /// A read of a register nothing wrote, or a failing local operation.
    pub fn advance<O: SecretOps<F, S>>(&mut self, valid: &ValidProgram, ops: &O) -> (step: Result<Step<F, S>, VmError>)
        requires
            old(self).wf(*valid),
            packs_fit(old(self).program().instructions),
            !old(self).pending(),
        ensures
            step matches Ok(Step::Await(r)) ==> {
                let is = final(self).program().instructions;
                &&& final(self).wf(*valid)
                &&& final(self).pending()
                &&& old(self).next() <= final(self).next() < is.len()
                &&& requested(r, is[final(self).next() as int], final(self).ordinal())
                &&& keeps_for_answer(r, is[final(self).next() as int], final(self).held_operands(), final(self).secret_slots())
                &&& carries_operands(r, is[final(self).next() as int], final(self).secret_slots())
                &&& final(self).ordinal() == ordinals_before(is, final(self).next() as int)
                &&& forall|j: int| old(self).next() <= j < final(self).next() ==> !interactive(#[trigger] is[j])
            },
            step matches Ok(Step::Finished(out)) ==> {
                let is = final(self).program().instructions;
                &&& final(self).wf(*valid)
                &&& !final(self).pending()
                &&& final(self).next() == is.len()
                &&& out.client == is.last()->Out_client
                &&& out.shares@.len() == is.last()->Out_src.len
                &&& old(self).next() < is.len() ==> copies_of(final(self).secret_slots(), is.last()->Out_src, out.shares@)
                &&& forall|j: int| old(self).next() <= j < is.len() ==> !interactive(#[trigger] is[j])
            },
            final(self).program() == old(self).program(),
            old(self).next() == old(self).program().instructions.len() ==> step matches Ok(Step::Finished(_)),
            old(self).next() < old(self).program().instructions.len() ==> {
                let is = old(self).program().instructions;
                let first = is[old(self).next() as int];
                &&& (interactive(first) && !(first is Mux) && operands_written(
                    old(self).secret_slots(),
                    old(self).clear_slots(),
                    first,
                )) ==> (step matches Ok(Step::Await(_)) && final(self).next() == old(self).next())
                &&& !operands_written(old(self).secret_slots(), old(self).clear_slots(), first) ==> (step matches Err(
                    VmError::Validation(ValidationError::UninitializedRead { index: at, .. }),
                ) && at == old(self).next())
            },
    {
        let ghost start = self.next;
        loop
            invariant
                self.wf(*valid),
                packs_fit(self.program().instructions),
                !self.pending(),
                self.program() == old(self).program(),
                start == old(self).next(),
                start <= self.next <= self.program().instructions.len(),
                forall|j: int| start <= j < self.next ==> !interactive(#[trigger] self.program().instructions[j]),
                self.next == start ==> self.secret_slots() == old(self).secret_slots() && self.clear_slots() == old(
                    self,
                ).clear_slots(),
                (self.next == self.program().instructions.len() && self.next > start) ==> copies_of(
                    self.secret_slots(),
                    self.program().instructions.last()->Out_src,
                    self.delivered_shares(),
                ),
                self.next > start ==> operands_written(
                    old(self).secret_slots(),
                    old(self).clear_slots(),
                    old(self).program().instructions[start as int],
                ),
            decreases self.program().instructions.len() - self.next,
        {
            let count = valid.program().instructions.len();
            assert(count == self.program().instructions.len());
            if self.next == count {
                let out = match self.delivered.take() {
                    Some(out) => out,
                    None => {
                        proof {
                            lemma_validated_programs_are_sound(self.program());
                        }
                        assert(false);
                        return Err(VmError::Validation(ValidationError::MissingOut));
                    },
                };
                self.delivered = Some(Output { client: out.client, shares: out.shares.clone() });
                return Ok(Step::Finished(out));
            }
            let round = needs_round(&valid.program().instructions[self.next]);
            if round {
                let request = self.open_request(valid, ops)?;
                return Ok(Step::Await(request));
            }
            let ghost before = self.next;
            self.run_local(valid, ops)?;
            assert(!interactive(self.program().instructions[before as int]));
        }
    }
}

/// Copies of the first `len` values, cut short where `values` ends.
fn window_values<F: Copy>(values: &Vec<F>, len: usize) -> (out: Vec<F>)
    ensures
        out@ == values@.take(if len <= values@.len() { len as int } else { values@.len() as int }),
{
    let n = if len <= values.len() { len } else { values.len() };
    let mut out: Vec<F> = Vec::new();
    let mut k: usize = 0;
    while k < n
        invariant
            k <= n <= values@.len(),
            out@ == values@.take(k as int),
        decreases n - k,
    {
        assert(values@.take(k + 1) =~= values@.take(k as int).push(values@[k as int]));
        out.push(values[k]);
        k = k + 1;
    }
    out
}

} // verus!
