//! Masked bit decomposition, one bit position per round.
//!
//! A batch of shared elements is masked by random shared bits and the
//! masked values are opened; the opened bits and the mask bits then give
//! every bit of the element through a borrow chain, least significant
//! first, one batched multiplication per bit position. The host opens the
//! masked values, hands each position's public bits in, runs each round's
//! multiplication and feeds the products back.

use crate::vm::error::VmError;
use crate::vm::interpreter::{all_of, packed_outcome, Request, Scalar, SecretOps};
use vstd::prelude::*;

verus! {

/// What a backend answers, element by element, for masking `x` with the
/// bits `mask_bits` (`width` per element, least significant first): each
/// element plus its packed mask.
pub open spec fn masked_each<F: Scalar, S, O: SecretOps<F, S>>(
    ops: O,
    x: Seq<S>,
    mask_bits: Seq<S>,
    width: int,
) -> spec_fn(int) -> Result<S, VmError> {
    |e: int|
        match packed_outcome(ops, mask_bits, e * width, width) {
            Ok(mask) => ops.add_outcome(x[e], mask),
            Err(error) => Err(error),
        }
}

/// The constant a mask bit is scaled by to flip it where the opened bit
/// is set: minus one there, one elsewhere.
pub open spec fn flip_coefficient<F: Scalar>(set: bool) -> F {
    if set {
        F::inverse(F::element(1))
    } else {
        F::element(1)
    }
}

/// The opened bit as a field element.
pub open spec fn bit_value<F: Scalar>(set: bool) -> F {
    if set {
        F::element(1)
    } else {
        F::element(0)
    }
}

/// The weight of the borrow-times-mask product in the next borrow:
/// `2p - 1` for the opened bit `p`.
pub open spec fn borrow_weight<F: Scalar>(set: bool) -> F {
    if set {
        F::element(1)
    } else {
        F::inverse(F::element(1))
    }
}

/// `1 - p` for the opened bit `p`.
pub open spec fn complement<F: Scalar>(set: bool) -> F {
    if set {
        F::element(0)
    } else {
        F::element(1)
    }
}

/// What a backend answers, element by element, for flipping the mask bits
/// of bit `position` by the opened bits `public`: `r (1 - 2p) + p`.
pub open spec fn flipped_each<F: Scalar, S, O: SecretOps<F, S>>(
    ops: O,
    mask_bits: Seq<S>,
    public: Seq<bool>,
    width: int,
    position: int,
) -> spec_fn(int) -> Result<S, VmError> {
    |e: int|
        match ops.mul_clear_outcome(mask_bits[e * width + position], flip_coefficient::<F>(public[e])) {
            Ok(scaled) => ops.add_clear_outcome(scaled, bit_value::<F>(public[e])),
            Err(error) => Err(error),
        }
}

/// What a backend answers, element by element, for one subtractor step:
/// the bit `f + b - 2fb` from the flipped bit `f`, the borrow `b` and their
/// product, and the next borrow `(2p - 1) rb + (1 - p) r + (1 - p) b` from
/// the mask bit `r`'s product with the borrow. `products` holds the
/// flipped-bit products first, then the mask-bit products.
pub open spec fn absorbed_each<F: Scalar, S, O: SecretOps<F, S>>(
    ops: O,
    flipped: Seq<S>,
    borrow: Seq<S>,
    mask_bits: Seq<S>,
    public: Seq<bool>,
    products: Seq<S>,
    count: int,
    width: int,
    position: int,
) -> spec_fn(int) -> Result<(S, S), VmError> {
    |e: int|
        match ops.add_outcome(flipped[e], borrow[e]) {
            Err(error) => Err(error),
            Ok(sum) => match ops.mul_clear_outcome(products[e], F::element(2)) {
                Err(error) => Err(error),
                Ok(doubled) => match ops.sub_outcome(sum, doubled) {
                    Err(error) => Err(error),
                    Ok(bit) => match ops.mul_clear_outcome(products[count + e], borrow_weight::<F>(public[e])) {
                        Err(error) => Err(error),
                        Ok(from_product) => match ops.mul_clear_outcome(
                            mask_bits[e * width + position],
                            complement::<F>(public[e]),
                        ) {
                            Err(error) => Err(error),
                            Ok(from_bit) => match ops.mul_clear_outcome(borrow[e], complement::<F>(public[e])) {
                                Err(error) => Err(error),
                                Ok(from_borrow) => match ops.add_outcome(from_product, from_bit) {
                                    Err(error) => Err(error),
                                    Ok(partial) => match ops.add_outcome(partial, from_borrow) {
                                        Err(error) => Err(error),
                                        Ok(carried) => Ok((bit, carried)),
                                    },
                                },
                            },
                        },
                    },
                },
            },
        }
}

/// `2^k`.
pub open spec fn place(k: nat) -> int
    decreases k,
{
    if k == 0 {
        1
    } else {
        2 * place((k - 1) as nat)
    }
}

/// An opened bit as the integer 0 or 1.
pub open spec fn bit_int(set: bool) -> int {
    if set {
        1
    } else {
        0
    }
}

/// The subtractor's difference bit over the integers, in the shape the
/// rounds compute it: the flipped bit `f = r (1 - 2p) + p`, then
/// `f + b - 2fb`.
pub open spec fn difference_bit(set: bool, r: int, b: int) -> int {
    let f = r * (1 - 2 * bit_int(set)) + bit_int(set);
    f + b - 2 * f * b
}

/// The subtractor's next borrow over the integers, in the shape the rounds
/// compute it: `(2p - 1) rb + (1 - p) r + (1 - p) b`.
pub open spec fn next_borrow(set: bool, r: int, b: int) -> int {
    (2 * bit_int(set) - 1) * r * b + (1 - bit_int(set)) * r + (1 - bit_int(set)) * b
}

/// The borrow into bit `k` of the chain over the opened bits `public` and
/// the mask bits `mask`, starting from none.
pub open spec fn borrow_into(public: Seq<bool>, mask: Seq<int>, k: nat) -> int
    decreases k,
{
    if k == 0 {
        0
    } else {
        next_borrow(public[k - 1], mask[k - 1], borrow_into(public, mask, (k - 1) as nat))
    }
}

/// The bits the chain produces, least significant first.
pub open spec fn difference_bits(public: Seq<bool>, mask: Seq<int>) -> Seq<int> {
    Seq::new(public.len(), |i: int| difference_bit(public[i], mask[i], borrow_into(public, mask, i as nat)))
}

/// The first `k` bits read as a number, least significant first.
pub open spec fn weighed(bits: Seq<int>, k: nat) -> int
    decreases k,
{
    if k == 0 {
        0
    } else {
        weighed(bits, (k - 1) as nat) + bits[k - 1] * place((k - 1) as nat)
    }
}

/// The opened bits as a sequence of 0 and 1.
pub open spec fn public_ints(public: Seq<bool>) -> Seq<int> {
    Seq::new(public.len(), |i: int| bit_int(public[i]))
}

/// One full-subtractor step: `p - r - b == d - 2 b'` on bits.
proof fn lemma_subtractor_step(set: bool, r: int, b: int)
    requires
        r == 0 || r == 1,
        b == 0 || b == 1,
    ensures
        difference_bit(set, r, b) == 0 || difference_bit(set, r, b) == 1,
        next_borrow(set, r, b) == 0 || next_borrow(set, r, b) == 1,
        bit_int(set) - r - b == difference_bit(set, r, b) - 2 * next_borrow(set, r, b),
{
    if set {
        assert(bit_int(set) == 1);
    } else {
        assert(bit_int(set) == 0);
    }
}

/// `2^k` is positive.
pub proof fn lemma_place_positive(k: nat)
    ensures
        place(k) >= 1,
    decreases k,
{
    if k > 0 {
        lemma_place_positive((k - 1) as nat);
    }
}

/// Bits of 0 and 1 read as a number lie in `[0, 2^k)`.
pub proof fn lemma_weighed_bounds(bits: Seq<int>, k: nat)
    requires
        k <= bits.len(),
        forall|i: int| 0 <= i < k ==> bits[i] == 0 || bits[i] == 1,
    ensures
        0 <= weighed(bits, k) < place(k),
    decreases k,
{
    if k > 0 {
        lemma_weighed_bounds(bits, (k - 1) as nat);
        lemma_place_positive((k - 1) as nat);
    }
}

/// The chain's invariant after `k` bits: the bits read as a number, less
/// the outstanding borrow at `2^k`, are the opened value less the mask.
proof fn lemma_chain_invariant(public: Seq<bool>, mask: Seq<int>, k: nat)
    requires
        k <= public.len(),
        public.len() == mask.len(),
        forall|i: int| 0 <= i < mask.len() ==> mask[i] == 0 || mask[i] == 1,
    ensures
        borrow_into(public, mask, k) == 0 || borrow_into(public, mask, k) == 1,
        forall|i: int| 0 <= i < k ==> difference_bits(public, mask)[i] == 0 || difference_bits(public, mask)[i] == 1,
        weighed(difference_bits(public, mask), k) - borrow_into(public, mask, k) * place(k) == weighed(
            public_ints(public),
            k,
        ) - weighed(mask, k),
    decreases k,
{
    if k > 0 {
        let j = (k - 1) as nat;
        lemma_chain_invariant(public, mask, j);
        let b = borrow_into(public, mask, j);
        lemma_subtractor_step(public[j as int], mask[j as int], b);
        let d = difference_bits(public, mask)[j as int];
        let nb = borrow_into(public, mask, k);
        let pj = public_ints(public)[j as int];
        let pw = place(j);
        assert(d == difference_bit(public[j as int], mask[j as int], b));
        assert(nb == next_borrow(public[j as int], mask[j as int], b));
        assert(pj - mask[j as int] - b == d - 2 * nb);
        assert(place(k) == 2 * pw);
        assert(d * pw - nb * (2 * pw) == pj * pw - mask[j as int] * pw - b * pw) by (nonlinear_arith)
            requires
                pj - mask[j as int] - b == d - 2 * nb,
        ;
        assert(nb * place(k) == nb * (2 * pw));
        assert(weighed(difference_bits(public, mask), k) == weighed(difference_bits(public, mask), j) + d * pw);
        assert(weighed(public_ints(public), k) == weighed(public_ints(public), j) + pj * pw);
        assert(weighed(mask, k) == weighed(mask, j) + mask[j as int] * pw);
    }
}

/// `2^(a + b) == 2^a 2^b`.
pub proof fn lemma_place_adds(a: nat, b: nat)
    ensures
        place(a + b) == place(a) * place(b),
    decreases b,
{
    if b > 0 {
        lemma_place_adds(a, (b - 1) as nat);
        assert(place(a + b) == 2 * place((a + b - 1) as nat));
        assert(place(a) * place(b) == place(a) * (2 * place((b - 1) as nat)));
        assert(place(a) * (2 * place((b - 1) as nat)) == 2 * (place(a) * place((b - 1) as nat))) by (nonlinear_arith);
    }
}

/// The bits above position `i`: the number read from `k` bits is its
/// first `i + 1` bits plus `2^(i + 1)` times a non-negative rest.
proof fn lemma_high_part(bits: Seq<int>, k: nat, i: nat) -> (high: int)
    requires
        i < k <= bits.len(),
        forall|j: int| 0 <= j < k ==> bits[j] == 0 || bits[j] == 1,
    ensures
        high >= 0,
        weighed(bits, k) == weighed(bits, i + 1) + place(i + 1) * high,
    decreases k,
{
    if k == i + 1 {
        0
    } else {
        let j = (k - 1) as nat;
        let below = lemma_high_part(bits, j, i);
        let gap = (j - (i + 1)) as nat;
        lemma_place_adds(i + 1, gap);
        lemma_place_positive(gap);
        let high = below + bits[j as int] * place(gap);
        assert(bits[j as int] * place(gap) >= 0) by (nonlinear_arith)
            requires
                bits[j as int] == 0 || bits[j as int] == 1,
                place(gap) >= 1,
        ;
        assert(place(i + 1) * high == place(i + 1) * below + bits[j as int] * (place(i + 1) * place(gap)))
            by (nonlinear_arith)
            requires
                high == below + bits[j as int] * place(gap),
        ;
        high
    }
}

/// Bit `i` of a number read from bits of 0 and 1 is the `i`-th bit.
proof fn lemma_weighed_bit(bits: Seq<int>, k: nat, i: nat)
    requires
        i < k <= bits.len(),
        forall|j: int| 0 <= j < k ==> bits[j] == 0 || bits[j] == 1,
    ensures
        (weighed(bits, k) / place(i)) % 2 == bits[i as int],
{
    let high = lemma_high_part(bits, k, i);
    lemma_weighed_bounds(bits, i);
    lemma_place_positive(i);
    let low = weighed(bits, i);
    let q = bits[i as int] + 2 * high;
    assert(place(i + 1) == 2 * place(i));
    assert(weighed(bits, k) == q * place(i) + low) by (nonlinear_arith)
        requires
            weighed(bits, k) == low + bits[i as int] * place(i) + place(i + 1) * high,
            place(i + 1) == 2 * place(i),
            q == bits[i as int] + 2 * high,
    ;
    vstd::arithmetic::div_mod::lemma_fundamental_div_mod_converse(weighed(bits, k), place(i), q, low);
    vstd::arithmetic::div_mod::lemma_fundamental_div_mod_converse(q, 2, high, bits[i as int]);
}

/// The bit decomposition law over the integers. With `x` in `[0, 2^w)`,
/// opened bits `public` and mask bits `mask` (each 0 or 1, least
/// significant first) whose values differ by `x` modulo `2^w`, the borrow
/// chain's difference bits are 0 or 1 and, read least significant first,
/// are `x`: bit `i` of the result is bit `i` of `x`.
pub proof fn lemma_borrow_chain_recovers_the_value(public: Seq<bool>, mask: Seq<int>, x: int, wrap: int)
    requires
        public.len() == mask.len(),
        forall|i: int| 0 <= i < mask.len() ==> mask[i] == 0 || mask[i] == 1,
        0 <= x < place(public.len()),
        weighed(public_ints(public), public.len()) - weighed(mask, public.len()) == x + wrap * place(public.len()),
    ensures
        forall|i: int|
            0 <= i < public.len() ==> difference_bits(public, mask)[i] == 0 || difference_bits(public, mask)[i]
                == 1,
        weighed(difference_bits(public, mask), public.len()) == x,
        forall|i: int| 0 <= i < public.len() ==> #[trigger] difference_bits(public, mask)[i] == (x / place(i as nat)) % 2,
{
    let w = public.len();
    lemma_chain_invariant(public, mask, w);
    lemma_weighed_bounds(difference_bits(public, mask), w);
    let d = weighed(difference_bits(public, mask), w);
    let b = borrow_into(public, mask, w);
    let pw = place(w);
    assert(d - x == (b + wrap) * pw) by (nonlinear_arith)
        requires
            d - b * pw == x + wrap * pw,
    ;
    assert(d == x) by (nonlinear_arith)
        requires
            d - x == (b + wrap) * pw,
            0 <= d < pw,
            0 <= x < pw,
    ;
    assert forall|i: int| 0 <= i < w implies #[trigger] difference_bits(public, mask)[i] == (x / place(i as nat)) % 2 by {
        lemma_weighed_bit(difference_bits(public, mask), w, i as nat);
    }
}

/// The planes laid end to end: the first `n` elements' bits, element
/// after element.
pub open spec fn laid_out<S>(planes: Seq<Seq<S>>, n: int) -> Seq<S>
    decreases n,
{
    if n <= 0 {
        Seq::empty()
    } else {
        laid_out(planes, n - 1) + planes[n - 1]
    }
}

/// With every plane `w` bits long, bit `k` of element `e` sits at
/// `e * w + k`.
pub proof fn lemma_laid_out_index<S>(planes: Seq<Seq<S>>, n: int, w: int, e: int, k: int)
    requires
        0 <= n <= planes.len(),
        0 <= w,
        forall|j: int| 0 <= j < n ==> (#[trigger] planes[j]).len() == w,
        0 <= e < n,
        0 <= k < w,
    ensures
        laid_out(planes, n).len() == n * w,
        laid_out(planes, n)[e * w + k] == planes[e][k],
    decreases n,
{
    lemma_laid_out_len(planes, n, w);
    if e < n - 1 {
        lemma_laid_out_index(planes, n - 1, w, e, k);
        assert(e * w + k < (n - 1) * w) by (nonlinear_arith)
            requires
                0 <= e < n - 1,
                0 <= k < w,
        ;
        assert(e * w + k >= 0) by (nonlinear_arith)
            requires
                0 <= e,
                0 <= k,
                0 <= w,
        ;
    } else {
        lemma_laid_out_len(planes, n - 1, w);
        assert((n - 1) * w + k == e * w + k);
    }
}

/// With every plane `w` bits long, `n` planes lay out `n * w` bits.
pub proof fn lemma_laid_out_len<S>(planes: Seq<Seq<S>>, n: int, w: int)
    requires
        0 <= n <= planes.len(),
        0 <= w,
        forall|j: int| 0 <= j < n ==> (#[trigger] planes[j]).len() == w,
    ensures
        laid_out(planes, n).len() == n * w,
    decreases n,
{
    if n > 0 {
        lemma_laid_out_len(planes, n - 1, w);
        assert(planes[n - 1].len() == w);
        assert(laid_out(planes, n) == laid_out(planes, n - 1) + planes[n - 1]);
        assert((n - 1) * w + w == n * w) by (nonlinear_arith);
    } else {
        assert(n * w == 0) by (nonlinear_arith)
            requires
                n == 0,
        ;
    }
}

/// A decomposition in progress.
pub struct BitDecomposition<F, S> {
    count: usize,
    width: u8,
    position: u8,
    awaiting: bool,
    mask_bits: Vec<S>,
    public: Vec<bool>,
    flipped: Vec<S>,
    borrow: Vec<S>,
    planes: Vec<Vec<S>>,
    one: F,
}

impl<F: Scalar, S: Clone> BitDecomposition<F, S> {
    /// The elements decomposed.
    pub closed spec fn count(&self) -> nat {
        self.count as nat
    }

    /// The bits per element.
    pub closed spec fn width(&self) -> nat {
        self.width as nat
    }

    /// The bit positions finished so far.
    pub closed spec fn position(&self) -> nat {
        self.position as nat
    }

    /// The mask bits, element after element, least significant first.
    pub closed spec fn mask_bits(&self) -> Seq<S> {
        self.mask_bits@
    }

    /// The opened bits of the current position.
    pub closed spec fn public(&self) -> Seq<bool> {
        self.public@
    }

    /// The flipped mask bits of the current position.
    pub closed spec fn flipped(&self) -> Seq<S> {
        self.flipped@
    }

    /// The running borrow of every element.
    pub closed spec fn borrow(&self) -> Seq<S> {
        self.borrow@
    }

    /// The bits found so far, element by element.
    pub closed spec fn planes(&self) -> Seq<Seq<S>> {
        self.planes@.map_values(|plane: Vec<S>| plane@)
    }

    /// A round's products are awaited.
    pub closed spec fn awaiting(&self) -> bool {
        self.awaiting
    }

    /// The state agrees with itself.
    pub closed spec fn wf(&self) -> bool {
        &&& self.position <= self.width
        &&& self.mask_bits@.len() == self.count * self.width
        &&& self.planes@.len() == self.count
        &&& forall|e: int| 0 <= e < self.count ==> (#[trigger] self.planes@[e])@.len() == self.position
        &&& self.position > 0 ==> self.borrow@.len() == self.count
        &&& self.awaiting ==> self.position < self.width && self.public@.len() == self.count && self.flipped@.len()
            == self.count && self.borrow@.len() == self.count && self.count > 0
        &&& self.count == 0 ==> self.position == self.width
        &&& self.one == F::element(1)
    }

    /// Mask every element of `x` with its `width` mask bits and start the
    /// decomposition. Returns the state and the masked values to open.
    ///
    /// # Errors
    ///
    /// The first error the backend answers while masking.
    pub fn mask<O: SecretOps<F, S>>(ops: &O, x: &Vec<S>, mask_bits: &Vec<S>, width: u8) -> (started: Result<
        (Self, Vec<S>),
        VmError,
    >)
        requires
            mask_bits@.len() == x@.len() * width,
            width <= 64,
        ensures
            (width == 0 || x@.len() == 0) ==> (started matches Ok((state, masked)) && masked@.len() == 0
                && state.position() == state.width()),
            width > 0 ==> match all_of(masked_each(*ops, x@, mask_bits@, width as int), x@.len() as int) {
                Ok(values) => (started matches Ok((state, masked)) && masked@ == values),
                Err(error) => started == Err::<(Self, Vec<S>), VmError>(error),
            },
            started matches Ok((state, masked)) ==> {
                &&& state.wf()
                &&& state.count() == x@.len()
                &&& state.width() == width
                &&& !state.awaiting()
                &&& (x@.len() > 0 ==> state.position() == 0)
                &&& state.mask_bits().len() == mask_bits@.len()
                &&& forall|k: int| 0 <= k < mask_bits@.len() ==> cloned(mask_bits@[k], #[trigger] state.mask_bits()[k])
                &&& state.planes() == Seq::new(x@.len(), |e: int| Seq::<S>::empty())
            },
    {
        let count = x.len();
        let w = width as usize;
        let one = F::of_u64(1);
        let mut planes: Vec<Vec<S>> = Vec::new();
        let mut k: usize = 0;
        while k < count
            invariant
                k <= count,
                planes@.len() == k,
                forall|e: int| 0 <= e < k ==> (#[trigger] planes@[e])@.len() == 0,
            decreases count - k,
        {
            planes.push(Vec::new());
            k = k + 1;
        }
        if count == 0 || w == 0 {
            let state = BitDecomposition {
                count,
                width,
                position: width,
                awaiting: false,
                mask_bits: Vec::new(),
                public: Vec::new(),
                flipped: Vec::new(),
                borrow: Vec::new(),
                planes,
                one,
            };
            assert(state.mask_bits@.len() == count * width) by (nonlinear_arith)
                requires
                    state.mask_bits@.len() == 0,
                    count == 0 || width == 0,
            ;
            if w > 0 {
                assert(all_of(masked_each(*ops, x@, mask_bits@, width as int), 0) == Ok::<Seq<S>, VmError>(
                    Seq::empty(),
                ));
            }
            assert(mask_bits@.len() == 0) by (nonlinear_arith)
                requires
                    mask_bits@.len() == count * width,
                    count == 0 || width == 0,
            ;
            proof {
                assert forall|j: int| 0 <= j < count implies (#[trigger] state.planes()[j]) =~= Seq::<S>::empty() by {
                    assert(state.planes@[j]@.len() == 0);
                }
                assert(state.planes() =~= Seq::new(count as nat, |j: int| Seq::<S>::empty()));
            }
            return Ok((state, Vec::new()));
        }
        let ghost each = masked_each(*ops, x@, mask_bits@, width as int);
        let total = mask_bits.len();
        let mut masked: Vec<S> = Vec::new();
        let mut e: usize = 0;
        while e < count
            invariant
                e <= count,
                count == x@.len(),
                1 <= w <= 64,
                w == width,
                mask_bits@.len() == count * w,
                mask_bits@.len() == total,
                each == masked_each(*ops, x@, mask_bits@, width as int),
                all_of(each, e as int) == Ok::<Seq<S>, VmError>(masked@),
            decreases count - e,
        {
            proof {
                crate::vm::interpreter::lemma_all_of_step(each, e as int);
            }
            assert((e + 1) * w <= count * w) by (nonlinear_arith)
                requires
                    e + 1 <= count,
            ;
            assert(e * w + w == (e + 1) * w) by (nonlinear_arith);
            assert(e * w + w <= total);
            let base = e * w;
            let mut accumulator = match ops.mul_clear(&mask_bits[base], F::of_u64(1)) {
                Ok(first) => first,
                Err(error) => {
                    proof {
                        crate::vm::interpreter::lemma_packed_stops(*ops, mask_bits@, base as int, 1, w as int);
                        crate::vm::interpreter::lemma_all_of_stops(each, e + 1, count as int);
                    }
                    return Err(error);
                },
            };
            let mut position: usize = 1;
            while position < w
                invariant
                    1 <= position <= w <= 64,
                    base == e * w,
                    base + w <= mask_bits@.len(),
                    mask_bits@.len() == total,
                    e < count,
                    count == x@.len(),
                    w == width,
                    each == masked_each(*ops, x@, mask_bits@, width as int),
                    all_of(each, e as int) == Ok::<Seq<S>, VmError>(masked@),
                    packed_outcome(*ops, mask_bits@, base as int, position as int) == Ok::<S, VmError>(accumulator),
                decreases w - position,
            {
                let weight = F::of_u64(1u64 << position as u64);
                let step = match ops.mul_clear(&mask_bits[base + position], weight) {
                    Ok(weighted) => ops.add(&accumulator, &weighted),
                    Err(error) => Err(error),
                };
                assert(step == packed_outcome(*ops, mask_bits@, base as int, position + 1));
                accumulator = match step {
                    Ok(total) => total,
                    Err(error) => {
                        proof {
                            crate::vm::interpreter::lemma_packed_stops(*ops, mask_bits@, base as int, position + 1, w as int);
                            crate::vm::interpreter::lemma_all_of_step(each, e as int);
                            crate::vm::interpreter::lemma_all_of_stops(each, e + 1, count as int);
                        }
                        return Err(error);
                    },
                };
                position = position + 1;
            }
            match ops.add(&x[e], &accumulator) {
                Ok(value) => masked.push(value),
                Err(error) => {
                    proof {
                        crate::vm::interpreter::lemma_all_of_stops(each, e + 1, count as int);
                    }
                    return Err(error);
                },
            }
            e = e + 1;
        }
        let mut copies: Vec<S> = Vec::new();
        let mut k: usize = 0;
        while k < mask_bits.len()
            invariant
                k <= mask_bits@.len(),
                copies@.len() == k,
                forall|j: int| 0 <= j < k ==> cloned(mask_bits@[j], #[trigger] copies@[j]),
            decreases mask_bits@.len() - k,
        {
            let copy = mask_bits[k].clone();
            let ghost prior = copies@;
            copies.push(copy);
            assert forall|j: int| 0 <= j < k + 1 implies cloned(mask_bits@[j], #[trigger] copies@[j]) by {
                if j < k {
                    assert(copies@[j] == prior[j]);
                }
            }
            k = k + 1;
        }
        let state = BitDecomposition {
            count,
            width,
            position: 0,
            awaiting: false,
            mask_bits: copies,
            public: Vec::new(),
            flipped: Vec::new(),
            borrow: Vec::new(),
            planes,
            one,
        };
        proof {
            assert forall|j: int| 0 <= j < count implies (#[trigger] state.planes()[j]) =~= Seq::<S>::empty() by {
                assert(state.planes@[j]@.len() == 0);
            }
            assert(state.planes() =~= Seq::new(count as nat, |j: int| Seq::<S>::empty()));
        }
        Ok((state, masked))
    }

    /// The multiplication round of the next bit position, given that
    /// position's opened bit of every element: each mask bit is flipped
    /// where the opened bit is set, and the flipped bits and the mask bits
    /// are multiplied by the running borrow (zero before the first
    /// position).
    ///
    /// # Errors
    ///
    /// The first error the backend answers; the state is then unchanged.
    pub fn round<O: SecretOps<F, S>>(&mut self, ops: &O, public: &Vec<bool>) -> (request: Result<Request<F, S>, VmError>)
        requires
            old(self).wf(),
            !old(self).awaiting(),
            old(self).position() < old(self).width(),
            public@.len() == old(self).count(),
        ensures
            final(self).wf(),
            final(self).count() == old(self).count(),
            final(self).width() == old(self).width(),
            final(self).position() == old(self).position(),
            final(self).mask_bits() == old(self).mask_bits(),
            final(self).planes() == old(self).planes(),
            request is Ok <==> final(self).awaiting(),
            request is Err ==> *final(self) == *old(self),
            (old(self).position() == 0 && ops.sub_outcome(old(self).mask_bits()[0], old(self).mask_bits()[0]) is Err)
                ==> request == Err::<Request<F, S>, VmError>(
                ops.sub_outcome(old(self).mask_bits()[0], old(self).mask_bits()[0])->Err_0,
            ),
            (old(self).position() > 0 || ops.sub_outcome(old(self).mask_bits()[0], old(self).mask_bits()[0]) is Ok)
                ==> match all_of(
                flipped_each(
                    *ops,
                    old(self).mask_bits(),
                    public@,
                    old(self).width() as int,
                    old(self).position() as int,
                ),
                old(self).count() as int,
            ) {
                Ok(v) => request is Ok && final(self).flipped() == v && final(self).public() == public@,
                Err(error) => request == Err::<Request<F, S>, VmError>(error),
            },
            request is Ok ==> {
                &&& old(self).position() > 0 ==> final(self).borrow() == old(self).borrow()
                &&& old(self).position() == 0 ==> forall|e: int|
                    0 <= e < old(self).count() ==> cloned(
                        ops.sub_outcome(old(self).mask_bits()[0], old(self).mask_bits()[0])->Ok_0,
                        #[trigger] final(self).borrow()[e],
                    )
            },
            request matches Ok(r) ==> (r matches Request::Multiply { x, y } && x@.len() == 2 * old(self).count()
                && y@.len() == 2 * old(self).count() && forall|e: int|
                0 <= e < old(self).count() ==> {
                    &&& cloned(final(self).flipped()[e], #[trigger] x@[e])
                    &&& cloned(
                        final(self).mask_bits()[e * old(self).width() + old(self).position()],
                        x@[old(self).count() + e],
                    )
                    &&& cloned(final(self).borrow()[e], y@[e])
                    &&& cloned(final(self).borrow()[e], y@[old(self).count() + e])
                }),
    {
        let count = self.count;
        let w = self.width as usize;
        let p = self.position as usize;
        let total = self.mask_bits.len();
        assert(0 < total) by (nonlinear_arith)
            requires
                total == count * w,
                count > 0,
                w > 0,
        ;
        let mut fresh_borrow: Vec<S> = Vec::new();
        if p == 0 {
            let zero = match ops.sub(&self.mask_bits[0], &self.mask_bits[0]) {
                Ok(zero) => zero,
                Err(error) => return Err(error),
            };
            let mut k: usize = 0;
            while k < count
                invariant
                    k <= count,
                    fresh_borrow@.len() == k,
                    forall|j: int| 0 <= j < k ==> cloned(zero, #[trigger] fresh_borrow@[j]),
                decreases count - k,
            {
                let copy = zero.clone();
                let ghost prior = fresh_borrow@;
                fresh_borrow.push(copy);
                assert forall|j: int| 0 <= j < k + 1 implies cloned(zero, #[trigger] fresh_borrow@[j]) by {
                    if j < k {
                        assert(fresh_borrow@[j] == prior[j]);
                    }
                }
                k = k + 1;
            }
        }
        let one = self.one;
        let zero_value = F::of_u64(0);
        let minus_one = one.negated();
        let ghost each = flipped_each(*ops, self.mask_bits@, public@, w as int, p as int);
        let mut flipped: Vec<S> = Vec::new();
        let mut e: usize = 0;
        while e < count
            invariant
                e <= count,
                count == self.count,
                w == self.width,
                p == self.position,
                p < w,
                total == self.mask_bits@.len(),
                total == count * w,
                public@.len() == count,
                one == F::element(1),
                minus_one == F::inverse(F::element(1)),
                zero_value == F::element(0),
                each == flipped_each(*ops, self.mask_bits@, public@, w as int, p as int),
                all_of(each, e as int) == Ok::<Seq<S>, VmError>(flipped@),
                *self == *old(self),
                self.wf(),
                !self.awaiting,
                p == 0 ==> ops.sub_outcome(self.mask_bits@[0], self.mask_bits@[0]) is Ok,
            decreases count - e,
        {
            assert(e * w + p < total) by (nonlinear_arith)
                requires
                    e < count,
                    p < w,
                    total == count * w,
            ;
            proof {
                crate::vm::interpreter::lemma_all_of_step(each, e as int);
            }
            let index = e * w + p;
            let set = public[e];
            let coefficient = if set { minus_one } else { one };
            let lifted = if set { one } else { zero_value };
            let answer = match ops.mul_clear(&self.mask_bits[index], coefficient) {
                Ok(scaled) => ops.add_clear(&scaled, lifted),
                Err(error) => Err(error),
            };
            assert(answer == each(e as int));
            match answer {
                Ok(value) => flipped.push(value),
                Err(error) => {
                    proof {
                        crate::vm::interpreter::lemma_all_of_stops(each, e + 1, count as int);
                    }
                    return Err(error);
                },
            }
            e = e + 1;
        }
        proof {
            crate::vm::interpreter::lemma_all_of_len(each, count as int);
        }
        let borrow_view: &Vec<S> = if p == 0 { &fresh_borrow } else { &self.borrow };
        let mut x: Vec<S> = Vec::new();
        let mut y: Vec<S> = Vec::new();
        let mut k: usize = 0;
        while k < count
            invariant
                k <= count,
                flipped@.len() == count,
                borrow_view@.len() == count,
                x@.len() == k,
                y@.len() == k,
                forall|j: int| 0 <= j < k ==> cloned(flipped@[j], #[trigger] x@[j]),
                forall|j: int| 0 <= j < k ==> cloned(borrow_view@[j], #[trigger] y@[j]),
            decreases count - k,
        {
            let left = flipped[k].clone();
            let right = borrow_view[k].clone();
            let ghost (px, py) = (x@, y@);
            x.push(left);
            y.push(right);
            assert forall|j: int| 0 <= j < k + 1 implies cloned(flipped@[j], #[trigger] x@[j]) by {
                if j < k {
                    assert(x@[j] == px[j]);
                }
            }
            assert forall|j: int| 0 <= j < k + 1 implies cloned(borrow_view@[j], #[trigger] y@[j]) by {
                if j < k {
                    assert(y@[j] == py[j]);
                }
            }
            k = k + 1;
        }
        let mut k: usize = 0;
        while k < count
            invariant
                k <= count,
                count == self.count,
                w == self.width,
                p == self.position,
                p < w,
                total == self.mask_bits@.len(),
                total == count * w,
                flipped@.len() == count,
                borrow_view@.len() == count,
                x@.len() == count + k,
                y@.len() == count + k,
                forall|j: int| 0 <= j < count ==> cloned(flipped@[j], #[trigger] x@[j]),
                forall|j: int| 0 <= j < count ==> cloned(borrow_view@[j], #[trigger] y@[j]),
                forall|j: int|
                    0 <= j < k ==> cloned(self.mask_bits@[j * w + p], #[trigger] x@[count + j]),
                forall|j: int| 0 <= j < k ==> cloned(borrow_view@[j], #[trigger] y@[count + j]),
            decreases count - k,
        {
            assert(k * w + p < total) by (nonlinear_arith)
                requires
                    k < count,
                    p < w,
                    total == count * w,
            ;
            let left = self.mask_bits[k * w + p].clone();
            let right = borrow_view[k].clone();
            let ghost (px, py) = (x@, y@);
            x.push(left);
            y.push(right);
            assert forall|j: int| 0 <= j < count implies cloned(flipped@[j], #[trigger] x@[j]) by {
                assert(x@[j] == px[j]);
            }
            assert forall|j: int| 0 <= j < count implies cloned(borrow_view@[j], #[trigger] y@[j]) by {
                assert(y@[j] == py[j]);
            }
            assert forall|j: int| 0 <= j < k + 1 implies cloned(self.mask_bits@[j * w + p], #[trigger] x@[count + j]) by {
                if j < k {
                    assert(x@[count + j] == px[count + j]);
                }
            }
            assert forall|j: int| 0 <= j < k + 1 implies cloned(borrow_view@[j], #[trigger] y@[count + j]) by {
                if j < k {
                    assert(y@[count + j] == py[count + j]);
                }
            }
            k = k + 1;
        }
        let mut copied: Vec<bool> = Vec::new();
        let mut k: usize = 0;
        while k < count
            invariant
                k <= count,
                public@.len() == count,
                copied@ == public@.take(k as int),
            decreases count - k,
        {
            copied.push(public[k]);
            k = k + 1;
            assert(copied@ =~= public@.take(k as int));
        }
        assert(copied@ =~= public@);
        if p == 0 {
            self.borrow = fresh_borrow;
        }
        self.public = copied;
        self.flipped = flipped;
        self.awaiting = true;
        Ok(Request::Multiply { x, y })
    }

    /// Take the products of the awaited round: each element's bit at this
    /// position is the flipped bit plus the borrow less twice their
    /// product, and the borrow moves on to `(2p - 1) rb + (1 - p)(r + b)`.
    ///
    /// # Errors
    ///
    /// The first error the backend answers; the state is then unchanged.
    pub fn absorb<O: SecretOps<F, S>>(&mut self, ops: &O, products: Vec<S>) -> (absorbed: Result<(), VmError>)
        requires
            old(self).wf(),
            old(self).awaiting(),
            products@.len() >= 2 * old(self).count(),
        ensures
            final(self).count() == old(self).count(),
            final(self).width() == old(self).width(),
            absorbed is Err ==> *final(self) == *old(self),
            match all_of(
                absorbed_each(
                    *ops,
                    old(self).flipped(),
                    old(self).borrow(),
                    old(self).mask_bits(),
                    old(self).public(),
                    products@,
                    old(self).count() as int,
                    old(self).width() as int,
                    old(self).position() as int,
                ),
                old(self).count() as int,
            ) {
                Ok(v) => {
                    &&& absorbed is Ok
                    &&& final(self).wf()
                    &&& !final(self).awaiting()
                    &&& final(self).position() == old(self).position() + 1
                    &&& final(self).mask_bits() == old(self).mask_bits()
                    &&& final(self).borrow() == Seq::new(old(self).count(), |e: int| v[e].1)
                    &&& final(self).planes() == Seq::new(
                        old(self).count(),
                        |e: int| old(self).planes()[e].push(v[e].0),
                    )
                },
                Err(error) => absorbed == Err::<(), VmError>(error),
            },
    {
        let count = self.count;
        let one = self.one;
        let zero_value = F::of_u64(0);
        let minus_one = one.negated();
        let two = F::of_u64(2);
        let plen = products.len();
        let total = self.mask_bits.len();
        let w = self.width as usize;
        let p = self.position as usize;
        let ghost each = absorbed_each(
            *ops,
            self.flipped@,
            self.borrow@,
            self.mask_bits@,
            self.public@,
            products@,
            count as int,
            w as int,
            p as int,
        );
        let mut fresh: Vec<S> = Vec::new();
        let mut next_borrow: Vec<S> = Vec::new();
        let ghost mut found: Seq<(S, S)> = Seq::empty();
        let mut e: usize = 0;
        while e < count
            invariant
                e <= count,
                count == self.count,
                self.wf(),
                self.awaiting,
                w == self.width,
                p == self.position,
                products@.len() >= 2 * count,
                products@.len() == plen,
                total == self.mask_bits@.len(),
                one == F::element(1),
                minus_one == F::inverse(F::element(1)),
                zero_value == F::element(0),
                two == F::element(2),
                each == absorbed_each(
                    *ops,
                    self.flipped@,
                    self.borrow@,
                    self.mask_bits@,
                    self.public@,
                    products@,
                    count as int,
                    w as int,
                    p as int,
                ),
                all_of(each, e as int) == Ok::<Seq<(S, S)>, VmError>(found),
                found.len() == e,
                fresh@ == Seq::new(e as nat, |j: int| found[j].0),
                next_borrow@ == Seq::new(e as nat, |j: int| found[j].1),
                *self == *old(self),
            decreases count - e,
        {
            assert(e * w + p < self.mask_bits@.len()) by (nonlinear_arith)
                requires
                    e < count,
                    p < w,
                    self.mask_bits@.len() == count * w,
            ;
            proof {
                crate::vm::interpreter::lemma_all_of_step(each, e as int);
            }
            let set = self.public[e];
            let toward = if set { one } else { minus_one };
            let rest = if set { zero_value } else { one };
            let answer: Result<(S, S), VmError> = match ops.add(&self.flipped[e], &self.borrow[e]) {
                Err(error) => Err(error),
                Ok(sum) => match ops.mul_clear(&products[e], two) {
                    Err(error) => Err(error),
                    Ok(doubled) => match ops.sub(&sum, &doubled) {
                        Err(error) => Err(error),
                        Ok(bit) => match ops.mul_clear(&products[count + e], toward) {
                            Err(error) => Err(error),
                            Ok(from_product) => match ops.mul_clear(&self.mask_bits[e * w + p], rest) {
                                Err(error) => Err(error),
                                Ok(from_bit) => match ops.mul_clear(&self.borrow[e], rest) {
                                    Err(error) => Err(error),
                                    Ok(from_borrow) => match ops.add(&from_product, &from_bit) {
                                        Err(error) => Err(error),
                                        Ok(partial) => match ops.add(&partial, &from_borrow) {
                                            Err(error) => Err(error),
                                            Ok(carried) => Ok((bit, carried)),
                                        },
                                    },
                                },
                            },
                        },
                    },
                },
            };
            assert(answer == each(e as int));
            match answer {
                Ok((bit, carried)) => {
                    proof {
                        found = found.push((bit, carried));
                    }
                    fresh.push(bit);
                    next_borrow.push(carried);
                    assert(fresh@ =~= Seq::new((e + 1) as nat, |j: int| found[j].0));
                    assert(next_borrow@ =~= Seq::new((e + 1) as nat, |j: int| found[j].1));
                },
                Err(error) => {
                    proof {
                        crate::vm::interpreter::lemma_all_of_stops(each, e + 1, count as int);
                    }
                    return Err(error);
                },
            }
            e = e + 1;
        }
        let ghost before = self.planes();
        let mut old_planes: Vec<Vec<S>> = Vec::new();
        std::mem::swap(&mut old_planes, &mut self.planes);
        let ghost start = old_planes@;
        let ghost bits = fresh@;
        let mut planes: Vec<Vec<S>> = Vec::new();
        let mut e: usize = 0;
        while e < count
            invariant
                e <= count,
                start.len() == count,
                bits.len() == count,
                old_planes@ == start.skip(e as int),
                fresh@ == bits.skip(e as int),
                planes@.len() == e,
                forall|j: int| 0 <= j < e ==> (#[trigger] planes@[j])@ == start[j]@.push(bits[j]),
            decreases count - e,
        {
            let mut plane = old_planes.remove(0);
            let bit = fresh.remove(0);
            assert(plane@ == start[e as int]@);
            assert(bit == bits[e as int]);
            plane.push(bit);
            let ghost prior = planes@;
            planes.push(plane);
            assert forall|j: int| 0 <= j < e + 1 implies (#[trigger] planes@[j])@ == start[j]@.push(bits[j]) by {
                if j < e {
                    assert(planes@[j] == prior[j]);
                }
            }
            assert(old_planes@ =~= start.skip(e + 1));
            assert(fresh@ =~= bits.skip(e + 1));
            e = e + 1;
        }
        self.planes = planes;
        self.borrow = next_borrow;
        self.position = self.position + 1;
        self.awaiting = false;
        proof {
            assert(self.planes() =~= Seq::new(count as nat, |e: int| before[e].push(found[e].0)));
            assert(self.borrow() =~= Seq::new(count as nat, |e: int| found[e].1));
        }
        Ok(())
    }

    /// Every element's bits, element after element, least significant
    /// first: bit `k` of element `e` at `e * width + k`.
    pub fn finish(self) -> (bits: Vec<S>)
        requires
            self.wf(),
            self.position() == self.width(),
        ensures
            bits@ == laid_out(self.planes(), self.count() as int),
            bits@.len() == self.count() * self.width(),
            forall|e: int, k: int|
                #![trigger self.planes()[e][k]]
                0 <= e < self.count() && 0 <= k < self.width() ==> bits@[e * self.width() + k] == self.planes()[e][k],
    {
        let count = self.count;
        let w = self.width as usize;
        let ghost views = self.planes();
        let ghost start = self.planes@;
        let mut planes = self.planes;
        let mut bits: Vec<S> = Vec::new();
        let mut e: usize = 0;
        while e < count
            invariant
                e <= count,
                start.len() == count,
                views == start.map_values(|plane: Vec<S>| plane@),
                planes@ == start.skip(e as int),
                bits@ == laid_out(views, e as int),
            decreases count - e,
        {
            let mut plane = planes.remove(0);
            assert(plane@ == views[e as int]);
            assert(planes@ =~= start.skip(e + 1));
            let ghost whole = plane@;
            let ghost done = bits@;
            let mut k: usize = 0;
            let len = plane.len();
            while k < len
                invariant
                    k <= len,
                    len == whole.len(),
                    plane@ == whole.skip(k as int),
                    bits@ == done + whole.take(k as int),
                decreases len - k,
            {
                let bit = plane.remove(0);
                bits.push(bit);
                assert(plane@ =~= whole.skip(k + 1));
                assert(bits@ =~= done + whole.take(k + 1));
                k = k + 1;
            }
            assert(whole.take(len as int) =~= whole);
            e = e + 1;
        }
        proof {
            assert forall|j: int| 0 <= j < count implies (#[trigger] views[j]).len() == w by {
                assert(views[j] == start[j]@);
            }
            lemma_laid_out_len(views, count as int, w as int);
            assert forall|e: int, k: int|
                #![trigger views[e][k]]
                0 <= e < count && 0 <= k < w implies bits@[e * w + k] == views[e][k] by {
                lemma_laid_out_index(views, count as int, w as int, e, k);
            }
        }
        bits
    }
}

} // verus!
