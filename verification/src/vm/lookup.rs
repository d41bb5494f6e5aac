//! The public side of a masked table lookup.
//!
//! A lookup of a secret byte `x` masks it with a random secret byte `r`
//! and opens `delta = x ^ r`. With `delta` public, the row
//! `V[k] = S(delta ^ k)` is public too, and a mux tree driven by the
//! secret bits of `r` selects `V[r] = S(x)`. The tree's first level reads
//! the row in adjacent pairs.

use crate::vm::bitdec::{lemma_place_adds, lemma_weighed_bounds, place, weighed};
use crate::vm::circuits::AES_SBOX;
use crate::vm::error::VmError;
use crate::vm::interpreter::{all_of, Request, Scalar, SecretOps};
use vstd::prelude::*;

verus! {

/// The public row of one masked S-box lookup, in the pairs
/// `(V[2i], V[2i + 1])` that the mux tree's first level selects between.
pub fn sbox_leaf_pairs(delta: u8) -> (pairs: Vec<(u8, u8)>)
    ensures
        pairs@.len() == 128,
        forall|i: int|
            #![trigger pairs@[i]]
            0 <= i < 128 ==> pairs@[i] == (AES_SBOX@[(delta ^ ((2 * i) as u8)) as int], AES_SBOX@[(delta ^ ((2
                * i + 1) as u8)) as int]),
{
    let mut pairs: Vec<(u8, u8)> = Vec::new();
    let mut index: u8 = 0;
    while index < 128
        invariant
            index <= 128,
            pairs@.len() == index,
            forall|i: int|
                #![trigger pairs@[i]]
                0 <= i < index ==> pairs@[i] == (AES_SBOX@[(delta ^ ((2 * i) as u8)) as int], AES_SBOX@[(delta
                    ^ ((2 * i + 1) as u8)) as int]),
        decreases 128 - index,
    {
        assert((index << 1) == ((2 * index) as u8) && ((index << 1) | 1) == ((2 * index + 1) as u8)) by (bit_vector)
            requires
                index < 128,
        ;
        let left = AES_SBOX[(delta ^ (index << 1)) as usize];
        let right = AES_SBOX[(delta ^ ((index << 1) | 1)) as usize];
        pairs.push((left, right));
        index = index + 1;
    }
    pairs
}

/// What a backend answers for leaf `k` of the first level of the lookups
/// whose public masks are `deltas`: of the row pair `(l, r)` of byte
/// `k / 128`, entry `k % 128`, the leaf `l + b (r - l)` for the byte's
/// lowest mask bit `b`.
pub open spec fn leaf_outcome<F: Scalar, S, O: SecretOps<F, S>>(ops: O, mask_bits: Seq<S>, deltas: Seq<u8>, k: int) -> Result<
    S,
    VmError,
> {
    let e = k / 128;
    let i = k % 128;
    let left = AES_SBOX@[(deltas[e] ^ ((2 * i) as u8)) as int];
    let right = AES_SBOX@[(deltas[e] ^ ((2 * i + 1) as u8)) as int];
    match ops.mul_clear_outcome(
        mask_bits[8 * e],
        F::total(F::element(right as u64), F::inverse(F::element(left as u64))),
    ) {
        Ok(scaled) => ops.add_clear_outcome(scaled, F::element(left as u64)),
        Err(error) => Err(error),
    }
}

/// What a backend answers, leaf by leaf, for the first level.
pub open spec fn leaves_each<F: Scalar, S, O: SecretOps<F, S>>(ops: O, mask_bits: Seq<S>, deltas: Seq<u8>) -> spec_fn(
    int,
) -> Result<S, VmError> {
    |k: int| leaf_outcome(ops, mask_bits, deltas, k)
}

/// What a backend answers, pair by pair, for the differences a level's
/// round multiplies: right less left.
pub open spec fn choose_each<F, S, O: SecretOps<F, S>>(ops: O, level: Seq<S>) -> spec_fn(int) -> Result<S, VmError> {
    |k: int| ops.sub_outcome(level[2 * k + 1], level[2 * k])
}

/// What a backend answers, pair by pair, for the next level: the left
/// entry plus its scaled difference.
pub open spec fn select_each<F, S, O: SecretOps<F, S>>(ops: O, bases: Seq<S>, scaled: Seq<S>) -> spec_fn(int) -> Result<
    S,
    VmError,
> {
    |k: int| ops.add_outcome(bases[k], scaled[k])
}

/// Pairs per lookup a level at `depth` selects between.
pub open spec fn pairs_at(depth: int) -> int {
    if depth == 1 {
        64
    } else if depth == 2 {
        32
    } else if depth == 3 {
        16
    } else if depth == 4 {
        8
    } else if depth == 5 {
        4
    } else if depth == 6 {
        2
    } else if depth == 7 {
        1
    } else {
        0
    }
}

/// Entries per lookup in the level at `depth`: 128 after the first level,
/// halving with each mask bit, one at the end.
pub open spec fn entries_at(depth: int) -> int {
    if depth == 8 {
        1
    } else {
        2 * pairs_at(depth)
    }
}

/// A batch of masked S-box lookups climbing its mux tree: each level's
/// round selects, for every pair, the right entry where the next mask bit
/// is set and the left one elsewhere.
pub struct TableLookup<S> {
    count: usize,
    depth: u8,
    awaiting: bool,
    mask_bits: Vec<S>,
    level: Vec<S>,
    bases: Vec<S>,
}

impl<S: Clone> TableLookup<S> {
    /// The lookups in the batch.
    pub closed spec fn count(&self) -> nat {
        self.count as nat
    }

    /// The mask bits consumed so far.
    pub closed spec fn depth(&self) -> nat {
        self.depth as nat
    }

    /// A level's products are awaited.
    pub closed spec fn awaiting(&self) -> bool {
        self.awaiting
    }

    /// The mask bits, eight per lookup, least significant first.
    pub closed spec fn mask_bits(&self) -> Seq<S> {
        self.mask_bits@
    }

    /// The current level, lookup after lookup.
    pub closed spec fn level(&self) -> Seq<S> {
        self.level@
    }

    /// The left entries the awaited round adds the scaled differences to.
    pub closed spec fn bases(&self) -> Seq<S> {
        self.bases@
    }

    /// The state agrees with itself.
    pub closed spec fn wf(&self) -> bool {
        &&& 1 <= self.depth <= 8
        &&& self.mask_bits@.len() == 8 * self.count
        &&& self.level@.len() == self.count * entries_at(self.depth as int)
        &&& self.awaiting ==> self.depth <= 7 && self.bases@.len() == self.count * pairs_at(self.depth as int)
    }

    /// The first level of every lookup from its public mask `deltas[e]`
    /// and its lowest mask bit.
    ///
    /// # Errors
    ///
    /// The first error the backend answers.
    pub fn first_level<F: Scalar, O: SecretOps<F, S>>(ops: &O, mask_bits: Vec<S>, deltas: &Vec<u8>) -> (started: Result<
        Self,
        VmError,
    >)
        requires
            mask_bits@.len() == 8 * deltas@.len(),
        ensures
            match all_of(leaves_each(*ops, mask_bits@, deltas@), (128 * deltas@.len()) as int) {
                Ok(v) => started matches Ok(state) && state.wf() && state.count() == deltas@.len() && state.depth()
                    == 1 && !state.awaiting() && state.mask_bits() == mask_bits@ && state.level() == v,
                Err(error) => started == Err::<Self, VmError>(error),
            },
    {
        let count = deltas.len();
        let ghost each = leaves_each(*ops, mask_bits@, deltas@);
        let mut level: Vec<S> = Vec::new();
        let mut e: usize = 0;
        while e < count
            invariant
                e <= count,
                count == deltas@.len(),
                mask_bits@.len() == 8 * count,
                mask_bits.len() == 8 * count,
                each == leaves_each(*ops, mask_bits@, deltas@),
                all_of(each, 128 * e) == Ok::<Seq<S>, VmError>(level@),
            decreases count - e,
        {
            let pairs = sbox_leaf_pairs(deltas[e]);
            let mut i: usize = 0;
            while i < 128
                invariant
                    i <= 128,
                    e < count,
                    count == deltas@.len(),
                    mask_bits@.len() == 8 * count,
                    mask_bits.len() == 8 * count,
                    pairs@.len() == 128,
                    forall|j: int|
                        #![trigger pairs@[j]]
                        0 <= j < 128 ==> pairs@[j] == (AES_SBOX@[(deltas@[e as int] ^ ((2 * j) as u8)) as int], AES_SBOX@[(
                        deltas@[e as int] ^ ((2 * j + 1) as u8)) as int]),
                    each == leaves_each(*ops, mask_bits@, deltas@),
                    all_of(each, 128 * e + i) == Ok::<Seq<S>, VmError>(level@),
                decreases 128 - i,
            {
                let k: Ghost<int> = Ghost(128 * e + i);
                assert((128 * e + i) / 128 == e && (128 * e + i) % 128 == i) by (nonlinear_arith)
                    requires
                        0 <= i < 128,
                        0 <= e,
                ;
                proof {
                    crate::vm::interpreter::lemma_all_of_step(each, k@);
                }
                assert(8 * e < 8 * count);
                let (left, right) = pairs[i];
                let difference = F::of_u64(right as u64).plus(F::of_u64(left as u64).negated());
                let answer = match ops.mul_clear(&mask_bits[8 * e], difference) {
                    Ok(scaled) => ops.add_clear(&scaled, F::of_u64(left as u64)),
                    Err(error) => Err(error),
                };
                assert(answer == each(k@));
                match answer {
                    Ok(leaf) => level.push(leaf),
                    Err(error) => {
                        proof {
                            crate::vm::interpreter::lemma_all_of_stops(each, k@ + 1, 128 * count);
                        }
                        return Err(error);
                    },
                }
                i = i + 1;
            }
            e = e + 1;
        }
        proof {
            crate::vm::interpreter::lemma_all_of_len(each, 128 * count);
            assert(entries_at(1) == 128);
            assert(count * 128 == 128 * count) by (nonlinear_arith);
        }
        Ok(TableLookup { count, depth: 1, awaiting: false, mask_bits, level, bases: Vec::new() })
    }

    /// The round of the next level: for every pair, the difference of its
    /// entries against the lookup's next mask bit.
    ///
    /// # Errors
    ///
    /// The first error the backend answers; the state is then unchanged.
    pub fn request<F, O: SecretOps<F, S>>(&mut self, ops: &O) -> (request: Result<Request<F, S>, VmError>)
        requires
            old(self).wf(),
            !old(self).awaiting(),
            old(self).depth() <= 7,
        ensures
            final(self).count() == old(self).count(),
            final(self).depth() == old(self).depth(),
            final(self).mask_bits() == old(self).mask_bits(),
            final(self).level() == old(self).level(),
            final(self).wf(),
            request is Ok <==> final(self).awaiting(),
            request is Err ==> *final(self) == *old(self),
            match all_of(
                choose_each(*ops, old(self).level()),
                old(self).count() * pairs_at(old(self).depth() as int),
            ) {
                Ok(v) => request matches Ok(Request::Multiply { x, y }) && x@ == v && y@.len() == v.len() && (forall|k: int|
                    0 <= k < v.len() ==> cloned(
                        old(self).mask_bits()[8 * (k / pairs_at(old(self).depth() as int)) + old(self).depth()],
                        #[trigger] y@[k],
                    )) && (forall|k: int|
                    0 <= k < v.len() ==> cloned(old(self).level()[2 * k], #[trigger] final(self).bases()[k])),
                Err(error) => request == Err::<Request<F, S>, VmError>(error),
            },
    {
        let count = self.count;
        let depth = self.depth as usize;
        let w: usize = match self.depth {
            1 => 64,
            2 => 32,
            3 => 16,
            4 => 8,
            5 => 4,
            6 => 2,
            _ => 1,
        };
        assert(w == pairs_at(depth as int));
        assert(count * (2 * w) == 2 * (count * w)) by (nonlinear_arith);
        let total = self.level.len();
        let half = count * w;
        let ghost each = choose_each(*ops, self.level@);
        let mut x: Vec<S> = Vec::new();
        let mut y: Vec<S> = Vec::new();
        let mut bases: Vec<S> = Vec::new();
        let mut k: usize = 0;
        while k < half
            invariant
                k <= half,
                half == count * w,
                total == self.level@.len(),
                total == 2 * half,
                1 <= w <= 64,
                1 <= depth <= 7,
                self.mask_bits@.len() == 8 * count,
                count == self.count,
                depth == self.depth,
                w == pairs_at(depth as int),
                each == choose_each(*ops, self.level@),
                all_of(each, k as int) == Ok::<Seq<S>, VmError>(x@),
                y@.len() == k,
                bases@.len() == k,
                forall|j: int| 0 <= j < k ==> cloned(self.mask_bits@[8 * (j / w as int) + depth], #[trigger] y@[j]),
                forall|j: int| 0 <= j < k ==> cloned(self.level@[2 * j], #[trigger] bases@[j]),
                *self == *old(self),
                self.wf(),
                !self.awaiting,
                self.mask_bits.len() == 8 * count,
            decreases half - k,
        {
            proof {
                crate::vm::interpreter::lemma_all_of_step(each, k as int);
            }
            let element = k / w;
            assert(element < count && 8 * element + depth < 8 * count) by (nonlinear_arith)
                requires
                    k < count * w,
                    element == k / w,
                    1 <= w,
                    depth <= 7,
            ;
            let answer = ops.sub(&self.level[2 * k + 1], &self.level[2 * k]);
            assert(answer == each(k as int));
            match answer {
                Ok(difference) => x.push(difference),
                Err(error) => {
                    proof {
                        crate::vm::interpreter::lemma_all_of_stops(each, k + 1, half as int);
                    }
                    return Err(error);
                },
            }
            let selector = self.mask_bits[8 * element + depth].clone();
            let base = self.level[2 * k].clone();
            let ghost (py, pb) = (y@, bases@);
            y.push(selector);
            bases.push(base);
            assert forall|j: int| 0 <= j < k + 1 implies cloned(self.mask_bits@[8 * (j / w as int) + depth], #[trigger] y@[j]) by {
                if j < k {
                    assert(y@[j] == py[j]);
                }
            }
            assert forall|j: int| 0 <= j < k + 1 implies cloned(self.level@[2 * j], #[trigger] bases@[j]) by {
                if j < k {
                    assert(bases@[j] == pb[j]);
                }
            }
            k = k + 1;
        }
        proof {
            crate::vm::interpreter::lemma_all_of_len(each, half as int);
        }
        self.bases = bases;
        self.awaiting = true;
        Ok(Request::Multiply { x, y })
    }

    /// Take the scaled differences of the awaited round: every pair's
    /// left entry plus its scaled difference is the next level's entry.
    ///
    /// # Errors
    ///
    /// The first error the backend answers; the state is then unchanged.
    pub fn absorb<F, O: SecretOps<F, S>>(&mut self, ops: &O, scaled: &Vec<S>) -> (absorbed: Result<(), VmError>)
        requires
            old(self).wf(),
            old(self).awaiting(),
            scaled@.len() >= old(self).count() * pairs_at(old(self).depth() as int),
        ensures
            final(self).count() == old(self).count(),
            final(self).mask_bits() == old(self).mask_bits(),
            absorbed is Err ==> *final(self) == *old(self),
            match all_of(
                select_each(*ops, old(self).bases(), scaled@),
                old(self).count() * pairs_at(old(self).depth() as int),
            ) {
                Ok(v) => absorbed is Ok && final(self).wf() && !final(self).awaiting() && final(self).depth()
                    == old(self).depth() + 1 && final(self).level() == v,
                Err(error) => absorbed == Err::<(), VmError>(error),
            },
    {
        let count = self.count;
        let w: usize = match self.depth {
            1 => 64,
            2 => 32,
            3 => 16,
            4 => 8,
            5 => 4,
            6 => 2,
            _ => 1,
        };
        assert(w == pairs_at(self.depth as int));
        let half = self.bases.len();
        let ghost each = select_each(*ops, self.bases@, scaled@);
        let mut next: Vec<S> = Vec::new();
        let mut k: usize = 0;
        while k < half
            invariant
                k <= half,
                half == self.bases@.len(),
                half == count * w,
                scaled@.len() >= half,
                each == select_each(*ops, self.bases@, scaled@),
                all_of(each, k as int) == Ok::<Seq<S>, VmError>(next@),
                *self == *old(self),
                self.wf(),
                self.awaiting,
                w == pairs_at(self.depth as int),
                count == self.count,
            decreases half - k,
        {
            proof {
                crate::vm::interpreter::lemma_all_of_step(each, k as int);
            }
            let answer = ops.add(&self.bases[k], &scaled[k]);
            assert(answer == each(k as int));
            match answer {
                Ok(value) => next.push(value),
                Err(error) => {
                    proof {
                        crate::vm::interpreter::lemma_all_of_stops(each, k + 1, half as int);
                    }
                    return Err(error);
                },
            }
            k = k + 1;
        }
        proof {
            crate::vm::interpreter::lemma_all_of_len(each, half as int);
        }
        self.level = next;
        self.depth = self.depth + 1;
        self.awaiting = false;
        Ok(())
    }

    /// The looked-up bytes once every mask bit was used: one share per
    /// lookup.
    pub fn finish(self) -> (bytes: Vec<S>)
        requires
            self.wf(),
            self.depth() == 8,
        ensures
            bytes@ == self.level(),
            bytes@.len() == self.count(),
    {
        self.level
    }
}

/// One level of the mux tree over the integers: entry `i` is the pair's
/// left entry plus `bit` times its right less its left.
pub open spec fn mux_level(level: Seq<int>, bit: int) -> Seq<int> {
    Seq::new(level.len() / 2, |i: int| level[2 * i] + bit * (level[2 * i + 1] - level[2 * i]))
}

/// The mux tree after its first `d` mask bits.
pub open spec fn mux_tree(level: Seq<int>, mask: Seq<int>, d: nat) -> Seq<int>
    decreases d,
{
    if d == 0 {
        level
    } else {
        mux_level(mux_tree(level, mask, (d - 1) as nat), mask[d - 1])
    }
}

/// The public row of a masked lookup: entry `k` is `S(delta ^ k)`.
pub open spec fn sbox_row(delta: u8) -> Seq<int> {
    Seq::new(256, |k: int| AES_SBOX@[(delta ^ (k as u8)) as int] as int)
}

/// After `d` mask bits, entry `i` of the tree is the row's entry at
/// `i 2^d` plus the mask bits read so far.
proof fn lemma_mux_tree_index(level: Seq<int>, mask: Seq<int>, d: nat)
    requires
        d <= 8,
        level.len() == 256,
        mask.len() == 8,
        forall|j: int| 0 <= j < 8 ==> mask[j] == 0 || mask[j] == 1,
    ensures
        mux_tree(level, mask, d).len() == place((8 - d) as nat),
        forall|i: int|
            0 <= i < place((8 - d) as nat) ==> #[trigger] mux_tree(level, mask, d)[i] == level[i * place(d)
                + weighed(mask, d)],
    decreases d,
{
    lemma_place_adds(d, (8 - d) as nat);
    assert(place(8) == 256) by {
        reveal_with_fuel(place, 9);
    }
    if d > 0 {
        let j = (d - 1) as nat;
        lemma_mux_tree_index(level, mask, j);
        let prior = mux_tree(level, mask, j);
        let bit = mask[j as int];
        assert(place((8 - j) as nat) == 2 * place((8 - d) as nat));
        assert(place(d) == 2 * place(j));
        lemma_weighed_bounds(mask, j);
        assert forall|i: int| 0 <= i < place((8 - d) as nat) implies #[trigger] mux_tree(level, mask, d)[i]
            == level[i * place(d) + weighed(mask, d)] by {
            assert(mux_tree(level, mask, d)[i] == prior[2 * i] + bit * (prior[2 * i + 1] - prior[2 * i]));
            assert(weighed(mask, d) == weighed(mask, j) + bit * place(j));
            if bit == 0 {
                assert(2 * i * place(j) == i * place(d)) by (nonlinear_arith)
                    requires
                        place(d) == 2 * place(j),
                ;
            } else {
                assert((2 * i + 1) * place(j) == i * place(d) + place(j)) by (nonlinear_arith)
                    requires
                        place(d) == 2 * place(j),
                ;
            }
        }
    }
}

/// The masked lookup law over the integers: for a secret byte `x` masked
/// by `r`, the mux tree over the public row of `x ^ r`, driven by the bits
/// of `r` least significant first, ends in the single entry `S(x)`.
pub proof fn lemma_masked_lookup_selects_the_sbox(x: u8, r: u8, mask: Seq<int>)
    requires
        mask.len() == 8,
        forall|j: int| 0 <= j < 8 ==> #[trigger] mask[j] == ((r >> (j as u8)) & 1) as int,
    ensures
        mux_tree(sbox_row(x ^ r), mask, 8) == seq![AES_SBOX@[x as int] as int],
{
    assert forall|j: int| 0 <= j < 8 implies mask[j] == 0 || mask[j] == 1 by {
        let s = (j as u8);
        assert(((r >> s) & 1) == 0 || ((r >> s) & 1) == 1) by (bit_vector);
    }
    lemma_mux_tree_index(sbox_row(x ^ r), mask, 8);
    assert(place(0) == 1);
    assert(place(8) == 256) by {
        reveal_with_fuel(place, 9);
    }
    assert(weighed(mask, 8) == r) by {
        reveal_with_fuel(weighed, 9);
        reveal_with_fuel(place, 8);
        assert(mask[0] == ((r >> 0u8) & 1) as int);
        assert(mask[1] == ((r >> 1u8) & 1) as int);
        assert(mask[2] == ((r >> 2u8) & 1) as int);
        assert(mask[3] == ((r >> 3u8) & 1) as int);
        assert(mask[4] == ((r >> 4u8) & 1) as int);
        assert(mask[5] == ((r >> 5u8) & 1) as int);
        assert(mask[6] == ((r >> 6u8) & 1) as int);
        assert(mask[7] == ((r >> 7u8) & 1) as int);
        assert(((r >> 0u8) & 1) + ((r >> 1u8) & 1) * 2 + ((r >> 2u8) & 1) * 4 + ((r >> 3u8) & 1) * 8 + ((r >> 4u8)
            & 1) * 16 + ((r >> 5u8) & 1) * 32 + ((r >> 6u8) & 1) * 64 + ((r >> 7u8) & 1) * 128 == r) by (bit_vector);
    }
    assert(((x ^ r) ^ r) == x) by (bit_vector);
    let tree = mux_tree(sbox_row(x ^ r), mask, 8);
    assert(tree[0] == sbox_row(x ^ r)[r as int]);
    assert((r as int) as u8 == r);
    assert(tree =~= seq![AES_SBOX@[x as int] as int]);
}

} // verus!
