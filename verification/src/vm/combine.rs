//! Byte-level share arithmetic the table and XOR protocols share: the XOR
//! of two decomposed bytes from their bits and the bits' products, packed
//! back into one share per byte, least significant bit first.

use crate::vm::error::VmError;
use crate::vm::interpreter::{all_of, Scalar, SecretOps};
use vstd::prelude::*;

verus! {

/// What a backend answers for the XOR of the bits `a` and `b` whose
/// product is `p`: `a + b - 2p`.
pub open spec fn xor_bit_outcome<F: Scalar, S, O: SecretOps<F, S>>(ops: O, a: S, b: S, p: S) -> Result<S, VmError> {
    match ops.add_outcome(a, b) {
        Ok(sum) => match ops.mul_clear_outcome(p, F::element(2)) {
            Ok(doubled) => ops.sub_outcome(sum, doubled),
            Err(error) => Err(error),
        },
        Err(error) => Err(error),
    }
}

/// What a backend answers for packing the XORs of the first `n` bits of
/// the byte at `base`: XOR bit `i` weighted by `2^i`, summed in order.
pub open spec fn xor_packed_outcome<F: Scalar, S, O: SecretOps<F, S>>(
    ops: O,
    a: Seq<S>,
    b: Seq<S>,
    p: Seq<S>,
    base: int,
    n: int,
) -> Result<S, VmError>
    decreases n,
{
    if n <= 1 {
        match xor_bit_outcome(ops, a[base], b[base], p[base]) {
            Ok(bit) => ops.mul_clear_outcome(bit, F::element(1)),
            Err(error) => Err(error),
        }
    } else {
        match xor_packed_outcome(ops, a, b, p, base, n - 1) {
            Ok(total) => match xor_bit_outcome(ops, a[base + n - 1], b[base + n - 1], p[base + n - 1]) {
                Ok(bit) => match ops.mul_clear_outcome(bit, F::element(1u64 << ((n - 1) as u64))) {
                    Ok(weighted) => ops.add_outcome(total, weighted),
                    Err(error) => Err(error),
                },
                Err(error) => Err(error),
            },
            Err(error) => Err(error),
        }
    }
}

/// What a backend answers, byte by byte, for XOR-and-pack over bit groups
/// of eight.
pub open spec fn xor_bytes_each<F: Scalar, S, O: SecretOps<F, S>>(ops: O, a: Seq<S>, b: Seq<S>, p: Seq<S>) -> spec_fn(
    int,
) -> Result<S, VmError> {
    |e: int| xor_packed_outcome(ops, a, b, p, 8 * e, 8)
}

/// Once a byte failed, its later bits change nothing.
proof fn lemma_xor_packed_stops<F: Scalar, S, O: SecretOps<F, S>>(
    ops: O,
    a: Seq<S>,
    b: Seq<S>,
    p: Seq<S>,
    base: int,
    j: int,
    n: int,
)
    requires
        1 <= j <= n,
        xor_packed_outcome(ops, a, b, p, base, j) is Err,
    ensures
        xor_packed_outcome(ops, a, b, p, base, n) == xor_packed_outcome(ops, a, b, p, base, j),
    decreases n - j,
{
    if n > j {
        lemma_xor_packed_stops(ops, a, b, p, base, j, n - 1);
    }
}

/// The bytes whose bits, least significant first, are the XORs of the
/// bit groups `a_bits` and `b_bits`, given the products of their bits:
/// one share per group of eight.
///
/// # Errors
///
/// The first error the backend answers.
pub fn xor_bytes<F: Scalar, S, O: SecretOps<F, S>>(
    ops: &O,
    a_bits: &Vec<S>,
    b_bits: &Vec<S>,
    products: &Vec<S>,
    count: usize,
) -> (bytes: Result<Vec<S>, VmError>)
    requires
        a_bits@.len() >= 8 * count,
        b_bits@.len() >= 8 * count,
        products@.len() >= 8 * count,
    ensures
        match all_of(xor_bytes_each(*ops, a_bits@, b_bits@, products@), count as int) {
            Ok(v) => bytes matches Ok(out) && out@ == v,
            Err(error) => bytes == Err::<Vec<S>, VmError>(error),
        },
{
    let ghost each = xor_bytes_each(*ops, a_bits@, b_bits@, products@);
    let one = F::of_u64(1);
    let two = F::of_u64(2);
    let available = a_bits.len();
    let mut bytes: Vec<S> = Vec::new();
    let mut e: usize = 0;
    while e < count
        invariant
            e <= count,
            available == a_bits@.len(),
            a_bits@.len() >= 8 * count,
            b_bits@.len() >= 8 * count,
            products@.len() >= 8 * count,
            one == F::element(1),
            two == F::element(2),
            each == xor_bytes_each(*ops, a_bits@, b_bits@, products@),
            all_of(each, e as int) == Ok::<Seq<S>, VmError>(bytes@),
        decreases count - e,
    {
        proof {
            crate::vm::interpreter::lemma_all_of_step(each, e as int);
        }
        let base = 8 * e;
        let first = match ops.add(&a_bits[base], &b_bits[base]) {
            Ok(sum) => match ops.mul_clear(&products[base], two) {
                Ok(doubled) => ops.sub(&sum, &doubled),
                Err(error) => Err(error),
            },
            Err(error) => Err(error),
        };
        let start = match first {
            Ok(bit) => ops.mul_clear(&bit, one),
            Err(error) => Err(error),
        };
        assert(start == xor_packed_outcome(*ops, a_bits@, b_bits@, products@, base as int, 1));
        let mut total = match start {
            Ok(total) => total,
            Err(error) => {
                proof {
                    lemma_xor_packed_stops(*ops, a_bits@, b_bits@, products@, base as int, 1, 8);
                    crate::vm::interpreter::lemma_all_of_stops(each, e + 1, count as int);
                }
                return Err(error);
            },
        };
        let mut position: usize = 1;
        while position < 8
            invariant
                1 <= position <= 8,
                e < count,
                base == 8 * e,
                a_bits@.len() >= 8 * count,
                b_bits@.len() >= 8 * count,
                products@.len() >= 8 * count,
                one == F::element(1),
                two == F::element(2),
                each == xor_bytes_each(*ops, a_bits@, b_bits@, products@),
                all_of(each, e as int) == Ok::<Seq<S>, VmError>(bytes@),
                xor_packed_outcome(*ops, a_bits@, b_bits@, products@, base as int, position as int) == Ok::<
                    S,
                    VmError,
                >(total),
            decreases 8 - position,
        {
            let index = base + position;
            let weight = F::of_u64(1u64 << position as u64);
            let step = match ops.add(&a_bits[index], &b_bits[index]) {
                Ok(sum) => match ops.mul_clear(&products[index], two) {
                    Ok(doubled) => match ops.sub(&sum, &doubled) {
                        Ok(bit) => match ops.mul_clear(&bit, weight) {
                            Ok(weighted) => ops.add(&total, &weighted),
                            Err(error) => Err(error),
                        },
                        Err(error) => Err(error),
                    },
                    Err(error) => Err(error),
                },
                Err(error) => Err(error),
            };
            assert(step == xor_packed_outcome(*ops, a_bits@, b_bits@, products@, base as int, position + 1));
            total = match step {
                Ok(next) => next,
                Err(error) => {
                    proof {
                        lemma_xor_packed_stops(*ops, a_bits@, b_bits@, products@, base as int, position + 1, 8);
                        crate::vm::interpreter::lemma_all_of_step(each, e as int);
                        crate::vm::interpreter::lemma_all_of_stops(each, e + 1, count as int);
                    }
                    return Err(error);
                },
            };
            position = position + 1;
        }
        bytes.push(total);
        e = e + 1;
    }
    Ok(bytes)
}

} // verus!
