use tightbeam_ext::vm::builder::ProgramBuilder;
use tightbeam_ext::vm::circuits::AES_SBOX;
use tightbeam_ext::vm::lookup::sbox_leaf_pairs;
use tightbeam_ext::vm::isa::FixedPrecision;
use tightbeam_ext::vm::party::{engine_plan, participating_clients};

#[test]
fn clients_are_listed_once_in_order_of_first_mention() {
    let mut builder = ProgramBuilder::default();
    let x = builder.input(7, 1);
    let y = builder.input(3, 1);
    let s = builder.add(x, y);
    builder.output(3, s);
    let valid = builder.build().expect("the program validates");
    assert_eq!(participating_clients(&valid), vec![7, 3]);
}

#[test]
fn a_receiver_that_provides_nothing_comes_last() {
    let mut builder = ProgramBuilder::default();
    let x = builder.input(7, 1);
    let y = builder.input(3, 1);
    let s = builder.add(x, y);
    builder.output(9, s);
    let valid = builder.build().expect("the program validates");
    assert_eq!(participating_clients(&valid), vec![7, 3, 9]);
}

#[test]
fn the_leaf_row_is_the_table_shifted_by_delta() {
    let delta = 0x5a;
    let pairs = sbox_leaf_pairs(delta);
    assert_eq!(pairs.len(), 128);
    for (index, (left, right)) in pairs.iter().enumerate() {
        let k = (index * 2) as u8;
        assert_eq!(*left, AES_SBOX[usize::from(delta ^ k)]);
        assert_eq!(*right, AES_SBOX[usize::from(delta ^ (k + 1))]);
    }
    assert_eq!(sbox_leaf_pairs(0)[0], (0x63, 0x7c));
}

#[test]
fn an_engine_plan_takes_at_least_one_triple_and_the_integer_width() {
    let mut builder = ProgramBuilder::default();
    let x = builder.input(100, 1);
    builder.output(100, x);
    let plain = builder.build().expect("the program validates");
    let plan = engine_plan(&plain);
    assert_eq!(plan.triples, 1);
    assert_eq!(plan.riss_bits, 0);
    assert_eq!(plan.instance_id, plain.digest().instance_id());

    let precision = FixedPrecision { k: 16, f: 4 };
    let mut builder = ProgramBuilder::default();
    let x = builder.input(100, 1);
    let y = builder.input(101, 1);
    let product = builder.fp_mul(x, y, precision);
    builder.output(100, product);
    let fixed = builder.build().expect("the program validates");
    let plan = engine_plan(&fixed);
    assert_eq!(plan.riss_bits, 12);
    assert_eq!(plan.triples, fixed.budget().triples.max(1));
    assert_eq!(plan.prandbits, fixed.budget().prandbits);
}
