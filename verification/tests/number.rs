use recoded::nodes::constant_value::{
    ConstantValue, ConstantValueNode, PHI_BITS, PI_BITS, RHO_BITS, TAU_BITS,
};
use recoded::nodes::model::{DEFAULT_HEIGHT_BITS, DEFAULT_WIDTH_BITS};
use recoded::number::Number;

fn same_as_cast(v: usize) {
    assert_eq!((v as f64).to_bits(), Number::from_int(v).to_bits(), "for {}", v);
}

#[test]
fn small_integers_convert_exactly() {
    for v in 0..5000usize {
        same_as_cast(v);
    }
    assert_eq!(0, Number::from_int(0).to_bits());
    assert_eq!(1.0f64.to_bits(), Number::from_int(1).to_bits());
    assert_eq!(0x4000000000000000, Number::from_int(2).to_bits());
    assert_eq!(0x4008000000000000, Number::from_int(3).to_bits());
    assert_eq!(400.0f64.to_bits(), Number::from_int(400).to_bits());
}

#[test]
fn powers_of_two_and_their_neighbours_convert_as_a_cast_does() {
    let mut p: usize = 1;
    for _ in 0..(usize::BITS - 1) {
        same_as_cast(p);
        same_as_cast(p - 1);
        same_as_cast(p + 1);
        same_as_cast(p + p / 2);
        p *= 2;
    }
    same_as_cast(p);
    same_as_cast(p - 1);
    same_as_cast(p + 1);
    same_as_cast(usize::MAX);
    same_as_cast(usize::MAX - 1);
}

#[test]
fn large_integers_round_to_nearest_with_ties_to_even() {
    let base: u64 = 1 << 53;
    // exactly representable
    assert_eq!((base as f64).to_bits(), Number::from_int(base as usize).to_bits());
    // a tie between 2^53 and 2^53 + 2 goes to the even significand, 2^53
    assert_eq!((base as f64).to_bits(), Number::from_int((base + 1) as usize).to_bits());
    assert_eq!(((base + 2) as f64).to_bits(), Number::from_int((base + 2) as usize).to_bits());
    // a tie between 2^53 + 2 and 2^53 + 4 goes to 2^53 + 4
    assert_eq!(((base + 4) as f64).to_bits(), Number::from_int((base + 3) as usize).to_bits());
    for k in 0..4096u64 {
        same_as_cast((base + k) as usize);
        same_as_cast(((1u64 << 60) + k * 3) as usize);
        same_as_cast(((1u64 << 63) + k * 257) as usize);
        same_as_cast((u64::MAX - k * 511) as usize);
    }
}

#[test]
fn scattered_integers_convert_as_a_cast_does() {
    let mut x: u64 = 0x9E3779B97F4A7C15;
    for _ in 0..20000 {
        x ^= x << 13;
        x ^= x >> 7;
        x ^= x << 17;
        same_as_cast(x as usize);
        same_as_cast((x >> 11) as usize);
        same_as_cast((x >> 31) as usize);
    }
}

#[test]
fn rounding_up_can_carry_into_the_exponent() {
    let v: u64 = (1u64 << 54) - 1;
    assert_eq!(((1u64 << 54) as f64).to_bits(), Number::from_int(v as usize).to_bits());
    assert_eq!(18446744073709551616.0f64.to_bits(), Number::from_int(usize::MAX).to_bits());
}

#[test]
fn bits_go_in_and_out_unchanged() {
    let n = Number::from_bits(0x4079000000000000);
    assert_eq!(400.0, f64::from_bits(n.to_bits()));
    assert_eq!(0, Number::default().to_bits());
    assert_eq!(Number::from_bits(5), Number { bits: 5 });
    assert_ne!(Number::from_bits(5), Number::from_bits(6));
}

#[test]
fn constants_are_the_doubles_they_stand_for() {
    assert_eq!(std::f64::consts::PI.to_bits(), PI_BITS);
    assert_eq!(std::f64::consts::TAU.to_bits(), TAU_BITS);
    assert_eq!(((1.0 + 5.0_f64.sqrt()) / 2.0).to_bits(), PHI_BITS);
    assert_eq!((std::f64::consts::PI * (3.0 - 5.0_f64.sqrt())).to_bits(), RHO_BITS);
    assert_eq!(400.0f64.to_bits(), DEFAULT_WIDTH_BITS);
    assert_eq!(300.0f64.to_bits(), DEFAULT_HEIGHT_BITS);
    assert_eq!(PI_BITS, ConstantValue::Pi.value().to_bits());
    assert_eq!(TAU_BITS, ConstantValue::Tau.value().to_bits());
    assert_eq!(PHI_BITS, ConstantValue::Phi.value().to_bits());
    assert_eq!(RHO_BITS, ConstantValue::Rho.value().to_bits());
    assert_eq!(0, ConstantValue::Custom.value().to_bits());
}

#[test]
fn a_constant_node_offers_its_constant_or_its_own_number() {
    let mut node = ConstantValueNode::default();
    assert_eq!(ConstantValue::Pi, node.selected());
    assert_eq!(PI_BITS, node.number_out().to_bits());
    node.set_overwrite(Number::from_bits(2.5f64.to_bits()));
    assert_eq!(PI_BITS, node.number_out().to_bits());
    node.select(ConstantValue::Custom);
    assert_eq!(2.5, f64::from_bits(node.number_out().to_bits()));
    node.select(ConstantValue::Tau);
    assert_eq!(TAU_BITS, node.number_out().to_bits());
    let node = ConstantValueNode::new(ConstantValue::Custom, Number::from_bits(7));
    assert_eq!(7, node.number_out().to_bits());
}
