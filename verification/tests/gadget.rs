use r1cs_gadget::expression::{BooleanExpression, Expression, Term};
use r1cs_gadget::fault::StructuralFault;
use r1cs_gadget::field::Element;
use r1cs_gadget::gadget::Gadget;
use r1cs_gadget::gadget_builder::GadgetBuilder;
use r1cs_gadget::test_util::{assert_eq_false, assert_eq_true, F11, F257, F7};
use r1cs_gadget::wire::Wire;
use r1cs_gadget::wire_values::WireValues;
use r1cs_gadget::witness_generator::{Assignment, Rule, WitnessGenerator};

fn value_of(values: &WireValues<F257>, wire: Wire) -> Option<u64> {
    let element = values.get(wire)?;
    (0..257u64).find(|candidate| element.equals(&Element::from_u64(*candidate)))
}

fn sorted(mut schedule: Vec<usize>) -> Vec<usize> {
    schedule.sort();
    schedule
}

/// x -> a = x * x -> b = a * x -> c = 1 / b, with the generators listed last first.
fn chain() -> (Gadget<F257>, Wire, Wire, Wire, Wire) {
    let (x, a, b, c) = (Wire::new(0), Wire::new(1), Wire::new(2), Wire::new(3));
    let generators = vec![
        WitnessGenerator::single(c, Rule::Inverse(Expression::from_wire(b))),
        WitnessGenerator::single(
            b,
            Rule::Product(Expression::from_wire(a), Expression::from_wire(x)),
        ),
        WitnessGenerator::single(
            a,
            Rule::Product(Expression::from_wire(x), Expression::from_wire(x)),
        ),
    ];
    let gadget = Gadget { constraints: Vec::new(), witness_generators: generators };
    (gadget, x, a, b, c)
}

#[test]
fn constraint_not_satisfied() {
    let mut builder = GadgetBuilder::<F257>::new();
    let (x, y) = (builder.wire(), builder.wire());
    builder.assert_equal(&Expression::from_wire(x), &Expression::from_wire(y));
    let gadget = builder.build();

    let mut values = WireValues::new();
    values.set(x, Element::from_u64(42)).unwrap();
    values.set(y, Element::from_u64(43)).unwrap();
    let constraints_satisfied = gadget.execute(&mut values).unwrap();
    assert!(!constraints_satisfied);
}

#[test]
fn constraint_satisfied() {
    let mut builder = GadgetBuilder::<F257>::new();
    let (x, y) = (builder.wire(), builder.wire());
    builder.assert_equal(&Expression::from_wire(x), &Expression::from_wire(y));
    let gadget = builder.build();

    let mut values = WireValues::new();
    values.set(x, Element::from_u64(5)).unwrap();
    values.set(y, Element::from_u64(5)).unwrap();
    assert_eq!(gadget.execute(&mut values), Ok(true));
    assert_eq!(gadget.size(), 1);
}

#[test]
fn missing_generator() {
    let mut builder = GadgetBuilder::<F257>::new();
    let (x, y, z) = (builder.wire(), builder.wire(), builder.wire());
    builder.assert_product(
        &Expression::from_wire(x),
        &Expression::from_wire(y),
        &Expression::from_wire(z),
    );
    let gadget = builder.build();

    let mut values = WireValues::new();
    values.set(x, Element::from_u64(2)).unwrap();
    values.set(y, Element::from_u64(3)).unwrap();
    assert_eq!(gadget.execute(&mut values), Err(StructuralFault::WireUnassigned));
}

#[test]
fn missing_input() {
    let mut builder = GadgetBuilder::<F257>::new();
    let x = builder.wire();
    builder.inverse(&Expression::from_wire(x));
    let gadget = builder.build();

    let mut values = WireValues::new();
    assert_eq!(gadget.execute(&mut values), Err(StructuralFault::GeneratorNeverReady));
    assert!(!values.contains(x));
}

#[test]
fn missing_input_by_rescan() {
    let mut builder = GadgetBuilder::<F257>::new();
    let x = builder.wire();
    builder.inverse(&Expression::from_wire(x));
    let gadget = builder.build();

    let mut values = WireValues::new();
    assert_eq!(gadget.execute_by_rescan(&mut values), Err(StructuralFault::GeneratorNeverReady));
}

#[test]
fn unassigned_wire_is_a_fault_even_after_a_failed_constraint() {
    let (x, y, z) = (Wire::new(0), Wire::new(1), Wire::new(2));
    let mut builder = GadgetBuilder::<F257>::new();
    builder.assert_equal(&Expression::from_wire(x), &Expression::from_wire(y));
    builder.assert_equal(&Expression::from_wire(x), &Expression::from_wire(z));
    let gadget = builder.build();

    let mut values = WireValues::new();
    values.set(x, Element::from_u64(1)).unwrap();
    values.set(y, Element::from_u64(2)).unwrap();
    assert_eq!(gadget.execute(&mut values), Err(StructuralFault::WireUnassigned));
    assert_eq!(gadget.check_constraints(&values), Err(StructuralFault::WireUnassigned));
}

#[test]
fn inverse_gadget_completes_the_witness() {
    let mut builder = GadgetBuilder::<F257>::new();
    let x = builder.wire();
    let inverse = builder.inverse(&Expression::from_wire(x));
    let gadget = builder.build();

    let mut values = WireValues::new();
    values.set(x, Element::from_u64(2)).unwrap();
    assert_eq!(gadget.execute(&mut values), Ok(true));
    // 2 * 129 = 258 = 1 modulo 257
    assert!(inverse.evaluate(&values).unwrap().equals(&Element::from_u64(129)));
}

#[test]
fn inverse_of_zero_is_zero_and_fails_the_constraint() {
    let mut builder = GadgetBuilder::<F257>::new();
    let x = builder.wire();
    let inverse = builder.inverse(&Expression::from_wire(x));
    let gadget = builder.build();

    let mut values = WireValues::new();
    values.set(x, Element::from_u64(0)).unwrap();
    assert_eq!(gadget.execute(&mut values), Ok(false));
    assert!(inverse.evaluate(&values).unwrap().is_zero());
}

#[test]
fn product_gadget_completes_the_witness() {
    let mut builder = GadgetBuilder::<F257>::new();
    let (x, y) = (builder.wire(), builder.wire());
    let product = builder.product(&Expression::from_wire(x), &Expression::from_wire(y));
    let gadget = builder.build();

    let mut values = WireValues::new();
    values.set(x, Element::from_u64(20)).unwrap();
    values.set(y, Element::from_u64(30)).unwrap();
    assert_eq!(gadget.execute(&mut values), Ok(true));
    // 600 = 2 * 257 + 86
    assert!(product.evaluate(&values).unwrap().equals(&Element::from_u64(86)));
}

#[test]
fn generators_run_once_each_in_dependency_order() {
    let (gadget, x, a, b, c) = chain();
    let mut values = WireValues::new();
    values.set(x, Element::from_u64(3)).unwrap();
    let schedule = gadget.complete_witness(&mut values).unwrap();
    assert_eq!(schedule, vec![2, 1, 0]);
    assert_eq!(value_of(&values, a), Some(9));
    assert_eq!(value_of(&values, b), Some(27));
    // 27 * 238 = 6426 = 25 * 257 + 1
    assert_eq!(value_of(&values, c), Some(238));
}

#[test]
fn schedulers_agree_on_the_witness() {
    let (gadget, x, a, b, c) = chain();
    let mut by_events = WireValues::new();
    by_events.set(x, Element::from_u64(3)).unwrap();
    let mut by_rescan = WireValues::new();
    by_rescan.set(x, Element::from_u64(3)).unwrap();

    let first = gadget.complete_witness(&mut by_events).unwrap();
    let second = gadget.complete_witness_by_rescan(&mut by_rescan).unwrap();
    assert_eq!(sorted(first), vec![0, 1, 2]);
    assert_eq!(sorted(second), vec![0, 1, 2]);
    for wire in [x, a, b, c] {
        assert_eq!(value_of(&by_events, wire), value_of(&by_rescan, wire));
        assert!(value_of(&by_events, wire).is_some());
    }
}

#[test]
fn schedulers_agree_on_the_verdict() {
    let mut builder = GadgetBuilder::<F257>::new();
    let (x, y) = (builder.wire(), builder.wire());
    let product = builder.product(&Expression::from_wire(x), &Expression::from_wire(y));
    builder.assert_equal(&product, &Expression::constant(Element::from_u64(6)));
    let gadget = builder.build();

    for (x_value, y_value, expected) in [(2, 3, true), (2, 4, false)] {
        let mut by_events = WireValues::new();
        by_events.set(x, Element::from_u64(x_value)).unwrap();
        by_events.set(y, Element::from_u64(y_value)).unwrap();
        let mut by_rescan = WireValues::new();
        by_rescan.set(x, Element::from_u64(x_value)).unwrap();
        by_rescan.set(y, Element::from_u64(y_value)).unwrap();
        assert_eq!(gadget.execute(&mut by_events), Ok(expected));
        assert_eq!(gadget.execute_by_rescan(&mut by_rescan), Ok(expected));
    }
}

#[test]
fn execution_is_deterministic() {
    let (gadget, x, a, b, c) = chain();
    let mut first = WireValues::new();
    first.set(x, Element::from_u64(7)).unwrap();
    let mut second = WireValues::new();
    second.set(x, Element::from_u64(7)).unwrap();
    assert_eq!(gadget.execute(&mut first), gadget.execute(&mut second));
    for wire in [x, a, b, c] {
        assert_eq!(value_of(&first, wire), value_of(&second, wire));
    }
    assert_eq!(value_of(&first, a), Some(49));
    // 343 = 257 + 86
    assert_eq!(value_of(&first, b), Some(86));
}

#[test]
fn generator_with_an_input_listed_twice_runs() {
    let (x, y) = (Wire::new(0), Wire::new(1));
    let square = WitnessGenerator::single(
        y,
        Rule::Product(Expression::from_wire(x), Expression::from_wire(x)),
    );
    assert_eq!(square.inputs(), vec![x, x]);
    assert_eq!(square.outputs(), vec![y]);
    let source = WitnessGenerator::single(x, Rule::Value(Expression::constant(Element::from_u64(16))));
    let gadget = Gadget::<F257> { constraints: Vec::new(), witness_generators: vec![square, source] };
    let mut values = WireValues::new();
    assert_eq!(gadget.complete_witness(&mut values), Ok(vec![1, 0]));
    assert_eq!(value_of(&values, y), Some(256));
}

#[test]
fn generator_with_several_outputs() {
    let (x, y, z) = (Wire::new(0), Wire::new(1), Wire::new(2));
    let generator = WitnessGenerator::new(vec![
        Assignment { wire: y, rule: Rule::Value(Expression::from_wire(x)) },
        Assignment { wire: z, rule: Rule::Inverse(Expression::from_wire(x)) },
    ]);
    let mut values = WireValues::<F257>::new();
    assert_eq!(generator.generate(&mut values), Err(StructuralFault::WireUnassigned));
    assert!(!values.contains(y));
    values.set(x, Element::from_u64(256)).unwrap();
    assert_eq!(generator.generate(&mut values), Ok(()));
    assert_eq!(value_of(&values, y), Some(256));
    // 256 = -1 is its own inverse
    assert_eq!(value_of(&values, z), Some(256));
    assert_eq!(generator.generate(&mut values), Err(StructuralFault::WireAlreadyAssigned));
}

#[test]
fn two_producers_of_one_wire_collide() {
    let x = Wire::new(0);
    let one = WitnessGenerator::single(x, Rule::Value(Expression::one()));
    let zero = WitnessGenerator::single(x, Rule::Value(Expression::zero()));
    let gadget = Gadget::<F257> { constraints: Vec::new(), witness_generators: vec![one, zero] };
    let mut values = WireValues::new();
    assert_eq!(gadget.execute(&mut values), Err(StructuralFault::WireAlreadyAssigned));
    let mut values = WireValues::new();
    assert_eq!(gadget.execute_by_rescan(&mut values), Err(StructuralFault::WireAlreadyAssigned));
}

#[test]
fn producer_of_a_given_wire_collides() {
    let x = Wire::new(0);
    let one = WitnessGenerator::single(x, Rule::Value(Expression::one()));
    let gadget = Gadget::<F257> { constraints: Vec::new(), witness_generators: vec![one] };
    let mut values = WireValues::new();
    values.set(x, Element::from_u64(1)).unwrap();
    assert_eq!(gadget.execute(&mut values), Err(StructuralFault::WireAlreadyAssigned));
}

#[test]
fn dependency_cycle_never_becomes_ready() {
    let (x, y) = (Wire::new(0), Wire::new(1));
    let forth = WitnessGenerator::single(y, Rule::Value(Expression::from_wire(x)));
    let back = WitnessGenerator::single(x, Rule::Value(Expression::from_wire(y)));
    let gadget = Gadget::<F257> { constraints: Vec::new(), witness_generators: vec![forth, back] };
    let mut values = WireValues::new();
    assert_eq!(
        gadget.complete_witness(&mut values),
        Err(StructuralFault::GeneratorNeverReady)
    );
    let mut values = WireValues::new();
    assert_eq!(
        gadget.complete_witness_by_rescan(&mut values),
        Err(StructuralFault::GeneratorNeverReady)
    );
}

#[test]
fn empty_gadget_is_satisfied() {
    let gadget = Gadget::<F7> { constraints: Vec::new(), witness_generators: Vec::new() };
    let mut values = WireValues::new();
    assert_eq!(gadget.size(), 0);
    assert_eq!(gadget.execute(&mut values), Ok(true));
    assert_eq!(gadget.complete_witness(&mut values), Ok(Vec::new()));
}

#[test]
fn set_fails_on_a_wire_that_has_a_value() {
    let wire = Wire::new(9);
    let mut values = WireValues::<F11>::new();
    assert_eq!(values.set(wire, Element::from_u64(4)), Ok(()));
    assert_eq!(values.set(wire, Element::from_u64(4)), Err(StructuralFault::WireAlreadyAssigned));
    assert_eq!(values.set(wire, Element::from_u64(5)), Err(StructuralFault::WireAlreadyAssigned));
    assert!(values.get(wire).unwrap().equals(&Element::from_u64(4)));
}

#[test]
fn contains_all_is_exact() {
    let (x, y, z) = (Wire::new(0), Wire::new(1), Wire::new(2));
    let mut values = WireValues::<F11>::new();
    assert!(values.contains_all(&[]));
    assert!(!values.contains_all(&[x]));
    values.set(x, Element::zero()).unwrap();
    values.set(y, Element::one()).unwrap();
    assert!(values.contains_all(&[x, y, x]));
    assert!(!values.contains_all(&[x, y, z]));
    assert!(values.get(z).is_none());
}

#[test]
fn expression_evaluates_to_its_weighted_sum() {
    let (x, y) = (Wire::new(0), Wire::new(1));
    let expression = Expression::<F11>::new(
        Element::from_u64(3),
        vec![
            Term { wire: x, coefficient: Element::from_u64(2) },
            Term { wire: y, coefficient: Element::from_u64(5) },
        ],
    );
    assert_eq!(expression.dependencies(), vec![x, y]);
    let mut values = WireValues::new();
    values.set(x, Element::from_u64(4)).unwrap();
    assert!(expression.evaluate(&values).is_none());
    values.set(y, Element::from_u64(6)).unwrap();
    // 3 + 2 * 4 + 5 * 6 = 41 = 3 * 11 + 8
    assert!(expression.evaluate(&values).unwrap().equals(&Element::from_u64(8)));
    assert!(expression.clone().evaluate(&values).unwrap().equals(&Element::from_u64(8)));
}

#[test]
fn boolean_expressions() {
    let x = Wire::new(0);
    let boolean = BooleanExpression::<F7>::new(Expression::from_wire(x));
    let mut values = WireValues::new();
    assert_eq!(boolean.evaluate(&values), None);
    values.set(x, Element::from_u64(8)).unwrap();
    assert_eq!(boolean.evaluate(&values), Some(true));
    assert_eq_true(&boolean, &values);
    assert_eq_false(&BooleanExpression::new(Expression::zero()), &values);
    assert_eq_true(&BooleanExpression::new(Expression::one()), &values);

    let mut values = WireValues::new();
    values.set(x, Element::from_u64(2)).unwrap();
    assert_eq!(boolean.evaluate(&values), None);
}
