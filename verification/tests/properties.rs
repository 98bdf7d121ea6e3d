use exhaustive::enumerate::materialize;
use exhaustive::shape::{Shape, cardinality, is_uninhabited};
use exhaustive::value::Value;

fn bool_shape() -> Shape {
    Shape::Sum(vec![Shape::Singleton, Shape::Singleton])
}

fn fls() -> Value {
    Value::Tagged(0, Box::new(Value::Unit))
}

fn tru() -> Value {
    Value::Tagged(1, Box::new(Value::Unit))
}

fn all_of(s: &Shape) -> Vec<Value> {
    materialize(s).expect("cardinality fits")
}

#[test]
fn cardinality_matches_length() {
    let shapes = vec![
        Shape::Empty,
        Shape::Singleton,
        bool_shape(),
        Shape::Product(vec![bool_shape(), bool_shape(), Shape::Singleton]),
        Shape::Sum(vec![bool_shape(), Shape::Empty, Shape::Singleton]),
        Shape::Repeat(Box::new(bool_shape()), 3),
        Shape::Product(vec![Shape::Empty, bool_shape()]),
    ];
    for s in &shapes {
        let n = cardinality(s).expect("small shape");
        assert_eq!(all_of(s).len(), n);
    }
}

#[test]
fn elements_pairwise_distinct() {
    let s = Shape::Sum(vec![
        Shape::Product(vec![bool_shape(), bool_shape()]),
        bool_shape(),
        Shape::Repeat(Box::new(bool_shape()), 2),
    ]);
    let vals = all_of(&s);
    for i in 0..vals.len() {
        for j in 0..vals.len() {
            if i != j {
                assert_ne!(vals[i], vals[j]);
            }
        }
    }
}

#[test]
fn every_inhabitant_appears() {
    // All four values of (bool, bool) show up exactly once.
    let s = Shape::Product(vec![bool_shape(), bool_shape()]);
    let vals = all_of(&s);
    let expected = vec![
        Value::Record(vec![fls(), fls()]),
        Value::Record(vec![fls(), tru()]),
        Value::Record(vec![tru(), fls()]),
        Value::Record(vec![tru(), tru()]),
    ];
    for e in &expected {
        assert_eq!(vals.iter().filter(|v| *v == e).count(), 1);
    }
    assert_eq!(vals.len(), expected.len());
}

#[test]
fn mixed_radix_order() {
    // (bool, bool): the last component toggles every step, the first
    // every two steps.
    let s = Shape::Product(vec![bool_shape(), bool_shape()]);
    assert_eq!(
        all_of(&s),
        vec![
            Value::Record(vec![fls(), fls()]),
            Value::Record(vec![fls(), tru()]),
            Value::Record(vec![tru(), fls()]),
            Value::Record(vec![tru(), tru()]),
        ]
    );
}

#[test]
fn sum_ordering_blocks() {
    // Alternatives with cardinalities 2, 1, 3: first the two values of
    // the first alternative, then the one value of the second, then the
    // three values of the third, each block in its own order.
    let three = Shape::Sum(vec![Shape::Singleton, Shape::Singleton, Shape::Singleton]);
    let s = Shape::Sum(vec![bool_shape(), Shape::Singleton, three]);
    let vals = all_of(&s);
    assert_eq!(
        vals,
        vec![
            Value::Tagged(0, Box::new(fls())),
            Value::Tagged(0, Box::new(tru())),
            Value::Tagged(1, Box::new(Value::Unit)),
            Value::Tagged(2, Box::new(Value::Tagged(0, Box::new(Value::Unit)))),
            Value::Tagged(2, Box::new(Value::Tagged(1, Box::new(Value::Unit)))),
            Value::Tagged(2, Box::new(Value::Tagged(2, Box::new(Value::Unit)))),
        ]
    );
}

#[test]
fn repeat_matches_product() {
    // Repeat(bool, 3) gives the same eight combinations, in the same
    // order, as a product of three bools.
    let rep = Shape::Repeat(Box::new(bool_shape()), 3);
    let prod = Shape::Product(vec![bool_shape(), bool_shape(), bool_shape()]);
    let rep_vals = all_of(&rep);
    let prod_vals = all_of(&prod);
    assert_eq!(rep_vals.len(), 8);
    assert_eq!(rep_vals, prod_vals);
    assert_eq!(rep_vals[0], Value::Record(vec![fls(), fls(), fls()]));
    assert_eq!(rep_vals[1], Value::Record(vec![fls(), fls(), tru()]));
    assert_eq!(rep_vals[7], Value::Record(vec![tru(), tru(), tru()]));
}

#[test]
fn uninhabited_product_empty() {
    // A product with one uninhabited component has no values, however
    // large the other components are.
    let s = Shape::Product(vec![bool_shape(), Shape::Empty, bool_shape()]);
    assert!(is_uninhabited(&s));
    assert_eq!(cardinality(&s), Some(0));
    assert_eq!(all_of(&s), Vec::<Value>::new());
}

#[test]
fn uninhabited_sum_empty() {
    let s = Shape::Sum(vec![Shape::Empty, Shape::Empty]);
    assert!(is_uninhabited(&s));
    assert_eq!(cardinality(&s), Some(0));
    assert_eq!(all_of(&s), Vec::<Value>::new());
}

#[test]
fn materialize_twice_equal() {
    // The enumeration is a pure function of the shape: equal shape
    // descriptions materialize element for element equal sequences.
    let make = || {
        Shape::Sum(vec![
            Shape::Product(vec![bool_shape(), Shape::Singleton]),
            Shape::Repeat(Box::new(bool_shape()), 2),
        ])
    };
    let a = all_of(&make());
    let b = all_of(&make());
    assert_eq!(a.len(), b.len());
    for i in 0..a.len() {
        assert_eq!(a[i], b[i]);
    }
}

#[test]
fn record_end_to_end() {
    // A record { a: (), b: bool, c: bool } has four values, the last
    // field varying fastest.
    let s = Shape::Product(vec![Shape::Singleton, bool_shape(), bool_shape()]);
    assert_eq!(cardinality(&s), Some(4));
    assert_eq!(
        all_of(&s),
        vec![
            Value::Record(vec![Value::Unit, fls(), fls()]),
            Value::Record(vec![Value::Unit, fls(), tru()]),
            Value::Record(vec![Value::Unit, tru(), fls()]),
            Value::Record(vec![Value::Unit, tru(), tru()]),
        ]
    );
}

#[test]
fn cardinality_overflow_detected() {
    // 2^200 does not fit in usize: reported before any value is built.
    let s = Shape::Repeat(Box::new(bool_shape()), 200);
    assert_eq!(cardinality(&s), None);
    assert_eq!(materialize(&s), None);
}

#[test]
fn cardinality_overflow_beaten_by_zero() {
    // The same huge component next to an uninhabited one: the product
    // is empty, so nothing overflows.
    let huge = Shape::Repeat(Box::new(bool_shape()), 200);
    let s = Shape::Product(vec![huge, Shape::Empty]);
    assert_eq!(cardinality(&s), Some(0));
    assert_eq!(all_of(&s), Vec::<Value>::new());
}

#[test]
fn cardinality_large_fits() {
    let s = Shape::Repeat(Box::new(bool_shape()), 20);
    assert_eq!(cardinality(&s), Some(1 << 20));
}

#[test]
fn repeat_zero_components() {
    // A zero-length array has exactly one value: the empty record.
    let s = Shape::Repeat(Box::new(Shape::Empty), 0);
    assert_eq!(cardinality(&s), Some(1));
    assert_eq!(all_of(&s), vec![Value::Record(vec![])]);
}

#[test]
fn empty_sum_has_no_values() {
    let s = Shape::Sum(vec![]);
    assert_eq!(cardinality(&s), Some(0));
    assert!(is_uninhabited(&s));
    assert_eq!(all_of(&s), Vec::<Value>::new());
}
