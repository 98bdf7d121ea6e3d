use exhaustive::enumerate::materialize;
use exhaustive::shape::{Shape, cardinality};
use exhaustive::value::Value;

fn bool_shape() -> Shape {
    Shape::Sum(vec![Shape::Singleton, Shape::Singleton])
}

fn fls() -> Value {
    Value::Tagged(0, Box::new(Value::Unit))
}

fn tru() -> Value {
    Value::Tagged(1, Box::new(Value::Unit))
}

fn all_of(s: &Shape) -> Vec<Value> {
    materialize(s).expect("cardinality fits")
}

#[test]
fn unit() {
    assert_eq!(all_of(&Shape::Singleton), vec![Value::Unit]);
}

#[test]
fn uninhabited() {
    assert_eq!(all_of(&Shape::Empty), Vec::<Value>::new());
}

#[test]
fn bools() {
    assert_eq!(all_of(&bool_shape()), vec![fls(), tru()]);
}

#[test]
fn options() {
    // Option<bool>: None, then Some of each bool value.
    let s = Shape::Sum(vec![Shape::Singleton, bool_shape()]);
    assert_eq!(
        all_of(&s),
        vec![
            Value::Tagged(0, Box::new(Value::Unit)),
            Value::Tagged(1, Box::new(fls())),
            Value::Tagged(1, Box::new(tru())),
        ]
    );
}

#[test]
fn results() {
    // Result<bool, bool>: all Ok values, then all Err values.
    let s = Shape::Sum(vec![bool_shape(), bool_shape()]);
    assert_eq!(
        all_of(&s),
        vec![
            Value::Tagged(0, Box::new(fls())),
            Value::Tagged(0, Box::new(tru())),
            Value::Tagged(1, Box::new(fls())),
            Value::Tagged(1, Box::new(tru())),
        ]
    );
}

#[test]
fn arrays() {
    // [bool; 2]: same ordering as a pair of bools.
    let s = Shape::Repeat(Box::new(bool_shape()), 2);
    assert_eq!(
        all_of(&s),
        vec![
            Value::Record(vec![fls(), fls()]),
            Value::Record(vec![fls(), tru()]),
            Value::Record(vec![tru(), fls()]),
            Value::Record(vec![tru(), tru()]),
        ]
    );
}

#[test]
fn tuples() {
    // (bool, bool): the second component varies fastest.
    let s = Shape::Product(vec![bool_shape(), bool_shape()]);
    assert_eq!(
        all_of(&s),
        vec![
            Value::Record(vec![fls(), fls()]),
            Value::Record(vec![fls(), tru()]),
            Value::Record(vec![tru(), fls()]),
            Value::Record(vec![tru(), tru()]),
        ]
    );
}

#[test]
fn unit_struct() {
    // A struct with no fields has exactly one value: the empty record.
    let s = Shape::Product(vec![]);
    assert_eq!(all_of(&s), vec![Value::Record(vec![])]);
}

#[test]
fn tuple_struct_unit_single() {
    let s = Shape::Product(vec![Shape::Singleton]);
    assert_eq!(all_of(&s), vec![Value::Record(vec![Value::Unit])]);
}

#[test]
fn tuple_struct_unit_many() {
    let s = Shape::Product(vec![Shape::Singleton, Shape::Singleton, Shape::Singleton]);
    assert_eq!(
        all_of(&s),
        vec![Value::Record(vec![Value::Unit, Value::Unit, Value::Unit])]
    );
}

#[test]
fn tuple_struct_bool_single() {
    let s = Shape::Product(vec![bool_shape()]);
    assert_eq!(
        all_of(&s),
        vec![Value::Record(vec![fls()]), Value::Record(vec![tru()])]
    );
}

#[test]
fn tuple_struct_bool_many() {
    let s = Shape::Product(vec![bool_shape(), bool_shape()]);
    assert_eq!(all_of(&s).len(), 4);
    assert_eq!(all_of(&s)[0], Value::Record(vec![fls(), fls()]));
    assert_eq!(all_of(&s)[3], Value::Record(vec![tru(), tru()]));
}

#[test]
fn named_field_struct_empty() {
    let s = Shape::Product(vec![]);
    assert_eq!(cardinality(&s), Some(1));
    assert_eq!(all_of(&s).len(), 1);
}

#[test]
fn named_field_struct_small() {
    let s = Shape::Product(vec![bool_shape()]);
    assert_eq!(cardinality(&s), Some(2));
    assert_eq!(all_of(&s).len(), 2);
}

#[test]
fn named_field_struct_large() {
    let s = Shape::Product(vec![bool_shape(), bool_shape(), bool_shape(), bool_shape()]);
    assert_eq!(cardinality(&s), Some(16));
    let vals = all_of(&s);
    assert_eq!(vals.len(), 16);
    assert_eq!(vals[0], Value::Record(vec![fls(), fls(), fls(), fls()]));
    assert_eq!(vals[15], Value::Record(vec![tru(), tru(), tru(), tru()]));
}

#[test]
fn enum_unit() {
    // enum { A, B }: one value per variant, in declaration order.
    let s = Shape::Sum(vec![Shape::Singleton, Shape::Singleton]);
    let vals = all_of(&s);
    assert_eq!(vals.len(), 2);
    assert_eq!(
        vals,
        vec![
            Value::Tagged(0, Box::new(Value::Unit)),
            Value::Tagged(1, Box::new(Value::Unit)),
        ]
    );
}

#[test]
fn tuple_variants() {
    // enum { A(bool), B(bool, bool) }.
    let s = Shape::Sum(vec![
        Shape::Product(vec![bool_shape()]),
        Shape::Product(vec![bool_shape(), bool_shape()]),
    ]);
    let vals = all_of(&s);
    assert_eq!(vals.len(), 6);
    assert_eq!(vals[0], Value::Tagged(0, Box::new(Value::Record(vec![fls()]))));
    assert_eq!(vals[1], Value::Tagged(0, Box::new(Value::Record(vec![tru()]))));
    assert_eq!(
        vals[2],
        Value::Tagged(1, Box::new(Value::Record(vec![fls(), fls()])))
    );
    assert_eq!(
        vals[5],
        Value::Tagged(1, Box::new(Value::Record(vec![tru(), tru()])))
    );
}

#[test]
fn fielded_variants() {
    // enum { A { x: bool }, B { y: (), z: bool } }.
    let s = Shape::Sum(vec![
        Shape::Product(vec![bool_shape()]),
        Shape::Product(vec![Shape::Singleton, bool_shape()]),
    ]);
    let vals = all_of(&s);
    assert_eq!(vals.len(), 4);
    assert_eq!(vals[0], Value::Tagged(0, Box::new(Value::Record(vec![fls()]))));
    assert_eq!(
        vals[2],
        Value::Tagged(1, Box::new(Value::Record(vec![Value::Unit, fls()])))
    );
}

#[test]
fn variant_mix() {
    // enum { A, B(bool), C }: A, B(false), B(true), C.
    let s = Shape::Sum(vec![
        Shape::Singleton,
        Shape::Product(vec![bool_shape()]),
        Shape::Singleton,
    ]);
    let vals = all_of(&s);
    assert_eq!(
        vals,
        vec![
            Value::Tagged(0, Box::new(Value::Unit)),
            Value::Tagged(1, Box::new(Value::Record(vec![fls()]))),
            Value::Tagged(1, Box::new(Value::Record(vec![tru()]))),
            Value::Tagged(2, Box::new(Value::Unit)),
        ]
    );
}

#[test]
fn compound() {
    // Option<(bool, bool)> built out of already-enumerable parts.
    let pair = Shape::Product(vec![bool_shape(), bool_shape()]);
    let s = Shape::Sum(vec![Shape::Singleton, pair]);
    let vals = all_of(&s);
    assert_eq!(vals.len(), 5);
    assert_eq!(vals[0], Value::Tagged(0, Box::new(Value::Unit)));
    assert_eq!(
        vals[1],
        Value::Tagged(1, Box::new(Value::Record(vec![fls(), fls()])))
    );
    assert_eq!(
        vals[4],
        Value::Tagged(1, Box::new(Value::Record(vec![tru(), tru()])))
    );
}
