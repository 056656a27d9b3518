use achan::Value;
use std::cmp::Ordering;

fn num(x: f64) -> Value {
    Value::number(x.to_bits())
}

fn s(x: &str) -> Value {
    Value::string(x.to_string())
}

#[test]
fn variants_order_by_kind() {
    let vs = [
        Value::null(),
        Value::boolean(true),
        num(-1.0),
        s(""),
        Value::list(Vec::new()),
        Value::map(Vec::new()),
    ];
    for i in 0..vs.len() {
        for j in 0..vs.len() {
            assert_eq!(vs[i].partial_cmp(&vs[j]), Some(i.cmp(&j)), "{} {}", i, j);
        }
    }
}

#[test]
fn numbers_order_as_doubles() {
    assert!(num(-2.0) < num(-1.0));
    assert!(num(-1.0) < num(0.0));
    assert!(num(0.5) < num(3.0));
    assert_eq!(num(0.0).partial_cmp(&num(-0.0)), Some(Ordering::Equal));
    assert_eq!(num(f64::NAN).partial_cmp(&num(1.0)), None);
    assert_eq!(num(1.0).partial_cmp(&num(f64::NAN)), None);
    assert!(num(f64::NEG_INFINITY) < num(f64::MIN));
    assert!(num(f64::MAX) < num(f64::INFINITY));
}

#[test]
fn booleans_and_strings_order() {
    assert!(Value::boolean(false) < Value::boolean(true));
    assert!(s("a") < s("b"));
    assert!(s("a") < s("ab"));
    assert!(s("Z") < s("a"));
    assert_eq!(s("x").partial_cmp(&s("x")), Some(Ordering::Equal));
}

#[test]
fn lists_order_lexicographically() {
    let a = Value::list(vec![num(1.0), num(2.0)]);
    let b = Value::list(vec![num(1.0), num(3.0)]);
    let c = Value::list(vec![num(1.0)]);
    assert!(a < b);
    assert!(c < a);
    assert_eq!(a.partial_cmp(&Value::list(vec![num(1.0), num(2.0)])), Some(Ordering::Equal));
    let n = Value::list(vec![num(f64::NAN)]);
    assert_eq!(n.partial_cmp(&Value::list(vec![num(0.0)])), None);
    assert_eq!(Value::list(vec![num(0.0), num(f64::NAN)]).partial_cmp(&Value::list(vec![num(1.0)])), Some(Ordering::Less));
}

#[test]
fn maps_order_by_entries() {
    let m = |items: Vec<(&str, Value)>| Value::map(items.into_iter().map(|(k, v)| (k.to_string(), v)).collect());
    assert!(m(vec![("a", num(1.0))]) < m(vec![("b", num(0.0))]));
    assert!(m(vec![("a", num(1.0))]) < m(vec![("a", num(2.0))]));
    assert!(m(vec![("a", num(1.0))]) < m(vec![("a", num(1.0)), ("b", Value::null())]));
    assert_eq!(
        m(vec![("b", Value::null()), ("a", num(1.0))]).partial_cmp(&m(vec![("a", num(1.0)), ("b", Value::null())])),
        Some(Ordering::Equal)
    );
}
