use achan::{Value, ValueTable, ValueTy};

fn num(x: f64) -> Value {
    Value::number(x.to_bits())
}

fn text(v: &Value) -> String {
    v.render_with(|b: u64| f64::from_bits(b).to_string())
}

fn pairs(items: &[(&str, Value)]) -> Vec<(String, Value)> {
    items.iter().map(|(k, v)| (k.to_string(), v.duplicate())).collect()
}

#[test]
fn duplicate_keys_collapse_to_last() {
    let m = Value::map(pairs(&[("a", num(1.0)), ("a", num(2.0))]));
    let es = m.as_map().unwrap();
    assert_eq!(es.len(), 1);
    assert_eq!(es[0].0, "a");
    assert!(es[0].1 == num(2.0));
}

#[test]
fn map_keys_come_out_sorted() {
    let m = Value::map(pairs(&[
        ("zeta", Value::null()),
        ("alpha", Value::boolean(false)),
        ("mid", num(3.0)),
        ("Beta", Value::boolean(true)),
    ]));
    let keys: Vec<&str> = m.as_map().unwrap().iter().map(|(k, _)| k.as_str()).collect();
    assert_eq!(keys, vec!["Beta", "alpha", "mid", "zeta"]);
    assert_eq!(text(&m), r#"{"Beta":true,"alpha":false,"mid":"3","zeta":null,}"#);
}

#[test]
fn map_key_order_is_by_code_point() {
    let m = Value::map(pairs(&[("b", num(1.0)), ("ab", num(2.0)), ("a", num(3.0)), ("é", num(4.0))]));
    let keys: Vec<&str> = m.as_map().unwrap().iter().map(|(k, _)| k.as_str()).collect();
    assert_eq!(keys, vec!["a", "ab", "b", "é"]);
}

#[test]
fn empty_map_and_list() {
    assert_eq!(text(&Value::map(Vec::new())), "{}");
    assert_eq!(text(&Value::list(Vec::new())), "[]");
}

#[test]
fn render_number_is_quoted() {
    assert_eq!(text(&num(1.0)), "\"1\"");
    assert_eq!(text(&num(3.14)), "\"3.14\"");
}

#[test]
fn render_list_has_trailing_comma() {
    let l = Value::list(vec![num(1.0), num(2.0)]);
    assert_eq!(text(&l), r#"["1","2",]"#);
}

#[test]
fn render_map_has_trailing_comma() {
    let m = Value::map(pairs(&[("a", Value::boolean(true))]));
    assert_eq!(text(&m), r#"{"a":true,}"#);
}

#[test]
fn render_scalars() {
    assert_eq!(text(&Value::null()), "null");
    assert_eq!(text(&Value::boolean(true)), "true");
    assert_eq!(text(&Value::boolean(false)), "false");
}

#[test]
fn render_string_escapes_backslash_and_quote() {
    let s = Value::string("a\"b\\c".to_string());
    assert_eq!(text(&s), r#""a\"b\\c""#);
}

#[test]
fn render_string_keeps_control_characters() {
    let s = Value::string("x\ny\tz".to_string());
    assert_eq!(text(&s), "\"x\ny\tz\"");
}

#[test]
fn render_nested() {
    let v = Value::list(vec![
        Value::map(pairs(&[("k", Value::list(vec![Value::null()]))])),
        Value::string("q".to_string()),
    ]);
    assert_eq!(text(&v), r#"[{"k":[null,],},"q",]"#);
}

#[test]
fn predicates_and_accessors() {
    let v = Value::boolean(true);
    assert!(v.is_boolean() && !v.is_null() && !v.is_number());
    assert_eq!(v.as_boolean(), Some(true));
    assert_eq!(v.as_number(), None);
    assert_eq!(v.ty(), ValueTy::Boolean);
    let n = num(2.5);
    assert!(n.is_number());
    assert_eq!(n.as_number(), Some(2.5f64.to_bits()));
    assert_eq!(n.as_str(), None);
    let s = Value::string("hi".to_string());
    assert!(s.is_string());
    assert_eq!(s.as_str(), Some("hi"));
    assert!(s.as_slice().is_none());
    assert_eq!(Value::null().as_null(), Some(()));
    assert_eq!(s.as_null(), None);
    let l = Value::list(vec![Value::null()]);
    assert!(l.is_list() && !l.is_map());
    assert_eq!(l.as_slice().unwrap().len(), 1);
    let m = Value::map(Vec::new());
    assert!(m.is_map());
    assert!(m.as_map().unwrap().is_empty());
}

#[test]
fn consuming_accessors() {
    assert_eq!(Value::string("x".to_string()).into_string(), Some("x".to_string()));
    assert_eq!(Value::null().into_string(), None);
    assert_eq!(Value::list(vec![Value::null(), Value::null()]).into_list().unwrap().len(), 2);
    assert!(Value::boolean(true).into_list().is_none());
    assert_eq!(Value::map(pairs(&[("a", Value::null())])).into_map().unwrap().len(), 1);
    assert!(num(1.0).into_map().is_none());
}

#[test]
fn default_is_null() {
    assert!(Value::default().is_null());
}

#[test]
fn equality_is_structural_with_ieee_numbers() {
    assert!(num(0.0) == num(-0.0));
    assert!(!(num(f64::NAN) == num(f64::NAN)));
    assert!(num(1.0) != num(2.0));
    assert!(Value::null() != Value::boolean(false));
    let a = Value::list(vec![num(1.0), Value::string("s".to_string())]);
    let b = Value::list(vec![num(1.0), Value::string("s".to_string())]);
    let c = Value::list(vec![num(1.0)]);
    assert!(a == b);
    assert!(a != c);
    let m1 = Value::map(pairs(&[("a", num(1.0)), ("b", Value::null())]));
    let m2 = Value::map(pairs(&[("b", Value::null()), ("a", num(1.0))]));
    let m3 = Value::map(pairs(&[("a", num(1.0)), ("c", Value::null())]));
    assert!(m1 == m2);
    assert!(m1 != m3);
}

#[test]
fn duplicate_is_equal() {
    let v = Value::map(pairs(&[("x", Value::list(vec![num(4.0), Value::string("y".to_string())]))]));
    assert!(v.duplicate() == v);
    assert_eq!(text(&v.duplicate()), text(&v));
}

fn sample() -> Value {
    Value::map(pairs(&[
        ("list", Value::list(vec![num(1.0), Value::null(), Value::boolean(true)])),
        ("name", Value::string("n\"q".to_string())),
        ("nested", Value::map(pairs(&[("deep", Value::list(vec![Value::list(Vec::new())]))]))),
        ("n", num(-7.25)),
    ]))
}

#[test]
fn round_trip_through_handles() {
    for v in [
        Value::null(),
        Value::boolean(false),
        num(9.5),
        Value::string("s".to_string()),
        Value::list(vec![num(1.0), num(2.0)]),
        sample(),
    ] {
        let mut t = ValueTable::new();
        let h = t.adapt(v.duplicate());
        let w = t.reconstruct(h);
        assert!(w == v);
        assert_eq!(text(&w), text(&v));
        assert!(t.is_live(h));
    }
}

#[test]
fn making_a_list_consumes_children() {
    let mut t = ValueTable::new();
    let h1 = t.make_number(1.0f64.to_bits());
    let h2 = t.make_string("two".to_string());
    let p = t.make_list(vec![h1, h2]);
    assert!(!t.is_live(h1));
    assert!(!t.is_live(h2));
    assert!(t.is_live(p));
    assert_eq!(t.kind_of(p), ValueTy::List);
}

#[test]
fn reading_a_list_gives_fresh_handles() {
    let mut t = ValueTable::new();
    let h1 = t.make_boolean(true);
    let h2 = t.make_null();
    let p = t.make_list(vec![h1, h2]);
    let first = t.as_list(p).unwrap();
    assert!(t.is_live(p));
    let second = t.as_list(p).unwrap();
    assert_eq!(first.len(), 2);
    assert_eq!(second.len(), 2);
    for a in &first {
        assert!(!second.contains(a));
    }
    assert_eq!(t.as_boolean(first[0]), Some(true));
    assert_eq!(t.as_boolean(second[0]), Some(true));
    assert_eq!(t.as_null(first[1]), Some(()));
    assert_eq!(t.kind_of(p), ValueTy::List);
}

#[test]
fn handle_map_sorts_and_collapses() {
    let mut t = ValueTable::new();
    let a = t.make_number(1.0f64.to_bits());
    let b = t.make_number(2.0f64.to_bits());
    let c = t.make_string("c".to_string());
    let m = t.make_map(vec![("z".to_string(), c), ("a".to_string(), a), ("a".to_string(), b)]);
    let es = t.as_map(m).unwrap();
    assert_eq!(es.len(), 2);
    assert_eq!(es[0].0, "a");
    assert_eq!(t.as_number(es[0].1), Some(2.0f64.to_bits()));
    assert_eq!(es[1].0, "z");
    assert_eq!(t.as_string(es[1].1), Some("c".to_string()));
    assert!(!t.is_live(a) && !t.is_live(b) && !t.is_live(c));
}

#[test]
fn handle_queries_on_wrong_variant_are_absent() {
    let mut t = ValueTable::new();
    let s = t.make_string("x".to_string());
    assert_eq!(t.as_boolean(s), None);
    assert_eq!(t.as_number(s), None);
    assert_eq!(t.as_null(s), None);
    assert!(t.as_list(s).is_none());
    assert!(t.as_map(s).is_none());
    assert_eq!(t.as_string(s), Some("x".to_string()));
    assert_eq!(t.kind_of(s), ValueTy::String);
    t.release(s);
    assert!(!t.is_live(s));
}
