use dot_json::{arr_to_dot_map, map_to_dot_map, value_to_dot, DotMap, Value};

fn num(text: &str) -> Value {
    Value::Num(text.to_string())
}

fn text(s: &str) -> Value {
    Value::Text(s.to_string())
}

fn key(s: &str) -> String {
    s.to_string()
}

fn mixed_object() -> DotMap {
    let mut baz = DotMap::new();
    baz.insert(key("qux"), num("789"));
    let mut src = DotMap::new();
    src.insert(key("foo"), text("Lorem ipsum"));
    src.insert(
        key("bar"),
        Value::Arr(vec![Value::Null, num("123"), Value::Bool(true)]),
    );
    src.insert(key("baz"), Value::Obj(baz));
    src
}

#[test]
fn mixed_object_flattens_to_five_entries() {
    let dot = map_to_dot_map(&mixed_object());
    assert_eq!(5, dot.len());
    assert_eq!(Some(&text("Lorem ipsum")), dot.get(&key("foo")));
    assert_eq!(Some(&Value::Null), dot.get(&key("bar.0")));
    assert_eq!(Some(&num("123")), dot.get(&key("bar.1")));
    assert_eq!(Some(&Value::Bool(true)), dot.get(&key("bar.2")));
    assert_eq!(Some(&num("789")), dot.get(&key("baz.qux")));
}

#[test]
fn mixed_array_flattens_with_index_paths() {
    let mut obj = DotMap::new();
    obj.insert(key("qux"), num("789"));
    let src = vec![
        text("Lorem ipsum"),
        Value::Arr(vec![Value::Null, num("123"), Value::Bool(true)]),
        Value::Obj(obj),
    ];
    let dot = arr_to_dot_map(&src);
    assert_eq!(5, dot.len());
    assert_eq!(Some(&text("Lorem ipsum")), dot.get(&key("0")));
    assert_eq!(Some(&Value::Null), dot.get(&key("1.0")));
    assert_eq!(Some(&num("123")), dot.get(&key("1.1")));
    assert_eq!(Some(&Value::Bool(true)), dot.get(&key("1.2")));
    assert_eq!(Some(&num("789")), dot.get(&key("2.qux")));
}

#[test]
fn scalar_values_flatten_to_themselves() {
    assert_eq!(Value::Bool(true), value_to_dot(&Value::Bool(true)));
    assert_eq!(Value::Null, value_to_dot(&Value::Null));
    assert_eq!(num("123"), value_to_dot(&num("123")));
    assert_eq!(text("Lorem ipsum"), value_to_dot(&text("Lorem ipsum")));
}

#[test]
fn empty_object_yields_empty_mapping() {
    let dot = map_to_dot_map(&DotMap::new());
    assert_eq!(0, dot.len());
}

#[test]
fn nested_empty_arrays_erase() {
    let src = Value::Arr(vec![Value::Arr(vec![Value::Arr(vec![])])]);
    match value_to_dot(&src) {
        Value::Obj(dot) => assert_eq!(0, dot.len()),
        other => panic!("expected an object, got {:?}", other),
    }
}

#[test]
fn empty_containers_inside_object_erase() {
    let mut src = DotMap::new();
    src.insert(key("x"), Value::Obj(DotMap::new()));
    src.insert(key("y"), Value::Arr(Vec::new()));
    src.insert(key("z"), num("1"));
    let dot = map_to_dot_map(&src);
    assert_eq!(1, dot.len());
    assert_eq!(Some(&num("1")), dot.get(&key("z")));
}

#[test]
fn colliding_keys_keep_one_entry() {
    let mut inner = DotMap::new();
    inner.insert(key("b"), num("2"));
    let mut src = DotMap::new();
    src.insert(key("a.b"), num("1"));
    src.insert(key("a"), Value::Obj(inner));
    let dot = map_to_dot_map(&src);
    assert_eq!(1, dot.len());
    let got = dot.get(&key("a.b"));
    assert!(got == Some(&num("1")) || got == Some(&num("2")));
}

#[test]
fn deep_nesting_counts_leaves() {
    let mut c = DotMap::new();
    c.insert(key("c"), num("1"));
    let mut b = DotMap::new();
    b.insert(key("b"), Value::Obj(c));
    let mut src = DotMap::new();
    src.insert(key("a"), Value::Obj(b));
    src.insert(key("d"), num("2"));
    let dot = map_to_dot_map(&src);
    assert_eq!(2, dot.len());
    assert_eq!(Some(&num("1")), dot.get(&key("a.b.c")));
    assert_eq!(Some(&num("2")), dot.get(&key("d")));
}

#[test]
fn array_matches_reindexed_object() {
    let arr = vec![text("x"), Value::Bool(true)];
    let from_arr = arr_to_dot_map(&arr);
    let mut obj = DotMap::new();
    obj.insert(key("0"), text("x"));
    obj.insert(key("1"), Value::Bool(true));
    let from_obj = map_to_dot_map(&obj);
    assert_eq!(from_arr, from_obj);
}

#[test]
fn reflattening_the_output_changes_nothing() {
    let first = map_to_dot_map(&mixed_object());
    let again = map_to_dot_map(&first);
    assert_eq!(first, again);
}

#[test]
fn value_to_dot_wraps_the_object_mapping() {
    let expected = map_to_dot_map(&mixed_object());
    match value_to_dot(&Value::Obj(mixed_object())) {
        Value::Obj(dot) => assert_eq!(expected, dot),
        other => panic!("expected an object, got {:?}", other),
    }
}

#[test]
fn insert_overwrites_an_existing_key() {
    let mut m = DotMap::new();
    m.insert(key("k"), num("1"));
    m.insert(key("k"), num("2"));
    assert_eq!(1, m.len());
    assert_eq!(Some(&num("2")), m.get(&key("k")));
}

#[test]
fn get_of_a_missing_key_is_none() {
    let mut m = DotMap::new();
    m.insert(key("k"), num("1"));
    assert_eq!(None, m.get(&key("missing")));
}

#[test]
fn long_arrays_use_multi_digit_indices() {
    let mut src: Vec<Value> = Vec::new();
    for i in 0..12 {
        src.push(num(&i.to_string()));
    }
    let dot = arr_to_dot_map(&src);
    assert_eq!(12, dot.len());
    assert_eq!(Some(&num("0")), dot.get(&key("0")));
    assert_eq!(Some(&num("10")), dot.get(&key("10")));
    assert_eq!(Some(&num("11")), dot.get(&key("11")));
}

#[test]
fn empty_string_keys_still_join_with_dots() {
    let mut inner = DotMap::new();
    inner.insert(key("a"), num("1"));
    let mut src = DotMap::new();
    src.insert(key(""), Value::Obj(inner));
    let dot = map_to_dot_map(&src);
    assert_eq!(1, dot.len());
    assert_eq!(Some(&num("1")), dot.get(&key(".a")));
}
