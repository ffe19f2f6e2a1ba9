use squire::error::{Error, ErrorKind};
use squire::unicode::str_equal;
use squire::value::codex::{is_listed, Codex, Value};
use squire::value::journey::{CodeBlock, Journey};
use squire::value::numeral::Numeral;
use squire::value::text::Text;
use std::cmp::Ordering;

fn num(n: i64) -> Value {
    Value::Numeral(Numeral::new(n))
}

fn txt(s: &str) -> Value {
    Value::Text(Text::new(s))
}

fn map_of(pairs: &[(&str, i64)]) -> Codex {
    Codex::from_iter(pairs.iter().map(|(k, v)| (txt(k), num(*v))).collect())
}

fn dumped(value: &Value) -> String {
    let mut out = String::new();
    value.dump(&mut out);
    out
}

fn holds(codex: &Codex, key: &str, value: i64) -> bool {
    match codex.get(&txt(key)) {
        Some(found) => found.is_same(&num(value)),
        None => false,
    }
}

#[test]
fn new_map_is_empty() {
    let codex = Codex::new();
    assert_eq!(codex.len(), 0);
    assert!(codex.is_empty());
    assert!(!codex.convert());
    assert!(codex.get(&num(1)).is_none());
    assert!(Codex::with_capacity(16).is_empty());
}

#[test]
fn insert_then_get() {
    let mut codex = Codex::new();
    assert!(codex.insert(txt("a"), num(1)).is_none());
    assert!(codex.insert(txt("b"), num(2)).is_none());
    assert_eq!(codex.len(), 2);
    assert!(codex.convert());
    assert!(holds(&codex, "a", 1));
    assert!(holds(&codex, "b", 2));
    assert!(codex.contains_key(&txt("a")));
    assert!(!codex.contains_key(&txt("c")));
    assert!(!codex.contains_key(&num(1)));
    assert!(codex.index(&txt("b")).is_same(&num(2)));
}

#[test]
fn insert_under_a_held_key_replaces_the_value() {
    let mut codex = map_of(&[("a", 1), ("b", 2)]);
    let previous = codex.insert(txt("a"), num(10)).unwrap();
    assert!(previous.is_same(&num(1)));
    assert_eq!(codex.len(), 2);
    assert!(holds(&codex, "a", 10));
    assert!(holds(&codex, "b", 2));
}

#[test]
fn get_mut_changes_the_value_in_place() {
    let mut codex = map_of(&[("a", 1), ("b", 2)]);
    match codex.get_mut(&txt("b")) {
        Some(value) => *value = num(20),
        None => panic!("the key is held"),
    }
    assert!(codex.get_mut(&txt("z")).is_none());
    assert_eq!(codex.len(), 2);
    assert!(holds(&codex, "a", 1));
    assert!(holds(&codex, "b", 20));
}

#[test]
fn remove_takes_the_entry_out() {
    let mut codex = map_of(&[("a", 1), ("b", 2), ("c", 3)]);
    let removed = codex.remove(&txt("b")).unwrap();
    assert!(removed.is_same(&num(2)));
    assert_eq!(codex.len(), 2);
    assert!(!codex.contains_key(&txt("b")));
    assert!(holds(&codex, "a", 1));
    assert!(holds(&codex, "c", 3));
    assert!(codex.remove(&txt("b")).is_none());
    assert_eq!(codex.len(), 2);
}

#[test]
fn keys_of_every_sort() {
    let journey = Journey::new("f".to_string(), false, vec![], CodeBlock { handle: 1 });
    let mut codex = Codex::new();
    codex.insert(Value::Null, num(0));
    codex.insert(Value::Veracity(true), num(1));
    codex.insert(num(2), num(2));
    codex.insert(txt("2"), num(3));
    codex.insert(Value::Book(vec![num(1), num(2)]), num(4));
    codex.insert(Value::Codex(map_of(&[("k", 1), ("l", 2)])), num(5));
    codex.insert(Value::Journey(journey.clone()), num(6));
    assert_eq!(codex.len(), 7);
    assert!(codex.get(&Value::Null).unwrap().is_same(&num(0)));
    assert!(codex.get(&Value::Veracity(true)).unwrap().is_same(&num(1)));
    assert!(codex.get(&Value::Veracity(false)).is_none());
    assert!(codex.get(&num(2)).unwrap().is_same(&num(2)));
    assert!(codex.get(&txt("2")).unwrap().is_same(&num(3)));
    assert!(codex.get(&Value::Book(vec![num(1), num(2)])).unwrap().is_same(&num(4)));
    assert!(codex.get(&Value::Book(vec![num(2), num(1)])).is_none());
    let same_map_other_order = Value::Codex(map_of(&[("l", 2), ("k", 1)]));
    assert!(codex.get(&same_map_other_order).unwrap().is_same(&num(5)));
    assert!(codex.get(&Value::Journey(journey)).unwrap().is_same(&num(6)));
    let stranger = Journey::new("f".to_string(), false, vec![], CodeBlock { handle: 1 });
    assert!(codex.get(&Value::Journey(stranger)).is_none());
}

#[test]
fn union_overrides_with_the_right_side() {
    let left = map_of(&[("a", 1)]);
    let sum = left.add(vec![(txt("a"), num(2)), (txt("b"), num(3))]);
    assert_eq!(sum.len(), 2);
    assert!(holds(&sum, "a", 2));
    assert!(holds(&sum, "b", 3));
    assert!(sum.is_same_map(&map_of(&[("a", 2), ("b", 3)])));
}

#[test]
fn union_lets_later_pairs_override_earlier_ones() {
    let sum = Codex::new().add(vec![(txt("a"), num(1)), (txt("a"), num(2)), (txt("a"), num(3))]);
    assert_eq!(sum.len(), 1);
    assert!(holds(&sum, "a", 3));
}

#[test]
fn difference_removes_the_listed_keys() {
    let left = map_of(&[("a", 1), ("b", 2)]);
    let difference = left.sub(&vec![txt("a")]);
    assert_eq!(difference.len(), 1);
    assert!(holds(&difference, "b", 2));
    assert!(difference.is_same_map(&map_of(&[("b", 2)])));
    let untouched = map_of(&[("a", 1), ("b", 2)]).sub(&vec![txt("z"), num(1)]);
    assert!(untouched.is_same_map(&map_of(&[("a", 1), ("b", 2)])));
    let nothing = map_of(&[("a", 1), ("b", 2)]).sub(&vec![txt("b"), txt("a"), txt("a")]);
    assert!(nothing.is_empty());
}

#[test]
fn extend_and_from_iter() {
    let mut codex = map_of(&[("a", 1), ("b", 2)]);
    codex.extend(vec![(txt("b"), num(20)), (txt("c"), num(30)), (txt("b"), num(200))]);
    assert_eq!(codex.len(), 3);
    assert!(holds(&codex, "a", 1));
    assert!(holds(&codex, "b", 200));
    assert!(holds(&codex, "c", 30));
    let built = Codex::from_iter(vec![(num(1), num(1)), (num(1), num(2))]);
    assert_eq!(built.len(), 1);
    assert!(built.get(&num(1)).unwrap().is_same(&num(2)));
}

#[test]
fn entries_keep_the_order_of_arrival() {
    let codex = map_of(&[("b", 2), ("a", 1), ("b", 3)]);
    let keys: Vec<String> = codex.iter().iter().map(|(k, _)| dumped(k)).collect();
    assert_eq!(keys, vec!["\"b\"", "\"a\""]);
    let values: Vec<String> = codex.iter().iter().map(|(_, v)| dumped(v)).collect();
    assert_eq!(values, vec!["3", "1"]);
    let entries = codex.into_iter();
    assert_eq!(entries.len(), 2);
    assert!(entries[0].1.is_same(&num(3)));
}

#[test]
fn maps_are_equal_in_any_order() {
    let one = map_of(&[("a", 1), ("b", 2)]);
    let other = map_of(&[("b", 2), ("a", 1)]);
    assert!(one.is_same_map(&other));
    assert!(other.is_same_map(&one));
    assert!(!one.is_same_map(&map_of(&[("a", 1)])));
    assert!(!map_of(&[("a", 1)]).is_same_map(&one));
    assert!(!one.is_same_map(&map_of(&[("a", 1), ("b", 3)])));
    assert!(!one.is_same_map(&map_of(&[("a", 1), ("c", 2)])));
    assert!(Codex::new().is_same_map(&Codex::new()));
}

#[test]
fn values_of_different_sorts_differ() {
    let values = [
        Value::Null,
        Value::Veracity(false),
        num(0),
        txt("0"),
        Value::Book(vec![]),
        Value::Codex(Codex::new()),
    ];
    for (i, a) in values.iter().enumerate() {
        for (j, b) in values.iter().enumerate() {
            assert_eq!(a.is_same(b), i == j);
        }
    }
    assert!(!num(1).is_same(&num(2)));
    assert!(!txt("a").is_same(&txt("b")));
    assert!(!Value::Book(vec![num(1)]).is_same(&Value::Book(vec![num(1), num(1)])));
    assert!(!Value::Book(vec![num(1)]).is_same(&Value::Book(vec![num(2)])));
}

#[test]
fn clones_are_equal() {
    let journey = Journey::new("f".to_string(), false, vec![], CodeBlock { handle: 1 });
    let value = Value::Book(vec![
        Value::Codex(map_of(&[("a", 1), ("b", 2)])),
        Value::Journey(journey),
        txt("t"),
        Value::Null,
    ]);
    let copy = value.clone();
    assert!(value.is_same(&copy));
    assert_eq!(dumped(&value), dumped(&copy));
    let codex = map_of(&[("a", 1), ("b", 2)]);
    assert!(codex.clone().is_same_map(&codex));
}

#[test]
fn dump_of_every_sort() {
    assert_eq!(dumped(&Value::Null), "ni");
    assert_eq!(dumped(&Value::Veracity(true)), "yay");
    assert_eq!(dumped(&Value::Veracity(false)), "nay");
    assert_eq!(dumped(&num(-12)), "-12");
    assert_eq!(dumped(&txt("a\"b")), "\"a\\\"b\"");
    assert_eq!(dumped(&Value::Book(vec![])), "[]");
    assert_eq!(dumped(&Value::Book(vec![num(1)])), "[1]");
    assert_eq!(dumped(&Value::Book(vec![num(1), txt("x"), Value::Null])), "[1, \"x\", ni]");
}

#[test]
fn dump_of_a_map() {
    let mut out = String::from("m = ");
    Codex::new().dump(&mut out);
    assert_eq!(out, "m = {}");
    assert_eq!(dumped(&Value::Codex(map_of(&[("a", 1)]))), "{\"a\": 1}");
    assert_eq!(dumped(&Value::Codex(map_of(&[("a", 1), ("b", 2), ("c", 3)]))), "{\"a\": 1, \"b\": 2, \"c\": 3}");
    let mut nested = Codex::new();
    nested.insert(num(1), Value::Codex(map_of(&[("k", 2)])));
    nested.insert(Value::Book(vec![num(3)]), Value::Veracity(true));
    assert_eq!(dumped(&Value::Codex(nested)), "{1: {\"k\": 2}, [3]: yay}");
}

#[test]
fn is_equal_and_compare() {
    let codex = map_of(&[("a", 1)]);
    assert_eq!(codex.is_equal(&Value::Codex(map_of(&[("a", 1)]))), Ok(true));
    assert_eq!(codex.is_equal(&Value::Codex(map_of(&[("a", 2)]))), Ok(false));
    assert_eq!(codex.is_equal(&num(1)), Ok(false));
    assert_eq!(codex.compare(&Value::Codex(map_of(&[("a", 1)]))), Ok(Some(Ordering::Equal)));
    assert_eq!(codex.compare(&Value::Codex(Codex::new())), Ok(None));
    assert_eq!(codex.compare(&Value::Null), Ok(None));
}

#[test]
fn get_index_and_set_index() {
    let mut codex = map_of(&[("a", 1)]);
    assert!(codex.get_index(&txt("a")).unwrap().is_same(&num(1)));
    assert_eq!(
        codex.get_index(&txt("b")).unwrap_err(),
        Error { kind: ErrorKind::MissingKey, position: None }
    );
    assert_eq!(codex.set_index(txt("b"), num(2)), Ok(()));
    assert_eq!(codex.set_index(txt("a"), num(3)), Ok(()));
    assert!(codex.get_index(&txt("b")).unwrap().is_same(&num(2)));
    assert!(codex.get_index(&txt("a")).unwrap().is_same(&num(3)));
    assert_eq!(codex.len(), 2);
}

#[test]
fn a_map_has_no_attributes_and_no_other_form() {
    let codex = map_of(&[("a", 1)]);
    assert_eq!(
        codex.get_attr("len").unwrap_err(),
        Error { kind: ErrorKind::UnknownAttribute("len".to_string()), position: None }
    );
    assert_eq!(
        codex.convert_to_text(),
        Err(Error { kind: ErrorKind::OperationNotSupported, position: None })
    );
    assert_eq!(
        codex.convert_to_book().unwrap_err(),
        Error { kind: ErrorKind::OperationNotSupported, position: None }
    );
}

#[test]
fn add_value_takes_maps_only() {
    let sum = map_of(&[("a", 1)]).add_value(Value::Codex(map_of(&[("a", 2), ("b", 3)]))).unwrap();
    assert!(sum.is_same(&Value::Codex(map_of(&[("a", 2), ("b", 3)]))));
    assert_eq!(
        map_of(&[("a", 1)]).add_value(num(1)).unwrap_err(),
        Error { kind: ErrorKind::OperationNotSupported, position: None }
    );
}

#[test]
fn subtract_takes_lists_and_maps() {
    let by_list = map_of(&[("a", 1), ("b", 2)]).subtract(Value::Book(vec![txt("a")])).unwrap();
    assert!(by_list.is_same(&Value::Codex(map_of(&[("b", 2)]))));
    let by_map = map_of(&[("a", 1), ("b", 2), ("c", 3)])
        .subtract(Value::Codex(map_of(&[("c", 0), ("a", 0), ("z", 0)])))
        .unwrap();
    assert!(by_map.is_same(&Value::Codex(map_of(&[("b", 2)]))));
    assert_eq!(
        map_of(&[("a", 1)]).subtract(txt("a")).unwrap_err().kind,
        ErrorKind::OperationNotSupported
    );
}

#[test]
fn values_are_made_from_maps_and_closures() {
    let from_map = Value::from(map_of(&[("a", 1)]));
    assert!(from_map.is_same(&Value::Codex(map_of(&[("a", 1)]))));
    let journey = Journey::new("f".to_string(), false, vec![], CodeBlock { handle: 1 });
    let from_closure = Value::from(journey.clone());
    assert!(from_closure.is_same(&Value::Journey(journey)));
}

#[test]
fn the_equality_operator_is_equality_of_values() {
    assert_eq!(num(1), num(1));
    assert_ne!(num(1), txt("1"));
    assert_eq!(map_of(&[("a", 1), ("b", 2)]), map_of(&[("b", 2), ("a", 1)]));
    assert_ne!(map_of(&[("a", 1)]), map_of(&[("a", 2)]));
    assert_eq!(
        Value::Book(vec![Value::Codex(map_of(&[("a", 1)])), Value::Null]),
        Value::Book(vec![Value::Codex(map_of(&[("a", 1)])), Value::Null])
    );
    let journey = Journey::new("f".to_string(), false, vec![], CodeBlock { handle: 1 });
    let stranger = Journey::new("f".to_string(), false, vec![], CodeBlock { handle: 1 });
    assert_eq!(journey.clone(), journey);
    assert_ne!(stranger, journey);
    assert_ne!(Value::Journey(stranger), Value::Journey(journey));
}

#[test]
fn listed_and_string_equality() {
    let keys = vec![num(1), txt("a")];
    assert!(is_listed(&keys, &txt("a")));
    assert!(is_listed(&keys, &num(1)));
    assert!(!is_listed(&keys, &txt("1")));
    assert!(!is_listed(&vec![], &Value::Null));
    assert!(str_equal("abc", "abc"));
    assert!(!str_equal("abc", "abd"));
    assert!(!str_equal("abc", "ab"));
    assert!(str_equal("", ""));
}
