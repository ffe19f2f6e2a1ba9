use squire::error::{Error, ErrorKind};
use squire::value::codex::Value;
use squire::value::journey::{CodeBlock, Journey};
use squire::value::numeral::Numeral;
use squire::value::text::Text;

fn closure(name: &str, parameters: &[&str]) -> Journey {
    Journey::new(
        name.to_string(),
        false,
        parameters.iter().map(|p| p.to_string()).collect(),
        CodeBlock { handle: 7 },
    )
}

fn numbers(count: usize) -> Vec<Value> {
    (0..count).map(|i| Value::Numeral(Numeral::new(i as i64))).collect()
}

#[test]
fn new_keeps_what_it_is_given() {
    let journey = Journey::new("go".to_string(), true, vec!["a".to_string()], CodeBlock { handle: 3 });
    assert_eq!(journey.name(), "go");
    assert!(journey.is_method());
    assert_eq!(journey.arity(), 1);
    assert_eq!(journey.call(&numbers(1)), Ok(CodeBlock { handle: 3 }));
}

#[test]
fn call_with_the_declared_count_goes_ahead() {
    let journey = closure("add", &["a", "b"]);
    assert_eq!(journey.call(&numbers(2)), Ok(CodeBlock { handle: 7 }));
    assert_eq!(closure("none", &[]).call(&numbers(0)), Ok(CodeBlock { handle: 7 }));
}

#[test]
fn call_with_too_few_arguments_fails() {
    let journey = closure("add", &["a", "b"]);
    assert_eq!(
        journey.call(&numbers(1)),
        Err(Error { kind: ErrorKind::ArgumentCountError { given: 1, expected: 2 }, position: None })
    );
}

#[test]
fn call_with_too_many_arguments_fails() {
    let journey = closure("add", &["a", "b"]);
    assert_eq!(
        journey.call(&numbers(3)),
        Err(Error { kind: ErrorKind::ArgumentCountError { given: 3, expected: 2 }, position: None })
    );
}

#[test]
fn attribute_name() {
    let journey = closure("add", &["a", "b"]);
    let name = journey.get_attr("name").unwrap();
    assert!(name.is_same(&Value::Text(Text::new("add"))));
}

#[test]
fn attribute_args() {
    let journey = closure("add", &["a", "b"]);
    let args = journey.get_attr("args").unwrap();
    let expected = Value::Book(vec![Value::Text(Text::new("a")), Value::Text(Text::new("b"))]);
    assert!(args.is_same(&expected));
    let none = closure("none", &[]).get_attr("args").unwrap();
    assert!(none.is_same(&Value::Book(vec![])));
}

#[test]
fn unknown_attribute() {
    let journey = closure("add", &["a", "b"]);
    let error = journey.get_attr("is_method").unwrap_err();
    assert_eq!(
        error,
        Error { kind: ErrorKind::UnknownAttribute("is_method".to_string()), position: None }
    );
    assert!(journey.get_attr("").is_err());
    assert!(journey.get_attr("Name").is_err());
}

#[test]
fn equality_is_identity() {
    let first = closure("same", &["a"]);
    let second = closure("same", &["a"]);
    let shared = first.clone();
    assert!(first.same_instance(&first));
    assert!(first.same_instance(&shared));
    assert!(shared.same_instance(&first));
    assert!(!first.same_instance(&second));
    assert!(first == shared);
    assert!(first != second);
    assert_eq!(shared.name(), "same");
    assert_eq!(shared.arity(), 1);
}

#[test]
fn is_equal_compares_with_any_value() {
    let first = closure("f", &[]);
    let second = closure("f", &[]);
    assert_eq!(first.is_equal(&Value::Journey(first.clone())), Ok(true));
    assert_eq!(first.is_equal(&Value::Journey(second)), Ok(false));
    assert_eq!(first.is_equal(&Value::Null), Ok(false));
    assert_eq!(first.is_equal(&Value::Text(Text::new("f"))), Ok(false));
}

#[test]
fn dump_names_the_closure() {
    let journey = closure("walk", &[]);
    let mut out = String::from("> ");
    journey.dump(&mut out);
    assert!(out.starts_with("> Journey(walk: "));
    assert!(out.ends_with(")"));
    let number = &out["> Journey(walk: ".len()..out.len() - 1];
    assert!(!number.is_empty());
    assert!(number.chars().all(|c| c.is_ascii_digit()));
    let mut again = String::new();
    journey.clone().dump(&mut again);
    assert_eq!(format!("> {}", again), out);
}
