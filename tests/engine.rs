use std::cell::RefCell;

use relua::{Error, Function, Kind, Number, Script, State, Table, Value};

/// Records every call it receives and answers with a fixed value.
struct Recorder {
    calls: RefCell<Vec<(u64, Vec<Value>)>>,
    answer: RefCell<Value>,
}

impl Recorder {
    fn new() -> Recorder {
        Recorder { calls: RefCell::new(Vec::new()), answer: RefCell::new(Value::Nil) }
    }

    fn host(&self) -> impl Fn(Function, Vec<Value>) -> Value + '_ {
        move |func: Function, args: Vec<Value>| {
            self.calls.borrow_mut().push((func.id, args));
            self.answer.borrow().clone()
        }
    }
}

fn num(v: &Value) -> Number {
    v.as_number().unwrap().clone()
}

#[test]
fn set_then_get_on_a_fresh_table() {
    let mut t = Table::new();
    t.set("k", Value::from(true));
    assert!(matches!(t.get("k"), Some(Value::Boolean(true))));
    let mut t = Table::new();
    t.set("k", Value::Nil);
    assert!(t.get("k").unwrap().is_nil());
    assert!(t.get("other").is_none());
    let mut t = Table::new();
    t.set("k", Value::from(String::from("text")));
    assert_eq!(t.get("k").unwrap().as_string().unwrap(), "text");
}

#[test]
fn set_overwrites() {
    let mut t = Table::new();
    t.set("k", Value::from(1i32));
    t.set("k", Value::from(2i32));
    assert_eq!(num(t.get("k").unwrap()), Number::from_i64(2));
}

#[test]
fn integer_conversions_are_exact() {
    assert_eq!(num(&Value::from(7i32)), Number { negative: false, digits: "7".to_string(), scale: 0 });
    assert_eq!(num(&Value::from(-3i64)), Number { negative: true, digits: "3".to_string(), scale: 0 });
    assert_eq!(num(&Value::from(i64::MIN)), Number { negative: true, digits: "9223372036854775808".to_string(), scale: 0 });
    assert_eq!(num(&Value::from(u64::MAX)), Number { negative: false, digits: "18446744073709551615".to_string(), scale: 0 });
    assert_eq!(num(&Value::from(0u8)), Number { negative: false, digits: String::new(), scale: 0 });
    assert!(matches!(Value::from(false), Value::Boolean(false)));
    assert!(Value::from(()).is_nil());
}

#[test]
fn type_tags() {
    assert_eq!(Value::Nil.as_type(), "nil");
    assert_eq!(Value::from(true).as_type(), "boolean");
    assert_eq!(Value::from(1u32).as_type(), "number");
    assert_eq!(Value::from(String::new()).as_type(), "string");
    assert_eq!(Value::Function(Function { id: 3 }).as_type(), "function");
    assert_eq!(Kind::Nil.as_str(), "nil");
}

#[test]
fn swap_exchanges_values() {
    let mut lua = State::new();
    let rec = Recorder::new();
    lua.run(&rec.host(), "x, y = 1, 2 x, y = y, x").unwrap();
    assert_eq!(num(lua.get("x").unwrap()), Number::from_i64(2));
    assert_eq!(num(lua.get("y").unwrap()), Number::from_i64(1));
}

#[test]
fn calling_nil_is_a_type_error() {
    let mut lua = State::new();
    let rec = Recorder::new();
    let r = lua.run(&rec.host(), "missing(1)");
    assert_eq!(r, Err(Error::NotCallable(Kind::Nil)));
    assert!(rec.calls.borrow().is_empty());
}

#[test]
fn calling_a_number_names_number() {
    let mut lua = State::new();
    let rec = Recorder::new();
    let r = lua.run(&rec.host(), "f = 4 f()");
    assert_eq!(r, Err(Error::NotCallable(Kind::Number)));
    assert_eq!(Kind::Number.as_str(), "number");
}

#[test]
fn arguments_passed_in_order() {
    let mut lua = State::new();
    let rec = Recorder::new();
    lua.set("f", Value::Function(Function { id: 9 }));
    lua.run(&rec.host(), r#"f() f "test" f(0.4, .4) f(4., false, nil)"#).unwrap();
    let counts: Vec<usize> = rec.calls.borrow().iter().map(|c| c.1.len()).collect();
    assert_eq!(counts, vec![0, 1, 2, 3]);
    assert!(rec.calls.borrow().iter().all(|c| c.0 == 9));
    assert_eq!(rec.calls.borrow()[1].1[0].as_string().unwrap(), "test");
    let point_four = Number { negative: false, digits: "4".to_string(), scale: 1 };
    assert_eq!(num(&rec.calls.borrow()[2].1[0]), point_four);
    assert_eq!(num(&rec.calls.borrow()[2].1[1]), point_four);
    assert_eq!(num(&rec.calls.borrow()[3].1[0]), Number::from_i64(4));
    assert!(matches!(rec.calls.borrow()[3].1[1], Value::Boolean(false)));
    assert!(rec.calls.borrow()[3].1[2].is_nil());
}

#[test]
fn nested_calls_run_left_to_right() {
    let mut lua = State::new();
    let rec = Recorder::new();
    rec.answer.replace(Value::from(5u8));
    lua.set("f", Value::Function(Function { id: 1 }));
    lua.set("g", Value::Function(Function { id: 2 }));
    lua.run(&rec.host(), "f(g(1), g(2))").unwrap();
    let ids: Vec<u64> = rec.calls.borrow().iter().map(|c| c.0).collect();
    assert_eq!(ids, vec![2, 2, 1]);
    assert_eq!(num(&rec.calls.borrow()[0].1[0]), Number::from_i64(1));
    assert_eq!(num(&rec.calls.borrow()[1].1[0]), Number::from_i64(2));
    assert_eq!(num(&rec.calls.borrow()[2].1[0]), Number::from_i64(5));
}

#[test]
fn call_result_is_assigned() {
    let mut lua = State::new();
    let rec = Recorder::new();
    rec.answer.replace(Value::from(true));
    lua.set("f", Value::Function(Function { id: 1 }));
    lua.run(&rec.host(), "x = f()").unwrap();
    assert!(matches!(lua.get("x"), Some(Value::Boolean(true))));
}

#[test]
fn unset_identifier_reads_nil() {
    let mut lua = State::new();
    let rec = Recorder::new();
    lua.set("f", Value::Function(Function { id: 1 }));
    lua.run(&rec.host(), "f(never)").unwrap();
    assert!(rec.calls.borrow()[0].1[0].is_nil());
    assert!(lua.get("never").is_none());
}

#[test]
fn local_scope_shadows_global() {
    let mut lua = State::new();
    let rec = Recorder::new();
    lua.set("x", Value::from(1i32));
    let mut local = Table::new();
    local.set("x", Value::from(10i32));
    lua.push_local(local);
    lua.run(&rec.host(), "x = 20 y = x").unwrap();
    assert_eq!(num(lua.get("x").unwrap()), Number::from_i64(1));
    assert_eq!(num(lua.get("y").unwrap()), Number::from_i64(20));
    let popped = lua.pop_local().unwrap();
    assert_eq!(num(popped.get("x").unwrap()), Number::from_i64(20));
    assert_eq!(num(lua.get("x").unwrap()), Number::from_i64(1));
    assert!(lua.pop_local().is_none());
}

#[test]
fn arity_mismatch_is_fatal() {
    let mut lua = State::new();
    let rec = Recorder::new();
    lua.set("f", Value::Function(Function { id: 1 }));
    let r = lua.run(&rec.host(), "x, y = f()");
    assert_eq!(r, Err(Error::ArityMismatch { targets: 2, values: 1 }));
    assert!(rec.calls.borrow().is_empty());
    assert!(lua.get("x").is_none());
}

#[test]
fn error_stops_remaining_statements() {
    let mut lua = State::new();
    let rec = Recorder::new();
    let r = lua.run(&rec.host(), "a = 1 b() c = 2");
    assert_eq!(r, Err(Error::NotCallable(Kind::Nil)));
    assert!(lua.get("a").is_some());
    assert!(lua.get("c").is_none());
}

#[test]
fn parse_errors_run_nothing() {
    let mut lua = State::new();
    let rec = Recorder::new();
    assert_eq!(lua.run(&rec.host(), "x = = 1"), Err(Error::Parse { at: 4 }));
    assert_eq!(lua.run(&rec.host(), "x = \"open"), Err(Error::Parse { at: 4 }));
    assert_eq!(lua.run(&rec.host(), "x = 1 $"), Err(Error::Parse { at: 6 }));
    assert!(lua.get("x").is_none());
}

#[test]
fn numerals() {
    let mut lua = State::new();
    let rec = Recorder::new();
    lua.run(&rec.host(), "a = 4.50 b = 0.04 c = 10 d = 007").unwrap();
    assert_eq!(num(lua.get("a").unwrap()), Number { negative: false, digits: "45".to_string(), scale: 1 });
    assert_eq!(num(lua.get("b").unwrap()), Number { negative: false, digits: "4".to_string(), scale: 2 });
    assert_eq!(num(lua.get("c").unwrap()), Number::from_i64(10));
    assert_eq!(num(lua.get("d").unwrap()), Number::from_i64(7));
}

#[test]
fn globals_persist_between_runs() {
    let mut lua = State::new();
    let rec = Recorder::new();
    lua.run(&rec.host(), "x = \"kept\"").unwrap();
    lua.run_script(&rec.host(), Script::from("y = x")).unwrap();
    assert_eq!(lua.get("y").unwrap().as_string().unwrap(), "kept");
}

#[test]
fn display_text_of_values() {
    assert_eq!(Value::Nil.to_text(), "nil");
    assert_eq!(Value::from(true).to_text(), "true");
    assert_eq!(Value::from(false).to_text(), "false");
    assert_eq!(Value::from(-3i32).to_text(), "-3");
    assert_eq!(Value::from(0u8).to_text(), "0");
    assert_eq!(Value::Function(Function { id: 1 }).to_text(), "<function>");
    assert_eq!(Value::from(String::from("a\"b")).to_text(), "\"a\\\"b\"");
    assert_eq!(Number { negative: false, digits: "45".to_string(), scale: 1 }.to_text(), "4.5");
    assert_eq!(Number { negative: false, digits: "4".to_string(), scale: 2 }.to_text(), "0.04");
    assert_eq!(Number { negative: true, digits: "1234".to_string(), scale: 2 }.to_text(), "-12.34");
    assert_eq!(Number::from_u64(u64::MAX).to_text(), "18446744073709551615");
}

#[test]
fn parsed_numbers_display_like_doubles() {
    let mut lua = State::new();
    let rec = Recorder::new();
    lua.run(&rec.host(), "a = .4 b = 4. c = 0.40").unwrap();
    assert_eq!(lua.get("a").unwrap().to_text(), "0.4");
    assert_eq!(lua.get("b").unwrap().to_text(), "4");
    assert_eq!(lua.get("c").unwrap().to_text(), "0.4");
}

#[test]
fn strings_names_and_keywords() {
    let mut lua = State::new();
    let rec = Recorder::new();
    lua.set("f_2", Value::Function(Function { id: 4 }));
    lua.run(&rec.host(), "\tnil_ish, t = \"a b, c\", true\nf_2(nil_ish, t, false, nil)\r\n").unwrap();
    assert_eq!(lua.get("nil_ish").unwrap().as_string().unwrap(), "a b, c");
    let args = &rec.calls.borrow()[0].1;
    assert_eq!(args[0].as_string().unwrap(), "a b, c");
    assert!(matches!(args[1], Value::Boolean(true)));
    assert!(matches!(args[2], Value::Boolean(false)));
    assert!(args[3].is_nil());
}

#[test]
fn empty_script_does_nothing() {
    let mut lua = State::new();
    let rec = Recorder::new();
    assert_eq!(lua.run(&rec.host(), ""), Ok(()));
    assert_eq!(lua.run(&rec.host(), "  \n "), Ok(()));
    assert!(rec.calls.borrow().is_empty());
}

#[test]
fn malformed_statements_are_parse_errors() {
    let mut lua = State::new();
    let rec = Recorder::new();
    assert!(matches!(lua.run(&rec.host(), "f(1"), Err(Error::Parse { .. })));
    assert!(matches!(lua.run(&rec.host(), "x ="), Err(Error::Parse { .. })));
    assert!(matches!(lua.run(&rec.host(), "1 = x"), Err(Error::Parse { at: 0 })));
    assert!(matches!(lua.run(&rec.host(), "x"), Err(Error::Parse { .. })));
    assert!(matches!(lua.run(&rec.host(), "x = ."), Err(Error::Parse { at: 4 })));
    assert!(rec.calls.borrow().is_empty());
}

#[test]
fn repeated_target_keeps_last_value() {
    let mut lua = State::new();
    let rec = Recorder::new();
    lua.run(&rec.host(), "x, x = 1, 2").unwrap();
    assert_eq!(num(lua.get("x").unwrap()), Number::from_i64(2));
}

#[test]
fn long_numerals_keep_every_digit() {
    let mut lua = State::new();
    let rec = Recorder::new();
    lua.run(&rec.host(), "x = 100000000000000000000 y = 3.14159265358979323846 z = 000.000").unwrap();
    assert_eq!(
        num(lua.get("x").unwrap()),
        Number { negative: false, digits: "100000000000000000000".to_string(), scale: 0 }
    );
    assert_eq!(
        num(lua.get("y").unwrap()),
        Number { negative: false, digits: "314159265358979323846".to_string(), scale: 20 }
    );
    assert_eq!(num(lua.get("z").unwrap()), Number { negative: false, digits: String::new(), scale: 0 });
    assert_eq!(lua.get("x").unwrap().to_text(), "100000000000000000000");
    assert_eq!(lua.get("y").unwrap().to_text(), "3.14159265358979323846");
    assert_eq!(lua.get("z").unwrap().to_text(), "0");
}

#[test]
fn string_contents_are_not_lexed() {
    let mut lua = State::new();
    let rec = Recorder::new();
    lua.set("print", Value::Function(Function { id: 1 }));
    lua.run(&rec.host(), r#"print "$" print "a.b""#).unwrap();
    assert_eq!(rec.calls.borrow()[0].1[0].as_string().unwrap(), "$");
    assert_eq!(rec.calls.borrow()[1].1[0].as_string().unwrap(), "a.b");
}
