use std::cell::Cell;

use relua::{Function, Number, State, Value};

fn to_f64(n: &Number) -> f64 {
    n.to_text().parse::<f64>().unwrap()
}

#[test]
pub fn increment_relua_to_rust() {
    let mut lua = State::new();

    let called = Cell::new(false);
    lua.set("inc", Value::Function(Function { id: 0 }));
    let inc = |_func: Function, _args: Vec<Value>| {
        called.set(true);
        Value::Nil
    };

    lua.run(&inc, "inc()").unwrap();

    assert!(called.get());
}

#[test]
pub fn n_params_relua_to_rust() {
    let mut lua = State::new();

    let n = Cell::new(0usize);
    lua.set("print", Value::Function(Function { id: 0 }));
    let print = |_func: Function, args: Vec<Value>| {
        assert_eq!(n.get(), args.len());
        n.set(n.get() + 1);
        Value::Nil
    };

    lua.run(&print, r#"print() print "test" print(0.4, .4) print(4., false, nil)"#)
        .unwrap();
    assert_eq!(n.get(), 4);
}

#[test]
pub fn test_swap() {
    let mut lua = State::new();

    let seen = Cell::new(false);
    lua.set("test_swap", Value::Function(Function { id: 0 }));
    let test_swap = |_func: Function, args: Vec<Value>| {
        let arg0 = to_f64(args[0].as_number().unwrap());
        let arg1 = to_f64(args[1].as_number().unwrap());
        assert!((arg0 - 2.0).abs() <= f64::EPSILON);
        assert!((arg1 - 1.0).abs() <= f64::EPSILON);
        seen.set(true);
        Value::Nil
    };

    lua.run(&test_swap, "x, y = 1, 2 x, y = y, x test_swap(x, y)").unwrap();
    assert!(seen.get());
}
