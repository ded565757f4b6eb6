use ecow::EcoVec;
use std::cell::Cell;
use std::rc::Rc;
use std::sync::Arc;
use uiua_reduce::array::Array;
use uiua_reduce::eco::CowSlice;
use uiua_reduce::env::{Runtime, Stacks, Step, Uiua};
use uiua_reduce::error::{UiuaError, Wanted};
use uiua_reduce::fold::{fold, fold_by_ranks, fold_on, fold_recursive};
use uiua_reduce::function::{Dyadic, Function, Identity, Primitive, Signature};
use uiua_reduce::reduce::{accumulate, break_off, can_reduce, generic_fold_right_1, place, reduce};
use uiua_reduce::scan::{can_scan, generic_scan, scan, scan_on};
use uiua_reduce::value::Value;

type V = Value<f64, (f64, f64), String>;
type S = Stacks<f64, (f64, f64), String, Body>;
type Body = fn(&mut Vec<V>) -> Result<bool, String>;

/// Numbers are `f64`, bodies are Rust functions, and ranks are depths. Calls are counted.
struct Desk {
    ranks: Result<Vec<usize>, String>,
    calls: Rc<Cell<usize>>,
}

fn desk(ranks: Result<Vec<usize>, String>) -> Desk {
    Desk { ranks, calls: Rc::new(Cell::new(0)) }
}

impl Runtime for Desk {
    type Num = f64;
    type Complex = (f64, f64);
    type Boxed = String;
    type Body = Body;
    type Rank = usize;
    type Error = String;

    fn call_catch_break(&self, f: &Function<Body>, stacks: S) -> (S, Result<bool, String>) {
        let mut stacks = stacks;
        self.calls.set(self.calls.get() + 1);
        let reply = (f.body)(&mut stacks.values);
        (stacks, reply)
    }

    fn rank_list(&self, name: &str, stacks: S) -> (S, Result<Vec<usize>, String>) {
        assert_eq!(name, "Fold");
        (stacks, self.ranks.clone())
    }

    fn rank_to_depth(&self, declared: &usize, rank: usize) -> usize {
        (*declared).min(rank)
    }

    fn from_row_values(&self, rows: Vec<V>) -> Result<V, String> {
        let mut items = Vec::new();
        let mut shape = vec![rows.len()];
        for (i, row) in rows.iter().enumerate() {
            let (row_shape, row_items) = number_parts(row);
            if i == 0 {
                shape.extend(row_shape);
            } else if shape[1..] != row_shape {
                return Err("rows differ".to_string());
            }
            items.extend(row_items);
        }
        Ok(nums(&shape, &items))
    }

    fn num_identity(&self, identity: Identity) -> f64 {
        match identity {
            Identity::Zero => 0.0,
            Identity::One => 1.0,
            Identity::NegInfinity => f64::NEG_INFINITY,
            Identity::Infinity => f64::INFINITY,
        }
    }

    fn num_num(&self, op: Dyadic, a: f64, b: f64) -> f64 {
        match op {
            Dyadic::Eq => (a == b) as u8 as f64,
            Dyadic::Ne => (a != b) as u8 as f64,
            Dyadic::Add => b + a,
            Dyadic::Sub => b - a,
            Dyadic::Mul => b * a,
            Dyadic::Div => b / a,
            Dyadic::Mod => b.rem_euclid(a),
            Dyadic::Atan => a.atan2(b),
            Dyadic::Max => a.max(b),
            Dyadic::Min => a.min(b),
        }
    }

    fn com_identity(&self, identity: Identity) -> (f64, f64) {
        (self.num_identity(identity), 0.0)
    }

    fn com_x(&self, op: Dyadic, a: (f64, f64), b: (f64, f64)) -> (f64, f64) {
        match op {
            Dyadic::Add => (b.0 + a.0, b.1 + a.1),
            Dyadic::Sub => (b.0 - a.0, b.1 - a.1),
            Dyadic::Mul => (a.0 * b.0 - a.1 * b.1, a.0 * b.1 + a.1 * b.0),
            _ => panic!("not an operation of these tests"),
        }
    }

    fn byte_to_num(&self, byte: u8) -> f64 {
        byte as f64
    }
}

fn array<T: Copy>(shape: &[usize], items: &[T]) -> Array<T> {
    Array::new(shape.to_vec(), CowSlice::new(EcoVec::from(items)))
}

fn parts<T: Clone>(a: &Array<T>) -> (Vec<usize>, Vec<T>) {
    let data = a.data();
    (a.shape().clone(), (0..data.len()).map(|i| data.get(i).clone()).collect())
}

fn nums(shape: &[usize], items: &[f64]) -> V {
    Value::Num(array(shape, items))
}

fn list(items: &[f64]) -> V {
    nums(&[items.len()], items)
}

fn bytes(shape: &[usize], items: &[u8]) -> V {
    Value::Byte(array(shape, items))
}

fn number_parts(v: &V) -> (Vec<usize>, Vec<f64>) {
    match v {
        Value::Num(a) => parts(a),
        _ => panic!("not an array of numbers"),
    }
}

fn env_with(ranks: &[usize], values: Vec<V>) -> Uiua<Desk> {
    let mut env = Uiua::new(desk(Ok(ranks.to_vec())), false);
    for value in values {
        env.push(value);
    }
    env
}

fn function(args: usize, outputs: usize, body: Body) -> Arc<Function<Body>> {
    Arc::new(Function {
        name: "test".to_string(),
        signature: Signature::new(args, outputs),
        primitive: None,
        body,
    })
}

fn primitive(prim: Primitive, flipped: bool) -> Arc<Function<Body>> {
    Arc::new(Function {
        name: "prim".to_string(),
        signature: Signature::new(2, 1),
        primitive: Some((prim, flipped)),
        body: subtract,
    })
}

fn scalar(x: f64) -> V {
    nums(&[], &[x])
}

fn number(stack: &mut Vec<V>) -> f64 {
    let v = stack.pop().unwrap();
    let (shape, items) = number_parts(&v);
    assert!(shape.is_empty());
    items[0]
}

/// Takes two values and leaves the second without the first, item by item.
fn subtract(stack: &mut Vec<V>) -> Result<bool, String> {
    let (shape, a) = number_parts(&stack.pop().unwrap());
    let (_, b) = number_parts(&stack.pop().unwrap());
    let c: Vec<f64> = a.iter().zip(&b).map(|(a, b)| b - a).collect();
    stack.push(nums(&shape, &c));
    Ok(false)
}

/// Adds two numbers and breaks when the sum is over ten.
fn add_to_ten(stack: &mut Vec<V>) -> Result<bool, String> {
    let c = number(stack) + number(stack);
    stack.push(scalar(c));
    Ok(c > 10.0)
}

fn fail(_: &mut Vec<V>) -> Result<bool, String> {
    Err("no".to_string())
}

fn drop_all(stack: &mut Vec<V>) -> Result<bool, String> {
    stack.clear();
    Ok(false)
}

fn unused(_: &mut Vec<V>) -> Result<bool, String> {
    panic!("not to be called")
}

fn reduced(f: Arc<Function<Body>>, xs: V) -> Uiua<Desk> {
    let mut env = env_with(&[], vec![xs]);
    env.push_function(f);
    assert!(can_reduce(&env));
    assert!(reduce(&mut env).is_ok());
    assert!(env.stacks().functions.is_empty());
    env
}

fn scanned(f: Arc<Function<Body>>, xs: V) -> Uiua<Desk> {
    let mut env = env_with(&[], vec![xs]);
    env.push_function(f);
    assert!(can_scan(&env));
    assert!(scan(&mut env).is_ok());
    assert!(env.stacks().functions.is_empty());
    env
}

fn only(env: &Uiua<Desk>) -> (Vec<usize>, Vec<f64>) {
    assert_eq!(env.stack_size(), 1);
    number_parts(&env.stacks().values[0])
}

fn text(r: Result<(), UiuaError<String>>) -> String {
    match r {
        Ok(()) => panic!("no failure"),
        Err(e) => e.message().unwrap(),
    }
}

#[test]
fn numbers_reduce_with_primitives() {
    let xs = || list(&[2.0, 5.0, 12.0]);
    let cases = [
        (Primitive::Add, false, 19.0),
        (Primitive::Add, true, 19.0),
        (Primitive::Sub, false, 9.0),
        (Primitive::Sub, true, -15.0),
        (Primitive::Mul, false, 120.0),
        (Primitive::Mul, true, 120.0),
        (Primitive::Div, false, 12.0 / 2.5),
        (Primitive::Div, true, 0.4 / 12.0),
        (Primitive::Max, false, 12.0),
        (Primitive::Min, true, 2.0),
    ];
    for (prim, flipped, want) in cases {
        assert_eq!(only(&reduced(primitive(prim, flipped), xs())), (vec![], vec![want]));
    }
}

#[test]
fn moduli_and_angles_mind_a_flip() {
    let xs = [5.0, 12.0];
    assert_eq!(only(&reduced(primitive(Primitive::Mod, false), list(&xs))).1, vec![2.0]);
    assert_eq!(only(&reduced(primitive(Primitive::Mod, true), list(&xs))).1, vec![5.0]);
    assert_eq!(
        only(&reduced(primitive(Primitive::Atan, false), list(&xs))).1,
        vec![5.0f64.atan2(12.0)]
    );
    assert_eq!(
        only(&reduced(primitive(Primitive::Atan, true), list(&xs))).1,
        vec![12.0f64.atan2(5.0)]
    );
}

#[test]
fn no_numbers_reduce_to_identities() {
    let cases = [
        (Primitive::Add, 0.0),
        (Primitive::Sub, 0.0),
        (Primitive::Mul, 1.0),
        (Primitive::Div, 1.0),
        (Primitive::Mod, 1.0),
        (Primitive::Atan, 0.0),
        (Primitive::Max, f64::NEG_INFINITY),
        (Primitive::Min, f64::INFINITY),
    ];
    for (prim, want) in cases {
        let f = primitive(prim, false);
        assert_eq!(only(&reduced(f.clone(), list(&[]))), (vec![], vec![want]));
        assert_eq!(only(&reduced(f.clone(), nums(&[0, 2], &[]))), (vec![2], vec![want, want]));
        assert_eq!(only(&reduced(f, bytes(&[0], &[]))), (vec![], vec![want]));
    }
}

#[test]
fn bytes_reduce_to_numbers() {
    let xs = bytes(&[2, 2], &[200, 1, 100, 2]);
    assert_eq!(only(&reduced(primitive(Primitive::Add, false), xs)), (vec![2], vec![300.0, 3.0]));
    let xs = bytes(&[], &[9]);
    assert_eq!(only(&reduced(primitive(Primitive::Max, false), xs)), (vec![], vec![9.0]));
    let xs = bytes(&[2], &[3, 5]);
    assert_eq!(only(&reduced(primitive(Primitive::Sub, true), xs)), (vec![], vec![-2.0]));
}

#[test]
fn complex_numbers_reduce_with_primitives() {
    let xs = || Value::Complex(array(&[2], &[(1.0, 2.0), (3.0, 5.0)]));
    let cases = [
        (Primitive::Add, false, (4.0, 7.0)),
        (Primitive::Sub, false, (2.0, 3.0)),
        (Primitive::Sub, true, (-2.0, -3.0)),
        (Primitive::Mul, false, (-7.0, 11.0)),
    ];
    for (prim, flipped, want) in cases {
        let env = reduced(primitive(prim, flipped), xs());
        match &env.stacks().values[0] {
            Value::Complex(a) => assert_eq!(parts(a), (vec![], vec![want])),
            _ => panic!("not complex"),
        }
    }
    let env = reduced(primitive(Primitive::Mul, false), Value::Complex(array(&[0], &[])));
    match &env.stacks().values[0] {
        Value::Complex(a) => assert_eq!(parts(a), (vec![], vec![(1.0, 0.0)])),
        _ => panic!("not complex"),
    }
}

#[test]
fn reducing_with_join_makes_two_dimensions_one() {
    let xs = nums(&[2, 2, 1], &[1.0, 2.0, 3.0, 4.0]);
    let env = reduced(primitive(Primitive::Join, false), xs);
    assert_eq!(only(&env), (vec![4, 1], vec![1.0, 2.0, 3.0, 4.0]));
    let env = reduced(primitive(Primitive::Join, false), list(&[1.0, 2.0]));
    assert_eq!(only(&env), (vec![2], vec![1.0, 2.0]));
    let env = reduced(primitive(Primitive::Join, false), scalar(3.0));
    assert_eq!(only(&env), (vec![], vec![3.0]));
}

#[test]
fn joining_is_called_when_flipped_or_when_boxes_are_packed() {
    let xs = || nums(&[2, 1], &[1.0, 5.0]);
    let env = reduced(primitive(Primitive::Join, true), xs());
    assert_eq!(only(&env), (vec![1], vec![4.0]));
    let mut env = Uiua::new(desk(Ok(vec![])), true);
    env.push(xs());
    env.push_function(primitive(Primitive::Join, false));
    assert!(reduce(&mut env).is_ok());
    assert!(env.pack_boxes());
    assert_eq!(only(&env), (vec![1], vec![4.0]));
}

#[test]
fn joining_too_many_rows_cannot_be_had() {
    let half = usize::MAX / 2 + 1;
    let mut env = env_with(&[], vec![Value::Num(array(&[half, half, 0], &[]))]);
    env.push_function(primitive(Primitive::Join, false));
    assert!(!can_reduce(&env));
    let mut env = env_with(&[], vec![Value::Num(array(&[0, usize::MAX], &[]))]);
    env.push_function(primitive(Primitive::Add, false));
    assert!(!can_reduce(&env));
    let env = env_with(&[], vec![]);
    assert!(can_reduce(&env) && can_scan(&env));
}

#[test]
fn other_functions_are_called_on_rows() {
    let env = reduced(function(2, 1, subtract), list(&[1.0, 2.0, 10.0]));
    assert_eq!(only(&env), (vec![], vec![9.0]));
    let env = reduced(primitive(Primitive::Other, false), list(&[1.0, 2.0, 10.0]));
    assert_eq!(only(&env), (vec![], vec![9.0]));
    let env = reduced(primitive(Primitive::Eq, false), nums(&[2, 1], &[1.0, 5.0]));
    assert_eq!(only(&env), (vec![1], vec![4.0]));
}

#[test]
fn calling_gives_what_the_primitive_gives() {
    let xs = || nums(&[3, 2], &[1.0, 2.0, 10.0, 20.0, 7.0, 1.0]);
    let by_calls = only(&reduced(function(2, 1, subtract), xs()));
    let by_items = only(&reduced(primitive(Primitive::Sub, false), xs()));
    assert_eq!(by_calls, by_items);
    let by_calls = only(&scanned(function(2, 1, subtract), xs()));
    let by_items = only(&scanned(primitive(Primitive::Sub, false), xs()));
    assert_eq!(by_calls, by_items);
}

#[test]
fn one_row_needs_no_call() {
    let env = reduced(function(2, 1, unused), nums(&[1, 2], &[4.0, 5.0]));
    assert_eq!(only(&env), (vec![2], vec![4.0, 5.0]));
    let env = reduced(function(2, 1, unused), scalar(4.0));
    assert_eq!(only(&env), (vec![], vec![4.0]));
    let env = scanned(function(2, 1, unused), nums(&[1, 2], &[4.0, 5.0]));
    assert_eq!(only(&env), (vec![1, 2], vec![4.0, 5.0]));
}

#[test]
fn a_break_ends_a_reduction() {
    let env = reduced(function(2, 1, add_to_ten), list(&[4.0, 5.0, 6.0, 7.0]));
    assert_eq!(only(&env), (vec![], vec![15.0]));
}

#[test]
fn a_reduction_may_start_with_a_value() {
    let mut env = env_with(&[], vec![]);
    let f = function(2, 1, subtract);
    let r = generic_fold_right_1(f.clone(), list(&[1.0, 2.0]), Some(scalar(100.0)), &mut env);
    assert!(r.is_ok());
    assert_eq!(only(&env), (vec![], vec![101.0]));
    let mut env = env_with(&[], vec![]);
    assert!(generic_fold_right_1(f, list(&[]), Some(scalar(100.0)), &mut env).is_ok());
    assert_eq!(only(&env), (vec![], vec![100.0]));
}

#[test]
fn functions_of_one_value_leave_what_they_give() {
    let double: Body = |stack| {
        let x = number(stack);
        stack.push(scalar(2.0 * x));
        Ok(x > 2.0)
    };
    let env = reduced(function(1, 1, double), list(&[1.0, 2.0]));
    assert_eq!(env.stack_size(), 2);
    assert_eq!(number_parts(&env.stacks().values[0]), (vec![], vec![2.0]));
    assert_eq!(number_parts(&env.stacks().values[1]), (vec![], vec![4.0]));
    let env = reduced(function(1, 1, double), list(&[1.0, 3.0, 4.0]));
    assert_eq!(env.stack_size(), 2);
    assert_eq!(number_parts(&env.stacks().values[1]), (vec![1], vec![6.0]));
    let mut env = env_with(&[], vec![]);
    let r = generic_fold_right_1(function(1, 1, double), list(&[]), Some(scalar(5.0)), &mut env);
    assert!(r.is_ok());
    assert_eq!(only(&env), (vec![1], vec![10.0]));
}

#[test]
fn functions_of_no_values_break_off_with_no_rows() {
    let stop: Body = |_| Ok(true);
    let env = reduced(function(0, 0, stop), list(&[1.0, 2.0]));
    assert_eq!(env.stack_size(), 2);
    assert_eq!(number_parts(&env.stacks().values[0]), (vec![], vec![1.0]));
    assert_eq!(number_parts(&env.stacks().values[1]), (vec![0], vec![]));
}

#[test]
fn breaking_off_without_a_value_fails() {
    let mut env = env_with(&[], vec![]);
    assert!(matches!(
        break_off(1, &mut env),
        Err(UiuaError::EmptyStack(Wanted::ReducedResult))
    ));
    assert!(break_off(0, &mut env).is_ok());
    assert_eq!(only(&env), (vec![0], vec![]));
}

#[test]
fn failures_of_reducing_are_worded() {
    let mut env = env_with(&[], vec![]);
    let f = function(2, 2, unused);
    assert_eq!(
        text(generic_fold_right_1(f, list(&[1.0]), None, &mut env)),
        "Reduce's function must return 0 or 1 values, but test returns 2"
    );
    let f = function(13, 1, unused);
    assert_eq!(
        text(generic_fold_right_1(f, list(&[1.0]), None, &mut env)),
        "Cannot reduce a function that takes 13 arguments"
    );
    let f = function(2, 1, unused);
    assert_eq!(
        text(generic_fold_right_1(f, list(&[]), None, &mut env)),
        "Cannot reduce empty array"
    );
    assert_eq!(env.stack_size(), 0);
}

#[test]
fn failures_of_calls_come_through() {
    let mut env = env_with(&[], vec![]);
    let r = generic_fold_right_1(function(2, 1, fail), list(&[1.0, 2.0]), None, &mut env);
    match r {
        Err(UiuaError::Runtime(e)) => assert_eq!(e, "no"),
        _ => panic!("no failure"),
    }
    assert_eq!(env.stack_size(), 2);
    let mut env = env_with(&[], vec![]);
    let r = generic_fold_right_1(function(1, 1, fail), list(&[1.0, 2.0]), None, &mut env);
    assert!(matches!(r, Err(UiuaError::Runtime(_))));
    let mut env = env_with(&[], vec![]);
    let r = generic_fold_right_1(function(2, 1, drop_all), list(&[1.0, 2.0]), None, &mut env);
    assert!(matches!(r, Err(UiuaError::EmptyStack(Wanted::ReducedResult))));
    let r = generic_scan(function(2, 1, fail), list(&[1.0, 2.0]), &mut env);
    assert!(matches!(r, Err(UiuaError::Runtime(_))));
    let mut env = env_with(&[], vec![]);
    let r = generic_scan(function(2, 1, drop_all), list(&[1.0, 2.0]), &mut env);
    assert!(matches!(r, Err(UiuaError::EmptyStack(Wanted::ScannedResult))));
    let e: UiuaError<String> = UiuaError::Runtime("no".to_string());
    assert!(e.message().is_none());
    let e: UiuaError<String> = UiuaError::EmptyStack(Wanted::Argument(1));
    assert!(e.message().is_none());
}

#[test]
fn missing_functions_and_arguments_are_told() {
    let mut env = env_with(&[1], vec![scalar(1.0)]);
    assert!(matches!(reduce(&mut env), Err(UiuaError::NoFunction)));
    assert!(matches!(scan(&mut env), Err(UiuaError::NoFunction)));
    assert!(matches!(fold(&mut env), Err(UiuaError::NoFunction)));
    assert_eq!(env.stack_size(), 1);
    let mut env = env_with(&[0, 1], vec![]);
    env.push_function(function(2, 1, unused));
    assert!(matches!(reduce(&mut env), Err(UiuaError::EmptyStack(Wanted::Argument(1)))));
    env.push_function(function(2, 1, unused));
    assert!(matches!(scan(&mut env), Err(UiuaError::EmptyStack(Wanted::Argument(1)))));
    env.push(scalar(1.0));
    env.push_function(function(2, 1, unused));
    assert!(matches!(fold(&mut env), Err(UiuaError::EmptyStack(Wanted::Argument(2)))));
    assert_eq!(env.stack_size(), 0);
    assert!(env.stacks().functions.is_empty());
    let e: UiuaError<String> = UiuaError::NoFunction;
    assert!(e.message().is_none());
}

#[test]
fn numbers_scan_with_primitives() {
    let xs = || list(&[2.0, 5.0, 3.0]);
    let cases = [
        (Primitive::Add, false, vec![2.0, 7.0, 10.0]),
        (Primitive::Sub, false, vec![2.0, 3.0, 0.0]),
        (Primitive::Sub, true, vec![2.0, -3.0, -6.0]),
        (Primitive::Mul, true, vec![2.0, 10.0, 30.0]),
        (Primitive::Div, false, vec![2.0, 2.5, 3.0 / 2.5]),
        (Primitive::Div, true, vec![2.0, 0.4, 0.4 / 3.0]),
        (Primitive::Mod, false, vec![2.0, 1.0, 0.0]),
        (Primitive::Mod, true, vec![2.0, 2.0, 2.0]),
        (Primitive::Atan, false, vec![2.0, 2f64.atan2(5.0), 2f64.atan2(5.0).atan2(3.0)]),
        (Primitive::Max, false, vec![2.0, 5.0, 5.0]),
        (Primitive::Min, false, vec![2.0, 2.0, 2.0]),
        (Primitive::Eq, false, vec![2.0, 0.0, 0.0]),
        (Primitive::Ne, false, vec![2.0, 1.0, 1.0]),
    ];
    for (prim, flipped, want) in cases {
        assert_eq!(only(&scanned(primitive(prim, flipped), xs())), (vec![3], want));
    }
}

#[test]
fn bytes_scan_to_bytes_or_to_numbers() {
    let xs = || bytes(&[3], &[2, 200, 200]);
    let cases = [
        (Primitive::Eq, vec![2, 0, 0]),
        (Primitive::Ne, vec![2, 1, 1]),
        (Primitive::Max, vec![2, 200, 200]),
        (Primitive::Min, vec![2, 2, 2]),
    ];
    for (prim, want) in cases {
        let env = scanned(primitive(prim, false), xs());
        match &env.stacks().values[0] {
            Value::Byte(a) => assert_eq!(parts(a), (vec![3], want)),
            _ => panic!("not bytes"),
        }
    }
    let env = scanned(primitive(Primitive::Add, false), xs());
    assert_eq!(only(&env), (vec![3], vec![2.0, 202.0, 402.0]));
    let env = scanned(primitive(Primitive::Sub, true), xs());
    assert_eq!(only(&env), (vec![3], vec![2.0, -198.0, -398.0]));
}

#[test]
fn scalars_do_not_scan() {
    let mut env = env_with(&[], vec![scalar(1.0)]);
    env.push_function(primitive(Primitive::Add, false));
    assert_eq!(text(scan(&mut env)), "Cannot scan rank 0 array");
    assert_eq!(env.stack_size(), 0);
}

#[test]
fn scans_ask_for_two_arguments_and_one_output() {
    let mut env = env_with(&[], vec![]);
    assert_eq!(
        text(generic_scan(function(1, 20, unused), list(&[1.0]), &mut env)),
        "Scan's function's signature must be |2.1, but it is |1.20"
    );
}

#[test]
fn scanning_no_rows_by_calls_gives_the_value_back() {
    let env = scanned(function(2, 1, unused), nums(&[0, 3], &[]));
    assert_eq!(only(&env), (vec![0, 3], vec![]));
}

#[test]
fn a_break_ends_a_scan_and_keeps_the_other_rows() {
    let f = function(2, 1, add_to_ten);
    let env = scanned(f.clone(), list(&[4.0, 5.0, 6.0, 7.0, 8.0]));
    assert_eq!(only(&env), (vec![5], vec![4.0, 9.0, 15.0, 7.0, 8.0]));
    let reduction = only(&reduced(f.clone(), list(&[4.0, 5.0, 6.0, 7.0, 8.0]))).1[0];
    assert_eq!(only(&env).1[2], reduction);
    let env = scanned(f, list(&[1.0, 2.0, 3.0]));
    assert_eq!(only(&env), (vec![3], vec![1.0, 3.0, 6.0]));
}

#[test]
fn a_break_drops_what_a_scan_left_on_the_stack() {
    let litter: Body = |stack| {
        let c = number(stack) + number(stack);
        stack.push(scalar(77.0));
        stack.push(scalar(c));
        Ok(true)
    };
    let env = scanned(function(2, 1, litter), list(&[1.0, 2.0, 3.0]));
    assert_eq!(only(&env), (vec![3], vec![1.0, 3.0, 3.0]));
}

#[test]
fn rows_that_cannot_be_put_together_fail() {
    let grow: Body = |stack| {
        let _ = stack.pop();
        let _ = stack.pop();
        stack.push(list(&[1.0, 2.0]));
        Ok(false)
    };
    let mut env = env_with(&[], vec![]);
    let r = generic_scan(function(2, 1, grow), list(&[1.0, 2.0]), &mut env);
    match r {
        Err(UiuaError::Runtime(e)) => assert_eq!(e, "rows differ"),
        _ => panic!("no failure"),
    }
}

#[test]
fn what_a_call_gave_decides_how_loops_go_on() {
    let mut env = env_with(&[], vec![scalar(1.0), scalar(2.0)]);
    match accumulate(Ok(false), &mut env) {
        Step::Go((), v) => assert_eq!(number_parts(&v).1, vec![2.0]),
        Step::Stop(..) => panic!("stopped"),
    }
    match accumulate(Ok(true), &mut env) {
        Step::Stop((), Ok(v)) => assert_eq!(number_parts(&v).1, vec![1.0]),
        _ => panic!("went on"),
    }
    match accumulate(Ok(true), &mut env) {
        Step::Stop((), Err(UiuaError::EmptyStack(Wanted::ReducedResult))) => {}
        _ => panic!("found a value"),
    }
    match accumulate(Err("no".to_string()), &mut env) {
        Step::Stop((), Err(UiuaError::Runtime(e))) => assert_eq!(e, "no"),
        _ => panic!("went on"),
    }
    let xs = list(&[5.0, 6.0, 7.0]);
    let mut env = env_with(&[], vec![scalar(0.0), scalar(1.0), scalar(2.0)]);
    match scan_on(Ok(true), &xs, 1, vec![scalar(5.0)], 1, &mut env) {
        Step::Stop((), Ok(list)) => {
            let items: Vec<f64> = list.iter().map(|v| number_parts(v).1[0]).collect();
            assert_eq!(items, vec![5.0, 2.0, 7.0]);
        }
        _ => panic!("went on"),
    }
    assert_eq!(env.stack_size(), 1);
    let mut env = env_with(&[], vec![scalar(0.0), scalar(1.0), scalar(2.0)]);
    match fold_on(Ok(false), 2, &mut env) {
        Step::Go((), accs) => {
            let items: Vec<f64> = accs.iter().map(|v| number_parts(v).1[0]).collect();
            assert_eq!(items, vec![2.0, 1.0]);
        }
        Step::Stop(..) => panic!("stopped"),
    }
    match fold_on(Ok(false), 2, &mut env) {
        Step::Stop((), Err(UiuaError::EmptyStack(Wanted::FoldedResult))) => {}
        _ => panic!("found two values"),
    }
    assert_eq!(env.stack_size(), 0);
    assert!(matches!(place::<Desk>(Err("no".to_string()), &mut env), Err(UiuaError::Runtime(_))));
    assert!(place::<Desk>(Ok(scalar(3.0)), &mut env).is_ok());
    assert_eq!(only(&env), (vec![], vec![3.0]));
}

fn folded(ranks: &[usize], f: Arc<Function<Body>>, args: Vec<V>) -> Uiua<Desk> {
    let mut args = args;
    args.reverse();
    let mut env = env_with(ranks, args);
    env.push_function(f);
    assert!(fold(&mut env).is_ok());
    assert!(env.stacks().functions.is_empty());
    env
}

#[test]
fn folding_an_accumulator_is_reducing_from_it() {
    let f = function(2, 1, subtract);
    let env = folded(&[0, 1], f.clone(), vec![scalar(100.0), list(&[1.0, 2.0, 10.0])]);
    let mut other = env_with(&[], vec![]);
    let r =
        generic_fold_right_1(f, list(&[1.0, 2.0, 10.0]), Some(scalar(100.0)), &mut other);
    assert!(r.is_ok());
    assert_eq!(only(&env), (vec![], vec![-91.0]));
    assert_eq!(only(&env), only(&other));
}

#[test]
fn folding_carries_accumulators_in_order() {
    let step: Body = |stack| {
        let x = number(stack);
        let sum = number(stack);
        let count = number(stack);
        stack.push(scalar(count + 1.0));
        stack.push(scalar(sum * 10.0 + x));
        Ok(false)
    };
    let args = vec![list(&[1.0, 2.0, 3.0]), scalar(0.0), scalar(5.0)];
    let env = folded(&[1, 0, 0], function(3, 2, step), args);
    assert_eq!(env.stack_size(), 2);
    assert_eq!(number_parts(&env.stacks().values[1]), (vec![], vec![123.0]));
    assert_eq!(number_parts(&env.stacks().values[0]), (vec![], vec![8.0]));
}

#[test]
fn folding_two_arrays_goes_row_by_row() {
    let dot: Body = |stack| {
        let acc = number(stack);
        let x = number(stack);
        let y = number(stack);
        stack.push(scalar(acc + x * y));
        Ok(acc > 50.0)
    };
    let args = || vec![scalar(0.0), list(&[1.0, 2.0, 3.0]), list(&[4.0, 5.0, 6.0])];
    let env = folded(&[0, 1, 1], function(3, 1, dot), args());
    assert_eq!(only(&env), (vec![], vec![32.0]));
    let args = vec![scalar(60.0), list(&[1.0, 2.0, 3.0]), list(&[4.0, 5.0, 6.0])];
    let env = folded(&[0, 1, 1], function(3, 1, dot), args);
    assert_eq!(only(&env), (vec![], vec![64.0]));
}

#[test]
fn folding_deeper_goes_through_the_rows_of_rows() {
    let env = folded(
        &[0, 2],
        function(2, 1, subtract),
        vec![scalar(0.0), nums(&[2, 2], &[1.0, 2.0, 3.0, 10.0])],
    );
    assert_eq!(only(&env), (vec![], vec![8.0]));
}

#[test]
fn folding_to_different_depths_meets_each_row_with_rows_of_rows() {
    let append: Body = |stack| {
        let acc = number(stack);
        let x = number(stack);
        stack.push(scalar(acc * 100.0 + x));
        Ok(false)
    };
    let mut env = env_with(&[], vec![]);
    let args = vec![list(&[1.0, 2.0]), nums(&[2, 2], &[3.0, 4.0, 5.0, 6.0])];
    let r = fold_recursive(&function(2, 1, append), args, &vec![1, 2], &mut env);
    let items: Vec<f64> = r.ok().unwrap().iter().map(|v| number_parts(v).1[0]).collect();
    assert_eq!(items, vec![20506.0]);
    assert_eq!(env.stack_size(), 0);
}

#[test]
fn values_beyond_the_depths_are_carried_where_nothing_is_called() {
    let mut env = env_with(&[], vec![]);
    let args = vec![scalar(1.0), nums(&[0, 2], &[]), scalar(9.0)];
    let r = fold_recursive(&function(2, 1, unused), args, &vec![0, 2], &mut env);
    let items: Vec<f64> = r.ok().unwrap().iter().map(|v| number_parts(v).1[0]).collect();
    assert_eq!(items, vec![1.0, 9.0]);
}

#[test]
fn folding_accumulators_alone_changes_nothing() {
    let args = vec![scalar(1.0), list(&[2.0, 3.0])];
    let env = folded(&[0, 0], function(7, 7, unused), args);
    assert_eq!(env.stack_size(), 2);
    assert_eq!(number_parts(&env.stacks().values[1]), (vec![], vec![1.0]));
    assert_eq!(number_parts(&env.stacks().values[0]), (vec![2], vec![2.0, 3.0]));
}

#[test]
fn folding_over_no_rows_gives_the_accumulators() {
    let env = folded(&[0, 1], function(2, 1, unused), vec![scalar(1.0), list(&[])]);
    assert_eq!(only(&env), (vec![], vec![1.0]));
    let env = folded(&[0, 2], function(2, 1, unused), vec![scalar(1.0), nums(&[0, 2], &[])]);
    assert_eq!(only(&env), (vec![], vec![1.0]));
}

#[test]
fn folding_arrays_of_different_lengths_is_refused() {
    let f = function(3, 0, unused);
    let mut env = env_with(&[], vec![]);
    let args = vec![list(&[1.0]), list(&[2.0]), nums(&[2, 3], &[0.0; 6])];
    let r = fold_recursive(&f, args, &vec![1, 1, 1], &mut env);
    let e = r.err().unwrap();
    assert_eq!(e.message().unwrap(), "Cannot fold arrays with shapes [1] and [2 × 3]");
    let args = vec![nums(&[1, 4], &[0.0; 4]), list(&[2.0]), nums(&[12, 3], &[0.0; 36])];
    let r = fold_recursive(&f, args, &vec![1, 1, 2], &mut env);
    let e = r.err().unwrap();
    assert_eq!(e.message().unwrap(), "Cannot fold arrays with shapes [1 × 4] and [12 × 3]");
    let args = vec![scalar(0.0), list(&[1.0, 2.0])];
    let r = fold_recursive(&f, args, &vec![1, 1], &mut env);
    let e = r.err().unwrap();
    assert_eq!(e.message().unwrap(), "Cannot fold arrays with shapes [] and [2]");
}

#[test]
fn folding_asks_for_a_matching_signature() {
    let mut env = env_with(&[0, 1], vec![list(&[1.0]), scalar(0.0)]);
    env.push_function(function(2, 2, unused));
    assert_eq!(
        text(fold(&mut env)),
        "Fold's function's signature is |2.2, but its rank lists suggests a signature of |2.1"
    );
}

#[test]
fn failures_of_folding_come_through() {
    let mut env = env_with(&[0, 1], vec![list(&[1.0]), scalar(0.0)]);
    env.push_function(function(2, 1, fail));
    assert!(matches!(fold(&mut env), Err(UiuaError::Runtime(_))));
    let mut env = env_with(&[0, 1], vec![list(&[1.0]), scalar(0.0)]);
    env.push_function(function(2, 1, drop_all));
    assert!(matches!(fold(&mut env), Err(UiuaError::EmptyStack(Wanted::FoldedResult))));
    let mut env = env_with(&[0, 2], vec![nums(&[1, 1], &[1.0]), scalar(0.0)]);
    env.push_function(function(2, 1, fail));
    assert!(matches!(fold(&mut env), Err(UiuaError::Runtime(_))));
    let mut env = Uiua::new(desk(Err("no ranks".to_string())), false);
    match fold(&mut env) {
        Err(UiuaError::Runtime(e)) => assert_eq!(e, "no ranks"),
        _ => panic!("found ranks"),
    }
}

#[test]
fn rank_lists_may_be_handed_in() {
    let mut env = env_with(&[], vec![list(&[1.0, 2.0]), scalar(10.0)]);
    env.push_function(function(2, 1, subtract));
    assert!(fold_by_ranks(&vec![0, 1], &mut env).is_ok());
    assert_eq!(only(&env), (vec![], vec![11.0]));
}

#[test]
fn boxes_and_characters_are_called_on() {
    let second: Body = |stack| {
        let _ = stack.pop();
        Ok(false)
    };
    let env = reduced(
        function(2, 1, second),
        Value::Char(array(&[3], &['a', 'b', 'c'])),
    );
    match &env.stacks().values[0] {
        Value::Char(a) => assert_eq!(parts(a), (vec![], vec!['c'])),
        _ => panic!("not characters"),
    }
    let boxes: Vec<String> = vec!["x".to_string(), "y".to_string()];
    let xs = Value::Boxed(Array::new(vec![2], CowSlice::new(EcoVec::from(boxes))));
    let env = reduced(function(2, 1, second), xs);
    match &env.stacks().values[0] {
        Value::Boxed(a) => assert_eq!(parts(a), (vec![], vec!["y".to_string()])),
        _ => panic!("not boxes"),
    }
}

#[test]
fn calls_that_mind_their_signature_leave_the_stack_alone() {
    let mut env = env_with(&[0, 1], vec![scalar(42.0), list(&[1.0, 2.0, 4.0])]);
    env.push_function(function(2, 1, subtract));
    assert!(reduce(&mut env).is_ok());
    assert_eq!(env.stack_size(), 2);
    assert_eq!(number_parts(&env.stacks().values[0]), (vec![], vec![42.0]));
    assert_eq!(number_parts(&env.stacks().values[1]), (vec![], vec![3.0]));
    env.push(list(&[1.0, 2.0, 4.0]));
    env.push_function(function(2, 1, subtract));
    assert!(scan(&mut env).is_ok());
    assert_eq!(env.stack_size(), 3);
    assert_eq!(number_parts(&env.stacks().values[2]), (vec![3], vec![1.0, 1.0, 3.0]));
    env.push(scalar(0.0));
    env.push_function(function(2, 1, subtract));
    assert!(fold(&mut env).is_ok());
    assert_eq!(env.stack_size(), 3);
    assert_eq!(number_parts(&env.stacks().values[1]), (vec![], vec![3.0]));
    assert_eq!(number_parts(&env.stacks().values[2]), (vec![], vec![3.0]));
}

#[test]
fn a_scan_has_as_many_rows_as_the_value() {
    for n in 1..6 {
        let items: Vec<f64> = (0..n).map(|i| 3.0 * i as f64).collect();
        let env = scanned(function(2, 1, add_to_ten), list(&items));
        assert_eq!(only(&env).0, vec![n]);
    }
}

/// An environment, and the number of calls made in it.
fn counted(ranks: &[usize], values: Vec<V>, f: Arc<Function<Body>>) -> (Uiua<Desk>, Rc<Cell<usize>>) {
    let desk = desk(Ok(ranks.to_vec()));
    let calls = desk.calls.clone();
    let mut env = Uiua::new(desk, false);
    for value in values {
        env.push(value);
    }
    env.push_function(f);
    (env, calls)
}

#[test]
fn functions_are_called_once_per_row() {
    let f = || function(2, 1, subtract);
    let (mut env, calls) = counted(&[], vec![list(&[1.0, 2.0, 3.0, 4.0])], f());
    assert!(reduce(&mut env).is_ok());
    assert_eq!(calls.get(), 3);
    let (mut env, calls) = counted(&[], vec![list(&[1.0, 2.0, 3.0, 4.0])], f());
    assert!(scan(&mut env).is_ok());
    assert_eq!(calls.get(), 3);
    let (mut env, calls) = counted(&[0, 1], vec![list(&[1.0, 2.0, 3.0]), scalar(0.0)], f());
    assert!(fold(&mut env).is_ok());
    assert_eq!(calls.get(), 3);
    let deep = vec![nums(&[2, 3], &[1.0; 6]), scalar(0.0)];
    let (mut env, calls) = counted(&[0, 2], deep, f());
    assert!(fold(&mut env).is_ok());
    assert_eq!(calls.get(), 6);
    let keep: Body = |_| Ok(false);
    let (mut env, calls) = counted(&[], vec![list(&[1.0, 2.0, 3.0])], function(1, 1, keep));
    assert!(reduce(&mut env).is_ok());
    assert_eq!(calls.get(), 3);
    let stop = vec![list(&[4.0, 5.0, 6.0, 7.0])];
    let (mut env, calls) = counted(&[], stop, function(2, 1, add_to_ten));
    assert!(reduce(&mut env).is_ok());
    assert_eq!(calls.get(), 2);
}

#[test]
fn primitives_and_single_rows_are_not_called() {
    let cases = [
        (primitive(Primitive::Add, false), list(&[1.0, 2.0])),
        (primitive(Primitive::Join, false), list(&[1.0, 2.0])),
        (function(2, 1, subtract), list(&[1.0])),
    ];
    for (f, xs) in cases {
        let (mut env, calls) = counted(&[], vec![xs], f);
        assert!(reduce(&mut env).is_ok());
        assert_eq!(calls.get(), 0);
    }
}

#[test]
fn flipping_swaps_two_numbers() {
    for prim in [Primitive::Sub, Primitive::Div, Primitive::Mod, Primitive::Atan] {
        let flipped = only(&reduced(primitive(prim, true), list(&[7.0, 3.0])));
        let plain = only(&reduced(primitive(prim, false), list(&[3.0, 7.0])));
        assert_eq!(flipped, plain);
        let flipped = only(&scanned(primitive(prim, true), list(&[7.0, 3.0]))).1;
        let plain = only(&scanned(primitive(prim, false), list(&[3.0, 7.0]))).1;
        assert_eq!((flipped[0], plain[0]), (7.0, 3.0));
        assert_eq!(flipped[1], plain[1]);
    }
    for prim in [Primitive::Add, Primitive::Mul, Primitive::Max, Primitive::Min] {
        let xs = || list(&[7.0, 3.0, 5.0]);
        let flipped = only(&reduced(primitive(prim, true), xs()));
        assert_eq!(flipped, only(&reduced(primitive(prim, false), xs())));
        let flipped = only(&scanned(primitive(prim, true), xs()));
        assert_eq!(flipped, only(&scanned(primitive(prim, false), xs())));
    }
}

#[test]
fn bytes_give_what_their_numbers_give() {
    let xs = || bytes(&[3, 2], &[3, 200, 3, 100, 5, 100]);
    let ys = || nums(&[3, 2], &[3.0, 200.0, 3.0, 100.0, 5.0, 100.0]);
    for prim in [Primitive::Add, Primitive::Sub, Primitive::Max, Primitive::Min] {
        let f = || primitive(prim, true);
        assert_eq!(only(&reduced(f(), xs())), only(&reduced(f(), ys())));
    }
    for prim in [Primitive::Eq, Primitive::Ne, Primitive::Max, Primitive::Min] {
        let f = || primitive(prim, false);
        let env = scanned(f(), xs());
        let (shape, items) = match &env.stacks().values[0] {
            Value::Byte(a) => parts(a),
            _ => panic!("not bytes"),
        };
        let items: Vec<f64> = items.iter().map(|b| *b as f64).collect();
        assert_eq!((shape, items), only(&scanned(f(), ys())));
    }
    for prim in [Primitive::Add, Primitive::Mul] {
        let f = || primitive(prim, false);
        assert_eq!(only(&scanned(f(), xs())), only(&scanned(f(), ys())));
    }
}

#[test]
fn scans_begin_with_the_scans_of_first_rows() {
    let items = [3.0, 1.0, 4.0, 1.0, 5.0, 9.0, 2.0, 6.0];
    let f = || primitive(Primitive::Sub, true);
    let whole = only(&scanned(f(), nums(&[4, 2], &items))).1;
    for k in 1..5 {
        let first = only(&scanned(f(), nums(&[k, 2], &items[..2 * k])));
        assert_eq!(first, (vec![k, 2], whole[..2 * k].to_vec()));
    }
    let last = only(&reduced(f(), nums(&[4, 2], &items)));
    assert_eq!(last, (vec![2], whole[6..].to_vec()));
}

#[test]
fn scans_by_calls_start_and_end_as_they_should() {
    let xs = || nums(&[3, 2], &[3.0, 1.0, 4.0, 1.0, 5.0, 9.0]);
    let f = || function(2, 1, subtract);
    let (shape, items) = only(&scanned(f(), xs()));
    assert_eq!(shape, vec![3, 2]);
    assert_eq!(items[..2], [3.0, 1.0]);
    assert_eq!((vec![2], items[4..].to_vec()), only(&reduced(f(), xs())));
}
