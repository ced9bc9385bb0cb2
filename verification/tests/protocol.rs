use uffi::Args;
use uffi::CallError;
use uffi::ForeignFunction;
use uffi::Value;
use uffi::ARGS_ENV;
use uffi::SOCKET_ENV;

#[test]
fn args_drain_front_to_back() {
    let mut a = Args::from_json("[1, 2, 3]").unwrap();
    assert_eq!(a.remaining(), 3);
    assert_eq!(a.next(), Some(Value::Integer(1)));
    assert_eq!(a.next(), Some(Value::Integer(2)));
    assert_eq!(a.next(), Some(Value::Integer(3)));
    assert_eq!(a.next(), None);
    assert_eq!(a.remaining(), 0);
}

#[test]
fn args_drain_back_to_front() {
    let mut a = Args::from_json("[1, 2, 3]").unwrap();
    assert_eq!(a.next_back(), Some(Value::Integer(3)));
    assert_eq!(a.next_back(), Some(Value::Integer(2)));
    assert_eq!(a.next_back(), Some(Value::Integer(1)));
    assert_eq!(a.next_back(), None);
}

#[test]
fn args_drain_both_ends() {
    let mut a = Args::from_json("[1, 2, 3]").unwrap();
    assert_eq!(a.next(), Some(Value::Integer(1)));
    assert_eq!(a.next_back(), Some(Value::Integer(3)));
    assert_eq!(a.next(), Some(Value::Integer(2)));
    assert_eq!(a.next(), None);
    assert_eq!(a.next_back(), None);
}

#[test]
fn args_nth_back_consumes_what_it_skips() {
    let mut a = Args::from_json("[1, 2, 3]").unwrap();
    assert_eq!(a.nth_back(1), Some(Value::Integer(2)));
    assert_eq!(a.remaining(), 1);
    assert_eq!(a.next(), Some(Value::Integer(1)));
    let mut b = Args::from_json("[1, 2]").unwrap();
    assert_eq!(b.nth_back(5), None);
    assert_eq!(b.remaining(), 0);
}

#[test]
fn args_from_json_rejects_non_arrays() {
    assert!(Args::from_json("3").is_none());
    assert!(Args::from_json("{\"a\": 1}").is_none());
    assert!(Args::from_json("nonsense").is_none());
}

#[test]
fn args_round_trip_through_array_text() {
    let sent = [Value::Integer(7), Value::String(String::from("door"))];
    let text = Value::as_json(&sent);
    let mut a = Args::from_json(&text).unwrap();
    assert_eq!(a.next(), Some(Value::Integer(7)));
    assert_eq!(a.next(), Some(Value::String(String::from("door"))));
    assert_eq!(a.next(), None);
}

#[test]
fn plan_lays_out_the_call() {
    let f = ForeignFunction::new("python");
    let plan = f.plan(&[Value::Integer(7), Value::String(String::from("x"))], 42);
    assert_eq!(plan.program, "python");
    assert_eq!(plan.argv, vec![String::from("7"), String::from("\"x\"")]);
    assert_eq!(plan.env_args, "[7, \"x\", ]");
    assert_eq!(plan.socket_path, "/tmp/uffi_42");
}

#[test]
fn distinct_pids_get_distinct_socket_paths() {
    let f = ForeignFunction::new("prog");
    let p1 = f.plan(&[], 1).socket_path;
    let p2 = f.plan(&[], 2).socket_path;
    assert_ne!(p1, p2);
    assert_eq!(p1, "/tmp/uffi_1");
    assert_eq!(p2, "/tmp/uffi_2");
}

#[test]
fn finish_decodes_the_reply() {
    let f = ForeignFunction::new("prog");
    assert_eq!(f.finish("77"), Ok(Value::Integer(77)));
    assert_eq!(f.finish("not a value"), Err(CallError::Decode));
}

#[test]
fn environment_entry_names_are_stable() {
    assert_eq!(ARGS_ENV, "UFFI_ARGS");
    assert_eq!(SOCKET_ENV, "UFFI_SOCKET");
}

#[test]
fn new_keeps_the_routine_name() {
    let f = ForeignFunction::new("some/path/to/tool");
    assert_eq!(f.name, "some/path/to/tool");
}

#[test]
fn args_nth_back_zero_acts_like_next_back() {
    let mut a = Args::from_json("[1, 2, 3]").unwrap();
    assert_eq!(a.nth_back(0), Some(Value::Integer(3)));
    assert_eq!(a.remaining(), 2);
    assert_eq!(a.nth_back(0), Some(Value::Integer(2)));
    assert_eq!(a.nth_back(0), Some(Value::Integer(1)));
    assert_eq!(a.nth_back(0), None);
}
