use clarity::callstack::{CallError, CallStack, MAX_CALL_STACK_DEPTH};

#[test]
fn recursion_into_a_running_user_function_is_refused() {
    let mut s = CallStack::new();
    s.enter(b"foo", true).unwrap();
    s.enter(b"+", false).unwrap();
    assert_eq!(s.enter(b"foo", true), Err(CallError::CircularReference));
    // natives are not tracked
    s.enter(b"+", false).unwrap();
    assert!(s.contains(b"foo"));
    assert!(!s.contains(b"+"));
    assert_eq!(s.depth(), 3);
}

#[test]
fn depth_is_bounded() {
    let mut s = CallStack::new();
    for _ in 0..MAX_CALL_STACK_DEPTH {
        s.enter(b"f", false).unwrap();
    }
    assert_eq!(s.enter(b"f", false), Err(CallError::MaxStackDepthReached));
    assert_eq!(s.depth(), 64);
}

#[test]
fn calls_end_innermost_first() {
    let mut s = CallStack::new();
    s.enter(b"a", true).unwrap();
    s.enter(b"b", true).unwrap();
    assert_eq!(s.exit(b"a"), Err(CallError::BadFunctionName));
    s.exit(b"b").unwrap();
    s.exit(b"a").unwrap();
    assert_eq!(s.exit(b"a"), Err(CallError::BadFunctionName));
    s.enter(b"a", true).unwrap();
}
