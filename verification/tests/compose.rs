use hfthot_lab_core::functional::compose::{chain, chain3, compose, identity, pipe, pipe3, retry, tap, tap_err, tap_ok};

#[test]
fn pipe_two_functions() {
    let double = |x: i32| x * 2;
    let inc = |x: i32| x + 1;
    let f = pipe(double, inc);
    assert_eq!(f(5), 11);
}

#[test]
fn pipe3_three_functions() {
    let f = pipe3(|x: i32| x + 1, |x| x * 2, |x| x - 3);
    assert_eq!(f(5), 9); // (5+1)*2 - 3 = 9
}

#[test]
fn compose_mathematical_order() {
    let double = |x: i32| x * 2;
    let inc = |x: i32| x + 1;
    // compose(f, g)(x) = f(g(x)) = double(inc(5)) = 12
    let f = compose(double, inc);
    assert_eq!(f(5), 12);
}

#[test]
fn chain_success_path() {
    let f = |x: i32| -> Result<i32, &str> { Ok(x + 1) };
    let g = |x: i32| -> Result<i32, &str> { Ok(x * 2) };
    let pipeline = chain(f, g);
    assert_eq!(pipeline(5), Ok(12));
}

#[test]
fn chain_error_path() {
    let f = |_x: i32| -> Result<i32, &str> { Err("boom") };
    let g = |x: i32| -> Result<i32, &str> { Ok(x * 2) };
    let pipeline = chain(f, g);
    assert!(pipeline(5).is_err());
}

#[test]
fn identity_returns_input() {
    assert_eq!(identity(42), 42);
    assert_eq!(identity("hello"), "hello");
}

#[test]
fn retry_succeeds_on_third_attempt() {
    let result: Result<i32, &str> = retry(5, |attempt| {
        if attempt < 2 {
            Err("not yet")
        } else {
            Ok(100)
        }
    });
    assert_eq!(result, Ok(100));
}

#[test]
fn retry_fails_after_exhausting_attempts() {
    let result: Result<i32, &str> = retry(2, |_| Err("always fails"));
    assert_eq!(result, Err("always fails"));
}

#[test]
fn tap_ok_runs_side_effect() {
    let mut observed = 0;
    let r: Result<i32, &str> = Ok(42);
    let _ = tap_ok(r, |v| observed = *v);
    assert_eq!(observed, 42);
}

#[test]
fn tap_ok_skips_on_err() {
    let mut observed = 0;
    let r: Result<i32, &str> = Err("oops");
    let _ = tap_ok(r, |v| observed = *v);
    assert_eq!(observed, 0);
}

// ── further cases ───────────────────────────────────────────────────────────

#[test]
fn pipe_and_compose_agree_on_reversed_arguments() {
    let double = |x: f64| x * 2.0;
    let inc = |x: f64| x + 1.0;
    assert_eq!(pipe(double, inc)(5.0), 11.0);
    assert_eq!(compose(inc, double)(5.0), 11.0);
}

#[test]
fn chain_stops_before_second_stage() {
    let calls = std::cell::Cell::new(0);
    let f = |_x: i32| -> Result<i32, &str> { Err("boom") };
    let g = |x: i32| -> Result<i32, &str> {
        calls.set(calls.get() + 1);
        Ok(x * 2)
    };
    assert_eq!(chain(f, g)(5), Err("boom"));
    assert_eq!(calls.get(), 0);
}

#[test]
fn chain3_runs_all_stages() {
    let f = |x: i32| -> Result<i32, String> { Ok(x + 1) };
    let g = |x: i32| -> Result<i32, String> { Ok(x * 2) };
    let h = |x: i32| -> Result<i32, String> { Ok(x - 3) };
    assert_eq!(chain3(f, g, h)(5), Ok(9));
}

#[test]
fn chain3_forwards_middle_error() {
    let f = |x: i32| -> Result<i32, String> { Ok(x + 1) };
    let g = |_x: i32| -> Result<i32, String> { Err("middle".to_string()) };
    let h = |x: i32| -> Result<i32, String> { Ok(x - 3) };
    assert_eq!(chain3(f, g, h)(5), Err("middle".to_string()));
}

#[test]
fn retry_passes_attempt_indices_in_order() {
    let seen = std::cell::RefCell::new(Vec::new());
    let result: Result<usize, usize> = retry(4, |attempt| {
        seen.borrow_mut().push(attempt);
        Err(attempt)
    });
    assert_eq!(result, Err(3));
    assert_eq!(*seen.borrow(), vec![0, 1, 2, 3]);
}

#[test]
fn retry_returns_first_success_without_further_attempts() {
    let calls = std::cell::Cell::new(0);
    let result: Result<usize, &str> = retry(10, |attempt| {
        calls.set(calls.get() + 1);
        Ok(attempt)
    });
    assert_eq!(result, Ok(0));
    assert_eq!(calls.get(), 1);
}

#[test]
fn tap_runs_side_effect_on_reference() {
    let seen = std::cell::Cell::new(0.0);
    let logged = tap(|x: &f64| seen.set(*x));
    logged(&42.0);
    assert_eq!(seen.get(), 42.0);
}

#[test]
fn tap_err_returns_result_unchanged() {
    let mut observed = String::new();
    let r: Result<i32, String> = Err("bad".to_string());
    let out = tap_err(r, |e| observed = e.clone());
    assert_eq!(out, Err("bad".to_string()));
    assert_eq!(observed, "bad");

    let mut touched = false;
    let ok: Result<i32, String> = Ok(7);
    assert_eq!(tap_err(ok, |_| touched = true), Ok(7));
    assert!(!touched);
}

#[test]
fn tap_ok_returns_result_unchanged() {
    let r: Result<i32, &str> = Ok(42);
    assert_eq!(tap_ok(r, |_| {}), Ok(42));
}
