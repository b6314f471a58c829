use std::time::Instant;
use walleye::utils::{clean_input, out_of_time, trim_newline};

#[test]
fn trim_windows() {
    let mut word = "hello\r\n".to_string();
    trim_newline(&mut word);
    assert_eq!("hello", word);
}

#[test]
fn trim_linux() {
    let mut word = "hello\n".to_string();
    trim_newline(&mut word);
    assert_eq!("hello", word);
}

#[test]
fn clean_string() {
    assert_eq!(clean_input("   debug     on  \n"), "debug on");
    assert_eq!(clean_input("\t  debug \t  \t\ton\t  \n"), "debug on");
}

#[test]
fn trim_keeps_other_endings() {
    let mut word = "hello\r".to_string();
    trim_newline(&mut word);
    assert_eq!("hello\r", word);
    let mut word = "hello\n\n".to_string();
    trim_newline(&mut word);
    assert_eq!("hello\n", word);
    let mut word = String::new();
    trim_newline(&mut word);
    assert_eq!("", word);
}

#[test]
fn clean_edge_cases() {
    assert_eq!(clean_input(""), "");
    assert_eq!(clean_input(" \t\n "), "");
    assert_eq!(clean_input("go"), "go");
    assert_eq!(clean_input("a\u{3000}b"), "a b");
}

#[test]
fn no_time_is_always_out_of_time() {
    assert!(out_of_time(Instant::now(), 0));
    assert!(!out_of_time(Instant::now(), 1_000_000));
}

#[test]
fn a_budget_beyond_any_duration_never_runs_out() {
    assert!(!walleye::utils::out_of_time(std::time::Instant::now(), u128::MAX));
    assert!(walleye::utils::exceeded(5, 5));
    assert!(!walleye::utils::exceeded(4, 5));
}
