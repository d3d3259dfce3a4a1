use rust_remote::config::{parse_args, parse_port, ArgsError, Invocation};
use rust_remote::{Runner, RunnerMode};

fn args(list: &[&str]) -> Vec<String> {
    list.iter().map(|a| a.to_string()).collect()
}

#[test]
fn defaults() {
    match parse_args(&args(&["relay"])).unwrap() {
        Invocation::Run { mode, ip, port } => {
            assert_eq!(mode, RunnerMode::State(Runner::Server, false));
            assert_eq!(ip, "127.0.0.1");
            assert_eq!(port, 3444);
        }
        Invocation::Help => panic!("help"),
    }
}

#[test]
fn flags_are_read() {
    let got = parse_args(&args(&["relay", "-cl", "--debug", "--ip", "10.0.0.2", "-p", "+8080"]));
    match got.unwrap() {
        Invocation::Run { mode, ip, port } => {
            assert_eq!(mode, RunnerMode::State(Runner::Client, true));
            assert_eq!(ip, "10.0.0.2");
            assert_eq!(port, 8080);
        }
        Invocation::Help => panic!("help"),
    }
}

#[test]
fn last_role_wins() {
    match parse_args(&args(&["relay", "--client", "--server"])).unwrap() {
        Invocation::Run { mode, .. } => assert_eq!(mode, RunnerMode::State(Runner::Server, false)),
        Invocation::Help => panic!("help"),
    }
}

#[test]
fn help_is_asked_for() {
    assert!(matches!(parse_args(&args(&["relay", "-d", "-h", "--ip"])), Ok(Invocation::Help)));
}

#[test]
fn flag_without_value() {
    assert_eq!(parse_args(&args(&["relay", "--port"])).err(), Some(ArgsError::MissingValue));
    assert_eq!(parse_args(&args(&["relay", "-i"])).err(), Some(ArgsError::MissingValue));
}

#[test]
fn bad_port() {
    assert_eq!(parse_args(&args(&["relay", "--port", "70000"])).err(), Some(ArgsError::InvalidPort));
    assert_eq!(parse_args(&args(&["relay", "--port", "abc"])).err(), Some(ArgsError::InvalidPort));
}

#[test]
fn port_numbers() {
    assert_eq!(parse_port("0"), Some(0));
    assert_eq!(parse_port("3444"), Some(3444));
    assert_eq!(parse_port("+80"), Some(80));
    assert_eq!(parse_port("00065535"), Some(65535));
    assert_eq!(parse_port("65536"), None);
    assert_eq!(parse_port("99999999999999999999"), None);
    assert_eq!(parse_port(""), None);
    assert_eq!(parse_port("+"), None);
    assert_eq!(parse_port("-1"), None);
    assert_eq!(parse_port("8a"), None);
    assert_eq!(parse_port(" 80"), None);
}
