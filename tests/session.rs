use rust_remote::codec::{encode_payload, encode_report};
use rust_remote::execution::build_report;
use rust_remote::session::{
    after_connect, dialer_step, listener_receive, ConnectStep, DialerStep, Inbound, RETRY_DELAY_MS,
};
use rust_remote::Payload;

fn cmd(program: &str, args: &[&str]) -> Payload {
    Payload {
        sudo: false,
        user: "ops".to_string(),
        command: program.to_string(),
        args: args.iter().map(|a| a.to_string()).collect(),
    }
}

#[test]
fn dialer_dispatches_a_command() {
    let p = cmd("ls", &["-la"]);
    match dialer_step(Inbound::Text(encode_payload(&p))) {
        DialerStep::Dispatch(q) => assert_eq!(q, p),
        other => panic!("{:?}", other),
    }
}

#[test]
fn dialer_skips_what_is_not_a_command() {
    assert!(matches!(dialer_step(Inbound::Text("{oops".to_string())), DialerStep::Skip));
    assert!(matches!(dialer_step(Inbound::Other), DialerStep::Skip));
    assert!(matches!(dialer_step(Inbound::Failed), DialerStep::Skip));
}

#[test]
fn dialer_reconnects_when_closed() {
    assert!(matches!(dialer_step(Inbound::Closed), DialerStep::Reconnect));
}

#[test]
fn n_commands_give_n_dispatches_in_order() {
    let cmds: Vec<Payload> = (0..25).map(|i| cmd("echo", &[&i.to_string()])).collect();
    let mut seen = Vec::new();
    for c in &cmds {
        if let DialerStep::Dispatch(p) = dialer_step(Inbound::Text(encode_payload(c))) {
            seen.push(p);
        }
    }
    assert_eq!(seen, cmds);
}

#[test]
fn malformed_message_does_not_stop_later_ones() {
    let good = cmd("uptime", &[]);
    let events = vec![
        Inbound::Text("garbage".to_string()),
        Inbound::Other,
        Inbound::Failed,
        Inbound::Text(encode_payload(&good)),
    ];
    let mut seen = Vec::new();
    let mut ended = false;
    for e in events {
        match dialer_step(e) {
            DialerStep::Dispatch(p) => seen.push(p),
            DialerStep::Skip => {}
            DialerStep::Reconnect => ended = true,
        }
    }
    assert!(!ended);
    assert_eq!(seen, vec![good]);
}

#[test]
fn listener_reads_a_report() {
    let r = build_report(cmd("true", &[]), None);
    let got = listener_receive(Inbound::Text(encode_report(&r))).unwrap();
    assert_eq!(got, r);
}

#[test]
fn listener_drops_what_is_not_a_report() {
    assert!(listener_receive(Inbound::Text("[1,2".to_string())).is_none());
    assert!(listener_receive(Inbound::Text(encode_payload(&cmd("ls", &[])))).is_none());
    assert!(listener_receive(Inbound::Other).is_none());
    assert!(listener_receive(Inbound::Failed).is_none());
    assert!(listener_receive(Inbound::Closed).is_none());
}

#[test]
fn failed_connect_is_retried_after_a_second() {
    assert_eq!(RETRY_DELAY_MS, 1000);
    assert!(matches!(after_connect(false), ConnectStep::RetryAfterMs(1000)));
    assert!(matches!(after_connect(false), ConnectStep::RetryAfterMs(1000)));
    assert!(matches!(after_connect(true), ConnectStep::Serve));
}
