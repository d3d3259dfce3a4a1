use rust_remote::codec::{decode_payload, decode_report, encode_payload, encode_report};
use rust_remote::{Payload, Report};

fn payload(sudo: bool, user: &str, command: &str, args: &[&str]) -> Payload {
    Payload {
        sudo,
        user: user.to_string(),
        command: command.to_string(),
        args: args.iter().map(|a| a.to_string()).collect(),
    }
}

#[test]
fn command_message_has_sorted_keys() {
    let p = payload(true, "ops", "apt", &["update", "-y"]);
    assert_eq!(
        encode_payload(&p),
        r#"{"args":["update","-y"],"command":"apt","sudo":true,"user":"ops"}"#
    );
    let q = payload(false, "", "ls", &[]);
    assert_eq!(encode_payload(&q), r#"{"args":[],"command":"ls","sudo":false,"user":""}"#);
}

#[test]
fn strings_are_escaped() {
    let p = payload(false, "a\"b", "c\\d", &["l1\nl2", "\u{1}\u{1f}", "\t\r\u{8}\u{c}", "é✓"]);
    assert_eq!(
        encode_payload(&p),
        r#"{"args":["l1\nl2","\u0001\u001f","\t\r\b\f","é✓"],"command":"c\\d","sudo":false,"user":"a\"b"}"#
    );
}

#[test]
fn command_round_trip() {
    let cases = vec![
        payload(true, "ops", "apt", &["update"]),
        payload(false, "", "", &[]),
        payload(false, "u", "sh", &["-c", "echo \"x\" \\ y\n", "\u{0}\u{7f}", "日本語 🚀", ""]),
    ];
    for p in cases {
        let text = encode_payload(&p);
        let back = decode_payload(&text).unwrap();
        assert_eq!(back, p);
        assert_eq!(encode_payload(&back), text);
        assert_eq!(decode_payload(&encode_payload(&back)).unwrap(), p);
    }
}

#[test]
fn report_round_trip() {
    let r = Report {
        payload: payload(false, "u", "ls", &["-la"]),
        status: "exit status: 0".to_string(),
        stdout: "a\nb\n".to_string(),
        stderr: "".to_string(),
    };
    let text = encode_report(&r);
    assert_eq!(
        text,
        r#"{"payload":{"args":["-la"],"command":"ls","sudo":false,"user":"u"},"status":"exit status: 0","stderr":"","stdout":"a\nb\n"}"#
    );
    assert_eq!(decode_report(&text).unwrap(), r);
}

#[test]
fn malformed_messages_are_refused() {
    for text in [
        "",
        "not json",
        "{}",
        r#"{"args":[],"command":"ls","sudo":false}"#,
        r#"{"args":[],"command":"ls","sudo":1,"user":""}"#,
        r#"{"args":[],"command":"ls","sudo":false,"user":""} "#,
        r#"{ "args":[],"command":"ls","sudo":false,"user":""}"#,
        r#"{"args":[],"command":"ls","sudo":false,"user":"\u0041"}"#,
        r#"{"args":[],"command":"ls","sudo":false,"user":"\u000a"}"#,
        r#"{"args":[],"command":"l\/s","sudo":false,"user":""}"#,
        "{\"args\":[],\"command\":\"l\ns\",\"sudo\":false,\"user\":\"\"}",
        r#"{"args":["a",],"command":"ls","sudo":false,"user":""}"#,
    ] {
        assert!(decode_payload(text).is_none(), "{}", text);
    }
    assert!(decode_report("{\"payload\":{}}").is_none());
}

#[test]
fn a_command_is_not_a_report() {
    let text = encode_payload(&payload(false, "u", "ls", &[]));
    assert!(decode_report(&text).is_none());
}
