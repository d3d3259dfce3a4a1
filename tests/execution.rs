use rust_remote::execution::{build_report, invocation, Execution};
use rust_remote::Payload;

fn cmd(sudo: bool, program: &str, args: &[&str]) -> Payload {
    Payload {
        sudo,
        user: "ops".to_string(),
        command: program.to_string(),
        args: args.iter().map(|a| a.to_string()).collect(),
    }
}

#[test]
fn unstartable_command_gives_sentinel_report() {
    let p = cmd(false, "no-such-program-here", &[]);
    let r = build_report(p.clone(), None);
    assert_eq!(r.payload, p);
    assert_eq!(r.status, "Nope");
    assert_eq!(r.stdout, "Nope");
    assert_eq!(r.stderr, "Nope");
}

#[test]
fn report_carries_decoded_output() {
    let p = cmd(false, "echo", &["hi"]);
    let ran = Execution {
        status: "exit status: 0".to_string(),
        stdout: "hi ✓\n".as_bytes().to_vec(),
        stderr: vec![],
    };
    let r = build_report(p.clone(), Some(ran));
    assert_eq!(r.payload, p);
    assert_eq!(r.status, "exit status: 0");
    assert_eq!(r.stdout, "hi ✓\n");
    assert_eq!(r.stderr, "");
}

#[test]
fn invalid_utf8_output_is_marked() {
    let ran = Execution {
        status: "exit status: 1".to_string(),
        stdout: vec![0xff, 0xfe, b'a'],
        stderr: b"warn".to_vec(),
    };
    let r = build_report(cmd(false, "cat", &["bin"]), Some(ran));
    assert_eq!(r.status, "exit status: 1");
    assert_eq!(r.stdout, "<output is not UTF-8>");
    assert_eq!(r.stderr, "warn");
}

#[test]
fn elevated_command_runs_through_sudo() {
    let (program, args) = invocation(&cmd(true, "apt", &["update", "-y"]));
    assert_eq!(program, "sudo");
    assert_eq!(args, vec!["apt".to_string(), "update".to_string(), "-y".to_string()]);
    let (program, args) = invocation(&cmd(false, "ls", &["-la"]));
    assert_eq!(program, "ls");
    assert_eq!(args, vec!["-la".to_string()]);
}
