use rust_remote::command::{payload_from_line, split_words};

#[test]
fn sudo_line_is_elevated() {
    let p = payload_from_line("ops", "sudo apt update").unwrap();
    assert!(p.sudo);
    assert_eq!(p.command, "apt");
    assert_eq!(p.args, vec!["update".to_string()]);
    assert_eq!(p.user, "ops");
}

#[test]
fn sudo_alone_gives_nothing() {
    assert!(payload_from_line("ops", "sudo").is_none());
    assert!(payload_from_line("ops", "  sudo \t").is_none());
}

#[test]
fn plain_line_is_not_elevated() {
    let p = payload_from_line("ops", "ls -la").unwrap();
    assert!(!p.sudo);
    assert_eq!(p.command, "ls");
    assert_eq!(p.args, vec!["-la".to_string()]);
}

#[test]
fn empty_and_blank_lines_give_nothing() {
    assert!(payload_from_line("ops", "").is_none());
    assert!(payload_from_line("ops", "   ").is_none());
    assert!(payload_from_line("ops", "\t\r\n").is_none());
    assert!(payload_from_line("ops", "\u{3000}\u{a0}").is_none());
}

#[test]
fn every_word_line_gives_one_command() {
    for line in ["a", " echo  hi  there ", "sudo ls", "x\ty\nz"] {
        assert!(payload_from_line("u", line).is_some(), "{}", line);
    }
}

#[test]
fn words_split_on_any_white_space() {
    assert_eq!(
        split_words(" echo\thello\u{2003}world \n"),
        vec!["echo".to_string(), "hello".to_string(), "world".to_string()]
    );
    assert!(split_words("").is_empty());
}

#[test]
fn sudo_only_counts_as_first_word() {
    let p = payload_from_line("u", "echo sudo").unwrap();
    assert!(!p.sudo);
    assert_eq!(p.command, "echo");
    assert_eq!(p.args, vec!["sudo".to_string()]);
    let q = payload_from_line("u", "sudoers").unwrap();
    assert!(!q.sudo);
    assert_eq!(q.command, "sudoers");
    assert!(q.args.is_empty());
}
