use vibeos::log::Level;
use vibeos::shell::{Command, Registry, MAX_TOKENS};
use vibeos::shell_init::{
    builtin_names, dispatch_line, echo_line, follow_start, help_lines, parse_dmesg_args, Dispatch, DmesgArgError,
    DmesgArgs,
};

fn noop(_a: &[&str]) {}

fn reg() -> Registry<fn(&[&str])> {
    let mut r = Registry::new();
    assert!(r.register(Command { name: "help", help: "list commands", run: noop as fn(&[&str]) }));
    assert!(r.register(Command { name: "echo", help: "print arguments", run: noop as fn(&[&str]) }));
    r
}

#[test]
fn builtins_are_listed_in_order() {
    let n = builtin_names();
    assert_eq!(n[0], "help");
    assert_eq!(n[5], "dmesg");
    assert_eq!(n[9], "poweroff");
}

#[test]
fn dispatch_finds_the_command() {
    let r = reg();
    let mut toks = [""; MAX_TOKENS];
    match dispatch_line(&r, "echo 'a b' c", &mut toks) {
        Ok(Dispatch::Run { cmd, ntoks }) => {
            assert_eq!(cmd.name, "echo");
            assert_eq!(ntoks, 3);
            assert_eq!(&toks[..3], &["echo", "a b", "c"]);
        }
        _ => panic!("echo not dispatched"),
    }
    assert!(matches!(dispatch_line(&r, "   ", &mut toks), Ok(Dispatch::Empty)));
    assert!(matches!(dispatch_line(&r, "nope", &mut toks), Err("unknown")));
    assert!(matches!(dispatch_line(&r, "echo 'open", &mut toks), Err("unclosed quote")));
}

#[test]
fn echo_and_help_text() {
    assert_eq!(echo_line(&["echo", "hi", "there"]), b"hi there\n".to_vec());
    assert_eq!(echo_line(&["echo"]), b"\n".to_vec());
    assert_eq!(echo_line(&[]), b"\n".to_vec());
    assert_eq!(
        String::from_utf8(help_lines(&reg())).unwrap(),
        "vibeOS: help: help - list commands\nvibeOS: help: echo - print arguments\n"
    );
}

#[test]
fn dmesg_arguments() {
    let none = DmesgArgs { view: None, follow: false, set_max: None, error: None };
    assert_eq!(parse_dmesg_args(&["dmesg"]), none);
    assert_eq!(parse_dmesg_args(&["dmesg", "-f"]), DmesgArgs { follow: true, ..none });
    assert_eq!(
        parse_dmesg_args(&["dmesg", "-n", "debug", "follow"]),
        DmesgArgs { view: Some(Level::Debug), follow: true, set_max: Some(Level::Debug), error: None }
    );
    assert_eq!(parse_dmesg_args(&["dmesg", "warn"]), DmesgArgs { view: Some(Level::Warn), ..none });
    assert_eq!(parse_dmesg_args(&["dmesg", "-n"]).error, Some(DmesgArgError::NeedsLevel));
    assert_eq!(parse_dmesg_args(&["dmesg", "-n", "loud"]).error, Some(DmesgArgError::BadLevel));
    let r = parse_dmesg_args(&["dmesg", "-n", "3", "bogus"]);
    assert_eq!(r.set_max, Some(Level::Debug));
    assert_eq!(r.error, Some(DmesgArgError::BadArg));
    assert_eq!(DmesgArgError::BadArg.as_str(), "bad arg");
}

#[test]
fn follow_prints_only_new_records() {
    assert_eq!(follow_start(10, 10, 5), None);
    assert_eq!(follow_start(10, 12, 5), Some(3));
    assert_eq!(follow_start(10, 30, 5), Some(0));
}
