use vibeos::kbd::{DecodedKey, NamedKey};
use vibeos::shell::{tokenize, Command, Feed, LineEditor, Registry, TokenError, MAX_TOKENS, PROMPT};

fn feed_str(ed: &mut LineEditor, s: &str) {
    for &c in s.as_bytes() {
        assert_eq!(ed.feed(DecodedKey::Char(c)), Feed::Pending);
    }
}

fn submit(ed: &mut LineEditor) -> String {
    assert_eq!(ed.feed(DecodedKey::Char(b'\n')), Feed::Submit);
    let s = core::str::from_utf8(ed.line()).unwrap().to_string();
    ed.clear();
    s
}

fn toks(s: &str) -> Vec<&str> {
    let mut buf = [""; MAX_TOKENS];
    let n = tokenize(s, &mut buf).unwrap();
    buf[..n].to_vec()
}

fn noop(_: &[&str]) {}

#[test]
fn echo_insert_and_backspace() {
    let mut ed = LineEditor::new();
    feed_str(&mut ed, "abc");
    assert_eq!(ed.line(), b"abc");
    assert_eq!(ed.cursor(), 3);
    assert_eq!(ed.feed(DecodedKey::Char(0x08)), Feed::Pending);
    assert_eq!(ed.line(), b"ab");
    assert_eq!(ed.cursor(), 2);
    assert_eq!(ed.feed(DecodedKey::Named(NamedKey::Backspace)), Feed::Pending);
    assert_eq!(ed.line(), b"a");
}

#[test]
fn cursor_move_and_insert_middle() {
    let mut ed = LineEditor::new();
    feed_str(&mut ed, "ac");
    assert_eq!(ed.feed(DecodedKey::Named(NamedKey::Left)), Feed::Pending);
    assert_eq!(ed.cursor(), 1);
    assert_eq!(ed.feed(DecodedKey::Char(b'b')), Feed::Pending);
    assert_eq!(ed.line(), b"abc");
    assert_eq!(ed.cursor(), 2);
    assert_eq!(ed.feed(DecodedKey::Named(NamedKey::Home)), Feed::Pending);
    assert_eq!(ed.cursor(), 0);
    assert_eq!(ed.feed(DecodedKey::Named(NamedKey::End)), Feed::Pending);
    assert_eq!(ed.cursor(), 3);
    assert_eq!(ed.feed(DecodedKey::Named(NamedKey::Left)), Feed::Pending);
    assert_eq!(ed.feed(DecodedKey::Named(NamedKey::Delete)), Feed::Pending);
    assert_eq!(ed.line(), b"ab");
}

#[test]
fn ctrl_u_kills_to_start() {
    let mut ed = LineEditor::new();
    feed_str(&mut ed, "hello");
    ed.feed(DecodedKey::Named(NamedKey::Left));
    ed.feed(DecodedKey::Named(NamedKey::Left));
    assert_eq!(ed.feed(DecodedKey::Char(0x15)), Feed::Pending);
    assert_eq!(ed.line(), b"lo");
    assert_eq!(ed.cursor(), 0);
}

#[test]
fn ctrl_c_cancels() {
    let mut ed = LineEditor::new();
    feed_str(&mut ed, "nope");
    assert_eq!(ed.feed(DecodedKey::Char(0x03)), Feed::Cancel);
    assert_eq!(ed.len(), 0);
}

#[test]
fn history_up_down() {
    let mut ed = LineEditor::new();
    feed_str(&mut ed, "one");
    assert_eq!(submit(&mut ed), "one");
    feed_str(&mut ed, "two");
    assert_eq!(submit(&mut ed), "two");
    assert_eq!(ed.feed(DecodedKey::Named(NamedKey::Up)), Feed::Pending);
    assert_eq!(ed.line(), b"two");
    assert_eq!(ed.feed(DecodedKey::Named(NamedKey::Up)), Feed::Pending);
    assert_eq!(ed.line(), b"one");
    assert_eq!(ed.feed(DecodedKey::Named(NamedKey::Up)), Feed::Pending);
    assert_eq!(ed.line(), b"one");
    assert_eq!(ed.feed(DecodedKey::Named(NamedKey::Down)), Feed::Pending);
    assert_eq!(ed.line(), b"two");
    assert_eq!(ed.feed(DecodedKey::Named(NamedKey::Down)), Feed::Pending);
    assert_eq!(ed.line(), b"");
}

#[test]
fn history_skips_duplicate_of_last() {
    let mut ed = LineEditor::new();
    feed_str(&mut ed, "same");
    submit(&mut ed);
    feed_str(&mut ed, "same");
    submit(&mut ed);
    ed.feed(DecodedKey::Named(NamedKey::Up));
    assert_eq!(ed.line(), b"same");
    ed.feed(DecodedKey::Named(NamedKey::Up));
    assert_eq!(ed.line(), b"same");
    ed.feed(DecodedKey::Named(NamedKey::Down));
    assert_eq!(ed.line(), b"");
}

#[test]
fn empty_submit_is_empty() {
    let mut ed = LineEditor::new();
    assert_eq!(ed.feed(DecodedKey::Char(b'\n')), Feed::Submit);
    assert_eq!(ed.line(), b"");
}

#[test]
fn tokenize_whitespace_and_quotes() {
    assert_eq!(toks("echo hi"), ["echo", "hi"]);
    assert_eq!(toks("  echo   hi  "), ["echo", "hi"]);
    assert_eq!(toks("echo \"hello world\""), ["echo", "hello world"]);
    assert_eq!(toks("echo 'a  b' c"), ["echo", "a  b", "c"]);
    assert_eq!(toks(""), Vec::<&str>::new());
    assert_eq!(toks("   \t  "), Vec::<&str>::new());
    assert_eq!(toks("echo \"\""), ["echo", ""]);
}

#[test]
fn tokenize_unclosed_quote() {
    let mut buf = [""; 4];
    assert_eq!(tokenize("echo \"hi", &mut buf), Err(TokenError::UnclosedQuote));
    assert_eq!(TokenError::UnclosedQuote.as_str(), "unclosed quote");
    assert_eq!(TokenError::TooMany.as_str(), "too many tokens");
}

#[test]
fn tokenize_too_many() {
    let mut buf = [""; 1];
    assert_eq!(tokenize("a b", &mut buf), Err(TokenError::TooMany));
}

#[test]
fn registry_lookup_not_match() {
    let mut r = Registry::new();
    assert!(r.register(Command { name: "help", help: "list commands", run: noop as fn(&[&str]) }));
    assert!(r.register(Command { name: "echo", help: "print args", run: noop as fn(&[&str]) }));
    assert!(!r.register(Command { name: "help", help: "dup", run: noop as fn(&[&str]) }));
    assert!(r.lookup("help").is_some());
    assert!(r.lookup("echo").is_some());
    assert!(r.lookup("panic").is_none());
    assert_eq!(r.len(), 2);
    assert_eq!(r.get(0).unwrap().name, "help");
    assert!(r.get(9).is_none());
}

#[test]
fn tab_is_complete() {
    let mut ed = LineEditor::new();
    feed_str(&mut ed, "ls he");
    assert_eq!(ed.feed(DecodedKey::Char(b'\t')), Feed::Complete);
    assert_eq!(ed.feed(DecodedKey::Named(NamedKey::Tab)), Feed::Complete);
    ed.set_line(b"cat hello");
    assert_eq!(ed.line(), b"cat hello");
    assert_eq!(ed.cursor(), 9);
}

#[test]
fn named_keys_are_exhaustive_in_editor() {
    let mut ed = LineEditor::new();
    let all = [
        NamedKey::Esc,
        NamedKey::Enter,
        NamedKey::Backspace,
        NamedKey::Tab,
        NamedKey::Left,
        NamedKey::Right,
        NamedKey::Up,
        NamedKey::Down,
        NamedKey::Home,
        NamedKey::End,
        NamedKey::Delete,
        NamedKey::Insert,
        NamedKey::PageUp,
        NamedKey::PageDown,
        NamedKey::F1,
        NamedKey::F2,
        NamedKey::F3,
        NamedKey::F4,
        NamedKey::F5,
        NamedKey::F6,
        NamedKey::F7,
        NamedKey::F8,
        NamedKey::F9,
        NamedKey::F10,
        NamedKey::F11,
        NamedKey::F12,
        NamedKey::CapsLock,
        NamedKey::NumLock,
        NamedKey::ScrollLock,
        NamedKey::LeftShift,
        NamedKey::RightShift,
        NamedKey::LeftCtrl,
        NamedKey::RightCtrl,
        NamedKey::LeftAlt,
        NamedKey::RightAlt,
    ];
    for k in all {
        let _ = ed.feed(DecodedKey::Named(k));
    }
}

#[test]
fn editor_caps_line_and_kills_to_end() {
    let mut ed = LineEditor::new();
    for _ in 0..200 {
        ed.feed(DecodedKey::Char(b'x'));
    }
    assert_eq!(ed.len(), 128);
    ed.set_line(b"hello world");
    for _ in 0..5 {
        ed.feed(DecodedKey::Named(NamedKey::Left));
    }
    assert_eq!(ed.feed(DecodedKey::Char(0x0B)), Feed::Pending);
    assert_eq!(ed.line(), b"hello ");
    assert_eq!(ed.line_str().unwrap(), "hello ");
    assert_eq!(ed.feed(DecodedKey::Named(NamedKey::Esc)), Feed::Cancel);
    assert_eq!(ed.len(), 0);
    assert_eq!(PROMPT, "vibeos> ");
}

#[test]
fn tokenize_quote_right_after_word() {
    assert_eq!(toks("a'b c'd"), ["a", "b c", "d"]);
    let mut buf = [""; 2];
    assert_eq!(tokenize("x \"unclosed", &mut buf), Err(TokenError::UnclosedQuote));
    let mut one = [""; 1];
    assert_eq!(tokenize("x \"unclosed", &mut one), Err(TokenError::TooMany));
}

#[test]
fn keys_submit_cancel_complete_or_wait() {
    let mut ed = LineEditor::new();
    feed_str(&mut ed, "ls -l");
    assert_eq!(ed.feed(DecodedKey::Named(NamedKey::Left)), Feed::Pending);
    assert_eq!(ed.feed(DecodedKey::Char(0x09)), Feed::Complete);
    assert_eq!(ed.line(), b"ls -l");
    assert_eq!(ed.cursor(), 4);
    assert_eq!(ed.feed(DecodedKey::Named(NamedKey::Esc)), Feed::Cancel);
    assert_eq!(ed.len(), 0);
    assert_eq!(ed.cursor(), 0);
    feed_str(&mut ed, "x");
    assert_eq!(ed.feed(DecodedKey::Char(0x03)), Feed::Cancel);
    assert_eq!(ed.len(), 0);
    feed_str(&mut ed, "y");
    assert_eq!(ed.feed(DecodedKey::Char(0x0D)), Feed::Submit);
    assert_eq!(ed.feed(DecodedKey::Named(NamedKey::F1)), Feed::Pending);
}
