use kvwire::parser::Command;
use kvwire::session::{error_reply, execute};
use kvwire::storage::Storage;

fn s(x: &str) -> String {
    x.to_string()
}

#[test]
fn replies_to_each_command() {
    let mut store = Storage::new();
    assert_eq!(execute(Command::Ping, &mut store, 0), "+PONG\r\n");
    assert_eq!(execute(Command::Echo(s("hey")), &mut store, 0), "$3\r\nhey\r\n");
    assert_eq!(execute(Command::Info(s("DOCS")), &mut store, 0), "+not supported yet\r\n");
    assert_eq!(execute(Command::Get(s("k")), &mut store, 0), "$-1\r\n");
    assert_eq!(execute(Command::SetKey(s("k"), s("val"), Some(100)), &mut store, 0), "+OK\r\n");
    assert_eq!(execute(Command::Get(s("k")), &mut store, 100), "$3\r\nval\r\n");
    assert_eq!(execute(Command::Get(s("k")), &mut store, 101), "$-1\r\n");
    assert!(!store.contains_key(&s("k")));
}

#[test]
fn error_reply_text() {
    assert_eq!(error_reply(), "-Error processing message\r\n");
}
