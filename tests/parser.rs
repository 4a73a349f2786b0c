use kvwire::parser::{build_command, handle_client_message, Command, Parser, ProtocolError};

fn request(words: &[&str]) -> String {
    let mut s = format!("*{}\r\n", words.len());
    for w in words {
        s.push_str(&format!("${}\r\n{}\r\n", w.len(), w));
    }
    s
}

fn strings(words: &[&str]) -> Vec<String> {
    words.iter().map(|w| w.to_string()).collect()
}

#[test]
fn ping_in_any_case() {
    assert_eq!(handle_client_message(request(&["PING"])), Ok(vec![Command::Ping]));
    assert_eq!(handle_client_message(request(&["pInG"])), Ok(vec![Command::Ping]));
}

#[test]
fn echo_joins_arguments() {
    assert_eq!(
        handle_client_message(request(&["echo", "hello", "world"])),
        Ok(vec![Command::Echo("hello world".to_string())])
    );
}

#[test]
fn get_and_set() {
    assert_eq!(
        handle_client_message(request(&["GET", "k"])),
        Ok(vec![Command::Get("k".to_string())])
    );
    assert_eq!(
        handle_client_message(request(&["SET", "k", "v"])),
        Ok(vec![Command::SetKey("k".to_string(), "v".to_string(), None)])
    );
    assert_eq!(
        handle_client_message(request(&["set", "k", "v", "px", "100"])),
        Ok(vec![Command::SetKey("k".to_string(), "v".to_string(), Some(100))])
    );
}

#[test]
fn set_with_unreadable_ttl_has_none() {
    assert_eq!(
        handle_client_message(request(&["SET", "k", "v", "px", "abc"])),
        Ok(vec![Command::SetKey("k".to_string(), "v".to_string(), None)])
    );
    assert_eq!(
        handle_client_message(request(&["SET", "k", "v", "px", "0"])),
        Ok(vec![Command::SetKey("k".to_string(), "v".to_string(), None)])
    );
}

#[test]
fn command_is_informational() {
    assert_eq!(
        handle_client_message(request(&["COMMAND", "DOCS"])),
        Ok(vec![Command::Info("DOCS".to_string())])
    );
}

#[test]
fn unknown_command_does_not_block_the_other() {
    let batch = request(&["FOO", "x"]) + &request(&["ECHO", "hi"]);
    assert_eq!(handle_client_message(batch), Ok(vec![Command::Echo("hi".to_string())]));
    let batch = request(&["ECHO", "hi"]) + &request(&["FOO"]);
    assert_eq!(handle_client_message(batch), Ok(vec![Command::Echo("hi".to_string())]));
}

#[test]
fn two_requests_in_one_message() {
    let batch = request(&["SET", "a", "1"]) + &request(&["GET", "a"]);
    assert_eq!(
        handle_client_message(batch),
        Ok(vec![
            Command::SetKey("a".to_string(), "1".to_string(), None),
            Command::Get("a".to_string())
        ])
    );
}

#[test]
fn too_few_arguments_are_skipped() {
    assert_eq!(handle_client_message(request(&["GET"])), Ok(vec![]));
    assert_eq!(handle_client_message(request(&["SET", "k"])), Ok(vec![]));
}

#[test]
fn empty_message_has_no_commands() {
    assert_eq!(handle_client_message(String::new()), Ok(vec![]));
}

#[test]
fn partial_request_is_dropped() {
    assert_eq!(handle_client_message("*2\r\n$4\r\nECHO\r\n".to_string()), Ok(vec![]));
}

#[test]
fn wrong_kind_of_header_fails() {
    assert_eq!(
        handle_client_message("+OK\r\n".to_string()),
        Err(ProtocolError::UnexpectedType)
    );
    assert_eq!(
        handle_client_message("*1\r\n:4\r\nPING\r\n".to_string()),
        Err(ProtocolError::UnexpectedType)
    );
}

#[test]
fn unknown_sigil_fails() {
    assert_eq!(handle_client_message("?1\r\n".to_string()), Err(ProtocolError::UnknownSigil));
}

#[test]
fn array_header_without_count_fails() {
    assert_eq!(handle_client_message("*x\r\n".to_string()), Err(ProtocolError::InvalidLength));
}

#[test]
fn empty_header_fails() {
    let mut parser = Parser::new();
    assert_eq!(parser.feed(String::new()), Err(ProtocolError::MissingSigil));
}

#[test]
fn parser_fed_token_by_token() {
    let mut parser = Parser::new();
    assert_eq!(parser.feed("*2".to_string()), Ok(None));
    assert_eq!(parser.feed("$3".to_string()), Ok(None));
    assert_eq!(parser.feed("get".to_string()), Ok(None));
    assert_eq!(parser.feed("$1".to_string()), Ok(None));
    assert_eq!(parser.feed("k".to_string()), Ok(Some(Command::Get("k".to_string()))));
    assert_eq!(parser.feed("$4".to_string()), Ok(None));
    assert_eq!(parser.feed("ping".to_string()), Ok(Some(Command::Ping)));
}

#[test]
fn build_command_table() {
    assert_eq!(build_command("ping", &vec![]), Some(Command::Ping));
    assert_eq!(build_command("Echo", &strings(&["a", "b", "c"])), Some(Command::Echo("a b c".to_string())));
    assert_eq!(build_command("echo", &vec![]), None);
    assert_eq!(build_command("GET", &strings(&["k", "extra"])), Some(Command::Get("k".to_string())));
    assert_eq!(
        build_command("set", &strings(&["k", "v", "px", "+25"])),
        Some(Command::SetKey("k".to_string(), "v".to_string(), Some(25)))
    );
    assert_eq!(
        build_command("set", &strings(&["k", "v", "px", "18446744073709551616"])),
        Some(Command::SetKey("k".to_string(), "v".to_string(), None))
    );
    assert_eq!(
        build_command("set", &strings(&["k", "v", "px"])),
        Some(Command::SetKey("k".to_string(), "v".to_string(), None))
    );
    assert_eq!(build_command("command", &vec![]), Some(Command::Info(String::new())));
    assert_eq!(build_command("pings", &vec![]), None);
    assert_eq!(build_command("sex", &strings(&["k", "v"])), None);
}
