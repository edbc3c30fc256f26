use tokio_experiments::peers::PeerTable;
use tokio_experiments::service::{address_argument, terminate_line, ArgumentError, EchoRev, EchoService};

#[test]
fn echo_service_answers_with_the_line() {
    assert_eq!(EchoService.call(String::from("ping")), "ping");
}

#[test]
fn echo_rev_reverses_characters() {
    assert_eq!(EchoRev.call(String::from("abc")), "cba");
    assert_eq!(EchoRev.call(String::new()), "");
    assert_eq!(EchoRev.call(String::from("h\u{e9}llo")), "oll\u{e9}h");
}

#[test]
fn terminate_line_appends_newline() {
    assert_eq!(terminate_line(String::from("hello")), "hello\n");
    assert_eq!(terminate_line(String::new()), "\n");
}

#[test]
fn address_argument_takes_the_first_argument() {
    let args = vec![String::from("server"), String::from("127.0.0.1:6000"), String::from("x")];
    assert_eq!(address_argument(&args), Ok(String::from("127.0.0.1:6000")));
    let args = vec![String::from("server")];
    assert_eq!(address_argument(&args), Err(ArgumentError::MissingArgument));
    assert_eq!(address_argument(&Vec::new()), Err(ArgumentError::MissingArgument));
}

#[test]
fn messages_go_to_every_other_peer() {
    let mut table: PeerTable<&str> = PeerTable::new();
    table.insert(1, "a");
    table.insert(2, "b");
    table.insert(3, "c");
    let mut r = table.recipients(2);
    r.sort();
    assert_eq!(r, vec![1, 3]);
    assert_eq!(table.get(3), Some(&"c"));
    table.remove(3);
    assert_eq!(table.get(3), None);
    let mut r = table.recipients(1);
    r.sort();
    assert_eq!(r, vec![2]);
    let r = table.recipients(7);
    assert_eq!(r.len(), 2);
}
