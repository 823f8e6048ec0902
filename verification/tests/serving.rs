use lab3::declarations::{
    ErrorKind, BAD_COMMAND_LINE_ERROR, CONFIG_PARSING_ERROR, FAILED_TO_OPEN_FILE,
    FAILED_TO_READ_LINE_FROM_FILE, SCRIPT_PARSING_ERROR, SUCCESS,
};
use lab3::return_wrapper::ReturnWrapper;
use lab3::script_gen::{request, Source};
use lab3::server::{Action, Event, Request, Server, FAILED_TO_BIND};

fn text(s: &str) -> String {
    String::from(s)
}

#[test]
fn a_new_server_listens_nowhere() {
    let server = Server::new();
    assert!(!server.is_open());
    assert_eq!(server.listening_addr(), "");
}

#[test]
fn a_server_that_was_bound_listens() {
    let mut server = Server::new();
    assert_eq!(server.open("127.0.0.1:7777", true), Ok(()));
    assert!(server.is_open());
    assert_eq!(server.listening_addr(), "127.0.0.1:7777");
}

#[test]
fn a_failed_bind_leaves_the_server_as_it_was() {
    let mut server = Server::new();
    assert_eq!(server.open("nowhere:1", false), Err(FAILED_TO_BIND));
    assert_eq!(FAILED_TO_BIND, 2);
    assert!(!server.is_open());
    assert_eq!(server.listening_addr(), "");
    assert_eq!(server.open("127.0.0.1:7777", true), Ok(()));
    assert_eq!(server.open("elsewhere:2", false), Err(FAILED_TO_BIND));
    assert!(server.is_open());
    assert_eq!(server.listening_addr(), "127.0.0.1:7777");
}

#[test]
fn a_listening_server_accepts_serves_and_reports() {
    let mut server = Server::new();
    assert_eq!(server.open("127.0.0.1:7777", true), Ok(()));
    assert_eq!(server.run(Event::Idle, false), Action::Accept);
    assert_eq!(server.run(Event::Accepted, false), Action::Serve);
    assert_eq!(server.run(Event::AcceptFailed, false), Action::Report);
}

#[test]
fn a_cancelled_server_stops_whatever_happened() {
    let mut server = Server::new();
    assert_eq!(server.open("127.0.0.1:7777", true), Ok(()));
    for event in [Event::Idle, Event::Accepted, Event::AcceptFailed] {
        assert_eq!(server.run(event, true), Action::Stop);
    }
}

#[test]
fn a_server_that_does_not_listen_stops() {
    let server = Server::new();
    for event in [Event::Idle, Event::Accepted, Event::AcceptFailed] {
        for cancelled in [false, true] {
            assert_eq!(server.run(event, cancelled), Action::Stop);
        }
    }
}

#[test]
fn safe_file_names_hold_no_slash_backslash_or_dollar() {
    assert!(Server::is_safe_filename("hamlet.txt"));
    assert!(Server::is_safe_filename(""));
    assert!(Server::is_safe_filename(".."));
    assert!(Server::is_safe_filename("a b:c~d"));
    assert!(!Server::is_safe_filename("/etc/passwd"));
    assert!(!Server::is_safe_filename("dir/part.txt"));
    assert!(!Server::is_safe_filename("..\\part.txt"));
    assert!(!Server::is_safe_filename("$HOME"));
    assert!(!Server::is_safe_filename("part.txt$"));
}

#[test]
fn quit_shuts_the_server_down() {
    assert_eq!(Server::handle_connection(&text("quit\n")), Request::Quit);
    assert_eq!(Server::handle_connection(&text("  quit \r\n")), Request::Quit);
    assert_eq!(Server::handle_connection(&text("quit")), Request::Quit);
}

#[test]
fn any_other_token_asks_for_a_file() {
    assert_eq!(Server::handle_connection(&text("hamlet.txt\n")), Request::File(text("hamlet.txt")));
    assert_eq!(Server::handle_connection(&text("Quit\n")), Request::File(text("Quit")));
    assert_eq!(Server::handle_connection(&text("quit now\n")), Request::File(text("quit now")));
    assert_eq!(Server::handle_connection(&text("\n")), Request::File(text("")));
    assert_eq!(Server::handle_connection(&text("")), Request::File(text("")));
}

#[test]
fn an_unsafe_file_name_is_rejected() {
    assert_eq!(
        Server::handle_connection(&text("../secret.txt\n")),
        Request::Rejected(text("../secret.txt"))
    );
    assert_eq!(Server::handle_connection(&text(" $x \n")), Request::Rejected(text("$x")));
    assert_eq!(Server::handle_connection(&text("a\\b")), Request::Rejected(text("a\\b")));
}

#[test]
fn the_server_understands_what_the_resolver_asks_for() {
    match Source::resolve(&text("net:127.0.0.1:7777:name.txt")) {
        Ok(Source::Remote { host, port, filename }) => {
            assert_eq!(host, "127.0.0.1");
            assert_eq!(port, "7777");
            assert_eq!(Server::handle_connection(&request(&filename)), Request::File(text("name.txt")));
        },
        _ => panic!("a remote source"),
    }
}

#[test]
fn the_exit_codes_are_fixed() {
    assert_eq!(SUCCESS, 0);
    assert_eq!(BAD_COMMAND_LINE_ERROR, 1);
    assert_eq!(FAILED_TO_OPEN_FILE, 2);
    assert_eq!(SCRIPT_PARSING_ERROR, 3);
    assert_eq!(CONFIG_PARSING_ERROR, 4);
    assert_eq!(FAILED_TO_READ_LINE_FROM_FILE, 5);
    assert_eq!(ErrorKind::Open.code(), 2);
    assert_eq!(ErrorKind::Read.code(), 5);
    assert_eq!(ErrorKind::ScriptParsing.code(), 3);
    assert_eq!(ErrorKind::ConfigParsing.code(), 4);
}

#[test]
fn success_is_reported_in_silence() {
    let wrapper = ReturnWrapper::new(SUCCESS);
    assert_eq!(wrapper.code(), 0);
    assert_eq!(wrapper.report(), (0, None));
}

#[test]
fn a_failure_is_reported_with_its_code() {
    assert_eq!(ReturnWrapper::new(3).report(), (3, Some(text("Error: 3"))));
    assert_eq!(ReturnWrapper::new(255).report(), (255, Some(text("Error: 255"))));
    assert_eq!(ReturnWrapper::new(10).code(), 10);
}
