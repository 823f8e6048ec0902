use lab3::declarations::{ErrorKind, LoadError, FAILED_TO_OPEN_FILE};
use lab3::script_gen::{address, grab_trimmed_file_lines, request, Source};

fn text(s: &str) -> String {
    String::from(s)
}

fn remote(host: &str, port: &str, filename: &str) -> Source {
    Source::Remote { host: text(host), port: text(port), filename: text(filename) }
}

fn refused(source: &str) -> Result<Source, LoadError> {
    Err(LoadError { kind: ErrorKind::Open, path: text(source) })
}

#[test]
fn a_plain_text_is_a_local_path() {
    for path in ["hamlet.txt", "dir/part.txt", "", "net", "net.txt", "NET:a:b:c", " net:a:b:c", "ne:t:a:b", "a:b:c:d"] {
        assert_eq!(Source::resolve(&text(path)), Ok(Source::Local(text(path))), "on {:?}", path);
    }
}

#[test]
fn behind_net_stand_host_port_and_file_name() {
    assert_eq!(
        Source::resolve(&text("net:127.0.0.1:7777:hamlet.txt")),
        Ok(remote("127.0.0.1", "7777", "hamlet.txt"))
    );
    assert_eq!(Source::resolve(&text("net:host:1:f")), Ok(remote("host", "1", "f")));
}

#[test]
fn the_file_name_may_hold_colons() {
    assert_eq!(
        Source::resolve(&text("net:localhost:80:a:b::c")),
        Ok(remote("localhost", "80", "a:b::c"))
    );
    assert_eq!(Source::resolve(&text("net:h:p::")), Ok(remote("h", "p", ":")));
}

#[test]
fn the_parts_of_a_remote_source_may_be_empty() {
    assert_eq!(Source::resolve(&text("net:::")), Ok(remote("", "", "")));
    assert_eq!(Source::resolve(&text("net:h:p:")), Ok(remote("h", "p", "")));
    assert_eq!(Source::resolve(&text("net::p:f")), Ok(remote("", "p", "f")));
}

#[test]
fn a_remote_source_of_fewer_segments_cannot_be_opened() {
    for source in ["net:", "net:host", "net:host:7777", "net::", "net:only one colon:"] {
        assert_eq!(Source::resolve(&text(source)), refused(source), "on {:?}", source);
    }
    assert_eq!(refused("net:").unwrap_err().code(), FAILED_TO_OPEN_FILE);
    assert_eq!(FAILED_TO_OPEN_FILE, 2);
}

#[test]
fn resolve_splits_as_the_standard_library_does() {
    for source in ["net:a:b:c", "net:a:b:c:d", "net:a:b", "net:", "net::::", "net:\u{e9}t\u{e9}:8080:pi\u{e8}ce.txt"] {
        let parts: Vec<&str> = source[4..].splitn(3, ':').collect();
        let expected = if parts.len() < 3 {
            refused(source)
        } else {
            Ok(remote(parts[0], parts[1], parts[2]))
        };
        assert_eq!(Source::resolve(&text(source)), expected, "on {:?}", source);
    }
}

#[test]
fn the_address_is_host_colon_port() {
    assert_eq!(address(&text("127.0.0.1"), &text("7777")), "127.0.0.1:7777");
    assert_eq!(address(&text(""), &text("")), ":");
}

#[test]
fn the_request_is_the_file_name_and_a_line_feed() {
    assert_eq!(request(&text("hamlet.txt")), "hamlet.txt\n");
    assert_eq!(request(&text("")), "\n");
    assert_eq!(request(&text("a:b")), "a:b\n");
}

#[test]
fn grab_trimmed_file_lines_trims_every_line_and_keeps_all() {
    let raw: Vec<String> =
        ["  one \n", "\n", "two\r\n", "\tthree", ""].iter().map(|l| String::from(*l)).collect();
    let mut lines = vec![text("already there ")];
    grab_trimmed_file_lines(&raw, &mut lines);
    assert_eq!(lines, vec!["already there ", "one", "", "two", "three", ""]);
    let mut none = Vec::new();
    grab_trimmed_file_lines(&Vec::new(), &mut none);
    assert!(none.is_empty());
}
