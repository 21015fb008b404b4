use kovacs::detectors::decoder::{b64_decode_strings, readable_text};
use kovacs::detectors::network::network_iocs;
use kovacs::detectors::plain::hunt_plaintext_threats;

fn s(x: &str) -> String {
    x.to_string()
}

#[test]
fn plaintext_lines_are_trimmed_and_reported_once() {
    let content = "Set x = CreateObject(\"WScript.Shell\")\r\nhello\n  powershell -enc AAA  \nhello\nSet x = CreateObject(\"WScript.Shell\")\n";
    assert_eq!(
        hunt_plaintext_threats(content),
        vec![s("Set x = CreateObject(\"WScript.Shell\")"), s("powershell -enc AAA")]
    );
}

#[test]
fn plaintext_without_threats_is_empty() {
    assert_eq!(hunt_plaintext_threats("just\nsome text\n"), Vec::<String>::new());
    assert_eq!(hunt_plaintext_threats(""), Vec::<String>::new());
}

#[test]
fn plaintext_last_line_without_newline() {
    assert_eq!(hunt_plaintext_threats("a\n\tstart cmd.exe"), vec![s("start cmd.exe")]);
}

#[test]
fn urls_end_at_white_space() {
    let (urls, ips) = network_iocs("see http://evil.example.com/a and more");
    assert_eq!(urls, vec![s("http://evil.example.com/a")]);
    assert!(ips.is_empty());
    let (urls, _) = network_iocs("get http://x.org/path now");
    assert_eq!(urls, vec![s("http://x.org/path")]);
}

#[test]
fn urls_are_case_insensitive_and_end_at_line_breaks() {
    let (urls, _) = network_iocs("get HTTPS://bad.example.net/x\nnext line");
    assert_eq!(urls, vec![s("HTTPS://bad.example.net/x")]);
}

#[test]
fn repeated_urls_are_reported_once() {
    let (urls, _) = network_iocs("http://a.io/x http://a.io/x");
    assert_eq!(urls, vec![s("http://a.io/x")]);
    let (urls, _) = network_iocs("http://a.io/1 http://a.io/1 http://b.io/2");
    assert_eq!(urls, vec![s("http://a.io/1"), s("http://b.io/2")]);
}

#[test]
fn dotted_addresses_are_found() {
    let (urls, ips) = network_iocs("ping 192.168.0.1");
    assert!(urls.is_empty());
    assert_eq!(ips, vec![s("192.168.0.1")]);
    let (_, ips) = network_iocs("10.0.0.1 and 192.168.1.1 and 10.0.0.1");
    assert_eq!(ips, vec![s("10.0.0.1"), s("192.168.1.1")]);
    let (_, ips) = network_iocs("version 1.2.3.4.5 and 1234.1.1.1");
    assert_eq!(ips, vec![s("1.2.3.4")]);
}

#[test]
fn found_indicators_occur_in_the_text() {
    let content = "beacon to http://c2.example.org/gate and 203.0.113.9\n";
    let (urls, ips) = network_iocs(content);
    assert_eq!(urls, vec![s("http://c2.example.org/gate")]);
    assert_eq!(ips, vec![s("203.0.113.9")]);
    for x in urls.iter().chain(ips.iter()) {
        assert!(content.contains(x.as_str()));
    }
}

#[test]
fn base64_strings_that_read_as_text_are_decoded() {
    let content = "payload = \"aHR0cDovL2V2aWwuZXhhbXBsZS5jb20v\" ; junk AAAAAAAA abcdefghi";
    assert_eq!(
        b64_decode_strings(content),
        vec![(s("aHR0cDovL2V2aWwuZXhhbXBsZS5jb20v"), s("http://evil.example.com/"))]
    );
}

#[test]
fn base64_text_is_trimmed() {
    // "  hello world\n" in base64
    assert_eq!(
        b64_decode_strings("ICBoZWxsbyB3b3JsZAo="),
        vec![(s("ICBoZWxsbyB3b3JsZAo="), s("hello world"))]
    );
}

#[test]
fn readable_text_rules() {
    assert_eq!(readable_text(b"hello"), Some(s("hello")));
    assert_eq!(readable_text(b"hell"), None);
    assert_eq!(readable_text(b"!!!!!!"), None);
    assert_eq!(readable_text(b"abc\x00de"), None);
    assert_eq!(readable_text(b"\r\n ab1 \n"), Some(s("ab1")));
}
