use kovacs::engines::arrays::{
    arrays_from_captures, decode_shifted_arrays, element_number, hunt_shift_obfuscation, parse_array, shift_decode_arrays, strip_hex_marks,
};
use kovacs::engines::memory::VarMemory;
use kovacs::engines::obfuscation::{
    hunt_stateful_obfuscation, hunt_strreverse_obfuscation, operand_text, record_assignment,
    resolve_expression, reversed_assignment,
};

fn s(x: &str) -> String {
    x.to_string()
}

fn chars(x: &str) -> Vec<char> {
    x.chars().collect()
}

#[test]
fn strreverse_payload_is_reversed() {
    let content = "x = \"exe.llehsrewop\"\nDim y\ny = StrReverse(x)";
    assert_eq!(hunt_strreverse_obfuscation(content), vec![(s("x"), s("powershell.exe"))]);
}

#[test]
fn strreverse_needs_the_same_variable() {
    let content = "x = \"exe.llehsrewop\"\ny = StrReverse(z)";
    assert!(hunt_strreverse_obfuscation(content).is_empty());
}

#[test]
fn strreverse_harmless_text_is_not_reported() {
    let content = "x = \"olleh\"\ny = StrReverse(x)";
    assert!(hunt_strreverse_obfuscation(content).is_empty());
}

#[test]
fn reversed_assignment_of_groups() {
    let cap = vec![Some(s("v = \"exe.dmc\"")), Some(s("v")), Some(s("exe.dmc"))];
    assert_eq!(reversed_assignment(&cap, " : w = StrReverse(v)"), Some((s("v"), s("cmd.exe"))));
    assert_eq!(reversed_assignment(&cap, " : w = strreverse(v)"), Some((s("v"), s("cmd.exe"))));
    assert_eq!(reversed_assignment(&cap, "StrReverse(v)"), None);
    assert_eq!(reversed_assignment(&cap, " StrReverse(V)"), None);
    assert_eq!(reversed_assignment(&cap, " StrReverse(vv)"), None);
    let far = format!("{}StrReverse(v)", " ".repeat(201));
    assert_eq!(reversed_assignment(&cap, &far), None);
    let near = format!("{}StrReverse(v)", " ".repeat(200));
    assert_eq!(reversed_assignment(&cap, &near), Some((s("v"), s("cmd.exe"))));
    let cap = vec![Some(s("whole")), Some(s("v")), None];
    assert_eq!(reversed_assignment(&cap, " StrReverse(v)"), None);
}

#[test]
fn strreverse_must_name_the_declared_variable() {
    let content = "x = \"exe.dmc\" : a = StrReverse(z) : b = StrReverse(x)";
    assert_eq!(hunt_strreverse_obfuscation(content), vec![(s("x"), s("cmd.exe"))]);
}

#[test]
fn chr_calls_stand_for_characters() {
    assert_eq!(
        hunt_stateful_obfuscation("a = \"cmd\" & Chr(46) & \"exe\""),
        vec![(s("a"), s("cmd.exe"))]
    );
    assert_eq!(
        hunt_stateful_obfuscation("p = chr( 112 ) + \"owershell\""),
        vec![(s("p"), s("powershell"))]
    );
}

#[test]
fn stateful_concatenation_is_resolved() {
    let content = "s = \"Ge\" & \"tObj\" & \"ect\" : Execute s & \"(QbJ2K)\"";
    assert_eq!(hunt_stateful_obfuscation(content), vec![(s("s"), s("GetObject"))]);
}

#[test]
fn stateful_variables_are_remembered_case_insensitively() {
    let content = "A = \"power\"\nb = a + \"shell\"\r\nc = \"hello\"";
    assert_eq!(hunt_stateful_obfuscation(content), vec![(s("b"), s("powershell"))]);
}

#[test]
fn stateful_unknown_variables_give_nothing() {
    let content = "x = Chr(104) & y\nz = \"\"";
    assert!(hunt_stateful_obfuscation(content).is_empty());
}

#[test]
fn expression_resolution() {
    let mut memory = VarMemory::new();
    memory.insert(s("a"), s("cmd"));
    assert_eq!(resolve_expression("a & \".exe\"", &memory), s("cmd.exe"));
    assert_eq!(resolve_expression("\"x\"\"y\" + A", &memory), s("xcmd"));
    assert_eq!(resolve_expression("\"", &memory), s(""));
    assert_eq!(resolve_expression("a & Chr(46) & \"exe\"", &memory), s("cmd.exe"));
    assert_eq!(resolve_expression("Chr(300) + a", &memory), s("cmd"));
}

#[test]
fn recording_assignments() {
    let mut memory = VarMemory::new();
    let mut results = Vec::new();
    record_assignment(&mut memory, &mut results, s("a"), s("hello"));
    assert_eq!(memory.get(&s("a")), Some(s("hello")));
    assert!(results.is_empty());
    record_assignment(&mut memory, &mut results, s("a"), s("mshta x"));
    assert_eq!(memory.get(&s("a")), Some(s("mshta x")));
    assert_eq!(results, vec![(s("a"), s("mshta x"))]);
    record_assignment(&mut memory, &mut results, s("a"), s(""));
    assert_eq!(memory.get(&s("a")), Some(s("mshta x")));
}

#[test]
fn memory_keeps_one_value_per_variable() {
    let mut memory = VarMemory::new();
    assert_eq!(memory.get(&s("k")), None);
    memory.insert(s("k"), s("1"));
    memory.insert(s("j"), s("2"));
    memory.insert(s("k"), s("3"));
    assert_eq!(memory.get(&s("k")), Some(s("3")));
    assert_eq!(memory.get(&s("j")), Some(s("2")));
}

#[test]
fn shifted_arrays_decode_a_payload() {
    let content = "lI = Array(&H76, &H65, &H73, &H69, &H6F, &H72, &H37, &H6B, &H76, &H75, &H70, &H39, &H2D, &H2C, &H7B, &H30, &H6A, &H6F) : UOFY = Array(-3, -2, -1, 0, 1, 2, 3, -3, -2, -1, 0, 1, 2, 3, -3, -2, -1, 0)";
    assert_eq!(hunt_shift_obfuscation(content), vec![s("script:http://x.io")]);
}

#[test]
fn short_arrays_are_ignored() {
    let content = "a = Array(1, 2, 3, 4) : b = Array(&H70, &H70, &H70, &H70)";
    assert!(hunt_shift_obfuscation(content).is_empty());
}

#[test]
fn array_elements_read_hex_first() {
    assert_eq!(parse_array(" &H10, 10 ,x, -3,&h1f "), vec![16, 16, -3, 31]);
    assert_eq!(element_number(&chars("FF")), Some(255));
    assert_eq!(element_number(&chars("2147483647")), Some(2147483647));
    assert_eq!(element_number(&chars("-80000000")), Some(i32::MIN));
    assert_eq!(element_number(&chars("+7")), Some(7));
    assert_eq!(element_number(&chars("+")), None);
    assert_eq!(element_number(&chars("")), None);
    assert_eq!(element_number(&chars("G")), None);
    assert_eq!(element_number(&chars("99999999999")), None);
}

#[test]
fn hex_marks_are_removed_left_to_right() {
    assert_eq!(strip_hex_marks(&chars("&&HH&H")), chars("&H"));
    assert_eq!(strip_hex_marks(&chars("&h1")), chars("&h1"));
}

#[test]
fn shift_decoding_keeps_printable_sums() {
    assert_eq!(shift_decode_arrays(&[100, 0, 200, 60], &[4, 10, -100]), s("hd"));
    assert_eq!(shift_decode_arrays(&[i32::MAX, 1], &[i32::MAX, 1]), s(""));
    assert_eq!(shift_decode_arrays(&[], &[65]), s(""));
}

#[test]
fn arrays_from_captured_contents() {
    let caps = vec![
        (vec![Some(s("Array(1,2,3,4,5)")), Some(s("1,2,3,4,5"))], 16),
        (vec![Some(s("Array(1,2)")), Some(s("1,2"))], 27),
        (vec![Some(s("Array(x)")), None], 36),
        (vec![Some(s("Array(&H70,&H6F,&H77,&H65,&H72,&H73,&H68,&H65,&H6C,&H6C)")), Some(s("&H70,&H6F,&H77,&H65,&H72,&H73,&H68,&H65,&H6C,&H6C"))], 94),
    ];
    let arrays = arrays_from_captures(&caps);
    assert_eq!(arrays, vec![vec![1, 2, 3, 4, 5], vec![0x70, 0x6f, 0x77, 0x65, 0x72, 0x73, 0x68, 0x65, 0x6c, 0x6c]]);
    let zeros = vec![0, 0, 0, 0, 0, 0, 0, 0, 0, 0];
    let pair = vec![arrays[1].clone(), zeros.clone(), arrays[1].clone()];
    assert_eq!(decode_shifted_arrays(&pair), vec![s("powershell"), s("powershell")]);
    assert!(decode_shifted_arrays(&vec![zeros]).is_empty());
    assert!(decode_shifted_arrays(&vec![]).is_empty());
}

#[test]
fn shifted_findings_are_printable_threats() {
    let content = "a = Array(&H70, &H6F, &H77, &H65, &H72, &H73, &H68, &H65, &H6C, &H6C)\nb = Array(0, 0, 0, 0, 0, 0, 0, 0, 0, 0, 200)";
    let found = hunt_shift_obfuscation(content);
    assert_eq!(found, vec![s("powershell")]);
    for t in &found {
        assert!(t.chars().all(|c| (32..=126).contains(&(c as u32))));
    }
}

#[test]
fn operands() {
    let mut memory = VarMemory::new();
    memory.insert(s("v"), s("val"));
    assert_eq!(operand_text(&chars(" \"abc\" "), &memory), chars("abc"));
    assert_eq!(operand_text(&chars("V"), &memory), chars("val"));
    assert_eq!(operand_text(&chars("w"), &memory), chars(""));
    assert_eq!(operand_text(&chars("\"a"), &memory), chars(""));
    assert_eq!(operand_text(&chars(" Chr(46) "), &memory), chars("."));
    assert_eq!(operand_text(&chars("CHR(300)"), &memory), chars(""));
}

#[test]
fn stateful_findings_are_nonempty_threats() {
    let content = "p1 = \"power\" : p2 = p1 & \"shell\" : p3 = p2 & \" -nop\"";
    let found = hunt_stateful_obfuscation(content);
    assert_eq!(found, vec![(s("p2"), s("powershell")), (s("p3"), s("powershell -nop"))]);
}

#[test]
fn stateful_resolves_a_split_executable_name() {
    assert_eq!(hunt_stateful_obfuscation("A = \"cmd\" & \".exe\""), vec![(s("a"), s("cmd.exe"))]);
}

#[test]
fn stateful_breaks_are_interchangeable() {
    let content = "a = \"power\"\nb = a & \"shell\"\r\nc = b & \" -nop\"";
    let found = hunt_stateful_obfuscation(content);
    assert_eq!(found.len(), 2);
    assert_eq!(hunt_stateful_obfuscation(&content.replace('\n', ":")), found);
    assert_eq!(hunt_stateful_obfuscation(&content.replace('\r', ":")), found);
}

#[test]
fn stateful_first_script_findings_come_first() {
    let first = "a = \"cmd\" & \".exe\"";
    let second = "b = a & \" /c\" : c = \"mshta\"";
    let r1 = hunt_stateful_obfuscation(first);
    let joined = hunt_stateful_obfuscation(&format!("{}\n{}", first, second));
    assert!(joined.len() >= r1.len());
    assert_eq!(&joined[..r1.len()], &r1[..]);
    assert_eq!(joined, vec![(s("a"), s("cmd.exe")), (s("b"), s("cmd.exe /c")), (s("c"), s("mshta"))]);
}
