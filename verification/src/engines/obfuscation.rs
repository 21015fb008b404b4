//! Payloads hidden by reversing a string literal, or by building a string from pieces
//! across several assignments.
use vstd::prelude::*;
use crate::engines::memory::VarMemory;
use crate::numbers::{parse_u8, parse_u8_spec};
use crate::patterns::{
    captures_all, captures_first, regex_captures_all, regex_captures_first, ASSIGNMENT_PATTERN,
    CHR_PATTERN, DECLARATION_PATTERN, STRING_LITERAL_PATTERN,
};
use crate::text::{
    chars_of, lemma_split_join, matches_at, occurs_at, reverse_chars,
    separates, slice_chars, split_by, split_chars, string_from_chars, to_lowercase, trim,
    trim_chars, unicode_lowercase, Separator,
};
use crate::utils::treat_detection::{ascii_lowercase, is_threat, lowercase_ascii, spec_is_threat};
use vstd::string::StringSliceAdditionalSpecFns;
use vstd::utf8::{decode_utf8, encode_utf8};

verus! {

/// The text of `content` that follows byte offset `end` of its UTF-8 encoding.
pub open spec fn text_after(content: Seq<char>, end: int) -> Seq<char> {
    decode_utf8(encode_utf8(content).subrange(end, encode_utf8(content).len() as int))
}

/// The name of the reversing call with its opening bracket, in lower case.
pub open spec fn reversal_keyword() -> Seq<char> {
    "strreverse("@
}

/// Does `tail` hold, at position `k`, the call `StrReverse(name)` (the function name in any
/// ASCII case, the variable name exactly)?
pub open spec fn reversal_call_at(tail: Seq<char>, name: Seq<char>, k: int) -> bool {
    let kw = reversal_keyword();
    &&& 0 <= k
    &&& k + kw.len() <= tail.len()
    &&& ascii_lowercase(tail.subrange(k, k + kw.len())) == kw
    &&& occurs_at(tail, name.push(')'), k + kw.len())
}

/// Does `StrReverse(name)` start between 1 and 200 characters into `tail`?
pub open spec fn reversed_later(tail: Seq<char>, name: Seq<char>) -> bool {
    exists|k: int| 1 <= k <= 200 && #[trigger] reversal_call_at(tail, name, k)
}

/// The entry that one declaration `name = "literal"` (groups 1 and 2) gives, where `tail` is
/// the text after it: when `StrReverse(name)` follows within 1 to 200 characters and the
/// literal read backwards is a threat, the name and the reversed literal.
pub open spec fn reverse_entry(cap: Seq<Option<Seq<char>>>, tail: Seq<char>) -> Option<
    (Seq<char>, Seq<char>),
> {
    if cap.len() > 2 && cap[1] is Some && cap[2] is Some && reversed_later(tail, cap[1]->0)
        && spec_is_threat(cap[2]->0.reverse()) {
        Some((cap[1]->0, cap[2]->0.reverse()))
    } else {
        None
    }
}

/// The entries of the declarations found in `content`, in order (each with the byte offset
/// where it ends).
pub open spec fn reverse_entries(content: Seq<char>, caps: Seq<(Seq<Option<Seq<char>>>, usize)>) -> Seq<
    (Seq<char>, Seq<char>),
>
    decreases caps.len(),
{
    if caps.len() == 0 {
        Seq::<(Seq<char>, Seq<char>)>::empty()
    } else {
        let rest = reverse_entries(content, caps.drop_last());
        match reverse_entry(caps.last().0, text_after(content, caps.last().1 as int)) {
            Some(e) => rest.push(e),
            None => rest,
        }
    }
}

/// What the `StrReverse` detector reports for `content`.
pub open spec fn strreverse_obfuscation(content: Seq<char>) -> Seq<(Seq<char>, Seq<char>)> {
    reverse_entries(content, regex_captures_all(DECLARATION_PATTERN@, content))
}

/// Whether `tail` holds `StrReverse(name)` at position `k`.
pub fn reversal_call_at_exec(tail: &[char], name: &[char], k: usize) -> (res: bool)
    ensures
        res == reversal_call_at(tail@, name@, k as int),
{
    let kw = chars_of("strreverse(");
    if k > tail.len() || kw.len() > tail.len() - k {
        return false;
    }
    let window = slice_chars(tail, k, k + kw.len());
    let lowered = lowercase_ascii(window.as_slice());
    let same = matches_at(lowered.as_slice(), kw.as_slice(), 0);
    proof {
        if same {
            assert(lowered@.subrange(0, kw@.len() as int) =~= lowered@);
        } else {
            assert(lowered@.subrange(0, lowered@.len() as int) =~= lowered@);
        }
    }
    if !same {
        return false;
    }
    let mut call = slice_chars(name, 0, name.len());
    assert(name@.subrange(0, name@.len() as int) =~= name@);
    call.push(')');
    matches_at(tail, call.as_slice(), k + kw.len())
}

/// Whether `StrReverse(name)` starts between 1 and 200 characters into `tail`.
pub fn is_reversed_later(tail: &[char], name: &[char]) -> (res: bool)
    ensures
        res == reversed_later(tail@, name@),
{
    let mut k: usize = 1;
    while k <= 200
        invariant
            1 <= k <= 201,
            forall|t: int| 1 <= t < k ==> !#[trigger] reversal_call_at(tail@, name@, t),
        decreases 201 - k,
    {
        if reversal_call_at_exec(tail, name, k) {
            return true;
        }
        k = k + 1;
    }
    false
}

/// The entry that one declaration (groups 1 and 2 of its capture) gives, given the text after
/// it, if any.
pub fn reversed_assignment(cap: &Vec<Option<String>>, tail: &str) -> (res: Option<(String, String)>)
    ensures
        res.deep_view() == reverse_entry(cap.deep_view(), tail@),
{
    if cap.len() > 2 {
        match (&cap[1], &cap[2]) {
            (Some(declared), Some(literal)) => {
                let tail_chars = chars_of(tail);
                let name = chars_of(declared.as_str());
                if is_reversed_later(tail_chars.as_slice(), name.as_slice()) {
                    let chars = chars_of(literal.as_str());
                    let backwards = reverse_chars(chars.as_slice());
                    let decoded = string_from_chars(backwards.as_slice());
                    if is_threat(decoded.as_str()) {
                        return Some((declared.clone(), decoded));
                    }
                }
                None
            },
            _ => None,
        }
    } else {
        None
    }
}

/// Finds declarations `name = "literal"` in `content`; when `StrReverse(name)` follows within
/// 1 to 200 characters and the literal read backwards is a threat, reports the variable and
/// the reversed literal, in order.
pub fn hunt_strreverse_obfuscation(content: &str) -> (res: Vec<(String, String)>)
    ensures
        res.deep_view() == strreverse_obfuscation(content@),
{
    let caps = captures_all(DECLARATION_PATTERN, content);
    let ghost cv = caps.deep_view();
    let mut results: Vec<(String, String)> = Vec::new();
    let n = caps.len();
    let mut i: usize = 0;
    assert(cv.take(0) =~= Seq::<(Seq<Option<Seq<char>>>, usize)>::empty());
    while i < n
        invariant
            i <= n == caps@.len(),
            cv == caps.deep_view(),
            forall|j: int|
                0 <= j < cv.len() ==> #[trigger] cv[j].1 <= content.spec_bytes().len()
                    && vstd::utf8::is_char_boundary(content.spec_bytes(), cv[j].1 as int),
            results.deep_view() == reverse_entries(content@, cv.take(i as int)),
        decreases n - i,
    {
        assert(cv.take(i + 1).drop_last() =~= cv.take(i as int));
        assert(cv.take(i + 1).last() == cv[i as int]);
        let end = caps[i].1;
        assert(cv[i as int].1 == end);
        let (_, after) = content.split_at(end);
        proof {
            vstd::utf8::encode_utf8_decode_utf8(after@);
            assert(after@ == text_after(content@, end as int));
        }
        match reversed_assignment(&caps[i].0, after) {
            Some(entry) => {
                let ghost before = results.deep_view();
                let ghost e = entry.deep_view();
                results.push(entry);
                assert(results.deep_view() =~= before.push(e));
            },
            None => {},
        }
        i = i + 1;
    }
    assert(cv.take(n as int) =~= cv);
    results
}

/// The first group of a capture, when there is one.
pub open spec fn first_group(cap: Option<Seq<Option<Seq<char>>>>) -> Option<Seq<char>> {
    match cap {
        Some(groups) => if groups.len() > 1 && groups[1] is Some {
            Some(groups[1]->0)
        } else {
            None
        },
        None => None,
    }
}

/// The character that `Chr(n)` in `p` stands for: the character with code `n`, when the
/// `Chr` pattern finds a call whose argument is a byte.
pub open spec fn chr_value(p: Seq<char>) -> Option<char> {
    match first_group(regex_captures_first(CHR_PATTERN@, p)) {
        Some(d) => match parse_u8_spec(d) {
            Some(b) => Some(b as char),
            None => None,
        },
        None => None,
    }
}

/// The text that one operand of a concatenation stands for. An operand that starts and ends
/// with a quote gives the text between its first two quotes (or, for a lone `"`, which holds
/// no such pair, whatever `Chr(n)` in it gives: nothing). Any other operand gives the
/// character of a `Chr(n)` call in it, when there is one whose argument is a byte; otherwise
/// it is a variable name (compared in lower case) and gives the value remembered for it, or
/// nothing.
pub open spec fn operand_value(part: Seq<char>, memory: Map<Seq<char>, Seq<char>>) -> Seq<char> {
    let p = trim(part);
    if p.len() > 0 && p[0] == '"' && p.last() == '"' {
        match regex_captures_first(STRING_LITERAL_PATTERN@, p) {
            Some(groups) => match first_group(Some(groups)) {
                Some(t) => t,
                None => Seq::<char>::empty(),
            },
            None => match chr_value(p) {
                Some(c) => seq![c],
                None => Seq::<char>::empty(),
            },
        }
    } else {
        match chr_value(p) {
            Some(c) => seq![c],
            None => {
                let key = unicode_lowercase(p);
                if memory.contains_key(key) {
                    memory[key]
                } else {
                    Seq::<char>::empty()
                }
            },
        }
    }
}

/// The values of the operands `parts`, concatenated.
pub open spec fn resolve_operands(parts: Seq<Seq<char>>, memory: Map<Seq<char>, Seq<char>>) -> Seq<
    char,
>
    decreases parts.len(),
{
    if parts.len() == 0 {
        Seq::<char>::empty()
    } else {
        resolve_operands(parts.drop_last(), memory) + operand_value(parts.last(), memory)
    }
}

/// The value of an expression: its operands are separated by `&` or `+`.
pub open spec fn resolve_expression_spec(expression: Seq<char>, memory: Map<Seq<char>, Seq<char>>) -> Seq<
    char,
> {
    resolve_operands(split_by(expression, Separator::Concatenation), memory)
}

/// The assignment that a statement makes, if it is one: the variable name in lower case and
/// the expression.
pub open spec fn assignment_of(statement: Seq<char>) -> Option<(Seq<char>, Seq<char>)> {
    match regex_captures_first(ASSIGNMENT_PATTERN@, statement) {
        Some(groups) => if groups.len() > 2 && groups[1] is Some && groups[2] is Some {
            Some((unicode_lowercase(groups[1]->0), groups[2]->0))
        } else {
            None
        },
        None => None,
    }
}

/// The state after an assignment of `value` to `name`: a non-empty value is remembered, and
/// reported when it is a threat.
pub open spec fn record_spec(
    memory: Map<Seq<char>, Seq<char>>,
    results: Seq<(Seq<char>, Seq<char>)>,
    name: Seq<char>,
    value: Seq<char>,
) -> (Map<Seq<char>, Seq<char>>, Seq<(Seq<char>, Seq<char>)>) {
    if value.len() == 0 {
        (memory, results)
    } else if spec_is_threat(value) {
        (memory.insert(name, value), results.push((name, value)))
    } else {
        (memory.insert(name, value), results)
    }
}

/// The state after one statement.
pub open spec fn statement_step(
    state: (Map<Seq<char>, Seq<char>>, Seq<(Seq<char>, Seq<char>)>),
    statement: Seq<char>,
) -> (Map<Seq<char>, Seq<char>>, Seq<(Seq<char>, Seq<char>)>) {
    let clean = trim(statement);
    if clean.len() == 0 {
        state
    } else {
        match assignment_of(clean) {
            Some(a) => record_spec(state.0, state.1, a.0, resolve_expression_spec(a.1, state.0)),
            None => state,
        }
    }
}

/// The state after a list of statements, from an empty memory.
pub open spec fn run_statements(statements: Seq<Seq<char>>) -> (
    Map<Seq<char>, Seq<char>>,
    Seq<(Seq<char>, Seq<char>)>,
)
    decreases statements.len(),
{
    if statements.len() == 0 {
        (Map::<Seq<char>, Seq<char>>::empty(), Seq::<(Seq<char>, Seq<char>)>::empty())
    } else {
        statement_step(run_statements(statements.drop_last()), statements.last())
    }
}

/// What the stateful detector reports for `content`: statements are separated by line
/// breaks and `:`.
pub open spec fn stateful_obfuscation(content: Seq<char>) -> Seq<(Seq<char>, Seq<char>)> {
    run_statements(split_by(content, Separator::StatementBreak)).1
}

/// The character of a `Chr(n)` call in `text` whose argument is a byte, if there is one.
pub fn chr_char(text: &str) -> (res: Option<char>)
    ensures
        res == chr_value(text@),
{
    match captures_first(CHR_PATTERN, text) {
        Some(groups) => {
            if groups.len() > 1 {
                match &groups[1] {
                    Some(d) => {
                        let digits = chars_of(d.as_str());
                        match parse_u8(digits.as_slice()) {
                            Some(b) => Some(b as char),
                            None => None,
                        }
                    },
                    None => None,
                }
            } else {
                None
            }
        },
        None => None,
    }
}

/// The text that one operand stands for, given what the memory holds.
pub fn operand_text(part: &[char], memory: &VarMemory) -> (res: Vec<char>)
    ensures
        res@ == operand_value(part@, memory@),
{
    let p = trim_chars(part);
    let n = p.len();
    let text = string_from_chars(p.as_slice());
    if n > 0 && p[0] == '"' && p[n - 1] == '"' {
        match captures_first(STRING_LITERAL_PATTERN, text.as_str()) {
            Some(groups) => {
                if groups.len() > 1 {
                    match &groups[1] {
                        Some(t) => chars_of(t.as_str()),
                        None => Vec::new(),
                    }
                } else {
                    Vec::new()
                }
            },
            None => match chr_char(text.as_str()) {
                Some(c) => {
                    let mut v: Vec<char> = Vec::new();
                    v.push(c);
                    v
                },
                None => Vec::new(),
            },
        }
    } else {
        match chr_char(text.as_str()) {
            Some(c) => {
                let mut v: Vec<char> = Vec::new();
                v.push(c);
                v
            },
            None => {
                let key = to_lowercase(text.as_str());
                match memory.get(&key) {
                    Some(v) => chars_of(v.as_str()),
                    None => Vec::new(),
                }
            },
        }
    }
}

/// The value of an expression whose operands are separated by `&` or `+`.
pub fn resolve_expression(expression: &str, memory: &VarMemory) -> (res: String)
    ensures
        res@ == resolve_expression_spec(expression@, memory@),
{
    let chars = chars_of(expression);
    let parts = split_chars(chars.as_slice(), Separator::Concatenation);
    let ghost pv = parts.deep_view();
    let mut out: Vec<char> = Vec::new();
    let n = parts.len();
    let mut i: usize = 0;
    assert(pv.take(0) =~= Seq::<Seq<char>>::empty());
    while i < n
        invariant
            i <= n == parts@.len(),
            pv == parts.deep_view(),
            pv == split_by(expression@, Separator::Concatenation),
            out@ == resolve_operands(pv.take(i as int), memory@),
        decreases n - i,
    {
        assert(parts[i as int].deep_view() =~= parts[i as int]@);
        let mut piece = operand_text(parts[i].as_slice(), memory);
        assert(pv.take(i + 1).drop_last() =~= pv.take(i as int));
        out.append(&mut piece);
        i = i + 1;
    }
    assert(pv.take(n as int) =~= pv);
    string_from_chars(out.as_slice())
}

/// Records the assignment of `value` to `name`: a non-empty value is remembered, and when it
/// is a threat the pair is added to `results`.
pub fn record_assignment(
    memory: &mut VarMemory,
    results: &mut Vec<(String, String)>,
    name: String,
    value: String,
)
    ensures
        (final(memory)@, final(results).deep_view()) == record_spec(
            old(memory)@,
            old(results).deep_view(),
            name@,
            value@,
        ),
        value@.len() > 0 && spec_is_threat(value@) ==> final(results).deep_view() == old(
            results,
        ).deep_view().push((name@, value@)),
        value@.len() > 0 ==> final(memory)@ == old(memory)@.insert(name@, value@),
{
    if value.as_str().is_empty() {
        return;
    }
    let threat = is_threat(value.as_str());
    let ghost before = results.deep_view();
    let ghost nv = name@;
    let ghost vv = value@;
    if threat {
        results.push((name.clone(), value.clone()));
        assert(results.deep_view() =~= before.push((nv, vv)));
    }
    memory.insert(name, value);
}

/// Follows the assignments in `content` statement by statement (statements end at line
/// breaks and `:`), remembering the value of each variable; a value built from string
/// literals, `Chr(n)` characters and earlier variables joined by `&` or `+` is reported with
/// its variable when it is a threat.
pub fn hunt_stateful_obfuscation(content: &str) -> (res: Vec<(String, String)>)
    ensures
        res.deep_view() == stateful_obfuscation(content@),
{
    let chars = chars_of(content);
    let statements = split_chars(chars.as_slice(), Separator::StatementBreak);
    let ghost sv = statements.deep_view();
    let mut memory = VarMemory::new();
    let mut results: Vec<(String, String)> = Vec::new();
    let n = statements.len();
    let mut i: usize = 0;
    assert(sv.take(0) =~= Seq::<Seq<char>>::empty());
    while i < n
        invariant
            i <= n == statements@.len(),
            sv == statements.deep_view(),
            sv == split_by(content@, Separator::StatementBreak),
            (memory@, results.deep_view()) == run_statements(sv.take(i as int)),
        decreases n - i,
    {
        assert(statements[i as int].deep_view() =~= statements[i as int]@);
        assert(sv.take(i + 1).drop_last() =~= sv.take(i as int));
        let clean = trim_chars(statements[i].as_slice());
        if clean.len() > 0 {
            let statement = string_from_chars(clean.as_slice());
            match captures_first(ASSIGNMENT_PATTERN, statement.as_str()) {
                Some(groups) => {
                    if groups.len() > 2 {
                        match (&groups[1], &groups[2]) {
                            (Some(var), Some(expression)) => {
                                let name = to_lowercase(var.as_str());
                                let value = resolve_expression(expression.as_str(), &memory);
                                record_assignment(&mut memory, &mut results, name, value);
                            },
                            _ => {},
                        }
                    }
                },
                None => {},
            }
        }
        i = i + 1;
    }
    assert(sv.take(n as int) =~= sv);
    results
}

proof fn lemma_reverse_entries(content: Seq<char>, caps: Seq<(Seq<Option<Seq<char>>>, usize)>)
    ensures
        forall|e: (Seq<char>, Seq<char>)| #[trigger] reverse_entries(content, caps).contains(e) ==> exists|k: int|
            0 <= k < caps.len() && reverse_entry(
                #[trigger] caps[k].0,
                text_after(content, caps[k].1 as int),
            ) == Some(e),
    decreases caps.len(),
{
    if caps.len() > 0 {
        let rest = caps.drop_last();
        lemma_reverse_entries(content, rest);
        assert forall|e: (Seq<char>, Seq<char>)| #[trigger] reverse_entries(content, caps).contains(e) implies exists|k: int|
            0 <= k < caps.len() && reverse_entry(
                #[trigger] caps[k].0,
                text_after(content, caps[k].1 as int),
            ) == Some(e) by {
            let j = choose|j: int| 0 <= j < reverse_entries(content, caps).len() && reverse_entries(content, caps)[j] == e;
            if j < reverse_entries(content, rest).len() {
                assert(reverse_entries(content, caps)[j] == reverse_entries(content, rest)[j]);
                assert(reverse_entries(content, rest).contains(e));
                let k = choose|k: int| 0 <= k < rest.len() && reverse_entry(
                    #[trigger] rest[k].0,
                    text_after(content, rest[k].1 as int),
                ) == Some(e);
                assert(caps[k] == rest[k]);
            } else {
                assert(caps[caps.len() - 1] == caps.last());
            }
        }
    }
}

/// Every `StrReverse` finding comes from one declaration `name = "literal"` found in the
/// sample: `StrReverse(name)` follows it within 1 to 200 characters, the finding's text is
/// the literal read backwards (so reading it backwards again gives the literal), and that
/// text is a threat.
pub proof fn law_strreverse_findings(content: Seq<char>)
    ensures
        forall|e: (Seq<char>, Seq<char>)| #[trigger] strreverse_obfuscation(content).contains(e) ==> {
            &&& spec_is_threat(e.1)
            &&& exists|k: int| {
                let m = #[trigger] regex_captures_all(DECLARATION_PATTERN@, content)[k];
                &&& 0 <= k < regex_captures_all(DECLARATION_PATTERN@, content).len()
                &&& m.0.len() > 2
                &&& m.0[1] == Some(e.0)
                &&& m.0[2] == Some(e.1.reverse())
                &&& reversed_later(text_after(content, m.1 as int), e.0)
            }
        },
{
    let caps = regex_captures_all(DECLARATION_PATTERN@, content);
    lemma_reverse_entries(content, caps);
    assert forall|e: (Seq<char>, Seq<char>)| #[trigger] strreverse_obfuscation(content).contains(e) implies {
        &&& spec_is_threat(e.1)
        &&& exists|k: int| {
            let m = #[trigger] regex_captures_all(DECLARATION_PATTERN@, content)[k];
            &&& 0 <= k < regex_captures_all(DECLARATION_PATTERN@, content).len()
            &&& m.0.len() > 2
            &&& m.0[1] == Some(e.0)
            &&& m.0[2] == Some(e.1.reverse())
            &&& reversed_later(text_after(content, m.1 as int), e.0)
        }
    } by {
        let k = choose|k: int| 0 <= k < caps.len() && reverse_entry(
            #[trigger] caps[k].0,
            text_after(content, caps[k].1 as int),
        ) == Some(e);
        let cap = caps[k].0;
        let lit = cap[2]->0;
        assert(e.1 == lit.reverse());
        assert(lit.reverse().reverse() =~= lit);
    }
}

proof fn lemma_run_reports_threats(statements: Seq<Seq<char>>)
    ensures
        forall|e: (Seq<char>, Seq<char>)| #[trigger] run_statements(statements).1.contains(e) ==> e.1.len() > 0
            && spec_is_threat(e.1),
    decreases statements.len(),
{
    if statements.len() > 0 {
        let prev = run_statements(statements.drop_last());
        lemma_run_reports_threats(statements.drop_last());
        let next = run_statements(statements);
        assert forall|e: (Seq<char>, Seq<char>)| #[trigger] next.1.contains(e) implies e.1.len() > 0
            && spec_is_threat(e.1) by {
            let j = choose|j: int| 0 <= j < next.1.len() && next.1[j] == e;
            if j < prev.1.len() {
                assert(next.1[j] == prev.1[j]);
                assert(prev.1.contains(e));
            }
        }
    }
}

/// Every stateful finding is a non-empty value that is a threat.
pub proof fn law_stateful_findings(content: Seq<char>)
    ensures
        forall|e: (Seq<char>, Seq<char>)| #[trigger] stateful_obfuscation(content).contains(e) ==> e.1.len()
            > 0 && spec_is_threat(e.1),
{
    lemma_run_reports_threats(split_by(content, Separator::StatementBreak));
}

/// What a later statement sees of an assignment: once a non-empty value is recorded for a
/// variable, the memory gives that value for it and keeps every other variable's value.
pub proof fn law_recorded_value_is_remembered(
    memory: Map<Seq<char>, Seq<char>>,
    results: Seq<(Seq<char>, Seq<char>)>,
    name: Seq<char>,
    value: Seq<char>,
    other: Seq<char>,
)
    requires
        value.len() > 0,
    ensures
        record_spec(memory, results, name, value).0.contains_key(name),
        record_spec(memory, results, name, value).0[name] == value,
        other != name ==> (record_spec(memory, results, name, value).0.contains_key(other)
            == memory.contains_key(other)),
        other != name && memory.contains_key(other) ==> record_spec(memory, results, name, value).0[other]
            == memory[other],
{
}

/// `s` with every `from` character replaced by `to`.
pub open spec fn replace_char(s: Seq<char>, from: char, to: char) -> Seq<char> {
    s.map_values(|c: char| if c == from { to } else { c })
}

proof fn lemma_split_replace_separator(s: Seq<char>, from: char, to: char)
    requires
        separates(Separator::StatementBreak, from),
        separates(Separator::StatementBreak, to),
    ensures
        split_by(replace_char(s, from, to), Separator::StatementBreak) == split_by(
            s,
            Separator::StatementBreak,
        ),
    decreases s.len(),
{
    if s.len() > 0 {
        let s0 = s.drop_last();
        lemma_split_replace_separator(s0, from, to);
        let r = replace_char(s, from, to);
        assert(r.drop_last() =~= replace_char(s0, from, to));
        assert(r.last() == if s.last() == from { to } else { s.last() });
    } else {
        assert(replace_char(s, from, to) =~= s);
    }
}

/// Statement breaks are interchangeable: replacing one kind of break (line feed, carriage
/// return or `:`) by another everywhere leaves the stateful findings unchanged.
pub proof fn law_stateful_breaks_interchangeable(content: Seq<char>, from: char, to: char)
    requires
        separates(Separator::StatementBreak, from),
        separates(Separator::StatementBreak, to),
    ensures
        stateful_obfuscation(replace_char(content, from, to)) == stateful_obfuscation(content),
{
    lemma_split_replace_separator(content, from, to);
}

/// `r1` stands at the start of `r`.
pub open spec fn is_prefix<A>(r1: Seq<A>, r: Seq<A>) -> bool {
    r1.len() <= r.len() && r.subrange(0, r1.len() as int) == r1
}

proof fn lemma_run_prefix(a: Seq<Seq<char>>, b: Seq<Seq<char>>)
    ensures
        is_prefix(run_statements(a).1, run_statements(a + b).1),
    decreases b.len(),
{
    let r1 = run_statements(a).1;
    if b.len() == 0 {
        assert(a + b =~= a);
        assert(r1.subrange(0, r1.len() as int) =~= r1);
    } else {
        let b0 = b.drop_last();
        lemma_run_prefix(a, b0);
        assert((a + b).drop_last() =~= a + b0);
        let prev = run_statements(a + b0);
        let next = run_statements(a + b);
        assert(next == statement_step(prev, (a + b).last()));
        if next.1 != prev.1 {
            let x = next.1.last();
            assert(next.1 == prev.1.push(x));
            assert(next.1.subrange(0, r1.len() as int) =~= prev.1.subrange(0, r1.len() as int));
        }
    }
}

/// When a second script follows the first after a line break, the first script's stateful
/// findings come first, in order.
pub proof fn law_stateful_first_script_first(first: Seq<char>, second: Seq<char>)
    ensures
        is_prefix(stateful_obfuscation(first), stateful_obfuscation(first.push('\n') + second)),
{
    lemma_split_join(first, '\n', second, Separator::StatementBreak);
    lemma_run_prefix(
        split_by(first, Separator::StatementBreak),
        split_by(second, Separator::StatementBreak),
    );
}

/// A declaration match (groups and end offset) that should give a `StrReverse` finding: it
/// has a name and a literal, `StrReverse(name)` starts 1 to 200 characters after it, and the
/// literal read backwards is a threat.
pub open spec fn reversal_declared(content: Seq<char>, m: (Seq<Option<Seq<char>>>, usize)) -> bool {
    &&& m.0.len() > 2
    &&& m.0[1] is Some
    &&& m.0[2] is Some
    &&& exists|k: int|
        1 <= k <= 200 && #[trigger] reversal_call_at(text_after(content, m.1 as int), m.0[1]->0, k)
    &&& spec_is_threat(m.0[2]->0.reverse())
}

/// How many of the matches `caps` should give a finding.
pub open spec fn count_declared(content: Seq<char>, caps: Seq<(Seq<Option<Seq<char>>>, usize)>) -> nat
    decreases caps.len(),
{
    if caps.len() == 0 {
        0
    } else {
        count_declared(content, caps.drop_last()) + if reversal_declared(content, caps.last()) {
            1nat
        } else {
            0nat
        }
    }
}

proof fn lemma_reverse_entries_complete(content: Seq<char>, caps: Seq<(Seq<Option<Seq<char>>>, usize)>)
    ensures
        reverse_entries(content, caps).len() == count_declared(content, caps),
        forall|k: int|
            0 <= k < caps.len() && reversal_declared(content, #[trigger] caps[k]) ==> reverse_entries(
                content,
                caps,
            ).contains((caps[k].0[1]->0, caps[k].0[2]->0.reverse())),
    decreases caps.len(),
{
    if caps.len() > 0 {
        let rest = caps.drop_last();
        lemma_reverse_entries_complete(content, rest);
        let r = reverse_entries(content, rest);
        assert forall|k: int|
            0 <= k < caps.len() && reversal_declared(content, #[trigger] caps[k]) implies reverse_entries(
            content,
            caps,
        ).contains((caps[k].0[1]->0, caps[k].0[2]->0.reverse())) by {
            let e = (caps[k].0[1]->0, caps[k].0[2]->0.reverse());
            if k < caps.len() - 1 {
                assert(rest[k] == caps[k]);
                assert(r.contains(e));
                let j = choose|j: int| 0 <= j < r.len() && r[j] == e;
                assert(reverse_entries(content, caps)[j] == e);
            } else {
                assert(caps.last() == caps[k]);
                assert(reverse_entries(content, caps) == r.push(e));
                assert(reverse_entries(content, caps)[r.len() as int] == e);
            }
        }
    }
}

/// Completeness of the `StrReverse` detector: every declaration that should give a finding
/// does, and there are exactly as many findings as such declarations.
pub proof fn law_strreverse_complete(content: Seq<char>)
    ensures
        strreverse_obfuscation(content).len() == count_declared(
            content,
            regex_captures_all(DECLARATION_PATTERN@, content),
        ),
        forall|k: int|
            0 <= k < regex_captures_all(DECLARATION_PATTERN@, content).len() && reversal_declared(
                content,
                #[trigger] regex_captures_all(DECLARATION_PATTERN@, content)[k],
            ) ==> strreverse_obfuscation(content).contains(
                (
                    regex_captures_all(DECLARATION_PATTERN@, content)[k].0[1]->0,
                    regex_captures_all(DECLARATION_PATTERN@, content)[k].0[2]->0.reverse(),
                ),
            ),
{
    lemma_reverse_entries_complete(content, regex_captures_all(DECLARATION_PATTERN@, content));
}

/// Recording a non-empty value that is a threat always adds the pair to the findings, even
/// when the variable was reported before, and the memory then gives that value for it.
pub proof fn law_record_reports_every_threat(
    memory: Map<Seq<char>, Seq<char>>,
    results: Seq<(Seq<char>, Seq<char>)>,
    name: Seq<char>,
    value: Seq<char>,
)
    requires
        value.len() > 0,
        spec_is_threat(value),
    ensures
        record_spec(memory, results, name, value).1 == results.push((name, value)),
        record_spec(memory, results, name, value).0 == memory.insert(name, value),
{
}

/// Each assignment statement whose value (resolved against what the earlier statements left
/// in memory) is non-empty and a threat adds its variable and value to the findings, after
/// all earlier findings, whatever those were.
pub proof fn law_stateful_every_threat_assignment(
    earlier: Seq<Seq<char>>,
    statement: Seq<char>,
    name: Seq<char>,
    expression: Seq<char>,
)
    requires
        trim(statement).len() > 0,
        assignment_of(trim(statement)) == Some((name, expression)),
        resolve_expression_spec(expression, run_statements(earlier).0).len() > 0,
        spec_is_threat(resolve_expression_spec(expression, run_statements(earlier).0)),
    ensures
        run_statements(earlier.push(statement)).1 == run_statements(earlier).1.push(
            (name, resolve_expression_spec(expression, run_statements(earlier).0)),
        ),
{
    assert(earlier.push(statement).drop_last() =~= earlier);
    assert(earlier.push(statement).last() == statement);
}

} // verus!
