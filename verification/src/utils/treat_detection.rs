//! The rule that decides whether a piece of text looks like a threat indicator.
use vstd::prelude::*;
use crate::text::{ascii_lower, chars_of, contains_chars, occurs_in, to_ascii_lower};

verus! {

/// How many indicators the rule knows.
pub open spec fn indicator_count() -> int {
    25
}

/// The indicators, in lower case: schemes, script hosts, loaders and payload extensions.
pub open spec fn threat_indicator(k: int) -> Seq<char> {
    if k == 0 { "http://"@ }
    else if k == 1 { "https://"@ }
    else if k == 2 { "powershell"@ }
    else if k == 3 { "cmd.exe"@ }
    else if k == 4 { "wscript"@ }
    else if k == 5 { "cscript"@ }
    else if k == 6 { "mshta"@ }
    else if k == 7 { "rundll32"@ }
    else if k == 8 { "regsvr32"@ }
    else if k == 9 { "certutil"@ }
    else if k == 10 { "bitsadmin"@ }
    else if k == 11 { "createobject"@ }
    else if k == 12 { "getobject"@ }
    else if k == 13 { "script:"@ }
    else if k == 14 { "frombase64string"@ }
    else if k == 15 { "downloadstring"@ }
    else if k == 16 { "downloadfile"@ }
    else if k == 17 { "invoke-expression"@ }
    else if k == 18 { "start-process"@ }
    else if k == 19 { "execute"@ }
    else if k == 20 { ".exe"@ }
    else if k == 21 { ".dll"@ }
    else if k == 22 { ".ps1"@ }
    else if k == 23 { ".vbs"@ }
    else { ".hta"@ }
}

/// `s` with ASCII upper-case letters made lower-case.
pub open spec fn ascii_lowercase(s: Seq<char>) -> Seq<char> {
    s.map_values(|c: char| ascii_lower(c))
}

/// A text is a threat when, ignoring ASCII case, one of the indicators stands in it.
pub open spec fn spec_is_threat(s: Seq<char>) -> bool {
    exists|k: int| 0 <= k < indicator_count() && #[trigger] occurs_in(ascii_lowercase(s), threat_indicator(k))
}

fn indicator(k: usize) -> (res: &'static str)
    requires
        k < indicator_count(),
    ensures
        res@ == threat_indicator(k as int),
{
    if k == 0 { "http://" }
    else if k == 1 { "https://" }
    else if k == 2 { "powershell" }
    else if k == 3 { "cmd.exe" }
    else if k == 4 { "wscript" }
    else if k == 5 { "cscript" }
    else if k == 6 { "mshta" }
    else if k == 7 { "rundll32" }
    else if k == 8 { "regsvr32" }
    else if k == 9 { "certutil" }
    else if k == 10 { "bitsadmin" }
    else if k == 11 { "createobject" }
    else if k == 12 { "getobject" }
    else if k == 13 { "script:" }
    else if k == 14 { "frombase64string" }
    else if k == 15 { "downloadstring" }
    else if k == 16 { "downloadfile" }
    else if k == 17 { "invoke-expression" }
    else if k == 18 { "start-process" }
    else if k == 19 { "execute" }
    else if k == 20 { ".exe" }
    else if k == 21 { ".dll" }
    else if k == 22 { ".ps1" }
    else if k == 23 { ".vbs" }
    else { ".hta" }
}

/// `s` with ASCII upper-case letters made lower-case.
pub fn lowercase_ascii(s: &[char]) -> (res: Vec<char>)
    ensures
        res@ == ascii_lowercase(s@),
{
    let mut res: Vec<char> = Vec::new();
    let n = s.len();
    let mut i: usize = 0;
    while i < n
        invariant
            i <= n == s@.len(),
            res@ == ascii_lowercase(s@.take(i as int)),
        decreases n - i,
    {
        res.push(to_ascii_lower(s[i]));
        i = i + 1;
        assert(res@ =~= ascii_lowercase(s@.take(i as int)));
    }
    assert(s@.take(n as int) =~= s@);
    res
}

/// Whether `text` holds one of the threat indicators, ignoring ASCII case.
pub fn is_threat(text: &str) -> (res: bool)
    ensures
        res == spec_is_threat(text@),
{
    let chars = chars_of(text);
    let lowered = lowercase_ascii(chars.as_slice());
    let mut k: usize = 0;
    while k < 25
        invariant
            k <= 25,
            lowered@ == ascii_lowercase(text@),
            forall|t: int| 0 <= t < k ==> !occurs_in(lowered@, threat_indicator(t)),
        decreases 25 - k,
    {
        let needle = chars_of(indicator(k));
        if contains_chars(lowered.as_slice(), needle.as_slice()) {
            return true;
        }
        k = k + 1;
    }
    false
}

/// The rule ignores ASCII case: a text is a threat exactly when its lower-case form is.
pub proof fn law_threat_ignores_case(s: Seq<char>)
    ensures
        spec_is_threat(s) == spec_is_threat(ascii_lowercase(s)),
{
    assert forall|i: int| 0 <= i < s.len() implies #[trigger] ascii_lower(ascii_lower(s[i])) == ascii_lower(s[i]) by {
        let c = s[i];
        if 'A' <= c <= 'Z' {
            let d = ((c as u32) + 32) as char;
            assert(d as u32 == (c as u32) + 32);
            assert('a' <= d <= 'z');
        }
    }
    assert(ascii_lowercase(ascii_lowercase(s)) =~= ascii_lowercase(s));
}

/// The empty text is no threat: every indicator has at least one character.
pub proof fn lemma_empty_not_threat()
    ensures
        !spec_is_threat(Seq::<char>::empty()),
{
    reveal_strlit("http://");
    reveal_strlit("https://");
    reveal_strlit("powershell");
    reveal_strlit("cmd.exe");
    reveal_strlit("wscript");
    reveal_strlit("cscript");
    reveal_strlit("mshta");
    reveal_strlit("rundll32");
    reveal_strlit("regsvr32");
    reveal_strlit("certutil");
    reveal_strlit("bitsadmin");
    reveal_strlit("createobject");
    reveal_strlit("getobject");
    reveal_strlit("script:");
    reveal_strlit("frombase64string");
    reveal_strlit("downloadstring");
    reveal_strlit("downloadfile");
    reveal_strlit("invoke-expression");
    reveal_strlit("start-process");
    reveal_strlit("execute");
    reveal_strlit(".exe");
    reveal_strlit(".dll");
    reveal_strlit(".ps1");
    reveal_strlit(".vbs");
    reveal_strlit(".hta");
    let e = Seq::<char>::empty();
    assert(ascii_lowercase(e) =~= e);
    assert forall|k: int| 0 <= k < indicator_count() implies !#[trigger] occurs_in(
        ascii_lowercase(e),
        threat_indicator(k),
    ) by {
        assert(threat_indicator(k).len() > 0);
    }
}

} // verus!
