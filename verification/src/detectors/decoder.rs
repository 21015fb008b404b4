//! Base64 strings in the sample that decode to readable text.
use vstd::prelude::*;
use crate::patterns::{find_all, regex_find_all, BASE64_PATTERN};
use crate::text::{
    is_white_space, lemma_trim_keeps, occurs_in, string_from_chars, trim, trim_chars,
};

verus! {

#[verifier::external_type_specification]
#[verifier::external_body]
pub struct ExDecodeError(base64::DecodeError);

/// The bytes that `base64`'s `BASE64_STANDARD` engine decodes `input` to (`Engine::decode`),
/// or `None` where it reports a `DecodeError`.
pub uninterp spec fn base64_standard_decode(input: Seq<char>) -> Option<Seq<u8>>;

/// Calls `Engine::decode` of `base64::prelude::BASE64_STANDARD` on the bytes of `input`.
/// The contract claims only that the outcome is `base64_standard_decode` of `input`.
#[verifier::external_body]
fn decode_standard(input: &str) -> (res: Result<Vec<u8>, base64::DecodeError>)
    ensures
        match res {
            Ok(bytes) => base64_standard_decode(input@) == Some(bytes@),
            Err(_) => base64_standard_decode(input@) is None,
        },
{
    base64::Engine::decode(&base64::prelude::BASE64_STANDARD, input)
}

/// A byte that reads as text: printable ASCII, line feed or carriage return.
pub open spec fn is_printable_byte(b: u8) -> bool {
    (32 <= b <= 126) || b == 10 || b == 13
}

/// `char::is_alphanumeric` on ASCII characters.
pub open spec fn is_ascii_alphanumeric(c: char) -> bool {
    ('a' <= c <= 'z') || ('A' <= c <= 'Z') || ('0' <= c <= '9')
}

/// Bytes taken one for one as characters (what lossy UTF-8 decoding gives for ASCII).
pub open spec fn bytes_as_chars(bytes: Seq<u8>) -> Seq<char> {
    bytes.map_values(|b: u8| b as char)
}

/// The text that decoded bytes are reported as: when every byte is printable, there are more
/// than four of them and one is a letter or digit, the bytes as characters, trimmed.
pub open spec fn decoded_text(bytes: Seq<u8>) -> Option<Seq<char>> {
    if (forall|i: int| 0 <= i < bytes.len() ==> is_printable_byte(#[trigger] bytes[i])) && bytes.len()
        > 4 && (exists|i: int| 0 <= i < bytes.len() && is_ascii_alphanumeric(#[trigger] bytes[i] as char)) {
        Some(trim(bytes_as_chars(bytes)))
    } else {
        None
    }
}

/// The entry that a base64 candidate gives, if any: the candidate and its decoded text.
pub open spec fn base64_entry(candidate: Seq<char>) -> Option<(Seq<char>, Seq<char>)> {
    match base64_standard_decode(candidate) {
        Some(bytes) => match decoded_text(bytes) {
            Some(t) => Some((candidate, t)),
            None => None,
        },
        None => None,
    }
}

/// The entries of a list of candidates, in order.
pub open spec fn base64_entries(candidates: Seq<Seq<char>>) -> Seq<(Seq<char>, Seq<char>)>
    decreases candidates.len(),
{
    if candidates.len() == 0 {
        Seq::<(Seq<char>, Seq<char>)>::empty()
    } else {
        let rest = base64_entries(candidates.drop_last());
        match base64_entry(candidates.last()) {
            Some(e) => rest.push(e),
            None => rest,
        }
    }
}

/// Every base64 run in `content` that decodes to readable text, with that text.
pub open spec fn base64_strings(content: Seq<char>) -> Seq<(Seq<char>, Seq<char>)> {
    base64_entries(regex_find_all(BASE64_PATTERN@, content))
}

/// The text that decoded bytes are reported as, or `None` when they do not read as text.
pub fn readable_text(bytes: &[u8]) -> (res: Option<String>)
    ensures
        res.deep_view() == decoded_text(bytes@),
{
    let n = bytes.len();
    let mut chars: Vec<char> = Vec::new();
    let mut has_alnum = false;
    let mut i: usize = 0;
    while i < n
        invariant
            i <= n == bytes@.len(),
            chars@ == bytes_as_chars(bytes@.take(i as int)),
            forall|k: int| 0 <= k < i ==> is_printable_byte(#[trigger] bytes@[k]),
            has_alnum == exists|k: int| 0 <= k < i && is_ascii_alphanumeric(#[trigger] bytes@[k] as char),
        decreases n - i,
    {
        let b = bytes[i];
        if !((32 <= b && b <= 126) || b == 10 || b == 13) {
            return None;
        }
        let c = b as char;
        if ('a' <= c && c <= 'z') || ('A' <= c && c <= 'Z') || ('0' <= c && c <= '9') {
            has_alnum = true;
        }
        chars.push(c);
        i = i + 1;
        assert(chars@ =~= bytes_as_chars(bytes@.take(i as int)));
    }
    assert(bytes@.take(n as int) =~= bytes@);
    if n > 4 && has_alnum {
        let trimmed = trim_chars(chars.as_slice());
        Some(string_from_chars(trimmed.as_slice()))
    } else {
        None
    }
}

/// Finds base64 runs in `content`, decodes each with the standard alphabet, and keeps those
/// that decode to readable text, as (run, trimmed text) pairs in order.
pub fn b64_decode_strings(content: &str) -> (res: Vec<(String, String)>)
    ensures
        res.deep_view() == base64_strings(content@),
        forall|k: int|
            0 <= k < res.deep_view().len() ==> occurs_in(content@, #[trigger] res.deep_view()[k].0),
{
    let candidates = find_all(BASE64_PATTERN, content);
    let ghost cv = candidates.deep_view();
    let mut results: Vec<(String, String)> = Vec::new();
    let n = candidates.len();
    let mut i: usize = 0;
    assert(cv.take(0) =~= Seq::<Seq<char>>::empty());
    while i < n
        invariant
            i <= n == candidates@.len(),
            cv == candidates.deep_view(),
            results.deep_view() == base64_entries(cv.take(i as int)),
            forall|k: int| 0 <= k < cv.len() ==> occurs_in(content@, #[trigger] cv[k]),
            forall|k: int|
                0 <= k < results.deep_view().len() ==> occurs_in(content@, #[trigger] results.deep_view()[k].0),
        decreases n - i,
    {
        let candidate = &candidates[i];
        assert(cv.take(i + 1).drop_last() =~= cv.take(i as int));
        assert(cv.take(i + 1).last() == candidate@);
        match decode_standard(candidate.as_str()) {
            Ok(bytes) => {
                match readable_text(bytes.as_slice()) {
                    Some(text) => {
                        let ghost before = results.deep_view();
                        results.push((candidate.clone(), text));
                        assert(results.deep_view() =~= before.push((cv[i as int], text@)));
                        assert(occurs_in(content@, cv[i as int]));
                    },
                    None => {},
                }
            },
            Err(_) => {},
        }
        i = i + 1;
    }
    assert(cv.take(n as int) =~= cv);
    results
}

proof fn lemma_entries_from(candidates: Seq<Seq<char>>)
    ensures
        forall|e: (Seq<char>, Seq<char>)| #[trigger] base64_entries(candidates).contains(e) ==> candidates.contains(e.0)
            && base64_entry(e.0) == Some(e),
    decreases candidates.len(),
{
    if candidates.len() > 0 {
        let rest = candidates.drop_last();
        lemma_entries_from(rest);
        assert forall|e: (Seq<char>, Seq<char>)| #[trigger] base64_entries(candidates).contains(e) implies candidates.contains(e.0)
            && base64_entry(e.0) == Some(e) by {
            let j = choose|j: int| 0 <= j < base64_entries(candidates).len() && base64_entries(candidates)[j] == e;
            if j < base64_entries(rest).len() {
                assert(base64_entries(candidates)[j] == base64_entries(rest)[j]);
                assert(base64_entries(rest).contains(e));
                let k = choose|k: int| 0 <= k < rest.len() && rest[k] == e.0;
                assert(candidates[k] == e.0);
            } else {
                assert(candidates[candidates.len() - 1] == candidates.last());
            }
        }
    }
}

/// Every decoded base64 string that is reported is a run that the pattern found, decodes with
/// the standard alphabet, and reads as text: not empty, trimmed at both ends, and made of
/// printable ASCII, line feeds and carriage returns.
pub proof fn law_base64_findings_readable(content: Seq<char>)
    ensures
        forall|e: (Seq<char>, Seq<char>)| #[trigger] base64_strings(content).contains(e) ==> {
            &&& regex_find_all(BASE64_PATTERN@, content).contains(e.0)
            &&& base64_standard_decode(e.0) is Some
            &&& e.1.len() > 0
            &&& !is_white_space(e.1[0]) && !is_white_space(e.1.last())
            &&& forall|i: int| 0 <= i < e.1.len() ==> is_printable_byte(#[trigger] e.1[i] as u8)
        },
{
    let cands = regex_find_all(BASE64_PATTERN@, content);
    lemma_entries_from(cands);
    assert forall|e: (Seq<char>, Seq<char>)| #[trigger] base64_strings(content).contains(e) implies {
        &&& regex_find_all(BASE64_PATTERN@, content).contains(e.0)
        &&& base64_standard_decode(e.0) is Some
        &&& e.1.len() > 0
        &&& !is_white_space(e.1[0]) && !is_white_space(e.1.last())
        &&& forall|i: int| 0 <= i < e.1.len() ==> is_printable_byte(#[trigger] e.1[i] as u8)
    } by {
        let bytes = base64_standard_decode(e.0)->0;
        let chars = bytes_as_chars(bytes);
        assert(e.1 == trim(chars));
        let k = choose|k: int| 0 <= k < bytes.len() && is_ascii_alphanumeric(#[trigger] bytes[k] as char);
        assert(chars[k] == bytes[k] as char);
        assert(!is_white_space(chars[k]));
        let a = lemma_trim_keeps(chars);
        crate::text::lemma_trim_idempotent(chars);
        assert forall|i: int| 0 <= i < e.1.len() implies is_printable_byte(#[trigger] e.1[i] as u8) by {
            assert(e.1[i] == chars[a + i]);
            assert(chars[a + i] == bytes[a + i] as char);
            assert(is_printable_byte(bytes[a + i]));
        }
    }
}

/// More than four bytes, each printable ASCII (32 to 126), a line feed or a carriage return,
/// at least one of them an ASCII letter or a decimal digit.
pub open spec fn reads_as_text(bytes: Seq<u8>) -> bool {
    &&& bytes.len() > 4
    &&& forall|i: int|
        0 <= i < bytes.len() ==> (32 <= #[trigger] bytes[i] <= 126 || bytes[i] == 10 || bytes[i] == 13)
    &&& exists|i: int|
        0 <= i < bytes.len() && ((48 <= #[trigger] bytes[i] <= 57) || (65 <= bytes[i] <= 90) || (97
            <= bytes[i] <= 122))
}

/// Decoded bytes are reported exactly when they read as text (`reads_as_text`: digits count
/// as much as letters), and what is reported is the bytes as characters, trimmed.
pub proof fn law_readable_text(bytes: Seq<u8>)
    ensures
        decoded_text(bytes) is Some <==> reads_as_text(bytes),
        decoded_text(bytes) matches Some(t) ==> t == trim(bytes.map_values(|b: u8| b as char)),
{
    assert forall|i: int| 0 <= i < bytes.len() implies (is_ascii_alphanumeric(#[trigger] bytes[i] as char)
        <==> ((48 <= bytes[i] <= 57) || (65 <= bytes[i] <= 90) || (97 <= bytes[i] <= 122))) by {
        let b = bytes[i];
        let c = b as char;
        assert(c as u32 == b as u32);
    }
    assert(bytes_as_chars(bytes) =~= bytes.map_values(|b: u8| b as char));
}

/// Every base64 run the pattern finds whose decoded bytes read as text is reported, with its
/// trimmed text.
pub proof fn law_base64_complete(content: Seq<char>)
    ensures
        forall|k: int|
            0 <= k < regex_find_all(BASE64_PATTERN@, content).len() && (base64_standard_decode(
                #[trigger] regex_find_all(BASE64_PATTERN@, content)[k],
            ) matches Some(bytes) && reads_as_text(bytes)) ==> base64_strings(content).contains(
                (
                    regex_find_all(BASE64_PATTERN@, content)[k],
                    trim(
                        base64_standard_decode(regex_find_all(BASE64_PATTERN@, content)[k])->0.map_values(
                            |b: u8| b as char,
                        ),
                    ),
                ),
            ),
{
    let cands = regex_find_all(BASE64_PATTERN@, content);
    assert forall|k: int|
        0 <= k < cands.len() && (base64_standard_decode(#[trigger] cands[k]) matches Some(bytes)
            && reads_as_text(bytes)) implies base64_strings(content).contains(
        (cands[k], trim(base64_standard_decode(cands[k])->0.map_values(|b: u8| b as char))),
    ) by {
        law_readable_text(base64_standard_decode(cands[k])->0);
        lemma_entries_complete(cands, k);
    }
}

proof fn lemma_entries_complete(candidates: Seq<Seq<char>>, k: int)
    requires
        0 <= k < candidates.len(),
        base64_entry(candidates[k]) is Some,
    ensures
        base64_entries(candidates).contains(base64_entry(candidates[k])->0),
    decreases candidates.len(),
{
    let rest = candidates.drop_last();
    let e = base64_entry(candidates[k])->0;
    if k < candidates.len() - 1 {
        assert(rest[k] == candidates[k]);
        lemma_entries_complete(rest, k);
        let j = choose|j: int| 0 <= j < base64_entries(rest).len() && base64_entries(rest)[j] == e;
        assert(base64_entries(candidates)[j] == e);
    } else {
        assert(candidates.last() == candidates[k]);
        assert(base64_entries(candidates).last() == e);
        assert(base64_entries(candidates)[base64_entries(candidates).len() - 1] == e);
    }
}

} // verus!
