//! Payloads hidden as two number arrays whose element-wise sums are character codes.
use vstd::prelude::*;
use crate::numbers::{parse_i32, parse_i32_spec};
use crate::patterns::{captures_all, regex_captures_all, ARRAY_PATTERN};
use crate::text::{
    chars_of, split_by, split_chars, string_from_chars, to_uppercase, trim, trim_chars,
    unicode_uppercase, Separator,
};
use crate::utils::treat_detection::{is_threat, spec_is_threat};

verus! {

/// `s` with every `&H` (hexadecimal literal marker) taken out, scanning left to right
/// (`str::replace(s, "&H", "")`).
pub open spec fn remove_hex_marks(s: Seq<char>) -> Seq<char>
    decreases s.len(),
{
    if s.len() == 0 {
        Seq::<char>::empty()
    } else if s.len() >= 2 && s[0] == '&' && s[1] == 'H' {
        remove_hex_marks(s.skip(2))
    } else {
        seq![s[0]] + remove_hex_marks(s.skip(1))
    }
}

/// An array element as it is read: trimmed, upper-cased, without `&H` markers.
pub open spec fn clean_element(part: Seq<char>) -> Seq<char> {
    remove_hex_marks(unicode_uppercase(trim(part)))
}

/// The number a cleaned element stands for: hexadecimal first, decimal when that fails.
pub open spec fn element_value(clean: Seq<char>) -> Option<i32> {
    match parse_i32_spec(clean, 16) {
        Some(v) => Some(v),
        None => parse_i32_spec(clean, 10),
    }
}

/// The numbers that the comma-separated elements `parts` give, skipping those that are none.
pub open spec fn element_values(parts: Seq<Seq<char>>) -> Seq<i32>
    decreases parts.len(),
{
    if parts.len() == 0 {
        Seq::<i32>::empty()
    } else {
        let rest = element_values(parts.drop_last());
        match element_value(clean_element(parts.last())) {
            Some(v) => rest.push(v),
            None => rest,
        }
    }
}

/// The numbers of the contents of one `Array(...)`.
pub open spec fn array_values(contents: Seq<char>) -> Seq<i32> {
    element_values(split_by(contents, Separator::Comma))
}

/// The arrays that the captures give: those with at least five numbers, in order.
pub open spec fn extracted_arrays(captures: Seq<(Seq<Option<Seq<char>>>, usize)>) -> Seq<Seq<i32>>
    decreases captures.len(),
{
    if captures.len() == 0 {
        Seq::<Seq<i32>>::empty()
    } else {
        let rest = extracted_arrays(captures.drop_last());
        let cap = captures.last().0;
        if cap.len() > 1 && cap[1] is Some && array_values(cap[1]->0).len() >= 5 {
            rest.push(array_values(cap[1]->0))
        } else {
            rest
        }
    }
}

/// The characters that the first `k` element-wise sums of `a` and `b` give: each sum in the
/// printable ASCII range 32..=126 is a character, the others are dropped.
pub open spec fn shift_prefix(a: Seq<i32>, b: Seq<i32>, k: int) -> Seq<char>
    decreases k,
{
    if k <= 0 {
        Seq::<char>::empty()
    } else {
        let rest = shift_prefix(a, b, k - 1);
        let v = a[k - 1] + b[k - 1];
        if 32 <= v <= 126 {
            rest.push((v as u8) as char)
        } else {
            rest
        }
    }
}

/// The text that two arrays decode to, over the length of the shorter one.
pub open spec fn shift_decode(a: Seq<i32>, b: Seq<i32>) -> Seq<char> {
    shift_prefix(a, b, if a.len() <= b.len() { a.len() as int } else { b.len() as int })
}

/// The decoded texts of the first `k` neighbouring pairs of arrays that are threats.
pub open spec fn shifted_threats(arrays: Seq<Seq<i32>>, k: int) -> Seq<Seq<char>>
    decreases k,
{
    if k <= 0 {
        Seq::<Seq<char>>::empty()
    } else {
        let rest = shifted_threats(arrays, k - 1);
        let t = shift_decode(arrays[k - 1], arrays[k]);
        if spec_is_threat(t) {
            rest.push(t)
        } else {
            rest
        }
    }
}

/// What the shift detector reports for `content`.
pub open spec fn shift_obfuscation(content: Seq<char>) -> Seq<Seq<char>> {
    let arrays = extracted_arrays(regex_captures_all(ARRAY_PATTERN@, content));
    shifted_threats(arrays, arrays.len() - 1)
}

/// `s` with every `&H` taken out, left to right.
pub fn strip_hex_marks(s: &[char]) -> (res: Vec<char>)
    ensures
        res@ == remove_hex_marks(s@),
{
    let n = s.len();
    let mut out: Vec<char> = Vec::new();
    let mut i: usize = 0;
    assert(s@.skip(0) =~= s@);
    while i < n
        invariant
            i <= n == s@.len(),
            out@ + remove_hex_marks(s@.skip(i as int)) == remove_hex_marks(s@),
        decreases n - i,
    {
        let ghost t = s@.skip(i as int);
        if i + 1 < n && s[i] == '&' && s[i + 1] == 'H' {
            assert(t.skip(2) =~= s@.skip(i + 2));
            i = i + 2;
        } else {
            assert(t.skip(1) =~= s@.skip(i + 1));
            let ghost before = out@;
            out.push(s[i]);
            assert(out@ + remove_hex_marks(s@.skip(i + 1)) =~= before + (seq![s@[i as int]]
                + remove_hex_marks(s@.skip(i + 1))));
            i = i + 1;
        }
    }
    assert(s@.skip(n as int) =~= Seq::<char>::empty());
    assert(out@ + Seq::<char>::empty() =~= out@);
    out
}

/// The number a cleaned element stands for: hexadecimal first, decimal when that fails.
pub fn element_number(clean: &[char]) -> (res: Option<i32>)
    ensures
        res == element_value(clean@),
{
    match parse_i32(clean, 16) {
        Some(v) => Some(v),
        None => parse_i32(clean, 10),
    }
}

/// The numbers in the contents of one `Array(...)`, element by element.
pub fn parse_array(contents: &str) -> (res: Vec<i32>)
    ensures
        res@ == array_values(contents@),
{
    let chars = chars_of(contents);
    let parts = split_chars(chars.as_slice(), Separator::Comma);
    let ghost pv = parts.deep_view();
    let mut numbers: Vec<i32> = Vec::new();
    let n = parts.len();
    let mut i: usize = 0;
    assert(pv.take(0) =~= Seq::<Seq<char>>::empty());
    while i < n
        invariant
            i <= n == parts@.len(),
            pv == parts.deep_view(),
            pv == split_by(contents@, Separator::Comma),
            numbers@ == element_values(pv.take(i as int)),
        decreases n - i,
    {
        assert(parts[i as int].deep_view() =~= parts[i as int]@);
        let trimmed = trim_chars(parts[i].as_slice());
        let trimmed_text = string_from_chars(trimmed.as_slice());
        let upper = to_uppercase(trimmed_text.as_str());
        let upper_chars = chars_of(upper.as_str());
        let clean = strip_hex_marks(upper_chars.as_slice());
        assert(pv.take(i + 1).drop_last() =~= pv.take(i as int));
        match element_number(clean.as_slice()) {
            Some(v) => numbers.push(v),
            None => {},
        }
        i = i + 1;
    }
    assert(pv.take(n as int) =~= pv);
    numbers
}

/// The text that two arrays decode to: the element-wise sums, over the shorter length,
/// that are printable ASCII codes, as characters. Sums are taken exactly.
pub fn shift_decode_arrays(a: &[i32], b: &[i32]) -> (res: String)
    ensures
        res@ == shift_decode(a@, b@),
{
    let m = if a.len() <= b.len() {
        a.len()
    } else {
        b.len()
    };
    let mut out: Vec<char> = Vec::new();
    let mut j: usize = 0;
    while j < m
        invariant
            j <= m <= a@.len(),
            m <= b@.len(),
            m == if a@.len() <= b@.len() { a@.len() } else { b@.len() },
            out@ == shift_prefix(a@, b@, j as int),
        decreases m - j,
    {
        let v = (a[j] as i64) + (b[j] as i64);
        if 32 <= v && v <= 126 {
            out.push((v as u8) as char);
        }
        j = j + 1;
    }
    string_from_chars(out.as_slice())
}

/// For each neighbouring pair of arrays, the text it decodes to, when that is a threat.
pub fn decode_shifted_arrays(arrays: &Vec<Vec<i32>>) -> (res: Vec<String>)
    ensures
        res.deep_view() == shifted_threats(arrays.deep_view(), arrays@.len() - 1),
{
    let ghost av = arrays.deep_view();
    let mut found: Vec<String> = Vec::new();
    let n = arrays.len();
    let mut i: usize = 0;
    while i + 1 < n
        invariant
            i <= n,
            n == arrays@.len(),
            av == arrays.deep_view(),
            i + 1 >= n ==> i == 0 || i == n - 1,
            found.deep_view() == shifted_threats(av, i as int),
        decreases n - i,
    {
        assert(arrays[i as int].deep_view() =~= arrays[i as int]@);
        assert(arrays[i + 1].deep_view() =~= arrays[i + 1]@);
        let text = shift_decode_arrays(arrays[i].as_slice(), arrays[i + 1].as_slice());
        if is_threat(text.as_str()) {
            let ghost before = found.deep_view();
            found.push(text);
            assert(found.deep_view() =~= before.push(text@));
        }
        i = i + 1;
    }
    assert(shifted_threats(av, i as int) == shifted_threats(av, n - 1));
    found
}

/// The arrays of a list of `Array(...)` captures (group 1 holds the contents): those with at
/// least five numbers, in order.
pub fn arrays_from_captures(caps: &Vec<(Vec<Option<String>>, usize)>) -> (res: Vec<Vec<i32>>)
    ensures
        res.deep_view() == extracted_arrays(caps.deep_view()),
{
    let ghost cv = caps.deep_view();
    let mut arrays: Vec<Vec<i32>> = Vec::new();
    let n = caps.len();
    let mut i: usize = 0;
    assert(cv.take(0) =~= Seq::<(Seq<Option<Seq<char>>>, usize)>::empty());
    while i < n
        invariant
            i <= n == caps@.len(),
            cv == caps.deep_view(),
            arrays.deep_view() == extracted_arrays(cv.take(i as int)),
        decreases n - i,
    {
        assert(cv.take(i + 1).drop_last() =~= cv.take(i as int));
        let cap = &caps[i].0;
        assert(cv.take(i + 1).last().0 == cap.deep_view());
        if cap.len() > 1 {
            match &cap[1] {
                Some(contents) => {
                    let numbers = parse_array(contents.as_str());
                    if numbers.len() >= 5 {
                        let ghost before = arrays.deep_view();
                        assert(numbers.deep_view() =~= numbers@);
                        arrays.push(numbers);
                        assert(arrays.deep_view() =~= before.push(numbers@));
                    }
                },
                None => {},
            }
        }
        i = i + 1;
    }
    assert(cv.take(n as int) =~= cv);
    arrays
}

/// Finds `Array(...)` lists in `content`, keeps those with at least five numbers, and decodes
/// each neighbouring pair by adding their elements; decoded texts that are threats are
/// reported in order.
pub fn hunt_shift_obfuscation(content: &str) -> (res: Vec<String>)
    ensures
        res.deep_view() == shift_obfuscation(content@),
{
    let caps = captures_all(ARRAY_PATTERN, content);
    let arrays = arrays_from_captures(&caps);
    decode_shifted_arrays(&arrays)
}

proof fn lemma_shift_prefix_printable(a: Seq<i32>, b: Seq<i32>, k: int)
    ensures
        shift_prefix(a, b, k).len() <= if k < 0 { 0 } else { k },
        forall|i: int|
            0 <= i < shift_prefix(a, b, k).len() ==> 32 <= (#[trigger] shift_prefix(a, b, k)[i]) as u32
                <= 126,
    decreases k,
{
    if k > 0 {
        lemma_shift_prefix_printable(a, b, k - 1);
        let rest = shift_prefix(a, b, k - 1);
        let v = a[k - 1] + b[k - 1];
        if 32 <= v <= 126 {
            let c = (v as u8) as char;
            assert(c as u32 == v);
            assert forall|i: int| 0 <= i < shift_prefix(a, b, k).len() implies 32 <= (
            #[trigger] shift_prefix(a, b, k)[i]) as u32 <= 126 by {
                if i < rest.len() {
                    assert(shift_prefix(a, b, k)[i] == rest[i]);
                }
            }
        }
    }
}

proof fn lemma_shifted_threats(arrays: Seq<Seq<i32>>, k: int)
    ensures
        forall|t: Seq<char>| #[trigger] shifted_threats(arrays, k).contains(t) ==> spec_is_threat(t)
            && exists|i: int| 0 <= i < k && t == shift_decode(#[trigger] arrays[i], arrays[i + 1]),
    decreases k,
{
    if k > 0 {
        lemma_shifted_threats(arrays, k - 1);
        let rest = shifted_threats(arrays, k - 1);
        assert forall|t: Seq<char>| #[trigger] shifted_threats(arrays, k).contains(t) implies spec_is_threat(t)
            && exists|i: int| 0 <= i < k && t == shift_decode(#[trigger] arrays[i], arrays[i + 1]) by {
            let j = choose|j: int| 0 <= j < shifted_threats(arrays, k).len() && shifted_threats(arrays, k)[j] == t;
            if j < rest.len() {
                assert(shifted_threats(arrays, k)[j] == rest[j]);
                assert(rest.contains(t));
            } else {
                assert(t == shift_decode(arrays[k - 1], arrays[k]));
            }
        }
    }
}

/// Every text the shift detector reports is a threat, was decoded from two neighbouring
/// arrays of the sample, and is made of printable ASCII characters (codes 32 to 126), no
/// longer than the shorter of the two arrays.
pub proof fn law_shift_findings(content: Seq<char>)
    ensures
        forall|t: Seq<char>| #[trigger] shift_obfuscation(content).contains(t) ==> {
            let arrays = extracted_arrays(regex_captures_all(ARRAY_PATTERN@, content));
            &&& spec_is_threat(t)
            &&& exists|i: int| 0 <= i < arrays.len() - 1 && t == shift_decode(#[trigger] arrays[i], arrays[i + 1])
            &&& forall|c: int| 0 <= c < t.len() ==> 32 <= (#[trigger] t[c]) as u32 <= 126
        },
{
    let arrays = extracted_arrays(regex_captures_all(ARRAY_PATTERN@, content));
    lemma_shifted_threats(arrays, arrays.len() - 1);
    assert forall|t: Seq<char>| #[trigger] shift_obfuscation(content).contains(t) implies {
        &&& spec_is_threat(t)
        &&& exists|i: int| 0 <= i < arrays.len() - 1 && t == shift_decode(#[trigger] arrays[i], arrays[i + 1])
        &&& forall|c: int| 0 <= c < t.len() ==> 32 <= (#[trigger] t[c]) as u32 <= 126
    } by {
        let i = choose|i: int| 0 <= i < arrays.len() - 1 && t == shift_decode(#[trigger] arrays[i], arrays[i + 1]);
        let a = arrays[i];
        let b = arrays[i + 1];
        lemma_shift_prefix_printable(a, b, if a.len() <= b.len() { a.len() as int } else { b.len() as int });
    }
}

proof fn lemma_shift_prefix_agree(a1: Seq<i32>, b1: Seq<i32>, a2: Seq<i32>, b2: Seq<i32>, k: int)
    requires
        forall|j: int| 0 <= j < k ==> a1[j] == a2[j] && b1[j] == b2[j],
    ensures
        shift_prefix(a1, b1, k) == shift_prefix(a2, b2, k),
    decreases k,
{
    if k > 0 {
        lemma_shift_prefix_agree(a1, b1, a2, b2, k - 1);
        assert(a1[k - 1] == a2[k - 1] && b1[k - 1] == b2[k - 1]);
    }
}

/// Arrays with nothing to pair decode to nothing.
pub proof fn law_shift_decode_empty(a: Seq<i32>, b: Seq<i32>)
    requires
        a.len() == 0 || b.len() == 0,
    ensures
        shift_decode(a, b).len() == 0,
{
}

/// Decoding one more pair of elements adds exactly the character whose code is their sum when
/// that sum is printable ASCII (32, a space, to 126), and nothing otherwise.
pub proof fn law_shift_decode_extend(a: Seq<i32>, b: Seq<i32>, x: i32, y: i32)
    requires
        a.len() == b.len(),
    ensures
        shift_decode(a.push(x), b.push(y)) == shift_decode(a, b) + if 32 <= x + y <= 126 {
            seq![((x + y) as u8) as char]
        } else {
            Seq::<char>::empty()
        },
{
    let n = a.len() as int;
    let a2 = a.push(x);
    let b2 = b.push(y);
    lemma_shift_prefix_agree(a2, b2, a, b, n);
    assert(a2[n] == x && b2[n] == y);
    if 32 <= x + y <= 126 {
        assert(shift_prefix(a, b, n).push(((x + y) as u8) as char) =~= shift_prefix(a, b, n) + seq![
            ((x + y) as u8) as char,
        ]);
    } else {
        assert(shift_prefix(a, b, n) + Seq::<char>::empty() =~= shift_prefix(a, b, n));
    }
}

/// Only the elements up to the length of the shorter array take part in the decoding.
pub proof fn law_shift_decode_shorter(a: Seq<i32>, b: Seq<i32>)
    ensures
        ({
            let m = if a.len() <= b.len() { a.len() as int } else { b.len() as int };
            shift_decode(a, b) == shift_decode(a.take(m), b.take(m))
        }),
{
    let m = if a.len() <= b.len() { a.len() as int } else { b.len() as int };
    lemma_shift_prefix_agree(a, b, a.take(m), b.take(m), m);
}

} // verus!
