//! The findings of a scan, and the evidence report written from them.
use vstd::prelude::*;
use vstd::string::StringExecFns;

verus! {

/// Everything a scan found.
pub struct ScanResult {
    pub urls: Vec<String>,
    pub ips: Vec<String>,
    /// (original, decoded)
    pub base64_strings: Vec<(String, String)>,
    pub reversed_strings: Vec<(String, String)>,
    pub script_obfuscation: Vec<(String, String)>,
    pub stateful_obfuscation: Vec<(String, String)>,
    pub shifted_array_strings: Vec<String>,
    pub plaintext_iocs: Vec<String>,
}

/// The text that `format!("{:?}", s)` gives for a string: `s` quoted, with escapes.
pub uninterp spec fn debug_string(s: Seq<char>) -> Seq<char>;

/// Calls the `Debug` formatting of `str` (`format!("{:?}", s)`); the contract claims only
/// that the result is `debug_string` of the argument.
#[verifier::external_body]
fn debug_quoted(s: &str) -> (res: String)
    ensures
        res@ == debug_string(s@),
{
    format!("{:?}", s)
}

/// One line per item: a line break, `label`, the item.
pub open spec fn labelled_lines(label: Seq<char>, items: Seq<Seq<char>>) -> Seq<char>
    decreases items.len(),
{
    if items.len() == 0 {
        Seq::<char>::empty()
    } else {
        labelled_lines(label, items.drop_last()) + "\n"@ + label + items.last()
    }
}

/// Two lines per pair: `first` and the original, then `second` and the decoded text.
pub open spec fn labelled_pairs(first: Seq<char>, second: Seq<char>, items: Seq<(Seq<char>, Seq<char>)>) -> Seq<
    char,
>
    decreases items.len(),
{
    if items.len() == 0 {
        Seq::<char>::empty()
    } else {
        labelled_pairs(first, second, items.drop_last()) + "\n"@ + first + items.last().0 + "\n"@
            + second + items.last().1
    }
}

/// A section: its heading and its lines, or nothing when there are no items.
pub open spec fn section(has_items: bool, heading: Seq<char>, body: Seq<char>) -> Seq<char> {
    if has_items {
        heading + body
    } else {
        Seq::<char>::empty()
    }
}

/// The section listing the IP addresses.
pub open spec fn ip_section(r: ScanResult) -> Seq<char> {
    section(r.ips@.len() > 0, "\n## [ NETWORK IOCs ] ---"@, labelled_lines("IP: "@, r.ips.deep_view()))
}

/// The section listing the URLs.
pub open spec fn url_section(r: ScanResult) -> Seq<char> {
    section(r.urls@.len() > 0, "\n## [ URL IOCs ]"@, labelled_lines("URL: "@, r.urls.deep_view()))
}

/// The section listing the decoded base64 strings.
pub open spec fn base64_section(r: ScanResult) -> Seq<char> {
    section(
        r.base64_strings@.len() > 0,
        "\n## [ DECODED BASE64 ]"@,
        labelled_pairs("Original: "@, "↳ Decoded: "@, r.base64_strings.deep_view()),
    )
}

/// The section listing the reversed strings.
pub open spec fn reversed_section(r: ScanResult) -> Seq<char> {
    section(
        r.reversed_strings@.len() > 0,
        "\n## [ OBFUSCATION DETECTED (StrReverse) ]"@,
        labelled_pairs("Original: "@, "↳ Reversed: "@, r.reversed_strings.deep_view()),
    )
}

/// The section listing the texts decoded from shifted arrays, each quoted as `Debug` does.
pub open spec fn shifted_section(r: ScanResult) -> Seq<char> {
    section(
        r.shifted_array_strings@.len() > 0,
        "\n## [ OBFUSCATION DETECTED (Array Math) ]"@,
        labelled_lines(
            "Array Shift Decoded: "@,
            r.shifted_array_strings.deep_view().map_values(|s: Seq<char>| debug_string(s)),
        ),
    )
}

/// The section listing the plaintext indicators.
pub open spec fn plaintext_section(r: ScanResult) -> Seq<char> {
    section(
        r.plaintext_iocs@.len() > 0,
        "\n## [ PLAINTEXT THREAT SCAN ]"@,
        labelled_lines("Plaintext IOC Detected: "@, r.plaintext_iocs.deep_view()),
    )
}

/// The evidence report of a scan: a title, then a section for each non-empty list of IPs,
/// URLs, base64 strings, reversed strings, shifted arrays and plaintext indicators, in that
/// order.
pub open spec fn report_text(r: ScanResult) -> Seq<char> {
    "# --- [ KOVACS EVIDENCES ] ---\n"@ + ip_section(r) + url_section(r) + base64_section(r)
        + reversed_section(r) + shifted_section(r) + plaintext_section(r)
}

/// Each string quoted as `Debug` does.
fn quote_all(items: &Vec<String>) -> (res: Vec<String>)
    ensures
        res.deep_view() == items.deep_view().map_values(|s: Seq<char>| debug_string(s)),
{
    let mut quoted: Vec<String> = Vec::new();
    let n = items.len();
    let mut i: usize = 0;
    while i < n
        invariant
            i <= n == items@.len(),
            quoted@.len() == i,
            forall|k: int| 0 <= k < i ==> #[trigger] quoted.deep_view()[k] == debug_string(items.deep_view()[k]),
        decreases n - i,
    {
        let q = debug_quoted(items[i].as_str());
        let ghost before = quoted.deep_view();
        quoted.push(q);
        assert(quoted.deep_view() =~= before.push(debug_string(items.deep_view()[i as int])));
        i = i + 1;
    }
    assert(quoted.deep_view() =~= items.deep_view().map_values(|s: Seq<char>| debug_string(s)));
    quoted
}

fn append_lines(out: &mut String, label: &str, items: &Vec<String>)
    ensures
        final(out)@ == old(out)@ + labelled_lines(label@, items.deep_view()),
{
    let ghost start = out@;
    let ghost iv = items.deep_view();
    let n = items.len();
    let mut i: usize = 0;
    assert(iv.take(0) =~= Seq::<Seq<char>>::empty());
    assert(start + Seq::<char>::empty() =~= start);
    while i < n
        invariant
            i <= n == items@.len(),
            iv == items.deep_view(),
            out@ == start + labelled_lines(label@, iv.take(i as int)),
        decreases n - i,
    {
        assert(iv.take(i + 1).drop_last() =~= iv.take(i as int));
        out.append("\n");
        out.append(label);
        out.append(items[i].as_str());
        let ghost prev = labelled_lines(label@, iv.take(i as int));
        assert(out@ =~= start + (prev + "\n"@ + label@ + iv[i as int]));
        i = i + 1;
    }
    assert(iv.take(n as int) =~= iv);
}

fn append_pairs(out: &mut String, first: &str, second: &str, items: &Vec<(String, String)>)
    ensures
        final(out)@ == old(out)@ + labelled_pairs(first@, second@, items.deep_view()),
{
    let ghost start = out@;
    let ghost iv = items.deep_view();
    let n = items.len();
    let mut i: usize = 0;
    assert(iv.take(0) =~= Seq::<(Seq<char>, Seq<char>)>::empty());
    assert(start + Seq::<char>::empty() =~= start);
    while i < n
        invariant
            i <= n == items@.len(),
            iv == items.deep_view(),
            out@ == start + labelled_pairs(first@, second@, iv.take(i as int)),
        decreases n - i,
    {
        assert(iv.take(i + 1).drop_last() =~= iv.take(i as int));
        out.append("\n");
        out.append(first);
        out.append(items[i].0.as_str());
        out.append("\n");
        out.append(second);
        out.append(items[i].1.as_str());
        let ghost prev = labelled_pairs(first@, second@, iv.take(i as int));
        assert(out@ =~= start + (prev + "\n"@ + first@ + iv[i as int].0 + "\n"@ + second@
            + iv[i as int].1));
        i = i + 1;
    }
    assert(iv.take(n as int) =~= iv);
}

impl ScanResult {
    /// A result with nothing found.
    pub fn new() -> (res: Self)
        ensures
            res.urls@.len() == 0,
            res.ips@.len() == 0,
            res.base64_strings@.len() == 0,
            res.reversed_strings@.len() == 0,
            res.script_obfuscation@.len() == 0,
            res.stateful_obfuscation@.len() == 0,
            res.shifted_array_strings@.len() == 0,
            res.plaintext_iocs@.len() == 0,
    {
        ScanResult {
            urls: Vec::new(),
            ips: Vec::new(),
            base64_strings: Vec::new(),
            reversed_strings: Vec::new(),
            script_obfuscation: Vec::new(),
            stateful_obfuscation: Vec::new(),
            shifted_array_strings: Vec::new(),
            plaintext_iocs: Vec::new(),
        }
    }

    /// The evidence report in Markdown.
    pub fn report(&self) -> (res: String)
        ensures
            res@ == report_text(*self),
    {
        let mut evidence = String::from_str("# --- [ KOVACS EVIDENCES ] ---\n");
        self.append_ip_section(&mut evidence);
        self.append_url_section(&mut evidence);
        self.append_base64_section(&mut evidence);
        self.append_reversed_section(&mut evidence);
        self.append_shifted_section(&mut evidence);
        self.append_plaintext_section(&mut evidence);
        evidence
    }

    fn append_ip_section(&self, out: &mut String)
        ensures
            final(out)@ == old(out)@ + ip_section(*self),
    {
        if self.ips.len() > 0 {
            out.append("\n## [ NETWORK IOCs ] ---");
            append_lines(out, "IP: ", &self.ips);
        } else {
            assert(old(out)@ + Seq::<char>::empty() =~= old(out)@);
        }
    }

    fn append_url_section(&self, out: &mut String)
        ensures
            final(out)@ == old(out)@ + url_section(*self),
    {
        if self.urls.len() > 0 {
            out.append("\n## [ URL IOCs ]");
            append_lines(out, "URL: ", &self.urls);
        } else {
            assert(old(out)@ + Seq::<char>::empty() =~= old(out)@);
        }
    }

    fn append_base64_section(&self, out: &mut String)
        ensures
            final(out)@ == old(out)@ + base64_section(*self),
    {
        if self.base64_strings.len() > 0 {
            out.append("\n## [ DECODED BASE64 ]");
            append_pairs(out, "Original: ", "↳ Decoded: ", &self.base64_strings);
        } else {
            assert(old(out)@ + Seq::<char>::empty() =~= old(out)@);
        }
    }

    fn append_reversed_section(&self, out: &mut String)
        ensures
            final(out)@ == old(out)@ + reversed_section(*self),
    {
        if self.reversed_strings.len() > 0 {
            out.append("\n## [ OBFUSCATION DETECTED (StrReverse) ]");
            append_pairs(out, "Original: ", "↳ Reversed: ", &self.reversed_strings);
        } else {
            assert(old(out)@ + Seq::<char>::empty() =~= old(out)@);
        }
    }

    fn append_shifted_section(&self, out: &mut String)
        ensures
            final(out)@ == old(out)@ + shifted_section(*self),
    {
        if self.shifted_array_strings.len() > 0 {
            out.append("\n## [ OBFUSCATION DETECTED (Array Math) ]");
            let quoted = quote_all(&self.shifted_array_strings);
            append_lines(out, "Array Shift Decoded: ", &quoted);
        } else {
            assert(old(out)@ + Seq::<char>::empty() =~= old(out)@);
        }
    }

    fn append_plaintext_section(&self, out: &mut String)
        ensures
            final(out)@ == old(out)@ + plaintext_section(*self),
    {
        if self.plaintext_iocs.len() > 0 {
            out.append("\n## [ PLAINTEXT THREAT SCAN ]");
            append_lines(out, "Plaintext IOC Detected: ", &self.plaintext_iocs);
        } else {
            assert(old(out)@ + Seq::<char>::empty() =~= old(out)@);
        }
    }
}

/// A scan that found nothing reports its title alone.
pub proof fn law_empty_report(r: ScanResult)
    requires
        r.urls@.len() == 0,
        r.ips@.len() == 0,
        r.base64_strings@.len() == 0,
        r.reversed_strings@.len() == 0,
        r.shifted_array_strings@.len() == 0,
        r.plaintext_iocs@.len() == 0,
    ensures
        report_text(r) == "# --- [ KOVACS EVIDENCES ] ---\n"@,
{
    let e = Seq::<char>::empty();
    let t = "# --- [ KOVACS EVIDENCES ] ---\n"@;
    assert(t + e + e + e + e + e + e =~= t);
}

} // verus!
