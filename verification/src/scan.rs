//! A whole scan of a script sample: every detector, then the network indicators in
//! everything they decoded.
use vstd::prelude::*;
use crate::detectors::decoder::{b64_decode_strings, base64_strings};
use crate::detectors::network::{
    ip_indicators, law_network_indicators_unique, network_iocs, url_indicators,
};
use crate::patterns::{regex_find_all, IP_PATTERN, URL_PATTERN};
use crate::detectors::plain::{hunt_plaintext_threats, plaintext_threats};
use crate::engines::arrays::{hunt_shift_obfuscation, shift_obfuscation};
use crate::engines::obfuscation::{
    hunt_stateful_obfuscation, hunt_strreverse_obfuscation, stateful_obfuscation,
    strreverse_obfuscation,
};
use crate::models::ScanResult;

verus! {

/// The URLs found in each text, one text after another (repetitions across texts kept).
pub open spec fn gathered_urls(texts: Seq<Seq<char>>) -> Seq<Seq<char>>
    decreases texts.len(),
{
    if texts.len() == 0 {
        Seq::<Seq<char>>::empty()
    } else {
        gathered_urls(texts.drop_last()) + url_indicators(texts.last())
    }
}

/// The IP addresses found in each text, one text after another (repetitions across texts kept).
pub open spec fn gathered_ips(texts: Seq<Seq<char>>) -> Seq<Seq<char>>
    decreases texts.len(),
{
    if texts.len() == 0 {
        Seq::<Seq<char>>::empty()
    } else {
        gathered_ips(texts.drop_last()) + ip_indicators(texts.last())
    }
}

/// The decoded halves of (original, decoded) pairs.
pub open spec fn decoded_halves(pairs: Seq<(Seq<char>, Seq<char>)>) -> Seq<Seq<char>> {
    pairs.map_values(|p: (Seq<char>, Seq<char>)| p.1)
}

/// Every text a scan decoded or found: base64 texts, reversed strings, `StrReverse` payloads,
/// stateful payloads, shifted-array texts and plaintext indicators, in that order.
pub open spec fn decoded_texts(r: ScanResult) -> Seq<Seq<char>> {
    decoded_halves(r.base64_strings.deep_view()) + decoded_halves(r.reversed_strings.deep_view())
        + decoded_halves(r.script_obfuscation.deep_view()) + decoded_halves(
        r.stateful_obfuscation.deep_view(),
    ) + r.shifted_array_strings.deep_view() + r.plaintext_iocs.deep_view()
}

/// Appends the network indicators of each of `texts` to `urls` and `ips`.
pub fn gather_network_iocs(texts: &Vec<String>, urls: &mut Vec<String>, ips: &mut Vec<String>)
    ensures
        final(urls).deep_view() == old(urls).deep_view() + gathered_urls(texts.deep_view()),
        final(ips).deep_view() == old(ips).deep_view() + gathered_ips(texts.deep_view()),
{
    let ghost tv = texts.deep_view();
    let ghost u0 = urls.deep_view();
    let ghost i0 = ips.deep_view();
    let n = texts.len();
    let mut k: usize = 0;
    assert(tv.take(0) =~= Seq::<Seq<char>>::empty());
    assert(u0 + Seq::<Seq<char>>::empty() =~= u0);
    assert(i0 + Seq::<Seq<char>>::empty() =~= i0);
    while k < n
        invariant
            k <= n == texts@.len(),
            tv == texts.deep_view(),
            urls.deep_view() == u0 + gathered_urls(tv.take(k as int)),
            ips.deep_view() == i0 + gathered_ips(tv.take(k as int)),
        decreases n - k,
    {
        assert(tv.take(k + 1).drop_last() =~= tv.take(k as int));
        let (mut found_urls, mut found_ips) = network_iocs(texts[k].as_str());
        let ghost fu = found_urls.deep_view();
        let ghost fi = found_ips.deep_view();
        let ghost bu = urls.deep_view();
        let ghost bi = ips.deep_view();
        ips.append(&mut found_ips);
        urls.append(&mut found_urls);
        assert(urls.deep_view() =~= bu + fu);
        assert(ips.deep_view() =~= bi + fi);
        assert(u0 + gathered_urls(tv.take(k + 1)) =~= u0 + gathered_urls(tv.take(k as int)) + fu);
        assert(i0 + gathered_ips(tv.take(k + 1)) =~= i0 + gathered_ips(tv.take(k as int)) + fi);
        k = k + 1;
    }
    assert(tv.take(n as int) =~= tv);
}

fn push_decoded(out: &mut Vec<String>, pairs: &Vec<(String, String)>)
    ensures
        final(out).deep_view() == old(out).deep_view() + decoded_halves(pairs.deep_view()),
{
    let ghost start = out.deep_view();
    let n = pairs.len();
    let mut i: usize = 0;
    while i < n
        invariant
            i <= n == pairs@.len(),
            out.deep_view() == start + decoded_halves(pairs.deep_view().take(i as int)),
        decreases n - i,
    {
        let ghost before = out.deep_view();
        out.push(pairs[i].1.clone());
        assert(out.deep_view() =~= before.push(pairs.deep_view()[i as int].1));
        i = i + 1;
        assert(out.deep_view() =~= start + decoded_halves(pairs.deep_view().take(i as int)));
    }
    assert(pairs.deep_view().take(n as int) =~= pairs.deep_view());
}

fn push_all(out: &mut Vec<String>, items: &Vec<String>)
    ensures
        final(out).deep_view() == old(out).deep_view() + items.deep_view(),
{
    let ghost start = out.deep_view();
    let n = items.len();
    let mut i: usize = 0;
    while i < n
        invariant
            i <= n == items@.len(),
            out.deep_view() == start + items.deep_view().take(i as int),
        decreases n - i,
    {
        let ghost before = out.deep_view();
        out.push(items[i].clone());
        assert(out.deep_view() =~= before.push(items.deep_view()[i as int]));
        i = i + 1;
        assert(out.deep_view() =~= start + items.deep_view().take(i as int));
    }
    assert(items.deep_view().take(n as int) =~= items.deep_view());
}

/// Every text of a scan that network indicators are looked for in.
pub fn texts_to_search(r: &ScanResult) -> (res: Vec<String>)
    ensures
        res.deep_view() == decoded_texts(*r),
{
    let mut texts: Vec<String> = Vec::new();
    assert(texts.deep_view() =~= Seq::<Seq<char>>::empty());
    push_decoded(&mut texts, &r.base64_strings);
    push_decoded(&mut texts, &r.reversed_strings);
    push_decoded(&mut texts, &r.script_obfuscation);
    push_decoded(&mut texts, &r.stateful_obfuscation);
    push_all(&mut texts, &r.shifted_array_strings);
    push_all(&mut texts, &r.plaintext_iocs);
    assert(texts.deep_view() =~= decoded_texts(*r));
    texts
}

/// Scans a script: base64 strings, plaintext indicators, `StrReverse` payloads, stateful
/// payloads and shifted arrays, then the URLs and IP addresses in everything these found.
pub fn scan_script(content: &str) -> (res: ScanResult)
    ensures
        res.base64_strings.deep_view() == base64_strings(content@),
        res.plaintext_iocs.deep_view() == plaintext_threats(content@),
        res.script_obfuscation.deep_view() == strreverse_obfuscation(content@),
        res.stateful_obfuscation.deep_view() == stateful_obfuscation(content@),
        res.shifted_array_strings.deep_view() == shift_obfuscation(content@),
        res.reversed_strings@.len() == 0,
        res.urls.deep_view() == gathered_urls(decoded_texts(res)),
        res.ips.deep_view() == gathered_ips(decoded_texts(res)),
        forall|k: int|
            0 <= k < res.base64_strings@.len() ==> network_covered(
                res.urls.deep_view(),
                res.ips.deep_view(),
                #[trigger] res.base64_strings.deep_view()[k].1,
            ),
        forall|k: int|
            0 <= k < res.script_obfuscation@.len() ==> network_covered(
                res.urls.deep_view(),
                res.ips.deep_view(),
                #[trigger] res.script_obfuscation.deep_view()[k].1,
            ),
        forall|k: int|
            0 <= k < res.stateful_obfuscation@.len() ==> network_covered(
                res.urls.deep_view(),
                res.ips.deep_view(),
                #[trigger] res.stateful_obfuscation.deep_view()[k].1,
            ),
        forall|k: int|
            0 <= k < res.shifted_array_strings@.len() ==> network_covered(
                res.urls.deep_view(),
                res.ips.deep_view(),
                #[trigger] res.shifted_array_strings.deep_view()[k],
            ),
        forall|k: int|
            0 <= k < res.plaintext_iocs@.len() ==> network_covered(
                res.urls.deep_view(),
                res.ips.deep_view(),
                #[trigger] res.plaintext_iocs.deep_view()[k],
            ),
{
    let mut results = ScanResult::new();
    results.base64_strings = b64_decode_strings(content);
    results.plaintext_iocs = hunt_plaintext_threats(content);
    results.script_obfuscation = hunt_strreverse_obfuscation(content);
    results.stateful_obfuscation = hunt_stateful_obfuscation(content);
    results.shifted_array_strings = hunt_shift_obfuscation(content);
    let texts = texts_to_search(&results);
    let mut urls: Vec<String> = Vec::new();
    let mut ips: Vec<String> = Vec::new();
    gather_network_iocs(&texts, &mut urls, &mut ips);
    assert(urls.deep_view() =~= gathered_urls(texts.deep_view()));
    assert(ips.deep_view() =~= gathered_ips(texts.deep_view()));
    results.urls = urls;
    results.ips = ips;
    proof {
        law_scan_searches_every_finding(results);
    }
    results
}

/// Every URL and IP address a scan reports was matched by its pattern in one of the texts the
/// detectors found.
pub proof fn law_network_from_findings(texts: Seq<Seq<char>>)
    ensures
        forall|u: Seq<char>| #[trigger] gathered_urls(texts).contains(u) ==> exists|k: int|
            0 <= k < texts.len() && regex_find_all(URL_PATTERN@, #[trigger] texts[k]).contains(u),
        forall|a: Seq<char>| #[trigger] gathered_ips(texts).contains(a) ==> exists|k: int|
            0 <= k < texts.len() && regex_find_all(IP_PATTERN@, #[trigger] texts[k]).contains(a),
    decreases texts.len(),
{
    if texts.len() > 0 {
        let rest = texts.drop_last();
        let last = texts.last();
        law_network_from_findings(rest);
        law_network_indicators_unique(last);
        assert forall|u: Seq<char>| #[trigger] gathered_urls(texts).contains(u) implies exists|k: int|
            0 <= k < texts.len() && regex_find_all(URL_PATTERN@, #[trigger] texts[k]).contains(u) by {
            let g = gathered_urls(rest);
            let j = choose|j: int| 0 <= j < gathered_urls(texts).len() && gathered_urls(texts)[j] == u;
            if j < g.len() {
                assert(gathered_urls(texts)[j] == g[j]);
                assert(g.contains(u));
                let k = choose|k: int| 0 <= k < rest.len() && regex_find_all(URL_PATTERN@, #[trigger] rest[k]).contains(u);
                assert(texts[k] == rest[k]);
            } else {
                assert(url_indicators(last)[j - g.len()] == u);
                assert(url_indicators(last).contains(u));
                assert(texts[texts.len() - 1] == last);
            }
        }
        assert forall|a: Seq<char>| #[trigger] gathered_ips(texts).contains(a) implies exists|k: int|
            0 <= k < texts.len() && regex_find_all(IP_PATTERN@, #[trigger] texts[k]).contains(a) by {
            let g = gathered_ips(rest);
            let j = choose|j: int| 0 <= j < gathered_ips(texts).len() && gathered_ips(texts)[j] == a;
            if j < g.len() {
                assert(gathered_ips(texts)[j] == g[j]);
                assert(g.contains(a));
                let k = choose|k: int| 0 <= k < rest.len() && regex_find_all(IP_PATTERN@, #[trigger] rest[k]).contains(a);
                assert(texts[k] == rest[k]);
            } else {
                assert(ip_indicators(last)[j - g.len()] == a);
                assert(ip_indicators(last).contains(a));
                assert(texts[texts.len() - 1] == last);
            }
        }
    }
}

/// Every URL and every address that the network patterns find in `t` is among `urls` and
/// `ips`.
pub open spec fn network_covered(urls: Seq<Seq<char>>, ips: Seq<Seq<char>>, t: Seq<char>) -> bool {
    &&& forall|u: Seq<char>| #[trigger] regex_find_all(URL_PATTERN@, t).contains(u) ==> urls.contains(u)
    &&& forall|a: Seq<char>| #[trigger] regex_find_all(IP_PATTERN@, t).contains(a) ==> ips.contains(a)
}

proof fn lemma_gathered_covers(texts: Seq<Seq<char>>, t: Seq<char>)
    requires
        texts.contains(t),
    ensures
        network_covered(gathered_urls(texts), gathered_ips(texts), t),
    decreases texts.len(),
{
    let rest = texts.drop_last();
    let g = gathered_urls(rest);
    let h = gathered_ips(rest);
    if texts.last() == t {
        law_network_indicators_unique(t);
        assert forall|u: Seq<char>| #[trigger] regex_find_all(URL_PATTERN@, t).contains(u) implies gathered_urls(
            texts,
        ).contains(u) by {
            assert(url_indicators(t).contains(u));
            let j = choose|j: int| 0 <= j < url_indicators(t).len() && url_indicators(t)[j] == u;
            assert(gathered_urls(texts)[g.len() + j] == u);
        }
        assert forall|a: Seq<char>| #[trigger] regex_find_all(IP_PATTERN@, t).contains(a) implies gathered_ips(
            texts,
        ).contains(a) by {
            assert(ip_indicators(t).contains(a));
            let j = choose|j: int| 0 <= j < ip_indicators(t).len() && ip_indicators(t)[j] == a;
            assert(gathered_ips(texts)[h.len() + j] == a);
        }
    } else {
        let k = choose|k: int| 0 <= k < texts.len() && texts[k] == t;
        assert(rest[k] == t);
        lemma_gathered_covers(rest, t);
        assert forall|u: Seq<char>| #[trigger] regex_find_all(URL_PATTERN@, t).contains(u) implies gathered_urls(
            texts,
        ).contains(u) by {
            let j = choose|j: int| 0 <= j < g.len() && g[j] == u;
            assert(gathered_urls(texts)[j] == u);
        }
        assert forall|a: Seq<char>| #[trigger] regex_find_all(IP_PATTERN@, t).contains(a) implies gathered_ips(
            texts,
        ).contains(a) by {
            let j = choose|j: int| 0 <= j < h.len() && h[j] == a;
            assert(gathered_ips(texts)[j] == a);
        }
    }
}

/// A scan searches every text it found for network indicators: the decoded base64 strings,
/// the reversed strings, the `StrReverse` payloads, the stateful payloads, the shifted-array
/// texts and the plaintext indicators. Every URL and address the patterns find in any of them
/// is reported.
pub proof fn law_scan_searches_every_finding(r: ScanResult)
    requires
        r.urls.deep_view() == gathered_urls(decoded_texts(r)),
        r.ips.deep_view() == gathered_ips(decoded_texts(r)),
    ensures
        forall|k: int|
            0 <= k < r.base64_strings@.len() ==> network_covered(
                r.urls.deep_view(),
                r.ips.deep_view(),
                #[trigger] r.base64_strings.deep_view()[k].1,
            ),
        forall|k: int|
            0 <= k < r.reversed_strings@.len() ==> network_covered(
                r.urls.deep_view(),
                r.ips.deep_view(),
                #[trigger] r.reversed_strings.deep_view()[k].1,
            ),
        forall|k: int|
            0 <= k < r.script_obfuscation@.len() ==> network_covered(
                r.urls.deep_view(),
                r.ips.deep_view(),
                #[trigger] r.script_obfuscation.deep_view()[k].1,
            ),
        forall|k: int|
            0 <= k < r.stateful_obfuscation@.len() ==> network_covered(
                r.urls.deep_view(),
                r.ips.deep_view(),
                #[trigger] r.stateful_obfuscation.deep_view()[k].1,
            ),
        forall|k: int|
            0 <= k < r.shifted_array_strings@.len() ==> network_covered(
                r.urls.deep_view(),
                r.ips.deep_view(),
                #[trigger] r.shifted_array_strings.deep_view()[k],
            ),
        forall|k: int|
            0 <= k < r.plaintext_iocs@.len() ==> network_covered(
                r.urls.deep_view(),
                r.ips.deep_view(),
                #[trigger] r.plaintext_iocs.deep_view()[k],
            ),
{
    let b = decoded_halves(r.base64_strings.deep_view());
    let v = decoded_halves(r.reversed_strings.deep_view());
    let c = decoded_halves(r.script_obfuscation.deep_view());
    let d = decoded_halves(r.stateful_obfuscation.deep_view());
    let e = r.shifted_array_strings.deep_view();
    let f = r.plaintext_iocs.deep_view();
    let all = decoded_texts(r);
    assert(all == b + v + c + d + e + f);
    assert forall|k: int| 0 <= k < r.base64_strings@.len() implies network_covered(
        r.urls.deep_view(),
        r.ips.deep_view(),
        #[trigger] r.base64_strings.deep_view()[k].1,
    ) by {
        assert(all[k] == b[k]);
        lemma_gathered_covers(all, b[k]);
    }
    assert forall|k: int| 0 <= k < r.reversed_strings@.len() implies network_covered(
        r.urls.deep_view(),
        r.ips.deep_view(),
        #[trigger] r.reversed_strings.deep_view()[k].1,
    ) by {
        assert(all[b.len() + k] == v[k]);
        lemma_gathered_covers(all, v[k]);
    }
    assert forall|k: int| 0 <= k < r.script_obfuscation@.len() implies network_covered(
        r.urls.deep_view(),
        r.ips.deep_view(),
        #[trigger] r.script_obfuscation.deep_view()[k].1,
    ) by {
        assert(all[b.len() + v.len() + k] == c[k]);
        lemma_gathered_covers(all, c[k]);
    }
    assert forall|k: int| 0 <= k < r.stateful_obfuscation@.len() implies network_covered(
        r.urls.deep_view(),
        r.ips.deep_view(),
        #[trigger] r.stateful_obfuscation.deep_view()[k].1,
    ) by {
        assert(all[b.len() + v.len() + c.len() + k] == d[k]);
        lemma_gathered_covers(all, d[k]);
    }
    assert forall|k: int| 0 <= k < r.shifted_array_strings@.len() implies network_covered(
        r.urls.deep_view(),
        r.ips.deep_view(),
        #[trigger] r.shifted_array_strings.deep_view()[k],
    ) by {
        assert(all[b.len() + v.len() + c.len() + d.len() + k] == e[k]);
        lemma_gathered_covers(all, e[k]);
    }
    assert forall|k: int| 0 <= k < r.plaintext_iocs@.len() implies network_covered(
        r.urls.deep_view(),
        r.ips.deep_view(),
        #[trigger] r.plaintext_iocs.deep_view()[k],
    ) by {
        assert(all[b.len() + v.len() + c.len() + d.len() + e.len() + k] == f[k]);
        lemma_gathered_covers(all, f[k]);
    }
}

} // verus!
