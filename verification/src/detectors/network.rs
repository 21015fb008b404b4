//! URLs and IP addresses mentioned in a piece of text.
use vstd::prelude::*;
use crate::patterns::{find_all, regex_find_all, IP_PATTERN, URL_PATTERN};
use crate::text::{dedup, dedup_strings, lemma_dedup, occurs_in};

verus! {

/// The URLs that the URL pattern finds in `content`, each once, in order of first occurrence.
pub open spec fn url_indicators(content: Seq<char>) -> Seq<Seq<char>> {
    dedup(regex_find_all(URL_PATTERN@, content))
}

/// The addresses that the IP pattern finds in `content`, each once, in order of first occurrence.
pub open spec fn ip_indicators(content: Seq<char>) -> Seq<Seq<char>> {
    dedup(regex_find_all(IP_PATTERN@, content))
}

/// Network indicators of compromise in `content`: the URLs and the IP addresses, each list
/// without repetitions.
pub fn network_iocs(content: &str) -> (res: (Vec<String>, Vec<String>))
    ensures
        res.0.deep_view() == url_indicators(content@),
        res.1.deep_view() == ip_indicators(content@),
        forall|i: int| 0 <= i < res.0.deep_view().len() ==> occurs_in(content@, #[trigger] res.0.deep_view()[i]),
        forall|i: int| 0 <= i < res.1.deep_view().len() ==> occurs_in(content@, #[trigger] res.1.deep_view()[i]),
{
    let url_matches = find_all(URL_PATTERN, content);
    let ip_matches = find_all(IP_PATTERN, content);
    proof {
        lemma_dedup(url_matches.deep_view());
        lemma_dedup(ip_matches.deep_view());
    }
    let urls = dedup_strings(url_matches);
    let ips = dedup_strings(ip_matches);
    proof {
        assert forall|i: int| 0 <= i < urls.deep_view().len() implies occurs_in(content@, #[trigger] urls.deep_view()[i]) by {
            let x = urls.deep_view()[i];
            assert(urls.deep_view().contains(x));
        }
        assert forall|i: int| 0 <= i < ips.deep_view().len() implies occurs_in(content@, #[trigger] ips.deep_view()[i]) by {
            let x = ips.deep_view()[i];
            assert(ips.deep_view().contains(x));
        }
    }
    (urls, ips)
}

/// Each list of network indicators holds every match of its pattern and nothing else, and
/// no entry twice.
pub proof fn law_network_indicators_unique(content: Seq<char>)
    ensures
        forall|x: Seq<char>| #[trigger] url_indicators(content).contains(x) <==> regex_find_all(
            URL_PATTERN@,
            content,
        ).contains(x),
        forall|x: Seq<char>| #[trigger] ip_indicators(content).contains(x) <==> regex_find_all(
            IP_PATTERN@,
            content,
        ).contains(x),
        forall|i: int, j: int|
            0 <= i < j < url_indicators(content).len() ==> url_indicators(content)[i]
                != url_indicators(content)[j],
        forall|i: int, j: int|
            0 <= i < j < ip_indicators(content).len() ==> ip_indicators(content)[i]
                != ip_indicators(content)[j],
{
    lemma_dedup(regex_find_all(URL_PATTERN@, content));
    lemma_dedup(regex_find_all(IP_PATTERN@, content));
}

} // verus!
