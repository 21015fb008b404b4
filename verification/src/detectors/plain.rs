//! Lines of the sample that are threat indicators as they stand.
use vstd::prelude::*;
use crate::text::{
    chars_of, dedup, is_white_space, lemma_dedup, lemma_dedup_merge, lemma_dedup_of_distinct,
    lemma_split_by_len, lemma_split_join, lemma_split_no_separator, lemma_split_pieces_clean,
    lemma_trim_idempotent, lemma_trim_keeps, lemma_trim_prefix_white, lemma_trim_push_white,
    lemma_trim_strip_cr, lines, lines_of, push_unique, separates, split_by, string_from_chars,
    strip_cr, trim, trim_chars, trim_start, Separator,
};
use crate::utils::treat_detection::{is_threat, lemma_empty_not_threat, spec_is_threat};

verus! {

/// The trimmed lines that are threats, in order, with repetitions.
pub open spec fn threat_lines(ls: Seq<Seq<char>>) -> Seq<Seq<char>>
    decreases ls.len(),
{
    if ls.len() == 0 {
        Seq::<Seq<char>>::empty()
    } else {
        let rest = threat_lines(ls.drop_last());
        let t = trim(ls.last());
        if spec_is_threat(t) {
            rest.push(t)
        } else {
            rest
        }
    }
}

/// The trimmed lines of `content` that are threats, each once, in order of first occurrence.
pub open spec fn plaintext_threats(content: Seq<char>) -> Seq<Seq<char>> {
    dedup(threat_lines(lines(content)))
}

/// Scans the lines of `content`: each line, trimmed, that is a threat is reported once.
pub fn hunt_plaintext_threats(content: &str) -> (res: Vec<String>)
    ensures
        res.deep_view() == plaintext_threats(content@),
{
    let chars = chars_of(content);
    let ls = lines_of(chars.as_slice());
    let ghost lv = ls.deep_view();
    let mut found: Vec<String> = Vec::new();
    let n = ls.len();
    let mut i: usize = 0;
    assert(lv.take(0) =~= Seq::<Seq<char>>::empty());
    while i < n
        invariant
            i <= n == ls@.len(),
            lv == ls.deep_view(),
            found.deep_view() == dedup(threat_lines(lv.take(i as int))),
        decreases n - i,
    {
        assert(ls[i as int].deep_view() =~= ls[i as int]@);
        let clean = trim_chars(ls[i].as_slice());
        let line = string_from_chars(clean.as_slice());
        let ghost prev = threat_lines(lv.take(i as int));
        assert(lv.take(i + 1).drop_last() =~= lv.take(i as int));
        if is_threat(line.as_str()) {
            assert(prev.push(line@).drop_last() =~= prev);
            push_unique(&mut found, line);
        }
        i = i + 1;
    }
    assert(lv.take(n as int) =~= lv);
    found
}

proof fn lemma_threat_lines(ls: Seq<Seq<char>>)
    ensures
        forall|x: Seq<char>| #[trigger] threat_lines(ls).contains(x) <==> exists|k: int|
            0 <= k < ls.len() && x == trim(#[trigger] ls[k]) && spec_is_threat(x),
    decreases ls.len(),
{
    if ls.len() > 0 {
        let rest = ls.drop_last();
        lemma_threat_lines(rest);
        let t = trim(ls.last());
        assert forall|x: Seq<char>| #[trigger] threat_lines(ls).contains(x) <==> exists|k: int|
            0 <= k < ls.len() && x == trim(#[trigger] ls[k]) && spec_is_threat(x) by {
            if threat_lines(ls).contains(x) {
                let j = choose|j: int| 0 <= j < threat_lines(ls).len() && threat_lines(ls)[j] == x;
                if j < threat_lines(rest).len() {
                    assert(threat_lines(ls)[j] == threat_lines(rest)[j]);
                    assert(threat_lines(rest).contains(x));
                    let k = choose|k: int| 0 <= k < rest.len() && x == trim(#[trigger] rest[k]) && spec_is_threat(x);
                    assert(ls[k] == rest[k]);
                } else {
                    assert(ls[ls.len() - 1] == ls.last());
                }
            }
            if exists|k: int| 0 <= k < ls.len() && x == trim(#[trigger] ls[k]) && spec_is_threat(x) {
                let k = choose|k: int| 0 <= k < ls.len() && x == trim(#[trigger] ls[k]) && spec_is_threat(x);
                if k < ls.len() - 1 {
                    assert(rest[k] == ls[k]);
                    assert(threat_lines(rest).contains(x));
                    let j = choose|j: int| 0 <= j < threat_lines(rest).len() && threat_lines(rest)[j] == x;
                    if spec_is_threat(t) {
                        assert(threat_lines(ls)[j] == x);
                    }
                } else {
                    assert(threat_lines(ls) == threat_lines(rest).push(t));
                    assert(threat_lines(ls)[threat_lines(rest).len() as int] == x);
                }
            }
        }
    }
}

/// The plaintext detector reports exactly the trimmed lines that are threats: each is a
/// threat, each is already trimmed, none is reported twice, and every line that trims to a
/// threat is reported.
pub proof fn law_plaintext_findings(content: Seq<char>)
    ensures
        forall|i: int, j: int|
            0 <= i < j < plaintext_threats(content).len() ==> plaintext_threats(content)[i]
                != plaintext_threats(content)[j],
        forall|x: Seq<char>| #[trigger] plaintext_threats(content).contains(x) ==> spec_is_threat(x)
            && trim(x) == x,
        forall|k: int|
            0 <= k < lines(content).len() && spec_is_threat(trim(#[trigger] lines(content)[k]))
                ==> plaintext_threats(content).contains(trim(lines(content)[k])),
{
    let ls = lines(content);
    lemma_threat_lines(ls);
    lemma_dedup(threat_lines(ls));
    assert forall|x: Seq<char>| #[trigger] plaintext_threats(content).contains(x) implies spec_is_threat(x)
        && trim(x) == x by {
        assert(threat_lines(ls).contains(x));
        let k = choose|k: int| 0 <= k < ls.len() && x == trim(#[trigger] ls[k]) && spec_is_threat(x);
        lemma_trim_idempotent(ls[k]);
    }
    assert forall|k: int|
        0 <= k < ls.len() && spec_is_threat(trim(#[trigger] ls[k])) implies plaintext_threats(
        content,
    ).contains(trim(ls[k])) by {
        assert(threat_lines(ls).contains(trim(ls[k])));
    }
}

/// `s` with every line feed preceded by a carriage return (`s.replace("\n", "\r\n")`).
pub open spec fn crlf_endings(s: Seq<char>) -> Seq<char>
    decreases s.len(),
{
    if s.len() == 0 {
        Seq::<char>::empty()
    } else if s.last() == '\n' {
        crlf_endings(s.drop_last()) + seq!['\r', '\n']
    } else {
        crlf_endings(s.drop_last()).push(s.last())
    }
}

/// The lines `r` joined by line feeds (`r.join("\n")`).
pub open spec fn join_lines(r: Seq<Seq<char>>) -> Seq<char>
    decreases r.len(),
{
    if r.len() == 0 {
        Seq::<char>::empty()
    } else if r.len() == 1 {
        r[0]
    } else {
        join_lines(r.drop_last()).push('\n') + r.last()
    }
}

proof fn lemma_threat_lines_append(x: Seq<Seq<char>>, y: Seq<Seq<char>>)
    ensures
        threat_lines(x + y) == threat_lines(x) + threat_lines(y),
    decreases y.len(),
{
    if y.len() == 0 {
        assert(x + y =~= x);
        assert(threat_lines(x) + Seq::<Seq<char>>::empty() =~= threat_lines(x));
    } else {
        lemma_threat_lines_append(x, y.drop_last());
        assert((x + y).drop_last() =~= x + y.drop_last());
        assert((x + y).last() == y.last());
        let t = trim(y.last());
        assert((threat_lines(x) + threat_lines(y.drop_last())).push(t) =~= threat_lines(x) + threat_lines(
            y.drop_last(),
        ).push(t));
    }
}

proof fn lemma_threat_lines_same_trim(x: Seq<Seq<char>>, y: Seq<Seq<char>>)
    requires
        x.len() == y.len(),
        forall|i: int| 0 <= i < x.len() ==> trim(#[trigger] x[i]) == trim(y[i]),
    ensures
        threat_lines(x) == threat_lines(y),
    decreases x.len(),
{
    if x.len() > 0 {
        let x0 = x.drop_last();
        let y0 = y.drop_last();
        assert forall|i: int| 0 <= i < x0.len() implies trim(#[trigger] x0[i]) == trim(y0[i]) by {
            assert(x0[i] == x[i]);
            assert(y0[i] == y[i]);
        }
        lemma_threat_lines_same_trim(x0, y0);
        assert(trim(x[x.len() - 1]) == trim(y[y.len() - 1]));
    }
}

proof fn lemma_threat_lines_identity(x: Seq<Seq<char>>)
    requires
        forall|i: int| 0 <= i < x.len() ==> spec_is_threat(#[trigger] x[i]) && trim(x[i]) == x[i],
    ensures
        threat_lines(x) == x,
    decreases x.len(),
{
    if x.len() > 0 {
        let x0 = x.drop_last();
        assert forall|i: int| 0 <= i < x0.len() implies spec_is_threat(#[trigger] x0[i]) && trim(x0[i])
            == x0[i] by {
            assert(x0[i] == x[i]);
        }
        lemma_threat_lines_identity(x0);
        assert(x[x.len() - 1] == x.last());
        assert(x0.push(x.last()) =~= x);
    }
}

/// Only the trimmed pieces between line feeds matter to the plaintext scan.
proof fn lemma_threat_lines_of_lines(c: Seq<char>)
    ensures
        threat_lines(lines(c)) == threat_lines(split_by(c, Separator::Newline)),
{
    lemma_empty_not_threat();
    let p = split_by(c, Separator::Newline);
    lemma_split_by_len(c, Separator::Newline);
    let body = p.drop_last().map_values(|l: Seq<char>| strip_cr(l));
    assert forall|i: int| 0 <= i < body.len() implies trim(#[trigger] body[i]) == trim(p.drop_last()[i]) by {
        lemma_trim_strip_cr(p.drop_last()[i]);
    }
    lemma_threat_lines_same_trim(body, p.drop_last());
    assert(p.drop_last().push(p.last()) =~= p);
    let t = trim(p.last());
    assert(threat_lines(p) == if spec_is_threat(t) {
        threat_lines(p.drop_last()).push(t)
    } else {
        threat_lines(p.drop_last())
    });
    if p.last().len() == 0 {
        assert(p.last() =~= Seq::<char>::empty());
        assert(trim_start(p.last()) == p.last());
        assert(t == p.last());
        assert(lines(c) == body);
    } else {
        assert(lines(c) == body.push(p.last()));
        assert(body.push(p.last()).drop_last() =~= body);
        assert(body.push(p.last()).last() == p.last());
    }
}

proof fn lemma_lines_clean(c: Seq<char>)
    ensures
        forall|k: int, j: int|
            #![trigger lines(c)[k][j]]
            0 <= k < lines(c).len() && 0 <= j < lines(c)[k].len() ==> lines(c)[k][j] != '\n',
{
    let p = split_by(c, Separator::Newline);
    lemma_split_pieces_clean(c, Separator::Newline);
    lemma_split_by_len(c, Separator::Newline);
    assert forall|k: int, j: int|
        0 <= k < lines(c).len() && 0 <= j < lines(c)[k].len() implies #[trigger] lines(c)[k][j]
        != '\n' by {
        if k < p.len() - 1 {
            let l = p[k];
            assert(p.drop_last()[k] == l);
            assert(lines(c)[k] == strip_cr(l));
            assert(strip_cr(l)[j] == l[j]);
            assert(!separates(Separator::Newline, p[k][j]));
        } else {
            assert(lines(c)[k] == p.last());
            assert(!separates(Separator::Newline, p[p.len() - 1][j]));
        }
    }
}

proof fn lemma_split_join_lines(r: Seq<Seq<char>>)
    requires
        r.len() > 0,
        forall|k: int, j: int| #![trigger r[k][j]] 0 <= k < r.len() && 0 <= j < r[k].len() ==> r[k][j] != '\n',
    ensures
        split_by(join_lines(r), Separator::Newline) == r,
    decreases r.len(),
{
    if r.len() == 1 {
        assert forall|i: int| 0 <= i < r[0].len() implies !separates(Separator::Newline, #[trigger] r[0][i]) by {
            assert(r[0][i] != '\n');
        }
        lemma_split_no_separator(r[0], Separator::Newline);
        assert(seq![r[0]] =~= r);
    } else {
        let r0 = r.drop_last();
        assert forall|k: int, j: int| #![trigger r0[k][j]] 0 <= k < r0.len() && 0 <= j < r0[k].len() implies r0[k][j] != '\n' by {
            assert(r0[k] == r[k]);
        }
        lemma_split_join_lines(r0);
        let last = r.last();
        assert forall|i: int| 0 <= i < last.len() implies !separates(Separator::Newline, #[trigger] last[i]) by {
            assert(r[r.len() - 1][i] != '\n');
        }
        lemma_split_no_separator(last, Separator::Newline);
        lemma_split_join(join_lines(r0), '\n', last, Separator::Newline);
        assert(r0 + seq![last] =~= r);
    }
}

/// Scanning the findings again, one per line, gives the same findings.
pub proof fn law_plaintext_rescan(content: Seq<char>)
    ensures
        plaintext_threats(join_lines(plaintext_threats(content))) == plaintext_threats(content),
{
    let r = plaintext_threats(content);
    let ls = lines(content);
    lemma_threat_lines(ls);
    lemma_dedup(threat_lines(ls));
    law_plaintext_findings(content);
    lemma_empty_not_threat();
    if r.len() == 0 {
        let e = Seq::<char>::empty();
        assert(split_by(e, Separator::Newline) == seq![e]);
        lemma_threat_lines_of_lines(e);
        assert(seq![e].drop_last() =~= Seq::<Seq<char>>::empty());
        assert(trim(e) == e);
    } else {
        lemma_lines_clean(content);
        assert forall|k: int, j: int| #![trigger r[k][j]] 0 <= k < r.len() && 0 <= j < r[k].len() implies r[k][j] != '\n' by {
            let x = r[k];
            assert(r.contains(x));
            assert(threat_lines(ls).contains(x));
            let m = choose|m: int| 0 <= m < ls.len() && x == trim(#[trigger] ls[m]) && spec_is_threat(x);
            let a = lemma_trim_keeps(ls[m]);
            assert(x[j] == ls[m][a + j]);
        }
        lemma_split_join_lines(r);
        lemma_threat_lines_of_lines(join_lines(r));
        assert forall|i: int| 0 <= i < r.len() implies spec_is_threat(#[trigger] r[i]) && trim(r[i]) == r[i] by {
            assert(r.contains(r[i]));
        }
        lemma_threat_lines_identity(r);
        lemma_dedup_of_distinct(r);
    }
}

proof fn lemma_split_crlf(c: Seq<char>)
    ensures
        split_by(crlf_endings(c), Separator::Newline).len() == split_by(c, Separator::Newline).len(),
        forall|i: int|
            0 <= i < split_by(c, Separator::Newline).len() - 1 ==> #[trigger] split_by(
                crlf_endings(c),
                Separator::Newline,
            )[i] == split_by(c, Separator::Newline)[i].push('\r'),
        split_by(crlf_endings(c), Separator::Newline).last() == split_by(c, Separator::Newline).last(),
    decreases c.len(),
{
    if c.len() > 0 {
        let c0 = c.drop_last();
        lemma_split_crlf(c0);
        lemma_split_by_len(c0, Separator::Newline);
        let x = split_by(c0, Separator::Newline);
        let y = split_by(crlf_endings(c0), Separator::Newline);
        let e = Seq::<char>::empty();
        if c.last() == '\n' {
            let z = crlf_endings(c0).push('\r');
            assert(crlf_endings(c) =~= z.push('\n'));
            assert(z.push('\n').drop_last() =~= z);
            assert(z.drop_last() =~= crlf_endings(c0));
            let yz = y.update(y.len() - 1, y.last().push('\r'));
            assert(split_by(z, Separator::Newline) == yz);
            assert(split_by(crlf_endings(c), Separator::Newline) == yz.push(e));
            assert(split_by(c, Separator::Newline) == x.push(e));
            assert forall|i: int| 0 <= i < x.len() implies #[trigger] yz.push(e)[i] == x.push(e)[i].push('\r') by {
                if i < x.len() - 1 {
                    assert(yz[i] == y[i]);
                }
            }
        } else {
            assert(crlf_endings(c).drop_last() =~= crlf_endings(c0));
            assert(crlf_endings(c).last() == c.last());
            let yu = y.update(y.len() - 1, y.last().push(c.last()));
            let xu = x.update(x.len() - 1, x.last().push(c.last()));
            assert(split_by(crlf_endings(c), Separator::Newline) == yu);
            assert(split_by(c, Separator::Newline) == xu);
            assert forall|i: int| 0 <= i < xu.len() - 1 implies #[trigger] yu[i] == xu[i].push('\r') by {
                assert(yu[i] == y[i]);
                assert(xu[i] == x[i]);
            }
        }
    }
}

/// Writing line ends as `\r\n` does not change what the plaintext scan reports.
pub proof fn law_plaintext_crlf(content: Seq<char>)
    ensures
        plaintext_threats(crlf_endings(content)) == plaintext_threats(content),
{
    lemma_split_crlf(content);
    lemma_split_by_len(content, Separator::Newline);
    let x = split_by(content, Separator::Newline);
    let y = split_by(crlf_endings(content), Separator::Newline);
    assert forall|i: int| 0 <= i < y.len() implies trim(#[trigger] y[i]) == trim(x[i]) by {
        if i < x.len() - 1 {
            lemma_trim_push_white(x[i], '\r');
        } else {
            assert(y[i] == y.last());
        }
    }
    lemma_threat_lines_same_trim(y, x);
    lemma_threat_lines_of_lines(content);
    lemma_threat_lines_of_lines(crlf_endings(content));
}

proof fn lemma_split_prefix(w: Seq<char>, c: Seq<char>)
    requires
        forall|i: int| 0 <= i < w.len() ==> #[trigger] w[i] != '\n',
    ensures
        split_by(w + c, Separator::Newline).len() == split_by(c, Separator::Newline).len(),
        split_by(w + c, Separator::Newline)[0] == w + split_by(c, Separator::Newline)[0],
        forall|i: int|
            1 <= i < split_by(c, Separator::Newline).len() ==> #[trigger] split_by(w + c, Separator::Newline)[i]
                == split_by(c, Separator::Newline)[i],
    decreases c.len(),
{
    let e = Seq::<char>::empty();
    if c.len() == 0 {
        assert(w + c =~= w);
        assert forall|i: int| 0 <= i < w.len() implies !separates(Separator::Newline, #[trigger] w[i]) by {}
        lemma_split_no_separator(w, Separator::Newline);
        assert(w + e =~= w);
    } else {
        let c0 = c.drop_last();
        lemma_split_prefix(w, c0);
        lemma_split_by_len(c0, Separator::Newline);
        let x = split_by(c0, Separator::Newline);
        let y = split_by(w + c0, Separator::Newline);
        assert((w + c).drop_last() =~= w + c0);
        assert((w + c).last() == c.last());
        if c.last() == '\n' {
            assert(split_by(w + c, Separator::Newline) == y.push(e));
            assert(split_by(c, Separator::Newline) == x.push(e));
        } else {
            let yu = y.update(y.len() - 1, y.last().push(c.last()));
            let xu = x.update(x.len() - 1, x.last().push(c.last()));
            assert(split_by(w + c, Separator::Newline) == yu);
            assert(split_by(c, Separator::Newline) == xu);
            if x.len() == 1 {
                assert(yu[0] =~= w + xu[0]);
            } else {
                assert(yu[0] == y[0]);
                assert(xu[0] == x[0]);
            }
            assert forall|i: int| 1 <= i < xu.len() implies #[trigger] yu[i] == xu[i] by {
                if i < xu.len() - 1 {
                    assert(yu[i] == y[i]);
                    assert(xu[i] == x[i]);
                }
            }
        }
    }
}

/// Blanks before the first line (white space other than line feeds) do not change what the
/// plaintext scan reports.
pub proof fn law_plaintext_leading_blanks(blanks: Seq<char>, content: Seq<char>)
    requires
        forall|i: int| 0 <= i < blanks.len() ==> is_white_space(#[trigger] blanks[i]) && blanks[i] != '\n',
    ensures
        plaintext_threats(blanks + content) == plaintext_threats(content),
{
    assert forall|i: int| 0 <= i < blanks.len() implies #[trigger] blanks[i] != '\n' by {}
    lemma_split_prefix(blanks, content);
    lemma_split_by_len(content, Separator::Newline);
    let x = split_by(content, Separator::Newline);
    let y = split_by(blanks + content, Separator::Newline);
    assert forall|i: int| 0 <= i < y.len() implies trim(#[trigger] y[i]) == trim(x[i]) by {
        if i == 0 {
            lemma_trim_prefix_white(blanks, x[0]);
        }
    }
    lemma_threat_lines_same_trim(y, x);
    lemma_threat_lines_of_lines(content);
    lemma_threat_lines_of_lines(blanks + content);
}

/// Scanning two texts joined by a line feed reports the findings of the first, then those of
/// the second that are new.
pub proof fn law_plaintext_merge(first: Seq<char>, second: Seq<char>)
    ensures
        plaintext_threats(first.push('\n') + second) == dedup(
            plaintext_threats(first) + plaintext_threats(second),
        ),
{
    lemma_split_join(first, '\n', second, Separator::Newline);
    lemma_threat_lines_of_lines(first.push('\n') + second);
    lemma_threat_lines_of_lines(first);
    lemma_threat_lines_of_lines(second);
    lemma_threat_lines_append(split_by(first, Separator::Newline), split_by(second, Separator::Newline));
    lemma_dedup_merge(threat_lines(lines(first)), threat_lines(lines(second)));
}

} // verus!
